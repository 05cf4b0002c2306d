//! Per-request decisions of the proxy: who the client is, whether it is
//! throttled, which upstream serves it, and how the outbound request is
//! rewritten. The transport itself runs elsewhere and hands in plain values.

use crate::limiter::{LimiterView, RateLimiter};
use crate::pool::{PoolView, UpstreamNode, UpstreamPool};
use vstd::prelude::*;

verus! {

/// Status of the rejection sent to a throttled client.
pub const TOO_MANY_REQUESTS: u16 = 429;

/// A header byte that may stand in a textual header value: visible ASCII or
/// a horizontal tab.
pub open spec fn is_visible_ascii(b: u8) -> bool {
    (32 <= b && b < 127) || b == 9
}

pub open spec fn all_visible_ascii(b: Seq<u8>) -> bool {
    forall|i: int| 0 <= i < b.len() ==> is_visible_ascii(#[trigger] b[i])
}

/// The characters of ASCII bytes.
pub open spec fn ascii_chars(b: Seq<u8>) -> Seq<char> {
    b.map_values(|c: u8| c as char)
}

/// Whole seconds, rounded up, until the window of `now` rolls over.
pub open spec fn reset_seconds(window_ms: u64, now: u64) -> int {
    ((window_ms - now % window_ms) + 999) / 1000
}

/// Relies on `std::str::from_utf8`: a slice of bytes below 0x80 is valid
/// UTF-8, and each byte is the character of the same value.
#[verifier::external_body]
fn ascii_str(b: &[u8]) -> (r: Option<&str>)
    requires
        forall|i: int| 0 <= i < b@.len() ==> b@[i] < 128,
    ensures
        r.is_some(),
        r.unwrap()@ == ascii_chars(b@),
{
    std::str::from_utf8(b).ok()
}

/// The upstream a request is relayed to.
#[derive(Debug)]
pub struct UpstreamPeer {
    pub address: String,
    pub tls: bool,
    pub sni: String,
}

/// The response sent instead of relaying a throttled request.
#[derive(Debug, Clone, Copy, PartialEq, Eq, Structural)]
pub struct RateLimitRejection {
    pub status: u16,
    pub limit: u64,
    pub remaining: u64,
    pub reset_secs: u64,
    pub keepalive: bool,
}

/// What the throttle stage decided.
#[derive(Debug, Clone, Copy, PartialEq, Eq, Structural)]
pub enum FilterOutcome {
    Proceed,
    Reject(RateLimitRejection),
}

/// The proxy's shared state: the upstream pool, the rate limiter, the limit
/// per window and the virtual-host name forced on outbound requests.
pub struct LB {
    pool: UpstreamPool,
    limiter: RateLimiter,
    max_requests_per_window: u64,
    upstream_host: String,
}

impl LB {
    pub closed spec fn inv(&self) -> bool {
        self.pool.inv() && self.limiter.inv()
    }

    pub closed spec fn pool_view(&self) -> PoolView {
        self.pool@
    }

    pub closed spec fn limiter_view(&self) -> LimiterView {
        self.limiter@
    }

    pub closed spec fn max_requests(&self) -> u64 {
        self.max_requests_per_window
    }

    pub closed spec fn host(&self) -> Seq<char> {
        self.upstream_host@
    }

    /// Builds the proxy state over `addresses`, all healthy, with an empty
    /// limiter. A configuration error (no address, a zero window) gives `None`.
    pub fn new(
        addresses: Vec<String>,
        upstream_host: String,
        window_ms: u64,
        max_requests_per_window: u64,
    ) -> (r: Option<LB>)
        ensures
            r is None <==> (addresses@.len() == 0 || window_ms == 0),
            r matches Some(lb) ==> {
                &&& lb.inv()
                &&& lb.pool_view().addresses == addresses@.map_values(|a: String| a@)
                &&& lb.pool_view().healthy == Seq::new(addresses@.len(), |i: int| true)
                &&& lb.pool_view().cursor == 0
                &&& lb.limiter_view().window_ms == window_ms
                &&& lb.limiter_view().entries == Map::<Seq<char>, (u64, u64)>::empty()
                &&& lb.max_requests() == max_requests_per_window
                &&& lb.host() == upstream_host@
            },
    {
        if window_ms == 0 {
            return None;
        }
        match UpstreamPool::new(addresses) {
            None => None,
            Some(pool) => Some(
                LB {
                    pool,
                    limiter: RateLimiter::new(window_ms),
                    max_requests_per_window,
                    upstream_host,
                },
            ),
        }
    }

    /// Client identity from the raw value of the `appid` header: present and
    /// made of visible ASCII (or tabs), it is the identity; absent or holding
    /// any other byte, the client is unidentified.
    pub fn get_request_appid(&self, header: Option<&[u8]>) -> (r: Option<String>)
        ensures
            header is None ==> r is None,
            header is Some && all_visible_ascii(header.unwrap()@) ==> (r is Some && r.unwrap()@
                == ascii_chars(header.unwrap()@)),
            header is Some && !all_visible_ascii(header.unwrap()@) ==> r is None,
    {
        match header {
            None => None,
            Some(b) => {
                let n = b.len();
                let mut i: usize = 0;
                while i < n
                    invariant
                        i <= n,
                        n == b@.len(),
                        header == Some(b),
                        forall|j: int| 0 <= j < i ==> is_visible_ascii(#[trigger] b@[j]),
                    decreases n - i,
                {
                    let c = b[i];
                    if !((32 <= c && c < 127) || c == 9) {
                        assert(!is_visible_ascii(b@[i as int]));
                        return None;
                    }
                    i = i + 1;
                }
                match ascii_str(b) {
                    Some(s) => Some(s.to_owned()),
                    None => None,
                }
            },
        }
    }

    /// The throttle stage. An unidentified client always proceeds and is not
    /// counted. An identified one is counted in the current window and
    /// rejected with 429 once its count exceeds the limit.
    pub fn request_filter(&mut self, appid: &Option<String>, now: u64) -> (r: FilterOutcome)
        requires
            old(self).inv(),
        ensures
            final(self).inv(),
            final(self).pool_view() == old(self).pool_view(),
            final(self).max_requests() == old(self).max_requests(),
            final(self).host() == old(self).host(),
            appid is None ==> r is Proceed && final(self).limiter_view() == old(
                self,
            ).limiter_view(),
            appid matches Some(k) ==> {
                let count = old(self).limiter_view().observed(k@, 1, now);
                &&& final(self).limiter_view() == old(self).limiter_view().after_observe(
                    k@,
                    1,
                    now,
                )
                &&& (r is Reject <==> count > old(self).max_requests())
            },
            r matches FilterOutcome::Reject(j) ==> {
                &&& j.status == TOO_MANY_REQUESTS
                &&& j.limit == old(self).max_requests()
                &&& j.remaining == 0
                &&& j.reset_secs == reset_seconds(old(self).limiter_view().window_ms, now)
                &&& !j.keepalive
            },
    {
        match appid {
            None => FilterOutcome::Proceed,
            Some(key) => {
                let count = self.limiter.observe(key, 1, now);
                if count > self.max_requests_per_window {
                    let w = self.limiter.window_ms();
                    let rest = w - now % w;
                    let reset_secs = rest / 1000 + if rest % 1000 == 0 {
                        0
                    } else {
                        1
                    };
                    assert(reset_secs == (rest + 999) / 1000) by (nonlinear_arith)
                        requires
                            reset_secs == rest / 1000 + if rest % 1000 == 0 {
                                0int
                            } else {
                                1int
                            },
                    {
                    }
                    FilterOutcome::Reject(
                        RateLimitRejection {
                            status: TOO_MANY_REQUESTS,
                            limit: self.max_requests_per_window,
                            remaining: 0,
                            reset_secs,
                            keepalive: false,
                        },
                    )
                } else {
                    FilterOutcome::Proceed
                }
            },
        }
    }

    /// The select stage: the next upstream in round-robin order, reached over
    /// TLS with the configured virtual-host name as SNI.
    pub fn upstream_peer(&mut self) -> (r: UpstreamPeer)
        requires
            old(self).inv(),
        ensures
            final(self).inv(),
            r.address@ == old(self).pool_view().addresses[old(self).pool_view().selected()],
            r.tls,
            r.sni@ == old(self).host(),
            final(self).pool_view() == old(self).pool_view().after_select(),
            final(self).limiter_view() == old(self).limiter_view(),
            final(self).max_requests() == old(self).max_requests(),
            final(self).host() == old(self).host(),
    {
        let i = self.pool.select();
        let address = self.pool.address(i).clone();
        UpstreamPeer { address, tls: true, sni: self.upstream_host.clone() }
    }

    /// The rewrite stage: the outbound `Host` header becomes the configured
    /// virtual-host name, whatever the inbound request carried.
    pub fn upstream_request_filter(&self, host: &mut String)
        ensures
            final(host)@ == self.host(),
    {
        *host = self.upstream_host.clone();
    }

    /// Health update for every node with this address.
    pub fn set_health(&mut self, address: &String, healthy: bool)
        requires
            old(self).inv(),
        ensures
            final(self).inv(),
            final(self).pool_view() == old(self).pool_view().with_health(address@, healthy),
            final(self).limiter_view() == old(self).limiter_view(),
            final(self).max_requests() == old(self).max_requests(),
            final(self).host() == old(self).host(),
    {
        self.pool.set_health(address, healthy);
    }

    /// Records a round of probes, one outcome per node in pool order.
    pub fn apply_probes(&mut self, ok: &Vec<bool>, now: u64)
        requires
            old(self).inv(),
            ok@.len() == old(self).pool_view().healthy.len(),
        ensures
            final(self).inv(),
            final(self).pool_view() == old(self).pool_view().with_probes(ok@, now),
            final(self).limiter_view() == old(self).limiter_view(),
            final(self).max_requests() == old(self).max_requests(),
            final(self).host() == old(self).host(),
    {
        self.pool.apply_probes(ok, now);
    }

    /// Frees the rate counters of keys not seen in the window of `now`.
    pub fn evict_idle(&mut self, now: u64)
        requires
            old(self).inv(),
        ensures
            final(self).inv(),
            final(self).pool_view() == old(self).pool_view(),
            final(self).limiter_view().window_ms == old(self).limiter_view().window_ms,
            final(self).limiter_view().entries == Map::new(
                |k: Seq<char>|
                    old(self).limiter_view().entries.contains_key(k) && old(
                        self,
                    ).limiter_view().entries[k].0 == old(self).limiter_view().window_of(now),
                |k: Seq<char>| old(self).limiter_view().entries[k],
            ),
            final(self).max_requests() == old(self).max_requests(),
            final(self).host() == old(self).host(),
    {
        self.limiter.evict_idle(now);
    }

    /// The nodes in pool order with their health.
    pub fn snapshot(&self) -> (r: Vec<UpstreamNode>)
        requires
            self.inv(),
        ensures
            r@.len() == self.pool_view().healthy.len(),
            forall|i: int|
                0 <= i < r@.len() ==> {
                    &&& (#[trigger] r@[i]).address@ == self.pool_view().addresses[i]
                    &&& r@[i].healthy == self.pool_view().healthy[i]
                    &&& r@[i].last_checked_at == self.pool_view().checked_at[i]
                },
    {
        self.pool.snapshot()
    }
}

} // verus!
