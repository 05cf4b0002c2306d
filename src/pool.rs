//! The upstream pool: a fixed, non-empty list of upstream addresses, a health
//! flag per address, and a round-robin cursor over the eligible ones.

use vstd::arithmetic::div_mod::*;
use vstd::prelude::*;

verus! {

/// One backend as reported by `UpstreamPool::snapshot`.
pub struct UpstreamNode {
    pub address: String,
    pub healthy: bool,
    pub last_checked_at: u64,
}

/// Mathematical model of a pool.
pub struct PoolView {
    pub addresses: Seq<Seq<char>>,
    pub healthy: Seq<bool>,
    pub checked_at: Seq<u64>,
    pub cursor: int,
}

/// Indices of the healthy nodes, in ascending order.
pub open spec fn healthy_indices(h: Seq<bool>) -> Seq<int>
    decreases h.len(),
{
    if h.len() == 0 {
        Seq::empty()
    } else {
        let rest = healthy_indices(h.drop_last());
        if h.last() {
            rest.push(h.len() - 1)
        } else {
            rest
        }
    }
}

/// The nodes that selection rotates over: the healthy ones, or every node
/// when none is healthy (fail-open).
pub open spec fn eligible(h: Seq<bool>) -> Seq<int> {
    if healthy_indices(h).len() > 0 {
        healthy_indices(h)
    } else {
        Seq::new(h.len(), |i: int| i)
    }
}

pub open spec fn strictly_ascending_within(s: Seq<int>, n: int) -> bool {
    &&& forall|a: int, b: int| 0 <= a < b < s.len() ==> s[a] < s[b]
    &&& forall|a: int| 0 <= a < s.len() ==> 0 <= #[trigger] s[a] < n
}

impl PoolView {
    pub open spec fn wf(self) -> bool {
        &&& self.healthy.len() > 0
        &&& self.addresses.len() == self.healthy.len()
        &&& self.checked_at.len() == self.healthy.len()
        &&& 0 <= self.cursor <= self.healthy.len()
    }

    /// Position, within `eligible`, of the node the next selection returns.
    pub open spec fn position(self) -> int {
        self.cursor % (eligible(self.healthy).len() as int)
    }

    /// Index of the node the next selection returns.
    pub open spec fn selected(self) -> int {
        eligible(self.healthy)[self.position()]
    }

    /// The pool after one selection: the cursor moves past the chosen position.
    pub open spec fn after_select(self) -> PoolView {
        PoolView { cursor: self.position() + 1, ..self }
    }

    /// The pool after `n` selections with no health change in between.
    pub open spec fn after_selects(self, n: nat) -> PoolView
        decreases n,
    {
        if n == 0 {
            self
        } else {
            self.after_selects((n - 1) as nat).after_select()
        }
    }

    /// How many of the next `n` selections return node `node`.
    pub open spec fn picks(self, n: nat, node: int) -> nat
        decreases n,
    {
        if n == 0 {
            0
        } else {
            (if self.selected() == node { 1nat } else { 0nat }) + self.after_select().picks(
                (n - 1) as nat,
                node,
            )
        }
    }

    /// Every node whose address is `address` gets the flag `healthy`.
    pub open spec fn with_health(self, address: Seq<char>, healthy: bool) -> PoolView {
        PoolView {
            healthy: Seq::new(
                self.healthy.len(),
                |i: int|
                    if self.addresses[i] == address {
                        healthy
                    } else {
                        self.healthy[i]
                    },
            ),
            ..self
        }
    }

    /// The pool after a probe round: node `i` takes the outcome `ok[i]` and
    /// is stamped with `now`.
    pub open spec fn with_probes(self, ok: Seq<bool>, now: u64) -> PoolView {
        PoolView {
            healthy: ok,
            checked_at: Seq::new(self.healthy.len(), |i: int| now),
            ..self
        }
    }
}

pub proof fn lemma_healthy_indices(h: Seq<bool>)
    ensures
        strictly_ascending_within(healthy_indices(h), h.len() as int),
        healthy_indices(h).len() <= h.len(),
        forall|i: int| 0 <= i < h.len() && h[i] ==> healthy_indices(h).contains(i),
        forall|j: int|
            0 <= j < healthy_indices(h).len() ==> h[#[trigger] healthy_indices(h)[j]],
    decreases h.len(),
{
    if h.len() > 0 {
        let t = h.drop_last();
        lemma_healthy_indices(t);
        let rest = healthy_indices(t);
        assert forall|i: int| 0 <= i < h.len() && h[i] implies healthy_indices(h).contains(i) by {
            if i < h.len() - 1 {
                assert(t[i] == h[i]);
                let w = choose|w: int| 0 <= w < rest.len() && rest[w] == i;
                assert(healthy_indices(h)[w] == i);
            } else {
                assert(healthy_indices(h)[rest.len() as int] == i);
            }
        }
        assert forall|j: int| 0 <= j < healthy_indices(h).len() implies h[
            #[trigger] healthy_indices(h)[j]
        ] by {
            if j < rest.len() {
                assert(t[rest[j]] == h[rest[j]]);
            }
        }
    }
}

pub proof fn lemma_eligible(h: Seq<bool>)
    requires
        h.len() > 0,
    ensures
        strictly_ascending_within(eligible(h), h.len() as int),
        0 < eligible(h).len() <= h.len(),
{
    lemma_healthy_indices(h);
}


/// Steps forward from position `p` to position `j` around a ring of `k`.
pub open spec fn ring_distance(p: int, j: int, k: int) -> int {
    if j >= p {
        j - p
    } else {
        j + k - p
    }
}

/// Visits to a position that lies `d` steps ahead, in `n` steps around a
/// ring of `k` positions.
pub open spec fn ring_visits(d: int, n: int, k: int) -> int {
    if n <= d {
        0
    } else {
        (n - 1 - d) / k + 1
    }
}

proof fn lemma_step(v: PoolView)
    requires
        v.wf(),
    ensures
        v.after_select().wf(),
        eligible(v.after_select().healthy) == eligible(v.healthy),
        0 <= v.position() < eligible(v.healthy).len(),
        v.after_select().position() == (if v.position() + 1 == eligible(v.healthy).len() {
            0
        } else {
            v.position() + 1
        }),
{
    let k = eligible(v.healthy).len() as int;
    lemma_eligible(v.healthy);
    lemma_mod_pos_bound(v.cursor, k);
    let p = v.position();
    if p + 1 < k {
        lemma_small_mod((p + 1) as nat, k as nat);
    } else {
        lemma_mod_self_0(k);
    }
}

proof fn lemma_picks_closed_form(v: PoolView, n: nat, j: int)
    requires
        v.wf(),
        0 <= j < eligible(v.healthy).len(),
    ensures
        v.picks(n, eligible(v.healthy)[j]) == ring_visits(
            ring_distance(v.position(), j, eligible(v.healthy).len() as int),
            n as int,
            eligible(v.healthy).len() as int,
        ),
    decreases n,
{
    let e = eligible(v.healthy);
    let k = e.len() as int;
    lemma_step(v);
    lemma_eligible(v.healthy);
    if n > 0 {
        let w = v.after_select();
        let p = v.position();
        lemma_picks_closed_form(w, (n - 1) as nat, j);
        assert((e[p] == e[j]) == (p == j)) by {
            if p < j {
                assert(e[p] < e[j]);
            } else if j < p {
                assert(e[j] < e[p]);
            }
        }
        if p == j {
            if n - 1 > k - 1 {
                lemma_div_minus_one(n - 1, k);
                assert(-k + (n - 1) == n - 1 - 1 - (k - 1));
            } else {
                lemma_small_div_converse_int(n - 1, k);
            }
        }
    }
}

proof fn lemma_small_div_converse_int(x: int, k: int)
    requires
        0 <= x < k,
    ensures
        x / k == 0,
{
    lemma_basic_div(x, k);
}

/// Round-robin fairness: while health flags stay put, the next `n` selections
/// return every eligible node at least `n / k` and at most `ceil(n / k)`
/// times, where `k` is the number of eligible nodes.
pub proof fn lemma_round_robin_fair(v: PoolView, n: nat, j: int)
    requires
        v.wf(),
        0 <= j < eligible(v.healthy).len(),
    ensures
        ({
            let k = eligible(v.healthy).len() as int;
            let c = v.picks(n, eligible(v.healthy)[j]) as int;
            n as int / k <= c <= (n as int + k - 1) / k
        }),
{
    let k = eligible(v.healthy).len() as int;
    lemma_step(v);
    lemma_picks_closed_form(v, n, j);
    let d = ring_distance(v.position(), j, k);
    assert(0 <= d < k);
    let n = n as int;
    if n <= d {
        lemma_small_div_converse_int(n, k);
        lemma_div_pos_is_pos(n + k - 1, k);
    } else {
        let m = n - 1 - d;
        lemma_div_is_ordered(n, m + k, k);
        lemma_div_plus_one(m, k);
        assert(k + m == m + k);
        lemma_div_is_ordered(m + k, n + k - 1, k);
    }
}

/// Deterministic cycling: from a fixed cursor, and while health flags stay
/// put, the `i`-th following selection returns the eligible node at position
/// `(p + i) mod k`, where `p` is the starting position.
pub proof fn lemma_round_robin_cycle(v: PoolView, i: nat)
    requires
        v.wf(),
    ensures
        v.after_selects(i).wf(),
        v.after_selects(i).healthy == v.healthy,
        v.after_selects(i).position() == (v.position() + i) % (eligible(v.healthy).len() as int),
        v.after_selects(i).selected() == eligible(v.healthy)[(v.position() + i) % (eligible(
            v.healthy,
        ).len() as int)],
    decreases i,
{
    let k = eligible(v.healthy).len() as int;
    lemma_step(v);
    if i == 0 {
        lemma_small_mod(v.position() as nat, k as nat);
    } else {
        let u = v.after_selects((i - 1) as nat);
        lemma_round_robin_cycle(v, (i - 1) as nat);
        lemma_step(u);
        lemma_add_mod_noop(v.position() + i - 1, 1, k);
        lemma_mod_self_0(k);
        if k == 1 {
            lemma_small_mod(0, 1);
        } else {
            lemma_small_mod(1, k as nat);
        }
        let q = u.position();
        if q + 1 < k {
            lemma_small_mod((q + 1) as nat, k as nat);
        }
    }
}


/// Fail-open: when no node is healthy, selection still returns a node, going
/// round-robin over all of them.
pub proof fn lemma_fail_open(v: PoolView)
    requires
        v.wf(),
        forall|i: int| 0 <= i < v.healthy.len() ==> !v.healthy[i],
    ensures
        eligible(v.healthy) == Seq::new(v.healthy.len(), |i: int| i),
        0 <= v.selected() < v.healthy.len(),
        v.selected() == v.cursor % (v.healthy.len() as int),
{
    lemma_healthy_indices(v.healthy);
    lemma_step(v);
    if healthy_indices(v.healthy).len() > 0 {
        assert(v.healthy[healthy_indices(v.healthy)[0]]);
    }
}

/// Health convergence: right after a probe round, a node whose probe failed
/// is not selected by any of the following selections as long as some other
/// probe succeeded, and a node whose probe succeeded is in the rotation.
pub proof fn lemma_probe_round_converges(v: PoolView, ok: Seq<bool>, now: u64, i: int, n: nat)
    requires
        v.wf(),
        ok.len() == v.healthy.len(),
        0 <= i < ok.len(),
    ensures
        v.with_probes(ok, now).wf(),
        !ok[i] && (exists|j: int| 0 <= j < ok.len() && ok[j]) ==> v.with_probes(
            ok,
            now,
        ).after_selects(n).selected() != i,
        ok[i] ==> eligible(v.with_probes(ok, now).healthy).contains(i),
{
    let w = v.with_probes(ok, now);
    assert(w.healthy == ok);
    lemma_healthy_indices(ok);
    lemma_round_robin_cycle(w, n);
    let u = w.after_selects(n);
    lemma_step(u);
    if exists|j: int| 0 <= j < ok.len() && ok[j] {
        let j = choose|j: int| 0 <= j < ok.len() && ok[j];
        assert(healthy_indices(ok).contains(j));
        assert(ok[u.selected()]);
    }
}

/// A non-empty pool of upstreams with a round-robin cursor.
pub struct UpstreamPool {
    addresses: Vec<String>,
    healthy: Vec<bool>,
    checked_at: Vec<u64>,
    cursor: usize,
}

impl View for UpstreamPool {
    type V = PoolView;

    closed spec fn view(&self) -> PoolView {
        PoolView {
            addresses: self.addresses@.map_values(|a: String| a@),
            healthy: self.healthy@,
            checked_at: self.checked_at@,
            cursor: self.cursor as int,
        }
    }
}

impl UpstreamPool {
    pub closed spec fn inv(&self) -> bool {
        &&& self@.wf()
        &&& self.addresses@.len() == self.healthy@.len()
    }

    /// Builds a pool over `addresses`, all of them healthy and never checked.
    /// An empty list is refused: a pool is never empty.
    pub fn new(addresses: Vec<String>) -> (r: Option<UpstreamPool>)
        ensures
            addresses@.len() == 0 <==> r is None,
            r matches Some(p) ==> {
                &&& p.inv()
                &&& p@.addresses == addresses@.map_values(|a: String| a@)
                &&& p@.healthy == Seq::new(addresses@.len(), |i: int| true)
                &&& p@.checked_at == Seq::new(addresses@.len(), |i: int| 0u64)
                &&& p@.cursor == 0
            },
    {
        let n = addresses.len();
        if n == 0 {
            return None;
        }
        let mut healthy: Vec<bool> = Vec::new();
        let mut checked_at: Vec<u64> = Vec::new();
        let mut i: usize = 0;
        while i < n
            invariant
                i <= n,
                healthy@ == Seq::new(i as nat, |j: int| true),
                checked_at@ == Seq::new(i as nat, |j: int| 0u64),
            decreases n - i,
        {
            healthy.push(true);
            checked_at.push(0);
            i = i + 1;
            assert(healthy@ =~= Seq::new(i as nat, |j: int| true));
            assert(checked_at@ =~= Seq::new(i as nat, |j: int| 0u64));
        }
        let p = UpstreamPool { addresses, healthy, checked_at, cursor: 0 };
        assert(p@.healthy =~= Seq::new(n as nat, |i: int| true));
        Some(p)
    }

    pub fn len(&self) -> (r: usize)
        requires
            self.inv(),
        ensures
            r == self@.healthy.len(),
    {
        self.healthy.len()
    }

    /// Address of node `i`.
    pub fn address(&self, i: usize) -> (r: &String)
        requires
            self.inv(),
            i < self@.healthy.len(),
        ensures
            r@ == self@.addresses[i as int],
    {
        &self.addresses[i]
    }

    /// The ascending indices of the healthy nodes.
    fn healthy_list(&self) -> (r: Vec<usize>)
        requires
            self.inv(),
        ensures
            r@.len() == healthy_indices(self@.healthy).len(),
            forall|j: int| 0 <= j < r@.len() ==> r@[j] as int == healthy_indices(self@.healthy)[j],
    {
        let n = self.healthy.len();
        let mut r: Vec<usize> = Vec::new();
        let mut i: usize = 0;
        while i < n
            invariant
                i <= n,
                n == self.healthy@.len(),
                r@.len() == healthy_indices(self.healthy@.take(i as int)).len(),
                forall|j: int|
                    0 <= j < r@.len() ==> r@[j] as int == healthy_indices(
                        self.healthy@.take(i as int),
                    )[j],
            decreases n - i,
        {
            assert(self.healthy@.take(i + 1).drop_last() =~= self.healthy@.take(i as int));
            if self.healthy[i] {
                r.push(i);
            }
            i = i + 1;
        }
        assert(self.healthy@.take(n as int) =~= self.healthy@);
        r
    }

    /// Picks the next node round-robin over the healthy nodes, or over all
    /// nodes when none is healthy, and advances the cursor. Never fails.
    pub fn select(&mut self) -> (r: usize)
        requires
            old(self).inv(),
        ensures
            final(self).inv(),
            r as int == old(self)@.selected(),
            r < old(self)@.healthy.len(),
            final(self)@ == old(self)@.after_select(),
    {
        proof {
            lemma_eligible(self@.healthy);
        }
        let list = self.healthy_list();
        let k = list.len();
        if k > 0 {
            let pos = self.cursor % k;
            let r = list[pos];
            self.cursor = pos + 1;
            r
        } else {
            let n = self.healthy.len();
            let pos = self.cursor % n;
            self.cursor = pos + 1;
            pos
        }
    }

    /// Sets the health flag of every node whose address is `address`.
    /// Idempotent; the cursor and the timestamps are left as they are.
    pub fn set_health(&mut self, address: &String, healthy: bool)
        requires
            old(self).inv(),
        ensures
            final(self).inv(),
            final(self)@ == old(self)@.with_health(address@, healthy),
    {
        let n = self.healthy.len();
        let ghost before = self@;
        let mut i: usize = 0;
        while i < n
            invariant
                self.inv(),
                i <= n,
                n == before.healthy.len(),
                self@.addresses == before.addresses,
                self@.checked_at == before.checked_at,
                self@.cursor == before.cursor,
                self@.healthy.len() == n,
                forall|j: int|
                    0 <= j < i ==> self@.healthy[j] == (if before.addresses[j] == address@ {
                        healthy
                    } else {
                        before.healthy[j]
                    }),
                forall|j: int| i <= j < n ==> self@.healthy[j] == before.healthy[j],
            decreases n - i,
        {
            if self.addresses[i] == *address {
                self.healthy.set(i, healthy);
            }
            i = i + 1;
        }
        assert(self@.healthy =~= before.with_health(address@, healthy).healthy);
    }

    /// Records a probe round: node `i` becomes healthy exactly when `ok[i]`,
    /// and its last check time becomes `now`.
    pub fn apply_probes(&mut self, ok: &Vec<bool>, now: u64)
        requires
            old(self).inv(),
            ok@.len() == old(self)@.healthy.len(),
        ensures
            final(self).inv(),
            final(self)@ == old(self)@.with_probes(ok@, now),
    {
        let n = self.healthy.len();
        let ghost before = self@;
        let mut i: usize = 0;
        while i < n
            invariant
                self.inv(),
                i <= n,
                n == before.healthy.len(),
                n == ok@.len(),
                self@.addresses == before.addresses,
                self@.cursor == before.cursor,
                self@.healthy.len() == n,
                self@.checked_at.len() == n,
                forall|j: int| 0 <= j < i ==> self@.healthy[j] == ok@[j],
                forall|j: int| 0 <= j < i ==> self@.checked_at[j] == now,
            decreases n - i,
        {
            self.healthy.set(i, ok[i]);
            self.checked_at.set(i, now);
            i = i + 1;
        }
        assert(self@.healthy =~= ok@);
        assert(self@.checked_at =~= Seq::new(n as nat, |j: int| now));
    }

    /// The nodes in order, with their health and last check time.
    pub fn snapshot(&self) -> (r: Vec<UpstreamNode>)
        requires
            self.inv(),
        ensures
            r@.len() == self@.healthy.len(),
            forall|i: int|
                0 <= i < r@.len() ==> {
                    &&& (#[trigger] r@[i]).address@ == self@.addresses[i]
                    &&& r@[i].healthy == self@.healthy[i]
                    &&& r@[i].last_checked_at == self@.checked_at[i]
                },
    {
        let n = self.healthy.len();
        let mut r: Vec<UpstreamNode> = Vec::new();
        let mut i: usize = 0;
        while i < n
            invariant
                self.inv(),
                i <= n,
                n == self@.healthy.len(),
                r@.len() == i,
                forall|j: int|
                    0 <= j < i ==> {
                        &&& (#[trigger] r@[j]).address@ == self@.addresses[j]
                        &&& r@[j].healthy == self@.healthy[j]
                        &&& r@[j].last_checked_at == self@.checked_at[j]
                    },
            decreases n - i,
        {
            r.push(
                UpstreamNode {
                    address: self.addresses[i].clone(),
                    healthy: self.healthy[i],
                    last_checked_at: self.checked_at[i],
                },
            );
            i = i + 1;
        }
        r
    }
}

} // verus!
