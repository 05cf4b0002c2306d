//! A fixed-window request counter keyed by client identity.
//!
//! Time is an input: the caller hands in the current time in milliseconds.
//! Windows are aligned on multiples of the window length, so the window of a
//! moment `now` is `now / window_ms`.

use vstd::prelude::*;

verus! {

/// Mathematical model of a limiter: the window length, and for each key the
/// window its counter belongs to and the count in it.
pub struct LimiterView {
    pub window_ms: u64,
    pub entries: Map<Seq<char>, (u64, u64)>,
}

pub open spec fn saturating_sum(a: u64, b: u64) -> u64 {
    if a + b > u64::MAX {
        u64::MAX
    } else {
        (a + b) as u64
    }
}

impl LimiterView {
    pub open spec fn window_of(self, now: u64) -> u64 {
        now / self.window_ms
    }

    /// The count of `key` in window `window` (zero when its counter belongs
    /// to another window, or when it has none).
    pub open spec fn count_in(self, key: Seq<char>, window: u64) -> u64 {
        if self.entries.contains_key(key) && self.entries[key].0 == window {
            self.entries[key].1
        } else {
            0
        }
    }

    /// What `observe(key, weight)` at time `now` returns: the count of the
    /// live window plus `weight`, or `weight` alone in a fresh window.
    pub open spec fn observed(self, key: Seq<char>, weight: u64, now: u64) -> u64 {
        saturating_sum(self.count_in(key, self.window_of(now)), weight)
    }

    pub open spec fn after_observe(self, key: Seq<char>, weight: u64, now: u64) -> LimiterView {
        LimiterView {
            entries: self.entries.insert(key, (self.window_of(now), self.observed(key, weight, now))),
            ..self
        }
    }

    /// The state and the returned counts after one observation of weight 1
    /// at each of `times`, in order.
    pub open spec fn observe_each(self, key: Seq<char>, times: Seq<u64>) -> (LimiterView, Seq<u64>)
        decreases times.len(),
    {
        if times.len() == 0 {
            (self, Seq::empty())
        } else {
            let (v, rs) = self.observe_each(key, times.drop_last());
            (v.after_observe(key, 1, times.last()), rs.push(v.observed(key, 1, times.last())))
        }
    }
}


/// Windowing: within one window, starting from a key that has no count in it,
/// successive observations of weight 1 return 1, 2, ..., N and leave the
/// key's count at N. Concurrent callers that a lock puts in some order count
/// the same way, so no observation is lost.
pub proof fn lemma_window_counts(v: LimiterView, key: Seq<char>, times: Seq<u64>, window: u64)
    requires
        v.window_ms > 0,
        times.len() < u64::MAX,
        forall|i: int| 0 <= i < times.len() ==> v.window_of(#[trigger] times[i]) == window,
        v.count_in(key, window) == 0,
    ensures
        v.observe_each(key, times).0.window_ms == v.window_ms,
        v.observe_each(key, times).1 == Seq::new(times.len(), |i: int| (i + 1) as u64),
        v.observe_each(key, times).0.count_in(key, window) == times.len(),
    decreases times.len(),
{
    if times.len() > 0 {
        let t = times.drop_last();
        assert forall|i: int| 0 <= i < t.len() implies v.window_of(#[trigger] t[i]) == window by {
            assert(t[i] == times[i]);
        }
        lemma_window_counts(v, key, t, window);
        let (u, rs) = v.observe_each(key, t);
        assert(v.window_of(times.last()) == window);
        assert(u.observed(key, 1, times.last()) == times.len());
        assert(rs.push(u.observed(key, 1, times.last())) =~= Seq::new(
            times.len(),
            |i: int| (i + 1) as u64,
        ));
    } else {
        assert(v.observe_each(key, times).1 =~= Seq::new(0, |i: int| (i + 1) as u64));
    }
}

/// Reset: an observation of weight 1 in a window other than the one the
/// key's counter belongs to returns 1, whatever the earlier total was.
pub proof fn lemma_window_reset(v: LimiterView, key: Seq<char>, now: u64)
    requires
        v.window_ms > 0,
        v.entries.contains_key(key) ==> v.entries[key].0 != v.window_of(now),
    ensures
        v.observed(key, 1, now) == 1,
        v.after_observe(key, 1, now).count_in(key, v.window_of(now)) == 1,
{
}

/// Per-key request counters over fixed windows.
pub struct RateLimiter {
    window_ms: u64,
    keys: Vec<String>,
    windows: Vec<u64>,
    counts: Vec<u64>,
}

impl View for RateLimiter {
    type V = LimiterView;

    closed spec fn view(&self) -> LimiterView {
        LimiterView {
            window_ms: self.window_ms,
            entries: Map::new(
                |k: Seq<char>| exists|i: int| 0 <= i < self.keys@.len() && self.keys@[i]@ == k,
                |k: Seq<char>|
                    {
                        let i = choose|i: int| 0 <= i < self.keys@.len() && self.keys@[i]@ == k;
                        (self.windows@[i], self.counts@[i])
                    },
            ),
        }
    }
}

impl RateLimiter {
    pub closed spec fn inv(&self) -> bool {
        &&& self.window_ms > 0
        &&& self.keys@.len() == self.windows@.len()
        &&& self.keys@.len() == self.counts@.len()
        &&& forall|i: int, j: int|
            0 <= i < self.keys@.len() && 0 <= j < self.keys@.len() && i != j ==> self.keys@[i]@
                != self.keys@[j]@
    }

    proof fn lemma_lookup(&self, i: int)
        requires
            self.inv(),
            0 <= i < self.keys@.len(),
        ensures
            self@.entries.contains_key(self.keys@[i]@),
            self@.entries[self.keys@[i]@] == (self.windows@[i], self.counts@[i]),
    {
        let k = self.keys@[i]@;
        assert(exists|j: int| 0 <= j < self.keys@.len() && self.keys@[j]@ == k);
    }

    /// An empty limiter whose windows last `window_ms` milliseconds.
    pub fn new(window_ms: u64) -> (r: RateLimiter)
        requires
            window_ms > 0,
        ensures
            r.inv(),
            r@.window_ms == window_ms,
            r@.entries == Map::<Seq<char>, (u64, u64)>::empty(),
    {
        let r = RateLimiter { window_ms, keys: Vec::new(), windows: Vec::new(), counts: Vec::new() };
        assert(r@.entries =~= Map::<Seq<char>, (u64, u64)>::empty());
        r
    }

    /// Length of a window in milliseconds.
    pub fn window_ms(&self) -> (r: u64)
        requires
            self.inv(),
        ensures
            r == self@.window_ms,
            r > 0,
    {
        self.window_ms
    }

    /// Counts `weight` more events for `key` at time `now` and returns the
    /// count of the current window. A counter left from an earlier window is
    /// reset, not carried over. The count saturates at `u64::MAX`.
    pub fn observe(&mut self, key: &String, weight: u64, now: u64) -> (r: u64)
        requires
            old(self).inv(),
        ensures
            final(self).inv(),
            r == old(self)@.observed(key@, weight, now),
            final(self)@ == old(self)@.after_observe(key@, weight, now),
    {
        let ghost before = self@;
        let window = now / self.window_ms;
        let n = self.keys.len();
        let mut i: usize = 0;
        while i < n
            invariant
                self.inv(),
                i <= n,
                n == self.keys@.len(),
                forall|j: int| 0 <= j < i ==> self.keys@[j]@ != key@,
            ensures
                i <= n,
                i < n ==> self.keys@[i as int]@ == key@,
                forall|j: int| 0 <= j < i ==> self.keys@[j]@ != key@,
            decreases n - i,
        {
            if self.keys[i] == *key {
                break;
            }
            i = i + 1;
        }
        if i < n {
            proof {
                self.lemma_lookup(i as int);
            }
            let c = self.counts[i];
            let r = if self.windows[i] == window {
                c.saturating_add(weight)
            } else {
                weight
            };
            let ghost old_keys = self.keys@;
            self.windows.set(i, window);
            self.counts.set(i, r);
            proof {
                assert(self.keys@ == old_keys);
                assert forall|k: Seq<char>|
                    #[trigger] self@.entries.contains_key(k) == before.after_observe(
                        key@,
                        weight,
                        now,
                    ).entries.contains_key(k) by {
                    if k == key@ {
                        assert(self.keys@[i as int]@ == k);
                    }
                }
                assert forall|k: Seq<char>| #[trigger]
                    self@.entries.contains_key(k) implies self@.entries[k] == before.after_observe(
                    key@,
                    weight,
                    now,
                ).entries[k] by {
                    let j = choose|j: int| 0 <= j < self.keys@.len() && self.keys@[j]@ == k;
                    self.lemma_lookup(j);
                    if j != i {
                        assert(k != key@);
                    }
                }
                assert(self@.entries =~= before.after_observe(key@, weight, now).entries);
            }
            r
        } else {
            let ghost old_keys = self.keys@;
            self.keys.push(key.clone());
            self.windows.push(window);
            self.counts.push(weight);
            proof {
                assert(!before.entries.contains_key(key@));
                assert forall|k: Seq<char>|
                    #[trigger] self@.entries.contains_key(k) == before.after_observe(
                        key@,
                        weight,
                        now,
                    ).entries.contains_key(k) by {
                    if k == key@ {
                        assert(self.keys@[n as int]@ == k);
                    } else if self@.entries.contains_key(k) {
                        let j = choose|j: int| 0 <= j < self.keys@.len() && self.keys@[j]@ == k;
                        assert(old_keys[j]@ == k);
                    } else if before.entries.contains_key(k) {
                        let j = choose|j: int| 0 <= j < old_keys.len() && old_keys[j]@ == k;
                        assert(self.keys@[j]@ == k);
                    }
                }
                assert forall|k: Seq<char>| #[trigger]
                    self@.entries.contains_key(k) implies self@.entries[k] == before.after_observe(
                    key@,
                    weight,
                    now,
                ).entries[k] by {
                    let j = choose|j: int| 0 <= j < self.keys@.len() && self.keys@[j]@ == k;
                    self.lemma_lookup(j);
                    if j != n {
                        assert(old_keys[j]@ == k);
                        assert(exists|j2: int| 0 <= j2 < old_keys.len() && old_keys[j2]@ == k);
                        let j2 = choose|j2: int| 0 <= j2 < old_keys.len() && old_keys[j2]@ == k;
                        assert(j2 == j);
                    }
                }
                assert(self@.entries =~= before.after_observe(key@, weight, now).entries);
            }
            weight
        }
    }

    /// Drops every counter that does not belong to the window of `now`, so
    /// memory holds only keys seen in the current window. What `observe`
    /// returns in this window is unchanged.
    pub fn evict_idle(&mut self, now: u64)
        requires
            old(self).inv(),
        ensures
            final(self).inv(),
            final(self)@.window_ms == old(self)@.window_ms,
            final(self)@.entries == Map::new(
                |k: Seq<char>|
                    old(self)@.entries.contains_key(k) && old(self)@.entries[k].0 == old(
                        self,
                    )@.window_of(now),
                |k: Seq<char>| old(self)@.entries[k],
            ),
    {
        let ghost before = self@;
        let window = now / self.window_ms;
        let n = self.keys.len();
        let mut keys: Vec<String> = Vec::new();
        let mut windows: Vec<u64> = Vec::new();
        let mut counts: Vec<u64> = Vec::new();
        let ghost mut idx: Seq<int> = Seq::empty();
        let mut i: usize = 0;
        while i < n
            invariant
                self.inv(),
                self@ == before,
                i <= n,
                n == self.keys@.len(),
                keys@.len() == idx.len(),
                windows@.len() == idx.len(),
                counts@.len() == idx.len(),
                forall|a: int, b: int| 0 <= a < b < idx.len() ==> idx[a] < idx[b],
                forall|j: int|
                    0 <= j < idx.len() ==> {
                        &&& 0 <= #[trigger] idx[j] < i
                        &&& keys@[j]@ == self.keys@[idx[j]]@
                        &&& windows@[j] == self.windows@[idx[j]]
                        &&& counts@[j] == self.counts@[idx[j]]
                        &&& self.windows@[idx[j]] == window
                    },
                forall|m: int|
                    0 <= m < i && self.windows@[m] == window ==> exists|j: int|
                        0 <= j < idx.len() && #[trigger] idx[j] == m,
            decreases n - i,
        {
            if self.windows[i] == window {
                keys.push(self.keys[i].clone());
                windows.push(self.windows[i]);
                counts.push(self.counts[i]);
                proof {
                    let prev = idx;
                    idx = idx.push(i as int);
                    assert(idx[idx.len() - 1] == i);
                    assert forall|m: int|
                        0 <= m < i + 1 && self.windows@[m] == window implies exists|j: int|
                        0 <= j < idx.len() && #[trigger] idx[j] == m by {
                        if m < i {
                            let j = choose|j: int| 0 <= j < prev.len() && #[trigger] prev[j] == m;
                            assert(idx[j] == m);
                        } else {
                            assert(idx[idx.len() - 1] == m);
                        }
                    }
                }
            }
            i = i + 1;
        }
        let ghost old_keys = self.keys@;
        let ghost old_windows = self.windows@;
        let ghost old_counts = self.counts@;
        proof {
            assert forall|a: int, b: int|
                0 <= a < keys@.len() && 0 <= b < keys@.len() && a != b implies keys@[a]@
                != keys@[b]@ by {
                assert(idx[a] != idx[b]) by {
                    if a < b {
                        assert(idx[a] < idx[b]);
                    } else {
                        assert(idx[b] < idx[a]);
                    }
                }
            }
        }
        self.keys = keys;
        self.windows = windows;
        self.counts = counts;
        proof {
            let target = Map::new(
                |k: Seq<char>| before.entries.contains_key(k) && before.entries[k].0 == window,
                |k: Seq<char>| before.entries[k],
            );
            assert forall|k: Seq<char>|
                #[trigger] self@.entries.contains_key(k) == target.contains_key(k) by {
                if self@.entries.contains_key(k) {
                    let j = choose|j: int| 0 <= j < self.keys@.len() && self.keys@[j]@ == k;
                    assert(old_keys[idx[j]]@ == k);
                    assert(exists|m: int| 0 <= m < old_keys.len() && old_keys[m]@ == k);
                    let m = choose|m: int| 0 <= m < old_keys.len() && old_keys[m]@ == k;
                    assert(m == idx[j]);
                }
                if target.contains_key(k) {
                    let m = choose|m: int| 0 <= m < old_keys.len() && old_keys[m]@ == k;
                    assert(old_windows[m] == window);
                    let j = choose|j: int| 0 <= j < idx.len() && #[trigger] idx[j] == m;
                    assert(self.keys@[j]@ == k);
                }
            }
            assert forall|k: Seq<char>| #[trigger]
                self@.entries.contains_key(k) implies self@.entries[k] == target[k] by {
                let j = choose|j: int| 0 <= j < self.keys@.len() && self.keys@[j]@ == k;
                self.lemma_lookup(j);
                let m = choose|m: int| 0 <= m < old_keys.len() && old_keys[m]@ == k;
                assert(old_keys[idx[j]]@ == k);
                assert(m == idx[j]);
            }
            assert(self@.entries =~= target);
        }
    }
}

} // verus!
