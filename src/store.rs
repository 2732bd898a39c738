use vstd::prelude::*;

use crate::options::{GC_ITEMS, MAX_ENTRIES, MAX_TIMEOUT_MS};

verus! {

/// Limits of a store, fixed when it is built.
#[derive(Clone, Copy, Debug, PartialEq, Eq, Structural)]
pub struct DebounceConfig {
    /// Longest window a request may ask for; also the age past which an entry is stale.
    pub max_window_ms: u64,
    /// Hard ceiling on live entries.
    pub max_entries: usize,
    /// Entry count above which a sweep runs before admission.
    pub gc_threshold: usize,
}

impl DebounceConfig {
    /// The limits the daemon runs with.
    pub fn daemon_default() -> (r: Self)
        ensures
            r.max_window_ms == MAX_TIMEOUT_MS,
            r.max_entries == MAX_ENTRIES,
            r.gc_threshold == GC_ITEMS,
    {
        DebounceConfig { max_window_ms: MAX_TIMEOUT_MS, max_entries: MAX_ENTRIES, gc_threshold: GC_ITEMS }
    }
}

/// Decision on one admission request.
#[derive(Clone, Copy, Debug, PartialEq, Eq, Structural)]
pub enum Outcome {
    /// The action may run now; the key's timestamp was set to the request time.
    Admitted,
    /// The action is suppressed; the window ends after this many milliseconds.
    Throttled(u64),
}

/// Why a request was refused before any timer was looked at.
#[derive(Clone, Copy, Debug, PartialEq, Eq, Structural)]
pub enum AdmitError {
    /// The store holds `max_entries` live entries or more.
    CapacityExceeded,
    /// The requested window is longer than `max_window_ms`.
    InvalidWindow,
}

/// Time since `last`, in milliseconds; a clock reading before `last` counts as no time.
pub open spec fn elapsed(now: u64, last: u64) -> int {
    if now >= last {
        now - last
    } else {
        0
    }
}

/// An entry last fired at `last` is stale at `now` once its age exceeds `horizon`.
pub open spec fn is_stale(last: u64, now: u64, horizon: u64) -> bool {
    elapsed(now, last) > horizon
}

/// The timers with every stale entry removed.
pub open spec fn swept(m: Map<Seq<char>, u64>, now: u64, horizon: u64) -> Map<Seq<char>, u64> {
    Map::new(|k: Seq<char>| m.contains_key(k) && !is_stale(m[k], now, horizon), |k: Seq<char>| m[k])
}

/// The timers an admission works on: swept when the count is above the threshold.
pub open spec fn pre_admission(cfg: DebounceConfig, m: Map<Seq<char>, u64>, now: u64) -> Map<Seq<char>, u64> {
    if m.len() > cfg.gc_threshold {
        swept(m, now, cfg.max_window_ms)
    } else {
        m
    }
}

/// What `check(key, window)` at time `now` answers on the timers `m`.
pub open spec fn check_result(
    cfg: DebounceConfig,
    m: Map<Seq<char>, u64>,
    key: Seq<char>,
    window: u64,
    now: u64,
) -> Result<Outcome, AdmitError> {
    let p = pre_admission(cfg, m, now);
    if p.len() >= cfg.max_entries {
        Err(AdmitError::CapacityExceeded)
    } else if window > cfg.max_window_ms {
        Err(AdmitError::InvalidWindow)
    } else if p.contains_key(key) && elapsed(now, p[key]) < window {
        Ok(Outcome::Throttled((window - elapsed(now, p[key])) as u64))
    } else {
        Ok(Outcome::Admitted)
    }
}

/// The timers after `check(key, window)` at time `now` on the timers `m`.
/// A refused request leaves them as they were.
pub open spec fn check_state(
    cfg: DebounceConfig,
    m: Map<Seq<char>, u64>,
    key: Seq<char>,
    window: u64,
    now: u64,
) -> Map<Seq<char>, u64> {
    let p = pre_admission(cfg, m, now);
    match check_result(cfg, m, key, window, now) {
        Err(_) => m,
        Ok(Outcome::Admitted) => p.insert(key, now),
        Ok(Outcome::Throttled(_)) => p,
    }
}

/// No two keys of `keys` have the same text.
pub open spec fn distinct_keys(keys: Seq<String>) -> bool {
    forall|i: int, j: int| 0 <= i < j < keys.len() ==> #[trigger] keys[i]@ != #[trigger] keys[j]@
}

/// The map from key text to timestamp that parallel sequences of keys and stamps stand for.
pub open spec fn entries_map(keys: Seq<String>, stamps: Seq<u64>) -> Map<Seq<char>, u64>
    decreases keys.len(),
{
    if keys.len() == 0 {
        Map::empty()
    } else {
        entries_map(keys.drop_last(), stamps.drop_last()).insert(keys.last()@, stamps.last())
    }
}

proof fn lemma_entries_map(keys: Seq<String>, stamps: Seq<u64>)
    requires
        keys.len() == stamps.len(),
        distinct_keys(keys),
    ensures
        entries_map(keys, stamps).dom().finite(),
        entries_map(keys, stamps).len() == keys.len(),
        forall|i: int|
            0 <= i < keys.len() ==> #[trigger] entries_map(keys, stamps).contains_key(keys[i]@)
                && entries_map(keys, stamps)[keys[i]@] == stamps[i],
        forall|k: Seq<char>|
            #[trigger] entries_map(keys, stamps).contains_key(k) ==> exists|i: int|
                0 <= i < keys.len() && keys[i]@ == k,
    decreases keys.len(),
{
    if keys.len() > 0 {
        let n = keys.len() - 1;
        let ks = keys.drop_last();
        let ss = stamps.drop_last();
        assert(distinct_keys(ks)) by {
            assert forall|i: int, j: int| 0 <= i < j < ks.len() implies ks[i]@ != ks[j]@ by {
                assert(ks[i] == keys[i] && ks[j] == keys[j]);
            }
        }
        lemma_entries_map(ks, ss);
        let prev = entries_map(ks, ss);
        assert(!prev.contains_key(keys[n]@)) by {
            if prev.contains_key(keys[n]@) {
                let i = choose|i: int| 0 <= i < ks.len() && ks[i]@ == keys[n]@;
                assert(keys[i]@ == keys[n]@);
            }
        }
        let m = entries_map(keys, stamps);
        assert forall|i: int| 0 <= i < keys.len() implies #[trigger] m.contains_key(keys[i]@)
            && m[keys[i]@] == stamps[i] by {
            if i < n {
                assert(ks[i] == keys[i]);
                assert(keys[i]@ != keys[n]@);
            }
        }
        assert forall|k: Seq<char>| #[trigger] m.contains_key(k) implies exists|i: int|
            0 <= i < keys.len() && keys[i]@ == k by {
            if k != keys[n]@ {
                let i = choose|i: int| 0 <= i < ks.len() && ks[i]@ == k;
                assert(keys[i]@ == k);
            } else {
                assert(keys[n]@ == k);
            }
        }
    }
}

proof fn lemma_entries_map_push(keys: Seq<String>, stamps: Seq<u64>, k: String, v: u64)
    ensures
        entries_map(keys.push(k), stamps.push(v)) == entries_map(keys, stamps).insert(k@, v),
{
    assert(keys.push(k).drop_last() =~= keys);
    assert(stamps.push(v).drop_last() =~= stamps);
}

proof fn lemma_entries_map_update(keys: Seq<String>, stamps: Seq<u64>, i: int, v: u64)
    requires
        keys.len() == stamps.len(),
        distinct_keys(keys),
        0 <= i < keys.len(),
    ensures
        entries_map(keys, stamps.update(i, v)) == entries_map(keys, stamps).insert(keys[i]@, v),
{
    let s2 = stamps.update(i, v);
    lemma_entries_map(keys, stamps);
    lemma_entries_map(keys, s2);
    let a = entries_map(keys, s2);
    let b = entries_map(keys, stamps).insert(keys[i]@, v);
    assert forall|k: Seq<char>| #[trigger] a.contains_key(k) <==> b.contains_key(k) by {
        if a.contains_key(k) {
            let j = choose|j: int| 0 <= j < keys.len() && keys[j]@ == k;
            assert(entries_map(keys, stamps).contains_key(keys[j]@));
        }
        if b.contains_key(k) && k != keys[i]@ {
            let j = choose|j: int| 0 <= j < keys.len() && keys[j]@ == k;
            assert(a.contains_key(keys[j]@));
        }
    }
    assert forall|k: Seq<char>| #[trigger] a.contains_key(k) implies a[k] == b[k] by {
        let j = choose|j: int| 0 <= j < keys.len() && keys[j]@ == k;
        assert(a[keys[j]@] == s2[j]);
        if j != i {
            assert(keys[j]@ != keys[i]@);
        }
    }
    assert(a =~= b);
}

/// The timer store: one last-fire timestamp per key, under the limits of its configuration.
pub struct DebounceStore {
    config: DebounceConfig,
    keys: Vec<String>,
    stamps: Vec<u64>,
}

impl View for DebounceStore {
    type V = Map<Seq<char>, u64>;

    closed spec fn view(&self) -> Map<Seq<char>, u64> {
        entries_map(self.keys@, self.stamps@)
    }
}

impl DebounceStore {
    /// Keys and stamps run in parallel and no key appears twice.
    pub closed spec fn wf(&self) -> bool {
        &&& self.keys@.len() == self.stamps@.len()
        &&& distinct_keys(self.keys@)
    }

    /// The limits this store was built with.
    pub closed spec fn spec_config(&self) -> DebounceConfig {
        self.config
    }

    proof fn lemma_view(&self)
        requires
            self.wf(),
        ensures
            self@.dom().finite(),
            self@.len() == self.keys@.len(),
            forall|i: int|
                0 <= i < self.keys@.len() ==> #[trigger] self@.contains_key(self.keys@[i]@)
                    && self@[self.keys@[i]@] == self.stamps@[i],
            forall|k: Seq<char>|
                #[trigger] self@.contains_key(k) ==> exists|i: int|
                    0 <= i < self.keys@.len() && self.keys@[i]@ == k,
    {
        lemma_entries_map(self.keys@, self.stamps@);
    }

    /// An empty store with the given limits.
    pub fn new(config: DebounceConfig) -> (r: Self)
        ensures
            r.wf(),
            r@ == Map::<Seq<char>, u64>::empty(),
            r.spec_config() == config,
    {
        DebounceStore { config, keys: Vec::new(), stamps: Vec::new() }
    }

    /// The limits this store was built with.
    pub fn config(&self) -> (r: DebounceConfig)
        ensures
            r == self.spec_config(),
    {
        self.config
    }

    /// Number of entries held.
    pub fn len(&self) -> (r: usize)
        requires
            self.wf(),
        ensures
            r == self@.len(),
    {
        proof { self.lemma_view(); }
        self.keys.len()
    }

    /// Last-fire timestamp of `key`, if it has an entry.
    pub fn last_fire(&self, key: &str) -> (r: Option<u64>)
        requires
            self.wf(),
        ensures
            r == (if self@.contains_key(key@) { Some(self@[key@]) } else { None::<u64> }),
    {
        proof { self.lemma_view(); }
        let k = key.to_owned();
        match self.find(&k) {
            Some(i) => Some(self.stamps[i]),
            None => None,
        }
    }

    /// Decides whether the action under `key` may run at time `now_ms` with a window of
    /// `window_ms`, as one step: sweep when the store is above its threshold, refuse when
    /// the live entries reach the ceiling or the window is too long, else let it through and stamp
    /// the key, or report the time left in its window. A refusal changes nothing.
    pub fn check(&mut self, key: &str, window_ms: u64, now_ms: u64) -> (r: Result<Outcome, AdmitError>)
        requires
            old(self).wf(),
        ensures
            final(self).wf(),
            final(self).spec_config() == old(self).spec_config(),
            r == check_result(old(self).spec_config(), old(self)@, key@, window_ms, now_ms),
            final(self)@ == check_state(old(self).spec_config(), old(self)@, key@, window_ms, now_ms),
    {
        proof { self.lemma_view(); }
        let cfg = self.config;
        let n = self.keys.len();
        if n > cfg.gc_threshold {
            let (nk, ns) = self.live_entries(now_ms);
            proof { lemma_entries_map(nk@, ns@); }
            if nk.len() >= cfg.max_entries {
                return Err(AdmitError::CapacityExceeded);
            }
            if window_ms > cfg.max_window_ms {
                return Err(AdmitError::InvalidWindow);
            }
            self.keys = nk;
            self.stamps = ns;
        } else {
            if n >= cfg.max_entries {
                return Err(AdmitError::CapacityExceeded);
            }
            if window_ms > cfg.max_window_ms {
                return Err(AdmitError::InvalidWindow);
            }
        }
        self.stamp(key, window_ms, now_ms)
    }

    /// The per-key decision on a store that passed the sweep and the two checks.
    fn stamp(&mut self, key: &str, window_ms: u64, now_ms: u64) -> (r: Result<Outcome, AdmitError>)
        requires
            old(self).wf(),
        ensures
            final(self).wf(),
            final(self).config == old(self).config,
            old(self)@.contains_key(key@) && elapsed(now_ms, old(self)@[key@]) < window_ms ==> {
                &&& r == Ok::<Outcome, AdmitError>(
                    Outcome::Throttled((window_ms - elapsed(now_ms, old(self)@[key@])) as u64),
                )
                &&& final(self)@ == old(self)@
            },
            !(old(self)@.contains_key(key@) && elapsed(now_ms, old(self)@[key@]) < window_ms) ==> {
                &&& r == Ok::<Outcome, AdmitError>(Outcome::Admitted)
                &&& final(self)@ == old(self)@.insert(key@, now_ms)
            },
    {
        proof { self.lemma_view(); }
        let k = key.to_owned();
        match self.find(&k) {
            Some(i) => {
                let last = self.stamps[i];
                let age: u64 = if now_ms >= last { now_ms - last } else { 0 };
                assert(self@.contains_key(self.keys@[i as int]@));
                if age < window_ms {
                    Ok(Outcome::Throttled(window_ms - age))
                } else {
                    proof { lemma_entries_map_update(self.keys@, self.stamps@, i as int, now_ms); }
                    self.stamps.set(i, now_ms);
                    Ok(Outcome::Admitted)
                }
            },
            None => {
                let ghost ok = self.keys@;
                proof {
                    lemma_entries_map_push(self.keys@, self.stamps@, k, now_ms);
                    assert forall|a: int, b: int| 0 <= a < b < ok.len() + 1 implies
                        #[trigger] ok.push(k)[a]@ != #[trigger] ok.push(k)[b]@ by {
                        if b == ok.len() {
                            assert(self@.contains_key(ok[a]@));
                        } else {
                            assert(ok.push(k)[a] == ok[a] && ok.push(k)[b] == ok[b]);
                        }
                    }
                }
                self.keys.push(k);
                self.stamps.push(now_ms);
                Ok(Outcome::Admitted)
            },
        }
    }

    /// Copies of the entries that are not stale at `now`.
    fn live_entries(&self, now: u64) -> (r: (Vec<String>, Vec<u64>))
        requires
            self.wf(),
        ensures
            r.0@.len() == r.1@.len(),
            distinct_keys(r.0@),
            entries_map(r.0@, r.1@) == swept(self@, now, self.config.max_window_ms),
    {
        proof { self.lemma_view(); }
        let horizon = self.config.max_window_ms;
        let n = self.keys.len();
        let mut nk: Vec<String> = Vec::new();
        let mut ns: Vec<u64> = Vec::new();
        let mut i: usize = 0;
        while i < n
            invariant
                self.wf(),
                n == self.keys@.len(),
                horizon == self.config.max_window_ms,
                i <= n,
                nk@.len() == ns@.len(),
                distinct_keys(nk@),
                forall|k: Seq<char>| #[trigger] entries_map(nk@, ns@).contains_key(k) ==> {
                    &&& self@.contains_key(k)
                    &&& entries_map(nk@, ns@)[k] == self@[k]
                    &&& !is_stale(self@[k], now, horizon)
                    &&& exists|p: int| 0 <= p < i && self.keys@[p]@ == k
                },
                forall|p: int| 0 <= p < i && !is_stale(self.stamps@[p], now, horizon)
                    ==> #[trigger] entries_map(nk@, ns@).contains_key(self.keys@[p]@),
                forall|k: Seq<char>| self@.contains_key(k) ==> exists|p: int| 0 <= p < n && self.keys@[p]@ == k,
                forall|p: int| 0 <= p < n ==> #[trigger] self@.contains_key(self.keys@[p]@)
                    && self@[self.keys@[p]@] == self.stamps@[p],
            decreases n - i,
        {
            let last = self.stamps[i];
            let age: u64 = if now >= last { now - last } else { 0 };
            if age <= horizon {
                let ghost old_nk = nk@;
                let ghost old_ns = ns@;
                proof { lemma_entries_map(old_nk, old_ns); }
                let k = self.keys[i].clone();
                proof {
                    lemma_entries_map_push(old_nk, old_ns, k, last);
                    if entries_map(old_nk, old_ns).contains_key(k@) {
                        let p = choose|p: int| 0 <= p < i && self.keys@[p]@ == k@;
                        assert(self.keys@[p]@ != self.keys@[i as int]@);
                    }
                }
                nk.push(k);
                ns.push(last);
                proof {
                    assert forall|a: int, b: int| 0 <= a < b < nk@.len() implies nk@[a]@ != nk@[b]@ by {
                        if b == nk@.len() - 1 {
                            assert(old_nk[a] == nk@[a]);
                            assert(entries_map(old_nk, old_ns).contains_key(old_nk[a]@));
                        } else {
                            assert(old_nk[a] == nk@[a] && old_nk[b] == nk@[b]);
                        }
                    }
                    let m2 = entries_map(nk@, ns@);
                    assert forall|k2: Seq<char>| #[trigger] m2.contains_key(k2) implies {
                        &&& self@.contains_key(k2)
                        &&& m2[k2] == self@[k2]
                        &&& !is_stale(self@[k2], now, horizon)
                        &&& exists|p: int| 0 <= p < i + 1 && self.keys@[p]@ == k2
                    } by {
                        if k2 != k@ {
                            assert(entries_map(old_nk, old_ns).contains_key(k2));
                            let p = choose|p: int| 0 <= p < i && self.keys@[p]@ == k2;
                            assert(self.keys@[p]@ == k2);
                        } else {
                            assert(self@.contains_key(self.keys@[i as int]@));
                            assert(self.keys@[i as int]@ == k2);
                        }
                    }
                    assert forall|p: int| 0 <= p < i + 1 && !is_stale(self.stamps@[p], now, horizon)
                        implies #[trigger] m2.contains_key(self.keys@[p]@) by {
                        if p < i {
                            assert(entries_map(old_nk, old_ns).contains_key(self.keys@[p]@));
                        }
                    }
                }
            }
            i += 1;
        }
        proof {
            let m2 = entries_map(nk@, ns@);
            let sw = swept(self@, now, horizon);
            assert forall|k: Seq<char>| #[trigger] sw.contains_key(k) implies m2.contains_key(k) by {
                let p = choose|p: int| 0 <= p < n && self.keys@[p]@ == k;
                assert(self@.contains_key(self.keys@[p]@));
                assert(m2.contains_key(self.keys@[p]@));
            }
            assert(m2 =~= sw);
        }
        (nk, ns)
    }

    fn find(&self, key: &String) -> (r: Option<usize>)
        requires
            self.wf(),
        ensures
            match r {
                Some(i) => i < self.keys@.len() && self.keys@[i as int]@ == key@,
                None => !self@.contains_key(key@),
            },
    {
        proof { self.lemma_view(); }
        let n = self.keys.len();
        let mut i: usize = 0;
        while i < n
            invariant
                n == self.keys@.len(),
                i <= n,
                forall|j: int| 0 <= j < i ==> self.keys@[j]@ != key@,
            decreases n - i,
        {
            if self.keys[i] == *key {
                return Some(i);
            }
            i += 1;
        }
        proof {
            if self@.contains_key(key@) {
                let j = choose|j: int| 0 <= j < self.keys@.len() && self.keys@[j]@ == key@;
                assert(self.keys@[j]@ != key@);
            }
        }
        None
    }
}

} // verus!
