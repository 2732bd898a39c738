use vstd::prelude::*;

use crate::store::{
    check_result, check_state, elapsed, is_stale, pre_admission, swept, AdmitError, DebounceConfig,
    Outcome,
};

verus! {

/// Sweeping keeps a finite map finite and never makes it larger.
pub proof fn lemma_swept_len(m: Map<Seq<char>, u64>, now: u64, horizon: u64)
    requires
        m.dom().finite(),
    ensures
        swept(m, now, horizon).dom().finite(),
        swept(m, now, horizon).len() <= m.len(),
{
    let f = |k: Seq<char>| !is_stale(m[k], now, horizon);
    assert(swept(m, now, horizon).dom() =~= m.dom().filter(f));
    m.dom().lemma_len_filter(f);
}

/// The timers an admission works on are finite and no more than the timers held.
pub proof fn lemma_pre_admission_len(cfg: DebounceConfig, m: Map<Seq<char>, u64>, now: u64)
    requires
        m.dom().finite(),
    ensures
        pre_admission(cfg, m, now).dom().finite(),
        pre_admission(cfg, m, now).len() <= m.len(),
{
    lemma_swept_len(m, now, cfg.max_window_ms);
}

/// A first request on an empty store is admitted, whatever the key and for every window
/// the store accepts, and leaves exactly that key stamped with the request time.
pub proof fn lemma_first_request_admitted(cfg: DebounceConfig, key: Seq<char>, window: u64, now: u64)
    requires
        cfg.max_entries > 0,
        window <= cfg.max_window_ms,
    ensures
        check_result(cfg, Map::empty(), key, window, now) == Ok::<Outcome, AdmitError>(Outcome::Admitted),
        check_state(cfg, Map::empty(), key, window, now) == Map::<Seq<char>, u64>::empty().insert(key, now),
{
}

/// A request at `t1` for a key that is new or whose window has passed is admitted; a
/// repeat of it inside the window is throttled with the rest of the window left, and a
/// later repeat is left strictly less time.
pub proof fn lemma_repeat_within_window(
    cfg: DebounceConfig,
    m: Map<Seq<char>, u64>,
    key: Seq<char>,
    window: u64,
    t1: u64,
    t2: u64,
    t3: u64,
)
    requires
        m.dom().finite(),
        m.len() + 1 < cfg.max_entries,
        window <= cfg.max_window_ms,
        !m.contains_key(key) || elapsed(t1, m[key]) >= window,
        t1 <= t2 < t3,
        t3 - t1 < window,
    ensures
        check_result(cfg, m, key, window, t1) == Ok::<Outcome, AdmitError>(Outcome::Admitted),
        check_result(cfg, check_state(cfg, m, key, window, t1), key, window, t2)
            == Ok::<Outcome, AdmitError>(Outcome::Throttled((window - (t2 - t1)) as u64)),
        check_result(cfg, check_state(cfg, m, key, window, t1), key, window, t3)
            == Ok::<Outcome, AdmitError>(Outcome::Throttled((window - (t3 - t1)) as u64)),
        0 < window - (t3 - t1) < window - (t2 - t1),
{
    let s1 = check_state(cfg, m, key, window, t1);
    lemma_pre_admission_len(cfg, m, t1);
    lemma_throttled_while_open(cfg, s1, key, window, t1, t2);
    lemma_throttled_while_open(cfg, s1, key, window, t1, t3);
}

/// A key stamped at `t0` in a store with room is throttled at any `t` inside its window,
/// and the store after that request still holds the key at `t0`, with no more entries.
pub proof fn lemma_throttled_while_open(
    cfg: DebounceConfig,
    s: Map<Seq<char>, u64>,
    key: Seq<char>,
    window: u64,
    t0: u64,
    t: u64,
)
    requires
        s.dom().finite(),
        s.len() < cfg.max_entries,
        s.contains_key(key),
        s[key] == t0,
        window <= cfg.max_window_ms,
        t0 <= t,
        t - t0 < window,
    ensures
        check_result(cfg, s, key, window, t) == Ok::<Outcome, AdmitError>(
            Outcome::Throttled((window - (t - t0)) as u64),
        ),
        check_state(cfg, s, key, window, t).dom().finite(),
        check_state(cfg, s, key, window, t).len() <= s.len(),
        check_state(cfg, s, key, window, t).contains_key(key),
        check_state(cfg, s, key, window, t)[key] == t0,
{
    lemma_pre_admission_len(cfg, s, t);
    assert(elapsed(t, t0) == t - t0);
}

/// A request at `t1` for a key that is new or whose window has passed is admitted, and
/// the same request once the window has passed again is admitted too.
pub proof fn lemma_repeat_after_window(
    cfg: DebounceConfig,
    m: Map<Seq<char>, u64>,
    key: Seq<char>,
    window: u64,
    t1: u64,
    t2: u64,
)
    requires
        m.dom().finite(),
        m.len() + 1 < cfg.max_entries,
        window <= cfg.max_window_ms,
        !m.contains_key(key) || elapsed(t1, m[key]) >= window,
        t2 >= t1 + window,
    ensures
        check_result(cfg, m, key, window, t1) == Ok::<Outcome, AdmitError>(Outcome::Admitted),
        check_result(cfg, check_state(cfg, m, key, window, t1), key, window, t2) == Ok::<
            Outcome,
            AdmitError,
        >(Outcome::Admitted),
{
    let s1 = check_state(cfg, m, key, window, t1);
    lemma_pre_admission_len(cfg, m, t1);
    lemma_pre_admission_len(cfg, s1, t2);
    let p = pre_admission(cfg, s1, t2);
    if p.contains_key(key) {
        assert(p[key] == t1);
        assert(elapsed(t2, t1) >= window);
    }
}

/// A request whose window is over the limit changes nothing: every later request is
/// answered as if it had not been made.
pub proof fn lemma_invalid_window_changes_nothing(
    cfg: DebounceConfig,
    m: Map<Seq<char>, u64>,
    key: Seq<char>,
    window: u64,
    now: u64,
    key2: Seq<char>,
    window2: u64,
    now2: u64,
)
    requires
        window > cfg.max_window_ms,
    ensures
        check_result(cfg, m, key, window, now) is Err,
        pre_admission(cfg, m, now).len() < cfg.max_entries ==> check_result(cfg, m, key, window, now)
            == Err::<Outcome, AdmitError>(AdmitError::InvalidWindow),
        check_state(cfg, m, key, window, now) == m,
        check_result(cfg, check_state(cfg, m, key, window, now), key2, window2, now2)
            == check_result(cfg, m, key2, window2, now2),
{
}

/// A store full of live entries refuses every request, for a new key and for one it
/// already holds alike, and stays as it was.
pub proof fn lemma_full_store_refuses(
    cfg: DebounceConfig,
    m: Map<Seq<char>, u64>,
    key: Seq<char>,
    window: u64,
    now: u64,
)
    requires
        m.dom().finite(),
        m.len() >= cfg.max_entries,
        forall|k: Seq<char>| #[trigger] m.contains_key(k) ==> !is_stale(m[k], now, cfg.max_window_ms),
    ensures
        check_result(cfg, m, key, window, now) == Err::<Outcome, AdmitError>(AdmitError::CapacityExceeded),
        check_state(cfg, m, key, window, now) == m,
{
    assert(swept(m, now, cfg.max_window_ms) =~= m);
}

/// Results of the same request made at each of `times` in turn, starting from `m`.
pub open spec fn run_results(
    cfg: DebounceConfig,
    m: Map<Seq<char>, u64>,
    key: Seq<char>,
    window: u64,
    times: Seq<u64>,
) -> Seq<Result<Outcome, AdmitError>>
    decreases times.len(),
{
    if times.len() == 0 {
        Seq::empty()
    } else {
        seq![check_result(cfg, m, key, window, times[0])] + run_results(
            cfg,
            check_state(cfg, m, key, window, times[0]),
            key,
            window,
            times.drop_first(),
        )
    }
}

proof fn lemma_run_throttled(
    cfg: DebounceConfig,
    s: Map<Seq<char>, u64>,
    key: Seq<char>,
    window: u64,
    t0: u64,
    times: Seq<u64>,
)
    requires
        s.dom().finite(),
        s.len() < cfg.max_entries,
        s.contains_key(key),
        s[key] == t0,
        window <= cfg.max_window_ms,
        forall|i: int| 0 <= i < times.len() ==> t0 <= #[trigger] times[i] && times[i] - t0 < window,
    ensures
        run_results(cfg, s, key, window, times).len() == times.len(),
        forall|i: int|
            0 <= i < times.len() ==> #[trigger] run_results(cfg, s, key, window, times)[i] is Ok
                && run_results(cfg, s, key, window, times)[i]->Ok_0 is Throttled,
    decreases times.len(),
{
    if times.len() > 0 {
        lemma_throttled_while_open(cfg, s, key, window, t0, times[0]);
        let s2 = check_state(cfg, s, key, window, times[0]);
        let rest = times.drop_first();
        assert forall|i: int| 0 <= i < rest.len() implies t0 <= #[trigger] rest[i] && rest[i] - t0 < window by {
            assert(rest[i] == times[i + 1]);
        }
        lemma_run_throttled(cfg, s2, key, window, t0, rest);
        let r = run_results(cfg, s, key, window, times);
        assert forall|i: int| 0 <= i < times.len() implies #[trigger] r[i] is Ok && r[i]->Ok_0 is Throttled by {
            if i > 0 {
                assert(r[i] == run_results(cfg, s2, key, window, rest)[i - 1]);
            }
        }
    }
}

/// Requests for one fresh key that all fall inside the window of the first are served
/// one at a time: in any order the first is admitted and every other is throttled.
pub proof fn lemma_burst_admits_once(
    cfg: DebounceConfig,
    m: Map<Seq<char>, u64>,
    key: Seq<char>,
    window: u64,
    times: Seq<u64>,
)
    requires
        m.dom().finite(),
        m.len() + 1 < cfg.max_entries,
        !m.contains_key(key),
        window <= cfg.max_window_ms,
        times.len() > 0,
        forall|i: int| 0 <= i < times.len() ==> times[0] <= #[trigger] times[i] && times[i] - times[0] < window,
    ensures
        run_results(cfg, m, key, window, times).len() == times.len(),
        run_results(cfg, m, key, window, times)[0] == Ok::<Outcome, AdmitError>(Outcome::Admitted),
        forall|i: int|
            1 <= i < times.len() ==> #[trigger] run_results(cfg, m, key, window, times)[i] is Ok
                && run_results(cfg, m, key, window, times)[i]->Ok_0 is Throttled,
{
    let t0 = times[0];
    lemma_pre_admission_len(cfg, m, t0);
    let s1 = check_state(cfg, m, key, window, t0);
    assert(s1 == pre_admission(cfg, m, t0).insert(key, t0));
    let rest = times.drop_first();
    assert forall|i: int| 0 <= i < rest.len() implies t0 <= #[trigger] rest[i] && rest[i] - t0 < window by {
        assert(rest[i] == times[i + 1]);
    }
    lemma_run_throttled(cfg, s1, key, window, t0, rest);
    let r = run_results(cfg, m, key, window, times);
    assert forall|i: int| 1 <= i < times.len() implies #[trigger] r[i] is Ok && r[i]->Ok_0 is Throttled by {
        assert(r[i] == run_results(cfg, s1, key, window, rest)[i - 1]);
    }
}

/// Once the store is above its threshold, a request sweeps out every stale entry; a
/// later request for a swept key is admitted as for a new one.
pub proof fn lemma_sweep_evicts_stale(
    cfg: DebounceConfig,
    m: Map<Seq<char>, u64>,
    key: Seq<char>,
    window: u64,
    now: u64,
    stale_key: Seq<char>,
    window2: u64,
    now2: u64,
)
    requires
        m.dom().finite(),
        m.len() > cfg.gc_threshold,
        m.contains_key(stale_key),
        is_stale(m[stale_key], now, cfg.max_window_ms),
        check_result(cfg, m, key, window, now) is Ok,
        key != stale_key,
        window2 <= cfg.max_window_ms,
        check_state(cfg, m, key, window, now).len() < cfg.max_entries,
    ensures
        !check_state(cfg, m, key, window, now).contains_key(stale_key),
        check_result(cfg, check_state(cfg, m, key, window, now), stale_key, window2, now2) == Ok::<
            Outcome,
            AdmitError,
        >(Outcome::Admitted),
{
    let s = check_state(cfg, m, key, window, now);
    lemma_pre_admission_len(cfg, m, now);
    lemma_pre_admission_len(cfg, s, now2);
}

} // verus!
