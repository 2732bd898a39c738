use vstd::prelude::*;

use crate::options::{DebounceCmdOptions, DebounceOptions};
use crate::store::{check_result, check_state, AdmitError, DebounceStore, Outcome};

verus! {

/// Wire form of an outcome: whether the action runs, and the milliseconds left otherwise.
pub open spec fn reply_of(o: Outcome) -> (bool, u64) {
    match o {
        Outcome::Admitted => (true, 0),
        Outcome::Throttled(remaining) => (false, remaining),
    }
}

/// Wire form of a decision: the reply, or the refusal unchanged.
pub open spec fn wire_result(r: Result<Outcome, AdmitError>) -> Result<(bool, u64), AdmitError> {
    match r {
        Ok(o) => Ok(reply_of(o)),
        Err(e) => Err(e),
    }
}

impl Outcome {
    /// `(true, 0)` when admitted, `(false, remaining)` when throttled.
    pub fn to_reply(&self) -> (r: (bool, u64))
        ensures
            r == reply_of(*self),
    {
        match self {
            Outcome::Admitted => (true, 0),
            Outcome::Throttled(remaining) => (false, *remaining),
        }
    }
}

/// Bare debounce: decides on `opts.id` and reports; nothing is run here.
pub fn debounce(store: &mut DebounceStore, opts: &DebounceOptions, now_ms: u64) -> (r: Result<
    (bool, u64),
    AdmitError,
>)
    requires
        old(store).wf(),
    ensures
        final(store).wf(),
        final(store).spec_config() == old(store).spec_config(),
        r == wire_result(check_result(old(store).spec_config(), old(store)@, opts.id@, opts.timeout_ms, now_ms)),
        final(store)@ == check_state(old(store).spec_config(), old(store)@, opts.id@, opts.timeout_ms, now_ms),
{
    match store.check(opts.id.as_str(), opts.timeout_ms, now_ms) {
        Ok(o) => Ok(o.to_reply()),
        Err(e) => Err(e),
    }
}

/// Command debounce: decides on `opts.id`; a reply of `(true, 0)` tells the caller to
/// dispatch `opts.cmd` in `opts.pwd`, after the decision is committed.
pub fn debounce_cmd(store: &mut DebounceStore, opts: &DebounceCmdOptions, now_ms: u64) -> (r: Result<
    (bool, u64),
    AdmitError,
>)
    requires
        old(store).wf(),
    ensures
        final(store).wf(),
        final(store).spec_config() == old(store).spec_config(),
        r == wire_result(check_result(old(store).spec_config(), old(store)@, opts.id@, opts.timeout_ms, now_ms)),
        final(store)@ == check_state(old(store).spec_config(), old(store)@, opts.id@, opts.timeout_ms, now_ms),
{
    match store.check(opts.id.as_str(), opts.timeout_ms, now_ms) {
        Ok(o) => Ok(o.to_reply()),
        Err(e) => Err(e),
    }
}

} // verus!
