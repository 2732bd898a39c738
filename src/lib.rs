//! Debounce daemon core: a keyed admission store with a capacity guard and a
//! staleness sweep, the request shapes that reach it, and the pure parts of
//! command dispatch and identifier derivation.

pub mod command;
pub mod laws;
pub mod options;
pub mod protocol;
pub mod store;

pub use command::{id_or_digest, launch_plan, plan_from_words, resolve_id, LaunchError, LaunchPlan};
pub use options::{
    DebounceCmdOptions, DebounceOptions, DEBOUNCE_CMD_METHOD, DEBOUNCE_METHOD, DEST, GC_ITEMS,
    MAX_ENTRIES, MAX_TIMEOUT_MS,
};
pub use protocol::{debounce, debounce_cmd};
pub use store::{AdmitError, DebounceConfig, DebounceStore, Outcome};
