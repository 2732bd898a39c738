use vstd::prelude::*;

use crate::command::{default_id_of, resolve_id};

verus! {

/// Longest debounce window a request may ask for, in milliseconds (one day).
pub const MAX_TIMEOUT_MS: u64 = 86_400_000;

/// Hard ceiling on the number of live timer entries.
pub const MAX_ENTRIES: usize = 1_000_000;

/// Entry count above which a staleness sweep runs before admission.
pub const GC_ITEMS: usize = 1000;

/// Bus name under which the daemon serves its requests.
pub const DEST: &'static str = "com.github.fabienjuif.debouncerd";

/// Method name of the command debounce request.
pub const DEBOUNCE_CMD_METHOD: &'static str = "DebounceCmd";

/// Method name of the bare debounce request.
pub const DEBOUNCE_METHOD: &'static str = "Debounce";

/// A command debounce request: the daemon runs `cmd` in `pwd` when admitted.
#[derive(Debug)]
pub struct DebounceCmdOptions {
    /// Debounce window in milliseconds.
    pub timeout_ms: u64,
    pub cmd: String,
    pub id: String,
    pub pwd: String,
}

impl DebounceCmdOptions {
    /// A command request for `cmd` run in `pwd`, identified by `id`, else by the
    /// hexadecimal XXH3 digest of `cmd`.
    pub fn for_command(timeout_ms: u64, cmd: String, id: Option<String>, pwd: String) -> (r: Self)
        ensures
            r.timeout_ms == timeout_ms,
            r.cmd == cmd,
            r.pwd == pwd,
            r.id@ == match id {
                Some(s) => s@,
                None => default_id_of(cmd@),
            },
    {
        let id = resolve_id(id, cmd.as_str());
        DebounceCmdOptions { timeout_ms, cmd, id, pwd }
    }

    /// Wire form `(id, timeout_ms, pwd, cmd)`.
    pub fn into_tuple(self) -> (r: (String, u64, String, String))
        ensures
            r.0 == self.id,
            r.1 == self.timeout_ms,
            r.2 == self.pwd,
            r.3 == self.cmd,
    {
        (self.id, self.timeout_ms, self.pwd, self.cmd)
    }

    /// Inverse of [`DebounceCmdOptions::into_tuple`].
    pub fn from_tuple(t: (String, u64, String, String)) -> (r: Self)
        ensures
            r.id == t.0,
            r.timeout_ms == t.1,
            r.pwd == t.2,
            r.cmd == t.3,
    {
        let (id, timeout_ms, pwd, cmd) = t;
        DebounceCmdOptions { timeout_ms, cmd, id, pwd }
    }
}

/// A bare debounce request: the caller runs the action itself when admitted.
#[derive(Debug)]
pub struct DebounceOptions {
    /// Debounce window in milliseconds.
    pub timeout_ms: u64,
    pub id: String,
}

impl DebounceOptions {
    /// A bare request for `cmd`, identified by `id`, else by the hexadecimal XXH3
    /// digest of `cmd`.
    pub fn for_command(timeout_ms: u64, cmd: &str, id: Option<String>) -> (r: Self)
        ensures
            r.timeout_ms == timeout_ms,
            r.id@ == match id {
                Some(s) => s@,
                None => default_id_of(cmd@),
            },
    {
        DebounceOptions { timeout_ms, id: resolve_id(id, cmd) }
    }

    /// Wire form `(id, timeout_ms)`.
    pub fn into_tuple(self) -> (r: (String, u64))
        ensures
            r.0 == self.id,
            r.1 == self.timeout_ms,
    {
        (self.id, self.timeout_ms)
    }

    /// Inverse of [`DebounceOptions::into_tuple`].
    pub fn from_tuple(t: (String, u64)) -> (r: Self)
        ensures
            r.id == t.0,
            r.timeout_ms == t.1,
    {
        let (id, timeout_ms) = t;
        DebounceOptions { timeout_ms, id }
    }
}

} // verus!
