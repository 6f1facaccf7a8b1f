use vstd::prelude::*;

verus! {

/// The command that decides whether a project state is repaired, and its time limit.
#[derive(Clone, Debug)]
pub struct OracleSpec {
    pub command: String,
    pub timeout_ms: u64,
}

impl OracleSpec {
    /// The oracle `command` with a limit of `timeout_secs` seconds, kept in milliseconds
    /// (the largest `u64` when that does not fit).
    pub fn with_timeout_secs(command: String, timeout_secs: u64) -> (res: Self)
        ensures
            res.command == command,
            res.timeout_ms == (if timeout_secs * 1000 > u64::MAX { u64::MAX as int } else { timeout_secs * 1000 }),
    {
        let timeout_ms = match timeout_secs.checked_mul(1000) {
            Some(ms) => ms,
            None => u64::MAX,
        };
        OracleSpec { command, timeout_ms }
    }
}

} // verus!
