use vstd::prelude::*;
use crate::sandbox::{join, join_path};

verus! {

/// Where FixTrace keeps its state: the history database, the configuration file and the
/// sessions' directories.
#[derive(Clone, Debug)]
pub struct StatePaths {
    pub database: String,
    pub config: String,
    pub sessions: String,
}

/// The state directory: the one asked for, else the `FIXTRACE_HOME` variable's value, else
/// `.fixtrace` in the home directory; `None` when there is none of them.
pub fn state_root(override_root: Option<String>, fixtrace_home: Option<String>, home: Option<String>) -> (res: Option<String>)
    ensures
        match override_root {
            Some(r) => res == Some(r),
            None => match fixtrace_home {
                Some(h) => res == Some(h),
                None => match home {
                    Some(h) => res matches Some(r) && r@ == join_path(h@, ".fixtrace"@),
                    None => res is None,
                },
            },
        },
{
    match override_root {
        Some(r) => Some(r),
        None => match fixtrace_home {
            Some(h) => Some(h),
            None => match home {
                Some(h) => Some(join(h.as_str(), ".fixtrace")),
                None => None,
            },
        },
    }
}

impl StatePaths {
    /// The state paths under the directory `root`.
    pub fn under(root: &str) -> (res: Self)
        ensures
            res.database@ == join_path(root@, "history.sqlite3"@),
            res.config@ == join_path(root@, "config.toml"@),
            res.sessions@ == join_path(root@, "sessions"@),
    {
        StatePaths {
            database: join(root, "history.sqlite3"),
            config: join(root, "config.toml"),
            sessions: join(root, "sessions"),
        }
    }

    /// The directory of the session whose id is `session_id`.
    pub fn session_root(&self, session_id: &str) -> (res: String)
        ensures
            res@ == join_path(self.sessions@, session_id@),
    {
        join(self.sessions.as_str(), session_id)
    }
}

} // verus!
