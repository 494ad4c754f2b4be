//! The settings of the installer.

use vstd::prelude::*;
use vstd::string::*;
use crate::paths::{join, join_path};

verus! {

/// How many tasks run at a time where nothing else is said.
pub const DEFAULT_CONCURRENCY: usize = 20;

/// Where the installer keeps its files, and how it works.
#[derive(Debug, PartialEq, Eq)]
pub struct Config {
    /// The directory of the store, the database, the cache and the locks.
    pub root: String,
    /// The directory that installed formulas are linked into.
    pub prefix: String,
    /// How many tasks may run at a time: at least 1.
    pub concurrency: usize,
    /// Whether a missing root or prefix is set up without asking.
    pub auto_init: bool,
}

impl Config {
    /// The settings for the given choices. Without a root, it is
    /// `.zerobrew` below `home`; without a prefix, it is `prefix` below the
    /// root; without a concurrency, it is 20. A concurrency of 0 is refused.
    pub fn new(
        home: &str,
        root: Option<String>,
        prefix: Option<String>,
        concurrency: Option<usize>,
        auto_init: bool,
    ) -> (res: Result<Config, String>)
        ensures
            concurrency == Some(0usize) ==> res is Err && res->Err_0@
                == "concurrency must be at least 1"@,
            concurrency != Some(0usize) ==> res is Ok && res->Ok_0.concurrency == (
            match concurrency {
                Some(n) => n,
                None => DEFAULT_CONCURRENCY,
            }) && res->Ok_0.auto_init == auto_init && res->Ok_0.root@ == (match root {
                Some(r) => r@,
                None => join_path(home@, ".zerobrew"@),
            }) && res->Ok_0.prefix@ == (match prefix {
                Some(p) => p@,
                None => join_path(res->Ok_0.root@, "prefix"@),
            }),
    {
        let concurrency = match concurrency {
            Some(n) => n,
            None => DEFAULT_CONCURRENCY,
        };
        if concurrency == 0 {
            return Err(String::from_str("concurrency must be at least 1"));
        }
        let root = match root {
            Some(r) => r,
            None => join(home, ".zerobrew"),
        };
        let prefix = match prefix {
            Some(p) => p,
            None => join(root.as_str(), "prefix"),
        };
        Ok(Config { root, prefix, concurrency, auto_init })
    }
}

} // verus!
