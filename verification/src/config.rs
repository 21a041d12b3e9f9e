//! The run configuration, assembled by merging several partial
//! sources (defaults, the desktop directories, the environment,
//! arguments) with a last-writer-wins rule on each field.

use vstd::prelude::*;

use crate::monoid::Monoid;
use crate::semigroup::Semigroup;

verus! {

/// A partial configuration: each source fills the fields it knows.
#[derive(Debug)]
pub struct AppPaths {
    pub config: Option<String>,
    pub data: Option<String>,
    pub detached: Option<bool>,
}

impl Semigroup for AppPaths {
    open spec fn ready(self, rhs: AppPaths) -> bool {
        true
    }

    /// Field-wise last-writer-wins: a later source overrides an
    /// earlier one exactly where it says something.
    open spec fn spec_combine(self, rhs: AppPaths) -> AppPaths {
        AppPaths {
            config: if rhs.config is Some {
                rhs.config
            } else {
                self.config
            },
            data: if rhs.data is Some {
                rhs.data
            } else {
                self.data
            },
            detached: if rhs.detached is Some {
                rhs.detached
            } else {
                self.detached
            },
        }
    }

    fn combine(self, rhs: AppPaths) -> AppPaths {
        AppPaths {
            config: match rhs.config {
                Some(v) => Some(v),
                None => self.config,
            },
            data: match rhs.data {
                Some(v) => Some(v),
                None => self.data,
            },
            detached: match rhs.detached {
                Some(v) => Some(v),
                None => self.detached,
            },
        }
    }
}

impl Monoid for AppPaths {
    open spec fn spec_empty() -> AppPaths {
        AppPaths { config: None, data: None, detached: None }
    }

    fn empty() -> AppPaths {
        AppPaths { config: None, data: None, detached: None }
    }
}

impl AppPaths {
    /// Settles the merge: every still-absent field falls back to its
    /// default.
    pub fn build(self) -> (r: RunPaths)
        ensures
            self.config matches Some(c) ==> r.config@ == c@,
            self.config is None ==> r.config@ == Seq::<char>::empty(),
            self.data matches Some(d) ==> r.data@ == d@,
            self.data is None ==> r.data@ == Seq::<char>::empty(),
            self.detached matches Some(f) ==> r.detached == f,
            self.detached is None ==> !r.detached,
    {
        RunPaths {
            config: match self.config {
                Some(c) => c,
                None => String::new(),
            },
            data: match self.data {
                Some(d) => d,
                None => String::new(),
            },
            detached: match self.detached {
                Some(f) => f,
                None => false,
            },
        }
    }
}

/// The settled configuration a run works with.
#[derive(Debug)]
pub struct RunPaths {
    pub config: String,
    pub data: String,
    pub detached: bool,
}

impl RunPaths {
    /// Back to a partial source, every field present: merging it over
    /// anything reproduces this configuration.
    pub fn unbuild(self) -> (r: AppPaths)
        ensures
            r.config matches Some(c) && c@ == self.config@,
            r.data matches Some(d) && d@ == self.data@,
            r.detached == Some(self.detached),
    {
        AppPaths {
            config: Some(self.config),
            data: Some(self.data),
            detached: Some(self.detached),
        }
    }
}

} // verus!
