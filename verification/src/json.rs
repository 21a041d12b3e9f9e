//! The handle naming where the JSON-backed store lives.  Reading and
//! writing the file, and the (de)serialization around it, belong to
//! the runtime shell; the library only carries the location.

use vstd::prelude::*;

verus! {

/// A task store persisted as one JSON file at a fixed path.
#[derive(Debug)]
pub struct JsonRepository {
    path: String,
}

impl JsonRepository {
    /// The mathematical value of the path.
    pub closed spec fn spec_path(&self) -> Seq<char> {
        self.path@
    }

    pub fn new(path: String) -> (r: JsonRepository)
        ensures
            r.spec_path() == path@,
    {
        JsonRepository { path }
    }

    /// Where the file lives.
    pub fn path(&self) -> (r: &str)
        ensures
            r@ == self.spec_path(),
    {
        self.path.as_str()
    }
}

} // verus!
