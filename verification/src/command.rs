//! The query of one run: which dataset, and which route.

use vstd::prelude::*;

verus! {

/// The three arguments of a run. The dataset's path is kept as text; whoever
/// opens the file turns it into a path of the file system.
#[derive(Debug)]
pub struct Command {
    path: String,
    origin: String,
    destination: String,
}

impl Command {
    /// Builds a command from its three arguments, unchanged.
    pub fn new(path: String, origin: String, destination: String) -> (r: Command)
        ensures
            r.spec_path() == path@,
            r.spec_origin() == origin@,
            r.spec_destination() == destination@,
    {
        Command { path, origin, destination }
    }

    /// The text of the dataset's path.
    pub closed spec fn spec_path(&self) -> Seq<char> {
        self.path@
    }

    /// The text of the requested origin.
    pub closed spec fn spec_origin(&self) -> Seq<char> {
        self.origin@
    }

    /// The text of the requested destination.
    pub closed spec fn spec_destination(&self) -> Seq<char> {
        self.destination@
    }

    /// The dataset's path, as it was given.
    pub fn path(&self) -> (r: &str)
        ensures
            r@ == self.spec_path(),
    {
        self.path.as_str()
    }

    /// The requested origin, in the case it was given.
    pub fn origin(&self) -> (r: &str)
        ensures
            r@ == self.spec_origin(),
    {
        self.origin.as_str()
    }

    /// The requested destination, in the case it was given.
    pub fn destination(&self) -> (r: &str)
        ensures
            r@ == self.spec_destination(),
    {
        self.destination.as_str()
    }
}

} // verus!
