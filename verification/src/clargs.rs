//! The command surface consumed by the core: one root path and one
//! sorting option.  Parsing the command line itself is the caller's
//! business.

use vstd::prelude::*;

verus! {

/// The tool's options.
pub struct Opt {
    /// Sort each reported group's members lexicographically.
    pub sort_vec: bool,
    /// Root directory from which to start the search.
    pub root: String,
}

impl Opt {
    /// Bundle the two options.
    pub fn new(sort_vec: bool, root: String) -> (o: Opt)
        ensures
            o.sort_vec == sort_vec,
            o.root == root,
    {
        Opt { sort_vec, root }
    }
}

} // verus!
