//! The registry of completion scripts: which script completes the arguments
//! of which command.

use vstd::prelude::*;
use crate::strmap::StrMap;

verus! {

pub struct Complete {
    /// Completion script of each command.
    pub scripts: StrMap,
}

impl Complete {
    /// A registry with no scripts.
    pub fn new() -> (r: Complete)
        ensures
            r.scripts@ == Map::<Seq<char>, Seq<char>>::empty(),
    {
        Complete { scripts: StrMap::new() }
    }
}

} // verus!
