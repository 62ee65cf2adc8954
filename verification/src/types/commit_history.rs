//! The history of commits, in the order in which they were added.
use vstd::prelude::*;

use crate::traits::CommitHistoryI;
use crate::types::commit::Commit;

verus! {

/// A history of commits, oldest first.
#[derive(Debug, PartialEq)]
pub struct CommitHistory {
    pub commits: Vec<Commit>,
}

impl CommitHistoryI for CommitHistory {
    type Commit = Commit;

    /// A history with no commits.
    fn new() -> (r: CommitHistory)
        ensures
            r.commits@ == Seq::<Commit>::empty(),
    {
        CommitHistory { commits: Vec::new() }
    }

    /// Add `commit` at the end of the history.
    fn add_commit(&mut self, commit: Commit)
        ensures
            final(self).commits@ == old(self).commits@.push(commit),
    {
        self.commits.push(commit);
    }
}

} // verus!
