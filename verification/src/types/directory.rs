//! A directory of the history model: the names of its path, outermost
//! first.
use vstd::prelude::*;

use crate::traits::DirectoryI;
use crate::vcs::git::object::texts;

verus! {

/// A directory, as the names along its path.
#[derive(Debug, Clone, PartialEq, Eq, PartialOrd, Ord, Hash)]
pub struct Directory {
    pub path: Vec<String>,
}

/// The path `a` begins with the path `b`.
pub open spec fn path_starts_with(a: Seq<Seq<char>>, b: Seq<Seq<char>>) -> bool {
    b.len() <= a.len() && forall|i: int| 0 <= i < b.len() ==> #[trigger] a[i] == b[i]
}

impl DirectoryI for Directory {
    /// Whether the path of `directory` begins with this directory's path.
    fn is_prefix_of(&self, directory: &Directory) -> (b: bool)
        ensures
            b == path_starts_with(texts(directory.path@), texts(self.path@)),
    {
        let n = self.path.len();
        if n > directory.path.len() {
            return false;
        }
        let mut i: usize = 0;
        while i < n
            invariant
                n == self.path@.len(),
                n <= directory.path@.len(),
                i <= n,
                forall|j: int| 0 <= j < i ==> texts(directory.path@)[j] == texts(self.path@)[j],
            decreases n - i,
        {
            if self.path[i] != directory.path[i] {
                assert(texts(directory.path@)[i as int] != texts(self.path@)[i as int]);
                return false;
            }
            i = i + 1;
        }
        true
    }
}

/// A path begins with another exactly when its first names, as many as
/// the other has, are the other's names; so every path begins with the
/// empty path of the root directory.
pub proof fn lemma_path_starts_with(a: Seq<Seq<char>>, b: Seq<Seq<char>>)
    ensures
        path_starts_with(a, b) <==> b.len() <= a.len() && a.take(b.len() as int) == b,
        path_starts_with(a, Seq::empty()),
{
    if path_starts_with(a, b) {
        assert(a.take(b.len() as int) =~= b);
    }
    if b.len() <= a.len() && a.take(b.len() as int) == b {
        assert forall|i: int| 0 <= i < b.len() implies #[trigger] a[i] == b[i] by {
            assert(a.take(b.len() as int)[i] == a[i]);
        }
    }
}

/// A directory is always a prefix of itself.
pub proof fn lemma_is_prefix_identity(directory: Directory)
    ensures
        path_starts_with(texts(directory.path@), texts(directory.path@)),
{
}

} // verus!
