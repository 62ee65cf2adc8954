//! Interfaces of the history model, and the views of files and commits
//! that they give.
use vstd::prelude::*;

use crate::types::change_map::ChangeMap;
use crate::types::commit::Commit;
use crate::types::directory::{path_starts_with, Directory};
use crate::types::file::File;
use crate::vcs::git::object::texts;

verus! {

/// A change that a commit makes to a file.
pub trait ChangeI {
    /// The names of files.
    type FileName: View;

    /// The commits.
    type Commit;

    /// The name of the file that the change leaves behind.
    fn get_filename(&self) -> Self::FileName;

    /// Record the change, made by `commit`, in the map from files to the
    /// commits that changed them.
    fn add_change(&self, commit: Self::Commit, change_map: &mut ChangeMap<Self::FileName, Self::Commit>);
}

/// A history of commits.
pub trait CommitHistoryI: Sized {
    /// The commits.
    type Commit;

    /// A history with no commits.
    fn new() -> Self;

    /// Add `commit` to the history.
    fn add_commit(&mut self, commit: Self::Commit);
}

/// A directory of the history model.
pub trait DirectoryI {
    /// Whether this directory is a prefix of `directory`.
    fn is_prefix_of(&self, directory: &Self) -> bool;
}

/// The files among `files` whose directory lies under the directory of
/// path `dir`, in order.
pub open spec fn files_under(files: Seq<File>, dir: Seq<Seq<char>>) -> Seq<File>
    decreases files.len(),
{
    if files.len() == 0 {
        Seq::empty()
    } else {
        let r = files_under(files.drop_last(), dir);
        if path_starts_with(texts(files.last().name.directory.path@), dir) {
            r.push(files.last())
        } else {
            r
        }
    }
}

/// The directory path `t` lies under the directory path `dir`: it begins
/// with every name of `dir`, in order.
pub open spec fn lies_under(t: Seq<Seq<char>>, dir: Seq<Seq<char>>) -> bool {
    dir.len() <= t.len() && t.take(dir.len() as int) == dir
}

/// The files under `dir` are `files` filtered by `lies_under`.
proof fn lemma_files_under_filter(files: Seq<File>, dir: Seq<Seq<char>>)
    ensures
        files_under(files, dir) == files.filter(
            |f: File| lies_under(texts(f.name.directory.path@), dir),
        ),
    decreases files.len(),
{
    reveal(Seq::filter);
    if files.len() > 0 {
        lemma_files_under_filter(files.drop_last(), dir);
        let t = texts(files.last().name.directory.path@);
        assert(path_starts_with(t, dir) == lies_under(t, dir)) by {
            if path_starts_with(t, dir) {
                assert(t.take(dir.len() as int) =~= dir);
            }
            if lies_under(t, dir) {
                assert forall|i: int| 0 <= i < dir.len() implies t[i] == dir[i] by {
                    assert(t.take(dir.len() as int)[i] == t[i]);
                }
            }
        }
    } else {
        assert(files =~= Seq::<File>::empty());
    }
}

/// The files under a directory are exactly the files whose directory
/// begins with the directory's path, kept in their order: `files` filtered
/// by `lies_under`. In particular every file lies under the root directory,
/// whose path is empty, and a file is kept whenever its directory is the
/// directory itself.
pub proof fn lemma_files_under(files: Seq<File>, dir: Seq<Seq<char>>)
    ensures
        files_under(files, dir) == files.filter(
            |f: File| lies_under(texts(f.name.directory.path@), dir),
        ),
        files_under(files, Seq::empty()) == files,
        forall|i: int|
            0 <= i < files.len() && texts(files[i].name.directory.path@) == dir
                ==> #[trigger] files_under(files, dir).contains(files[i]),
{
    let pred = |f: File| lies_under(texts(f.name.directory.path@), dir);
    let root = |f: File| lies_under(texts(f.name.directory.path@), Seq::<Seq<char>>::empty());
    lemma_files_under_filter(files, dir);
    lemma_files_under_filter(files, Seq::empty());
    assert forall|i: int| 0 <= i < files.len() implies root(#[trigger] files[i]) by {
        assert(texts(files[i].name.directory.path@).take(0) =~= Seq::<Seq<char>>::empty());
    }
    lemma_filter_all(files, root);
    assert forall|i: int|
        0 <= i < files.len() && texts(files[i].name.directory.path@) == dir implies #[trigger] files_under(
        files,
        dir,
    ).contains(files[i]) by {
        let t = texts(files[i].name.directory.path@);
        assert(t.take(dir.len() as int) =~= dir);
        assert(pred(files[i]));
        files.lemma_filter_contains(pred, i);
    }
}

/// Filtering by a predicate that every element meets keeps them all.
proof fn lemma_filter_all<A>(s: Seq<A>, pred: spec_fn(A) -> bool)
    requires
        forall|i: int| 0 <= i < s.len() ==> pred(#[trigger] s[i]),
    ensures
        s.filter(pred) == s,
    decreases s.len(),
{
    reveal(Seq::filter);
    if s.len() > 0 {
        assert forall|i: int| 0 <= i < s.drop_last().len() implies pred(#[trigger] s.drop_last()[i]) by {
            assert(s.drop_last()[i] == s[i]);
        }
        lemma_filter_all(s.drop_last(), pred);
        assert(pred(s[s.len() - 1]));
        assert(s.drop_last().push(s.last()) =~= s);
    } else {
        assert(s =~= Seq::<A>::empty());
    }
}

/// The files among `files` that lie under `directory`, in order. The
/// files are handed over and kept, not copied.
pub fn get_directory_view(directory: &Directory, files: Vec<File>) -> (r: Vec<File>)
    ensures
        r@ == files_under(files@, texts(directory.path@)),
{
    let ghost all = files@;
    let ghost dir = texts(directory.path@);
    let total = files.len();
    let mut rest = files;
    let mut r: Vec<File> = Vec::new();
    let mut k: usize = 0;
    while rest.len() > 0
        invariant
            total == all.len(),
            dir == texts(directory.path@),
            k + rest@.len() == total,
            rest@ == all.skip(k as int),
            r@ == files_under(all.take(k as int), dir),
        decreases rest@.len(),
    {
        let file = rest.remove(0);
        proof {
            assert(file == all[k as int]);
            assert(all.take(k + 1).drop_last() =~= all.take(k as int));
            assert(all.take(k + 1).last() == all[k as int]);
        }
        if directory.is_prefix_of(&file.name.directory) {
            r.push(file);
        }
        proof {
            assert(rest@ =~= all.skip(k + 1));
        }
        k = k + 1;
    }
    proof {
        assert(all.take(k as int) =~= all);
    }
    r
}

/// The commits among `commits` whose author is `author`, in order.
pub open spec fn authored_by(commits: Seq<Commit>, author: Seq<char>) -> Seq<Commit>
    decreases commits.len(),
{
    if commits.len() == 0 {
        Seq::empty()
    } else {
        let r = authored_by(commits.drop_last(), author);
        if commits.last().author@ == author {
            r.push(commits.last())
        } else {
            r
        }
    }
}

/// The commits of an author are exactly the commits whose author is that
/// author, kept in their order: `commits` filtered by their author; and a
/// commit by the author is always among them.
pub proof fn lemma_authored_by(commits: Seq<Commit>, author: Seq<char>)
    ensures
        authored_by(commits, author) == commits.filter(|c: Commit| c.author@ == author),
        forall|i: int|
            0 <= i < commits.len() && commits[i].author@ == author ==> #[trigger] authored_by(
                commits,
                author,
            ).contains(commits[i]),
        forall|c: Commit| #[trigger] authored_by(commits, author).contains(c) ==> c.author@ == author,
    decreases commits.len(),
{
    let pred = |c: Commit| c.author@ == author;
    reveal(Seq::filter);
    if commits.len() > 0 {
        lemma_authored_by(commits.drop_last(), author);
    } else {
        assert(commits =~= Seq::<Commit>::empty());
    }
    assert forall|i: int| 0 <= i < commits.len() && commits[i].author@ == author implies #[trigger] authored_by(
        commits,
        author,
    ).contains(commits[i]) by {
        commits.lemma_filter_contains(pred, i);
    }
    assert forall|c: Commit| #[trigger] authored_by(commits, author).contains(c) implies c.author@ == author by {
        let j = choose|j: int| 0 <= j < commits.filter(pred).len() && commits.filter(pred)[j] == c;
        commits.lemma_filter_pred(pred, j);
    }
}

/// The commits among `commits` whose author is `author`, in order. The
/// commits are handed over and kept, not copied.
pub fn find_author_commits(commits: Vec<Commit>, author: String) -> (r: Vec<Commit>)
    ensures
        r@ == authored_by(commits@, author@),
{
    let ghost all = commits@;
    let total = commits.len();
    let mut rest = commits;
    let mut r: Vec<Commit> = Vec::new();
    let mut k: usize = 0;
    while rest.len() > 0
        invariant
            total == all.len(),
            k + rest@.len() == total,
            rest@ == all.skip(k as int),
            r@ == authored_by(all.take(k as int), author@),
        decreases rest@.len(),
    {
        let commit = rest.remove(0);
        proof {
            assert(commit == all[k as int]);
            assert(all.take(k + 1).drop_last() =~= all.take(k as int));
            assert(all.take(k + 1).last() == all[k as int]);
        }
        if commit.author == author {
            r.push(commit);
        }
        proof {
            assert(rest@ =~= all.skip(k + 1));
        }
        k = k + 1;
    }
    proof {
        assert(all.take(k as int) =~= all);
    }
    r
}

} // verus!
