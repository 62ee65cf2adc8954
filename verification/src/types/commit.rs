//! Commits of the history model, the changes they make to files, and how a
//! change is recorded in the map from files to the commits that changed
//! them.
use vstd::prelude::*;

use crate::traits::ChangeI;
use crate::types::change_map::ChangeMap;
use crate::types::file::{FileContents, FileName};

verus! {

/// A point in time in UTC: seconds since the Unix epoch and the nanoseconds
/// past them.
#[derive(Debug, Clone, Copy, PartialEq, Eq, PartialOrd, Ord, Hash)]
pub struct Timestamp {
    pub seconds: i64,
    pub nanoseconds: u32,
}

/// A commit of the history model.
#[derive(Debug, PartialEq, Eq)]
pub struct Commit {
    pub author: String,
    pub hash: String,
    pub date: Timestamp,
    pub message: String,
    pub signature: Option<String>,
    pub parent_commits: Vec<Commit>,
    pub changes: Vec<Change>,
}

impl Commit {
    /// The author of the commit.
    pub fn author(&self) -> (r: String)
        ensures
            r == self.author,
    {
        self.author.clone()
    }

    /// Sign the commit with `key`, in place of any signature it had.
    pub fn sign_commit(&mut self, key: String)
        ensures
            final(self).signature == Some(key),
            final(self).author == old(self).author,
            final(self).hash == old(self).hash,
            final(self).date == old(self).date,
            final(self).message == old(self).message,
            final(self).parent_commits == old(self).parent_commits,
            final(self).changes == old(self).changes,
    {
        self.signature = Some(key);
    }
}

/// A change that a commit makes to a file.
#[derive(Debug, Clone, PartialEq, Eq)]
pub enum Change {
    Addition(FileName, FileContents),
    Removal(FileName, FileContents),
    Move(FileName, FileName),
    Create(FileName),
    Delete(FileName),
}

/// The name of the file that a change leaves behind: the new name of a
/// moved file, the changed file otherwise.
pub open spec fn changed_file(change: Change) -> (Seq<Seq<char>>, Seq<char>) {
    match change {
        Change::Addition(f, _) => f@,
        Change::Removal(f, _) => f@,
        Change::Move(_, g) => g@,
        Change::Create(f) => f@,
        Change::Delete(f) => f@,
    }
}

/// `commit` joins the front of the list of `k`, or `k` gets the list of
/// `commit` alone.
pub open spec fn joined(
    m: Map<(Seq<Seq<char>>, Seq<char>), Seq<Commit>>,
    k: (Seq<Seq<char>>, Seq<char>),
    commit: Commit,
) -> Map<(Seq<Seq<char>>, Seq<char>), Seq<Commit>> {
    if m.contains_key(k) {
        m.insert(k, seq![commit] + m[k])
    } else {
        m.insert(k, seq![commit])
    }
}

/// How a change made by `commit` is recorded in the map from files to the
/// commits that changed them: a created, added-to or removed-from file gets
/// the commit in front of its list; a deleted file leaves the map; a moved
/// file's list moves to its new name, and the commit joins the new name's
/// list.
pub open spec fn build_change_map(
    change: Change,
    commit: Commit,
    m: Map<(Seq<Seq<char>>, Seq<char>), Seq<Commit>>,
) -> Map<(Seq<Seq<char>>, Seq<char>), Seq<Commit>> {
    match change {
        Change::Addition(f, _) => joined(m, f@, commit),
        Change::Removal(f, _) => joined(m, f@, commit),
        Change::Create(f) => joined(m, f@, commit),
        Change::Delete(f) => m.remove(f@),
        Change::Move(f, g) => {
            let moved = if m.contains_key(f@) {
                m.remove(f@).insert(g@, m[f@])
            } else {
                m
            };
            joined(moved, g@, commit)
        },
    }
}

/// The names that a change touches: the old and the new name of a moved
/// file, the changed file otherwise.
pub open spec fn touches(change: Change, k: (Seq<Seq<char>>, Seq<char>)) -> bool {
    match change {
        Change::Move(f, g) => k == f@ || k == g@,
        _ => k == changed_file(change),
    }
}

/// Recording a change leaves the list of every file that the change does not
/// touch as it was, and a file it does not touch stays out of the map if it
/// was out.
pub proof fn lemma_change_keeps_other_files(
    change: Change,
    commit: Commit,
    m: Map<(Seq<Seq<char>>, Seq<char>), Seq<Commit>>,
    k: (Seq<Seq<char>>, Seq<char>),
)
    requires
        !touches(change, k),
    ensures
        build_change_map(change, commit, m).contains_key(k) == m.contains_key(k),
        m.contains_key(k) ==> build_change_map(change, commit, m)[k] == m[k],
{
}

/// Recording a change gives the file that the change leaves behind the
/// commit at the front of its list, except that a deleted file leaves the
/// map.
pub proof fn lemma_change_records_commit(
    change: Change,
    commit: Commit,
    m: Map<(Seq<Seq<char>>, Seq<char>), Seq<Commit>>,
)
    ensures
        change is Delete ==> !build_change_map(change, commit, m).contains_key(changed_file(change)),
        !(change is Delete) ==> {
            let r = build_change_map(change, commit, m);
            &&& r.contains_key(changed_file(change))
            &&& r[changed_file(change)].len() > 0
            &&& r[changed_file(change)][0] == commit
        },
{
}

/// The list of `k` in `m`, or no commits when `m` has none for it.
pub open spec fn list_of(
    m: Map<(Seq<Seq<char>>, Seq<char>), Seq<Commit>>,
    k: (Seq<Seq<char>>, Seq<char>),
) -> Seq<Commit> {
    if m.contains_key(k) {
        m[k]
    } else {
        Seq::empty()
    }
}

/// What recording a change does to the list of each file `k`, by the kind
/// of change and the names it carries:
/// - creating, adding to or removing from a file `f` puts the commit in
///   front of `f`'s list (a list of the commit alone when `f` had none);
/// - deleting `f` takes `f` out of the map;
/// - moving `f` to another name `g` takes `f` out and gives `g` the commit
///   followed by `f`'s list when `f` had one, else by `g`'s own list;
///   moving `f` onto itself puts the commit in front of its list;
/// and every other file keeps its list, or stays out of the map.
pub proof fn lemma_change_effect(
    change: Change,
    commit: Commit,
    m: Map<(Seq<Seq<char>>, Seq<char>), Seq<Commit>>,
    k: (Seq<Seq<char>>, Seq<char>),
)
    ensures
        ({
            let r = build_change_map(change, commit, m);
            let same = r.contains_key(k) == m.contains_key(k) && (m.contains_key(k) ==> r[k] == m[k]);
            match change {
                Change::Addition(f, _) => (k == f@ ==> r.contains_key(k) && r[k] == seq![commit]
                    + list_of(m, k)) && (k != f@ ==> same),
                Change::Removal(f, _) => (k == f@ ==> r.contains_key(k) && r[k] == seq![commit]
                    + list_of(m, k)) && (k != f@ ==> same),
                Change::Create(f) => (k == f@ ==> r.contains_key(k) && r[k] == seq![commit] + list_of(
                    m,
                    k,
                )) && (k != f@ ==> same),
                Change::Delete(f) => (k == f@ ==> !r.contains_key(k)) && (k != f@ ==> same),
                Change::Move(f, g) => (k == g@ ==> r.contains_key(k) && r[k] == seq![commit] + (if m.contains_key(f@) {
                    m[f@]
                } else {
                    list_of(m, k)
                })) && (k == f@ && f@ != g@ ==> !r.contains_key(k)) && (k != f@ && k != g@ ==> same),
            }
        }),
{
    match change {
        Change::Addition(f, _) => {
            if k == f@ && !m.contains_key(k) {
                assert(seq![commit] + list_of(m, k) =~= seq![commit]);
            }
        },
        Change::Removal(f, _) => {
            if k == f@ && !m.contains_key(k) {
                assert(seq![commit] + list_of(m, k) =~= seq![commit]);
            }
        },
        Change::Create(f) => {
            if k == f@ && !m.contains_key(k) {
                assert(seq![commit] + list_of(m, k) =~= seq![commit]);
            }
        },
        Change::Delete(_) => {},
        Change::Move(f, g) => {
            if k == g@ && !m.contains_key(f@) && !m.contains_key(k) {
                assert(seq![commit] + list_of(m, k) =~= seq![commit]);
            }
        },
    }
}

impl ChangeI for Change {
    type FileName = FileName;
    type Commit = Commit;

    /// The name of the file that the change leaves behind.
    fn get_filename(&self) -> (r: FileName)
        ensures
            r@ == changed_file(*self),
    {
        match self {
            Change::Addition(filename, _) => filename,
            Change::Removal(filename, _) => filename,
            Change::Move(_, new_filename) => new_filename,
            Change::Create(filename) => filename,
            Change::Delete(filename) => filename,
        }.clone()
    }

    /// Record the change, made by `commit`, in `change_map`; see
    /// `build_change_map`.
    fn add_change(&self, commit: Commit, change_map: &mut ChangeMap<FileName, Commit>)
        ensures
            final(change_map)@ == build_change_map(*self, commit, old(change_map)@),
    {
        match self {
            Change::Addition(filename, _) => change_map.join(filename.clone(), commit),
            Change::Removal(filename, _) => change_map.join(filename.clone(), commit),
            Change::Create(filename) => change_map.join(filename.clone(), commit),
            Change::Delete(filename) => {
                let _ = change_map.take(filename);
            },
            Change::Move(filename, new_filename) => {
                let ghost m = change_map@;
                match change_map.take(filename) {
                    Some(commits) => change_map.set(new_filename.clone(), commits),
                    None => {
                        assert(m.remove(filename@) =~= m);
                    },
                }
                change_map.join(new_filename.clone(), commit);
            },
        }
    }
}

} // verus!
