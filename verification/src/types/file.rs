//! File names and file contents of the history model.
use vstd::prelude::*;

use crate::traits::ChangeI;
use crate::types::commit::{changed_file, Change, Commit};
use crate::types::directory::Directory;
use crate::vcs::git::object::texts;
use crate::vcs::git::reference::name::same_text;

verus! {

broadcast use vstd::string::group_string_axioms;

/// The contents of a file.
#[derive(Debug, Clone, PartialEq, Eq)]
pub struct FileContents {
    pub contents: String,
}

/// The text that `change` leaves in a file whose text was `text`: an
/// addition or a removal carries the whole new text, a deletion leaves no
/// text, and a move or a creation leaves the text as it was.
pub open spec fn applied(text: Seq<char>, change: Change) -> Seq<char> {
    match change {
        Change::Addition(_, c) => c.contents@,
        Change::Removal(_, c) => c.contents@,
        Change::Delete(_) => Seq::empty(),
        _ => text,
    }
}

/// The text of the file `name` after the changes among `changes` that
/// leave `name` behind, folded from the right onto `text`: the last change
/// is applied first and the first change last.
pub open spec fn changes_applied(
    text: Seq<char>,
    name: (Seq<Seq<char>>, Seq<char>),
    changes: Seq<Change>,
) -> Seq<char>
    decreases changes.len(),
{
    if changes.len() == 0 {
        text
    } else {
        let after = changes_applied(text, name, changes.drop_first());
        if changed_file(changes[0]) == name {
            applied(after, changes[0])
        } else {
            after
        }
    }
}

/// The text of the file `name` after the changes of `commits`, folded from
/// the right onto `text`: the changes of the last commit are applied first
/// and those of the first commit last.
pub open spec fn commits_applied(
    text: Seq<char>,
    name: (Seq<Seq<char>>, Seq<char>),
    commits: Seq<Commit>,
) -> Seq<char>
    decreases commits.len(),
{
    if commits.len() == 0 {
        text
    } else {
        changes_applied(commits_applied(text, name, commits.drop_first()), name, commits[0].changes@)
    }
}

/// `change` sets the text of the file `name`: it adds to, removes from or
/// deletes that file.
pub open spec fn sets_text(change: Change, name: (Seq<Seq<char>>, Seq<char>)) -> bool {
    match change {
        Change::Addition(f, _) => f@ == name,
        Change::Removal(f, _) => f@ == name,
        Change::Delete(f) => f@ == name,
        _ => false,
    }
}

/// The text that a change which sets a file's text leaves: the text an
/// addition or a removal carries, no text for a deletion.
pub open spec fn text_set(change: Change) -> Seq<char> {
    match change {
        Change::Addition(_, c) => c.contents@,
        Change::Removal(_, c) => c.contents@,
        _ => Seq::empty(),
    }
}

/// The changes of the commits, commit by commit, one list.
pub open spec fn all_changes(commits: Seq<Commit>) -> Seq<Change>
    decreases commits.len(),
{
    if commits.len() == 0 {
        Seq::empty()
    } else {
        commits[0].changes@ + all_changes(commits.drop_first())
    }
}

/// Folding changes from the right: the first change in the list that sets
/// the file's text decides it; when none does, the text stays as it was.
/// Moves and creations never change the text.
pub proof fn lemma_first_change_wins(text: Seq<char>, name: (Seq<Seq<char>>, Seq<char>), cs: Seq<Change>)
    ensures
        (forall|i: int| 0 <= i < cs.len() ==> !sets_text(#[trigger] cs[i], name)) ==> changes_applied(
            text,
            name,
            cs,
        ) == text,
        forall|i: int|
            0 <= i < cs.len() && sets_text(#[trigger] cs[i], name) && (forall|j: int|
                0 <= j < i ==> !sets_text(#[trigger] cs[j], name)) ==> changes_applied(text, name, cs)
                == text_set(cs[i]),
    decreases cs.len(),
{
    if cs.len() > 0 {
        let rest = cs.drop_first();
        lemma_first_change_wins(text, name, rest);
        assert forall|i: int| 0 <= i < rest.len() implies #[trigger] rest[i] == cs[i + 1] by {}
        let c = cs[0];
        assert(changed_file(c) == name && !sets_text(c, name) ==> applied(
            changes_applied(text, name, rest),
            c,
        ) == changes_applied(text, name, rest));
        if forall|i: int| 0 <= i < cs.len() ==> !sets_text(#[trigger] cs[i], name) {
            assert forall|i: int| 0 <= i < rest.len() implies !sets_text(#[trigger] rest[i], name) by {
                assert(!sets_text(cs[i + 1], name));
            }
            assert(!sets_text(cs[0], name));
        }
        assert forall|i: int|
            0 <= i < cs.len() && sets_text(#[trigger] cs[i], name) && (forall|j: int|
                0 <= j < i ==> !sets_text(#[trigger] cs[j], name)) implies changes_applied(text, name, cs)
            == text_set(cs[i]) by {
            if i > 0 {
                assert(!sets_text(cs[0], name));
                assert forall|j: int| 0 <= j < i - 1 implies !sets_text(#[trigger] rest[j], name) by {
                    assert(!sets_text(cs[j + 1], name));
                }
                assert(sets_text(rest[i - 1], name));
            }
        }
    }
}

/// Folding changes from the right over two lists one after the other folds
/// the second list first and then the first onto its result.
proof fn lemma_changes_applied_concat(
    text: Seq<char>,
    name: (Seq<Seq<char>>, Seq<char>),
    a: Seq<Change>,
    b: Seq<Change>,
)
    ensures
        changes_applied(text, name, a + b) == changes_applied(changes_applied(text, name, b), name, a),
    decreases a.len(),
{
    if a.len() == 0 {
        assert(a + b =~= b);
    } else {
        lemma_changes_applied_concat(text, name, a.drop_first(), b);
        assert((a + b).drop_first() =~= a.drop_first() + b);
        assert((a + b)[0] == a[0]);
    }
}

/// The contents rebuilt from commits are the changes of all the commits,
/// in order, folded from the right: so the first change, in the order of
/// the commits and of their changes, that sets the file's text decides
/// it; when none does, the file is empty.
pub proof fn lemma_commits_applied(name: (Seq<Seq<char>>, Seq<char>), commits: Seq<Commit>)
    ensures
        commits_applied(Seq::empty(), name, commits) == changes_applied(
            Seq::empty(),
            name,
            all_changes(commits),
        ),
        (forall|i: int|
            0 <= i < all_changes(commits).len() ==> !sets_text(#[trigger] all_changes(commits)[i], name))
            ==> commits_applied(Seq::empty(), name, commits) == Seq::<char>::empty(),
        forall|i: int|
            0 <= i < all_changes(commits).len() && sets_text(#[trigger] all_changes(commits)[i], name)
                && (forall|j: int| 0 <= j < i ==> !sets_text(#[trigger] all_changes(commits)[j], name))
                ==> commits_applied(Seq::empty(), name, commits) == text_set(all_changes(commits)[i]),
{
    lemma_commits_all(Seq::empty(), name, commits);
    lemma_first_change_wins(Seq::empty(), name, all_changes(commits));
}

/// Folding commit by commit is folding all their changes at once.
proof fn lemma_commits_all(text: Seq<char>, name: (Seq<Seq<char>>, Seq<char>), commits: Seq<Commit>)
    ensures
        commits_applied(text, name, commits) == changes_applied(text, name, all_changes(commits)),
    decreases commits.len(),
{
    if commits.len() > 0 {
        lemma_commits_all(text, name, commits.drop_first());
        lemma_changes_applied_concat(text, name, commits[0].changes@, all_changes(commits.drop_first()));
    }
}

impl FileContents {
    /// Contents with no text.
    pub fn empty_file_contents() -> (r: FileContents)
        ensures
            r.contents@ == Seq::<char>::empty(),
    {
        FileContents { contents: String::new() }
    }

    /// Apply `change` to the contents; see `applied`.
    pub fn apply_file_change(&mut self, change: Change)
        ensures
            final(self).contents@ == applied(old(self).contents@, change),
    {
        match change {
            Change::Addition(_, file_contents) => {
                self.contents = file_contents.contents;
            },
            Change::Removal(_, file_contents) => {
                self.contents = file_contents.contents;
            },
            Change::Move(_, _) => {},
            Change::Create(_) => {},
            Change::Delete(_) => {
                self.contents = String::new();
            },
        }
    }

    /// Apply the change that `change` refers to; see `applied`.
    fn apply_change_ref(&mut self, change: &Change)
        ensures
            final(self).contents@ == applied(old(self).contents@, *change),
    {
        match change {
            Change::Addition(_, file_contents) => {
                self.contents = file_contents.contents.clone();
            },
            Change::Removal(_, file_contents) => {
                self.contents = file_contents.contents.clone();
            },
            Change::Move(_, _) => {},
            Change::Create(_) => {},
            Change::Delete(_) => {
                self.contents = String::new();
            },
        }
    }
}

/// A file of the history model: its name, the commits that changed it, and
/// its contents.
#[derive(Debug, PartialEq, Eq)]
pub struct File {
    pub name: FileName,
    pub commits: Vec<Commit>,
    pub contents: FileContents,
}

impl File {
    /// The directory the file is in.
    pub fn directory(&self) -> (r: Directory)
        ensures
            texts(r.path@) == texts(self.name.directory.path@),
    {
        self.name.clone().directory
    }

    /// The contents of the file `filename` after the changes of `commits`
    /// that leave `filename` behind, folded from the right onto empty
    /// contents: the last change of the last commit is applied first.
    pub fn build_contents(filename: &FileName, commits: &[Commit]) -> (r: FileContents)
        ensures
            r.contents@ == commits_applied(Seq::empty(), filename@, commits@),
    {
        let mut file_contents = FileContents::empty_file_contents();
        let n = commits.len();
        let mut i: usize = n;
        proof {
            assert(commits@.subrange(n as int, n as int) =~= Seq::<Commit>::empty());
        }
        while i > 0
            invariant
                n == commits@.len(),
                i <= n,
                file_contents.contents@ == commits_applied(
                    Seq::empty(),
                    filename@,
                    commits@.subrange(i as int, n as int),
                ),
            decreases i,
        {
            let changes = &commits[i - 1].changes;
            let ghost after = file_contents.contents@;
            let m = changes.len();
            let mut j: usize = m;
            proof {
                assert(changes@.subrange(m as int, m as int) =~= Seq::<Change>::empty());
            }
            while j > 0
                invariant
                    m == changes@.len(),
                    j <= m,
                    file_contents.contents@ == changes_applied(
                        after,
                        filename@,
                        changes@.subrange(j as int, m as int),
                    ),
                decreases j,
            {
                let change = &changes[j - 1];
                if same_file_name(&change.get_filename(), filename) {
                    file_contents.apply_change_ref(change);
                }
                proof {
                    let s = changes@.subrange(j - 1, m as int);
                    assert(s.drop_first() =~= changes@.subrange(j as int, m as int));
                    assert(s[0] == changes@[j - 1]);
                }
                j = j - 1;
            }
            proof {
                assert(changes@.subrange(0, m as int) =~= changes@);
                let s = commits@.subrange(i - 1, n as int);
                assert(s.drop_first() =~= commits@.subrange(i as int, n as int));
                assert(s[0] == commits@[i - 1]);
            }
            i = i - 1;
        }
        proof {
            assert(commits@.subrange(0, n as int) =~= commits@);
        }
        file_contents
    }
}

/// The name of a file: the directory it is in and its own name.
#[derive(Debug, PartialEq, Eq, PartialOrd, Ord)]
pub struct FileName {
    pub directory: Directory,
    pub name: String,
}

impl View for FileName {
    /// The texts of the directory's path, and the file's own name.
    type V = (Seq<Seq<char>>, Seq<char>);

    open spec fn view(&self) -> (Seq<Seq<char>>, Seq<char>) {
        (texts(self.directory.path@), self.name@)
    }
}

impl Clone for FileName {
    fn clone(&self) -> (r: Self)
        ensures
            r@ == self@,
    {
        let path = self.directory.path.clone();
        proof {
            assert forall|i: int| 0 <= i < path@.len() implies path@[i]@
                == self.directory.path@[i]@ by {
                assert(cloned(self.directory.path@[i], path@[i]));
            }
            assert(texts(path@) =~= texts(self.directory.path@));
        }
        FileName { directory: Directory { path }, name: self.name.clone() }
    }
}

/// Whether `a` and `b` name the same file.
pub(crate) fn same_file_name(a: &FileName, b: &FileName) -> (r: bool)
    ensures
        r == (a@ == b@),
{
    let n = a.directory.path.len();
    if n != b.directory.path.len() {
        assert(texts(a.directory.path@).len() != texts(b.directory.path@).len());
        return false;
    }
    let mut i: usize = 0;
    while i < n
        invariant
            n == a.directory.path@.len(),
            n == b.directory.path@.len(),
            i <= n,
            forall|j: int| 0 <= j < i ==> texts(a.directory.path@)[j] == texts(b.directory.path@)[j],
        decreases n - i,
    {
        if !same_text(a.directory.path[i].as_str(), b.directory.path[i].as_str()) {
            assert(texts(a.directory.path@)[i as int] != texts(b.directory.path@)[i as int]);
            return false;
        }
        i = i + 1;
    }
    assert(texts(a.directory.path@) =~= texts(b.directory.path@));
    same_text(a.name.as_str(), b.name.as_str())
}

} // verus!
