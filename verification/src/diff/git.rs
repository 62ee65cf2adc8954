//! The changes that git reports between two versions of a file, read from
//! plain descriptions of git's diff lines and patches.
use std::path::PathBuf;
use vstd::prelude::*;

verus! {

/// A path of the file system, carried through as it is.
#[verifier::external_type_specification]
#[verifier::external_body]
pub struct ExPathBuf(PathBuf);

/// Where a line of a change stands and what it holds.
#[derive(Debug)]
pub struct Content {
    /// The line number.
    pub line: u32,
    /// The offset of the line's contents in the file.
    pub offset: i64,
    /// The bytes of the line.
    pub contents: Vec<u8>,
}

/// A line of a change: added, deleted, or kept as context.
#[derive(Debug)]
pub enum ContentChange {
    Addition(Content),
    Deletion(Content),
    Context(Content),
}

/// A change to a file.
#[derive(Debug)]
pub enum FileChange {
    Addition(PathBuf),
    Deletion(PathBuf),
    Move { old_path: PathBuf, new_path: PathBuf },
    Modification { path: PathBuf, changes: Vec<ContentChange> },
}

/// The status of a file in a git diff.
#[derive(Debug, Clone, Copy, PartialEq, Eq)]
pub enum Delta {
    Unmodified,
    Added,
    Deleted,
    Modified,
    Renamed,
    Copied,
    Ignored,
    Untracked,
    Typechange,
    Unreadable,
    Conflicted,
}

/// A line of a git diff: its origin (`+`, `-`, ` ` or another marker),
/// its line numbers in the old and the new file, where its contents start,
/// and its contents.
#[derive(Debug)]
pub struct DiffLine {
    pub origin: char,
    pub old_lineno: Option<u32>,
    pub new_lineno: Option<u32>,
    pub content_offset: i64,
    pub content: Vec<u8>,
}

/// A git patch of one file: its status, its old and new paths where git
/// knows them, and the lines of each of its hunks.
#[derive(Debug)]
pub struct Patch {
    pub status: Delta,
    pub old_path: Option<PathBuf>,
    pub new_path: Option<PathBuf>,
    pub hunks: Vec<Vec<DiffLine>>,
}

/// Why a change could not be read.
#[derive(Debug)]
pub enum Error {
    MissingNewLine,
    MissingOldLine,
    UnhandledChange(char),
    MissingNewPath,
    MissingOldPath,
    UnhandledDelta(Delta),
    /// git has no patch for a modified file that is not binary; the new
    /// path of the file, where git knows it.
    PatchUnavailable(Option<PathBuf>),
    /// A diff line has neither an old nor a new line number.
    InvalidLineDiff,
}

/// The change that a diff line stands for.
pub open spec fn line_change(l: DiffLine) -> Result<ContentChange, Error> {
    if l.origin == '+' {
        match l.new_lineno {
            Some(n) => Ok(
                ContentChange::Addition(Content { line: n, offset: l.content_offset, contents: l.content }),
            ),
            None => Err(Error::MissingNewLine),
        }
    } else if l.origin == '-' {
        match l.old_lineno {
            Some(n) => Ok(
                ContentChange::Deletion(Content { line: n, offset: l.content_offset, contents: l.content }),
            ),
            None => Err(Error::MissingOldLine),
        }
    } else if l.origin == ' ' {
        match l.old_lineno {
            Some(n) => Ok(
                ContentChange::Context(Content { line: n, offset: l.content_offset, contents: l.content }),
            ),
            None => Err(Error::MissingOldLine),
        }
    } else {
        Err(Error::UnhandledChange(l.origin))
    }
}

/// The changes that the lines `ls` stand for, in order, or the error of the
/// first line that stands for none.
pub open spec fn line_changes(ls: Seq<DiffLine>) -> Result<Seq<ContentChange>, Error>
    decreases ls.len(),
{
    if ls.len() == 0 {
        Ok(Seq::empty())
    } else {
        match line_changes(ls.drop_last()) {
            Err(e) => Err(e),
            Ok(cs) => match line_change(ls.last()) {
                Err(e) => Err(e),
                Ok(c) => Ok(cs.push(c)),
            },
        }
    }
}

/// The lines of the hunks `hs`, one hunk after the other.
pub open spec fn hunk_lines(hs: Seq<Vec<DiffLine>>) -> Seq<DiffLine>
    decreases hs.len(),
{
    if hs.len() == 0 {
        Seq::empty()
    } else {
        hunk_lines(hs.drop_last()) + hs.last()@
    }
}

/// `r` is what the patch `p` stands for: an added, deleted, moved or
/// modified file, or the error of what is missing or unhandled.
pub open spec fn is_change_of(p: Patch, r: Result<FileChange, Error>) -> bool {
    match p.status {
        Delta::Added => match p.new_path {
            Some(path) => r == Ok::<FileChange, Error>(FileChange::Addition(path)),
            None => r == Err::<FileChange, Error>(Error::MissingNewPath),
        },
        Delta::Deleted => match p.old_path {
            Some(path) => r == Ok::<FileChange, Error>(FileChange::Deletion(path)),
            None => r == Err::<FileChange, Error>(Error::MissingOldPath),
        },
        Delta::Modified => match p.new_path {
            Some(path) => match line_changes(hunk_lines(p.hunks@)) {
                Ok(cs) => r matches Ok(FileChange::Modification { path: rp, changes })
                    && rp == path && changes@ == cs,
                Err(e) => r == Err::<FileChange, Error>(e),
            },
            None => r == Err::<FileChange, Error>(Error::MissingNewPath),
        },
        Delta::Renamed => match (p.old_path, p.new_path) {
            (Some(old_path), Some(new_path)) => r == Ok::<FileChange, Error>(
                FileChange::Move { old_path, new_path },
            ),
            (None, _) => r == Err::<FileChange, Error>(Error::MissingOldPath),
            (Some(_), None) => r == Err::<FileChange, Error>(Error::MissingNewPath),
        },
        d => r == Err::<FileChange, Error>(Error::UnhandledDelta(d)),
    }
}

/// A file change read from a patch follows the patch's status and paths:
/// an addition comes only from an added file and carries its new path, a
/// deletion only from a deleted file and carries its old path, a move only
/// from a renamed file and carries both paths, a modification only from a
/// modified file and carries its new path with one change per line of its
/// hunks. Conversely an added, deleted or renamed file whose paths are
/// known is always read as its change, and any other status fails.
pub proof fn lemma_change_follows_status(p: Patch, r: Result<FileChange, Error>)
    requires
        is_change_of(p, r),
    ensures
        r matches Ok(FileChange::Addition(path)) ==> p.status == Delta::Added && p.new_path == Some(
            path,
        ),
        r matches Ok(FileChange::Deletion(path)) ==> p.status == Delta::Deleted && p.old_path == Some(
            path,
        ),
        r matches Ok(FileChange::Move { old_path, new_path }) ==> p.status == Delta::Renamed
            && p.old_path == Some(old_path) && p.new_path == Some(new_path),
        r matches Ok(FileChange::Modification { path, changes }) ==> p.status == Delta::Modified
            && p.new_path == Some(path) && changes@.len() == hunk_lines(p.hunks@).len(),
        p.status == Delta::Added && p.new_path is Some ==> r == Ok::<FileChange, Error>(
            FileChange::Addition(p.new_path->0),
        ),
        p.status == Delta::Deleted && p.old_path is Some ==> r == Ok::<FileChange, Error>(
            FileChange::Deletion(p.old_path->0),
        ),
        p.status == Delta::Renamed && p.old_path is Some && p.new_path is Some ==> r == Ok::<
            FileChange,
            Error,
        >(FileChange::Move { old_path: p.old_path->0, new_path: p.new_path->0 }),
        !(p.status == Delta::Added || p.status == Delta::Deleted || p.status == Delta::Modified
            || p.status == Delta::Renamed) ==> r == Err::<FileChange, Error>(Error::UnhandledDelta(p.status)),
{
    if p.status == Delta::Modified {
        if let Some(_) = p.new_path {
            lemma_line_changes_len(hunk_lines(p.hunks@));
        }
    }
}

/// Reading lines into changes gives one change per line, in order: the
/// change of each line in its place; and it fails exactly when some line
/// stands for no change.
pub proof fn lemma_line_changes_len(ls: Seq<DiffLine>)
    ensures
        line_changes(ls) matches Ok(cs) ==> cs.len() == ls.len() && forall|i: int|
            0 <= i < ls.len() ==> line_change(#[trigger] ls[i]) == Ok::<ContentChange, Error>(cs[i]),
        line_changes(ls) is Err <==> exists|i: int| 0 <= i < ls.len() && line_change(#[trigger] ls[i]) is Err,
    decreases ls.len(),
{
    if ls.len() > 0 {
        let rest = ls.drop_last();
        lemma_line_changes_len(rest);
        assert forall|i: int| 0 <= i < rest.len() implies #[trigger] rest[i] == ls[i] by {}
        if exists|i: int| 0 <= i < ls.len() && line_change(#[trigger] ls[i]) is Err {
            let i = choose|i: int| 0 <= i < ls.len() && line_change(#[trigger] ls[i]) is Err;
            if i < ls.len() - 1 {
                assert(line_change(rest[i]) is Err);
            }
        }
        if let Ok(cs) = line_changes(ls) {
            let cr = line_changes(rest)->Ok_0;
            assert(cs == cr.push(line_change(ls.last())->Ok_0));
            assert forall|i: int| 0 <= i < ls.len() implies line_change(#[trigger] ls[i]) == Ok::<
                ContentChange,
                Error,
            >(cs[i]) by {
                if i < ls.len() - 1 {
                    assert(line_change(rest[i]) == Ok::<ContentChange, Error>(cr[i]));
                }
            }
        }
    }
}

/// A diff line becomes a change by its origin: a `+` line an addition at
/// its new line number, a `-` line a deletion at its old one, a ` ` line a
/// context line at its old one, each with the line's offset and contents;
/// a line of another origin, or without the needed number, fails.
pub proof fn lemma_line_change_by_origin(l: DiffLine)
    ensures
        line_change(l) matches Ok(ContentChange::Addition(c)) ==> l.origin == '+' && l.new_lineno
            == Some(c.line) && c.offset == l.content_offset && c.contents == l.content,
        line_change(l) matches Ok(ContentChange::Deletion(c)) ==> l.origin == '-' && l.old_lineno
            == Some(c.line) && c.offset == l.content_offset && c.contents == l.content,
        line_change(l) matches Ok(ContentChange::Context(c)) ==> l.origin == ' ' && l.old_lineno
            == Some(c.line) && c.offset == l.content_offset && c.contents == l.content,
        line_change(l) is Ok <==> (l.origin == '+' && l.new_lineno is Some) || ((l.origin == '-'
            || l.origin == ' ') && l.old_lineno is Some),
        !(l.origin == '+' || l.origin == '-' || l.origin == ' ') ==> line_change(l) == Err::<
            ContentChange,
            Error,
        >(Error::UnhandledChange(l.origin)),
{
}

/// Once the changes of some lines fail, they fail the same way whatever
/// lines follow.
proof fn lemma_error_extends(a: Seq<DiffLine>, b: Seq<DiffLine>)
    requires
        line_changes(a) is Err,
    ensures
        line_changes(a + b) == line_changes(a),
    decreases b.len(),
{
    if b.len() == 0 {
        assert(a + b =~= a);
    } else {
        lemma_error_extends(a, b.drop_last());
        assert((a + b).drop_last() =~= a + b.drop_last());
    }
}

/// The lines of two runs of hunks, one after the other.
proof fn lemma_hunk_lines_add(a: Seq<Vec<DiffLine>>, b: Seq<Vec<DiffLine>>)
    ensures
        hunk_lines(a + b) == hunk_lines(a) + hunk_lines(b),
    decreases b.len(),
{
    if b.len() == 0 {
        assert(a + b =~= a);
        assert(hunk_lines(a) + hunk_lines(b) =~= hunk_lines(a));
    } else {
        lemma_hunk_lines_add(a, b.drop_last());
        assert((a + b).drop_last() =~= a + b.drop_last());
        assert(hunk_lines(a) + (hunk_lines(b.drop_last()) + b.last()@) =~= (hunk_lines(a)
            + hunk_lines(b.drop_last())) + b.last()@);
    }
}

/// The first line that fails, at index `j` of hunk `k`, decides the
/// outcome for all the lines of the hunks.
proof fn lemma_first_error(hs: Seq<Vec<DiffLine>>, k: int, j: int)
    requires
        0 <= k < hs.len(),
        0 <= j < hs[k]@.len(),
        line_changes(hunk_lines(hs.take(k)) + hs[k]@.take(j + 1)) is Err,
    ensures
        line_changes(hunk_lines(hs)) == line_changes(hunk_lines(hs.take(k)) + hs[k]@.take(j + 1)),
{
    let pre = hunk_lines(hs.take(k)) + hs[k]@.take(j + 1);
    let rest = hs[k]@.skip(j + 1) + hunk_lines(hs.skip(k + 1));
    lemma_error_extends(pre, rest);
    lemma_hunk_lines_add(hs.take(k + 1), hs.skip(k + 1));
    assert(hs.take(k + 1) + hs.skip(k + 1) =~= hs);
    assert(hs.take(k + 1).drop_last() =~= hs.take(k));
    assert(hunk_lines(hs.take(k + 1)) == hunk_lines(hs.take(k)) + hs[k]@);
    assert(hs[k]@ =~= hs[k]@.take(j + 1) + hs[k]@.skip(j + 1));
    assert(pre + rest =~= hunk_lines(hs.take(k + 1)) + hunk_lines(hs.skip(k + 1)));
}

impl ContentChange {
    /// The change that the diff line stands for: an addition at its new line
    /// number, a deletion or a context line at its old one.
    pub fn try_from(diff_line: DiffLine) -> (r: Result<Self, Error>)
        ensures
            r == line_change(diff_line),
    {
        let DiffLine { origin, old_lineno, new_lineno, content_offset, content } = diff_line;
        if origin == '+' {
            match new_lineno {
                Some(line) => Ok(
                    ContentChange::Addition(Content { line, offset: content_offset, contents: content }),
                ),
                None => Err(Error::MissingNewLine),
            }
        } else if origin == '-' {
            match old_lineno {
                Some(line) => Ok(
                    ContentChange::Deletion(Content { line, offset: content_offset, contents: content }),
                ),
                None => Err(Error::MissingOldLine),
            }
        } else if origin == ' ' {
            match old_lineno {
                Some(line) => Ok(
                    ContentChange::Context(Content { line, offset: content_offset, contents: content }),
                ),
                None => Err(Error::MissingOldLine),
            }
        } else {
            Err(Error::UnhandledChange(origin))
        }
    }
}

impl FileChange {
    /// The change that the patch stands for.
    pub fn try_from(patch: Patch) -> (r: Result<Self, Error>)
        ensures
            is_change_of(patch, r),
    {
        let ghost p = patch;
        let Patch { status, old_path, new_path, hunks } = patch;
        match status {
            Delta::Added => match new_path {
                Some(path) => Ok(FileChange::Addition(path)),
                None => Err(Error::MissingNewPath),
            },
            Delta::Deleted => match old_path {
                Some(path) => Ok(FileChange::Deletion(path)),
                None => Err(Error::MissingOldPath),
            },
            Delta::Modified => match new_path {
                Some(path) => {
                    let mut changes: Vec<ContentChange> = Vec::new();
                    let ghost hs = hunks@;
                    let mut rest = hunks;
                    let mut k: usize = 0;
                    let n = rest.len();
                    proof {
                        assert(hs.take(0) =~= Seq::<Vec<DiffLine>>::empty());
                        assert(hunk_lines(hs.take(0)) =~= Seq::<DiffLine>::empty());
                    }
                    while rest.len() > 0
                        invariant
                            hs == p.hunks@,
                            p == patch,
                            p.status == Delta::Modified,
                            p.new_path is Some,
                            k + rest@.len() == n,
                            n == hs.len(),
                            rest@ == hs.skip(k as int),
                            line_changes(hunk_lines(hs.take(k as int))) == Ok::<Seq<ContentChange>, Error>(
                                changes@,
                            ),
                        decreases rest@.len(),
                    {
                        let mut lines = rest.remove(0);
                        proof {
                            assert(lines == hs[k as int]);
                            assert(hs.take(k + 1).drop_last() =~= hs.take(k as int));
                        }
                        let ghost before = hunk_lines(hs.take(k as int));
                        let ghost ls = lines@;
                        let m = lines.len();
                        let mut j: usize = 0;
                        proof {
                            assert(before + ls.take(0) =~= before);
                        }
                        while lines.len() > 0
                            invariant
                                0 <= k < n,
                                n == hs.len(),
                                hs == p.hunks@,
                                p == patch,
                                p.status == Delta::Modified,
                                p.new_path is Some,
                                ls == hs[k as int]@,
                                before == hunk_lines(hs.take(k as int)),
                                j + lines@.len() == m,
                                m == ls.len(),
                                lines@ == ls.skip(j as int),
                                line_changes(before + ls.take(j as int)) == Ok::<
                                    Seq<ContentChange>,
                                    Error,
                                >(changes@),
                            decreases lines@.len(),
                        {
                            let line = lines.remove(0);
                            let ghost this_line = line;
                            proof {
                                assert(line == ls[j as int]);
                                assert((before + ls.take(j + 1)).drop_last() =~= before + ls.take(
                                    j as int,
                                ));
                                assert((before + ls.take(j + 1)).last() == line);
                            }
                            match ContentChange::try_from(line) {
                                Ok(change) => {
                                    changes.push(change);
                                },
                                Err(e) => {
                                    proof {
                                        let x = before + ls.take(j + 1);
                                        assert(line_change(this_line) == Err::<ContentChange, Error>(e));
                                        assert(line_changes(x) == Err::<Seq<ContentChange>, Error>(e));
                                        lemma_first_error(hs, k as int, j as int);
                                    }
                                    return Err(e);
                                },
                            }
                            proof {
                                assert(lines@ =~= ls.skip(j + 1));
                            }
                            j = j + 1;
                        }
                        proof {
                            assert(ls.take(j as int) =~= ls);
                            assert(hunk_lines(hs.take(k + 1)) == before + ls);
                            assert(rest@ =~= hs.skip(k + 1));
                        }
                        k = k + 1;
                    }
                    proof {
                        assert(hs.take(k as int) =~= hs);
                    }
                    Ok(FileChange::Modification { path, changes })
                },
                None => Err(Error::MissingNewPath),
            },
            Delta::Renamed => match old_path {
                Some(old_path) => match new_path {
                    Some(new_path) => Ok(FileChange::Move { old_path, new_path }),
                    None => Err(Error::MissingNewPath),
                },
                None => Err(Error::MissingOldPath),
            },
            d => Err(Error::UnhandledDelta(d)),
        }
    }
}

/// The change of a delta of a git diff, read from its status, its old and
/// new paths, the lines of its hunks when git has a patch for it, and
/// whether its new file is binary. Without a patch, a modified text file is
/// an error, and any other delta is read as a patch with no hunks: a
/// modified binary file then changed as a whole.
pub fn change_of_delta(
    status: Delta,
    old_path: Option<PathBuf>,
    new_path: Option<PathBuf>,
    hunks: Option<Vec<Vec<DiffLine>>>,
    binary: bool,
) -> (r: Result<FileChange, Error>)
    ensures
        hunks matches Some(hs) ==> is_change_of((Patch { status, old_path, new_path, hunks: hs }), r),
        hunks is None && status == Delta::Modified && !binary ==> r == Err::<FileChange, Error>(
            Error::PatchUnavailable(new_path),
        ),
        hunks is None && !(status == Delta::Modified && !binary) ==> exists|hs: Vec<Vec<DiffLine>>|
            hs@.len() == 0 && is_change_of((Patch { status, old_path, new_path, hunks: hs }), r),
{
    match hunks {
        Some(hs) => FileChange::try_from(Patch { status, old_path, new_path, hunks: hs }),
        None => {
            let modified = match status {
                Delta::Modified => true,
                _ => false,
            };
            if modified && !binary {
                Err(Error::PatchUnavailable(new_path))
            } else {
                let hs: Vec<Vec<DiffLine>> = Vec::new();
                let ghost empty = hs;
                let ghost p = Patch { status, old_path, new_path, hunks: empty };
                let r = FileChange::try_from(Patch { status, old_path, new_path, hunks: hs });
                assert(empty@.len() == 0 && is_change_of(p, r));
                r
            }
        },
    }
}

} // verus!
