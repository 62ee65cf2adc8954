//! The hunks of a git patch, read line by line: each line becomes an
//! addition, a deletion or a context line by its line numbers, and the
//! markers of a missing newline at the end of a file are gathered into one
//! note for the whole patch.
use vstd::prelude::*;

use crate::diff::git::{DiffLine, Error};

verus! {

/// A line of a hunk: added at a line of the new file, deleted at a line of
/// the old file, or kept, at a line of each.
#[derive(Debug)]
pub enum LineDiff {
    Addition { line: Vec<u8>, line_num: u32 },
    Deletion { line: Vec<u8>, line_num: u32 },
    Context { line: Vec<u8>, line_num_old: u32, line_num_new: u32 },
}

/// A hunk of a git patch as git gives it: its header and its lines.
#[derive(Debug)]
pub struct GitHunk {
    pub header: Vec<u8>,
    pub lines: Vec<DiffLine>,
}

/// A hunk as read: its header and its line changes.
#[derive(Debug)]
pub struct Hunk {
    pub header: Vec<u8>,
    pub lines: Vec<LineDiff>,
}

/// Which side of a patch lacks a newline at the end of its file.
#[derive(Debug, Clone, Copy, PartialEq, Eq)]
pub enum EofNewLine {
    OldMissing,
    NewMissing,
    BothMissing,
}

/// The line change that a diff line stands for, by which of its line
/// numbers it has.
pub open spec fn line_diff(l: DiffLine) -> Result<LineDiff, Error> {
    match (l.old_lineno, l.new_lineno) {
        (None, Some(n)) => Ok(LineDiff::Addition { line: l.content, line_num: n }),
        (Some(n), None) => Ok(LineDiff::Deletion { line: l.content, line_num: n }),
        (Some(o), Some(n)) => Ok(LineDiff::Context { line: l.content, line_num_old: o, line_num_new: n }),
        (None, None) => Err(Error::InvalidLineDiff),
    }
}

/// The marker that neither side ends in a newline.
pub open spec fn both_eof_marker() -> char {
    '='
}

/// The marker that the old side does not end in a newline.
pub open spec fn old_eof_marker() -> char {
    '>'
}

/// The marker that the new side does not end in a newline.
pub open spec fn new_eof_marker() -> char {
    '<'
}

/// The lines `ls` read after earlier lines left the notes `old` and `new`
/// (that the old and the new side lack a final newline): the line changes
/// of the lines that are no markers, in order, and the notes after them;
/// or the error of the first line that stands for no change.
pub open spec fn read_lines(ls: Seq<DiffLine>, old: bool, new: bool) -> Result<(Seq<LineDiff>, bool, bool), Error>
    decreases ls.len(),
{
    if ls.len() == 0 {
        Ok((Seq::empty(), old, new))
    } else {
        match read_lines(ls.drop_last(), old, new) {
            Err(e) => Err(e),
            Ok((ds, o, n)) => {
                let l = ls.last();
                if l.origin == both_eof_marker() {
                    Ok((ds, true, true))
                } else if l.origin == old_eof_marker() {
                    Ok((ds, true, n))
                } else if l.origin == new_eof_marker() {
                    Ok((ds, o, true))
                } else {
                    match line_diff(l) {
                        Err(e) => Err(e),
                        Ok(d) => Ok((ds.push(d), o, n)),
                    }
                }
            },
        }
    }
}

/// The hunks `hs` read one after the other: the line changes of each, and
/// the notes on missing final newlines gathered over all of them; or the
/// first error.
pub open spec fn read_all(hs: Seq<GitHunk>) -> Result<(Seq<Seq<LineDiff>>, bool, bool), Error>
    decreases hs.len(),
{
    if hs.len() == 0 {
        Ok((Seq::empty(), false, false))
    } else {
        match read_all(hs.drop_last()) {
            Err(e) => Err(e),
            Ok((ls, o, n)) => match read_lines(hs.last().lines@, o, n) {
                Err(e) => Err(e),
                Ok((ds, o2, n2)) => Ok((ls.push(ds), o2, n2)),
            },
        }
    }
}

/// The note on missing final newlines for the old side lacking one (`old`)
/// and the new side lacking one (`new`).
pub open spec fn eof_of(old: bool, new: bool) -> Option<EofNewLine> {
    if old && new {
        Some(EofNewLine::BothMissing)
    } else if old {
        Some(EofNewLine::OldMissing)
    } else if new {
        Some(EofNewLine::NewMissing)
    } else {
        None
    }
}

/// A diff line is a marker of a missing final newline rather than a line
/// of a file.
pub open spec fn is_eof_marker(l: DiffLine) -> bool {
    l.origin == '=' || l.origin == '>' || l.origin == '<'
}

/// A diff line becomes a line change by its line numbers alone: an
/// addition at its new number when it has only that, a deletion at its old
/// number when it has only that, a context line at both when it has both,
/// each carrying the line's contents; with neither it fails.
pub proof fn lemma_line_diff_by_numbers(l: DiffLine)
    ensures
        line_diff(l) matches Ok(LineDiff::Addition { line, line_num }) ==> l.old_lineno is None
            && l.new_lineno == Some(line_num) && line == l.content,
        line_diff(l) matches Ok(LineDiff::Deletion { line, line_num }) ==> l.old_lineno == Some(
            line_num,
        ) && l.new_lineno is None && line == l.content,
        line_diff(l) matches Ok(LineDiff::Context { line, line_num_old, line_num_new }) ==> l.old_lineno
            == Some(line_num_old) && l.new_lineno == Some(line_num_new) && line == l.content,
        line_diff(l) is Err <==> l.old_lineno is None && l.new_lineno is None,
{
}

/// The note on missing final newlines says exactly which sides lack one.
pub proof fn lemma_eof_of(old: bool, new: bool)
    ensures
        eof_of(old, new) is None <==> !old && !new,
        eof_of(old, new) == Some(EofNewLine::BothMissing) <==> old && new,
        eof_of(old, new) == Some(EofNewLine::OldMissing) <==> old && !new,
        eof_of(old, new) == Some(EofNewLine::NewMissing) <==> !old && new,
{
}

/// Reading lines keeps, in order, the line change of every line that is no
/// marker and drops the markers; it fails exactly when a line that is no
/// marker has no line number; and the old side is noted as lacking a final
/// newline exactly when it was before or some `=` or `>` marker says so,
/// the new side when it was before or some `=` or `<` marker says so.
pub proof fn lemma_read_lines(ls: Seq<DiffLine>, old: bool, new: bool)
    ensures
        read_lines(ls, old, new) is Ok <==> forall|i: int|
            0 <= i < ls.len() && !is_eof_marker(#[trigger] ls[i]) ==> line_diff(ls[i]) is Ok,
        read_lines(ls, old, new) matches Ok((ds, o, n)) ==> {
            let kept = ls.filter(|l: DiffLine| !is_eof_marker(l));
            &&& ds.len() == kept.len()
            &&& forall|j: int| 0 <= j < kept.len() ==> line_diff(#[trigger] kept[j]) == Ok::<LineDiff, Error>(ds[j])
            &&& (o <==> old || exists|i: int| 0 <= i < ls.len() && (#[trigger] ls[i].origin == '=' || ls[i].origin == '>'))
            &&& (n <==> new || exists|i: int| 0 <= i < ls.len() && (#[trigger] ls[i].origin == '=' || ls[i].origin == '<'))
        },
    decreases ls.len(),
{
    reveal(Seq::filter);
    let pred = |l: DiffLine| !is_eof_marker(l);
    if ls.len() > 0 {
        let rest = ls.drop_last();
        let l = ls.last();
        lemma_read_lines(rest, old, new);
        assert(l == ls[ls.len() - 1]);
        assert forall|i: int| 0 <= i < rest.len() implies #[trigger] rest[i] == ls[i] by {}
        if forall|i: int| 0 <= i < ls.len() && !is_eof_marker(#[trigger] ls[i]) ==> line_diff(ls[i]) is Ok {
            assert forall|i: int| 0 <= i < rest.len() && !is_eof_marker(#[trigger] rest[i]) implies line_diff(rest[i]) is Ok by {
                assert(rest[i] == ls[i]);
            }
        }
        if read_lines(ls, old, new) is Ok {
            assert forall|i: int| 0 <= i < ls.len() && !is_eof_marker(#[trigger] ls[i]) implies line_diff(ls[i]) is Ok by {
                if i < ls.len() - 1 {
                    assert(rest[i] == ls[i]);
                }
            }
        } else {
            if read_lines(rest, old, new) is Err {
                let i = choose|i: int| 0 <= i < rest.len() && !is_eof_marker(#[trigger] rest[i]) && !(line_diff(rest[i]) is Ok);
                assert(rest[i] == ls[i]);
            } else {
                assert(!is_eof_marker(ls[ls.len() - 1]));
            }
        }
        if let Ok((ds, o, n)) = read_lines(ls, old, new) {
            let kept = ls.filter(pred);
            let kr = rest.filter(pred);
            let (dr, o1, n1) = read_lines(rest, old, new)->Ok_0;
            if is_eof_marker(l) {
                assert(kept == kr);
            } else {
                assert(kept == kr.push(l));
                assert forall|j: int| 0 <= j < kept.len() implies line_diff(#[trigger] kept[j]) == Ok::<LineDiff, Error>(ds[j]) by {
                    if j < kr.len() {
                        assert(kept[j] == kr[j]);
                    }
                }
            }
            assert((o <==> old || exists|i: int| 0 <= i < ls.len() && (#[trigger] ls[i].origin == '=' || ls[i].origin == '>'))) by {
                if exists|i: int| 0 <= i < rest.len() && (#[trigger] rest[i].origin == '=' || rest[i].origin == '>') {
                    let i = choose|i: int| 0 <= i < rest.len() && (#[trigger] rest[i].origin == '=' || rest[i].origin == '>');
                    assert(ls[i] == rest[i]);
                }
                if exists|i: int| 0 <= i < ls.len() && (#[trigger] ls[i].origin == '=' || ls[i].origin == '>') {
                    let i = choose|i: int| 0 <= i < ls.len() && (#[trigger] ls[i].origin == '=' || ls[i].origin == '>');
                    if i < ls.len() - 1 {
                        assert(ls[i] == rest[i]);
                    }
                }
            }
            assert((n <==> new || exists|i: int| 0 <= i < ls.len() && (#[trigger] ls[i].origin == '=' || ls[i].origin == '<'))) by {
                if exists|i: int| 0 <= i < rest.len() && (#[trigger] rest[i].origin == '=' || rest[i].origin == '<') {
                    let i = choose|i: int| 0 <= i < rest.len() && (#[trigger] rest[i].origin == '=' || rest[i].origin == '<');
                    assert(ls[i] == rest[i]);
                }
                if exists|i: int| 0 <= i < ls.len() && (#[trigger] ls[i].origin == '=' || ls[i].origin == '<') {
                    let i = choose|i: int| 0 <= i < ls.len() && (#[trigger] ls[i].origin == '=' || ls[i].origin == '<');
                    if i < ls.len() - 1 {
                        assert(ls[i] == rest[i]);
                    }
                }
            }
        }
    } else {
        assert(ls.filter(pred) =~= Seq::<DiffLine>::empty());
    }
}

/// Some line of `ls` marks the old side as lacking a final newline.
pub open spec fn marks_old(ls: Seq<DiffLine>) -> bool {
    exists|i: int| 0 <= i < ls.len() && (#[trigger] ls[i].origin == '=' || ls[i].origin == '>')
}

/// Some line of `ls` marks the new side as lacking a final newline.
pub open spec fn marks_new(ls: Seq<DiffLine>) -> bool {
    exists|i: int| 0 <= i < ls.len() && (#[trigger] ls[i].origin == '=' || ls[i].origin == '<')
}

/// Every line of `ls` that is no marker has a line number.
pub open spec fn all_numbered(ls: Seq<DiffLine>) -> bool {
    forall|i: int| 0 <= i < ls.len() && !is_eof_marker(#[trigger] ls[i]) ==> line_diff(ls[i]) is Ok
}

/// `ds` are the line changes of the lines of `ls` that are no markers, in
/// order.
pub open spec fn changes_of_lines(ls: Seq<DiffLine>, ds: Seq<LineDiff>) -> bool {
    let kept = ls.filter(|l: DiffLine| !is_eof_marker(l));
    &&& ds.len() == kept.len()
    &&& forall|j: int| 0 <= j < kept.len() ==> line_diff(#[trigger] kept[j]) == Ok::<LineDiff, Error>(ds[j])
}

/// Reading hunks gives, hunk by hunk, the line changes of the lines that
/// are no markers; it fails exactly when a line that is no marker has no
/// line number; and a side is noted as lacking a final newline exactly
/// when a marker in some hunk says so.
pub proof fn lemma_read_all(hs: Seq<GitHunk>)
    ensures
        read_all(hs) is Ok <==> forall|k: int| 0 <= k < hs.len() ==> all_numbered(#[trigger] hs[k].lines@),
        read_all(hs) matches Ok((lss, o, n)) ==> {
            &&& lss.len() == hs.len()
            &&& forall|k: int| 0 <= k < hs.len() ==> changes_of_lines(#[trigger] hs[k].lines@, lss[k])
            &&& (o <==> exists|k: int| 0 <= k < hs.len() && marks_old(#[trigger] hs[k].lines@))
            &&& (n <==> exists|k: int| 0 <= k < hs.len() && marks_new(#[trigger] hs[k].lines@))
        },
    decreases hs.len(),
{
    if hs.len() > 0 {
        let rest = hs.drop_last();
        let last = hs[hs.len() - 1];
        assert(hs.last() == last);
        lemma_read_all(rest);
        assert forall|k: int| 0 <= k < rest.len() implies #[trigger] rest[k] == hs[k] by {}
        match read_all(rest) {
            Err(_) => {
                let k = choose|k: int| 0 <= k < rest.len() && !all_numbered(#[trigger] rest[k].lines@);
                assert(rest[k] == hs[k]);
            },
            Ok((lsr, o1, n1)) => {
                lemma_read_lines(last.lines@, o1, n1);
                if read_all(hs) is Ok {
                    assert forall|k: int| 0 <= k < hs.len() implies all_numbered(#[trigger] hs[k].lines@) by {
                        if k < rest.len() {
                            assert(rest[k] == hs[k]);
                        }
                    }
                    let (lss, o, n) = read_all(hs)->Ok_0;
                    let (ds, o2, n2) = read_lines(last.lines@, o1, n1)->Ok_0;
                    assert(lss == lsr.push(ds));
                    assert forall|k: int| 0 <= k < hs.len() implies changes_of_lines(#[trigger] hs[k].lines@, lss[k]) by {
                        if k < rest.len() {
                            assert(rest[k] == hs[k]);
                            assert(changes_of_lines(rest[k].lines@, lsr[k]));
                        }
                    }
                    assert((o <==> exists|k: int| 0 <= k < hs.len() && marks_old(#[trigger] hs[k].lines@))) by {
                        if exists|k: int| 0 <= k < rest.len() && marks_old(#[trigger] rest[k].lines@) {
                            let k = choose|k: int| 0 <= k < rest.len() && marks_old(#[trigger] rest[k].lines@);
                            assert(hs[k] == rest[k]);
                        }
                        if exists|k: int| 0 <= k < hs.len() && marks_old(#[trigger] hs[k].lines@) {
                            let k = choose|k: int| 0 <= k < hs.len() && marks_old(#[trigger] hs[k].lines@);
                            if k < rest.len() {
                                assert(hs[k] == rest[k]);
                            }
                        }
                    }
                    assert((n <==> exists|k: int| 0 <= k < hs.len() && marks_new(#[trigger] hs[k].lines@))) by {
                        if exists|k: int| 0 <= k < rest.len() && marks_new(#[trigger] rest[k].lines@) {
                            let k = choose|k: int| 0 <= k < rest.len() && marks_new(#[trigger] rest[k].lines@);
                            assert(hs[k] == rest[k]);
                        }
                        if exists|k: int| 0 <= k < hs.len() && marks_new(#[trigger] hs[k].lines@) {
                            let k = choose|k: int| 0 <= k < hs.len() && marks_new(#[trigger] hs[k].lines@);
                            if k < rest.len() {
                                assert(hs[k] == rest[k]);
                            }
                        }
                    }
                } else {
                    assert(!all_numbered(hs[hs.len() - 1].lines@));
                }
            },
        }
    }
}

/// Reading lines that fail fails the same way whatever lines follow.
proof fn lemma_lines_error_extends(a: Seq<DiffLine>, b: Seq<DiffLine>, old: bool, new: bool)
    requires
        read_lines(a, old, new) is Err,
    ensures
        read_lines(a + b, old, new) == read_lines(a, old, new),
    decreases b.len(),
{
    if b.len() == 0 {
        assert(a + b =~= a);
    } else {
        lemma_lines_error_extends(a, b.drop_last(), old, new);
        assert((a + b).drop_last() =~= a + b.drop_last());
    }
}

/// Reading hunks that fail fails the same way whatever hunks follow.
proof fn lemma_all_error_extends(a: Seq<GitHunk>, b: Seq<GitHunk>)
    requires
        read_all(a) is Err,
    ensures
        read_all(a + b) == read_all(a),
    decreases b.len(),
{
    if b.len() == 0 {
        assert(a + b =~= a);
    } else {
        lemma_all_error_extends(a, b.drop_last());
        assert((a + b).drop_last() =~= a + b.drop_last());
    }
}

/// Every error of reading lines is that of a line with no line number.
proof fn lemma_lines_error(ls: Seq<DiffLine>, old: bool, new: bool)
    ensures
        read_lines(ls, old, new) is Err ==> read_lines(ls, old, new) == Err::<(Seq<LineDiff>, bool, bool), Error>(
            Error::InvalidLineDiff,
        ),
    decreases ls.len(),
{
    if ls.len() > 0 {
        lemma_lines_error(ls.drop_last(), old, new);
    }
}

/// Every error of reading hunks is that of a line with no line number.
proof fn lemma_all_error(hs: Seq<GitHunk>)
    ensures
        read_all(hs) is Err ==> read_all(hs) == Err::<(Seq<Seq<LineDiff>>, bool, bool), Error>(
            Error::InvalidLineDiff,
        ),
    decreases hs.len(),
{
    if hs.len() > 0 {
        lemma_all_error(hs.drop_last());
        match read_all(hs.drop_last()) {
            Err(_) => {},
            Ok((_, o, n)) => lemma_lines_error(hs.last().lines@, o, n),
        }
    }
}

impl LineDiff {
    /// The line change that the diff line stands for: an addition when it
    /// has only a new line number, a deletion when it has only an old one,
    /// a context line when it has both, and an error when it has neither.
    pub fn try_from(line: DiffLine) -> (r: Result<LineDiff, Error>)
        ensures
            r == line_diff(line),
    {
        let DiffLine { origin: _, old_lineno, new_lineno, content_offset: _, content } = line;
        match (old_lineno, new_lineno) {
            (None, Some(n)) => Ok(LineDiff::Addition { line: content, line_num: n }),
            (Some(n), None) => Ok(LineDiff::Deletion { line: content, line_num: n }),
            (Some(o), Some(n)) => Ok(LineDiff::Context { line: content, line_num_old: o, line_num_new: n }),
            (None, None) => Err(Error::InvalidLineDiff),
        }
    }
}

impl Hunk {
    /// Read the hunks of a patch: each keeps its header, its lines become
    /// line changes, and the markers of a missing final newline become one
    /// note for the whole patch.
    pub fn read_hunks(hunks: Vec<GitHunk>) -> (r: Result<(Vec<Hunk>, Option<EofNewLine>), Error>)
        ensures
            r is Ok <==> read_all(hunks@) is Ok,
            r is Err ==> r == Err::<(Vec<Hunk>, Option<EofNewLine>), Error>(Error::InvalidLineDiff),
            r matches Ok((hs, eof)) ==> read_all(hunks@) matches Ok((ls, o, n)) && hs@.len()
                == hunks@.len() && eof == eof_of(o, n) && forall|i: int|
                0 <= i < hs@.len() ==> (#[trigger] hs@[i]).header == hunks@[i].header && hs@[i].lines@
                    == ls[i],
    {
        let ghost all = hunks@;
        let total = hunks.len();
        let mut rest = hunks;
        let mut out: Vec<Hunk> = Vec::new();
        let mut old_missing = false;
        let mut new_missing = false;
        let mut k: usize = 0;
        let ghost mut done: Seq<Seq<LineDiff>> = Seq::empty();
        proof {
            assert(all.take(0) =~= Seq::<GitHunk>::empty());
        }
        while rest.len() > 0
            invariant
                all == hunks@,
                total == all.len(),
                k + rest@.len() == total,
                rest@ == all.skip(k as int),
                read_all(all.take(k as int)) == Ok::<(Seq<Seq<LineDiff>>, bool, bool), Error>(
                    (done, old_missing, new_missing),
                ),
                out@.len() == k,
                done.len() == k,
                forall|i: int|
                    0 <= i < k ==> (#[trigger] out@[i]).header == all[i].header && out@[i].lines@ == done[i],
            decreases rest@.len(),
        {
            let hunk = rest.remove(0);
            proof {
                assert(hunk == all[k as int]);
                assert(all.take(k + 1).drop_last() =~= all.take(k as int));
                assert(all.take(k + 1).last() == all[k as int]);
            }
            let GitHunk { header, lines } = hunk;
            let ghost ls = lines@;
            let ghost o0 = old_missing;
            let ghost n0 = new_missing;
            let m = lines.len();
            let mut lines_left = lines;
            let mut read: Vec<LineDiff> = Vec::new();
            let mut j: usize = 0;
            proof {
                assert(ls.take(0) =~= Seq::<DiffLine>::empty());
            }
            while lines_left.len() > 0
                invariant
                    all == hunks@,
                    total == all.len(),
                    k < total,
                    ls == all[k as int].lines@,
                    read_all(all.take(k as int)) == Ok::<(Seq<Seq<LineDiff>>, bool, bool), Error>(
                        (done, o0, n0),
                    ),
                    m == ls.len(),
                    j + lines_left@.len() == m,
                    lines_left@ == ls.skip(j as int),
                    read_lines(ls.take(j as int), o0, n0) == Ok::<(Seq<LineDiff>, bool, bool), Error>(
                        (read@, old_missing, new_missing),
                    ),
                decreases lines_left@.len(),
            {
                let line = lines_left.remove(0);
                proof {
                    assert(line == ls[j as int]);
                    assert(ls.take(j + 1).drop_last() =~= ls.take(j as int));
                    assert(ls.take(j + 1).last() == ls[j as int]);
                }
                if line.origin == '=' {
                    old_missing = true;
                    new_missing = true;
                } else if line.origin == '>' {
                    old_missing = true;
                } else if line.origin == '<' {
                    new_missing = true;
                } else {
                    let ghost l = line;
                    match LineDiff::try_from(line) {
                        Ok(d) => {
                            read.push(d);
                        },
                        Err(e) => {
                            proof {
                                assert(read_lines(ls.take(j + 1), o0, n0) is Err);
                                lemma_lines_error_extends(ls.take(j + 1), ls.skip(j + 1), o0, n0);
                                assert(ls.take(j + 1) + ls.skip(j + 1) =~= ls);
                                assert(all.take(k + 1).drop_last() =~= all.take(k as int));
                                assert(all.take(k + 1).last() == all[k as int]);
                                assert(read_all(all.take(k + 1)) is Err);
                                lemma_all_error_extends(all.take(k + 1), all.skip(k + 1));
                                assert(all.take(k + 1) + all.skip(k + 1) =~= all);
                                lemma_all_error(all);
                            }
                            return Err(e);
                        },
                    }
                }
                proof {
                    assert(lines_left@ =~= ls.skip(j + 1));
                }
                j = j + 1;
            }
            proof {
                assert(ls.take(j as int) =~= ls);
                done = done.push(read@);
            }
            out.push(Hunk { header, lines: read });
            proof {
                assert(rest@ =~= all.skip(k + 1));
            }
            k = k + 1;
        }
        proof {
            assert(all.take(k as int) =~= all);
        }
        let eof = if old_missing && new_missing {
            Some(EofNewLine::BothMissing)
        } else if old_missing {
            Some(EofNewLine::OldMissing)
        } else if new_missing {
            Some(EofNewLine::NewMissing)
        } else {
            None
        };
        Ok((out, eof))
    }
}

} // verus!
