//! Groups of files for a directory: files grouped by the path of the
//! directory they stand in; and what putting such groups into a directory
//! gives: the files of a group go in one by one, and every file put is
//! found afterwards unless another file lies on its way.
use vstd::prelude::*;

use crate::file_system::error::{Error, LabelError};
use crate::file_system::path::{parses_as_path, path_segments, root_label_view, Label, Path};
use crate::nonempty::NonEmpty;
use crate::tree::{related, KeyPath};
use crate::vcs::git::reference::name::same_text;

use super::{
    group_dir, groups_view, is_dir_at, lemma_put_file, lists_entries, put_all, put_file,
    put_groups, DirectoryView, File, FileView,
};

verus! {

/// The path of the directory that a git tree walk names `tree_path`: the
/// empty text names the root.
pub open spec fn entry_dir(tree_path: Seq<char>) -> KeyPath {
    if tree_path.len() == 0 {
        seq![root_label_view()]
    } else {
        path_segments(tree_path)
    }
}

/// The directory that a git tree walk names `tree_path`: the root for the
/// empty text, else the path that the text reads as.
pub fn entry_directory(tree_path: &str) -> (r: Result<Path, Error>)
    ensures
        r is Ok <==> tree_path@.len() == 0 || parses_as_path(tree_path@),
        r matches Ok(p) ==> p@ == entry_dir(tree_path@),
        r is Err ==> r == Err::<Path, Error>(Error::Label(LabelError::Empty)),
{
    if tree_path.unicode_len() == 0 {
        Ok(Path::root())
    } else {
        Path::try_from(tree_path)
    }
}

/// The named files among `es` that stand in the directory `p`, in order.
pub open spec fn entries_at(es: Seq<(Path, Label, File)>, p: KeyPath) -> Seq<(Label, File)>
    decreases es.len(),
{
    if es.len() == 0 {
        Seq::empty()
    } else {
        let r = entries_at(es.drop_last(), p);
        if es.last().0@ == p {
            r.push((es.last().1, es.last().2))
        } else {
            r
        }
    }
}

/// The named files standing in `p` are exactly the entries whose path is
/// `p`, in order, each without its path.
pub proof fn lemma_entries_at(es: Seq<(Path, Label, File)>, p: KeyPath)
    ensures
        entries_at(es, p) == es.filter(|e: (Path, Label, File)| e.0@ == p).map_values(
            |e: (Path, Label, File)| (e.1, e.2),
        ),
    decreases es.len(),
{
    reveal(Seq::filter);
    let pred = |e: (Path, Label, File)| e.0@ == p;
    let strip = |e: (Path, Label, File)| (e.1, e.2);
    if es.len() > 0 {
        lemma_entries_at(es.drop_last(), p);
        let f = es.filter(pred);
        let fp = es.drop_last().filter(pred);
        if pred(es.last()) {
            assert(f == fp.push(es.last()));
            assert(f.map_values(strip) =~= fp.map_values(strip).push(strip(es.last())));
        } else {
            assert(f == fp);
        }
    } else {
        assert(es.filter(pred) =~= Seq::<(Path, Label, File)>::empty());
        assert(es.filter(pred).map_values(strip) =~= Seq::<(Label, File)>::empty());
    }
}

/// No file of `es` stands in `p`: none is named there.
proof fn lemma_entries_at_none(es: Seq<(Path, Label, File)>, p: KeyPath)
    requires
        forall|j: int| 0 <= j < es.len() ==> (#[trigger] es[j]).0@ != p,
    ensures
        entries_at(es, p) == Seq::<(Label, File)>::empty(),
    decreases es.len(),
{
    if es.len() > 0 {
        let rest = es.drop_last();
        assert forall|j: int| 0 <= j < rest.len() implies (#[trigger] rest[j]).0@ != p by {
            assert(rest[j] == es[j]);
        }
        assert(es.last() == es[es.len() - 1]);
        lemma_entries_at_none(rest, p);
    }
}

/// Whether `a` and `b` are the same path.
fn same_path(a: &Path, b: &Path) -> (r: bool)
    ensures
        r == (a@ == b@),
{
    proof {
        assert(a.0@[0] == a.0.head && b.0@[0] == b.0.head);
    }
    if !same_text(a.0.head.as_str(), b.0.head.as_str()) {
        assert(a@[0] != b@[0]);
        return false;
    }
    let n = a.0.tail.len();
    if n != b.0.tail.len() {
        assert(a@.len() != b@.len());
        return false;
    }
    let mut i: usize = 0;
    while i < n
        invariant
            n == a.0.tail@.len(),
            n == b.0.tail@.len(),
            i <= n,
            a.0.head@ == b.0.head@,
            forall|j: int| 0 <= j < i ==> (#[trigger] a.0.tail@[j])@ == b.0.tail@[j]@,
        decreases n - i,
    {
        if !same_text(a.0.tail[i].as_str(), b.0.tail[i].as_str()) {
            assert(a.0@[i + 1] == a.0.tail@[i as int]);
            assert(b.0@[i + 1] == b.0.tail@[i as int]);
            assert(a@[i + 1] != b@[i + 1]);
            return false;
        }
        i = i + 1;
    }
    assert forall|j: int| 0 <= j < a@.len() implies a@[j] == b@[j] by {
        if j > 0 {
            assert(a.0@[j] == a.0.tail@[j - 1]);
            assert(b.0@[j] == b.0.tail@[j - 1]);
        }
    }
    assert(a@ =~= b@);
    true
}

/// The position of the group of `p` among `groups`, if it has one.
fn find_group(groups: &Vec<(Path, NonEmpty<(Label, File)>)>, p: &Path) -> (r: Option<usize>)
    ensures
        r matches Some(i) ==> i < groups@.len() && groups@[i as int].0@ == p@,
        r is None ==> forall|i: int| 0 <= i < groups@.len() ==> (#[trigger] groups@[i]).0@ != p@,
{
    let mut i: usize = 0;
    while i < groups.len()
        invariant
            i <= groups@.len(),
            forall|j: int| 0 <= j < i ==> (#[trigger] groups@[j]).0@ != p@,
        decreases groups@.len() - i,
    {
        if same_path(&groups[i].0, p) {
            return Some(i);
        }
        i = i + 1;
    }
    None
}

/// Some group of `gs` is the group of the directory `p`.
pub open spec fn has_group(gs: Seq<(Path, NonEmpty<(Label, File)>)>, p: KeyPath) -> bool {
    exists|i: int| 0 <= i < gs.len() && (#[trigger] gs[i]).0@ == p
}

/// Group named files by the directory they stand in: one group for each
/// directory, in the order in which the directories first come, holding
/// the files of that directory in order.
pub fn group_by_directory(entries: Vec<(Path, Label, File)>) -> (r: Vec<(Path, NonEmpty<(Label, File)>)>)
    ensures
        forall|i: int, j: int| 0 <= i < j < r@.len() ==> (#[trigger] r@[i]).0@ != (#[trigger] r@[j]).0@,
        forall|i: int| 0 <= i < r@.len() ==> (#[trigger] r@[i]).1@ == entries_at(entries@, r@[i].0@),
        forall|k: int| 0 <= k < entries@.len() ==> has_group(r@, (#[trigger] entries@[k]).0@),
{
    let ghost all = entries@;
    let total = entries.len();
    let mut groups: Vec<(Path, NonEmpty<(Label, File)>)> = Vec::new();
    let mut rest = entries;
    let mut k: usize = 0;
    while rest.len() > 0
        invariant
            k + rest@.len() == all.len(),
            all.len() == total,
            all == entries@,
            rest@ == all.skip(k as int),
            forall|i: int, j: int| 0 <= i < j < groups@.len() ==> (#[trigger] groups@[i]).0@ != (#[trigger] groups@[j]).0@,
            forall|i: int| 0 <= i < groups@.len() ==> (#[trigger] groups@[i]).1@ == entries_at(all.take(k as int), groups@[i].0@),
            forall|j: int| 0 <= j < k ==> has_group(groups@, (#[trigger] all[j]).0@),
        decreases rest@.len(),
    {
        let (path, label, file) = rest.remove(0);
        let ghost before = groups@;
        let ghost done = all.take(k as int);
        let ghost next = all.take(k + 1);
        proof {
            assert(all[k as int] == (path, label, file));
            assert(next.drop_last() =~= done);
            assert(next.last() == all[k as int]);
            assert forall|q: KeyPath| q != path@ implies entries_at(next, q) == entries_at(done, q) by {}
            assert(entries_at(next, path@) == entries_at(done, path@).push((label, file)));
        }
        let ghost mut gi: int = 0;
        match find_group(&groups, &path) {
            Some(i) => {
                proof {
                    gi = i as int;
                }
                let (p, mut group) = groups.remove(i);
                group.push((label, file));
                groups.insert(i, (p, group));
                proof {
                    assert(groups@ =~= before.update(i as int, (before[i as int].0, group)));
                }
            },
            None => {
                proof {
                    assert forall|j: int| 0 <= j < done.len() implies (#[trigger] done[j]).0@ != path@ by {
                        assert(done[j] == all[j]);
                        assert(has_group(before, all[j].0@));
                        let g = choose|g: int| 0 <= g < before.len() && (#[trigger] before[g]).0@ == all[j].0@;
                        assert(before[g].0@ != path@);
                    }
                    lemma_entries_at_none(done, path@);
                }
                let group = NonEmpty::new((label, file));
                groups.push((path, group));
                proof {
                    gi = before.len() as int;
                    assert(group@ =~= entries_at(done, path@).push((label, file)));
                }
            },
        }
        proof {
            assert forall|j: int| 0 <= j < k + 1 implies has_group(groups@, (#[trigger] all[j]).0@) by {
                if j < k {
                    assert(has_group(before, all[j].0@));
                    let g = choose|g: int| 0 <= g < before.len() && (#[trigger] before[g]).0@ == all[j].0@;
                    assert(groups@[g].0@ == before[g].0@);
                } else {
                    assert(groups@[gi].0@ == all[j].0@);
                }
            }
            assert(rest@ =~= all.skip(k + 1));
        }
        k = k + 1;
    }
    proof {
        assert(all.take(k as int) =~= all);
        assert forall|e: int| 0 <= e < entries@.len() implies has_group(groups@, (#[trigger] entries@[e]).0@) by {
            assert(all[e] == entries@[e]);
        }
    }
    groups
}

/// Putting a group of named files into a directory is putting them one by
/// one: no files leave the directory as it was, and one more file is put
/// after the others at its path in the directory.
pub proof fn lemma_put_all_one_by_one(
    m: DirectoryView,
    dir: KeyPath,
    fs: Seq<(Seq<char>, FileView)>,
    f: (Seq<char>, FileView),
)
    ensures
        put_all(m, dir, Seq::empty()) == m,
        put_all(m, dir, fs.push(f)) == put_file(put_all(m, dir, fs), dir.push(f.0), f.1),
{
    assert(fs.push(f).drop_last() =~= fs);
}

/// The path at which the `j`th file of the `i`th group is put.
pub open spec fn group_file_path(
    gs: Seq<(KeyPath, Seq<(Seq<char>, FileView)>)>,
    i: int,
    j: int,
) -> KeyPath {
    group_dir(gs[i].0).push(gs[i].1[j].0)
}

/// The `j`th file of the `i`th group exists.
pub open spec fn is_group_file(gs: Seq<(KeyPath, Seq<(Seq<char>, FileView)>)>, i: int, j: int) -> bool {
    0 <= i < gs.len() && 0 <= j < gs[i].1.len()
}

/// No file of the groups lies on the way to another: two of their paths of
/// which one begins with the other are the same path.
pub open spec fn files_apart(gs: Seq<(KeyPath, Seq<(Seq<char>, FileView)>)>) -> bool {
    forall|i1: int, j1: int, i2: int, j2: int|
        #![trigger group_file_path(gs, i1, j1), group_file_path(gs, i2, j2)]
        is_group_file(gs, i1, j1) && is_group_file(gs, i2, j2) && related(
            group_file_path(gs, i1, j1),
            group_file_path(gs, i2, j2),
        ) ==> group_file_path(gs, i1, j1) == group_file_path(gs, i2, j2)
}

/// A path that is in `m`, or is one of the paths of `fs` in `dir`, is in
/// `m` after `fs` is put, if no path of `fs` other than itself begins with
/// it or lies on its way.
proof fn lemma_put_all_keeps(m: DirectoryView, dir: KeyPath, fs: Seq<(Seq<char>, FileView)>, k: KeyPath)
    requires
        m.contains_key(k) || exists|j: int| 0 <= j < fs.len() && #[trigger] dir.push(fs[j].0) == k,
        forall|j: int| 0 <= j < fs.len() && related(#[trigger] dir.push(fs[j].0), k) ==> dir.push(fs[j].0) == k,
    ensures
        put_all(m, dir, fs).contains_key(k),
    decreases fs.len(),
{
    if fs.len() > 0 {
        let rest = fs.drop_last();
        let q = dir.push(fs.last().0);
        assert(q == dir.push(fs[fs.len() - 1].0));
        lemma_put_file(put_all(m, dir, rest), q, fs.last().1);
        if q != k {
            assert(m.contains_key(k) || exists|j: int| 0 <= j < rest.len() && #[trigger] dir.push(rest[j].0) == k) by {
                if !m.contains_key(k) {
                    let j = choose|j: int| 0 <= j < fs.len() && #[trigger] dir.push(fs[j].0) == k;
                    assert(j < rest.len());
                    assert(dir.push(rest[j].0) == k);
                }
            }
            assert forall|j: int| 0 <= j < rest.len() && related(#[trigger] dir.push(rest[j].0), k) implies dir.push(rest[j].0) == k by {
                assert(rest[j] == fs[j]);
                assert(dir.push(fs[j].0) == dir.push(rest[j].0));
            }
            lemma_put_all_keeps(m, dir, rest, k);
        }
    }
}

/// A path that is in `m`, or is the path of a file of the groups, is in `m`
/// after the groups are put, if no path of a file of the groups other than
/// itself begins with it or lies on its way.
proof fn lemma_put_groups_keeps(m: DirectoryView, gs: Seq<(KeyPath, Seq<(Seq<char>, FileView)>)>, k: KeyPath)
    requires
        m.contains_key(k) || exists|i: int, j: int| is_group_file(gs, i, j) && #[trigger] group_file_path(gs, i, j) == k,
        forall|i: int, j: int|
            is_group_file(gs, i, j) && related(#[trigger] group_file_path(gs, i, j), k) ==> group_file_path(gs, i, j) == k,
    ensures
        put_groups(m, gs).contains_key(k),
    decreases gs.len(),
{
    if gs.len() > 0 {
        let rest = gs.drop_last();
        let last = gs.len() - 1;
        let dir = group_dir(gs[last].0);
        let fs = gs[last].1;
        assert(gs.last() == gs[last]);
        assert forall|i: int, j: int| is_group_file(rest, i, j) implies group_file_path(rest, i, j)
            == group_file_path(gs, i, j) && is_group_file(gs, i, j) by {
            assert(rest[i] == gs[i]);
        }
        let in_last = exists|j: int| 0 <= j < fs.len() && #[trigger] dir.push(fs[j].0) == k;
        if !in_last {
            assert(m.contains_key(k) || exists|i: int, j: int| is_group_file(rest, i, j) && #[trigger] group_file_path(rest, i, j) == k) by {
                if !m.contains_key(k) {
                    let (i, j) = choose|i: int, j: int| is_group_file(gs, i, j) && #[trigger] group_file_path(gs, i, j) == k;
                    if i == last {
                        assert(dir.push(fs[j].0) == k);
                    }
                    assert(is_group_file(rest, i, j));
                    assert(group_file_path(rest, i, j) == k);
                }
            }
            assert forall|i: int, j: int| is_group_file(rest, i, j) && related(#[trigger] group_file_path(rest, i, j), k)
                implies group_file_path(rest, i, j) == k by {
                assert(group_file_path(rest, i, j) == group_file_path(gs, i, j));
            }
            lemma_put_groups_keeps(m, rest, k);
        }
        assert forall|j: int| 0 <= j < fs.len() && related(#[trigger] dir.push(fs[j].0), k) implies dir.push(fs[j].0) == k by {
            assert(group_file_path(gs, last, j) == dir.push(fs[j].0));
            assert(is_group_file(gs, last, j));
        }
        lemma_put_all_keeps(put_groups(m, rest), dir, fs, k);
    }
}

/// Every file of the groups is in the directory built from them, at the
/// path of its group (the top level for the root path) and its name, and
/// the directory of every group but the root group is a directory there,
/// provided no file of the groups lies on the way to another.
pub proof fn lemma_groups_find_every_file(gs: Seq<(KeyPath, Seq<(Seq<char>, FileView)>)>, i: int, j: int)
    requires
        is_group_file(gs, i, j),
        files_apart(gs),
    ensures
        put_groups(Map::empty(), gs).contains_key(group_file_path(gs, i, j)),
        gs[i].0 != seq![root_label_view()] ==> is_dir_at(put_groups(Map::empty(), gs), gs[i].0),
{
    let k = group_file_path(gs, i, j);
    assert forall|i2: int, j2: int| is_group_file(gs, i2, j2) && related(#[trigger] group_file_path(gs, i2, j2), k)
        implies group_file_path(gs, i2, j2) == k by {
        assert(files_apart(gs));
    }
    lemma_put_groups_keeps(Map::empty(), gs, k);
    if gs[i].0 != seq![root_label_view()] {
        let q = seq![gs[i].1[j].0];
        assert(gs[i].0 + q =~= k);
    }
}

/// The path at which a directory built from the map `files` puts the
/// `j`th file of the group at `p`.
pub open spec fn map_file_path(files: Map<Path, NonEmpty<(Label, File)>>, p: Path, j: int) -> KeyPath {
    group_dir(p@).push(files[p]@[j].0@)
}

/// No file of the groups of the map lies on the way to another.
pub open spec fn map_files_apart(files: Map<Path, NonEmpty<(Label, File)>>) -> bool {
    forall|p1: Path, j1: int, p2: Path, j2: int|
        #![trigger map_file_path(files, p1, j1), map_file_path(files, p2, j2)]
        files.contains_key(p1) && 0 <= j1 < files[p1]@.len() && files.contains_key(p2) && 0 <= j2
            < files[p2]@.len() && related(map_file_path(files, p1, j1), map_file_path(files, p2, j2))
            ==> map_file_path(files, p1, j1) == map_file_path(files, p2, j2)
}

/// A directory built from the map `files`, whatever order the map hands
/// its groups out in, holds every file of every group at the path of its
/// group (the top level for the root path) and its name, and the directory
/// of every group but the root group, provided no file of the groups lies
/// on the way to another.
pub proof fn lemma_from_map_finds_every_file(
    files: Map<Path, NonEmpty<(Label, File)>>,
    r: DirectoryView,
    p: Path,
    j: int,
)
    requires
        exists|es: Seq<(Path, NonEmpty<(Label, File)>)>|
            lists_entries(files, es) && r == put_groups(Map::empty(), groups_view(es)),
        files.contains_key(p),
        0 <= j < files[p]@.len(),
        map_files_apart(files),
    ensures
        r.contains_key(map_file_path(files, p, j)),
        p@ != seq![root_label_view()] ==> is_dir_at(r, p@),
{
    let es = choose|es: Seq<(Path, NonEmpty<(Label, File)>)>|
        lists_entries(files, es) && r == put_groups(Map::empty(), groups_view(es));
    let gs = groups_view(es);
    let i = choose|i: int| 0 <= i < es.len() && es[i].0 == p;
    assert(es[i].1 == files[p]);
    assert(gs[i] == (es[i].0@, super::named_files(es[i].1@)));
    assert(group_file_path(gs, i, j) == map_file_path(files, p, j));
    assert forall|i1: int, j1: int, i2: int, j2: int|
        is_group_file(gs, i1, j1) && is_group_file(gs, i2, j2) && related(
            #[trigger] group_file_path(gs, i1, j1),
            #[trigger] group_file_path(gs, i2, j2),
        ) implies group_file_path(gs, i1, j1) == group_file_path(gs, i2, j2) by {
        assert(gs[i1] == (es[i1].0@, super::named_files(es[i1].1@)));
        assert(gs[i2] == (es[i2].0@, super::named_files(es[i2].1@)));
        assert(files.contains_key(es[i1].0) && files[es[i1].0] == es[i1].1);
        assert(files.contains_key(es[i2].0) && files[es[i2].0] == es[i2].1);
        assert(group_file_path(gs, i1, j1) == map_file_path(files, es[i1].0, j1));
        assert(group_file_path(gs, i2, j2) == map_file_path(files, es[i2].0, j2));
    }
    lemma_groups_find_every_file(gs, i, j);
}

} // verus!
