//! The difference between two directories: the files created, deleted and
//! modified on the way from an old directory (the left) to a new one (the
//! right). Every path in a difference starts with the label of the new
//! directory.
use vstd::prelude::*;

pub mod git;
pub mod hunks;

use crate::file_system::directory::listing::{
    in_path_order, lemma_level_paths, lemma_no_empty_path, lemma_sub_files_rel, lemma_under_entry,
    lemma_under_missing, level_files, lists_files, opt_listing, opt_view, path_lt, prefix_files,
    rel_files, sub_at, sub_files, sub_view, tree_files, under, FileEntry,
};
use crate::file_system::directory::{
    content_checksum, files_of, lemma_files_in_order, lemma_files_sorted, DirSub, DirTree,
    Directory, DirectoryView, FileView,
};
use crate::file_system::{Label, Path};
use crate::strings::{lemma_lt_irreflexive, lemma_lt_transitive, seq_lt, KeyOrder};
use crate::tree::{has_key, sub_key, tree_nodes, tree_wf, HasKey, KeyPath, SubTree, TreeKey};

verus! {

/// The reason a difference could not be made.
#[derive(Debug)]
pub struct DiffError {
    reason: String,
}

impl From<String> for DiffError {
    fn from(reason: String) -> (r: Self) {
        DiffError { reason }
    }
}

impl vstd::std_specs::convert::FromSpecImpl<String> for DiffError {
    open spec fn obeys_from_spec() -> bool {
        true
    }

    closed spec fn from_spec(v: String) -> Self {
        DiffError { reason: v }
    }
}

/// The difference between two directories.
#[derive(Debug, PartialEq, Eq)]
pub struct Diff {
    pub created: Vec<CreateFile>,
    pub deleted: Vec<DeleteFile>,
    pub moved: Vec<MoveFile>,
    pub modified: Vec<ModifiedFile>,
}

/// A file that only the new directory has.
#[derive(Debug, PartialEq, Eq)]
pub struct CreateFile(pub Path);

/// A file that only the old directory has.
#[derive(Debug, PartialEq, Eq)]
pub struct DeleteFile(pub Path);

/// A file that moved from one path to another.
#[derive(Debug, PartialEq, Eq)]
pub struct MoveFile {
    pub old_path: Path,
    pub new_path: Path,
}

/// A file that both directories have, with different contents.
#[derive(Debug, PartialEq, Eq)]
pub struct ModifiedFile {
    pub path: Path,
    pub diff: FileDiff,
}

/// The change within a modified file.
#[derive(Debug, PartialEq, Eq)]
pub struct FileDiff {}

/// The paths of a listing, each behind `base`.
pub open spec fn rooted_at(base: KeyPath, fs: Seq<FileEntry>) -> Seq<KeyPath> {
    fs.map_values(|e: FileEntry| base + e.0)
}

/// The files of the listing `fs` that `m` does not have, in order.
pub open spec fn missing_from(fs: Seq<FileEntry>, m: DirectoryView) -> Seq<FileEntry>
    decreases fs.len(),
{
    if fs.len() == 0 {
        Seq::empty()
    } else {
        let r = missing_from(fs.drop_last(), m);
        if m.contains_key(fs.last().0) {
            r
        } else {
            r.push(fs.last())
        }
    }
}

/// A file counts as changed when its size or its checksum differs.
pub open spec fn file_changed(old: FileView, new: FileView) -> bool {
    old.1 != new.1 || content_checksum(old.0) != content_checksum(new.0)
}

/// The files of the listing `fs` that `m` has in a changed form, in order.
pub open spec fn changed_in(fs: Seq<FileEntry>, m: DirectoryView) -> Seq<FileEntry>
    decreases fs.len(),
{
    if fs.len() == 0 {
        Seq::empty()
    } else {
        let r = changed_in(fs.drop_last(), m);
        let e = fs.last();
        if m.contains_key(e.0) && file_changed(m[e.0], e.1) {
            r.push(e)
        } else {
            r
        }
    }
}

/// The paths of the created files of a difference.
pub open spec fn created_paths(d: Diff) -> Seq<KeyPath> {
    d.created@.map_values(|c: CreateFile| c.0@)
}

/// The paths of the deleted files of a difference.
pub open spec fn deleted_paths(d: Diff) -> Seq<KeyPath> {
    d.deleted@.map_values(|c: DeleteFile| c.0@)
}

/// The paths of the modified files of a difference.
pub open spec fn modified_paths(d: Diff) -> Seq<KeyPath> {
    d.modified@.map_values(|c: ModifiedFile| c.path@)
}

/// Keeping the missing files of two listings one after the other.
proof fn lemma_missing_add(a: Seq<FileEntry>, b: Seq<FileEntry>, m: DirectoryView)
    ensures
        missing_from(a + b, m) == missing_from(a, m) + missing_from(b, m),
        changed_in(a + b, m) == changed_in(a, m) + changed_in(b, m),
    decreases b.len(),
{
    if b.len() == 0 {
        assert(a + b =~= a);
        assert(missing_from(a, m) + missing_from(b, m) =~= missing_from(a, m));
        assert(changed_in(a, m) + changed_in(b, m) =~= changed_in(a, m));
    } else {
        lemma_missing_add(a, b.drop_last(), m);
        assert((a + b).drop_last() =~= a + b.drop_last());
        assert((a + b).last() == b.last());
        let ma = missing_from(a, m);
        let mb = missing_from(b.drop_last(), m);
        assert(ma + mb.push(b.last()) =~= (ma + mb).push(b.last()));
        let ca = changed_in(a, m);
        let cb = changed_in(b.drop_last(), m);
        assert(ca + cb.push(b.last()) =~= (ca + cb).push(b.last()));
    }
}

/// The missing files of a listing with a key in front are those missing
/// below the key.
proof fn lemma_missing_prefix(k: Seq<char>, fs: Seq<FileEntry>, m: DirectoryView)
    ensures
        missing_from(prefix_files(k, fs), m) == prefix_files(k, missing_from(fs, under(m, k))),
        changed_in(prefix_files(k, fs), m) == prefix_files(k, changed_in(fs, under(m, k))),
    decreases fs.len(),
{
    let pf = prefix_files(k, fs);
    if fs.len() == 0 {
        assert(pf =~= Seq::<FileEntry>::empty());
        assert(prefix_files(k, Seq::<FileEntry>::empty()) =~= Seq::<FileEntry>::empty());
    } else {
        let init = fs.drop_last();
        let e = fs.last();
        lemma_missing_prefix(k, init, m);
        assert(pf.drop_last() =~= prefix_files(k, init));
        assert(pf.last() == (seq![k] + e.0, e.1));
        let u = under(m, k);
        let r = missing_from(init, u);
        assert(prefix_files(k, r.push(e)) =~= prefix_files(k, r).push((seq![k] + e.0, e.1)));
        let c = changed_in(init, u);
        assert(prefix_files(k, c.push(e)) =~= prefix_files(k, c).push((seq![k] + e.0, e.1)));
    }
}

/// When `m` has none of the files of a listing, all of them are missing and
/// none is changed.
proof fn lemma_missing_all(fs: Seq<FileEntry>, m: DirectoryView)
    requires
        forall|i: int| 0 <= i < fs.len() ==> !m.contains_key(#[trigger] fs[i].0),
    ensures
        missing_from(fs, m) == fs,
        changed_in(fs, m) == Seq::<FileEntry>::empty(),
    decreases fs.len(),
{
    if fs.len() > 0 {
        lemma_missing_all(fs.drop_last(), m);
        assert(!m.contains_key(fs[fs.len() - 1].0));
        assert(fs.drop_last().push(fs.last()) =~= fs);
    }
}

/// The paths of two listings one after the other, each behind `base`.
proof fn lemma_rooted_add(base: KeyPath, a: Seq<FileEntry>, b: Seq<FileEntry>)
    ensures
        rooted_at(base, a + b) == rooted_at(base, a) + rooted_at(base, b),
{
    assert(rooted_at(base, a + b) =~= rooted_at(base, a) + rooted_at(base, b));
}

/// Putting a key in front of every path, then `base`, is putting `base`
/// followed by the key.
proof fn lemma_rooted_prefix(base: KeyPath, k: Seq<char>, fs: Seq<FileEntry>)
    ensures
        rooted_at(base, prefix_files(k, fs)) == rooted_at(base.push(k), fs),
{
    assert forall|i: int| 0 <= i < fs.len() implies #[trigger] rooted_at(base, prefix_files(k, fs))[i]
        == rooted_at(base.push(k), fs)[i] by {
        assert(base + (seq![k] + fs[i].0) =~= base.push(k) + fs[i].0);
    }
    assert(rooted_at(base, prefix_files(k, fs)) =~= rooted_at(base.push(k), fs));
}

/// What the files of one sub-tree add to a difference: the files below its
/// key, compared with what `m` holds below that key.
proof fn lemma_entry_contrib(base: KeyPath, s: DirSub, m: DirectoryView)
    ensures
        rooted_at(base, missing_from(sub_files(s), m)) == rooted_at(
            base.push(sub_key(s)),
            missing_from(rel_files(s), under(m, sub_key(s))),
        ),
        rooted_at(base, changed_in(sub_files(s), m)) == rooted_at(
            base.push(sub_key(s)),
            changed_in(rel_files(s), under(m, sub_key(s))),
        ),
{
    let k = sub_key(s);
    lemma_sub_files_rel(s);
    lemma_missing_prefix(k, rel_files(s), m);
    lemma_rooted_prefix(base, k, missing_from(rel_files(s), under(m, k)));
    lemma_rooted_prefix(base, k, changed_in(rel_files(s), under(m, k)));
}

/// Taking one more sub-tree of a level into a difference.
proof fn lemma_level_advance(base: KeyPath, t: DirTree, c: int, m: DirectoryView)
    requires
        0 <= c < t.0@.len(),
    ensures
        rooted_at(base, missing_from(level_files(t, c + 1), m)) == rooted_at(
            base,
            missing_from(level_files(t, c), m),
        ) + rooted_at(base, missing_from(sub_files(sub_at(t, c)), m)),
        rooted_at(base, changed_in(level_files(t, c + 1), m)) == rooted_at(
            base,
            changed_in(level_files(t, c), m),
        ) + rooted_at(base, changed_in(sub_files(sub_at(t, c)), m)),
{
    crate::file_system::directory::listing::lemma_level_step(t, c);
    let a = level_files(t, c);
    let b = sub_files(sub_at(t, c));
    lemma_missing_add(a, b, m);
    lemma_rooted_add(base, missing_from(a, m), missing_from(b, m));
    lemma_rooted_add(base, changed_in(a, m), changed_in(b, m));
}

/// A value that `mapper` gives back for some label and parent path that
/// make up `path`.
pub open spec fn produced_by<T, F: Fn(&Label, &Path) -> T>(mapper: F, path: KeyPath, t: T) -> bool {
    exists|n: Label, p: Path| p@.push(n@) == path && #[trigger] call_ensures(mapper, (&n, &p), t)
}

/// `mapper` can be called on any label and parent path.
pub open spec fn total_mapper<T, F: Fn(&Label, &Path) -> T>(mapper: F) -> bool {
    forall|n: Label, p: Path| #[trigger] call_requires(mapper, (&n, &p))
}

/// A possibly absent tree, by value.
pub open spec fn opt_tree(o: Option<&DirTree>) -> Option<DirTree> {
    match o {
        Some(t) => Some(*t),
        None => None,
    }
}

/// The files of the first `c` sub-trees of a possibly absent tree.
pub open spec fn opt_level(o: Option<DirTree>, c: int) -> Seq<FileEntry> {
    match o {
        None => Seq::empty(),
        Some(t) => level_files(t, c),
    }
}

/// The number of sub-trees of a possibly absent tree.
pub open spec fn opt_len(o: Option<DirTree>) -> int {
    match o {
        None => 0,
        Some(t) => t.0@.len() as int,
    }
}

/// The key of the sub-tree at index `a` of a possibly absent tree.
pub open spec fn opt_key(o: Option<DirTree>, a: int) -> Seq<char> {
    match o {
        None => Seq::empty(),
        Some(t) => sub_key(t.0@[a]),
    }
}

/// How far a walk over a level has come: all of it once `done`.
pub open spec fn walked(done: bool, pos: usize, len: int) -> int {
    if done {
        len
    } else {
        pos as int
    }
}

/// The files of a sub-tree that the other side has nothing below the key
/// of: all of them are missing there, and none is changed.
proof fn lemma_alone(base: KeyPath, s: DirSub, m: DirectoryView)
    requires
        under(m, sub_key(s)) == Map::<KeyPath, FileView>::empty(),
    ensures
        rooted_at(base, missing_from(sub_files(s), m)) == rooted_at(base, sub_files(s)),
        rooted_at(base, changed_in(sub_files(s), m)) == Seq::<KeyPath>::empty(),
{
    let k = sub_key(s);
    lemma_entry_contrib(base, s, m);
    lemma_missing_all(rel_files(s), under(m, k));
    lemma_sub_files_rel(s);
    lemma_rooted_prefix(base, k, rel_files(s));
    assert(rooted_at(base.push(k), Seq::<FileEntry>::empty()) =~= Seq::<KeyPath>::empty());
}

/// In a sorted level, a key that lies above the first `c` keys and below
/// the key at `c` is no key of the level, and lies below every key from `c`
/// on.
proof fn lemma_key_gap(t: DirTree, c: int, k: Seq<char>)
    requires
        tree_wf(t),
        0 <= c <= t.0@.len(),
        forall|b: int| 0 <= b < c ==> seq_lt(#[trigger] sub_key(t.0@[b]), k),
        c < t.0@.len() ==> seq_lt(k, sub_key(t.0@[c])),
    ensures
        !has_key(t.0@, k),
        forall|b: int| c <= b < t.0@.len() ==> seq_lt(k, #[trigger] sub_key(t.0@[b])),
{
    assert forall|b: int| c <= b < t.0@.len() implies seq_lt(k, #[trigger] sub_key(t.0@[b])) by {
        if b > c {
            lemma_lt_transitive(k, sub_key(t.0@[c]), sub_key(t.0@[b]));
        }
    }
    if has_key(t.0@, k) {
        let b = crate::tree::key_index(t.0@, k);
        lemma_lt_irreflexive(k);
    }
}


/// The old sub-tree at `ci` stands alone: the new level has no key like
/// its key, so all its files are deleted.
proof fn lemma_old_alone(base: KeyPath, old_t: DirTree, ci: int, new: DirTree, cj: int)
    requires
        tree_wf(old_t),
        tree_wf(new),
        0 <= ci < old_t.0@.len(),
        0 <= cj <= new.0@.len(),
        forall|b: int| 0 <= b < cj ==> seq_lt(#[trigger] sub_key(new.0@[b]), sub_key(old_t.0@[ci])),
        cj < new.0@.len() ==> seq_lt(sub_key(old_t.0@[ci]), sub_key(new.0@[cj])),
    ensures
        rooted_at(base, missing_from(level_files(old_t, ci + 1), files_of(tree_nodes(new))))
            == rooted_at(base, missing_from(level_files(old_t, ci), files_of(tree_nodes(new))))
            + rooted_at(base, sub_files(old_t.0@[ci])),
        forall|b: int| cj <= b < new.0@.len() ==> seq_lt(sub_key(old_t.0@[ci]), #[trigger] sub_key(new.0@[b])),
{
    let s = old_t.0@[ci];
    let k = sub_key(s);
    let nv = files_of(tree_nodes(new));
    lemma_key_gap(new, cj, k);
    lemma_under_missing(new, k);
    lemma_alone(base, s, nv);
    lemma_level_advance(base, old_t, ci, nv);
    assert(sub_at(old_t, ci) == s);
}

/// The new sub-tree at `cj` stands alone: the old level has no key like
/// its key, so all its files are created and none is modified.
proof fn lemma_new_alone(base: KeyPath, ot: Option<DirTree>, ci: int, new: DirTree, cj: int)
    requires
        ot matches Some(t) ==> tree_wf(t),
        tree_wf(new),
        0 <= ci <= opt_len(ot),
        0 <= cj < new.0@.len(),
        forall|a: int| 0 <= a < ci ==> seq_lt(#[trigger] opt_key(ot, a), sub_key(new.0@[cj])),
        ci < opt_len(ot) ==> seq_lt(sub_key(new.0@[cj]), opt_key(ot, ci)),
    ensures
        rooted_at(base, missing_from(level_files(new, cj + 1), opt_view(ot))) == rooted_at(
            base,
            missing_from(level_files(new, cj), opt_view(ot)),
        ) + rooted_at(base, sub_files(new.0@[cj])),
        rooted_at(base, changed_in(level_files(new, cj + 1), opt_view(ot))) == rooted_at(
            base,
            changed_in(level_files(new, cj), opt_view(ot)),
        ),
        forall|a: int| ci <= a < opt_len(ot) ==> seq_lt(sub_key(new.0@[cj]), #[trigger] opt_key(ot, a)),
{
    let s = new.0@[cj];
    let k = sub_key(s);
    let ov = opt_view(ot);
    match ot {
        Some(t) => {
            assert forall|b: int| 0 <= b < ci implies seq_lt(#[trigger] sub_key(t.0@[b]), k) by {
                assert(opt_key(ot, b) == sub_key(t.0@[b]));
            }
            lemma_key_gap(t, ci, k);
            lemma_under_missing(t, k);
            assert forall|a: int| ci <= a < opt_len(ot) implies seq_lt(k, #[trigger] opt_key(ot, a)) by {
                assert(seq_lt(k, sub_key(t.0@[a])));
            }
        },
        None => {
            assert(under(ov, k) =~= Map::<KeyPath, FileView>::empty());
        },
    }
    lemma_alone(base, s, ov);
    lemma_level_advance(base, new, cj, ov);
    assert(sub_at(new, cj) == s);
    let r = rooted_at(base, changed_in(level_files(new, cj), ov));
    assert(r + Seq::<KeyPath>::empty() =~= r);
}

/// The old sub-tree at `ci` and the new one at `cj` have the same key `k`:
/// what they add to a difference is what lies below `k` on each side,
/// compared with the other side.
proof fn lemma_both(base: KeyPath, old_t: DirTree, ci: int, new: DirTree, cj: int)
    requires
        tree_wf(old_t),
        tree_wf(new),
        0 <= ci < old_t.0@.len(),
        0 <= cj < new.0@.len(),
        sub_key(old_t.0@[ci]) == sub_key(new.0@[cj]),
    ensures
        ({
            let k = sub_key(new.0@[cj]);
            let so = old_t.0@[ci];
            let sn = new.0@[cj];
            let ov = files_of(tree_nodes(old_t));
            let nv = files_of(tree_nodes(new));
            &&& rooted_at(base, missing_from(level_files(new, cj + 1), ov)) == rooted_at(
                base,
                missing_from(level_files(new, cj), ov),
            ) + rooted_at(base.push(k), missing_from(rel_files(sn), sub_view(so)))
            &&& rooted_at(base, changed_in(level_files(new, cj + 1), ov)) == rooted_at(
                base,
                changed_in(level_files(new, cj), ov),
            ) + rooted_at(base.push(k), changed_in(rel_files(sn), sub_view(so)))
            &&& rooted_at(base, missing_from(level_files(old_t, ci + 1), nv)) == rooted_at(
                base,
                missing_from(level_files(old_t, ci), nv),
            ) + rooted_at(base.push(k), missing_from(rel_files(so), sub_view(sn)))
            &&& forall|b: int| cj < b < new.0@.len() ==> seq_lt(k, #[trigger] sub_key(new.0@[b]))
            &&& forall|a: int| ci < a < old_t.0@.len() ==> seq_lt(k, #[trigger] sub_key(old_t.0@[a]))
        }),
{
    let k = sub_key(new.0@[cj]);
    let so = old_t.0@[ci];
    let sn = new.0@[cj];
    let ov = files_of(tree_nodes(old_t));
    let nv = files_of(tree_nodes(new));
    lemma_under_entry(old_t, ci);
    lemma_under_entry(new, cj);
    lemma_entry_contrib(base, sn, ov);
    lemma_entry_contrib(base, so, nv);
    lemma_level_advance(base, new, cj, ov);
    lemma_level_advance(base, old_t, ci, nv);
    assert(sub_at(new, cj) == sn);
    assert(sub_at(old_t, ci) == so);
}

/// Two single files at the same path: neither is missing from the other
/// side, and the new one is changed exactly when the two differ.
proof fn lemma_file_file(fo: FileView, fnew: FileView)
    ensures
        missing_from(
            seq![(Seq::<Seq<char>>::empty(), fnew)],
            Map::<KeyPath, FileView>::empty().insert(Seq::empty(), fo),
        ) == Seq::<FileEntry>::empty(),
        changed_in(
            seq![(Seq::<Seq<char>>::empty(), fnew)],
            Map::<KeyPath, FileView>::empty().insert(Seq::empty(), fo),
        ) == (if file_changed(fo, fnew) {
            seq![(Seq::<Seq<char>>::empty(), fnew)]
        } else {
            Seq::<FileEntry>::empty()
        }),
{
    let fs = seq![(Seq::<Seq<char>>::empty(), fnew)];
    let m = Map::<KeyPath, FileView>::empty().insert(Seq::empty(), fo);
    assert(fs.drop_last() =~= Seq::<FileEntry>::empty());
    assert(missing_from(fs.drop_last(), m) == Seq::<FileEntry>::empty());
    assert(changed_in(fs.drop_last(), m) == Seq::<FileEntry>::empty());
    assert(fs.last() == (Seq::<Seq<char>>::empty(), fnew));
    assert(m.contains_key(fs.last().0));
    assert(m[fs.last().0] == fo);
    assert(Seq::<FileEntry>::empty().push(fs.last()) =~= fs);
}

/// A single file against a tree at the same key: the file is missing from
/// the tree and not changed, and every file of the tree is missing beside
/// the file.
proof fn lemma_file_tree(f: FileView, t: DirTree)
    ensures
        missing_from(seq![(Seq::<Seq<char>>::empty(), f)], files_of(tree_nodes(t))) == seq![
            (Seq::<Seq<char>>::empty(), f),
        ],
        changed_in(seq![(Seq::<Seq<char>>::empty(), f)], files_of(tree_nodes(t)))
            == Seq::<FileEntry>::empty(),
        missing_from(tree_files(t), Map::<KeyPath, FileView>::empty().insert(Seq::empty(), f))
            == tree_files(t),
        changed_in(tree_files(t), Map::<KeyPath, FileView>::empty().insert(Seq::empty(), f))
            == Seq::<FileEntry>::empty(),
{
    let fs = seq![(Seq::<Seq<char>>::empty(), f)];
    lemma_no_empty_path(t);
    lemma_missing_all(fs, files_of(tree_nodes(t)));
    let m = Map::<KeyPath, FileView>::empty().insert(Seq::empty(), f);
    let n: int = t.0.tail@.len() + 1int;
    lemma_level_paths(t, n);
    assert forall|i: int| 0 <= i < tree_files(t).len() implies !m.contains_key(
        #[trigger] tree_files(t)[i].0,
    ) by {
        assert(tree_files(t)[i].0.len() > 0);
    }
    lemma_missing_all(tree_files(t), m);
}

/// Sequence concatenation is associative.
proof fn lemma_assoc(a: Seq<KeyPath>, b: Seq<KeyPath>, c: Seq<KeyPath>)
    ensures
        (a + b) + c == a + (b + c),
{
    assert((a + b) + c =~= a + (b + c));
}

/// The paths of a sub-tree's files behind `base` are those below its key
/// behind `base` and the key.
proof fn lemma_rooted_entry(base: KeyPath, s: DirSub)
    ensures
        rooted_at(base, sub_files(s)) == rooted_at(base.push(sub_key(s)), rel_files(s)),
{
    lemma_sub_files_rel(s);
    lemma_rooted_prefix(base, sub_key(s), rel_files(s));
}

/// A single file at the empty path, behind `base`, has the path `base`.
proof fn lemma_rooted_single(base: KeyPath, f: FileView)
    ensures
        rooted_at(base, seq![(Seq::<Seq<char>>::empty(), f)]) == seq![base],
{
    assert(base + Seq::<Seq<char>>::empty() =~= base);
    assert(rooted_at(base, seq![(Seq::<Seq<char>>::empty(), f)]) =~= seq![base]);
}


/// The files of a listing but its last one list the files of the map but
/// the last one's.
proof fn lemma_lists_drop_last(fs: Seq<FileEntry>, m: DirectoryView)
    requires
        lists_files(fs, m),
        fs.len() > 0,
    ensures
        lists_files(fs.drop_last(), m.remove(fs.last().0)),
        m.contains_key(fs.last().0),
        m[fs.last().0] == fs.last().1,
        m == m.remove(fs.last().0).insert(fs.last().0, fs.last().1),
{
    let init = fs.drop_last();
    let e = fs.last();
    let n = fs.len() - 1;
    let r = m.remove(e.0);
    assert(fs[n] == e);
    assert forall|a: int| 0 <= a < init.len() implies r.contains_key(#[trigger] init[a].0) && r[init[a].0]
        == init[a].1 by {
        assert(init[a] == fs[a]);
        assert(fs[a].0 != fs[n].0);
    }
    assert forall|p: KeyPath| #[trigger] r.contains_key(p) implies exists|a: int|
        0 <= a < init.len() && init[a].0 == p by {
        let a = choose|a: int| 0 <= a < fs.len() && fs[a].0 == p;
        assert(a != n);
        assert(init[a] == fs[a]);
    }
    assert forall|a: int, b: int| 0 <= a < b < init.len() implies #[trigger] init[a].0
        != #[trigger] init[b].0 by {
        assert(init[a] == fs[a] && init[b] == fs[b]);
    }
    assert(m =~= r.insert(e.0, e.1));
}

/// One more file whose path the map lacks.
proof fn lemma_lists_push(fs: Seq<FileEntry>, m: DirectoryView, e: FileEntry)
    requires
        lists_files(fs, m),
        !m.contains_key(e.0),
    ensures
        lists_files(fs.push(e), m.insert(e.0, e.1)),
{
    let g = fs.push(e);
    let mm = m.insert(e.0, e.1);
    let n = fs.len() as int;
    assert forall|a: int| 0 <= a < g.len() implies mm.contains_key(#[trigger] g[a].0) && mm[g[a].0]
        == g[a].1 by {
        if a < n {
            assert(g[a] == fs[a]);
            assert(m.contains_key(fs[a].0));
        }
    }
    assert forall|p: KeyPath| #[trigger] mm.contains_key(p) implies exists|a: int|
        0 <= a < g.len() && g[a].0 == p by {
        if p == e.0 {
            assert(g[n] == e);
        } else {
            let a = choose|a: int| 0 <= a < fs.len() && fs[a].0 == p;
            assert(g[a] == fs[a]);
        }
    }
    assert forall|a: int, b: int| 0 <= a < b < g.len() implies #[trigger] g[a].0 != #[trigger] g[b].0 by {
        assert(g[a] == fs[a]);
        if b < n {
            assert(g[b] == fs[b]);
        } else {
            assert(m.contains_key(fs[a].0));
        }
    }
}

/// Keeping the files of a listing that `other` lacks lists the files of
/// the map that `other` lacks.
proof fn lemma_missing_lists(fs: Seq<FileEntry>, m: DirectoryView, other: DirectoryView)
    requires
        lists_files(fs, m),
    ensures
        lists_files(missing_from(fs, other), m.remove_keys(other.dom())),
    decreases fs.len(),
{
    if fs.len() == 0 {
        assert(m.remove_keys(other.dom()) =~= Map::<KeyPath, FileView>::empty()) by {
            assert forall|p: KeyPath| !m.contains_key(p) by {
                if m.contains_key(p) {
                    let a = choose|a: int| 0 <= a < fs.len() && fs[a].0 == p;
                }
            }
        }
    } else {
        let e = fs.last();
        let r = m.remove(e.0);
        lemma_lists_drop_last(fs, m);
        lemma_missing_lists(fs.drop_last(), r, other);
        if other.contains_key(e.0) {
            assert(m.remove_keys(other.dom()) =~= r.remove_keys(other.dom()));
        } else {
            lemma_lists_push(missing_from(fs.drop_last(), other), r.remove_keys(other.dom()), e);
            assert(m.remove_keys(other.dom()) =~= r.remove_keys(other.dom()).insert(e.0, e.1));
        }
    }
}

/// The files of `m` at which `old` holds a changed file.
pub open spec fn changed_part(m: DirectoryView, old: DirectoryView) -> DirectoryView {
    m.restrict(Set::new(|p: KeyPath| old.contains_key(p) && file_changed(old[p], m[p])))
}

/// Keeping the files of a listing that `old` holds in a changed form lists
/// the changed files of the map.
proof fn lemma_changed_lists(fs: Seq<FileEntry>, m: DirectoryView, old: DirectoryView)
    requires
        lists_files(fs, m),
    ensures
        lists_files(changed_in(fs, old), changed_part(m, old)),
    decreases fs.len(),
{
    if fs.len() == 0 {
        assert(changed_part(m, old) =~= Map::<KeyPath, FileView>::empty()) by {
            assert forall|p: KeyPath| !m.contains_key(p) by {
                if m.contains_key(p) {
                    let a = choose|a: int| 0 <= a < fs.len() && fs[a].0 == p;
                }
            }
        }
    } else {
        let e = fs.last();
        let r = m.remove(e.0);
        lemma_lists_drop_last(fs, m);
        lemma_changed_lists(fs.drop_last(), r, old);
        if old.contains_key(e.0) && file_changed(old[e.0], e.1) {
            lemma_lists_push(changed_in(fs.drop_last(), old), changed_part(r, old), e);
            assert(changed_part(m, old) =~= changed_part(r, old).insert(e.0, e.1));
        } else {
            assert(changed_part(m, old) =~= changed_part(r, old));
        }
    }
}

/// Every file that `missing_from` or `changed_in` keeps is a file of the
/// listing.
proof fn lemma_kept_elems(fs: Seq<FileEntry>, m: DirectoryView)
    ensures
        forall|a: int|
            0 <= a < missing_from(fs, m).len() ==> exists|i: int|
                0 <= i < fs.len() && #[trigger] missing_from(fs, m)[a] == fs[i],
        forall|a: int|
            0 <= a < changed_in(fs, m).len() ==> exists|i: int|
                0 <= i < fs.len() && #[trigger] changed_in(fs, m)[a] == fs[i],
    decreases fs.len(),
{
    if fs.len() > 0 {
        let init = fs.drop_last();
        lemma_kept_elems(init, m);
        let mi = missing_from(init, m);
        let ci = changed_in(init, m);
        assert forall|a: int| 0 <= a < missing_from(fs, m).len() implies exists|i: int|
            0 <= i < fs.len() && #[trigger] missing_from(fs, m)[a] == fs[i] by {
            if a < mi.len() {
                assert(missing_from(fs, m)[a] == mi[a]);
                let i = choose|i: int| 0 <= i < init.len() && mi[a] == init[i];
                assert(init[i] == fs[i]);
            } else {
                assert(missing_from(fs, m)[a] == fs[fs.len() - 1]);
            }
        }
        assert forall|a: int| 0 <= a < changed_in(fs, m).len() implies exists|i: int|
            0 <= i < fs.len() && #[trigger] changed_in(fs, m)[a] == fs[i] by {
            if a < ci.len() {
                assert(changed_in(fs, m)[a] == ci[a]);
                let i = choose|i: int| 0 <= i < init.len() && ci[a] == init[i];
                assert(init[i] == fs[i]);
            } else {
                assert(changed_in(fs, m)[a] == fs[fs.len() - 1]);
            }
        }
    }
}

/// Keeping some files of a listing in order keeps them in order.
proof fn lemma_kept_order(fs: Seq<FileEntry>, m: DirectoryView)
    requires
        in_path_order(fs),
    ensures
        in_path_order(missing_from(fs, m)),
        in_path_order(changed_in(fs, m)),
    decreases fs.len(),
{
    if fs.len() > 0 {
        let init = fs.drop_last();
        let e = fs.last();
        assert(in_path_order(init)) by {
            assert forall|a: int, b: int| 0 <= a < b < init.len() implies path_lt(
                #[trigger] init[a].0,
                #[trigger] init[b].0,
            ) by {
                assert(init[a] == fs[a] && init[b] == fs[b]);
            }
        }
        lemma_kept_order(init, m);
        lemma_kept_elems(init, m);
        let mi = missing_from(init, m);
        let ci = changed_in(init, m);
        assert forall|a: int| 0 <= a < mi.len() implies path_lt(#[trigger] mi[a].0, e.0) by {
            let i = choose|i: int| 0 <= i < init.len() && mi[a] == init[i];
            assert(init[i] == fs[i]);
            assert(fs[fs.len() - 1] == e);
        }
        assert forall|a: int| 0 <= a < ci.len() implies path_lt(#[trigger] ci[a].0, e.0) by {
            let i = choose|i: int| 0 <= i < init.len() && ci[a] == init[i];
            assert(init[i] == fs[i]);
            assert(fs[fs.len() - 1] == e);
        }
        let mf = missing_from(fs, m);
        assert forall|a: int, b: int| 0 <= a < b < mf.len() implies path_lt(#[trigger] mf[a].0, #[trigger] mf[b].0) by {
            if b < mi.len() {
                assert(mf[a] == mi[a] && mf[b] == mi[b]);
            } else {
                assert(mf[a] == mi[a] && mf[b] == e);
            }
        }
        let cf = changed_in(fs, m);
        assert forall|a: int, b: int| 0 <= a < b < cf.len() implies path_lt(#[trigger] cf[a].0, #[trigger] cf[b].0) by {
            if b < ci.len() {
                assert(cf[a] == ci[a] && cf[b] == ci[b]);
            } else {
                assert(cf[a] == ci[a] && cf[b] == e);
            }
        }
    }
}

/// The created files of the difference from `left` to `right` (before the
/// label of `right` is put in front) are the files of `right` whose path
/// `left` lacks, each once; the deleted ones are the files of `left` whose
/// path `right` lacks; the modified ones are the files of `right` that
/// `left` holds with another size or checksum. Each list is in the order
/// of the paths.
pub proof fn lemma_diff_files(left: Directory, right: Directory)
    requires
        left.well_formed(),
        right.well_formed(),
    ensures
        lists_files(missing_from(right.files_in_order(), left@), right@.remove_keys(left@.dom())),
        lists_files(missing_from(left.files_in_order(), right@), left@.remove_keys(right@.dom())),
        lists_files(changed_in(right.files_in_order(), left@), changed_part(right@, left@)),
        in_path_order(missing_from(right.files_in_order(), left@)),
        in_path_order(missing_from(left.files_in_order(), right@)),
        in_path_order(changed_in(right.files_in_order(), left@)),
{
    lemma_files_in_order(left);
    lemma_files_in_order(right);
    lemma_files_sorted(left);
    lemma_files_sorted(right);
    lemma_kept_order(right.files_in_order(), left@);
    lemma_kept_order(left.files_in_order(), right@);
    lemma_missing_lists(right.files_in_order(), right@, left@);
    lemma_missing_lists(left.files_in_order(), left@, right@);
    lemma_changed_lists(right.files_in_order(), right@, left@);
}

/// A path behind `base` is among the paths of a listing of `m` behind
/// `base` exactly when `m` has a file at it, and no path comes twice.
proof fn lemma_rooted_paths(base: KeyPath, fs: Seq<FileEntry>, m: DirectoryView, p: KeyPath)
    requires
        lists_files(fs, m),
    ensures
        rooted_at(base, fs).contains(base + p) <==> m.contains_key(p),
        rooted_at(base, fs).no_duplicates(),
{
    let r = rooted_at(base, fs);
    let n = base.len() as int;
    if m.contains_key(p) {
        let a = choose|a: int| 0 <= a < fs.len() && fs[a].0 == p;
        assert(r[a] == base + p);
    }
    if r.contains(base + p) {
        let a = choose|a: int| 0 <= a < r.len() && r[a] == base + p;
        assert((base + fs[a].0).skip(n) =~= fs[a].0);
        assert((base + p).skip(n) =~= p);
        assert(m.contains_key(fs[a].0));
    }
    assert forall|i: int, j: int| 0 <= i < r.len() && 0 <= j < r.len() && i != j implies r[i] != r[j] by {
        assert((base + fs[i].0).skip(n) =~= fs[i].0);
        assert((base + fs[j].0).skip(n) =~= fs[j].0);
        if i < j {
            assert(fs[i].0 != fs[j].0);
        } else {
            assert(fs[j].0 != fs[i].0);
        }
    }
}

/// The difference from `left` to `right` as sets of paths: behind the label
/// of `right`, a path is created exactly when `right` has a file there and
/// `left` has none, deleted exactly when `left` has one and `right` has
/// none, and modified exactly when both have one and the two differ in size
/// or checksum; no list names a path twice.
pub proof fn lemma_diff_as_sets(left: Directory, right: Directory, d: Diff, p: KeyPath)
    requires
        left.well_formed(),
        right.well_formed(),
        created_paths(d) == rooted_at(
            seq![right.label_view()],
            missing_from(right.files_in_order(), left@),
        ),
        deleted_paths(d) == rooted_at(
            seq![right.label_view()],
            missing_from(left.files_in_order(), right@),
        ),
        modified_paths(d) == rooted_at(
            seq![right.label_view()],
            changed_in(right.files_in_order(), left@),
        ),
    ensures
        created_paths(d).contains(seq![right.label_view()] + p) <==> right@.contains_key(p)
            && !left@.contains_key(p),
        deleted_paths(d).contains(seq![right.label_view()] + p) <==> left@.contains_key(p)
            && !right@.contains_key(p),
        modified_paths(d).contains(seq![right.label_view()] + p) <==> right@.contains_key(p)
            && left@.contains_key(p) && file_changed(left@[p], right@[p]),
        created_paths(d).no_duplicates(),
        deleted_paths(d).no_duplicates(),
        modified_paths(d).no_duplicates(),
{
    let base = seq![right.label_view()];
    lemma_diff_files(left, right);
    lemma_rooted_paths(base, missing_from(right.files_in_order(), left@), right@.remove_keys(left@.dom()), p);
    lemma_rooted_paths(base, missing_from(left.files_in_order(), right@), left@.remove_keys(right@.dom()), p);
    lemma_rooted_paths(base, changed_in(right.files_in_order(), left@), changed_part(right@, left@), p);
}

/// Two directories with the same files differ in nothing: no file is
/// created, deleted or modified.
pub proof fn lemma_same_files_no_diff(left: Directory, right: Directory)
    requires
        left.well_formed(),
        right.well_formed(),
        left@ == right@,
    ensures
        missing_from(right.files_in_order(), left@) == Seq::<FileEntry>::empty(),
        missing_from(left.files_in_order(), right@) == Seq::<FileEntry>::empty(),
        changed_in(right.files_in_order(), left@) == Seq::<FileEntry>::empty(),
{
    lemma_diff_files(left, right);
    let m = right@;
    assert(m.remove_keys(m.dom()) =~= Map::<KeyPath, FileView>::empty());
    assert(changed_part(m, m) =~= Map::<KeyPath, FileView>::empty());
    lemma_lists_empty(missing_from(right.files_in_order(), left@));
    lemma_lists_empty(missing_from(left.files_in_order(), right@));
    lemma_lists_empty(changed_in(right.files_in_order(), left@));
}

/// A listing of no files is empty.
proof fn lemma_lists_empty(fs: Seq<FileEntry>)
    requires
        lists_files(fs, Map::<KeyPath, FileView>::empty()),
    ensures
        fs == Seq::<FileEntry>::empty(),
{
    if fs.len() > 0 {
        assert(Map::<KeyPath, FileView>::empty().contains_key(fs[0].0));
    }
    assert(fs =~= Seq::<FileEntry>::empty());
}

impl Diff {
    /// The empty difference.
    fn new() -> (r: Self)
        ensures
            r.created@.len() == 0,
            r.deleted@.len() == 0,
            r.moved@.len() == 0,
            r.modified@.len() == 0,
    {
        Diff { created: Vec::new(), deleted: Vec::new(), moved: Vec::new(), modified: Vec::new() }
    }

    /// The path `parent_path` followed by `name`.
    fn build_path(name: &Label, parent_path: &Path) -> (r: Path)
        ensures
            r@ == parent_path@.push(name@),
    {
        let mut result_path = parent_path.clone();
        result_path.push(name.clone());
        assert(result_path@ =~= parent_path@.push(name@));
        result_path
    }

    /// The deletion of the file `name` in `parent_path`.
    fn convert_to_deleted(name: &Label, parent_path: &Path) -> (r: DeleteFile)
        ensures
            r.0@ == parent_path@.push(name@),
    {
        DeleteFile(Diff::build_path(name, parent_path))
    }

    /// The creation of the file `name` in `parent_path`.
    fn convert_to_created(name: &Label, parent_path: &Path) -> (r: CreateFile)
        ensures
            r.0@ == parent_path@.push(name@),
    {
        CreateFile(Diff::build_path(name, parent_path))
    }

    /// Record the file `name` in `parent_path` as modified.
    fn add_modified_file(&mut self, name: &Label, parent_path: &Path)
        ensures
            modified_paths(*final(self)) == modified_paths(*old(self)).push(parent_path@.push(name@)),
            final(self).created@ == old(self).created@,
            final(self).deleted@ == old(self).deleted@,
            final(self).moved@ == old(self).moved@,
    {
        self.modified.push(ModifiedFile { path: Diff::build_path(name, parent_path), diff: FileDiff {  } });
        assert(modified_paths(*self) =~= modified_paths(*old(self)).push(parent_path@.push(name@)));
    }

    /// Record the file `name` in `parent_path` as created.
    fn add_created_file(&mut self, name: &Label, parent_path: &Path)
        ensures
            created_paths(*final(self)) == created_paths(*old(self)).push(parent_path@.push(name@)),
            final(self).deleted@ == old(self).deleted@,
            final(self).moved@ == old(self).moved@,
            final(self).modified@ == old(self).modified@,
    {
        self.created.push(Diff::convert_to_created(name, parent_path));
        assert(created_paths(*self) =~= created_paths(*old(self)).push(parent_path@.push(name@)));
    }

    /// Record the file `name` in `parent_path` as deleted.
    fn add_deleted_file(&mut self, name: &Label, parent_path: &Path)
        ensures
            deleted_paths(*final(self)) == deleted_paths(*old(self)).push(parent_path@.push(name@)),
            final(self).created@ == old(self).created@,
            final(self).moved@ == old(self).moved@,
            final(self).modified@ == old(self).modified@,
    {
        self.deleted.push(Diff::convert_to_deleted(name, parent_path));
        assert(deleted_paths(*self) =~= deleted_paths(*old(self)).push(parent_path@.push(name@)));
    }

    /// The files below the entry `entry` of the directory `parent_path`,
    /// each handed to `mapper` with its name and its parent path: the file
    /// itself, or every file below the sub-directory.
    fn collect_files_from_entry<F: Fn(&Label, &Path) -> T + Copy, T>(
        entry: &DirSub,
        parent_path: &mut Path,
        mapper: F,
    ) -> (r: Vec<T>)
        requires
            total_mapper(mapper),
        ensures
            final(parent_path).0@ == old(parent_path).0@,
            r@.len() == sub_files(*entry).len(),
            forall|i: int|
                0 <= i < r@.len() ==> produced_by(
                    mapper,
                    old(parent_path)@ + sub_files(*entry)[i].0,
                    #[trigger] r@[i],
                ),
        decreases *entry, 2nat,
    {
        let ghost base = parent_path@;
        match entry {
            SubTree::Branch { key, forest } => {
                let r = Diff::collect_files(key, forest, parent_path, mapper);
                proof {
                    let fs = tree_files(**forest);
                    assert forall|i: int| 0 <= i < r@.len() implies produced_by(
                        mapper,
                        base + sub_files(*entry)[i].0,
                        #[trigger] r@[i],
                    ) by {
                        assert(sub_files(*entry)[i].0 == seq![key@] + fs[i].0);
                        assert(base + (seq![key@] + fs[i].0) =~= base.push(key@) + fs[i].0);
                    }
                }
                r
            },
            SubTree::Node(e) => {
                let mapped = mapper(&e.0, parent_path);
                proof {
                    assert(sub_files(*entry)[0].0 == seq![e.0@]);
                    assert(base.push(e.0@) =~= base + seq![e.0@]);
                    assert(call_ensures(mapper, (&e.0, &*parent_path), mapped));
                }
                let r = vec![mapped];
                r
            },
        }
    }

    /// The files below the sub-directory `key` (whose entries are `dir`) of
    /// the directory `parent_path`, each handed to `mapper`.
    fn collect_files<F: Fn(&Label, &Path) -> T + Copy, T>(
        key: &Label,
        dir: &DirTree,
        parent_path: &mut Path,
        mapper: F,
    ) -> (r: Vec<T>)
        requires
            total_mapper(mapper),
        ensures
            final(parent_path).0@ == old(parent_path).0@,
            r@.len() == tree_files(*dir).len(),
            forall|i: int|
                0 <= i < r@.len() ==> produced_by(
                    mapper,
                    old(parent_path)@.push(key@) + tree_files(*dir)[i].0,
                    #[trigger] r@[i],
                ),
        decreases *dir, 1nat,
    {
        let ghost base = parent_path@;
        let mut files: Vec<T> = Vec::new();
        Diff::collect_files_inner(key, dir, parent_path, mapper, &mut files);
        assert forall|i: int| 0 <= i < files@.len() implies produced_by(
            mapper,
            base.push(key@) + tree_files(*dir)[i].0,
            #[trigger] files@[i],
        ) by {
            assert(files@[0 + i] == files@[i]);
        }
        files
    }

    /// Append to `files` the files below the sub-directory `key` (whose
    /// entries are `dir`) of the directory `parent_path`, each handed to
    /// `mapper`.
    fn collect_files_inner<F: Fn(&Label, &Path) -> T + Copy, T>(
        key: &Label,
        dir: &DirTree,
        parent_path: &mut Path,
        mapper: F,
        files: &mut Vec<T>,
    )
        requires
            total_mapper(mapper),
        ensures
            final(parent_path).0@ == old(parent_path).0@,
            final(files)@.len() == old(files)@.len() + tree_files(*dir).len(),
            forall|i: int| 0 <= i < old(files)@.len() ==> final(files)@[i] == old(files)@[i],
            forall|i: int|
                0 <= i < tree_files(*dir).len() ==> produced_by(
                    mapper,
                    old(parent_path)@.push(key@) + tree_files(*dir)[i].0,
                    #[trigger] final(files)@[old(files)@.len() + i],
                ),
        decreases *dir, 0nat,
    {
        let ghost base = parent_path@;
        let ghost base0 = parent_path.0@;
        let ghost l0 = files@.len();
        let ghost old_files = files@;
        parent_path.push(key.clone());
        let ghost inner = parent_path@;
        let ghost inner0 = parent_path.0@;
        proof {
            assert(inner =~= base.push(key@));
            crate::file_system::directory::listing::lemma_level_step(*dir, 0);
            assert(level_files(*dir, 0) + sub_files(dir.0.head) =~= sub_files(dir.0.head));
        }
        let mut first = Diff::collect_files_from_entry(&dir.0.head, parent_path, mapper);
        files.append(&mut first);
        let mut i: usize = 0;
        while i < dir.0.tail.len()
            invariant
                total_mapper(mapper),
                parent_path.0@ == inner0,
                inner0 == base0.push(*key),
                inner == base.push(key@),
                parent_path@ == inner,
                i <= dir.0.tail@.len(),
                files@.len() == l0 + level_files(*dir, i + 1).len(),
                forall|a: int| 0 <= a < l0 ==> files@[a] == old_files[a],
                forall|a: int|
                    0 <= a < level_files(*dir, i + 1).len() ==> produced_by(
                        mapper,
                        inner + level_files(*dir, i + 1)[a].0,
                        #[trigger] files@[l0 + a],
                    ),
            decreases dir.0.tail@.len() - i,
        {
            let ghost before = files@;
            let mut more = Diff::collect_files_from_entry(&dir.0.tail[i], parent_path, mapper);
            let ghost added = more@;
            files.append(&mut more);
            proof {
                crate::file_system::directory::listing::lemma_level_step(*dir, i + 1);
                assert(sub_at(*dir, i + 1) == dir.0.tail@[i as int]);
                let prev = level_files(*dir, i + 1);
                let next = level_files(*dir, i + 2);
                assert(next == prev + sub_files(dir.0.tail@[i as int]));
                assert forall|a: int| 0 <= a < next.len() implies produced_by(
                    mapper,
                    inner + next[a].0,
                    #[trigger] files@[l0 + a],
                ) by {
                    if a < prev.len() {
                        assert(files@[l0 + a] == before[l0 + a]);
                        assert(next[a] == prev[a]);
                    } else {
                        assert(files@[l0 + a] == added[a - prev.len()]);
                        assert(next[a] == sub_files(dir.0.tail@[i as int])[a - prev.len()]);
                    }
                }
            }
            i = i + 1;
        }
        parent_path.pop();
        proof {
            assert(parent_path.0@ =~= base0);
        }
    }

    /// The difference from the directory `left` to the directory `right`:
    /// the files that only `right` has are created, those that only `left`
    /// has are deleted, and those that both have, with a different size or
    /// checksum, are modified. Every path starts with the label of `right`,
    /// and each list follows the order of the paths. Moves are not detected
    /// yet, and no difference fails.
    pub fn diff(left: Directory, right: Directory) -> (r: Result<Diff, DiffError>)
        ensures
            r matches Ok(d) && created_paths(d) == rooted_at(
                seq![right.label_view()],
                missing_from(right.files_in_order(), left@),
            ) && deleted_paths(d) == rooted_at(
                seq![right.label_view()],
                missing_from(left.files_in_order(), right@),
            ) && modified_paths(d) == rooted_at(
                seq![right.label_view()],
                changed_in(right.files_in_order(), left@),
            ) && d.moved@.len() == 0,
    {
        let mut diff = Diff::new();
        let mut path = Path::new(right.current());
        let ghost base = path@;
        proof {
            assert(base =~= seq![right.label_view()]);
            assert(created_paths(diff) =~= Seq::<KeyPath>::empty());
            assert(deleted_paths(diff) =~= Seq::<KeyPath>::empty());
            assert(modified_paths(diff) =~= Seq::<KeyPath>::empty());
        }
        match right.entries() {
            Some(new_tree) => {
                let left_entries = left.entries();
                let old_tree = left_entries.as_ref();
                Diff::collect_diff(old_tree, new_tree, &mut path, &mut diff);
                proof {
                    assert(opt_tree(old_tree) == *left_entries);
                    let e = Seq::<KeyPath>::empty();
                    assert(e + rooted_at(base, missing_from(tree_files(*new_tree), left@))
                        =~= rooted_at(base, missing_from(tree_files(*new_tree), left@)));
                    assert(e + rooted_at(base, missing_from(left.files_in_order(), right@))
                        =~= rooted_at(base, missing_from(left.files_in_order(), right@)));
                    assert(e + rooted_at(base, changed_in(tree_files(*new_tree), left@))
                        =~= rooted_at(base, changed_in(tree_files(*new_tree), left@)));
                }
            },
            None => {
                proof {
                    assert(rooted_at(base, Seq::<FileEntry>::empty()) =~= Seq::<KeyPath>::empty());
                }
                match left.entries() {
                    Some(old_tree) => {
                        let ghost m = right@;
                        proof {
                            assert(m =~= Map::<KeyPath, FileView>::empty());
                            lemma_missing_all(tree_files(*old_tree), m);
                            crate::file_system::directory::listing::lemma_level_step(*old_tree, 0);
                            assert(level_files(*old_tree, 0) + sub_files(old_tree.0.head) =~= sub_files(old_tree.0.head));
                        }
                        diff.add_deleted_files(&old_tree.0.head, &mut path);
                        proof {
                            assert(deleted_paths(diff) =~= rooted_at(base, level_files(*old_tree, 1)));
                        }
                        let mut i: usize = 0;
                        while i < old_tree.0.tail.len()
                            invariant
                                i <= old_tree.0.tail@.len(),
                                path@ == base,
                                deleted_paths(diff) == rooted_at(base, level_files(*old_tree, i + 1)),
                                created_paths(diff) == Seq::<KeyPath>::empty(),
                                modified_paths(diff) == Seq::<KeyPath>::empty(),
                                diff.moved@.len() == 0,
                            decreases old_tree.0.tail@.len() - i,
                        {
                            proof {
                                crate::file_system::directory::listing::lemma_level_step(*old_tree, i + 1);
                                assert(sub_at(*old_tree, i + 1) == old_tree.0.tail@[i as int]);
                                lemma_rooted_add(
                                    base,
                                    level_files(*old_tree, i + 1),
                                    sub_files(old_tree.0.tail@[i as int]),
                                );
                            }
                            diff.add_deleted_files(&old_tree.0.tail[i], &mut path);
                            i = i + 1;
                        }
                        proof {
                            assert(level_files(*old_tree, i + 1) == tree_files(*old_tree));
                        }
                    },
                    None => {},
                }
            },
        }
        Ok(diff)
    }

    /// Walk the entries of the old level `old_dir` and of the new level `new_dir`
    /// of the directory `parent_path` side by side, in order of their keys,
    /// and record what was created, deleted and modified below them.
    fn collect_diff(old_dir: Option<&DirTree>, new_dir: &DirTree, parent_path: &mut Path, diff: &mut Diff)
        requires
            old_dir matches Some(t) ==> tree_wf(*t),
            tree_wf(*new_dir),
        ensures
            final(parent_path).0@ == old(parent_path).0@,
            created_paths(*final(diff)) == created_paths(*old(diff)) + rooted_at(
                old(parent_path)@,
                missing_from(tree_files(*new_dir), opt_view(opt_tree(old_dir))),
            ),
            deleted_paths(*final(diff)) == deleted_paths(*old(diff)) + rooted_at(
                old(parent_path)@,
                missing_from(opt_listing(opt_tree(old_dir)), files_of(tree_nodes(*new_dir))),
            ),
            modified_paths(*final(diff)) == modified_paths(*old(diff)) + rooted_at(
                old(parent_path)@,
                changed_in(tree_files(*new_dir), opt_view(opt_tree(old_dir))),
            ),
            final(diff).moved@ == old(diff).moved@,
        decreases *new_dir, 1nat,
    {
        let ghost p0 = parent_path.0@;
        let ghost base = parent_path@;
        let ghost ot = opt_tree(old_dir);
        let ghost ov = opt_view(ot);
        let ghost nv = files_of(tree_nodes(*new_dir));
        let ghost c0 = created_paths(*diff);
        let ghost d0 = deleted_paths(*diff);
        let ghost m0 = modified_paths(*diff);
        let ghost mv0 = diff.moved@;
        let ghost nn: int = new_dir.0@.len() as int;
        let ghost no: int = opt_len(ot);
        let new_tail = new_dir.0.tail.len();
        let old_tail: usize = match old_dir {
            Some(t) => t.0.tail.len(),
            None => 0,
        };
        let mut j: usize = 0;
        let mut new_done = false;
        let mut i: usize = 0;
        let mut old_done = old_dir.is_none();
        proof {
            assert(c0 + rooted_at(base, missing_from(level_files(*new_dir, 0), ov)) =~= c0);
            assert(m0 + rooted_at(base, changed_in(level_files(*new_dir, 0), ov)) =~= m0);
            assert(d0 + rooted_at(base, missing_from(opt_level(ot, walked(old_done, i, no)), nv))
                =~= d0);
        }
        while !(old_done && new_done)
            invariant
                tree_wf(*new_dir),
                ot matches Some(t) ==> tree_wf(t),
                ot == opt_tree(old_dir),
                ov == opt_view(ot),
                nv == files_of(tree_nodes(*new_dir)),
                nn == new_dir.0@.len(),
                no == opt_len(ot),
                new_tail == new_dir.0.tail@.len(),
                ot matches Some(t) ==> old_tail == t.0.tail@.len(),
                ot is None ==> old_done,
                !new_done ==> j <= new_tail,
                !old_done ==> i <= old_tail,
                parent_path.0@ == p0,
                parent_path@ == base,
                created_paths(*diff) == c0 + rooted_at(
                    base,
                    missing_from(level_files(*new_dir, walked(new_done, j, nn)), ov),
                ),
                modified_paths(*diff) == m0 + rooted_at(
                    base,
                    changed_in(level_files(*new_dir, walked(new_done, j, nn)), ov),
                ),
                deleted_paths(*diff) == d0 + rooted_at(
                    base,
                    missing_from(opt_level(ot, walked(old_done, i, no)), nv),
                ),
                diff.moved@ == mv0,
                forall|a: int, b: int|
                    #![trigger opt_key(ot, a), sub_key(new_dir.0@[b])]
                    0 <= a < walked(old_done, i, no) && walked(new_done, j, nn) <= b < nn ==> seq_lt(
                        opt_key(ot, a),
                        sub_key(new_dir.0@[b]),
                    ),
                forall|a: int, b: int|
                    #![trigger opt_key(ot, a), sub_key(new_dir.0@[b])]
                    0 <= b < walked(new_done, j, nn) && walked(old_done, i, no) <= a < no ==> seq_lt(
                        sub_key(new_dir.0@[b]),
                        opt_key(ot, a),
                    ),
            decreases (no - walked(old_done, i, no)) + (nn - walked(new_done, j, nn)),
        {
            let ghost ci = walked(old_done, i, no);
            let ghost cj = walked(new_done, j, nn);
            if !old_done && !new_done {
                let old_tree = old_dir.unwrap();
                let old_entry = old_tree.0.get(i);
                let new_entry = new_dir.0.get(j);
                let ghost ko = sub_key(*old_entry);
                let ghost kn = sub_key(*new_entry);
                let new_key_ref = new_entry.key();
                let old_key_ref = old_entry.key();
                proof {
                    assert(opt_key(ot, ci) == ko);
                    assert(new_key_ref@ == kn);
                    assert(old_key_ref@ == ko);
                    crate::strings::lemma_lt_total(kn, ko);
                }
                match new_key_ref.compare_key(old_key_ref) {
                    KeyOrder::Greater => {
                        proof {
                            assert(seq_lt(ko, kn));
                            assert forall|b: int| 0 <= b < cj implies seq_lt(
                                #[trigger] sub_key(new_dir.0@[b]),
                                ko,
                            ) by {
                                assert(opt_key(ot, ci) == ko);
                            }
                            lemma_old_alone(base, *old_tree, ci, *new_dir, cj);
                            lemma_assoc(d0, rooted_at(base, missing_from(opt_level(ot, ci), nv)), rooted_at(base, sub_files(*old_entry)));
                            assert(opt_level(ot, ci + 1) == level_files(*old_tree, ci + 1));
                            assert(opt_level(ot, ci) == level_files(*old_tree, ci));
                        }
                        diff.add_deleted_files(old_entry, parent_path);
                        proof {
                            assert forall|a: int, b: int|
                                0 <= a < ci + 1 && cj <= b < nn implies #[trigger] seq_lt(
                                opt_key(ot, a),
                                sub_key(new_dir.0@[b]),
                            ) by {
                                if a == ci {
                                    assert(opt_key(ot, a) == ko);
                                }
                            }
                        }
                        if i < old_tail {
                            i = i + 1;
                        } else {
                            old_done = true;
                        }
                    },
                    KeyOrder::Less => {
                        proof {
                            assert(seq_lt(kn, ko));
                            lemma_new_alone(base, ot, ci, *new_dir, cj);
                            lemma_assoc(c0, rooted_at(base, missing_from(level_files(*new_dir, cj), ov)), rooted_at(base, sub_files(*new_entry)));
                        }
                        diff.add_created_files(new_entry, parent_path);
                        proof {
                            assert forall|a: int, b: int|
                                0 <= b < cj + 1 && ci <= a < no implies #[trigger] seq_lt(
                                sub_key(new_dir.0@[b]),
                                opt_key(ot, a),
                            ) by {}
                        }
                        if j < new_tail {
                            j = j + 1;
                        } else {
                            new_done = true;
                        }
                    },
                    KeyOrder::Equal => {
                        let ghost k = kn;
                        proof {
                            lemma_both(base, *old_tree, ci, *new_dir, cj);
                            crate::tree::lemma_wf_sub(*new_dir, cj);
                            crate::tree::lemma_wf_sub(*old_tree, ci);
                            let xc = rooted_at(base, missing_from(level_files(*new_dir, cj), ov));
                            let xm = rooted_at(base, changed_in(level_files(*new_dir, cj), ov));
                            let xd = rooted_at(base, missing_from(opt_level(ot, ci), nv));
                            lemma_assoc(c0, xc, rooted_at(base.push(k), missing_from(rel_files(*new_entry), sub_view(*old_entry))));
                            lemma_assoc(m0, xm, rooted_at(base.push(k), changed_in(rel_files(*new_entry), sub_view(*old_entry))));
                            lemma_assoc(d0, xd, rooted_at(base.push(k), missing_from(rel_files(*old_entry), sub_view(*new_entry))));
                            assert(opt_level(ot, ci + 1) == level_files(*old_tree, ci + 1));
                            assert(opt_level(ot, ci) == level_files(*old_tree, ci));
                        }
                        Diff::collect_entry_diff(old_entry, new_entry, parent_path, diff, Ghost(*new_dir));
                        proof {
                            assert forall|a: int, b: int|
                                0 <= a < ci + 1 && cj + 1 <= b < nn implies #[trigger] seq_lt(
                                opt_key(ot, a),
                                sub_key(new_dir.0@[b]),
                            ) by {
                                if a == ci {
                                    assert(opt_key(ot, a) == k);
                                }
                            }
                            assert forall|a: int, b: int|
                                0 <= b < cj + 1 && ci + 1 <= a < no implies #[trigger] seq_lt(
                                sub_key(new_dir.0@[b]),
                                opt_key(ot, a),
                            ) by {
                                assert(opt_key(ot, a) == sub_key(old_tree.0@[a]));
                            }
                        }
                        if i < old_tail {
                            i = i + 1;
                        } else {
                            old_done = true;
                        }
                        if j < new_tail {
                            j = j + 1;
                        } else {
                            new_done = true;
                        }
                    },
                }
            } else if !old_done {
                let old_tree = old_dir.unwrap();
                let old_entry = old_tree.0.get(i);
                proof {
                    assert forall|b: int| 0 <= b < cj implies seq_lt(
                        #[trigger] sub_key(new_dir.0@[b]),
                        sub_key(*old_entry),
                    ) by {
                        assert(opt_key(ot, ci) == sub_key(*old_entry));
                    }
                    lemma_old_alone(base, *old_tree, ci, *new_dir, cj);
                    lemma_assoc(d0, rooted_at(base, missing_from(opt_level(ot, ci), nv)), rooted_at(base, sub_files(*old_entry)));
                    assert(opt_level(ot, ci + 1) == level_files(*old_tree, ci + 1));
                    assert(opt_level(ot, ci) == level_files(*old_tree, ci));
                }
                diff.add_deleted_files(old_entry, parent_path);
                if i < old_tail {
                    i = i + 1;
                } else {
                    old_done = true;
                }
            } else {
                let new_entry = new_dir.0.get(j);
                proof {
                    lemma_new_alone(base, ot, ci, *new_dir, cj);
                    lemma_assoc(c0, rooted_at(base, missing_from(level_files(*new_dir, cj), ov)), rooted_at(base, sub_files(*new_entry)));
                }
                diff.add_created_files(new_entry, parent_path);
                if j < new_tail {
                    j = j + 1;
                } else {
                    new_done = true;
                }
            }
        }
        proof {
            assert(walked(new_done, j, nn) == nn);
            assert(level_files(*new_dir, nn) == tree_files(*new_dir));
            match ot {
                Some(t) => {
                    assert(opt_level(ot, no) == tree_files(t));
                },
                None => {},
            }
        }
    }

    /// Compare an old and a new entry of the directory `parent_path` that
    /// have the same key, and record what was created, deleted and
    /// modified below it. `parent` is the new level the new entry belongs
    /// to.
    fn collect_entry_diff(
        old_entry: &DirSub,
        new_entry: &DirSub,
        parent_path: &mut Path,
        diff: &mut Diff,
        parent: Ghost<DirTree>,
    )
        requires
            crate::tree::sub_wf(*old_entry),
            crate::tree::sub_wf(*new_entry),
            sub_key(*old_entry) == sub_key(*new_entry),
            decreases_to!(parent@ => *new_entry),
        ensures
            final(parent_path).0@ == old(parent_path).0@,
            created_paths(*final(diff)) == created_paths(*old(diff)) + rooted_at(
                old(parent_path)@.push(sub_key(*new_entry)),
                missing_from(rel_files(*new_entry), sub_view(*old_entry)),
            ),
            deleted_paths(*final(diff)) == deleted_paths(*old(diff)) + rooted_at(
                old(parent_path)@.push(sub_key(*new_entry)),
                missing_from(rel_files(*old_entry), sub_view(*new_entry)),
            ),
            modified_paths(*final(diff)) == modified_paths(*old(diff)) + rooted_at(
                old(parent_path)@.push(sub_key(*new_entry)),
                changed_in(rel_files(*new_entry), sub_view(*old_entry)),
            ),
            final(diff).moved@ == old(diff).moved@,
        decreases parent@, 0nat,
    {
        let ghost base = parent_path@;
        let ghost p0 = parent_path.0@;
        let ghost k = sub_key(*new_entry);
        let ghost c0 = created_paths(*diff);
        let ghost d0 = deleted_paths(*diff);
        let ghost m0 = modified_paths(*diff);
        let ghost bk = base.push(k);
        let ghost empty_paths = Seq::<KeyPath>::empty();
        proof {
            assert(c0 + empty_paths =~= c0);
            assert(d0 + empty_paths =~= d0);
            assert(m0 + empty_paths =~= m0);
            assert(rooted_at(bk, Seq::<FileEntry>::empty()) =~= empty_paths);
        }
        match (new_entry, old_entry) {
            (SubTree::Node(new_file), SubTree::Node(old_file)) => {
                proof {
                    lemma_file_file(old_file.1@, new_file.1@);
                    lemma_file_file(new_file.1@, old_file.1@);
                    lemma_rooted_single(bk, new_file.1@);
                }
                if old_file.1.size() != new_file.1.size() || old_file.1.checksum()
                    != new_file.1.checksum() {
                    diff.add_modified_file(&new_file.0, parent_path);
                    proof {
                        assert(m0.push(bk) =~= m0 + seq![bk]);
                    }
                }
            },
            (SubTree::Node(new_file), SubTree::Branch { forest: old_forest, .. }) => {
                proof {
                    lemma_file_tree(new_file.1@, **old_forest);
                    lemma_rooted_single(bk, new_file.1@);
                    lemma_rooted_entry(base, *old_entry);
                    assert(c0.push(bk) =~= c0 + seq![bk]);
                }
                diff.add_created_file(&new_file.0, parent_path);
                diff.add_deleted_files(old_entry, parent_path);
            },
            (SubTree::Branch { forest: new_forest, .. }, SubTree::Node(old_file)) => {
                proof {
                    lemma_file_tree(old_file.1@, **new_forest);
                    lemma_rooted_single(bk, old_file.1@);
                    lemma_rooted_entry(base, *new_entry);
                    assert(d0.push(bk) =~= d0 + seq![bk]);
                }
                diff.add_created_files(new_entry, parent_path);
                diff.add_deleted_file(&old_file.0, parent_path);
            },
            (
                SubTree::Branch { key: new_key, forest: new_forest },
                SubTree::Branch { forest: old_forest, .. },
            ) => {
                parent_path.push(new_key.clone());
                proof {
                    assert(parent_path@ =~= bk);
                }
                Diff::collect_diff(Some(&**old_forest), &**new_forest, parent_path, diff);
                parent_path.pop();
                proof {
                    assert(parent_path.0@ =~= p0);
                }
            },
        }
    }

    /// Record every file below `dc` in `parent_path` as created.
    fn add_created_files(&mut self, dc: &DirSub, parent_path: &mut Path)
        ensures
            final(parent_path).0@ == old(parent_path).0@,
            created_paths(*final(self)) == created_paths(*old(self)) + rooted_at(
                old(parent_path)@,
                sub_files(*dc),
            ),
            final(self).deleted@ == old(self).deleted@,
            final(self).moved@ == old(self).moved@,
            final(self).modified@ == old(self).modified@,
    {
        let ghost base = parent_path@;
        let mut new_files: Vec<CreateFile> = Diff::collect_files_from_entry(
            dc,
            parent_path,
            Diff::convert_to_created,
        );
        proof {
            assert forall|i: int| 0 <= i < new_files@.len() implies (#[trigger] new_files@[i]).0@
                == base + sub_files(*dc)[i].0 by {
                let (n, p) = choose|n: Label, p: Path|
                    p@.push(n@) == base + sub_files(*dc)[i].0 && #[trigger] call_ensures(
                        Diff::convert_to_created,
                        (&n, &p),
                        new_files@[i],
                    );
            }
        }
        let ghost added = new_files@;
        self.created.append(&mut new_files);
        assert(created_paths(*self) =~= created_paths(*old(self)) + rooted_at(base, sub_files(*dc))) by {
            assert forall|i: int| 0 <= i < added.len() implies #[trigger] added[i].0@
                == rooted_at(base, sub_files(*dc))[i] by {}
        }
    }

    /// Record every file below `dc` in `parent_path` as deleted.
    fn add_deleted_files(&mut self, dc: &DirSub, parent_path: &mut Path)
        ensures
            final(parent_path).0@ == old(parent_path).0@,
            deleted_paths(*final(self)) == deleted_paths(*old(self)) + rooted_at(
                old(parent_path)@,
                sub_files(*dc),
            ),
            final(self).created@ == old(self).created@,
            final(self).moved@ == old(self).moved@,
            final(self).modified@ == old(self).modified@,
    {
        let ghost base = parent_path@;
        let mut new_files: Vec<DeleteFile> = Diff::collect_files_from_entry(
            dc,
            parent_path,
            Diff::convert_to_deleted,
        );
        proof {
            assert forall|i: int| 0 <= i < new_files@.len() implies (#[trigger] new_files@[i]).0@
                == base + sub_files(*dc)[i].0 by {
                let (n, p) = choose|n: Label, p: Path|
                    p@.push(n@) == base + sub_files(*dc)[i].0 && #[trigger] call_ensures(
                        Diff::convert_to_deleted,
                        (&n, &p),
                        new_files@[i],
                    );
            }
        }
        let ghost added = new_files@;
        self.deleted.append(&mut new_files);
        assert(deleted_paths(*self) =~= deleted_paths(*old(self)) + rooted_at(base, sub_files(*dc))) by {
            assert forall|i: int| 0 <= i < added.len() implies #[trigger] added[i].0@
                == rooted_at(base, sub_files(*dc))[i] by {}
        }
    }
}

} // verus!
