//! The files of a directory tree listed in the order of their paths, and
//! what the listing says of the tree.
use vstd::prelude::*;

use super::{files_of, DirSub, DirTree, DirectoryView, File, FileView};
use crate::file_system::path::Label;
use crate::tree::{tree_node_at, tree_wf, KeyPath, SubTree};

verus! {

/// A file of a listing: its path and its meaning.
pub type FileEntry = (KeyPath, FileView);

/// The listing `fs` with the key `k` put in front of every path.
pub open spec fn prefix_files(k: Seq<char>, fs: Seq<FileEntry>) -> Seq<FileEntry> {
    fs.map_values(|e: FileEntry| (seq![k] + e.0, e.1))
}

/// The sub-tree at index `i` of `t`.
pub open spec fn sub_at(t: DirTree, i: int) -> DirSub {
    if i == 0 {
        t.0.head
    } else {
        t.0.tail@[i - 1]
    }
}

/// The files below the sub-tree `s`, in order, by their path from the
/// level where `s` stands.
pub open spec fn sub_files(s: DirSub) -> Seq<FileEntry>
    decreases s, 0int,
{
    match s {
        SubTree::Node(e) => seq![(seq![e.0@], e.1@)],
        SubTree::Branch { key, forest } => prefix_files(
            key@,
            level_files(*forest, forest.0.tail@.len() + 1int),
        ),
    }
}

/// The files below the first `n` sub-trees of `t`, in order.
pub open spec fn level_files(t: DirTree, n: int) -> Seq<FileEntry>
    decreases t, n,
{
    if n <= 0 {
        Seq::empty()
    } else if n == 1 {
        sub_files(t.0.head)
    } else if n - 2 < t.0.tail@.len() {
        level_files(t, n - 1) + sub_files(t.0.tail@[n - 2])
    } else {
        level_files(t, n - 1)
    }
}

/// The files of the tree `t`, in order.
pub open spec fn tree_files(t: DirTree) -> Seq<FileEntry> {
    level_files(t, t.0.tail@.len() + 1int)
}

/// The total size of the files of a listing.
pub open spec fn sizes_sum(fs: Seq<FileEntry>) -> nat
    decreases fs.len(),
{
    if fs.len() == 0 {
        0
    } else {
        sizes_sum(fs.drop_last()) + fs.last().1.1 as nat
    }
}

/// One more sub-tree adds its files to the listing of a level.
pub proof fn lemma_level_step(t: DirTree, n: int)
    requires
        0 <= n < t.0@.len(),
    ensures
        level_files(t, n + 1) == level_files(t, n) + sub_files(sub_at(t, n)),
{
    if n == 0 {
        assert(level_files(t, 0) + sub_files(t.0.head) =~= sub_files(t.0.head));
    }
}

/// The size of two listings together.
proof fn lemma_sizes_add(a: Seq<FileEntry>, b: Seq<FileEntry>)
    ensures
        sizes_sum(a + b) == sizes_sum(a) + sizes_sum(b),
    decreases b.len(),
{
    if b.len() == 0 {
        assert(a + b =~= a);
    } else {
        lemma_sizes_add(a, b.drop_last());
        assert((a + b).drop_last() =~= a + b.drop_last());
    }
}

/// Putting a key in front of the paths keeps the sizes.
proof fn lemma_sizes_prefix(k: Seq<char>, fs: Seq<FileEntry>)
    ensures
        sizes_sum(prefix_files(k, fs)) == sizes_sum(fs),
    decreases fs.len(),
{
    if fs.len() > 0 {
        lemma_sizes_prefix(k, fs.drop_last());
        assert(prefix_files(k, fs).drop_last() =~= prefix_files(k, fs.drop_last()));
    }
}

/// The size of the files of a sub-tree.
fn size_sub(s: &DirSub, parent: Ghost<DirTree>) -> (r: usize)
    requires
        decreases_to!(parent@ => *s),
        sizes_sum(sub_files(*s)) <= usize::MAX,
    ensures
        r == sizes_sum(sub_files(*s)),
    decreases parent@, 0nat,
{
    match s {
        SubTree::Node(entry) => {
            proof {
                let fs = sub_files(*s);
                assert(fs.drop_last() =~= Seq::<FileEntry>::empty());
                assert(sizes_sum(fs.drop_last()) == 0);
                assert(fs.last().1 == entry.1@);
            }
            entry.1.size
        },
        SubTree::Branch { key, forest } => {
            proof {
                lemma_sizes_prefix(key@, tree_files(**forest));
            }
            size_tree(forest)
        },
    }
}

/// The size of the files of a tree.
pub(crate) fn size_tree(t: &DirTree) -> (r: usize)
    requires
        sizes_sum(tree_files(*t)) <= usize::MAX,
    ensures
        r == sizes_sum(tree_files(*t)),
    decreases *t, 1nat,
{
    let ghost n: int = t.0.tail@.len() + 1int;
    proof {
        lemma_level_step(*t, 0);
        lemma_level_prefix_size(*t, 1, n);
        assert(level_files(*t, 0) + sub_files(t.0.head) =~= sub_files(t.0.head));
    }
    let mut acc: usize = size_sub(&t.0.head, Ghost(*t));
    let mut i: usize = 0;
    while i < t.0.tail.len()
        invariant
            n == t.0.tail@.len() + 1,
            i <= t.0.tail@.len(),
            acc == sizes_sum(level_files(*t, i + 1)),
            sizes_sum(tree_files(*t)) <= usize::MAX,
        decreases t.0.tail@.len() - i,
    {
        proof {
            lemma_level_step(*t, i + 1);
            lemma_sizes_add(level_files(*t, i + 1), sub_files(t.0.tail@[i as int]));
            lemma_level_prefix_size(*t, i + 2, n);
        }
        let more = size_sub(&t.0.tail[i], Ghost(*t));
        acc = acc + more;
        i = i + 1;
    }
    acc
}

/// The files of a prefix of a level weigh no more than those of a longer
/// one.
proof fn lemma_level_prefix_size(t: DirTree, n: int, m: int)
    requires
        0 <= n <= m <= t.0@.len(),
    ensures
        sizes_sum(level_files(t, n)) <= sizes_sum(level_files(t, m)),
    decreases m - n,
{
    if n < m {
        lemma_level_prefix_size(t, n, m - 1);
        lemma_level_step(t, m - 1);
        lemma_sizes_add(level_files(t, m - 1), sub_files(sub_at(t, m - 1)));
    }
}

/// The files of `m` below the label `k`, by their path below it.
pub open spec fn under(m: DirectoryView, k: Seq<char>) -> DirectoryView {
    Map::new(|q: KeyPath| m.contains_key(seq![k] + q), |q: KeyPath| m[seq![k] + q])
}

/// The files below a sub-tree, by their path below its key: the node's
/// file at the empty path, or the files of the branch's tree.
pub open spec fn sub_view(s: DirSub) -> DirectoryView {
    match s {
        SubTree::Node(e) => Map::<KeyPath, FileView>::empty().insert(Seq::empty(), e.1@),
        SubTree::Branch { forest, .. } => files_of(crate::tree::tree_nodes(*forest)),
    }
}

/// The files below a sub-tree, in order, by their path below its key.
pub open spec fn rel_files(s: DirSub) -> Seq<FileEntry> {
    match s {
        SubTree::Node(e) => seq![(Seq::<Seq<char>>::empty(), e.1@)],
        SubTree::Branch { forest, .. } => tree_files(*forest),
    }
}

/// The files of a possibly empty tree, by path.
pub open spec fn opt_view(o: Option<DirTree>) -> DirectoryView {
    match o {
        None => Map::empty(),
        Some(t) => files_of(crate::tree::tree_nodes(t)),
    }
}

/// The files of a possibly empty tree, in order.
pub open spec fn opt_listing(o: Option<DirTree>) -> Seq<FileEntry> {
    match o {
        None => Seq::empty(),
        Some(t) => tree_files(t),
    }
}

/// The files below a sub-tree are those below its key, with the key in
/// front.
pub proof fn lemma_sub_files_rel(s: DirSub)
    ensures
        sub_files(s) == prefix_files(crate::tree::sub_key(s), rel_files(s)),
{
    match s {
        SubTree::Node(e) => {
            let k = crate::tree::sub_key(s);
            assert(seq![k] + Seq::<Seq<char>>::empty() =~= seq![e.0@]);
            assert(prefix_files(k, rel_files(s)) =~= sub_files(s));
        },
        SubTree::Branch { .. } => {},
    }
}

/// Below the key of a sub-tree of a well-formed tree lie exactly the files
/// of that sub-tree.
pub proof fn lemma_under_entry(t: DirTree, i: int)
    requires
        tree_wf(t),
        0 <= i < t.0@.len(),
    ensures
        under(files_of(crate::tree::tree_nodes(t)), crate::tree::sub_key(t.0@[i])) == sub_view(t.0@[i]),
{
    let s = t.0@[i];
    let k = crate::tree::sub_key(s);
    let m = files_of(crate::tree::tree_nodes(t));
    let u = under(m, k);
    let v = sub_view(s);
    assert forall|q: KeyPath| (#[trigger] u.contains_key(q) <==> v.contains_key(q)) && (u.contains_key(q)
        ==> u[q] == v[q]) by {
        let p = seq![k] + q;
        crate::tree::lemma_lookup_at(t, i, p);
        assert(p.drop_first() =~= q);
        assert(tree_node_at(t, p) == crate::tree::sub_node_at(s, q));
        match s {
            SubTree::Node(e) => {
                crate::tree::lemma_sub_node_node::<Label, (Label, File)>(e, q);
                if q.len() == 0 {
                    assert(q =~= Seq::<Seq<char>>::empty());
                }
            },
            SubTree::Branch { key, forest } => {
                crate::tree::lemma_sub_node_branch(key, *forest, q);
            },
        }
    }
    assert(u =~= v);
}

/// Below a key that no sub-tree has lies nothing.
pub proof fn lemma_under_missing(t: DirTree, k: Seq<char>)
    requires
        !crate::tree::has_key(t.0@, k),
    ensures
        under(files_of(crate::tree::tree_nodes(t)), k) == Map::<KeyPath, FileView>::empty(),
{
    assert forall|q: KeyPath| !(#[trigger] tree_node_at(t, seq![k] + q) is Some) by {
        assert((seq![k] + q)[0] == k);
    }
    assert(under(files_of(crate::tree::tree_nodes(t)), k) =~= Map::<KeyPath, FileView>::empty());
}

/// The paths of a listing with a key in front are not empty and start
/// with that key.
pub proof fn lemma_prefix_paths(k: Seq<char>, fs: Seq<FileEntry>)
    ensures
        forall|a: int|
            0 <= a < prefix_files(k, fs).len() ==> (#[trigger] prefix_files(k, fs)[a]).0.len() > 0
                && prefix_files(k, fs)[a].0[0] == k,
{
    assert forall|a: int| 0 <= a < prefix_files(k, fs).len() implies (#[trigger] prefix_files(
        k,
        fs,
    )[a]).0.len() > 0 && prefix_files(k, fs)[a].0[0] == k by {
        assert(prefix_files(k, fs)[a].0 == seq![k] + fs[a].0);
    }
}

/// Every file of a listing of a level lies below some key: its path is not
/// empty.
pub proof fn lemma_level_paths(t: DirTree, n: int)
    ensures
        forall|a: int| 0 <= a < level_files(t, n).len() ==> (#[trigger] level_files(t, n)[a]).0.len() > 0,
    decreases n,
{
    if n > 0 {
        if n == 1 {
            lemma_sub_files_rel(t.0.head);
            lemma_prefix_paths(crate::tree::sub_key(t.0.head), rel_files(t.0.head));
            assert(level_files(t, 1) == sub_files(t.0.head));
        } else if n - 2 < t.0.tail@.len() {
            lemma_level_paths(t, n - 1);
            let x = t.0.tail@[n - 2];
            lemma_sub_files_rel(x);
            lemma_prefix_paths(crate::tree::sub_key(x), rel_files(x));
            let a = level_files(t, n - 1);
            let b = sub_files(x);
            assert(level_files(t, n) == a + b);
            assert forall|y: int| 0 <= y < (a + b).len() implies (#[trigger] (a + b)[y]).0.len() > 0 by {
                if y >= a.len() {
                    assert((a + b)[y] == b[y - a.len()]);
                } else {
                    assert((a + b)[y] == a[y]);
                }
            }
        } else {
            lemma_level_paths(t, n - 1);
            assert(level_files(t, n) == level_files(t, n - 1));
        }
    }
}

/// A tree has no file at the empty path.
pub proof fn lemma_no_empty_path(t: DirTree)
    ensures
        !files_of(crate::tree::tree_nodes(t)).contains_key(Seq::empty()),
{
}

/// The listing `fs` holds exactly the files of `m`, each once and with its
/// meaning.
pub open spec fn lists_files(fs: Seq<FileEntry>, m: DirectoryView) -> bool {
    &&& forall|a: int| 0 <= a < fs.len() ==> m.contains_key(#[trigger] fs[a].0) && m[fs[a].0] == fs[a].1
    &&& forall|p: KeyPath| #[trigger] m.contains_key(p) ==> exists|a: int| 0 <= a < fs.len() && fs[a].0 == p
    &&& forall|a: int, b: int| 0 <= a < b < fs.len() ==> #[trigger] fs[a].0 != #[trigger] fs[b].0
}

/// The files of `m` put below the key `k`.
pub open spec fn prefix_map(k: Seq<char>, m: DirectoryView) -> DirectoryView {
    Map::new(
        |p: KeyPath| p.len() > 0 && p[0] == k && m.contains_key(p.drop_first()),
        |p: KeyPath| m[p.drop_first()],
    )
}

/// Two listings of files with no path in common list their union.
proof fn lemma_lists_concat(l: Seq<FileEntry>, a: DirectoryView, s: Seq<FileEntry>, b: DirectoryView)
    requires
        lists_files(l, a),
        lists_files(s, b),
        forall|p: KeyPath| #[trigger] a.contains_key(p) ==> !b.contains_key(p),
    ensures
        lists_files(l + s, a.union_prefer_right(b)),
{
    let ls = l + s;
    let u = a.union_prefer_right(b);
    assert forall|x: int| 0 <= x < ls.len() implies u.contains_key(#[trigger] ls[x].0) && u[ls[x].0]
        == ls[x].1 by {
        if x < l.len() {
            assert(ls[x] == l[x]);
            assert(a.contains_key(l[x].0));
        } else {
            assert(ls[x] == s[x - l.len()]);
            assert(b.contains_key(s[x - l.len()].0));
        }
    }
    assert forall|p: KeyPath| #[trigger] u.contains_key(p) implies exists|x: int|
        0 <= x < ls.len() && ls[x].0 == p by {
        if b.contains_key(p) {
            let y = choose|y: int| 0 <= y < s.len() && s[y].0 == p;
            assert(ls[l.len() + y] == s[y]);
        } else {
            assert(a.contains_key(p));
            let y = choose|y: int| 0 <= y < l.len() && l[y].0 == p;
            assert(ls[y] == l[y]);
        }
    }
    assert forall|x: int, y: int| 0 <= x < y < ls.len() implies #[trigger] ls[x].0 != #[trigger] ls[y].0 by {
        if y < l.len() {
            assert(ls[x] == l[x] && ls[y] == l[y]);
        } else if x >= l.len() {
            assert(ls[x] == s[x - l.len()] && ls[y] == s[y - l.len()]);
        } else {
            assert(ls[x] == l[x] && ls[y] == s[y - l.len()]);
            assert(a.contains_key(l[x].0));
            assert(b.contains_key(s[y - l.len()].0));
        }
    }
}

/// Putting a key in front of the paths of a listing lists the files put
/// below the key.
proof fn lemma_lists_prefix(k: Seq<char>, r: Seq<FileEntry>, m: DirectoryView)
    requires
        lists_files(r, m),
    ensures
        lists_files(prefix_files(k, r), prefix_map(k, m)),
{
    let pr = prefix_files(k, r);
    let pm = prefix_map(k, m);
    assert forall|x: int| 0 <= x < pr.len() implies pm.contains_key(#[trigger] pr[x].0) && pm[pr[x].0]
        == pr[x].1 by {
        assert(pr[x].0 == seq![k] + r[x].0);
        assert(pr[x].0.drop_first() =~= r[x].0);
        assert(m.contains_key(r[x].0));
    }
    assert forall|p: KeyPath| #[trigger] pm.contains_key(p) implies exists|x: int|
        0 <= x < pr.len() && pr[x].0 == p by {
        let q = p.drop_first();
        assert(m.contains_key(q));
        let y = choose|y: int| 0 <= y < r.len() && r[y].0 == q;
        assert(pr[y].0 == seq![k] + r[y].0);
        assert(p =~= seq![k] + q);
    }
    assert forall|x: int, y: int| 0 <= x < y < pr.len() implies #[trigger] pr[x].0 != #[trigger] pr[y].0 by {
        assert(pr[x].0 == seq![k] + r[x].0);
        assert(pr[y].0 == seq![k] + r[y].0);
        if pr[x].0 == pr[y].0 {
            assert(r[x].0 =~= pr[x].0.drop_first());
            assert(r[y].0 =~= pr[y].0.drop_first());
        }
    }
}

/// The files of the tree `t` whose path starts with one of the first `n`
/// keys.
pub open spec fn level_view(t: DirTree, n: int) -> DirectoryView {
    let m = files_of(crate::tree::tree_nodes(t));
    Map::new(
        |p: KeyPath|
            m.contains_key(p) && p.len() > 0 && exists|c: int|
                0 <= c < n && crate::tree::sub_key(#[trigger] t.0@[c]) == p[0],
        |p: KeyPath| m[p],
    )
}

/// The listing of the first `n` sub-trees of a well-formed tree lists the
/// files below their keys.
proof fn lemma_level_lists(t: DirTree, n: int)
    requires
        tree_wf(t),
        0 <= n <= t.0@.len(),
    ensures
        lists_files(level_files(t, n), level_view(t, n)),
    decreases t, n,
{
    let m = files_of(crate::tree::tree_nodes(t));
    if n == 0 {
        assert(level_view(t, 0) =~= Map::<KeyPath, FileView>::empty());
        assert(level_files(t, 0) =~= Seq::<FileEntry>::empty());
    } else {
        let c = n - 1;
        let sc = t.0@[c];
        let k = crate::tree::sub_key(sc);
        lemma_level_lists(t, c);
        lemma_level_step(t, c);
        assert(sub_at(t, c) == sc);
        lemma_sub_files_rel(sc);
        crate::tree::lemma_wf_sub(t, c);
        lemma_under_entry(t, c);
        // The files below the key of the sub-tree at `c`.
        match sc {
            SubTree::Node(e) => {
                let r = rel_files(sc);
                let v = sub_view(sc);
                assert(lists_files(r, v)) by {
                    assert forall|p: KeyPath| #[trigger] v.contains_key(p) implies exists|a: int|
                        0 <= a < r.len() && r[a].0 == p by {
                        assert(r[0].0 == p);
                    }
                }
                lemma_lists_prefix(k, r, v);
            },
            SubTree::Branch { forest, .. } => {
                if c > 0 {
                    assert(sc == t.0.tail@[c - 1]);
                }
                lemma_level_lists(*forest, forest.0@.len() as int);
                let f = *forest;
                assert(level_view(f, f.0@.len() as int) =~= files_of(crate::tree::tree_nodes(f))) by {
                    assert forall|p: KeyPath| #[trigger] files_of(crate::tree::tree_nodes(f)).contains_key(p)
                        implies level_view(f, f.0@.len() as int).contains_key(p) by {
                        assert(tree_node_at(f, p) is Some);
                        let i = crate::tree::key_index(f.0@, p[0]);
                        assert(crate::tree::sub_key(f.0@[i]) == p[0]);
                    }
                }
                lemma_lists_prefix(k, rel_files(sc), sub_view(sc));
            },
        }
        let prev = level_view(t, c);
        let here = prefix_map(k, sub_view(sc));
        assert forall|p: KeyPath| #[trigger] prev.contains_key(p) implies !here.contains_key(p) by {
            let d = choose|d: int| 0 <= d < c && crate::tree::sub_key(#[trigger] t.0@[d]) == p[0];
            if here.contains_key(p) {
                crate::tree::lemma_sorted_unique(t.0@, d, c);
            }
        }
        lemma_lists_concat(level_files(t, c), prev, sub_files(sc), here);
        assert(level_view(t, n) =~= prev.union_prefer_right(here)) by {
            assert forall|p: KeyPath| #[trigger] level_view(t, n).contains_key(p) <==> prev.union_prefer_right(
                here,
            ).contains_key(p) by {
                if p.len() > 0 && p[0] == k {
                    assert(p =~= seq![k] + p.drop_first());
                    assert(under(m, k).contains_key(p.drop_first()) == m.contains_key(p));
                }
                if level_view(t, n).contains_key(p) {
                    let d = choose|d: int| 0 <= d < n && crate::tree::sub_key(#[trigger] t.0@[d]) == p[0];
                    if d < c {
                        assert(prev.contains_key(p));
                    }
                }
            }
            assert forall|p: KeyPath| #[trigger] level_view(t, n).contains_key(p) implies level_view(t, n)[p]
                == prev.union_prefer_right(here)[p] by {
                if p.len() > 0 && p[0] == k {
                    assert(p =~= seq![k] + p.drop_first());
                    assert(under(m, k)[p.drop_first()] == m[p]);
                }
            }
        }
    }
}

/// `p` comes before `q` in the order of paths: at the first label where
/// they differ, the label of `p` is the smaller.
pub open spec fn path_lt(p: KeyPath, q: KeyPath) -> bool
    decreases p.len(),
{
    p.len() > 0 && q.len() > 0 && (crate::strings::seq_lt(p[0], q[0]) || (p[0] == q[0] && path_lt(
        p.drop_first(),
        q.drop_first(),
    )))
}

/// The paths of the listing `fs` increase strictly.
pub open spec fn in_path_order(fs: Seq<FileEntry>) -> bool {
    forall|a: int, b: int| 0 <= a < b < fs.len() ==> path_lt(#[trigger] fs[a].0, #[trigger] fs[b].0)
}

/// Putting the same key in front of two paths keeps their order.
proof fn lemma_path_lt_prefix(k: Seq<char>, p: KeyPath, q: KeyPath)
    requires
        path_lt(p, q),
    ensures
        path_lt(seq![k] + p, seq![k] + q),
{
    assert((seq![k] + p).drop_first() =~= p);
    assert((seq![k] + q).drop_first() =~= q);
}

/// Two listings in order, the first below smaller keys than the second,
/// are in order one after the other.
proof fn lemma_order_concat(l: Seq<FileEntry>, s: Seq<FileEntry>)
    requires
        in_path_order(l),
        in_path_order(s),
        forall|a: int, b: int| 0 <= a < l.len() && 0 <= b < s.len() ==> path_lt(#[trigger] l[a].0, #[trigger] s[b].0),
    ensures
        in_path_order(l + s),
{
    let ls = l + s;
    assert forall|a: int, b: int| 0 <= a < b < ls.len() implies path_lt(#[trigger] ls[a].0, #[trigger] ls[b].0) by {
        if b < l.len() {
            assert(ls[a] == l[a] && ls[b] == l[b]);
        } else if a >= l.len() {
            assert(ls[a] == s[a - l.len()] && ls[b] == s[b - l.len()]);
        } else {
            assert(ls[a] == l[a] && ls[b] == s[b - l.len()]);
        }
    }
}

/// The listing of the first `n` sub-trees of a well-formed tree is in the
/// order of paths, and all its paths start with one of the first `n` keys.
pub(crate) proof fn lemma_level_order(t: DirTree, n: int)
    requires
        tree_wf(t),
        0 <= n <= t.0@.len(),
    ensures
        in_path_order(level_files(t, n)),
        forall|a: int|
            0 <= a < level_files(t, n).len() ==> exists|c: int|
                0 <= c < n && (#[trigger] level_files(t, n)[a]).0[0] == crate::tree::sub_key(t.0@[c]),
    decreases t, n,
{
    if n == 0 {
        assert(level_files(t, 0) =~= Seq::<FileEntry>::empty());
    } else {
        let c = n - 1;
        let sc = t.0@[c];
        let k = crate::tree::sub_key(sc);
        lemma_level_order(t, c);
        lemma_level_step(t, c);
        assert(sub_at(t, c) == sc);
        lemma_sub_files_rel(sc);
        crate::tree::lemma_wf_sub(t, c);
        let l = level_files(t, c);
        let sf = sub_files(sc);
        let r = rel_files(sc);
        lemma_prefix_paths(k, r);
        lemma_level_paths(t, c);
        assert(in_path_order(r)) by {
            match sc {
                SubTree::Node(_) => {},
                SubTree::Branch { forest, .. } => {
                    if c > 0 {
                        assert(sc == t.0.tail@[c - 1]);
                    }
                    lemma_level_order(*forest, forest.0@.len() as int);
                },
            }
        }
        assert(in_path_order(sf)) by {
            assert forall|a: int, b: int| 0 <= a < b < sf.len() implies path_lt(#[trigger] sf[a].0, #[trigger] sf[b].0) by {
                assert(sf[a].0 == seq![k] + r[a].0);
                assert(sf[b].0 == seq![k] + r[b].0);
                lemma_path_lt_prefix(k, r[a].0, r[b].0);
            }
        }
        assert forall|a: int, b: int| 0 <= a < l.len() && 0 <= b < sf.len() implies path_lt(#[trigger] l[a].0, #[trigger] sf[b].0) by {
            let d = choose|d: int| 0 <= d < c && l[a].0[0] == crate::tree::sub_key(t.0@[d]);
            assert(crate::strings::seq_lt(crate::tree::sub_key(t.0@[d]), k));
            assert(sf[b].0[0] == k);
        }
        lemma_order_concat(l, sf);
        let ls = l + sf;
        assert forall|a: int| 0 <= a < ls.len() implies exists|d: int|
            0 <= d < n && (#[trigger] ls[a]).0[0] == crate::tree::sub_key(t.0@[d]) by {
            if a < l.len() {
                assert(ls[a] == l[a]);
                let d = choose|d: int| 0 <= d < c && l[a].0[0] == crate::tree::sub_key(t.0@[d]);
            } else {
                assert(ls[a] == sf[a - l.len()]);
                assert(ls[a].0[0] == crate::tree::sub_key(t.0@[c]));
            }
        }
    }
}

/// The listing of a well-formed tree lists its files, each once.
pub proof fn lemma_tree_lists(t: DirTree)
    requires
        tree_wf(t),
    ensures
        lists_files(tree_files(t), files_of(crate::tree::tree_nodes(t))),
{
    let n = t.0@.len() as int;
    lemma_level_lists(t, n);
    assert(level_view(t, n) =~= files_of(crate::tree::tree_nodes(t))) by {
        assert forall|p: KeyPath| #[trigger] files_of(crate::tree::tree_nodes(t)).contains_key(p)
            implies level_view(t, n).contains_key(p) by {
            assert(tree_node_at(t, p) is Some);
            let i = crate::tree::key_index(t.0@, p[0]);
            assert(crate::tree::sub_key(t.0@[i]) == p[0]);
        }
    }
}

} // verus!
