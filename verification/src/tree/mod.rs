//! A sorted tree of keyed nodes: every level holds its sub-trees ordered by
//! key, a `Branch` carries a key and a non-empty tree below it, and a `Node`
//! carries a value that knows its own key.
//!
//! The meaning of a [`Forest`] is the map from the path of each node (the
//! keys of the branches above it followed by its own key) to the node.
use vstd::prelude::*;

pub mod maximum;

use crate::nonempty::NonEmpty;
use crate::strings::{
    compare_str, lemma_lt_irreflexive, lemma_lt_total,
    lemma_lt_transitive, seq_lt, seq_order, KeyOrder,
};

verus! {

/// A key of a tree: something with a text that can be compared.
pub trait TreeKey: View<V = Seq<char>> + Sized {
    /// Compare two keys by their text.
    fn compare_key(&self, other: &Self) -> (o: KeyOrder)
        ensures
            o == seq_order(self@, other@),
    ;
}

impl TreeKey for String {
    fn compare_key(&self, other: &Self) -> (o: KeyOrder) {
        compare_str(self.as_str(), other.as_str())
    }
}

/// A value that carries its own key.
pub trait HasKey<K> {
    /// The key of the value.
    spec fn spec_key(&self) -> K;

    fn key(&self) -> (k: &K)
        ensures
            *k == self.spec_key(),
    ;
}

/// A sub-tree: a single node, or a key with a non-empty tree below it.
#[derive(Debug, PartialEq, Eq, PartialOrd, Ord)]
pub enum SubTree<K, A> {
    Node(A),
    Branch { key: K, forest: Box<Tree<K, A>> },
}

/// A non-empty list of sub-trees.
#[derive(Debug, PartialEq, Eq, PartialOrd, Ord)]
pub struct Tree<K, A>(pub NonEmpty<SubTree<K, A>>);

/// A possibly empty tree.
#[derive(Debug, PartialEq, Eq, PartialOrd, Ord)]
pub struct Forest<K, A>(pub Option<Tree<K, A>>);

/// An index as an integer.
pub open spec fn idx(i: usize) -> int {
    i as int
}

/// A path of key texts.
pub type KeyPath = Seq<Seq<char>>;

/// The text of a sub-tree's key: the node's own key, or the branch's key.
pub open spec fn sub_key<K: View<V = Seq<char>>, A: HasKey<K>>(s: SubTree<K, A>) -> Seq<char> {
    match s {
        SubTree::Node(a) => a.spec_key()@,
        SubTree::Branch { key, .. } => key@,
    }
}

/// The sub-trees are strictly ordered by key.
pub open spec fn sorted<K: View<V = Seq<char>>, A: HasKey<K>>(subs: Seq<SubTree<K, A>>) -> bool {
    forall|i: int, j: int|
        0 <= i < j < subs.len() ==> seq_lt(#[trigger] sub_key(subs[i]), #[trigger] sub_key(subs[j]))
}

/// A well-formed tree: every level is sorted by key.
pub open spec fn tree_wf<K: View<V = Seq<char>>, A: HasKey<K>>(t: Tree<K, A>) -> bool
    decreases t,
{
    &&& sorted(t.0@)
    &&& sub_wf(t.0.head)
    &&& forall|j: int| 0 <= j < t.0.tail@.len() ==> sub_wf(#[trigger] t.0.tail@[j])
}

/// A well-formed sub-tree: a node, or a branch above a well-formed tree.
pub open spec fn sub_wf<K: View<V = Seq<char>>, A: HasKey<K>>(s: SubTree<K, A>) -> bool
    decreases s,
{
    match s {
        SubTree::Node(_) => true,
        SubTree::Branch { forest, .. } => tree_wf(*forest),
    }
}

/// A well-formed forest.
pub open spec fn forest_wf<K: View<V = Seq<char>>, A: HasKey<K>>(f: Forest<K, A>) -> bool {
    match f.0 {
        None => true,
        Some(t) => tree_wf(t),
    }
}

/// Some sub-tree of `subs` has the key `k`.
pub open spec fn has_key<K: View<V = Seq<char>>, A: HasKey<K>>(
    subs: Seq<SubTree<K, A>>,
    k: Seq<char>,
) -> bool {
    exists|i: int| 0 <= i < subs.len() && sub_key(#[trigger] subs[i]) == k
}

/// The index of the sub-tree of `subs` with key `k` (meaningful when
/// `has_key(subs, k)`).
pub open spec fn key_index<K: View<V = Seq<char>>, A: HasKey<K>>(
    subs: Seq<SubTree<K, A>>,
    k: Seq<char>,
) -> int {
    choose|i: int| 0 <= i < subs.len() && sub_key(#[trigger] subs[i]) == k
}

/// The sub-tree that `path` leads to in `t`, if any.
pub open spec fn tree_lookup<K: View<V = Seq<char>>, A: HasKey<K>>(
    t: Tree<K, A>,
    path: KeyPath,
) -> Option<SubTree<K, A>>
    decreases t,
{
    if path.len() > 0 && has_key(t.0@, path[0]) {
        let i = key_index(t.0@, path[0]);
        if i == 0 {
            sub_lookup(t.0.head, path.drop_first())
        } else {
            sub_lookup(t.0.tail@[i - 1], path.drop_first())
        }
    } else {
        None
    }
}

/// The sub-tree that `rest` leads to below the sub-tree `s`: `s` itself
/// for the empty path.
pub open spec fn sub_lookup<K: View<V = Seq<char>>, A: HasKey<K>>(
    s: SubTree<K, A>,
    rest: KeyPath,
) -> Option<SubTree<K, A>>
    decreases s,
{
    if rest.len() == 0 {
        Some(s)
    } else {
        match s {
            SubTree::Node(_) => None,
            SubTree::Branch { forest, .. } => tree_lookup(*forest, rest),
        }
    }
}

/// The node at `path` in `t`, if there is one.
pub open spec fn tree_node_at<K: View<V = Seq<char>>, A: HasKey<K>>(
    t: Tree<K, A>,
    path: KeyPath,
) -> Option<A> {
    match tree_lookup(t, path) {
        Some(SubTree::Node(a)) => Some(a),
        _ => None,
    }
}

/// The node at `rest` below the sub-tree `s`, if there is one.
pub open spec fn sub_node_at<K: View<V = Seq<char>>, A: HasKey<K>>(
    s: SubTree<K, A>,
    rest: KeyPath,
) -> Option<A> {
    match sub_lookup(s, rest) {
        Some(SubTree::Node(a)) => Some(a),
        _ => None,
    }
}

/// The nodes of `t`, by path.
pub open spec fn tree_nodes<K: View<V = Seq<char>>, A: HasKey<K>>(t: Tree<K, A>) -> Map<
    KeyPath,
    A,
> {
    Map::new(|p: KeyPath| tree_node_at(t, p) is Some, |p: KeyPath| tree_node_at(t, p)->0)
}

impl<K: View<V = Seq<char>>, A: HasKey<K>> View for Forest<K, A> {
    type V = Map<KeyPath, A>;

    /// The nodes of the forest, by path.
    open spec fn view(&self) -> Map<KeyPath, A> {
        match self.0 {
            None => Map::empty(),
            Some(t) => tree_nodes(t),
        }
    }
}

/// `p` is a prefix of `q`.
pub open spec fn is_prefix(p: KeyPath, q: KeyPath) -> bool {
    p.len() <= q.len() && q.take(p.len() as int) == p
}

/// One of `p` and `q` is a prefix of the other.
pub open spec fn related(p: KeyPath, q: KeyPath) -> bool {
    is_prefix(p, q) || is_prefix(q, p)
}

/// In a sorted list, two sub-trees with the same key are the same one.
pub proof fn lemma_sorted_unique<K: View<V = Seq<char>>, A: HasKey<K>>(
    subs: Seq<SubTree<K, A>>,
    i: int,
    j: int,
)
    requires
        sorted(subs),
        0 <= i < subs.len(),
        0 <= j < subs.len(),
        sub_key(subs[i]) == sub_key(subs[j]),
    ensures
        i == j,
{
    if i < j {
        lemma_lt_irreflexive(sub_key(subs[i]));
    } else if j < i {
        lemma_lt_irreflexive(sub_key(subs[j]));
    }
}

/// In a sorted list, the sub-tree at index `i` is the one that has its key.
pub proof fn lemma_key_index<K: View<V = Seq<char>>, A: HasKey<K>>(subs: Seq<SubTree<K, A>>, i: int)
    requires
        sorted(subs),
        0 <= i < subs.len(),
    ensures
        has_key(subs, sub_key(subs[i])),
        key_index(subs, sub_key(subs[i])) == i,
{
    assert(has_key(subs, sub_key(subs[i])));
    lemma_sorted_unique(subs, i, key_index(subs, sub_key(subs[i])));
}

/// The look-up in a tree through the sub-tree at index `i`.
pub proof fn lemma_lookup_at<K: View<V = Seq<char>>, A: HasKey<K>>(
    t: Tree<K, A>,
    i: int,
    path: KeyPath,
)
    requires
        sorted(t.0@),
        0 <= i < t.0@.len(),
        path.len() > 0,
        path[0] == sub_key(t.0@[i]),
    ensures
        tree_lookup(t, path) == sub_lookup(t.0@[i], path.drop_first()),
{
    lemma_key_index(t.0@, i);
}

/// Every sub-tree of a well-formed tree is well-formed.
pub proof fn lemma_wf_sub<K: View<V = Seq<char>>, A: HasKey<K>>(t: Tree<K, A>, i: int)
    requires
        tree_wf(t),
        0 <= i < t.0@.len(),
    ensures
        sub_wf(t.0@[i]),
{
    if i > 0 {
        assert(t.0@[i] == t.0.tail@[i - 1]);
    }
}

/// A tree whose sorted sub-trees are all well-formed is well-formed.
pub proof fn lemma_wf_intro<K: View<V = Seq<char>>, A: HasKey<K>>(t: Tree<K, A>)
    requires
        sorted(t.0@),
        forall|i: int| 0 <= i < t.0@.len() ==> sub_wf(#[trigger] t.0@[i]),
    ensures
        tree_wf(t),
{
    assert(sub_wf(t.0@[0]));
    assert forall|j: int| 0 <= j < t.0.tail@.len() implies sub_wf(#[trigger] t.0.tail@[j]) by {
        assert(t.0@[j + 1] == t.0.tail@[j]);
    }
}


/// Where a key stands among the sorted sub-trees of a tree.
pub enum Position {
    /// The sub-tree at this index has the key.
    Found(usize),
    /// No sub-tree has the key; it belongs just before this index.
    Before(usize),
    /// No sub-tree has the key; it belongs after all of them.
    End,
}

/// `pos` is where the key `k` stands among `subs`.
pub open spec fn position_of<K: View<V = Seq<char>>, A: HasKey<K>>(
    subs: Seq<SubTree<K, A>>,
    k: Seq<char>,
    pos: Position,
) -> bool {
    match pos {
        Position::Found(i) => i < subs.len() && sub_key(subs[i as int]) == k,
        Position::Before(i) => {
            &&& i < subs.len()
            &&& forall|j: int| 0 <= j < i ==> seq_lt(#[trigger] sub_key(subs[j]), k)
            &&& forall|j: int| i <= j < subs.len() ==> seq_lt(k, #[trigger] sub_key(subs[j]))
        },
        Position::End => forall|j: int| 0 <= j < subs.len() ==> seq_lt(#[trigger] sub_key(subs[j]), k),
    }
}

impl<K: View<V = Seq<char>>, A: HasKey<K>> HasKey<K> for SubTree<K, A> {
    open spec fn spec_key(&self) -> K {
        match self {
            SubTree::Node(a) => a.spec_key(),
            SubTree::Branch { key, .. } => *key,
        }
    }

    fn key(&self) -> (k: &K) {
        match self {
            SubTree::Node(node) => node.key(),
            SubTree::Branch { key, .. } => key,
        }
    }
}

impl<K, A> SubTree<K, A> {
    /// A branch with `key` above `tree`.
    pub fn branch(key: K, tree: Tree<K, A>) -> (r: Self)
        ensures
            r == (SubTree::Branch { key, forest: Box::new(tree) }),
    {
        SubTree::Branch { key, forest: Box::new(tree) }
    }
}

/// Replacing a sub-tree by one with the same key changes only the look-ups
/// that go through that key.
pub proof fn lemma_lookup_update<K: View<V = Seq<char>>, A: HasKey<K>>(
    t: Tree<K, A>,
    t2: Tree<K, A>,
    i: int,
    s: SubTree<K, A>,
    path: KeyPath,
)
    requires
        sorted(t.0@),
        0 <= i < t.0@.len(),
        t2.0@ == t.0@.update(i, s),
        sub_key(s) == sub_key(t.0@[i]),
    ensures
        sorted(t2.0@),
        path.len() > 0 && path[0] == sub_key(s) ==> tree_lookup(t2, path) == sub_lookup(
            s,
            path.drop_first(),
        ),
        path.len() > 0 && path[0] != sub_key(s) ==> tree_lookup(t2, path) == tree_lookup(t, path),
        path.len() == 0 ==> tree_lookup(t2, path) is None,
{
    assert forall|a: int, b: int| 0 <= a < b < t2.0@.len() implies seq_lt(
        #[trigger] sub_key(t2.0@[a]),
        #[trigger] sub_key(t2.0@[b]),
    ) by {
        assert(sub_key(t2.0@[a]) == sub_key(t.0@[a]));
        assert(sub_key(t2.0@[b]) == sub_key(t.0@[b]));
    }
    if path.len() > 0 {
        if path[0] == sub_key(s) {
            assert(t2.0@[i] == s);
            lemma_lookup_at(t2, i, path);
        } else if has_key(t.0@, path[0]) {
            let j = key_index(t.0@, path[0]);
            assert(j != i);
            assert(t2.0@[j] == t.0@[j]);
            lemma_lookup_at(t, j, path);
            lemma_lookup_at(t2, j, path);
        } else {
            if has_key(t2.0@, path[0]) {
                let j = key_index(t2.0@, path[0]);
                assert(j != i);
                assert(t2.0@[j] == t.0@[j]);
            }
        }
    }
}

/// Inserting a sub-tree with a new key in its sorted place changes only the
/// look-ups that go through that key.
pub proof fn lemma_lookup_insert<K: View<V = Seq<char>>, A: HasKey<K>>(
    t: Tree<K, A>,
    t2: Tree<K, A>,
    i: int,
    s: SubTree<K, A>,
    path: KeyPath,
)
    requires
        sorted(t.0@),
        0 <= i <= t.0@.len(),
        t2.0@ == t.0@.insert(i, s),
        forall|j: int| 0 <= j < i ==> seq_lt(#[trigger] sub_key(t.0@[j]), sub_key(s)),
        forall|j: int| i <= j < t.0@.len() ==> seq_lt(sub_key(s), #[trigger] sub_key(t.0@[j])),
    ensures
        sorted(t2.0@),
        path.len() > 0 && path[0] == sub_key(s) ==> tree_lookup(t2, path) == sub_lookup(
            s,
            path.drop_first(),
        ),
        path.len() > 0 && path[0] != sub_key(s) ==> tree_lookup(t2, path) == tree_lookup(t, path),
        path.len() == 0 ==> tree_lookup(t2, path) is None,
{
    assert forall|a: int, b: int| 0 <= a < b < t2.0@.len() implies seq_lt(
        #[trigger] sub_key(t2.0@[a]),
        #[trigger] sub_key(t2.0@[b]),
    ) by {
        if a < i && b < i {
            assert(t2.0@[a] == t.0@[a] && t2.0@[b] == t.0@[b]);
        } else if a < i && b == i {
            assert(t2.0@[a] == t.0@[a]);
        } else if a < i {
            assert(t2.0@[a] == t.0@[a] && t2.0@[b] == t.0@[b - 1]);
            lemma_lt_transitive(sub_key(t.0@[a]), sub_key(s), sub_key(t.0@[b - 1]));
        } else if a == i {
            assert(t2.0@[b] == t.0@[b - 1]);
        } else {
            assert(t2.0@[a] == t.0@[a - 1] && t2.0@[b] == t.0@[b - 1]);
        }
    }
    if path.len() > 0 {
        if path[0] == sub_key(s) {
            assert(t2.0@[i] == s);
            lemma_lookup_at(t2, i, path);
        } else if has_key(t.0@, path[0]) {
            let j = key_index(t.0@, path[0]);
            let j2 = if j < i { j } else { j + 1 };
            assert(t2.0@[j2] == t.0@[j]);
            lemma_lookup_at(t, j, path);
            lemma_lookup_at(t2, j2, path);
        } else {
            if has_key(t2.0@, path[0]) {
                let j2 = key_index(t2.0@, path[0]);
                assert(j2 != i);
                if j2 < i {
                    assert(t2.0@[j2] == t.0@[j2]);
                } else {
                    assert(t2.0@[j2] == t.0@[j2 - 1]);
                }
            }
        }
    }
}

impl<K: TreeKey, A: HasKey<K>> Tree<K, A> {
    /// Binary search for `key` among the sub-trees, which are sorted by key.
    pub fn search(&self, key: &K) -> (r: Position)
        requires
            sorted(self.0@),
        ensures
            position_of(self.0@, key@, r),
    {
        let subs = &self.0;
        match subs.head.key().compare_key(key) {
            KeyOrder::Equal => {
                return Position::Found(0);
            },
            KeyOrder::Greater => {
                proof {
                    lemma_lt_total(sub_key(subs.head), key@);
                    assert forall|j: int| 0 <= j < subs@.len() implies seq_lt(
                        key@,
                        #[trigger] sub_key(subs@[j]),
                    ) by {
                        if j > 0 {
                            lemma_lt_transitive(key@, sub_key(subs@[0]), sub_key(subs@[j]));
                        }
                    }
                }
                return Position::Before(0);
            },
            KeyOrder::Less => {},
        }
        let mut lo: usize = 0;
        let mut hi: usize = subs.tail.len();
        while lo < hi
            invariant
                lo <= hi <= subs.tail@.len(),
                subs == &self.0,
                sorted(subs@),
                seq_lt(sub_key(subs.head), key@),
                forall|j: int| 0 <= j < lo ==> seq_lt(#[trigger] sub_key(subs.tail@[j]), key@),
                forall|j: int|
                    hi <= j < subs.tail@.len() ==> seq_lt(key@, #[trigger] sub_key(subs.tail@[j])),
            decreases hi - lo,
        {
            let mid = lo + (hi - lo) / 2;
            let ghost km = sub_key(subs.tail@[mid as int]);
            assert(subs@[mid + 1] == subs.tail@[mid as int]);
            let mid_key = subs.tail[mid].key();
            match mid_key.compare_key(key) {
                KeyOrder::Equal => {
                    assert(mid_key@ == km);
                    assert(km == key@);
                    return Position::Found(mid + 1);
                },
                KeyOrder::Less => {
                    proof {
                        assert(mid_key@ == km);
                        assert forall|j: int| 0 <= j < mid + 1 implies seq_lt(
                            #[trigger] sub_key(subs.tail@[j]),
                            key@,
                        ) by {
                            if j < mid {
                                assert(subs@[j + 1] == subs.tail@[j]);
                                assert(seq_lt(sub_key(subs@[j + 1]), sub_key(subs@[mid + 1])));
                                lemma_lt_transitive(sub_key(subs.tail@[j]), km, key@);
                            }
                        }
                    }
                    lo = mid + 1;
                },
                KeyOrder::Greater => {
                    proof {
                        assert(mid_key@ == km);
                        lemma_lt_total(km, key@);
                        assert forall|j: int| mid <= j < subs.tail@.len() implies seq_lt(
                            key@,
                            #[trigger] sub_key(subs.tail@[j]),
                        ) by {
                            if j > mid {
                                assert(subs@[j + 1] == subs.tail@[j]);
                                assert(seq_lt(sub_key(subs@[mid + 1]), sub_key(subs@[j + 1])));
                                lemma_lt_transitive(key@, km, sub_key(subs.tail@[j]));
                            }
                        }
                    }
                    hi = mid;
                },
            }
        }
        proof {
            assert forall|j: int| 0 <= j < lo + 1 implies seq_lt(#[trigger] sub_key(subs@[j]), key@) by {
                if j > 0 {
                    assert(subs@[j] == subs.tail@[j - 1]);
                }
            }
            assert forall|j: int| lo + 1 <= j < subs@.len() implies seq_lt(
                key@,
                #[trigger] sub_key(subs@[j]),
            ) by {
                assert(subs@[j] == subs.tail@[j - 1]);
            }
        }
        if lo == subs.tail.len() {
            Position::End
        } else {
            Position::Before(lo + 1)
        }
    }
}


/// The texts of a sequence of keys.
pub open spec fn keys_view<K: View<V = Seq<char>>>(keys: Seq<K>) -> KeyPath {
    keys.map_values(|k: K| k@)
}

/// The path at which `node` is stored below the branches `keys`.
pub open spec fn node_path<K: View<V = Seq<char>>, A: HasKey<K>>(keys: Seq<K>, node: A) -> KeyPath {
    keys_view(keys).push(node.spec_key()@)
}

/// The nodes of a tree that holds a single node.
pub proof fn lemma_single_node<K: View<V = Seq<char>>, A: HasKey<K>>(t: Tree<K, A>, a: A, p: KeyPath)
    requires
        t.0@ == seq![SubTree::<K, A>::Node(a)],
    ensures
        tree_node_at(t, p) == (if p == seq![a.spec_key()@] {
            Some(a)
        } else {
            None::<A>
        }),
{
    if p.len() > 0 && p[0] == a.spec_key()@ {
        lemma_lookup_at(t, 0, p);
        if p.len() == 1 {
            assert(p =~= seq![a.spec_key()@]);
        }
    } else {
        if p.len() > 0 {
            if has_key(t.0@, p[0]) {
                assert(t.0@[key_index(t.0@, p[0])] == t.0@[0]);
            }
        }
    }
}

/// The nodes of a tree that holds a single branch.
pub proof fn lemma_single_branch<K: View<V = Seq<char>>, A: HasKey<K>>(
    t: Tree<K, A>,
    k: K,
    f: Tree<K, A>,
    p: KeyPath,
)
    requires
        t.0@ == seq![SubTree::Branch { key: k, forest: Box::new(f) }],
    ensures
        tree_node_at(t, p) == (if p.len() > 1 && p[0] == k@ {
            tree_node_at(f, p.drop_first())
        } else {
            None::<A>
        }),
{
    if p.len() > 0 && p[0] == k@ {
        lemma_lookup_at(t, 0, p);
    } else {
        if p.len() > 0 {
            if has_key(t.0@, p[0]) {
                assert(t.0@[key_index(t.0@, p[0])] == t.0@[0]);
            }
        }
    }
}

/// The nodes below a branch: none at the branch itself, and those of its
/// tree below it.
pub proof fn lemma_sub_node_branch<K: View<V = Seq<char>>, A: HasKey<K>>(
    k: K,
    f: Tree<K, A>,
    q: KeyPath,
)
    ensures
        sub_node_at(SubTree::Branch { key: k, forest: Box::new(f) }, q) == (if q.len() > 0 {
            tree_node_at(f, q)
        } else {
            None::<A>
        }),
{
}

/// The nodes below a node: the node itself at the empty path.
pub proof fn lemma_sub_node_node<K: View<V = Seq<char>>, A: HasKey<K>>(a: A, q: KeyPath)
    ensures
        sub_node_at(SubTree::<K, A>::Node(a), q) == (if q.len() == 0 {
            Some(a)
        } else {
            None::<A>
        }),
{
}

/// A path that starts with `h` is related to `[h] + r` exactly when its rest
/// is related to `r`; and it is equal to it exactly when its rest equals `r`.
pub proof fn lemma_related_cons(p: KeyPath, h: Seq<char>, r: KeyPath)
    requires
        p.len() > 0,
        p[0] == h,
    ensures
        related(p, seq![h] + r) <==> related(p.drop_first(), r),
        (p == seq![h] + r) <==> (p.drop_first() == r),
{
    let q = p.drop_first();
    let full = seq![h] + r;
    assert(p =~= seq![h] + q);
    lemma_prefix_cons(h, q, r);
    lemma_prefix_cons(h, r, q);
    if q == r {
        assert(p =~= full);
    }
    if p == full {
        assert(q =~= full.drop_first());
        assert(r =~= full.drop_first());
    }
}

/// `[h] + a` is a prefix of `[h] + b` exactly when `a` is a prefix of `b`.
pub proof fn lemma_prefix_cons(h: Seq<char>, a: KeyPath, b: KeyPath)
    ensures
        is_prefix(seq![h] + a, seq![h] + b) <==> is_prefix(a, b),
{
    let ha = seq![h] + a;
    let hb = seq![h] + b;
    if a.len() <= b.len() {
        assert(hb.take(ha.len() as int) =~= seq![h] + b.take(a.len() as int));
        if b.take(a.len() as int) == a {
            assert(hb.take(ha.len() as int) =~= ha);
        }
        if hb.take(ha.len() as int) == ha {
            assert(b.take(a.len() as int) =~= hb.take(ha.len() as int).drop_first());
            assert(a =~= ha.drop_first());
        }
    }
}

impl<K: TreeKey, A: HasKey<K>> Tree<K, A> {
    /// A tree holding the single node `node`.
    pub fn node(node: A) -> (r: Self)
        ensures
            r.0@ == seq![SubTree::<K, A>::Node(node)],
            tree_wf(r),
    {
        let r = Tree(NonEmpty::new(SubTree::Node(node)));
        assert(sub_wf(r.0.head));
        r
    }

    /// A tree holding the single branch with `key` above `forest`.
    pub fn branch(key: K, forest: Self) -> (r: Self)
        requires
            tree_wf(forest),
        ensures
            r.0@ == seq![SubTree::Branch { key, forest: Box::new(forest) }],
            tree_wf(r),
    {
        let r = Tree(NonEmpty::new(SubTree::branch(key, forest)));
        assert(sub_wf(r.0.head));
        r
    }

    /// A tree made of a series of branches with the `keys`, in order, the
    /// last of which holds `node`.
    pub fn new(keys: NonEmpty<K>, node: A) -> (r: Self)
        ensures
            tree_wf(r),
            forall|p: KeyPath| #[trigger]
                tree_node_at(r, p) == (if p == node_path(keys@, node) {
                    Some(node)
                } else {
                    None::<A>
                }),
    {
        let ghost ks = keys@;
        let ghost nk = node.spec_key()@;
        let mut rest = keys.into_vec();
        let ghost n = rest@.len();
        let mut tree = Tree::node(node);
        proof {
            assert forall|p: KeyPath| #[trigger]
                tree_node_at(tree, p) == (if p == keys_view(ks.skip(n as int)).push(nk) {
                    Some(node)
                } else {
                    None::<A>
                }) by {
                lemma_single_node(tree, node, p);
                assert(keys_view(ks.skip(n as int)).push(nk) =~= seq![nk]);
            }
        }
        while rest.len() > 0
            invariant
                rest@ == ks.take(rest@.len() as int),
                rest@.len() <= ks.len(),
                nk == node.spec_key()@,
                tree_wf(tree),
                forall|p: KeyPath| #[trigger]
                    tree_node_at(tree, p) == (if p == keys_view(ks.skip(rest@.len() as int)).push(
                        nk,
                    ) {
                        Some(node)
                    } else {
                        None::<A>
                    }),
            decreases rest@.len(),
        {
            let ghost m = rest@.len();
            let ghost below = tree;
            let k = rest.pop().unwrap();
            assert(k == ks[m - 1]);
            tree = Tree::branch(k, tree);
            proof {
                let target = keys_view(ks.skip(m - 1)).push(nk);
                let target2 = keys_view(ks.skip(m as int)).push(nk);
                assert(target =~= seq![k@] + target2);
                assert forall|p: KeyPath| #[trigger]
                    tree_node_at(tree, p) == (if p == target {
                        Some(node)
                    } else {
                        None::<A>
                    }) by {
                    lemma_single_branch(tree, k, below, p);
                    if p.len() > 1 && p[0] == k@ {
                        lemma_related_cons(p, k@, target2);
                    } else if p == target {
                        assert(target.len() > 1);
                    }
                }
                assert(rest@ =~= ks.take(rest@.len() as int));
            }
        }
        proof {
            assert(ks.skip(0) =~= ks);
            assert(node_path(keys@, node) =~= keys_view(ks.skip(0)).push(nk));
        }
        tree
    }
}


impl<K: TreeKey, A: HasKey<K>> Tree<K, A> {
    /// Insert `node` among the sub-trees, in the position given by its key.
    /// A sub-tree with the same key, node or branch, is replaced by it.
    pub fn insert_node(&mut self, node: A)
        requires
            tree_wf(*old(self)),
        ensures
            tree_wf(*final(self)),
            forall|p: KeyPath| #[trigger]
                tree_node_at(*final(self), p) == (if p == seq![node.spec_key()@] {
                    Some(node)
                } else if related(p, seq![node.spec_key()@]) {
                    None::<A>
                } else {
                    tree_node_at(*old(self), p)
                }),
    {
        let ghost nk = node.spec_key()@;
        let ghost old_tree = *self;
        let pos = self.search(node.key());
        let ghost sub = SubTree::<K, A>::Node(node);
        match pos {
            Position::Found(index) => {
                self.0.replace(index, SubTree::Node(node));
                proof {
                    assert forall|p: KeyPath| #[trigger]
                        tree_node_at(*self, p) == (if p == seq![nk] {
                            Some(node)
                        } else if related(p, seq![nk]) {
                            None::<A>
                        } else {
                            tree_node_at(old_tree, p)
                        }) by {
                        lemma_lookup_update(old_tree, *self, index as int, sub, p);
                        lemma_node_related(p, nk);
                    }
                    lemma_wf_replace(old_tree, *self, index as int, sub);
                }
            },
            Position::Before(index) => {
                self.0.insert(index, SubTree::Node(node));
                proof {
                    assert forall|p: KeyPath| #[trigger]
                        tree_node_at(*self, p) == (if p == seq![nk] {
                            Some(node)
                        } else if related(p, seq![nk]) {
                            None::<A>
                        } else {
                            tree_node_at(old_tree, p)
                        }) by {
                        lemma_lookup_insert(old_tree, *self, index as int, sub, p);
                        lemma_node_related(p, nk);
                        lemma_position_missing(old_tree.0@, nk, pos);
                        if p.len() > 0 && p[0] == nk {
                            lemma_missing_key(old_tree, nk, p);
                        }
                    }
                    lemma_wf_insert(old_tree, *self, index as int, sub);
                }
            },
            Position::End => {
                self.0.push(SubTree::Node(node));
                proof {
                    let n = old_tree.0@.len() as int;
                    assert(self.0@ == old_tree.0@.insert(n, sub));
                    assert forall|p: KeyPath| #[trigger]
                        tree_node_at(*self, p) == (if p == seq![nk] {
                            Some(node)
                        } else if related(p, seq![nk]) {
                            None::<A>
                        } else {
                            tree_node_at(old_tree, p)
                        }) by {
                        lemma_lookup_insert(old_tree, *self, n, sub, p);
                        lemma_node_related(p, nk);
                        lemma_position_missing(old_tree.0@, nk, pos);
                        if p.len() > 0 && p[0] == nk {
                            lemma_missing_key(old_tree, nk, p);
                        }
                    }
                    lemma_wf_insert(old_tree, *self, n, sub);
                }
            },
        }
    }
}

/// A path is related to the one-key path `[k]` when it is empty or starts
/// with `k`.
pub proof fn lemma_node_related(p: KeyPath, k: Seq<char>)
    ensures
        related(p, seq![k]) <==> (p.len() == 0 || p[0] == k),
        p.len() > 0 && p[0] == k ==> (p == seq![k] <==> p.len() == 1),
{
    let single = seq![k];
    if p.len() > 0 && p[0] == k {
        assert(p.take(1) =~= single);
        if p.len() == 1 {
            assert(p =~= single);
        }
    }
    if p.len() == 0 {
        assert(single.take(0) =~= p);
    }
    if p.len() > 0 && is_prefix(p, single) {
        assert(p[0] == single.take(p.len() as int)[0]);
    }
    if p.len() > 0 && is_prefix(single, p) {
        assert(p[0] == p.take(1)[0]);
    }
}

/// A key that belongs before, between or after the sub-trees is no sub-tree's
/// key.
pub proof fn lemma_position_missing<K: View<V = Seq<char>>, A: HasKey<K>>(
    subs: Seq<SubTree<K, A>>,
    k: Seq<char>,
    pos: Position,
)
    requires
        position_of(subs, k, pos),
        !(pos is Found),
    ensures
        !has_key(subs, k),
{
    if has_key(subs, k) {
        let j = key_index(subs, k);
        lemma_lt_irreflexive(k);
        match pos {
            Position::Before(i) => {
                if j < i {
                    assert(seq_lt(sub_key(subs[j]), k));
                } else {
                    assert(seq_lt(k, sub_key(subs[j])));
                }
            },
            _ => {
                assert(seq_lt(sub_key(subs[j]), k));
            },
        }
    }
}

/// Nothing is found through a key that no sub-tree has.
pub proof fn lemma_missing_key<K: View<V = Seq<char>>, A: HasKey<K>>(
    t: Tree<K, A>,
    k: Seq<char>,
    p: KeyPath,
)
    requires
        !has_key(t.0@, k),
        p.len() > 0,
        p[0] == k,
    ensures
        tree_node_at(t, p) is None,
{
}

/// Replacing a sub-tree of a well-formed tree by a well-formed one with the
/// same key keeps the tree well-formed.
pub proof fn lemma_wf_replace<K: View<V = Seq<char>>, A: HasKey<K>>(
    t: Tree<K, A>,
    t2: Tree<K, A>,
    i: int,
    s: SubTree<K, A>,
)
    requires
        tree_wf(t),
        0 <= i < t.0@.len(),
        t2.0@ == t.0@.update(i, s),
        sub_key(s) == sub_key(t.0@[i]),
        sub_wf(s),
    ensures
        tree_wf(t2),
{
    lemma_lookup_update(t, t2, i, s, Seq::empty());
    assert forall|j: int| 0 <= j < t2.0@.len() implies sub_wf(#[trigger] t2.0@[j]) by {
        if j != i {
            lemma_wf_sub(t, j);
        }
    }
    lemma_wf_intro(t2);
}

/// Inserting a well-formed sub-tree with a new key in its sorted place
/// keeps the tree well-formed.
pub proof fn lemma_wf_insert<K: View<V = Seq<char>>, A: HasKey<K>>(
    t: Tree<K, A>,
    t2: Tree<K, A>,
    i: int,
    s: SubTree<K, A>,
)
    requires
        tree_wf(t),
        0 <= i <= t.0@.len(),
        t2.0@ == t.0@.insert(i, s),
        forall|j: int| 0 <= j < i ==> seq_lt(#[trigger] sub_key(t.0@[j]), sub_key(s)),
        forall|j: int| i <= j < t.0@.len() ==> seq_lt(sub_key(s), #[trigger] sub_key(t.0@[j])),
        sub_wf(s),
    ensures
        tree_wf(t2),
{
    lemma_lookup_insert(t, t2, i, s, Seq::empty());
    assert forall|j: int| 0 <= j < t2.0@.len() implies sub_wf(#[trigger] t2.0@[j]) by {
        if j < i {
            lemma_wf_sub(t, j);
        } else if j > i {
            lemma_wf_sub(t, j - 1);
        }
    }
    lemma_wf_intro(t2);
}


/// The path, below a sub-tree, at which `node` is put when inserted with the
/// remaining keys `rest`.
pub open spec fn rest_path<K: View<V = Seq<char>>, A: HasKey<K>>(
    rest: Option<NonEmpty<K>>,
    node: A,
) -> KeyPath {
    match rest {
        None => seq![node.spec_key()@],
        Some(ks) => node_path(ks@, node),
    }
}

/// The nodes of a tree after inserting `node` at `target`: `node` there,
/// nothing on the way to it or below it, the rest as before.
pub open spec fn inserted_at<A>(old_node: Option<A>, p: KeyPath, target: KeyPath, node: A) -> Option<A> {
    if p == target {
        Some(node)
    } else if related(p, target) {
        None
    } else {
        old_node
    }
}

impl<K: TreeKey, A: HasKey<K>> Tree<K, A> {
    /// Insert the `node` in the position given by `keys`.
    ///
    /// If the same path to a node is provided the `node` replaces the old
    /// one. If the path points to a branch, then the `node` is inserted in
    /// this branch, replacing a sub-tree with the node's key. If a portion
    /// of the path points to a node then a branch is created in its place.
    /// If the path does not exist it is inserted into the set of sub-trees.
    pub fn insert(&mut self, keys: NonEmpty<K>, node: A)
        requires
            tree_wf(*old(self)),
        ensures
            tree_wf(*final(self)),
            forall|p: KeyPath| #[trigger]
                tree_node_at(*final(self), p) == inserted_at(
                    tree_node_at(*old(self), p),
                    p,
                    node_path(keys@, node),
                    node,
                ),
        decreases keys@.len(), 0nat,
    {
        let ghost old_tree = *self;
        let ghost target = node_path(keys@, node);
        let ghost ks = keys@;
        let NonEmpty { head, tail } = keys;
        let ghost hk = head@;
        let pos = self.search(&head);
        let rest = NonEmpty::from_vec(tail);
        let ghost rp = rest_path(rest, node);
        proof {
            assert(target =~= seq![hk] + rp);
        }
        match pos {
            Position::Found(index) => {
                let ghost old_sub = old_tree.0@[index as int];
                proof {
                    lemma_wf_sub(old_tree, index as int);
                }
                let sub = self.0.get_mut(index);
                Self::insert_into_sub(sub, head, rest, node);
                proof {
                    let new_sub = self.0@[index as int];
                    lemma_wf_replace(old_tree, *self, index as int, new_sub);
                    assert forall|p: KeyPath| #[trigger]
                        tree_node_at(*self, p) == inserted_at(
                            tree_node_at(old_tree, p),
                            p,
                            target,
                            node,
                        ) by {
                        lemma_lookup_update(old_tree, *self, index as int, new_sub, p);
                        if p.len() > 0 && p[0] == hk {
                            lemma_lookup_at(old_tree, index as int, p);
                            lemma_related_cons(p, hk, rp);
                            let q = p.drop_first();
                            if q.len() == 0 {
                                assert(rp.take(0) =~= q);
                            }
                            assert(tree_node_at(*self, p) == sub_node_at(new_sub, q));
                            assert(tree_node_at(old_tree, p) == sub_node_at(old_sub, q));
                            assert(tree_node_at(*self, p) == inserted_at(tree_node_at(old_tree, p), p, target, node));
                        } else if p.len() > 0 {
                            assert(p[0] != target[0]);
                            assert(!related(p, target)) by {
                                if is_prefix(p, target) {
                                    assert(target.take(p.len() as int)[0] == target[0]);
                                }
                                if is_prefix(target, p) {
                                    assert(p.take(target.len() as int)[0] == p[0]);
                                }
                            }
                        } else {
                            assert(target.take(0) =~= p);
                        }
                    }
                }
            },
            _ => {
                let below = match rest {
                    None => Tree::node(node),
                    Some(ks2) => Tree::new(ks2, node),
                };
                let ghost below_v = below;
                let new_sub = SubTree::branch(head, below);
                let ghost n = old_tree.0@.len() as int;
                let ghost index: int = match pos {
                    Position::Before(i) => i as int,
                    _ => n,
                };
                match pos {
                    Position::Before(i) => {
                        self.0.insert(i, new_sub);
                    },
                    _ => {
                        self.0.push(new_sub);
                        assert(self.0@ == old_tree.0@.insert(n, new_sub));
                    },
                }
                proof {
                    lemma_position_missing(old_tree.0@, hk, pos);
                    assert(sub_wf(new_sub));
                    lemma_wf_insert(old_tree, *self, index, new_sub);
                    assert forall|p: KeyPath| #[trigger]
                        tree_node_at(*self, p) == inserted_at(
                            tree_node_at(old_tree, p),
                            p,
                            target,
                            node,
                        ) by {
                        lemma_lookup_insert(old_tree, *self, index, new_sub, p);
                        if p.len() > 0 && p[0] == hk {
                            let q = p.drop_first();
                            lemma_missing_key(old_tree, hk, p);
                            lemma_related_cons(p, hk, rp);
                            lemma_sub_node_branch(head, below_v, q);
                            assert(tree_node_at(*self, p) == sub_node_at(new_sub, q));
                            match rest {
                                None => {
                                    lemma_single_node(below_v, node, q);
                                },
                                Some(ks2) => {
                                    assert(tree_node_at(below_v, q) == (if q == rp { Some(node) } else { None::<A> }));
                                },
                            }
                            if q.len() == 0 {
                                assert(rp.take(0) =~= q);
                                assert(related(q, rp));
                            }
                            assert(tree_node_at(old_tree, p) is None);
                            assert(tree_node_at(*self, p) == inserted_at(tree_node_at(old_tree, p), p, target, node));
                        } else if p.len() > 0 {
                            assert(p[0] != target[0]);
                            assert(!related(p, target)) by {
                                if is_prefix(p, target) {
                                    assert(target.take(p.len() as int)[0] == target[0]);
                                }
                                if is_prefix(target, p) {
                                    assert(p.take(target.len() as int)[0] == p[0]);
                                }
                            }
                            assert(sub_key(new_sub) == hk);
                            assert(tree_lookup(*self, p) == tree_lookup(old_tree, p));
                            assert(tree_node_at(*self, p) == inserted_at(tree_node_at(old_tree, p), p, target, node));
                        } else {
                            assert(target.take(0) =~= p);
                        }
                    }
                }
            },
        }
    }

    /// Insert `node` below the sub-tree `sub` (whose key is `head`), at the
    /// remaining keys `rest`: a node there becomes a branch.
    fn insert_into_sub(sub: &mut SubTree<K, A>, head: K, rest: Option<NonEmpty<K>>, node: A)
        requires
            sub_wf(*old(sub)),
            sub_key(*old(sub)) == head@,
        ensures
            sub_wf(*final(sub)),
            sub_key(*final(sub)) == head@,
            forall|q: KeyPath| #[trigger]
                sub_node_at(*final(sub), q) == (if q.len() == 0 {
                    None::<A>
                } else {
                    inserted_at(sub_node_at(*old(sub), q), q, rest_path(rest, node), node)
                }),
        decreases (match rest {
            None => 0,
            Some(ks) => ks@.len(),
        }), 1nat,
    {
        let ghost rp = rest_path(rest, node);
        let ghost old_sub = *old(sub);
        let is_node = match &*sub {
            SubTree::Node(_) => true,
            SubTree::Branch { .. } => false,
        };
        if is_node {
            let ghost a = old_sub->Node_0;
            let below = match rest {
                None => Tree::node(node),
                Some(ks2) => Tree::new(ks2, node),
            };
            let ghost below_v = below;
            *sub = SubTree::branch(head, below);
            proof {
                assert forall|q: KeyPath| #[trigger]
                    sub_node_at(*sub, q) == (if q.len() == 0 {
                        None::<A>
                    } else {
                        inserted_at(sub_node_at(old_sub, q), q, rp, node)
                    }) by {
                    lemma_sub_node_branch(head, below_v, q);
                    lemma_sub_node_node::<K, A>(a, q);
                    match rest {
                        None => {
                            lemma_single_node(below_v, node, q);
                        },
                        Some(_) => {
                            assert(tree_node_at(below_v, q) == (if q == rp { Some(node) } else { None::<A> }));
                        },
                    }
                }
            }
            return;
        }
        match sub {
            SubTree::Node(_) => {
                assert(false);
            },
            SubTree::Branch { forest, .. } => {
                let ghost old_forest = **forest;
                match rest {
                    None => {
                        forest.insert_node(node);
                    },
                    Some(ks2) => {
                        forest.insert(ks2, node);
                    },
                }
                proof {
                    assert(sub_wf(*sub));
                    assert forall|q: KeyPath| #[trigger]
                        sub_node_at(*sub, q) == (if q.len() == 0 {
                            None::<A>
                        } else {
                            inserted_at(sub_node_at(old_sub, q), q, rp, node)
                        }) by {
                        lemma_sub_node_branch(old_sub->Branch_key, old_forest, q);
                        lemma_sub_node_branch(old_sub->Branch_key, **forest, q);
                    }
                }
            },
        }
    }
}


/// Looking up `p + q` is looking up `p`, then `q` below what was found.
pub proof fn lemma_lookup_concat<K: View<V = Seq<char>>, A: HasKey<K>>(
    t: Tree<K, A>,
    p: KeyPath,
    q: KeyPath,
)
    requires
        p.len() > 0,
    ensures
        tree_lookup(t, p + q) == (match tree_lookup(t, p) {
            None => None,
            Some(s) => sub_lookup(s, q),
        }),
    decreases t,
{
    let pq = p + q;
    assert(pq[0] == p[0]);
    if has_key(t.0@, p[0]) {
        let i = key_index(t.0@, p[0]);
        let s = t.0@[i];
        let rest = p.drop_first();
        assert(pq.drop_first() =~= rest + q);
        if i == 0 {
            assert(s == t.0.head);
        } else {
            assert(s == t.0.tail@[i - 1]);
        }
        assert(tree_lookup(t, pq) == sub_lookup(s, rest + q));
        assert(tree_lookup(t, p) == sub_lookup(s, rest));
        if rest.len() == 0 {
            assert(rest + q =~= q);
        } else {
            match s {
                SubTree::Node(_) => {},
                SubTree::Branch { forest, .. } => {
                    lemma_lookup_concat(*forest, rest, q);
                },
            }
        }
    }
}

/// A well-formed tree holds a node somewhere.
pub proof fn lemma_tree_has_node<K: View<V = Seq<char>>, A: HasKey<K>>(t: Tree<K, A>)
    requires
        tree_wf(t),
    ensures
        exists|q: KeyPath| q.len() > 0 && #[trigger] tree_node_at(t, q) is Some,
    decreases t,
{
    let head = t.0.head;
    assert(t.0@[0] == head);
    let k = sub_key(head);
    match head {
        SubTree::Node(a) => {
            let q = seq![k];
            lemma_lookup_at(t, 0, q);
            assert(tree_node_at(t, q) is Some);
        },
        SubTree::Branch { forest, .. } => {
            lemma_tree_has_node(*forest);
            let r = choose|r: KeyPath| r.len() > 0 && #[trigger] tree_node_at(*forest, r) is Some;
            let q = seq![k] + r;
            lemma_lookup_at(t, 0, q);
            assert(q.drop_first() =~= r);
            assert(tree_node_at(t, q) is Some);
        },
    }
}

/// The sub-tree that `path` leads to in the forest `f`, if any.
pub open spec fn forest_lookup<K: View<V = Seq<char>>, A: HasKey<K>>(
    f: Forest<K, A>,
    path: KeyPath,
) -> Option<SubTree<K, A>> {
    match f.0 {
        None => None,
        Some(t) => tree_lookup(t, path),
    }
}

/// The nodes of a forest after inserting `node` at `target`.
pub open spec fn insert_view<A>(m: Map<KeyPath, A>, target: KeyPath, node: A) -> Map<KeyPath, A> {
    m.remove_keys(Set::new(|p: KeyPath| related(p, target))).insert(target, node)
}

impl<K: TreeKey, A: HasKey<K>> Tree<K, A> {
    /// Find the sub-tree at the path `keys`: a node when the path ends at
    /// one, the branch when it ends at one, and `None` when it leads
    /// nowhere.
    pub fn find(&self, keys: NonEmpty<K>) -> (r: Option<&SubTree<K, A>>)
        requires
            tree_wf(*self),
        ensures
            match r {
                Some(sub) => tree_lookup(*self, keys_view(keys@)) == Some(*sub),
                None => tree_lookup(*self, keys_view(keys@)) is None,
            },
        decreases keys@.len(),
    {
        let ghost path = keys_view(keys@);
        let NonEmpty { head, tail } = keys;
        let ghost rest_v = keys_view(tail@);
        proof {
            assert(path.drop_first() =~= rest_v);
        }
        match self.search(&head) {
            Position::Found(index) => {
                proof {
                    lemma_lookup_at(*self, index as int, path);
                    lemma_wf_sub(*self, index as int);
                }
                let sub_tree = self.0.get(index);
                match NonEmpty::from_vec(tail) {
                    None => Some(sub_tree),
                    Some(rest) => match sub_tree {
                        SubTree::Node(_) => None,
                        SubTree::Branch { forest, .. } => forest.find(rest),
                    },
                }
            },
            pos => {
                proof {
                    lemma_position_missing(self.0@, head@, pos);
                }
                None
            },
        }
    }
}

impl<K, A> Forest<K, A> {
    /// The empty forest.
    pub fn root() -> (r: Self)
        ensures
            r.0 is None,
    {
        Forest(None)
    }

    /// Whether the forest holds no tree.
    pub fn is_empty(&self) -> (b: bool)
        ensures
            b == self.0 is None,
    {
        self.0.is_none()
    }

    /// Replace the forest's contents by the tree `forest`.
    fn insert_forest(&mut self, forest: Tree<K, A>)
        ensures
            final(self).0 == Some(forest),
    {
        self.0 = Some(forest)
    }
}

impl<K: TreeKey, A: HasKey<K>> Forest<K, A> {
    /// Insert the `node` in the position given by `keys` (the empty list of
    /// keys puts it at the top level).
    ///
    /// If the same path to a node is provided the `node` replaces the old
    /// one; if the path points to a branch the `node` is inserted in it; if
    /// a portion of the path points to a node then a branch is created in
    /// its place; if the path does not exist it is created.
    pub fn insert(&mut self, keys: Vec<K>, node: A)
        requires
            forest_wf(*old(self)),
        ensures
            forest_wf(*final(self)),
            final(self)@ == insert_view(old(self)@, node_path(keys@, node), node),
    {
        let ghost old_forest = *self;
        let ghost target = node_path(keys@, node);
        let ghost nk = node.spec_key()@;
        let ghost ks = keys@;
        let maybe_keys = NonEmpty::from_vec(keys);
        proof {
            if ks.len() == 0 {
                assert(target =~= seq![nk]);
            }
        }
        match self.0.as_mut() {
            Some(tree) => {
                let ghost old_tree = *tree;
                match maybe_keys {
                    None => tree.insert_node(node),
                    Some(keys) => tree.insert(keys, node),
                }
                proof {
                    assert(self.0 == Some(*tree));
                    assert(self@ =~= insert_view(old_forest@, target, node)) by {
                        assert forall|p: KeyPath| #[trigger]
                            tree_node_at(*tree, p) == inserted_at(
                                tree_node_at(old_tree, p),
                                p,
                                target,
                                node,
                            ) by {}
                    }
                }
            },
            None => {
                let tree = match maybe_keys {
                    None => Tree::node(node),
                    Some(keys) => Tree::new(keys, node),
                };
                let ghost t = tree;
                self.insert_forest(tree);
                proof {
                    assert forall|p: KeyPath| #[trigger]
                        tree_node_at(t, p) == (if p == target {
                            Some(node)
                        } else {
                            None::<A>
                        }) by {
                        if ks.len() == 0 {
                            lemma_single_node(t, node, p);
                        }
                    }
                    assert(self@ =~= insert_view(old_forest@, target, node));
                }
            },
        }
    }

    /// Find the sub-tree at the path `keys` (see [`Tree::find`]).
    pub fn find(&self, keys: NonEmpty<K>) -> (r: Option<&SubTree<K, A>>)
        requires
            forest_wf(*self),
        ensures
            match r {
                Some(sub) => forest_lookup(*self, keys_view(keys@)) == Some(*sub),
                None => forest_lookup(*self, keys_view(keys@)) is None,
            },
    {
        match &self.0 {
            None => None,
            Some(tree) => tree.find(keys),
        }
    }
}

} // verus!
