//! The greatest node of a tree under a comparison function.
use std::cmp::Ordering;
use vstd::prelude::*;
use vstd::laws_cmp::{obeys_cmp, obeys_cmp_ord, obeys_cmp_partial_ord, obeys_partial_cmp_spec_properties};
use vstd::laws_eq::obeys_eq_spec_properties;
use vstd::std_specs::cmp::{OrdSpec, PartialEqSpec, PartialOrdSpec};

use crate::tree::{
    idx,
    lemma_lookup_at, lemma_wf_sub, sub_key, sub_node_at, sub_wf, tree_node_at, tree_wf, HasKey,
    KeyPath, SubTree, Tree, TreeKey, Forest, forest_wf,
};

verus! {

/// `f` answers `Greater` on `a` and `b` exactly when `a` is not below `b`
/// under `below`.
pub open spec fn agrees<A, F: Fn(&A, &A) -> Ordering>(f: F, below: spec_fn(A, A) -> bool) -> bool {
    forall|a: A, b: A, o: Ordering|
        #[trigger] call_ensures(f, (&a, &b), o) ==> (o == Ordering::Greater <==> !below(a, b))
}

/// `below` is a total preorder: any two values are ordered one way or the
/// other, and the order is transitive.
pub open spec fn total_preorder<A>(below: spec_fn(A, A) -> bool) -> bool {
    &&& forall|a: A, b: A| #[trigger] below(a, b) || below(b, a)
    &&& forall|a: A, b: A, c: A|
        #![trigger below(a, b), below(b, c)]
        below(a, b) && below(b, c) ==> below(a, c)
}

/// `f` can be called on any two values.
pub open spec fn callable<A, F: Fn(&A, &A) -> Ordering>(f: F) -> bool {
    forall|a: A, b: A| call_requires(f, (&a, &b))
}

/// `m` is a node below the sub-tree `s` and, under every total preorder
/// that `f` answers by, no node below `s` is above `m`.
pub open spec fn sub_max_by<K: View<V = Seq<char>>, A: HasKey<K>, F: Fn(&A, &A) -> Ordering>(
    f: F,
    s: SubTree<K, A>,
    m: A,
) -> bool {
    &&& exists|q: KeyPath| sub_node_at(s, q) == Some(m)
    &&& forall|below: spec_fn(A, A) -> bool|
        #[trigger] agrees(f, below) && total_preorder(below) ==> forall|q: KeyPath|
            #[trigger] sub_node_at(s, q) is Some ==> below(sub_node_at(s, q)->0, m)
}

/// `m` is a node of `t` and, under every total preorder that `f` answers
/// by, no node of `t` is above `m`.
pub open spec fn tree_max_by<K: View<V = Seq<char>>, A: HasKey<K>, F: Fn(&A, &A) -> Ordering>(
    f: F,
    t: Tree<K, A>,
    m: A,
) -> bool {
    &&& exists|p: KeyPath| tree_node_at(t, p) == Some(m)
    &&& forall|below: spec_fn(A, A) -> bool|
        #[trigger] agrees(f, below) && total_preorder(below) ==> forall|p: KeyPath|
            #[trigger] tree_node_at(t, p) is Some ==> below(tree_node_at(t, p)->0, m)
}

/// `a` is not above `b` in `A`'s order.
pub open spec fn not_above<A: Ord>(a: A, b: A) -> bool {
    a.cmp_spec(&b) != Ordering::Greater
}

/// When `A`'s order obeys the laws of an order, "not above" is a total
/// preorder.
pub proof fn lemma_ord_total_preorder<A: Ord>()
    requires
        obeys_cmp::<A>(),
    ensures
        total_preorder(|a: A, b: A| not_above(a, b)),
{
    reveal(obeys_cmp_ord);
    reveal(obeys_cmp_partial_ord);
    reveal(obeys_partial_cmp_spec_properties);
    reveal(obeys_eq_spec_properties);
    let below = |a: A, b: A| not_above(a, b);
    assert forall|a: A, b: A| #[trigger] below(a, b) || below(b, a) by {
        assert(a.partial_cmp_spec(&b) == Some(a.cmp_spec(&b)));
        assert(b.partial_cmp_spec(&a) == Some(b.cmp_spec(&a)));
    }
    assert forall|a: A, b: A, c: A|
        #[trigger] below(a, b) && #[trigger] below(b, c) implies below(a, c) by {
        assert(a.partial_cmp_spec(&b) == Some(a.cmp_spec(&b)));
        assert(b.partial_cmp_spec(&c) == Some(b.cmp_spec(&c)));
        assert(a.partial_cmp_spec(&c) == Some(a.cmp_spec(&c)));
        assert(c.partial_cmp_spec(&a) == Some(c.cmp_spec(&a)));
        assert(c.partial_cmp_spec(&b) == Some(c.cmp_spec(&b)));
        assert(b.partial_cmp_spec(&a) == Some(b.cmp_spec(&a)));
        if a.cmp_spec(&c) == Ordering::Greater {
            assert(c.partial_cmp_spec(&a) == Some(Ordering::Less));
            if a.cmp_spec(&b) == Ordering::Equal && b.cmp_spec(&c) == Ordering::Equal {
                assert(a.eq_spec(&b) && b.eq_spec(&c));
                assert(a.eq_spec(&c));
            } else if a.cmp_spec(&b) == Ordering::Less && b.cmp_spec(&c) == Ordering::Less {
                assert(a.partial_cmp_spec(&c) == Some(Ordering::Less));
            } else if a.cmp_spec(&b) == Ordering::Less {
                assert(b.eq_spec(&c));
                assert(c.eq_spec(&b));
                assert(c.partial_cmp_spec(&b) == Some(Ordering::Less));
            } else {
                assert(a.eq_spec(&b));
                assert(b.eq_spec(&a));
                assert(b.partial_cmp_spec(&a) == Some(Ordering::Less));
            }
        }
    }
}

/// `below` is antisymmetric: two values each not above the other are the
/// same value.
pub open spec fn antisymmetric<A>(below: spec_fn(A, A) -> bool) -> bool {
    forall|a: A, b: A| #[trigger] below(a, b) && #[trigger] below(b, a) ==> a == b
}

/// Under a total order that `f` answers by, a sub-tree has one greatest
/// node: any two greatest nodes found are the same node.
pub proof fn lemma_sub_max_unique<K: View<V = Seq<char>>, A: HasKey<K>, F: Fn(&A, &A) -> Ordering>(
    f: F,
    below: spec_fn(A, A) -> bool,
    s: SubTree<K, A>,
    a: A,
    b: A,
)
    requires
        agrees(f, below),
        total_preorder(below),
        antisymmetric(below),
        sub_max_by(f, s, a),
        sub_max_by(f, s, b),
    ensures
        a == b,
{
    let qa = choose|q: KeyPath| sub_node_at(s, q) == Some(a);
    let qb = choose|q: KeyPath| sub_node_at(s, q) == Some(b);
    assert(sub_node_at(s, qa) is Some);
    assert(sub_node_at(s, qb) is Some);
    assert(below(a, b));
    assert(below(b, a));
}

/// A node of a sub-tree, and its path below the sub-tree's key, is a node
/// of the tree at the path through that key.
pub proof fn lemma_node_in_tree<K: View<V = Seq<char>>, A: HasKey<K>>(
    t: Tree<K, A>,
    i: int,
    q: KeyPath,
)
    requires
        tree_wf(t),
        0 <= i < t.0@.len(),
    ensures
        tree_node_at(t, seq![sub_key(t.0@[i])] + q) == sub_node_at(t.0@[i], q),
{
    let p = seq![sub_key(t.0@[i])] + q;
    assert(p.drop_first() =~= q);
    lemma_lookup_at(t, i, p);
}

/// Every node of a tree is a node of one of its sub-trees.
pub proof fn lemma_tree_node_in_sub<K: View<V = Seq<char>>, A: HasKey<K>>(
    t: Tree<K, A>,
    p: KeyPath,
) -> (j: int)
    requires
        tree_wf(t),
        tree_node_at(t, p) is Some,
    ensures
        0 <= j < t.0@.len(),
        tree_node_at(t, p) == sub_node_at(t.0@[j], p.drop_first()),
{
    let j = crate::tree::key_index(t.0@, p[0]);
    lemma_lookup_at(t, j, p);
    j
}

impl<K: TreeKey, A: HasKey<K>> SubTree<K, A> {
    /// The greatest node below this sub-tree under `f`: the node itself, or
    /// the greatest node of the branch's tree.
    pub fn maximum_by<F: Fn(&A, &A) -> Ordering>(&self, f: &F) -> (r: &A)
        requires
            sub_wf(*self),
            callable(*f),
        ensures
            sub_max_by(*f, *self, *r),
        decreases *self, 2nat,
    {
        match self {
            SubTree::Node(node) => {
                proof {
                    assert(*self == SubTree::<K, A>::Node(*node));
                    assert(sub_node_at(*self, Seq::empty()) == Some(*node));
                    assert forall|below: spec_fn(A, A) -> bool|
                        #[trigger] agrees(*f, below) && total_preorder(below) implies forall|
                        q: KeyPath,
                    | #[trigger] sub_node_at(*self, q) is Some ==> below(
                        sub_node_at(*self, q)->0,
                        *node,
                    ) by {
                        assert(below(*node, *node) || below(*node, *node));
                    }
                }
                node
            },
            SubTree::Branch { forest, .. } => {
                let r = forest.maximum_by(f);
                proof {
                    let p = choose|p: KeyPath| tree_node_at(**forest, p) == Some(*r);
                    crate::tree::lemma_sub_node_branch(self->Branch_key, **forest, p);
                    assert(sub_node_at(*self, p) == Some(*r));
                    assert forall|below: spec_fn(A, A) -> bool|
                        #[trigger] agrees(*f, below) && total_preorder(below) implies forall|
                        q: KeyPath,
                    | #[trigger] sub_node_at(*self, q) is Some ==> below(sub_node_at(*self, q)->0, *r) by {
                        assert forall|q: KeyPath| #[trigger]
                            sub_node_at(*self, q) is Some implies below(sub_node_at(*self, q)->0, *r) by {
                            crate::tree::lemma_sub_node_branch(self->Branch_key, **forest, q);
                            assert(tree_node_at(**forest, q) is Some);
                        }
                    }
                }
                r
            },
        }
    }

    /// Compare two sub-trees by their greatest nodes under `f`. `parent` is
    /// the tree both sub-trees belong to.
    fn compare_by<F: Fn(&A, &A) -> Ordering>(
        &self,
        other: &Self,
        f: &F,
        parent: Ghost<Tree<K, A>>,
    ) -> (r: Ordering)
        requires
            sub_wf(*self),
            sub_wf(*other),
            callable(*f),
            decreases_to!(parent@ => *self),
            decreases_to!(parent@ => *other),
        ensures
            exists|a: A, b: A|
                sub_max_by(*f, *self, a) && sub_max_by(*f, *other, b) && call_ensures(
                    *f,
                    (&a, &b),
                    r,
                ),
            forall|below: spec_fn(A, A) -> bool, a: A, b: A|
                #![trigger agrees(*f, below), sub_max_by(*f, *self, a), sub_max_by(*f, *other, b)]
                agrees(*f, below) && total_preorder(below) && antisymmetric(below) && sub_max_by(
                    *f,
                    *self,
                    a,
                ) && sub_max_by(*f, *other, b) ==> call_ensures(*f, (&a, &b), r),
        decreases parent@, 0nat,
    {
        let max_self = self.maximum_by(f);
        let max_other = other.maximum_by(f);
        let r = f(max_self, max_other);
        proof {
            assert forall|below: spec_fn(A, A) -> bool, a: A, b: A|
                agrees(*f, below) && total_preorder(below) && antisymmetric(below) && sub_max_by(
                    *f,
                    *self,
                    a,
                ) && sub_max_by(*f, *other, b) implies call_ensures(*f, (&a, &b), r) by {
                lemma_sub_max_unique(*f, below, *self, a, *max_self);
                lemma_sub_max_unique(*f, below, *other, b, *max_other);
            }
        }
        r
    }
}

impl<K: TreeKey, A: HasKey<K>> Tree<K, A> {
    /// The greatest node of the tree under `f`. Sub-trees are compared by
    /// their greatest nodes, and of equally great ones the last is kept.
    pub fn maximum_by<F: Fn(&A, &A) -> Ordering>(&self, f: &F) -> (r: &A)
        requires
            tree_wf(*self),
            callable(*f),
        ensures
            tree_max_by(*f, *self, *r),
        decreases *self, 1nat,
    {
        let subs = &self.0;
        let ghost t = *self;
        let mut acc: usize = 0;
        let mut i: usize = 0;
        proof {
            lemma_wf_sub(t, 0);
        }
        while i < subs.tail.len()
            invariant
                subs == &self.0,
                t == *self,
                tree_wf(t),
                callable(*f),
                acc <= i <= subs.tail@.len(),
                forall|below: spec_fn(A, A) -> bool|
                    #[trigger] agrees(*f, below) && total_preorder(below) ==> forall|
                        j: int,
                        q: KeyPath,
                        m: A,
                    |
                        0 <= j <= i && #[trigger] sub_node_at(subs@[j], q) is Some
                            && #[trigger] sub_max_by(*f, subs@[idx(acc)], m) ==> below(
                            sub_node_at(subs@[j], q)->0,
                            m,
                        ),
            decreases subs.tail@.len() - i,
        {
            proof {
                lemma_wf_sub(t, idx(acc));
                lemma_wf_sub(t, i + 1);
                assert(subs@[i + 1] == subs.tail@[idx(i)]);
            }
            let acc_sub = subs.get(acc);
            let next = &subs.tail[i];
            let o = acc_sub.compare_by(next, f, Ghost(t));
            let ghost (a, b) = choose|a: A, b: A|
                sub_max_by(*f, subs@[idx(acc)], a) && sub_max_by(*f, subs@[i + 1], b)
                    && call_ensures(*f, (&a, &b), o);
            match o {
                Ordering::Greater => {
                    proof {
                        assert forall|below: spec_fn(A, A) -> bool|
                            #[trigger] agrees(*f, below) && total_preorder(below) implies forall|
                            j: int,
                            q: KeyPath,
                            m: A,
                        |
                            0 <= j <= i + 1 && #[trigger] sub_node_at(subs@[j], q) is Some
                                && #[trigger] sub_max_by(*f, subs@[idx(acc)], m) ==> below(
                                sub_node_at(subs@[j], q)->0,
                                m,
                            ) by {
                            assert(!below(a, b));
                            assert(below(a, b) || below(b, a));
                            assert forall|j: int, q: KeyPath, m: A|
                                0 <= j <= i + 1 && #[trigger] sub_node_at(subs@[j], q) is Some
                                    && #[trigger] sub_max_by(*f, subs@[idx(acc)], m) implies below(
                                sub_node_at(subs@[j], q)->0,
                                m,
                            ) by {
                                let qa = choose|q: KeyPath| sub_node_at(subs@[idx(acc)], q) == Some(a);
                                assert(sub_node_at(subs@[idx(acc)], qa) is Some);
                                assert(below(a, m));
                                if j == i + 1 {
                                    let x = sub_node_at(subs@[j], q)->0;
                                    assert(below(x, b));
                                    assert(below(x, a));
                                }
                            }
                        }
                    }
                },
                _ => {
                    proof {
                        assert forall|below: spec_fn(A, A) -> bool|
                            #[trigger] agrees(*f, below) && total_preorder(below) implies forall|
                            j: int,
                            q: KeyPath,
                            m: A,
                        |
                            0 <= j <= i + 1 && #[trigger] sub_node_at(subs@[j], q) is Some
                                && #[trigger] sub_max_by(*f, subs@[i + 1], m) ==> below(
                                sub_node_at(subs@[j], q)->0,
                                m,
                            ) by {
                            assert(below(a, b));
                            assert forall|j: int, q: KeyPath, m: A|
                                0 <= j <= i + 1 && #[trigger] sub_node_at(subs@[j], q) is Some
                                    && #[trigger] sub_max_by(*f, subs@[i + 1], m) implies below(
                                sub_node_at(subs@[j], q)->0,
                                m,
                            ) by {
                                let sb = subs@[i + 1];
                                let qb = choose|q: KeyPath| sub_node_at(sb, q) == Some(b);
                                assert(sub_node_at(sb, qb) is Some);
                                assert(below(b, m));
                                if j <= i {
                                    let x = sub_node_at(subs@[j], q)->0;
                                    assert(below(x, a));
                                    assert(below(x, b));
                                }
                            }
                        }
                    }
                    acc = i + 1;
                },
            }
            i = i + 1;
        }
        proof {
            lemma_wf_sub(t, idx(acc));
        }
        let r = subs.get(acc).maximum_by(f);
        proof {
            let q = choose|q: KeyPath| sub_node_at(subs@[idx(acc)], q) == Some(*r);
            lemma_node_in_tree(t, idx(acc), q);
            assert forall|below: spec_fn(A, A) -> bool|
                #[trigger] agrees(*f, below) && total_preorder(below) implies forall|p: KeyPath|
                #[trigger] tree_node_at(t, p) is Some ==> below(tree_node_at(t, p)->0, *r) by {
                assert forall|p: KeyPath| #[trigger] tree_node_at(t, p) is Some implies below(
                    tree_node_at(t, p)->0,
                    *r,
                ) by {
                    let j = lemma_tree_node_in_sub(t, p);
                    if j > 0 {
                        assert(subs@[j] == subs.tail@[j - 1]);
                    }
                    assert(sub_node_at(subs@[j], p.drop_first()) is Some);
                    assert(sub_max_by(*f, subs@[idx(acc)], *r));
                }
            }
        }
        r
    }

    /// The greatest node of the tree under `Ord`: a node of the tree and,
    /// when `A`'s order obeys the laws of an order, no node is above it.
    pub fn maximum(&self) -> (r: &A)
        where
            A: Ord,
        requires
            tree_wf(*self),
        ensures
            exists|p: KeyPath| tree_node_at(*self, p) == Some(*r),
            obeys_cmp::<A>() ==> forall|p: KeyPath|
                #[trigger] tree_node_at(*self, p) is Some ==> not_above(tree_node_at(*self, p)->0, *r),
    {
        let by_ord = |a: &A, b: &A| -> (o: Ordering)
            ensures
                A::obeys_cmp_spec() ==> o == a.cmp_spec(b),
            { a.cmp(b) };
        let r = self.maximum_by(&by_ord);
        proof {
            if obeys_cmp::<A>() {
                let below = |a: A, b: A| not_above(a, b);
                lemma_ord_total_preorder::<A>();
                reveal(obeys_cmp_ord);
                assert forall|a: A, b: A, o: Ordering| #[trigger]
                    call_ensures(by_ord, (&a, &b), o) implies (o == Ordering::Greater <==> !below(
                    a,
                    b,
                )) by {
                    assert(o == a.cmp_spec(&b));
                }
                assert(agrees(by_ord, below));
                assert forall|p: KeyPath| #[trigger]
                    tree_node_at(*self, p) is Some implies not_above(tree_node_at(*self, p)->0, *r) by {
                    assert(below(tree_node_at(*self, p)->0, *r));
                }
            }
        }
        r
    }
}

impl<K: TreeKey, A: HasKey<K>> Forest<K, A> {
    /// The greatest node of the forest under `f`, or `None` for the empty
    /// forest.
    pub fn maximum_by<F: Fn(&A, &A) -> Ordering>(&self, f: F) -> (r: Option<&A>)
        requires
            forest_wf(*self),
            callable(f),
        ensures
            r is None <==> self.0 is None,
            r matches Some(m) ==> tree_max_by(f, self.0->0, *m),
    {
        match &self.0 {
            None => None,
            Some(trees) => Some(trees.maximum_by(&f)),
        }
    }
}

} // verus!
