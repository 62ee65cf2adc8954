//! Copies of directory trees: the same shape, keys and files.
use vstd::prelude::*;

use super::{files_of, DirSub, DirTree, File};
use crate::file_system::path::Label;
use crate::nonempty::NonEmpty;
use crate::tree::{tree_lookup, tree_node_at, tree_wf, KeyPath, SubTree, Tree};

verus! {

/// `b` is a copy of the named file `a`: the same name and the same file.
pub open spec fn entry_copy(a: (Label, File), b: (Label, File)) -> bool {
    a.0 == b.0 && a.1@ == b.1@
}

/// `b` is a copy of the sub-tree `a`: the same shape, keys and files.
pub open spec fn sub_copy(a: DirSub, b: DirSub) -> bool
    decreases a,
{
    match a {
        SubTree::Node(x) => match b {
            SubTree::Node(y) => entry_copy(x, y),
            _ => false,
        },
        SubTree::Branch { key, forest } => match b {
            SubTree::Branch { key: k2, forest: f2 } => key == k2 && tree_copy(*forest, *f2),
            _ => false,
        },
    }
}

/// `b` is a copy of the tree `a`.
pub open spec fn tree_copy(a: DirTree, b: DirTree) -> bool
    decreases a,
{
    &&& a.0.tail@.len() == b.0.tail@.len()
    &&& sub_copy(a.0.head, b.0.head)
    &&& forall|j: int| 0 <= j < a.0.tail@.len() ==> sub_copy(#[trigger] a.0.tail@[j], b.0.tail@[j])
}

/// Copy a sub-tree that belongs to the tree `parent`.
fn copy_sub(s: &DirSub, parent: Ghost<DirTree>) -> (r: DirSub)
    requires
        decreases_to!(parent@ => *s),
    ensures
        sub_copy(*s, r),
    decreases parent@, 0nat,
{
    match s {
        SubTree::Node(entry) => SubTree::Node((entry.0.clone(), entry.1.clone())),
        SubTree::Branch { key, forest } => SubTree::Branch {
            key: key.clone(),
            forest: Box::new(copy_tree(forest)),
        },
    }
}

/// Copy a tree.
pub(crate) fn copy_tree(t: &DirTree) -> (r: DirTree)
    ensures
        tree_copy(*t, r),
    decreases *t, 1nat,
{
    let head = copy_sub(&t.0.head, Ghost(*t));
    let mut tail: Vec<DirSub> = Vec::new();
    let mut i: usize = 0;
    while i < t.0.tail.len()
        invariant
            i <= t.0.tail@.len(),
            tail@.len() == i,
            forall|j: int| 0 <= j < i ==> sub_copy(#[trigger] t.0.tail@[j], tail@[j]),
        decreases t.0.tail@.len() - i,
    {
        let c = copy_sub(&t.0.tail[i], Ghost(*t));
        tail.push(c);
        i = i + 1;
    }
    Tree(NonEmpty { head, tail })
}

/// A copy of a tree has, index by index, copies of its sub-trees.
proof fn lemma_copy_subs(a: DirTree, b: DirTree)
    requires
        tree_copy(a, b),
    ensures
        a.0@.len() == b.0@.len(),
        forall|i: int| 0 <= i < a.0@.len() ==> sub_copy(#[trigger] a.0@[i], b.0@[i]),
        forall|i: int| 0 <= i < a.0@.len() ==> crate::tree::sub_key(#[trigger] a.0@[i])
            == crate::tree::sub_key(b.0@[i]),
{
    assert forall|i: int| 0 <= i < a.0@.len() implies sub_copy(#[trigger] a.0@[i], b.0@[i]) by {
        if i > 0 {
            assert(a.0@[i] == a.0.tail@[i - 1]);
            assert(b.0@[i] == b.0.tail@[i - 1]);
        }
    }
    assert forall|i: int| 0 <= i < a.0@.len() implies crate::tree::sub_key(#[trigger] a.0@[i])
        == crate::tree::sub_key(b.0@[i]) by {
        assert(sub_copy(a.0@[i], b.0@[i]));
    }
}

/// A copy of a well-formed tree is well-formed.
proof fn lemma_copy_wf(a: DirTree, b: DirTree)
    requires
        tree_wf(a),
        tree_copy(a, b),
    ensures
        tree_wf(b),
    decreases a,
{
    lemma_copy_subs(a, b);
    assert(crate::tree::sorted(b.0@)) by {
        assert forall|i: int, j: int| 0 <= i < j < b.0@.len() implies crate::strings::seq_lt(
            #[trigger] crate::tree::sub_key(b.0@[i]),
            #[trigger] crate::tree::sub_key(b.0@[j]),
        ) by {
            assert(crate::tree::sub_key(a.0@[i]) == crate::tree::sub_key(b.0@[i]));
            assert(crate::tree::sub_key(a.0@[j]) == crate::tree::sub_key(b.0@[j]));
        }
    }
    assert forall|i: int| 0 <= i < b.0@.len() implies crate::tree::sub_wf(#[trigger] b.0@[i]) by {
        crate::tree::lemma_wf_sub(a, i);
        let x = a.0@[i];
        assert(sub_copy(x, b.0@[i]));
        if i > 0 {
            assert(x == a.0.tail@[i - 1]);
        }
        match x {
            SubTree::Node(_) => {},
            SubTree::Branch { forest, .. } => {
                match b.0@[i] {
                    SubTree::Branch { forest: f2, .. } => {
                        lemma_copy_wf(*forest, *f2);
                    },
                    _ => {},
                }
            },
        }
    }
    crate::tree::lemma_wf_intro(b);
}

/// Look-ups in a copy find copies of what the copied tree holds.
proof fn lemma_copy_lookup(a: DirTree, b: DirTree, p: KeyPath)
    requires
        tree_wf(a),
        tree_copy(a, b),
    ensures
        match (tree_lookup(a, p), tree_lookup(b, p)) {
            (None, None) => true,
            (Some(x), Some(y)) => sub_copy(x, y),
            _ => false,
        },
    decreases a,
{
    lemma_copy_subs(a, b);
    lemma_copy_wf(a, b);
    if p.len() > 0 && crate::tree::has_key(a.0@, p[0]) {
        let i = crate::tree::key_index(a.0@, p[0]);
        crate::tree::lemma_lookup_at(a, i, p);
        crate::tree::lemma_lookup_at(b, i, p);
        crate::tree::lemma_wf_sub(a, i);
        let rest = p.drop_first();
        if rest.len() > 0 {
            match a.0@[i] {
                SubTree::Node(_) => {},
                SubTree::Branch { forest, .. } => {
                    if i > 0 {
                        assert(a.0@[i] == a.0.tail@[i - 1]);
                    }
                    match b.0@[i] {
                        SubTree::Branch { forest: f2, .. } => {
                            lemma_copy_lookup(*forest, *f2, rest);
                        },
                        _ => {},
                    }
                },
            }
        }
    } else if p.len() > 0 {
        assert(!crate::tree::has_key(b.0@, p[0])) by {
            if crate::tree::has_key(b.0@, p[0]) {
                let j = crate::tree::key_index(b.0@, p[0]);
                assert(crate::tree::sub_key(a.0@[j]) == p[0]);
            }
        }
    }
}

/// A copy of a tree holds the same files.
pub(crate) proof fn lemma_copy_files(a: DirTree, b: DirTree)
    requires
        tree_wf(a),
        tree_copy(a, b),
    ensures
        tree_wf(b),
        files_of(crate::tree::tree_nodes(b)) == files_of(crate::tree::tree_nodes(a)),
{
    lemma_copy_wf(a, b);
    assert forall|p: KeyPath| #![auto]
        (tree_node_at(a, p) is Some <==> tree_node_at(b, p) is Some) && (tree_node_at(a, p) is Some
            ==> (tree_node_at(a, p)->0).1@ == (tree_node_at(b, p)->0).1@) by {
        lemma_copy_lookup(a, b, p);
    }
    assert(files_of(crate::tree::tree_nodes(b)) =~= files_of(crate::tree::tree_nodes(a)));
}

} // verus!
