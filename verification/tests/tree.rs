use radicle_surf::nonempty::NonEmpty;
use radicle_surf::tree::{Forest, HasKey, SubTree, Tree};

#[derive(Debug, Clone, PartialEq, Eq)]
struct TestNode {
    key: String,
    id: u32,
}

impl HasKey<String> for TestNode {
    // The key as the library's contracts speak of it.
    fn spec_key(&self) -> String {
        self.key.clone()
    }

    fn key(&self) -> &String {
        &self.key
    }
}

#[test]
fn test_is_empty() {
    let mut tree = Forest::root();
    assert!(tree.is_empty());

    let a_node = TestNode {
        key: String::from("a"),
        id: 1,
    };

    tree.insert(vec![], a_node);
    assert!(!tree.is_empty());
}

#[test]
fn test_insert_root_node() {
    let a_label = String::from("a");

    let mut tree = Forest::root();

    let a_node = TestNode { key: a_label, id: 1 };

    tree.insert(vec![], a_node.clone());

    assert_eq!(tree, Forest(Some(Tree::node(a_node))));
}

#[test]
fn test_insert_single_node() {
    let a_label = String::from("a");
    let b_label = String::from("b");
    let c_label = String::from("c");
    let path = vec![a_label, b_label];

    let mut tree = Forest::root();

    let c_node = TestNode { key: c_label, id: 1 };

    tree.insert(path, c_node.clone());

    assert_eq!(
        tree,
        Forest(Some(Tree::branch(
            String::from("a"),
            Tree::branch(String::from("b"), Tree::node(c_node))
        )))
    );
}

#[test]
fn test_insert_two_nodes() {
    let a_label = String::from("a");
    let b_label = String::from("b");
    let c_label = String::from("c");
    let d_label = String::from("d");
    let b_path = vec![a_label, b_label];

    let mut tree = Forest::root();

    let c_node = TestNode { key: c_label, id: 1 };

    tree.insert(b_path.clone(), c_node.clone());

    let d_node = TestNode { key: d_label, id: 3 };

    tree.insert(b_path, d_node.clone());

    assert_eq!(
        tree,
        Forest(Some(Tree::branch(
            String::from("a"),
            Tree::branch(
                String::from("b"),
                Tree(NonEmpty::from((SubTree::Node(c_node), vec![SubTree::Node(d_node)])))
            )
        )))
    );
}

#[test]
fn test_insert_replaces_node() {
    let a_label = String::from("a");
    let b_label = String::from("b");
    let c_label = String::from("c");
    let b_path = vec![a_label, b_label];

    let mut tree = Forest::root();

    let c_node = TestNode {
        key: c_label.clone(),
        id: 1,
    };

    tree.insert(b_path.clone(), c_node.clone());

    let new_c_node = TestNode { key: c_label, id: 3 };

    tree.insert(b_path, new_c_node.clone());

    assert_eq!(
        tree,
        Forest(Some(Tree::branch(
            String::from("a"),
            Tree::branch(String::from("b"), Tree(NonEmpty::new(SubTree::Node(new_c_node),)))
        )))
    );
}

#[test]
fn test_insert_replaces_root_node() {
    let c_label = String::from("c");

    let mut tree = Forest::root();

    let c_node = TestNode {
        key: c_label.clone(),
        id: 1,
    };

    tree.insert(vec![], c_node.clone());

    let new_c_node = TestNode { key: c_label, id: 3 };

    tree.insert(vec![], new_c_node.clone());

    assert_eq!(tree, Forest(Some(Tree::node(new_c_node))));
}

#[test]
fn test_insert_replaces_branch_node() {
    let a_label = String::from("a");
    let c_label = String::from("c");

    let mut tree = Forest::root();

    let c_node = TestNode {
        key: c_label.clone(),
        id: 1,
    };

    tree.insert(vec![a_label.clone()], c_node.clone());

    let new_c_node = TestNode { key: c_label, id: 3 };

    tree.insert(vec![a_label], new_c_node.clone());

    assert_eq!(
        tree,
        Forest(Some(Tree::branch(String::from("a"), Tree::node(new_c_node),)))
    );
}

#[test]
fn test_insert_replaces_branch_with_node() {
    let a_label = String::from("a");
    let b_label = String::from("b");
    let c_label = String::from("c");
    let b_path = vec![a_label.clone(), b_label.clone()];

    let mut tree = Forest::root();

    let c_node = TestNode {
        key: c_label.clone(),
        id: 1,
    };

    tree.insert(b_path, c_node.clone());

    let new_c_node = TestNode { key: b_label, id: 3 };

    tree.insert(vec![a_label], new_c_node.clone());

    assert_eq!(
        tree,
        Forest(Some(Tree::branch(String::from("a"), Tree::node(new_c_node),)))
    );
}

#[test]
fn test_insert_replaces_node_with_branch() {
    let a_label = String::from("a");
    let b_label = String::from("b");
    let c_label = String::from("c");
    let b_path = vec![a_label.clone(), b_label.clone()];

    let mut tree = Forest::root();

    let b_node = TestNode {
        key: b_label.clone(),
        id: 1,
    };

    tree.insert(vec![a_label], b_node);

    let new_c_node = TestNode { key: c_label, id: 3 };

    tree.insert(b_path, new_c_node.clone());

    assert_eq!(
        tree,
        Forest(Some(Tree::branch(
            String::from("a"),
            Tree::branch(String::from("b"), Tree(NonEmpty::new(SubTree::Node(new_c_node),)))
        )))
    );
}

#[test]
fn test_insert_replaces_node_with_branch_foo() {
    let a_label = String::from("a");
    let b_label = String::from("b");
    let c_label = String::from("c");
    let d_label = String::from("d");
    let c_path = vec![a_label.clone(), b_label.clone(), c_label.clone()];

    let mut tree = Forest::root();

    let b_node = TestNode {
        key: b_label.clone(),
        id: 1,
    };

    tree.insert(vec![a_label], b_node);
    println!("{:#?}", tree);

    let d_node = TestNode { key: d_label, id: 3 };

    tree.insert(c_path, d_node.clone());
    println!("{:#?}", tree);

    assert_eq!(
        tree,
        Forest(Some(Tree::branch(
            String::from("a"),
            Tree::branch(
                String::from("b"),
                Tree::branch(String::from("c"), Tree::node(d_node))
            )
        )))
    );
}

#[test]
fn test_insert_two_nodes_out_of_order() {
    let a_label = String::from("a");
    let b_label = String::from("b");
    let c_label = String::from("c");
    let d_label = String::from("d");
    let b_path = vec![a_label, b_label];

    let mut tree = Forest::root();

    let d_node = TestNode { key: d_label, id: 3 };

    tree.insert(b_path.clone(), d_node.clone());

    let c_node = TestNode { key: c_label, id: 1 };

    tree.insert(b_path, c_node.clone());

    assert_eq!(
        tree,
        Forest(Some(Tree::branch(
            String::from("a"),
            Tree::branch(
                String::from("b"),
                Tree(NonEmpty::from((SubTree::Node(c_node), vec![SubTree::Node(d_node)])))
            )
        )))
    );
}

#[test]
fn test_insert_branch() {
    let a_label = String::from("a");
    let b_label = String::from("b");
    let c_label = String::from("c");
    let d_label = String::from("d");
    let e_label = String::from("e");
    let f_label = String::from("f");

    let b_path = vec![a_label.clone(), b_label];
    let e_path = vec![a_label, e_label];

    let mut tree = Forest::root();

    let c_node = TestNode { key: c_label, id: 1 };

    let d_node = TestNode { key: d_label, id: 3 };

    let f_node = TestNode { key: f_label, id: 2 };

    tree.insert(b_path.clone(), d_node.clone());
    tree.insert(b_path, c_node.clone());
    tree.insert(e_path, f_node.clone());

    assert_eq!(
        tree,
        Forest(Some(Tree::branch(
            String::from("a"),
            Tree(NonEmpty::from((
                SubTree::Branch {
                    key: String::from("b"),
                    forest: Box::new(Tree(NonEmpty::from((
                        SubTree::Node(c_node),
                        vec![SubTree::Node(d_node)]
                    ))))
                },
                vec![SubTree::Branch {
                    key: String::from("e"),
                    forest: Box::new(Tree::node(f_node))
                },]
            )))
        )))
    );
}

#[test]
fn test_insert_two_branches() {
    let a_label = String::from("a");
    let b_label = String::from("b");
    let c_label = String::from("c");
    let d_label = String::from("d");
    let e_label = String::from("e");
    let f_label = String::from("f");

    let b_path = vec![a_label.clone(), b_label];
    let e_path = vec![d_label, e_label];

    let mut tree = Forest::root();

    let c_node = TestNode { key: c_label, id: 1 };

    let f_node = TestNode { key: f_label, id: 2 };

    tree.insert(b_path.clone(), c_node.clone());
    tree.insert(e_path, f_node.clone());

    assert_eq!(
        tree,
        Forest(Some(Tree(NonEmpty::from((
            SubTree::Branch {
                key: String::from("a"),
                forest: Box::new(Tree::branch(String::from("b"), Tree::node(c_node))),
            },
            vec![SubTree::Branch {
                key: String::from("d"),
                forest: Box::new(Tree::branch(String::from("e"), Tree::node(f_node)))
            }]
        )))))
    );
}

#[test]
fn test_insert_branches_and_node() {
    let a_label = String::from("a");
    let b_label = String::from("b");
    let c_label = String::from("c");
    let d_label = String::from("d");
    let e_label = String::from("e");
    let f_label = String::from("f");
    let g_label = String::from("g");

    let b_path = vec![a_label.clone(), b_label];
    let f_path = vec![a_label.clone(), f_label.clone()];

    let mut tree = Forest::root();

    let c_node = TestNode { key: c_label, id: 1 };

    let d_node = TestNode { key: d_label, id: 3 };

    let e_node = TestNode { key: e_label, id: 2 };

    let g_node = TestNode { key: g_label, id: 2 };

    tree.insert(b_path.clone(), d_node.clone());
    tree.insert(b_path, c_node.clone());
    tree.insert(vec![a_label], e_node.clone());
    tree.insert(f_path, g_node.clone());

    assert_eq!(
        tree,
        Forest(Some(Tree::branch(
            String::from("a"),
            Tree(NonEmpty::from((
                SubTree::Branch {
                    key: String::from("b"),
                    forest: Box::new(Tree(NonEmpty::from((
                        SubTree::Node(c_node),
                        vec![SubTree::Node(d_node)]
                    ))))
                },
                vec![
                    SubTree::Node(e_node),
                    SubTree::Branch {
                        key: String::from("f"),
                        forest: Box::new(Tree::node(g_node))
                    },
                ]
            )))
        )))
    );
}

#[test]
fn test_find_root_node() {
    let a_label = String::from("a");

    let mut tree = Forest::root();

    let a_node = TestNode { key: a_label, id: 1 };

    tree.insert(vec![], a_node.clone());

    assert_eq!(
        tree.find(NonEmpty::new(String::from("a"))),
        Some(&SubTree::Node(a_node))
    );

    assert_eq!(tree.find(NonEmpty::new(String::from("b"))), None);
}

#[test]
fn test_find_branch_and_node() {
    let a_label = String::from("a");
    let b_label = String::from("b");
    let c_label = String::from("c");
    let path = vec![a_label, b_label];

    let mut tree = Forest::root();

    let c_node = TestNode { key: c_label, id: 1 };

    tree.insert(path, c_node.clone());

    assert_eq!(
        tree.find(NonEmpty::new(String::from("a"))),
        Some(&SubTree::Branch {
            key: String::from("a"),
            forest: Box::new(Tree::branch(String::from("b"), Tree::node(c_node.clone())))
        })
    );

    assert_eq!(
        tree.find(NonEmpty::from((String::from("a"), vec![String::from("b")]))),
        Some(&SubTree::Branch {
            key: String::from("b"),
            forest: Box::new(Tree::node(c_node.clone()))
        })
    );

    assert_eq!(
        tree.find(NonEmpty::from((
            String::from("a"),
            vec![String::from("b"), String::from("c")]
        ))),
        Some(&SubTree::Node(c_node))
    );

    assert_eq!(tree.find(NonEmpty::new(String::from("b"))), None);

    assert_eq!(
        tree.find(NonEmpty::from((String::from("a"), vec![String::from("c")]))),
        None
    );
}

#[test]
fn test_maximum_by_root_nodes() {
    let mut tree = Forest::root();

    let a_node = TestNode {
        key: String::from("a"),
        id: 1,
    };

    let b_node = TestNode {
        key: String::from("b"),
        id: 3,
    };

    tree.insert(vec![], a_node.clone());
    tree.insert(vec![], b_node.clone());

    assert_eq!(tree.maximum_by(|a, b| a.id.cmp(&b.id)), Some(&b_node));
    assert_eq!(
        tree.maximum_by(|a, b| a.id.cmp(&b.id).reverse()),
        Some(&a_node)
    );
}

#[test]
fn test_maximum_by_branch_and_node() {
    let mut tree = Forest::root();

    let a_node = TestNode {
        key: String::from("a"),
        id: 1,
    };

    let b_node = TestNode {
        key: String::from("b"),
        id: 3,
    };

    tree.insert(vec![String::from("c")], a_node.clone());
    tree.insert(vec![], b_node.clone());

    assert_eq!(tree.maximum_by(|a, b| a.id.cmp(&b.id)), Some(&b_node));
    assert_eq!(
        tree.maximum_by(|a, b| a.id.cmp(&b.id).reverse()),
        Some(&a_node)
    );
}

#[test]
fn test_maximum_by_branch_and_branch() {
    let mut tree = Forest::root();

    let a_node = TestNode {
        key: String::from("a"),
        id: 1,
    };

    let b_node = TestNode {
        key: String::from("b"),
        id: 3,
    };

    tree.insert(vec![String::from("c")], a_node.clone());
    tree.insert(vec![String::from("d")], b_node.clone());

    assert_eq!(tree.maximum_by(|a, b| a.id.cmp(&b.id)), Some(&b_node));
    assert_eq!(
        tree.maximum_by(|a, b| a.id.cmp(&b.id).reverse()),
        Some(&a_node)
    );
}

#[test]
fn test_maximum_by_branch_nodes() {
    let mut tree = Forest::root();

    let a_node = TestNode {
        key: String::from("a"),
        id: 1,
    };

    let b_node = TestNode {
        key: String::from("b"),
        id: 3,
    };

    tree.insert(vec![String::from("c")], a_node.clone());
    tree.insert(vec![String::from("c")], b_node.clone());

    assert_eq!(tree.maximum_by(|a, b| a.id.cmp(&b.id)), Some(&b_node));
    assert_eq!(
        tree.maximum_by(|a, b| a.id.cmp(&b.id).reverse()),
        Some(&a_node)
    );
}

#[test]
fn tree_maximum_under_the_natural_order() {
    let mut tree: Forest<String, TestNode> = Forest::root();
    tree.insert(vec![String::from("x")], TestNode { key: String::from("a"), id: 7 });
    tree.insert(vec![], TestNode { key: String::from("b"), id: 2 });
    let t = tree.0.as_ref().expect("a tree");
    assert_eq!(t.maximum_by(&|a: &TestNode, b: &TestNode| a.id.cmp(&b.id)).id, 7);
}

#[derive(Debug, Clone, PartialEq, Eq, PartialOrd, Ord)]
struct RankedNode {
    rank: u32,
    key: String,
}

impl HasKey<String> for RankedNode {
    // The key as the library's contracts speak of it.
    fn spec_key(&self) -> String {
        self.key.clone()
    }

    fn key(&self) -> &String {
        &self.key
    }
}

#[test]
fn tree_maximum_is_the_greatest_node() {
    let mut tree: Forest<String, RankedNode> = Forest::root();
    tree.insert(vec![String::from("x")], RankedNode { rank: 7, key: String::from("a") });
    tree.insert(vec![], RankedNode { rank: 2, key: String::from("b") });
    tree.insert(vec![String::from("x"), String::from("y")], RankedNode { rank: 9, key: String::from("c") });
    tree.insert(vec![], RankedNode { rank: 4, key: String::from("d") });
    let t = tree.0.as_ref().expect("a tree");
    assert_eq!(t.maximum(), &RankedNode { rank: 9, key: String::from("c") });
}
