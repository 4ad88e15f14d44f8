use prefix_tree::{Node, PrefixTree};

fn branch_labels_begin_differently(node: &Node) -> bool {
    match node {
        Node::Leaf { .. } => true,
        Node::Node { children } => {
            let mut seen: Vec<char> = Vec::new();
            for (label, child) in children {
                if let Node::Node { .. } = child {
                    let Some(first) = label.chars().next() else {
                        return false;
                    };
                    if seen.contains(&first) {
                        return false;
                    }
                    seen.push(first);
                }
                if !branch_labels_begin_differently(child) {
                    return false;
                }
            }
            true
        }
    }
}

fn labels_are_encoded(node: &Node) -> bool {
    match node {
        Node::Leaf { .. } => true,
        Node::Node { children } => children.iter().all(|(label, child)| match child {
            Node::Leaf { .. } => label.ends_with(':') && label.matches(':').count() == 1,
            Node::Node { .. } => {
                !label.is_empty() && !label.contains(':') && labels_are_encoded(child)
            }
        }),
    }
}

fn tree_of(keys: &[&str]) -> PrefixTree {
    let mut tree = PrefixTree::new();
    for key in keys {
        tree.insert(key, format!("value of {}", key)).unwrap();
    }
    tree
}

#[test]
fn four_key_tree_is_compressed() {
    let tree = tree_of(&["foo", "foobar", "foofoo", "bar"]);
    assert!(branch_labels_begin_differently(tree.root()));
    assert!(labels_are_encoded(tree.root()));
}

#[test]
fn larger_tree_is_compressed() {
    let tree = tree_of(&[
        "romane", "romanus", "romulus", "rubens", "ruber", "rubicon", "rubicundus", "r", "rom",
    ]);
    assert!(branch_labels_begin_differently(tree.root()));
    assert!(labels_are_encoded(tree.root()));
    assert_eq!(tree.len(), 9);
}

#[test]
fn shape_after_prefix_then_extension() {
    let tree = tree_of(&["foo", "foobar"]);
    let expected = Node::Node {
        children: vec![
            (
                "foo:".to_string(),
                Node::Leaf {
                    value: "value of foo".to_string(),
                },
            ),
            (
                "foobar:".to_string(),
                Node::Leaf {
                    value: "value of foobar".to_string(),
                },
            ),
        ],
    };
    assert_eq!(tree.root(), &expected);
}

#[test]
fn shape_after_extension_then_prefix() {
    let tree = tree_of(&["foobar", "foo"]);
    let expected = Node::Node {
        children: vec![(
            "foo".to_string(),
            Node::Node {
                children: vec![
                    (
                        ":".to_string(),
                        Node::Leaf {
                            value: "value of foo".to_string(),
                        },
                    ),
                    (
                        "bar:".to_string(),
                        Node::Leaf {
                            value: "value of foobar".to_string(),
                        },
                    ),
                ],
            },
        )],
    };
    assert_eq!(tree.root(), &expected);
}

#[test]
fn shape_after_partial_overlap() {
    let tree = tree_of(&["foobar", "foofoo"]);
    let expected = Node::Node {
        children: vec![(
            "foo".to_string(),
            Node::Node {
                children: vec![
                    (
                        "foo:".to_string(),
                        Node::Leaf {
                            value: "value of foofoo".to_string(),
                        },
                    ),
                    (
                        "bar:".to_string(),
                        Node::Leaf {
                            value: "value of foobar".to_string(),
                        },
                    ),
                ],
            },
        )],
    };
    assert_eq!(tree.root(), &expected);
}

#[test]
fn shape_after_descent() {
    let tree = tree_of(&["foobar", "foofoo", "foolish"]);
    let expected = Node::Node {
        children: vec![(
            "foo".to_string(),
            Node::Node {
                children: vec![
                    (
                        "foo:".to_string(),
                        Node::Leaf {
                            value: "value of foofoo".to_string(),
                        },
                    ),
                    (
                        "bar:".to_string(),
                        Node::Leaf {
                            value: "value of foobar".to_string(),
                        },
                    ),
                    (
                        "lish:".to_string(),
                        Node::Leaf {
                            value: "value of foolish".to_string(),
                        },
                    ),
                ],
            },
        )],
    };
    assert_eq!(tree.root(), &expected);
}

#[test]
fn first_of_equally_long_overlaps_is_forked() {
    let tree = tree_of(&["ab", "abc", "ax"]);
    let expected = Node::Node {
        children: vec![
            (
                "a".to_string(),
                Node::Node {
                    children: vec![
                        (
                            "x:".to_string(),
                            Node::Leaf {
                                value: "value of ax".to_string(),
                            },
                        ),
                        (
                            "b:".to_string(),
                            Node::Leaf {
                                value: "value of ab".to_string(),
                            },
                        ),
                    ],
                },
            ),
            (
                "abc:".to_string(),
                Node::Leaf {
                    value: "value of abc".to_string(),
                },
            ),
        ],
    };
    assert_eq!(tree.root(), &expected);
}

#[test]
fn overwrite_leaves_the_shape() {
    let mut tree = tree_of(&["foo", "foobar", "foofoo", "bar"]);
    let before = tree.clone();
    tree.insert("foo", "value of foo".to_string()).unwrap();
    assert_eq!(tree.root(), before.root());
    tree.insert("foo", "another".to_string()).unwrap();
    assert_ne!(tree.root(), before.root());
    assert_eq!(tree.keys(), before.keys());
}

#[test]
fn clone_is_a_copy() {
    let tree = tree_of(&["foo", "foobar", "foofoo", "bar"]);
    let mut copy = tree.clone();
    assert_eq!(copy.root(), tree.root());
    copy.insert("baz", "new".to_string()).unwrap();
    assert_eq!(copy.len(), 5);
    assert_eq!(tree.len(), 4);
    assert_eq!(tree.get("baz"), None);
    assert_eq!(tree.root().clone(), *tree.root());
}

#[test]
fn refused_key_leaves_the_shape() {
    let mut tree = tree_of(&["foo", "foobar"]);
    let before = tree.clone();
    assert!(tree.insert("foo:bar", "x".to_string()).is_err());
    assert_eq!(tree.root(), before.root());
}

#[test]
fn key_repeated_beside_its_extension_replaces_its_leaf() {
    let mut tree = tree_of(&["foo", "foobar"]);
    tree.insert("foo", "again".to_string()).unwrap();
    let expected = Node::Node {
        children: vec![
            (
                "foo:".to_string(),
                Node::Leaf {
                    value: "again".to_string(),
                },
            ),
            (
                "foobar:".to_string(),
                Node::Leaf {
                    value: "value of foobar".to_string(),
                },
            ),
        ],
    };
    assert_eq!(tree.root(), &expected);
}

#[test]
fn shorter_key_forks_the_branch_that_begins_as_it_does() {
    let tree = tree_of(&["foo", "foobar", "foofoo", "fo"]);
    let expected = Node::Node {
        children: vec![
            (
                "foo:".to_string(),
                Node::Leaf {
                    value: "value of foo".to_string(),
                },
            ),
            (
                "fo".to_string(),
                Node::Node {
                    children: vec![
                        (
                            ":".to_string(),
                            Node::Leaf {
                                value: "value of fo".to_string(),
                            },
                        ),
                        (
                            "o".to_string(),
                            Node::Node {
                                children: vec![
                                    (
                                        "foo:".to_string(),
                                        Node::Leaf {
                                            value: "value of foofoo".to_string(),
                                        },
                                    ),
                                    (
                                        "bar:".to_string(),
                                        Node::Leaf {
                                            value: "value of foobar".to_string(),
                                        },
                                    ),
                                ],
                            },
                        ),
                    ],
                },
            ),
        ],
    };
    assert_eq!(tree.root(), &expected);
    assert!(branch_labels_begin_differently(tree.root()));
}

#[test]
fn key_that_is_the_label_of_a_branch_ends_below_it() {
    let tree = tree_of(&["foa", "foab", "fox", "fo"]);
    let expected = Node::Node {
        children: vec![
            (
                "fo".to_string(),
                Node::Node {
                    children: vec![
                        (
                            "x:".to_string(),
                            Node::Leaf {
                                value: "value of fox".to_string(),
                            },
                        ),
                        (
                            "a:".to_string(),
                            Node::Leaf {
                                value: "value of foa".to_string(),
                            },
                        ),
                        (
                            ":".to_string(),
                            Node::Leaf {
                                value: "value of fo".to_string(),
                            },
                        ),
                    ],
                },
            ),
            (
                "foab:".to_string(),
                Node::Leaf {
                    value: "value of foab".to_string(),
                },
            ),
        ],
    };
    assert_eq!(tree.root(), &expected);
    assert!(labels_occur_once(tree.root()));
}

fn labels_occur_once(node: &Node) -> bool {
    match node {
        Node::Leaf { .. } => true,
        Node::Node { children } => {
            for (i, (label, child)) in children.iter().enumerate() {
                if children[..i].iter().any(|(other, _)| other == label) {
                    return false;
                }
                if !labels_occur_once(child) {
                    return false;
                }
            }
            true
        }
    }
}

#[test]
fn random_trees_are_compressed() {
    let mut seed: u64 = 11;
    for _ in 0..200 {
        let mut tree = PrefixTree::new();
        for _ in 0..8 {
            let mut key = String::new();
            seed = seed.wrapping_mul(6364136223846793005).wrapping_add(1442695040888963407);
            let len = (seed >> 33) % 5;
            for _ in 0..len {
                seed = seed.wrapping_mul(6364136223846793005).wrapping_add(1442695040888963407);
                key.push(if (seed >> 33) % 2 == 0 { 'a' } else { 'b' });
            }
            tree.insert(&key, "v".to_string()).unwrap();
            assert!(branch_labels_begin_differently(tree.root()));
            assert!(labels_are_encoded(tree.root()));
            assert!(labels_occur_once(tree.root()));
        }
    }
}
