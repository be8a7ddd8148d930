use ptip_ffi::util::tree::{
    Cluster, ClusteredTree, ClusteredTreeError, ClusteredTreeIndex, IndexDirection, Node,
};

fn idx(root_index: usize, items_until_index: usize, directions: Vec<(&str, usize)>) -> ClusteredTreeIndex {
    ClusteredTreeIndex {
        root_index,
        directions: directions
            .into_iter()
            .map(|(branch, cluster_index)| IndexDirection {
                branch: branch.to_string(),
                cluster_index,
            })
            .collect(),
        items_until_index,
    }
}

fn node(item: &str) -> Node<String> {
    Node {
        item: item.to_string(),
        branches: Vec::new(),
    }
}

#[test]
fn at_returns_item_from_root_cluster() {
    let tree = ClusteredTree {
        root: Cluster {
            previous_items: 0,
            items: vec![node("a"), node("b"), node("c")],
        },
    };

    assert_eq!(tree.at(&idx(1, 0, vec![])).unwrap(), "b");
}

#[test]
fn branch_creates_empty_cluster_at_index() {
    let mut tree = ClusteredTree {
        root: Cluster {
            previous_items: 0,
            items: vec![node("a")],
        },
    };

    // items_until_index is ignored for current methods; only traversal determines the count.
    tree.branch(&idx(0, 999, vec![]), "x").unwrap();

    let n0 = &tree.root.items[0];
    let child = &n0.branches.iter().find(|(name, _)| name == "x").unwrap().1;
    assert_eq!(child.previous_items, 1);
    assert!(child.items.is_empty());
}

#[test]
fn reroot_moves_root_to_target_node() {
    let mut tree: ClusteredTree<String> = ClusteredTree {
        root: Cluster {
            previous_items: 0,
            items: vec![node("a")],
        },
    };

    // From root node "a", branch "x" to a new cluster containing ["b", "c"].
    tree.root.items[0].branches.push((
        "x".to_string(),
        Cluster {
            previous_items: 1,
            items: vec![node("b"), node("c")],
        },
    ));

    // Reroot to "c" (follow branch "x", then pick index 1).
    tree.reroot(&idx(0, 999, vec![("x", 1)])).unwrap();

    assert_eq!(tree.at(&idx(0, 0, vec![])).unwrap(), "c");
}

#[test]
fn new_tree_has_no_items() {
    let tree: ClusteredTree<String> = ClusteredTree::new();
    assert_eq!(tree.at(&idx(0, 0, vec![])), Err(ClusteredTreeError::InvalidIndex));
}

#[test]
fn branch_twice_under_one_name_fails() {
    let mut tree = ClusteredTree {
        root: Cluster {
            previous_items: 0,
            items: vec![node("a"), node("b")],
        },
    };
    tree.branch(&idx(1, 0, vec![]), "x").unwrap();
    assert_eq!(tree.branch(&idx(1, 0, vec![]), "x"), Err(ClusteredTreeError::InvalidIndex));
    let child = &tree.root.items[1].branches[0].1;
    // Item "b" is preceded by one item, so its branch starts after two.
    assert_eq!(child.previous_items, 2);
}

#[test]
fn at_follows_branches() {
    let mut tree = ClusteredTree {
        root: Cluster {
            previous_items: 0,
            items: vec![node("a")],
        },
    };
    tree.root.items[0].branches.push((
        "x".to_string(),
        Cluster {
            previous_items: 1,
            items: vec![node("b"), node("c")],
        },
    ));
    assert_eq!(tree.at(&idx(0, 0, vec![("x", 0)])).unwrap(), "b");
    assert_eq!(tree.at(&idx(0, 0, vec![("x", 2)])), Err(ClusteredTreeError::InvalidIndex));
    assert_eq!(tree.at(&idx(0, 0, vec![("y", 0)])), Err(ClusteredTreeError::InvalidIndex));
}

#[test]
fn reroot_lowers_counts_below_new_root() {
    let mut tree = ClusteredTree {
        root: Cluster {
            previous_items: 0,
            items: vec![node("a"), node("b"), node("c")],
        },
    };
    tree.branch(&idx(2, 0, vec![]), "x").unwrap();
    assert_eq!(tree.root.items[2].branches[0].1.previous_items, 3);
    tree.reroot(&idx(1, 0, vec![])).unwrap();
    assert_eq!(tree.at(&idx(0, 0, vec![])).unwrap(), "b");
    assert_eq!(tree.root.items[1].branches[0].1.previous_items, 2);
}

#[test]
fn reroot_fails_on_missing_item() {
    let mut tree = ClusteredTree {
        root: Cluster {
            previous_items: 0,
            items: vec![node("a")],
        },
    };
    assert_eq!(tree.reroot(&idx(3, 0, vec![])), Err(ClusteredTreeError::InvalidIndex));
    assert_eq!(tree.at(&idx(0, 0, vec![])).unwrap(), "a");
}
