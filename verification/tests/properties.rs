//! What should hold of every tree, tried on a few.

use bst::structure::bst::{BstNode, BstNodeLink, BstTree};

fn grow(tree: &mut BstTree, keys: &[i32]) -> Vec<BstNodeLink> {
    let mut links = Vec::new();
    for &k in keys {
        let z = BstNode::new_bst_nodelink(tree, k);
        BstNode::tree_insert(tree, z);
        links.push(z);
    }
    links
}

fn walk(tree: &BstTree) -> Vec<BstNodeLink> {
    let mut out = Vec::new();
    if let Some(root) = tree.root {
        let mut cur = Some(BstNode::minimum(tree, &root));
        while let Some(n) = cur {
            out.push(n);
            cur = BstNode::tree_successor(tree, &n);
        }
    }
    out
}

fn keys_in_order(tree: &BstTree) -> Vec<i32> {
    walk(tree).iter().map(|&n| tree.nodes[n].key.unwrap()).collect()
}

fn assert_links_agree(tree: &BstTree) {
    let members = walk(tree);
    match tree.root {
        None => assert!(members.is_empty()),
        Some(root) => assert_eq!(tree.nodes[root].parent, None),
    }
    for &n in &members {
        let node = tree.nodes[n];
        if let Some(c) = node.left {
            assert_eq!(tree.nodes[c].parent, Some(n));
            assert!(tree.nodes[c].key.unwrap() < node.key.unwrap());
        }
        if let Some(c) = node.right {
            assert_eq!(tree.nodes[c].parent, Some(n));
            assert!(tree.nodes[c].key.unwrap() >= node.key.unwrap());
        }
        match node.parent {
            Some(p) => {
                let is_left = tree.nodes[p].left == Some(n);
                let is_right = tree.nodes[p].right == Some(n);
                assert!(is_left != is_right);
            }
            None => assert_eq!(tree.root, Some(n)),
        }
    }
}

fn is_sorted(keys: &[i32]) -> bool {
    keys.windows(2).all(|w| w[0] <= w[1])
}

const MIXED: [i32; 15] = [41, 20, 65, 11, 29, 50, 91, 32, 72, 99, 29, 41, 5, 64, 66];

#[test]
fn in_order_is_sorted_after_inserts_and_deletes() {
    let mut tree = BstTree::new();
    let links = grow(&mut tree, &MIXED);
    assert!(is_sorted(&keys_in_order(&tree)));
    assert_eq!(keys_in_order(&tree).len(), MIXED.len());
    let mut left = MIXED.len();
    for &i in &[0usize, 7, 3, 14, 1, 10, 5] {
        assert!(BstNode::tree_delete(&mut tree, &links[i]));
        left -= 1;
        let keys = keys_in_order(&tree);
        assert!(is_sorted(&keys));
        assert_eq!(keys.len(), left);
    }
    grow(&mut tree, &[30, 1, 100, 65]);
    let keys = keys_in_order(&tree);
    assert!(is_sorted(&keys));
    assert_eq!(keys.len(), left + 4);
}

#[test]
fn parent_and_child_links_agree_after_every_step() {
    let mut tree = BstTree::new();
    assert_links_agree(&tree);
    let mut links = Vec::new();
    for &k in &MIXED {
        links.extend(grow(&mut tree, &[k]));
        assert_links_agree(&tree);
    }
    for &i in &[2usize, 0, 9, 4, 13, 6, 1, 3, 5, 7, 8, 10, 11, 12, 14] {
        assert!(BstNode::tree_delete(&mut tree, &links[i]));
        assert_links_agree(&tree);
    }
    assert_eq!(tree.root, None);
}

#[test]
fn a_key_just_inserted_is_found() {
    let mut tree = BstTree::new();
    for &k in &MIXED {
        grow(&mut tree, &[k]);
        let found = BstNode::tree_search(&tree, &k).unwrap();
        assert_eq!(tree.nodes[found].key, Some(k));
    }
}

#[test]
fn a_key_deleted_is_gone_and_the_others_stay() {
    let keys = [50, 30, 70, 20, 40, 60, 80, 35, 45];
    for &gone in &keys {
        let mut tree = BstTree::new();
        grow(&mut tree, &keys);
        let z = BstNode::tree_search(&tree, &gone).unwrap();
        assert!(BstNode::tree_delete(&mut tree, &z));
        assert_eq!(BstNode::tree_search(&tree, &gone), None);
        for &k in &keys {
            if k != gone {
                let found = BstNode::tree_search(&tree, &k).unwrap();
                assert_eq!(tree.nodes[found].key, Some(k));
            }
        }
    }
}

#[test]
fn deleting_a_node_with_two_children_takes_out_just_that_node() {
    let keys = [50, 30, 70, 20, 40, 60, 80, 35, 45];
    let mut tree = BstTree::new();
    let links = grow(&mut tree, &keys);
    let before = walk(&tree);
    assert_eq!(before.len(), 9);
    // 30 has the children 20 and 40
    assert!(tree.nodes[links[1]].left.is_some() && tree.nodes[links[1]].right.is_some());
    assert!(BstNode::tree_delete(&mut tree, &links[1]));
    let after = walk(&tree);
    assert_eq!(after.len(), 8);
    let expected: Vec<BstNodeLink> = before.into_iter().filter(|&n| n != links[1]).collect();
    assert_eq!(after, expected);
    assert_eq!(keys_in_order(&tree), vec![20, 35, 40, 45, 50, 60, 70, 80]);
}

#[test]
fn the_successor_holds_the_next_key() {
    let mut tree = BstTree::new();
    grow(&mut tree, &MIXED);
    let mut sorted = MIXED.to_vec();
    sorted.sort();
    let members = walk(&tree);
    assert_eq!(members.len(), sorted.len());
    for (i, &n) in members.iter().enumerate() {
        assert_eq!(tree.nodes[n].key, Some(sorted[i]));
        match BstNode::tree_successor(&tree, &n) {
            Some(next) => assert_eq!(tree.nodes[next].key, Some(sorted[i + 1])),
            None => assert_eq!(i + 1, sorted.len()),
        }
    }
}

#[test]
fn minimum_and_maximum_hold_the_extreme_keys() {
    let mut tree = BstTree::new();
    grow(&mut tree, &MIXED);
    let root = tree.root.unwrap();
    let lo = BstNode::minimum(&tree, &root);
    let hi = BstNode::maximum(&tree, &root);
    assert_eq!(tree.nodes[lo].key, Some(5));
    assert_eq!(tree.nodes[hi].key, Some(99));
    assert_eq!(tree.nodes[lo].left, None);
    assert_eq!(tree.nodes[hi].right, None);
}

#[test]
fn nodes_outside_the_tree_are_left_alone() {
    let mut tree = BstTree::new();
    let spare = BstNode::new_bst_nodelink(&mut tree, 1000);
    let links = grow(&mut tree, &[50, 30, 70]);
    assert!(BstNode::tree_delete(&mut tree, &links[0]));
    grow(&mut tree, &[10]);
    assert_eq!(tree.nodes[spare].key, Some(1000));
    assert_eq!(tree.nodes[spare].parent, None);
    assert_eq!(tree.nodes[spare].left, None);
    assert_eq!(tree.nodes[spare].right, None);
    assert_eq!(BstNode::tree_search(&tree, &1000), None);
    BstNode::tree_insert(&mut tree, spare);
    assert_eq!(BstNode::tree_search(&tree, &1000), Some(spare));
}
