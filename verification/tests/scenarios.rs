//! Worked examples: trees built by hand and looked at from outside.

use bst::structure::bst::{BstNode, BstNodeLink, BstTree};

fn build(keys: &[i32]) -> (BstTree, Vec<BstNodeLink>) {
    let mut tree = BstTree::new();
    let mut links = Vec::new();
    for &k in keys {
        let z = BstNode::new_bst_nodelink(&mut tree, k);
        let back = BstNode::tree_insert(&mut tree, z);
        assert_eq!(back, z);
        links.push(z);
    }
    (tree, links)
}

fn key(tree: &BstTree, n: BstNodeLink) -> i32 {
    tree.nodes[n].key.unwrap()
}

fn in_order(tree: &BstTree) -> Vec<i32> {
    let mut out = Vec::new();
    if let Some(root) = tree.root {
        let mut cur = Some(BstNode::minimum(tree, &root));
        while let Some(n) = cur {
            out.push(key(tree, n));
            cur = BstNode::tree_successor(tree, &n);
        }
    }
    out
}

#[test]
fn successor_in_a_chain_of_five() {
    let (tree, _) = build(&[1, 3, 5, 7, 9]);
    let five = BstNode::tree_search(&tree, &5).unwrap();
    let next = BstNode::tree_successor(&tree, &five).unwrap();
    assert_eq!(key(&tree, next), 7);
    let nine = BstNode::tree_search(&tree, &9).unwrap();
    assert_eq!(BstNode::tree_successor(&tree, &nine), None);
    let one = BstNode::tree_search(&tree, &1).unwrap();
    let next = BstNode::tree_successor(&tree, &one).unwrap();
    assert_eq!(key(&tree, next), 3);
}

#[test]
fn minimum_and_maximum_in_a_chain_of_five() {
    let (tree, _) = build(&[1, 3, 5, 7, 9]);
    let root = tree.root.unwrap();
    assert_eq!(key(&tree, BstNode::minimum(&tree, &root)), 1);
    assert_eq!(key(&tree, BstNode::maximum(&tree, &root)), 9);
}

#[test]
fn seven_keys_then_delete_thirty() {
    let (mut tree, _) = build(&[50, 30, 70, 20, 40, 60, 80]);
    let root = tree.root.unwrap();
    assert_eq!(key(&tree, root), 50);

    let forty = BstNode::tree_search(&tree, &40).unwrap();
    assert_eq!(key(&tree, forty), 40);
    let parent = tree.nodes[forty].parent.unwrap();
    assert_eq!(key(&tree, parent), 30);

    let thirty = BstNode::tree_search(&tree, &30).unwrap();
    let twenty = BstNode::tree_search(&tree, &20).unwrap();
    assert_eq!(tree.nodes[thirty].left, Some(twenty));
    assert_eq!(tree.nodes[thirty].right, Some(forty));
    assert!(BstNode::tree_delete(&mut tree, &thirty));

    let root = tree.root.unwrap();
    assert_eq!(key(&tree, root), 50);
    assert_eq!(tree.nodes[root].left, Some(forty));
    assert_eq!(tree.nodes[forty].parent, Some(root));
    assert_eq!(tree.nodes[forty].left, Some(twenty));
    assert_eq!(tree.nodes[forty].right, None);
    assert_eq!(tree.nodes[twenty].parent, Some(forty));

    let next = BstNode::tree_successor(&tree, &twenty).unwrap();
    assert_eq!(next, forty);
    assert_eq!(key(&tree, next), 40);
    assert_eq!(in_order(&tree), vec![20, 40, 50, 60, 70, 80]);
}

#[test]
fn search_in_an_empty_tree_finds_nothing() {
    let tree = BstTree::new();
    assert_eq!(tree.root, None);
    assert_eq!(BstNode::tree_search(&tree, &1), None);
}

#[test]
fn search_for_a_missing_key_finds_nothing() {
    let (tree, _) = build(&[50, 30, 70]);
    assert_eq!(BstNode::tree_search(&tree, &10), None);
    assert_eq!(BstNode::tree_search(&tree, &35), None);
    assert_eq!(BstNode::tree_search(&tree, &60), None);
    assert_eq!(BstNode::tree_search(&tree, &99), None);
}

#[test]
fn a_new_node_holds_its_key_and_no_links() {
    let mut tree = BstTree::new();
    let a = BstNode::new_bst_nodelink(&mut tree, 42);
    assert_eq!(a, 0);
    assert_eq!(tree.nodes.len(), 1);
    assert_eq!(tree.nodes[a].key, Some(42));
    assert_eq!(tree.nodes[a].parent, None);
    assert_eq!(tree.nodes[a].left, None);
    assert_eq!(tree.nodes[a].right, None);
    assert_eq!(tree.root, None);
    let b = BstNode::new_bst_nodelink(&mut tree, -7);
    assert_eq!(b, 1);
    assert_eq!(tree.nodes[b].key, Some(-7));
    assert_eq!(tree.nodes[a].key, Some(42));
}

#[test]
fn the_first_node_inserted_becomes_the_root() {
    let mut tree = BstTree::new();
    let a = BstNode::new_bst_nodelink(&mut tree, 5);
    assert_eq!(BstNode::tree_insert(&mut tree, a), a);
    assert_eq!(tree.root, Some(a));
    assert_eq!(tree.nodes[a].parent, None);
    assert_eq!(BstNode::get_root(&tree, &a), a);
}

#[test]
fn insert_hangs_smaller_keys_left_and_others_right() {
    let (tree, n) = build(&[50, 30, 70, 60]);
    assert_eq!(tree.root, Some(n[0]));
    assert_eq!(tree.nodes[n[0]].left, Some(n[1]));
    assert_eq!(tree.nodes[n[0]].right, Some(n[2]));
    assert_eq!(tree.nodes[n[1]].parent, Some(n[0]));
    assert_eq!(tree.nodes[n[2]].parent, Some(n[0]));
    assert_eq!(tree.nodes[n[2]].left, Some(n[3]));
    assert_eq!(tree.nodes[n[2]].right, None);
    assert_eq!(tree.nodes[n[3]].parent, Some(n[2]));
    assert_eq!(tree.nodes[n[3]].left, None);
    assert_eq!(tree.nodes[n[3]].right, None);
}

#[test]
fn an_equal_key_goes_to_the_right() {
    let (tree, n) = build(&[5, 5, 5]);
    assert_eq!(tree.root, Some(n[0]));
    assert_eq!(tree.nodes[n[0]].left, None);
    assert_eq!(tree.nodes[n[0]].right, Some(n[1]));
    assert_eq!(tree.nodes[n[1]].left, None);
    assert_eq!(tree.nodes[n[1]].right, Some(n[2]));
    assert_eq!(BstNode::tree_search(&tree, &5), Some(n[0]));
    assert_eq!(in_order(&tree), vec![5, 5, 5]);
}

#[test]
fn successor_tells_equal_keys_apart() {
    let (tree, n) = build(&[5, 3, 5, 5]);
    assert_eq!(BstNode::tree_successor(&tree, &n[1]), Some(n[0]));
    assert_eq!(BstNode::tree_successor(&tree, &n[0]), Some(n[2]));
    assert_eq!(BstNode::tree_successor(&tree, &n[2]), Some(n[3]));
    assert_eq!(BstNode::tree_successor(&tree, &n[3]), None);
}

#[test]
fn successor_climbs_past_right_children() {
    let (tree, n) = build(&[50, 20, 30, 40, 45]);
    assert_eq!(BstNode::tree_successor(&tree, &n[4]), Some(n[0]));
    assert_eq!(BstNode::tree_successor(&tree, &n[0]), None);
    assert_eq!(BstNode::tree_successor(&tree, &n[1]), Some(n[2]));
}

#[test]
fn successor_of_a_node_with_a_right_subtree() {
    let (tree, n) = build(&[50, 30, 70, 60, 65, 55]);
    assert_eq!(BstNode::tree_successor(&tree, &n[0]), Some(n[5]));
    assert_eq!(BstNode::tree_successor(&tree, &n[5]), Some(n[3]));
    assert_eq!(BstNode::tree_successor(&tree, &n[4]), Some(n[2]));
}

#[test]
fn minimum_and_maximum_below_an_inner_node() {
    let (tree, n) = build(&[50, 30, 70, 20, 40, 60, 80, 35, 45]);
    assert_eq!(BstNode::minimum(&tree, &n[1]), n[3]);
    assert_eq!(BstNode::maximum(&tree, &n[1]), n[8]);
    assert_eq!(BstNode::minimum(&tree, &n[4]), n[7]);
    assert_eq!(BstNode::minimum(&tree, &n[2]), n[5]);
    assert_eq!(BstNode::maximum(&tree, &n[2]), n[6]);
    assert_eq!(BstNode::minimum(&tree, &n[7]), n[7]);
    assert_eq!(BstNode::maximum(&tree, &n[7]), n[7]);
}

#[test]
fn get_root_from_every_node() {
    let (tree, n) = build(&[50, 30, 70, 20, 40, 60, 80]);
    for &x in &n {
        assert_eq!(BstNode::get_root(&tree, &x), n[0]);
    }
}

#[test]
fn delete_the_only_node_empties_the_tree() {
    let (mut tree, n) = build(&[5]);
    assert!(BstNode::tree_delete(&mut tree, &n[0]));
    assert_eq!(tree.root, None);
    assert_eq!(BstNode::tree_search(&tree, &5), None);
    assert_eq!(tree.nodes.len(), 1);
}

#[test]
fn delete_a_leaf() {
    let (mut tree, n) = build(&[50, 30, 70]);
    assert!(BstNode::tree_delete(&mut tree, &n[1]));
    assert_eq!(tree.root, Some(n[0]));
    assert_eq!(tree.nodes[n[0]].left, None);
    assert_eq!(tree.nodes[n[0]].right, Some(n[2]));
    assert_eq!(in_order(&tree), vec![50, 70]);
}

#[test]
fn delete_a_node_with_only_a_right_child() {
    let (mut tree, n) = build(&[50, 30, 40, 35]);
    assert!(BstNode::tree_delete(&mut tree, &n[1]));
    assert_eq!(tree.nodes[n[0]].left, Some(n[2]));
    assert_eq!(tree.nodes[n[2]].parent, Some(n[0]));
    assert_eq!(tree.nodes[n[2]].left, Some(n[3]));
    assert_eq!(in_order(&tree), vec![35, 40, 50]);
}

#[test]
fn delete_a_node_with_only_a_left_child() {
    let (mut tree, n) = build(&[50, 70, 60, 65]);
    assert!(BstNode::tree_delete(&mut tree, &n[1]));
    assert_eq!(tree.nodes[n[0]].right, Some(n[2]));
    assert_eq!(tree.nodes[n[2]].parent, Some(n[0]));
    assert_eq!(tree.nodes[n[2]].right, Some(n[3]));
    assert_eq!(in_order(&tree), vec![50, 60, 65]);
}

#[test]
fn delete_the_root_with_one_child() {
    let (mut tree, n) = build(&[50, 70, 60]);
    assert!(BstNode::tree_delete(&mut tree, &n[0]));
    assert_eq!(tree.root, Some(n[1]));
    assert_eq!(tree.nodes[n[1]].parent, None);
    assert_eq!(tree.nodes[n[1]].left, Some(n[2]));
    assert_eq!(BstNode::get_root(&tree, &n[2]), n[1]);
}

#[test]
fn delete_a_node_whose_follower_is_deep_in_its_right_subtree() {
    let (mut tree, n) = build(&[50, 30, 70, 20, 40, 60, 80, 35, 45, 37]);
    // 30 has children 20 and 40; the first node below 40 is 35, which has the
    // right child 37.
    assert!(BstNode::tree_delete(&mut tree, &n[1]));
    let y = n[7];
    assert_eq!(tree.nodes[n[0]].left, Some(y));
    assert_eq!(tree.nodes[y].parent, Some(n[0]));
    assert_eq!(tree.nodes[y].left, Some(n[3]));
    assert_eq!(tree.nodes[y].right, Some(n[4]));
    assert_eq!(tree.nodes[n[3]].parent, Some(y));
    assert_eq!(tree.nodes[n[4]].parent, Some(y));
    assert_eq!(tree.nodes[n[4]].left, Some(n[9]));
    assert_eq!(tree.nodes[n[9]].parent, Some(n[4]));
    assert_eq!(tree.nodes[n[4]].right, Some(n[8]));
    assert_eq!(in_order(&tree), vec![20, 35, 37, 40, 45, 50, 60, 70, 80]);
}

#[test]
fn delete_the_root_with_two_children() {
    let (mut tree, n) = build(&[50, 30, 70, 60, 80]);
    assert!(BstNode::tree_delete(&mut tree, &n[0]));
    assert_eq!(tree.root, Some(n[3]));
    assert_eq!(tree.nodes[n[3]].parent, None);
    assert_eq!(tree.nodes[n[3]].left, Some(n[1]));
    assert_eq!(tree.nodes[n[3]].right, Some(n[2]));
    assert_eq!(tree.nodes[n[2]].left, None);
    assert_eq!(tree.nodes[n[2]].parent, Some(n[3]));
    assert_eq!(tree.nodes[n[1]].parent, Some(n[3]));
    assert_eq!(in_order(&tree), vec![30, 60, 70, 80]);
}

#[test]
fn delete_leaves_the_node_taken_out_untouched() {
    let (mut tree, n) = build(&[50, 30, 70, 20, 40]);
    let before = tree.nodes[n[1]];
    assert!(BstNode::tree_delete(&mut tree, &n[1]));
    let after = tree.nodes[n[1]];
    assert_eq!(after.key, before.key);
    assert_eq!(after.parent, before.parent);
    assert_eq!(after.left, before.left);
    assert_eq!(after.right, before.right);
}

#[test]
fn delete_a_right_child_that_holds_its_parents_key() {
    let (mut tree, n) = build(&[5, 3, 5]);
    assert!(BstNode::tree_delete(&mut tree, &n[2]));
    assert_eq!(tree.nodes[n[0]].left, Some(n[1]));
    assert_eq!(tree.nodes[n[0]].right, None);
    assert_eq!(in_order(&tree), vec![3, 5]);
}

#[test]
fn delete_the_first_of_two_equal_keys() {
    let (mut tree, n) = build(&[5, 3, 5, 7]);
    assert!(BstNode::tree_delete(&mut tree, &n[0]));
    assert_eq!(tree.root, Some(n[2]));
    assert_eq!(tree.nodes[n[2]].left, Some(n[1]));
    assert_eq!(tree.nodes[n[2]].right, Some(n[3]));
    assert_eq!(BstNode::tree_search(&tree, &5), Some(n[2]));
    assert_eq!(in_order(&tree), vec![3, 5, 7]);
}

#[test]
fn a_copy_of_a_node_is_a_new_node_outside_the_tree() {
    let (mut tree, n) = build(&[50, 30, 70]);
    let node = tree.nodes[n[0]];
    let copy = node.get_bst_nodelink_copy(&mut tree);
    assert_eq!(copy, 3);
    assert_eq!(tree.nodes.len(), 4);
    assert_eq!(tree.nodes[copy].key, Some(50));
    assert_eq!(tree.nodes[copy].left, Some(n[1]));
    assert_eq!(tree.nodes[copy].right, Some(n[2]));
    assert_eq!(tree.nodes[copy].parent, None);
    assert_eq!(tree.root, Some(n[0]));
    assert_eq!(tree.nodes[n[1]].parent, Some(n[0]));
    assert_eq!(in_order(&tree), vec![30, 50, 70]);
}

#[test]
fn children_added_by_hand() {
    let (mut tree, n) = build(&[50]);
    BstNode::add_left_child(&mut tree, &n[0], 30);
    BstNode::add_right_child(&mut tree, &n[0], 70);
    let l = tree.nodes[n[0]].left.unwrap();
    let r = tree.nodes[n[0]].right.unwrap();
    assert_eq!(l, 1);
    assert_eq!(r, 2);
    assert_eq!(tree.nodes[l].key, Some(30));
    assert_eq!(tree.nodes[l].parent, Some(n[0]));
    assert_eq!(tree.nodes[l].left, None);
    assert_eq!(tree.nodes[l].right, None);
    assert_eq!(tree.nodes[r].key, Some(70));
    assert_eq!(tree.nodes[r].parent, Some(n[0]));
    BstNode::add_right_child(&mut tree, &l, 40);
    assert_eq!(BstNode::tree_search(&tree, &40), Some(3));
    assert_eq!(BstNode::tree_search(&tree, &30), Some(l));
    assert_eq!(BstNode::tree_search(&tree, &70), Some(r));
    assert_eq!(in_order(&tree), vec![30, 40, 50, 70]);
    assert_eq!(tree.root, Some(n[0]));
}

#[test]
fn a_node_taken_out_and_a_new_one_with_its_key() {
    let (mut tree, n) = build(&[50, 30, 70]);
    assert!(BstNode::tree_delete(&mut tree, &n[1]));
    let again = BstNode::new_bst_nodelink(&mut tree, 30);
    BstNode::tree_insert(&mut tree, again);
    assert_eq!(BstNode::tree_search(&tree, &30), Some(again));
    assert_eq!(tree.nodes[n[0]].left, Some(again));
    assert_eq!(in_order(&tree), vec![30, 50, 70]);
}
