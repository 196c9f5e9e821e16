//! What holds of the tree whatever is inserted and deleted.

use super::bst::BstTree;
use super::links;
use super::shape::Shape;
use super::shape_facts;
use vstd::prelude::*;

verus! {

/// A well-formed tree read in order gives keys that never go down. Insertion
/// and deletion both leave the tree well formed, so this holds after any
/// sequence of them.
pub proof fn law_in_order_sorted(tree: &BstTree)
    requires
        tree.wf(),
    ensures
        forall|i: int, j: int|
            0 <= i <= j < tree@.keys().len() ==> tree@.keys()[i] <= tree@.keys()[j],
{
    tree.lemma_view();
    let t = tree@;
    assert forall|i: int, j: int| 0 <= i <= j < t.keys().len() implies t.keys()[i] <= t.keys()[j] by {
        shape_facts::lemma_keys_sorted(t, i, j);
    }
}

/// Every node of a well-formed tree has one place in it: read in order, no
/// node comes twice.
pub proof fn law_one_place(tree: &BstTree)
    requires
        tree.wf(),
    ensures
        tree@.ids().no_duplicates(),
{
    tree.lemma_view();
    let t = tree@;
    assert forall|i: int, j: int| 0 <= i < t.ids().len() && 0 <= j < t.ids().len() && i != j implies t.ids()[i]
        != t.ids()[j] by {
        shape_facts::lemma_entry(t, i);
        shape_facts::lemma_entry(t, j);
    }
}

/// Down and up agree. A child of a node of the tree is in the tree and names
/// that node as its parent; a node with a parent stands one step below it, in
/// exactly one of the parent's two places; and the root, and only the root,
/// has no parent.
pub proof fn law_parent_child(tree: &BstTree, n: usize)
    requires
        tree.wf(),
        tree@.has(n),
    ensures
        n < tree.nodes@.len(),
        tree.nodes@[n as int].left matches Some(c) ==> tree@.has(c) && c < tree.nodes@.len()
            && tree.nodes@[c as int].parent == Some(n),
        tree.nodes@[n as int].right matches Some(c) ==> tree@.has(c) && c < tree.nodes@.len()
            && tree.nodes@[c as int].parent == Some(n),
        tree.nodes@[n as int].parent matches Some(p) ==> tree@.has(p) && p < tree.nodes@.len() && (
        tree.nodes@[p as int].left == Some(n)) != (tree.nodes@[p as int].right == Some(n)),
        tree.nodes@[n as int].parent matches Some(p) ==> tree@.depth(p) + 1 == tree@.depth(n),
        tree.nodes@[n as int].parent is None <==> tree.root == Some(n),
{
    tree.lemma_view();
    let t = tree@;
    let nodes = tree.nodes@;
    links::lemma_linked_node(nodes, None, t, n);
    shape_facts::lemma_subtree_node(t, n);
    if t.subtree(n).left() is Node {
        shape_facts::lemma_left_child(t, n, None);
        links::lemma_linked_node(nodes, None, t, t.subtree(n).left()->id);
    }
    if t.subtree(n).right() is Node {
        shape_facts::lemma_right_child(t, n, None);
        links::lemma_linked_node(nodes, None, t, t.subtree(n).right()->id);
    }
    if t.root_id() != Some(n) {
        shape_facts::lemma_parent(t, n, None);
        links::lemma_linked_node(nodes, None, t, t.parent_of(n, None)->0);
    }
}

/// A search for a key that has just been inserted finds a node with that key.
pub proof fn law_insert_then_search(t: Shape, z: usize, key: i32)
    requires
        t.distinct(),
        t.ordered(),
        !t.has(z),
    ensures
        t.inserted(z, key).find(key) is Some,
        t.inserted(z, key).has(t.inserted(z, key).find(key)->0),
        t.inserted(z, key).key_of(t.inserted(z, key).find(key)->0) == key,
{
    shape_facts::lemma_inserted(t, z, key);
    shape_facts::lemma_find(t.inserted(z, key), key);
}

/// After the node that a search for `key` found has been taken out, every
/// other key is found exactly if it was found before; and `key` itself is
/// found no more, provided no second node held it.
pub proof fn law_delete_then_search(t: Shape, z: usize, key: i32)
    requires
        t.distinct(),
        t.ordered(),
        t.find(key) == Some(z),
    ensures
        forall|k: i32| k != key ==> (#[trigger] t.removed(z).find(k) is Some <==> t.find(k) is Some),
        (forall|i: usize| t.has(i) && #[trigger] t.key_of(i) == key ==> i == z) ==> t.removed(z).find(
            key,
        ) is None,
{
    let r = t.removed(z);
    let at = t.position(z);
    shape_facts::lemma_find(t, key);
    shape_facts::lemma_removed(t, z);
    shape_facts::lemma_position(t, z);
    assert forall|k: i32| k != key implies (#[trigger] r.find(k) is Some <==> t.find(k) is Some) by {
        shape_facts::lemma_find(t, k);
        shape_facts::lemma_find(r, k);
        if t.has_key(k) {
            let j = shape_facts::lemma_key_place(t, k);
            let moved = if j < at { j } else { j - 1 };
            assert(r.entries()[moved] == t.entries()[j]);
            shape_facts::lemma_entry(r, moved);
        }
    }
    if forall|i: usize| t.has(i) && #[trigger] t.key_of(i) == key ==> i == z {
        shape_facts::lemma_find(r, key);
        if r.has_key(key) {
            let moved = shape_facts::lemma_key_place(r, key);
            let j = if moved < at { moved } else { moved + 1 };
            assert(r.entries()[moved] == t.entries()[j]);
            shape_facts::lemma_entry(t, j);
            let i = t.entries()[j].0;
            shape_facts::lemma_position(t, i);
            assert(t.key_of(i) == key);
        }
    }
}

/// Taking a node out makes the tree one node smaller and leaves the order of
/// the others as it was: reading the tree in order gives what it gave before,
/// without the node taken out.
pub proof fn law_delete_in_order(t: Shape, z: usize)
    requires
        t.distinct(),
        t.has(z),
    ensures
        t.removed(z).size() + 1 == t.size(),
        0 <= t.position(z) < t.size(),
        t.ids()[t.position(z)] == z,
        t.removed(z).entries() == t.entries().remove(t.position(z)),
        t.removed(z).ids() == t.ids().remove(t.position(z)),
        t.removed(z).keys() == t.keys().remove(t.position(z)),
{
    shape_facts::lemma_removed(t, z);
    shape_facts::lemma_position(t, z);
    assert(t.removed(z).ids() =~= t.ids().remove(t.position(z)));
    assert(t.removed(z).keys() =~= t.keys().remove(t.position(z)));
}

/// Inserting a node makes the tree one node larger and leaves the order of
/// the others as it was: the new node stands behind every key that is not
/// larger than its own, and before every key that is.
pub proof fn law_insert_in_order(t: Shape, z: usize, key: i32)
    requires
        t.distinct(),
        t.ordered(),
        !t.has(z),
    ensures
        0 <= t.slot(key) <= t.size(),
        t.inserted(z, key).entries() == t.entries().insert(t.slot(key), (z, key)),
        t.inserted(z, key).ids() == t.ids().insert(t.slot(key), z),
        t.inserted(z, key).keys() == t.keys().insert(t.slot(key), key),
        forall|j: int| 0 <= j < t.slot(key) ==> t.keys()[j] <= key,
        forall|j: int| t.slot(key) <= j < t.size() ==> key < t.keys()[j],
{
    shape_facts::lemma_inserted(t, z, key);
    let n = t.inserted(z, key);
    let at = t.slot(key);
    assert(n.ids() =~= t.ids().insert(at, z));
    assert(n.keys() =~= t.keys().insert(at, key));
    shape_facts::lemma_slot(t, key);
}

/// The node that follows a node in order holds the next key: one that is not
/// smaller, with no key of the tree strictly between the two. A node that
/// nothing follows holds the largest key.
pub proof fn law_successor_next_key(t: Shape, x: usize)
    requires
        t.distinct(),
        t.ordered(),
        t.has(x),
    ensures
        t.after(x) matches Some(n) ==> {
            &&& t.has(n)
            &&& n != x
            &&& t.key_of(x) <= t.key_of(n)
            &&& forall|i: usize| #[trigger]
                t.has(i) ==> t.key_of(i) <= t.key_of(x) || t.key_of(n) <= t.key_of(i)
        },
        t.after(x) is None ==> forall|i: usize| #[trigger] t.has(i) ==> t.key_of(i) <= t.key_of(x),
{
    let at = t.position(x);
    shape_facts::lemma_position(t, x);
    if at + 1 < t.size() {
        let n = t.ids()[at + 1];
        shape_facts::lemma_entry(t, at + 1);
        shape_facts::lemma_position(t, n);
        shape_facts::lemma_keys_sorted(t, at, at + 1);
        assert forall|i: usize| #[trigger] t.has(i) implies t.key_of(i) <= t.key_of(x) || t.key_of(n)
            <= t.key_of(i) by {
            shape_facts::lemma_position(t, i);
            if t.position(i) <= at {
                shape_facts::lemma_keys_sorted(t, t.position(i), at);
            } else {
                shape_facts::lemma_keys_sorted(t, at + 1, t.position(i));
            }
        }
    } else {
        assert forall|i: usize| #[trigger] t.has(i) implies t.key_of(i) <= t.key_of(x) by {
            shape_facts::lemma_position(t, i);
            shape_facts::lemma_keys_sorted(t, t.position(i), at);
        }
    }
}

/// Below any node, the first node in order holds the smallest key and the
/// last node in order holds the largest.
pub proof fn law_minimum_maximum(t: Shape, c: usize, i: usize)
    requires
        t.distinct(),
        t.ordered(),
        t.has(c),
        t.subtree(c).has(i),
    ensures
        t.key_of(t.subtree(c).first().0) <= t.key_of(i),
        t.key_of(i) <= t.key_of(t.subtree(c).last().0),
{
    let sub = t.subtree(c);
    shape_facts::lemma_subtree_node(t, c);
    shape_facts::lemma_subtree_sound(t, c);
    shape_facts::lemma_first(sub);
    shape_facts::lemma_last(sub);
    shape_facts::lemma_key_of(t, c, i);
    shape_facts::lemma_key_of(t, c, sub.first().0);
    shape_facts::lemma_key_of(t, c, sub.last().0);
}

} // verus!
