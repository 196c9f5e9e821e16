//! How the links stored in the arena spell out a tree.
//!
//! `linked` says that the nodes named by an abstract tree hold that tree's
//! keys and point at each other as the tree prescribes, down and up. The
//! lemmas say which changes to the arena keep that true.

use super::bst::BstNode;
use super::shape::Shape;
use super::shape_facts;
use vstd::prelude::*;

verus! {

/// The nodes of `t` are in the arena with the keys of `t`; each one's child
/// links name the roots of its two subtrees, and its parent link names the node
/// above it, which for the root of `t` is `above`.
pub open spec fn linked(nodes: Seq<BstNode>, above: Option<usize>, t: Shape) -> bool
    decreases t,
{
    match t {
        Shape::Nil => true,
        Shape::Node { left, id, key, right } => {
            &&& id < nodes.len()
            &&& nodes[id as int].key == Some(key)
            &&& nodes[id as int].parent == above
            &&& nodes[id as int].left == left.root_id()
            &&& nodes[id as int].right == right.root_id()
            &&& linked(nodes, Some(id), *left)
            &&& linked(nodes, Some(id), *right)
        },
    }
}

/// What the arena holds for one node of a linked tree.
pub proof fn lemma_linked_node(nodes: Seq<BstNode>, above: Option<usize>, t: Shape, i: usize)
    requires
        linked(nodes, above, t),
        t.distinct(),
        t.has(i),
    ensures
        i < nodes.len(),
        nodes[i as int].key == Some(t.key_of(i)),
        nodes[i as int].parent == t.parent_of(i, above),
        nodes[i as int].left == t.subtree(i).left().root_id(),
        nodes[i as int].right == t.subtree(i).right().root_id(),
        linked(nodes, nodes[i as int].parent, t.subtree(i)),
    decreases t,
{
    match t {
        Shape::Nil => {},
        Shape::Node { left, id: here, right, .. } => {
            if here == i {
            } else if left.has(i) {
                lemma_linked_node(nodes, Some(here), *left, i);
            } else {
                lemma_linked_node(nodes, Some(here), *right, i);
            }
        },
    }
}

/// A change to the arena that leaves the nodes of a tree alone leaves the tree
/// linked.
pub proof fn lemma_linked_frame(
    before: Seq<BstNode>,
    after: Seq<BstNode>,
    above: Option<usize>,
    t: Shape,
)
    requires
        linked(before, above, t),
        forall|i: usize| #[trigger] t.has(i) ==> i < after.len() && after[i as int] == before[i as int],
    ensures
        linked(after, above, t),
    decreases t,
{
    match t {
        Shape::Nil => {},
        Shape::Node { left, id: here, right, .. } => {
            assert(t.has(here));
            assert forall|i: usize| #[trigger] left.has(i) implies i < after.len() && after[i as int]
                == before[i as int] by {
                assert(t.has(i));
            }
            assert forall|i: usize| #[trigger] right.has(i) implies i < after.len() && after[i as int]
                == before[i as int] by {
                assert(t.has(i));
            }
            lemma_linked_frame(before, after, Some(here), *left);
            lemma_linked_frame(before, after, Some(here), *right);
        },
    }
}

/// Giving the root of a linked tree another parent link, and changing nothing
/// else in the tree, leaves it linked below the new parent.
pub proof fn lemma_linked_reparent(
    before: Seq<BstNode>,
    after: Seq<BstNode>,
    above: Option<usize>,
    t: Shape,
    parent: Option<usize>,
)
    requires
        linked(before, above, t),
        t.distinct(),
        forall|i: usize| #[trigger]
            t.has(i) ==> i < after.len() && after[i as int] == (if t.root_id() == Some(i) {
                BstNode { parent, ..before[i as int] }
            } else {
                before[i as int]
            }),
    ensures
        linked(after, parent, t),
{
    match t {
        Shape::Nil => {},
        Shape::Node { left, id: here, right, .. } => {
            assert(t.has(here));
            assert forall|i: usize| #[trigger] left.has(i) implies i < after.len() && after[i as int]
                == before[i as int] by {
                assert(t.has(i));
            }
            assert forall|i: usize| #[trigger] right.has(i) implies i < after.len() && after[i as int]
                == before[i as int] by {
                assert(t.has(i));
            }
            lemma_linked_frame(before, after, Some(here), *left);
            lemma_linked_frame(before, after, Some(here), *right);
        },
    }
}

/// The links determine the tree: two trees linked in one arena from the same
/// root are the same tree.
pub proof fn lemma_linked_unique(
    nodes: Seq<BstNode>,
    above1: Option<usize>,
    t1: Shape,
    above2: Option<usize>,
    t2: Shape,
)
    requires
        linked(nodes, above1, t1),
        linked(nodes, above2, t2),
        t1.root_id() == t2.root_id(),
    ensures
        t1 == t2,
    decreases t1,
{
    match t1 {
        Shape::Nil => {},
        Shape::Node { left, id: here, right, .. } => {
            lemma_linked_unique(nodes, Some(here), *left, Some(here), t2.left());
            lemma_linked_unique(nodes, Some(here), *right, Some(here), t2.right());
        },
    }
}

/// Hanging a new leaf where the way down for its key ends links the tree with
/// that leaf inserted. The new node holds the key, no children, and a parent
/// link to the node where the way ended; that node gets the new node as its
/// child on the side the key belongs to; nothing else in the tree changes.
pub proof fn lemma_linked_attach(
    before: Seq<BstNode>,
    after: Seq<BstNode>,
    above: Option<usize>,
    t: Shape,
    z: usize,
    key: i32,
)
    requires
        linked(before, above, t),
        t.distinct(),
        !t.has(z),
        z < after.len(),
        after[z as int] == (BstNode {
            key: Some(key),
            parent: t.descend(key, above),
            left: None,
            right: None,
        }),
        forall|i: usize| #[trigger]
            t.has(i) ==> i < after.len() && after[i as int] == (if t.descend(key, above) == Some(
                i,
            ) {
                if key < t.key_of(i) {
                    BstNode { left: Some(z), ..before[i as int] }
                } else {
                    BstNode { right: Some(z), ..before[i as int] }
                }
            } else {
                before[i as int]
            }),
    ensures
        linked(after, above, t.inserted(z, key)),
    decreases t,
{
    match t {
        Shape::Nil => {
            assert(linked(after, Some(z), Shape::Nil));
        },
        Shape::Node { left, id: here, key: k, right } => {
            let below = if key < k { *left } else { *right };
            let other = if key < k { *right } else { *left };
            assert(t.has(here));
            assert(t.subtree(here) == t);
            shape_facts::lemma_inserted(below, z, key);
            if below is Node {
                shape_facts::lemma_descend(below, key, Some(here));
            } else {
                assert(below.descend(key, Some(here)) == Some(here));
            }
            assert forall|i: usize| #[trigger] other.has(i) implies i < after.len() && after[i as int]
                == before[i as int] by {
                assert(t.has(i));
                assert(!below.has(i));
            }
            lemma_linked_frame(before, after, Some(here), other);
            assert forall|i: usize| #[trigger] below.has(i) implies i < after.len() && after[i as int]
                == (if below.descend(key, Some(here)) == Some(i) {
                if key < below.key_of(i) {
                    BstNode { left: Some(z), ..before[i as int] }
                } else {
                    BstNode { right: Some(z), ..before[i as int] }
                }
            } else {
                before[i as int]
            }) by {
                assert(t.has(i));
                assert(t.subtree(i) == below.subtree(i));
            }
            lemma_linked_attach(before, after, Some(here), below, z, key);
        },
    }
}

/// Putting a linked tree `sub` in the place of the subtree of `u` links the
/// tree with that subtree replaced. The node above `u` names the root of `sub`
/// where it named `u`; `sub` is linked below that node; the nodes of the
/// tree outside the subtree of `u` are otherwise unchanged.
pub proof fn lemma_linked_replace(
    before: Seq<BstNode>,
    after: Seq<BstNode>,
    above: Option<usize>,
    t: Shape,
    u: usize,
    sub: Shape,
)
    requires
        linked(before, above, t),
        t.distinct(),
        t.has(u),
        linked(after, before[u as int].parent, sub),
        forall|i: usize| #[trigger]
            t.has(i) && !t.subtree(u).has(i) ==> i < after.len() && after[i as int] == (
            if t.root_id() != Some(u) && t.parent_of(u, None) == Some(i) {
                if before[i as int].left == Some(u) {
                    BstNode { left: sub.root_id(), ..before[i as int] }
                } else {
                    BstNode { right: sub.root_id(), ..before[i as int] }
                }
            } else {
                before[i as int]
            }),
    ensures
        linked(after, above, t.replaced(u, sub)),
    decreases t,
{
    match t {
        Shape::Nil => {},
        Shape::Node { left, id: here, right, .. } => {
            if here == u {
            } else {
                let below = if left.has(u) { *left } else { *right };
                let other = if left.has(u) { *right } else { *left };
                assert(below.has(u));
                assert(left.has(u) ==> !right.has(u));
                assert(t.subtree(u) == below.subtree(u));
                assert(t.has(here));
                shape_facts::lemma_subtree_members(below, u);
                assert(!t.subtree(u).has(here)) by {
                    assert(below.subtree(u).has(here) ==> below.has(here));
                }
                lemma_linked_node(before, Some(here), below, u);
                if below.root_id() == Some(u) {
                    assert(below.parent_of(u, Some(here)) == Some(here));
                    assert(below.subtree(u) == below);
                } else {
                    shape_facts::lemma_parent(below, u, Some(here));
                }
                assert forall|i: usize| #[trigger] other.has(i) implies i < after.len() && after[i as int]
                    == before[i as int] by {
                    assert(t.has(i));
                    assert(!below.has(i));
                    assert(below.subtree(u).has(i) ==> below.has(i));
                }
                lemma_linked_frame(before, after, Some(here), other);
                assert forall|i: usize| #[trigger]
                    below.has(i) && !below.subtree(u).has(i) implies i < after.len() && after[i as int]
                    == (if below.root_id() != Some(u) && below.parent_of(u, None) == Some(i) {
                    if before[i as int].left == Some(u) {
                        BstNode { left: sub.root_id(), ..before[i as int] }
                    } else {
                        BstNode { right: sub.root_id(), ..before[i as int] }
                    }
                } else {
                    before[i as int]
                }) by {
                    assert(t.has(i));
                }
                lemma_linked_replace(before, after, Some(here), below, u, sub);
            }
        },
    }
}

/// The arena after the node `u` has given its place to `v`: the node above
/// `u` names `v` where it named `u`, and `v`, if there is one, names that node
/// as its parent. The links that `u` itself holds stay as they are.
pub open spec fn transplanted(nodes: Seq<BstNode>, u: usize, v: Option<usize>) -> Seq<BstNode> {
    let up = nodes[u as int].parent;
    let slotted = match up {
        None => nodes,
        Some(p) => if nodes[p as int].left == Some(u) {
            nodes.update(p as int, BstNode { left: v, ..nodes[p as int] })
        } else {
            nodes.update(p as int, BstNode { right: v, ..nodes[p as int] })
        },
    };
    match v {
        None => slotted,
        Some(c) => slotted.update(c as int, BstNode { parent: up, ..slotted[c as int] }),
    }
}

/// A node that gives its place to one of its own two subtrees leaves a linked
/// tree in which that subtree stands where the node's whole subtree stood.
pub proof fn lemma_transplant_child(
    before: Seq<BstNode>,
    above: Option<usize>,
    t: Shape,
    u: usize,
    child: Shape,
)
    requires
        linked(before, above, t),
        t.distinct(),
        t.has(u),
        above matches Some(a) ==> !t.has(a) && a < before.len(),
        child == t.subtree(u).left() || child == t.subtree(u).right(),
    ensures
        ({
            let after = transplanted(before, u, child.root_id());
            &&& after.len() == before.len()
            &&& linked(after, above, t.replaced(u, child))
            &&& forall|i: usize|
                i < before.len() && (i == u || (!t.has(i) && (above != Some(i) || t.root_id()
                    != Some(u)))) ==> #[trigger] after[i as int] == before[i as int]
            &&& forall|i: usize|
                i < before.len() ==> (#[trigger] after[i as int]).key == before[i as int].key
        }),
{
    let after = transplanted(before, u, child.root_id());
    let sub = t.subtree(u);
    let up = before[u as int].parent;
    lemma_linked_node(before, above, t, u);
    shape_facts::lemma_subtree_node(t, u);
    shape_facts::lemma_subtree_sound(t, u);
    shape_facts::lemma_subtree_members(t, u);
    if t.root_id() != Some(u) {
        shape_facts::lemma_parent(t, u, above);
        lemma_linked_node(before, above, t, up->0);
    }
    assert(linked(before, Some(u), child));
    assert(child.distinct());
    if child is Node {
        assert(child.has(child->id));
        assert(sub.has(child->id));
    }
    assert forall|i: usize| #[trigger] child.has(i) implies i < after.len() && after[i as int] == (
    if child.root_id() == Some(i) {
        BstNode { parent: up, ..before[i as int] }
    } else {
        before[i as int]
    }) by {
        assert(sub.has(i));
        assert(t.has(i));
        lemma_linked_node(before, above, t, i);
    }
    lemma_linked_reparent(before, after, Some(u), child, up);
    assert forall|i: usize| #[trigger] t.has(i) && !t.subtree(u).has(i) implies i < after.len()
        && after[i as int] == (if t.root_id() != Some(u) && t.parent_of(u, None) == Some(i) {
        if before[i as int].left == Some(u) {
            BstNode { left: child.root_id(), ..before[i as int] }
        } else {
            BstNode { right: child.root_id(), ..before[i as int] }
        }
    } else {
        before[i as int]
    }) by {
        lemma_linked_node(before, above, t, i);
    }
    lemma_linked_replace(before, after, above, t, u, child);
}

/// The last steps of taking out a node `z` with two children. The first node
/// `y` of the right subtree has already let go of its place there, so that the
/// rest of the right subtree is linked below `y`. Now `y` takes the place of
/// `z` and the left subtree of `z` is hung below `y`. What comes out is linked
/// as the tree with `z` taken out.
pub proof fn lemma_transplant_first(
    before: Seq<BstNode>,
    mid: Seq<BstNode>,
    above: Option<usize>,
    t: Shape,
    z: usize,
)
    requires
        linked(before, above, t),
        t.distinct(),
        t.has(z),
        above matches Some(a) ==> !t.has(a) && a < before.len(),
        t.subtree(z).left() is Node,
        t.subtree(z).right() is Node,
        mid.len() == before.len(),
        forall|i: usize| #[trigger]
            t.has(i) && !t.subtree(z).right().has(i) ==> mid[i as int] == before[i as int],
        forall|i: usize|
            i < before.len() && !t.has(i) ==> #[trigger] mid[i as int] == before[i as int],
        ({
            let rest = t.subtree(z).right();
            let y = rest.first().0;
            &&& mid[y as int].key == before[y as int].key
            &&& mid[y as int].right == rest.without_first().root_id()
            &&& linked(mid, Some(y), rest.without_first())
        }),
    ensures
        ({
            let y = t.subtree(z).right().first().0;
            let l = t.subtree(z).left()->id;
            let moved = transplanted(mid, z, Some(y));
            let hung = moved.update(y as int, BstNode { left: Some(l), ..moved[y as int] });
            let after = hung.update(l as int, BstNode { parent: Some(y), ..hung[l as int] });
            &&& linked(after, above, t.removed(z))
            &&& forall|i: usize|
                i < before.len() && (i == z || (!t.has(i) && above != Some(i))) ==> #[trigger] after[i as int]
                    == before[i as int]
        }),
{
    let sub = t.subtree(z);
    let low = sub.left();
    let rest = sub.right();
    let y = rest.first().0;
    let l = low->id;
    let up = before[z as int].parent;
    let pruned = rest.without_first();
    let moved = transplanted(mid, z, Some(y));
    let hung = moved.update(y as int, BstNode { left: Some(l), ..moved[y as int] });
    let after = hung.update(l as int, BstNode { parent: Some(y), ..hung[l as int] });
    lemma_linked_node(before, above, t, z);
    shape_facts::lemma_subtree_node(t, z);
    shape_facts::lemma_subtree_sound(t, z);
    shape_facts::lemma_subtree_members(t, z);
    if t.root_id() != Some(z) {
        shape_facts::lemma_parent(t, z, above);
        lemma_linked_node(before, above, t, up->0);
    }
    assert(linked(before, Some(z), low));
    assert(linked(before, Some(z), rest));
    assert(low.distinct() && rest.distinct());
    assert(low.has(l));
    assert(sub.has(l));
    shape_facts::lemma_first(rest);
    shape_facts::lemma_without_first(rest);
    assert(rest.has(y));
    assert(sub.has(y));
    assert(t.has(y));
    assert(!low.has(y));
    assert(y != z && l != z && y != l);
    lemma_linked_node(before, Some(z), rest, y);
    lemma_linked_node(before, above, t, y);
    lemma_linked_node(before, above, t, l);
    assert(mid[z as int] == before[z as int]);
    assert(mid[l as int] == before[l as int]);
    // the left subtree, now below y
    assert forall|i: usize| #[trigger] low.has(i) implies i < after.len() && after[i as int] == (
    if low.root_id() == Some(i) {
        BstNode { parent: Some(y), ..before[i as int] }
    } else {
        before[i as int]
    }) by {
        assert(sub.has(i));
        assert(t.has(i));
        assert(!rest.has(i));
        lemma_linked_node(before, above, t, i);
    }
    lemma_linked_reparent(before, after, Some(z), low, Some(y));
    // the rest of the right subtree, still below y
    assert forall|i: usize| #[trigger] pruned.has(i) implies i < after.len() && after[i as int]
        == mid[i as int] by {
        assert(rest.has(i) && i != y);
        assert(sub.has(i));
        assert(t.has(i));
        assert(!low.has(i));
        lemma_linked_node(before, above, t, i);
    }
    lemma_linked_frame(mid, after, Some(y), pruned);
    // y in the place of z
    let fresh = Shape::Node {
        left: Box::new(low),
        id: y,
        key: rest.first().1,
        right: Box::new(pruned),
    };
    assert(fresh == sub.spliced());
    assert(after[y as int] == (BstNode {
        key: Some(rest.first().1),
        parent: up,
        left: Some(l),
        right: pruned.root_id(),
    }));
    assert(linked(after, up, fresh));
    assert forall|i: usize| #[trigger] t.has(i) && !t.subtree(z).has(i) implies i < after.len()
        && after[i as int] == (if t.root_id() != Some(z) && t.parent_of(z, None) == Some(i) {
        if before[i as int].left == Some(z) {
            BstNode { left: fresh.root_id(), ..before[i as int] }
        } else {
            BstNode { right: fresh.root_id(), ..before[i as int] }
        }
    } else {
        before[i as int]
    }) by {
        assert(!rest.has(i));
        lemma_linked_node(before, above, t, i);
    }
    lemma_linked_replace(before, after, above, t, z, fresh);
}

} // verus!
