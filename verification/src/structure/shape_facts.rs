//! Facts about the abstract form of a tree, each proved by induction over it.

use super::shape::Shape;
use vstd::prelude::*;

verus! {

/// The subtree of a node of the tree starts at that node.
pub proof fn lemma_subtree_node(t: Shape, id: usize)
    requires
        t.has(id),
    ensures
        t.subtree(id) is Node,
        t.subtree(id)->id == id,
    decreases t,
{
    match t {
        Shape::Nil => {},
        Shape::Node { left, id: here, right, .. } => {
            if here == id {
            } else if left.has(id) {
                lemma_subtree_node(*left, id);
            } else {
                lemma_subtree_node(*right, id);
            }
        },
    }
}

/// What is in the subtree of a node is in the tree, with the same subtree.
pub proof fn lemma_subtree_within(t: Shape, c: usize, x: usize)
    requires
        t.distinct(),
        t.has(c),
        t.subtree(c).has(x),
    ensures
        t.has(x),
        t.subtree(x) == t.subtree(c).subtree(x),
    decreases t,
{
    match t {
        Shape::Nil => {},
        Shape::Node { left, id: here, right, .. } => {
            if here == c {
            } else if left.has(c) {
                lemma_subtree_within(*left, c, x);
            } else {
                lemma_subtree_within(*right, c, x);
            }
        },
    }
}

/// A subtree of a sound tree is sound.
pub proof fn lemma_subtree_sound(t: Shape, c: usize)
    requires
        t.distinct(),
        t.has(c),
    ensures
        t.subtree(c).distinct(),
        t.ordered() ==> t.subtree(c).ordered(),
        forall|k: i32| #[trigger] t.subtree(c).has_key(k) ==> t.has_key(k),
    decreases t,
{
    match t {
        Shape::Nil => {},
        Shape::Node { left, id: here, right, .. } => {
            if here == c {
            } else if left.has(c) {
                lemma_subtree_sound(*left, c);
            } else {
                lemma_subtree_sound(*right, c);
            }
        },
    }
}

/// Where a node stands in the whole tree, counted from where its subtree
/// begins.
pub proof fn lemma_position_within(t: Shape, c: usize, x: usize)
    requires
        t.distinct(),
        t.has(c),
        t.subtree(c).has(x),
    ensures
        t.position(x) == t.position(c) - t.subtree(c).left().size() + t.subtree(c).position(x),
    decreases t,
{
    match t {
        Shape::Nil => {},
        Shape::Node { left, id: here, right, .. } => {
            if here == c {
            } else if left.has(c) {
                lemma_subtree_within(*left, c, x);
                lemma_position_within(*left, c, x);
            } else {
                lemma_subtree_within(*right, c, x);
                lemma_position_within(*right, c, x);
            }
        },
    }
}

/// A node's place in order holds that node and its key.
pub proof fn lemma_position(t: Shape, id: usize)
    requires
        t.distinct(),
        t.has(id),
    ensures
        0 <= t.position(id) < t.size(),
        t.entries()[t.position(id)] == (id, t.key_of(id)),
    decreases t,
{
    match t {
        Shape::Nil => {},
        Shape::Node { left, id: here, right, .. } => {
            if left.has(id) {
                lemma_position(*left, id);
            } else if here == id {
            } else {
                lemma_position(*right, id);
            }
        },
    }
}

/// Every entry is a node of the tree, standing at its own place.
pub proof fn lemma_entry(t: Shape, j: int)
    requires
        0 <= j < t.size(),
    ensures
        t.has(t.entries()[j].0),
        t.has_key(t.entries()[j].1),
        t.distinct() ==> t.position(t.entries()[j].0) == j,
    decreases t,
{
    match t {
        Shape::Nil => {},
        Shape::Node { left, id: here, right, .. } => {
            if j < left.size() {
                lemma_entry(*left, j);
            } else if j == left.size() {
            } else {
                lemma_entry(*right, j - left.size() - 1);
            }
        },
    }
}

/// Every key of the tree stands at some place in order.
pub proof fn lemma_key_place(t: Shape, key: i32) -> (j: int)
    requires
        t.has_key(key),
    ensures
        0 <= j < t.size(),
        t.entries()[j].1 == key,
    decreases t,
{
    match t {
        Shape::Nil => 0,
        Shape::Node { left, key: here, right, .. } => {
            if left.has_key(key) {
                lemma_key_place(*left, key)
            } else if here == key {
                left.size() as int
            } else {
                left.size() + 1 + lemma_key_place(*right, key)
            }
        },
    }
}

/// The left child of a node stands directly below it.
pub proof fn lemma_left_child(t: Shape, p: usize, above: Option<usize>)
    requires
        t.distinct(),
        t.has(p),
        t.subtree(p).left() is Node,
    ensures
        ({
            let c = t.subtree(p).left()->id;
            &&& t.has(c)
            &&& c != p
            &&& t.subtree(c) == t.subtree(p).left()
            &&& t.parent_of(c, above) == Some(p)
            &&& t.depth(c) == t.depth(p) + 1
        }),
    decreases t,
{
    match t {
        Shape::Nil => {},
        Shape::Node { left, id: here, right, .. } => {
            if here == p {
                let c = left->id;
                assert(left.has(c));
                assert(left.subtree(c) == *left);
                assert(left.parent_of(c, Some(here)) == Some(here));
                assert(left.depth(c) == 0);
            } else if left.has(p) {
                lemma_left_child(*left, p, Some(here));
            } else {
                lemma_left_child(*right, p, Some(here));
            }
        },
    }
}

/// The right child of a node stands directly below it.
pub proof fn lemma_right_child(t: Shape, p: usize, above: Option<usize>)
    requires
        t.distinct(),
        t.has(p),
        t.subtree(p).right() is Node,
    ensures
        ({
            let c = t.subtree(p).right()->id;
            &&& t.has(c)
            &&& c != p
            &&& t.subtree(c) == t.subtree(p).right()
            &&& t.parent_of(c, above) == Some(p)
            &&& t.depth(c) == t.depth(p) + 1
        }),
    decreases t,
{
    match t {
        Shape::Nil => {},
        Shape::Node { left, id: here, right, .. } => {
            if here == p {
                let c = right->id;
                assert(right.has(c));
                assert(right.subtree(c) == *right);
                assert(right.parent_of(c, Some(here)) == Some(here));
                assert(right.depth(c) == 0);
            } else if left.has(p) {
                lemma_right_child(*left, p, Some(here));
            } else {
                lemma_right_child(*right, p, Some(here));
            }
        },
    }
}

/// A node that is not the root has a parent in the tree, one step higher, and
/// fills exactly one of the parent's two places.
pub proof fn lemma_parent(t: Shape, c: usize, above: Option<usize>)
    requires
        t.distinct(),
        t.has(c),
        t.root_id() != Some(c),
    ensures
        t.parent_of(c, above) is Some,
        t.parent_of(c, above) == t.parent_of(c, None),
        ({
            let p = t.parent_of(c, above)->0;
            let above_c = t.subtree(p);
            &&& t.has(p)
            &&& p != c
            &&& !t.subtree(c).has(p)
            &&& t.depth(c) == t.depth(p) + 1
            &&& (above_c.left().root_id() == Some(c)) != (above_c.right().root_id() == Some(c))
            &&& above_c.left().root_id() == Some(c) ==> above_c.left() == t.subtree(c)
            &&& above_c.right().root_id() == Some(c) ==> above_c.right() == t.subtree(c)
        }),
    decreases t,
{
    match t {
        Shape::Nil => {},
        Shape::Node { left, id: here, right, .. } => {
            if left.has(c) {
                assert(!right.has(c));
                if left.root_id() != Some(c) {
                    lemma_parent(*left, c, Some(here));
                    lemma_parent(*left, c, None);
                } else {
                    assert(left.parent_of(c, Some(here)) == Some(here));
                    assert(left.subtree(c) == *left);
                    assert(left.depth(c) == 0);
                }
            } else {
                assert(right.has(c));
                if right.root_id() != Some(c) {
                    lemma_parent(*right, c, Some(here));
                    lemma_parent(*right, c, None);
                } else {
                    assert(right.parent_of(c, Some(here)) == Some(here));
                    assert(right.subtree(c) == *right);
                    assert(right.depth(c) == 0);
                }
            }
        },
    }
}

/// The first node in order has nothing to its left, and in a tree in search
/// order no key is smaller than its key.
pub proof fn lemma_first(t: Shape)
    requires
        t is Node,
    ensures
        t.size() > 0,
        t.has(t.first().0),
        t.has_key(t.first().1),
        t.entries()[0] == t.first(),
        t.distinct() ==> {
            &&& t.subtree(t.first().0).left() is Nil
            &&& t.key_of(t.first().0) == t.first().1
            &&& t.position(t.first().0) == 0
        },
        t.ordered() ==> forall|k: i32| #[trigger] t.has_key(k) ==> t.first().1 <= k,
    decreases t,
{
    match t {
        Shape::Nil => {},
        Shape::Node { left, id: here, right, .. } => {
            if *left is Node {
                lemma_first(*left);
            }
            if t.ordered() {
                assert forall|k: i32| #[trigger] t.has_key(k) implies t.first().1 <= k by {
                    if left.has_key(k) {
                    } else if right.has_key(k) {
                    }
                }
            }
        },
    }
}

/// The last node in order has nothing to its right, and in a tree in search
/// order no key is larger than its key.
pub proof fn lemma_last(t: Shape)
    requires
        t is Node,
    ensures
        t.size() > 0,
        t.has(t.last().0),
        t.has_key(t.last().1),
        t.entries()[t.size() - 1] == t.last(),
        t.distinct() ==> {
            &&& t.subtree(t.last().0).right() is Nil
            &&& t.key_of(t.last().0) == t.last().1
            &&& t.position(t.last().0) == t.size() - 1
        },
        t.ordered() ==> forall|k: i32| #[trigger] t.has_key(k) ==> k <= t.last().1,
    decreases t,
{
    match t {
        Shape::Nil => {},
        Shape::Node { left, id: here, right, .. } => {
            if *right is Node {
                lemma_last(*right);
            }
            if t.ordered() {
                assert forall|k: i32| #[trigger] t.has_key(k) implies k <= t.last().1 by {
                    if left.has_key(k) {
                    } else if right.has_key(k) {
                    }
                }
            }
        },
    }
}

/// A search stops at a node with the key sought, and finds one whenever the
/// tree holds that key.
pub proof fn lemma_find(t: Shape, key: i32)
    requires
        t.ordered(),
    ensures
        t.find(key) is Some <==> t.has_key(key),
        t.find(key) matches Some(i) ==> t.has(i) && (t.distinct() ==> t.key_of(i) == key),
    decreases t,
{
    match t {
        Shape::Nil => {},
        Shape::Node { left, key: here, right, .. } => {
            if key == here {
            } else if key < here {
                lemma_find(*left, key);
                assert(!right.has_key(key));
            } else {
                lemma_find(*right, key);
                assert(!left.has_key(key));
            }
        },
    }
}

/// The way down for a new key ends at a node of the tree that has no child on
/// the side the key belongs to.
pub proof fn lemma_descend(t: Shape, key: i32, above: Option<usize>)
    requires
        t is Node,
        t.distinct(),
    ensures
        t.descend(key, above) is Some,
        t.descend(key, above) == t.descend(key, None),
        ({
            let j = t.descend(key, above)->0;
            &&& t.has(j)
            &&& key < t.key_of(j) ==> t.subtree(j).left() is Nil
            &&& key >= t.key_of(j) ==> t.subtree(j).right() is Nil
        }),
    decreases t,
{
    match t {
        Shape::Nil => {},
        Shape::Node { left, id: here, key: k, right } => {
            let below = if key < k { *left } else { *right };
            if below is Node {
                lemma_descend(below, key, Some(here));
                lemma_descend(below, key, None);
                let j = below.descend(key, None)->0;
                assert(t.subtree(j) == below.subtree(j));
            } else {
                assert(below.descend(key, Some(here)) == Some(here));
                assert(t.subtree(here) == t);
            }
        },
    }
}

/// What a new leaf changes: one more node, one more key, at the place in order
/// that the key calls for, and the tree stays sound.
pub proof fn lemma_inserted(t: Shape, id: usize, key: i32)
    requires
        t.distinct(),
        !t.has(id),
    ensures
        ({
            let n = t.inserted(id, key);
            &&& n.distinct()
            &&& forall|i: usize| #[trigger] n.has(i) <==> t.has(i) || i == id
            &&& forall|k: i32| #[trigger] n.has_key(k) <==> t.has_key(k) || k == key
            &&& t.ordered() ==> n.ordered()
            &&& n.root_id() == if t is Nil { Some(id) } else { t.root_id() }
            &&& 0 <= t.slot(key) <= t.size()
            &&& n.entries() == t.entries().insert(t.slot(key), (id, key))
        }),
    decreases t,
{
    let n = t.inserted(id, key);
    match t {
        Shape::Nil => {
            assert forall|i: usize| #[trigger] n.has(i) <==> t.has(i) || i == id by {
                assert(!Shape::Nil.has(i));
            }
            assert forall|k: i32| #[trigger] n.has_key(k) <==> t.has_key(k) || k == key by {
                assert(!Shape::Nil.has_key(k));
            }
            assert(Shape::Nil.distinct() && Shape::Nil.ordered());
            assert(Shape::Nil.entries() =~= Seq::<(usize, i32)>::empty());
            assert(n.entries() =~= t.entries().insert(0, (id, key)));
        },
        Shape::Node { left, id: here, key: k, right } => {
            let below = if key < k { *left } else { *right };
            let grown = below.inserted(id, key);
            lemma_inserted(below, id, key);
            assert forall|i: usize| #[trigger] n.has(i) <==> t.has(i) || i == id by {
                assert(grown.has(i) <==> below.has(i) || i == id);
            }
            assert forall|k: i32| #[trigger] n.has_key(k) <==> t.has_key(k) || k == key by {
                assert(grown.has_key(k) <==> below.has_key(k) || k == key);
            }
            assert(n.distinct()) by {
                assert forall|i: usize| n.left().has(i) implies !n.right().has(i) by {
                    assert(grown.has(i) <==> below.has(i) || i == id);
                    assert(left.has(i) ==> !right.has(i));
                }
            }
            if t.ordered() {
                assert forall|q: i32| n.left().has_key(q) implies q < k by {
                    assert(grown.has_key(q) <==> below.has_key(q) || q == key);
                    assert(left.has_key(q) ==> q < k);
                }
                assert forall|q: i32| n.right().has_key(q) implies k <= q by {
                    assert(grown.has_key(q) <==> below.has_key(q) || q == key);
                    assert(right.has_key(q) ==> k <= q);
                }
            }
            assert(n.entries() =~= t.entries().insert(t.slot(key), (id, key)));
        },
    }
}

/// Where the children of a node stand in order: the left child before the
/// node, with only its own right subtree between them; the right child behind
/// the node, with only its own left subtree between them.
pub proof fn lemma_child_position(t: Shape, p: usize)
    requires
        t.distinct(),
        t.has(p),
    ensures
        ({
            let l = t.subtree(p).left();
            l is Node ==> t.position(l->id) == t.position(p) - 1 - l.right().size()
        }),
        ({
            let r = t.subtree(p).right();
            r is Node ==> t.position(r->id) == t.position(p) + 1 + r.left().size()
        }),
{
    let sub = t.subtree(p);
    lemma_subtree_node(t, p);
    lemma_subtree_sound(t, p);
    let l = sub.left();
    let r = sub.right();
    if l is Node {
        let c = l->id;
        assert(l.has(c));
        assert(sub.has(c));
        lemma_position_within(t, p, c);
        assert(l.distinct());
        assert(!l.left().has(c));
        assert(l.position(c) == l.left().size());
        assert(sub.position(c) == l.position(c));
        assert(l.entries() =~= l.left().entries().push((c, l->key)) + l.right().entries());
    }
    if r is Node {
        let c = r->id;
        assert(r.has(c));
        assert(sub.has(c));
        lemma_position_within(t, p, c);
        assert(r.distinct());
        assert(!r.left().has(c));
        assert(r.position(c) == r.left().size());
        assert(!l.has(c));
        assert(sub.position(c) == l.size() + 1 + r.position(c));
    }
}

/// The first node of a node's right subtree comes directly behind the node.
pub proof fn lemma_next_position(t: Shape, p: usize)
    requires
        t.distinct(),
        t.has(p),
        t.subtree(p).right() is Node,
    ensures
        t.has(t.subtree(p).right().first().0),
        t.position(t.subtree(p).right().first().0) == t.position(p) + 1,
{
    let sub = t.subtree(p);
    lemma_subtree_node(t, p);
    lemma_subtree_sound(t, p);
    let r = sub.right();
    let m = r.first().0;
    lemma_first(r);
    assert(sub.has(m));
    lemma_subtree_within(t, p, m);
    lemma_position_within(t, p, m);
    assert(!sub.left().has(m));
    assert(sub.position(m) == sub.left().size() + 1 + r.position(m));
}

/// What is in the subtree of a node is in the tree.
pub proof fn lemma_subtree_members(t: Shape, c: usize)
    requires
        t.distinct(),
        t.has(c),
    ensures
        forall|x: usize| #[trigger] t.subtree(c).has(x) ==> t.has(x),
{
    assert forall|x: usize| #[trigger] t.subtree(c).has(x) implies t.has(x) by {
        lemma_subtree_within(t, c, x);
    }
}

/// Taking the first node out leaves every other node where it was. What stood
/// to the right of the first node takes its place.
pub proof fn lemma_without_first(t: Shape)
    requires
        t is Node,
        t.distinct(),
    ensures
        ({
            let w = t.without_first();
            let f = t.first();
            &&& w.distinct()
            &&& forall|i: usize| #[trigger] w.has(i) <==> t.has(i) && i != f.0
            &&& forall|k: i32| #[trigger] w.has_key(k) ==> t.has_key(k)
            &&& t.ordered() ==> w.ordered()
            &&& t.entries() == seq![f] + w.entries()
            &&& w == t.replaced(f.0, t.subtree(f.0).right())
            &&& w.root_id() == if t.left() is Nil {
                t.right().root_id()
            } else {
                t.root_id()
            }
        }),
    decreases t,
{
    let w = t.without_first();
    let f = t.first();
    match t {
        Shape::Nil => {},
        Shape::Node { left, id: here, key: k, right } => {
            if *left is Nil {
                assert forall|i: usize| #[trigger] w.has(i) <==> t.has(i) && i != f.0 by {
                    assert(!left.has(i));
                }
                assert(left.entries() =~= Seq::<(usize, i32)>::empty());
                assert(t.entries() =~= seq![f] + w.entries());
                assert(t.subtree(here) == t);
            } else {
                let lw = left.without_first();
                lemma_without_first(*left);
                lemma_first(*left);
                assert forall|i: usize| #[trigger] w.has(i) <==> t.has(i) && i != f.0 by {
                    assert(lw.has(i) <==> left.has(i) && i != f.0);
                }
                assert forall|q: i32| #[trigger] w.has_key(q) implies t.has_key(q) by {
                    assert(lw.has_key(q) ==> left.has_key(q));
                }
                assert(w.distinct()) by {
                    assert(lw.has(here) <==> left.has(here) && here != f.0);
                    assert forall|i: usize| w.left().has(i) implies !w.right().has(i) by {
                        assert(lw.has(i) <==> left.has(i) && i != f.0);
                        assert(left.has(i) ==> !right.has(i));
                    }
                }
                if t.ordered() {
                    assert forall|q: i32| w.left().has_key(q) implies q < k by {
                        assert(lw.has_key(q) ==> left.has_key(q));
                        assert(left.has_key(q) ==> q < k);
                    }
                    assert(w.ordered());
                }
                assert(t.entries() =~= seq![f] + w.entries());
                assert(t.subtree(f.0) == left.subtree(f.0));
                assert(t.replaced(f.0, t.subtree(f.0).right()) == w);
            }
        },
    }
}

/// Putting `sub` in the place of the subtree of `u`, where `sub` brings no
/// node and no key that the subtree did not have, keeps the tree sound.
pub proof fn lemma_replaced(t: Shape, u: usize, sub: Shape)
    requires
        t.distinct(),
        t.has(u),
        sub.distinct(),
        forall|i: usize| #[trigger] sub.has(i) ==> t.subtree(u).has(i),
        forall|k: i32| #[trigger] sub.has_key(k) ==> t.subtree(u).has_key(k),
    ensures
        ({
            let r = t.replaced(u, sub);
            &&& r.distinct()
            &&& forall|i: usize| #[trigger] r.has(i) <==> (t.has(i) && !t.subtree(u).has(i)) || sub.has(i)
            &&& forall|i: usize| #[trigger] r.has(i) ==> t.has(i)
            &&& forall|k: i32| #[trigger] r.has_key(k) ==> t.has_key(k)
            &&& t.ordered() && sub.ordered() ==> r.ordered()
            &&& r.root_id() == if t.root_id() == Some(u) {
                sub.root_id()
            } else {
                t.root_id()
            }
        }),
    decreases t,
{
    let r = t.replaced(u, sub);
    match t {
        Shape::Nil => {},
        Shape::Node { left, id: here, key: k, right } => {
            if here == u {
            } else {
                let below = if left.has(u) { *left } else { *right };
                let other = if left.has(u) { *right } else { *left };
                assert(below.has(u));
                assert(t.subtree(u) == below.subtree(u));
                lemma_replaced(below, u, sub);
                lemma_subtree_members(below, u);
                let br = below.replaced(u, sub);
                assert forall|i: usize| #[trigger] r.has(i) <==> (t.has(i) && !t.subtree(u).has(
                    i,
                )) || sub.has(i) by {
                    assert(br.has(i) <==> (below.has(i) && !below.subtree(u).has(i)) || sub.has(i));
                    assert(below.subtree(u).has(i) ==> below.has(i));
                    assert(left.has(i) ==> !right.has(i));
                }
                assert forall|i: usize| #[trigger] r.has(i) implies t.has(i) by {
                    assert(br.has(i) ==> below.has(i));
                }
                assert forall|q: i32| #[trigger] r.has_key(q) implies t.has_key(q) by {
                    assert(br.has_key(q) ==> below.has_key(q));
                }
                assert(r.distinct()) by {
                    assert(br.has(here) ==> below.has(here));
                    assert forall|i: usize| r.left().has(i) implies !r.right().has(i) by {
                        assert(br.has(i) ==> below.has(i));
                        assert(left.has(i) ==> !right.has(i));
                    }
                }
                if t.ordered() && sub.ordered() {
                    assert forall|q: i32| r.left().has_key(q) implies q < k by {
                        assert(br.has_key(q) ==> below.has_key(q));
                        assert(left.has_key(q) ==> q < k);
                    }
                    assert forall|q: i32| r.right().has_key(q) implies k <= q by {
                        assert(br.has_key(q) ==> below.has_key(q));
                        assert(right.has_key(q) ==> k <= q);
                    }
                    assert(r.ordered());
                }
            }
        },
    }
}

/// Taking the root out leaves every other node in the tree, in the same
/// order, and the tree sound.
pub proof fn lemma_spliced(t: Shape)
    requires
        t is Node,
        t.distinct(),
    ensures
        ({
            let s = t.spliced();
            &&& s.distinct()
            &&& forall|i: usize| #[trigger] s.has(i) <==> t.has(i) && i != t->id
            &&& forall|k: i32| #[trigger] s.has_key(k) ==> t.has_key(k)
            &&& t.ordered() ==> s.ordered()
            &&& s.entries() == t.entries().remove(t.left().size() as int)
        }),
{
    let s = t.spliced();
    match t {
        Shape::Nil => {},
        Shape::Node { left, id: here, key: k, right } => {
            if *left is Nil {
                assert forall|i: usize| #[trigger] s.has(i) <==> t.has(i) && i != here by {
                    assert(!left.has(i));
                }
                assert(left.entries() =~= Seq::<(usize, i32)>::empty());
                assert(s.entries() =~= t.entries().remove(0));
            } else if *right is Nil {
                assert forall|i: usize| #[trigger] s.has(i) <==> t.has(i) && i != here by {
                    assert(!right.has(i));
                }
                assert(right.entries() =~= Seq::<(usize, i32)>::empty());
                assert(s.entries() =~= t.entries().remove(left.size() as int));
            } else {
                let f = right.first();
                let rw = right.without_first();
                lemma_first(*right);
                lemma_without_first(*right);
                assert forall|i: usize| #[trigger] s.has(i) <==> t.has(i) && i != here by {
                    assert(rw.has(i) <==> right.has(i) && i != f.0);
                    assert(left.has(i) ==> !right.has(i));
                }
                assert forall|q: i32| #[trigger] s.has_key(q) implies t.has_key(q) by {
                    assert(rw.has_key(q) ==> right.has_key(q));
                }
                assert(s.distinct()) by {
                    assert(left.has(f.0) ==> !right.has(f.0));
                    assert(rw.has(f.0) <==> right.has(f.0) && f.0 != f.0);
                    assert forall|i: usize| s.left().has(i) implies !s.right().has(i) by {
                        assert(rw.has(i) <==> right.has(i) && i != f.0);
                        assert(left.has(i) ==> !right.has(i));
                    }
                }
                if t.ordered() {
                    assert(k <= f.1);
                    assert forall|q: i32| s.left().has_key(q) implies q < f.1 by {
                        assert(left.has_key(q) ==> q < k);
                    }
                    assert forall|q: i32| s.right().has_key(q) implies f.1 <= q by {
                        assert(rw.has_key(q) ==> right.has_key(q));
                        assert(right.has_key(q) ==> f.1 <= q);
                    }
                    assert(s.ordered());
                }
                assert(s.entries() =~= t.entries().remove(left.size() as int));
            }
        },
    }
}

/// Taking a node out takes its entry out of the order and leaves the rest as
/// it was.
pub proof fn lemma_removed_entries(t: Shape, z: usize)
    requires
        t.distinct(),
        t.has(z),
    ensures
        t.removed(z).entries() == t.entries().remove(t.position(z)),
    decreases t,
{
    match t {
        Shape::Nil => {},
        Shape::Node { left, id: here, key: k, right } => {
            if here == z {
                lemma_spliced(t);
            } else if left.has(z) {
                lemma_removed_entries(*left, z);
                lemma_position(*left, z);
                assert(t.subtree(z) == left.subtree(z));
                assert(t.removed(z).left() == left.removed(z));
                assert(t.removed(z).entries() =~= t.entries().remove(t.position(z)));
            } else {
                lemma_removed_entries(*right, z);
                lemma_position(*right, z);
                assert(t.subtree(z) == right.subtree(z));
                assert(t.removed(z).right() == right.removed(z));
                assert(t.removed(z).entries() =~= t.entries().remove(t.position(z)));
            }
        },
    }
}

/// What taking a node out changes: that node is gone, every other node is
/// still there, in the same order, and the tree stays sound.
pub proof fn lemma_removed(t: Shape, z: usize)
    requires
        t.distinct(),
        t.has(z),
    ensures
        ({
            let r = t.removed(z);
            &&& r.distinct()
            &&& forall|i: usize| #[trigger] r.has(i) <==> t.has(i) && i != z
            &&& forall|k: i32| #[trigger] r.has_key(k) ==> t.has_key(k)
            &&& t.ordered() ==> r.ordered()
            &&& r.entries() == t.entries().remove(t.position(z))
            &&& r.size() + 1 == t.size()
            &&& r.root_id() == if t.root_id() == Some(z) {
                t.spliced().root_id()
            } else {
                t.root_id()
            }
        }),
{
    let sub = t.subtree(z);
    let r = t.removed(z);
    lemma_subtree_node(t, z);
    lemma_subtree_sound(t, z);
    lemma_subtree_members(t, z);
    lemma_spliced(sub);
    lemma_replaced(t, z, sub.spliced());
    lemma_removed_entries(t, z);
    lemma_position(t, z);
    assert forall|i: usize| #[trigger] r.has(i) <==> t.has(i) && i != z by {
        assert(sub.spliced().has(i) <==> sub.has(i) && i != z);
        assert(sub.has(i) ==> t.has(i));
        assert(sub.has(z));
    }
}

/// In a tree in search order, the keys in order never go down.
pub proof fn lemma_keys_sorted(t: Shape, i: int, j: int)
    requires
        t.ordered(),
        0 <= i <= j < t.size(),
    ensures
        t.entries()[i].1 <= t.entries()[j].1,
    decreases t,
{
    match t {
        Shape::Nil => {},
        Shape::Node { left, right, .. } => {
            let n = left.size() as int;
            if j < n {
                lemma_keys_sorted(*left, i, j);
            } else if i > n {
                lemma_keys_sorted(*right, i - n - 1, j - n - 1);
            } else {
                if i < n {
                    lemma_entry(*left, i);
                }
                if j > n {
                    lemma_entry(*right, j - n - 1);
                }
            }
        },
    }
}

/// A node of the tree holds a key of the tree, and a node in the subtree of
/// another holds the same key there.
pub proof fn lemma_key_of(t: Shape, c: usize, i: usize)
    requires
        t.distinct(),
        t.has(c),
        t.subtree(c).has(i),
    ensures
        t.has(i),
        t.has_key(t.key_of(i)),
        t.subtree(c).has_key(t.key_of(i)),
        t.subtree(c).key_of(i) == t.key_of(i),
{
    lemma_subtree_within(t, c, i);
    lemma_subtree_sound(t, c);
    lemma_position(t, i);
    lemma_entry(t, t.position(i));
    lemma_position(t.subtree(c), i);
    lemma_entry(t.subtree(c), t.subtree(c).position(i));
}

/// The place for a new key parts the keys in order: those before it are not
/// larger than the key, those from it on are larger.
pub proof fn lemma_slot(t: Shape, key: i32)
    requires
        t.ordered(),
    ensures
        0 <= t.slot(key) <= t.size(),
        forall|j: int| 0 <= j < t.slot(key) ==> (#[trigger] t.entries()[j]).1 <= key,
        forall|j: int| t.slot(key) <= j < t.size() ==> key < (#[trigger] t.entries()[j]).1,
    decreases t,
{
    match t {
        Shape::Nil => {},
        Shape::Node { left, key: k, right, .. } => {
            let n = left.size() as int;
            lemma_slot(*left, key);
            lemma_slot(*right, key);
            assert forall|j: int| 0 <= j < t.slot(key) implies (#[trigger] t.entries()[j]).1
                <= key by {
                if j < n {
                    lemma_entry(*left, j);
                    assert(t.entries()[j] == left.entries()[j]);
                } else if j > n {
                    assert(t.entries()[j] == right.entries()[j - n - 1]);
                }
            }
            assert forall|j: int| t.slot(key) <= j < t.size() implies key < (
            #[trigger] t.entries()[j]).1 by {
                if j < n {
                    assert(t.entries()[j] == left.entries()[j]);
                } else if j > n {
                    lemma_entry(*right, j - n - 1);
                    assert(t.entries()[j] == right.entries()[j - n - 1]);
                }
            }
        },
    }
}

} // verus!
