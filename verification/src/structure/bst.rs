//! The tree itself: nodes in an arena, linked by position.

use super::links;
use super::links::linked;
use super::links::transplanted;
use super::shape::Shape;
use super::shape_facts;
use vstd::prelude::*;

verus! {

/// A link that owns: from a node down to a child, or from the tree to its root.
/// It is the node's position in the arena.
pub type BstNodeLink = usize;

/// A link that does not own: from a node up to its parent.
pub type WeakBstNodeLink = usize;

/// One node: its key and its three links.
#[derive(Clone, Copy, Debug)]
pub struct BstNode {
    pub key: Option<i32>,
    pub parent: Option<WeakBstNodeLink>,
    pub left: Option<BstNodeLink>,
    pub right: Option<BstNodeLink>,
}

/// A tree: the arena that holds every node made for it, and the link to the
/// root. A node in the arena belongs to the tree once it has been inserted and
/// until it is deleted.
#[derive(Debug)]
pub struct BstTree {
    pub nodes: Vec<BstNode>,
    pub root: Option<BstNodeLink>,
}

impl View for BstTree {
    type V = Shape;

    /// The abstract tree that the links spell out.
    open spec fn view(&self) -> Shape {
        choose|t: Shape| self.models(t)
    }
}

impl BstTree {
    /// The links from the root spell out `t`, every node of `t` has one place
    /// in it, and `t` is in search order.
    pub open spec fn models(&self, t: Shape) -> bool {
        &&& self.root == t.root_id()
        &&& linked(self.nodes@, None, t)
        &&& t.distinct()
        &&& t.ordered()
    }

    /// The tree is well formed: its links spell out a sound abstract tree.
    pub open spec fn wf(&self) -> bool {
        exists|t: Shape| self.models(t)
    }

    /// A well-formed tree is modelled by its view.
    pub proof fn lemma_view(&self)
        requires
            self.wf(),
        ensures
            self.models(self@),
    {
    }

    /// A tree has no model but its view.
    pub proof fn lemma_view_is(&self, t: Shape)
        requires
            self.models(t),
        ensures
            self.wf(),
            self@ == t,
    {
        links::lemma_linked_unique(self.nodes@, None, t, None, self@);
    }

    /// The node `z` is in the arena but not in the tree, holds a key, and has
    /// no children: it can be inserted.
    pub open spec fn is_detached(&self, z: BstNodeLink) -> bool {
        &&& z < self.nodes@.len()
        &&& !self@.has(z)
        &&& self.nodes@[z as int].key is Some
        &&& self.nodes@[z as int].left is None
        &&& self.nodes@[z as int].right is None
    }

    /// Every node of the tree is in the arena.
    pub proof fn lemma_in_arena(&self, i: BstNodeLink)
        requires
            self.wf(),
            self@.has(i),
        ensures
            i < self.nodes@.len(),
    {
        links::lemma_linked_node(self.nodes@, None, self@, i);
    }

    /// An empty tree with an empty arena.
    pub fn new() -> (tree: BstTree)
        ensures
            tree.wf(),
            tree@ == Shape::Nil,
            tree.nodes@.len() == 0,
            tree.root is None,
    {
        let tree = BstTree { nodes: Vec::new(), root: None };
        proof {
            tree.lemma_view_is(Shape::Nil);
        }
        tree
    }
}

impl BstNode {
    /// A node with a key and no links.
    fn new(key: i32) -> (node: BstNode)
        ensures
            node == (BstNode { key: Some(key), parent: None, left: None, right: None }),
    {
        BstNode { key: Some(key), left: None, right: None, parent: None }
    }

    /// Makes a node that holds `value` and puts it in the arena, outside the
    /// tree. The link that comes back is what `tree_insert` takes.
    pub fn new_bst_nodelink(tree: &mut BstTree, value: i32) -> (link: BstNodeLink)
        requires
            old(tree).wf(),
        ensures
            link == old(tree).nodes@.len(),
            final(tree).nodes@ == old(tree).nodes@.push(
                BstNode { key: Some(value), parent: None, left: None, right: None },
            ),
            final(tree).root == old(tree).root,
            final(tree).wf(),
            final(tree)@ == old(tree)@,
            final(tree).is_detached(link),
    {
        let link = tree.nodes.len();
        let node = BstNode::new(value);
        tree.nodes.push(node);
        proof {
            old(tree).lemma_view();
            assert forall|i: usize| #[trigger] old(tree)@.has(i) implies i < tree.nodes@.len()
                && tree.nodes@[i as int] == old(tree).nodes@[i as int] by {
                old(tree).lemma_in_arena(i);
            }
            links::lemma_linked_frame(old(tree).nodes@, tree.nodes@, None, old(tree)@);
            tree.lemma_view_is(old(tree)@);
            if tree@.has(link) {
                old(tree).lemma_in_arena(link);
            }
        }
        link
    }

    /// Puts a copy of this node in the arena, outside the tree: a new node with
    /// the same key and the same three links.
    pub fn get_bst_nodelink_copy(&self, tree: &mut BstTree) -> (link: BstNodeLink)
        requires
            old(tree).wf(),
        ensures
            link == old(tree).nodes@.len(),
            final(tree).nodes@ == old(tree).nodes@.push(*self),
            final(tree).root == old(tree).root,
            final(tree).wf(),
            final(tree)@ == old(tree)@,
    {
        let link = tree.nodes.len();
        tree.nodes.push(*self);
        proof {
            old(tree).lemma_view();
            assert forall|i: usize| #[trigger] old(tree)@.has(i) implies i < tree.nodes@.len()
                && tree.nodes@[i as int] == old(tree).nodes@[i as int] by {
                old(tree).lemma_in_arena(i);
            }
            links::lemma_linked_frame(old(tree).nodes@, tree.nodes@, None, old(tree)@);
            tree.lemma_view_is(old(tree)@);
        }
        link
    }

    /// The parent link that names the node a child link names.
    fn downgrade(node: &BstNodeLink) -> (weak: WeakBstNodeLink)
        ensures
            weak == *node,
    {
        *node
    }

    /// The child link that names the node a parent link names. A parent link
    /// names a place in the arena, and the arena never gives a place up, so
    /// the node is always there.
    fn upgrade_weak_to_strong(node: Option<WeakBstNodeLink>) -> (strong: Option<BstNodeLink>)
        ensures
            strong == node,
    {
        match node {
            None => None,
            Some(x) => Some(x),
        }
    }

    /// Makes a node that holds `value` and names `parent` as its parent, and
    /// puts it in the arena.
    fn new_with_parent(tree: &mut BstTree, parent: &BstNodeLink, value: i32) -> (link: BstNodeLink)
        ensures
            link == old(tree).nodes@.len(),
            final(tree).nodes@ == old(tree).nodes@.push(
                BstNode { key: Some(value), parent: Some(*parent), left: None, right: None },
            ),
            final(tree).root == old(tree).root,
    {
        let mut node = BstNode::new(value);
        node.parent = Some(BstNode::downgrade(parent));
        let link = tree.nodes.len();
        tree.nodes.push(node);
        link
    }

    /// Puts `z` into the tree as a leaf. The way down starts at the root and
    /// goes left where the key of `z` is smaller than a node's key, right
    /// otherwise, so a key that is already there lands to the right of its
    /// equals. Where the way ends, `z` is hung; in an empty tree `z` becomes
    /// the root. No other node moves.
    pub fn tree_insert(tree: &mut BstTree, z: BstNodeLink) -> (link: BstNodeLink)
        requires
            old(tree).wf(),
            old(tree).is_detached(z),
        ensures
            link == z,
            final(tree).wf(),
            final(tree)@ == old(tree)@.inserted(z, old(tree).nodes@[z as int].key->0),
            final(tree)@.entries() == old(tree)@.entries().insert(
                old(tree)@.slot(old(tree).nodes@[z as int].key->0),
                (z, old(tree).nodes@[z as int].key->0),
            ),
            final(tree)@.has(z),
            final(tree).nodes@.len() == old(tree).nodes@.len(),
            forall|i: usize|
                i < final(tree).nodes@.len() && !(#[trigger] final(tree)@.has(i))
                    ==> final(tree).nodes@[i as int] == old(tree).nodes@[i as int],
    {
        let key = tree.nodes[z].key.unwrap();
        let mut y: Option<BstNodeLink> = None;
        let mut x = tree.root;
        let ghost mut sub = tree@;
        proof {
            tree.lemma_view();
        }
        while x.is_some()
            invariant
                *tree == *old(tree),
                x == sub.root_id(),
                linked(tree.nodes@, y, sub),
                tree@.descend(key, None) == sub.descend(key, y),
            decreases sub,
        {
            let i = x.unwrap();
            y = x;
            if key < tree.nodes[i].key.unwrap() {
                x = tree.nodes[i].left;
                proof {
                    sub = sub.left();
                }
            } else {
                x = tree.nodes[i].right;
                proof {
                    sub = sub.right();
                }
            }
        }
        let ghost t = tree@;
        proof {
            tree.lemma_view();
            if t is Node {
                shape_facts::lemma_descend(t, key, None);
                links::lemma_linked_node(tree.nodes@, None, t, y->0);
            }
        }
        match y {
            None => {
                tree.nodes[z].parent = None;
                tree.root = Some(z);
            },
            Some(p) => {
                tree.nodes[z].parent = Some(BstNode::downgrade(&p));
                if key < tree.nodes[p].key.unwrap() {
                    tree.nodes[p].left = Some(z);
                } else {
                    tree.nodes[p].right = Some(z);
                }
            },
        }
        proof {
            assert forall|i: usize| #[trigger] t.has(i) implies i < tree.nodes@.len() by {
                old(tree).lemma_in_arena(i);
            }
            links::lemma_linked_attach(old(tree).nodes@, tree.nodes@, None, t, z, key);
            shape_facts::lemma_inserted(t, z, key);
            tree.lemma_view_is(t.inserted(z, key));
        }
        z
    }

    /// Looks `value` up from the root: left where it is smaller than a node's
    /// key, right where it is larger, until a node holds it.
    #[verifier::loop_isolation(false)]
    pub fn tree_search(tree: &BstTree, value: &i32) -> (found: Option<BstNodeLink>)
        requires
            tree.wf(),
        ensures
            found == tree@.find(*value),
            found is Some <==> tree@.has_key(*value),
            found matches Some(i) ==> tree@.has(i) && i < tree.nodes@.len()
                && tree.nodes@[i as int].key == Some(*value),
    {
        proof {
            tree.lemma_view();
            shape_facts::lemma_find(tree@, *value);
            if tree@.find(*value) is Some {
                links::lemma_linked_node(tree.nodes@, None, tree@, tree@.find(*value)->0);
            }
        }
        let mut cur = tree.root;
        let ghost mut sub = tree@;
        let ghost mut above: Option<usize> = None;
        while cur.is_some()
            invariant
                cur == sub.root_id(),
                linked(tree.nodes@, above, sub),
                sub.find(*value) == tree@.find(*value),
            decreases sub,
        {
            let i = cur.unwrap();
            let node = tree.nodes[i];
            match node.key {
                Some(key) => {
                    if key == *value {
                        return Some(i);
                    }
                    proof {
                        above = Some(i);
                    }
                    if *value < key {
                        cur = node.left;
                        proof {
                            sub = sub.left();
                        }
                    } else {
                        cur = node.right;
                        proof {
                            sub = sub.right();
                        }
                    }
                },
                None => {
                    return None;
                },
            }
        }
        None
    }

    /// The first node in order below `node`: goes left from `node` as long as
    /// there is a left child.
    #[verifier::loop_isolation(false)]
    pub fn minimum(tree: &BstTree, node: &BstNodeLink) -> (first: BstNodeLink)
        requires
            tree.wf(),
            tree@.has(*node),
        ensures
            first == tree@.subtree(*node).first().0,
            tree@.subtree(*node).has(first),
            tree@.has(first),
            tree.nodes@[first as int].left is None,
    {
        proof {
            tree.lemma_view();
            links::lemma_linked_node(tree.nodes@, None, tree@, *node);
            shape_facts::lemma_subtree_node(tree@, *node);
            shape_facts::lemma_subtree_sound(tree@, *node);
            shape_facts::lemma_first(tree@.subtree(*node));
            shape_facts::lemma_subtree_within(tree@, *node, tree@.subtree(*node).first().0);
            links::lemma_linked_node(tree.nodes@, None, tree@, tree@.subtree(*node).first().0);
        }
        let mut cur = *node;
        let ghost mut sub = tree@.subtree(*node);
        let ghost mut above = tree.nodes@[*node as int].parent;
        loop
            invariant
                sub is Node,
                sub->id == cur,
                linked(tree.nodes@, above, sub),
                sub.first() == tree@.subtree(*node).first(),
            decreases sub,
        {
            match tree.nodes[cur].left {
                Some(below) => {
                    proof {
                        above = Some(cur);
                        sub = sub.left();
                    }
                    cur = below;
                },
                None => {
                    return cur;
                },
            }
        }
    }

    /// The last node in order below `node`: goes right from `node` as long as
    /// there is a right child.
    #[verifier::loop_isolation(false)]
    pub fn maximum(tree: &BstTree, node: &BstNodeLink) -> (last: BstNodeLink)
        requires
            tree.wf(),
            tree@.has(*node),
        ensures
            last == tree@.subtree(*node).last().0,
            tree@.subtree(*node).has(last),
            tree@.has(last),
            tree.nodes@[last as int].right is None,
    {
        proof {
            tree.lemma_view();
            links::lemma_linked_node(tree.nodes@, None, tree@, *node);
            shape_facts::lemma_subtree_node(tree@, *node);
            shape_facts::lemma_subtree_sound(tree@, *node);
            shape_facts::lemma_last(tree@.subtree(*node));
            shape_facts::lemma_subtree_within(tree@, *node, tree@.subtree(*node).last().0);
            links::lemma_linked_node(tree.nodes@, None, tree@, tree@.subtree(*node).last().0);
        }
        let mut cur = *node;
        let ghost mut sub = tree@.subtree(*node);
        let ghost mut above = tree.nodes@[*node as int].parent;
        loop
            invariant
                sub is Node,
                sub->id == cur,
                linked(tree.nodes@, above, sub),
                sub.last() == tree@.subtree(*node).last(),
            decreases sub,
        {
            match tree.nodes[cur].right {
                Some(below) => {
                    proof {
                        above = Some(cur);
                        sub = sub.right();
                    }
                    cur = below;
                },
                None => {
                    return cur;
                },
            }
        }
    }

    /// The root of the tree that `node` is in: follows the parent links up from
    /// `node` until a node has none.
    pub fn get_root(tree: &BstTree, node: &BstNodeLink) -> (root: BstNodeLink)
        requires
            tree.wf(),
            tree@.has(*node),
        ensures
            tree.root == Some(root),
    {
        let mut cur = *node;
        loop
            invariant
                tree.wf(),
                tree@.has(cur),
            decreases tree@.depth(cur),
        {
            proof {
                tree.lemma_view();
                links::lemma_linked_node(tree.nodes@, None, tree@, cur);
                if tree@.root_id() != Some(cur) {
                    shape_facts::lemma_parent(tree@, cur, None);
                }
            }
            match BstNode::upgrade_weak_to_strong(tree.nodes[cur].parent) {
                Some(up) => {
                    cur = up;
                },
                None => {
                    return cur;
                },
            }
        }
    }

    /// Whether two links name the same node. Nodes are told apart by where they
    /// are, never by their keys: two nodes may hold the same key.
    fn is_node_match(anode: &BstNodeLink, bnode: &BstNodeLink) -> (same: bool)
        ensures
            same == (*anode == *bnode),
    {
        *anode == *bnode
    }

    /// The node that follows `x_node` in order, or `None` if `x_node` is the
    /// last. With a right child, that is the first node below the right child.
    /// Without one, it is the nearest node above that has `x_node` in its left
    /// subtree, found by climbing until the climb comes up from a left child.
    pub fn tree_successor(tree: &BstTree, x_node: &BstNodeLink) -> (next: Option<BstNodeLink>)
        requires
            tree.wf(),
            tree@.has(*x_node),
        ensures
            next == tree@.after(*x_node),
            next matches Some(n) ==> tree@.has(n),
    {
        let x = *x_node;
        proof {
            tree.lemma_view();
            shape_facts::lemma_position(tree@, x);
            if tree@.position(x) + 1 < tree@.size() {
                shape_facts::lemma_entry(tree@, tree@.position(x) + 1);
            }
            links::lemma_linked_node(tree.nodes@, None, tree@, x);
            shape_facts::lemma_subtree_node(tree@, x);
        }
        if let Some(right_node) = tree.nodes[x].right {
            proof {
                shape_facts::lemma_right_child(tree@, x, None);
                shape_facts::lemma_next_position(tree@, x);
            }
            let first = BstNode::minimum(tree, &right_node);
            proof {
                shape_facts::lemma_position(tree@, first);
                shape_facts::lemma_position(tree@, x);
            }
            Some(first)
        } else {
            let mut cur = x;
            let mut anc = BstNode::upgrade_weak_to_strong(tree.nodes[cur].parent);
            while anc.is_some()
                invariant
                    x == *x_node,
                    tree.wf(),
                    tree@.has(cur),
                    tree@.has(x),
                    cur < tree.nodes@.len(),
                    anc == tree.nodes@[cur as int].parent,
                    tree@.position(x) == tree@.position(cur) + tree@.subtree(cur).right().size(),
                ensures
                    anc is None,
                    tree@.has(cur),
                    tree@.position(x) == tree@.position(cur) + tree@.subtree(cur).right().size(),
                decreases tree@.depth(cur),
            {
                let up = anc.unwrap();
                proof {
                    tree.lemma_view();
                    links::lemma_linked_node(tree.nodes@, None, tree@, cur);
                    shape_facts::lemma_parent(tree@, cur, None);
                    links::lemma_linked_node(tree.nodes@, None, tree@, up);
                    shape_facts::lemma_child_position(tree@, up);
                    shape_facts::lemma_position(tree@, up);
                    shape_facts::lemma_position(tree@, x);
                    shape_facts::lemma_subtree_node(tree@, cur);
                }
                let is_left_child = match tree.nodes[up].left {
                    Some(left_child) => BstNode::is_node_match(&left_child, &cur),
                    None => false,
                };
                if is_left_child {
                    return Some(up);
                }
                cur = up;
                anc = BstNode::upgrade_weak_to_strong(tree.nodes[cur].parent);
            }
            proof {
                tree.lemma_view();
                links::lemma_linked_node(tree.nodes@, None, tree@, cur);
                if tree@.root_id() != Some(cur) {
                    shape_facts::lemma_parent(tree@, cur, None);
                }
                shape_facts::lemma_subtree_node(tree@, cur);
            }
            None
        }
    }

    /// Hangs a new node that holds `value` below the node `current_node_link`
    /// as its left child, in place of what that link named before. The tree
    /// stays well formed where an insertion of `value` would have ended at
    /// this place; the result is then the tree with the new node inserted.
    pub fn add_left_child(tree: &mut BstTree, current_node_link: &BstNodeLink, value: i32)
        requires
            *current_node_link < old(tree).nodes@.len(),
        ensures
            final(tree).root == old(tree).root,
            final(tree).nodes@ == old(tree).nodes@.push(
                BstNode { key: Some(value), parent: Some(*current_node_link), left: None, right: None },
            ).update(
                *current_node_link as int,
                BstNode {
                    left: Some(old(tree).nodes@.len() as usize),
                    ..old(tree).nodes@[*current_node_link as int]
                },
            ),
            old(tree).wf() && old(tree)@.descend(value, None) == Some(*current_node_link) && value
                < old(tree)@.key_of(*current_node_link) ==> final(tree).wf() && final(tree)@ == old(
                tree,
            )@.inserted(old(tree).nodes@.len() as usize, value),
    {
        let new_node = BstNode::new_with_parent(tree, current_node_link, value);
        tree.nodes[*current_node_link].left = Some(new_node);
        proof {
            let t = old(tree)@;
            if old(tree).wf() && t.descend(value, None) == Some(*current_node_link) && value
                < t.key_of(*current_node_link) {
                old(tree).lemma_view();
                assert forall|i: usize| #[trigger] t.has(i) implies i < old(tree).nodes@.len() by {
                    old(tree).lemma_in_arena(i);
                }
                links::lemma_linked_attach(old(tree).nodes@, tree.nodes@, None, t, new_node, value);
                shape_facts::lemma_inserted(t, new_node, value);
                tree.lemma_view_is(t.inserted(new_node, value));
            }
        }
    }

    /// Hangs a new node that holds `value` below the node `current_node_link`
    /// as its right child, in place of what that link named before. The tree
    /// stays well formed where an insertion of `value` would have ended at
    /// this place; the result is then the tree with the new node inserted.
    pub fn add_right_child(tree: &mut BstTree, current_node_link: &BstNodeLink, value: i32)
        requires
            *current_node_link < old(tree).nodes@.len(),
        ensures
            final(tree).root == old(tree).root,
            final(tree).nodes@ == old(tree).nodes@.push(
                BstNode { key: Some(value), parent: Some(*current_node_link), left: None, right: None },
            ).update(
                *current_node_link as int,
                BstNode {
                    right: Some(old(tree).nodes@.len() as usize),
                    ..old(tree).nodes@[*current_node_link as int]
                },
            ),
            old(tree).wf() && old(tree)@.descend(value, None) == Some(*current_node_link) && value
                >= old(tree)@.key_of(*current_node_link) ==> final(tree).wf() && final(tree)@
                == old(tree)@.inserted(old(tree).nodes@.len() as usize, value),
    {
        let new_node = BstNode::new_with_parent(tree, current_node_link, value);
        tree.nodes[*current_node_link].right = Some(new_node);
        proof {
            let t = old(tree)@;
            if old(tree).wf() && t.descend(value, None) == Some(*current_node_link) && value
                >= t.key_of(*current_node_link) {
                old(tree).lemma_view();
                assert forall|i: usize| #[trigger] t.has(i) implies i < old(tree).nodes@.len() by {
                    old(tree).lemma_in_arena(i);
                }
                links::lemma_linked_attach(old(tree).nodes@, tree.nodes@, None, t, new_node, value);
                shape_facts::lemma_inserted(t, new_node, value);
                tree.lemma_view_is(t.inserted(new_node, value));
            }
        }
    }

    /// Lets the node `v` take the place of the node `u`: what named `u` from
    /// above, the parent's left or right link or the root link, now names `v`,
    /// and `v`, if there is one, names the parent of `u` as its own. Which of
    /// the parent's links named `u` is decided by where the links point, not by
    /// keys. The links that `u` holds and the child links of `v` are left alone.
    fn transplant(tree: &mut BstTree, u: &BstNodeLink, v: Option<BstNodeLink>)
        requires
            *u < old(tree).nodes@.len(),
            old(tree).nodes@[*u as int].parent matches Some(p) ==> p < old(tree).nodes@.len(),
            v matches Some(c) ==> c < old(tree).nodes@.len(),
        ensures
            final(tree).nodes@ == transplanted(old(tree).nodes@, *u, v),
            final(tree).root == if old(tree).nodes@[*u as int].parent is None {
                v
            } else {
                old(tree).root
            },
    {
        let u_parent = tree.nodes[*u].parent;
        match u_parent {
            None => {
                tree.root = v;
            },
            Some(parent) => {
                let is_left = match tree.nodes[parent].left {
                    Some(left) => BstNode::is_node_match(&left, u),
                    None => false,
                };
                if is_left {
                    tree.nodes[parent].left = v;
                } else {
                    tree.nodes[parent].right = v;
                }
            },
        }
        match v {
            Some(v_node) => {
                tree.nodes[v_node].parent = u_parent;
            },
            None => {},
        }
    }

    /// Takes the node `z` out of the tree. A node without a left child gives
    /// its place to its right child, one without a right child to its left
    /// child. A node with both gives its place to the first node of its right
    /// subtree, which first lets go of its own place there. Every other node
    /// stays in the tree, in the same order.
    pub fn tree_delete(tree: &mut BstTree, z: &BstNodeLink) -> (done: bool)
        requires
            old(tree).wf(),
            old(tree)@.has(*z),
        ensures
            done,
            final(tree).wf(),
            final(tree)@ == old(tree)@.removed(*z),
            final(tree)@.entries() == old(tree)@.entries().remove(old(tree)@.position(*z)),
            !final(tree)@.has(*z),
            final(tree).nodes@.len() == old(tree).nodes@.len(),
            forall|i: usize|
                i < final(tree).nodes@.len() && !(#[trigger] final(tree)@.has(i))
                    ==> final(tree).nodes@[i as int] == old(tree).nodes@[i as int],
    {
        let ghost t = tree@;
        let ghost before = tree.nodes@;
        let ghost sub = t.subtree(*z);
        proof {
            tree.lemma_view();
            links::lemma_linked_node(before, None, t, *z);
            shape_facts::lemma_subtree_node(t, *z);
            shape_facts::lemma_subtree_sound(t, *z);
            shape_facts::lemma_subtree_members(t, *z);
            shape_facts::lemma_removed(t, *z);
            if t.root_id() != Some(*z) {
                shape_facts::lemma_parent(t, *z, None);
                links::lemma_linked_node(before, None, t, before[*z as int].parent->0);
            }
            assert(linked(before, Some(*z), sub.left()));
            assert(linked(before, Some(*z), sub.right()));
        }
        let z_left = tree.nodes[*z].left;
        let z_right = tree.nodes[*z].right;
        if z_left.is_none() {
            proof {
                links::lemma_transplant_child(before, None, t, *z, sub.right());
            }
            BstNode::transplant(tree, z, z_right);
        } else if z_right.is_none() {
            proof {
                links::lemma_transplant_child(before, None, t, *z, sub.left());
            }
            BstNode::transplant(tree, z, z_left);
        } else {
            let left = z_left.unwrap();
            let right = z_right.unwrap();
            let ghost rest = sub.right();
            proof {
                shape_facts::lemma_right_child(t, *z, None);
                shape_facts::lemma_first(rest);
                shape_facts::lemma_without_first(rest);
                assert(rest.distinct());
                assert(!rest.has(*z));
            }
            let y = BstNode::minimum(tree, &right);
            proof {
                assert(sub.has(y));
                links::lemma_linked_node(before, Some(*z), rest, y);
                links::lemma_linked_node(before, None, t, y);
                if rest.root_id() != Some(y) {
                    shape_facts::lemma_parent(rest, y, Some(*z));
                    links::lemma_linked_node(before, Some(*z), rest, before[y as int].parent->0);
                }
            }
            let is_right_child = match tree.nodes[y].parent {
                Some(y_parent) => BstNode::is_node_match(&y_parent, z),
                None => false,
            };
            if !is_right_child {
                let y_right = tree.nodes[y].right;
                proof {
                    assert(linked(before, Some(y), rest.subtree(y).right()));
                    links::lemma_transplant_child(before, Some(*z), rest, y, rest.subtree(y).right());
                }
                BstNode::transplant(tree, &y, y_right);
                let ghost lifted = tree.nodes@;
                tree.nodes[y].right = z_right;
                tree.nodes[right].parent = Some(y);
                proof {
                    let pruned = rest.without_first();
                    assert forall|i: usize| #[trigger] pruned.has(i) implies i < tree.nodes@.len()
                        && tree.nodes@[i as int] == (if pruned.root_id() == Some(i) {
                        BstNode { parent: Some(y), ..lifted[i as int] }
                    } else {
                        lifted[i as int]
                    }) by {
                        assert(rest.has(i) && i != y);
                        links::lemma_linked_node(before, Some(*z), rest, i);
                    }
                    links::lemma_linked_reparent(lifted, tree.nodes@, Some(*z), pruned, Some(y));
                    assert forall|i: usize| i < before.len() && !rest.has(i) implies tree.nodes@[i as int]
                        == before[i as int] by {
                        assert(lifted[i as int] == before[i as int]);
                    }
                }
            }
            let ghost mid = tree.nodes@;
            proof {
                assert forall|i: usize| i < before.len() && !rest.has(i) implies mid[i as int]
                    == before[i as int] by {}
                assert forall|i: usize| #[trigger] t.has(i) && !rest.has(i) implies mid[i as int]
                    == before[i as int] by {
                    links::lemma_linked_node(before, None, t, i);
                }
                assert forall|i: usize| i < before.len() && !t.has(i) implies #[trigger] mid[i as int]
                    == before[i as int] by {
                    if rest.has(i) {
                        assert(sub.has(i));
                    }
                }
                links::lemma_transplant_first(before, mid, None, t, *z);
            }
            BstNode::transplant(tree, z, Some(y));
            tree.nodes[y].left = z_left;
            tree.nodes[left].parent = Some(y);
        }
        proof {
            tree.lemma_view_is(t.removed(*z));
        }
        true
    }
}

} // verus!
