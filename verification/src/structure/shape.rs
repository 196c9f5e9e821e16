//! The abstract form of a tree: which node stands where, and the key it holds.
//!
//! Everything here is specification. The contracts of the executable tree are
//! written over these functions.

use vstd::prelude::*;

verus! {

/// A binary tree of node handles, each with its key.
pub enum Shape {
    Nil,
    Node { left: Box<Shape>, id: usize, key: i32, right: Box<Shape> },
}

impl Shape {
    /// The tree of a single node.
    pub open spec fn leaf(id: usize, key: i32) -> Shape {
        Shape::Node { left: Box::new(Shape::Nil), id, key, right: Box::new(Shape::Nil) }
    }

    /// What stands to the left of the root.
    pub open spec fn left(self) -> Shape {
        match self {
            Shape::Nil => Shape::Nil,
            Shape::Node { left, .. } => *left,
        }
    }

    /// What stands to the right of the root.
    pub open spec fn right(self) -> Shape {
        match self {
            Shape::Nil => Shape::Nil,
            Shape::Node { right, .. } => *right,
        }
    }

    /// The handle of the topmost node, if there is one.
    pub open spec fn root_id(self) -> Option<usize> {
        match self {
            Shape::Nil => None,
            Shape::Node { id, .. } => Some(id),
        }
    }

    /// The nodes in order: left subtree, node, right subtree.
    pub open spec fn entries(self) -> Seq<(usize, i32)>
        decreases self,
    {
        match self {
            Shape::Nil => Seq::empty(),
            Shape::Node { left, id, key, right } => left.entries().push((id, key))
                + right.entries(),
        }
    }

    /// The handles in order.
    pub open spec fn ids(self) -> Seq<usize> {
        self.entries().map_values(|e: (usize, i32)| e.0)
    }

    /// The keys in order.
    pub open spec fn keys(self) -> Seq<i32> {
        self.entries().map_values(|e: (usize, i32)| e.1)
    }

    /// The number of nodes.
    pub open spec fn size(self) -> nat {
        self.entries().len()
    }

    /// Whether a node with this handle is in the tree.
    pub open spec fn has(self, id: usize) -> bool
        decreases self,
    {
        match self {
            Shape::Nil => false,
            Shape::Node { left, id: here, right, .. } => here == id || left.has(id) || right.has(
                id,
            ),
        }
    }

    /// Whether some node holds this key.
    pub open spec fn has_key(self, key: i32) -> bool
        decreases self,
    {
        match self {
            Shape::Nil => false,
            Shape::Node { left, key: here, right, .. } => here == key || left.has_key(key)
                || right.has_key(key),
        }
    }

    /// No handle occurs twice: every node has one place in the tree.
    pub open spec fn distinct(self) -> bool
        decreases self,
    {
        match self {
            Shape::Nil => true,
            Shape::Node { left, id, right, .. } => {
                &&& left.distinct()
                &&& right.distinct()
                &&& !left.has(id)
                &&& !right.has(id)
                &&& forall|i: usize|
                    #![trigger left.has(i)]
                    #![trigger right.has(i)]
                    left.has(i) ==> !right.has(i)
            },
        }
    }

    /// The search order: at every node the keys to the left are smaller, and
    /// the keys to the right are not smaller.
    pub open spec fn ordered(self) -> bool
        decreases self,
    {
        match self {
            Shape::Nil => true,
            Shape::Node { left, key, right, .. } => {
                &&& left.ordered()
                &&& right.ordered()
                &&& forall|k: i32| #[trigger] left.has_key(k) ==> k < key
                &&& forall|k: i32| #[trigger] right.has_key(k) ==> key <= k
            },
        }
    }

    /// The part of the tree below and including the node `id`; `Nil` if the
    /// node is not in the tree.
    pub open spec fn subtree(self, id: usize) -> Shape
        decreases self,
    {
        match self {
            Shape::Nil => Shape::Nil,
            Shape::Node { left, id: here, right, .. } => if here == id {
                self
            } else if left.has(id) {
                left.subtree(id)
            } else {
                right.subtree(id)
            },
        }
    }

    /// The key that the node `id` holds.
    pub open spec fn key_of(self, id: usize) -> i32
        recommends
            self.has(id),
    {
        self.subtree(id)->key
    }

    /// The node directly above `id`, where `above` is what stands above the
    /// whole tree.
    pub open spec fn parent_of(self, id: usize, above: Option<usize>) -> Option<usize>
        decreases self,
    {
        match self {
            Shape::Nil => None,
            Shape::Node { left, id: here, right, .. } => if here == id {
                above
            } else if left.has(id) {
                left.parent_of(id, Some(here))
            } else {
                right.parent_of(id, Some(here))
            },
        }
    }

    /// How many steps the node `id` is below the root.
    pub open spec fn depth(self, id: usize) -> nat
        decreases self,
    {
        match self {
            Shape::Nil => 0,
            Shape::Node { left, id: here, right, .. } => if here == id {
                0
            } else if left.has(id) {
                1 + left.depth(id)
            } else {
                1 + right.depth(id)
            },
        }
    }

    /// The place of the node `id` in the order of `entries`.
    pub open spec fn position(self, id: usize) -> int
        decreases self,
    {
        match self {
            Shape::Nil => 0,
            Shape::Node { left, id: here, right, .. } => if left.has(id) {
                left.position(id)
            } else if here == id {
                left.size() as int
            } else {
                left.size() + 1 + right.position(id)
            },
        }
    }

    /// The first node in order: the one reached by going left as long as
    /// possible.
    pub open spec fn first(self) -> (usize, i32)
        recommends
            self is Node,
        decreases self,
    {
        match self {
            Shape::Nil => (0, 0),
            Shape::Node { left, id, key, .. } => if *left is Nil {
                (id, key)
            } else {
                left.first()
            },
        }
    }

    /// The last node in order: the one reached by going right as long as
    /// possible.
    pub open spec fn last(self) -> (usize, i32)
        recommends
            self is Node,
        decreases self,
    {
        match self {
            Shape::Nil => (0, 0),
            Shape::Node { id, key, right, .. } => if *right is Nil {
                (id, key)
            } else {
                right.last()
            },
        }
    }

    /// The tree with its first node taken out; what stood to that node's right
    /// moves up into its place.
    pub open spec fn without_first(self) -> Shape
        decreases self,
    {
        match self {
            Shape::Nil => Shape::Nil,
            Shape::Node { left, id, key, right } => if *left is Nil {
                *right
            } else {
                Shape::Node { left: Box::new(left.without_first()), id, key, right }
            },
        }
    }

    /// The node at which a search for `key` stops: the topmost node with that
    /// key on the search path.
    pub open spec fn find(self, key: i32) -> Option<usize>
        decreases self,
    {
        match self {
            Shape::Nil => None,
            Shape::Node { left, id, key: here, right } => if key == here {
                Some(id)
            } else if key < here {
                left.find(key)
            } else {
                right.find(key)
            },
        }
    }

    /// The last node on the way down that an insertion of `key` takes, or
    /// `above` where the tree is empty.
    pub open spec fn descend(self, key: i32, above: Option<usize>) -> Option<usize>
        decreases self,
    {
        match self {
            Shape::Nil => above,
            Shape::Node { left, id, key: here, right } => if key < here {
                left.descend(key, Some(id))
            } else {
                right.descend(key, Some(id))
            },
        }
    }

    /// The place in order that a new node with this key takes: behind every
    /// key that is not larger.
    pub open spec fn slot(self, key: i32) -> int
        decreases self,
    {
        match self {
            Shape::Nil => 0,
            Shape::Node { left, key: here, right, .. } => if key < here {
                left.slot(key)
            } else {
                left.size() + 1 + right.slot(key)
            },
        }
    }

    /// The tree with the node `id` of key `key` added as a new leaf. A key that
    /// is already there goes to the right of its equals.
    pub open spec fn inserted(self, id: usize, key: i32) -> Shape
        decreases self,
    {
        match self {
            Shape::Nil => Shape::leaf(id, key),
            Shape::Node { left, id: here, key: k, right } => if key < k {
                Shape::Node { left: Box::new(left.inserted(id, key)), id: here, key: k, right }
            } else {
                Shape::Node { left, id: here, key: k, right: Box::new(right.inserted(id, key)) }
            },
        }
    }

    /// The tree with `sub` in the place of the subtree of the node `id`.
    pub open spec fn replaced(self, id: usize, sub: Shape) -> Shape
        decreases self,
    {
        match self {
            Shape::Nil => Shape::Nil,
            Shape::Node { left, id: here, key, right } => if here == id {
                sub
            } else if left.has(id) {
                Shape::Node { left: Box::new(left.replaced(id, sub)), id: here, key, right }
            } else if right.has(id) {
                Shape::Node { left, id: here, key, right: Box::new(right.replaced(id, sub)) }
            } else {
                self
            },
        }
    }

    /// The tree with its root taken out. A root with at most one child gives way
    /// to that child; a root with two children gives way to the first node of
    /// its right subtree.
    pub open spec fn spliced(self) -> Shape {
        match self {
            Shape::Nil => Shape::Nil,
            Shape::Node { left, right, .. } => if *left is Nil {
                *right
            } else if *right is Nil {
                *left
            } else {
                Shape::Node {
                    left,
                    id: right.first().0,
                    key: right.first().1,
                    right: Box::new(right.without_first()),
                }
            },
        }
    }

    /// The tree with the node `id` taken out.
    pub open spec fn removed(self, id: usize) -> Shape {
        self.replaced(id, self.subtree(id).spliced())
    }

    /// The node that follows `id` in order, if `id` is not the last.
    pub open spec fn after(self, id: usize) -> Option<usize> {
        let next = self.position(id) + 1;
        if next < self.size() {
            Some(self.ids()[next])
        } else {
            None
        }
    }
}

} // verus!
