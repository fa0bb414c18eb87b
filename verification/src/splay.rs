use crate::common::{Direction, Node, NodeRef, Symbol};
use crate::levels::{
    expand, lemma_deep_slot_exists, lemma_expand_level, lemma_level_in_span, level,
};
use crate::shape::{
    lemma_lift, lemma_path_end_distinct, lemma_path_prefix, lemma_path_spans, lemma_rewired,
    lemma_splay_pair, lift, link_ok, path_ok, relink, rewired, splay, Step, Tree,
};
use crate::uniform::{
    is_uniform, lemma_uniform_consistent, lemma_uniform_unique, uniform_nodes, uniform_tree,
};
use vstd::prelude::*;

verus! {

/// A table of internal nodes with a root: the storage of an alphabet tree over `T`.
pub trait NodeArena<T: Symbol>: Sized {
    /// What the arena holds.
    spec fn model(&self) -> Tree<T>;

    fn node(&self, internal_id: T) -> (r: &Node<T>)
        requires
            self.model().sized(),
            internal_id.index() < T::top(),
        ensures
            *r == self.model().at(internal_id),
    ;

    fn node_mut(&mut self, internal_id: T) -> (r: &mut Node<T>)
        requires
            old(self).model().sized(),
            internal_id.index() < T::top(),
        ensures
            *r == old(self).model().at(internal_id),
            final(self).model() == (Tree {
                nodes: old(self).model().nodes.update(internal_id.index(), *final(r)),
                root: old(self).model().root,
            }),
    ;

    fn root_idx(&self) -> (r: NodeRef<T>)
        requires
            self.model().root.index() != T::top(),
        ensures
            r == NodeRef::Internal(self.model().root),
    ;

    fn root_idx_mut(&mut self) -> (r: &mut T)
        ensures
            *r == old(self).model().root,
            final(self).model() == old(self).model().set_root(*final(r)),
    ;

    fn ref_internal(&self, internal_id: T) -> (r: NodeRef<T>)
        requires
            internal_id.index() != T::top(),
        ensures
            r == NodeRef::Internal(internal_id),
    ;

    /// Whether every symbol hangs under the root as exactly one leaf, in order.
    fn is_consistent(&self) -> (r: bool)
        requires
            self.model().sized(),
        ensures
            r == self.model().consistent(),
    ;

    /// The symbol after `v`.
    fn incr(&self, v: T) -> (r: T)
        requires
            v.index() < T::top(),
        ensures
            r.index() == v.index() + 1,
    ;

    /// Whether the slot `root_index` is the root of a subtree whose leaves are the symbols of
    /// `cover_min ..= cover_max_incl`, in order.
    fn is_subtree_consistent(&self, root_index: T, cover_min: T, cover_max_incl: T) -> (r: bool)
        requires
            self.model().sized(),
        ensures
            r == self.model().covers(
                NodeRef::Internal(root_index),
                cover_min.index(),
                cover_max_incl.index(),
            ),
    ;

    /// Whether the subtree under `root` has as its leaves the symbols of
    /// `cover_min ..= cover_max_incl`, in order.
    fn is_arm_consistent(&self, root: &NodeRef<T>, cover_min: T, cover_max_incl: T) -> (r: bool)
        requires
            self.model().sized(),
        ensures
            r == self.model().covers(*root, cover_min.index(), cover_max_incl.index()),
    ;
}

/// Walks the subtree under `root` and holds each slot against the interval that it must
/// split, each leaf against the symbol that it must be.
fn check_covers<T: Symbol>(nodes: &Vec<Node<T>>, Ghost(top): Ghost<T>, root: &NodeRef<T>, cover_min: T, cover_max_incl: T) -> (r: bool)
    requires
        nodes@.len() == T::top(),
    ensures
        r == (Tree { nodes: nodes@, root: top }).covers(
            *root,
            cover_min.index(),
            cover_max_incl.index(),
        ),
    decreases cover_max_incl.index() - cover_min.index(),
{
    proof {
        cover_min.lemma_index_bounds();
        cover_max_incl.lemma_index_bounds();
    }
    match root {
        NodeRef::Internal(root_index) => {
            let index_consistent = !cover_min.exceeds(*root_index) && cover_max_incl.exceeds(
                *root_index,
            );
            if !index_consistent {
                return false;
            }
            let i: usize = root_index.as_index();
            let node = &nodes[i];
            let left_consistent = check_covers(nodes, Ghost(top), &node.left, cover_min, *root_index);
            let right_consistent = check_covers(
                nodes,
                Ghost(top),
                &node.right,
                T::from_index(i + 1),
                cover_max_incl,
            );
            left_consistent && right_consistent
        },
        NodeRef::Leaf(leaf_index) => cover_min.as_index() == leaf_index.as_index()
            && leaf_index.as_index() == cover_max_incl.as_index(),
    }
}

/// The alphabet tree over bytes: 255 internal nodes.
#[derive(Debug)]
pub struct Arena8 {
    internal_nodes: Vec<Node<u8>>,
    root: u8,
}

impl Arena8 {
    /// The balanced tree of depth 8.
    pub fn new_uniform() -> (r: Self)
        ensures
            r.model() == uniform_tree::<u8>(),
            is_uniform(r.model()),
            r.model().consistent(),
    {
        let nodes = uniform_nodes::<u8>();
        let r = Self { internal_nodes: nodes, root: u8::MAX / 2 };
        proof {
            lemma_uniform_consistent(r.model());
            lemma_uniform_unique(r.model());
        }
        r
    }

    /// A cursor on the root of the tree.
    pub fn splayable_mut(&mut self) -> (r: Splayable<'_, u8, Self>)
        requires
            old(self).model().consistent(),
        ensures
            r.wf(),
            r.tree() == old(self).model(),
            r.path() == Seq::<Step<u8>>::empty(),
            r.current() == NodeRef::Internal(old(self).model().root),
            *final(self) == *final(r.arena),
    {
        Splayable::new(self)
    }
}

impl NodeArena<u8> for Arena8 {
    closed spec fn model(&self) -> Tree<u8> {
        Tree { nodes: self.internal_nodes@, root: self.root }
    }

    fn node(&self, internal_id: u8) -> (r: &Node<u8>) {
        &self.internal_nodes[internal_id as usize]
    }

    fn node_mut(&mut self, internal_id: u8) -> (r: &mut Node<u8>) {
        &mut self.internal_nodes[internal_id as usize]
    }

    fn root_idx(&self) -> (r: NodeRef<u8>) {
        NodeRef::new_internal(self.root, u8::MAX)
    }

    fn root_idx_mut(&mut self) -> (r: &mut u8) {
        &mut self.root
    }

    fn ref_internal(&self, internal_id: u8) -> (r: NodeRef<u8>) {
        NodeRef::new_internal(internal_id, u8::MAX)
    }

    fn incr(&self, v: u8) -> (r: u8) {
        v + 1
    }

    fn is_consistent(&self) -> (r: bool) {
        self.is_subtree_consistent(self.root, 0, u8::MAX)
    }

    fn is_subtree_consistent(&self, root_index: u8, cover_min: u8, cover_max_incl: u8) -> (r: bool) {
        check_covers(
            &self.internal_nodes,
            Ghost(self.root),
            &NodeRef::Internal(root_index),
            cover_min,
            cover_max_incl,
        )
    }

    fn is_arm_consistent(&self, root: &NodeRef<u8>, cover_min: u8, cover_max_incl: u8) -> (r: bool) {
        check_covers(&self.internal_nodes, Ghost(self.root), root, cover_min, cover_max_incl)
    }
}

/// The alphabet tree over 16-bit words: 65535 internal nodes.
#[derive(Debug)]
pub struct Arena16 {
    internal_nodes: Vec<Node<u16>>,
    root: u16,
}

impl Arena16 {
    /// The balanced tree of depth 16.
    pub fn new_uniform() -> (r: Self)
        ensures
            r.model() == uniform_tree::<u16>(),
            is_uniform(r.model()),
            r.model().consistent(),
    {
        let nodes = uniform_nodes::<u16>();
        let r = Self { internal_nodes: nodes, root: u16::MAX / 2 };
        proof {
            lemma_uniform_consistent(r.model());
            lemma_uniform_unique(r.model());
        }
        r
    }

    /// A cursor on the root of the tree.
    pub fn splayable_mut(&mut self) -> (r: Splayable<'_, u16, Self>)
        requires
            old(self).model().consistent(),
        ensures
            r.wf(),
            r.tree() == old(self).model(),
            r.path() == Seq::<Step<u16>>::empty(),
            r.current() == NodeRef::Internal(old(self).model().root),
            *final(self) == *final(r.arena),
    {
        Splayable::new(self)
    }
}

impl NodeArena<u16> for Arena16 {
    closed spec fn model(&self) -> Tree<u16> {
        Tree { nodes: self.internal_nodes@, root: self.root }
    }

    fn node(&self, internal_id: u16) -> (r: &Node<u16>) {
        &self.internal_nodes[internal_id as usize]
    }

    fn node_mut(&mut self, internal_id: u16) -> (r: &mut Node<u16>) {
        &mut self.internal_nodes[internal_id as usize]
    }

    fn root_idx(&self) -> (r: NodeRef<u16>) {
        NodeRef::new_internal(self.root, u16::MAX)
    }

    fn root_idx_mut(&mut self) -> (r: &mut u16) {
        &mut self.root
    }

    fn ref_internal(&self, internal_id: u16) -> (r: NodeRef<u16>) {
        NodeRef::new_internal(internal_id, u16::MAX)
    }

    fn incr(&self, v: u16) -> (r: u16) {
        v + 1
    }

    fn is_consistent(&self) -> (r: bool) {
        self.is_subtree_consistent(self.root, 0, u16::MAX)
    }

    fn is_subtree_consistent(&self, root_index: u16, cover_min: u16, cover_max_incl: u16) -> (r: bool) {
        check_covers(
            &self.internal_nodes,
            Ghost(self.root),
            &NodeRef::Internal(root_index),
            cover_min,
            cover_max_incl,
        )
    }

    fn is_arm_consistent(&self, root: &NodeRef<u16>, cover_min: u16, cover_max_incl: u16) -> (r: bool) {
        check_covers(&self.internal_nodes, Ghost(self.root), root, cover_min, cover_max_incl)
    }
}

/// A cursor into an arena: the node it stands on, and the descent from the root that led
/// there.
pub struct Splayable<'a, T: Symbol, A: NodeArena<T>> {
    pub arena: &'a mut A,
    pub node: NodeRef<T>,
    pub internal_parents: Vec<(T, Direction)>,
}

impl<'a, T: Symbol, A: NodeArena<T>> Splayable<'a, T, A> {
    /// The tree that the cursor walks.
    pub open spec fn tree(&self) -> Tree<T> {
        self.arena.model()
    }

    /// The steps from the root to the node that the cursor stands on.
    pub open spec fn path(&self) -> Seq<Step<T>> {
        self.internal_parents@
    }

    /// The node that the cursor stands on.
    pub open spec fn current(&self) -> NodeRef<T> {
        self.node
    }

    /// The tree is consistent, and the steps are a descent in it from the root to the
    /// current node.
    pub open spec fn wf(&self) -> bool {
        &&& self.tree().consistent()
        &&& path_ok(self.tree(), self.path(), self.current())
    }

    /// A cursor on the root of `arena`.
    pub fn new(arena: &'a mut A) -> (r: Self)
        requires
            old(arena).model().consistent(),
        ensures
            r.wf(),
            r.tree() == old(arena).model(),
            r.path() == Seq::<Step<T>>::empty(),
            r.current() == NodeRef::Internal(old(arena).model().root),
            *final(arena) == *final(r.arena),
    {
        let node = arena.root_idx();
        Self { arena, node, internal_parents: Vec::with_capacity(32) }
    }

    pub fn current_value(&self) -> (r: T)
        ensures
            r.index() == self.current().value(),
            self.current() == NodeRef::Internal(r) || self.current() == NodeRef::Leaf(r),
    {
        match self.node {
            NodeRef::Internal(v) => v,
            NodeRef::Leaf(v) => v,
        }
    }

    pub fn is_root(&self) -> (r: bool)
        ensures
            r == (self.path().len() == 0),
    {
        self.internal_parents.len() == 0
    }

    pub fn is_leaf(&self) -> (r: bool)
        ensures
            r == (self.current() is Leaf),
    {
        match self.node {
            NodeRef::Leaf(_) => true,
            NodeRef::Internal(_) => false,
        }
    }

    /// One step down, to the child on the side `dir`.
    pub fn go(&mut self, dir: Direction)
        requires
            old(self).wf(),
            old(self).current() is Internal,
        ensures
            final(self).wf(),
            final(self).tree() == old(self).tree(),
            final(self).path() == old(self).path().push((old(self).current()->Internal_0, dir)),
            final(self).current() == old(self).tree().at(old(self).current()->Internal_0).child(dir),
            *final(final(self).arena) == *final(old(self).arena),
    {
        let node_id = match self.node {
            NodeRef::Internal(v) => v,
            NodeRef::Leaf(v) => v,
        };
        proof {
            lemma_path_spans(self.tree(), self.path(), self.current(), self.path().len() as int);
        }
        self.internal_parents.push((node_id, dir));
        let node = self.arena.node(node_id);
        self.node = node.arm(dir);
        proof {
            let old_path = old(self).path();
            let new_path = self.path();
            let t = self.tree();
            assert forall|k: int| 0 <= k < new_path.len() implies #[trigger] link_ok(t, new_path, self.current(), k) by {
                if k < old_path.len() {
                    assert(link_ok(t, old_path, old(self).current(), k));
                    assert(new_path[k] == old_path[k]);
                }
            }
        }
    }

    /// Ends the descent to a leaf: the cursor steps back to the leaf's parent, and the parent
    /// is splayed to the root.
    pub fn splay_parent_of_leaf(&mut self)
        requires
            old(self).wf(),
            old(self).current() is Leaf,
        ensures
            final(self).wf(),
            final(self).path().len() == 0,
            final(self).current() == NodeRef::Internal(old(self).path().last().0),
            final(self).tree() == splay(
                old(self).tree(),
                old(self).path().drop_last(),
                old(self).path().last().0,
            ),
            *final(final(self).arena) == *final(old(self).arena),
    {
        proof {
            // a leaf is not the root, so there is a step to take back
            assert(old(self).path().len() > 0);
            assert(link_ok(self.tree(), self.path(), self.current(), self.path().len() - 1));
        }
        let (parent_id, _) = self.internal_parents.pop().unwrap();
        self.node = self.arena.ref_internal(parent_id);
        proof {
            lemma_path_prefix(
                old(self).tree(),
                old(self).path(),
                old(self).current(),
                old(self).path().len() - 1,
            );
            assert(self.path() =~= old(self).path().take(old(self).path().len() - 1));
        }
        self.splay_internal();
    }

    /// Splays the internal node that the cursor stands on to the root: double rotations along
    /// the descent, from its end upwards, and a single rotation at the root where one step
    /// is left.
    pub fn splay_internal(&mut self)
        requires
            old(self).wf(),
            old(self).current() is Internal,
        ensures
            final(self).wf(),
            final(self).path().len() == 0,
            final(self).current() == old(self).current(),
            final(self).tree() == splay(
                old(self).tree(),
                old(self).path(),
                old(self).current()->Internal_0,
            ),
            *final(final(self).arena) == *final(old(self).arena),
    {
        let node_id = match self.node {
            NodeRef::Internal(v) => v,
            NodeRef::Leaf(v) => v,
        };
        while self.internal_parents.len() >= 2
            invariant
                self.wf(),
                self.node == NodeRef::Internal(node_id),
                self.node == old(self).node,
                splay(self.tree(), self.path(), node_id) == splay(
                    old(self).tree(),
                    old(self).path(),
                    node_id,
                ),
                *final(self.arena) == *final(old(self).arena),
            decreases self.internal_parents.len(),
        {
            let ghost before = self.tree();
            let ghost path = self.path();
            proof {
                lemma_path_end_distinct(before, path, node_id);
                lemma_rewired(before, path, node_id);
                lemma_splay_pair(before, path, node_id);
            }
            let (parent_id, parent_dir) = self.internal_parents.pop().unwrap();
            let (grandparent_id, grandparent_dir) = self.internal_parents.pop().unwrap();
            proof {
                assert(self.path() =~= path.take(path.len() - 2));
            }
            // What held the grandparent holds the node from now on.
            let above: usize = self.internal_parents.len();
            if above > 0 {
                let (ggp_id, ggp_dir) = self.internal_parents[above - 1];
                *self.arena.node_mut(ggp_id).arm_mut(ggp_dir) = self.node;
            } else {
                *self.arena.root_idx_mut() = node_id;
            }
            assert(self.tree() == relink(before, path.take(path.len() - 2), node_id));
            if grandparent_dir == parent_dir {
                let subtree_b = self.arena.node(parent_id).arm(parent_dir.opposite());
                let subtree_c = self.arena.node(node_id).arm(parent_dir.opposite());
                let to_grandparent = self.arena.ref_internal(grandparent_id);
                *self.arena.node_mut(parent_id).arm_mut(parent_dir.opposite()) = to_grandparent;
                *self.arena.node_mut(grandparent_id).arm_mut(grandparent_dir) = subtree_b;
                let to_parent = self.arena.ref_internal(parent_id);
                *self.arena.node_mut(node_id).arm_mut(parent_dir.opposite()) = to_parent;
                *self.arena.node_mut(parent_id).arm_mut(parent_dir) = subtree_c;
            } else {
                let subtree_b = self.arena.node(node_id).arm(parent_dir);
                let subtree_c = self.arena.node(node_id).arm(grandparent_dir);
                let to_grandparent = self.arena.ref_internal(grandparent_id);
                *self.arena.node_mut(node_id).arm_mut(parent_dir) = to_grandparent;
                *self.arena.node_mut(grandparent_id).arm_mut(grandparent_dir) = subtree_b;
                let to_parent = self.arena.ref_internal(parent_id);
                *self.arena.node_mut(node_id).arm_mut(grandparent_dir) = to_parent;
                *self.arena.node_mut(parent_id).arm_mut(parent_dir) = subtree_c;
            }
            assert(self.tree() == rewired(before, path, node_id));
        }
        if self.internal_parents.len() > 0 {
            let ghost before = self.tree();
            let ghost path = self.path();
            proof {
                lemma_path_end_distinct(before, path, node_id);
                lemma_lift(before, path, node_id);
            }
            let (parent_id, parent_dir) = self.internal_parents.pop().unwrap();
            proof {
                assert(self.path() =~= path.drop_last());
            }
            *self.arena.root_idx_mut() = node_id;
            let subtree_b = self.arena.node(node_id).arm(parent_dir.opposite());
            let to_parent = self.arena.ref_internal(parent_id);
            *self.arena.node_mut(node_id).arm_mut(parent_dir.opposite()) = to_parent;
            *self.arena.node_mut(parent_id).arm_mut(parent_dir) = subtree_b;
            assert(self.tree() == lift(before, path, node_id));
        }
    }

    /// The leftmost internal node `min_length` steps below the root: a descent towards it
    /// meets no leaf on its first `min_length` steps.
    pub fn find_deep_internal(&self, min_length: usize) -> (r: T)
        requires
            self.wf(),
            self.path().len() == 0,
            self.current() is Internal,
            min_length < T::bits(),
        ensures
            level(self.tree(), self.current(), min_length as nat).len() > 0,
            r == level(self.tree(), self.current(), min_length as nat)[0],
    {
        let ghost tree = self.tree();
        let ghost top = self.current();
        let root_id = match self.node {
            NodeRef::Internal(v) => v,
            NodeRef::Leaf(v) => v,
        };
        let mut depth: usize = 0;
        let mut candidates: Vec<T> = Vec::new();
        candidates.push(root_id);
        assert(candidates@ =~= level(tree, top, 0));
        while depth < min_length
            invariant
                depth <= min_length < T::bits(),
                self.wf(),
                tree == self.tree(),
                top == NodeRef::Internal(tree.root),
                candidates@ == level(tree, top, depth as nat),
            decreases min_length - depth,
        {
            proof {
                lemma_level_in_span(tree, top, 0, T::top(), depth as nat);
                lemma_expand_level(tree, top, depth as nat);
            }
            let mut next_candidates: Vec<T> = Vec::new();
            let mut j: usize = 0;
            while j < candidates.len()
                invariant
                    j <= candidates.len(),
                    tree == self.tree(),
                    tree.sized(),
                    forall|x: int|
                        0 <= x < candidates@.len() ==> (#[trigger] candidates@[x]).index() < T::top(),
                    next_candidates@ == expand(tree, candidates@.take(j as int)),
                decreases candidates.len() - j,
            {
                let candidate_id = candidates[j];
                let node = self.arena.node(candidate_id);
                let ghost so_far = next_candidates@;
                if let Some(child_id) = node.arm(Direction::Left).as_internal() {
                    next_candidates.push(child_id);
                }
                if let Some(child_id) = node.arm(Direction::Right).as_internal() {
                    next_candidates.push(child_id);
                }
                proof {
                    let done = candidates@.take(j + 1);
                    assert(done.drop_last() =~= candidates@.take(j as int));
                    assert(done.last() == candidate_id);
                    let below = level(tree, NodeRef::Internal(candidate_id), 1);
                    assert(candidate_id == candidates@[j as int]);
                    candidate_id.lemma_index_bounds();
                    assert(0 <= candidate_id.index() < tree.nodes.len());
                    assert(*node == tree.at(candidate_id));
                    assert(below == level(tree, node.left, 0) + level(tree, node.right, 0));
                    assert(level(tree, node.left, 0) =~= match node.left {
                        NodeRef::Internal(v) => seq![v],
                        NodeRef::Leaf(_) => Seq::empty(),
                    });
                    assert(level(tree, node.right, 0) =~= match node.right {
                        NodeRef::Internal(v) => seq![v],
                        NodeRef::Leaf(_) => Seq::empty(),
                    });
                    assert(next_candidates@ =~= so_far + below);
                }
                j = j + 1;
            }
            assert(candidates@.take(candidates@.len() as int) =~= candidates@);
            candidates = next_candidates;
            depth = depth + 1;
        }
        proof {
            lemma_deep_slot_exists(tree, min_length as nat);
        }
        candidates[0]
    }

    /// Whether the tree is consistent. It is, wherever the cursor is well-formed.
    pub fn is_consistent(&self) -> (r: bool)
        requires
            self.tree().sized(),
        ensures
            r == self.tree().consistent(),
    {
        self.arena.is_consistent()
    }
}

} // verus!
