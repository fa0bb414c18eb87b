use crate::common::{
    lemma_two_pow_divides, lemma_two_pow_increases, lemma_two_pow_positive, two_pow, Node, NodeRef,
    Symbol,
};
use crate::shape::Tree;
use vstd::prelude::*;

verus! {

/// The number of 1-bits at the low end of `i`.
pub open spec fn trailing_ones(i: int) -> nat
    decreases i,
{
    if i <= 0 || i % 2 == 0 {
        0
    } else {
        1 + trailing_ones(i / 2)
    }
}

/// `node` is what the balanced tree holds in slot `i`. A slot with no trailing 1-bit holds
/// the leaves `i` and `i + 1`. A slot with `l` of them holds the slots `i` with bit `l - 1`
/// cleared, on the left, and that with bit `l` set, on the right: `i` less and `i` plus
/// two to the power `l - 1`.
pub open spec fn is_uniform_node<T: Symbol>(node: Node<T>, i: int) -> bool {
    let l = trailing_ones(i);
    if l == 0 {
        &&& node.left is Leaf
        &&& node.left.value() == i
        &&& node.right is Leaf
        &&& node.right.value() == i + 1
    } else {
        &&& node.left is Internal
        &&& node.left.value() == i - two_pow((l - 1) as nat)
        &&& node.right is Internal
        &&& node.right.value() == i + two_pow((l - 1) as nat)
    }
}

/// `tree` is the balanced tree of depth `bits()`, in which a symbol's bits, from the highest
/// down, are the sides of the descent to its leaf.
pub open spec fn is_uniform<T: Symbol>(tree: Tree<T>) -> bool {
    &&& tree.sized()
    &&& tree.root.index() == T::top() / 2
    &&& forall|i: int| 0 <= i < T::top() ==> is_uniform_node(#[trigger] tree.nodes[i], i)
}

/// What the balanced tree holds in slot `i`.
pub open spec fn uniform_node<T: Symbol>(i: int) -> Node<T> {
    let l = trailing_ones(i);
    if l == 0 {
        Node { left: NodeRef::Leaf(T::of_index(i)), right: NodeRef::Leaf(T::of_index(i + 1)) }
    } else {
        Node {
            left: NodeRef::Internal(T::of_index(i - two_pow((l - 1) as nat))),
            right: NodeRef::Internal(T::of_index(i + two_pow((l - 1) as nat))),
        }
    }
}

/// The balanced tree over `T`: the tree that both sides start from.
pub open spec fn uniform_tree<T: Symbol>() -> Tree<T> {
    Tree { nodes: Seq::new(T::top() as nat, |i: int| uniform_node::<T>(i)), root: T::of_index(T::top() / 2) }
}

/// There is one balanced tree.
pub proof fn lemma_uniform_unique<T: Symbol>(tree: Tree<T>)
    requires
        is_uniform(tree),
    ensures
        tree == uniform_tree::<T>(),
{
    let u = uniform_tree::<T>();
    T::lemma_alphabet_size();
    T::lemma_of_index(T::top() / 2);
    tree.root.lemma_index_injective(u.root);
    assert forall|i: int| 0 <= i < T::top() implies tree.nodes[i] == u.nodes[i] by {
        let a = tree.nodes[i];
        let b = u.nodes[i];
        assert(is_uniform_node(a, i));
        let l = trailing_ones(i);
        lemma_ref_by_value(a.left, b.left);
        lemma_ref_by_value(a.right, b.right);
        if l == 0 {
            T::lemma_of_index(i);
            T::lemma_of_index(i + 1);
        } else {
            lemma_trailing_ones_children(i, l);
            lemma_child_in_alphabet::<T>(i, l);
            lemma_two_pow_positive((l - 1) as nat);
            T::lemma_of_index(i - two_pow((l - 1) as nat));
            T::lemma_of_index(i + two_pow((l - 1) as nat));
        }
    }
    assert(tree.nodes =~= u.nodes);
}

/// The balanced tree is balanced.
pub proof fn lemma_uniform_is_uniform<T: Symbol>()
    ensures
        is_uniform(uniform_tree::<T>()),
{
    let u = uniform_tree::<T>();
    T::lemma_alphabet_size();
    lemma_two_pow_positive(T::bits());
    T::lemma_of_index(T::top() / 2);
    assert forall|i: int| 0 <= i < T::top() implies is_uniform_node(#[trigger] u.nodes[i], i) by {
        assert(u.nodes[i] == uniform_node::<T>(i));
        let l = trailing_ones(i);
        if l == 0 {
            T::lemma_of_index(i);
            T::lemma_of_index(i + 1);
        } else {
            lemma_trailing_ones_children(i, l);
            lemma_child_in_alphabet::<T>(i, l);
            lemma_two_pow_positive((l - 1) as nat);
            T::lemma_of_index(i - two_pow((l - 1) as nat));
            T::lemma_of_index(i + two_pow((l - 1) as nat));
        }
    }
}

/// Two references of the same kind to the same integer are the same reference.
pub proof fn lemma_ref_by_value<T: Symbol>(a: NodeRef<T>, b: NodeRef<T>)
    ensures
        (a is Leaf) == (b is Leaf) && a.value() == b.value() ==> a == b,
{
    match (a, b) {
        (NodeRef::Leaf(x), NodeRef::Leaf(y)) => x.lemma_index_injective(y),
        (NodeRef::Internal(x), NodeRef::Internal(y)) => x.lemma_index_injective(y),
        _ => {},
    }
}

/// The right child of a slot of the table is within the alphabet.
pub proof fn lemma_child_in_alphabet<T: Symbol>(i: int, l: nat)
    requires
        0 <= i < T::top(),
        trailing_ones(i) == l,
        l >= 1,
    ensures
        i + two_pow((l - 1) as nat) < T::top(),
{
    T::lemma_alphabet_size();
    let x = lemma_slot_shape(i, l);
    lemma_two_pow_positive(l);
    let p = two_pow(l);
    assert(two_pow(l + 1) == 2 * p);
    // the slot and its children lie in one block of the size 2 * p, and the alphabet is made of
    // whole blocks
    if l + 1 <= T::bits() {
        let q = lemma_two_pow_divides(l + 1, T::bits());
        assert(q * two_pow(l + 1) == q * (2 * p));
        assert(x < q) by (nonlinear_arith)
            requires
                i == x * (2 * p) + p - 1,
                i < q * (2 * p) - 1,
                p >= 1,
                x >= 0,
        ;
        assert((x + 1) * (2 * p) <= q * (2 * p)) by (nonlinear_arith)
            requires
                x < q,
                p >= 1,
        ;
        assert((x + 1) * (2 * p) == x * (2 * p) + 2 * p) by (nonlinear_arith);
        assert(q * two_pow(l + 1) == q * (2 * p));
    } else {
        if l > T::bits() {
            lemma_two_pow_increases(T::bits(), l);
        }
        assert(x * (2 * p) >= 0) by (nonlinear_arith)
            requires
                x >= 0,
                p >= 1,
        ;
    }
}

/// A slot with `l` trailing 1-bits is a multiple of two to the power `l + 1`, and two to the
/// power `l`, less one.
pub proof fn lemma_slot_shape(i: int, l: nat) -> (x: int)
    requires
        i >= 0,
        trailing_ones(i) == l,
    ensures
        x >= 0,
        i == x * two_pow(l + 1) + two_pow(l) - 1,
    decreases l,
{
    if l == 0 {
        assert(two_pow(1) == 2 * two_pow(0));
        assert(two_pow(0) == 1);
        let x = i / 2;
        assert(i == x * 2 + 1 - 1);
        x
    } else {
        let x = lemma_slot_shape(i / 2, (l - 1) as nat);
        let p = two_pow((l - 1) as nat);
        assert(two_pow(l) == 2 * p);
        assert(two_pow(l + 1) == 2 * two_pow(l));
        assert(i == 2 * (i / 2) + 1);
        assert(i == x * (2 * (2 * p)) + 2 * p - 1) by (nonlinear_arith)
            requires
                i == 2 * (i / 2) + 1,
                i / 2 == x * (2 * p) + p - 1,
        ;
        x
    }
}

/// The children of a slot with `l >= 1` trailing 1-bits have `l - 1` of them.
pub proof fn lemma_trailing_ones_children(i: int, l: nat)
    requires
        i >= 0,
        trailing_ones(i) == l,
        l >= 1,
    ensures
        i - two_pow((l - 1) as nat) >= 0,
        trailing_ones(i - two_pow((l - 1) as nat)) == l - 1,
        trailing_ones(i + two_pow((l - 1) as nat)) == l - 1,
    decreases l,
{
    lemma_two_pow_positive((l - 1) as nat);
    if l == 1 {
        assert(two_pow(0) == 1);
        assert(i % 2 == 1);
    } else {
        let j = i / 2;
        let h = two_pow((l - 2) as nat);
        lemma_trailing_ones_children(j, (l - 1) as nat);
        assert(two_pow((l - 1) as nat) == 2 * h);
        assert(i == 2 * j + 1);
        assert((i - 2 * h) / 2 == j - h);
        assert((i + 2 * h) / 2 == j + h);
        assert((i - 2 * h) % 2 == 1);
        assert((i + 2 * h) % 2 == 1);
        lemma_two_pow_positive((l - 2) as nat);
    }
}

/// In the balanced tree, the slot `i` with `l` trailing 1-bits covers the two to the power
/// `l + 1` symbols around it.
pub proof fn lemma_uniform_covers<T: Symbol>(tree: Tree<T>, r: NodeRef<T>, l: nat)
    requires
        is_uniform(tree),
        r is Internal,
        trailing_ones(r.value()) == l,
        0 <= r.value() - (two_pow(l) - 1),
        r.value() + two_pow(l) <= T::top(),
    ensures
        tree.covers(r, r.value() - (two_pow(l) - 1), r.value() + two_pow(l)),
    decreases l,
{
    let i = r.value();
    lemma_two_pow_positive(l);
    let node = tree.nodes[i];
    assert(is_uniform_node(node, i));
    let lo = i - (two_pow(l) - 1);
    let hi = i + two_pow(l);
    assert(0 <= i < tree.nodes.len());
    if l == 0 {
        assert(two_pow(0) == 1);
        assert(tree.covers(node.left, lo, i));
        assert(tree.covers(node.right, i + 1, hi));
    } else {
        lemma_trailing_ones_children(i, l);
        let h = two_pow((l - 1) as nat);
        assert(two_pow(l) == 2 * h);
        lemma_uniform_covers(tree, node.left, (l - 1) as nat);
        lemma_uniform_covers(tree, node.right, (l - 1) as nat);
        assert(tree.covers(node.left, lo, i));
        assert(tree.covers(node.right, i + 1, hi));
    }
    assert(tree.nodes[i].left == node.left);
}

/// The slot two to the power `n`, less one, has `n` trailing 1-bits.
pub proof fn lemma_trailing_ones_of_mask(n: nat)
    ensures
        trailing_ones(two_pow(n) - 1) == n,
    decreases n,
{
    lemma_two_pow_positive(n);
    if n > 0 {
        lemma_trailing_ones_of_mask((n - 1) as nat);
        let h = two_pow((n - 1) as nat);
        assert(two_pow(n) - 1 == 2 * (h - 1) + 1);
        assert((two_pow(n) - 1) / 2 == h - 1);
        lemma_two_pow_positive((n - 1) as nat);
    }
}

/// The balanced tree is consistent.
pub proof fn lemma_uniform_consistent<T: Symbol>(tree: Tree<T>)
    requires
        is_uniform(tree),
    ensures
        tree.consistent(),
{
    T::lemma_alphabet_size();
    let b = T::bits();
    lemma_two_pow_positive(b);
    lemma_two_pow_positive((b - 1) as nat);
    lemma_trailing_ones_of_mask((b - 1) as nat);
    let h = two_pow((b - 1) as nat);
    assert(T::top() == 2 * h - 1);
    assert(T::top() / 2 == h - 1);
    lemma_uniform_covers(tree, NodeRef::Internal(tree.root), (b - 1) as nat);
}

/// The table of the balanced tree.
pub fn uniform_nodes<T: Symbol>() -> (nodes: Vec<Node<T>>)
    ensures
        nodes@.len() == T::top(),
        forall|i: int| 0 <= i < T::top() ==> is_uniform_node(#[trigger] nodes@[i], i),
{
    let n: usize = T::limit();
    let mut nodes: Vec<Node<T>> = Vec::with_capacity(n);
    let mut i: usize = 0;
    proof {
        T::lemma_alphabet_size();
    }
    while i < n
        invariant
            n == T::top(),
            i <= n,
            n < usize::MAX,
            nodes@.len() == i,
            forall|j: int| 0 <= j < i ==> is_uniform_node(#[trigger] nodes@[j], j),
        decreases n - i,
    {
        // Count the trailing 1-bits of `i`, and keep two to their number.
        let mut rest: usize = i;
        let mut pow: usize = 1;
        let ghost mut l: nat = 0;
        while rest % 2 == 1
            invariant
                i < n < usize::MAX,
                pow == two_pow(l),
                pow >= 1,
                i == rest * pow + pow - 1,
                trailing_ones(i as int) == trailing_ones(rest as int) + l,
            decreases rest,
        {
            proof {
                assert((rest / 2) * (2 * pow) + 2 * pow - 1 == rest * pow + pow - 1)
                    by (nonlinear_arith)
                    requires
                        rest % 2 == 1,
                        rest >= 0,
                ;
                assert(2 * pow <= i + 1) by (nonlinear_arith)
                    requires
                        i == rest * pow + pow - 1,
                        rest >= 1,
                        pow >= 1,
                ;
                l = l + 1;
            }
            rest = rest / 2;
            pow = pow * 2;
        }
        proof {
            assert(trailing_ones(i as int) == l);
            if l == 0 {
                assert(two_pow(0) == 1);
            } else {
                lemma_two_pow_positive(l);
                lemma_trailing_ones_children(i as int, l);
                lemma_child_in_alphabet::<T>(i as int, l);
            }
        }
        let node = if pow == 1 {
            Node { left: NodeRef::new_leaf(T::from_index(i)), right: NodeRef::new_leaf(T::from_index(i + 1)) }
        } else {
            let half: usize = pow / 2;
            Node {
                left: NodeRef::Internal(T::from_index(i - half)),
                right: NodeRef::Internal(T::from_index(i + half)),
            }
        };
        assert(is_uniform_node(node, i as int));
        nodes.push(node);
        i = i + 1;
    }
    nodes
}

} // verus!
