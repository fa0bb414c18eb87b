use crate::common::{Direction, NodeRef, Symbol};
use crate::levels::{lemma_deep_slot_exists, lemma_level_in_span, level};
use crate::shape::{lemma_path_spans, lemma_splay, link_ok, path_ok, span, splay, Step, Tree};
use vstd::prelude::*;

verus! {

/// The side of the slot `v` on which the integer `target` is found.
pub open spec fn toward<T: Symbol>(v: T, target: int) -> Direction {
    Direction::of_bit(target > v.index())
}

/// The half of the interval `lo ..= hi` on the side `d` of the slot `v`.
pub open spec fn half<T: Symbol>(v: T, d: Direction, lo: int, hi: int) -> (int, int) {
    match d {
        Direction::Left => (lo, v.index()),
        Direction::Right => (v.index() + 1, hi),
    }
}

/// The descent from `r`, which covers `lo ..= hi`, towards the integer `target`, down to a
/// leaf: at each slot to the right where `target` is greater than the slot, else to the left.
pub open spec fn route<T: Symbol>(tree: Tree<T>, r: NodeRef<T>, lo: int, hi: int, target: int) -> Seq<Step<T>>
    decreases hi - lo,
{
    match r {
        NodeRef::Leaf(_) => Seq::empty(),
        NodeRef::Internal(v) => if lo <= v.index() < hi && v.index() < tree.nodes.len() {
            let d = toward(v, target);
            let (lo2, hi2) = half(v, d, lo, hi);
            seq![(v, d)] + route(tree, tree.at(v).child(d), lo2, hi2, target)
        } else {
            Seq::empty()
        },
    }
}

/// The sides taken along a descent, as bits: left is 0, right is 1.
pub open spec fn steps_bits<T: Symbol>(path: Seq<Step<T>>) -> Seq<bool> {
    Seq::new(path.len(), |i: int| path[i].1.bit())
}

/// The descent from the root to the leaf of `s`.
pub open spec fn leaf_path<T: Symbol>(tree: Tree<T>, s: T) -> Seq<Step<T>> {
    route(tree, NodeRef::Internal(tree.root), 0, T::top(), s.index())
}

/// The code of `s` in `tree`: the sides of the descent to its leaf.
pub open spec fn code_of<T: Symbol>(tree: Tree<T>, s: T) -> Seq<bool> {
    steps_bits(leaf_path(tree, s))
}

/// The tree after `s` has been coded: the parent of its leaf is splayed to the root.
pub open spec fn after<T: Symbol>(tree: Tree<T>, s: T) -> Tree<T> {
    let path = leaf_path(tree, s);
    splay(tree, path.drop_last(), path.last().0)
}

/// The codes of `syms`, each in the tree that the symbols before it have left.
pub open spec fn encode<T: Symbol>(tree: Tree<T>, syms: Seq<T>) -> Seq<bool>
    decreases syms.len(),
{
    if syms.len() == 0 {
        Seq::empty()
    } else {
        code_of(tree, syms[0]) + encode(after(tree, syms[0]), syms.skip(1))
    }
}

/// The tree after all of `syms` have been coded.
pub open spec fn final_tree<T: Symbol>(tree: Tree<T>, syms: Seq<T>) -> Tree<T>
    decreases syms.len(),
{
    if syms.len() == 0 {
        tree
    } else {
        final_tree(after(tree, syms[0]), syms.skip(1))
    }
}

/// How many bits fill up `n` bits to whole bytes.
pub open spec fn pad_len(n: int) -> int {
    (8 - n % 8) % 8
}

/// The leftmost internal slot `k` steps below the root.
pub open spec fn deep_slot<T: Symbol>(tree: Tree<T>, k: nat) -> T {
    level(tree, NodeRef::Internal(tree.root), k)[0]
}

/// The `k` bits that end a stream: the first `k` sides of the descent towards the leftmost
/// internal slot `k` steps below the root.
pub open spec fn padding<T: Symbol>(tree: Tree<T>, k: nat) -> Seq<bool> {
    steps_bits(
        route(tree, NodeRef::Internal(tree.root), 0, T::top(), deep_slot(tree, k).index()).take(
            k as int,
        ),
    )
}

/// The whole stream for `syms`: their codes, and the padding that fills the last byte.
pub open spec fn padded<T: Symbol>(tree: Tree<T>, syms: Seq<T>) -> Seq<bool> {
    let bits = encode(tree, syms);
    if pad_len(bits.len() as int) == 0 {
        bits
    } else {
        bits + padding(final_tree(tree, syms), pad_len(bits.len() as int) as nat)
    }
}

/// The symbols that `bits` stand for, read by a cursor that stands on `node` after the
/// descent `path`: each bit is one step down, a leaf gives its symbol and has its parent
/// splayed to the root, where the next descent starts. Bits that end short of a leaf give
/// nothing.
pub open spec fn decode<T: Symbol>(tree: Tree<T>, path: Seq<Step<T>>, node: NodeRef<T>, bits: Seq<bool>) -> Seq<T>
    decreases bits.len(),
{
    if bits.len() == 0 {
        Seq::empty()
    } else {
        match node {
            NodeRef::Leaf(_) => Seq::empty(),
            NodeRef::Internal(v) => {
                let d = Direction::of_bit(bits[0]);
                match tree.at(v).child(d) {
                    NodeRef::Leaf(s) => seq![s] + decode(
                        splay(tree, path, v),
                        Seq::empty(),
                        NodeRef::Internal(v),
                        bits.skip(1),
                    ),
                    NodeRef::Internal(c) => decode(
                        tree,
                        path.push((v, d)),
                        NodeRef::Internal(c),
                        bits.skip(1),
                    ),
                }
            },
        }
    }
}

/// The tree that the reading of `bits` leaves.
pub open spec fn decode_tree<T: Symbol>(tree: Tree<T>, path: Seq<Step<T>>, node: NodeRef<T>, bits: Seq<bool>) -> Tree<T>
    decreases bits.len(),
{
    if bits.len() == 0 {
        tree
    } else {
        match node {
            NodeRef::Leaf(_) => tree,
            NodeRef::Internal(v) => {
                let d = Direction::of_bit(bits[0]);
                match tree.at(v).child(d) {
                    NodeRef::Leaf(s) => decode_tree(
                        splay(tree, path, v),
                        Seq::empty(),
                        NodeRef::Internal(v),
                        bits.skip(1),
                    ),
                    NodeRef::Internal(c) => decode_tree(
                        tree,
                        path.push((v, d)),
                        NodeRef::Internal(c),
                        bits.skip(1),
                    ),
                }
            },
        }
    }
}

/// The symbols that a stream of bits stands for, read from the root of `tree`.
pub open spec fn decoded<T: Symbol>(tree: Tree<T>, bits: Seq<bool>) -> Seq<T> {
    decode(tree, Seq::empty(), NodeRef::Internal(tree.root), bits)
}

/// `bits`, walked down from `node`, meet no leaf.
pub open spec fn stays_internal<T: Symbol>(tree: Tree<T>, node: NodeRef<T>, bits: Seq<bool>) -> bool
    decreases bits.len(),
{
    if bits.len() == 0 {
        true
    } else {
        match node {
            NodeRef::Leaf(_) => false,
            NodeRef::Internal(v) => {
                let next = tree.at(v).child(Direction::of_bit(bits[0]));
                next is Internal && stays_internal(tree, next, bits.skip(1))
            },
        }
    }
}

/// Bits that meet no leaf stand for no symbol.
pub proof fn lemma_decode_stays_internal<T: Symbol>(tree: Tree<T>, path: Seq<Step<T>>, node: NodeRef<T>, bits: Seq<bool>)
    requires
        stays_internal(tree, node, bits),
    ensures
        decode(tree, path, node, bits) == Seq::<T>::empty(),
        decode_tree(tree, path, node, bits) == tree,
    decreases bits.len(),
{
    if bits.len() > 0 {
        match node {
            NodeRef::Leaf(_) => {},
            NodeRef::Internal(v) => {
                let d = Direction::of_bit(bits[0]);
                lemma_decode_stays_internal(tree, path.push((v, d)), tree.at(v).child(d), bits.skip(1));
            },
        }
    }
}

/// The intervals along a descent do not depend on the steps that follow.
pub proof fn lemma_span_push<T: Symbol>(path: Seq<Step<T>>, step: Step<T>, k: int)
    requires
        0 <= k <= path.len(),
    ensures
        span(path.push(step), k) == span(path, k),
    decreases k,
{
    if k > 0 {
        lemma_span_push(path, step, k - 1);
        assert(path.push(step)[k - 1] == path[k - 1]);
    }
}

/// One more step down keeps a descent a descent.
pub proof fn lemma_path_push<T: Symbol>(tree: Tree<T>, path: Seq<Step<T>>, v: T, d: Direction)
    requires
        path_ok(tree, path, NodeRef::Internal(v)),
        0 <= v.index() < tree.nodes.len(),
    ensures
        path_ok(tree, path.push((v, d)), tree.at(v).child(d)),
{
    let node = NodeRef::Internal(v);
    let next = tree.at(v).child(d);
    let longer = path.push((v, d));
    assert forall|k: int| 0 <= k < longer.len() implies #[trigger] link_ok(tree, longer, next, k) by {
        if k < path.len() {
            assert(link_ok(tree, path, node, k));
            assert(longer[k] == path[k]);
            if k + 1 < path.len() {
                assert(longer[k + 1] == path[k + 1]);
            }
        }
    }
    if path.len() > 0 {
        assert(longer[0] == path[0]);
    }
}

/// Reading the code of `x` from where its descent has come to gives `x`, and leaves the
/// tree in which the parent of its leaf is splayed to the root.
pub proof fn lemma_decode_route<T: Symbol>(tree: Tree<T>, path: Seq<Step<T>>, node: NodeRef<T>, x: T, tail: Seq<bool>)
    requires
        tree.consistent(),
        path_ok(tree, path, node),
        node is Internal,
        span(path, path.len() as int).0 <= x.index() <= span(path, path.len() as int).1,
    ensures
        ({
            let (lo, hi) = span(path, path.len() as int);
            let rest = route(tree, node, lo, hi, x.index());
            let full = path + rest;
            let t2 = splay(tree, full.drop_last(), full.last().0);
            &&& t2.consistent()
            &&& decode(tree, path, node, steps_bits(rest) + tail) == seq![x] + decoded(t2, tail)
            &&& decode_tree(tree, path, node, steps_bits(rest) + tail) == decode_tree(
                t2,
                Seq::empty(),
                NodeRef::Internal(t2.root),
                tail,
            )
        }),
    decreases span(path, path.len() as int).1 - span(path, path.len() as int).0,
{
    let (lo, hi) = span(path, path.len() as int);
    let rest = route(tree, node, lo, hi, x.index());
    let full = path + rest;
    let v = node->Internal_0;
    lemma_path_spans(tree, path, node, path.len() as int);
    assert(tree.covers(node, lo, hi));
    let d = toward(v, x.index());
    let child = tree.at(v).child(d);
    let (lo2, hi2) = half(v, d, lo, hi);
    let below = route(tree, child, lo2, hi2, x.index());
    assert(rest == seq![(v, d)] + below);
    let bits = steps_bits(rest) + tail;
    assert(bits[0] == d.bit());
    assert(Direction::of_bit(d.bit()) == d);
    assert(bits.skip(1) =~= steps_bits(below) + tail);
    let longer = path.push((v, d));
    lemma_path_push(tree, path, v, d);
    lemma_span_push(path, (v, d), path.len() as int);
    assert(span(longer, longer.len() as int) == (lo2, hi2));
    assert(tree.covers(child, lo2, hi2));
    assert(lo2 <= x.index() <= hi2);
    match child {
        NodeRef::Leaf(s) => {
            s.lemma_index_injective(x);
            assert(below =~= Seq::<Step<T>>::empty());
            assert(full =~= longer);
            assert(full.drop_last() =~= path);
            lemma_splay(tree, path, v);
        },
        NodeRef::Internal(c) => {
            lemma_decode_route(tree, longer, child, x, tail);
            assert(longer + below =~= full);
        },
    }
}

/// Reading the code of `x`, and what follows it, gives `x`, and what follows read in the
/// tree after `x`.
pub proof fn lemma_decode_code<T: Symbol>(tree: Tree<T>, x: T, tail: Seq<bool>)
    requires
        tree.consistent(),
    ensures
        after(tree, x).consistent(),
        decoded(tree, code_of(tree, x) + tail) == seq![x] + decoded(after(tree, x), tail),
        decode_tree(tree, Seq::empty(), NodeRef::Internal(tree.root), code_of(tree, x) + tail)
            == decode_tree(
            after(tree, x),
            Seq::empty(),
            NodeRef::Internal(after(tree, x).root),
            tail,
        ),
{
    let path = Seq::<Step<T>>::empty();
    x.lemma_index_bounds();
    lemma_decode_route(tree, path, NodeRef::Internal(tree.root), x, tail);
    assert(path + leaf_path(tree, x) =~= leaf_path(tree, x));
}

/// Coding keeps the tree consistent.
pub proof fn lemma_final_tree_consistent<T: Symbol>(tree: Tree<T>, syms: Seq<T>)
    requires
        tree.consistent(),
    ensures
        final_tree(tree, syms).consistent(),
    decreases syms.len(),
{
    if syms.len() > 0 {
        lemma_decode_code(tree, syms[0], Seq::empty());
        lemma_final_tree_consistent(after(tree, syms[0]), syms.skip(1));
    }
}

/// Reading the codes of `syms`, and what follows them, gives `syms`, and what follows read
/// in the tree after them.
pub proof fn lemma_decode_encode<T: Symbol>(tree: Tree<T>, syms: Seq<T>, tail: Seq<bool>)
    requires
        tree.consistent(),
    ensures
        decoded(tree, encode(tree, syms) + tail) == syms + decoded(final_tree(tree, syms), tail),
        decode_tree(tree, Seq::empty(), NodeRef::Internal(tree.root), encode(tree, syms) + tail)
            == decode_tree(
            final_tree(tree, syms),
            Seq::empty(),
            NodeRef::Internal(final_tree(tree, syms).root),
            tail,
        ),
    decreases syms.len(),
{
    if syms.len() == 0 {
        assert(encode(tree, syms) + tail =~= tail);
        assert(syms + decoded(tree, tail) =~= decoded(tree, tail));
    } else {
        let x = syms[0];
        let rest = syms.skip(1);
        let next = after(tree, x);
        let far = encode(next, rest) + tail;
        assert(encode(tree, syms) + tail =~= code_of(tree, x) + far);
        lemma_decode_code(tree, x, far);
        lemma_decode_encode(next, rest, tail);
        assert(seq![x] + (rest + decoded(final_tree(next, rest), tail)) =~= syms + decoded(
            final_tree(tree, syms),
            tail,
        ));
    }
}

/// The ambiguous tail: whatever bits follow the codes of `syms` and meet no leaf on their
/// way down from the root, the stream still stands for `syms`, and for nothing more. And
/// the reader's tree ends as the writer's did: the two sides stay in step.
pub proof fn lemma_ambiguous_tail<T: Symbol>(tree: Tree<T>, syms: Seq<T>, tail: Seq<bool>)
    requires
        tree.consistent(),
        stays_internal(
            final_tree(tree, syms),
            NodeRef::Internal(final_tree(tree, syms).root),
            tail,
        ),
    ensures
        decoded(tree, encode(tree, syms) + tail) == syms,
        decode_tree(tree, Seq::empty(), NodeRef::Internal(tree.root), encode(tree, syms) + tail)
            == final_tree(tree, syms),
{
    let end = final_tree(tree, syms);
    lemma_decode_encode(tree, syms, tail);
    lemma_decode_stays_internal(end, Seq::empty(), NodeRef::Internal(end.root), tail);
    assert(syms + Seq::<T>::empty() =~= syms);
}

/// Where `goal` is an internal slot `j` steps below `node`, the descent towards it takes at
/// least `j` steps, and its first `j` steps meet no leaf.
pub proof fn lemma_route_to_slot<T: Symbol>(tree: Tree<T>, node: NodeRef<T>, lo: int, hi: int, goal: T, j: nat)
    requires
        tree.covers(node, lo, hi),
        level(tree, node, j).contains(goal),
    ensures
        route(tree, node, lo, hi, goal.index()).len() >= j,
        stays_internal(tree, node, steps_bits(route(tree, node, lo, hi, goal.index()).take(j as int))),
        node is Internal,
    decreases j,
{
    let whole = route(tree, node, lo, hi, goal.index());
    if j == 0 {
        assert(steps_bits(whole.take(0)) =~= Seq::<bool>::empty());
    } else {
        let v = node->Internal_0;
        let (child, lo2, hi2) = lemma_step_to_slot(tree, node, lo, hi, goal, j);
        let d = toward(v, goal.index());
        let below = route(tree, child, lo2, hi2, goal.index());
        lemma_route_to_slot(tree, child, lo2, hi2, goal, (j - 1) as nat);
        assert(whole == seq![(v, d)] + below);
        let bits = steps_bits(whole.take(j as int));
        assert(bits[0] == d.bit());
        assert(Direction::of_bit(d.bit()) == d);
        assert(bits.skip(1) =~= steps_bits(below.take(j - 1)));
    }
}

/// Where `goal` is an internal slot `j >= 1` steps below `node`, the child of `node` on the
/// side of `goal` is internal, and `goal` is `j - 1` steps below it.
pub proof fn lemma_step_to_slot<T: Symbol>(tree: Tree<T>, node: NodeRef<T>, lo: int, hi: int, goal: T, j: nat) -> (r: (NodeRef<T>, int, int))
    requires
        tree.covers(node, lo, hi),
        level(tree, node, j).contains(goal),
        j >= 1,
    ensures
        node is Internal,
        lo <= node->Internal_0.index() < hi,
        node->Internal_0.index() < tree.nodes.len(),
        r.0 == tree.at(node->Internal_0).child(toward(node->Internal_0, goal.index())),
        (r.1, r.2) == half(node->Internal_0, toward(node->Internal_0, goal.index()), lo, hi),
        r.0 is Internal,
        tree.covers(r.0, r.1, r.2),
        level(tree, r.0, (j - 1) as nat).contains(goal),
{
    let v = node->Internal_0;
    let l = level(tree, tree.at(v).left, (j - 1) as nat);
    let rt = level(tree, tree.at(v).right, (j - 1) as nat);
    assert(level(tree, node, j) == l + rt);
    lemma_level_in_span(tree, tree.at(v).left, lo, v.index(), (j - 1) as nat);
    lemma_level_in_span(tree, tree.at(v).right, v.index() + 1, hi, (j - 1) as nat);
    let at = choose|at: int| 0 <= at < (l + rt).len() && (l + rt)[at] == goal;
    let d = toward(v, goal.index());
    if at < l.len() {
        assert(l[at] == goal);
        assert(d == Direction::Left);
    } else {
        assert(rt[at - l.len()] == goal);
        assert(d == Direction::Right);
    }
    let child = tree.at(v).child(d);
    let (lo2, hi2) = half(v, d, lo, hi);
    (child, lo2, hi2)
}

/// The padding has the length asked for, and meets no leaf.
pub proof fn lemma_padding<T: Symbol>(tree: Tree<T>, k: nat)
    requires
        tree.consistent(),
        k < T::bits(),
    ensures
        padding(tree, k).len() == k,
        stays_internal(tree, NodeRef::Internal(tree.root), padding(tree, k)),
{
    let top = NodeRef::Internal(tree.root);
    lemma_deep_slot_exists(tree, k);
    let goal = deep_slot(tree, k);
    assert(level(tree, top, k)[0] == goal);
    lemma_route_to_slot(tree, top, 0, T::top(), goal, k);
}

/// The round trip in bits: the whole stream for `syms`, padding and all, stands for `syms`.
pub proof fn lemma_decoded_padded<T: Symbol>(tree: Tree<T>, syms: Seq<T>)
    requires
        tree.consistent(),
    ensures
        decoded(tree, padded(tree, syms)) == syms,
        padded(tree, syms).len() % 8 == 0,
{
    let bits = encode(tree, syms);
    let k = pad_len(bits.len() as int);
    let end = final_tree(tree, syms);
    lemma_final_tree_consistent(tree, syms);
    T::lemma_alphabet_size();
    if k == 0 {
        assert(bits + Seq::<bool>::empty() =~= bits);
        lemma_ambiguous_tail(tree, syms, Seq::empty());
    } else {
        lemma_padding(end, k as nat);
        lemma_ambiguous_tail(tree, syms, padding(end, k as nat));
    }
}

} // verus!
