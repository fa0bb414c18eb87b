use crate::common::{lemma_two_pow_increases, lemma_two_pow_positive, two_pow, NodeRef, Symbol};
use crate::shape::Tree;
use vstd::prelude::*;

verus! {

/// The internal slots `k` steps below `r`, from left to right.
pub open spec fn level<T: Symbol>(tree: Tree<T>, r: NodeRef<T>, k: nat) -> Seq<T>
    decreases k,
{
    match r {
        NodeRef::Leaf(_) => Seq::empty(),
        NodeRef::Internal(v) => if k == 0 {
            seq![v]
        } else if 0 <= v.index() < tree.nodes.len() {
            level(tree, tree.at(v).left, (k - 1) as nat) + level(tree, tree.at(v).right, (k - 1) as nat)
        } else {
            Seq::empty()
        },
    }
}

/// The internal slots one step below the slots of `slots`, in their order.
pub open spec fn expand<T: Symbol>(tree: Tree<T>, slots: Seq<T>) -> Seq<T>
    decreases slots.len(),
{
    if slots.len() == 0 {
        Seq::empty()
    } else {
        expand(tree, slots.drop_last()) + level(tree, NodeRef::Internal(slots.last()), 1)
    }
}

pub proof fn lemma_expand_concat<T: Symbol>(tree: Tree<T>, a: Seq<T>, b: Seq<T>)
    ensures
        expand(tree, a + b) == expand(tree, a) + expand(tree, b),
    decreases b.len(),
{
    if b.len() == 0 {
        assert(a + b =~= a);
        assert(expand(tree, a) + expand(tree, b) =~= expand(tree, a));
    } else {
        assert((a + b).drop_last() =~= a + b.drop_last());
        assert((a + b).last() == b.last());
        lemma_expand_concat(tree, a, b.drop_last());
        let ch = level(tree, NodeRef::Internal(b.last()), 1);
        assert((expand(tree, a) + expand(tree, b.drop_last())) + ch =~= expand(tree, a) + (expand(
            tree,
            b.drop_last(),
        ) + ch));
    }
}

/// One step below the slots `k` steps below `r` are the slots `k + 1` steps below `r`.
pub proof fn lemma_expand_level<T: Symbol>(tree: Tree<T>, r: NodeRef<T>, k: nat)
    ensures
        expand(tree, level(tree, r, k)) == level(tree, r, k + 1),
    decreases k,
{
    match r {
        NodeRef::Leaf(_) => {},
        NodeRef::Internal(v) => {
            if k == 0 {
                let one = seq![v];
                assert(one.drop_last() =~= Seq::<T>::empty());
                assert(one.last() == v);
                assert(expand(tree, one.drop_last()) =~= Seq::<T>::empty());
                assert(expand(tree, one) =~= level(tree, r, 1));
            } else if 0 <= v.index() < tree.nodes.len() {
                let l = tree.at(v).left;
                let rt = tree.at(v).right;
                lemma_expand_level(tree, l, (k - 1) as nat);
                lemma_expand_level(tree, rt, (k - 1) as nat);
                lemma_expand_concat(tree, level(tree, l, (k - 1) as nat), level(tree, rt, (k - 1) as nat));
            } else {
            }
        },
    }
}

/// The slots below a subtree that covers an interval are slots of the table, within the
/// interval.
pub proof fn lemma_level_in_span<T: Symbol>(tree: Tree<T>, r: NodeRef<T>, lo: int, hi: int, k: nat)
    requires
        tree.covers(r, lo, hi),
    ensures
        forall|j: int|
            0 <= j < level(tree, r, k).len() ==> lo <= (#[trigger] level(tree, r, k)[j]).index() < hi
                && level(tree, r, k)[j].index() < tree.nodes.len(),
    decreases k,
{
    let here = level(tree, r, k);
    match r {
        NodeRef::Leaf(_) => {
            assert(here.len() == 0);
        },
        NodeRef::Internal(v) => {
            if k > 0 {
                let l = level(tree, tree.at(v).left, (k - 1) as nat);
                let rt = level(tree, tree.at(v).right, (k - 1) as nat);
                lemma_level_in_span(tree, tree.at(v).left, lo, v.index(), (k - 1) as nat);
                lemma_level_in_span(tree, tree.at(v).right, v.index() + 1, hi, (k - 1) as nat);
                assert(here == l + rt);
                assert forall|j: int| 0 <= j < here.len() implies lo <= (#[trigger] here[j]).index() < hi
                    && here[j].index() < tree.nodes.len() by {
                    if j < l.len() {
                        assert(here[j] == l[j]);
                    } else {
                        assert(here[j] == rt[j - l.len()]);
                    }
                }
            } else {
                assert(here == seq![v]);
                assert forall|j: int| 0 <= j < here.len() implies lo <= (#[trigger] here[j]).index() < hi
                    && here[j].index() < tree.nodes.len() by {
                    assert(here[j] == v);
                }
            }
        },
    }
}

/// A subtree with more than two to the power `k` leaves has an internal slot `k` steps below
/// its root.
pub proof fn lemma_level_nonempty<T: Symbol>(tree: Tree<T>, r: NodeRef<T>, lo: int, hi: int, k: nat)
    requires
        tree.covers(r, lo, hi),
        hi - lo + 1 > two_pow(k),
    ensures
        level(tree, r, k).len() > 0,
    decreases k,
{
    lemma_two_pow_positive(k);
    match r {
        NodeRef::Leaf(_) => {},
        NodeRef::Internal(v) => {
            if k > 0 {
                let i = v.index();
                if i - lo + 1 > two_pow((k - 1) as nat) {
                    lemma_level_nonempty(tree, tree.at(v).left, lo, i, (k - 1) as nat);
                } else {
                    lemma_level_nonempty(tree, tree.at(v).right, i + 1, hi, (k - 1) as nat);
                }
            }
        },
    }
}

/// A consistent tree has an internal slot at every depth below the symbols' width.
pub proof fn lemma_deep_slot_exists<T: Symbol>(tree: Tree<T>, k: nat)
    requires
        tree.consistent(),
        k < T::bits(),
    ensures
        level(tree, NodeRef::Internal(tree.root), k).len() > 0,
{
    T::lemma_alphabet_size();
    lemma_two_pow_increases(k, T::bits());
    lemma_level_nonempty(tree, NodeRef::Internal(tree.root), 0, T::top(), k);
}

} // verus!
