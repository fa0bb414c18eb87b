use crate::common::{Direction, Node, NodeRef, Symbol};
use vstd::prelude::*;

verus! {

/// The mathematical content of an arena: the table of internal nodes and the root's slot.
pub struct Tree<T: Symbol> {
    pub nodes: Seq<Node<T>>,
    pub root: T,
}

/// One step of a descent: the internal slot that was left, and the side taken from it.
pub type Step<T> = (T, Direction);

impl<T: Symbol> Tree<T> {
    /// The table has one internal node for each slot of `0 .. top()`.
    pub open spec fn sized(self) -> bool {
        self.nodes.len() == T::top()
    }

    /// The subtree under `r` is a search tree whose leaves are exactly the symbols of
    /// `lo ..= hi`, in order: an internal slot `i` splits its interval into `lo ..= i` on the left
    /// and `i + 1 ..= hi` on the right, and a leaf covers the one symbol it names.
    pub open spec fn covers(self, r: NodeRef<T>, lo: int, hi: int) -> bool
        decreases hi - lo,
    {
        match r {
            NodeRef::Leaf(s) => lo == s.index() && s.index() == hi,
            NodeRef::Internal(v) => {
                let i = v.index();
                &&& lo <= i < hi
                &&& 0 <= i < self.nodes.len()
                &&& self.covers(self.nodes[i].left, lo, i)
                &&& self.covers(self.nodes[i].right, i + 1, hi)
            },
        }
    }

    /// The whole alphabet hangs under the root, every symbol as exactly one leaf.
    pub open spec fn consistent(self) -> bool {
        &&& self.sized()
        &&& self.covers(NodeRef::Internal(self.root), 0, T::top())
    }

    /// The node in slot `v`.
    pub open spec fn at(self, v: T) -> Node<T> {
        self.nodes[v.index()]
    }

    /// The tree with the child on the side `dir` of slot `v` replaced by `r`.
    pub open spec fn set_child(self, v: T, dir: Direction, r: NodeRef<T>) -> Tree<T> {
        Tree { nodes: self.nodes.update(v.index(), self.at(v).with_child(dir, r)), root: self.root }
    }

    /// The tree with another root.
    pub open spec fn set_root(self, v: T) -> Tree<T> {
        Tree { nodes: self.nodes, root: v }
    }
}

/// The interval of symbols under the node that a descent along `path` has reached after `k`
/// steps, in a consistent tree: the whole alphabet at first, and at each step the half on
/// the side taken.
pub open spec fn span<T: Symbol>(path: Seq<Step<T>>, k: int) -> (int, int)
    decreases k,
{
    if k <= 0 {
        (0, T::top())
    } else {
        let (lo, hi) = span(path, k - 1);
        let (p, d) = path[k - 1];
        match d {
            Direction::Left => (lo, p.index()),
            Direction::Right => (p.index() + 1, hi),
        }
    }
}

/// What follows the `k`-th step of `path` on the way to `node`: the next step's slot, or `node`
/// itself after the last step.
pub open spec fn successor<T: Symbol>(path: Seq<Step<T>>, node: NodeRef<T>, k: int) -> NodeRef<T> {
    if k + 1 < path.len() {
        NodeRef::Internal(path[k + 1].0)
    } else {
        node
    }
}

/// The `k`-th step of `path` names a slot of `tree` that holds, on the side taken, what
/// follows the step on the way to `node`.
pub open spec fn link_ok<T: Symbol>(tree: Tree<T>, path: Seq<Step<T>>, node: NodeRef<T>, k: int) -> bool {
    &&& 0 <= path[k].0.index() < tree.nodes.len()
    &&& tree.at(path[k].0).child(path[k].1) == successor(path, node, k)
}

/// `path` is a descent from the root of `tree` that ends at `node`: it starts at the root, and
/// each step's slot holds, on the side taken, what follows it.
pub open spec fn path_ok<T: Symbol>(tree: Tree<T>, path: Seq<Step<T>>, node: NodeRef<T>) -> bool {
    &&& successor(path, node, -1) == NodeRef::Internal(tree.root)
    &&& forall|k: int| 0 <= k < path.len() ==> #[trigger] link_ok(tree, path, node, k)
}

/// A subtree is read only from the slots of its own interval: two tables that agree there
/// agree on whether it covers the interval.
pub proof fn lemma_covers_frame<T: Symbol>(a: Tree<T>, b: Tree<T>, r: NodeRef<T>, lo: int, hi: int)
    requires
        a.covers(r, lo, hi),
        a.nodes.len() == b.nodes.len(),
        forall|i: int| lo <= i < hi && 0 <= i < a.nodes.len() ==> a.nodes[i] == b.nodes[i],
    ensures
        b.covers(r, lo, hi),
    decreases hi - lo,
{
    match r {
        NodeRef::Leaf(s) => {},
        NodeRef::Internal(v) => {
            let i = v.index();
            lemma_covers_frame(a, b, a.nodes[i].left, lo, i);
            lemma_covers_frame(a, b, a.nodes[i].right, i + 1, hi);
        },
    }
}

/// A covered interval is not empty and lies within the alphabet.
pub proof fn lemma_covers_bounds<T: Symbol>(t: Tree<T>, r: NodeRef<T>, lo: int, hi: int)
    requires
        t.covers(r, lo, hi),
        t.sized(),
    ensures
        lo <= hi,
        r is Leaf ==> lo == hi,
        r is Internal ==> lo < hi,
        lo <= r.value() <= hi,
{
}

/// The slot of the `k`-th step lies in the interval that the descent has reached there, and
/// is not its last symbol.
pub open spec fn in_span<T: Symbol>(path: Seq<Step<T>>, k: int) -> bool {
    span(path, k).0 <= path[k].0.index() < span(path, k).1
}

/// The intervals along a path shrink, and no step's slot lies in a later step's interval.
pub proof fn lemma_span_nested<T: Symbol>(path: Seq<Step<T>>, i: int, j: int)
    requires
        0 <= i <= j <= path.len(),
        forall|k: int| 0 <= k < j ==> in_span(path, k),
    ensures
        span(path, i).0 <= span(path, j).0,
        span(path, j).1 <= span(path, i).1,
        i < j ==> !(span(path, j).0 <= path[i].0.index() < span(path, j).1),
    decreases j - i,
{
    if i < j {
        lemma_span_nested(path, i, j - 1);
        assert(in_span(path, j - 1));
        assert(in_span(path, i));
    }
}

/// In a consistent tree, the node reached after `k` steps of a descent covers that step's
/// interval.
pub proof fn lemma_path_spans<T: Symbol>(tree: Tree<T>, path: Seq<Step<T>>, node: NodeRef<T>, k: int)
    requires
        tree.consistent(),
        path_ok(tree, path, node),
        0 <= k <= path.len(),
    ensures
        tree.covers(successor(path, node, k - 1), span(path, k).0, span(path, k).1),
        forall|j: int| 0 <= j < k ==> in_span(path, j),
    decreases k,
{
    if k > 0 {
        lemma_path_spans(tree, path, node, k - 1);
        let (p, d) = path[k - 1];
        let (lo, hi) = span(path, k - 1);
        assert(link_ok(tree, path, node, k - 1));
        assert(successor(path, node, k - 2) == NodeRef::Internal(p));
        assert(tree.covers(NodeRef::Internal(p), lo, hi));
        assert(tree.at(p).child(d) == successor(path, node, k - 1));
        assert(in_span(path, k - 1));
    }
}

/// The slot of the `k`-th step covers, in `a`, the interval reached there.
pub open spec fn spanned<T: Symbol>(a: Tree<T>, path: Seq<Step<T>>, k: int) -> bool {
    a.covers(NodeRef::Internal(path[k].0), span(path, k).0, span(path, k).1)
}

/// The slot of the `k`-th step holds, on the side taken, the slot of the next step.
pub open spec fn step_ok<T: Symbol>(a: Tree<T>, path: Seq<Step<T>>, k: int) -> bool {
    a.at(path[k].0).child(path[k].1) == NodeRef::Internal(path[k + 1].0)
}

/// The first `m` steps of `path` are a descent in `a`, each slot covering its interval.
pub open spec fn descent_in<T: Symbol>(a: Tree<T>, path: Seq<Step<T>>, m: int) -> bool {
    &&& 0 <= m <= path.len()
    &&& forall|k: int| 0 <= k < m ==> in_span(path, k)
    &&& forall|k: int| 0 <= k < m ==> #[trigger] spanned(a, path, k)
    &&& forall|k: int| 0 <= k < m - 1 ==> #[trigger] step_ok(a, path, k)
}

/// `b` is `a` but within the interval reached after `m` steps of `path`, and but for the link
/// into it, which holds `y` in `b`.
pub open spec fn grafted<T: Symbol>(a: Tree<T>, b: Tree<T>, path: Seq<Step<T>>, m: int, y: NodeRef<T>) -> bool {
    &&& a.nodes.len() == b.nodes.len()
    &&& forall|i: int|
        0 <= i < a.nodes.len() && !(span(path, m).0 <= i < span(path, m).1) && !(m > 0 && i
            == path[m - 1].0.index()) ==> a.nodes[i] == b.nodes[i]
    &&& m > 0 ==> b.at(path[m - 1].0) == a.at(path[m - 1].0).with_child(path[m - 1].1, y)
    &&& b.covers(y, span(path, m).0, span(path, m).1)
}

/// Replacing the subtree at the end of a descent by one that covers the same interval leaves
/// every slot of the descent covering its interval.
pub proof fn lemma_graft<T: Symbol>(a: Tree<T>, b: Tree<T>, path: Seq<Step<T>>, m: int, y: NodeRef<T>, j: int)
    requires
        a.sized(),
        descent_in(a, path, m),
        grafted(a, b, path, m, y),
        0 <= j < m,
    ensures
        b.covers(NodeRef::Internal(path[j].0), span(path, j).0, span(path, j).1),
    decreases m - j,
{
    let (p, d) = path[j];
    let i = p.index();
    let (lo, hi) = span(path, j);
    assert(in_span(path, j));
    assert(spanned(a, path, j));
    assert(a.covers(NodeRef::Internal(p), lo, hi));
    lemma_span_nested(path, j + 1, m);
    lemma_span_nested(path, j, m);
    assert(in_span(path, m - 1));
    lemma_span_nested(path, j, m - 1);
    let (slo, shi) = match d {
        Direction::Left => (i + 1, hi),
        Direction::Right => (lo, i),
    };
    let sib = a.at(p).child(d.flip());
    assert(a.covers(sib, slo, shi));
    assert forall|x: int| slo <= x < shi && 0 <= x < a.nodes.len() implies a.nodes[x] == b.nodes[x] by {
        if j + 1 <= m - 1 {
            lemma_span_nested(path, j + 1, m - 1);
        }
    }
    lemma_covers_frame(a, b, sib, slo, shi);
    if j == m - 1 {
        assert(b.at(p) == a.at(p).with_child(d, y));
        assert(b.at(p).child(d) == y);
        assert(b.at(p).child(d.flip()) == sib);
    } else {
        lemma_graft(a, b, path, m, y, j + 1);
        assert(step_ok(a, path, j));
        assert(a.nodes[i] == b.nodes[i]);
        assert(b.at(p).child(d) == NodeRef::Internal(path[j + 1].0));
    }
}

/// The tree in which the link that `path` ends with holds `r`: the child of the last step's
/// slot on the side taken, or the root where the path is empty.
pub open spec fn relink<T: Symbol>(tree: Tree<T>, path: Seq<Step<T>>, n: T) -> Tree<T> {
    if path.len() == 0 {
        tree.set_root(n)
    } else {
        tree.set_child(path.last().0, path.last().1, NodeRef::Internal(n))
    }
}

/// A single rotation: the slot `n`, which `path` ends at, rises above the slot `p` of the
/// last step. `p` takes the subtree of `n` that lay towards it, and hangs under `n` in its
/// place; what pointed to `p` now points to `n`.
pub open spec fn lift<T: Symbol>(tree: Tree<T>, path: Seq<Step<T>>, n: T) -> Tree<T>
    recommends
        path.len() >= 1,
{
    let (p, d) = path.last();
    let inner = tree.at(n).child(d.flip());
    relink(tree, path.drop_last(), n).set_child(n, d.flip(), NodeRef::Internal(p)).set_child(
        p,
        d,
        inner,
    )
}

/// The rotation alone: where `n` hung under `p` and `p` covered an interval in `a`, `n`
/// covers it in `b`, which differs from `a` within that interval only at the two slots.
pub proof fn lemma_rotation_covers<T: Symbol>(a: Tree<T>, b: Tree<T>, n: T, p: T, d: Direction, lo: int, hi: int)
    requires
        a.sized(),
        a.nodes.len() == b.nodes.len(),
        a.covers(NodeRef::Internal(p), lo, hi),
        a.at(p).child(d) == NodeRef::Internal(n),
        forall|x: int|
            lo <= x < hi && 0 <= x < a.nodes.len() && x != n.index() && x != p.index()
                ==> a.nodes[x] == b.nodes[x],
        n.index() != p.index() ==> b.at(n) == a.at(n).with_child(d.flip(), NodeRef::Internal(p)),
        n.index() != p.index() ==> b.at(p) == a.at(p).with_child(d, a.at(n).child(d.flip())),
    ensures
        n.index() != p.index(),
        lo <= n.index() < hi,
        b.covers(NodeRef::Internal(n), lo, hi),
{
    let ni = n.index();
    let pi = p.index();
    let n_old = a.at(n);
    let p_old = a.at(p);
    match d {
        Direction::Left => {
            assert(a.covers(NodeRef::Internal(n), lo, pi));
            assert(a.covers(n_old.left, lo, ni));
            assert(a.covers(n_old.right, ni + 1, pi));
            assert(a.covers(p_old.right, pi + 1, hi));
            lemma_covers_frame(a, b, n_old.left, lo, ni);
            lemma_covers_frame(a, b, n_old.right, ni + 1, pi);
            lemma_covers_frame(a, b, p_old.right, pi + 1, hi);
            assert(b.at(p).left == n_old.right);
            assert(b.at(p).right == p_old.right);
            assert(b.covers(NodeRef::Internal(p), ni + 1, hi));
            assert(b.at(n).left == n_old.left);
            assert(b.at(n).right == NodeRef::Internal(p));
        },
        Direction::Right => {
            assert(a.covers(NodeRef::Internal(n), pi + 1, hi));
            assert(a.covers(n_old.right, ni + 1, hi));
            assert(a.covers(n_old.left, pi + 1, ni));
            assert(a.covers(p_old.left, lo, pi));
            lemma_covers_frame(a, b, n_old.right, ni + 1, hi);
            lemma_covers_frame(a, b, n_old.left, pi + 1, ni);
            lemma_covers_frame(a, b, p_old.left, lo, pi);
            assert(b.at(p).right == n_old.left);
            assert(b.at(p).left == p_old.left);
            assert(b.covers(NodeRef::Internal(p), lo, ni));
            assert(b.at(n).right == n_old.right);
            assert(b.at(n).left == NodeRef::Internal(p));
        },
    }
}

/// The steps of a descent in a consistent tree, but the last `path.len() - m`, are a descent
/// whose slots cover their intervals.
pub proof fn lemma_descent_in<T: Symbol>(tree: Tree<T>, path: Seq<Step<T>>, node: NodeRef<T>, m: int)
    requires
        tree.consistent(),
        path_ok(tree, path, node),
        0 <= m <= path.len(),
    ensures
        descent_in(tree, path, m),
{
    assert forall|k: int| 0 <= k < m implies in_span(path, k) by {
        lemma_path_spans(tree, path, node, m);
    }
    assert forall|k: int| 0 <= k < m implies #[trigger] spanned(tree, path, k) by {
        lemma_path_spans(tree, path, node, k);
        assert(successor(path, node, k - 1) == NodeRef::Internal(path[k].0));
    }
    assert forall|k: int| 0 <= k < m - 1 implies #[trigger] step_ok(tree, path, k) by {
        assert(link_ok(tree, path, node, k));
        assert(successor(path, node, k) == NodeRef::Internal(path[k + 1].0));
    }
}

/// A single rotation keeps the tree consistent, and shortens the descent to `n` by its last
/// step.
pub proof fn lemma_lift<T: Symbol>(tree: Tree<T>, path: Seq<Step<T>>, n: T)
    requires
        tree.consistent(),
        path_ok(tree, path, NodeRef::Internal(n)),
        path.len() >= 1,
    ensures
        lift(tree, path, n).consistent(),
        path_ok(lift(tree, path, n), path.drop_last(), NodeRef::Internal(n)),
{
    let node = NodeRef::Internal(n);
    let m = path.len() - 1;
    let (p, d) = path[m];
    let b = lift(tree, path, n);
    let up = path.drop_last();
    lemma_descent_in(tree, path, node, m + 1);
    let (lo, hi) = span(path, m);
    let ni = n.index();
    let pi = p.index();
    assert(in_span(path, m));
    assert(link_ok(tree, path, node, m));
    assert(spanned(tree, path, m));
    assert(successor(path, node, m) == node);
    assert(tree.covers(NodeRef::Internal(p), lo, hi));
    assert(tree.at(p).child(d) == node);
    lemma_path_spans(tree, path, node, m + 1);
    assert(0 <= ni < tree.nodes.len());
    assert(0 <= pi < tree.nodes.len());
    if m > 0 {
        assert(link_ok(tree, path, node, m - 1));
    }
    let mid = relink(tree, up, n);
    assert(mid.nodes.len() == tree.nodes.len());
    assert(b.nodes.len() == tree.nodes.len());
    if m > 0 {
        assert(in_span(path, m - 1));
        lemma_span_nested(path, m - 1, m);
        assert(up.last() == path[m - 1]);
        assert(path[m - 1].0.index() != pi);
    }
    if ni != pi {
        if m > 0 {
            lemma_path_spans(tree, path, node, m + 1);
            lemma_covers_bounds(tree, node, span(path, m + 1).0, span(path, m + 1).1);
            lemma_span_nested(path, m, m + 1);
            assert(path[m - 1].0.index() != ni);
        }
        assert(mid.at(n) == tree.at(n));
        assert(mid.at(p) == tree.at(p));
        assert(b.at(n) == tree.at(n).with_child(d.flip(), NodeRef::Internal(p)));
        assert(b.at(p) == tree.at(p).with_child(d, tree.at(n).child(d.flip())));
    }
    assert forall|x: int| 0 <= x < tree.nodes.len() && x != ni && x != pi && !(m > 0 && x == path[m - 1].0.index()) implies tree.nodes[x] == b.nodes[x] by {}
    lemma_rotation_covers(tree, b, n, p, d, lo, hi);
    lemma_lift_path(tree, b, path, n);
}

/// The part of `lemma_lift` above the rotation.
proof fn lemma_lift_path<T: Symbol>(tree: Tree<T>, b: Tree<T>, path: Seq<Step<T>>, n: T)
    requires
        tree.consistent(),
        path_ok(tree, path, NodeRef::Internal(n)),
        path.len() >= 1,
        descent_in(tree, path, path.len() as int),
        b == lift(tree, path, n),
        b.nodes.len() == tree.nodes.len(),
        n.index() != path.last().0.index(),
        span(path, path.len() - 1).0 <= n.index() < span(path, path.len() - 1).1,
        b.covers(NodeRef::Internal(n), span(path, path.len() - 1).0, span(path, path.len() - 1).1),
        forall|x: int| 0 <= x < tree.nodes.len() && x != n.index() && x != path.last().0.index() && !(path.len() > 1 && x == path[path.len() - 2].0.index()) ==> tree.nodes[x] == b.nodes[x],
    ensures
        b.consistent(),
        path_ok(b, path.drop_last(), NodeRef::Internal(n)),
{
    let node = NodeRef::Internal(n);
    let m = path.len() - 1;
    let up = path.drop_last();
    let ni = n.index();
    let pi = path[m].0.index();
    assert(in_span(path, m));
    if m > 0 {
        let (q, dq) = path[m - 1];
        assert(in_span(path, m - 1));
        lemma_span_nested(path, m - 1, m);
        assert(up.last() == path[m - 1]);
        assert(q.index() != ni && q.index() != pi);
        assert(link_ok(tree, path, node, m - 1));
        assert(link_ok(tree, path, node, m));
        assert(b.at(q) == tree.at(q).with_child(dq, node));
        assert(grafted(tree, b, path, m, node));
        lemma_graft(tree, b, path, m, node, 0);
        assert(successor(path, node, -1) == NodeRef::Internal(path[0].0));
        assert(b.root == tree.root);
        assert(b.consistent());
        assert forall|k: int| 0 <= k < up.len() implies #[trigger] link_ok(b, up, node, k) by {
            assert(up[k] == path[k]);
            assert(in_span(path, k));
            assert(link_ok(tree, path, node, k));
            assert(0 <= path[k].0.index() < tree.nodes.len());
            if k < m - 1 {
                lemma_span_nested(path, k, m - 1);
                lemma_span_nested(path, k, m);
                assert(successor(path, node, k) == NodeRef::Internal(path[k + 1].0));
                assert(up[k + 1] == path[k + 1]);
                assert(tree.nodes[path[k].0.index()] == b.nodes[path[k].0.index()]);
            }
        }
        assert(up[0] == path[0]);
        assert(successor(up, node, -1) == NodeRef::Internal(b.root));
    } else {
        assert(b.root == n);
    }
}

/// A double rotation, which brings `n` up by the last two steps of `path`. Where both steps
/// went to the same side (zig-zig), the parent rises above the grandparent first, then `n`
/// above the parent; where they differ (zig-zag), `n` rises above the parent, then above
/// the grandparent.
pub open spec fn splay_pair<T: Symbol>(tree: Tree<T>, path: Seq<Step<T>>, n: T) -> Tree<T>
    recommends
        path.len() >= 2,
{
    let (p, pd) = path[path.len() - 1];
    let (g, gd) = path[path.len() - 2];
    let rest = path.take(path.len() - 2);
    if gd == pd {
        lift(lift(tree, path.drop_last(), p), rest.push((p, pd)), n)
    } else {
        lift(lift(tree, path, n), path.drop_last(), n)
    }
}

/// The bottom-up splay of the slot `n` that `path` ends at: double rotations from the end of
/// the path upwards, and one single rotation at the root where the path has odd length.
pub open spec fn splay<T: Symbol>(tree: Tree<T>, path: Seq<Step<T>>, n: T) -> Tree<T>
    decreases path.len(),
{
    if path.len() == 0 {
        tree
    } else if path.len() == 1 {
        lift(tree, path, n)
    } else {
        splay(splay_pair(tree, path, n), path.take(path.len() - 2), n)
    }
}

/// A prefix of a descent is a descent to the slot of the first step left out.
pub proof fn lemma_path_prefix<T: Symbol>(tree: Tree<T>, path: Seq<Step<T>>, node: NodeRef<T>, m: int)
    requires
        path_ok(tree, path, node),
        0 <= m < path.len(),
    ensures
        path_ok(tree, path.take(m), NodeRef::Internal(path[m].0)),
{
    let up = path.take(m);
    let end = NodeRef::Internal(path[m].0);
    assert forall|k: int| 0 <= k < up.len() implies #[trigger] link_ok(tree, up, end, k) by {
        assert(link_ok(tree, path, node, k));
        assert(up[k] == path[k]);
        if k + 1 < m {
            assert(up[k + 1] == path[k + 1]);
        }
    }
    if m > 0 {
        assert(up[0] == path[0]);
    }
}

/// A double rotation keeps the tree consistent, and shortens the descent to `n` by its last
/// two steps.
pub proof fn lemma_splay_pair<T: Symbol>(tree: Tree<T>, path: Seq<Step<T>>, n: T)
    requires
        tree.consistent(),
        path_ok(tree, path, NodeRef::Internal(n)),
        path.len() >= 2,
    ensures
        splay_pair(tree, path, n).consistent(),
        path_ok(splay_pair(tree, path, n), path.take(path.len() - 2), NodeRef::Internal(n)),
{
    let node = NodeRef::Internal(n);
    let len = path.len() as int;
    let (p, pd) = path[len - 1];
    let (g, gd) = path[len - 2];
    let rest = path.take(len - 2);
    let up = path.drop_last();
    assert(up.drop_last() =~= rest);
    assert(up =~= path.take(len - 1));
    if gd == pd {
        lemma_path_prefix(tree, path, node, len - 1);
        lemma_lift(tree, up, p);
        let t1 = lift(tree, up, p);
        let via = rest.push((p, pd));
        assert(via.drop_last() =~= rest);
        // `p` still holds `n` on the side `pd`
        lemma_descent_in(tree, path, node, len);
        assert(in_span(path, len - 2));
        assert(in_span(path, len - 1));
        lemma_span_nested(path, len - 2, len - 1);
        assert(link_ok(tree, path, node, len - 1));
        assert(link_ok(tree, path, node, len - 2));
        assert(up.last() == path[len - 2]);
        if len > 2 {
            assert(in_span(path, len - 3));
            lemma_span_nested(path, len - 3, len - 1);
            lemma_span_nested(path, len - 3, len - 2);
            assert(link_ok(tree, path, node, len - 3));
            assert(up.drop_last().last() == path[len - 3]);
        }
        assert(t1.at(p) == tree.at(p).with_child(gd.flip(), NodeRef::Internal(g)));
        assert(t1.at(p).child(pd) == node);
        assert forall|k: int| 0 <= k < via.len() implies #[trigger] link_ok(t1, via, node, k) by {
            if k < len - 2 {
                assert(link_ok(t1, rest, NodeRef::Internal(p), k));
                assert(via[k] == rest[k]);
                if k + 1 < len - 2 {
                    assert(via[k + 1] == rest[k + 1]);
                }
            }
        }
        if len > 2 {
            assert(via[0] == rest[0]);
        }
        assert(path_ok(t1, via, node));
        lemma_lift(t1, via, n);
    } else {
        lemma_lift(tree, path, n);
        lemma_lift(lift(tree, path, n), up, n);
    }
}

/// The splay keeps the tree consistent and makes `n` the root.
pub proof fn lemma_splay<T: Symbol>(tree: Tree<T>, path: Seq<Step<T>>, n: T)
    requires
        tree.consistent(),
        path_ok(tree, path, NodeRef::Internal(n)),
    ensures
        splay(tree, path, n).consistent(),
        splay(tree, path, n).root == n,
        splay(tree, path, n).nodes.len() == tree.nodes.len(),
    decreases path.len(),
{
    if path.len() == 0 {
    } else if path.len() == 1 {
        lemma_lift(tree, path, n);
        assert(path.drop_last().len() == 0);
    } else {
        lemma_splay_pair(tree, path, n);
        lemma_splay(splay_pair(tree, path, n), path.take(path.len() - 2), n);
    }
}

/// The double rotation as four assignments, after the link from above has been set to `n`.
/// With `b` and `c` the two subtrees that change their parent: on a zig-zig the parent takes
/// the grandparent where it held `b`, the grandparent takes `b` where it held the parent, `n`
/// takes the parent where it held `c`, and the parent takes `c` where it held `n`; on a
/// zig-zag `n` takes the grandparent and the parent where it held `b` and `c`, and they take
/// `b` and `c` where they held the parent and `n`.
pub open spec fn rewired<T: Symbol>(tree: Tree<T>, path: Seq<Step<T>>, n: T) -> Tree<T>
    recommends
        path.len() >= 2,
{
    let (p, pd) = path[path.len() - 1];
    let (g, gd) = path[path.len() - 2];
    let t = relink(tree, path.take(path.len() - 2), n);
    if gd == pd {
        let b = t.at(p).child(pd.flip());
        let c = t.at(n).child(pd.flip());
        t.set_child(p, pd.flip(), NodeRef::Internal(g)).set_child(g, gd, b).set_child(
            n,
            pd.flip(),
            NodeRef::Internal(p),
        ).set_child(p, pd, c)
    } else {
        let b = t.at(n).child(pd);
        let c = t.at(n).child(gd);
        t.set_child(n, pd, NodeRef::Internal(g)).set_child(g, gd, b).set_child(
            n,
            gd,
            NodeRef::Internal(p),
        ).set_child(p, pd, c)
    }
}

/// The last steps of a descent in a consistent tree name slots of the table, different from
/// each other and from the slot that the descent ends at.
pub proof fn lemma_path_end_distinct<T: Symbol>(tree: Tree<T>, path: Seq<Step<T>>, n: T)
    requires
        tree.consistent(),
        path_ok(tree, path, NodeRef::Internal(n)),
        path.len() >= 1,
    ensures
        0 <= n.index() < tree.nodes.len(),
        forall|k: int| 0 <= k < path.len() ==> 0 <= (#[trigger] path[k]).0.index() < tree.nodes.len(),
        forall|k: int| 0 <= k < path.len() ==> (#[trigger] path[k]).0.index() != n.index(),
        forall|j: int, k: int|
            0 <= j < k < path.len() ==> (#[trigger] path[j]).0.index() != (#[trigger] path[k]).0.index(),
{
    let node = NodeRef::Internal(n);
    let len = path.len() as int;
    lemma_path_spans(tree, path, node, len);
    lemma_covers_bounds(tree, node, span(path, len).0, span(path, len).1);
    assert forall|k: int| 0 <= k < path.len() implies 0 <= (#[trigger] path[k]).0.index()
        < tree.nodes.len() && path[k].0.index() != n.index() by {
        assert(link_ok(tree, path, node, k));
        lemma_span_nested(path, k, len);
        assert(in_span(path, k));
    }
    assert forall|j: int, k: int| 0 <= j < k < path.len() implies (#[trigger] path[j]).0.index() != (
    #[trigger] path[k]).0.index() by {
        lemma_span_nested(path, j, k);
        assert(in_span(path, k));
        assert(in_span(path, j));
    }
}

/// The four assignments are the double rotation.
pub proof fn lemma_rewired<T: Symbol>(tree: Tree<T>, path: Seq<Step<T>>, n: T)
    requires
        tree.consistent(),
        path_ok(tree, path, NodeRef::Internal(n)),
        path.len() >= 2,
    ensures
        rewired(tree, path, n) == splay_pair(tree, path, n),
{
    let node = NodeRef::Internal(n);
    let len = path.len() as int;
    let (p, pd) = path[len - 1];
    let (g, gd) = path[len - 2];
    let rest = path.take(len - 2);
    let up = path.drop_last();
    lemma_path_end_distinct(tree, path, n);
    assert(link_ok(tree, path, node, len - 1));
    assert(link_ok(tree, path, node, len - 2));
    assert(up.drop_last() =~= rest);
    assert(up.last() == path[len - 2]);
    let ni = n.index();
    let pi = p.index();
    let gi = g.index();
    assert(ni != pi && ni != gi && pi != gi);
    if len > 2 {
        assert(rest.last() == path[len - 3]);
        let qi = path[len - 3].0.index();
        assert(qi != ni && qi != pi && qi != gi);
    }
    let a = rewired(tree, path, n);
    let b = splay_pair(tree, path, n);
    if gd == pd {
        let via = rest.push((p, pd));
        assert(via.drop_last() =~= rest);
        assert(via.last() == (p, pd));
        let t1 = lift(tree, up, p);
        assert(t1.nodes.len() == tree.nodes.len());
        assert(b == lift(t1, via, n));
        assert(a.nodes =~= b.nodes);
        assert(a.root == b.root);
    } else {
        let t1 = lift(tree, path, n);
        assert(t1.nodes.len() == tree.nodes.len());
        assert(b == lift(t1, up, n));
        assert(a.nodes =~= b.nodes);
        assert(a.root == b.root);
    }
}

} // verus!
