use vstd::prelude::*;

verus! {

/// Two to the power `n`.
pub open spec fn two_pow(n: nat) -> int
    decreases n,
{
    if n == 0 {
        1
    } else {
        2 * two_pow((n - 1) as nat)
    }
}

/// Powers of two are positive, and each from the second on is twice the one before.
pub proof fn lemma_two_pow_positive(n: nat)
    ensures
        two_pow(n) >= 1,
        n >= 1 ==> two_pow(n) % 2 == 0 && two_pow(n) / 2 == two_pow((n - 1) as nat),
    decreases n,
{
    if n > 0 {
        lemma_two_pow_positive((n - 1) as nat);
    }
}

/// A higher power of two is greater.
pub proof fn lemma_two_pow_increases(a: nat, b: nat)
    requires
        a < b,
    ensures
        two_pow(a) < two_pow(b),
    decreases b,
{
    lemma_two_pow_positive(a);
    if a + 1 < b {
        lemma_two_pow_increases(a, (b - 1) as nat);
    }
}

/// A lower power of two divides a higher one.
pub proof fn lemma_two_pow_divides(a: nat, b: nat) -> (q: int)
    requires
        a <= b,
    ensures
        q >= 1,
        two_pow(b) == q * two_pow(a),
    decreases b - a,
{
    if a == b {
        assert(two_pow(b) == 1 * two_pow(a));
        1
    } else {
        let q = lemma_two_pow_divides(a, (b - 1) as nat);
        assert(two_pow(b) == (2 * q) * two_pow(a)) by (nonlinear_arith)
            requires
                two_pow(b) == 2 * two_pow((b - 1) as nat),
                two_pow((b - 1) as nat) == q * two_pow(a),
        ;
        2 * q
    }
}

/// An alphabet of `top() + 1` symbols, each standing for one integer of `0 ..= top()`.
pub trait Symbol: Copy + Sized {
    /// The integer that the symbol stands for.
    spec fn index(self) -> int;

    /// The largest integer of the alphabet: the alphabet has `top() + 1` symbols.
    spec fn top() -> int;

    /// Every symbol lies in `0 ..= top()`, and the alphabet has at least two symbols.
    proof fn lemma_index_bounds(self)
        ensures
            0 <= self.index() <= Self::top(),
            1 <= Self::top() < usize::MAX,
    ;

    /// The width of a symbol in bits: the alphabet has two to that power symbols.
    spec fn bits() -> nat;

    proof fn lemma_alphabet_size()
        ensures
            Self::bits() >= 8,
            Self::bits() % 8 == 0,
            Self::top() + 1 == two_pow(Self::bits()),
            Self::top() < usize::MAX,
    ;

    /// The symbol that stands for `i`.
    spec fn of_index(i: int) -> Self;

    proof fn lemma_of_index(i: int)
        requires
            0 <= i <= Self::top(),
        ensures
            Self::of_index(i).index() == i,
    ;

    /// Two symbols that stand for the same integer are the same symbol.
    proof fn lemma_index_injective(self, other: Self)
        ensures
            self.index() == other.index() ==> self == other,
    ;

    /// The largest integer of the alphabet.
    fn limit() -> (r: usize)
        ensures
            r == Self::top(),
    ;

    /// The symbol's integer, as an index into a table.
    fn as_index(self) -> (r: usize)
        ensures
            r == self.index(),
    ;

    /// The symbol that stands for `i`.
    fn from_index(i: usize) -> (r: Self)
        requires
            i <= Self::top(),
        ensures
            r == Self::of_index(i as int),
            r.index() == i,
    ;

    /// Whether `self` is strictly greater than `other`, compared as unsigned integers.
    fn exceeds(self, other: Self) -> (r: bool)
        ensures
            r == (self.index() > other.index()),
    ;
}

impl Symbol for u8 {
    open spec fn index(self) -> int {
        self as int
    }

    open spec fn top() -> int {
        0xff
    }

    open spec fn bits() -> nat {
        8
    }

    proof fn lemma_alphabet_size() {
        reveal_with_fuel(two_pow, 9);
    }

    open spec fn of_index(i: int) -> Self {
        i as u8
    }

    proof fn lemma_of_index(i: int) {
    }

    fn limit() -> (r: usize) {
        0xff
    }

    proof fn lemma_index_bounds(self) {
    }

    proof fn lemma_index_injective(self, other: Self) {
    }

    fn as_index(self) -> (r: usize) {
        self as usize
    }

    fn from_index(i: usize) -> (r: Self) {
        i as u8
    }

    fn exceeds(self, other: Self) -> (r: bool) {
        self > other
    }
}

impl Symbol for u16 {
    open spec fn index(self) -> int {
        self as int
    }

    open spec fn top() -> int {
        0xffff
    }

    open spec fn bits() -> nat {
        16
    }

    proof fn lemma_alphabet_size() {
        reveal_with_fuel(two_pow, 17);
    }

    open spec fn of_index(i: int) -> Self {
        i as u16
    }

    proof fn lemma_of_index(i: int) {
    }

    fn limit() -> (r: usize) {
        0xffff
    }

    proof fn lemma_index_bounds(self) {
    }

    proof fn lemma_index_injective(self, other: Self) {
    }

    fn as_index(self) -> (r: usize) {
        self as usize
    }

    fn from_index(i: usize) -> (r: Self) {
        i as u16
    }

    fn exceeds(self, other: Self) -> (r: bool) {
        self > other
    }
}

/// A reference to a node of the alphabet tree: an internal node by its slot, or a leaf by its
/// symbol.
#[derive(Clone, Copy, Debug, PartialEq, Eq)]
pub enum NodeRef<T: Symbol> {
    Internal(T),
    Leaf(T),
}

impl<T: Symbol> NodeRef<T> {
    /// The integer held in either variant.
    pub open spec fn value(self) -> int {
        match self {
            NodeRef::Internal(v) => v.index(),
            NodeRef::Leaf(v) => v.index(),
        }
    }

    pub fn new_leaf(v: T) -> (r: Self)
        ensures
            r == NodeRef::Leaf(v),
    {
        NodeRef::Leaf(v)
    }

    /// `max` is the slot that does not exist: the alphabet's last symbol.
    pub fn new_internal(v: T, max: T) -> (r: Self)
        requires
            v != max,
        ensures
            r == NodeRef::Internal(v),
    {
        NodeRef::Internal(v)
    }

    pub fn as_leaf(&self) -> (r: Option<T>)
        ensures
            r == (match *self {
                NodeRef::Leaf(v) => Some(v),
                NodeRef::Internal(_) => None,
            }),
    {
        match self {
            NodeRef::Leaf(v) => Some(*v),
            _ => None,
        }
    }

    pub fn as_internal(&self) -> (r: Option<T>)
        ensures
            r == (match *self {
                NodeRef::Internal(v) => Some(v),
                NodeRef::Leaf(_) => None,
            }),
    {
        match self {
            NodeRef::Internal(v) => Some(*v),
            _ => None,
        }
    }
}

/// The side of an internal node that a descent takes.
#[derive(Clone, Copy, Debug, PartialEq, Eq, Structural)]
pub enum Direction {
    Left,
    Right,
}

impl Direction {
    pub open spec fn flip(self) -> Direction {
        match self {
            Direction::Left => Direction::Right,
            Direction::Right => Direction::Left,
        }
    }

    /// Left is the bit 0, right the bit 1.
    pub open spec fn of_bit(bit: bool) -> Direction {
        if bit {
            Direction::Right
        } else {
            Direction::Left
        }
    }

    pub open spec fn bit(self) -> bool {
        self == Direction::Right
    }

    pub fn opposite(&self) -> (r: Direction)
        ensures
            r == self.flip(),
    {
        match self {
            Direction::Left => Direction::Right,
            Direction::Right => Direction::Left,
        }
    }

    pub fn from_bit(bit: bool) -> (r: Direction)
        ensures
            r == Direction::of_bit(bit),
    {
        if bit {
            Direction::Right
        } else {
            Direction::Left
        }
    }

    pub fn to_bit(self) -> (r: bool)
        ensures
            r == self.bit(),
    {
        self == Direction::Right
    }
}

/// Flipping twice gives the direction back, and a direction and its bit determine each other.
pub proof fn lemma_direction_roundtrip(d: Direction, b: bool)
    ensures
        d.flip().flip() == d,
        d.flip() != d,
        Direction::of_bit(d.bit()) == d,
        Direction::of_bit(b).bit() == b,
{
}

/// An internal node: the two subtrees below one slot.
#[derive(Debug)]
pub struct Node<T: Symbol> {
    pub left: NodeRef<T>,
    pub right: NodeRef<T>,
}

impl<T: Symbol> Node<T> {
    /// The child on the side `dir`.
    pub open spec fn child(self, dir: Direction) -> NodeRef<T> {
        match dir {
            Direction::Left => self.left,
            Direction::Right => self.right,
        }
    }

    /// The node with the child on the side `dir` replaced by `r`.
    pub open spec fn with_child(self, dir: Direction, r: NodeRef<T>) -> Node<T> {
        match dir {
            Direction::Left => Node { left: r, right: self.right },
            Direction::Right => Node { left: self.left, right: r },
        }
    }

    pub fn arm(&self, dir: Direction) -> (r: NodeRef<T>)
        ensures
            r == self.child(dir),
    {
        match dir {
            Direction::Left => self.left,
            Direction::Right => self.right,
        }
    }

    pub fn arm_mut(&mut self, dir: Direction) -> (r: &mut NodeRef<T>)
        ensures
            *r == old(self).child(dir),
            *final(self) == old(self).with_child(dir, *final(r)),
    {
        match dir {
            Direction::Left => &mut self.left,
            Direction::Right => &mut self.right,
        }
    }
}

} // verus!
