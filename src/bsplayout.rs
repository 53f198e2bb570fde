use crate::balance::{
    lemma_add_keeps_shape, lemma_empty_well_shaped, lemma_remove_keeps_shape, well_shaped,
};
use crate::utils::Rectangle;
use vstd::prelude::*;

verus! {

/// Orientation of the cut that a split node makes.
#[derive(Clone, Copy, Debug, PartialEq, Eq, Structural)]
pub enum Split {
    /// Up and down windows split
    Horizontal,
    /// Left and right window split
    Vertical,
}

/// The share `num / den` of a split's area that goes to its first child.
#[derive(Clone, Copy, Debug, PartialEq, Eq, Structural)]
pub struct Proportion {
    pub num: u32,
    pub den: u32,
}

impl Proportion {
    /// A proportion strictly between zero and one.
    pub open spec fn valid(self) -> bool {
        0 < self.num < self.den
    }

    pub open spec fn spec_half() -> Proportion {
        Proportion { num: 1, den: 2 }
    }

    /// The even split that every new split node starts with.
    pub fn half() -> (r: Proportion)
        ensures
            r == Proportion::spec_half(),
            r.valid(),
    {
        Proportion { num: 1, den: 2 }
    }
}

/// One slot of the level-ordered tree.
#[derive(Clone, Debug, PartialEq, Eq)]
pub enum Node<W> {
    /// An internal node dividing its rectangle between slots `2i+1` and `2i+2`.
    Node { split: Split, proportion: Proportion },
    /// An occupied terminal slot.
    Leaf(W),
    /// A free slot.
    Empty,
}

impl<W> Node<W> {
    pub fn is_empty(&self) -> (r: bool)
        ensures
            r == (*self is Empty),
    {
        match self {
            Node::Empty => true,
            _ => false,
        }
    }

    pub fn is_leaf(&self) -> (r: bool)
        ensures
            r == (*self is Leaf),
    {
        match self {
            Node::Leaf(_) => true,
            _ => false,
        }
    }
}

/// Slot of the parent of slot `i` (for `i > 0`).
pub open spec fn parent_of(i: int) -> int {
    (i + 1) / 2 - 1
}

/// Slot of the other child under the parent of slot `i` (for `i > 0`).
pub open spec fn sibling_of(i: int) -> int {
    if (i + 1) % 2 == 0 {
        i + 1
    } else {
        i - 1
    }
}

/// Index of the sibling slot.
pub fn get_side_leaf(ix: usize) -> (r: usize)
    requires
        0 < ix < usize::MAX,
    ensures
        r == sibling_of(ix as int),
{
    if ix % 2 == 1 {
        ix + 1
    } else {
        ix - 1
    }
}

/// Index of the parent slot; the root has none.
pub fn get_parent(ix: usize) -> (r: usize)
    requires
        ix > 0,
    ensures
        r == parent_of(ix as int),
{
    (ix - 1) / 2
}

/// Parent and sibling arithmetic over the implicit complete binary tree:
/// the sibling of the sibling of a slot is the slot itself, and both
/// children `2i+1` and `2i+2` of a slot `i` have `i` as their parent.
pub proof fn lemma_index_arithmetic(i: int)
    requires
        i > 0,
    ensures
        sibling_of(sibling_of(i)) == i,
        sibling_of(i) > 0,
        parent_of(2 * i + 1) == i,
        parent_of(2 * i + 2) == i,
        parent_of(sibling_of(i)) == parent_of(i),
{
}

/// `v * k`, rounded down.
pub open spec fn scaled_floor(v: u32, k: Proportion) -> int {
    (v * k.num) as int / k.den as int
}

/// `v * k`, rounded up.
pub open spec fn scaled_ceil(v: u32, k: Proportion) -> int {
    (v * k.num + k.den - 1) as int / k.den as int
}

/// `a - b`, or zero where `b` exceeds `a`.
pub open spec fn saturating_diff(a: int, b: int) -> u32 {
    if a >= b {
        (a - b) as u32
    } else {
        0
    }
}

/// The rectangle of the first or the second child of a split of `r`.
///
/// A horizontal split gives its first child the height `ceil(h * k)`, placed
/// at `y = ceil(h * k)`, and its second child the height `w - floor(h * k)`
/// (zero where that is negative). A vertical split gives both children the
/// width `ceil(w * k)`, and its second child `x = w - floor(w * k)`.
pub open spec fn child_rect(r: Rectangle, split: Split, k: Proportion, second: bool) -> Rectangle {
    match split {
        Split::Horizontal => {
            if second {
                Rectangle { height: saturating_diff(r.width as int, scaled_floor(r.height, k)), ..r }
            } else {
                Rectangle {
                    y: scaled_ceil(r.height, k) as u32,
                    height: scaled_ceil(r.height, k) as u32,
                    ..r
                }
            }
        },
        Split::Vertical => {
            if second {
                Rectangle {
                    width: scaled_ceil(r.width, k) as u32,
                    x: (r.width - scaled_floor(r.width, k)) as u32,
                    ..r
                }
            } else {
                Rectangle { width: scaled_ceil(r.width, k) as u32, ..r }
            }
        },
    }
}

/// The rectangle of slot `i` when the root covers `root`: the root's own
/// for slot 0; for any other slot, the part that its parent gives it if the
/// parent is a split with a rectangle of its own, else none.
pub open spec fn square_at<W>(nodes: Seq<Node<W>>, root: Rectangle, i: int) -> Option<Rectangle>
    decreases i,
{
    if i <= 0 {
        Some(root)
    } else {
        let p = parent_of(i);
        match nodes[p] {
            Node::Node { split, proportion } => match square_at(nodes, root, p) {
                Some(r) => Some(child_rect(r, split, proportion, i % 2 == 0)),
                None => None,
            },
            _ => None,
        }
    }
}

/// The split slots reached from slot `i` through splits alone, each before
/// the slots under it, first children before second ones.
pub open spec fn splits_from<W>(nodes: Seq<Node<W>>, i: int) -> Seq<int>
    decreases (if i < nodes.len() {
        nodes.len() - i
    } else {
        0
    }),
{
    if 0 <= i < nodes.len() && nodes[i] is Node {
        seq![i] + splits_from(nodes, 2 * i + 1) + splits_from(nodes, 2 * i + 2)
    } else {
        seq![]
    }
}

/// The split of `v` by `k`: `(floor(v * k), ceil(v * k))`.
fn scale(v: u32, k: Proportion) -> (r: (u32, u32))
    requires
        k.valid(),
    ensures
        r.0 == scaled_floor(v, k),
        r.1 == scaled_ceil(v, k),
        r.0 <= r.1 <= v,
{
    proof {
        assert(v as int * k.num as int <= 0xffff_ffffint * 0xffff_ffffint) by (nonlinear_arith)
            requires
                v <= 0xffff_ffffint,
                k.num <= 0xffff_ffffint,
                0 <= v,
                0 <= k.num,
        ;
    }
    let p: u64 = v as u64 * k.num as u64;
    let d: u64 = k.den as u64;
    proof {
        assert(p as int + d as int - 1 < v as int * d as int + d as int) by (nonlinear_arith)
            requires p == v as int * k.num as int, k.num < d, 0 <= v;
        assert((p as int + d as int - 1) / d as int <= v) by (nonlinear_arith)
            requires p as int + d as int - 1 < v as int * d as int + d as int, d > 0;
        assert(p as int / d as int <= (p as int + d as int - 1) / d as int) by (nonlinear_arith)
            requires d > 0, p >= 0;
    }
    let lo = p / d;
    let hi = (p + d - 1) / d;
    (lo as u32, hi as u32)
}

/// The rectangle that a split of `r` gives to its first or second child.
fn split_rect(r: Rectangle, split: Split, k: Proportion, second: bool) -> (c: Rectangle)
    requires
        k.valid(),
    ensures
        c == child_rect(r, split, k, second),
{
    match split {
        Split::Horizontal => {
            let (lo, hi) = scale(r.height, k);
            if second {
                Rectangle { height: r.width.saturating_sub(lo), ..r }
            } else {
                Rectangle { y: hi, height: hi, ..r }
            }
        },
        Split::Vertical => {
            let (lo, hi) = scale(r.width, k);
            if second {
                Rectangle { width: hi, x: r.width - lo, ..r }
            } else {
                Rectangle { width: hi, ..r }
            }
        },
    }
}

/// True of the powers of two.
pub open spec fn is_pow2(n: nat) -> bool
    decreases n,
{
    if n <= 1 {
        n == 1
    } else {
        n % 2 == 0 && is_pow2(n / 2)
    }
}

/// The slots of a layout and the size of its most recently added level.
pub struct TreeModel<W> {
    pub nodes: Seq<Node<W>>,
    pub max_level: nat,
}

impl<W> TreeModel<W> {
    /// The slots are the levels 1, 2, 4, ... up to `max_level`, and every
    /// split gives a proportion strictly between zero and one.
    pub open spec fn wf(self) -> bool {
        &&& is_pow2(self.max_level)
        &&& self.nodes.len() == 2 * self.max_level - 1
        &&& forall|i: int|
            #![trigger self.nodes[i]]
            0 <= i < self.nodes.len() && self.nodes[i] is Node ==> self.nodes[i]->proportion.valid()
    }

    /// The slot at `i`, or `Empty` past the end.
    pub open spec fn node_at(self, i: int) -> Node<W> {
        if 0 <= i < self.nodes.len() {
            self.nodes[i]
        } else {
            Node::Empty
        }
    }

    /// Another level fits in `usize`.
    pub open spec fn can_grow(self) -> bool {
        4 * self.max_level <= usize::MAX
    }

    /// The single empty root.
    pub open spec fn empty() -> TreeModel<W> {
        TreeModel { nodes: seq![Node::Empty], max_level: 1 }
    }

    /// One more level, twice as large as the last one, of empty slots.
    pub open spec fn grown(self) -> TreeModel<W> {
        TreeModel {
            nodes: self.nodes + Seq::new(2 * self.max_level, |i: int| Node::Empty),
            max_level: 2 * self.max_level,
        }
    }

    /// Every slot of the most recently added level is empty.
    pub open spec fn last_level_empty(self) -> bool {
        forall|i: int|
            #![trigger self.nodes[i]]
            self.nodes.len() - self.max_level <= i < self.nodes.len() ==> self.nodes[i] is Empty
    }

    /// The most recently added level taken off.
    pub open spec fn shrunk(self) -> TreeModel<W> {
        TreeModel {
            nodes: self.nodes.subrange(0, self.nodes.len() - self.max_level),
            max_level: self.max_level / 2,
        }
    }

    /// Slot 0 becomes a leaf; any other slot `ix` turns its parent `p`
    /// into an even split whose first child is what `p` held and whose
    /// second child is the new leaf, after growing a level if the children
    /// of `p` lie past the end.
    pub open spec fn inserted(self, ix: int, elem: W, split: Split) -> TreeModel<W> {
        if ix == 0 {
            TreeModel { nodes: self.nodes.update(0, Node::Leaf(elem)), max_level: self.max_level }
        } else {
            let p = parent_of(ix);
            let g = if self.nodes.len() <= 2 * p + 1 {
                self.grown()
            } else {
                self
            };
            TreeModel {
                nodes: g.nodes.update(2 * p + 1, g.nodes[p]).update(
                    2 * p + 2,
                    Node::Leaf(elem),
                ).update(p, Node::Node { split, proportion: Proportion::spec_half() }),
                max_level: g.max_level,
            }
        }
    }

    /// Removing slot 0 empties the whole tree. Removing an empty slot does
    /// nothing. Removing any other slot moves its sibling up into the parent
    /// slot, empties the slot and its sibling, then takes the last level off
    /// if it is now wholly empty.
    pub open spec fn removed(self, ix: int) -> TreeModel<W> {
        if ix == 0 {
            TreeModel::empty()
        } else if self.nodes[ix] is Empty {
            self
        } else {
            let p = parent_of(ix);
            let s = sibling_of(ix);
            let m = TreeModel {
                nodes: self.nodes.update(p, self.nodes[s]).update(ix, Node::Empty).update(
                    s,
                    Node::Empty,
                ),
                max_level: self.max_level,
            };
            if m.last_level_empty() {
                m.shrunk()
            } else {
                m
            }
        }
    }

    /// The first empty slot at or after `i`, or the length if there is none.
    pub open spec fn first_empty_from(self, i: int) -> int
        decreases self.nodes.len() - i,
    {
        if i >= self.nodes.len() {
            self.nodes.len() as int
        } else if self.nodes[i] is Empty {
            i
        } else {
            self.first_empty_from(i + 1)
        }
    }

    /// Where a new leaf goes: the first empty slot, or the first slot past
    /// the end.
    pub open spec fn add_target(self) -> int {
        self.first_empty_from(0)
    }

    pub open spec fn added(self, elem: W, split: Split) -> TreeModel<W> {
        self.inserted(self.add_target(), elem, split)
    }

    /// The two slots exchanged when both are leaves, else no change.
    pub open spec fn interchanged(self, a: int, b: int) -> TreeModel<W> {
        if self.nodes[a] is Leaf && self.nodes[b] is Leaf {
            TreeModel {
                nodes: self.nodes.update(a, self.nodes[b]).update(b, self.nodes[a]),
                max_level: self.max_level,
            }
        } else {
            self
        }
    }

    /// The rectangle of every slot when the root covers `root`.
    pub open spec fn squares(self, root: Rectangle) -> Seq<Option<Rectangle>> {
        Seq::new(self.nodes.len(), |i: int| square_at(self.nodes, root, i))
    }
}

/// A tiling layout: a binary tree of splits stored level by level, slot `i`
/// having its children at `2i+1` and `2i+2`.
#[derive(Clone)]
pub struct BSPLayout<W> {
    nodes: Vec<Node<W>>,
    max_level: usize,
}

impl<W> View for BSPLayout<W> {
    type V = TreeModel<W>;

    closed spec fn view(&self) -> TreeModel<W> {
        TreeModel { nodes: self.nodes@, max_level: self.max_level as nat }
    }
}

impl<W> Default for BSPLayout<W> {
    fn default() -> (r: Self)
        ensures
            r@ == TreeModel::<W>::empty(),
            r@.wf(),
    {
        Self::empty()
    }
}

/// Exchanges two slots of a vector.
fn swap_slots<W>(v: &mut Vec<Node<W>>, a: usize, b: usize)
    requires
        a < old(v)@.len(),
        b < old(v)@.len(),
    ensures
        final(v)@ == old(v)@.update(a as int, old(v)@[b as int]).update(b as int, old(v)@[a as int]),
{
    if a != b {
        let mut x = Node::Empty;
        std::mem::swap(&mut x, &mut v[a]);
        let mut y = Node::Empty;
        std::mem::swap(&mut y, &mut v[b]);
        v[a] = y;
        v[b] = x;
        proof {
            assert(final(v)@ =~= old(v)@.update(a as int, old(v)@[b as int]).update(b as int, old(v)@[a as int]));
        }
    }
}

impl<W> BSPLayout<W> {
    /// Creates an empty layout: a single empty root.
    pub fn empty() -> (r: Self)
        ensures
            r@ == TreeModel::<W>::empty(),
            r@.wf(),
            well_shaped(r@),
    {
        proof {
            lemma_empty_well_shaped::<W>();
        }
        let r = Self { nodes: vec![Node::Empty], max_level: 1 };
        proof {
            assert(r@.nodes =~= seq![Node::Empty]);
            reveal_with_fuel(is_pow2, 2);
        }
        r
    }

    /// The slots, in level order.
    pub fn nodes(&self) -> (r: &Vec<Node<W>>)
        ensures
            r@ == self@.nodes,
    {
        &self.nodes
    }

    /// Size of the most recently added level.
    pub fn max_level(&self) -> (r: usize)
        ensures
            r == self@.max_level,
    {
        self.max_level
    }

    /// Adds a level of empty slots twice as large as the last one.
    pub fn increase_resolution(&mut self)
        requires
            old(self)@.wf(),
            old(self)@.can_grow(),
        ensures
            final(self)@ == old(self)@.grown(),
            final(self)@.wf(),
    {
        self.max_level = self.max_level * 2;
        let ghost before = self.nodes@;
        let mut i: usize = 0;
        while i < self.max_level
            invariant
                self.max_level == 2 * old(self)@.max_level,
                old(self)@.nodes == before,
                i <= self.max_level,
                self.nodes@ == before + Seq::new(i as nat, |k: int| Node::<W>::Empty),
            decreases self.max_level - i,
        {
            self.nodes.push(Node::Empty);
            i = i + 1;
            proof {
                assert(self.nodes@ =~= before + Seq::new(i as nat, |k: int| Node::<W>::Empty));
            }
        }
        proof {
            let g = old(self)@.grown();
            assert(self@.nodes =~= g.nodes);
            assert forall|k: int|
                0 <= k < self@.nodes.len() && #[trigger] self@.nodes[k] is Node implies self@.nodes[k]->proportion.valid() by {
                if k < before.len() {
                    assert(self@.nodes[k] == before[k]);
                }
            }
        }
    }

    /// Takes the most recently added level off.
    pub fn decrease_resolution(&mut self)
        requires
            old(self)@.wf(),
            old(self)@.max_level >= 2,
            old(self)@.last_level_empty(),
        ensures
            final(self)@ == old(self)@.shrunk(),
            final(self)@.wf(),
    {
        let n = self.nodes.len() - self.max_level;
        self.nodes.truncate(n);
        self.max_level = self.max_level / 2;
    }

    /// Whether every slot of the most recently added level is empty.
    pub fn can_decrease_resolution(&self) -> (r: bool)
        requires
            self@.wf(),
        ensures
            r == self@.last_level_empty(),
    {
        let n = self.nodes.len();
        let mut i: usize = n - self.max_level;
        while i < n
            invariant
                n == self@.nodes.len(),
                n - self.max_level <= i <= n,
                forall|k: int|
                    #![trigger self@.nodes[k]]
                    n - self.max_level <= k < i ==> self@.nodes[k] is Empty,
            decreases n - i,
        {
            if !self.nodes[i].is_empty() {
                return false;
            }
            i = i + 1;
        }
        true
    }

    /// Puts `elem` at slot 0, replacing the whole tree, or turns the parent
    /// `p` of `ix` into an even split holding what `p` held and `elem`.
    /// The tree keeps its intended shape only where `p` held a leaf or was
    /// empty.
    pub fn insert(&mut self, ix: usize, elem: W, split: Split)
        requires
            old(self)@.wf(),
            old(self)@.can_grow(),
            ix == 0 || parent_of(ix as int) < old(self)@.nodes.len(),
        ensures
            final(self)@ == old(self)@.inserted(ix as int, elem, split),
            final(self)@.wf(),
            ix > 0 ==> 2 * parent_of(ix as int) + 2 < final(self)@.nodes.len(),
    {
        if ix == 0 {
            self.nodes[0] = Node::Leaf(elem);
        } else {
            let parent = get_parent(ix);
            if self.nodes.len() <= 2 * parent + 1 {
                self.increase_resolution();
            }
            let ghost g = self@;
            swap_slots(&mut self.nodes, 2 * parent + 1, parent);
            self.nodes[2 * parent + 2] = Node::Leaf(elem);
            self.nodes[parent] = Node::Node { split, proportion: Proportion::half() };
            proof {
                assert(self@.nodes =~= g.nodes.update(2 * parent + 1, g.nodes[parent as int]).update(
                    2 * parent + 2,
                    Node::Leaf(elem),
                ).update(parent as int, Node::Node { split, proportion: Proportion::spec_half() }));
            }
        }
        proof {
            let m = self@;
            assert forall|k: int|
                0 <= k < m.nodes.len() && #[trigger] m.nodes[k] is Node implies m.nodes[k]->proportion.valid() by {
                let g = if ix > 0 && old(self)@.nodes.len() <= 2 * parent_of(ix as int) + 1 {
                    old(self)@.grown()
                } else {
                    old(self)@
                };
                if ix > 0 && old(self)@.nodes.len() <= 2 * parent_of(ix as int) + 1 {
                    assert(g.nodes.len() == 4 * old(self)@.max_level - 1);
                    assert forall|j: int| 0 <= j < g.nodes.len() && #[trigger] g.nodes[j] is Node implies g.nodes[j]->proportion.valid() by {
                        if j < old(self)@.nodes.len() {
                            assert(g.nodes[j] == old(self)@.nodes[j]);
                        }
                    }
                }
            }
        }
    }

    /// Empties slot 0 and everything with it, or replaces the parent of `ix`
    /// by the sibling of `ix` and empties both, taking the last level off
    /// when it is left wholly empty. An empty slot is left as it is.
    pub fn remove(&mut self, ix: usize)
        requires
            old(self)@.wf(),
            ix < old(self)@.nodes.len(),
        ensures
            final(self)@ == old(self)@.removed(ix as int),
            final(self)@.wf(),
            well_shaped(old(self)@) && old(self)@.nodes[ix as int] is Leaf && (ix == 0
                || !(old(self)@.nodes[sibling_of(ix as int)] is Node)) ==> well_shaped(
                final(self)@,
            ),
    {
        proof {
            let m = self@;
            if well_shaped(m) && m.nodes[ix as int] is Leaf && (ix == 0 || !(m.nodes[sibling_of(
                ix as int,
            )] is Node)) {
                lemma_remove_keeps_shape(m, ix as int);
            }
        }
        if ix == 0 {
            *self = Self::empty();
        } else if !self.nodes[ix].is_empty() {
            let parent = get_parent(ix);
            let n = self.nodes.len();
            assert(ix < n);
            let sibling = get_side_leaf(ix);
            let ghost before = self@;
            swap_slots(&mut self.nodes, parent, sibling);
            self.nodes[ix] = Node::Empty;
            self.nodes[sibling] = Node::Empty;
            proof {
                let m = before.removed(ix as int);
                assert(self@.nodes =~= before.nodes.update(parent as int, before.nodes[sibling as int]).update(
                    ix as int,
                    Node::Empty,
                ).update(sibling as int, Node::Empty));
                assert forall|k: int| 0 <= k < self@.nodes.len() && #[trigger] self@.nodes[k] is Node implies self@.nodes[k]->proportion.valid() by {
                    if k == parent as int {
                        assert(self@.nodes[k] == before.nodes[sibling as int]);
                    } else {
                        assert(self@.nodes[k] == before.nodes[k]);
                    }
                }
            }
            if self.can_decrease_resolution() {
                self.decrease_resolution();
            }
        }
    }

    /// Removes slot `ix` only when it lies within the layout and holds a
    /// leaf; tells whether it did.
    pub fn remove_occupied(&mut self, ix: usize) -> (r: bool)
        requires
            old(self)@.wf(),
        ensures
            r == (ix < old(self)@.nodes.len() && old(self)@.nodes[ix as int] is Leaf),
            r ==> final(self)@ == old(self)@.removed(ix as int),
            !r ==> final(self)@ == old(self)@,
            final(self)@.wf(),
    {
        if ix < self.nodes.len() && self.nodes[ix].is_leaf() {
            self.remove(ix);
            true
        } else {
            false
        }
    }

    /// Exchanges two slots when both hold leaves; otherwise does nothing.
    pub fn interchange_leaf(&mut self, ix: usize, ix2: usize)
        requires
            old(self)@.wf(),
            ix < old(self)@.nodes.len(),
            ix2 < old(self)@.nodes.len(),
        ensures
            final(self)@ == old(self)@.interchanged(ix as int, ix2 as int),
            final(self)@.wf(),
    {
        if self.nodes[ix].is_leaf() && self.nodes[ix2].is_leaf() {
            let ghost before = self@;
            swap_slots(&mut self.nodes, ix, ix2);
            proof {
                assert forall|k: int| 0 <= k < self@.nodes.len() && #[trigger] self@.nodes[k] is Node implies self@.nodes[k]->proportion.valid() by {
                    assert(self@.nodes[k] == before.nodes[k]);
                }
            }
        }
    }

    /// The first slot, in level order, whose node satisfies `predicate`.
    pub fn find<P>(&self, predicate: P) -> (r: Option<usize>) where P: Fn(&Node<W>) -> bool
        requires
            forall|i: int| 0 <= i < self@.nodes.len() ==> predicate.requires((&self@.nodes[i],)),
        ensures
            match r {
                Some(ix) => {
                    &&& ix < self@.nodes.len()
                    &&& predicate.ensures((&self@.nodes[ix as int],), true)
                    &&& forall|j: int|
                        0 <= j < ix ==> predicate.ensures((&self@.nodes[j],), false)
                },
                None => forall|j: int|
                    0 <= j < self@.nodes.len() ==> predicate.ensures((&self@.nodes[j],), false),
            },
    {
        let mut ix: usize = 0;
        let mut found: Option<usize> = None;
        while ix < self.nodes.len() && found.is_none()
            invariant
                forall|i: int| 0 <= i < self@.nodes.len() ==> predicate.requires((&self@.nodes[i],)),
                ix <= self@.nodes.len(),
                forall|j: int| 0 <= j < ix ==> predicate.ensures((&self@.nodes[j],), false),
                match found {
                    Some(k) => k == ix && ix < self@.nodes.len() && predicate.ensures(
                        (&self@.nodes[ix as int],),
                        true,
                    ),
                    None => true,
                },
            decreases self@.nodes.len() - ix + (if found is None { 1int } else { 0 }),
        {
            if predicate(&self.nodes[ix]) {
                found = Some(ix);
            } else {
                ix += 1;
            }
        }
        found
    }

    /// Where `first_empty_from` stops, given the first empty slot.
    proof fn lemma_first_empty(m: TreeModel<W>, i: int, k: int)
        requires
            0 <= i <= k <= m.nodes.len(),
            k < m.nodes.len() ==> m.nodes[k] is Empty,
            forall|j: int| i <= j < k ==> !(#[trigger] m.nodes[j] is Empty),
        ensures
            m.first_empty_from(i) == k,
        decreases k - i,
    {
        if i < k {
            Self::lemma_first_empty(m, i + 1, k);
        }
    }

    /// Insert a new value in the first empty node, it keeps a balanced tree
    pub fn add_leaf(&mut self, elem: W, split: Split)
        requires
            old(self)@.wf(),
            old(self)@.can_grow(),
        ensures
            final(self)@ == old(self)@.added(elem, split),
            final(self)@.wf(),
            well_shaped(old(self)@) ==> well_shaped(final(self)@),
    {
        let ghost before = self@;
        let ghost e = elem;
        proof {
            if well_shaped(before) {
                lemma_add_keeps_shape(before, e, split);
            }
        }
        let found = self.find(Node::is_empty);
        let ix = match found {
            Some(ix) => ix,
            None => self.nodes.len(),
        };
        proof {
            Self::lemma_first_empty(self@, 0, ix as int);
        }
        self.insert(ix, elem, split);
    }

    /// The rectangle of each slot, in slot order, when the root covers
    /// `root`. A split hands parts of its rectangle to those of its children
    /// that exist; leaves and empty slots keep what their parent gave them,
    /// and slots that no chain of splits from the root reaches get none.
    pub fn build_squares(&self, root: Rectangle) -> (r: Vec<Option<Rectangle>>)
        requires
            self@.wf(),
        ensures
            r@ == self@.squares(root),
    {
        let n = self.nodes.len();
        let mut squares: Vec<Option<Rectangle>> = Vec::new();
        squares.push(Some(root));
        while squares.len() < n
            invariant
                n == self@.nodes.len(),
                1 <= squares@.len() <= n,
                squares@[0] == Some(root),
                forall|j: int| 1 <= j < squares@.len() ==> squares@[j] is None,
            decreases n - squares@.len(),
        {
            squares.push(None);
        }
        let mut i: usize = 0;
        while i < n
            invariant
                self@.wf(),
                n == self@.nodes.len(),
                squares@.len() == n,
                i <= n,
                forall|j: int|
                    0 <= j < n ==> #[trigger] squares@[j] == (if j <= 2 * i {
                        square_at(self@.nodes, root, j)
                    } else {
                        None
                    }),
            decreases n - i,
        {
            let ghost before = squares@;
            if i < n / 2 {
                match &self.nodes[i] {
                    Node::Node { split, proportion } => {
                        match squares[i] {
                            Some(rect) => {
                                squares[2 * i + 1] = Some(split_rect(rect, *split, *proportion, false));
                                if 2 * i + 2 < n {
                                    squares[2 * i + 2] = Some(split_rect(rect, *split, *proportion, true));
                                }
                            },
                            None => {},
                        }
                    },
                    _ => {},
                }
            }
            proof {
                assert(before[i as int] == square_at(self@.nodes, root, i as int));
                assert forall|j: int| 0 <= j < n implies #[trigger] squares@[j] == (if j <= 2 * (i + 1) {
                    square_at(self@.nodes, root, j)
                } else {
                    None
                }) by {
                    if j == 2 * i + 1 || j == 2 * i + 2 {
                        assert(parent_of(j) == i);
                    } else {
                        assert(squares@[j] == before[j]);
                    }
                }
            }
            i = i + 1;
        }
        proof {
            assert(squares@ =~= self@.squares(root));
        }
        squares
    }

    /// Appends the split slots reached from slot `ix`, in pre-order.
    fn collect_splits(&self, ix: usize, out: &mut Vec<usize>)
        ensures
            final(out)@.map_values(|v: usize| v as int) == old(out)@.map_values(|v: usize| v as int)
                + splits_from(self@.nodes, ix as int),
        decreases (if ix < self@.nodes.len() {
            self@.nodes.len() - ix
        } else {
            0
        }),
    {
        let n = self.nodes.len();
        if ix < n {
            match &self.nodes[ix] {
                Node::Node { .. } => {
                    let ghost start = out@.map_values(|v: usize| v as int);
                    out.push(ix);
                    proof {
                        assert(out@.map_values(|v: usize| v as int) =~= start + seq![ix as int]);
                    }
                    if ix < n / 2 {
                        self.collect_splits(2 * ix + 1, out);
                        self.collect_splits(2 * ix + 2, out);
                    }
                    proof {
                        assert(start + seq![ix as int] + splits_from(self@.nodes, 2 * ix + 1)
                            + splits_from(self@.nodes, 2 * ix + 2) =~= start + (seq![ix as int]
                            + splits_from(self@.nodes, 2 * ix + 1) + splits_from(
                            self@.nodes,
                            2 * ix + 2,
                        )));
                    }
                },
                _ => {
                    assert(out@.map_values(|v: usize| v as int) =~= out@.map_values(|v: usize| v as int) + splits_from(self@.nodes, ix as int));
                },
            }
        } else {
            assert(out@.map_values(|v: usize| v as int) =~= out@.map_values(|v: usize| v as int) + splits_from(self@.nodes, ix as int));
        }
    }

    /// The split slots reached from slot `ix` through splits alone, in the
    /// order of a pre-order walk.
    pub fn map_nodes_from(&self, ix: usize) -> (r: Vec<usize>)
        ensures
            r@.map_values(|v: usize| v as int) == splits_from(self@.nodes, ix as int),
    {
        let mut out: Vec<usize> = Vec::new();
        proof {
            assert(out@.map_values(|v: usize| v as int) =~= Seq::<int>::empty());
        }
        self.collect_splits(ix, &mut out);
        proof {
            assert(Seq::<int>::empty() + splits_from(self@.nodes, ix as int) =~= splits_from(self@.nodes, ix as int));
        }
        out
    }
}

/// Every leaf lies within the slots that the layout holds.
pub proof fn lemma_leaves_within_capacity<W>(m: TreeModel<W>, i: int)
    requires
        m.wf(),
        m.node_at(i) is Leaf,
    ensures
        0 <= i < m.nodes.len(),
{
}

/// Taking off a wholly empty last level keeps every leaf where it was.
pub proof fn lemma_shrink_keeps_leaves<W>(m: TreeModel<W>, i: int)
    requires
        m.wf(),
        m.max_level >= 2,
        m.last_level_empty(),
        m.node_at(i) is Leaf,
    ensures
        m.shrunk().node_at(i) == m.node_at(i),
        m.shrunk().wf(),
{
    if m.nodes.len() - m.max_level <= i < m.nodes.len() {
        assert(m.nodes[i] is Empty);
    }
}

/// When the root is a leaf, the root rectangle goes to slot 0 and no other
/// slot gets one.
pub proof fn lemma_single_leaf_squares<W>(m: TreeModel<W>, root: Rectangle)
    requires
        m.wf(),
        m.nodes[0] is Leaf,
    ensures
        m.squares(root)[0] == Some(root),
        forall|i: int| 0 < i < m.nodes.len() ==> (#[trigger] m.squares(root)[i]) is None,
{
    assert forall|i: int| 0 < i < m.nodes.len() implies (#[trigger] m.squares(root)[i]) is None by {
        lemma_no_square_under_leaf_root(m.nodes, root, i);
    }
}

proof fn lemma_no_square_under_leaf_root<W>(nodes: Seq<Node<W>>, root: Rectangle, i: int)
    requires
        0 < i < nodes.len(),
        nodes[0] is Leaf,
    ensures
        square_at(nodes, root, i) is None,
    decreases i,
{
    let p = parent_of(i);
    if p > 0 {
        lemma_no_square_under_leaf_root(nodes, root, p);
    }
}

} // verus!
