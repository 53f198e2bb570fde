//! Shape of the tree under insertion and removal, and the round trip of
//! adding and removing leaves.

use crate::bsplayout::{parent_of, sibling_of, Node, Proportion, Split, TreeModel};
use vstd::prelude::*;

verus! {

/// One for a leaf, zero for anything else.
pub open spec fn leaf_weight<W>(n: Node<W>) -> nat {
    if n is Leaf {
        1
    } else {
        0
    }
}

/// The number of leaves among the slots.
pub open spec fn leaves<W>(s: Seq<Node<W>>) -> nat
    decreases s.len(),
{
    if s.len() == 0 {
        0
    } else {
        leaves(s.drop_last()) + leaf_weight(s.last())
    }
}

/// The occupied slots form a proper binary tree hanging from the root: a
/// slot other than the root is occupied exactly when its parent is a split,
/// every split has both children within the slots, and the last level holds
/// something unless it is the root alone.
pub open spec fn well_shaped<W>(m: TreeModel<W>) -> bool {
    &&& m.wf()
    &&& forall|i: int|
        #![trigger m.nodes[i]]
        0 < i < m.nodes.len() ==> (m.nodes[i] is Empty <==> !(m.nodes[parent_of(i)] is Node))
    &&& forall|i: int|
        #![trigger m.nodes[i]]
        0 <= i < m.nodes.len() && m.nodes[i] is Node ==> 2 * i + 2 < m.nodes.len()
    &&& m.max_level >= 2 ==> !m.last_level_empty()
}

proof fn lemma_leaves_update<W>(s: Seq<Node<W>>, i: int, v: Node<W>)
    requires
        0 <= i < s.len(),
    ensures
        leaves(s.update(i, v)) + leaf_weight(s[i]) == leaves(s) + leaf_weight(v),
    decreases s.len(),
{
    let t = s.update(i, v);
    if i == s.len() - 1 {
        assert(t.drop_last() =~= s.drop_last());
    } else {
        assert(t.drop_last() =~= s.drop_last().update(i, v));
        lemma_leaves_update(s.drop_last(), i, v);
    }
}

proof fn lemma_leaves_none<W>(s: Seq<Node<W>>)
    requires
        forall|i: int| 0 <= i < s.len() ==> !(#[trigger] s[i] is Leaf),
    ensures
        leaves(s) == 0,
    decreases s.len(),
{
    if s.len() > 0 {
        lemma_leaves_none(s.drop_last());
    }
}

proof fn lemma_leaf_counted<W>(s: Seq<Node<W>>, i: int)
    requires
        0 <= i < s.len(),
        s[i] is Leaf,
    ensures
        leaves(s) > 0,
{
    lemma_leaves_update(s, i, Node::Empty);
}

proof fn lemma_leaves_append_empty<W>(s: Seq<Node<W>>, k: nat)
    ensures
        leaves(s + Seq::new(k, |j: int| Node::<W>::Empty)) == leaves(s),
    decreases k,
{
    let t = s + Seq::new(k, |j: int| Node::<W>::Empty);
    if k > 0 {
        assert(t.drop_last() =~= s + Seq::new((k - 1) as nat, |j: int| Node::<W>::Empty));
        lemma_leaves_append_empty(s, (k - 1) as nat);
    } else {
        assert(t =~= s);
    }
}

proof fn lemma_leaves_drop_empty_tail<W>(s: Seq<Node<W>>, n: int)
    requires
        0 <= n <= s.len(),
        forall|i: int| n <= i < s.len() ==> (#[trigger] s[i]) is Empty,
    ensures
        leaves(s.subrange(0, n)) == leaves(s),
    decreases s.len() - n,
{
    if n < s.len() {
        lemma_leaves_drop_empty_tail(s.drop_last(), n);
        assert(s.drop_last().subrange(0, n) =~= s.subrange(0, n));
    } else {
        assert(s.subrange(0, n) =~= s);
    }
}

proof fn lemma_first_empty<W>(m: TreeModel<W>, i: int)
    requires
        0 <= i <= m.nodes.len(),
    ensures
        i <= m.first_empty_from(i) <= m.nodes.len(),
        m.first_empty_from(i) < m.nodes.len() ==> m.nodes[m.first_empty_from(i)] is Empty,
        forall|j: int| i <= j < m.first_empty_from(i) ==> !(#[trigger] m.nodes[j] is Empty),
    decreases m.nodes.len() - i,
{
    if i < m.nodes.len() && !(m.nodes[i] is Empty) {
        lemma_first_empty(m, i + 1);
    }
}

/// Under a root that is no split, every other slot is empty.
proof fn lemma_below_plain_root<W>(m: TreeModel<W>, i: int)
    requires
        well_shaped(m),
        !(m.nodes[0] is Node),
        0 < i < m.nodes.len(),
    ensures
        m.nodes[i] is Empty,
    decreases i,
{
    let p = parent_of(i);
    if p > 0 {
        lemma_below_plain_root(m, p);
    }
    assert(m.nodes[i] is Empty <==> !(m.nodes[p] is Node));
}

/// Below every split there is a leaf.
proof fn lemma_split_has_leaf<W>(m: TreeModel<W>, i: int)
    requires
        well_shaped(m),
        0 <= i < m.nodes.len(),
        m.nodes[i] is Node,
    ensures
        leaves(m.nodes) > 0,
    decreases m.nodes.len() - i,
{
    let c = 2 * i + 1;
    assert(2 * i + 2 < m.nodes.len());
    assert(parent_of(c) == i);
    assert(m.nodes[c] is Empty <==> !(m.nodes[parent_of(c)] is Node));
    if m.nodes[c] is Leaf {
        lemma_leaf_counted(m.nodes, c);
    } else {
        lemma_split_has_leaf(m, c);
    }
}

/// The empty layout is well shaped and holds no leaf.
pub proof fn lemma_empty_well_shaped<W>()
    ensures
        well_shaped(TreeModel::<W>::empty()),
        leaves(TreeModel::<W>::empty().nodes) == 0,
{
    let e = TreeModel::<W>::empty();
    reveal_with_fuel(crate::bsplayout::is_pow2, 2);
    lemma_leaves_none(e.nodes);
}

/// A well-shaped layout without leaves is the empty layout.
pub proof fn lemma_no_leaves_is_empty<W>(m: TreeModel<W>)
    requires
        well_shaped(m),
        leaves(m.nodes) == 0,
    ensures
        m == TreeModel::<W>::empty(),
{
    if m.nodes[0] is Node {
        lemma_split_has_leaf(m, 0);
    }
    if m.nodes[0] is Leaf {
        lemma_leaf_counted(m.nodes, 0);
    }
    if m.max_level >= 2 {
        let len = m.nodes.len();
        assert(exists|k: int| len - m.max_level <= k < len && !(#[trigger] m.nodes[k] is Empty));
        let k = choose|k: int| len - m.max_level <= k < len && !(#[trigger] m.nodes[k] is Empty);
        lemma_below_plain_root(m, k);
    }
    assert(m.max_level == 1);
    assert(m.nodes =~= seq![Node::Empty]);
}

/// The slots below `len` are occupied exactly below splits, splits there
/// have their children below `len`, and the slots from `len` on are empty.
pub open spec fn shaped_below<W>(s: Seq<Node<W>>, len: int) -> bool {
    &&& 0 < len <= s.len()
    &&& forall|j: int| len <= j < s.len() ==> (#[trigger] s[j]) is Empty
    &&& forall|i: int|
        #![trigger s[i]]
        0 < i < len ==> (s[i] is Empty <==> !(s[parent_of(i)] is Node))
    &&& forall|i: int| #![trigger s[i]] 0 <= i < len && s[i] is Node ==> 2 * i + 2 < len
}

/// Turning the leaf at `p` into a split over that leaf and a new one keeps
/// slots occupied exactly below splits, and splits' children within the
/// slots.
#[verifier::rlimit(40)]
proof fn lemma_split_leaf_shape<W>(s: Seq<Node<W>>, len: int, p: int, elem: W, half: Node<W>)
    requires
        shaped_below(s, len),
        0 <= p < len,
        2 * p + 2 < s.len(),
        s[p] is Leaf,
        half is Node,
    ensures
        ({
            let fs = s.update(2 * p + 1, s[p]).update(2 * p + 2, Node::Leaf(elem)).update(p, half);
            &&& forall|i: int|
                #![trigger fs[i]]
                0 < i < fs.len() ==> (fs[i] is Empty <==> !(fs[parent_of(i)] is Node))
            &&& forall|i: int| #![trigger fs[i]] 0 <= i < fs.len() && fs[i] is Node ==> 2 * i + 2 < fs.len()
        }),
{
    let fs = s.update(2 * p + 1, s[p]).update(2 * p + 2, Node::Leaf(elem)).update(p, half);
    assert forall|i: int| 0 < i < fs.len() implies (#[trigger] fs[i] is Empty <==> !(fs[parent_of(i)] is Node)) by {
        let q = parent_of(i);
        if i == 2 * p + 1 || i == 2 * p + 2 {
            assert(q == p);
        } else if i == p {
            assert(s[i] is Empty <==> !(s[parent_of(i)] is Node));
        } else if q == 2 * p + 1 || q == 2 * p + 2 {
            if i < len {
                assert(s[i] is Empty <==> !(s[parent_of(i)] is Node));
                if q < len {
                    assert(s[q] is Empty <==> !(s[parent_of(q)] is Node));
                    assert(parent_of(q) == p);
                }
            }
        } else if i < len {
            assert(s[i] is Empty <==> !(s[parent_of(i)] is Node));
        } else {
            assert(s[i] is Empty);
            if q < len && s[q] is Node {
                assert(2 * q + 2 < len);
            }
        }
    }
    assert forall|i: int| 0 <= i < fs.len() && #[trigger] fs[i] is Node implies 2 * i + 2 < fs.len() by {
        if i != p {
            assert(s[i] is Node);
            if i >= len {
                assert(s[i] is Empty);
            }
        }
    }
}

proof fn lemma_grown_slots<W>(m: TreeModel<W>)
    ensures
        forall|j: int|
            0 <= j < m.grown().nodes.len() ==> #[trigger] m.grown().nodes[j] == (if j < m.nodes.len() {
                m.nodes[j]
            } else {
                Node::Empty
            }),
{
}

/// Where a leaf is added: the root of an empty layout, or a slot whose
/// parent holds a leaf and whose children are free.
#[verifier::rlimit(40)]
proof fn lemma_add_target<W>(m: TreeModel<W>)
    requires
        well_shaped(m),
    ensures
        0 <= m.add_target() <= m.nodes.len(),
        m.add_target() == 0 ==> m == TreeModel::<W>::empty(),
        m.add_target() > 0 ==> {
            let p = parent_of(m.add_target());
            &&& 0 <= p < m.nodes.len()
            &&& m.nodes[p] is Leaf
            &&& 2 * p + 1 < m.nodes.len() ==> m.nodes[2 * p + 1] is Empty
            &&& 2 * p + 2 < m.nodes.len() ==> m.nodes[2 * p + 2] is Empty
        },
{
    let len = m.nodes.len();
    let t = m.add_target();
    lemma_first_empty(m, 0);
    if t == 0 {
        assert(forall|i: int| 0 <= i < len ==> !(#[trigger] m.nodes[i] is Leaf)) by {
            assert forall|i: int| 0 <= i < len implies !(#[trigger] m.nodes[i] is Leaf) by {
                if i > 0 {
                    lemma_below_plain_root(m, i);
                }
            }
        }
        lemma_leaves_none(m.nodes);
        lemma_no_leaves_is_empty(m);
    } else {
        let p = parent_of(t);
        assert(!(m.nodes[p] is Empty));
        if t < len {
            assert(m.nodes[t] is Empty <==> !(m.nodes[parent_of(t)] is Node));
        }
        assert(m.nodes[p] is Leaf);
        if 2 * p + 1 < len {
            assert(parent_of(2 * p + 1) == p);
            assert(m.nodes[2 * p + 1] is Empty <==> !(m.nodes[parent_of(2 * p + 1)] is Node));
        }
        if 2 * p + 2 < len {
            assert(parent_of(2 * p + 2) == p);
            assert(m.nodes[2 * p + 2] is Empty <==> !(m.nodes[parent_of(2 * p + 2)] is Node));
        }
    }
}

proof fn lemma_split_leaf_count<W>(s: Seq<Node<W>>, p: int, elem: W, half: Node<W>)
    requires
        0 <= p,
        2 * p + 2 < s.len(),
        s[p] is Leaf,
        s[2 * p + 1] is Empty,
        s[2 * p + 2] is Empty,
        half is Node,
    ensures
        leaves(s.update(2 * p + 1, s[p]).update(2 * p + 2, Node::Leaf(elem)).update(p, half))
            == leaves(s) + 1,
{
    let g1 = s.update(2 * p + 1, s[p]);
    let g2 = g1.update(2 * p + 2, Node::Leaf(elem));
    lemma_leaves_update(s, 2 * p + 1, s[p]);
    lemma_leaves_update(g1, 2 * p + 2, Node::Leaf(elem));
    lemma_leaves_update(g2, p, half);
}

proof fn lemma_inserted_slots<W>(m: TreeModel<W>, ix: int, elem: W, split: Split)
    requires
        ix > 0,
    ensures
        ({
            let p = parent_of(ix);
            let g = if m.nodes.len() <= 2 * p + 1 {
                m.grown()
            } else {
                m
            };
            let half = Node::<W>::Node { split, proportion: Proportion::spec_half() };
            &&& m.inserted(ix, elem, split).nodes == g.nodes.update(2 * p + 1, g.nodes[p]).update(
                2 * p + 2,
                Node::Leaf(elem),
            ).update(p, half)
            &&& m.inserted(ix, elem, split).max_level == g.max_level
        }),
{
}

proof fn lemma_grown_shaped_below<W>(m: TreeModel<W>, grow: bool)
    requires
        well_shaped(m),
    ensures
        shaped_below(
            (if grow {
                m.grown()
            } else {
                m
            }).nodes,
            m.nodes.len() as int,
        ),
{
    lemma_grown_slots(m);
}

proof fn lemma_grown_wf<W>(m: TreeModel<W>)
    requires
        m.wf(),
    ensures
        crate::bsplayout::is_pow2(m.grown().max_level),
        m.grown().nodes.len() == 2 * m.grown().max_level - 1,
{
}

/// Turning a leaf whose children are free into a split over it and a new
/// leaf keeps a layout well shaped and adds one leaf.
#[verifier::rlimit(60)]
proof fn lemma_insert_under_leaf<W>(m: TreeModel<W>, ix: int, elem: W, split: Split)
    requires
        well_shaped(m),
        ix > 0,
        0 <= parent_of(ix) < m.nodes.len(),
        m.nodes[parent_of(ix)] is Leaf,
        2 * parent_of(ix) + 1 < m.nodes.len() ==> m.nodes[2 * parent_of(ix) + 1] is Empty,
        2 * parent_of(ix) + 2 < m.nodes.len() ==> m.nodes[2 * parent_of(ix) + 2] is Empty,
    ensures
        well_shaped(m.inserted(ix, elem, split)),
        leaves(m.inserted(ix, elem, split).nodes) == leaves(m.nodes) + 1,
{
    let len = m.nodes.len();
    let p = parent_of(ix);
    let grow = len <= 2 * p + 1;
    let g = if grow {
        m.grown()
    } else {
        m
    };
    let f = m.inserted(ix, elem, split);
    lemma_grown_slots(m);
    lemma_grown_wf(m);
    lemma_grown_shaped_below(m, grow);
    lemma_inserted_slots(m, ix, elem, split);
    let half = Node::<W>::Node { split, proportion: Proportion::spec_half() };
    let fs = g.nodes.update(2 * p + 1, g.nodes[p]).update(2 * p + 2, Node::Leaf(elem)).update(p, half);
    assert(g.nodes.len() > 2 * p + 2);
    lemma_split_leaf_shape(g.nodes, len as int, p, elem, half);
    lemma_split_leaf_count(g.nodes, p, elem, half);
    if grow {
        lemma_leaves_append_empty(m.nodes, 2 * m.max_level);
    }
    assert forall|i: int| 0 <= i < fs.len() && #[trigger] fs[i] is Node implies fs[i]->proportion.valid() by {
        if i != p {
            assert(g.nodes[i] is Node);
        }
    }
    if f.max_level >= 2 {
        if grow {
            assert(fs[2 * p + 2] is Leaf);
        } else if f.last_level_empty() {
            assert forall|k: int| len - m.max_level <= k < len implies #[trigger] m.nodes[k] is Empty by {
                assert(fs[k] is Empty);
            }
        }
    }
}

/// Adding a leaf keeps a layout well shaped and adds one leaf.
pub proof fn lemma_add_keeps_shape<W>(m: TreeModel<W>, elem: W, split: Split)
    requires
        well_shaped(m),
    ensures
        well_shaped(m.added(elem, split)),
        leaves(m.added(elem, split).nodes) == leaves(m.nodes) + 1,
{
    lemma_add_target(m);
    let t = m.add_target();
    if t == 0 {
        let f = m.added(elem, split);
        assert(f.nodes =~= seq![Node::Leaf(elem)]);
        lemma_leaves_update(m.nodes, 0, Node::Leaf(elem));
        reveal_with_fuel(crate::bsplayout::is_pow2, 2);
    } else {
        lemma_insert_under_leaf(m, t, elem, split);
    }
}

/// Moving the leaf sibling of the leaf at `ix` up into their parent split
/// and freeing both slots keeps slots occupied exactly below splits, and
/// takes one leaf away.
#[verifier::rlimit(40)]
proof fn lemma_collapse_shape<W>(s: Seq<Node<W>>, ix: int)
    requires
        shaped_below(s, s.len() as int),
        0 < ix < s.len(),
        0 < sibling_of(ix) < s.len(),
        parent_of(sibling_of(ix)) == parent_of(ix),
        s[ix] is Leaf,
        s[sibling_of(ix)] is Leaf,
        s[parent_of(ix)] is Node,
    ensures
        ({
            let p = parent_of(ix);
            let sib = sibling_of(ix);
            let u = s.update(p, s[sib]).update(ix, Node::Empty).update(sib, Node::Empty);
            &&& shaped_below(u, u.len() as int)
            &&& leaves(u) + 1 == leaves(s)
        }),
{
    let p = parent_of(ix);
    let sib = sibling_of(ix);
    let u1 = s.update(p, s[sib]);
    let u2 = u1.update(ix, Node::Empty);
    let u = u2.update(sib, Node::Empty);
    assert forall|i: int| 0 < i < u.len() implies (#[trigger] u[i] is Empty <==> !(u[parent_of(i)] is Node)) by {
        let q = parent_of(i);
        assert(s[i] is Empty <==> !(s[parent_of(i)] is Node));
        if i == p && p > 0 {
            assert(s[p] is Empty <==> !(s[parent_of(p)] is Node));
        }
    }
    assert forall|i: int| 0 <= i < u.len() && #[trigger] u[i] is Node implies 2 * i + 2 < u.len() by {
        assert(s[i] is Node);
    }
    lemma_leaves_update(s, p, s[sib]);
    lemma_leaves_update(u1, ix, Node::Empty);
    lemma_leaves_update(u2, sib, Node::Empty);
}

/// Taking off a wholly empty last level keeps a layout well shaped when the
/// level above it holds something, and keeps its leaves.
#[verifier::rlimit(40)]
proof fn lemma_shrink_shape<W>(m: TreeModel<W>, p: int)
    requires
        m.wf(),
        shaped_below(m.nodes, m.nodes.len() as int),
        m.last_level_empty(),
        m.max_level >= 2,
        m.nodes.len() - m.max_level - m.max_level / 2 <= p < m.nodes.len() - m.max_level,
        0 <= p,
        !(m.nodes[p] is Empty),
    ensures
        well_shaped(m.shrunk()),
        leaves(m.shrunk().nodes) == leaves(m.nodes),
{
    let len = m.nodes.len();
    let sh = m.shrunk();
    let n = len - m.max_level;
    assert(m.max_level % 2 == 0 && crate::bsplayout::is_pow2(m.max_level / 2));
    assert forall|i: int| 0 < i < n implies (#[trigger] sh.nodes[i] is Empty <==> !(sh.nodes[parent_of(i)] is Node)) by {
        assert(m.nodes[i] is Empty <==> !(m.nodes[parent_of(i)] is Node));
    }
    assert forall|i: int| 0 <= i < n && #[trigger] sh.nodes[i] is Node implies 2 * i + 2 < n by {
        assert(m.nodes[i] is Node);
        assert(parent_of(2 * i + 1) == i && parent_of(2 * i + 2) == i);
        assert(m.nodes[2 * i + 1] is Empty <==> !(m.nodes[parent_of(2 * i + 1)] is Node));
        assert(m.nodes[2 * i + 2] is Empty <==> !(m.nodes[parent_of(2 * i + 2)] is Node));
    }
    assert forall|i: int| 0 <= i < n && #[trigger] sh.nodes[i] is Node implies sh.nodes[i]->proportion.valid() by {
        assert(m.nodes[i] is Node);
    }
    if sh.max_level >= 2 {
        assert(!(sh.nodes[p] is Empty));
    }
    lemma_leaves_drop_empty_tail(m.nodes, n);
}

/// Removing a leaf whose sibling is no split keeps a layout well shaped and
/// takes one leaf away.
#[verifier::rlimit(40)]
pub proof fn lemma_remove_keeps_shape<W>(m: TreeModel<W>, ix: int)
    requires
        well_shaped(m),
        0 <= ix < m.nodes.len(),
        m.nodes[ix] is Leaf,
        ix == 0 || !(m.nodes[sibling_of(ix)] is Node),
    ensures
        well_shaped(m.removed(ix)),
        leaves(m.removed(ix).nodes) + 1 == leaves(m.nodes),
{
    let len = m.nodes.len();
    lemma_empty_well_shaped::<W>();
    if ix == 0 {
        let z = m.nodes.update(0, Node::Empty);
        assert forall|i: int| 0 <= i < len implies !(#[trigger] z[i] is Leaf) by {
            if i > 0 {
                lemma_below_plain_root(m, i);
            }
        }
        lemma_leaves_none(z);
        lemma_leaves_update(m.nodes, 0, Node::Empty);
        return;
    }
    let p = parent_of(ix);
    let sib = sibling_of(ix);
    assert(0 < sib < len && parent_of(sib) == p);
    assert(m.nodes[ix] is Empty <==> !(m.nodes[parent_of(ix)] is Node));
    assert(m.nodes[sib] is Empty <==> !(m.nodes[parent_of(sib)] is Node));
    lemma_collapse_shape(m.nodes, ix);
    let u = m.nodes.update(p, m.nodes[sib]).update(ix, Node::Empty).update(sib, Node::Empty);
    let r1 = TreeModel { nodes: u, max_level: m.max_level };
    assert(m.removed(ix) == (if r1.last_level_empty() {
        r1.shrunk()
    } else {
        r1
    }));
    assert forall|i: int| 0 <= i < len && #[trigger] u[i] is Node implies u[i]->proportion.valid() by {
        assert(m.nodes[i] is Node);
    }
    assert(r1.wf());
    if r1.last_level_empty() {
        assert(m.max_level >= 2);
        assert(exists|k: int| len - m.max_level <= k < len && !(#[trigger] m.nodes[k] is Empty));
        let k = choose|k: int| len - m.max_level <= k < len && !(#[trigger] m.nodes[k] is Empty);
        assert(u[k] is Empty);
        assert(2 * p + 2 < len);
        assert(k == ix || k == sib);
        assert(m.max_level % 2 == 0);
        lemma_shrink_shape(r1, p);
    }
}

/// Adds the leaves one after the other.
pub open spec fn add_all<W>(m: TreeModel<W>, items: Seq<(W, Split)>) -> TreeModel<W>
    decreases items.len(),
{
    if items.len() == 0 {
        m
    } else {
        add_all(m.added(items[0].0, items[0].1), items.drop_first())
    }
}

/// Removes the slots one after the other.
pub open spec fn remove_all<W>(m: TreeModel<W>, ixs: Seq<int>) -> TreeModel<W>
    decreases ixs.len(),
{
    if ixs.len() == 0 {
        m
    } else {
        remove_all(m.removed(ixs[0]), ixs.drop_first())
    }
}

/// Each removal, in turn, takes a leaf that is the root or whose sibling is
/// no split.
pub open spec fn removes_leaves_beside_no_split<W>(m: TreeModel<W>, ixs: Seq<int>) -> bool
    decreases ixs.len(),
{
    ixs.len() == 0 || {
        let ix = ixs[0];
        &&& 0 <= ix < m.nodes.len()
        &&& m.nodes[ix] is Leaf
        &&& (ix == 0 || !(m.nodes[sibling_of(ix)] is Node))
        &&& removes_leaves_beside_no_split(m.removed(ix), ixs.drop_first())
    }
}

proof fn lemma_add_all<W>(m: TreeModel<W>, items: Seq<(W, Split)>)
    requires
        well_shaped(m),
    ensures
        well_shaped(add_all(m, items)),
        leaves(add_all(m, items).nodes) == leaves(m.nodes) + items.len(),
    decreases items.len(),
{
    if items.len() > 0 {
        lemma_add_keeps_shape(m, items[0].0, items[0].1);
        lemma_add_all(m.added(items[0].0, items[0].1), items.drop_first());
    }
}

proof fn lemma_remove_all<W>(m: TreeModel<W>, ixs: Seq<int>)
    requires
        well_shaped(m),
        leaves(m.nodes) == ixs.len(),
        removes_leaves_beside_no_split(m, ixs),
    ensures
        remove_all(m, ixs) == TreeModel::<W>::empty(),
    decreases ixs.len(),
{
    if ixs.len() == 0 {
        lemma_no_leaves_is_empty(m);
    } else {
        lemma_remove_keeps_shape(m, ixs[0]);
        lemma_remove_all(m.removed(ixs[0]), ixs.drop_first());
    }
}

/// Round-trip balance: adding any leaves to the empty layout and then
/// removing as many, each removal taking a leaf that is the root or whose
/// sibling is no split, gives back the single empty root.
pub proof fn lemma_round_trip_balance<W>(items: Seq<(W, Split)>, ixs: Seq<int>)
    requires
        ixs.len() == items.len(),
        removes_leaves_beside_no_split(add_all(TreeModel::<W>::empty(), items), ixs),
    ensures
        remove_all(add_all(TreeModel::<W>::empty(), items), ixs) == TreeModel::<W>::empty(),
{
    lemma_empty_well_shaped::<W>();
    lemma_add_all(TreeModel::<W>::empty(), items);
    lemma_remove_all(add_all(TreeModel::<W>::empty(), items), ixs);
}

} // verus!
