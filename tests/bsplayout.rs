use lanta::bsplayout::{get_parent, get_side_leaf, BSPLayout, Node, Proportion, Split};
use lanta::utils::Rectangle;

fn half_split(split: Split) -> Node<u32> {
    Node::Node { split, proportion: Proportion { num: 1, den: 2 } }
}

fn rect(x: u32, y: u32, width: u32, height: u32) -> Rectangle {
    Rectangle { x, y, width, height }
}

fn leaf_count(t: &BSPLayout<u32>) -> usize {
    t.nodes().iter().filter(|n| n.is_leaf()).count()
}

#[test]
fn sibling_and_parent_values() {
    assert_eq!(get_side_leaf(1), 2);
    assert_eq!(get_side_leaf(2), 1);
    assert_eq!(get_side_leaf(5), 6);
    assert_eq!(get_side_leaf(6), 5);
    assert_eq!(get_parent(1), 0);
    assert_eq!(get_parent(2), 0);
    assert_eq!(get_parent(5), 2);
    assert_eq!(get_parent(6), 2);
}

#[test]
fn index_arithmetic_holds_on_a_range() {
    for i in 1usize..1000 {
        assert_eq!(get_side_leaf(get_side_leaf(i)), i);
        assert_eq!(get_parent(2 * i + 1), i);
        assert_eq!(get_parent(2 * i + 2), i);
    }
}

#[test]
fn empty_layout_has_one_empty_root() {
    let t: BSPLayout<u32> = BSPLayout::empty();
    assert_eq!(t.nodes(), &vec![Node::Empty]);
    assert_eq!(t.max_level(), 1);
    let d: BSPLayout<u32> = BSPLayout::default();
    assert_eq!(d.nodes(), &vec![Node::Empty]);
}

#[test]
fn end_to_end_scenario() {
    let mut t: BSPLayout<u32> = BSPLayout::empty();
    t.add_leaf(10, Split::Vertical);
    assert_eq!(t.nodes(), &vec![Node::Leaf(10)]);
    t.add_leaf(20, Split::Horizontal);
    assert_eq!(
        t.nodes(),
        &vec![half_split(Split::Horizontal), Node::Leaf(10), Node::Leaf(20)]
    );
    t.remove(2);
    assert_eq!(t.nodes()[0], Node::Leaf(10));
    assert!(t.nodes().iter().skip(1).all(|n| n.is_empty()));
    assert_eq!(t.nodes(), &vec![Node::Leaf(10)]);
}

#[test]
fn third_leaf_grows_a_level() {
    let mut t: BSPLayout<u32> = BSPLayout::empty();
    t.add_leaf(1, Split::Vertical);
    t.add_leaf(2, Split::Horizontal);
    t.add_leaf(3, Split::Vertical);
    assert_eq!(t.max_level(), 4);
    assert_eq!(
        t.nodes(),
        &vec![
            half_split(Split::Horizontal),
            half_split(Split::Vertical),
            Node::Leaf(2),
            Node::Leaf(1),
            Node::Leaf(3),
            Node::Empty,
            Node::Empty,
        ]
    );
}

#[test]
fn add_leaf_reuses_first_empty_slot() {
    let mut t: BSPLayout<u32> = BSPLayout::empty();
    t.add_leaf(1, Split::Vertical);
    t.add_leaf(2, Split::Horizontal);
    t.add_leaf(3, Split::Vertical);
    // slot 5 is the first empty one; its parent 2 holds leaf 2
    t.add_leaf(4, Split::Horizontal);
    assert_eq!(t.nodes().len(), 7);
    assert_eq!(t.nodes()[2], half_split(Split::Horizontal));
    assert_eq!(t.nodes()[5], Node::Leaf(2));
    assert_eq!(t.nodes()[6], Node::Leaf(4));
    assert_eq!(leaf_count(&t), 4);
}

#[test]
fn insert_grows_to_cover_the_parents_children() {
    let mut t: BSPLayout<u32> = BSPLayout::empty();
    t.insert(0, 1, Split::Vertical);
    assert_eq!(t.nodes().len(), 1);
    t.insert(1, 2, Split::Vertical);
    assert!(t.nodes().len() > 2);
    assert_eq!(t.nodes().len(), 3);
    t.insert(3, 3, Split::Horizontal);
    assert!(t.nodes().len() > 2 * 1 + 2);
    assert_eq!(t.nodes().len(), 7);
    assert_eq!(t.max_level(), 4);
}

#[test]
fn insert_at_root_replaces_the_tree_root() {
    let mut t: BSPLayout<u32> = BSPLayout::empty();
    t.add_leaf(1, Split::Vertical);
    t.insert(0, 9, Split::Vertical);
    assert_eq!(t.nodes(), &vec![Node::Leaf(9)]);
}

#[test]
fn one_leaf_round_trip() {
    let mut t: BSPLayout<u32> = BSPLayout::empty();
    t.add_leaf(1, Split::Vertical);
    t.remove(0);
    assert_eq!(t.nodes(), &vec![Node::Empty]);
    assert_eq!(t.max_level(), 1);
}

#[test]
fn two_leaves_round_trip_both_orders() {
    for first in [1usize, 2] {
        let mut t: BSPLayout<u32> = BSPLayout::empty();
        t.add_leaf(1, Split::Vertical);
        t.add_leaf(2, Split::Horizontal);
        t.remove(first);
        assert_eq!(t.nodes().len(), 1);
        assert!(t.nodes()[0].is_leaf());
        t.remove(0);
        assert_eq!(t.nodes(), &vec![Node::Empty]);
        assert_eq!(t.max_level(), 1);
    }
}

#[test]
fn three_leaves_round_trip() {
    let mut t: BSPLayout<u32> = BSPLayout::empty();
    t.add_leaf(1, Split::Vertical);
    t.add_leaf(2, Split::Horizontal);
    t.add_leaf(3, Split::Vertical);
    t.remove(2);
    t.remove(3);
    t.remove(1);
    assert_eq!(t.nodes(), &vec![Node::Empty]);
    assert_eq!(t.max_level(), 1);
}

#[test]
fn remove_of_an_empty_slot_does_nothing() {
    let mut t: BSPLayout<u32> = BSPLayout::empty();
    t.add_leaf(1, Split::Vertical);
    t.add_leaf(2, Split::Horizontal);
    t.add_leaf(3, Split::Vertical);
    let before = t.clone();
    t.remove(5);
    assert_eq!(t.nodes(), before.nodes());
    assert_eq!(t.max_level(), before.max_level());
}

#[test]
fn remove_collapses_the_split_into_the_sibling() {
    let mut t: BSPLayout<u32> = BSPLayout::empty();
    t.add_leaf(1, Split::Vertical);
    t.add_leaf(2, Split::Horizontal);
    t.add_leaf(3, Split::Vertical);
    t.remove(4);
    assert_eq!(t.nodes(), &vec![half_split(Split::Horizontal), Node::Leaf(1), Node::Leaf(2)]);
    assert_eq!(t.max_level(), 2);
}

#[test]
fn leaves_stay_within_capacity() {
    let mut t: BSPLayout<u32> = BSPLayout::empty();
    for k in 0..9 {
        t.add_leaf(k, Split::Vertical);
    }
    t.remove(8);
    t.remove(3);
    for (i, n) in t.nodes().iter().enumerate() {
        if n.is_leaf() {
            assert!(i < t.nodes().len());
        }
    }
    assert_eq!(t.nodes().len(), 2 * t.max_level() - 1);
}

#[test]
fn interchange_swaps_two_leaves() {
    let mut t: BSPLayout<u32> = BSPLayout::empty();
    t.add_leaf(1, Split::Vertical);
    t.add_leaf(2, Split::Horizontal);
    t.interchange_leaf(1, 2);
    assert_eq!(t.nodes()[1], Node::Leaf(2));
    assert_eq!(t.nodes()[2], Node::Leaf(1));
}

#[test]
fn interchange_with_a_non_leaf_does_nothing() {
    let mut t: BSPLayout<u32> = BSPLayout::empty();
    t.add_leaf(1, Split::Vertical);
    t.add_leaf(2, Split::Horizontal);
    t.interchange_leaf(0, 2);
    t.interchange_leaf(2, 0);
    assert_eq!(
        t.nodes(),
        &vec![half_split(Split::Horizontal), Node::Leaf(1), Node::Leaf(2)]
    );
}

#[test]
fn find_returns_the_first_match() {
    let mut t: BSPLayout<u32> = BSPLayout::empty();
    t.add_leaf(1, Split::Vertical);
    t.add_leaf(2, Split::Horizontal);
    t.add_leaf(3, Split::Vertical);
    assert_eq!(t.find(|n: &Node<u32>| n.is_leaf()), Some(2));
    assert_eq!(t.find(|n: &Node<u32>| n.is_empty()), Some(5));
    assert_eq!(t.find(|n: &Node<u32>| *n == Node::Leaf(7)), None);
}

#[test]
fn resolution_grows_and_shrinks() {
    let mut t: BSPLayout<u32> = BSPLayout::empty();
    assert!(t.can_decrease_resolution());
    t.increase_resolution();
    assert_eq!(t.max_level(), 2);
    assert_eq!(t.nodes().len(), 3);
    t.increase_resolution();
    assert_eq!(t.max_level(), 4);
    assert_eq!(t.nodes().len(), 7);
    assert!(t.can_decrease_resolution());
    t.decrease_resolution();
    assert_eq!(t.max_level(), 2);
    assert_eq!(t.nodes().len(), 3);
}

#[test]
fn cannot_decrease_while_last_level_holds_a_leaf() {
    let mut t: BSPLayout<u32> = BSPLayout::empty();
    t.add_leaf(1, Split::Vertical);
    t.add_leaf(2, Split::Horizontal);
    assert!(!t.can_decrease_resolution());
    t.add_leaf(3, Split::Vertical);
    assert!(!t.can_decrease_resolution());
}

#[test]
fn single_leaf_geometry_covers_the_root() {
    let mut t: BSPLayout<u32> = BSPLayout::empty();
    t.add_leaf(1, Split::Vertical);
    let root = rect(3, 4, 640, 480);
    let squares = t.build_squares(root);
    assert_eq!(squares, vec![Some(root)]);
    t.increase_resolution();
    let squares = t.build_squares(root);
    assert_eq!(squares, vec![Some(root), None, None]);
}

#[test]
fn empty_root_geometry() {
    let t: BSPLayout<u32> = BSPLayout::empty();
    assert_eq!(t.build_squares(rect(0, 0, 10, 10)), vec![Some(rect(0, 0, 10, 10))]);
}

#[test]
fn horizontal_half_split_geometry() {
    let mut t: BSPLayout<u32> = BSPLayout::empty();
    t.add_leaf(1, Split::Vertical);
    t.add_leaf(2, Split::Horizontal);
    let squares = t.build_squares(rect(0, 0, 100, 100));
    let first = squares[1].unwrap();
    assert_eq!(first.y, 50);
    assert_eq!(first.height, 50);
    assert_eq!(first, rect(0, 50, 100, 50));
    assert_eq!(squares[2], Some(rect(0, 0, 100, 50)));
    assert_eq!(squares[0], Some(rect(0, 0, 100, 100)));
}

#[test]
fn horizontal_second_child_height_uses_the_width() {
    let mut t: BSPLayout<u32> = BSPLayout::empty();
    t.add_leaf(1, Split::Vertical);
    t.add_leaf(2, Split::Horizontal);
    let squares = t.build_squares(rect(0, 0, 200, 101));
    // ceil(101 / 2) = 51, floor(101 / 2) = 50
    assert_eq!(squares[1], Some(rect(0, 51, 200, 51)));
    assert_eq!(squares[2], Some(rect(0, 0, 200, 150)));
    // a height larger than the width leaves the second child no height
    let squares = t.build_squares(rect(0, 0, 10, 100));
    assert_eq!(squares[2], Some(rect(0, 0, 10, 0)));
}

#[test]
fn vertical_half_split_geometry() {
    let mut t: BSPLayout<u32> = BSPLayout::empty();
    t.add_leaf(1, Split::Horizontal);
    t.add_leaf(2, Split::Vertical);
    let squares = t.build_squares(rect(0, 0, 101, 60));
    assert_eq!(squares[1], Some(rect(0, 0, 51, 60)));
    assert_eq!(squares[2], Some(rect(51, 0, 51, 60)));
}

#[test]
fn nested_split_geometry() {
    let mut t: BSPLayout<u32> = BSPLayout::empty();
    t.add_leaf(1, Split::Vertical);
    t.add_leaf(2, Split::Vertical);
    t.add_leaf(3, Split::Vertical);
    let squares = t.build_squares(rect(0, 0, 100, 40));
    assert_eq!(squares.len(), 7);
    assert_eq!(squares[1], Some(rect(0, 0, 50, 40)));
    assert_eq!(squares[2], Some(rect(50, 0, 50, 40)));
    assert_eq!(squares[3], Some(rect(0, 0, 25, 40)));
    assert_eq!(squares[4], Some(rect(25, 0, 25, 40)));
    assert_eq!(squares[5], None);
    assert_eq!(squares[6], None);
}

#[test]
fn map_nodes_from_walks_splits_in_pre_order() {
    let mut t: BSPLayout<u32> = BSPLayout::empty();
    assert_eq!(t.map_nodes_from(0), Vec::<usize>::new());
    for k in 0..5 {
        t.add_leaf(k, Split::Vertical);
    }
    // splits at 0, 1, 2 and 3
    assert_eq!(t.map_nodes_from(0), vec![0, 1, 3, 2]);
    assert_eq!(t.map_nodes_from(2), vec![2]);
    assert_eq!(t.map_nodes_from(4), Vec::<usize>::new());
    assert_eq!(t.map_nodes_from(1), vec![1, 3]);
    assert_eq!(t.map_nodes_from(100), Vec::<usize>::new());
}

#[test]
fn node_predicates() {
    let e: Node<u32> = Node::Empty;
    let l: Node<u32> = Node::Leaf(1);
    let s = half_split(Split::Vertical);
    assert!(e.is_empty() && !e.is_leaf());
    assert!(l.is_leaf() && !l.is_empty());
    assert!(!s.is_leaf() && !s.is_empty());
    assert_eq!(Proportion::half(), Proportion { num: 1, den: 2 });
}

#[test]
fn remove_occupied_checks_the_slot() {
    let mut t: BSPLayout<u32> = BSPLayout::empty();
    assert!(!t.remove_occupied(0));
    t.add_leaf(1, Split::Vertical);
    t.add_leaf(2, Split::Horizontal);
    assert!(!t.remove_occupied(0));
    assert!(!t.remove_occupied(3));
    assert_eq!(t.nodes().len(), 3);
    assert!(t.remove_occupied(2));
    assert_eq!(t.nodes(), &vec![Node::Leaf(1)]);
    assert!(t.remove_occupied(0));
    assert_eq!(t.nodes(), &vec![Node::Empty]);
}

#[test]
fn removing_under_a_split_sibling_can_leave_a_split_behind() {
    let mut t: BSPLayout<u32> = BSPLayout::empty();
    for k in 1..6 {
        t.add_leaf(k, Split::Vertical);
    }
    assert_eq!(leaf_count(&t), 5);
    for ix in [5usize, 2, 4, 7, 3] {
        assert!(t.nodes()[ix].is_leaf());
        t.remove(ix);
    }
    assert_eq!(leaf_count(&t), 0);
    assert_eq!(t.nodes().len(), 3);
    assert!(!t.nodes()[0].is_leaf() && !t.nodes()[0].is_empty());
}

#[test]
fn four_leaves_round_trip_removing_beside_leaves() {
    let mut t: BSPLayout<u32> = BSPLayout::empty();
    for k in 1..5 {
        t.add_leaf(k, Split::Horizontal);
    }
    assert_eq!(leaf_count(&t), 4);
    t.remove(3);
    assert_eq!(t.nodes().len(), 7);
    t.remove(5);
    assert_eq!(t.nodes().len(), 3);
    t.remove(1);
    assert_eq!(t.nodes(), &vec![Node::Leaf(4)]);
    t.remove(0);
    assert_eq!(t.nodes(), &vec![Node::Empty]);
    assert_eq!(t.max_level(), 1);
}
