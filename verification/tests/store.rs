use hashlife::{Leaf, QTree, Space};

#[test]
fn new_store_has_no_handles() {
    let sp = Space::new();
    assert_eq!(sp.handles(), 0);
}

#[test]
fn leaves_are_interned_once() {
    let mut sp = Space::new();
    let dead = sp.new_leaf(0);
    let live = sp.new_leaf(1);
    assert_ne!(dead, live);
    assert_eq!(sp.new_leaf(0), dead);
    assert_eq!(sp.new_leaf(1), live);
    assert_eq!(sp.handles(), 2);
}

#[test]
fn new_node_is_canonical() {
    let mut sp = Space::new();
    let dead = sp.new_leaf(0);
    let live = sp.new_leaf(1);
    let a = sp.new_node(dead, live, dead, dead);
    let other = sp.new_node(live, live, dead, dead);
    let again = sp.empty_tree(4);
    let b = sp.new_node(dead, live, dead, dead);
    assert_eq!(a, b);
    assert_ne!(a, other);
    assert_ne!(a, again);
}

#[test]
fn child_order_is_part_of_the_identity() {
    let mut sp = Space::new();
    let dead = sp.new_leaf(0);
    let live = sp.new_leaf(1);
    let a = sp.new_node(live, dead, dead, dead);
    let b = sp.new_node(dead, live, dead, dead);
    let c = sp.new_node(dead, dead, live, dead);
    let d = sp.new_node(dead, dead, dead, live);
    assert!(a != b && a != c && a != d && b != c && b != d && c != d);
}

#[test]
fn fetch_from_gives_the_node_value() {
    let mut sp = Space::new();
    let dead = sp.new_leaf(0);
    let live = sp.new_leaf(1);
    let n = sp.new_node(dead, live, live, dead);
    assert!(matches!(live.fetch_from(&sp), QTree::Leaf(Leaf(1))));
    assert!(matches!(dead.fetch_from(&sp), QTree::Leaf(Leaf(0))));
    let node = n.fetch_node(&sp);
    assert_eq!(node.level, 1);
    assert_eq!(node.pop, 2);
    assert_eq!(node.next, None);
    assert_eq!(node.north_west, dead);
    assert_eq!(node.north_east, live);
    assert_eq!(node.south_west, live);
    assert_eq!(node.south_east, dead);
    assert_eq!(n.fetch_from(&sp).level(), 1);
    assert_eq!(n.fetch_from(&sp).population(), 2);
    assert_eq!(live.fetch_from(&sp).level(), 0);
    assert_eq!(live.fetch_from(&sp).population(), 1);
}

#[test]
fn population_is_the_sum_of_the_children() {
    let mut sp = Space::new();
    let dead = sp.new_leaf(0);
    let live = sp.new_leaf(1);
    let one = sp.new_node(dead, live, dead, dead);
    let three = sp.new_node(live, live, dead, live);
    let four = sp.new_node(live, live, live, live);
    let top = sp.new_node(one, three, four, one);
    assert_eq!(one.fetch_from(&sp).population(), 1);
    assert_eq!(three.fetch_from(&sp).population(), 3);
    assert_eq!(four.fetch_from(&sp).population(), 4);
    assert_eq!(top.fetch_from(&sp).population(), 9);
    assert_eq!(top.fetch_from(&sp).level(), 2);
}

#[test]
fn node_values_compare_by_structure() {
    let mut sp = Space::new();
    let t = sp.empty_tree(3);
    let before = t.fetch_from(&sp);
    let r = sp.evolve_tree(t, 1);
    let after = t.fetch_from(&sp);
    assert_eq!(t.fetch_node(&sp).next, Some(r));
    assert!(before == after);
    let leaf = sp.new_leaf(1).fetch_from(&sp);
    assert!(leaf != after);
}

#[test]
fn empty_tree_is_dead_and_cheap() {
    let mut sp = Space::new();
    let mut last = 0;
    for n in 0..20usize {
        let before = sp.handles();
        let t = sp.empty_tree(n);
        assert_eq!(t.fetch_from(&sp).population(), 0);
        assert_eq!(t.fetch_from(&sp).level(), n);
        assert!(sp.handles() <= before + n + 1);
        last = sp.handles();
    }
    assert_eq!(last, 20);
    let mut fresh = Space::new();
    let t = fresh.empty_tree(30);
    assert_eq!(fresh.handles(), 31);
    assert_eq!(fresh.empty_tree(30), t);
    assert_eq!(fresh.handles(), 31);
    let live = fresh.new_leaf(1);
    assert_eq!(fresh.handles(), 32);
    assert_eq!(fresh.empty_tree(30), t);
    assert_eq!(fresh.empty_tree(7).fetch_from(&fresh).level(), 7);
    assert_eq!(fresh.handles(), 32);
    assert_eq!(live.fetch_from(&fresh).population(), 1);
}
