use hashlife::Space;

fn tree_of(sp: &mut Space, level: usize, cells: &[(usize, usize)]) -> hashlife::ID {
    let mut t = sp.empty_tree(level);
    for &(x, y) in cells {
        t = sp.set_tree_pos(t, x, y, 1);
    }
    t
}

#[test]
fn set_then_get_round_trip() {
    let mut sp = Space::new();
    let t = sp.empty_tree(3);
    let u = sp.set_tree_pos(t, 5, 2, 1);
    assert_eq!(sp.get_tree_cell(u, 5, 2), 1);
    for y in 0..8 {
        for x in 0..8 {
            if (x, y) != (5, 2) {
                assert_eq!(sp.get_tree_cell(u, x, y), 0);
            }
            assert_eq!(sp.get_tree_cell(t, x, y), 0);
        }
    }
    assert_eq!(u.fetch_from(&sp).population(), 1);
    let v = sp.set_tree_pos(u, 5, 2, 0);
    assert_eq!(v, t);
}

#[test]
fn set_keeps_every_other_cell() {
    let mut sp = Space::new();
    let cells = [(0, 0), (7, 7), (3, 4), (4, 3), (6, 1)];
    let t = tree_of(&mut sp, 3, &cells);
    let u = sp.set_tree_pos(t, 2, 2, 1);
    let w = sp.set_tree_pos(u, 7, 7, 0);
    for y in 0..8 {
        for x in 0..8 {
            let was = if cells.contains(&(x, y)) { 1 } else { 0 };
            assert_eq!(sp.get_tree_cell(t, x, y), was);
            let now = if (x, y) == (2, 2) { 1 } else { was };
            assert_eq!(sp.get_tree_cell(u, x, y), now);
            let last = if (x, y) == (7, 7) { 0 } else { now };
            assert_eq!(sp.get_tree_cell(w, x, y), last);
        }
    }
    assert_eq!(t.fetch_from(&sp).population(), 5);
    assert_eq!(u.fetch_from(&sp).population(), 6);
    assert_eq!(w.fetch_from(&sp).population(), 5);
}

#[test]
fn set_on_a_leaf_replaces_the_cell() {
    let mut sp = Space::new();
    let dead = sp.new_leaf(0);
    let live = sp.set_tree_pos(dead, 0, 0, 1);
    assert_eq!(sp.get_tree_cell(live, 0, 0), 1);
    assert_eq!(sp.set_tree_pos(live, 0, 0, 0), dead);
}

#[test]
fn setting_a_live_cell_alive_gives_the_same_handle() {
    let mut sp = Space::new();
    let t = tree_of(&mut sp, 4, &[(1, 0), (2, 1), (0, 2), (1, 2), (2, 2)]);
    let handles = sp.handles();
    assert_eq!(sp.set_tree_pos(t, 2, 1, 1), t);
    assert_eq!(sp.set_tree_pos(t, 0, 2, 1), t);
    assert_eq!(sp.handles(), handles);
    let again = tree_of(&mut sp, 4, &[(2, 2), (1, 2), (0, 2), (2, 1), (1, 0)]);
    assert_eq!(again, t);
}

#[test]
fn quadrants_lie_where_the_coordinates_say() {
    let mut sp = Space::new();
    let dead = sp.new_leaf(0);
    let live = sp.new_leaf(1);
    let nw = sp.new_node(live, dead, dead, dead);
    let ne = sp.new_node(dead, live, dead, dead);
    let sw = sp.new_node(dead, dead, live, dead);
    let se = sp.new_node(dead, dead, dead, live);
    assert_eq!(sp.get_tree_cell(nw, 0, 1), 1);
    assert_eq!(sp.get_tree_cell(ne, 1, 1), 1);
    assert_eq!(sp.get_tree_cell(sw, 0, 0), 1);
    assert_eq!(sp.get_tree_cell(se, 1, 0), 1);
    let t = sp.new_node(nw, ne, sw, se);
    assert_eq!(sp.get_tree_cell(t, 0, 3), 1);
    assert_eq!(sp.get_tree_cell(t, 3, 3), 1);
    assert_eq!(sp.get_tree_cell(t, 0, 0), 1);
    assert_eq!(sp.get_tree_cell(t, 3, 0), 1);
    assert_eq!(t.fetch_from(&sp).population(), 4);
}

#[test]
fn expand_tree_keeps_the_cells_in_the_middle() {
    let mut sp = Space::new();
    let cells = [(0, 0), (3, 3), (1, 2), (3, 0)];
    let t = tree_of(&mut sp, 2, &cells);
    let e = sp.expand_tree(t);
    assert_eq!(e.fetch_from(&sp).level(), 3);
    assert_eq!(e.fetch_from(&sp).population(), 4);
    for y in 0..8usize {
        for x in 0..8usize {
            let inside = (2..6).contains(&x) && (2..6).contains(&y);
            let want = if inside && cells.contains(&(x - 2, y - 2)) { 1 } else { 0 };
            assert_eq!(sp.get_tree_cell(e, x, y), want);
        }
    }
}

#[test]
fn get_coords_lists_quadrants_in_order() {
    let mut sp = Space::new();
    let t = tree_of(&mut sp, 2, &[(0, 0), (3, 0), (0, 3), (3, 3), (1, 1)]);
    let all = sp.get_coords(t, 10, 20, 0, 0, 100, 100);
    assert_eq!(all, vec![(10, 23), (13, 23), (11, 21), (10, 20), (13, 20)]);
}

#[test]
fn get_coords_lists_only_what_lies_in_the_box() {
    let mut sp = Space::new();
    let t = tree_of(&mut sp, 3, &[(0, 0), (7, 7), (4, 4), (3, 3)]);
    assert_eq!(sp.get_coords(t, 0, 0, 0, 0, 7, 7), vec![(7, 7), (4, 4), (3, 3), (0, 0)]);
    assert_eq!(sp.get_coords(t, 0, 0, 8, 0, 20, 20), vec![]);
    assert_eq!(sp.get_coords(t, 0, 0, 0, 8, 20, 20), vec![]);
    assert_eq!(sp.get_coords(t, 0, 0, -20, -20, -1, 7), vec![]);
    assert_eq!(sp.get_coords(t, 0, 0, 10, 10, 20, 20), vec![]);
    assert_eq!(sp.get_coords(t, 0, 0, 6, 6, 7, 7), vec![(7, 7)]);
    assert_eq!(sp.get_coords(t, 0, 0, 0, 0, 1, 1), vec![(0, 0)]);
    assert_eq!(sp.get_coords(t, -4, -4, 0, 0, 10, 10), vec![(3, 3), (0, 0)]);
    assert_eq!(sp.get_coords(t, 0, 0, 3, 3, 4, 4), vec![(4, 4), (3, 3)]);
    assert_eq!(sp.get_coords(t, 0, 0, 4, 0, 7, 3), vec![]);
    assert_eq!(sp.get_coords(t, 0, 0, 5, 5, 3, 3), vec![]);
}

#[test]
fn get_coords_holds_each_cell_of_a_level_one_square_to_the_box() {
    let mut sp = Space::new();
    let t = tree_of(&mut sp, 1, &[(0, 0), (1, 0), (0, 1), (1, 1)]);
    assert_eq!(sp.get_coords(t, 0, 0, 0, 0, 1, 1), vec![(0, 1), (1, 1), (0, 0), (1, 0)]);
    assert_eq!(sp.get_coords(t, 0, 0, 1, 1, 1, 1), vec![(1, 1)]);
    assert_eq!(sp.get_coords(t, 0, 0, 0, 0, 1, 0), vec![(0, 0), (1, 0)]);
    assert_eq!(sp.get_coords(t, 0, 0, 1, 0, 1, 1), vec![(1, 1), (1, 0)]);
    assert_eq!(sp.get_coords(t, 0, 0, 3, 0, 9, 9), vec![]);
    assert_eq!(sp.get_coords(t, 0, 0, 4, 0, 9, 9), vec![]);
    let one = tree_of(&mut sp, 1, &[(0, 0)]);
    assert_eq!(sp.get_coords(one, 0, 0, 3, 0, 9, 9), vec![]);
    assert_eq!(sp.get_coords(one, 0, 0, 1, 0, 9, 9), vec![]);
    assert_eq!(sp.get_coords(one, 0, 0, 0, 0, 9, 9), vec![(0, 0)]);
}

#[test]
fn get_coords_of_an_empty_tree_is_empty() {
    let mut sp = Space::new();
    let t = sp.empty_tree(5);
    assert_eq!(sp.get_coords(t, 0, 0, -100, -100, 100, 100), vec![]);
    let dead = sp.new_leaf(0);
    let live = sp.new_leaf(1);
    assert_eq!(sp.get_coords(dead, 3, 4, 0, 0, 9, 9), vec![]);
    assert_eq!(sp.get_coords(live, 3, 4, 0, 0, 9, 9), vec![(3, 4)]);
    assert_eq!(sp.get_coords(live, 3, 4, 4, 0, 9, 9), vec![]);
    assert_eq!(sp.get_coords(live, 3, 4, 0, 0, 3, 3), vec![]);
    assert_eq!(sp.get_coords(live, 3, 4, 3, 4, 3, 4), vec![(3, 4)]);
}
