use hashlife::{RleError, Universe};
use std::collections::HashSet;

fn pairs(flat: Vec<i32>) -> Vec<(i32, i32)> {
    assert_eq!(flat.len() % 2, 0);
    flat.chunks(2).map(|c| (c[0], c[1])).collect()
}

fn cells(u: &mut Universe) -> Vec<(i32, i32)> {
    let mut all = pairs(u.coords(-1_000_000, -1_000_000, 1_000_000, 1_000_000));
    all.sort();
    all
}

fn generation(cells: &HashSet<(i32, i32)>) -> HashSet<(i32, i32)> {
    let mut near: HashSet<(i32, i32)> = HashSet::new();
    for &(x, y) in cells {
        for dx in -1..=1 {
            for dy in -1..=1 {
                near.insert((x + dx, y + dy));
            }
        }
    }
    let mut next = HashSet::new();
    for &(x, y) in &near {
        let mut n = 0;
        for dx in -1..=1 {
            for dy in -1..=1 {
                if (dx, dy) != (0, 0) && cells.contains(&(x + dx, y + dy)) {
                    n += 1;
                }
            }
        }
        if n == 3 || (n == 2 && cells.contains(&(x, y))) {
            next.insert((x, y));
        }
    }
    next
}

fn is_padded(u: &mut Universe) -> bool {
    let dim = 1i32 << u.root_level();
    let (lo_x, lo_y) = (u.root_x() + dim / 8 * 3, u.root_y() + dim / 8 * 3);
    u.root_level() >= 3
        && cells(u).iter().all(|&(x, y)| {
            lo_x <= x && x < lo_x + dim / 4 && lo_y <= y && y < lo_y + dim / 4
        })
}

#[test]
fn new_universe_is_empty() {
    let mut u = Universe::new(-3, 5);
    assert_eq!(u.root_level(), 3);
    assert_eq!(u.root_x(), -3);
    assert_eq!(u.root_y(), 5);
    assert_eq!(u.coords(-100, -100, 100, 100), Vec::<i32>::new());
}

#[test]
fn set_inside_the_frame_keeps_the_frame() {
    let mut u = Universe::new(0, 0);
    u.set(7, 0);
    u.set(0, 7);
    u.set(3, 3);
    assert_eq!(u.root_level(), 3);
    assert_eq!((u.root_x(), u.root_y()), (0, 0));
    assert_eq!(cells(&mut u), vec![(0, 7), (3, 3), (7, 0)]);
}

#[test]
fn set_outside_the_frame_grows_it_about_the_middle() {
    let mut u = Universe::new(0, 0);
    u.set(1, 1);
    u.set(8, 1);
    assert_eq!(u.root_level(), 4);
    assert_eq!((u.root_x(), u.root_y()), (-4, -4));
    u.set(-5, 1);
    assert_eq!(u.root_level(), 5);
    assert_eq!((u.root_x(), u.root_y()), (-12, -12));
    u.set(100, -100);
    assert_eq!(u.root_level(), 8);
    assert_eq!((u.root_x(), u.root_y()), (-124, -124));
    assert_eq!(cells(&mut u), vec![(-5, 1), (1, 1), (8, 1), (100, -100)]);
}

#[test]
fn coords_come_flat_and_in_quadrant_order() {
    let mut u = Universe::new(10, 20);
    u.set(10, 20);
    u.set(17, 27);
    u.set(14, 24);
    u.set(13, 23);
    assert_eq!(u.coords(10, 20, 17, 27), vec![17, 27, 14, 24, 13, 23, 10, 20]);
    assert_eq!(u.coords(10, 20, 11, 21), vec![10, 20]);
    assert_eq!(u.coords(30, 30, 40, 40), Vec::<i32>::new());
    assert_eq!(u.coords(13, 23, 14, 24), vec![14, 24, 13, 23]);
    assert_eq!(u.coords(11, 20, 16, 27), vec![14, 24, 13, 23]);
    assert_eq!(u.coords(18, 20, 30, 30), Vec::<i32>::new());
    assert_eq!(u.coords(i32::MIN, i32::MIN, i32::MAX, i32::MAX), vec![17, 27, 14, 24, 13, 23, 10, 20]);
    assert_eq!(u.coords(i32::MIN, i32::MIN, 13, i32::MAX), vec![13, 23, 10, 20]);
}

#[test]
fn setting_a_live_cell_again_keeps_the_root() {
    let glider = [(1, 0), (2, 1), (0, 2), (1, 2), (2, 2)];
    let mut u = Universe::new(0, 0);
    for &(x, y) in &glider {
        u.set(x + 20, y - 9);
    }
    let root = u.root_id();
    let frame = (u.root_level(), u.root_x(), u.root_y());
    for &(x, y) in glider.iter().rev() {
        u.set(x + 20, y - 9);
        assert_eq!(u.root_id(), root);
    }
    assert_eq!((u.root_level(), u.root_x(), u.root_y()), frame);
}

#[test]
fn in_reach_tells_how_far_the_frame_can_grow() {
    let u = Universe::new(0, 0);
    assert!(u.in_reach(0, 0));
    assert!(u.in_reach(-1, 8));
    assert!(u.in_reach((1 << 29) + 3, 0));
    assert!(!u.in_reach((1 << 29) + 4, 0));
    assert!(u.in_reach(4 - (1 << 29), 4 - (1 << 29)));
    assert!(!u.in_reach(3 - (1 << 29), 0));
    assert!(!u.in_reach(0, i32::MAX));
    assert!(!u.in_reach(i32::MIN, 0));
    let edge = Universe::new(i32::MAX - 8, i32::MIN);
    assert!(edge.in_reach(i32::MAX - 1, i32::MIN));
    assert!(edge.in_reach(i32::MAX - 8, i32::MIN + 7));
    assert!(!edge.in_reach(i32::MAX - 9, i32::MIN));
    assert!(!edge.in_reach(i32::MAX, i32::MIN));
    assert!(!edge.in_reach(i32::MAX - 1, i32::MIN + 8));
}

#[test]
fn center_pads_without_moving_a_cell() {
    let mut u = Universe::new(0, 0);
    u.set(0, 0);
    u.set(7, 7);
    assert!(!is_padded(&mut u));
    u.center(0);
    assert!(is_padded(&mut u));
    assert_eq!(u.root_level(), 5);
    assert_eq!((u.root_x(), u.root_y()), (-12, -12));
    assert_eq!(cells(&mut u), vec![(0, 0), (7, 7)]);
    u.center(0);
    assert_eq!(u.root_level(), 5);
    assert_eq!((u.root_x(), u.root_y()), (-12, -12));
}

#[test]
fn center_never_lowers_the_level() {
    let mut u = Universe::new(0, 0);
    u.center(0);
    assert_eq!(u.root_level(), 3);
    assert!(is_padded(&mut u));
    u.set(3, 3);
    u.set(4, 4);
    u.center(0);
    assert_eq!(u.root_level(), 3);
    u.set(2, 3);
    u.center(0);
    assert_eq!(u.root_level(), 4);
    assert!(is_padded(&mut u));
    u.set(40, 3);
    let before = u.root_level();
    u.center(0);
    assert!(u.root_level() >= before);
    assert!(is_padded(&mut u));
    assert_eq!(cells(&mut u), vec![(2, 3), (3, 3), (4, 4), (40, 3)]);
}

#[test]
fn glider_moves_one_cell_in_four_generations() {
    let glider = [(1, 0), (2, 1), (0, 2), (1, 2), (2, 2)];
    let mut u = Universe::new(0, 0);
    for &(x, y) in &glider {
        u.set(x, y);
    }
    u.advance(2);
    assert_eq!(cells(&mut u), vec![(1, 3), (2, 1), (2, 3), (3, 2), (3, 3)]);
    assert_eq!(u.root_level(), 4);
    assert_eq!((u.root_x(), u.root_y()), (-4, -4));
    u.advance(2);
    let mut want: Vec<(i32, i32)> = glider.iter().map(|&(x, y)| (x + 2, y + 2)).collect();
    want.sort();
    assert_eq!(cells(&mut u), want);
}

#[test]
fn block_stays_as_it_is() {
    for steps in 0..4usize {
        let mut u = Universe::new(0, 0);
        for &(x, y) in &[(3, 3), (4, 3), (3, 4), (4, 4)] {
            u.set(x, y);
        }
        for _ in 0..6 {
            u.advance(steps);
            assert_eq!(cells(&mut u), vec![(3, 3), (3, 4), (4, 3), (4, 4)]);
            assert_eq!((u.root_x() + (1 << u.root_level()) / 2, u.root_y() + (1 << u.root_level()) / 2), (4, 4));
        }
    }
}

#[test]
fn advance_matches_the_rule_applied_cell_by_cell() {
    let r_pentomino = [(1, 0), (0, 1), (1, 1), (1, 2), (2, 2)];
    let mut u = Universe::new(-4, -4);
    let mut want: HashSet<(i32, i32)> = HashSet::new();
    for &(x, y) in &r_pentomino {
        u.set(x, y);
        want.insert((x, y));
    }
    for _ in 0..40 {
        u.advance(0);
        want = generation(&want);
        let mut sorted: Vec<(i32, i32)> = want.iter().copied().collect();
        sorted.sort();
        assert_eq!(cells(&mut u), sorted);
    }
}

#[test]
fn advance_by_eight_generations_at_a_time() {
    let acorn = [(0, 0), (1, 0), (1, 2), (3, 1), (4, 0), (5, 0), (6, 0)];
    let mut u = Universe::new(0, 0);
    let mut want: HashSet<(i32, i32)> = HashSet::new();
    for &(x, y) in &acorn {
        u.set(x + 60, y + 60);
        want.insert((x + 60, y + 60));
    }
    for _ in 0..5 {
        u.advance(3);
        for _ in 0..8 {
            want = generation(&want);
        }
        let mut sorted: Vec<(i32, i32)> = want.iter().copied().collect();
        sorted.sort();
        assert_eq!(cells(&mut u), sorted);
    }
}

#[test]
fn from_rle_sets_the_cells_of_the_pattern() {
    let mut u = Universe::new(0, 0);
    let r = u.from_rle("#N Glider\nx = 3, y = 3, rule = B3/S23\nbo$2bo$3o!\n".to_string());
    assert_eq!(r, Ok(()));
    assert_eq!(cells(&mut u), vec![(0, 2), (1, 0), (1, 2), (2, 1), (2, 2)]);
    assert_eq!(u.root_level(), 3);
}

#[test]
fn from_rle_twice_gives_the_same_root() {
    let text = "x = 36, y = 9\n24bo$22bobo$12b2o6b2o12b2o$11bo3bo4b2o12b2o$2o8bo5bo3b2o$2o8bo3bob2o4bobo$10bo5bo7bo$11bo3bo$12b2o!";
    let mut u = Universe::new(0, 0);
    assert_eq!(u.from_rle(text.to_string()), Ok(()));
    let root = u.root_id();
    let frame = (u.root_level(), u.root_x(), u.root_y());
    let before = cells(&mut u);
    assert_eq!(before.len(), 36);
    assert_eq!(u.from_rle(text.to_string()), Ok(()));
    assert_eq!(u.root_id(), root);
    assert_eq!((u.root_level(), u.root_x(), u.root_y()), frame);
    assert_eq!(cells(&mut u), before);
}

#[test]
fn from_rle_grows_the_frame() {
    let mut u = Universe::new(0, 0);
    assert_eq!(u.from_rle("x = 1, y = 1\n20$30bo!".to_string()), Ok(()));
    assert_eq!(cells(&mut u), vec![(30, 20)]);
    assert_eq!(u.root_level(), 6);
    assert_eq!((u.root_x(), u.root_y()), (-28, -28));
}

#[test]
fn from_rle_reports_what_is_wrong_and_sets_nothing() {
    let mut u = Universe::new(0, 0);
    u.set(5, 5);
    let root = u.root_id();
    assert_eq!(u.from_rle("3o!".to_string()), Err(RleError::MissingHeader));
    assert_eq!(u.from_rle("x = 3\n3o!".to_string()), Err(RleError::BadHeader));
    assert_eq!(u.from_rle("x = 3, y = 1\n3o99999999999b!".to_string()), Err(RleError::TooLarge));
    assert_eq!(u.from_rle("x = 3, y = 1\n3o1000000000bo!".to_string()), Err(RleError::OutOfReach));
    assert_eq!(u.root_id(), root);
    assert_eq!(u.root_level(), 3);
    assert_eq!(cells(&mut u), vec![(5, 5)]);
}

#[test]
fn pattern_read_and_advanced() {
    let mut u = Universe::new(0, 0);
    assert_eq!(u.from_rle("x = 3, y = 1\n3o!".to_string()), Ok(()));
    u.advance(0);
    assert_eq!(cells(&mut u), vec![(1, -1), (1, 0), (1, 1)]);
    u.advance(0);
    assert_eq!(cells(&mut u), vec![(0, 0), (1, 0), (2, 0)]);
}

#[test]
fn room_to_grow_is_told_before_growing() {
    let u = Universe::new(0, 0);
    assert!(u.can_set(100, 100));
    assert!(!u.can_set(i32::MAX, 0));
    assert!(u.can_center());
    assert!(u.can_advance());
    let edge = Universe::new(i32::MAX - 8, i32::MIN);
    assert!(edge.can_set(i32::MAX - 1, i32::MIN + 7));
    assert!(!edge.can_set(i32::MAX - 9, i32::MIN));
    assert!(!edge.can_center());
    assert!(!edge.can_advance());
    let near = Universe::new(i32::MAX - 20, 0);
    assert!(near.can_center());
    let nearer = Universe::new(i32::MAX - 19, 0);
    assert!(!nearer.can_center());
    let mut wide = Universe::new(0, 0);
    wide.set((1 << 27) + 4, 0);
    assert_eq!(wide.root_level(), 29);
    assert!(!wide.can_center());
    let mut less = Universe::new(0, 0);
    less.set((1 << 27) + 3, 0);
    assert_eq!(less.root_level(), 28);
    assert!(less.can_center());
    assert!(less.can_advance());
}

#[test]
fn advance_lowers_the_padded_level_by_one() {
    let mut u = Universe::new(0, 0);
    u.set(3, 3);
    u.set(4, 4);
    u.set(3, 4);
    u.advance(5);
    assert_eq!(u.root_level(), 2);
    assert_eq!((u.root_x(), u.root_y()), (2, 2));
    u.advance(5);
    assert_eq!(u.root_level(), 2);
    assert_eq!((u.root_x(), u.root_y()), (2, 2));
}
