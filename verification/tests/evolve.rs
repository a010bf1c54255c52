use hashlife::{Space, ID};
use std::collections::HashSet;

fn pattern_tree(sp: &mut Space, level: usize, cells: &[(i32, i32)]) -> ID {
    let mut t = sp.empty_tree(level);
    for &(x, y) in cells {
        t = sp.set_tree_pos(t, x as usize, y as usize, 1);
    }
    t
}

fn generation(cells: &HashSet<(i32, i32)>) -> HashSet<(i32, i32)> {
    let mut near: HashSet<(i32, i32)> = HashSet::new();
    for &(x, y) in cells {
        for dx in -1..=1 {
            for dy in -1..=1 {
                near.insert((x + dx, y + dy));
            }
        }
    }
    let mut next = HashSet::new();
    for &(x, y) in &near {
        let mut n = 0;
        for dx in -1..=1 {
            for dy in -1..=1 {
                if (dx, dy) != (0, 0) && cells.contains(&(x + dx, y + dy)) {
                    n += 1;
                }
            }
        }
        if n == 3 || (n == 2 && cells.contains(&(x, y))) {
            next.insert((x, y));
        }
    }
    next
}

fn generations(cells: &[(i32, i32)], t: usize) -> HashSet<(i32, i32)> {
    let mut now: HashSet<(i32, i32)> = cells.iter().copied().collect();
    for _ in 0..t {
        now = generation(&now);
    }
    now
}

fn centre_of(cells: &HashSet<(i32, i32)>, level: usize) -> HashSet<(i32, i32)> {
    let q = 1i32 << (level - 2);
    cells
        .iter()
        .copied()
        .filter(|&(x, y)| q <= x && x < 3 * q && q <= y && y < 3 * q)
        .map(|(x, y)| (x - q, y - q))
        .collect()
}

fn live(sp: &Space, t: ID) -> HashSet<(i32, i32)> {
    let all = sp.get_coords(t, 0, 0, 0, 0, 1 << 20, 1 << 20);
    let n = all.len();
    let set: HashSet<(i32, i32)> = all.into_iter().collect();
    assert_eq!(set.len(), n);
    set
}

fn check_evolution(level: usize, j: usize, cells: &[(i32, i32)]) {
    let mut sp = Space::new();
    let t = pattern_tree(&mut sp, level, cells);
    let r = sp.evolve_tree(t, j);
    assert_eq!(r.fetch_from(&sp).level(), level - 1);
    let span = 1usize << j.min(level - 2);
    let want = centre_of(&generations(cells, span), level);
    assert_eq!(live(&sp, r), want);
    assert_eq!(r.fetch_from(&sp).population(), want.len());
    assert_eq!(live(&sp, t), cells.iter().copied().collect());
}

#[test]
fn level_two_advances_one_generation() {
    let mut sp = Space::new();
    let t = pattern_tree(&mut sp, 2, &[(1, 0), (1, 1), (1, 2)]);
    for j in [0usize, 1, 7] {
        let r = sp.evolve_tree(t, j);
        assert_eq!(r.fetch_from(&sp).level(), 1);
        assert_eq!(sp.get_tree_cell(r, 0, 0), 1);
        assert_eq!(sp.get_tree_cell(r, 1, 0), 1);
        assert_eq!(sp.get_tree_cell(r, 0, 1), 0);
        assert_eq!(sp.get_tree_cell(r, 1, 1), 0);
    }
    assert_eq!(t.fetch_node(&sp).next, None);
}

#[test]
fn level_two_follows_the_rule_on_every_neighbourhood() {
    for bits in 0u32..(1 << 16) {
        if bits % 7 != 0 && bits % 11 != 3 {
            continue;
        }
        let mut cells = Vec::new();
        for i in 0..16 {
            if bits & (1 << i) != 0 {
                cells.push(((i % 4) as i32, (i / 4) as i32));
            }
        }
        check_evolution(2, 0, &cells);
    }
}

#[test]
fn birth_survival_and_death() {
    check_evolution(2, 0, &[(0, 0), (1, 0), (2, 0)]);
    check_evolution(2, 0, &[(1, 1), (2, 1)]);
    check_evolution(2, 0, &[(1, 1), (2, 1), (1, 2), (2, 2)]);
    check_evolution(2, 0, &[(0, 0), (1, 0), (2, 0), (0, 1), (1, 1), (2, 1), (0, 2), (1, 2), (2, 2)]);
    check_evolution(2, 0, &[(1, 1), (0, 0), (2, 2)]);
    check_evolution(2, 0, &[]);
}

#[test]
fn glider_returns_after_four_generations_one_cell_on() {
    let glider = [(1, 0), (2, 1), (0, 2), (1, 2), (2, 2)];
    let mut sp = Space::new();
    let mut t = sp.empty_tree(5);
    for &(x, y) in &glider {
        t = sp.set_tree_pos(t, x + 12, y + 12, 1);
    }
    let r = sp.evolve_tree(t, 2);
    assert_eq!(r.fetch_from(&sp).level(), 4);
    let mut got = sp.get_coords(r, 8, 8, 0, 0, 31, 31);
    got.sort();
    let mut want: Vec<(i32, i32)> =
        glider.iter().map(|&(x, y)| (x as i32 + 12 + 1, y as i32 + 12 + 1)).collect();
    want.sort();
    assert_eq!(got, want);
    assert_eq!(got, vec![(13, 15), (14, 13), (14, 15), (15, 14), (15, 15)]);
}

#[test]
fn block_is_a_still_life() {
    let block = [(7, 7), (8, 7), (7, 8), (8, 8)];
    for j in 0..5usize {
        let mut sp = Space::new();
        let t = pattern_tree(&mut sp, 4, &block);
        let r = sp.evolve_tree(t, j);
        let mut got = sp.get_coords(r, 4, 4, 0, 0, 15, 15);
        got.sort();
        assert_eq!(got, vec![(7, 7), (7, 8), (8, 7), (8, 8)]);
    }
}

#[test]
fn evolution_matches_the_rule_applied_cell_by_cell() {
    let r_pentomino = [(1, 0), (0, 1), (1, 1), (1, 2), (2, 2)];
    let acorn = [(0, 0), (1, 0), (1, 2), (3, 1), (4, 0), (5, 0), (6, 0)];
    for level in 3..7usize {
        let off = (1i32 << (level - 1)) - 3;
        for j in 0..6usize {
            let a: Vec<(i32, i32)> = r_pentomino.iter().map(|&(x, y)| (x + off, y + off)).collect();
            check_evolution(level, j, &a);
            if level >= 4 {
                let b: Vec<(i32, i32)> = acorn.iter().map(|&(x, y)| (x + off, y + off)).collect();
                check_evolution(level, j, &b);
            }
        }
    }
}

#[test]
fn evolution_sees_the_whole_node() {
    let mut cells = Vec::new();
    let mut seed: u32 = 12345;
    for y in 0..16 {
        for x in 0..16 {
            seed = seed.wrapping_mul(1103515245).wrapping_add(12345);
            if (seed >> 16) % 3 == 0 {
                cells.push((x, y));
            }
        }
    }
    for j in 0..4usize {
        check_evolution(4, j, &cells);
    }
}

#[test]
fn result_is_memoized_whatever_the_budget() {
    let mut sp = Space::new();
    let t = pattern_tree(&mut sp, 5, &[(15, 15), (16, 15), (17, 15), (16, 16), (15, 14)]);
    assert_eq!(t.fetch_node(&sp).next, None);
    let slow = sp.evolve_tree(t, 0);
    assert_eq!(t.fetch_node(&sp).next, Some(slow));
    let handles = sp.handles();
    let fast = sp.evolve_tree(t, 3);
    assert_eq!(fast, slow);
    assert_eq!(sp.handles(), handles);
    let mut other = Space::new();
    let u = pattern_tree(&mut other, 5, &[(15, 15), (16, 15), (17, 15), (16, 16), (15, 14)]);
    let direct = other.evolve_tree(u, 3);
    assert_ne!(live(&other, direct), live(&sp, slow));
}

#[test]
fn empty_tree_evolves_to_the_empty_tree() {
    let mut sp = Space::new();
    let t = sp.empty_tree(6);
    let r = sp.evolve_tree(t, 4);
    assert_eq!(r, sp.empty_tree(5));
}

#[test]
fn centered_sub_cuts_out_the_middle() {
    let mut sp = Space::new();
    let cells = [(0, 0), (2, 2), (5, 5), (3, 4), (7, 7), (2, 5)];
    let t = pattern_tree(&mut sp, 3, &cells);
    let c = sp.centered_sub(t);
    assert_eq!(c.fetch_from(&sp).level(), 2);
    let mut got = sp.get_coords(c, 2, 2, 0, 0, 7, 7);
    got.sort();
    assert_eq!(got, vec![(2, 2), (2, 5), (3, 4), (5, 5)]);
}

#[test]
fn centered_subsub_cuts_out_the_middle_of_the_middle() {
    let mut sp = Space::new();
    let cells = [(2, 2), (3, 3), (4, 4), (3, 4), (5, 5), (4, 3)];
    let t = pattern_tree(&mut sp, 3, &cells);
    let c = sp.centered_subsub(t);
    assert_eq!(c.fetch_from(&sp).level(), 1);
    let mut got = sp.get_coords(c, 3, 3, 0, 0, 7, 7);
    got.sort();
    assert_eq!(got, vec![(3, 3), (3, 4), (4, 3), (4, 4)]);
}

#[test]
fn centered_horizontal_and_vertical_cut_out_the_window_between() {
    let mut sp = Space::new();
    let west = pattern_tree(&mut sp, 2, &[(3, 1), (3, 2), (2, 1), (0, 0)]);
    let east = pattern_tree(&mut sp, 2, &[(0, 1), (0, 2), (1, 2), (3, 3)]);
    let h = sp.centered_horizontal(west, east);
    assert_eq!(h.fetch_from(&sp).level(), 1);
    assert_eq!(sp.get_tree_cell(h, 0, 0), 1);
    assert_eq!(sp.get_tree_cell(h, 0, 1), 1);
    assert_eq!(sp.get_tree_cell(h, 1, 0), 1);
    assert_eq!(sp.get_tree_cell(h, 1, 1), 1);
    let north = pattern_tree(&mut sp, 2, &[(1, 0), (2, 0), (0, 3)]);
    let south = pattern_tree(&mut sp, 2, &[(1, 3), (3, 0)]);
    let v = sp.centered_vertical(north, south);
    assert_eq!(sp.get_tree_cell(v, 0, 0), 1);
    assert_eq!(sp.get_tree_cell(v, 1, 0), 0);
    assert_eq!(sp.get_tree_cell(v, 0, 1), 1);
    assert_eq!(sp.get_tree_cell(v, 1, 1), 1);
}
