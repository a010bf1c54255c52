//! Conway's Game of Life on the unbounded plane, as the evolution is
//! measured against.

use vstd::prelude::*;

verus! {

/// A configuration of the plane: whether the cell at `(x, y)` is alive.
pub type Grid = spec_fn(int, int) -> bool;

/// 1 for a live cell, 0 for a dead one.
pub open spec fn alive(g: Grid, x: int, y: int) -> nat {
    if g(x, y) {
        1
    } else {
        0
    }
}

/// The number of live cells among the eight neighbours of `(x, y)`.
pub open spec fn neighbours(g: Grid, x: int, y: int) -> nat {
    alive(g, x - 1, y - 1) + alive(g, x, y - 1) + alive(g, x + 1, y - 1) + alive(g, x - 1, y)
        + alive(g, x + 1, y) + alive(g, x - 1, y + 1) + alive(g, x, y + 1) + alive(
        g,
        x + 1,
        y + 1,
    )
}

/// The transition rule: a cell is alive in the next generation when it has
/// exactly three live neighbours, or has exactly two and is alive now.
pub open spec fn rule(centre: bool, n: nat) -> bool {
    n == 3 || (n == 2 && centre)
}

/// The next generation.
pub open spec fn step(g: Grid) -> Grid {
    |x: int, y: int| rule(g(x, y), neighbours(g, x, y))
}

/// The configuration after `t` generations.
pub open spec fn steps(g: Grid, t: nat) -> Grid
    decreases t,
{
    if t == 0 {
        g
    } else {
        step(steps(g, (t - 1) as nat))
    }
}

/// Generations add up.
pub proof fn lemma_steps_add(g: Grid, a: nat, b: nat)
    ensures
        steps(g, a + b) == steps(steps(g, a), b),
    decreases b,
{
    if b > 0 {
        lemma_steps_add(g, a, (b - 1) as nat);
        assert(steps(g, a + b) == step(steps(g, (a + b - 1) as nat)));
    }
}

} // verus!
