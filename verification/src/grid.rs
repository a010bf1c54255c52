//! Trees as grids of cells: the cell model, positional reads and writes,
//! empty trees, frame growth and the enumeration of live cells.

use crate::node::{Leaf, Node, QTree, ID};
use crate::pow2::{
    half_side, lemma_side_bounds_level, lemma_side_is_pow, lemma_side_monotonic, side,
};
use crate::space::Space;
use vstd::prelude::*;

verus! {

/// The positions held in a vector of coordinate pairs.
pub open spec fn points(v: Seq<(i32, i32)>) -> Seq<(int, int)> {
    v.map_values(|p: (i32, i32)| (p.0 as int, p.1 as int))
}

impl Node {
    /// The child that covers the given half of each axis.
    pub open spec fn quadrant(&self, east: bool, north: bool) -> ID {
        if north {
            if east {
                self.north_east
            } else {
                self.north_west
            }
        } else {
            if east {
                self.south_east
            } else {
                self.south_west
            }
        }
    }
}

impl Space {
    /// The state of the cell at `(x, y)` of the tree behind `id`, in the
    /// tree's own coordinates: the origin is its south-west corner, `x`
    /// grows eastwards and `y` northwards. A terminal node is its one cell,
    /// whatever the coordinates.
    pub open spec fn cell(&self, id: ID, x: int, y: int) -> nat
        decreases self.level(id),
    {
        match self.node(id) {
            QTree::Leaf(l) => l.0 as nat,
            QTree::Node(n) => {
                let d = side((n.level - 1) as nat) as int;
                let c = n.quadrant(x >= d, y >= d);
                if self.level(c) < n.level {
                    self.cell(
                        c,
                        if x >= d {
                            x - d
                        } else {
                            x
                        },
                        if y >= d {
                            y - d
                        } else {
                            y
                        },
                    )
                } else {
                    0
                }
            },
        }
    }

    /// Whether `(x, y)` lies in the square that the tree behind `id`
    /// covers.
    pub open spec fn covers(&self, id: ID, x: int, y: int) -> bool {
        0 <= x < side(self.level(id)) && 0 <= y < side(self.level(id))
    }

    /// The cell of an internal node is the cell of the quadrant that holds
    /// it, at the position rebased to that quadrant.
    pub proof fn lemma_cell_unfold(&self, id: ID, x: int, y: int)
        requires
            self.node(id) is Node,
            self.children_ok(self.node(id)->Node_0),
        ensures
            ({
                let n = self.node(id)->Node_0;
                let d = side((n.level - 1) as nat) as int;
                self.cell(id, x, y) == self.cell(
                    n.quadrant(x >= d, y >= d),
                    if x >= d {
                        x - d
                    } else {
                        x
                    },
                    if y >= d {
                        y - d
                    } else {
                        y
                    },
                )
            }),
    {
    }

    /// The cells of a tree do not change when the store grows.
    pub proof fn lemma_cells_grow(&self, old: &Space, id: ID)
        requires
            old.wf(),
            self.grows_from(old),
            old.contains(id),
        ensures
            forall|x: int, y: int| #[trigger] self.cell(id, x, y) == old.cell(id, x, y),
        decreases old.level(id),
    {
        reveal(Space::grows_from);
        assert(old.node_ok(id));
        match old.node(id) {
            QTree::Leaf(l) => {},
            QTree::Node(n) => {
                self.lemma_cells_grow(old, n.north_west);
                self.lemma_cells_grow(old, n.north_east);
                self.lemma_cells_grow(old, n.south_west);
                self.lemma_cells_grow(old, n.south_east);
                assert forall|x: int, y: int| #[trigger]
                    self.cell(id, x, y) == old.cell(id, x, y) by {
                    let d = side((n.level - 1) as nat) as int;
                    let c = n.quadrant(x >= d, y >= d);
                    assert(old.contains(c));
                    old.lemma_cell_unfold(id, x, y);
                    assert(self.node(id).same_structure(&old.node(id)));
                    let m = self.node(id)->Node_0;
                    assert(m.quadrant(x >= d, y >= d) == c);
                    assert(old.contains(n.north_west) && old.contains(n.north_east)
                        && old.contains(n.south_west) && old.contains(n.south_east));
                    assert(self.children_ok(m));
                    self.lemma_cell_unfold(id, x, y);
                }
            },
        }
    }

    /// Every cell of a tree in a well-formed store is dead or alive.
    pub proof fn lemma_cell_binary(&self, id: ID)
        requires
            self.wf(),
            self.contains(id),
        ensures
            forall|x: int, y: int| #[trigger] self.cell(id, x, y) <= 1,
        decreases self.level(id),
    {
        assert(self.node_ok(id));
        match self.node(id) {
            QTree::Leaf(l) => {},
            QTree::Node(n) => {
                self.lemma_cell_binary(n.north_west);
                self.lemma_cell_binary(n.north_east);
                self.lemma_cell_binary(n.south_west);
                self.lemma_cell_binary(n.south_east);
                assert forall|x: int, y: int| #[trigger] self.cell(id, x, y) <= 1 by {
                    self.lemma_cell_unfold(id, x, y);
                }
            },
        }
    }

    /// A tree without population has no live cell.
    pub proof fn lemma_no_population(&self, id: ID)
        requires
            self.wf(),
            self.contains(id),
            self.population(id) == 0,
        ensures
            forall|x: int, y: int| #[trigger] self.cell(id, x, y) == 0,
        decreases self.level(id),
    {
        assert(self.node_ok(id));
        match self.node(id) {
            QTree::Leaf(l) => {},
            QTree::Node(n) => {
                self.lemma_no_population(n.north_west);
                self.lemma_no_population(n.north_east);
                self.lemma_no_population(n.south_west);
                self.lemma_no_population(n.south_east);
                assert forall|x: int, y: int| #[trigger] self.cell(id, x, y) == 0 by {
                    self.lemma_cell_unfold(id, x, y);
                }
            },
        }
    }

    /// A tree without a live cell has no population.
    pub proof fn lemma_dead_no_population(&self, id: ID)
        requires
            self.wf(),
            self.contains(id),
            forall|x: int, y: int| self.covers(id, x, y) ==> #[trigger] self.cell(id, x, y) == 0,
        ensures
            self.population(id) == 0,
        decreases self.level(id),
    {
        assert(self.node_ok(id));
        match self.node(id) {
            QTree::Leaf(l) => {
                assert(self.covers(id, 0, 0));
                assert(self.cell(id, 0, 0) == 0);
            },
            QTree::Node(n) => {
                let d = side((n.level - 1) as nat) as int;
                assert(side(n.level as nat) == 2 * d);
                assert forall|east: bool, north: bool|
                    self.population(#[trigger] n.quadrant(east, north)) == 0 by {
                    let c = n.quadrant(east, north);
                    assert forall|x: int, y: int| self.covers(c, x, y) implies #[trigger] self.cell(
                        c,
                        x,
                        y,
                    ) == 0 by {
                        let px = if east {
                            x + d
                        } else {
                            x
                        };
                        let py = if north {
                            y + d
                        } else {
                            y
                        };
                        self.lemma_cell_unfold(id, px, py);
                        assert(self.covers(id, px, py));
                    }
                    self.lemma_dead_no_population(c);
                }
                assert(self.population(n.quadrant(false, true)) == 0);
                assert(self.population(n.quadrant(true, true)) == 0);
                assert(self.population(n.quadrant(false, false)) == 0);
                assert(self.population(n.quadrant(true, false)) == 0);
            },
        }
    }

    /// The positions of the live cells of the tree, in its own
    /// coordinates.
    pub open spec fn live_set(&self, id: ID) -> Set<(int, int)> {
        Set::new(|p: (int, int)| self.covers(id, p.0, p.1) && self.cell(id, p.0, p.1) != 0)
    }

    /// The live cells of one quadrant of the tree, in the tree's own
    /// coordinates.
    pub open spec fn live_quadrant(&self, id: ID, east: bool, north: bool) -> Set<(int, int)> {
        let d = side((self.level(id) - 1) as nat) as int;
        Set::new(
            |p: (int, int)| self.live_set(id).contains(p) && (p.0 >= d) == east && (p.1 >= d) == north,
        )
    }

    /// The live cells of a quadrant are the live cells of the child that
    /// covers it, moved to the quadrant's place, and as many.
    proof fn lemma_live_quadrant(&self, id: ID, east: bool, north: bool)
        requires
            self.wf(),
            self.contains(id),
            self.level(id) >= 1,
            ({
                let c = self.node(id)->Node_0.quadrant(east, north);
                self.live_set(c).finite() && self.live_set(c).len() == self.population(c)
            }),
        ensures
            self.live_quadrant(id, east, north).finite(),
            self.live_quadrant(id, east, north).len() == self.population(
                self.node(id)->Node_0.quadrant(east, north),
            ),
    {
        self.lemma_quadrants(id);
        let n = self.node(id)->Node_0;
        let c = n.quadrant(east, north);
        let d = side((self.level(id) - 1) as nat) as int;
        assert(side(self.level(id)) == 2 * d);
        let ex = if east {
            d
        } else {
            0
        };
        let ny = if north {
            d
        } else {
            0
        };
        let f = |p: (int, int)| (p.0 + ex, p.1 + ny);
        let moved = self.live_set(c).map(f);
        let part = self.live_quadrant(id, east, north);
        assert forall|p: (int, int)| moved.contains(p) == part.contains(p) by {
            if moved.contains(p) {
                let q = choose|q: (int, int)| self.live_set(c).contains(q) && p == f(q);
                self.lemma_cell_unfold(id, p.0, p.1);
            }
            if part.contains(p) {
                let q = (p.0 - ex, p.1 - ny);
                self.lemma_cell_unfold(id, p.0, p.1);
                assert(self.live_set(c).contains(q) && p == f(q));
            }
        }
        assert(moved =~= part);
        assert(vstd::relations::injective_on(f, self.live_set(c)));
        vstd::set_lib::lemma_map_size(self.live_set(c), part, f);
    }

    /// The population of a tree is the number of its live cells.
    pub proof fn lemma_population_counts(&self, id: ID)
        requires
            self.wf(),
            self.contains(id),
        ensures
            self.live_set(id).finite(),
            self.live_set(id).len() == self.population(id),
        decreases self.level(id),
    {
        assert(self.node_ok(id));
        match self.node(id) {
            QTree::Leaf(l) => {
                if l.0 == 0 {
                    assert(self.live_set(id) =~= Set::empty());
                } else {
                    assert(self.live_set(id) =~= set![(0int, 0int)]);
                }
            },
            QTree::Node(n) => {
                self.lemma_population_counts(n.north_west);
                self.lemma_population_counts(n.north_east);
                self.lemma_population_counts(n.south_west);
                self.lemma_population_counts(n.south_east);
                self.lemma_live_quadrant(id, false, true);
                self.lemma_live_quadrant(id, true, true);
                self.lemma_live_quadrant(id, false, false);
                self.lemma_live_quadrant(id, true, false);
                let nw = self.live_quadrant(id, false, true);
                let ne = self.live_quadrant(id, true, true);
                let sw = self.live_quadrant(id, false, false);
                let se = self.live_quadrant(id, true, false);
                vstd::set_lib::lemma_set_disjoint_lens(nw, ne);
                vstd::set_lib::lemma_set_disjoint_lens(nw + ne, sw);
                vstd::set_lib::lemma_set_disjoint_lens(nw + ne + sw, se);
                assert(self.live_set(id) =~= nw + ne + sw + se);
            },
        }
    }

    /// Canonical form by content: two trees of one level that agree on
    /// every cell of the square they cover are the same handle.
    pub proof fn lemma_same_cells_same_handle(&self, a: ID, b: ID)
        requires
            self.wf(),
            self.contains(a),
            self.contains(b),
            self.level(a) == self.level(b),
            forall|x: int, y: int|
                self.covers(a, x, y) ==> #[trigger] self.cell(a, x, y) == self.cell(b, x, y),
        ensures
            a == b,
        decreases self.level(a),
    {
        assert(self.node_ok(a));
        assert(self.node_ok(b));
        match (self.node(a), self.node(b)) {
            (QTree::Leaf(la), QTree::Leaf(lb)) => {
                assert(self.cell(a, 0, 0) == self.cell(b, 0, 0));
                self.lemma_canonical(a, b);
            },
            (QTree::Node(na), QTree::Node(nb)) => {
                let d = side((na.level - 1) as nat) as int;
                assert(side(na.level as nat) == 2 * d);
                assert forall|east: bool, north: bool|
                    na.quadrant(east, north) == nb.quadrant(east, north) by {
                    let ca = na.quadrant(east, north);
                    let cb = nb.quadrant(east, north);
                    assert forall|x: int, y: int| self.covers(ca, x, y) implies #[trigger]
                        self.cell(ca, x, y) == self.cell(cb, x, y) by {
                        let px = if east {
                            x + d
                        } else {
                            x
                        };
                        let py = if north {
                            y + d
                        } else {
                            y
                        };
                        assert(self.covers(a, px, py));
                        assert(self.cell(a, px, py) == self.cell(b, px, py));
                        assert(self.cell(a, px, py) == self.cell(ca, x, y));
                        assert(self.cell(b, px, py) == self.cell(cb, x, y));
                    }
                    self.lemma_same_cells_same_handle(ca, cb);
                }
                assert(na.quadrant(false, true) == nb.quadrant(false, true));
                assert(na.quadrant(true, true) == nb.quadrant(true, true));
                assert(na.quadrant(false, false) == nb.quadrant(false, false));
                assert(na.quadrant(true, false) == nb.quadrant(true, false));
                self.lemma_canonical(a, b);
            },
            _ => {},
        }
    }

    /// Reads the cell at `(x, y)` of the tree.
    pub fn get_tree_cell(&self, tree_id: ID, x: usize, y: usize) -> (r: usize)
        requires
            self.wf(),
            self.contains(tree_id),
            self.covers(tree_id, x as int, y as int),
            side(self.level(tree_id)) <= usize::MAX,
        ensures
            r == self.cell(tree_id, x as int, y as int),
        decreases self.level(tree_id),
    {
        match tree_id.fetch_from(self) {
            QTree::Leaf(c) => c.0,
            QTree::Node(n) => {
                proof {
                    assert(self.node_ok(tree_id));
                }
                let dim = half_side(n.level);
                if x < dim && y < dim {
                    self.get_tree_cell(n.south_west, x, y)
                } else if x < dim && y >= dim {
                    self.get_tree_cell(n.north_west, x, y - dim)
                } else if x >= dim && y < dim {
                    self.get_tree_cell(n.south_east, x - dim, y)
                } else {
                    self.get_tree_cell(n.north_east, x - dim, y - dim)
                }
            },
        }
    }

    /// Whether the tree `r` of the store `new` is the tree `tree` of the
    /// store `old` with the cell at `(x, y)` set to `state`.
    pub open spec fn is_update_of(
        new: &Space,
        r: ID,
        old: &Space,
        tree: ID,
        x: int,
        y: int,
        state: nat,
    ) -> bool {
        &&& new.contains(r)
        &&& new.level(r) == old.level(tree)
        &&& new.population(r) + old.cell(tree, x, y) == old.population(tree) + state
        &&& forall|x2: int, y2: int|
            old.covers(tree, x2, y2) ==> #[trigger] new.cell(r, x2, y2) == (if x2 == x && y2 == y {
                state
            } else {
                old.cell(tree, x2, y2)
            })
        &&& old.cell(tree, x, y) == state ==> r == tree
    }

    /// Reading back what was written gives the state written, and reading
    /// any other cell gives what it held before.
    pub proof fn lemma_update_round_trip(
        new: &Space,
        r: ID,
        old: &Space,
        tree: ID,
        x: int,
        y: int,
        state: nat,
        x2: int,
        y2: int,
    )
        requires
            Self::is_update_of(new, r, old, tree, x, y, state),
            old.covers(tree, x, y),
            old.covers(tree, x2, y2),
        ensures
            new.cell(r, x, y) == state,
            (x2 != x || y2 != y) ==> new.cell(r, x2, y2) == old.cell(tree, x2, y2),
    {
    }

    /// Replacing the quadrant that holds `(x, y)` by its update gives the
    /// update of the whole node.
    proof fn lemma_update_quadrant(
        new: &Space,
        r: ID,
        mid: &Space,
        sub: ID,
        old: &Space,
        tree: ID,
        x: int,
        y: int,
        state: nat,
    )
        requires
            old.wf(),
            mid.wf(),
            new.wf(),
            mid.extends(old),
            new.extends(mid),
            old.contains(tree),
            old.covers(tree, x, y),
            old.node(tree) is Node,
            new.contains(r),
            new.node(r) is Node,
            ({
                let n = old.node(tree)->Node_0;
                let m = new.node(r)->Node_0;
                let d = side((n.level - 1) as nat) as int;
                let east = x >= d;
                let north = y >= d;
                &&& m.quadrant(east, north) == sub
                &&& m.quadrant(!east, north) == n.quadrant(!east, north)
                &&& m.quadrant(east, !north) == n.quadrant(east, !north)
                &&& m.quadrant(!east, !north) == n.quadrant(!east, !north)
                &&& Self::is_update_of(
                    mid,
                    sub,
                    old,
                    n.quadrant(east, north),
                    if east {
                        x - d
                    } else {
                        x
                    },
                    if north {
                        y - d
                    } else {
                        y
                    },
                    state,
                )
            }),
        ensures
            Self::is_update_of(new, r, old, tree, x, y, state),
    {
        let n = old.node(tree)->Node_0;
        let m = new.node(r)->Node_0;
        let d = side((n.level - 1) as nat) as int;
        let east = x >= d;
        let north = y >= d;
        let child = n.quadrant(east, north);
        let cx = if east {
            x - d
        } else {
            x
        };
        let cy = if north {
            y - d
        } else {
            y
        };
        assert(old.node_ok(tree));
        assert(new.node_ok(r));
        assert(side(n.level as nat) == 2 * d);
        new.lemma_extends_trans(mid, old);
        new.lemma_extends_grows(old);
        new.lemma_extends_grows(mid);
        new.lemma_cells_grow(old, n.north_west);
        new.lemma_cells_grow(old, n.north_east);
        new.lemma_cells_grow(old, n.south_west);
        new.lemma_cells_grow(old, n.south_east);
        new.lemma_cells_grow(mid, sub);
        old.lemma_cell_unfold(tree, x, y);
        assert(old.contains(n.north_west) && old.contains(n.north_east) && old.contains(
            n.south_west,
        ) && old.contains(n.south_east));
        assert(new.level(sub) == mid.level(sub));
        assert(new.population(sub) == mid.population(sub));
        assert(m.level == n.level);
        assert forall|x2: int, y2: int| old.covers(tree, x2, y2) implies #[trigger] new.cell(
            r,
            x2,
            y2,
        ) == (if x2 == x && y2 == y {
            state
        } else {
            old.cell(tree, x2, y2)
        }) by {
            new.lemma_cell_unfold(r, x2, y2);
            old.lemma_cell_unfold(tree, x2, y2);
            let e2 = x2 >= d;
            let n2 = y2 >= d;
            let cx2 = if e2 {
                x2 - d
            } else {
                x2
            };
            let cy2 = if n2 {
                y2 - d
            } else {
                y2
            };
            if e2 == east && n2 == north {
                assert(old.covers(child, cx2, cy2));
                assert(mid.cell(sub, cx2, cy2) == new.cell(sub, cx2, cy2));
            } else {
                let c2 = n.quadrant(e2, n2);
                assert(m.quadrant(e2, n2) == c2);
                assert(new.cell(c2, cx2, cy2) == old.cell(c2, cx2, cy2));
            }
        }
        if old.cell(tree, x, y) == state {
            assert(sub == child);
            assert(new.node(tree) == old.node(tree));
            assert(m.same_children(&n));
            new.lemma_canonical(r, tree);
        }
    }

    /// Returns the tree that differs from `tree` in the cell at `(x, y)`
    /// alone, which it shows in state `pop2`. No node is changed: the nodes
    /// on the way to the cell are built anew, and the rest is shared.
    pub fn set_tree_pos(&mut self, tree: ID, x: usize, y: usize, pop2: usize) -> (r: ID)
        requires
            old(self).wf(),
            old(self).contains(tree),
            old(self).covers(tree, x as int, y as int),
            side(old(self).level(tree)) <= usize::MAX,
            pop2 <= 1,
            old(self).population(tree) + pop2 <= usize::MAX + old(self).cell(
                tree,
                x as int,
                y as int,
            ),
        ensures
            final(self).wf(),
            final(self).extends(old(self)),
            Self::is_update_of(final(self), r, old(self), tree, x as int, y as int, pop2 as nat),
        decreases old(self).level(tree),
    {
        proof {
            assert(old(self).node_ok(tree));
            old(self).lemma_cell_binary(tree);
        }
        match tree.fetch_from(self) {
            QTree::Leaf(_) => {
                let r = self.new_leaf(pop2);
                proof {
                    if old(self).cell(tree, x as int, y as int) == pop2 {
                        assert(self.node(tree) == old(self).node(tree));
                        self.lemma_canonical(r, tree);
                    }
                }
                r
            },
            QTree::Node(n) => {
                let dim = half_side(n.level);
                proof {
                    old(self).lemma_cell_unfold(tree, x as int, y as int);
                    assert(side(n.level as nat) == 2 * dim);
                    lemma_side_monotonic((n.level - 1) as nat, n.level as nat);
                    assert(old(self).node_ok(n.north_west));
                    assert(old(self).node_ok(n.north_east));
                    assert(old(self).node_ok(n.south_west));
                    assert(old(self).node_ok(n.south_east));
                }
                if x < dim && y < dim {
                    let new_sw = self.set_tree_pos(n.south_west, x, y, pop2);
                    let ghost mid = *self;
                    let r = self.new_node(n.north_west, n.north_east, new_sw, n.south_east);
                    proof {
                        self.lemma_extends_trans(&mid, old(self));
                        Self::lemma_update_quadrant(
                            self,
                            r,
                            &mid,
                            new_sw,
                            old(self),
                            tree,
                            x as int,
                            y as int,
                            pop2 as nat,
                        );
                    }
                    r
                } else if x < dim && y >= dim {
                    let new_nw = self.set_tree_pos(n.north_west, x, y - dim, pop2);
                    let ghost mid = *self;
                    let r = self.new_node(new_nw, n.north_east, n.south_west, n.south_east);
                    proof {
                        self.lemma_extends_trans(&mid, old(self));
                        Self::lemma_update_quadrant(
                            self,
                            r,
                            &mid,
                            new_nw,
                            old(self),
                            tree,
                            x as int,
                            y as int,
                            pop2 as nat,
                        );
                    }
                    r
                } else if x >= dim && y < dim {
                    let new_se = self.set_tree_pos(n.south_east, x - dim, y, pop2);
                    let ghost mid = *self;
                    let r = self.new_node(n.north_west, n.north_east, n.south_west, new_se);
                    proof {
                        self.lemma_extends_trans(&mid, old(self));
                        Self::lemma_update_quadrant(
                            self,
                            r,
                            &mid,
                            new_se,
                            old(self),
                            tree,
                            x as int,
                            y as int,
                            pop2 as nat,
                        );
                    }
                    r
                } else {
                    let new_ne = self.set_tree_pos(n.north_east, x - dim, y - dim, pop2);
                    let ghost mid = *self;
                    let r = self.new_node(n.north_west, new_ne, n.south_west, n.south_east);
                    proof {
                        self.lemma_extends_trans(&mid, old(self));
                        Self::lemma_update_quadrant(
                            self,
                            r,
                            &mid,
                            new_ne,
                            old(self),
                            tree,
                            x as int,
                            y as int,
                            pop2 as nat,
                        );
                    }
                    r
                }
            },
        }
    }

    /// Whether `id` stands for a tree of the given level without
    /// population.
    pub open spec fn is_empty_tree(&self, id: ID, level: nat) -> bool {
        self.contains(id) && self.level(id) == level && self.population(id) == 0
    }

    /// Whether the store holds a tree of the given level without
    /// population.
    pub open spec fn has_empty_tree(&self, level: nat) -> bool {
        exists|id: ID| #[trigger] self.is_empty_tree(id, level)
    }

    /// Returns the tree of the given level without a live cell. Each level
    /// is one node whose four children are the empty tree below it, so that
    /// at most `level + 1` handles are issued, and none where the store
    /// holds the tree already.
    pub fn empty_tree(&mut self, level: usize) -> (r: ID)
        requires
            old(self).wf(),
        ensures
            final(self).wf(),
            final(self).extends(old(self)),
            final(self).contains(r),
            final(self).level(r) == level,
            final(self).population(r) == 0,
            forall|x: int, y: int| #[trigger] final(self).cell(r, x, y) == 0,
            final(self).len() <= old(self).len() + level + 1,
            old(self).has_empty_tree(level as nat) ==> *final(self) == *old(self),
        decreases level,
    {
        let r = if level == 0 {
            proof {
                if self.has_empty_tree(0) {
                    let w = choose|w: ID| #[trigger] self.is_empty_tree(w, 0);
                    assert(self.node_ok(w));
                    assert(self.node(w) == QTree::Leaf(Leaf(0)));
                }
            }
            self.new_leaf(0)
        } else {
            proof {
                if self.has_empty_tree(level as nat) {
                    let w = choose|w: ID| #[trigger] self.is_empty_tree(w, level as nat);
                    self.lemma_quadrants(w);
                    let n = self.node(w)->Node_0;
                    assert(self.is_empty_tree(n.quadrant(false, true), (level - 1) as nat));
                }
            }
            let c = self.empty_tree(level - 1);
            let ghost mid = *self;
            proof {
                if old(self).has_empty_tree(level as nat) {
                    let w = choose|w: ID| #[trigger] old(self).is_empty_tree(w, level as nat);
                    self.lemma_quadrants(w);
                    let n = self.node(w)->Node_0;
                    assert forall|east: bool, north: bool| #[trigger]
                        n.quadrant(east, north) == c by {
                        let k = n.quadrant(east, north);
                        self.lemma_no_population(k);
                        self.lemma_same_cells_same_handle(c, k);
                    }
                    assert(n.quadrant(false, true) == c && n.quadrant(true, true) == c);
                    assert(n.quadrant(false, false) == c && n.quadrant(true, false) == c);
                    assert(self.is_node_of(w, c, c, c, c));
                }
            }
            let r = self.new_node(c, c, c, c);
            proof {
                self.lemma_extends_trans(&mid, old(self));
            }
            r
        };
        proof {
            self.lemma_no_population(r);
        }
        r
    }

    /// Whether the tree `r` of the store `new` is the tree `tree` of the
    /// store `old` with a ring of dead cells around it: twice the side,
    /// with the cells of `tree` in the middle.
    pub open spec fn is_expansion_of(new: &Space, r: ID, old: &Space, tree: ID) -> bool {
        let s = side(old.level(tree)) as int;
        let h = s / 2;
        &&& new.contains(r)
        &&& new.level(r) == old.level(tree) + 1
        &&& new.population(r) == old.population(tree)
        &&& forall|x: int, y: int|
            new.covers(r, x, y) ==> #[trigger] new.cell(r, x, y) == (if h <= x < h + s && h <= y < h
                + s {
                old.cell(tree, x - h, y - h)
            } else {
                0
            })
    }

    /// Returns the tree one level above `tree_id` that shows the cells of
    /// `tree_id` in its middle and dead cells around them. A frame that
    /// replaces `tree_id` by the result keeps every cell in place by
    /// moving its origin back by half the side of `tree_id` on both axes.
    pub fn expand_tree(&mut self, tree_id: ID) -> (r: ID)
        requires
            old(self).wf(),
            old(self).contains(tree_id),
            old(self).level(tree_id) >= 1,
        ensures
            final(self).wf(),
            final(self).extends(old(self)),
            Self::is_expansion_of(final(self), r, old(self), tree_id),
            final(self).len() <= old(self).len() + old(self).level(tree_id) + 5,
    {
        proof {
            assert(old(self).node_ok(tree_id));
        }
        let level = tree_id.fetch_node(self).level;
        let border = self.empty_tree(level - 1);
        let ghost s1 = *self;
        let root = tree_id.fetch_node(self);
        let (root_nw, root_ne, root_sw, root_se) = (
            root.north_west,
            root.north_east,
            root.south_west,
            root.south_east,
        );
        proof {
            assert(old(self).contains(root_nw) && old(self).contains(root_ne));
            assert(old(self).contains(root_sw) && old(self).contains(root_se));
        }
        let nw = self.new_node(border, border, border, root_nw);
        let ghost s2 = *self;
        let ne = self.new_node(border, border, root_ne, border);
        let ghost s3 = *self;
        proof {
            self.lemma_extends_trans(&s2, &s1);
        }
        let sw = self.new_node(border, root_sw, border, border);
        let ghost s4 = *self;
        proof {
            self.lemma_extends_trans(&s3, &s1);
        }
        let se = self.new_node(root_se, border, border, border);
        let ghost s5 = *self;
        proof {
            self.lemma_extends_trans(&s4, &s1);
            self.lemma_extends_trans(&s4, &s2);
            self.lemma_extends_trans(&s4, &s3);
        }
        let r = self.new_node(nw, ne, sw, se);
        proof {
            self.lemma_extends_trans(&s5, &s1);
            self.lemma_extends_trans(&s5, &s2);
            self.lemma_extends_trans(&s5, &s3);
            self.lemma_extends_trans(&s5, &s4);
            self.lemma_extends_trans(&s1, old(self));
            self.lemma_extends_grows(old(self));
            self.lemma_extends_grows(&s1);
            self.lemma_cells_grow(old(self), root_nw);
            self.lemma_cells_grow(old(self), root_ne);
            self.lemma_cells_grow(old(self), root_sw);
            self.lemma_cells_grow(old(self), root_se);
            self.lemma_cells_grow(&s1, border);
            let s = side(level as nat) as int;
            let h = side((level - 1) as nat) as int;
            assert(s == 2 * h);
            assert(side((level + 1) as nat) == 2 * s);
            assert forall|x: int, y: int| self.covers(r, x, y) implies #[trigger] self.cell(
                r,
                x,
                y,
            ) == (if h <= x < h + s && h <= y < h + s {
                old(self).cell(tree_id, x - h, y - h)
            } else {
                0
            }) by {
                self.lemma_cell_unfold(r, x, y);
                let qx = if x >= s {
                    x - s
                } else {
                    x
                };
                let qy = if y >= s {
                    y - s
                } else {
                    y
                };
                let q = self.node(r)->Node_0.quadrant(x >= s, y >= s);
                assert(self.node_ok(q));
                self.lemma_cell_unfold(q, qx, qy);
                if h <= x < h + s && h <= y < h + s {
                    old(self).lemma_cell_unfold(tree_id, x - h, y - h);
                }
            }
        }
        r
    }

    /// The live cells of the tree behind `id`, whose south-west corner
    /// stands at `(xo, yo)`, that lie in the closed box from `(x0, y0)` to
    /// `(x1, y1)`: their absolute positions, in quadrant order. At each
    /// node the cells of the north-west quadrant come first, then those of
    /// the north-east, the south-west and the south-east.
    pub open spec fn live_cells(
        &self,
        id: ID,
        xo: int,
        yo: int,
        x0: int,
        y0: int,
        x1: int,
        y1: int,
    ) -> Seq<(int, int)>
        decreases self.level(id),
    {
        match self.node(id) {
            QTree::Leaf(l) => if l.0 != 0 && x0 <= xo <= x1 && y0 <= yo <= y1 {
                seq![(xo, yo)]
            } else {
                Seq::empty()
            },
            QTree::Node(n) => {
                let d = side((n.level - 1) as nat) as int;
                if self.level(n.north_west) < n.level && self.level(n.north_east) < n.level
                    && self.level(n.south_west) < n.level && self.level(n.south_east) < n.level {
                    self.live_cells(n.north_west, xo, yo + d, x0, y0, x1, y1) + self.live_cells(
                        n.north_east,
                        xo + d,
                        yo + d,
                        x0,
                        y0,
                        x1,
                        y1,
                    ) + self.live_cells(n.south_west, xo, yo, x0, y0, x1, y1) + self.live_cells(
                        n.south_east,
                        xo + d,
                        yo,
                        x0,
                        y0,
                        x1,
                        y1,
                    )
                } else {
                    Seq::empty()
                }
            },
        }
    }

    /// Every position that is listed lies in the tree's square and in the
    /// box, and holds a live cell.
    pub proof fn lemma_live_cells_sound(
        &self,
        id: ID,
        xo: int,
        yo: int,
        x0: int,
        y0: int,
        x1: int,
        y1: int,
    )
        requires
            self.wf(),
            self.contains(id),
        ensures
            forall|i: int|
                #![trigger self.live_cells(id, xo, yo, x0, y0, x1, y1)[i]]
                0 <= i < self.live_cells(id, xo, yo, x0, y0, x1, y1).len() ==> {
                    let p = self.live_cells(id, xo, yo, x0, y0, x1, y1)[i];
                    &&& self.covers(id, p.0 - xo, p.1 - yo)
                    &&& self.cell(id, p.0 - xo, p.1 - yo) == 1
                    &&& x0 <= p.0 <= x1
                    &&& y0 <= p.1 <= y1
                },
        decreases self.level(id),
    {
        assert(self.node_ok(id));
        match self.node(id) {
            QTree::Leaf(l) => {},
            QTree::Node(n) => {
                let d = side((n.level - 1) as nat) as int;
                assert(side(n.level as nat) == 2 * d);
                self.lemma_live_cells_sound(n.north_west, xo, yo + d, x0, y0, x1, y1);
                self.lemma_live_cells_sound(n.north_east, xo + d, yo + d, x0, y0, x1, y1);
                self.lemma_live_cells_sound(n.south_west, xo, yo, x0, y0, x1, y1);
                self.lemma_live_cells_sound(n.south_east, xo + d, yo, x0, y0, x1, y1);
                let all = self.live_cells(id, xo, yo, x0, y0, x1, y1);
                let a = self.live_cells(n.north_west, xo, yo + d, x0, y0, x1, y1);
                let b = self.live_cells(n.north_east, xo + d, yo + d, x0, y0, x1, y1);
                let c = self.live_cells(n.south_west, xo, yo, x0, y0, x1, y1);
                let e = self.live_cells(n.south_east, xo + d, yo, x0, y0, x1, y1);
                assert forall|i: int| 0 <= i < all.len() implies {
                    let p = #[trigger] all[i];
                    &&& self.covers(id, p.0 - xo, p.1 - yo)
                    &&& self.cell(id, p.0 - xo, p.1 - yo) == 1
                    &&& x0 <= p.0 <= x1
                    &&& y0 <= p.1 <= y1
                } by {
                    let p = all[i];
                    assert(all == a + b + c + e);
                    self.lemma_cell_unfold(id, p.0 - xo, p.1 - yo);
                    if i < a.len() {
                        assert(p == a[i]);
                    } else if i < a.len() + b.len() {
                        assert(p == b[i - a.len()]);
                    } else if i < a.len() + b.len() + c.len() {
                        assert(p == c[i - a.len() - b.len()]);
                    } else {
                        assert(p == e[i - a.len() - b.len() - c.len()]);
                    }
                }
            },
        }
    }

    /// Every live cell of the tree that lies in the query box is listed.
    pub proof fn lemma_live_cells_complete(
        &self,
        id: ID,
        xo: int,
        yo: int,
        x0: int,
        y0: int,
        x1: int,
        y1: int,
        px: int,
        py: int,
    )
        requires
            self.wf(),
            self.contains(id),
            self.covers(id, px - xo, py - yo),
            self.cell(id, px - xo, py - yo) != 0,
            x0 <= px <= x1,
            y0 <= py <= y1,
        ensures
            self.live_cells(id, xo, yo, x0, y0, x1, y1).contains((px, py)),
        decreases self.level(id),
    {
        assert(self.node_ok(id));
        let all = self.live_cells(id, xo, yo, x0, y0, x1, y1);
        match self.node(id) {
            QTree::Leaf(l) => {
                assert(all[0] == (px, py));
            },
            QTree::Node(n) => {
                let d = side((n.level - 1) as nat) as int;
                assert(side(n.level as nat) == 2 * d);
                self.lemma_cell_unfold(id, px - xo, py - yo);
                let a = self.live_cells(n.north_west, xo, yo + d, x0, y0, x1, y1);
                let b = self.live_cells(n.north_east, xo + d, yo + d, x0, y0, x1, y1);
                let c = self.live_cells(n.south_west, xo, yo, x0, y0, x1, y1);
                let e = self.live_cells(n.south_east, xo + d, yo, x0, y0, x1, y1);
                assert(all == a + b + c + e);
                if px - xo < d && py - yo >= d {
                    self.lemma_live_cells_complete(
                        n.north_west,
                        xo,
                        yo + d,
                        x0,
                        y0,
                        x1,
                        y1,
                        px,
                        py,
                    );
                    let i = choose|i: int| 0 <= i < a.len() && a[i] == (px, py);
                    assert(all[i] == (px, py));
                } else if px - xo >= d && py - yo >= d {
                    self.lemma_live_cells_complete(
                        n.north_east,
                        xo + d,
                        yo + d,
                        x0,
                        y0,
                        x1,
                        y1,
                        px,
                        py,
                    );
                    let i = choose|i: int| 0 <= i < b.len() && b[i] == (px, py);
                    assert(all[a.len() + i] == (px, py));
                } else if px - xo < d && py - yo < d {
                    self.lemma_live_cells_complete(n.south_west, xo, yo, x0, y0, x1, y1, px, py);
                    let i = choose|i: int| 0 <= i < c.len() && c[i] == (px, py);
                    assert(all[a.len() + b.len() + i] == (px, py));
                } else {
                    self.lemma_live_cells_complete(
                        n.south_east,
                        xo + d,
                        yo,
                        x0,
                        y0,
                        x1,
                        y1,
                        px,
                        py,
                    );
                    let i = choose|i: int| 0 <= i < e.len() && e[i] == (px, py);
                    assert(all[a.len() + b.len() + c.len() + i] == (px, py));
                }
            },
        }
    }

    /// A tree without population, or whose square lies beside the box,
    /// has no live cell in the box.
    pub proof fn lemma_live_cells_none(
        &self,
        id: ID,
        xo: int,
        yo: int,
        x0: int,
        y0: int,
        x1: int,
        y1: int,
    )
        requires
            self.wf(),
            self.contains(id),
            ({
                ||| self.population(id) == 0
                ||| xo > x1
                ||| yo > y1
                ||| xo + side(self.level(id)) <= x0
                ||| yo + side(self.level(id)) <= y0
            }),
        ensures
            self.live_cells(id, xo, yo, x0, y0, x1, y1) == Seq::<(int, int)>::empty(),
    {
        let all = self.live_cells(id, xo, yo, x0, y0, x1, y1);
        self.lemma_live_cells_sound(id, xo, yo, x0, y0, x1, y1);
        if all.len() > 0 {
            let p = all[0];
            if self.population(id) == 0 {
                self.lemma_no_population(id);
            }
            assert(self.cell(id, p.0 - xo, p.1 - yo) == 1);
        }
        assert(all =~= Seq::empty());
    }

    /// Lists the live cells of the tree, whose south-west corner stands at
    /// `(xoffset, yoffset)`, that lie in the closed query box from
    /// `(xstart, ystart)` to `(xend, yend)`, in absolute coordinates and in
    /// quadrant order.
    ///
    /// Squares without population and squares that cannot meet the box are
    /// passed over unread.
    pub fn get_coords(
        &self,
        tree_id: ID,
        xoffset: i32,
        yoffset: i32,
        xstart: i32,
        ystart: i32,
        xend: i32,
        yend: i32,
    ) -> (r: Vec<(i32, i32)>)
        requires
            self.wf(),
            self.contains(tree_id),
            side(self.level(tree_id)) <= i32::MAX,
            xoffset + side(self.level(tree_id)) <= i32::MAX,
            yoffset + side(self.level(tree_id)) <= i32::MAX,
        ensures
            points(r@) == self.live_cells(
                tree_id,
                xoffset as int,
                yoffset as int,
                xstart as int,
                ystart as int,
                xend as int,
                yend as int,
            ),
        decreases self.level(tree_id),
    {
        proof {
            assert(self.node_ok(tree_id));
        }
        match tree_id.fetch_from(self) {
            QTree::Node(n) => {
                if n.pop > 0 {
                    proof {
                        lemma_side_bounds_level(n.level as nat);
                        lemma_side_is_pow((n.level - 1) as nat);
                        lemma_side_monotonic((n.level - 1) as nat, n.level as nat);
                    }
                    let dim = 2i32.pow(n.level as u32 - 1);
                    let mut results: Vec<(i32, i32)> = Vec::new();
                    let east_end = (xoffset + dim * 2) as i64;
                    let north_end = (yoffset + dim * 2) as i64;
                    if xoffset > xend || yoffset > yend || east_end < xstart as i64 - 1
                        || north_end < ystart as i64 - 1 {
                        proof {
                            self.lemma_live_cells_none(
                                tree_id,
                                xoffset as int,
                                yoffset as int,
                                xstart as int,
                                ystart as int,
                                xend as int,
                                yend as int,
                            );
                            assert(points(results@) =~= Seq::empty());
                        }
                        return results;
                    }
                    let mut nw = self.get_coords(
                        n.north_west,
                        xoffset,
                        yoffset + dim,
                        xstart,
                        ystart,
                        xend,
                        yend,
                    );
                    let mut ne = self.get_coords(
                        n.north_east,
                        xoffset + dim,
                        yoffset + dim,
                        xstart,
                        ystart,
                        xend,
                        yend,
                    );
                    let mut sw = self.get_coords(
                        n.south_west,
                        xoffset,
                        yoffset,
                        xstart,
                        ystart,
                        xend,
                        yend,
                    );
                    let mut se = self.get_coords(
                        n.south_east,
                        xoffset + dim,
                        yoffset,
                        xstart,
                        ystart,
                        xend,
                        yend,
                    );
                    let ghost (a, b, c, e) = (nw@, ne@, sw@, se@);
                    results.append(&mut nw);
                    results.append(&mut ne);
                    results.append(&mut sw);
                    results.append(&mut se);
                    proof {
                        assert(results@ =~= a + b + c + e);
                        assert(points(results@) =~= points(a) + points(b) + points(c) + points(e));
                    }
                    results
                } else {
                    let results: Vec<(i32, i32)> = Vec::new();
                    proof {
                        self.lemma_live_cells_none(
                            tree_id,
                            xoffset as int,
                            yoffset as int,
                            xstart as int,
                            ystart as int,
                            xend as int,
                            yend as int,
                        );
                        assert(points(results@) =~= Seq::empty());
                    }
                    results
                }
            },
            QTree::Leaf(l) => {
                let mut results: Vec<(i32, i32)> = Vec::new();
                if l.0 != 0 && xstart <= xoffset && xoffset <= xend && ystart <= yoffset && yoffset
                    <= yend {
                    results.push((xoffset, yoffset));
                    proof {
                        assert(points(results@) =~= seq![(xoffset as int, yoffset as int)]);
                    }
                } else {
                    proof {
                        assert(points(results@) =~= Seq::empty());
                    }
                }
                results
            },
        }
    }

    /// The cell of a node of level 2 or more is the cell of the quadrant
    /// of a quadrant that holds it, at the position rebased twice.
    pub proof fn lemma_cell_unfold_twice(&self, id: ID, x: int, y: int)
        requires
            self.wf(),
            self.contains(id),
            self.level(id) >= 2,
            self.covers(id, x, y),
        ensures
            ({
                let q = side((self.level(id) - 2) as nat) as int;
                let n = self.node(id)->Node_0;
                let c = self.node(n.quadrant(x >= 2 * q, y >= 2 * q))->Node_0;
                let cx = if x >= 2 * q {
                    x - 2 * q
                } else {
                    x
                };
                let cy = if y >= 2 * q {
                    y - 2 * q
                } else {
                    y
                };
                self.cell(id, x, y) == self.cell(
                    c.quadrant(cx >= q, cy >= q),
                    if cx >= q {
                        cx - q
                    } else {
                        cx
                    },
                    if cy >= q {
                        cy - q
                    } else {
                        cy
                    },
                )
            }),
    {
        let q = side((self.level(id) - 2) as nat) as int;
        assert(side((self.level(id) - 1) as nat) == 2 * q);
        self.lemma_quadrants(id);
        let n = self.node(id)->Node_0;
        let cid = n.quadrant(x >= 2 * q, y >= 2 * q);
        self.lemma_quadrants(cid);
        self.lemma_cell_unfold(id, x, y);
        let cx = if x >= 2 * q {
            x - 2 * q
        } else {
            x
        };
        let cy = if y >= 2 * q {
            y - 2 * q
        } else {
            y
        };
        self.lemma_cell_unfold(cid, cx, cy);
    }
}

} // verus!
