//! What the evolution means on the plane: which configurations a tree
//! shows, what it is to derive one tree from another, and when the memoized
//! results of a store are those of one budget.

use crate::life::{lemma_steps_add, steps, Grid};
use crate::node::ID;
use crate::pow2::side;
use crate::space::Space;
use vstd::math::min;
use vstd::prelude::*;

verus! {

/// The number of generations by which a node of the given level is advanced
/// under budget `j`: two to the power of the budget, capped at a quarter of
/// the node's side.
pub open spec fn span(level: nat, j: nat) -> nat {
    side(min(j as int, level - 2) as nat)
}

impl Space {
    /// Whether the tree behind `id`, with its south-west corner at
    /// `(ox, oy)`, shows the cells that the configuration `g` has there.
    pub open spec fn shows(&self, id: ID, g: Grid, ox: int, oy: int) -> bool {
        forall|x: int, y: int|
            self.covers(id, x, y) ==> (#[trigger] self.cell(id, x, y) != 0) == g(ox + x, oy + y)
    }

    /// Whether `r` is determined by `base` as the square at offset
    /// `(dx, dy)` of `base`, `t` generations later: on every configuration
    /// of the plane that `base` shows a part of, `r` shows that part of the
    /// configuration after `t` generations.
    pub open spec fn derives(&self, base: ID, dx: int, dy: int, r: ID, t: nat) -> bool {
        forall|g: Grid, ox: int, oy: int| #[trigger]
            self.shows(base, g, ox, oy) ==> self.shows(r, steps(g, t), ox + dx, oy + dy)
    }

    /// Whether `r` is the centre of the tree behind `id`, of half its
    /// side, after `t` generations of the Game of Life.
    pub open spec fn advances(&self, id: ID, r: ID, t: nat) -> bool {
        let q = side((self.level(id) - 2) as nat) as int;
        &&& self.level(id) >= 2
        &&& self.level(r) + 1 == self.level(id)
        &&& self.derives(id, q, q, r, t)
    }

    /// Whether the memoized result of `id`, if it has one, is its centre
    /// after the generations that budget `j` gives a node of its level.
    pub open spec fn memo_ok(&self, id: ID, j: nat) -> bool {
        self.node(id).spec_next() matches Some(r) ==> self.advances(
            id,
            r,
            span(self.level(id), j),
        )
    }

    /// Whether every memoized result of the store is the one that budget
    /// `j` gives. A store without memoized results is consistent with every
    /// budget.
    pub open spec fn consistent(&self, j: nat) -> bool {
        forall|id: ID| self.contains(id) ==> #[trigger] self.memo_ok(id, j)
    }

    /// Whether every memoized result of a node of level `top` or less is
    /// the one that budget `j` gives.
    pub open spec fn consistent_upto(&self, j: nat, top: nat) -> bool {
        forall|id: ID| self.contains(id) && self.level(id) <= top ==> #[trigger] self.memo_ok(id, j)
    }

    /// What a tree shows does not change when the store grows.
    pub proof fn lemma_shows_grows(&self, old: &Space, id: ID, g: Grid, ox: int, oy: int)
        requires
            old.wf(),
            self.grows_from(old),
            old.contains(id),
        ensures
            self.shows(id, g, ox, oy) == old.shows(id, g, ox, oy),
    {
        self.lemma_cells_grow(old, id);
        self.lemma_grows_node(old, id);
        if old.shows(id, g, ox, oy) {
            assert forall|x: int, y: int| self.covers(id, x, y) implies (#[trigger] self.cell(
                id,
                x,
                y,
            ) != 0) == g(ox + x, oy + y) by {
                assert(old.covers(id, x, y));
                assert(self.cell(id, x, y) == old.cell(id, x, y));
            }
        }
        if self.shows(id, g, ox, oy) {
            assert forall|x: int, y: int| old.covers(id, x, y) implies (#[trigger] old.cell(
                id,
                x,
                y,
            ) != 0) == g(ox + x, oy + y) by {
                assert(self.covers(id, x, y));
                assert(self.cell(id, x, y) == old.cell(id, x, y));
            }
        }
    }

    /// What is derived stays derived when the store grows.
    pub proof fn lemma_derives_grows(&self, old: &Space, base: ID, dx: int, dy: int, r: ID, t: nat)
        requires
            old.wf(),
            self.grows_from(old),
            old.contains(base),
            old.contains(r),
            old.derives(base, dx, dy, r, t),
        ensures
            self.derives(base, dx, dy, r, t),
    {
        assert forall|g: Grid, ox: int, oy: int| #[trigger]
            self.shows(base, g, ox, oy) implies self.shows(r, steps(g, t), ox + dx, oy + dy) by {
            self.lemma_shows_grows(old, base, g, ox, oy);
            self.lemma_shows_grows(old, r, steps(g, t), ox + dx, oy + dy);
        }
    }

    /// An advance stays one when the store grows.
    pub proof fn lemma_advances_grows(&self, old: &Space, id: ID, r: ID, t: nat)
        requires
            old.wf(),
            self.grows_from(old),
            old.contains(id),
            old.contains(r),
            old.advances(id, r, t),
        ensures
            self.advances(id, r, t),
    {
        let q = side((old.level(id) - 2) as nat) as int;
        self.lemma_grows_node(old, id);
        self.lemma_grows_node(old, r);
        self.lemma_derives_grows(old, id, q, q, r, t);
    }

    /// A quadrant is derived from its node, at its place and at once.
    pub proof fn lemma_derives_child(&self, id: ID, east: bool, north: bool)
        requires
            self.wf(),
            self.contains(id),
            self.node(id) is Node,
        ensures
            ({
                let n = self.node(id)->Node_0;
                let d = side((n.level - 1) as nat) as int;
                self.derives(
                    id,
                    if east {
                        d
                    } else {
                        0
                    },
                    if north {
                        d
                    } else {
                        0
                    },
                    n.quadrant(east, north),
                    0,
                )
            }),
    {
        let n = self.node(id)->Node_0;
        let d = side((n.level - 1) as nat) as int;
        let c = n.quadrant(east, north);
        let dx = if east {
            d
        } else {
            0
        };
        let dy = if north {
            d
        } else {
            0
        };
        assert(self.node_ok(id));
        assert(side(n.level as nat) == 2 * d);
        assert forall|g: Grid, ox: int, oy: int| #[trigger]
            self.shows(id, g, ox, oy) implies self.shows(c, steps(g, 0), ox + dx, oy + dy) by {
            assert forall|x: int, y: int| self.covers(c, x, y) implies (#[trigger] self.cell(
                c,
                x,
                y,
            ) != 0) == g(ox + dx + x, oy + dy + y) by {
                self.lemma_cell_unfold(id, x + dx, y + dy);
                assert(self.covers(id, x + dx, y + dy));
                assert(self.cell(id, x + dx, y + dy) == self.cell(c, x, y));
            }
        }
    }

    /// Derivations compose: offsets and generations add up.
    pub proof fn lemma_derives_compose(
        &self,
        a: ID,
        dx1: int,
        dy1: int,
        b: ID,
        t1: nat,
        dx2: int,
        dy2: int,
        c: ID,
        t2: nat,
    )
        requires
            self.derives(a, dx1, dy1, b, t1),
            self.derives(b, dx2, dy2, c, t2),
        ensures
            self.derives(a, dx1 + dx2, dy1 + dy2, c, t1 + t2),
    {
        assert forall|g: Grid, ox: int, oy: int| #[trigger]
            self.shows(a, g, ox, oy) implies self.shows(
            c,
            steps(g, t1 + t2),
            ox + (dx1 + dx2),
            oy + (dy1 + dy2),
        ) by {
            assert(self.shows(b, steps(g, t1), ox + dx1, oy + dy1));
            assert(self.shows(c, steps(steps(g, t1), t2), ox + dx1 + dx2, oy + dy1 + dy2));
            lemma_steps_add(g, t1, t2);
        }
    }

    /// A node whose four quadrants are derived from `a`, each at its place
    /// and all at the same time, is derived from `a`.
    pub proof fn lemma_derives_node(&self, a: ID, dx: int, dy: int, r: ID, t: nat)
        requires
            self.wf(),
            self.contains(r),
            self.node(r) is Node,
            ({
                let n = self.node(r)->Node_0;
                let d = side((n.level - 1) as nat) as int;
                &&& self.derives(a, dx, dy + d, n.north_west, t)
                &&& self.derives(a, dx + d, dy + d, n.north_east, t)
                &&& self.derives(a, dx, dy, n.south_west, t)
                &&& self.derives(a, dx + d, dy, n.south_east, t)
            }),
        ensures
            self.derives(a, dx, dy, r, t),
    {
        let n = self.node(r)->Node_0;
        let d = side((n.level - 1) as nat) as int;
        assert(self.node_ok(r));
        assert(side(n.level as nat) == 2 * d);
        assert forall|g: Grid, ox: int, oy: int| #[trigger]
            self.shows(a, g, ox, oy) implies self.shows(r, steps(g, t), ox + dx, oy + dy) by {
            let h = steps(g, t);
            assert(self.shows(n.north_west, h, ox + dx, oy + (dy + d)));
            assert(self.shows(n.north_east, h, ox + (dx + d), oy + (dy + d)));
            assert(self.shows(n.south_west, h, ox + dx, oy + dy));
            assert(self.shows(n.south_east, h, ox + (dx + d), oy + dy));
            assert forall|x: int, y: int| self.covers(r, x, y) implies (#[trigger] self.cell(
                r,
                x,
                y,
            ) != 0) == h(ox + dx + x, oy + dy + y) by {
                self.lemma_cell_unfold(r, x, y);
                let c = n.quadrant(x >= d, y >= d);
                let cx = if x >= d {
                    x - d
                } else {
                    x
                };
                let cy = if y >= d {
                    y - d
                } else {
                    y
                };
                assert(self.covers(c, cx, cy));
                assert(self.cell(r, x, y) == self.cell(c, cx, cy));
            }
        }
    }

    /// A quadrant of a quadrant is derived from the node two levels up, at
    /// its place and at once.
    pub proof fn lemma_derives_grandchild(
        &self,
        id: ID,
        east: bool,
        north: bool,
        east2: bool,
        north2: bool,
    )
        requires
            self.wf(),
            self.contains(id),
            self.level(id) >= 2,
        ensures
            ({
                let n = self.node(id)->Node_0;
                let c = self.node(n.quadrant(east, north))->Node_0;
                let q = side((n.level - 2) as nat) as int;
                &&& self.node(id) is Node
                &&& self.node(n.quadrant(east, north)) is Node
                &&& self.contains(c.quadrant(east2, north2))
                &&& self.level(c.quadrant(east2, north2)) + 2 == self.level(id)
                &&& self.population(c.quadrant(east2, north2)) <= self.population(id)
                &&& self.derives(
                    id,
                    (if east {
                        2 * q
                    } else {
                        0
                    }) + (if east2 {
                        q
                    } else {
                        0
                    }),
                    (if north {
                        2 * q
                    } else {
                        0
                    }) + (if north2 {
                        q
                    } else {
                        0
                    }),
                    c.quadrant(east2, north2),
                    0,
                )
            }),
    {
        assert(self.node_ok(id));
        let n = self.node(id)->Node_0;
        let cid = n.quadrant(east, north);
        assert(self.node_ok(cid));
        let c = self.node(cid)->Node_0;
        let q = side((n.level - 2) as nat) as int;
        assert(side((n.level - 1) as nat) == 2 * q);
        self.lemma_derives_child(id, east, north);
        self.lemma_derives_child(cid, east2, north2);
        self.lemma_derives_compose(
            id,
            if east {
                2 * q
            } else {
                0
            },
            if north {
                2 * q
            } else {
                0
            },
            cid,
            0,
            if east2 {
                q
            } else {
                0
            },
            if north2 {
                q
            } else {
                0
            },
            c.quadrant(east2, north2),
            0,
        );
    }

    /// Consistency with a budget is consistency up to every level.
    pub proof fn lemma_consistent_upto(&self, j: nat, top: nat)
        requires
            self.consistent(j),
        ensures
            self.consistent_upto(j, top),
    {
        assert forall|id: ID| self.contains(id) && self.level(id) <= top implies #[trigger]
            self.memo_ok(id, j) by {}
    }

    /// Two budgets that give a node the same number of generations agree on
    /// its memoized result.
    pub proof fn lemma_memo_ok_agree(&self, id: ID, j: nat, b: nat)
        requires
            self.memo_ok(id, j),
            min(b as int, self.level(id) - 2) == min(j as int, self.level(id) - 2),
        ensures
            self.memo_ok(id, b),
    {
    }

    /// Consistency up to a level under one budget is consistency up to a
    /// lower level under every budget that caps alike there.
    pub proof fn lemma_upto_agree(&self, j: nat, b: nat, top: nat, top2: nat)
        requires
            self.consistent_upto(j, top),
            top2 <= top,
            min(b as int, top2 - 2) == min(j as int, top2 - 2),
        ensures
            self.consistent_upto(b, top2),
    {
        assert forall|id: ID| self.contains(id) && self.level(id) <= top2 implies #[trigger]
            self.memo_ok(id, b) by {
            assert(self.memo_ok(id, j));
            self.lemma_memo_ok_agree(id, j, b);
        }
    }

    /// A memoized result that is in order stays so when the store grows and
    /// the entry is unchanged.
    pub proof fn lemma_memo_ok_grows(&self, old: &Space, id: ID, j: nat)
        requires
            old.wf(),
            self.grows_from(old),
            old.contains(id),
            old.memo_ok(id, j),
            self.node(id) == old.node(id),
        ensures
            self.memo_ok(id, j),
    {
        assert(old.node_ok(id));
        if old.node(id).spec_next() is Some {
            let r = old.node(id).spec_next()->Some_0;
            self.lemma_advances_grows(old, id, r, span(old.level(id), j));
        }
    }

    /// Consistency up to a level is kept when the store grows, leaves the
    /// entries of that level alone and is consistent below it.
    pub proof fn lemma_upto_step(&self, old: &Space, j: nat, top: nat)
        requires
            old.wf(),
            self.grows_from(old),
            top >= 1,
            self.keeps_above(old, (top - 1) as nat),
            old.consistent_upto(j, top),
            self.consistent_upto(j, (top - 1) as nat),
        ensures
            self.consistent_upto(j, top),
    {
        assert forall|id: ID| self.contains(id) && self.level(id) <= top implies #[trigger]
            self.memo_ok(id, j) by {
            if self.level(id) == top {
                if old.contains(id) {
                    self.lemma_grows_node(old, id);
                    self.lemma_keeps_node(old, (top - 1) as nat, id);
                    assert(old.memo_ok(id, j));
                    self.lemma_memo_ok_grows(old, id, j);
                } else {
                    self.lemma_keeps_fresh(old, (top - 1) as nat, id);
                }
            }
        }
    }

    /// Consistency up to a level is kept by a store that extends this one.
    pub proof fn lemma_upto_extends(&self, old: &Space, j: nat, top: nat)
        requires
            old.wf(),
            self.extends(old),
            old.consistent_upto(j, top),
        ensures
            self.consistent_upto(j, top),
    {
        self.lemma_extends_grows(old);
        assert forall|id: ID| self.contains(id) && self.level(id) <= top implies #[trigger]
            self.memo_ok(id, j) by {
            if old.contains(id) {
                self.lemma_extends_node(old, id);
                assert(old.memo_ok(id, j));
                self.lemma_memo_ok_grows(old, id, j);
            } else {
            }
        }
    }

    /// Consistency up to a level is kept when the memoized result of one
    /// node is set to what the budget gives it.
    pub(crate) proof fn lemma_upto_set_next(&self, old: &Space, id: ID, r: ID, j: nat, top: nat)
        requires
            old.wf(),
            self.grows_from(old),
            old.contains(id),
            old.contains(r),
            old.consistent_upto(j, top),
            old.advances(id, r, span(old.level(id), j)),
            self.node(id).spec_next() == Some(r),
            forall|other: ID|
                #![trigger self.node(other)]
                other != id && old.contains(other) ==> self.node(other) == old.node(other),
            forall|other: ID|
                #![trigger self.contains(other)]
                self.contains(other) == old.contains(other),
        ensures
            self.consistent_upto(j, top),
    {
        assert forall|other: ID| self.contains(other) && self.level(other) <= top implies #[trigger]
            self.memo_ok(other, j) by {
            self.lemma_grows_node(old, other);
            if other == id {
                self.lemma_advances_grows(old, id, r, span(old.level(id), j));
            } else {
                assert(old.memo_ok(other, j));
                self.lemma_memo_ok_grows(old, other, j);
            }
        }
    }

    /// Consistency with a budget is kept by a store that extends this one.
    pub proof fn lemma_consistent_extends(&self, old: &Space, j: nat)
        requires
            old.wf(),
            self.extends(old),
            old.consistent(j),
        ensures
            self.consistent(j),
    {
        self.lemma_extends_grows(old);
        assert forall|id: ID| self.contains(id) implies #[trigger] self.memo_ok(id, j) by {
            if old.contains(id) {
                self.lemma_extends_node(old, id);
                assert(old.memo_ok(id, j));
                self.lemma_memo_ok_grows(old, id, j);
            } else {
            }
        }
    }

    /// Consistency with a budget is kept when the store grows, leaves the
    /// entries above a level alone and is consistent up to that level.
    pub proof fn lemma_consistent_kept(&self, old: &Space, j: nat, top: nat)
        requires
            old.wf(),
            self.grows_from(old),
            self.keeps_above(old, top),
            old.consistent(j),
            self.consistent_upto(j, top),
        ensures
            self.consistent(j),
    {
        assert forall|id: ID| self.contains(id) implies #[trigger] self.memo_ok(id, j) by {
            if self.level(id) > top {
                if old.contains(id) {
                    self.lemma_grows_node(old, id);
                    self.lemma_keeps_node(old, top, id);
                    assert(old.memo_ok(id, j));
                    self.lemma_memo_ok_grows(old, id, j);
                } else {
                    self.lemma_keeps_fresh(old, top, id);
                }
            }
        }
    }
}

} // verus!
