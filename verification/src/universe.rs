//! The coordinate frame: a tree with the absolute position of its corner.

use crate::meaning::span;
use crate::grid::points;
use crate::life::Grid;
use crate::node::{QTree, ID};
use crate::pow2::{lemma_side_is_pow, lemma_side_monotonic, side};
use crate::rle::{parse_rle, pattern_of, RleError};
use crate::space::{area, Space};
use vstd::arithmetic::power2::{lemma2_to64, pow2};
use vstd::prelude::*;

verus! {

/// The integers of a vector of coordinates.
pub open spec fn ints(v: Seq<i32>) -> Seq<int> {
    v.map_values(|a: i32| a as int)
}

/// The pairs of a sequence laid out flat: x, y, x, y and so on.
pub open spec fn flat(s: Seq<(int, int)>) -> Seq<int> {
    Seq::new(
        2 * s.len(),
        |i: int|
            if i % 2 == 0 {
                s[i / 2].0
            } else {
                s[i / 2].1
            },
    )
}

/// The highest level of a root: its side, `2^30`, is the largest that fits in
/// an `i32`.
pub const MAX_LEVEL: usize = 30;

/// A universe: a store, the root of the tree in view, and the absolute
/// position of the root's south-west corner. Cells outside the root's
/// square are dead.
pub struct Universe {
    root_x: i32,
    root_y: i32,
    space: Space,
    root_id: ID,
}

/// The sides up to the highest level fit in an `i32`.
pub proof fn lemma_side_fits(level: nat)
    requires
        level <= MAX_LEVEL,
    ensures
        1 <= side(level) <= 0x4000_0000,
        side(level) == vstd::arithmetic::power::pow(2, level),
{
    lemma_side_is_pow(level);
    lemma_side_monotonic(level, 30);
    lemma_side_is_pow(30);
    lemma2_to64();
    assert(side(30) == pow2(30));
}

impl Universe {
    /// The store.
    pub closed spec fn space(&self) -> Space {
        self.space
    }

    /// The root of the tree in view.
    pub closed spec fn root(&self) -> ID {
        self.root_id
    }

    /// The absolute x coordinate of the root's south-west corner.
    pub closed spec fn origin_x(&self) -> int {
        self.root_x as int
    }

    /// The absolute y coordinate of the root's south-west corner.
    pub closed spec fn origin_y(&self) -> int {
        self.root_y as int
    }

    /// The level of the root.
    pub open spec fn level(&self) -> nat {
        self.space().level(self.root())
    }

    /// The side of the root's square.
    pub open spec fn dim(&self) -> int {
        side(self.level()) as int
    }

    /// The number of live cells.
    pub open spec fn population(&self) -> nat {
        self.space().population(self.root())
    }

    /// The x coordinate of the middle of the frame, which no operation
    /// moves.
    pub open spec fn mid_x(&self) -> int {
        self.origin_x() + side((self.level() - 1) as nat)
    }

    /// The y coordinate of the middle of the frame, which no operation
    /// moves.
    pub open spec fn mid_y(&self) -> int {
        self.origin_y() + side((self.level() - 1) as nat)
    }

    /// Whether the root's square holds the absolute position `(x, y)`.
    pub open spec fn covers(&self, x: int, y: int) -> bool {
        &&& self.origin_x() <= x < self.origin_x() + self.dim()
        &&& self.origin_y() <= y < self.origin_y() + self.dim()
    }

    /// The state of the cell at the absolute position `(x, y)`.
    pub open spec fn cell_at(&self, x: int, y: int) -> nat {
        if self.covers(x, y) {
            self.space().cell(self.root(), x - self.origin_x(), y - self.origin_y())
        } else {
            0
        }
    }

    /// The configuration of the plane that the universe stands for.
    pub open spec fn grid(&self) -> Grid {
        |x: int, y: int| self.cell_at(x, y) != 0
    }

    /// Whether the universe shows, on the square of its root, what the
    /// configuration `g` has there.
    pub open spec fn shows_grid(&self, g: Grid) -> bool {
        forall|x: int, y: int| self.covers(x, y) ==> ((#[trigger] self.cell_at(x, y)) != 0) == g(x, y)
    }

    /// Whether the two universes have the same cells.
    pub open spec fn same_cells(&self, other: &Universe) -> bool {
        forall|x: int, y: int| #[trigger] self.cell_at(x, y) == other.cell_at(x, y)
    }

    /// Whether a frame of level `m` about the middle of this one can be
    /// addressed with `i32` coordinates.
    pub open spec fn frame_fits(&self, m: nat) -> bool {
        &&& 1 <= m <= MAX_LEVEL
        &&& i32::MIN <= self.mid_x() - side((m - 1) as nat)
        &&& self.mid_x() + side((m - 1) as nat) <= i32::MAX
        &&& i32::MIN <= self.mid_y() - side((m - 1) as nat)
        &&& self.mid_y() + side((m - 1) as nat) <= i32::MAX
    }

    /// Whether a frame of level `m` about the middle of this one holds the
    /// position `(x, y)`.
    pub open spec fn frame_covers(&self, m: nat, x: int, y: int) -> bool {
        &&& self.mid_x() - side((m - 1) as nat) <= x < self.mid_x() + side((m - 1) as nat)
        &&& self.mid_y() - side((m - 1) as nat) <= y < self.mid_y() + side((m - 1) as nat)
    }

    /// Whether the frame can grow to hold `(x, y)` within `i32`
    /// coordinates.
    pub open spec fn reachable(&self, x: int, y: int) -> bool {
        exists|m: nat|
            self.level() <= m && #[trigger] self.frame_fits(m) && self.frame_covers(m, x, y)
    }

    /// Whether every memoized result of the store is the one that budget
    /// `j` gives.
    pub open spec fn consistent(&self, j: nat) -> bool {
        self.space().consistent(j)
    }

    /// Whether the live cells keep clear of the border: the root has level
    /// 3 or more, and the whole population of each quadrant lies in the
    /// quadrant's innermost sub-quadrant two levels down.
    pub open spec fn padded(&self) -> bool {
        self.space().padded(self.root())
    }

    /// Well-formedness: the store is well-formed, the root is a node of it
    /// of level 2 or more, and the frame can be addressed with `i32`
    /// coordinates.
    pub open spec fn wf(&self) -> bool {
        &&& self.space().wf()
        &&& self.space().contains(self.root())
        &&& self.level() >= 2
        &&& self.frame_fits(self.level())
    }
}

impl Space {
    /// The innermost sub-quadrant, two levels down, of the quadrant of `n`
    /// on the given side of each axis.
    pub open spec fn inner(&self, n: crate::node::Node, east: bool, north: bool) -> ID {
        let c = self.node(n.quadrant(east, north))->Node_0;
        let d = self.node(c.quadrant(!east, !north))->Node_0;
        d.quadrant(!east, !north)
    }

    /// Whether the tree is padded: it has level 3 or more, and the
    /// population of each of its quadrants equals that of the quadrant's
    /// innermost sub-quadrant two levels down.
    pub open spec fn padded(&self, id: ID) -> bool {
        &&& self.level(id) >= 3
        &&& self.node(id) matches QTree::Node(n)
        &&& forall|east: bool, north: bool|
            #![trigger n.quadrant(east, north)]
            self.population(n.quadrant(east, north)) == self.population(
                self.inner(n, east, north),
            )
    }

    /// Whether every live cell of the tree lies in the square of side `w`
    /// in its middle.
    pub open spec fn margin(&self, id: ID, w: int) -> bool {
        let c = side(self.level(id)) as int / 2;
        forall|x: int, y: int|
            #[trigger] self.covers(id, x, y) && self.cell(id, x, y) != 0 ==> c - w / 2 <= x < c + w
                / 2 && c - w / 2 <= y < c + w / 2
    }

    /// The live cells of an expansion lie where they lay, about the
    /// middle.
    pub proof fn lemma_margin_expansion(new: &Space, r: ID, old: &Space, tree: ID, w: int)
        requires
            Space::is_expansion_of(new, r, old, tree),
            old.level(tree) >= 1,
            old.margin(tree, w),
        ensures
            new.margin(r, w),
    {
        let s = side(old.level(tree)) as int;
        let h = s / 2;
        assert(s == 2 * side((old.level(tree) - 1) as nat));
        assert(side(new.level(r)) == 2 * s);
        assert forall|x: int, y: int| #[trigger]
            new.covers(r, x, y) && new.cell(r, x, y) != 0 implies s - w / 2 <= x < s + w / 2 && s
            - w / 2 <= y < s + w / 2 by {
            assert(h <= x < h + s && h <= y < h + s);
            assert(old.covers(tree, x - h, y - h));
        }
    }

    /// Whether the tree `part` shows the cells of `id` from offset
    /// `(dx, dy)` on.
    pub open spec fn is_part(&self, part: ID, id: ID, dx: int, dy: int) -> bool {
        forall|x: int, y: int| #[trigger]
            self.covers(part, x, y) ==> self.covers(id, x + dx, y + dy) && self.cell(part, x, y)
                == self.cell(id, x + dx, y + dy)
    }

    /// A quadrant of a part is a part.
    pub proof fn lemma_part_child(&self, part: ID, id: ID, dx: int, dy: int, east: bool, north: bool)
        requires
            self.wf(),
            self.contains(part),
            self.level(part) >= 1,
            self.is_part(part, id, dx, dy),
        ensures
            ({
                let d = side((self.level(part) - 1) as nat) as int;
                self.is_part(
                    self.node(part)->Node_0.quadrant(east, north),
                    id,
                    dx + (if east {
                        d
                    } else {
                        0
                    }),
                    dy + (if north {
                        d
                    } else {
                        0
                    }),
                )
            }),
    {
        self.lemma_quadrants(part);
        let d = side((self.level(part) - 1) as nat) as int;
        assert(side(self.level(part)) == 2 * d);
        let c = self.node(part)->Node_0.quadrant(east, north);
        let ex = if east {
            d
        } else {
            0
        };
        let ny = if north {
            d
        } else {
            0
        };
        assert forall|x: int, y: int| #[trigger] self.covers(c, x, y) implies self.covers(
            id,
            x + (dx + ex),
            y + (dy + ny),
        ) && self.cell(c, x, y) == self.cell(id, x + (dx + ex), y + (dy + ny)) by {
            self.lemma_cell_unfold(part, x + ex, y + ny);
            assert(self.covers(part, x + ex, y + ny));
            assert(self.cell(part, x + ex, y + ny) == self.cell(id, x + ex + dx, y + ny + dy));
        }
    }

    /// A part that lies wholly on one side of the middle square has no
    /// population.
    pub proof fn lemma_part_outside(&self, part: ID, id: ID, dx: int, dy: int, w: int)
        requires
            self.wf(),
            self.contains(part),
            self.is_part(part, id, dx, dy),
            self.margin(id, w),
            ({
                let c = side(self.level(id)) as int / 2;
                let s = side(self.level(part)) as int;
                ||| dx + s <= c - w / 2
                ||| dx >= c + w / 2
                ||| dy + s <= c - w / 2
                ||| dy >= c + w / 2
            }),
        ensures
            self.population(part) == 0,
    {
        assert forall|x: int, y: int| self.covers(part, x, y) implies #[trigger] self.cell(
            part,
            x,
            y,
        ) == 0 by {
            assert(self.cell(part, x, y) == self.cell(id, x + dx, y + dy));
        }
        self.lemma_dead_no_population(part);
    }

    /// In a tree whose live cells lie in the middle square of a quarter of
    /// its side, the population of a quadrant is that of its innermost
    /// sub-quadrant two levels down.
    proof fn lemma_margin_quadrant(&self, id: ID, east: bool, north: bool)
        requires
            self.wf(),
            self.contains(id),
            self.level(id) >= 3,
            self.margin(id, side((self.level(id) - 2) as nat) as int),
        ensures
            self.node(id) is Node,
            self.population(self.node(id)->Node_0.quadrant(east, north)) == self.population(
                self.inner(self.node(id)->Node_0, east, north),
            ),
    {
        let l = self.level(id);
        let u = side((l - 3) as nat) as int;
        let w = side((l - 2) as nat) as int;
        assert(w == 2 * u);
        assert(side((l - 1) as nat) == 4 * u);
        assert(side(l) == 8 * u);
        self.lemma_quadrants(id);
        let n = self.node(id)->Node_0;
        let cid = n.quadrant(east, north);
        self.lemma_quadrants(cid);
        let c = self.node(cid)->Node_0;
        let did = c.quadrant(!east, !north);
        self.lemma_quadrants(did);
        let d = self.node(did)->Node_0;
        let cx = if east {
            4 * u
        } else {
            0
        };
        let cy = if north {
            4 * u
        } else {
            0
        };
        let dx = cx + (if !east {
            2 * u
        } else {
            0
        });
        let dy = cy + (if !north {
            2 * u
        } else {
            0
        });
        assert(self.is_part(id, id, 0, 0));
        self.lemma_part_child(id, id, 0, 0, east, north);
        self.lemma_part_child(cid, id, cx, cy, east, north);
        self.lemma_part_child(cid, id, cx, cy, !east, north);
        self.lemma_part_child(cid, id, cx, cy, east, !north);
        self.lemma_part_child(cid, id, cx, cy, !east, !north);
        self.lemma_part_child(did, id, dx, dy, east, north);
        self.lemma_part_child(did, id, dx, dy, !east, north);
        self.lemma_part_child(did, id, dx, dy, east, !north);
        self.lemma_part_outside(
            c.quadrant(east, north),
            id,
            cx + (if east {
                2 * u
            } else {
                0
            }),
            cy + (if north {
                2 * u
            } else {
                0
            }),
            w,
        );
        self.lemma_part_outside(
            c.quadrant(!east, north),
            id,
            cx + (if !east {
                2 * u
            } else {
                0
            }),
            cy + (if north {
                2 * u
            } else {
                0
            }),
            w,
        );
        self.lemma_part_outside(
            c.quadrant(east, !north),
            id,
            cx + (if east {
                2 * u
            } else {
                0
            }),
            cy + (if !north {
                2 * u
            } else {
                0
            }),
            w,
        );
        self.lemma_part_outside(
            d.quadrant(east, north),
            id,
            dx + (if east {
                u
            } else {
                0
            }),
            dy + (if north {
                u
            } else {
                0
            }),
            w,
        );
        self.lemma_part_outside(
            d.quadrant(!east, north),
            id,
            dx + (if !east {
                u
            } else {
                0
            }),
            dy + (if north {
                u
            } else {
                0
            }),
            w,
        );
        self.lemma_part_outside(
            d.quadrant(east, !north),
            id,
            dx + (if east {
                u
            } else {
                0
            }),
            dy + (if !north {
                u
            } else {
                0
            }),
            w,
        );
    }

    /// In a padded tree, the parts of a quadrant beside its innermost
    /// sub-quadrant two levels down have no population.
    proof fn lemma_padded_quadrant(&self, id: ID, east: bool, north: bool)
        requires
            self.wf(),
            self.contains(id),
            self.padded(id),
        ensures
            ({
                let n = self.node(id)->Node_0;
                let c = self.node(n.quadrant(east, north))->Node_0;
                let d = self.node(c.quadrant(!east, !north))->Node_0;
                &&& forall|e2: bool, n2: bool|
                    e2 != !east || n2 != !north ==> self.population(
                        #[trigger] c.quadrant(e2, n2),
                    ) == 0
                &&& forall|e3: bool, n3: bool|
                    e3 != !east || n3 != !north ==> self.population(
                        #[trigger] d.quadrant(e3, n3),
                    ) == 0
            }),
    {
        self.lemma_quadrants(id);
        let n = self.node(id)->Node_0;
        let cid = n.quadrant(east, north);
        self.lemma_quadrants(cid);
        let c = self.node(cid)->Node_0;
        let did = c.quadrant(!east, !north);
        self.lemma_quadrants(did);
        let d = self.node(did)->Node_0;
        assert(self.population(cid) == self.population(self.inner(n, east, north)));
        assert(self.inner(n, east, north) == d.quadrant(!east, !north));
    }

    /// The live cells of a padded tree lie in the middle square of a
    /// quarter of its side.
    pub proof fn lemma_padded_margin(&self, id: ID)
        requires
            self.wf(),
            self.contains(id),
            self.padded(id),
        ensures
            self.margin(id, side((self.level(id) - 2) as nat) as int),
    {
        let l = self.level(id);
        let u = side((l - 3) as nat) as int;
        let w = side((l - 2) as nat) as int;
        assert(w == 2 * u);
        assert(side((l - 1) as nat) == 4 * u);
        assert(side(l) == 8 * u);
        self.lemma_quadrants(id);
        let n = self.node(id)->Node_0;
        assert forall|x: int, y: int| #[trigger]
            self.covers(id, x, y) && self.cell(id, x, y) != 0 implies 4 * u - w / 2 <= x < 4 * u
            + w / 2 && 4 * u - w / 2 <= y < 4 * u + w / 2 by {
            let east = x >= 4 * u;
            let north = y >= 4 * u;
            self.lemma_padded_quadrant(id, east, north);
            let cid = n.quadrant(east, north);
            self.lemma_quadrants(cid);
            let c = self.node(cid)->Node_0;
            let cx = if east {
                x - 4 * u
            } else {
                x
            };
            let cy = if north {
                y - 4 * u
            } else {
                y
            };
            self.lemma_cell_unfold(id, x, y);
            let e2 = cx >= 2 * u;
            let n2 = cy >= 2 * u;
            let gid = c.quadrant(e2, n2);
            self.lemma_quadrants(gid);
            let gx = if e2 {
                cx - 2 * u
            } else {
                cx
            };
            let gy = if n2 {
                cy - 2 * u
            } else {
                cy
            };
            self.lemma_cell_unfold(cid, cx, cy);
            if e2 != !east || n2 != !north {
                self.lemma_no_population(gid);
                assert(self.cell(gid, gx, gy) == 0);
            } else {
                let d = self.node(gid)->Node_0;
                let e3 = gx >= u;
                let n3 = gy >= u;
                let hid = d.quadrant(e3, n3);
                self.lemma_cell_unfold(gid, gx, gy);
                if e3 != !east || n3 != !north {
                    self.lemma_no_population(hid);
                    assert(self.cell(
                        hid,
                        if e3 {
                            gx - u
                        } else {
                            gx
                        },
                        if n3 {
                            gy - u
                        } else {
                            gy
                        },
                    ) == 0);
                }
            }
        }
    }

    /// A tree of level 3 or more whose live cells lie in the middle
    /// square of a quarter of its side is padded.
    pub proof fn lemma_margin_padded(&self, id: ID)
        requires
            self.wf(),
            self.contains(id),
            self.level(id) >= 3,
            self.margin(id, side((self.level(id) - 2) as nat) as int),
        ensures
            self.padded(id),
    {
        self.lemma_quadrants(id);
        let n = self.node(id)->Node_0;
        assert forall|east: bool, north: bool|
            #![trigger n.quadrant(east, north)]
            self.population(n.quadrant(east, north)) == self.population(
                self.inner(n, east, north),
            ) by {
            self.lemma_margin_quadrant(id, east, north);
        }
    }
}

impl Universe {
    /// Whether a frame of level `l` about the middle would be padded: `l`
    /// is 3 or more, and every live cell lies in the middle square of a
    /// quarter of that frame's side.
    pub open spec fn clear_at(&self, l: nat) -> bool {
        &&& l >= 3
        &&& forall|x: int, y: int|
            (#[trigger] self.cell_at(x, y)) != 0 ==> {
                &&& self.mid_x() - side((l - 3) as nat) <= x < self.mid_x() + side((l - 3) as nat)
                &&& self.mid_y() - side((l - 3) as nat) <= y < self.mid_y() + side((l - 3) as nat)
            }
    }

    /// A universe is padded exactly when it is clear at the level of its
    /// root.
    pub proof fn lemma_padded_is_clear(&self)
        requires
            self.wf(),
        ensures
            self.padded() == self.clear_at(self.level()),
    {
        let l = self.level();
        let sp = self.space();
        let r = self.root();
        if l >= 3 {
            let u = side((l - 3) as nat) as int;
            let w = side((l - 2) as nat) as int;
            assert(w == 2 * u);
            assert(side((l - 1) as nat) == 4 * u);
            assert(side(l) == 8 * u);
            if self.clear_at(l) {
                assert forall|x: int, y: int| #[trigger]
                    sp.covers(r, x, y) && sp.cell(r, x, y) != 0 implies 4 * u - w / 2 <= x < 4 * u
                    + w / 2 && 4 * u - w / 2 <= y < 4 * u + w / 2 by {
                    assert(self.cell_at(x + self.origin_x(), y + self.origin_y()) != 0);
                }
                sp.lemma_margin_padded(r);
            }
            if self.padded() {
                sp.lemma_padded_margin(r);
                assert forall|x: int, y: int| (#[trigger] self.cell_at(x, y)) != 0 implies {
                    &&& self.mid_x() - u <= x < self.mid_x() + u
                    &&& self.mid_y() - u <= y < self.mid_y() + u
                } by {
                    assert(sp.covers(r, x - self.origin_x(), y - self.origin_y()));
                }
            }
        }
    }

    /// Universes with the same cells about the same middle are clear at
    /// the same levels.
    pub proof fn lemma_clear_same(&self, other: &Universe, l: nat)
        requires
            self.same_cells(other),
            self.mid_x() == other.mid_x(),
            self.mid_y() == other.mid_y(),
        ensures
            self.clear_at(l) == other.clear_at(l),
    {
        if l >= 3 {
            if other.clear_at(l) {
                assert forall|x: int, y: int| (#[trigger] self.cell_at(x, y)) != 0 implies {
                    &&& self.mid_x() - side((l - 3) as nat) <= x < self.mid_x() + side(
                        (l - 3) as nat,
                    )
                    &&& self.mid_y() - side((l - 3) as nat) <= y < self.mid_y() + side(
                        (l - 3) as nat,
                    )
                } by {
                    assert(other.cell_at(x, y) != 0);
                }
            }
            if self.clear_at(l) {
                assert forall|x: int, y: int| (#[trigger] other.cell_at(x, y)) != 0 implies {
                    &&& self.mid_x() - side((l - 3) as nat) <= x < self.mid_x() + side(
                        (l - 3) as nat,
                    )
                    &&& self.mid_y() - side((l - 3) as nat) <= y < self.mid_y() + side(
                        (l - 3) as nat,
                    )
                } by {
                    assert(self.cell_at(x, y) == other.cell_at(x, y));
                }
            }
        }
    }

    /// A frame that fits at one level fits at every lower level.
    pub proof fn lemma_frame_fits_below(&self, m: nat, k: nat)
        requires
            self.frame_fits(m),
            1 <= k <= m,
        ensures
            self.frame_fits(k),
    {
        lemma_side_monotonic((k - 1) as nat, (m - 1) as nat);
    }

    /// Creates a universe without a live cell, on an empty tree of level 3
    /// whose south-west corner stands at `(rx, ry)`.
    pub fn new(rx: i32, ry: i32) -> (u: Universe)
        requires
            rx + 8 <= i32::MAX,
            ry + 8 <= i32::MAX,
        ensures
            u.wf(),
            u.level() == 3,
            u.origin_x() == rx,
            u.origin_y() == ry,
            u.population() == 0,
            forall|x: int, y: int| #[trigger] u.cell_at(x, y) == 0,
            forall|j: nat| #[trigger] u.consistent(j),
    {
        let mut space = Space::new();
        let ghost s0 = space;
        let root_id = space.empty_tree(3);
        let u = Universe { root_x: rx, root_y: ry, space: space, root_id: root_id };
        proof {
            assert(side(3) == 8) by {
                reveal_with_fuel(side, 4);
            }
            assert forall|j: nat| #[trigger] u.consistent(j) by {
                u.space.lemma_consistent_extends(&s0, j);
            }
        }
        u
    }

    /// Doubles the frame about its middle: the root gives way to its
    /// expansion, and the corner moves back by half the old side.
    fn grow(&mut self)
        requires
            old(self).wf(),
            old(self).frame_fits(old(self).level() + 1),
        ensures
            final(self).wf(),
            final(self).level() == old(self).level() + 1,
            final(self).origin_x() == old(self).origin_x() - side((old(self).level() - 1) as nat),
            final(self).origin_y() == old(self).origin_y() - side((old(self).level() - 1) as nat),
            final(self).mid_x() == old(self).mid_x(),
            final(self).mid_y() == old(self).mid_y(),
            final(self).population() == old(self).population(),
            final(self).same_cells(old(self)),
            final(self).space().extends(&old(self).space()),
            Space::is_expansion_of(
                &final(self).space(),
                final(self).root(),
                &old(self).space(),
                old(self).root(),
            ),
    {
        proof {
            lemma_side_fits(self.level());
            lemma_side_fits(self.level() + 1);
            assert(side(self.level() + 1) == 2 * side(self.level()));
            assert(side(self.level()) == 2 * side((self.level() - 1) as nat));
            self.space.lemma_level_below_len(self.root_id);
        }
        let root_dim = 2i32.pow(self.root_id.fetch_from(&self.space).level() as u32);
        self.root_id = self.space.expand_tree(self.root_id);
        self.root_x -= root_dim / 2;
        self.root_y -= root_dim / 2;
        proof {
            let s = old(self).dim();
            let h = s / 2;
            assert forall|x: int, y: int| #[trigger]
                self.cell_at(x, y) == old(self).cell_at(x, y) by {
                if self.covers(x, y) {
                    let lx = x - self.origin_x();
                    let ly = y - self.origin_y();
                    assert(self.space.covers(self.root_id, lx, ly));
                    assert(lx - h == x - old(self).origin_x());
                }
            }
        }
    }

    /// Sets the cell at the absolute position `(x, y)` alive. The frame
    /// grows first, as often as it takes to hold the position.
    pub fn set(&mut self, x: i32, y: i32)
        requires
            old(self).wf(),
            old(self).set_fits(x as int, y as int),
        ensures
            final(self).wf(),
            final(self).covers(x as int, y as int),
            final(self).level() >= old(self).level(),
            final(self).mid_x() == old(self).mid_x(),
            final(self).mid_y() == old(self).mid_y(),
            forall|a: int, b: int|
                #[trigger] final(self).cell_at(a, b) == (if a == x && b == y {
                    1
                } else {
                    old(self).cell_at(a, b)
                }),
            final(self).population() + old(self).cell_at(x as int, y as int) == old(self).population() + 1,
            forall|m: nat|
                old(self).level() <= m < final(self).level() ==> !#[trigger] old(self).frame_covers(
                    m,
                    x as int,
                    y as int,
                ),
            old(self).cell_at(x as int, y as int) == 1 ==> final(self).root() == old(self).root(),
            final(self).space().extends(&old(self).space()),
            forall|j: nat|
                #![trigger old(self).consistent(j)]
                #![trigger final(self).consistent(j)]
                old(self).consistent(j) ==> final(self).consistent(j),
    {
        let ghost m = choose|m: nat|
            self.level() <= m && #[trigger] self.frame_fits(m) && self.frame_covers(
                m,
                x as int,
                y as int,
            );
        proof {
            lemma_side_fits(self.level());
            self.space.lemma_level_below_len(self.root_id);
            self.space.lemma_extends_refl();
        }
        let mut root_dim = 2i32.pow(self.root_id.fetch_from(&self.space).level() as u32);
        while x < self.root_x || y < self.root_y || x >= self.root_x + root_dim || y >= self.root_y
            + root_dim
            invariant
                self.wf(),
                old(self).wf(),
                root_dim == self.dim(),
                old(self).level() <= self.level() <= m,
                self.frame_fits(m),
                self.frame_covers(m, x as int, y as int),
                self.mid_x() == old(self).mid_x(),
                self.mid_y() == old(self).mid_y(),
                self.same_cells(old(self)),
                self.population() == old(self).population(),
                self.space().extends(&old(self).space()),
                old(self).covers(x as int, y as int) ==> *self == *old(self),
                forall|k: nat|
                    old(self).level() <= k < self.level() ==> !#[trigger] old(self).frame_covers(
                        k,
                        x as int,
                        y as int,
                    ),
            decreases m - self.level(),
        {
            proof {
                if self.level() < m {
                    self.lemma_frame_fits_below(m, self.level() + 1);
                }
                assert(side(self.level()) == 2 * side((self.level() - 1) as nat));
                assert(!old(self).frame_covers(self.level(), x as int, y as int));
            }
            let ghost prev = *self;
            self.grow();
            proof {
                lemma_side_fits(self.level());
                self.space.lemma_level_below_len(self.root_id);
                self.space.lemma_extends_trans(&prev.space, &old(self).space);
                assert forall|a: int, b: int| #[trigger]
                    self.cell_at(a, b) == old(self).cell_at(a, b) by {
                    assert(self.cell_at(a, b) == prev.cell_at(a, b));
                }
            }
            root_dim = 2i32.pow(self.root_id.fetch_from(&self.space).level() as u32);
        }
        let adjusted_x = x - self.root_x;
        let adjusted_y = y - self.root_y;
        let ghost grown = *self;
        proof {
            assert(grown.cell_at(x as int, y as int) == old(self).cell_at(x as int, y as int));
            self.space.lemma_cell_binary(self.root_id);
        }
        self.root_id = self.space.set_tree_pos(
            self.root_id,
            adjusted_x as usize,
            adjusted_y as usize,
            1,
        );
        proof {
            self.space.lemma_extends_trans(&grown.space, &old(self).space);
            assert forall|a: int, b: int| #[trigger]
                self.cell_at(a, b) == (if a == x && b == y {
                    1
                } else {
                    old(self).cell_at(a, b)
                }) by {
                assert(grown.cell_at(a, b) == old(self).cell_at(a, b));
                if self.covers(a, b) {
                    assert(grown.space.covers(
                        grown.root_id,
                        a - grown.origin_x(),
                        b - grown.origin_y(),
                    ));
                }
            }
            assert forall|j: nat| #[trigger] old(self).consistent(j) implies self.consistent(j) by {
                self.space.lemma_consistent_extends(&old(self).space, j);
            }
        }
    }

    /// Tells whether the frame can grow to hold `(x, y)` within `i32`
    /// coordinates.
    pub fn in_reach(&self, x: i32, y: i32) -> (b: bool)
        requires
            self.wf(),
        ensures
            b == self.reachable(x as int, y as int),
    {
        proof {
            lemma_side_fits(self.level());
            self.space.lemma_level_below_len(self.root_id);
        }
        let mut level: usize = self.root_id.fetch_from(&self.space).level();
        let mut dim: i64 = 2i32.pow(level as u32) as i64;
        let mut x0: i64 = self.root_x as i64;
        let mut y0: i64 = self.root_y as i64;
        let mut found = false;
        loop
            invariant
                self.wf(),
                self.level() <= level <= MAX_LEVEL,
                dim == side(level as nat),
                x0 == self.mid_x() - side((level - 1) as nat),
                y0 == self.mid_y() - side((level - 1) as nat),
                level >= 1,
                self.frame_fits(level as nat),
                forall|m: nat|
                    self.level() <= m < level ==> !#[trigger] self.frame_covers(m, x as int, y as int),
            ensures
                found == self.reachable(x as int, y as int),
            decreases MAX_LEVEL - level,
        {
            if x0 <= x as i64 && (x as i64) < x0 + dim && y0 <= y as i64 && (y as i64) < y0 + dim {
                assert(self.frame_covers(level as nat, x as int, y as int));
                found = true;
                break;
            }
            proof {
                lemma_side_fits(level as nat);
                assert(side((level + 1) as nat) == 2 * side(level as nat));
                assert(side(level as nat) == 2 * side((level - 1) as nat));
            }
            if level == MAX_LEVEL || x0 - dim / 2 < i32::MIN as i64 || x0 + dim + dim / 2
                > i32::MAX as i64 || y0 - dim / 2 < i32::MIN as i64 || y0 + dim + dim / 2
                > i32::MAX as i64 {
                proof {
                    assert forall|m: nat|
                        !(self.level() <= m && #[trigger] self.frame_fits(m) && self.frame_covers(
                            m,
                            x as int,
                            y as int,
                        )) by {
                        if self.level() <= m && self.frame_fits(m) && m > level {
                            self.lemma_frame_fits_below(m, (level + 1) as nat);
                        }
                    }
                }
                found = false;
                break;
            }
            x0 = x0 - dim / 2;
            y0 = y0 - dim / 2;
            dim = dim * 2;
            level = level + 1;
        }
        found
    }

    /// Grows the frame until the live cells keep clear of its border: until
    /// the root has level 3 or more and the population of each quadrant
    /// lies in the quadrant's innermost sub-quadrant two levels down. At
    /// most two expansions are needed.
    pub fn center(&mut self, n: usize)
        requires
            old(self).wf(),
            old(self).frame_fits(old(self).level() + 2),
        ensures
            final(self).wf(),
            final(self).padded(),
            old(self).level() <= final(self).level() <= old(self).level() + 2,
            old(self).clear_at(final(self).level()),
            forall|l: nat|
                old(self).level() <= l < final(self).level() ==> !#[trigger] old(self).clear_at(l),
            final(self).mid_x() == old(self).mid_x(),
            final(self).mid_y() == old(self).mid_y(),
            final(self).population() == old(self).population(),
            final(self).same_cells(old(self)),
            final(self).space().extends(&old(self).space()),
            forall|j: nat|
                #![trigger old(self).consistent(j)]
                #![trigger final(self).consistent(j)]
                old(self).consistent(j) ==> final(self).consistent(j),
    {
        let ghost l0 = self.level();
        let ghost mut k: nat = 0;
        proof {
            self.space.lemma_extends_refl();
            assert(side(l0) == 2 * side((l0 - 1) as nat));
        }
        loop
            invariant
                self.wf(),
                old(self).wf(),
                old(self).frame_fits(l0 + 2),
                l0 == old(self).level(),
                self.level() == l0 + k,
                k <= 2,
                self.space.margin(self.root_id, side(l0) as int),
                forall|l: nat| l0 <= l < self.level() ==> !#[trigger] old(self).clear_at(l),
                self.mid_x() == old(self).mid_x(),
                self.mid_y() == old(self).mid_y(),
                self.population() == old(self).population(),
                self.same_cells(old(self)),
                self.space().extends(&old(self).space()),
            ensures
                self.wf(),
                self.padded(),
                self.level() == l0 + k,
                k <= 2,
                forall|l: nat| l0 <= l < self.level() ==> !#[trigger] old(self).clear_at(l),
                self.mid_x() == old(self).mid_x(),
                self.mid_y() == old(self).mid_y(),
                self.population() == old(self).population(),
                self.same_cells(old(self)),
                self.space().extends(&old(self).space()),
            decreases 2 - k,
        {
            proof {
                self.space.lemma_quadrants(self.root_id);
            }
            let tree = self.root_id.fetch_node(&self.space);
            if tree.level >= 3 {
                proof {
                    self.space.lemma_quadrants(tree.north_west);
                    self.space.lemma_quadrants(tree.north_east);
                    self.space.lemma_quadrants(tree.south_west);
                    self.space.lemma_quadrants(tree.south_east);
                    self.space.lemma_quadrants(
                        self.space.node(tree.north_west)->Node_0.south_east,
                    );
                    self.space.lemma_quadrants(
                        self.space.node(tree.north_east)->Node_0.south_west,
                    );
                    self.space.lemma_quadrants(
                        self.space.node(tree.south_west)->Node_0.north_east,
                    );
                    self.space.lemma_quadrants(
                        self.space.node(tree.south_east)->Node_0.north_west,
                    );
                }
                let (nw_pop, ne_pop, sw_pop, se_pop) = (
                    tree.north_west.fetch_from(&self.space).population(),
                    tree.north_east.fetch_from(&self.space).population(),
                    tree.south_west.fetch_from(&self.space).population(),
                    tree.south_east.fetch_from(&self.space).population(),
                );
                let (nw_inner_pop, ne_inner_pop, sw_inner_pop, se_inner_pop) = (
                    tree.north_west.fetch_node(&self.space).south_east.fetch_node(
                        &self.space,
                    ).south_east.fetch_from(&self.space).population(),
                    tree.north_east.fetch_node(&self.space).south_west.fetch_node(
                        &self.space,
                    ).south_west.fetch_from(&self.space).population(),
                    tree.south_west.fetch_node(&self.space).north_east.fetch_node(
                        &self.space,
                    ).north_east.fetch_from(&self.space).population(),
                    tree.south_east.fetch_node(&self.space).north_west.fetch_node(
                        &self.space,
                    ).north_west.fetch_from(&self.space).population(),
                );
                proof {
                    assert(nw_inner_pop == self.space.population(
                        self.space.inner(tree, false, true),
                    ));
                    assert(ne_inner_pop == self.space.population(
                        self.space.inner(tree, true, true),
                    ));
                    assert(sw_inner_pop == self.space.population(
                        self.space.inner(tree, false, false),
                    ));
                    assert(se_inner_pop == self.space.population(
                        self.space.inner(tree, true, false),
                    ));
                }
                if nw_pop == nw_inner_pop && ne_pop == ne_inner_pop && sw_pop == sw_inner_pop
                    && se_pop == se_inner_pop {
                    proof {
                        assert forall|east: bool, north: bool|
                            #![trigger tree.quadrant(east, north)]
                            self.space.population(tree.quadrant(east, north))
                                == self.space.population(self.space.inner(tree, east, north)) by {}
                    }
                    break;
                }
            }
            proof {
                assert(!self.padded()) by {
                    if self.padded() {
                        assert(self.space.population(tree.quadrant(false, true))
                            == self.space.population(self.space.inner(tree, false, true)));
                        assert(self.space.population(tree.quadrant(true, true))
                            == self.space.population(self.space.inner(tree, true, true)));
                        assert(self.space.population(tree.quadrant(false, false))
                            == self.space.population(self.space.inner(tree, false, false)));
                        assert(self.space.population(tree.quadrant(true, false))
                            == self.space.population(self.space.inner(tree, true, false)));
                    }
                }
                self.lemma_padded_is_clear();
                self.lemma_clear_same(old(self), self.level());
                if k == 2 {
                    self.space.lemma_margin_padded(self.root_id);
                    assert(self.space.population(tree.quadrant(false, true))
                        == self.space.population(self.space.inner(tree, false, true)));
                    assert(self.space.population(tree.quadrant(true, true))
                        == self.space.population(self.space.inner(tree, true, true)));
                    assert(self.space.population(tree.quadrant(false, false))
                        == self.space.population(self.space.inner(tree, false, false)));
                    assert(self.space.population(tree.quadrant(true, false))
                        == self.space.population(self.space.inner(tree, true, false)));
                    assert(false);
                }
                old(self).lemma_frame_fits_below(l0 + 2, l0 + k + 1);
            }
            let ghost prev = *self;
            self.grow();
            proof {
                self.space.lemma_extends_trans(&prev.space, &old(self).space);
                assert forall|a: int, b: int| #[trigger]
                    self.cell_at(a, b) == old(self).cell_at(a, b) by {
                    assert(self.cell_at(a, b) == prev.cell_at(a, b));
                }
                Space::lemma_margin_expansion(
                    &self.space,
                    self.root_id,
                    &prev.space,
                    prev.root_id,
                    side(l0) as int,
                );
                k = k + 1;
            }
        }
        proof {
            self.lemma_padded_is_clear();
            self.lemma_clear_same(old(self), self.level());
            assert forall|j: nat| #[trigger] old(self).consistent(j) implies self.consistent(j) by {
                self.space.lemma_consistent_extends(&old(self).space, j);
            }
        }
    }

    /// Whether [`Universe::set`] can set the cell at `(x, y)`: the frame
    /// can grow to hold it, and the population has room for it or the cell
    /// is alive already.
    pub open spec fn set_fits(&self, x: int, y: int) -> bool {
        self.reachable(x, y) && (self.population() < usize::MAX || self.cell_at(x, y) == 1)
    }

    /// Tells whether [`Universe::set`] can set the cell at `(x, y)`.
    pub fn can_set(&self, x: i32, y: i32) -> (b: bool)
        requires
            self.wf(),
        ensures
            b == self.set_fits(x as int, y as int),
    {
        if !self.in_reach(x, y) {
            return false;
        }
        if self.root_id.fetch_from(&self.space).population() < usize::MAX {
            return true;
        }
        proof {
            lemma_side_fits(self.level());
            self.space.lemma_level_below_len(self.root_id);
            assert(side(self.level()) == 2 * side((self.level() - 1) as nat));
        }
        let dim = 2i32.pow(self.root_id.fetch_from(&self.space).level() as u32);
        if x < self.root_x || y < self.root_y || x >= self.root_x + dim || y >= self.root_y + dim {
            return false;
        }
        self.space.get_tree_cell(self.root_id, (x - self.root_x) as usize, (y - self.root_y) as usize)
            == 1
    }

    /// Tells whether [`Universe::center`] has room: the frame can grow by
    /// two levels within `i32` coordinates.
    pub fn can_center(&self) -> (b: bool)
        requires
            self.wf(),
        ensures
            b == self.frame_fits(self.level() + 2),
    {
        proof {
            lemma_side_fits(self.level());
            self.space.lemma_level_below_len(self.root_id);
            assert(side(self.level() + 1) == 2 * side(self.level()));
            assert(side(self.level()) == 2 * side((self.level() - 1) as nat));
        }
        let level = self.root_id.fetch_from(&self.space).level();
        if level + 2 > MAX_LEVEL {
            return false;
        }
        let dim: i64 = 2i32.pow(level as u32) as i64;
        let mid_x: i64 = self.root_x as i64 + dim / 2;
        let mid_y: i64 = self.root_y as i64 + dim / 2;
        i32::MIN as i64 <= mid_x - 2 * dim && mid_x + 2 * dim <= i32::MAX as i64 && i32::MIN as i64
            <= mid_y - 2 * dim && mid_y + 2 * dim <= i32::MAX as i64
    }

    /// Tells whether [`Universe::advance`] has room.
    pub fn can_advance(&self) -> (b: bool)
        requires
            self.wf(),
        ensures
            b == self.advance_fits(),
    {
        if !self.can_center() {
            return false;
        }
        let level = self.root_id.fetch_from(&self.space).level();
        let mut a: usize = 1;
        let mut i: usize = 0;
        while i < level + 1
            invariant
                i <= level + 1,
                level <= MAX_LEVEL,
                level == self.level(),
                self.frame_fits(self.level() + 2),
                a == area(i as nat),
            decreases level + 1 - i,
        {
            if a > usize::MAX / 4 {
                proof {
                    assert(area((i + 1) as nat) == 4 * area(i as nat));
                    Space::lemma_area_monotonic((i + 1) as nat, (level + 1) as nat);
                }
                return false;
            }
            a = a * 4;
            i = i + 1;
        }
        true
    }

    /// Whether [`Universe::advance`] has room: the frame can grow by two
    /// levels within `i32` coordinates, and the populations of the trees
    /// that the evolution builds fit in a `usize`.
    pub open spec fn advance_fits(&self) -> bool {
        self.frame_fits(self.level() + 2) && area(self.level() + 1) <= usize::MAX
    }

    /// Whether `p` is the root of `old` as padded, held in this universe's
    /// store: a tree one level above this universe's root that shows the
    /// cells of `old` about the same middle.
    pub open spec fn is_padded_root_of(&self, old: &Universe, p: ID) -> bool {
        let sp = self.space();
        let ox = self.mid_x() - side(self.level());
        let oy = self.mid_y() - side(self.level());
        &&& sp.contains(p)
        &&& sp.level(p) == self.level() + 1
        &&& forall|x: int, y: int|
            sp.covers(p, x, y) ==> #[trigger] sp.cell(p, x, y) == old.cell_at(x + ox, y + oy)
    }

    /// Advances the universe: pads the frame, replaces the root by the
    /// centre of the padded root as evolved under budget `steps`, and moves
    /// the corner forward by a quarter of the padded side.
    ///
    /// Where the memoized results of the store are those that budget
    /// `steps` gives, the new root shows, on its square, the configuration
    /// of the universe `2^min(steps, l - 2)` generations later, `l` being
    /// the level of the padded root. What has moved out of that square is
    /// lost. Whatever the store held, the new root is the result that the
    /// padded root has memoized from then on.
    pub fn advance(&mut self, steps: usize)
        requires
            old(self).wf(),
            old(self).advance_fits(),
        ensures
            final(self).wf(),
            old(self).level() <= final(self).level() + 1 <= old(self).level() + 2,
            old(self).clear_at(final(self).level() + 1),
            forall|l: nat|
                old(self).level() <= l < final(self).level() + 1 ==> !#[trigger] old(self).clear_at(
                    l,
                ),
            final(self).mid_x() == old(self).mid_x(),
            final(self).mid_y() == old(self).mid_y(),
            final(self).space().grows_from(&old(self).space()),
            exists|p: ID|
                #[trigger] final(self).is_padded_root_of(old(self), p) && final(self).space().node(
                    p,
                ).spec_next() == Some(final(self).root()),
            old(self).consistent(steps as nat) ==> {
                &&& final(self).consistent(steps as nat)
                &&& final(self).shows_grid(
                    crate::life::steps(
                        old(self).grid(),
                        span(final(self).level() + 1, steps as nat),
                    ),
                )
            },
    {
        self.center(0);
        let ghost u1 = *self;
        let ghost l = self.level();
        let ghost g = old(self).grid();
        proof {
            lemma_side_fits(l);
            lemma_side_fits((l - 1) as nat);
            self.space.lemma_level_below_len(self.root_id);
            Space::lemma_area_monotonic((l - 1) as nat, old(self).level() + 1);
            assert(side(l) == 2 * side((l - 1) as nat));
            assert(side((l - 1) as nat) == 2 * side((l - 2) as nat));
        }
        let rd = 2i32.pow(self.root_id.fetch_from(&self.space).level() as u32 - 1);
        self.root_id = self.space.evolve_tree(self.root_id, steps);
        self.root_x += rd / 2;
        self.root_y += rd / 2;
        proof {
            let q = side((l - 2) as nat) as int;
            self.space.lemma_grows_node(&u1.space, u1.root_id);
            u1.space.lemma_extends_grows(&old(self).space);
            self.space.lemma_grows_trans(&u1.space, &old(self).space);
            self.space.lemma_cells_grow(&u1.space, u1.root_id);
            u1.lemma_padded_is_clear();
            assert(self.is_padded_root_of(old(self), u1.root_id)) by {
                assert forall|x: int, y: int|
                    self.space.covers(u1.root_id, x, y) implies #[trigger] self.space.cell(
                    u1.root_id,
                    x,
                    y,
                ) == old(self).cell_at(x + u1.origin_x(), y + u1.origin_y()) by {
                    assert(u1.space.covers(u1.root_id, x, y));
                    assert(u1.cell_at(x + u1.origin_x(), y + u1.origin_y()) == old(self).cell_at(
                        x + u1.origin_x(),
                        y + u1.origin_y(),
                    ));
                }
            }
            assert(self.space.node(u1.root_id).spec_next() == Some(self.root_id));
            if old(self).consistent(steps as nat) {
                u1.space.lemma_consistent_upto(steps as nat, l);
                assert(u1.space.shows(u1.root_id, g, u1.origin_x(), u1.origin_y())) by {
                    assert forall|x: int, y: int|
                        u1.space.covers(u1.root_id, x, y) implies (#[trigger] u1.space.cell(
                        u1.root_id,
                        x,
                        y,
                    ) != 0) == g(u1.origin_x() + x, u1.origin_y() + y) by {
                        let (ax, ay) = (u1.origin_x() + x, u1.origin_y() + y);
                        assert(u1.cell_at(ax, ay) == old(self).cell_at(ax, ay));
                    }
                }
                self.space.lemma_shows_grows(
                    &u1.space,
                    u1.root_id,
                    g,
                    u1.origin_x(),
                    u1.origin_y(),
                );
                let t = span(l, steps as nat);
                let h = crate::life::steps(g, t);
                assert(self.space.shows(self.root_id, h, u1.origin_x() + q, u1.origin_y() + q));
                assert forall|x: int, y: int| self.covers(x, y) implies (#[trigger] self.cell_at(
                    x,
                    y,
                ) != 0) == h(x, y) by {
                    let lx = x - self.origin_x();
                    let ly = y - self.origin_y();
                    assert(self.space.covers(self.root_id, lx, ly));
                    assert((self.space.cell(self.root_id, lx, ly) != 0) == h(
                        u1.origin_x() + q + lx,
                        u1.origin_y() + q + ly,
                    ));
                }
            }
        }
    }

    /// The live cells in the closed box from `(x0, y0)` to `(x1, y1)`, in
    /// quadrant order.
    pub open spec fn live(&self, x0: int, y0: int, x1: int, y1: int) -> Seq<(int, int)> {
        self.space().live_cells(self.root(), self.origin_x(), self.origin_y(), x0, y0, x1, y1)
    }

    /// Every position that is listed lies in the box and holds a live
    /// cell.
    pub proof fn lemma_live_sound(&self, x0: int, y0: int, x1: int, y1: int, i: int)
        requires
            self.wf(),
            0 <= i < self.live(x0, y0, x1, y1).len(),
        ensures
            self.cell_at(self.live(x0, y0, x1, y1)[i].0, self.live(x0, y0, x1, y1)[i].1) == 1,
            x0 <= self.live(x0, y0, x1, y1)[i].0 <= x1,
            y0 <= self.live(x0, y0, x1, y1)[i].1 <= y1,
    {
        self.space().lemma_live_cells_sound(
            self.root(),
            self.origin_x(),
            self.origin_y(),
            x0,
            y0,
            x1,
            y1,
        );
        let p = self.live(x0, y0, x1, y1)[i];
        assert(self.space().covers(self.root(), p.0 - self.origin_x(), p.1 - self.origin_y()));
    }

    /// Every live cell in the query box is listed.
    pub proof fn lemma_live_complete(&self, x0: int, y0: int, x1: int, y1: int, x: int, y: int)
        requires
            self.wf(),
            self.cell_at(x, y) != 0,
            x0 <= x <= x1,
            y0 <= y <= y1,
        ensures
            self.live(x0, y0, x1, y1).contains((x, y)),
    {
        self.space().lemma_live_cells_complete(
            self.root(),
            self.origin_x(),
            self.origin_y(),
            x0,
            y0,
            x1,
            y1,
            x,
            y,
        );
    }

    /// Lists the live cells for the closed query box from `(min_x, min_y)`
    /// to `(max_x, max_y)`, as a flat sequence of alternating x and y
    /// coordinates.
    pub fn coords(&mut self, min_x: i32, min_y: i32, max_x: i32, max_y: i32) -> (r: Vec<i32>)
        requires
            old(self).wf(),
        ensures
            *final(self) == *old(self),
            ints(r@) == flat(
                old(self).live(min_x as int, min_y as int, max_x as int, max_y as int),
            ),
    {
        proof {
            lemma_side_fits(self.level());
        }
        let coords = self.space.get_coords(
            self.root_id,
            self.root_x,
            self.root_y,
            min_x,
            min_y,
            max_x,
            max_y,
        );
        let ghost pts = points(coords@);
        let mut results: Vec<i32> = Vec::new();
        let mut i: usize = 0;
        while i < coords.len()
            invariant
                i <= coords.len(),
                pts == points(coords@),
                ints(results@) == flat(pts.take(i as int)),
            decreases coords.len() - i,
        {
            let (cx, cy) = coords[i];
            let ghost before = results@;
            results.push(cx);
            results.push(cy);
            proof {
                let a = flat(pts.take(i as int));
                let b = flat(pts.take(i + 1));
                assert(pts.take(i + 1)[i as int] == pts[i as int]);
                assert(a.len() == 2 * i);
                assert(ints(before).len() == 2 * i);
                assert(results@.len() == 2 * i + 2);
                assert(b.len() == 2 * i + 2);
                assert(ints(results@) =~= b) by {
                    assert(ints(results@).len() == b.len());
                    assert forall|k: int| 0 <= k < b.len() implies ints(results@)[k] == b[k] by {
                        if k < 2 * i {
                            assert(ints(before)[k] == a[k]);
                            assert(pts.take(i as int)[k / 2] == pts.take(i + 1)[k / 2]);
                        }
                    }
                }
            }
            i = i + 1;
        }
        proof {
            assert(pts.take(coords.len() as int) =~= pts);
        }
        results
    }

    /// The level of the root.
    pub fn root_level(&self) -> (r: usize)
        requires
            self.wf(),
        ensures
            r == self.level(),
    {
        self.root_id.fetch_from(&self.space).level()
    }

    /// The handle of the root.
    pub fn root_id(&self) -> (r: ID)
        ensures
            r == self.root(),
    {
        self.root_id
    }

    /// The minimum x coordinate contained in the universe.
    pub fn root_x(&self) -> (r: i32)
        ensures
            r == self.origin_x(),
    {
        self.root_x
    }

    /// The minimum y coordinate contained in the universe.
    pub fn root_y(&self) -> (r: i32)
        ensures
            r == self.origin_y(),
    {
        self.root_y
    }

    /// A position in reach stays in reach when the frame grows about its
    /// middle.
    pub proof fn lemma_reachable_kept(&self, old: &Universe, x: int, y: int)
        requires
            old.wf(),
            self.wf(),
            self.level() >= old.level(),
            self.mid_x() == old.mid_x(),
            self.mid_y() == old.mid_y(),
            old.reachable(x, y),
        ensures
            self.reachable(x, y),
    {
        let m = choose|m: nat|
            old.level() <= m && #[trigger] old.frame_fits(m) && old.frame_covers(m, x, y);
        if m >= self.level() {
            assert(self.frame_fits(m) && self.frame_covers(m, x, y));
        } else {
            lemma_side_monotonic((m - 1) as nat, (self.level() - 1) as nat);
            assert(self.frame_fits(self.level()) && self.frame_covers(self.level(), x, y));
        }
    }

    /// Whether the cells can all be set: each is in reach of the frame, and
    /// the population has room for them.
    pub open spec fn can_place(&self, cells: Seq<(int, int)>) -> bool {
        &&& forall|i: int| 0 <= i < cells.len() ==> self.reachable((#[trigger] cells[i]).0, cells[i].1)
        &&& self.population() + cells.len() <= usize::MAX
    }

    /// Whether a frame of level `m` about the middle fails to hold one of
    /// the cells.
    pub open spec fn leaves_out(&self, m: nat, cells: Seq<(int, int)>) -> bool {
        exists|i: int|
            0 <= i < cells.len() && !self.frame_covers(m, (#[trigger] cells[i]).0, cells[i].1)
    }

    /// Whether this universe is `old` with the given cells set alive.
    pub open spec fn is_placement_of(&self, old: &Universe, cells: Seq<(int, int)>) -> bool {
        forall|a: int, b: int|
            #[trigger] self.cell_at(a, b) == (if cells.contains((a, b)) {
                1
            } else {
                old.cell_at(a, b)
            })
    }

    /// Reads a run-length encoded pattern and sets its cells alive, at the
    /// absolute positions that the pattern gives them.
    ///
    /// Nothing is set unless the text is a pattern and all of its cells
    /// can be set.
    pub fn from_rle(&mut self, rle_str: String) -> (r: Result<(), RleError>)
        requires
            old(self).wf(),
        ensures
            final(self).wf(),
            final(self).mid_x() == old(self).mid_x(),
            final(self).mid_y() == old(self).mid_y(),
            match pattern_of(vstd::utf8::encode_utf8(rle_str@)) {
                Err(e) => r == Err::<(), RleError>(e) && *final(self) == *old(self),
                Ok((_, _, cells)) => if old(self).can_place(cells) {
                    &&& r == Ok::<(), RleError>(())
                    &&& final(self).is_placement_of(old(self), cells)
                    &&& final(self).level() >= old(self).level()
                    &&& forall|m: nat|
                        old(self).level() <= m < final(self).level()
                            ==> #[trigger] old(self).leaves_out(m, cells)
                    &&& final(self).space().extends(&old(self).space())
                    &&& (forall|i: int|
                        0 <= i < cells.len() ==> old(self).cell_at(
                            (#[trigger] cells[i]).0,
                            cells[i].1,
                        ) == 1) ==> final(self).root() == old(self).root() && final(self).level()
                        == old(self).level()
                } else {
                    r == Err::<(), RleError>(RleError::OutOfReach) && *final(self) == *old(self)
                },
            },
            forall|j: nat|
                #![trigger old(self).consistent(j)]
                #![trigger final(self).consistent(j)]
                old(self).consistent(j) ==> final(self).consistent(j),
    {
        let pattern = match parse_rle(rle_str.as_str().as_bytes()) {
            Ok(p) => p,
            Err(e) => {
                return Err(e);
            },
        };
        let cells = pattern.cells;
        let ghost pts = points(cells@);
        let ghost read = pattern_of(vstd::utf8::encode_utf8(rle_str@));
        proof {
            assert(read is Ok && read->Ok_0.2 == pts);
        }
        let population = self.root_id.fetch_from(&self.space).population();
        if population > usize::MAX - cells.len() {
            return Err(RleError::OutOfReach);
        }
        let mut i: usize = 0;
        while i < cells.len()
            invariant
                self.wf(),
                *self == *old(self),
                read == pattern_of(vstd::utf8::encode_utf8(rle_str@)),
                read is Ok && read->Ok_0.2 == pts,
                pts == points(cells@),
                i <= cells.len(),
                forall|k: int| 0 <= k < i ==> self.reachable((#[trigger] pts[k]).0, pts[k].1),
            decreases cells.len() - i,
        {
            let (cx, cy) = cells[i];
            if !self.in_reach(cx, cy) {
                proof {
                    assert(pts[i as int] == (cx as int, cy as int));
                    assert(!old(self).reachable(pts[i as int].0, pts[i as int].1));
                    assert(!old(self).can_place(pts));
                }
                return Err(RleError::OutOfReach);
            }
            i = i + 1;
        }
        proof {
            self.space.lemma_extends_refl();
        }
        let mut i: usize = 0;
        while i < cells.len()
            invariant
                self.wf(),
                old(self).wf(),
                read == pattern_of(vstd::utf8::encode_utf8(rle_str@)),
                read is Ok && read->Ok_0.2 == pts,
                pts == points(cells@),
                i <= cells.len(),
                old(self).population() + cells.len() <= usize::MAX,
                self.population() <= old(self).population() + i,
                self.level() >= old(self).level(),
                self.mid_x() == old(self).mid_x(),
                self.mid_y() == old(self).mid_y(),
                forall|k: int| 0 <= k < pts.len() ==> self.reachable((#[trigger] pts[k]).0, pts[k].1),
                self.is_placement_of(old(self), pts.take(i as int)),
                self.space().extends(&old(self).space()),
                forall|m: nat|
                    old(self).level() <= m < self.level() ==> #[trigger] old(self).leaves_out(
                        m,
                        pts,
                    ),
                (forall|k: int|
                    0 <= k < pts.len() ==> old(self).cell_at((#[trigger] pts[k]).0, pts[k].1) == 1)
                    ==> self.root() == old(self).root() && self.level() == old(self).level(),
            decreases cells.len() - i,
        {
            let (cx, cy) = cells[i];
            let ghost prev = *self;
            proof {
                assert(self.reachable(pts[i as int].0, pts[i as int].1));
                prev.space.lemma_cell_binary(prev.root_id);
            }
            self.set(cx, cy);
            proof {
                self.space.lemma_extends_trans(&prev.space, &old(self).space);
                assert forall|m: nat|
                    old(self).level() <= m < self.level() implies #[trigger] old(self).leaves_out(
                    m,
                    pts,
                ) by {
                    if m >= prev.level() {
                        assert(!prev.frame_covers(m, cx as int, cy as int));
                        assert(pts[i as int] == (cx as int, cy as int));
                    }
                }
                if forall|k: int|
                    0 <= k < pts.len() ==> old(self).cell_at((#[trigger] pts[k]).0, pts[k].1) == 1 {
                    assert(old(self).cell_at(pts[i as int].0, pts[i as int].1) == 1);
                    assert(prev.cell_at(cx as int, cy as int) == 1);
                }
                assert forall|k: int| 0 <= k < pts.len() implies self.reachable(
                    (#[trigger] pts[k]).0,
                    pts[k].1,
                ) by {
                    self.lemma_reachable_kept(&prev, pts[k].0, pts[k].1);
                }
                let before = pts.take(i as int);
                let after = pts.take(i + 1);
                assert(after == before.push(pts[i as int]));
                assert forall|a: int, b: int| #[trigger]
                    self.cell_at(a, b) == (if after.contains((a, b)) {
                        1
                    } else {
                        old(self).cell_at(a, b)
                    }) by {
                    if a == cx && b == cy {
                        assert(after[i as int] == (a, b));
                    } else {
                        assert(self.cell_at(a, b) == prev.cell_at(a, b));
                        if before.contains((a, b)) {
                            let k = choose|k: int| 0 <= k < before.len() && before[k] == (a, b);
                            assert(after[k] == (a, b));
                        }
                        if after.contains((a, b)) {
                            let k = choose|k: int| 0 <= k < after.len() && after[k] == (a, b);
                            assert(k < i);
                            assert(before[k] == (a, b));
                        }
                    }
                }
            }
            i = i + 1;
        }
        proof {
            assert(pts.take(cells.len() as int) =~= pts);
            assert forall|j: nat| #[trigger] old(self).consistent(j) implies self.consistent(j) by {
                self.space.lemma_consistent_extends(&old(self).space, j);
            }
        }
        Ok(())
    }
}

} // verus!
