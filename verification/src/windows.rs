//! Windows cut out of trees without advancing them.

use crate::node::ID;
use crate::pow2::side;
use crate::space::Space;
use vstd::prelude::*;

verus! {

impl Space {
    /// Returns the centre of the tree: the node of half its side made of
    /// the innermost quadrant of each of its quadrants.
    pub fn centered_sub(&mut self, id: ID) -> (r: ID)
        requires
            old(self).wf(),
            old(self).contains(id),
            old(self).level(id) >= 2,
        ensures
            final(self).wf(),
            final(self).extends(old(self)),
            final(self).contains(r),
            final(self).advances(id, r, 0),
    {
        proof {
            self.lemma_derives_grandchild(id, false, true, true, false);
            self.lemma_derives_grandchild(id, true, true, false, false);
            self.lemma_derives_grandchild(id, false, false, true, true);
            self.lemma_derives_grandchild(id, true, false, false, true);
            assert(self.node_ok(id));
            let n = self.node(id)->Node_0;
            assert(self.node_ok(n.north_west));
            assert(self.node_ok(n.north_east));
            assert(self.node_ok(n.south_west));
            assert(self.node_ok(n.south_east));
        }
        let node = id.fetch_node(self);
        let (nw, ne, sw, se) = (
            node.north_west.fetch_node(self).south_east,
            node.north_east.fetch_node(self).south_west,
            node.south_west.fetch_node(self).north_east,
            node.south_east.fetch_node(self).north_west,
        );
        let r = self.new_node(nw, ne, sw, se);
        proof {
            let q = side((old(self).level(id) - 2) as nat) as int;
            self.lemma_extends_grows(old(self));
            self.lemma_grows_node(old(self), id);
            self.lemma_grows_node(old(self), nw);
            self.lemma_derives_grows(old(self), id, q, 2 * q, nw, 0);
            self.lemma_derives_grows(old(self), id, 2 * q, 2 * q, ne, 0);
            self.lemma_derives_grows(old(self), id, q, q, sw, 0);
            self.lemma_derives_grows(old(self), id, 2 * q, q, se, 0);
            self.lemma_derives_node(id, q, q, r, 0);
        }
        r
    }

    /// Returns the window of half the side in the middle of two nodes that
    /// stand side by side: the node made of the innermost quadrants of the
    /// two east quadrants of `west` and the two west quadrants of `east`.
    pub fn centered_horizontal(&mut self, west: ID, east: ID) -> (r: ID)
        requires
            old(self).wf(),
            old(self).contains(west),
            old(self).contains(east),
            old(self).level(west) >= 2,
            old(self).level(east) == old(self).level(west),
            old(self).population(west) + old(self).population(east) <= usize::MAX,
        ensures
            final(self).wf(),
            final(self).extends(old(self)),
            final(self).contains(r),
            final(self).level(r) + 1 == old(self).level(west),
            forall|x: int, y: int|
                final(self).covers(r, x, y) ==> #[trigger] final(self).cell(r, x, y) == ({
                    let q = side((old(self).level(west) - 2) as nat) as int;
                    if x < q {
                        old(self).cell(west, x + 3 * q, y + q)
                    } else {
                        old(self).cell(east, x - q, y + q)
                    }
                }),
    {
        let ghost q = side((self.level(west) - 2) as nat) as int;
        proof {
            self.lemma_derives_grandchild(west, true, true, true, false);
            self.lemma_derives_grandchild(east, false, true, false, false);
            self.lemma_derives_grandchild(west, true, false, true, true);
            self.lemma_derives_grandchild(east, false, false, false, true);
            self.lemma_quadrants(west);
            self.lemma_quadrants(east);
            assert(side((self.level(west) - 1) as nat) == 2 * q);
            assert(side(self.level(west)) == 4 * q);
        }
        let (wn, en) = (west.fetch_node(self), east.fetch_node(self));
        let (nw, ne, sw, se) = (
            wn.north_east.fetch_node(self).south_east,
            en.north_west.fetch_node(self).south_west,
            wn.south_east.fetch_node(self).north_east,
            en.south_west.fetch_node(self).north_west,
        );
        proof {
            self.lemma_quadrants(wn.north_east);
            self.lemma_quadrants(en.north_west);
            self.lemma_quadrants(wn.south_east);
            self.lemma_quadrants(en.south_west);
        }
        let r = self.new_node(nw, ne, sw, se);
        proof {
            self.lemma_extends_grows(old(self));
            self.lemma_cells_grow(old(self), nw);
            self.lemma_cells_grow(old(self), ne);
            self.lemma_cells_grow(old(self), sw);
            self.lemma_cells_grow(old(self), se);
            self.lemma_quadrants(r);
            assert forall|x: int, y: int| self.covers(r, x, y) implies #[trigger] self.cell(
                r,
                x,
                y,
            ) == (if x < q {
                old(self).cell(west, x + 3 * q, y + q)
            } else {
                old(self).cell(east, x - q, y + q)
            }) by {
                self.lemma_cell_unfold(r, x, y);
                if x < q {
                    old(self).lemma_cell_unfold_twice(west, x + 3 * q, y + q);
                } else {
                    old(self).lemma_cell_unfold_twice(east, x - q, y + q);
                }
            }
        }
        r
    }

    /// Returns the window of half the side in the middle of two nodes that
    /// stand one above the other: the node made of the innermost quadrants
    /// of the two south quadrants of `north` and the two north quadrants of
    /// `south`.
    pub fn centered_vertical(&mut self, north: ID, south: ID) -> (r: ID)
        requires
            old(self).wf(),
            old(self).contains(north),
            old(self).contains(south),
            old(self).level(north) >= 2,
            old(self).level(south) == old(self).level(north),
            old(self).population(north) + old(self).population(south) <= usize::MAX,
        ensures
            final(self).wf(),
            final(self).extends(old(self)),
            final(self).contains(r),
            final(self).level(r) + 1 == old(self).level(north),
            forall|x: int, y: int|
                final(self).covers(r, x, y) ==> #[trigger] final(self).cell(r, x, y) == ({
                    let q = side((old(self).level(north) - 2) as nat) as int;
                    if y < q {
                        old(self).cell(south, x + q, y + 3 * q)
                    } else {
                        old(self).cell(north, x + q, y - q)
                    }
                }),
    {
        let ghost q = side((self.level(north) - 2) as nat) as int;
        proof {
            self.lemma_derives_grandchild(north, false, false, true, false);
            self.lemma_derives_grandchild(north, true, false, false, false);
            self.lemma_derives_grandchild(south, false, true, true, true);
            self.lemma_derives_grandchild(south, true, true, false, true);
            self.lemma_quadrants(north);
            self.lemma_quadrants(south);
            assert(side((self.level(north) - 1) as nat) == 2 * q);
            assert(side(self.level(north)) == 4 * q);
        }
        let (nn, sn) = (north.fetch_node(self), south.fetch_node(self));
        let (nw, ne, sw, se) = (
            nn.south_west.fetch_node(self).south_east,
            nn.south_east.fetch_node(self).south_west,
            sn.north_west.fetch_node(self).north_east,
            sn.north_east.fetch_node(self).north_west,
        );
        proof {
            self.lemma_quadrants(nn.south_west);
            self.lemma_quadrants(nn.south_east);
            self.lemma_quadrants(sn.north_west);
            self.lemma_quadrants(sn.north_east);
        }
        let r = self.new_node(nw, ne, sw, se);
        proof {
            self.lemma_extends_grows(old(self));
            self.lemma_cells_grow(old(self), nw);
            self.lemma_cells_grow(old(self), ne);
            self.lemma_cells_grow(old(self), sw);
            self.lemma_cells_grow(old(self), se);
            self.lemma_quadrants(r);
            assert forall|x: int, y: int| self.covers(r, x, y) implies #[trigger] self.cell(
                r,
                x,
                y,
            ) == (if y < q {
                old(self).cell(south, x + q, y + 3 * q)
            } else {
                old(self).cell(north, x + q, y - q)
            }) by {
                self.lemma_cell_unfold(r, x, y);
                if y < q {
                    old(self).lemma_cell_unfold_twice(south, x + q, y + 3 * q);
                } else {
                    old(self).lemma_cell_unfold_twice(north, x + q, y - q);
                }
            }
        }
        r
    }

    /// Returns the centre of the centre of the tree: the node of a quarter
    /// of its side made of the innermost quadrants, two levels down, of its
    /// four quadrants.
    pub fn centered_subsub(&mut self, node: ID) -> (r: ID)
        requires
            old(self).wf(),
            old(self).contains(node),
            old(self).level(node) >= 3,
        ensures
            final(self).wf(),
            final(self).extends(old(self)),
            final(self).contains(r),
            final(self).level(r) + 2 == old(self).level(node),
            final(self).derives(
                node,
                3 * side((old(self).level(node) - 3) as nat) as int,
                3 * side((old(self).level(node) - 3) as nat) as int,
                r,
                0,
            ),
    {
        let ghost l = self.level(node);
        let ghost q = side((l - 3) as nat) as int;
        let ghost p = (node, l, 0int, 0int, 0nat);
        proof {
            assert(side((l - 2) as nat) == 2 * q);
            assert(side((l - 1) as nat) == 4 * q);
            self.lemma_place_self(node, true);
            self.lemma_quadrants(node);
        }
        let n = node.fetch_node(self);
        let ghost p_nw = (n.north_west, (l - 1) as nat, 0int, 4 * q, 0nat);
        let ghost p_ne = (n.north_east, (l - 1) as nat, 4 * q, 4 * q, 0nat);
        let ghost p_sw = (n.south_west, (l - 1) as nat, 0int, 0int, 0nat);
        let ghost p_se = (n.south_east, (l - 1) as nat, 4 * q, 0int, 0nat);
        proof {
            self.lemma_place_child(node, true, p, false, true);
            self.lemma_place_child(node, true, p, true, true);
            self.lemma_place_child(node, true, p, false, false);
            self.lemma_place_child(node, true, p, true, false);
            self.lemma_place_child(node, true, p_nw, true, false);
            self.lemma_place_child(node, true, p_ne, false, false);
            self.lemma_place_child(node, true, p_sw, true, true);
            self.lemma_place_child(node, true, p_se, false, true);
        }
        let (a, b, c, d) = (
            n.north_west.fetch_node(self).south_east,
            n.north_east.fetch_node(self).south_west,
            n.south_west.fetch_node(self).north_east,
            n.south_east.fetch_node(self).north_west,
        );
        let ghost p_a = (a, (l - 2) as nat, 2 * q, 4 * q, 0nat);
        let ghost p_b = (b, (l - 2) as nat, 4 * q, 4 * q, 0nat);
        let ghost p_c = (c, (l - 2) as nat, 2 * q, 2 * q, 0nat);
        let ghost p_d = (d, (l - 2) as nat, 4 * q, 2 * q, 0nat);
        proof {
            self.lemma_place_child(node, true, p_a, true, false);
            self.lemma_place_child(node, true, p_b, false, false);
            self.lemma_place_child(node, true, p_c, true, true);
            self.lemma_place_child(node, true, p_d, false, true);
        }
        let (nw, ne, sw, se) = (
            a.fetch_node(self).south_east,
            b.fetch_node(self).south_west,
            c.fetch_node(self).north_east,
            d.fetch_node(self).north_west,
        );
        proof {
            self.lemma_quadrants(a);
            self.lemma_quadrants(b);
            self.lemma_quadrants(c);
            self.lemma_quadrants(d);
            self.lemma_quadrants(n.north_west);
            self.lemma_quadrants(n.north_east);
            self.lemma_quadrants(n.south_west);
            self.lemma_quadrants(n.south_east);
        }
        let r = self.new_node(nw, ne, sw, se);
        proof {
            let g = (l - 3) as nat;
            self.lemma_extends_grows(old(self));
            self.lemma_grows_node(old(self), node);
            self.lemma_placed_grows(old(self), node, true, (nw, g, 3 * q, 4 * q, 0));
            self.lemma_placed_grows(old(self), node, true, (ne, g, 4 * q, 4 * q, 0));
            self.lemma_placed_grows(old(self), node, true, (sw, g, 3 * q, 3 * q, 0));
            self.lemma_placed_grows(old(self), node, true, (se, g, 4 * q, 3 * q, 0));
            self.lemma_place_node(node, true, r, (l - 2) as nat, 3 * q, 3 * q, 0);
        }
        r
    }
}

} // verus!
