//! The base case of the evolution: one generation on a tree of level 2.

use crate::bits::{
    bit, lemma_bit_of_shift, lemma_next_state_zero, lemma_ones_masked, lemma_shift_doubles,
    lemma_shift_zero, lemma_unpack, next_state,
};
use crate::life::{alive, step, steps, Grid};
use crate::node::{Leaf, QTree, ID};
use crate::pow2::{lemma_side_monotonic, side};
use crate::space::Space;
use vstd::prelude::*;

verus! {

impl Space {
    /// The first `k` cells of a tree of level 2, read row by row from the
    /// south-west corner and packed with the first cell in the highest
    /// place.
    pub open spec fn packed(&self, id: ID, k: nat) -> nat
        decreases k,
    {
        if k == 0 {
            0
        } else {
            2 * self.packed(id, (k - 1) as nat) + self.cell(
                id,
                ((k - 1) % 4) as int,
                ((k - 1) / 4) as int,
            )
        }
    }

    /// `k` packed cells use at most `k` bits.
    pub(crate) proof fn lemma_packed_bound(&self, id: ID, k: nat)
        requires
            self.wf(),
            self.contains(id),
        ensures
            self.packed(id, k) < side(k),
        decreases k,
    {
        if k > 0 {
            self.lemma_packed_bound(id, (k - 1) as nat);
            self.lemma_cell_binary(id);
        }
    }

    /// Bit `15 - (4 * y + x)` of the sixteen packed cells is the cell at
    /// `(x, y)`.
    pub(crate) proof fn lemma_packed_bits(&self, id: ID, bits: u16)
        requires
            self.wf(),
            self.contains(id),
            bits == self.packed(id, 16),
        ensures
            forall|x: int, y: int|
                0 <= x < 4 && 0 <= y < 4 ==> #[trigger] self.cell(id, x, y) == bit(
                    bits,
                    (15 - (4 * y + x)) as u16,
                ),
    {
        self.lemma_cell_binary(id);
        reveal_with_fuel(Space::packed, 17);
        let c0 = self.cell(id, 0, 0) as u16;
        let c1 = self.cell(id, 1, 0) as u16;
        let c2 = self.cell(id, 2, 0) as u16;
        let c3 = self.cell(id, 3, 0) as u16;
        let c4 = self.cell(id, 0, 1) as u16;
        let c5 = self.cell(id, 1, 1) as u16;
        let c6 = self.cell(id, 2, 1) as u16;
        let c7 = self.cell(id, 3, 1) as u16;
        let c8 = self.cell(id, 0, 2) as u16;
        let c9 = self.cell(id, 1, 2) as u16;
        let c10 = self.cell(id, 2, 2) as u16;
        let c11 = self.cell(id, 3, 2) as u16;
        let c12 = self.cell(id, 0, 3) as u16;
        let c13 = self.cell(id, 1, 3) as u16;
        let c14 = self.cell(id, 2, 3) as u16;
        let c15 = self.cell(id, 3, 3) as u16;
        lemma_unpack(bits, c0, c1, c2, c3, c4, c5, c6, c7, c8, c9, c10, c11, c12, c13, c14, c15);
        assert forall|x: int, y: int| 0 <= x < 4 && 0 <= y < 4 implies #[trigger] self.cell(
            id,
            x,
            y,
        ) == bit(bits, (15 - (4 * y + x)) as u16) by {
            let i = 4 * y + x;
            if i == 0 {
            } else if i == 1 {
            } else if i == 2 {
            } else if i == 3 {
            } else if i == 4 {
            } else if i == 5 {
            } else if i == 6 {
            } else if i == 7 {
            } else if i == 8 {
            } else if i == 9 {
            } else if i == 10 {
            } else if i == 11 {
            } else if i == 12 {
            } else if i == 13 {
            } else if i == 14 {
            } else {
            }
        }
    }

    /// The packed rule applied to the sixteen cells shifted down by `s`
    /// gives the next state of the inner cell `(cx, cy)` on every
    /// configuration that the tree shows.
    pub(crate) proof fn lemma_next_state_inner(
        &self,
        id: ID,
        bits: u16,
        s: u16,
        cx: int,
        cy: int,
        g: Grid,
        ox: int,
        oy: int,
    )
        requires
            self.wf(),
            self.contains(id),
            self.level(id) == 2,
            self.shows(id, g, ox, oy),
            forall|x: int, y: int|
                0 <= x < 4 && 0 <= y < 4 ==> #[trigger] self.cell(id, x, y) == bit(
                    bits,
                    (15 - (4 * y + x)) as u16,
                ),
            1 <= cx <= 2,
            1 <= cy <= 2,
            s == 10 - (4 * cy + cx),
        ensures
            (next_state(bits >> s) != 0) == step(g)(ox + cx, oy + cy),
    {
        let m = bits >> s;
        assert(side(2) == 4) by {
            reveal_with_fuel(side, 3);
        }
        self.lemma_cell_binary(id);
        lemma_bit_of_shift(bits, s, 0);
        lemma_bit_of_shift(bits, s, 1);
        lemma_bit_of_shift(bits, s, 2);
        lemma_bit_of_shift(bits, s, 4);
        lemma_bit_of_shift(bits, s, 5);
        lemma_bit_of_shift(bits, s, 6);
        lemma_bit_of_shift(bits, s, 8);
        lemma_bit_of_shift(bits, s, 9);
        lemma_bit_of_shift(bits, s, 10);
        assert(bit(m, 5) == self.cell(id, cx, cy));
        assert(bit(m, 4) == self.cell(id, cx + 1, cy));
        assert(bit(m, 6) == self.cell(id, cx - 1, cy));
        assert(bit(m, 0) == self.cell(id, cx + 1, cy + 1));
        assert(bit(m, 1) == self.cell(id, cx, cy + 1));
        assert(bit(m, 2) == self.cell(id, cx - 1, cy + 1));
        assert(bit(m, 8) == self.cell(id, cx + 1, cy - 1));
        assert(bit(m, 9) == self.cell(id, cx, cy - 1));
        assert(bit(m, 10) == self.cell(id, cx - 1, cy - 1));
        assert(self.covers(id, cx, cy));
        assert(self.covers(id, cx + 1, cy));
        assert(self.covers(id, cx - 1, cy));
        assert(self.covers(id, cx + 1, cy + 1));
        assert(self.covers(id, cx, cy + 1));
        assert(self.covers(id, cx - 1, cy + 1));
        assert(self.covers(id, cx + 1, cy - 1));
        assert(self.covers(id, cx, cy - 1));
        assert(self.covers(id, cx - 1, cy - 1));
        let px = ox + cx;
        let py = oy + cy;
        assert((bit(m, 5) != 0) == g(px, py));
        assert(bit(m, 4) == alive(g, px + 1, py));
        assert(bit(m, 6) == alive(g, px - 1, py));
        assert(bit(m, 0) == alive(g, px + 1, py + 1));
        assert(bit(m, 1) == alive(g, px, py + 1));
        assert(bit(m, 2) == alive(g, px - 1, py + 1));
        assert(bit(m, 8) == alive(g, px + 1, py - 1));
        assert(bit(m, 9) == alive(g, px, py - 1));
        assert(bit(m, 10) == alive(g, px - 1, py - 1));
    }

    /// Interns the next state of the cell at bit 5 of the packed
    /// neighbourhood.
    pub(crate) fn life(&mut self, bitmask: u16) -> (r: ID)
        requires
            old(self).wf(),
        ensures
            final(self).wf(),
            final(self).extends(old(self)),
            final(self).contains(r),
            final(self).node(r) == QTree::Leaf(Leaf(next_state(bitmask))),
    {
        if bitmask == 0 {
            proof {
                lemma_next_state_zero();
            }
            return self.new_leaf(0);
        }
        let center = (bitmask >> 5) & 1;
        let neighbours = bitmask & 0b00000__111_0101_0111;
        let ncount = neighbours.count_ones();
        proof {
            lemma_ones_masked(bitmask);
        }
        if ncount == 3 || (ncount == 2 && center != 0) {
            self.new_leaf(1)
        } else {
            self.new_leaf(0)
        }
    }

    /// Advances a tree of level 2 by one generation: packs its sixteen
    /// cells, applies the rule to each of the four inner cells, and returns
    /// the node of level 1 made of their next states.
    pub(crate) fn evolve4x4(&mut self, node_id: ID) -> (r: ID)
        requires
            old(self).wf(),
            old(self).contains(node_id),
            old(self).level(node_id) == 2,
        ensures
            final(self).wf(),
            final(self).extends(old(self)),
            final(self).contains(r),
            final(self).advances(node_id, r, 1),
    {
        proof {
            assert(side(2) == 4) by {
                reveal_with_fuel(side, 3);
            }
            self.lemma_cell_binary(node_id);
        }
        let mut bits: u16 = 0;
        let mut y: usize = 0;
        while y < 4
            invariant
                self.wf(),
                self.contains(node_id),
                self.level(node_id) == 2,
                y <= 4,
                bits == self.packed(node_id, (4 * y) as nat),
                forall|x: int, y: int| #[trigger] self.cell(node_id, x, y) <= 1,
            decreases 4 - y,
        {
            let mut x: usize = 0;
            while x < 4
                invariant
                    self.wf(),
                    self.contains(node_id),
                    self.level(node_id) == 2,
                    y < 4,
                    x <= 4,
                    bits == self.packed(node_id, (4 * y + x) as nat),
                    forall|x: int, y: int| #[trigger] self.cell(node_id, x, y) <= 1,
                decreases 4 - x,
            {
                proof {
                    assert(side(2) == 4) by {
                        reveal_with_fuel(side, 3);
                    }
                    let k = (4 * y + x) as nat;
                    self.lemma_packed_bound(node_id, k);
                    lemma_side_monotonic(k, 15);
                    assert(side(15) == 0x8000) by {
                        reveal_with_fuel(side, 16);
                    }
                    lemma_shift_doubles(bits);
                    assert(self.cell(node_id, x as int, y as int) <= 1);
                    assert(self.packed(node_id, k + 1) == 2 * self.packed(node_id, k) + self.cell(
                        node_id,
                        x as int,
                        y as int,
                    ));
                }
                bits = (bits << 1) + self.get_tree_cell(node_id, x, y) as u16;
                x = x + 1;
            }
            y = y + 1;
        }
        proof {
            self.lemma_packed_bits(node_id, bits);
        }
        let nw = self.life(bits >> 5);
        let ghost s1 = *self;
        let ne = self.life(bits >> 4);
        let ghost s2 = *self;
        proof {
            self.lemma_extends_trans(&s1, old(self));
        }
        let sw = self.life(bits >> 1);
        let ghost s3 = *self;
        proof {
            self.lemma_extends_trans(&s2, old(self));
            self.lemma_extends_trans(&s2, &s1);
        }
        let se = self.life(bits);
        let ghost s4 = *self;
        proof {
            self.lemma_extends_trans(&s3, old(self));
            self.lemma_extends_trans(&s3, &s1);
            self.lemma_extends_trans(&s3, &s2);
        }
        let r = self.new_node(sw, se, nw, ne);
        proof {
            self.lemma_extends_trans(&s4, old(self));
            self.lemma_extends_trans(&s4, &s1);
            self.lemma_extends_trans(&s4, &s2);
            self.lemma_extends_trans(&s4, &s3);
            assert(self.node(nw) == s1.node(nw));
            assert(self.node(ne) == s2.node(ne));
            assert(self.node(sw) == s3.node(sw));
            assert(self.node(se) == s4.node(se));
            self.lemma_extends_grows(old(self));
            self.lemma_cells_grow(old(self), node_id);
            assert(side(0) == 1);
            assert(side(1) == 2) by {
                reveal_with_fuel(side, 2);
            }
            assert forall|g: Grid, ox: int, oy: int| #[trigger]
                self.shows(node_id, g, ox, oy) implies self.shows(
                r,
                steps(g, 1),
                ox + 1,
                oy + 1,
            ) by {
                assert(steps(g, 1) == step(steps(g, 0)));
                self.lemma_next_state_inner(node_id, bits, 5, 1, 1, g, ox, oy);
                self.lemma_next_state_inner(node_id, bits, 4, 2, 1, g, ox, oy);
                self.lemma_next_state_inner(node_id, bits, 1, 1, 2, g, ox, oy);
                self.lemma_next_state_inner(node_id, bits, 0, 2, 2, g, ox, oy);
                assert forall|x: int, y: int| self.covers(r, x, y) implies (#[trigger] self.cell(
                    r,
                    x,
                    y,
                ) != 0) == step(g)(ox + 1 + x, oy + 1 + y) by {
                    self.lemma_cell_unfold(r, x, y);
                    let h = step(g);
                    if x == 0 && y == 0 {
                        assert(self.cell(r, x, y) == self.cell(nw, 0, 0));
                        assert(self.cell(nw, 0, 0) == next_state(bits >> 5u16));
                        assert(h(ox + 1 + x, oy + 1 + y) == h(ox + 1, oy + 1));
                    } else if x == 1 && y == 0 {
                        assert(self.cell(r, x, y) == self.cell(ne, 0, 0));
                        assert(self.cell(ne, 0, 0) == next_state(bits >> 4u16));
                        assert(h(ox + 1 + x, oy + 1 + y) == h(ox + 2, oy + 1));
                    } else if x == 0 && y == 1 {
                        assert(self.cell(r, x, y) == self.cell(sw, 0, 0));
                        assert(self.cell(sw, 0, 0) == next_state(bits >> 1u16));
                        assert(h(ox + 1 + x, oy + 1 + y) == h(ox + 1, oy + 2));
                    } else {
                        assert(self.cell(r, x, y) == self.cell(se, 0, 0));
                        lemma_shift_zero(bits);
                        assert(self.cell(se, 0, 0) == next_state(bits >> 0u16));
                        assert(h(ox + 1 + x, oy + 1 + y) == h(ox + 2, oy + 2));
                    }
                }
            }
        }
        r
    }
}

} // verus!
