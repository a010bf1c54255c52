//! The memoized evolution of trees.

use crate::meaning::span;
use crate::node::ID;
use crate::pow2::side;
use crate::space::{area, Space};
use vstd::math::min;
use vstd::prelude::*;

verus! {

impl Space {
    /// The generations of the two half-steps of a node above level 2 add
    /// up to what the budget gives the node.
    pub(crate) proof fn lemma_span_halves(level: nat, j: nat)
        requires
            level >= 3,
        ensures
            ({
                let next_j = min(j as int, level - 2) as nat;
                let t1 = span((level - 1) as nat, next_j);
                let t2 = if j < level - 2 {
                    0
                } else {
                    span((level - 1) as nat, j)
                };
                &&& t1 + t2 == span(level, j)
                &&& min(next_j as int, level - 3) == min(j as int, level - 3)
            }),
    {
        if j >= level - 2 {
            assert(side((level - 2) as nat) == 2 * side((level - 3) as nat));
        }
    }

    /// Advances the window between two nodes that stand side by side: the
    /// east half of `node_w` and the west half of `node_e`. The ghost
    /// arguments say where `node_w` is placed with respect to `base`.
    pub(crate) fn horizontal_forward(
        &mut self,
        node_w: ID,
        node_e: ID,
        j: usize,
        Ghost(base): Ghost<ID>,
        Ghost(dx): Ghost<int>,
        Ghost(dy): Ghost<int>,
        Ghost(h): Ghost<bool>,
    ) -> (r: ID)
        requires
            old(self).wf(),
            old(self).contains(base),
            old(self).level(node_w) >= 2,
            area(old(self).level(node_w)) <= usize::MAX,
            old(self).placed(base, h, (node_w, old(self).level(node_w), dx, dy, 0)),
            old(self).placed(
                base,
                h,
                (node_e, old(self).level(node_w), dx + side(old(self).level(node_w)), dy, 0),
            ),
        ensures
            final(self).wf(),
            final(self).grows_from(old(self)),
            final(self).keeps_above(old(self), old(self).level(node_w)),
            old(self).consistent_upto(j as nat, old(self).level(node_w))
                ==> final(self).consistent_upto(j as nat, old(self).level(node_w)),
            final(self).placed(
                base,
                h && old(self).consistent_upto(j as nat, old(self).level(node_w)),
                (
                    r,
                    (old(self).level(node_w) - 1) as nat,
                    dx + 3 * side((old(self).level(node_w) - 2) as nat),
                    dy + side((old(self).level(node_w) - 2) as nat),
                    span(old(self).level(node_w), j as nat),
                ),
            ),
        decreases old(self).level(node_w), 1nat,
    {
        let ghost lw = self.level(node_w);
        let ghost c = (lw - 1) as nat;
        let ghost hh = side(c) as int;
        let ghost q = side((lw - 2) as nat) as int;
        let ghost pw = (node_w, lw, dx, dy, 0nat);
        let ghost pe = (node_e, lw, dx + side(lw), dy, 0nat);
        proof {
            assert(side(lw) == 2 * hh);
            assert(hh == 2 * q);
            self.lemma_place_child(base, h, pw, true, true);
            self.lemma_place_child(base, h, pe, false, true);
            self.lemma_place_child(base, h, pw, true, false);
            self.lemma_place_child(base, h, pe, false, false);
            self.lemma_quadrants(node_w);
            self.lemma_quadrants(node_e);
            let wn = self.node(node_w)->Node_0;
            let en = self.node(node_e)->Node_0;
            assert(area(lw) == 4 * area(c));
            self.lemma_can_join(wn.north_east, en.north_west, wn.south_east, en.south_west, c);
        }
        let x = self.new_node(
            node_w.fetch_node(self).north_east,
            node_e.fetch_node(self).north_west,
            node_w.fetch_node(self).south_east,
            node_e.fetch_node(self).south_west,
        );
        let ghost s1 = *self;
        proof {
            let wn = old(self).node(node_w)->Node_0;
            let en = old(self).node(node_e)->Node_0;
            self.lemma_extends_grows(old(self));
            self.lemma_placed_grows(old(self), base, h, (wn.north_east, c, dx + hh, dy + hh, 0));
            self.lemma_placed_grows(
                old(self),
                base,
                h,
                (en.north_west, c, dx + side(lw), dy + hh, 0),
            );
            self.lemma_placed_grows(old(self), base, h, (wn.south_east, c, dx + hh, dy, 0));
            self.lemma_placed_grows(old(self), base, h, (en.south_west, c, dx + side(lw), dy, 0));
            self.lemma_place_node(base, h, x, lw, dx + hh, dy, 0);
            self.lemma_grows_node(old(self), base);
            if old(self).consistent_upto(j as nat, lw) {
                self.lemma_upto_extends(old(self), j as nat, lw);
            }
            Self::lemma_area_monotonic(c, lw);
        }
        let r = self.evolve_tree(x, j);
        proof {
            let hc = h && old(self).consistent_upto(j as nat, lw);
            self.lemma_grows_trans(&s1, old(self));
            s1.lemma_extends_keeps(old(self), lw);
            self.lemma_keeps_trans(&s1, old(self), lw, lw, lw);
            assert(s1.placed(base, hc, (x, lw, dx + hh, dy, 0)));
            self.lemma_grows_node(old(self), base);
            self.lemma_placed_grows(&s1, base, hc, (x, lw, dx + hh, dy, 0));
            self.lemma_place_advance(base, hc, (x, lw, dx + hh, dy, 0), r, span(lw, j as nat));
        }
        return r;
    }

    /// Advances the window between two nodes that stand one above the
    /// other: the south half of `node_n` and the north half of `node_s`.
    /// The ghost arguments say where `node_s` is placed with respect to
    /// `base`.
    pub(crate) fn vertical_forward(
        &mut self,
        node_n: ID,
        node_s: ID,
        j: usize,
        Ghost(base): Ghost<ID>,
        Ghost(dx): Ghost<int>,
        Ghost(dy): Ghost<int>,
        Ghost(h): Ghost<bool>,
    ) -> (r: ID)
        requires
            old(self).wf(),
            old(self).contains(base),
            old(self).level(node_n) >= 2,
            area(old(self).level(node_n)) <= usize::MAX,
            old(self).placed(
                base,
                h,
                (node_n, old(self).level(node_n), dx, dy + side(old(self).level(node_n)), 0),
            ),
            old(self).placed(base, h, (node_s, old(self).level(node_n), dx, dy, 0)),
        ensures
            final(self).wf(),
            final(self).grows_from(old(self)),
            final(self).keeps_above(old(self), old(self).level(node_n)),
            old(self).consistent_upto(j as nat, old(self).level(node_n))
                ==> final(self).consistent_upto(j as nat, old(self).level(node_n)),
            final(self).placed(
                base,
                h && old(self).consistent_upto(j as nat, old(self).level(node_n)),
                (
                    r,
                    (old(self).level(node_n) - 1) as nat,
                    dx + side((old(self).level(node_n) - 2) as nat),
                    dy + 3 * side((old(self).level(node_n) - 2) as nat),
                    span(old(self).level(node_n), j as nat),
                ),
            ),
        decreases old(self).level(node_n), 1nat,
    {
        let ghost lw = self.level(node_n);
        let ghost c = (lw - 1) as nat;
        let ghost hh = side(c) as int;
        let ghost q = side((lw - 2) as nat) as int;
        let ghost pn = (node_n, lw, dx, dy + side(lw), 0nat);
        let ghost ps = (node_s, lw, dx, dy, 0nat);
        proof {
            assert(side(lw) == 2 * hh);
            assert(hh == 2 * q);
            self.lemma_place_child(base, h, pn, false, false);
            self.lemma_place_child(base, h, pn, true, false);
            self.lemma_place_child(base, h, ps, false, true);
            self.lemma_place_child(base, h, ps, true, true);
            self.lemma_quadrants(node_n);
            self.lemma_quadrants(node_s);
            let nn = self.node(node_n)->Node_0;
            let sn = self.node(node_s)->Node_0;
            assert(area(lw) == 4 * area(c));
            self.lemma_can_join(nn.south_west, nn.south_east, sn.north_west, sn.north_east, c);
        }
        let x = self.new_node(
            node_n.fetch_node(self).south_west,
            node_n.fetch_node(self).south_east,
            node_s.fetch_node(self).north_west,
            node_s.fetch_node(self).north_east,
        );
        let ghost s1 = *self;
        proof {
            let nn = old(self).node(node_n)->Node_0;
            let sn = old(self).node(node_s)->Node_0;
            self.lemma_extends_grows(old(self));
            self.lemma_placed_grows(
                old(self),
                base,
                h,
                (nn.south_west, c, dx, dy + side(lw), 0),
            );
            self.lemma_placed_grows(
                old(self),
                base,
                h,
                (nn.south_east, c, dx + hh, dy + side(lw), 0),
            );
            self.lemma_placed_grows(old(self), base, h, (sn.north_west, c, dx, dy + hh, 0));
            self.lemma_placed_grows(old(self), base, h, (sn.north_east, c, dx + hh, dy + hh, 0));
            self.lemma_place_node(base, h, x, lw, dx, dy + hh, 0);
            self.lemma_grows_node(old(self), base);
            if old(self).consistent_upto(j as nat, lw) {
                self.lemma_upto_extends(old(self), j as nat, lw);
            }
            Self::lemma_area_monotonic(c, lw);
        }
        let r = self.evolve_tree(x, j);
        proof {
            let hc = h && old(self).consistent_upto(j as nat, lw);
            self.lemma_grows_trans(&s1, old(self));
            s1.lemma_extends_keeps(old(self), lw);
            self.lemma_keeps_trans(&s1, old(self), lw, lw, lw);
            assert(s1.placed(base, hc, (x, lw, dx, dy + hh, 0)));
            self.lemma_grows_node(old(self), base);
            self.lemma_placed_grows(&s1, base, hc, (x, lw, dx, dy + hh, 0));
            self.lemma_place_advance(base, hc, (x, lw, dx, dy + hh, 0), r, span(lw, j as nat));
        }
        return r;
    }

    /// Advances the window in the middle of a node: the innermost
    /// quadrant of each of its quadrants.
    pub(crate) fn centered_forward(&mut self, node: ID, j: usize) -> (r: ID)
        requires
            old(self).wf(),
            old(self).contains(node),
            old(self).level(node) >= 3,
            area((old(self).level(node) - 1) as nat) <= usize::MAX,
        ensures
            final(self).wf(),
            final(self).grows_from(old(self)),
            final(self).keeps_above(old(self), (old(self).level(node) - 1) as nat),
            old(self).consistent_upto(j as nat, (old(self).level(node) - 1) as nat)
                ==> final(self).consistent_upto(j as nat, (old(self).level(node) - 1) as nat),
            final(self).placed(
                node,
                old(self).consistent_upto(j as nat, (old(self).level(node) - 1) as nat),
                (
                    r,
                    (old(self).level(node) - 2) as nat,
                    3 * side((old(self).level(node) - 3) as nat) as int,
                    3 * side((old(self).level(node) - 3) as nat) as int,
                    span((old(self).level(node) - 1) as nat, j as nat),
                ),
            ),
        decreases old(self).level(node) - 1, 1nat,
    {
        let ghost l = self.level(node);
        let ghost lw = (l - 1) as nat;
        let ghost c = (l - 2) as nat;
        let ghost s = side(c) as int;
        let ghost hs = side((l - 3) as nat) as int;
        proof {
            assert(s == 2 * hs);
            self.lemma_derives_grandchild(node, false, true, true, false);
            self.lemma_derives_grandchild(node, true, true, false, false);
            self.lemma_derives_grandchild(node, false, false, true, true);
            self.lemma_derives_grandchild(node, true, false, false, true);
            self.lemma_quadrants(node);
            let n = self.node(node)->Node_0;
            self.lemma_quadrants(n.north_west);
            self.lemma_quadrants(n.north_east);
            self.lemma_quadrants(n.south_west);
            self.lemma_quadrants(n.south_east);
            self.lemma_can_join(
                self.node(n.north_west)->Node_0.south_east,
                self.node(n.north_east)->Node_0.south_west,
                self.node(n.south_west)->Node_0.north_east,
                self.node(n.south_east)->Node_0.north_west,
                c,
            );
        }
        let n = node.fetch_node(self);
        let x = self.new_node(
            n.north_west.fetch_node(self).south_east,
            n.north_east.fetch_node(self).south_west,
            n.south_west.fetch_node(self).north_east,
            n.south_east.fetch_node(self).north_west,
        );
        let ghost s1 = *self;
        proof {
            let xn = self.node(x)->Node_0;
            self.lemma_extends_grows(old(self));
            self.lemma_grows_node(old(self), node);
            self.lemma_derives_grows(old(self), node, s, 2 * s, xn.north_west, 0);
            self.lemma_derives_grows(old(self), node, 2 * s, 2 * s, xn.north_east, 0);
            self.lemma_derives_grows(old(self), node, s, s, xn.south_west, 0);
            self.lemma_derives_grows(old(self), node, 2 * s, s, xn.south_east, 0);
            self.lemma_derives_node(node, s, s, x, 0);
            if old(self).consistent_upto(j as nat, lw) {
                self.lemma_upto_extends(old(self), j as nat, lw);
            }
            Self::lemma_area_monotonic(c, lw);
        }
        let r = self.evolve_tree(x, j);
        proof {
            let hc = old(self).consistent_upto(j as nat, lw);
            self.lemma_grows_trans(&s1, old(self));
            s1.lemma_extends_keeps(old(self), lw);
            self.lemma_keeps_trans(&s1, old(self), lw, lw, lw);
            assert(s1.placed(node, hc, (x, lw, s, s, 0)));
            self.lemma_placed_grows(&s1, node, hc, (x, lw, s, s, 0));
            self.lemma_place_advance(node, hc, (x, lw, s, s, 0), r, span(lw, j as nat));
        }
        return r;
    }

    /// Advances the tree: returns the centre of the tree behind `tree_id`,
    /// of half its side, some generations later.
    ///
    /// A result memoized for the node is returned as it is, whatever the
    /// budget `j`. Otherwise a node of level 2 is advanced by one
    /// generation. A node of a higher level `l` has the centres of its nine
    /// overlapping windows of half its side advanced under budget
    /// `min(j, l - 2)`; the four squares that these make up are advanced
    /// once more under budget `j` where `j >= l - 2`, and cut down to their
    /// centres where `j` is smaller. The result is then memoized.
    ///
    /// Where every memoized result of level `l` or less is what budget `j`
    /// gives, so is the result: the centre `2^min(j, l - 2)` generations
    /// later.
    #[verifier::rlimit(50)]
    pub fn evolve_tree(&mut self, tree_id: ID, j: usize) -> (r: ID)
        requires
            old(self).wf(),
            old(self).contains(tree_id),
            old(self).level(tree_id) >= 2,
            area((old(self).level(tree_id) - 1) as nat) <= usize::MAX,
        ensures
            final(self).wf(),
            final(self).grows_from(old(self)),
            final(self).keeps_above(old(self), old(self).level(tree_id)),
            final(self).contains(r),
            final(self).level(r) + 1 == old(self).level(tree_id),
            old(self).node(tree_id).spec_next() matches Some(c) ==> r == c && *final(self) == *old(self),
            old(self).node(tree_id).spec_next() is None && old(self).level(tree_id) > 2
                ==> final(self).node(tree_id).spec_next() == Some(r),
            old(self).consistent_upto(j as nat, old(self).level(tree_id)) ==> {
                &&& final(self).consistent_upto(j as nat, old(self).level(tree_id))
                &&& final(self).advances(tree_id, r, span(old(self).level(tree_id), j as nat))
            },
            old(self).consistent(j as nat) ==> final(self).consistent(j as nat),
        decreases old(self).level(tree_id), 0nat,
    {
        let ghost l = self.level(tree_id);
        let ghost h = self.consistent_upto(j as nat, l);
        proof {
            self.lemma_quadrants(tree_id);
            assert(self.node_ok(tree_id));
            self.lemma_extends_refl();
            self.lemma_extends_grows(old(self));
            self.lemma_extends_keeps(old(self), l);
            self.lemma_extends_keeps(old(self), (l - 1) as nat);
        }
        if let Some(next) = tree_id.fetch_node(self).next {
            proof {
                if h {
                    assert(self.memo_ok(tree_id, j as nat));
                }
            }
            return next;
        }
        if tree_id.fetch_node(self).level == 2 {
            let r = self.evolve4x4(tree_id);
            proof {
                self.lemma_extends_grows(old(self));
                self.lemma_grows_node(old(self), tree_id);
                self.lemma_extends_keeps(old(self), l);
                if h {
                    self.lemma_upto_extends(old(self), j as nat, l);
                }
                assert(span(2, j as nat) == 1);
                if old(self).consistent(j as nat) {
                    self.lemma_consistent_extends(old(self), j as nat);
                }
            }
            r
        } else {
            let n = tree_id.fetch_node(self);
            let curr_level = n.level;
            let next_j = if j < n.level - 2 {
                j
            } else {
                n.level - 2
            };
            let (tree_nw, tree_ne, tree_sw, tree_se) = {
                (n.north_west, n.north_east, n.south_west, n.south_east)
            };
            let ghost s0 = *self;
            let ghost c = (l - 1) as nat;
            let ghost g = (l - 2) as nat;
            let ghost s = side(g) as int;
            let ghost hs = side((l - 3) as nat) as int;
            let ghost jn = j as nat;
            let ghost bn = next_j as nat;
            let ghost t1 = span(c, bn);
            let ghost t2 = if j < l - 2 {
                0nat
            } else {
                span(c, jn)
            };
            let ghost p_tree = (tree_id, l, 0int, 0int, 0nat);
            let ghost p_nw = (tree_nw, c, 0int, 2 * s, 0nat);
            let ghost p_ne = (tree_ne, c, 2 * s, 2 * s, 0nat);
            let ghost p_sw = (tree_sw, c, 0int, 0int, 0nat);
            let ghost p_se = (tree_se, c, 2 * s, 0int, 0nat);
            let ghost mut done: Seq<(ID, nat, int, int, nat)> = seq![p_tree, p_nw, p_ne, p_sw, p_se];
            proof {
                Self::lemma_span_halves(l, jn);
                Self::lemma_area_monotonic(g, c);
                assert(side(c) == 2 * s);
                assert(s == 2 * hs);
                self.lemma_place_self(tree_id, h);
                self.lemma_place_child(tree_id, h, p_tree, false, true);
                self.lemma_place_child(tree_id, h, p_tree, true, true);
                self.lemma_place_child(tree_id, h, p_tree, false, false);
                self.lemma_place_child(tree_id, h, p_tree, true, false);
                assert(self.stage(&s0, tree_id, l, jn, h, done));
                if h {
                    self.lemma_upto_agree(jn, bn, l, c);
                }
            }
            let n00 = self.evolve_tree(tree_nw, next_j);
            let ghost p00 = (n00, g, hs, 2 * s + hs, t1);
            proof {
                if h {
                    self.lemma_upto_agree(bn, jn, c, c);
                }
                self.lemma_stage_step(&s0, &s0, tree_id, l, jn, h, done);
                assert(self.placed(tree_id, h, done[1]));
                self.lemma_place_advance(tree_id, h, p_nw, n00, t1);
                self.lemma_all_placed_push(tree_id, h, done, p00);
                done = done.push(p00);
                assert(self.placed(tree_id, h, done[1]));
                assert(self.placed(tree_id, h, done[2]));
                if h {
                    self.lemma_upto_agree(jn, bn, l, c);
                }
            }
            let ghost s1 = *self;
            let n01 = self.horizontal_forward(
                tree_nw,
                tree_ne,
                next_j,
                Ghost(tree_id),
                Ghost(0),
                Ghost(2 * s),
                Ghost(h),
            );
            let ghost p01 = (n01, g, s + hs, 2 * s + hs, t1);
            proof {
                if h {
                    self.lemma_upto_agree(bn, jn, c, c);
                }
                self.lemma_stage_step(&s1, &s0, tree_id, l, jn, h, done);
                assert(self.placed(tree_id, h, p01));
                self.lemma_all_placed_push(tree_id, h, done, p01);
                done = done.push(p01);
                assert(self.placed(tree_id, h, done[2]));
                if h {
                    self.lemma_upto_agree(jn, bn, l, c);
                }
            }
            let ghost s2 = *self;
            let n02 = self.evolve_tree(tree_ne, next_j);
            let ghost p02 = (n02, g, 2 * s + hs, 2 * s + hs, t1);
            proof {
                if h {
                    self.lemma_upto_agree(bn, jn, c, c);
                }
                self.lemma_stage_step(&s2, &s0, tree_id, l, jn, h, done);
                assert(self.placed(tree_id, h, done[2]));
                self.lemma_place_advance(tree_id, h, p_ne, n02, t1);
                self.lemma_all_placed_push(tree_id, h, done, p02);
                done = done.push(p02);
                assert(self.placed(tree_id, h, done[1]));
                assert(self.placed(tree_id, h, done[3]));
                if h {
                    self.lemma_upto_agree(jn, bn, l, c);
                }
            }
            let ghost s3 = *self;
            let n10 = self.vertical_forward(
                tree_nw,
                tree_sw,
                next_j,
                Ghost(tree_id),
                Ghost(0),
                Ghost(0),
                Ghost(h),
            );
            let ghost p10 = (n10, g, hs, s + hs, t1);
            proof {
                if h {
                    self.lemma_upto_agree(bn, jn, c, c);
                }
                self.lemma_stage_step(&s3, &s0, tree_id, l, jn, h, done);
                assert(self.placed(tree_id, h, p10));
                self.lemma_all_placed_push(tree_id, h, done, p10);
                done = done.push(p10);
                if h {
                    self.lemma_upto_agree(jn, bn, l, c);
                }
            }
            let ghost s4 = *self;
            let n11 = self.centered_forward(tree_id, next_j);
            let ghost p11 = (n11, g, s + hs, s + hs, t1);
            proof {
                if h {
                    self.lemma_upto_agree(bn, jn, c, c);
                }
                self.lemma_stage_step(&s4, &s0, tree_id, l, jn, h, done);
                assert(self.placed(tree_id, h, p11));
                self.lemma_all_placed_push(tree_id, h, done, p11);
                done = done.push(p11);
                assert(self.placed(tree_id, h, done[2]));
                assert(self.placed(tree_id, h, done[4]));
                if h {
                    self.lemma_upto_agree(jn, bn, l, c);
                }
            }
            let ghost s5 = *self;
            let n12 = self.vertical_forward(
                tree_ne,
                tree_se,
                next_j,
                Ghost(tree_id),
                Ghost(2 * s),
                Ghost(0),
                Ghost(h),
            );
            let ghost p12 = (n12, g, 2 * s + hs, s + hs, t1);
            proof {
                if h {
                    self.lemma_upto_agree(bn, jn, c, c);
                }
                self.lemma_stage_step(&s5, &s0, tree_id, l, jn, h, done);
                assert(self.placed(tree_id, h, p12));
                self.lemma_all_placed_push(tree_id, h, done, p12);
                done = done.push(p12);
                assert(self.placed(tree_id, h, done[3]));
                if h {
                    self.lemma_upto_agree(jn, bn, l, c);
                }
            }
            let ghost s6 = *self;
            let n20 = self.evolve_tree(tree_sw, next_j);
            let ghost p20 = (n20, g, hs, hs, t1);
            proof {
                if h {
                    self.lemma_upto_agree(bn, jn, c, c);
                }
                self.lemma_stage_step(&s6, &s0, tree_id, l, jn, h, done);
                assert(self.placed(tree_id, h, done[3]));
                self.lemma_place_advance(tree_id, h, p_sw, n20, t1);
                self.lemma_all_placed_push(tree_id, h, done, p20);
                done = done.push(p20);
                assert(self.placed(tree_id, h, done[3]));
                assert(self.placed(tree_id, h, done[4]));
                if h {
                    self.lemma_upto_agree(jn, bn, l, c);
                }
            }
            let ghost s7 = *self;
            let n21 = self.horizontal_forward(
                tree_sw,
                tree_se,
                next_j,
                Ghost(tree_id),
                Ghost(0),
                Ghost(0),
                Ghost(h),
            );
            let ghost p21 = (n21, g, s + hs, hs, t1);
            proof {
                if h {
                    self.lemma_upto_agree(bn, jn, c, c);
                }
                self.lemma_stage_step(&s7, &s0, tree_id, l, jn, h, done);
                assert(self.placed(tree_id, h, p21));
                self.lemma_all_placed_push(tree_id, h, done, p21);
                done = done.push(p21);
                assert(self.placed(tree_id, h, done[4]));
                if h {
                    self.lemma_upto_agree(jn, bn, l, c);
                }
            }
            let ghost s8 = *self;
            let n22 = self.evolve_tree(tree_se, next_j);
            let ghost p22 = (n22, g, 2 * s + hs, hs, t1);
            proof {
                if h {
                    self.lemma_upto_agree(bn, jn, c, c);
                }
                self.lemma_stage_step(&s8, &s0, tree_id, l, jn, h, done);
                assert(self.placed(tree_id, h, done[4]));
                self.lemma_place_advance(tree_id, h, p_se, n22, t1);
                self.lemma_all_placed_push(tree_id, h, done, p22);
                done = done.push(p22);
                assert(done[5] == p00 && done[6] == p01 && done[7] == p02 && done[8] == p10
                    && done[9] == p11 && done[10] == p12 && done[11] == p20 && done[12] == p21
                    && done[13] == p22);
                assert(self.placed(tree_id, h, done[5]));
                assert(self.placed(tree_id, h, done[6]));
                assert(self.placed(tree_id, h, done[8]));
                assert(self.placed(tree_id, h, done[9]));
                self.lemma_can_join(n00, n01, n10, n11, g);
            }
            let ghost s9 = *self;
            let nw = self.new_node(n00, n01, n10, n11);
            let ghost q_nw = (nw, c, hs, s + hs, t1);
            proof {
                self.lemma_stage_extends(&s9, &s0, tree_id, l, jn, h, done);
                assert(self.placed(tree_id, h, done[5]));
                assert(self.placed(tree_id, h, done[6]));
                assert(self.placed(tree_id, h, done[8]));
                assert(self.placed(tree_id, h, done[9]));
                self.lemma_place_node(tree_id, h, nw, c, hs, s + hs, t1);
                self.lemma_all_placed_push(tree_id, h, done, q_nw);
                done = done.push(q_nw);
                assert(self.placed(tree_id, h, done[6]));
                assert(self.placed(tree_id, h, done[7]));
                assert(self.placed(tree_id, h, done[9]));
                assert(self.placed(tree_id, h, done[10]));
                self.lemma_can_join(n01, n02, n11, n12, g);
            }
            let ghost s10 = *self;
            let ne = self.new_node(n01, n02, n11, n12);
            let ghost q_ne = (ne, c, s + hs, s + hs, t1);
            proof {
                self.lemma_stage_extends(&s10, &s0, tree_id, l, jn, h, done);
                assert(self.placed(tree_id, h, done[6]));
                assert(self.placed(tree_id, h, done[7]));
                assert(self.placed(tree_id, h, done[9]));
                assert(self.placed(tree_id, h, done[10]));
                self.lemma_place_node(tree_id, h, ne, c, s + hs, s + hs, t1);
                self.lemma_all_placed_push(tree_id, h, done, q_ne);
                done = done.push(q_ne);
                assert(self.placed(tree_id, h, done[8]));
                assert(self.placed(tree_id, h, done[9]));
                assert(self.placed(tree_id, h, done[11]));
                assert(self.placed(tree_id, h, done[12]));
                self.lemma_can_join(n10, n11, n20, n21, g);
            }
            let ghost s11 = *self;
            let sw = self.new_node(n10, n11, n20, n21);
            let ghost q_sw = (sw, c, hs, hs, t1);
            proof {
                self.lemma_stage_extends(&s11, &s0, tree_id, l, jn, h, done);
                assert(self.placed(tree_id, h, done[8]));
                assert(self.placed(tree_id, h, done[9]));
                assert(self.placed(tree_id, h, done[11]));
                assert(self.placed(tree_id, h, done[12]));
                self.lemma_place_node(tree_id, h, sw, c, hs, hs, t1);
                self.lemma_all_placed_push(tree_id, h, done, q_sw);
                done = done.push(q_sw);
                assert(self.placed(tree_id, h, done[9]));
                assert(self.placed(tree_id, h, done[10]));
                assert(self.placed(tree_id, h, done[12]));
                assert(self.placed(tree_id, h, done[13]));
                self.lemma_can_join(n11, n12, n21, n22, g);
            }
            let ghost s12 = *self;
            let se = self.new_node(n11, n12, n21, n22);
            let ghost q_se = (se, c, s + hs, hs, t1);
            proof {
                self.lemma_stage_extends(&s12, &s0, tree_id, l, jn, h, done);
                assert(self.placed(tree_id, h, done[9]));
                assert(self.placed(tree_id, h, done[10]));
                assert(self.placed(tree_id, h, done[12]));
                assert(self.placed(tree_id, h, done[13]));
                self.lemma_place_node(tree_id, h, se, c, s + hs, hs, t1);
                self.lemma_all_placed_push(tree_id, h, done, q_se);
                done = done.push(q_se);
                assert(done[14] == q_nw && done[15] == q_ne && done[16] == q_sw && done[17]
                    == q_se);
                assert(self.placed(tree_id, h, done[14]));
                if h {
                    self.lemma_upto_agree(jn, jn, l, c);
                }
            }
            let ghost r_nw = (c - 1) as nat;
            let (nw, ne, sw, se) = {
                if j < curr_level - 2 {
                    let ghost s13 = *self;
                    let cnw = self.centered_sub(nw);
                    let ghost a_nw = (cnw, g, s, 2 * s, t1 + t2);
                    proof {
                        self.lemma_stage_extends(&s13, &s0, tree_id, l, jn, h, done);
                        assert(self.placed(tree_id, h, done[14]));
                        self.lemma_place_advance(tree_id, h, q_nw, cnw, 0);
                        self.lemma_all_placed_push(tree_id, h, done, a_nw);
                        done = done.push(a_nw);
                        assert(self.placed(tree_id, h, done[15]));
                    }
                    let ghost s14 = *self;
                    let cne = self.centered_sub(ne);
                    let ghost a_ne = (cne, g, 2 * s, 2 * s, t1 + t2);
                    proof {
                        self.lemma_stage_extends(&s14, &s0, tree_id, l, jn, h, done);
                        assert(self.placed(tree_id, h, done[15]));
                        self.lemma_place_advance(tree_id, h, q_ne, cne, 0);
                        self.lemma_all_placed_push(tree_id, h, done, a_ne);
                        done = done.push(a_ne);
                        assert(self.placed(tree_id, h, done[16]));
                    }
                    let ghost s15 = *self;
                    let csw = self.centered_sub(sw);
                    let ghost a_sw = (csw, g, s, s, t1 + t2);
                    proof {
                        self.lemma_stage_extends(&s15, &s0, tree_id, l, jn, h, done);
                        assert(self.placed(tree_id, h, done[16]));
                        self.lemma_place_advance(tree_id, h, q_sw, csw, 0);
                        self.lemma_all_placed_push(tree_id, h, done, a_sw);
                        done = done.push(a_sw);
                        assert(self.placed(tree_id, h, done[17]));
                    }
                    let ghost s16 = *self;
                    let cse = self.centered_sub(se);
                    let ghost a_se = (cse, g, 2 * s, s, t1 + t2);
                    proof {
                        self.lemma_stage_extends(&s16, &s0, tree_id, l, jn, h, done);
                        assert(self.placed(tree_id, h, done[17]));
                        self.lemma_place_advance(tree_id, h, q_se, cse, 0);
                        self.lemma_all_placed_push(tree_id, h, done, a_se);
                        done = done.push(a_se);
                        assert(done[18] == a_nw && done[19] == a_ne && done[20] == a_sw
                            && done[21] == a_se);
                    }
                    (cnw, cne, csw, cse)
                } else {
                    let ghost s13 = *self;
                    let cnw = self.evolve_tree(nw, j);
                    let ghost a_nw = (cnw, g, s, 2 * s, t1 + t2);
                    proof {
                        self.lemma_stage_step(&s13, &s0, tree_id, l, jn, h, done);
                        assert(self.placed(tree_id, h, done[14]));
                        self.lemma_place_advance(tree_id, h, q_nw, cnw, t2);
                        self.lemma_all_placed_push(tree_id, h, done, a_nw);
                        done = done.push(a_nw);
                        assert(self.placed(tree_id, h, done[15]));
                        if h {
                            self.lemma_upto_agree(jn, jn, l, c);
                        }
                    }
                    let ghost s14 = *self;
                    let cne = self.evolve_tree(ne, j);
                    let ghost a_ne = (cne, g, 2 * s, 2 * s, t1 + t2);
                    proof {
                        self.lemma_stage_step(&s14, &s0, tree_id, l, jn, h, done);
                        assert(self.placed(tree_id, h, done[15]));
                        self.lemma_place_advance(tree_id, h, q_ne, cne, t2);
                        self.lemma_all_placed_push(tree_id, h, done, a_ne);
                        done = done.push(a_ne);
                        assert(self.placed(tree_id, h, done[16]));
                        if h {
                            self.lemma_upto_agree(jn, jn, l, c);
                        }
                    }
                    let ghost s15 = *self;
                    let csw = self.evolve_tree(sw, j);
                    let ghost a_sw = (csw, g, s, s, t1 + t2);
                    proof {
                        self.lemma_stage_step(&s15, &s0, tree_id, l, jn, h, done);
                        assert(self.placed(tree_id, h, done[16]));
                        self.lemma_place_advance(tree_id, h, q_sw, csw, t2);
                        self.lemma_all_placed_push(tree_id, h, done, a_sw);
                        done = done.push(a_sw);
                        assert(self.placed(tree_id, h, done[17]));
                        if h {
                            self.lemma_upto_agree(jn, jn, l, c);
                        }
                    }
                    let ghost s16 = *self;
                    let cse = self.evolve_tree(se, j);
                    let ghost a_se = (cse, g, 2 * s, s, t1 + t2);
                    proof {
                        self.lemma_stage_step(&s16, &s0, tree_id, l, jn, h, done);
                        assert(self.placed(tree_id, h, done[17]));
                        self.lemma_place_advance(tree_id, h, q_se, cse, t2);
                        self.lemma_all_placed_push(tree_id, h, done, a_se);
                        done = done.push(a_se);
                        assert(done[18] == a_nw && done[19] == a_ne && done[20] == a_sw
                            && done[21] == a_se);
                    }
                    (cnw, cne, csw, cse)
                }
            };
            proof {
                assert(self.placed(tree_id, h, done[18]));
                assert(self.placed(tree_id, h, done[19]));
                assert(self.placed(tree_id, h, done[20]));
                assert(self.placed(tree_id, h, done[21]));
                self.lemma_can_join(nw, ne, sw, se, g);
            }
            let ghost s17 = *self;
            let result = self.new_node(nw, ne, sw, se);
            let ghost s18 = *self;
            proof {
                self.lemma_stage_extends(&s17, &s0, tree_id, l, jn, h, done);
                assert(self.placed(tree_id, h, done[18]));
                assert(self.placed(tree_id, h, done[19]));
                assert(self.placed(tree_id, h, done[20]));
                assert(self.placed(tree_id, h, done[21]));
                self.lemma_place_node(tree_id, h, result, c, s, s, t1 + t2);
                self.lemma_keeps_node(&s0, c, tree_id);
                self.lemma_grows_node(&s0, tree_id);
            }
            self.set_next(tree_id, result);
            proof {
                self.lemma_grows_trans(&s18, &s0);
                self.lemma_keeps_trans(&s18, &s0, l, c, l);
                self.lemma_grows_node(&s18, result);
                if h {
                    assert(s18.advances(tree_id, result, span(l, jn)));
                    self.lemma_upto_set_next(&s18, tree_id, result, jn, l);
                    self.lemma_advances_grows(&s18, tree_id, result, span(l, jn));
                }
                if old(self).consistent(jn) {
                    old(self).lemma_consistent_upto(jn, l);
                    self.lemma_consistent_kept(old(self), jn, l);
                }
            }
            result
        }
    }
}

} // verus!
