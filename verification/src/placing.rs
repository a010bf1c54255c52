//! Book-keeping for an evolution under way: which trees are known to be
//! derived from the node that is being evolved, where and when.

use crate::life::{steps, Grid};
use crate::node::ID;
use crate::pow2::side;
use crate::space::{area, Space};
use vstd::prelude::*;

verus! {

impl Space {
    /// Whether the entry `p.0` has level `p.1` and, where `h` holds, is
    /// derived from `base` at offset `(p.2, p.3)` after `p.4` generations.
    pub open spec fn placed(&self, base: ID, h: bool, p: (ID, nat, int, int, nat)) -> bool {
        &&& self.contains(p.0)
        &&& self.level(p.0) == p.1
        &&& h ==> self.derives(base, p.2, p.3, p.0, p.4)
    }

    /// Whether every entry of the list is placed.
    pub open spec fn all_placed(
        &self,
        base: ID,
        h: bool,
        done: Seq<(ID, nat, int, int, nat)>,
    ) -> bool {
        forall|i: int| 0 <= i < done.len() ==> self.placed(base, h, #[trigger] done[i])
    }

    /// A tree is derived from itself, in place and at once.
    pub(crate) proof fn lemma_place_self(&self, id: ID, h: bool)
        requires
            self.contains(id),
        ensures
            self.placed(id, h, (id, self.level(id), 0, 0, 0)),
    {
        assert forall|g: Grid, ox: int, oy: int| #[trigger]
            self.shows(id, g, ox, oy) implies self.shows(id, steps(g, 0), ox + 0, oy + 0) by {}
    }

    /// What is placed stays placed when the store grows.
    pub(crate) proof fn lemma_placed_grows(&self, old: &Space, base: ID, h: bool, p: (ID, nat, int, int, nat))
        requires
            old.wf(),
            self.grows_from(old),
            old.contains(base),
            old.placed(base, h, p),
        ensures
            self.placed(base, h, p),
    {
        self.lemma_grows_node(old, p.0);
        if h {
            self.lemma_derives_grows(old, base, p.2, p.3, p.0, p.4);
        }
    }

    /// A quadrant of what is placed is placed, at its offset and at the
    /// same time.
    pub(crate) proof fn lemma_place_child(
        &self,
        base: ID,
        h: bool,
        p: (ID, nat, int, int, nat),
        east: bool,
        north: bool,
    )
        requires
            self.wf(),
            self.placed(base, h, p),
            p.1 >= 1,
        ensures
            self.node(p.0) is Node,
            ({
                let d = side((p.1 - 1) as nat) as int;
                self.placed(
                    base,
                    h,
                    (
                        self.node(p.0)->Node_0.quadrant(east, north),
                        (p.1 - 1) as nat,
                        p.2 + (if east {
                            d
                        } else {
                            0
                        }),
                        p.3 + (if north {
                            d
                        } else {
                            0
                        }),
                        p.4,
                    ),
                )
            }),
    {
        self.lemma_quadrants(p.0);
        let n = self.node(p.0)->Node_0;
        let c = n.quadrant(east, north);
        let d = side((p.1 - 1) as nat) as int;
        if h {
            self.lemma_derives_child(p.0, east, north);
            self.lemma_derives_compose(
                base,
                p.2,
                p.3,
                p.0,
                p.4,
                if east {
                    d
                } else {
                    0
                },
                if north {
                    d
                } else {
                    0
                },
                c,
                0,
            );
        }
    }

    /// The centre of what is placed, advanced, is placed a quarter of the
    /// side further in on both axes, that many generations later.
    pub(crate) proof fn lemma_place_advance(
        &self,
        base: ID,
        h: bool,
        p: (ID, nat, int, int, nat),
        r: ID,
        t: nat,
    )
        requires
            self.placed(base, h, p),
            self.contains(r),
            p.1 >= 2,
            self.level(r) + 1 == p.1,
            h ==> self.advances(p.0, r, t),
        ensures
            self.placed(
                base,
                h,
                (
                    r,
                    (p.1 - 1) as nat,
                    p.2 + side((p.1 - 2) as nat),
                    p.3 + side((p.1 - 2) as nat),
                    p.4 + t,
                ),
            ),
    {
        if h {
            let q = side((p.1 - 2) as nat) as int;
            self.lemma_derives_compose(base, p.2, p.3, p.0, p.4, q, q, r, t);
        }
    }

    /// A node whose four quadrants are placed, each at its place and all
    /// at the same time, is placed.
    pub(crate) proof fn lemma_place_node(
        &self,
        base: ID,
        h: bool,
        r: ID,
        level: nat,
        dx: int,
        dy: int,
        t: nat,
    )
        requires
            self.wf(),
            self.contains(r),
            self.level(r) == level,
            level >= 1,
            ({
                let n = self.node(r)->Node_0;
                let d = side((level - 1) as nat) as int;
                let c = (level - 1) as nat;
                &&& self.placed(base, h, (n.north_west, c, dx, dy + d, t))
                &&& self.placed(base, h, (n.north_east, c, dx + d, dy + d, t))
                &&& self.placed(base, h, (n.south_west, c, dx, dy, t))
                &&& self.placed(base, h, (n.south_east, c, dx + d, dy, t))
            }),
        ensures
            self.placed(base, h, (r, level, dx, dy, t)),
    {
        self.lemma_quadrants(r);
        if h {
            self.lemma_derives_node(base, dx, dy, r, t);
        }
    }

    /// One more placed entry.
    pub(crate) proof fn lemma_all_placed_push(
        &self,
        base: ID,
        h: bool,
        done: Seq<(ID, nat, int, int, nat)>,
        p: (ID, nat, int, int, nat),
    )
        requires
            self.all_placed(base, h, done),
            self.placed(base, h, p),
        ensures
            self.all_placed(base, h, done.push(p)),
    {
        let d2 = done.push(p);
        assert forall|i: int| 0 <= i < d2.len() implies self.placed(base, h, #[trigger] d2[i]) by {
            if i < done.len() {
                assert(d2[i] == done[i]);
            }
        }
    }

    /// The state of an evolution under way: the store has grown from `s0`
    /// without touching the entries of level `top` or above, is consistent
    /// up to `top` where `h` holds, and the entries of the list are placed
    /// with respect to `base`, a node of level `top`.
    pub open spec fn stage(
        &self,
        s0: &Space,
        base: ID,
        top: nat,
        j: nat,
        h: bool,
        done: Seq<(ID, nat, int, int, nat)>,
    ) -> bool {
        &&& self.wf()
        &&& s0.wf()
        &&& top >= 1
        &&& self.grows_from(s0)
        &&& self.keeps_above(s0, (top - 1) as nat)
        &&& h ==> self.consistent_upto(j, top)
        &&& self.all_placed(base, h, done)
        &&& self.contains(base)
        &&& self.level(base) == top
    }

    /// A step of an evolution that grows the store, leaves the entries of
    /// level `top` or above alone and keeps it consistent below `top`, keeps
    /// the stage.
    pub(crate) proof fn lemma_stage_step(
        &self,
        prev: &Space,
        s0: &Space,
        base: ID,
        top: nat,
        j: nat,
        h: bool,
        done: Seq<(ID, nat, int, int, nat)>,
    )
        requires
            prev.stage(s0, base, top, j, h, done),
            self.wf(),
            self.grows_from(prev),
            self.keeps_above(prev, (top - 1) as nat),
            h ==> self.consistent_upto(j, (top - 1) as nat),
        ensures
            self.stage(s0, base, top, j, h, done),
    {
        self.lemma_grows_trans(prev, s0);
        self.lemma_keeps_trans(
            prev,
            s0,
            (top - 1) as nat,
            (top - 1) as nat,
            (top - 1) as nat,
        );
        if h {
            self.lemma_upto_step(prev, j, top);
        }
        assert forall|i: int| 0 <= i < done.len() implies self.placed(
            base,
            h,
            #[trigger] done[i],
        ) by {
            self.lemma_placed_grows(prev, base, h, done[i]);
        }
        self.lemma_grows_node(prev, base);
    }

    /// A step of an evolution that extends the store keeps the stage.
    pub(crate) proof fn lemma_stage_extends(
        &self,
        prev: &Space,
        s0: &Space,
        base: ID,
        top: nat,
        j: nat,
        h: bool,
        done: Seq<(ID, nat, int, int, nat)>,
    )
        requires
            prev.stage(s0, base, top, j, h, done),
            self.wf(),
            self.extends(prev),
        ensures
            self.stage(s0, base, top, j, h, done),
    {
        self.lemma_extends_grows(prev);
        self.lemma_extends_keeps(prev, (top - 1) as nat);
        if h {
            self.lemma_upto_extends(prev, j, top);
            assert(self.consistent_upto(j, (top - 1) as nat)) by {
                self.lemma_upto_agree(j, j, top, (top - 1) as nat);
            }
        }
        self.lemma_stage_step(prev, s0, base, top, j, h, done);
    }

    /// The population of four nodes of one level fits where the area of
    /// the level above does.
    pub(crate) proof fn lemma_can_join(&self, a: ID, b: ID, c: ID, d: ID, level: nat)
        requires
            self.wf(),
            self.contains(a) && self.level(a) == level,
            self.contains(b) && self.level(b) == level,
            self.contains(c) && self.level(c) == level,
            self.contains(d) && self.level(d) == level,
            area(level + 1) <= usize::MAX,
        ensures
            self.population(a) + self.population(b) + self.population(c) + self.population(d)
                <= usize::MAX,
    {
        assert(self.node_ok(a));
        assert(self.node_ok(b));
        assert(self.node_ok(c));
        assert(self.node_ok(d));
        assert(area(level + 1) == 4 * area(level));
    }
}

} // verus!
