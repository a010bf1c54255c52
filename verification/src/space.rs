//! The canonical store: an append-only bijection between handles and node
//! values, and the builders that intern nodes in it.

use crate::node::{Leaf, Node, QTree, ID};
use crate::table::{
    pairs, pairs_after_insert, table_get_by_left, table_get_by_right, table_insert, table_len,
    table_new, Shape,
};
use bimap::BiMap;
use vstd::prelude::*;

verus! {

/// The number of cells of a square of the given level: `4^level`.
pub open spec fn area(level: nat) -> nat
    decreases level,
{
    if level == 0 {
        1
    } else {
        4 * area((level - 1) as nat)
    }
}

/// What a handle's entry keeps beside the table: the attributes derived from
/// the children, and the memoized evolution result.
struct Derived {
    level: usize,
    pop: usize,
    next: Option<ID>,
}

/// The canonical store.
///
/// The table pairs each handle with the structure of its node (its state, or
/// its four children); `derived` keeps, under the same index, what is
/// computed from that structure. Entries are never removed.
pub struct Space {
    table: BiMap<usize, Shape>,
    derived: Vec<Derived>,
}

spec fn shape_of(q: QTree) -> Shape {
    match q {
        QTree::Leaf(l) => (0, l.0, 0, 0, 0),
        QTree::Node(n) => (1, n.north_west.0, n.north_east.0, n.south_west.0, n.south_east.0),
    }
}

spec fn node_of(s: Shape, d: Derived) -> QTree {
    if s.0 == 0 {
        QTree::Leaf(Leaf(s.1))
    } else {
        QTree::Node(
            Node {
                level: d.level,
                pop: d.pop,
                next: d.next,
                north_west: ID(s.1),
                north_east: ID(s.2),
                south_west: ID(s.3),
                south_east: ID(s.4),
            },
        )
    }
}

impl ID {
    /// The node value behind this handle of `sp`.
    pub fn fetch_from(self, sp: &Space) -> (q: QTree)
        requires
            sp.wf(),
            sp.contains(self),
        ensures
            q == sp.node(self),
    {
        match table_get_by_left(&sp.table, self.0) {
            Some(s) => {
                if s.0 == 0 {
                    QTree::Leaf(Leaf(s.1))
                } else {
                    let d = &sp.derived[self.0];
                    QTree::Node(
                        Node {
                            level: d.level,
                            pop: d.pop,
                            next: d.next,
                            north_west: ID(s.1),
                            north_east: ID(s.2),
                            south_west: ID(s.3),
                            south_east: ID(s.4),
                        },
                    )
                }
            },
            None => {
                proof {
                    assert(pairs(sp.table).dom().contains(self.0));
                }
                vstd::pervasive::unreached()
            },
        }
    }

    /// The internal node behind this handle of `sp`.
    pub fn fetch_node(self, sp: &Space) -> (n: Node)
        requires
            sp.wf(),
            sp.contains(self),
            sp.node(self) is Node,
        ensures
            sp.node(self) == QTree::Node(n),
    {
        match self.fetch_from(sp) {
            QTree::Node(node) => node,
            QTree::Leaf(_) => vstd::pervasive::unreached(),
        }
    }
}

impl Space {
    /// The number of handles issued so far.
    pub closed spec fn len(&self) -> nat {
        self.derived@.len()
    }

    /// Whether `id` was issued by this store.
    pub closed spec fn contains(&self, id: ID) -> bool {
        id.0 < self.derived@.len()
    }

    /// The node value that `id` stands for.
    pub closed spec fn node(&self, id: ID) -> QTree {
        node_of(pairs(self.table)[id.0], self.derived@[id.0 as int])
    }

    /// The level of the node behind `id`.
    pub open spec fn level(&self, id: ID) -> nat {
        self.node(id).spec_level() as nat
    }

    /// The population recorded for the node behind `id`.
    pub open spec fn population(&self, id: ID) -> nat {
        self.node(id).spec_population() as nat
    }

    /// Whether the four children of `n` are in the store, one level below
    /// `n`, and `n` carries the sum of their populations.
    pub open spec fn children_ok(&self, n: Node) -> bool {
        &&& self.contains(n.north_west)
        &&& self.contains(n.north_east)
        &&& self.contains(n.south_west)
        &&& self.contains(n.south_east)
        &&& self.level(n.north_west) + 1 == n.level
        &&& self.level(n.north_east) + 1 == n.level
        &&& self.level(n.south_west) + 1 == n.level
        &&& self.level(n.south_east) + 1 == n.level
        &&& n.pop == self.population(n.north_west) + self.population(n.north_east)
            + self.population(n.south_west) + self.population(n.south_east)
    }

    /// The invariant of one entry: a terminal node is dead or alive; an
    /// internal node has its children in the store one level down, carries
    /// the sum of their populations, and its memoized result, if any, is a
    /// node of the store one level down.
    pub open spec fn node_ok(&self, id: ID) -> bool {
        &&& self.population(id) <= area(self.level(id))
        &&& match self.node(id) {
            QTree::Leaf(l) => l.0 <= 1,
            QTree::Node(n) => {
                &&& self.children_ok(n)
                &&& n.next matches Some(r) ==> {
                    &&& self.contains(r)
                    &&& self.level(r) + 1 == n.level
                    &&& n.level >= 3
                }
            },
        }
    }

    /// What the representation keeps true: the table's left values are the
    /// indices below `len`, no two of them share a right value, and a
    /// terminal entry has the fixed form of its shape.
    pub closed spec fn inv(&self) -> bool {
        let m = pairs(self.table);
        &&& m.dom().finite()
        &&& m.dom().len() == self.derived@.len()
        &&& forall|i: usize| m.dom().contains(i) <==> i < self.derived@.len()
        &&& forall|i: usize, j: usize|
            m.dom().contains(i) && m.dom().contains(j) && #[trigger] m[i] == #[trigger] m[j] ==> i
                == j
        &&& forall|i: usize|
            #![trigger m[i]]
            i < self.derived@.len() ==> {
                let s = m[i];
                let d = self.derived@[i as int];
                &&& s.0 <= 1
                &&& d.level <= i
                &&& s.0 == 0 ==> s.2 == 0 && s.3 == 0 && s.4 == 0 && d.level == 0 && d.pop == s.1
                    && d.next is None
                &&& s.0 == 1 ==> d.level >= 1
            }
    }

    /// Well-formedness of the store.
    pub open spec fn wf(&self) -> bool {
        &&& self.inv()
        &&& forall|id: ID| self.contains(id) ==> #[trigger] self.node_ok(id)
    }

    /// Whether this store holds every entry of `old` unchanged, and its
    /// other entries carry no memoized result.
    pub open spec fn extends(&self, old: &Space) -> bool {
        forall|id: ID|
            #![trigger self.contains(id)]
            #![trigger self.node(id)]
            {
                &&& old.contains(id) ==> self.contains(id) && self.node(id) == old.node(id)
                &&& self.contains(id) && !old.contains(id) ==> self.node(id).spec_next() is None
            }
    }

    /// Whether this store holds every entry of `old` with the same structure,
    /// level and population, and with the memoized result that it had there,
    /// if it had one.
    #[verifier::opaque]
    pub open spec fn grows_from(&self, old: &Space) -> bool {
        forall|id: ID|
            #![trigger old.contains(id)]
            #![trigger self.node(id)]
            old.contains(id) ==> {
                &&& self.contains(id)
                &&& self.node(id).same_structure(&old.node(id))
                &&& self.node(id).spec_level() == old.node(id).spec_level()
                &&& self.node(id).spec_population() == old.node(id).spec_population()
                &&& old.node(id).spec_next() is Some ==> self.node(id).spec_next() == old.node(
                    id,
                ).spec_next()
            }
    }

    /// Whether `q` may be interned: a terminal node is dead or alive; an
    /// internal node names four children of the store of one level, and
    /// carries that level plus one, the sum of their populations and no
    /// memoized result.
    pub open spec fn admits(&self, q: QTree) -> bool {
        match q {
            QTree::Leaf(l) => l.0 <= 1,
            QTree::Node(n) => self.children_ok(n) && n.next is None,
        }
    }

    /// Whether `id` stands for the internal node with the given children.
    pub open spec fn is_node_of(&self, id: ID, nw: ID, ne: ID, sw: ID, se: ID) -> bool {
        self.node(id) matches QTree::Node(n) && n.north_west == nw && n.north_east == ne
            && n.south_west == sw && n.south_east == se
    }

    /// Whether some entry of the store is the internal node with the given
    /// children.
    pub open spec fn has_node(&self, nw: ID, ne: ID, sw: ID, se: ID) -> bool {
        exists|id: ID| self.contains(id) && #[trigger] self.is_node_of(id, nw, ne, sw, se)
    }

    /// Whether some entry of the store is the terminal node of the given
    /// state.
    pub open spec fn has_leaf(&self, state: usize) -> bool {
        exists|id: ID| self.contains(id) && #[trigger] self.node(id) == QTree::Leaf(Leaf(state))
    }

    /// Whether some entry of the store has the structure of `q`.
    pub open spec fn knows(&self, q: QTree) -> bool {
        exists|id: ID| self.contains(id) && #[trigger] self.node(id).same_structure(&q)
    }

    /// Canonical form: in a well-formed store, two handles whose nodes have
    /// the same structure are the same handle.
    pub proof fn lemma_canonical(&self, a: ID, b: ID)
        requires
            self.wf(),
            self.contains(a),
            self.contains(b),
            self.node(a).same_structure(&self.node(b)),
        ensures
            a == b,
    {
        let m = pairs(self.table);
        assert(m.dom().contains(a.0));
        assert(m.dom().contains(b.0));
        assert(m[a.0] == m[b.0]);
    }

    /// Canonical form across time: a handle issued for four children is the
    /// handle that any later store, grown from this one, has for the same
    /// four children.
    pub proof fn lemma_canonical_later(&self, old: &Space, a: ID, b: ID)
        requires
            old.wf(),
            self.wf(),
            self.grows_from(old),
            old.contains(a),
            self.contains(b),
            old.node(a).same_structure(&self.node(b)),
        ensures
            a == b,
    {
        self.lemma_grows_node(old, a);
        match (old.node(a), self.node(a), self.node(b)) {
            (QTree::Leaf(x), QTree::Leaf(y), QTree::Leaf(z)) => {},
            (QTree::Node(x), QTree::Node(y), QTree::Node(z)) => {},
            _ => {},
        }
        self.lemma_canonical(a, b);
    }

    /// The population of an internal node is the sum of the populations of
    /// its four children, and that of a terminal node is its state.
    pub proof fn lemma_population(&self, id: ID)
        requires
            self.wf(),
            self.contains(id),
        ensures
            match self.node(id) {
                QTree::Leaf(l) => self.population(id) == l.0 && l.0 <= 1,
                QTree::Node(n) => self.population(id) == self.population(n.north_west)
                    + self.population(n.north_east) + self.population(n.south_west)
                    + self.population(n.south_east),
            },
    {
        assert(self.node_ok(id));
    }

    /// A node's level is below the number of handles issued.
    pub proof fn lemma_level_below_len(&self, id: ID)
        requires
            self.wf(),
            self.contains(id),
        ensures
            self.level(id) < self.len() <= usize::MAX,
    {
        assert(self.derived.len() <= usize::MAX);
        assert(pairs(self.table).dom().contains(id.0));
    }

    /// An entry that is in order stays so in a store that extends this one.
    pub proof fn lemma_node_ok_extends(&self, old: &Space, id: ID)
        requires
            self.extends(old),
            old.contains(id),
            old.node_ok(id),
        ensures
            self.node_ok(id),
    {
        match old.node(id) {
            QTree::Leaf(l) => {},
            QTree::Node(n) => {
                self.lemma_children_ok_extends(old, n);
            },
        }
    }

    /// Children that are in order stay so in a store that extends this one.
    pub proof fn lemma_children_ok_extends(&self, old: &Space, n: Node)
        requires
            self.extends(old),
            old.children_ok(n),
        ensures
            self.children_ok(n),
    {
    }

    /// The sum of the populations of four children in order is within the
    /// area of their parent.
    pub proof fn lemma_children_area(&self, n: Node)
        requires
            self.wf(),
            self.children_ok(n),
        ensures
            n.pop <= area(n.level as nat),
    {
        assert(self.node_ok(n.north_west));
        assert(self.node_ok(n.north_east));
        assert(self.node_ok(n.south_west));
        assert(self.node_ok(n.south_east));
    }

    /// A store that extends another grows from it.
    pub proof fn lemma_extends_grows(&self, old: &Space)
        requires
            self.extends(old),
        ensures
            self.grows_from(old),
    {
        reveal(Space::grows_from);
    }

    /// Growth is transitive.
    pub proof fn lemma_grows_trans(&self, mid: &Space, old: &Space)
        requires
            self.grows_from(mid),
            mid.grows_from(old),
        ensures
            self.grows_from(old),
    {
        reveal(Space::grows_from);
        assert forall|id: ID| old.contains(id) implies {
            &&& self.contains(id)
            &&& self.node(id).same_structure(&old.node(id))
            &&& self.node(id).spec_level() == old.node(id).spec_level()
            &&& self.node(id).spec_population() == old.node(id).spec_population()
            &&& old.node(id).spec_next() is Some ==> self.node(id).spec_next() == old.node(
                id,
            ).spec_next()
        } by {
            assert(mid.contains(id));
        }
    }

    /// Extension is transitive.
    pub proof fn lemma_extends_trans(&self, mid: &Space, old: &Space)
        requires
            self.extends(mid),
            mid.extends(old),
        ensures
            self.extends(old),
    {
        assert forall|id: ID|
            #![trigger self.contains(id)]
            #![trigger self.node(id)]
            {
                &&& old.contains(id) ==> self.contains(id) && self.node(id) == old.node(id)
                &&& self.contains(id) && !old.contains(id) ==> self.node(id).spec_next() is None
            } by {
            if old.contains(id) {
                assert(mid.contains(id));
            }
            if self.contains(id) && !old.contains(id) {
                if mid.contains(id) {
                    assert(self.node(id) == mid.node(id));
                }
            }
        }
    }

    /// The area grows with the level.
    pub proof fn lemma_area_monotonic(a: nat, b: nat)
        requires
            a <= b,
        ensures
            1 <= area(a) <= area(b),
        decreases b,
    {
        if b > 0 {
            if a < b {
                Self::lemma_area_monotonic(a, (b - 1) as nat);
            } else {
                Self::lemma_area_monotonic((a - 1) as nat, (b - 1) as nat);
            }
        }
    }

    /// Whether the entries of `old` above the given level are unchanged in
    /// this store, and its other entries above that level carry no memoized
    /// result.
    #[verifier::opaque]
    pub open spec fn keeps_above(&self, old: &Space, level: nat) -> bool {
        forall|id: ID|
            #![trigger old.contains(id)]
            #![trigger self.node(id)]
            {
                &&& old.contains(id) && old.level(id) > level ==> self.node(id) == old.node(id)
                &&& self.contains(id) && !old.contains(id) && self.level(id) > level ==> self.node(
                    id,
                ).spec_next() is None
            }
    }

    /// Every store extends itself.
    pub proof fn lemma_extends_refl(&self)
        ensures
            self.extends(self),
    {
    }

    /// An entry of `old` is the same entry in a store that extends it.
    pub proof fn lemma_extends_node(&self, old: &Space, id: ID)
        requires
            self.extends(old),
            old.contains(id),
        ensures
            self.contains(id),
            self.node(id) == old.node(id),
    {
    }

    /// An entry of `old` has the same structure, level and population in a
    /// store that grows from it.
    pub proof fn lemma_grows_node(&self, old: &Space, id: ID)
        requires
            self.grows_from(old),
            old.contains(id),
        ensures
            self.contains(id),
            self.node(id).same_structure(&old.node(id)),
            self.level(id) == old.level(id),
            self.population(id) == old.population(id),
            old.node(id).spec_next() is Some ==> self.node(id).spec_next() == old.node(
                id,
            ).spec_next(),
    {
        reveal(Space::grows_from);
    }

    /// An entry of `old` above the level is the same entry in a store that
    /// keeps the entries above that level.
    pub proof fn lemma_keeps_node(&self, old: &Space, level: nat, id: ID)
        requires
            self.keeps_above(old, level),
            old.contains(id),
            old.level(id) > level,
        ensures
            self.node(id) == old.node(id),
    {
        reveal(Space::keeps_above);
    }

    /// An entry above the level that `old` does not have carries no
    /// memoized result in a store that keeps the entries above that level.
    pub proof fn lemma_keeps_fresh(&self, old: &Space, level: nat, id: ID)
        requires
            self.keeps_above(old, level),
            self.contains(id),
            !old.contains(id),
            self.level(id) > level,
        ensures
            self.node(id).spec_next() is None,
    {
        reveal(Space::keeps_above);
    }

    /// A store that extends another keeps its entries above any level.
    pub proof fn lemma_extends_keeps(&self, old: &Space, level: nat)
        requires
            self.extends(old),
        ensures
            self.keeps_above(old, level),
    {
        reveal(Space::keeps_above);
    }

    /// Keeping the entries above a level is transitive along growth, and
    /// holds for every higher level.
    pub proof fn lemma_keeps_trans(
        &self,
        mid: &Space,
        old: &Space,
        level1: nat,
        level2: nat,
        level: nat,
    )
        requires
            self.keeps_above(mid, level1),
            mid.keeps_above(old, level2),
            self.grows_from(mid),
            mid.grows_from(old),
            level1 <= level,
            level2 <= level,
        ensures
            self.keeps_above(old, level),
    {
        reveal(Space::keeps_above);
        reveal(Space::grows_from);
        assert forall|id: ID|
            #![trigger old.contains(id)]
            #![trigger self.node(id)]
            {
                &&& old.contains(id) && old.level(id) > level ==> self.node(id) == old.node(id)
                &&& self.contains(id) && !old.contains(id) && self.level(id) > level ==> self.node(
                    id,
                ).spec_next() is None
            } by {
            if old.contains(id) && old.level(id) > level {
                assert(mid.contains(id));
                assert(mid.node(id) == old.node(id));
            }
            if self.contains(id) && !old.contains(id) && self.level(id) > level {
                if mid.contains(id) {
                    assert(self.node(id) == mid.node(id));
                }
            }
        }
    }

    /// Creates an empty store.
    pub fn new() -> (sp: Space)
        ensures
            sp.wf(),
            sp.len() == 0,
            forall|id: ID| !#[trigger] sp.contains(id),
            forall|j: nat| #[trigger] sp.consistent(j),
    {
        let sp = Space { table: table_new(), derived: Vec::new() };
        proof {
            assert(pairs(sp.table).dom() =~= Set::<usize>::empty());
            assert forall|j: nat| #[trigger] sp.consistent(j) by {
                assert forall|id: ID| sp.contains(id) implies #[trigger] sp.memo_ok(id, j) by {}
            }
        }
        sp
    }

    /// Interns `node`: returns the handle of the entry with the same
    /// structure if the store has one, and otherwise appends the node and
    /// returns its fresh handle.
    pub(crate) fn get_id(&mut self, node: QTree) -> (id: ID)
        requires
            old(self).wf(),
            old(self).admits(node),
        ensures
            final(self).wf(),
            final(self).extends(old(self)),
            final(self).contains(id),
            final(self).node(id).same_structure(&node),
            final(self).level(id) == node.spec_level(),
            final(self).population(id) == node.spec_population(),
            old(self).knows(node) ==> old(self).contains(id) && *final(self) == *old(self),
            !old(self).knows(node) ==> {
                &&& !old(self).contains(id)
                &&& final(self).node(id) == node
                &&& final(self).len() == old(self).len() + 1
            },
    {
        let shape: Shape = match node {
            QTree::Leaf(l) => (0, l.0, 0, 0, 0),
            QTree::Node(n) => (
                1,
                n.north_west.0,
                n.north_east.0,
                n.south_west.0,
                n.south_east.0,
            ),
        };
        let ghost m = pairs(self.table);
        assert(shape == shape_of(node));
        match table_get_by_right(&self.table, &shape) {
            Some(i) => {
                let id = ID(i);
                proof {
                    assert(self.contains(id));
                    assert(self.node(id).same_structure(&node));
                    assert(self.node_ok(id));
                }
                id
            },
            None => {
                let i = table_len(&self.table);
                let (level, pop) = match node {
                    QTree::Leaf(l) => (0, l.0),
                    QTree::Node(n) => (n.level, n.pop),
                };
                table_insert(&mut self.table, i, shape);
                self.derived.push(Derived { level, pop, next: None });
                let id = ID(i);
                proof {
                    let m2 = pairs(self.table);
                    assert(m2 == pairs_after_insert(m, i, shape));
                    assert(!m.dom().contains(i));
                    assert(m2.dom() =~= m.dom().insert(i));
                    assert(forall|j: usize| m.dom().contains(j) ==> m2[j] == m[j]);
                    assert(m2[i] == shape);
                    assert(self.node(id) == node);
                    assert forall|id0: ID|
                        #![trigger self.contains(id0)]
                        #![trigger self.node(id0)]
                        {
                            &&& old(self).contains(id0) ==> self.contains(id0) && self.node(id0)
                                == old(self).node(id0)
                            &&& self.contains(id0) && !old(self).contains(id0) ==> self.node(
                                id0,
                            ).spec_next() is None
                        } by {
                        if old(self).contains(id0) {
                            assert(m.dom().contains(id0.0));
                        }
                        if self.contains(id0) && !old(self).contains(id0) {
                            assert(id0 == id);
                        }
                    }
                    assert(!old(self).knows(node)) by {
                        if old(self).knows(node) {
                            let w = choose|w: ID|
                                old(self).contains(w) && #[trigger] old(self).node(
                                    w,
                                ).same_structure(&node);
                            assert(m.dom().contains(w.0));
                            assert(m[w.0] == shape);
                        }
                    }
                    match node {
                        QTree::Leaf(l) => {},
                        QTree::Node(n) => {
                            assert(old(self).contains(n.north_west));
                            assert(m.dom().contains(n.north_west.0));
                            let c = m[n.north_west.0];
                            assert(n.level <= i);
                        },
                    }
                    assert(self.inv());
                    assert forall|id0: ID| self.contains(id0) implies #[trigger] self.node_ok(
                        id0,
                    ) by {
                        if id0 != id {
                            assert(old(self).contains(id0));
                            self.lemma_node_ok_extends(old(self), id0);
                        } else {
                            match node {
                                QTree::Leaf(l) => {},
                                QTree::Node(n) => {
                                    self.lemma_children_ok_extends(old(self), n);
                                    old(self).lemma_children_area(n);
                                },
                            }
                        }
                    }
                }
                id
            },
        }
    }

    /// Interns the terminal node of the given state.
    pub fn new_leaf(&mut self, state: usize) -> (id: ID)
        requires
            old(self).wf(),
            state <= 1,
        ensures
            final(self).wf(),
            final(self).extends(old(self)),
            final(self).contains(id),
            final(self).node(id) == QTree::Leaf(Leaf(state)),
            old(self).has_leaf(state) ==> old(self).contains(id) && *final(self) == *old(self),
            forall|other: ID|
                old(self).contains(other) && #[trigger] old(self).node(other) == QTree::Leaf(
                    Leaf(state),
                ) ==> id == other,
            !old(self).has_leaf(state) ==> {
                &&& !old(self).contains(id)
                &&& final(self).len() == old(self).len() + 1
            },
    {
        let node = QTree::Leaf(Leaf(state));
        proof {
            if old(self).has_leaf(state) {
                let w = choose|w: ID|
                    old(self).contains(w) && #[trigger] old(self).node(w) == QTree::Leaf(
                        Leaf(state),
                    );
                assert(old(self).node(w).same_structure(&node));
            }
        }
        let id = self.get_id(node);
        proof {
            assert forall|other: ID|
                old(self).contains(other) && #[trigger] old(self).node(other) == QTree::Leaf(
                    Leaf(state),
                ) implies id == other by {
                assert(old(self).has_leaf(state));
                self.lemma_canonical(id, other);
            }
        }
        id
    }

    /// Interns the internal node with the given children, which must be
    /// four nodes of one level.
    pub fn new_node(&mut self, nw_id: ID, ne_id: ID, sw_id: ID, se_id: ID) -> (id: ID)
        requires
            old(self).wf(),
            old(self).contains(nw_id),
            old(self).contains(ne_id),
            old(self).contains(sw_id),
            old(self).contains(se_id),
            old(self).level(ne_id) == old(self).level(nw_id),
            old(self).level(sw_id) == old(self).level(nw_id),
            old(self).level(se_id) == old(self).level(nw_id),
            old(self).population(nw_id) + old(self).population(ne_id) + old(self).population(sw_id)
                + old(self).population(se_id) <= usize::MAX,
        ensures
            final(self).wf(),
            final(self).extends(old(self)),
            final(self).contains(id),
            final(self).is_node_of(id, nw_id, ne_id, sw_id, se_id),
            final(self).level(id) == old(self).level(nw_id) + 1,
            final(self).population(id) == old(self).population(nw_id) + old(self).population(ne_id)
                + old(self).population(sw_id) + old(self).population(se_id),
            old(self).has_node(nw_id, ne_id, sw_id, se_id) ==> {
                &&& old(self).contains(id)
                &&& *final(self) == *old(self)
            },
            !old(self).has_node(nw_id, ne_id, sw_id, se_id) ==> {
                &&& !old(self).contains(id)
                &&& final(self).node(id).spec_next() is None
                &&& final(self).len() == old(self).len() + 1
            },
            forall|other: ID|
                old(self).contains(other) && #[trigger] old(self).is_node_of(
                    other,
                    nw_id,
                    ne_id,
                    sw_id,
                    se_id,
                ) ==> id == other,
    {
        let nw = nw_id.fetch_from(self);
        let ne = ne_id.fetch_from(self);
        let sw = sw_id.fetch_from(self);
        let se = se_id.fetch_from(self);
        proof {
            self.lemma_level_below_len(nw_id);
        }
        let n = Node {
            level: nw.level() + 1,
            pop: nw.population() + ne.population() + sw.population() + se.population(),
            next: None,
            north_west: nw_id,
            north_east: ne_id,
            south_west: sw_id,
            south_east: se_id,
        };
        let node = QTree::Node(n);
        proof {
            if old(self).has_node(nw_id, ne_id, sw_id, se_id) {
                let w = choose|w: ID|
                    old(self).contains(w) && #[trigger] old(self).is_node_of(
                        w,
                        nw_id,
                        ne_id,
                        sw_id,
                        se_id,
                    );
                assert(old(self).node(w).same_structure(&node));
            }
            if old(self).knows(node) {
                let w = choose|w: ID|
                    old(self).contains(w) && #[trigger] old(self).node(w).same_structure(&node);
                assert(old(self).is_node_of(w, nw_id, ne_id, sw_id, se_id));
            }
        }
        let id = self.get_id(node);
        proof {
            assert forall|other: ID|
                old(self).contains(other) && #[trigger] old(self).is_node_of(
                    other,
                    nw_id,
                    ne_id,
                    sw_id,
                    se_id,
                ) implies id == other by {
                assert(old(self).has_node(nw_id, ne_id, sw_id, se_id));
                self.lemma_canonical(id, other);
            }
        }
        id
    }

    /// Records `result` as the memoized evolution result of the internal
    /// node behind `id`, which has none yet. Nothing else changes.
    pub(crate) fn set_next(&mut self, id: ID, result: ID)
        requires
            old(self).wf(),
            old(self).contains(id),
            old(self).contains(result),
            old(self).level(id) >= 3,
            old(self).level(result) + 1 == old(self).level(id),
            old(self).node(id).spec_next() is None,
        ensures
            final(self).wf(),
            final(self).grows_from(old(self)),
            final(self).keeps_above(old(self), old(self).level(id)),
            final(self).len() == old(self).len(),
            final(self).node(id).spec_next() == Some(result),
            forall|other: ID|
                #![trigger final(self).node(other)]
                other != id && old(self).contains(other) ==> final(self).node(other) == old(self).node(other),
            forall|other: ID|
                #![trigger final(self).contains(other)]
                final(self).contains(other) == old(self).contains(other),
    {
        let d = &self.derived[id.0];
        let nd = Derived { level: d.level, pop: d.pop, next: Some(result) };
        self.derived.set(id.0, nd);
        proof {
            reveal(Space::grows_from);
            reveal(Space::keeps_above);
            let m = pairs(self.table);
            assert(m.dom().contains(id.0));
            assert forall|other: ID|
                #![trigger old(self).contains(other)]
                #![trigger self.node(other)]
                old(self).contains(other) implies {
                &&& self.contains(other)
                &&& self.node(other).same_structure(&old(self).node(other))
                &&& self.node(other).spec_level() == old(self).node(other).spec_level()
                &&& self.node(other).spec_population() == old(self).node(other).spec_population()
                &&& old(self).node(other).spec_next() is Some ==> self.node(other).spec_next()
                    == old(self).node(other).spec_next()
            } by {
                assert(m.dom().contains(other.0));
            }
            assert forall|other: ID| self.contains(other) implies #[trigger] self.node_ok(
                other,
            ) by {
                assert(old(self).node_ok(other));
                match old(self).node(other) {
                    QTree::Leaf(l) => {},
                    QTree::Node(n) => {
                        assert(old(self).contains(n.north_west));
                        assert(old(self).contains(n.north_east));
                        assert(old(self).contains(n.south_west));
                        assert(old(self).contains(n.south_east));
                        if n.next is Some {
                            assert(old(self).contains(n.next->Some_0));
                        }
                    },
                }
            }
        }
    }

    /// The number of handles issued so far.
    pub fn handles(&self) -> (n: usize)
        requires
            self.wf(),
        ensures
            n == self.len(),
    {
        table_len(&self.table)
    }

    /// The quadrants of an internal node are in the store, one level down,
    /// each with a population within that of the node and within its own
    /// area.
    pub proof fn lemma_quadrants(&self, id: ID)
        requires
            self.wf(),
            self.contains(id),
            self.level(id) >= 1,
        ensures
            self.node(id) is Node,
            self.children_ok(self.node(id)->Node_0),
            self.node(id)->Node_0.level == self.level(id),
            self.node(id)->Node_0.pop == self.population(id),
            forall|east: bool, north: bool|
                #![trigger self.node(id)->Node_0.quadrant(east, north)]
                {
                    let c = self.node(id)->Node_0.quadrant(east, north);
                    &&& self.contains(c)
                    &&& self.level(c) + 1 == self.level(id)
                    &&& self.population(c) <= self.population(id)
                    &&& self.population(c) <= area(self.level(c))
                },
    {
        assert(self.node_ok(id));
        let n = self.node(id)->Node_0;
        assert(self.node_ok(n.north_west));
        assert(self.node_ok(n.north_east));
        assert(self.node_ok(n.south_west));
        assert(self.node_ok(n.south_east));
    }
}

} // verus!
