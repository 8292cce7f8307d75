//! The partial tour graph: which points are joined to which.
//!
//! Every point has two slots for neighbours, so no point ever has more than
//! two edges. An edge is always written at both of its ends.

use vstd::prelude::*;
use crate::point::Point;

verus! {

/// The two neighbour slots of one point.
#[derive(Debug, Clone, Copy, PartialEq, Eq, Structural)]
pub struct Connection(pub Option<Point>, pub Option<Point>);

impl Connection {
    /// The number of occupied slots.
    pub open spec fn degree(self) -> nat {
        if self.0 is Some && self.1 is Some {
            2
        } else if self.0 is Some || self.1 is Some {
            1
        } else {
            0
        }
    }

    /// One of the slots holds `q`.
    pub open spec fn links(self, q: Point) -> bool {
        self.0 == Some(q) || self.1 == Some(q)
    }

    /// These slots after `q` has taken the first empty one. Full slots stay
    /// as they are.
    pub open spec fn joined(self, q: Point) -> Connection {
        if self.0 is None {
            Connection(Some(q), self.1)
        } else if self.1 is None {
            Connection(self.0, Some(q))
        } else {
            self
        }
    }

    /// Counts the occupied slots.
    pub fn count(&self) -> (n: usize)
        ensures
            n == self.degree(),
    {
        match (self.0, self.1) {
            (Some(_), Some(_)) => 2,
            (Some(_), None) => 1,
            (None, Some(_)) => 1,
            (None, None) => 0,
        }
    }

    /// Puts `q` into the first empty slot.
    pub fn join(&self, q: Point) -> (c: Connection)
        ensures
            c == self.joined(q),
    {
        match (self.0, self.1) {
            (None, second) => Connection(Some(q), second),
            (Some(first), None) => Connection(Some(first), Some(q)),
            (Some(first), Some(second)) => Connection(Some(first), Some(second)),
        }
    }
}

/// The slots of `p` in `m`; both empty where `m` has no entry for `p`.
pub open spec fn slots_of(m: Map<Point, Connection>, p: Point) -> Connection {
    if m.contains_key(p) {
        m[p]
    } else {
        Connection(None, None)
    }
}

/// The number of edges recorded at `p`.
pub open spec fn edge_count_in(m: Map<Point, Connection>, p: Point) -> nat {
    slots_of(m, p).degree()
}

/// `p` has both slots occupied and takes no further edge.
pub open spec fn saturated_in(m: Map<Point, Connection>, p: Point) -> bool {
    edge_count_in(m, p) == 2
}

/// The neighbour in the first slot of `p`, if that slot is occupied.
pub open spec fn first_link_in(m: Map<Point, Connection>, p: Point) -> Option<Point> {
    slots_of(m, p).0
}

/// `a` holds `b` in one of its slots.
pub open spec fn linked_in(m: Map<Point, Connection>, a: Point, b: Point) -> bool {
    slots_of(m, a).links(b)
}

/// `m` after `b` has taken the first empty slot of `a`.
pub open spec fn occupied(m: Map<Point, Connection>, a: Point, b: Point) -> Map<
    Point,
    Connection,
> {
    m.insert(a, slots_of(m, a).joined(b))
}

/// `m` after the edge between `a` and `b` has been written at both ends.
pub open spec fn connected(m: Map<Point, Connection>, a: Point, b: Point) -> Map<
    Point,
    Connection,
> {
    occupied(occupied(m, a, b), b, a)
}

/// Whenever one point holds another, the other holds the one.
pub open spec fn symmetric(m: Map<Point, Connection>) -> bool {
    forall|a: Point, b: Point| linked_in(m, a, b) <==> linked_in(m, b, a)
}

/// What writing an edge between two different points, neither of them
/// saturated, does to every point: the two ends gain one edge each and now
/// hold each other, and nothing that was recorded is lost.
pub proof fn lemma_connected_effects(m: Map<Point, Connection>, a: Point, b: Point)
    requires
        a != b,
        !saturated_in(m, a),
        !saturated_in(m, b),
    ensures
        edge_count_in(connected(m, a, b), a) == edge_count_in(m, a) + 1,
        edge_count_in(connected(m, a, b), b) == edge_count_in(m, b) + 1,
        forall|x: Point| x != a && x != b ==> slots_of(connected(m, a, b), x) == slots_of(m, x),
        slots_of(connected(m, a, b), a) == slots_of(m, a).joined(b),
        slots_of(connected(m, a, b), b) == slots_of(m, b).joined(a),
        forall|x: Point, y: Point|
            linked_in(connected(m, a, b), x, y) <==> linked_in(m, x, y) || (x == a && y == b) || (x
                == b && y == a),
{
    let n = connected(m, a, b);
    assert(slots_of(n, a) == slots_of(m, a).joined(b));
    assert(slots_of(n, b) == slots_of(m, b).joined(a));
    assert forall|x: Point| x != a && x != b implies slots_of(n, x) == slots_of(m, x) by {}
}

/// Writing an edge between two points, neither of them saturated, keeps the
/// graph symmetric.
pub proof fn lemma_connected_keeps_symmetry(m: Map<Point, Connection>, a: Point, b: Point)
    requires
        symmetric(m),
        !saturated_in(m, a),
        !saturated_in(m, b),
    ensures
        symmetric(connected(m, a, b)),
{
    let n = connected(m, a, b);
    if a != b {
        lemma_connected_effects(m, a, b);
    } else {
        assert(slots_of(n, a) == slots_of(m, a).joined(a).joined(a));
        assert forall|x: Point, y: Point| linked_in(n, x, y) <==> linked_in(m, x, y) || (x == a
            && y == a) by {
            if x != a {
                assert(slots_of(n, x) == slots_of(m, x));
            }
        }
    }
    assert forall|x: Point, y: Point| linked_in(n, x, y) <==> linked_in(n, y, x) by {
        assert(linked_in(m, x, y) <==> linked_in(m, y, x));
    }
}

/// The edges recorded so far, point by point.
pub struct Ledger {
    keys: Vec<Point>,
    slots: Vec<Connection>,
}

impl View for Ledger {
    type V = Map<Point, Connection>;

    /// The recorded slots of every point that has an entry.
    closed spec fn view(&self) -> Map<Point, Connection> {
        Map::new(
            |p: Point| self.keys@.contains(p),
            |p: Point| self.slots@[self.keys@.index_of(p)],
        )
    }
}

impl Ledger {
    /// Every point has at most one entry, with its slots beside it.
    spec fn entries_wf(&self) -> bool {
        &&& self.keys.len() == self.slots.len()
        &&& self.keys@.no_duplicates()
    }

    /// The ledger is sound: its entries are, and its edges are symmetric.
    pub closed spec fn wf(&self) -> bool {
        &&& self.entries_wf()
        &&& symmetric(self@)
    }

    /// The edges of a sound ledger are symmetric.
    pub proof fn lemma_wf_is_symmetric(&self)
        requires
            self.wf(),
        ensures
            symmetric(self@),
    {
    }

    proof fn lemma_entry(&self, i: int)
        requires
            self.entries_wf(),
            0 <= i < self.keys.len(),
        ensures
            self@.contains_key(self.keys@[i]),
            self@[self.keys@[i]] == self.slots@[i],
    {
        assert(self.keys@.contains(self.keys@[i]));
    }

    /// A ledger without edges.
    pub fn new() -> (ledger: Ledger)
        ensures
            ledger.wf(),
            ledger@ == Map::<Point, Connection>::empty(),
    {
        Ledger { keys: Vec::new(), slots: Vec::new() }
    }

    fn position(&self, p: &Point) -> (found: Option<usize>)
        requires
            self.entries_wf(),
        ensures
            match found {
                Some(i) => i < self.keys.len() && self.keys@[i as int] == *p && self@.contains_key(
                    *p,
                ) && self@[*p] == self.slots@[i as int],
                None => !self@.contains_key(*p),
            },
    {
        let mut i: usize = 0;
        while i < self.keys.len()
            invariant
                self.entries_wf(),
                i <= self.keys.len(),
                forall|j: int| 0 <= j < i ==> self.keys@[j] != *p,
            decreases self.keys.len() - i,
        {
            if self.keys[i] == *p {
                proof {
                    self.lemma_entry(i as int);
                }
                return Some(i);
            }
            i += 1;
        }
        None
    }

    /// The slots of `p`; both empty where nothing was recorded for it.
    pub fn connection(&self, p: &Point) -> (c: Connection)
        requires
            self.wf(),
        ensures
            c == slots_of(self@, *p),
    {
        match self.position(p) {
            Some(i) => self.slots[i],
            None => Connection(None, None),
        }
    }

    /// The number of edges recorded at `p`: 0, 1 or 2.
    pub fn edge_count(&self, p: &Point) -> (n: usize)
        requires
            self.wf(),
        ensures
            n == edge_count_in(self@, *p),
            n <= 2,
    {
        self.connection(p).count()
    }

    /// Tells whether `p` has both slots occupied.
    pub fn is_saturated(&self, p: &Point) -> (b: bool)
        requires
            self.wf(),
        ensures
            b == saturated_in(self@, *p),
    {
        self.edge_count(p) == 2
    }

    fn occupy(&mut self, a: Point, b: Point)
        requires
            old(self).entries_wf(),
        ensures
            final(self).entries_wf(),
            final(self)@ == occupied(old(self)@, a, b),
    {
        match self.position(&a) {
            Some(i) => {
                let slots = self.slots[i].join(b);
                self.slots.set(i, slots);
                proof {
                    assert forall|p: Point| #[trigger] self@.contains_key(p) implies self@[p]
                        == occupied(old(self)@, a, b)[p] by {
                        let j = self.keys@.index_of(p);
                        old(self).lemma_entry(j);
                    }
                }
            },
            None => {
                self.keys.push(a);
                self.slots.push(Connection(Some(b), None));
                proof {
                    let n = old(self).keys@.len() as int;
                    assert forall|i: int| 0 <= i < n implies self.keys@[i] != a by {
                        assert(old(self).keys@.contains(old(self).keys@[i]));
                    }
                    assert forall|p: Point| #[trigger]
                        occupied(old(self)@, a, b).contains_key(p) implies self@.contains_key(p)
                        && self@[p] == occupied(old(self)@, a, b)[p] by {
                        if p == a {
                            self.lemma_entry(n);
                        } else {
                            let j = old(self).keys@.index_of(p);
                            old(self).lemma_entry(j);
                            self.lemma_entry(j);
                        }
                    }
                    assert forall|p: Point| #[trigger]
                        self@.contains_key(p) implies occupied(old(self)@, a, b).contains_key(
                        p,
                    ) by {
                        let j = self.keys@.index_of(p);
                        if j < n {
                            assert(old(self).keys@.contains(old(self).keys@[j]));
                        }
                    }
                }
            },
        }
    }

    /// Records the edge between `a` and `b`: each takes the other into its
    /// first empty slot.
    pub fn add_edge(&mut self, a: Point, b: Point)
        requires
            old(self).wf(),
            !saturated_in(old(self)@, a),
            !saturated_in(old(self)@, b),
        ensures
            final(self).wf(),
            final(self)@ == connected(old(self)@, a, b),
    {
        self.occupy(a, b);
        self.occupy(b, a);
        proof {
            lemma_connected_keeps_symmetry(old(self)@, a, b);
        }
    }
}

impl Clone for Ledger {
    /// A copy with the same edges.
    fn clone(&self) -> (copy: Ledger)
        ensures
            copy@ == self@,
            self.wf() ==> copy.wf(),
    {
        Ledger { keys: self.keys.clone(), slots: self.slots.clone() }
    }
}

} // verus!
