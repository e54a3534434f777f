//! The track graph: positioned nodes joined by undirected edges.

use crate::geometry::{distance, square_distance, Point};
use crate::ids::{Id, IdGen};
use vstd::prelude::*;

verus! {

/// A point of the track graph where edges meet.
#[derive(Debug, Clone, PartialEq, Eq)]
pub struct TrackNode {
    pub id: Id,
    pub pos: Point,
    /// The neighbours of the node, in the order in which they were connected.
    pub connections: Vec<Id>,
}

/// A point on the segment between two nodes.
#[derive(Debug, Copy, Clone, PartialEq, Eq, Structural)]
pub struct TrackPoint {
    pub from: Id,
    pub to: Id,
    /// The distance from `from`, between zero and the segment's length.
    pub progress: u64,
}

/// The coordinate that lies `progress` parts of `len` on the way from `a` to
/// `b`, rounded towards `a`.
pub open spec fn between(a: i32, b: i32, progress: nat, len: nat) -> int {
    if len == 0 {
        a as int
    } else if a <= b {
        a + ((b - a) * progress) / (len as int)
    } else {
        a - ((a - b) * progress) / (len as int)
    }
}

/// Computes the coordinate `progress` parts of `len` on the way from `a` to
/// `b`.
fn coordinate_between(a: i32, b: i32, progress: u64, len: u64) -> (at: i32)
    requires
        progress <= len,
    ensures
        at == between(a, b, progress as nat, len as nat),
{
    if len == 0 {
        return a;
    }
    let span: u128 = if a <= b {
        (b as i128 - a as i128) as u128
    } else {
        (a as i128 - b as i128) as u128
    };
    assert(span * progress <= 0xffff_ffff * 0xffff_ffff_ffff_ffff) by (nonlinear_arith)
        requires
            span <= 0xffff_ffff,
            progress <= 0xffff_ffff_ffff_ffff,
    ;
    let step: u128 = span * progress as u128 / len as u128;
    assert(step <= span) by (nonlinear_arith)
        requires
            step == (span * progress) / (len as int),
            0 <= progress <= len,
            len > 0,
            span >= 0,
    ;
    if a <= b {
        (a as i128 + step as i128) as i32
    } else {
        (a as i128 - step as i128) as i32
    }
}

/// The track graph. Nodes are created on demand and never deleted.
#[derive(Debug, Clone, PartialEq, Eq)]
pub struct Tracks {
    /// The nodes, in the order of their creation.
    pub nodes: Vec<TrackNode>,
}

impl TrackNode {
    /// A node at `pos` with a new identifier and no neighbours.
    pub fn new(id_gen: &mut IdGen, pos: Point) -> (node: Self)
        requires
            old(id_gen).next < u64::MAX,
        ensures
            node.id.0 == old(id_gen).next,
            node.pos == pos,
            node.connections@ == Seq::<Id>::empty(),
            final(id_gen).next == old(id_gen).next + 1,
    {
        Self { id: id_gen.gen(), pos, connections: Vec::new() }
    }
}

impl Tracks {
    /// Whether the graph has a node `id`.
    pub open spec fn contains(&self, id: Id) -> bool {
        exists|i: int| 0 <= i < self.nodes.len() && (#[trigger] self.nodes[i]).id == id
    }

    /// The place of node `id` in the list of nodes.
    pub open spec fn index_of(&self, id: Id) -> int {
        choose|i: int| 0 <= i < self.nodes.len() && (#[trigger] self.nodes[i]).id == id
    }

    /// The position of node `id`.
    pub open spec fn position(&self, id: Id) -> Point {
        self.nodes[self.index_of(id)].pos
    }

    /// The neighbours of node `id`, in the order in which they were connected.
    pub open spec fn neighbours(&self, id: Id) -> Seq<Id> {
        self.nodes[self.index_of(id)].connections@
    }

    /// Whether `b` is among the neighbours of node `a`.
    pub open spec fn connected(&self, a: Id, b: Id) -> bool {
        self.contains(a) && self.neighbours(a).contains(b)
    }

    /// The length of the segment between nodes `a` and `b`.
    pub open spec fn length(&self, a: Id, b: Id) -> nat {
        distance(self.position(a), self.position(b))
    }

    /// Whether every node's identifier is below `bound`.
    pub open spec fn below(&self, bound: u64) -> bool {
        forall|i: int| 0 <= i < self.nodes.len() ==> (#[trigger] self.nodes[i]).id.0 < bound
    }

    /// Whether identifiers grow along the list of nodes.
    pub open spec fn ascending(&self) -> bool {
        forall|i: int, j: int|
            0 <= i < j < self.nodes.len() ==> (#[trigger] self.nodes[i]).id.0 < (
            #[trigger] self.nodes[j]).id.0
    }

    /// The invariant of the graph: identifiers grow along the list of nodes,
    /// no neighbour is listed twice, no node is its own neighbour, and every
    /// connection is mutual.
    pub open spec fn wf(&self) -> bool {
        &&& self.ascending()
        &&& forall|i: int|
            0 <= i < self.nodes.len() ==> (#[trigger] self.nodes[i]).connections@.no_duplicates()
        &&& forall|a: Id, b: Id| #[trigger] self.connected(a, b) ==> self.connected(b, a) && a != b
    }

    /// Whether this graph has every node of `before`, at the same place and
    /// position, and every connection of `before`.
    pub open spec fn extends(&self, before: &Tracks) -> bool {
        &&& before.nodes.len() <= self.nodes.len()
        &&& forall|i: int|
            0 <= i < before.nodes.len() ==> {
                &&& (#[trigger] self.nodes[i]).id == before.nodes[i].id
                &&& self.nodes[i].pos == before.nodes[i].pos
                &&& before.nodes[i].connections@.is_prefix_of(self.nodes[i].connections@)
            }
    }

    /// In a well-formed graph a node is found at one place only.
    pub proof fn lemma_index_of(&self, i: int)
        requires
            self.ascending(),
            0 <= i < self.nodes.len(),
        ensures
            self.contains(self.nodes[i].id),
            self.index_of(self.nodes[i].id) == i,
            forall|b: Id|
                self.connected(self.nodes[i].id, b) <==> self.nodes[i].connections@.contains(b),
    {
        let id = self.nodes[i].id;
        let j = self.index_of(id);
        assert(0 <= j < self.nodes.len() && self.nodes[j].id == id);
        if j < i {
            assert(self.nodes[j].id.0 < self.nodes[i].id.0);
        } else if i < j {
            assert(self.nodes[i].id.0 < self.nodes[j].id.0);
        }
    }

    /// A graph that extends another keeps its nodes where they were.
    pub proof fn lemma_extends(&self, before: &Tracks, id: Id)
        requires
            before.wf(),
            self.wf(),
            self.extends(before),
            before.contains(id),
        ensures
            self.contains(id),
            self.index_of(id) == before.index_of(id),
            self.position(id) == before.position(id),
            before.neighbours(id).is_prefix_of(self.neighbours(id)),
            forall|other: Id| before.connected(id, other) ==> self.connected(id, other),
    {
        let i = before.index_of(id);
        assert(self.nodes[i].id == id);
        self.lemma_index_of(i);
        assert forall|other: Id| before.connected(id, other) implies self.connected(id, other) by {
            let at = choose|at: int|
                0 <= at < before.neighbours(id).len() && before.neighbours(id)[at] == other;
            assert(self.neighbours(id)[at] == other);
        }
    }

    /// Every connection is mutual: `b` is a neighbour of `a` exactly when `a`
    /// is a neighbour of `b`.
    pub proof fn lemma_connections_mutual(&self, a: Id, b: Id)
        requires
            self.wf(),
        ensures
            self.connected(a, b) <==> self.connected(b, a),
    {
        if self.connected(a, b) {
            assert(self.connected(b, a));
        }
        if self.connected(b, a) {
            assert(self.connected(a, b));
        }
    }

    /// In a well-formed graph both ends of a connection are nodes.
    pub proof fn lemma_connected_contains(&self, a: Id, b: Id)
        requires
            self.wf(),
            self.connected(a, b),
        ensures
            self.contains(a),
            self.contains(b),
            a != b,
    {
        assert(self.connected(b, a));
    }

    /// Whether the node at place `i` keeps the invariant: it lists no
    /// neighbour twice, and each neighbour is another node that lists it in
    /// turn.
    pub open spec fn node_wf(&self, i: int) -> bool {
        &&& self.nodes[i].connections@.no_duplicates()
        &&& forall|k: int|
            0 <= k < self.nodes[i].connections@.len() ==> self.neighbour_wf(i, k)
    }

    /// Whether neighbour `k` of the node at place `i` is another node that
    /// lists the node in turn.
    pub open spec fn neighbour_wf(&self, i: int, k: int) -> bool {
        &&& self.nodes[i].connections@[k] != self.nodes[i].id
        &&& self.connected(self.nodes[i].connections@[k], self.nodes[i].id)
    }

    /// The invariant of the graph, node by node.
    pub proof fn lemma_wf_by_nodes(&self)
        requires
            self.ascending(),
        ensures
            self.wf() <==> forall|i: int| 0 <= i < self.nodes.len() ==> #[trigger] self.node_wf(i),
    {
        if self.wf() {
            assert forall|i: int| 0 <= i < self.nodes.len() implies #[trigger] self.node_wf(i) by {
                self.lemma_index_of(i);
                assert forall|k: int|
                    0 <= k < self.nodes[i].connections@.len() implies self.neighbour_wf(i, k) by {
                    assert(self.connected(self.nodes[i].id, self.nodes[i].connections@[k]));
                }
            }
        }
        if forall|i: int| 0 <= i < self.nodes.len() ==> #[trigger] self.node_wf(i) {
            assert forall|i: int| 0 <= i < self.nodes.len() implies (
            #[trigger] self.nodes[i]).connections@.no_duplicates() by {
                assert(self.node_wf(i));
            }
            assert forall|a: Id, b: Id| #[trigger] self.connected(a, b) implies self.connected(b, a)
                && a != b by {
                let i = self.index_of(a);
                self.lemma_index_of(i);
                assert(self.node_wf(i));
                let k = choose|k: int|
                    0 <= k < self.nodes[i].connections@.len() && self.nodes[i].connections@[k] == b;
                assert(self.neighbour_wf(i, k));
            }
        }
    }

    /// Checks the node at place `i`.
    fn check_node(&self, i: usize) -> (ok: bool)
        requires
            self.ascending(),
            i < self.nodes.len(),
        ensures
            ok == self.node_wf(i as int),
    {
        let node = &self.nodes[i];
        let mut k: usize = 0;
        while k < node.connections.len()
            invariant
                k <= node.connections.len(),
                self.ascending(),
                i < self.nodes.len(),
                node == &self.nodes[i as int],
                forall|a: int, b: int| 0 <= a < b < k ==> node.connections@[a] != node.connections@[b],
                forall|j: int| 0 <= j < k ==> self.neighbour_wf(i as int, j),
            decreases node.connections.len() - k,
        {
            let other = node.connections[k];
            let mut j: usize = 0;
            while j < k
                invariant
                    j <= k < node.connections.len(),
                    i < self.nodes.len(),
                    node == &self.nodes[i as int],
                    other == node.connections@[k as int],
                    forall|a: int| 0 <= a < j ==> node.connections@[a] != other,
                decreases k - j,
            {
                if node.connections[j] == other {
                    assert(node.connections@[j as int] == node.connections@[k as int]);
                    return false;
                }
                j += 1;
            }
            if other == node.id {
                assert(!self.neighbour_wf(i as int, k as int));
                return false;
            }
            match self.find(other) {
                Some(at) => {
                    proof {
                        self.lemma_index_of(at as int);
                    }
                    if !Self::lists(&self.nodes[at].connections, node.id) {
                        assert(!self.neighbour_wf(i as int, k as int));
                        return false;
                    }
                },
                None => {
                    assert(!self.neighbour_wf(i as int, k as int));
                    return false;
                },
            }
            k += 1;
        }
        true
    }

    /// Checks the invariant of the graph.
    pub fn is_wf(&self) -> (ok: bool)
        ensures
            ok == self.wf(),
    {
        let mut i: usize = 1;
        while i < self.nodes.len()
            invariant
                1 <= i,
                forall|a: int, b: int|
                    0 <= a < b < i && b < self.nodes.len() ==> (#[trigger] self.nodes[a]).id.0 < (
                    #[trigger] self.nodes[b]).id.0,
            decreases self.nodes.len() - i,
        {
            if self.nodes[i - 1].id.0 >= self.nodes[i].id.0 {
                assert(!(self.nodes[i - 1].id.0 < self.nodes[i as int].id.0));
                return false;
            }
            assert forall|a: int, b: int| 0 <= a < b < i + 1 && b < self.nodes.len() implies (
            #[trigger] self.nodes[a]).id.0 < (#[trigger] self.nodes[b]).id.0 by {
                if b == i && a < i - 1 {
                    assert(self.nodes[a].id.0 < self.nodes[i - 1].id.0);
                }
            }
            i += 1;
        }
        assert(self.ascending());
        proof {
            self.lemma_wf_by_nodes();
        }
        let mut i: usize = 0;
        while i < self.nodes.len()
            invariant
                i <= self.nodes.len(),
                self.ascending(),
                self.wf() <==> forall|a: int|
                    0 <= a < self.nodes.len() ==> #[trigger] self.node_wf(a),
                forall|a: int| 0 <= a < i ==> #[trigger] self.node_wf(a),
            decreases self.nodes.len() - i,
        {
            if !self.check_node(i) {
                return false;
            }
            i += 1;
        }
        true
    }

    /// Whether `b` is among the neighbours of node `a`.
    pub fn is_connected(&self, a: Id, b: Id) -> (found: bool)
        requires
            self.wf(),
        ensures
            found == self.connected(a, b),
    {
        match self.find(a) {
            Some(at) => {
                proof {
                    self.lemma_index_of(at as int);
                }
                Self::lists(&self.nodes[at].connections, b)
            },
            None => false,
        }
    }

    /// Checks whether every node's identifier is below `bound`.
    pub fn is_below(&self, bound: u64) -> (ok: bool)
        ensures
            ok == self.below(bound),
    {
        let mut i: usize = 0;
        while i < self.nodes.len()
            invariant
                i <= self.nodes.len(),
                forall|a: int| 0 <= a < i ==> (#[trigger] self.nodes[a]).id.0 < bound,
            decreases self.nodes.len() - i,
        {
            if self.nodes[i].id.0 >= bound {
                return false;
            }
            i += 1;
        }
        true
    }

    /// A graph without nodes.
    pub fn new() -> (tracks: Self)
        ensures
            tracks.wf(),
            tracks.nodes@.len() == 0,
    {
        let tracks = Tracks { nodes: Vec::new() };
        assert forall|a: Id, b: Id| #[trigger] tracks.connected(a, b) implies false by {
            assert(!tracks.contains(a));
        }
        tracks
    }

    /// The place of node `id` in the list of nodes, if the graph has it.
    pub fn find(&self, id: Id) -> (found: Option<usize>)
        ensures
            found matches Some(i) ==> i < self.nodes.len() && self.nodes[i as int].id == id,
            found is None ==> !self.contains(id),
            found is Some && self.wf() ==> self.contains(id) && self.index_of(id) == found->0,
    {
        let mut i: usize = 0;
        while i < self.nodes.len()
            invariant
                i <= self.nodes.len(),
                forall|j: int| 0 <= j < i ==> (#[trigger] self.nodes[j]).id != id,
            decreases self.nodes.len() - i,
        {
            if self.nodes[i].id == id {
                proof {
                    if self.wf() {
                        self.lemma_index_of(i as int);
                    }
                }
                return Some(i);
            }
            i += 1;
        }
        None
    }

    /// Adds a node at `pos`, connected to nothing, and returns its identifier.
    pub fn add_node(&mut self, id_gen: &mut IdGen, pos: Point) -> (id: Id)
        requires
            old(self).wf(),
            old(self).below(old(id_gen).next),
            old(id_gen).next < u64::MAX,
        ensures
            final(self).wf(),
            final(self).below(final(id_gen).next),
            final(self).extends(old(self)),
            id.0 == old(id_gen).next,
            final(id_gen).next == old(id_gen).next + 1,
            final(self).nodes@.len() == old(self).nodes@.len() + 1,
            forall|i: int|
                0 <= i < old(self).nodes@.len() ==> final(self).nodes@[i] == old(self).nodes@[i],
            !old(self).contains(id),
            final(self).contains(id),
            final(self).position(id) == pos,
            final(self).neighbours(id) == Seq::<Id>::empty(),
            forall|a: Id, b: Id| final(self).connected(a, b) <==> old(self).connected(a, b),
    {
        let node = TrackNode::new(id_gen, pos);
        let id = node.id;
        let ghost before = *self;
        self.nodes.push(node);
        proof {
            let last = before.nodes.len() as int;
            assert(self.ascending());
            self.lemma_index_of(last);
            assert forall|a: Id, b: Id| self.connected(a, b) <==> before.connected(a, b) by {
                if before.contains(a) {
                    let i = before.index_of(a);
                    before.lemma_index_of(i);
                    assert(self.nodes[i] == before.nodes[i]);
                    self.lemma_index_of(i);
                }
                if self.contains(a) {
                    let i = self.index_of(a);
                    self.lemma_index_of(i);
                    if i < last {
                        assert(self.nodes[i] == before.nodes[i]);
                        before.lemma_index_of(i);
                    }
                }
            }
            assert forall|i: int| 0 <= i < self.nodes.len() implies (
            #[trigger] self.nodes[i]).connections@.no_duplicates() by {
                if i < last {
                    assert(self.nodes[i] == before.nodes[i]);
                }
            }
            assert forall|a: Id, b: Id| #[trigger] self.connected(a, b) implies self.connected(b, a)
                && a != b by {
                assert(before.connected(a, b));
                assert(before.connected(b, a));
            }
        }
        id
    }

    /// Whether `list` holds `id`.
    fn lists(list: &Vec<Id>, id: Id) -> (found: bool)
        ensures
            found == list@.contains(id),
    {
        let mut i: usize = 0;
        while i < list.len()
            invariant
                i <= list.len(),
                forall|j: int| 0 <= j < i ==> list@[j] != id,
            decreases list.len() - i,
        {
            if list[i] == id {
                return true;
            }
            i += 1;
        }
        false
    }

    /// The neighbours of a node after `b` was connected to it.
    pub open spec fn joined(neighbours: Seq<Id>, b: Id) -> Seq<Id> {
        if neighbours.contains(b) {
            neighbours
        } else {
            neighbours.push(b)
        }
    }

    /// After `b` was connected, the neighbours are those before and `b`, and
    /// still none is listed twice.
    pub proof fn lemma_joined(neighbours: Seq<Id>, b: Id)
        ensures
            forall|y: Id|
                Self::joined(neighbours, b).contains(y) <==> neighbours.contains(y) || y == b,
            neighbours.no_duplicates() ==> Self::joined(neighbours, b).no_duplicates(),
            neighbours.is_prefix_of(Self::joined(neighbours, b)),
    {
        let after = Self::joined(neighbours, b);
        assert forall|y: Id| after.contains(y) <==> neighbours.contains(y) || y == b by {
            if !neighbours.contains(b) {
                if neighbours.contains(y) {
                    let i = choose|i: int| 0 <= i < neighbours.len() && neighbours[i] == y;
                    assert(after[i] == y);
                }
                if y == b {
                    assert(after[neighbours.len() as int] == y);
                }
            }
        }
    }

    /// Connects nodes `a` and `b` in both directions. Connecting two nodes
    /// that are connected already changes nothing.
    pub fn add_connection(&mut self, a: Id, b: Id)
        requires
            old(self).wf(),
            old(self).contains(a),
            old(self).contains(b),
            a != b,
        ensures
            final(self).wf(),
            final(self).extends(old(self)),
            final(self).nodes@.len() == old(self).nodes@.len(),
            forall|bound: u64| old(self).below(bound) ==> final(self).below(bound),
            forall|x: Id| final(self).contains(x) <==> old(self).contains(x),
            forall|x: Id|
                old(self).contains(x) ==> final(self).position(x) == old(self).position(x),
            final(self).neighbours(a) == Self::joined(old(self).neighbours(a), b),
            final(self).neighbours(b) == Self::joined(old(self).neighbours(b), a),
            forall|x: Id|
                old(self).contains(x) && x != a && x != b ==> final(self).neighbours(x) == old(
                    self,
                ).neighbours(x),
            forall|x: Id, y: Id|
                final(self).connected(x, y) <==> old(self).connected(x, y) || (x == a && y == b)
                    || (x == b && y == a),
    {
        let ghost before = *self;
        let found_a = self.find(a);
        let found_b = self.find(b);
        let ia = found_a.unwrap();
        let ib = found_b.unwrap();
        if !Self::lists(&self.nodes[ia].connections, b) {
            self.nodes[ia].connections.push(b);
        }
        if !Self::lists(&self.nodes[ib].connections, a) {
            self.nodes[ib].connections.push(a);
        }
        proof {
            assert(before.connected(a, b) <==> before.connected(b, a));
            before.lemma_index_of(ia as int);
            before.lemma_index_of(ib as int);
            assert forall|i: int| 0 <= i < self.nodes.len() implies (#[trigger] self.nodes[i]).id
                == before.nodes[i].id && self.nodes[i].pos == before.nodes[i].pos
                && self.nodes[i].connections@ == (if i == ia {
                Self::joined(before.nodes[i].connections@, b)
            } else if i == ib {
                Self::joined(before.nodes[i].connections@, a)
            } else {
                before.nodes[i].connections@
            }) by {}
            assert(self.ascending()) by {
                assert forall|i: int, j: int| 0 <= i < j < self.nodes.len() implies (
                #[trigger] self.nodes[i]).id.0 < (#[trigger] self.nodes[j]).id.0 by {
                    assert(before.nodes[i].id.0 < before.nodes[j].id.0);
                }
            }
            assert forall|x: Id| self.contains(x) <==> before.contains(x) by {
                if self.contains(x) {
                    let i = self.index_of(x);
                    assert(before.nodes[i].id == x);
                }
                if before.contains(x) {
                    let i = before.index_of(x);
                    assert(self.nodes[i].id == x);
                }
            }
            assert forall|x: Id| before.contains(x) implies self.index_of(x) == before.index_of(
                x,
            ) by {
                let i = before.index_of(x);
                before.lemma_index_of(i);
                assert(self.nodes[i].id == x);
                self.lemma_index_of(i);
            }
            assert forall|x: Id, y: Id|
                self.connected(x, y) <==> before.connected(x, y) || (x == a && y == b) || (x == b
                    && y == a) by {
                if before.contains(x) {
                    let i = before.index_of(x);
                    before.lemma_index_of(i);
                    self.lemma_index_of(i);
                    assert(self.nodes[i].id == before.nodes[i].id);
                    assert(self.connected(x, y) <==> self.nodes[i].connections@.contains(y));
                    assert(before.connected(x, y) <==> before.nodes[i].connections@.contains(y));
                    Self::lemma_joined(before.nodes[i].connections@, b);
                    Self::lemma_joined(before.nodes[i].connections@, a);
                } else {
                    assert(!self.contains(x));
                }
            }
            assert forall|x: Id, y: Id| #[trigger] self.connected(x, y) implies self.connected(y, x)
                && x != y by {
                if before.connected(x, y) {
                    assert(before.connected(y, x));
                }
            }
            assert forall|i: int| 0 <= i < self.nodes.len() implies (
            #[trigger] self.nodes[i]).connections@.no_duplicates() by {
                assert(before.nodes[i].connections@.no_duplicates());
                Self::lemma_joined(before.nodes[i].connections@, b);
                Self::lemma_joined(before.nodes[i].connections@, a);
            }
            assert forall|bound: u64| before.below(bound) implies self.below(bound) by {
                assert forall|i: int| 0 <= i < self.nodes.len() implies (
                #[trigger] self.nodes[i]).id.0 < bound by {
                    assert(before.nodes[i].id.0 < bound);
                }
            }
        }
    }

    /// Whether the node at place `i` is the nearest to `pos`: no node is
    /// nearer, and every node before it in the list is farther.
    pub open spec fn is_nearest(&self, i: int, pos: Point) -> bool {
        &&& 0 <= i < self.nodes.len()
        &&& forall|j: int|
            0 <= j < self.nodes.len() ==> square_distance(self.nodes[i].pos, pos)
                <= square_distance((#[trigger] self.nodes[j]).pos, pos)
        &&& forall|j: int|
            0 <= j < i ==> square_distance(self.nodes[i].pos, pos) < square_distance(
                (#[trigger] self.nodes[j]).pos,
                pos,
            )
    }

    /// The node nearest to `pos` by Euclidean distance, or nothing where the
    /// graph has no node. Of several nodes at the same distance it is the
    /// one created first.
    pub fn nearest_node(&self, pos: Point) -> (nearest: Option<Id>)
        ensures
            nearest is None <==> self.nodes@.len() == 0,
            nearest matches Some(id) ==> exists|i: int|
                self.is_nearest(i, pos) && (#[trigger] self.nodes[i]).id == id,
    {
        if self.nodes.len() == 0 {
            return None;
        }
        let mut best: usize = 0;
        let mut best_sq: u128 = self.nodes[0].pos.square_distance_to(&pos);
        let mut i: usize = 1;
        while i < self.nodes.len()
            invariant
                1 <= i <= self.nodes.len(),
                best < i,
                best_sq == square_distance(self.nodes[best as int].pos, pos),
                forall|j: int|
                    0 <= j < i ==> best_sq <= square_distance((#[trigger] self.nodes[j]).pos, pos),
                forall|j: int|
                    0 <= j < best ==> best_sq < square_distance(
                        (#[trigger] self.nodes[j]).pos,
                        pos,
                    ),
            decreases self.nodes.len() - i,
        {
            let sq = self.nodes[i].pos.square_distance_to(&pos);
            if sq < best_sq {
                best = i;
                best_sq = sq;
            }
            i += 1;
        }
        assert(self.is_nearest(best as int, pos));
        Some(self.nodes[best].id)
    }

    /// The position of a point on a segment: as far along the straight line
    /// between the two nodes as the point's progress is of the segment's
    /// length, each coordinate rounded towards the node the point comes
    /// from.
    pub open spec fn point_position(&self, point: TrackPoint) -> Point {
        let from = self.position(point.from);
        let to = self.position(point.to);
        let len = self.length(point.from, point.to);
        Point {
            x: between(from.x, to.x, point.progress as nat, len) as i32,
            y: between(from.y, to.y, point.progress as nat, len) as i32,
        }
    }

    /// The position of `point`.
    pub fn point_pos(&self, point: TrackPoint) -> (pos: Point)
        requires
            self.wf(),
            self.contains(point.from),
            self.contains(point.to),
            point.progress <= self.length(point.from, point.to),
        ensures
            pos == self.point_position(point),
    {
        let from = self.node_position(point.from);
        let to = self.node_position(point.to);
        let len = from.distance_to(&to);
        Point {
            x: coordinate_between(from.x, to.x, point.progress, len),
            y: coordinate_between(from.y, to.y, point.progress, len),
        }
    }

    /// The position of node `id`.
    pub fn node_position(&self, id: Id) -> (pos: Point)
        requires
            self.wf(),
            self.contains(id),
        ensures
            pos == self.position(id),
    {
        let found = self.find(id);
        self.nodes[found.unwrap()].pos
    }

    /// The length of the segment between nodes `from` and `to`.
    pub fn segment_length(&self, from: Id, to: Id) -> (len: u64)
        requires
            self.wf(),
            self.contains(from),
            self.contains(to),
        ensures
            len == self.length(from, to),
            len <= 0x2_0000_0000,
    {
        let from_pos = self.node_position(from);
        let to_pos = self.node_position(to);
        from_pos.distance_to(&to_pos)
    }
}

} // verus!
