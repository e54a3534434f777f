//! Shortest routes over the track graph.

use crate::geometry::{lemma_distance_triangle, lemma_distance_zero, Point};
use crate::ids::Id;
use crate::tracks::{TrackNode, Tracks};
use vstd::prelude::*;

verus! {

/// A node as plain values.
pub struct NodeView {
    pub id: u64,
    pub pos: Point,
    pub connections: Seq<u64>,
}

impl View for TrackNode {
    type V = NodeView;

    open spec fn view(&self) -> NodeView {
        NodeView {
            id: self.id.0,
            pos: self.pos,
            connections: self.connections@.map_values(|id: Id| id.0),
        }
    }
}

impl View for Tracks {
    type V = Seq<NodeView>;

    open spec fn view(&self) -> Seq<NodeView> {
        self.nodes@.map_values(|node: TrackNode| node@)
    }
}

/// What the A* search of the `pathfinding` crate returns on the graph
/// `nodes` from node `from` with node `to` as the goal: the nodes of the
/// path that it found, `from` first, or nothing.
pub uninterp spec fn astar_path(nodes: Seq<NodeView>, from: u64, to: u64) -> Option<Seq<u64>>;

/// The identifiers that the numbers `raw` stand for.
pub open spec fn ids_of(raw: Seq<u64>) -> Seq<Id> {
    raw.map_values(|id: u64| Id(id))
}

impl Tracks {
    /// The node before place `i` of a walk `path` that starts at `from`.
    pub open spec fn before(from: Id, path: Seq<Id>, i: int) -> Id {
        if i == 0 {
            from
        } else {
            path[i - 1]
        }
    }

    /// Whether the node at place `i` of a walk `path` that starts at `from`
    /// is connected to the node before it.
    pub open spec fn linked(&self, from: Id, path: Seq<Id>, i: int) -> bool {
        self.connected(Self::before(from, path, i), path[i])
    }

    /// Whether `path` is a walk from `from`: each of its nodes is connected
    /// to the one before it. The path does not hold `from` itself.
    pub open spec fn is_walk(&self, from: Id, path: Seq<Id>) -> bool {
        forall|i: int| 0 <= i < path.len() ==> #[trigger] self.linked(from, path, i)
    }

    /// Whether a walk `path` from `from` ends at `to`.
    pub open spec fn arrives(from: Id, path: Seq<Id>, to: Id) -> bool {
        if path.len() == 0 {
            from == to
        } else {
            path.last() == to
        }
    }

    /// Whether `path` is a walk in the graph from node `from` to node `to`.
    pub open spec fn is_route(&self, from: Id, path: Seq<Id>, to: Id) -> bool {
        &&& self.contains(from)
        &&& self.is_walk(from, path)
        &&& Self::arrives(from, path, to)
    }

    /// The sum of the lengths of the segments of a walk `path` from `from`.
    pub open spec fn walk_length(&self, from: Id, path: Seq<Id>) -> nat
        decreases path.len(),
    {
        if path.len() == 0 {
            0
        } else {
            self.length(from, path[0]) + self.walk_length(path[0], path.drop_first())
        }
    }

    /// Whether some walk leads from `from` to `to`.
    pub open spec fn reachable(&self, from: Id, to: Id) -> bool {
        exists|path: Seq<Id>| self.is_route(from, path, to)
    }

    /// Whether `path` is a route from `from` to `to` and no route between them
    /// is shorter.
    pub open spec fn is_shortest(&self, from: Id, path: Seq<Id>, to: Id) -> bool {
        &&& self.is_route(from, path, to)
        &&& forall|other: Seq<Id>| #[trigger]
            self.is_route(from, other, to) ==> self.walk_length(from, path) <= self.walk_length(
                from,
                other,
            )
    }

    /// Whether the straight-line distance to `to` never exceeds the length of
    /// a route to `to`.
    pub open spec fn admissible(&self, to: Id) -> bool {
        forall|node: Id, path: Seq<Id>| #[trigger]
            self.is_route(node, path, to) ==> self.length(node, to) <= self.walk_length(node, path)
    }

    /// The route that the search finds from `from` to `to`: the nodes to
    /// visit in turn, without `from`, or nothing where there is no route.
    pub open spec fn route(&self, from: Id, to: Id) -> Option<Seq<Id>> {
        match astar_path(self@, from.0, to.0) {
            Some(raw) => Some(ids_of(raw.drop_first())),
            None => None,
        }
    }

    /// The rest of a walk, seen from its first node, is a walk.
    pub proof fn lemma_walk_rest(&self, from: Id, path: Seq<Id>)
        requires
            self.wf(),
            self.is_walk(from, path),
            path.len() > 0,
        ensures
            self.connected(from, path[0]),
            self.contains(path[0]),
            self.is_walk(path[0], path.drop_first()),
    {
        let rest = path.drop_first();
        assert(self.linked(from, path, 0));
        self.lemma_connected_contains(from, path[0]);
        assert forall|i: int| 0 <= i < rest.len() implies #[trigger] self.linked(
            path[0],
            rest,
            i,
        ) by {
            assert(rest[i] == path[i + 1]);
            assert(self.linked(from, path, i + 1));
        }
    }

    /// A walk stays a walk when the graph grows.
    pub proof fn lemma_walk_on_extended(&self, before: &Tracks, from: Id, path: Seq<Id>)
        requires
            before.wf(),
            self.wf(),
            self.extends(before),
            before.is_walk(from, path),
        ensures
            self.is_walk(from, path),
    {
        assert forall|i: int| 0 <= i < path.len() implies #[trigger] self.linked(
            from,
            path,
            i,
        ) by {
            let prev = Self::before(from, path, i);
            assert(before.linked(from, path, i));
            self.lemma_extends(before, prev);
        }
    }

    /// The rest of a route, seen from its first node, is a route.
    pub proof fn lemma_route_rest(&self, from: Id, path: Seq<Id>, to: Id)
        requires
            self.wf(),
            self.is_route(from, path, to),
            path.len() > 0,
        ensures
            self.connected(from, path[0]),
            self.contains(path[0]),
            self.is_route(path[0], path.drop_first(), to),
    {
        self.lemma_walk_rest(from, path);
        if path.len() > 1 {
            assert(path.drop_first().last() == path.last());
        }
    }

    /// No route is shorter than the straight line between its ends.
    pub proof fn lemma_straight_line_shortest(&self, from: Id, path: Seq<Id>, to: Id)
        requires
            self.wf(),
            self.is_route(from, path, to),
        ensures
            self.length(from, to) <= self.walk_length(from, path),
        decreases path.len(),
    {
        if path.len() == 0 {
            lemma_distance_zero(self.position(from));
        } else {
            self.lemma_route_rest(from, path, to);
            self.lemma_straight_line_shortest(path[0], path.drop_first(), to);
            lemma_distance_triangle(
                self.position(from),
                self.position(path[0]),
                self.position(to),
            );
        }
    }

    /// The neighbours of `node` with the length of the segment to each, as
    /// the search takes them.
    pub open spec fn successors_of(&self, node: Id) -> Seq<(u64, u128)> {
        self.neighbours(node).map_values(|next: Id| (next.0, self.length(node, next) as u128))
    }

    /// The neighbours of node `node`, in the order in which they were
    /// connected, each with the length of the segment to it. A number that
    /// names no node has no neighbours.
    pub fn successors(&self, node: u64) -> (next: Vec<(u64, u128)>)
        ensures
            self.wf() && self.contains(Id(node)) ==> next@ == self.successors_of(Id(node)),
            !self.contains(Id(node)) ==> next@.len() == 0,
    {
        let mut next: Vec<(u64, u128)> = Vec::new();
        let found = self.find(Id(node));
        if let Some(at) = found {
            let from = &self.nodes[at];
            let mut i: usize = 0;
            while i < from.connections.len()
                invariant
                    i <= from.connections.len(),
                    at < self.nodes.len(),
                    from == &self.nodes[at as int],
                    from.id == Id(node),
                    self.wf() ==> self.contains(Id(node)) && self.index_of(Id(node)) == at,
                    self.wf() ==> next@ == self.successors_of(Id(node)).take(i as int),
                decreases from.connections.len() - i,
            {
                let to = from.connections[i];
                let ghost grown = self.successors_of(Id(node)).take(i + 1);
                match self.find(to) {
                    Some(to_at) => {
                        let len = from.pos.distance_to(&self.nodes[to_at].pos);
                        next.push((to.0, len as u128));
                        assert(self.wf() ==> next@ =~= grown);
                    },
                    None => {
                        proof {
                            if self.wf() {
                                assert(self.neighbours(Id(node))[i as int] == to);
                                assert(self.connected(Id(node), to));
                                self.lemma_connected_contains(Id(node), to);
                            }
                        }
                    },
                }
                i += 1;
            }
            assert(self.wf() ==> next@ =~= self.successors_of(Id(node)));
        }
        next
    }

    /// The straight-line distance between nodes `node` and `goal`, which the
    /// search takes as its estimate; zero where one of them names no node.
    pub fn heuristic(&self, node: u64, goal: u64) -> (estimate: u128)
        ensures
            self.wf() && self.contains(Id(node)) && self.contains(Id(goal)) ==> estimate
                == self.length(Id(node), Id(goal)),
            !self.contains(Id(node)) || !self.contains(Id(goal)) ==> estimate == 0,
    {
        match (self.find(Id(node)), self.find(Id(goal))) {
            (Some(at), Some(goal_at)) => self.nodes[at].pos.distance_to(
                &self.nodes[goal_at].pos,
            ) as u128,
            _ => 0,
        }
    }

    /// Whether `node` is the goal of the search.
    pub fn is_goal(node: u64, goal: u64) -> (reached: bool)
        ensures
            reached == (node == goal),
    {
        node == goal
    }

    /// Runs `pathfinding::directed::astar::astar` from `from` towards `to`
    /// and returns the nodes of the path found, `from` first.
    ///
    /// The search is handed `successors` for the edges, `heuristic` for the
    /// estimate and `is_goal` for the goal. Believed of it, not proved: with
    /// an estimate that never exceeds the true cost it returns a shortest
    /// path from the start to the goal, which begins with the start and holds
    /// no node twice; it returns nothing exactly when no path leads to the
    /// goal; and it is a function of the graph and the two nodes.
    ///
    /// The search adds up costs of 128 bits. A path without a repeated node
    /// has fewer segments than a list can hold nodes, and no segment is
    /// longer than twice the width of the plane, so no sum overflows.
    #[verifier::external_body]
    fn astar(&self, from: Id, to: Id) -> (found: Option<Vec<u64>>)
        requires
            self.wf(),
            self.contains(from),
            self.contains(to),
            self.admissible(to),
        ensures
            match found {
                Some(raw) => astar_path(self@, from.0, to.0) == Some(raw@),
                None => astar_path(self@, from.0, to.0) is None,
            },
            found matches Some(raw) ==> {
                &&& raw@.len() > 0
                &&& raw@[0] == from.0
                &&& raw@.no_duplicates()
                &&& self.is_shortest(from, ids_of(raw@.drop_first()), to)
            },
            found is None ==> !self.reachable(from, to),
    {
        pathfinding::directed::astar::astar(
            &from.0,
            |node| self.successors(*node),
            |node| self.heuristic(*node, to.0),
            |node| Self::is_goal(*node, to.0),
        ).map(|found| found.0)
    }

    /// Finds a shortest route from node `from` to node `to`: the nodes to
    /// visit in turn, without `from` and ending with `to`. Returns nothing
    /// exactly when no walk leads from `from` to `to`.
    ///
    /// Which of several shortest routes is found depends on the order in
    /// which the nodes were connected.
    pub fn pathfind(&self, from: Id, to: Id) -> (path: Option<Vec<Id>>)
        requires
            self.wf(),
            self.contains(from),
            self.contains(to),
        ensures
            match path {
                Some(found) => self.route(from, to) == Some(found@),
                None => self.route(from, to) is None,
            },
            path matches Some(found) ==> {
                &&& self.is_shortest(from, found@, to)
                &&& found@.no_duplicates()
                &&& !found@.contains(from)
            },
            path is None <==> !self.reachable(from, to),
    {
        proof {
            assert forall|node: Id, other: Seq<Id>| #[trigger]
                self.is_route(node, other, to) implies self.length(node, to) <= self.walk_length(
                node,
                other,
            ) by {
                self.lemma_straight_line_shortest(node, other, to);
            }
        }
        match self.astar(from, to) {
            Some(raw) => {
                let ghost rest = ids_of(raw@.drop_first());
                let mut found: Vec<Id> = Vec::new();
                let mut i: usize = 1;
                while i < raw.len()
                    invariant
                        1 <= i <= raw.len(),
                        found@ == rest.take(i - 1),
                        rest == ids_of(raw@.drop_first()),
                    decreases raw.len() - i,
                {
                    found.push(Id(raw[i]));
                    assert(found@ =~= rest.take(i as int));
                    i += 1;
                }
                assert(found@ =~= rest);
                proof {
                    assert forall|i: int, j: int|
                        0 <= i < rest.len() && 0 <= j < rest.len() && i != j implies rest[i]
                        != rest[j] by {
                        assert(raw@[i + 1] != raw@[j + 1]);
                    }
                    assert forall|i: int| 0 <= i < rest.len() implies rest[i] != from by {
                        assert(raw@[i + 1] != raw@[0]);
                    }
                }
                Some(found)
            },
            None => None,
        }
    }
}

} // verus!
