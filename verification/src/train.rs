//! Trains: cargo transfer at a port and movement along the track.

use crate::factory::{min_nat, FactoryIo, IoType};
use crate::geometry::lemma_distance_bound;
use crate::ids::Id;
use crate::tracks::{TrackPoint, Tracks};
use std::collections::VecDeque;
use vstd::prelude::*;

verus! {

/// A port of a factory, named by the factory and the port's place in it.
#[derive(Debug, Copy, Clone, PartialEq, Eq, Structural)]
pub struct IoId {
    pub factory: Id,
    pub io: usize,
}

/// A train.
#[derive(Debug, Clone, PartialEq, Eq)]
pub struct Train {
    pub id: Id,
    /// The resource that the train carries.
    pub resource: Id,
    /// The amount of cargo on board, at most `capacity`.
    pub amount: u64,
    pub capacity: u64,
    /// The length of the body that trails behind the head.
    pub length: u64,
    pub head: TrackPoint,
    /// The nodes that the head passed, the latest first.
    pub tail_nodes: VecDeque<Id>,
    /// The nodes still to visit, the next first. Present while the train is
    /// under way.
    pub path: Option<Vec<Id>>,
    /// The port that the train serves.
    pub target: Option<IoId>,
}

/// A train, with its lists as sequences.
pub struct TrainView {
    pub id: Id,
    pub resource: Id,
    pub amount: u64,
    pub capacity: u64,
    pub length: u64,
    pub head: TrackPoint,
    pub tail_nodes: Seq<Id>,
    pub path: Option<Seq<Id>>,
    pub target: Option<IoId>,
}

impl View for Train {
    type V = TrainView;

    open spec fn view(&self) -> TrainView {
        TrainView {
            id: self.id,
            resource: self.resource,
            amount: self.amount,
            capacity: self.capacity,
            length: self.length,
            head: self.head,
            tail_nodes: self.tail_nodes@,
            path: match self.path {
                Some(path) => Some(path@),
                None => None,
            },
            target: self.target,
        }
    }
}

/// The amount that moves between a train and `port` in one tick, where
/// `quota` is the most that the loading gear moves in that time.
///
/// Unloading into an input is bounded by the cargo on board and by the room
/// left in the port's buffer. Loading from an output is bounded by the room
/// left on board and by the port's buffer. A port without a buffer bounds
/// nothing.
pub open spec fn moved_amount(amount: u64, capacity: u64, port: FactoryIo, quota: nat) -> nat {
    match port.ty {
        IoType::Input => {
            let offered = min_nat(amount as nat, quota);
            match port.amount {
                Some(buffered) => min_nat(offered, (u64::MAX - buffered) as nat),
                None => offered,
            }
        },
        IoType::Output => {
            let wanted = min_nat((capacity - amount) as nat, quota);
            match port.amount {
                Some(buffered) => min_nat(wanted, buffered as nat),
                None => wanted,
            }
        },
    }
}

/// The cargo on board after `moved` units went to or came from `port`.
pub open spec fn amount_after(amount: u64, port: FactoryIo, moved: nat) -> int {
    match port.ty {
        IoType::Input => amount - moved,
        IoType::Output => amount + moved,
    }
}

/// The port after `moved` units went to or came from a train.
pub open spec fn port_after_transfer(port: FactoryIo, moved: nat) -> FactoryIo {
    match port.amount {
        Some(buffered) => FactoryIo {
            amount: Some(
                match port.ty {
                    IoType::Input => (buffered + moved) as u64,
                    IoType::Output => (buffered - moved) as u64,
                },
            ),
            ..port
        },
        None => port,
    }
}

/// Whether a transfer that left `amount` on board finished the visit: the
/// train is exactly empty after unloading, or exactly full after loading.
pub open spec fn transfer_done(amount: int, capacity: u64, port: FactoryIo) -> bool {
    match port.ty {
        IoType::Input => amount == 0,
        IoType::Output => amount == capacity,
    }
}

/// A transfer loses nothing: the cargo on board stays within the capacity,
/// the buffer of the port stays within what a buffer can hold, and what
/// leaves one of them arrives in the other.
pub proof fn lemma_transfer_conserves(amount: u64, capacity: u64, port: FactoryIo, quota: nat)
    requires
        amount <= capacity,
        port.amount is Some,
    ensures
        0 <= amount_after(amount, port, moved_amount(amount, capacity, port, quota)) <= capacity,
        port_after_transfer(port, moved_amount(amount, capacity, port, quota)).amount is Some,
        amount_after(amount, port, moved_amount(amount, capacity, port, quota))
            + port_after_transfer(port, moved_amount(amount, capacity, port, quota)).amount->0
            == amount + port.amount->0,
{
}

/// Where a run along the track ends.
pub struct Run {
    pub head: TrackPoint,
    /// The nodes still to visit, or nothing once the train has arrived.
    pub path: Option<Seq<Id>>,
    /// The nodes that the head passed, the latest first.
    pub passed: Seq<Id>,
}

/// Moves a head by `distance` along its segment and on along `path`.
///
/// A head that reaches the end of its segment passes that node and goes on
/// towards the next node of the path with the distance that is left. At the
/// end of the path it stops on the last node, and the train has arrived.
pub open spec fn run(
    tracks: &Tracks,
    head: TrackPoint,
    path: Seq<Id>,
    passed: Seq<Id>,
    distance: nat,
) -> Run
    decreases path.len(),
{
    let len = tracks.length(head.from, head.to);
    if head.progress + distance < len {
        Run {
            head: TrackPoint { progress: (head.progress + distance) as u64, ..head },
            path: Some(path),
            passed,
        }
    } else if path.len() > 0 {
        run(
            tracks,
            TrackPoint { from: head.to, to: path[0], progress: 0 },
            path.drop_first(),
            seq![head.to] + passed,
            (head.progress + distance - len) as nat,
        )
    } else {
        Run { head: TrackPoint { progress: len as u64, ..head }, path: None, passed }
    }
}

/// The node at which a path ends that leads on from the node `to`.
pub open spec fn destination(to: Id, path: Seq<Id>) -> Id {
    if path.len() == 0 {
        to
    } else {
        path.last()
    }
}

/// The way that a head has before it: the rest of its segment and then the
/// segments of `path`.
pub open spec fn way_left(tracks: &Tracks, head: TrackPoint, path: Seq<Id>) -> int {
    tracks.length(head.from, head.to) - head.progress + tracks.walk_length(head.to, path)
}

/// The sum of `distances`.
pub open spec fn total(distances: Seq<u64>) -> nat
    decreases distances.len(),
{
    if distances.len() == 0 {
        0
    } else {
        total(distances.drop_last()) + distances.last() as nat
    }
}

/// Whether a head stands exactly on the node `on`, at the end of its segment.
pub open spec fn stands_on(tracks: &Tracks, head: TrackPoint, on: Id) -> bool {
    head.to == on && head.progress == tracks.length(head.from, head.to)
}

/// A run that covers the way left ends exactly on the last node of the path,
/// with the path cleared. A shorter run shortens the way left by exactly its
/// length and keeps the destination.
pub proof fn lemma_run(
    tracks: &Tracks,
    head: TrackPoint,
    path: Seq<Id>,
    passed: Seq<Id>,
    distance: nat,
)
    requires
        head.progress <= tracks.length(head.from, head.to),
    ensures
        distance >= way_left(tracks, head, path) ==> {
            &&& run(tracks, head, path, passed, distance).path is None
            &&& stands_on(
                tracks,
                run(tracks, head, path, passed, distance).head,
                destination(head.to, path),
            )
        },
        distance < way_left(tracks, head, path) ==> {
            &&& run(tracks, head, path, passed, distance).path matches Some(rest)
            &&& way_left(tracks, run(tracks, head, path, passed, distance).head, rest) == way_left(
                tracks,
                head,
                path,
            ) - distance
            &&& destination(run(tracks, head, path, passed, distance).head.to, rest) == destination(
                head.to,
                path,
            )
            &&& run(tracks, head, path, passed, distance).head.progress <= tracks.length(
                run(tracks, head, path, passed, distance).head.from,
                run(tracks, head, path, passed, distance).head.to,
            )
        },
    decreases path.len(),
{
    let len = tracks.length(head.from, head.to);
    lemma_distance_bound(tracks.position(head.from), tracks.position(head.to));
    if head.progress + distance >= len && path.len() > 0 {
        let next = TrackPoint { from: head.to, to: path[0], progress: 0 };
        lemma_run(
            tracks,
            next,
            path.drop_first(),
            seq![head.to] + passed,
            (head.progress + distance - len) as nat,
        );
        if path.len() > 1 {
            assert(path.drop_first().last() == path.last());
        }
    }
}

/// How many nodes of `tail` a body of length `limit` keeps, where the first
/// node lies `covered` behind the head.
///
/// The body keeps every node that lies within `limit` of the head, and the
/// first node beyond it, on whose segment the body ends.
pub open spec fn kept(tracks: &Tracks, tail: Seq<Id>, covered: nat, limit: nat) -> nat
    decreases tail.len(),
{
    if tail.len() <= 1 {
        tail.len()
    } else if covered > limit {
        1
    } else {
        1 + kept(tracks, tail.drop_first(), covered + tracks.length(tail[0], tail[1]), limit)
    }
}

/// How far behind the head the node at place `k` of `tail` lies along the
/// track, where the first node lies `covered` behind the head.
pub open spec fn behind(tracks: &Tracks, tail: Seq<Id>, covered: nat, k: nat) -> nat
    decreases k,
{
    if k == 0 {
        covered
    } else {
        behind(tracks, tail, covered, (k - 1) as nat) + tracks.length(tail[k - 1], tail[k as int])
    }
}

/// The end of a train's body.
#[derive(Debug, Copy, Clone, PartialEq, Eq, Structural)]
pub struct BodyEnd {
    /// The place in the tail of the last node that the body reaches or
    /// reaches past.
    pub reach: usize,
    /// The point where the body ends: between that node and the one before
    /// it, measured from that node.
    pub point: TrackPoint,
}

/// A body keeps no more nodes than the tail has.
pub proof fn lemma_kept_bound(tracks: &Tracks, tail: Seq<Id>, covered: nat, limit: nat)
    ensures
        kept(tracks, tail, covered, limit) <= tail.len(),
        tail.len() > 0 ==> kept(tracks, tail, covered, limit) >= 1,
    decreases tail.len(),
{
    if tail.len() > 1 && covered <= limit {
        lemma_kept_bound(
            tracks,
            tail.drop_first(),
            covered + tracks.length(tail[0], tail[1]),
            limit,
        );
    }
}

/// A node lies as far behind the head as it lies behind the first node of
/// the tail, and that node behind the head.
pub proof fn lemma_behind_rest(tracks: &Tracks, tail: Seq<Id>, covered: nat, k: nat)
    requires
        k + 1 < tail.len(),
    ensures
        behind(tracks, tail, covered, k + 1) == behind(
            tracks,
            tail.drop_first(),
            covered + tracks.length(tail[0], tail[1]),
            k,
        ),
    decreases k,
{
    let rest = tail.drop_first();
    let next = covered + tracks.length(tail[0], tail[1]);
    if k > 0 {
        lemma_behind_rest(tracks, tail, covered, (k - 1) as nat);
        assert(rest[k - 1] == tail[k as int] && rest[k as int] == tail[k as int + 1]);
    } else {
        assert(behind(tracks, tail, covered, 0) == covered);
        assert(behind(tracks, rest, next, 0) == next);
    }
}

/// The body keeps every node that lies within its length of the head and
/// the first node beyond: each node before the last one kept lies within
/// the length, and the last one kept lies beyond it or is the last of the
/// tail.
pub proof fn lemma_kept_reaches(tracks: &Tracks, tail: Seq<Id>, covered: nat, limit: nat)
    requires
        tail.len() > 0,
    ensures
        1 <= kept(tracks, tail, covered, limit) <= tail.len(),
        forall|j: nat|
            j + 1 < kept(tracks, tail, covered, limit) ==> #[trigger] behind(
                tracks,
                tail,
                covered,
                j,
            ) <= limit,
        kept(tracks, tail, covered, limit) < tail.len() ==> behind(
            tracks,
            tail,
            covered,
            (kept(tracks, tail, covered, limit) - 1) as nat,
        ) > limit,
    decreases tail.len(),
{
    if tail.len() > 1 && covered <= limit {
        let rest = tail.drop_first();
        let next = covered + tracks.length(tail[0], tail[1]);
        lemma_kept_reaches(tracks, rest, next, limit);
        let k = kept(tracks, tail, covered, limit);
        assert forall|j: nat| j + 1 < k implies #[trigger] behind(tracks, tail, covered, j)
            <= limit by {
            if j > 0 {
                lemma_behind_rest(tracks, tail, covered, (j - 1) as nat);
                assert(behind(tracks, rest, next, (j - 1) as nat) <= limit);
            }
        }
        if k < tail.len() {
            lemma_behind_rest(tracks, tail, covered, (k - 2) as nat);
        }
    }
}

/// Whether the graph has every node of `nodes`.
pub open spec fn all_on(tracks: &Tracks, nodes: Seq<Id>) -> bool {
    forall|i: int| 0 <= i < nodes.len() ==> tracks.contains(#[trigger] nodes[i])
}

impl TrainView {
    /// The invariant of a train on the graph `tracks`: the cargo fits, the
    /// head lies on a node or on the segment between two connected nodes,
    /// every node of the tail exists, and the path is a walk that leads on
    /// from the node that the head moves towards.
    pub open spec fn wf(self, tracks: &Tracks) -> bool {
        &&& self.amount <= self.capacity
        &&& tracks.contains(self.head.from)
        &&& tracks.contains(self.head.to)
        &&& self.head.from == self.head.to || tracks.connected(self.head.from, self.head.to)
        &&& self.head.progress <= tracks.length(self.head.from, self.head.to)
        &&& all_on(tracks, self.tail_nodes)
        &&& self.path matches Some(path) ==> tracks.is_walk(self.head.to, path)
    }

    /// A train that is well-formed on a graph stays so when the graph grows,
    /// and is bound for the same nodes.
    pub proof fn lemma_wf_on_extended(self, before: &Tracks, after: &Tracks)
        requires
            self.wf(before),
            before.wf(),
            after.wf(),
            after.extends(before),
        ensures
            self.wf(after),
            forall|node: Id| self.bound_for(before, node) ==> self.bound_for(after, node),
    {
        after.lemma_extends(before, self.head.from);
        after.lemma_extends(before, self.head.to);
        assert forall|i: int| 0 <= i < self.tail_nodes.len() implies after.contains(
            #[trigger] self.tail_nodes[i],
        ) by {
            after.lemma_extends(before, self.tail_nodes[i]);
        }
        if let Some(path) = self.path {
            after.lemma_walk_on_extended(before, self.head.to, path);
        }
    }

    /// The end of the body, which lies `length` behind the head along the
    /// tail, or nothing where the train has no tail.
    ///
    /// The body ends on the segment between the last node that it keeps and
    /// the node before it, or the head's own target where there is none
    /// before it. Where the tail is shorter than the body, the body ends on
    /// the last node of the tail.
    pub open spec fn body_end(self, tracks: &Tracks) -> Option<BodyEnd> {
        if self.tail_nodes.len() == 0 {
            None
        } else {
            let last = (kept(tracks, self.tail_nodes, self.head.progress as nat, self.length as nat)
                - 1) as nat;
            let from = self.tail_nodes[last as int];
            let to = if last == 0 {
                self.head.to
            } else {
                self.tail_nodes[last - 1]
            };
            let over = behind(tracks, self.tail_nodes, self.head.progress as nat, last)
                - self.length;
            let len = tracks.length(from, to);
            Some(
                BodyEnd {
                    reach: last as usize,
                    point: TrackPoint {
                        from,
                        to,
                        progress: if over <= 0 {
                            0
                        } else if over >= len {
                            len as u64
                        } else {
                            over as u64
                        },
                    },
                },
            )
        }
    }

    /// The tail after the head passed the nodes `passed`: they are put in
    /// front, and the tail is cut to the length of the body. Where the head
    /// passed no node the tail stays as it is.
    pub open spec fn tail_after(self, tracks: &Tracks, passed: Seq<Id>, head: TrackPoint) -> Seq<
        Id,
    > {
        if passed.len() > 0 {
            let tail = passed + self.tail_nodes;
            tail.take(kept(tracks, tail, head.progress as nat, self.length as nat) as int)
        } else {
            self.tail_nodes
        }
    }

    /// The train after it moved `distance` along its path. A train that is
    /// not under way stays where it is.
    pub open spec fn advanced(self, tracks: &Tracks, distance: u64) -> TrainView {
        match self.path {
            Some(path) => {
                let end = run(tracks, self.head, path, Seq::empty(), distance as nat);
                TrainView {
                    head: end.head,
                    path: end.path,
                    tail_nodes: self.tail_after(tracks, end.passed, end.head),
                    ..self
                }
            },
            None => self,
        }
    }

    /// Whether the train is bound for the node `node`: its path ends there,
    /// or, with the path cleared, its head stands exactly on the node.
    pub open spec fn bound_for(self, tracks: &Tracks, node: Id) -> bool {
        match self.path {
            Some(path) => destination(self.head.to, path) == node,
            None => stands_on(tracks, self.head, node),
        }
    }

    /// A train that is bound for a node is still bound for it after a move.
    pub proof fn lemma_advanced_bound_for(self, tracks: &Tracks, distance: u64, node: Id)
        requires
            self.head.progress <= tracks.length(self.head.from, self.head.to),
            self.bound_for(tracks, node),
        ensures
            self.advanced(tracks, distance).bound_for(tracks, node),
    {
        if self.path is Some {
            self.lemma_advanced(tracks, distance);
        }
    }

    /// The train after it moved by each of `distances` in turn.
    pub open spec fn advanced_over(self, tracks: &Tracks, distances: Seq<u64>) -> TrainView
        decreases distances.len(),
    {
        if distances.len() == 0 {
            self
        } else {
            self.advanced_over(tracks, distances.drop_last()).advanced(tracks, distances.last())
        }
    }

    /// The way that the train has before it, or zero once it has arrived.
    pub open spec fn way_left(self, tracks: &Tracks) -> int {
        match self.path {
            Some(path) => way_left(tracks, self.head, path),
            None => 0,
        }
    }

    /// One move shortens the way left by the distance moved. A move that
    /// covers the way left puts the head exactly on the last node of the
    /// path and clears the path.
    pub proof fn lemma_advanced(self, tracks: &Tracks, distance: u64)
        requires
            self.head.progress <= tracks.length(self.head.from, self.head.to),
            self.path is Some,
        ensures
            distance >= self.way_left(tracks) ==> {
                &&& self.advanced(tracks, distance).path is None
                &&& stands_on(
                    tracks,
                    self.advanced(tracks, distance).head,
                    destination(self.head.to, self.path->0),
                )
            },
            distance < self.way_left(tracks) ==> {
                &&& self.advanced(tracks, distance).path matches Some(rest)
                &&& self.advanced(tracks, distance).way_left(tracks) == self.way_left(tracks)
                    - distance
                &&& destination(self.advanced(tracks, distance).head.to, rest) == destination(
                    self.head.to,
                    self.path->0,
                )
                &&& self.advanced(tracks, distance).head.progress <= tracks.length(
                    self.advanced(tracks, distance).head.from,
                    self.advanced(tracks, distance).head.to,
                )
            },
    {
        lemma_run(tracks, self.head, self.path->0, Seq::empty(), distance as nat);
    }

    /// A train that follows a route to the node `to` stands exactly on `to`,
    /// with its path cleared, once it has moved and the moves it made add up
    /// to the way that it had before it; and there it stays.
    pub proof fn lemma_route_lands(self, tracks: &Tracks, path: Seq<Id>, to: Id, distances: Seq<u64>)
        requires
            self.head.progress <= tracks.length(self.head.from, self.head.to),
            self.path == Some(path),
            tracks.is_route(self.head.to, path, to),
        ensures
            distances.len() > 0 && total(distances) >= self.way_left(tracks) ==> {
                &&& self.advanced_over(tracks, distances).path is None
                &&& stands_on(tracks, self.advanced_over(tracks, distances).head, to)
            },
            total(distances) < self.way_left(tracks) ==> {
                &&& self.advanced_over(tracks, distances).path matches Some(rest)
                &&& self.advanced_over(tracks, distances).way_left(tracks) == self.way_left(tracks)
                    - total(distances)
                &&& destination(self.advanced_over(tracks, distances).head.to, rest) == to
                &&& self.advanced_over(tracks, distances).head.progress <= tracks.length(
                    self.advanced_over(tracks, distances).head.from,
                    self.advanced_over(tracks, distances).head.to,
                )
            },
        decreases distances.len(),
    {
        if distances.len() > 0 {
            let before = self.advanced_over(tracks, distances.drop_last());
            self.lemma_route_lands(tracks, path, to, distances.drop_last());
            if before.path is Some {
                before.lemma_advanced(tracks, distances.last());
            }
        }
    }

    /// The kind of port that the train looks for next: an input to unload at
    /// when it is more than half full, else an output to load from.
    pub open spec fn looks_for(self) -> IoType {
        if 2 * self.amount > self.capacity {
            IoType::Input
        } else {
            IoType::Output
        }
    }

    /// The train after it was offered `route` to the port `target`: with a
    /// route it takes both, without one it stays as it is.
    pub open spec fn headed_for(self, target: IoId, route: Option<Seq<Id>>) -> TrainView {
        match route {
            Some(path) => TrainView { path: Some(path), target: Some(target), ..self },
            None => self,
        }
    }

    /// The train after one tick at `port`.
    pub open spec fn transferred(self, port: FactoryIo, quota: nat) -> TrainView {
        let moved = moved_amount(self.amount, self.capacity, port, quota);
        TrainView { amount: amount_after(self.amount, port, moved) as u64, ..self }
    }
}

impl Train {
    /// The kind of port that the train looks for next.
    pub fn looks_for(&self) -> (ty: IoType)
        requires
            self.amount <= self.capacity,
        ensures
            ty == self@.looks_for(),
    {
        if self.amount > self.capacity - self.amount {
            IoType::Input
        } else {
            IoType::Output
        }
    }

    /// Offers the train `route` to the port `target`. The train takes the
    /// target only together with a route; without one it stays as it is.
    pub fn head_for(&mut self, target: IoId, route: Option<Vec<Id>>)
        ensures
            final(self)@ == old(self)@.headed_for(
                target,
                match route {
                    Some(path) => Some(path@),
                    None => None,
                },
            ),
    {
        if route.is_some() {
            self.path = route;
            self.target = Some(target);
        }
    }

    /// Checks whether the graph has every node of `nodes`.
    fn check_all_on(tracks: &Tracks, nodes: &VecDeque<Id>) -> (ok: bool)
        ensures
            ok == all_on(tracks, nodes@),
    {
        let mut i: usize = 0;
        while i < nodes.len()
            invariant
                i <= nodes.len(),
                forall|a: int| 0 <= a < i ==> tracks.contains(#[trigger] nodes@[a]),
            decreases nodes.len() - i,
        {
            if tracks.find(nodes[i]).is_none() {
                return false;
            }
            i += 1;
        }
        true
    }

    /// Checks whether `path` is a walk that leads on from the node `from`.
    fn check_walk(tracks: &Tracks, from: Id, path: &Vec<Id>) -> (ok: bool)
        requires
            tracks.wf(),
        ensures
            ok == tracks.is_walk(from, path@),
    {
        let mut before = from;
        let mut i: usize = 0;
        while i < path.len()
            invariant
                i <= path.len(),
                tracks.wf(),
                before == Tracks::before(from, path@, i as int),
                forall|a: int| 0 <= a < i ==> #[trigger] tracks.linked(from, path@, a),
            decreases path.len() - i,
        {
            if !tracks.is_connected(before, path[i]) {
                assert(!tracks.linked(from, path@, i as int));
                return false;
            }
            before = path[i];
            i += 1;
        }
        true
    }

    /// Checks the invariant of the train on the graph `tracks`.
    pub fn is_wf(&self, tracks: &Tracks) -> (ok: bool)
        requires
            tracks.wf(),
        ensures
            ok == self@.wf(tracks),
    {
        if self.amount > self.capacity {
            return false;
        }
        if tracks.find(self.head.from).is_none() || tracks.find(self.head.to).is_none() {
            return false;
        }
        if self.head.from != self.head.to && !tracks.is_connected(self.head.from, self.head.to) {
            return false;
        }
        if self.head.progress > tracks.segment_length(self.head.from, self.head.to) {
            return false;
        }
        if !Self::check_all_on(tracks, &self.tail_nodes) {
            return false;
        }
        match &self.path {
            Some(path) => Self::check_walk(tracks, self.head.to, path),
            None => true,
        }
    }

    /// Whether the train is bound for the node `node`.
    pub fn is_bound_for(&self, tracks: &Tracks, node: Id) -> (ok: bool)
        requires
            tracks.wf(),
            self@.wf(tracks),
        ensures
            ok == self@.bound_for(tracks, node),
    {
        match &self.path {
            Some(path) => {
                if path.len() == 0 {
                    self.head.to == node
                } else {
                    path[path.len() - 1] == node
                }
            },
            None => self.head.to == node && self.head.progress == tracks.segment_length(
                self.head.from,
                self.head.to,
            ),
        }
    }

    /// Cancels the train's journey: the path and the target are cleared at
    /// once, and everything else stays as it is.
    pub fn cancel(&mut self)
        ensures
            final(self)@ == (TrainView { path: None, target: None, ..old(self)@ }),
    {
        self.path = None;
        self.target = None;
    }

    /// The place in the tail of the last node that the body keeps, and how
    /// far behind the head that node lies.
    fn reach(&self, tracks: &Tracks) -> (reach: (usize, u128))
        requires
            tracks.wf(),
            all_on(tracks, self.tail_nodes@),
            self.tail_nodes@.len() > 0,
        ensures
            reach.0 + 1 == kept(
                tracks,
                self.tail_nodes@,
                self.head.progress as nat,
                self.length as nat,
            ),
            reach.0 < self.tail_nodes@.len(),
            reach.1 == behind(tracks, self.tail_nodes@, self.head.progress as nat, reach.0 as nat),
    {
        let ghost tail = self.tail_nodes@;
        let ghost total = kept(tracks, tail, self.head.progress as nat, self.length as nat);
        let mut covered: u128 = self.head.progress as u128;
        let mut i: usize = 0;
        assert(tail.skip(0) =~= tail);
        while covered <= self.length as u128 && self.tail_nodes.len() - i > 1
            invariant
                tracks.wf(),
                all_on(tracks, tail),
                self.tail_nodes@ == tail,
                i < tail.len(),
                covered <= u64::MAX + i * 0x2_0000_0000,
                covered == behind(tracks, tail, self.head.progress as nat, i as nat),
                total == i + kept(tracks, tail.skip(i as int), covered as nat, self.length as nat),
            decreases tail.len() - i,
        {
            let ghost rest = tail.skip(i as int);
            assert(rest[0] == tail[i as int] && rest[1] == tail[i + 1]);
            assert(rest.drop_first() =~= tail.skip(i + 1));
            let a = self.tail_nodes[i];
            let b = self.tail_nodes[i + 1];
            assert(tracks.contains(tail[i as int]) && tracks.contains(tail[i + 1]));
            covered = covered + tracks.segment_length(a, b) as u128;
            i += 1;
        }
        (i, covered)
    }

    /// Cuts the tail to the length of the body.
    pub fn shorten_tail(&mut self, tracks: &Tracks)
        requires
            tracks.wf(),
            all_on(tracks, old(self).tail_nodes@),
        ensures
            final(self)@ == (TrainView {
                tail_nodes: old(self).tail_nodes@.take(
                    kept(
                        tracks,
                        old(self).tail_nodes@,
                        old(self).head.progress as nat,
                        old(self).length as nat,
                    ) as int,
                ),
                ..old(self)@
            }),
            final(self).tail_nodes@.len() <= old(self).tail_nodes@.len(),
            forall|j: nat|
                j + 1 < final(self).tail_nodes@.len() ==> #[trigger] behind(
                    tracks,
                    old(self).tail_nodes@,
                    old(self).head.progress as nat,
                    j,
                ) <= old(self).length,
            0 < final(self).tail_nodes@.len() < old(self).tail_nodes@.len() ==> behind(
                tracks,
                old(self).tail_nodes@,
                old(self).head.progress as nat,
                (final(self).tail_nodes@.len() - 1) as nat,
            ) > old(self).length,
    {
        if self.tail_nodes.len() > 0 {
            proof {
                lemma_kept_reaches(
                    tracks,
                    self.tail_nodes@,
                    self.head.progress as nat,
                    self.length as nat,
                );
            }
            let (last, _) = self.reach(tracks);
            self.tail_nodes.truncate(last + 1);
        } else {
            assert(self.tail_nodes@.take(0) =~= self.tail_nodes@);
        }
    }

    /// The end of the body, or nothing where the train has no tail.
    pub fn body_end(&self, tracks: &Tracks) -> (end: Option<BodyEnd>)
        requires
            tracks.wf(),
            self@.wf(tracks),
        ensures
            end == self@.body_end(tracks),
            end matches Some(end) ==> {
                &&& end.reach < self.tail_nodes@.len()
                &&& tracks.contains(end.point.from)
                &&& tracks.contains(end.point.to)
                &&& end.point.progress <= tracks.length(end.point.from, end.point.to)
            },
    {
        if self.tail_nodes.len() == 0 {
            return None;
        }
        let (last, covered) = self.reach(tracks);
        let from = self.tail_nodes[last];
        let to = if last == 0 {
            self.head.to
        } else {
            self.tail_nodes[last - 1]
        };
        assert(tracks.contains(self.tail_nodes@[last as int]));
        assert(last > 0 ==> tracks.contains(self.tail_nodes@[last - 1]));
        let len = tracks.segment_length(from, to);
        let progress: u64 = if covered <= self.length as u128 {
            0
        } else if covered - self.length as u128 >= len as u128 {
            len
        } else {
            (covered - self.length as u128) as u64
        };
        Some(BodyEnd { reach: last, point: TrackPoint { from, to, progress } })
    }

    /// Moves the train `distance` along its path.
    ///
    /// The head passes every node that it reaches and goes on with the
    /// distance that is left. Each node passed goes to the front of the tail,
    /// which is then cut to the length of the body. At the end of the path
    /// the head stops on the last node and the path is cleared.
    pub fn advance(&mut self, tracks: &Tracks, distance: u64)
        requires
            tracks.wf(),
            old(self)@.wf(tracks),
        ensures
            final(self)@ == old(self)@.advanced(tracks, distance),
            final(self)@.wf(tracks),
    {
        let ghost start = self@;
        let taken = self.path.take();
        let mut path = match taken {
            Some(path) => path,
            None => {
                return ;
            },
        };
        let ghost route = path@;
        let ghost mut passed: Seq<Id> = Seq::empty();
        let mut left: u64 = distance;
        let mut hopped: bool = false;
        let mut moving: bool = true;
        assert(passed + start.tail_nodes =~= start.tail_nodes);
        while moving
            invariant
                tracks.wf(),
                start.wf(tracks),
                start.path == Some(route),
                moving ==> tracks.is_walk(self.head.to, path@),
                all_on(tracks, self.tail_nodes@),
                tracks.contains(self.head.from),
                tracks.contains(self.head.to),
                self.head.from == self.head.to || tracks.connected(self.head.from, self.head.to),
                self.head.progress <= tracks.length(self.head.from, self.head.to),
                self.tail_nodes@ == passed + start.tail_nodes,
                hopped == (passed.len() > 0),
                self.id == start.id,
                self.resource == start.resource,
                self.amount == start.amount,
                self.capacity == start.capacity,
                self.length == start.length,
                self.target == start.target,
                moving ==> self.path is None,
                moving ==> run(tracks, start.head, route, Seq::empty(), distance as nat) == run(
                    tracks,
                    self.head,
                    path@,
                    passed,
                    left as nat,
                ),
                !moving ==> run(tracks, start.head, route, Seq::empty(), distance as nat) == (Run {
                    head: self.head,
                    path: self@.path,
                    passed,
                }),
                !moving ==> (self@.path matches Some(rest) ==> tracks.is_walk(self.head.to, rest)),
            decreases (if moving { 1int } else { 0int }), path.len(),
        {
            let len = tracks.segment_length(self.head.from, self.head.to);
            let ahead = len - self.head.progress;
            if left < ahead {
                self.head.progress = self.head.progress + left;
                self.path = Some(path);
                moving = false;
                path = Vec::new();
            } else if path.len() > 0 {
                left = left - ahead;
                let ghost before = path@;
                proof {
                    tracks.lemma_walk_rest(self.head.to, before);
                }
                let next = path.remove(0);
                assert(path@ =~= before.drop_first());
                let ghost tail_before = self.tail_nodes@;
                self.tail_nodes.push_front(self.head.to);
                proof {
                    assert(self.tail_nodes@ =~= (seq![self.head.to] + passed) + start.tail_nodes);
                    assert forall|i: int| 0 <= i < self.tail_nodes@.len() implies tracks.contains(
                        #[trigger] self.tail_nodes@[i],
                    ) by {
                        if i > 0 {
                            assert(self.tail_nodes@[i] == tail_before[i - 1]);
                        }
                    }
                    passed = seq![self.head.to] + passed;
                }
                self.head = TrackPoint { from: self.head.to, to: next, progress: 0 };
                hopped = true;
            } else {
                self.head.progress = len;
                moving = false;
            }
        }
        if hopped {
            let ghost tail = self.tail_nodes@;
            self.shorten_tail(tracks);
            proof {
                lemma_kept_bound(tracks, tail, self.head.progress as nat, self.length as nat);
            }
            assert forall|i: int| 0 <= i < self.tail_nodes@.len() implies tracks.contains(
                #[trigger] self.tail_nodes@[i],
            ) by {
                assert(self.tail_nodes@[i] == tail[i]);
            }
        }
    }

    /// Moves cargo between the train and `port` for one tick of length `dt`,
    /// and says whether the visit is finished.
    ///
    /// At most `load_speed * dt` units move. The train unloads into an input
    /// and loads from an output; what leaves one side arrives on the other.
    pub fn transfer(&mut self, port: &mut FactoryIo, load_speed: u64, dt: u64) -> (done: bool)
        requires
            old(self).amount <= old(self).capacity,
        ensures
            final(self)@ == old(self)@.transferred(*old(port), load_speed as nat * dt as nat),
            *final(port) == port_after_transfer(
                *old(port),
                moved_amount(
                    old(self).amount,
                    old(self).capacity,
                    *old(port),
                    load_speed as nat * dt as nat,
                ),
            ),
            done == transfer_done(final(self).amount as int, old(self).capacity, *old(port)),
            final(self).amount <= final(self).capacity,
            old(port).amount is Some ==> final(port).amount is Some && old(self).amount + old(
                port,
            ).amount->0 == final(self).amount + final(port).amount->0,
    {
        proof {
            if port.amount is Some {
                lemma_transfer_conserves(
                    self.amount,
                    self.capacity,
                    *port,
                    load_speed as nat * dt as nat,
                );
            }
        }
        assert(load_speed * dt <= u64::MAX * u64::MAX) by (nonlinear_arith)
            requires
                load_speed <= u64::MAX,
                dt <= u64::MAX,
        ;
        let quota: u128 = load_speed as u128 * dt as u128;
        match port.ty {
            IoType::Input => {
                let mut moved: u64 = if quota < self.amount as u128 {
                    quota as u64
                } else {
                    self.amount
                };
                if let Some(buffered) = port.amount {
                    if moved > u64::MAX - buffered {
                        moved = u64::MAX - buffered;
                    }
                    port.amount = Some(buffered + moved);
                }
                self.amount = self.amount - moved;
                self.amount == 0
            },
            IoType::Output => {
                let room = self.capacity - self.amount;
                let mut moved: u64 = if quota < room as u128 {
                    quota as u64
                } else {
                    room
                };
                if let Some(buffered) = port.amount {
                    if moved > buffered {
                        moved = buffered;
                    }
                    port.amount = Some(buffered - moved);
                }
                self.amount = self.amount + moved;
                self.amount == self.capacity
            },
        }
    }
}

} // verus!
