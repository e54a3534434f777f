//! Laying track by hand: a piece of track runs from where a press began to
//! where the pointer is released.

use crate::geometry::Point;
use crate::ids::Id;
use crate::tracks::Tracks;
use crate::world::World;
use vstd::prelude::*;

verus! {

/// Where the piece of track under construction starts.
#[derive(Debug, Copy, Clone, PartialEq, Eq, Structural)]
pub enum Drawing {
    /// On open ground, where a node is yet to be made.
    FromScratch { start: Point },
    /// On a node of the graph.
    FromNode { id: Id },
}

/// What the pointer is over.
#[derive(Debug, Copy, Clone, PartialEq, Eq, Structural)]
pub enum Hover {
    /// Open ground at `pos`.
    Nothing { pos: Point },
    /// A node of the graph.
    TrackNode { id: Id },
}

impl Drawing {
    /// The start of a piece of track at what the pointer is over.
    pub fn begin(hover: Hover) -> (drawing: Drawing)
        ensures
            drawing == match hover {
                Hover::Nothing { pos } => Drawing::FromScratch { start: pos },
                Hover::TrackNode { id } => Drawing::FromNode { id },
            },
    {
        match hover {
            Hover::Nothing { pos } => Drawing::FromScratch { start: pos },
            Hover::TrackNode { id } => Drawing::FromNode { id },
        }
    }
}

impl World {
    /// How many nodes a piece of track from `drawing` to `hover` adds to the
    /// graph: one for each end on open ground.
    pub open spec fn nodes_to_lay(drawing: Drawing, hover: Hover) -> nat {
        let at_start: nat = if drawing is FromScratch {
            1
        } else {
            0
        };
        let at_end: nat = if hover is Nothing {
            1
        } else {
            0
        };
        at_start + at_end
    }

    /// The node at which a piece of track from `drawing` starts, where
    /// `next` is the next identifier that the allocator issues.
    pub open spec fn start_of(drawing: Drawing, next: u64) -> Id {
        match drawing {
            Drawing::FromScratch { .. } => Id(next),
            Drawing::FromNode { id } => id,
        }
    }

    /// The node at which a piece of track from `drawing` to `hover` ends,
    /// where `next` is the next identifier that the allocator issues.
    pub open spec fn end_of(drawing: Drawing, hover: Hover, next: u64) -> Id {
        match hover {
            Hover::Nothing { .. } => if drawing is FromScratch {
                Id((next + 1) as u64)
            } else {
                Id(next)
            },
            Hover::TrackNode { id } => id,
        }
    }

    /// The neighbours of node `id` before a piece of track is laid: none
    /// where the node is yet to be made.
    pub open spec fn neighbours_so_far(&self, id: Id) -> Seq<Id> {
        if self.tracks.contains(id) {
            self.tracks.neighbours(id)
        } else {
            Seq::empty()
        }
    }

    /// Lays a piece of track from `drawing` to `hover`, and returns the
    /// start of the next piece: the node where this one ends.
    ///
    /// An end on open ground becomes a new node, first the start and then
    /// the end. The two ends are then connected, unless they are one and the
    /// same node.
    pub fn lay_track(&mut self, drawing: Drawing, hover: Hover) -> (next: Drawing)
        requires
            old(self).wf(),
            drawing matches Drawing::FromNode { id } ==> old(self).tracks.contains(id),
            hover matches Hover::TrackNode { id } ==> old(self).tracks.contains(id),
            old(self).id_gen.next + Self::nodes_to_lay(drawing, hover) < u64::MAX,
        ensures
            final(self).wf(),
            next == (Drawing::FromNode {
                id: Self::end_of(drawing, hover, old(self).id_gen.next),
            }),
            final(self).id_gen.next == old(self).id_gen.next + Self::nodes_to_lay(drawing, hover),
            final(self).tracks.extends(&old(self).tracks),
            final(self).tracks.nodes@.len() == old(self).tracks.nodes@.len() + Self::nodes_to_lay(
                drawing,
                hover,
            ),
            final(self).tracks.contains(Self::start_of(drawing, old(self).id_gen.next)),
            final(self).tracks.contains(Self::end_of(drawing, hover, old(self).id_gen.next)),
            drawing matches Drawing::FromScratch { start } ==> final(self).tracks.position(
                Self::start_of(drawing, old(self).id_gen.next),
            ) == start,
            hover matches Hover::Nothing { pos } ==> final(self).tracks.position(
                Self::end_of(drawing, hover, old(self).id_gen.next),
            ) == pos,
            forall|x: Id, y: Id|
                final(self).tracks.connected(x, y) <==> old(self).tracks.connected(x, y) || ({
                    let a = Self::start_of(drawing, old(self).id_gen.next);
                    let b = Self::end_of(drawing, hover, old(self).id_gen.next);
                    a != b && ((x == a && y == b) || (x == b && y == a))
                }),
            ({
                let a = Self::start_of(drawing, old(self).id_gen.next);
                let b = Self::end_of(drawing, hover, old(self).id_gen.next);
                &&& a == b ==> final(self).tracks == old(self).tracks
                &&& a != b ==> final(self).tracks.neighbours(a) == Tracks::joined(
                    old(self).neighbours_so_far(a),
                    b,
                )
                &&& a != b ==> final(self).tracks.neighbours(b) == Tracks::joined(
                    old(self).neighbours_so_far(b),
                    a,
                )
                &&& forall|x: Id|
                    old(self).tracks.contains(x) && x != a && x != b ==> old(
                        self,
                    ).tracks.neighbours(x) == final(self).tracks.neighbours(x)
            }),
            final(self).config == old(self).config,
            final(self).factory_types == old(self).factory_types,
            final(self).resources == old(self).resources,
            final(self).factories == old(self).factories,
            final(self).trains == old(self).trains,
    {
        let start = match drawing {
            Drawing::FromScratch { start } => self.create_node(start),
            Drawing::FromNode { id } => id,
        };
        let ghost middle = *self;
        proof {
            if let Hover::TrackNode { id } = hover {
                self.tracks.lemma_extends(&old(self).tracks, id);
            }
            if let Drawing::FromNode { id } = drawing {
                self.tracks.lemma_extends(&old(self).tracks, id);
            }
        }
        let end = match hover {
            Hover::Nothing { pos } => self.create_node(pos),
            Hover::TrackNode { id } => id,
        };
        let ghost laid = *self;
        proof {
            self.tracks.lemma_extends(&middle.tracks, start);
        }
        if start != end {
            self.connect_nodes(start, end);
        }
        proof {
            assert forall|i: int| 0 <= i < old(self).tracks.nodes@.len() implies {
                &&& (#[trigger] self.tracks.nodes[i]).id == old(self).tracks.nodes[i].id
                &&& self.tracks.nodes[i].pos == old(self).tracks.nodes[i].pos
                &&& old(self).tracks.nodes[i].connections@.is_prefix_of(
                    self.tracks.nodes[i].connections@,
                )
            } by {
                assert(middle.tracks.nodes[i] == old(self).tracks.nodes[i]);
                assert(laid.tracks.nodes[i] == middle.tracks.nodes[i]);
                assert(self.tracks.nodes[i].id == laid.tracks.nodes[i].id);
            }
        }
        Drawing::FromNode { id: end }
    }
}

} // verus!
