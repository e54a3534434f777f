//! The world: every entity of the simulation, and what holds of them together.

use crate::factory::{Factory, FactoryIo, FactoryIoConfig, FactoryTypes};
use crate::geometry::Point;
use crate::ids::{Id, IdGen};
use crate::resources::{carried, ids_below, lemma_grown, names, place_of, Resource, Resources};
use crate::tracks::Tracks;
use crate::train::{IoId, Train, TrainView};
use vstd::prelude::*;

verus! {

/// The scalars that tune the trains.
#[derive(Debug, Copy, Clone, PartialEq, Eq, Structural)]
pub struct Config {
    /// Distance that a train covers per unit of time.
    pub train_speed: u64,
    /// Cargo that a train loads or unloads per unit of time.
    pub train_load_speed: u64,
    /// The length of a train's body.
    pub train_length: u64,
    /// The most cargo that a train carries.
    pub train_capacity: u64,
}

/// A factory, with its ports as a sequence.
pub struct FactoryView {
    pub id: Id,
    pub ty: usize,
    pub pos: Point,
    pub io: Seq<FactoryIo>,
}

impl View for Factory {
    type V = FactoryView;

    open spec fn view(&self) -> FactoryView {
        FactoryView { id: self.id, ty: self.ty, pos: self.pos, io: self.io@ }
    }
}

/// The world of the simulation.
#[derive(Debug, Clone, PartialEq, Eq)]
pub struct World {
    pub id_gen: IdGen,
    pub config: Config,
    pub factory_types: FactoryTypes,
    pub tracks: Tracks,
    pub trains: Vec<Train>,
    pub resources: Resources,
    pub factories: Vec<Factory>,
}

/// Whether `io` names a port of one of `factories`.
pub open spec fn is_port(factories: Seq<FactoryView>, io: IoId) -> bool {
    exists|k: int|
        0 <= k < factories.len() && (#[trigger] factories[k]).id == io.factory && io.io
            < factories[k].io.len()
}

/// The place in `factories` of the factory `id`.
pub open spec fn factory_place(factories: Seq<FactoryView>, id: Id) -> int {
    choose|k: int| 0 <= k < factories.len() && (#[trigger] factories[k]).id == id
}

/// The port that `io` names.
pub open spec fn port_at(factories: Seq<FactoryView>, io: IoId) -> FactoryIo {
    factories[factory_place(factories, io.factory)].io[io.io as int]
}

/// Whether identifiers grow along the list of factories.
pub open spec fn ascending(factories: Seq<FactoryView>) -> bool {
    forall|i: int, j: int|
        0 <= i < j < factories.len() ==> (#[trigger] factories[i]).id.0 < (
        #[trigger] factories[j]).id.0
}

/// The invariant of the factories: identifiers grow along the list and lie
/// below `bound`, and every port has its node on the graph.
pub open spec fn factories_wf(factories: Seq<FactoryView>, tracks: &Tracks, bound: u64) -> bool {
    &&& ascending(factories)
    &&& forall|i: int| 0 <= i < factories.len() ==> (#[trigger] factories[i]).id.0 < bound
    &&& forall|i: int, j: int|
        0 <= i < factories.len() && 0 <= j < factories[i].io.len() ==> tracks.contains(
            #[trigger] factories[i].io[j].node,
        )
}

/// Whether a port is what its entry in the catalogue says: it has the
/// entry's direction, it holds a buffer exactly if the entry gives a rate,
/// and its resource is the one that the registry has under the entry's name.
pub open spec fn port_fits(port: FactoryIo, config: FactoryIoConfig, resources: Seq<Resource>) -> bool {
    &&& port.ty == config.ty
    &&& port.amount is Some <==> config.rate is Some
    &&& names(resources, config.resource@)
    &&& port.resource == resources[place_of(resources, config.resource@)].id
}

/// Whether a factory is what its type says: it has one port for each port of
/// the type, in the same order, and each port fits its entry.
pub open spec fn factory_fits(
    factory: FactoryView,
    types: &FactoryTypes,
    resources: Seq<Resource>,
) -> bool {
    &&& factory.ty < types.factory.len()
    &&& factory.io.len() == types.factory[factory.ty as int].io.len()
    &&& forall|j: int|
        0 <= j < factory.io.len() ==> port_fits(
            #[trigger] factory.io[j],
            types.factory[factory.ty as int].io[j],
            resources,
        )
}

/// Whether every factory is what its type says.
pub open spec fn factories_fit(
    factories: Seq<FactoryView>,
    types: &FactoryTypes,
    resources: Seq<Resource>,
) -> bool {
    forall|i: int| 0 <= i < factories.len() ==> factory_fits(#[trigger] factories[i], types, resources)
}

/// Whether every train carries a resource of the registry.
pub open spec fn trains_carry(trains: Seq<TrainView>, resources: Seq<Resource>) -> bool {
    forall|i: int| 0 <= i < trains.len() ==> carried(resources, (#[trigger] trains[i]).resource)
}

/// Factories and trains that fit a registry fit it still when it has grown.
pub proof fn lemma_fit_grown(
    factories: Seq<FactoryView>,
    trains: Seq<TrainView>,
    types: &FactoryTypes,
    before: Seq<Resource>,
    after: Seq<Resource>,
)
    requires
        factories_fit(factories, types, before),
        trains_carry(trains, before),
        crate::resources::distinct(after),
        before.is_prefix_of(after),
    ensures
        factories_fit(factories, types, after),
        trains_carry(trains, after),
{
    lemma_grown(before, after);
    assert forall|i: int| 0 <= i < factories.len() implies factory_fits(
        #[trigger] factories[i],
        types,
        after,
    ) by {
        let factory = factories[i];
        assert(factory_fits(factory, types, before));
        assert forall|j: int| 0 <= j < factory.io.len() implies port_fits(
            #[trigger] factory.io[j],
            types.factory[factory.ty as int].io[j],
            after,
        ) by {
            assert(port_fits(factory.io[j], types.factory[factory.ty as int].io[j], before));
        }
    }
    assert forall|i: int| 0 <= i < trains.len() implies carried(
        after,
        (#[trigger] trains[i]).resource,
    ) by {
        assert(carried(before, trains[i].resource));
    }
}

/// Whether a train fits the world: it is well-formed on the graph, has its
/// identifier below `bound`, and its target is a port that exists and that
/// the train is bound for, or stands at once it has arrived.
pub open spec fn train_wf(
    train: TrainView,
    factories: Seq<FactoryView>,
    tracks: &Tracks,
    bound: u64,
) -> bool {
    &&& train.wf(tracks)
    &&& train.id.0 < bound
    &&& train.target matches Some(io) ==> is_port(factories, io) && train.bound_for(
        tracks,
        port_at(factories, io).node,
    )
}

/// The invariant of the trains: each fits the world, and identifiers grow
/// along the list.
pub open spec fn trains_wf(
    trains: Seq<TrainView>,
    factories: Seq<FactoryView>,
    tracks: &Tracks,
    bound: u64,
) -> bool {
    &&& forall|i: int|
        0 <= i < trains.len() ==> train_wf(#[trigger] trains[i], factories, tracks, bound)
    &&& forall|i: int, j: int|
        0 <= i < j < trains.len() ==> (#[trigger] trains[i]).id.0 < (#[trigger] trains[j]).id.0
}

/// Among factories whose identifiers grow along the list, a factory is found
/// at one place only.
pub proof fn lemma_factory_place(factories: Seq<FactoryView>, k: int)
    requires
        ascending(factories),
        0 <= k < factories.len(),
    ensures
        factory_place(factories, factories[k].id) == k,
{
    let found = factory_place(factories, factories[k].id);
    if found < k {
        assert(factories[found].id.0 < factories[k].id.0);
    } else if k < found {
        assert(factories[k].id.0 < factories[found].id.0);
    }
}

/// Factories and trains that are well-formed on a graph stay so when the
/// graph grows and the allocator moves on.
pub proof fn lemma_on_extended(
    factories: Seq<FactoryView>,
    trains: Seq<TrainView>,
    before: &Tracks,
    after: &Tracks,
    bound: u64,
    later: u64,
)
    requires
        factories_wf(factories, before, bound),
        trains_wf(trains, factories, before, bound),
        before.wf(),
        after.wf(),
        after.extends(before),
        bound <= later,
    ensures
        factories_wf(factories, after, later),
        trains_wf(trains, factories, after, later),
{
    assert forall|i: int, j: int|
        0 <= i < factories.len() && 0 <= j < factories[i].io.len() implies after.contains(
        #[trigger] factories[i].io[j].node,
    ) by {
        after.lemma_extends(before, factories[i].io[j].node);
    }
    assert forall|i: int| 0 <= i < trains.len() implies train_wf(
        #[trigger] trains[i],
        factories,
        after,
        later,
    ) by {
        assert(train_wf(trains[i], factories, before, bound));
        trains[i].lemma_wf_on_extended(before, after);
    }
}

impl World {
    /// The factories, with their ports as sequences.
    pub open spec fn factories_view(&self) -> Seq<FactoryView> {
        self.factories@.map_values(|factory: Factory| factory@)
    }

    /// The trains, with their lists as sequences.
    pub open spec fn trains_view(&self) -> Seq<TrainView> {
        self.trains@.map_values(|train: Train| train@)
    }

    /// The invariant of the world: every part is well-formed, every
    /// identifier in use was issued by the allocator, and every entity that
    /// names another names one that exists.
    pub open spec fn wf(&self) -> bool {
        &&& self.tracks.wf()
        &&& self.tracks.below(self.id_gen.next)
        &&& self.resources.wf()
        &&& ids_below(self.resources.items@, self.id_gen.next)
        &&& factories_wf(self.factories_view(), &self.tracks, self.id_gen.next)
        &&& trains_wf(
            self.trains_view(),
            self.factories_view(),
            &self.tracks,
            self.id_gen.next,
        )
        &&& factories_fit(self.factories_view(), &self.factory_types, self.resources.items@)
        &&& trains_carry(self.trains_view(), self.resources.items@)
    }

    /// Whether this world differs from `before` in its factories and trains
    /// at most.
    pub open spec fn keeps_ground(&self, before: &World) -> bool {
        &&& self.id_gen == before.id_gen
        &&& self.config == before.config
        &&& self.factory_types == before.factory_types
        &&& self.tracks == before.tracks
        &&& self.resources == before.resources
    }

    /// Whether this world and `other` are in the same state.
    pub open spec fn same_state(&self, other: &World) -> bool {
        &&& self.keeps_ground(other)
        &&& self.factories_view() == other.factories_view()
        &&& self.trains_view() == other.trains_view()
    }

    /// At the end of every operation each train carries no more than its
    /// capacity.
    pub proof fn lemma_cargo_fits(&self, train: int)
        requires
            self.wf(),
            0 <= train < self.trains@.len(),
        ensures
            0 <= self.trains@[train].amount <= self.trains@[train].capacity,
    {
        assert(self.trains_view()[train].wf(&self.tracks));
    }

    /// A world without entities.
    pub fn new(config: Config, factory_types: FactoryTypes) -> (world: Self)
        ensures
            world.wf(),
            world.config == config,
            world.factory_types == factory_types,
            world.id_gen.next == 0,
            world.tracks.nodes@.len() == 0,
            world.trains@.len() == 0,
            world.resources.items@.len() == 0,
            world.factories@.len() == 0,
    {
        World {
            id_gen: IdGen::new(),
            config,
            factory_types,
            tracks: Tracks::new(),
            trains: Vec::new(),
            resources: Resources::new(),
            factories: Vec::new(),
        }
    }

    /// The place of the factory `id` in the list of factories, if there is
    /// one.
    pub fn find_factory(&self, id: Id) -> (found: Option<usize>)
        ensures
            found matches Some(k) ==> k < self.factories.len() && self.factories[k as int].id == id,
            found is None ==> forall|k: int|
                0 <= k < self.factories.len() ==> (#[trigger] self.factories[k]).id != id,
    {
        let mut k: usize = 0;
        while k < self.factories.len()
            invariant
                k <= self.factories.len(),
                forall|j: int| 0 <= j < k ==> (#[trigger] self.factories[j]).id != id,
            decreases self.factories.len() - k,
        {
            if self.factories[k].id == id {
                return Some(k);
            }
            k += 1;
        }
        None
    }

    /// Adds a track node at `pos`, connected to nothing, and returns its
    /// identifier.
    pub fn create_node(&mut self, pos: Point) -> (id: Id)
        requires
            old(self).wf(),
            old(self).id_gen.next < u64::MAX,
        ensures
            final(self).wf(),
            id.0 == old(self).id_gen.next,
            final(self).id_gen.next == old(self).id_gen.next + 1,
            final(self).tracks.extends(&old(self).tracks),
            final(self).tracks.nodes@.len() == old(self).tracks.nodes@.len() + 1,
            forall|i: int|
                0 <= i < old(self).tracks.nodes@.len() ==> final(self).tracks.nodes@[i] == old(
                    self,
                ).tracks.nodes@[i],
            !old(self).tracks.contains(id),
            final(self).tracks.contains(id),
            final(self).tracks.position(id) == pos,
            final(self).tracks.neighbours(id) == Seq::<Id>::empty(),
            forall|a: Id, b: Id|
                final(self).tracks.connected(a, b) <==> old(self).tracks.connected(a, b),
            final(self).config == old(self).config,
            final(self).factory_types == old(self).factory_types,
            final(self).resources == old(self).resources,
            final(self).factories == old(self).factories,
            final(self).trains == old(self).trains,
    {
        let id = self.tracks.add_node(&mut self.id_gen, pos);
        proof {
            lemma_on_extended(
                self.factories_view(),
                self.trains_view(),
                &old(self).tracks,
                &self.tracks,
                old(self).id_gen.next,
                self.id_gen.next,
            );
        }
        id
    }

    /// Connects the track nodes `a` and `b` in both directions. Connecting
    /// two nodes that are connected already changes nothing.
    pub fn connect_nodes(&mut self, a: Id, b: Id)
        requires
            old(self).wf(),
            old(self).tracks.contains(a),
            old(self).tracks.contains(b),
            a != b,
        ensures
            final(self).wf(),
            final(self).tracks.extends(&old(self).tracks),
            final(self).tracks.nodes@.len() == old(self).tracks.nodes@.len(),
            forall|x: Id| final(self).tracks.contains(x) <==> old(self).tracks.contains(x),
            forall|x: Id|
                old(self).tracks.contains(x) ==> final(self).tracks.position(x) == old(
                    self,
                ).tracks.position(x),
            final(self).tracks.neighbours(a) == Tracks::joined(old(self).tracks.neighbours(a), b),
            final(self).tracks.neighbours(b) == Tracks::joined(old(self).tracks.neighbours(b), a),
            forall|x: Id|
                old(self).tracks.contains(x) && x != a && x != b ==> final(self).tracks.neighbours(
                    x,
                ) == old(self).tracks.neighbours(x),
            forall|x: Id, y: Id|
                final(self).tracks.connected(x, y) <==> old(self).tracks.connected(x, y) || (x == a
                    && y == b) || (x == b && y == a),
            final(self).id_gen == old(self).id_gen,
            final(self).config == old(self).config,
            final(self).factory_types == old(self).factory_types,
            final(self).resources == old(self).resources,
            final(self).factories == old(self).factories,
            final(self).trains == old(self).trains,
    {
        self.tracks.add_connection(a, b);
        proof {
            lemma_on_extended(
                self.factories_view(),
                self.trains_view(),
                &old(self).tracks,
                &self.tracks,
                self.id_gen.next,
                self.id_gen.next,
            );
        }
    }
}

} // verus!
