//! Spawning factories and trains.

use crate::chance::draw;
use crate::factory::{Factory, FactoryIo, FactoryIoConfig};
use crate::geometry::Point;
use crate::ids::{Id, IdGen};
use crate::resources::{ids_below, interned, lemma_grown, lemma_interned, Resource};
use crate::tracks::TrackPoint;
use crate::train::{IoId, Train, TrainView};
use crate::world::{
    factories_fit, factories_wf, factory_place, is_port, lemma_fit_grown, lemma_on_extended,
    port_fits, trains_carry, trains_wf, Config, FactoryView, World,
};
use std::collections::VecDeque;
use vstd::prelude::*;

verus! {

/// The train that a spawn puts on the node `node`: empty, at rest, with
/// nothing behind it and no target.
pub open spec fn new_train(id: Id, resource: Id, node: Id, config: Config) -> TrainView {
    TrainView {
        id,
        resource,
        amount: 0,
        capacity: config.train_capacity,
        length: config.train_length,
        head: TrackPoint { from: node, to: node, progress: 0 },
        tail_nodes: Seq::empty(),
        path: None,
        target: None,
    }
}

/// The allocator, the registry and the ports of a factory after some of its
/// ports were wired.
pub struct Wired {
    /// The next identifier that the allocator issues.
    pub next: u64,
    pub resources: Seq<Resource>,
    pub io: Seq<FactoryIo>,
}

/// Wires the first `n` ports of a factory, in the order of `configs`.
///
/// Each port gets a new track node at its place in `positions`, then the
/// identifier of its resource, which is new if the name is. A port with a
/// rate starts with an empty buffer, a port without a rate has none.
pub open spec fn wired(
    configs: Seq<FactoryIoConfig>,
    positions: Seq<Point>,
    next: u64,
    resources: Seq<Resource>,
    n: nat,
) -> Wired
    decreases n,
{
    if n == 0 {
        Wired { next, resources, io: Seq::empty() }
    } else {
        let before = wired(configs, positions, next, resources, (n - 1) as nat);
        let config = configs[n - 1];
        let named = interned(before.resources, (before.next + 1) as u64, config.resource);
        Wired {
            next: named.next,
            resources: named.items,
            io: before.io.push(
                FactoryIo {
                    ty: config.ty,
                    node: Id(before.next),
                    resource: named.id,
                    amount: if config.rate is Some {
                        Some(0u64)
                    } else {
                        None
                    },
                    pos: positions[n - 1],
                },
            ),
        }
    }
}

impl World {
    /// Whether a factory of the type at `index` can be spawned with its
    /// ports at `positions`: the catalogue has the type, and there is one
    /// position for each of its ports.
    pub open spec fn can_spawn(&self, positions: Seq<Point>, index: usize) -> bool {
        index < self.factory_types.factory.len() && positions.len()
            == self.factory_types.factory[index as int].io.len()
    }

    /// Spawns a factory of the type at `factory_type_index` at `pos`, with
    /// its ports at `port_positions`.
    ///
    /// Each port gets a new track node of its own, connected to nothing, and
    /// the identifier of its resource. Where the catalogue has no type at
    /// the index, or the number of positions is not that of the type's
    /// ports, nothing happens.
    pub fn spawn_factory(&mut self, pos: Point, port_positions: &Vec<Point>, factory_type_index: usize)
        requires
            old(self).wf(),
            old(self).can_spawn(port_positions@, factory_type_index) ==> old(self).id_gen.next + 2
                * port_positions@.len() + 1 < u64::MAX,
        ensures
            final(self).wf(),
            final(self).config == old(self).config,
            final(self).factory_types == old(self).factory_types,
            final(self).trains == old(self).trains,
            !old(self).can_spawn(port_positions@, factory_type_index) ==> *final(self) == *old(
                self,
            ),
            old(self).can_spawn(port_positions@, factory_type_index) ==> ({
                let after = wired(
                    old(self).factory_types.factory[factory_type_index as int].io@,
                    port_positions@,
                    (old(self).id_gen.next + 1) as u64,
                    old(self).resources.items@,
                    port_positions@.len(),
                );
                let nodes = old(self).tracks.nodes@.len();
                &&& final(self).id_gen.next == after.next
                &&& final(self).resources.items@ == after.resources
                &&& final(self).factories_view() == old(self).factories_view().push(
                    FactoryView {
                        id: Id(old(self).id_gen.next),
                        ty: factory_type_index,
                        pos,
                        io: after.io,
                    },
                )
                &&& final(self).tracks.nodes@.len() == nodes + port_positions@.len()
                &&& forall|i: int|
                    0 <= i < nodes ==> final(self).tracks.nodes@[i] == old(self).tracks.nodes@[i]
                &&& forall|i: int|
                    0 <= i < port_positions@.len() ==> {
                        &&& (#[trigger] final(self).tracks.nodes@[nodes + i]).id == after.io[i].node
                        &&& final(self).tracks.nodes@[nodes + i].pos == port_positions@[i]
                        &&& final(self).tracks.nodes@[nodes + i].connections@ == Seq::<Id>::empty()
                    }
            }),
    {
        if factory_type_index >= self.factory_types.factory.len() {
            return ;
        }
        let count = self.factory_types.factory[factory_type_index].io.len();
        if port_positions.len() != count {
            return ;
        }
        let ghost configs = self.factory_types.factory[factory_type_index as int].io@;
        let ghost start = old(self).id_gen.next;
        let ghost nodes = old(self).tracks.nodes@.len();
        let id = self.id_gen.gen();
        let mut io: Vec<FactoryIo> = Vec::new();
        let mut i: usize = 0;
        proof {
            lemma_on_extended(
                self.factories_view(),
                self.trains_view(),
                &self.tracks,
                &self.tracks,
                start,
                self.id_gen.next,
            );
        }
        while i < count
            invariant
                i <= count,
                count == port_positions@.len(),
                factory_type_index < self.factory_types.factory.len(),
                configs == self.factory_types.factory[factory_type_index as int].io@,
                configs.len() == count,
                start + 2 * count + 1 < u64::MAX,
                nodes == old(self).tracks.nodes@.len(),
                self.config == old(self).config,
                self.factory_types == old(self).factory_types,
                self.trains == old(self).trains,
                self.factories == old(self).factories,
                self.id_gen.next <= start + 1 + 2 * i,
                self.id_gen.next == wired(
                    configs,
                    port_positions@,
                    (start + 1) as u64,
                    old(self).resources.items@,
                    i as nat,
                ).next,
                self.resources.items@ == wired(
                    configs,
                    port_positions@,
                    (start + 1) as u64,
                    old(self).resources.items@,
                    i as nat,
                ).resources,
                io@ == wired(
                    configs,
                    port_positions@,
                    (start + 1) as u64,
                    old(self).resources.items@,
                    i as nat,
                ).io,
                io@.len() == i,
                self.tracks.wf(),
                self.tracks.below(self.id_gen.next),
                self.resources.wf(),
                ids_below(self.resources.items@, self.id_gen.next),
                factories_wf(self.factories_view(), &self.tracks, self.id_gen.next),
                trains_wf(
                    self.trains_view(),
                    self.factories_view(),
                    &self.tracks,
                    self.id_gen.next,
                ),
                self.tracks.nodes@.len() == nodes + i,
                forall|j: int|
                    0 <= j < nodes ==> self.tracks.nodes@[j] == old(self).tracks.nodes@[j],
                forall|j: int|
                    0 <= j < i ==> {
                        &&& (#[trigger] self.tracks.nodes@[nodes + j]).id == io@[j].node
                        &&& self.tracks.nodes@[nodes + j].pos == port_positions@[j]
                        &&& self.tracks.nodes@[nodes + j].connections@ == Seq::<Id>::empty()
                    },
                forall|j: int| 0 <= j < i ==> self.tracks.contains(#[trigger] io@[j].node),
                factories_fit(self.factories_view(), &self.factory_types, self.resources.items@),
                trains_carry(self.trains_view(), self.resources.items@),
                forall|j: int|
                    0 <= j < i ==> port_fits(#[trigger] io@[j], configs[j], self.resources.items@),
                start < self.id_gen.next,
                id == Id(start),
            decreases count - i,
        {
            let ghost tracks_before = self.tracks;
            let ghost next_before = self.id_gen.next;
            let ghost io_before = io@;
            let ghost resources_before = self.resources.items@;
            let config = &self.factory_types.factory[factory_type_index].io[i];
            let node = self.tracks.add_node(&mut self.id_gen, port_positions[i]);
            proof {
                lemma_interned(self.resources.items@, self.id_gen.next, config.resource);
            }
            let resource = self.resources.intern(&mut self.id_gen, &config.resource);
            io.push(
                FactoryIo {
                    ty: config.ty,
                    node,
                    resource,
                    amount: if config.rate.is_some() {
                        Some(0)
                    } else {
                        None
                    },
                    pos: port_positions[i],
                },
            );
            proof {
                lemma_on_extended(
                    self.factories_view(),
                    self.trains_view(),
                    &tracks_before,
                    &self.tracks,
                    next_before,
                    self.id_gen.next,
                );
                lemma_fit_grown(
                    self.factories_view(),
                    self.trains_view(),
                    &self.factory_types,
                    resources_before,
                    self.resources.items@,
                );
                lemma_grown(resources_before, self.resources.items@);
                assert forall|j: int| 0 <= j < i + 1 implies port_fits(
                    #[trigger] io@[j],
                    configs[j],
                    self.resources.items@,
                ) by {
                    if j < i {
                        assert(io@[j] == io_before[j]);
                        assert(port_fits(io_before[j], configs[j], resources_before));
                    }
                }
                assert forall|j: int| 0 <= j < i + 1 implies self.tracks.contains(
                    #[trigger] io@[j].node,
                ) by {
                    if j < i {
                        assert(io@[j] == io_before[j]);
                        self.tracks.lemma_extends(&tracks_before, io_before[j].node);
                    }
                }
                assert forall|j: int| 0 <= j < i + 1 implies {
                    &&& (#[trigger] self.tracks.nodes@[nodes + j]).id == io@[j].node
                    &&& self.tracks.nodes@[nodes + j].pos == port_positions@[j]
                    &&& self.tracks.nodes@[nodes + j].connections@ == Seq::<Id>::empty()
                } by {
                    if j < i {
                        assert(io@[j] == io_before[j]);
                        assert(self.tracks.nodes@[nodes + j] == tracks_before.nodes@[nodes + j]);
                    } else {
                        self.tracks.lemma_index_of(nodes + i);
                    }
                }
            }
            i += 1;
        }
        let ghost factories_before = self.factories_view();
        self.factories.push(Factory { id, ty: factory_type_index, pos, io });
        proof {
            let factories = self.factories_view();
            let last = factories_before.len() as int;
            assert(factories =~= factories_before.push(
                FactoryView { id, ty: factory_type_index, pos, io: io@ },
            ));
            assert forall|a: int, b: int| 0 <= a < b < factories.len() implies (
            #[trigger] factories[a]).id.0 < (#[trigger] factories[b]).id.0 by {
                if b == last {
                    assert(factories_before[a].id.0 < start) by {
                        assert(factories_before[a] == old(self).factories_view()[a]);
                    }
                } else {
                    assert(factories_before[a].id.0 < factories_before[b].id.0);
                }
            }
            assert forall|a: int, b: int|
                0 <= a < factories.len() && 0 <= b < factories[a].io.len() implies self.tracks.contains(
                #[trigger] factories[a].io[b].node,
            ) by {
                if a < last {
                    assert(factories[a] == factories_before[a]);
                }
            }
            assert forall|a: int| 0 <= a < factories.len() implies (#[trigger] factories[a]).id.0
                < self.id_gen.next by {
                if a < last {
                    assert(factories[a] == factories_before[a]);
                }
            }
            assert forall|port: IoId| is_port(factories_before, port) implies is_port(
                factories,
                port,
            ) by {
                let k = factory_place(factories_before, port.factory);
                assert(factories[k] == factories_before[k]);
            }
        }
    }

    /// Whether a train can be spawned: there is a resource for it to carry
    /// and a node to stand on.
    pub open spec fn can_spawn_train(&self) -> bool {
        self.resources.items@.len() > 0 && self.tracks.nodes@.len() > 0
    }

    /// Spawns a train, with two draws as the source of chance.
    ///
    /// The train carries the resource at place `resource_draw` modulo the
    /// number of resources, and stands on the node at place `node_draw`
    /// modulo the number of nodes. It is empty, at rest and without a
    /// target, and gets its capacity and length from the configuration.
    /// Where there is no resource or no node, nothing happens.
    pub fn spawn_train_with(&mut self, resource_draw: u64, node_draw: u64)
        requires
            old(self).wf(),
            old(self).can_spawn_train() ==> old(self).id_gen.next < u64::MAX,
        ensures
            final(self).wf(),
            !old(self).can_spawn_train() ==> *final(self) == *old(self),
            old(self).can_spawn_train() ==> {
                &&& final(self).keeps_ground(
                    &World {
                        id_gen: IdGen { next: (old(self).id_gen.next + 1) as u64 },
                        ..*old(self)
                    },
                )
                &&& final(self).factories == old(self).factories
                &&& final(self).trains_view() == old(self).trains_view().push(
                    new_train(
                        Id(old(self).id_gen.next),
                        old(self).resources.items@[resource_draw as int % old(
                            self,
                        ).resources.items@.len() as int].id,
                        old(self).tracks.nodes@[node_draw as int % old(self).tracks.nodes@.len() as int].id,
                        old(self).config,
                    ),
                )
            },
    {
        if self.resources.items.len() == 0 || self.tracks.nodes.len() == 0 {
            return ;
        }
        let resource = self.resources.items[(resource_draw % self.resources.items.len() as u64) as usize].id;
        let at = (node_draw % self.tracks.nodes.len() as u64) as usize;
        let node = self.tracks.nodes[at].id;
        let id = self.id_gen.gen();
        let ghost trains = self.trains_view();
        let train = Train {
            id,
            resource,
            amount: 0,
            capacity: self.config.train_capacity,
            length: self.config.train_length,
            head: TrackPoint { from: node, to: node, progress: 0 },
            tail_nodes: VecDeque::new(),
            path: None,
            target: None,
        };
        proof {
            self.tracks.lemma_index_of(at as int);
            lemma_on_extended(
                self.factories_view(),
                trains,
                &self.tracks,
                &self.tracks,
                old(self).id_gen.next,
                self.id_gen.next,
            );
        }
        self.trains.push(train);
        assert(self.trains_view() =~= trains.push(new_train(id, resource, node, self.config)));
    }

    /// Spawns a train that carries a resource picked by chance and stands on
    /// a node picked by chance. Where there is no resource or no node,
    /// nothing happens.
    pub fn spawn_train(&mut self)
        requires
            old(self).wf(),
            old(self).can_spawn_train() ==> old(self).id_gen.next < u64::MAX,
        ensures
            final(self).wf(),
            !old(self).can_spawn_train() ==> *final(self) == *old(self),
            old(self).can_spawn_train() ==> exists|resource: int, node: int|
                {
                    &&& 0 <= resource < old(self).resources.items@.len()
                    &&& 0 <= node < old(self).tracks.nodes@.len()
                    &&& final(self).keeps_ground(
                        &World {
                            id_gen: IdGen { next: (old(self).id_gen.next + 1) as u64 },
                            ..*old(self)
                        },
                    )
                    &&& final(self).factories == old(self).factories
                    &&& final(self).trains_view() == old(self).trains_view().push(
                        new_train(
                            Id(old(self).id_gen.next),
                            (#[trigger] old(self).resources.items@[resource]).id,
                            (#[trigger] old(self).tracks.nodes@[node]).id,
                            old(self).config,
                        ),
                    )
                },
    {
        let resource_draw = draw();
        let node_draw = draw();
        self.spawn_train_with(resource_draw, node_draw);
    }
}

} // verus!
