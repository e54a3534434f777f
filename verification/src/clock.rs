//! The tick: factories run, trains have their turn, trains move.

use crate::chance::draws;
use crate::factory::{flow_ports, FactoryTypes};
use crate::schedule::{scheduled, Scheduled};
use crate::tracks::Tracks;
use crate::train::{IoId, TrainView};
use crate::world::{
    factories_fit, factory_fits, factory_place, is_port, port_at, train_wf, Config, FactoryView,
    World,
};
use vstd::prelude::*;

verus! {

/// The factories after each ran for one tick of length `dt`.
pub open spec fn flowed(factories: Seq<FactoryView>, types: &FactoryTypes, dt: u64) -> Seq<
    FactoryView,
> {
    Seq::new(
        factories.len(),
        |i: int|
            FactoryView {
                io: flow_ports(factories[i].io, types.factory[factories[i].ty as int].io@, dt),
                ..factories[i]
            },
    )
}

/// The trains after each moved `distance` along its path.
pub open spec fn moved_on(trains: Seq<TrainView>, tracks: &Tracks, distance: u64) -> Seq<
    TrainView,
> {
    Seq::new(trains.len(), |i: int| trains[i].advanced(tracks, distance))
}

/// The distance that a train covers in one tick of length `dt`: `speed * dt`,
/// or the largest distance there is where the product exceeds it.
pub open spec fn distance_covered(speed: u64, dt: u64) -> u64 {
    if speed * dt >= u64::MAX {
        u64::MAX
    } else {
        (speed * dt) as u64
    }
}

/// The factories and the trains after one tick of length `dt`: every factory
/// runs, then every train has its turn, then every train moves.
pub open spec fn ticked(
    factories: Seq<FactoryView>,
    trains: Seq<TrainView>,
    tracks: &Tracks,
    types: &FactoryTypes,
    config: Config,
    dt: u64,
    draws: Seq<u64>,
) -> Scheduled {
    let after = scheduled(
        flowed(factories, types, dt),
        trains,
        tracks,
        config.train_load_speed,
        dt,
        draws,
    );
    Scheduled {
        factories: after.factories,
        trains: moved_on(after.trains, tracks, distance_covered(config.train_speed, dt)),
    }
}

impl World {
    /// Whether this world is what one tick of length `dt` makes of `before`
    /// when the trains pick with `draws`.
    pub open spec fn is_tick_of(&self, before: &World, dt: u64, draws: Seq<u64>) -> bool {
        let after = ticked(
            before.factories_view(),
            before.trains_view(),
            &before.tracks,
            &before.factory_types,
            before.config,
            dt,
            draws,
        );
        &&& self.keeps_ground(before)
        &&& self.factories_view() == after.factories
        &&& self.trains_view() == after.trains
    }

    /// A tick is a function of the world, the length of the tick and the
    /// draws: from the same state, the same tick with the same draws leads
    /// to the same state.
    pub proof fn lemma_tick_deterministic(
        &self,
        other: &World,
        after: &World,
        other_after: &World,
        dt: u64,
        draws: Seq<u64>,
    )
        requires
            self.same_state(other),
            after.is_tick_of(self, dt, draws),
            other_after.is_tick_of(other, dt, draws),
        ensures
            after.same_state(other_after),
    {
    }

    /// Runs every factory for one tick of length `dt`.
    pub fn run_factories(&mut self, dt: u64)
        requires
            old(self).wf(),
        ensures
            final(self).wf(),
            final(self).keeps_ground(old(self)),
            final(self).trains == old(self).trains,
            final(self).factories_view() == flowed(
                old(self).factories_view(),
                &old(self).factory_types,
                dt,
            ),
    {
        let ghost before = old(self).factories_view();
        let ghost after = flowed(before, &self.factory_types, dt);
        let mut i: usize = 0;
        while i < self.factories.len()
            invariant
                i <= self.factories.len(),
                self.keeps_ground(old(self)),
                self.trains == old(self).trains,
                before == old(self).factories_view(),
                after == flowed(before, &self.factory_types, dt),
                self.factories.len() == before.len(),
                factories_fit(before, &self.factory_types, self.resources.items@),
                forall|j: int| 0 <= j < i ==> (#[trigger] self.factories[j])@ == after[j],
                forall|j: int| i <= j < before.len() ==> (#[trigger] self.factories[j])@ == before[j],
            decreases self.factories.len() - i,
        {
            assert(self.factories[i as int]@ == before[i as int]);
            assert(factory_fits(before[i as int], &self.factory_types, self.resources.items@));
            let ty = self.factories[i].ty;
            self.factories[i].flow(&self.factory_types.factory[ty], dt);
            i += 1;
        }
        proof {
            assert(self.factories_view() =~= after);
            assert forall|io: IoId| is_port(before, io) implies is_port(after, io) by {
                let k = factory_place(before, io.factory);
                assert(after[k].id == io.factory);
            }
        }
    }

    /// Moves every train that is under way by `distance`.
    pub fn move_trains(&mut self, distance: u64)
        requires
            old(self).wf(),
        ensures
            final(self).wf(),
            final(self).keeps_ground(old(self)),
            final(self).factories == old(self).factories,
            final(self).trains_view() == moved_on(
                old(self).trains_view(),
                &old(self).tracks,
                distance,
            ),
    {
        let ghost before = self.trains_view();
        let ghost after = moved_on(before, &self.tracks, distance);
        let mut i: usize = 0;
        while i < self.trains.len()
            invariant
                i <= self.trains.len(),
                self.trains.len() == before.len(),
                self.keeps_ground(old(self)),
                self.factories == old(self).factories,
                old(self).wf(),
                before == old(self).trains_view(),
                after == moved_on(before, &self.tracks, distance),
                forall|j: int| 0 <= j < i ==> (#[trigger] self.trains[j])@ == after[j],
                forall|j: int| i <= j < before.len() ==> (#[trigger] self.trains[j])@ == before[j],
                forall|j: int| 0 <= j < i ==> (#[trigger] after[j]).wf(&self.tracks),
            decreases self.trains.len() - i,
        {
            assert(self.trains[i as int]@ == before[i as int]);
            assert(before[i as int].wf(&self.tracks));
            self.trains[i].advance(&self.tracks, distance);
            i += 1;
        }
        proof {
            assert(self.trains_view() =~= after);
            let factories = self.factories_view();
            assert forall|j: int| 0 <= j < after.len() implies train_wf(
                #[trigger] after[j],
                factories,
                &self.tracks,
                self.id_gen.next,
            ) by {
                assert(train_wf(before[j], factories, &self.tracks, self.id_gen.next));
                if let Some(io) = before[j].target {
                    before[j].lemma_advanced_bound_for(
                        &self.tracks,
                        distance,
                        port_at(factories, io).node,
                    );
                }
            }
            assert forall|j: int, k: int| 0 <= j < k < after.len() implies (
            #[trigger] after[j]).id.0 < (#[trigger] after[k]).id.0 by {
                assert(before[j].id.0 < before[k].id.0);
            }
        }
    }

    /// Advances the world by one tick of length `dt`, with `draws` as the
    /// source of chance.
    ///
    /// Every factory runs for the tick. Then every train that is not under
    /// way has its turn, in the order of the list: it is served at its
    /// target and, once it departs, picks its next target; the train at
    /// place `i` picks with the draw at place `i` of `draws`. Last, every
    /// train that is under way moves `train_speed * dt` along its path.
    pub fn tick_with(&mut self, dt: u64, draws: &Vec<u64>)
        requires
            old(self).wf(),
        ensures
            final(self).wf(),
            final(self).is_tick_of(old(self), dt, draws@),
    {
        self.run_factories(dt);
        self.run_trains(dt, draws);
        assert(self.config.train_speed * dt <= u64::MAX * u64::MAX) by (nonlinear_arith)
            requires
                self.config.train_speed <= u64::MAX,
                dt <= u64::MAX,
        ;
        let product: u128 = self.config.train_speed as u128 * dt as u128;
        let distance: u64 = if product >= u64::MAX as u128 {
            u64::MAX
        } else {
            product as u64
        };
        self.move_trains(distance);
    }

    /// Advances the world by one tick of length `dt`, with chance as the
    /// source of the trains' picks.
    ///
    /// Whatever is drawn, the world after the tick is the world that
    /// `tick_with` makes of some list of draws, one for each train.
    pub fn tick(&mut self, dt: u64)
        requires
            old(self).wf(),
        ensures
            final(self).wf(),
            exists|drawn: Seq<u64>|
                drawn.len() == old(self).trains@.len() && #[trigger] final(self).is_tick_of(
                    old(self),
                    dt,
                    drawn,
                ),
    {
        let drawn = draws(self.trains.len());
        self.tick_with(dt, &drawn);
        assert(self.is_tick_of(old(self), dt, drawn@));
    }
}

} // verus!
