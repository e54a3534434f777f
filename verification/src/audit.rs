//! Checking the invariant of a world at run time.

use crate::resources::carried;
use crate::world::{
    ascending, factories_fit, factories_wf, factory_fits, is_port, lemma_factory_place, port_fits,
    train_wf, trains_carry, trains_wf, World,
};
use vstd::prelude::*;

verus! {

impl World {
    /// Whether the factory at place `i` keeps the invariant, but for the
    /// order of the identifiers.
    pub open spec fn factory_wf(&self, i: int) -> bool {
        let factory = self.factories_view()[i];
        &&& factory.id.0 < self.id_gen.next
        &&& forall|j: int|
            0 <= j < factory.io.len() ==> self.tracks.contains(#[trigger] factory.io[j].node)
        &&& factory_fits(factory, &self.factory_types, self.resources.items@)
    }

    /// Whether the train at place `i` keeps the invariant, but for the order
    /// of the identifiers.
    pub open spec fn train_wf(&self, i: int) -> bool {
        let train = self.trains_view()[i];
        &&& train_wf(train, self.factories_view(), &self.tracks, self.id_gen.next)
        &&& carried(self.resources.items@, train.resource)
    }

    /// Checks the factory at place `i`.
    fn check_factory(&self, i: usize) -> (ok: bool)
        requires
            i < self.factories.len(),
            self.tracks.wf(),
            self.resources.wf(),
        ensures
            ok == self.factory_wf(i as int),
    {
        let factory = &self.factories[i];
        let ghost view = self.factories_view()[i as int];
        assert(view == factory@);
        if factory.id.0 >= self.id_gen.next || factory.ty >= self.factory_types.factory.len() {
            return false;
        }
        let configs = &self.factory_types.factory[factory.ty].io;
        if factory.io.len() != configs.len() {
            return false;
        }
        let mut j: usize = 0;
        while j < factory.io.len()
            invariant
                j <= factory.io.len(),
                i < self.factories.len(),
                factory == &self.factories[i as int],
                view == self.factories_view()[i as int],
                view == factory@,
                factory.id.0 < self.id_gen.next,
                factory.ty < self.factory_types.factory.len(),
                configs == &self.factory_types.factory[factory.ty as int].io,
                factory.io.len() == configs.len(),
                self.resources.wf(),
                forall|a: int| 0 <= a < j ==> self.tracks.contains(#[trigger] view.io[a].node),
                forall|a: int|
                    0 <= a < j ==> port_fits(
                        #[trigger] view.io[a],
                        configs@[a],
                        self.resources.items@,
                    ),
            decreases factory.io.len() - j,
        {
            let port = factory.io[j];
            let config = &configs[j];
            if self.tracks.find(port.node).is_none() {
                assert(!self.tracks.contains(view.io[j as int].node));
                return false;
            }
            let fits = port.ty == config.ty && port.amount.is_some() == config.rate.is_some()
                && match self.resources.find(&config.resource) {
                Some(id) => id == port.resource,
                None => false,
            };
            if !fits {
                assert(!port_fits(view.io[j as int], configs@[j as int], self.resources.items@));
                return false;
            }
            j += 1;
        }
        true
    }

    /// Checks the train at place `i`.
    fn check_train(&self, i: usize) -> (ok: bool)
        requires
            i < self.trains.len(),
            self.tracks.wf(),
            ascending(self.factories_view()),
        ensures
            ok == self.train_wf(i as int),
    {
        let train = &self.trains[i];
        let ghost factories = self.factories_view();
        assert(self.trains_view()[i as int] == train@);
        if !train.is_wf(&self.tracks) || train.id.0 >= self.id_gen.next || !self.resources.carries(
            train.resource,
        ) {
            return false;
        }
        match train.target {
            Some(io) => match self.find_factory(io.factory) {
                Some(k) => {
                    proof {
                        assert(factories[k as int] == self.factories[k as int]@);
                        lemma_factory_place(factories, k as int);
                    }
                    if io.io >= self.factories[k].io.len() {
                        assert(!is_port(factories, io));
                        return false;
                    }
                    train.is_bound_for(&self.tracks, self.factories[k].io[io.io].node)
                },
                None => {
                    assert(!is_port(factories, io)) by {
                        assert forall|k: int| 0 <= k < factories.len() implies (
                        #[trigger] factories[k]).id != io.factory by {
                            assert(factories[k] == self.factories[k]@);
                        }
                    }
                    false
                },
            },
            None => true,
        }
    }

    /// Checks the invariant of the world.
    pub fn is_wf(&self) -> (ok: bool)
        ensures
            ok == self.wf(),
    {
        if !self.tracks.is_wf() || !self.tracks.is_below(self.id_gen.next) || !self.resources.is_wf()
            || !self.resources.is_below(self.id_gen.next) {
            return false;
        }
        let ghost factories = self.factories_view();
        let mut i: usize = 0;
        while i < self.factories.len()
            invariant
                i <= self.factories.len(),
                self.tracks.wf(),
                self.resources.wf(),
                factories == self.factories_view(),
                forall|a: int, b: int|
                    0 <= a < b < i ==> (#[trigger] factories[a]).id.0 < (#[trigger] factories[b]).id.0,
                forall|a: int| 0 <= a < i ==> #[trigger] self.factory_wf(a),
            decreases self.factories.len() - i,
        {
            if i > 0 && self.factories[i - 1].id.0 >= self.factories[i].id.0 {
                assert(factories[i - 1] == self.factories[i - 1]@);
                assert(factories[i as int] == self.factories[i as int]@);
                assert(!(factories[i - 1].id.0 < factories[i as int].id.0));
                return false;
            }
            if !self.check_factory(i) {
                return false;
            }
            assert forall|a: int, b: int| 0 <= a < b < i + 1 implies (#[trigger] factories[a]).id.0
                < (#[trigger] factories[b]).id.0 by {
                assert(factories[i - 1] == self.factories[i - 1]@);
                assert(factories[i as int] == self.factories[i as int]@);
                if b == i && a < i - 1 {
                    assert(factories[a].id.0 < factories[i - 1].id.0);
                }
            }
            i += 1;
        }
        assert(factories_wf(factories, &self.tracks, self.id_gen.next)) by {
            assert forall|a: int, b: int|
                0 <= a < factories.len() && 0 <= b < factories[a].io.len() implies self.tracks.contains(
                #[trigger] factories[a].io[b].node,
            ) by {
                assert(self.factory_wf(a));
            }
            assert forall|a: int| 0 <= a < factories.len() implies (#[trigger] factories[a]).id.0
                < self.id_gen.next by {
                assert(self.factory_wf(a));
            }
        }
        assert(factories_fit(factories, &self.factory_types, self.resources.items@)) by {
            assert forall|a: int| 0 <= a < factories.len() implies factory_fits(
                #[trigger] factories[a],
                &self.factory_types,
                self.resources.items@,
            ) by {
                assert(self.factory_wf(a));
            }
        }
        let ghost trains = self.trains_view();
        let mut i: usize = 0;
        while i < self.trains.len()
            invariant
                i <= self.trains.len(),
                self.tracks.wf(),
                ascending(self.factories_view()),
                trains == self.trains_view(),
                forall|a: int, b: int|
                    0 <= a < b < i ==> (#[trigger] trains[a]).id.0 < (#[trigger] trains[b]).id.0,
                forall|a: int| 0 <= a < i ==> #[trigger] self.train_wf(a),
            decreases self.trains.len() - i,
        {
            if i > 0 && self.trains[i - 1].id.0 >= self.trains[i].id.0 {
                assert(trains[i - 1] == self.trains[i - 1]@);
                assert(trains[i as int] == self.trains[i as int]@);
                assert(!(trains[i - 1].id.0 < trains[i as int].id.0));
                return false;
            }
            if !self.check_train(i) {
                return false;
            }
            assert forall|a: int, b: int| 0 <= a < b < i + 1 implies (#[trigger] trains[a]).id.0 < (
            #[trigger] trains[b]).id.0 by {
                assert(trains[i - 1] == self.trains[i - 1]@);
                assert(trains[i as int] == self.trains[i as int]@);
                if b == i && a < i - 1 {
                    assert(trains[a].id.0 < trains[i - 1].id.0);
                }
            }
            i += 1;
        }
        assert(trains_wf(trains, factories, &self.tracks, self.id_gen.next)) by {
            assert forall|a: int| 0 <= a < trains.len() implies train_wf(
                #[trigger] trains[a],
                factories,
                &self.tracks,
                self.id_gen.next,
            ) by {
                assert(self.train_wf(a));
            }
        }
        assert(trains_carry(trains, self.resources.items@)) by {
            assert forall|a: int| 0 <= a < trains.len() implies carried(
                self.resources.items@,
                (#[trigger] trains[a]).resource,
            ) by {
                assert(self.train_wf(a));
            }
        }
        true
    }
}

} // verus!
