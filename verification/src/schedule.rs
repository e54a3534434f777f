//! The turn of a train: cargo moves at the port it serves, and a train that
//! is done picks its next port.

use crate::factory::IoType;
use crate::ids::Id;
use crate::tracks::Tracks;
use crate::train::{moved_amount, port_after_transfer, transfer_done, IoId, TrainView};
use crate::world::{
    factories_wf, factory_place, is_port, lemma_factory_place, port_at, train_wf, FactoryView,
    World,
};
use vstd::prelude::*;

verus! {

/// The ports among the first `n` of `factory` that have the direction `ty`
/// and the resource `resource`, in the order of the ports.
pub open spec fn matching_ports(factory: FactoryView, ty: IoType, resource: Id, n: nat) -> Seq<
    IoId,
>
    decreases n,
{
    if n == 0 {
        Seq::empty()
    } else {
        let rest = matching_ports(factory, ty, resource, (n - 1) as nat);
        let j = n - 1;
        if j < factory.io.len() && factory.io[j].ty == ty && factory.io[j].resource == resource {
            rest.push(IoId { factory: factory.id, io: j as usize })
        } else {
            rest
        }
    }
}

/// The ports of the first `k` of `factories` that have the direction `ty`
/// and the resource `resource`, factory by factory.
pub open spec fn candidates_upto(
    factories: Seq<FactoryView>,
    ty: IoType,
    resource: Id,
    k: nat,
) -> Seq<IoId>
    decreases k,
{
    if k == 0 {
        Seq::empty()
    } else {
        candidates_upto(factories, ty, resource, (k - 1) as nat) + matching_ports(
            factories[k - 1],
            ty,
            resource,
            factories[k - 1].io.len(),
        )
    }
}

/// Every port of the world that has the direction `ty` and the resource
/// `resource`, in the order of the factories and of their ports.
pub open spec fn candidates(factories: Seq<FactoryView>, ty: IoType, resource: Id) -> Seq<IoId> {
    candidates_upto(factories, ty, resource, factories.len())
}

/// The draw for the train at place `i`: the number at place `i` of `draws`,
/// or zero where `draws` is too short.
pub open spec fn draw_at(draws: Seq<u64>, i: int) -> u64 {
    if 0 <= i < draws.len() {
        draws[i]
    } else {
        0
    }
}

/// The factories and one train after the train's turn.
pub struct Turn {
    pub factories: Seq<FactoryView>,
    pub train: TrainView,
}

/// The factories after `moved` units went to or came from the port `io`.
pub open spec fn port_served(factories: Seq<FactoryView>, io: IoId, moved: nat) -> Seq<
    FactoryView,
> {
    let k = factory_place(factories, io.factory);
    factories.update(
        k,
        FactoryView {
            io: factories[k].io.update(
                io.io as int,
                port_after_transfer(port_at(factories, io), moved),
            ),
            ..factories[k]
        },
    )
}

/// A train with a target moves cargo to or from its port for one tick, in
/// which the loading gear moves `quota` at most. A train without a target
/// changes nothing.
pub open spec fn served(factories: Seq<FactoryView>, train: TrainView, quota: nat) -> Turn {
    match train.target {
        Some(io) => {
            let port = port_at(factories, io);
            Turn {
                factories: port_served(
                    factories,
                    io,
                    moved_amount(train.amount, train.capacity, port, quota),
                ),
                train: train.transferred(port, quota),
            }
        },
        None => Turn { factories, train },
    }
}

/// Whether a train looks for a new target after it was served: it has none,
/// or it finished the visit to the one it has.
pub open spec fn departs(factories: Seq<FactoryView>, train: TrainView, quota: nat) -> bool {
    match train.target {
        Some(io) => transfer_done(
            served(factories, train, quota).train.amount as int,
            train.capacity,
            port_at(factories, io),
        ),
        None => true,
    }
}

/// The port that a train picks with the draw `draw`: one of the ports that
/// have its resource and the direction it looks for, or nothing where there
/// is none.
pub open spec fn picked(factories: Seq<FactoryView>, train: TrainView, draw: u64) -> Option<IoId> {
    let found = candidates(factories, train.looks_for(), train.resource);
    if found.len() == 0 {
        None
    } else {
        Some(found[draw as int % found.len() as int])
    }
}

/// A train picks a port and takes it as its target if a route leads there
/// from the node that its head moves towards.
pub open spec fn retargeted(
    factories: Seq<FactoryView>,
    train: TrainView,
    tracks: &Tracks,
    draw: u64,
) -> TrainView {
    match picked(factories, train, draw) {
        Some(io) => train.headed_for(io, tracks.route(train.head.to, port_at(factories, io).node)),
        None => train,
    }
}

/// The turn of one train. A train under way does nothing. Any other train is
/// served at its target and then, if it departs, looks for the next target.
pub open spec fn turn(
    factories: Seq<FactoryView>,
    train: TrainView,
    tracks: &Tracks,
    load_speed: u64,
    dt: u64,
    draw: u64,
) -> Turn {
    if train.path is Some {
        Turn { factories, train }
    } else {
        let quota = load_speed as nat * dt as nat;
        let after = served(factories, train, quota);
        if departs(factories, train, quota) {
            Turn {
                factories: after.factories,
                train: retargeted(after.factories, after.train, tracks, draw),
            }
        } else {
            after
        }
    }
}

/// The factories and the trains after the first `n` trains had their turn,
/// one after the other in the order of the list.
pub struct Scheduled {
    pub factories: Seq<FactoryView>,
    pub trains: Seq<TrainView>,
}

/// Gives the first `n` trains their turn, one after the other. The train at
/// place `i` picks with the draw at place `i`.
pub open spec fn scheduled_upto(
    factories: Seq<FactoryView>,
    trains: Seq<TrainView>,
    tracks: &Tracks,
    load_speed: u64,
    dt: u64,
    draws: Seq<u64>,
    n: nat,
) -> Scheduled
    decreases n,
{
    if n == 0 {
        Scheduled { factories, trains }
    } else {
        let before = scheduled_upto(
            factories,
            trains,
            tracks,
            load_speed,
            dt,
            draws,
            (n - 1) as nat,
        );
        let after = turn(
            before.factories,
            before.trains[n - 1],
            tracks,
            load_speed,
            dt,
            draw_at(draws, n - 1),
        );
        Scheduled { factories: after.factories, trains: before.trains.update(n - 1, after.train) }
    }
}

/// Gives every train its turn.
pub open spec fn scheduled(
    factories: Seq<FactoryView>,
    trains: Seq<TrainView>,
    tracks: &Tracks,
    load_speed: u64,
    dt: u64,
    draws: Seq<u64>,
) -> Scheduled {
    scheduled_upto(factories, trains, tracks, load_speed, dt, draws, trains.len())
}

/// Serving a port changes neither which ports there are nor where they are.
pub proof fn lemma_port_served(
    factories: Seq<FactoryView>,
    tracks: &Tracks,
    bound: u64,
    io: IoId,
    moved: nat,
)
    requires
        factories_wf(factories, tracks, bound),
        is_port(factories, io),
    ensures
        factories_wf(port_served(factories, io, moved), tracks, bound),
        forall|other: IoId|
            is_port(factories, other) ==> is_port(port_served(factories, io, moved), other),
{
    let after = port_served(factories, io, moved);
    let k = factory_place(factories, io.factory);
    assert forall|i: int, j: int|
        0 <= i < after.len() && 0 <= j < after[i].io.len() implies tracks.contains(
        #[trigger] after[i].io[j].node,
    ) by {
        assert(after[i].io[j].node == factories[i].io[j].node);
    }
    assert forall|other: IoId| is_port(factories, other) implies is_port(after, other) by {
        let at = factory_place(factories, other.factory);
        assert(after[at].id == other.factory);
    }
}

/// Every one of the matching ports is a port of the factory that matches.
pub proof fn lemma_matching_ports(factory: FactoryView, ty: IoType, resource: Id, n: nat, i: int)
    requires
        n <= factory.io.len() <= usize::MAX,
        0 <= i < matching_ports(factory, ty, resource, n).len(),
    ensures
        matching_ports(factory, ty, resource, n)[i].factory == factory.id,
        matching_ports(factory, ty, resource, n)[i].io < n,
        factory.io[matching_ports(factory, ty, resource, n)[i].io as int].ty == ty,
        factory.io[matching_ports(factory, ty, resource, n)[i].io as int].resource == resource,
    decreases n,
{
    if n > 0 {
        let rest = matching_ports(factory, ty, resource, (n - 1) as nat);
        if i < rest.len() {
            lemma_matching_ports(factory, ty, resource, (n - 1) as nat, i);
        }
    }
}

/// Every candidate is a port of one of the first `k` factories.
pub proof fn lemma_candidates(
    factories: Seq<FactoryView>,
    ty: IoType,
    resource: Id,
    k: nat,
    i: int,
) -> (at: int)
    requires
        k <= factories.len(),
        forall|at: int| 0 <= at < factories.len() ==> (#[trigger] factories[at]).io.len() <= usize::MAX,
        0 <= i < candidates_upto(factories, ty, resource, k).len(),
    ensures
        0 <= at < k,
        candidates_upto(factories, ty, resource, k)[i].factory == factories[at].id,
        candidates_upto(factories, ty, resource, k)[i].io < factories[at].io.len(),
        factories[at].io[candidates_upto(factories, ty, resource, k)[i].io as int].ty == ty,
        factories[at].io[candidates_upto(factories, ty, resource, k)[i].io as int].resource
            == resource,
    decreases k,
{
    let before = candidates_upto(factories, ty, resource, (k - 1) as nat);
    if i < before.len() {
        lemma_candidates(factories, ty, resource, (k - 1) as nat, i)
    } else {
        lemma_matching_ports(
            factories[k - 1],
            ty,
            resource,
            factories[k - 1].io.len(),
            i - before.len(),
        );
        k - 1
    }
}

/// Every port of a factory that matches is one of its matching ports.
pub proof fn lemma_matching_ports_complete(
    factory: FactoryView,
    ty: IoType,
    resource: Id,
    n: nat,
    j: int,
)
    requires
        0 <= j < n <= factory.io.len() <= usize::MAX,
        factory.io[j].ty == ty,
        factory.io[j].resource == resource,
    ensures
        matching_ports(factory, ty, resource, n).contains(
            IoId { factory: factory.id, io: j as usize },
        ),
    decreases n,
{
    let found = matching_ports(factory, ty, resource, n);
    let rest = matching_ports(factory, ty, resource, (n - 1) as nat);
    let io = IoId { factory: factory.id, io: j as usize };
    if j == n - 1 {
        assert(found[rest.len() as int] == io);
    } else {
        lemma_matching_ports_complete(factory, ty, resource, (n - 1) as nat, j);
        let at = choose|at: int| 0 <= at < rest.len() && rest[at] == io;
        assert(found[at] == io);
    }
}

/// Every port of the world that matches is a candidate.
pub proof fn lemma_candidates_complete(
    factories: Seq<FactoryView>,
    ty: IoType,
    resource: Id,
    k: nat,
    at: int,
    j: int,
)
    requires
        0 <= at < k <= factories.len(),
        0 <= j < factories[at].io.len() <= usize::MAX,
        factories[at].io[j].ty == ty,
        factories[at].io[j].resource == resource,
    ensures
        candidates_upto(factories, ty, resource, k).contains(
            IoId { factory: factories[at].id, io: j as usize },
        ),
    decreases k,
{
    let found = candidates_upto(factories, ty, resource, k);
    let before = candidates_upto(factories, ty, resource, (k - 1) as nat);
    let last = matching_ports(factories[k - 1], ty, resource, factories[k - 1].io.len());
    let io = IoId { factory: factories[at].id, io: j as usize };
    if at == k - 1 {
        lemma_matching_ports_complete(factories[at], ty, resource, factories[at].io.len(), j);
        let place = choose|place: int| 0 <= place < last.len() && last[place] == io;
        assert(found[before.len() + place] == io);
    } else {
        lemma_candidates_complete(factories, ty, resource, (k - 1) as nat, at, j);
        let place = choose|place: int| 0 <= place < before.len() && before[place] == io;
        assert(found[place] == io);
    }
}

impl World {
    /// Every port of the world that has the direction `ty` and the resource
    /// `resource`, in the order of the factories and of their ports.
    pub fn candidates(&self, ty: IoType, resource: Id) -> (found: Vec<IoId>)
        ensures
            found@ == candidates(self.factories_view(), ty, resource),
            forall|i: int|
                0 <= i < found@.len() ==> exists|at: int|
                    {
                        &&& 0 <= at < self.factories@.len()
                        &&& (#[trigger] self.factories@[at]).id == (#[trigger] found@[i]).factory
                        &&& found@[i].io < self.factories@[at].io@.len()
                        &&& self.factories@[at].io@[found@[i].io as int].ty == ty
                        &&& self.factories@[at].io@[found@[i].io as int].resource == resource
                    },
            forall|at: int, j: int|
                0 <= at < self.factories@.len() && 0 <= j < self.factories@[at].io@.len()
                    && self.factories@[at].io@[j].ty == ty && (
                #[trigger] self.factories@[at].io@[j]).resource == resource ==> found@.contains(
                    IoId { factory: self.factories@[at].id, io: j as usize },
                ),
    {
        let ghost factories = self.factories_view();
        proof {
            assert forall|at: int| 0 <= at < factories.len() implies (
            #[trigger] factories[at]).io.len() <= usize::MAX by {
                assert(factories[at] == self.factories[at]@);
                assert(self.factories[at].io@.len() == self.factories[at].io.len());
            }
            let all = candidates(factories, ty, resource);
            assert forall|i: int| 0 <= i < all.len() implies exists|at: int|
                {
                    &&& 0 <= at < self.factories@.len()
                    &&& (#[trigger] self.factories@[at]).id == (#[trigger] all[i]).factory
                    &&& all[i].io < self.factories@[at].io@.len()
                    &&& self.factories@[at].io@[all[i].io as int].ty == ty
                    &&& self.factories@[at].io@[all[i].io as int].resource == resource
                } by {
                let at = lemma_candidates(factories, ty, resource, factories.len(), i);
                assert(factories[at] == self.factories@[at]@);
            }
            assert forall|at: int, j: int|
                0 <= at < self.factories@.len() && 0 <= j < self.factories@[at].io@.len()
                    && self.factories@[at].io@[j].ty == ty && (
                #[trigger] self.factories@[at].io@[j]).resource == resource implies all.contains(
                IoId { factory: self.factories@[at].id, io: j as usize },
            ) by {
                assert(factories[at] == self.factories@[at]@);
                lemma_candidates_complete(factories, ty, resource, factories.len(), at, j);
            }
        }
        let mut found: Vec<IoId> = Vec::new();
        let mut k: usize = 0;
        while k < self.factories.len()
            invariant
                k <= self.factories.len(),
                factories == self.factories_view(),
                found@ == candidates_upto(factories, ty, resource, k as nat),
            decreases self.factories.len() - k,
        {
            let factory = &self.factories[k];
            let ghost base = found@;
            assert(factories[k as int] == factory@);
            let mut j: usize = 0;
            while j < factory.io.len()
                invariant
                    j <= factory.io.len(),
                    found@ == base + matching_ports(factory@, ty, resource, j as nat),
                decreases factory.io.len() - j,
            {
                if factory.io[j].ty == ty && factory.io[j].resource == resource {
                    found.push(IoId { factory: factory.id, io: j });
                }
                j += 1;
                assert(found@ =~= base + matching_ports(factory@, ty, resource, j as nat));
            }
            k += 1;
        }
        found
    }

    /// Serves the train at place `train` at its target for one tick of
    /// length `dt`, and says whether the train departs: it has no target, or
    /// it finished the visit.
    pub fn serve(&mut self, train: usize, dt: u64) -> (leaves: bool)
        requires
            old(self).wf(),
            train < old(self).trains.len(),
        ensures
            final(self).wf(),
            final(self).keeps_ground(old(self)),
            final(self).factories_view() == served(
                old(self).factories_view(),
                old(self).trains_view()[train as int],
                old(self).config.train_load_speed as nat * dt as nat,
            ).factories,
            final(self).trains_view() == old(self).trains_view().update(
                train as int,
                served(
                    old(self).factories_view(),
                    old(self).trains_view()[train as int],
                    old(self).config.train_load_speed as nat * dt as nat,
                ).train,
            ),
            leaves == departs(
                old(self).factories_view(),
                old(self).trains_view()[train as int],
                old(self).config.train_load_speed as nat * dt as nat,
            ),
    {
        let ghost factories = self.factories_view();
        let ghost trains = self.trains_view();
        let ghost quota = self.config.train_load_speed as nat * dt as nat;
        assert(trains[train as int] == self.trains[train as int]@);
        assert(trains[train as int].wf(&self.tracks));
        match self.trains[train].target {
            Some(io) => {
                let found = self.find_factory(io.factory);
                proof {
                    let k = factory_place(factories, io.factory);
                    assert(is_port(factories, io));
                    assert(factories[k] == self.factories[k]@);
                    lemma_factory_place(factories, k);
                    lemma_port_served(
                        factories,
                        &self.tracks,
                        self.id_gen.next,
                        io,
                        moved_amount(
                            trains[train as int].amount,
                            trains[train as int].capacity,
                            port_at(factories, io),
                            quota,
                        ),
                    );
                }
                let k = found.unwrap();
                assert(factories[k as int] == self.factories[k as int]@);
                let leaves = self.trains[train].transfer(
                    &mut self.factories[k].io[io.io],
                    self.config.train_load_speed,
                    dt,
                );
                proof {
                    let after = served(factories, trains[train as int], quota);
                    assert(self.factories_view() =~= after.factories);
                    assert(self.trains_view() =~= trains.update(train as int, after.train));
                }
                leaves
            },
            None => {
                assert(self.trains_view() =~= trains.update(train as int, trains[train as int]));
                true
            },
        }
    }

    /// Cancels the journey of the train at place `train`: its path and its
    /// target are cleared at once. The train stays where it is, keeps its
    /// cargo, and looks for a target in its next turn.
    pub fn cancel(&mut self, train: usize)
        requires
            old(self).wf(),
            train < old(self).trains.len(),
        ensures
            final(self).wf(),
            final(self).keeps_ground(old(self)),
            final(self).factories == old(self).factories,
            final(self).trains_view() == old(self).trains_view().update(
                train as int,
                TrainView { path: None, target: None, ..old(self).trains_view()[train as int] },
            ),
    {
        let ghost trains = self.trains_view();
        assert(train_wf(
            trains[train as int],
            self.factories_view(),
            &self.tracks,
            self.id_gen.next,
        ));
        self.trains[train].cancel();
        assert(self.trains_view() =~= trains.update(
            train as int,
            TrainView { path: None, target: None, ..trains[train as int] },
        ));
    }

    /// Lets the train at place `train` pick its next target with the draw
    /// `draw`.
    ///
    /// The train looks for an input when it is more than half full, else for
    /// an output, in either case for one of its resource. Among all such
    /// ports of the world it takes the one at place `draw` modulo their
    /// number. It takes the port as its target only if a route leads there
    /// from the node that its head moves towards; else it stays as it is.
    pub fn retarget(&mut self, train: usize, draw: u64)
        requires
            old(self).wf(),
            train < old(self).trains.len(),
        ensures
            final(self).wf(),
            final(self).keeps_ground(old(self)),
            final(self).factories == old(self).factories,
            final(self).trains_view() == old(self).trains_view().update(
                train as int,
                retargeted(
                    old(self).factories_view(),
                    old(self).trains_view()[train as int],
                    &old(self).tracks,
                    draw,
                ),
            ),
    {
        let ghost factories = self.factories_view();
        let ghost trains = self.trains_view();
        let ghost before = trains[train as int];
        assert(before == self.trains[train as int]@);
        assert(before.wf(&self.tracks));
        let ty = self.trains[train].looks_for();
        let found = self.candidates(ty, self.trains[train].resource);
        if found.len() > 0 {
            let pick = found[(draw % found.len() as u64) as usize];
            proof {
                assert forall|at: int| 0 <= at < factories.len() implies (
                #[trigger] factories[at]).io.len() <= usize::MAX by {
                    assert(factories[at] == self.factories[at]@);
                    assert(self.factories[at].io@.len() == self.factories[at].io.len());
                }
                let at = lemma_candidates(
                    factories,
                    ty,
                    before.resource,
                    factories.len(),
                    draw as int % found.len() as int,
                );
                lemma_factory_place(factories, at);
                assert(is_port(factories, pick));
                assert(factories[at] == self.factories[at]@);
            }
            let place = self.find_factory(pick.factory);
            let k = place.unwrap();
            assert(factories[k as int] == self.factories[k as int]@);
            let node = self.factories[k].io[pick.io].node;
            assert(self.tracks.contains(factories[k as int].io[pick.io as int].node));
            let from = self.trains[train].head.to;
            let route = self.tracks.pathfind(from, node);
            self.trains[train].head_for(pick, route);
        }
        assert(self.trains_view() =~= trains.update(
            train as int,
            retargeted(factories, before, &self.tracks, draw),
        ));
    }

    /// The turn of the train at place `train` in a tick of length `dt`. A
    /// train under way does nothing. Any other train is served at its target
    /// and then, if it departs, picks its next target with the draw `draw`.
    pub fn take_turn(&mut self, train: usize, dt: u64, draw: u64)
        requires
            old(self).wf(),
            train < old(self).trains.len(),
        ensures
            final(self).wf(),
            final(self).keeps_ground(old(self)),
            final(self).factories_view() == turn(
                old(self).factories_view(),
                old(self).trains_view()[train as int],
                &old(self).tracks,
                old(self).config.train_load_speed,
                dt,
                draw,
            ).factories,
            final(self).trains_view() == old(self).trains_view().update(
                train as int,
                turn(
                    old(self).factories_view(),
                    old(self).trains_view()[train as int],
                    &old(self).tracks,
                    old(self).config.train_load_speed,
                    dt,
                    draw,
                ).train,
            ),
    {
        let ghost trains = self.trains_view();
        assert(trains[train as int] == self.trains[train as int]@);
        if self.trains[train].path.is_some() {
            assert(trains =~= trains.update(train as int, trains[train as int]));
            return ;
        }
        if self.serve(train, dt) {
            self.retarget(train, draw);
            assert(self.trains_view() =~= trains.update(
                train as int,
                self.trains_view()[train as int],
            ));
        }
    }

    /// Gives every train its turn in a tick of length `dt`, one after the
    /// other in the order of the list. The train at place `i` picks with the
    /// draw at place `i` of `draws`, or with zero where `draws` is too short.
    pub fn run_trains(&mut self, dt: u64, draws: &Vec<u64>)
        requires
            old(self).wf(),
        ensures
            final(self).wf(),
            final(self).keeps_ground(old(self)),
            final(self).factories_view() == scheduled(
                old(self).factories_view(),
                old(self).trains_view(),
                &old(self).tracks,
                old(self).config.train_load_speed,
                dt,
                draws@,
            ).factories,
            final(self).trains_view() == scheduled(
                old(self).factories_view(),
                old(self).trains_view(),
                &old(self).tracks,
                old(self).config.train_load_speed,
                dt,
                draws@,
            ).trains,
    {
        let ghost factories = self.factories_view();
        let ghost trains = self.trains_view();
        let mut i: usize = 0;
        while i < self.trains.len()
            invariant
                i <= self.trains.len(),
                self.trains.len() == trains.len(),
                self.wf(),
                self.keeps_ground(old(self)),
                factories == old(self).factories_view(),
                trains == old(self).trains_view(),
                self.factories_view() == scheduled_upto(
                    factories,
                    trains,
                    &self.tracks,
                    self.config.train_load_speed,
                    dt,
                    draws@,
                    i as nat,
                ).factories,
                self.trains_view() == scheduled_upto(
                    factories,
                    trains,
                    &self.tracks,
                    self.config.train_load_speed,
                    dt,
                    draws@,
                    i as nat,
                ).trains,
            decreases self.trains.len() - i,
        {
            let draw = if i < draws.len() {
                draws[i]
            } else {
                0
            };
            self.take_turn(i, dt, draw);
            assert(self.trains_view().len() == trains.len());
            i += 1;
        }
    }
}

} // verus!
