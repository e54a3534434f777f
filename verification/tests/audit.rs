use std::collections::VecDeque;
use tracktorio::editor::{Drawing, Hover};
use tracktorio::factory::{FactoryIoConfig, FactoryType, FactoryTypes, IoType};
use tracktorio::geometry::Point;
use tracktorio::ids::Id;
use tracktorio::resources::Resource;
use tracktorio::tracks::{TrackNode, TrackPoint};
use tracktorio::train::IoId;
use tracktorio::world::{Config, World};

fn p(x: i32, y: i32) -> Point {
    Point { x, y }
}

fn io(ty: IoType, resource: &str, rate: Option<u64>) -> FactoryIoConfig {
    FactoryIoConfig { ty, resource: resource.to_string(), rate }
}

fn catalogue() -> FactoryTypes {
    FactoryTypes {
        factory: vec![
            FactoryType {
                name: "mine".to_string(),
                radius: 5,
                io: vec![io(IoType::Output, "ore", Some(2))],
                color: 0,
            },
            FactoryType {
                name: "smelter".to_string(),
                radius: 5,
                io: vec![io(IoType::Input, "ore", Some(1)), io(IoType::Output, "metal", None)],
                color: 0,
            },
        ],
    }
}

/// A mine and a smelter joined by track, with a train on its way from the
/// mine to the smelter and a train at rest at the mine.
fn world() -> World {
    let mut world = World::new(
        Config { train_speed: 10, train_load_speed: 5, train_length: 3, train_capacity: 10 },
        catalogue(),
    );
    world.spawn_factory(p(0, 0), &vec![p(5, 0)], 0);
    world.spawn_factory(p(100, 0), &vec![p(95, 0), p(105, 0)], 1);
    let mine_port = world.factories[0].io[0].node;
    let smelter_in = world.factories[1].io[0].node;
    let smelter_out = world.factories[1].io[1].node;
    world.connect_nodes(mine_port, smelter_in);
    world.connect_nodes(smelter_in, smelter_out);
    world.spawn_train_with(0, 0);
    world.spawn_train_with(0, 0);
    world.trains[0].amount = 10;
    world.tick_with(1, &vec![0, 0]);
    world
}

/// Whether breaking the world in the way of `spoil` is found out.
fn found_out(spoil: fn(&mut World)) -> bool {
    let mut broken = world();
    assert!(broken.is_wf());
    spoil(&mut broken);
    !broken.is_wf()
}

#[test]
fn worlds_made_by_the_library_are_well_formed() {
    let mut world = World::new(
        Config { train_speed: 7, train_load_speed: 3, train_length: 20, train_capacity: 10 },
        catalogue(),
    );
    assert!(world.is_wf());
    world.spawn_factory(p(0, 0), &vec![p(5, 0)], 0);
    assert!(world.is_wf());
    world.spawn_factory(p(100, 0), &vec![p(95, 0), p(105, 0)], 1);
    assert!(world.is_wf());
    world.spawn_factory(p(50, 50), &vec![p(45, 50)], 0);
    assert!(world.is_wf());
    let nodes: Vec<Id> = world.tracks.nodes.iter().map(|node| node.id).collect();
    world.connect_nodes(nodes[0], nodes[1]);
    world.connect_nodes(nodes[1], nodes[3]);
    assert!(world.is_wf());
    let next = world.lay_track(Drawing::FromNode { id: nodes[3] }, Hover::Nothing { pos: p(70, 70) });
    world.lay_track(next, Hover::TrackNode { id: nodes[2] });
    assert!(world.is_wf());
    for i in 0..4u64 {
        world.spawn_train_with(i, 2 * i + 1);
        assert!(world.is_wf());
    }
    for tick in 0..400u64 {
        world.tick_with(tick % 5, &vec![tick, tick / 2, tick / 3, tick / 5]);
        assert!(world.is_wf());
    }
    assert!(world.trains.iter().any(|train| !train.tail_nodes.is_empty()));
    assert!(world.trains.iter().any(|train| train.target.is_some()));
    for _ in 0..100 {
        world.tick(3);
        assert!(world.is_wf());
    }
    world.cancel(1);
    assert!(world.is_wf());
}

#[test]
fn parts_of_a_well_formed_world_are_well_formed() {
    let world = world();
    assert!(world.tracks.is_wf());
    assert!(world.tracks.is_below(world.id_gen.next));
    assert!(!world.tracks.is_below(world.tracks.nodes[2].id.0));
    assert!(world.resources.is_wf());
    assert!(world.resources.is_below(world.id_gen.next));
    assert!(!world.resources.is_below(world.resources.items[1].id.0));
    assert!(world.resources.carries(world.resources.items[1].id));
    assert!(!world.resources.carries(Id(1000)));
    for train in &world.trains {
        assert!(train.is_wf(&world.tracks));
    }
    let smelter_in = world.factories[1].io[0].node;
    let mine_port = world.factories[0].io[0].node;
    assert!(world.trains[0].is_bound_for(&world.tracks, smelter_in));
    assert!(!world.trains[0].is_bound_for(&world.tracks, mine_port));
    assert!(world.trains[1].is_bound_for(&world.tracks, mine_port));
    assert!(!world.trains[1].is_bound_for(&world.tracks, smelter_in));
    assert!(world.tracks.is_connected(mine_port, smelter_in));
    assert!(world.tracks.is_connected(smelter_in, mine_port));
    assert!(!world.tracks.is_connected(mine_port, world.factories[1].io[1].node));
    assert!(!world.tracks.is_connected(Id(1000), mine_port));
}

#[test]
fn broken_graphs_are_found_out() {
    assert!(found_out(|w| w.tracks.nodes.swap(0, 1)));
    assert!(found_out(|w| w.tracks.nodes[1].id = w.tracks.nodes[0].id));
    assert!(found_out(|w| {
        let again = w.tracks.nodes[1].connections[0];
        w.tracks.nodes[1].connections.push(again)
    }));
    assert!(found_out(|w| {
        w.tracks.nodes[0].connections.clear();
    }));
    assert!(found_out(|w| {
        let own = w.tracks.nodes[2].id;
        w.tracks.nodes[2].connections.push(own)
    }));
    assert!(found_out(|w| w.tracks.nodes[2].connections.push(Id(1000))));
    assert!(found_out(|w| w.tracks.nodes[2].id = Id(w.id_gen.next)));
    assert!(found_out(|w| w.id_gen.next = 3));
    assert!(found_out(|w| {
        w.tracks.nodes.push(TrackNode { id: Id(2), pos: p(0, 0), connections: vec![] })
    }));
}

#[test]
fn broken_registries_are_found_out() {
    assert!(found_out(|w| w.resources.items[1].name = "ore".to_string()));
    assert!(found_out(|w| w.resources.items.swap(0, 1)));
    assert!(found_out(|w| w.resources.items[1].id = Id(w.id_gen.next)));
    assert!(found_out(|w| {
        w.resources.items.push(Resource { id: Id(0), name: "coal".to_string() })
    }));
    assert!(found_out(|w| {
        w.resources.items.pop();
    }));
}

#[test]
fn broken_factories_are_found_out() {
    assert!(found_out(|w| w.factories.swap(0, 1)));
    assert!(found_out(|w| w.factories[1].id = Id(w.id_gen.next)));
    assert!(found_out(|w| w.factories[1].io[0].node = Id(1000)));
    assert!(found_out(|w| w.factories[1].ty = 2));
    assert!(found_out(|w| w.factories[1].ty = 0));
    assert!(found_out(|w| {
        w.factories[1].io.pop();
    }));
    assert!(found_out(|w| w.factories[1].io[0].ty = IoType::Output));
    assert!(found_out(|w| w.factories[1].io[0].amount = None));
    assert!(found_out(|w| w.factories[1].io[1].amount = Some(0)));
    assert!(found_out(|w| w.factories[1].io[1].resource = w.factories[1].io[0].resource));
    assert!(found_out(|w| w.factories[0].io[0].resource = Id(1000)));
    assert!(found_out(|w| w.factory_types.factory[0].io[0].resource = "coal".to_string()));
    assert!(found_out(|w| w.factory_types.factory[0].io[0].rate = None));
    assert!(found_out(|w| {
        w.factory_types.factory.pop();
    }));
}

#[test]
fn broken_trains_are_found_out() {
    assert!(found_out(|w| w.trains[0].amount = 11));
    assert!(found_out(|w| w.trains[0].capacity = 9));
    assert!(found_out(|w| w.trains[0].head.from = Id(1000)));
    assert!(found_out(|w| w.trains[0].head.to = Id(1000)));
    assert!(found_out(|w| w.trains[1].head.from = w.factories[1].io[1].node));
    assert!(found_out(|w| w.trains[0].head.progress = 91));
    assert!(found_out(|w| w.trains[1].head.progress = 1));
    assert!(found_out(|w| w.trains[0].tail_nodes = VecDeque::from(vec![Id(1000)])));
    assert!(found_out(|w| w.trains[0].path = Some(vec![Id(1000)])));
    assert!(found_out(|w| w.trains[0].path = Some(vec![w.factories[0].io[0].node])));
    assert!(found_out(|w| {
        w.trains[0].path = Some(vec![w.factories[1].io[1].node, w.factories[0].io[0].node])
    }));
    assert!(found_out(|w| w.trains[1].id = Id(w.id_gen.next)));
    assert!(found_out(|w| w.trains.swap(0, 1)));
    assert!(found_out(|w| w.trains[1].id = w.trains[0].id));
    assert!(found_out(|w| w.trains[0].resource = Id(1000)));
    assert!(found_out(|w| w.trains[0].target = Some(IoId { factory: Id(1000), io: 0 })));
    assert!(found_out(|w| {
        w.trains[0].target = Some(IoId { factory: w.factories[1].id, io: 2 })
    }));
    assert!(found_out(|w| {
        w.trains[0].target = Some(IoId { factory: w.factories[0].id, io: 0 })
    }));
    assert!(found_out(|w| w.trains[0].path = Some(vec![w.factories[1].io[1].node])));
    assert!(found_out(|w| w.trains[0].path = None));
    assert!(found_out(|w| {
        w.trains[1].target = Some(IoId { factory: w.factories[1].id, io: 0 })
    }));
    assert!(found_out(|w| {
        w.trains[1].head =
            TrackPoint { from: w.factories[0].io[0].node, to: w.factories[1].io[0].node, progress: 5 }
    }));
}

#[test]
fn harmless_changes_keep_a_world_well_formed() {
    assert!(!found_out(|w| w.trains[0].amount = 3));
    assert!(!found_out(|w| w.trains[0].length = 0));
    assert!(!found_out(|w| w.trains[1].target = None));
    assert!(!found_out(|w| w.trains[0].tail_nodes.clear()));
    assert!(!found_out(|w| w.trains[0].head.progress = 90));
    assert!(!found_out(|w| w.factories[0].io[0].amount = Some(u64::MAX)));
    assert!(!found_out(|w| w.factories[1].pos = p(1, 1)));
    assert!(!found_out(|w| w.tracks.nodes[0].pos = p(5, 1)));
    assert!(!found_out(|w| w.id_gen.next = u64::MAX));
    assert!(!found_out(|w| w.config.train_capacity = 0));
    assert!(!found_out(|w| w.trains[0].head.from = w.factories[1].io[1].node));
    assert!(!found_out(|w| {
        w.trains[0].target = None;
        w.trains[0].path = Some(vec![w.factories[1].io[1].node])
    }));
    assert!(found_out(|w| {
        w.trains[0].target = None;
        w.trains[0].path = Some(vec![w.factories[1].io[0].node, w.factories[1].io[1].node])
    }));
}
