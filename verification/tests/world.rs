use std::collections::VecDeque;
use tracktorio::factory::{FactoryIo, FactoryIoConfig, FactoryType, FactoryTypes, IoType};
use tracktorio::geometry::Point;
use tracktorio::ids::Id;
use tracktorio::resources::Resource;
use tracktorio::tracks::TrackPoint;
use tracktorio::train::{IoId, Train};
use tracktorio::world::{Config, World};

fn p(x: i32, y: i32) -> Point {
    Point { x, y }
}

fn io(ty: IoType, resource: &str, rate: Option<u64>) -> FactoryIoConfig {
    FactoryIoConfig { ty, resource: resource.to_string(), rate }
}

fn catalogue() -> FactoryTypes {
    FactoryTypes {
        factory: vec![
            FactoryType {
                name: "mine".to_string(),
                radius: 5,
                io: vec![io(IoType::Output, "ore", Some(2))],
                color: 0x808080ff,
            },
            FactoryType {
                name: "smelter".to_string(),
                radius: 5,
                io: vec![io(IoType::Input, "ore", Some(1)), io(IoType::Output, "metal", Some(1))],
                color: 0xff8000ff,
            },
            FactoryType { name: "ruin".to_string(), radius: 3, io: vec![], color: 0 },
            FactoryType {
                name: "depot".to_string(),
                radius: 4,
                io: vec![io(IoType::Input, "metal", None), io(IoType::Input, "ore", None)],
                color: 0x0000ffff,
            },
        ],
    }
}

fn config() -> Config {
    Config { train_speed: 10, train_load_speed: 5, train_length: 3, train_capacity: 10 }
}

/// A mine at the origin and a smelter to the east, with track from the
/// mine's port to the smelter's input.
fn mine_and_smelter() -> World {
    let mut world = World::new(config(), catalogue());
    world.spawn_factory(p(0, 0), &vec![p(5, 0)], 0);
    world.spawn_factory(p(100, 0), &vec![p(95, 0), p(105, 0)], 1);
    let mine_port = world.factories[0].io[0].node;
    let smelter_in = world.factories[1].io[0].node;
    world.connect_nodes(mine_port, smelter_in);
    world
}

#[test]
fn new_world_is_empty() {
    let world = World::new(config(), catalogue());
    assert_eq!(world.id_gen.next, 0);
    assert_eq!(world.config, config());
    assert_eq!(world.factory_types, catalogue());
    assert!(world.tracks.nodes.is_empty());
    assert!(world.trains.is_empty());
    assert!(world.resources.items.is_empty());
    assert!(world.factories.is_empty());
}

#[test]
fn spawned_factory_has_a_node_for_each_port() {
    let mut world = World::new(config(), catalogue());
    world.spawn_factory(p(100, 0), &vec![p(95, 0), p(105, 0)], 1);
    assert_eq!(world.factories.len(), 1);
    let factory = &world.factories[0];
    assert_eq!(factory.id, Id(0));
    assert_eq!(factory.ty, 1);
    assert_eq!(factory.pos, p(100, 0));
    assert_eq!(
        factory.io,
        vec![
            FactoryIo {
                ty: IoType::Input,
                node: Id(1),
                resource: Id(2),
                amount: Some(0),
                pos: p(95, 0)
            },
            FactoryIo {
                ty: IoType::Output,
                node: Id(3),
                resource: Id(4),
                amount: Some(0),
                pos: p(105, 0)
            },
        ]
    );
    assert_eq!(world.id_gen.next, 5);
    assert_eq!(world.tracks.nodes.len(), 2);
    assert_eq!(world.tracks.nodes[0].id, Id(1));
    assert_eq!(world.tracks.nodes[0].pos, p(95, 0));
    assert!(world.tracks.nodes[0].connections.is_empty());
    assert_eq!(world.tracks.nodes[1].id, Id(3));
    assert_eq!(world.tracks.nodes[1].pos, p(105, 0));
    assert!(world.tracks.nodes[1].connections.is_empty());
    assert_eq!(
        world.resources.items,
        vec![
            Resource { id: Id(2), name: "ore".to_string() },
            Resource { id: Id(4), name: "metal".to_string() },
        ]
    );
}

#[test]
fn factories_share_the_resources_they_name() {
    let world = mine_and_smelter();
    assert_eq!(world.resources.items.len(), 2);
    let ore = world.factories[0].io[0].resource;
    assert_eq!(world.factories[1].io[0].resource, ore);
    assert_ne!(world.factories[1].io[1].resource, ore);
    // The mine took three identifiers, the smelter one for itself, two for
    // its nodes and one for metal.
    assert_eq!(world.factories[1].id, Id(3));
    assert_eq!(world.id_gen.next, 7);
}

#[test]
fn ports_without_a_rate_have_no_buffer() {
    let mut world = World::new(config(), catalogue());
    world.spawn_factory(p(0, 0), &vec![p(4, 0), p(-4, 0)], 3);
    assert_eq!(world.factories[0].io[0].amount, None);
    assert_eq!(world.factories[0].io[1].amount, None);
    assert_eq!(world.factories[0].io[0].ty, IoType::Input);
    assert_eq!(world.tracks.nodes.len(), 2);
}

#[test]
fn factory_type_without_ports_gives_a_factory_without_ports() {
    let mut world = World::new(config(), catalogue());
    world.spawn_factory(p(1, 2), &vec![], 2);
    assert_eq!(world.factories.len(), 1);
    assert!(world.factories[0].io.is_empty());
    assert_eq!(world.factories[0].id, Id(0));
    assert_eq!(world.id_gen.next, 1);
    assert!(world.tracks.nodes.is_empty());
    assert!(world.resources.items.is_empty());
}

#[test]
fn unknown_factory_type_spawns_nothing() {
    let mut world = mine_and_smelter();
    let before = world.clone();
    world.spawn_factory(p(0, 0), &vec![p(5, 0)], 4);
    assert_eq!(world, before);
    world.spawn_factory(p(0, 0), &vec![], usize::MAX);
    assert_eq!(world, before);
}

#[test]
fn wrong_number_of_port_positions_spawns_nothing() {
    let mut world = mine_and_smelter();
    let before = world.clone();
    world.spawn_factory(p(0, 0), &vec![], 0);
    assert_eq!(world, before);
    world.spawn_factory(p(0, 0), &vec![p(1, 1), p(2, 2), p(3, 3)], 1);
    assert_eq!(world, before);
}

#[test]
fn no_train_without_a_resource_or_a_node() {
    let mut world = World::new(config(), catalogue());
    world.spawn_train_with(0, 0);
    assert!(world.trains.is_empty());
    world.create_node(p(0, 0));
    let before = world.clone();
    world.spawn_train_with(0, 0);
    assert_eq!(world, before);
    world.spawn_train();
    assert_eq!(world, before);
}

#[test]
fn spawned_train_is_empty_and_at_rest() {
    let mut world = mine_and_smelter();
    let next = world.id_gen.next;
    world.spawn_train_with(7, 5);
    assert_eq!(world.id_gen.next, next + 1);
    assert_eq!(
        world.trains,
        vec![Train {
            id: Id(next),
            resource: world.resources.items[1].id,
            amount: 0,
            capacity: 10,
            length: 3,
            head: TrackPoint {
                from: world.tracks.nodes[2].id,
                to: world.tracks.nodes[2].id,
                progress: 0
            },
            tail_nodes: VecDeque::new(),
            path: None,
            target: None,
        }]
    );
}

#[test]
fn train_spawned_by_chance_is_one_of_those_that_can_be() {
    for _ in 0..20 {
        let mut world = mine_and_smelter();
        let next = world.id_gen.next;
        world.spawn_train();
        assert_eq!(world.trains.len(), 1);
        let train = &world.trains[0];
        assert_eq!(train.id, Id(next));
        assert!(world.resources.items.iter().any(|r| r.id == train.resource));
        assert!(world.tracks.nodes.iter().any(|n| n.id == train.head.to));
        assert_eq!(train.head.from, train.head.to);
        assert_eq!(train.head.progress, 0);
        assert_eq!(train.amount, 0);
        assert_eq!(train.capacity, 10);
        assert_eq!(train.length, 3);
        assert_eq!(train.path, None);
        assert_eq!(train.target, None);
    }
}

#[test]
fn created_nodes_can_be_connected() {
    let mut world = World::new(config(), catalogue());
    let a = world.create_node(p(0, 0));
    let b = world.create_node(p(10, 0));
    assert_eq!(a, Id(0));
    assert_eq!(b, Id(1));
    world.connect_nodes(a, b);
    assert_eq!(world.tracks.nodes[0].connections, vec![b]);
    assert_eq!(world.tracks.nodes[1].connections, vec![a]);
    assert_eq!(world.tracks.nearest_node(p(9, 9)), Some(b));
}

#[test]
fn starved_smelter_does_not_run() {
    let mut world = World::new(config(), catalogue());
    world.spawn_factory(p(0, 0), &vec![p(-5, 0), p(5, 0)], 1);
    world.tick_with(2, &vec![]);
    assert_eq!(world.factories[0].io[0].amount, Some(0));
    assert_eq!(world.factories[0].io[1].amount, Some(0));
}

#[test]
fn factories_run_each_tick() {
    let mut world = mine_and_smelter();
    world.factories[1].io[0].amount = Some(5);
    assert!(world.is_wf());
    world.tick_with(3, &vec![]);
    assert_eq!(world.factories[0].io[0].amount, Some(6));
    assert_eq!(world.factories[1].io[0].amount, Some(2));
    assert_eq!(world.factories[1].io[1].amount, Some(3));
    world.run_factories(3);
    assert_eq!(world.factories[0].io[0].amount, Some(12));
    assert_eq!(world.factories[1].io[0].amount, Some(0));
    assert_eq!(world.factories[1].io[1].amount, Some(5));
}

#[test]
fn candidates_are_the_ports_of_a_direction_and_a_resource() {
    let mut world = mine_and_smelter();
    world.spawn_factory(p(0, 50), &vec![p(5, 50)], 0);
    world.spawn_factory(p(0, 90), &vec![p(4, 90), p(-4, 90)], 3);
    let ore = world.resources.items[0].id;
    let metal = world.resources.items[1].id;
    let ids: Vec<Id> = world.factories.iter().map(|f| f.id).collect();
    assert_eq!(
        world.candidates(IoType::Output, ore),
        vec![IoId { factory: ids[0], io: 0 }, IoId { factory: ids[2], io: 0 }]
    );
    assert_eq!(
        world.candidates(IoType::Input, ore),
        vec![IoId { factory: ids[1], io: 0 }, IoId { factory: ids[3], io: 1 }]
    );
    assert_eq!(world.candidates(IoType::Output, metal), vec![IoId { factory: ids[1], io: 1 }]);
    assert_eq!(world.candidates(IoType::Input, metal), vec![IoId { factory: ids[3], io: 0 }]);
    assert_eq!(world.candidates(IoType::Input, Id(1000)), vec![]);
}

#[test]
fn find_factory_gives_its_place() {
    let world = mine_and_smelter();
    assert_eq!(world.find_factory(world.factories[0].id), Some(0));
    assert_eq!(world.find_factory(world.factories[1].id), Some(1));
    assert_eq!(world.find_factory(Id(1000)), None);
}

#[test]
fn train_loads_what_the_port_holds() {
    let mut world = mine_and_smelter();
    world.config.train_load_speed = 5;
    world.spawn_train_with(0, 0);
    world.trains[0].target = Some(IoId { factory: world.factories[0].id, io: 0 });
    world.factories[0].io[0].amount = Some(3);
    assert!(world.is_wf());
    let leaves = world.serve(0, 1);
    assert_eq!(world.trains[0].amount, 3);
    assert_eq!(world.factories[0].io[0].amount, Some(0));
    assert!(!leaves);
    assert_eq!(world.trains[0].target, Some(IoId { factory: world.factories[0].id, io: 0 }));
    assert_eq!(world.trains[0].path, None);
}

#[test]
fn train_without_a_target_departs_at_once() {
    let mut world = mine_and_smelter();
    world.spawn_train_with(0, 0);
    let before = world.clone();
    assert!(world.serve(0, 1));
    assert_eq!(world, before);
}

#[test]
fn train_picks_the_port_that_the_draw_names() {
    let mut world = mine_and_smelter();
    world.spawn_factory(p(0, 50), &vec![p(5, 50)], 0);
    let first = world.factories[0].io[0].node;
    let second = world.factories[2].io[0].node;
    let smelter_in = world.factories[1].io[0].node;
    world.connect_nodes(second, smelter_in);
    for draw in 0..6u64 {
        let mut w = world.clone();
        w.spawn_train_with(0, 1);
        assert_eq!(w.trains[0].head.to, smelter_in);
        assert!(w.is_wf());
        w.retarget(0, draw);
        if draw % 2 == 0 {
            assert_eq!(w.trains[0].target, Some(IoId { factory: w.factories[0].id, io: 0 }));
            assert_eq!(w.trains[0].path, Some(vec![first]));
        } else {
            assert_eq!(w.trains[0].target, Some(IoId { factory: w.factories[2].id, io: 0 }));
            assert_eq!(w.trains[0].path, Some(vec![second]));
        }
    }
}

#[test]
fn train_keeps_its_state_where_no_route_leads_to_the_port() {
    let mut world = World::new(config(), catalogue());
    world.spawn_factory(p(0, 0), &vec![p(5, 0)], 0);
    world.spawn_factory(p(100, 0), &vec![p(95, 0), p(105, 0)], 1);
    world.spawn_train_with(0, 1);
    let before = world.clone();
    assert!(world.is_wf());
    world.retarget(0, 0);
    assert_eq!(world, before);
    world.tick_with(0, &vec![0]);
    assert_eq!(world, before);
}

#[test]
fn train_keeps_its_state_where_no_port_matches() {
    let mut world = World::new(config(), catalogue());
    world.spawn_factory(p(100, 0), &vec![p(95, 0), p(105, 0)], 1);
    world.spawn_train_with(0, 0);
    assert_eq!(world.candidates(IoType::Output, world.trains[0].resource), vec![]);
    let before = world.clone();
    assert!(world.is_wf());
    world.retarget(0, 3);
    assert_eq!(world, before);
}

#[test]
fn train_under_way_has_no_turn() {
    let mut world = mine_and_smelter();
    world.spawn_train_with(0, 0);
    world.trains[0].amount = 4;
    world.trains[0].target = Some(IoId { factory: world.factories[1].id, io: 0 });
    world.trains[0].path = Some(vec![world.factories[1].io[0].node]);
    world.factories[1].io[0].amount = Some(3);
    let before = world.clone();
    assert!(world.is_wf());
    world.take_turn(0, 1, 0);
    assert_eq!(world, before);
}

#[test]
fn train_shuttles_between_mine_and_smelter() {
    let mut world = mine_and_smelter();
    let mine_port = world.factories[0].io[0].node;
    let smelter_in = world.factories[1].io[0].node;
    let at_mine = IoId { factory: world.factories[0].id, io: 0 };
    let at_smelter = IoId { factory: world.factories[1].id, io: 0 };
    world.spawn_train_with(0, 0);
    assert_eq!(world.trains[0].head.to, mine_port);
    let draws = vec![0];

    // The train picks the mine, where it stands.
    world.tick_with(1, &draws);
    assert_eq!(world.factories[0].io[0].amount, Some(2));
    assert_eq!(world.trains[0].target, Some(at_mine));
    assert_eq!(world.trains[0].path, None);
    assert_eq!(world.trains[0].head, TrackPoint { from: mine_port, to: mine_port, progress: 0 });

    // It loads what the mine gives, tick by tick.
    world.tick_with(1, &draws);
    assert_eq!(world.trains[0].amount, 4);
    assert_eq!(world.factories[0].io[0].amount, Some(0));
    world.tick_with(1, &draws);
    assert_eq!(world.trains[0].amount, 6);
    world.tick_with(1, &draws);
    assert_eq!(world.trains[0].amount, 8);
    assert_eq!(world.trains[0].target, Some(at_mine));
    assert_eq!(world.trains[0].path, None);

    // Full, it leaves for the smelter at once.
    world.tick_with(1, &draws);
    assert_eq!(world.trains[0].amount, 10);
    assert_eq!(world.factories[0].io[0].amount, Some(0));
    assert_eq!(world.trains[0].target, Some(at_smelter));
    assert_eq!(world.trains[0].path, Some(vec![]));
    assert_eq!(world.trains[0].head, TrackPoint { from: mine_port, to: smelter_in, progress: 10 });
    assert_eq!(world.trains[0].tail_nodes, VecDeque::from(vec![mine_port]));

    for tick in 2..9u64 {
        world.tick_with(1, &draws);
        assert_eq!(
            world.trains[0].head,
            TrackPoint { from: mine_port, to: smelter_in, progress: 10 * tick }
        );
        assert_eq!(world.trains[0].path, Some(vec![]));
        assert_eq!(world.trains[0].amount, 10);
    }
    world.tick_with(1, &draws);
    assert_eq!(world.trains[0].head, TrackPoint { from: mine_port, to: smelter_in, progress: 90 });
    assert_eq!(world.trains[0].path, None);
    assert_eq!(world.factories[1].io[0].amount, Some(0));

    // It unloads, and the smelter starts to run.
    world.tick_with(1, &draws);
    assert_eq!(world.trains[0].amount, 5);
    assert_eq!(world.factories[1].io[0].amount, Some(5));
    assert_eq!(world.factories[1].io[1].amount, Some(0));
    world.tick_with(1, &draws);
    assert_eq!(world.trains[0].amount, 0);
    assert_eq!(world.factories[1].io[0].amount, Some(9));
    assert_eq!(world.factories[1].io[1].amount, Some(1));

    // Empty, it heads back to the mine.
    assert_eq!(world.trains[0].target, Some(at_mine));
    assert_eq!(world.trains[0].head, TrackPoint { from: smelter_in, to: mine_port, progress: 10 });
    assert_eq!(world.trains[0].tail_nodes, VecDeque::from(vec![smelter_in]));
}

#[test]
fn same_ticks_with_same_draws_give_the_same_world() {
    let mut one = mine_and_smelter();
    one.spawn_factory(p(0, 50), &vec![p(5, 50)], 0);
    let second = one.factories[2].io[0].node;
    let smelter_in = one.factories[1].io[0].node;
    one.connect_nodes(second, smelter_in);
    one.spawn_train_with(0, 0);
    one.spawn_train_with(0, 3);
    one.spawn_train_with(1, 2);
    let mut two = one.clone();
    for tick in 0..200u64 {
        let draws = vec![tick * 7 + 1, tick * 13 + 5, tick];
        let dt = tick % 3;
        one.tick_with(dt, &draws);
        two.tick_with(dt, &draws);
        assert_eq!(one, two);
    }
    assert!(one.trains.iter().any(|train| train.amount > 0 || train.target.is_some()));
}

#[test]
fn cargo_stays_within_the_capacity() {
    let mut world = mine_and_smelter();
    world.spawn_factory(p(0, 50), &vec![p(5, 50)], 0);
    world.spawn_factory(p(50, 90), &vec![p(54, 90), p(46, 90)], 3);
    let nodes: Vec<Id> = world.tracks.nodes.iter().map(|n| n.id).collect();
    for i in 1..nodes.len() {
        world.connect_nodes(nodes[i - 1], nodes[i]);
    }
    for i in 0..5u64 {
        world.spawn_train_with(i, i * 3);
    }
    for tick in 0..300u64 {
        world.tick(1 + tick % 4);
        for train in &world.trains {
            assert!(train.amount <= train.capacity);
            assert_eq!(train.capacity, 10);
        }
    }
    assert!(world.trains.iter().any(|train| train.target.is_some()));
}

#[test]
fn tick_by_chance_is_a_tick_with_some_draws() {
    let mut world = mine_and_smelter();
    world.spawn_factory(p(0, 50), &vec![p(5, 50)], 0);
    let second = world.factories[2].io[0].node;
    let smelter_in = world.factories[1].io[0].node;
    world.connect_nodes(second, smelter_in);
    world.spawn_train_with(0, 1);
    for _ in 0..10 {
        let mut by_chance = world.clone();
        by_chance.tick(1);
        let mut first = world.clone();
        first.tick_with(1, &vec![0]);
        let mut other = world.clone();
        other.tick_with(1, &vec![1]);
        assert_ne!(first, other);
        assert!(by_chance == first || by_chance == other);
    }
}

#[test]
fn draws_that_are_missing_count_as_zero() {
    let mut world = mine_and_smelter();
    world.spawn_factory(p(0, 50), &vec![p(5, 50)], 0);
    world.spawn_train_with(0, 0);
    world.spawn_train_with(0, 0);
    let mut short = world.clone();
    short.tick_with(1, &vec![1]);
    let mut long = world.clone();
    long.tick_with(1, &vec![1, 0]);
    assert_eq!(short, long);
    let mut longer = world.clone();
    longer.tick_with(1, &vec![1, 0, 9, 9]);
    assert_eq!(short, longer);
}

#[test]
fn trains_move_at_their_speed() {
    let mut world = mine_and_smelter();
    world.config.train_speed = 7;
    world.spawn_train_with(0, 0);
    world.trains[0].path = Some(vec![world.factories[1].io[0].node]);
    assert!(world.is_wf());
    world.move_trains(3);
    assert_eq!(world.trains[0].head.progress, 3);
    world.tick_with(2, &vec![]);
    assert_eq!(world.trains[0].head.progress, 17);
    world.config.train_speed = u64::MAX;
    world.tick_with(u64::MAX, &vec![]);
    assert_eq!(world.trains[0].head.progress, 90);
    assert_eq!(world.trains[0].path, None);
}

#[test]
fn cancelled_train_picks_a_target_anew() {
    let mut world = mine_and_smelter();
    let mine_port = world.factories[0].io[0].node;
    let smelter_in = world.factories[1].io[0].node;
    world.spawn_train_with(0, 0);
    world.trains[0].amount = 10;
    world.tick_with(1, &vec![0]);
    assert_eq!(world.trains[0].head, TrackPoint { from: mine_port, to: smelter_in, progress: 10 });
    assert!(world.trains[0].target.is_some());
    let others = world.clone();
    assert!(world.is_wf());
    world.cancel(0);
    assert_eq!(world.trains[0].path, None);
    assert_eq!(world.trains[0].target, None);
    assert_eq!(world.trains[0].amount, 10);
    assert_eq!(world.trains[0].head, others.trains[0].head);
    assert_eq!(world.factories, others.factories);
    assert_eq!(world.tracks, others.tracks);
    world.tick_with(1, &vec![0]);
    assert_eq!(world.trains[0].target, Some(IoId { factory: world.factories[1].id, io: 0 }));
    assert_eq!(world.trains[0].head, TrackPoint { from: mine_port, to: smelter_in, progress: 20 });
    assert_eq!(world.trains[0].path, Some(vec![]));
}

#[test]
fn starved_factory_at_the_origin_does_not_run() {
    // Amounts count halves of a unit: the input takes one unit per unit of
    // time, the output gives half a unit.
    let types = FactoryTypes {
        factory: vec![FactoryType {
            name: "smelter".to_string(),
            radius: 5,
            io: vec![io(IoType::Input, "ore", Some(2)), io(IoType::Output, "metal", Some(1))],
            color: 0,
        }],
    };
    let mut world = World::new(config(), types);
    world.spawn_factory(p(0, 0), &vec![p(5, 0), p(-5, 0)], 0);
    assert_eq!(world.factories[0].io[0].amount, Some(0));
    assert_eq!(world.factories[0].io[1].amount, Some(0));
    world.tick_with(2, &vec![]);
    assert_eq!(world.factories[0].io[0].amount, Some(0));
    assert_eq!(world.factories[0].io[1].amount, Some(0));
    world.tick(2);
    assert_eq!(world.factories[0].io[0].amount, Some(0));
    assert_eq!(world.factories[0].io[1].amount, Some(0));
    world.factories[0].io[0].amount = Some(3);
    world.tick(2);
    assert_eq!(world.factories[0].io[0].amount, Some(1));
    assert_eq!(world.factories[0].io[1].amount, Some(1));
}

#[test]
fn trains_are_served_in_the_order_of_the_list() {
    let mut world = mine_and_smelter();
    world.spawn_train_with(0, 0);
    world.spawn_train_with(0, 0);
    let at_mine = IoId { factory: world.factories[0].id, io: 0 };
    world.trains[0].target = Some(at_mine);
    world.trains[1].target = Some(at_mine);
    world.factories[0].io[0].amount = Some(7);
    assert!(world.is_wf());
    let mut by_turns = world.clone();
    world.run_trains(1, &vec![0, 0]);
    assert_eq!(world.trains[0].amount, 5);
    assert_eq!(world.trains[1].amount, 2);
    assert_eq!(world.factories[0].io[0].amount, Some(0));
    by_turns.take_turn(0, 1, 0);
    by_turns.take_turn(1, 1, 0);
    assert_eq!(world, by_turns);
}

#[test]
fn tick_is_its_three_parts_in_turn() {
    let mut world = mine_and_smelter();
    world.spawn_train_with(0, 0);
    world.spawn_train_with(1, 2);
    world.trains[0].amount = 10;
    for tick in 0..40u64 {
        let draws = vec![tick, tick + 1];
        let mut by_parts = world.clone();
        world.tick_with(2, &draws);
        by_parts.run_factories(2);
        by_parts.run_trains(2, &draws);
        by_parts.move_trains(20);
        assert_eq!(world, by_parts);
    }
}
