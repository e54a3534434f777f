use tracktorio::factory::{Factory, FactoryIo, FactoryIoConfig, FactoryType, FactoryTypes, IoType};
use tracktorio::geometry::Point;
use tracktorio::ids::Id;

fn config(ty: IoType, resource: &str, rate: Option<u64>) -> FactoryIoConfig {
    FactoryIoConfig { ty, resource: resource.to_string(), rate }
}

fn factory_type(io: Vec<FactoryIoConfig>) -> FactoryType {
    FactoryType { name: "smelter".to_string(), radius: 5, io, color: 0xff8800ff }
}

fn port(ty: IoType, amount: Option<u64>) -> FactoryIo {
    FactoryIo { ty, node: Id(0), resource: Id(1), amount, pos: Point { x: 0, y: 0 } }
}

fn factory(io: Vec<FactoryIo>) -> Factory {
    Factory { id: Id(9), ty: 0, pos: Point { x: 0, y: 0 }, io }
}

fn amounts(factory: &Factory) -> Vec<Option<u64>> {
    factory.io.iter().map(|io| io.amount).collect()
}

#[test]
fn starved_input_stops_the_factory() {
    // Amounts in halves of a unit: the input takes one unit per unit of
    // time, the output gives half a unit.
    let ty = factory_type(vec![
        config(IoType::Input, "ore", Some(2)),
        config(IoType::Output, "metal", Some(1)),
    ]);
    let mut f = factory(vec![port(IoType::Input, Some(0)), port(IoType::Output, Some(0))]);
    f.flow(&ty, 2);
    assert_eq!(amounts(&f), vec![Some(0), Some(0)]);
}

#[test]
fn starved_input_leaves_a_filled_output_unchanged() {
    let ty = factory_type(vec![
        config(IoType::Input, "ore", Some(2)),
        config(IoType::Output, "metal", Some(1)),
    ]);
    let mut f = factory(vec![port(IoType::Input, Some(0)), port(IoType::Output, Some(7))]);
    f.flow(&ty, 2);
    assert_eq!(amounts(&f), vec![Some(0), Some(7)]);
}

#[test]
fn fed_factory_runs_for_the_whole_tick() {
    let ty = factory_type(vec![
        config(IoType::Input, "ore", Some(2)),
        config(IoType::Output, "metal", Some(1)),
    ]);
    let mut f = factory(vec![port(IoType::Input, Some(10)), port(IoType::Output, Some(0))]);
    f.flow(&ty, 3);
    assert_eq!(amounts(&f), vec![Some(4), Some(3)]);
}

#[test]
fn short_input_cuts_the_time_slice_for_all_ports() {
    let ty = factory_type(vec![
        config(IoType::Input, "ore", Some(2)),
        config(IoType::Input, "coal", Some(1)),
        config(IoType::Output, "steel", Some(3)),
    ]);
    let mut f = factory(vec![
        port(IoType::Input, Some(7)),
        port(IoType::Input, Some(100)),
        port(IoType::Output, Some(1)),
    ]);
    // The first input lasts for 7 / 2 = 3 units of time, not for 5.
    f.flow(&ty, 5);
    assert_eq!(amounts(&f), vec![Some(1), Some(97), Some(10)]);
}

#[test]
fn the_shortest_of_several_inputs_decides() {
    let ty = factory_type(vec![
        config(IoType::Input, "ore", Some(1)),
        config(IoType::Input, "coal", Some(4)),
        config(IoType::Output, "steel", Some(1)),
    ]);
    let mut f = factory(vec![
        port(IoType::Input, Some(50)),
        port(IoType::Input, Some(9)),
        port(IoType::Output, Some(0)),
    ]);
    f.flow(&ty, 10);
    assert_eq!(amounts(&f), vec![Some(48), Some(1), Some(2)]);
}

#[test]
fn inputs_never_fall_below_zero() {
    let ty = factory_type(vec![
        config(IoType::Input, "ore", Some(3)),
        config(IoType::Input, "coal", Some(5)),
        config(IoType::Output, "steel", Some(1)),
    ]);
    for ore in 0..20u64 {
        for coal in 0..20u64 {
            for dt in 0..6u64 {
                let mut f = factory(vec![
                    port(IoType::Input, Some(ore)),
                    port(IoType::Input, Some(coal)),
                    port(IoType::Output, Some(0)),
                ]);
                f.flow(&ty, dt);
                let slice = dt.min(ore / 3).min(coal / 5);
                assert_eq!(
                    amounts(&f),
                    vec![Some(ore - 3 * slice), Some(coal - 5 * slice), Some(slice)]
                );
            }
        }
    }
}

#[test]
fn tick_of_no_length_changes_nothing() {
    let ty = factory_type(vec![
        config(IoType::Input, "ore", Some(2)),
        config(IoType::Output, "metal", Some(1)),
    ]);
    let mut f = factory(vec![port(IoType::Input, Some(10)), port(IoType::Output, Some(4))]);
    f.flow(&ty, 0);
    assert_eq!(amounts(&f), vec![Some(10), Some(4)]);
}

#[test]
fn output_without_inputs_gains_for_the_whole_tick() {
    let ty = factory_type(vec![config(IoType::Output, "ore", Some(3))]);
    let mut f = factory(vec![port(IoType::Output, Some(1))]);
    f.flow(&ty, 4);
    assert_eq!(amounts(&f), vec![Some(13)]);
}

#[test]
fn ports_without_a_rate_are_untouched() {
    let ty = factory_type(vec![
        config(IoType::Input, "ore", None),
        config(IoType::Output, "metal", None),
        config(IoType::Output, "slag", Some(1)),
    ]);
    let mut f = factory(vec![
        port(IoType::Input, None),
        port(IoType::Output, None),
        port(IoType::Output, Some(0)),
    ]);
    f.flow(&ty, 6);
    assert_eq!(amounts(&f), vec![None, None, Some(6)]);
}

#[test]
fn buffer_and_rate_must_both_be_there() {
    let ty = factory_type(vec![
        config(IoType::Input, "ore", None),
        config(IoType::Output, "metal", Some(2)),
    ]);
    let mut f = factory(vec![port(IoType::Input, Some(0)), port(IoType::Output, None)]);
    f.flow(&ty, 6);
    assert_eq!(amounts(&f), vec![Some(0), None]);
}

#[test]
fn input_with_rate_zero_limits_nothing() {
    let ty = factory_type(vec![
        config(IoType::Input, "ore", Some(0)),
        config(IoType::Output, "metal", Some(2)),
    ]);
    let mut f = factory(vec![port(IoType::Input, Some(0)), port(IoType::Output, Some(0))]);
    f.flow(&ty, 6);
    assert_eq!(amounts(&f), vec![Some(0), Some(12)]);
}

#[test]
fn output_stops_at_the_largest_amount() {
    let ty = factory_type(vec![config(IoType::Output, "ore", Some(u64::MAX))]);
    let mut f = factory(vec![port(IoType::Output, Some(5))]);
    f.flow(&ty, u64::MAX);
    assert_eq!(amounts(&f), vec![Some(u64::MAX)]);
    f.flow(&ty, 1);
    assert_eq!(amounts(&f), vec![Some(u64::MAX)]);
}

#[test]
fn ports_beyond_the_type_are_untouched() {
    let ty = factory_type(vec![config(IoType::Output, "ore", Some(1))]);
    let mut f = factory(vec![port(IoType::Output, Some(0)), port(IoType::Input, Some(3))]);
    f.flow(&ty, 2);
    assert_eq!(amounts(&f), vec![Some(2), Some(3)]);
}

#[test]
fn flow_keeps_everything_but_the_amounts() {
    let ty = factory_type(vec![config(IoType::Output, "ore", Some(1))]);
    let mut f = factory(vec![port(IoType::Output, Some(0))]);
    let before = f.clone();
    f.flow(&ty, 2);
    assert_eq!(f.id, before.id);
    assert_eq!(f.ty, before.ty);
    assert_eq!(f.pos, before.pos);
    assert_eq!(f.io[0].node, before.io[0].node);
    assert_eq!(f.io[0].resource, before.io[0].resource);
    assert_eq!(f.io[0].ty, before.io[0].ty);
    assert_eq!(f.io[0].pos, before.io[0].pos);
}

#[test]
fn catalogue_gives_the_type_at_an_index() {
    let types = FactoryTypes {
        factory: vec![
            factory_type(vec![]),
            factory_type(vec![config(IoType::Output, "ore", Some(1))]),
        ],
    };
    assert_eq!(types.get(0), Some(&types.factory[0]));
    assert_eq!(types.get(1), Some(&types.factory[1]));
    assert_eq!(types.get(2), None);
    assert_eq!(types.get(usize::MAX), None);
}

#[test]
fn time_slice_is_the_least_of_the_tick_and_what_the_inputs_last() {
    let ty = factory_type(vec![
        config(IoType::Input, "ore", Some(2)),
        config(IoType::Input, "coal", Some(3)),
        config(IoType::Input, "sand", Some(0)),
        config(IoType::Input, "salt", None),
        config(IoType::Output, "steel", Some(100)),
    ]);
    let f = factory(vec![
        port(IoType::Input, Some(9)),
        port(IoType::Input, Some(17)),
        port(IoType::Input, Some(0)),
        port(IoType::Input, None),
        port(IoType::Output, Some(0)),
    ]);
    assert_eq!(f.time_slice(&ty, 3), 3);
    assert_eq!(f.time_slice(&ty, 4), 4);
    assert_eq!(f.time_slice(&ty, 5), 4);
    assert_eq!(f.time_slice(&ty, u64::MAX), 4);
    assert_eq!(f.time_slice(&ty, 0), 0);
    let only_outputs = factory(vec![port(IoType::Output, Some(0))]);
    let out = factory_type(vec![config(IoType::Output, "ore", Some(1))]);
    assert_eq!(only_outputs.time_slice(&out, 12), 12);
}
