//! Factories, their ports, and the flow of resources through them.

use crate::geometry::Point;
use crate::ids::Id;
use vstd::prelude::*;

verus! {

/// The direction of a port, seen from the factory.
#[derive(Debug, Copy, Clone, PartialEq, Eq, Hash, Structural)]
pub enum IoType {
    Input,
    Output,
}

/// One port of a factory type.
#[derive(Debug, Clone, PartialEq, Eq)]
pub struct FactoryIoConfig {
    pub ty: IoType,
    /// The name of the resource that passes through the port.
    pub resource: String,
    /// Units moved per unit of time. A port without a rate holds no buffer.
    pub rate: Option<u64>,
}

/// One entry of the catalogue of factory types.
#[derive(Debug, Clone, PartialEq, Eq)]
pub struct FactoryType {
    pub name: String,
    pub radius: u32,
    pub io: Vec<FactoryIoConfig>,
    /// Packed red, green, blue and alpha, eight bits each.
    pub color: u32,
}

/// The catalogue of factory types. It does not change once the world exists.
#[derive(Debug, Clone, PartialEq, Eq)]
pub struct FactoryTypes {
    pub factory: Vec<FactoryType>,
}

/// A port of a factory.
#[derive(Debug, Copy, Clone, PartialEq, Eq, Structural)]
pub struct FactoryIo {
    pub ty: IoType,
    /// The track node that trains reach the port by.
    pub node: Id,
    pub resource: Id,
    /// The buffered amount; present exactly when the factory type gives the
    /// port a rate.
    pub amount: Option<u64>,
    pub pos: Point,
}

/// A factory. Its ports are in the order of its type's port list.
#[derive(Debug, Clone, PartialEq, Eq)]
pub struct Factory {
    pub id: Id,
    /// The index of the factory's type in the catalogue.
    pub ty: usize,
    pub pos: Point,
    pub io: Vec<FactoryIo>,
}

/// The smaller of two natural numbers.
pub open spec fn min_nat(a: nat, b: nat) -> nat {
    if a <= b {
        a
    } else {
        b
    }
}

/// Whether `port` under `config` is an input that limits the time slice: it
/// holds a buffer and consumes at a positive rate.
pub open spec fn limits_slice(port: FactoryIo, config: FactoryIoConfig) -> bool {
    &&& port.ty is Input
    &&& port.amount is Some
    &&& config.rate is Some
    &&& config.rate->0 > 0
}

/// The time slice that the first `n` ports allow: `dt`, or less where an
/// input would run dry sooner.
pub open spec fn time_slice_upto(
    ports: Seq<FactoryIo>,
    configs: Seq<FactoryIoConfig>,
    dt: u64,
    n: nat,
) -> nat
    decreases n,
{
    if n == 0 {
        dt as nat
    } else {
        let rest = time_slice_upto(ports, configs, dt, (n - 1) as nat);
        let i = n - 1;
        if i < ports.len() && i < configs.len() && limits_slice(ports[i], configs[i]) {
            min_nat(rest, ports[i].amount->0 as nat / configs[i].rate->0 as nat)
        } else {
            rest
        }
    }
}

/// The time slice of one tick: the longest time, at most `dt`, for which
/// every rated input can feed the factory from its buffer.
pub open spec fn time_slice(ports: Seq<FactoryIo>, configs: Seq<FactoryIoConfig>, dt: u64) -> nat {
    time_slice_upto(ports, configs, dt, ports.len())
}

/// A port after the factory ran for `slice`. An input gives up `rate * slice`
/// and stops at zero; an output gains `rate * slice` and stops at the largest
/// amount a buffer can hold. A port without a buffer or a rate stays as it is.
pub open spec fn port_after(port: FactoryIo, config: FactoryIoConfig, slice: nat) -> FactoryIo {
    if port.amount is Some && config.rate is Some {
        let amount = port.amount->0 as int;
        let moved = config.rate->0 as int * slice as int;
        let amount_after: int = match port.ty {
            IoType::Input => if moved >= amount {
                0
            } else {
                amount - moved
            },
            IoType::Output => if amount + moved >= u64::MAX {
                u64::MAX as int
            } else {
                amount + moved
            },
        };
        FactoryIo { amount: Some(amount_after as u64), ..port }
    } else {
        port
    }
}

/// The ports of a factory after one tick of length `dt`. All ports share one
/// time slice. A port beyond the end of the type's port list stays as it is.
pub open spec fn flow_ports(ports: Seq<FactoryIo>, configs: Seq<FactoryIoConfig>, dt: u64) -> Seq<
    FactoryIo,
> {
    Seq::new(
        ports.len(),
        |i: int|
            if i < configs.len() {
                port_after(ports[i], configs[i], time_slice(ports, configs, dt))
            } else {
                ports[i]
            },
    )
}

/// The time slice never exceeds `dt`, and shrinks as more ports are counted.
pub proof fn lemma_time_slice_bounds(
    ports: Seq<FactoryIo>,
    configs: Seq<FactoryIoConfig>,
    dt: u64,
    n: nat,
    m: nat,
)
    requires
        n <= m,
    ensures
        time_slice_upto(ports, configs, dt, m) <= time_slice_upto(ports, configs, dt, n) <= dt,
    decreases m,
{
    if n < m {
        lemma_time_slice_bounds(ports, configs, dt, n, (m - 1) as nat);
    } else if n > 0 {
        lemma_time_slice_bounds(ports, configs, dt, (n - 1) as nat, (n - 1) as nat);
    }
}

/// Whether port `i` is an input that limits the time slice.
pub open spec fn limits_at(ports: Seq<FactoryIo>, configs: Seq<FactoryIoConfig>, i: int) -> bool {
    0 <= i < ports.len() && i < configs.len() && limits_slice(ports[i], configs[i])
}

/// The time slice is the least of `dt` and of what each limiting input
/// lasts for at its rate: it exceeds none of them, and it is one of them.
pub proof fn lemma_time_slice_is_least(
    ports: Seq<FactoryIo>,
    configs: Seq<FactoryIoConfig>,
    dt: u64,
    n: nat,
)
    ensures
        time_slice_upto(ports, configs, dt, n) <= dt,
        forall|i: int|
            0 <= i < n && #[trigger] limits_at(ports, configs, i) ==> time_slice_upto(
                ports,
                configs,
                dt,
                n,
            ) <= ports[i].amount->0 as nat / configs[i].rate->0 as nat,
        time_slice_upto(ports, configs, dt, n) == dt || exists|i: int|
            0 <= i < n && #[trigger] limits_at(ports, configs, i) && time_slice_upto(
                ports,
                configs,
                dt,
                n,
            ) == ports[i].amount->0 as nat / configs[i].rate->0 as nat,
    decreases n,
{
    if n > 0 {
        let before = time_slice_upto(ports, configs, dt, (n - 1) as nat);
        let slice = time_slice_upto(ports, configs, dt, n);
        lemma_time_slice_is_least(ports, configs, dt, (n - 1) as nat);
        if slice != dt {
            if slice == before {
                let i = choose|i: int|
                    0 <= i < n - 1 && #[trigger] limits_at(ports, configs, i) && before
                        == ports[i].amount->0 as nat / configs[i].rate->0 as nat;
                assert(limits_at(ports, configs, i));
            } else {
                assert(limits_at(ports, configs, n - 1));
            }
        }
    }
}

/// No rated input is asked for more than it holds: over the shared time
/// slice, input `i` consumes at most its buffered amount.
pub proof fn lemma_slice_feeds_input(
    ports: Seq<FactoryIo>,
    configs: Seq<FactoryIoConfig>,
    dt: u64,
    i: int,
)
    requires
        0 <= i < ports.len(),
        i < configs.len(),
        ports[i].ty is Input,
        ports[i].amount is Some,
        configs[i].rate is Some,
    ensures
        configs[i].rate->0 * time_slice(ports, configs, dt) <= ports[i].amount->0,
{
    let rate = configs[i].rate->0 as nat;
    let amount = ports[i].amount->0 as nat;
    let slice = time_slice(ports, configs, dt);
    if rate > 0 {
        lemma_time_slice_bounds(ports, configs, dt, (i + 1) as nat, ports.len());
        let upto = time_slice_upto(ports, configs, dt, (i + 1) as nat);
        assert(upto <= amount / rate);
        assert(rate * slice <= amount) by (nonlinear_arith)
            requires
                slice <= amount / rate,
                rate > 0,
        ;
    } else {
        assert(rate * slice == 0) by (nonlinear_arith)
            requires
                rate == 0,
        ;
    }
}

/// A rated input is never drawn below zero: after a tick it holds what it
/// held less `rate * slice`, and that is not negative.
pub proof fn lemma_input_after_flow(
    ports: Seq<FactoryIo>,
    configs: Seq<FactoryIoConfig>,
    dt: u64,
    i: int,
)
    requires
        0 <= i < ports.len(),
        i < configs.len(),
        ports[i].ty is Input,
        ports[i].amount is Some,
        configs[i].rate is Some,
    ensures
        flow_ports(ports, configs, dt)[i].amount is Some,
        flow_ports(ports, configs, dt)[i].amount->0 == ports[i].amount->0 - configs[i].rate->0
            * time_slice(ports, configs, dt),
        0 <= ports[i].amount->0 - configs[i].rate->0 * time_slice(ports, configs, dt),
{
    lemma_slice_feeds_input(ports, configs, dt, i);
}

impl FactoryTypes {
    /// The factory type at `index`, if the catalogue has one there.
    pub fn get(&self, index: usize) -> (found: Option<&FactoryType>)
        ensures
            index < self.factory.len() ==> found == Some(&self.factory[index as int]),
            index >= self.factory.len() ==> found is None,
    {
        if index < self.factory.len() {
            Some(&self.factory[index])
        } else {
            None
        }
    }
}

impl Factory {
    /// The time slice that a tick of length `dt` allows the factory: the
    /// least of `dt` and of what each limiting input lasts for at its rate.
    pub fn time_slice(&self, factory_type: &FactoryType, dt: u64) -> (slice: u64)
        ensures
            slice == time_slice(self.io@, factory_type.io@, dt),
            slice <= dt,
            forall|i: int| #[trigger]
                limits_at(self.io@, factory_type.io@, i) ==> slice <= self.io@[i].amount->0
                    / factory_type.io@[i].rate->0,
            slice == dt || exists|i: int| #[trigger]
                limits_at(self.io@, factory_type.io@, i) && slice == self.io@[i].amount->0
                    / factory_type.io@[i].rate->0,
    {
        proof {
            lemma_time_slice_is_least(self.io@, factory_type.io@, dt, self.io@.len());
        }
        let mut slice: u64 = dt;
        let mut i: usize = 0;
        while i < self.io.len()
            invariant
                i <= self.io.len(),
                slice == time_slice_upto(self.io@, factory_type.io@, dt, i as nat),
            decreases self.io.len() - i,
        {
            if i < factory_type.io.len() {
                let port = self.io[i];
                if let (IoType::Input, Some(amount), Some(rate)) = (
                    port.ty,
                    port.amount,
                    factory_type.io[i].rate,
                ) {
                    if rate > 0 && amount / rate < slice {
                        slice = amount / rate;
                    }
                }
            }
            i += 1;
        }
        slice
    }

    /// Runs the factory for one tick of length `dt`.
    ///
    /// The time slice is `dt`, cut short so that no rated input is drawn
    /// below zero. Over that slice every rated input gives up `rate * slice`
    /// and every rated output gains as much, up to what a buffer can hold.
    pub fn flow(&mut self, factory_type: &FactoryType, dt: u64)
        ensures
            final(self).io@ == flow_ports(old(self).io@, factory_type.io@, dt),
            final(self).id == old(self).id,
            final(self).ty == old(self).ty,
            final(self).pos == old(self).pos,
    {
        let slice = self.time_slice(factory_type, dt);
        let ghost before = self.io@;
        let mut i: usize = 0;
        while i < self.io.len()
            invariant
                i <= self.io.len(),
                self.io.len() == before.len(),
                self.id == old(self).id,
                self.ty == old(self).ty,
                self.pos == old(self).pos,
                before == old(self).io@,
                slice == time_slice(before, factory_type.io@, dt),
                forall|j: int|
                    0 <= j < i ==> self.io[j] == flow_ports(before, factory_type.io@, dt)[j],
                forall|j: int| i <= j < before.len() ==> self.io[j] == before[j],
            decreases self.io.len() - i,
        {
            if i < factory_type.io.len() {
                let port = self.io[i];
                if let (Some(amount), Some(rate)) = (port.amount, factory_type.io[i].rate) {
                    assert(rate * slice <= u64::MAX * u64::MAX) by (nonlinear_arith)
                        requires
                            rate <= u64::MAX,
                            slice <= u64::MAX,
                    ;
                    let moved: u128 = rate as u128 * slice as u128;
                    let amount_after: u64 = match port.ty {
                        IoType::Input => if moved >= amount as u128 {
                            0
                        } else {
                            amount - moved as u64
                        },
                        IoType::Output => if amount as u128 + moved >= u64::MAX as u128 {
                            u64::MAX
                        } else {
                            amount + moved as u64
                        },
                    };
                    self.io[i].amount = Some(amount_after);
                }
            }
            i += 1;
        }
        assert(self.io@ =~= flow_ports(before, factory_type.io@, dt));
    }
}

} // verus!
