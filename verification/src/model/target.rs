//! # What a scan is pointed at
//!
//! [`TargetSet`] is some addresses and the ports to ask at every one of them, and
//! [`TargetMap`] is a scan's worth of those. Counts over a map are gross: an
//! address two units name is asked twice.

use crate::model::ip::holding::Holding;
use crate::model::ip::range;
use crate::model::ip::set::IpSet;
use crate::model::port::{PortSet, Ports};
use vstd::prelude::*;

verus! {

/// Some addresses, and the ports to ask at every one of them.
///
/// The addresses are merged from the moment it is built.
#[derive(Debug, PartialEq, Eq)]
pub struct TargetSet {
    ips: IpSet,
    ports: PortSet,
}

/// What a unit of a scan names.
#[verifier::ext_equal]
pub struct Unit {
    pub ips: Holding,
    pub ports: Ports,
}

impl View for TargetSet {
    type V = Unit;

    closed spec fn view(&self) -> Unit {
        Unit { ips: self.ips@, ports: self.ports@ }
    }
}

impl TargetSet {
    #[verifier::type_invariant]
    spec fn is_merged(self) -> bool {
        self.ips.is_canonical()
    }

    /// The addresses of `ips`, each on `ports`.
    pub fn new(ips: IpSet, ports: PortSet) -> (unit: Self)
        ensures
            unit@ == (Unit { ips: ips@, ports: ports@ }),
    {
        let mut ips = ips;
        ips.canonicalize();
        TargetSet { ips, ports }
    }

    /// The addresses.
    pub fn ips(&self) -> (ips: &IpSet)
        ensures
            ips@ == self@.ips,
            ips.is_canonical(),
    {
        proof {
            use_type_invariant(self);
        }
        &self.ips
    }

    /// The ports.
    pub fn ports(&self) -> (ports: &PortSet)
        ensures
            ports@ == self@.ports,
    {
        &self.ports
    }

    /// The addresses and the ports, to build another unit from.
    pub fn into_parts(self) -> (parts: (IpSet, PortSet))
        ensures
            parts.0@ == self@.ips,
            parts.0.is_canonical(),
            parts.1@ == self@.ports,
    {
        proof {
            use_type_invariant(&self);
        }
        (self.ips, self.ports)
    }
}

/// A scan's worth of units.
#[derive(Debug, PartialEq, Eq)]
pub struct TargetMap {
    /// The units, in the order they are scanned.
    pub units: Vec<TargetSet>,
}

/// Units, as what they name.
pub open spec fn units_of(units: Seq<TargetSet>) -> Seq<Unit> {
    units.map(|i: int, unit: TargetSet| unit@)
}

/// How many addresses units name, counting an address once for each that does.
pub open spec fn gross_ips(units: Seq<Unit>) -> int
    decreases units.len(),
{
    if units.len() == 0 {
        0
    } else {
        gross_ips(units.drop_last()) + range::saturated(units.last().ips.len() as int)
    }
}

/// How many pairs of an address and a port units name.
pub open spec fn gross_targets(units: Seq<Unit>) -> int
    decreases units.len(),
{
    if units.len() == 0 {
        0
    } else {
        gross_targets(units.drop_last()) + range::saturated(units.last().ips.len() as int)
            * units.last().ports.len()
    }
}

/// Why a map's targets could not be counted.
#[non_exhaustive]
#[derive(Debug, Clone, Copy, PartialEq, Eq, Structural)]
pub enum TargetError {
    /// There are more than can be counted.
    TooMany,
}

impl TargetMap {
    /// A map of nothing.
    pub fn new() -> (map: Self)
        ensures
            map.units@.len() == 0,
    {
        TargetMap { units: Vec::new() }
    }

    /// Adds a unit after the others.
    pub fn add_unit(&mut self, unit: TargetSet)
        ensures
            final(self).units@ == old(self).units@.push(unit),
    {
        self.units.push(unit);
    }

    /// How many addresses the units name, counting an address once for each that
    /// does.
    pub fn gross_ips(&self) -> (count: Result<u128, TargetError>)
        ensures
            match count {
                Ok(count) => count == gross_ips(units_of(self.units@)),
                Err(error) => error is TooMany && gross_ips(units_of(self.units@)) > u128::MAX,
            },
    {
        let ghost units = units_of(self.units@);
        let mut count: u128 = 0;
        let mut i: usize = 0;
        assert(units.take(0) =~= Seq::empty());
        while i < self.units.len()
            invariant
                units == units_of(self.units@),
                i <= units.len(),
                count == gross_ips(units.take(i as int)),
            decreases units.len() - i,
        {
            assert(units.take(i + 1).drop_last() =~= units.take(i as int));
            assert(units.take(i + 1).last() == self.units@[i as int]@);
            let more: u128 = self.units[i].ips().len();
            match count.checked_add(more) {
                Some(sum) => {
                    count = sum;
                },
                None => {
                    proof {
                        lemma_gross_ips_grows(units, i + 1);
                    }
                    return Err(TargetError::TooMany);
                },
            }
            i = i + 1;
        }
        assert(units.take(i as int) =~= units);
        Ok(count)
    }

    /// How many pairs of an address and a port the units name.
    pub fn gross_targets(&self) -> (count: Result<u128, TargetError>)
        ensures
            match count {
                Ok(count) => count == gross_targets(units_of(self.units@)),
                Err(error) => error is TooMany && gross_targets(units_of(self.units@)) > u128::MAX,
            },
    {
        let ghost units = units_of(self.units@);
        let mut count: u128 = 0;
        let mut i: usize = 0;
        assert(units.take(0) =~= Seq::empty());
        while i < self.units.len()
            invariant
                units == units_of(self.units@),
                i <= units.len(),
                count == gross_targets(units.take(i as int)),
            decreases units.len() - i,
        {
            assert(units.take(i + 1).drop_last() =~= units.take(i as int));
            assert(units.take(i + 1).last() == self.units@[i as int]@);
            let (ips, ports): (u128, u128) = (self.units[i].ips().len(), self.units[i].ports().len());
            let more = match ips.checked_mul(ports) {
                Some(more) => count.checked_add(more),
                None => None,
            };
            match more {
                Some(sum) => {
                    count = sum;
                },
                None => {
                    proof {
                        lemma_gross_targets_grows(units, i + 1);
                    }
                    return Err(TargetError::TooMany);
                },
            }
            i = i + 1;
        }
        assert(units.take(i as int) =~= units);
        Ok(count)
    }
}

proof fn lemma_gross_ips_grows(units: Seq<Unit>, n: int)
    requires
        0 <= n <= units.len(),
    ensures
        gross_ips(units.take(n)) <= gross_ips(units),
    decreases units.len() - n,
{
    if n < units.len() {
        assert(units.take(n + 1).drop_last() =~= units.take(n));
        lemma_gross_ips_grows(units, n + 1);
    } else {
        assert(units.take(n) =~= units);
    }
}

proof fn lemma_gross_targets_grows(units: Seq<Unit>, n: int)
    requires
        0 <= n <= units.len(),
    ensures
        gross_targets(units.take(n)) <= gross_targets(units),
    decreases units.len() - n,
{
    if n < units.len() {
        let unit = units[n];
        assert(units.take(n + 1).drop_last() =~= units.take(n));
        assert(units.take(n + 1).last() == unit);
        assert(range::saturated(unit.ips.len() as int) * unit.ports.len() >= 0)
            by (nonlinear_arith)
            requires
                range::saturated(unit.ips.len() as int) >= 0,
                unit.ports.len() >= 0,
        ;
        lemma_gross_targets_grows(units, n + 1);
    } else {
        assert(units.take(n) =~= units);
    }
}

/// How many addresses and how many pairs of one and a port some units name is what
/// each names, added up: as many addresses as it holds, and each of those on each
/// of its ports.
pub proof fn lemma_units_are_counted_one_by_one(units: Seq<Unit>, unit: Unit)
    requires
        unit.ips.len() <= u128::MAX,
    ensures
        gross_ips(Seq::empty()) == 0,
        gross_targets(Seq::empty()) == 0,
        gross_ips(units.push(unit)) == gross_ips(units) + unit.ips.len(),
        gross_targets(units.push(unit)) == gross_targets(units) + unit.ips.len()
            * unit.ports.len(),
{
    assert(units.push(unit).drop_last() =~= units);
}

} // verus!
