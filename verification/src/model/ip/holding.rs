//! # What a set of addresses holds
//!
//! The model every set, numbering and exclusion is stated over: addresses, each
//! with the interface it is on where it is on one.

use crate::model::ip::addr::IpAddr;
use crate::model::ip::range;
use crate::model::ip::range::{IpRange, Ipv4Range, Ipv6Range, RangeView};
use crate::model::ip::runs;
use vstd::prelude::*;

verus! {

/// What a set holds: addresses, each with the interface it is on.
pub type Holding = Set<(IpAddr, Option<u32>)>;

/// What lists of ranges hold.
pub open spec fn held(v4: Seq<Ipv4Range>, v6: Seq<Ipv6Range>) -> Holding {
    Set::new(
        |p: (IpAddr, Option<u32>)|
            match p.0 {
                IpAddr::V4(a) => runs::covered(v4).contains((p.1, a.bits as int)),
                IpAddr::V6(a) => runs::covered(v6).contains((p.1, a.bits as int)),
            },
    )
}

/// What one range holds.
pub open spec fn range_held(r: RangeView) -> Holding {
    Set::new(|p: (IpAddr, Option<u32>)| range::covers(r.v6, r.first, r.last, p.0) && p.1 == r.zone)
}

/// What several ranges hold together.
pub open spec fn ranges_held(ranges: Seq<RangeView>) -> Holding {
    Set::new(
        |p: (IpAddr, Option<u32>)|
            exists|i: int| 0 <= i < ranges.len() && #[trigger] range_held(ranges[i]).contains(p),
    )
}

/// Whether a set holds an address on any interface.
pub open spec fn on_any(holding: Holding, ip: IpAddr) -> bool {
    exists|zone: Option<u32>| holding.contains((ip, zone))
}

/// What is left of a set once every address another holds is taken out of it, on
/// whatever interface either held it.
pub open spec fn without(holding: Holding, other: Holding) -> Holding {
    Set::new(|p: (IpAddr, Option<u32>)| holding.contains(p) && !on_any(other, p.0))
}

/// Ranges, as what they cover.
pub open spec fn range_views(ranges: Seq<IpRange>) -> Seq<RangeView> {
    ranges.map(|i: int, r: IpRange| r@)
}

/// One range more holds what it covers more.
pub proof fn lemma_ranges_held_push(ranges: Seq<RangeView>, r: RangeView)
    ensures
        ranges_held(ranges.push(r)) == ranges_held(ranges).union(range_held(r)),
{
    let after = ranges.push(r);
    assert forall|p: (IpAddr, Option<u32>)| ranges_held(after).contains(p) <==> ranges_held(
        ranges,
    ).union(range_held(r)).contains(p) by {
        if ranges_held(after).contains(p) {
            let i = choose|i: int|
                0 <= i < after.len() && #[trigger] range_held(after[i]).contains(p);
            if i < ranges.len() {
                assert(range_held(ranges[i]).contains(p));
            }
        }
        if ranges_held(ranges).contains(p) {
            let i = choose|i: int|
                0 <= i < ranges.len() && #[trigger] range_held(ranges[i]).contains(p);
            assert(range_held(after[i]).contains(p));
        }
        if range_held(r).contains(p) {
            assert(range_held(after[ranges.len() as int]).contains(p));
        }
    }
    assert(ranges_held(after) =~= ranges_held(ranges).union(range_held(r)));
}

} // verus!
