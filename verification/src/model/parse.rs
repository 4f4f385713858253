//! # Written down, and read back
//!
//! The grammars that turn what a person typed into the values of this model.
//! [`ip`] handles the address half: literals, ranges, CIDR blocks, zones and
//! keywords. [`target`] handles an address with a port specification after it.
//!
//! Every way of naming a target ends here, so the formats above decide only where
//! the tokens come from, and none of them can drift into accepting a slightly
//! different dialect.
//!
//! What only the running machine can say, such as what `lan` means or which
//! interface a `%zone` names, arrives as answers the caller supplies.

use crate::model::parse::ip::Expansion;
use crate::model::parse::target::{Answers, TargetContext, TargetParseError};
use crate::model::port::PortSet;
use crate::model::target::TargetMap;
use vstd::prelude::*;

pub mod ip;
pub mod target;

pub use ip::{names_keyword, to_set as to_ipset, IpParseError};

verus! {

/// Parses target expressions such as `["1.1.1.1:80,443", "8.8.8.8"]` into a
/// [`TargetMap`], giving each one the ports it names or `global_ports` if it names
/// none.
///
/// The shape of [`target::to_target_map`] that takes what keywords stand for and
/// nothing else. To resolve interface zones or hostnames as well, build a
/// [`TargetContext`] and call that function directly.
pub fn to_target_map(targets: &[String], global_ports: PortSet, keywords: &[Expansion]) -> (map: Result<
    TargetMap,
    TargetParseError,
>)
    ensures
        match (
            map,
            target::all_offered(
                target::nothing_yet(global_ports@),
                target::texts(targets@),
                Answers { keywords: keywords@, ..target::no_answers() },
            ),
        ) {
            (Ok(map), Ok(built)) => crate::model::target::units_of(map.units@) == built.groups,
            (Err(error), Err(fault)) => error@ == fault,
            _ => false,
        },
{
    let ctx = TargetContext::new().with_keywords(keywords);
    target::to_target_map(targets, global_ports, &ctx)
}

} // verus!
