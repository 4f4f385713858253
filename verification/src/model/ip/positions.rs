//! # Where each address falls in a set's enumeration
//!
//! A set is walked in one order: its merged IPv4 ranges ascending, then its IPv6
//! ones, one interface after another. That order is a list of ranges that
//! [`is_listing`] describes and [`lemma_listing_is_unique`] says there is one of,
//! and the index an address holds in the walk is its **position**:
//! [`nth`] is the address at one.
//!
//! [`Positions`] numbers a set's addresses without enumerating any, and [`Walk`]
//! hands them out one at a time.

use crate::model::ip::addr::{IpAddr, Ipv4Addr, Ipv6Addr};
use crate::model::ip::holding;
use crate::model::ip::holding::Holding;
use crate::model::ip::range;
use crate::model::ip::range::{IpRange, Ipv4Range, Ipv6Range, RangeView};
use crate::model::ip::runs;
use crate::model::ip::runs::Numbered;
use crate::model::ip::set::IpSet;
use std::ops::Range;
use vstd::prelude::*;

verus! {

/// Where IPv6 addresses start when both families are put in one line: past every
/// IPv4 address, and not touching the last of them.
pub const V6_FLOOR: u64 = 0x1_0000_0001;

/// A family's start in the one line of both.
pub open spec fn floor(v6: bool) -> int {
    if v6 {
        V6_FLOOR as int
    } else {
        0
    }
}

impl Numbered for RangeView {
    open spec fn lo(&self) -> int {
        floor(self.v6) + self.first
    }

    open spec fn hi(&self) -> int {
        floor(self.v6) + self.last
    }

    open spec fn scope(&self) -> Option<u32> {
        self.zone
    }

    open spec fn sound(&self) -> bool {
        &&& 0 <= self.first <= self.last
        &&& self.last <= if self.v6 {
            u128::MAX as int
        } else {
            u32::MAX as int
        }
        &&& !self.v6 ==> self.zone is None
    }

    proof fn ends_decide(a: Self, b: Self) {
    }
}

/// An address's place in the one line of both families.
pub open spec fn line_of(ip: IpAddr) -> int {
    match ip {
        IpAddr::V4(a) => a.bits as int,
        IpAddr::V6(a) => floor(true) + a.bits,
    }
}

/// Whether a list of ranges is the order a set is walked in: merged, IPv4 first,
/// and holding exactly what the set does.
pub open spec fn is_listing(ls: Seq<RangeView>, holding: Holding) -> bool {
    runs::canonical(ls) && holding::ranges_held(ls) == holding
}

proof fn lemma_covered_is_held(ls: Seq<RangeView>, ip: IpAddr, zone: Option<u32>)
    requires
        runs::all_in_order(ls),
    ensures
        runs::covered(ls).contains((zone, line_of(ip))) <==> holding::ranges_held(ls).contains(
            (ip, zone),
        ),
{
    let p = (zone, line_of(ip));
    if runs::covered(ls).contains(p) {
        let i = choose|i: int| 0 <= i < ls.len() && #[trigger] runs::held_by(ls[i], p);
        assert(runs::in_order(ls[i]));
        assert(holding::range_held(ls[i]).contains((ip, zone)));
    }
    if holding::ranges_held(ls).contains((ip, zone)) {
        let i = choose|i: int|
            0 <= i < ls.len() && #[trigger] holding::range_held(ls[i]).contains((ip, zone));
        assert(runs::in_order(ls[i]));
        assert(runs::held_by(ls[i], p));
    }
}

/// What is covered is some address.
proof fn lemma_covered_is_an_address(ls: Seq<RangeView>, p: (Option<u32>, int)) -> (ip: IpAddr)
    requires
        runs::all_in_order(ls),
        runs::covered(ls).contains(p),
    ensures
        line_of(ip) == p.1,
{
    let i = choose|i: int| 0 <= i < ls.len() && #[trigger] runs::held_by(ls[i], p);
    assert(runs::in_order(ls[i]));
    range::numbered(ls[i].v6, p.1 - floor(ls[i].v6))
}

/// A set is walked in one order.
pub proof fn lemma_listing_is_unique(a: Seq<RangeView>, b: Seq<RangeView>, holding: Holding)
    requires
        is_listing(a, holding),
        is_listing(b, holding),
    ensures
        a == b,
{
    assert forall|p: (Option<u32>, int)| runs::covered(a).contains(p) <==> runs::covered(
        b,
    ).contains(p) by {
        if runs::covered(a).contains(p) {
            let ip = lemma_covered_is_an_address(a, p);
            lemma_covered_is_held(a, ip, p.0);
            lemma_covered_is_held(b, ip, p.0);
        }
        if runs::covered(b).contains(p) {
            let ip = lemma_covered_is_an_address(b, p);
            lemma_covered_is_held(a, ip, p.0);
            lemma_covered_is_held(b, ip, p.0);
        }
    }
    assert(runs::covered(a) =~= runs::covered(b));
    runs::lemma_canonical_is_unique(a, b);
}

/// How many addresses stand before the `i`th range.
pub open spec fn before(ls: Seq<RangeView>, i: int) -> int {
    runs::gross(ls.take(i))
}

proof fn lemma_before_step(ls: Seq<RangeView>, i: int)
    requires
        0 <= i < ls.len(),
    ensures
        before(ls, i + 1) == before(ls, i) + (ls[i].last - ls[i].first + 1),
{
    assert(ls.take(i + 1).drop_last() =~= ls.take(i));
}

proof fn lemma_before_grows(ls: Seq<RangeView>, i: int, j: int)
    requires
        runs::all_in_order(ls),
        0 <= i <= j <= ls.len(),
    ensures
        before(ls, 0) == 0,
        before(ls, i) <= before(ls, j),
        before(ls, i) >= i,
        i < j ==> before(ls, i) < before(ls, j),
        before(ls, ls.len() as int) == runs::gross(ls),
    decreases j,
{
    assert(ls.take(0).len() == 0);
    assert(ls.take(ls.len() as int) =~= ls);
    if j > 0 {
        lemma_before_step(ls, j - 1);
        assert(runs::in_order(ls[j - 1]));
        if i < j {
            lemma_before_grows(ls, i, j - 1);
        } else {
            lemma_before_grows(ls, i - 1, j - 1);
        }
    }
}

/// Whether the address at a position is in the `i`th range.
pub open spec fn in_slot(ls: Seq<RangeView>, k: int, i: int) -> bool {
    0 <= i < ls.len() && before(ls, i) <= k < before(ls, i + 1)
}

/// Which range the address at a position is in.
pub open spec fn slot(ls: Seq<RangeView>, k: int) -> int {
    choose|i: int| in_slot(ls, k, i)
}

/// The address at a position.
pub open spec fn nth(ls: Seq<RangeView>, k: int) -> IpAddr {
    let i = slot(ls, k);
    range::numbered(ls[i].v6, ls[i].first + (k - before(ls, i)))
}

/// A position is in one range.
proof fn lemma_slot(ls: Seq<RangeView>, k: int, i: int)
    requires
        runs::all_in_order(ls),
        in_slot(ls, k, i),
    ensures
        slot(ls, k) == i,
{
    let j = slot(ls, k);
    assert(in_slot(ls, k, j));
    if i < j {
        lemma_before_grows(ls, i + 1, j);
    } else if j < i {
        lemma_before_grows(ls, j + 1, i);
    }
}

/// Every position is in some range.
proof fn lemma_slot_exists(ls: Seq<RangeView>, k: int)
    requires
        runs::all_in_order(ls),
        0 <= k < runs::gross(ls),
    ensures
        in_slot(ls, k, slot(ls, k)),
{
    lemma_before_grows(ls, 0, ls.len() as int);
    lemma_slot_below(ls, k, ls.len() as int);
}

proof fn lemma_slot_below(ls: Seq<RangeView>, k: int, n: int)
    requires
        runs::all_in_order(ls),
        0 <= n <= ls.len(),
        0 <= k < before(ls, n),
    ensures
        exists|i: int| in_slot(ls, k, i),
    decreases n,
{
    lemma_before_grows(ls, 0, n);
    if n > 0 {
        if k >= before(ls, n - 1) {
            assert(in_slot(ls, k, n - 1));
        } else {
            lemma_slot_below(ls, k, n - 1);
        }
    }
}

/// The address at a position, read off the range it is in.
proof fn lemma_nth(ls: Seq<RangeView>, k: int, i: int)
    requires
        runs::all_in_order(ls),
        in_slot(ls, k, i),
    ensures
        slot(ls, k) == i,
        nth(ls, k) == range::numbered(ls[i].v6, ls[i].first + (k - before(ls, i))),
        line_of(nth(ls, k)) == ls[i].lo() + (k - before(ls, i)),
        range::covers(ls[i].v6, ls[i].first, ls[i].last, nth(ls, k)),
{
    lemma_slot(ls, k, i);
    lemma_before_step(ls, i);
    assert(runs::in_order(ls[i]));
}

/// Whether the `i`th range covers an address.
pub open spec fn covers_at(ls: Seq<RangeView>, i: int, ip: IpAddr) -> bool {
    0 <= i < ls.len() && range::covers(ls[i].v6, ls[i].first, ls[i].last, ip)
}

/// The position an address has in the `i`th range, if the range covers it.
proof fn lemma_position_in(ls: Seq<RangeView>, i: int, ip: IpAddr)
    requires
        runs::all_in_order(ls),
        0 <= i < ls.len(),
        range::covers(ls[i].v6, ls[i].first, ls[i].last, ip),
    ensures
        ({
            let k = before(ls, i) + (line_of(ip) - ls[i].lo());
            &&& in_slot(ls, k, i)
            &&& 0 <= k < runs::gross(ls)
            &&& nth(ls, k) == ip
        }),
{
    let k = before(ls, i) + (line_of(ip) - ls[i].lo());
    lemma_before_step(ls, i);
    lemma_before_grows(ls, i + 1, ls.len() as int);
    lemma_before_grows(ls, 0, i);
    lemma_nth(ls, k, i);
}

/// Every position names an address the set holds, and every address it holds has
/// a position.
pub proof fn lemma_positions_are_what_is_held(ls: Seq<RangeView>, holding: Holding, ip: IpAddr)
    requires
        is_listing(ls, holding),
    ensures
        holding::on_any(holding, ip) <==> exists|k: int|
            0 <= k < runs::gross(ls) && #[trigger] nth(ls, k) == ip,
{
    if exists|k: int| 0 <= k < runs::gross(ls) && #[trigger] nth(ls, k) == ip {
        let k = choose|k: int| 0 <= k < runs::gross(ls) && #[trigger] nth(ls, k) == ip;
        lemma_slot_exists(ls, k);
        let i = slot(ls, k);
        lemma_nth(ls, k, i);
        assert(holding::range_held(ls[i]).contains((ip, ls[i].zone)));
        assert(holding::ranges_held(ls).contains((ip, ls[i].zone)));
    }
    if holding::on_any(holding, ip) {
        let zone = choose|zone: Option<u32>| holding.contains((ip, zone));
        let i = choose|i: int|
            0 <= i < ls.len() && #[trigger] holding::range_held(ls[i]).contains((ip, zone));
        lemma_position_in(ls, i, ip);
        assert(nth(ls, before(ls, i) + (line_of(ip) - ls[i].lo())) == ip);
    }
}

/// An address has two positions only where two interfaces hold it, so an IPv4
/// address never has two.
pub proof fn lemma_two_positions_are_two_interfaces(ls: Seq<RangeView>, p: int, q: int)
    requires
        runs::canonical(ls),
        0 <= p < runs::gross(ls),
        0 <= q < runs::gross(ls),
        p != q,
        nth(ls, p) == nth(ls, q),
    ensures
        ls[slot(ls, p)].zone != ls[slot(ls, q)].zone,
        nth(ls, p) is V6,
{
    lemma_slot_exists(ls, p);
    lemma_slot_exists(ls, q);
    let (i, j) = (slot(ls, p), slot(ls, q));
    lemma_nth(ls, p, i);
    lemma_nth(ls, q, j);
    assert(runs::in_order(ls[i]) && runs::in_order(ls[j]));
    if i < j {
        assert(runs::clear_of(ls[i], ls[j]));
    } else if j < i {
        assert(runs::clear_of(ls[j], ls[i]));
    }
}

/// IPv4 is numbered first, ascending.
pub proof fn lemma_ipv4_is_numbered_first(ls: Seq<RangeView>, p: int, q: int)
    requires
        runs::canonical(ls),
        0 <= p < q < runs::gross(ls),
        nth(ls, q) is V4,
    ensures
        nth(ls, p) is V4,
        nth(ls, p)->V4_0.bits < nth(ls, q)->V4_0.bits,
{
    lemma_slot_exists(ls, p);
    lemma_slot_exists(ls, q);
    let (i, j) = (slot(ls, p), slot(ls, q));
    lemma_nth(ls, p, i);
    lemma_nth(ls, q, j);
    assert(runs::in_order(ls[i]) && runs::in_order(ls[j]));
    if i < j {
        assert(runs::clear_of(ls[i], ls[j]));
    } else if j < i {
        lemma_before_grows(ls, j + 1, i);
    }
}

/// One range, as a listing holds it, is what every range is.
fn ends_of(range: &IpRange) -> (ends: (bool, u128, u128))
    ensures
        ends.0 == range@.v6,
        ends.1 == range@.first,
        ends.2 == range@.last,
        runs::in_order(range@),
{
    match range {
        IpRange::V4(r) => (false, r.start_addr().bits as u128, r.end_addr().bits as u128),
        IpRange::V6(r) => (true, r.start_addr().bits, r.end_addr().bits),
    }
}

/// The merged ranges of both families are a listing.
pub proof fn lemma_merged_is_a_listing(v4: Seq<Ipv4Range>, v6: Seq<Ipv6Range>, ranges: Seq<IpRange>)
    requires
        runs::canonical(v4),
        runs::canonical(v6),
        ranges.len() == v4.len() + v6.len(),
        forall|i: int| 0 <= i < v4.len() ==> #[trigger] ranges[i] == IpRange::V4(v4[i]),
        forall|i: int|
            v4.len() <= i < ranges.len() ==> #[trigger] ranges[i] == IpRange::V6(v6[i - v4.len()]),
    ensures
        is_listing(holding::range_views(ranges), holding::held(v4, v6)),
{
    let ls = holding::range_views(ranges);
    let n = v4.len() as int;
    assert forall|i: int| 0 <= i < ls.len() implies runs::in_order(#[trigger] ls[i]) by {
        assert(ls[i] == ranges[i]@);
        if i < n {
            assert(runs::in_order(v4[i]));
        } else {
            assert(runs::in_order(v6[i - n]));
        }
    }
    assert forall|i: int, j: int| 0 <= i < j < ls.len() implies runs::clear_of(
        #[trigger] ls[i],
        #[trigger] ls[j],
    ) by {
        assert(ls[i] == ranges[i]@ && ls[j] == ranges[j]@);
        if j < n {
            assert(runs::clear_of(v4[i], v4[j]));
        } else if i >= n {
            assert(runs::clear_of(v6[i - n], v6[j - n]));
        } else {
            assert(runs::in_order(v4[i]) && runs::in_order(v6[j - n]));
        }
    }
    assert forall|p: (IpAddr, Option<u32>)| holding::ranges_held(ls).contains(p) <==> holding::held(
        v4,
        v6,
    ).contains(p) by {
        if holding::ranges_held(ls).contains(p) {
            let i = choose|i: int|
                0 <= i < ls.len() && #[trigger] holding::range_held(ls[i]).contains(p);
            assert(ls[i] == ranges[i]@);
            match p.0 {
                IpAddr::V4(a) => {
                    assert(runs::held_by(v4[i], (p.1, a.bits as int)));
                },
                IpAddr::V6(a) => {
                    assert(runs::held_by(v6[i - n], (p.1, a.bits as int)));
                },
            }
        }
        if holding::held(v4, v6).contains(p) {
            match p.0 {
                IpAddr::V4(a) => {
                    let q = (p.1, a.bits as int);
                    let i = choose|i: int| 0 <= i < v4.len() && #[trigger] runs::held_by(v4[i], q);
                    assert(ls[i] == ranges[i]@);
                    assert(holding::range_held(ls[i]).contains(p));
                },
                IpAddr::V6(a) => {
                    let q = (p.1, a.bits as int);
                    let i = choose|i: int| 0 <= i < v6.len() && #[trigger] runs::held_by(v6[i], q);
                    assert(ranges[i + n] == IpRange::V6(v6[i]));
                    assert(ls[i + n] == ranges[i + n]@);
                    assert(holding::range_held(ls[i + n]).contains(p));
                },
            }
        }
    }
    assert(holding::ranges_held(ls) =~= holding::held(v4, v6));
}

impl IpSet {
    /// The merged ranges, in the order the set is walked in.
    pub fn listing(&self) -> (ranges: Vec<IpRange>)
        ensures
            is_listing(holding::range_views(ranges@), self@),
    {
        let merged = self.merged();
        let mut ranges: Vec<IpRange> = Vec::new();
        let v4 = merged.v4();
        let v6 = merged.v6();
        let mut i: usize = 0;
        while i < v4.len()
            invariant
                i <= v4@.len(),
                ranges@.len() == i,
                forall|k: int| 0 <= k < i ==> #[trigger] ranges@[k] == IpRange::V4(v4@[k]),
            decreases v4@.len() - i,
        {
            ranges.push(IpRange::V4(v4[i]));
            i = i + 1;
        }
        let mut j: usize = 0;
        while j < v6.len()
            invariant
                j <= v6@.len(),
                ranges@.len() == v4@.len() + j,
                forall|k: int| 0 <= k < v4@.len() ==> #[trigger] ranges@[k] == IpRange::V4(v4@[k]),
                forall|k: int|
                    v4@.len() <= k < v4@.len() + j ==> #[trigger] ranges@[k] == IpRange::V6(
                        v6@[k - v4@.len()],
                    ),
            decreases v6@.len() - j,
        {
            ranges.push(IpRange::V6(v6[j]));
            j = j + 1;
        }
        proof {
            lemma_merged_is_a_listing(v4@, v6@, ranges@);
        }
        ranges
    }

    /// Every address the set covers, one at a time, IPv4 before IPv6.
    ///
    /// Each address is handed out once for every interface it is held on,
    /// however many ranges named it. Nothing is materialized: a `/8` is sixteen
    /// million addresses, and an IPv6 range can hold far more than that.
    pub fn iter(&self) -> (walk: Walk)
        ensures
            is_listing(walk.listing(), self@),
            walk.done() == 0,
    {
        let ranges = self.listing();
        let walk = Walk { ranges, index: 0, offset: 0 };
        proof {
            lemma_before_grows(walk.listing(), 0, 0);
        }
        walk
    }

    /// Numbers this set's addresses, for counting how far a sweep of it got.
    pub fn positions(&self) -> (positions: Positions)
        ensures
            positions.numbers(self@),
    {
        Positions::of(self)
    }
}

/// A walk over the addresses of a set.
#[derive(Debug)]
pub struct Walk {
    ranges: Vec<IpRange>,
    index: usize,
    offset: u128,
}

impl Walk {
    /// The ranges walked, in order.
    pub closed spec fn listing(&self) -> Seq<RangeView> {
        holding::range_views(self.ranges@)
    }

    /// How many addresses have been handed out.
    pub closed spec fn done(&self) -> int {
        before(self.listing(), self.index as int) + self.offset
    }

    #[verifier::type_invariant]
    spec fn inside(self) -> bool {
        let ls = holding::range_views(self.ranges@);
        &&& runs::canonical(ls)
        &&& self.index <= ls.len()
        &&& self.index < ls.len() ==> self.offset <= ls[self.index as int].last
            - ls[self.index as int].first
        &&& self.index == ls.len() ==> self.offset == 0
    }

    /// The next address, or [`None`] once every one has been handed out.
    pub fn next(&mut self) -> (ip: Option<IpAddr>)
        ensures
            final(self).listing() == old(self).listing(),
            match ip {
                Some(a) => {
                    &&& old(self).done() < runs::gross(old(self).listing())
                    &&& a == nth(old(self).listing(), old(self).done())
                    &&& final(self).done() == old(self).done() + 1
                },
                None => {
                    &&& old(self).done() == runs::gross(old(self).listing())
                    &&& final(self).done() == old(self).done()
                },
            },
    {
        proof {
            use_type_invariant(&*self);
            lemma_before_grows(self.listing(), self.index as int, self.listing().len() as int);
        }
        if self.index >= self.ranges.len() {
            return None;
        }
        let ghost ls = self.listing();
        let ghost was = self.done();
        let index: usize = self.index;
        let offset: u128 = self.offset;
        assert(ls[index as int] == self.ranges@[index as int]@);
        let (v6, first, last) = ends_of(&self.ranges[index]);
        let at: u128 = first + offset;
        let ip = if v6 {
            IpAddr::V6(Ipv6Addr { bits: at })
        } else {
            IpAddr::V4(Ipv4Addr { bits: at as u32 })
        };
        proof {
            lemma_before_step(ls, index as int);
            assert(in_slot(ls, was, index as int));
            lemma_nth(ls, was, index as int);
            lemma_before_grows(ls, index + 1, ls.len() as int);
            if index + 1 < ls.len() {
                assert(runs::in_order(ls[index + 1]));
            }
        }
        if at == last {
            self.offset = 0;
            self.index = index + 1;
        } else {
            self.offset = offset + 1;
        }
        Some(ip)
    }

    /// Every address left, in order.
    pub fn collect(self) -> (addresses: Vec<IpAddr>)
        ensures
            addresses@.len() == runs::gross(self.listing()) - self.done(),
            forall|i: int|
                0 <= i < addresses@.len() ==> #[trigger] addresses@[i] == nth(
                    self.listing(),
                    self.done() + i,
                ),
    {
        let mut walk = self;
        let mut addresses: Vec<IpAddr> = Vec::new();
        proof {
            use_type_invariant(&walk);
            walk.lemma_done_is_inside();
        }
        loop
            invariant
                walk.listing() == self.listing(),
                self.done() <= walk.done() <= runs::gross(walk.listing()),
                addresses@.len() == walk.done() - self.done(),
                forall|i: int|
                    0 <= i < addresses@.len() ==> #[trigger] addresses@[i] == nth(
                        self.listing(),
                        self.done() + i,
                    ),
            decreases runs::gross(walk.listing()) - walk.done(),
        {
            match walk.next() {
                Some(ip) => {
                    addresses.push(ip);
                },
                None => {
                    return addresses;
                },
            }
        }
    }

    proof fn lemma_done_is_inside(self)
        requires
            self.inside(),
        ensures
            0 <= self.done() <= runs::gross(self.listing()),
    {
        let ls = self.listing();
        lemma_before_grows(ls, 0, self.index as int);
        lemma_before_grows(ls, self.index as int, ls.len() as int);
        if self.index < ls.len() {
            lemma_before_step(ls, self.index as int);
            lemma_before_grows(ls, self.index + 1, ls.len() as int);
        }
    }
}

/// One range, and where its addresses sit in the enumeration.
#[derive(Debug, Clone, Copy)]
struct Span {
    range: IpRange,
    /// The position of the range's first address.
    start: u64,
    /// How many addresses it holds. Never zero: a range holds at least one.
    len: u64,
}

/// One stretch of spans that is sorted and disjoint by address, so that a binary
/// search inside it is valid: IPv4 is one, and IPv6 one per interface.
#[derive(Debug, Clone, Copy)]
struct Run {
    /// Where the stretch starts.
    from: usize,
    /// Where it ends, exclusive.
    to: usize,
    /// Whether these are IPv6 ranges. The families never share a run.
    v6: bool,
}

/// Where each of an [`IpSet`]'s addresses falls in its enumeration.
///
/// Built from the ranges rather than the addresses, so a `/8` costs one entry.
///
/// # A set larger than a position can count
///
/// A position is a `u64`, and an IPv6 range can hold more addresses than that.
/// Ranges are numbered in order until one would not fit, and everything from
/// there on is **unnumbered**: [`find`](Self::find) answers `None` for it and
/// [`unnumbered`](Self::unnumbered) hands it back whole. IPv4 is numbered first
/// and so is never the half that is lost.
#[derive(Debug)]
pub struct Positions {
    spans: Vec<Span>,
    runs: Vec<Run>,
    total: u64,
    unnumbered: Vec<IpRange>,
}

/// The ranges of spans, as what they cover.
spec fn span_views(spans: Seq<Span>) -> Seq<RangeView> {
    spans.map(|i: int, s: Span| s.range@)
}

/// Whether spans say of themselves what their ranges make of them.
spec fn spans_are_true(spans: Seq<Span>) -> bool {
    let ls = span_views(spans);
    forall|i: int|
        0 <= i < spans.len() ==> (#[trigger] spans[i]).start == before(ls, i) && spans[i].len
            == ls[i].last - ls[i].first + 1
}

/// Whether runs cut spans up, one family and interface each.
#[verifier::opaque]
spec fn runs_are_true(spans: Seq<Span>, cut: Seq<Run>) -> bool {
    let ls = span_views(spans);
    &&& forall|r: int| 0 <= r < cut.len() ==> (#[trigger] cut[r]).from < cut[r].to <= spans.len()
    &&& forall|r: int, i: int|
        0 <= r < cut.len() && cut[r].from <= i < cut[r].to ==> (#[trigger] ls[i]).v6 == (
        #[trigger] cut[r]).v6 && ls[i].zone == ls[cut[r].from as int].zone
    &&& forall|r: int, t: int|
        0 <= r < t < cut.len() ==> (#[trigger] cut[r]).to <= (#[trigger] cut[t]).from
    &&& forall|i: int| 0 <= i < spans.len() ==> #[trigger] in_a_run(cut, i)
}

/// Whether a span is in some run.
spec fn in_a_run(cut: Seq<Run>, i: int) -> bool {
    exists|r: int| 0 <= r < cut.len() && (#[trigger] cut[r]).from <= i < cut[r].to
}

impl Clone for Positions {
    fn clone(&self) -> (positions: Self)
        ensures
            positions.numbered() == self.numbered(),
            positions.beyond() == self.beyond(),
    {
        proof {
            use_type_invariant(self);
        }
        let mut spans: Vec<Span> = Vec::new();
        let mut i: usize = 0;
        while i < self.spans.len()
            invariant
                i <= self.spans@.len(),
                spans@ == self.spans@.take(i as int),
            decreases self.spans@.len() - i,
        {
            spans.push(self.spans[i]);
            i = i + 1;
            assert(self.spans@.take(i as int) =~= self.spans@.take(i - 1).push(self.spans@[i - 1]));
        }
        assert(self.spans@.take(i as int) =~= self.spans@);
        let mut runs: Vec<Run> = Vec::new();
        let mut j: usize = 0;
        while j < self.runs.len()
            invariant
                j <= self.runs@.len(),
                runs@ == self.runs@.take(j as int),
            decreases self.runs@.len() - j,
        {
            runs.push(self.runs[j]);
            j = j + 1;
            assert(self.runs@.take(j as int) =~= self.runs@.take(j - 1).push(self.runs@[j - 1]));
        }
        assert(self.runs@.take(j as int) =~= self.runs@);
        let mut unnumbered: Vec<IpRange> = Vec::new();
        let mut k: usize = 0;
        while k < self.unnumbered.len()
            invariant
                k <= self.unnumbered@.len(),
                unnumbered@ == self.unnumbered@.take(k as int),
            decreases self.unnumbered@.len() - k,
        {
            unnumbered.push(self.unnumbered[k]);
            k = k + 1;
            assert(self.unnumbered@.take(k as int) =~= self.unnumbered@.take(k - 1).push(
                self.unnumbered@[k - 1],
            ));
        }
        assert(self.unnumbered@.take(k as int) =~= self.unnumbered@);
        Positions { spans, runs, total: self.total, unnumbered }
    }
}

impl Default for Positions {
    /// The positions of no addresses at all.
    fn default() -> (positions: Self)
        ensures
            positions.numbered().len() == 0,
            positions.beyond().len() == 0,
            positions.numbers(Set::empty()),
    {
        let set = IpSet::new();
        let positions = Positions::of(&set);
        proof {
            let empty = Seq::<RangeView>::empty();
            assert(holding::ranges_held(empty) =~= Set::empty());
            lemma_listing_is_unique(positions.numbered() + positions.beyond(), empty, Set::empty());
        }
        positions
    }
}

impl Positions {
    /// The ranges that are numbered, in order.
    pub closed spec fn numbered(&self) -> Seq<RangeView> {
        span_views(self.spans@)
    }

    /// The ranges the numbering could not reach, in order.
    pub closed spec fn beyond(&self) -> Seq<RangeView> {
        holding::range_views(self.unnumbered@)
    }

    /// How many addresses are numbered.
    pub open spec fn count(&self) -> int {
        runs::gross(self.numbered())
    }

    /// Whether these are the positions of a set: its listing, cut where the
    /// first range that a position could not count to the end of stands.
    pub open spec fn numbers(&self, holding: Holding) -> bool {
        &&& is_listing(self.numbered() + self.beyond(), holding)
        &&& self.count() <= u64::MAX
        &&& self.beyond().len() > 0 ==> runs::gross(self.numbered().push(self.beyond()[0]))
            > u64::MAX
    }

    #[verifier::type_invariant]
    spec fn told_truly(self) -> bool {
        &&& runs::canonical(span_views(self.spans@))
        &&& spans_are_true(self.spans@)
        &&& runs_are_true(self.spans@, self.runs@)
        &&& self.total == runs::gross(span_views(self.spans@))
    }

    /// Numbers `set`'s addresses.
    pub fn of(set: &IpSet) -> (positions: Self)
        ensures
            positions.numbers(set@),
    {
        let ranges = set.listing();
        let ghost ls = holding::range_views(ranges@);
        let mut spans: Vec<Span> = Vec::new();
        let mut runs: Vec<Run> = Vec::new();
        let mut total: u64 = 0;
        let mut i: usize = 0;
        let mut full = false;
        assert(ls.take(0).len() == 0);
        assert(span_views(spans@) =~= ls.take(0));
        proof {
            reveal(runs_are_true);
        }
        while i < ranges.len() && !full
            invariant
                ls == holding::range_views(ranges@),
                ls.len() == ranges@.len(),
                runs::canonical(ls),
                i <= ranges@.len(),
                span_views(spans@) == ls.take(i as int),
                spans@.len() == i,
                total == before(ls, i as int),
                spans_are_true(spans@),
                runs_are_true(spans@, runs@),
                i > 0 ==> runs@.len() > 0 && runs@.last().to == i,
                full ==> i < ls.len() && before(ls, i + 1) > u64::MAX,
            decreases
                ranges@.len() - i,
                if full {
                    0int
                } else {
                    1int
                },
        {
            let range = ranges[i];
            assert(ls[i as int] == range@);
            let (v6, first, last) = ends_of(&range);
            proof {
                lemma_before_step(ls, i as int);
            }
            let most: u128 = last - first;
            // The first range that will not fit ends the numbering, and so does
            // every range after it: positions have to stay contiguous.
            if most >= 0xffff_ffff_ffff_ffff {
                proof {
                    lemma_before_grows(ls, 0, i as int);
                }
                full = true;
            } else {
                let len: u64 = most as u64 + 1;
                match total.checked_add(len) {
                    None => {
                        full = true;
                    },
                    Some(next) => {
                        let zone = match range {
                            IpRange::V4(_) => None,
                            IpRange::V6(r) => r.zone(),
                        };
                        let ghost old_spans = spans@;
                        let ghost old_runs = runs@;
                        let joins = if i > 0 {
                            let (was_v6, _, _) = ends_of(&spans[i - 1].range);
                            let was_zone = match spans[i - 1].range {
                                IpRange::V4(_) => None,
                                IpRange::V6(r) => r.zone(),
                            };
                            was_v6 == v6 && runs::same_scope(was_zone, zone)
                        } else {
                            false
                        };
                        spans.push(Span { range, start: total, len });
                        if joins {
                            let at: usize = runs.len() - 1;
                            let run = runs[at];
                            runs.set(at, Run { from: run.from, to: i + 1, v6: run.v6 });
                        } else {
                            runs.push(Run { from: i, to: i + 1, v6 });
                        }
                        proof {
                            assert(span_views(spans@) =~= ls.take(i + 1));
                            assert(spans@.drop_last() =~= old_spans);
                            lemma_spans_grow(old_spans, spans@, ls, i as int);
                            lemma_runs_grow(old_spans, spans@, old_runs, runs@, joins);
                        }
                        total = next;
                        i = i + 1;
                    },
                }
            }
        }
        let mut unnumbered: Vec<IpRange> = Vec::new();
        let mut j: usize = i;
        while j < ranges.len()
            invariant
                i <= j <= ranges@.len(),
                unnumbered@.len() == j - i,
                forall|k: int| 0 <= k < j - i ==> #[trigger] unnumbered@[k] == ranges@[i + k],
            decreases ranges@.len() - j,
        {
            unnumbered.push(ranges[j]);
            j = j + 1;
        }
        proof {
            assert(holding::range_views(unnumbered@) =~= ls.skip(i as int));
            assert(ls.take(i as int) + ls.skip(i as int) =~= ls);
            if i < ls.len() {
                assert(ls.take(i as int).push(ls.skip(i as int)[0]) =~= ls.take(i + 1));
            }
            assert forall|k: int| 0 <= k < ls.take(i as int).len() implies runs::in_order(
                #[trigger] ls.take(i as int)[k],
            ) by {
                assert(runs::in_order(ls[k]));
            }
            assert(runs::canonical(ls.take(i as int)));
        }
        Positions { spans, runs, total, unnumbered }
    }

    /// How many addresses are numbered.
    pub fn total(&self) -> (total: u64)
        ensures
            total == self.count(),
    {
        proof {
            use_type_invariant(self);
        }
        self.total
    }

    /// Whether nothing is numbered at all.
    ///
    /// A plan whose first range is already too large is empty by this and still
    /// holds every address it was built from; see
    /// [`unnumbered`](Self::unnumbered).
    pub fn is_empty(&self) -> (empty: bool)
        ensures
            empty == (self.count() == 0),
    {
        proof {
            use_type_invariant(self);
        }
        self.total == 0
    }

    /// The ranges the numbering could not reach, in enumeration order.
    pub fn unnumbered(&self) -> (ranges: &[IpRange])
        ensures
            holding::range_views(ranges@) == self.beyond(),
    {
        self.unnumbered.as_slice()
    }

    /// Where `ip` falls in the enumeration, or `None` when the set does not hold
    /// it, holds it beyond what a position can count, or holds it at two
    /// positions.
    ///
    /// An address carries no interface, so one that two interfaces hold cannot
    /// say which of its positions it means, and picking one would settle a
    /// position belonging to the other.
    pub fn find(&self, ip: IpAddr) -> (position: Option<u64>)
        ensures
            match position {
                Some(p) => {
                    &&& p < self.count()
                    &&& nth(self.numbered(), p as int) == ip
                    &&& forall|q: int|
                        0 <= q < self.count() && #[trigger] nth(self.numbered(), q) == ip ==> q == p
                },
                None => forall|p: int|
                    0 <= p < self.count() && #[trigger] nth(self.numbered(), p) == ip
                        ==> exists|q: int|
                        q != p && 0 <= q < self.count() && #[trigger] nth(self.numbered(), q) == ip,
            },
    {
        proof {
            use_type_invariant(self);
        }
        let ghost ls = self.numbered();
        match self.span_holding(ip) {
            Ok(i) => {
                let span = self.spans[i];
                let (_, first, _) = ends_of(&span.range);
                let key: u128 = match ip {
                    IpAddr::V4(a) => a.bits as u128,
                    IpAddr::V6(a) => a.bits,
                };
                proof {
                    assert(ls[i as int] == span.range@);
                    assert(span.start == before(ls, i as int));
                    lemma_position_in(ls, i as int, ip);
                    assert forall|q: int| 0 <= q < self.count() && #[trigger] nth(ls, q) == ip
                        implies q == before(ls, i as int) + (line_of(ip) - ls[i as int].lo()) by {
                        lemma_slot_exists(ls, q);
                        lemma_nth(ls, q, slot(ls, q));
                        assert(covers_at(ls, slot(ls, q), ip));
                    }
                }
                Some(span.start + (key - first) as u64)
            },
            Err(_) => {
                proof {
                    assert forall|p: int| 0 <= p < self.count() && #[trigger] nth(ls, p) == ip
                        implies exists|q: int|
                        q != p && 0 <= q < self.count() && #[trigger] nth(ls, q) == ip by {
                        lemma_slot_exists(ls, p);
                        lemma_nth(ls, p, slot(ls, p));
                        assert(covers_at(ls, slot(ls, p), ip));
                        let (i, j) = choose|i: int, j: int|
                            i < j && covers_at(ls, i, ip) && covers_at(ls, j, ip);
                        lemma_two_positions(ls, i, j, ip);
                    }
                }
                None
            },
        }
    }

    /// The one span that holds an address, or whether several do.
    fn span_holding(&self, ip: IpAddr) -> (found: Result<usize, bool>)
        ensures
            match found {
                Ok(i) => covers_at(self.numbered(), i as int, ip) && forall|k: int|
                    #[trigger] covers_at(self.numbered(), k, ip) ==> k == i,
                Err(several) => if several {
                    exists|i: int, j: int|
                        i < j && covers_at(self.numbered(), i, ip) && covers_at(
                            self.numbered(),
                            j,
                            ip,
                        )
                } else {
                    forall|k: int| !#[trigger] covers_at(self.numbered(), k, ip)
                },
            },
    {
        proof {
            use_type_invariant(self);
        }
        let ghost ls = self.numbered();
        proof {
            self.lemma_runs_in_order();
        }
        let (v6, key): (bool, u128) = match ip {
            IpAddr::V4(a) => (false, a.bits as u128),
            IpAddr::V6(a) => (true, a.bits),
        };
        let mut found: Option<usize> = None;
        let mut r: usize = 0;
        while r < self.runs.len()
            invariant
                ls == self.numbered(),
                ls.len() == self.spans@.len(),
                runs::canonical(ls),
                runs_are_true(self.spans@, self.runs@),
                forall|r: int, t: int|
                    0 <= r < t < self.runs@.len() ==> (#[trigger] self.runs@[r]).to <= (
                    #[trigger] self.runs@[t]).from,
                v6 == (ip is V6),
                line_of(ip) == floor(v6) + key,
                r <= self.runs@.len(),
                match found {
                    Some(i) => covers_at(ls, i as int, ip) && forall|t: int|
                        r <= t < self.runs@.len() ==> i < (#[trigger] self.runs@[t]).from,
                    None => true,
                },
                forall|t: int, k: int|
                    #![trigger self.runs@[t], covers_at(ls, k, ip)]
                    0 <= t < r && self.runs@[t].from <= k < self.runs@[t].to && covers_at(ls, k, ip)
                        ==> found == Some(k as usize),
            decreases self.runs@.len() - r,
        {
            let run = self.runs[r];
            let at = if run.v6 == v6 {
                proof {
                    self.lemma_a_run_is_one_group(r as int);
                }
                self.find_in_run(run.from, run.to, key)
            } else {
                None
            };
            proof {
                self.lemma_one_in_a_run(r as int, v6, key as int, at, ip);
            }
            match at {
                Some(i) => {
                    match found {
                        Some(j) => {
                            assert(j < self.runs@[r as int].from);
                            assert(covers_at(ls, j as int, ip) && covers_at(ls, i as int, ip));
                            return Err(true);
                        },
                        None => {
                            found = Some(i);
                        },
                    }
                },
                None => {},
            }
            r = r + 1;
        }
        proof {
            assert forall|k: int| #[trigger] covers_at(ls, k, ip) implies found == Some(k as usize)
                && k == k as usize by {
                assert(k < self.spans.len());
                reveal(runs_are_true);
                assert(in_a_run(self.runs@, k));
                let t = choose|t: int|
                    0 <= t < self.runs@.len() && (#[trigger] self.runs@[t]).from <= k
                        < self.runs@[t].to;
                assert(self.runs@[t].from <= k < self.runs@[t].to);
            }
        }
        match found {
            Some(i) => Ok(i),
            None => Err(false),
        }
    }

    proof fn lemma_runs_in_order(self)
        requires
            runs_are_true(self.spans@, self.runs@),
        ensures
            forall|r: int, t: int|
                0 <= r < t < self.runs@.len() ==> (#[trigger] self.runs@[r]).to <= (
                #[trigger] self.runs@[t]).from,
    {
        reveal(runs_are_true);
    }

    proof fn lemma_a_run_is_one_group(self, r: int)
        requires
            runs_are_true(self.spans@, self.runs@),
            0 <= r < self.runs@.len(),
        ensures
            self.runs@[r].from < self.runs@[r].to <= self.spans@.len(),
            forall|i: int|
                self.runs@[r].from <= i < self.runs@[r].to ==> (#[trigger] self.numbered()[i]).zone
                    == self.numbered()[self.runs@[r].from as int].zone && self.numbered()[i].v6
                    == self.numbered()[self.runs@[r].from as int].v6,
    {
        reveal(runs_are_true);
        let (ls, run) = (self.numbered(), self.runs@[r]);
        assert forall|i: int| run.from <= i < run.to implies (#[trigger] ls[i]).zone
            == ls[run.from as int].zone && ls[i].v6 == ls[run.from as int].v6 by {
            assert(ls[i].v6 == self.runs@[r].v6);
            assert(ls[run.from as int].v6 == self.runs@[r].v6);
        }
    }

    /// Of one run's spans at most one covers an address, and a search by number
    /// finds it.
    proof fn lemma_one_in_a_run(self, r: int, v6: bool, key: int, at: Option<usize>, ip: IpAddr)
        requires
            runs::canonical(self.numbered()),
            runs_are_true(self.spans@, self.runs@),
            0 <= r < self.runs@.len(),
            v6 == (ip is V6),
            line_of(ip) == floor(v6) + key,
            match at {
                Some(i) => self.runs@[r].v6 == v6 && self.runs@[r].from <= i < self.runs@[r].to
                    && self.numbered()[i as int].first <= key <= self.numbered()[i as int].last,
                None => self.runs@[r].v6 == v6 ==> forall|i: int|
                    self.runs@[r].from <= i < self.runs@[r].to ==> !((
                    #[trigger] self.numbered()[i]).first <= key <= self.numbered()[i].last),
            },
        ensures
            match at {
                Some(i) => covers_at(self.numbered(), i as int, ip),
                None => true,
            },
            forall|k: int|
                self.runs@[r].from <= k < self.runs@[r].to && #[trigger] covers_at(
                    self.numbered(),
                    k,
                    ip,
                ) ==> at == Some(k as usize),
    {
        reveal(runs_are_true);
        let ls = self.numbered();
        let run = self.runs@[r];
        assert forall|k: int| run.from <= k < run.to implies (#[trigger] ls[k]).v6 == run.v6
            && ls[k].zone == ls[run.from as int].zone && runs::in_order(ls[k]) by {
            assert(ls[k].v6 == self.runs@[r].v6);
        }
        assert forall|k: int| run.from <= k < run.to && #[trigger] covers_at(ls, k, ip) implies at
            == Some(k as usize) by {
            assert(ls[k].v6 == run.v6);
            match at {
                Some(i) => {
                    assert(ls[i as int].v6 == run.v6);
                    if k < i {
                        assert(runs::clear_of(ls[k], ls[i as int]));
                    } else if i < k {
                        assert(runs::clear_of(ls[i as int], ls[k]));
                    }
                },
                None => {},
            }
        }
        match at {
            Some(i) => {
                assert(ls[i as int].v6 == run.v6);
            },
            None => {},
        }
    }

    /// Which span of one run holds an address, by binary search.
    fn find_in_run(&self, from: usize, to: usize, key: u128) -> (at: Option<usize>)
        requires
            from <= to <= self.spans@.len(),
            runs::canonical(self.numbered()),
            forall|i: int|
                from <= i < to ==> (#[trigger] self.numbered()[i]).zone == self.numbered()[from as int].zone
                    && self.numbered()[i].v6 == self.numbered()[from as int].v6,
        ensures
            match at {
                Some(i) => from <= i < to && self.numbered()[i as int].first <= key
                    <= self.numbered()[i as int].last,
                None => forall|i: int|
                    from <= i < to ==> !((#[trigger] self.numbered()[i]).first <= key
                        <= self.numbered()[i].last),
            },
    {
        let ghost ls = self.numbered();
        let mut low: usize = from;
        let mut high: usize = to;
        while low < high
            invariant
                ls == self.numbered(),
                runs::canonical(ls),
                from <= low <= high <= to <= self.spans@.len(),
                forall|i: int|
                    from <= i < to ==> (#[trigger] ls[i]).zone == ls[from as int].zone && ls[i].v6
                        == ls[from as int].v6,
                forall|i: int| from <= i < low ==> (#[trigger] ls[i]).last < key,
                forall|i: int| high <= i < to ==> (#[trigger] ls[i]).first > key,
            decreases high - low,
        {
            let middle: usize = low + (high - low) / 2;
            assert(ls[middle as int] == self.spans@[middle as int].range@);
            let (_, first, last) = ends_of(&self.spans[middle].range);
            if last < key {
                proof {
                    assert forall|i: int| from <= i < middle + 1 implies (#[trigger] ls[i]).last
                        < key by {
                        if i < middle {
                            assert(runs::clear_of(ls[i], ls[middle as int]));
                        }
                    }
                }
                low = middle + 1;
            } else if first > key {
                proof {
                    assert forall|i: int| middle <= i < to implies (#[trigger] ls[i]).first
                        > key by {
                        if i > middle {
                            assert(runs::clear_of(ls[middle as int], ls[i]));
                        }
                    }
                }
                high = middle;
            } else {
                return Some(middle);
            }
        }
        None
    }

    /// The address at `position`, or `None` past the end of the numbering.
    pub fn address_at(&self, position: u64) -> (ip: Option<IpAddr>)
        ensures
            ip == if position < self.count() {
                Some(nth(self.numbered(), position as int))
            } else {
                None
            },
    {
        proof {
            use_type_invariant(self);
        }
        let ghost ls = self.numbered();
        match self.span_at(position) {
            None => None,
            Some(index) => {
                let span = self.spans[index];
                let (v6, first, last) = ends_of(&span.range);
                let offset: u64 = position - span.start;
                proof {
                    assert(ls[index as int] == span.range@);
                    lemma_before_step(ls, index as int);
                    lemma_nth(ls, position as int, index as int);
                }
                let at: u128 = first + offset as u128;
                if v6 {
                    Some(IpAddr::V6(Ipv6Addr { bits: at }))
                } else {
                    Some(IpAddr::V4(Ipv4Addr { bits: at as u32 }))
                }
            },
        }
    }

    /// The index of the span holding `position`.
    fn span_at(&self, position: u64) -> (index: Option<usize>)
        ensures
            match index {
                Some(i) => position < self.count() && in_slot(
                    self.numbered(),
                    position as int,
                    i as int,
                ),
                None => position >= self.count(),
            },
    {
        proof {
            use_type_invariant(self);
        }
        let ghost ls = self.numbered();
        if position >= self.total {
            return None;
        }
        let mut low: usize = 0;
        let mut high: usize = self.spans.len();
        proof {
            lemma_before_grows(ls, 0, ls.len() as int);
        }
        while low < high
            invariant
                ls == self.numbered(),
                ls.len() == self.spans@.len(),
                runs::canonical(ls),
                spans_are_true(self.spans@),
                self.total == runs::gross(ls),
                low <= high <= self.spans@.len(),
                before(ls, low as int) <= position < before(ls, high as int),
            decreases high - low,
        {
            let middle: usize = low + (high - low) / 2;
            let span = self.spans[middle];
            proof {
                assert(span.start == before(ls, middle as int));
                lemma_before_step(ls, middle as int);
                lemma_before_grows(ls, middle + 1, ls.len() as int);
            }
            if span.start + span.len <= position {
                low = middle + 1;
            } else if span.start > position {
                high = middle;
            } else {
                return Some(middle);
            }
        }
        None
    }

    /// The addresses at every position in `wanted`, as ranges.
    ///
    /// A handful of ranges however many addresses they cover. The interface
    /// travels with every piece: a piece of a zoned range is still zoned.
    #[verifier::spinoff_prover]
    #[verifier::rlimit(40)]
    pub fn ranges_in(&self, wanted: Range<u64>) -> (found: Vec<IpRange>)
        ensures
            holding::range_views(found@) == cut_of(
                self.numbered(),
                self.numbered().len() as int,
                wanted.start as int,
                wanted.end as int,
            ),
    {
        proof {
            use_type_invariant(self);
        }
        let ghost ls = self.numbered();
        let (from, end): (u64, u64) = (wanted.start, wanted.end);
        let mut found: Vec<IpRange> = Vec::new();
        let to: u64 = if end < self.total {
            end
        } else {
            self.total
        };
        proof {
            lemma_before_grows(ls, 0, ls.len() as int);
            assert(holding::range_views(found@) =~= Seq::<RangeView>::empty());
        }
        if from >= to {
            proof {
                lemma_nothing_cut(ls, ls.len() as int, from as int, end as int);
            }
            return found;
        }
        let mut index: usize = match self.span_at(from) {
            Some(index) => index,
            None => {
                return found;
            },
        };
        proof {
            lemma_nothing_cut_before(ls, index as int, from as int, end as int);
        }
        while index < self.spans.len() && self.spans[index].start < to
            invariant
                ls == self.numbered(),
                ls.len() == self.spans@.len(),
                runs::canonical(ls),
                spans_are_true(self.spans@),
                self.total == runs::gross(ls),
                from < to,
                to == if end < self.total {
                    end
                } else {
                    self.total
                },
                index <= self.spans@.len(),
                index < ls.len() ==> from < before(ls, index + 1),
                holding::range_views(found@) == cut_of(ls, index as int, from as int, end as int),
            decreases self.spans@.len() - index,
        {
            let span = self.spans[index];
            let skip: u64 = if from > span.start {
                from - span.start
            } else {
                0
            };
            proof {
                assert(ls[index as int] == span.range@);
                lemma_before_step(ls, index as int);
                lemma_before_grows(ls, index + 1, ls.len() as int);
                if index + 1 < ls.len() {
                    lemma_before_grows(ls, index + 1, index + 2);
                }
            }
            let left: u64 = to - span.start;
            let last: u64 = if left < span.len {
                left - 1
            } else {
                span.len - 1
            };
            let ghost before_views = holding::range_views(found@);
            let piece = slice_of(&span.range, skip, last);
            found.push(piece);
            assert(holding::range_views(found@) =~= before_views.push(piece@));
            index = index + 1;
        }
        proof {
            lemma_nothing_cut_after(ls, index as int, ls.len() as int, from as int, end as int);
        }
        found
    }
}

/// The part of a range from its `from`th address to its `to`th, inclusive.
fn slice_of(range: &IpRange, from: u64, to: u64) -> (part: IpRange)
    requires
        from <= to,
        range@.first + to <= range@.last,
    ensures
        part@ == (RangeView { first: range@.first + from, last: range@.first + to, ..range@ }),
{
    let (_, first, last) = ends_of(range);
    let (start, end): (u128, u128) = (first + from as u128, first + to as u128);
    match range {
        IpRange::V4(_) => match Ipv4Range::new(
            Ipv4Addr { bits: start as u32 },
            Ipv4Addr { bits: end as u32 },
        ) {
            Ok(part) => IpRange::V4(part),
            Err(_) => *range,
        },
        IpRange::V6(r) => {
            proof {
                use_type_invariant(r);
            }
            match Ipv6Range::scoped(Ipv6Addr { bits: start }, Ipv6Addr { bits: end }, r.zone()) {
                Ok(part) => IpRange::V6(part),
                Err(_) => *range,
            }
        },
    }
}

/// The part of the first `n` ranges that stands at positions `from..to`: each
/// range that has any, cut down to those.
pub open spec fn cut_of(ls: Seq<RangeView>, n: int, from: int, to: int) -> Seq<RangeView>
    decreases n,
{
    if n <= 0 {
        Seq::empty()
    } else {
        let earlier = cut_of(ls, n - 1, from, to);
        let (start, end) = (before(ls, n - 1), before(ls, n));
        let (a, b) = (
            if from > start {
                from
            } else {
                start
            },
            if to < end {
                to
            } else {
                end
            },
        );
        if a < b {
            earlier.push(
                RangeView {
                    first: ls[n - 1].first + (a - start),
                    last: ls[n - 1].first + (b - 1 - start),
                    ..ls[n - 1]
                },
            )
        } else {
            earlier
        }
    }
}

proof fn lemma_nothing_cut(ls: Seq<RangeView>, n: int, from: int, to: int)
    requires
        runs::all_in_order(ls),
        0 <= n <= ls.len(),
        from >= to || from >= runs::gross(ls),
    ensures
        cut_of(ls, n, from, to) == Seq::<RangeView>::empty(),
    decreases n,
{
    if n > 0 {
        lemma_nothing_cut(ls, n - 1, from, to);
        lemma_before_grows(ls, n, ls.len() as int);
    }
}

proof fn lemma_nothing_cut_before(ls: Seq<RangeView>, n: int, from: int, to: int)
    requires
        runs::all_in_order(ls),
        0 <= n <= ls.len(),
        before(ls, n) <= from,
    ensures
        cut_of(ls, n, from, to) == Seq::<RangeView>::empty(),
    decreases n,
{
    if n > 0 {
        lemma_before_grows(ls, n - 1, n);
        lemma_nothing_cut_before(ls, n - 1, from, to);
    }
}

proof fn lemma_nothing_cut_after(ls: Seq<RangeView>, i: int, n: int, from: int, to: int)
    requires
        runs::all_in_order(ls),
        0 <= i <= n <= ls.len(),
        i < n ==> before(ls, i) >= to || before(ls, i) >= runs::gross(ls),
    ensures
        cut_of(ls, n, from, to) == cut_of(ls, i, from, to),
    decreases n,
{
    if i < n {
        lemma_before_grows(ls, i, n - 1);
        lemma_before_grows(ls, n - 1, ls.len() as int);
        lemma_nothing_cut_after(ls, i, n - 1, from, to);
        lemma_before_grows(ls, n, ls.len() as int);
    }
}

/// The ranges at positions `from..to` hold as many addresses as there are such
/// positions.
proof fn lemma_cut_counts(ls: Seq<RangeView>, n: int, from: int, to: int)
    requires
        runs::all_in_order(ls),
        0 <= n <= ls.len(),
        0 <= from <= to,
    ensures
        runs::all_in_order(cut_of(ls, n, from, to)),
        runs::gross(cut_of(ls, n, from, to)) == ({
            let end = if to < before(ls, n) {
                to
            } else {
                before(ls, n)
            };
            if from < end {
                end - from
            } else {
                0
            }
        }),
    decreases n,
{
    lemma_before_grows(ls, 0, n);
    if n > 0 {
        lemma_cut_counts(ls, n - 1, from, to);
        lemma_before_step(ls, n - 1);
        lemma_before_grows(ls, n - 1, n);
        let earlier = cut_of(ls, n - 1, from, to);
        let all = cut_of(ls, n, from, to);
        assert(runs::in_order(ls[n - 1]));
        if all.len() > earlier.len() {
            assert(all.drop_last() =~= earlier);
            assert forall|k: int| 0 <= k < all.len() implies runs::in_order(#[trigger] all[k]) by {
                if k < earlier.len() {
                    assert(all[k] == earlier[k]);
                }
            }
        }
    }
}

/// The ranges at positions `from..to` hold the addresses at those positions, in
/// order and nothing else.
pub proof fn lemma_ranges_in_hold_those_positions(
    ls: Seq<RangeView>,
    from: int,
    to: int,
    k: int,
)
    requires
        runs::canonical(ls),
        0 <= from <= to <= runs::gross(ls),
        0 <= k < to - from,
    ensures
        runs::gross(cut_of(ls, ls.len() as int, from, to)) == to - from,
        nth(cut_of(ls, ls.len() as int, from, to), k) == nth(ls, from + k),
{
    let n = ls.len() as int;
    lemma_before_grows(ls, 0, n);
    lemma_cut_counts(ls, n, from, to);
    lemma_cut_nth(ls, n, from, to, k);
}

proof fn lemma_cut_nth(ls: Seq<RangeView>, n: int, from: int, to: int, k: int)
    requires
        runs::all_in_order(ls),
        0 <= n <= ls.len(),
        0 <= from <= to <= runs::gross(ls),
        0 <= k,
        from + k < to,
        from + k < before(ls, n),
    ensures
        nth(cut_of(ls, n, from, to), k) == nth(ls, from + k),
    decreases n,
{
    let all = cut_of(ls, n, from, to);
    lemma_before_grows(ls, 0, n);
    lemma_cut_counts(ls, n, from, to);
    if n > 0 {
        let earlier = cut_of(ls, n - 1, from, to);
        lemma_cut_counts(ls, n - 1, from, to);
        lemma_before_step(ls, n - 1);
        lemma_before_grows(ls, 0, n - 1);
        lemma_before_grows(ls, n - 1, n);
        let p = from + k;
        if p < before(ls, n - 1) {
            lemma_cut_nth(ls, n - 1, from, to, k);
            lemma_slot_exists(earlier, k);
            let s = slot(earlier, k);
            if all.len() > earlier.len() {
                assert(all.take(s) =~= earlier.take(s));
                assert(all.take(s + 1) =~= earlier.take(s + 1));
            }
            assert(in_slot(all, k, s));
            lemma_nth(all, k, s);
            lemma_nth(earlier, k, s);
        } else {
            let s = earlier.len() as int;
            assert(all.len() == s + 1);
            assert(all.take(s) =~= earlier);
            assert(all.take(s + 1) =~= all);
            assert(in_slot(all, k, s));
            lemma_nth(all, k, s);
            assert(in_slot(ls, p, n - 1));
            lemma_nth(ls, p, n - 1);
        }
    }
}

/// An address that two ranges cover has two positions.
proof fn lemma_two_positions(ls: Seq<RangeView>, i: int, j: int, ip: IpAddr)
    requires
        runs::all_in_order(ls),
        0 <= i < j < ls.len(),
        range::covers(ls[i].v6, ls[i].first, ls[i].last, ip),
        range::covers(ls[j].v6, ls[j].first, ls[j].last, ip),
    ensures
        forall|p: int|
            0 <= p < runs::gross(ls) && #[trigger] nth(ls, p) == ip ==> exists|q: int|
                q != p && 0 <= q < runs::gross(ls) && #[trigger] nth(ls, q) == ip,
{
    lemma_position_in(ls, i, ip);
    lemma_position_in(ls, j, ip);
    let a = before(ls, i) + (line_of(ip) - ls[i].lo());
    let b = before(ls, j) + (line_of(ip) - ls[j].lo());
    lemma_before_grows(ls, i + 1, j);
    assert(a < b);
    assert forall|p: int| 0 <= p < runs::gross(ls) && #[trigger] nth(ls, p) == ip implies exists|
        q: int,
    |
        q != p && 0 <= q < runs::gross(ls) && #[trigger] nth(ls, q) == ip by {
        if p == a {
            assert(nth(ls, b) == ip);
        } else {
            assert(nth(ls, a) == ip);
        }
    }
}

proof fn lemma_spans_grow(old_spans: Seq<Span>, spans: Seq<Span>, ls: Seq<RangeView>, i: int)
    requires
        0 <= i < ls.len(),
        old_spans.len() == i,
        spans.len() == i + 1,
        spans.drop_last() == old_spans,
        span_views(old_spans) == ls.take(i),
        span_views(spans) == ls.take(i + 1),
        spans_are_true(old_spans),
        spans[i].start == before(ls, i),
        spans[i].len == ls[i].last - ls[i].first + 1,
    ensures
        spans_are_true(spans),
{
    let views = span_views(spans);
    assert forall|k: int| 0 <= k < spans.len() implies (#[trigger] spans[k]).start == before(
        views,
        k,
    ) && spans[k].len == views[k].last - views[k].first + 1 by {
        assert(views.take(k) =~= ls.take(k));
        if k < i {
            assert(spans[k] == old_spans[k]);
            assert(span_views(old_spans).take(k) =~= ls.take(k));
            assert(span_views(old_spans)[k] == ls[k]);
        }
        assert(views[k] == ls[k]);
    }
}

proof fn lemma_runs_grow(
    old_spans: Seq<Span>,
    spans: Seq<Span>,
    old_runs: Seq<Run>,
    cut: Seq<Run>,
    joins: bool,
)
    requires
        spans.len() == old_spans.len() + 1,
        spans.drop_last() == old_spans,
        runs_are_true(old_spans, old_runs),
        old_spans.len() > 0 ==> old_runs.len() > 0 && old_runs.last().to == old_spans.len(),
        joins ==> old_spans.len() > 0 && span_views(spans).last().v6
            == span_views(old_spans).last().v6 && span_views(spans).last().zone
            == span_views(old_spans).last().zone && cut == old_runs.update(
            old_runs.len() - 1,
            Run { from: old_runs.last().from, to: spans.len() as usize, v6: old_runs.last().v6 },
        ) && spans.len() <= usize::MAX,
        !joins ==> cut == old_runs.push(
            Run {
                from: old_spans.len() as usize,
                to: spans.len() as usize,
                v6: span_views(spans).last().v6,
            },
        ) && spans.len() <= usize::MAX,
    ensures
        runs_are_true(spans, cut),
        cut.len() > 0,
        cut.last().to == spans.len(),
{
    reveal(runs_are_true);
    let n = old_spans.len() as int;
    let (was, ls) = (span_views(old_spans), span_views(spans));
    assert forall|i: int| 0 <= i < n implies #[trigger] ls[i] == was[i] by {
        assert(spans[i] == old_spans[i]);
    }
    let l = old_runs.len() - 1;
    assert forall|r: int, i: int| 0 <= r < cut.len() && cut[r].from <= i < cut[r].to implies (
    #[trigger] ls[i]).v6 == (#[trigger] cut[r]).v6 && ls[i].zone
        == ls[cut[r].from as int].zone by {
        if r <= l {
            assert(old_runs[r].from < old_runs[r].to);
            assert(was[old_runs[r].from as int].v6 == old_runs[r].v6);
            if i < n {
                assert(was[i] == ls[i]);
                assert(old_runs[r].from <= i < old_runs[r].to) by {
                    if r == l && joins {
                    }
                }
                assert(was[i].v6 == old_runs[r].v6);
            } else {
                assert(r == l && joins);
                assert(was[n - 1].v6 == old_runs[l].v6);
            }
        }
    }
    assert forall|i: int| 0 <= i < spans.len() implies #[trigger] in_a_run(cut, i) by {
        if i < n {
            assert(in_a_run(old_runs, i));
            let r = choose|r: int|
                0 <= r < old_runs.len() && (#[trigger] old_runs[r]).from <= i < old_runs[r].to;
            assert(cut[r].from <= i < cut[r].to);
        } else {
            let r = cut.len() - 1;
            assert(cut[r].from <= i < cut[r].to);
        }
    }
    assert forall|r: int, t: int| 0 <= r < t < cut.len() implies (#[trigger] cut[r]).to <= (
    #[trigger] cut[t]).from by {
        if t <= l {
            assert(old_runs[r].to <= old_runs[t].from);
        } else {
            assert(old_runs[r].to <= n) by {
                assert(old_runs[r].from < old_runs[r].to <= old_spans.len());
            }
        }
    }
    assert forall|r: int| 0 <= r < cut.len() implies (#[trigger] cut[r]).from < cut[r].to
        <= spans.len() by {
        if r <= l {
            assert(old_runs[r].from < old_runs[r].to <= old_spans.len());
        }
    }
}

/// Positions ascend: those on no interface in particular come before those on one,
/// interfaces in the order of their numbers, and on each the addresses in theirs,
/// IPv4 first.
pub proof fn lemma_positions_ascend(ls: Seq<RangeView>, p: int, q: int)
    requires
        runs::canonical(ls),
        0 <= p < q < runs::gross(ls),
    ensures
        match (ls[slot(ls, p)].zone, ls[slot(ls, q)].zone) {
            (None, None) => nth(ls, p).rank() < nth(ls, q).rank(),
            (None, Some(_)) => true,
            (Some(_), None) => false,
            (Some(a), Some(b)) => a < b || (a == b && nth(ls, p).rank() < nth(ls, q).rank()),
        },
        range::covers(
            ls[slot(ls, p)].v6,
            ls[slot(ls, p)].first,
            ls[slot(ls, p)].last,
            nth(ls, p),
        ),
{
    lemma_slot_exists(ls, p);
    lemma_slot_exists(ls, q);
    let (i, j) = (slot(ls, p), slot(ls, q));
    lemma_nth(ls, p, i);
    lemma_nth(ls, q, j);
    assert(runs::in_order(ls[i]) && runs::in_order(ls[j]));
    if j < i {
        lemma_before_grows(ls, j + 1, i);
    }
    if i < j {
        assert(runs::clear_of(ls[i], ls[j]));
        lemma_before_step(ls, i);
    }
}

impl Positions {
    /// Every address of a set has a position where there are positions enough, that
    /// is where the set holds fewer than two to the sixty-fourth.
    pub proof fn lemma_a_set_that_can_be_numbered_is(self, holding: Holding)
        requires
            self.numbers(holding),
            runs::gross(self.numbered() + self.beyond()) < 0x1_0000_0000_0000_0000,
        ensures
            self.beyond().len() == 0,
            is_listing(self.numbered(), holding),
    {
        let (numbered, beyond) = (self.numbered(), self.beyond());
        let all = numbered + beyond;
        if beyond.len() > 0 {
            let first = numbered.push(beyond[0]);
            let n = first.len() as int;
            assert(all.take(n) =~= first);
            lemma_before_grows(all, n, all.len() as int);
            assert(false);
        }
        assert(all =~= numbered);
    }
}

} // verus!
