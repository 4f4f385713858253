//! # Sets of addresses
//!
//! [`IpSet`] holds addresses as ranges and merges them lazily: adding a range
//! appends it, and [`canonicalize`](IpSet::canonicalize) sorts and merges once,
//! at the point the set stops being built and starts being read. Merging after
//! each addition would make loading a long list quadratic.
//!
//! You do not have to track which state a set is in. A set is modelled by the
//! addresses it holds, each with the interface it is on where it is on one, and
//! every query is stated over that model: [`contains`](IpSet::contains) and
//! [`len`](IpSet::len) answer the same whether the ranges are merged or not.

use crate::model::ip::addr::{IpAddr, Ipv4Addr, Ipv6Addr};
use crate::model::ip::holding;
use crate::model::ip::holding::Holding;
use crate::model::ip::range;
use crate::model::ip::range::{IpError, IpRange, Ipv4Range, Ipv6Range, RangeFault, RangeView};
use crate::model::ip::runs;
use crate::model::ip::runs::{Numbered, Stretch};
use crate::text;
use vstd::prelude::*;

verus! {

/// Why a written address specification could not be read as a set.
#[non_exhaustive]
#[derive(Debug, Clone, PartialEq, Eq)]
pub enum IpSetError {
    /// The text named something that is not an address or a range.
    InvalidTarget(IpError),
}

impl View for IpSetError {
    type V = RangeFault;

    open spec fn view(&self) -> RangeFault {
        match self {
            IpSetError::InvalidTarget(e) => e@,
        }
    }
}

impl IpSetError {
    /// What went wrong, and with what.
    pub fn to_string(&self) -> (message: String)
        ensures
            message@ == "Invalid target in set: "@ + range::fault_text(self@),
    {
        match self {
            IpSetError::InvalidTarget(e) => {
                let mut message = "Invalid target in set: ".to_owned();
                let reason = e.to_string();
                message.append(reason.as_str());
                message
            },
        }
    }
}

impl Numbered for Ipv4Range {
    open spec fn lo(&self) -> int {
        self.first()
    }

    open spec fn hi(&self) -> int {
        self.last()
    }

    open spec fn scope(&self) -> Option<u32> {
        None
    }

    open spec fn sound(&self) -> bool {
        self.is_range()
    }

    proof fn ends_decide(a: Self, b: Self) {
        Ipv4Range::lemma_the_ends_are_the_range(a, b);
    }
}

impl Stretch for Ipv4Range {
    fn ends(&self) -> (ends: (u128, u128)) {
        (self.start_addr().bits as u128, self.end_addr().bits as u128)
    }

    fn scoped_to(&self) -> (scope: Option<u32>) {
        None
    }

    fn part(&self, lo: u128, hi: u128) -> (part: Self) {
        proof {
            use_type_invariant(self);
        }
        match Ipv4Range::new(Ipv4Addr { bits: lo as u32 }, Ipv4Addr { bits: hi as u32 }) {
            Ok(part) => part,
            Err(_) => *self,
        }
    }

    fn reaching(&self, other: &Self) -> (reached: Self) {
        let mut reached = *self;
        reached.extend_end_to(other.end_addr());
        proof {
            use_type_invariant(&reached);
        }
        reached
    }
}

impl Numbered for Ipv6Range {
    open spec fn lo(&self) -> int {
        self.first()
    }

    open spec fn hi(&self) -> int {
        self.last()
    }

    open spec fn scope(&self) -> Option<u32> {
        self.on()
    }

    open spec fn sound(&self) -> bool {
        self.is_range()
    }

    proof fn ends_decide(a: Self, b: Self) {
        Ipv6Range::lemma_the_ends_are_the_range(a, b);
    }
}

impl Stretch for Ipv6Range {
    fn ends(&self) -> (ends: (u128, u128)) {
        (self.start_addr().bits, self.end_addr().bits)
    }

    fn scoped_to(&self) -> (scope: Option<u32>) {
        self.zone()
    }

    fn part(&self, lo: u128, hi: u128) -> (part: Self) {
        proof {
            use_type_invariant(self);
        }
        match Ipv6Range::scoped(Ipv6Addr { bits: lo }, Ipv6Addr { bits: hi }, self.zone()) {
            Ok(part) => part,
            Err(_) => *self,
        }
    }

    fn reaching(&self, other: &Self) -> (reached: Self) {
        let mut reached = *self;
        reached.extend_end_to(other.end_addr());
        proof {
            use_type_invariant(&reached);
        }
        reached
    }
}

/// A collection of unique IP addresses stored as sorted, non-overlapping ranges.
///
/// Overlapping and adjacent ranges are merged lazily. Equality is over the
/// addresses held, not over how the set was built.
#[derive(Debug)]
pub struct IpSet {
    v4: Vec<Ipv4Range>,
    v6: Vec<Ipv6Range>,
    v4_dirty: bool,
    v6_dirty: bool,
}

impl View for IpSet {
    type V = Holding;

    closed spec fn view(&self) -> Holding {
        holding::held(self.v4@, self.v6@)
    }
}

proof fn lemma_push_v4(v4: Seq<Ipv4Range>, v6: Seq<Ipv6Range>, r: Ipv4Range)
    ensures
        holding::held(v4.push(r), v6) == holding::held(v4, v6).union(holding::range_held(IpRange::V4(r)@)),
{
    runs::lemma_covered_push(v4, r);
    assert(holding::held(v4.push(r), v6) =~= holding::held(v4, v6).union(holding::range_held(IpRange::V4(r)@)));
}

proof fn lemma_push_v6(v4: Seq<Ipv4Range>, v6: Seq<Ipv6Range>, r: Ipv6Range)
    ensures
        holding::held(v4, v6.push(r)) == holding::held(v4, v6).union(holding::range_held(IpRange::V6(r)@)),
{
    runs::lemma_covered_push(v6, r);
    assert(holding::held(v4, v6.push(r)) =~= holding::held(v4, v6).union(holding::range_held(IpRange::V6(r)@)));
}

/// A range of one address holds that address alone.
proof fn lemma_single(ip: IpAddr, r: RangeView)
    requires
        r.zone is None,
        match ip {
            IpAddr::V4(a) => !r.v6 && r.first == a.bits && r.last == a.bits,
            IpAddr::V6(a) => r.v6 && r.first == a.bits && r.last == a.bits,
        },
    ensures
        holding::range_held(r) == Set::<(IpAddr, Option<u32>)>::empty().insert((ip, None::<u32>)),
{
    assert(holding::range_held(r) =~= Set::<(IpAddr, Option<u32>)>::empty().insert((ip, None::<u32>)));
}

/// A list that holds something covers it, and one of no ranges holds nothing.
proof fn lemma_empty(v4: Seq<Ipv4Range>, v6: Seq<Ipv6Range>)
    requires
        runs::all_in_order(v4),
        runs::all_in_order(v6),
    ensures
        holding::held(v4, v6) == Set::<(IpAddr, Option<u32>)>::empty() <==> v4.len() == 0 && v6.len() == 0,
{
    if v4.len() > 0 {
        assert(runs::in_order(v4[0]));
        let p = (IpAddr::V4(Ipv4Addr { bits: v4[0].lo() as u32 }), None::<u32>);
        assert(runs::held_by(v4[0], (None::<u32>, v4[0].lo())));
        assert(holding::held(v4, v6).contains(p));
    } else if v6.len() > 0 {
        assert(runs::in_order(v6[0]));
        let p = (IpAddr::V6(Ipv6Addr { bits: v6[0].lo() as u128 }), v6[0].scope());
        assert(runs::held_by(v6[0], (v6[0].scope(), v6[0].lo())));
        assert(holding::held(v4, v6).contains(p));
    } else {
        assert(holding::held(v4, v6) =~= Set::<(IpAddr, Option<u32>)>::empty());
    }
}

/// What is held decides what each family's list covers.
proof fn lemma_held_decides(
    a4: Seq<Ipv4Range>,
    a6: Seq<Ipv6Range>,
    b4: Seq<Ipv4Range>,
    b6: Seq<Ipv6Range>,
)
    requires
        runs::all_in_order(a4),
        runs::all_in_order(a6),
        runs::all_in_order(b4),
        runs::all_in_order(b6),
        holding::held(a4, a6) == holding::held(b4, b6),
    ensures
        runs::covered(a4) == runs::covered(b4),
        runs::covered(a6) == runs::covered(b6),
{
    assert forall|p: (Option<u32>, int)| runs::covered(a4).contains(p) <==> runs::covered(
        b4,
    ).contains(p) by {
        lemma_covered_v4_fits(a4, p);
        lemma_covered_v4_fits(b4, p);
        if runs::covered(a4).contains(p) || runs::covered(b4).contains(p) {
            let q = (IpAddr::V4(Ipv4Addr { bits: p.1 as u32 }), p.0);
            assert((p.0, (p.1 as u32) as int) == p);
            assert(holding::held(a4, a6).contains(q) <==> runs::covered(a4).contains(p));
            assert(holding::held(b4, b6).contains(q) <==> runs::covered(b4).contains(p));
        }
    }
    assert forall|p: (Option<u32>, int)| runs::covered(a6).contains(p) <==> runs::covered(
        b6,
    ).contains(p) by {
        lemma_covered_v6_fits(a6, p);
        lemma_covered_v6_fits(b6, p);
        if runs::covered(a6).contains(p) || runs::covered(b6).contains(p) {
            let q = (IpAddr::V6(Ipv6Addr { bits: p.1 as u128 }), p.0);
            assert((p.0, (p.1 as u128) as int) == p);
            assert(holding::held(a4, a6).contains(q) <==> runs::covered(a6).contains(p));
            assert(holding::held(b4, b6).contains(q) <==> runs::covered(b6).contains(p));
        }
    }
    assert(runs::covered(a4) =~= runs::covered(b4));
    assert(runs::covered(a6) =~= runs::covered(b6));
}

proof fn lemma_covered_v4_fits(v4: Seq<Ipv4Range>, p: (Option<u32>, int))
    requires
        runs::all_in_order(v4),
    ensures
        runs::covered(v4).contains(p) ==> 0 <= p.1 <= u32::MAX && p.0 is None,
{
    if runs::covered(v4).contains(p) {
        let i = choose|i: int| 0 <= i < v4.len() && #[trigger] runs::held_by(v4[i], p);
        assert(runs::in_order(v4[i]));
    }
}

proof fn lemma_covered_v6_fits(v6: Seq<Ipv6Range>, p: (Option<u32>, int))
    requires
        runs::all_in_order(v6),
    ensures
        runs::covered(v6).contains(p) ==> 0 <= p.1 <= u128::MAX,
{
    if runs::covered(v6).contains(p) {
        let i = choose|i: int| 0 <= i < v6.len() && #[trigger] runs::held_by(v6[i], p);
        assert(runs::in_order(v6[i]));
    }
}

/// As many addresses are held as the two families' lists cover.
proof fn lemma_held_counts(v4: Seq<Ipv4Range>, v6: Seq<Ipv6Range>)
    requires
        runs::all_in_order(v4),
        runs::all_in_order(v6),
    ensures
        holding::held(v4, v6).finite(),
        holding::held(v4, v6).len() == runs::covered(v4).len() + runs::covered(v6).len(),
{
    let (c4, c6) = (runs::covered(v4), runs::covered(v6));
    runs::lemma_gross_is_no_undercount(v4);
    runs::lemma_gross_is_no_undercount(v6);
    let f4 = |p: (Option<u32>, int)| (IpAddr::V4(Ipv4Addr { bits: p.1 as u32 }), p.0);
    let f6 = |p: (Option<u32>, int)| (IpAddr::V6(Ipv6Addr { bits: p.1 as u128 }), p.0);
    let (h4, h6) = (c4.map(f4), c6.map(f6));
    assert forall|p: (Option<u32>, int)| #[trigger] c4.contains(p) implies 0 <= p.1 <= u32::MAX by {
        lemma_covered_v4_fits(v4, p);
    }
    assert forall|p: (Option<u32>, int)| #[trigger]
        c6.contains(p) implies 0 <= p.1 <= u128::MAX by {
        lemma_covered_v6_fits(v6, p);
    }
    assert(vstd::relations::injective_on(f4, c4));
    assert(vstd::relations::injective_on(f6, c6));
    vstd::set_lib::lemma_map_size(c4, h4, f4);
    vstd::set_lib::lemma_map_size(c6, h6, f6);
    assert forall|q: (IpAddr, Option<u32>)| holding::held(v4, v6).contains(q) <==> (h4 + h6).contains(q) by {
        match q.0 {
            IpAddr::V4(a) => {
                let p = (q.1, a.bits as int);
                assert(f4(p) == q);
                if c4.contains(p) {
                    assert(h4.contains(q));
                }
                if h4.contains(q) {
                    let x = choose|x: (Option<u32>, int)| c4.contains(x) && f4(x) == q;
                    assert(x == p);
                }
                assert(!h6.contains(q));
            },
            IpAddr::V6(a) => {
                let p = (q.1, a.bits as int);
                assert(f6(p) == q);
                if c6.contains(p) {
                    assert(h6.contains(q));
                }
                if h6.contains(q) {
                    let x = choose|x: (Option<u32>, int)| c6.contains(x) && f6(x) == q;
                    assert(x == p);
                }
                assert(!h4.contains(q));
            },
        }
    }
    assert(holding::held(v4, v6) =~= h4 + h6);
    assert(h4.disjoint(h6));
    vstd::set_lib::lemma_set_disjoint_lens(h4, h6);
}

impl IpSet {
    /// The IPv4 ranges, as they are stored.
    pub closed spec fn v4_ranges(&self) -> Seq<Ipv4Range> {
        self.v4@
    }

    /// The IPv6 ranges, as they are stored.
    pub closed spec fn v6_ranges(&self) -> Seq<Ipv6Range> {
        self.v6@
    }

    /// What a set holds is what its stored ranges cover.
    pub proof fn lemma_holds_what_it_stores(self)
        ensures
            self@ == holding::held(self.v4_ranges(), self.v6_ranges()),
    {
    }

    /// Whether both families are stored sorted and merged.
    pub open spec fn is_canonical(&self) -> bool {
        runs::canonical(self.v4_ranges()) && runs::canonical(self.v6_ranges())
    }

    /// How many addresses the stored ranges of both families cover, counting an
    /// overlap once for each range it is in.
    pub open spec fn gross_count(&self) -> int {
        runs::gross(self.v4_ranges()) + runs::gross(self.v6_ranges())
    }

    #[verifier::type_invariant]
    spec fn state_is_true(self) -> bool {
        &&& runs::all_in_order(self.v4@)
        &&& runs::all_in_order(self.v6@)
        &&& !self.v4_dirty ==> runs::canonical(self.v4@)
        &&& !self.v6_dirty ==> runs::canonical(self.v6@)
    }

    /// Creates a new, empty `IpSet`.
    pub fn new() -> (set: Self)
        ensures
            set@ == Set::<(IpAddr, Option<u32>)>::empty(),
            set.is_canonical(),
            set.gross_count() == 0,
            set.v4_ranges().len() == 0,
            set.v6_ranges().len() == 0,
    {
        let set = IpSet { v4: Vec::new(), v6: Vec::new(), v4_dirty: false, v6_dirty: false };
        proof {
            lemma_empty(set.v4@, set.v6@);
        }
        set
    }

    /// Adds a single IP address to the set.
    ///
    /// It appends and defers the merge.
    pub fn insert(&mut self, ip: IpAddr)
        ensures
            final(self)@ == old(self)@.insert((ip, None::<u32>)),
            final(self).gross_count() == old(self).gross_count() + 1,
            match ip {
                IpAddr::V4(a) => final(self).v6_ranges() == old(self).v6_ranges()
                    && final(self).v4_ranges() == old(self).v4_ranges().push(
                    final(self).v4_ranges().last(),
                ) && final(self).v4_ranges().last().first() == a.bits
                    && final(self).v4_ranges().last().last() == a.bits,
                IpAddr::V6(a) => final(self).v4_ranges() == old(self).v4_ranges()
                    && final(self).v6_ranges() == old(self).v6_ranges().push(
                    final(self).v6_ranges().last(),
                ) && final(self).v6_ranges().last().first() == a.bits
                    && final(self).v6_ranges().last().last() == a.bits
                    && final(self).v6_ranges().last().on() is None,
            },
    {
        match ip {
            IpAddr::V4(v4) => {
                let range = Ipv4Range::single(v4);
                proof {
                    lemma_single(ip, IpRange::V4(range)@);
                }
                self.push_v4_range(range);
            },
            IpAddr::V6(v6) => {
                let range = Ipv6Range::single(v6);
                proof {
                    lemma_single(ip, IpRange::V6(range)@);
                }
                self.push_v6_range(range);
            },
        }
        assert(self@ =~= old(self)@.insert((ip, None::<u32>)));
    }

    /// Adds a unified IP range to the set.
    pub fn insert_range(&mut self, range: IpRange)
        ensures
            final(self)@ == old(self)@.union(holding::range_held(range@)),
            final(self).gross_count() == old(self).gross_count() + (range@.last - range@.first + 1),
            match range {
                IpRange::V4(r) => final(self).v4_ranges() == old(self).v4_ranges().push(r)
                    && final(self).v6_ranges() == old(self).v6_ranges(),
                IpRange::V6(r) => final(self).v6_ranges() == old(self).v6_ranges().push(r)
                    && final(self).v4_ranges() == old(self).v4_ranges(),
            },
    {
        match range {
            IpRange::V4(r) => self.push_v4_range(r),
            IpRange::V6(r) => self.push_v6_range(r),
        }
    }

    /// Appends an IPv4 range without immediate merging.
    pub fn push_v4_range(&mut self, range: Ipv4Range)
        ensures
            final(self)@ == old(self)@.union(holding::range_held(IpRange::V4(range)@)),
            final(self).v4_ranges() == old(self).v4_ranges().push(range),
            final(self).v6_ranges() == old(self).v6_ranges(),
            final(self).gross_count() == old(self).gross_count() + (range.last() - range.first()
                + 1),
    {
        proof {
            use_type_invariant(&*self);
            use_type_invariant(&range);
            lemma_push_v4(self.v4@, self.v6@, range);
            assert(self.v4@.push(range).drop_last() =~= self.v4@);
        }
        let mut v4: Vec<Ipv4Range> = Vec::new();
        self.v4_dirty = true;
        std::mem::swap(&mut v4, &mut self.v4);
        v4.push(range);
        self.v4 = v4;
    }

    /// Appends an IPv6 range without immediate merging.
    pub fn push_v6_range(&mut self, range: Ipv6Range)
        ensures
            final(self)@ == old(self)@.union(holding::range_held(IpRange::V6(range)@)),
            final(self).v6_ranges() == old(self).v6_ranges().push(range),
            final(self).v4_ranges() == old(self).v4_ranges(),
            final(self).gross_count() == old(self).gross_count() + (range.last() - range.first()
                + 1),
    {
        proof {
            use_type_invariant(&*self);
            use_type_invariant(&range);
            lemma_push_v6(self.v4@, self.v6@, range);
            assert(self.v6@.push(range).drop_last() =~= self.v6@);
        }
        let mut v6: Vec<Ipv6Range> = Vec::new();
        self.v6_dirty = true;
        std::mem::swap(&mut v6, &mut self.v6);
        v6.push(range);
        self.v6 = v6;
    }

    /// Sorts and merges the ranges, so that every read afterwards takes its
    /// fast path.
    ///
    /// It changes nothing about what the set holds.
    pub fn canonicalize(&mut self)
        ensures
            final(self)@ == old(self)@,
            final(self).is_canonical(),
    {
        proof {
            use_type_invariant(&*self);
        }
        if self.v4_dirty {
            self.merge_v4();
        }
        if self.v6_dirty {
            self.merge_v6();
        }
        proof {
            use_type_invariant(&*self);
        }
    }

    fn merge_v4(&mut self)
        ensures
            final(self)@ == old(self)@,
            final(self).v6@ == old(self).v6@,
            final(self).v6_dirty == old(self).v6_dirty,
            !final(self).v4_dirty,
    {
        proof {
            use_type_invariant(&*self);
        }
        let merged = runs::merge(&self.v4);
        assert(holding::held(merged@, self.v6@) =~= holding::held(self.v4@, self.v6@));
        self.v4 = merged;
        self.v4_dirty = false;
    }

    /// Sorts and merges the IPv6 ranges, keeping ranges on different interfaces
    /// apart.
    ///
    /// Two link-local ranges spanning the same numbers on two interfaces are two
    /// different sets of machines, so adjacency alone is not enough to combine
    /// two ranges; they have to agree on scope.
    fn merge_v6(&mut self)
        ensures
            final(self)@ == old(self)@,
            final(self).v4@ == old(self).v4@,
            final(self).v4_dirty == old(self).v4_dirty,
            !final(self).v6_dirty,
    {
        proof {
            use_type_invariant(&*self);
        }
        let merged = runs::merge(&self.v6);
        assert(holding::held(self.v4@, merged@) =~= holding::held(self.v4@, self.v6@));
        self.v6 = merged;
        self.v6_dirty = false;
    }

    /// Removes every address `other` holds from this set.
    ///
    /// This set is canonicalized first, and left canonical. `other` is read in
    /// whatever state it is in. Afterwards
    /// [`contains`](Self::contains) answers `false` for every address `other`
    /// contained, and that property is what makes this usable as a policy rather
    /// than merely as an optimisation.
    ///
    /// **Blind to zones, exactly as [`contains`](Self::contains) is.** A range in
    /// `other` removes those addresses from every interface, whether or not
    /// either side named one. Where the two readings differ this is the one that
    /// removes more.
    ///
    /// Linear in the *ranges* of both sides and never in their addresses.
    pub fn subtract(&mut self, other: &IpSet)
        ensures
            final(self)@ == holding::without(old(self)@, other@),
            final(self).is_canonical(),
    {
        self.canonicalize();
        if other.is_empty() || self.is_empty() {
            assert(self@ =~= holding::without(self@, other@));
            return;
        }
        let ghost before = self@;
        if self.v4.len() > 0 {
            let cuts = runs::flatten(&other.v4);
            let kept = runs::subtract(&self.v4, &cuts);
            proof {
                assert(holding::held(kept@, self.v6@) =~= Set::new(
                    |p: (IpAddr, Option<u32>)|
                        before.contains(p) && !(p.0 is V4 && holding::on_any(other@, p.0)),
                )) by {
                    assert forall|p: (IpAddr, Option<u32>)| p.0 is V4 implies (holding::on_any(other@, p.0)
                        <==> runs::anywhere(cuts@, p.0->V4_0.bits as int)) by {
                        let n = p.0->V4_0.bits as int;
                        if holding::on_any(other@, p.0) {
                            let zone = choose|zone: Option<u32>| other@.contains((p.0, zone));
                            assert(runs::covered(other.v4@).contains((zone, n)));
                            assert(runs::anywhere(other.v4@, n));
                        }
                        if runs::anywhere(other.v4@, n) {
                            let zone = choose|zone: Option<u32>| #[trigger]
                                runs::covered(other.v4@).contains((zone, n));
                            assert(other@.contains((p.0, zone)));
                        }
                    }
                }
            }
            self.v4 = kept;
        } else {
            assert(before =~= Set::new(
                |p: (IpAddr, Option<u32>)|
                    before.contains(p) && !(p.0 is V4 && holding::on_any(other@, p.0)),
            )) by {
                assert forall|p: (IpAddr, Option<u32>)| before.contains(p) implies !(p.0 is V4) by {
                    if p.0 is V4 {
                        assert(runs::covered(self.v4@).contains((p.1, p.0->V4_0.bits as int)));
                    }
                }
            }
        }
        let ghost between = self@;
        if self.v6.len() > 0 {
            let cuts = runs::flatten(&other.v6);
            let kept = runs::subtract(&self.v6, &cuts);
            proof {
                assert(holding::held(self.v4@, kept@) =~= Set::new(
                    |p: (IpAddr, Option<u32>)|
                        between.contains(p) && !(p.0 is V6 && holding::on_any(other@, p.0)),
                )) by {
                    assert forall|p: (IpAddr, Option<u32>)| p.0 is V6 implies (holding::on_any(other@, p.0)
                        <==> runs::anywhere(cuts@, p.0->V6_0.bits as int)) by {
                        let n = p.0->V6_0.bits as int;
                        if holding::on_any(other@, p.0) {
                            let zone = choose|zone: Option<u32>| other@.contains((p.0, zone));
                            assert(runs::covered(other.v6@).contains((zone, n)));
                            assert(runs::anywhere(other.v6@, n));
                        }
                        if runs::anywhere(other.v6@, n) {
                            let zone = choose|zone: Option<u32>| #[trigger]
                                runs::covered(other.v6@).contains((zone, n));
                            assert(other@.contains((p.0, zone)));
                        }
                    }
                }
            }
            self.v6 = kept;
        } else {
            assert(between =~= Set::new(
                |p: (IpAddr, Option<u32>)|
                    between.contains(p) && !(p.0 is V6 && holding::on_any(other@, p.0)),
            )) by {
                assert forall|p: (IpAddr, Option<u32>)| between.contains(p) implies !(
                p.0 is V6) by {
                    if p.0 is V6 {
                        assert(runs::covered(self.v6@).contains((p.1, p.0->V6_0.bits as int)));
                    }
                }
            }
        }
        proof {
            assert(self@ =~= holding::without(before, other@));
        }
    }

    /// Whether the set contains the given IP address, on any interface.
    ///
    /// Deliberately blind to zones: a reply arrives as a bare address with no
    /// interface attached to compare.
    ///
    /// Correct whatever state the set is in: a binary search when the address's
    /// own family is merged, and a linear scan of that family's unmerged ranges
    /// when it is not.
    pub fn contains(&self, ip: &IpAddr) -> (held: bool)
        ensures
            held == holding::on_any(self@, *ip),
    {
        proof {
            use_type_invariant(self);
        }
        let held = match ip {
            IpAddr::V4(v4) => if self.v4_dirty {
                runs::scan(&self.v4, v4.bits as u128)
            } else {
                runs::search(&self.v4, v4.bits as u128)
            },
            IpAddr::V6(v6) => if self.v6_dirty {
                runs::scan(&self.v6, v6.bits)
            } else {
                runs::search(&self.v6, v6.bits)
            },
        };
        proof {
            if held {
                match *ip {
                    IpAddr::V4(a) => {
                        let zone = choose|zone: Option<u32>|
                            runs::covered(self.v4@).contains((zone, a.bits as int));
                        assert(self@.contains((*ip, zone)));
                    },
                    IpAddr::V6(a) => {
                        let zone = choose|zone: Option<u32>|
                            runs::covered(self.v6@).contains((zone, a.bits as int));
                        assert(self@.contains((*ip, zone)));
                    },
                }
            }
            if holding::on_any(self@, *ip) {
                let zone = choose|zone: Option<u32>| self@.contains((*ip, zone));
                match *ip {
                    IpAddr::V4(a) => {
                        assert(runs::covered(self.v4@).contains((zone, a.bits as int)));
                    },
                    IpAddr::V6(a) => {
                        assert(runs::covered(self.v6@).contains((zone, a.bits as int)));
                    },
                }
            }
        }
        held
    }

    /// The number of distinct addresses the set covers, an address on two
    /// interfaces being two.
    ///
    /// Overlapping ranges are counted once, so an unmerged set is merged on a
    /// clone before answering. Saturates rather than wrapping.
    pub fn len(&self) -> (len: u128)
        ensures
            len == range::saturated(self@.len() as int),
            self@.finite(),
    {
        let merged = self.merged();
        proof {
            use_type_invariant(&merged);
            runs::lemma_canonical_counts_exactly(merged.v4@);
            runs::lemma_canonical_counts_exactly(merged.v6@);
            lemma_held_counts(merged.v4@, merged.v6@);
        }
        merged.len_gross()
    }

    /// This set with its ranges merged.
    pub fn merged(&self) -> (merged: IpSet)
        ensures
            merged@ == self@,
            merged.is_canonical(),
    {
        let mut merged = self.clone();
        merged.canonicalize();
        merged
    }

    /// Returns `true` if the set is empty.
    pub fn is_empty(&self) -> (empty: bool)
        ensures
            empty == (self@ == Set::<(IpAddr, Option<u32>)>::empty()),
    {
        proof {
            use_type_invariant(self);
            lemma_empty(self.v4@, self.v6@);
        }
        self.v4.len() == 0 && self.v6.len() == 0
    }

    /// How many addresses the ranges cover, counting overlaps once per range
    /// they appear in.
    ///
    /// Never lower than the true count, so a budget checked against it refuses
    /// early rather than late.
    pub fn len_gross(&self) -> (len: u128)
        ensures
            len == range::saturated(self.gross_count()),
            range::saturated(self@.len() as int) <= len,
            self.gross_count() >= 0,
    {
        proof {
            use_type_invariant(self);
            runs::lemma_gross_is_no_undercount(self.v4@);
            runs::lemma_gross_is_no_undercount(self.v6@);
            lemma_held_counts(self.v4@, self.v6@);
        }
        self.v4_len().saturating_add(self.v6_len())
    }

    /// How many addresses the IPv4 ranges cover, overlaps counted once per range.
    pub fn v4_len(&self) -> (len: u128)
        ensures
            len == range::saturated(runs::gross(self.v4_ranges())),
            runs::gross(self.v4_ranges()) >= 0,
    {
        proof {
            use_type_invariant(self);
        }
        runs::count(&self.v4)
    }

    /// How many addresses the IPv6 ranges cover, overlaps counted once per range.
    pub fn v6_len(&self) -> (len: u128)
        ensures
            len == range::saturated(runs::gross(self.v6_ranges())),
            runs::gross(self.v6_ranges()) >= 0,
    {
        proof {
            use_type_invariant(self);
        }
        runs::count(&self.v6)
    }

    /// The underlying IPv4 ranges. Unless the set is canonicalized they may
    /// overlap and stand in any order.
    pub fn v4(&self) -> (ranges: &[Ipv4Range])
        ensures
            ranges@ == self.v4_ranges(),
            runs::all_in_order(ranges@),
            self@ == holding::held(self.v4_ranges(), self.v6_ranges()),
    {
        proof {
            use_type_invariant(self);
        }
        self.v4.as_slice()
    }

    /// The underlying IPv6 ranges. Unless the set is canonicalized they may
    /// overlap and stand in any order.
    pub fn v6(&self) -> (ranges: &[Ipv6Range])
        ensures
            ranges@ == self.v6_ranges(),
            runs::all_in_order(ranges@),
            self@ == holding::held(self.v4_ranges(), self.v6_ranges()),
    {
        proof {
            use_type_invariant(self);
        }
        self.v6.as_slice()
    }

    /// Adds several addresses.
    pub fn extend(&mut self, ips: &[IpAddr])
        ensures
            final(self)@ == old(self)@.union(
                Set::new(|p: (IpAddr, Option<u32>)| ips@.contains(p.0) && p.1 is None),
            ),
            ips@.len() == 0 ==> *final(self) == *old(self),
            final(self).gross_count() == old(self).gross_count() + ips@.len(),
    {
        let mut i: usize = 0;
        assert(self@ =~= old(self)@.union(
            Set::new(|p: (IpAddr, Option<u32>)| ips@.take(0).contains(p.0) && p.1 is None),
        ));
        while i < ips.len()
            invariant
                i <= ips@.len(),
                i == 0 ==> *self == *old(self),
                self.gross_count() == old(self).gross_count() + i,
                self@ == old(self)@.union(
                    Set::new(
                        |p: (IpAddr, Option<u32>)| ips@.take(i as int).contains(p.0) && p.1 is None,
                    ),
                ),
            decreases ips@.len() - i,
        {
            let ghost before = self@;
            self.insert(ips[i]);
            proof {
                let (took, takes) = (ips@.take(i as int), ips@.take(i + 1));
                assert(takes =~= took.push(ips@[i as int]));
                assert forall|ip: IpAddr| takes.contains(ip) <==> took.contains(ip) || ip
                    == ips@[i as int] by {
                    if took.contains(ip) {
                        let j = choose|j: int| 0 <= j < took.len() && took[j] == ip;
                        assert(takes[j] == ip);
                    }
                    assert(takes[i as int] == ips@[i as int]);
                }
                assert(self@ =~= old(self)@.union(
                    Set::new(|p: (IpAddr, Option<u32>)| takes.contains(p.0) && p.1 is None),
                ));
            }
            i = i + 1;
        }
        assert(ips@.take(i as int) =~= ips@);
    }

    /// The set of the given addresses, merged.
    pub fn from_addresses(ips: &[IpAddr]) -> (set: IpSet)
        ensures
            set@ == Set::new(|p: (IpAddr, Option<u32>)| ips@.contains(p.0) && p.1 is None),
            set.is_canonical(),
    {
        let mut set = IpSet::new();
        set.extend(ips);
        set.canonicalize();
        assert(set@ =~= Set::new(|p: (IpAddr, Option<u32>)| ips@.contains(p.0) && p.1 is None));
        set
    }

    /// The set of the addresses in the given ranges, merged.
    pub fn from_ranges(ranges: &[IpRange]) -> (set: IpSet)
        ensures
            set@ == holding::ranges_held(holding::range_views(ranges@)),
            set.is_canonical(),
    {
        let mut set = IpSet::new();
        let mut i: usize = 0;
        let ghost views = holding::range_views(ranges@);
        assert(set@ =~= holding::ranges_held(views.take(0)));
        while i < ranges.len()
            invariant
                i <= ranges@.len(),
                views == holding::range_views(ranges@),
                set@ == holding::ranges_held(views.take(i as int)),
            decreases ranges@.len() - i,
        {
            set.insert_range(ranges[i]);
            proof {
                assert(views.take(i + 1) =~= views.take(i as int).push(ranges@[i as int]@));
                holding::lemma_ranges_held_push(views.take(i as int), ranges@[i as int]@);
            }
            i = i + 1;
        }
        assert(views.take(i as int) =~= views);
        set.canonicalize();
        set
    }

    /// The set of the addresses in the given sets, merged.
    pub fn from_sets(sets: &[IpSet]) -> (set: IpSet)
        ensures
            set@ == sets_held(sets@),
            set.is_canonical(),
    {
        let mut set = IpSet::new();
        let mut i: usize = 0;
        assert(set@ =~= sets_held(sets@.take(0)));
        while i < sets.len()
            invariant
                i <= sets@.len(),
                set@ == sets_held(sets@.take(i as int)),
            decreases sets@.len() - i,
        {
            set.absorb(&sets[i]);
            proof {
                let (took, takes) = (sets@.take(i as int), sets@.take(i + 1));
                assert forall|p: (IpAddr, Option<u32>)| sets_held(takes).contains(p) <==> sets_held(
                    took,
                ).contains(p) || sets@[i as int]@.contains(p) by {
                    if sets_held(takes).contains(p) {
                        let j = choose|j: int|
                            0 <= j < takes.len() && #[trigger] takes[j]@.contains(p);
                        if j < i {
                            assert(took[j]@.contains(p));
                        }
                    }
                    if sets_held(took).contains(p) {
                        let j = choose|j: int|
                            0 <= j < took.len() && #[trigger] took[j]@.contains(p);
                        assert(takes[j]@.contains(p));
                    }
                    if sets@[i as int]@.contains(p) {
                        assert(takes[i as int]@.contains(p));
                    }
                }
                assert(set@ =~= sets_held(takes));
            }
            i = i + 1;
        }
        assert(sets@.take(i as int) =~= sets@);
        set.canonicalize();
        set
    }

    /// Adds every address another set holds, on the interfaces it holds them on.
    pub fn absorb(&mut self, other: &IpSet)
        ensures
            final(self)@ == old(self)@.union(other@),
            final(self).gross_count() == old(self).gross_count() + other.gross_count(),
            final(self).v4_ranges() == old(self).v4_ranges() + other.v4_ranges(),
            final(self).v6_ranges() == old(self).v6_ranges() + other.v6_ranges(),
    {
        proof {
            use_type_invariant(&*self);
            use_type_invariant(other);
        }
        let ghost (s4, s6) = (self.v4@, self.v6@);
        let mut v4: Vec<Ipv4Range> = Vec::new();
        let mut v6: Vec<Ipv6Range> = Vec::new();
        if other.v4.len() > 0 {
            self.v4_dirty = true;
        }
        if other.v6.len() > 0 {
            self.v6_dirty = true;
        }
        std::mem::swap(&mut v4, &mut self.v4);
        std::mem::swap(&mut v6, &mut self.v6);
        let mut i: usize = 0;
        assert(v4@ =~= s4 + other.v4@.take(0));
        while i < other.v4.len()
            invariant
                i <= other.v4@.len(),
                v4@ == s4 + other.v4@.take(i as int),
            decreases other.v4@.len() - i,
        {
            v4.push(other.v4[i]);
            i = i + 1;
            assert(v4@ =~= s4 + other.v4@.take(i as int));
        }
        let mut j: usize = 0;
        assert(v6@ =~= s6 + other.v6@.take(0));
        while j < other.v6.len()
            invariant
                j <= other.v6@.len(),
                v6@ == s6 + other.v6@.take(j as int),
            decreases other.v6@.len() - j,
        {
            v6.push(other.v6[j]);
            j = j + 1;
            assert(v6@ =~= s6 + other.v6@.take(j as int));
        }
        proof {
            assert(other.v4@.take(i as int) =~= other.v4@);
            assert(other.v6@.take(j as int) =~= other.v6@);
            runs::lemma_covered_joined(s4, other.v4@);
            runs::lemma_covered_joined(s6, other.v6@);
            runs::lemma_gross_joined(s4, other.v4@);
            runs::lemma_gross_joined(s6, other.v6@);
            assert(holding::held(v4@, v6@) =~= holding::held(s4, s6).union(other@));
            if other.v4@.len() == 0 {
                assert(v4@ =~= s4);
            }
            if other.v6@.len() == 0 {
                assert(v6@ =~= s6);
            }
        }
        self.v4 = v4;
        self.v6 = v6;
    }

    /// Reads a list of written ranges, separated by commas or spaces.
    pub fn try_from(value: &str) -> (set: Result<IpSet, IpSetError>)
        ensures
            match (set, ranges_of(text::split_on(value@, seq![',', ' ']))) {
                (Ok(s), Ok(ranges)) => s@ == holding::ranges_held(ranges) && s.is_canonical(),
                (Err(e), Err(f)) => e@ == f,
                _ => false,
            },
    {
        let chars = text::chars_of(value);
        let separators: [char; 2] = [',', ' '];
        assert(separators@ =~= seq![',', ' ']);
        let parts = text::split(chars.as_slice(), separators.as_slice());
        let ghost pieces = text::pieces_of(parts@);
        let ghost mut found: Seq<RangeView> = Seq::empty();
        let mut set = IpSet::new();
        let mut i: usize = 0;
        assert(pieces.take(0).len() == 0);
        assert(set@ =~= holding::ranges_held(found));
        while i < parts.len()
            invariant
                pieces == text::pieces_of(parts@),
                pieces.len() == parts@.len(),
                pieces == text::split_on(value@, seq![',', ' ']),
                i <= parts@.len(),
                ranges_of(pieces.take(i as int)) == Ok::<Seq<RangeView>, RangeFault>(found),
                set@ == holding::ranges_held(found),
            decreases parts@.len() - i,
        {
            let part = parts[i].as_slice();
            proof {
                assert(part@ == pieces[i as int]);
                assert(pieces.take(i + 1).drop_last() =~= pieces.take(i as int));
            }
            if text::trim(part).len() > 0 {
                match IpRange::parse_chars(part) {
                    Ok(r) => {
                        set.insert_range(r);
                        proof {
                            holding::lemma_ranges_held_push(found, r@);
                            found = found.push(r@);
                        }
                    },
                    Err(e) => {
                        proof {
                            lemma_first_fault_stays(pieces, i + 1);
                        }
                        return Err(IpSetError::InvalidTarget(e));
                    },
                }
            }
            i = i + 1;
        }
        assert(pieces.take(i as int) =~= pieces);
        set.canonicalize();
        Ok(set)
    }
}

/// What several sets hold together.
pub open spec fn sets_held(sets: Seq<IpSet>) -> Holding {
    Set::new(
        |p: (IpAddr, Option<u32>)|
            exists|i: int| 0 <= i < sets.len() && (#[trigger] sets[i])@.contains(p),
    )
}

/// The ranges a list of texts writes, the blank ones left out, or the first that
/// is no range.
pub open spec fn ranges_of(pieces: Seq<Seq<char>>) -> Result<Seq<RangeView>, RangeFault>
    decreases pieces.len(),
{
    if pieces.len() == 0 {
        Ok(Seq::empty())
    } else {
        match ranges_of(pieces.drop_last()) {
            Err(fault) => Err(fault),
            Ok(before) => if text::trimmed(pieces.last()).len() == 0 {
                Ok(before)
            } else {
                match range::range_of(pieces.last()) {
                    Ok(r) => Ok(before.push(r)),
                    Err(fault) => Err(fault),
                }
            },
        }
    }
}

proof fn lemma_first_fault_stays(pieces: Seq<Seq<char>>, n: int)
    requires
        0 <= n <= pieces.len(),
        ranges_of(pieces.take(n)) is Err,
    ensures
        ranges_of(pieces) == ranges_of(pieces.take(n)),
    decreases pieces.len(),
{
    if n == pieces.len() {
        assert(pieces.take(n) =~= pieces);
    } else {
        assert(pieces.drop_last().take(n) =~= pieces.take(n));
        lemma_first_fault_stays(pieces.drop_last(), n);
    }
}

impl Clone for IpSet {
    fn clone(&self) -> (result: Self)
        ensures
            result@ == self@,
            result.v4_ranges() == self.v4_ranges(),
            result.v6_ranges() == self.v6_ranges(),
    {
        proof {
            use_type_invariant(self);
        }
        let mut v4: Vec<Ipv4Range> = Vec::new();
        let mut v6: Vec<Ipv6Range> = Vec::new();
        let mut i: usize = 0;
        while i < self.v4.len()
            invariant
                i <= self.v4@.len(),
                v4@ == self.v4@.take(i as int),
            decreases self.v4@.len() - i,
        {
            v4.push(self.v4[i]);
            i = i + 1;
            assert(v4@ =~= self.v4@.take(i as int));
        }
        let mut j: usize = 0;
        while j < self.v6.len()
            invariant
                j <= self.v6@.len(),
                v6@ == self.v6@.take(j as int),
            decreases self.v6@.len() - j,
        {
            v6.push(self.v6[j]);
            j = j + 1;
            assert(v6@ =~= self.v6@.take(j as int));
        }
        assert(v4@ =~= self.v4@);
        assert(v6@ =~= self.v6@);
        IpSet { v4, v6, v4_dirty: self.v4_dirty, v6_dirty: self.v6_dirty }
    }
}

impl Default for IpSet {
    /// An empty set.
    fn default() -> (set: IpSet)
        ensures
            set@ == Set::<(IpAddr, Option<u32>)>::empty(),
    {
        IpSet::new()
    }
}

impl PartialEq for IpSet {
    /// Whether the two sets hold the same addresses.
    ///
    /// Merged ranges are the only comparable form, so a set that is not in one
    /// is merged on a clone: comparing is a read, and a read does not mutate its
    /// operand.
    fn eq(&self, other: &Self) -> (result: bool) {
        let this = self.merged();
        let that = other.merged();
        proof {
            use_type_invariant(&this);
            use_type_invariant(&that);
            if this@ == that@ {
                lemma_held_decides(this.v4@, this.v6@, that.v4@, that.v6@);
                runs::lemma_canonical_is_unique(this.v4@, that.v4@);
                runs::lemma_canonical_is_unique(this.v6@, that.v6@);
            }
        }
        if this.v4.len() != that.v4.len() || this.v6.len() != that.v6.len() {
            return false;
        }
        let mut i: usize = 0;
        while i < this.v4.len()
            invariant
                this.v4@.len() == that.v4@.len(),
                i <= this.v4@.len(),
                this@ == self@,
                that@ == other@,
                this@ == that@ ==> this.v4@ == that.v4@,
                forall|k: int| 0 <= k < i ==> this.v4@[k] == that.v4@[k],
            decreases this.v4@.len() - i,
        {
            if this.v4[i] != that.v4[i] {
                return false;
            }
            i = i + 1;
        }
        assert(this.v4@ =~= that.v4@);
        let mut j: usize = 0;
        while j < this.v6.len()
            invariant
                this.v6@.len() == that.v6@.len(),
                j <= this.v6@.len(),
                this@ == self@,
                that@ == other@,
                this@ == that@ ==> this.v6@ == that.v6@,
                forall|k: int| 0 <= k < j ==> this.v6@[k] == that.v6@[k],
            decreases this.v6@.len() - j,
        {
            if this.v6[j] != that.v6[j] {
                return false;
            }
            j = j + 1;
        }
        assert(this.v6@ =~= that.v6@);
        true
    }
}

impl vstd::std_specs::cmp::PartialEqSpecImpl for IpSet {
    open spec fn obeys_eq_spec() -> bool {
        true
    }

    open spec fn eq_spec(&self, other: &Self) -> bool {
        self@ == other@
    }
}

impl Eq for IpSet {

}

impl std::str::FromStr for IpSet {
    type Err = IpSetError;

    fn from_str(text: &str) -> (set: Result<IpSet, IpSetError>)
        ensures
            match (set, ranges_of(text::split_on(text@, seq![',', ' ']))) {
                (Ok(s), Ok(ranges)) => s@ == holding::ranges_held(ranges) && s.is_canonical(),
                (Err(e), Err(f)) => e@ == f,
                _ => false,
            },
    {
        IpSet::try_from(text)
    }
}

impl From<IpAddr> for IpSet {
    fn from(ip: IpAddr) -> (set: IpSet)
        ensures
            set@ == Set::<(IpAddr, Option<u32>)>::empty().insert((ip, None::<u32>)),
    {
        let mut set = IpSet::new();
        set.insert(ip);
        set
    }
}

impl vstd::std_specs::convert::FromSpecImpl<IpAddr> for IpSet {
    open spec fn obeys_from_spec() -> bool {
        false
    }

    open spec fn from_spec(ip: IpAddr) -> IpSet {
        arbitrary()
    }
}

impl From<IpRange> for IpSet {
    fn from(range: IpRange) -> (set: IpSet)
        ensures
            set@ == holding::range_held(range@),
    {
        let mut set = IpSet::new();
        set.insert_range(range);
        assert(set@ =~= holding::range_held(range@));
        set
    }
}

impl vstd::std_specs::convert::FromSpecImpl<IpRange> for IpSet {
    open spec fn obeys_from_spec() -> bool {
        false
    }

    open spec fn from_spec(range: IpRange) -> IpSet {
        arbitrary()
    }
}

/// Afterwards nothing that was taken out is left, whatever interface it was on,
/// and nothing else is gone.
pub proof fn lemma_subtracting_takes_exactly_what_it_names(
    holding: Holding,
    other: Holding,
    ip: IpAddr,
)
    ensures
        holding::on_any(holding::without(holding, other), ip) <==> holding::on_any(holding, ip) && !holding::on_any(other, ip),
{
    if holding::on_any(holding, ip) && !holding::on_any(other, ip) {
        let zone = choose|zone: Option<u32>| holding.contains((ip, zone));
        assert(holding::without(holding, other).contains((ip, zone)));
    }
    if holding::on_any(holding::without(holding, other), ip) {
        let zone = choose|zone: Option<u32>| holding::without(holding, other).contains((ip, zone));
        assert(holding.contains((ip, zone)));
    }
}

/// Taking the same addresses out twice is taking them out once.
pub proof fn lemma_subtracting_twice_is_once(holding: Holding, other: Holding)
    ensures
        holding::without(holding::without(holding, other), other) == holding::without(holding, other),
{
    assert(holding::without(holding::without(holding, other), other) =~= holding::without(holding, other));
}

/// Taking two sets out one after the other is taking their union out.
pub proof fn lemma_subtracting_in_turn_is_subtracting_the_union(
    holding: Holding,
    a: Holding,
    b: Holding,
)
    ensures
        holding::without(holding::without(holding, a), b) == holding::without(holding, a.union(b)),
{
    assert forall|ip: IpAddr| holding::on_any(a.union(b), ip) <==> holding::on_any(a, ip) || holding::on_any(b, ip) by {
        if holding::on_any(a, ip) {
            let zone = choose|zone: Option<u32>| a.contains((ip, zone));
            assert(a.union(b).contains((ip, zone)));
        }
        if holding::on_any(b, ip) {
            let zone = choose|zone: Option<u32>| b.contains((ip, zone));
            assert(a.union(b).contains((ip, zone)));
        }
        if holding::on_any(a.union(b), ip) {
            let zone = choose|zone: Option<u32>| a.union(b).contains((ip, zone));
            assert(a.contains((ip, zone)) || b.contains((ip, zone)));
        }
    }
    assert(holding::without(holding::without(holding, a), b) =~= holding::without(holding, a.union(b)));
}

/// Merged ranges are one form: two sets that hold the same addresses and are
/// merged hold the same ranges in the same order.
pub proof fn lemma_merged_ranges_are_one_form(
    a4: Seq<Ipv4Range>,
    a6: Seq<Ipv6Range>,
    b4: Seq<Ipv4Range>,
    b6: Seq<Ipv6Range>,
)
    requires
        runs::canonical(a4),
        runs::canonical(a6),
        runs::canonical(b4),
        runs::canonical(b6),
        holding::held(a4, a6) == holding::held(b4, b6),
    ensures
        a4 == b4,
        a6 == b6,
{
    lemma_held_decides(a4, a6, b4, b6);
    runs::lemma_canonical_is_unique(a4, b4);
    runs::lemma_canonical_is_unique(a6, b6);
}

/// A list of ranges is what each of its texts writes, the blank ones put aside, and
/// it is refused exactly where one of them is.
pub proof fn lemma_a_list_of_ranges_holds_each(pieces: Seq<Seq<char>>, p: (IpAddr, Option<u32>))
    ensures
        ranges_of(pieces) is Ok <==> forall|i: int|
            0 <= i < pieces.len() && text::trimmed(#[trigger] pieces[i]).len() > 0
                ==> range::range_of(pieces[i]) is Ok,
        ranges_of(pieces) matches Ok(ranges) ==> (holding::ranges_held(ranges).contains(p)
            <==> exists|i: int|
            {
                &&& 0 <= i < pieces.len()
                &&& text::trimmed(#[trigger] pieces[i]).len() > 0
                &&& range::range_of(pieces[i]) matches Ok(r)
                &&& range::covers(r.v6, r.first, r.last, p.0)
                &&& p.1 == r.zone
            }),
    decreases pieces.len(),
{
    if pieces.len() > 0 {
        let (before, last) = (pieces.drop_last(), pieces.last());
        lemma_a_list_of_ranges_holds_each(before, p);
        assert(pieces[pieces.len() - 1] == last);
        assert(forall|i: int| 0 <= i < before.len() ==> #[trigger] before[i] == pieces[i]);
        if ranges_of(pieces) is Ok {
            assert forall|i: int|
                0 <= i < pieces.len() && text::trimmed(
                    #[trigger] pieces[i],
                ).len() > 0 implies range::range_of(pieces[i]) is Ok by {
                if i < before.len() {
                    assert(before[i] == pieces[i]);
                }
            }
            let earlier = ranges_of(before)->Ok_0;
            if text::trimmed(last).len() > 0 {
                holding::lemma_ranges_held_push(earlier, range::range_of(last)->Ok_0);
            }
            if exists|i: int|
                {
                    &&& 0 <= i < pieces.len()
                    &&& text::trimmed(#[trigger] pieces[i]).len() > 0
                    &&& range::range_of(pieces[i]) matches Ok(r)
                    &&& range::covers(r.v6, r.first, r.last, p.0)
                    &&& p.1 == r.zone
                } {
                let i = choose|i: int|
                    {
                        &&& 0 <= i < pieces.len()
                        &&& text::trimmed(#[trigger] pieces[i]).len() > 0
                        &&& range::range_of(pieces[i]) matches Ok(r)
                        &&& range::covers(r.v6, r.first, r.last, p.0)
                        &&& p.1 == r.zone
                    };
                if i < before.len() {
                    assert(before[i] == pieces[i]);
                }
            }
            if holding::ranges_held(earlier).contains(p) {
                let i = choose|i: int|
                    {
                        &&& 0 <= i < before.len()
                        &&& text::trimmed(#[trigger] before[i]).len() > 0
                        &&& range::range_of(before[i]) matches Ok(r)
                        &&& range::covers(r.v6, r.first, r.last, p.0)
                        &&& p.1 == r.zone
                    };
                assert(pieces[i] == before[i]);
            }
        }
    }
}

} // verus!
