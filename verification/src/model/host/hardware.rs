//! # The hardware behind a host
//!
//! [`HardwareInfo`] is what a scan learned about the box itself: the hardware
//! addresses it answered under and when each was last heard from, and what it
//! said it was.
//!
//! A machine answers under more than one hardware address over its life, so the
//! record keeps a map rather than a value, bounded at [`MAX_MACS_PER_HOST`] with
//! the least recently seen making room. Those times are wall-clock readings,
//! matching when a host itself was first and last seen.

use crate::model::mac;
use crate::model::mac::MacAddr;
use crate::model::time;
use crate::model::time::SystemTime;
use crate::ordered;
use crate::ordered::{Ordered, OrderedMap, Same};
use crate::text;
use vstd::prelude::*;

verus! {

/// The most hardware addresses one host will have recorded against it.
///
/// A device randomizing its address produces a new one per rotation, and a host
/// on a segment can claim as many as it likes.
pub const MAX_MACS_PER_HOST: usize = 64;

/// What one host's hardware is known by.
#[derive(Debug, PartialEq, Eq)]
pub struct HardwareInfo {
    /// The addresses the host answered under, and when each was last heard from.
    macs: OrderedMap<MacAddr, SystemTime>,
    vendor: Option<String>,
    product: Option<String>,
    family: Option<String>,
    cpe23: Option<String>,
    model: Option<String>,
    version: Option<String>,
    serial_number: Option<String>,
}

/// What a host said its hardware is, as a fingerprint reads it.
#[derive(Debug, Clone, Copy)]
pub struct HardwareDescription<'a> {
    /// Who made it.
    pub vendor: Option<&'a str>,
    /// The product it is sold as.
    pub product: Option<&'a str>,
    /// The line of products it belongs to.
    pub family: Option<&'a str>,
    /// Its identifier in the 2.3 form of CPE.
    pub cpe23: Option<&'a str>,
    /// Its model.
    pub model: Option<&'a str>,
    /// Its hardware revision.
    pub version: Option<&'a str>,
    /// Its serial number.
    pub serial_number: Option<&'a str>,
}

impl<'a> Default for HardwareDescription<'a> {
    fn default() -> (described: Self)
        ensures
            described == (HardwareDescription {
                vendor: None,
                product: None,
                family: None,
                cpe23: None,
                model: None,
                version: None,
                serial_number: None,
            }),
    {
        HardwareDescription {
            vendor: None,
            product: None,
            family: None,
            cpe23: None,
            model: None,
            version: None,
            serial_number: None,
        }
    }
}

/// When each hardware address was last heard from.
pub type Seen = Map<MacAddr, SystemTime>;

/// What is known of a host's hardware.
#[verifier::ext_equal]
pub struct HardwareClaim {
    pub macs: Seen,
    pub vendor: Option<Seq<char>>,
    pub product: Option<Seq<char>>,
    pub family: Option<Seq<char>>,
    pub cpe23: Option<Seq<char>>,
    pub model: Option<Seq<char>>,
    pub version: Option<Seq<char>>,
    pub serial_number: Option<Seq<char>>,
}

/// Whether anything but an address is named.
pub open spec fn names_something(claim: HardwareClaim) -> bool {
    ||| claim.vendor is Some
    ||| claim.product is Some
    ||| claim.family is Some
    ||| claim.cpe23 is Some
    ||| claim.model is Some
    ||| claim.version is Some
    ||| claim.serial_number is Some
}

/// Whether a box is described, rather than only who made it.
pub open spec fn describes_a_box(claim: HardwareClaim) -> bool {
    ||| claim.product is Some
    ||| claim.family is Some
    ||| claim.cpe23 is Some
    ||| claim.model is Some
    ||| claim.version is Some
    ||| claim.serial_number is Some
}

/// The manufacturer an address is allocated to.
pub open spec fn maker_of(address: MacAddr) -> Option<Seq<char>> {
    if mac::assigned_locally(address@) {
        None
    } else {
        mac::registered_to(mac::hex_pairs(address@, 6))
    }
}

/// Whether one address was heard from before another, the smaller first where
/// both were heard from at once.
pub open spec fn heard_before(macs: Seen, a: MacAddr, b: MacAddr) -> bool {
    ||| macs[a].nanos < macs[b].nanos
    ||| macs[a].nanos == macs[b].nanos && MacAddr::before(a, b)
}

/// Whether an address is the one least recently heard from.
pub open spec fn is_oldest(macs: Seen, address: MacAddr) -> bool {
    &&& macs.dom().contains(address)
    &&& forall|other: MacAddr| #[trigger]
        macs.dom().contains(other) && other != address ==> heard_before(macs, address, other)
}

/// Whether an address is the one most recently heard from.
pub open spec fn is_newest(macs: Seen, address: MacAddr) -> bool {
    &&& macs.dom().contains(address)
    &&& forall|other: MacAddr| #[trigger]
        macs.dom().contains(other) && other != address ==> heard_before(macs, other, address)
}

/// The address least recently heard from.
pub open spec fn oldest(macs: Seen) -> MacAddr {
    choose|address: MacAddr| is_oldest(macs, address)
}

/// What is left of a record of addresses once the oldest have made room.
pub open spec fn bounded(macs: Seen) -> Seen
    decreases macs.dom().len(),
{
    if macs.dom().finite() && macs.dom().len() > MAX_MACS_PER_HOST && is_oldest(macs, oldest(macs)) {
        bounded(macs.remove(oldest(macs)))
    } else {
        macs
    }
}

/// Two records of addresses as one, each address with the later of its times.
pub open spec fn joined(here: Seen, there: Seen) -> Seen {
    Map::new(
        |address: MacAddr| here.dom().contains(address) || there.dom().contains(address),
        |address: MacAddr|
            if !there.dom().contains(address) {
                here[address]
            } else if !here.dom().contains(address) {
                there[address]
            } else {
                time::later_of(here[address], there[address])
            },
    )
}

/// What is known of the hardware once an address has been heard from, whose
/// maker is given.
pub open spec fn heard(
    here: HardwareClaim,
    address: MacAddr,
    at: SystemTime,
    maker: Option<Seq<char>>,
) -> HardwareClaim {
    if here.macs.dom().contains(address) {
        HardwareClaim { macs: here.macs.insert(address, at), ..here }
    } else {
        HardwareClaim {
            macs: bounded(here.macs.insert(address, at)),
            vendor: text::or_said(here.vendor, maker),
            ..here
        }
    }
}

/// What is known of the hardware once another account of it has been folded in.
///
/// What is already recorded stays and gaps are filled, but for the vendor: an
/// account that describes a box says who made that box, which outranks who made
/// the network card.
pub open spec fn merged(here: HardwareClaim, there: HardwareClaim) -> HardwareClaim {
    HardwareClaim {
        macs: bounded(joined(here.macs, there.macs)),
        vendor: if there.vendor is Some && describes_a_box(there) {
            there.vendor
        } else {
            text::or_said(here.vendor, there.vendor)
        },
        product: text::or_said(here.product, there.product),
        family: text::or_said(here.family, there.family),
        cpe23: text::or_said(here.cpe23, there.cpe23),
        model: text::or_said(here.model, there.model),
        version: text::or_said(here.version, there.version),
        serial_number: text::or_said(here.serial_number, there.serial_number),
    }
}

/// The maker of the first address of a list from `i` on that has one.
pub open spec fn first_maker(listed: Seq<(MacAddr, SystemTime)>, i: int) -> Option<Seq<char>>
    decreases listed.len() - i,
{
    if i >= listed.len() {
        None
    } else if maker_of(listed[i].0) is Some {
        maker_of(listed[i].0)
    } else {
        first_maker(listed, i + 1)
    }
}

/// Addresses with the most recently heard from first.
pub open spec fn newest_first(listed: Seq<(MacAddr, SystemTime)>) -> Seq<(MacAddr, SystemTime)> {
    ordered::in_key_order(listed, |entry: (MacAddr, SystemTime)| -(entry.1.nanos as int))
}

impl View for HardwareInfo {
    type V = HardwareClaim;

    closed spec fn view(&self) -> HardwareClaim {
        HardwareClaim {
            macs: self.macs@,
            vendor: text::said(self.vendor),
            product: text::said(self.product),
            family: text::said(self.family),
            cpe23: text::said(self.cpe23),
            model: text::said(self.model),
            version: text::said(self.version),
            serial_number: text::said(self.serial_number),
        }
    }
}

/// Another text that says the same, if there is one.
fn owned(text: Option<&str>) -> (result: Option<String>)
    ensures
        text::said(result) == text::said_by(text),
{
    match text {
        Some(t) => Some(t.to_owned()),
        None => None,
    }
}

impl HardwareInfo {
    #[verifier::type_invariant]
    spec fn within_bounds(self) -> bool {
        self.macs@.dom().finite() && self.macs@.dom().len() <= MAX_MACS_PER_HOST
    }

    /// The addresses, in their own order, each with when it was last heard from.
    pub closed spec fn listed_macs(&self) -> Seq<(MacAddr, SystemTime)> {
        self.macs.listed()
    }

    /// The hardware behind one address heard from at `at`, with who made it
    /// looked up.
    pub fn new(address: MacAddr, at: SystemTime) -> (hardware: Self)
        ensures
            hardware@ == (HardwareClaim {
                macs: Map::empty().insert(address, at),
                vendor: maker_of(address),
                product: None,
                family: None,
                cpe23: None,
                model: None,
                version: None,
                serial_number: None,
            }),
    {
        let maker = mac::vendor(&address);
        HardwareInfo::made_by(address, at, maker)
    }

    /// The hardware behind one address heard from at `at`, made by `maker`.
    pub fn made_by(address: MacAddr, at: SystemTime, maker: Option<String>) -> (hardware: Self)
        ensures
            hardware@ == (HardwareClaim {
                macs: Map::empty().insert(address, at),
                vendor: text::said(maker),
                product: None,
                family: None,
                cpe23: None,
                model: None,
                version: None,
                serial_number: None,
            }),
    {
        let mut macs: OrderedMap<MacAddr, SystemTime> = OrderedMap::new();
        macs.insert(address, at);
        Self {
            macs,
            vendor: maker,
            product: None,
            family: None,
            cpe23: None,
            model: None,
            version: None,
            serial_number: None,
        }
    }

    /// Hardware known by what it said rather than by an address, or `None` where
    /// it said nothing.
    pub fn described(described: HardwareDescription<'_>) -> (hardware: Option<Self>)
        ensures
            ({
                let claim = HardwareClaim {
                    macs: Map::empty(),
                    vendor: text::said_by(described.vendor),
                    product: text::said_by(described.product),
                    family: text::said_by(described.family),
                    cpe23: text::said_by(described.cpe23),
                    model: text::said_by(described.model),
                    version: text::said_by(described.version),
                    serial_number: text::said_by(described.serial_number),
                };
                match hardware {
                    Some(hardware) => names_something(claim) && hardware@ == claim,
                    None => !names_something(claim),
                }
            }),
    {
        let macs: OrderedMap<MacAddr, SystemTime> = OrderedMap::new();
        assert(macs@.dom() =~= Set::empty());
        let built = Self {
            macs,
            vendor: owned(described.vendor),
            product: owned(described.product),
            family: owned(described.family),
            cpe23: owned(described.cpe23),
            model: owned(described.model),
            version: owned(described.version),
            serial_number: owned(described.serial_number),
        };
        if built.names_something() {
            Some(built)
        } else {
            None
        }
    }

    /// Whether anything but an address is named.
    fn names_something(&self) -> (named: bool)
        ensures
            named == names_something(self@),
    {
        self.vendor.is_some() || self.product.is_some() || self.family.is_some()
            || self.cpe23.is_some() || self.model.is_some() || self.version.is_some()
            || self.serial_number.is_some()
    }

    /// The product it is sold as.
    pub fn product(&self) -> (product: Option<&str>)
        ensures
            text::said_by(product) == self@.product,
    {
        text::as_text(&self.product)
    }

    /// The line of products it belongs to.
    pub fn family(&self) -> (family: Option<&str>)
        ensures
            text::said_by(family) == self@.family,
    {
        text::as_text(&self.family)
    }

    /// Its identifier in the 2.3 form of CPE.
    pub fn cpe23(&self) -> (cpe23: Option<&str>)
        ensures
            text::said_by(cpe23) == self@.cpe23,
    {
        text::as_text(&self.cpe23)
    }

    /// Its model.
    pub fn model(&self) -> (model: Option<&str>)
        ensures
            text::said_by(model) == self@.model,
    {
        text::as_text(&self.model)
    }

    /// Its hardware revision.
    pub fn hardware_version(&self) -> (version: Option<&str>)
        ensures
            text::said_by(version) == self@.version,
    {
        text::as_text(&self.version)
    }

    /// Its serial number.
    pub fn serial_number(&self) -> (serial_number: Option<&str>)
        ensures
            text::said_by(serial_number) == self@.serial_number,
    {
        text::as_text(&self.serial_number)
    }

    /// Records that the host was heard from under `address` just now.
    pub fn add_mac(&mut self, address: MacAddr, now: SystemTime)
        ensures
            final(self)@ == heard(old(self)@, address, now, maker_of(address)),
    {
        self.record_mac_seen_at(address, now);
    }

    /// Records that the host was heard from under `address` at `at`.
    ///
    /// An address heard from before has its time replaced. A new one makes the
    /// least recently heard from give way past the bound, and names the vendor
    /// where nothing has.
    pub fn record_mac_seen_at(&mut self, address: MacAddr, at: SystemTime)
        ensures
            final(self)@ == heard(old(self)@, address, at, maker_of(address)),
    {
        let maker = if self.vendor.is_none() && !self.macs.contains_key(&address) {
            mac::vendor(&address)
        } else {
            None
        };
        self.record_made_by(address, at, maker);
    }

    /// Records that the host was heard from at `at` under `address`, made by
    /// `maker`.
    pub fn record_made_by(&mut self, address: MacAddr, at: SystemTime, maker: Option<String>)
        ensures
            final(self)@ == heard(old(self)@, address, at, text::said(maker)),
    {
        proof {
            use_type_invariant(&*self);
        }
        let ghost here = self@;
        let mut macs: OrderedMap<MacAddr, SystemTime> = OrderedMap::new();
        assert(macs@.dom() =~= Set::empty());
        std::mem::swap(&mut macs, &mut self.macs);
        let before = macs.insert(address, at);
        if before.is_none() {
            evict_oldest_past_the_bound(&mut macs);
            self.macs = macs;
            if self.vendor.is_none() {
                self.vendor = maker;
            }
        } else {
            self.macs = macs;
        }
        assert(self@ =~= heard(here, address, at, text::said(maker)));
    }

    /// Who made the hardware.
    pub fn vendor(&self) -> (vendor: Option<&str>)
        ensures
            text::said_by(vendor) == self@.vendor,
    {
        text::as_text(&self.vendor)
    }

    /// The manufacturer of the most recently heard address that has one, whatever
    /// the record says of the box.
    pub fn registered_vendor(&self) -> (vendor: Option<String>)
        ensures
            text::said(vendor) == first_maker(newest_first(self.listed_macs()), 0),
    {
        let ordered = self.by_recency();
        let ghost listed = newest_first(self.listed_macs());
        let mut i: usize = 0;
        while i < ordered.len()
            invariant
                listed == ordered@,
                listed == newest_first(self.listed_macs()),
                i <= listed.len(),
                first_maker(listed, i as int) == first_maker(listed, 0),
            decreases listed.len() - i,
        {
            let maker = mac::vendor(&ordered[i].0);
            if maker.is_some() {
                return maker;
            }
            i = i + 1;
        }
        None
    }

    /// The addresses, the most recently heard from first.
    fn by_recency(&self) -> (entries: Vec<(MacAddr, SystemTime)>)
        ensures
            entries@ == newest_first(self.listed_macs()),
    {
        let ghost listed = self.macs.listed();
        let ghost key = |entry: (MacAddr, SystemTime)| -(entry.1.nanos as int);
        let n: usize = self.macs.len();
        let mut sorted: Vec<(MacAddr, SystemTime)> = Vec::new();
        let mut i: usize = 0;
        assert(listed.take(0) =~= Seq::empty());
        while i < n
            invariant
                key == (|entry: (MacAddr, SystemTime)| -(entry.1.nanos as int)),
                listed == self.macs.listed(),
                n == listed.len(),
                i <= n,
                sorted@ == ordered::in_key_order(listed.take(i as int), key),
            decreases n - i,
        {
            let entry = *self.macs.at(i);
            let mut at: usize = sorted.len();
            while at > 0 && sorted[at - 1].1.nanos < entry.1.nanos
                invariant
                    at <= sorted@.len(),
                    forall|j: int|
                        at <= j < sorted@.len() ==> (#[trigger] sorted@[j]).1.nanos
                            < entry.1.nanos,
                decreases at,
            {
                at = at - 1;
            }
            proof {
                assert(listed.take(i + 1).drop_last() =~= listed.take(i as int));
                assert(listed.take(i + 1).last() == entry);
                ordered::lemma_placed_at(sorted@, entry, key, at as int);
            }
            sorted.insert(at, entry);
            i = i + 1;
        }
        assert(listed.take(i as int) =~= listed);
        sorted
    }

    /// The addresses the host answered under, and when each was last heard from.
    pub fn macs(&self) -> (macs: &OrderedMap<MacAddr, SystemTime>)
        ensures
            macs@ == self@.macs,
            macs.listed() == self.listed_macs(),
            macs@.dom().finite(),
            macs@.dom().len() <= MAX_MACS_PER_HOST,
    {
        proof {
            use_type_invariant(self);
        }
        &self.macs
    }

    /// The address most recently heard from, the greatest of them where several
    /// were heard from at once.
    pub fn most_recent_mac(&self) -> (address: Option<MacAddr>)
        ensures
            match address {
                Some(address) => is_newest(self@.macs, address),
                None => self@.macs == Map::<MacAddr, SystemTime>::empty(),
            },
    {
        let n: usize = self.macs.len();
        if n == 0 {
            proof {
                assert(self.macs@.dom() =~= Set::empty());
                assert(self.macs@ =~= Map::empty());
            }
            return None;
        }
        let ghost listed = self.macs.listed();
        let ghost macs = self.macs@;
        let mut best = *self.macs.at(0);
        let mut i: usize = 1;
        while i < n
            invariant
                listed == self.macs.listed(),
                macs == self.macs@,
                self.macs.is_listing(),
                n == listed.len(),
                1 <= i <= n,
                macs.dom().contains(best.0),
                macs[best.0] == best.1,
                exists|k: int| 0 <= k < i && (#[trigger] listed[k]).0 == best.0,
                forall|j: int|
                    0 <= j < i ==> (#[trigger] listed[j]).0 == best.0 || heard_before(
                        macs,
                        listed[j].0,
                        best.0,
                    ),
            decreases n - i,
        {
            let entry = *self.macs.at(i);
            let ghost was = best.0;
            proof {
                let k = choose|k: int| 0 <= k < i && (#[trigger] listed[k]).0 == was;
                assert(MacAddr::before(listed[k].0.model(), listed[i as int].0.model()));
                assert(listed[k].0 == was);
            }
            if entry.1.nanos >= best.1.nanos {
                proof {
                    assert forall|j: int| 0 <= j < i implies (#[trigger] listed[j]).0 == entry.0
                        || heard_before(macs, listed[j].0, entry.0) by {
                        if listed[j].0 != was {
                            assert(heard_before(macs, listed[j].0, was));
                            if macs[listed[j].0].nanos == macs[entry.0].nanos {
                                MacAddr::order_is_transitive(listed[j].0, was, entry.0);
                            }
                        }
                    }
                }
                best = entry;
                assert(listed[i as int].0 == best.0);
            } else {
                assert(heard_before(macs, entry.0, best.0));
            }
            i = i + 1;
        }
        proof {
            assert forall|other: MacAddr| #[trigger]
                macs.dom().contains(other) && other != best.0 implies heard_before(
                macs,
                other,
                best.0,
            ) by {
                lemma_best_is_listed(listed, macs, other);
                let k = choose|k: int| 0 <= k < listed.len() && listed[k].0 == other;
                assert(listed[k].0 == other);
            }
        }
        Some(best.0)
    }

    /// Forgets the addresses last heard from before `cutoff`.
    pub fn prune_stale_macs(&mut self, cutoff: SystemTime)
        ensures
            final(self)@ == (HardwareClaim {
                macs: old(self)@.macs.restrict(
                    Set::new(|address: MacAddr| old(self)@.macs[address].nanos >= cutoff.nanos),
                ),
                ..old(self)@
            }),
    {
        proof {
            use_type_invariant(&*self);
        }
        let ghost (here, macs) = (self@, self.macs@);
        let ghost fresh = Set::new(|address: MacAddr| macs[address].nanos >= cutoff.nanos);
        let n: usize = self.macs.len();
        let mut kept: OrderedMap<MacAddr, SystemTime> = OrderedMap::new();
        assert(kept@.dom() =~= Set::empty());
        let ghost listed = self.macs.listed();
        let mut i: usize = 0;
        while i < n
            invariant
                self.macs.is_listing(),
                listed == self.macs.listed(),
                macs == self.macs@,
                fresh == Set::new(|address: MacAddr| macs[address].nanos >= cutoff.nanos),
                n == listed.len(),
                i <= n,
                kept@.dom().finite(),
                kept@.dom().len() <= i,
                forall|address: MacAddr| #[trigger]
                    kept@.dom().contains(address) <==> fresh.contains(address) && exists|j: int|
                        0 <= j < i && (#[trigger] listed[j]).0 == address,
                forall|address: MacAddr| #[trigger]
                    kept@.dom().contains(address) ==> kept@[address] == macs[address],
            decreases n - i,
        {
            let entry = *self.macs.at(i);
            let ghost was = kept@;
            assert(listed[i as int].0 == entry.0);
            if entry.1.nanos >= cutoff.nanos {
                kept.insert(entry.0, entry.1);
            }
            i = i + 1;
            proof {
                assert forall|address: MacAddr| #[trigger] kept@.dom().contains(address)
                    <==> fresh.contains(address) && exists|j: int|
                    0 <= j < i && (#[trigger] listed[j]).0 == address by {
                    if was.dom().contains(address) {
                        let j = choose|j: int| 0 <= j < i - 1 && (#[trigger] listed[j]).0 == address;
                        assert(listed[j].0 == address);
                    }
                    if fresh.contains(address) && exists|j: int|
                        0 <= j < i && (#[trigger] listed[j]).0 == address {
                        let j = choose|j: int| 0 <= j < i && (#[trigger] listed[j]).0 == address;
                        if j < i - 1 {
                            assert(was.dom().contains(address));
                        }
                    }
                }
            }
        }
        proof {
            assert forall|address: MacAddr| #[trigger] kept@.dom().contains(address) == macs.restrict(
                fresh,
            ).dom().contains(address) by {
                if macs.dom().contains(address) {
                    lemma_best_is_listed(listed, macs, address);
                }
                if kept@.dom().contains(address) {
                    let j = choose|j: int| 0 <= j < n && (#[trigger] listed[j]).0 == address;
                    assert(ordered::keys_of(listed)[j] == address);
                    assert(ordered::keys_of(listed).to_set().contains(address));
                }
            }
            assert(kept@ =~= macs.restrict(fresh));
        }
        self.macs = kept;
    }

    /// Folds another account of this hardware into this one.
    pub fn merge(&mut self, other: HardwareInfo)
        ensures
            final(self)@ == merged(old(self)@, other@),
    {
        proof {
            use_type_invariant(&*self);
            use_type_invariant(&other);
        }
        let ghost (here, there) = (self@, other@);
        let describes = other.names_more_than_a_vendor();
        let mut macs: OrderedMap<MacAddr, SystemTime> = OrderedMap::new();
        assert(macs@.dom() =~= Set::empty());
        std::mem::swap(&mut macs, &mut self.macs);
        join_macs(&mut macs, &other.macs);
        evict_oldest_past_the_bound(&mut macs);
        self.macs = macs;
        let mut vendor: Option<String> = None;
        std::mem::swap(&mut vendor, &mut self.vendor);
        self.vendor = if vendor.is_none() || (other.vendor.is_some() && describes) {
            text::first_said(other.vendor, vendor)
        } else {
            vendor
        };
        let mut field: Option<String> = None;
        std::mem::swap(&mut field, &mut self.product);
        self.product = text::first_said(field, other.product);
        let mut field: Option<String> = None;
        std::mem::swap(&mut field, &mut self.family);
        self.family = text::first_said(field, other.family);
        let mut field: Option<String> = None;
        std::mem::swap(&mut field, &mut self.cpe23);
        self.cpe23 = text::first_said(field, other.cpe23);
        let mut field: Option<String> = None;
        std::mem::swap(&mut field, &mut self.model);
        self.model = text::first_said(field, other.model);
        let mut field: Option<String> = None;
        std::mem::swap(&mut field, &mut self.version);
        self.version = text::first_said(field, other.version);
        let mut field: Option<String> = None;
        std::mem::swap(&mut field, &mut self.serial_number);
        self.serial_number = text::first_said(field, other.serial_number);
        assert(self@ =~= merged(here, there));
    }

    /// Whether a box is described, rather than only who made it.
    fn names_more_than_a_vendor(&self) -> (describes: bool)
        ensures
            describes == describes_a_box(self@),
    {
        self.product.is_some() || self.family.is_some() || self.cpe23.is_some()
            || self.model.is_some() || self.version.is_some() || self.serial_number.is_some()
    }
}

/// What is mapped is listed.
proof fn lemma_best_is_listed(listed: Seq<(MacAddr, SystemTime)>, macs: Seen, address: MacAddr)
    requires
        ordered::keys_of(listed).to_set() == macs.dom(),
        macs.dom().contains(address),
    ensures
        exists|k: int| 0 <= k < listed.len() && (#[trigger] listed[k]).0 == address,
{
    assert(ordered::keys_of(listed).contains(address));
    let k = choose|k: int|
        0 <= k < ordered::keys_of(listed).len() && ordered::keys_of(listed)[k] == address;
    assert(listed[k].0 == address);
}

/// Adds another record's addresses, each with the later of its times.
fn join_macs(macs: &mut OrderedMap<MacAddr, SystemTime>, more: &OrderedMap<MacAddr, SystemTime>)
    requires
        old(macs)@.dom().finite(),
        more@.dom().finite(),
    ensures
        final(macs)@ == joined(old(macs)@, more@),
        final(macs)@.dom().finite(),
{
    let ghost (here, there) = (macs@, more@);
    let ghost listed = more.listed();
    let n: usize = more.len();
    let mut i: usize = 0;
    assert(joined(here, part_of(listed, there, 0)) =~= here);
    while i < n
        invariant
            more.is_listing(),
            listed == more.listed(),
            there == more@,
            n == listed.len(),
            i <= n,
            macs@ == joined(here, part_of(listed, there, i as int)),
            macs@.dom().finite(),
        decreases n - i,
    {
        let (address, at) = *more.at(i);
        let ghost was = macs@;
        let ghost part = part_of(listed, there, i as int);
        proof {
            lemma_part_grows(listed, there, i as int);
            assert(!part.dom().contains(address)) by {
                if part.dom().contains(address) {
                    let j = choose|j: int| 0 <= j < i && (#[trigger] listed[j]).0 == address;
                    assert(ordered::keys_of(listed)[j] == ordered::keys_of(listed)[i as int]);
                }
            }
        }
        let later = match macs.get(&address) {
            Some(t) => t.or_later(at),
            None => at,
        };
        macs.insert(address, later);
        i = i + 1;
        assert(macs@ =~= joined(here, part_of(listed, there, i as int)));
    }
    proof {
        assert(part_of(listed, there, n as int) =~= there) by {
            assert forall|address: MacAddr| there.dom().contains(address) implies #[trigger] part_of(
                listed,
                there,
                n as int,
            ).dom().contains(address) by {
                lemma_best_is_listed(listed, there, address);
            }
        }
    }
}

/// The part of a mapping that the first `n` entries of its listing hold.
spec fn part_of(listed: Seq<(MacAddr, SystemTime)>, macs: Seen, n: int) -> Seen {
    Map::new(
        |address: MacAddr|
            macs.dom().contains(address) && exists|j: int|
                0 <= j < n && (#[trigger] listed[j]).0 == address,
        |address: MacAddr| macs[address],
    )
}

proof fn lemma_part_grows(listed: Seq<(MacAddr, SystemTime)>, macs: Seen, n: int)
    requires
        0 <= n < listed.len(),
        macs.dom().contains(listed[n].0),
    ensures
        part_of(listed, macs, n + 1) == part_of(listed, macs, n).insert(
            listed[n].0,
            macs[listed[n].0],
        ),
{
    let (after, before) = (part_of(listed, macs, n + 1), part_of(listed, macs, n));
    assert forall|address: MacAddr| #[trigger] after.dom().contains(address)
        <==> before.dom().contains(address) || address == listed[n].0 by {
        if after.dom().contains(address) {
            let j = choose|j: int| 0 <= j < n + 1 && (#[trigger] listed[j]).0 == address;
            if j < n {
                assert(before.dom().contains(address));
            }
        }
        if before.dom().contains(address) {
            let j = choose|j: int| 0 <= j < n && (#[trigger] listed[j]).0 == address;
            assert(listed[j].0 == address);
        }
    }
    assert(after =~= before.insert(listed[n].0, macs[listed[n].0]));
}

/// Forgets the least recently heard from until the bound is met.
fn evict_oldest_past_the_bound(macs: &mut OrderedMap<MacAddr, SystemTime>)
    requires
        old(macs)@.dom().finite(),
    ensures
        final(macs)@ == bounded(old(macs)@),
        final(macs)@.dom().finite(),
        final(macs)@.dom().len() <= MAX_MACS_PER_HOST,
{
    let ghost all = macs@;
    while macs.len() > MAX_MACS_PER_HOST
        invariant
            macs@.dom().finite(),
            bounded(macs@) == bounded(all),
        decreases macs@.dom().len(),
    {
        let address = find_oldest(macs);
        proof {
            lemma_oldest_is_unique(macs@, address);
        }
        macs.remove(&address);
    }
}

/// The address least recently heard from.
fn find_oldest(macs: &OrderedMap<MacAddr, SystemTime>) -> (address: MacAddr)
    requires
        macs@.dom().len() > 0,
    ensures
        is_oldest(macs@, address),
{
    let n: usize = macs.len();
    let ghost listed = macs.listed();
    let ghost held = macs@;
    let mut best = *macs.at(0);
    let mut i: usize = 1;
    while i < n
        invariant
            macs.is_listing(),
            listed == macs.listed(),
            held == macs@,
            n == listed.len(),
            1 <= i <= n,
            held.dom().contains(best.0),
            held[best.0] == best.1,
            exists|k: int| 0 <= k < i && (#[trigger] listed[k]).0 == best.0,
            forall|j: int|
                0 <= j < i ==> (#[trigger] listed[j]).0 == best.0 || heard_before(
                    held,
                    best.0,
                    listed[j].0,
                ),
        decreases n - i,
    {
        let entry = *macs.at(i);
        let ghost was = best.0;
        proof {
            let k = choose|k: int| 0 <= k < i && (#[trigger] listed[k]).0 == was;
            assert(listed[k].0.model() == was);
            assert(MacAddr::before(listed[k].0.model(), listed[i as int].0.model()));
        }
        if entry.1.nanos < best.1.nanos {
            best = entry;
            assert(listed[i as int].0 == best.0);
        } else {
            assert(heard_before(held, best.0, entry.0));
            let ghost k = choose|k: int| 0 <= k < i && (#[trigger] listed[k]).0 == was;
            assert(listed[k].0 == best.0);
        }
        i = i + 1;
    }
    proof {
        assert forall|other: MacAddr| #[trigger]
            held.dom().contains(other) && other != best.0 implies heard_before(
            held,
            best.0,
            other,
        ) by {
            lemma_best_is_listed(listed, held, other);
            let k = choose|k: int| 0 <= k < listed.len() && (#[trigger] listed[k]).0 == other;
            assert(listed[k].0 == other);
        }
    }
    best.0
}

/// One address is the oldest.
proof fn lemma_oldest_is_unique(macs: Seen, address: MacAddr)
    requires
        is_oldest(macs, address),
    ensures
        oldest(macs) == address,
{
    let other = oldest(macs);
    assert(is_oldest(macs, other));
    if other != address {
        assert(heard_before(macs, address, other));
        assert(heard_before(macs, other, address));
        MacAddr::order_is_total(address, other);
    }
}

impl Clone for HardwareInfo {
    fn clone(&self) -> (hardware: Self)
        ensures
            hardware@ == self@,
    {
        proof {
            use_type_invariant(self);
        }
        let macs = self.macs.clone();
        assert(macs@ =~= self.macs@);
        HardwareInfo {
            macs,
            vendor: text::say_again(&self.vendor),
            product: text::say_again(&self.product),
            family: text::say_again(&self.family),
            cpe23: text::say_again(&self.cpe23),
            model: text::say_again(&self.model),
            version: text::say_again(&self.version),
            serial_number: text::say_again(&self.serial_number),
        }
    }
}

// ---------------------------------------------------------------------------
// What holds of every record
// ---------------------------------------------------------------------------

/// The bound keeps the most recently heard from: nothing kept is invented, and
/// whatever is forgotten was heard from before everything kept.
pub proof fn lemma_the_bound_keeps_the_most_recent(macs: Seen, gone: MacAddr, kept: MacAddr)
    requires
        macs.dom().finite(),
        macs.dom().contains(gone),
        !bounded(macs).dom().contains(gone),
        bounded(macs).dom().contains(kept),
    ensures
        macs.dom().contains(kept),
        bounded(macs)[kept] == macs[kept],
        heard_before(macs, gone, kept),
    decreases macs.dom().len(),
{
    let first = oldest(macs);
    let rest = macs.remove(first);
    lemma_bounded_is_part(rest);
    assert(bounded(macs) == bounded(rest));
    assert(bounded(rest).dom().contains(kept));
    assert(rest.dom().contains(kept) && rest[kept] == macs[kept]);
    if gone == first {
        assert(macs.dom().contains(kept));
    } else {
        assert(rest.dom().contains(gone) && rest[gone] == macs[gone]);
        lemma_the_bound_keeps_the_most_recent(rest, gone, kept);
    }
}

/// Nothing in what the bound keeps is invented.
proof fn lemma_bounded_is_part(macs: Seen)
    requires
        macs.dom().finite(),
    ensures
        forall|address: MacAddr| #[trigger]
            bounded(macs).dom().contains(address) ==> macs.dom().contains(address)
                && bounded(macs)[address] == macs[address],
    decreases macs.dom().len(),
{
    if macs.dom().len() > MAX_MACS_PER_HOST && is_oldest(macs, oldest(macs)) {
        let rest = macs.remove(oldest(macs));
        lemma_bounded_is_part(rest);
        assert(bounded(macs) == bounded(rest));
        assert forall|address: MacAddr| #[trigger]
            bounded(macs).dom().contains(address) implies macs.dom().contains(address) && bounded(
            macs,
        )[address] == macs[address] by {
            assert(bounded(rest).dom().contains(address));
            assert(rest.dom().contains(address));
            assert(rest[address] == macs[address]);
        }
    }
}

/// An account that describes a box names its maker over whoever made the network
/// card, and one that does not fills a gap and no more.
pub proof fn lemma_a_box_names_its_maker(here: HardwareClaim, there: HardwareClaim)
    ensures
        describes_a_box(there) && there.vendor is Some ==> merged(here, there).vendor
            == there.vendor,
        !describes_a_box(there) && here.vendor is Some ==> merged(here, there).vendor
            == here.vendor,
        here.vendor is Some ==> merged(here, there).vendor is Some,
{
}

/// Some address of a record is the one least recently heard from.
proof fn lemma_some_address_is_oldest(macs: Seen)
    requires
        macs.dom().finite(),
        macs.dom().len() > 0,
    ensures
        is_oldest(macs, oldest(macs)),
    decreases macs.dom().len(),
{
    let x = macs.dom().choose();
    assert(macs.dom().contains(x));
    let rest = macs.remove(x);
    assert(rest.dom() =~= macs.dom().remove(x));
    if rest.dom().len() == 0 {
        assert(rest.dom() =~= Set::empty());
        assert forall|other: MacAddr| #[trigger]
            macs.dom().contains(other) && other != x implies heard_before(macs, x, other) by {
            assert(rest.dom().contains(other));
        }
        assert(is_oldest(macs, x));
    } else {
        lemma_some_address_is_oldest(rest);
        let first = oldest(rest);
        let found = if heard_before(macs, x, first) {
            x
        } else {
            first
        };
        MacAddr::order_is_total(x, first);
        assert forall|other: MacAddr| #[trigger]
            macs.dom().contains(other) && other != found implies heard_before(
            macs,
            found,
            other,
        ) by {
            if other != x && other != first {
                assert(rest.dom().contains(other));
                assert(heard_before(rest, first, other));
                if found == x && MacAddr::before(x, first) && MacAddr::before(first, other) {
                    MacAddr::order_is_transitive(x, first, other);
                }
            }
        }
        assert(is_oldest(macs, found));
    }
}

/// A record holds up to sixty-four addresses: no more are kept, and none is
/// forgotten while there is room.
pub proof fn lemma_the_bound_is_reached_before_it_is_kept(macs: Seen)
    requires
        macs.dom().finite(),
    ensures
        macs.dom().len() <= 64 ==> bounded(macs) == macs,
        macs.dom().len() > 64 ==> bounded(macs).dom().len() == 64,
        bounded(macs).dom().finite(),
    decreases macs.dom().len(),
{
    if macs.dom().len() > 64 {
        lemma_some_address_is_oldest(macs);
        let rest = macs.remove(oldest(macs));
        assert(rest.dom() =~= macs.dom().remove(oldest(macs)));
        lemma_the_bound_is_reached_before_it_is_kept(rest);
    }
}

/// Two records know of every address that either does, and of no other, and of
/// each the latest time either heard from it.
pub proof fn lemma_joined_records_know_the_latest(here: Seen, there: Seen, address: MacAddr)
    ensures
        joined(here, there).dom().contains(address) <==> here.dom().contains(address)
            || there.dom().contains(address),
        here.dom().contains(address) ==> joined(here, there)[address].nanos
            >= here[address].nanos,
        there.dom().contains(address) ==> joined(here, there)[address].nanos
            >= there[address].nanos,
        joined(here, there).dom().contains(address) ==> (here.dom().contains(address) && joined(
            here,
            there,
        )[address] == here[address]) || (there.dom().contains(address) && joined(here, there)[address]
            == there[address]),
{
}

/// Whether a field says what the first of two says, and what the second says
/// where the first says nothing.
pub open spec fn told_by(
    field: Option<Seq<char>>,
    first: Option<Seq<char>>,
    second: Option<Seq<char>>,
) -> bool {
    &&& first is Some ==> field == first
    &&& first is None ==> field == second
}

/// A merge keeps every detail on record and fills in those that are missing. Who
/// made the hardware is told by the other account first where that describes a
/// box, and by the record first where it does not.
pub proof fn lemma_a_merge_keeps_and_fills(here: HardwareClaim, there: HardwareClaim)
    ensures
        told_by(merged(here, there).product, here.product, there.product),
        told_by(merged(here, there).family, here.family, there.family),
        told_by(merged(here, there).cpe23, here.cpe23, there.cpe23),
        told_by(merged(here, there).model, here.model, there.model),
        told_by(merged(here, there).version, here.version, there.version),
        told_by(merged(here, there).serial_number, here.serial_number, there.serial_number),
        there.product is Some || there.family is Some || there.cpe23 is Some || there.model is Some
            || there.version is Some || there.serial_number is Some ==> told_by(
            merged(here, there).vendor,
            there.vendor,
            here.vendor,
        ),
        there.product is None && there.family is None && there.cpe23 is None && there.model is None
            && there.version is None && there.serial_number is None ==> told_by(
            merged(here, there).vendor,
            here.vendor,
            there.vendor,
        ),
{
}

/// A merge knows the addresses of both records, as far as there is room for them.
pub proof fn lemma_a_merge_knows_the_addresses_of_both(
    here: HardwareClaim,
    there: HardwareClaim,
    address: MacAddr,
)
    requires
        here.macs.dom().finite(),
        there.macs.dom().finite(),
    ensures
        merged(here, there).macs.dom().contains(address) ==> here.macs.dom().contains(address)
            || there.macs.dom().contains(address),
        here.macs.dom().union(there.macs.dom()).len() <= 64 && (here.macs.dom().contains(address)
            || there.macs.dom().contains(address)) ==> merged(here, there).macs.dom().contains(
            address,
        ),
        merged(here, there).macs.dom().len() <= 64,
        merged(here, there).macs.dom().contains(address) ==> merged(here, there).macs[address]
            == joined(here.macs, there.macs)[address],
{
    let both = joined(here.macs, there.macs);
    assert(both.dom() =~= here.macs.dom().union(there.macs.dom()));
    lemma_the_bound_is_reached_before_it_is_kept(both);
    lemma_bounded_is_part(both);
}

/// Hearing from an address records when, and where there is room for it changes
/// nothing of any other. Its maker is taken to have made the hardware only where
/// the address is new and nobody else is said to have.
pub proof fn lemma_hearing_from_an_address_records_it(
    here: HardwareClaim,
    address: MacAddr,
    at: SystemTime,
    maker: Option<Seq<char>>,
    other: MacAddr,
)
    requires
        here.macs.dom().finite(),
        here.macs.dom().contains(address) || here.macs.dom().len() < 64,
    ensures
        ({
            let after = heard(here, address, at, maker);
            &&& after.macs.dom().contains(address) && after.macs[address] == at
            &&& other != address ==> (after.macs.dom().contains(other)
                <==> here.macs.dom().contains(other))
            &&& other != address && here.macs.dom().contains(other) ==> after.macs[other]
                == here.macs[other]
            &&& here.macs.dom().contains(address) ==> after.vendor == here.vendor
            &&& !here.macs.dom().contains(address) ==> told_by(after.vendor, here.vendor, maker)
            &&& after.product == here.product
            &&& after.family == here.family
            &&& after.cpe23 == here.cpe23
            &&& after.model == here.model
            &&& after.version == here.version
            &&& after.serial_number == here.serial_number
        }),
{
    let macs = here.macs.insert(address, at);
    assert(macs.dom() =~= here.macs.dom().insert(address));
    lemma_the_bound_is_reached_before_it_is_kept(macs);
}

/// Whether the maker of an entry is known, and of no entry heard from later.
pub open spec fn is_last_made(listed: Seq<(MacAddr, SystemTime)>, at: int) -> bool {
    &&& 0 <= at < listed.len()
    &&& maker_of(listed[at].0) is Some
    &&& forall|i: int|
        0 <= i < listed.len() && maker_of((#[trigger] listed[i]).0) is Some ==> listed[i].1.nanos
            <= listed[at].1.nanos
}

/// The maker named for a host is that of the address last heard from of those
/// whose maker is known, and none is named where no maker is.
pub proof fn lemma_the_maker_is_of_the_address_last_heard_from(
    listed: Seq<(MacAddr, SystemTime)>,
)
    ensures
        match first_maker(newest_first(listed), 0) {
            Some(maker) => exists|at: int| #[trigger]
                is_last_made(listed, at) && maker_of(listed[at].0) == Some(maker),
            None => forall|i: int|
                0 <= i < listed.len() ==> maker_of((#[trigger] listed[i]).0) is None,
        },
{
    broadcast use vstd::seq_lib::group_to_multiset_ensures;

    let key = |entry: (MacAddr, SystemTime)| -(entry.1.nanos as int);
    let sorted = newest_first(listed);
    ordered::lemma_in_key_order(listed, key);
    lemma_first_maker(sorted, 0);
    assert forall|i: int| 0 <= i < listed.len() implies sorted.contains(#[trigger] listed[i]) by {
        assert(listed.to_multiset().contains(listed[i]));
    }
    match first_maker(sorted, 0) {
        Some(maker) => {
            let k = choose|k: int|
                0 <= k < sorted.len() && maker_of((#[trigger] sorted[k]).0) == Some(maker)
                    && forall|i: int|
                    0 <= i < k ==> maker_of((#[trigger] sorted[i]).0) is None;
            assert(sorted.to_multiset().contains(sorted[k]));
            assert(listed.contains(sorted[k]));
            let at = choose|at: int| 0 <= at < listed.len() && listed[at] == sorted[k];
            assert forall|i: int|
                0 <= i < listed.len() && maker_of(
                    (#[trigger] listed[i]).0,
                ) is Some implies listed[i].1.nanos <= listed[at].1.nanos by {
                let j = choose|j: int| 0 <= j < sorted.len() && sorted[j] == listed[i];
                assert(maker_of(sorted[j].0) is Some);
                assert(k <= j);
                assert(key(sorted[k]) <= key(sorted[j]));
            }
            assert(is_last_made(listed, at));
        },
        None => {
            assert forall|i: int| 0 <= i < listed.len() implies maker_of(
                (#[trigger] listed[i]).0,
            ) is None by {
                let j = choose|j: int| 0 <= j < sorted.len() && sorted[j] == listed[i];
                assert(maker_of(sorted[j].0) is None);
            }
        },
    }
}

proof fn lemma_first_maker(sorted: Seq<(MacAddr, SystemTime)>, from: int)
    requires
        0 <= from <= sorted.len(),
        forall|i: int| 0 <= i < from ==> maker_of((#[trigger] sorted[i]).0) is None,
    ensures
        match first_maker(sorted, from) {
            Some(maker) => exists|k: int|
                0 <= k < sorted.len() && maker_of((#[trigger] sorted[k]).0) == Some(maker)
                    && forall|i: int| 0 <= i < k ==> maker_of((#[trigger] sorted[i]).0) is None,
            None => forall|i: int|
                0 <= i < sorted.len() ==> maker_of((#[trigger] sorted[i]).0) is None,
        },
    decreases sorted.len() - from,
{
    if from < sorted.len() {
        if maker_of(sorted[from].0) is None {
            lemma_first_maker(sorted, from + 1);
        }
    }
}

} // verus!
