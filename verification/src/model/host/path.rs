//! # The route to a host
//!
//! [`NetworkPath`] is the routers between this machine and a host, by how far
//! away each is. It may have gaps: a router that was never asked about is not in
//! it, and one that declined to answer is there without an address.

use crate::model::ip::addr::IpAddr;
use crate::model::time::Duration;
use vstd::prelude::*;

verus! {

/// One router on the way to a host.
#[derive(Debug, Clone, Copy, PartialEq, Eq, Structural)]
pub struct Hop {
    distance: u8,
    address: Option<IpAddr>,
    rtt: Option<Duration>,
    inferred: bool,
}

/// What a hop says.
pub struct Router {
    pub distance: u8,
    pub address: Option<IpAddr>,
    pub rtt: Option<Duration>,
    pub inferred: bool,
}

impl View for Hop {
    type V = Router;

    closed spec fn view(&self) -> Router {
        Router {
            distance: self.distance,
            address: self.address,
            rtt: self.rtt,
            inferred: self.inferred,
        }
    }
}

impl Hop {
    /// What a hop says decides it.
    pub proof fn lemma_view_decides(a: Hop, b: Hop)
        ensures
            a@ == b@ ==> a == b,
    {
    }

    /// A router that answered, at `distance` hops, in `rtt`.
    pub fn answered(distance: u8, address: IpAddr, rtt: Option<Duration>) -> (hop: Self)
        ensures
            hop@ == (Router { distance, address: Some(address), rtt, inferred: false }),
    {
        Hop { distance, address: Some(address), rtt, inferred: false }
    }

    /// A distance nothing answered at.
    ///
    /// Recorded rather than omitted: a missing entry would say the path is
    /// shorter than it is.
    pub fn silent(distance: u8) -> (hop: Self)
        ensures
            hop@ == (Router { distance, address: None, rtt: None, inferred: false }),
    {
        Hop { distance, address: None, rtt: None, inferred: false }
    }

    /// The same hop, marked as taken from another host's trace rather than
    /// measured on this one. A round trip belongs to the trace that measured it,
    /// so it does not travel.
    #[must_use]
    pub fn as_inferred(self) -> (hop: Self)
        ensures
            hop@ == (Router { rtt: None, inferred: true, ..self@ }),
    {
        Hop { distance: self.distance, address: self.address, rtt: None, inferred: true }
    }

    /// How many hops away it is.
    pub fn distance(&self) -> (distance: u8)
        ensures
            distance == self@.distance,
    {
        self.distance
    }

    /// Its address, if it answered.
    pub fn address(&self) -> (address: Option<IpAddr>)
        ensures
            address == self@.address,
    {
        self.address
    }

    /// How long it took to answer, if that was measured.
    pub fn rtt(&self) -> (rtt: Option<Duration>)
        ensures
            rtt == self@.rtt,
    {
        self.rtt
    }

    /// Whether it was taken from another host's trace.
    pub fn inferred(&self) -> (inferred: bool)
        ensures
            inferred == self@.inferred,
    {
        self.inferred
    }
}

/// Whether a hop is a stronger claim about a router than the one already known:
/// a measurement over an inference, an answer over silence.
pub open spec fn outranks(hop: Router, known: Router) -> bool {
    ||| known.inferred && !hop.inferred
    ||| known.address is None && hop.address is Some
}

/// What is known of a path once one more hop has been recorded.
pub open spec fn recorded(path: Map<u8, Router>, hop: Router) -> Map<u8, Router> {
    if path.dom().contains(hop.distance) && !outranks(hop, path[hop.distance]) {
        path
    } else {
        path.insert(hop.distance, hop)
    }
}

/// Whether hops ascend by distance, one at each.
pub open spec fn ascending(hops: Seq<Hop>) -> bool {
    forall|i: int, j: int|
        0 <= i < j < hops.len() ==> (#[trigger] hops[i])@.distance < (#[trigger] hops[j])@.distance
}

/// Whether hops are those of a path, in order of distance.
pub open spec fn lists(hops: Seq<Hop>, path: Map<u8, Router>) -> bool {
    &&& ascending(hops)
    &&& forall|i: int|
        0 <= i < hops.len() ==> path.dom().contains((#[trigger] hops[i])@.distance)
            && path[hops[i]@.distance] == hops[i]@
    &&& forall|distance: u8| #[trigger]
        path.dom().contains(distance) ==> exists|i: int|
            0 <= i < hops.len() && (#[trigger] hops[i])@.distance == distance
}

/// The route to a host, ascending by distance.
#[derive(Debug, PartialEq, Eq)]
pub struct NetworkPath {
    hops: Vec<Hop>,
}

/// What hops say, by distance.
spec fn mapped(hops: Seq<Hop>) -> Map<u8, Router> {
    Map::new(
        |distance: u8| exists|i: int| 0 <= i < hops.len() && (#[trigger] hops[i]).distance == distance,
        |distance: u8| hops[choose|i: int|
            0 <= i < hops.len() && (#[trigger] hops[i]).distance == distance]@,
    )
}

proof fn lemma_mapped(hops: Seq<Hop>, i: int)
    requires
        ascending(hops),
        0 <= i < hops.len(),
    ensures
        mapped(hops).dom().contains(hops[i].distance),
        mapped(hops)[hops[i].distance] == hops[i]@,
{
    let distance = hops[i].distance;
    let j = choose|j: int| 0 <= j < hops.len() && (#[trigger] hops[j]).distance == distance;
    assert(hops[i].distance == distance);
    if i < j {
        assert(hops[i].distance < hops[j].distance);
    } else if j < i {
        assert(hops[j].distance < hops[i].distance);
    }
}

impl View for NetworkPath {
    type V = Map<u8, Router>;

    /// What is known at each distance.
    closed spec fn view(&self) -> Map<u8, Router> {
        mapped(self.hops@)
    }
}

impl NetworkPath {
    #[verifier::type_invariant]
    spec fn in_order(self) -> bool {
        ascending(self.hops@)
    }

    /// An empty path.
    pub fn new() -> (path: Self)
        ensures
            path@ == Map::<u8, Router>::empty(),
    {
        let path = NetworkPath { hops: Vec::new() };
        assert(path@ =~= Map::empty());
        path
    }

    /// Where a distance stands among the hops, or where it would.
    fn place(&self, distance: u8) -> (place: (bool, usize))
        ensures
            place.1 <= self.hops@.len(),
            place.0 ==> place.1 < self.hops@.len() && self.hops@[place.1 as int].distance
                == distance,
            forall|i: int| 0 <= i < place.1 ==> (#[trigger] self.hops@[i]).distance < distance,
            forall|i: int|
                place.1 <= i < self.hops@.len() ==> (#[trigger] self.hops@[i]).distance >= distance,
            !place.0 ==> forall|i: int|
                0 <= i < self.hops@.len() ==> (#[trigger] self.hops@[i]).distance != distance,
    {
        proof {
            use_type_invariant(self);
        }
        let mut low: usize = 0;
        let mut high: usize = self.hops.len();
        while low < high
            invariant
                ascending(self.hops@),
                low <= high <= self.hops@.len(),
                forall|i: int| 0 <= i < low ==> (#[trigger] self.hops@[i]).distance < distance,
                forall|i: int|
                    high <= i < self.hops@.len() ==> (#[trigger] self.hops@[i]).distance
                        >= distance,
            decreases high - low,
        {
            let middle: usize = low + (high - low) / 2;
            if self.hops[middle].distance < distance {
                assert forall|i: int| 0 <= i < middle + 1 implies (#[trigger] self.hops@[i]).distance
                    < distance by {
                    if i < middle {
                        assert(self.hops@[i].distance < self.hops@[middle as int].distance);
                    }
                }
                low = middle + 1;
            } else {
                assert forall|i: int| middle <= i < self.hops@.len() implies (
                #[trigger] self.hops@[i]).distance >= distance by {
                    if i > middle {
                        assert(self.hops@[middle as int].distance < self.hops@[i].distance);
                    }
                }
                high = middle;
            }
        }
        if low < self.hops.len() && self.hops[low].distance == distance {
            (true, low)
        } else {
            assert forall|i: int| 0 <= i < self.hops@.len() implies (
            #[trigger] self.hops@[i]).distance != distance by {
                if i > low {
                    assert(self.hops@[low as int].distance < self.hops@[i].distance);
                }
            }
            (false, low)
        }
    }

    /// Records `hop`, replacing what was known at that distance where it is the
    /// stronger claim.
    ///
    /// A measurement replaces an inference and never the reverse, and an answered
    /// hop replaces a silent one.
    pub fn record(&mut self, hop: Hop)
        ensures
            final(self)@ == recorded(old(self)@, hop@),
    {
        proof {
            use_type_invariant(&*self);
        }
        let ghost was = self.hops@;
        let (held, at) = self.place(hop.distance);
        if held {
            let known = self.hops[at];
            proof {
                lemma_mapped(was, at as int);
            }
            let stronger = (known.inferred && !hop.inferred) || (known.address.is_none()
                && hop.address.is_some());
            if stronger {
                let mut hops: Vec<Hop> = Vec::new();
                std::mem::swap(&mut hops, &mut self.hops);
                hops.set(at, hop);
                self.hops = hops;
                proof {
                    lemma_replaced(was, self.hops@, at as int, hop);
                }
            }
        } else {
            let mut hops: Vec<Hop> = Vec::new();
            std::mem::swap(&mut hops, &mut self.hops);
            hops.insert(at, hop);
            proof {
                lemma_inserted(was, hops@, at as int, hop);
            }
            self.hops = hops;
        }
    }

    /// Every hop, ascending by distance. May have gaps.
    pub fn hops(&self) -> (hops: &[Hop])
        ensures
            lists(hops@, self@),
    {
        proof {
            use_type_invariant(self);
            assert forall|i: int| 0 <= i < self.hops@.len() implies self@.dom().contains(
                (#[trigger] self.hops@[i])@.distance,
            ) && self@[self.hops@[i]@.distance] == self.hops@[i]@ by {
                lemma_mapped(self.hops@, i);
            }
            assert forall|distance: u8| #[trigger] self@.dom().contains(distance) implies exists|
                i: int,
            |
                0 <= i < self.hops@.len() && (#[trigger] self.hops@[i])@.distance == distance by {
                let i = choose|i: int|
                    0 <= i < self.hops@.len() && (#[trigger] self.hops@[i]).distance == distance;
                assert(self.hops@[i]@.distance == distance);
            }
        }
        self.hops.as_slice()
    }

    /// Whether nothing is known about the path at all.
    pub fn is_empty(&self) -> (empty: bool)
        ensures
            empty == (self@ == Map::<u8, Router>::empty()),
    {
        proof {
            use_type_invariant(self);
            if self.hops@.len() > 0 {
                lemma_mapped(self.hops@, 0);
            } else {
                assert(self@ =~= Map::empty());
            }
        }
        self.hops.len() == 0
    }

    /// How far away the furthest known router is, or `None` for an empty path.
    ///
    /// The last known distance rather than a count of hops, which differ whenever
    /// a router declined to answer.
    pub fn length(&self) -> (length: Option<u8>)
        ensures
            match length {
                Some(length) => self@.dom().contains(length) && forall|distance: u8| #[trigger]
                    self@.dom().contains(distance) ==> distance <= length,
                None => self@ == Map::<u8, Router>::empty(),
            },
    {
        proof {
            use_type_invariant(self);
        }
        let n: usize = self.hops.len();
        if n == 0 {
            assert(self@ =~= Map::empty());
            return None;
        }
        proof {
            lemma_mapped(self.hops@, n - 1);
            assert forall|distance: u8| #[trigger] self@.dom().contains(distance) implies distance
                <= self.hops@[n - 1].distance by {
                let i = choose|i: int|
                    0 <= i < self.hops@.len() && (#[trigger] self.hops@[i]).distance == distance;
                if i < n - 1 {
                    assert(self.hops@[i].distance < self.hops@[n - 1].distance);
                }
            }
        }
        Some(self.hops[n - 1].distance)
    }

    /// The address at `distance`, if a router answered there.
    pub fn at(&self, distance: u8) -> (address: Option<IpAddr>)
        ensures
            address == if self@.dom().contains(distance) {
                self@[distance].address
            } else {
                None
            },
    {
        proof {
            use_type_invariant(self);
        }
        let (held, at) = self.place(distance);
        if held {
            proof {
                lemma_mapped(self.hops@, at as int);
            }
            self.hops[at].address
        } else {
            None
        }
    }
}

proof fn lemma_replaced(was: Seq<Hop>, now: Seq<Hop>, at: int, hop: Hop)
    requires
        ascending(was),
        0 <= at < was.len(),
        was[at].distance == hop.distance,
        now == was.update(at, hop),
    ensures
        ascending(now),
        mapped(now) == mapped(was).insert(hop.distance, hop@),
{
    assert(ascending(now)) by {
        assert forall|i: int, j: int| 0 <= i < j < now.len() implies (#[trigger] now[i]).distance < (
        #[trigger] now[j]).distance by {
            assert(was[i].distance < was[j].distance);
        }
    }
    assert forall|distance: u8| #[trigger] mapped(now).dom().contains(distance) <==> mapped(
        was,
    ).dom().contains(distance) by {
        if mapped(now).dom().contains(distance) {
            let i = choose|i: int| 0 <= i < now.len() && (#[trigger] now[i]).distance == distance;
            assert(was[i].distance == distance);
        }
        if mapped(was).dom().contains(distance) {
            let i = choose|i: int| 0 <= i < was.len() && (#[trigger] was[i]).distance == distance;
            assert(now[i].distance == distance);
        }
    }
    lemma_mapped(was, at);
    lemma_mapped(now, at);
    assert forall|distance: u8| mapped(now).dom().contains(distance) implies #[trigger] mapped(
        now,
    )[distance] == mapped(was).insert(hop.distance, hop@)[distance] by {
        let i = choose|i: int| 0 <= i < now.len() && (#[trigger] now[i]).distance == distance;
        lemma_mapped(now, i);
        lemma_mapped(was, i);
    }
    assert(mapped(now) =~= mapped(was).insert(hop.distance, hop@));
}

proof fn lemma_inserted(was: Seq<Hop>, now: Seq<Hop>, at: int, hop: Hop)
    requires
        ascending(was),
        0 <= at <= was.len(),
        now == was.insert(at, hop),
        forall|i: int| 0 <= i < at ==> (#[trigger] was[i]).distance < hop.distance,
        forall|i: int| at <= i < was.len() ==> (#[trigger] was[i]).distance > hop.distance,
    ensures
        ascending(now),
        mapped(now) == mapped(was).insert(hop.distance, hop@),
        !mapped(was).dom().contains(hop.distance),
{
    assert(ascending(now)) by {
        assert forall|i: int, j: int| 0 <= i < j < now.len() implies (#[trigger] now[i]).distance < (
        #[trigger] now[j]).distance by {
            let a = if i < at {
                i
            } else {
                i - 1
            };
            let b = if j < at {
                j
            } else {
                j - 1
            };
            if i != at && j != at {
                assert(was[a].distance < was[b].distance);
            } else if i == at {
                assert(was[b].distance > hop.distance);
            } else {
                assert(was[a].distance < hop.distance);
            }
        }
    }
    assert forall|distance: u8| #[trigger] mapped(now).dom().contains(distance) <==> mapped(
        was,
    ).dom().contains(distance) || distance == hop.distance by {
        if mapped(now).dom().contains(distance) {
            let i = choose|i: int| 0 <= i < now.len() && (#[trigger] now[i]).distance == distance;
            if i < at {
                assert(was[i].distance == distance);
            } else if i > at {
                assert(was[i - 1].distance == distance);
            }
        }
        if mapped(was).dom().contains(distance) {
            let i = choose|i: int| 0 <= i < was.len() && (#[trigger] was[i]).distance == distance;
            if i < at {
                assert(now[i].distance == distance);
            } else {
                assert(now[i + 1].distance == distance);
            }
        }
        assert(now[at].distance == hop.distance);
    }
    lemma_mapped(now, at);
    assert forall|distance: u8| mapped(now).dom().contains(distance) implies #[trigger] mapped(
        now,
    )[distance] == mapped(was).insert(hop.distance, hop@)[distance] by {
        let i = choose|i: int| 0 <= i < now.len() && (#[trigger] now[i]).distance == distance;
        lemma_mapped(now, i);
        if i < at {
            lemma_mapped(was, i);
        } else if i > at {
            lemma_mapped(was, i - 1);
        }
    }
    assert(mapped(now) =~= mapped(was).insert(hop.distance, hop@));
}

impl Clone for NetworkPath {
    fn clone(&self) -> (path: Self)
        ensures
            path@ == self@,
    {
        proof {
            use_type_invariant(self);
        }
        let mut hops: Vec<Hop> = Vec::new();
        let mut i: usize = 0;
        while i < self.hops.len()
            invariant
                i <= self.hops@.len(),
                hops@ == self.hops@.take(i as int),
            decreases self.hops@.len() - i,
        {
            hops.push(self.hops[i]);
            i = i + 1;
            assert(self.hops@.take(i as int) =~= self.hops@.take(i - 1).push(self.hops@[i - 1]));
        }
        assert(self.hops@.take(i as int) =~= self.hops@);
        NetworkPath { hops }
    }
}

impl Default for NetworkPath {
    fn default() -> (path: Self)
        ensures
            path@ == Map::<u8, Router>::empty(),
    {
        Self::new()
    }
}

/// A measurement is never lost to an inference, and an answer never to silence:
/// what is known at a distance stays known, and an address that answered stays
/// measured.
pub proof fn lemma_a_stronger_claim_is_kept(path: Map<u8, Router>, hop: Router)
    requires
        path.dom().contains(hop.distance),
    ensures
        !path[hop.distance].inferred && path[hop.distance].address is Some ==> recorded(path, hop)
            == path,
        path[hop.distance].address is Some && hop.inferred ==> recorded(path, hop) == path,
        hop.address is Some && !hop.inferred && (path[hop.distance].inferred
            || path[hop.distance].address is None) ==> recorded(path, hop)[hop.distance] == hop,
{
}

/// Recording a hop says nothing about the rest of the path.
pub proof fn lemma_a_hop_leaves_the_rest_alone(path: Map<u8, Router>, hop: Router, distance: u8)
    requires
        distance != hop.distance,
    ensures
        recorded(path, hop).dom().contains(distance) == path.dom().contains(distance),
        path.dom().contains(distance) ==> recorded(path, hop)[distance] == path[distance],
{
}

/// A reply that arrives twice changes nothing the second time.
pub proof fn lemma_a_repeated_hop_changes_nothing(path: Map<u8, Router>, hop: Router)
    ensures
        recorded(recorded(path, hop), hop) == recorded(path, hop),
{
}

/// Replies converge on one path in whichever order they arrive: those about
/// different distances always, and those about one distance where one of the two is
/// the stronger claim, or neither is stronger than what is known. Left out are two
/// claims of one strength that say different things, of which the first stays, and
/// two that outrank each other, an inferred answer beside a silence of the path's
/// own, of which the second does.
pub proof fn lemma_replies_in_any_order_give_one_path(path: Map<u8, Router>, a: Router, b: Router)
    requires
        a.distance == b.distance ==> {
            ||| a == b
            ||| outranks(a, b) != outranks(b, a)
            ||| path.dom().contains(a.distance) && !outranks(a, path[a.distance]) && !outranks(
                b,
                path[a.distance],
            )
        },
    ensures
        recorded(recorded(path, a), b) == recorded(recorded(path, b), a),
{
    assert(recorded(recorded(path, a), b) =~= recorded(recorded(path, b), a));
}

} // verus!
