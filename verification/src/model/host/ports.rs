//! # The ports found on a host
//!
//! [`PortTable`] keeps what was established about each endpoint of one host, in a
//! stable order and within a bound, with how many of them are open maintained as
//! they are recorded.

use crate::model::port::{self, Endpoint, Port, PortState};
use crate::ordered;
use crate::ordered::{Ordered, OrderedMap, Same};
use vstd::prelude::*;

verus! {

/// The most ports one host will have recorded against it.
///
/// It is one protocol's whole port space, because anything less truncates a scan
/// somebody deliberately asked for.
pub const MAX_PORTS_PER_HOST: usize = 65_536;

/// How many open ports make a host implausible as a host.
///
/// Counted on open ports and nothing else: a host with sixty thousand closed ports
/// is the ordinary result of a wide scan against a live machine.
pub const TARPIT_OPEN_PORTS: usize = 1_000;

/// What was established about each endpoint.
pub type Findings = Map<Endpoint, PortState>;

/// Whether a finding about an endpoint has a place.
pub open spec fn has_room(found: Findings, at: Endpoint) -> bool {
    found.dom().contains(at) || found.dom().len() < MAX_PORTS_PER_HOST
}

/// What is established once one finding more has been recorded: a state is
/// promoted and never lowered, and past the bound nothing new is taken in.
pub open spec fn noted(found: Findings, at: Endpoint, state: PortState) -> Findings {
    if found.dom().contains(at) {
        found.insert(at, port::promoted(found[at], state))
    } else if found.dom().len() < MAX_PORTS_PER_HOST {
        found.insert(at, state)
    } else {
        found
    }
}

/// The endpoints something listens on.
pub open spec fn open_ports(found: Findings) -> Set<Endpoint> {
    found.dom().filter(|at: Endpoint| found[at] is Open)
}

/// Whether a finding makes an endpoint open that was not.
pub open spec fn opens(found: Findings, at: Endpoint, state: PortState) -> bool {
    &&& has_room(found, at)
    &&& state is Open
    &&& !(found.dom().contains(at) && found[at] is Open)
}

/// Whether ports are those of a table, in order.
pub open spec fn lists_ports(ports: Seq<Port>, found: Findings) -> bool {
    &&& forall|i: int, j: int|
        0 <= i < j < ports.len() ==> Endpoint::before(
            (#[trigger] ports[i]).at(),
            (#[trigger] ports[j]).at(),
        )
    &&& forall|i: int|
        0 <= i < ports.len() ==> found.dom().contains((#[trigger] ports[i]).at())
            && found[ports[i].at()] == ports[i].found()
    &&& forall|at: Endpoint| #[trigger]
        found.dom().contains(at) ==> exists|i: int|
            0 <= i < ports.len() && (#[trigger] ports[i]).at() == at
}

/// What is left of a host's ports when each is reduced to its state.
spec fn states(ports: Map<Endpoint, Port>) -> Findings {
    Map::new(|at: Endpoint| ports.dom().contains(at), |at: Endpoint| ports[at].found())
}

/// The ports found on a host.
#[derive(Debug, PartialEq, Eq)]
pub struct PortTable {
    ports: OrderedMap<Endpoint, Port>,
    open: usize,
}

impl View for PortTable {
    type V = Findings;

    closed spec fn view(&self) -> Findings {
        states(self.ports@)
    }
}

/// How recording one finding changes what is open.
proof fn lemma_open_ports_noted(found: Findings, at: Endpoint, state: PortState)
    requires
        found.dom().finite(),
    ensures
        open_ports(found).finite(),
        open_ports(found).len() <= found.dom().len(),
        open_ports(noted(found, at, state)).finite(),
        open_ports(noted(found, at, state)).len() == open_ports(found).len() + if opens(
            found,
            at,
            state,
        ) {
            1int
        } else {
            0int
        },
{
    vstd::set_lib::lemma_len_subset(open_ports(found), found.dom());
    let after = noted(found, at, state);
    assert(after.dom() =~= found.dom() || after.dom() =~= found.dom().insert(at));
    if opens(found, at, state) {
        assert(open_ports(after) =~= open_ports(found).insert(at));
    } else {
        assert(open_ports(after) =~= open_ports(found));
    }
}

impl PortTable {
    /// Every port is filed under its endpoint, there are no more than the bound,
    /// and the count of the open ones is theirs.
    #[verifier::type_invariant]
    spec fn is_sound(self) -> bool {
        &&& self.ports@.dom().finite()
        &&& self.ports@.dom().len() <= MAX_PORTS_PER_HOST
        &&& forall|at: Endpoint| #[trigger]
            self.ports@.dom().contains(at) ==> self.ports@[at].at() == at
        &&& self.open == open_ports(states(self.ports@)).len()
    }

    /// The ports, by number with the transports of one number adjacent.
    pub closed spec fn listed(&self) -> Seq<Port> {
        self.ports.listed().map(|i: int, entry: (Endpoint, Port)| entry.1)
    }

    /// No ports.
    pub fn new() -> (table: Self)
        ensures
            table@ == Map::<Endpoint, PortState>::empty(),
    {
        let ports: OrderedMap<Endpoint, Port> = OrderedMap::new();
        proof {
            assert(ports@.dom() =~= Set::empty());
            assert(open_ports(states(ports@)) =~= Set::empty());
        }
        let table = PortTable { ports, open: 0 };
        assert(table@ =~= Map::empty());
        table
    }

    /// How many ports are recorded.
    pub fn len(&self) -> (len: usize)
        ensures
            len == self@.dom().len(),
            len <= MAX_PORTS_PER_HOST,
            len == self.listed().len(),
            self@.dom().finite(),
    {
        proof {
            use_type_invariant(self);
            assert(self@.dom() =~= self.ports@.dom());
        }
        self.ports.len()
    }

    /// How many of them are open.
    pub fn open_count(&self) -> (count: usize)
        ensures
            count == open_ports(self@).len(),
            count <= MAX_PORTS_PER_HOST,
    {
        proof {
            use_type_invariant(self);
            assert(self@.dom() =~= self.ports@.dom());
            vstd::set_lib::lemma_len_subset(open_ports(self@), self@.dom());
        }
        self.open
    }

    /// What was established about one endpoint.
    pub fn get(&self, at: &Endpoint) -> (state: Option<PortState>)
        ensures
            state == if self@.dom().contains(*at) {
                Some(self@[*at])
            } else {
                None
            },
    {
        match self.ports.get(at) {
            Some(port) => Some(port.state()),
            None => None,
        }
    }

    /// The `i`th port.
    pub fn at(&self, i: usize) -> (port: &Port)
        requires
            i < self.listed().len(),
        ensures
            *port == self.listed()[i as int],
    {
        &self.ports.at(i).1
    }

    /// The ports, by number with the transports of one number adjacent.
    pub fn all(&self) -> (all: Vec<&Port>)
        ensures
            all@.len() == self.listed().len(),
            forall|i: int| 0 <= i < all@.len() ==> *#[trigger] all@[i] == self.listed()[i],
            lists_ports(self.listed(), self@),
    {
        let values = self.ports.values();
        proof {
            use_type_invariant(self);
            let entries = self.ports.listed();
            let ports = self.listed();
            let keys = ordered::keys_of(entries);
            assert forall|i: int| 0 <= i < ports.len() implies self@.dom().contains(
                (#[trigger] ports[i]).at(),
            ) && self@[ports[i].at()] == ports[i].found() && ports[i].at() == entries[i].0 by {
                ordered::lemma_place(entries, i);
                assert(self.ports@.dom().contains(entries[i].0));
            }
            assert forall|at: Endpoint| #[trigger] self@.dom().contains(at) implies exists|i: int|
                0 <= i < ports.len() && (#[trigger] ports[i]).at() == at by {
                assert(keys.to_set().contains(at));
                let i = choose|i: int| 0 <= i < keys.len() && keys[i] == at;
                assert(ports[i].at() == at);
            }
            assert forall|i: int, j: int| 0 <= i < j < ports.len() implies Endpoint::before(
                (#[trigger] ports[i]).at(),
                (#[trigger] ports[j]).at(),
            ) by {
                assert(Endpoint::before(entries[i].0.model(), entries[j].0.model()));
            }
        }
        values
    }

    /// Records a finding, and says whether it was recorded and whether it made an
    /// endpoint open that was not.
    pub fn note(&mut self, port: Port) -> (outcome: (bool, bool))
        ensures
            final(self)@ == noted(old(self)@, port.at(), port.found()),
            outcome.0 == has_room(old(self)@, port.at()),
            outcome.1 == opens(old(self)@, port.at(), port.found()),
            final(self)@.dom().finite(),
    {
        proof {
            use_type_invariant(&*self);
        }
        let ghost was = self.ports@;
        let ghost before = self@;
        let ghost (at, state) = (port.at(), port.found());
        proof {
            assert(before.dom() =~= was.dom());
            lemma_open_ports_noted(before, at, state);
        }
        let key = port.endpoint();
        let full = self.ports.len() >= MAX_PORTS_PER_HOST;
        let (was_open, recorded) = match self.ports.get(&key) {
            Some(known) => {
                let mut known: Port = *known;
                let was_open = matches!(known.state(), PortState::Open);
                known.merge(port);
                (was_open, known)
            },
            None => {
                if full {
                    return (false, false);
                }
                (false, port)
            },
        };
        let opened = !was_open && matches!(recorded.state(), PortState::Open);
        let mut this = PortTable::new();
        std::mem::swap(&mut this, self);
        let open: usize = this.open;
        let mut ports = this.ports;
        ports.insert(key, recorded);
        proof {
            assert(ports@.dom() =~= was.dom().insert(at));
            assert(was.dom().contains(at) ==> was.dom().insert(at) =~= was.dom());
            assert(states(ports@) =~= noted(before, at, state));
            vstd::set_lib::lemma_len_subset(open_ports(before), before.dom());
        }
        *self = PortTable {
            ports,
            open: if opened {
                open + 1
            } else {
                open
            },
        };
        (true, opened)
    }
}

impl Clone for PortTable {
    fn clone(&self) -> (table: Self)
        ensures
            table@ == self@,
    {
        proof {
            use_type_invariant(self);
        }
        let ports = self.ports.clone();
        proof {
            assert(ports@ =~= self.ports@) by {
                assert forall|at: Endpoint| #[trigger] self.ports@.dom().contains(at) implies ports@[at]
                    == self.ports@[at] by {
                    assert(cloned(self.ports@[at], ports@[at]));
                }
            }
        }
        PortTable { ports, open: self.open }
    }
}

// ---------------------------------------------------------------------------
// What holds of every table
// ---------------------------------------------------------------------------

/// A number names one endpoint per transport: what is recorded of one endpoint
/// leaves every other as it was.
pub proof fn lemma_endpoints_are_apart(
    found: Findings,
    at: Endpoint,
    state: PortState,
    other: Endpoint,
)
    requires
        other != at,
    ensures
        noted(found, at, state).dom().contains(other) == found.dom().contains(other),
        found.dom().contains(other) ==> noted(found, at, state)[other] == found[other],
{
}

/// Nothing is unlearned: an endpoint on record stays, and what is known of it is
/// never lowered.
pub proof fn lemma_a_port_is_only_promoted(
    found: Findings,
    at: Endpoint,
    state: PortState,
    other: Endpoint,
)
    requires
        found.dom().contains(other),
    ensures
        noted(found, at, state).dom().contains(other),
        noted(found, at, state)[other].rank() >= found[other].rank(),
        other == at ==> noted(found, at, state)[other].rank() >= state.rank(),
{
}

/// The open count follows what the ports became: it rises by one where an endpoint
/// turns open and stays where it is otherwise, so that it never falls.
pub proof fn lemma_the_open_count_follows_promotions(
    found: Findings,
    at: Endpoint,
    state: PortState,
)
    requires
        found.dom().finite(),
    ensures
        opens(found, at, state) ==> open_ports(noted(found, at, state)).len() == open_ports(
            found,
        ).len() + 1,
        !opens(found, at, state) ==> open_ports(noted(found, at, state)).len() == open_ports(
            found,
        ).len(),
        open_ports(noted(found, at, state)).len() >= open_ports(found).len(),
{
    lemma_open_ports_noted(found, at, state);
}

/// A finding about an endpoint that is new is recorded as it was found, where
/// there is room for it, and nothing is recorded where there is not. One about an
/// endpoint on record leaves the stronger of the two states.
pub proof fn lemma_a_finding_is_recorded_as_found(found: Findings, at: Endpoint, state: PortState)
    ensures
        !found.dom().contains(at) && found.dom().len() < 65_536 ==> noted(
            found,
            at,
            state,
        ).dom().contains(at) && noted(found, at, state)[at] == state,
        !found.dom().contains(at) && found.dom().len() >= 65_536 ==> noted(found, at, state)
            == found,
        found.dom().contains(at) ==> {
            &&& noted(found, at, state).dom() =~= found.dom()
            &&& noted(found, at, state)[at] == found[at] || noted(found, at, state)[at] == state
            &&& noted(found, at, state)[at].rank() >= found[at].rank()
            &&& noted(found, at, state)[at].rank() >= state.rank()
        },
{
}

} // verus!
