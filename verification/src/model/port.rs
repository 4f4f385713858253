//! # Ports, as a person writes them
//!
//! [`PortSet`] is which ports a target is to be scanned on. It is written as a
//! comma-separated list of ports and ranges of them, each a TCP port unless `u:`
//! stands in front of it: `80`, `80,443`, `1-1024`, `80,u:53`. Two specifications
//! that mean the same ports are the same set, however they are written.
//!
//! [`Port`] is one endpoint of a host and what a scan established about it.

use crate::model::ip::runs;
use crate::model::ip::runs::{Numbered, Stretch};
use crate::ordered::{Ordered, Same};
use crate::text;
use vstd::prelude::*;
use vstd::slice::slice_subrange;

verus! {

/// Which transport a port belongs to.
#[non_exhaustive]
#[derive(Debug, Clone, Copy, PartialEq, Eq, Hash, Structural)]
pub enum Protocol {
    /// TCP.
    Tcp,
    /// UDP.
    Udp,
}

/// What a scan established about one port.
///
/// Ordered from least definitive to most, so that a port's state is only ever
/// promoted.
#[non_exhaustive]
#[derive(Debug, Clone, Copy, PartialEq, Eq, PartialOrd, Ord, Hash, Structural)]
pub enum PortState {
    /// No probe was sent.
    Unasked,
    /// Nothing came back, or something in the path refused.
    Filtered,
    /// Nothing came back where silence may mean either.
    OpenFiltered,
    /// The stack was reached, and nothing was said of a listener.
    Unfiltered,
    /// The stack said nothing listens.
    Closed,
    /// Something listens.
    Open,
}

impl PortState {
    /// How much a state establishes.
    pub open spec fn rank(self) -> int {
        match self {
            PortState::Unasked => 0,
            PortState::Filtered => 1,
            PortState::OpenFiltered => 2,
            PortState::Unfiltered => 3,
            PortState::Closed => 4,
            PortState::Open => 5,
        }
    }

    fn place(self) -> (place: u8)
        ensures
            place == self.rank(),
    {
        match self {
            PortState::Unasked => 0,
            PortState::Filtered => 1,
            PortState::OpenFiltered => 2,
            PortState::Unfiltered => 3,
            PortState::Closed => 4,
            PortState::Open => 5,
        }
    }
}

/// The one of two states that establishes more.
pub open spec fn promoted(a: PortState, b: PortState) -> PortState {
    if b.rank() > a.rank() {
        b
    } else {
        a
    }
}

/// One endpoint of a host and what was established about it.
#[derive(Debug, Clone, Copy, PartialEq, Eq, Structural)]
pub struct Port {
    number: u16,
    protocol: Protocol,
    state: PortState,
}

/// Which endpoint a port is: a number names one per transport.
#[derive(Debug, Clone, Copy, PartialEq, Eq, Structural)]
pub struct Endpoint {
    /// The number.
    pub number: u16,
    /// The transport.
    pub protocol: Protocol,
}

impl Port {
    /// Which endpoint this is.
    pub closed spec fn at(&self) -> Endpoint {
        Endpoint { number: self.number, protocol: self.protocol }
    }

    /// What was established about it.
    pub closed spec fn found(&self) -> PortState {
        self.state
    }

    /// The endpoint and the state are all there is to it.
    pub proof fn lemma_state_decides(a: Port, b: Port)
        ensures
            a.at() == b.at() && a.found() == b.found() ==> a == b,
    {
    }

    /// A finding about one port.
    pub fn new(number: u16, protocol: Protocol, state: PortState) -> (port: Self)
        ensures
            port.at() == (Endpoint { number, protocol }),
            port.found() == state,
    {
        Port { number, protocol, state }
    }

    /// The number.
    pub fn number(&self) -> (number: u16)
        ensures
            number == self.at().number,
    {
        self.number
    }

    /// The transport.
    pub fn protocol(&self) -> (protocol: Protocol)
        ensures
            protocol == self.at().protocol,
    {
        self.protocol
    }

    /// Which endpoint this is.
    pub fn endpoint(&self) -> (endpoint: Endpoint)
        ensures
            endpoint == self.at(),
    {
        Endpoint { number: self.number, protocol: self.protocol }
    }

    /// What was established about it.
    pub fn state(&self) -> (state: PortState)
        ensures
            state == self.found(),
    {
        self.state
    }

    /// Folds another finding about the same endpoint in: the state is promoted
    /// and never lowered.
    pub fn merge(&mut self, other: Port)
        ensures
            final(self).at() == old(self).at(),
            final(self).found() == promoted(old(self).found(), other.found()),
    {
        if other.state.place() > self.state.place() {
            self.state = other.state;
        }
    }
}

impl Same for Endpoint {
    type Model = Endpoint;

    open spec fn model(&self) -> Endpoint {
        *self
    }

    fn same(&self, other: &Self) -> (result: bool) {
        *self == *other
    }

    fn copied(&self) -> (result: Self) {
        *self
    }
}

impl Ordered for Endpoint {
    /// By number first, with the transports of one number adjacent.
    open spec fn before(a: Endpoint, b: Endpoint) -> bool {
        a.number < b.number || (a.number == b.number && a.protocol is Tcp && b.protocol is Udp)
    }

    proof fn order_is_total(a: Endpoint, b: Endpoint) {
    }

    proof fn order_is_transitive(a: Endpoint, b: Endpoint, c: Endpoint) {
    }

    fn precedes(&self, other: &Self) -> (result: bool) {
        self.number < other.number || (self.number == other.number && matches!(
            self.protocol,
            Protocol::Tcp
        ) && matches!(other.protocol, Protocol::Udp))
    }
}

/// A run of ports of one transport.
#[derive(Debug, Clone, Copy, PartialEq, Eq, Hash, Structural)]
pub struct PortRange {
    /// Whether these are UDP ports.
    pub udp: bool,
    /// The first port.
    pub first: u16,
    /// The last port.
    pub last: u16,
}

/// The number ports of a transport are told apart by: none for TCP, the
/// protocol's own for UDP.
pub open spec fn transport(udp: bool) -> Option<u32> {
    if udp {
        Some(17)
    } else {
        None
    }
}

impl Numbered for PortRange {
    open spec fn lo(&self) -> int {
        self.first as int
    }

    open spec fn hi(&self) -> int {
        self.last as int
    }

    open spec fn scope(&self) -> Option<u32> {
        transport(self.udp)
    }

    open spec fn sound(&self) -> bool {
        self.first <= self.last
    }

    proof fn ends_decide(a: Self, b: Self) {
    }
}

/// What ports a specification means: a transport and a number each.
pub type Ports = Set<(Option<u32>, int)>;

/// Why a port specification was refused.
pub enum PortFault {
    /// A part is no port and no range of ports.
    Invalid(Seq<char>),
    /// A range ends before it starts.
    Inverted(Seq<char>),
    /// Nothing is named.
    Nothing(Seq<char>),
}

/// What one part of a specification writes.
pub enum Entry {
    /// Nothing.
    Blank,
    /// Some ports.
    Ports(PortRange),
    /// No ports.
    Fault(PortFault),
}

/// The ports one part of a specification writes.
pub open spec fn entry_of(piece: Seq<char>) -> Entry {
    let part = text::trimmed(piece);
    let udp = part.len() >= 2 && part[0] == 'u' && part[1] == ':';
    let rest = if udp {
        part.skip(2)
    } else {
        part
    };
    let cut = text::upto(rest, '-');
    let (first, last) = if cut < rest.len() {
        (
            text::digits_value(rest.take(cut), 10, 0xffff),
            text::digits_value(rest.skip(cut + 1), 10, 0xffff),
        )
    } else {
        (text::digits_value(rest, 10, 0xffff), text::digits_value(rest, 10, 0xffff))
    };
    if part.len() == 0 {
        Entry::Blank
    } else {
        match (first, last) {
            (Some(a), Some(b)) => if a <= b {
                Entry::Ports(PortRange { udp, first: a as u16, last: b as u16 })
            } else {
                Entry::Fault(PortFault::Inverted(part))
            },
            _ => Entry::Fault(PortFault::Invalid(part)),
        }
    }
}

/// The ports some parts write, or the first fault among them.
pub open spec fn entries_of(pieces: Seq<Seq<char>>) -> Result<Seq<PortRange>, PortFault>
    decreases pieces.len(),
{
    if pieces.len() == 0 {
        Ok(Seq::empty())
    } else {
        match entries_of(pieces.drop_last()) {
            Err(fault) => Err(fault),
            Ok(ranges) => match entry_of(pieces.last()) {
                Entry::Blank => Ok(ranges),
                Entry::Ports(range) => Ok(ranges.push(range)),
                Entry::Fault(fault) => Err(fault),
            },
        }
    }
}

/// The ports a specification writes, or what is wrong with it.
pub open spec fn ports_of(written: Seq<char>) -> Result<Ports, PortFault> {
    match entries_of(text::split_on(written, seq![','])) {
        Ok(ranges) => Ok(runs::covered(ranges)),
        Err(fault) => Err(fault),
    }
}

/// The ports a specification to scan writes: one that names nothing is refused.
pub open spec fn scanned_ports_of(written: Seq<char>) -> Result<Ports, PortFault> {
    match entries_of(text::split_on(written, seq![','])) {
        Ok(ranges) => if ranges.len() == 0 {
            Err(PortFault::Nothing(written))
        } else {
            Ok(runs::covered(ranges))
        },
        Err(fault) => Err(fault),
    }
}

/// Why a port specification could not be read.
#[non_exhaustive]
#[derive(Debug, Clone, PartialEq, Eq)]
pub enum PortSetParseError {
    /// A part is no port and no range of ports.
    Invalid(String),
    /// A range ends before it starts.
    Inverted(String),
    /// Nothing is named.
    Nothing(String),
}

impl View for PortSetParseError {
    type V = PortFault;

    open spec fn view(&self) -> PortFault {
        match self {
            PortSetParseError::Invalid(part) => PortFault::Invalid(part@),
            PortSetParseError::Inverted(part) => PortFault::Inverted(part@),
            PortSetParseError::Nothing(spec) => PortFault::Nothing(spec@),
        }
    }
}

/// What is said of a fault.
pub open spec fn fault_message(fault: PortFault) -> Seq<char> {
    match fault {
        PortFault::Invalid(part) => "'"@ + part + "' is not a port or a range of ports"@,
        PortFault::Inverted(part) => "'"@ + part + "' ends before it starts"@,
        PortFault::Nothing(spec) => "'"@ + spec + "' names no ports"@,
    }
}

impl PortSetParseError {
    /// What went wrong, and with what.
    pub fn to_string(&self) -> (message: String)
        ensures
            message@ == fault_message(self@),
    {
        let mut message = "'".to_owned();
        match self {
            PortSetParseError::Invalid(part) => {
                message.append(part.as_str());
                message.append("' is not a port or a range of ports");
            },
            PortSetParseError::Inverted(part) => {
                message.append(part.as_str());
                message.append("' ends before it starts");
            },
            PortSetParseError::Nothing(spec) => {
                message.append(spec.as_str());
                message.append("' names no ports");
            },
        }
        message
    }
}

/// A valid run of ports.
#[derive(Debug, Clone, Copy, PartialEq, Eq, Structural)]
struct Stretched {
    range: PortRange,
}

impl Stretched {
    #[verifier::type_invariant]
    spec fn not_inverted(self) -> bool {
        self.range.first <= self.range.last
    }
}

impl Numbered for Stretched {
    closed spec fn lo(&self) -> int {
        self.range.first as int
    }

    closed spec fn hi(&self) -> int {
        self.range.last as int
    }

    closed spec fn scope(&self) -> Option<u32> {
        transport(self.range.udp)
    }

    closed spec fn sound(&self) -> bool {
        self.range.first <= self.range.last
    }

    proof fn ends_decide(a: Self, b: Self) {
    }
}

impl Stretch for Stretched {
    fn ends(&self) -> (ends: (u128, u128)) {
        proof {
            use_type_invariant(self);
        }
        (self.range.first as u128, self.range.last as u128)
    }

    fn scoped_to(&self) -> (scope: Option<u32>) {
        if self.range.udp {
            Some(17)
        } else {
            None
        }
    }

    fn part(&self, lo: u128, hi: u128) -> (part: Self) {
        Stretched {
            range: PortRange { udp: self.range.udp, first: lo as u16, last: hi as u16 },
        }
    }

    fn reaching(&self, other: &Self) -> (reached: Self) {
        proof {
            use_type_invariant(self);
        }
        let last: u16 = if other.range.last > self.range.last {
            other.range.last
        } else {
            self.range.last
        };
        Stretched { range: PortRange { udp: self.range.udp, first: self.range.first, last } }
    }
}

/// Which ports a target is to be scanned on.
#[derive(Debug, PartialEq, Eq)]
pub struct PortSet {
    ranges: Vec<Stretched>,
}

impl View for PortSet {
    type V = Ports;

    closed spec fn view(&self) -> Ports {
        runs::covered(self.ranges@)
    }
}

impl PortSet {
    /// The runs are sorted and merged, so that two sets of the same ports hold
    /// the same runs.
    #[verifier::type_invariant]
    spec fn is_merged(self) -> bool {
        runs::canonical(self.ranges@)
    }

    /// No ports at all.
    pub fn none() -> (ports: Self)
        ensures
            ports@ == Ports::empty(),
    {
        let ports = PortSet { ranges: Vec::new() };
        assert(ports@ =~= Set::empty());
        ports
    }

    /// The ports `written` means.
    pub fn try_from(written: &str) -> (ports: Result<Self, PortSetParseError>)
        ensures
            match (ports, ports_of(written@)) {
                (Ok(ports), Ok(meant)) => ports@ == meant,
                (Err(error), Err(fault)) => error@ == fault,
                _ => false,
            },
    {
        match read_entries(written) {
            Ok(entries) => Ok(PortSet::merged(&entries)),
            Err(error) => Err(error),
        }
    }

    /// The ports `written` means, as something to scan: a specification naming no
    /// ports is refused, since scanning nothing would finish without a word.
    pub fn parse_scan(written: &str) -> (ports: Result<Self, PortSetParseError>)
        ensures
            match (ports, scanned_ports_of(written@)) {
                (Ok(ports), Ok(meant)) => ports@ == meant,
                (Err(error), Err(fault)) => error@ == fault,
                _ => false,
            },
    {
        match read_entries(written) {
            Ok(entries) => if entries.len() == 0 {
                Err(PortSetParseError::Nothing(written.to_owned()))
            } else {
                Ok(PortSet::merged(&entries))
            },
            Err(error) => Err(error),
        }
    }

    /// Sorts and merges.
    fn merged(entries: &Vec<Stretched>) -> (ports: Self)
        requires
            runs::all_in_order(entries@),
        ensures
            ports@ == runs::covered(entries@),
    {
        PortSet { ranges: runs::merge(entries) }
    }

    /// Whether a port is named.
    pub fn contains(&self, protocol: Protocol, port: u16) -> (named: bool)
        ensures
            named == self@.contains((transport(protocol is Udp), port as int)),
            named == names(self@, protocol, port as int),
    {
        let udp = match protocol {
            Protocol::Udp => true,
            Protocol::Tcp => false,
        };
        let ghost p = (transport(udp), port as int);
        let mut i: usize = 0;
        while i < self.ranges.len()
            invariant
                p == (transport(udp), port as int),
                udp == (protocol is Udp),
                i <= self.ranges@.len(),
                forall|j: int| 0 <= j < i ==> !#[trigger] runs::held_by(self.ranges@[j], p),
            decreases self.ranges@.len() - i,
        {
            let range = self.ranges[i].range;
            if range.udp == udp && range.first <= port && port <= range.last {
                assert(runs::held_by(self.ranges@[i as int], p));
                return true;
            }
            i = i + 1;
        }
        false
    }

    /// How many ports are named.
    pub fn len(&self) -> (len: u128)
        ensures
            len == self@.len(),
            self@.finite(),
    {
        proof {
            use_type_invariant(self);
            runs::lemma_canonical_counts_exactly(self.ranges@);
            lemma_few_ports(self.ranges@);
        }
        runs::count(&self.ranges)
    }
}

/// No more than two transports' ports are ever named.
proof fn lemma_few_ports(ranges: Seq<Stretched>)
    requires
        runs::canonical(ranges),
    ensures
        runs::gross(ranges) <= 0x2_0000,
{
    runs::lemma_canonical_counts_exactly(ranges);
    let all = Set::new(
        |p: (Option<u32>, int)|
            (p.0 == transport(true) || p.0 == transport(false)) && 0 <= p.1 < 0x1_0000,
    );
    let (tcp, udp) = (
        vstd::set_lib::set_int_range(0, 0x1_0000).map(|n: int| (transport(false), n)),
        vstd::set_lib::set_int_range(0, 0x1_0000).map(|n: int| (transport(true), n)),
    );
    vstd::set_lib::lemma_int_range(0, 0x1_0000);
    vstd::set_lib::lemma_map_size_bound(
        vstd::set_lib::set_int_range(0, 0x1_0000),
        tcp,
        |n: int| (transport(false), n),
    );
    vstd::set_lib::lemma_map_size_bound(
        vstd::set_lib::set_int_range(0, 0x1_0000),
        udp,
        |n: int| (transport(true), n),
    );
    assert forall|p: (Option<u32>, int)| runs::covered(ranges).contains(p) implies tcp.union(
        udp,
    ).contains(p) by {
        let i = choose|i: int| 0 <= i < ranges.len() && #[trigger] runs::held_by(ranges[i], p);
        let range = ranges[i].range;
        assert(vstd::set_lib::set_int_range(0, 0x1_0000).contains(p.1));
        if range.udp {
            assert(udp.contains(p));
        } else {
            assert(tcp.contains(p));
        }
    }
    vstd::set_lib::lemma_set_disjoint_lens(tcp, udp);
    vstd::set_lib::lemma_len_subset(runs::covered(ranges), tcp.union(udp));
}

/// Valid runs, as runs.
spec fn stretched(ranges: Seq<Stretched>) -> Seq<PortRange> {
    ranges.map(|i: int, r: Stretched| r.range)
}

/// Valid runs cover what the runs do.
proof fn lemma_stretched(entries: Seq<Stretched>)
    ensures
        runs::covered(entries) == runs::covered(stretched(entries)),
{
    let ranges = stretched(entries);
    assert forall|p: (Option<u32>, int)| #[trigger] runs::covered(entries).contains(p)
        <==> runs::covered(ranges).contains(p) by {
        if runs::covered(entries).contains(p) {
            let i = choose|i: int| 0 <= i < entries.len() && #[trigger] runs::held_by(entries[i], p);
            assert(runs::held_by(ranges[i], p));
        }
        if runs::covered(ranges).contains(p) {
            let i = choose|i: int| 0 <= i < ranges.len() && #[trigger] runs::held_by(ranges[i], p);
            assert(runs::held_by(entries[i], p));
        }
    }
    assert(runs::covered(entries) =~= runs::covered(ranges));
}

/// The first fault among some parts is the fault of all of them.
proof fn lemma_first_fault_stays(pieces: Seq<Seq<char>>, n: int)
    requires
        0 <= n <= pieces.len(),
        entries_of(pieces.take(n)) is Err,
    ensures
        entries_of(pieces) == entries_of(pieces.take(n)),
    decreases pieces.len() - n,
{
    if n < pieces.len() {
        assert(pieces.take(n + 1).drop_last() =~= pieces.take(n));
        lemma_first_fault_stays(pieces, n + 1);
    } else {
        assert(pieces.take(n) =~= pieces);
    }
}

/// Reads each part of a specification.
fn read_entries(written: &str) -> (entries: Result<Vec<Stretched>, PortSetParseError>)
    ensures
        match (entries, entries_of(text::split_on(written@, seq![',']))) {
            (Ok(entries), Ok(ranges)) => stretched(entries@) == ranges && runs::covered(entries@)
                == runs::covered(ranges) && runs::all_in_order(entries@) && entries@.len()
                == ranges.len(),
            (Err(error), Err(fault)) => error@ == fault,
            _ => false,
        },
{
    let chars = text::chars_of(written);
    let comma: [char; 1] = [','];
    assert(comma@ =~= seq![',']);
    let parts = text::split(chars.as_slice(), &comma);
    let ghost pieces = text::pieces_of(parts@);
    let mut entries: Vec<Stretched> = Vec::new();
    let mut i: usize = 0;
    assert(pieces.take(0) =~= Seq::empty());
    assert(stretched(entries@) =~= Seq::empty());
    while i < parts.len()
        invariant
            pieces == text::pieces_of(parts@),
            pieces == text::split_on(written@, seq![',']),
            i <= parts@.len(),
            entries_of(pieces.take(i as int)) == Ok::<Seq<PortRange>, PortFault>(
                stretched(entries@),
            ),
            runs::all_in_order(entries@),
        decreases parts@.len() - i,
    {
        let ghost was = entries@;
        assert(pieces[i as int] == parts@[i as int]@);
        assert(pieces.take(i + 1).drop_last() =~= pieces.take(i as int));
        assert(pieces.take(i + 1).last() == pieces[i as int]);
        match read_entry(parts[i].as_slice()) {
            Ok(Some(range)) => {
                let entry = Stretched { range };
                entries.push(entry);
                assert(stretched(entries@) =~= stretched(was).push(range));
                assert forall|j: int| 0 <= j < entries@.len() implies runs::in_order(
                    #[trigger] entries@[j],
                ) by {
                    if j < was.len() {
                        assert(entries@[j] == was[j]);
                    }
                }
            },
            Ok(None) => {},
            Err(error) => {
                proof {
                    lemma_first_fault_stays(pieces, i + 1);
                }
                return Err(error);
            },
        }
        i = i + 1;
    }
    assert(pieces.take(i as int) =~= pieces);
    proof {
        lemma_stretched(entries@);
    }
    Ok(entries)
}

/// Reads one part of a specification.
fn read_entry(piece: &[char]) -> (entry: Result<Option<PortRange>, PortSetParseError>)
    ensures
        match (entry, entry_of(piece@)) {
            (Ok(None), Entry::Blank) => true,
            (Ok(Some(range)), Entry::Ports(meant)) => range == meant && range.first <= range.last,
            (Err(error), Entry::Fault(fault)) => error@ == fault,
            _ => false,
        },
{
    let part = text::trim(piece);
    let n: usize = part.len();
    if n == 0 {
        return Ok(None);
    }
    let udp = n >= 2 && part[0] == 'u' && part[1] == ':';
    let rest = if udp {
        slice_subrange(part, 2, n)
    } else {
        slice_subrange(part, 0, n)
    };
    assert(rest@ =~= if udp {
        part@.skip(2)
    } else {
        part@
    });
    let m: usize = rest.len();
    let (first, last) = match text::find(rest, '-') {
        Some(cut) => {
            let (before, after) = (slice_subrange(rest, 0, cut), slice_subrange(rest, cut + 1, m));
            assert(before@ =~= rest@.take(cut as int));
            assert(after@ =~= rest@.skip(cut + 1));
            (text::parse_digits(before, 10, 0xffff), text::parse_digits(after, 10, 0xffff))
        },
        None => (text::parse_digits(rest, 10, 0xffff), text::parse_digits(rest, 10, 0xffff)),
    };
    match (first, last) {
        (Some(a), Some(b)) => if a <= b {
            Ok(Some(PortRange { udp, first: a as u16, last: b as u16 }))
        } else {
            Err(PortSetParseError::Inverted(text::text_of(part)))
        },
        _ => Err(PortSetParseError::Invalid(text::text_of(part))),
    }
}

impl Same for PortSet {
    type Model = Ports;

    open spec fn model(&self) -> Ports {
        self@
    }

    fn same(&self, other: &Self) -> (result: bool) {
        proof {
            use_type_invariant(self);
            use_type_invariant(other);
            if self@ == other@ {
                runs::lemma_canonical_is_unique(self.ranges@, other.ranges@);
            }
        }
        if self.ranges.len() != other.ranges.len() {
            return false;
        }
        let mut i: usize = 0;
        while i < self.ranges.len()
            invariant
                self.ranges@.len() == other.ranges@.len(),
                self@ == other@ ==> self.ranges@ == other.ranges@,
                i <= self.ranges@.len(),
                forall|j: int| 0 <= j < i ==> self.ranges@[j] == other.ranges@[j],
            decreases self.ranges@.len() - i,
        {
            if self.ranges[i] != other.ranges[i] {
                return false;
            }
            i = i + 1;
        }
        assert(self.ranges@ =~= other.ranges@);
        true
    }

    fn copied(&self) -> (result: Self) {
        proof {
            use_type_invariant(self);
        }
        let mut ranges: Vec<Stretched> = Vec::new();
        let mut i: usize = 0;
        while i < self.ranges.len()
            invariant
                i <= self.ranges@.len(),
                ranges@ == self.ranges@.take(i as int),
            decreases self.ranges@.len() - i,
        {
            ranges.push(self.ranges[i]);
            i = i + 1;
            assert(self.ranges@.take(i as int) =~= self.ranges@.take(i - 1).push(
                self.ranges@[i - 1],
            ));
        }
        assert(self.ranges@.take(i as int) =~= self.ranges@);
        PortSet { ranges }
    }
}

impl Clone for PortSet {
    fn clone(&self) -> (ports: Self)
        ensures
            ports@ == self@,
    {
        self.copied()
    }
}

// ---------------------------------------------------------------------------
// Telling sets of ports apart by a list of numbers
// ---------------------------------------------------------------------------

/// A run of ports, as one number.
spec fn numbered(r: Stretched) -> u64 {
    ((if r.range.udp {
        0x1_0000_0000int
    } else {
        0
    }) + r.range.first * 0x1_0000 + r.range.last) as u64
}

/// Whether some runs are the merged form of a set of ports.
spec fn merges_to(ranges: Seq<Stretched>, ports: Ports) -> bool {
    runs::canonical(ranges) && runs::covered(ranges) == ports
}

/// Whether ports are a set that can be written down, as those of every [`PortSet`]
/// are.
pub closed spec fn is_written(ports: Ports) -> bool {
    exists|ranges: Seq<Stretched>| merges_to(ranges, ports)
}

/// A set of ports as a list of numbers, one for each of its merged runs.
pub closed spec fn numbers_of(ports: Ports) -> Seq<u64> {
    let ranges = choose|ranges: Seq<Stretched>| merges_to(ranges, ports);
    ranges.map(|i: int, r: Stretched| numbered(r))
}

/// Two sets of ports have two lists of numbers.
pub proof fn lemma_numbers_tell_ports_apart(a: Ports, b: Ports)
    requires
        is_written(a),
        is_written(b),
        numbers_of(a) == numbers_of(b),
    ensures
        a == b,
{
    let ra = choose|ranges: Seq<Stretched>| merges_to(ranges, a);
    let rb = choose|ranges: Seq<Stretched>| merges_to(ranges, b);
    let (na, nb) = (numbers_of(a), numbers_of(b));
    assert(ra.len() == na.len() && rb.len() == nb.len());
    assert forall|i: int| 0 <= i < ra.len() implies ra[i] == rb[i] by {
        assert(na[i] == numbered(ra[i]) && nb[i] == numbered(rb[i]));
    }
    assert(ra =~= rb);
}

impl PortSet {
    /// The ports as a list of numbers, which no other set of ports has.
    pub fn numbers(&self) -> (numbers: Vec<u64>)
        ensures
            numbers@ == numbers_of(self@),
            is_written(self@),
    {
        let ghost ranges = self.ranges@;
        proof {
            use_type_invariant(self);
            assert(merges_to(ranges, self@));
            let chosen = choose|ranges: Seq<Stretched>| merges_to(ranges, self@);
            runs::lemma_canonical_is_unique(chosen, ranges);
        }
        let mut numbers: Vec<u64> = Vec::new();
        let mut i: usize = 0;
        while i < self.ranges.len()
            invariant
                ranges == self.ranges@,
                i <= ranges.len(),
                numbers@.len() == i,
                forall|j: int| 0 <= j < i ==> #[trigger] numbers@[j] == numbered(ranges[j]),
            decreases ranges.len() - i,
        {
            let r = self.ranges[i].range;
            let transport: u64 = if r.udp {
                0x1_0000_0000
            } else {
                0
            };
            numbers.push(transport + r.first as u64 * 0x1_0000 + r.last as u64);
            i = i + 1;
        }
        assert(numbers@ =~= numbers_of(self@));
        numbers
    }
}

// ---------------------------------------------------------------------------
// What a specification means
// ---------------------------------------------------------------------------

/// Whether some ports name one: what [`PortSet::contains`] answers.
pub open spec fn names(ports: Ports, protocol: Protocol, port: int) -> bool {
    ports.contains((transport(protocol is Udp), port))
}

/// Whether some ports are those of one transport from `first` to `last`, each
/// of them and no other.
pub open spec fn names_just(ports: Ports, protocol: Protocol, first: nat, last: nat) -> bool {
    &&& forall|other: Protocol, port: int| #[trigger]
        names(ports, other, port) <==> other == protocol && first <= port <= last
    &&& forall|p: (Option<u32>, int)| #[trigger]
        ports.contains(p) ==> exists|other: Protocol| #[trigger] names(ports, other, p.1)
}

/// What stands in front of a port of a transport: nothing before a TCP one.
pub open spec fn marked(protocol: Protocol) -> Seq<char> {
    match protocol {
        Protocol::Tcp => seq![],
        Protocol::Udp => seq!['u', ':'],
    }
}

/// A digit is no white space and none of the characters a specification is cut
/// at.
proof fn lemma_digits_are_plain(s: Seq<char>)
    requires
        text::all_digits(s, 10),
    ensures
        forall|i: int|
            0 <= i < s.len() ==> {
                &&& !text::is_space(#[trigger] s[i])
                &&& s[i] != ','
                &&& s[i] != '-'
                &&& s[i] != 'u'
            },
{
    assert forall|i: int| 0 <= i < s.len() implies {
        &&& !text::is_space(#[trigger] s[i])
        &&& s[i] != ','
        &&& s[i] != '-'
        &&& s[i] != 'u'
    } by {
        assert(text::digit_of(s[i]) < 10);
    }
}

/// What one part means that is digits, or two runs of digits with a dash
/// between them, with or without the mark of UDP.
proof fn lemma_part(protocol: Protocol, first: Seq<char>, last: Option<Seq<char>>)
    requires
        first.len() > 0,
        text::all_digits(first, 10),
        last is Some ==> last->0.len() > 0 && text::all_digits(last->0, 10),
    ensures
        ({
            let part = match last {
                Some(last) => marked(protocol) + first.push('-') + last,
                None => marked(protocol) + first,
            };
            let a = text::number_of(first, 10);
            let b = match last {
                Some(last) => text::number_of(last, 10),
                None => a,
            };
            &&& text::split_on(part, seq![',']) == seq![part]
            &&& entry_of(part) == if a > 0xffff || b > 0xffff {
                Entry::Fault(PortFault::Invalid(part))
            } else if a > b {
                Entry::Fault(PortFault::Inverted(part))
            } else {
                Entry::Ports(
                    PortRange { udp: protocol == Protocol::Udp, first: a as u16, last: b as u16 },
                )
            }
        }),
{
    let rest = match last {
        Some(last) => first.push('-') + last,
        None => first,
    };
    let part = match last {
        Some(last) => marked(protocol) + first.push('-') + last,
        None => marked(protocol) + first,
    };
    assert(part =~= marked(protocol) + rest);
    lemma_digits_are_plain(first);
    match last {
        Some(last) => {
            lemma_digits_are_plain(last);
            assert(part.last() == last.last());
            assert(rest.take(first.len() as int) =~= first);
            assert(rest.skip(first.len() as int + 1) =~= last);
        },
        None => {
            assert(part.last() == first.last());
        },
    }
    assert forall|i: int| 0 <= i < part.len() implies !seq![','].contains(#[trigger] part[i]) by {
        let k = i - marked(protocol).len();
        if k >= 0 {
            assert(part[i] == rest[k]);
            match last {
                Some(last) => {
                    if k > first.len() {
                        assert(rest[k] == last[k - first.len() - 1]);
                    } else if k < first.len() {
                        assert(rest[k] == first[k]);
                    }
                },
                None => {},
            }
        }
    }
    text::lemma_split_without_separator(part, seq![',']);
    assert(rest[0] == first[0]);
    assert(!text::is_space(part[0]));
    assert(!text::is_space(part.last()));
    text::lemma_trimmed_is_identity(part);
    match protocol {
        Protocol::Tcp => {
            assert(part =~= rest);
        },
        Protocol::Udp => {
            assert(part[0] == 'u' && part[1] == ':');
            assert(part.skip(2) =~= rest);
        },
    }
    assert forall|j: int| 0 <= j < first.len() implies #[trigger] rest[j] != '-' by {
        assert(rest[j] == first[j]);
    }
    text::lemma_upto_is(rest, '-', first.len() as int);
}

/// What a specification of one part means.
proof fn lemma_of_one_part(part: Seq<char>)
    requires
        text::split_on(part, seq![',']) == seq![part],
    ensures
        match entry_of(part) {
            Entry::Blank => ports_of(part) == Ok::<Ports, PortFault>(Set::empty()),
            Entry::Fault(fault) => ports_of(part) == Err::<Ports, PortFault>(fault)
                && scanned_ports_of(part) == Err::<Ports, PortFault>(fault),
            Entry::Ports(range) => range.first <= range.last ==> ports_of(part) is Ok
                && scanned_ports_of(part) == ports_of(part) && names_just(
                ports_of(part)->Ok_0,
                if range.udp {
                    Protocol::Udp
                } else {
                    Protocol::Tcp
                },
                range.first as nat,
                range.last as nat,
            ),
        },
{
    let pieces = seq![part];
    reveal_with_fuel(entries_of, 2);
    assert(pieces.drop_last() =~= Seq::empty());
    match entry_of(part) {
        Entry::Blank => {
            assert(ports_of(part)->Ok_0 =~= Set::empty());
        },
        Entry::Fault(_) => {},
        Entry::Ports(range) => {
            let ranges = Seq::<PortRange>::empty().push(range);
            let ports = runs::covered(ranges);
            assert(entries_of(pieces) == Ok::<Seq<PortRange>, PortFault>(ranges));
            let protocol = if range.udp {
                Protocol::Udp
            } else {
                Protocol::Tcp
            };
            assert forall|other: Protocol, port: int| #[trigger]
                names(ports, other, port) <==> other == protocol && range.first <= port
                    <= range.last by {
                let p = (transport(other is Udp), port);
                if other == protocol && range.first <= port <= range.last {
                    assert(runs::held_by(ranges[0], p));
                }
            }
            assert forall|p: (Option<u32>, int)| #[trigger] ports.contains(p) implies exists|
                other: Protocol,
            | #[trigger] names(ports, other, p.1) by {
                assert(names(ports, protocol, p.1));
            }
        },
    }
}

/// A number is the TCP port of that number, and behind `u:` it is the UDP port:
/// either names that one port and nothing else. A number no port has is refused.
pub proof fn lemma_a_number_is_one_port(protocol: Protocol, n: nat)
    ensures
        ({
            let written = marked(protocol) + text::decimal(n);
            match (ports_of(written), scanned_ports_of(written)) {
                (Ok(ports), Ok(scanned)) => n <= 65535 && ports == scanned && names_just(
                    ports,
                    protocol,
                    n,
                    n,
                ),
                (Err(fault), Err(refused)) => n > 65535 && fault == refused && fault
                    == PortFault::Invalid(written),
                _ => false,
            }
        }),
{
    text::lemma_written_reads_back(n, 10);
    lemma_part(protocol, text::decimal(n), None);
    lemma_of_one_part(marked(protocol) + text::decimal(n));
}

/// Two numbers with a dash between them are every port from the one to the
/// other, both of them with it, and no port beside them. They are refused where
/// the second is the lower one, or where one of them is no port.
pub proof fn lemma_a_range_is_every_port_between(protocol: Protocol, first: nat, last: nat)
    ensures
        ({
            let written = marked(protocol) + text::decimal(first).push('-') + text::decimal(last);
            match (ports_of(written), scanned_ports_of(written)) {
                (Ok(ports), Ok(scanned)) => first <= last <= 65535 && ports == scanned
                    && names_just(ports, protocol, first, last),
                (Err(fault), Err(refused)) => !(first <= last <= 65535) && fault == refused
                    && fault == if first <= 65535 && last <= 65535 {
                    PortFault::Inverted(written)
                } else {
                    PortFault::Invalid(written)
                },
                _ => false,
            }
        }),
{
    text::lemma_written_reads_back(first, 10);
    text::lemma_written_reads_back(last, 10);
    let written = marked(protocol) + text::decimal(first).push('-') + text::decimal(last);
    lemma_part(protocol, text::decimal(first), Some(text::decimal(last)));
    lemma_of_one_part(written);
}

/// The parts of two lists read one after the other.
proof fn lemma_entries_of_joined(a: Seq<Seq<char>>, b: Seq<Seq<char>>)
    ensures
        entries_of(a + b) == match (entries_of(a), entries_of(b)) {
            (Err(fault), _) => Err(fault),
            (Ok(_), Err(fault)) => Err(fault),
            (Ok(first), Ok(second)) => Ok(first + second),
        },
    decreases b.len(),
{
    if b.len() == 0 {
        assert(a + b =~= a);
        if entries_of(a) is Ok {
            assert(entries_of(a)->Ok_0 + Seq::<PortRange>::empty() =~= entries_of(a)->Ok_0);
        }
    } else {
        assert((a + b).drop_last() =~= a + b.drop_last());
        assert((a + b).last() == b.last());
        lemma_entries_of_joined(a, b.drop_last());
        match (entries_of(a), entries_of(b)) {
            (Ok(first), Ok(second)) => {
                match entry_of(b.last()) {
                    Entry::Ports(range) => {
                        let before = entries_of(b.drop_last())->Ok_0;
                        assert((first + before).push(range) =~= first + second);
                    },
                    _ => {},
                }
            },
            _ => {},
        }
    }
}

/// Every run a list of parts writes holds a port.
proof fn lemma_entries_are_in_order(pieces: Seq<Seq<char>>)
    ensures
        entries_of(pieces) matches Ok(ranges) ==> forall|i: int|
            0 <= i < ranges.len() ==> (#[trigger] ranges[i]).first <= ranges[i].last,
    decreases pieces.len(),
{
    if pieces.len() > 0 {
        lemma_entries_are_in_order(pieces.drop_last());
    }
}

/// A specification with a comma in it means the ports that what stands before
/// the comma means and those that what stands behind it means, together. It is
/// refused for what the part before it would be refused for, and failing that
/// for what the part behind it would be.
pub proof fn lemma_a_list_names_what_either_side_names(before: Seq<char>, behind: Seq<char>)
    ensures
        match (ports_of(before), ports_of(behind)) {
            (Err(fault), _) => ports_of(before.push(',') + behind) == Err::<Ports, PortFault>(
                fault,
            ),
            (Ok(_), Err(fault)) => ports_of(before.push(',') + behind) == Err::<Ports, PortFault>(
                fault,
            ),
            (Ok(first), Ok(second)) => ports_of(before.push(',') + behind) == Ok::<
                Ports,
                PortFault,
            >(first.union(second)),
        },
{
    assert(seq![','].contains(',')) by {
        assert(seq![','][0] == ',');
    }
    text::lemma_split_of_joined(before, ',', behind, seq![',']);
    let a = text::split_on(before, seq![',']);
    let b = text::split_on(behind, seq![',']);
    lemma_entries_of_joined(a, b);
    match (entries_of(a), entries_of(b)) {
        (Ok(first), Ok(second)) => {
            let (whole, one, two) = (
                runs::covered(first + second),
                runs::covered(first),
                runs::covered(second),
            );
            assert forall|p: (Option<u32>, int)| #[trigger] whole.contains(p) <==> one.contains(p)
                || two.contains(p) by {
                if whole.contains(p) {
                    let i = choose|i: int|
                        0 <= i < (first + second).len() && #[trigger] runs::held_by(
                            (first + second)[i],
                            p,
                        );
                    if i < first.len() {
                        assert(runs::held_by(first[i], p));
                    } else {
                        assert(runs::held_by(second[i - first.len()], p));
                    }
                }
                if one.contains(p) {
                    let i = choose|i: int|
                        0 <= i < first.len() && #[trigger] runs::held_by(first[i], p);
                    assert(runs::held_by((first + second)[i], p));
                }
                if two.contains(p) {
                    let i = choose|i: int|
                        0 <= i < second.len() && #[trigger] runs::held_by(second[i], p);
                    assert(runs::held_by((first + second)[first.len() + i], p));
                }
            }
            assert(whole =~= one.union(two));
        },
        _ => {},
    }
}

/// A specification to scan means what it means anywhere else, but one that names
/// no port is refused, whole.
pub proof fn lemma_a_scan_is_refused_no_ports(written: Seq<char>)
    ensures
        scanned_ports_of(written) == match ports_of(written) {
            Ok(ports) => if ports == Ports::empty() {
                Err(PortFault::Nothing(written))
            } else {
                Ok(ports)
            },
            Err(fault) => Err(fault),
        },
        ports_of(Seq::empty()) == Ok::<Ports, PortFault>(Set::empty()),
{
    let pieces = text::split_on(written, seq![',']);
    lemma_entries_are_in_order(pieces);
    match entries_of(pieces) {
        Ok(ranges) => {
            if ranges.len() > 0 {
                let p = (transport(ranges[0].udp), ranges[0].first as int);
                assert(runs::held_by(ranges[0], p));
                assert(runs::covered(ranges).contains(p));
            } else {
                assert(runs::covered(ranges) =~= Set::empty());
            }
        },
        Err(_) => {},
    }
    let nothing = Seq::<char>::empty();
    assert(text::trimmed(nothing) == nothing);
    lemma_of_one_part(nothing);
}

/// White space around a part changes nothing of what it means.
pub proof fn lemma_white_space_around_a_part_is_nothing(
    before: Seq<char>,
    part: Seq<char>,
    behind: Seq<char>,
)
    requires
        forall|i: int| 0 <= i < before.len() ==> text::is_space(#[trigger] before[i]),
        forall|i: int| 0 <= i < behind.len() ==> text::is_space(#[trigger] behind[i]),
        !part.contains(','),
    ensures
        ports_of(before + part + behind) == ports_of(part),
{
    let whole = before + part + behind;
    text::lemma_trimming_leaves_out_white_space(before, part, behind);
    assert forall|i: int| 0 <= i < whole.len() implies !seq![','].contains(#[trigger] whole[i]) by {
        if i < before.len() {
            assert(whole[i] == before[i]);
        } else if i < before.len() + part.len() {
            assert(whole[i] == part[i - before.len()]);
            assert(part.contains(whole[i]));
        } else {
            assert(whole[i] == behind[i - before.len() - part.len()]);
        }
    }
    assert forall|i: int| 0 <= i < part.len() implies !seq![','].contains(#[trigger] part[i]) by {
        assert(part.contains(part[i]));
    }
    text::lemma_split_without_separator(whole, seq![',']);
    text::lemma_split_without_separator(part, seq![',']);
    let (one, other) = (seq![whole], seq![part]);
    reveal_with_fuel(entries_of, 2);
    assert(one.drop_last() =~= other.drop_last());
}

/// Whether a part is a port, or two with a dash between them, behind the mark of
/// its transport.
pub open spec fn is_written_as(
    part: Seq<char>,
    protocol: Protocol,
    first: Seq<char>,
    last: Seq<char>,
) -> bool {
    &&& part == marked(protocol) + first.push('-') + last || (first == last && part == marked(
        protocol,
    ) + first)
    &&& text::digits_value(first, 10, 65535) is Some
    &&& text::digits_value(last, 10, 65535) is Some
}

/// Nothing else is read as ports: a part that means any is a number or two with
/// a dash between them, behind `u:` or not.
pub proof fn lemma_only_numbers_and_ranges_are_ports(part: Seq<char>)
    requires
        !part.contains(','),
        text::trimmed(part).len() > 0,
        ports_of(part) is Ok,
    ensures
        exists|protocol: Protocol, first: Seq<char>, last: Seq<char>| #[trigger]
            is_written_as(text::trimmed(part), protocol, first, last),
{
    assert forall|i: int| 0 <= i < part.len() implies !seq![','].contains(#[trigger] part[i]) by {
        assert(part.contains(part[i]));
    }
    text::lemma_split_without_separator(part, seq![',']);
    lemma_of_one_part(part);
    let bare = text::trimmed(part);
    let udp = bare.len() >= 2 && bare[0] == 'u' && bare[1] == ':';
    let protocol = if udp {
        Protocol::Udp
    } else {
        Protocol::Tcp
    };
    let rest = if udp {
        bare.skip(2)
    } else {
        bare
    };
    assert(bare =~= marked(protocol) + rest);
    let cut = text::upto(rest, '-');
    text::lemma_upto(rest, '-');
    if cut < rest.len() {
        let (first, last) = (rest.take(cut), rest.skip(cut + 1));
        assert(rest =~= first.push('-') + last);
        assert(bare =~= marked(protocol) + first.push('-') + last);
        assert(is_written_as(bare, protocol, first, last));
    } else {
        assert(is_written_as(bare, protocol, rest, rest));
    }
}

/// A state is promoted to the more definitive of two, whichever is established
/// first: something listening over nothing listening over a stack that was reached
/// over silence that may mean either over silence over no probe at all.
pub proof fn lemma_a_state_is_promoted_to_the_more_definitive(a: PortState, b: PortState)
    ensures
        promoted(a, b) == promoted(b, a),
        promoted(a, b) == a || promoted(a, b) == b,
        promoted(a, a) == a,
        a is Open ==> promoted(a, b) is Open,
        a is Closed && !(b is Open) ==> promoted(a, b) is Closed,
        a is Unfiltered && !(b is Open) && !(b is Closed) ==> promoted(a, b) is Unfiltered,
        a is OpenFiltered && (b is Filtered || b is Unasked) ==> promoted(a, b) is OpenFiltered,
        a is Filtered && b is Unasked ==> promoted(a, b) is Filtered,
{
}

} // verus!
