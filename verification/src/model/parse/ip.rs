//! # Addresses, as a person writes them
//!
//! The grammar that turns what someone typed into an [`IpSet`]. This is the
//! address half of a target expression.
//!
//! | Written | Means |
//! |---|---|
//! | `127.0.0.1`, `2001:db8::1` | one address |
//! | `192.168.1.0/24`, `2001:db8::/64` | a CIDR block |
//! | `10.0.0.1-10.0.0.50` | a range, both ends written out |
//! | `10.0.0.1-50`, `192.168.1.1-2.254` | a range whose end continues the start's octets |
//! | `fe80::1%en0` | a link-local address on a named interface |
//! | `lan` | a keyword, answered by the caller |
//!
//! An address, block or range written wholly inside `::ffff:0:0/96` becomes the
//! IPv4 one it spells, the reading exclusions give the same spelling. A range that
//! reaches outside the block is kept as written.
//!
//! What `lan` stands for, and which interface `%en0` names, only the running host
//! can say. Those answers arrive as tables the caller has filled, and an
//! expression needing an answer that is not there is refused, never dropped: a
//! scan that covers less than its input said it covers is a wrong answer that
//! looks like a right one. [`needs`] says which answer an expression needs.
//!
//! Hostnames are not resolved here. An expression that is none of the forms above
//! comes back as [`IpParseError::Malformed`], which is the signal a caller uses to
//! try a name.

use crate::model::ip::addr;
use crate::model::ip::addr::{IpAddr, MAPPED_FIRST, MAPPED_LAST};
use crate::model::ip::holding;
use crate::model::ip::holding::Holding;
use crate::model::ip::range;
use crate::model::ip::range::{IpError, IpRange, Ipv6Range, RangeFault, RangeView};
use crate::model::ip::set::IpSet;
use crate::text;
use vstd::prelude::*;
use vstd::slice::slice_subrange;

verus! {

/// A name standing for a set of addresses only the running host can supply.
#[non_exhaustive]
#[derive(Debug, Clone, Copy, PartialEq, Eq, Structural)]
pub enum Keyword {
    /// The local segment: the network on the interface carrying this host's
    /// default route.
    Lan,
}

/// A character with its ASCII case put aside.
pub open spec fn lowered(c: char) -> char {
    if 'A' <= c && c <= 'Z' {
        (c as nat + 32) as char
    } else {
        c
    }
}

/// Whether two texts are the same but for ASCII case.
pub open spec fn same_but_for_case(a: Seq<char>, b: Seq<char>) -> bool {
    a.len() == b.len() && forall|i: int| 0 <= i < a.len() ==> lowered(#[trigger] a[i]) == lowered(b[i])
}

/// The keyword a token is, if it is one.
pub open spec fn keyword_of(token: Seq<char>) -> Option<Keyword> {
    if same_but_for_case(text::trimmed(token), Keyword::Lan.word()) {
        Some(Keyword::Lan)
    } else {
        None
    }
}

/// A character with its ASCII case put aside.
fn lower(c: char) -> (result: char)
    ensures
        result == lowered(c),
{
    if 'A' <= c && c <= 'Z' {
        (c as u8 + 32) as char
    } else {
        c
    }
}

/// Whether two texts are the same but for ASCII case.
fn equal_but_for_case(a: &[char], b: &[char]) -> (result: bool)
    ensures
        result == same_but_for_case(a@, b@),
{
    if a.len() != b.len() {
        return false;
    }
    let mut i: usize = 0;
    while i < a.len()
        invariant
            a@.len() == b@.len(),
            i <= a@.len(),
            forall|j: int| 0 <= j < i ==> lowered(#[trigger] a@[j]) == lowered(b@[j]),
        decreases a@.len() - i,
    {
        if lower(a[i]) != lower(b[i]) {
            return false;
        }
        i = i + 1;
    }
    true
}

impl Keyword {
    /// Every keyword, in declaration order.
    pub const ALL: [Keyword; 1] = [Keyword::Lan];

    /// The word as it is written in a target expression.
    pub open spec fn word(self) -> Seq<char> {
        match self {
            Keyword::Lan => "lan"@,
        }
    }

    /// The word as it is written in a target expression.
    pub fn as_str(self) -> (word: &'static str)
        ensures
            word@ == self.word(),
    {
        match self {
            Keyword::Lan => "lan",
        }
    }

    /// The keyword `token` is, if it is one.
    ///
    /// Case-insensitive, and the same test [`insert_expression`] applies.
    pub fn from_token(token: &str) -> (keyword: Option<Keyword>)
        ensures
            keyword == keyword_of(token@),
    {
        let chars = text::chars_of(token);
        Keyword::from_chars(chars.as_slice())
    }

    fn from_chars(token: &[char]) -> (keyword: Option<Keyword>)
        ensures
            keyword == keyword_of(token@),
    {
        let trimmed = text::trim(token);
        let word = text::chars_of(Keyword::Lan.as_str());
        if equal_but_for_case(trimmed, word.as_slice()) {
            Some(Keyword::Lan)
        } else {
            None
        }
    }
}

/// Whether a comma-separated expression names a keyword.
pub open spec fn names(target: Seq<char>, keyword: Keyword) -> bool {
    exists|i: int|
        0 <= i < text::split_on(target, seq![',']).len() && keyword_of(
            #[trigger] text::split_on(target, seq![','])[i],
        ) == Some(keyword)
}

/// Whether any of these target expressions names `keyword`.
///
/// A scan of the local segment is a different scan from a scan of the addresses
/// that segment happens to contain, so a caller that offers the `lan` keyword has
/// to know whether it was used. Splits on commas the way [`to_set`] does.
pub fn names_keyword(targets: &[&str], keyword: Keyword) -> (named: bool)
    ensures
        named == exists|i: int| 0 <= i < targets@.len() && names((#[trigger] targets@[i])@, keyword),
{
    let comma: [char; 1] = [','];
    assert(comma@ =~= seq![',']);
    let mut i: usize = 0;
    while i < targets.len()
        invariant
            comma@ == seq![','],
            i <= targets@.len(),
            forall|j: int| 0 <= j < i ==> !names((#[trigger] targets@[j])@, keyword),
        decreases targets@.len() - i,
    {
        let chars = text::chars_of(targets[i]);
        let parts = text::split(chars.as_slice(), &comma);
        let ghost pieces = text::split_on(targets@[i as int]@, seq![',']);
        assert(text::pieces_of(parts@) == pieces);
        let mut j: usize = 0;
        while j < parts.len()
            invariant
                text::pieces_of(parts@) == pieces,
                pieces == text::split_on(targets@[i as int]@, seq![',']),
                i < targets@.len(),
                j <= parts@.len(),
                forall|k: int| 0 <= k < j ==> keyword_of(#[trigger] pieces[k]) != Some(keyword),
            decreases parts@.len() - j,
        {
            assert(pieces[j as int] == parts@[j as int]@);
            match Keyword::from_chars(parts[j].as_slice()) {
                Some(found) => {
                    if found == keyword {
                        assert(keyword_of(pieces[j as int]) == Some(keyword));
                        assert(names(targets@[i as int]@, keyword));
                        return true;
                    }
                },
                None => {},
            }
            j = j + 1;
        }
        i = i + 1;
    }
    false
}

/// Errors encountered during the parsing or resolution of IP-related strings.
#[non_exhaustive]
#[derive(Debug, Clone, PartialEq, Eq)]
pub enum IpParseError {
    /// The CIDR prefix is longer than its address family allows.
    ///
    /// Wider than the `u8` a prefix fits in, because what a person types is not
    /// bounded by what a prefix is, and a token that was not recognised is tried
    /// as a hostname.
    InvalidPrefix(u32),
    /// The start address of a range is numerically higher than the end address.
    InvalidRange(IpAddr, IpAddr),
    /// The input string does not match any known IP, range, or CIDR format.
    Malformed(String),
    /// A keyword could not be expanded.
    KeywordUnresolved {
        /// The word that could not be expanded.
        keyword: &'static str,
        /// Why.
        reason: String,
    },
    /// The provided input resulted in zero valid IP addresses.
    EmptySet,
    /// An `%interface` suffix was written on a target that cannot use one.
    ZoneOnUnscopedTarget(String),
    /// An `%interface` suffix named an interface nothing answers to.
    UnknownInterface(String),
}

/// What an [`IpParseError`] says.
pub enum ParseFault {
    InvalidPrefix(u32),
    InvalidRange(IpAddr, IpAddr),
    Malformed(Seq<char>),
    KeywordUnresolved(Seq<char>, Seq<char>),
    EmptySet,
    ZoneOnUnscopedTarget(Seq<char>),
    UnknownInterface(Seq<char>),
}

impl View for IpParseError {
    type V = ParseFault;

    open spec fn view(&self) -> ParseFault {
        match self {
            IpParseError::InvalidPrefix(prefix) => ParseFault::InvalidPrefix(*prefix),
            IpParseError::InvalidRange(start, end) => ParseFault::InvalidRange(*start, *end),
            IpParseError::Malformed(text) => ParseFault::Malformed(text@),
            IpParseError::KeywordUnresolved { keyword, reason } => ParseFault::KeywordUnresolved(
                keyword@,
                reason@,
            ),
            IpParseError::EmptySet => ParseFault::EmptySet,
            IpParseError::ZoneOnUnscopedTarget(text) => ParseFault::ZoneOnUnscopedTarget(text@),
            IpParseError::UnknownInterface(name) => ParseFault::UnknownInterface(name@),
        }
    }
}

/// What is said of a fault.
pub open spec fn fault_message(fault: ParseFault) -> Seq<char> {
    match fault {
        ParseFault::InvalidPrefix(prefix) => "Invalid CIDR prefix: "@ + text::decimal(
            prefix as nat,
        ) + " (0-32 for IPv4, 0-128 for IPv6)"@,
        ParseFault::InvalidRange(start, end) => "Invalid range: start address "@ + addr::ip_text(
            start,
        ) + " is greater than end address "@ + addr::ip_text(end),
        ParseFault::Malformed(text) => "Malformed IP or range string: '"@ + text + "'"@,
        ParseFault::KeywordUnresolved(keyword, reason) => "could not resolve `"@ + keyword + "`: "@
            + reason,
        ParseFault::EmptySet => "Target input resulted in an empty set"@,
        ParseFault::ZoneOnUnscopedTarget(text) => "'"@ + text
            + "': only a link-local address is scoped to an interface"@,
        ParseFault::UnknownInterface(name) => "No interface named '"@ + name + "'"@,
    }
}

impl IpParseError {
    /// What went wrong, and with what.
    pub fn to_string(&self) -> (message: String)
        ensures
            message@ == fault_message(self@),
    {
        match self {
            IpParseError::InvalidPrefix(prefix) => {
                let mut message = "Invalid CIDR prefix: ".to_owned();
                text::push_decimal(&mut message, *prefix as u128);
                message.append(" (0-32 for IPv4, 0-128 for IPv6)");
                message
            },
            IpParseError::InvalidRange(start, end) => {
                let mut message = "Invalid range: start address ".to_owned();
                start.push_text(&mut message);
                message.append(" is greater than end address ");
                end.push_text(&mut message);
                message
            },
            IpParseError::Malformed(text) => {
                let mut message = "Malformed IP or range string: '".to_owned();
                message.append(text.as_str());
                message.append("'");
                message
            },
            IpParseError::KeywordUnresolved { keyword, reason } => {
                let mut message = "could not resolve `".to_owned();
                message.append(*keyword);
                message.append("`: ");
                message.append(reason.as_str());
                message
            },
            IpParseError::EmptySet => "Target input resulted in an empty set".to_owned(),
            IpParseError::ZoneOnUnscopedTarget(text) => {
                let mut message = "'".to_owned();
                message.append(text.as_str());
                message.append("': only a link-local address is scoped to an interface");
                message
            },
            IpParseError::UnknownInterface(name) => {
                let mut message = "No interface named '".to_owned();
                message.append(name.as_str());
                message.append("'");
                message
            },
        }
    }

    /// The same error again.
    pub fn again(&self) -> (again: IpParseError)
        ensures
            again@ == self@,
    {
        match self {
            IpParseError::InvalidPrefix(prefix) => IpParseError::InvalidPrefix(*prefix),
            IpParseError::InvalidRange(start, end) => IpParseError::InvalidRange(*start, *end),
            IpParseError::Malformed(text) => IpParseError::Malformed(text.as_str().to_owned()),
            IpParseError::KeywordUnresolved { keyword, reason } => IpParseError::KeywordUnresolved {
                keyword: *keyword,
                reason: reason.as_str().to_owned(),
            },
            IpParseError::EmptySet => IpParseError::EmptySet,
            IpParseError::ZoneOnUnscopedTarget(text) => IpParseError::ZoneOnUnscopedTarget(
                text.as_str().to_owned(),
            ),
            IpParseError::UnknownInterface(name) => IpParseError::UnknownInterface(
                name.as_str().to_owned(),
            ),
        }
    }
}

/// What the running host says a [`Keyword`] stands for.
#[derive(Debug)]
pub struct Expansion {
    /// The keyword.
    pub keyword: Keyword,
    /// The addresses, or why there are none to give.
    pub answer: Result<IpSet, IpParseError>,
}

/// The index of an interface, by its name.
#[derive(Debug)]
pub struct Interface {
    /// The name.
    pub name: String,
    /// The index. Zero is no interface: it is what a lookup returns to say there
    /// is no such name.
    pub index: u32,
}

/// What an expression stands for: the addresses it names, and how many it names,
/// counting one once each time it does.
#[verifier::ext_equal]
pub struct Meaning {
    pub held: Holding,
    pub gross: int,
}

/// What a range stands for.
pub open spec fn range_meaning(r: RangeView) -> Meaning {
    Meaning { held: holding::range_held(r), gross: r.last - r.first + 1 }
}

/// What an answer says.
pub open spec fn answered(answer: Result<IpSet, IpParseError>) -> Result<Meaning, ParseFault> {
    match answer {
        Ok(set) => Ok(Meaning { held: set@, gross: set.gross_count() }),
        Err(error) => Err(error@),
    }
}

/// The first answer given for a keyword.
pub open spec fn answer_for(expansions: Seq<Expansion>, keyword: Keyword) -> Option<
    Result<Meaning, ParseFault>,
>
    decreases expansions.len(),
{
    if expansions.len() == 0 {
        None
    } else if expansions[0].keyword == keyword {
        Some(answered(expansions[0].answer))
    } else {
        answer_for(expansions.drop_first(), keyword)
    }
}

/// The index of the first interface listed by a name.
pub open spec fn index_of(interfaces: Seq<Interface>, name: Seq<char>) -> Option<u32>
    decreases interfaces.len(),
{
    if interfaces.len() == 0 {
        None
    } else if interfaces[0].name@ == name {
        Some(interfaces[0].index)
    } else {
        index_of(interfaces.drop_first(), name)
    }
}

/// The hosts a range names: one written wholly inside the mapped block is the
/// IPv4 range it spells.
pub open spec fn hosts_of(r: RangeView) -> RangeView {
    if r.v6 && MAPPED_FIRST <= r.first && r.last <= MAPPED_LAST {
        RangeView {
            v6: false,
            first: r.first - MAPPED_FIRST,
            last: r.last - MAPPED_FIRST,
            zone: None,
        }
    } else {
        r
    }
}

/// A fault of a range, said of the expression it was written in: one that means
/// "this is not an address" asks for a name to be tried.
pub open spec fn restated(original: Seq<char>, fault: RangeFault) -> ParseFault {
    match fault {
        RangeFault::InvalidRange(start, end) => ParseFault::InvalidRange(start, end),
        RangeFault::InvalidPrefix(prefix) => ParseFault::InvalidPrefix(prefix as u32),
        _ => ParseFault::Malformed(original),
    }
}

/// What a range or block stands for.
pub open spec fn range_meant(original: Seq<char>, r: Result<RangeView, RangeFault>) -> Result<
    Meaning,
    ParseFault,
> {
    match r {
        Ok(r) => Ok(range_meaning(hosts_of(r))),
        Err(fault) => Err(restated(original, fault)),
    }
}

/// What `address/prefix` stands for. A prefix that fits no prefix is one that is
/// too long rather than a token this grammar does not know.
pub open spec fn cidr_meant(s: Seq<char>) -> Result<Meaning, ParseFault> {
    let cut = text::upto(s, '/');
    match (addr::ip_of(s.take(cut)), text::unsigned_value(s.skip(cut + 1), 10, 0xffff_ffff)) {
        (Some(ip), Some(prefix)) => if prefix > 255 {
            Err(ParseFault::InvalidPrefix(prefix as u32))
        } else {
            range_meant(s, range::cidr_of(ip, prefix as u8))
        },
        _ => Err(ParseFault::Malformed(s)),
    }
}

/// Whether every address of a range is link-local.
pub open spec fn all_link_local(r: RangeView) -> bool {
    r.v6 && range::in_link_local(r.first) && range::in_link_local(r.last)
}

/// What `range%zone` stands for: a zone is only meaningful where every address of
/// the range is link-local, and only where it names an interface.
pub open spec fn scoped_meant(s: Seq<char>, interfaces: Seq<Interface>) -> Result<
    Meaning,
    ParseFault,
> {
    let cut = text::upto(s, '%');
    let zone = s.skip(cut + 1);
    if zone.len() == 0 {
        Err(ParseFault::Malformed(s))
    } else {
        match range::range_of(s.take(cut)) {
            Err(_) => Err(ParseFault::Malformed(s)),
            Ok(r) => if !all_link_local(r) {
                Err(ParseFault::ZoneOnUnscopedTarget(s))
            } else {
                match index_of(interfaces, zone) {
                    Some(index) if index != 0 => Ok(
                        range_meaning(RangeView { zone: Some(index), ..r }),
                    ),
                    _ => Err(ParseFault::UnknownInterface(zone)),
                }
            },
        }
    }
}

/// What a keyword stands for.
pub open spec fn keyword_meant(keyword: Keyword, expansions: Seq<Expansion>) -> Result<
    Meaning,
    ParseFault,
> {
    match answer_for(expansions, keyword) {
        Some(answer) => answer,
        None => Err(
            ParseFault::KeywordUnresolved(
                keyword.word(),
                "no resolver was supplied to expand it"@,
            ),
        ),
    }
}

/// What one address expression stands for.
#[verifier::opaque]
pub open spec fn meant(
    written: Seq<char>,
    expansions: Seq<Expansion>,
    interfaces: Seq<Interface>,
) -> Result<Meaning, ParseFault> {
    let s = text::trimmed(written);
    if text::holds(s, '%') {
        scoped_meant(s, interfaces)
    } else if text::holds(s, '/') {
        cidr_meant(s)
    } else if text::holds(s, '-') {
        range_meant(s, range::range_of(s))
    } else {
        match keyword_of(s) {
            Some(keyword) => keyword_meant(keyword, expansions),
            None => match addr::ip_of(s) {
                Some(ip) => Ok(
                    Meaning { held: Set::empty().insert((ip.host(), None)), gross: 1 },
                ),
                None => Err(ParseFault::Malformed(s)),
            },
        }
    }
}

/// What an expression needs the running host to say.
#[derive(Debug, PartialEq, Eq)]
pub enum Need {
    /// Nothing.
    Nothing,
    /// What a keyword stands for.
    Keyword(Keyword),
    /// Which interface a name names.
    Zone(String),
    /// What a host name stands for.
    Host(String),
}

/// What an expression needs the running host to say, as a value.
pub enum Needed {
    Nothing,
    Keyword(Keyword),
    Zone(Seq<char>),
    Host(Seq<char>),
}

impl View for Need {
    type V = Needed;

    open spec fn view(&self) -> Needed {
        match self {
            Need::Nothing => Needed::Nothing,
            Need::Keyword(keyword) => Needed::Keyword(*keyword),
            Need::Zone(name) => Needed::Zone(name@),
            Need::Host(name) => Needed::Host(name@),
        }
    }
}

/// The interface `range%zone` asks after: none where it is refused whatever the
/// zone names.
pub open spec fn zone_asked(s: Seq<char>) -> Option<Seq<char>> {
    let cut = text::upto(s, '%');
    let zone = s.skip(cut + 1);
    match range::range_of(s.take(cut)) {
        Ok(r) if zone.len() > 0 && all_link_local(r) => Some(zone),
        _ => None,
    }
}

/// Which answer an address expression needs.
pub open spec fn needed(written: Seq<char>) -> Needed {
    let s = text::trimmed(written);
    if text::holds(s, '%') {
        match zone_asked(s) {
            Some(zone) => Needed::Zone(zone),
            None => Needed::Nothing,
        }
    } else if text::holds(s, '/') || text::holds(s, '-') {
        Needed::Nothing
    } else {
        match keyword_of(s) {
            Some(keyword) => Needed::Keyword(keyword),
            None => Needed::Nothing,
        }
    }
}

/// Which answer the running host has to give before `written` can be read.
///
/// An expression that is refused whatever the host says needs none.
pub fn needs(written: &str) -> (need: Need)
    ensures
        need@ == needed(written@),
{
    let chars = text::chars_of(written);
    let s = text::trim(chars.as_slice());
    if text::find(s, '%').is_some() {
        return match scoped_range(s) {
            Ok((_, zone)) => Need::Zone(text::text_of(zone)),
            Err(_) => Need::Nothing,
        };
    }
    if text::find(s, '/').is_some() || text::find(s, '-').is_some() {
        return Need::Nothing;
    }
    match Keyword::from_chars(s) {
        Some(keyword) => Need::Keyword(keyword),
        None => Need::Nothing,
    }
}

/// Whether some answers hold the one that is needed.
pub open spec fn is_answered(
    need: Needed,
    expansions: Seq<Expansion>,
    interfaces: Seq<Interface>,
) -> bool {
    match need {
        Needed::Nothing => true,
        Needed::Keyword(keyword) => answer_for(expansions, keyword) is Some,
        Needed::Zone(name) => index_of(interfaces, name) is Some,
        Needed::Host(_) => false,
    }
}

/// Whether some answers hold the one that is needed.
fn answered_by(need: &Need, expansions: &[Expansion], interfaces: &[Interface]) -> (answered: bool)
    ensures
        answered == is_answered(need@, expansions@, interfaces@),
{
    match need {
        Need::Nothing => true,
        Need::Keyword(keyword) => is_expanded(*keyword, expansions),
        Need::Zone(name) => {
            let chars = text::chars_of(name.as_str());
            lookup(chars.as_slice(), interfaces).is_some()
        },
        Need::Host(_) => false,
    }
}

/// Whether what a keyword stands for was said.
fn is_expanded(keyword: Keyword, expansions: &[Expansion]) -> (said: bool)
    ensures
        said == (answer_for(expansions@, keyword) is Some),
{
    let mut i: usize = 0;
    assert(expansions@.skip(0) =~= expansions@);
    while i < expansions.len()
        invariant
            i <= expansions@.len(),
            answer_for(expansions@.skip(i as int), keyword) == answer_for(expansions@, keyword),
        decreases expansions@.len() - i,
    {
        assert(expansions@.skip(i as int).drop_first() =~= expansions@.skip(i + 1));
        assert(expansions@.skip(i as int)[0] == expansions@[i as int]);
        if expansions[i].keyword == keyword {
            return true;
        }
        i = i + 1;
    }
    false
}

/// Which answer an address expression still needs, where some have been given.
pub open spec fn still_needed(
    written: Seq<char>,
    expansions: Seq<Expansion>,
    interfaces: Seq<Interface>,
) -> Needed {
    if is_answered(needed(written), expansions, interfaces) {
        Needed::Nothing
    } else {
        needed(written)
    }
}

/// Which answer an address expression still needs, where some have been given.
pub fn still_needs(written: &str, expansions: &[Expansion], interfaces: &[Interface]) -> (need: Need)
    ensures
        need@ == still_needed(written@, expansions@, interfaces@),
{
    let need = needs(written);
    if answered_by(&need, expansions, interfaces) {
        Need::Nothing
    } else {
        need
    }
}

/// Which answer a list of expressions needs next, where some have been given. What
/// stands after a refused expression needs none.
pub open spec fn next_needed(
    parts: Seq<Seq<char>>,
    expansions: Seq<Expansion>,
    interfaces: Seq<Interface>,
) -> Needed
    decreases parts.len(),
{
    if parts.len() == 0 {
        Needed::Nothing
    } else if text::trimmed(parts[0]).len() == 0 {
        next_needed(parts.drop_first(), expansions, interfaces)
    } else if !(still_needed(parts[0], expansions, interfaces) is Nothing) {
        still_needed(parts[0], expansions, interfaces)
    } else if meant(parts[0], expansions, interfaces) is Err {
        Needed::Nothing
    } else {
        next_needed(parts.drop_first(), expansions, interfaces)
    }
}

/// The tables an expression is read with matter only for the answer it needs:
/// one that needs none means the same whatever they hold.
pub proof fn lemma_only_the_needed_answer_is_read(
    written: Seq<char>,
    expansions: Seq<Expansion>,
    interfaces: Seq<Interface>,
    other_expansions: Seq<Expansion>,
    other_interfaces: Seq<Interface>,
)
    requires
        match needed(written) {
            Needed::Nothing => true,
            Needed::Keyword(keyword) => answer_for(expansions, keyword) == answer_for(
                other_expansions,
                keyword,
            ),
            Needed::Zone(name) => index_of(interfaces, name) == index_of(other_interfaces, name),
            Needed::Host(_) => true,
        },
    ensures
        meant(written, expansions, interfaces) == meant(
            written,
            other_expansions,
            other_interfaces,
        ),
{
    reveal(meant);
}

/// Identifies the format of a single address expression and inserts it into an
/// existing set.
///
/// This is the grammar itself, without the list handling [`to_set`] wraps around
/// it. Nothing is inserted when the expression is refused.
///
/// [`IpParseError::Malformed`] is the one error worth treating as a question
/// rather than an answer: it means the expression matches no address, range or
/// CIDR form, which is also what a hostname looks like from here.
pub fn insert_expression(
    written: &str,
    set: &mut IpSet,
    expansions: &[Expansion],
    interfaces: &[Interface],
) -> (result: Result<(), IpParseError>)
    ensures
        match (result, meant(written@, expansions@, interfaces@)) {
            (Ok(()), Ok(meaning)) => final(set)@ == old(set)@.union(meaning.held)
                && final(set).gross_count() == old(set).gross_count() + meaning.gross,
            (Err(error), Err(fault)) => error@ == fault && *final(set) == *old(set),
            _ => false,
        },
{
    proof {
        reveal(meant);
    }
    let chars = text::chars_of(written);
    let s = text::trim(chars.as_slice());
    let ghost before = set@;
    // The interface suffix is stripped first and applied to whatever the rest
    // parses to, so `fe80::1-fe80::5%en0` means the obvious thing.
    if text::find(s, '%').is_some() {
        return match parse_scoped(s, interfaces) {
            Ok(r) => {
                set.insert_range(r);
                Ok(())
            },
            Err(error) => Err(error),
        };
    }
    if text::find(s, '/').is_some() {
        return match parse_cidr(s) {
            Ok(r) => {
                set.insert_range(as_hosts(r));
                Ok(())
            },
            Err(error) => Err(error),
        };
    }
    if text::find(s, '-').is_some() {
        return match IpRange::parse_chars(s) {
            Ok(r) => {
                proof {
                    lemma_trimmed_twice(chars@);
                }
                set.insert_range(as_hosts(r));
                Ok(())
            },
            Err(error) => Err(map_range_error(s, error)),
        };
    }
    match Keyword::from_chars(s) {
        Some(keyword) => {
            return expand(keyword, set, expansions);
        },
        None => {},
    }
    match IpAddr::parse_chars(s) {
        Some(ip) => {
            set.insert(ip.to_canonical());
            assert(set@ =~= before.union(Set::empty().insert((ip.host(), None))));
            Ok(())
        },
        None => Err(IpParseError::Malformed(text::text_of(s))),
    }
}

/// Trimming what is trimmed changes nothing.
proof fn lemma_trimmed_twice(s: Seq<char>)
    ensures
        text::trimmed(text::trimmed(s)) == text::trimmed(s),
{
    text::lemma_trimmed_ends(s);
    text::lemma_trimmed_is_identity(text::trimmed(s));
}

/// Adds what the running host said a keyword stands for.
fn expand(keyword: Keyword, set: &mut IpSet, expansions: &[Expansion]) -> (result: Result<
    (),
    IpParseError,
>)
    ensures
        match (result, keyword_meant(keyword, expansions@)) {
            (Ok(()), Ok(meaning)) => final(set)@ == old(set)@.union(meaning.held)
                && final(set).gross_count() == old(set).gross_count() + meaning.gross,
            (Err(error), Err(fault)) => error@ == fault && *final(set) == *old(set),
            _ => false,
        },
{
    let mut i: usize = 0;
    assert(expansions@.skip(0) =~= expansions@);
    while i < expansions.len()
        invariant
            i <= expansions@.len(),
            *set == *old(set),
            answer_for(expansions@.skip(i as int), keyword) == answer_for(expansions@, keyword),
        decreases expansions@.len() - i,
    {
        assert(expansions@.skip(i as int).drop_first() =~= expansions@.skip(i + 1));
        assert(expansions@.skip(i as int)[0] == expansions@[i as int]);
        if expansions[i].keyword == keyword {
            return match &expansions[i].answer {
                Ok(held) => {
                    set.absorb(held);
                    Ok(())
                },
                Err(error) => Err(error.again()),
            };
        }
        i = i + 1;
    }
    Err(
        IpParseError::KeywordUnresolved {
            keyword: keyword.as_str(),
            reason: "no resolver was supplied to expand it".to_owned(),
        },
    )
}

/// A range as the hosts it names.
fn as_hosts(r: IpRange) -> (hosts: IpRange)
    ensures
        hosts@ == hosts_of(r@),
{
    match r {
        IpRange::V6(v6) => match v6.spelled_ipv4() {
            Some(spelled) => IpRange::V4(spelled),
            None => r,
        },
        IpRange::V4(_) => r,
    }
}

/// Looks an interface up by its name.
fn lookup(name: &[char], interfaces: &[Interface]) -> (index: Option<u32>)
    ensures
        index == index_of(interfaces@, name@),
{
    let mut i: usize = 0;
    assert(interfaces@.skip(0) =~= interfaces@);
    while i < interfaces.len()
        invariant
            i <= interfaces@.len(),
            index_of(interfaces@.skip(i as int), name@) == index_of(interfaces@, name@),
        decreases interfaces@.len() - i,
    {
        assert(interfaces@.skip(i as int).drop_first() =~= interfaces@.skip(i + 1));
        assert(interfaces@.skip(i as int)[0] == interfaces@[i as int]);
        let known = text::chars_of(interfaces[i].name.as_str());
        if text::same_chars(known.as_slice(), name) {
            return Some(interfaces[i].index);
        }
        i = i + 1;
    }
    None
}

/// The range and the interface that `range%zone` writes.
///
/// A zone written on an address with no use for one is a target that does not mean
/// what it says. The whole range is asked about, not its first address.
fn scoped_range(s: &[char]) -> (scoped: Result<(Ipv6Range, &[char]), IpParseError>)
    requires
        text::holds(s@, '%'),
    ensures
        ({
            let cut = text::upto(s@, '%');
            match scoped {
                Ok((v6, zone)) => zone_asked(s@) == Some(zone@) && range::range_of(s@.take(cut))
                    == Ok::<RangeView, RangeFault>(IpRange::V6(v6)@),
                Err(error) => zone_asked(s@) is None && forall|interfaces: Seq<Interface>|
                    #[trigger]
                    scoped_meant(s@, interfaces) == Err::<Meaning, ParseFault>(error@),
            }
        }),
{
    let n: usize = s.len();
    let cut: usize = match text::find(s, '%') {
        Some(cut) => cut,
        None => {
            return Err(IpParseError::Malformed(text::text_of(s)));
        },
    };
    let (address, zone) = (slice_subrange(s, 0, cut), slice_subrange(s, cut + 1, n));
    assert(address@ =~= s@.take(cut as int));
    assert(zone@ =~= s@.skip(cut + 1));
    if zone.len() == 0 {
        return Err(IpParseError::Malformed(text::text_of(s)));
    }
    let v6 = match IpRange::parse_chars(address) {
        Err(_) => {
            return Err(IpParseError::Malformed(text::text_of(s)));
        },
        Ok(IpRange::V4(_)) => {
            return Err(IpParseError::ZoneOnUnscopedTarget(text::text_of(s)));
        },
        Ok(IpRange::V6(v6)) => v6,
    };
    proof {
        use_type_invariant(&v6);
        assert(v6.has(v6.first()) && v6.has(v6.last()));
        assert(all_link_local(IpRange::V6(v6)@) == (forall|n: int|
            v6.has(n) ==> #[trigger] range::in_link_local(n))) by {
            if forall|n: int| v6.has(n) ==> #[trigger] range::in_link_local(n) {
                assert(range::in_link_local(v6.first()) && range::in_link_local(v6.last()));
            }
        }
    }
    if !v6.is_link_local() {
        return Err(IpParseError::ZoneOnUnscopedTarget(text::text_of(s)));
    }
    Ok((v6, zone))
}

/// Parses a target carrying an explicit `%interface` suffix.
///
/// An interface nobody recognizes is refused, as a zone on an address with no use
/// for one is.
fn parse_scoped(s: &[char], interfaces: &[Interface]) -> (r: Result<IpRange, IpParseError>)
    requires
        text::holds(s@, '%'),
    ensures
        match (r, scoped_meant(s@, interfaces@)) {
            (Ok(r), Ok(meaning)) => range_meaning(r@) == meaning,
            (Err(error), Err(fault)) => error@ == fault,
            _ => false,
        },
{
    let (v6, zone) = match scoped_range(s) {
        Ok(scoped) => scoped,
        Err(error) => {
            assert(scoped_meant(s@, interfaces@) == Err::<Meaning, ParseFault>(error@));
            return Err(error);
        },
    };
    proof {
        use_type_invariant(&v6);
    }
    match lookup(zone, interfaces) {
        Some(index) if index != 0 => match Ipv6Range::scoped(
            v6.start_addr(),
            v6.end_addr(),
            Some(index),
        ) {
            Ok(scoped) => Ok(IpRange::V6(scoped)),
            Err(error) => Err(map_range_error(s, error)),
        },
        _ => Err(IpParseError::UnknownInterface(text::text_of(zone))),
    }
}

/// Parses CIDR notation.
fn parse_cidr(s: &[char]) -> (r: Result<IpRange, IpParseError>)
    requires
        text::holds(s@, '/'),
    ensures
        match (r, cidr_meant(s@)) {
            (Ok(r), Ok(meaning)) => range_meaning(hosts_of(r@)) == meaning,
            (Err(error), Err(fault)) => error@ == fault,
            _ => false,
        },
{
    let n: usize = s.len();
    let cut: usize = match text::find(s, '/') {
        Some(cut) => cut,
        None => {
            return Err(IpParseError::Malformed(text::text_of(s)));
        },
    };
    let (before, after) = (slice_subrange(s, 0, cut), slice_subrange(s, cut + 1, n));
    assert(before@ =~= s@.take(cut as int));
    assert(after@ =~= s@.skip(cut + 1));
    match (IpAddr::parse_chars(before), text::parse_unsigned(after, 10, 0xffff_ffff)) {
        (Some(ip), Some(prefix)) => if prefix > 255 {
            Err(IpParseError::InvalidPrefix(prefix as u32))
        } else {
            match range::cidr_range(ip, prefix as u8) {
                Ok(r) => Ok(r),
                Err(error) => Err(map_range_error(s, error)),
            }
        },
        _ => Err(IpParseError::Malformed(text::text_of(s))),
    }
}

/// Restates a range error against the expression the caller wrote.
fn map_range_error(original: &[char], error: IpError) -> (restatement: IpParseError)
    ensures
        restatement@ == restated(original@, error@),
{
    match error {
        IpError::InvalidRange(start, end) => IpParseError::InvalidRange(start, end),
        IpError::InvalidPrefix(prefix) => IpParseError::InvalidPrefix(prefix as u32),
        _ => IpParseError::Malformed(text::text_of(original)),
    }
}

/// What two expressions stand for together.
pub open spec fn both_meant(a: Meaning, b: Meaning) -> Meaning {
    Meaning { held: a.held.union(b.held), gross: a.gross + b.gross }
}

/// What is meant once a list of expressions has been read as well, or the first
/// fault among them. Blank ones are skipped.
pub open spec fn meant_after(
    start: Meaning,
    parts: Seq<Seq<char>>,
    expansions: Seq<Expansion>,
    interfaces: Seq<Interface>,
) -> Result<Meaning, ParseFault>
    decreases parts.len(),
{
    if parts.len() == 0 {
        Ok(start)
    } else {
        match meant_after(start, parts.drop_last(), expansions, interfaces) {
            Err(fault) => Err(fault),
            Ok(meaning) => if text::trimmed(parts.last()).len() == 0 {
                Ok(meaning)
            } else {
                match meant(parts.last(), expansions, interfaces) {
                    Ok(more) => Ok(both_meant(meaning, more)),
                    Err(fault) => Err(fault),
                }
            },
        }
    }
}

/// What a list of expressions stands for together, or the first fault among them.
pub open spec fn all_meant(
    parts: Seq<Seq<char>>,
    expansions: Seq<Expansion>,
    interfaces: Seq<Interface>,
) -> Result<Meaning, ParseFault> {
    meant_after(Meaning { held: Set::empty(), gross: 0 }, parts, expansions, interfaces)
}

/// The expressions a list of comma-separated lists writes, in order.
pub open spec fn parts_of(targets: Seq<&str>) -> Seq<Seq<char>>
    decreases targets.len(),
{
    if targets.len() == 0 {
        Seq::empty()
    } else {
        parts_of(targets.drop_last()) + text::split_on(targets.last()@, seq![','])
    }
}

/// Two lists are read one after the other, and a fault in the first is the fault
/// of both.
pub proof fn lemma_meant_in_turn(
    start: Meaning,
    a: Seq<Seq<char>>,
    b: Seq<Seq<char>>,
    expansions: Seq<Expansion>,
    interfaces: Seq<Interface>,
)
    ensures
        meant_after(start, a + b, expansions, interfaces) == match meant_after(
            start,
            a,
            expansions,
            interfaces,
        ) {
            Ok(meaning) => meant_after(meaning, b, expansions, interfaces),
            Err(fault) => Err(fault),
        },
    decreases b.len(),
{
    if b.len() == 0 {
        assert(a + b =~= a);
    } else {
        lemma_meant_in_turn(start, a, b.drop_last(), expansions, interfaces);
        assert((a + b).drop_last() =~= a + b.drop_last());
    }
}

/// What a set means.
pub open spec fn meaning_of(set: IpSet) -> Meaning {
    Meaning { held: set@, gross: set.gross_count() }
}

proof fn lemma_parts_of_prefix(targets: Seq<&str>, n: int)
    requires
        0 <= n <= targets.len(),
    ensures
        exists|rest: Seq<Seq<char>>| parts_of(targets) == #[trigger] (parts_of(targets.take(n)) + rest),
    decreases targets.len() - n,
{
    if n < targets.len() {
        lemma_parts_of_prefix(targets, n + 1);
        let rest = choose|rest: Seq<Seq<char>>|
            parts_of(targets) == #[trigger] (parts_of(targets.take(n + 1)) + rest);
        assert(targets.take(n + 1).drop_last() =~= targets.take(n));
        let pieces = text::split_on(targets[n]@, seq![',']);
        assert(parts_of(targets) =~= parts_of(targets.take(n)) + (pieces + rest));
    } else {
        assert(targets.take(n) =~= targets);
        assert(parts_of(targets) =~= parts_of(targets.take(n)) + Seq::empty());
    }
}

/// Inserts each expression of a comma-separated list.
fn insert_list(
    list: &str,
    set: &mut IpSet,
    expansions: &[Expansion],
    interfaces: &[Interface],
) -> (result: Result<(), IpParseError>)
    ensures
        match (
            result,
            meant_after(
                meaning_of(*old(set)),
                text::split_on(list@, seq![',']),
                expansions@,
                interfaces@,
            ),
        ) {
            (Ok(()), Ok(meaning)) => meaning_of(*final(set)) == meaning,
            (Err(error), Err(fault)) => error@ == fault,
            _ => false,
        },
{
    let comma: [char; 1] = [','];
    assert(comma@ =~= seq![',']);
    let chars = text::chars_of(list);
    let parts = text::split(chars.as_slice(), &comma);
    let ghost pieces = text::split_on(list@, seq![',']);
    let ghost start = meaning_of(*set);
    let mut j: usize = 0;
    assert(pieces.take(0) =~= Seq::empty());
    while j < parts.len()
        invariant
            text::pieces_of(parts@) == pieces,
            j <= parts@.len(),
            meant_after(start, pieces.take(j as int), expansions@, interfaces@) == Ok::<
                Meaning,
                ParseFault,
            >(meaning_of(*set)),
            start == meaning_of(*old(set)),
            pieces == text::split_on(list@, seq![',']),
        decreases parts@.len() - j,
    {
        let part = text::trim(parts[j].as_slice());
        let ghost more = pieces.take(j + 1);
        proof {
            assert(pieces[j as int] == parts@[j as int]@);
            assert(more.drop_last() =~= pieces.take(j as int));
            assert(more.last() == pieces[j as int]);
        }
        if part.len() > 0 {
            let written = text::text_of(parts[j].as_slice());
            let ghost before = meaning_of(*set);
            match insert_expression(written.as_str(), set, expansions, interfaces) {
                Ok(()) => {
                    assert(meaning_of(*set) =~= both_meant(
                        before,
                        meant(pieces[j as int], expansions@, interfaces@)->Ok_0,
                    ));
                },
                Err(error) => {
                    proof {
                        lemma_meant_in_turn(
                            start,
                            more,
                            pieces.skip(j + 1),
                            expansions@,
                            interfaces@,
                        );
                        assert(more + pieces.skip(j + 1) =~= pieces);
                    }
                    return Err(error);
                },
            }
        }
        j = j + 1;
    }
    assert(pieces.take(j as int) =~= pieces);
    Ok(())
}

/// Resolves a list of address expressions into one [`IpSet`].
///
/// Each element may itself be a comma-separated list. Surrounding whitespace is
/// trimmed and empty elements are skipped. The first expression that does not
/// parse is the error, or [`IpParseError::EmptySet`] if nothing was named.
pub fn to_set(targets: &[&str], expansions: &[Expansion], interfaces: &[Interface]) -> (set: Result<
    IpSet,
    IpParseError,
>)
    ensures
        match (set, all_meant(parts_of(targets@), expansions@, interfaces@)) {
            (Ok(set), Ok(meaning)) => meaning_of(set) == meaning && meaning.held != Set::<
                (IpAddr, Option<u32>),
            >::empty(),
            (Err(error), Ok(meaning)) => error@ == ParseFault::EmptySet && meaning.held == Set::<
                (IpAddr, Option<u32>),
            >::empty(),
            (Err(error), Err(fault)) => error@ == fault,
            _ => false,
        },
{
    let mut set = IpSet::new();
    let ghost nothing = Meaning { held: Set::empty(), gross: 0 };
    let mut i: usize = 0;
    assert(targets@.take(0) =~= Seq::empty());
    assert(meaning_of(set) =~= nothing);
    while i < targets.len()
        invariant
            nothing == (Meaning { held: Set::empty(), gross: 0 }),
            i <= targets@.len(),
            all_meant(parts_of(targets@.take(i as int)), expansions@, interfaces@) == Ok::<
                Meaning,
                ParseFault,
            >(meaning_of(set)),
        decreases targets@.len() - i,
    {
        proof {
            assert(targets@.take(i + 1).drop_last() =~= targets@.take(i as int));
            lemma_meant_in_turn(
                nothing,
                parts_of(targets@.take(i as int)),
                text::split_on(targets@[i as int]@, seq![',']),
                expansions@,
                interfaces@,
            );
        }
        match insert_list(targets[i], &mut set, expansions, interfaces) {
            Ok(()) => {},
            Err(error) => {
                proof {
                    lemma_parts_of_prefix(targets@, i + 1);
                    let rest = choose|rest: Seq<Seq<char>>|
                        parts_of(targets@) == #[trigger] (parts_of(targets@.take(i + 1)) + rest);
                    lemma_meant_in_turn(
                        nothing,
                        parts_of(targets@.take(i + 1)),
                        rest,
                        expansions@,
                        interfaces@,
                    );
                }
                return Err(error);
            },
        }
        i = i + 1;
    }
    assert(targets@.take(i as int) =~= targets@);
    if set.is_empty() {
        return Err(IpParseError::EmptySet);
    }
    Ok(set)
}

/// The expressions a list of comma-separated lists writes, in order.
fn list_parts(targets: &[&str]) -> (parts: Vec<String>)
    ensures
        parts@.len() == parts_of(targets@).len(),
        forall|i: int| 0 <= i < parts@.len() ==> (#[trigger] parts@[i])@ == parts_of(targets@)[i],
{
    let comma: [char; 1] = [','];
    assert(comma@ =~= seq![',']);
    let mut parts: Vec<String> = Vec::new();
    let mut i: usize = 0;
    assert(targets@.take(0) =~= Seq::empty());
    while i < targets.len()
        invariant
            comma@ == seq![','],
            i <= targets@.len(),
            parts@.len() == parts_of(targets@.take(i as int)).len(),
            forall|k: int|
                0 <= k < parts@.len() ==> (#[trigger] parts@[k])@ == parts_of(
                    targets@.take(i as int),
                )[k],
        decreases targets@.len() - i,
    {
        let chars = text::chars_of(targets[i]);
        let found = text::split(chars.as_slice(), &comma);
        let ghost before = parts_of(targets@.take(i as int));
        let ghost pieces = text::split_on(targets@[i as int]@, seq![',']);
        let mut j: usize = 0;
        assert(text::pieces_of(found@) == pieces);
        assert(pieces.len() == found@.len());
        while j < found.len()
            invariant
                text::pieces_of(found@) == pieces,
                pieces.len() == found@.len(),
                j <= found@.len(),
                parts@.len() == before.len() + j,
                forall|k: int|
                    0 <= k < parts@.len() ==> (#[trigger] parts@[k])@ == (before + pieces)[k],
            decreases found@.len() - j,
        {
            assert(pieces[j as int] == found@[j as int]@);
            parts.push(text::text_of(found[j].as_slice()));
            j = j + 1;
        }
        i = i + 1;
        assert(targets@.take(i as int).drop_last() =~= targets@.take(i - 1));
    }
    assert(targets@.take(i as int) =~= targets@);
    parts
}

/// Which answer [`to_set`] needs next before it can read `targets`, where some have
/// been given.
///
/// Asked for in the order the expressions are written in, and only as far as the
/// first that is refused: nothing is looked up for a list that is not going to be
/// read.
pub fn next_need(targets: &[&str], expansions: &[Expansion], interfaces: &[Interface]) -> (need: Need)
    ensures
        need@ == next_needed(parts_of(targets@), expansions@, interfaces@),
{
    let parts = list_parts(targets);
    let ghost all = parts_of(targets@);
    let mut i: usize = 0;
    assert(all.skip(0) =~= all);
    while i < parts.len()
        invariant
            all == parts_of(targets@),
            parts@.len() == all.len(),
            forall|k: int| 0 <= k < parts@.len() ==> (#[trigger] parts@[k])@ == all[k],
            i <= parts@.len(),
            next_needed(all, expansions@, interfaces@) == next_needed(
                all.skip(i as int),
                expansions@,
                interfaces@,
            ),
        decreases parts@.len() - i,
    {
        let part = parts[i].as_str();
        proof {
            assert(all.skip(i as int)[0] == part@);
            assert(all.skip(i as int).drop_first() =~= all.skip(i + 1));
        }
        let chars = text::chars_of(part);
        if text::trim(chars.as_slice()).len() > 0 {
            let need = still_needs(part, expansions, interfaces);
            if !matches!(need, Need::Nothing) {
                return need;
            }
            let mut set = IpSet::new();
            if insert_expression(part, &mut set, expansions, interfaces).is_err() {
                return Need::Nothing;
            }
        }
        i = i + 1;
    }
    Need::Nothing
}

/// Whether answers hold every answer that others do, and perhaps more.
pub open spec fn answers_more(
    expansions: Seq<Expansion>,
    interfaces: Seq<Interface>,
    more_expansions: Seq<Expansion>,
    more_interfaces: Seq<Interface>,
) -> bool {
    &&& forall|keyword: Keyword| #[trigger]
        answer_for(expansions, keyword) is Some ==> answer_for(more_expansions, keyword)
            == answer_for(expansions, keyword)
    &&& forall|name: Seq<char>| #[trigger]
        index_of(interfaces, name) is Some ==> index_of(more_interfaces, name) == index_of(
            interfaces,
            name,
        )
}

/// An expression whose need is answered means the same however much more is
/// answered.
pub proof fn lemma_an_answered_expression_is_decided(
    written: Seq<char>,
    expansions: Seq<Expansion>,
    interfaces: Seq<Interface>,
    more_expansions: Seq<Expansion>,
    more_interfaces: Seq<Interface>,
)
    requires
        still_needed(written, expansions, interfaces) is Nothing,
        answers_more(expansions, interfaces, more_expansions, more_interfaces),
    ensures
        meant(written, expansions, interfaces) == meant(written, more_expansions, more_interfaces),
{
    lemma_only_the_needed_answer_is_read(
        written,
        expansions,
        interfaces,
        more_expansions,
        more_interfaces,
    );
}

/// A list is decided once nothing more is needed: no answer beyond those asked for
/// is read, and none changes what the list means.
pub proof fn lemma_only_the_answers_asked_for_are_read(
    start: Meaning,
    parts: Seq<Seq<char>>,
    expansions: Seq<Expansion>,
    interfaces: Seq<Interface>,
    more_expansions: Seq<Expansion>,
    more_interfaces: Seq<Interface>,
)
    requires
        next_needed(parts, expansions, interfaces) is Nothing,
        answers_more(expansions, interfaces, more_expansions, more_interfaces),
    ensures
        meant_after(start, parts, expansions, interfaces) == meant_after(
            start,
            parts,
            more_expansions,
            more_interfaces,
        ),
    decreases parts.len(),
{
    if parts.len() > 0 {
        let (first, rest) = (seq![parts[0]], parts.drop_first());
        assert(first + rest =~= parts);
        lemma_meant_in_turn(start, first, rest, expansions, interfaces);
        lemma_meant_in_turn(start, first, rest, more_expansions, more_interfaces);
        assert(first.drop_last() =~= Seq::empty());
        reveal_with_fuel(meant_after, 2);
        if text::trimmed(parts[0]).len() > 0 {
            lemma_an_answered_expression_is_decided(
                parts[0],
                expansions,
                interfaces,
                more_expansions,
                more_interfaces,
            );
        }
        match meant_after(start, first, expansions, interfaces) {
            Ok(meaning) => {
                lemma_only_the_answers_asked_for_are_read(
                    meaning,
                    rest,
                    expansions,
                    interfaces,
                    more_expansions,
                    more_interfaces,
                );
            },
            Err(_) => {},
        }
    }
}

// ---------------------------------------------------------------------------
// What is written, and what it means
// ---------------------------------------------------------------------------

proof fn lemma_address_text_is_bare(s: Seq<char>)
    requires
        s.len() > 0,
        addr::all_address_chars(s),
    ensures
        text::trimmed(s) == s,
        !text::holds(s, '%'),
        !text::holds(s, '/'),
        !text::holds(s, '-'),
        keyword_of(s) is None,
{
    range::lemma_address_chars_are_plain();
    assert(addr::is_address_char(s[0]) && addr::is_address_char(s[s.len() - 1]));
    text::lemma_trimmed_is_identity(s);
    assert(forall|j: int| 0 <= j < s.len() ==> addr::is_address_char(#[trigger] s[j]));
    text::lemma_upto_is(s, '%', s.len() as int);
    text::lemma_upto_is(s, '/', s.len() as int);
    text::lemma_upto_is(s, '-', s.len() as int);
    reveal_strlit("lan");
    let word = Keyword::Lan.word();
    if same_but_for_case(s, word) {
        assert(lowered(s[0]) == lowered(word[0]));
        assert(false);
    }
}

/// An address, written out, means that one host on no interface in particular:
/// the IPv4 host where it spells one.
pub proof fn lemma_an_address_means_itself(
    ip: IpAddr,
    expansions: Seq<Expansion>,
    interfaces: Seq<Interface>,
)
    ensures
        meant(addr::ip_text(ip), expansions, interfaces) matches Ok(m) && m.gross == 1 && forall|
            p: (IpAddr, Option<u32>),
        | #[trigger] m.held.contains(p) <==> p.0 == ip.host() && p.1 is None,
{
    reveal(meant);
    range::lemma_ip_text_is_something(ip);
    addr::lemma_ip_text_reads_back(ip);
    lemma_address_text_is_bare(addr::ip_text(ip));
}

/// Whether an address is an IPv4 one spelled in IPv6.
pub open spec fn spells_ipv4(ip: IpAddr) -> bool {
    ip is V6 && ip.host() is V4
}

/// An IPv4 address as IPv6 spells it, and any other as it is.
pub open spec fn respelled(ip: IpAddr) -> IpAddr {
    match ip {
        IpAddr::V4(a) => IpAddr::V6(addr::Ipv6Addr { bits: (0xffff_0000_0000 + a.bits) as u128 }),
        IpAddr::V6(_) => ip,
    }
}

/// An address with a slash and a prefix behind it means the addresses that agree
/// with it in that many leading bits, each once and on no interface in
/// particular: as IPv4 addresses where all of them spell one. A longer prefix
/// than the family has bits is refused, and named, however long it is written.
pub proof fn lemma_a_block_means_the_addresses_that_agree(
    ip: IpAddr,
    prefix: nat,
    expansions: Seq<Expansion>,
    interfaces: Seq<Interface>,
)
    requires
        prefix <= 0xffff_ffff,
    ensures
        ({
            let width: int = if ip is V6 { 128 } else { 32 };
            match meant(
                addr::ip_text(ip).push('/') + text::decimal(prefix),
                expansions,
                interfaces,
            ) {
                Ok(m) => {
                    &&& prefix <= width
                    &&& m.gross == vstd::arithmetic::power2::pow2((width - prefix) as nat)
                    &&& forall|p: (IpAddr, Option<u32>)| #[trigger]
                        m.held.contains(p) <==> p.1 is None && if spells_ipv4(ip) && prefix >= 96 {
                            p.0 is V4 && range::agrees(ip, respelled(p.0), prefix as int)
                        } else {
                            range::agrees(ip, p.0, prefix as int)
                        }
                },
                Err(fault) => prefix > width && fault == ParseFault::InvalidPrefix(prefix as u32),
            }
        }),
{
    reveal(meant);
    let s = addr::ip_text(ip).push('/') + text::decimal(prefix);
    range::lemma_ip_text_is_something(ip);
    addr::lemma_ip_text_reads_back(ip);
    range::lemma_decimal_is_address_chars(prefix);
    text::lemma_written_reads_back(prefix, 10);
    range::lemma_cut(addr::ip_text(ip), '/', text::decimal(prefix));
    assert(text::digit_of(text::decimal(prefix)[0]) < 10);
    assert(meant(s, expansions, interfaces) == cidr_meant(s));
    let width: int = if ip is V6 { 128 } else { 32 };
    if prefix <= width {
        let r = range::cidr_of(ip, prefix as u8)->Ok_0;
        range::lemma_a_block_covers_its_address(ip, prefix as u8);
        let m = range_meaning(hosts_of(r));
        if spells_ipv4(ip) && prefix >= 96 {
            lemma_block_inside_the_mapped_one(ip, prefix as u8);
        }
        if !(spells_ipv4(ip) && prefix >= 96) && r.v6 && MAPPED_FIRST <= r.first && r.last
            <= MAPPED_LAST {
            lemma_block_too_wide(ip, prefix as u8);
        }
        assert forall|p: (IpAddr, Option<u32>)| #[trigger]
            m.held.contains(p) <==> p.1 is None && if spells_ipv4(ip) && prefix >= 96 {
                p.0 is V4 && range::agrees(ip, respelled(p.0), prefix as int)
            } else {
                range::agrees(ip, p.0, prefix as int)
            } by {
            range::lemma_a_block_is_the_addresses_that_agree(ip, prefix as u8, p.0);
            range::lemma_a_block_is_the_addresses_that_agree(ip, prefix as u8, respelled(p.0));
        }
    }
}

/// A block of an address that spells an IPv4 one, of no more than all of those,
/// holds none that does not.
proof fn lemma_block_inside_the_mapped_one(ip: IpAddr, prefix: u8)
    requires
        spells_ipv4(ip),
        96 <= prefix <= 128,
    ensures
        ({
            let r = range::cidr_of(ip, prefix)->Ok_0;
            r.v6 && MAPPED_FIRST <= r.first && r.last <= MAPPED_LAST
        }),
{
    let bits = ip->V6_0.bits as int;
    let low = (128 - prefix) as nat;
    let high = (32 - low) as nat;
    let size = vstd::arithmetic::power2::pow2(low) as int;
    let times = vstd::arithmetic::power2::pow2(high) as int;
    vstd::arithmetic::power2::lemma2_to64();
    vstd::arithmetic::power2::lemma_pow2_pos(low);
    vstd::arithmetic::power2::lemma_pow2_adds(low, high);
    assert(size * times == 0x1_0000_0000);
    let q = bits / size;
    vstd::arithmetic::div_mod::lemma_fundamental_div_mod(bits, size);
    vstd::arithmetic::div_mod::lemma_mod_bound(bits, size);
    assert(0xffff_0000_0000 == size * (times * 0xffff)) by (nonlinear_arith)
        requires
            size * times == 0x1_0000_0000,
    ;
    assert(0x1_0000_0000_0000 == size * (times * 0x1_0000)) by (nonlinear_arith)
        requires
            size * times == 0x1_0000_0000,
    ;
    let (from, to) = (times * 0xffff, times * 0x1_0000);
    assert(size * from <= size * q && size * q + size <= size * to) by (nonlinear_arith)
        requires
            size > 0,
            bits == size * q + bits % size,
            0 <= bits % size < size,
            size * from <= bits < size * to,
    ;
    assert(bits - bits % size == size * q);
}

/// A block inside those that spell IPv4 addresses is of one of them, and of no
/// more of them than there are.
proof fn lemma_block_too_wide(ip: IpAddr, prefix: u8)
    requires
        range::cidr_of(ip, prefix) is Ok,
        ({
            let r = range::cidr_of(ip, prefix)->Ok_0;
            r.v6 && MAPPED_FIRST <= r.first && r.last <= MAPPED_LAST
        }),
    ensures
        spells_ipv4(ip) && prefix >= 96,
{
    range::lemma_a_block_covers_its_address(ip, prefix);
    if prefix < 96 {
        vstd::arithmetic::power2::lemma2_to64();
        vstd::arithmetic::power2::lemma_pow2_strictly_increases(32, (128 - prefix) as nat);
    }
}

/// Two addresses of one family with a dash between them mean every address from
/// the one to the other, each once: as IPv4 addresses where all of them spell
/// one. They are refused, and named, where the second is the lower one.
pub proof fn lemma_a_range_means_every_address_between(
    start: IpAddr,
    end: IpAddr,
    expansions: Seq<Expansion>,
    interfaces: Seq<Interface>,
)
    requires
        start is V4 <==> end is V4,
    ensures
        match meant(
            addr::ip_text(start).push('-') + addr::ip_text(end),
            expansions,
            interfaces,
        ) {
            Ok(m) => {
                &&& start.rank() <= end.rank()
                &&& m.gross == end.rank() - start.rank() + 1
                &&& forall|p: (IpAddr, Option<u32>)| #[trigger]
                    m.held.contains(p) <==> p.1 is None && if spells_ipv4(start) && spells_ipv4(
                        end,
                    ) {
                        p.0 is V4 && start.rank() <= respelled(p.0).rank() <= end.rank()
                    } else {
                        start.rank() <= p.0.rank() <= end.rank()
                    }
            },
            Err(fault) => start.rank() > end.rank() && fault == ParseFault::InvalidRange(
                start,
                end,
            ),
        },
{
    reveal(meant);
    let s = addr::ip_text(start).push('-') + addr::ip_text(end);
    range::lemma_ip_text_is_something(start);
    range::lemma_ip_text_is_something(end);
    range::lemma_cut(addr::ip_text(start), '-', addr::ip_text(end));
    range::lemma_a_written_range_is_every_address_between(start, end);
    match (start, end) {
        (IpAddr::V4(a), IpAddr::V4(b)) => {
            addr::lemma_ipv4_text_reads_back(a);
            addr::lemma_ipv4_text_reads_back(b);
        },
        (IpAddr::V6(a), IpAddr::V6(b)) => {
            addr::lemma_ipv6_text_reads_back(a);
            addr::lemma_ipv6_text_reads_back(b);
        },
        _ => {},
    }
}

/// Whether an interface of a name is the first listed by it.
pub open spec fn is_listed_as(interfaces: Seq<Interface>, name: Seq<char>, at: int) -> bool {
    &&& 0 <= at < interfaces.len()
    &&& interfaces[at].name@ == name
    &&& forall|i: int| 0 <= i < at ==> (#[trigger] interfaces[i]).name@ != name
}

/// A name is looked up by the first interface listed by it, and names none where
/// none is.
pub proof fn lemma_a_name_is_the_first_interface_listed_by_it(
    interfaces: Seq<Interface>,
    name: Seq<char>,
)
    ensures
        match index_of(interfaces, name) {
            Some(index) => exists|at: int| #[trigger]
                is_listed_as(interfaces, name, at) && interfaces[at].index == index,
            None => forall|i: int|
                0 <= i < interfaces.len() ==> (#[trigger] interfaces[i]).name@ != name,
        },
    decreases interfaces.len(),
{
    if interfaces.len() > 0 {
        if interfaces[0].name@ == name {
            assert(is_listed_as(interfaces, name, 0));
        } else {
            let rest = interfaces.drop_first();
            lemma_a_name_is_the_first_interface_listed_by_it(rest, name);
            match index_of(rest, name) {
                Some(index) => {
                    let at = choose|at: int| #[trigger]
                        is_listed_as(rest, name, at) && rest[at].index == index;
                    assert forall|i: int| 0 <= i < at + 1 implies (
                    #[trigger] interfaces[i]).name@ != name by {
                        if i > 0 {
                            assert(interfaces[i] == rest[i - 1]);
                        }
                    }
                    assert(interfaces[at + 1] == rest[at]);
                    assert(is_listed_as(interfaces, name, at + 1));
                },
                None => {
                    assert forall|i: int| 0 <= i < interfaces.len() implies (
                    #[trigger] interfaces[i]).name@ != name by {
                        if i > 0 {
                            assert(interfaces[i] == rest[i - 1]);
                        }
                    }
                },
            }
        }
    }
}

/// A link-local address with a percent sign and the name of an interface behind
/// it means that address on that interface, and on no other. A name nothing is
/// listed by is refused, and so is an interface on an address that needs none.
pub proof fn lemma_a_zone_means_the_interface_it_names(
    ip: IpAddr,
    zone: Seq<char>,
    expansions: Seq<Expansion>,
    interfaces: Seq<Interface>,
)
    requires
        zone.len() > 0,
        !text::is_space(zone.last()),
    ensures
        ({
            let written = addr::ip_text(ip).push('%') + zone;
            let link_local = ip matches IpAddr::V6(a) && a.bits / 0x40_0000_0000_0000_0000_0000_0000_0000
                == 0x3fa;
            let listed = exists|at: int| #[trigger]
                is_listed_as(interfaces, zone, at) && interfaces[at].index != 0;
            match meant(written, expansions, interfaces) {
                Ok(m) => {
                    &&& link_local
                    &&& m.gross == 1
                    &&& exists|at: int| #[trigger]
                        is_listed_as(interfaces, zone, at) && interfaces[at].index != 0 && forall|
                            p: (IpAddr, Option<u32>),
                        | #[trigger]
                            m.held.contains(p) <==> p.0 == ip && p.1 == Some(interfaces[at].index)
                },
                Err(ParseFault::ZoneOnUnscopedTarget(said)) => !link_local && said == written,
                Err(ParseFault::UnknownInterface(name)) => link_local && name == zone && !listed,
                Err(_) => false,
            }
        }),
{
    let written = addr::ip_text(ip).push('%') + zone;
    lemma_zone_is_cut_off(ip, zone, expansions, interfaces);
    lemma_range_of_an_address(ip);
    assert(all_link_local(range::range_of(addr::ip_text(ip))->Ok_0) <==> (ip matches IpAddr::V6(a)
        && a.bits / 0x40_0000_0000_0000_0000_0000_0000_0000 == 0x3fa));
    lemma_a_name_is_the_first_interface_listed_by_it(interfaces, zone);
    if index_of(interfaces, zone) is Some {
        let index = index_of(interfaces, zone)->0;
        let at = choose|at: int| #[trigger]
            is_listed_as(interfaces, zone, at) && interfaces[at].index == index;
        assert forall|other: int| #[trigger] is_listed_as(interfaces, zone, other) implies other
            == at by {
            if other < at {
                assert(interfaces[other].name@ != zone);
            } else if at < other {
                assert(interfaces[at].name@ != zone);
            }
        }
    }
}

proof fn lemma_range_of_an_address(ip: IpAddr)
    ensures
        range::range_of(addr::ip_text(ip)) matches Ok(r) && r.first == r.last && r.zone is None
            && match ip {
            IpAddr::V4(a) => !r.v6 && r.first == a.bits,
            IpAddr::V6(a) => r.v6 && r.first == a.bits,
        },
{
    range::lemma_ip_text_is_something(ip);
    addr::lemma_ip_text_reads_back(ip);
    lemma_address_text_is_bare(addr::ip_text(ip));
}

proof fn lemma_zone_is_cut_off(
    ip: IpAddr,
    zone: Seq<char>,
    expansions: Seq<Expansion>,
    interfaces: Seq<Interface>,
)
    requires
        zone.len() > 0,
        !text::is_space(zone.last()),
    ensures
        ({
            let s = addr::ip_text(ip);
            let written = s.push('%') + zone;
            &&& meant(written, expansions, interfaces) == scoped_meant(written, interfaces)
            &&& text::upto(written, '%') == s.len()
            &&& written.take(s.len() as int) == s
            &&& written.skip(s.len() as int + 1) == zone
        }),
{
    reveal(meant);
    let s = addr::ip_text(ip);
    let written = s.push('%') + zone;
    range::lemma_ip_text_is_something(ip);
    range::lemma_address_chars_are_plain();
    assert(written[0] == s[0]);
    assert(addr::is_address_char(s[0]));
    assert(written.last() == zone.last());
    text::lemma_trimmed_is_identity(written);
    assert forall|j: int| 0 <= j < s.len() implies #[trigger] written[j] != '%' by {
        assert(written[j] == s[j]);
        assert(addr::is_address_char(s[j]));
    }
    text::lemma_upto_is(written, '%', s.len() as int);
    assert(written.take(s.len() as int) =~= s);
    assert(written.skip(s.len() as int + 1) =~= zone);
}

/// `lan` is a keyword in whatever case it is written and whatever white space
/// stands around it, and no other word is one.
pub proof fn lemma_only_lan_is_a_keyword(token: Seq<char>)
    ensures
        ({
            let word = text::trimmed(token);
            keyword_of(token) == Some(Keyword::Lan) <==> word.len() == 3 && (word[0] == 'l'
                || word[0] == 'L') && (word[1] == 'a' || word[1] == 'A') && (word[2] == 'n'
                || word[2] == 'N')
        }),
{
    reveal_strlit("lan");
    let word = text::trimmed(token);
    let lan = Keyword::Lan.word();
    assert(lan =~= seq!['l', 'a', 'n']);
    if same_but_for_case(word, lan) {
        assert(lowered(word[0]) == lowered(lan[0]));
        assert(lowered(word[1]) == lowered(lan[1]));
        assert(lowered(word[2]) == lowered(lan[2]));
    }
    if word.len() == 3 {
        assert(lowered('L') == 'l' && lowered('A') == 'a' && lowered('N') == 'n');
    }
}

/// A keyword means what the first answer given for it says, and is refused where
/// none was given.
pub proof fn lemma_a_keyword_means_its_first_answer(
    token: Seq<char>,
    expansions: Seq<Expansion>,
    interfaces: Seq<Interface>,
)
    requires
        keyword_of(token) is Some,
    ensures
        expansions.len() > 0 ==> meant(token, expansions, interfaces) == answered(
            expansions[0].answer,
        ),
        expansions.len() == 0 ==> (meant(token, expansions, interfaces) matches Err(fault) && fault
            is KeywordUnresolved),
{
    reveal(meant);
    lemma_only_lan_is_a_keyword(token);
    let s = text::trimmed(token);
    text::lemma_trimmed_ends(token);
    text::lemma_trimmed_is_identity(s);
    text::lemma_upto_is(s, '%', 3);
    text::lemma_upto_is(s, '/', 3);
    text::lemma_upto_is(s, '-', 3);
}

/// Whether some expression of a list, blank ones put aside, means an address.
pub open spec fn some_part_means(
    parts: Seq<Seq<char>>,
    expansions: Seq<Expansion>,
    interfaces: Seq<Interface>,
    p: (IpAddr, Option<u32>),
) -> bool {
    exists|i: int|
        0 <= i < parts.len() && text::trimmed(#[trigger] parts[i]).len() > 0 && (meant(
            parts[i],
            expansions,
            interfaces,
        ) matches Ok(m) && m.held.contains(p))
}

/// Whether a list is read without a fault: each of its expressions is blank or
/// means something.
pub open spec fn every_part_means(
    parts: Seq<Seq<char>>,
    expansions: Seq<Expansion>,
    interfaces: Seq<Interface>,
) -> bool {
    forall|i: int|
        0 <= i < parts.len() && text::trimmed(#[trigger] parts[i]).len() > 0 ==> meant(
            parts[i],
            expansions,
            interfaces,
        ) is Ok
}

/// A list means what its expressions mean, all of them together and nothing
/// else. It is refused exactly where one of them is.
pub proof fn lemma_a_list_means_what_its_parts_mean(
    parts: Seq<Seq<char>>,
    expansions: Seq<Expansion>,
    interfaces: Seq<Interface>,
)
    ensures
        all_meant(parts, expansions, interfaces) is Ok <==> every_part_means(
            parts,
            expansions,
            interfaces,
        ),
        all_meant(parts, expansions, interfaces) matches Ok(m) ==> forall|
            p: (IpAddr, Option<u32>),
        | #[trigger]
            m.held.contains(p) <==> some_part_means(parts, expansions, interfaces, p),
    decreases parts.len(),
{
    let whole = all_meant(parts, expansions, interfaces);
    if parts.len() > 0 {
        let (before, last) = (parts.drop_last(), parts.last());
        lemma_a_list_means_what_its_parts_mean(before, expansions, interfaces);
        assert(parts[parts.len() - 1] == last);
        assert(forall|i: int| 0 <= i < before.len() ==> #[trigger] before[i] == parts[i]);
        if every_part_means(parts, expansions, interfaces) {
            assert forall|i: int|
                0 <= i < before.len() && text::trimmed(#[trigger] before[i]).len() > 0 implies meant(
                before[i],
                expansions,
                interfaces,
            ) is Ok by {
                assert(parts[i] == before[i]);
            }
        }
        if whole is Ok {
            assert forall|i: int|
                0 <= i < parts.len() && text::trimmed(#[trigger] parts[i]).len() > 0 implies meant(
                parts[i],
                expansions,
                interfaces,
            ) is Ok by {
                if i < before.len() {
                    assert(before[i] == parts[i]);
                }
            }
            let m = whole->Ok_0;
            assert forall|p: (IpAddr, Option<u32>)| #[trigger]
                m.held.contains(p) <==> some_part_means(parts, expansions, interfaces, p) by {
                if some_part_means(before, expansions, interfaces, p) {
                    let i = choose|i: int|
                        0 <= i < before.len() && text::trimmed(#[trigger] before[i]).len() > 0 && (
                        meant(before[i], expansions, interfaces) matches Ok(m) && m.held.contains(
                            p,
                        ));
                    assert(parts[i] == before[i]);
                }
                if some_part_means(parts, expansions, interfaces, p) {
                    let i = choose|i: int|
                        0 <= i < parts.len() && text::trimmed(#[trigger] parts[i]).len() > 0 && (
                        meant(parts[i], expansions, interfaces) matches Ok(m) && m.held.contains(
                            p,
                        ));
                    if i < before.len() {
                        assert(before[i] == parts[i]);
                        assert(some_part_means(before, expansions, interfaces, p));
                    }
                }
            }
        }
    }
}

/// What an expression is said to need is what it cannot be read without: an
/// interface it names that no table lists, or a keyword that none answers. It never
/// needs a host's name looked up.
pub proof fn lemma_what_is_needed_is_missed(
    written: Seq<char>,
    expansions: Seq<Expansion>,
    interfaces: Seq<Interface>,
)
    ensures
        match needed(written) {
            Needed::Nothing => true,
            Needed::Zone(name) => meant(written, expansions, Seq::empty()) == Err::<
                Meaning,
                ParseFault,
            >(ParseFault::UnknownInterface(name)),
            Needed::Keyword(_) => meant(written, Seq::empty(), interfaces) matches Err(fault)
                && fault is KeywordUnresolved,
            Needed::Host(_) => false,
        },
        meant(written, expansions, interfaces) is Ok ==> is_answered(
            needed(written),
            expansions,
            interfaces,
        ),
{
    reveal(meant);
}

/// Whether an expression of a list is the first that still needs an answer: none
/// before it does, and none before it is refused.
pub open spec fn asks_first(
    parts: Seq<Seq<char>>,
    expansions: Seq<Expansion>,
    interfaces: Seq<Interface>,
    at: int,
) -> bool {
    &&& 0 <= at < parts.len()
    &&& text::trimmed(parts[at]).len() > 0
    &&& !(still_needed(parts[at], expansions, interfaces) is Nothing)
    &&& forall|i: int|
        0 <= i < at && text::trimmed(#[trigger] parts[i]).len() > 0 ==> still_needed(
            parts[i],
            expansions,
            interfaces,
        ) is Nothing && meant(parts[i], expansions, interfaces) is Ok
}

/// Whether an expression is passed over: it is blank, or it needs nothing more and
/// is read.
#[verifier::opaque]
spec fn is_passed(
    part: Seq<char>,
    expansions: Seq<Expansion>,
    interfaces: Seq<Interface>,
) -> bool {
    ||| text::trimmed(part).len() == 0
    ||| still_needed(part, expansions, interfaces) is Nothing && meant(
        part,
        expansions,
        interfaces,
    ) is Ok
}

/// What an expression that is not passed over leaves a list to ask for.
#[verifier::opaque]
spec fn left_to_ask(
    part: Seq<char>,
    expansions: Seq<Expansion>,
    interfaces: Seq<Interface>,
) -> Needed {
    still_needed(part, expansions, interfaces)
}

proof fn lemma_next_needed_steps(
    parts: Seq<Seq<char>>,
    expansions: Seq<Expansion>,
    interfaces: Seq<Interface>,
)
    requires
        parts.len() > 0,
    ensures
        next_needed(parts, expansions, interfaces) == if is_passed(
            parts[0],
            expansions,
            interfaces,
        ) {
            next_needed(parts.drop_first(), expansions, interfaces)
        } else {
            left_to_ask(parts[0], expansions, interfaces)
        },
{
    reveal(is_passed);
    reveal(left_to_ask);
}

/// Whether an expression of a list is the first that is not passed over.
spec fn stops_at(
    parts: Seq<Seq<char>>,
    expansions: Seq<Expansion>,
    interfaces: Seq<Interface>,
    at: int,
) -> bool {
    &&& 0 <= at < parts.len()
    &&& !is_passed(parts[at], expansions, interfaces)
    &&& forall|i: int| 0 <= i < at ==> is_passed(#[trigger] parts[i], expansions, interfaces)
}

proof fn lemma_where_a_list_stops(
    parts: Seq<Seq<char>>,
    expansions: Seq<Expansion>,
    interfaces: Seq<Interface>,
)
    ensures
        (next_needed(parts, expansions, interfaces) is Nothing && forall|i: int|
            0 <= i < parts.len() ==> is_passed(#[trigger] parts[i], expansions, interfaces)) || (
        exists|at: int| #[trigger]
            stops_at(parts, expansions, interfaces, at) && next_needed(
                parts,
                expansions,
                interfaces,
            ) == left_to_ask(parts[at], expansions, interfaces)),
    decreases parts.len(),
{
    if parts.len() > 0 {
        let rest = parts.drop_first();
        lemma_next_needed_steps(parts, expansions, interfaces);
        if is_passed(parts[0], expansions, interfaces) {
            lemma_where_a_list_stops(rest, expansions, interfaces);
            if exists|at: int| #[trigger]
                stops_at(rest, expansions, interfaces, at) && next_needed(
                    rest,
                    expansions,
                    interfaces,
                ) == left_to_ask(rest[at], expansions, interfaces) {
                let at = choose|at: int| #[trigger]
                    stops_at(rest, expansions, interfaces, at) && next_needed(
                        rest,
                        expansions,
                        interfaces,
                    ) == left_to_ask(rest[at], expansions, interfaces);
                assert(rest[at] == parts[at + 1]);
                assert forall|i: int| 0 <= i < at + 1 implies is_passed(
                    #[trigger] parts[i],
                    expansions,
                    interfaces,
                ) by {
                    if i > 0 {
                        assert(rest[i - 1] == parts[i]);
                    }
                }
                assert(stops_at(parts, expansions, interfaces, at + 1));
            } else {
                assert forall|i: int| 0 <= i < parts.len() implies is_passed(
                    #[trigger] parts[i],
                    expansions,
                    interfaces,
                ) by {
                    if i > 0 {
                        assert(rest[i - 1] == parts[i]);
                    }
                }
            }
        } else {
            assert(stops_at(parts, expansions, interfaces, 0));
        }
    }
}

/// A list asks for answers in the order it is written in: for that of the first
/// expression that needs one, and for none behind an expression that is refused.
pub proof fn lemma_a_list_asks_in_order(
    parts: Seq<Seq<char>>,
    expansions: Seq<Expansion>,
    interfaces: Seq<Interface>,
    at: int,
)
    ensures
        asks_first(parts, expansions, interfaces, at) ==> next_needed(
            parts,
            expansions,
            interfaces,
        ) == still_needed(parts[at], expansions, interfaces),
        !(next_needed(parts, expansions, interfaces) is Nothing) ==> exists|first: int| #[trigger]
            asks_first(parts, expansions, interfaces, first),
{
    reveal(is_passed);
    reveal(left_to_ask);
    lemma_where_a_list_stops(parts, expansions, interfaces);
    if exists|stop: int| #[trigger]
        stops_at(parts, expansions, interfaces, stop) && next_needed(
            parts,
            expansions,
            interfaces,
        ) == left_to_ask(parts[stop], expansions, interfaces) {
        let stop = choose|stop: int| #[trigger]
            stops_at(parts, expansions, interfaces, stop) && next_needed(
                parts,
                expansions,
                interfaces,
            ) == left_to_ask(parts[stop], expansions, interfaces);
        if asks_first(parts, expansions, interfaces, at) {
            if at < stop {
                assert(is_passed(parts[at], expansions, interfaces));
            } else if stop < at {
                assert(!is_passed(parts[stop], expansions, interfaces));
            }
        }
        if !(next_needed(parts, expansions, interfaces) is Nothing) {
            assert forall|i: int|
                0 <= i < stop && text::trimmed(#[trigger] parts[i]).len() > 0 implies still_needed(
                parts[i],
                expansions,
                interfaces,
            ) is Nothing && meant(parts[i], expansions, interfaces) is Ok by {
                assert(is_passed(parts[i], expansions, interfaces));
            }
            assert(asks_first(parts, expansions, interfaces, stop));
        }
    } else if asks_first(parts, expansions, interfaces, at) {
        assert(is_passed(parts[at], expansions, interfaces));
    }
}

} // verus!
