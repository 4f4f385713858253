//! # Target expressions
//!
//! What a scan target looks like written down, and how a stream of them becomes a
//! [`TargetMap`]. A target expression is an address expression with an optional
//! port specification after it:
//!
//! | Written | Address | Ports |
//! |---|---|---|
//! | `192.0.2.1` | `192.0.2.1` | the caller's default |
//! | `192.0.2.1:80,443` | `192.0.2.1` | `80,443` |
//! | `198.51.100.0/24:1-1024` | `198.51.100.0/24` | `1-1024` |
//! | `2001:db8::1` | `2001:db8::1` | the caller's default |
//! | `[2001:db8::1]:443` | `2001:db8::1` | `443` |
//! | `[fe80::1%en0]:22` | `fe80::1%en0` | `22` |
//! | `scanme.example:22` | `scanme.example` | `22` |
//! | `192.0.2.1:u:53` | `192.0.2.1` | `u:53` (UDP) |
//!
//! ## Where the ports begin
//!
//! 1. A token starting with `[` is an address up to the matching `]`, optionally
//!    followed by `:` and a port specification.
//! 2. A dot before the first colon means the first colon separates: every dotted
//!    IPv6 form puts its dots after at least one colon.
//! 3. Otherwise, one colon separates and two or more are an IPv6 address. So
//!    `2001:db8::1:80` is an address, not port 80 on `2001:db8::1`.
//!
//! ## Hostnames
//!
//! Resolving a name means speaking DNS, which this module does not decide to do.
//! The answers arrive in [`TargetContext`], the same way keywords and interface
//! zones do, and a name without one is refused rather than dropped.
//!
//! ## One unit per port specification
//!
//! [`TargetMapBuilder`] groups by port specification rather than emitting a unit
//! per input token, in first-seen order. Grouping pays only while expressions
//! share specifications, so the builder gives it up on input that does not group.

use crate::index::Index;
use crate::model::ip::addr;
use crate::model::ip::addr::IpAddr;
use crate::model::ip::holding::Holding;
use crate::model::ip::range;
use crate::model::ip::set::IpSet;
use crate::model::parse::ip;
use crate::model::parse::ip::{
    Expansion, Interface, IpParseError, Meaning, Need, Needed, ParseFault,
};
use crate::model::port;
use crate::model::port::{PortFault, PortSet, PortSetParseError, Ports, Protocol};
use crate::model::target;
use crate::model::target::{TargetMap, TargetSet, Unit};
use crate::text;
use vstd::prelude::*;
use vstd::slice::slice_subrange;
use vstd::string::StrSliceExecFns;

verus! {

// ---------------------------------------------------------------------------
// Errors
// ---------------------------------------------------------------------------

/// Why a target expression could not be turned into targets.
///
/// Every variant carries the expression it is about.
#[non_exhaustive]
#[allow(inconsistent_fields)]
#[derive(Debug, Clone, PartialEq, Eq)]
pub enum TargetParseError {
    /// The token was empty.
    Empty,
    /// The token held nothing but whitespace: so many characters of it, and how
    /// the plural of that number ends.
    Blank(usize, &'static str),
    /// A bracketed address was never closed.
    UnbalancedBracket(String),
    /// Something followed the closing bracket other than a port specification.
    TrailingText(String),
    /// The separator was there and the port specification was not.
    EmptyPorts(String),
    /// The address half named nothing scannable.
    Address {
        /// The whole expression, as written.
        expression: String,
        /// What the address grammar made of it.
        source: IpParseError,
    },
    /// The port half was not a port specification.
    Ports {
        /// The whole expression, as written.
        expression: String,
        /// What the port grammar made of it.
        source: PortSetParseError,
    },
    /// The address half is a hostname and the caller supplied no lookup.
    NoHostLookup(String),
    /// Not an address or a range, and shaped like no host name either.
    MistypedAddress(String),
    /// Something with colons in it that is neither an address nor bracketed.
    UnbracketedAddress(String),
    /// The lookup returned nothing for the name.
    UnknownHost(String),
    /// The expression parsed and named nothing to scan.
    ResolvedToNothing(String),
}

/// What a [`TargetParseError`] says.
pub enum TargetFault {
    Empty,
    Blank(int, Seq<char>),
    UnbalancedBracket(Seq<char>),
    TrailingText(Seq<char>),
    EmptyPorts(Seq<char>),
    Address(Seq<char>, ParseFault),
    Ports(Seq<char>, PortFault),
    NoHostLookup(Seq<char>),
    MistypedAddress(Seq<char>),
    UnbracketedAddress(Seq<char>),
    UnknownHost(Seq<char>),
    ResolvedToNothing(Seq<char>),
}

impl View for TargetParseError {
    type V = TargetFault;

    open spec fn view(&self) -> TargetFault {
        match self {
            TargetParseError::Empty => TargetFault::Empty,
            TargetParseError::Blank(n, plural) => TargetFault::Blank(*n as int, plural@),
            TargetParseError::UnbalancedBracket(t) => TargetFault::UnbalancedBracket(t@),
            TargetParseError::TrailingText(t) => TargetFault::TrailingText(t@),
            TargetParseError::EmptyPorts(t) => TargetFault::EmptyPorts(t@),
            TargetParseError::Address { expression, source } => TargetFault::Address(
                expression@,
                source@,
            ),
            TargetParseError::Ports { expression, source } => TargetFault::Ports(
                expression@,
                source@,
            ),
            TargetParseError::NoHostLookup(t) => TargetFault::NoHostLookup(t@),
            TargetParseError::MistypedAddress(t) => TargetFault::MistypedAddress(t@),
            TargetParseError::UnbracketedAddress(t) => TargetFault::UnbracketedAddress(t@),
            TargetParseError::UnknownHost(t) => TargetFault::UnknownHost(t@),
            TargetParseError::ResolvedToNothing(t) => TargetFault::ResolvedToNothing(t@),
        }
    }
}

/// A quoted text and what is said of it.
pub open spec fn quoted(t: Seq<char>, said: Seq<char>) -> Seq<char> {
    "'"@ + t + said
}

/// What is said of a fault.
pub open spec fn fault_message(fault: TargetFault) -> Seq<char> {
    match fault {
        TargetFault::Empty => "a target expression cannot be empty"@,
        TargetFault::Blank(n, plural) => "a target of "@ + text::decimal(n as nat) + " space"@
            + plural + "; a stray '\\' in the shell?"@,
        TargetFault::UnbalancedBracket(t) => quoted(
            t,
            "': a bracketed address must be closed with ']'"@,
        ),
        TargetFault::TrailingText(t) => quoted(
            t,
            "': expected ':' and a port specification after ']'"@,
        ),
        TargetFault::EmptyPorts(t) => quoted(
            t,
            "': the ':' is not followed by a port specification"@,
        ),
        TargetFault::Address(t, source) => quoted(t, "': "@ + ip::fault_message(source)),
        TargetFault::Ports(t, source) => quoted(t, "': "@ + port::fault_message(source)),
        TargetFault::NoHostLookup(t) => quoted(
            t,
            "': this is a hostname, and no host lookup was supplied to resolve it"@,
        ),
        TargetFault::MistypedAddress(t) => quoted(
            t,
            "': not a valid address, range or hostname"@,
        ),
        TargetFault::UnbracketedAddress(t) => quoted(
            t,
            "': not an address, and a hostname cannot contain ':'. An IPv6 target carrying ports must be bracketed, as in `[2001:db8::1]:443`"@,
        ),
        TargetFault::UnknownHost(t) => quoted(
            t,
            "': no address could be resolved for this name"@,
        ),
        TargetFault::ResolvedToNothing(t) => quoted(t, "': this named no addresses to scan"@),
    }
}

/// Writes a quoted text and what is said of it.
fn quote(t: &str, said: &str) -> (message: String)
    ensures
        message@ == quoted(t@, said@),
{
    let mut message = "'".to_owned();
    message.append(t);
    message.append(said);
    message
}

impl TargetParseError {
    /// What went wrong, and with what.
    pub fn to_string(&self) -> (message: String)
        ensures
            message@ == fault_message(self@),
    {
        match self {
            TargetParseError::Empty => "a target expression cannot be empty".to_owned(),
            TargetParseError::Blank(n, plural) => {
                let mut message = "a target of ".to_owned();
                text::push_decimal(&mut message, *n as u128);
                message.append(" space");
                message.append(*plural);
                message.append("; a stray '\\' in the shell?");
                message
            },
            TargetParseError::UnbalancedBracket(t) => quote(
                t.as_str(),
                "': a bracketed address must be closed with ']'",
            ),
            TargetParseError::TrailingText(t) => quote(
                t.as_str(),
                "': expected ':' and a port specification after ']'",
            ),
            TargetParseError::EmptyPorts(t) => quote(
                t.as_str(),
                "': the ':' is not followed by a port specification",
            ),
            TargetParseError::Address { expression, source } => {
                let mut said = "': ".to_owned();
                let why = source.to_string();
                said.append(why.as_str());
                quote(expression.as_str(), said.as_str())
            },
            TargetParseError::Ports { expression, source } => {
                let mut said = "': ".to_owned();
                let why = source.to_string();
                said.append(why.as_str());
                quote(expression.as_str(), said.as_str())
            },
            TargetParseError::NoHostLookup(t) => quote(
                t.as_str(),
                "': this is a hostname, and no host lookup was supplied to resolve it",
            ),
            TargetParseError::MistypedAddress(t) => quote(
                t.as_str(),
                "': not a valid address, range or hostname",
            ),
            TargetParseError::UnbracketedAddress(t) => quote(
                t.as_str(),
                "': not an address, and a hostname cannot contain ':'. An IPv6 target carrying ports must be bracketed, as in `[2001:db8::1]:443`",
            ),
            TargetParseError::UnknownHost(t) => quote(
                t.as_str(),
                "': no address could be resolved for this name",
            ),
            TargetParseError::ResolvedToNothing(t) => quote(
                t.as_str(),
                "': this named no addresses to scan",
            ),
        }
    }
}

// ---------------------------------------------------------------------------
// Where the ports begin
// ---------------------------------------------------------------------------

/// The two halves of a target expression.
#[verifier::ext_equal]
pub struct Halves {
    pub address: Seq<char>,
    pub ports: Option<Seq<char>>,
}

/// Which of the two empties a token is: nothing at all, or whitespace.
pub open spec fn blank_fault(token: Seq<char>) -> TargetFault {
    if token.len() == 0 {
        TargetFault::Empty
    } else if token.len() == 1 {
        TargetFault::Blank(1, ""@)
    } else {
        TargetFault::Blank(token.len() as int, "s"@)
    }
}

/// The halves of a token that starts with a bracket.
pub open spec fn bracketed(t: Seq<char>) -> Result<Halves, TargetFault> {
    let rest = t.skip(1);
    let close = text::upto(rest, ']');
    let (address, tail) = (rest.take(close), rest.skip(close + 1));
    if close >= rest.len() {
        Err(TargetFault::UnbalancedBracket(t))
    } else if address.len() == 0 {
        Err(TargetFault::Empty)
    } else if tail.len() == 0 {
        Ok(Halves { address, ports: None })
    } else if tail[0] != ':' {
        Err(TargetFault::TrailingText(t))
    } else if tail.len() == 1 {
        Err(TargetFault::EmptyPorts(t))
    } else {
        Ok(Halves { address, ports: Some(tail.skip(1)) })
    }
}

/// Whether the first colon of a token separates its halves: it is the only one,
/// or a dot stands before it.
pub open spec fn colon_separates(t: Seq<char>) -> bool {
    let colon = text::upto(t, ':');
    &&& colon < t.len()
    &&& text::upto(t, '.') < colon || text::upto(t.skip(colon + 1), ':') == t.skip(colon + 1).len()
}

/// The halves of a target expression, or what is wrong with it.
pub open spec fn halves_of(token: Seq<char>) -> Result<Halves, TargetFault> {
    let t = text::trimmed(token);
    let colon = text::upto(t, ':');
    if t.len() == 0 {
        Err(blank_fault(token))
    } else if t[0] == '[' {
        bracketed(t)
    } else if !colon_separates(t) {
        Ok(Halves { address: t, ports: None })
    } else if colon == 0 {
        Err(TargetFault::Empty)
    } else if colon + 1 == t.len() {
        Err(TargetFault::EmptyPorts(t))
    } else {
        Ok(Halves { address: t.take(colon), ports: Some(t.skip(colon + 1)) })
    }
}

/// The addresses an address half names, in order: its parts between commas,
/// trimmed, the blank ones left out.
pub open spec fn addresses_of(parts: Seq<Seq<char>>) -> Seq<Seq<char>>
    decreases parts.len(),
{
    if parts.len() == 0 {
        parts
    } else {
        let before = addresses_of(parts.drop_last());
        let last = text::trimmed(parts.last());
        if last.len() == 0 {
            before
        } else {
            before.push(last)
        }
    }
}

/// Texts, as what they say.
pub open spec fn texts(s: Seq<String>) -> Seq<Seq<char>> {
    s.map(|i: int, t: String| t@)
}

/// A target expression split into the part that says what and the part that says
/// where on it.
///
/// Borrows from the token it was parsed out of.
#[derive(Debug, Clone, Copy, PartialEq, Eq, Hash)]
pub struct TargetExpr<'a> {
    /// The address expression: a literal, a range, a CIDR block, a keyword or a
    /// hostname, carrying its `%zone` suffix if it had one. Brackets, if there
    /// were any, are stripped.
    pub address: &'a str,
    /// The port specification as written, if the expression carried one.
    pub ports: Option<&'a str>,
}

impl<'a> TargetExpr<'a> {
    /// The two halves.
    pub open spec fn halves(&self) -> Halves {
        Halves { address: self.address@, ports: text::said_by(self.ports) }
    }

    /// Splits one token.
    ///
    /// Surrounding whitespace is trimmed. The halves are not validated: this
    /// decides only where the boundary is, and both sides are checked by the
    /// grammars that own them when the expression is built into targets.
    pub fn parse(token: &'a str) -> (expr: Result<TargetExpr<'a>, TargetParseError>)
        ensures
            match (expr, halves_of(token@)) {
                (Ok(expr), Ok(halves)) => expr.halves() == halves,
                (Err(error), Err(fault)) => error@ == fault,
                _ => false,
            },
    {
        let chars = text::chars_of(token);
        let (from, to) = text::trim_ends(chars.as_slice());
        let t = slice_subrange(chars.as_slice(), from, to);
        let n: usize = t.len();
        if n == 0 {
            let spaces: usize = chars.len();
            return Err(
                if spaces == 0 {
                    TargetParseError::Empty
                } else if spaces == 1 {
                    TargetParseError::Blank(1, "")
                } else {
                    TargetParseError::Blank(spaces, "s")
                },
            );
        }
        if t[0] == '[' {
            let rest = slice_subrange(t, 1, n);
            assert(rest@ =~= t@.skip(1));
            let close: usize = match text::find(rest, ']') {
                Some(close) => close,
                None => {
                    return Err(TargetParseError::UnbalancedBracket(text::text_of(t)));
                },
            };
            let address = token.substring_char(from + 1, from + 1 + close);
            assert(address@ =~= rest@.take(close as int));
            let ghost tail = rest@.skip(close + 1);
            if close == 0 {
                return Err(TargetParseError::Empty);
            }
            if close + 2 == n {
                assert(tail.len() == 0);
                return Ok(TargetExpr { address, ports: None });
            }
            assert(tail[0] == t@[close + 2]);
            if t[close + 2] != ':' {
                return Err(TargetParseError::TrailingText(text::text_of(t)));
            }
            if close + 3 == n {
                return Err(TargetParseError::EmptyPorts(text::text_of(t)));
            }
            let ports = token.substring_char(from + close + 3, to);
            assert(ports@ =~= tail.skip(1));
            return Ok(TargetExpr { address, ports: Some(ports) });
        }
        let whole = token.substring_char(from, to);
        let colon: usize = match text::find(t, ':') {
            Some(colon) => colon,
            None => {
                return Ok(TargetExpr { address: whole, ports: None });
            },
        };
        let after = slice_subrange(t, colon + 1, n);
        assert(after@ =~= t@.skip(colon + 1));
        // A dot before the first colon settles it: no IPv6 address can have one.
        let dotted_first = match text::find(t, '.') {
            Some(dot) => dot < colon,
            None => false,
        };
        if !dotted_first && text::find(after, ':').is_some() {
            return Ok(TargetExpr { address: whole, ports: None });
        }
        if colon == 0 {
            return Err(TargetParseError::Empty);
        }
        if colon + 1 == n {
            return Err(TargetParseError::EmptyPorts(text::text_of(t)));
        }
        let address = token.substring_char(from, from + colon);
        let ports = token.substring_char(from + colon + 1, to);
        assert(address@ =~= t@.take(colon as int));
        assert(ports@ =~= t@.skip(colon + 1));
        Ok(TargetExpr { address, ports: Some(ports) })
    }

    /// The addresses the expression names, splitting the address half on commas.
    ///
    /// A comma is a separator in the address half and part of the specification
    /// in the port half: `192.0.2.1:80,443` is one host on two ports, while
    /// `192.0.2.1,192.0.2.2:80` is two hosts on one. Empty fields are skipped.
    pub fn addresses(&self) -> (addresses: Vec<String>)
        ensures
            texts(addresses@) == addresses_of(text::split_on(self.address@, seq![','])),
    {
        let comma: [char; 1] = [','];
        assert(comma@ =~= seq![',']);
        let chars = text::chars_of(self.address);
        let parts = text::split(chars.as_slice(), &comma);
        let ghost pieces = text::split_on(self.address@, seq![',']);
        let mut addresses: Vec<String> = Vec::new();
        let mut i: usize = 0;
        assert(pieces.take(0) =~= Seq::empty());
        assert(texts(addresses@) =~= Seq::empty());
        while i < parts.len()
            invariant
                text::pieces_of(parts@) == pieces,
                i <= parts@.len(),
                texts(addresses@) == addresses_of(pieces.take(i as int)),
            decreases parts@.len() - i,
        {
            let ghost was = addresses@;
            let part = text::trim(parts[i].as_slice());
            proof {
                assert(pieces[i as int] == parts@[i as int]@);
                assert(pieces.take(i + 1).drop_last() =~= pieces.take(i as int));
                assert(pieces.take(i + 1).last() == pieces[i as int]);
            }
            if part.len() > 0 {
                let address = text::text_of(part);
                addresses.push(address);
                assert(texts(addresses@) =~= texts(was).push(address@));
            }
            i = i + 1;
        }
        assert(pieces.take(i as int) =~= pieces);
        addresses
    }
}

/// An IPv6 address is never split at its own colons: a token with two or more
/// colons, no dot before them and no bracket is an address whole.
pub proof fn lemma_an_ipv6_address_is_never_split(token: Seq<char>)
    requires
        ({
            let t = text::trimmed(token);
            let colon = text::upto(t, ':');
            &&& t.len() > 0
            &&& t[0] != '['
            &&& text::holds(t, ':')
            &&& text::holds(t.skip(colon + 1), ':')
            &&& text::upto(t, '.') >= colon
        }),
    ensures
        halves_of(token) == Ok::<Halves, TargetFault>(
            Halves { address: text::trimmed(token), ports: None },
        ),
{
    let t = text::trimmed(token);
    let colon = text::upto(t, ':');
    text::lemma_upto(t, ':');
    let after = t.skip(colon + 1);
    text::lemma_upto(after, ':');
    let i = choose|i: int| 0 <= i < after.len() && after[i] == ':';
    assert(after[i] == ':');
}

// ---------------------------------------------------------------------------
// Whether a token is worth looking up as a name
// ---------------------------------------------------------------------------

/// Whether Unicode gives a character its `Alphabetic` property.
pub uninterp spec fn alphabetic(c: char) -> bool;

/// Whether Unicode counts a character among numbers.
pub uninterp spec fn numeric(c: char) -> bool;

/// `char::is_alphabetic`: whether the character has Unicode's `Alphabetic`
/// property, which rests on the character alone. Which characters have it is not
/// said here.
pub assume_specification[ char::is_alphabetic ](c: char) -> (result: bool)
    ensures
        result == alphabetic(c),
;

/// `char::is_numeric`: whether the character is in one of Unicode's general
/// categories for numbers, which rests on the character alone. Which characters
/// are is not said here.
pub assume_specification[ char::is_numeric ](c: char) -> (result: bool)
    ensures
        result == numeric(c),
;

/// Whether a character is a letter: an ASCII one, or one Unicode calls
/// alphabetic.
pub open spec fn is_letter(c: char) -> bool {
    if (c as u32) < 0x80 {
        'a' <= c <= 'z' || 'A' <= c <= 'Z'
    } else {
        alphabetic(c)
    }
}

/// Whether a character is a digit: an ASCII one, or one Unicode counts among
/// numbers.
pub open spec fn is_digit(c: char) -> bool {
    if (c as u32) < 0x80 {
        '0' <= c <= '9'
    } else {
        numeric(c)
    }
}

/// Whether a character may stand in a host name.
pub open spec fn is_name_character(c: char) -> bool {
    is_letter(c) || is_digit(c) || c == '-' || c == '_' || c == '.'
}

fn letter(c: char) -> (result: bool)
    ensures
        result == is_letter(c),
{
    if (c as u32) < 0x80 {
        ('a' <= c && c <= 'z') || ('A' <= c && c <= 'Z')
    } else {
        c.is_alphabetic()
    }
}

fn name_character(c: char) -> (result: bool)
    ensures
        result == is_name_character(c),
{
    letter(c) || (if (c as u32) < 0x80 {
        '0' <= c && c <= '9'
    } else {
        c.is_numeric()
    }) || c == '-' || c == '_' || c == '.'
}

/// Where the part after the last of a character starts, or 0 where there is none.
pub open spec fn after_last(s: Seq<char>, c: char) -> int
    decreases s.len(),
{
    if s.len() == 0 {
        0
    } else if s.last() == c {
        s.len() as int
    } else {
        after_last(s.drop_last(), c)
    }
}

/// Where the part after the last of a character starts.
fn find_after_last(s: &[char], c: char) -> (at: usize)
    ensures
        at == after_last(s@, c),
        at <= s@.len(),
{
    let mut at: usize = s.len();
    assert(s@.take(at as int) =~= s@);
    while at > 0
        invariant
            at <= s@.len(),
            after_last(s@.take(at as int), c) == after_last(s@, c),
        decreases at,
    {
        if s[at - 1] == c {
            return at;
        }
        assert(s@.take(at as int).drop_last() =~= s@.take(at - 1));
        at = at - 1;
    }
    at
}

/// The last label of a name, without the one trailing dot a fully qualified name
/// is written with.
pub open spec fn last_label(token: Seq<char>) -> Seq<char> {
    let name = if token.len() > 0 && token.last() == '.' {
        token.drop_last()
    } else {
        token
    };
    name.skip(after_last(name, '.'))
}

/// What a token the address grammar refused is.
#[derive(Debug, Clone, Copy, PartialEq, Eq, Structural)]
pub enum HostName {
    /// Worth resolving.
    Yes,
    /// An IPv6 address and ports, written without brackets.
    Unbracketed,
    /// Shaped like no name: an address or a range with a mistake in it.
    Mistyped,
}

/// Whether a token is shaped like a host name: letters, digits, `-`, `_` and dots,
/// with a letter in its last label.
pub open spec fn shaped_like_a_name(token: Seq<char>) -> bool {
    &&& forall|i: int| 0 <= i < token.len() ==> is_name_character(#[trigger] token[i])
    &&& exists|i: int| 0 <= i < last_label(token).len() && is_letter(#[trigger] last_label(token)[i])
}

/// What a token the address grammar refused is: one with a colon is no name, and
/// wanted brackets where a port specification follows the last of them.
pub open spec fn shape_of(token: Seq<char>) -> HostName {
    if after_last(token, ':') > 0 {
        if port::ports_of(token.skip(after_last(token, ':'))) is Ok {
            HostName::Unbracketed
        } else {
            HostName::Mistyped
        }
    } else if shaped_like_a_name(token) {
        HostName::Yes
    } else {
        HostName::Mistyped
    }
}

/// Whether a token the address grammar refused is worth looking up as a host name,
/// and if not, what it is instead.
///
/// The rule is drawn from the name's side because the typos are open-ended and the
/// names are not: `10.10.10.*`, `10.10.1-5.1-254`, `10.10.10.0/` and `/0` fail in
/// four different ways, and a lookup handed one does not refuse it.
pub fn host_name(token: &str) -> (shape: HostName)
    ensures
        shape == shape_of(token@),
{
    let chars = text::chars_of(token);
    let s = chars.as_slice();
    let n: usize = s.len();
    let after: usize = find_after_last(s, ':');
    if after > 0 {
        let tail = slice_subrange(s, after, n);
        assert(tail@ =~= token@.skip(after as int));
        let written = text::text_of(tail);
        return if PortSet::try_from(written.as_str()).is_ok() {
            HostName::Unbracketed
        } else {
            HostName::Mistyped
        };
    }
    let mut i: usize = 0;
    while i < n
        invariant
            n == s@.len(),
            s@ == token@,
            after_last(token@, ':') == 0,
            i <= n,
            forall|j: int| 0 <= j < i ==> is_name_character(#[trigger] token@[j]),
        decreases n - i,
    {
        if !name_character(s[i]) {
            return HostName::Mistyped;
        }
        i = i + 1;
    }
    let end: usize = if n > 0 && s[n - 1] == '.' {
        n - 1
    } else {
        n
    };
    let name = slice_subrange(s, 0, end);
    let label = slice_subrange(name, find_after_last(name, '.'), end);
    proof {
        if n > 0 && s@[n - 1] == '.' {
            assert(name@ =~= token@.drop_last());
        } else {
            assert(name@ =~= token@);
        }
        assert(label@ =~= last_label(token@));
    }
    let m: usize = label.len();
    let mut k: usize = 0;
    while k < m
        invariant
            label@ == last_label(token@),
            m == label@.len(),
            after_last(token@, ':') == 0,
            forall|j: int| 0 <= j < token@.len() ==> is_name_character(#[trigger] token@[j]),
            k <= m,
            forall|j: int| 0 <= j < k ==> !is_letter(#[trigger] label@[j]),
        decreases m - k,
    {
        if letter(label[k]) {
            assert(is_letter(last_label(token@)[k as int]));
            return HostName::Yes;
        }
        k = k + 1;
    }
    HostName::Mistyped
}

// ---------------------------------------------------------------------------
// The answers an expression may need
// ---------------------------------------------------------------------------

/// The addresses a lookup gave for a host name.
#[derive(Debug)]
pub struct HostAnswer {
    /// The name.
    pub name: String,
    /// What it stands for. None is the same as no answer: there is nothing to
    /// scan under that name.
    pub addresses: Vec<IpAddr>,
}

/// The answers a target expression may need, none of which this module can find
/// for itself.
///
/// An expression that needs one the caller did not supply is refused rather than
/// guessed at: resolving `lan`, `%en0` or a hostname means reading the host this
/// process runs on.
#[must_use]
#[non_exhaustive]
#[derive(Debug, Clone, Copy)]
pub struct TargetContext<'a> {
    /// What keywords such as `lan` stand for.
    pub keywords: &'a [Expansion],
    /// Which interface the `%interface` suffix on a link-local address names.
    pub zones: &'a [Interface],
    /// What hostnames stand for, or `None` where none was looked up.
    pub hosts: Option<&'a [HostAnswer]>,
}

/// The answers a context gives.
#[verifier::ext_equal]
pub struct Answers {
    pub keywords: Seq<Expansion>,
    pub zones: Seq<Interface>,
    pub hosts: Option<Seq<HostAnswer>>,
}

impl View for TargetContext<'_> {
    type V = Answers;

    open spec fn view(&self) -> Answers {
        Answers {
            keywords: self.keywords@,
            zones: self.zones@,
            hosts: match self.hosts {
                Some(hosts) => Some(hosts@),
                None => None,
            },
        }
    }
}

/// No answers at all.
pub open spec fn no_answers() -> Answers {
    Answers { keywords: Seq::empty(), zones: Seq::empty(), hosts: None }
}

impl<'a> TargetContext<'a> {
    /// A context that can answer nothing: literal addresses, ranges and CIDR
    /// blocks only.
    pub fn new() -> (ctx: Self)
        ensures
            ctx@ == no_answers(),
    {
        let ctx = TargetContext { keywords: &[], zones: &[], hosts: None };
        assert(ctx@ =~= no_answers());
        ctx
    }

    /// Sets what keywords stand for.
    pub fn with_keywords(self, keywords: &'a [Expansion]) -> (ctx: Self)
        ensures
            ctx@ == (Answers { keywords: keywords@, ..self@ }),
    {
        TargetContext { keywords, zones: self.zones, hosts: self.hosts }
    }

    /// Sets which interfaces names name.
    pub fn with_zones(self, zones: &'a [Interface]) -> (ctx: Self)
        ensures
            ctx@ == (Answers { zones: zones@, ..self@ }),
    {
        TargetContext { keywords: self.keywords, zones, hosts: self.hosts }
    }

    /// Sets what hostnames stand for.
    pub fn with_hosts(self, hosts: &'a [HostAnswer]) -> (ctx: Self)
        ensures
            ctx@ == (Answers { hosts: Some(hosts@), ..self@ }),
    {
        TargetContext { keywords: self.keywords, zones: self.zones, hosts: Some(hosts) }
    }
}

impl Default for TargetContext<'_> {
    fn default() -> (ctx: Self)
        ensures
            ctx@ == no_answers(),
    {
        Self::new()
    }
}

/// The addresses the first answer for a name gives.
pub open spec fn addresses_for(hosts: Seq<HostAnswer>, name: Seq<char>) -> Seq<IpAddr>
    decreases hosts.len(),
{
    if hosts.len() == 0 {
        Seq::empty()
    } else if hosts[0].name@ == name {
        hosts[0].addresses@
    } else {
        addresses_for(hosts.drop_first(), name)
    }
}

/// What a host name stands for.
pub open spec fn host_meant(name: Seq<char>, hosts: Option<Seq<HostAnswer>>) -> Result<
    Meaning,
    TargetFault,
> {
    match shape_of(name) {
        HostName::Unbracketed => Err(TargetFault::UnbracketedAddress(name)),
        HostName::Mistyped => Err(TargetFault::MistypedAddress(name)),
        HostName::Yes => match hosts {
            None => Err(TargetFault::NoHostLookup(name)),
            Some(hosts) => {
                let addresses = addresses_for(hosts, name);
                if addresses.len() == 0 {
                    Err(TargetFault::UnknownHost(name))
                } else {
                    Ok(
                        Meaning {
                            held: Set::new(
                                |p: (IpAddr, Option<u32>)| addresses.contains(p.0) && p.1 is None,
                            ),
                            gross: addresses.len() as int,
                        },
                    )
                }
            },
        },
    }
}

/// What one address of an expression stands for: an address expression, or a name
/// where it is none.
pub open spec fn address_meant(
    token: Seq<char>,
    address: Seq<char>,
    ctx: Answers,
) -> Result<Meaning, TargetFault> {
    match ip::meant(address, ctx.keywords, ctx.zones) {
        Ok(meaning) => Ok(meaning),
        Err(ParseFault::Malformed(_)) => host_meant(address, ctx.hosts),
        Err(fault) => Err(TargetFault::Address(text::trimmed(token), fault)),
    }
}

/// What the addresses of an expression stand for together, or the first fault
/// among them.
pub open spec fn addresses_meant(
    token: Seq<char>,
    addresses: Seq<Seq<char>>,
    ctx: Answers,
) -> Result<Meaning, TargetFault>
    decreases addresses.len(),
{
    if addresses.len() == 0 {
        Ok(Meaning { held: Set::empty(), gross: 0 })
    } else {
        match addresses_meant(token, addresses.drop_last(), ctx) {
            Err(fault) => Err(fault),
            Ok(meaning) => match address_meant(token, addresses.last(), ctx) {
                Ok(more) => Ok(ip::both_meant(meaning, more)),
                Err(fault) => Err(fault),
            },
        }
    }
}

/// A target: the ports to ask and what to ask them of.
#[verifier::ext_equal]
pub struct Target {
    pub ports: Ports,
    pub meaning: Meaning,
}

/// The ports an expression is asked on.
pub open spec fn ports_meant(token: Seq<char>, named: Option<Seq<char>>, default: Ports) -> Result<
    Ports,
    TargetFault,
> {
    match named {
        None => Ok(default),
        Some(spec) => match port::scanned_ports_of(spec) {
            Ok(ports) => Ok(ports),
            Err(fault) => Err(TargetFault::Ports(text::trimmed(token), fault)),
        },
    }
}

/// What a target expression stands for, or why it stands for nothing.
pub open spec fn target_meant(token: Seq<char>, default: Ports, ctx: Answers) -> Result<
    Target,
    TargetFault,
> {
    match halves_of(token) {
        Err(fault) => Err(fault),
        Ok(halves) => match ports_meant(token, halves.ports, default) {
            Err(fault) => Err(fault),
            Ok(ports) => match addresses_meant(
                token,
                addresses_of(text::split_on(halves.address, seq![','])),
                ctx,
            ) {
                Err(fault) => Err(fault),
                Ok(meaning) => if meaning.held == Set::<(IpAddr, Option<u32>)>::empty() {
                    Err(TargetFault::ResolvedToNothing(text::trimmed(token)))
                } else {
                    Ok(Target { ports, meaning })
                },
            },
        },
    }
}

/// Whether some answers are for a host name.
pub open spec fn answer_host(hosts: Seq<HostAnswer>, name: Seq<char>) -> bool {
    exists|i: int| 0 <= i < hosts.len() && (#[trigger] hosts[i]).name@ == name
}

/// Whether an answer was given for a host name.
pub open spec fn host_answered(hosts: Option<Seq<HostAnswer>>, name: Seq<char>) -> bool {
    hosts is Some && answer_host(hosts->0, name)
}

/// Which answer one address of an expression still needs: the one its form asks for,
/// and what a host name stands for once it has turned out to be none.
#[verifier::opaque]
pub open spec fn address_needed(address: Seq<char>, ctx: Answers) -> Needed {
    if !(ip::still_needed(address, ctx.keywords, ctx.zones) is Nothing) {
        ip::still_needed(address, ctx.keywords, ctx.zones)
    } else {
        match ip::meant(address, ctx.keywords, ctx.zones) {
            Err(ParseFault::Malformed(_)) => if shape_of(address) is Yes && !host_answered(
                ctx.hosts,
                address,
            ) {
                Needed::Host(address)
            } else {
                Needed::Nothing
            },
            _ => Needed::Nothing,
        }
    }
}

/// Which answer the addresses of an expression need next. What stands after a
/// refused one needs none.
pub open spec fn addresses_need(
    token: Seq<char>,
    addresses: Seq<Seq<char>>,
    ctx: Answers,
) -> Needed
    decreases addresses.len(),
{
    if addresses.len() == 0 {
        Needed::Nothing
    } else if !(address_needed(addresses[0], ctx) is Nothing) {
        address_needed(addresses[0], ctx)
    } else if address_meant(token, addresses[0], ctx) is Err {
        Needed::Nothing
    } else {
        addresses_need(token, addresses.drop_first(), ctx)
    }
}

/// Which answer a target expression needs next, where some have been given. One
/// whose halves or ports are refused needs none.
pub open spec fn target_needed(token: Seq<char>, ctx: Answers) -> Needed {
    match halves_of(token) {
        Err(_) => Needed::Nothing,
        Ok(halves) => if ports_meant(token, halves.ports, Set::empty()) is Err {
            Needed::Nothing
        } else {
            addresses_need(token, addresses_of(text::split_on(halves.address, seq![','])), ctx)
        },
    }
}

/// Which answer `token` needs next before [`TargetMapBuilder::push`] can read it,
/// where some have been given.
///
/// Asked for in the order the addresses are written in, and only as far as the first
/// that is refused: nothing is looked up for an expression that is not going to be
/// scanned.
pub fn next_need(token: &str, ctx: &TargetContext<'_>) -> (need: Need)
    ensures
        need@ == target_needed(token@, ctx@),
{
    let expr = match TargetExpr::parse(token) {
        Ok(expr) => expr,
        Err(_) => {
            return Need::Nothing;
        },
    };
    match expr.ports {
        Some(spec) => if PortSet::parse_scan(spec).is_err() {
            return Need::Nothing;
        },
        None => {},
    }
    let addresses = expr.addresses();
    addresses_needs(token, &addresses, ctx)
}

/// Which answer the addresses of an expression need next.
fn addresses_needs(token: &str, addresses: &Vec<String>, ctx: &TargetContext<'_>) -> (need: Need)
    ensures
        need@ == addresses_need(token@, texts(addresses@), ctx@),
{
    let ghost all = texts(addresses@);
    let mut i: usize = 0;
    assert(all.skip(0) =~= all);
    while i < addresses.len()
        invariant
            all == texts(addresses@),
            i <= addresses@.len(),
            addresses_need(token@, all, ctx@) == addresses_need(token@, all.skip(i as int), ctx@),
        decreases addresses@.len() - i,
    {
        let address = addresses[i].as_str();
        proof {
            assert(all.skip(i as int)[0] == address@);
            assert(all.skip(i as int).drop_first() =~= all.skip(i + 1));
        }
        let need = address_needs(address, ctx);
        if !matches!(need, Need::Nothing) {
            return need;
        }
        if is_refused(token, address, ctx) {
            return Need::Nothing;
        }
        i = i + 1;
    }
    Need::Nothing
}

/// Whether one address of an expression is refused.
fn is_refused(token: &str, address: &str, ctx: &TargetContext<'_>) -> (refused: bool)
    ensures
        refused == (address_meant(token@, address@, ctx@) is Err),
{
    let mut set = IpSet::new();
    resolve_one(token, address, &mut set, ctx).is_err()
}

/// Whether an answer was given for a host name.
fn is_host_answered(hosts: &[HostAnswer], name: &str) -> (answered: bool)
    ensures
        answered == answer_host(hosts@, name@),
{
    let mut i: usize = 0;
    while i < hosts.len()
        invariant
            i <= hosts@.len(),
            forall|j: int| 0 <= j < i ==> (#[trigger] hosts@[j]).name@ != name@,
        decreases hosts@.len() - i,
    {
        if text::same_text(hosts[i].name.as_str(), name) {
            return true;
        }
        i = i + 1;
    }
    false
}

/// Which answer one address of an expression still needs.
fn address_needs(address: &str, ctx: &TargetContext<'_>) -> (need: Need)
    ensures
        need@ == address_needed(address@, ctx@),
{
    proof {
        reveal(address_needed);
    }
    let need = ip::still_needs(address, ctx.keywords, ctx.zones);
    if !matches!(need, Need::Nothing) {
        return need;
    }
    let mut set = IpSet::new();
    match ip::insert_expression(address, &mut set, ctx.keywords, ctx.zones) {
        Err(IpParseError::Malformed(_)) => {},
        _ => {
            return Need::Nothing;
        },
    }
    match host_name(address) {
        HostName::Yes => match ctx.hosts {
            Some(hosts) if is_host_answered(hosts, address) => Need::Nothing,
            _ => Need::Host(address.to_owned()),
        },
        _ => Need::Nothing,
    }
}

/// Whether answers hold every answer that others do, and perhaps more.
pub open spec fn answers_more(ctx: Answers, more: Answers) -> bool {
    &&& ip::answers_more(ctx.keywords, ctx.zones, more.keywords, more.zones)
    &&& forall|name: Seq<char>| #[trigger]
        host_answered(ctx.hosts, name) ==> more.hosts is Some && addresses_for(more.hosts->0, name)
            == addresses_for(ctx.hosts->0, name)
}

/// One address is decided once nothing more is needed for it.
proof fn lemma_an_answered_address_is_decided(
    token: Seq<char>,
    address: Seq<char>,
    ctx: Answers,
    more: Answers,
)
    requires
        address_needed(address, ctx) is Nothing,
        answers_more(ctx, more),
    ensures
        address_meant(token, address, ctx) == address_meant(token, address, more),
{
    reveal(address_needed);
    ip::lemma_an_answered_expression_is_decided(
        address,
        ctx.keywords,
        ctx.zones,
        more.keywords,
        more.zones,
    );
    if host_answered(ctx.hosts, address) {
        assert(host_meant(address, ctx.hosts) == host_meant(address, more.hosts));
    }
}

proof fn lemma_addresses_in_turn(
    token: Seq<char>,
    first: Seq<char>,
    rest: Seq<Seq<char>>,
    ctx: Answers,
)
    ensures
        addresses_meant(token, seq![first] + rest, ctx) == match address_meant(token, first, ctx) {
            Err(fault) => Err(fault),
            Ok(meaning) => match addresses_meant(token, rest, ctx) {
                Err(fault) => Err(fault),
                Ok(more) => Ok(ip::both_meant(meaning, more)),
            },
        },
    decreases rest.len(),
{
    let all = seq![first] + rest;
    if rest.len() == 0 {
        assert(all =~= seq![first]);
        assert(all.drop_last() =~= Seq::empty());
        reveal_with_fuel(addresses_meant, 2);
        match address_meant(token, first, ctx) {
            Ok(meaning) => {
                let nothing = Meaning { held: Set::empty(), gross: 0 };
                assert(ip::both_meant(nothing, meaning) =~= meaning);
                assert(ip::both_meant(meaning, nothing) =~= meaning);
            },
            Err(_) => {},
        }
    } else {
        lemma_addresses_in_turn(token, first, rest.drop_last(), ctx);
        assert(all.drop_last() =~= seq![first] + rest.drop_last());
        match (
            address_meant(token, first, ctx),
            addresses_meant(token, rest.drop_last(), ctx),
            address_meant(token, rest.last(), ctx),
        ) {
            (Ok(a), Ok(b), Ok(c)) => {
                assert(ip::both_meant(ip::both_meant(a, b), c) =~= ip::both_meant(
                    a,
                    ip::both_meant(b, c),
                ));
            },
            _ => {},
        }
    }
}

proof fn lemma_answered_addresses_are_decided(
    token: Seq<char>,
    addresses: Seq<Seq<char>>,
    ctx: Answers,
    more: Answers,
)
    requires
        addresses_need(token, addresses, ctx) is Nothing,
        answers_more(ctx, more),
    ensures
        addresses_meant(token, addresses, ctx) == addresses_meant(token, addresses, more),
    decreases addresses.len(),
{
    if addresses.len() > 0 {
        let rest = addresses.drop_first();
        assert(seq![addresses[0]] + rest =~= addresses);
        lemma_addresses_in_turn(token, addresses[0], rest, ctx);
        lemma_addresses_in_turn(token, addresses[0], rest, more);
        lemma_an_answered_address_is_decided(token, addresses[0], ctx, more);
        if address_meant(token, addresses[0], ctx) is Ok {
            lemma_answered_addresses_are_decided(token, rest, ctx, more);
        }
    }
}

/// An expression is decided once nothing more is needed: no keyword, interface or
/// host answer beyond those asked for is read, and none changes what the expression
/// stands for.
pub proof fn lemma_only_the_answers_asked_for_are_read(
    token: Seq<char>,
    default: Ports,
    ctx: Answers,
    more: Answers,
)
    requires
        target_needed(token, ctx) is Nothing,
        answers_more(ctx, more),
    ensures
        target_meant(token, default, ctx) == target_meant(token, default, more),
{
    match halves_of(token) {
        Ok(halves) => {
            if ports_meant(token, halves.ports, default) is Ok {
                lemma_answered_addresses_are_decided(
                    token,
                    addresses_of(text::split_on(halves.address, seq![','])),
                    ctx,
                    more,
                );
            }
        },
        Err(_) => {},
    }
}

// ---------------------------------------------------------------------------
// Building a map
// ---------------------------------------------------------------------------

/// How many expressions [`TargetMapBuilder`] watches before it will judge the
/// shape of its input. The judgement is made from then on and never revised.
pub const GROUPING_SAMPLE: usize = 1_024;

/// How little regrouping [`TargetMapBuilder`] will put up with before it stops
/// looking for a group: fewer than one expression in this many joining a group
/// that already existed.
pub const MIN_REGROUPED_SHARE: usize = 16;

/// What a builder has accumulated.
#[verifier::ext_equal]
pub struct Building {
    /// The ports an expression that names none is scanned on.
    pub default: Ports,
    /// The groups, in the order their port specification was first seen.
    pub groups: Seq<Unit>,
    /// Whether an expression still joins the group of its ports.
    pub grouping: bool,
    /// How many expressions were accepted.
    pub accepted: int,
    /// How many addresses were named, counting one each time it was.
    pub gross: int,
}

/// Which group is scanned on some ports, or how many there are where none is.
pub open spec fn group_of(groups: Seq<Unit>, ports: Ports) -> int
    decreases groups.len(),
{
    if groups.len() == 0 || groups[0].ports == ports {
        0
    } else {
        1 + group_of(groups.drop_first(), ports)
    }
}

/// The groups once a target has joined them: the group of its ports while targets
/// are grouped, and one of its own otherwise.
pub open spec fn joined(groups: Seq<Unit>, grouping: bool, target: Target) -> Seq<Unit> {
    let at = group_of(groups, target.ports);
    if grouping && at < groups.len() {
        groups.update(
            at,
            Unit { ips: groups[at].ips.union(target.meaning.held), ports: target.ports },
        )
    } else {
        groups.push(Unit { ips: target.meaning.held, ports: target.ports })
    }
}

/// What has accumulated once a target has been accepted.
pub open spec fn accepted(b: Building, target: Target) -> Building {
    let groups = joined(b.groups, b.grouping, target);
    let count = b.accepted + 1;
    Building {
        default: b.default,
        groups,
        grouping: b.grouping && (count < GROUPING_SAMPLE || (count - groups.len())
            * MIN_REGROUPED_SHARE >= count),
        accepted: count,
        gross: range::saturated(b.gross + target.meaning.gross) as int,
    }
}

/// What has accumulated once an expression has been offered: nothing changes where
/// it is refused.
pub open spec fn offered(b: Building, token: Seq<char>, ctx: Answers) -> Building {
    match target_meant(token, b.default, ctx) {
        Ok(target) => accepted(b, target),
        Err(_) => b,
    }
}

/// Accumulates target expressions into a [`TargetMap`], one unit per distinct port
/// specification for as long as that is worth doing.
///
/// Built incrementally, so an importer can stream a file of any size through it
/// and a caller can decide for itself what to do with an expression that is
/// refused.
#[derive(Debug)]
pub struct TargetMapBuilder {
    default_ports: PortSet,
    groups: Vec<(PortSet, IpSet)>,
    /// Where the group of each port specification is, while expressions are grouped: a
    /// scan of the groups for each expression would cost the square of their number.
    index: Option<Index>,
    accepted: usize,
    gross_addresses: u128,
}

/// Groups, as what they name.
spec fn units(groups: Seq<(PortSet, IpSet)>) -> Seq<Unit> {
    groups.map(|i: int, group: (PortSet, IpSet)| Unit { ips: group.1@, ports: group.0@ })
}

impl View for TargetMapBuilder {
    type V = Building;

    closed spec fn view(&self) -> Building {
        Building {
            default: self.default_ports@,
            groups: units(self.groups@),
            grouping: self.index is Some,
            accepted: self.accepted as int,
            gross: self.gross_addresses as int,
        }
    }
}

/// Whether an index says of every group where it is, and nothing else.
spec fn indexes(index: Map<Seq<u64>, usize>, groups: Seq<Unit>) -> bool {
    &&& forall|i: int|
        0 <= i < groups.len() ==> index.dom().contains(
            port::numbers_of((#[trigger] groups[i]).ports),
        ) && index[port::numbers_of(groups[i].ports)] == i
    &&& forall|numbers: Seq<u64>| #[trigger]
        index.dom().contains(numbers) ==> index[numbers] < groups.len() && port::numbers_of(
            groups[index[numbers] as int].ports,
        ) == numbers
}

/// Whether the ports of every group are a set that can be written down.
spec fn all_written(groups: Seq<Unit>) -> bool {
    forall|i: int| 0 <= i < groups.len() ==> port::is_written((#[trigger] groups[i]).ports)
}

/// The index finds the group of some ports.
proof fn lemma_index_finds_the_group(index: Map<Seq<u64>, usize>, groups: Seq<Unit>, ports: Ports)
    requires
        indexes(index, groups),
        all_written(groups),
        port::is_written(ports),
    ensures
        group_of(groups, ports) == if index.dom().contains(port::numbers_of(ports)) {
            index[port::numbers_of(ports)] as int
        } else {
            groups.len() as int
        },
{
    lemma_group_of(groups, ports);
    let numbers = port::numbers_of(ports);
    let at = group_of(groups, ports);
    if at < groups.len() {
        assert(groups[at].ports == ports);
    }
    if index.dom().contains(numbers) {
        let slot = index[numbers] as int;
        assert(port::is_written(groups[slot].ports));
        port::lemma_numbers_tell_ports_apart(groups[slot].ports, ports);
        if at > slot {
            assert(groups[slot].ports != ports);
        }
    }
}

impl Clone for TargetMapBuilder {
    fn clone(&self) -> (builder: Self)
        ensures
            builder@ == self@,
    {
        proof {
            use_type_invariant(self);
        }
        let ghost all = units(self.groups@);
        let mut groups: Vec<(PortSet, IpSet)> = Vec::new();
        let mut index = Index::new();
        let mut i: usize = 0;
        while i < self.groups.len()
            invariant
                all == units(self.groups@),
                all_written(all),
                i <= self.groups@.len(),
                groups@.len() == i,
                forall|j: int|
                    0 <= j < i ==> (#[trigger] groups@[j]).0@ == self.groups@[j].0@
                        && groups@[j].1@ == self.groups@[j].1@,
                self.index is Some ==> indexes(self.index->0@, all),
                self.index is Some ==> indexes(index@, all.take(i as int)),
            decreases self.groups@.len() - i,
        {
            let group = &self.groups[i];
            groups.push((group.0.clone(), group.1.clone()));
            let numbers = group.0.numbers();
            proof {
                assert(all[i as int].ports == group.0@);
                assert(all.take(i + 1) =~= all.take(i as int).push(all[i as int]));
                if self.index is Some {
                    assert(!index@.dom().contains(numbers@)) by {
                        if index@.dom().contains(numbers@) {
                            let slot = index@[numbers@] as int;
                            assert(all.take(i as int)[slot] == all[slot]);
                            assert(self.index->0@[port::numbers_of(all[slot].ports)] == slot);
                        }
                    }
                    lemma_one_group_more(index@, all.take(i as int), all[i as int]);
                }
            }
            index.insert(numbers.as_slice(), i);
            i = i + 1;
        }
        proof {
            assert(all.take(i as int) =~= all);
            assert(units(groups@) =~= all);
        }
        let index = match &self.index {
            Some(_) => Some(index),
            None => None,
        };
        TargetMapBuilder {
            default_ports: self.default_ports.clone(),
            groups,
            index,
            accepted: self.accepted,
            gross_addresses: self.gross_addresses,
        }
    }
}

/// An index that is told where one group more is says where every group is.
proof fn lemma_one_group_more(index: Map<Seq<u64>, usize>, groups: Seq<Unit>, unit: Unit)
    requires
        indexes(index, groups),
        !index.dom().contains(port::numbers_of(unit.ports)),
        groups.len() <= usize::MAX,
    ensures
        indexes(
            index.insert(port::numbers_of(unit.ports), groups.len() as usize),
            groups.push(unit),
        ),
{
    let numbers = port::numbers_of(unit.ports);
    let (told, all) = (index.insert(numbers, groups.len() as usize), groups.push(unit));
    assert forall|i: int| 0 <= i < all.len() implies told.dom().contains(
        port::numbers_of((#[trigger] all[i]).ports),
    ) && told[port::numbers_of(all[i].ports)] == i by {
        if i < groups.len() {
            assert(all[i] == groups[i]);
            assert(index.dom().contains(port::numbers_of(groups[i].ports)));
        }
    }
    assert forall|other: Seq<u64>| #[trigger] told.dom().contains(other) implies told[other]
        < all.len() && port::numbers_of(all[told[other] as int].ports) == other by {
        if other != numbers {
            assert(index.dom().contains(other));
            assert(all[index[other] as int] == groups[index[other] as int]);
        }
    }
}

/// How many addresses some groups hold, as far as can be counted.
pub open spec fn addresses_held(groups: Seq<Unit>) -> int
    decreases groups.len(),
{
    if groups.len() == 0 {
        0
    } else {
        range::saturated(
            addresses_held(groups.drop_last()) + range::saturated(groups.last().ips.len() as int),
        ) as int
    }
}

impl TargetMapBuilder {
    /// No more groups than expressions, every group holds something, and the index says
    /// where each is.
    #[verifier::type_invariant]
    spec fn is_sound(self) -> bool {
        &&& self.groups@.len() <= self.accepted
        &&& all_written(units(self.groups@))
        &&& self.index is Some ==> indexes(self.index->0@, units(self.groups@))
        &&& forall|i: int|
            0 <= i < self.groups@.len() ==> (#[trigger] self.groups@[i]).1@ != Set::<
                (IpAddr, Option<u32>),
            >::empty()
    }

    /// Starts a builder whose expressions take `default_ports` when they name no
    /// ports of their own.
    pub fn new(default_ports: PortSet) -> (builder: Self)
        ensures
            builder@ == (Building {
                default: default_ports@,
                groups: Seq::empty(),
                grouping: true,
                accepted: 0,
                gross: 0,
            }),
    {
        let builder = TargetMapBuilder {
            default_ports,
            groups: Vec::new(),
            index: Some(Index::new()),
            accepted: 0,
            gross_addresses: 0,
        };
        assert(builder@.groups =~= Seq::empty());
        builder
    }

    /// Parses one target expression and adds what it names.
    ///
    /// Nothing is added when the expression is refused, so a caller that logs the
    /// error and carries on ends up with exactly the targets that parsed.
    pub fn push(&mut self, token: &str, ctx: &TargetContext<'_>) -> (result: Result<
        (),
        TargetParseError,
    >)
        requires
            old(self)@.accepted < usize::MAX,
        ensures
            final(self)@ == offered(old(self)@, token@, ctx@),
            match (result, target_meant(token@, old(self)@.default, ctx@)) {
                (Ok(()), Ok(_)) => true,
                (Err(error), Err(fault)) => error@ == fault,
                _ => false,
            },
    {
        match self.read(token, ctx) {
            Ok((ports, resolved)) => {
                self.accept(ports, resolved);
                Ok(())
            },
            Err(error) => Err(error),
        }
    }

    /// What one expression names.
    fn read(&self, token: &str, ctx: &TargetContext<'_>) -> (target: Result<
        (PortSet, IpSet),
        TargetParseError,
    >)
        ensures
            match (target, target_meant(token@, self@.default, ctx@)) {
                (Ok((ports, ips)), Ok(meant)) => ports@ == meant.ports && ip::meaning_of(ips)
                    == meant.meaning && ips@ != Set::<(IpAddr, Option<u32>)>::empty(),
                (Err(error), Err(fault)) => error@ == fault,
                _ => false,
            },
    {
        let expr = match TargetExpr::parse(token) {
            Ok(expr) => expr,
            Err(error) => {
                return Err(error);
            },
        };
        let ports = match expr.ports {
            Some(spec) => match PortSet::parse_scan(spec) {
                Ok(ports) => ports,
                Err(source) => {
                    return Err(
                        TargetParseError::Ports { expression: text::trim_text(token), source },
                    );
                },
            },
            None => self.default_ports.clone(),
        };
        let addresses = expr.addresses();
        match resolve_all(token, &addresses, ctx) {
            Ok(resolved) => if resolved.is_empty() {
                Err(TargetParseError::ResolvedToNothing(text::trim_text(token)))
            } else {
                Ok((ports, resolved))
            },
            Err(error) => Err(error),
        }
    }

    /// Adds what one expression named.
    fn accept(&mut self, ports: PortSet, resolved: IpSet)
        requires
            old(self)@.accepted < usize::MAX,
            resolved@ != Set::<(IpAddr, Option<u32>)>::empty(),
        ensures
            final(self)@ == accepted(
                old(self)@,
                Target { ports: ports@, meaning: ip::meaning_of(resolved) },
            ),
    {
        proof {
            use_type_invariant(&*self);
        }
        let ghost target = Target { ports: ports@, meaning: ip::meaning_of(resolved) };
        let ghost before = self@;
        let gross: u128 = self.gross_addresses.saturating_add(resolved.len_gross());
        let count: usize = self.accepted + 1;
        let numbers = ports.numbers();
        let mut whole = TargetMapBuilder::new(PortSet::none());
        std::mem::swap(self, &mut whole);
        proof {
            use_type_invariant(&whole);
        }
        let TargetMapBuilder { default_ports, groups, index, .. } = whole;
        let mut groups: Vec<(PortSet, IpSet)> = groups;
        let mut index: Option<Index> = index;
        let ghost was = groups@;
        let at: usize = match &index {
            Some(index) => match index.get(numbers.as_slice()) {
                Some(at) => at,
                None => groups.len(),
            },
            None => groups.len(),
        };
        proof {
            if index is Some {
                lemma_index_finds_the_group(index->0@, units(was), ports@);
            }
        }
        if at < groups.len() {
            groups[at].1.absorb(&resolved);
            proof {
                assert(units(was)[at as int].ports == ports@) by {
                    lemma_group_of(units(was), ports@);
                }
                assert(units(groups@) =~= joined(before.groups, before.grouping, target));
                assert(groups@[at as int].1@.contains(resolved@.choose())) by {
                    lemma_nonempty(resolved@);
                }
                assert forall|i: int| 0 <= i < groups@.len() implies (#[trigger] groups@[i]).1@
                    != Set::<(IpAddr, Option<u32>)>::empty() by {
                    if i != at {
                        assert(groups@[i] == was[i]);
                    }
                }
                assert forall|i: int| 0 <= i < groups@.len() implies (#[trigger] units(
                    groups@,
                )[i]).ports == units(was)[i].ports by {}
            }
        } else {
            let unindexed = index;
            index = match unindexed {
                Some(known) => {
                    let mut known = known;
                    proof {
                        lemma_one_group_more(
                            known@,
                            units(was),
                            Unit { ips: resolved@, ports: ports@ },
                        );
                    }
                    known.insert(numbers.as_slice(), at);
                    Some(known)
                },
                None => None,
            };
            groups.push((ports, resolved));
            proof {
                assert(units(groups@) =~= joined(before.groups, before.grouping, target));
                assert(units(groups@) =~= units(was).push(
                    Unit { ips: resolved@, ports: ports@ },
                ));
            }
        }
        let held: usize = groups.len();
        let regrouped: u128 = (count - held) as u128;
        let share: u128 = MIN_REGROUPED_SHARE as u128;
        assert(regrouped * share == regrouped * 16 && regrouped * share <= u128::MAX)
            by (nonlinear_arith)
            requires
                share == 16,
                regrouped <= 0xffff_ffff_ffff_ffff,
        ;
        if count >= GROUPING_SAMPLE && regrouped * share < count as u128 {
            index = None;
        }
        *self = TargetMapBuilder {
            default_ports,
            groups,
            index,
            accepted: count,
            gross_addresses: gross,
        };
        proof {
            let after = accepted(before, target);
            assert(self@.groups == after.groups);
            assert(self@.gross == after.gross);
            assert(self@.grouping == after.grouping);
            assert(self@ =~= after);
        }
    }

    /// How many expressions have been accepted. [`push`](Self::push) takes another
    /// as long as there is a number for it.
    pub fn accepted_count(&self) -> (count: usize)
        ensures
            count == self@.accepted,
    {
        self.accepted
    }

    /// How many groups have accumulated: the number of units
    /// [`build`](Self::build) will produce.
    pub fn group_count(&self) -> (count: usize)
        ensures
            count == self@.groups.len(),
    {
        self.groups.len()
    }

    /// How many addresses have accumulated across every group, counting an
    /// address once per group it appears in.
    pub fn address_count(&mut self) -> (count: u128)
        ensures
            count == addresses_held(old(self)@.groups),
            final(self)@ == old(self)@,
    {
        proof {
            use_type_invariant(&*self);
        }
        let ghost groups = self@.groups;
        let mut total: u128 = 0;
        let mut i: usize = 0;
        assert(groups.take(0) =~= Seq::empty());
        while i < self.groups.len()
            invariant
                groups == units(self.groups@),
                *self == *old(self),
                i <= groups.len(),
                total == addresses_held(groups.take(i as int)),
            decreases groups.len() - i,
        {
            assert(groups.take(i + 1).drop_last() =~= groups.take(i as int));
            assert(groups.take(i + 1).last() == groups[i as int]);
            total = total.saturating_add(self.groups[i].1.len());
            i = i + 1;
        }
        assert(groups.take(i as int) =~= groups);
        total
    }

    /// How many addresses have accumulated, counted before overlapping
    /// expressions are merged: a running total, returned in constant time.
    ///
    /// Never lower than the true count, so a budget checked against it refuses
    /// early rather than late.
    pub fn gross_address_count(&self) -> (count: u128)
        ensures
            count == self@.gross,
    {
        self.gross_addresses
    }

    /// Whether nothing scannable has accumulated.
    pub fn is_empty(&self) -> (empty: bool)
        ensures
            empty == (self@.groups.len() == 0),
    {
        self.groups.len() == 0
    }

    /// Finishes the map: every group becomes a unit, in the order its ports were
    /// first seen.
    pub fn build(self) -> (map: TargetMap)
        ensures
            target::units_of(map.units@) == self@.groups,
    {
        let ghost groups = self@.groups;
        let mut map = TargetMap::new();
        let n: usize = self.groups.len();
        let mut i: usize = 0;
        assert(target::units_of(map.units@) =~= groups.take(0));
        while i < n
            invariant
                n == self.groups@.len(),
                groups == units(self.groups@),
                i <= n,
                target::units_of(map.units@) == groups.take(i as int),
            decreases n - i,
        {
            let ghost was = map.units@;
            let unit = TargetSet::new(self.groups[i].1.clone(), self.groups[i].0.clone());
            map.add_unit(unit);
            i = i + 1;
            proof {
                assert(unit@ == groups[i - 1]);
                assert(target::units_of(map.units@) =~= target::units_of(was).push(unit@));
                assert(groups.take(i as int) =~= groups.take(i - 1).push(groups[i - 1]));
            }
        }
        assert(groups.take(i as int) =~= groups);
        map
    }
}

proof fn lemma_nonempty(held: Holding)
    requires
        held != Set::<(IpAddr, Option<u32>)>::empty(),
    ensures
        held.contains(held.choose()),
{
    if forall|p: (IpAddr, Option<u32>)| !held.contains(p) {
        assert(held =~= Set::empty());
    }
    let p = choose|p: (IpAddr, Option<u32>)| held.contains(p);
    assert(held.contains(p));
}

/// Resolves each address of an expression.
///
/// Into a set of its own first: a hostname that resolves to nothing, or an address
/// that does not parse, leaves a builder exactly as it was.
fn resolve_all(token: &str, addresses: &Vec<String>, ctx: &TargetContext<'_>) -> (resolved: Result<
    IpSet,
    TargetParseError,
>)
    ensures
        match (resolved, addresses_meant(token@, texts(addresses@), ctx@)) {
            (Ok(set), Ok(meaning)) => ip::meaning_of(set) == meaning,
            (Err(error), Err(fault)) => error@ == fault,
            _ => false,
        },
{
    let ghost all = texts(addresses@);
    let mut resolved = IpSet::new();
    let mut i: usize = 0;
    assert(all.take(0) =~= Seq::empty());
    assert(ip::meaning_of(resolved) =~= (Meaning { held: Set::empty(), gross: 0 }));
    while i < addresses.len()
        invariant
            all == texts(addresses@),
            i <= addresses@.len(),
            addresses_meant(token@, all.take(i as int), ctx@) == Ok::<Meaning, TargetFault>(
                ip::meaning_of(resolved),
            ),
        decreases addresses@.len() - i,
    {
        let ghost before = ip::meaning_of(resolved);
        proof {
            assert(all.take(i + 1).drop_last() =~= all.take(i as int));
            assert(all.take(i + 1).last() == addresses@[i as int]@);
        }
        match resolve_one(token, addresses[i].as_str(), &mut resolved, ctx) {
            Ok(()) => {
                assert(ip::meaning_of(resolved) =~= ip::both_meant(
                    before,
                    address_meant(token@, all[i as int], ctx@)->Ok_0,
                ));
            },
            Err(error) => {
                proof {
                    lemma_first_fault_stays(token@, all, i + 1, ctx@);
                }
                return Err(error);
            },
        }
        i = i + 1;
    }
    assert(all.take(i as int) =~= all);
    Ok(resolved)
}

proof fn lemma_first_fault_stays(
    token: Seq<char>,
    addresses: Seq<Seq<char>>,
    n: int,
    ctx: Answers,
)
    requires
        0 <= n <= addresses.len(),
        addresses_meant(token, addresses.take(n), ctx) is Err,
    ensures
        addresses_meant(token, addresses, ctx) == addresses_meant(token, addresses.take(n), ctx),
    decreases addresses.len() - n,
{
    if n < addresses.len() {
        assert(addresses.take(n + 1).drop_last() =~= addresses.take(n));
        lemma_first_fault_stays(token, addresses, n + 1, ctx);
    } else {
        assert(addresses.take(n) =~= addresses);
    }
}

/// Resolves one address of an expression.
fn resolve_one(token: &str, address: &str, into: &mut IpSet, ctx: &TargetContext<'_>) -> (result: Result<
    (),
    TargetParseError,
>)
    ensures
        match (result, address_meant(token@, address@, ctx@)) {
            (Ok(()), Ok(meaning)) => final(into)@ == old(into)@.union(meaning.held)
                && final(into).gross_count() == old(into).gross_count() + meaning.gross,
            (Err(error), Err(fault)) => error@ == fault,
            _ => false,
        },
{
    match ip::insert_expression(address, into, ctx.keywords, ctx.zones) {
        Ok(()) => Ok(()),
        // The one error that means "this is not an address" rather than "this
        // address is wrong", and so the one worth trying as a name.
        Err(IpParseError::Malformed(_)) => resolve_host(address, into, ctx),
        Err(source) => Err(
            TargetParseError::Address { expression: text::trim_text(token), source },
        ),
    }
}

/// Looks a hostname up among the caller's answers and records what it stands for.
fn resolve_host(name: &str, into: &mut IpSet, ctx: &TargetContext<'_>) -> (result: Result<
    (),
    TargetParseError,
>)
    ensures
        match (result, host_meant(name@, ctx@.hosts)) {
            (Ok(()), Ok(meaning)) => final(into)@ == old(into)@.union(meaning.held)
                && final(into).gross_count() == old(into).gross_count() + meaning.gross,
            (Err(error), Err(fault)) => error@ == fault,
            _ => false,
        },
{
    match host_name(name) {
        HostName::Yes => {},
        HostName::Unbracketed => {
            return Err(TargetParseError::UnbracketedAddress(name.to_owned()));
        },
        HostName::Mistyped => {
            return Err(TargetParseError::MistypedAddress(name.to_owned()));
        },
    }
    let hosts = match ctx.hosts {
        Some(hosts) => hosts,
        None => {
            return Err(TargetParseError::NoHostLookup(name.to_owned()));
        },
    };
    let mut i: usize = 0;
    assert(hosts@.skip(0) =~= hosts@);
    while i < hosts.len()
        invariant
            i <= hosts@.len(),
            addresses_for(hosts@.skip(i as int), name@) == addresses_for(hosts@, name@),
            *into == *old(into),
            shape_of(name@) is Yes,
            ctx.hosts == Some(hosts),
        decreases hosts@.len() - i,
    {
        assert(hosts@.skip(i as int)[0] == hosts@[i as int]);
        assert(hosts@.skip(i as int).drop_first() =~= hosts@.skip(i + 1));
        if text::same_text(hosts[i].name.as_str(), name) {
            if hosts[i].addresses.len() == 0 {
                return Err(TargetParseError::UnknownHost(name.to_owned()));
            }
            into.extend(hosts[i].addresses.as_slice());
            return Ok(());
        }
        i = i + 1;
    }
    Err(TargetParseError::UnknownHost(name.to_owned()))
}

/// What has accumulated once several expressions have been pushed, or the first
/// fault among them.
pub open spec fn all_offered(
    start: Building,
    targets: Seq<Seq<char>>,
    ctx: Answers,
) -> Result<Building, TargetFault>
    decreases targets.len(),
{
    if targets.len() == 0 {
        Ok(start)
    } else {
        match all_offered(start, targets.drop_last(), ctx) {
            Err(fault) => Err(fault),
            Ok(b) => match target_meant(targets.last(), b.default, ctx) {
                Ok(target) => Ok(accepted(b, target)),
                Err(fault) => Err(fault),
            },
        }
    }
}

proof fn lemma_first_refusal_stays(
    start: Building,
    targets: Seq<Seq<char>>,
    n: int,
    ctx: Answers,
)
    requires
        0 <= n <= targets.len(),
        all_offered(start, targets.take(n), ctx) is Err,
    ensures
        all_offered(start, targets, ctx) == all_offered(start, targets.take(n), ctx),
    decreases targets.len() - n,
{
    if n < targets.len() {
        assert(targets.take(n + 1).drop_last() =~= targets.take(n));
        lemma_first_refusal_stays(start, targets, n + 1, ctx);
    } else {
        assert(targets.take(n) =~= targets);
    }
}

/// A builder that has accumulated nothing.
pub open spec fn nothing_yet(default: Ports) -> Building {
    Building { default, groups: Seq::empty(), grouping: true, accepted: 0, gross: 0 }
}

/// Parses a slice of target expressions into a [`TargetMap`].
///
/// The right shape for a caller that already has every target in memory and wants
/// the first error rather than all of them.
pub fn to_target_map(targets: &[String], default_ports: PortSet, ctx: &TargetContext<'_>) -> (map: Result<
    TargetMap,
    TargetParseError,
>)
    ensures
        match (map, all_offered(nothing_yet(default_ports@), texts(targets@), ctx@)) {
            (Ok(map), Ok(built)) => target::units_of(map.units@) == built.groups,
            (Err(error), Err(fault)) => error@ == fault,
            _ => false,
        },
{
    let ghost start = nothing_yet(default_ports@);
    let ghost all = texts(targets@);
    let mut builder = TargetMapBuilder::new(default_ports);
    let n: usize = targets.len();
    let mut i: usize = 0;
    assert(all.take(0) =~= Seq::empty());
    while i < n
        invariant
            n == targets@.len(),
            all == texts(targets@),
            start == nothing_yet(default_ports@),
            i <= n,
            builder@.accepted == i,
            all_offered(start, all.take(i as int), ctx@) == Ok::<Building, TargetFault>(builder@),
        decreases n - i,
    {
        proof {
            assert(all.take(i + 1).drop_last() =~= all.take(i as int));
            assert(all.take(i + 1).last() == targets@[i as int]@);
        }
        match builder.push(targets[i].as_str(), ctx) {
            Ok(()) => {},
            Err(error) => {
                proof {
                    lemma_first_refusal_stays(start, all, i + 1, ctx@);
                }
                return Err(error);
            },
        }
        i = i + 1;
    }
    assert(all.take(i as int) =~= all);
    Ok(builder.build())
}

// ---------------------------------------------------------------------------
// What holds of every builder
// ---------------------------------------------------------------------------

/// A refused expression leaves nothing behind.
pub proof fn lemma_a_refused_expression_leaves_nothing_behind(
    b: Building,
    token: Seq<char>,
    ctx: Answers,
)
    requires
        target_meant(token, b.default, ctx) is Err,
    ensures
        offered(b, token, ctx) == b,
{
}

proof fn lemma_group_of(groups: Seq<Unit>, ports: Ports)
    ensures
        0 <= group_of(groups, ports) <= groups.len(),
        group_of(groups, ports) < groups.len() ==> groups[group_of(groups, ports)].ports == ports,
        forall|i: int| 0 <= i < group_of(groups, ports) ==> (#[trigger] groups[i]).ports != ports,
    decreases groups.len(),
{
    if groups.len() > 0 && groups[0].ports != ports {
        let rest = groups.drop_first();
        lemma_group_of(rest, ports);
        assert forall|i: int| 0 <= i < group_of(groups, ports) implies (#[trigger] groups[i]).ports
            != ports by {
            if i > 0 {
                assert(groups[i] == rest[i - 1]);
            }
        }
    }
}

/// Nothing that was accepted is lost, whatever is accepted after it: every group
/// stays where it is, on its ports, and keeps its addresses.
pub proof fn lemma_what_was_accepted_stays(b: Building, target: Target, i: int)
    requires
        0 <= i < b.groups.len(),
    ensures
        i < accepted(b, target).groups.len(),
        accepted(b, target).groups[i].ports == b.groups[i].ports,
        b.groups[i].ips.subset_of(accepted(b, target).groups[i].ips),
{
    lemma_group_of(b.groups, target.ports);
}

/// Everything a target names is scanned on the ports it names, in some group.
pub proof fn lemma_what_is_named_is_scanned(b: Building, target: Target) -> (at: int)
    ensures
        0 <= at < accepted(b, target).groups.len(),
        accepted(b, target).groups[at].ports == target.ports,
        target.meaning.held.subset_of(accepted(b, target).groups[at].ips),
{
    lemma_group_of(b.groups, target.ports);
    let at = group_of(b.groups, target.ports);
    if b.grouping && at < b.groups.len() {
        at
    } else {
        b.groups.len() as int
    }
}

/// While targets are grouped, no two groups are scanned on the same ports.
pub proof fn lemma_grouping_keeps_specifications_apart(
    b: Building,
    target: Target,
    i: int,
    j: int,
)
    requires
        b.grouping,
        forall|k: int, m: int|
            0 <= k < m < b.groups.len() ==> (#[trigger] b.groups[k]).ports != (
            #[trigger] b.groups[m]).ports,
        0 <= i < j < accepted(b, target).groups.len(),
    ensures
        accepted(b, target).groups[i].ports != accepted(b, target).groups[j].ports,
{
    lemma_group_of(b.groups, target.ports);
    let at = group_of(b.groups, target.ports);
    if j < b.groups.len() {
        assert(b.groups[i].ports != b.groups[j].ports);
    } else {
        assert(b.groups[i].ports != target.ports);
    }
}

/// Once grouping is given up it stays given up.
pub proof fn lemma_grouping_is_never_taken_up_again(b: Building, target: Target)
    requires
        !b.grouping,
    ensures
        !accepted(b, target).grouping,
        accepted(b, target).groups.len() == b.groups.len() + 1,
{
}

// ---------------------------------------------------------------------------
// What is written, and what is asked
// ---------------------------------------------------------------------------

/// Where a text without a character meets it first behind that text.
proof fn lemma_first_behind(before: Seq<char>, c: char, behind: Seq<char>)
    requires
        !before.contains(c),
    ensures
        text::upto(before.push(c) + behind, c) == before.len(),
        (before.push(c) + behind).take(before.len() as int) == before,
        (before.push(c) + behind).skip(before.len() as int + 1) == behind,
{
    let whole = before.push(c) + behind;
    assert forall|j: int| 0 <= j < before.len() implies #[trigger] whole[j] != c by {
        assert(whole[j] == before[j]);
        assert(before.contains(before[j]));
    }
    text::lemma_upto_is(whole, c, before.len() as int);
    assert(whole.take(before.len() as int) =~= before);
    assert(whole.skip(before.len() as int + 1) =~= behind);
}

proof fn lemma_upto_without(s: Seq<char>, c: char)
    requires
        !s.contains(c),
    ensures
        text::upto(s, c) == s.len(),
{
    assert forall|j: int| 0 <= j < s.len() implies #[trigger] s[j] != c by {
        assert(s.contains(s[j]));
    }
    text::lemma_upto_is(s, c, s.len() as int);
}

/// An address and a port specification with a colon between them are those two
/// halves, where the colon is the only one or a dot stands before it. Either
/// half left out is a fault.
pub proof fn lemma_a_colon_parts_the_halves(address: Seq<char>, ports: Seq<char>)
    requires
        !address.contains(':'),
        address.len() > 0 ==> address[0] != '[' && !text::is_space(address[0]),
        ports.len() > 0 ==> !text::is_space(ports.last()),
        !ports.contains(':') || address.contains('.'),
    ensures
        ({
            let token = address.push(':') + ports;
            halves_of(token) == if address.len() == 0 {
                Err(TargetFault::Empty)
            } else if ports.len() == 0 {
                Err(TargetFault::EmptyPorts(token))
            } else {
                Ok(Halves { address, ports: Some(ports) })
            }
        }),
{
    let token = address.push(':') + ports;
    assert(token.last() == if ports.len() > 0 {
        ports.last()
    } else {
        ':'
    });
    assert(token[0] == if address.len() > 0 {
        address[0]
    } else {
        ':'
    });
    text::lemma_trimmed_is_identity(token);
    lemma_first_behind(address, ':', ports);
    if !ports.contains(':') {
        lemma_upto_without(ports, ':');
    } else {
        let k = choose|k: int| 0 <= k < address.len() && address[k] == '.';
        text::lemma_upto(token, '.');
        if text::upto(token, '.') >= address.len() {
            assert(token[k] == '.');
            assert(false);
        }
    }
}

/// What stands in brackets is the address whatever colons it holds, and what
/// stands behind the colon after them is the ports. A bracket left open, nothing
/// between the brackets, no ports behind the colon and anything else behind the
/// brackets are faults.
pub proof fn lemma_brackets_hold_the_address(address: Seq<char>, tail: Seq<char>)
    requires
        !address.contains(']'),
        tail.len() > 0 ==> !text::is_space(tail.last()),
        address.len() > 0 ==> !text::is_space(address.last()),
    ensures
        ({
            let open = seq!['['] + address;
            let token = open.push(']') + tail;
            &&& halves_of(open) == Err::<Halves, TargetFault>(TargetFault::UnbalancedBracket(open))
            &&& halves_of(token) == if address.len() == 0 {
                Err(TargetFault::Empty)
            } else if tail.len() == 0 {
                Ok(Halves { address, ports: None })
            } else if tail[0] != ':' {
                Err(TargetFault::TrailingText(token))
            } else if tail.len() == 1 {
                Err(TargetFault::EmptyPorts(token))
            } else {
                Ok(Halves { address, ports: Some(tail.skip(1)) })
            }
        }),
{
    let open = seq!['['] + address;
    let token = open.push(']') + tail;
    assert(open.last() == if address.len() > 0 {
        address.last()
    } else {
        '['
    });
    assert(token.last() == if tail.len() > 0 {
        tail.last()
    } else {
        ']'
    });
    text::lemma_trimmed_is_identity(open);
    text::lemma_trimmed_is_identity(token);
    assert(open.skip(1) =~= address);
    lemma_upto_without(address, ']');
    assert(token.skip(1) =~= address.push(']') + tail);
    lemma_first_behind(address, ']', tail);
}

/// A text without a colon or an opening bracket is an address and nothing else,
/// and white space around any text but blank ones is no part of it. Nothing at
/// all and nothing but white space are two faults.
pub proof fn lemma_a_text_without_a_colon_is_an_address(
    before: Seq<char>,
    token: Seq<char>,
    behind: Seq<char>,
)
    requires
        forall|i: int| 0 <= i < before.len() ==> text::is_space(#[trigger] before[i]),
        forall|i: int| 0 <= i < behind.len() ==> text::is_space(#[trigger] behind[i]),
    ensures
        text::trimmed(token).len() > 0 ==> halves_of(before + token + behind) == halves_of(token),
        token.len() > 0 && !text::is_space(token[0]) && !text::is_space(token.last()) && token[0]
            != '[' && !token.contains(':') ==> halves_of(token) == Ok::<Halves, TargetFault>(
            Halves { address: token, ports: None },
        ),
        halves_of(Seq::empty()) == Err::<Halves, TargetFault>(TargetFault::Empty),
        before.len() > 0 ==> (halves_of(before) matches Err(TargetFault::Blank(n, plural)) && n
            == before.len() && (plural.len() == 0 <==> n == 1)),
{
    text::lemma_trimming_leaves_out_white_space(before, token, behind);
    if !token.contains(':') {
        lemma_upto_without(token, ':');
    }
    if token.len() > 0 && !text::is_space(token[0]) && !text::is_space(token.last()) {
        text::lemma_trimmed_is_identity(token);
    }
    text::lemma_trimming_leaves_out_white_space(before, Seq::empty(), Seq::empty());
    assert(before + Seq::<char>::empty() + Seq::<char>::empty() =~= before);
    reveal_strlit("");
    reveal_strlit("s");
}

/// The addresses of a half are its parts between commas that are not blank, each
/// trimmed and in order.
pub proof fn lemma_addresses_are_the_parts_that_are_not_blank(parts: Seq<Seq<char>>, more: Seq<char>)
    ensures
        addresses_of(Seq::empty()) == Seq::<Seq<char>>::empty(),
        text::trimmed(more).len() == 0 ==> addresses_of(parts.push(more)) == addresses_of(parts),
        text::trimmed(more).len() > 0 ==> addresses_of(parts.push(more)) == addresses_of(
            parts,
        ).push(text::trimmed(more)),
{
    assert(parts.push(more).drop_last() =~= parts);
}

/// One address on its own is what an expression of it names.
proof fn lemma_one_address(token: Seq<char>, address: Seq<char>, ctx: Answers)
    requires
        address.len() > 0,
        text::trimmed(address) == address,
        !address.contains(','),
    ensures
        addresses_of(text::split_on(address, seq![','])) == seq![address],
        addresses_meant(token, seq![address], ctx) == match address_meant(token, address, ctx) {
            Ok(m) => Ok::<Meaning, TargetFault>(
                Meaning { held: Set::empty().union(m.held), gross: m.gross },
            ),
            Err(fault) => Err(fault),
        },
{
    assert forall|i: int| 0 <= i < address.len() implies !seq![','].contains(
        #[trigger] address[i],
    ) by {
        assert(address.contains(address[i]));
    }
    text::lemma_split_without_separator(address, seq![',']);
    let parts = seq![address];
    assert(parts.drop_last() =~= Seq::empty());
    reveal_with_fuel(addresses_of, 2);
    assert(addresses_of(parts) =~= parts);
    reveal_with_fuel(addresses_meant, 2);
}

/// An address with ports behind it is asked on those ports and on no others, and
/// one without is asked on the ports given for such: an IPv4 address behind a
/// colon, an IPv6 address in brackets. What is asked is that one host.
pub proof fn lemma_an_address_is_asked_on_the_ports_behind_it(
    ip: IpAddr,
    protocol: Protocol,
    n: nat,
    default: Ports,
    ctx: Answers,
)
    requires
        n <= 65535,
    ensures
        ({
            let spec = port::marked(protocol) + text::decimal(n);
            let bare = match ip {
                IpAddr::V4(_) => addr::ip_text(ip),
                IpAddr::V6(_) => (seq!['['] + addr::ip_text(ip)).push(']'),
            };
            &&& target_meant(bare.push(':') + spec, default, ctx) matches Ok(t)
                && port::names_just(t.ports, protocol, n, n) && t.meaning.gross == 1 && forall|
                p: (IpAddr, Option<u32>),
            | #[trigger] t.meaning.held.contains(p) <==> p.0 == ip.host() && p.1 is None
            &&& target_meant(bare, default, ctx) matches Ok(t) && t.ports == default
                && t.meaning.gross == 1 && forall|p: (IpAddr, Option<u32>)| #[trigger]
                t.meaning.held.contains(p) <==> p.0 == ip.host() && p.1 is None
        }),
{
    let spec = port::marked(protocol) + text::decimal(n);
    let address = addr::ip_text(ip);
    let bare = match ip {
        IpAddr::V4(_) => address,
        IpAddr::V6(_) => (seq!['['] + address).push(']'),
    };
    let token = bare.push(':') + spec;
    lemma_halves_of_an_address(ip, spec, protocol, n);
    assert(halves_of(token) == Ok::<Halves, TargetFault>(Halves { address, ports: Some(spec) }));
    assert(halves_of(bare) == Ok::<Halves, TargetFault>(Halves { address, ports: None }));
    port::lemma_a_number_is_one_port(protocol, n);
    ip::lemma_an_address_means_itself(ip, ctx.keywords, ctx.zones);
    lemma_address_is_one_part(ip);
    lemma_one_address(token, address, ctx);
    lemma_one_address(bare, address, ctx);
    let m = ip::meant(address, ctx.keywords, ctx.zones)->Ok_0;
    let held = Set::empty().union(m.held);
    assert(held =~= m.held);
    assert(held.contains((ip.host(), None)));
}

proof fn lemma_address_is_one_part(ip: IpAddr)
    ensures
        addr::ip_text(ip).len() > 0,
        text::trimmed(addr::ip_text(ip)) == addr::ip_text(ip),
        !addr::ip_text(ip).contains(','),
        !addr::ip_text(ip).contains(']'),
        !text::is_space(addr::ip_text(ip)[0]),
        !text::is_space(addr::ip_text(ip).last()),
        addr::ip_text(ip)[0] != '[',
{
    let s = addr::ip_text(ip);
    range::lemma_ip_text_is_something(ip);
    range::lemma_address_chars_are_plain();
    assert(addr::is_address_char(s[0]) && addr::is_address_char(s[s.len() - 1]));
    text::lemma_trimmed_is_identity(s);
    assert(forall|i: int| 0 <= i < s.len() ==> addr::is_address_char(#[trigger] s[i]));
}

proof fn lemma_halves_of_an_address(ip: IpAddr, spec: Seq<char>, protocol: Protocol, n: nat)
    requires
        spec == port::marked(protocol) + text::decimal(n),
    ensures
        ({
            let address = addr::ip_text(ip);
            let bare = match ip {
                IpAddr::V4(_) => address,
                IpAddr::V6(_) => (seq!['['] + address).push(']'),
            };
            &&& halves_of(bare.push(':') + spec) == Ok::<Halves, TargetFault>(
                Halves { address, ports: Some(spec) },
            )
            &&& halves_of(bare) == Ok::<Halves, TargetFault>(Halves { address, ports: None })
        }),
{
    let address = addr::ip_text(ip);
    lemma_address_is_one_part(ip);
    text::lemma_written_reads_back(n, 10);
    let digits = text::decimal(n);
    assert(text::digit_of(digits[digits.len() - 1]) < 10);
    assert(spec.last() == digits.last());
    assert(!text::is_space(spec.last()));
    match ip {
        IpAddr::V4(a) => {
            addr::lemma_dotted_text(a.bits);
            lemma_a_colon_parts_the_halves(address, spec);
            lemma_a_text_without_a_colon_is_an_address(Seq::empty(), address, Seq::empty());
        },
        IpAddr::V6(_) => {
            let tail = seq![':'] + spec;
            assert(tail.last() == spec.last());
            lemma_brackets_hold_the_address(address, tail);
            lemma_brackets_hold_the_address(address, Seq::empty());
            let bare = (seq!['['] + address).push(']');
            assert(bare.push(':') + spec =~= bare + tail);
            assert(tail.skip(1) =~= spec);
            assert(bare + Seq::<char>::empty() =~= bare);
        },
    }
}

/// Whether one of some addresses means an address.
pub open spec fn some_address_means(
    token: Seq<char>,
    addresses: Seq<Seq<char>>,
    ctx: Answers,
    p: (IpAddr, Option<u32>),
) -> bool {
    exists|i: int|
        0 <= i < addresses.len() && (address_meant(token, #[trigger] addresses[i], ctx) matches Ok(
            m,
        ) && m.held.contains(p))
}

/// Several addresses mean what each of them means, all together and nothing
/// else. They are refused exactly where one of them is.
pub proof fn lemma_addresses_mean_what_each_means(
    token: Seq<char>,
    addresses: Seq<Seq<char>>,
    ctx: Answers,
)
    ensures
        addresses_meant(token, addresses, ctx) is Ok <==> forall|i: int|
            0 <= i < addresses.len() ==> address_meant(token, #[trigger] addresses[i], ctx) is Ok,
        addresses_meant(token, addresses, ctx) matches Ok(m) ==> forall|p: (IpAddr, Option<u32>)|
            #[trigger] m.held.contains(p) <==> some_address_means(token, addresses, ctx, p),
    decreases addresses.len(),
{
    if addresses.len() > 0 {
        let (before, last) = (addresses.drop_last(), addresses.last());
        lemma_addresses_mean_what_each_means(token, before, ctx);
        assert(addresses[addresses.len() - 1] == last);
        assert(forall|i: int| 0 <= i < before.len() ==> #[trigger] before[i] == addresses[i]);
        if addresses_meant(token, addresses, ctx) is Ok {
            assert forall|i: int| 0 <= i < addresses.len() implies address_meant(
                token,
                #[trigger] addresses[i],
                ctx,
            ) is Ok by {
                if i < before.len() {
                    assert(before[i] == addresses[i]);
                }
            }
            let m = addresses_meant(token, addresses, ctx)->Ok_0;
            assert forall|p: (IpAddr, Option<u32>)| #[trigger]
                m.held.contains(p) <==> some_address_means(token, addresses, ctx, p) by {
                if some_address_means(token, before, ctx, p) {
                    let i = choose|i: int|
                        0 <= i < before.len() && (address_meant(
                            token,
                            #[trigger] before[i],
                            ctx,
                        ) matches Ok(m) && m.held.contains(p));
                    assert(addresses[i] == before[i]);
                }
                if some_address_means(token, addresses, ctx, p) {
                    let i = choose|i: int|
                        0 <= i < addresses.len() && (address_meant(
                            token,
                            #[trigger] addresses[i],
                            ctx,
                        ) matches Ok(m) && m.held.contains(p));
                    if i < before.len() {
                        assert(before[i] == addresses[i]);
                        assert(some_address_means(token, before, ctx, p));
                    }
                }
            }
        }
    }
}

proof fn lemma_after_last(s: Seq<char>, c: char)
    ensures
        0 <= after_last(s, c) <= s.len(),
        forall|i: int| after_last(s, c) <= i < s.len() ==> #[trigger] s[i] != c,
        after_last(s, c) > 0 ==> s[after_last(s, c) - 1] == c,
    decreases s.len(),
{
    if s.len() > 0 && s.last() != c {
        lemma_after_last(s.drop_last(), c);
        assert forall|i: int| after_last(s, c) <= i < s.len() implies #[trigger] s[i] != c by {
            if i < s.len() - 1 {
                assert(s.drop_last()[i] == s[i]);
            }
        }
    }
}

/// A name is worth looking up where it is made of letters, digits, dashes,
/// underscores and dots, with a letter behind the last dot, the one dot put
/// aside that a full name may end in. A text with a colon is never a name, and
/// is an address that wants brackets where ports follow its last colon.
pub proof fn lemma_what_is_a_name(front: Seq<char>, label: Seq<char>, token: Seq<char>)
    requires
        front.len() > 0 ==> front.last() == '.',
        !label.contains('.'),
        label.len() > 0,
    ensures
        ({
            let plain = forall|i: int|
                0 <= i < (front + label).len() ==> is_name_character(#[trigger] (front + label)[i]);
            let lettered = exists|i: int| 0 <= i < label.len() && is_letter(#[trigger] label[i]);
            &&& !(front + label).contains(':') ==> (shape_of(front + label) is Yes <==> plain
                && lettered) && (shape_of(front + label) is Yes || shape_of(front + label)
                is Mistyped)
            &&& !(front + label).contains(':') ==> shape_of((front + label).push('.')) == shape_of(
                front + label,
            )
        }),
        token.contains(':') ==> !(shape_of(token) is Yes),
        forall|before: Seq<char>, behind: Seq<char>|
            token == #[trigger] (before.push(':') + behind) && !behind.contains(':') ==> (shape_of(
                token,
            ) is Unbracketed <==> port::ports_of(behind) is Ok),
{
    let name = front + label;
    lemma_last_label(front, label);
    if !name.contains(':') {
        lemma_after_last(name, ':');
        if after_last(name, ':') > 0 {
            assert(name.contains(name[after_last(name, ':') - 1]));
        }
        let dotted = name.push('.');
        lemma_after_last(dotted, ':');
        if after_last(dotted, ':') > 0 {
            assert(dotted[after_last(dotted, ':') - 1] == ':');
            assert(name[after_last(dotted, ':') - 1] == ':');
        }
        if shaped_like_a_name(name) {
            assert forall|i: int| 0 <= i < dotted.len() implies is_name_character(
                #[trigger] dotted[i],
            ) by {
                if i < name.len() {
                    assert(dotted[i] == name[i]);
                }
            }
        }
        if shaped_like_a_name(dotted) {
            assert forall|i: int| 0 <= i < name.len() implies is_name_character(
                #[trigger] name[i],
            ) by {
                assert(dotted[i] == name[i]);
            }
        }
    }
    lemma_after_last(token, ':');
    if token.contains(':') {
        let i = choose|i: int| 0 <= i < token.len() && token[i] == ':';
        assert(token[i] == ':');
    }
    assert forall|before: Seq<char>, behind: Seq<char>|
        token == #[trigger] (before.push(':') + behind) && !behind.contains(':') implies (shape_of(
        token,
    ) is Unbracketed <==> port::ports_of(behind) is Ok) by {
        let at = before.len() as int + 1;
        assert(token[before.len() as int] == ':');
        assert(after_last(token, ':') >= at);
        if after_last(token, ':') > at {
            let k = after_last(token, ':') - 1;
            assert(token[k] == behind[k - at]);
            assert(behind.contains(behind[k - at]));
        }
        assert(token.skip(at) =~= behind);
    }
}

proof fn lemma_last_label(front: Seq<char>, label: Seq<char>)
    requires
        front.len() > 0 ==> front.last() == '.',
        !label.contains('.'),
        label.len() > 0,
    ensures
        last_label(front + label) == label,
        last_label((front + label).push('.')) == label,
{
    let name = front + label;
    assert(name.last() == label.last());
    assert(label.contains(label[label.len() - 1]));
    lemma_after_last(name, '.');
    let at = after_last(name, '.');
    if at > front.len() {
        assert(name[at - 1] == label[at - 1 - front.len()]);
        assert(label.contains(label[at - 1 - front.len()]));
    }
    if at < front.len() {
        assert(name[front.len() - 1] == '.');
    }
    assert(name.skip(front.len() as int) =~= label);
    assert(name.push('.').drop_last() =~= name);
}

/// A host name is looked up by the first answer given for it, and means the
/// addresses that says, each on no interface in particular. Without a lookup, and
/// without an address in its answer, it is refused.
pub proof fn lemma_a_name_means_the_first_answer_for_it(
    name: Seq<char>,
    hosts: Seq<HostAnswer>,
    at: int,
)
    requires
        shape_of(name) is Yes,
        0 <= at < hosts.len(),
        hosts[at].name@ == name,
        forall|i: int| 0 <= i < at ==> (#[trigger] hosts[i]).name@ != name,
    ensures
        host_meant(name, None) == Err::<Meaning, TargetFault>(TargetFault::NoHostLookup(name)),
        match host_meant(name, Some(hosts)) {
            Ok(m) => hosts[at].addresses@.len() > 0 && forall|p: (IpAddr, Option<u32>)| #[trigger]
                m.held.contains(p) <==> hosts[at].addresses@.contains(p.0) && p.1 is None,
            Err(fault) => hosts[at].addresses@.len() == 0 && fault == TargetFault::UnknownHost(name),
        },
{
    lemma_addresses_for(hosts, name, at);
}

proof fn lemma_addresses_for(hosts: Seq<HostAnswer>, name: Seq<char>, at: int)
    requires
        0 <= at < hosts.len(),
        hosts[at].name@ == name,
        forall|i: int| 0 <= i < at ==> (#[trigger] hosts[i]).name@ != name,
    ensures
        addresses_for(hosts, name) == hosts[at].addresses@,
    decreases at,
{
    if at > 0 {
        assert(hosts[0].name@ != name);
        let rest = hosts.drop_first();
        assert forall|i: int| 0 <= i < at - 1 implies (#[trigger] rest[i]).name@ != name by {
            assert(rest[i] == hosts[i + 1]);
        }
        lemma_addresses_for(rest, name, at - 1);
    }
}

/// Whether an address is asked on some ports by one of some groups.
pub open spec fn asks(groups: Seq<Unit>, ports: Ports, p: (IpAddr, Option<u32>)) -> bool {
    exists|i: int|
        0 <= i < groups.len() && (#[trigger] groups[i]).ports == ports && groups[i].ips.contains(p)
}

/// Accepting a target asks what was asked before and what the target names on the
/// ports it names, and nothing else, however targets are grouped. It adds one to
/// what was accepted and no more than one group, and none where its group is
/// there to be joined.
pub proof fn lemma_what_is_asked_is_what_was_named(
    b: Building,
    target: Target,
    ports: Ports,
    p: (IpAddr, Option<u32>),
)
    ensures
        asks(accepted(b, target).groups, ports, p) <==> asks(b.groups, ports, p) || (target.ports
            == ports && target.meaning.held.contains(p)),
        accepted(b, target).accepted == b.accepted + 1,
        accepted(b, target).default == b.default,
        b.grouping && (exists|i: int|
            0 <= i < b.groups.len() && (#[trigger] b.groups[i]).ports == target.ports)
            ==> accepted(b, target).groups.len() == b.groups.len(),
        !(b.grouping && (exists|i: int|
            0 <= i < b.groups.len() && (#[trigger] b.groups[i]).ports == target.ports))
            ==> accepted(b, target).groups.len() == b.groups.len() + 1,
        0 <= b.gross + target.meaning.gross <= u128::MAX ==> accepted(b, target).gross == b.gross
            + target.meaning.gross,
        b.gross + target.meaning.gross > u128::MAX ==> accepted(b, target).gross == u128::MAX,
{
    lemma_group_of(b.groups, target.ports);
    let at = group_of(b.groups, target.ports);
    let groups = accepted(b, target).groups;
    if asks(groups, ports, p) {
        let i = choose|i: int|
            0 <= i < groups.len() && (#[trigger] groups[i]).ports == ports && groups[i].ips.contains(
                p,
            );
        if i < b.groups.len() {
            assert(b.groups[i].ports == ports);
        }
    }
    if asks(b.groups, ports, p) {
        let i = choose|i: int|
            0 <= i < b.groups.len() && (#[trigger] b.groups[i]).ports == ports
                && b.groups[i].ips.contains(p);
        assert(groups[i].ports == ports && groups[i].ips.contains(p));
    }
    if target.ports == ports && target.meaning.held.contains(p) {
        let i = if b.grouping && at < b.groups.len() {
            at
        } else {
            b.groups.len() as int
        };
        assert(groups[i].ports == ports && groups[i].ips.contains(p));
    }
    if exists|i: int| 0 <= i < b.groups.len() && (#[trigger] b.groups[i]).ports == target.ports {
        let i = choose|i: int|
            0 <= i < b.groups.len() && (#[trigger] b.groups[i]).ports == target.ports;
        assert(at <= i);
    } else if at < b.groups.len() {
        assert(b.groups[at].ports == target.ports);
    }
}

/// Whether one of some expressions names an address on some ports.
pub open spec fn some_target_names(
    targets: Seq<Seq<char>>,
    default: Ports,
    ctx: Answers,
    ports: Ports,
    p: (IpAddr, Option<u32>),
) -> bool {
    exists|i: int|
        0 <= i < targets.len() && (target_meant(#[trigger] targets[i], default, ctx) matches Ok(t)
            && t.ports == ports && t.meaning.held.contains(p))
}

/// A plan asks exactly what its expressions name, each on the ports it names or on
/// the default ones, and is refused exactly where one of them is.
pub proof fn lemma_a_plan_asks_what_its_expressions_name(
    default: Ports,
    targets: Seq<Seq<char>>,
    ctx: Answers,
)
    ensures
        all_offered(nothing_yet(default), targets, ctx) is Ok <==> forall|i: int|
            0 <= i < targets.len() ==> target_meant(#[trigger] targets[i], default, ctx) is Ok,
        all_offered(nothing_yet(default), targets, ctx) matches Ok(b) ==> b.default == default
            && b.accepted == targets.len() && forall|ports: Ports, p: (IpAddr, Option<u32>)|
            #[trigger] asks(b.groups, ports, p) <==> some_target_names(
                targets,
                default,
                ctx,
                ports,
                p,
            ),
    decreases targets.len(),
{
    let start = nothing_yet(default);
    if targets.len() > 0 {
        let (before, last) = (targets.drop_last(), targets.last());
        lemma_a_plan_asks_what_its_expressions_name(default, before, ctx);
        assert(targets[targets.len() - 1] == last);
        assert(forall|i: int| 0 <= i < before.len() ==> #[trigger] before[i] == targets[i]);
        if all_offered(start, targets, ctx) is Ok {
            assert forall|i: int| 0 <= i < targets.len() implies target_meant(
                #[trigger] targets[i],
                default,
                ctx,
            ) is Ok by {
                if i < before.len() {
                    assert(before[i] == targets[i]);
                }
            }
            let earlier = all_offered(start, before, ctx)->Ok_0;
            let target = target_meant(last, default, ctx)->Ok_0;
            let b = all_offered(start, targets, ctx)->Ok_0;
            assert(b == accepted(earlier, target));
            assert forall|ports: Ports, p: (IpAddr, Option<u32>)| #[trigger]
                asks(b.groups, ports, p) <==> some_target_names(
                    targets,
                    default,
                    ctx,
                    ports,
                    p,
                ) by {
                lemma_what_is_asked_is_what_was_named(earlier, target, ports, p);
                if some_target_names(before, default, ctx, ports, p) {
                    let i = choose|i: int|
                        0 <= i < before.len() && (target_meant(
                            #[trigger] before[i],
                            default,
                            ctx,
                        ) matches Ok(t) && t.ports == ports && t.meaning.held.contains(p));
                    assert(targets[i] == before[i]);
                }
                if some_target_names(targets, default, ctx, ports, p) {
                    let i = choose|i: int|
                        0 <= i < targets.len() && (target_meant(
                            #[trigger] targets[i],
                            default,
                            ctx,
                        ) matches Ok(t) && t.ports == ports && t.meaning.held.contains(p));
                    if i < before.len() {
                        assert(before[i] == targets[i]);
                        assert(some_target_names(before, default, ctx, ports, p));
                    }
                }
                assert(asks(earlier.groups, ports, p) <==> some_target_names(
                    before,
                    default,
                    ctx,
                    ports,
                    p,
                ));
            }
        }
    } else {
        assert forall|ports: Ports, p: (IpAddr, Option<u32>)| #[trigger]
            asks(start.groups, ports, p) <==> some_target_names(
                targets,
                default,
                ctx,
                ports,
                p,
            ) by {}
    }
}

/// A host's name is asked for only where the address grammar knows nothing of the
/// text, the text is shaped like a name, and no answer was given for it; and then it
/// is that name.
pub proof fn lemma_only_a_name_is_looked_up(address: Seq<char>, ctx: Answers)
    ensures
        address_needed(address, ctx) matches Needed::Host(name) ==> {
            &&& name == address
            &&& shape_of(address) is Yes
            &&& ctx.hosts is None || forall|i: int|
                0 <= i < ctx.hosts->0.len() ==> (#[trigger] ctx.hosts->0[i]).name@ != address
            &&& ip::meant(address, ctx.keywords, ctx.zones) matches Err(ParseFault::Malformed(_))
        },
        ip::meant(address, ctx.keywords, ctx.zones) is Ok ==> address_needed(address, ctx)
            is Nothing,
{
    reveal(address_needed);
    ip::lemma_what_is_needed_is_missed(address, ctx.keywords, ctx.zones);
}

/// Grouping is given up where it does not pay: once a thousand and twenty-four
/// expressions or more have been accepted and fewer than one in sixteen of them
/// joined a group that was there.
pub proof fn lemma_grouping_is_given_up_where_it_does_not_pay(b: Building, target: Target)
    requires
        b.grouping,
    ensures
        ({
            let after = accepted(b, target);
            let joining = after.accepted - after.groups.len();
            !after.grouping <==> after.accepted >= 1_024 && joining * 16 < after.accepted
        }),
{
}

} // verus!
