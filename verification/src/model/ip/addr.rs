//! # Addresses and how they are written
//!
//! An address is a number of its family's width, and a written address is one of
//! the forms RFC 4291 gives it. [`ip_of`] is that grammar: four decimal octets
//! for IPv4, and for IPv6 eight hexadecimal groups, a run of zero groups left out
//! as `::` once, and the last two groups allowed as a dotted IPv4 address.
//! [`ip_text`] is the canonical form of RFC 5952, and
//! [`lemma_ip_text_reads_back`] says the two agree.

use crate::ordered::{Ordered, Same};
use crate::text;
use vstd::prelude::*;
use vstd::slice::slice_subrange;

verus! {

/// An IPv4 address, as the number it is.
#[derive(Debug, Clone, Copy, PartialEq, Eq, PartialOrd, Ord, Hash, Structural)]
pub struct Ipv4Addr {
    pub bits: u32,
}

/// An IPv6 address, as the number it is.
#[derive(Debug, Clone, Copy, PartialEq, Eq, PartialOrd, Ord, Hash, Structural)]
pub struct Ipv6Addr {
    pub bits: u128,
}

/// An address of either family. Every IPv4 address comes before every IPv6 one.
#[derive(Debug, Clone, Copy, PartialEq, Eq, PartialOrd, Ord, Hash, Structural)]
pub enum IpAddr {
    V4(Ipv4Addr),
    V6(Ipv6Addr),
}

/// The first of the addresses written `::ffff:a.b.c.d`, IPv4 spelled in IPv6.
pub const MAPPED_FIRST: u128 = 0xffff_0000_0000;

/// The last of the addresses written `::ffff:a.b.c.d`.
pub const MAPPED_LAST: u128 = 0xffff_ffff_ffff;

// ---------------------------------------------------------------------------
// IPv4
// ---------------------------------------------------------------------------

/// The four octets of an IPv4 address, most significant first.
pub open spec fn octets_of(bits: u32) -> Seq<nat> {
    let b1 = bits as nat / 256;
    let b2 = b1 / 256;
    let b3 = b2 / 256;
    seq![b3 % 256, b2 % 256, b1 % 256, bits as nat % 256]
}

/// The IPv4 address with the given octets.
pub open spec fn from_octets(o: Seq<nat>) -> nat {
    o[0] * 0x100_0000 + o[1] * 0x1_0000 + o[2] * 0x100 + o[3]
}

/// One octet of a written address: a decimal number up to 255, with no zero in
/// front of another digit.
pub open spec fn octet_of(s: Seq<char>) -> Option<nat> {
    if s.len() > 1 && s[0] == '0' {
        None
    } else {
        text::digits_value(s, 10, 255)
    }
}

/// The IPv4 address a text writes: four octets with dots between them.
pub open spec fn ipv4_of(s: Seq<char>) -> Option<Ipv4Addr> {
    let parts = text::split_on(s, seq!['.']);
    if parts.len() != 4 {
        None
    } else {
        match (octet_of(parts[0]), octet_of(parts[1]), octet_of(parts[2]), octet_of(parts[3])) {
            (Some(a), Some(b), Some(c), Some(d)) => Some(
                Ipv4Addr { bits: from_octets(seq![a, b, c, d]) as u32 },
            ),
            _ => None,
        }
    }
}

/// How an IPv4 address is written.
pub open spec fn ipv4_text(bits: u32) -> Seq<char> {
    let o = octets_of(bits);
    text::decimal(o[0]).push('.') + (text::decimal(o[1]).push('.') + (text::decimal(o[2]).push('.')
        + text::decimal(o[3])))
}

/// One octet of a written address.
pub fn parse_octet(part: &[char]) -> (octet: Option<u8>)
    ensures
        match octet_of(part@) {
            Some(n) => octet == Some(n as u8) && n <= 255,
            None => octet is None,
        },
{
    if part.len() > 1 && part[0] == '0' {
        return None;
    }
    match text::parse_digits(part, 10, 255) {
        Some(n) => Some(n as u8),
        None => None,
    }
}

impl Ipv4Addr {
    /// The address `a.b.c.d`.
    pub fn new(a: u8, b: u8, c: u8, d: u8) -> (addr: Ipv4Addr)
        ensures
            addr.bits == from_octets(seq![a as nat, b as nat, c as nat, d as nat]),
    {
        Ipv4Addr {
            bits: a as u32 * 0x100_0000 + b as u32 * 0x1_0000 + c as u32 * 0x100 + d as u32,
        }
    }

    /// The four octets, most significant first.
    pub fn octets(&self) -> (octets: [u8; 4])
        ensures
            forall|i: int| 0 <= i < 4 ==> #[trigger] octets@[i] == octets_of(self.bits)[i],
    {
        let b1: u32 = self.bits / 256;
        let b2: u32 = b1 / 256;
        let b3: u32 = b2 / 256;
        [(b3 % 256) as u8, (b2 % 256) as u8, (b1 % 256) as u8, (self.bits % 256) as u8]
    }

    /// The address a text writes.
    pub fn parse_chars(chars: &[char]) -> (addr: Option<Ipv4Addr>)
        ensures
            addr == ipv4_of(chars@),
    {
        let dot: [char; 1] = ['.'];
        let parts = text::split(chars, dot.as_slice());
        assert(dot@ =~= seq!['.']);
        let ghost pieces = text::pieces_of(parts@);
        if parts.len() != 4 {
            return None;
        }
        assert(pieces[0] == parts@[0]@ && pieces[1] == parts@[1]@ && pieces[2] == parts@[2]@
            && pieces[3] == parts@[3]@);
        match (
            parse_octet(parts[0].as_slice()),
            parse_octet(parts[1].as_slice()),
            parse_octet(parts[2].as_slice()),
            parse_octet(parts[3].as_slice()),
        ) {
            (Some(a), Some(b), Some(c), Some(d)) => Some(Ipv4Addr::new(a, b, c, d)),
            _ => None,
        }
    }

    /// Writes the address on the end of a string.
    pub fn push_text(&self, out: &mut String)
        ensures
            final(out)@ == old(out)@ + ipv4_text(self.bits),
    {
        let o = self.octets();
        text::push_decimal(out, o[0] as u128);
        out.push('.');
        text::push_decimal(out, o[1] as u128);
        out.push('.');
        text::push_decimal(out, o[2] as u128);
        out.push('.');
        text::push_decimal(out, o[3] as u128);
        assert(out@ =~= old(out)@ + ipv4_text(self.bits));
    }

    /// How the address is written.
    pub fn to_string(&self) -> (written: String)
        ensures
            written@ == ipv4_text(self.bits),
    {
        let mut written = String::new();
        self.push_text(&mut written);
        assert(written@ =~= ipv4_text(self.bits));
        written
    }
}

// ---------------------------------------------------------------------------
// IPv6
// ---------------------------------------------------------------------------

/// The eight groups of an IPv6 address, most significant first.
pub open spec fn groups_in(bits: u128) -> Seq<nat> {
    let b1 = bits as nat / 0x1_0000;
    let b2 = b1 / 0x1_0000;
    let b3 = b2 / 0x1_0000;
    let b4 = b3 / 0x1_0000;
    let b5 = b4 / 0x1_0000;
    let b6 = b5 / 0x1_0000;
    let b7 = b6 / 0x1_0000;
    seq![
        b7 % 0x1_0000,
        b6 % 0x1_0000,
        b5 % 0x1_0000,
        b4 % 0x1_0000,
        b3 % 0x1_0000,
        b2 % 0x1_0000,
        b1 % 0x1_0000,
        bits as nat % 0x1_0000,
    ]
}

/// The IPv6 address with the given groups.
pub open spec fn from_groups(g: Seq<nat>) -> nat {
    g[0] * 0x1_0000_0000_0000_0000_0000_0000_0000 + g[1] * 0x1_0000_0000_0000_0000_0000_0000 + g[2]
        * 0x1_0000_0000_0000_0000_0000 + g[3] * 0x1_0000_0000_0000_0000 + g[4] * 0x1_0000_0000_0000
        + g[5] * 0x1_0000_0000 + g[6] * 0x1_0000 + g[7]
}

/// One group of a written address: one to four hexadecimal digits.
pub open spec fn group_of(s: Seq<char>) -> Option<nat> {
    if s.len() > 4 {
        None
    } else {
        text::digits_value(s, 16, 0xffff)
    }
}

/// The groups a list of fields writes, one each, where the last field may, if
/// `dotted`, be an IPv4 address that stands for two.
pub open spec fn groups_of(fields: Seq<Seq<char>>, dotted: bool) -> Option<Seq<nat>>
    decreases fields.len(),
{
    if fields.len() == 0 {
        Some(Seq::empty())
    } else {
        match groups_of(fields.drop_last(), false) {
            None => None,
            Some(before) => match group_of(fields.last()) {
                Some(g) => Some(before.push(g)),
                None => if !dotted {
                    None
                } else {
                    match ipv4_of(fields.last()) {
                        Some(a) => Some(
                            before.push(a.bits as nat / 0x1_0000).push(a.bits as nat % 0x1_0000),
                        ),
                        None => None,
                    }
                },
            },
        }
    }
}

/// The fields of one side of a written address: none if nothing is written.
pub open spec fn fields_of(s: Seq<char>) -> Seq<Seq<char>> {
    if s.len() == 0 {
        Seq::empty()
    } else {
        text::split_on(s, seq![':'])
    }
}

/// Whether two colons stand together at `i`.
pub open spec fn gap_at(s: Seq<char>, i: int) -> bool {
    0 <= i && i + 1 < s.len() && s[i] == ':' && s[i + 1] == ':'
}

/// Whether `i` is the first place two colons stand together.
pub open spec fn first_gap(s: Seq<char>, i: int) -> bool {
    gap_at(s, i) && forall|j: int| 0 <= j < i ==> !#[trigger] gap_at(s, j)
}

/// `n` groups of zero.
pub open spec fn zeros(n: nat) -> Seq<nat> {
    Seq::new(n, |i: int| 0nat)
}

/// The IPv6 address a text writes: eight groups, or fewer with `::` once in
/// place of the groups of zero left out, of which there is one at least.
pub open spec fn ipv6_of(s: Seq<char>) -> Option<Ipv6Addr> {
    if exists|i: int| first_gap(s, i) {
        let i = choose|i: int| first_gap(s, i);
        match (groups_of(fields_of(s.take(i)), false), groups_of(fields_of(s.skip(i + 2)), true)) {
            (Some(head), Some(tail)) => if head.len() + tail.len() <= 7 {
                Some(
                    Ipv6Addr {
                        bits: from_groups(
                            head + zeros((8 - head.len() - tail.len()) as nat) + tail,
                        ) as u128,
                    },
                )
            } else {
                None
            },
            _ => None,
        }
    } else {
        match groups_of(fields_of(s), true) {
            Some(groups) => if groups.len() == 8 {
                Some(Ipv6Addr { bits: from_groups(groups) as u128 })
            } else {
                None
            },
            None => None,
        }
    }
}

/// The address a text writes, of either family.
pub open spec fn ip_of(s: Seq<char>) -> Option<IpAddr> {
    match ipv4_of(s) {
        Some(a) => Some(IpAddr::V4(a)),
        None => match ipv6_of(s) {
            Some(a) => Some(IpAddr::V6(a)),
            None => None,
        },
    }
}

/// Groups in hexadecimal with colons between them.
pub open spec fn colons(g: Seq<nat>) -> Seq<char>
    decreases g.len(),
{
    if g.len() == 0 {
        Seq::empty()
    } else if g.len() == 1 {
        text::written(g[0], 16)
    } else {
        colons(g.drop_last()).push(':') + text::written(g.last(), 16)
    }
}

/// How many groups of zero stand together from `i` on.
pub open spec fn run_at(g: Seq<nat>, i: int) -> nat
    decreases g.len() - i,
{
    if 0 <= i < g.len() && g[i] == 0 {
        1 + run_at(g, i + 1)
    } else {
        0
    }
}

/// Where the longest run of zeros that starts below `n` starts, the first of
/// several as long.
pub open spec fn longest_run(g: Seq<nat>, n: nat) -> int
    decreases n,
{
    if n == 0 {
        0
    } else {
        let best = longest_run(g, (n - 1) as nat);
        if run_at(g, n - 1) > run_at(g, best) {
            n - 1
        } else {
            best
        }
    }
}

/// How an IPv6 address is written: the longest run of two zero groups or more as
/// `::`, and an address that spells an IPv4 one with that spelled out.
pub open spec fn ipv6_text(bits: u128) -> Seq<char> {
    let g = groups_in(bits);
    if MAPPED_FIRST <= bits <= MAPPED_LAST {
        seq![':', ':', 'f', 'f', 'f', 'f', ':'] + ipv4_text((bits - MAPPED_FIRST) as u32)
    } else {
        let from = longest_run(g, 8);
        let n = run_at(g, from);
        if n > 1 {
            colons(g.take(from)) + (seq![':', ':'] + colons(g.skip(from + n)))
        } else {
            colons(g)
        }
    }
}

/// How an address is written.
pub open spec fn ip_text(addr: IpAddr) -> Seq<char> {
    match addr {
        IpAddr::V4(a) => ipv4_text(a.bits),
        IpAddr::V6(a) => ipv6_text(a.bits),
    }
}

/// Groups as numbers of their width.
pub open spec fn widths(g: Seq<u16>) -> Seq<nat> {
    g.map(|i: int, v: u16| v as nat)
}

/// A list of fields fails where a front of it does.
proof fn lemma_a_bad_front_is_bad(fields: Seq<Seq<char>>, n: int, dotted: bool)
    requires
        0 <= n < fields.len(),
        groups_of(fields.take(n + 1), false) is None,
        n + 1 < fields.len(),
    ensures
        groups_of(fields, dotted) is None,
    decreases fields.len(),
{
    let before = fields.drop_last();
    if n + 1 == before.len() {
        assert(before =~= fields.take(n + 1));
    } else {
        assert(before.take(n + 1) =~= fields.take(n + 1));
        lemma_a_bad_front_is_bad(before, n, false);
    }
}

/// The groups a list of fields writes.
fn parse_groups(fields: &Vec<Vec<char>>, dotted: bool) -> (groups: Option<Vec<u16>>)
    ensures
        match groups_of(text::pieces_of(fields@), dotted) {
            Some(g) => groups is Some && widths(groups->0@) == g,
            None => groups is None,
        },
{
    let ghost pieces = text::pieces_of(fields@);
    let mut groups: Vec<u16> = Vec::new();
    let mut i: usize = 0;
    assert(widths(groups@) =~= Seq::<nat>::empty());
    assert(pieces.take(0).len() == 0);
    while i < fields.len()
        invariant
            pieces == text::pieces_of(fields@),
            pieces.len() == fields@.len(),
            i <= fields@.len(),
            groups_of(pieces.take(i as int), false) == Some(widths(groups@)),
        decreases fields@.len() - i,
    {
        let field = fields[i].as_slice();
        assert(field@ == pieces[i as int]);
        let last = i + 1 == fields.len();
        proof {
            assert(pieces.take(i + 1).drop_last() =~= pieces.take(i as int));
            assert(pieces.take(i + 1).last() == pieces[i as int]);
            if last {
                assert(pieces.drop_last() =~= pieces.take(i as int));
                assert(pieces.last() == pieces[i as int]);
            }
        }
        let group = if field.len() > 4 {
            None
        } else {
            text::parse_digits(field, 16, 0xffff)
        };
        let ghost before = widths(groups@);
        match group {
            Some(g) => {
                groups.push(g as u16);
                assert(widths(groups@) =~= before.push(g as nat));
            },
            None => {
                if last && dotted {
                    match Ipv4Addr::parse_chars(field) {
                        Some(a) => {
                            let high: u32 = a.bits / 0x1_0000;
                            let low: u32 = a.bits % 0x1_0000;
                            groups.push(high as u16);
                            groups.push(low as u16);
                            assert(widths(groups@) =~= before.push(high as nat).push(low as nat));
                            return Some(groups);
                        },
                        None => {
                            return None;
                        },
                    }
                }
                proof {
                    if !last {
                        lemma_a_bad_front_is_bad(pieces, i as int, dotted);
                    }
                }
                return None;
            },
        }
        i = i + 1;
    }
    assert(pieces.take(pieces.len() as int) =~= pieces);
    proof {
        lemma_dotted_changes_nothing(pieces, dotted);
    }
    Some(groups)
}

/// Where every field is a group, allowing a dotted one changes nothing.
proof fn lemma_dotted_changes_nothing(fields: Seq<Seq<char>>, dotted: bool)
    requires
        groups_of(fields, false) is Some,
    ensures
        groups_of(fields, dotted) == groups_of(fields, false),
{
}

/// The fields of one side of a written address.
fn fields(chars: &[char]) -> (fields: Vec<Vec<char>>)
    ensures
        text::pieces_of(fields@) == fields_of(chars@),
{
    if chars.len() == 0 {
        let none: Vec<Vec<char>> = Vec::new();
        assert(text::pieces_of(none@) =~= Seq::<Seq<char>>::empty());
        none
    } else {
        let colon: [char; 1] = [':'];
        assert(colon@ =~= seq![':']);
        text::split(chars, colon.as_slice())
    }
}

/// Where two colons first stand together.
fn find_gap(chars: &[char]) -> (at: Option<usize>)
    ensures
        match at {
            Some(i) => first_gap(chars@, i as int),
            None => forall|j: int| !#[trigger] gap_at(chars@, j),
        },
{
    let mut i: usize = 0;
    while i < chars.len()
        invariant
            i <= chars@.len(),
            forall|j: int| 0 <= j < i ==> !#[trigger] gap_at(chars@, j),
        decreases chars@.len() - i,
    {
        if i + 1 < chars.len() && chars[i] == ':' && chars[i + 1] == ':' {
            assert(gap_at(chars@, i as int));
            return Some(i);
        }
        i = i + 1;
    }
    None
}

impl Ipv6Addr {
    /// The unspecified address, `::`.
    pub fn unspecified() -> (addr: Ipv6Addr)
        ensures
            addr.bits == 0,
    {
        Ipv6Addr { bits: 0 }
    }

    /// The address of eight groups, most significant first.
    pub fn new(a: u16, b: u16, c: u16, d: u16, e: u16, f: u16, g: u16, h: u16) -> (addr: Ipv6Addr)
        ensures
            addr.bits == from_groups(
                seq![
                    a as nat,
                    b as nat,
                    c as nat,
                    d as nat,
                    e as nat,
                    f as nat,
                    g as nat,
                    h as nat,
                ],
            ),
    {
        Ipv6Addr {
            bits: a as u128 * 0x1_0000_0000_0000_0000_0000_0000_0000 + b as u128
                * 0x1_0000_0000_0000_0000_0000_0000 + c as u128 * 0x1_0000_0000_0000_0000_0000
                + d as u128 * 0x1_0000_0000_0000_0000 + e as u128 * 0x1_0000_0000_0000 + f as u128
                * 0x1_0000_0000 + g as u128 * 0x1_0000 + h as u128,
        }
    }

    /// The most significant octet.
    pub open spec fn leading(self) -> nat {
        self.bits as nat / 0x1_0000_0000_0000_0000_0000_0000_0000_00
    }

    /// The most significant octet.
    pub fn first_octet(&self) -> (octet: u8)
        ensures
            octet == self.leading(),
    {
        (self.bits / 0x1_0000_0000_0000_0000_0000_0000_0000_00) as u8
    }

    /// The eight groups, most significant first.
    pub fn segments(&self) -> (groups: Vec<u16>)
        ensures
            widths(groups@) == groups_in(self.bits),
            groups@.len() == 8,
    {
        let b0: u128 = self.bits;
        let b1: u128 = b0 / 0x1_0000;
        let b2: u128 = b1 / 0x1_0000;
        let b3: u128 = b2 / 0x1_0000;
        let b4: u128 = b3 / 0x1_0000;
        let b5: u128 = b4 / 0x1_0000;
        let b6: u128 = b5 / 0x1_0000;
        let b7: u128 = b6 / 0x1_0000;
        let mut groups: Vec<u16> = Vec::new();
        groups.push((b7 % 0x1_0000) as u16);
        groups.push((b6 % 0x1_0000) as u16);
        groups.push((b5 % 0x1_0000) as u16);
        groups.push((b4 % 0x1_0000) as u16);
        groups.push((b3 % 0x1_0000) as u16);
        groups.push((b2 % 0x1_0000) as u16);
        groups.push((b1 % 0x1_0000) as u16);
        groups.push((b0 % 0x1_0000) as u16);
        assert(widths(groups@) =~= groups_in(self.bits));
        groups
    }

    /// The address of eight groups.
    fn from_segments(g: &Vec<u16>) -> (addr: Ipv6Addr)
        requires
            g@.len() == 8,
        ensures
            addr.bits == from_groups(widths(g@)),
    {
        Ipv6Addr::new(g[0], g[1], g[2], g[3], g[4], g[5], g[6], g[7])
    }

    /// The address a text writes.
    pub fn parse_chars(chars: &[char]) -> (addr: Option<Ipv6Addr>)
        ensures
            addr == ipv6_of(chars@),
    {
        match find_gap(chars) {
            Some(i) => {
                assert(gap_at(chars@, i as int));
                let n: usize = chars.len();
                let head_chars = slice_subrange(chars, 0, i);
                let tail_chars = slice_subrange(chars, i + 2, n);
                proof {
                    let chosen = choose|j: int| first_gap(chars@, j);
                    assert(first_gap(chars@, chosen));
                    if chosen < i {
                        assert(gap_at(chars@, chosen));
                    } else if i < chosen {
                        assert(gap_at(chars@, i as int));
                    }
                    assert(head_chars@ =~= chars@.take(i as int));
                    assert(tail_chars@ =~= chars@.skip(i + 2));
                }
                let head_fields = fields(head_chars);
                let tail_fields = fields(tail_chars);
                match (parse_groups(&head_fields, false), parse_groups(&tail_fields, true)) {
                    (Some(head), Some(tail)) => {
                        if head.len() > 7 || tail.len() > 7 || head.len() + tail.len() > 7 {
                            return None;
                        }
                        let mut all = head;
                        let ghost h = widths(head@);
                        let ghost t = widths(tail@);
                        let fill: usize = 8 - all.len() - tail.len();
                        let mut k: usize = 0;
                        while k < fill
                            invariant
                                k <= fill,
                                widths(all@) == h + zeros(k as nat),
                            decreases fill - k,
                        {
                            let ghost was = widths(all@);
                            all.push(0);
                            assert(widths(all@) =~= was.push(0));
                            assert(h + zeros((k + 1) as nat) =~= (h + zeros(k as nat)).push(0));
                            k = k + 1;
                        }
                        let ghost filled = widths(all@);
                        let mut rest = tail;
                        all.append(&mut rest);
                        assert(widths(all@) =~= filled + t);
                        assert(widths(all@).len() == 8);
                        Some(Ipv6Addr::from_segments(&all))
                    },
                    _ => None,
                }
            },
            None => {
                proof {
                    assert forall|i: int| !first_gap(chars@, i) by {
                        assert(!gap_at(chars@, i));
                    }
                }
                let whole = fields(chars);
                match parse_groups(&whole, true) {
                    Some(groups) => {
                        assert(widths(groups@).len() == groups@.len());
                        if groups.len() == 8 {
                            Some(Ipv6Addr::from_segments(&groups))
                        } else {
                            None
                        }
                    },
                    None => None,
                }
            },
        }
    }

    /// Writes the address on the end of a string.
    pub fn push_text(&self, out: &mut String)
        ensures
            final(out)@ == old(out)@ + ipv6_text(self.bits),
    {
        if MAPPED_FIRST <= self.bits && self.bits <= MAPPED_LAST {
            out.push(':');
            out.push(':');
            out.push('f');
            out.push('f');
            out.push('f');
            out.push('f');
            out.push(':');
            let spelled = Ipv4Addr { bits: (self.bits - MAPPED_FIRST) as u32 };
            spelled.push_text(out);
            assert(out@ =~= old(out)@ + ipv6_text(self.bits));
            return;
        }
        let groups = self.segments();
        let ghost g = groups_in(self.bits);
        let mut best: usize = 0;
        let mut best_run: usize = run(&groups, 0);
        let mut n: usize = 0;
        while n < 8
            invariant
                n <= 8,
                groups@.len() == 8,
                g == widths(groups@),
                best < 8,
                best as int == longest_run(g, n as nat),
                best_run as nat == run_at(g, best as int),
            decreases 8 - n,
        {
            let here: usize = run(&groups, n);
            if here > best_run {
                best = n;
                best_run = here;
            }
            n = n + 1;
        }
        if best_run > 1 {
            proof {
                lemma_run_fits(g, best as int);
            }
            push_colons(out, &groups, 0, best);
            out.push(':');
            out.push(':');
            push_colons(out, &groups, best + best_run, 8);
            assert(g.take(best as int) =~= g.subrange(0, best as int));
            assert(g.skip(best + best_run) =~= g.subrange(best + best_run, 8));
            assert(out@ =~= old(out)@ + ipv6_text(self.bits));
        } else {
            push_colons(out, &groups, 0, 8);
            assert(g =~= g.subrange(0, 8));
            assert(out@ =~= old(out)@ + ipv6_text(self.bits));
        }
    }

    /// How the address is written.
    pub fn to_string(&self) -> (written: String)
        ensures
            written@ == ipv6_text(self.bits),
    {
        let mut written = String::new();
        self.push_text(&mut written);
        assert(written@ =~= ipv6_text(self.bits));
        written
    }
}

proof fn lemma_run_fits(g: Seq<nat>, i: int)
    requires
        0 <= i <= g.len(),
    ensures
        i + run_at(g, i) <= g.len(),
        forall|j: int| i <= j < i + run_at(g, i) ==> #[trigger] g[j] == 0,
    decreases g.len() - i,
{
    if i < g.len() && g[i] == 0 {
        lemma_run_fits(g, i + 1);
    }
}

/// How many groups of zero stand together from `i` on.
fn run(groups: &Vec<u16>, i: usize) -> (n: usize)
    requires
        groups@.len() == 8,
        i <= 8,
    ensures
        n as nat == run_at(widths(groups@), i as int),
        i + n <= 8,
    decreases 8 - i,
{
    if i < 8 && groups[i] == 0 {
        1 + run(groups, i + 1)
    } else {
        0
    }
}

/// Writes groups in hexadecimal with colons between them.
fn push_colons(out: &mut String, groups: &Vec<u16>, from: usize, to: usize)
    requires
        groups@.len() == 8,
        from <= to <= 8,
    ensures
        final(out)@ == old(out)@ + colons(widths(groups@).subrange(from as int, to as int)),
{
    let ghost g = widths(groups@);
    let mut i: usize = from;
    assert(out@ =~= old(out)@ + colons(g.subrange(from as int, from as int)));
    while i < to
        invariant
            groups@.len() == 8,
            g == widths(groups@),
            from <= i <= to <= 8,
            out@ == old(out)@ + colons(g.subrange(from as int, i as int)),
        decreases to - i,
    {
        let ghost part = g.subrange(from as int, i + 1);
        assert(part.drop_last() =~= g.subrange(from as int, i as int));
        assert(part.last() == groups@[i as int]);
        if i > from {
            out.push(':');
        }
        text::push_number(out, groups[i] as u128, 16);
        assert(out@ =~= old(out)@ + colons(part));
        i = i + 1;
    }
}

impl IpAddr {
    /// The address a text writes, of either family.
    pub fn parse_chars(chars: &[char]) -> (addr: Option<IpAddr>)
        ensures
            addr == ip_of(chars@),
    {
        match Ipv4Addr::parse_chars(chars) {
            Some(a) => Some(IpAddr::V4(a)),
            None => match Ipv6Addr::parse_chars(chars) {
                Some(a) => Some(IpAddr::V6(a)),
                None => None,
            },
        }
    }

    /// The address a text writes, of either family.
    pub fn parse(text: &str) -> (addr: Option<IpAddr>)
        ensures
            addr == ip_of(text@),
    {
        let chars = text::chars_of(text);
        IpAddr::parse_chars(chars.as_slice())
    }

    /// Writes the address on the end of a string.
    pub fn push_text(&self, out: &mut String)
        ensures
            final(out)@ == old(out)@ + ip_text(*self),
    {
        match self {
            IpAddr::V4(a) => a.push_text(out),
            IpAddr::V6(a) => a.push_text(out),
        }
    }

    /// How the address is written.
    pub fn to_string(&self) -> (written: String)
        ensures
            written@ == ip_text(*self),
    {
        let mut written = String::new();
        self.push_text(&mut written);
        assert(written@ =~= ip_text(*self));
        written
    }

    /// The host an address names: a mapped IPv6 address is the IPv4 one it spells.
    pub open spec fn host(self) -> IpAddr {
        match self {
            IpAddr::V6(a) if MAPPED_FIRST <= a.bits <= MAPPED_LAST => IpAddr::V4(
                Ipv4Addr { bits: (a.bits - MAPPED_FIRST) as u32 },
            ),
            _ => self,
        }
    }

    /// The host an address names: a mapped IPv6 address is the IPv4 one it spells.
    pub fn to_canonical(&self) -> (host: IpAddr)
        ensures
            host == self.host(),
    {
        match self {
            IpAddr::V6(a) => if MAPPED_FIRST <= a.bits && a.bits <= MAPPED_LAST {
                IpAddr::V4(Ipv4Addr { bits: (a.bits - MAPPED_FIRST) as u32 })
            } else {
                *self
            },
            IpAddr::V4(_) => *self,
        }
    }

    /// Where an address stands: every IPv4 address first, then by number.
    pub open spec fn rank(self) -> int {
        match self {
            IpAddr::V4(a) => a.bits as int,
            IpAddr::V6(a) => 0x1_0000_0000 + a.bits as int,
        }
    }

    /// Whether this address comes before another.
    pub fn is_before(&self, other: &IpAddr) -> (before: bool)
        ensures
            before == (self.rank() < other.rank()),
    {
        match (self, other) {
            (IpAddr::V4(a), IpAddr::V4(b)) => a.bits < b.bits,
            (IpAddr::V6(a), IpAddr::V6(b)) => a.bits < b.bits,
            (IpAddr::V4(_), IpAddr::V6(_)) => true,
            (IpAddr::V6(_), IpAddr::V4(_)) => false,
        }
    }
}

impl Same for IpAddr {
    type Model = IpAddr;

    open spec fn model(&self) -> IpAddr {
        *self
    }

    fn same(&self, other: &Self) -> (result: bool) {
        *self == *other
    }

    fn copied(&self) -> (result: Self) {
        *self
    }
}

impl Ordered for IpAddr {
    open spec fn before(a: IpAddr, b: IpAddr) -> bool {
        a.rank() < b.rank()
    }

    proof fn order_is_total(a: IpAddr, b: IpAddr) {
    }

    proof fn order_is_transitive(a: IpAddr, b: IpAddr, c: IpAddr) {
    }

    fn precedes(&self, other: &Self) -> (result: bool) {
        self.is_before(other)
    }
}

// ---------------------------------------------------------------------------
// What is written is read back
// ---------------------------------------------------------------------------

proof fn lemma_octets_are_the_address(bits: u32)
    ensures
        octets_of(bits).len() == 4,
        forall|i: int| 0 <= i < 4 ==> 0 <= #[trigger] octets_of(bits)[i] < 256,
        from_octets(octets_of(bits)) == bits,
{
}

proof fn lemma_groups_are_the_address(bits: u128)
    ensures
        groups_in(bits).len() == 8,
        forall|i: int| 0 <= i < 8 ==> 0 <= #[trigger] groups_in(bits)[i] < 0x1_0000,
        from_groups(groups_in(bits)) == bits,
{
}

proof fn lemma_octet_reads_back(n: nat)
    requires
        n < 256,
    ensures
        octet_of(text::decimal(n)) == Some(n),
        forall|i: int| 0 <= i < text::decimal(n).len() ==> '0' <= #[trigger] text::decimal(n)[i] <= '9',
{
    let s = text::decimal(n);
    text::lemma_written_reads_back(n, 10);
    assert forall|i: int| 0 <= i < s.len() implies '0' <= #[trigger] s[i] <= '9' by {
        assert(text::digit_of(s[i]) < 10);
    }
}

/// An IPv4 address survives being written down.
pub proof fn lemma_ipv4_text_reads_back(addr: Ipv4Addr)
    ensures
        ipv4_of(ipv4_text(addr.bits)) == Some(addr),
{
    let o = octets_of(addr.bits);
    let dot = seq!['.'];
    lemma_octets_are_the_address(addr.bits);
    let (a, b, c, d) = (
        text::decimal(o[0]),
        text::decimal(o[1]),
        text::decimal(o[2]),
        text::decimal(o[3]),
    );
    lemma_octet_reads_back(o[0]);
    lemma_octet_reads_back(o[1]);
    lemma_octet_reads_back(o[2]);
    lemma_octet_reads_back(o[3]);
    assert(dot.contains('.')) by {
        assert(dot[0] == '.');
    }
    text::lemma_split_without_separator(a, dot);
    text::lemma_split_without_separator(b, dot);
    text::lemma_split_without_separator(c, dot);
    text::lemma_split_without_separator(d, dot);
    text::lemma_split_of_joined(c, '.', d, dot);
    text::lemma_split_of_joined(b, '.', c.push('.') + d, dot);
    text::lemma_split_of_joined(a, '.', b.push('.') + (c.push('.') + d), dot);
    assert(text::split_on(ipv4_text(addr.bits), dot) =~= seq![a, b, c, d]);
    assert(seq![o[0], o[1], o[2], o[3]] =~= o);
}

/// A character that separates nothing is in some piece.
proof fn lemma_a_piece_holds(s: Seq<char>, separators: Seq<char>, i: int)
    requires
        0 <= i < s.len(),
        !separators.contains(s[i]),
    ensures
        exists|p: int, k: int|
            0 <= p < text::split_on(s, separators).len() && 0 <= k < text::split_on(
                s,
                separators,
            )[p].len() && #[trigger] text::split_on(s, separators)[p][k] == s[i],
    decreases s.len(),
{
    let pieces = text::split_on(s, separators);
    let before = text::split_on(s.drop_last(), separators);
    text::lemma_split_has_a_piece(s.drop_last(), separators);
    if i == s.len() - 1 {
        let p = pieces.len() - 1;
        let k = pieces[p].len() - 1;
        assert(pieces[p][k] == s[i]);
    } else {
        lemma_a_piece_holds(s.drop_last(), separators, i);
        let (p, k) = choose|p: int, k: int|
            0 <= p < before.len() && 0 <= k < before[p].len() && #[trigger] before[p][k]
                == s.drop_last()[i];
        assert(pieces[p][k] == s[i]);
    }
}

/// A text with a colon in it is no IPv4 address.
proof fn lemma_a_colon_is_not_ipv4(s: Seq<char>, i: int)
    requires
        0 <= i < s.len(),
        s[i] == ':',
    ensures
        ipv4_of(s) is None,
{
    let dot = seq!['.'];
    let parts = text::split_on(s, dot);
    assert(!dot.contains(':'));
    lemma_a_piece_holds(s, dot, i);
    let (p, k) = choose|p: int, k: int|
        0 <= p < parts.len() && 0 <= k < parts[p].len() && #[trigger] parts[p][k] == s[i];
    assert(text::digit_of(parts[p][k]) == 16);
    assert(!text::all_digits(parts[p], 10));
    assert(octet_of(parts[p]) is None);
}

/// A group takes four digits at most.
proof fn lemma_group_reads_back(n: nat)
    requires
        n < 0x1_0000,
    ensures
        group_of(text::written(n, 16)) == Some(n),
        forall|i: int|
            0 <= i < text::written(n, 16).len() ==> #[trigger] text::written(n, 16)[i] != ':',
        text::written(n, 16).len() >= 1,
{
    let s = text::written(n, 16);
    text::lemma_written_reads_back(n, 16);
    text::lemma_written_reads_back(n / 16, 16);
    text::lemma_written_reads_back(n / 16 / 16, 16);
    text::lemma_written_reads_back(n / 16 / 16 / 16, 16);
    assert(s.len() <= 4);
    assert forall|i: int| 0 <= i < s.len() implies #[trigger] s[i] != ':' by {
        assert(text::digit_of(s[i]) < 16);
    }
}

/// Groups with colons between them start and end with a digit, never hold two
/// colons together, and cut at the colons give the groups back.
proof fn lemma_colons(g: Seq<nat>)
    requires
        forall|i: int| 0 <= i < g.len() ==> #[trigger] g[i] < 0x1_0000,
    ensures
        g.len() == 0 ==> colons(g).len() == 0,
        g.len() > 0 ==> colons(g).len() > 0 && colons(g)[0] != ':' && colons(g).last() != ':',
        forall|j: int| !#[trigger] gap_at(colons(g), j),
        fields_of(colons(g)) == g.map(|i: int, v: nat| text::written(v, 16)),
        groups_of(fields_of(colons(g)), false) == Some(g),
        g.len() > 1 ==> exists|j: int| 0 <= j < colons(g).len() && #[trigger] colons(g)[j] == ':',
    decreases g.len(),
{
    let s = colons(g);
    let colon = seq![':'];
    assert(colon.contains(':')) by {
        assert(colon[0] == ':');
    }
    let names = g.map(|i: int, v: nat| text::written(v, 16));
    if g.len() == 0 {
        assert(fields_of(s) =~= names);
        assert(g =~= Seq::<nat>::empty());
    } else {
        let w = text::written(g.last(), 16);
        lemma_group_reads_back(g.last());
        text::lemma_split_without_separator(w, colon);
        if g.len() == 1 {
            assert(fields_of(s) =~= names);
            assert(names.drop_last() =~= Seq::<Seq<char>>::empty());
            assert(groups_of(names, false) == Some(Seq::<nat>::empty().push(g[0])));
            assert(Seq::<nat>::empty().push(g[0]) =~= g);
        } else {
            let before = colons(g.drop_last());
            lemma_colons(g.drop_last());
            text::lemma_split_of_joined(before, ':', w, colon);
            assert(names.drop_last() =~= g.drop_last().map(|i: int, v: nat| text::written(v, 16)));
            assert(fields_of(s) =~= names);
            assert(groups_of(names, false) == Some(g.drop_last().push(g.last())));
            assert(g.drop_last().push(g.last()) =~= g);
            assert forall|j: int| !#[trigger] gap_at(s, j) by {
                if gap_at(s, j) {
                    if j + 1 < before.len() {
                        assert(gap_at(before, j));
                    } else if j + 1 == before.len() {
                        assert(before.last() == s[j]);
                    } else {
                        assert(s[j + 1] == w[j - before.len()]);
                    }
                }
            }
            assert(s[before.len() as int] == ':');
            assert(s[0] == before[0]);
            assert(s.last() == w.last());
        }
    }
}

/// Groups with a run of zeros left out read back.
proof fn lemma_shortened_reads_back(g: Seq<nat>, from: int, n: nat)
    requires
        g.len() == 8,
        forall|i: int| 0 <= i < g.len() ==> #[trigger] g[i] < 0x1_0000,
        0 <= from,
        n > 1,
        from + n <= 8,
        forall|j: int| from <= j < from + n ==> #[trigger] g[j] == 0,
    ensures
        ({
            let s = colons(g.take(from)) + (seq![':', ':'] + colons(g.skip(from + n)));
            &&& ipv6_of(s) == Some(Ipv6Addr { bits: from_groups(g) as u128 })
            &&& ipv4_of(s) is None
        }),
{
    let s = colons(g.take(from)) + (seq![':', ':'] + colons(g.skip(from + n)));
    let head = g.take(from);
    let tail = g.skip(from + n);
    lemma_colons(head);
    lemma_colons(tail);
    let (a, b) = (colons(head), colons(tail));
    let at = a.len() as int;
    assert(s[at] == ':' && s[at + 1] == ':');
    assert(gap_at(s, at));
    assert forall|j: int| 0 <= j < at implies !#[trigger] gap_at(s, j) by {
        if gap_at(s, j) {
            if j + 1 < at {
                assert(gap_at(a, j));
            } else {
                assert(a.last() == s[j]);
            }
        }
    }
    assert(first_gap(s, at));
    let chosen = choose|i: int| first_gap(s, i);
    assert(first_gap(s, chosen));
    if chosen < at {
        assert(gap_at(s, chosen));
    } else if at < chosen {
        assert(gap_at(s, at));
    }
    assert(s.take(at) =~= a);
    assert(s.skip(at + 2) =~= b);
    lemma_dotted_changes_nothing(fields_of(b), true);
    assert((8 - head.len() - tail.len()) as nat == n);
    assert(head + zeros(n) + tail =~= g);
    lemma_a_colon_is_not_ipv4(s, at);
}

/// Eight groups written out read back.
proof fn lemma_whole_reads_back(g: Seq<nat>)
    requires
        g.len() == 8,
        forall|i: int| 0 <= i < g.len() ==> #[trigger] g[i] < 0x1_0000,
    ensures
        ipv6_of(colons(g)) == Some(Ipv6Addr { bits: from_groups(g) as u128 }),
        ipv4_of(colons(g)) is None,
{
    let s = colons(g);
    lemma_colons(g);
    assert forall|i: int| !first_gap(s, i) by {
        assert(!gap_at(s, i));
    }
    lemma_dotted_changes_nothing(fields_of(s), true);
    let j = choose|j: int| 0 <= j < colons(g).len() && #[trigger] colons(g)[j] == ':';
    lemma_a_colon_is_not_ipv4(s, j);
}

/// An IPv6 address survives being written down, and is not mistaken for IPv4.
pub proof fn lemma_ipv6_text_reads_back(addr: Ipv6Addr)
    ensures
        ipv6_of(ipv6_text(addr.bits)) == Some(addr),
        ipv4_of(ipv6_text(addr.bits)) is None,
{
    let g = groups_in(addr.bits);
    lemma_groups_are_the_address(addr.bits);
    if MAPPED_FIRST <= addr.bits <= MAPPED_LAST {
        lemma_mapped_text_reads_back(addr);
    } else {
        let from = longest_run(g, 8);
        lemma_longest_run_is_inside(g, 8);
        lemma_run_fits(g, from);
        let n = run_at(g, from);
        if n > 1 {
            lemma_shortened_reads_back(g, from, n);
        } else {
            lemma_whole_reads_back(g);
        }
    }
}

proof fn lemma_longest_run_is_inside(g: Seq<nat>, n: nat)
    requires
        n <= g.len(),
    ensures
        0 <= longest_run(g, n) <= g.len(),
    decreases n,
{
    if n > 0 {
        lemma_longest_run_is_inside(g, (n - 1) as nat);
    }
}

/// The group `ffff`, read.
proof fn lemma_ffff()
    ensures
        group_of(seq!['f', 'f', 'f', 'f']) == Some(0xffffnat),
{
    let ffff = seq!['f', 'f', 'f', 'f'];
    let fff = seq!['f', 'f', 'f'];
    let ff = seq!['f', 'f'];
    let f = seq!['f'];
    assert(f.drop_last() =~= Seq::<char>::empty());
    assert(text::number_of(f.drop_last(), 16) == 0);
    assert(text::number_of(f, 16) == 0xf);
    assert(ff.drop_last() =~= f);
    assert(text::number_of(ff, 16) == 0xff);
    assert(fff.drop_last() =~= ff);
    assert(text::number_of(fff, 16) == 0xfff);
    assert(ffff.drop_last() =~= fff);
    assert(text::number_of(ffff, 16) == 0xffff);
}

/// The fields of `ffff:a.b.c.d`, read.
proof fn lemma_mapped_fields(low: Ipv4Addr)
    ensures
        groups_of(fields_of(seq!['f', 'f', 'f', 'f'].push(':') + ipv4_text(low.bits)), true)
            == Some(
            Seq::<nat>::empty().push(0xffff).push(low.bits as nat / 0x1_0000).push(
                low.bits as nat % 0x1_0000,
            ),
        ),
{
    let dotted = ipv4_text(low.bits);
    let colon = seq![':'];
    assert(colon.contains(':')) by {
        assert(colon[0] == ':');
    }
    let ffff = seq!['f', 'f', 'f', 'f'];
    lemma_ipv4_text_reads_back(low);
    lemma_dotted_text_has_no_colon(low.bits);
    lemma_ffff();
    text::lemma_split_without_separator(ffff, colon);
    text::lemma_split_without_separator(dotted, colon);
    text::lemma_split_of_joined(ffff, ':', dotted, colon);
    let fields = fields_of(ffff.push(':') + dotted);
    assert(fields =~= seq![ffff, dotted]);
    let first = fields.drop_last();
    assert(first =~= seq![ffff]);
    assert(first.drop_last() =~= Seq::<Seq<char>>::empty());
    assert(groups_of(first.drop_last(), false) == Some(Seq::<nat>::empty()));
    assert(groups_of(first, false) == Some(Seq::<nat>::empty().push(0xffff)));
    assert(group_of(dotted) is None) by {
        lemma_dotted_text_has_a_dot(low.bits);
        let i = choose|i: int| 0 <= i < dotted.len() && #[trigger] dotted[i] == '.';
        assert(text::digit_of(dotted[i]) == 16);
        assert(!text::all_digits(dotted, 16));
    }
}

/// An IPv4 address spelled in IPv6 reads back.
proof fn lemma_mapped_text_reads_back(addr: Ipv6Addr)
    requires
        MAPPED_FIRST <= addr.bits <= MAPPED_LAST,
    ensures
        ipv6_of(ipv6_text(addr.bits)) == Some(addr),
        ipv4_of(ipv6_text(addr.bits)) is None,
{
    let bits = addr.bits;
    let s = ipv6_text(bits);
    let low = Ipv4Addr { bits: (bits - MAPPED_FIRST) as u32 };
    let dotted = ipv4_text(low.bits);
    assert(s[0] == ':' && s[1] == ':');
    assert(gap_at(s, 0));
    assert(first_gap(s, 0));
    let chosen = choose|i: int| first_gap(s, i);
    assert(first_gap(s, chosen));
    if 0 < chosen {
        assert(gap_at(s, 0));
    }
    lemma_a_colon_is_not_ipv4(s, 0);
    assert(s.take(0) =~= Seq::<char>::empty());
    assert(groups_of(fields_of(s.take(0)), false) == Some(Seq::<nat>::empty()));
    assert(s.skip(2) =~= seq!['f', 'f', 'f', 'f'].push(':') + dotted);
    lemma_mapped_fields(low);
    let high = low.bits as nat / 0x1_0000;
    let rest = low.bits as nat % 0x1_0000;
    let tail = Seq::<nat>::empty().push(0xffff).push(high).push(rest);
    let all = Seq::<nat>::empty() + zeros(5) + tail;
    assert(all[0] == 0 && all[1] == 0 && all[2] == 0 && all[3] == 0 && all[4] == 0);
    assert(all[5] == 0xffff && all[6] == high && all[7] == rest);
    assert(from_groups(all) == bits);
}

proof fn lemma_dotted_text_has_a_dot(bits: u32)
    ensures
        exists|i: int|
            0 <= i < ipv4_text(bits).len() && #[trigger] ipv4_text(bits)[i] == '.',
{
    let a = text::decimal(octets_of(bits)[0]);
    assert(ipv4_text(bits)[a.len() as int] == '.');
}

proof fn lemma_dotted_text_has_no_colon(bits: u32)
    ensures
        forall|i: int| 0 <= i < ipv4_text(bits).len() ==> #[trigger] ipv4_text(bits)[i] != ':',
{
    let o = octets_of(bits);
    let s = ipv4_text(bits);
    lemma_octets_are_the_address(bits);
    lemma_octet_reads_back(o[0]);
    lemma_octet_reads_back(o[1]);
    lemma_octet_reads_back(o[2]);
    lemma_octet_reads_back(o[3]);
    let (a, b, c, d) = (
        text::decimal(o[0]),
        text::decimal(o[1]),
        text::decimal(o[2]),
        text::decimal(o[3]),
    );
    assert forall|i: int| 0 <= i < s.len() implies #[trigger] s[i] != ':' by {
        let i1 = i - a.len() - 1;
        let i2 = i1 - b.len() - 1;
        let i3 = i2 - c.len() - 1;
        if i < a.len() {
            assert(s[i] == a[i]);
        } else if i1 < 0 {
        } else if i1 < b.len() {
            assert(s[i] == b[i1]);
        } else if i2 < 0 {
        } else if i2 < c.len() {
            assert(s[i] == c[i2]);
        } else if i3 < 0 {
        } else {
            assert(s[i] == d[i3]);
        }
    }
}

/// An address of either family survives being written down: what is written
/// reads back as the address it was.
pub proof fn lemma_ip_text_reads_back(addr: IpAddr)
    ensures
        ip_of(ip_text(addr)) == Some(addr),
{
    match addr {
        IpAddr::V4(a) => lemma_ipv4_text_reads_back(a),
        IpAddr::V6(a) => lemma_ipv6_text_reads_back(a),
    }
}

/// Whether a character is one that addresses are written with.
pub open spec fn is_address_char(c: char) -> bool {
    text::digit_of(c) < 16 || c == ':' || c == '.'
}

/// Whether a text is made of nothing but characters addresses are written with.
pub open spec fn all_address_chars(s: Seq<char>) -> bool {
    forall|i: int| 0 <= i < s.len() ==> is_address_char(#[trigger] s[i])
}

proof fn lemma_number_is_address_chars(n: nat, base: nat)
    requires
        2 <= base <= 16,
    ensures
        all_address_chars(text::written(n, base)),
{
    let s = text::written(n, base);
    text::lemma_written_reads_back(n, base);
    assert forall|i: int| 0 <= i < s.len() implies is_address_char(#[trigger] s[i]) by {
        assert(text::digit_of(s[i]) < base);
    }
}

proof fn lemma_colons_are_address_chars(g: Seq<nat>)
    ensures
        all_address_chars(colons(g)),
    decreases g.len(),
{
    if g.len() > 0 {
        lemma_number_is_address_chars(g.last(), 16);
        if g.len() > 1 {
            lemma_colons_are_address_chars(g.drop_last());
        }
    }
}

proof fn lemma_ipv4_text_is_address_chars(bits: u32)
    ensures
        all_address_chars(ipv4_text(bits)),
{
    let o = octets_of(bits);
    lemma_number_is_address_chars(o[0], 10);
    lemma_number_is_address_chars(o[1], 10);
    lemma_number_is_address_chars(o[2], 10);
    lemma_number_is_address_chars(o[3], 10);
}

/// An address is written with hexadecimal digits, colons and dots alone.
pub proof fn lemma_ip_text_is_address_chars(addr: IpAddr)
    ensures
        all_address_chars(ip_text(addr)),
{
    match addr {
        IpAddr::V4(a) => {
            lemma_ipv4_text_is_address_chars(a.bits);
        },
        IpAddr::V6(a) => {
            let g = groups_in(a.bits);
            if MAPPED_FIRST <= a.bits <= MAPPED_LAST {
                lemma_ipv4_text_is_address_chars((a.bits - MAPPED_FIRST) as u32);
            } else {
                let from = longest_run(g, 8);
                lemma_colons_are_address_chars(g);
                lemma_colons_are_address_chars(g.take(from));
                lemma_colons_are_address_chars(g.skip(from + run_at(g, from)));
            }
        },
    }
}

/// Four numbers below 256 with dots between them are an IPv4 address, the first
/// of them its highest octet, and a number above 255 in any place is no address.
pub proof fn lemma_four_numbers_with_dots_are_an_address(a: nat, b: nat, c: nat, d: nat)
    ensures
        ({
            let written = text::decimal(a).push('.') + (text::decimal(b).push('.') + (text::decimal(
                c,
            ).push('.') + text::decimal(d)));
            match ipv4_of(written) {
                Some(addr) => {
                    &&& a <= 255 && b <= 255 && c <= 255 && d <= 255
                    &&& addr.bits == ((a * 256 + b) * 256 + c) * 256 + d
                },
                None => a > 255 || b > 255 || c > 255 || d > 255,
            }
        }),
{
    let (wa, wb, wc, wd) = (
        text::decimal(a),
        text::decimal(b),
        text::decimal(c),
        text::decimal(d),
    );
    lemma_decimal_octet(a);
    lemma_decimal_octet(b);
    lemma_decimal_octet(c);
    lemma_decimal_octet(d);
    let dot = seq!['.'];
    assert(dot.contains('.')) by {
        assert(dot[0] == '.');
    }
    let end = wc.push('.') + wd;
    let rest = wb.push('.') + end;
    text::lemma_split_without_separator(wa, dot);
    text::lemma_split_without_separator(wb, dot);
    text::lemma_split_without_separator(wc, dot);
    text::lemma_split_without_separator(wd, dot);
    text::lemma_split_of_joined(wc, '.', wd, dot);
    text::lemma_split_of_joined(wb, '.', end, dot);
    text::lemma_split_of_joined(wa, '.', rest, dot);
    assert(text::split_on(wa.push('.') + rest, dot) =~= seq![wa, wb, wc, wd]);
}

/// A decimal number is an octet exactly when it is below 256.
proof fn lemma_decimal_octet(n: nat)
    ensures
        octet_of(text::decimal(n)) == if n <= 255 {
            Some(n)
        } else {
            None
        },
        forall|i: int|
            0 <= i < text::decimal(n).len() ==> !seq!['.'].contains(#[trigger] text::decimal(n)[i]),
{
    text::lemma_written_reads_back(n, 10);
    let s = text::decimal(n);
    assert forall|i: int| 0 <= i < s.len() implies !seq!['.'].contains(#[trigger] s[i]) by {
        assert(text::digit_of(s[i]) < 10);
    }
}

/// Eight groups of sixteen bits, highest first, as one number.
pub open spec fn stacked(g: Seq<nat>) -> nat {
    (((((((g[0] * 65536 + g[1]) * 65536 + g[2]) * 65536 + g[3]) * 65536 + g[4]) * 65536 + g[5])
        * 65536 + g[6]) * 65536 + g[7])
}

/// Eight groups in hexadecimal with colons between them are an IPv6 address, the
/// first of them its highest, and two colons stand for groups of zero that are
/// left out.
pub proof fn lemma_eight_groups_are_an_address(g: Seq<nat>, from: int, n: nat)
    requires
        g.len() == 8,
        forall|i: int| 0 <= i < g.len() ==> #[trigger] g[i] < 65536,
        0 <= from,
        from + n <= 8,
        forall|j: int| from <= j < from + n ==> #[trigger] g[j] == 0,
    ensures
        stacked(g) <= u128::MAX,
        ipv6_of(colons(g)) == Some(Ipv6Addr { bits: stacked(g) as u128 }),
        n > 1 ==> ipv6_of(colons(g.take(from)) + (seq![':', ':'] + colons(g.skip(from + n))))
            == Some(Ipv6Addr { bits: stacked(g) as u128 }),
{
    lemma_whole_reads_back(g);
    assert(stacked(g) == from_groups(g));
    if n > 1 {
        lemma_shortened_reads_back(g, from, n);
    }
}

/// Whether groups of zero stand from one place up to another, as many together
/// as there are.
pub open spec fn is_run(g: Seq<nat>, from: int, to: int) -> bool {
    &&& 0 <= from <= to <= g.len()
    &&& forall|j: int| from <= j < to ==> #[trigger] g[j] == 0
}

proof fn lemma_run_at(g: Seq<nat>, from: int, to: int)
    requires
        is_run(g, from, to),
    ensures
        run_at(g, from) >= to - from,
    decreases to - from,
{
    if from < to {
        assert(g[from] == 0);
        lemma_run_at(g, from + 1, to);
    }
}

proof fn lemma_longest_run_is_longest(g: Seq<nat>, n: nat)
    requires
        n <= g.len(),
    ensures
        0 <= longest_run(g, n) <= g.len(),
        n > 0 ==> longest_run(g, n) < n,
        forall|i: int| 0 <= i < n ==> #[trigger] run_at(g, i) <= run_at(g, longest_run(g, n)),
        forall|i: int|
            0 <= i < longest_run(g, n) ==> #[trigger] run_at(g, i) < run_at(g, longest_run(g, n)),
    decreases n,
{
    if n > 0 {
        lemma_longest_run_is_longest(g, (n - 1) as nat);
        assert(n == 1 ==> longest_run(g, 0) == 0);
    }
}

/// An IPv6 address that spells no IPv4 one is written with the longest run of
/// zero groups left out, the first of several as long, and with none left out
/// where no two of them stand together.
pub proof fn lemma_the_longest_run_of_zeros_is_left_out(addr: Ipv6Addr)
    requires
        !(0xffff_0000_0000 <= addr.bits <= 0xffff_ffff_ffff),
    ensures
        ({
            let g = groups_in(addr.bits);
            ||| ipv6_text(addr.bits) == colons(g) && forall|from: int, to: int| #[trigger]
                is_run(g, from, to) ==> to - from <= 1
            ||| exists|from: int, to: int|
                {
                    &&& #[trigger] is_run(g, from, to)
                    &&& to - from > 1
                    &&& ipv6_text(addr.bits) == colons(g.take(from)) + (seq![':', ':'] + colons(
                        g.skip(to),
                    ))
                    &&& forall|a: int, b: int| #[trigger]
                        is_run(g, a, b) ==> b - a < to - from || (b - a == to - from && from <= a)
                }
        }),
{
    let g = groups_in(addr.bits);
    let from = longest_run(g, 8);
    let n = run_at(g, from);
    lemma_longest_run_is_longest(g, 8);
    lemma_run_fits(g, from);
    assert forall|a: int, b: int| #[trigger] is_run(g, a, b) && b > a implies b - a < n || (b - a
        == n && from <= a) by {
        lemma_run_at(g, a, b);
        assert(run_at(g, a) <= n);
    }
    if n > 1 {
        assert(is_run(g, from, from + n));
    } else {
        assert forall|a: int, b: int| #[trigger] is_run(g, a, b) implies b - a <= 1 by {
            if b > a {
                lemma_run_at(g, a, b);
            }
        }
    }
}

/// An IPv4 address spelled in IPv6, behind `::ffff:`, is the host that the IPv4
/// address is, and every other address is a host of its own.
pub proof fn lemma_a_mapped_address_is_the_ipv4_host(a: Ipv4Addr, ip: IpAddr)
    ensures
        ipv6_of(seq![':', ':', 'f', 'f', 'f', 'f', ':'] + ipv4_text(a.bits)) matches Some(spelled)
            && IpAddr::V6(spelled).host() == IpAddr::V4(a),
        match (ip, ip.host()) {
            (IpAddr::V6(spelled), IpAddr::V4(host)) => spelled.bits == 0xffff_0000_0000 + host.bits,
            (_, host) => host == ip,
        },
        ip.host().host() == ip.host(),
{
    let spelled = Ipv6Addr { bits: (MAPPED_FIRST + a.bits) as u128 };
    lemma_ipv6_text_reads_back(spelled);
}

/// An IPv4 address is written with a dot and without a colon.
pub(crate) proof fn lemma_dotted_text(bits: u32)
    ensures
        ipv4_text(bits).contains('.'),
        !ipv4_text(bits).contains(':'),
{
    lemma_dotted_text_has_a_dot(bits);
    lemma_dotted_text_has_no_colon(bits);
}

} // verus!
