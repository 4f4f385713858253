//! # Reading and writing text
//!
//! The small grammar every type that has a written form is built from: trimming,
//! splitting, numbers in and out, and the order of two strings. Text is modelled
//! as the sequence of its characters.

use crate::ordered::{Ordered, Same};
use vstd::prelude::*;
use vstd::slice::slice_subrange;
use vstd::utf8;

verus! {

/// `String::push`: the character goes on the end of the string, which is
/// otherwise unchanged.
pub assume_specification[ std::string::String::push ](s: &mut String, c: char)
    ensures
        final(s)@ == old(s)@.push(c),
;

/// Whether a character is white space, by Unicode's `White_Space` property.
pub open spec fn is_space(c: char) -> bool {
    ||| '\u{9}' <= c <= '\u{d}'
    ||| c == ' '
    ||| c == '\u{85}'
    ||| c == '\u{a0}'
    ||| c == '\u{1680}'
    ||| '\u{2000}' <= c <= '\u{200a}'
    ||| c == '\u{2028}'
    ||| c == '\u{2029}'
    ||| c == '\u{202f}'
    ||| c == '\u{205f}'
    ||| c == '\u{3000}'
}

/// Whether a character is white space.
pub fn space(c: char) -> (result: bool)
    ensures
        result == is_space(c),
{
    ('\u{9}' <= c && c <= '\u{d}') || c == ' ' || c == '\u{85}' || c == '\u{a0}' || c == '\u{1680}'
        || ('\u{2000}' <= c && c <= '\u{200a}') || c == '\u{2028}' || c == '\u{2029}' || c
        == '\u{202f}' || c == '\u{205f}' || c == '\u{3000}'
}

/// Whether a character is a control character, by Unicode's `Cc` category.
pub open spec fn is_control(c: char) -> bool {
    c <= '\u{1f}' || '\u{7f}' <= c <= '\u{9f}'
}

/// Whether a character is a control character.
pub fn control(c: char) -> (result: bool)
    ensures
        result == is_control(c),
{
    c <= '\u{1f}' || ('\u{7f}' <= c && c <= '\u{9f}')
}

/// Text without the white space in front of it.
pub open spec fn trimmed_start(s: Seq<char>) -> Seq<char>
    decreases s.len(),
{
    if s.len() > 0 && is_space(s[0]) {
        trimmed_start(s.drop_first())
    } else {
        s
    }
}

/// Text without the white space behind it.
pub open spec fn trimmed_end(s: Seq<char>) -> Seq<char>
    decreases s.len(),
{
    if s.len() > 0 && is_space(s.last()) {
        trimmed_end(s.drop_last())
    } else {
        s
    }
}

/// Text without the white space around it.
pub open spec fn trimmed(s: Seq<char>) -> Seq<char> {
    trimmed_end(trimmed_start(s))
}

/// Text with no white space at either end is left alone.
pub proof fn lemma_trimmed_is_identity(s: Seq<char>)
    requires
        s.len() > 0 ==> !is_space(s[0]) && !is_space(s.last()),
    ensures
        trimmed(s) == s,
{
}

/// What is trimmed neither starts nor ends with white space.
pub proof fn lemma_trimmed_ends(s: Seq<char>)
    ensures
        trimmed(s).len() > 0 ==> !is_space(trimmed(s)[0]) && !is_space(trimmed(s).last()),
{
    lemma_trimmed_start_ends(s);
    lemma_trimmed_end_ends(trimmed_start(s));
}

proof fn lemma_trimmed_start_ends(s: Seq<char>)
    ensures
        trimmed_start(s).len() > 0 ==> !is_space(trimmed_start(s)[0]),
    decreases s.len(),
{
    if s.len() > 0 && is_space(s[0]) {
        lemma_trimmed_start_ends(s.drop_first());
    }
}

proof fn lemma_trimmed_end_ends(s: Seq<char>)
    ensures
        trimmed_end(s).len() <= s.len(),
        trimmed_end(s).len() > 0 ==> !is_space(trimmed_end(s).last()) && trimmed_end(s)[0] == s[0],
    decreases s.len(),
{
    if s.len() > 0 && is_space(s.last()) {
        lemma_trimmed_end_ends(s.drop_last());
    }
}

/// White space around a text is what trimming leaves out: with any amount of it
/// on either side, a text trims to what it trims to without.
pub proof fn lemma_trimming_leaves_out_white_space(
    before: Seq<char>,
    s: Seq<char>,
    behind: Seq<char>,
)
    requires
        forall|i: int| 0 <= i < before.len() ==> is_space(#[trigger] before[i]),
        forall|i: int| 0 <= i < behind.len() ==> is_space(#[trigger] behind[i]),
    ensures
        trimmed(before + s + behind) == trimmed(s),
    decreases before.len() + behind.len() + s.len(),
{
    let whole = before + s + behind;
    if before.len() > 0 {
        assert(whole.drop_first() =~= before.drop_first() + s + behind);
        assert(whole[0] == before[0]);
        lemma_trimming_leaves_out_white_space(before.drop_first(), s, behind);
    } else if s.len() > 0 && is_space(s[0]) {
        assert(whole.drop_first() =~= before + s.drop_first() + behind);
        lemma_trimming_leaves_out_white_space(before, s.drop_first(), behind);
    } else if s.len() == 0 {
        assert(whole =~= behind);
        lemma_all_white_space_trims_to_nothing(behind);
        assert(trimmed(s) =~= Seq::empty());
    } else if behind.len() > 0 {
        let shorter = before + s + behind.drop_last();
        assert(whole.drop_last() =~= shorter);
        assert(whole.last() == behind.last());
        assert(whole[0] == s[0] && shorter[0] == s[0]);
        lemma_trimming_leaves_out_white_space(before, s, behind.drop_last());
    } else {
        assert(whole =~= s);
    }
}

proof fn lemma_all_white_space_trims_to_nothing(s: Seq<char>)
    requires
        forall|i: int| 0 <= i < s.len() ==> is_space(#[trigger] s[i]),
    ensures
        trimmed_start(s).len() == 0,
        trimmed(s) == Seq::<char>::empty(),
    decreases s.len(),
{
    if s.len() > 0 {
        lemma_all_white_space_trims_to_nothing(s.drop_first());
    }
    assert(trimmed(s) =~= Seq::empty());
}

/// Trimming leaves out nothing but white space.
pub proof fn lemma_trimming_leaves_out_only_white_space(s: Seq<char>)
    ensures
        exists|a: int, b: int|
            0 <= a <= b <= s.len() && trimmed(s) == #[trigger] s.subrange(a, b) && (forall|i: int|
                0 <= i < a || b <= i < s.len() ==> is_space(#[trigger] s[i])),
    decreases s.len(),
{
    if s.len() > 0 && is_space(s[0]) {
        let rest = s.drop_first();
        lemma_trimming_leaves_out_only_white_space(rest);
        let (a, b) = choose|a: int, b: int|
            0 <= a <= b <= rest.len() && trimmed(rest) == #[trigger] rest.subrange(a, b) && (forall|
                i: int,
            |
                0 <= i < a || b <= i < rest.len() ==> is_space(#[trigger] rest[i]));
        assert(rest.subrange(a, b) =~= s.subrange(a + 1, b + 1));
        assert forall|i: int| 0 <= i < a + 1 || b + 1 <= i < s.len() implies is_space(
            #[trigger] s[i],
        ) by {
            if i > 0 {
                assert(s[i] == rest[i - 1]);
            }
        }
    } else {
        lemma_end_trims_only_white_space(s);
        let b = trimmed_end(s).len() as int;
        assert(trimmed(s) =~= s.subrange(0, b));
    }
}

proof fn lemma_end_trims_only_white_space(s: Seq<char>)
    ensures
        trimmed_end(s).len() <= s.len(),
        trimmed_end(s) == s.take(trimmed_end(s).len() as int),
        forall|i: int| trimmed_end(s).len() <= i < s.len() ==> is_space(#[trigger] s[i]),
    decreases s.len(),
{
    if s.len() > 0 && is_space(s.last()) {
        let rest = s.drop_last();
        lemma_end_trims_only_white_space(rest);
        let n = trimmed_end(rest).len() as int;
        assert(rest.take(n) =~= s.take(n));
        assert forall|i: int| trimmed_end(s).len() <= i < s.len() implies is_space(
            #[trigger] s[i],
        ) by {
            if i < rest.len() {
                assert(s[i] == rest[i]);
            }
        }
    } else {
        assert(s.take(s.len() as int) =~= s);
    }
}

/// The characters of a string.
pub fn chars_of(text: &str) -> (chars: Vec<char>)
    ensures
        chars@ == text@,
{
    let mut chars: Vec<char> = Vec::new();
    for c in it: text.chars()
        invariant
            it.seq() == text@,
            chars@ == text@.take(it.index() as int),
    {
        chars.push(c);
        assert(text@.take(it.index() as int + 1) =~= text@.take(it.index() as int).push(c));
    }
    assert(text@.take(text@.len() as int) =~= text@);
    chars
}

/// A string of the given characters.
pub fn text_of(chars: &[char]) -> (text: String)
    ensures
        text@ == chars@,
{
    let mut text = String::new();
    let mut i: usize = 0;
    while i < chars.len()
        invariant
            i <= chars@.len(),
            text@ == chars@.take(i as int),
        decreases chars@.len() - i,
    {
        text.push(chars[i]);
        i = i + 1;
        assert(chars@.take(i as int) =~= chars@.take(i - 1).push(chars@[i - 1]));
    }
    assert(chars@.take(chars@.len() as int) =~= chars@);
    text
}

/// Whether two strings hold the same text.
pub fn same_chars(a: &[char], b: &[char]) -> (result: bool)
    ensures
        result == (a@ == b@),
{
    if a.len() != b.len() {
        return false;
    }
    let mut i: usize = 0;
    while i < a.len()
        invariant
            a@.len() == b@.len(),
            i <= a@.len(),
            forall|j: int| 0 <= j < i ==> a@[j] == b@[j],
        decreases a@.len() - i,
    {
        if a[i] != b[i] {
            return false;
        }
        i = i + 1;
    }
    assert(a@ =~= b@);
    true
}

/// Whether two strings hold the same text.
pub fn same_text(a: &str, b: &str) -> (result: bool)
    ensures
        result == (a@ == b@),
{
    a.to_owned() == b.to_owned()
}

/// Text without the white space around it.
pub fn trim(chars: &[char]) -> (result: &[char])
    ensures
        result@ == trimmed(chars@),
{
    let (from, to) = trim_ends(chars);
    slice_subrange(chars, from, to)
}

/// Where the text without the white space around it starts and ends.
pub fn trim_ends(chars: &[char]) -> (ends: (usize, usize))
    ensures
        ends.0 <= ends.1 <= chars@.len(),
        chars@.subrange(ends.0 as int, ends.1 as int) == trimmed(chars@),
{
    let mut from: usize = 0;
    assert(chars@.skip(0) =~= chars@);
    while from < chars.len() && space(chars[from])
        invariant
            from <= chars@.len(),
            trimmed_start(chars@.skip(from as int)) == trimmed_start(chars@),
        decreases chars@.len() - from,
    {
        from = from + 1;
        assert(chars@.skip(from - 1).drop_first() =~= chars@.skip(from as int));
    }
    assert(trimmed_start(chars@) =~= chars@.skip(from as int));
    let mut to: usize = chars.len();
    assert(chars@.skip(from as int) =~= chars@.subrange(from as int, to as int));
    while to > from && space(chars[to - 1])
        invariant
            from <= to <= chars@.len(),
            trimmed_end(chars@.subrange(from as int, to as int)) == trimmed(chars@),
        decreases to,
    {
        to = to - 1;
        assert(chars@.subrange(from as int, to + 1).drop_last() =~= chars@.subrange(
            from as int,
            to as int,
        ));
    }
    assert(trimmed_end(chars@.subrange(from as int, to as int)) =~= chars@.subrange(
        from as int,
        to as int,
    ));
    (from, to)
}

/// The text of a string without the white space around it.
pub fn trim_text(text: &str) -> (result: String)
    ensures
        result@ == trimmed(text@),
{
    let chars = chars_of(text);
    text_of(trim(chars.as_slice()))
}

/// How much of a text stands in front of the first `c`: all of it if none does.
pub open spec fn upto(s: Seq<char>, c: char) -> int
    decreases s.len(),
{
    if s.len() == 0 || s[0] == c {
        0
    } else {
        1 + upto(s.drop_first(), c)
    }
}

/// Whether a text holds `c`.
pub open spec fn holds(s: Seq<char>, c: char) -> bool {
    upto(s, c) < s.len()
}

/// [`upto`] is where `c` first stands.
pub proof fn lemma_upto(s: Seq<char>, c: char)
    ensures
        0 <= upto(s, c) <= s.len(),
        forall|j: int| 0 <= j < upto(s, c) ==> #[trigger] s[j] != c,
        upto(s, c) < s.len() ==> s[upto(s, c)] == c,
    decreases s.len(),
{
    if s.len() > 0 && s[0] != c {
        let rest = s.drop_first();
        lemma_upto(rest, c);
        assert forall|j: int| 0 <= j < upto(s, c) implies #[trigger] s[j] != c by {
            if j > 0 {
                assert(s[j] == rest[j - 1]);
            }
        }
    }
}

/// Only one place is where `c` first stands.
pub proof fn lemma_upto_is(s: Seq<char>, c: char, i: int)
    requires
        0 <= i <= s.len(),
        forall|j: int| 0 <= j < i ==> #[trigger] s[j] != c,
        i < s.len() ==> s[i] == c,
    ensures
        upto(s, c) == i,
{
    lemma_upto(s, c);
    let u = upto(s, c);
    if u < i {
        assert(s[u] != c);
    } else if i < u {
        assert(s[i] != c);
    }
}

/// Where `c` first stands.
pub fn find(chars: &[char], c: char) -> (at: Option<usize>)
    ensures
        match at {
            Some(i) => i == upto(chars@, c) && i < chars@.len() && chars@[i as int] == c,
            None => upto(chars@, c) == chars@.len(),
        },
{
    let mut i: usize = 0;
    while i < chars.len()
        invariant
            i <= chars@.len(),
            forall|j: int| 0 <= j < i ==> #[trigger] chars@[j] != c,
        decreases chars@.len() - i,
    {
        if chars[i] == c {
            proof {
                lemma_upto_is(chars@, c, i as int);
            }
            return Some(i);
        }
        i = i + 1;
    }
    proof {
        lemma_upto_is(chars@, c, i as int);
    }
    None
}

/// Text cut at every character that is one of the separators, which are left
/// out: always one piece more than there are of them.
pub open spec fn split_on(s: Seq<char>, separators: Seq<char>) -> Seq<Seq<char>>
    decreases s.len(),
{
    if s.len() == 0 {
        seq![Seq::empty()]
    } else {
        let before = split_on(s.drop_last(), separators);
        if separators.contains(s.last()) {
            before.push(Seq::empty())
        } else {
            before.drop_last().push(before.last().push(s.last()))
        }
    }
}

/// A cut leaves one piece at least.
pub proof fn lemma_split_has_a_piece(s: Seq<char>, separators: Seq<char>)
    ensures
        split_on(s, separators).len() >= 1,
    decreases s.len(),
{
    if s.len() > 0 {
        lemma_split_has_a_piece(s.drop_last(), separators);
    }
}

/// Text with no separator in it is one piece.
pub proof fn lemma_split_without_separator(s: Seq<char>, separators: Seq<char>)
    requires
        forall|i: int| 0 <= i < s.len() ==> !separators.contains(#[trigger] s[i]),
    ensures
        split_on(s, separators) == seq![s],
    decreases s.len(),
{
    if s.len() == 0 {
        assert(s =~= Seq::empty());
    } else {
        lemma_split_without_separator(s.drop_last(), separators);
        assert(s.drop_last().push(s.last()) =~= s);
        assert(split_on(s, separators) =~= seq![s]);
    }
}

/// The pieces of two texts with a separator between them are the pieces of the
/// first and then those of the second.
pub proof fn lemma_split_of_joined(a: Seq<char>, sep: char, b: Seq<char>, separators: Seq<char>)
    requires
        separators.contains(sep),
    ensures
        split_on(a.push(sep) + b, separators) == split_on(a, separators) + split_on(b, separators),
    decreases b.len(),
{
    let whole = a.push(sep) + b;
    lemma_split_has_a_piece(a, separators);
    if b.len() == 0 {
        assert(whole =~= a.push(sep));
        assert(whole.drop_last() =~= a);
        assert(split_on(b, separators) =~= seq![Seq::<char>::empty()]);
        assert(split_on(whole, separators) =~= split_on(a, separators) + split_on(b, separators));
    } else {
        assert(whole.drop_last() =~= a.push(sep) + b.drop_last());
        assert(whole.last() == b.last());
        lemma_split_of_joined(a, sep, b.drop_last(), separators);
        lemma_split_has_a_piece(b.drop_last(), separators);
        assert(split_on(whole, separators) =~= split_on(a, separators) + split_on(b, separators));
    }
}

/// The pieces of a text, as texts.
pub open spec fn pieces_of(pieces: Seq<Vec<char>>) -> Seq<Seq<char>> {
    pieces.map(|i: int, piece: Vec<char>| piece@)
}

/// Whether a character is one of several.
pub fn is_one_of(c: char, chars: &[char]) -> (result: bool)
    ensures
        result == chars@.contains(c),
{
    let mut i: usize = 0;
    while i < chars.len()
        invariant
            i <= chars@.len(),
            forall|j: int| 0 <= j < i ==> chars@[j] != c,
        decreases chars@.len() - i,
    {
        if chars[i] == c {
            return true;
        }
        i = i + 1;
    }
    false
}

/// Text cut at every character that is one of the separators.
pub fn split(chars: &[char], separators: &[char]) -> (pieces: Vec<Vec<char>>)
    ensures
        pieces_of(pieces@) == split_on(chars@, separators@),
{
    let mut done: Vec<Vec<char>> = Vec::new();
    let mut piece: Vec<char> = Vec::new();
    let mut i: usize = 0;
    assert(pieces_of(done@).push(piece@) =~= split_on(chars@.take(0), separators@));
    while i < chars.len()
        invariant
            i <= chars@.len(),
            pieces_of(done@).push(piece@) == split_on(chars@.take(i as int), separators@),
        decreases chars@.len() - i,
    {
        let c = chars[i];
        let ghost before = pieces_of(done@);
        let ghost was = piece@;
        assert(chars@.take(i + 1).drop_last() =~= chars@.take(i as int));
        assert(before.push(was).drop_last() =~= before);
        if is_one_of(c, separators) {
            done.push(piece);
            piece = Vec::new();
            assert(pieces_of(done@) =~= before.push(was));
        } else {
            piece.push(c);
        }
        i = i + 1;
    }
    assert(chars@.take(chars@.len() as int) =~= chars@);
    let ghost before = pieces_of(done@);
    let ghost was = piece@;
    done.push(piece);
    assert(pieces_of(done@) =~= before.push(was));
    done
}

/// Text whose characters are each restyled.
pub open spec fn restyled(s: Seq<char>, style: spec_fn(char) -> char) -> Seq<char> {
    s.map(|i: int, c: char| style(c))
}

/// Restyling that leaves white space and separators what they are leaves text
/// trimmed and cut where it was.
pub proof fn lemma_restyled_is_cut_alike(
    s: Seq<char>,
    style: spec_fn(char) -> char,
    separators: Seq<char>,
)
    requires
        forall|c: char| is_space(#[trigger] style(c)) == is_space(c),
        forall|c: char| separators.contains(#[trigger] style(c)) == separators.contains(c),
    ensures
        trimmed(restyled(s, style)) == restyled(trimmed(s), style),
        split_on(restyled(s, style), separators) == split_on(s, separators).map(
            |i: int, piece: Seq<char>| restyled(piece, style),
        ),
{
    lemma_restyled_start(s, style);
    lemma_restyled_end(trimmed_start(s), style);
    lemma_restyled_split(s, style, separators);
}

proof fn lemma_restyled_start(s: Seq<char>, style: spec_fn(char) -> char)
    requires
        forall|c: char| is_space(#[trigger] style(c)) == is_space(c),
    ensures
        trimmed_start(restyled(s, style)) == restyled(trimmed_start(s), style),
    decreases s.len(),
{
    if s.len() > 0 {
        assert(restyled(s, style)[0] == style(s[0]));
        if is_space(s[0]) {
            lemma_restyled_start(s.drop_first(), style);
            assert(restyled(s, style).drop_first() =~= restyled(s.drop_first(), style));
        }
    }
}

proof fn lemma_restyled_end(s: Seq<char>, style: spec_fn(char) -> char)
    requires
        forall|c: char| is_space(#[trigger] style(c)) == is_space(c),
    ensures
        trimmed_end(restyled(s, style)) == restyled(trimmed_end(s), style),
    decreases s.len(),
{
    if s.len() > 0 {
        assert(restyled(s, style).last() == style(s.last()));
        if is_space(s.last()) {
            lemma_restyled_end(s.drop_last(), style);
            assert(restyled(s, style).drop_last() =~= restyled(s.drop_last(), style));
        }
    }
}

proof fn lemma_restyled_split(
    s: Seq<char>,
    style: spec_fn(char) -> char,
    separators: Seq<char>,
)
    requires
        forall|c: char| separators.contains(#[trigger] style(c)) == separators.contains(c),
    ensures
        split_on(restyled(s, style), separators) == split_on(s, separators).map(
            |i: int, piece: Seq<char>| restyled(piece, style),
        ),
    decreases s.len(),
{
    let each = |i: int, piece: Seq<char>| restyled(piece, style);
    let all = split_on(restyled(s, style), separators);
    let pieces = split_on(s, separators);
    if s.len() == 0 {
        assert(restyled(Seq::empty(), style) =~= Seq::empty());
        assert(all =~= pieces.map(each));
    } else {
        let before = split_on(s.drop_last(), separators);
        lemma_restyled_split(s.drop_last(), style, separators);
        lemma_split_has_a_piece(s.drop_last(), separators);
        assert(restyled(s, style).drop_last() =~= restyled(s.drop_last(), style));
        assert(restyled(s, style).last() == style(s.last()));
        assert(restyled(Seq::empty(), style) =~= Seq::empty());
        assert(restyled(before.last().push(s.last()), style) =~= restyled(before.last(), style).push(
            style(s.last()),
        ));
        assert(all =~= pieces.map(each));
    }
}

/// What a digit is worth, up to base 16: its value, or 16 for a character that
/// is no digit at all.
pub open spec fn digit_of(c: char) -> nat {
    if '0' <= c <= '9' {
        (c as nat - '0' as nat) as nat
    } else if 'a' <= c <= 'f' {
        (c as nat - 'a' as nat + 10) as nat
    } else if 'A' <= c <= 'F' {
        (c as nat - 'A' as nat + 10) as nat
    } else {
        16
    }
}

/// What a digit is worth.
pub fn digit(c: char) -> (value: u32)
    ensures
        value == digit_of(c),
        value <= 16,
{
    if '0' <= c && c <= '9' {
        c as u32 - '0' as u32
    } else if 'a' <= c && c <= 'f' {
        c as u32 - 'a' as u32 + 10
    } else if 'A' <= c && c <= 'F' {
        c as u32 - 'A' as u32 + 10
    } else {
        16
    }
}

/// Whether every character is a digit of the base.
pub open spec fn all_digits(s: Seq<char>, base: nat) -> bool {
    forall|i: int| 0 <= i < s.len() ==> digit_of(#[trigger] s[i]) < base
}

/// The number a run of digits writes, most significant first.
pub open spec fn number_of(s: Seq<char>, base: nat) -> nat
    decreases s.len(),
{
    if s.len() == 0 {
        0
    } else {
        number_of(s.drop_last(), base) * base + digit_of(s.last())
    }
}

/// The number a run of digits of the base writes, one digit at least, if it is
/// no more than `max`.
pub open spec fn digits_value(s: Seq<char>, base: nat, max: nat) -> Option<nat> {
    if s.len() > 0 && all_digits(s, base) && number_of(s, base) <= max {
        Some(number_of(s, base))
    } else {
        None
    }
}

/// [`digits_value`], with a `+` allowed in front of the digits.
pub open spec fn unsigned_value(s: Seq<char>, base: nat, max: nat) -> Option<nat> {
    if s.len() > 0 && s[0] == '+' {
        digits_value(s.drop_first(), base, max)
    } else {
        digits_value(s, base, max)
    }
}

/// The number a run of digits writes.
pub fn parse_digits(chars: &[char], base: u64, max: u64) -> (value: Option<u64>)
    requires
        2 <= base <= 16,
        max <= 0xffff_ffff,
    ensures
        match digits_value(chars@, base as nat, max as nat) {
            Some(n) => value == Some(n as u64) && n <= max,
            None => value is None,
        },
{
    if chars.len() == 0 {
        return None;
    }
    let mut value: u64 = 0;
    let mut over: bool = false;
    let mut i: usize = 0;
    while i < chars.len()
        invariant
            2 <= base <= 16,
            max <= 0xffff_ffff,
            i <= chars@.len(),
            all_digits(chars@.take(i as int), base as nat),
            !over ==> value == number_of(chars@.take(i as int), base as nat) && value <= max,
            over ==> number_of(chars@.take(i as int), base as nat) > max,
        decreases chars@.len() - i,
    {
        let d: u64 = digit(chars[i]) as u64;
        if d >= base {
            proof {
                assert(digit_of(chars@[i as int]) >= base);
                assert(!all_digits(chars@, base as nat));
            }
            return None;
        }
        let ghost before = number_of(chars@.take(i as int), base as nat);
        proof {
            let next = chars@.take(i + 1);
            assert(next.drop_last() =~= chars@.take(i as int));
            assert(next.last() == chars@[i as int]);
            assert(number_of(next, base as nat) == before * base + d);
            assert(before * base >= before) by (nonlinear_arith)
                requires
                    base >= 2,
            ;
            assert(!over ==> before * base <= 0xffff_ffff * 16) by (nonlinear_arith)
                requires
                    !over ==> before <= 0xffff_ffff,
                    2 <= base <= 16,
            ;
            assert forall|j: int| 0 <= j < next.len() implies digit_of(#[trigger] next[j])
                < base by {
                if j < i {
                    assert(next[j] == chars@.take(i as int)[j]);
                }
            }
        }
        if !over {
            let next: u64 = value * base + d;
            if next > max {
                over = true;
            } else {
                value = next;
            }
        }
        i = i + 1;
    }
    assert(chars@.take(chars@.len() as int) =~= chars@);
    if over {
        None
    } else {
        Some(value)
    }
}

/// The number a run of digits writes, with a `+` allowed in front of it.
pub fn parse_unsigned(chars: &[char], base: u64, max: u64) -> (value: Option<u64>)
    requires
        2 <= base <= 16,
        max <= 0xffff_ffff,
    ensures
        match unsigned_value(chars@, base as nat, max as nat) {
            Some(n) => value == Some(n as u64) && n <= max,
            None => value is None,
        },
{
    if chars.len() > 0 && chars[0] == '+' {
        let rest = slice_subrange(chars, 1, chars.len());
        assert(rest@ =~= chars@.drop_first());
        parse_digits(rest, base, max)
    } else {
        parse_digits(chars, base, max)
    }
}

/// Why a text is not a number.
#[derive(Debug, Clone, Copy, PartialEq, Eq, Structural)]
pub enum NumberFault {
    /// There is nothing to read.
    Empty,
    /// A character is no digit.
    InvalidDigit,
    /// The digits come to more than there is room for.
    TooLarge,
}

impl NumberFault {
    /// The fault in words.
    pub open spec fn words(self) -> Seq<char> {
        match self {
            NumberFault::Empty => "cannot parse integer from empty string"@,
            NumberFault::InvalidDigit => "invalid digit found in string"@,
            NumberFault::TooLarge => "number too large to fit in target type"@,
        }
    }

    /// The fault in words.
    pub fn message(self) -> (message: &'static str)
        ensures
            message@ == self.words(),
    {
        match self {
            NumberFault::Empty => "cannot parse integer from empty string",
            NumberFault::InvalidDigit => "invalid digit found in string",
            NumberFault::TooLarge => "number too large to fit in target type",
        }
    }
}

/// What stops a reader of digits that has come to `value` by the `i`th character.
pub open spec fn stopped_by(s: Seq<char>, base: nat, max: nat, i: int, value: nat) -> NumberFault
    decreases s.len() - i,
{
    if i >= s.len() || digit_of(s[i]) >= base {
        NumberFault::InvalidDigit
    } else if value * base + digit_of(s[i]) > max {
        NumberFault::TooLarge
    } else {
        stopped_by(s, base, max, i + 1, value * base + digit_of(s[i]))
    }
}

/// Why a text that writes no number up to `max` does not: what is met first, reading
/// from the left.
pub open spec fn unsigned_fault(s: Seq<char>, base: nat, max: nat) -> NumberFault {
    if s.len() == 0 {
        NumberFault::Empty
    } else if s[0] == '+' {
        stopped_by(s, base, max, 1, 0)
    } else {
        stopped_by(s, base, max, 0, 0)
    }
}

/// Why a text that writes no number up to `max` does not.
pub fn number_fault(chars: &[char], base: u64, max: u64) -> (fault: NumberFault)
    requires
        2 <= base <= 16,
        max <= 0xffff_ffff,
    ensures
        fault == unsigned_fault(chars@, base as nat, max as nat),
{
    if chars.len() == 0 {
        return NumberFault::Empty;
    }
    let mut i: usize = if chars[0] == '+' {
        1
    } else {
        0
    };
    let mut value: u64 = 0;
    while i < chars.len()
        invariant
            2 <= base <= 16,
            value <= max <= 0xffff_ffff,
            i <= chars@.len(),
            chars@.len() > 0,
            unsigned_fault(chars@, base as nat, max as nat) == stopped_by(
                chars@,
                base as nat,
                max as nat,
                i as int,
                value as nat,
            ),
        decreases chars@.len() - i,
    {
        let d: u64 = digit(chars[i]) as u64;
        if d >= base {
            return NumberFault::InvalidDigit;
        }
        assert(0 <= value * base <= 0xffff_ffff * 16) by (nonlinear_arith)
            requires
                value <= 0xffff_ffff,
                2 <= base <= 16,
        ;
        let next: u64 = value * base + d;
        if next > max {
            return NumberFault::TooLarge;
        }
        value = next;
        i = i + 1;
    }
    NumberFault::InvalidDigit
}

/// The character a digit below 16 is written as, in lower case.
pub open spec fn digit_char(d: nat) -> char {
    if d < 10 {
        ('0' as nat + d) as char
    } else {
        ('a' as nat + d - 10) as char
    }
}

/// The character a digit below 16 is written as.
pub fn digit_text(d: u8) -> (c: char)
    requires
        d < 16,
    ensures
        c == digit_char(d as nat),
{
    if d < 10 {
        (48u8 + d) as char
    } else {
        (87u8 + d) as char
    }
}

/// A number in a base, most significant digit first and no digit more than it
/// needs.
pub open spec fn written(n: nat, base: nat) -> Seq<char>
    decreases n,
    when base >= 2
{
    if n < base {
        seq![digit_char(n)]
    } else {
        proof {
            assert(n / base < n) by (nonlinear_arith)
                requires
                    n >= base,
                    base >= 2,
            ;
        }
        written(n / base, base).push(digit_char(n % base))
    }
}

/// A number in decimal.
pub open spec fn decimal(n: nat) -> Seq<char> {
    written(n, 10)
}

/// Writes a number in a base on the end of a string.
pub fn push_number(text: &mut String, n: u128, base: u128)
    requires
        2 <= base <= 16,
    ensures
        final(text)@ == old(text)@ + written(n as nat, base as nat),
    decreases n,
{
    if n < base {
        text.push(digit_text(n as u8));
    } else {
        proof {
            assert(n / base < n) by (nonlinear_arith)
                requires
                    n >= base,
                    base >= 2,
            ;
            assert(n % base < base) by (nonlinear_arith)
                requires
                    base >= 2,
            ;
        }
        push_number(text, n / base, base);
        text.push(digit_text((n % base) as u8));
    }
    assert(text@ =~= old(text)@ + written(n as nat, base as nat));
}

/// Writes a number in decimal on the end of a string.
pub fn push_decimal(text: &mut String, n: u128)
    ensures
        final(text)@ == old(text)@ + decimal(n as nat),
{
    push_number(text, n, 10);
}

/// What is written is read back: the digits of a number are digits of its base
/// and write the number, and no number but zero starts with a zero.
pub proof fn lemma_written_reads_back(n: nat, base: nat)
    requires
        2 <= base <= 16,
    ensures
        written(n, base).len() >= 1,
        all_digits(written(n, base), base),
        number_of(written(n, base), base) == n,
        n > 0 ==> written(n, base)[0] != '0',
        n < base ==> written(n, base).len() == 1,
    decreases n,
{
    let s = written(n, base);
    if n < base {
        assert(s.drop_last() =~= Seq::empty());
        assert(number_of(s.drop_last(), base) * base == 0) by (nonlinear_arith)
            requires
                number_of(s.drop_last(), base) == 0,
        ;
    } else {
        assert(0 < n / base < n) by (nonlinear_arith)
            requires
                n >= base,
                base >= 2,
        ;
        assert(0 <= n % base < base) by (nonlinear_arith)
            requires
                base >= 2,
        ;
        lemma_written_reads_back(n / base, base);
        assert(s.drop_last() =~= written(n / base, base));
        assert((n / base) * base + n % base == n) by (nonlinear_arith)
            requires
                base >= 2,
        ;
        assert(s[0] == written(n / base, base)[0]);
    }
}

/// The order of two texts: that of the first characters in which they differ,
/// and a text before every longer one it begins.
pub open spec fn text_less(a: Seq<char>, b: Seq<char>) -> bool
    decreases a.len(),
{
    if b.len() == 0 {
        false
    } else if a.len() == 0 {
        true
    } else if a[0] == b[0] {
        text_less(a.drop_first(), b.drop_first())
    } else {
        a[0] < b[0]
    }
}

/// The order of texts is total: of two, one comes first or they are the same.
pub proof fn lemma_text_order_is_total(a: Seq<char>, b: Seq<char>)
    ensures
        text_less(a, b) || text_less(b, a) || a == b,
        !(text_less(a, b) && text_less(b, a)),
        !text_less(a, a),
    decreases a.len() + b.len(),
{
    if a.len() == 0 && b.len() == 0 {
        assert(a =~= b);
    } else if a.len() > 0 && b.len() > 0 && a[0] == b[0] {
        lemma_text_order_is_total(a.drop_first(), b.drop_first());
        if a.drop_first() == b.drop_first() {
            assert(a =~= seq![a[0]] + a.drop_first());
            assert(b =~= seq![b[0]] + b.drop_first());
        }
    }
    if a.len() > 0 {
        lemma_text_not_less_than_itself(a);
    }
}

proof fn lemma_text_not_less_than_itself(a: Seq<char>)
    ensures
        !text_less(a, a),
    decreases a.len(),
{
    if a.len() > 0 {
        lemma_text_not_less_than_itself(a.drop_first());
    }
}

/// The order of texts is transitive.
pub proof fn lemma_text_order_is_transitive(a: Seq<char>, b: Seq<char>, c: Seq<char>)
    requires
        text_less(a, b),
        text_less(b, c),
    ensures
        text_less(a, c),
    decreases a.len(),
{
    if a.len() > 0 && a[0] == b[0] && b[0] == c[0] {
        lemma_text_order_is_transitive(a.drop_first(), b.drop_first(), c.drop_first());
    }
}

/// Whether one text comes before another.
pub fn less_text(a: &str, b: &str) -> (result: bool)
    ensures
        result == text_less(a@, b@),
{
    let left = chars_of(a);
    let right = chars_of(b);
    let mut i: usize = 0;
    assert(left@.skip(0) =~= left@);
    assert(right@.skip(0) =~= right@);
    while i < left.len() && i < right.len()
        invariant
            left@ == a@,
            right@ == b@,
            i <= left@.len(),
            i <= right@.len(),
            text_less(left@, right@) == text_less(left@.skip(i as int), right@.skip(i as int)),
        decreases left@.len() - i,
    {
        assert(left@.skip(i as int)[0] == left@[i as int]);
        assert(right@.skip(i as int)[0] == right@[i as int]);
        if left[i] != right[i] {
            return left[i] < right[i];
        }
        assert(left@.skip(i as int).drop_first() =~= left@.skip(i + 1));
        assert(right@.skip(i as int).drop_first() =~= right@.skip(i + 1));
        i = i + 1;
    }
    i < right.len()
}

/// How many bytes a character takes in UTF-8.
pub open spec fn width_of(c: char) -> nat {
    if c as nat <= 0x7f {
        1
    } else if c as nat <= 0x7ff {
        2
    } else if c as nat <= 0xffff {
        3
    } else {
        4
    }
}

/// How many bytes a character takes in UTF-8.
pub fn width(c: char) -> (bytes: usize)
    ensures
        bytes == width_of(c),
        1 <= bytes <= 4,
{
    let code: u32 = c as u32;
    if code <= 0x7f {
        1
    } else if code <= 0x7ff {
        2
    } else if code <= 0xffff {
        3
    } else {
        4
    }
}

/// How many bytes a text takes in UTF-8.
pub open spec fn byte_len(s: Seq<char>) -> nat {
    utf8::encode_utf8(s).len()
}

/// A text one character longer takes that character's bytes more.
pub proof fn lemma_byte_len_of_push(s: Seq<char>, c: char)
    ensures
        byte_len(s.push(c)) == byte_len(s) + width_of(c),
    decreases s.len(),
{
    let t = s.push(c);
    if s.len() == 0 {
        assert(t.drop_first() =~= Seq::<char>::empty());
        assert(utf8::encode_utf8(t.drop_first()).len() == 0);
        assert(utf8::encode_utf8(s).len() == 0);
        assert(utf8::encode_utf8(t) =~= utf8::encode_scalar(c as u32) + utf8::encode_utf8(t.drop_first()));
        assert(utf8::encode_scalar(c as u32).len() == width_of(c));
    } else {
        lemma_byte_len_of_push(s.drop_first(), c);
        assert(t.drop_first() =~= s.drop_first().push(c));
        assert(t[0] == s[0]);
    }
}

/// Two texts together take the bytes of both.
pub proof fn lemma_byte_len_of_joined(a: Seq<char>, b: Seq<char>)
    ensures
        byte_len(a + b) == byte_len(a) + byte_len(b),
    decreases b.len(),
{
    if b.len() == 0 {
        assert(a + b =~= a);
        assert(utf8::encode_utf8(b).len() == 0);
    } else {
        let before = b.drop_last();
        lemma_byte_len_of_joined(a, before);
        lemma_byte_len_of_push(a + before, b.last());
        lemma_byte_len_of_push(before, b.last());
        assert((a + before).push(b.last()) =~= a + b);
        assert(before.push(b.last()) =~= b);
    }
}

/// How many characters of the front of a text fit in `room` bytes: as many as do.
pub fn fitting(chars: &[char], room: usize) -> (count: usize)
    requires
        room <= 0xffff,
    ensures
        count <= chars@.len(),
        byte_len(chars@.take(count as int)) <= room,
        count < chars@.len() ==> byte_len(chars@.take(count + 1)) > room,
{
    let mut count: usize = 0;
    let mut used: usize = 0;
    assert(utf8::encode_utf8(chars@.take(0)).len() == 0);
    while count < chars.len()
        invariant
            room <= 0xffff,
            count <= chars@.len(),
            used == byte_len(chars@.take(count as int)),
            used <= room,
        decreases chars@.len() - count,
    {
        let next: usize = used + width(chars[count]);
        proof {
            lemma_byte_len_of_push(chars@.take(count as int), chars@[count as int]);
            assert(chars@.take(count as int).push(chars@[count as int]) =~= chars@.take(count + 1));
        }
        if next > room {
            return count;
        }
        used = next;
        count = count + 1;
    }
    count
}

/// An optional text, as what it says.
pub open spec fn said(text: Option<String>) -> Option<Seq<char>> {
    match text {
        Some(t) => Some(t@),
        None => None,
    }
}

/// An optional text read by reference, as what it says.
pub open spec fn said_by(text: Option<&str>) -> Option<Seq<char>> {
    match text {
        Some(t) => Some(t@),
        None => None,
    }
}

/// An optional text, by reference.
pub fn as_text(text: &Option<String>) -> (result: Option<&str>)
    ensures
        said_by(result) == said(*text),
{
    match text {
        Some(t) => Some(t.as_str()),
        None => None,
    }
}

/// Whether two optional texts say the same.
pub fn same_saying(a: &Option<String>, b: &Option<String>) -> (result: bool)
    ensures
        result == (said(*a) == said(*b)),
{
    match (a, b) {
        (Some(x), Some(y)) => same_text(x.as_str(), y.as_str()),
        (None, None) => true,
        _ => false,
    }
}

/// The same characters again.
pub fn copy_chars(chars: &[char]) -> (copy: Vec<char>)
    ensures
        copy@ == chars@,
{
    let mut copy: Vec<char> = Vec::new();
    let mut i: usize = 0;
    while i < chars.len()
        invariant
            i <= chars@.len(),
            copy@ == chars@.take(i as int),
        decreases chars@.len() - i,
    {
        copy.push(chars[i]);
        i = i + 1;
        assert(chars@.take(i as int) =~= chars@.take(i - 1).push(chars@[i - 1]));
    }
    assert(chars@.take(i as int) =~= chars@);
    copy
}

/// The first of two optional texts that says something.
pub open spec fn or_said(a: Option<Seq<char>>, b: Option<Seq<char>>) -> Option<Seq<char>> {
    if a is Some {
        a
    } else {
        b
    }
}

/// The first of two optional texts that says something.
pub fn first_said(a: Option<String>, b: Option<String>) -> (first: Option<String>)
    ensures
        said(first) == or_said(said(a), said(b)),
{
    match a {
        Some(t) => Some(t),
        None => b,
    }
}

/// Another optional text that says the same.
pub fn say_again(text: &Option<String>) -> (result: Option<String>)
    ensures
        said(result) == said(*text),
{
    match text {
        Some(t) => Some(t.as_str().to_owned()),
        None => None,
    }
}

impl Same for String {
    type Model = Seq<char>;

    open spec fn model(&self) -> Seq<char> {
        self@
    }

    fn same(&self, other: &Self) -> (result: bool) {
        same_text(self.as_str(), other.as_str())
    }

    fn copied(&self) -> (result: Self) {
        self.as_str().to_owned()
    }
}

impl Ordered for String {
    open spec fn before(a: Seq<char>, b: Seq<char>) -> bool {
        text_less(a, b)
    }

    proof fn order_is_total(a: Seq<char>, b: Seq<char>) {
        lemma_text_order_is_total(a, b);
    }

    proof fn order_is_transitive(a: Seq<char>, b: Seq<char>, c: Seq<char>) {
        lemma_text_order_is_transitive(a, b, c);
    }

    fn precedes(&self, other: &Self) -> (result: bool) {
        less_text(self.as_str(), other.as_str())
    }
}

/// Two texts are ordered by the first characters in which they differ, and a
/// text stands before every longer one that it begins.
pub proof fn lemma_text_is_ordered_by_the_first_difference(
    common: Seq<char>,
    x: char,
    rest: Seq<char>,
    y: char,
    other: Seq<char>,
)
    ensures
        text_less(common, common.push(x) + rest),
        !text_less(common.push(x) + rest, common),
        x != y ==> (text_less(common.push(x) + rest, common.push(y) + other) <==> (x as u32) < (
        y as u32)),
    decreases common.len(),
{
    let (a, b) = (common.push(x) + rest, common.push(y) + other);
    if common.len() > 0 {
        lemma_text_is_ordered_by_the_first_difference(common.drop_first(), x, rest, y, other);
        assert(a.drop_first() =~= common.drop_first().push(x) + rest);
        assert(b.drop_first() =~= common.drop_first().push(y) + other);
    }
}

/// The sixteen digits, in order.
pub open spec fn digits_in_order() -> Seq<char> {
    seq!['0', '1', '2', '3', '4', '5', '6', '7', '8', '9', 'a', 'b', 'c', 'd', 'e', 'f']
}

/// A digit is worth its place among the sixteen, and is written as the one in that
/// place; a letter of either case is worth the same, and no other character is
/// worth anything.
pub proof fn lemma_a_digit_is_worth_its_place(d: int, c: char)
    ensures
        0 <= d < 16 ==> digit_of(digits_in_order()[d]) == d && digit_char(d as nat)
            == digits_in_order()[d],
        digit_of('A') == 10 && digit_of('B') == 11 && digit_of('C') == 12 && digit_of('D') == 13
            && digit_of('E') == 14 && digit_of('F') == 15,
        digit_of(c) < 16 ==> digits_in_order().contains(c) || ('A' <= c && c <= 'F'),
{
    if digit_of(c) < 16 && !('A' <= c && c <= 'F') {
        assert(digits_in_order()[digit_of(c) as int] == c);
    }
}

/// Digits have their places: the number two runs of digits write together is the
/// first one's, moved up by as many places as the second has, and the second's.
pub proof fn lemma_digits_have_their_places(a: Seq<char>, b: Seq<char>, base: nat)
    ensures
        number_of(a + b, base) == number_of(a, base) * vstd::arithmetic::power::pow(
            base as int,
            b.len(),
        ) + number_of(b, base),
    decreases b.len(),
{
    let high = number_of(a, base) as int;
    if b.len() == 0 {
        assert(a + b =~= a);
        vstd::arithmetic::power::lemma_pow0(base as int);
    } else {
        let before = b.drop_last();
        lemma_digits_have_their_places(a, before, base);
        assert((a + b).drop_last() =~= a + before);
        reveal(vstd::arithmetic::power::pow);
        let places = vstd::arithmetic::power::pow(base as int, before.len());
        let low = number_of(before, base) as int;
        assert((high * places + low) * base == high * (base * places) + low * base)
            by (nonlinear_arith);
    }
}

proof fn lemma_stopped_behind(s: Seq<char>, base: nat, max: nat, i: int, value: nat)
    requires
        1 <= i,
        s.len() > 0,
    ensures
        stopped_by(s, base, max, i, value) == stopped_by(s.drop_first(), base, max, i - 1, value),
    decreases s.len() - i,
{
    if i < s.len() {
        assert(s.drop_first()[i - 1] == s[i]);
        lemma_stopped_behind(s, base, max, i + 1, value * base + digit_of(s[i]));
    }
}

/// Whether the first `n` characters of a text are digits that come to more than
/// there is room for.
pub open spec fn exceeds_by(s: Seq<char>, base: nat, max: nat, n: int) -> bool {
    &&& 0 < n <= s.len()
    &&& all_digits(s.take(n), base)
    &&& number_of(s.take(n), base) > max
}

proof fn lemma_stopped(s: Seq<char>, base: nat, max: nat, i: int)
    requires
        0 <= i <= s.len(),
        all_digits(s.take(i), base),
        number_of(s.take(i), base) <= max,
        forall|n: int| n <= i ==> !#[trigger] exceeds_by(s, base, max, n),
    ensures
        stopped_by(s, base, max, i, number_of(s.take(i), base)) is TooLarge <==> exists|n: int|
            #[trigger] exceeds_by(s, base, max, n),
        !(stopped_by(s, base, max, i, number_of(s.take(i), base)) is Empty),
    decreases s.len() - i,
{
    if i < s.len() {
        let next = s.take(i + 1);
        assert(next.drop_last() =~= s.take(i));
        assert(next.last() == s[i]);
        if digit_of(s[i]) >= base {
            assert forall|n: int| !#[trigger] exceeds_by(s, base, max, n) by {
                if i < n <= s.len() {
                    assert(s.take(n)[i] == s[i]);
                }
            }
        } else {
            assert forall|k: int| 0 <= k < next.len() implies digit_of(#[trigger] next[k])
                < base by {
                if k < i {
                    assert(s.take(i)[k] == next[k]);
                }
            }
            if number_of(next, base) > max {
                assert(exceeds_by(s, base, max, i + 1));
            } else {
                assert forall|n: int| n <= i + 1 implies !#[trigger] exceeds_by(
                    s,
                    base,
                    max,
                    n,
                ) by {}
                lemma_stopped(s, base, max, i + 1);
            }
        }
    } else {
        assert forall|n: int| !#[trigger] exceeds_by(s, base, max, n) by {}
    }
}

/// A text that is no number is one for want of anything to read, for coming to too
/// much before anything else is met, or for a character that is no digit: in that
/// order, whatever stands behind, a `+` in front put aside.
pub proof fn lemma_why_a_text_is_no_number(s: Seq<char>, base: nat, max: nat)
    requires
        base >= 2,
    ensures
        unsigned_fault(s, base, max) is Empty <==> s.len() == 0,
        s.len() > 0 && s[0] != '+' ==> (unsigned_fault(s, base, max) is TooLarge <==> exists|n: int|
            #[trigger] exceeds_by(s, base, max, n)),
        s.len() > 0 && s[0] == '+' ==> (unsigned_fault(s, base, max) is TooLarge <==> exists|n: int|
            #[trigger] exceeds_by(s.drop_first(), base, max, n)),
{
    let bare = if s.len() > 0 && s[0] == '+' {
        s.drop_first()
    } else {
        s
    };
    assert(bare.take(0) =~= Seq::empty());
    lemma_stopped(bare, base, max, 0);
    if s.len() > 0 && s[0] == '+' {
        lemma_stopped_behind(s, base, max, 1, 0);
    }
}

} // verus!
