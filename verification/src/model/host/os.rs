//! # What a host is running
//!
//! [`OsFingerprint`] is an operating system as one technique identified it,
//! carrying the accuracy that says how much to believe it.
//!
//! Several techniques answer the same question from different evidence, and they
//! disagree. The accuracy is what makes them combinable at all: it ranks two
//! findings without either one having to know how the other was reached.
//! [`OsFingerprint::merge`] is that rule, and [`merged`] states it.

use crate::ordered::OrderedSet;
use crate::text;
use vstd::prelude::*;
use vstd::slice::slice_subrange;

verus! {

/// The most CPE identifiers one fingerprint will have recorded against it.
///
/// A bound on what a single target can make this process allocate: the
/// identifiers are derived from what the target said.
pub const MAX_CPES_PER_OS: usize = 50;

/// The most evidence one fingerprint carries, in bytes.
///
/// Readings accumulate, and each is worth keeping. This bounds the record at the
/// point where it stops describing a host and starts logging a session.
pub const MAX_EVIDENCE_LEN: usize = 512;

// ---------------------------------------------------------------------------
// Readings in an evidence line
// ---------------------------------------------------------------------------

/// What separates two readings in an evidence line.
pub open spec fn separator() -> Seq<char> {
    seq![' ', '|', ' ']
}

/// Whether a separator stands at `i`.
pub open spec fn separates(s: Seq<char>, i: int) -> bool {
    i + 3 <= s.len() && s[i] == ' ' && s[i + 1] == '|' && s[i + 2] == ' '
}

/// The readings of a line from `start` on, where no separator stands between
/// `start` and `i`: cut at each separator, the leftmost first.
pub open spec fn readings_from(s: Seq<char>, start: int, i: int) -> Seq<Seq<char>>
    decreases s.len() - i,
{
    if i + 3 > s.len() {
        seq![s.skip(start)]
    } else if separates(s, i) {
        seq![s.subrange(start, i)] + readings_from(s, i + 3, i + 3)
    } else {
        readings_from(s, start, i + 1)
    }
}

/// The readings of an evidence line.
pub open spec fn readings(s: Seq<char>) -> Seq<Seq<char>> {
    readings_from(s, 0, 0)
}

/// Whether some reading already says what `part` does, perhaps at greater length.
pub open spec fn already_said(kept: Seq<Seq<char>>, part: Seq<char>) -> bool {
    exists|i: int| 0 <= i < kept.len() && part.is_prefix_of(#[trigger] kept[i])
}

/// The readings of `kept` that `part` does not extend.
pub open spec fn unextended(kept: Seq<Seq<char>>, part: Seq<char>) -> Seq<Seq<char>>
    decreases kept.len(),
{
    if kept.len() == 0 {
        kept
    } else {
        let before = unextended(kept.drop_last(), part);
        if kept.last().is_prefix_of(part) {
            before
        } else {
            before.push(kept.last())
        }
    }
}

/// The readings kept once one more has arrived: one that is already said is
/// dropped, and one that extends another takes its place.
pub open spec fn kept_with(kept: Seq<Seq<char>>, part: Seq<char>) -> Seq<Seq<char>> {
    if already_said(kept, part) {
        kept
    } else {
        unextended(kept, part).push(part)
    }
}

/// The readings kept of a list of them.
pub open spec fn kept_of(parts: Seq<Seq<char>>) -> Seq<Seq<char>>
    decreases parts.len(),
{
    if parts.len() == 0 {
        Seq::empty()
    } else {
        kept_with(kept_of(parts.drop_last()), parts.last())
    }
}

/// How many bytes a reading adds to a line that is already `length` bytes long.
pub open spec fn cost(part: Seq<char>, length: int) -> int {
    text::byte_len(part) + if length == 0 {
        0int
    } else {
        3int
    }
}

/// How many bytes the readings that fit come to, each taken whole or not at all.
pub open spec fn fitted_length(parts: Seq<Seq<char>>) -> int
    decreases parts.len(),
{
    if parts.len() == 0 {
        0
    } else {
        let length = fitted_length(parts.drop_last());
        if length + cost(parts.last(), length) <= MAX_EVIDENCE_LEN {
            length + cost(parts.last(), length)
        } else {
            length
        }
    }
}

/// The readings that fit, each taken whole or not at all.
pub open spec fn fitted(parts: Seq<Seq<char>>) -> Seq<Seq<char>>
    decreases parts.len(),
{
    if parts.len() == 0 {
        parts
    } else {
        let length = fitted_length(parts.drop_last());
        if length + cost(parts.last(), length) <= MAX_EVIDENCE_LEN {
            fitted(parts.drop_last()).push(parts.last())
        } else {
            fitted(parts.drop_last())
        }
    }
}

/// Readings as one line.
pub open spec fn line_of(parts: Seq<Seq<char>>) -> Seq<char>
    decreases parts.len(),
{
    if parts.len() == 0 {
        Seq::empty()
    } else if parts.len() == 1 {
        parts[0]
    } else {
        line_of(parts.drop_last()) + separator() + parts.last()
    }
}

/// Two evidence lines as one: each reading once and in the order it arrived, one
/// that another extends left out, and as many as fit.
pub open spec fn joined(existing: Seq<char>, incoming: Seq<char>) -> Seq<char> {
    line_of(fitted(kept_of(readings(existing) + readings(incoming))))
}

/// Two optional evidence lines as one.
pub open spec fn joined_evidence(
    existing: Option<Seq<char>>,
    incoming: Option<Seq<char>>,
) -> Option<Seq<char>> {
    match (existing, incoming) {
        (Some(a), Some(b)) => Some(joined(a, b)),
        _ => text::or_said(existing, incoming),
    }
}

/// Texts, as what they say.
spec fn texts(parts: Seq<Vec<char>>) -> Seq<Seq<char>> {
    parts.map(|i: int, part: Vec<char>| part@)
}

/// Whether one text begins with another.
fn starts_with(whole: &[char], part: &[char]) -> (result: bool)
    ensures
        result == part@.is_prefix_of(whole@),
{
    if part.len() > whole.len() {
        return false;
    }
    let mut i: usize = 0;
    while i < part.len()
        invariant
            part@.len() <= whole@.len(),
            i <= part@.len(),
            forall|j: int| 0 <= j < i ==> part@[j] == whole@[j],
        decreases part@.len() - i,
    {
        if part[i] != whole[i] {
            assert(whole@.subrange(0, part@.len() as int)[i as int] != part@[i as int]);
            return false;
        }
        i = i + 1;
    }
    assert(whole@.subrange(0, part@.len() as int) =~= part@);
    true
}

/// Cuts a line at each separator.
fn split_readings(line: &[char]) -> (parts: Vec<Vec<char>>)
    ensures
        texts(parts@) == readings(line@),
{
    let mut parts: Vec<Vec<char>> = Vec::new();
    let mut start: usize = 0;
    let mut i: usize = 0;
    let n: usize = line.len();
    assert(texts(parts@) + readings_from(line@, 0, 0) =~= readings(line@));
    while n >= 3 && i <= n - 3
        invariant
            n == line@.len(),
            start <= i <= n,
            texts(parts@) + readings_from(line@, start as int, i as int) == readings(line@),
        decreases n - i,
    {
        if line[i] == ' ' && line[i + 1] == '|' && line[i + 2] == ' ' {
            let ghost before = texts(parts@);
            let piece = text::copy_chars(slice_subrange(line, start, i));
            parts.push(piece);
            proof {
                assert(piece@ =~= line@.subrange(start as int, i as int));
                assert(texts(parts@) =~= before.push(line@.subrange(start as int, i as int)));
                assert(texts(parts@) + readings_from(line@, i + 3, i + 3) =~= before
                    + readings_from(line@, start as int, i as int));
            }
            i = i + 3;
            start = i;
        } else {
            i = i + 1;
        }
    }
    let ghost before = texts(parts@);
    let piece = text::copy_chars(slice_subrange(line, start, n));
    parts.push(piece);
    assert(piece@ =~= line@.skip(start as int));
    assert(texts(parts@) =~= before + readings_from(line@, start as int, i as int));
    parts
}

/// Takes one more reading in.
fn keep_reading(kept: &Vec<Vec<char>>, part: Vec<char>) -> (all: Vec<Vec<char>>)
    ensures
        texts(all@) == kept_with(texts(kept@), part@),
{
    let ghost said = texts(kept@);
    let mut i: usize = 0;
    let mut rest: Vec<Vec<char>> = Vec::new();
    let mut found = false;
    assert(said.take(0) =~= Seq::empty());
    assert(texts(rest@) =~= Seq::empty());
    while i < kept.len()
        invariant
            said == texts(kept@),
            i <= kept@.len(),
            found == already_said(said.take(i as int), part@),
            texts(rest@) == unextended(said.take(i as int), part@),
        decreases kept@.len() - i,
    {
        let one = &kept[i];
        let ghost (had, was, taken) = (found, texts(rest@), said.take(i as int));
        assert(said[i as int] == one@);
        if starts_with(one.as_slice(), part.as_slice()) {
            found = true;
        }
        if !starts_with(part.as_slice(), one.as_slice()) {
            let copy = text::copy_chars(one.as_slice());
            rest.push(copy);
            assert(copy@ =~= one@);
            assert(texts(rest@) =~= was.push(one@));
        }
        i = i + 1;
        proof {
            assert(said.take(i as int).drop_last() =~= taken);
            assert(said.take(i as int).last() == one@);
            lemma_already_said_push(taken, one@, part@);
            assert(said.take(i as int) =~= taken.push(one@));
        }
    }
    assert(said.take(i as int) =~= said);
    if found {
        let mut same: Vec<Vec<char>> = Vec::new();
        let mut j: usize = 0;
        while j < kept.len()
            invariant
                j <= kept@.len(),
                same@.len() == j,
                forall|k: int| 0 <= k < j ==> (#[trigger] same@[k])@ == kept@[k]@,
            decreases kept@.len() - j,
        {
            let copy = text::copy_chars(kept[j].as_slice());
            assert(copy@ =~= kept@[j as int]@);
            same.push(copy);
            j = j + 1;
        }
        assert(texts(same@) =~= said);
        same
    } else {
        let ghost was = texts(rest@);
        rest.push(part);
        assert(texts(rest@) =~= was.push(part@));
        rest
    }
}

proof fn lemma_already_said_push(kept: Seq<Seq<char>>, one: Seq<char>, part: Seq<char>)
    ensures
        already_said(kept.push(one), part) == (already_said(kept, part) || part.is_prefix_of(one)),
{
    let all = kept.push(one);
    if already_said(all, part) {
        let i = choose|i: int| 0 <= i < all.len() && part.is_prefix_of(#[trigger] all[i]);
        if i < kept.len() {
            assert(part.is_prefix_of(kept[i]));
        }
    }
    if already_said(kept, part) {
        let i = choose|i: int| 0 <= i < kept.len() && part.is_prefix_of(#[trigger] kept[i]);
        assert(part.is_prefix_of(all[i]));
    }
    if part.is_prefix_of(one) {
        assert(part.is_prefix_of(all[kept.len() as int]));
    }
}

/// How many bytes a text takes, up to a bound: `None` where it takes more.
fn bytes_within(chars: &[char], room: usize) -> (bytes: Option<usize>)
    requires
        room <= 0xffff,
    ensures
        match bytes {
            Some(n) => n == text::byte_len(chars@) && n <= room,
            None => text::byte_len(chars@) > room,
        },
{
    let mut bytes: usize = 0;
    let mut i: usize = 0;
    assert(chars@.take(0) =~= Seq::empty());
    proof {
        text::lemma_byte_len_of_joined(Seq::empty(), Seq::empty());
        assert(Seq::<char>::empty() + Seq::<char>::empty() =~= Seq::<char>::empty());
    }
    while i < chars.len()
        invariant
            room <= 0xffff,
            i <= chars@.len(),
            bytes == text::byte_len(chars@.take(i as int)),
            bytes <= room,
        decreases chars@.len() - i,
    {
        let c = chars[i];
        proof {
            text::lemma_byte_len_of_push(chars@.take(i as int), c);
            assert(chars@.take(i + 1) =~= chars@.take(i as int).push(c));
            text::lemma_byte_len_of_joined(chars@.take(i + 1), chars@.skip(i + 1));
            assert(chars@.take(i + 1) + chars@.skip(i + 1) =~= chars@);
        }
        bytes = bytes + text::width(c);
        if bytes > room {
            return None;
        }
        i = i + 1;
    }
    assert(chars@.take(i as int) =~= chars@);
    Some(bytes)
}

/// Joins two evidence lines, keeping each reading once and in the order it
/// arrived.
///
/// A reading that another one extends is dropped: the passive path and the active
/// one describe the same reply, and the active one appends what several replies
/// added up to. Cuts between readings, never inside one: a line cut mid-value
/// would read as a measurement that says something it does not.
pub fn join_readings(existing: &str, incoming: &str) -> (line: String)
    ensures
        line@ == joined(existing@, incoming@),
{
    let before = text::chars_of(existing);
    let after = text::chars_of(incoming);
    let mut parts = split_readings(before.as_slice());
    let mut more = split_readings(after.as_slice());
    let ghost all = readings(existing@) + readings(incoming@);
    parts.append(&mut more);
    assert(texts(parts@) =~= all);
    let mut kept: Vec<Vec<char>> = Vec::new();
    let mut i: usize = 0;
    assert(texts(kept@) =~= kept_of(all.take(0)));
    while i < parts.len()
        invariant
            all == texts(parts@),
            i <= parts@.len(),
            texts(kept@) == kept_of(all.take(i as int)),
        decreases parts@.len() - i,
    {
        let part = text::copy_chars(parts[i].as_slice());
        proof {
            assert(part@ =~= all[i as int]);
            assert(all.take(i + 1).drop_last() =~= all.take(i as int));
            assert(all.take(i + 1).last() == part@);
        }
        kept = keep_reading(&kept, part);
        i = i + 1;
    }
    assert(all.take(i as int) =~= all);
    fit_readings(&kept)
}

/// Writes as many readings as fit in one line.
fn fit_readings(kept: &Vec<Vec<char>>) -> (line: String)
    ensures
        line@ == line_of(fitted(texts(kept@))),
{
    let ghost parts = texts(kept@);
    let mut line = String::new();
    let mut length: usize = 0;
    let mut started = false;
    let mut i: usize = 0;
    assert(parts.take(0) =~= Seq::empty());
    while i < kept.len()
        invariant
            parts == texts(kept@),
            i <= kept@.len(),
            length == fitted_length(parts.take(i as int)),
            length <= MAX_EVIDENCE_LEN,
            line@ == line_of(fitted(parts.take(i as int))),
            started == (fitted(parts.take(i as int)).len() > 0),
        decreases kept@.len() - i,
    {
        let part = &kept[i];
        let ghost taken = parts.take(i as int);
        let ghost more = parts.take(i + 1);
        proof {
            assert(more.drop_last() =~= taken);
            assert(more.last() == part@);
        }
        let gap: usize = if length == 0 {
            0
        } else {
            3
        };
        let left: usize = MAX_EVIDENCE_LEN - length;
        match bytes_within(part.as_slice(), left) {
            Some(bytes) if bytes + gap <= left => {
                let ghost was = line@;
                if started {
                    line.push(' ');
                    line.push('|');
                    line.push(' ');
                }
                let said = text::text_of(part.as_slice());
                line.append(said.as_str());
                proof {
                    let fit = fitted(taken).push(part@);
                    assert(fitted(more) == fit);
                    assert(fit.drop_last() =~= fitted(taken));
                    if started {
                        assert(line@ =~= was + separator() + part@);
                    } else {
                        assert(line@ =~= part@);
                    }
                }
                started = true;
                length = length + bytes + gap;
            },
            _ => {},
        }
        i = i + 1;
    }
    assert(parts.take(i as int) =~= parts);
    line
}

// ---------------------------------------------------------------------------
// What holds of every evidence line
// ---------------------------------------------------------------------------

/// Among readings that are kept, an empty one stands alone.
proof fn lemma_kept_are_not_empty(parts: Seq<Seq<char>>)
    ensures
        forall|i: int|
            0 <= i < kept_of(parts).len() && kept_of(parts).len() > 1 ==> (
            #[trigger] kept_of(parts)[i]).len() > 0,
    decreases parts.len(),
{
    if parts.len() > 0 {
        let (before, part) = (kept_of(parts.drop_last()), parts.last());
        lemma_kept_are_not_empty(parts.drop_last());
        if !already_said(before, part) {
            lemma_unextended(before, part);
            if part.len() == 0 && before.len() > 0 {
                assert(before[0].subrange(0, 0) =~= part);
                assert(part.is_prefix_of(before[0]));
            }
            let left = unextended(before, part);
            assert forall|i: int| 0 <= i < left.len() implies (#[trigger] left[i]).len() > 0 by {
                if left[i].len() == 0 {
                    assert(part.subrange(0, 0) =~= left[i]);
                    assert(left[i].is_prefix_of(part));
                }
            }
        }
    }
}

proof fn lemma_unextended(kept: Seq<Seq<char>>, part: Seq<char>)
    ensures
        unextended(kept, part).len() <= kept.len(),
        forall|i: int|
            0 <= i < unextended(kept, part).len() ==> kept.contains(
                #[trigger] unextended(kept, part)[i],
            ) && !unextended(kept, part)[i].is_prefix_of(part),
    decreases kept.len(),
{
    if kept.len() > 0 {
        let before = kept.drop_last();
        lemma_unextended(before, part);
        let left = unextended(kept, part);
        assert forall|i: int| 0 <= i < left.len() implies kept.contains(#[trigger] left[i])
            && !left[i].is_prefix_of(part) by {
            if i < unextended(before, part).len() {
                assert(left[i] == unextended(before, part)[i]);
                let j = choose|j: int| 0 <= j < before.len() && before[j] == left[i];
                assert(kept[j] == left[i]);
            } else {
                assert(kept[kept.len() - 1] == left[i]);
            }
        }
    }
}

/// What is kept was read.
proof fn lemma_kept_were_read(parts: Seq<Seq<char>>)
    ensures
        forall|i: int|
            0 <= i < kept_of(parts).len() ==> parts.contains(#[trigger] kept_of(parts)[i]),
    decreases parts.len(),
{
    if parts.len() > 0 {
        let (before, part) = (kept_of(parts.drop_last()), parts.last());
        lemma_kept_were_read(parts.drop_last());
        lemma_unextended(before, part);
        let kept = kept_of(parts);
        assert(parts[parts.len() - 1] == part);
        assert forall|i: int| 0 <= i < kept.len() implies parts.contains(#[trigger] kept[i]) by {
            if kept[i] != part {
                let k = if already_said(before, part) {
                    i
                } else {
                    let left = unextended(before, part);
                    assert(kept[i] == left[i]);
                    choose|k: int| 0 <= k < before.len() && before[k] == left[i]
                };
                assert(before[k] == kept[i]);
                let j = choose|j: int|
                    0 <= j < parts.drop_last().len() && parts.drop_last()[j] == before[k];
                assert(parts[j] == kept[i]);
            }
        }
    }
}

/// The readings that fit, written out, are as long as was counted, wherever no
/// reading of several is empty.
proof fn lemma_fitted_fit(parts: Seq<Seq<char>>)
    requires
        parts.len() > 1 ==> forall|i: int| 0 <= i < parts.len() ==> (#[trigger] parts[i]).len() > 0,
    ensures
        fitted_length(parts) <= MAX_EVIDENCE_LEN,
        text::byte_len(line_of(fitted(parts))) == fitted_length(parts),
        parts.len() > 1 && fitted(parts).len() > 0 ==> fitted_length(parts) > 0,
        parts.len() == 1 && parts[0].len() > 0 && fitted(parts).len() > 0 ==> fitted_length(parts)
            > 0,
        forall|i: int|
            0 <= i < fitted(parts).len() ==> parts.contains(#[trigger] fitted(parts)[i]),
    decreases parts.len(),
{
    text::lemma_byte_len_of_joined(Seq::empty(), Seq::empty());
    assert(Seq::<char>::empty() + Seq::<char>::empty() =~= Seq::<char>::empty());
    if parts.len() > 0 {
        let before = parts.drop_last();
        let part = parts.last();
        assert forall|i: int| 0 <= i < before.len() && before.len() > 1 implies (
        #[trigger] before[i]).len() > 0 by {
            assert(before[i] == parts[i]);
        }
        lemma_fitted_fit(before);
        let length = fitted_length(before);
        let fit = fitted(parts);
        assert(parts[parts.len() - 1] == part);
        assert forall|i: int| 0 <= i < fit.len() implies parts.contains(#[trigger] fit[i]) by {
            if i < fitted(before).len() {
                assert(fit[i] == fitted(before)[i]);
                let j = choose|j: int| 0 <= j < before.len() && before[j] == fit[i];
                assert(parts[j] == fit[i]);
            }
        }
        if part.len() > 0 {
            text::lemma_byte_len_of_push(part.drop_last(), part.last());
            assert(part.drop_last().push(part.last()) =~= part);
        }
        if parts.len() > 1 {
            assert(parts[parts.len() - 1].len() > 0);
            assert(parts[0].len() > 0);
            if before.len() == 1 {
                assert(before[0] == parts[0]);
            }
        }
        if length + cost(part, length) <= MAX_EVIDENCE_LEN {
            assert(fit.drop_last() =~= fitted(before));
            if fitted(before).len() > 0 {
                let line = line_of(fitted(before));
                text::lemma_byte_len_of_joined(line, separator());
                text::lemma_byte_len_of_joined(line + separator(), part);
                lemma_separator_is_three_bytes();
            } else {
                lemma_nothing_fitted(before);
            }
        }
    }
}

proof fn lemma_nothing_fitted(parts: Seq<Seq<char>>)
    requires
        fitted(parts).len() == 0,
    ensures
        fitted_length(parts) == 0,
    decreases parts.len(),
{
    if parts.len() > 0 {
        lemma_nothing_fitted(parts.drop_last());
    }
}

proof fn lemma_separator_is_three_bytes()
    ensures
        text::byte_len(separator()) == 3,
{
    let (a, b) = (seq![' '], seq![' ', '|']);
    text::lemma_byte_len_of_joined(Seq::empty(), Seq::empty());
    assert(Seq::<char>::empty() + Seq::<char>::empty() =~= Seq::<char>::empty());
    text::lemma_byte_len_of_push(Seq::empty(), ' ');
    assert(Seq::<char>::empty().push(' ') =~= a);
    text::lemma_byte_len_of_push(a, '|');
    assert(a.push('|') =~= b);
    text::lemma_byte_len_of_push(b, ' ');
    assert(b.push(' ') =~= separator());
}

/// However many readings accumulate, a line stays within its bound, and it is cut
/// between readings rather than inside one: it is made of whole readings of the
/// two lines.
pub proof fn lemma_a_line_is_bounded_and_cut_between_readings(
    existing: Seq<char>,
    incoming: Seq<char>,
)
    ensures
        text::byte_len(joined(existing, incoming)) <= MAX_EVIDENCE_LEN,
        exists|parts: Seq<Seq<char>>|
            joined(existing, incoming) == line_of(parts) && forall|i: int|
                0 <= i < parts.len() ==> (readings(existing) + readings(incoming)).contains(
                    #[trigger] parts[i],
                ),
{
    let all = readings(existing) + readings(incoming);
    let kept = kept_of(all);
    lemma_kept_are_not_empty(all);
    lemma_kept_were_read(all);
    lemma_fitted_fit(kept);
    let parts = fitted(kept);
    assert forall|i: int| 0 <= i < parts.len() implies all.contains(#[trigger] parts[i]) by {
        assert(kept.contains(parts[i]));
        let j = choose|j: int| 0 <= j < kept.len() && kept[j] == parts[i];
        assert(all.contains(kept[j]));
    }
    assert(joined(existing, incoming) == line_of(parts));
}

/// Whether a text is one reading, short enough to be kept.
pub open spec fn is_reading(s: Seq<char>) -> bool {
    &&& forall|i: int| 0 <= i ==> !#[trigger] separates(s, i)
    &&& text::byte_len(s) <= MAX_EVIDENCE_LEN
}

proof fn lemma_one_reading(s: Seq<char>, i: int)
    requires
        is_reading(s),
        0 <= i,
    ensures
        readings_from(s, 0, i) == seq![s],
    decreases s.len() - i,
{
    if i + 3 <= s.len() {
        assert(!separates(s, i));
        lemma_one_reading(s, i + 1);
    } else {
        assert(s.skip(0) =~= s);
    }
}

/// The same reading twice is recorded once, and one that extends another takes
/// its place, whichever of the two came first.
pub proof fn lemma_an_extended_reading_is_recorded_once(short: Seq<char>, long: Seq<char>)
    requires
        is_reading(short),
        is_reading(long),
        short.is_prefix_of(long),
    ensures
        joined(short, long) == long,
        joined(long, short) == long,
        joined(long, long) == long,
{
    lemma_one_reading(short, 0);
    lemma_one_reading(long, 0);
    lemma_two_readings(short, long);
    lemma_two_readings(long, short);
    lemma_two_readings(long, long);
    assert(long.subrange(0, long.len() as int) =~= long);
    assert(long.is_prefix_of(long));
    if long.is_prefix_of(short) {
        assert(short =~= long);
    }
}

proof fn lemma_two_readings(a: Seq<char>, b: Seq<char>)
    requires
        is_reading(a),
        is_reading(b),
        a.is_prefix_of(b) || b.is_prefix_of(a),
    ensures
        joined(a, b) == if b.is_prefix_of(a) {
            a
        } else {
            b
        },
{
    lemma_one_reading(a, 0);
    lemma_one_reading(b, 0);
    let all = readings(a) + readings(b);
    assert(all =~= seq![a, b]);
    assert(all.drop_last() =~= seq![a]);
    assert(all.drop_last().drop_last() =~= Seq::empty());
    let none = Seq::<Seq<char>>::empty();
    reveal_with_fuel(kept_of, 3);
    assert(unextended(none, a) =~= none);
    assert(kept_of(seq![a]) =~= seq![a]);
    let one = seq![a];
    assert(one.drop_last() =~= none);
    assert(unextended(one.drop_last(), b) =~= none);
    if b.is_prefix_of(a) {
        assert(b.is_prefix_of(one[0]));
        assert(kept_of(all) =~= seq![a]);
    } else {
        assert(!already_said(one, b));
        assert(unextended(one, b) =~= none);
        assert(kept_of(all) =~= seq![b]);
    }
    let kept = kept_of(all);
    assert(kept.len() == 1);
    assert(kept.drop_last() =~= none);
    assert(fitted_length(none) == 0);
    assert(fitted(none) =~= none);
    assert(fitted(kept) =~= kept);
}

// ---------------------------------------------------------------------------
// The fingerprint
// ---------------------------------------------------------------------------

/// A host's operating system as one technique identified it, and how sure that
/// technique was.
///
/// The accuracy is what makes several techniques combinable: a better-informed
/// finding replaces a worse one and equally-informed ones fill each other's
/// gaps. See [`merge`](Self::merge).
#[derive(Debug, PartialEq, Eq, Hash)]
pub struct OsFingerprint {
    /// The operating system's name, such as `"Linux"` or `"Windows"`.
    name: String,
    /// The broad family, such as `"Unix-like"` or `"Windows NT"`.
    family: Option<String>,
    /// What kind of box this is, such as `"Printer"` or `"Switch"`: a second
    /// axis, not a coarser name.
    device: Option<String>,
    /// The version or generation, such as `"5.15.0"` or `"11"`.
    generation: Option<String>,
    /// The vendor, such as `"Canonical"` or `"Microsoft"`.
    vendor: Option<String>,
    /// How sure this identification is, as a percentage.
    accuracy: u8,
    /// The kernel release, where something read one: beside the generation, not
    /// a finer form of it.
    kernel: Option<String>,
    /// How well supported everything past the family is, where the finding says
    /// more than a family at all.
    detail_accuracy: Option<u8>,
    /// A bounded set of Common Platform Enumeration (CPE) identifiers.
    cpe: OrderedSet<String>,
    /// What this identification was read off, in one line, for a person.
    evidence: Option<String>,
}

/// What a fingerprint says.
#[verifier::ext_equal]
pub struct OsClaim {
    pub name: Seq<char>,
    pub family: Option<Seq<char>>,
    pub device: Option<Seq<char>>,
    pub generation: Option<Seq<char>>,
    pub vendor: Option<Seq<char>>,
    pub accuracy: int,
    pub kernel: Option<Seq<char>>,
    pub detail_accuracy: Option<int>,
    pub cpes: Set<Seq<char>>,
    pub evidence: Option<Seq<char>>,
}

/// A percentage of a number: the number, and no more than all of it.
pub open spec fn percent(accuracy: u8) -> int {
    if accuracy > 100 {
        100
    } else {
        accuracy as int
    }
}

/// An optional number, as a number.
pub open spec fn number(n: Option<u8>) -> Option<int> {
    match n {
        Some(n) => Some(n as int),
        None => None,
    }
}

/// The first of two that is there.
pub open spec fn or<A>(a: Option<A>, b: Option<A>) -> Option<A> {
    if a is Some {
        a
    } else {
        b
    }
}

/// What a set of identifiers holds once those of a list have been added in
/// order, until it is full.
pub open spec fn topped_up(held: Set<Seq<char>>, listed: Seq<Seq<char>>) -> Set<Seq<char>>
    decreases listed.len(),
{
    if listed.len() == 0 || held.len() >= MAX_CPES_PER_OS {
        held
    } else {
        topped_up(held.insert(listed[0]), listed.drop_first())
    }
}

/// What is said of a host once a second technique has spoken, its identifiers
/// listed in order.
///
/// The identity comes from whichever is more accurate, and a tie keeps what is
/// already recorded and fills its gaps, and what a losing finding says of the
/// identity is dropped whole. Two findings of equal strength that name the same
/// system are two readings of it, so both their evidence is kept. Identifiers are
/// added whatever the accuracies are.
pub open spec fn merged(here: OsClaim, there: OsClaim, listed: Seq<Seq<char>>) -> OsClaim {
    let cpes = topped_up(here.cpes, listed);
    if there.accuracy > here.accuracy {
        OsClaim {
            name: there.name,
            family: or(there.family, here.family),
            device: or(there.device, here.device),
            generation: or(there.generation, here.generation),
            vendor: or(there.vendor, here.vendor),
            accuracy: there.accuracy,
            kernel: or(there.kernel, here.kernel),
            detail_accuracy: or(there.detail_accuracy, here.detail_accuracy),
            cpes,
            evidence: or(there.evidence, here.evidence),
        }
    } else if there.accuracy == here.accuracy {
        OsClaim {
            name: here.name,
            family: or(here.family, there.family),
            device: or(here.device, there.device),
            generation: or(here.generation, there.generation),
            vendor: or(here.vendor, there.vendor),
            accuracy: here.accuracy,
            kernel: or(here.kernel, there.kernel),
            detail_accuracy: or(here.detail_accuracy, there.detail_accuracy),
            cpes,
            evidence: if here.name == there.name {
                joined_evidence(here.evidence, there.evidence)
            } else {
                or(here.evidence, there.evidence)
            },
        }
    } else {
        OsClaim { cpes, ..here }
    }
}

/// What a finding leads with: the family, or the name where there is none.
pub open spec fn headline(os: OsClaim) -> Seq<char> {
    match os.family {
        Some(family) => family,
        None => os.name,
    }
}

/// How well supported the detail of a finding is, where that is known.
pub open spec fn figure(os: OsClaim) -> Seq<char> {
    match os.detail_accuracy {
        Some(n) => " ["@ + text::decimal(n as nat) + "%]"@,
        None => Seq::empty(),
    }
}

/// The release of a finding, where one is named.
pub open spec fn release(os: OsClaim) -> Seq<char> {
    if os.generation is Some {
        " \u{b7} "@ + os.name + " "@ + os.generation->0 + figure(os)
    } else if os.name != headline(os) {
        " \u{b7} "@ + os.name + figure(os)
    } else {
        Seq::empty()
    }
}

/// The kernel of a finding, where one is named.
pub open spec fn kernel_release(os: OsClaim) -> Seq<char> {
    match os.kernel {
        Some(kernel) => " \u{b7} kernel "@ + kernel + figure(os),
        None => Seq::empty(),
    }
}

/// A finding as one line: the family and its agreement first, then the release
/// where one is named, then the kernel, each with its own figure.
pub open spec fn rendered(os: OsClaim) -> Seq<char> {
    headline(os) + " ["@ + text::decimal(os.accuracy as nat) + "%]"@ + release(os)
        + kernel_release(os)
}

impl View for OsFingerprint {
    type V = OsClaim;

    closed spec fn view(&self) -> OsClaim {
        OsClaim {
            name: self.name@,
            family: text::said(self.family),
            device: text::said(self.device),
            generation: text::said(self.generation),
            vendor: text::said(self.vendor),
            accuracy: self.accuracy as int,
            kernel: text::said(self.kernel),
            detail_accuracy: number(self.detail_accuracy),
            cpes: self.cpe@,
            evidence: text::said(self.evidence),
        }
    }
}

impl OsFingerprint {
    /// A percentage is one, and the identifiers are within their bound.
    #[verifier::type_invariant]
    spec fn within_bounds(self) -> bool {
        &&& self.accuracy <= 100
        &&& self.detail_accuracy matches Some(n) ==> n <= 100
        &&& self.cpe@.finite()
        &&& self.cpe@.len() <= MAX_CPES_PER_OS
    }

    /// The identifiers, in order.
    pub closed spec fn listed_cpes(&self) -> Seq<Seq<char>> {
        self.cpe.listed()
    }

    /// A finding that says what one name and one accuracy say, the accuracy
    /// clamped to a percentage: a value above 100 would outrank a completed match
    /// and could never be displaced.
    pub fn new(name: &str, accuracy: u8) -> (os: Self)
        ensures
            os@ == (OsClaim {
                name: name@,
                family: None,
                device: None,
                generation: None,
                vendor: None,
                accuracy: percent(accuracy),
                kernel: None,
                detail_accuracy: None,
                cpes: Set::empty(),
                evidence: None,
            }),
    {
        let cpe: OrderedSet<String> = OrderedSet::new();
        let clamped: u8 = if accuracy > 100 {
            100
        } else {
            accuracy
        };
        Self {
            name: name.to_owned(),
            family: None,
            device: None,
            generation: None,
            vendor: None,
            accuracy: clamped,
            kernel: None,
            detail_accuracy: None,
            cpe,
            evidence: None,
        }
    }

    /// The operating system's name.
    pub fn name(&self) -> (name: &str)
        ensures
            name@ == self@.name,
    {
        self.name.as_str()
    }

    /// The broad family, if one was identified.
    pub fn family(&self) -> (family: Option<&str>)
        ensures
            text::said_by(family) == self@.family,
    {
        text::as_text(&self.family)
    }

    /// The version or generation, if one was identified.
    pub fn generation(&self) -> (generation: Option<&str>)
        ensures
            text::said_by(generation) == self@.generation,
    {
        text::as_text(&self.generation)
    }

    /// What kind of box this is, if anything named a class.
    pub fn device(&self) -> (device: Option<&str>)
        ensures
            text::said_by(device) == self@.device,
    {
        text::as_text(&self.device)
    }

    /// The same finding with a device class.
    #[must_use]
    pub fn with_device(self, device: &str) -> (os: Self)
        ensures
            os@ == (OsClaim { device: Some(device@), ..self@ }),
    {
        proof {
            use_type_invariant(&self);
        }
        let mut os = self;
        os.device = Some(device.to_owned());
        os
    }

    /// The vendor, if one was identified.
    pub fn vendor(&self) -> (vendor: Option<&str>)
        ensures
            text::said_by(vendor) == self@.vendor,
    {
        text::as_text(&self.vendor)
    }

    /// How sure this identification is, from 0 to 100.
    pub fn accuracy(&self) -> (accuracy: u8)
        ensures
            accuracy == self@.accuracy,
            accuracy <= 100,
    {
        proof {
            use_type_invariant(self);
        }
        self.accuracy
    }

    /// The kernel release, where something read one.
    pub fn kernel(&self) -> (kernel: Option<&str>)
        ensures
            text::said_by(kernel) == self@.kernel,
    {
        text::as_text(&self.kernel)
    }

    /// The same finding with a kernel release.
    #[must_use]
    pub fn with_kernel(self, kernel: &str) -> (os: Self)
        ensures
            os@ == (OsClaim { kernel: Some(kernel@), ..self@ }),
    {
        proof {
            use_type_invariant(&self);
        }
        let mut os = self;
        os.kernel = Some(kernel.to_owned());
        os
    }

    /// How well supported everything past the family is, or `None` where the
    /// finding stops at the family.
    pub fn detail_accuracy(&self) -> (accuracy: Option<u8>)
        ensures
            number(accuracy) == self@.detail_accuracy,
    {
        self.detail_accuracy
    }

    /// The same finding with how well supported its finer parts are.
    pub fn with_detail_accuracy(self, accuracy: u8) -> (os: Self)
        ensures
            os@ == (OsClaim { detail_accuracy: Some(percent(accuracy)), ..self@ }),
    {
        proof {
            use_type_invariant(&self);
        }
        let mut os = self;
        let clamped: u8 = if accuracy > 100 {
            100
        } else {
            accuracy
        };
        os.detail_accuracy = Some(clamped);
        os
    }

    /// The same finding with a broad family.
    pub fn with_family(self, family: &str) -> (os: Self)
        ensures
            os@ == (OsClaim { family: Some(family@), ..self@ }),
    {
        proof {
            use_type_invariant(&self);
        }
        let mut os = self;
        os.family = Some(family.to_owned());
        os
    }

    /// The same finding with a version or generation.
    pub fn with_generation(self, generation: &str) -> (os: Self)
        ensures
            os@ == (OsClaim { generation: Some(generation@), ..self@ }),
    {
        proof {
            use_type_invariant(&self);
        }
        let mut os = self;
        os.generation = Some(generation.to_owned());
        os
    }

    /// The same finding with a vendor.
    pub fn with_vendor(self, vendor: &str) -> (os: Self)
        ensures
            os@ == (OsClaim { vendor: Some(vendor@), ..self@ }),
    {
        proof {
            use_type_invariant(&self);
        }
        let mut os = self;
        os.vendor = Some(vendor.to_owned());
        os
    }

    /// The same finding with what it was read off.
    pub fn with_evidence(self, evidence: &str) -> (os: Self)
        ensures
            os@ == (OsClaim { evidence: Some(evidence@), ..self@ }),
    {
        proof {
            use_type_invariant(&self);
        }
        let mut os = self;
        os.evidence = Some(evidence.to_owned());
        os
    }

    /// What this identification was read off, if the technique recorded it.
    pub fn evidence(&self) -> (evidence: Option<&str>)
        ensures
            text::said_by(evidence) == self@.evidence,
    {
        text::as_text(&self.evidence)
    }

    /// Adds a CPE identifier to the fingerprint, provided the internal limit
    /// ([`MAX_CPES_PER_OS`]) has not been reached.
    pub fn add_cpe(&mut self, cpe: &str)
        ensures
            final(self)@ == (OsClaim {
                cpes: if old(self)@.cpes.len() < MAX_CPES_PER_OS {
                    old(self)@.cpes.insert(cpe@)
                } else {
                    old(self)@.cpes
                },
                ..old(self)@
            }),
    {
        proof {
            use_type_invariant(&*self);
        }
        if self.cpe.len() < MAX_CPES_PER_OS {
            let mut held: OrderedSet<String> = OrderedSet::new();
            std::mem::swap(&mut held, &mut self.cpe);
            held.insert(cpe.to_owned());
            self.cpe = held;
        }
    }

    /// All identified CPEs for this host.
    pub fn cpes(&self) -> (cpes: &OrderedSet<String>)
        ensures
            cpes@ == self@.cpes,
            cpes.listed() == self.listed_cpes(),
            cpes@.len() <= MAX_CPES_PER_OS,
    {
        proof {
            use_type_invariant(self);
        }
        &self.cpe
    }

    /// Whether the identification has high certainty (>= 85%): the threshold a
    /// scan uses to stop fingerprinting rather than send a further, more
    /// intrusive probe.
    pub fn is_highly_confident(&self) -> (confident: bool)
        ensures
            confident == (self@.accuracy >= 85),
    {
        self.accuracy >= 85
    }

    /// Folds another technique's identification of this host into this one.
    pub fn merge(&mut self, other: OsFingerprint)
        ensures
            final(self)@ == merged(old(self)@, other@, other.listed_cpes()),
    {
        proof {
            use_type_invariant(&*self);
            use_type_invariant(&other);
        }
        let ghost (here, there) = (self@, other@);
        let mut mine = OsFingerprint::new("", 0);
        std::mem::swap(&mut mine, self);
        assert(mine@ == here);
        proof {
            use_type_invariant(&mine);
        }
        let cpe = top_up(mine.cpe, &other.cpe);
        if other.accuracy > mine.accuracy {
            *self = OsFingerprint {
                name: other.name,
                family: text::first_said(other.family, mine.family),
                device: text::first_said(other.device, mine.device),
                generation: text::first_said(other.generation, mine.generation),
                vendor: text::first_said(other.vendor, mine.vendor),
                accuracy: other.accuracy,
                kernel: text::first_said(other.kernel, mine.kernel),
                detail_accuracy: first_of(other.detail_accuracy, mine.detail_accuracy),
                cpe,
                evidence: text::first_said(other.evidence, mine.evidence),
            };
        } else if other.accuracy == mine.accuracy {
            let evidence = if text::same_text(mine.name.as_str(), other.name.as_str()) {
                join_evidence(mine.evidence, other.evidence)
            } else {
                text::first_said(mine.evidence, other.evidence)
            };
            *self = OsFingerprint {
                name: mine.name,
                family: text::first_said(mine.family, other.family),
                device: text::first_said(mine.device, other.device),
                generation: text::first_said(mine.generation, other.generation),
                vendor: text::first_said(mine.vendor, other.vendor),
                accuracy: mine.accuracy,
                kernel: text::first_said(mine.kernel, other.kernel),
                detail_accuracy: first_of(mine.detail_accuracy, other.detail_accuracy),
                cpe,
                evidence,
            };
        } else {
            *self = OsFingerprint {
                name: mine.name,
                family: mine.family,
                device: mine.device,
                generation: mine.generation,
                vendor: mine.vendor,
                accuracy: mine.accuracy,
                kernel: mine.kernel,
                detail_accuracy: mine.detail_accuracy,
                cpe,
                evidence: mine.evidence,
            };
        }
        assert(self@ =~= merged(here, there, other.listed_cpes()));
    }

    /// The finding as one line for a reader.
    pub fn to_string(&self) -> (line: String)
        ensures
            line@ == rendered(self@),
    {
        let mut line = match &self.family {
            Some(family) => family.as_str().to_owned(),
            None => self.name.as_str().to_owned(),
        };
        let differs = !text::same_text(self.name.as_str(), line.as_str());
        line.append(" [");
        text::push_decimal(&mut line, self.accuracy as u128);
        line.append("%]");
        self.push_release(&mut line, differs);
        self.push_kernel(&mut line);
        line
    }

    fn push_release(&self, line: &mut String, differs: bool)
        requires
            differs == (self@.name != headline(self@)),
        ensures
            final(line)@ == old(line)@ + release(self@),
    {
        let ghost was = line@;
        match &self.generation {
            Some(generation) => {
                line.append(" \u{b7} ");
                line.append(self.name.as_str());
                line.append(" ");
                line.append(generation.as_str());
                push_figure(line, self.detail_accuracy);
            },
            None => {
                if differs {
                    line.append(" \u{b7} ");
                    line.append(self.name.as_str());
                    push_figure(line, self.detail_accuracy);
                }
            },
        }
        assert(line@ =~= was + release(self@));
    }

    fn push_kernel(&self, line: &mut String)
        ensures
            final(line)@ == old(line)@ + kernel_release(self@),
    {
        let ghost was = line@;
        match &self.kernel {
            Some(kernel) => {
                line.append(" \u{b7} kernel ");
                line.append(kernel.as_str());
                push_figure(line, self.detail_accuracy);
            },
            None => {},
        }
        assert(line@ =~= was + kernel_release(self@));
    }
}

/// Writes how well supported a detail is, where that is known.
fn push_figure(line: &mut String, accuracy: Option<u8>)
    ensures
        final(line)@ == old(line)@ + match accuracy {
            Some(n) => " ["@ + text::decimal(n as nat) + "%]"@,
            None => Seq::empty(),
        },
{
    match accuracy {
        Some(n) => {
            line.append(" [");
            text::push_decimal(line, n as u128);
            line.append("%]");
        },
        None => {},
    }
    assert(line@ =~= old(line)@ + match accuracy {
        Some(n) => " ["@ + text::decimal(n as nat) + "%]"@,
        None => Seq::empty(),
    });
}

/// The first of two that is there.
fn first_of(a: Option<u8>, b: Option<u8>) -> (first: Option<u8>)
    ensures
        first == or(a, b),
{
    match a {
        Some(n) => Some(n),
        None => b,
    }
}

/// Joins two evidence lines, either of which may be missing.
fn join_evidence(existing: Option<String>, incoming: Option<String>) -> (line: Option<String>)
    ensures
        text::said(line) == joined_evidence(text::said(existing), text::said(incoming)),
{
    match (existing, incoming) {
        (Some(a), Some(b)) => Some(join_readings(a.as_str(), b.as_str())),
        (Some(a), None) => Some(a),
        (None, incoming) => incoming,
    }
}

/// Adds identifiers in order until the bound is reached.
fn top_up(held: OrderedSet<String>, more: &OrderedSet<String>) -> (all: OrderedSet<String>)
    requires
        held@.finite(),
        held@.len() <= MAX_CPES_PER_OS,
    ensures
        all@ == topped_up(held@, more.listed()),
        all@.finite(),
        all@.len() <= MAX_CPES_PER_OS,
{
    let mut all = held;
    let n: usize = more.len();
    let ghost listed = more.listed();
    let mut i: usize = 0;
    assert(listed.skip(0) =~= listed);
    while i < n && all.len() < MAX_CPES_PER_OS
        invariant
            n == listed.len(),
            listed == more.listed(),
            i <= n,
            all@.finite(),
            all@.len() <= MAX_CPES_PER_OS,
            topped_up(all@, listed.skip(i as int)) == topped_up(held@, listed),
        decreases n - i,
    {
        let cpe = more.at(i).as_str().to_owned();
        assert(listed.skip(i as int).drop_first() =~= listed.skip(i + 1));
        assert(cpe@ == listed.skip(i as int)[0]);
        all.insert(cpe);
        i = i + 1;
    }
    all
}

impl Clone for OsFingerprint {
    fn clone(&self) -> (os: Self)
        ensures
            os@ == self@,
    {
        proof {
            use_type_invariant(self);
        }
        OsFingerprint {
            name: self.name.as_str().to_owned(),
            family: text::say_again(&self.family),
            device: text::say_again(&self.device),
            generation: text::say_again(&self.generation),
            vendor: text::say_again(&self.vendor),
            accuracy: self.accuracy,
            kernel: text::say_again(&self.kernel),
            detail_accuracy: self.detail_accuracy,
            cpe: self.cpe.clone(),
            evidence: text::say_again(&self.evidence),
        }
    }
}

// ---------------------------------------------------------------------------
// What holds of every merge
// ---------------------------------------------------------------------------

proof fn lemma_topped_up_only_grows(held: Set<Seq<char>>, listed: Seq<Seq<char>>)
    requires
        held.finite(),
        held.len() <= MAX_CPES_PER_OS,
    ensures
        held.subset_of(topped_up(held, listed)),
        topped_up(held, listed).subset_of(held.union(listed.to_set())),
        topped_up(held, listed).finite(),
        topped_up(held, listed).len() <= MAX_CPES_PER_OS,
        topped_up(held, listed).len() < MAX_CPES_PER_OS ==> topped_up(held, listed) == held.union(
            listed.to_set(),
        ),
    decreases listed.len(),
{
    if listed.len() == 0 {
        assert(listed.to_set() =~= Set::empty());
        assert(held.union(listed.to_set()) =~= held);
    } else if held.len() < MAX_CPES_PER_OS {
        let first = listed[0];
        let rest = listed.drop_first();
        lemma_topped_up_only_grows(held.insert(first), rest);
        assert forall|x: Seq<char>| listed.contains(x) <==> rest.contains(x) || x == first by {
            if listed.contains(x) && x != first {
                let i = choose|i: int| 0 <= i < listed.len() && listed[i] == x;
                assert(rest[i - 1] == x);
            }
            if rest.contains(x) {
                let i = choose|i: int| 0 <= i < rest.len() && rest[i] == x;
                assert(listed[i + 1] == x);
            }
            assert(listed[0] == first);
        }
        assert(held.insert(first).union(rest.to_set()) =~= held.union(listed.to_set()));
    }
}

/// Identifiers survive a merge whatever overrules the identity around them: none
/// that was held is lost, none is invented, and short of the bound all of both
/// findings' are held. The bound holds by this route as well.
pub proof fn lemma_identifiers_survive_a_merge(
    here: OsClaim,
    there: OsClaim,
    listed: Seq<Seq<char>>,
)
    requires
        here.cpes.finite(),
        here.cpes.len() <= MAX_CPES_PER_OS,
        listed.to_set() == there.cpes,
    ensures
        here.cpes.subset_of(merged(here, there, listed).cpes),
        merged(here, there, listed).cpes.subset_of(here.cpes.union(there.cpes)),
        merged(here, there, listed).cpes.len() <= MAX_CPES_PER_OS,
        merged(here, there, listed).cpes.len() < MAX_CPES_PER_OS ==> merged(
            here,
            there,
            listed,
        ).cpes == here.cpes.union(there.cpes),
{
    lemma_topped_up_only_grows(here.cpes, listed);
}

/// The surer finding names the host, whichever of the two comes first.
pub proof fn lemma_the_surer_finding_names_the_host(
    a: OsClaim,
    b: OsClaim,
    of_a: Seq<Seq<char>>,
    of_b: Seq<Seq<char>>,
)
    requires
        a.accuracy != b.accuracy,
    ensures
        merged(a, b, of_b).name == merged(b, a, of_a).name,
        merged(a, b, of_b).accuracy == merged(b, a, of_a).accuracy,
        merged(a, b, of_b).accuracy >= a.accuracy,
        merged(a, b, of_b).accuracy >= b.accuracy,
        a.accuracy > b.accuracy ==> merged(a, b, of_b).name == a.name,
{
}

/// Nothing already established is erased: a field that says something goes on
/// saying something.
pub proof fn lemma_a_merge_erases_nothing(here: OsClaim, there: OsClaim, listed: Seq<Seq<char>>)
    ensures
        here.family is Some ==> merged(here, there, listed).family is Some,
        here.device is Some ==> merged(here, there, listed).device is Some,
        here.generation is Some ==> merged(here, there, listed).generation is Some,
        here.vendor is Some ==> merged(here, there, listed).vendor is Some,
        here.kernel is Some ==> merged(here, there, listed).kernel is Some,
        here.evidence is Some ==> merged(here, there, listed).evidence is Some,
{
}

/// Whether a field says what the first of two says, and what the second says
/// where the first says nothing.
pub open spec fn told_by<A>(field: Option<A>, first: Option<A>, second: Option<A>) -> bool {
    &&& first is Some ==> field == first
    &&& first is None ==> field == second
}

/// A strictly surer finding decides every field it says something of: its name
/// and its accuracy stand, so does each of its details, and a detail already
/// recorded stands only where the surer finding is silent.
pub proof fn lemma_a_surer_finding_decides_every_field(
    here: OsClaim,
    there: OsClaim,
    listed: Seq<Seq<char>>,
)
    requires
        there.accuracy > here.accuracy,
    ensures
        merged(here, there, listed).name == there.name,
        merged(here, there, listed).accuracy == there.accuracy,
        told_by(merged(here, there, listed).family, there.family, here.family),
        told_by(merged(here, there, listed).device, there.device, here.device),
        told_by(merged(here, there, listed).generation, there.generation, here.generation),
        told_by(merged(here, there, listed).vendor, there.vendor, here.vendor),
        told_by(merged(here, there, listed).kernel, there.kernel, here.kernel),
        told_by(
            merged(here, there, listed).detail_accuracy,
            there.detail_accuracy,
            here.detail_accuracy,
        ),
        told_by(merged(here, there, listed).evidence, there.evidence, here.evidence),
{
}

/// A finding no surer than what is recorded decides nothing that is recorded:
/// the name, the accuracy and every detail stay. An equally sure one fills in
/// the details that are missing, and a less sure one adds none.
pub proof fn lemma_a_finding_no_surer_overrules_nothing(
    here: OsClaim,
    there: OsClaim,
    listed: Seq<Seq<char>>,
)
    requires
        there.accuracy <= here.accuracy,
    ensures
        merged(here, there, listed).name == here.name,
        merged(here, there, listed).accuracy == here.accuracy,
        there.accuracy == here.accuracy ==> {
            &&& told_by(merged(here, there, listed).family, here.family, there.family)
            &&& told_by(merged(here, there, listed).device, here.device, there.device)
            &&& told_by(merged(here, there, listed).generation, here.generation, there.generation)
            &&& told_by(merged(here, there, listed).vendor, here.vendor, there.vendor)
            &&& told_by(merged(here, there, listed).kernel, here.kernel, there.kernel)
            &&& told_by(
                merged(here, there, listed).detail_accuracy,
                here.detail_accuracy,
                there.detail_accuracy,
            )
            &&& here.evidence is None || there.evidence is None || here.name != there.name
                ==> told_by(merged(here, there, listed).evidence, here.evidence, there.evidence)
            &&& here.name == there.name ==> (here.evidence matches Some(one) ==> (there.evidence
                matches Some(two) ==> merged(here, there, listed).evidence == Some(
                joined(one, two),
            )))
        },
        there.accuracy < here.accuracy ==> {
            &&& merged(here, there, listed).family == here.family
            &&& merged(here, there, listed).device == here.device
            &&& merged(here, there, listed).generation == here.generation
            &&& merged(here, there, listed).vendor == here.vendor
            &&& merged(here, there, listed).kernel == here.kernel
            &&& merged(here, there, listed).detail_accuracy == here.detail_accuracy
            &&& merged(here, there, listed).evidence == here.evidence
        },
{
}

/// Identifiers are taken over in order until fifty are held: those added
/// are the first of the other finding's, and one is left out only for want of
/// room.
pub proof fn lemma_identifiers_are_taken_over_in_order(
    here: OsClaim,
    there: OsClaim,
    listed: Seq<Seq<char>>,
)
    requires
        here.cpes.finite(),
        here.cpes.len() <= 50,
    ensures
        exists|taken: int|
            0 <= taken <= listed.len() && merged(here, there, listed).cpes == here.cpes.union(
                (#[trigger] listed.take(taken)).to_set(),
            ) && (taken < listed.len() ==> merged(here, there, listed).cpes.len() == 50),
{
    lemma_topped_up_in_order(here.cpes, listed);
}

proof fn lemma_topped_up_in_order(held: Set<Seq<char>>, listed: Seq<Seq<char>>)
    requires
        held.finite(),
        held.len() <= 50,
    ensures
        exists|taken: int|
            0 <= taken <= listed.len() && topped_up(held, listed) == held.union(
                (#[trigger] listed.take(taken)).to_set(),
            ) && (taken < listed.len() ==> topped_up(held, listed).len() == 50),
    decreases listed.len(),
{
    if listed.len() == 0 || held.len() >= MAX_CPES_PER_OS {
        let none = listed.take(0);
        assert(held.union(none.to_set()) =~= held);
    } else {
        let rest = listed.drop_first();
        let more = held.insert(listed[0]);
        lemma_topped_up_in_order(more, rest);
        let taken = choose|taken: int|
            0 <= taken <= rest.len() && topped_up(more, rest) == more.union(
                (#[trigger] rest.take(taken)).to_set(),
            ) && (taken < rest.len() ==> topped_up(more, rest).len() == 50);
        let before = rest.take(taken);
        let all = listed.take(taken + 1);
        assert forall|x: Seq<char>| all.contains(x) <==> before.contains(x) || x == listed[0] by {
            if all.contains(x) && x != listed[0] {
                let i = choose|i: int| 0 <= i < all.len() && all[i] == x;
                assert(before[i - 1] == x);
            }
            if before.contains(x) {
                let i = choose|i: int| 0 <= i < before.len() && before[i] == x;
                assert(all[i + 1] == x);
            }
            assert(all[0] == listed[0]);
        }
        assert(more.union(before.to_set()) =~= held.union(all.to_set()));
    }
}

/// Whether a text stands somewhere in a line.
pub open spec fn stands_in(part: Seq<char>, line: Seq<char>) -> bool {
    exists|i: int, j: int| 0 <= i <= j <= line.len() && part == #[trigger] line.subrange(i, j)
}

pub(crate) proof fn lemma_stands_in(before: Seq<char>, part: Seq<char>, behind: Seq<char>)
    ensures
        stands_in(part, before + part + behind),
{
    let line = before + part + behind;
    assert(part =~= line.subrange(before.len() as int, (before.len() + part.len()) as int));
}

pub(crate) proof fn lemma_stands_within(part: Seq<char>, inner: Seq<char>, line: Seq<char>)
    requires
        stands_in(part, inner),
        stands_in(inner, line),
    ensures
        stands_in(part, line),
{
    let (i, j) = choose|i: int, j: int|
        0 <= i <= j <= inner.len() && part == #[trigger] inner.subrange(i, j);
    let (k, l) = choose|k: int, l: int|
        0 <= k <= l <= line.len() && inner == #[trigger] line.subrange(k, l);
    assert(part =~= line.subrange(k + i, k + j));
}

/// A percentage in square brackets, as a line gives it.
pub open spec fn bracketed(n: int) -> Seq<char> {
    seq!['['] + text::decimal(n as nat) + seq!['%', ']']
}

proof fn lemma_figure_says(os: OsClaim)
    ensures
        os.detail_accuracy matches Some(n) ==> stands_in(bracketed(n), figure(os)),
{
    match os.detail_accuracy {
        Some(n) => lemma_in_brackets(n),
        None => {},
    }
}

proof fn lemma_release_says(os: OsClaim)
    ensures
        os.generation matches Some(generation) ==> stands_in(generation, release(os)),
        os.generation is Some || os.name != headline(os) ==> stands_in(os.name, release(os))
            && stands_in(figure(os), release(os)),
{
    let dot = " \u{b7} "@;
    match os.generation {
        Some(generation) => {
            let line = release(os);
            lemma_stands_in(dot, os.name, " "@ + generation + figure(os));
            assert(line =~= dot + os.name + (" "@ + generation + figure(os)));
            lemma_stands_in(dot + os.name + " "@, generation, figure(os));
            lemma_stands_in(dot + os.name + " "@ + generation, figure(os), Seq::empty());
            assert(line =~= line + Seq::empty());
        },
        None => {
            if os.name != headline(os) {
                lemma_stands_in(dot, os.name, figure(os));
                lemma_stands_in(dot + os.name, figure(os), Seq::empty());
                assert(release(os) =~= release(os) + Seq::empty());
            }
        },
    }
}

proof fn lemma_kernel_says(os: OsClaim)
    ensures
        os.kernel matches Some(kernel) ==> stands_in(kernel, kernel_release(os)) && stands_in(
            figure(os),
            kernel_release(os),
        ),
{
    match os.kernel {
        Some(kernel) => {
            let dot = " \u{b7} kernel "@;
            lemma_stands_in(dot, kernel, figure(os));
            lemma_stands_in(dot + kernel, figure(os), Seq::empty());
            assert(kernel_release(os) =~= kernel_release(os) + Seq::empty());
        },
        None => {},
    }
}

/// The parts of a line of six of them stand in it.
proof fn lemma_line_of_six(
    head: Seq<char>,
    open: Seq<char>,
    sure: Seq<char>,
    shut: Seq<char>,
    named: Seq<char>,
    behind: Seq<char>,
)
    ensures
        head.is_prefix_of(head + open + sure + shut + named + behind),
        stands_in(head, head + open + sure + shut + named + behind),
        stands_in(open + sure + shut, head + open + sure + shut + named + behind),
        stands_in(named, head + open + sure + shut + named + behind),
        stands_in(behind, head + open + sure + shut + named + behind),
{
    let line = head + open + sure + shut + named + behind;
    let middle = open + sure + shut;
    lemma_stands_in(head + open + sure + shut, named, behind);
    lemma_stands_in(head + open + sure + shut + named, behind, Seq::empty());
    assert(line + Seq::empty() =~= line);
    assert(head + middle =~= head + open + sure + shut);
    lemma_stands_in(head, middle, named + behind);
    assert(line =~= head + middle + (named + behind));
    lemma_stands_in(Seq::empty(), head, middle + (named + behind));
    assert(line =~= Seq::<char>::empty() + head + (middle + (named + behind)));
}

proof fn lemma_line_parts(os: OsClaim)
    ensures
        headline(os).is_prefix_of(rendered(os)),
        stands_in(headline(os), rendered(os)),
        stands_in(bracketed(os.accuracy), rendered(os)),
        stands_in(release(os), rendered(os)),
        stands_in(kernel_release(os), rendered(os)),
{
    let sure = text::decimal(os.accuracy as nat);
    lemma_line_of_six(headline(os), " ["@, sure, "%]"@, release(os), kernel_release(os));
    lemma_in_brackets(os.accuracy);
    lemma_stands_within(bracketed(os.accuracy), " ["@ + sure + "%]"@, rendered(os));
}

proof fn lemma_in_brackets(n: int)
    ensures
        stands_in(bracketed(n), " ["@ + text::decimal(n as nat) + "%]"@),
{
    reveal_strlit(" [");
    reveal_strlit("%]");
    assert(" ["@ =~= seq![' ', '[']);
    assert("%]"@ =~= seq!['%', ']']);
    lemma_behind_a_space(text::decimal(n as nat));
}

proof fn lemma_behind_a_space(sure: Seq<char>)
    ensures
        stands_in(
            seq!['['] + sure + seq!['%', ']'],
            seq![' ', '['] + sure + seq!['%', ']'],
        ),
{
    let whole = seq![' ', '['] + sure + seq!['%', ']'];
    assert(seq!['['] + sure + seq!['%', ']'] =~= whole.subrange(1, whole.len() as int));
}

/// Whatever a finding names stands in the line it is rendered as: the family and
/// the name, how sure it is, the release, the kernel, and with either of these
/// two how sure that detail is. A line leads with the family, or with the name
/// where no family is known, and one that has only that and an accuracy to say
/// says nothing else.
pub proof fn lemma_a_line_says_what_is_known(os: OsClaim)
    ensures
        stands_in(os.name, rendered(os)),
        stands_in(bracketed(os.accuracy), rendered(os)),
        os.family matches Some(family) ==> family.is_prefix_of(rendered(os)),
        os.family is None ==> os.name.is_prefix_of(rendered(os)),
        os.generation matches Some(generation) ==> stands_in(generation, rendered(os)),
        os.kernel matches Some(kernel) ==> stands_in(kernel, rendered(os)),
        os.detail_accuracy matches Some(n) ==> (os.generation is Some || os.kernel is Some || (
        os.family is Some && os.family->0 != os.name)) ==> stands_in(bracketed(n), rendered(os)),
        os.generation is None && os.kernel is None && (os.family is None || os.family == Some(
            os.name,
        )) ==> rendered(os) == os.name.push(' ') + bracketed(os.accuracy),
{
    let line = rendered(os);
    lemma_line_parts(os);
    lemma_release_says(os);
    lemma_kernel_says(os);
    lemma_figure_says(os);
    if os.generation is Some || os.name != headline(os) {
        lemma_stands_within(os.name, release(os), line);
        lemma_stands_within(figure(os), release(os), line);
    }
    match os.generation {
        Some(generation) => lemma_stands_within(generation, release(os), line),
        None => {},
    }
    match os.kernel {
        Some(kernel) => {
            lemma_stands_within(kernel, kernel_release(os), line);
            lemma_stands_within(figure(os), kernel_release(os), line);
        },
        None => {},
    }
    match os.detail_accuracy {
        Some(n) => {
            if stands_in(figure(os), line) {
                lemma_stands_within(bracketed(n), figure(os), line);
            }
        },
        None => {},
    }
    reveal_strlit(" [");
    reveal_strlit("%]");
    if os.generation is None && os.kernel is None && (os.family is None || os.family == Some(
        os.name,
    )) {
        assert(line =~= os.name.push(' ') + bracketed(os.accuracy));
    }
}

// ---------------------------------------------------------------------------
// What holds of every evidence line
// ---------------------------------------------------------------------------

/// A line of one reading and then others.
proof fn lemma_line_from_the_front(first: Seq<char>, rest: Seq<Seq<char>>)
    requires
        rest.len() > 0,
    ensures
        line_of(seq![first] + rest) == first + separator() + line_of(rest),
    decreases rest.len(),
{
    let all = seq![first] + rest;
    assert(all.drop_last() =~= seq![first] + rest.drop_last());
    assert(all.last() == rest.last());
    if rest.len() == 1 {
        assert(all.drop_last() =~= seq![first]);
        assert(line_of(seq![first]) == first);
        assert(line_of(rest) == rest.last());
        assert(line_of(all) =~= first + separator() + line_of(rest));
    } else {
        lemma_line_from_the_front(first, rest.drop_last());
        assert(line_of(all) =~= first + separator() + line_of(rest));
    }
}

/// The readings of a line from `start` on: written out again they are that line,
/// no separator stands in one of them, and they weigh what the line does.
proof fn lemma_readings_from(s: Seq<char>, start: int, i: int)
    requires
        0 <= start <= i,
        start <= s.len(),
        forall|k: int| start <= k < i ==> !#[trigger] separates(s, k),
    ensures
        readings_from(s, start, i).len() > 0,
        line_of(readings_from(s, start, i)) == s.skip(start),
        forall|n: int, k: int|
            0 <= n < readings_from(s, start, i).len() && 0 <= k ==> !#[trigger] separates(
                readings_from(s, start, i)[n],
                k,
            ),
        weight(readings_from(s, start, i)) == text::byte_len(s.skip(start)) + 3,
    decreases s.len() - i,
{
    let found = readings_from(s, start, i);
    if i + 3 > s.len() {
        let last = s.skip(start);
        assert(found =~= seq![last]);
        assert forall|k: int| 0 <= k implies !#[trigger] separates(last, k) by {
            assert(!separates(s, start + k) || start + k + 3 > s.len());
        }
        assert(found.drop_last() =~= Seq::empty());
        reveal_with_fuel(weight, 2);
    } else if separates(s, i) {
        let first = s.subrange(start, i);
        let rest = readings_from(s, i + 3, i + 3);
        lemma_readings_from(s, i + 3, i + 3);
        lemma_line_from_the_front(first, rest);
        assert(s.skip(start) =~= first + separator() + s.skip(i + 3));
        assert forall|k: int| 0 <= k implies !#[trigger] separates(first, k) by {
            assert(!separates(s, start + k) || start + k >= i);
        }
        assert forall|n: int, k: int| 0 <= n < found.len() && 0 <= k implies !#[trigger] separates(
            found[n],
            k,
        ) by {
            if n > 0 {
                assert(found[n] == rest[n - 1]);
            }
        }
        lemma_weight_of_joined(seq![first], rest);
        assert(seq![first].drop_last() =~= Seq::empty());
        reveal_with_fuel(weight, 2);
        text::lemma_byte_len_of_joined(first + separator(), s.skip(i + 3));
        text::lemma_byte_len_of_joined(first, separator());
        lemma_separator_is_three_bytes();
    } else {
        lemma_readings_from(s, start, i + 1);
    }
}

/// Cutting a line into readings loses nothing: written out again with the
/// separator between them they are the line, and no separator is left in one.
pub proof fn lemma_a_line_is_its_readings(line: Seq<char>)
    ensures
        line_of(readings(line)) == line,
        forall|n: int, k: int|
            0 <= n < readings(line).len() && 0 <= k ==> !#[trigger] separates(
                readings(line)[n],
                k,
            ),
{
    lemma_readings_from(line, 0, 0);
    assert(line.skip(0) =~= line);
}

/// How many bytes some readings come to, each with a separator.
spec fn weight(parts: Seq<Seq<char>>) -> int
    decreases parts.len(),
{
    if parts.len() == 0 {
        0
    } else {
        weight(parts.drop_last()) + text::byte_len(parts.last()) + 3
    }
}

proof fn lemma_weight_of_joined(a: Seq<Seq<char>>, b: Seq<Seq<char>>)
    ensures
        weight(a + b) == weight(a) + weight(b),
    decreases b.len(),
{
    if b.len() == 0 {
        assert(a + b =~= a);
    } else {
        assert((a + b).drop_last() =~= a + b.drop_last());
        lemma_weight_of_joined(a, b.drop_last());
    }
}

/// Whether readings were picked from a list in the order they stand there.
pub open spec fn picked_in_order(picked: Seq<Seq<char>>, all: Seq<Seq<char>>) -> bool {
    exists|from: Seq<int>| #[trigger] stand_at(picked, all, from)
}

/// Whether readings stand in a list at ascending places.
pub open spec fn stand_at(picked: Seq<Seq<char>>, all: Seq<Seq<char>>, from: Seq<int>) -> bool {
    &&& from.len() == picked.len()
    &&& forall|i: int| 0 <= i < from.len() ==> 0 <= #[trigger] from[i] < all.len()
    &&& forall|i: int| 0 <= i < from.len() ==> #[trigger] picked[i] == all[from[i]]
    &&& forall|i: int, j: int| 0 <= i < j < from.len() ==> #[trigger] from[i] < #[trigger] from[j]
}

/// Leaving out what a reading extends leaves the others in their places.
proof fn lemma_unextended_stand_at(
    kept: Seq<Seq<char>>,
    part: Seq<char>,
    all: Seq<Seq<char>>,
    from: Seq<int>,
) -> (left: Seq<int>)
    requires
        stand_at(kept, all, from),
    ensures
        stand_at(unextended(kept, part), all, left),
        forall|i: int| 0 <= i < left.len() ==> from.contains(#[trigger] left[i]),
        weight(unextended(kept, part)) <= weight(kept),
    decreases kept.len(),
{
    if kept.len() == 0 {
        from
    } else {
        let before = from.drop_last();
        assert(stand_at(kept.drop_last(), all, before)) by {
            assert(forall|i: int| 0 <= i < before.len() ==> #[trigger] before[i] == from[i]);
        }
        let left = lemma_unextended_stand_at(kept.drop_last(), part, all, before);
        assert forall|i: int| 0 <= i < left.len() implies from.contains(#[trigger] left[i])
            && left[i] < from.last() by {
            let k = choose|k: int| 0 <= k < before.len() && before[k] == left[i];
            assert(from[k] == left[i]);
            assert(from[k] < from[from.len() - 1]);
        }
        if kept.last().is_prefix_of(part) {
            left
        } else {
            let more = left.push(from.last());
            assert(from[from.len() - 1] == from.last());
            let shown = unextended(kept, part);
            assert(shown.drop_last() =~= unextended(kept.drop_last(), part));
            assert forall|i: int| 0 <= i < more.len() implies from.contains(#[trigger] more[i])
                && 0 <= more[i] < all.len() && shown[i] == all[more[i]] by {
                if i < left.len() {
                    assert(more[i] == left[i]);
                    assert(shown[i] == unextended(kept.drop_last(), part)[i]);
                } else {
                    assert(kept[kept.len() - 1] == all[from[from.len() - 1]]);
                }
            }
            assert forall|i: int, j: int| 0 <= i < j < more.len() implies #[trigger] more[i]
                < #[trigger] more[j] by {
                assert(more[i] == left[i]);
                if j < left.len() {
                    assert(more[j] == left[j]);
                }
            }
            more
        }
    }
}

/// What is kept stands in the order it arrived in, weighs no more than what
/// arrived, says all of it, and nothing of it twice.
proof fn lemma_kept(parts: Seq<Seq<char>>) -> (from: Seq<int>)
    ensures
        stand_at(kept_of(parts), parts, from),
        weight(kept_of(parts)) <= weight(parts),
        forall|i: int|
            0 <= i < parts.len() ==> already_said(kept_of(parts), #[trigger] parts[i]),
        forall|i: int, j: int|
            0 <= i < kept_of(parts).len() && 0 <= j < kept_of(parts).len() && i != j ==> !(
            #[trigger] kept_of(parts)[i]).is_prefix_of(#[trigger] kept_of(parts)[j]),
    decreases parts.len(),
{
    if parts.len() == 0 {
        Seq::empty()
    } else {
        let earlier = parts.drop_last();
        let part = parts.last();
        let before = kept_of(earlier);
        let kept = kept_of(parts);
        let from = lemma_kept(earlier);
        text::lemma_byte_len_of_joined(part, Seq::empty());
        assert(stand_at(before, parts, from)) by {
            assert forall|i: int| 0 <= i < from.len() implies #[trigger] before[i]
                == parts[from[i]] by {
                assert(0 <= from[i] < earlier.len());
                assert(before[i] == earlier[from[i]]);
            }
        }
        if already_said(before, part) {
            assert forall|i: int| 0 <= i < parts.len() implies already_said(
                kept,
                #[trigger] parts[i],
            ) by {
                if i < earlier.len() {
                    assert(already_said(before, earlier[i]));
                }
            }
            from
        } else {
            let left = lemma_unextended_stand_at(before, part, parts, from);
            let rest = unextended(before, part);
            lemma_unextended(before, part);
            let more = left.push(parts.len() - 1);
            assert(kept.drop_last() =~= rest);
            assert forall|i: int| 0 <= i < more.len() implies 0 <= #[trigger] more[i] < parts.len()
                && kept[i] == parts[more[i]] by {
                if i < left.len() {
                    assert(more[i] == left[i]);
                    assert(kept[i] == rest[i]);
                }
            }
            assert forall|i: int, j: int| 0 <= i < j < more.len() implies #[trigger] more[i]
                < #[trigger] more[j] by {
                assert(more[i] == left[i]);
                if j < left.len() {
                    assert(more[j] == left[j]);
                } else {
                    assert(from.contains(left[i]));
                    let k = choose|k: int| 0 <= k < from.len() && from[k] == left[i];
                    assert(0 <= from[k] < earlier.len());
                }
            }
            assert(kept[kept.len() - 1] == part);
            assert forall|i: int| 0 <= i < parts.len() implies already_said(
                kept,
                #[trigger] parts[i],
            ) by {
                if i < earlier.len() {
                    assert(already_said(before, earlier[i]));
                    let k = choose|k: int|
                        0 <= k < before.len() && earlier[i].is_prefix_of(#[trigger] before[k]);
                    lemma_unextended_or_extended(before, part, k);
                    if before[k].is_prefix_of(part) {
                        assert(parts[i].is_prefix_of(part)) by {
                            lemma_prefix_of_prefix(parts[i], before[k], part);
                        }
                        assert(parts[i].is_prefix_of(kept[kept.len() - 1]));
                    } else {
                        let m = choose|m: int| 0 <= m < rest.len() && rest[m] == before[k];
                        assert(kept[m] == before[k]);
                        assert(parts[i].is_prefix_of(kept[m]));
                    }
                } else {
                    assert(part.subrange(0, part.len() as int) =~= part);
                    assert(part.is_prefix_of(kept[kept.len() - 1]));
                }
            }
            lemma_unextended_apart(before, part);
            assert forall|i: int, j: int|
                0 <= i < kept.len() && 0 <= j < kept.len() && i != j implies !(
            #[trigger] kept[i]).is_prefix_of(#[trigger] kept[j]) by {
                if i < rest.len() {
                    assert(kept[i] == rest[i]);
                }
                if j < rest.len() {
                    assert(kept[j] == rest[j]);
                    assert(before.contains(rest[j]));
                    let m = choose|m: int| 0 <= m < before.len() && before[m] == rest[j];
                    assert(!part.is_prefix_of(before[m]));
                }
            }
            more
        }
    }
}

proof fn lemma_prefix_of_prefix(a: Seq<char>, b: Seq<char>, c: Seq<char>)
    requires
        a.is_prefix_of(b),
        b.is_prefix_of(c),
    ensures
        a.is_prefix_of(c),
{
    assert(c.subrange(0, a.len() as int) =~= b.subrange(0, a.len() as int));
}

/// A reading is left out only by one that extends it.
proof fn lemma_unextended_or_extended(kept: Seq<Seq<char>>, part: Seq<char>, k: int)
    requires
        0 <= k < kept.len(),
    ensures
        kept[k].is_prefix_of(part) || unextended(kept, part).contains(kept[k]),
    decreases kept.len(),
{
    let before = unextended(kept.drop_last(), part);
    let left = unextended(kept, part);
    if k == kept.len() - 1 {
        if !kept[k].is_prefix_of(part) {
            assert(left[left.len() - 1] == kept[k]);
        }
    } else {
        lemma_unextended_or_extended(kept.drop_last(), part, k);
        if before.contains(kept[k]) {
            let m = choose|m: int| 0 <= m < before.len() && before[m] == kept[k];
            assert(left[m] == kept[k]);
        }
    }
}

/// Readings of which none extends another stay so when some are left out.
proof fn lemma_unextended_apart(kept: Seq<Seq<char>>, part: Seq<char>)
    requires
        forall|i: int, j: int|
            0 <= i < kept.len() && 0 <= j < kept.len() && i != j ==> !(
            #[trigger] kept[i]).is_prefix_of(#[trigger] kept[j]),
    ensures
        forall|i: int, j: int|
            0 <= i < unextended(kept, part).len() && 0 <= j < unextended(kept, part).len() && i != j
                ==> !(#[trigger] unextended(kept, part)[i]).is_prefix_of(
                #[trigger] unextended(kept, part)[j],
            ),
    decreases kept.len(),
{
    if kept.len() > 0 {
        let earlier = kept.drop_last();
        let before = unextended(earlier, part);
        let left = unextended(kept, part);
        assert forall|i: int, j: int|
            0 <= i < earlier.len() && 0 <= j < earlier.len() && i != j implies !(
        #[trigger] earlier[i]).is_prefix_of(#[trigger] earlier[j]) by {
            assert(earlier[i] == kept[i] && earlier[j] == kept[j]);
        }
        lemma_unextended_apart(earlier, part);
        lemma_unextended(earlier, part);
        assert forall|i: int, j: int|
            0 <= i < left.len() && 0 <= j < left.len() && i != j implies !(
        #[trigger] left[i]).is_prefix_of(#[trigger] left[j]) by {
            let last = kept.len() - 1;
            if i < before.len() {
                assert(left[i] == before[i]);
                assert(earlier.contains(before[i]));
            }
            if j < before.len() {
                assert(left[j] == before[j]);
                assert(earlier.contains(before[j]));
            }
            if i >= before.len() {
                let m = choose|m: int| 0 <= m < earlier.len() && earlier[m] == before[j];
                assert(kept[m] == left[j] && kept[last] == left[i]);
            } else if j >= before.len() {
                let m = choose|m: int| 0 <= m < earlier.len() && earlier[m] == before[i];
                assert(kept[m] == left[i] && kept[last] == left[j]);
            }
        }
    }
}

/// Readings that fit all together are all taken.
proof fn lemma_all_fit(parts: Seq<Seq<char>>)
    requires
        weight(parts) <= MAX_EVIDENCE_LEN + 3,
    ensures
        fitted(parts) == parts,
        parts.len() > 0 ==> fitted_length(parts) <= weight(parts) - 3,
        weight(parts) >= 0,
    decreases parts.len(),
{
    if parts.len() > 0 {
        assert(weight(parts.drop_last()) <= MAX_EVIDENCE_LEN + 3);
        lemma_all_fit(parts.drop_last());
        assert(fitted(parts) =~= parts);
    }
}

/// Nothing that either of two lines says is lost where both fit in one of five
/// hundred and twelve bytes: the joined line is made of readings of the two, in
/// the order they arrived in, every reading of either stands in it or begins one
/// that does, and none that stands in it begins another.
pub proof fn lemma_joined_lines_say_what_either_says(existing: Seq<char>, incoming: Seq<char>)
    requires
        text::byte_len(existing) + 3 + text::byte_len(incoming) <= 512,
    ensures
        exists|parts: Seq<Seq<char>>|
            {
                &&& joined(existing, incoming) == #[trigger] line_of(parts)
                &&& picked_in_order(parts, readings(existing) + readings(incoming))
                &&& forall|i: int|
                    0 <= i < readings(existing).len() ==> already_said(
                        parts,
                        #[trigger] readings(existing)[i],
                    )
                &&& forall|i: int|
                    0 <= i < readings(incoming).len() ==> already_said(
                        parts,
                        #[trigger] readings(incoming)[i],
                    )
                &&& forall|i: int, j: int|
                    0 <= i < parts.len() && 0 <= j < parts.len() && i != j ==> !(
                    #[trigger] parts[i]).is_prefix_of(#[trigger] parts[j])
            },
{
    let (one, two) = (readings(existing), readings(incoming));
    let all = one + two;
    lemma_readings_from(existing, 0, 0);
    lemma_readings_from(incoming, 0, 0);
    assert(existing.skip(0) =~= existing);
    assert(incoming.skip(0) =~= incoming);
    lemma_weight_of_joined(one, two);
    let from = lemma_kept(all);
    let parts = kept_of(all);
    lemma_all_fit(parts);
    assert(stand_at(parts, all, from));
    assert forall|i: int| 0 <= i < one.len() implies already_said(parts, #[trigger] one[i]) by {
        assert(all[i] == one[i]);
    }
    assert forall|i: int| 0 <= i < two.len() implies already_said(parts, #[trigger] two[i]) by {
        assert(all[one.len() + i] == two[i]);
    }
    assert(joined(existing, incoming) == line_of(parts));
}

/// A percentage is what it is given as, up to all of it.
pub proof fn lemma_a_percentage_is_no_more_than_all(accuracy: u8)
    ensures
        percent(accuracy) <= 100,
        percent(accuracy) <= accuracy,
        percent(accuracy) == accuracy || percent(accuracy) == 100,
        accuracy <= 100 ==> percent(accuracy) == accuracy,
{
}

} // verus!
