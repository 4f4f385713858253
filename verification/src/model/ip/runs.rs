//! # Arithmetic on runs of addresses
//!
//! Merging, counting, searching and subtracting, written once for every kind of
//! range. A [`Numbered`] thing is a run of numbers on an interface, and a list of
//! them is modelled by [`covered`]: the pairs of an interface and a number that some
//! run of the list holds.
//!
//! A list is [`canonical`] when it is sorted by interface and then by number and
//! no two stretches of one interface overlap or touch. There is exactly one
//! canonical list for what it covers, which [`lemma_canonical_is_unique`] states
//! and which makes the merged form something two sets can be told apart by.

use vstd::prelude::*;

verus! {

/// A run of numbers, inclusive at both ends, on an interface or on none.
pub trait Numbered: Sized {
    /// The first number.
    spec fn lo(&self) -> int;

    /// The last number.
    spec fn hi(&self) -> int;

    /// The interface.
    spec fn scope(&self) -> Option<u32>;

    /// Whether the run is of numbers its kind can hold.
    spec fn sound(&self) -> bool;

    /// Two sound runs with the same ends and interface are the same.
    proof fn ends_decide(a: Self, b: Self)
        requires
            a.sound(),
            b.sound(),
            a.lo() == b.lo(),
            a.hi() == b.hi(),
            a.scope() == b.scope(),
        ensures
            a == b,
    ;
}

/// A run that can be read, cut and grown.
pub trait Stretch: Numbered + Copy {
    /// Both ends.
    fn ends(&self) -> (ends: (u128, u128))
        ensures
            ends.0 == self.lo(),
            ends.1 == self.hi(),
            0 <= self.lo() <= self.hi() <= u128::MAX,
            self.sound(),
    ;

    /// The interface.
    fn scoped_to(&self) -> (scope: Option<u32>)
        ensures
            scope == self.scope(),
    ;

    /// The part of the stretch between two numbers it holds.
    fn part(&self, lo: u128, hi: u128) -> (part: Self)
        requires
            self.lo() <= lo <= hi <= self.hi(),
        ensures
            part.lo() == lo,
            part.hi() == hi,
            part.scope() == self.scope(),
            part.sound(),
    ;

    /// The stretch, reaching as far as another where that reaches further.
    fn reaching(&self, other: &Self) -> (reached: Self)
        ensures
            reached.lo() == self.lo(),
            reached.scope() == self.scope(),
            reached.hi() == if other.hi() > self.hi() {
                other.hi()
            } else {
                self.hi()
            },
            reached.sound(),
    ;
}

/// Whether a run is what every run is: sound, and not inverted.
pub open spec fn in_order<R: Numbered>(r: R) -> bool {
    0 <= r.lo() <= r.hi() && r.sound()
}

/// Whether every stretch of a list is in order.
pub open spec fn all_in_order<R: Numbered>(s: Seq<R>) -> bool {
    forall|i: int| 0 <= i < s.len() ==> in_order(#[trigger] s[i])
}

/// Where an interface stands among interfaces: none of them before the first.
pub open spec fn scope_rank(scope: Option<u32>) -> int {
    match scope {
        None => 0,
        Some(z) => z as int + 1,
    }
}

/// What one stretch holds.
pub open spec fn held_by<R: Numbered>(r: R, p: (Option<u32>, int)) -> bool {
    r.scope() == p.0 && r.lo() <= p.1 <= r.hi()
}

/// What a list of stretches holds.
pub open spec fn covered<R: Numbered>(s: Seq<R>) -> Set<(Option<u32>, int)> {
    Set::new(|p: (Option<u32>, int)| exists|i: int| 0 <= i < s.len() && #[trigger] held_by(s[i], p))
}

/// Whether one stretch comes before another and leaves a gap to it.
pub open spec fn clear_of<R: Numbered>(a: R, b: R) -> bool {
    ||| scope_rank(a.scope()) < scope_rank(b.scope())
    ||| a.scope() == b.scope() && a.hi() + 1 < b.lo()
}

/// Whether a list is sorted, with a gap between every two stretches of one
/// interface.
pub open spec fn canonical<R: Numbered>(s: Seq<R>) -> bool {
    &&& all_in_order(s)
    &&& forall|i: int, j: int| 0 <= i < j < s.len() ==> clear_of(#[trigger] s[i], #[trigger] s[j])
}

/// Whether one stretch ends before another starts.
pub open spec fn ends_before<R: Numbered>(a: R, b: R) -> bool {
    ||| scope_rank(a.scope()) < scope_rank(b.scope())
    ||| a.scope() == b.scope() && a.hi() < b.lo()
}

/// Whether a list is sorted and free of overlap. Two stretches may touch.
pub open spec fn disjoint<R: Numbered>(s: Seq<R>) -> bool {
    &&& all_in_order(s)
    &&& forall|i: int, j: int| 0 <= i < j < s.len() ==> ends_before(#[trigger] s[i], #[trigger] s[j])
}

/// Whether one stretch starts no later than another.
pub open spec fn starts_by<R: Numbered>(a: R, b: R) -> bool {
    ||| scope_rank(a.scope()) < scope_rank(b.scope())
    ||| a.scope() == b.scope() && a.lo() <= b.lo()
}

/// Whether a list is sorted by where its stretches start.
pub open spec fn sorted<R: Numbered>(s: Seq<R>) -> bool {
    forall|i: int, j: int| 0 <= i <= j < s.len() ==> starts_by(#[trigger] s[i], #[trigger] s[j])
}

/// How many numbers the stretches of a list hold, counting an overlap once for
/// each that holds it.
pub open spec fn gross<R: Numbered>(s: Seq<R>) -> int
    decreases s.len(),
{
    if s.len() == 0 {
        0
    } else {
        gross(s.drop_last()) + (s.last().hi() - s.last().lo() + 1)
    }
}

/// Whether two lists hold the same stretches, in whatever order.
pub open spec fn same_members<R>(a: Seq<R>, b: Seq<R>) -> bool {
    forall|x: R| #![auto] a.contains(x) <==> b.contains(x)
}

// ---------------------------------------------------------------------------
// What lists cover
// ---------------------------------------------------------------------------

/// Two lists together hold as many numbers as each of them.
pub proof fn lemma_gross_joined<R: Numbered>(a: Seq<R>, b: Seq<R>)
    ensures
        gross(a + b) == gross(a) + gross(b),
    decreases b.len(),
{
    if b.len() == 0 {
        assert(a + b =~= a);
    } else {
        lemma_gross_joined(a, b.drop_last());
        assert((a + b).drop_last() =~= a + b.drop_last());
    }
}

/// One stretch more covers what it holds more.
pub proof fn lemma_covered_push<R: Numbered>(s: Seq<R>, r: R)
    ensures
        forall|p: (Option<u32>, int)| #[trigger]
            covered(s.push(r)).contains(p) <==> covered(s).contains(p) || held_by(r, p),
{
    let t = s.push(r);
    assert forall|p: (Option<u32>, int)| #[trigger] covered(t).contains(p) <==> covered(s).contains(
        p,
    ) || held_by(r, p) by {
        if covered(t).contains(p) {
            let i = choose|i: int| 0 <= i < t.len() && #[trigger] held_by(t[i], p);
            if i < s.len() {
                assert(held_by(s[i], p));
            }
        }
        if covered(s).contains(p) {
            let i = choose|i: int| 0 <= i < s.len() && #[trigger] held_by(s[i], p);
            assert(held_by(t[i], p));
        }
        if held_by(r, p) {
            assert(held_by(t[s.len() as int], p));
        }
    }
}

/// Two lists one behind the other cover what both do.
pub proof fn lemma_covered_joined<R: Numbered>(a: Seq<R>, b: Seq<R>)
    ensures
        covered(a + b) == covered(a).union(covered(b)),
{
    let t = a + b;
    assert forall|p: (Option<u32>, int)| #[trigger] covered(t).contains(p) <==> covered(a).contains(
        p,
    ) || covered(b).contains(p) by {
        if covered(t).contains(p) {
            let i = choose|i: int| 0 <= i < t.len() && #[trigger] held_by(t[i], p);
            if i < a.len() {
                assert(held_by(a[i], p));
            } else {
                assert(held_by(b[i - a.len()], p));
            }
        }
        if covered(a).contains(p) {
            let i = choose|i: int| 0 <= i < a.len() && #[trigger] held_by(a[i], p);
            assert(held_by(t[i], p));
        }
        if covered(b).contains(p) {
            let i = choose|i: int| 0 <= i < b.len() && #[trigger] held_by(b[i], p);
            assert(held_by(t[a.len() + i], p));
        }
    }
    assert(covered(t) =~= covered(a).union(covered(b)));
}

/// Lists of the same stretches cover the same.
proof fn lemma_same_members_cover_the_same<R: Numbered>(a: Seq<R>, b: Seq<R>)
    requires
        same_members(a, b),
    ensures
        covered(a) == covered(b),
        all_in_order(a) ==> all_in_order(b),
{
    assert forall|p: (Option<u32>, int)| covered(a).contains(p) implies covered(b).contains(p) by {
        let i = choose|i: int| 0 <= i < a.len() && #[trigger] held_by(a[i], p);
        assert(a.contains(a[i]));
        let j = choose|j: int| 0 <= j < b.len() && b[j] == a[i];
        assert(held_by(b[j], p));
    }
    assert forall|p: (Option<u32>, int)| covered(b).contains(p) implies covered(a).contains(p) by {
        let i = choose|i: int| 0 <= i < b.len() && #[trigger] held_by(b[i], p);
        assert(b.contains(b[i]));
        let j = choose|j: int| 0 <= j < a.len() && a[j] == b[i];
        assert(held_by(a[j], p));
    }
    assert(covered(a) =~= covered(b));
    if all_in_order(a) {
        assert forall|i: int| 0 <= i < b.len() implies in_order(#[trigger] b[i]) by {
            assert(b.contains(b[i]));
            let j = choose|j: int| 0 <= j < a.len() && a[j] == b[i];
            assert(in_order(a[j]));
        }
    }
}

/// A canonical list covers as many pairs as its stretches hold numbers.
pub proof fn lemma_canonical_counts_exactly<R: Numbered>(s: Seq<R>)
    requires
        canonical(s),
    ensures
        covered(s).finite(),
        covered(s).len() == gross(s),
    decreases s.len(),
{
    if s.len() == 0 {
        assert(covered(s) =~= Set::empty());
    } else {
        let before = s.drop_last();
        let r = s.last();
        lemma_canonical_counts_exactly(before);
        assert(before.push(r) =~= s);
        lemma_covered_push(before, r);
        lemma_one_stretch_counts(r);
        let mine = Set::new(|p: (Option<u32>, int)| held_by(r, p));
        assert(covered(s) =~= covered(before) + mine);
        assert(covered(before).disjoint(mine)) by {
            assert forall|p: (Option<u32>, int)| covered(before).contains(p) implies !mine.contains(
                p,
            ) by {
                let i = choose|i: int| 0 <= i < before.len() && #[trigger] held_by(before[i], p);
                assert(clear_of(s[i], s[s.len() - 1]));
            }
        }
        vstd::set_lib::lemma_set_disjoint_lens(covered(before), mine);
    }
}

proof fn lemma_one_stretch_counts<R: Numbered>(r: R)
    requires
        in_order(r),
    ensures
        Set::new(|p: (Option<u32>, int)| held_by(r, p)).finite(),
        Set::new(|p: (Option<u32>, int)| held_by(r, p)).len() == r.hi() - r.lo() + 1,
{
    let numbers = vstd::set_lib::set_int_range(r.lo(), r.hi() + 1);
    let mine = Set::new(|p: (Option<u32>, int)| held_by(r, p));
    let pair = |n: int| (r.scope(), n);
    vstd::set_lib::lemma_int_range(r.lo(), r.hi() + 1);
    assert forall|p: (Option<u32>, int)| mine.contains(p) implies numbers.map(pair).contains(p) by {
        assert(numbers.contains(p.1) && pair(p.1) == p);
    }
    assert(numbers.map(pair) =~= mine);
    assert(vstd::relations::injective_on(pair, numbers));
    vstd::set_lib::lemma_map_size(numbers, mine, pair);
}

/// No list covers more pairs than its stretches hold numbers.
pub proof fn lemma_gross_is_no_undercount<R: Numbered>(s: Seq<R>)
    requires
        all_in_order(s),
    ensures
        covered(s).finite(),
        covered(s).len() <= gross(s),
    decreases s.len(),
{
    if s.len() == 0 {
        assert(covered(s) =~= Set::empty());
    } else {
        let before = s.drop_last();
        let r = s.last();
        lemma_gross_is_no_undercount(before);
        assert(before.push(r) =~= s);
        lemma_covered_push(before, r);
        lemma_one_stretch_counts(r);
        let mine = Set::new(|p: (Option<u32>, int)| held_by(r, p));
        assert(covered(s) =~= covered(before) + mine);
        vstd::set_lib::lemma_len_union(covered(before), mine);
    }
}

/// A canonical list that covers nothing is empty, and one that covers something
/// starts with the least pair it covers.
proof fn lemma_first_is_least<R: Numbered>(s: Seq<R>, p: (Option<u32>, int))
    requires
        canonical(s),
        covered(s).contains(p),
    ensures
        s.len() > 0,
        scope_rank(s[0].scope()) < scope_rank(p.0) || s[0].scope() == p.0 && s[0].lo() <= p.1,
{
    let i = choose|i: int| 0 <= i < s.len() && #[trigger] held_by(s[i], p);
    if i > 0 {
        assert(clear_of(s[0], s[i]));
        assert(in_order(s[0]));
    }
}

/// There is one canonical list for what it covers.
pub proof fn lemma_canonical_is_unique<R: Numbered>(a: Seq<R>, b: Seq<R>)
    requires
        canonical(a),
        canonical(b),
        covered(a) == covered(b),
    ensures
        a == b,
    decreases a.len(),
{
    if a.len() == 0 {
        if b.len() > 0 {
            assert(in_order(b[0]));
            assert(held_by(b[0], (b[0].scope(), b[0].lo())));
            assert(covered(b).contains((b[0].scope(), b[0].lo())));
            assert(covered(a).contains((b[0].scope(), b[0].lo())));
        }
        assert(a =~= b);
    } else {
        assert(in_order(a[0]));
        let pa = (a[0].scope(), a[0].lo());
        assert(held_by(a[0], pa));
        assert(covered(a).contains(pa));
        lemma_first_is_least(b, pa);
        assert(in_order(b[0]));
        let pb = (b[0].scope(), b[0].lo());
        assert(held_by(b[0], pb));
        assert(covered(b).contains(pb));
        lemma_first_is_least(a, pb);
        assert(a[0].scope() == b[0].scope() && a[0].lo() == b[0].lo());
        lemma_first_reaches_no_further(a, b);
        lemma_first_reaches_no_further(b, a);
        R::ends_decide(a[0], b[0]);
        let (ra, rb) = (a.drop_first(), b.drop_first());
        assert(canonical(ra)) by {
            assert forall|i: int| 0 <= i < ra.len() implies in_order(#[trigger] ra[i]) by {
                assert(in_order(a[i + 1]));
            }
        }
        assert(canonical(rb)) by {
            assert forall|i: int| 0 <= i < rb.len() implies in_order(#[trigger] rb[i]) by {
                assert(in_order(b[i + 1]));
            }
        }
        lemma_rest_covers(a);
        lemma_rest_covers(b);
        assert(covered(ra) =~= covered(rb));
        lemma_canonical_is_unique(ra, rb);
        assert(a =~= seq![a[0]] + ra);
        assert(b =~= seq![b[0]] + rb);
    }
}

proof fn lemma_rest_covers<R: Numbered>(s: Seq<R>)
    requires
        canonical(s),
        s.len() > 0,
    ensures
        forall|p: (Option<u32>, int)| #[trigger]
            covered(s.drop_first()).contains(p) <==> covered(s).contains(p) && !held_by(s[0], p),
{
    let rest = s.drop_first();
    assert forall|p: (Option<u32>, int)| #[trigger] covered(rest).contains(p) <==> covered(
        s,
    ).contains(p) && !held_by(s[0], p) by {
        if covered(rest).contains(p) {
            let i = choose|i: int| 0 <= i < rest.len() && #[trigger] held_by(rest[i], p);
            assert(held_by(s[i + 1], p));
            assert(clear_of(s[0], s[i + 1]));
        }
        if covered(s).contains(p) && !held_by(s[0], p) {
            let i = choose|i: int| 0 <= i < s.len() && #[trigger] held_by(s[i], p);
            assert(held_by(rest[i - 1], p));
        }
    }
}

proof fn lemma_first_reaches_no_further<R: Numbered>(a: Seq<R>, b: Seq<R>)
    requires
        canonical(a),
        canonical(b),
        covered(a) == covered(b),
        a.len() > 0,
        b.len() > 0,
        a[0].scope() == b[0].scope(),
        a[0].lo() == b[0].lo(),
    ensures
        a[0].hi() <= b[0].hi(),
{
    if a[0].hi() > b[0].hi() {
        assert(in_order(b[0]));
        let p = (b[0].scope(), b[0].hi() + 1);
        assert(held_by(a[0], p));
        assert(covered(a).contains(p));
        assert(covered(b).contains(p));
        let i = choose|i: int| 0 <= i < b.len() && #[trigger] held_by(b[i], p);
        if i > 0 {
            assert(clear_of(b[0], b[i]));
        }
    }
}

// ---------------------------------------------------------------------------
// Sorting and merging
// ---------------------------------------------------------------------------

proof fn lemma_contains_push<R>(s: Seq<R>, r: R)
    ensures
        forall|x: R| #[trigger] s.push(r).contains(x) <==> s.contains(x) || x == r,
{
    assert forall|x: R| #[trigger] s.push(r).contains(x) <==> s.contains(x) || x == r by {
        if s.contains(x) {
            let i = choose|i: int| 0 <= i < s.len() && s[i] == x;
            assert(s.push(r)[i] == x);
        }
        assert(s.push(r)[s.len() as int] == r);
    }
}

proof fn lemma_contains_take<R>(s: Seq<R>, i: int)
    requires
        0 <= i < s.len(),
    ensures
        s.take(i + 1) == s.take(i).push(s[i]),
        forall|x: R| #[trigger] s.take(i + 1).contains(x) <==> s.take(i).contains(x) || x == s[i],
{
    assert(s.take(i + 1) =~= s.take(i).push(s[i]));
    lemma_contains_push(s.take(i), s[i]);
}

/// Where an interface stands among interfaces.
fn rank(scope: Option<u32>) -> (rank: u64)
    ensures
        rank == scope_rank(scope),
{
    match scope {
        None => 0,
        Some(z) => z as u64 + 1,
    }
}

/// Whether two interfaces are the same.
pub fn same_scope(a: Option<u32>, b: Option<u32>) -> (same: bool)
    ensures
        same == (a == b),
{
    match (a, b) {
        (None, None) => true,
        (Some(x), Some(y)) => x == y,
        _ => false,
    }
}

/// Whether one stretch starts no later than another.
fn no_later<R: Stretch>(a: &R, b: &R) -> (result: bool)
    ensures
        result == starts_by(*a, *b),
{
    let (ra, rb) = (rank(a.scoped_to()), rank(b.scoped_to()));
    if ra != rb {
        ra < rb
    } else {
        a.ends().0 <= b.ends().0
    }
}

/// Two sorted lists, merged into one.
fn merge_sorted<R: Stretch>(a: &Vec<R>, b: &Vec<R>) -> (out: Vec<R>)
    requires
        sorted(a@),
        sorted(b@),
    ensures
        sorted(out@),
        forall|x: R| #[trigger] out@.contains(x) <==> a@.contains(x) || b@.contains(x),
{
    let mut out: Vec<R> = Vec::new();
    let mut i: usize = 0;
    let mut j: usize = 0;
    while i < a.len() || j < b.len()
        invariant
            sorted(a@),
            sorted(b@),
            sorted(out@),
            i <= a@.len(),
            j <= b@.len(),
            forall|x: R| #[trigger]
                out@.contains(x) <==> a@.take(i as int).contains(x) || b@.take(j as int).contains(x),
            forall|k: int, m: int|
                0 <= k < out@.len() && i <= m < a@.len() ==> starts_by(
                    #[trigger] out@[k],
                    #[trigger] a@[m],
                ),
            forall|k: int, m: int|
                0 <= k < out@.len() && j <= m < b@.len() ==> starts_by(
                    #[trigger] out@[k],
                    #[trigger] b@[m],
                ),
        decreases a@.len() - i + b@.len() - j,
    {
        let ghost before = out@;
        if j >= b.len() || (i < a.len() && no_later(&a[i], &b[j])) {
            let r = a[i];
            out.push(r);
            proof {
                lemma_contains_push(before, r);
                lemma_contains_take(a@, i as int);
                assert forall|m: int| j <= m < b@.len() implies starts_by(r, #[trigger] b@[m]) by {
                    assert(starts_by(b@[j as int], b@[m]));
                }
                assert forall|m: int| i <= m < a@.len() implies starts_by(r, #[trigger] a@[m]) by {
                    assert(starts_by(a@[i as int], a@[m]));
                }
            }
            i = i + 1;
        } else {
            let r = b[j];
            out.push(r);
            proof {
                lemma_contains_push(before, r);
                lemma_contains_take(b@, j as int);
                assert forall|m: int| i <= m < a@.len() implies starts_by(r, #[trigger] a@[m]) by {
                    assert(starts_by(a@[i as int], a@[m]));
                }
                assert forall|m: int| j <= m < b@.len() implies starts_by(r, #[trigger] b@[m]) by {
                    assert(starts_by(b@[j as int], b@[m]));
                }
            }
            j = j + 1;
        }
    }
    assert(a@.take(i as int) =~= a@);
    assert(b@.take(j as int) =~= b@);
    out
}

/// The stretches of part of a list, sorted by where they start.
fn sort_part<R: Stretch>(v: &Vec<R>, from: usize, to: usize) -> (out: Vec<R>)
    requires
        from <= to <= v@.len(),
    ensures
        sorted(out@),
        same_members(out@, v@.subrange(from as int, to as int)),
    decreases to - from,
{
    let ghost part = v@.subrange(from as int, to as int);
    if to - from <= 1 {
        let mut out: Vec<R> = Vec::new();
        if from < to {
            out.push(v[from]);
            assert(part =~= seq![v@[from as int]]);
        }
        assert(out@ =~= part);
        return out;
    }
    let middle: usize = from + (to - from) / 2;
    let left = sort_part(v, from, middle);
    let right = sort_part(v, middle, to);
    let out = merge_sorted(&left, &right);
    proof {
        let (a, b) = (v@.subrange(from as int, middle as int), v@.subrange(middle as int, to as int));
        assert(part =~= a + b);
        assert forall|x: R| #![auto] part.contains(x) <==> a.contains(x) || b.contains(x) by {
            if part.contains(x) {
                let k = choose|k: int| 0 <= k < part.len() && part[k] == x;
                if k < a.len() {
                    assert(a[k] == x);
                } else {
                    assert(b[k - a.len()] == x);
                }
            }
            if a.contains(x) {
                let k = choose|k: int| 0 <= k < a.len() && a[k] == x;
                assert(part[k] == x);
            }
            if b.contains(x) {
                let k = choose|k: int| 0 <= k < b.len() && b[k] == x;
                assert(part[a.len() + k] == x);
            }
        }
    }
    out
}

/// Sorts and merges a list: the canonical list that covers the same.
pub fn merge<R: Stretch>(v: &Vec<R>) -> (merged: Vec<R>)
    requires
        all_in_order(v@),
    ensures
        canonical(merged@),
        covered(merged@) == covered(v@),
{
    let n: usize = v.len();
    let ordered = sort_part(v, 0, n);
    proof {
        assert(v@.subrange(0, n as int) =~= v@);
        lemma_same_members_cover_the_same(v@, ordered@);
    }
    let mut merged: Vec<R> = Vec::new();
    if ordered.len() == 0 {
        return merged;
    }
    let mut current = ordered[0];
    let mut i: usize = 1;
    proof {
        assert(in_order(ordered@[0]));
        lemma_contains_take(ordered@, 0);
        assert(merged@.push(current) =~= ordered@.take(1));
    }
    while i < ordered.len()
        invariant
            1 <= i <= ordered@.len(),
            all_in_order(ordered@),
            sorted(ordered@),
            canonical(merged@.push(current)),
            covered(merged@.push(current)) == covered(ordered@.take(i as int)),
            forall|j: int| i <= j < ordered@.len() ==> starts_by(current, #[trigger] ordered@[j]),
        decreases ordered@.len() - i,
    {
        let next = ordered[i];
        let ghost list = merged@.push(current);
        let ghost took = ordered@.take(i as int);
        proof {
            assert(in_order(next));
            assert(list[merged@.len() as int] == current);
            assert(in_order(current));
            assert(starts_by(current, ordered@[i as int]));
            lemma_contains_take(ordered@, i as int);
            lemma_covered_push(took, next);
            lemma_covered_push(merged@, current);
        }
        let reach: u128 = current.ends().1.saturating_add(1);
        if same_scope(next.scoped_to(), current.scoped_to()) && next.ends().0 <= reach {
            let grown = current.reaching(&next);
            proof {
                lemma_covered_push(merged@, grown);
                let after = merged@.push(grown);
                assert forall|a: int, b: int| 0 <= a < b < after.len() implies clear_of(
                    #[trigger] after[a],
                    #[trigger] after[b],
                ) by {
                    assert(clear_of(list[a], list[b]));
                }
                assert forall|a: int| 0 <= a < after.len() implies in_order(
                    #[trigger] after[a],
                ) by {
                    assert(in_order(list[a]));
                }
                assert(covered(after) =~= covered(ordered@.take(i + 1)));
                assert forall|j: int| i + 1 <= j < ordered@.len() implies starts_by(
                    grown,
                    #[trigger] ordered@[j],
                ) by {
                    assert(starts_by(current, ordered@[j]));
                }
            }
            current = grown;
        } else {
            proof {
                lemma_covered_push(list, next);
                let after = list.push(next);
                assert forall|a: int, b: int| 0 <= a < b < after.len() implies clear_of(
                    #[trigger] after[a],
                    #[trigger] after[b],
                ) by {
                    if b < list.len() {
                        assert(clear_of(list[a], list[b]));
                    } else if a < merged@.len() {
                        assert(clear_of(list[a], list[merged@.len() as int]));
                    }
                }
                assert forall|a: int| 0 <= a < after.len() implies in_order(
                    #[trigger] after[a],
                ) by {
                    if a < list.len() {
                        assert(in_order(list[a]));
                    }
                }
                assert(covered(after) =~= covered(ordered@.take(i + 1)));
                assert forall|j: int| i + 1 <= j < ordered@.len() implies starts_by(
                    next,
                    #[trigger] ordered@[j],
                ) by {
                    assert(starts_by(ordered@[i as int], ordered@[j]));
                }
            }
            merged.push(current);
            current = next;
        }
        i = i + 1;
    }
    merged.push(current);
    assert(ordered@.take(i as int) =~= ordered@);
    merged
}

// ---------------------------------------------------------------------------
// Counting and searching
// ---------------------------------------------------------------------------

/// How many numbers the stretches of a list hold, as far as a `u128` can say.
pub fn count<R: Stretch>(v: &Vec<R>) -> (total: u128)
    requires
        all_in_order(v@),
    ensures
        total == if gross(v@) > u128::MAX {
            u128::MAX as int
        } else {
            gross(v@)
        },
        gross(v@) >= 0,
{
    let mut total: u128 = 0;
    let mut i: usize = 0;
    assert(v@.take(0).len() == 0);
    while i < v.len()
        invariant
            i <= v@.len(),
            all_in_order(v@),
            gross(v@.take(i as int)) >= 0,
            total == if gross(v@.take(i as int)) > u128::MAX {
                u128::MAX as int
            } else {
                gross(v@.take(i as int))
            },
        decreases v@.len() - i,
    {
        let (lo, hi) = v[i].ends();
        assert(v@.take(i + 1).drop_last() =~= v@.take(i as int));
        let len: u128 = (hi - lo).saturating_add(1);
        total = total.saturating_add(len);
        i = i + 1;
    }
    assert(v@.take(i as int) =~= v@);
    total
}

/// Whether any stretch of a list holds a number, by looking at each.
pub fn scan<R: Stretch>(v: &Vec<R>, n: u128) -> (held: bool)
    ensures
        held == (exists|scope: Option<u32>| covered(v@).contains((scope, n as int))),
{
    let mut i: usize = 0;
    while i < v.len()
        invariant
            i <= v@.len(),
            forall|j: int, scope: Option<u32>| 0 <= j < i ==> !#[trigger] held_by(v@[j], (scope, n as int)),
        decreases v@.len() - i,
    {
        let (lo, hi) = v[i].ends();
        if lo <= n && n <= hi {
            proof {
                let p = (v@[i as int].scope(), n as int);
                assert(held_by(v@[i as int], p));
                assert(covered(v@).contains(p));
            }
            return true;
        }
        i = i + 1;
    }
    false
}

/// Where the run of stretches on the interface of the one at `from` ends.
///
/// Within such a run the stretches are sorted and disjoint, which is what a
/// binary search needs and which a whole list is not.
pub fn run_end<R: Stretch>(v: &Vec<R>, from: usize) -> (to: usize)
    requires
        disjoint(v@),
        from < v@.len(),
    ensures
        from < to <= v@.len(),
        forall|i: int| from <= i < to ==> (#[trigger] v@[i]).scope() == v@[from as int].scope(),
        forall|i: int|
            to <= i < v@.len() ==> (#[trigger] v@[i]).scope() != v@[from as int].scope(),
{
    let scope = v[from].scoped_to();
    let n: usize = v.len();
    let mut low: usize = from + 1;
    let mut high: usize = n;
    while low < high
        invariant
            disjoint(v@),
            from < low <= high <= v@.len(),
            scope == v@[from as int].scope(),
            forall|i: int| from <= i < low ==> (#[trigger] v@[i]).scope() == scope,
            forall|i: int| high <= i < v@.len() ==> (#[trigger] v@[i]).scope() != scope,
        decreases high - low,
    {
        let middle: usize = low + (high - low) / 2;
        if same_scope(v[middle].scoped_to(), scope) {
            proof {
                assert forall|i: int| from <= i < middle + 1 implies (#[trigger] v@[i]).scope()
                    == scope by {
                    if from < i < middle {
                        assert(ends_before(v@[from as int], v@[i]));
                        assert(ends_before(v@[i], v@[middle as int]));
                    }
                }
            }
            low = middle + 1;
        } else {
            proof {
                assert forall|i: int| middle <= i < v@.len() implies (#[trigger] v@[i]).scope()
                    != scope by {
                    assert(ends_before(v@[from as int], v@[middle as int]));
                    if i > middle {
                        assert(ends_before(v@[middle as int], v@[i]));
                    }
                }
            }
            high = middle;
        }
    }
    low
}

/// Which stretch of one interface's run holds a number, by binary search.
pub fn find_in_run<R: Stretch>(v: &Vec<R>, from: usize, to: usize, n: u128) -> (at: Option<usize>)
    requires
        disjoint(v@),
        from <= to <= v@.len(),
        forall|i: int, j: int|
            from <= i < to && from <= j < to ==> (#[trigger] v@[i]).scope() == (
            #[trigger] v@[j]).scope(),
    ensures
        match at {
            Some(i) => from <= i < to && v@[i as int].lo() <= n <= v@[i as int].hi(),
            None => forall|i: int|
                from <= i < to ==> !((#[trigger] v@[i]).lo() <= n <= v@[i].hi()),
        },
{
    let mut low: usize = from;
    let mut high: usize = to;
    while low < high
        invariant
            disjoint(v@),
            from <= low <= high <= to <= v@.len(),
            forall|i: int, j: int|
                from <= i < to && from <= j < to ==> (#[trigger] v@[i]).scope() == (
                #[trigger] v@[j]).scope(),
            forall|i: int| from <= i < low ==> (#[trigger] v@[i]).hi() < n,
            forall|i: int| high <= i < to ==> (#[trigger] v@[i]).lo() > n,
        decreases high - low,
    {
        let middle: usize = low + (high - low) / 2;
        let (lo, hi) = v[middle].ends();
        if hi < n {
            proof {
                assert forall|i: int| from <= i < middle + 1 implies (#[trigger] v@[i]).hi()
                    < n by {
                    if i < middle {
                        assert(ends_before(v@[i], v@[middle as int]));
                    }
                }
            }
            low = middle + 1;
        } else if lo > n {
            proof {
                assert forall|i: int| middle <= i < to implies (#[trigger] v@[i]).lo() > n by {
                    if i > middle {
                        assert(ends_before(v@[middle as int], v@[i]));
                    }
                }
            }
            high = middle;
        } else {
            return Some(middle);
        }
    }
    None
}

/// Whether any stretch of a list holds a number, one binary search for each
/// interface. The list is sorted and free of overlap.
pub fn search<R: Stretch>(v: &Vec<R>, n: u128) -> (held: bool)
    requires
        disjoint(v@),
    ensures
        held == (exists|scope: Option<u32>| covered(v@).contains((scope, n as int))),
{
    let mut from: usize = 0;
    while from < v.len()
        invariant
            disjoint(v@),
            from <= v@.len(),
            forall|j: int| 0 <= j < from ==> !((#[trigger] v@[j]).lo() <= n <= v@[j].hi()),
        decreases v@.len() - from,
    {
        let to: usize = run_end(v, from);
        match find_in_run(v, from, to, n) {
            Some(i) => {
                proof {
                    let p = (v@[i as int].scope(), n as int);
                    assert(held_by(v@[i as int], p));
                    assert(covered(v@).contains(p));
                }
                return true;
            },
            None => {},
        }
        from = to;
    }
    false
}

// ---------------------------------------------------------------------------
// Subtraction
// ---------------------------------------------------------------------------

/// A run of numbers on no interface in particular.
#[derive(Debug, Clone, Copy)]
pub struct Interval {
    first: u128,
    last: u128,
}

impl Interval {
    #[verifier::type_invariant]
    spec fn not_inverted(self) -> bool {
        self.first <= self.last
    }

    /// The numbers of a stretch, on whatever interface.
    fn of<R: Stretch>(r: &R) -> (interval: Interval)
        ensures
            interval.lo() == r.lo(),
            interval.hi() == r.hi(),
    {
        let (first, last) = r.ends();
        Interval { first, last }
    }
}

impl Numbered for Interval {
    closed spec fn lo(&self) -> int {
        self.first as int
    }

    closed spec fn hi(&self) -> int {
        self.last as int
    }

    open spec fn scope(&self) -> Option<u32> {
        None
    }

    open spec fn sound(&self) -> bool {
        true
    }

    proof fn ends_decide(a: Self, b: Self) {
    }
}

impl Stretch for Interval {
    fn ends(&self) -> (ends: (u128, u128)) {
        proof {
            use_type_invariant(self);
        }
        (self.first, self.last)
    }

    fn scoped_to(&self) -> (scope: Option<u32>) {
        None
    }

    fn part(&self, lo: u128, hi: u128) -> (part: Self) {
        Interval { first: lo, last: hi }
    }

    fn reaching(&self, other: &Self) -> (reached: Self) {
        proof {
            use_type_invariant(self);
            use_type_invariant(other);
        }
        if other.last > self.last {
            Interval { first: self.first, last: other.last }
        } else {
            *self
        }
    }
}

/// Whether a list covers a number on any interface.
pub open spec fn anywhere<R: Numbered>(s: Seq<R>, n: int) -> bool {
    exists|scope: Option<u32>| #[trigger] covered(s).contains((scope, n))
}

/// A list with its interfaces dropped, sorted and merged.
pub fn flatten<R: Stretch>(v: &Vec<R>) -> (cuts: Vec<Interval>)
    ensures
        canonical(cuts@),
        forall|n: int| anywhere(cuts@, n) <==> anywhere(v@, n),
        cuts@.len() == 0 ==> v@.len() == 0,
{
    let mut intervals: Vec<Interval> = Vec::new();
    let mut i: usize = 0;
    while i < v.len()
        invariant
            i <= v@.len(),
            intervals@.len() == i,
            all_in_order(intervals@),
            forall|j: int|
                0 <= j < i ==> (#[trigger] intervals@[j]).lo() == v@[j].lo() && intervals@[j].hi()
                    == v@[j].hi(),
        decreases v@.len() - i,
    {
        let interval = Interval::of(&v[i]);
        let ends = interval.ends();
        intervals.push(interval);
        i = i + 1;
    }
    let cuts = merge(&intervals);
    proof {
        assert forall|n: int| anywhere(cuts@, n) <==> anywhere(v@, n) by {
            if anywhere(cuts@, n) {
                let scope = choose|scope: Option<u32>| #[trigger]
                    covered(cuts@).contains((scope, n));
                let j = choose|j: int|
                    0 <= j < intervals@.len() && #[trigger] held_by(intervals@[j], (scope, n));
                assert(held_by(v@[j], (v@[j].scope(), n)));
                assert(covered(v@).contains((v@[j].scope(), n)));
            }
            if anywhere(v@, n) {
                let scope = choose|scope: Option<u32>| #[trigger] covered(v@).contains((scope, n));
                let j = choose|j: int| 0 <= j < v@.len() && #[trigger] held_by(v@[j], (scope, n));
                assert(intervals@[j].lo() <= n <= intervals@[j].hi());
                assert(held_by(intervals@[j], (None::<u32>, n)));
                assert(covered(intervals@).contains((None::<u32>, n)));
                assert(covered(cuts@).contains((None::<u32>, n)));
            }
        }
        if cuts@.len() == 0 && v@.len() > 0 {
            let p = (None::<u32>, intervals@[0].lo());
            assert(in_order(intervals@[0]));
            assert(held_by(intervals@[0], p));
            assert(covered(intervals@).contains(p));
            assert(covered(cuts@).contains(p));
        }
    }
    cuts
}

/// Whether a list covers a pair that is not cut away.
pub open spec fn left_over<R: Numbered>(
    s: Seq<R>,
    cuts: Seq<Interval>,
    p: (Option<u32>, int),
) -> bool {
    covered(s).contains(p) && !anywhere(cuts, p.1)
}

/// Every part of the stretches of a list that no cut covers, in order. Both lists are
/// sorted and free of overlap, and so is what is left; where no two stretches touch,
/// no two parts of them do.
///
/// Linear in the stretches of both: both lists ascend, so a cut left of one
/// stretch is left of every later one on the same interface.
pub fn subtract<R: Stretch>(v: &Vec<R>, cuts: &Vec<Interval>) -> (kept: Vec<R>)
    requires
        disjoint(v@),
        disjoint(cuts@),
    ensures
        disjoint(kept@),
        canonical(v@) ==> canonical(kept@),
        forall|p: (Option<u32>, int)| #[trigger]
            covered(kept@).contains(p) <==> left_over(v@, cuts@, p),
{
    let mut kept: Vec<R> = Vec::new();
    let mut first_live: usize = 0;
    let mut i: usize = 0;
    while i < v.len()
        invariant
            disjoint(v@),
            disjoint(cuts@),
            disjoint(kept@),
            canonical(v@) ==> canonical(kept@),
            i <= v@.len(),
            first_live <= cuts@.len(),
            forall|c: int|
                0 <= c < first_live && i > 0 ==> (#[trigger] cuts@[c]).hi() < v@[i - 1].lo(),
            i == 0 ==> first_live == 0,
            forall|p: (Option<u32>, int)| #[trigger]
                covered(kept@).contains(p) <==> left_over(v@.take(i as int), cuts@, p),
            forall|k: int, m: int|
                0 <= k < kept@.len() && i <= m < v@.len() ==> ends_before(
                    #[trigger] kept@[k],
                    #[trigger] v@[m],
                ) && (canonical(v@) ==> clear_of(kept@[k], v@[m])),
        decreases v@.len() - i,
    {
        let range = v[i];
        let (start, end) = range.ends();
        if i > 0 && !same_scope(v[i - 1].scoped_to(), range.scoped_to()) {
            first_live = 0;
        }
        proof {
            if i > 0 {
                assert(ends_before(v@[i - 1], v@[i as int]));
                assert(in_order(v@[i - 1]));
            }
        }
        while first_live < cuts.len() && cuts[first_live].ends().1 < start
            invariant
                first_live <= cuts@.len(),
                start == range.lo(),
                forall|c: int| 0 <= c < first_live ==> (#[trigger] cuts@[c]).hi() < start,
            decreases cuts@.len() - first_live,
        {
            first_live = first_live + 1;
        }
        let ghost before = kept@;
        let ghost took = v@.take(i as int);
        let mut cursor: u128 = start;
        let mut consumed = false;
        let mut cut: usize = first_live;
        while cut < cuts.len() && cuts[cut].ends().0 <= end && !consumed
            invariant
                disjoint(cuts@),
                disjoint(kept@),
                canonical(v@) ==> canonical(kept@),
                first_live <= cut <= cuts@.len(),
                range.lo() == start,
                range.hi() == end,
                start <= cursor <= end,
                !consumed && cut < cuts@.len() ==> cuts@[cut as int].hi() >= cursor,
                i < v@.len(),
                range == v@[i as int],
                took == v@.take(i as int),
                forall|c: int|
                    0 <= c < cut && !(consumed && c == cut - 1) ==> (#[trigger] cuts@[c]).hi()
                        < cursor,
                consumed ==> cut > 0 && cuts@[cut - 1].lo() <= end && cuts@[cut - 1].hi() >= end
                    && forall|n: int| cursor <= n < cuts@[cut - 1].lo() ==> #[trigger] covered(kept@).contains((range.scope(), n)),
                forall|p: (Option<u32>, int)| #[trigger]
                    covered(kept@).contains(p) ==> left_over(took, cuts@, p) || held_by(range, p)
                        && !anywhere(cuts@, p.1),
                forall|p: (Option<u32>, int)|
                    left_over(took, cuts@, p) ==> #[trigger] covered(kept@).contains(p),
                forall|n: int|
                    start <= n < cursor && !anywhere(cuts@, n) ==> #[trigger] covered(
                        kept@,
                    ).contains((range.scope(), n)),
                !consumed ==> forall|k: int|
                    0 <= k < kept@.len() ==> scope_rank((#[trigger] kept@[k]).scope()) < scope_rank(
                        range.scope(),
                    ) || kept@[k].scope() == range.scope() && kept@[k].hi() < cursor && (canonical(
                        v@,
                    ) ==> kept@[k].hi() + 1 < cursor),
                forall|k: int|
                    0 <= k < kept@.len() ==> scope_rank((#[trigger] kept@[k]).scope()) < scope_rank(
                        range.scope(),
                    ) || kept@[k].scope() == range.scope() && kept@[k].hi() <= end,
            decreases cuts@.len() - cut,
        {
            let (cut_start, cut_end) = cuts[cut].ends();
            let ghost was = kept@;
            if cut_start > cursor {
                let piece = range.part(cursor, cut_start - 1);
                proof {
                    lemma_covered_push(was, piece);
                    assert forall|n: int| cursor <= n < cut_start implies !anywhere(cuts@, n) by {
                        lemma_between_cuts(cuts@, cut as int, n);
                    }
                    let after = was.push(piece);
                    assert forall|a: int, b: int| 0 <= a < b < after.len() implies ends_before(
                        #[trigger] after[a],
                        #[trigger] after[b],
                    ) && (canonical(v@) ==> clear_of(after[a], after[b])) by {
                        if b < was.len() {
                            assert(ends_before(was[a], was[b]));
                            assert(canonical(v@) ==> clear_of(was[a], was[b]));
                        }
                    }
                    assert forall|a: int| 0 <= a < after.len() implies in_order(
                        #[trigger] after[a],
                    ) by {
                        if a < was.len() {
                            assert(in_order(was[a]));
                        }
                    }
                }
                kept.push(piece);
            }
            proof {
                assert forall|n: int| cut_start <= n <= cut_end implies anywhere(cuts@, n) by {
                    assert(held_by(cuts@[cut as int], (None::<u32>, n)));
                    assert(covered(cuts@).contains((None::<u32>, n)));
                }
                assert forall|c: int| 0 <= c < cut implies (#[trigger] cuts@[c]).hi() < cut_end by {
                    assert(ends_before(cuts@[c], cuts@[cut as int]));
                }
                if cut + 1 < cuts@.len() {
                    assert(ends_before(cuts@[cut as int], cuts@[cut + 1]));
                    assert(in_order(cuts@[cut + 1]));
                }
                assert forall|n: int| cursor <= n < cut_start implies #[trigger] covered(
                    kept@,
                ).contains((range.scope(), n)) by {
                    let p = (range.scope(), n);
                    assert(held_by(kept@[was.len() as int], p));
                }
                assert forall|p: (Option<u32>, int)| #[trigger] covered(was).contains(
                    p,
                ) implies covered(kept@).contains(p) by {}
            }
            if cut_end >= end {
                consumed = true;
            } else {
                cursor = cut_end + 1;
            }
            cut = cut + 1;
        }
        if !consumed {
            let piece = range.part(cursor, end);
            let ghost was = kept@;
            proof {
                lemma_covered_push(was, piece);
                assert forall|n: int| cursor <= n <= end implies !anywhere(cuts@, n) by {
                    lemma_between_cuts(cuts@, cut as int, n);
                }
                let after = was.push(piece);
                assert forall|a: int, b: int| 0 <= a < b < after.len() implies ends_before(
                    #[trigger] after[a],
                    #[trigger] after[b],
                ) && (canonical(v@) ==> clear_of(after[a], after[b])) by {
                    if b < was.len() {
                        assert(ends_before(was[a], was[b]));
                        assert(canonical(v@) ==> clear_of(was[a], was[b]));
                    }
                }
                assert forall|a: int| 0 <= a < after.len() implies in_order(#[trigger] after[a]) by {
                    if a < was.len() {
                        assert(in_order(was[a]));
                    }
                }
            }
            kept.push(piece);
        }
        proof {
            assert(v@.take(i + 1) =~= took.push(range));
            lemma_covered_push(took, range);
            assert forall|p: (Option<u32>, int)| #[trigger]
                covered(kept@).contains(p) <==> left_over(v@.take(i + 1), cuts@, p) by {
                if held_by(range, p) && !anywhere(cuts@, p.1) {
                    let n = p.1;
                    assert(p == (range.scope(), n));
                    if n >= cursor {
                        if consumed {
                            if n >= cuts@[cut - 1].lo() {
                                assert(held_by(cuts@[cut - 1], (None::<u32>, n)));
                                assert(covered(cuts@).contains((None::<u32>, n)));
                            }
                        } else {
                            assert(held_by(kept@[kept@.len() - 1], p));
                        }
                    }
                }
            }
            assert forall|k: int, m: int| 0 <= k < kept@.len() && i + 1 <= m
                < v@.len() implies ends_before(#[trigger] kept@[k], #[trigger] v@[m]) && (canonical(
                v@,
            ) ==> clear_of(kept@[k], v@[m])) by {
                assert(ends_before(v@[i as int], v@[m]));
                assert(canonical(v@) ==> clear_of(v@[i as int], v@[m]));
            }
        }
        i = i + 1;
    }
    assert(v@.take(i as int) =~= v@);
    kept
}

/// Between one cut and the next nothing is cut away.
proof fn lemma_between_cuts(cuts: Seq<Interval>, at: int, n: int)
    requires
        disjoint(cuts),
        0 <= at <= cuts.len(),
        forall|c: int| 0 <= c < at ==> (#[trigger] cuts[c]).hi() < n,
        at < cuts.len() ==> n < cuts[at].lo(),
    ensures
        !anywhere(cuts, n),
{
    if anywhere(cuts, n) {
        let scope = choose|scope: Option<u32>| #[trigger] covered(cuts).contains((scope, n));
        let c = choose|c: int| 0 <= c < cuts.len() && #[trigger] held_by(cuts[c], (scope, n));
        if c > at {
            assert(ends_before(cuts[at], cuts[c]));
            assert(in_order(cuts[at]));
        }
    }
}

} // verus!
