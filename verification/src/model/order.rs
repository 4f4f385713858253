//! # The order a scan asks its plan in
//!
//! [`Permutation`] is a keyed rearrangement of `0..len`: every index in the
//! range maps to a distinct position in the range and the whole range is
//! covered, so the order a scan asks in is a rearrangement of its plan and never
//! a sample of it.
//!
//! The rearrangement is a four round Feistel network over the smallest domain of
//! an even number of bits that holds the range, walked until it lands back
//! inside. The network is a bijection whatever its round function does, because
//! each round can be run backwards, and that is what [`Permutation::index_of`]
//! runs. The proofs below carry that from one round to the whole walk:
//! [`Permutation::lemma_index_of_undoes_at`] and
//! [`Permutation::lemma_at_undoes_index_of`] together say that the two are
//! inverse bijections of `0..len`.

use vstd::arithmetic::power2::pow2;
use vstd::prelude::*;

verus! {

/// How many rounds the network runs.
pub const ROUNDS: u32 = 4;

/// Knuth's golden-ratio constant, which separates the rounds from each other.
pub const GOLDEN: u64 = 0x9E37_79B9_7F4A_7C15;

/// The first multiplier of the avalanche step.
pub const AVALANCHE_FIRST: u64 = 0xBF58_476D_1CE4_E5B9;

/// The second multiplier of the avalanche step.
pub const AVALANCHE_SECOND: u64 = 0x94D0_49BB_1331_11EB;

/// The round function: the key, the round and the half, mixed.
pub open spec fn mixed(seed: u64, round: u32, value: u64) -> u64 {
    let a = value.wrapping_add(seed).wrapping_add((round as u64).wrapping_mul(GOLDEN));
    let b = (a ^ (a >> 30)).wrapping_mul(AVALANCHE_FIRST);
    let c = (b ^ (b >> 27)).wrapping_mul(AVALANCHE_SECOND);
    c ^ (c >> 31)
}

/// The low `half` bits set.
pub open spec fn low_mask(half: u32) -> u64 {
    ((1u64 << half) - 1) as u64
}

/// Whether a domain of `2 * half` bits holds `value`.
pub open spec fn in_domain(half: u32, value: u64) -> bool {
    (value >> half) <= low_mask(half)
}

/// One round forwards: `(l, r) -> (r, l ^ f(r))`.
pub open spec fn round_forward(seed: u64, mask: u64, round: u32, p: (u64, u64)) -> (u64, u64) {
    (p.1, p.0 ^ (mixed(seed, round, p.1) & mask))
}

/// One round backwards: `(l, r) -> (r ^ f(l), l)`.
pub open spec fn round_backward(seed: u64, mask: u64, round: u32, p: (u64, u64)) -> (u64, u64) {
    (p.1 ^ (mixed(seed, round, p.0) & mask), p.0)
}

/// The first `rounds` rounds, run forwards.
pub open spec fn rounds_forward(seed: u64, mask: u64, rounds: u32, p: (u64, u64)) -> (u64, u64)
    decreases rounds,
{
    if rounds == 0 {
        p
    } else {
        let before = (rounds - 1) as u32;
        round_forward(seed, mask, before, rounds_forward(seed, mask, before, p))
    }
}

/// The first `rounds` rounds, run backwards from the last of them.
pub open spec fn rounds_backward(seed: u64, mask: u64, rounds: u32, p: (u64, u64)) -> (u64, u64)
    decreases rounds,
{
    if rounds == 0 {
        p
    } else {
        let before = (rounds - 1) as u32;
        rounds_backward(seed, mask, before, round_backward(seed, mask, before, p))
    }
}

/// A value as its high and low halves.
pub open spec fn halves(half: u32, value: u64) -> (u64, u64) {
    ((value >> half) & low_mask(half), value & low_mask(half))
}

/// Two halves as one value.
pub open spec fn joined(half: u32, p: (u64, u64)) -> u64 {
    (p.0 << half) | p.1
}

/// One pass of the network.
pub open spec fn network(seed: u64, half: u32, value: u64) -> u64 {
    joined(half, rounds_forward(seed, low_mask(half), ROUNDS, halves(half, value)))
}

/// One pass of the network, undone.
pub open spec fn network_back(seed: u64, half: u32, value: u64) -> u64 {
    joined(half, rounds_backward(seed, low_mask(half), ROUNDS, halves(half, value)))
}

/// `steps` passes of the network.
pub open spec fn walked(seed: u64, half: u32, steps: nat, value: u64) -> u64
    decreases steps,
{
    if steps == 0 {
        value
    } else {
        network(seed, half, walked(seed, half, (steps - 1) as nat, value))
    }
}

/// `steps` passes of the network, undone.
pub open spec fn walked_back(seed: u64, half: u32, steps: nat, value: u64) -> u64
    decreases steps,
{
    if steps == 0 {
        value
    } else {
        network_back(seed, half, walked_back(seed, half, (steps - 1) as nat, value))
    }
}

/// Whether `steps` is the first number of passes, one at least, that takes
/// `index` back inside `0..len`.
pub open spec fn lands_first(seed: u64, half: u32, len: u64, index: u64, steps: nat) -> bool {
    &&& steps >= 1
    &&& walked(seed, half, steps, index) < len
    &&& forall|j: nat| 1 <= j < steps ==> #[trigger] walked(seed, half, j, index) >= len
}

/// [`lands_first`] with the network undone.
pub open spec fn lands_first_back(
    seed: u64,
    half: u32,
    len: u64,
    position: u64,
    steps: nat,
) -> bool {
    &&& steps >= 1
    &&& walked_back(seed, half, steps, position) < len
    &&& forall|j: nat| 1 <= j < steps ==> #[trigger] walked_back(seed, half, j, position) >= len
}

/// Whether `half` is half the width, rounded up, of the smallest domain that
/// holds `0..len`: zero for a range of one position or none, and otherwise the
/// least width with `len - 1 < 2^(2 * half)`.
pub open spec fn is_half_width(len: u64, half: u32) -> bool {
    if len <= 1 {
        half == 0
    } else {
        let last = (len - 1) as u64;
        &&& 1 <= half <= 32
        &&& (last >> half) >> half == 0
        &&& (last >> ((half - 1) as u32)) >> ((half - 1) as u32) != 0
    }
}

/// Half the width of the domain the network runs over for a range of `len`.
pub open spec fn half_of(len: u64) -> u32 {
    choose|half: u32| is_half_width(len, half)
}

/// The position asked about `index`th: the first the walk from `index` lands on.
pub open spec fn position_at(seed: u64, len: u64, index: u64) -> u64 {
    let half = half_of(len);
    if half == 0 {
        index
    } else {
        walked(seed, half, choose|steps: nat| lands_first(seed, half, len, index, steps), index)
    }
}

/// When `position` is asked about: the first the walk back from it lands on.
pub open spec fn index_for(seed: u64, len: u64, position: u64) -> u64 {
    let half = half_of(len);
    if half == 0 {
        position
    } else {
        walked_back(
            seed,
            half,
            choose|steps: nat| lands_first_back(seed, half, len, position, steps),
            position,
        )
    }
}

proof fn lemma_xor_twice(a: u64, b: u64)
    by (bit_vector)
    ensures
        (a ^ b) ^ b == a,
{
}

proof fn lemma_mask_bounds(a: u64, b: u64, half: u32)
    by (bit_vector)
    requires
        half <= 32,
        a <= ((1u64 << half) - 1) as u64,
    ensures
        a ^ (b & (((1u64 << half) - 1) as u64)) <= ((1u64 << half) - 1) as u64,
        b & (((1u64 << half) - 1) as u64) <= ((1u64 << half) - 1) as u64,
{
}

proof fn lemma_halves_of_joined(l: u64, r: u64, half: u32)
    by (bit_vector)
    requires
        1 <= half <= 32,
        l <= ((1u64 << half) - 1) as u64,
        r <= ((1u64 << half) - 1) as u64,
    ensures
        (((l << half) | r) >> half) & (((1u64 << half) - 1) as u64) == l,
        ((l << half) | r) & (((1u64 << half) - 1) as u64) == r,
        (((l << half) | r) >> half) <= ((1u64 << half) - 1) as u64,
{
}

proof fn lemma_joined_of_halves(v: u64, half: u32)
    by (bit_vector)
    requires
        1 <= half <= 32,
        (v >> half) <= ((1u64 << half) - 1) as u64,
    ensures
        (((v >> half) & (((1u64 << half) - 1) as u64)) << half) | (v & (((1u64 << half)
            - 1) as u64)) == v,
{
}

/// Every round keeps both halves within the mask, and undoes the other way round.
proof fn lemma_round(seed: u64, half: u32, round: u32, p: (u64, u64))
    requires
        half <= 32,
        p.0 <= low_mask(half),
        p.1 <= low_mask(half),
    ensures
        ({
            let mask = low_mask(half);
            let f = round_forward(seed, mask, round, p);
            let b = round_backward(seed, mask, round, p);
            &&& f.0 <= mask && f.1 <= mask
            &&& b.0 <= mask && b.1 <= mask
            &&& round_backward(seed, mask, round, f) == p
            &&& round_forward(seed, mask, round, b) == p
        }),
{
    let mask = low_mask(half);
    lemma_mask_bounds(p.0, mixed(seed, round, p.1), half);
    lemma_mask_bounds(p.1, mixed(seed, round, p.0), half);
    lemma_xor_twice(p.0, mixed(seed, round, p.1) & mask);
    lemma_xor_twice(p.1, mixed(seed, round, p.0) & mask);
}

proof fn lemma_rounds(seed: u64, half: u32, rounds: u32, p: (u64, u64))
    requires
        half <= 32,
        p.0 <= low_mask(half),
        p.1 <= low_mask(half),
    ensures
        ({
            let mask = low_mask(half);
            let f = rounds_forward(seed, mask, rounds, p);
            let b = rounds_backward(seed, mask, rounds, p);
            &&& f.0 <= mask && f.1 <= mask
            &&& b.0 <= mask && b.1 <= mask
            &&& rounds_backward(seed, mask, rounds, f) == p
            &&& rounds_forward(seed, mask, rounds, b) == p
        }),
    decreases rounds,
{
    let mask = low_mask(half);
    if rounds > 0 {
        let before = (rounds - 1) as u32;
        let partial = rounds_forward(seed, mask, before, p);
        lemma_rounds(seed, half, before, p);
        lemma_round(seed, half, before, partial);
        let undone = round_backward(seed, mask, before, p);
        lemma_round(seed, half, before, p);
        lemma_rounds(seed, half, before, undone);
    }
}

/// The network and its undoing are inverse bijections of the domain.
pub proof fn lemma_network_is_a_bijection(seed: u64, half: u32, value: u64)
    requires
        1 <= half <= 32,
        in_domain(half, value),
    ensures
        in_domain(half, network(seed, half, value)),
        in_domain(half, network_back(seed, half, value)),
        network_back(seed, half, network(seed, half, value)) == value,
        network(seed, half, network_back(seed, half, value)) == value,
{
    let mask = low_mask(half);
    let p = halves(half, value);
    lemma_mask_bounds(0, value, half);
    lemma_mask_bounds(0, value >> half, half);
    assert(0 <= mask);
    lemma_rounds(seed, half, ROUNDS, p);
    let f = rounds_forward(seed, mask, ROUNDS, p);
    let b = rounds_backward(seed, mask, ROUNDS, p);
    lemma_halves_of_joined(f.0, f.1, half);
    lemma_halves_of_joined(b.0, b.1, half);
    lemma_joined_of_halves(value, half);
}

proof fn lemma_walked_in_domain(seed: u64, half: u32, steps: nat, value: u64)
    requires
        1 <= half <= 32,
        in_domain(half, value),
    ensures
        in_domain(half, walked(seed, half, steps, value)),
        in_domain(half, walked_back(seed, half, steps, value)),
    decreases steps,
{
    if steps > 0 {
        let before = (steps - 1) as nat;
        lemma_walked_in_domain(seed, half, before, value);
        lemma_network_is_a_bijection(seed, half, walked(seed, half, before, value));
        lemma_network_is_a_bijection(seed, half, walked_back(seed, half, before, value));
    }
}

/// Walking back `back` of `steps` passes leaves `steps - back` of them.
proof fn lemma_walk_back_undoes(seed: u64, half: u32, steps: nat, back: nat, value: u64)
    requires
        1 <= half <= 32,
        in_domain(half, value),
        back <= steps,
    ensures
        walked_back(seed, half, back, walked(seed, half, steps, value)) == walked(
            seed,
            half,
            (steps - back) as nat,
            value,
        ),
        walked(seed, half, back, walked_back(seed, half, steps, value)) == walked_back(
            seed,
            half,
            (steps - back) as nat,
            value,
        ),
    decreases back,
{
    if back > 0 {
        let b = (back - 1) as nat;
        let left = (steps - back) as nat;
        lemma_walk_back_undoes(seed, half, steps, b, value);
        assert((steps - b) as nat == left + 1);
        lemma_walked_in_domain(seed, half, left, value);
        lemma_network_is_a_bijection(seed, half, walked(seed, half, left, value));
        lemma_network_is_a_bijection(seed, half, walked_back(seed, half, left, value));
    }
}

/// The first `count` values of the walk, as a sequence.
spec fn trace(seed: u64, half: u32, value: u64, count: nat) -> Seq<int> {
    Seq::new(count, |k: int| walked(seed, half, k as nat, value) as int)
}

/// [`trace`], walked the other way.
spec fn trace_back(seed: u64, half: u32, value: u64, count: nat) -> Seq<int> {
    Seq::new(count, |k: int| walked_back(seed, half, k as nat, value) as int)
}

/// A sequence longer than the number of values its elements can take repeats one.
proof fn lemma_too_long_to_be_distinct(s: Seq<int>, bound: nat)
    requires
        s.len() > bound,
        forall|i: int| 0 <= i < s.len() ==> 0 <= #[trigger] s[i] < bound,
    ensures
        exists|i: int, j: int| 0 <= i < j < s.len() && #[trigger] s[i] == #[trigger] s[j],
{
    if s.no_duplicates() {
        s.unique_seq_to_set();
        vstd::set_lib::lemma_int_range(0, bound as int);
        assert(s.to_set().subset_of(vstd::set_lib::set_int_range(0, bound as int)));
        vstd::set_lib::lemma_len_subset(
            s.to_set(),
            vstd::set_lib::set_int_range(0, bound as int),
        );
        assert(false);
    }
    let (i, j) = choose|i: int, j: int|
        0 <= i < s.len() && 0 <= j < s.len() && i != j && #[trigger] s[i] == #[trigger] s[j];
    if i < j {
        assert(s[i] == s[j]);
    } else {
        assert(s[j] == s[i]);
    }
}

/// Every value of the domain sits on a cycle of the network, walked either way.
proof fn lemma_cycle(seed: u64, half: u32, value: u64)
    requires
        1 <= half <= 32,
        in_domain(half, value),
    ensures
        exists|n: nat| n >= 1 && #[trigger] walked(seed, half, n, value) == value,
        exists|n: nat| n >= 1 && #[trigger] walked_back(seed, half, n, value) == value,
{
    let bound: nat = 0x1_0000_0000_0000_0000;
    let s = trace(seed, half, value, bound + 1);
    lemma_too_long_to_be_distinct(s, bound);
    let (i, j) = choose|i: int, j: int|
        0 <= i < j < s.len() && #[trigger] s[i] == #[trigger] s[j];
    lemma_walk_back_undoes(seed, half, i as nat, i as nat, value);
    lemma_walk_back_undoes(seed, half, j as nat, i as nat, value);
    assert(walked(seed, half, (j - i) as nat, value) == value);

    let t = trace_back(seed, half, value, bound + 1);
    lemma_too_long_to_be_distinct(t, bound);
    let (a, b) = choose|a: int, b: int|
        0 <= a < b < t.len() && #[trigger] t[a] == #[trigger] t[b];
    lemma_walk_back_undoes(seed, half, a as nat, a as nat, value);
    lemma_walk_back_undoes(seed, half, b as nat, a as nat, value);
    assert(walked_back(seed, half, (b - a) as nat, value) == value);
}

/// The least number of passes at which a walk lands, given one at which it does.
proof fn lemma_first_landing(seed: u64, half: u32, len: u64, index: u64, n: nat, from: nat)
    requires
        1 <= from <= n,
        walked(seed, half, n, index) < len,
        forall|j: nat| 1 <= j < from ==> #[trigger] walked(seed, half, j, index) >= len,
    ensures
        exists|steps: nat| lands_first(seed, half, len, index, steps),
    decreases n - from,
{
    if walked(seed, half, from, index) < len {
        assert(lands_first(seed, half, len, index, from));
    } else {
        assert(from < n);
        lemma_first_landing(seed, half, len, index, n, from + 1);
    }
}

proof fn lemma_first_landing_back(
    seed: u64,
    half: u32,
    len: u64,
    position: u64,
    n: nat,
    from: nat,
)
    requires
        1 <= from <= n,
        walked_back(seed, half, n, position) < len,
        forall|j: nat| 1 <= j < from ==> #[trigger] walked_back(seed, half, j, position) >= len,
    ensures
        exists|steps: nat| lands_first_back(seed, half, len, position, steps),
    decreases n - from,
{
    if walked_back(seed, half, from, position) < len {
        assert(lands_first_back(seed, half, len, position, from));
    } else {
        assert(from < n);
        lemma_first_landing_back(seed, half, len, position, n, from + 1);
    }
}

/// A walk from inside the range comes back inside it, and so does a walk back.
proof fn lemma_lands(seed: u64, half: u32, len: u64, value: u64)
    requires
        1 <= half <= 32,
        in_domain(half, value),
        value < len,
    ensures
        exists|steps: nat| lands_first(seed, half, len, value, steps),
        exists|steps: nat| lands_first_back(seed, half, len, value, steps),
{
    lemma_cycle(seed, half, value);
    let n = choose|n: nat| n >= 1 && #[trigger] walked(seed, half, n, value) == value;
    lemma_first_landing(seed, half, len, value, n, 1);
    let m = choose|m: nat| m >= 1 && #[trigger] walked_back(seed, half, m, value) == value;
    lemma_first_landing_back(seed, half, len, value, m, 1);
}

/// A walk lands first at one number of passes only.
proof fn lemma_lands_once(seed: u64, half: u32, len: u64, value: u64, a: nat, b: nat)
    ensures
        lands_first(seed, half, len, value, a) && lands_first(seed, half, len, value, b)
            ==> a == b,
        lands_first_back(seed, half, len, value, a) && lands_first_back(
            seed,
            half,
            len,
            value,
            b,
        ) ==> a == b,
{
}

proof fn lemma_inside_is_in_domain(last: u64, value: u64, half: u32)
    by (bit_vector)
    requires
        1 <= half <= 32,
        (last >> half) >> half == 0,
        value <= last,
    ensures
        (value >> half) <= ((1u64 << half) - 1) as u64,
{
}

proof fn lemma_narrower_is_narrower(last: u64, a: u32, b: u32)
    by (bit_vector)
    requires
        a <= b <= 32,
        (last >> a) >> a == 0,
    ensures
        (last >> b) >> b == 0,
{
}

proof fn lemma_widest_holds_everything(last: u64)
    by (bit_vector)
    ensures
        (last >> 32u32) >> 32u32 == 0,
{
}

proof fn lemma_half_width_is_unique(len: u64, a: u32, b: u32)
    requires
        is_half_width(len, a),
        is_half_width(len, b),
    ensures
        a == b,
{
    if len > 1 {
        let last = (len - 1) as u64;
        if a < b {
            lemma_narrower_is_narrower(last, a, (b - 1) as u32);
        } else if b < a {
            lemma_narrower_is_narrower(last, b, (a - 1) as u32);
        }
    }
}

/// Half the width of the smallest domain that holds `len`, in bits.
///
/// Rounded up to an even number of bits so the network's two halves are the same
/// width, which is what lets a round exclusive-or one into the other.
fn half_width(len: u64) -> (half: u32)
    ensures
        is_half_width(len, half),
        half == half_of(len),
{
    let mut half: u32 = 0;
    if len > 1 {
        let last: u64 = len - 1;
        assert(last > 0 ==> (last >> 0u32) >> 0u32 != 0) by (bit_vector);
        half = 1;
        while half < 32 && (last >> half) >> half != 0
            invariant
                last > 0,
                1 <= half <= 32,
                (last >> ((half - 1) as u32)) >> ((half - 1) as u32) != 0,
            decreases 32 - half,
        {
            half = half + 1;
        }
        proof {
            lemma_widest_holds_everything(last);
        }
    }
    proof {
        assert(is_half_width(len, half));
        let chosen = half_of(len);
        lemma_half_width_is_unique(len, half, chosen);
    }
    half
}

/// The round function: the key, the round and the half, mixed into a value the
/// round exclusive-ors into the other half.
///
/// Written out rather than taken from a hasher, because the order a seed names
/// has to be the order a later build reproduces.
fn mix(seed: u64, round: u32, value: u64) -> (result: u64)
    ensures
        result == mixed(seed, round, value),
{
    let a: u64 = value.wrapping_add(seed).wrapping_add((round as u64).wrapping_mul(GOLDEN));
    let b: u64 = (a ^ (a >> 30)).wrapping_mul(AVALANCHE_FIRST);
    let c: u64 = (b ^ (b >> 27)).wrapping_mul(AVALANCHE_SECOND);
    c ^ (c >> 31)
}

/// A keyed rearrangement of `0..len`.
#[derive(Debug, Clone, Copy, PartialEq, Eq)]
pub struct Permutation {
    /// The key the order is a function of.
    seed: u64,
    /// How many positions are rearranged.
    len: u64,
    /// Half the width of the domain the network runs over, in bits.
    half: u32,
}

impl Permutation {
    /// The key and the number of positions: everything the order is a function of.
    pub closed spec fn view(&self) -> (u64, u64) {
        (self.seed, self.len)
    }

    #[verifier::type_invariant]
    spec fn width_fits(self) -> bool {
        is_half_width(self.len, self.half)
    }

    /// The rearrangement of `0..len` that `seed` names.
    pub fn new(seed: u64, len: u64) -> (order: Self)
        ensures
            order@ == (seed, len),
    {
        Self { seed, len, half: half_width(len) }
    }

    /// How many positions are rearranged.
    pub fn len(&self) -> (len: u64)
        ensures
            len == self@.1,
    {
        self.len
    }

    /// Whether nothing is.
    pub fn is_empty(&self) -> (empty: bool)
        ensures
            empty == (self@.1 == 0),
    {
        self.len == 0
    }

    /// The position asked about `index`th, or [`None`] for an index outside the
    /// range this rearranges.
    pub fn at(&self, index: u64) -> (position: Option<u64>)
        ensures
            position == if index < self@.1 {
                Some(position_at(self@.0, self@.1, index))
            } else {
                None
            },
    {
        if index < self.len {
            Some(self.walk(index))
        } else {
            None
        }
    }

    /// The key this order is a function of.
    pub fn seed(&self) -> (seed: u64)
        ensures
            seed == self@.0,
    {
        self.seed
    }

    /// When `position` is asked about: the index [`at`](Self::at) names it at,
    /// or [`None`] for a position outside the range.
    pub fn index_of(&self, position: u64) -> (index: Option<u64>)
        ensures
            index == if position < self@.1 {
                Some(index_for(self@.0, self@.1, position))
            } else {
                None
            },
    {
        if position < self.len {
            Some(self.unwalk(position))
        } else {
            None
        }
    }

    /// Every position, in the order the scan asks about them.
    pub fn iter(&self) -> (walk: Walk)
        ensures
            walk@ == (self@, 0u64),
    {
        self.iter_from(0)
    }

    /// The positions from the `start`th on, in the order the scan asks about
    /// them: the rest of a walk an earlier sitting got `start` positions into.
    pub fn iter_from(&self, start: u64) -> (walk: Walk)
        ensures
            walk@ == (self@, if start < self@.1 { start } else { self@.1 }),
    {
        let next: u64 = if start < self.len { start } else { self.len };
        Walk { order: *self, next }
    }

    /// [`at`](Self::at) without the bound, for an index already known to be
    /// inside the range.
    ///
    /// It terminates because the network is a bijection: repeated application
    /// traces the cycle `index` sits on, and that cycle contains `index` itself,
    /// which is inside the range.
    fn walk(&self, index: u64) -> (position: u64)
        requires
            index < self@.1,
        ensures
            position == position_at(self@.0, self@.1, index),
    {
        proof {
            use_type_invariant(self);
            lemma_half_width_is_unique(self.len, self.half, half_of(self.len));
        }
        if self.half == 0 {
            return index;
        }
        proof {
            lemma_inside_is_in_domain((self.len - 1) as u64, index, self.half);
            lemma_lands(self.seed, self.half, self.len, index);
        }
        let ghost target = choose|steps: nat|
            lands_first(self.seed, self.half, self.len, index, steps);
        let mut position: u64 = index;
        let ghost mut taken: nat = 0;
        loop
            invariant
                1 <= self.half <= 32,
                in_domain(self.half, index),
                self.half == half_of(self.len),
                self@ == (self.seed, self.len),
                lands_first(self.seed, self.half, self.len, index, target),
                target == (choose|steps: nat|
                    lands_first(self.seed, self.half, self.len, index, steps)),
                taken < target,
                position == walked(self.seed, self.half, taken, index),
            decreases target - taken,
        {
            proof {
                lemma_walked_in_domain(self.seed, self.half, taken, index);
                taken = taken + 1;
            }
            position = self.round_trip(position);
            if position < self.len {
                proof {
                    assert(lands_first(self.seed, self.half, self.len, index, taken)) by {
                        assert(walked(self.seed, self.half, taken, index) < self.len);
                    }
                    lemma_lands_once(self.seed, self.half, self.len, index, taken, target);
                }
                return position;
            }
        }
    }

    /// [`walk`](Self::walk) backwards: the index whose walk lands on
    /// `position`, for a position already known to be inside the range.
    fn unwalk(&self, position: u64) -> (index: u64)
        requires
            position < self@.1,
        ensures
            index == index_for(self@.0, self@.1, position),
    {
        proof {
            use_type_invariant(self);
            lemma_half_width_is_unique(self.len, self.half, half_of(self.len));
        }
        if self.half == 0 {
            return position;
        }
        proof {
            lemma_inside_is_in_domain((self.len - 1) as u64, position, self.half);
            lemma_lands(self.seed, self.half, self.len, position);
        }
        let ghost target = choose|steps: nat|
            lands_first_back(self.seed, self.half, self.len, position, steps);
        let mut index: u64 = position;
        let ghost mut taken: nat = 0;
        loop
            invariant
                1 <= self.half <= 32,
                in_domain(self.half, position),
                self.half == half_of(self.len),
                self@ == (self.seed, self.len),
                lands_first_back(self.seed, self.half, self.len, position, target),
                target == (choose|steps: nat|
                    lands_first_back(self.seed, self.half, self.len, position, steps)),
                taken < target,
                index == walked_back(self.seed, self.half, taken, position),
            decreases target - taken,
        {
            proof {
                lemma_walked_in_domain(self.seed, self.half, taken, position);
                taken = taken + 1;
            }
            index = self.round_trip_back(index);
            if index < self.len {
                proof {
                    lemma_lands_once(self.seed, self.half, self.len, position, taken, target);
                }
                return index;
            }
        }
    }

    /// [`round_trip`](Self::round_trip) undone: the rounds in reverse, each
    /// `(l, r) -> (r ^ f(l), l)`.
    fn round_trip_back(&self, value: u64) -> (result: u64)
        requires
            1 <= self.half <= 32,
        ensures
            result == network_back(self.seed, self.half, value),
    {
        let half: u32 = self.half;
        assert(1 <= half <= 32 ==> (1u64 << half) >= 1) by (bit_vector);
        let mask: u64 = (1u64 << half) - 1;
        let mut left: u64 = (value >> half) & mask;
        let mut right: u64 = value & mask;
        let mut rounds: u32 = ROUNDS;
        while rounds > 0
            invariant
                rounds <= ROUNDS,
                rounds_backward(self.seed, mask, rounds, (left, right)) == rounds_backward(
                    self.seed,
                    mask,
                    ROUNDS,
                    ((value >> half) & mask, value & mask),
                ),
            decreases rounds,
        {
            rounds = rounds - 1;
            let earlier_right: u64 = left;
            left = right ^ (mix(self.seed, rounds, earlier_right) & mask);
            right = earlier_right;
        }
        (left << half) | right
    }

    /// One pass of the network: [`ROUNDS`] rounds of `(l, r) -> (r, l ^ f(r))`.
    fn round_trip(&self, value: u64) -> (result: u64)
        requires
            1 <= self.half <= 32,
        ensures
            result == network(self.seed, self.half, value),
    {
        let half: u32 = self.half;
        assert(1 <= half <= 32 ==> (1u64 << half) >= 1) by (bit_vector);
        let mask: u64 = (1u64 << half) - 1;
        let mut left: u64 = (value >> half) & mask;
        let mut right: u64 = value & mask;
        let mut round: u32 = 0;
        while round < ROUNDS
            invariant
                round <= ROUNDS,
                (left, right) == rounds_forward(
                    self.seed,
                    mask,
                    round,
                    ((value >> half) & mask, value & mask),
                ),
            decreases ROUNDS - round,
        {
            let mixed_half: u64 = left ^ (mix(self.seed, round, right) & mask);
            left = right;
            right = mixed_half;
            round = round + 1;
        }
        (left << half) | right
    }

    /// Asking when a position comes up answers the index it came up at: for
    /// every index in the range, the position asked about there lies in the
    /// range, and it comes up at that index.
    ///
    /// So no two indices are answered with one position.
    pub proof fn lemma_index_of_undoes_at(seed: u64, len: u64, index: u64)
        requires
            index < len,
        ensures
            position_at(seed, len, index) < len,
            index_for(seed, len, position_at(seed, len, index)) == index,
    {
        lemma_half_of(len);
        let half = half_of(len);
        if half != 0 {
            lemma_inside_is_in_domain((len - 1) as u64, index, half);
            lemma_lands(seed, half, len, index);
            let steps = choose|steps: nat| lands_first(seed, half, len, index, steps);
            let position = position_at(seed, len, index);
            assert forall|j: nat| 1 <= j < steps implies #[trigger] walked_back(
                seed,
                half,
                j,
                position,
            ) >= len by {
                lemma_walk_back_undoes(seed, half, steps, j, index);
                let rest = (steps - j) as nat;
                assert(walked(seed, half, rest, index) >= len);
            }
            lemma_walk_back_undoes(seed, half, steps, steps, index);
            assert(lands_first_back(seed, half, len, position, steps));
            let chosen = choose|steps: nat| lands_first_back(seed, half, len, position, steps);
            lemma_lands_once(seed, half, len, position, steps, chosen);
        }
    }

    /// Every position in the range is asked about: it comes up at some index of
    /// the range, and that index is answered with it.
    pub proof fn lemma_at_undoes_index_of(seed: u64, len: u64, position: u64)
        requires
            position < len,
        ensures
            index_for(seed, len, position) < len,
            position_at(seed, len, index_for(seed, len, position)) == position,
    {
        lemma_half_of(len);
        let half = half_of(len);
        if half != 0 {
            lemma_inside_is_in_domain((len - 1) as u64, position, half);
            lemma_lands(seed, half, len, position);
            let steps = choose|steps: nat| lands_first_back(seed, half, len, position, steps);
            let index = index_for(seed, len, position);
            assert forall|j: nat| 1 <= j < steps implies #[trigger] walked(seed, half, j, index)
                >= len by {
                lemma_walk_back_undoes(seed, half, steps, j, position);
                let rest = (steps - j) as nat;
                assert(walked_back(seed, half, rest, position) >= len);
            }
            lemma_walk_back_undoes(seed, half, steps, steps, position);
            assert(lands_first(seed, half, len, index, steps));
            let chosen = choose|steps: nat| lands_first(seed, half, len, index, steps);
            lemma_lands_once(seed, half, len, index, steps, chosen);
        }
    }

    /// A range of one position or none has one arrangement, whatever the seed.
    pub proof fn lemma_a_range_too_small_to_rearrange_is_the_identity(
        seed: u64,
        len: u64,
        index: u64,
    )
        requires
            len <= 1,
        ensures
            position_at(seed, len, index) == index,
            index_for(seed, len, index) == index,
    {
        lemma_half_of(len);
    }
}

proof fn lemma_half_of(len: u64)
    ensures
        is_half_width(len, half_of(len)),
{
    if len > 1 {
        lemma_widest_holds_everything((len - 1) as u64);
    }
    lemma_half_exists(len, 32);
}

/// Some width is the least that holds the range.
proof fn lemma_half_exists(len: u64, at_most: u32)
    requires
        at_most <= 32,
        len > 1 ==> ((len - 1) as u64 >> at_most) >> at_most == 0,
    ensures
        exists|half: u32| is_half_width(len, half),
    decreases at_most,
{
    if len <= 1 {
        assert(is_half_width(len, 0));
    } else {
        let last = (len - 1) as u64;
        if at_most == 0 {
            assert(last > 0 ==> (last >> 0u32) >> 0u32 != 0) by (bit_vector);
        } else {
            let narrower = (at_most - 1) as u32;
            if (last >> narrower) >> narrower == 0 {
                lemma_half_exists(len, narrower);
            } else {
                assert(is_half_width(len, at_most));
            }
        }
    }
}

/// How many values a word takes: two to the sixty-fourth.
pub open spec fn words() -> int {
    0x1_0000_0000_0000_0000
}

/// The avalanche step run backwards: the one word that mixes to `result`.
///
/// Each exclusive-or of a shifted copy is undone by the shifts that reach the
/// bottom of the word, and each multiplication by the multiplier's inverse.
pub open spec fn unscrambled(result: u64) -> u64 {
    let a = result ^ (result >> 31) ^ (result >> 62);
    let b = a.wrapping_mul(0x3196_42B2_D24D_8EC3);
    let c = b ^ (b >> 27) ^ (b >> 54);
    let d = c.wrapping_mul(0x96DE_1B17_3F11_9089);
    d ^ (d >> 30) ^ (d >> 60)
}

proof fn lemma_shift_undone(x: u64)
    by (bit_vector)
    ensures
        (x ^ (x >> 30)) ^ ((x ^ (x >> 30)) >> 30) ^ ((x ^ (x >> 30)) >> 60) == x,
        (x ^ (x >> 27)) ^ ((x ^ (x >> 27)) >> 27) ^ ((x ^ (x >> 27)) >> 54) == x,
        (x ^ (x >> 31)) ^ ((x ^ (x >> 31)) >> 31) ^ ((x ^ (x >> 31)) >> 62) == x,
        (x ^ (x >> 30) ^ (x >> 60)) ^ ((x ^ (x >> 30) ^ (x >> 60)) >> 30) == x,
        (x ^ (x >> 27) ^ (x >> 54)) ^ ((x ^ (x >> 27) ^ (x >> 54)) >> 27) == x,
        (x ^ (x >> 31) ^ (x >> 62)) ^ ((x ^ (x >> 31) ^ (x >> 62)) >> 31) == x,
{
}

/// Multiplying by a word and then by its inverse gives the first factor back.
proof fn lemma_factor_undone(x: u64, factor: u64, inverse: u64, carried: int)
    requires
        factor * inverse == carried * words() + 1,
    ensures
        x.wrapping_mul(factor).wrapping_mul(inverse) == x,
{
    let product = x * factor;
    let high = product / words();
    let low = product % words();
    vstd::arithmetic::div_mod::lemma_fundamental_div_mod(product, words());
    assert(low * inverse == words() * (x * carried - high * inverse) + x) by (nonlinear_arith)
        requires
            factor * inverse == carried * words() + 1,
            product == x * factor,
            product == words() * high + low,
    ;
    vstd::arithmetic::div_mod::lemma_mod_multiples_vanish(
        x * carried - high * inverse,
        x as int,
        words(),
    );
    vstd::arithmetic::div_mod::lemma_small_mod(x as nat, words() as nat);
}

/// The word the round function scrambles: value, key and round separator added,
/// with what does not fit in a word dropped.
proof fn lemma_summed(seed: u64, round: u32, value: u64)
    ensures
        value.wrapping_add(seed).wrapping_add(
            (round as u64).wrapping_mul(0x9E37_79B9_7F4A_7C15),
        ) as int == (value + seed + round * 0x9E37_79B9_7F4A_7C15) % words(),
{
    let separator = round * 0x9E37_79B9_7F4A_7C15;
    let start: int = value + seed;
    vstd::arithmetic::div_mod::lemma_add_mod_noop(start, separator, words());
}

proof fn lemma_inverses()
    ensures
        0xBF58_476D_1CE4_E5B9u64 * 0x96DE_1B17_3F11_9089u64 == 8125545580553827436 * words() + 1,
        0x94D0_49BB_1331_11EBu64 * 0x3196_42B2_D24D_8EC3u64 == 2077064247507883091 * words() + 1,
        0x9E37_79B9_7F4A_7C15u64 * 0xF1DE_83E1_9937_733Du64 == 10771413168148108919 * words() + 1,
{
}

/// Nothing is lost in a round function: running its avalanche step backwards on
/// what it answers gives back, for every key, round and value, their sum modulo
/// two to the sixty-fourth, the round counted in steps of the golden ratio.
pub proof fn lemma_the_round_function_loses_nothing(seed: u64, round: u32, value: u64)
    ensures
        unscrambled(mixed(seed, round, value)) == (value + seed + round * 0x9E37_79B9_7F4A_7C15)
            % 0x1_0000_0000_0000_0000,
{
    lemma_inverses();
    lemma_summed(seed, round, value);
    let a = value.wrapping_add(seed).wrapping_add((round as u64).wrapping_mul(GOLDEN));
    let b = (a ^ (a >> 30)).wrapping_mul(AVALANCHE_FIRST);
    let c = (b ^ (b >> 27)).wrapping_mul(AVALANCHE_SECOND);
    lemma_shift_undone(a);
    lemma_shift_undone(b);
    lemma_shift_undone(c);
    lemma_factor_undone(
        a ^ (a >> 30),
        AVALANCHE_FIRST,
        0x96DE_1B17_3F11_9089,
        8125545580553827436,
    );
    lemma_factor_undone(
        b ^ (b >> 27),
        AVALANCHE_SECOND,
        0x3196_42B2_D24D_8EC3,
        2077064247507883091,
    );
}

/// Two calls of the round function answer alike exactly when their values,
/// keys and rounds add up alike. So with any two of the three held, it tells
/// every two values of the third apart.
pub proof fn lemma_the_round_function_tells_its_inputs_apart(
    seed: u64,
    round: u32,
    value: u64,
    other_seed: u64,
    other_round: u32,
    other_value: u64,
)
    ensures
        mixed(seed, round, value) == mixed(other_seed, other_round, other_value) <==> (value + seed
            + round * 0x9E37_79B9_7F4A_7C15) % 0x1_0000_0000_0000_0000 == (other_value + other_seed
            + other_round * 0x9E37_79B9_7F4A_7C15) % 0x1_0000_0000_0000_0000,
        mixed(seed, round, value) == mixed(seed, round, other_value) <==> value == other_value,
        mixed(seed, round, value) == mixed(other_seed, round, value) <==> seed == other_seed,
        mixed(seed, round, value) == mixed(seed, other_round, value) <==> round == other_round,
{
    lemma_the_round_function_loses_nothing(seed, round, value);
    lemma_the_round_function_loses_nothing(other_seed, other_round, other_value);
    lemma_the_round_function_loses_nothing(seed, round, other_value);
    lemma_the_round_function_loses_nothing(other_seed, round, value);
    lemma_the_round_function_loses_nothing(seed, other_round, value);
    lemma_summed(seed, round, value);
    lemma_summed(other_seed, other_round, other_value);
    let here = round * 0x9E37_79B9_7F4A_7C15;
    let there = other_round * 0x9E37_79B9_7F4A_7C15;
    lemma_same_remainder(value + seed + here, other_value + seed + here);
    lemma_same_remainder(value + seed + here, value + other_seed + here);
    if mixed(seed, round, value) == mixed(seed, other_round, value) {
        lemma_inverses();
        let start: int = value + seed;
        let gap = (start + here) / words() - (start + there) / words();
        vstd::arithmetic::div_mod::lemma_fundamental_div_mod(start + here, words());
        vstd::arithmetic::div_mod::lemma_fundamental_div_mod(start + there, words());
        assert(here - there == words() * gap) by (nonlinear_arith)
            requires
                start + here == words() * ((start + here) / words()) + (start + here) % words(),
                start + there == words() * ((start + there) / words()) + (start + there) % words(),
                (start + here) % words() == (start + there) % words(),
                gap == (start + here) / words() - (start + there) / words(),
        ;
        lemma_factor_undone(
            round as u64,
            GOLDEN,
            0xF1DE_83E1_9937_733D,
            10771413168148108919,
        );
        lemma_factor_undone(
            other_round as u64,
            GOLDEN,
            0xF1DE_83E1_9937_733D,
            10771413168148108919,
        );
        vstd::arithmetic::div_mod::lemma_mod_multiples_vanish(gap, there, words());
        assert(here % words() == there % words());
    }
}

/// Two numbers less than a word apart leave the same remainder only when they
/// are one number.
proof fn lemma_same_remainder(a: int, b: int)
    requires
        -words() < a - b < words(),
    ensures
        a % words() == b % words() ==> a == b,
{
}

/// Every word is an answer of the round function under every key and round: of
/// the value that undoing the avalanche step leaves once the key and the round
/// are taken off.
pub proof fn lemma_the_round_function_answers_every_word(seed: u64, round: u32, result: u64)
    ensures
        mixed(
            seed,
            round,
            ((unscrambled(result) - seed - round * 0x9E37_79B9_7F4A_7C15)
                % 0x1_0000_0000_0000_0000) as u64,
        ) == result,
{
    let separator = round * 0x9E37_79B9_7F4A_7C15;
    let plain: int = unscrambled(result) - seed - separator;
    let value = (plain % words()) as u64;
    lemma_summed(seed, round, value);
    vstd::arithmetic::div_mod::lemma_add_mod_noop(plain, seed + separator, words());
    vstd::arithmetic::div_mod::lemma_add_mod_noop(value as int, seed + separator, words());
    vstd::arithmetic::div_mod::lemma_small_mod(unscrambled(result) as nat, words() as nat);
    vstd::arithmetic::div_mod::lemma_small_mod(value as nat, words() as nat);
    assert(value.wrapping_add(seed).wrapping_add((round as u64).wrapping_mul(GOLDEN))
        == unscrambled(result));
    lemma_inverses();
    let a = result ^ (result >> 31) ^ (result >> 62);
    let b = a.wrapping_mul(0x3196_42B2_D24D_8EC3);
    let c = b ^ (b >> 27) ^ (b >> 54);
    let d = c.wrapping_mul(0x96DE_1B17_3F11_9089);
    lemma_shift_undone(result);
    lemma_shift_undone(b);
    lemma_shift_undone(d);
    lemma_factor_undone(
        a,
        0x3196_42B2_D24D_8EC3,
        AVALANCHE_SECOND,
        2077064247507883091,
    );
    lemma_factor_undone(
        c,
        0x96DE_1B17_3F11_9089,
        AVALANCHE_FIRST,
        8125545580553827436,
    );
}

proof fn lemma_half_value(half: u32)
    requires
        half <= 32,
    ensures
        1u64 << half == pow2(half as nat),
        low_mask(half) == pow2(half as nat) - 1,
        1 <= pow2(half as nat) <= 0x1_0000_0000,
{
    vstd::arithmetic::power2::lemma2_to64();
    vstd::arithmetic::power2::lemma_pow2_pos(half as nat);
    if half < 32 {
        vstd::arithmetic::power2::lemma_pow2_strictly_increases(half as nat, 32);
    }
    vstd::bits::lemma_u64_shl_is_mul(1, half as u64);
}

/// The bits below `half` are a remainder, and those above it a quotient.
proof fn lemma_bits_are_digits(value: u64, half: u32)
    requires
        half <= 32,
    ensures
        value & low_mask(half) == value % (pow2(half as nat) as u64),
        value >> half == value / (pow2(half as nat) as u64),
{
    lemma_half_value(half);
    vstd::bits::lemma_u64_low_bits_mask_is_mod(value, half as nat);
    vstd::bits::lemma_u64_shr_is_div(value, half as u64);
}

proof fn lemma_joined_is_a_sum(l: u64, r: u64, half: u32)
    requires
        1 <= half <= 32,
        l <= low_mask(half),
        r <= low_mask(half),
    ensures
        joined(half, (l, r)) == l * pow2(half as nat) + r,
{
    lemma_half_value(half);
    let base = pow2(half as nat);
    assert(l * base <= u64::MAX) by (nonlinear_arith)
        requires
            l < base,
            base <= 0x1_0000_0000,
    ;
    vstd::bits::lemma_u64_shl_is_mul(l, half as u64);
    lemma_join_adds(l, r, half);
}

proof fn lemma_join_adds(l: u64, r: u64, half: u32)
    by (bit_vector)
    requires
        1 <= half <= 32,
        l <= ((1u64 << half) - 1) as u64,
        r <= ((1u64 << half) - 1) as u64,
    ensures
        ((l << half) | r) == (l << half) + r,
{
}

/// One pass of the network is four rounds, each of which adds to one half,
/// digit by digit, what the round function answers of the other under that
/// round's number, and swaps the two.
pub proof fn lemma_a_pass_is_four_keyed_rounds(seed: u64, half: u32, value: u64)
    requires
        1 <= half <= 32,
        value < pow2(half as nat) * pow2(half as nat),
    ensures
        ({
            let base = pow2(half as nat) as u64;
            let l = (value / base) as u64;
            let r = (value % base) as u64;
            let first = l ^ ((mixed(seed, 0, r) % base) as u64);
            let second = r ^ ((mixed(seed, 1, first) % base) as u64);
            let third = first ^ ((mixed(seed, 2, second) % base) as u64);
            let fourth = second ^ ((mixed(seed, 3, third) % base) as u64);
            &&& third < base
            &&& fourth < base
            &&& network(seed, half, value) == third * base + fourth
        }),
{
    lemma_half_value(half);
    let mask = low_mask(half);
    let base = pow2(half as nat) as u64;
    lemma_bits_are_digits(value, half);
    let l = (value / base) as u64;
    let r = (value % base) as u64;
    assert(l < base) by (nonlinear_arith)
        requires
            value < base * base,
            base > 0,
            l == value / base,
    ;
    lemma_bits_are_digits(l, half);
    vstd::arithmetic::div_mod::lemma_small_mod(l as nat, base as nat);
    assert(halves(half, value) == (l, r));
    let first = l ^ (mixed(seed, 0, r) & mask);
    let second = r ^ (mixed(seed, 1, first) & mask);
    let third = first ^ (mixed(seed, 2, second) & mask);
    let fourth = second ^ (mixed(seed, 3, third) & mask);
    lemma_bits_are_digits(mixed(seed, 0, r), half);
    lemma_bits_are_digits(mixed(seed, 1, first), half);
    lemma_bits_are_digits(mixed(seed, 2, second), half);
    lemma_bits_are_digits(mixed(seed, 3, third), half);
    lemma_mask_bounds(l, mixed(seed, 0, r), half);
    lemma_mask_bounds(r, mixed(seed, 1, first), half);
    lemma_mask_bounds(first, mixed(seed, 2, second), half);
    lemma_mask_bounds(second, mixed(seed, 3, third), half);
    reveal_with_fuel(rounds_forward, 5);
    assert(rounds_forward(seed, mask, 4, (l, r)) == (third, fourth));
    lemma_joined_is_a_sum(third, fourth, half);
}

/// Whether `visited` is a walk of the network from its first value to the first
/// inside `0..len` after it: each value is one pass on from the one before, and
/// only the last lies in the range again.
pub open spec fn is_walk(seed: u64, half: u32, len: u64, visited: Seq<u64>) -> bool {
    &&& visited.len() >= 2
    &&& forall|i: int|
        0 <= i < visited.len() - 1 ==> visited[i + 1] == #[trigger] network(seed, half, visited[i])
    &&& forall|i: int| 0 < i < visited.len() - 1 ==> #[trigger] visited[i] >= len
    &&& visited.last() < len
}

/// The values a walk visits are the passes of the network from its first.
proof fn lemma_visited(seed: u64, half: u32, len: u64, visited: Seq<u64>, k: nat)
    requires
        is_walk(seed, half, len, visited),
        k < visited.len(),
    ensures
        visited[k as int] == walked(seed, half, k, visited[0]),
    decreases k,
{
    if k > 0 {
        let before = (k - 1) as nat;
        lemma_visited(seed, half, len, visited, before);
        assert(visited[before as int + 1] == network(seed, half, visited[before as int]));
    }
}

/// The domain of the network is the smallest square of a power of two that
/// holds the range.
pub proof fn lemma_the_domain_is_the_smallest_that_holds_the_range(len: u64)
    requires
        len >= 2,
    ensures
        1 <= half_of(len) <= 32,
        len <= pow2(half_of(len) as nat) * pow2(half_of(len) as nat),
        pow2((half_of(len) - 1) as nat) * pow2((half_of(len) - 1) as nat) < len,
{
    lemma_half_of(len);
    let half = half_of(len);
    let last = (len - 1) as u64;
    let narrower = (half - 1) as u32;
    lemma_two_shifts(last, half);
    lemma_two_shifts(last, narrower);
}

/// Shifting by `half` twice leaves nothing exactly of what the square of
/// `2^half` exceeds.
proof fn lemma_two_shifts(last: u64, half: u32)
    requires
        half <= 32,
    ensures
        (last >> half) >> half == 0 <==> last < pow2(half as nat) * pow2(half as nat),
{
    lemma_half_value(half);
    lemma_bits_are_digits(last, half);
    lemma_bits_are_digits(last >> half, half);
    let base = pow2(half as nat);
    let high = last as int / base as int;
    assert(high / base as int == 0 <==> high < base) by (nonlinear_arith)
        requires
            high >= 0,
            base > 0,
    ;
    assert(high < base <==> last < base * base) by (nonlinear_arith)
        requires
            high == last as int / base as int,
            base > 0,
    ;
}

impl Permutation {
    /// The position asked about at an index is where the network first lands
    /// back in the range on the way from that index, and the index a position
    /// comes up at is where such a way to it began. There is such a way for
    /// every index, and none ends anywhere else.
    pub proof fn lemma_an_order_is_walked_by_the_network(seed: u64, len: u64, index: u64)
        requires
            2 <= len,
            index < len,
        ensures
            exists|visited: Seq<u64>| #[trigger]
                is_walk(seed, half_of(len), len, visited) && visited.first() == index,
            forall|visited: Seq<u64>| #[trigger]
                is_walk(seed, half_of(len), len, visited) && visited.first() == index
                    ==> position_at(seed, len, index) == visited.last() && index_for(
                    seed,
                    len,
                    visited.last(),
                ) == index,
    {
        lemma_half_of(len);
        let half = half_of(len);
        lemma_inside_is_in_domain((len - 1) as u64, index, half);
        lemma_lands(seed, half, len, index);
        let steps = choose|steps: nat| lands_first(seed, half, len, index, steps);
        let walk = Seq::new((steps + 1) as nat, |k: int| walked(seed, half, k as nat, index));
        assert forall|i: int| 0 <= i < walk.len() - 1 implies walk[i + 1] == #[trigger] network(
            seed,
            half,
            walk[i],
        ) by {
            assert(((i + 1) as nat - 1) as nat == i as nat);
        }
        assert(is_walk(seed, half, len, walk) && walk.first() == index);
        assert forall|visited: Seq<u64>| #[trigger]
            is_walk(seed, half, len, visited) && visited.first() == index implies position_at(
            seed,
            len,
            index,
        ) == visited.last() && index_for(seed, len, visited.last()) == index by {
            let taken = (visited.len() - 1) as nat;
            assert forall|k: nat| k < visited.len() implies #[trigger] walked(seed, half, k, index)
                == visited[k as int] by {
                lemma_visited(seed, half, len, visited, k);
            }
            assert(lands_first(seed, half, len, index, taken));
            lemma_lands_once(seed, half, len, index, steps, taken);
            Self::lemma_index_of_undoes_at(seed, len, index);
        }
    }
}

/// A walk part way through an order.
#[derive(Debug, Clone, Copy)]
pub struct Walk {
    order: Permutation,
    next: u64,
}

impl Walk {
    /// The order walked, and how many of its positions have been asked about.
    pub closed spec fn view(&self) -> ((u64, u64), u64) {
        (self.order@, self.next)
    }

    #[verifier::type_invariant]
    spec fn inside(self) -> bool {
        self.next <= self.order@.1
    }

    /// The next position, or [`None`] once every one has been asked about.
    pub fn next(&mut self) -> (position: Option<u64>)
        ensures
            final(self)@.0 == old(self)@.0,
            match position {
                Some(p) => {
                    &&& old(self)@.1 < old(self)@.0.1
                    &&& p == position_at(old(self)@.0.0, old(self)@.0.1, old(self)@.1)
                    &&& final(self)@.1 == old(self)@.1 + 1
                },
                None => {
                    &&& old(self)@.1 == old(self)@.0.1
                    &&& final(self)@.1 == old(self)@.1
                },
            },
    {
        proof {
            use_type_invariant(&*self);
        }
        let index: u64 = self.next;
        let position = self.order.at(index);
        if position.is_some() {
            self.next = index + 1;
        }
        position
    }

    /// Every position left, in order.
    pub fn collect(self) -> (positions: Vec<u64>)
        ensures
            positions@.len() == self@.0.1 - self@.1,
            forall|i: int|
                0 <= i < positions@.len() ==> #[trigger] positions@[i] == position_at(
                    self@.0.0,
                    self@.0.1,
                    (self@.1 + i) as u64,
                ),
    {
        let mut positions: Vec<u64> = Vec::new();
        proof {
            use_type_invariant(&self);
        }
        let len: u64 = self.order.len();
        let mut index: u64 = self.next;
        while index < len
            invariant
                self.next <= index <= len,
                len == self.order@.1,
                self@ == (self.order@, self.next),
                positions@.len() == index - self.next,
                forall|i: int|
                    0 <= i < positions@.len() ==> #[trigger] positions@[i] == position_at(
                        self@.0.0,
                        self@.0.1,
                        (self@.1 + i) as u64,
                    ),
            decreases len - index,
        {
            let position: u64 = self.order.walk(index);
            positions.push(position);
            index = index + 1;
        }
        positions
    }
}

} // verus!
