//! # How sure a claim is
//!
//! A grade rather than a percentage, so that two claims reached by different
//! routes can be ranked without either knowing how the other was arrived at.

use vstd::prelude::*;

verus! {

/// How much trust to place in a single piece of evidence.
///
/// Ordered weakest-to-strongest, so evidence can be compared and ranked
/// directly.
#[non_exhaustive]
#[derive(Debug, Clone, Copy, PartialEq, Eq, PartialOrd, Ord, Structural)]
pub enum Confidence {
    /// A guess from context alone, e.g. the registered name for a port number
    /// with no probing performed.
    Heuristic,
    /// A plausible but non-authoritative signal.
    Weak,
    /// A signature matched, but the match is generic (no product/version).
    Probable,
    /// A specific signature matched, yielding product and/or version detail.
    Strong,
    /// Effectively certain: the service self-identified unambiguously.
    Certain,
}

impl Confidence {
    /// The grade on the `0..=100` confidence scale.
    pub open spec fn score(self) -> u8 {
        match self {
            Confidence::Heuristic => 0,
            Confidence::Weak => 40,
            Confidence::Probable => 70,
            Confidence::Strong => 90,
            Confidence::Certain => 100,
        }
    }

    /// The stronger of two grades.
    pub open spec fn stronger(self, other: Confidence) -> Confidence {
        if other.score() > self.score() {
            other
        } else {
            self
        }
    }

    /// Projects onto the `0..=100` confidence scale.
    pub fn as_score(self) -> (score: u8)
        ensures
            score == self.score(),
    {
        match self {
            Confidence::Heuristic => 0,
            Confidence::Weak => 40,
            Confidence::Probable => 70,
            Confidence::Strong => 90,
            Confidence::Certain => 100,
        }
    }

    /// The stronger of two grades, this one where they are the same.
    pub fn strongest(self, other: Confidence) -> (result: Confidence)
        ensures
            result == self.stronger(other),
    {
        if other.as_score() > self.as_score() {
            other
        } else {
            self
        }
    }

    /// Every level, weakest-first, for a caller that iterates rather than writing
    /// the list out.
    pub const ALL: [Confidence; 5] = [
        Confidence::Heuristic,
        Confidence::Weak,
        Confidence::Probable,
        Confidence::Strong,
        Confidence::Certain,
    ];

    /// The scale tells the grades apart.
    pub proof fn lemma_scores_tell_grades_apart(a: Confidence, b: Confidence)
        ensures
            a.score() == b.score() <==> a == b,
            a.score() <= 100,
    {
    }
}

impl Default for Confidence {
    /// The weakest grade.
    fn default() -> (grade: Confidence)
        ensures
            grade == Confidence::Heuristic,
    {
        Confidence::Heuristic
    }
}

/// The stronger of two grades is one of them, and weaker than neither, whichever is
/// asked first.
pub proof fn lemma_the_stronger_grade_stands(a: Confidence, b: Confidence)
    ensures
        a.stronger(b) == a || a.stronger(b) == b,
        a.stronger(b) == b.stronger(a),
        a is Certain ==> a.stronger(b) is Certain,
        a is Strong && !(b is Certain) ==> a.stronger(b) is Strong,
        a is Probable && (b is Weak || b is Heuristic) ==> a.stronger(b) is Probable,
        a is Weak && b is Heuristic ==> a.stronger(b) is Weak,
{
}

} // verus!
