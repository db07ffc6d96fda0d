//! Similarity metrics.
//!
//! The metrics themselves are those of the `strsim` crate. What each of them
//! returns for two given strings is named here and not defined: the library
//! ranks and filters by the scores, whatever the metric makes them.

use vstd::prelude::*;
use crate::score::{Score, ONE_BITS};

verus! {

/// The Jaro similarity of `a` and `b`, as the bit pattern of a double.
pub uninterp spec fn jaro_bits(a: Seq<char>, b: Seq<char>) -> u64;

/// The Jaro-Winkler similarity of `a` and `b`, as the bit pattern of a double.
pub uninterp spec fn jaro_winkler_bits(a: Seq<char>, b: Seq<char>) -> u64;

/// The normalized Levenshtein similarity of `a` and `b`, as the bit pattern
/// of a double.
pub uninterp spec fn levenshtein_bits(a: Seq<char>, b: Seq<char>) -> u64;

/// The normalized Damerau-Levenshtein similarity of `a` and `b`, as the bit
/// pattern of a double.
pub uninterp spec fn damerau_levenshtein_bits(a: Seq<char>, b: Seq<char>) -> u64;

/// Whether the row of distances that the Levenshtein metric keeps for a
/// second string of `b` characters can be allocated: it has a cell of one
/// machine word for each character.
pub open spec fn row_fits(b: nat) -> bool {
    b * 8 <= isize::MAX
}

/// Whether the table of distances that the Damerau-Levenshtein metric fills
/// for strings of `a` and `b` characters can be allocated: it has a cell of
/// one machine word for each pair of positions, and two more rows and
/// columns.
pub open spec fn table_fits(a: nat, b: nat) -> bool {
    (a + 2) * (b + 2) * 8 <= isize::MAX
}

/// Whether a name of `len` characters is short enough for every metric: the
/// table of distances for two names of that length can be allocated. It is
/// what the machine's largest allocation leaves, and so depends on the
/// machine; no name that a file system holds comes near it.
pub open spec fn length_fits(len: nat) -> bool {
    table_fits(len, len)
}

/// Whether a name of `len` characters is short enough for every metric.
pub fn name_fits(len: usize) -> (fits: bool)
    ensures
        fits == length_fits(len as nat),
{
    if len > 0xFFFF_FFFF {
        assert((len + 2) * (len + 2) * 8 > 0x7FFF_FFFF_FFFF_FFFF) by (nonlinear_arith)
            requires
                len > 0xFFFF_FFFF,
        ;
        false
    } else {
        let side: u128 = len as u128 + 2;
        assert(side * side * 8 <= 0x1_0000_0001 * 0x1_0000_0001 * 8) by (nonlinear_arith)
            requires
                side <= 0x1_0000_0001,
        ;
        side * side * 8 <= isize::MAX as u128
    }
}

/// `strsim::jaro`: the Jaro similarity of `a` and `b`. It depends on the two
/// strings alone, lies between zero and one, both included, and is one for
/// two equal strings.
#[verifier::external_body]
fn jaro(a: &str, b: &str) -> (bits: u64)
    ensures
        bits == jaro_bits(a@, b@),
        bits <= ONE_BITS,
        a@ == b@ ==> bits == ONE_BITS,
{
    strsim::jaro(a, b).to_bits()
}

/// `strsim::jaro_winkler`: the Jaro similarity of `a` and `b`, raised for a
/// common prefix and capped at one. It depends on the two strings alone,
/// lies between zero and one, both included, and is one for two equal
/// strings.
#[verifier::external_body]
fn jaro_winkler(a: &str, b: &str) -> (bits: u64)
    ensures
        bits == jaro_winkler_bits(a@, b@),
        bits <= ONE_BITS,
        a@ == b@ ==> bits == ONE_BITS,
{
    strsim::jaro_winkler(a, b).to_bits()
}

/// `strsim::normalized_levenshtein`: one minus the Levenshtein distance of
/// `a` and `b` over the length of the longer, and one for two empty strings.
/// It depends on the two strings alone, lies between zero and one, both
/// included, and is one for two equal strings. The function allocates a row
/// of distances and panics where that row is too large to allocate, so such
/// strings are left out.
#[verifier::external_body]
fn normalized_levenshtein(a: &str, b: &str) -> (bits: u64)
    requires
        row_fits(b@.len()),
    ensures
        bits == levenshtein_bits(a@, b@),
        bits <= ONE_BITS,
        a@ == b@ ==> bits == ONE_BITS,
{
    strsim::normalized_levenshtein(a, b).to_bits()
}

/// `strsim::normalized_damerau_levenshtein`: one minus the
/// Damerau-Levenshtein distance of `a` and `b` over the length of the longer,
/// and one for two empty strings. It depends on the two strings alone, lies
/// between zero and one, both included, and is one for two equal strings.
/// The function allocates a table of distances and panics where that table
/// is too large to allocate, so such strings are left out.
#[verifier::external_body]
fn normalized_damerau_levenshtein(a: &str, b: &str) -> (bits: u64)
    requires
        table_fits(a@.len(), b@.len()),
    ensures
        bits == damerau_levenshtein_bits(a@, b@),
        bits <= ONE_BITS,
        a@ == b@ ==> bits == ONE_BITS,
{
    strsim::normalized_damerau_levenshtein(a, b).to_bits()
}

/// The metric by which names are compared.
#[derive(Clone, Copy, Debug, PartialEq, Eq, Structural)]
pub enum SearchAlgorithm {
    Jaro,
    JaroWinkler,
    Levenshtein,
    DamerauLevenshtein,
}

impl SearchAlgorithm {
    /// The score that the metric gives to `a` and `b`.
    pub open spec fn similarity(self, a: Seq<char>, b: Seq<char>) -> Score {
        match self {
            SearchAlgorithm::Jaro => Score { bits: jaro_bits(a, b) },
            SearchAlgorithm::JaroWinkler => Score { bits: jaro_winkler_bits(a, b) },
            SearchAlgorithm::Levenshtein => Score { bits: levenshtein_bits(a, b) },
            SearchAlgorithm::DamerauLevenshtein => Score { bits: damerau_levenshtein_bits(a, b) },
        }
    }

    /// Whether the metric can be computed for `a` and `b` on this machine:
    /// whether what it allocates for strings of their lengths fits.
    pub open spec fn comparable(self, a: Seq<char>, b: Seq<char>) -> bool {
        match self {
            SearchAlgorithm::Jaro => true,
            SearchAlgorithm::JaroWinkler => true,
            SearchAlgorithm::Levenshtein => row_fits(b.len()),
            SearchAlgorithm::DamerauLevenshtein => table_fits(a.len(), b.len()),
        }
    }

    /// Every metric can be computed for two strings that are no longer than
    /// two names that are short enough.
    pub proof fn lemma_comparable(self, a: Seq<char>, b: Seq<char>, first: nat, second: nat)
        requires
            length_fits(first),
            length_fits(second),
            a.len() <= first,
            b.len() <= second,
        ensures
            self.comparable(a, b),
    {
        let longer = if first <= second {
            second
        } else {
            first
        };
        assert((a.len() + 2) * (b.len() + 2) <= (longer + 2) * (longer + 2)) by (nonlinear_arith)
            requires
                a.len() <= longer,
                b.len() <= longer,
        ;
        assert(b.len() <= (a.len() + 2) * (b.len() + 2)) by (nonlinear_arith);
    }

    /// Scores `a` against `b`.
    pub fn compare(&self, a: &str, b: &str) -> (score: Score)
        requires
            self.comparable(a@, b@),
        ensures
            score == self.similarity(a@, b@),
            score.in_unit(),
            a@ == b@ ==> score.bits == ONE_BITS,
    {
        let bits = match self {
            SearchAlgorithm::Jaro => jaro(a, b),
            SearchAlgorithm::JaroWinkler => jaro_winkler(a, b),
            SearchAlgorithm::Levenshtein => normalized_levenshtein(a, b),
            SearchAlgorithm::DamerauLevenshtein => normalized_damerau_levenshtein(a, b),
        };
        Score::from_bits(bits)
    }
}

} // verus!
