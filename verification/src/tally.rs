//! What became of a plan.
//!
//! Whoever carries out a plan reports of each item whether the file was
//! written under a name that was free, written over a file that had the name,
//! or not written at all. An item that fails does not stop the others, so a
//! plan ends with one outcome for each item, and the tally counts them.

use vstd::prelude::*;

verus! {

/// What became of one item of a plan.
#[derive(Clone, Copy, Debug, PartialEq, Eq, Structural)]
pub enum Outcome {
    /// The file was written, and no file had its name before.
    Created,
    /// The file was written over one that had its name.
    Replaced,
    /// The file could not be written.
    Failed,
}

/// How many of `outcomes` are `which`.
pub open spec fn count(outcomes: Seq<Outcome>, which: Outcome) -> nat
    decreases outcomes.len(),
{
    if outcomes.len() == 0 {
        0
    } else {
        count(outcomes.drop_last(), which) + if outcomes.last() == which {
            1nat
        } else {
            0nat
        }
    }
}

/// Every outcome is of exactly one kind.
pub proof fn lemma_count_all(outcomes: Seq<Outcome>)
    ensures
        count(outcomes, Outcome::Created) + count(outcomes, Outcome::Replaced) + count(
            outcomes,
            Outcome::Failed,
        ) == outcomes.len(),
    decreases outcomes.len(),
{
    if outcomes.len() > 0 {
        lemma_count_all(outcomes.drop_last());
    }
}

/// The counts of a plan that was carried out.
#[derive(Clone, Copy, Debug, PartialEq, Eq, Structural)]
pub struct Tally {
    /// The files that were written, whether over another or not.
    pub written: usize,
    /// Those among them that were written over another.
    pub replaced: usize,
    /// The files that could not be written.
    pub failed: usize,
}

impl Tally {
    /// Counts `outcomes`.
    pub fn of(outcomes: &Vec<Outcome>) -> (tally: Tally)
        ensures
            tally.written == count(outcomes@, Outcome::Created) + count(
                outcomes@,
                Outcome::Replaced,
            ),
            tally.replaced == count(outcomes@, Outcome::Replaced),
            tally.failed == count(outcomes@, Outcome::Failed),
            tally.written + tally.failed == outcomes@.len(),
    {
        let mut tally = Tally { written: 0, replaced: 0, failed: 0 };
        let mut i: usize = 0;
        while i < outcomes.len()
            invariant
                i <= outcomes@.len(),
                tally.written == count(outcomes@.take(i as int), Outcome::Created) + count(
                    outcomes@.take(i as int),
                    Outcome::Replaced,
                ),
                tally.replaced == count(outcomes@.take(i as int), Outcome::Replaced),
                tally.failed == count(outcomes@.take(i as int), Outcome::Failed),
            decreases outcomes@.len() - i,
        {
            proof {
                lemma_count_all(outcomes@.take(i as int));
                assert(outcomes@.take(i + 1).drop_last() == outcomes@.take(i as int));
            }
            match outcomes[i] {
                Outcome::Created => {
                    tally.written = tally.written + 1;
                },
                Outcome::Replaced => {
                    tally.written = tally.written + 1;
                    tally.replaced = tally.replaced + 1;
                },
                Outcome::Failed => {
                    tally.failed = tally.failed + 1;
                },
            }
            i = i + 1;
        }
        proof {
            assert(outcomes@.take(outcomes@.len() as int) == outcomes@);
            lemma_count_all(outcomes@);
        }
        tally
    }
}

} // verus!
