//! Laws that hold between making, shuffling and judging a puzzle.

use crate::evaluate::{fault, first_unsound, judged, sound, verdict, PuzzleError, Verdict};
use crate::levels::{all_fit, all_refer_within, demand, kinds, pool, solves};
use crate::pools::reshuffled;
use crate::sentence::Statement;
use crate::value::Category;
use vstd::prelude::*;

verus! {

/// Judging is a function of the puzzle and the marking: of one puzzle and one
/// marking there is one outcome only.
pub proof fn lemma_judged_once(
    level: Seq<Statement>,
    guess: Seq<bool>,
    first: Result<Verdict, PuzzleError>,
    second: Result<Verdict, PuzzleError>,
)
    requires
        judged(level, guess, first),
        judged(level, guess, second),
    ensures
        first == second,
{
    match (first, second) {
        (Ok(_), Ok(_)) => {},
        (Ok(_), Err(error)) => {
            lemma_fault_excludes_verdict(level, guess, error);
        },
        (Err(error), Ok(_)) => {
            lemma_fault_excludes_verdict(level, guess, error);
        },
        (Err(one), Err(other)) => {
            if guess.len() == level.len() {
                let at: int = position_of(one) - 1;
                let other_at: int = position_of(other) - 1;
                assert(first_unsound(level, at));
                assert(first_unsound(level, other_at));
                if at < other_at {
                    assert(sound(level[at], level.len()));
                } else if other_at < at {
                    assert(sound(level[other_at], level.len()));
                }
            }
        },
    }
}

/// The position that an error names; 0 if it names none.
pub open spec fn position_of(error: PuzzleError) -> int {
    match error {
        PuzzleError::GuessLength { .. } => 0,
        PuzzleError::WrongValues { position } => position as int,
        PuzzleError::IdOutOfRange { position } => position as int,
    }
}

/// Where something is wrong, the marking has not one truth value for each
/// sentence, or some sentence is not sound.
proof fn lemma_fault_excludes_verdict(level: Seq<Statement>, guess: Seq<bool>, error: PuzzleError)
    requires
        fault(level, guess, error),
    ensures
        !(guess.len() == level.len() && all_fit(level) && all_refer_within(level)),
{
    if guess.len() == level.len() {
        let at: int = position_of(error) - 1;
        assert(first_unsound(level, at));
        assert(!sound(level[at], level.len()));
    }
}

/// A marking that solves a puzzle passes when the puzzle is judged, with
/// every sentence consistent.
pub proof fn lemma_solution_passes(level: Seq<Statement>, truths: Seq<bool>)
    requires
        solves(level, truths),
        all_fit(level),
        all_refer_within(level),
    ensures
        judged(level, truths, Ok(verdict(level, truths))),
        verdict(level, truths).pass,
        forall|i: int| 0 <= i < level.len() ==> #[trigger] verdict(level, truths).consistent[i],
{
}

/// Shuffling keeps the counts: of each category, the puzzle holds as many
/// values as before and has as many slots as before.
pub proof fn lemma_reshuffled_counts(
    before: Seq<Statement>,
    after: Seq<Statement>,
    category: Category,
)
    requires
        reshuffled(before, after),
    ensures
        after.len() == before.len(),
        pool(after, category).len() == pool(before, category).len(),
        demand(kinds(after), category) == demand(kinds(before), category),
{
    pool(after, category).to_multiset_ensures();
    pool(before, category).to_multiset_ensures();
    assert(kinds(after).len() == kinds(before).len());
}

} // verus!
