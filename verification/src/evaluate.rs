//! Judging a marking of a puzzle: which sentences claim of the marking what
//! the marking says of them.

use crate::levels::{all_fit, all_refer_within, solves, Level};
use crate::sentence::{Sentence, SentenceDescription, Statement};
use crate::truths::{alternating_groups, closest_at, count_matching};
use crate::value::Value;
use vstd::prelude::*;

verus! {

/// Why a puzzle and a marking cannot be judged.
#[derive(Clone, Copy, PartialEq, Eq, Debug, Structural)]
pub enum PuzzleError {
    /// The marking has `marks` truth values, the puzzle `sentences`
    /// sentences.
    GuessLength { sentences: usize, marks: usize },
    /// The sentence at `position` (counted from 1) has not the values that
    /// its form takes.
    WrongValues { position: usize },
    /// The sentence at `position` (counted from 1) names a position that the
    /// puzzle has not.
    IdOutOfRange { position: usize },
}

/// The judgement of a marking.
#[derive(Clone, PartialEq, Eq, Debug)]
pub struct Evaluation {
    /// For each position, whether its sentence is consistent with the
    /// marking.
    pub consistent: Vec<bool>,
    /// Whether all of them are.
    pub pass: bool,
}

/// What an `Evaluation` stands for.
pub struct Verdict {
    pub consistent: Seq<bool>,
    pub pass: bool,
}

impl View for Evaluation {
    type V = Verdict;

    open spec fn view(&self) -> Verdict {
        Verdict { consistent: self.consistent@, pass: self.pass }
    }
}

/// The sentence has the values that its form takes, and names positions from
/// 1 to `count` only.
pub open spec fn sound(statement: Statement, count: nat) -> bool {
    statement.fits() && statement.refers_within(count)
}

/// The sentence at index `at` is the first of the puzzle that is not sound.
pub open spec fn first_unsound(level: Seq<Statement>, at: int) -> bool {
    &&& 0 <= at < level.len()
    &&& !sound(level[at], level.len())
    &&& forall|before: int| 0 <= before < at ==> sound(#[trigger] level[before], level.len())
}

/// `error` says what is wrong with the puzzle and the marking: that the
/// marking has not one truth value for each sentence; or else what is wrong
/// with the first sentence that is not sound, where wrong values come before
/// a position out of range.
pub open spec fn fault(level: Seq<Statement>, guess: Seq<bool>, error: PuzzleError) -> bool {
    match error {
        PuzzleError::GuessLength { sentences, marks } => {
            &&& guess.len() != level.len()
            &&& sentences == level.len()
            &&& marks == guess.len()
        },
        PuzzleError::WrongValues { position } => {
            &&& guess.len() == level.len()
            &&& first_unsound(level, position - 1)
            &&& !level[position - 1].fits()
        },
        PuzzleError::IdOutOfRange { position } => {
            &&& guess.len() == level.len()
            &&& first_unsound(level, position - 1)
            &&& level[position - 1].fits()
        },
    }
}

/// The judgement of the marking `guess` of a puzzle: each sentence is
/// consistent or not, and the marking passes if all are.
pub open spec fn verdict(level: Seq<Statement>, guess: Seq<bool>) -> Verdict {
    Verdict {
        consistent: Seq::new(level.len(), |i: int| level[i].consistent(i, guess)),
        pass: solves(level, guess),
    }
}

/// `outcome` is what judging the marking `guess` of the puzzle gives: the
/// verdict, if the marking has one truth value for each sentence and every
/// sentence is sound, and else the error that says what is wrong.
pub open spec fn judged(
    level: Seq<Statement>,
    guess: Seq<bool>,
    outcome: Result<Verdict, PuzzleError>,
) -> bool {
    match outcome {
        Ok(found) => {
            &&& guess.len() == level.len()
            &&& all_fit(level)
            &&& all_refer_within(level)
            &&& found == verdict(level, guess)
        },
        Err(error) => fault(level, guess, error),
    }
}

/// What an outcome of judging stands for.
pub open spec fn outcome_view(
    outcome: Result<Evaluation, PuzzleError>,
) -> Result<Verdict, PuzzleError> {
    match outcome {
        Ok(evaluation) => Ok(evaluation@),
        Err(error) => Err(error),
    }
}

/// Tells whether `id` names one of the positions 1 to `count`.
fn names_position(id: u32, count: usize) -> (named: bool)
    ensures
        named == (1 <= id <= count),
{
    1 <= id && id as usize <= count
}

impl SentenceDescription {
    /// Tells what the sentence, standing at `position` (counted from 0),
    /// claims of `truths`; or what is wrong with the sentence, if it has not
    /// the values that its form takes or names a position that `truths` has
    /// not.
    pub fn claims(&self, position: usize, truths: &Vec<bool>) -> (claim: Result<bool, PuzzleError>)
        requires
            position < truths.len(),
        ensures
            claim matches Ok(claimed) ==> sound(self@, truths@.len()) && claimed == self@.claim(
                position as int,
                truths@,
            ),
            claim matches Err(error) ==> !sound(self@, truths@.len()) && error == if self@.fits() {
                PuzzleError::IdOutOfRange { position: (position + 1) as usize }
            } else {
                PuzzleError::WrongValues { position: (position + 1) as usize }
            },
    {
        let wrong_values: PuzzleError = PuzzleError::WrongValues { position: position + 1 };
        let out_of_range: PuzzleError = PuzzleError::IdOutOfRange { position: position + 1 };
        let count: usize = truths.len();
        if self.values.len() == 1 {
            match (self.sentence, self.values[0]) {
                (Sentence::ThereAreNumberOfAlternatingGroups, Value::Number(number)) => {
                    Ok(alternating_groups(truths) == number as usize)
                },
                _ => {
                    assert(!self@.fits()) by {
                        if self@.fits() {
                            assert(self@.values[0].category() == self@.sentence.slots()[0]);
                        }
                    }
                    Err(wrong_values)
                },
            }
        } else if self.values.len() == 2 {
            assert(self@.fits() ==> self@.values[0].category() == self@.sentence.slots()[0]
                && self@.values[1].category() == self@.sentence.slots()[1]);
            match (self.sentence, self.values[0], self.values[1]) {
                (Sentence::IdSentenceIsBool, Value::Id(id), Value::Bool(truth)) => {
                    if names_position(id, count) {
                        Ok(truths[(id - 1) as usize] == truth)
                    } else {
                        assert(self@.values[0] is Id);
                        Err(out_of_range)
                    }
                },
                (
                    Sentence::ThereAreNumberOfBoolSentences,
                    Value::Number(number),
                    Value::Bool(truth),
                ) => Ok(count_matching(truths, truth) == number as usize),
                (Sentence::ClosestBoolIsNumberAway, Value::Bool(truth), Value::Number(number)) => {
                    Ok(closest_at(truths, position, truth, number))
                },
                (Sentence::IdSentenceAndIdSentenceAreTheSame, Value::Id(id1), Value::Id(id2)) => {
                    if names_position(id1, count) && names_position(id2, count) {
                        Ok(truths[(id1 - 1) as usize] == truths[(id2 - 1) as usize])
                    } else {
                        assert(self@.values[0] is Id && self@.values[1] is Id);
                        Err(out_of_range)
                    }
                },
                (Sentence::IdSentenceAndIdSentenceAreDifferent, Value::Id(id1), Value::Id(id2)) => {
                    if names_position(id1, count) && names_position(id2, count) {
                        Ok(truths[(id1 - 1) as usize] != truths[(id2 - 1) as usize])
                    } else {
                        assert(self@.values[0] is Id && self@.values[1] is Id);
                        Err(out_of_range)
                    }
                },
                _ => Err(wrong_values),
            }
        } else {
            Err(wrong_values)
        }
    }
}

/// Judges the marking `guess` of the puzzle: for each sentence, whether what
/// it claims of the marking has the truth value that the marking gives to the
/// sentence, and whether that is so for all. Neither the puzzle nor the
/// marking is changed. A marking that has not one truth value for each
/// sentence, and a puzzle with a sentence that is not sound, are rejected.
pub fn evaluate_sentences(
    level: &Level,
    guess: &Vec<bool>,
) -> (outcome: Result<Evaluation, PuzzleError>)
    ensures
        judged(level@, guess@, outcome_view(outcome)),
        outcome is Ok <==> guess@.len() == level@.len() && all_fit(level@) && all_refer_within(
            level@,
        ),
{
    let count: usize = level.sentences.len();
    if guess.len() != count {
        return Err(PuzzleError::GuessLength { sentences: count, marks: guess.len() });
    }
    let mut consistent: Vec<bool> = Vec::new();
    let mut all_consistent: bool = true;
    let mut i: usize = 0;
    while i < count
        invariant
            i <= count,
            count == level.sentences.len(),
            count == guess.len(),
            consistent@.len() == i,
            forall|k: int| 0 <= k < i ==> sound(#[trigger] level@[k], level@.len()),
            forall|k: int|
                0 <= k < i ==> #[trigger] consistent@[k] == level@[k].consistent(k, guess@),
            all_consistent == forall|k: int|
                0 <= k < i ==> (#[trigger] level@[k]).consistent(k, guess@),
        decreases count - i,
    {
        proof {
            assert(level@[i as int] == level.sentences@[i as int]@);
        }
        match level.sentences[i].claims(i, guess) {
            Ok(truth) => {
                let consistency: bool = truth == guess[i];
                if !consistency {
                    all_consistent = false;
                }
                consistent.push(consistency);
            },
            Err(error) => {
                proof {
                    assert(first_unsound(level@, i as int));
                }
                return Err(error);
            },
        }
        i += 1;
    }
    let evaluation: Evaluation = Evaluation { consistent, pass: all_consistent };
    proof {
        assert(evaluation@.consistent =~= verdict(level@, guess@).consistent);
    }
    Ok(evaluation)
}

} // verus!
