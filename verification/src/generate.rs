//! Writing sentences that are true or false of a given row of truth values.
//!
//! Each form of sentence has a function that fills its slots from the row and
//! from the random draws handed to it, so that the sentence's claim about the
//! row is true or false as asked. `SentenceDescription::generate` makes the
//! draws and picks the form.

use crate::chance::{draw_bool, draw_u32, pick_other_than, range_other_than};
use crate::levels::{all_count_within, all_fit, all_refer_within, solves, Level};
use crate::pools::{lemma_fitting_enough, lemma_reshuffled_within, reshuffled};
use crate::sentence::{Sentence, SentenceDescription, Statement};
use crate::truths::{
    alternating_groups, closest_distance, closest_is, count_matching, count_of, groups, hit_at,
    lemma_count_of_bound, lemma_groups_bound, lemma_nearest, nearest,
};
use crate::value::Value;
use rand::rngs::StdRng;
use vstd::prelude::*;

verus! {

/// The indices other than `skip` at which `truths` holds `look_for`, in
/// rising order.
pub open spec fn candidates(truths: Seq<bool>, skip: int, look_for: bool) -> Seq<int>
    decreases truths.len(),
{
    if truths.len() == 0 {
        Seq::empty()
    } else {
        let last: int = truths.len() - 1;
        if last != skip && truths[last] == look_for {
            candidates(truths.drop_last(), skip, look_for).push(last)
        } else {
            candidates(truths.drop_last(), skip, look_for)
        }
    }
}

/// Every candidate is an index other than `skip` at which `truths` holds
/// `look_for`, and every such index is a candidate.
pub proof fn lemma_candidates(truths: Seq<bool>, skip: int, look_for: bool)
    ensures
        candidates(truths, skip, look_for).len() <= truths.len(),
        forall|k: int|
            0 <= k < candidates(truths, skip, look_for).len() ==> {
                let index: int = #[trigger] candidates(truths, skip, look_for)[k];
                0 <= index < truths.len() && index != skip && truths[index] == look_for
            },
        forall|index: int|
            0 <= index < truths.len() && index != skip && truths[index] == look_for
                ==> candidates(truths, skip, look_for).contains(index),
    decreases truths.len(),
{
    if truths.len() > 0 {
        let shorter: Seq<bool> = truths.drop_last();
        let last: int = truths.len() - 1;
        lemma_candidates(shorter, skip, look_for);
        let before: Seq<int> = candidates(shorter, skip, look_for);
        let all: Seq<int> = candidates(truths, skip, look_for);
        assert forall|index: int|
            0 <= index < truths.len() && index != skip && truths[index]
                == look_for implies all.contains(index) by {
            if index == last {
                assert(all[all.len() - 1] == last);
            } else {
                assert(shorter[index] == truths[index]);
                assert(before.contains(index));
                let k: int = choose|k: int| 0 <= k < before.len() && before[k] == index;
                assert(all[k] == index);
            }
        }
    }
}

/// Collects the positions other than `skip` at which `truths` holds
/// `look_for`, in rising order.
pub fn matching_positions(truths: &Vec<bool>, skip: usize, look_for: bool) -> (found: Vec<usize>)
    ensures
        found@.len() == candidates(truths@, skip as int, look_for).len(),
        forall|k: int|
            0 <= k < found@.len() ==> found@[k] as int == candidates(
                truths@,
                skip as int,
                look_for,
            )[k],
{
    let mut found: Vec<usize> = Vec::new();
    let mut i: usize = 0;
    while i < truths.len()
        invariant
            i <= truths.len(),
            found@.len() == candidates(truths@.take(i as int), skip as int, look_for).len(),
            forall|k: int|
                0 <= k < found@.len() ==> found@[k] as int == candidates(
                    truths@.take(i as int),
                    skip as int,
                    look_for,
                )[k],
        decreases truths.len() - i,
    {
        proof {
            assert(truths@.take(i + 1).drop_last() =~= truths@.take(i as int));
        }
        if i != skip && truths[i] == look_for {
            found.push(i);
        }
        i += 1;
    }
    proof {
        assert(truths@.take(i as int) =~= truths@);
    }
    found
}

impl Statement {
    /// The sentence "`Id` sentence is `Bool`" for index `at` of `truths`: it
    /// names the index that `draw` selects among the others, and gives the
    /// truth value found there if `is_true`, the opposite one if not. In a
    /// row of one entry it names itself and says "true".
    pub open spec fn id_sentence_is_bool(
        is_true: bool,
        at: int,
        truths: Seq<bool>,
        draw: int,
    ) -> Statement {
        if truths.len() == 1 {
            Statement {
                sentence: Sentence::IdSentenceIsBool,
                values: seq![Value::Id((at + 1) as u32), Value::Bool(true)],
            }
        } else {
            let other: int = range_other_than(draw, 0, truths.len() - 1, at);
            Statement {
                sentence: Sentence::IdSentenceIsBool,
                values: seq![Value::Id((other + 1) as u32), Value::Bool(truths[other] == is_true)],
            }
        }
    }

    /// The sentence "There are `Number` sentences that are `Bool`" for
    /// `truths`: with the count of `truth` if `is_true`, and if not with the
    /// number that `draw` selects from 1 to the length of the row, that count
    /// left out.
    pub open spec fn there_are_number_of_bool_sentences(
        is_true: bool,
        truths: Seq<bool>,
        truth: bool,
        draw: int,
    ) -> Statement {
        let count: int = count_of(truths, truth) as int;
        let number: int = if is_true {
            count
        } else {
            range_other_than(draw, 1, truths.len() as int, count)
        };
        Statement {
            sentence: Sentence::ThereAreNumberOfBoolSentences,
            values: seq![Value::Number(number as u32), Value::Bool(truth)],
        }
    }

    /// The sentence "The closest `Bool` sentence is `Number` spots away" for
    /// index `at` of `truths`. If `is_true`, it gives the distance to the
    /// nearest other `truth`, and where no other entry is `truth` it speaks of
    /// the opposite truth value, one spot away. If not, it gives the number
    /// that `draw` selects from 1 to the length of the row, the true distance
    /// left out.
    pub open spec fn closest_bool_is_number_away(
        is_true: bool,
        at: int,
        truths: Seq<bool>,
        truth: bool,
        draw: int,
    ) -> Statement {
        let found: int = nearest(truths, at, truth);
        let count: int = truths.len() as int;
        let values: Seq<Value> = if is_true {
            if found == 0 {
                seq![Value::Bool(!truth), Value::Number(1)]
            } else {
                seq![Value::Bool(truth), Value::Number(found as u32)]
            }
        } else {
            if found == 0 {
                seq![Value::Bool(truth), Value::Number((draw % count + 1) as u32)]
            } else {
                seq![
                    Value::Bool(truth),
                    Value::Number(range_other_than(draw, 1, count, found) as u32),
                ]
            }
        };
        Statement { sentence: Sentence::ClosestBoolIsNumberAway, values }
    }

    /// The sentence "There are `Number` alternating groups" for `truths`:
    /// with the number of groups if `is_true`, and if not with the number that
    /// `draw` selects from 1 to the length of the row, that number left out.
    pub open spec fn there_are_number_of_alternating_groups(
        is_true: bool,
        truths: Seq<bool>,
        draw: int,
    ) -> Statement {
        let count: int = groups(truths) as int;
        let number: int = if is_true {
            count
        } else {
            range_other_than(draw, 1, truths.len() as int, count)
        };
        Statement {
            sentence: Sentence::ThereAreNumberOfAlternatingGroups,
            values: seq![Value::Number(number as u32)],
        }
    }

    /// A sentence about two positions of `truths`, meant to say that they
    /// have the same truth value if `same`, opposite ones if not. The first
    /// position is the one that `first` selects. The second is selected by
    /// `second` among the other positions that make the sentence true if
    /// `is_true`, false if not. Where there is no such position, the sentence
    /// takes the other of the two forms, and `second` selects among all the
    /// other positions.
    pub open spec fn id_sentence_and_id_sentence(
        is_true: bool,
        truths: Seq<bool>,
        same: bool,
        first: int,
        second: int,
    ) -> Statement {
        let count: int = truths.len() as int;
        let one: int = first % count;
        let look_for: bool = if is_true == same {
            truths[one]
        } else {
            !truths[one]
        };
        let options: Seq<int> = candidates(truths, one, look_for);
        if options.len() != 0 {
            Statement {
                sentence: Self::relation(same),
                values: seq![
                    Value::Id((one + 1) as u32),
                    Value::Id((options[second % (options.len() as int)] + 1) as u32),
                ],
            }
        } else {
            Statement {
                sentence: Self::relation(!same),
                values: seq![
                    Value::Id((one + 1) as u32),
                    Value::Id((range_other_than(second, 0, count - 1, one) + 1) as u32),
                ],
            }
        }
    }

    /// The form that says of two positions that their truth values are the
    /// same, or that they are opposite.
    pub open spec fn relation(same: bool) -> Sentence {
        if same {
            Sentence::IdSentenceAndIdSentenceAreTheSame
        } else {
            Sentence::IdSentenceAndIdSentenceAreDifferent
        }
    }

    /// The sentence for index `at` of `truths` that the draws give: `kind`
    /// selects one of the six forms, and the other draws fill its slots.
    pub open spec fn drawn(
        is_true: bool,
        at: int,
        truths: Seq<bool>,
        kind: int,
        truth: bool,
        first: int,
        second: int,
    ) -> Statement {
        if kind % 6 == 0 {
            Self::id_sentence_is_bool(is_true, at, truths, first)
        } else if kind % 6 == 1 {
            Self::there_are_number_of_bool_sentences(is_true, truths, truth, first)
        } else if kind % 6 == 2 {
            Self::closest_bool_is_number_away(is_true, at, truths, truth, first)
        } else if kind % 6 == 3 {
            Self::there_are_number_of_alternating_groups(is_true, truths, first)
        } else if kind % 6 == 4 {
            Self::id_sentence_and_id_sentence(is_true, truths, true, first, second)
        } else {
            Self::id_sentence_and_id_sentence(is_true, truths, false, first, second)
        }
    }
}

/// The sentence is one that `SentenceDescription::generate` can write for
/// index `at` of `truths`: some draws give it.
pub open spec fn written_for(made: Statement, is_true: bool, at: int, truths: Seq<bool>) -> bool {
    exists|kind: u32, truth: bool, first: u32, second: u32|
        made == #[trigger] Statement::drawn(
            is_true,
            at,
            truths,
            kind as int,
            truth,
            first as int,
            second as int,
        )
}

/// The puzzle is one that `generate_sentences` can write for `truths`: each
/// of its sentences is written for its own index, to be true if `truths`
/// holds true there and false if not.
pub open spec fn written(level: Seq<Statement>, truths: Seq<bool>) -> bool {
    &&& truths.len() == level.len()
    &&& forall|i: int|
        0 <= i < level.len() ==> written_for(#[trigger] level[i], truths[i], i, truths)
}

impl SentenceDescription {
    /// Writes "`Id` sentence is `Bool`" for `position` (counted from 0) of
    /// `truths`, true of `truths` if `is_true` and false if not.
    pub fn id_sentence_is_bool(
        is_true: bool,
        position: usize,
        truths: &Vec<bool>,
        draw: u32,
    ) -> (made: SentenceDescription)
        requires
            1 <= truths.len() <= u32::MAX,
            position < truths.len(),
        ensures
            made@ == Statement::id_sentence_is_bool(
                is_true,
                position as int,
                truths@,
                draw as int,
            ),
    {
        let count: u32 = truths.len() as u32;
        if count == 1 {
            SentenceDescription {
                sentence: Sentence::IdSentenceIsBool,
                values: vec![Value::Id(position as u32 + 1), Value::Bool(true)],
            }
        } else {
            let id: usize = pick_other_than(draw, 0, count - 1, position as u32) as usize;
            let truth: bool = truths[id] == is_true;
            SentenceDescription {
                sentence: Sentence::IdSentenceIsBool,
                values: vec![Value::Id(id as u32 + 1), Value::Bool(truth)],
            }
        }
    }

    /// Writes "There are `Number` sentences that are `Bool`" about `truth`,
    /// true of `truths` if `is_true` and false if not.
    pub fn there_are_number_of_bool_sentences(
        is_true: bool,
        truths: &Vec<bool>,
        truth: bool,
        draw: u32,
    ) -> (made: SentenceDescription)
        requires
            2 <= truths.len() <= u32::MAX,
        ensures
            made@ == Statement::there_are_number_of_bool_sentences(
                is_true,
                truths@,
                truth,
                draw as int,
            ),
    {
        let count: u32 = count_matching(truths, truth) as u32;
        let number: u32 = if is_true {
            count
        } else {
            pick_other_than(draw, 1, truths.len() as u32, count)
        };
        SentenceDescription {
            sentence: Sentence::ThereAreNumberOfBoolSentences,
            values: vec![Value::Number(number), Value::Bool(truth)],
        }
    }

    /// Writes "The closest `Bool` sentence is `Number` spots away" for
    /// `position` (counted from 0) of `truths`, true of `truths` if `is_true`
    /// and false if not.
    pub fn closest_bool_is_number_away(
        is_true: bool,
        position: usize,
        truths: &Vec<bool>,
        truth: bool,
        draw: u32,
    ) -> (made: SentenceDescription)
        requires
            2 <= truths.len() <= u32::MAX,
            position < truths.len(),
        ensures
            made@ == Statement::closest_bool_is_number_away(
                is_true,
                position as int,
                truths@,
                truth,
                draw as int,
            ),
    {
        let count: u32 = truths.len() as u32;
        let found: u32 = closest_distance(truths, position, truth) as u32;
        let (truth, number): (bool, u32) = if is_true {
            if found == 0 {
                (!truth, 1)
            } else {
                (truth, found)
            }
        } else {
            if found == 0 {
                (truth, draw % count + 1)
            } else {
                (truth, pick_other_than(draw, 1, count, found))
            }
        };
        SentenceDescription {
            sentence: Sentence::ClosestBoolIsNumberAway,
            values: vec![Value::Bool(truth), Value::Number(number)],
        }
    }

    /// Writes "There are `Number` alternating groups", true of `truths` if
    /// `is_true` and false if not.
    pub fn there_are_number_of_alternating_groups(
        is_true: bool,
        truths: &Vec<bool>,
        draw: u32,
    ) -> (made: SentenceDescription)
        requires
            2 <= truths.len() <= u32::MAX,
        ensures
            made@ == Statement::there_are_number_of_alternating_groups(
                is_true,
                truths@,
                draw as int,
            ),
    {
        let count: u32 = alternating_groups(truths) as u32;
        let number: u32 = if is_true {
            count
        } else {
            pick_other_than(draw, 1, truths.len() as u32, count)
        };
        let values: Vec<Value> = vec![Value::Number(number)];
        assert(values@ =~= seq![Value::Number(number)]);
        SentenceDescription { sentence: Sentence::ThereAreNumberOfAlternatingGroups, values }
    }

    /// Writes a sentence about two positions of `truths`, true of `truths` if
    /// `is_true` and false if not: "Both `Id` and `Id` sentences have the same
    /// truth value" if `same`, "... the opposite truth values" if not, or the
    /// other of the two where no second position serves.
    pub fn id_sentence_and_id_sentence(
        is_true: bool,
        truths: &Vec<bool>,
        same: bool,
        first: u32,
        second: u32,
    ) -> (made: SentenceDescription)
        requires
            2 <= truths.len() <= u32::MAX,
        ensures
            made@ == Statement::id_sentence_and_id_sentence(
                is_true,
                truths@,
                same,
                first as int,
                second as int,
            ),
    {
        let count: u32 = truths.len() as u32;
        let id1: usize = (first % count) as usize;
        let look_for: bool = if is_true == same {
            truths[id1]
        } else {
            !truths[id1]
        };
        let options: Vec<usize> = matching_positions(truths, id1, look_for);
        proof {
            lemma_candidates(truths@, id1 as int, look_for);
        }
        if options.len() != 0 {
            let id2: usize = options[second as usize % options.len()];
            SentenceDescription {
                sentence: if same {
                    Sentence::IdSentenceAndIdSentenceAreTheSame
                } else {
                    Sentence::IdSentenceAndIdSentenceAreDifferent
                },
                values: vec![Value::Id(id1 as u32 + 1), Value::Id(id2 as u32 + 1)],
            }
        } else {
            let id2: usize = pick_other_than(second, 0, count - 1, id1 as u32) as usize;
            SentenceDescription {
                sentence: if same {
                    Sentence::IdSentenceAndIdSentenceAreDifferent
                } else {
                    Sentence::IdSentenceAndIdSentenceAreTheSame
                },
                values: vec![Value::Id(id1 as u32 + 1), Value::Id(id2 as u32 + 1)],
            }
        }
    }

    /// Writes a sentence for `position` (counted from 0) of `truths` that is
    /// true of `truths` if `is_true` and false if not. The form is drawn from
    /// the six forms, and what the form leaves open is drawn as well.
    pub fn generate(
        is_true: bool,
        position: usize,
        truths: &Vec<bool>,
        rng: &mut StdRng,
    ) -> (made: SentenceDescription)
        requires
            2 <= truths.len() <= u32::MAX,
            position < truths.len(),
        ensures
            written_for(made@, is_true, position as int, truths@),
            made@.fits(),
            made@.refers_within(truths@.len()),
            made@.counts_within(truths@.len()),
            made@.claim(position as int, truths@) == is_true,
    {
        let kind: u32 = draw_u32(rng);
        let form: u32 = kind % 6;
        let ghost at: int = position as int;
        if form == 0 {
            let first: u32 = draw_u32(rng);
            proof {
                lemma_drawn_sentence(is_true, at, truths@, kind as int, false, first as int, 0);
            }
            Self::id_sentence_is_bool(is_true, position, truths, first)
        } else if form == 1 {
            let truth: bool = draw_bool(rng);
            let first: u32 = draw_u32(rng);
            proof {
                lemma_drawn_sentence(is_true, at, truths@, kind as int, truth, first as int, 0);
            }
            Self::there_are_number_of_bool_sentences(is_true, truths, truth, first)
        } else if form == 2 {
            let truth: bool = draw_bool(rng);
            let first: u32 = draw_u32(rng);
            proof {
                lemma_drawn_sentence(is_true, at, truths@, kind as int, truth, first as int, 0);
            }
            Self::closest_bool_is_number_away(is_true, position, truths, truth, first)
        } else if form == 3 {
            let first: u32 = draw_u32(rng);
            proof {
                lemma_drawn_sentence(is_true, at, truths@, kind as int, false, first as int, 0);
            }
            Self::there_are_number_of_alternating_groups(is_true, truths, first)
        } else {
            let first: u32 = draw_u32(rng);
            let second: u32 = draw_u32(rng);
            proof {
                lemma_drawn_sentence(
                    is_true,
                    at,
                    truths@,
                    kind as int,
                    false,
                    first as int,
                    second as int,
                );
            }
            Self::id_sentence_and_id_sentence(is_true, truths, form == 4, first, second)
        }
    }
}

/// The number of sentences that `draw` selects: one of three to six.
pub fn sentence_count(draw: u32) -> (count: usize)
    ensures
        count == draw % 4 + 3,
{
    (draw % 4 + 3) as usize
}

/// Draws a row of three to six truth values.
pub fn generate_truths(rng: &mut StdRng) -> (truths: Vec<bool>)
    ensures
        3 <= truths@.len() <= 6,
{
    let n: usize = sentence_count(draw_u32(rng));
    let mut truths: Vec<bool> = Vec::new();
    let mut i: usize = 0;
    while i < n
        invariant
            i <= n,
            truths@.len() == i,
        decreases n - i,
    {
        truths.push(draw_bool(rng));
        i += 1;
    }
    truths
}

/// Writes a puzzle that `truths` solves: for each position a sentence that is
/// true of `truths` if `truths` marks the position true, and false if not.
pub fn generate_sentences(truths: &Vec<bool>, rng: &mut StdRng) -> (level: Level)
    requires
        2 <= truths.len() <= u32::MAX,
    ensures
        written(level@, truths@),
        solves(level@, truths@),
        all_fit(level@),
        all_refer_within(level@),
        all_count_within(level@),
{
    let mut sentences: Vec<SentenceDescription> = Vec::new();
    let mut i: usize = 0;
    while i < truths.len()
        invariant
            i <= truths.len(),
            2 <= truths.len() <= u32::MAX,
            sentences@.len() == i,
            forall|k: int|
                0 <= k < i ==> written_for((#[trigger] sentences@[k])@, truths@[k], k, truths@),
        decreases truths.len() - i,
    {
        let made: SentenceDescription = SentenceDescription::generate(truths[i], i, truths, rng);
        sentences.push(made);
        i += 1;
    }
    let level: Level = Level { sentences };
    proof {
        assert forall|k: int| 0 <= k < level@.len() implies written_for(
            #[trigger] level@[k],
            truths@[k],
            k,
            truths@,
        ) by {
            assert(level@[k] == level.sentences@[k]@);
        }
        lemma_written(level@, truths@);
    }
    level
}

/// Makes a new puzzle: draws a row of three to six truth values, writes a
/// puzzle that the row solves, and shuffles the values of that puzzle among
/// its slots.
pub fn generate_level(rng: &mut StdRng) -> (level: Level)
    ensures
        3 <= level@.len() <= 6,
        all_fit(level@),
        all_refer_within(level@),
        all_count_within(level@),
        exists|solved: Seq<Statement>, truths: Seq<bool>|
            #[trigger] written(solved, truths) && reshuffled(solved, level@),
{
    let solution_truths: Vec<bool> = generate_truths(rng);
    let solution: Level = generate_sentences(&solution_truths, rng);
    proof {
        lemma_fitting_enough(solution@);
    }
    let level: Level = solution.shuffle(rng);
    proof {
        lemma_reshuffled_within(solution@, level@);
        assert(written(solution@, solution_truths@) && reshuffled(solution@, level@));
    }
    level
}

/// A puzzle written for a row of two or more truth values is solved by that
/// row; each of its sentences has the values that its form takes, names
/// positions of the puzzle only, and holds no number above the number of
/// positions.
pub proof fn lemma_written(level: Seq<Statement>, truths: Seq<bool>)
    requires
        written(level, truths),
        2 <= truths.len() <= u32::MAX,
    ensures
        solves(level, truths),
        all_fit(level),
        all_refer_within(level),
        all_count_within(level),
{
    assert forall|i: int| 0 <= i < level.len() implies {
        &&& (#[trigger] level[i]).consistent(i, truths)
        &&& level[i].fits()
        &&& level[i].refers_within(level.len())
        &&& level[i].counts_within(level.len())
    } by {
        let (kind, truth, first, second): (u32, bool, u32, u32) = choose|
            kind: u32,
            truth: bool,
            first: u32,
            second: u32,
        |
            level[i] == #[trigger] Statement::drawn(
                truths[i],
                i,
                truths,
                kind as int,
                truth,
                first as int,
                second as int,
            );
        lemma_drawn_sentence(truths[i], i, truths, kind as int, truth, first as int, second as int);
    }
}

/// A sentence made by the draws for a row of two or more entries has the
/// values that its form takes, names positions of the row only, holds no
/// number above the length of the row, and claims of the row what was asked:
/// something true if `is_true`, something false if not.
pub proof fn lemma_drawn_sentence(
    is_true: bool,
    at: int,
    truths: Seq<bool>,
    kind: int,
    truth: bool,
    first: int,
    second: int,
)
    requires
        2 <= truths.len() <= u32::MAX,
        0 <= at < truths.len(),
        0 <= kind,
        0 <= first,
        0 <= second,
    ensures
        Statement::drawn(is_true, at, truths, kind, truth, first, second).fits(),
        Statement::drawn(is_true, at, truths, kind, truth, first, second).refers_within(
            truths.len(),
        ),
        Statement::drawn(is_true, at, truths, kind, truth, first, second).counts_within(
            truths.len(),
        ),
        Statement::drawn(is_true, at, truths, kind, truth, first, second).claim(at, truths)
            == is_true,
{
    let count: int = truths.len() as int;
    if kind % 6 == 0 {
    } else if kind % 6 == 1 {
        lemma_count_of_bound(truths, truth);
    } else if kind % 6 == 2 {
        lemma_closest_sentence(is_true, at, truths, truth, first);
    } else if kind % 6 == 3 {
        lemma_groups_bound(truths);
    } else {
        let same: bool = kind % 6 == 4;
        let one: int = first % count;
        let look_for: bool = if is_true == same {
            truths[one]
        } else {
            !truths[one]
        };
        lemma_candidates(truths, one, look_for);
        let options: Seq<int> = candidates(truths, one, look_for);
        if options.len() != 0 {
            let two: int = options[second % (options.len() as int)];
            assert(0 <= two < count && two != one && truths[two] == look_for);
        } else {
            let two: int = range_other_than(second, 0, count - 1, one);
            assert(truths[two] != look_for) by {
                if truths[two] == look_for {
                    assert(options.contains(two));
                }
            }
        }
    }
}

/// In a sentence made by the draws for a row of two or more entries every
/// number is at least 1, but for one case: the true sentence that counts a
/// truth value which the row does not hold, whose number is 0.
pub proof fn lemma_drawn_numbers(
    is_true: bool,
    at: int,
    truths: Seq<bool>,
    kind: int,
    truth: bool,
    first: int,
    second: int,
)
    requires
        2 <= truths.len() <= u32::MAX,
        0 <= at < truths.len(),
        0 <= kind,
        0 <= first,
        0 <= second,
        !(kind % 6 == 1 && is_true && count_of(truths, truth) == 0),
    ensures
        Statement::drawn(is_true, at, truths, kind, truth, first, second).counts_from(1),
{
    lemma_count_of_bound(truths, truth);
    lemma_groups_bound(truths);
    lemma_nearest(truths, at, truth);
}

/// The sentence about the closest truth value claims what was asked, and its
/// distance is from 1 to the length of the row.
proof fn lemma_closest_sentence(is_true: bool, at: int, truths: Seq<bool>, truth: bool, draw: int)
    requires
        2 <= truths.len() <= u32::MAX,
        0 <= at < truths.len(),
        0 <= draw,
    ensures
        Statement::closest_bool_is_number_away(is_true, at, truths, truth, draw).fits(),
        Statement::closest_bool_is_number_away(is_true, at, truths, truth, draw).counts_within(
            truths.len(),
        ),
        Statement::closest_bool_is_number_away(is_true, at, truths, truth, draw).claim(at, truths)
            == is_true,
{
    let found: int = nearest(truths, at, truth);
    let count: int = truths.len() as int;
    lemma_nearest(truths, at, truth);
    if found == 0 {
        if is_true {
            if at + 1 < count {
                assert(truths[at + 1] == !truth);
            } else {
                assert(truths[at - 1] == !truth);
            }
            assert(hit_at(truths, at, !truth, 1));
            assert(closest_is(truths, at, !truth, 1));
        } else {
            let number: int = draw % count + 1;
            assert(!hit_at(truths, at, truth, number));
        }
    } else {
        if !is_true {
            let number: int = range_other_than(draw, 1, count, found);
            if closest_is(truths, at, truth, number) {
                assert(number == found);
            }
        }
    }
}

} // verus!
