//! A puzzle: a row of sentences, one for each position.
//!
//! A puzzle can be taken apart into the forms of its sentences and, for each
//! category, the values that its slots hold, and put together again from
//! those. Shuffling does both, and in between brings the values of each
//! category into a random order.

use crate::chance::shuffle_values;
use crate::evaluate::Evaluation;
use crate::exchange::lemma_exchanged;
use crate::generate::{generate_level, written};
use crate::pools::{enough, lemma_shuffle_of, reshuffled, shuffle_of};
use crate::sentence::{Sentence, SentenceDescription, Statement};
use crate::value::{Category, SentenceId, Value};
use rand::rngs::StdRng;
use vstd::prelude::*;

verus! {

/// A puzzle. The sentence at index `i` stands at position `i + 1`.
#[derive(Clone, PartialEq, Eq, Debug)]
pub struct Level {
    pub sentences: Vec<SentenceDescription>,
}

/// The number of the level that is being played.
#[derive(Clone, Copy, PartialEq, Eq, Debug, Structural)]
pub struct CurrentLevel(pub u32);

impl Default for CurrentLevel {
    /// Before any level is played, the number is 0.
    fn default() -> (level: CurrentLevel)
        ensures
            level.0 == 0,
    {
        CurrentLevel(0)
    }
}

impl CurrentLevel {
    /// Takes note of a judgement: a marking that passed ends the level, and
    /// the next one begins; after any other the level goes on. Tells whether
    /// a new level began, which calls for a new puzzle.
    pub fn record(&mut self, evaluation: &Evaluation) -> (next: bool)
        requires
            evaluation.pass ==> old(self).0 < u32::MAX,
        ensures
            next == evaluation.pass,
            final(self).0 == if evaluation.pass {
                old(self).0 + 1
            } else {
                old(self).0 as int
            },
    {
        if evaluation.pass {
            self.0 += 1;
        }
        evaluation.pass
    }
}

/// What a row of `SentenceDescription`s stands for.
pub open spec fn statements(sentences: Seq<SentenceDescription>) -> Seq<Statement> {
    Seq::new(sentences.len(), |i: int| sentences[i]@)
}

impl View for Level {
    type V = Seq<Statement>;

    open spec fn view(&self) -> Seq<Statement> {
        statements(self.sentences@)
    }
}

/// The forms of the sentences of a puzzle, in order.
pub open spec fn kinds(level: Seq<Statement>) -> Seq<Sentence> {
    Seq::new(level.len(), |i: int| level[i].sentence)
}

/// The test that a value is of `category`.
pub open spec fn has_category(category: Category) -> spec_fn(Value) -> bool {
    |value: Value| value.category() == category
}

/// All values of a puzzle: those of the first sentence from left to right,
/// then those of the second, and so on.
pub open spec fn all_values(level: Seq<Statement>) -> Seq<Value> {
    Seq::new(level.len(), |i: int| level[i].values).flatten()
}

/// The values of `category` that a puzzle holds, in the order of
/// `all_values`.
pub open spec fn pool(level: Seq<Statement>, category: Category) -> Seq<Value> {
    all_values(level).filter(has_category(category))
}

/// Every sentence of the puzzle has the values that its form takes.
pub open spec fn all_fit(level: Seq<Statement>) -> bool {
    forall|i: int| 0 <= i < level.len() ==> (#[trigger] level[i]).fits()
}

/// Every `Id` in the puzzle names one of the puzzle's positions.
pub open spec fn all_refer_within(level: Seq<Statement>) -> bool {
    forall|i: int| 0 <= i < level.len() ==> (#[trigger] level[i]).refers_within(level.len())
}

/// No `Number` in the puzzle is more than the puzzle has positions.
pub open spec fn all_count_within(level: Seq<Statement>) -> bool {
    forall|i: int| 0 <= i < level.len() ==> (#[trigger] level[i]).counts_within(level.len())
}

/// The marking `truths` is consistent with the puzzle: it marks every
/// position, and what each sentence claims of it has the truth value that it
/// gives to that sentence.
pub open spec fn solves(level: Seq<Statement>, truths: Seq<bool>) -> bool {
    &&& truths.len() == level.len()
    &&& forall|i: int| 0 <= i < level.len() ==> (#[trigger] level[i]).consistent(i, truths)
}

/// How many slots for values of `category` the forms `forms` have together.
pub open spec fn demand(forms: Seq<Sentence>, category: Category) -> nat
    decreases forms.len(),
{
    if forms.len() == 0 {
        0
    } else {
        demand(forms.drop_last(), category) + forms.last().needs(category)
    }
}

/// Among no values there are none of any kind.
pub proof fn lemma_filter_none(pred: spec_fn(Value) -> bool)
    ensures
        Seq::<Value>::empty().filter(pred) == Seq::<Value>::empty(),
{
    Seq::<Value>::empty().lemma_filter_len(pred);
    assert(Seq::<Value>::empty().filter(pred) =~= Seq::<Value>::empty());
}

/// A puzzle without sentences holds no values.
pub proof fn lemma_pool_of_none(category: Category)
    ensures
        all_values(Seq::<Statement>::empty()) == Seq::<Value>::empty(),
        pool(Seq::<Statement>::empty(), category) == Seq::<Value>::empty(),
{
    let none: Seq<Statement> = Seq::empty();
    assert(Seq::new(none.len(), |i: int| none[i].values) =~= Seq::<Seq<Value>>::empty());
    assert(all_values(none) =~= Seq::<Value>::empty());
    lemma_filter_none(has_category(category));
}

/// One sentence more adds its values to the end of all values, and those of
/// `category` among them to the end of that category's pool.
pub proof fn lemma_pool_push(level: Seq<Statement>, statement: Statement, category: Category)
    ensures
        all_values(level.push(statement)) == all_values(level) + statement.values,
        pool(level.push(statement), category) == pool(level, category)
            + statement.values.filter(has_category(category)),
{
    let rows: Seq<Seq<Value>> = Seq::new(level.len(), |i: int| level[i].values);
    let longer: Seq<Statement> = level.push(statement);
    assert(Seq::new(longer.len(), |i: int| longer[i].values) =~= rows.push(statement.values));
    rows.lemma_flatten_push(statement.values);
    Seq::filter_distributes_over_add(
        all_values(level),
        statement.values,
        has_category(category),
    );
}

/// What is left of `pool` once the sentences of the forms `served` have
/// taken their values of `category` from its end.
pub open spec fn left(pool: Seq<Value>, served: Seq<Sentence>, category: Category) -> Seq<Value> {
    pool.take(pool.len() - demand(served, category))
}

/// The sentence of form `sentence` with its slots filled, from left to right,
/// from the ends of the pools: each slot takes the last value of its
/// category's pool that no slot before it has taken.
pub open spec fn filled(
    sentence: Sentence,
    ids: Seq<Value>,
    numbers: Seq<Value>,
    bools: Seq<Value>,
) -> Statement {
    let values: Seq<Value> = match sentence {
        Sentence::IdSentenceIsBool => seq![ids[ids.len() - 1], bools[bools.len() - 1]],
        Sentence::ThereAreNumberOfBoolSentences => seq![
            numbers[numbers.len() - 1],
            bools[bools.len() - 1],
        ],
        Sentence::ClosestBoolIsNumberAway => seq![
            bools[bools.len() - 1],
            numbers[numbers.len() - 1],
        ],
        Sentence::ThereAreNumberOfAlternatingGroups => seq![numbers[numbers.len() - 1]],
        Sentence::IdSentenceAndIdSentenceAreTheSame => seq![
            ids[ids.len() - 1],
            ids[ids.len() - 2],
        ],
        Sentence::IdSentenceAndIdSentenceAreDifferent => seq![
            ids[ids.len() - 1],
            ids[ids.len() - 2],
        ],
    };
    Statement { sentence, values }
}

/// The puzzle with sentences of the forms `forms` whose slots are filled from
/// the three pools: the first sentence is filled from the ends of the pools,
/// and each later one from the ends of what the sentences before it left.
pub open spec fn dealt(
    forms: Seq<Sentence>,
    ids: Seq<Value>,
    numbers: Seq<Value>,
    bools: Seq<Value>,
) -> Seq<Statement> {
    Seq::new(
        forms.len(),
        |i: int|
            filled(
                forms[i],
                left(ids, forms.take(i), Category::Id),
                left(numbers, forms.take(i), Category::Number),
                left(bools, forms.take(i), Category::Bool),
            ),
    )
}

/// The first forms of a row have no more slots than the whole row.
pub proof fn lemma_demand_grows(forms: Seq<Sentence>, first: int, category: Category)
    requires
        0 <= first <= forms.len(),
    ensures
        demand(forms.take(first), category) <= demand(forms, category),
        first < forms.len() ==> demand(forms.take(first + 1), category) == demand(
            forms.take(first),
            category,
        ) + forms[first].needs(category),
    decreases forms.len() - first,
{
    if first < forms.len() {
        assert(forms.take(first + 1).drop_last() =~= forms.take(first));
        lemma_demand_grows(forms, first + 1, category);
    } else {
        assert(forms.take(first) =~= forms);
    }
}

/// The slot with index `slot` of the sentence at `position` is one of the
/// puzzle's slots.
pub open spec fn has_slot(level: Seq<Statement>, position: SentenceId, slot: int) -> bool {
    &&& 1 <= position.0 <= level.len()
    &&& 0 <= slot < level[position.0 - 1].values.len()
}

/// Both slots are slots of the puzzle, and their values are of one category.
pub open spec fn can_exchange(
    level: Seq<Statement>,
    position1: SentenceId,
    slot1: int,
    position2: SentenceId,
    slot2: int,
) -> bool {
    &&& has_slot(level, position1, slot1)
    &&& has_slot(level, position2, slot2)
    &&& level[position1.0 - 1].values[slot1].category() == level[position2.0
        - 1].values[slot2].category()
}

/// The puzzle with `value` in the slot with index `slot` of the sentence at
/// index `at`.
pub open spec fn with_value(
    level: Seq<Statement>,
    at: int,
    slot: int,
    value: Value,
) -> Seq<Statement> {
    level.update(
        at,
        Statement { sentence: level[at].sentence, values: level[at].values.update(slot, value) },
    )
}

/// The puzzle with the values of the two slots exchanged.
pub open spec fn exchanged(
    level: Seq<Statement>,
    position1: SentenceId,
    slot1: int,
    position2: SentenceId,
    slot2: int,
) -> Seq<Statement> {
    let value1: Value = level[position1.0 - 1].values[slot1];
    let value2: Value = level[position2.0 - 1].values[slot2];
    with_value(
        with_value(level, position1.0 - 1, slot1, value2),
        position2.0 - 1,
        slot2,
        value1,
    )
}

impl Level {
    /// Takes the puzzle apart: the forms of its sentences in order, and the
    /// values of its slots sorted by category into three pools: the `Id`s,
    /// the `Number`s and the `Bool`s, each in the order in which the puzzle
    /// holds them.
    pub fn take_apart(&self) -> (parts: (Vec<Sentence>, Vec<Value>, Vec<Value>, Vec<Value>))
        ensures
            parts.0@ == kinds(self@),
            parts.1@ == pool(self@, Category::Id),
            parts.2@ == pool(self@, Category::Number),
            parts.3@ == pool(self@, Category::Bool),
    {
        let mut sentences: Vec<Sentence> = Vec::new();
        let mut ids: Vec<Value> = Vec::new();
        let mut numbers: Vec<Value> = Vec::new();
        let mut bools: Vec<Value> = Vec::new();
        let mut i: usize = 0;
        proof {
            assert(self@.take(0) =~= Seq::<Statement>::empty());
            lemma_pool_of_none(Category::Id);
            lemma_pool_of_none(Category::Number);
            lemma_pool_of_none(Category::Bool);
        }
        while i < self.sentences.len()
            invariant
                i <= self.sentences.len(),
                sentences@ =~= kinds(self@.take(i as int)),
                ids@ =~= pool(self@.take(i as int), Category::Id),
                numbers@ =~= pool(self@.take(i as int), Category::Number),
                bools@ =~= pool(self@.take(i as int), Category::Bool),
            decreases self.sentences.len() - i,
        {
            let sentence: &SentenceDescription = &self.sentences[i];
            sentences.push(sentence.sentence);
            let ghost before: Seq<Statement> = self@.take(i as int);
            let ghost values: Seq<Value> = sentence.values@;
            let mut j: usize = 0;
            proof {
                assert(values.take(0) =~= Seq::<Value>::empty());
                lemma_filter_none(has_category(Category::Id));
                lemma_filter_none(has_category(Category::Number));
                lemma_filter_none(has_category(Category::Bool));
            }
            while j < sentence.values.len()
                invariant
                    j <= sentence.values.len(),
                    values == sentence.values@,
                    ids@ =~= pool(before, Category::Id) + values.take(j as int).filter(
                        has_category(Category::Id),
                    ),
                    numbers@ =~= pool(before, Category::Number) + values.take(j as int).filter(
                        has_category(Category::Number),
                    ),
                    bools@ =~= pool(before, Category::Bool) + values.take(j as int).filter(
                        has_category(Category::Bool),
                    ),
                decreases sentence.values.len() - j,
            {
                let value: Value = sentence.values[j];
                proof {
                    assert(values.take(j + 1) =~= values.take(j as int).push(value));
                    values.take(j as int).lemma_filter_push(value, has_category(Category::Id));
                    values.take(j as int).lemma_filter_push(
                        value,
                        has_category(Category::Number),
                    );
                    values.take(j as int).lemma_filter_push(value, has_category(Category::Bool));
                }
                match value {
                    Value::Id(_) => ids.push(value),
                    Value::Number(_) => numbers.push(value),
                    Value::Bool(_) => bools.push(value),
                }
                j += 1;
            }
            proof {
                assert(values.take(j as int) =~= values);
                assert(self@.take(i + 1) =~= before.push(self@[i as int]));
                lemma_pool_push(before, self@[i as int], Category::Id);
                lemma_pool_push(before, self@[i as int], Category::Number);
                lemma_pool_push(before, self@[i as int], Category::Bool);
            }
            i += 1;
        }
        proof {
            assert(self@.take(i as int) =~= self@);
        }
        (sentences, ids, numbers, bools)
    }

    /// Puts a puzzle together from the forms of its sentences and three pools
    /// of values: the sentences are filled in order, each slot with the value
    /// that is then last in the pool of its category. The pools must hold
    /// enough values for all the slots.
    pub fn put_together(
        sentences: Vec<Sentence>,
        ids: Vec<Value>,
        numbers: Vec<Value>,
        bools: Vec<Value>,
    ) -> (level: Level)
        requires
            demand(sentences@, Category::Id) <= ids@.len(),
            demand(sentences@, Category::Number) <= numbers@.len(),
            demand(sentences@, Category::Bool) <= bools@.len(),
        ensures
            level@ == dealt(sentences@, ids@, numbers@, bools@),
    {
        let mut ids: Vec<Value> = ids;
        let mut numbers: Vec<Value> = numbers;
        let mut bools: Vec<Value> = bools;
        let ghost all_ids: Seq<Value> = ids@;
        let ghost all_numbers: Seq<Value> = numbers@;
        let ghost all_bools: Seq<Value> = bools@;
        let mut made: Vec<SentenceDescription> = Vec::new();
        let mut i: usize = 0;
        proof {
            assert(sentences@.take(0) =~= Seq::<Sentence>::empty());
            assert(all_ids.take(all_ids.len() as int) =~= all_ids);
            assert(all_numbers.take(all_numbers.len() as int) =~= all_numbers);
            assert(all_bools.take(all_bools.len() as int) =~= all_bools);
        }
        while i < sentences.len()
            invariant
                i <= sentences.len(),
                demand(sentences@, Category::Id) <= all_ids.len(),
                demand(sentences@, Category::Number) <= all_numbers.len(),
                demand(sentences@, Category::Bool) <= all_bools.len(),
                ids@ == left(all_ids, sentences@.take(i as int), Category::Id),
                numbers@ == left(all_numbers, sentences@.take(i as int), Category::Number),
                bools@ == left(all_bools, sentences@.take(i as int), Category::Bool),
                made@.len() == i,
                forall|k: int|
                    0 <= k < i ==> (#[trigger] made@[k])@ == dealt(
                        sentences@,
                        all_ids,
                        all_numbers,
                        all_bools,
                    )[k],
            decreases sentences.len() - i,
        {
            let sentence: Sentence = sentences[i];
            proof {
                lemma_demand_grows(sentences@, i as int, Category::Id);
                lemma_demand_grows(sentences@, i as int, Category::Number);
                lemma_demand_grows(sentences@, i as int, Category::Bool);
                lemma_demand_grows(sentences@, i + 1, Category::Id);
                lemma_demand_grows(sentences@, i + 1, Category::Number);
                lemma_demand_grows(sentences@, i + 1, Category::Bool);
            }
            let ghost ids_before: Seq<Value> = ids@;
            let ghost numbers_before: Seq<Value> = numbers@;
            let ghost bools_before: Seq<Value> = bools@;
            let values: Vec<Value> = match sentence {
                Sentence::IdSentenceIsBool => {
                    let id: Value = ids.pop().unwrap();
                    let truth: Value = bools.pop().unwrap();
                    vec![id, truth]
                },
                Sentence::ThereAreNumberOfBoolSentences => {
                    let number: Value = numbers.pop().unwrap();
                    let truth: Value = bools.pop().unwrap();
                    vec![number, truth]
                },
                Sentence::ClosestBoolIsNumberAway => {
                    let truth: Value = bools.pop().unwrap();
                    let number: Value = numbers.pop().unwrap();
                    vec![truth, number]
                },
                Sentence::ThereAreNumberOfAlternatingGroups => {
                    let number: Value = numbers.pop().unwrap();
                    vec![number]
                },
                Sentence::IdSentenceAndIdSentenceAreTheSame
                | Sentence::IdSentenceAndIdSentenceAreDifferent => {
                    let id1: Value = ids.pop().unwrap();
                    let id2: Value = ids.pop().unwrap();
                    vec![id1, id2]
                },
            };
            proof {
                assert(values@ =~= filled(
                    sentence,
                    ids_before,
                    numbers_before,
                    bools_before,
                ).values);
                assert(ids@ =~= left(all_ids, sentences@.take(i + 1), Category::Id));
                assert(numbers@ =~= left(all_numbers, sentences@.take(i + 1), Category::Number));
                assert(bools@ =~= left(all_bools, sentences@.take(i + 1), Category::Bool));
            }
            made.push(SentenceDescription { sentence, values });
            i += 1;
        }
        let level: Level = Level { sentences: made };
        proof {
            assert(level@ =~= dealt(sentences@, all_ids, all_numbers, all_bools));
        }
        level
    }

    /// Shuffles the values of the puzzle among its slots: takes the puzzle
    /// apart, brings the values of each category into a random order, and
    /// puts the puzzle together again. Every sentence keeps its form and
    /// position, and has then the values that its form takes. Where that was
    /// so before, each category keeps its values. The pools must be large
    /// enough to fill the slots of the forms.
    pub fn shuffle(&self, rng: &mut StdRng) -> (shuffled: Level)
        requires
            enough(self@),
        ensures
            shuffle_of(self@, shuffled@),
            kinds(shuffled@) == kinds(self@),
            all_fit(shuffled@),
            all_fit(self@) ==> reshuffled(self@, shuffled@),
    {
        let (sentences, mut ids, mut numbers, mut bools) = self.take_apart();
        shuffle_values(&mut ids, rng);
        shuffle_values(&mut numbers, rng);
        shuffle_values(&mut bools, rng);
        proof {
            ids@.to_multiset_ensures();
            numbers@.to_multiset_ensures();
            bools@.to_multiset_ensures();
            pool(self@, Category::Id).to_multiset_ensures();
            pool(self@, Category::Number).to_multiset_ensures();
            pool(self@, Category::Bool).to_multiset_ensures();
        }
        let shuffled: Level = Level::put_together(sentences, ids, numbers, bools);
        proof {
            assert(shuffled@ == dealt(kinds(self@), ids@, numbers@, bools@));
            lemma_shuffle_of(self@, shuffled@);
        }
        shuffled
    }

    /// Makes the puzzle of a level. Every level is a new puzzle, made as
    /// `generate_level` makes it, whatever the level's number.
    pub fn get(_level_id: u32, rng: &mut StdRng) -> (level: Level)
        ensures
            3 <= level@.len() <= 6,
            all_fit(level@),
            all_refer_within(level@),
            all_count_within(level@),
            exists|solved: Seq<Statement>, truths: Seq<bool>|
                #[trigger] written(solved, truths) && reshuffled(solved, level@),
    {
        generate_level(rng)
    }

    /// Exchanges the values of two slots, each given by the position of its
    /// sentence and its index among the slots of that sentence (from 0), if
    /// both are slots of the puzzle and hold values of one category. Else the
    /// puzzle stays as it is. Tells whether the values were exchanged. Either
    /// way every sentence keeps its form, and each category its values.
    pub fn swap_values(
        &mut self,
        position1: SentenceId,
        slot1: usize,
        position2: SentenceId,
        slot2: usize,
    ) -> (done: bool)
        ensures
            done == can_exchange(old(self)@, position1, slot1 as int, position2, slot2 as int),
            done ==> final(self)@ == exchanged(
                old(self)@,
                position1,
                slot1 as int,
                position2,
                slot2 as int,
            ),
            !done ==> final(self)@ == old(self)@,
            all_fit(old(self)@) ==> reshuffled(old(self)@, final(self)@),
            all_refer_within(old(self)@) ==> all_refer_within(final(self)@),
            all_count_within(old(self)@) ==> all_count_within(final(self)@),
    {
        let count: usize = self.sentences.len();
        if position1.0 < 1 || position1.0 as usize > count {
            return false;
        }
        if position2.0 < 1 || position2.0 as usize > count {
            return false;
        }
        let at1: usize = (position1.0 - 1) as usize;
        let at2: usize = (position2.0 - 1) as usize;
        if slot1 >= self.sentences[at1].values.len() || slot2 >= self.sentences[at2].values.len() {
            return false;
        }
        let value1: Value = self.sentences[at1].values[slot1];
        let value2: Value = self.sentences[at2].values[slot2];
        if value1.kind() != value2.kind() {
            return false;
        }
        self.sentences[at1].values.set(slot1, value2);
        self.sentences[at2].values.set(slot2, value1);
        proof {
            assert(self@ =~= exchanged(
                old(self)@,
                position1,
                slot1 as int,
                position2,
                slot2 as int,
            ));
            lemma_exchanged(old(self)@, position1, slot1 as int, position2, slot2 as int);
        }
        true
    }
}

} // verus!
