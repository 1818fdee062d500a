//! The six forms of sentence, and what each of them claims.

use crate::truths::{closest_is, count_of, groups};
use crate::value::{Category, Value};
use vstd::prelude::*;

verus! {

/// The form of a sentence. Each form has its own slots for values, and reads
/// them as the comment on it says.
#[derive(Clone, Copy, PartialEq, Eq, Debug, Structural)]
pub enum Sentence {
    /// "`Id` sentence is `Bool`": the sentence at that position has that
    /// truth value.
    IdSentenceIsBool,
    /// "There are `Number` sentences that are `Bool`": so many positions have
    /// that truth value.
    ThereAreNumberOfBoolSentences,
    /// "The closest `Bool` sentence is `Number` spots away": the nearest other
    /// position with that truth value is at that distance.
    ClosestBoolIsNumberAway,
    /// "There are `Number` alternating groups": the truth values fall into so
    /// many maximal runs of equal neighbours.
    ThereAreNumberOfAlternatingGroups,
    /// "Both `Id` and `Id` sentences have the same truth value".
    IdSentenceAndIdSentenceAreTheSame,
    /// "Both `Id` and `Id` sentences have the opposite truth values".
    IdSentenceAndIdSentenceAreDifferent,
}

impl Sentence {
    /// The categories of the slots of this form, from left to right.
    pub open spec fn slots(self) -> Seq<Category> {
        match self {
            Sentence::IdSentenceIsBool => seq![Category::Id, Category::Bool],
            Sentence::ThereAreNumberOfBoolSentences => seq![Category::Number, Category::Bool],
            Sentence::ClosestBoolIsNumberAway => seq![Category::Bool, Category::Number],
            Sentence::ThereAreNumberOfAlternatingGroups => seq![Category::Number],
            Sentence::IdSentenceAndIdSentenceAreTheSame => seq![Category::Id, Category::Id],
            Sentence::IdSentenceAndIdSentenceAreDifferent => seq![Category::Id, Category::Id],
        }
    }

    /// How many slots of this form take values of `category`.
    pub open spec fn needs(self, category: Category) -> nat {
        match (self, category) {
            (Sentence::IdSentenceIsBool, Category::Id) => 1,
            (Sentence::IdSentenceIsBool, Category::Bool) => 1,
            (Sentence::ThereAreNumberOfBoolSentences, Category::Number) => 1,
            (Sentence::ThereAreNumberOfBoolSentences, Category::Bool) => 1,
            (Sentence::ClosestBoolIsNumberAway, Category::Bool) => 1,
            (Sentence::ClosestBoolIsNumberAway, Category::Number) => 1,
            (Sentence::ThereAreNumberOfAlternatingGroups, Category::Number) => 1,
            (Sentence::IdSentenceAndIdSentenceAreTheSame, Category::Id) => 2,
            (Sentence::IdSentenceAndIdSentenceAreDifferent, Category::Id) => 2,
            _ => 0,
        }
    }
}

/// A sentence with its slots filled.
#[derive(Clone, PartialEq, Eq, Debug)]
pub struct SentenceDescription {
    pub sentence: Sentence,
    pub values: Vec<Value>,
}

/// What a `SentenceDescription` stands for: a form and the row of its values.
pub struct Statement {
    pub sentence: Sentence,
    pub values: Seq<Value>,
}

impl View for SentenceDescription {
    type V = Statement;

    open spec fn view(&self) -> Statement {
        Statement { sentence: self.sentence, values: self.values@ }
    }
}

impl Statement {
    /// The values are as many as the form has slots, each of its slot's
    /// category.
    pub open spec fn fits(self) -> bool {
        &&& self.values.len() == self.sentence.slots().len()
        &&& forall|slot: int|
            0 <= slot < self.values.len() ==> (#[trigger] self.values[slot]).category()
                == self.sentence.slots()[slot]
    }

    /// Every `Id` among the values names one of the positions 1 to `count`.
    pub open spec fn refers_within(self, count: nat) -> bool {
        forall|slot: int|
            0 <= slot < self.values.len() && (#[trigger] self.values[slot]) is Id ==> 1
                <= self.values[slot].id() <= count
    }

    /// No `Number` among the values is more than `count`.
    pub open spec fn counts_within(self, count: nat) -> bool {
        forall|slot: int|
            0 <= slot < self.values.len() && (#[trigger] self.values[slot]) is Number
                ==> self.values[slot].number() <= count
    }

    /// No `Number` among the values is less than `least`.
    pub open spec fn counts_from(self, least: nat) -> bool {
        forall|slot: int|
            0 <= slot < self.values.len() && (#[trigger] self.values[slot]) is Number ==> least
                <= self.values[slot].number()
    }

    /// What the sentence says of the row `truths`, when it stands at index
    /// `at` of that row (its position less one).
    pub open spec fn claim(self, at: int, truths: Seq<bool>) -> bool
        recommends
            self.fits(),
            self.refers_within(truths.len()),
            0 <= at < truths.len(),
    {
        match self.sentence {
            Sentence::IdSentenceIsBool => truths[self.values[0].id() - 1]
                == self.values[1].truth(),
            Sentence::ThereAreNumberOfBoolSentences => count_of(truths, self.values[1].truth())
                == self.values[0].number(),
            Sentence::ClosestBoolIsNumberAway => closest_is(
                truths,
                at,
                self.values[0].truth(),
                self.values[1].number(),
            ),
            Sentence::ThereAreNumberOfAlternatingGroups => groups(truths)
                == self.values[0].number(),
            Sentence::IdSentenceAndIdSentenceAreTheSame => truths[self.values[0].id() - 1]
                == truths[self.values[1].id() - 1],
            Sentence::IdSentenceAndIdSentenceAreDifferent => truths[self.values[0].id() - 1]
                != truths[self.values[1].id() - 1],
        }
    }

    /// The sentence's claim about `truths` has the truth value that `truths`
    /// gives to the sentence itself.
    pub open spec fn consistent(self, at: int, truths: Seq<bool>) -> bool
        recommends
            self.fits(),
            self.refers_within(truths.len()),
            0 <= at < truths.len(),
    {
        self.claim(at, truths) == truths[at]
    }
}

} // verus!
