//! The wording of sentences and values.

use crate::evaluate::PuzzleError;
use crate::sentence::{Sentence, SentenceDescription, Statement};
use crate::value::{SentenceId, Value};
use vstd::prelude::*;

verus! {

/// The character for a digit from 0 to 9.
pub open spec fn digit(value: nat) -> char {
    if value == 0 {
        '0'
    } else if value == 1 {
        '1'
    } else if value == 2 {
        '2'
    } else if value == 3 {
        '3'
    } else if value == 4 {
        '4'
    } else if value == 5 {
        '5'
    } else if value == 6 {
        '6'
    } else if value == 7 {
        '7'
    } else if value == 8 {
        '8'
    } else {
        '9'
    }
}

/// A number written in decimal digits, without leading zeros.
pub open spec fn decimal(number: nat) -> Seq<char>
    decreases number,
{
    if number < 10 {
        seq![digit(number)]
    } else {
        decimal(number / 10).push(digit(number % 10))
    }
}

/// The ending that makes a number an ordinal: it goes by the last digit.
pub open spec fn ordinal_ending(number: nat) -> Seq<char> {
    if number % 10 == 1 {
        "st"@
    } else if number % 10 == 2 {
        "nd"@
    } else if number % 10 == 3 {
        "rd"@
    } else {
        "th"@
    }
}

impl Value {
    /// The wording of this value in the sentence at position `sentence_id`:
    /// an `Id` reads "This" where it names that sentence itself, and else as
    /// an ordinal; a `Bool` reads "true" or "false"; a `Number` is written in
    /// decimal digits.
    pub open spec fn text(self, sentence_id: SentenceId) -> Seq<char> {
        match self {
            Value::Id(id) => if id == sentence_id.0 {
                "This"@
            } else {
                decimal(id as nat) + ordinal_ending(id as nat)
            },
            Value::Bool(truth) => if truth {
                "true"@
            } else {
                "false"@
            },
            Value::Number(number) => decimal(number as nat),
        }
    }

    /// Words this value for the sentence at position `sentence_id`.
    pub fn to_string(&self, sentence_id: SentenceId) -> (text: String)
        ensures
            text@ == self.text(sentence_id),
    {
        match *self {
            Value::Id(id) => {
                if id == sentence_id.0 {
                    String::from_str("This")
                } else {
                    let mut text: String = decimal_string(id as u64);
                    if id % 10 == 1 {
                        text.append("st");
                    } else if id % 10 == 2 {
                        text.append("nd");
                    } else if id % 10 == 3 {
                        text.append("rd");
                    } else {
                        text.append("th");
                    }
                    text
                }
            },
            Value::Bool(truth) => {
                if truth {
                    String::from_str("true")
                } else {
                    String::from_str("false")
                }
            },
            Value::Number(number) => decimal_string(number as u64),
        }
    }
}

/// The digit from 0 to 9 as a string of one character.
fn digit_str(value: u8) -> (text: &'static str)
    requires
        value < 10,
    ensures
        text@ == seq![digit(value as nat)],
{
    proof {
        reveal_strlit("0");
        reveal_strlit("1");
        reveal_strlit("2");
        reveal_strlit("3");
        reveal_strlit("4");
        reveal_strlit("5");
        reveal_strlit("6");
        reveal_strlit("7");
        reveal_strlit("8");
        reveal_strlit("9");
    }
    let text: &'static str = if value == 0 {
        "0"
    } else if value == 1 {
        "1"
    } else if value == 2 {
        "2"
    } else if value == 3 {
        "3"
    } else if value == 4 {
        "4"
    } else if value == 5 {
        "5"
    } else if value == 6 {
        "6"
    } else if value == 7 {
        "7"
    } else if value == 8 {
        "8"
    } else {
        "9"
    };
    assert(text@ =~= seq![digit(value as nat)]);
    text
}

/// Writes a number in decimal digits.
pub fn decimal_string(number: u64) -> (text: String)
    ensures
        text@ == decimal(number as nat),
    decreases number,
{
    let last: &'static str = digit_str((number % 10) as u8);
    if number < 10 {
        String::from_str(last)
    } else {
        let mut text: String = decimal_string(number / 10);
        text.append(last);
        assert(text@ =~= decimal(number as nat));
        text
    }
}

impl Sentence {
    /// The fixed words of this form: those before the first slot, those
    /// between one slot and the next, and those after the last slot.
    pub open spec fn wording(self) -> Seq<Seq<char>> {
        match self {
            Sentence::IdSentenceIsBool => seq![""@, " sentence is "@, ""@],
            Sentence::ThereAreNumberOfBoolSentences => seq![
                "There are "@,
                " sentences that are "@,
                ""@,
            ],
            Sentence::ClosestBoolIsNumberAway => seq![
                "The closest "@,
                " sentence is "@,
                " spots away"@,
            ],
            Sentence::ThereAreNumberOfAlternatingGroups => seq![
                "There are "@,
                " alternating groups"@,
            ],
            Sentence::IdSentenceAndIdSentenceAreTheSame => seq![
                "Both "@,
                " and "@,
                " sentences have the same truth value"@,
            ],
            Sentence::IdSentenceAndIdSentenceAreDifferent => seq![
                "Both "@,
                " and "@,
                " sentences have the opposite truth values"@,
            ],
        }
    }

    /// Gives the fixed words of this form, one piece more than the form has
    /// slots.
    pub fn words(&self) -> (pieces: Vec<&'static str>)
        ensures
            pieces@.len() == self.wording().len(),
            pieces@.len() == self.slots().len() + 1,
            forall|k: int| 0 <= k < pieces@.len() ==> (#[trigger] pieces@[k])@ == self.wording()[k],
    {
        match self {
            Sentence::IdSentenceIsBool => vec!["", " sentence is ", ""],
            Sentence::ThereAreNumberOfBoolSentences => vec![
                "There are ",
                " sentences that are ",
                "",
            ],
            Sentence::ClosestBoolIsNumberAway => vec![
                "The closest ",
                " sentence is ",
                " spots away",
            ],
            Sentence::ThereAreNumberOfAlternatingGroups => vec![
                "There are ",
                " alternating groups",
            ],
            Sentence::IdSentenceAndIdSentenceAreTheSame => vec![
                "Both ",
                " and ",
                " sentences have the same truth value",
            ],
            Sentence::IdSentenceAndIdSentenceAreDifferent => vec![
                "Both ",
                " and ",
                " sentences have the opposite truth values",
            ],
        }
    }
}

impl Statement {
    /// The line that shows the sentence at position `sentence_id`: the
    /// position, a full stop and a space, and then the fixed words of the
    /// form with the values, worded for that position, in their slots.
    pub open spec fn line(self, sentence_id: SentenceId) -> Seq<char> {
        let words: Seq<Seq<char>> = self.sentence.wording();
        let start: Seq<char> = decimal(sentence_id.0 as nat) + ". "@ + words[0]
            + self.values[0].text(sentence_id) + words[1];
        if self.sentence.slots().len() == 1 {
            start
        } else {
            start + self.values[1].text(sentence_id) + words[2]
        }
    }
}

impl SentenceDescription {
    /// Writes the line that shows this sentence at position `sentence_id`.
    /// The sentence must have a value for each slot of its form.
    pub fn render(&self, sentence_id: SentenceId) -> (line: String)
        requires
            self@.sentence.slots().len() <= self@.values.len(),
        ensures
            line@ == self@.line(sentence_id),
    {
        let words: Vec<&'static str> = self.sentence.words();
        let mut line: String = decimal_string(sentence_id.0 as u64);
        line.append(". ");
        line.append(words[0]);
        line.append(self.values[0].to_string(sentence_id).as_str());
        line.append(words[1]);
        if words.len() == 3 {
            line.append(self.values[1].to_string(sentence_id).as_str());
            line.append(words[2]);
        }
        line
    }
}

impl PuzzleError {
    /// What the error says, in words.
    pub open spec fn description(self) -> Seq<char> {
        match self {
            PuzzleError::GuessLength { sentences, marks } => "the marking has "@ + decimal(
                marks as nat,
            ) + " truth values, but the puzzle has "@ + decimal(sentences as nat)
                + " sentences"@,
            PuzzleError::WrongValues { position } => "sentence "@ + decimal(position as nat)
                + " has not the values that its form takes"@,
            PuzzleError::IdOutOfRange { position } => "sentence "@ + decimal(position as nat)
                + " names a position that the puzzle has not"@,
        }
    }

    /// Says in words what is wrong.
    pub fn describe(&self) -> (text: String)
        ensures
            text@ == self.description(),
    {
        match *self {
            PuzzleError::GuessLength { sentences, marks } => {
                let mut text: String = String::from_str("the marking has ");
                text.append(decimal_string(marks as u64).as_str());
                text.append(" truth values, but the puzzle has ");
                text.append(decimal_string(sentences as u64).as_str());
                text.append(" sentences");
                text
            },
            PuzzleError::WrongValues { position } => {
                let mut text: String = String::from_str("sentence ");
                text.append(decimal_string(position as u64).as_str());
                text.append(" has not the values that its form takes");
                text
            },
            PuzzleError::IdOutOfRange { position } => {
                let mut text: String = String::from_str("sentence ");
                text.append(decimal_string(position as u64).as_str());
                text.append(" names a position that the puzzle has not");
                text
            },
        }
    }
}

} // verus!
