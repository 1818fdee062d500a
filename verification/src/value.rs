//! The values that fill the slots of a sentence.

use vstd::prelude::*;

verus! {

/// The three kinds of value. A slot of a sentence takes values of one
/// category only.
#[derive(Clone, Copy, PartialEq, Eq, Debug, Structural)]
pub enum Category {
    Id,
    Bool,
    Number,
}

/// One value in a slot of a sentence: the position of a sentence (counted
/// from 1), a truth value, or a count.
#[derive(Clone, Copy, PartialEq, Eq, Debug, Structural)]
pub enum Value {
    Id(u32),
    Bool(bool),
    Number(u32),
}

/// The position of a sentence in its puzzle, counted from 1.
#[derive(Clone, Copy, PartialEq, Eq, Debug, Structural)]
pub struct SentenceId(pub u32);

impl Value {
    /// The category of this value.
    pub open spec fn category(self) -> Category {
        match self {
            Value::Id(_) => Category::Id,
            Value::Bool(_) => Category::Bool,
            Value::Number(_) => Category::Number,
        }
    }

    /// The position that an `Id` names; 0 for the other categories.
    pub open spec fn id(self) -> int {
        match self {
            Value::Id(id) => id as int,
            _ => 0,
        }
    }

    /// The truth value that a `Bool` holds; `false` for the other categories.
    pub open spec fn truth(self) -> bool {
        match self {
            Value::Bool(truth) => truth,
            _ => false,
        }
    }

    /// The count that a `Number` holds; 0 for the other categories.
    pub open spec fn number(self) -> int {
        match self {
            Value::Number(number) => number as int,
            _ => 0,
        }
    }

    /// Tells the category of this value.
    pub fn kind(&self) -> (category: Category)
        ensures
            category == self.category(),
    {
        match self {
            Value::Id(_) => Category::Id,
            Value::Bool(_) => Category::Bool,
            Value::Number(_) => Category::Number,
        }
    }
}

/// Exchanges two values of one category, and leaves two values of different
/// categories as they are.
pub fn swap(value1: &mut Value, value2: &mut Value)
    ensures
        old(value1).category() == old(value2).category() ==> *final(value1) == *old(value2)
            && *final(value2) == *old(value1),
        old(value1).category() != old(value2).category() ==> *final(value1) == *old(value1)
            && *final(value2) == *old(value2),
{
    match (*value1, *value2) {
        (Value::Id(id1), Value::Id(id2)) => {
            *value1 = Value::Id(id2);
            *value2 = Value::Id(id1);
        },
        (Value::Bool(b1), Value::Bool(b2)) => {
            *value1 = Value::Bool(b2);
            *value2 = Value::Bool(b1);
        },
        (Value::Number(n1), Value::Number(n2)) => {
            *value1 = Value::Number(n2);
            *value2 = Value::Number(n1);
        },
        _ => {},
    }
}

/// The slot that was pressed first, while the player picks two slots whose
/// values are to be exchanged.
#[derive(Clone, Copy, Debug)]
pub struct Selected<T>(pub Option<T>);

impl<T: Copy> Selected<T> {
    /// With no slot picked yet.
    pub fn new() -> (selected: Selected<T>)
        ensures
            selected.0 is None,
    {
        Selected(None)
    }

    /// Takes note of a press on the slot `pressed`. The first press picks
    /// the slot. The second press gives back the pair to exchange, the slot
    /// just pressed and the one picked before, and leaves no slot picked.
    pub fn press(&mut self, pressed: T) -> (pair: Option<(T, T)>)
        ensures
            old(self).0 is None ==> pair is None && final(self).0 == Some(pressed),
            old(self).0 matches Some(picked) ==> pair == Some((pressed, picked))
                && final(self).0 is None,
    {
        match self.0 {
            Some(picked) => {
                self.0 = None;
                Some((pressed, picked))
            },
            None => {
                self.0 = Some(pressed);
                None
            },
        }
    }
}

} // verus!
