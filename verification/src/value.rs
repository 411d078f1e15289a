//! The values of the language.

use vstd::prelude::*;

verus! {

/// A value: a boolean, nil, or a number. A number is held as the bit
/// pattern of an IEEE-754 double, so that two numbers are equal here when
/// their bits are.
#[derive(Clone, Copy, Debug, PartialEq, Eq, Structural)]
pub enum Value {
    Bool(bool),
    Nil,
    Number(u64),
}

/// The constants of a chunk.
pub type ValueArray = Vec<Value>;

/// The bit of a double that holds its sign.
pub const SIGN_BIT: u64 = 0x8000_0000_0000_0000;

/// The bits of the double that is the negation of the one with bits
/// `bits`: the same but for the sign.
pub open spec fn negation(bits: u64) -> u64 {
    bits ^ SIGN_BIT
}

/// The text of a value that is written as a word; a number has none here.
pub open spec fn word_of(value: Value) -> Option<Seq<char>> {
    match value {
        Value::Bool(true) => Some("true"@),
        Value::Bool(false) => Some("false"@),
        Value::Nil => Some("nil"@),
        Value::Number(_) => None,
    }
}

impl Value {
    /// The word that stands for the value in program output: `true`,
    /// `false` or `nil`. A number has no such word: its digits are for the
    /// caller to produce from its bits.
    pub fn word(&self) -> (word: Option<&'static str>)
        ensures
            match word {
                Some(text) => word_of(*self) == Some(text@),
                None => word_of(*self).is_none(),
            },
    {
        match self {
            Value::Bool(true) => Some("true"),
            Value::Bool(false) => Some("false"),
            Value::Nil => Some("nil"),
            Value::Number(_) => None,
        }
    }
}

/// Negates the double with bits `bits`.
pub fn negate(bits: u64) -> (negated: u64)
    ensures
        negated == negation(bits),
{
    bits ^ SIGN_BIT
}

} // verus!
