//! The two operations on numbers that the language needs and that the
//! caller supplies as functions: reading a number from its text, and
//! arithmetic on two numbers. Numbers are passed as the bit patterns of
//! IEEE-754 doubles.

use crate::chunk::OpCode;
use vstd::prelude::*;

verus! {

/// A function from the characters of a text to the number that the text
/// denotes, if it denotes one.
pub type Numbers = spec_fn(Seq<char>) -> Option<u64>;

/// Whether `read` can be called on every text.
pub open spec fn reads_all<P: Fn(&str) -> Option<u64>>(read: P) -> bool {
    forall|text: &str| #[trigger] read.requires((text,))
}

/// Whether `numbers` says what `read` hands back: for every text, whatever
/// `read` may hand back is what `numbers` gives for its characters.
pub open spec fn reads_as<P: Fn(&str) -> Option<u64>>(
    read: P,
    numbers: Numbers,
) -> bool {
    forall|text: &str, number: Option<u64>| #[trigger]
        read.ensures((text,), number) ==> number == numbers(text@)
}

/// Whether `op` is one of the four operations on two numbers.
pub open spec fn is_binary(op: OpCode) -> bool {
    op == OpCode::Add || op == OpCode::Subtract || op == OpCode::Multiply || op == OpCode::Divide
}

/// Whether `arithmetic` can be called with each of the four operations, on
/// any two numbers.
pub open spec fn computes<A: Fn(OpCode, u64, u64) -> u64>(arithmetic: A) -> bool {
    forall|op: OpCode, a: u64, b: u64| is_binary(op) ==> #[trigger] arithmetic.requires((op, a, b))
}

} // verus!
