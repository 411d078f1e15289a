//! The grammar of expressions, stated on its own: what an expression is,
//! which tokens spell it, and which code stands for it.

use crate::chunk::{encode, OpCode};
use crate::grammar::{is_arithmetic, operation_of, precedence_of, rank, Precedence};
use crate::numbers::Numbers;
use crate::token::TokenType;
use crate::value::Value;
use vstd::prelude::*;

verus! {

/// What stands where a value is expected: a number, the negation of an
/// expression, or an expression in parentheses.
pub enum Operand {
    Literal { text: Seq<char> },
    Negation { operand: Box<Expression> },
    Group { inner: Box<Expression> },
}

/// An expression: a first operand, and after it operators, each with its
/// right side.
pub struct Expression {
    pub first: Operand,
    pub rest: Terms,
}

/// The operators that follow an operand, each with its right side.
pub enum Terms {
    End,
    More { operator: TokenType, right: Box<Expression>, rest: Box<Terms> },
}

/// A token as the grammar sees it: its kind, and its text where it is a
/// number.
pub struct Word {
    pub kind: TokenType,
    pub text: Seq<char>,
}

/// The word of a token that is no number.
pub open spec fn sign(kind: TokenType) -> Word {
    Word { kind, text: Seq::empty() }
}

/// Whether `operand` is well formed: what is negated may stand where only
/// operators that bind tighter than a sign are taken, and what stands in
/// parentheses where every operator is.
pub open spec fn operand_fits(operand: Operand) -> bool
    decreases operand,
{
    match operand {
        Operand::Literal { text } => true,
        Operand::Negation { operand } => fits(*operand, Precedence::Unary),
        Operand::Group { inner } => fits(*inner, Precedence::Assignment),
    }
}

/// Whether `expression` may stand where only operators that bind tighter
/// than `level` are taken: its operators do, from the first to the last
/// none binds tighter than the one before, and the right side of each may
/// stand where only operators are taken that bind tighter than it.
pub open spec fn fits(expression: Expression, level: Precedence) -> bool
    decreases expression,
{
    operand_fits(expression.first) && terms_fit(
        expression.rest,
        level,
        rank(Precedence::Primary),
    )
}

/// Whether `terms` may follow an operand where only operators that bind
/// tighter than `level` are taken, and none that binds tighter than
/// `ceiling` allows.
pub open spec fn terms_fit(terms: Terms, level: Precedence, ceiling: nat) -> bool
    decreases terms,
{
    match terms {
        Terms::End => true,
        Terms::More { operator, right, rest } => {
            &&& is_arithmetic(operator)
            &&& rank(level) < rank(precedence_of(operator)) <= ceiling
            &&& fits(*right, precedence_of(operator))
            &&& terms_fit(*rest, level, rank(precedence_of(operator)))
        },
    }
}

/// The tokens that spell `operand`.
pub open spec fn operand_words(operand: Operand) -> Seq<Word>
    decreases operand,
{
    match operand {
        Operand::Literal { text } => seq![Word { kind: TokenType::Number, text }],
        Operand::Negation { operand } => seq![sign(TokenType::Minus)] + words(*operand),
        Operand::Group { inner } => seq![sign(TokenType::LeftParen)] + words(*inner) + seq![
            sign(TokenType::RightParen),
        ],
    }
}

/// The tokens that spell `expression`.
pub open spec fn words(expression: Expression) -> Seq<Word>
    decreases expression,
{
    operand_words(expression.first) + terms_words(expression.rest)
}

/// The tokens that spell `terms`.
pub open spec fn terms_words(terms: Terms) -> Seq<Word>
    decreases terms,
{
    match terms {
        Terms::End => Seq::empty(),
        Terms::More { operator, right, rest } => seq![sign(operator)] + words(*right)
            + terms_words(*rest),
    }
}

/// The texts of the numbers of `operand`, in the order in which they are
/// written.
pub open spec fn operand_literals(operand: Operand) -> Seq<Seq<char>>
    decreases operand,
{
    match operand {
        Operand::Literal { text } => seq![text],
        Operand::Negation { operand } => literals(*operand),
        Operand::Group { inner } => literals(*inner),
    }
}

/// The texts of the numbers of `expression`, in the order in which they
/// are written.
pub open spec fn literals(expression: Expression) -> Seq<Seq<char>>
    decreases expression,
{
    operand_literals(expression.first) + terms_literals(expression.rest)
}

/// The texts of the numbers of `terms`, in the order in which they are
/// written.
pub open spec fn terms_literals(terms: Terms) -> Seq<Seq<char>>
    decreases terms,
{
    match terms {
        Terms::End => Seq::empty(),
        Terms::More { operator, right, rest } => literals(*right) + terms_literals(*rest),
    }
}

/// Whether `numbers` reads a number from each of `texts`.
pub open spec fn readable(texts: Seq<Seq<char>>, numbers: Numbers) -> bool {
    forall|i: int| 0 <= i < texts.len() ==> numbers(#[trigger] texts[i]).is_some()
}

/// The numbers that `numbers` reads from `texts`, as values.
pub open spec fn constants_of(texts: Seq<Seq<char>>, numbers: Numbers) -> Seq<Value> {
    Seq::new(texts.len(), |i: int| Value::Number(numbers(texts[i]).unwrap()))
}

/// The code of `operand`, whose first number is the constant of index
/// `base`: a number is loaded, a negation negates what its operand has
/// left, a group is its expression.
pub open spec fn operand_code(operand: Operand, base: nat) -> Seq<u8>
    decreases operand,
{
    match operand {
        Operand::Literal { text } => seq![encode(OpCode::Constant), base as u8],
        Operand::Negation { operand } => code(*operand, base) + seq![encode(OpCode::Negate)],
        Operand::Group { inner } => code(*inner, base),
    }
}

/// The code of `expression`, whose first number is the constant of index
/// `base`: the code of its first operand, and for each operator the code
/// of its right side and then its instruction.
pub open spec fn code(expression: Expression, base: nat) -> Seq<u8>
    decreases expression,
{
    operand_code(expression.first, base) + terms_code(
        expression.rest,
        base + operand_literals(expression.first).len(),
    )
}

/// The code of `terms`, whose first number is the constant of index
/// `base`.
pub open spec fn terms_code(terms: Terms, base: nat) -> Seq<u8>
    decreases terms,
{
    match terms {
        Terms::End => Seq::empty(),
        Terms::More { operator, right, rest } => code(*right, base) + seq![
            encode(operation_of(operator)),
        ] + terms_code(*rest, base + literals(*right).len()),
    }
}

} // verus!
