//! The operator grammar: the precedence levels and, for each kind of token,
//! what it may begin, what it may continue, and how tightly it binds.

use crate::chunk::OpCode;
use crate::token::TokenType;
use vstd::prelude::*;

verus! {

/// The precedence levels, from the loosest to the tightest.
#[derive(Debug, PartialEq, Eq, PartialOrd, Clone, Copy, Structural)]
pub enum Precedence {
    /// The level of a token that is no operator.
    Lowest,
    Assignment,  // =
    Or,  // or
    And,  // and
    Equality,  // == !=
    Comparison,  // < > <= >=
    Term,  // + -
    Factor,  // * /
    Unary,  // ! - +
    Call,  // . () []
    Primary,
}

/// The place of a level in the order: 0 for `Lowest`, 10 for `Primary`.
pub open spec fn rank(precedence: Precedence) -> nat {
    match precedence {
        Precedence::Lowest => 0,
        Precedence::Assignment => 1,
        Precedence::Or => 2,
        Precedence::And => 3,
        Precedence::Equality => 4,
        Precedence::Comparison => 5,
        Precedence::Term => 6,
        Precedence::Factor => 7,
        Precedence::Unary => 8,
        Precedence::Call => 9,
        Precedence::Primary => 10,
    }
}

/// The level that the number `i` names. The numbers are not the ranks: 0
/// names `Lowest`, 1 names no level, and from 2 on each number names the level
/// whose rank is one less.
pub open spec fn numbered(i: u8) -> Option<Precedence> {
    if i == 0 {
        Some(Precedence::Lowest)
    } else if i == 2 {
        Some(Precedence::Assignment)
    } else if i == 3 {
        Some(Precedence::Or)
    } else if i == 4 {
        Some(Precedence::And)
    } else if i == 5 {
        Some(Precedence::Equality)
    } else if i == 6 {
        Some(Precedence::Comparison)
    } else if i == 7 {
        Some(Precedence::Term)
    } else if i == 8 {
        Some(Precedence::Factor)
    } else if i == 9 {
        Some(Precedence::Unary)
    } else if i == 10 {
        Some(Precedence::Call)
    } else if i == 11 {
        Some(Precedence::Primary)
    } else {
        None
    }
}

/// The number one above the rank of a level other than `Lowest` names that
/// level itself.
pub proof fn lemma_number_above_rank(precedence: Precedence)
    requires
        precedence != Precedence::Lowest,
    ensures
        numbered((rank(precedence) + 1) as u8) == Some(precedence),
{
}

/// The level at which the right operand of the operator `t` is parsed: the
/// level numbered one above the operator's rank. A level is passed only by
/// an operator that binds strictly tighter, so that operators of one level
/// group from the left.
pub open spec fn operand_level(t: TokenType) -> Option<Precedence> {
    numbered((rank(precedence_of(t)) + 1) as u8)
}

/// The right operand of an arithmetic operator is parsed at the operator's
/// own level.
pub proof fn lemma_operand_level(t: TokenType)
    requires
        is_arithmetic(t),
    ensures
        operand_level(t) == Some(precedence_of(t)),
{
    lemma_number_above_rank(precedence_of(t));
}

impl Precedence {
    /// The level that the number `i` names.
    pub fn from_int(i: u8) -> (precedence: Option<Precedence>)
        ensures
            precedence == numbered(i),
    {
        match i {
            0 => Some(Precedence::Lowest),
            2 => Some(Precedence::Assignment),
            3 => Some(Precedence::Or),
            4 => Some(Precedence::And),
            5 => Some(Precedence::Equality),
            6 => Some(Precedence::Comparison),
            7 => Some(Precedence::Term),
            8 => Some(Precedence::Factor),
            9 => Some(Precedence::Unary),
            10 => Some(Precedence::Call),
            11 => Some(Precedence::Primary),
            _ => None,
        }
    }

    /// The level of a token kind taken by itself: none, since the level of
    /// a token depends on where it stands and comes from its rule.
    pub fn from_token(t: TokenType) -> (precedence: Option<Precedence>)
        ensures
            precedence.is_none(),
    {
        None
    }

    /// The place of the level in the order.
    pub fn level(self) -> (level: u8)
        ensures
            level == rank(self),
    {
        match self {
            Precedence::Lowest => 0,
            Precedence::Assignment => 1,
            Precedence::Or => 2,
            Precedence::And => 3,
            Precedence::Equality => 4,
            Precedence::Comparison => 5,
            Precedence::Term => 6,
            Precedence::Factor => 7,
            Precedence::Unary => 8,
            Precedence::Call => 9,
            Precedence::Primary => 10,
        }
    }
}

/// The productions of the grammar.
#[derive(Debug, PartialEq, Eq, Clone, Copy, Structural)]
pub enum Grammar {
    Grouping,
    Unary,
    Binary,
    Number,
}

/// The rule of a token kind: the production it begins, the production it
/// continues, and its precedence as an operator between two operands.
#[derive(Debug, PartialEq, Eq, Clone, Copy, Structural)]
pub struct ParseRule {
    pub prefix: Option<Grammar>,
    pub infix: Option<Grammar>,
    pub precedence: Precedence,
}

impl ParseRule {
    /// The rule with these three parts.
    pub fn new(prefix: Option<Grammar>, infix: Option<Grammar>, precedence: Precedence) -> (rule:
        ParseRule)
        ensures
            rule == (ParseRule { prefix, infix, precedence }),
    {
        ParseRule { prefix, infix, precedence }
    }
}

/// The production that a token of kind `t` begins.
pub open spec fn prefix_of(t: TokenType) -> Option<Grammar> {
    match t {
        TokenType::LeftParen => Some(Grammar::Grouping),
        TokenType::Minus => Some(Grammar::Unary),
        TokenType::Number => Some(Grammar::Number),
        _ => None,
    }
}

/// Whether `t` is one of the four arithmetic operators.
pub open spec fn is_arithmetic(t: TokenType) -> bool {
    t == TokenType::Plus || t == TokenType::Minus || t == TokenType::Star || t == TokenType::Slash
}

/// The production that a token of kind `t` continues.
pub open spec fn infix_of(t: TokenType) -> Option<Grammar> {
    if is_arithmetic(t) {
        Some(Grammar::Binary)
    } else {
        None
    }
}

/// How tightly a token of kind `t` binds what stands on its two sides.
pub open spec fn precedence_of(t: TokenType) -> Precedence {
    match t {
        TokenType::LeftParen | TokenType::Dot => Precedence::Call,
        TokenType::Minus | TokenType::Plus => Precedence::Term,
        TokenType::Slash | TokenType::Star => Precedence::Factor,
        TokenType::BangEqual | TokenType::EqualEqual => Precedence::Equality,
        TokenType::Greater | TokenType::GreaterEqual | TokenType::Less | TokenType::LessEqual =>
            Precedence::Comparison,
        TokenType::And => Precedence::And,
        TokenType::Or => Precedence::Or,
        _ => Precedence::Lowest,
    }
}

/// The operation that the arithmetic operator `t` stands for.
pub open spec fn operation_of(t: TokenType) -> OpCode {
    match t {
        TokenType::Plus => OpCode::Add,
        TokenType::Minus => OpCode::Subtract,
        TokenType::Star => OpCode::Multiply,
        TokenType::Slash => OpCode::Divide,
        _ => OpCode::Unknown,
    }
}

/// The rule of the token kind `t`.
pub open spec fn rule_of(t: TokenType) -> ParseRule {
    ParseRule { prefix: prefix_of(t), infix: infix_of(t), precedence: precedence_of(t) }
}

/// Looks up the rule of a token kind.
pub fn get_rule(t: &TokenType) -> (rule: ParseRule)
    ensures
        rule == rule_of(*t),
{
    match t {
        TokenType::LeftParen => ParseRule::new(Some(Grammar::Grouping), None, Precedence::Call),
        TokenType::RightParen => ParseRule::new(None, None, Precedence::Lowest),
        TokenType::LeftBrace => ParseRule::new(None, None, Precedence::Lowest),
        TokenType::RightBrace => ParseRule::new(None, None, Precedence::Lowest),
        TokenType::Comma => ParseRule::new(None, None, Precedence::Lowest),
        TokenType::Dot => ParseRule::new(None, None, Precedence::Call),
        TokenType::Minus => ParseRule::new(
            Some(Grammar::Unary),
            Some(Grammar::Binary),
            Precedence::Term,
        ),
        TokenType::Plus => ParseRule::new(None, Some(Grammar::Binary), Precedence::Term),
        TokenType::Semicolon => ParseRule::new(None, None, Precedence::Lowest),
        TokenType::Slash => ParseRule::new(None, Some(Grammar::Binary), Precedence::Factor),
        TokenType::Star => ParseRule::new(None, Some(Grammar::Binary), Precedence::Factor),
        TokenType::Bang => ParseRule::new(None, None, Precedence::Lowest),
        TokenType::BangEqual => ParseRule::new(None, None, Precedence::Equality),
        TokenType::Equal => ParseRule::new(None, None, Precedence::Lowest),
        TokenType::EqualEqual => ParseRule::new(None, None, Precedence::Equality),
        TokenType::Greater => ParseRule::new(None, None, Precedence::Comparison),
        TokenType::GreaterEqual => ParseRule::new(None, None, Precedence::Comparison),
        TokenType::Less => ParseRule::new(None, None, Precedence::Comparison),
        TokenType::LessEqual => ParseRule::new(None, None, Precedence::Comparison),
        TokenType::Identifier => ParseRule::new(None, None, Precedence::Lowest),
        TokenType::String => ParseRule::new(None, None, Precedence::Lowest),
        TokenType::Number => ParseRule::new(Some(Grammar::Number), None, Precedence::Lowest),
        TokenType::And => ParseRule::new(None, None, Precedence::And),
        TokenType::Class => ParseRule::new(None, None, Precedence::Lowest),
        TokenType::Else => ParseRule::new(None, None, Precedence::Lowest),
        TokenType::False => ParseRule::new(None, None, Precedence::Lowest),
        TokenType::Fun => ParseRule::new(None, None, Precedence::Lowest),
        TokenType::For => ParseRule::new(None, None, Precedence::Lowest),
        TokenType::If => ParseRule::new(None, None, Precedence::Lowest),
        TokenType::Nil => ParseRule::new(None, None, Precedence::Lowest),
        TokenType::Or => ParseRule::new(None, None, Precedence::Or),
        TokenType::Print => ParseRule::new(None, None, Precedence::Lowest),
        TokenType::Return => ParseRule::new(None, None, Precedence::Lowest),
        TokenType::Super => ParseRule::new(None, None, Precedence::Lowest),
        TokenType::This => ParseRule::new(None, None, Precedence::Lowest),
        TokenType::True => ParseRule::new(None, None, Precedence::Lowest),
        TokenType::Var => ParseRule::new(None, None, Precedence::Lowest),
        TokenType::While => ParseRule::new(None, None, Precedence::Lowest),
        TokenType::Error => ParseRule::new(None, None, Precedence::Lowest),
        TokenType::Eof => ParseRule::new(None, None, Precedence::Lowest),
    }
}

} // verus!
