//! The compiler translates the grammar: a text whose tokens spell an
//! expression compiles, without error, to the code of that expression.

use crate::chunk::{encode, OpCode};
use crate::grammar::{
    is_arithmetic, lemma_operand_level, operation_of, precedence_of, prefix_of, rank, Grammar,
    Precedence,
};
use crate::numbers::Numbers;
use crate::lexical::{
    is_number_literal, lemma_number_literal, lemma_scan_at_end, lemma_scan_moves_on,
};
use crate::parsing::{
    expected_end, expected_right_paren, lemma_advanced, lemma_comparisons_hold,
    lemma_number_compiled, ParserState, CONSTANTS_MAX,
};
use crate::scanner::ScannerView;
use crate::syntax::{
    code, constants_of, fits, literals, operand_code, operand_fits, operand_literals,
    operand_words, readable, sign, terms_code, terms_fit, terms_literals, terms_words, words,
    Expression, Operand, Terms, Word,
};
use crate::token::{placeholder, TokenType, TokenView};
use crate::value::Value;
use vstd::prelude::*;

verus! {

/// What a compiler reads with: the scanner, and the token of lookahead.
pub struct Head {
    pub scanner: ScannerView,
    pub current: TokenView,
}

/// The head of `state`.
pub open spec fn head(state: ParserState) -> Head {
    Head { scanner: state.scanner, current: state.current }
}

/// Whether the token that `head` scans next is no error token.
pub open spec fn clean(head: Head) -> bool {
    head.scanner.next_token().t != TokenType::Error
}

/// The head after the next token has been scanned.
pub open spec fn next(head: Head) -> Head {
    Head { scanner: head.scanner.after_scan(), current: head.scanner.next_token() }
}

/// The head after `count` tokens have been scanned.
pub open spec fn after(head: Head, count: nat) -> Head
    decreases count,
{
    if count == 0 {
        head
    } else {
        after(next(head), (count - 1) as nat)
    }
}

/// Whether `token` is the token `word`.
pub open spec fn is_word(token: TokenView, word: Word) -> bool {
    token.t == word.kind && (word.kind == TokenType::Number ==> token.text == word.text)
}

/// Whether `head` reads `words`: its lookahead is the first, and each scan
/// yields the next, with no error token between them.
pub open spec fn spells(head: Head, words: Seq<Word>) -> bool
    decreases words.len(),
{
    if words.len() == 0 {
        true
    } else {
        is_word(head.current, words[0]) && clean(head) && spells(next(head), words.drop_first())
    }
}

/// To read one sequence of words after another is to read both as one.
pub proof fn lemma_spells_joined(head: Head, first: Seq<Word>, second: Seq<Word>)
    ensures
        spells(head, first + second) == (spells(head, first) && spells(
            after(head, first.len()),
            second,
        )),
        after(head, first.len() + second.len()) == after(
            after(head, first.len()),
            second.len(),
        ),
    decreases first.len(),
{
    if first.len() == 0 {
        assert(first + second =~= second);
    } else {
        assert((first + second).drop_first() =~= first.drop_first() + second);
        assert((first + second)[0] == first[0]);
        lemma_spells_joined(next(head), first.drop_first(), second);
    }
}

/// A step forward over a token after which no error token comes changes
/// the tokens of a state and nothing else.
pub proof fn lemma_step(state: ParserState)
    requires
        state.well_formed(),
        clean(head(state)),
    ensures
        state.advanced() == (ParserState {
            scanner: next(head(state)).scanner,
            current: next(head(state)).current,
            previous: state.current,
            ..state
        }),
        state.advanced().well_formed(),
{
    lemma_advanced(state);
}

/// Whether `after_state` is `before` after `count` tokens have been read
/// without error and `code` and `constants` have been added to the chunk.
pub open spec fn translated(
    before: ParserState,
    after_state: ParserState,
    count: nat,
    code: Seq<u8>,
    constants: Seq<Value>,
) -> bool {
    &&& after_state.well_formed()
    &&& !after_state.had_error
    &&& head(after_state) == after(head(before), count)
    &&& after_state.chunk.code == before.chunk.code + code
    &&& after_state.chunk.constants == before.chunk.constants + constants
    &&& after_state.diagnostics == before.diagnostics
    &&& after_state.debug == before.debug
    &&& after_state.listing == before.listing
}

/// The values of two sequences of texts, one after the other, are those
/// of the two as one.
pub proof fn lemma_constants_joined(first: Seq<Seq<char>>, second: Seq<Seq<char>>, numbers: Numbers)
    ensures
        constants_of(first + second, numbers) == constants_of(first, numbers) + constants_of(
            second,
            numbers,
        ),
        readable(first + second, numbers) == (readable(first, numbers) && readable(
            second,
            numbers,
        )),
{
    assert(constants_of(first + second, numbers) =~= constants_of(first, numbers) + constants_of(
        second,
        numbers,
    ));
    if readable(first + second, numbers) {
        assert forall|i: int| 0 <= i < first.len() implies numbers(
            #[trigger] first[i],
        ).is_some() by {
            assert((first + second)[i] == first[i]);
        }
        assert forall|i: int| 0 <= i < second.len() implies numbers(
            #[trigger] second[i],
        ).is_some() by {
            assert((first + second)[first.len() + i] == second[i]);
        }
    }
    if readable(first, numbers) && readable(second, numbers) {
        assert forall|i: int| 0 <= i < (first + second).len() implies numbers(
            #[trigger] (first + second)[i],
        ).is_some() by {
            if i < first.len() {
                assert((first + second)[i] == first[i]);
            } else {
                assert((first + second)[i] == second[i - first.len()]);
            }
        }
    }
}

/// Where words are spelled, the first of them is the lookahead; where
/// there are none, no token is passed.
pub proof fn lemma_follows(head: Head, more: Seq<Word>)
    requires
        spells(head, more),
    ensures
        more.len() > 0 ==> is_word(head.current, more[0]),
        more.len() == 0 ==> after(head, more.len()) == head,
{
}

/// One token is passed by one scan.
pub proof fn lemma_after_one(head: Head)
    ensures
        after(head, 1) == next(head),
{
    assert(after(next(head), 0) == next(head));
}

/// What has been translated in two stretches has been translated as one.
pub proof fn lemma_translated_on(
    before: ParserState,
    middle: ParserState,
    done: ParserState,
    count: nat,
    more: nat,
    code: Seq<u8>,
    more_code: Seq<u8>,
    constants: Seq<Value>,
    more_constants: Seq<Value>,
)
    requires
        translated(before, middle, count, code, constants),
        translated(middle, done, more, more_code, more_constants),
    ensures
        translated(before, done, count + more, code + more_code, constants + more_constants),
{
    lemma_after_joined(head(before), count, more);
    assert(before.chunk.code + code + more_code =~= before.chunk.code + (code + more_code));
    assert(before.chunk.constants + constants + more_constants =~= before.chunk.constants + (
    constants + more_constants));
}

/// To pass tokens and then more is to pass them all.
pub proof fn lemma_after_joined(head: Head, count: nat, more: nat)
    ensures
        after(head, count + more) == after(after(head, count), more),
    decreases count,
{
    if count > 0 {
        lemma_after_joined(next(head), (count - 1) as nat, more);
    }
}

/// A step over a token that is spelled: the state has read one token and
/// written nothing.
pub proof fn lemma_word_passed(state: ParserState)
    requires
        state.well_formed(),
        !state.had_error,
        clean(head(state)),
    ensures
        translated(state, state.advanced(), 1, Seq::empty(), Seq::empty()),
        state.advanced().previous == state.current,
{
    lemma_step(state);
    lemma_after_one(head(state));
    assert(state.chunk.code + Seq::<u8>::empty() =~= state.chunk.code);
    assert(state.chunk.constants + Seq::<Value>::empty() =~= state.chunk.constants);
}

/// One byte written: the state has read nothing and written the byte.
pub proof fn lemma_byte_written(state: ParserState, byte: u8)
    requires
        state.well_formed(),
        !state.had_error,
    ensures
        translated(state, state.emitted(byte), 0, seq![byte], Seq::empty()),
        state.emitted(byte).previous == state.previous,
{
    assert(after(head(state), 0) == head(state));
    assert(state.chunk.code.push(byte) =~= state.chunk.code + seq![byte]);
    assert(state.chunk.constants + Seq::<Value>::empty() =~= state.chunk.constants);
}

/// A number compiled: the state has read nothing, and has written the
/// instruction that loads the number as the next constant.
pub proof fn lemma_number_written(state: ParserState, numbers: Numbers)
    requires
        state.well_formed(),
        !state.had_error,
        numbers(state.previous.text).is_some(),
        state.chunk.constants.len() < CONSTANTS_MAX,
    ensures
        translated(
            state,
            state.number_compiled(numbers),
            0,
            seq![encode(OpCode::Constant), state.chunk.constants.len() as u8],
            seq![Value::Number(numbers(state.previous.text).unwrap())],
        ),
{
    lemma_number_compiled(state, numbers);
    let done = state.number_compiled(numbers);
    assert(after(head(state), 0) == head(state));
    assert(done.chunk.code =~= state.chunk.code + seq![
        encode(OpCode::Constant),
        state.chunk.constants.len() as u8,
    ]);
    assert(done.chunk.constants =~= state.chunk.constants + seq![
        Value::Number(numbers(state.previous.text).unwrap()),
    ]);
}

/// Where the lookahead begins a production, an expression begins with the
/// step over it and the production.
pub proof fn lemma_begins(state: ParserState, rule: Grammar, numbers: Numbers)
    requires
        state.well_formed(),
        prefix_of(state.current.t) == Some(rule),
    ensures
        state.begun(numbers) == state.advanced().applied(rule, numbers),
{
    lemma_comparisons_hold(state, Precedence::Assignment, numbers);
}

/// An expression is what it begins with, extended.
pub proof fn lemma_parses(state: ParserState, level: Precedence, numbers: Numbers)
    requires
        state.well_formed(),
    ensures
        state.parsed(level, numbers) == state.begun(numbers).extended(level, numbers),
{
    lemma_comparisons_hold(state, level, numbers);
}

/// Where the lookahead is an arithmetic operator that binds tighter than
/// `level`, an expression is extended by the step over it, its right side
/// and its instruction, and then further.
pub proof fn lemma_extends(state: ParserState, level: Precedence, numbers: Numbers)
    requires
        state.well_formed(),
        is_arithmetic(state.current.t),
        rank(level) < rank(precedence_of(state.current.t)),
    ensures
        state.extended(level, numbers) == state.advanced().parsed(
            precedence_of(state.current.t),
            numbers,
        ).emitted(encode(operation_of(state.current.t))).extended(level, numbers),
{
    lemma_comparisons_hold(state, level, numbers);
    lemma_operand_level(state.current.t);
    lemma_advanced(state);
}

/// Where the lookahead binds no tighter than `level`, nothing extends the
/// expression.
pub proof fn lemma_stops(state: ParserState, level: Precedence, numbers: Numbers)
    requires
        rank(precedence_of(state.current.t)) <= rank(level),
    ensures
        state.extended(level, numbers) == state,
{
}

/// The compiler translates a number.
pub proof fn lemma_literal_translated(state: ParserState, operand: Operand, numbers: Numbers)
    requires
        state.well_formed(),
        !state.had_error,
        operand is Literal,
        spells(head(state), operand_words(operand)),
        readable(operand_literals(operand), numbers),
        state.chunk.constants.len() + operand_literals(operand).len() <= CONSTANTS_MAX,
    ensures
        translated(
            state,
            state.begun(numbers),
            operand_words(operand).len(),
            operand_code(operand, state.chunk.constants.len()),
            constants_of(operand_literals(operand), numbers),
        ),
{
    let text = operand->text;
    assert(operand_words(operand)[0] == Word { kind: TokenType::Number, text });
    assert(operand_literals(operand)[0] == text);
    lemma_begins(state, Grammar::Number, numbers);
    lemma_word_passed(state);
    let stepped = state.advanced();
    lemma_number_written(stepped, numbers);
    let done = stepped.number_compiled(numbers);
    lemma_translated_on(
        state,
        stepped,
        done,
        1,
        0,
        Seq::empty(),
        seq![encode(OpCode::Constant), state.chunk.constants.len() as u8],
        Seq::empty(),
        seq![Value::Number(numbers(text).unwrap())],
    );
    assert(Seq::<u8>::empty() + operand_code(operand, state.chunk.constants.len())
        =~= operand_code(operand, state.chunk.constants.len()));
    assert(Seq::<Value>::empty() + seq![Value::Number(numbers(text).unwrap())] =~= constants_of(
        operand_literals(operand),
        numbers,
    ));
}

/// The compiler translates a negation.
pub proof fn lemma_negation_translated(state: ParserState, operand: Operand, numbers: Numbers)
    requires
        state.well_formed(),
        !state.had_error,
        operand is Negation,
        operand_fits(operand),
        spells(head(state), operand_words(operand)),
        rank(precedence_of(after(head(state), operand_words(operand).len()).current.t)) <= rank(
            Precedence::Unary,
        ),
        readable(operand_literals(operand), numbers),
        state.chunk.constants.len() + operand_literals(operand).len() <= CONSTANTS_MAX,
    ensures
        translated(
            state,
            state.begun(numbers),
            operand_words(operand).len(),
            operand_code(operand, state.chunk.constants.len()),
            constants_of(operand_literals(operand), numbers),
        ),
    decreases operand, 0nat,
{
    let inner = *operand->operand;
    let start = head(state);
    let base = state.chunk.constants.len();
    let sign_word = seq![sign(TokenType::Minus)];
    lemma_spells_joined(start, sign_word, words(inner));
    assert(sign_word[0] == sign(TokenType::Minus));
    lemma_begins(state, Grammar::Unary, numbers);
    lemma_word_passed(state);
    let stepped = state.advanced();
    lemma_after_one(start);
    lemma_expression_translated(stepped, inner, Precedence::Unary, numbers);
    let parsed = stepped.parsed(Precedence::Unary, numbers);
    lemma_byte_written(parsed, encode(OpCode::Negate));
    let done = parsed.emitted(encode(OpCode::Negate));
    lemma_translated_on(
        state,
        stepped,
        parsed,
        1,
        words(inner).len(),
        Seq::empty(),
        code(inner, base),
        Seq::empty(),
        constants_of(literals(inner), numbers),
    );
    lemma_translated_on(
        state,
        parsed,
        done,
        1 + words(inner).len(),
        0,
        Seq::empty() + code(inner, base),
        seq![encode(OpCode::Negate)],
        Seq::empty() + constants_of(literals(inner), numbers),
        Seq::empty(),
    );
    assert(Seq::<u8>::empty() + code(inner, base) + seq![encode(OpCode::Negate)] =~= operand_code(
        operand,
        base,
    ));
    assert(Seq::<Value>::empty() + constants_of(literals(inner), numbers) + Seq::<Value>::empty()
        =~= constants_of(operand_literals(operand), numbers));
}

/// The compiler translates a group.
pub proof fn lemma_group_translated(state: ParserState, operand: Operand, numbers: Numbers)
    requires
        state.well_formed(),
        !state.had_error,
        operand is Group,
        operand_fits(operand),
        spells(head(state), operand_words(operand)),
        readable(operand_literals(operand), numbers),
        state.chunk.constants.len() + operand_literals(operand).len() <= CONSTANTS_MAX,
    ensures
        translated(
            state,
            state.begun(numbers),
            operand_words(operand).len(),
            operand_code(operand, state.chunk.constants.len()),
            constants_of(operand_literals(operand), numbers),
        ),
    decreases operand, 0nat,
{
    let inner = *operand->inner;
    let start = head(state);
    let base = state.chunk.constants.len();
    let open = seq![sign(TokenType::LeftParen)];
    let close = seq![sign(TokenType::RightParen)];
    assert(operand_words(operand) =~= open + (words(inner) + close));
    lemma_spells_joined(start, open, words(inner) + close);
    assert(open[0] == sign(TokenType::LeftParen));
    lemma_begins(state, Grammar::Grouping, numbers);
    lemma_word_passed(state);
    let stepped = state.advanced();
    lemma_after_one(start);
    lemma_spells_joined(next(start), words(inner), close);
    let closing = after(next(start), words(inner).len());
    assert(close[0] == sign(TokenType::RightParen));
    assert(closing.current.t == TokenType::RightParen);
    lemma_expression_translated(stepped, inner, Precedence::Assignment, numbers);
    let parsed = stepped.expression_compiled(numbers);
    lemma_word_passed(parsed);
    let done = parsed.consumed(TokenType::RightParen, expected_right_paren());
    lemma_translated_on(
        state,
        stepped,
        parsed,
        1,
        words(inner).len(),
        Seq::empty(),
        code(inner, base),
        Seq::empty(),
        constants_of(literals(inner), numbers),
    );
    lemma_translated_on(
        state,
        parsed,
        done,
        1 + words(inner).len(),
        1,
        Seq::empty() + code(inner, base),
        Seq::empty(),
        Seq::empty() + constants_of(literals(inner), numbers),
        Seq::empty(),
    );
    assert(Seq::<u8>::empty() + code(inner, base) + Seq::<u8>::empty() =~= operand_code(
        operand,
        base,
    ));
    assert(Seq::<Value>::empty() + constants_of(literals(inner), numbers) + Seq::<Value>::empty()
        =~= constants_of(operand_literals(operand), numbers));
}

/// The compiler translates an operand: where the tokens of a state spell
/// one, and a token follows that binds no tighter than a sign, the code of
/// the operand is written and its numbers become constants, without error.
pub proof fn lemma_operand_translated(state: ParserState, operand: Operand, numbers: Numbers)
    requires
        state.well_formed(),
        !state.had_error,
        operand_fits(operand),
        spells(head(state), operand_words(operand)),
        rank(precedence_of(after(head(state), operand_words(operand).len()).current.t)) <= rank(
            Precedence::Unary,
        ),
        readable(operand_literals(operand), numbers),
        state.chunk.constants.len() + operand_literals(operand).len() <= CONSTANTS_MAX,
    ensures
        translated(
            state,
            state.begun(numbers),
            operand_words(operand).len(),
            operand_code(operand, state.chunk.constants.len()),
            constants_of(operand_literals(operand), numbers),
        ),
    decreases operand, 1nat,
{
    match operand {
        Operand::Literal { .. } => lemma_literal_translated(state, operand, numbers),
        Operand::Negation { .. } => lemma_negation_translated(state, operand, numbers),
        Operand::Group { .. } => lemma_group_translated(state, operand, numbers),
    }
}

/// The compiler translates an expression: where the tokens of a state
/// spell one that may stand at `level`, and a token follows that binds no
/// tighter than `level`, the code of the expression is written and its
/// numbers become constants, without error.
pub proof fn lemma_expression_translated(
    state: ParserState,
    expression: Expression,
    level: Precedence,
    numbers: Numbers,
)
    requires
        state.well_formed(),
        !state.had_error,
        fits(expression, level),
        rank(level) <= rank(Precedence::Unary),
        spells(head(state), words(expression)),
        rank(precedence_of(after(head(state), words(expression).len()).current.t)) <= rank(level),
        readable(literals(expression), numbers),
        state.chunk.constants.len() + literals(expression).len() <= CONSTANTS_MAX,
    ensures
        translated(
            state,
            state.parsed(level, numbers),
            words(expression).len(),
            code(expression, state.chunk.constants.len()),
            constants_of(literals(expression), numbers),
        ),
    decreases expression, 0nat,
{
    let start = head(state);
    let base = state.chunk.constants.len();
    let first_words = operand_words(expression.first);
    let rest_words = terms_words(expression.rest);
    let first_literals = operand_literals(expression.first);
    let rest_literals = terms_literals(expression.rest);
    lemma_parses(state, level, numbers);
    lemma_spells_joined(start, first_words, rest_words);
    lemma_constants_joined(first_literals, rest_literals, numbers);
    let middle = after(start, first_words.len());
    lemma_follows(middle, rest_words);
    match expression.rest {
        Terms::End => {},
        Terms::More { operator, right, rest } => {
            assert(rest_words[0] == sign(operator));
        },
    }
    lemma_operand_translated(state, expression.first, numbers);
    let begun = state.begun(numbers);
    lemma_terms_translated(begun, expression.rest, level, rank(Precedence::Primary), numbers);
    let done = begun.extended(level, numbers);
    lemma_translated_on(
        state,
        begun,
        done,
        first_words.len(),
        rest_words.len(),
        operand_code(expression.first, base),
        terms_code(expression.rest, base + first_literals.len()),
        constants_of(first_literals, numbers),
        constants_of(rest_literals, numbers),
    );
}

/// The compiler translates one operator with its right side, and then the
/// operators that follow.
pub proof fn lemma_term_translated(
    state: ParserState,
    terms: Terms,
    level: Precedence,
    ceiling: nat,
    numbers: Numbers,
)
    requires
        state.well_formed(),
        !state.had_error,
        terms is More,
        terms_fit(terms, level, ceiling),
        spells(head(state), terms_words(terms)),
        rank(precedence_of(after(head(state), terms_words(terms).len()).current.t)) <= rank(level),
        readable(terms_literals(terms), numbers),
        state.chunk.constants.len() + terms_literals(terms).len() <= CONSTANTS_MAX,
    ensures
        translated(
            state,
            state.extended(level, numbers),
            terms_words(terms).len(),
            terms_code(terms, state.chunk.constants.len()),
            constants_of(terms_literals(terms), numbers),
        ),
    decreases terms, 0nat,
{
    let operator = terms->operator;
    let right = *terms->right;
    let rest = *terms->rest;
    let start = head(state);
    let base = state.chunk.constants.len();
    let sign_word = seq![sign(operator)];
    let right_words = words(right);
    let rest_words = terms_words(rest);
    assert(terms_words(terms) =~= sign_word + (right_words + rest_words));
    lemma_spells_joined(start, sign_word, right_words + rest_words);
    assert(sign_word[0] == sign(operator));
    lemma_extends(state, level, numbers);
    lemma_word_passed(state);
    let stepped = state.advanced();
    lemma_after_one(start);
    lemma_spells_joined(next(start), right_words, rest_words);
    lemma_constants_joined(literals(right), terms_literals(rest), numbers);
    let middle = after(next(start), right_words.len());
    lemma_follows(middle, rest_words);
    lemma_after_joined(start, 1, right_words.len());
    assert(terms_fit(rest, level, rank(precedence_of(operator))));
    match rest {
        Terms::End => {
            assert(terms_words(terms).len() == 1 + right_words.len());
        },
        Terms::More { operator: following, right: _, rest: _ } => {
            assert(rest_words[0] == sign(following));
            assert(middle.current.t == following);
        },
    }
    assert(rank(precedence_of(middle.current.t)) <= rank(precedence_of(operator)));
    lemma_expression_translated(stepped, right, precedence_of(operator), numbers);
    let parsed = stepped.parsed(precedence_of(operator), numbers);
    lemma_byte_written(parsed, encode(operation_of(operator)));
    let combined = parsed.emitted(encode(operation_of(operator)));
    lemma_translated_on(
        state,
        stepped,
        parsed,
        1,
        right_words.len(),
        Seq::empty(),
        code(right, base),
        Seq::empty(),
        constants_of(literals(right), numbers),
    );
    lemma_translated_on(
        state,
        parsed,
        combined,
        1 + right_words.len(),
        0,
        Seq::empty() + code(right, base),
        seq![encode(operation_of(operator))],
        Seq::empty() + constants_of(literals(right), numbers),
        Seq::empty(),
    );
    assert(Seq::<Value>::empty() + constants_of(literals(right), numbers) + Seq::<Value>::empty()
        =~= constants_of(literals(right), numbers));
    lemma_terms_translated(combined, rest, level, rank(precedence_of(operator)), numbers);
    let done = combined.extended(level, numbers);
    lemma_translated_on(
        state,
        combined,
        done,
        1 + right_words.len(),
        rest_words.len(),
        Seq::empty() + code(right, base) + seq![encode(operation_of(operator))],
        terms_code(rest, base + literals(right).len()),
        constants_of(literals(right), numbers),
        constants_of(terms_literals(rest), numbers),
    );
    assert(Seq::<u8>::empty() + code(right, base) + seq![encode(operation_of(operator))]
        + terms_code(rest, base + literals(right).len()) =~= terms_code(terms, base));
}

/// The compiler translates the operators that follow an operand, each
/// with its right side.
pub proof fn lemma_terms_translated(
    state: ParserState,
    terms: Terms,
    level: Precedence,
    ceiling: nat,
    numbers: Numbers,
)
    requires
        state.well_formed(),
        !state.had_error,
        terms_fit(terms, level, ceiling),
        spells(head(state), terms_words(terms)),
        rank(precedence_of(after(head(state), terms_words(terms).len()).current.t)) <= rank(level),
        readable(terms_literals(terms), numbers),
        state.chunk.constants.len() + terms_literals(terms).len() <= CONSTANTS_MAX,
    ensures
        translated(
            state,
            state.extended(level, numbers),
            terms_words(terms).len(),
            terms_code(terms, state.chunk.constants.len()),
            constants_of(terms_literals(terms), numbers),
        ),
    decreases terms, 1nat,
{
    match terms {
        Terms::End => {
            assert(after(head(state), 0) == head(state));
            lemma_stops(state, level, numbers);
            assert(state.chunk.code + Seq::<u8>::empty() =~= state.chunk.code);
            assert(state.chunk.constants + constants_of(terms_literals(terms), numbers)
                =~= state.chunk.constants);
        },
        Terms::More { .. } => lemma_term_translated(state, terms, level, ceiling, numbers),
    }
}

/// The head with which the compilation of `source` begins.
pub open spec fn first_head(source: Seq<char>) -> Head {
    Head { scanner: ScannerView { source, start: 0, current: 0, line: 1 }, current: placeholder() }
}

/// Whether the tokens of `source` are `words` and nothing more, with no
/// error token among them.
pub open spec fn spelled(source: Seq<char>, words: Seq<Word>) -> bool {
    &&& clean(first_head(source))
    &&& spells(next(first_head(source)), words)
    &&& after(next(first_head(source)), words.len()).current.t == TokenType::Eof
}

/// The expression that is the one number written `text`.
pub open spec fn number(text: Seq<char>) -> Expression {
    Expression { first: Operand::Literal { text }, rest: Terms::End }
}

/// A text that is one number spells the expression that is this number.
pub proof fn lemma_number_spelled(source: Seq<char>)
    requires
        is_number_literal(source),
    ensures
        spelled(source, words(number(source))),
        fits(number(source), Precedence::Assignment),
        literals(number(source)) == seq![source],
        code(number(source), 0) == seq![encode(OpCode::Constant), 0u8],
{
    lemma_number_literal(source, 1);
    let start = first_head(source);
    let first = next(start);
    let all = words(number(source));
    assert(all =~= seq![Word { kind: TokenType::Number, text: source }]);
    lemma_after_one(first);
    assert(after(first, 0) == first);
    assert(first.scanner.current == source.len());
    assert(spells(next(first), all.drop_first()));
    assert(literals(number(source)) =~= seq![source]);
    assert(code(number(source), 0) =~= seq![encode(OpCode::Constant), 0u8]);
}

/// A head that has scanned `Eof` scans it again.
pub proof fn lemma_end_is_clean(head: Head, count: nat)
    requires
        0 <= head.scanner.current <= head.scanner.source.len(),
        after(next(head), count).current.t == TokenType::Eof,
    ensures
        clean(after(next(head), count)),
        0 <= after(next(head), count).scanner.current <= head.scanner.source.len(),
        after(next(head), count).scanner.source == head.scanner.source,
    decreases count,
{
    let scanner = head.scanner;
    lemma_scan_moves_on(scanner.source, scanner.current, scanner.line);
    if count == 0 {
        assert(after(next(head), 0) == next(head));
        let ended = next(head).scanner;
        lemma_scan_at_end(ended.source, ended.line);
    } else {
        lemma_end_is_clean(next(head), (count - 1) as nat);
    }
}

/// The compiler translates the grammar: a text whose tokens spell an
/// expression, with numbers that can be read and that are not too many,
/// compiles without error to the code of the expression and the return,
/// and its constants are the numbers of the expression in the order in
/// which they are written.
pub proof fn lemma_text_translated(
    source: Seq<char>,
    debug: bool,
    expression: Expression,
    numbers: Numbers,
)
    requires
        spelled(source, words(expression)),
        fits(expression, Precedence::Assignment),
        readable(literals(expression), numbers),
        literals(expression).len() <= CONSTANTS_MAX,
    ensures
        !ParserState::initial(source, debug).compiled(numbers).had_error,
        ParserState::initial(source, debug).compiled(numbers).diagnostics == Seq::<
            Seq<char>,
        >::empty(),
        ParserState::initial(source, debug).compiled(numbers).chunk.code == code(expression, 0)
            + seq![encode(OpCode::Return)],
        ParserState::initial(source, debug).compiled(numbers).chunk.constants == constants_of(
            literals(expression),
            numbers,
        ),
{
    let begin = ParserState::initial(source, debug);
    let start = first_head(source);
    assert(head(begin) == start);
    lemma_word_passed(begin);
    let first = begin.advanced();
    lemma_after_one(start);
    lemma_expression_translated(first, expression, Precedence::Assignment, numbers);
    let second = first.expression_compiled(numbers);
    lemma_end_is_clean(start, words(expression).len());
    lemma_word_passed(second);
    let third = second.consumed(TokenType::Eof, expected_end());
    assert(third == second.advanced());
    let last = third.finished();
    assert(begin.compiled(numbers) == last);
    assert(last.chunk.code =~= code(expression, 0) + seq![encode(OpCode::Return)]);
    assert(last.chunk.constants =~= constants_of(literals(expression), numbers));
}

} // verus!
