use lox::chunk::OpCode;
use lox::compiler::{compile, Compiler, Options};
use lox::grammar::{get_rule, Grammar, ParseRule, Precedence};
use lox::token::TokenType;
use lox::value::Value;
use lox::vm::InterpretError;

fn read_number(text: &str) -> Option<u64> {
    text.parse::<f64>().ok().map(f64::to_bits)
}

fn number(value: f64) -> Value {
    Value::Number(value.to_bits())
}

fn diagnostics_of(source: &str) -> Vec<String> {
    let mut compiler = Compiler::new(source, Options::default(), read_number);
    let result = compiler.compile();
    assert_eq!(result.is_err(), !compiler.diagnostics().is_empty());
    compiler.diagnostics().clone()
}

#[test]
fn number_compiles_to_load_and_return() {
    let chunk = compile("3.25", Options::default(), read_number).result.unwrap();
    assert_eq!(chunk.code, vec![2, 0, 1]);
    assert_eq!(chunk.lines, vec![1, 1, 1]);
    assert_eq!(chunk.constants, vec![number(3.25)]);
}

#[test]
fn multiplication_binds_tighter_than_addition() {
    let chunk = compile("2 + 3 * 4", Options::default(), read_number).result.unwrap();
    assert_eq!(chunk.code, vec![2, 0, 2, 1, 2, 2, 6, 4, 1]);
    assert_eq!(chunk.constants, vec![number(2.0), number(3.0), number(4.0)]);
    let chunk = compile("2 * 3 + 4", Options::default(), read_number).result.unwrap();
    assert_eq!(chunk.code, vec![2, 0, 2, 1, 6, 2, 2, 4, 1]);
}

#[test]
fn operators_of_one_level_group_from_the_left() {
    let chunk = compile("8 - 4 - 2", Options::default(), read_number).result.unwrap();
    assert_eq!(chunk.code, vec![2, 0, 2, 1, 5, 2, 2, 5, 1]);
    let chunk = compile("8 / 4 * 2", Options::default(), read_number).result.unwrap();
    assert_eq!(chunk.code, vec![2, 0, 2, 1, 7, 2, 2, 6, 1]);
}

#[test]
fn negation_binds_tighter_than_arithmetic() {
    let chunk = compile("-2 + 3", Options::default(), read_number).result.unwrap();
    assert_eq!(chunk.code, vec![2, 0, 3, 2, 1, 4, 1]);
    let chunk = compile("-(2+3)", Options::default(), read_number).result.unwrap();
    assert_eq!(chunk.code, vec![2, 0, 2, 1, 4, 3, 1]);
    let chunk = compile("--1", Options::default(), read_number).result.unwrap();
    assert_eq!(chunk.code, vec![2, 0, 3, 3, 1]);
    let chunk = compile("2 * -3", Options::default(), read_number).result.unwrap();
    assert_eq!(chunk.code, vec![2, 0, 2, 1, 3, 6, 1]);
}

#[test]
fn groups_override_precedence() {
    let chunk = compile("(2 + 3) * 4", Options::default(), read_number).result.unwrap();
    assert_eq!(chunk.code, vec![2, 0, 2, 1, 4, 2, 2, 6, 1]);
    let chunk = compile("((1))", Options::default(), read_number).result.unwrap();
    assert_eq!(chunk.code, vec![2, 0, 1]);
}

#[test]
fn bytes_carry_the_line_of_their_token() {
    let chunk = compile("1\n+\n2", Options::default(), read_number).result.unwrap();
    assert_eq!(chunk.code, vec![2, 0, 2, 1, 4, 1]);
    assert_eq!(chunk.lines, vec![1, 1, 3, 3, 3, 3]);
}

#[test]
fn constants_are_not_shared() {
    let chunk = compile("1 + 1", Options::default(), read_number).result.unwrap();
    assert_eq!(chunk.constants, vec![number(1.0), number(1.0)]);
}

#[test]
fn two_hundred_fifty_six_constants_fit() {
    let source = vec!["1"; 256].join("+");
    let chunk = compile(&source, Options::default(), read_number).result.unwrap();
    assert_eq!(chunk.constants.len(), 256);
    assert_eq!(chunk.code.len(), 2 * 256 + 255 + 1);
    assert_eq!(&chunk.code[chunk.code.len() - 4..], &[2, 255, 4, 1][..]);
}

#[test]
fn one_constant_too_many_fails() {
    let source = vec!["1"; 257].join("+");
    assert_eq!(
        compile(&source, Options::default(), read_number).result.err(),
        Some(InterpretError::CompileError)
    );
    assert_eq!(
        diagnostics_of(&source),
        vec!["[line 1] Error at 1: Too many constants in one chunk".to_string()]
    );
    let mut compiler = Compiler::new(&source, Options::debug(), read_number);
    assert!(compiler.compile().is_err());
    assert!(compiler.listing().is_none());
}

#[test]
fn make_constant_substitutes_zero_when_full() {
    let mut compiler = Compiler::new("", Options::default(), read_number);
    for i in 0..256u64 {
        assert_eq!(compiler.make_constant(Value::Number(i)) as u64, i);
    }
    assert!(compiler.diagnostics().is_empty());
    assert_eq!(compiler.make_constant(Value::Nil), 0);
    assert_eq!(
        compiler.diagnostics().clone(),
        vec!["[line 0] Error: Too many constants in one chunk".to_string()]
    );
    assert_eq!(compiler.make_constant(Value::Nil), 0);
    assert_eq!(compiler.diagnostics().len(), 1);
}

#[test]
fn unterminated_string_fails_to_compile() {
    assert_eq!(
        compile("\"abc", Options::default(), read_number).result.err(),
        Some(InterpretError::CompileError)
    );
    assert_eq!(diagnostics_of("\"abc"), vec!["[line 1] Error: Unterminated string.".to_string()]);
}

#[test]
fn unexpected_character_fails_to_compile() {
    assert_eq!(diagnostics_of("1 + @"), vec!["[line 1] Error: Unexpected character.".to_string()]);
}

#[test]
fn empty_text_expects_an_expression() {
    assert_eq!(diagnostics_of(""), vec!["[line 1] Error at end: Expected expression.".to_string()]);
    assert_eq!(
        diagnostics_of("\n\n"),
        vec!["[line 3] Error at end: Expected expression.".to_string()]
    );
}

#[test]
fn missing_operand_expects_an_expression() {
    assert_eq!(
        diagnostics_of("1 +"),
        vec!["[line 1] Error at end: Expected expression.".to_string()]
    );
    assert_eq!(
        diagnostics_of("* 2"),
        vec!["[line 1] Error at *: Expected expression.".to_string()]
    );
    assert_eq!(
        diagnostics_of("true"),
        vec!["[line 1] Error at true: Expected expression.".to_string()]
    );
}

#[test]
fn text_after_the_expression_is_an_error() {
    assert_eq!(
        diagnostics_of("1 2"),
        vec!["[line 1] Error at 2: Expected end of file.".to_string()]
    );
    assert_eq!(
        diagnostics_of("1\n)"),
        vec!["[line 2] Error at ): Expected end of file.".to_string()]
    );
}

#[test]
fn unclosed_group_is_an_error() {
    assert_eq!(
        diagnostics_of("(1 + 2"),
        vec!["[line 1] Error at end: Expect ')' after expression.".to_string()]
    );
}

#[test]
fn operator_without_a_production_is_an_error() {
    assert_eq!(
        diagnostics_of("1 == 2"),
        vec!["[line 1] Error at ==: Expected expression.".to_string()]
    );
    assert_eq!(
        diagnostics_of("1 . 2"),
        vec!["[line 1] Error at .: Expected expression.".to_string()]
    );
}

#[test]
fn only_the_first_error_is_reported() {
    assert_eq!(diagnostics_of("@ # $"), vec!["[line 1] Error: Unexpected character.".to_string()]);
    assert_eq!(diagnostics_of("(+"), vec!["[line 1] Error at +: Expected expression.".to_string()]);
}

#[test]
fn number_that_cannot_be_read_is_invalid() {
    let unreadable = |_: &str| -> Option<u64> { None };
    let mut compiler = Compiler::new("12", Options::default(), unreadable);
    assert_eq!(compiler.compile().err(), Some(InterpretError::CompileError));
    assert_eq!(
        compiler.diagnostics().clone(),
        vec!["[line 1] Error at 12: Invalid number".to_string()]
    );
}

#[test]
fn number_is_read_from_the_text_of_the_token() {
    let by_length = |text: &str| -> Option<u64> { Some(text.len() as u64) };
    let chunk = compile("1.50 + 007", Options::default(), by_length).result.unwrap();
    assert_eq!(chunk.constants, vec![Value::Number(4), Value::Number(3)]);
}

#[test]
fn listing_is_made_only_on_request_and_without_error() {
    let mut compiler = Compiler::new("1 + 2", Options::debug(), read_number);
    assert!(compiler.compile().is_ok());
    let (diagnostics, listing) = compiler.into_report();
    assert!(diagnostics.is_empty());
    let listing = listing.unwrap();
    assert_eq!(listing.title, "== Main chunk == ");
    let lines: Vec<&str> = listing.lines.iter().map(|line| line.text.as_str()).collect();
    assert_eq!(
        lines,
        vec![
            "0000 0001 OP_CONSTANT 0000 '",
            "0002    | OP_CONSTANT 0001 '",
            "0004    | OP_ADD",
            "0005    | OP_RETURN",
        ]
    );
    assert_eq!(listing.lines[0].constant, Some(number(1.0)));
    assert_eq!(listing.lines[1].constant, Some(number(2.0)));
    let mut compiler = Compiler::new("1 + 2", Options::default(), read_number);
    assert!(compiler.compile().is_ok());
    assert!(compiler.listing().is_none());
    let mut compiler = Compiler::new("1 +", Options::debug(), read_number);
    assert!(compiler.compile().is_err());
    assert!(compiler.listing().is_none());
}

#[test]
fn compiler_steps() {
    let mut compiler = Compiler::new("7 )", Options::default(), read_number);
    compiler.advance();
    compiler.advance();
    compiler.number();
    compiler.consume(TokenType::RightParen, "never");
    compiler.consume(TokenType::RightParen, "Expected another.");
    compiler.emit_bytes(9, 10);
    compiler.emit_return();
    compiler.emit_constant(Value::Nil);
    compiler.end_compilation();
    assert_eq!(
        compiler.diagnostics().clone(),
        vec!["[line 1] Error at end: Expected another.".to_string()]
    );
    let mut compiler = Compiler::new("- 7 * ( 2 )", Options::default(), read_number);
    compiler.advance();
    compiler.advance();
    compiler.unary();
    compiler.advance();
    compiler.binary();
    compiler.emit_byte(OpCode::Nil.to_byte());
    assert!(compiler.diagnostics().is_empty());
    let mut compiler = Compiler::new("(1", Options::default(), read_number);
    compiler.advance();
    compiler.advance();
    compiler.grouping();
    assert_eq!(compiler.diagnostics().len(), 1);
    let mut compiler = Compiler::new("1 + 2", Options::default(), read_number);
    compiler.advance();
    compiler.expression();
    assert!(compiler.diagnostics().is_empty());
}

#[test]
fn precedence_levels_by_number() {
    assert_eq!(Precedence::from_int(0), Some(Precedence::Lowest));
    assert_eq!(Precedence::from_int(1), None);
    assert_eq!(Precedence::from_int(2), Some(Precedence::Assignment));
    assert_eq!(Precedence::from_int(3), Some(Precedence::Or));
    assert_eq!(Precedence::from_int(4), Some(Precedence::And));
    assert_eq!(Precedence::from_int(5), Some(Precedence::Equality));
    assert_eq!(Precedence::from_int(6), Some(Precedence::Comparison));
    assert_eq!(Precedence::from_int(7), Some(Precedence::Term));
    assert_eq!(Precedence::from_int(8), Some(Precedence::Factor));
    assert_eq!(Precedence::from_int(9), Some(Precedence::Unary));
    assert_eq!(Precedence::from_int(10), Some(Precedence::Call));
    assert_eq!(Precedence::from_int(11), Some(Precedence::Primary));
    assert_eq!(Precedence::from_int(12), None);
    assert_eq!(Precedence::from_int(255), None);
    assert_eq!(Precedence::from_token(TokenType::Plus), None);
    assert_eq!(Precedence::Lowest.level(), 0);
    assert_eq!(Precedence::Term.level(), 6);
    assert_eq!(Precedence::Primary.level(), 10);
    assert!(Precedence::Lowest < Precedence::Assignment);
    assert!(Precedence::Term < Precedence::Factor);
    assert!(Precedence::Call < Precedence::Primary);
}

#[test]
fn rules_of_the_operators() {
    assert_eq!(
        get_rule(&TokenType::Minus),
        ParseRule::new(Some(Grammar::Unary), Some(Grammar::Binary), Precedence::Term)
    );
    assert_eq!(
        get_rule(&TokenType::Plus),
        ParseRule::new(None, Some(Grammar::Binary), Precedence::Term)
    );
    assert_eq!(
        get_rule(&TokenType::Star),
        ParseRule::new(None, Some(Grammar::Binary), Precedence::Factor)
    );
    assert_eq!(
        get_rule(&TokenType::Slash),
        ParseRule::new(None, Some(Grammar::Binary), Precedence::Factor)
    );
    assert_eq!(
        get_rule(&TokenType::LeftParen),
        ParseRule::new(Some(Grammar::Grouping), None, Precedence::Call)
    );
    assert_eq!(
        get_rule(&TokenType::Number),
        ParseRule::new(Some(Grammar::Number), None, Precedence::Lowest)
    );
    assert_eq!(get_rule(&TokenType::Eof), ParseRule::new(None, None, Precedence::Lowest));
    assert_eq!(get_rule(&TokenType::EqualEqual).precedence, Precedence::Equality);
    assert_eq!(get_rule(&TokenType::Less).precedence, Precedence::Comparison);
    assert_eq!(get_rule(&TokenType::And).precedence, Precedence::And);
    assert_eq!(get_rule(&TokenType::Or).precedence, Precedence::Or);
    assert_eq!(get_rule(&TokenType::Dot).precedence, Precedence::Call);
}
