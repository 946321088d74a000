use gbasm::{BaseLexer, Expression, Lexer, Number, Operator, SourceString, Token};

fn raw(src: &str) -> Vec<Token> {
    BaseLexer::new(SourceString::new("raw.gbc", src)).tokens()
}

fn lex(src: &str) -> Vec<Token> {
    Lexer::new(SourceString::new("test.gbc", src)).tokens()
}

fn num(n: i32) -> Expression {
    Expression::Number(Number::from_int(n))
}

fn name(s: &str) -> Expression {
    Expression::Name(s.to_string())
}

fn binary(op: Operator, l: Expression, r: Expression) -> Expression {
    Expression::Binary(op, Box::new(l), Box::new(r))
}

#[test]
fn instruction_with_operands() {
    // The top-level comma ends the first operand; the right-hand side is
    // one expression of its own.
    assert_eq!(
        lex("ld a, 1 + 2 * 3"),
        vec![
            Token::Instruction("ld".to_string()),
            Token::Expression(name("a")),
            Token::Expression(binary(
                Operator::Plus,
                num(1),
                binary(Operator::Multiply, num(2), num(3))
            )),
            Token::Eof,
        ]
    );
}

#[test]
fn instruction_with_single_expression() {
    assert_eq!(
        lex("ld 1 + 2 * 3"),
        vec![
            Token::Instruction("ld".to_string()),
            Token::Expression(binary(
                Operator::Plus,
                num(1),
                binary(Operator::Multiply, num(2), num(3))
            )),
            Token::Eof,
        ]
    );
}

#[test]
fn label_then_instruction() {
    assert_eq!(
        lex("label:\n  nop"),
        vec![
            Token::GlobalLabelDef("label".to_string()),
            Token::Newline,
            Token::Instruction("nop".to_string()),
            Token::Eof,
        ]
    );
}

#[test]
fn macro_definition() {
    assert_eq!(
        lex("MACRO foo(@a, @b)\n  add @a, @b\nENDMACRO"),
        vec![
            Token::Macro("foo".to_string()),
            Token::LParen,
            Token::MacroArg("a".to_string()),
            Token::Comma,
            Token::MacroArg("b".to_string()),
            Token::RParen,
            Token::Newline,
            Token::Instruction("add".to_string()),
            Token::Expression(name("a")),
            Token::Expression(name("b")),
            Token::Newline,
            Token::MacroEnd,
            Token::Eof,
        ]
    );
}

#[test]
fn data_directive() {
    assert_eq!(
        lex("DB $FF, %10101010, -3.5"),
        vec![
            Token::Directive("DB".to_string()),
            Token::Expression(num(255)),
            Token::Expression(num(170)),
            Token::Expression(Expression::Number(Number { units: -350_000_000 })),
            Token::Eof,
        ]
    );
}

#[test]
fn offsets() {
    assert_eq!(lex("@+4"), vec![Token::Offset(4), Token::Eof]);
    assert_eq!(lex("@-2"), vec![Token::Offset(-2), Token::Eof]);
}

#[test]
fn offset_drops_fraction() {
    assert_eq!(lex("@+4.75"), vec![Token::Offset(4), Token::Eof]);
    assert_eq!(lex("@-2.5"), vec![Token::Offset(-2), Token::Eof]);
}

#[test]
fn offset_without_number() {
    assert_eq!(
        lex("@+x"),
        vec![Token::Error("Expected number after offset sign".to_string()), Token::Eof]
    );
}

#[test]
fn strings() {
    assert_eq!(
        lex("\"abc\\n\""),
        vec![Token::Expression(Expression::String("abc\n".to_string())), Token::Eof]
    );
    assert_eq!(
        lex("\"abc"),
        vec![Token::Error("Unclosed string literal".to_string()), Token::Eof]
    );
}

#[test]
fn string_escapes_and_quotes() {
    assert_eq!(
        raw("'a\\t\\\"\\'\\\\\\0'"),
        vec![Token::String("a\t\"'\\\0".to_string()), Token::Eof]
    );
    assert_eq!(raw("\"\u{e9}t\u{e9}\""), vec![Token::String("\u{e9}t\u{e9}".to_string()), Token::Eof]);
}

#[test]
fn unknown_escape() {
    assert_eq!(
        lex("\"a\\q\""),
        vec![
            Token::Error("Unknown character escape sequence \"113\" in string literal".to_string()),
            Token::Name("q".to_string()),
            Token::Error("Unclosed string literal".to_string()),
            Token::Eof,
        ]
    );
}

#[test]
fn parenthesised_operand() {
    assert_eq!(
        lex("ld a, (hl)"),
        vec![
            Token::Instruction("ld".to_string()),
            Token::Expression(name("a")),
            Token::Expression(name("hl")),
            Token::Eof,
        ]
    );
}

#[test]
fn parenthesised_single_operand() {
    assert_eq!(
        lex("jp (hl)"),
        vec![Token::Instruction("jp".to_string()), Token::Expression(name("hl")), Token::Eof]
    );
}

#[test]
fn raw_string_literals() {
    assert_eq!(raw("\"abc\\n\""), vec![Token::String("abc\n".to_string()), Token::Eof]);
    assert_eq!(raw("\"abc"), vec![Token::Error("Unclosed string literal".to_string()), Token::Eof]);
}

#[test]
fn line_starts_with_expression() {
    assert_eq!(
        lex("x\n(1)"),
        vec![
            Token::Expression(name("x")),
            Token::Newline,
            Token::Expression(num(1)),
            Token::Eof,
        ]
    );
}

#[test]
fn comma_outside_operand_list_stays() {
    assert_eq!(
        lex("label: x, y"),
        vec![
            Token::GlobalLabelDef("label".to_string()),
            Token::Name("x".to_string()),
            Token::Comma,
            Token::Name("y".to_string()),
            Token::Eof,
        ]
    );
}
