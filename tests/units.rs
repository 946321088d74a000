use gbasm::charset::{is_directive, is_instruction, string_from_bytes, to_number};
use gbasm::{
    BaseLexer, Expression, Lexer, Linker, Number, Operator, SourceFile, SourceIter, SourceString,
    Token, TokenType,
};

fn raw(src: &str) -> Vec<Token> {
    let mut lexer = BaseLexer::new(SourceString::new("raw", src));
    let mut out = Vec::new();
    loop {
        let t = lexer.next();
        let done = t == Token::Eof;
        out.push(t);
        if done {
            return out;
        }
    }
}

fn lex(src: &str) -> Vec<Token> {
    Lexer::new(SourceString::new("test.gbc", src)).tokens()
}

fn num(n: i32) -> Expression {
    Expression::Number(Number::from_int(n))
}

fn number(n: i32) -> Token {
    Token::Number(Number::from_int(n))
}

fn binary(op: Operator, l: Expression, r: Expression) -> Expression {
    Expression::Binary(op, Box::new(l), Box::new(r))
}

fn op(o: Operator) -> Token {
    Token::Operator(o)
}

fn n(v: i32) -> Token {
    Token::Number(Number::from_int(v))
}

#[test]
fn precedence_table() {
    assert_eq!(Operator::Paren.get_prec(), 0);
    assert_eq!(Operator::Call.get_prec(), 0);
    assert_eq!(Operator::LogicalOr.get_prec(), 1);
    assert_eq!(Operator::LogicalAnd.get_prec(), 2);
    assert_eq!(Operator::BitwiseOr.get_prec(), 3);
    assert_eq!(Operator::BitwiseXor.get_prec(), 4);
    assert_eq!(Operator::BitwiseAnd.get_prec(), 5);
    assert_eq!(Operator::NotEqual.get_prec(), 6);
    assert_eq!(Operator::GreaterThanEqual.get_prec(), 7);
    assert_eq!(Operator::ShiftLeft.get_prec(), 8);
    assert_eq!(Operator::Negate.get_prec(), 9);
    assert_eq!(Operator::Modulo.get_prec(), 11);
    assert_eq!(Operator::UnaryMinus.get_prec(), 12);
    assert_eq!(Operator::Power.get_prec(), 13);
}

#[test]
fn tighter_operator_first() {
    let left = Expression::new(vec![
        Token::LParen, n(2), op(Operator::Multiply), n(3), op(Operator::Plus), n(4), Token::RParen,
    ]);
    assert_eq!(left, binary(Operator::Plus, binary(Operator::Multiply, num(2), num(3)), num(4)));
    let right = Expression::new(vec![
        Token::LParen, n(1), op(Operator::Plus), n(2), op(Operator::Multiply), n(3), Token::RParen,
    ]);
    assert_eq!(right, binary(Operator::Plus, num(1), binary(Operator::Multiply, num(2), num(3))));
}

#[test]
fn equal_precedence_is_right_associative() {
    let e = Expression::new(vec![
        Token::LParen, n(1), op(Operator::Minus), n(2), op(Operator::Plus), n(3), Token::RParen,
    ]);
    assert_eq!(e, binary(Operator::Minus, num(1), binary(Operator::Plus, num(2), num(3))));
    let p = Expression::new(vec![
        Token::LParen, n(2), op(Operator::Power), n(3), op(Operator::Power), n(2), Token::RParen,
    ]);
    assert_eq!(p, binary(Operator::Power, num(2), binary(Operator::Power, num(3), num(2))));
}

#[test]
fn unary_minus_and_not() {
    let e = Expression::new(vec![
        Token::LParen, op(Operator::Minus), n(1), op(Operator::Plus), n(2), Token::RParen,
    ]);
    assert_eq!(
        e,
        binary(Operator::Plus, Expression::Unary(Operator::UnaryMinus, Box::new(num(1))), num(2))
    );
    let not = Expression::new(vec![Token::LParen, op(Operator::UnaryNot), n(0), Token::RParen]);
    assert_eq!(not, Expression::Unary(Operator::UnaryNot, Box::new(num(0))));
}

#[test]
fn call_expression() {
    assert_eq!(
        lex("call foo(1, bar + 2)"),
        vec![
            Token::Instruction("call".to_string()),
            Token::Expression(Expression::Call(
                "foo".to_string(),
                vec![num(1), binary(Operator::Plus, Expression::Name("bar".to_string()), num(2))]
            )),
            Token::Eof,
        ]
    );
}

#[test]
fn call_with_name_argument() {
    let e = Expression::new(vec![
        Token::LParen,
        Token::Name("f".to_string()),
        Token::LParen,
        Token::Name("x".to_string()),
        Token::RParen,
        Token::RParen,
    ]);
    assert_eq!(e, Expression::Call("f".to_string(), vec![Expression::Name("x".to_string())]));
}

#[test]
fn unbalanced_expressions() {
    let open = Expression::new(vec![Token::LParen, Token::LParen, n(1), Token::RParen]);
    assert_eq!(open, Expression::Invalid("Malformed expression".to_string()));
    let close = Expression::new(vec![Token::LParen, n(1), Token::RParen, Token::RParen]);
    assert_eq!(close, Expression::Invalid("Malformed expression".to_string()));
    let missing = Expression::new(vec![Token::LParen, op(Operator::Minus), Token::RParen]);
    assert_eq!(missing, Expression::Invalid("Missing operand".to_string()));
}

#[test]
fn decimal_numbers() {
    assert_eq!(raw("42"), vec![number(42), Token::Eof]);
    assert_eq!(raw("1_000"), vec![number(1000), Token::Eof]);
    assert_eq!(raw("-17"), vec![number(-17), Token::Eof]);
    assert_eq!(raw("1.25"), vec![Token::Number(Number { units: 125_000_000 }), Token::Eof]);
    assert_eq!(raw("0.00000001"), vec![Token::Number(Number { units: 1 }), Token::Eof]);
    assert_eq!(raw("7."), vec![number(7), Token::Eof]);
    assert_eq!(raw("1234567"), vec![number(1234567), Token::Eof]);
}

#[test]
fn decimal_too_long() {
    assert_eq!(
        raw("123456789"),
        vec![Token::Error("Decimal literal exceeds maximum length of 8 digits".to_string()), Token::Eof]
    );
    assert_eq!(raw("12345678"), vec![number(12345678), Token::Eof]);
    assert_eq!(raw("1.12345678"), vec![Token::Number(Number { units: 112_345_678 }), Token::Eof]);
    assert_eq!(
        raw("1.123456789"),
        vec![Token::Error("Decimal literal exceeds maximum length of 8 digits".to_string()), Token::Eof]
    );
}

#[test]
fn binary_and_hex_numbers() {
    assert_eq!(raw("%101"), vec![number(5), Token::Eof]);
    assert_eq!(raw("%1111_0000"), vec![number(240), Token::Eof]);
    assert_eq!(raw("$1F"), vec![number(31), Token::Eof]);
    assert_eq!(raw("$ffff"), vec![number(65535), Token::Eof]);
    assert_eq!(raw("$Ab_C"), vec![number(2748), Token::Eof]);
}

#[test]
fn binary_and_hex_too_long() {
    assert_eq!(
        raw("%101010101"),
        vec![Token::Error("Binary literal exceeds maximum length of 8 digits".to_string()), Token::Eof]
    );
    assert_eq!(
        raw("$12345"),
        vec![Token::Error("Hex literal exceeds maximum length of 4 digits".to_string()), Token::Eof]
    );
}

#[test]
fn operators() {
    assert_eq!(
        raw("== != <= >= << >> && || // ** < > ! + - * / % & | ~ ^"),
        vec![
            op(Operator::Equal),
            op(Operator::NotEqual),
            op(Operator::LessThanEqual),
            op(Operator::GreaterThanEqual),
            op(Operator::ShiftLeft),
            op(Operator::ShiftRight),
            op(Operator::LogicalAnd),
            op(Operator::LogicalOr),
            op(Operator::IntegerDivide),
            op(Operator::Power),
            op(Operator::LessThan),
            op(Operator::GreaterThan),
            op(Operator::UnaryNot),
            op(Operator::Plus),
            op(Operator::Minus),
            op(Operator::Multiply),
            op(Operator::Divide),
            op(Operator::Modulo),
            op(Operator::BitwiseAnd),
            op(Operator::BitwiseOr),
            op(Operator::Negate),
            op(Operator::BitwiseXor),
            Token::Eof,
        ]
    );
}

#[test]
fn lone_equals_is_invalid() {
    assert_eq!(raw("="), vec![Token::Error("Invalid operator \"61\"".to_string()), Token::Eof]);
}

#[test]
fn unexpected_character() {
    assert_eq!(raw("#"), vec![Token::Error("Unexpected character (35)".to_string()), Token::Eof]);
    assert_eq!(
        raw("`a"),
        vec![Token::Error("Unexpected character (96)".to_string()), Token::Name("a".to_string()), Token::Eof]
    );
}

#[test]
fn names_and_keywords() {
    assert_eq!(
        raw("ldh SECTION MACRO ENDMACRO start: x_1 LD"),
        vec![
            Token::Instruction("ldh".to_string()),
            Token::Directive("SECTION".to_string()),
            Token::MacroDef,
            Token::MacroEnd,
            Token::GlobalLabelDef("start".to_string()),
            Token::Name("x_1".to_string()),
            Token::Name("LD".to_string()),
            Token::Eof,
        ]
    );
}

#[test]
fn local_labels() {
    assert_eq!(
        raw(".loop: .loop"),
        vec![
            Token::LocalLabelDef(".loop".to_string()),
            Token::LocalLabelRef(".loop".to_string()),
            Token::Eof,
        ]
    );
}

#[test]
fn punctuation_comments_and_newlines() {
    assert_eq!(
        raw("( ) [ ] , ; note\r\n"),
        vec![
            Token::LParen,
            Token::RParen,
            Token::LBrace,
            Token::RBrace,
            Token::Comma,
            Token::Newline,
            Token::Newline,
            Token::Eof,
        ]
    );
}

#[test]
fn at_sign_forms() {
    assert_eq!(
        raw("@- @+ @arg @!"),
        vec![
            Token::NegativeOffset,
            Token::PositiveOffset,
            Token::MacroArg("arg".to_string()),
            Token::Error(
                "Unexpected \"33\", expected a valid direction specifier (- or +) instead".to_string()
            ),
            op(Operator::UnaryNot),
            Token::Eof,
        ]
    );
}

#[test]
fn macro_context_errors() {
    assert_eq!(
        lex("@x"),
        vec![
            Token::Error("Unexpected macro argument @x outside of macro arguments or macro body".to_string()),
            Token::Eof,
        ]
    );
    assert_eq!(
        lex("ENDMACRO"),
        vec![Token::Error("Unexpected ENDMACRO directive outside of macro".to_string()), Token::Eof]
    );
    assert_eq!(
        lex("MACRO 1"),
        vec![Token::Error("Expected name after MACRO directive".to_string()), Token::Eof]
    );
    assert_eq!(
        lex("MACRO a MACRO b"),
        vec![
            Token::Macro("a".to_string()),
            Token::Error("Already inside a MACRO arguments signature".to_string()),
            Token::Eof,
        ]
    );
}

#[test]
fn eof_is_final_and_repeats() {
    let mut lexer = Lexer::new(SourceString::new("t", "nop ; done"));
    assert_eq!(lexer.next(), Token::Instruction("nop".to_string()));
    assert_eq!(lexer.next(), Token::Eof);
    assert_eq!(lexer.next(), Token::Eof);
    assert_eq!(lexer.next(), Token::Eof);
    let all = lex("DB 1, 2\n.x: jp .x\n");
    assert_eq!(all.iter().filter(|t| **t == Token::Eof).count(), 1);
    assert_eq!(all.last(), Some(&Token::Eof));
    assert_eq!(lex(""), vec![Token::Eof]);
}

#[test]
fn nul_byte_ends_input() {
    assert_eq!(raw("nop\0nop"), vec![Token::Instruction("nop".to_string()), Token::Eof]);
}

#[test]
fn token_types() {
    assert_eq!(Token::Comma.to_type(), TokenType::Comma);
    assert_eq!(Token::Offset(3).to_type(), TokenType::Offset);
    assert_eq!(number(1).to_type(), TokenType::Number);
    assert_eq!(Token::Expression(num(1)).to_type(), TokenType::Expression);
}

#[test]
fn number_truncation() {
    assert_eq!(Number { units: 475_000_000 }.truncate(), 4);
    assert_eq!(Number { units: -250_000_000 }.truncate(), -2);
    assert_eq!(Number::from_int(-9).units, -900_000_000);
}

#[test]
fn source_string_cursor() {
    let mut s = SourceString::new("p.gbc", "ab");
    assert_eq!(s.path(), "p.gbc");
    assert_eq!(s.get(), 0);
    assert_eq!(s.peek(), b'a');
    assert_eq!(s.next(), b'a');
    assert_eq!(s.peek(), b'b');
    assert!(!s.is_empty());
    assert_eq!(s.next(), b'b');
    assert_eq!(s.peek(), 0);
    assert!(!s.is_empty());
    assert_eq!(s.next(), 0);
    assert!(s.is_empty());
    assert_eq!(s.next(), 0);
    assert_eq!(s.get(), 0);
}

#[test]
fn parse_stops_at_first_error() {
    let tokens = SourceString::new("p", "nop\n# nop").parse();
    assert_eq!(
        tokens,
        vec![
            Token::Instruction("nop".to_string()),
            Token::Newline,
            Token::Error("Unexpected character (35)".to_string()),
        ]
    );
}

#[test]
fn source_files_and_linker() {
    let mut files = vec![
        SourceFile::new("src", "a.gbc", "nop"),
        SourceFile::new("src", "b.gbc", "halt"),
    ];
    assert_eq!(files[1].filename(), "b.gbc");
    assert_eq!(files[0].path(), "src");
    assert_eq!(files[0].parse(), vec![Token::Instruction("nop".to_string()), Token::Eof]);
    Linker::link_files(&mut files);
    assert!(files.iter().all(|f| f.id() == 1));
    Linker::init_files(&mut files);
    assert!(files.iter().all(|f| f.id() == 0));
}

#[test]
fn helper_functions() {
    assert!(is_instruction(&b"reti".to_vec()));
    assert!(!is_instruction(&b"RETI".to_vec()));
    assert!(is_directive(&b"INCBIN".to_vec()));
    assert!(!is_directive(&b"db".to_vec()));
    assert_eq!(to_number(&vec![1, 0, 1], 2), 5);
    assert_eq!(to_number(&vec![15, 15], 16), 255);
    assert_eq!(to_number(&vec![9, 9, 9], 10), 999);
    assert_eq!(string_from_bytes(vec![104, 105]), "hi");
    assert_eq!(string_from_bytes(vec![0xff]), "");
}

#[test]
fn raw_scan_covers_input() {
    let mut lexer = BaseLexer::new(SourceString::new("cover", "ld a,b ; c\n\t$10"));
    assert_eq!(
        lexer.tokens(),
        vec![
            Token::Instruction("ld".to_string()),
            Token::Name("a".to_string()),
            Token::Comma,
            Token::Name("b".to_string()),
            Token::Newline,
            number(16),
            Token::Eof,
        ]
    );
    assert_eq!(lexer.next(), Token::Eof);
}

#[test]
fn fractions_stay_in_numbers() {
    assert_eq!(
        lex("DB 1.5\n@+1.5"),
        vec![
            Token::Directive("DB".to_string()),
            Token::Expression(Expression::Number(Number { units: 150_000_000 })),
            Token::Newline,
            Token::Offset(1),
            Token::Eof,
        ]
    );
}
