use vstd::prelude::*;
use vstd::utf8::{decode_utf8, valid_utf8};

use crate::charset::{
    binary_byte, decimal_byte, digit_of, digit_value, digits_value, hex_byte, is_binary,
    is_decimal, is_directive, is_directive_word, is_hex, is_instruction, is_instruction_word,
    is_macro_end_keyword, is_macro_end_word, is_macro_keyword, is_macro_word, is_name_part,
    is_name_start, is_newline, is_operator, is_whitespace, lemma_digits_bound, name_part_byte,
    name_start_byte, newline_byte, operator_byte, power, string_from_bytes, text_of, to_number,
    whitespace_byte, all_below,
};
use crate::operator::Operator;
use crate::source::{byte_at, current_of, cursor_ok, SourceIter};
use crate::token::{text_payload, type_of, Number, Token, TokenType, MAX_UNITS, UNITS_PER_ONE};

verus! {

/// Digits of a numeric literal's text: underscores dropped, each digit byte
/// replaced by its value.
pub open spec fn digits_of(s: Seq<u8>) -> Seq<u8>
    decreases s.len(),
{
    if s.len() == 0 {
        Seq::empty()
    } else if s.last() == '_' as u8 {
        digits_of(s.drop_last())
    } else {
        digits_of(s.drop_last()).push(digit_value(s.last()))
    }
}

/// Operator spelled by the two bytes `c`, `n`.
pub open spec fn double_operator(c: u8, n: u8) -> Option<Operator> {
    if c == '=' as u8 && n == '=' as u8 {
        Some(Operator::Equal)
    } else if c == '>' as u8 && n == '>' as u8 {
        Some(Operator::ShiftRight)
    } else if c == '<' as u8 && n == '<' as u8 {
        Some(Operator::ShiftLeft)
    } else if c == '&' as u8 && n == '&' as u8 {
        Some(Operator::LogicalAnd)
    } else if c == '|' as u8 && n == '|' as u8 {
        Some(Operator::LogicalOr)
    } else if c == '!' as u8 && n == '=' as u8 {
        Some(Operator::NotEqual)
    } else if c == '>' as u8 && n == '=' as u8 {
        Some(Operator::GreaterThanEqual)
    } else if c == '<' as u8 && n == '=' as u8 {
        Some(Operator::LessThanEqual)
    } else if c == '/' as u8 && n == '/' as u8 {
        Some(Operator::IntegerDivide)
    } else if c == '*' as u8 && n == '*' as u8 {
        Some(Operator::Power)
    } else {
        None
    }
}

/// Operator spelled by the single byte `c`.
pub open spec fn single_operator(c: u8) -> Option<Operator> {
    if c == '>' as u8 {
        Some(Operator::GreaterThan)
    } else if c == '<' as u8 {
        Some(Operator::LessThan)
    } else if c == '!' as u8 {
        Some(Operator::UnaryNot)
    } else if c == '+' as u8 {
        Some(Operator::Plus)
    } else if c == '-' as u8 {
        Some(Operator::Minus)
    } else if c == '*' as u8 {
        Some(Operator::Multiply)
    } else if c == '/' as u8 {
        Some(Operator::Divide)
    } else if c == '%' as u8 {
        Some(Operator::Modulo)
    } else if c == '&' as u8 {
        Some(Operator::BitwiseAnd)
    } else if c == '|' as u8 {
        Some(Operator::BitwiseOr)
    } else if c == '~' as u8 {
        Some(Operator::Negate)
    } else if c == '^' as u8 {
        Some(Operator::BitwiseXor)
    } else {
        None
    }
}

/// Byte that an escape sequence `\c` in a string literal stands for.
pub open spec fn escape_value(c: u8) -> Option<u8> {
    if c == '0' as u8 {
        Some(0u8)
    } else if c == 'b' as u8 {
        Some(7u8)
    } else if c == 't' as u8 {
        Some(9u8)
    } else if c == 'n' as u8 {
        Some(10u8)
    } else if c == 'v' as u8 {
        Some(11u8)
    } else if c == 'r' as u8 {
        Some(13u8)
    } else if c == '"' as u8 {
        Some(34u8)
    } else if c == '\'' as u8 {
        Some(39u8)
    } else if c == '\\' as u8 {
        Some(92u8)
    } else {
        None
    }
}

/// Whether `c` is a digit of `radix` (2 or 16).
pub open spec fn radix_digit(c: u8, radix: nat) -> bool {
    if radix == 2 {
        binary_byte(c)
    } else if radix == 10 {
        decimal_byte(c)
    } else {
        hex_byte(c)
    }
}

/// Where a run of digits of `radix` that starts at `p` ends, and how many
/// digits it holds, `count` digits having been read before `p`. A single
/// underscore after a digit belongs to the run; the run stops right after
/// digit number `cap + 1`.
pub open spec fn digit_run(inp: Seq<u8>, p: int, count: nat, radix: nat, cap: nat) -> (int, nat)
    decreases inp.len() - p,
{
    if 0 <= p < inp.len() && radix_digit(inp[p], radix) {
        let q = if byte_at(inp, p + 1) == '_' as u8 {
            p + 2
        } else {
            p + 1
        };
        if count + 1 > cap || q > inp.len() {
            (q, count + 1)
        } else {
            digit_run(inp, q, count + 1, radix, cap)
        }
    } else {
        (p, count)
    }
}

fn is_radix_digit(c: u8, radix: u64) -> (r: bool)
    ensures
        r == radix_digit(c, radix as nat),
{
    if radix == 2 {
        is_binary(c)
    } else if radix == 10 {
        is_decimal(c)
    } else {
        is_hex(c)
    }
}

/// How the body of a string literal reads: closed after `n` bytes with the
/// decoded bytes, cut off by the end of the input, or stopped by an unknown
/// escape whose byte stands `n` bytes in.
pub enum StringScan {
    Closed(Seq<u8>, int),
    Unclosed,
    BadEscape(u8, int),
}

/// Reads the bytes `s` that follow the opening delimiter `delim` of a string
/// literal.
pub open spec fn scan_string(s: Seq<u8>, delim: u8) -> StringScan
    decreases s.len(),
{
    if s.len() == 0 {
        StringScan::Unclosed
    } else if s[0] == delim {
        StringScan::Closed(Seq::empty(), 1)
    } else if s[0] == '\\' as u8 {
        match escape_value(byte_at(s, 1)) {
            Some(v) => shift_scan(seq![v], 2, scan_string(s.skip(2), delim)),
            None => StringScan::BadEscape(byte_at(s, 1), 1),
        }
    } else {
        shift_scan(seq![s[0]], 1, scan_string(s.skip(1), delim))
    }
}

/// A scan result preceded by `k` more bytes that decode to `prefix`.
pub open spec fn shift_scan(prefix: Seq<u8>, k: int, o: StringScan) -> StringScan {
    match o {
        StringScan::Closed(b, n) => StringScan::Closed(prefix + b, k + n),
        StringScan::Unclosed => StringScan::Unclosed,
        StringScan::BadEscape(e, n) => StringScan::BadEscape(e, k + n),
    }
}

proof fn lemma_shift_shift(p: Seq<u8>, k: int, q: Seq<u8>, m: int, o: StringScan)
    ensures
        shift_scan(p, k, shift_scan(q, m, o)) == shift_scan(p + q, k + m, o),
{
    match o {
        StringScan::Closed(b, n) => {
            assert(p + (q + b) =~= (p + q) + b);
        },
        _ => {},
    }
}

proof fn lemma_shift_empty(o: StringScan)
    ensures
        shift_scan(Seq::empty(), 0, o) == o,
{
    match o {
        StringScan::Closed(b, n) => {
            assert(Seq::<u8>::empty() + b =~= b);
        },
        _ => {},
    }
}

/// Whether every byte of `s` satisfies `p`.
pub open spec fn all_bytes(s: Seq<u8>, p: spec_fn(u8) -> bool) -> bool {
    forall|i: int| 0 <= i < s.len() ==> p(#[trigger] s[i])
}

/// Kind of the token for a name whose bytes are `name` and which is
/// followed by the byte `after`.
pub open spec fn name_kind(name: Seq<u8>, after: u8) -> TokenType {
    if is_instruction_word(name) {
        TokenType::Instruction
    } else if is_directive_word(name) {
        TokenType::Directive
    } else if is_macro_word(name) {
        TokenType::MacroDef
    } else if is_macro_end_word(name) {
        TokenType::MacroEnd
    } else if after == ':' as u8 {
        TokenType::GlobalLabelDef
    } else {
        TokenType::Name
    }
}

/// The text of a decimal digit.
pub open spec fn digit_text(d: int) -> Seq<char> {
    if d == 0 {
        "0"@
    } else if d == 1 {
        "1"@
    } else if d == 2 {
        "2"@
    } else if d == 3 {
        "3"@
    } else if d == 4 {
        "4"@
    } else if d == 5 {
        "5"@
    } else if d == 6 {
        "6"@
    } else if d == 7 {
        "7"@
    } else if d == 8 {
        "8"@
    } else {
        "9"@
    }
}

/// Decimal text of a byte value.
pub open spec fn byte_text(b: u8) -> Seq<char> {
    if b >= 100 {
        digit_text(b as int / 100) + digit_text((b as int / 10) % 10) + digit_text(b as int % 10)
    } else if b >= 10 {
        digit_text(b as int / 10) + digit_text(b as int % 10)
    } else {
        digit_text(b as int)
    }
}

fn digit_str(d: u8) -> (r: &'static str)
    requires
        d < 10,
    ensures
        r@ == digit_text(d as int),
{
    if d == 0 {
        "0"
    } else if d == 1 {
        "1"
    } else if d == 2 {
        "2"
    } else if d == 3 {
        "3"
    } else if d == 4 {
        "4"
    } else if d == 5 {
        "5"
    } else if d == 6 {
        "6"
    } else if d == 7 {
        "7"
    } else if d == 8 {
        "8"
    } else {
        "9"
    }
}

/// `prefix`, the decimal value of `b`, then `suffix`.
pub fn message_with_byte(prefix: &str, b: u8, suffix: &str) -> (r: String)
    ensures
        r@ == prefix@ + byte_text(b) + suffix@,
{
    let mut s = String::from_str(prefix);
    if b >= 100 {
        s.append(digit_str(b / 100));
    }
    if b >= 10 {
        s.append(digit_str((b / 10) % 10));
    }
    s.append(digit_str(b % 10));
    s.append(suffix);
    s
}

/// Units of the unsigned decimal literal with integer digits `whole` and
/// fractional digits `fraction`.
pub open spec fn decimal_units(whole: Seq<u8>, fraction: Seq<u8>) -> int {
    digits_value(whole, 10) * UNITS_PER_ONE + digits_value(fraction, 10) * power(
        10,
        (8 - fraction.len()) as nat,
    )
}

/// `units`, negated when `negative`.
pub open spec fn signed(negative: bool, units: int) -> int {
    if negative {
        -units
    } else {
        units
    }
}

/// Whether a token's number, if it has one, stays within the literal range.
pub open spec fn number_in_range(t: Token) -> bool {
    t matches Token::Number(n) ==> -MAX_UNITS <= n.units <= MAX_UNITS
}

/// Token kinds that the raw scanner produces.
pub open spec fn is_raw_kind(k: TokenType) -> bool {
    k != TokenType::Expression && k != TokenType::Offset && k != TokenType::Macro
        && k != TokenType::Begin
}

/// `b^(m+n) == b^m * b^n`.
pub proof fn lemma_power_add(b: nat, m: nat, n: nat)
    ensures
        power(b, m + n) == power(b, m) * power(b, n),
    decreases m,
{
    if m > 0 {
        let k = (m - 1) as nat;
        lemma_power_add(b, k, n);
        assert((k + n) as nat == (m + n - 1) as nat);
        assert(power(b, m + n) == b * power(b, (k + n) as nat));
        assert(power(b, m) == b * power(b, k));
        let x = power(b, k);
        let y = power(b, n);
        assert(b * (x * y) == (b * x) * y) by (nonlinear_arith);
        assert(power(b, m + n) == b * (x * y));
        assert(power(b, m) * y == (b * x) * y);
    } else {
        assert(power(b, m) == 1);
        assert(power(b, m + n) == power(b, n));
        assert(1 * power(b, n) == power(b, n));
    }
}

/// A comment from `start` (the `;`) to `end`, the first line break or the
/// end of the input.
pub open spec fn comment_at(inp: Seq<u8>, start: int, end: int, r: Token) -> bool {
    &&& start < end
    &&& all_bytes(inp.subrange(start + 1, end), |b: u8| !newline_byte(b))
    &&& end == inp.len() || newline_byte(byte_at(inp, end))
    &&& type_of(r) == TokenType::Comment
    &&& text_payload(r) == text_of(inp.subrange(start + 1, end))
}

/// A run of whitespace from `start` to `end`.
pub open spec fn whitespace_at(inp: Seq<u8>, start: int, end: int, r: Token) -> bool {
    &&& start < end
    &&& all_bytes(inp.subrange(start, end), |b: u8| whitespace_byte(b))
    &&& !whitespace_byte(byte_at(inp, end))
    &&& r == Token::Whitespace
}

/// An operator of one or two bytes at `start`.
pub open spec fn operator_at(inp: Seq<u8>, start: int, end: int, r: Token) -> bool {
    let ch = byte_at(inp, start);
    match double_operator(ch, byte_at(inp, start + 1)) {
        Some(op) => r == Token::Operator(op) && end == start + 2,
        None => end == start + 1 && match single_operator(ch) {
            Some(op) => r == Token::Operator(op),
            None => (r matches Token::Error(m) && m@ == "Invalid operator \""@ + byte_text(ch)
                + "\""@),
        },
    }
}

/// A decimal literal whose digits start at `start` and which ends at `end`,
/// negated when `negative`: at most eight integer digits, then optionally a
/// `.` and at most eight fractional digits.
pub open spec fn decimal_at(inp: Seq<u8>, start: int, end: int, negative: bool, r: Token) -> bool {
    let whole = digit_run(inp, start, 0, 10, 8);
    let m = whole.0;
    let fraction = digit_run(inp, m + 1, 0, 10, 8);
    &&& number_in_range(r)
    &&& if whole.1 > 8 {
        end == m && (r matches Token::Error(msg) && msg@
            == "Decimal literal exceeds maximum length of 8 digits"@)
    } else if byte_at(inp, m) == '.' as u8 {
        &&& end == fraction.0
        &&& if fraction.1 > 8 {
            r matches Token::Error(msg) && msg@
                == "Decimal literal exceeds maximum length of 8 digits"@
        } else {
            r matches Token::Number(n) && n.units == signed(
                negative,
                decimal_units(
                    digits_of(inp.subrange(start, m)),
                    digits_of(inp.subrange(m + 1, end)),
                ),
            )
        }
    } else {
        end == m && (r matches Token::Number(n) && n.units == signed(
            negative,
            decimal_units(digits_of(inp.subrange(start, m)), Seq::empty()),
        ))
    }
}

/// A binary (`radix` 2) or hexadecimal (`radix` 16) literal whose digits
/// start at `start`, with at most `max_len` digits.
pub open spec fn radix_at(
    inp: Seq<u8>,
    start: int,
    end: int,
    radix: nat,
    max_len: nat,
    too_long: Seq<char>,
    r: Token,
) -> bool {
    let run = digit_run(inp, start, 0, radix, max_len);
    &&& end == run.0
    &&& number_in_range(r)
    &&& if run.1 > max_len {
        r matches Token::Error(m) && m@ == too_long
    } else {
        r matches Token::Number(n) && n.units == digits_value(
            digits_of(inp.subrange(start, end)),
            radix,
        ) * UNITS_PER_ONE
    }
}

/// A string literal opened at `start`.
pub open spec fn string_at(inp: Seq<u8>, start: int, end: int, r: Token) -> bool {
    match scan_string(inp.subrange(start + 1, inp.len() as int), byte_at(inp, start)) {
        StringScan::Closed(b, n) => {
            &&& end == start + 1 + n
            &&& valid_utf8(b) ==> type_of(r) == TokenType::String && text_payload(r) == decode_utf8(b)
            &&& !valid_utf8(b) ==> (r matches Token::Error(m) && m@ == "Invalid string literal contents"@)
        },
        StringScan::Unclosed => {
            &&& end == inp.len()
            &&& r matches Token::Error(m) && m@ == "Unclosed string literal"@
        },
        StringScan::BadEscape(e, n) => {
            &&& end == start + 1 + n
            &&& r matches Token::Error(m) && m@ == "Unknown character escape sequence \""@
                + byte_text(e) + "\" in string literal"@
        },
    }
}

/// A name starting at `start`, followed by a colon that is consumed when it
/// makes a label definition.
pub open spec fn name_at(inp: Seq<u8>, start: int, end: int, r: Token) -> bool {
    let stop = if type_of(r) == TokenType::GlobalLabelDef {
        end - 1
    } else {
        end
    };
    let name = inp.subrange(start, stop);
    &&& start < stop <= end
    &&& all_bytes(name, |b: u8| name_part_byte(b))
    &&& !name_part_byte(byte_at(inp, stop))
    &&& type_of(r) == name_kind(name, byte_at(inp, stop))
    &&& text_payload(r) == if type_of(r) == TokenType::MacroDef || type_of(r)
        == TokenType::MacroEnd {
        Seq::empty()
    } else {
        text_of(name)
    }
}

/// A local label (`.name`, with a trailing colon for a definition) at
/// `start`.
pub open spec fn local_label_at(inp: Seq<u8>, start: int, end: int, r: Token) -> bool {
    let stop = if type_of(r) == TokenType::LocalLabelDef {
        end - 1
    } else {
        end
    };
    let label = inp.subrange(start, stop);
    &&& start + 1 < stop <= end
    &&& all_bytes(label.drop_first(), |b: u8| name_part_byte(b))
    &&& !name_part_byte(byte_at(inp, stop))
    &&& type_of(r) == if byte_at(inp, stop) == ':' as u8 {
        TokenType::LocalLabelDef
    } else {
        TokenType::LocalLabelRef
    }
    &&& text_payload(r) == text_of(label)
}

/// An offset sign or a macro argument after the `@` at `start`.
pub open spec fn at_sign_at(inp: Seq<u8>, start: int, end: int, r: Token) -> bool {
    let sign = byte_at(inp, start + 1);
    &&& start < end
    &&& sign == '-' as u8 ==> r == Token::NegativeOffset && end == start + 2
    &&& sign == '+' as u8 ==> r == Token::PositiveOffset && end == start + 2
    &&& name_start_byte(sign) ==> {
        let name = inp.subrange(start + 1, end);
        &&& type_of(r) == TokenType::MacroArg
        &&& text_payload(r) == text_of(name)
        &&& all_bytes(name, |b: u8| name_part_byte(b))
        &&& !name_part_byte(byte_at(inp, end))
    }
    &&& sign != '-' as u8 && sign != '+' as u8 && !name_start_byte(sign) ==> (r matches Token::Error(
        m,
    ) && m@ == "Unexpected \""@ + byte_text(sign)
        + "\", expected a valid direction specifier (- or +) instead"@ && end == start + 1)
}

/// The raw token read from `start` to `end`, as the first byte (and for
/// `-`, `%`, `$` and `.` the byte after it) selects.
pub open spec fn raw_token_at(inp: Seq<u8>, start: int, end: int, r: Token) -> bool {
    let c = byte_at(inp, start);
    let n = byte_at(inp, start + 1);
    if newline_byte(c) {
        r == Token::Newline && end == start + 1
    } else if c == ';' as u8 {
        comment_at(inp, start, end, r)
    } else if c == '(' as u8 {
        r == Token::LParen && end == start + 1
    } else if c == ')' as u8 {
        r == Token::RParen && end == start + 1
    } else if c == '[' as u8 {
        r == Token::LBrace && end == start + 1
    } else if c == ']' as u8 {
        r == Token::RBrace && end == start + 1
    } else if c == ',' as u8 {
        r == Token::Comma && end == start + 1
    } else if c == '"' as u8 || c == '\'' as u8 {
        string_at(inp, start, end, r)
    } else if c == '@' as u8 {
        at_sign_at(inp, start, end, r)
    } else if c == '-' as u8 && decimal_byte(n) {
        decimal_at(inp, start + 1, end, true, r)
    } else if c == '%' as u8 && binary_byte(n) {
        radix_at(inp, start + 1, end, 2, 8, "Binary literal exceeds maximum length of 8 digits"@, r)
    } else if c == '$' as u8 && hex_byte(n) {
        radix_at(inp, start + 1, end, 16, 4, "Hex literal exceeds maximum length of 4 digits"@, r)
    } else if c == '.' as u8 && name_start_byte(n) {
        local_label_at(inp, start, end, r)
    } else if whitespace_byte(c) {
        whitespace_at(inp, start, end, r)
    } else if name_start_byte(c) {
        name_at(inp, start, end, r)
    } else if decimal_byte(c) {
        decimal_at(inp, start, end, false, r)
    } else if operator_byte(c) {
        operator_at(inp, start, end, r)
    } else if c == 0 {
        r == Token::Eof && end == start
    } else {
        end == start + 1 && (r matches Token::Error(m) && m@ == "Unexpected character ("@
            + byte_text(c) + ")"@)
    }
}

/// End of the run of whitespace bytes that starts at `a`.
pub open spec fn blank_end(inp: Seq<u8>, a: int) -> int
    decreases inp.len() - a,
{
    if 0 <= a < inp.len() && whitespace_byte(inp[a]) {
        blank_end(inp, a + 1)
    } else {
        a
    }
}

/// The first line break at or after `a`, or the end of the input.
pub open spec fn line_end(inp: Seq<u8>, a: int) -> int
    decreases inp.len() - a,
{
    if 0 <= a < inp.len() && !newline_byte(inp[a]) {
        line_end(inp, a + 1)
    } else {
        a
    }
}

/// Where the whitespace run or comment at `a` ends; `a` itself when none
/// starts there.
pub open spec fn skip_one(inp: Seq<u8>, a: int) -> int {
    let c = byte_at(inp, a);
    if whitespace_byte(c) {
        blank_end(inp, a)
    } else if c == ';' as u8 {
        line_end(inp, a + 1)
    } else {
        a
    }
}

/// Start of the next token at or after `a`, past whitespace and comments.
pub open spec fn skip_all(inp: Seq<u8>, a: int) -> int
    decreases inp.len() - a,
{
    let e = skip_one(inp, a);
    if a < e <= inp.len() {
        skip_all(inp, e)
    } else {
        a
    }
}

proof fn lemma_blank_end(inp: Seq<u8>, a: int, e: int)
    requires
        0 <= a <= e <= inp.len(),
        all_bytes(inp.subrange(a, e), |b: u8| whitespace_byte(b)),
        !whitespace_byte(byte_at(inp, e)),
    ensures
        blank_end(inp, a) == e,
    decreases e - a,
{
    if a < e {
        assert(whitespace_byte(inp.subrange(a, e)[0]));
        assert(all_bytes(inp.subrange(a + 1, e), |b: u8| whitespace_byte(b))) by {
            assert forall|i: int| 0 <= i < e - (a + 1) implies whitespace_byte(
                #[trigger] inp.subrange(a + 1, e)[i],
            ) by {
                assert(inp.subrange(a + 1, e)[i] == inp.subrange(a, e)[i + 1]);
            }
        }
        lemma_blank_end(inp, a + 1, e);
    }
}

proof fn lemma_line_end(inp: Seq<u8>, a: int, e: int)
    requires
        0 <= a <= e <= inp.len(),
        all_bytes(inp.subrange(a, e), |b: u8| !newline_byte(b)),
        e == inp.len() || newline_byte(byte_at(inp, e)),
    ensures
        line_end(inp, a) == e,
    decreases e - a,
{
    if a < e {
        assert(!newline_byte(inp.subrange(a, e)[0]));
        assert(all_bytes(inp.subrange(a + 1, e), |b: u8| !newline_byte(b))) by {
            assert forall|i: int| 0 <= i < e - (a + 1) implies !newline_byte(
                #[trigger] inp.subrange(a + 1, e)[i],
            ) by {
                assert(inp.subrange(a + 1, e)[i] == inp.subrange(a, e)[i + 1]);
            }
        }
        lemma_line_end(inp, a + 1, e);
    }
}

/// `ts` are the tokens read one after the other from position `p` on, each
/// past the whitespace and comments before it; the scan then stands at `q`.
pub open spec fn raw_stream(inp: Seq<u8>, p: int, ts: Seq<Token>, q: int) -> bool {
    exists|ends: Seq<int>|
        ends.len() == ts.len() + 1 && ends[0] == p && ends.last() == q && forall|i: int|
            0 <= i < ts.len() ==> raw_token_at(inp, skip_all(inp, ends[i]), ends[i + 1], #[trigger] ts[i])
}

/// Low-level scanner over a byte cursor, yielding uncombined tokens.
pub struct BaseLexer<S: SourceIter> {
    source: S,
}

impl<S: SourceIter> BaseLexer<S> {
    /// The scanner's invariant: the cursor stands on a byte of the input or
    /// at its end.
    pub closed spec fn wf(&self) -> bool {
        cursor_ok(&self.source) && self.source.position() >= 0
    }

    /// All bytes of the source.
    pub closed spec fn input(&self) -> Seq<u8> {
        self.source.input()
    }

    /// Position of the current byte.
    pub closed spec fn pos(&self) -> int {
        self.source.position()
    }

    /// The current byte, `0` at the end.
    pub closed spec fn cur(&self) -> u8 {
        current_of(&self.source)
    }

    /// Number of bytes from the current one to the end.
    pub closed spec fn remaining(&self) -> nat {
        (self.source.input().len() - self.source.position()) as nat
    }

    /// Wraps a cursor and moves it onto its first byte.
    pub fn new(source: S) -> (r: BaseLexer<S>)
        requires
            cursor_ok(&source),
        ensures
            r.wf(),
            r.input() == source.input(),
            r.pos() == if source.position() < source.input().len() {
                source.position() + 1
            } else {
                source.position()
            },
    {
        let mut source = source;
        source.next();
        BaseLexer { source }
    }

    fn parse_comment(&mut self) -> (r: Token)
        requires
            old(self).wf(),
            old(self).cur() == ';' as u8,
        ensures
            final(self).wf(),
            final(self).input() == old(self).input(),
            comment_at(final(self).input(), old(self).pos(), final(self).pos(), r),
    {
        let ghost start = self.pos();
        let mut bytes: Vec<u8> = Vec::new();
        self.source.next();
        while !self.source.is_empty() && !is_newline(self.source.get())
            invariant
                self.wf(),
                self.input() == old(self).input(),
                0 <= start < self.pos(),
                bytes@ == self.input().subrange(start + 1, self.pos()),
                all_bytes(bytes@, |b: u8| !newline_byte(b)),
            decreases self.remaining(),
        {
            let c = self.source.get();
            let ghost p = self.pos();
            let ghost prefix = self.input().subrange(start + 1, p);
            assert(c == self.input()[p]);
            bytes.push(c);
            self.source.next();
            assert(self.input().subrange(start + 1, self.pos()) =~= prefix.push(c));
        }
        Token::Comment(string_from_bytes(bytes))
    }

    fn parse_whitespace(&mut self) -> (r: Token)
        requires
            old(self).wf(),
            whitespace_byte(old(self).cur()),
        ensures
            final(self).wf(),
            final(self).input() == old(self).input(),
            whitespace_at(final(self).input(), old(self).pos(), final(self).pos(), r),
    {
        let ghost start = self.pos();
        while !self.source.is_empty() && is_whitespace(self.source.get())
            invariant
                self.wf(),
                self.input() == old(self).input(),
                0 <= start <= self.pos(),
                start == self.pos() ==> whitespace_byte(self.cur()),
                all_bytes(
                    self.input().subrange(start, self.pos()),
                    |b: u8| whitespace_byte(b),
                ),
            decreases self.remaining(),
        {
            let ghost before = self.input().subrange(start, self.pos());
            let ghost c = self.cur();
            let ghost p = self.pos();
            assert(c == self.input()[p]);
            self.source.next();
            assert(self.pos() == p + 1);
            assert(self.input().subrange(start, self.pos()) =~= before.push(c));
        }
        Token::Whitespace
    }

    fn parse_operator(&mut self, ch: u8, next: u8) -> (r: Token)
        requires
            old(self).wf(),
            ch == old(self).cur(),
            next == byte_at(old(self).input(), old(self).pos() + 1),
            operator_byte(ch),
        ensures
            final(self).wf(),
            final(self).input() == old(self).input(),
            operator_at(final(self).input(), old(self).pos(), final(self).pos(), r),
    {
        self.source.next();
        if ch == '=' as u8 && next == '=' as u8 {
            self.source.next();
            Token::Operator(Operator::Equal)
        } else if ch == '>' as u8 && next == '>' as u8 {
            self.source.next();
            Token::Operator(Operator::ShiftRight)
        } else if ch == '<' as u8 && next == '<' as u8 {
            self.source.next();
            Token::Operator(Operator::ShiftLeft)
        } else if ch == '&' as u8 && next == '&' as u8 {
            self.source.next();
            Token::Operator(Operator::LogicalAnd)
        } else if ch == '|' as u8 && next == '|' as u8 {
            self.source.next();
            Token::Operator(Operator::LogicalOr)
        } else if ch == '!' as u8 && next == '=' as u8 {
            self.source.next();
            Token::Operator(Operator::NotEqual)
        } else if ch == '>' as u8 && next == '=' as u8 {
            self.source.next();
            Token::Operator(Operator::GreaterThanEqual)
        } else if ch == '<' as u8 && next == '=' as u8 {
            self.source.next();
            Token::Operator(Operator::LessThanEqual)
        } else if ch == '/' as u8 && next == '/' as u8 {
            self.source.next();
            Token::Operator(Operator::IntegerDivide)
        } else if ch == '*' as u8 && next == '*' as u8 {
            self.source.next();
            Token::Operator(Operator::Power)
        } else if ch == '>' as u8 {
            Token::Operator(Operator::GreaterThan)
        } else if ch == '<' as u8 {
            Token::Operator(Operator::LessThan)
        } else if ch == '!' as u8 {
            Token::Operator(Operator::UnaryNot)
        } else if ch == '+' as u8 {
            Token::Operator(Operator::Plus)
        } else if ch == '-' as u8 {
            Token::Operator(Operator::Minus)
        } else if ch == '*' as u8 {
            Token::Operator(Operator::Multiply)
        } else if ch == '/' as u8 {
            Token::Operator(Operator::Divide)
        } else if ch == '%' as u8 {
            Token::Operator(Operator::Modulo)
        } else if ch == '&' as u8 {
            Token::Operator(Operator::BitwiseAnd)
        } else if ch == '|' as u8 {
            Token::Operator(Operator::BitwiseOr)
        } else if ch == '~' as u8 {
            Token::Operator(Operator::Negate)
        } else if ch == '^' as u8 {
            Token::Operator(Operator::BitwiseXor)
        } else {
            Token::Error(message_with_byte("Invalid operator \"", ch, "\""))
        }
    }

    /// Reads a run of digits of `radix`, skipping one underscore after
    /// each digit; stops once more than `max_len` digits have arrived, which
    /// the flag reports.
    fn parse_digits(&mut self, radix: u64, max_len: usize) -> (r: (Vec<u8>, bool))
        requires
            old(self).wf(),
            radix == 2 || radix == 10 || radix == 16,
            1 <= max_len <= 8,
        ensures
            final(self).wf(),
            final(self).input() == old(self).input(),
            ({
                let run = digit_run(old(self).input(), old(self).pos(), 0, radix as nat, max_len as nat);
                &&& final(self).pos() == run.0
                &&& r.0@.len() == run.1
                &&& r.1 == (run.1 > max_len)
                &&& r.0@ == digits_of(final(self).input().subrange(old(self).pos(), final(self).pos()))
                &&& all_below(r.0@, radix as nat)
                &&& r.0@.len() <= max_len + 1
                &&& old(self).pos() <= final(self).pos()
                &&& radix_digit(old(self).cur(), radix as nat) ==> old(self).pos() < final(self).pos()
            }),
    {
        let ghost start = self.pos();
        let ghost inp = self.input();
        let mut digit = self.source.get();
        let mut bytes: Vec<u8> = Vec::new();
        while is_radix_digit(digit, radix)
            invariant
                self.wf(),
                self.input() == inp,
                inp == old(self).input(),
                radix == 2 || radix == 10 || radix == 16,
                1 <= max_len <= 8,
                0 <= start <= self.pos(),
                start == old(self).pos(),
                digit == self.cur(),
                start == self.pos() ==> digit == old(self).cur(),
                bytes@ == digits_of(inp.subrange(start, self.pos())),
                bytes@.len() <= max_len,
                all_below(bytes@, radix as nat),
                digit_run(inp, start, 0, radix as nat, max_len as nat) == digit_run(
                    inp,
                    self.pos(),
                    bytes@.len() as nat,
                    radix as nat,
                    max_len as nat,
                ),
            decreases self.remaining(),
        {
            let ghost p = self.pos();
            let ghost span = inp.subrange(start, p);
            let ghost d = digit;
            assert(d == inp[p]);
            let v = digit_of(digit);
            bytes.push(v);
            digit = self.source.next();
            proof {
                let s2 = inp.subrange(start, self.pos());
                assert(s2.drop_last() =~= span);
                assert(s2.last() == d);
                assert(digits_of(s2) == digits_of(span).push(digit_value(d)));
                assert(bytes@ =~= digits_of(s2));
            }
            if digit == '_' as u8 {
                let ghost q = self.pos();
                let ghost span2 = inp.subrange(start, q);
                digit = self.source.next();
                proof {
                    let s3 = inp.subrange(start, self.pos());
                    assert(s3.drop_last() =~= span2);
                    assert(s3.last() == '_' as u8);
                    assert(digits_of(s3) == digits_of(span2));
                }
            }
            if bytes.len() > max_len {
                return (bytes, true);
            }
        }
        (bytes, false)
    }

    fn parse_decimal(&mut self, is_negative: bool) -> (r: Token)
        requires
            old(self).wf(),
            decimal_byte(old(self).cur()),
        ensures
            final(self).wf(),
            final(self).input() == old(self).input(),
            old(self).pos() < final(self).pos(),
            decimal_at(final(self).input(), old(self).pos(), final(self).pos(), is_negative, r),
    {
        let ghost start = self.pos();
        let ghost inp = self.input();
        let (whole, too_long) = self.parse_digits(10, 8);
        if too_long {
            return Token::Error(String::from_str("Decimal literal exceeds maximum length of 8 digits"));
        }
        let number = to_number(&whole, 10);
        let ghost m = self.pos();
        proof {
            crate::charset::lemma_power_monotone(10, whole@.len(), 8);
            crate::charset::lemma_power_values();
            assert(number < 100_000_000);
        }
        if self.source.get() == '.' as u8 {
            self.source.next();
            let (fraction_digits, fraction_too_long) = self.parse_digits(10, 8);
            if fraction_too_long {
                return Token::Error(
                    String::from_str("Decimal literal exceeds maximum length of 8 digits"),
                );
            }
            let fraction = to_number(&fraction_digits, 10);
            let places = fraction_digits.len();
            let mut scale: u64 = 1;
            let mut k: usize = places;
            while k < 8
                invariant
                    places <= k <= 8,
                    scale == power(10, (k - places) as nat),
                    scale <= 100_000_000,
                decreases 8 - k,
            {
                proof {
                    crate::charset::lemma_power_monotone(10, (k + 1 - places) as nat, 8);
                    crate::charset::lemma_power_values();
                }
                scale = scale * 10;
                k = k + 1;
            }
            proof {
                lemma_digits_bound(fraction_digits@, 10);
                lemma_power_add(10, places as nat, (8 - places) as nat);
                crate::charset::lemma_power_values();
                assert(fraction * scale < 100_000_000) by (nonlinear_arith)
                    requires
                        fraction < power(10, places as nat),
                        scale == power(10, (8 - places) as nat),
                        power(10, places as nat) * power(10, (8 - places) as nat) == 100_000_000,
                ;
            }
            let units: i64 = (number as i64) * UNITS_PER_ONE + (fraction * scale) as i64;
            Token::Number(Number { units: if is_negative { -units } else { units } })
        } else {
            proof {
                assert(power(10, 8) == 100_000_000);
                assert(digits_value(Seq::<u8>::empty(), 10) == 0);
            }
            let units: i64 = (number as i64) * UNITS_PER_ONE;
            Token::Number(Number { units: if is_negative { -units } else { units } })
        }
    }

    /// Reads digits of `radix` (2 or 16) and fails once more than `max_len`
    /// digits arrive.
    fn parse_radix(&mut self, radix: u64, max_len: usize, too_long: &str) -> (r: Token)
        requires
            old(self).wf(),
            radix == 2 && max_len == 8 || radix == 16 && max_len == 4,
            radix_digit(old(self).cur(), radix as nat),
        ensures
            final(self).wf(),
            final(self).input() == old(self).input(),
            old(self).pos() < final(self).pos(),
            radix_at(
                final(self).input(),
                old(self).pos(),
                final(self).pos(),
                radix as nat,
                max_len as nat,
                too_long@,
                r,
            ),
    {
        let (digits, overflow) = self.parse_digits(radix, max_len);
        if overflow {
            return Token::Error(String::from_str(too_long));
        }
        let value = to_number(&digits, radix);
        proof {
            crate::charset::lemma_power_monotone(radix as nat, digits@.len(), max_len as nat);
            crate::charset::lemma_power_values();
        }
        Token::Number(Number { units: (value as i64) * UNITS_PER_ONE })
    }

    fn parse_binary(&mut self) -> (r: Token)
        requires
            old(self).wf(),
            binary_byte(old(self).cur()),
        ensures
            final(self).wf(),
            final(self).input() == old(self).input(),
            old(self).pos() < final(self).pos(),
            radix_at(
                final(self).input(),
                old(self).pos(),
                final(self).pos(),
                2,
                8,
                "Binary literal exceeds maximum length of 8 digits"@,
                r,
            ),
    {
        self.parse_radix(2, 8, "Binary literal exceeds maximum length of 8 digits")
    }

    fn parse_hex(&mut self) -> (r: Token)
        requires
            old(self).wf(),
            hex_byte(old(self).cur()),
        ensures
            final(self).wf(),
            final(self).input() == old(self).input(),
            old(self).pos() < final(self).pos(),
            radix_at(
                final(self).input(),
                old(self).pos(),
                final(self).pos(),
                16,
                4,
                "Hex literal exceeds maximum length of 4 digits"@,
                r,
            ),
    {
        self.parse_radix(16, 4, "Hex literal exceeds maximum length of 4 digits")
    }

    /// Reads a string literal opened by `"` or `'` up to the matching
    /// delimiter, decoding escape sequences.
    fn parse_string(&mut self) -> (r: Token)
        requires
            old(self).wf(),
            old(self).cur() == '"' as u8 || old(self).cur() == '\'' as u8,
        ensures
            final(self).wf(),
            final(self).input() == old(self).input(),
            old(self).pos() < final(self).pos(),
            string_at(final(self).input(), old(self).pos(), final(self).pos(), r),
    {
        let delimiter = self.source.get();
        let mut bytes: Vec<u8> = Vec::new();
        let ghost start = self.pos();
        let ghost inp = self.input();
        let ghost whole = inp.subrange(start + 1, inp.len() as int);
        let mut ch: u8 = self.source.next();
        proof {
            lemma_shift_empty(scan_string(whole, delimiter));
        }
        while ch != delimiter && !self.source.is_empty()
            invariant
                self.wf(),
                self.input() == inp,
                inp == old(self).input(),
                0 <= start < self.pos() <= inp.len(),
                start == old(self).pos(),
                ch == self.cur(),
                delimiter == old(self).cur(),
                delimiter != 0,
                whole == inp.subrange(start + 1, inp.len() as int),
                scan_string(whole, delimiter) == shift_scan(
                    bytes@,
                    self.pos() - (start + 1),
                    scan_string(inp.subrange(self.pos(), inp.len() as int), delimiter),
                ),
            decreases self.remaining(),
        {
            let ghost p = self.pos();
            let ghost rest = inp.subrange(p, inp.len() as int);
            let ghost b0 = bytes@;
            assert(rest[0] == ch);
            if ch == '\\' as u8 {
                let e = self.source.next();
                assert(byte_at(rest, 1) == e);
                if e == '0' as u8 {
                    bytes.push(0);
                } else if e == 'b' as u8 {
                    bytes.push(7);
                } else if e == 't' as u8 {
                    bytes.push(9);
                } else if e == 'n' as u8 {
                    bytes.push(10);
                } else if e == 'v' as u8 {
                    bytes.push(11);
                } else if e == 'r' as u8 {
                    bytes.push(13);
                } else if e == '"' as u8 {
                    bytes.push(34);
                } else if e == '\'' as u8 {
                    bytes.push(39);
                } else if e == '\\' as u8 {
                    bytes.push(92);
                } else {
                    proof {
                        assert(scan_string(rest, delimiter) == StringScan::BadEscape(e, 1));
                    }
                    return Token::Error(
                        message_with_byte(
                            "Unknown character escape sequence \"",
                            e,
                            "\" in string literal",
                        ),
                    );
                }
                proof {
                    let v = bytes@.last();
                    assert(escape_value(e) == Some(v));
                    assert(rest.len() > 0 && rest[0] != delimiter && rest[0] == '\\' as u8);
                    assert(scan_string(rest, delimiter) == shift_scan(
                        seq![v],
                        2,
                        scan_string(rest.skip(2), delimiter),
                    ));
                    assert(rest.skip(2) =~= inp.subrange(p + 2, inp.len() as int));
                    lemma_shift_shift(
                        b0,
                        p - (start + 1),
                        seq![v],
                        2,
                        scan_string(rest.skip(2), delimiter),
                    );
                    assert(b0 + seq![v] =~= bytes@);
                    assert(scan_string(whole, delimiter) == shift_scan(
                        bytes@,
                        p + 2 - (start + 1),
                        scan_string(inp.subrange(p + 2, inp.len() as int), delimiter),
                    ));
                }
            } else {
                bytes.push(ch);
                proof {
                    assert(rest.len() > 0 && rest[0] != delimiter && rest[0] != '\\' as u8);
                    assert(scan_string(rest, delimiter) == shift_scan(
                        seq![ch],
                        1,
                        scan_string(rest.skip(1), delimiter),
                    ));
                    assert(rest.skip(1) =~= inp.subrange(p + 1, inp.len() as int));
                    lemma_shift_shift(
                        b0,
                        p - (start + 1),
                        seq![ch],
                        1,
                        scan_string(rest.skip(1), delimiter),
                    );
                    assert(b0 + seq![ch] =~= bytes@);
                    assert(scan_string(whole, delimiter) == shift_scan(
                        bytes@,
                        p + 1 - (start + 1),
                        scan_string(inp.subrange(p + 1, inp.len() as int), delimiter),
                    ));
                }
            }
            ch = self.source.next();
        }
        if ch != delimiter {
            proof {
                assert(inp.subrange(self.pos(), inp.len() as int) =~= Seq::<u8>::empty());
            }
            Token::Error(String::from_str("Unclosed string literal"))
        } else {
            proof {
                let rest = inp.subrange(self.pos(), inp.len() as int);
                assert(rest[0] == delimiter);
                assert(bytes@ + Seq::<u8>::empty() =~= bytes@);
            }
            self.source.next();
            match crate::charset::utf8_string(bytes) {
                Some(text) => Token::String(text),
                None => Token::Error(String::from_str("Invalid string literal contents")),
            }
        }
    }

    fn parse_name(&mut self) -> (r: Token)
        requires
            old(self).wf(),
            name_start_byte(old(self).cur()),
        ensures
            final(self).wf(),
            final(self).input() == old(self).input(),
            name_at(final(self).input(), old(self).pos(), final(self).pos(), r),
    {
        let ghost start = self.pos();
        let mut bytes: Vec<u8> = Vec::new();
        let mut ch = self.source.get();
        while is_name_part(ch)
            invariant
                self.wf(),
                self.input() == old(self).input(),
                0 <= start <= self.pos(),
                start == self.pos() ==> name_start_byte(ch),
                ch == self.cur(),
                bytes@ == self.input().subrange(start, self.pos()),
                all_bytes(bytes@, |b: u8| name_part_byte(b)),
            decreases self.remaining(),
        {
            let ghost p = self.pos();
            let ghost span = self.input().subrange(start, p);
            assert(ch == self.input()[p]);
            bytes.push(ch);
            ch = self.source.next();
            assert(self.input().subrange(start, self.pos()) =~= span.push(self.input()[p]));
        }
        if is_instruction(&bytes) {
            Token::Instruction(string_from_bytes(bytes))
        } else if is_directive(&bytes) {
            Token::Directive(string_from_bytes(bytes))
        } else if is_macro_keyword(&bytes) {
            Token::MacroDef
        } else if is_macro_end_keyword(&bytes) {
            Token::MacroEnd
        } else if ch == ':' as u8 {
            self.source.next();
            Token::GlobalLabelDef(string_from_bytes(bytes))
        } else {
            Token::Name(string_from_bytes(bytes))
        }
    }

    fn parse_local_label(&mut self) -> (r: Token)
        requires
            old(self).wf(),
            old(self).cur() == '.' as u8,
            name_start_byte(byte_at(old(self).input(), old(self).pos() + 1)),
        ensures
            final(self).wf(),
            final(self).input() == old(self).input(),
            local_label_at(final(self).input(), old(self).pos(), final(self).pos(), r),
    {
        let ghost start = self.pos();
        let mut bytes: Vec<u8> = Vec::new();
        bytes.push(self.source.get());
        let mut ch = self.source.next();
        while is_name_part(ch)
            invariant
                self.wf(),
                self.input() == old(self).input(),
                0 <= start < self.pos(),
                start + 1 == self.pos() ==> name_start_byte(ch),
                ch == self.cur(),
                bytes@ == self.input().subrange(start, self.pos()),
                all_bytes(bytes@.drop_first(), |b: u8| name_part_byte(b)),
            decreases self.remaining(),
        {
            let ghost p = self.pos();
            let ghost span = self.input().subrange(start, p);
            assert(ch == self.input()[p]);
            bytes.push(ch);
            ch = self.source.next();
            assert(self.input().subrange(start, self.pos()) =~= span.push(self.input()[p]));
            assert(bytes@.drop_first() =~= span.drop_first().push(self.input()[p]));
        }
        if ch == ':' as u8 {
            self.source.next();
            Token::LocalLabelDef(string_from_bytes(bytes))
        } else {
            Token::LocalLabelRef(string_from_bytes(bytes))
        }
    }

    fn parse_offset_or_macro_arg(&mut self) -> (r: Token)
        requires
            old(self).wf(),
            old(self).cur() == '@' as u8,
        ensures
            final(self).wf(),
            final(self).input() == old(self).input(),
            at_sign_at(final(self).input(), old(self).pos(), final(self).pos(), r),
    {
        let ghost start = self.pos();
        let sign = self.source.next();
        if sign == '-' as u8 {
            self.source.next();
            Token::NegativeOffset
        } else if sign == '+' as u8 {
            self.source.next();
            Token::PositiveOffset
        } else if is_name_start(sign) {
            let mut bytes: Vec<u8> = Vec::new();
            let mut ch = sign;
            while is_name_part(ch)
                invariant
                    self.wf(),
                    self.input() == old(self).input(),
                    0 <= start < self.pos(),
                    start + 1 == self.pos() ==> name_start_byte(ch),
                    ch == self.cur(),
                    bytes@ == self.input().subrange(start + 1, self.pos()),
                    all_bytes(bytes@, |b: u8| name_part_byte(b)),
                decreases self.remaining(),
            {
                let ghost p = self.pos();
                let ghost span = self.input().subrange(start + 1, p);
                assert(ch == self.input()[p]);
                bytes.push(ch);
                ch = self.source.next();
                assert(self.input().subrange(start + 1, self.pos()) =~= span.push(
                    self.input()[p],
                ));
            }
            Token::MacroArg(string_from_bytes(bytes))
        } else {
            Token::Error(
                message_with_byte(
                    "Unexpected \"",
                    sign,
                    "\", expected a valid direction specifier (- or +) instead",
                ),
            )
        }
    }

    /// Reads one token, whitespace and comments included.
    fn next_raw_token(&mut self) -> (r: Token)
        requires
            old(self).wf(),
        ensures
            final(self).wf(),
            final(self).input() == old(self).input(),
            (r == Token::Eof) == (old(self).cur() == 0),
            r == Token::Eof ==> final(self).pos() == old(self).pos(),
            r != Token::Eof ==> old(self).pos() < final(self).pos(),
            is_raw_kind(type_of(r)),
            number_in_range(r),
            raw_token_at(final(self).input(), old(self).pos(), final(self).pos(), r),
    {
        let ch = self.source.get();
        let next = self.source.peek();
        if ch == 13 || ch == 10 {
            self.source.next();
            Token::Newline
        } else if ch == ';' as u8 {
            self.parse_comment()
        } else if ch == '(' as u8 {
            self.source.next();
            Token::LParen
        } else if ch == ')' as u8 {
            self.source.next();
            Token::RParen
        } else if ch == '[' as u8 {
            self.source.next();
            Token::LBrace
        } else if ch == ']' as u8 {
            self.source.next();
            Token::RBrace
        } else if ch == ',' as u8 {
            self.source.next();
            Token::Comma
        } else if ch == '"' as u8 || ch == '\'' as u8 {
            self.parse_string()
        } else if ch == '@' as u8 {
            self.parse_offset_or_macro_arg()
        } else if ch == '-' as u8 && is_decimal(next) {
            self.source.next();
            self.parse_decimal(true)
        } else if ch == '%' as u8 && is_binary(next) {
            self.source.next();
            self.parse_binary()
        } else if ch == '$' as u8 && is_hex(next) {
            self.source.next();
            self.parse_hex()
        } else if ch == '.' as u8 && is_name_start(next) {
            self.parse_local_label()
        } else if is_whitespace(ch) {
            self.parse_whitespace()
        } else if is_name_start(ch) {
            self.parse_name()
        } else if is_decimal(ch) {
            self.parse_decimal(false)
        } else if is_operator(ch) {
            self.parse_operator(ch, next)
        } else if ch == 0 {
            Token::Eof
        } else {
            self.source.next();
            Token::Error(message_with_byte("Unexpected character (", ch, ")"))
        }
    }

    /// Reads the next token, skipping whitespace and comments. At the end of
    /// the input (or on a NUL byte) it returns `Eof`, and keeps returning it.
    pub fn next(&mut self) -> (r: Token)
        requires
            old(self).wf(),
        ensures
            final(self).wf(),
            final(self).input() == old(self).input(),
            type_of(r) != TokenType::Whitespace,
            type_of(r) != TokenType::Comment,
            is_raw_kind(type_of(r)),
            number_in_range(r),
            r == Token::Eof ==> final(self).cur() == 0 && old(self).pos() <= final(self).pos(),
            r != Token::Eof ==> old(self).pos() < final(self).pos(),
            old(self).cur() == 0 ==> r == Token::Eof && final(self).pos() == old(self).pos(),
            r == Token::Eof ==> final(self).remaining() <= old(self).remaining(),
            r != Token::Eof ==> final(self).remaining() < old(self).remaining(),
            old(self).cur() == 0 ==> final(self).remaining() == old(self).remaining()
                && final(self).cur() == 0,
            raw_token_at(
                final(self).input(),
                skip_all(final(self).input(), old(self).pos()),
                final(self).pos(),
                r,
            ),
    {
        let ghost start = self.pos();
        loop
            invariant
                self.wf(),
                self.input() == old(self).input(),
                start == old(self).pos(),
                start <= self.pos(),
                old(self).cur() == 0 ==> self.pos() == start,
                skip_all(self.input(), start) == skip_all(self.input(), self.pos()),
            decreases self.remaining(),
        {
            let ghost s = self.pos();
            let ghost inp = self.input();
            let t = self.next_raw_token();
            let ghost e = self.pos();
            match t {
                Token::Whitespace => {
                    proof {
                        lemma_blank_end(inp, s, e);
                        assert(skip_one(inp, s) == e);
                    }
                },
                Token::Comment(_) => {
                    proof {
                        assert(byte_at(inp, s) == ';' as u8);
                        lemma_line_end(inp, s + 1, e);
                        assert(skip_one(inp, s) == e);
                    }
                },
                _ => {
                    assert(skip_one(inp, s) == s);
                    assert(skip_all(inp, s) == s);
                    return t;
                },
            }
        }
    }

    /// All tokens from the cursor up to and including the first `Eof`,
    /// whitespace and comments skipped. The scan stops only at the end of the
    /// input or on a NUL byte: every other byte is consumed by some token.
    pub fn tokens(&mut self) -> (r: Vec<Token>)
        requires
            old(self).wf(),
        ensures
            final(self).wf(),
            final(self).input() == old(self).input(),
            old(self).pos() <= final(self).pos(),
            final(self).cur() == 0,
            final(self).pos() == final(self).input().len() || final(self).input()[final(self).pos()]
                == 0,
            (forall|i: int|
                old(self).pos() <= i < final(self).input().len() ==> (#[trigger] final(self).input()[i])
                    != 0) ==> final(self).pos() == final(self).input().len(),
            raw_stream(final(self).input(), old(self).pos(), r@, final(self).pos()),
            r@.len() >= 1,
            r@.last() == Token::Eof,
            forall|i: int| 0 <= i < r@.len() - 1 ==> r@[i] != Token::Eof,
    {
        let mut out: Vec<Token> = Vec::new();
        let ghost mut ends: Seq<int> = seq![self.pos()];
        loop
            invariant
                self.wf(),
                self.input() == old(self).input(),
                old(self).pos() <= self.pos(),
                forall|i: int| 0 <= i < out@.len() ==> out@[i] != Token::Eof,
                ends.len() == out@.len() + 1,
                ends[0] == old(self).pos(),
                ends.last() == self.pos(),
                forall|i: int|
                    0 <= i < out@.len() ==> raw_token_at(
                        self.input(),
                        skip_all(self.input(), ends[i]),
                        ends[i + 1],
                        #[trigger] out@[i],
                    ),
            decreases self.remaining(),
        {
            let t = self.next();
            let ghost olds = ends;
            proof {
                ends = ends.push(self.pos());
                assert forall|i: int| 0 <= i < out@.len() + 1 implies raw_token_at(
                    self.input(),
                    skip_all(self.input(), ends[i]),
                    ends[i + 1],
                    #[trigger] out@.push(t)[i],
                ) by {
                    if i < out@.len() {
                        assert(ends[i] == olds[i] && ends[i + 1] == olds[i + 1]);
                        assert(out@.push(t)[i] == out@[i]);
                    }
                }
            }
            let done = matches!(t, Token::Eof);
            out.push(t);
            if done {
                proof {
                    assert(ends.len() == out@.len() + 1 && ends[0] == old(self).pos() && ends.last()
                        == self.pos());
                }
                return out;
            }
        }
    }
}

} // verus!
