use vstd::prelude::*;
use vstd::utf8::{decode_utf8, valid_utf8};

verus! {

// Byte classes ---------------------------------------------------------------

/// `A-Z`, `a-z` and `_`: bytes that may start a name.
pub open spec fn name_start_byte(c: u8) -> bool {
    ('A' as u8 <= c <= 'Z' as u8) || ('a' as u8 <= c <= 'z' as u8) || c == '_' as u8
}

/// `0-9`.
pub open spec fn decimal_byte(c: u8) -> bool {
    '0' as u8 <= c <= '9' as u8
}

/// Bytes that may continue a name.
pub open spec fn name_part_byte(c: u8) -> bool {
    name_start_byte(c) || decimal_byte(c)
}

/// `0` and `1`.
pub open spec fn binary_byte(c: u8) -> bool {
    c == '0' as u8 || c == '1' as u8
}

/// `0-9`, `a-f`, `A-F`.
pub open spec fn hex_byte(c: u8) -> bool {
    decimal_byte(c) || ('a' as u8 <= c <= 'f' as u8) || ('A' as u8 <= c <= 'F' as u8)
}

/// Carriage return and line feed.
pub open spec fn newline_byte(c: u8) -> bool {
    c == 13 || c == 10
}

/// Tab, vertical tab and space.
pub open spec fn whitespace_byte(c: u8) -> bool {
    c == 9 || c == 11 || c == ' ' as u8
}

/// Bytes that start an operator.
pub open spec fn operator_byte(c: u8) -> bool {
    c == '!' as u8 || c == '%' as u8 || c == '&' as u8 || c == '*' as u8 || c == '+' as u8
        || c == '-' as u8 || c == '/' as u8 || c == '<' as u8 || c == '=' as u8
        || c == '>' as u8 || c == '^' as u8 || c == '|' as u8 || c == '~' as u8
}

pub fn is_name_start(c: u8) -> (r: bool)
    ensures
        r == name_start_byte(c),
{
    ('A' as u8 <= c && c <= 'Z' as u8) || ('a' as u8 <= c && c <= 'z' as u8) || c == '_' as u8
}

pub fn is_name_part(c: u8) -> (r: bool)
    ensures
        r == name_part_byte(c),
{
    is_name_start(c) || is_decimal(c)
}

pub fn is_decimal(c: u8) -> (r: bool)
    ensures
        r == decimal_byte(c),
{
    '0' as u8 <= c && c <= '9' as u8
}

pub fn is_binary(c: u8) -> (r: bool)
    ensures
        r == binary_byte(c),
{
    c == '0' as u8 || c == '1' as u8
}

pub fn is_hex(c: u8) -> (r: bool)
    ensures
        r == hex_byte(c),
{
    ('a' as u8 <= c && c <= 'f' as u8) || ('A' as u8 <= c && c <= 'F' as u8) || is_decimal(c)
}

pub fn is_newline(c: u8) -> (r: bool)
    ensures
        r == newline_byte(c),
{
    c == 13 || c == 10
}

pub fn is_whitespace(c: u8) -> (r: bool)
    ensures
        r == whitespace_byte(c),
{
    c == 9 || c == 11 || c == ' ' as u8
}

pub fn is_operator(c: u8) -> (r: bool)
    ensures
        r == operator_byte(c),
{
    c == '!' as u8 || c == '%' as u8 || c == '&' as u8 || c == '*' as u8 || c == '+' as u8
        || c == '-' as u8 || c == '/' as u8 || c == '<' as u8 || c == '=' as u8
        || c == '>' as u8 || c == '^' as u8 || c == '|' as u8 || c == '~' as u8
}

// Digits ---------------------------------------------------------------------

/// Value of a hexadecimal (and so of a binary or decimal) digit byte.
pub open spec fn digit_value(c: u8) -> u8 {
    if 'a' as u8 <= c {
        (c - 87) as u8
    } else if 'A' as u8 <= c {
        (c - 55) as u8
    } else {
        (c - '0' as u8) as u8
    }
}

pub fn digit_of(c: u8) -> (r: u8)
    requires
        hex_byte(c),
    ensures
        r == digit_value(c),
        r < 16,
        decimal_byte(c) ==> r < 10,
        binary_byte(c) ==> r < 2,
{
    if c >= 'a' as u8 {
        c - 87
    } else if c >= 'A' as u8 {
        c - 55
    } else {
        c - '0' as u8
    }
}

/// `base` to the power `n`.
pub open spec fn power(base: nat, n: nat) -> nat
    decreases n,
{
    if n == 0 {
        1
    } else {
        base * power(base, (n - 1) as nat)
    }
}

/// Value of a sequence of digits, most significant first.
pub open spec fn digits_value(digits: Seq<u8>, radix: nat) -> nat
    decreases digits.len(),
{
    if digits.len() == 0 {
        0
    } else {
        digits_value(digits.drop_last(), radix) * radix + digits.last() as nat
    }
}

/// Every byte of `digits` is a digit of `radix`.
pub open spec fn all_below(digits: Seq<u8>, radix: nat) -> bool {
    forall|i: int| 0 <= i < digits.len() ==> (#[trigger] digits[i]) < radix
}

/// A number of `n` digits stays below `radix^n`.
pub proof fn lemma_digits_bound(digits: Seq<u8>, radix: nat)
    requires
        all_below(digits, radix),
    ensures
        digits_value(digits, radix) < power(radix, digits.len()),
    decreases digits.len(),
{
    if digits.len() > 0 {
        let init = digits.drop_last();
        assert(all_below(init, radix));
        lemma_digits_bound(init, radix);
        let v = digits_value(init, radix);
        let p = power(radix, init.len());
        let d = digits.last() as nat;
        assert(d < radix);
        assert(v * radix + d < radix * p) by (nonlinear_arith)
            requires
                v < p,
                d < radix,
        ;
    }
}

/// `a^n <= b^n` when `a <= b`.
pub proof fn lemma_power_base_monotone(a: nat, b: nat, n: nat)
    requires
        a <= b,
    ensures
        power(a, n) <= power(b, n),
    decreases n,
{
    if n > 0 {
        lemma_power_base_monotone(a, b, (n - 1) as nat);
        let pa = power(a, (n - 1) as nat);
        let pb = power(b, (n - 1) as nat);
        assert(a * pa <= b * pb) by (nonlinear_arith)
            requires
                a <= b,
                pa <= pb,
        ;
    }
}

/// Powers that bound the numeric literals.
pub proof fn lemma_power_values()
    ensures
        power(10, 8) == 100_000_000,
        power(16, 4) == 65536,
        power(2, 8) == 256,
{
    reveal_with_fuel(power, 9);
}

/// `radix^n` grows with `n`.
pub proof fn lemma_power_monotone(radix: nat, m: nat, n: nat)
    requires
        1 <= radix,
        m <= n,
    ensures
        power(radix, m) <= power(radix, n),
    decreases n,
{
    if m < n {
        lemma_power_monotone(radix, m, (n - 1) as nat);
        let p = power(radix, (n - 1) as nat);
        assert(p <= radix * p) by (nonlinear_arith)
            requires
                1 <= radix,
        ;
    }
}

/// Value of the digits in `bytes`, most significant first.
pub fn to_number(bytes: &Vec<u8>, radix: u64) -> (r: u64)
    requires
        2 <= radix <= 16,
        bytes@.len() <= 8,
        all_below(bytes@, radix as nat),
    ensures
        r == digits_value(bytes@, radix as nat),
        r < power(radix as nat, bytes@.len()),
{
    let mut num: u64 = 0;
    let mut i: usize = 0;
    proof {
        lemma_digits_bound(bytes@, radix as nat);
        lemma_power_monotone(radix as nat, bytes@.len(), 8);
        lemma_power_base_monotone(radix as nat, 16, 8);
        reveal_with_fuel(power, 9);
    }
    while i < bytes.len()
        invariant
            2 <= radix <= 16,
            i <= bytes@.len() <= 8,
            all_below(bytes@, radix as nat),
            num == digits_value(bytes@.subrange(0, i as int), radix as nat),
            power(radix as nat, 8) <= power(16, 8),
            power(16, 8) == 0x1_0000_0000,
        decreases bytes@.len() - i,
    {
        let ghost prefix = bytes@.subrange(0, i as int);
        let ghost next = bytes@.subrange(0, i + 1);
        assert(next.drop_last() =~= prefix);
        assert(all_below(next, radix as nat));
        proof {
            lemma_digits_bound(next, radix as nat);
            lemma_power_monotone(radix as nat, next.len(), 8);
            lemma_power_monotone(16, 8, 8);
        }
        num = num * radix + bytes[i] as u64;
        i = i + 1;
    }
    assert(bytes@.subrange(0, i as int) =~= bytes@);
    proof {
        lemma_digits_bound(bytes@, radix as nat);
    }
    num
}

// Text -----------------------------------------------------------------------

/// Text of a byte string: its UTF-8 decoding, or empty when it is not UTF-8.
pub open spec fn text_of(bytes: Seq<u8>) -> Seq<char> {
    if valid_utf8(bytes) {
        decode_utf8(bytes)
    } else {
        Seq::empty()
    }
}

/// Relies on String::from_utf8: it succeeds exactly on valid UTF-8 and then
/// holds the decoded characters.
#[verifier::external_body]
pub(crate) fn utf8_string(bytes: Vec<u8>) -> (r: Option<String>)
    ensures
        r is Some <==> valid_utf8(bytes@),
        r matches Some(s) ==> s@ == decode_utf8(bytes@),
{
    String::from_utf8(bytes).ok()
}

/// The text of `bytes`, or the empty string when they are not UTF-8.
pub fn string_from_bytes(bytes: Vec<u8>) -> (r: String)
    ensures
        r@ == text_of(bytes@),
{
    match utf8_string(bytes) {
        Some(s) => s,
        None => String::new(),
    }
}

// Keywords -------------------------------------------------------------------

fn same_bytes(a: &Vec<u8>, b: &[u8]) -> (r: bool)
    ensures
        r == (a@ == b@),
{
    if a.len() != b.len() {
        return false;
    }
    let mut i: usize = 0;
    while i < a.len()
        invariant
            a@.len() == b@.len(),
            i <= a@.len(),
            a@.subrange(0, i as int) == b@.subrange(0, i as int),
        decreases a@.len() - i,
    {
        if a[i] != b[i] {
            assert(a@[i as int] != b@[i as int]);
            return false;
        }
        i = i + 1;
        assert(a@.subrange(0, i as int) =~= b@.subrange(0, i as int)) by {
            assert(a@.subrange(0, i as int) =~= a@.subrange(0, i - 1).push(a@[i - 1]));
            assert(b@.subrange(0, i as int) =~= b@.subrange(0, i - 1).push(b@[i - 1]));
        }
    }
    assert(a@ =~= a@.subrange(0, i as int));
    assert(b@ =~= b@.subrange(0, i as int));
    true
}

/// Mnemonics of the instruction set, lower case.
pub open spec fn is_instruction_word(s: Seq<u8>) -> bool {
    s == seq!['a' as u8, 'd' as u8, 'c' as u8]
        || s == seq!['a' as u8, 'd' as u8, 'd' as u8]
        || s == seq!['a' as u8, 'n' as u8, 'd' as u8]
        || s == seq!['b' as u8, 'i' as u8, 't' as u8]
        || s == seq!['c' as u8, 'a' as u8, 'l' as u8, 'l' as u8]
        || s == seq!['c' as u8, 'c' as u8, 'f' as u8]
        || s == seq!['c' as u8, 'p' as u8]
        || s == seq!['c' as u8, 'p' as u8, 'l' as u8]
        || s == seq!['d' as u8, 'a' as u8, 'a' as u8]
        || s == seq!['d' as u8, 'e' as u8, 'c' as u8]
        || s == seq!['d' as u8, 'i' as u8]
        || s == seq!['e' as u8, 'i' as u8]
        || s == seq!['h' as u8, 'a' as u8, 'l' as u8, 't' as u8]
        || s == seq!['i' as u8, 'n' as u8, 'c' as u8]
        || s == seq!['j' as u8, 'p' as u8]
        || s == seq!['j' as u8, 'r' as u8]
        || s == seq!['l' as u8, 'd' as u8]
        || s == seq!['l' as u8, 'd' as u8, 'h' as u8]
        || s == seq!['l' as u8, 'd' as u8, 'h' as u8, 'l' as u8]
        || s == seq!['n' as u8, 'o' as u8, 'p' as u8]
        || s == seq!['o' as u8, 'r' as u8]
        || s == seq!['p' as u8, 'o' as u8, 'p' as u8]
        || s == seq!['p' as u8, 'u' as u8, 's' as u8, 'h' as u8]
        || s == seq!['r' as u8, 'e' as u8, 's' as u8]
        || s == seq!['r' as u8, 'e' as u8, 't' as u8]
        || s == seq!['r' as u8, 'e' as u8, 't' as u8, 'i' as u8]
        || s == seq!['r' as u8, 'l' as u8]
        || s == seq!['r' as u8, 'l' as u8, 'a' as u8]
        || s == seq!['r' as u8, 'l' as u8, 'c' as u8]
        || s == seq!['r' as u8, 'l' as u8, 'c' as u8, 'a' as u8]
        || s == seq!['r' as u8, 'r' as u8]
        || s == seq!['r' as u8, 'r' as u8, 'a' as u8]
        || s == seq!['r' as u8, 'r' as u8, 'c' as u8]
        || s == seq!['r' as u8, 'r' as u8, 'c' as u8, 'a' as u8]
        || s == seq!['r' as u8, 's' as u8, 't' as u8]
        || s == seq!['s' as u8, 'b' as u8, 'c' as u8]
        || s == seq!['s' as u8, 'c' as u8, 'f' as u8]
        || s == seq!['s' as u8, 'e' as u8, 't' as u8]
        || s == seq!['s' as u8, 'l' as u8, 'a' as u8]
        || s == seq!['s' as u8, 'r' as u8, 'a' as u8]
        || s == seq!['s' as u8, 'r' as u8, 'l' as u8]
        || s == seq!['s' as u8, 't' as u8, 'o' as u8, 'p' as u8]
        || s == seq!['s' as u8, 'u' as u8, 'b' as u8]
        || s == seq!['s' as u8, 'w' as u8, 'a' as u8, 'p' as u8]
        || s == seq!['x' as u8, 'o' as u8, 'r' as u8]
}

/// Assembler directives, upper case.
pub open spec fn is_directive_word(s: Seq<u8>) -> bool {
    s == seq!['D' as u8, 'B' as u8]
        || s == seq!['D' as u8, 'W' as u8]
        || s == seq!['D' as u8, 'S' as u8]
        || s == seq!['E' as u8, 'Q' as u8, 'U' as u8]
        || s == seq!['E' as u8, 'Q' as u8, 'U' as u8, 'S' as u8]
        || s == seq!['B' as u8, 'A' as u8, 'N' as u8, 'K' as u8]
        || s == seq!['I' as u8, 'N' as u8, 'C' as u8, 'B' as u8, 'I' as u8, 'N' as u8]
        || s == seq!['S' as u8, 'E' as u8, 'C' as u8, 'T' as u8, 'I' as u8, 'O' as u8, 'N' as u8]
        || s == seq!['I' as u8, 'N' as u8, 'C' as u8, 'L' as u8, 'U' as u8, 'D' as u8, 'E' as u8]
}

/// Whether `name` is an instruction mnemonic.
pub fn is_instruction(name: &Vec<u8>) -> (r: bool)
    ensures
        r == is_instruction_word(name@),
{
    same_bytes(name, &['a' as u8, 'd' as u8, 'c' as u8])
        || same_bytes(name, &['a' as u8, 'd' as u8, 'd' as u8])
        || same_bytes(name, &['a' as u8, 'n' as u8, 'd' as u8])
        || same_bytes(name, &['b' as u8, 'i' as u8, 't' as u8])
        || same_bytes(name, &['c' as u8, 'a' as u8, 'l' as u8, 'l' as u8])
        || same_bytes(name, &['c' as u8, 'c' as u8, 'f' as u8])
        || same_bytes(name, &['c' as u8, 'p' as u8])
        || same_bytes(name, &['c' as u8, 'p' as u8, 'l' as u8])
        || same_bytes(name, &['d' as u8, 'a' as u8, 'a' as u8])
        || same_bytes(name, &['d' as u8, 'e' as u8, 'c' as u8])
        || same_bytes(name, &['d' as u8, 'i' as u8])
        || same_bytes(name, &['e' as u8, 'i' as u8])
        || same_bytes(name, &['h' as u8, 'a' as u8, 'l' as u8, 't' as u8])
        || same_bytes(name, &['i' as u8, 'n' as u8, 'c' as u8])
        || same_bytes(name, &['j' as u8, 'p' as u8])
        || same_bytes(name, &['j' as u8, 'r' as u8])
        || same_bytes(name, &['l' as u8, 'd' as u8])
        || same_bytes(name, &['l' as u8, 'd' as u8, 'h' as u8])
        || same_bytes(name, &['l' as u8, 'd' as u8, 'h' as u8, 'l' as u8])
        || same_bytes(name, &['n' as u8, 'o' as u8, 'p' as u8])
        || same_bytes(name, &['o' as u8, 'r' as u8])
        || same_bytes(name, &['p' as u8, 'o' as u8, 'p' as u8])
        || same_bytes(name, &['p' as u8, 'u' as u8, 's' as u8, 'h' as u8])
        || same_bytes(name, &['r' as u8, 'e' as u8, 's' as u8])
        || same_bytes(name, &['r' as u8, 'e' as u8, 't' as u8])
        || same_bytes(name, &['r' as u8, 'e' as u8, 't' as u8, 'i' as u8])
        || same_bytes(name, &['r' as u8, 'l' as u8])
        || same_bytes(name, &['r' as u8, 'l' as u8, 'a' as u8])
        || same_bytes(name, &['r' as u8, 'l' as u8, 'c' as u8])
        || same_bytes(name, &['r' as u8, 'l' as u8, 'c' as u8, 'a' as u8])
        || same_bytes(name, &['r' as u8, 'r' as u8])
        || same_bytes(name, &['r' as u8, 'r' as u8, 'a' as u8])
        || same_bytes(name, &['r' as u8, 'r' as u8, 'c' as u8])
        || same_bytes(name, &['r' as u8, 'r' as u8, 'c' as u8, 'a' as u8])
        || same_bytes(name, &['r' as u8, 's' as u8, 't' as u8])
        || same_bytes(name, &['s' as u8, 'b' as u8, 'c' as u8])
        || same_bytes(name, &['s' as u8, 'c' as u8, 'f' as u8])
        || same_bytes(name, &['s' as u8, 'e' as u8, 't' as u8])
        || same_bytes(name, &['s' as u8, 'l' as u8, 'a' as u8])
        || same_bytes(name, &['s' as u8, 'r' as u8, 'a' as u8])
        || same_bytes(name, &['s' as u8, 'r' as u8, 'l' as u8])
        || same_bytes(name, &['s' as u8, 't' as u8, 'o' as u8, 'p' as u8])
        || same_bytes(name, &['s' as u8, 'u' as u8, 'b' as u8])
        || same_bytes(name, &['s' as u8, 'w' as u8, 'a' as u8, 'p' as u8])
        || same_bytes(name, &['x' as u8, 'o' as u8, 'r' as u8])
}

/// Whether `name` is a directive.
pub fn is_directive(name: &Vec<u8>) -> (r: bool)
    ensures
        r == is_directive_word(name@),
{
    same_bytes(name, &['D' as u8, 'B' as u8])
        || same_bytes(name, &['D' as u8, 'W' as u8])
        || same_bytes(name, &['D' as u8, 'S' as u8])
        || same_bytes(name, &['E' as u8, 'Q' as u8, 'U' as u8])
        || same_bytes(name, &['E' as u8, 'Q' as u8, 'U' as u8, 'S' as u8])
        || same_bytes(name, &['B' as u8, 'A' as u8, 'N' as u8, 'K' as u8])
        || same_bytes(name, &['I' as u8, 'N' as u8, 'C' as u8, 'B' as u8, 'I' as u8, 'N' as u8])
        || same_bytes(name, &['S' as u8, 'E' as u8, 'C' as u8, 'T' as u8, 'I' as u8, 'O' as u8, 'N' as u8])
        || same_bytes(name, &['I' as u8, 'N' as u8, 'C' as u8, 'L' as u8, 'U' as u8, 'D' as u8, 'E' as u8])
}

/// The keyword that opens a macro definition.
pub open spec fn is_macro_word(s: Seq<u8>) -> bool {
    s == seq!['M' as u8, 'A' as u8, 'C' as u8, 'R' as u8, 'O' as u8]
}

/// The keyword that closes a macro body.
pub open spec fn is_macro_end_word(s: Seq<u8>) -> bool {
    s == seq!['E' as u8, 'N' as u8, 'D' as u8, 'M' as u8, 'A' as u8, 'C' as u8, 'R' as u8, 'O' as u8]
}

/// Whether `name` is `MACRO`.
pub fn is_macro_keyword(name: &Vec<u8>) -> (r: bool)
    ensures
        r == is_macro_word(name@),
{
    same_bytes(name, &['M' as u8, 'A' as u8, 'C' as u8, 'R' as u8, 'O' as u8])
}

/// Whether `name` is `ENDMACRO`.
pub fn is_macro_end_keyword(name: &Vec<u8>) -> (r: bool)
    ensures
        r == is_macro_end_word(name@),
{
    same_bytes(name, &['E' as u8, 'N' as u8, 'D' as u8, 'M' as u8, 'A' as u8, 'C' as u8, 'R' as u8, 'O' as u8])
}

} // verus!
