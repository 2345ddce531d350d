//! The 45 symbols of the code and their digit values.
use vstd::prelude::*;

verus! {

/// Byte of the symbol for digit `d` (0..44): `0`-`9`, `A`-`Z`, then
/// space, `$`, `%`, `*`, `+`, `-`, `.`, `/`, `:`.
pub open spec fn symbol_byte(d: int) -> u8 {
    if d < 10 {
        (d + '0' as u8) as u8
    } else if d < 36 {
        (d - 10 + 'A' as u8) as u8
    } else if d == 36 {
        ' ' as u8
    } else if d == 37 {
        '$' as u8
    } else if d == 38 {
        '%' as u8
    } else if d == 39 {
        '*' as u8
    } else if d == 40 {
        '+' as u8
    } else if d == 41 {
        '-' as u8
    } else if d == 42 {
        '.' as u8
    } else if d == 43 {
        '/' as u8
    } else {
        ':' as u8
    }
}

/// The alphabet, in digit order.
pub open spec fn alphabet() -> Seq<char> {
    Seq::new(45, |d: int| symbol_byte(d) as char)
}

/// `b` is the byte of one of the 45 symbols.
pub open spec fn is_symbol_byte(b: u8) -> bool {
    exists|d: int| 0 <= d < 45 && symbol_byte(d) == b
}

/// The digit whose symbol is `b` (meaningful when `is_symbol_byte(b)`).
pub open spec fn digit_of(b: u8) -> int {
    choose|d: int| 0 <= d < 45 && symbol_byte(d) == b
}

/// No two digits share a symbol.
pub proof fn lemma_symbol_byte_injective(d1: int, d2: int)
    requires
        0 <= d1 < 45,
        0 <= d2 < 45,
        symbol_byte(d1) == symbol_byte(d2),
    ensures
        d1 == d2,
{
}

/// Looking up the symbol of a digit and reading it back gives the digit.
pub proof fn lemma_digit_of_symbol(d: int)
    requires
        0 <= d < 45,
    ensures
        is_symbol_byte(symbol_byte(d)),
        digit_of(symbol_byte(d)) == d,
{
    let b = symbol_byte(d);
    assert(is_symbol_byte(b));
    let e = digit_of(b);
    lemma_symbol_byte_injective(d, e);
}

/// Every symbol is an ASCII character.
pub proof fn lemma_symbol_is_ascii(d: int)
    requires
        0 <= d < 45,
    ensures
        symbol_byte(d) < 128,
        (symbol_byte(d) as char) as u8 == symbol_byte(d),
        alphabet()[d] == symbol_byte(d) as char,
{
}

/// The symbol of digit `d`.
pub fn symbol_at(d: u8) -> (c: char)
    requires
        d < 45,
    ensures
        c == alphabet()[d as int],
        c == symbol_byte(d as int) as char,
{
    let b: u8 = if d < 10 {
        d + '0' as u8
    } else if d < 36 {
        d - 10 + 'A' as u8
    } else if d == 36 {
        ' ' as u8
    } else if d == 37 {
        '$' as u8
    } else if d == 38 {
        '%' as u8
    } else if d == 39 {
        '*' as u8
    } else if d == 40 {
        '+' as u8
    } else if d == 41 {
        '-' as u8
    } else if d == 42 {
        '.' as u8
    } else if d == 43 {
        '/' as u8
    } else {
        ':' as u8
    };
    b as char
}

/// The digit value of the symbol byte `b`, or `u8::MAX` when `b` is no symbol.
pub fn decode_byte(b: u8) -> (r: u8)
    ensures
        is_symbol_byte(b) ==> r < 45 && r == digit_of(b) && symbol_byte(r as int) == b,
        !is_symbol_byte(b) <==> r == u8::MAX,
{
    let r: u8 = if b >= '0' as u8 && b <= '9' as u8 {
        b - '0' as u8
    } else if b >= 'A' as u8 && b <= 'Z' as u8 {
        b - 'A' as u8 + 10
    } else if b == ' ' as u8 {
        36
    } else if b == '$' as u8 {
        37
    } else if b == '%' as u8 {
        38
    } else if b == '*' as u8 {
        39
    } else if b == '+' as u8 {
        40
    } else if b == '-' as u8 {
        41
    } else if b == '.' as u8 {
        42
    } else if b == '/' as u8 {
        43
    } else if b == ':' as u8 {
        44
    } else {
        u8::MAX
    };
    if r < 45 {
        proof {
            assert(symbol_byte(r as int) == b);
            lemma_digit_of_symbol(r as int);
        }
    } else {
        assert forall|d: int| 0 <= d < 45 implies symbol_byte(d) != b by {}
    }
    r
}

} // verus!
