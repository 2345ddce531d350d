//! Symbols back to bytes.
use vstd::prelude::*;
use vstd::string::StringSliceAdditionalSpecFns;
use vstd::utf8::{decode_utf8, valid_utf8};

use crate::alphabet::{decode_byte, digit_of, is_symbol_byte};
use crate::error::{kind_message, DecodingError, DecodingErrorKind};

verus! {

/// Number of symbol groups in `len` symbols: triples, and one shorter group
/// at the end when `len` is not a multiple of three.
pub open spec fn symbol_group_count(len: int) -> int {
    (len + 2) / 3
}

/// Symbol group `k` of `t`.
pub open spec fn symbol_group(t: Seq<u8>, k: int) -> Seq<u8> {
    let end = if 3 * k + 3 < t.len() { 3 * k + 3 } else { t.len() as int };
    t.subrange(3 * k, end)
}

/// Digit of the symbol at position `j` of group `g`; zero past its end.
pub open spec fn digit_at(g: Seq<u8>, j: int) -> int {
    if j < g.len() {
        digit_of(g[j])
    } else {
        0
    }
}

/// Value of a group of up to three symbols, the first the least significant
/// base-45 digit.
pub open spec fn group_number(g: Seq<u8>) -> int {
    digit_at(g, 0) + 45 * digit_at(g, 1) + 2025 * digit_at(g, 2)
}

/// Bytes of a 16-bit value: the high byte, when it is not zero, then the
/// low byte.
pub open spec fn value_bytes(v: int) -> Seq<u8> {
    if v / 256 != 0 {
        seq![(v / 256) as u8, (v % 256) as u8]
    } else {
        seq![(v % 256) as u8]
    }
}

/// Decoding of one symbol group.
pub open spec fn decode_group(g: Seq<u8>) -> Result<Seq<u8>, DecodingErrorKind> {
    if exists|j: int| 0 <= j < g.len() && !is_symbol_byte(#[trigger] g[j]) {
        Err(DecodingErrorKind::InvalidSymbol)
    } else if group_number(g) > 65535 {
        Err(DecodingErrorKind::Overflow)
    } else {
        Ok(value_bytes(group_number(g)))
    }
}

/// Decoding of the first `k` symbol groups of `t`; the first group that
/// fails decides the error.
pub open spec fn decode_groups(t: Seq<u8>, k: int) -> Result<Seq<u8>, DecodingErrorKind>
    decreases k,
{
    if k <= 0 {
        Ok(seq![])
    } else {
        match decode_groups(t, k - 1) {
            Err(e) => Err(e),
            Ok(p) => match decode_group(symbol_group(t, k - 1)) {
                Err(e) => Err(e),
                Ok(g) => Ok(p + g),
            },
        }
    }
}

/// The decoding of the symbol bytes `t`.
pub open spec fn decoded(t: Seq<u8>) -> Result<Seq<u8>, DecodingErrorKind> {
    decode_groups(t, symbol_group_count(t.len() as int))
}

/// The decoding of `t` read as UTF-8 text.
pub open spec fn decoded_text(t: Seq<u8>) -> Result<Seq<char>, DecodingErrorKind> {
    match decoded(t) {
        Err(e) => Err(e),
        Ok(b) => if valid_utf8(b) {
            Ok(decode_utf8(b))
        } else {
            Err(DecodingErrorKind::InvalidText)
        },
    }
}

/// Decoding one more group after a prefix that decoded.
pub proof fn lemma_decode_step(t: Seq<u8>, k: int, p: Seq<u8>)
    requires
        0 <= k,
        decode_groups(t, k) == Ok::<Seq<u8>, DecodingErrorKind>(p),
    ensures
        decode_groups(t, k + 1) == match decode_group(symbol_group(t, k)) {
            Err(e) => Err(e),
            Ok(g) => Ok::<Seq<u8>, DecodingErrorKind>(p + g),
        },
{
}

/// Once a group has failed, the decoding of any longer prefix fails the same way.
pub proof fn lemma_decode_error_persists(t: Seq<u8>, k: int, m: int)
    requires
        k <= m,
        decode_groups(t, k) is Err,
    ensures
        decode_groups(t, m) == decode_groups(t, k),
    decreases m - k,
{
    if k < m {
        lemma_decode_error_persists(t, k, m - 1);
    }
}

/// Decodes the base-45 text `input` into bytes.
pub fn decode_to_bytes(input: &str) -> (r: Result<Vec<u8>, DecodingError>)
    ensures
        r is Ok <==> decoded(input.spec_bytes()) is Ok,
        r matches Ok(v) ==> decoded(input.spec_bytes()) == Ok::<Seq<u8>, DecodingErrorKind>(v@),
        r matches Err(e) ==> decoded(input.spec_bytes()) == Err::<Seq<u8>, DecodingErrorKind>(
            e.kind,
        ) && e.msg@ == kind_message(e.kind) && e.input@ == input@,
{
    let t = input.as_bytes();
    let n: usize = t.len();
    let mut ret: Vec<u8> = Vec::new();
    let mut i: usize = 0;
    while i < n
        invariant
            t@ == input.spec_bytes(),
            n == t@.len(),
            i <= n,
            i % 3 == 0 || i == n,
            decode_groups(t@, symbol_group_count(i as int)) == Ok::<Seq<u8>, DecodingErrorKind>(
                ret@,
            ),
        decreases n - i,
    {
        let end: usize = if n - i > 3 {
            i + 3
        } else {
            n
        };
        let ghost k = i as int / 3;
        let ghost g = symbol_group(t@, k);
        assert(g =~= t@.subrange(i as int, end as int));
        assert(symbol_group_count(i as int) == k);
        assert(k + 1 <= symbol_group_count(n as int));
        let mut num: u32 = 0;
        let mut j: usize = i;
        while j < end
            invariant
                t@ == input.spec_bytes(),
                n == t@.len(),
                i <= j <= end <= n,
                end - i <= 3,
                g == t@.subrange(i as int, end as int),
                0 <= k,
                g == symbol_group(t@, k),
                decode_groups(t@, k) == Ok::<Seq<u8>, DecodingErrorKind>(ret@),
                k + 1 <= symbol_group_count(n as int),
                forall|m: int| 0 <= m < j - i ==> is_symbol_byte(#[trigger] g[m]),
                num == group_number(g.subrange(0, j - i)),
                num < (if j == i {
                    1int
                } else if j == i + 1 {
                    45
                } else if j == i + 2 {
                    2025
                } else {
                    65536
                }),
            decreases end - j,
        {
            let dec = decode_byte(t[j]);
            if dec == u8::MAX {
                proof {
                    assert(!is_symbol_byte(g[j - i]));
                    assert(decode_group(g) == Err::<Seq<u8>, DecodingErrorKind>(
                        DecodingErrorKind::InvalidSymbol,
                    ));
                    lemma_decode_step(t@, k, ret@);
                    assert(decode_groups(t@, k + 1) == Err::<Seq<u8>, DecodingErrorKind>(
                        DecodingErrorKind::InvalidSymbol,
                    ));
                    lemma_decode_error_persists(t@, k + 1, symbol_group_count(n as int));
                }
                return Err(DecodingError::new(DecodingErrorKind::InvalidSymbol, input));
            }
            let mult: u32 = if j == i {
                1
            } else if j == i + 1 {
                45
            } else {
                2025
            };
            let term: u32 = dec as u32 * mult;
            assert(g.subrange(0, j - i + 1) =~= g.subrange(0, j - i).push(g[j - i]));
            if term > 65535 || num + term > 65535 {
                proof {
                    assert(j == i + 2);
                    assert(g.subrange(0, 3) =~= g);
                    assert(group_number(g) > 65535);
                    lemma_decode_step(t@, k, ret@);
                    assert(decode_groups(t@, k + 1) == Err::<Seq<u8>, DecodingErrorKind>(
                        DecodingErrorKind::Overflow,
                    ));
                    lemma_decode_error_persists(t@, k + 1, symbol_group_count(n as int));
                }
                return Err(DecodingError::new(DecodingErrorKind::Overflow, input));
            }
            num = num + term;
            j = j + 1;
        }
        assert(g.subrange(0, end - i) =~= g);
        let ghost before = ret@;
        let hi: u8 = (num / 256) as u8;
        if hi > 0 {
            ret.push(hi);
        }
        ret.push((num % 256) as u8);
        assert(decode_group(g) == Ok::<Seq<u8>, DecodingErrorKind>(value_bytes(num as int)));
        assert(ret@ =~= before + value_bytes(num as int));
        assert(symbol_group_count(end as int) == k + 1);
        i = end;
    }
    Ok(ret)
}

/// Relies on String::from_utf8: it succeeds exactly when the bytes are valid
/// UTF-8, and the string then holds the characters that they encode.
#[verifier::external_body]
fn text_from_utf8(b: Vec<u8>) -> (r: Option<String>)
    ensures
        r is Some <==> valid_utf8(b@),
        r matches Some(s) ==> s@ == decode_utf8(b@),
{
    String::from_utf8(b).ok()
}

/// Decodes the base-45 text `input` into a string.
pub fn decode(input: &str) -> (r: Result<String, DecodingError>)
    ensures
        r is Ok <==> decoded_text(input.spec_bytes()) is Ok,
        r matches Ok(s) ==> decoded_text(input.spec_bytes()) == Ok::<Seq<char>, DecodingErrorKind>(
            s@,
        ),
        r matches Err(e) ==> decoded_text(input.spec_bytes()) == Err::<Seq<char>, DecodingErrorKind>(
            e.kind,
        ) && e.msg@ == kind_message(e.kind) && e.input@ == input@,
{
    match decode_to_bytes(input) {
        Ok(b) => match text_from_utf8(b) {
            Some(s) => Ok(s),
            None => Err(DecodingError::new(DecodingErrorKind::InvalidText, input)),
        },
        Err(e) => Err(e),
    }
}

} // verus!
