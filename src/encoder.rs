//! Bytes to symbols.
use vstd::prelude::*;

use vstd::string::StringSliceAdditionalSpecFns;

use crate::alphabet::{alphabet, symbol_at};

verus! {

/// Number of byte groups in `len` bytes: pairs, and one single byte at the
/// end when `len` is odd.
pub open spec fn group_count(len: int) -> int {
    (len + 1) / 2
}

/// Value of the byte group `k` of `b`: a pair read big-endian, or the
/// trailing single byte.
pub open spec fn group_value(b: Seq<u8>, k: int) -> int {
    if 2 * k + 1 < b.len() {
        b[2 * k] * 256 + b[2 * k + 1]
    } else {
        b[2 * k] as int
    }
}

/// Symbols of value `v` (below 45 * 45 * 45): its base-45 digits, least
/// significant first; the third only when it is not zero.
pub open spec fn group_symbols(v: int) -> Seq<char> {
    let d0 = v % 45;
    let d1 = (v / 45) % 45;
    let d2 = v / 2025;
    if d2 == 0 {
        seq![alphabet()[d0], alphabet()[d1]]
    } else {
        seq![alphabet()[d0], alphabet()[d1], alphabet()[d2]]
    }
}

/// Symbols of the first `k` byte groups of `b`.
pub open spec fn encode_groups(b: Seq<u8>, k: int) -> Seq<char>
    decreases k,
{
    if k <= 0 {
        seq![]
    } else {
        encode_groups(b, k - 1) + group_symbols(group_value(b, k - 1))
    }
}

/// The encoding of `b`.
pub open spec fn encoded(b: Seq<u8>) -> Seq<char> {
    encode_groups(b, group_count(b.len() as int))
}

/// Relies on String::push: it appends the one character to the string.
#[verifier::external_body]
fn push_char(s: &mut String, c: char)
    ensures
        final(s)@ == old(s)@.push(c),
{
    s.push(c)
}

/// Encodes `input` as base-45 text.
pub fn encode_bytes(input: &[u8]) -> (r: String)
    ensures
        r@ == encoded(input@),
{
    let mut ret = String::new();
    let n: usize = input.len();
    let mut i: usize = 0;
    while i < n
        invariant
            n == input@.len(),
            i <= n,
            i % 2 == 0 || i == n,
            ret@ == encode_groups(input@, group_count(i as int)),
        decreases n - i,
    {
        let val: u32 = if i + 1 < n {
            input[i] as u32 * 256 + input[i + 1] as u32
        } else {
            input[i] as u32
        };
        assert(val == group_value(input@, (i / 2) as int));
        assert(val < 65536);
        let d2: u32 = val / 2025;
        let rest: u32 = val - d2 * 2025;
        let d1: u32 = rest / 45;
        let d0: u32 = rest - d1 * 45;
        assert(d0 == val % 45 && d1 == (val / 45) % 45 && d2 < 45) by (nonlinear_arith)
            requires
                val < 65536,
                d2 == val / 2025,
                rest == val - d2 * 2025,
                d1 == rest / 45,
                d0 == rest - d1 * 45,
        ;
        push_char(&mut ret, symbol_at(d0 as u8));
        push_char(&mut ret, symbol_at(d1 as u8));
        if d2 != 0 {
            push_char(&mut ret, symbol_at(d2 as u8));
        }
        assert(ret@ =~= encode_groups(input@, (i / 2 + 1) as int));
        if i + 1 < n {
            i = i + 2;
        } else {
            i = n;
        }
    }
    ret
}

/// Encodes the UTF-8 bytes of `input` as base-45 text.
pub fn encode(input: &str) -> (r: String)
    ensures
        r@ == encoded(input.spec_bytes()),
{
    encode_bytes(input.as_bytes())
}

} // verus!
