//! Laws that relate encoding and decoding.
use vstd::prelude::*;
use vstd::utf8::{
    encode_scalar, encode_utf8, is_ascii_chars, is_ascii_chars_encode_utf8, leading_byte_width_1,
    leading_byte_width_2, leading_byte_width_3, leading_byte_width_4,
};

use crate::alphabet::{
    alphabet, is_symbol_byte, lemma_digit_of_symbol, lemma_symbol_is_ascii, symbol_byte,
};
use crate::decoder::{
    decode_group, decode_groups, decoded, decoded_text, group_number, lemma_decode_error_persists,
    lemma_decode_step, symbol_group, symbol_group_count, value_bytes,
};
use crate::encoder::{encode_groups, encoded, group_count, group_symbols, group_value};
use crate::error::DecodingErrorKind;

verus! {

/// Number of symbols that a group of value `v` takes: two below 45 * 45,
/// else three.
pub open spec fn symbol_width(v: int) -> int {
    if v < 2025 {
        2
    } else {
        3
    }
}

/// The symbols of a value are its digits' symbols, and there are as many as
/// `symbol_width` says.
pub proof fn lemma_group_symbols(v: int)
    requires
        0 <= v < 65536,
    ensures
        group_symbols(v).len() == symbol_width(v),
        group_symbols(v)[0] == symbol_byte(v % 45) as char,
        group_symbols(v)[1] == symbol_byte((v / 45) % 45) as char,
        v >= 2025 ==> group_symbols(v)[2] == symbol_byte(v / 2025) as char,
        v / 2025 < 45,
        forall|j: int| 0 <= j < group_symbols(v).len() ==> alphabet().contains(#[trigger] group_symbols(v)[j]),
{
    assert(v / 2025 < 45);
    assert(v >= 2025 <==> v / 2025 != 0);
    lemma_symbol_is_ascii(v % 45);
    lemma_symbol_is_ascii((v / 45) % 45);
    lemma_symbol_is_ascii(v / 2025);
    let s = group_symbols(v);
    assert forall|j: int| 0 <= j < s.len() implies alphabet().contains(#[trigger] s[j]) by {
        if j == 0 {
            assert(alphabet()[v % 45] == s[j]);
        } else if j == 1 {
            assert(alphabet()[(v / 45) % 45] == s[j]);
        } else {
            assert(alphabet()[v / 2025] == s[j]);
        }
    }
}

/// Every value of a byte group is below 65536.
pub proof fn lemma_group_value_bound(b: Seq<u8>, k: int)
    requires
        0 <= k < group_count(b.len() as int),
    ensures
        0 <= group_value(b, k) < 65536,
        2 * k + 1 < b.len() ==> group_value(b, k) / 256 == b[2 * k] && group_value(b, k) % 256 == b[2 * k + 1],
        2 * k + 1 >= b.len() ==> group_value(b, k) < 256,
{
}

/// The encoding of the first `k` groups holds only alphabet characters, and
/// between two and three of them per group.
pub proof fn lemma_encode_groups_shape(b: Seq<u8>, k: int)
    requires
        0 <= k <= group_count(b.len() as int),
    ensures
        2 * k <= encode_groups(b, k).len() <= 3 * k,
        forall|i: int| 0 <= i < encode_groups(b, k).len() ==> alphabet().contains(#[trigger] encode_groups(b, k)[i]),
    decreases k,
{
    if k > 0 {
        lemma_encode_groups_shape(b, k - 1);
        lemma_group_value_bound(b, k - 1);
        lemma_group_symbols(group_value(b, k - 1));
        let p = encode_groups(b, k - 1);
        let s = group_symbols(group_value(b, k - 1));
        assert forall|i: int| 0 <= i < encode_groups(b, k).len() implies alphabet().contains(#[trigger] encode_groups(b, k)[i]) by {
            if i < p.len() {
                assert(encode_groups(b, k)[i] == p[i]);
            } else {
                assert(encode_groups(b, k)[i] == s[i - p.len()]);
            }
        }
    }
}

/// Encoding writes only characters of the alphabet.
pub proof fn lemma_encoded_in_alphabet(b: Seq<u8>)
    ensures
        forall|i: int| 0 <= i < encoded(b).len() ==> alphabet().contains(#[trigger] encoded(b)[i]),
{
    lemma_encode_groups_shape(b, group_count(b.len() as int));
}

/// Encoding writes at least two and at most three symbols for each byte
/// group, a pair or the single byte at an odd end.
pub proof fn lemma_encoded_len(b: Seq<u8>)
    ensures
        2 * group_count(b.len() as int) <= encoded(b).len() <= 3 * group_count(b.len() as int),
{
    lemma_encode_groups_shape(b, group_count(b.len() as int));
}

/// The byte symbols of a value decode back to its bytes.
pub proof fn lemma_group_round_trip(v: int, w: Seq<u8>)
    requires
        0 <= v < 65536,
        w.len() == group_symbols(v).len(),
        forall|j: int| 0 <= j < w.len() ==> w[j] == (#[trigger] group_symbols(v)[j]) as u8,
    ensures
        decode_group(w) == Ok::<Seq<u8>, DecodingErrorKind>(value_bytes(v)),
{
    lemma_group_symbols(v);
    let d0 = v % 45;
    let d1 = (v / 45) % 45;
    let d2 = v / 2025;
    lemma_symbol_is_ascii(d0);
    lemma_symbol_is_ascii(d1);
    lemma_symbol_is_ascii(d2);
    lemma_digit_of_symbol(d0);
    lemma_digit_of_symbol(d1);
    lemma_digit_of_symbol(d2);
    assert(w[0] == symbol_byte(d0));
    assert(w[1] == symbol_byte(d1));
    if v >= 2025 {
        assert(w[2] == symbol_byte(d2));
    }
    assert forall|j: int| 0 <= j < w.len() implies is_symbol_byte(#[trigger] w[j]) by {
        if j == 2 {
            assert(w[2] == symbol_byte(d2));
        }
    }
    assert(v == d0 + 45 * d1 + 2025 * d2) by (nonlinear_arith)
        requires
            0 <= v,
            d0 == v % 45,
            d1 == (v / 45) % 45,
            d2 == v / 2025,
    ;
    assert(v < 2025 ==> d2 == 0);
    assert(group_number(w) == v);
}

/// The symbols of the first `m` groups start the symbols of any longer run
/// of groups.
pub proof fn lemma_encode_groups_prefix(b: Seq<u8>, m: int, m2: int)
    requires
        0 <= m <= m2,
    ensures
        encode_groups(b, m).len() <= encode_groups(b, m2).len(),
        encode_groups(b, m2).subrange(0, encode_groups(b, m).len() as int) == encode_groups(b, m),
    decreases m2 - m,
{
    if m < m2 {
        lemma_encode_groups_prefix(b, m, m2 - 1);
        let p = encode_groups(b, m2 - 1);
        let q = encode_groups(b, m2);
        let r = encode_groups(b, m);
        assert(q.subrange(0, p.len() as int) =~= p);
        assert(q.subrange(0, r.len() as int) =~= p.subrange(0, r.len() as int));
    }
}

/// Every pair but the last encodes to three symbols, and a last pair does not
/// start with a zero byte. Decoding, which reads symbols three at a time and
/// drops a zero high byte, reads such a layout back; outside it a round trip
/// fails (`[0, 65]` comes back as `[65]`) or holds only by coincidence.
pub open spec fn stable_groups(b: Seq<u8>) -> bool {
    &&& forall|k: int| 0 <= k < group_count(b.len() as int) - 1 ==> #[trigger] group_value(b, k) >= 2025
    &&& (b.len() % 2 == 0 && b.len() > 0 ==> b[b.len() - 2] != 0)
}

/// Where all of the first `m` groups are wide, they take three symbols each.
pub proof fn lemma_wide_groups_len(b: Seq<u8>, m: int)
    requires
        0 <= m <= group_count(b.len() as int),
        forall|k: int| 0 <= k < m ==> #[trigger] group_value(b, k) >= 2025,
    ensures
        encode_groups(b, m).len() == 3 * m,
    decreases m,
{
    if m > 0 {
        lemma_wide_groups_len(b, m - 1);
        lemma_group_value_bound(b, m - 1);
        lemma_group_symbols(group_value(b, m - 1));
    }
}

/// Group `k` of the bytes of an encoding decodes to the bytes of group `k` of
/// the input, when the groups before it took three symbols each and the group
/// is wide or the last.
proof fn lemma_decode_encoded_group(b: Seq<u8>, k: int)
    requires
        0 <= k < group_count(b.len() as int),
        encode_groups(b, k).len() == 3 * k,
        k == group_count(b.len() as int) - 1 || group_value(b, k) >= 2025,
    ensures
        decode_group(symbol_group(encode_utf8(encoded(b)), k)) == Ok::<Seq<u8>, DecodingErrorKind>(
            value_bytes(group_value(b, k)),
        ),
{
    let g = group_count(b.len() as int);
    let c = encoded(b);
    let e = encode_utf8(c);
    let v = group_value(b, k);
    lemma_group_value_bound(b, k);
    lemma_group_symbols(v);
    lemma_encode_groups_shape(b, g);
    lemma_ascii_encoding(b);
    lemma_encode_groups_prefix(b, k + 1, g);
    let s = group_symbols(v);
    let p = encode_groups(b, k + 1);
    assert(p =~= encode_groups(b, k) + s);
    assert(e.len() == c.len());
    if k < g - 1 {
        lemma_encode_groups_prefix(b, k + 2, g);
        lemma_group_value_bound(b, k + 1);
        lemma_group_symbols(group_value(b, k + 1));
        assert(encode_groups(b, k + 2) == p + group_symbols(group_value(b, k + 1)));
        assert(c.len() >= 3 * k + 3);
    } else {
        assert(p == c);
    }
    let w = symbol_group(e, k);
    assert(w.len() == s.len());
    assert forall|j: int| 0 <= j < w.len() implies w[j] == (#[trigger] s[j]) as u8 by {
        assert(w[j] == e[3 * k + j]);
        assert(c[3 * k + j] == p[3 * k + j]);
        assert(p[3 * k + j] == s[j]);
    }
    lemma_group_round_trip(v, w);
}

/// The encoding is ASCII, so its UTF-8 bytes are its characters one for one.
pub proof fn lemma_ascii_encoding(b: Seq<u8>)
    ensures
        is_ascii_chars(encoded(b)),
        encode_utf8(encoded(b)).len() == encoded(b).len(),
        forall|i: int| 0 <= i < encoded(b).len() ==> encode_utf8(encoded(b))[i] == (#[trigger] encoded(b)[i]) as u8,
{
    let c = encoded(b);
    lemma_encoded_in_alphabet(b);
    assert forall|i: int| 0 <= i < c.len() implies '\0' <= #[trigger] c[i] <= '\u{7f}' by {
        assert(alphabet().contains(c[i]));
        let d = choose|d: int| 0 <= d < alphabet().len() && alphabet()[d] == c[i];
        lemma_symbol_is_ascii(d);
    }
    is_ascii_chars_encode_utf8(c);
}

/// The bytes of an encoding decode, group by group, to the bytes of the
/// input, up to the last group.
proof fn lemma_decode_encoded_prefix(b: Seq<u8>, k: int)
    requires
        stable_groups(b),
        0 <= k < group_count(b.len() as int),
    ensures
        decode_groups(encode_utf8(encoded(b)), k) == Ok::<Seq<u8>, DecodingErrorKind>(
            b.subrange(0, 2 * k),
        ),
    decreases k,
{
    if k > 0 {
        lemma_decode_encoded_prefix(b, k - 1);
        lemma_wide_groups_len(b, k - 1);
        lemma_decode_encoded_group(b, k - 1);
        lemma_decode_step(encode_utf8(encoded(b)), k - 1, b.subrange(0, 2 * k - 2));
        lemma_group_value_bound(b, k - 1);
        assert(group_value(b, k - 1) >= 2025);
        assert(b[2 * k - 2] != 0);
        assert(b.subrange(0, 2 * k - 2) + value_bytes(group_value(b, k - 1)) =~= b.subrange(0, 2 * k));
    } else {
        assert(b.subrange(0, 0) =~= seq![]);
    }
}

/// Decoding the encoding of `b` gives `b` back, for every `b` whose groups
/// keep their width (`stable_groups`).
#[verifier::rlimit(50)]
pub proof fn lemma_round_trip_bytes(b: Seq<u8>)
    requires
        stable_groups(b),
    ensures
        decoded(encode_utf8(encoded(b))) == Ok::<Seq<u8>, DecodingErrorKind>(b),
{
    let g = group_count(b.len() as int);
    let e = encode_utf8(encoded(b));
    lemma_ascii_encoding(b);
    if g == 0 {
        assert(b =~= seq![]);
        assert(e.len() == 0);
    } else {
        let k = g - 1;
        let v = group_value(b, k);
        lemma_decode_encoded_prefix(b, k);
        lemma_wide_groups_len(b, k);
        lemma_decode_encoded_group(b, k);
        lemma_decode_step(e, k, b.subrange(0, 2 * k));
        assert(e.len() == 3 * k + symbol_width(v)) by {
            lemma_group_value_bound(b, k);
            lemma_group_symbols(v);
            assert(encoded(b) == encode_groups(b, k) + group_symbols(v));
        }
        assert(symbol_group_count(e.len() as int) == g);
        assert(b.subrange(0, 2 * k) + value_bytes(v) =~= b) by {
            lemma_group_value_bound(b, k);
        }
    }
}

/// Decoding the encoding of a text gives the text back, for every text whose
/// UTF-8 bytes keep their group width (`stable_groups`).
pub proof fn lemma_round_trip_text(s: Seq<char>)
    requires
        stable_groups(encode_utf8(s)),
    ensures
        decoded_text(encode_utf8(encoded(encode_utf8(s)))) == Ok::<Seq<char>, DecodingErrorKind>(s),
{
    lemma_round_trip_bytes(encode_utf8(s));
    vstd::utf8::encode_utf8_valid_utf8(s);
    vstd::utf8::encode_utf8_decode_utf8(s);
}

/// A group of three symbols whose value does not fit in 16 bits makes the
/// decode fail with `Overflow`, when the groups before it decode.
pub proof fn lemma_rejects_overflow(t: Seq<u8>, k: int)
    requires
        0 <= k,
        3 * k + 3 <= t.len(),
        forall|j: int| 3 * k <= j < 3 * k + 3 ==> is_symbol_byte(#[trigger] t[j]),
        group_number(t.subrange(3 * k, 3 * k + 3)) > 65535,
        decode_groups(t, k) is Ok,
    ensures
        decoded(t) == Err::<Seq<u8>, DecodingErrorKind>(DecodingErrorKind::Overflow),
{
    let g = symbol_group(t, k);
    assert(g == t.subrange(3 * k, 3 * k + 3));
    assert forall|j: int| 0 <= j < g.len() implies is_symbol_byte(#[trigger] g[j]) by {
        assert(g[j] == t[3 * k + j]);
    }
    lemma_decode_step(t, k, decode_groups(t, k)->Ok_0);
    lemma_decode_error_persists(t, k + 1, symbol_group_count(t.len() as int));
}

/// UTF-8 encoding maps concatenation to concatenation.
pub proof fn lemma_encode_utf8_concat(a: Seq<char>, b: Seq<char>)
    ensures
        encode_utf8(a + b) == encode_utf8(a) + encode_utf8(b),
    decreases a.len(),
{
    if a.len() == 0 {
        assert(a + b =~= b);
        assert(encode_utf8(a) + encode_utf8(b) =~= encode_utf8(b));
    } else {
        lemma_encode_utf8_concat(a.drop_first(), b);
        assert((a + b).drop_first() =~= a.drop_first() + b);
        assert(encode_utf8(a + b) =~= encode_utf8(a) + encode_utf8(b));
    }
}

/// The first UTF-8 byte of a character outside the alphabet is no symbol.
pub proof fn lemma_foreign_char_first_byte(c: char)
    requires
        !alphabet().contains(c),
    ensures
        !is_symbol_byte(encode_scalar(c as u32)[0]),
{
    let x = c as u32;
    let b0 = encode_scalar(x)[0];
    if is_symbol_byte(b0) {
        let d = choose|d: int| 0 <= d < 45 && symbol_byte(d) == b0;
        lemma_symbol_is_ascii(d);
        if x <= 0x7F {
            assert(leading_byte_width_1(x) == x) by (bit_vector)
                requires
                    x <= 0x7F,
            ;
            assert(alphabet()[d] == c);
        } else if x <= 0x7FF {
            assert(leading_byte_width_2(x) >= 0xC0) by (bit_vector);
        } else if x <= 0xFFFF {
            assert(leading_byte_width_3(x) >= 0xC0) by (bit_vector);
        } else {
            assert(leading_byte_width_4(x) >= 0xC0) by (bit_vector);
        }
    }
}

/// Decoding the first `k` groups reads only the first `3 * k` symbols.
pub proof fn lemma_decode_groups_prefix(t: Seq<u8>, u: Seq<u8>, k: int)
    requires
        0 <= k,
        3 * k <= t.len(),
        3 * k <= u.len(),
        t.subrange(0, 3 * k) == u.subrange(0, 3 * k),
    ensures
        decode_groups(t, k) == decode_groups(u, k),
    decreases k,
{
    if k > 0 {
        assert(t.subrange(0, 3 * k - 3) =~= t.subrange(0, 3 * k).subrange(0, 3 * k - 3));
        assert(u.subrange(0, 3 * k - 3) =~= u.subrange(0, 3 * k).subrange(0, 3 * k - 3));
        lemma_decode_groups_prefix(t, u, k - 1);
        assert(symbol_group(t, k - 1) =~= t.subrange(0, 3 * k).subrange(3 * k - 3, 3 * k));
        assert(symbol_group(u, k - 1) =~= u.subrange(0, 3 * k).subrange(3 * k - 3, 3 * k));
    }
}

/// A text with a character outside the alphabet fails to decode with
/// `InvalidSymbol`, when the whole groups of three symbols before the first
/// such character decode.
#[verifier::rlimit(50)]
pub proof fn lemma_rejects_foreign_symbol(s: Seq<char>, i: int)
    requires
        0 <= i < s.len(),
        !alphabet().contains(s[i]),
        forall|j: int| 0 <= j < i ==> alphabet().contains(#[trigger] s[j]),
        decoded(encode_utf8(s.subrange(0, i - i % 3))) is Ok,
    ensures
        decoded(encode_utf8(s)) == Err::<Seq<u8>, DecodingErrorKind>(DecodingErrorKind::InvalidSymbol),
{
    let q = i / 3;
    let p = 3 * q;
    let a = s.subrange(0, i);
    let rest = s.subrange(i, s.len() as int);
    let t = encode_utf8(s);
    assert(s =~= a + rest);
    lemma_encode_utf8_concat(a, rest);
    assert forall|j: int| 0 <= j < a.len() implies '\0' <= #[trigger] a[j] <= '\u{7f}' by {
        assert(alphabet().contains(a[j]));
        let d = choose|d: int| 0 <= d < alphabet().len() && alphabet()[d] == a[j];
        lemma_symbol_is_ascii(d);
    }
    is_ascii_chars_encode_utf8(a);
    let ap = s.subrange(0, p);
    assert(ap =~= a.subrange(0, p));
    assert(is_ascii_chars(ap));
    is_ascii_chars_encode_utf8(ap);
    let tp = encode_utf8(ap);
    assert(tp.subrange(0, p) =~= t.subrange(0, p)) by {
        assert forall|j: int| 0 <= j < p implies tp[j] == t[j] by {
            assert(tp[j] == ap[j] as u8);
            assert(t[j] == encode_utf8(a)[j]);
            assert(encode_utf8(a)[j] == a[j] as u8);
        }
    }
    assert(tp.subrange(0, p) =~= tp);
    assert(symbol_group_count(p) == q);
    lemma_decode_groups_prefix(t, tp, q);
    // the character at `i` starts its group's bytes at offset `i - p`
    assert(rest[0] == s[i]);
    assert(encode_utf8(rest) == encode_scalar(rest[0] as u32) + encode_utf8(rest.drop_first()));
    lemma_foreign_char_first_byte(s[i]);
    assert(t[i] == encode_utf8(rest)[0]);
    let g = symbol_group(t, q);
    assert(g[i - p] == t[i]);
    lemma_decode_step(t, q, decode_groups(t, q)->Ok_0);
    assert(symbol_group_count(t.len() as int) >= q + 1);
    lemma_decode_error_persists(t, q + 1, symbol_group_count(t.len() as int));
}

} // verus!
