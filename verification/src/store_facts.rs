//! The order of keys in a store is the order of their names.
//!
//! A store lists its keys in the dictionary order of their bytes. The UTF-8
//! bytes of two texts compare as the texts do, character by character, so
//! the names come out in dictionary order too.

use vstd::prelude::*;
use vstd::utf8::{
    char_is_scalar, decode_utf8, decode_utf8_encode_utf8, encode_scalar, encode_utf8,
    has_width_1_encoding, has_width_2_encoding, has_width_3_encoding, has_width_4_encoding,
    is_scalar, last_continuation_byte, leading_byte_width_1, leading_byte_width_2,
    leading_byte_width_3, leading_byte_width_4, second_last_continuation_byte,
    third_last_continuation_byte, valid_utf8,
};
use crate::order::{lemma_lex_total, lex_le, lex_lt, parts_first};
use crate::store::all_texts;

verus! {

/// `a` and `b` hold the same bytes at every place below `n`.
pub open spec fn bytes_agree_below(a: Seq<u8>, b: Seq<u8>, n: int) -> bool {
    &&& 0 <= n <= a.len()
    &&& n <= b.len()
    &&& forall|i: int| 0 <= i < n ==> a[i] == b[i]
}

/// At place `n`, where `a` and `b` first part ways, `a` is the one that comes
/// first: either `a` ends there and `b` goes on, or `a` holds the smaller
/// byte.
pub open spec fn bytes_part_first(a: Seq<u8>, b: Seq<u8>, n: int) -> bool {
    &&& bytes_agree_below(a, b, n)
    &&& n < b.len()
    &&& n < a.len() ==> a[n] < b[n]
}

/// `a` stands strictly before `b` in the dictionary order of bytes.
pub open spec fn bytes_lt(a: Seq<u8>, b: Seq<u8>) -> bool {
    exists|n: int| bytes_part_first(a, b, n)
}

/// `a` stands before `b` in the dictionary order of bytes, or is `b`.
pub open spec fn bytes_le(a: Seq<u8>, b: Seq<u8>) -> bool {
    a == b || bytes_lt(a, b)
}

/// The keys `raw` rise in the dictionary order of bytes.
pub open spec fn bytes_rise(raw: Seq<Seq<u8>>) -> bool {
    forall|i: int, j: int| 0 <= i < j < raw.len() ==> bytes_le(#[trigger] raw[i], #[trigger] raw[j])
}

/// The names rise in dictionary order.
pub open spec fn names_rise(names: Seq<Seq<char>>) -> bool {
    forall|i: int, j: int|
        0 <= i < j < names.len() ==> lex_le(#[trigger] names[i], #[trigger] names[j])
}

/// Of two byte strings neither stands before itself, and at most one stands
/// before the other.
pub proof fn lemma_bytes_asymmetric(a: Seq<u8>, b: Seq<u8>)
    ensures
        !bytes_lt(a, a),
        !(bytes_lt(a, b) && bytes_lt(b, a)),
{
    if bytes_lt(a, a) {
        let n = choose|n: int| bytes_part_first(a, a, n);
        assert(bytes_part_first(a, a, n));
    }
    if bytes_lt(a, b) && bytes_lt(b, a) {
        let n = choose|n: int| bytes_part_first(a, b, n);
        let m = choose|m: int| bytes_part_first(b, a, m);
        assert(bytes_part_first(a, b, n) && bytes_part_first(b, a, m));
        if n < m {
            assert(b[n] == a[n]);
        } else if m < n {
            assert(a[m] == b[m]);
        }
    }
}

/// The first byte of an encoding tells how many bytes it has: the more
/// bytes, the greater the first.
proof fn lemma_leading_bytes(x: u32)
    by (bit_vector)
    ensures
        has_width_1_encoding(x) ==> leading_byte_width_1(x) <= 0x7f,
        has_width_2_encoding(x) ==> 0xc0 <= leading_byte_width_2(x) <= 0xdf,
        has_width_3_encoding(x) ==> 0xe0 <= leading_byte_width_3(x) <= 0xef,
        has_width_4_encoding(x) ==> 0xf0 <= leading_byte_width_4(x) <= 0xf7,
{
}

/// Of two scalars of one byte each, the smaller has the smaller byte.
proof fn lemma_rise_width_1(x: u32, y: u32)
    by (bit_vector)
    requires
        has_width_1_encoding(x),
        has_width_1_encoding(y),
        x < y,
    ensures
        leading_byte_width_1(x) < leading_byte_width_1(y),
{
}

/// Of two scalars of two bytes each, the smaller has the smaller byte where
/// their bytes first differ.
proof fn lemma_rise_width_2(x: u32, y: u32)
    by (bit_vector)
    requires
        has_width_2_encoding(x),
        has_width_2_encoding(y),
        x < y,
    ensures
        leading_byte_width_2(x) < leading_byte_width_2(y) || (leading_byte_width_2(x)
            == leading_byte_width_2(y) && last_continuation_byte(x) < last_continuation_byte(y)),
{
}

/// Of two scalars of three bytes each, the smaller has the smaller byte
/// where their bytes first differ.
proof fn lemma_rise_width_3(x: u32, y: u32)
    by (bit_vector)
    requires
        has_width_3_encoding(x),
        has_width_3_encoding(y),
        x < y,
    ensures
        leading_byte_width_3(x) < leading_byte_width_3(y) || (leading_byte_width_3(x)
            == leading_byte_width_3(y) && (second_last_continuation_byte(x)
            < second_last_continuation_byte(y) || (second_last_continuation_byte(x)
            == second_last_continuation_byte(y) && last_continuation_byte(x)
            < last_continuation_byte(y)))),
{
}

/// Of two scalars of four bytes each, the smaller has the smaller byte where
/// their bytes first differ.
proof fn lemma_rise_width_4(x: u32, y: u32)
    by (bit_vector)
    requires
        has_width_4_encoding(x),
        has_width_4_encoding(y),
        x < y,
    ensures
        leading_byte_width_4(x) < leading_byte_width_4(y) || (leading_byte_width_4(x)
            == leading_byte_width_4(y) && (third_last_continuation_byte(x)
            < third_last_continuation_byte(y) || (third_last_continuation_byte(x)
            == third_last_continuation_byte(y) && (second_last_continuation_byte(x)
            < second_last_continuation_byte(y) || (second_last_continuation_byte(x)
            == second_last_continuation_byte(y) && last_continuation_byte(x)
            < last_continuation_byte(y)))))),
{
}

/// `a` and `b` part ways at place `k`, which lies within both, and `a` holds
/// the smaller byte there.
pub open spec fn parts_within(a: Seq<u8>, b: Seq<u8>, k: int) -> bool {
    &&& bytes_agree_below(a, b, k)
    &&& k < a.len()
    &&& k < b.len()
    &&& a[k] < b[k]
}

/// The encodings of two scalars part ways within both, the smaller scalar
/// with the smaller byte.
proof fn lemma_scalar_rises(x: u32, y: u32)
    requires
        is_scalar(x),
        is_scalar(y),
        x < y,
    ensures
        exists|k: int| parts_within(encode_scalar(x), encode_scalar(y), k),
{
    let a = encode_scalar(x);
    let b = encode_scalar(y);
    lemma_leading_bytes(x);
    lemma_leading_bytes(y);
    if has_width_1_encoding(y) {
        lemma_rise_width_1(x, y);
        assert(parts_within(a, b, 0));
    } else if has_width_1_encoding(x) {
        assert(parts_within(a, b, 0));
    } else if has_width_2_encoding(y) {
        lemma_rise_width_2(x, y);
        if a[0] == b[0] {
            assert(parts_within(a, b, 1));
        } else {
            assert(parts_within(a, b, 0));
        }
    } else if has_width_2_encoding(x) {
        assert(parts_within(a, b, 0));
    } else if has_width_3_encoding(y) {
        lemma_rise_width_3(x, y);
        if a[0] != b[0] {
            assert(parts_within(a, b, 0));
        } else if a[1] != b[1] {
            assert(parts_within(a, b, 1));
        } else {
            assert(parts_within(a, b, 2));
        }
    } else if has_width_3_encoding(x) {
        assert(parts_within(a, b, 0));
    } else {
        lemma_rise_width_4(x, y);
        if a[0] != b[0] {
            assert(parts_within(a, b, 0));
        } else if a[1] != b[1] {
            assert(parts_within(a, b, 1));
        } else if a[2] != b[2] {
            assert(parts_within(a, b, 2));
        } else {
            assert(parts_within(a, b, 3));
        }
    }
}

/// The scalar of a character is its code point.
proof fn lemma_char_scalar(c: char)
    ensures
        (c as u32) as int == c as int,
{
}

/// A text that stands before another has the encoding that stands before the
/// other's.
pub proof fn lemma_encoding_rises(a: Seq<char>, b: Seq<char>)
    requires
        lex_lt(a, b),
    ensures
        bytes_lt(encode_utf8(a), encode_utf8(b)),
    decreases a.len(),
{
    let n = choose|n: int| parts_first(a, b, n);
    assert(parts_first(a, b, n));
    let ea = encode_utf8(a);
    let eb = encode_utf8(b);
    char_is_scalar(b[0]);
    let sb = encode_scalar(b[0] as u32);
    assert(sb.len() > 0);
    if a.len() == 0 {
        assert(eb[0] == sb[0]);
        assert(bytes_part_first(ea, eb, 0));
    } else {
        char_is_scalar(a[0]);
        let sa = encode_scalar(a[0] as u32);
        let ra = encode_utf8(a.drop_first());
        let rb = encode_utf8(b.drop_first());
        assert(ea == sa + ra);
        assert(eb == sb + rb);
        if a[0] == b[0] {
            assert(n > 0);
            assert(parts_first(a.drop_first(), b.drop_first(), n - 1)) by {
                assert forall|i: int| 0 <= i < n - 1 implies a.drop_first()[i]
                    == b.drop_first()[i] by {
                    assert(a[i + 1] == b[i + 1]);
                }
            }
            lemma_encoding_rises(a.drop_first(), b.drop_first());
            let m = choose|m: int| bytes_part_first(ra, rb, m);
            assert(bytes_part_first(ra, rb, m));
            let at = sa.len() + m;
            assert(bytes_part_first(ea, eb, at)) by {
                assert forall|i: int| 0 <= i < at implies ea[i] == eb[i] by {
                    if i >= sa.len() {
                        assert(ea[i] == ra[i - sa.len()]);
                        assert(eb[i] == rb[i - sa.len()]);
                    }
                }
                if at < ea.len() {
                    assert(ea[at] == ra[m]);
                    assert(eb[at] == rb[m]);
                }
            }
        } else {
            assert(n == 0);
            lemma_char_scalar(a[0]);
            lemma_char_scalar(b[0]);
            lemma_scalar_rises(a[0] as u32, b[0] as u32);
            let k = choose|k: int| parts_within(sa, sb, k);
            assert(parts_within(sa, sb, k));
            assert(bytes_part_first(ea, eb, k)) by {
                assert forall|i: int| 0 <= i < k implies ea[i] == eb[i] by {
                    assert(ea[i] == sa[i]);
                    assert(eb[i] == sb[i]);
                }
                assert(ea[k] == sa[k]);
                assert(eb[k] == sb[k]);
            }
        }
    }
}

/// Keys that rise in the order of their bytes are the keys of names that
/// rise in dictionary order.
pub proof fn lemma_names_rise(raw: Seq<Seq<u8>>)
    requires
        all_texts(raw),
        bytes_rise(raw),
    ensures
        names_rise(raw.map_values(|bytes: Seq<u8>| decode_utf8(bytes))),
{
    let names = raw.map_values(|bytes: Seq<u8>| decode_utf8(bytes));
    assert forall|i: int, j: int| 0 <= i < j < names.len() implies lex_le(
        #[trigger] names[i],
        #[trigger] names[j],
    ) by {
        assert(valid_utf8(raw[i]) && valid_utf8(raw[j]));
        decode_utf8_encode_utf8(raw[i]);
        decode_utf8_encode_utf8(raw[j]);
        assert(bytes_le(raw[i], raw[j]));
        lemma_lex_total(names[i], names[j]);
        if lex_lt(names[j], names[i]) {
            lemma_encoding_rises(names[j], names[i]);
            lemma_bytes_asymmetric(raw[i], raw[j]);
        }
    }
}

} // verus!
