//! What holds of the codec as a whole: decoding undoes encoding, the
//! predicted size is the real one, integer keys keep their order, and cut
//! input is reported as such.
use vstd::prelude::*;
use vstd::utf8::{encode_utf8, encode_utf8_decode_utf8, encode_utf8_valid_utf8};

use crate::bytes::{
    be_bytes, be_value, lemma_be_bytes_len, lemma_be_first, lemma_be_order, lemma_be_round_trip,
    lemma_le_bytes_len, lemma_le_round_trip, lemma_pow256_values, lex_lt, pow256,
};
use crate::tuple::{
    decode_field, decode_tuple, encode_field, encode_tuple, field_error, field_size,
    int_width, is_integer_type, is_signed, in_range, tuple_error, tuple_size,
    unsigned_image,
};
use crate::proto::{decode_request, frame};
use crate::types::{DataType, DecodeError, ValueView};

verus! {

/// The bytes of a field have the size that `field_size` predicts.
pub proof fn lemma_field_size(t: DataType, v: ValueView)
    requires
        field_error(t, v) is None,
    ensures
        encode_field(t, v).len() == field_size(t, v),
{
    match v {
        ValueView::Bool(_) => {},
        ValueView::Number(n) => {
            lemma_be_bytes_len(unsigned_image(n, int_width(t)), int_width(t));
        },
        ValueView::Text(s) => {
            let m = match t {
                DataType::Varchar(m) => m as nat,
                _ => 0,
            };
            lemma_le_bytes_len(encode_utf8(s).len(), crate::tuple::prefix_width(m));
        },
    }
}

/// A quotient by `d` reaches 128 exactly from `128 * d` up.
proof fn lemma_top_digit(u: nat, d: nat)
    requires
        d > 0,
    ensures
        (u / d >= 128) <==> (u >= 128 * d),
{
    vstd::arithmetic::div_mod::lemma_div_by_multiple(128, d as int);
    if u >= 128 * d {
        vstd::arithmetic::div_mod::lemma_div_is_ordered((128 * d) as int, u as int, d as int);
    } else {
        vstd::arithmetic::div_mod::lemma_div_by_multiple_is_strongly_ordered(
            u as int,
            (128 * d) as int,
            128,
            d as int,
        );
    }
}

/// The image of an in-range integer fits its width, and its leading byte
/// has the top bit set exactly for the negative values of signed types.
proof fn lemma_image(t: DataType, n: int)
    requires
        is_integer_type(t),
        in_range(n, t),
    ensures
        unsigned_image(n, int_width(t)) < pow256(int_width(t)),
        is_signed(t) ==> (n < 0 <==> unsigned_image(n, int_width(t)) / pow256(
            (int_width(t) - 1) as nat,
        ) >= 128),
        !is_signed(t) ==> n >= 0,
{
    lemma_pow256_values();
    let w = int_width(t);
    lemma_top_digit(unsigned_image(n, w), pow256((w - 1) as nat));
}

/// Decoding the bytes of an encodable field, whatever follows them, gives
/// the field back and consumes exactly its bytes.
pub proof fn lemma_field_round_trip(t: DataType, v: ValueView, rest: Seq<u8>)
    requires
        field_error(t, v) is None,
    ensures
        decode_field(t, encode_field(t, v) + rest) == Ok::<(ValueView, nat), DecodeError>(
            (v, encode_field(t, v).len()),
        ),
{
    let e = encode_field(t, v);
    let bytes = e + rest;
    lemma_field_size(t, v);
    match v {
        ValueView::Bool(b) => {
            assert(bytes[0] == e[0]);
        },
        ValueView::Number(n) => {
            let w = int_width(t);
            let u = unsigned_image(n, w);
            lemma_image(t, n);
            lemma_be_bytes_len(u, w);
            assert(bytes.take(w as int) =~= be_bytes(u, w));
            lemma_be_round_trip(u, w);
            lemma_be_first(u, w);
            lemma_pow256_values();
            vstd::arithmetic::div_mod::lemma_small_mod(u, pow256(w));
            assert(decode_field(t, bytes) == Ok::<(ValueView, nat), DecodeError>((v, e.len())));
        },
        ValueView::Text(s) => {
            let m = match t {
                DataType::Varchar(m) => m as nat,
                _ => 0,
            };
            let p = crate::tuple::prefix_width(m);
            let len = encode_utf8(s).len();
            lemma_le_bytes_len(len, p);
            lemma_le_round_trip(len, p);
            vstd::arithmetic::div_mod::lemma_small_mod(len, pow256(p));
            assert(bytes.take(p as int) =~= crate::bytes::le_bytes(len, p));
            assert(bytes.subrange(p as int, (p + len) as int) =~= encode_utf8(s));
            encode_utf8_valid_utf8(s);
            encode_utf8_decode_utf8(s);
            assert(decode_field(t, bytes) == Ok::<(ValueView, nat), DecodeError>((v, e.len())));
        },
    }
}

/// The bytes of an encodable tuple have the size that `tuple_size`
/// predicts.
pub proof fn lemma_size_matches_encoding(types: Seq<DataType>, vals: Seq<ValueView>)
    requires
        tuple_error(types, vals) is None,
    ensures
        encode_tuple(types, vals).len() == tuple_size(types, vals),
    decreases types.len(),
{
    if types.len() > 0 {
        lemma_field_size(types[0], vals[0]);
        lemma_size_matches_encoding(types.drop_first(), vals.drop_first());
    }
}

/// Decoding the bytes of an encodable tuple, whatever follows them, gives
/// the tuple back and consumes exactly `tuple_size` bytes.
pub proof fn lemma_tuple_round_trip(types: Seq<DataType>, vals: Seq<ValueView>, rest: Seq<u8>)
    requires
        tuple_error(types, vals) is None,
    ensures
        decode_tuple(types, encode_tuple(types, vals) + rest) == Ok::<
            (Seq<ValueView>, nat),
            DecodeError,
        >((vals, tuple_size(types, vals))),
    decreases types.len(),
{
    lemma_size_matches_encoding(types, vals);
    if types.len() > 0 {
        let ef = encode_field(types[0], vals[0]);
        let et = encode_tuple(types.drop_first(), vals.drop_first());
        let bytes = encode_tuple(types, vals) + rest;
        assert(bytes =~= ef + (et + rest));
        lemma_field_round_trip(types[0], vals[0], et + rest);
        assert(bytes.skip(ef.len() as int) =~= et + rest);
        lemma_tuple_round_trip(types.drop_first(), vals.drop_first(), rest);
        lemma_field_size(types[0], vals[0]);
        assert(seq![vals[0]] + vals.drop_first() =~= vals);
        assert(decode_field(types[0], bytes) == Ok::<(ValueView, nat), DecodeError>((vals[0], ef.len())));
    } else {
        assert(vals =~= seq![]);
    }
}

/// A field whose bytes are cut short is reported as truncated.
pub proof fn lemma_field_truncated(t: DataType, v: ValueView, k: nat)
    requires
        field_error(t, v) is None,
        k < encode_field(t, v).len(),
    ensures
        decode_field(t, encode_field(t, v).take(k as int)) == Err::<(ValueView, nat), DecodeError>(
            DecodeError::Truncated,
        ),
{
    lemma_field_size(t, v);
    let e = encode_field(t, v);
    assert(e.take(k as int).len() == k);
    match v {
        ValueView::Text(s) => {
            let m = match t {
                DataType::Varchar(m) => m as nat,
                _ => 0,
            };
            let p = crate::tuple::prefix_width(m);
            let len = encode_utf8(s).len();
            lemma_le_bytes_len(len, p);
            assert(t == DataType::Varchar(m as usize));
            assert(e.len() == p + len);
            assert(e.take(k as int).len() == k);
            if k >= p {
                lemma_le_round_trip(len, p);
                assert(e.take(k as int).take(p as int) =~= crate::bytes::le_bytes(len, p));
                vstd::arithmetic::div_mod::lemma_small_mod(len, pow256(p));
            }
        },
        ValueView::Bool(_) => {
            assert(t == DataType::Bool);
        },
        ValueView::Number(_) => {
            assert(is_integer_type(t));
            assert(e.len() == int_width(t));
        },
    }
}

/// Decoding fewer bytes than an encodable tuple takes reports truncated
/// input.
pub proof fn lemma_truncated_tuple(types: Seq<DataType>, vals: Seq<ValueView>, k: nat)
    requires
        tuple_error(types, vals) is None,
        k < tuple_size(types, vals),
    ensures
        decode_tuple(types, encode_tuple(types, vals).take(k as int)) == Err::<
            (Seq<ValueView>, nat),
            DecodeError,
        >(DecodeError::Truncated),
    decreases types.len(),
{
    lemma_size_matches_encoding(types, vals);
    let ef = encode_field(types[0], vals[0]);
    let et = encode_tuple(types.drop_first(), vals.drop_first());
    let cut = encode_tuple(types, vals).take(k as int);
    if k < ef.len() {
        assert(cut =~= ef.take(k as int));
        lemma_field_truncated(types[0], vals[0], k);
    } else {
        let tail = et.take(k - ef.len());
        assert(cut =~= ef + tail);
        lemma_field_round_trip(types[0], vals[0], tail);
        assert(cut.skip(ef.len() as int) =~= tail);
        lemma_size_matches_encoding(types.drop_first(), vals.drop_first());
        lemma_truncated_tuple(types.drop_first(), vals.drop_first(), (k - ef.len()) as nat);
    }
}

/// Keys of one integer type compare byte by byte as the numbers do, for
/// two values of the same sign. A negative and a non-negative value of a
/// signed type are left out: two's complement puts the negative one after.
pub proof fn lemma_key_order(t: DataType, a: int, b: int)
    requires
        is_integer_type(t),
        in_range(a, t),
        in_range(b, t),
        a < b,
        !(is_signed(t) && a < 0 && b >= 0),
    ensures
        lex_lt(
            encode_field(t, ValueView::Number(a)),
            encode_field(t, ValueView::Number(b)),
        ),
{
    lemma_pow256_values();
    lemma_image(t, a);
    lemma_image(t, b);
    lemma_be_order(unsigned_image(a, int_width(t)), unsigned_image(b, int_width(t)), int_width(t));
}

/// Reading back the big-endian bytes of a row id gives the row id.
pub proof fn lemma_row_id_round_trip(row_id: u64, rest: Seq<u8>)
    ensures
        be_value((be_bytes(row_id as nat, 8) + rest).take(8)) == row_id,
{
    lemma_be_bytes_len(row_id as nat, 8);
    assert((be_bytes(row_id as nat, 8) + rest).take(8) =~= be_bytes(row_id as nat, 8));
    lemma_be_round_trip(row_id as nat, 8);
    lemma_pow256_values();
    vstd::arithmetic::div_mod::lemma_small_mod(row_id as nat, pow256(8));
}

/// Reading a framed request, whatever follows it, gives back the statement
/// and consumes exactly the frame.
pub proof fn lemma_request_round_trip(sql: Seq<char>, rest: Seq<u8>)
    requires
        encode_utf8(sql).len() < 0x1_0000_0000,
    ensures
        decode_request(frame(encode_utf8(sql)) + rest) == Ok::<(Seq<char>, nat), DecodeError>(
            (sql, 4 + encode_utf8(sql).len()),
        ),
{
    let body = encode_utf8(sql);
    let bytes = frame(body) + rest;
    lemma_le_bytes_len(body.len(), 4);
    lemma_le_round_trip(body.len(), 4);
    lemma_pow256_values();
    vstd::arithmetic::div_mod::lemma_small_mod(body.len(), pow256(4));
    assert(bytes.take(4) =~= crate::bytes::le_bytes(body.len(), 4));
    assert(bytes.subrange(4, (4 + body.len()) as int) =~= body);
    encode_utf8_valid_utf8(sql);
    encode_utf8_decode_utf8(sql);
}

} // verus!
