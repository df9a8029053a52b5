//! Tuple and key codec.
//!
//! Integers are written big endian, two's complement for the signed types,
//! so that byte-wise comparison of two encodings orders them as numbers.
//! Text is written as a little-endian byte-length prefix, 1, 2 or 4 bytes
//! wide depending on the column's character limit, followed by its UTF-8
//! bytes.
use vstd::prelude::*;
use vstd::utf8::{decode_utf8, encode_utf8, valid_utf8};

use crate::bytes::{
    be_bytes, be_value, le_bytes, le_value, lemma_be_bytes_len, lemma_pow256_values, pow256,
    read_be, read_le, write_be, write_le,
};
use crate::types::{DataType, DecodeError, EncodeError, RowId, Schema, Value, ValueView, views};

verus! {

pub open spec fn is_integer_type(t: DataType) -> bool {
    ||| t is Int
    ||| t is UnsignedInt
    ||| t is BigInt
    ||| t is UnsignedBigInt
}

pub open spec fn is_signed(t: DataType) -> bool {
    t is Int || t is BigInt
}

/// Bytes taken by an integer column.
pub open spec fn int_width(t: DataType) -> nat {
    if t is Int || t is UnsignedInt {
        4
    } else {
        8
    }
}

/// Whether `n` is representable in the integer type `t`.
pub open spec fn in_range(n: int, t: DataType) -> bool {
    match t {
        DataType::Int => -0x8000_0000 <= n <= 0x7fff_ffff,
        DataType::UnsignedInt => 0 <= n <= 0xffff_ffff,
        DataType::BigInt => -0x8000_0000_0000_0000 <= n <= 0x7fff_ffff_ffff_ffff,
        DataType::UnsignedBigInt => 0 <= n <= 0xffff_ffff_ffff_ffff,
        _ => false,
    }
}

/// Width of the length prefix of a text column with the given character
/// limit: wide enough for that many four-byte characters.
pub open spec fn prefix_width(max_characters: nat) -> nat {
    if max_characters < 64 {
        1
    } else if max_characters < 16384 {
        2
    } else {
        4
    }
}

pub open spec fn max_characters(t: DataType) -> nat {
    match t {
        DataType::Varchar(m) => m as nat,
        _ => 0,
    }
}

/// The two's complement image of `n` in `w` bytes.
pub open spec fn unsigned_image(n: int, w: nat) -> nat {
    if n < 0 {
        (n + pow256(w)) as nat
    } else {
        n as nat
    }
}

/// The integer that big-endian bytes `s` hold, read as two's complement
/// when `signed`.
pub open spec fn int_of_bytes(s: Seq<u8>, signed: bool) -> int {
    if signed && s.len() > 0 && s[0] >= 128 {
        be_value(s) - pow256(s.len())
    } else {
        be_value(s) as int
    }
}

/// Whether a value has the kind that its column's type asks for.
pub open spec fn kind_matches(t: DataType, v: ValueView) -> bool {
    match v {
        ValueView::Bool(_) => t is Bool,
        ValueView::Number(_) => is_integer_type(t),
        ValueView::Text(_) => t is Varchar,
    }
}

/// Why `v` cannot be encoded in a column of type `t`, if it cannot.
pub open spec fn field_error(t: DataType, v: ValueView) -> Option<EncodeError> {
    if !kind_matches(t, v) {
        Some(EncodeError::TypeMismatch)
    } else {
        match v {
            ValueView::Bool(_) => None,
            ValueView::Number(n) => if in_range(n, t) {
                None
            } else {
                Some(EncodeError::OutOfRange)
            },
            ValueView::Text(s) => if encode_utf8(s).len() < pow256(
                prefix_width(max_characters(t)),
            ) {
                None
            } else {
                Some(EncodeError::TooLong)
            },
        }
    }
}

/// The bytes of `v` in a column of type `t`.
pub open spec fn encode_field(t: DataType, v: ValueView) -> Seq<u8> {
    match v {
        ValueView::Bool(b) => seq![if b { 1u8 } else { 0u8 }],
        ValueView::Number(n) => be_bytes(unsigned_image(n, int_width(t)), int_width(t)),
        ValueView::Text(s) => le_bytes(encode_utf8(s).len(), prefix_width(max_characters(t)))
            + encode_utf8(s),
    }
}

/// The length of `encode_field(t, v)`, from the type and the text's byte
/// length alone.
pub open spec fn field_size(t: DataType, v: ValueView) -> nat {
    match t {
        DataType::Bool => 1,
        DataType::Varchar(m) => prefix_width(m as nat) + match v {
            ValueView::Text(s) => encode_utf8(s).len(),
            _ => 0,
        },
        _ => int_width(t),
    }
}

/// The bytes of a tuple: its fields' bytes back to back.
pub open spec fn encode_tuple(types: Seq<DataType>, vals: Seq<ValueView>) -> Seq<u8>
    decreases types.len(),
{
    if types.len() == 0 || vals.len() == 0 {
        seq![]
    } else {
        encode_field(types[0], vals[0]) + encode_tuple(types.drop_first(), vals.drop_first())
    }
}

/// The encoded size of a tuple, summed field by field.
pub open spec fn tuple_size(types: Seq<DataType>, vals: Seq<ValueView>) -> nat
    decreases types.len(),
{
    if types.len() == 0 || vals.len() == 0 {
        0
    } else {
        field_size(types[0], vals[0]) + tuple_size(types.drop_first(), vals.drop_first())
    }
}

/// The error of the first field, in column order, that cannot be encoded.
pub open spec fn first_field_error(types: Seq<DataType>, vals: Seq<ValueView>) -> Option<
    EncodeError,
>
    decreases types.len(),
{
    if types.len() == 0 || vals.len() == 0 {
        None
    } else {
        match field_error(types[0], vals[0]) {
            Some(e) => Some(e),
            None => first_field_error(types.drop_first(), vals.drop_first()),
        }
    }
}

/// Why a tuple cannot be encoded against the column types, if it cannot.
pub open spec fn tuple_error(types: Seq<DataType>, vals: Seq<ValueView>) -> Option<EncodeError> {
    if types.len() != vals.len() {
        Some(EncodeError::ArityMismatch)
    } else {
        first_field_error(types, vals)
    }
}

/// One value per column, each of its column's kind.
pub open spec fn kinds_match(types: Seq<DataType>, vals: Seq<ValueView>) -> bool {
    &&& types.len() == vals.len()
    &&& forall|i: int| 0 <= i < types.len() ==> kind_matches(#[trigger] types[i], vals[i])
}

/// One field read from the front of `bytes`: its value and the number of
/// bytes it took.
pub open spec fn decode_field(t: DataType, bytes: Seq<u8>) -> Result<(ValueView, nat), DecodeError> {
    match t {
        DataType::Bool => if bytes.len() < 1 {
            Err(DecodeError::Truncated)
        } else {
            Ok((ValueView::Bool(bytes[0] != 0), 1))
        },
        DataType::Varchar(m) => {
            let p = prefix_width(m as nat);
            if bytes.len() < p {
                Err(DecodeError::Truncated)
            } else {
                let n = le_value(bytes.take(p as int));
                if bytes.len() < p + n {
                    Err(DecodeError::Truncated)
                } else if valid_utf8(bytes.subrange(p as int, (p + n) as int)) {
                    Ok(
                        (
                            ValueView::Text(decode_utf8(bytes.subrange(p as int, (p + n) as int))),
                            p + n,
                        ),
                    )
                } else {
                    Err(DecodeError::InvalidUtf8)
                }
            }
        },
        _ => {
            let w = int_width(t);
            if bytes.len() < w {
                Err(DecodeError::Truncated)
            } else {
                Ok((ValueView::Number(int_of_bytes(bytes.take(w as int), is_signed(t))), w))
            }
        },
    }
}

/// A tuple read from the front of `bytes`, column by column: its values and
/// the number of bytes it took, or the error of the first field that failed.
pub open spec fn decode_tuple(types: Seq<DataType>, bytes: Seq<u8>) -> Result<
    (Seq<ValueView>, nat),
    DecodeError,
>
    decreases types.len(),
{
    if types.len() == 0 {
        Ok((seq![], 0))
    } else {
        match decode_field(types[0], bytes) {
            Err(e) => Err(e),
            Ok((v, k)) => match decode_tuple(types.drop_first(), bytes.skip(k as int)) {
                Err(e) => Err(e),
                Ok((vs, m)) => Ok((seq![v] + vs, k + m)),
            },
        }
    }
}

/// Reads the [`RowId`] that starts a tuple.
pub fn deserialize_row_id(buf: &[u8]) -> (r: RowId)
    requires
        buf@.len() >= 8,
    ensures
        r == be_value(buf@.take(8)),
{
    read_be(buf, 0, 8)
}

/// The big-endian bytes of a [`RowId`].
pub fn serialize_row_id(row_id: RowId) -> (r: [u8; 8])
    ensures
        r@ == be_bytes(row_id as nat, 8),
{
    let mut v: Vec<u8> = Vec::new();
    write_be(&mut v, row_id, 8);
    proof {
        lemma_be_bytes_len(row_id as nat, 8);
    }
    let r = [v[0], v[1], v[2], v[3], v[4], v[5], v[6], v[7]];
    proof {
        assert(r@ =~= v@);
    }
    r
}

/// Bytes taken by a column of an integer type.
pub fn byte_length_of_integer_type(data_type: &DataType) -> (r: usize)
    requires
        is_integer_type(*data_type),
    ensures
        r == int_width(*data_type),
{
    match data_type {
        DataType::Int | DataType::UnsignedInt => 4,
        _ => 8,
    }
}

/// Bytes needed for the length prefix of a text column whose values hold at
/// most `max_characters` characters of up to four UTF-8 bytes each.
pub fn utf8_length_prefix_bytes(max_characters: usize) -> (r: usize)
    ensures
        r == prefix_width(max_characters as nat),
{
    if max_characters < 64 {
        1
    } else if max_characters < 16384 {
        2
    } else {
        4
    }
}

/// Whether `integer` can be stored in a column of the integer type
/// `integer_type`.
pub fn integer_is_within_range(integer: &i128, integer_type: &DataType) -> (r: bool)
    requires
        is_integer_type(*integer_type),
    ensures
        r == in_range(*integer as int, *integer_type),
{
    let n = *integer;
    match integer_type {
        DataType::Int => -0x8000_0000 <= n && n <= 0x7fff_ffff,
        DataType::UnsignedInt => 0 <= n && n <= 0xffff_ffff,
        DataType::BigInt => -0x8000_0000_0000_0000 <= n && n <= 0x7fff_ffff_ffff_ffff,
        _ => 0 <= n && n <= 0xffff_ffff_ffff_ffff,
    }
}

/// Relies on std::str::from_utf8: it accepts exactly the well-formed UTF-8
/// byte sequences, and the text it returns is made of those same bytes.
#[verifier::external_body]
fn text_from_utf8(bytes: &[u8]) -> (r: Option<String>)
    ensures
        r is Some <==> valid_utf8(bytes@),
        r matches Some(s) ==> s@ == decode_utf8(bytes@),
{
    match std::str::from_utf8(bytes) {
        Ok(s) => Some(s.to_owned()),
        Err(_) => None,
    }
}

/// Appends the bytes of `value` in a column of type `data_type` to `buf`,
/// or reports why it cannot be stored there, leaving `buf` as it was.
pub fn serialize_value_into(buf: &mut Vec<u8>, data_type: &DataType, value: &Value) -> (r: Result<
    (),
    EncodeError,
>)
    ensures
        match r {
            Ok(()) => {
                &&& field_error(*data_type, value@) is None
                &&& final(buf)@ == old(buf)@ + encode_field(*data_type, value@)
            },
            Err(e) => {
                &&& field_error(*data_type, value@) == Some(e)
                &&& final(buf)@ == old(buf)@
            },
        },
{
    match (data_type, value) {
        (DataType::Varchar(max_characters), Value::String(string)) => {
            let bytes = string.as_str().as_bytes();
            let length_prefix_bytes = utf8_length_prefix_bytes(*max_characters);
            let byte_length = bytes.len() as u64;
            let fits = if length_prefix_bytes == 1 {
                byte_length < 0x100
            } else if length_prefix_bytes == 2 {
                byte_length < 0x1_0000
            } else {
                byte_length < 0x1_0000_0000
            };
            proof {
                lemma_pow256_values();
            }
            if !fits {
                return Err(EncodeError::TooLong);
            }
            write_le(buf, byte_length, length_prefix_bytes);
            buf.extend_from_slice(bytes);
            proof {
                assert(final(buf)@ =~= old(buf)@ + encode_field(*data_type, value@));
            }
            Ok(())
        },
        (DataType::Bool, Value::Bool(b)) => {
            buf.push(if *b { 1u8 } else { 0u8 });
            proof {
                assert(final(buf)@ =~= old(buf)@ + encode_field(*data_type, value@));
            }
            Ok(())
        },
        (DataType::Bool, _) | (DataType::Varchar(_), _) | (_, Value::Bool(_)) | (
            _,
            Value::String(_),
        ) => Err(EncodeError::TypeMismatch),
        (integer_type, Value::Number(num)) => {
            if !integer_is_within_range(num, integer_type) {
                return Err(EncodeError::OutOfRange);
            }
            let byte_length = byte_length_of_integer_type(integer_type);
            proof {
                lemma_pow256_values();
            }
            let image: u64 = if *num >= 0 {
                *num as u64
            } else if byte_length == 4 {
                (*num + 0x1_0000_0000) as u64
            } else {
                (*num + 0x1_0000_0000_0000_0000) as u64
            };
            write_be(buf, image, byte_length);
            Ok(())
        },
    }
}

/// The bytes of a single value, as the ordered index compares them.
pub fn serialize_key(data_type: &DataType, value: &Value) -> (r: Result<Vec<u8>, EncodeError>)
    ensures
        match r {
            Ok(b) => field_error(*data_type, value@) is None && b@ == encode_field(
                *data_type,
                value@,
            ),
            Err(e) => field_error(*data_type, value@) == Some(e),
        },
{
    let mut buf = Vec::new();
    match serialize_value_into(&mut buf, data_type, value) {
        Ok(()) => {
            proof {
                assert(buf@ =~= encode_field(*data_type, value@));
            }
            Ok(buf)
        },
        Err(e) => Err(e),
    }
}

/// Encodes a complete tuple against `schema`, or reports why it cannot be
/// stored: a tuple with the wrong number of values, else the first value
/// that does not fit its column.
pub fn serialize(schema: &Schema, values: &[Value]) -> (r: Result<Vec<u8>, EncodeError>)
    ensures
        match r {
            Ok(b) => tuple_error(schema.types(), views(values@)) is None && b@ == encode_tuple(
                schema.types(),
                views(values@),
            ),
            Err(e) => tuple_error(schema.types(), views(values@)) == Some(e),
        },
{
    let ghost types = schema.types();
    let ghost vals = views(values@);
    let n = schema.columns.len();
    if values.len() != n {
        return Err(EncodeError::ArityMismatch);
    }
    let mut buf: Vec<u8> = Vec::new();
    let mut i: usize = 0;
    proof {
        assert(types.skip(0) =~= types);
        assert(vals.skip(0) =~= vals);
        assert(buf@ + encode_tuple(types, vals) =~= encode_tuple(types, vals));
    }
    while i < n
        invariant
            n == schema.columns@.len(),
            n == values@.len(),
            types == schema.types(),
            vals == views(values@),
            i <= n,
            tuple_error(types, vals) == first_field_error(types.skip(i as int), vals.skip(i as int)),
            encode_tuple(types, vals) == buf@ + encode_tuple(
                types.skip(i as int),
                vals.skip(i as int),
            ),
        decreases n - i,
    {
        let ghost ts = types.skip(i as int);
        let ghost vs = vals.skip(i as int);
        let ghost before = buf@;
        proof {
            assert(ts.drop_first() =~= types.skip(i + 1));
            assert(vs.drop_first() =~= vals.skip(i + 1));
            assert(ts[0] == schema.columns@[i as int].data_type);
            assert(vs[0] == values@[i as int]@);
        }
        match serialize_value_into(&mut buf, &schema.columns[i].data_type, &values[i]) {
            Ok(()) => {},
            Err(e) => {
                return Err(e);
            },
        }
        proof {
            assert(before + (encode_field(ts[0], vs[0]) + encode_tuple(ts.drop_first(), vs.drop_first()))
                =~= buf@ + encode_tuple(ts.drop_first(), vs.drop_first()));
        }
        i = i + 1;
    }
    proof {
        assert(types.skip(n as int).len() == 0);
        assert(buf@ + encode_tuple(types.skip(n as int), vals.skip(n as int)) =~= buf@);
    }
    Ok(buf)
}

/// The number of bytes that [`serialize`] produces for a tuple, computed
/// without encoding it.
pub fn size_of(tuple: &[Value], schema: &Schema) -> (r: usize)
    requires
        kinds_match(schema.types(), views(tuple@)),
        tuple_size(schema.types(), views(tuple@)) <= usize::MAX,
    ensures
        r == tuple_size(schema.types(), views(tuple@)),
{
    let ghost types = schema.types();
    let ghost vals = views(tuple@);
    let n = schema.columns.len();
    let mut total: usize = 0;
    let mut i: usize = 0;
    proof {
        assert(types.skip(0) =~= types);
        assert(vals.skip(0) =~= vals);
    }
    while i < n
        invariant
            n == schema.columns@.len(),
            n == tuple@.len(),
            types == schema.types(),
            vals == views(tuple@),
            kinds_match(types, vals),
            tuple_size(types, vals) <= usize::MAX,
            i <= n,
            tuple_size(types, vals) == total + tuple_size(types.skip(i as int), vals.skip(i as int)),
        decreases n - i,
    {
        let ghost ts = types.skip(i as int);
        let ghost vs = vals.skip(i as int);
        proof {
            assert(ts.drop_first() =~= types.skip(i + 1));
            assert(vs.drop_first() =~= vals.skip(i + 1));
            assert(ts[0] == schema.columns@[i as int].data_type);
            assert(vs[0] == tuple@[i as int]@);
            assert(kind_matches(types[i as int], vals[i as int]));
        }
        let size: usize = match schema.columns[i].data_type {
            DataType::Bool => 1,
            DataType::Varchar(max_characters) => {
                let len = match &tuple[i] {
                    Value::String(s) => s.as_str().as_bytes().len(),
                    _ => 0,
                };
                utf8_length_prefix_bytes(max_characters) + len
            },
            integer_type => byte_length_of_integer_type(&integer_type),
        };
        total = total + size;
        i = i + 1;
    }
    total
}

/// One field of type `data_type` read at `cur`: its value and the number of
/// bytes it took.
pub(crate) fn read_field(buf: &[u8], cur: usize, data_type: &DataType) -> (r: Result<(Value, usize), DecodeError>)
    requires
        cur <= buf@.len(),
    ensures
        match r {
            Ok((v, k)) => {
                &&& decode_field(*data_type, buf@.skip(cur as int)) == Ok::<(ValueView, nat), DecodeError>((v@, k as nat))
                &&& cur + k <= buf.len()
            },
            Err(e) => decode_field(*data_type, buf@.skip(cur as int)) == Err::<(ValueView, nat), DecodeError>(e),
        },
{
    let ghost rest = buf@.skip(cur as int);
    let avail = buf.len() - cur;
    match data_type {
        DataType::Bool => {
            if avail < 1 {
                Err(DecodeError::Truncated)
            } else {
                Ok((Value::Bool(buf[cur] != 0), 1))
            }
        },
        DataType::Varchar(max_characters) => {
            let p = utf8_length_prefix_bytes(*max_characters);
            if avail < p {
                return Err(DecodeError::Truncated);
            }
            let n = read_le(buf, cur, p);
            proof {
                assert(buf@.subrange(cur as int, cur + p) =~= rest.take(p as int));
            }
            if n > (avail - p) as u64 {
                return Err(DecodeError::Truncated);
            }
            let start = cur + p;
            let end = start + n as usize;
            let payload = vstd::slice::slice_subrange(buf, start, end);
            proof {
                assert(payload@ =~= rest.subrange(p as int, p + n));
            }
            match text_from_utf8(payload) {
                Some(s) => Ok((Value::String(s), p + n as usize)),
                None => Err(DecodeError::InvalidUtf8),
            }
        },
        _ => {
            let w = byte_length_of_integer_type(data_type);
            if avail < w {
                return Err(DecodeError::Truncated);
            }
            let u = read_be(buf, cur, w);
            proof {
                assert(buf@.subrange(cur as int, cur + w) =~= rest.take(w as int));
                lemma_pow256_values();
                crate::bytes::lemma_be_value_bound(rest.take(w as int));
            }
            let negative = match data_type {
                DataType::Int | DataType::BigInt => buf[cur] >= 128,
                _ => false,
            };
            let num: i128 = if !negative {
                u as i128
            } else if w == 4 {
                u as i128 - 0x1_0000_0000
            } else {
                u as i128 - 0x1_0000_0000_0000_0000
            };
            Ok((Value::Number(num), w))
        },
    }
}

/// What remains of a tuple's decoding once the values `done`, taking `k`
/// bytes, have been read ahead of the rest.
pub open spec fn after(
    done: Seq<ValueView>,
    k: nat,
    rest: Result<(Seq<ValueView>, nat), DecodeError>,
) -> Result<(Seq<ValueView>, nat), DecodeError> {
    match rest {
        Ok((vs, m)) => Ok((done + vs, k + m)),
        Err(e) => Err(e),
    }
}

/// Reads one tuple of `schema` from `buf` at `*pos` and moves `*pos` past
/// it. On an error `*pos` stays where it was.
pub fn read_from(buf: &[u8], pos: &mut usize, schema: &Schema) -> (r: Result<Vec<Value>, DecodeError>)
    requires
        *old(pos) <= buf@.len(),
    ensures
        match r {
            Ok(vs) => {
                &&& decode_tuple(schema.types(), buf@.skip(*old(pos) as int)) == Ok::<(Seq<ValueView>, nat), DecodeError>(
                    (views(vs@), (*final(pos) - *old(pos)) as nat),
                )
                &&& *old(pos) <= *final(pos) <= buf@.len()
            },
            Err(e) => {
                &&& decode_tuple(schema.types(), buf@.skip(*old(pos) as int)) == Err::<(Seq<ValueView>, nat), DecodeError>(e)
                &&& *final(pos) == *old(pos)
            },
        },
{
    let ghost types = schema.types();
    let start = *pos;
    let mut cur = start;
    let mut values: Vec<Value> = Vec::new();
    let n = schema.columns.len();
    let mut i: usize = 0;
    proof {
        assert(types.skip(0) =~= types);
        assert(views(values@) =~= seq![]);
        let d = decode_tuple(types, buf@.skip(start as int));
        match d {
            Ok((vs, m)) => {
                assert(seq![] + vs =~= vs);
            },
            Err(_) => {},
        }
    }
    while i < n
        invariant
            n == schema.columns@.len(),
            types == schema.types(),
            i <= n,
            start <= cur <= buf@.len(),
            *pos == start,
            decode_tuple(types, buf@.skip(start as int)) == after(
                views(values@),
                (cur - start) as nat,
                decode_tuple(types.skip(i as int), buf@.skip(cur as int)),
            ),
        decreases n - i,
    {
        let ghost ts = types.skip(i as int);
        proof {
            assert(ts.drop_first() =~= types.skip(i + 1));
            assert(ts[0] == schema.columns@[i as int].data_type);
        }
        match read_field(buf, cur, &schema.columns[i].data_type) {
            Ok((v, k)) => {
                let ghost old_values = views(values@);
                proof {
                    assert(buf@.skip(cur as int).skip(k as int) =~= buf@.skip(cur + k));
                }
                values.push(v);
                proof {
                    assert(views(values@) =~= old_values + seq![v@]);
                    let tail = decode_tuple(types.skip(i + 1), buf@.skip(cur + k));
                    match tail {
                        Ok((ws, m)) => {
                            assert(old_values + (seq![v@] + ws) =~= views(values@) + ws);
                        },
                        Err(_) => {},
                    }
                }
                cur = cur + k;
            },
            Err(e) => {
                return Err(e);
            },
        }
        i = i + 1;
    }
    proof {
        assert(types.skip(n as int).len() == 0);
        assert(views(values@) + seq![] =~= views(values@));
    }
    *pos = cur;
    Ok(values)
}

/// Decodes one tuple of `schema` from the front of `buf`. Bytes after the
/// tuple are left unread.
pub fn deserialize(buf: &[u8], schema: &Schema) -> (r: Result<Vec<Value>, DecodeError>)
    ensures
        match r {
            Ok(vs) => decode_tuple(schema.types(), buf@) matches Ok((ws, _)) && ws == views(vs@),
            Err(e) => decode_tuple(schema.types(), buf@) == Err::<(Seq<ValueView>, nat), DecodeError>(e),
        },
{
    let mut pos: usize = 0;
    proof {
        assert(buf@.skip(0) =~= buf@);
    }
    read_from(buf, &mut pos, schema)
}

} // verus!
