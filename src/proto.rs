//! Wire protocol between client and server.
//!
//! A request is one SQL statement: a 4-byte little-endian byte length,
//! then that many bytes of UTF-8. A response is a 4-byte little-endian
//! payload length, then the payload, which starts with one ASCII byte that
//! tells its kind:
//!
//! - `!` success without rows: the 4-byte little-endian affected-row count.
//! - `-` error: the UTF-8 message, to the end of the payload.
//! - `+` success with rows: a 2-byte column count; for each column a 2-byte
//!   name length, the UTF-8 name, a type tag and, for text columns only, a
//!   4-byte character limit; then a 4-byte row count and the rows, each
//!   encoded by the tuple codec against that schema, back to back.
//!
//! Every count and length here is little endian, unlike the big-endian
//! integers inside the tuples.
use vstd::prelude::*;
use vstd::utf8::{decode_utf8, encode_utf8, valid_utf8};

use crate::bytes::{le_bytes, le_value, lemma_pow256_values, write_le};
use crate::tuple::{encode_tuple, max_characters, read_field, serialize, tuple_error};
use crate::types::{Column, DataType, DecodeError, EncodeError, Schema, Value, ValueView, views};

verus! {

/// Rows returned by a query, with the schema they follow.
#[derive(Clone, Debug, PartialEq)]
pub struct QuerySet {
    pub schema: Schema,
    pub tuples: Vec<Vec<Value>>,
}

/// What the server answers to one statement.
#[derive(Clone, Debug, PartialEq)]
pub enum Response {
    /// The statement produced rows.
    QuerySet(QuerySet),
    /// The statement succeeded without rows, affecting this many.
    EmptySet(u32),
    /// The statement failed, for the reason given.
    Error(String),
}

/// The byte that names a column type on the wire.
pub open spec fn type_tag(t: DataType) -> u8 {
    match t {
        DataType::Bool => 0,
        DataType::Int => 1,
        DataType::UnsignedInt => 2,
        DataType::BigInt => 3,
        DataType::UnsignedBigInt => 4,
        DataType::Varchar(_) => 5,
    }
}

/// The descriptor of one column.
pub open spec fn encode_column(c: Column) -> Seq<u8> {
    le_bytes(encode_utf8(c.name@).len(), 2) + encode_utf8(c.name@) + seq![type_tag(c.data_type)] + if c.data_type is Varchar {
        le_bytes(max_characters(c.data_type), 4)
    } else {
        seq![]
    }
}

/// Whether a column's name length and character limit fit their fields.
pub open spec fn column_fits(c: Column) -> bool {
    encode_utf8(c.name@).len() < 0x1_0000 && max_characters(c.data_type) < 0x1_0000_0000
}

pub open spec fn encode_columns(cols: Seq<Column>) -> Seq<u8>
    decreases cols.len(),
{
    if cols.len() == 0 {
        seq![]
    } else {
        encode_column(cols[0]) + encode_columns(cols.drop_first())
    }
}

/// The values of each row, as mathematical objects.
pub open spec fn rows_view(rows: Seq<Vec<Value>>) -> Seq<Seq<ValueView>> {
    rows.map_values(|r: Vec<Value>| views(r@))
}

pub open spec fn encode_rows(types: Seq<DataType>, rows: Seq<Seq<ValueView>>) -> Seq<u8>
    decreases rows.len(),
{
    if rows.len() == 0 {
        seq![]
    } else {
        encode_tuple(types, rows[0]) + encode_rows(types, rows.drop_first())
    }
}

/// The error of the first row that cannot be encoded.
pub open spec fn first_row_error(types: Seq<DataType>, rows: Seq<Seq<ValueView>>) -> Option<
    EncodeError,
>
    decreases rows.len(),
{
    if rows.len() == 0 {
        None
    } else {
        match tuple_error(types, rows[0]) {
            Some(e) => Some(e),
            None => first_row_error(types, rows.drop_first()),
        }
    }
}

/// The payload of a response, discriminator first.
pub open spec fn encode_payload(r: Response) -> Seq<u8> {
    match r {
        Response::EmptySet(n) => seq![33u8] + le_bytes(n as nat, 4),
        Response::Error(msg) => seq![45u8] + encode_utf8(msg@),
        Response::QuerySet(q) => seq![43u8] + le_bytes(q.schema.columns@.len(), 2) + encode_columns(
            q.schema.columns@,
        ) + le_bytes(q.tuples@.len(), 4) + encode_rows(q.schema.types(), rows_view(q.tuples@)),
    }
}

/// Why the rows of a query set cannot be sent, if they cannot: a count, a
/// name length or a character limit too large for its field (checked in the
/// order of the layout), or else the first row that does not fit the schema.
pub open spec fn query_set_error(q: QuerySet) -> Option<EncodeError> {
    let cols = q.schema.columns@;
    if cols.len() >= 0x1_0000 || exists|i: int|
        0 <= i < cols.len() && !column_fits(#[trigger] cols[i]) {
        Some(EncodeError::TooLong)
    } else if q.tuples@.len() >= 0x1_0000_0000 {
        Some(EncodeError::TooLong)
    } else {
        first_row_error(q.schema.types(), rows_view(q.tuples@))
    }
}

/// Why a response cannot be sent, if it cannot: the error of its rows, or
/// else a payload too long for the frame's length field.
pub open spec fn response_error(r: Response) -> Option<EncodeError> {
    if r is QuerySet && query_set_error(r->QuerySet_0) is Some {
        query_set_error(r->QuerySet_0)
    } else if encode_payload(r).len() >= 0x1_0000_0000 {
        Some(EncodeError::TooLong)
    } else {
        None
    }
}

/// A payload with its 4-byte length in front.
pub open spec fn frame(payload: Seq<u8>) -> Seq<u8> {
    le_bytes(payload.len(), 4) + payload
}

/// A request read from the front of `bytes`: the statement and the number
/// of bytes its frame took.
pub open spec fn decode_request(bytes: Seq<u8>) -> Result<(Seq<char>, nat), DecodeError> {
    if bytes.len() < 4 {
        Err(DecodeError::Truncated)
    } else {
        let n = le_value(bytes.take(4));
        if bytes.len() < 4 + n {
            Err(DecodeError::Truncated)
        } else if valid_utf8(bytes.subrange(4, (4 + n) as int)) {
            Ok((decode_utf8(bytes.subrange(4, (4 + n) as int)), 4 + n))
        } else {
            Err(DecodeError::InvalidUtf8)
        }
    }
}

/// Appends a column's descriptor, unless its name or character limit is
/// too large for its field; then `buf` is left as it was.
fn write_column(buf: &mut Vec<u8>, column: &Column) -> (r: bool)
    ensures
        r == column_fits(*column),
        r ==> final(buf)@ == old(buf)@ + encode_column(*column),
        !r ==> final(buf)@ == old(buf)@,
{
    let name = column.name.as_str().as_bytes();
    let name_length = name.len() as u64;
    if name_length >= 0x1_0000 {
        return false;
    }
    let limit = match column.data_type {
        DataType::Varchar(m) => m as u64,
        _ => 0,
    };
    if limit >= 0x1_0000_0000 {
        return false;
    }
    write_le(buf, name_length, 2);
    buf.extend_from_slice(name);
    let tag: u8 = match column.data_type {
        DataType::Bool => 0,
        DataType::Int => 1,
        DataType::UnsignedInt => 2,
        DataType::BigInt => 3,
        DataType::UnsignedBigInt => 4,
        DataType::Varchar(_) => 5,
    };
    buf.push(tag);
    if let DataType::Varchar(_) = column.data_type {
        write_le(buf, limit, 4);
    }
    proof {
        assert(final(buf)@ =~= old(buf)@ + encode_column(*column));
    }
    true
}

/// The payload of a query set, or why it cannot be sent.
fn query_set_payload(q: &QuerySet) -> (r: Result<Vec<u8>, EncodeError>)
    ensures
        match r {
            Ok(b) => query_set_error(*q) is None && b@ == encode_payload(Response::QuerySet(*q)),
            Err(e) => query_set_error(*q) == Some(e),
        },
{
    let ghost cols = q.schema.columns@;
    let ghost types = q.schema.types();
    let ghost rows = rows_view(q.tuples@);
    let n_columns = q.schema.columns.len();
    if n_columns >= 0x1_0000 {
        return Err(EncodeError::TooLong);
    }
    let mut buf: Vec<u8> = Vec::new();
    buf.push(43u8);
    write_le(&mut buf, n_columns as u64, 2);
    let ghost head = buf@;
    let mut i: usize = 0;
    proof {
        assert(cols.skip(0) =~= cols);
        assert(head + encode_columns(cols) =~= buf@ + encode_columns(cols.skip(0)));
    }
    while i < n_columns
        invariant
            n_columns == cols.len(),
            cols == q.schema.columns@,
            i <= n_columns,
            forall|j: int| 0 <= j < i ==> column_fits(#[trigger] cols[j]),
            head + encode_columns(cols) == buf@ + encode_columns(cols.skip(i as int)),
        decreases n_columns - i,
    {
        let ghost before = buf@;
        proof {
            assert(cols.skip(i as int).drop_first() =~= cols.skip(i + 1));
        }
        if !write_column(&mut buf, &q.schema.columns[i]) {
            return Err(EncodeError::TooLong);
        }
        proof {
            assert(before + (encode_column(cols[i as int]) + encode_columns(cols.skip(i + 1)))
                =~= buf@ + encode_columns(cols.skip(i + 1)));
        }
        i = i + 1;
    }
    proof {
        assert(cols.skip(n_columns as int).len() == 0);
        assert(buf@ + encode_columns(cols.skip(n_columns as int)) =~= buf@);
        assert(!exists|i: int| 0 <= i < cols.len() && !column_fits(#[trigger] cols[i]));
    }
    let n_rows = q.tuples.len();
    if n_rows as u64 >= 0x1_0000_0000 {
        return Err(EncodeError::TooLong);
    }
    write_le(&mut buf, n_rows as u64, 4);
    let ghost mid = buf@;
    assert(query_set_error(*q) == first_row_error(types, rows));
    let mut k: usize = 0;
    proof {
        assert(rows.skip(0) =~= rows);
        assert(mid + encode_rows(types, rows) =~= buf@ + encode_rows(types, rows.skip(0)));
    }
    while k < n_rows
        invariant
            n_rows == q.tuples@.len(),
            rows == rows_view(q.tuples@),
            types == q.schema.types(),
            k <= n_rows,
            first_row_error(types, rows) == first_row_error(types, rows.skip(k as int)),
            query_set_error(*q) == first_row_error(types, rows),
            mid + encode_rows(types, rows) == buf@ + encode_rows(types, rows.skip(k as int)),
        decreases n_rows - k,
    {
        let ghost before = buf@;
        proof {
            assert(rows.skip(k as int).drop_first() =~= rows.skip(k + 1));
            assert(rows.skip(k as int)[0] == views(q.tuples@[k as int]@));
        }
        match serialize(&q.schema, q.tuples[k].as_slice()) {
            Ok(bytes) => {
                buf.extend_from_slice(bytes.as_slice());
            },
            Err(e) => {
                return Err(e);
            },
        }
        proof {
            assert(before + (encode_tuple(types, rows[k as int]) + encode_rows(types, rows.skip(k + 1)))
                =~= buf@ + encode_rows(types, rows.skip(k + 1)));
        }
        k = k + 1;
    }
    proof {
        assert(rows.skip(n_rows as int).len() == 0);
        assert(buf@ + encode_rows(types, rows.skip(n_rows as int)) =~= buf@);
        assert(buf@ =~= encode_payload(Response::QuerySet(*q)));
    }
    Ok(buf)
}

/// The framed bytes of a response, or why it cannot be sent.
pub fn serialize_response(response: &Response) -> (r: Result<Vec<u8>, EncodeError>)
    ensures
        match r {
            Ok(b) => response_error(*response) is None && b@ == frame(encode_payload(*response)),
            Err(e) => response_error(*response) == Some(e),
        },
{
    let payload = match response {
        Response::EmptySet(affected) => {
            let mut b: Vec<u8> = Vec::new();
            b.push(33u8);
            write_le(&mut b, *affected as u64, 4);
            b
        },
        Response::Error(message) => {
            let mut b: Vec<u8> = Vec::new();
            b.push(45u8);
            b.extend_from_slice(message.as_str().as_bytes());
            b
        },
        Response::QuerySet(q) => match query_set_payload(q) {
            Ok(b) => b,
            Err(e) => {
                return Err(e);
            },
        },
    };
    proof {
        assert(payload@ =~= encode_payload(*response));
    }
    let length = payload.len() as u64;
    if length >= 0x1_0000_0000 {
        return Err(EncodeError::TooLong);
    }
    let mut out: Vec<u8> = Vec::new();
    write_le(&mut out, length, 4);
    out.extend_from_slice(payload.as_slice());
    proof {
        assert(out@ =~= frame(encode_payload(*response)));
    }
    Ok(out)
}

/// The framed bytes of a request carrying the statement `sql`, unless the
/// statement is too long for the length field.
pub fn serialize_request(sql: &str) -> (r: Result<Vec<u8>, EncodeError>)
    ensures
        match r {
            Ok(b) => encode_utf8(sql@).len() < 0x1_0000_0000 && b@ == frame(encode_utf8(sql@)),
            Err(e) => encode_utf8(sql@).len() >= 0x1_0000_0000 && e == EncodeError::TooLong,
        },
{
    let bytes = sql.as_bytes();
    let length = bytes.len() as u64;
    if length >= 0x1_0000_0000 {
        return Err(EncodeError::TooLong);
    }
    let mut out: Vec<u8> = Vec::new();
    write_le(&mut out, length, 4);
    out.extend_from_slice(bytes);
    proof {
        assert(out@ =~= frame(encode_utf8(sql@)));
    }
    Ok(out)
}

/// Reads one request from the front of `buf`: the statement and the number
/// of bytes its frame took.
pub fn deserialize_request(buf: &[u8]) -> (r: Result<(String, usize), DecodeError>)
    ensures
        match r {
            Ok((sql, k)) => decode_request(buf@) == Ok::<(Seq<char>, nat), DecodeError>((sql@, k as nat)),
            Err(e) => decode_request(buf@) == Err::<(Seq<char>, nat), DecodeError>(e),
        },
{
    proof {
        assert(buf@.skip(0) =~= buf@);
    }
    // A request is laid out as a text field whose length prefix is four
    // bytes wide, which is the prefix of any character limit from 16384 up.
    match read_field(buf, 0, &DataType::Varchar(16384)) {
        Ok((Value::String(sql), k)) => Ok((sql, k)),
        Ok(_) => Err(DecodeError::InvalidUtf8),
        Err(e) => Err(e),
    }
}

/// The length that a frame's 4-byte header declares for what follows it.
pub fn frame_length(header: &[u8]) -> (r: u32)
    requires
        header@.len() >= 4,
    ensures
        r == le_value(header@.take(4)),
{
    let n = crate::bytes::read_le(header, 0, 4);
    proof {
        assert(header@.subrange(0, 4) =~= header@.take(4));
        crate::bytes::lemma_le_value_bound(header@.take(4));
        lemma_pow256_values();
    }
    n as u32
}

} // verus!
