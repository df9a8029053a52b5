//! The shapes of row data: column types, values, schemas, and the errors
//! that encoding and decoding report.
use vstd::prelude::*;

verus! {

/// Identifier of a stored row; by convention the first element of a tuple.
pub type RowId = u64;

/// The type of a column.
#[derive(Clone, Copy, Debug, PartialEq, Eq, Structural)]
pub enum DataType {
    Bool,
    /// 32-bit signed integer.
    Int,
    /// 32-bit unsigned integer.
    UnsignedInt,
    /// 64-bit signed integer.
    BigInt,
    /// 64-bit unsigned integer.
    UnsignedBigInt,
    /// Text holding at most the given number of characters.
    Varchar(usize),
}

/// A single value of a row. Integers of every width are held in one wide
/// signed integer.
#[derive(Clone, Debug, PartialEq)]
pub enum Value {
    Bool(bool),
    Number(i128),
    String(String),
}

/// What a [`Value`] means: its contents as mathematical objects.
pub enum ValueView {
    Bool(bool),
    Number(int),
    Text(Seq<char>),
}

impl View for Value {
    type V = ValueView;

    open spec fn view(&self) -> ValueView {
        match self {
            Value::Bool(b) => ValueView::Bool(*b),
            Value::Number(n) => ValueView::Number(*n as int),
            Value::String(s) => ValueView::Text(s@),
        }
    }
}

/// The meaning of each value of a sequence, in order.
pub open spec fn views(values: Seq<Value>) -> Seq<ValueView> {
    values.map_values(|v: Value| v@)
}

/// A named, typed column.
#[derive(Clone, Debug, PartialEq)]
pub struct Column {
    pub name: String,
    pub data_type: DataType,
}

/// The ordered columns that every tuple of a table follows.
#[derive(Clone, Debug, PartialEq)]
pub struct Schema {
    pub columns: Vec<Column>,
}

impl Schema {
    /// The type of each column, in order.
    pub open spec fn types(&self) -> Seq<DataType> {
        self.columns@.map_values(|c: Column| c.data_type)
    }

    pub fn new(columns: Vec<Column>) -> (r: Schema)
        ensures
            r.columns@ == columns@,
    {
        Schema { columns }
    }

    /// The number of columns.
    pub fn len(&self) -> (r: usize)
        ensures
            r == self.columns@.len(),
    {
        self.columns.len()
    }
}

impl Column {
    pub fn new(name: String, data_type: DataType) -> (r: Column)
        ensures
            r.name@ == name@,
            r.data_type == data_type,
    {
        Column { name, data_type }
    }
}

/// Why a tuple or a single value could not be encoded.
#[derive(Clone, Copy, Debug, PartialEq, Eq, Structural)]
pub enum EncodeError {
    /// The tuple does not hold exactly one value per column.
    ArityMismatch,
    /// A value's kind does not match its column's type.
    TypeMismatch,
    /// An integer lies outside the range of its column's type.
    OutOfRange,
    /// A text is longer than its length field can record.
    TooLong,
}

/// Why bytes could not be decoded into a tuple.
#[derive(Clone, Copy, Debug, PartialEq, Eq, Structural)]
pub enum DecodeError {
    /// The input ended before the field that was being read.
    Truncated,
    /// A text field's bytes are not well-formed UTF-8.
    InvalidUtf8,
}

} // verus!
