//! The values that pass between the library and a database.
use vstd::prelude::*;

verus! {

/// A SQLite `REAL`: the bits of an IEEE-754 double and its JSON rendering.
///
/// `json` is `None` for the doubles that JSON has no number for (the infinities and NaN).
#[derive(Clone, Debug, PartialEq)]
pub struct Real {
    pub bits: u64,
    pub json: Option<String>,
}

/// What a [`Real`] holds.
pub struct RealView {
    pub bits: u64,
    pub json: Option<Seq<char>>,
}

impl View for Real {
    type V = RealView;

    open spec fn view(&self) -> RealView {
        RealView {
            bits: self.bits,
            json: match self.json {
                Some(text) => Some(text@),
                None => None,
            },
        }
    }
}

/// A SQL value, mirroring SQLite's storage classes.
#[derive(Clone, Debug, PartialEq)]
pub enum Value {
    Null,
    Integer(i64),
    Real(Real),
    Text(String),
    Blob(Vec<u8>),
}

/// What a [`Value`] holds.
pub enum SqlValue {
    Null,
    Integer(i64),
    Real(RealView),
    Text(Seq<char>),
    Blob(Seq<u8>),
}

impl View for Value {
    type V = SqlValue;

    open spec fn view(&self) -> SqlValue {
        match *self {
            Value::Null => SqlValue::Null,
            Value::Integer(i) => SqlValue::Integer(i),
            Value::Real(r) => SqlValue::Real(r@),
            Value::Text(s) => SqlValue::Text(s@),
            Value::Blob(b) => SqlValue::Blob(b@),
        }
    }
}

impl SqlValue {
    /// The integer, where the value is one, and `default` where it is not.
    pub open spec fn integer_or(self, default: i64) -> i64 {
        match self {
            SqlValue::Integer(i) => i,
            _ => default,
        }
    }

    /// The text, where the value is one, and the empty text where it is not.
    pub open spec fn text_or_empty(self) -> Seq<char> {
        match self {
            SqlValue::Text(s) => s,
            _ => Seq::empty(),
        }
    }

    /// The bytes, where the value is a blob, and no bytes where it is not.
    pub open spec fn bytes_or_empty(self) -> Seq<u8> {
        match self {
            SqlValue::Blob(b) => b,
            _ => Seq::empty(),
        }
    }
}

/// A copy of `bytes`.
pub fn copy_bytes(bytes: &Vec<u8>) -> (copy: Vec<u8>)
    ensures
        copy@ == bytes@,
{
    let mut copy: Vec<u8> = Vec::new();
    for i in 0..bytes.len()
        invariant
            copy@ == bytes@.take(i as int),
    {
        assert(bytes@.take(i as int).push(bytes@[i as int]) == bytes@.take(i + 1));
        copy.push(bytes[i]);
    }
    assert(bytes@.take(bytes@.len() as int) == bytes@);
    copy
}

impl Real {
    /// A copy of this real.
    pub fn copy(&self) -> (copy: Self)
        ensures
            copy@ == self@,
    {
        Real {
            bits: self.bits,
            json: match &self.json {
                Some(text) => Some(text.clone()),
                None => None,
            },
        }
    }
}

impl Value {
    /// The integer, if this is [`Value::Integer`].
    pub fn as_integer(&self) -> (integer: Option<i64>)
        ensures
            integer == match self@ {
                SqlValue::Integer(i) => Some(i),
                _ => None,
            },
    {
        match self {
            Value::Integer(i) => Some(*i),
            _ => None,
        }
    }

    /// The text, if this is [`Value::Text`].
    pub fn as_text(&self) -> (text: Option<&str>)
        ensures
            match self@ {
                SqlValue::Text(s) => text is Some && text->0@ == s,
                _ => text is None,
            },
    {
        match self {
            Value::Text(s) => Some(s.as_str()),
            _ => None,
        }
    }

    /// The bytes, if this is [`Value::Blob`].
    pub fn as_blob(&self) -> (bytes: Option<&[u8]>)
        ensures
            match self@ {
                SqlValue::Blob(b) => bytes is Some && bytes->0@ == b,
                _ => bytes is None,
            },
    {
        match self {
            Value::Blob(b) => Some(b.as_slice()),
            _ => None,
        }
    }

    /// The real number, if this is [`Value::Real`].
    pub fn as_real(&self) -> (number: Option<&Real>)
        ensures
            match self@ {
                SqlValue::Real(r) => number is Some && number->0@ == r,
                _ => number is None,
            },
    {
        match self {
            Value::Real(r) => Some(r),
            _ => None,
        }
    }

    /// The integer held here, or `default` for any other value.
    pub fn integer_or(&self, default: i64) -> (integer: i64)
        ensures
            integer == self@.integer_or(default),
    {
        match self {
            Value::Integer(i) => *i,
            _ => default,
        }
    }

    /// The text held here, or the empty text for any other value.
    pub fn text_or_empty(&self) -> (text: String)
        ensures
            text@ == self@.text_or_empty(),
    {
        match self {
            Value::Text(s) => s.clone(),
            _ => String::new(),
        }
    }

    /// The bytes held here, or none for any other value.
    pub fn bytes_or_empty(&self) -> (bytes: Vec<u8>)
        ensures
            bytes@ == self@.bytes_or_empty(),
    {
        match self {
            Value::Blob(b) => copy_bytes(b),
            _ => Vec::new(),
        }
    }

    /// A copy of this value.
    pub fn copy(&self) -> (copy: Self)
        ensures
            copy@ == self@,
    {
        match self {
            Value::Null => Value::Null,
            Value::Integer(i) => Value::Integer(*i),
            Value::Real(r) => Value::Real(r.copy()),
            Value::Text(s) => Value::Text(s.clone()),
            Value::Blob(b) => Value::Blob(copy_bytes(b)),
        }
    }
}

/// What a list of values holds.
pub open spec fn values_view(values: Seq<Value>) -> Seq<SqlValue> {
    values.map_values(|value: Value| value@)
}

/// What a list of texts holds.
pub open spec fn texts_view(texts: Seq<String>) -> Seq<Seq<char>> {
    texts.map_values(|text: String| text@)
}

/// One row of a query result: values positional by column index.
#[derive(Clone, Debug)]
pub struct Row(pub Vec<Value>);

impl View for Row {
    type V = Seq<SqlValue>;

    open spec fn view(&self) -> Seq<SqlValue> {
        values_view(self.0@)
    }
}

/// The value of a row at a column, SQL `NULL` past its last column.
pub open spec fn cell(row: Seq<SqlValue>, i: int) -> SqlValue {
    if 0 <= i < row.len() {
        row[i]
    } else {
        SqlValue::Null
    }
}

impl Row {
    /// The value at column `i`, or [`Value::Null`] if out of bounds.
    pub fn get(&self, i: usize) -> (value: Value)
        ensures
            value@ == cell(self@, i as int),
    {
        if i < self.0.len() {
            self.0[i].copy()
        } else {
            Value::Null
        }
    }
}

impl Default for Row {
    /// A row without columns.
    fn default() -> (row: Self)
        ensures
            row@.len() == 0,
    {
        Row(Vec::new())
    }
}

/// What a query result holds.
pub open spec fn rows_view(rows: Seq<Row>) -> Seq<Seq<SqlValue>> {
    rows.map_values(|row: Row| row@)
}

/// An error surfaced by a database.
#[derive(Clone, Debug)]
pub enum Error {
    /// A query expected at least one row but returned none.
    NoRows,
    /// Any error from the underlying database driver.
    Backend(String),
}

/// What an [`Error`] holds.
pub enum ErrorView {
    NoRows,
    Backend(Seq<char>),
}

impl View for Error {
    type V = ErrorView;

    open spec fn view(&self) -> ErrorView {
        match *self {
            Error::NoRows => ErrorView::NoRows,
            Error::Backend(s) => ErrorView::Backend(s@),
        }
    }
}

impl ErrorView {
    /// The sentence that tells of the error.
    pub open spec fn message(self) -> Seq<char> {
        match self {
            ErrorView::NoRows => "query returned no rows"@,
            ErrorView::Backend(cause) => "database backend error: "@ + cause,
        }
    }
}

impl Error {
    /// A copy of this error.
    pub fn copy(&self) -> (copy: Self)
        ensures
            copy@ == self@,
    {
        match self {
            Error::NoRows => Error::NoRows,
            Error::Backend(s) => Error::Backend(s.clone()),
        }
    }

    /// The sentence that tells of this error.
    pub fn message(&self) -> (text: String)
        ensures
            text@ == self@.message(),
    {
        match self {
            Error::NoRows => "query returned no rows".to_owned(),
            Error::Backend(cause) => "database backend error: ".to_owned().concat(cause.as_str()),
        }
    }
}

} // verus!
