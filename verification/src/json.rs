//! The JSON form in which column values travel between replicas.
use base64::Engine as _;
use vstd::prelude::*;

use crate::text::Ranking;
use crate::text::codes;
use crate::text::compare_texts;
use crate::text::digit;
use crate::text::ranking;
use crate::text::same_text;
use crate::text::signed_decimal;
use crate::text::signed_decimal_text;
use crate::value::Real;
use crate::value::RealView;
use crate::value::SqlValue;
use crate::value::Value;

verus! {

/// A JSON value, as far as the merge looks into it.
#[derive(Clone, Debug, PartialEq)]
pub enum Json {
    Null,
    Bool(bool),
    /// A number that fits an `i64`.
    Integer(i64),
    /// Any other number: how it is written, and the double that it reads as.
    Number { text: String, value: Real },
    Text(String),
    /// An array or an object, as its compact JSON text.
    Document(String),
}

/// What a [`Json`] holds.
pub enum JsonView {
    Null,
    Bool(bool),
    Integer(i64),
    Number { text: Seq<char>, value: RealView },
    Text(Seq<char>),
    Document(Seq<char>),
}

impl View for Json {
    type V = JsonView;

    open spec fn view(&self) -> JsonView {
        match *self {
            Json::Null => JsonView::Null,
            Json::Bool(b) => JsonView::Bool(b),
            Json::Integer(i) => JsonView::Integer(i),
            Json::Number { text, value } => JsonView::Number { text: text@, value: value@ },
            Json::Text(s) => JsonView::Text(s@),
            Json::Document(s) => JsonView::Document(s@),
        }
    }
}

/// The lower-case hexadecimal digit that stands for `d`.
pub open spec fn hex_digit(d: nat) -> char {
    if d < 10 {
        digit(d)
    } else {
        (87 + d) as char
    }
}

/// How a character is written inside a JSON string.
pub open spec fn escape(c: char) -> Seq<char> {
    if c == '"' || c == '\\' {
        seq!['\\', c]
    } else if c == '\u{8}' {
        seq!['\\', 'b']
    } else if c == '\t' {
        seq!['\\', 't']
    } else if c == '\n' {
        seq!['\\', 'n']
    } else if c == '\u{c}' {
        seq!['\\', 'f']
    } else if c == '\r' {
        seq!['\\', 'r']
    } else if (c as int) < 32 {
        seq!['\\', 'u', '0', '0', hex_digit((c as nat) / 16), hex_digit((c as nat) % 16)]
    } else {
        seq![c]
    }
}

/// How a run of characters is written inside a JSON string.
pub open spec fn escaped(text: Seq<char>) -> Seq<char>
    decreases text.len(),
{
    if text.len() == 0 {
        Seq::empty()
    } else {
        escaped(text.drop_last()) + escape(text.last())
    }
}

/// A text as a JSON string.
pub open spec fn quoted(text: Seq<char>) -> Seq<char> {
    seq!['"'] + escaped(text) + seq!['"']
}

/// A JSON object with one member, a string.
pub open spec fn object_of(key: Seq<char>, value: Seq<char>) -> Seq<char> {
    seq!['{'] + quoted(key) + seq![':'] + quoted(value) + seq!['}']
}

/// What `serde_json` reads from a text as an object whose members are all strings: the members
/// by their keys, or `None` for any other text.
pub uninterp spec fn string_members(text: Seq<char>) -> Option<Map<Seq<char>, Seq<char>>>;

/// What `base64` reads from a text in the standard alphabet with padding, or `None` where it
/// refuses the text.
pub uninterp spec fn base64_bytes(text: Seq<char>) -> Option<Seq<u8>>;

/// How `base64` writes bytes in the standard alphabet with padding.
pub uninterp spec fn base64_text(bytes: Seq<u8>) -> Seq<char>;

/// `serde_json::Value`'s `to_string`, on a string: the text in quotation marks, with quotation
/// marks, backslashes and the control characters below U+0020 escaped.
#[verifier::external_body]
fn json_string(text: &str) -> (json: String)
    ensures
        json@ == quoted(text@),
{
    serde_json::Value::from(text).to_string()
}

/// `serde_json::Value`'s `to_string`, on an object with one member that is a string: compact
/// JSON, from which [`members_of`] reads the member back.
#[verifier::external_body]
fn json_object(key: &str, value: &str) -> (json: String)
    ensures
        json@ == object_of(key@, value@),
        string_members(json@) == Some(Map::<Seq<char>, Seq<char>>::empty().insert(key@, value@)),
{
    let mut members = serde_json::Map::new();
    members.insert(key.to_owned(), serde_json::Value::from(value));
    serde_json::Value::Object(members).to_string()
}

/// `serde_json::from_str`, into a map from strings to strings: the members of a JSON object that
/// are all strings, each key once.
#[verifier::external_body]
fn members_of(text: &str) -> (members: Option<Vec<(String, String)>>)
    ensures
        match members {
            Some(list) => {
                &&& string_members(text@) == Some(members_map(list@))
                &&& forall|i: int, j: int| 0 <= i < j < list@.len() ==> list@[i].0@ != list@[j].0@
            },
            None => string_members(text@) is None,
        },
{
    match serde_json::from_str::<std::collections::BTreeMap<String, String>>(text) {
        Ok(members) => Some(members.into_iter().collect()),
        Err(_) => None,
    }
}

/// The members of a list, by their keys.
pub open spec fn members_map(list: Seq<(String, String)>) -> Map<Seq<char>, Seq<char>>
    decreases list.len(),
{
    if list.len() == 0 {
        Map::empty()
    } else {
        members_map(list.drop_last()).insert(list.last().0@, list.last().1@)
    }
}

/// The longest blob that can be written in base64: its encoding has to fit in memory.
pub open spec fn encodable(bytes: Seq<u8>) -> bool {
    bytes.len() <= usize::MAX / 4
}

/// `base64`'s standard engine, `encode`: the text that [`base64_decode`] reads back into the
/// same bytes.
#[verifier::external_body]
fn base64_encode(bytes: &Vec<u8>) -> (text: String)
    requires
        encodable(bytes@),
    ensures
        text@ == base64_text(bytes@),
        base64_bytes(text@) == Some(bytes@),
{
    base64::engine::general_purpose::STANDARD.encode(bytes)
}

/// `base64`'s standard engine, `decode`: the bytes that a text stands for, or `None` where it is
/// no base64.
#[verifier::external_body]
fn base64_decode(text: &str) -> (bytes: Option<Vec<u8>>)
    ensures
        match bytes {
            Some(decoded) => base64_bytes(text@) == Some(decoded@),
            None => base64_bytes(text@) is None,
        },
{
    base64::engine::general_purpose::STANDARD.decode(text).ok()
}

impl JsonView {
    /// The compact JSON text of the value.
    pub open spec fn text(self) -> Seq<char> {
        match self {
            JsonView::Null => "null"@,
            JsonView::Bool(b) => if b {
                "true"@
            } else {
                "false"@
            },
            JsonView::Integer(i) => signed_decimal(i as int),
            JsonView::Number { text, value } => text,
            JsonView::Text(s) => quoted(s),
            JsonView::Document(s) => s,
        }
    }
}

impl Json {
    /// The compact JSON text of this value.
    pub fn text(&self) -> (text: String)
        ensures
            text@ == self@.text(),
    {
        match self {
            Json::Null => "null".to_owned(),
            Json::Bool(b) => if *b {
                "true".to_owned()
            } else {
                "false".to_owned()
            },
            Json::Integer(i) => signed_decimal_text(*i),
            Json::Number { text, value } => text.clone(),
            Json::Text(s) => json_string(s.as_str()),
            Json::Document(s) => s.clone(),
        }
    }

    /// A copy of this value.
    pub fn copy(&self) -> (copy: Self)
        ensures
            copy@ == self@,
    {
        match self {
            Json::Null => Json::Null,
            Json::Bool(b) => Json::Bool(*b),
            Json::Integer(i) => Json::Integer(*i),
            Json::Number { text, value } => Json::Number {
                text: text.clone(),
                value: value.copy(),
            },
            Json::Text(s) => Json::Text(s.clone()),
            Json::Document(s) => Json::Document(s.clone()),
        }
    }
}

/// The key of the one-member object that stands for a blob.
pub const BLOB_TAG: &'static str = "$blob";

/// The JSON form of a SQL value. A blob becomes a tagged object, so that it is not taken for a
/// text; a double that JSON has no number for becomes `null`.
pub open spec fn json_of(value: SqlValue) -> JsonView {
    match value {
        SqlValue::Null => JsonView::Null,
        SqlValue::Integer(i) => JsonView::Integer(i),
        SqlValue::Real(r) => match r.json {
            Some(text) => JsonView::Number { text, value: r },
            None => JsonView::Null,
        },
        SqlValue::Text(s) => JsonView::Text(s),
        SqlValue::Blob(b) => JsonView::Document(object_of(BLOB_TAG@, base64_text(b))),
    }
}

/// The bytes that a JSON document stands for, where it is a tagged blob.
pub open spec fn tagged_blob(document: Seq<char>) -> Option<Seq<u8>> {
    match string_members(document) {
        Some(members) => if members.dom() == set![BLOB_TAG@] {
            base64_bytes(members[BLOB_TAG@])
        } else {
            None
        },
        None => None,
    }
}

/// The SQL value that a JSON value is stored as.
pub open spec fn value_of(json: JsonView) -> SqlValue {
    match json {
        JsonView::Null => SqlValue::Null,
        JsonView::Bool(b) => SqlValue::Integer(if b {
            1
        } else {
            0
        }),
        JsonView::Integer(i) => SqlValue::Integer(i),
        JsonView::Number { text, value } => SqlValue::Real(value),
        JsonView::Text(s) => SqlValue::Text(s),
        JsonView::Document(s) => match tagged_blob(s) {
            Some(bytes) => SqlValue::Blob(bytes),
            None => SqlValue::Text(s),
        },
    }
}

/// Whether a value has a JSON form that fits in memory.
pub open spec fn has_json(value: SqlValue) -> bool {
    value is Blob ==> encodable(value->Blob_0)
}

/// Whether a JSON value comes through a column unchanged: stored and read again, its text is the
/// same.
pub open spec fn faithful(json: JsonView) -> bool {
    has_json(value_of(json)) && json_of(value_of(json)).text() == json.text()
}

/// Whether a value has a JSON form that fits in memory and comes through a column unchanged.
pub open spec fn storable(value: SqlValue) -> bool {
    has_json(value) && faithful(json_of(value))
}

/// A JSON value as it reads once a column has stored it.
pub open spec fn stored_form(json: JsonView) -> JsonView {
    json_of(value_of(json))
}

/// Whether `val` has a JSON form that fits in memory.
pub fn fits_json(val: &Value) -> (fits: bool)
    ensures
        fits == has_json(val@),
{
    match val {
        Value::Blob(bytes) => bytes.len() <= usize::MAX / 4,
        _ => true,
    }
}

/// Converts a [`Value`] to JSON. Blobs become a tagged base64 object so they round-trip
/// faithfully.
pub fn value_to_json(val: &Value) -> (json: Json)
    requires
        has_json(val@),
    ensures
        json@ == json_of(val@),
        val@ is Blob ==> value_of(json@) == val@,
        faithful(json@),
{
    match val {
        Value::Text(s) => Json::Text(s.clone()),
        Value::Integer(i) => Json::Integer(*i),
        Value::Real(r) => match &r.json {
            Some(text) => Json::Number { text: text.clone(), value: r.copy() },
            None => Json::Null,
        },
        Value::Null => Json::Null,
        Value::Blob(b) => {
            let encoded = base64_encode(b);
            let document = json_object(BLOB_TAG, encoded.as_str());
            assert(Map::<Seq<char>, Seq<char>>::empty().insert(BLOB_TAG@, encoded@).dom()
                =~= set![BLOB_TAG@]);
            Json::Document(document)
        },
    }
}

/// The bytes of a tagged blob.
fn read_blob(document: &str) -> (bytes: Option<Vec<u8>>)
    ensures
        match bytes {
            Some(b) => tagged_blob(document@) == Some(b@),
            None => tagged_blob(document@) is None,
        },
{
    match members_of(document) {
        Some(members) => {
            proof {
                reveal_with_fuel(members_map, 3);
                lemma_members_dom(members@);
            }
            if members.len() == 1 && same_text(members[0].0.as_str(), BLOB_TAG) {
                assert(members_map(members@).dom() =~= set![BLOB_TAG@]);
                base64_decode(members[0].1.as_str())
            } else {
                proof {
                    if members_map(members@).dom() == set![BLOB_TAG@] {
                        if members@.len() == 0 {
                            assert(set![BLOB_TAG@].contains(BLOB_TAG@));
                        } else {
                            assert(members_map(members@).dom().contains(members@[0].0@));
                            if members@.len() > 1 {
                                assert(members_map(members@).dom().contains(members@[1].0@));
                            }
                        }
                    }
                }
                None
            }
        },
        None => None,
    }
}

proof fn lemma_members_dom(list: Seq<(String, String)>)
    ensures
        forall|i: int|
            0 <= i < list.len() ==> members_map(list).dom().contains(#[trigger] list[i].0@),
    decreases list.len(),
{
    if list.len() > 0 {
        lemma_members_dom(list.drop_last());
        assert forall|i: int| 0 <= i < list.len() implies members_map(list).dom().contains(
            #[trigger] list[i].0@,
        ) by {
            if i < list.len() - 1 {
                assert(list.drop_last()[i] == list[i]);
            }
        }
    }
}

/// Converts a JSON value back to a [`Value`], decoding tagged blobs.
pub fn json_to_value(val: &Json) -> (value: Value)
    ensures
        value@ == value_of(val@),
{
    match val {
        Json::Text(s) => Value::Text(s.clone()),
        Json::Integer(i) => Value::Integer(*i),
        Json::Number { text, value } => Value::Real(value.copy()),
        Json::Bool(b) => Value::Integer(if *b {
            1
        } else {
            0
        }),
        Json::Null => Value::Null,
        Json::Document(document) => match read_blob(document.as_str()) {
            Some(bytes) => Value::Blob(bytes),
            None => Value::Text(document.clone()),
        },
    }
}

/// A JSON value as it reads once a column has stored it, if that fits in memory.
pub fn as_stored(val: &Json) -> (stored: Option<Json>)
    ensures
        stored is Some == has_json(value_of(val@)),
        stored matches Some(json) ==> json@ == stored_form(val@),
{
    let value = json_to_value(val);
    if fits_json(&value) {
        Some(value_to_json(&value))
    } else {
        None
    }
}

/// Deterministic JSON comparison for breaking ties: by the JSON texts.
pub fn compare_json_values(a: &Json, b: &Json) -> (rank: Ranking)
    ensures
        rank == ranking(codes(a@.text()), codes(b@.text())),
{
    compare_texts(a.text().as_str(), b.text().as_str())
}

} // verus!
