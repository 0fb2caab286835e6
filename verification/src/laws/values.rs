//! Laws of how numbers, texts and values are written, read back and ordered.
use vstd::bytes::spec_u64_to_le_bytes_open;
use vstd::bytes::spec_u64_to_le_bytes_to_open;
use vstd::prelude::*;

use crate::alive;
use crate::gone;
use crate::json::JsonView;
use crate::json::base64_bytes;
use crate::json::base64_text;
use crate::json::escape;
use crate::json::escaped;
use crate::json::has_json;
use crate::json::json_of;
use crate::json::quoted;
use crate::json::stored_form;
use crate::json::string_members;
use crate::json::value_of;
use crate::laws::convergence::Written;
use crate::laws::convergence::outranks;
use crate::merge::existence;
use crate::merge::gate;
use crate::merge::prevails;
use crate::state::big_endian;
use crate::state::from_big_endian;
use crate::state::lemma_big_endian;
use crate::state::lemma_signed_bytes;
use crate::state::signed_bytes;
use crate::state::signed_number;
use crate::text::Ranking;
use crate::text::bytes_before;
use crate::text::codes;
use crate::text::decimal;
use crate::text::digit;
use crate::text::lemma_before_total;
use crate::text::lemma_codes_injective;
use crate::text::lemma_octets_injective;
use crate::text::lemma_ranking_at;
use crate::text::octets;
use crate::text::ranking;
use crate::text::signed_decimal;
use crate::text::text_before;
use crate::value::ErrorView;
use crate::value::SqlValue;

verus! {

/// The number that a run of decimal digits is read as.
pub open spec fn number_read(digits: Seq<char>) -> int
    decreases digits.len(),
{
    if digits.len() == 0 {
        0
    } else {
        10 * number_read(digits.drop_last()) + (digits.last() as int - '0' as int)
    }
}

/// Whether a character is a decimal digit.
pub open spec fn is_digit(c: char) -> bool {
    '0' as int <= c as int <= '9' as int
}

/// A number is read back from its decimal digits, of which there are no more than it takes.
pub proof fn law_decimals_read_back(n: nat)
    ensures
        number_read(decimal(n)) == n,
        forall|i: int| 0 <= i < decimal(n).len() ==> is_digit(#[trigger] decimal(n)[i]),
        decimal(n).len() >= 1,
        decimal(n).len() > 1 ==> decimal(n)[0] != '0',
    decreases n,
{
    reveal_with_fuel(number_read, 2);
    if n < 10 {
        assert(decimal(n) =~= seq![digit(n)]);
        assert(decimal(n).drop_last() =~= Seq::empty());
    } else {
        law_decimals_read_back(n / 10);
        let head = decimal(n / 10);
        assert(decimal(n) == head.push(digit(n % 10)));
        assert(decimal(n).drop_last() =~= head);
        assert forall|i: int| 0 <= i < decimal(n).len() implies is_digit(
            #[trigger] decimal(n)[i],
        ) by {
            if i < head.len() {
                assert(decimal(n)[i] == head[i]);
            }
        }
        assert(decimal(n)[0] == head[0]);
        if head.len() == 1 {
            assert(head.drop_last() =~= Seq::empty());
            assert(number_read(head) == head[0] as int - '0' as int);
        }
    }
}

/// An integer is written in JSON as its decimal digits, behind a minus sign if it is negative.
pub proof fn law_integers_read_back(i: i64)
    ensures
        ({
            let text = JsonView::Integer(i).text();
            &&& i >= 0 ==> number_read(text) == i
            &&& i < 0 ==> text[0] == '-' && number_read(text.skip(1)) == -i
            &&& text[0] == '-' <==> i < 0
        }),
{
    let size = if i < 0 {
        -(i as int)
    } else {
        i as int
    };
    law_decimals_read_back(size as nat);
    assert(is_digit(decimal(size as nat)[0]));
    if i < 0 {
        assert(signed_decimal(i as int).skip(1) =~= decimal(size as nat));
    }
}

proof fn lemma_escaped_front(text: Seq<char>)
    requires
        text.len() > 0,
    ensures
        escaped(text) == escape(text[0]) + escaped(text.drop_first()),
    decreases text.len(),
{
    let rest = text.drop_first();
    let head = text.drop_last();
    if text.len() == 1 {
        assert(head =~= Seq::empty());
        assert(rest =~= Seq::empty());
        assert(escaped(text) =~= escape(text[0]) + escaped(rest));
    } else {
        lemma_escaped_front(head);
        assert(head.drop_first() =~= rest.drop_last());
        assert(rest.last() == text.last());
        assert(escaped(text) =~= escape(text[0]) + escaped(rest));
    }
}

/// A character is told from how it is written in a JSON string, whatever follows it.
proof fn lemma_escape_told(c: char, x: Seq<char>, d: char, y: Seq<char>)
    requires
        escape(c) + x == escape(d) + y,
    ensures
        c == d,
        x == y,
{
    let (a, b) = (escape(c), escape(d));
    let text = a + x;
    assert(text[0] == a[0] && text[0] == b[0]);
    if a.len() > 1 && b.len() > 1 {
        assert(text[1] == a[1] && text[1] == b[1]);
        if a.len() > 2 && b.len() > 2 {
            assert(text[4] == a[4] && text[4] == b[4]);
            assert(text[5] == a[5] && text[5] == b[5]);
        }
    }
    assert(c == d);
    assert(text.skip(a.len() as int) =~= x);
    assert(text.skip(a.len() as int) =~= y);
}

proof fn lemma_escaped_told(a: Seq<char>, b: Seq<char>)
    requires
        escaped(a) == escaped(b),
    ensures
        a == b,
    decreases a.len(),
{
    if a.len() > 0 {
        lemma_escaped_front(a);
    }
    if b.len() > 0 {
        lemma_escaped_front(b);
    }
    if a.len() > 0 && b.len() > 0 {
        lemma_escape_told(a[0], escaped(a.drop_first()), b[0], escaped(b.drop_first()));
        lemma_escaped_told(a.drop_first(), b.drop_first());
        assert(a =~= seq![a[0]] + a.drop_first());
        assert(b =~= seq![b[0]] + b.drop_first());
    } else if a.len() > 0 {
        assert(escaped(a)[0] == escape(a[0])[0]);
        assert(escaped(b).len() == 0);
    } else if b.len() > 0 {
        assert(escaped(b)[0] == escape(b[0])[0]);
        assert(escaped(a).len() == 0);
    } else {
        assert(a =~= b);
    }
}

/// Whether a character stands for itself in a JSON string.
pub open spec fn is_plain(c: char) -> bool {
    c as int >= 32 && c != '"' && c != '\\'
}

proof fn lemma_plain(text: Seq<char>)
    requires
        forall|i: int| 0 <= i < text.len() ==> is_plain(#[trigger] text[i]),
    ensures
        escaped(text) == text,
    decreases text.len(),
{
    if text.len() > 0 {
        lemma_plain(text.drop_last());
        assert(is_plain(text[text.len() - 1]));
        assert(escaped(text) =~= text);
    }
}

/// How JSON is written: a text between quotation marks, as it is if nothing in it has to be
/// escaped,
/// and other texts otherwise; numbers and documents as they were given.
pub proof fn law_json_is_written(json: JsonView, other: Seq<char>)
    ensures
        json is Null ==> json.text() == "null"@,
        json == JsonView::Bool(true) ==> json.text() == "true"@,
        json == JsonView::Bool(false) ==> json.text() == "false"@,
        json matches JsonView::Number { text, value } ==> json.text() == text,
        json matches JsonView::Document(text) ==> json.text() == text,
        json matches JsonView::Text(text) ==> {
            &&& json.text().len() >= 2
            &&& json.text()[0] == '"'
            &&& json.text().last() == '"'
            &&& json.text() == JsonView::Text(other).text() <==> text == other
            &&& (forall|i: int| 0 <= i < text.len() ==> is_plain(#[trigger] text[i]))
                ==> json.text() == seq!['"'] + text + seq!['"']
        },
{
    if let JsonView::Text(text) = json {
        let (x, y) = (quoted(text), quoted(other));
        if x == y {
            assert(x.subrange(1, x.len() - 1) =~= escaped(text));
            assert(y.subrange(1, y.len() - 1) =~= escaped(other));
            lemma_escaped_told(text, other);
        }
        if forall|i: int| 0 <= i < text.len() ==> is_plain(#[trigger] text[i]) {
            lemma_plain(text);
        }
    }
}

/// A value that was turned into JSON is what the JSON is turned back into, unless it is a number
/// that JSON has no way to write, which becomes `null`. All values have a JSON form that fits in
/// memory but bytes that take up more than a quarter of it.
pub proof fn law_values_come_back(value: SqlValue)
    ensures
        value !is Blob && !(value is Real && value->Real_0.json is None) ==> value_of(
            json_of(value),
        ) == value,
        has_json(value) <==> (value is Blob ==> value->Blob_0.len() <= usize::MAX / 4),
        value is Real && value->Real_0.json is None ==> json_of(value) == JsonView::Null,
        value is Real && value->Real_0.json is Some ==> json_of(value).text()
            == value->Real_0.json->0,
        value is Blob ==> json_of(value).text() == "{\"$blob\":"@ + quoted(
            base64_text(value->Blob_0),
        ) + "}"@,
{
    if let SqlValue::Blob(bytes) = value {
        reveal_strlit("$blob");
        reveal_strlit("{\"$blob\":");
        reveal_strlit("}");
        reveal_with_fuel(escaped, 6);
        let tag = "$blob"@;
        assert(tag =~= seq!['$', 'b', 'l', 'o', 'b']);
        assert(tag.drop_last() =~= seq!['$', 'b', 'l', 'o']);
        assert(tag.drop_last().drop_last() =~= seq!['$', 'b', 'l']);
        assert(tag.drop_last().drop_last().drop_last() =~= seq!['$', 'b']);
        assert(tag.drop_last().drop_last().drop_last().drop_last() =~= seq!['$']);
        assert(tag.drop_last().drop_last().drop_last().drop_last().drop_last() =~= Seq::empty());
        assert(escaped(tag) =~= tag);
        assert(json_of(value).text() =~= "{\"$blob\":"@ + quoted(base64_text(bytes)) + "}"@);
    }
}

/// What comes through a column unchanged: integers, texts and `null`, and numbers that are written
/// as their column renders them. Truth values come through as the integers one and zero.
pub proof fn law_json_comes_through(json: JsonView)
    ensures
        json is Null || json is Integer || json is Text ==> stored_form(json) == json,
        json matches JsonView::Number { text, value } ==> value_of(json) == SqlValue::Real(value)
            && (value.json == Some(text) ==> stored_form(json) == json),
        json == JsonView::Bool(true) ==> stored_form(json) == JsonView::Integer(1),
        json == JsonView::Bool(false) ==> stored_form(json) == JsonView::Integer(0),
        json is Null <==> value_of(json) is Null,
        value_of(json) is Blob ==> json is Document,
{
}

/// A document is stored as bytes exactly if it is an object with the one member `$blob`, a string
/// in base64, and as its text if it is not.
pub proof fn law_documents_are_stored(document: Seq<char>)
    ensures
        match value_of(JsonView::Document(document)) {
            SqlValue::Blob(bytes) => exists|text: Seq<char>|
                string_members(document) == Some(
                    Map::<Seq<char>, Seq<char>>::empty().insert("$blob"@, text),
                ) && #[trigger] base64_bytes(text) == Some(bytes),
            SqlValue::Text(text) => text == document && forall|text: Seq<char>|
                string_members(document) == Some(
                    Map::<Seq<char>, Seq<char>>::empty().insert("$blob"@, text),
                ) ==> #[trigger] base64_bytes(text) is None,
            _ => false,
        },
{
    let tag = "$blob"@;
    if let Some(members) = string_members(document) {
        if members.dom() == set![tag] {
            assert(members =~= Map::<Seq<char>, Seq<char>>::empty().insert(tag, members[tag]));
            assert(base64_bytes(members[tag]) is Some || base64_bytes(members[tag]) is None);
        }
        assert forall|text: Seq<char>|
            members == Map::<Seq<char>, Seq<char>>::empty().insert(tag, text) implies members.dom()
            == set![tag] && #[trigger] base64_bytes(text) == base64_bytes(members[tag]) by {
            assert(members.dom() =~= set![tag]);
        }
    }
}

/// The first place at which two sequences differ, or at which one of them ends.
proof fn lemma_parting(a: Seq<int>, b: Seq<int>, from: int) -> (n: int)
    requires
        0 <= from <= a.len(),
        from <= b.len(),
        a.take(from) == b.take(from),
    ensures
        from <= n <= a.len(),
        n <= b.len(),
        a.take(n) == b.take(n),
        n < a.len() && n < b.len() ==> a[n] != b[n],
    decreases a.len() - from,
{
    if from < a.len() && from < b.len() && a[from] == b[from] {
        assert(a.take(from + 1) =~= a.take(from).push(a[from]));
        assert(b.take(from + 1) =~= b.take(from).push(b[from]));
        lemma_parting(a, b, from + 1)
    } else {
        from
    }
}

/// Two texts are ordered by the code points at the first place at which they differ; a text comes
/// before those that it begins.
pub proof fn law_texts_are_ordered(a: Seq<char>, b: Seq<char>) -> (n: int)
    ensures
        0 <= n <= a.len(),
        n <= b.len(),
        a.take(n) == b.take(n),
        n < a.len() && n < b.len() ==> a[n] != b[n],
        text_before(a, b) <==> n < b.len() && (n == a.len() || (a[n] as int) < (b[n] as int)),
        ranking(codes(a), codes(b)) == Ranking::Less <==> text_before(a, b),
        ranking(codes(a), codes(b)) == Ranking::Greater <==> text_before(b, a),
        ranking(codes(a), codes(b)) == Ranking::Equal <==> a == b,
{
    let (x, y) = (codes(a), codes(b));
    assert(x.take(0) =~= y.take(0));
    let n: int = lemma_parting(x, y, 0);
    assert forall|i: int| 0 <= i < n implies a[i] == b[i] && x[i] == y[i] by {
        assert(x.take(n)[i] == y.take(n)[i]);
        assert(x[i] == a[i] as int && y[i] == b[i] as int);
    }
    assert(a.take(n) =~= b.take(n));
    lemma_ranking_at(x, y, n);
    lemma_before_total(x, y);
    lemma_codes_injective(a, b);
    if n < a.len() && n < b.len() {
        assert(x[n] == a[n] as int && y[n] == b[n] as int);
    }
    n
}

/// Two runs of bytes are ordered by the bytes at the first place at which they differ; a run comes
/// before those that it begins.
pub proof fn law_bytes_are_ordered(a: Seq<u8>, b: Seq<u8>) -> (n: int)
    ensures
        0 <= n <= a.len(),
        n <= b.len(),
        a.take(n) == b.take(n),
        n < a.len() && n < b.len() ==> a[n] != b[n],
        bytes_before(a, b) <==> n < b.len() && (n == a.len() || a[n] < b[n]),
        ranking(octets(a), octets(b)) == Ranking::Less <==> bytes_before(a, b),
        ranking(octets(a), octets(b)) == Ranking::Greater <==> bytes_before(b, a),
        ranking(octets(a), octets(b)) == Ranking::Equal <==> a == b,
{
    let (x, y) = (octets(a), octets(b));
    assert(x.take(0) =~= y.take(0));
    let n: int = lemma_parting(x, y, 0);
    assert forall|i: int| 0 <= i < n implies a[i] == b[i] && x[i] == y[i] by {
        assert(x.take(n)[i] == y.take(n)[i]);
        assert(x[i] == a[i] as int && y[i] == b[i] as int);
    }
    assert(a.take(n) =~= b.take(n));
    lemma_ranking_at(x, y, n);
    lemma_before_total(x, y);
    lemma_octets_injective(a, b);
    n
}

/// Of two writes, the one of the higher version wins; of one version, the one whose JSON text comes
/// later; of one text, the one whose site comes later.
pub proof fn law_the_later_write_wins(a: Written, b: Written)
    ensures
        outranks(a, b) <==> a.ver > b.ver || (a.ver == b.ver && (text_before(b.text, a.text) || (
        a.text == b.text && bytes_before(b.site, a.site)))),
{
    law_texts_are_ordered(a.text, b.text);
    lemma_before_total(codes(b.text), codes(a.text));
}

/// Of two writes of one version, the one whose JSON text comes later prevails, and of one text the
/// one whose site comes later.
pub proof fn law_ties_are_broken(
    value: JsonView,
    site: Seq<u8>,
    local: JsonView,
    local_site: Seq<u8>,
)
    ensures
        prevails(value, site, local, local_site) <==> text_before(local.text(), value.text()) || (
        local.text() == value.text() && bytes_before(local_site, site)),
{
    law_texts_are_ordered(value.text(), local.text());
    lemma_before_total(codes(value.text()), codes(local.text()));
}

/// The lives and deaths of a row alternate: a row that was never there is dead, and from each
/// causal
/// length to the next a living row dies and a dead one lives.
pub proof fn law_lives_alternate(cl: i64)
    ensures
        cl <= 0 ==> !alive(cl),
        gone(0),
        cl < i64::MAX ==> gone((cl + 1) as i64) != gone(cl),
        cl >= 0 ==> alive(cl) != gone(cl),
{
}

/// What a causal length calls for: nothing if it is not above the one that is held; otherwise the
/// end
/// of the row if it is that of a dead row, and a new life if it is that of a living one. That is
/// the
/// first life of a row that was never there, and another one of a row that died or that lives.
pub proof fn law_lengths_decide(local: i64, cl: i64)
    requires
        local >= 0,
    ensures
        existence(local, cl) is Stale <==> cl <= local,
        existence(local, cl) is Delete <==> cl > local && !alive(cl),
        existence(local, cl) is Create || existence(local, cl) is Resurrect || existence(
            local,
            cl,
        ) is Advance <==> cl > local && alive(cl),
        existence(local, cl) is Create ==> local == 0,
        existence(local, cl) is Resurrect ==> local > 0 && !alive(local),
        existence(local, cl) is Advance ==> alive(local),
        gate(local, cl) is Open <==> cl == local && alive(local),
        gate(local, cl) is Enter <==> cl > local,
        gate(local, cl) is Shut <==> cl < local || cl == local && !alive(local),
{
}

/// A value of one kind that is read as another is read as nothing: as the number that is to stand
/// for it, as an empty text, or as no bytes.
pub proof fn law_other_kinds_read_as_nothing(value: SqlValue, default: i64)
    ensures
        value !is Integer ==> value.integer_or(default) == default,
        value !is Text ==> value.text_or_empty().len() == 0,
        value !is Blob ==> value.bytes_or_empty().len() == 0,
        SqlValue::Integer(default).integer_or(0) == default,
{
}

/// The sentence that tells of an error of the database ends in its cause.
pub proof fn law_errors_tell_their_cause(error: ErrorView)
    ensures
        error matches ErrorView::Backend(cause) ==> error.message() == "database backend error: "@
            + cause,
        error is NoRows ==> error.message() == "query returned no rows"@,
{
}

/// Eight bytes stand for a number with the highest first: each counts 256 times as much as the one
/// behind it. A negative number is written as what is left of 2^64. Other than eight bytes stand
/// for
/// no number, and eight bytes for the number that is written so.
pub proof fn law_numbers_are_big_endian(bits: u64, i: i64, bytes: Seq<u8>)
    ensures
        from_big_endian(bytes) is Some <==> bytes.len() == 8,
        from_big_endian(bytes) == Some(bits) <==> bytes == big_endian(bits),
        signed_number(bytes) is Some <==> bytes.len() == 8,
        signed_number(signed_bytes(i)) == Some(i),
        ({
            let b = big_endian(bits);
            &&& b.len() == 8
            &&& bits == b[0] * 0x100000000000000 + b[1] * 0x1000000000000 + b[2] * 0x10000000000
                + b[3] * 0x100000000 + b[4] * 0x1000000 + b[5] * 0x10000 + b[6] * 0x100 + b[7]
        }),
        i >= 0 ==> signed_bytes(i) == big_endian(i as u64) && (i as u64) as int == i as int,
        i < 0 ==> exists|rest: u64|
            rest == i + 0x10000000000000000 && signed_bytes(i) == #[trigger] big_endian(rest),
{
    lemma_big_endian(bits, bytes);
    lemma_signed_bytes(i);
    spec_u64_to_le_bytes_to_open(bits);
    let b = big_endian(bits);
    let l = spec_u64_to_le_bytes_open(bits);
    assert(b =~= l.reverse());
    assert(bits == (((bits >> 56) & 0xff) as u8) * 0x100000000000000 + (((bits >> 48)
        & 0xff) as u8) * 0x1000000000000 + (((bits >> 40) & 0xff) as u8) * 0x10000000000 + (((bits
        >> 32) & 0xff) as u8) * 0x100000000 + (((bits >> 24) & 0xff) as u8) * 0x1000000 + (((bits
        >> 16) & 0xff) as u8) * 0x10000 + (((bits >> 8) & 0xff) as u8) * 0x100 + ((bits
        & 0xff) as u8)) by (bit_vector);
    assert(i >= 0 ==> (i as u64) as int == i as int);
    assert(i < 0 ==> (i as u64) == i + 0x10000000000000000) by (bit_vector);
    assert(signed_bytes(i) == big_endian(i as u64));
}

} // verus!
