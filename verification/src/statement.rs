//! The statements that make up the bookkeeping, and the SQL they are written in.
use vstd::prelude::*;

use crate::schema::SENTINEL;
use crate::text::chars_of;
use crate::text::decimal;
use crate::text::decimal_text;
use crate::text::join;
use crate::text::joined;
use crate::text::text_of;
use crate::value::SqlValue;
use crate::value::Value;
use crate::value::copy_bytes;
use crate::value::texts_view;
use crate::value::values_view;

verus! {

/// A key column and the value that a row has in it.
#[derive(Clone, Debug)]
pub struct KeyPart {
    pub column: String,
    pub value: String,
}

impl View for KeyPart {
    type V = (Seq<char>, Seq<char>);

    open spec fn view(&self) -> (Seq<char>, Seq<char>) {
        (self.column@, self.value@)
    }
}

/// The key columns of a row with their values.
pub type Key = Seq<(Seq<char>, Seq<char>)>;

/// What a list of key columns and values holds.
pub open spec fn key_view(key: Seq<KeyPart>) -> Key {
    key.map_values(|part: KeyPart| part@)
}

/// A column and a value for it.
#[derive(Clone, Debug)]
pub struct Cell {
    pub column: String,
    pub value: Value,
}

impl View for Cell {
    type V = (Seq<char>, SqlValue);

    open spec fn view(&self) -> (Seq<char>, SqlValue) {
        (self.column@, self.value@)
    }
}

/// What a list of columns and values holds.
pub open spec fn cells_view(cells: Seq<Cell>) -> Seq<(Seq<char>, SqlValue)> {
    cells.map_values(|cell: Cell| cell@)
}

/// The clock entry of one column of one row.
#[derive(Clone, Debug)]
pub struct Stamp {
    pub pk: String,
    pub column: String,
    pub col_ver: i64,
    pub db_ver: i64,
    pub site_id: Vec<u8>,
    pub seq: i64,
}

/// What a [`Stamp`] holds.
pub struct StampView {
    pub pk: Seq<char>,
    pub column: Seq<char>,
    pub col_ver: i64,
    pub db_ver: i64,
    pub site_id: Seq<u8>,
    pub seq: i64,
}

impl View for Stamp {
    type V = StampView;

    open spec fn view(&self) -> StampView {
        StampView {
            pk: self.pk@,
            column: self.column@,
            col_ver: self.col_ver,
            db_ver: self.db_ver,
            site_id: self.site_id@,
            seq: self.seq,
        }
    }
}

/// A statement for the database.
///
/// `table` is the name of a tracked table, also where the statement is about its clock table.
#[derive(Clone, Debug)]
pub enum Statement {
    /// Creates the table of the site's identity.
    CreateSiteTable,
    /// Creates the table of the database version.
    CreateVersionTable,
    /// Creates the key-value table of the sync state.
    CreateStateTable,
    /// Creates the clock table of `table`.
    CreateClockTable { table: String },
    /// Lists the database version.
    SelectVersion,
    /// Starts the database version at zero.
    InsertVersion,
    /// Adds one to the database version.
    BumpVersion,
    /// Lists the site's identity.
    SelectSite,
    /// Draws the site's identity; with `or_ignore`, a clash is passed over.
    InsertSite { or_ignore: bool },
    /// Lists the sync state under `key`.
    SelectState { key: String },
    /// Stores sync state under `key`.
    PutState { key: String, value: Vec<u8> },
    /// Lists the version of a clock entry.
    SelectColVer { table: String, pk: String, column: String },
    /// Lists the version and site of a clock entry.
    SelectClock { table: String, pk: String, column: String },
    /// Stores a clock entry in place of any that is there.
    PutClock { table: String, stamp: Stamp },
    /// Stores a clock entry unless one is there.
    SeedClock { table: String, stamp: Stamp },
    /// Takes the versions of all columns of a row back to zero.
    ZeroColumns { table: String, pk: String },
    /// Lists the clock entries above a database version, in the order of their making.
    SelectChanges { table: String, since: i64 },
    /// Lists the keys of all rows that have a sentinel, with its causal length.
    SelectSentinels { table: String },
    /// Lists the keys that the clock table holds, each once.
    SelectPks { table: String },
    /// Removes the clock entries of a column.
    DropColumn { table: String, column: String },
    /// Renames a clock table.
    RenameClock { old_table: String, new_table: String },
    /// Lists a one where the clock table exists.
    ClockExists { table: String },
    /// Gives all clock entries of a row another key.
    RewritePk { table: String, old_pk: String, new_pk: String },
    /// Removes all clock entries of a row.
    DropPk { table: String, pk: String },
    /// Lists a column of a row.
    ReadCell { table: String, column: String, key: Vec<KeyPart> },
    /// Lists a one where a row is there.
    ProbeRow { table: String, key: Vec<KeyPart> },
    /// Inserts a row, unless that would break a constraint.
    InsertRow { table: String, key: Vec<KeyPart>, defaults: Vec<Cell> },
    /// Stores a value in a column of a row.
    WriteCell { table: String, column: String, value: Value, key: Vec<KeyPart> },
    /// Removes a row.
    DeleteRow { table: String, key: Vec<KeyPart> },
    /// Lists columns of all rows.
    SelectKeys { table: String, columns: Vec<String> },
}

/// What a [`Statement`] holds.
pub enum StatementView {
    CreateSiteTable,
    CreateVersionTable,
    CreateStateTable,
    CreateClockTable { table: Seq<char> },
    SelectVersion,
    InsertVersion,
    BumpVersion,
    SelectSite,
    InsertSite { or_ignore: bool },
    SelectState { key: Seq<char> },
    PutState { key: Seq<char>, value: Seq<u8> },
    SelectColVer { table: Seq<char>, pk: Seq<char>, column: Seq<char> },
    SelectClock { table: Seq<char>, pk: Seq<char>, column: Seq<char> },
    PutClock { table: Seq<char>, stamp: StampView },
    SeedClock { table: Seq<char>, stamp: StampView },
    ZeroColumns { table: Seq<char>, pk: Seq<char> },
    SelectChanges { table: Seq<char>, since: i64 },
    SelectSentinels { table: Seq<char> },
    SelectPks { table: Seq<char> },
    DropColumn { table: Seq<char>, column: Seq<char> },
    RenameClock { old_table: Seq<char>, new_table: Seq<char> },
    ClockExists { table: Seq<char> },
    RewritePk { table: Seq<char>, old_pk: Seq<char>, new_pk: Seq<char> },
    DropPk { table: Seq<char>, pk: Seq<char> },
    ReadCell { table: Seq<char>, column: Seq<char>, key: Key },
    ProbeRow { table: Seq<char>, key: Key },
    InsertRow { table: Seq<char>, key: Key, defaults: Seq<(Seq<char>, SqlValue)> },
    WriteCell { table: Seq<char>, column: Seq<char>, value: SqlValue, key: Key },
    DeleteRow { table: Seq<char>, key: Key },
    SelectKeys { table: Seq<char>, columns: Seq<Seq<char>> },
}

impl View for Statement {
    type V = StatementView;

    open spec fn view(&self) -> StatementView {
        match *self {
            Statement::CreateSiteTable => StatementView::CreateSiteTable,
            Statement::CreateVersionTable => StatementView::CreateVersionTable,
            Statement::CreateStateTable => StatementView::CreateStateTable,
            Statement::CreateClockTable { table } => StatementView::CreateClockTable {
                table: table@,
            },
            Statement::SelectVersion => StatementView::SelectVersion,
            Statement::InsertVersion => StatementView::InsertVersion,
            Statement::BumpVersion => StatementView::BumpVersion,
            Statement::SelectSite => StatementView::SelectSite,
            Statement::InsertSite { or_ignore } => StatementView::InsertSite { or_ignore },
            Statement::SelectState { key } => StatementView::SelectState { key: key@ },
            Statement::PutState { key, value } => StatementView::PutState {
                key: key@,
                value: value@,
            },
            Statement::SelectColVer { table, pk, column } => StatementView::SelectColVer {
                table: table@,
                pk: pk@,
                column: column@,
            },
            Statement::SelectClock { table, pk, column } => StatementView::SelectClock {
                table: table@,
                pk: pk@,
                column: column@,
            },
            Statement::PutClock { table, stamp } => StatementView::PutClock {
                table: table@,
                stamp: stamp@,
            },
            Statement::SeedClock { table, stamp } => StatementView::SeedClock {
                table: table@,
                stamp: stamp@,
            },
            Statement::ZeroColumns { table, pk } => StatementView::ZeroColumns {
                table: table@,
                pk: pk@,
            },
            Statement::SelectChanges { table, since } => StatementView::SelectChanges {
                table: table@,
                since,
            },
            Statement::SelectSentinels { table } => StatementView::SelectSentinels {
                table: table@,
            },
            Statement::SelectPks { table } => StatementView::SelectPks { table: table@ },
            Statement::DropColumn { table, column } => StatementView::DropColumn {
                table: table@,
                column: column@,
            },
            Statement::RenameClock { old_table, new_table } => StatementView::RenameClock {
                old_table: old_table@,
                new_table: new_table@,
            },
            Statement::ClockExists { table } => StatementView::ClockExists { table: table@ },
            Statement::RewritePk { table, old_pk, new_pk } => StatementView::RewritePk {
                table: table@,
                old_pk: old_pk@,
                new_pk: new_pk@,
            },
            Statement::DropPk { table, pk } => StatementView::DropPk { table: table@, pk: pk@ },
            Statement::ReadCell { table, column, key } => StatementView::ReadCell {
                table: table@,
                column: column@,
                key: key_view(key@),
            },
            Statement::ProbeRow { table, key } => StatementView::ProbeRow {
                table: table@,
                key: key_view(key@),
            },
            Statement::InsertRow { table, key, defaults } => StatementView::InsertRow {
                table: table@,
                key: key_view(key@),
                defaults: cells_view(defaults@),
            },
            Statement::WriteCell { table, column, value, key } => StatementView::WriteCell {
                table: table@,
                column: column@,
                value: value@,
                key: key_view(key@),
            },
            Statement::DeleteRow { table, key } => StatementView::DeleteRow {
                table: table@,
                key: key_view(key@),
            },
            Statement::SelectKeys { table, columns } => StatementView::SelectKeys {
                table: table@,
                columns: texts_view(columns@),
            },
        }
    }
}

/// The name of the shadow clock table for a tracked table.
pub open spec fn clock_name(table: Seq<char>) -> Seq<char> {
    table + "__crr_clock"@
}

/// The name of the shadow clock table for a tracked table.
///
/// The single source of truth for the `{table}__crr_clock` naming convention.
pub fn clock_table(table: &str) -> (name: String)
    ensures
        name@ == clock_name(table@),
{
    table.to_owned().concat("__crr_clock")
}

/// A condition on the key columns of a row, with placeholders from `?1` on.
pub open spec fn where_text(key: Key) -> Seq<char> {
    joined(
        Seq::new(key.len(), |i: int| key[i].0 + " = ?"@ + decimal((i + 1) as nat)),
        " AND "@,
    )
}

/// The values of a row in its key columns.
pub open spec fn key_values(key: Key) -> Seq<SqlValue> {
    Seq::new(key.len(), |i: int| SqlValue::Text(key[i].1))
}

/// Whether `c` is one of the digits 0 to 9.
pub open spec fn is_digit(c: char) -> bool {
    '0' <= c && c <= '9'
}

/// A number in decimal stands for itself, in digits.
pub proof fn lemma_decimal_number(n: nat)
    ensures
        number(decimal(n)) == n,
        decimal(n).len() > 0,
        forall|k: int| 0 <= k < decimal(n).len() ==> is_digit(#[trigger] decimal(n)[k]),
    decreases n,
{
    let text = decimal(n);
    if n >= 10 {
        lemma_decimal_number(n / 10);
        assert(text.drop_last() =~= decimal(n / 10));
        assert(text.last() == crate::text::digit(n % 10));
    } else {
        assert(text.drop_last() =~= Seq::empty());
        assert(number(text.drop_last()) == 0);
    }
}

/// Where the run of digits that starts at `from` ends.
pub open spec fn digits_end(text: Seq<char>, from: int) -> int
    decreases text.len() - from,
{
    if 0 <= from < text.len() && is_digit(text[from]) {
        digits_end(text, from + 1)
    } else {
        from
    }
}

/// The number that a run of digits stands for.
pub open spec fn number(digits: Seq<char>) -> nat
    decreases digits.len(),
{
    if digits.len() == 0 {
        0
    } else {
        number(digits.drop_last()) * 10 + (digits.last() as nat - 48) as nat
    }
}

/// What follows a `?` in a clause, once its number, if it has one, is raised by `offset`. A
/// number that is too large for that stays as it is.
pub open spec fn raised(digits: Seq<char>, offset: nat) -> Seq<char> {
    if digits.len() > 0 && number(digits) + offset <= usize::MAX {
        decimal(number(digits) + offset)
    } else {
        digits
    }
}

/// A clause with the number of each `?N` raised by `offset`.
pub open spec fn shifted(clause: Seq<char>, offset: nat) -> Seq<char>
    decreases clause.len(),
    via shifted_decreases
{
    if clause.len() == 0 {
        Seq::empty()
    } else if clause[0] == '?' {
        let end = digits_end(clause, 1);
        seq!['?'] + raised(clause.subrange(1, end), offset) + shifted(clause.skip(end), offset)
    } else {
        seq![clause[0]] + shifted(clause.skip(1), offset)
    }
}

#[via_fn]
proof fn shifted_decreases(clause: Seq<char>, offset: nat) {
    if clause.len() > 0 {
        lemma_digits_end(clause, 1);
    }
}

proof fn lemma_digits_end(text: Seq<char>, from: int)
    requires
        0 <= from <= text.len(),
    ensures
        from <= digits_end(text, from) <= text.len(),
        forall|k: int| from <= k < digits_end(text, from) ==> is_digit(#[trigger] text[k]),
    decreases text.len() - from,
{
    if from < text.len() && is_digit(text[from]) {
        lemma_digits_end(text, from + 1);
    }
}

/// Whether every placeholder of a clause can be raised by an offset: its number stays one that a
/// machine can hold.
pub open spec fn can_shift(clause: Seq<char>, offset: nat) -> bool
    decreases clause.len(),
    via can_shift_decreases
{
    if clause.len() == 0 {
        true
    } else if clause[0] == '?' {
        let end = digits_end(clause, 1);
        number(clause.subrange(1, end)) + offset <= usize::MAX && can_shift(
            clause.skip(end),
            offset,
        )
    } else {
        can_shift(clause.skip(1), offset)
    }
}

#[via_fn]
proof fn can_shift_decreases(clause: Seq<char>, offset: nat) {
    if clause.len() > 0 && clause[0] == '?' {
        lemma_digits_end(clause, 1);
    }
}

/// A clause without the numbers of its placeholders.
pub open spec fn unnumbered(clause: Seq<char>) -> Seq<char>
    decreases clause.len(),
    via unnumbered_decreases
{
    if clause.len() == 0 {
        Seq::empty()
    } else if clause[0] == '?' {
        seq!['?'] + unnumbered(clause.skip(digits_end(clause, 1)))
    } else {
        seq![clause[0]] + unnumbered(clause.skip(1))
    }
}

#[via_fn]
proof fn unnumbered_decreases(clause: Seq<char>) {
    if clause.len() > 0 && clause[0] == '?' {
        lemma_digits_end(clause, 1);
    }
}

/// How many question marks a text has.
pub open spec fn marks(text: Seq<char>) -> nat
    decreases text.len(),
{
    if text.len() == 0 {
        0
    } else {
        (if text[0] == '?' {
            1nat
        } else {
            0
        }) + marks(text.skip(1))
    }
}

proof fn lemma_digits_run(text: Seq<char>, from: int, to: int)
    requires
        0 <= from <= to <= text.len(),
        forall|k: int| from <= k < to ==> is_digit(#[trigger] text[k]),
        to < text.len() ==> !is_digit(text[to]),
    ensures
        digits_end(text, from) == to,
    decreases to - from,
{
    if from < to {
        lemma_digits_run(text, from + 1, to);
    }
}

proof fn lemma_run_over(text: Seq<char>, from: int)
    requires
        0 <= from <= text.len(),
    ensures
        digits_end(text, from) < text.len() ==> !is_digit(text[digits_end(text, from)]),
    decreases text.len() - from,
{
    if from < text.len() && is_digit(text[from]) {
        lemma_run_over(text, from + 1);
    }
}

proof fn lemma_shifted_head(clause: Seq<char>, offset: nat)
    ensures
        clause.len() == 0 <==> shifted(clause, offset).len() == 0,
        clause.len() > 0 ==> shifted(clause, offset)[0] == clause[0],
{
}

/// A placeholder and what follows it, taken apart again after a shift.
proof fn lemma_shifted_parts(clause: Seq<char>, offset: nat)
    requires
        clause.len() > 0,
        clause[0] == '?',
    ensures
        ({
            let end = digits_end(clause, 1);
            let digits = raised(clause.subrange(1, end), offset);
            let rest = shifted(clause.skip(end), offset);
            let out = shifted(clause, offset);
            &&& 1 <= end <= clause.len()
            &&& out == seq!['?'] + digits + rest
            &&& digits_end(out, 1) == 1 + digits.len()
            &&& out.subrange(1, 1 + digits.len() as int) == digits
            &&& out.skip(1 + digits.len() as int) == rest
            &&& digits.len() == 0 <==> end == 1
            &&& forall|k: int| 0 <= k < digits.len() ==> is_digit(#[trigger] digits[k])
        }),
{
    let end = digits_end(clause, 1);
    let own = clause.subrange(1, end);
    let digits = raised(own, offset);
    let tail = clause.skip(end);
    let rest = shifted(tail, offset);
    let out = shifted(clause, offset);
    lemma_digits_end(clause, 1);
    lemma_run_over(clause, 1);
    lemma_decimal_number(number(own) + offset);
    lemma_shifted_head(tail, offset);
    if tail.len() > 0 {
        assert(tail[0] == clause[end]);
    }
    assert(out =~= seq!['?'] + digits + rest);
    assert forall|k: int| 0 <= k < digits.len() implies is_digit(#[trigger] digits[k]) by {
        if digits == own {
            assert(own[k] == clause[k + 1]);
        }
    }
    assert forall|k: int| 1 <= k < 1 + digits.len() implies is_digit(#[trigger] out[k]) by {
        assert(out[k] == digits[k - 1]);
    }
    if 1 + digits.len() < out.len() {
        assert(out[1 + digits.len() as int] == rest[0]);
    }
    lemma_digits_run(out, 1, 1 + digits.len() as int);
    assert(out.subrange(1, 1 + digits.len() as int) =~= digits);
    assert(out.skip(1 + digits.len() as int) =~= rest);
}

/// Shifting the placeholders of a clause twice is shifting them once by the sum, as long as their
/// numbers can be held.
pub proof fn law_shifts_add(clause: Seq<char>, a: nat, b: nat)
    requires
        can_shift(clause, a + b),
    ensures
        shifted(shifted(clause, a), b) == shifted(clause, a + b),
    decreases clause.len(),
{
    if clause.len() > 0 {
        let once = shifted(clause, a);
        if clause[0] == '?' {
            let end = digits_end(clause, 1);
            let own = clause.subrange(1, end);
            lemma_digits_end(clause, 1);
            lemma_shifted_parts(clause, a);
            law_shifts_add(clause.skip(end), a, b);
            lemma_decimal_number(number(own) + a);
            let digits = raised(own, a);
            assert(once[0] == '?');
            assert(shifted(once, b) == seq!['?'] + raised(digits, b) + shifted(
                shifted(clause.skip(end), a),
                b,
            ));
            assert(raised(digits, b) == raised(own, a + b));
        } else {
            law_shifts_add(clause.skip(1), a, b);
            assert(once[0] == clause[0]);
            assert(once.skip(1) =~= shifted(clause.skip(1), a));
        }
    } else {
        assert(shifted(clause, a) =~= Seq::empty());
    }
}

proof fn lemma_marks_over(digits: Seq<char>, rest: Seq<char>)
    requires
        forall|k: int| 0 <= k < digits.len() ==> is_digit(#[trigger] digits[k]),
    ensures
        marks(digits + rest) == marks(rest),
    decreases digits.len(),
{
    if digits.len() > 0 {
        let all = digits + rest;
        assert(is_digit(digits[0]));
        assert(all[0] == digits[0]);
        assert(all.skip(1) =~= digits.skip(1) + rest);
        lemma_marks_over(digits.skip(1), rest);
    } else {
        assert(digits + rest =~= rest);
    }
}

/// Shifting the placeholders of a clause changes nothing but their numbers: what stands outside
/// these is as it was, and there are as many placeholders as before.
pub proof fn law_shift_keeps_text(clause: Seq<char>, offset: nat)
    ensures
        unnumbered(shifted(clause, offset)) == unnumbered(clause),
        marks(shifted(clause, offset)) == marks(clause),
    decreases clause.len(),
{
    if clause.len() > 0 {
        let out = shifted(clause, offset);
        if clause[0] == '?' {
            let end = digits_end(clause, 1);
            let own = clause.subrange(1, end);
            let tail = clause.skip(end);
            lemma_digits_end(clause, 1);
            lemma_shifted_parts(clause, offset);
            law_shift_keeps_text(tail, offset);
            let digits = raised(own, offset);
            assert(out[0] == '?');
            assert(out.skip(1) =~= digits + shifted(tail, offset));
            lemma_marks_over(digits, shifted(tail, offset));
            assert(clause.skip(1) =~= own + tail);
            assert forall|k: int| 0 <= k < own.len() implies is_digit(#[trigger] own[k]) by {
                assert(own[k] == clause[k + 1]);
            }
            lemma_marks_over(own, tail);
        } else {
            law_shift_keeps_text(clause.skip(1), offset);
            assert(out[0] == clause[0]);
            assert(out.skip(1) =~= shifted(clause.skip(1), offset));
        }
    } else {
        assert(shifted(clause, offset) =~= clause);
    }
}

/// Shifting passes over a text without placeholders.
pub proof fn law_shift_passes_text(text: Seq<char>, rest: Seq<char>, offset: nat)
    requires
        !text.contains('?'),
    ensures
        shifted(text + rest, offset) == text + shifted(rest, offset),
    decreases text.len(),
{
    if text.len() > 0 {
        let all = text + rest;
        assert(text.contains(text[0]));
        assert(all.skip(1) =~= text.skip(1) + rest);
        assert forall|i: int| 0 <= i < text.skip(1).len() implies text.skip(1)[i] != '?' by {
            assert(text.contains(text[i + 1]));
        }
        law_shift_passes_text(text.skip(1), rest, offset);
        assert(shifted(all, offset) =~= text + shifted(rest, offset));
    } else {
        assert(text + rest =~= rest);
        assert(text + shifted(rest, offset) =~= shifted(rest, offset));
    }
}

/// Shifting raises the number of a placeholder, and goes on behind it.
pub proof fn law_shift_raises_numbers(n: nat, rest: Seq<char>, offset: nat)
    requires
        rest.len() > 0 ==> !is_digit(rest[0]),
        n + offset <= usize::MAX,
    ensures
        shifted(seq!['?'] + decimal(n) + rest, offset) == seq!['?'] + decimal(n + offset)
            + shifted(rest, offset),
{
    let all = seq!['?'] + decimal(n) + rest;
    let end = 1 + decimal(n).len() as int;
    lemma_decimal_number(n);
    assert forall|k: int| 1 <= k < end implies is_digit(#[trigger] all[k]) by {
        assert(all[k] == decimal(n)[k - 1]);
    }
    if end < all.len() {
        assert(all[end] == rest[0]);
    }
    lemma_digits_run(all, 1, end);
    assert(all.subrange(1, end) =~= decimal(n));
    assert(all.skip(end) =~= rest);
}

/// Shifting reads all digits behind a question mark as one number, whatever zeros it begins with; a
/// question mark without a number stays as it is, and so does one with a number that is too large.
pub proof fn law_shift_reads_digits(digits: Seq<char>, rest: Seq<char>, offset: nat)
    requires
        forall|k: int| 0 <= k < digits.len() ==> is_digit(#[trigger] digits[k]),
        rest.len() > 0 ==> !is_digit(rest[0]),
    ensures
        shifted(seq!['?'] + digits + rest, offset) == seq!['?'] + (if digits.len() == 0 || number(
            digits,
        ) + offset > usize::MAX {
            digits
        } else {
            decimal(number(digits) + offset)
        }) + shifted(rest, offset),
        number(seq!['0'] + digits) == number(digits),
    decreases digits.len(),
{
    let all = seq!['?'] + digits + rest;
    let end = 1 + digits.len() as int;
    assert forall|k: int| 1 <= k < end implies is_digit(#[trigger] all[k]) by {
        assert(all[k] == digits[k - 1]);
    }
    if end < all.len() {
        assert(all[end] == rest[0]);
    }
    lemma_digits_run(all, 1, end);
    assert(all.subrange(1, end) =~= digits);
    assert(all.skip(end) =~= rest);
    let more = seq!['0'] + digits;
    if digits.len() > 0 {
        law_shift_reads_digits(digits.drop_last(), Seq::empty(), offset);
        assert(more.drop_last() =~= seq!['0'] + digits.drop_last());
        assert(more.last() == digits.last());
    } else {
        assert(more.drop_last() =~= Seq::empty());
        reveal_with_fuel(number, 2);
    }
}

fn digit_value(c: char) -> (value: usize)
    requires
        is_digit(c),
    ensures
        value == (c as nat - 48) as nat,
        value < 10,
{
    (c as u32 - 48) as usize
}

fn is_ascii_digit(c: char) -> (yes: bool)
    ensures
        yes == is_digit(c),
{
    '0' <= c && c <= '9'
}

/// Raises the number of each `?N` in `clause` by `offset`, as `?1` to `?2`.
pub fn shift_placeholders(clause: &str, offset: usize) -> (text: String)
    ensures
        text@ == shifted(clause@, offset as nat),
{
    let chars = chars_of(clause);
    let mut text = String::new();
    let mut i: usize = 0;
    assert(chars@.skip(0) =~= chars@);
    while i < chars.len()
        invariant
            i <= chars@.len(),
            text@ + shifted(chars@.skip(i as int), offset as nat) =~= shifted(
                chars@,
                offset as nat,
            ),
        decreases chars@.len() - i,
    {
        let ghost before = text@;
        let ghost rest = chars@.skip(i as int);
        if chars[i] == '?' {
            let mut end: usize = i + 1;
            let mut fits = true;
            let mut n: usize = 0;
            proof {
                lemma_digits_end(rest, 1);
                assert(rest.subrange(1, 1) =~= Seq::<char>::empty());
            }
            while end < chars.len() && is_ascii_digit(chars[end])
                invariant
                    i < end <= chars@.len(),
                    rest == chars@.skip(i as int),
                    digits_end(rest, 1) == digits_end(rest, end - i),
                    fits ==> n == number(rest.subrange(1, end - i)),
                    !fits ==> number(rest.subrange(1, end - i)) > usize::MAX,
                decreases chars@.len() - end,
            {
                proof {
                    assert(rest.subrange(1, end + 1 - i).drop_last() =~= rest.subrange(
                        1,
                        end - i,
                    ));
                    assert(rest[end - i] == chars@[end as int]);
                }
                let d: usize = digit_value(chars[end]);
                if fits && n <= (usize::MAX - d) / 10 {
                    n = n * 10 + d;
                } else {
                    fits = false;
                }
                end += 1;
            }
            let digits = text_of(&chars, i + 1, end);
            proof {
                assert(digits@ =~= rest.subrange(1, end - i));
                assert(digits_end(rest, 1) == end - i);
                assert(rest.skip(end - i) =~= chars@.skip(end as int));
            }
            text.push('?');
            if end > i + 1 && fits && n <= usize::MAX - offset {
                text.append(decimal_text((n + offset) as u64).as_str());
            } else {
                text.append(digits.as_str());
            }
            assert(text@ =~= before + (seq!['?'] + raised(digits@, offset as nat)));
            i = end;
        } else {
            text.push(chars[i]);
            assert(rest.skip(1) =~= chars@.skip(i + 1));
            assert(text@ =~= before + seq![rest[0]]);
            i += 1;
        }
    }
    assert(chars@.skip(i as int) =~= Seq::<char>::empty());
    text
}

/// Placeholders from `?1` to `?n`, with commas between them.
pub open spec fn placeholders(n: nat) -> Seq<char> {
    joined(Seq::new(n, |i: int| "?"@ + decimal((i + 1) as nat)), ", "@)
}

impl StatementView {
    /// Whether the statement is a query.
    pub open spec fn is_query(self) -> bool {
        match self {
            StatementView::SelectVersion => true,
            StatementView::SelectSite => true,
            StatementView::SelectState { .. } => true,
            StatementView::SelectColVer { .. } => true,
            StatementView::SelectClock { .. } => true,
            StatementView::SelectChanges { .. } => true,
            StatementView::SelectSentinels { .. } => true,
            StatementView::SelectPks { .. } => true,
            StatementView::ClockExists { .. } => true,
            StatementView::ReadCell { .. } => true,
            StatementView::ProbeRow { .. } => true,
            StatementView::SelectKeys { .. } => true,
            _ => false,
        }
    }

    /// The SQL text of the statement.
    pub open spec fn sql(self) -> Seq<char> {
        match self {
            StatementView::CreateSiteTable =>
                "CREATE TABLE IF NOT EXISTS crr_site_id (site_id BLOB PRIMARY KEY)"@,
            StatementView::CreateVersionTable =>
                "CREATE TABLE IF NOT EXISTS crr_db_version (version INTEGER NOT NULL)"@,
            StatementView::CreateStateTable =>
                "CREATE TABLE IF NOT EXISTS crr_sync_state (key TEXT PRIMARY KEY, value BLOB)"@,
            StatementView::CreateClockTable { table } => "CREATE TABLE IF NOT EXISTS "@
                + clock_name(table)
                + " (pk TEXT NOT NULL, col_name TEXT NOT NULL, col_ver INTEGER NOT NULL, db_ver INTEGER NOT NULL, site_id BLOB NOT NULL, seq INTEGER NOT NULL, PRIMARY KEY (pk, col_name))"@,
            StatementView::SelectVersion => "SELECT version FROM crr_db_version LIMIT 1"@,
            StatementView::InsertVersion => "INSERT INTO crr_db_version (version) VALUES (0)"@,
            StatementView::BumpVersion => "UPDATE crr_db_version SET version = version + 1"@,
            StatementView::SelectSite => "SELECT site_id FROM crr_site_id LIMIT 1"@,
            StatementView::InsertSite { or_ignore } => if or_ignore {
                "INSERT OR IGNORE INTO crr_site_id (site_id) VALUES (randomblob(16))"@
            } else {
                "INSERT INTO crr_site_id (site_id) VALUES (randomblob(16))"@
            },
            StatementView::SelectState { key } => "SELECT value FROM crr_sync_state WHERE key = ?1"@,
            StatementView::PutState { key, value } =>
                "INSERT OR REPLACE INTO crr_sync_state (key, value) VALUES (?1, ?2)"@,
            StatementView::SelectColVer { table, pk, column } => "SELECT col_ver FROM "@
                + clock_name(table) + " WHERE pk = ?1 AND col_name = ?2"@,
            StatementView::SelectClock { table, pk, column } => "SELECT col_ver, site_id FROM "@
                + clock_name(table) + " WHERE pk = ?1 AND col_name = ?2"@,
            StatementView::PutClock { table, stamp } => "INSERT OR REPLACE INTO "@ + clock_name(
                table,
            ) + " (pk, col_name, col_ver, db_ver, site_id, seq) VALUES (?1, ?2, ?3, ?4, ?5, ?6)"@,
            StatementView::SeedClock { table, stamp } => "INSERT OR IGNORE INTO "@ + clock_name(
                table,
            ) + " (pk, col_name, col_ver, db_ver, site_id, seq) VALUES (?1, ?2, ?3, ?4, ?5, ?6)"@,
            StatementView::ZeroColumns { table, pk } => "UPDATE "@ + clock_name(table)
                + " SET col_ver = 0 WHERE pk = ?1 AND col_name != ?2"@,
            StatementView::SelectChanges { table, since } =>
                "SELECT pk, col_name, col_ver, db_ver, site_id, seq FROM "@ + clock_name(table)
                + " WHERE db_ver > ?1 ORDER BY db_ver, seq"@,
            StatementView::SelectSentinels { table } => "SELECT pk, col_ver FROM "@ + clock_name(
                table,
            ) + " WHERE col_name = ?1"@,
            StatementView::SelectPks { table } => "SELECT DISTINCT pk FROM "@ + clock_name(table),
            StatementView::DropColumn { table, column } => "DELETE FROM "@ + clock_name(table)
                + " WHERE col_name = ?1"@,
            StatementView::RenameClock { old_table, new_table } => "ALTER TABLE "@ + clock_name(
                old_table,
            ) + " RENAME TO "@ + clock_name(new_table),
            StatementView::ClockExists { table } =>
                "SELECT 1 FROM sqlite_master WHERE type = 'table' AND name = ?1"@,
            StatementView::RewritePk { table, old_pk, new_pk } => "UPDATE "@ + clock_name(table)
                + " SET pk = ?1 WHERE pk = ?2"@,
            StatementView::DropPk { table, pk } => "DELETE FROM "@ + clock_name(table)
                + " WHERE pk = ?1"@,
            StatementView::ReadCell { table, column, key } => "SELECT "@ + column + " FROM "@
                + table + " WHERE "@ + where_text(key),
            StatementView::ProbeRow { table, key } => "SELECT 1 FROM "@ + table + " WHERE "@
                + where_text(key),
            StatementView::InsertRow { table, key, defaults } => "INSERT OR IGNORE INTO "@ + table
                + " ("@ + joined(inserted_columns(key, defaults), ", "@) + ") VALUES ("@
                + placeholders(key.len() + defaults.len()) + ")"@,
            StatementView::WriteCell { table, column, value, key } => "UPDATE "@ + table + " SET "@
                + column + " = ?1 WHERE "@ + shifted(where_text(key), 1),
            StatementView::DeleteRow { table, key } => "DELETE FROM "@ + table + " WHERE "@
                + where_text(key),
            StatementView::SelectKeys { table, columns } => "SELECT "@ + joined(columns, ", "@)
                + " FROM "@ + table,
        }
    }

    /// The values of the statement's placeholders, from `?1` on.
    pub open spec fn params(self) -> Seq<SqlValue> {
        match self {
            StatementView::SelectState { key } => seq![SqlValue::Text(key)],
            StatementView::PutState { key, value } => seq![
                SqlValue::Text(key),
                SqlValue::Blob(value),
            ],
            StatementView::SelectColVer { table, pk, column } => seq![
                SqlValue::Text(pk),
                SqlValue::Text(column),
            ],
            StatementView::SelectClock { table, pk, column } => seq![
                SqlValue::Text(pk),
                SqlValue::Text(column),
            ],
            StatementView::PutClock { table, stamp } => stamp.params(),
            StatementView::SeedClock { table, stamp } => stamp.params(),
            StatementView::ZeroColumns { table, pk } => seq![
                SqlValue::Text(pk),
                SqlValue::Text(SENTINEL@),
            ],
            StatementView::SelectChanges { table, since } => seq![SqlValue::Integer(since)],
            StatementView::SelectSentinels { table } => seq![SqlValue::Text(SENTINEL@)],
            StatementView::DropColumn { table, column } => seq![SqlValue::Text(column)],
            StatementView::ClockExists { table } => seq![SqlValue::Text(clock_name(table))],
            StatementView::RewritePk { table, old_pk, new_pk } => seq![
                SqlValue::Text(new_pk),
                SqlValue::Text(old_pk),
            ],
            StatementView::DropPk { table, pk } => seq![SqlValue::Text(pk)],
            StatementView::ReadCell { table, column, key } => key_values(key),
            StatementView::ProbeRow { table, key } => key_values(key),
            StatementView::InsertRow { table, key, defaults } => key_values(key) + Seq::new(
                defaults.len(),
                |i: int| defaults[i].1,
            ),
            StatementView::WriteCell { table, column, value, key } => seq![value] + key_values(key),
            StatementView::DeleteRow { table, key } => key_values(key),
            _ => Seq::empty(),
        }
    }
}

impl StampView {
    /// The values of a clock entry, in the order of the clock table's columns.
    pub open spec fn params(self) -> Seq<SqlValue> {
        seq![
            SqlValue::Text(self.pk),
            SqlValue::Text(self.column),
            SqlValue::Integer(self.col_ver),
            SqlValue::Integer(self.db_ver),
            SqlValue::Blob(self.site_id),
            SqlValue::Integer(self.seq),
        ]
    }
}

/// The columns of a row that is inserted.
pub open spec fn inserted_columns(key: Key, defaults: Seq<(Seq<char>, SqlValue)>) -> Seq<
    Seq<char>,
> {
    Seq::new(key.len(), |i: int| key[i].0) + Seq::new(defaults.len(), |i: int| defaults[i].0)
}

/// Writes the condition on the key columns of a row.
fn where_clause(key: &Vec<KeyPart>) -> (clause: String)
    ensures
        clause@ == where_text(key_view(key@)),
{
    let ghost view = key_view(key@);
    let mut parts: Vec<String> = Vec::new();
    for i in 0..key.len()
        invariant
            view == key_view(key@),
            parts@.len() == i,
            forall|k: int|
                0 <= k < i ==> #[trigger] parts@[k]@ == view[k].0 + " = ?"@ + decimal(
                    (k + 1) as nat,
                ),
    {
        let mut part = key[i].column.clone();
        part.append(" = ?");
        part.append(decimal_text(i as u64 + 1).as_str());
        parts.push(part);
    }
    assert(texts_view(parts@) =~= Seq::new(
        view.len(),
        |i: int| view[i].0 + " = ?"@ + decimal((i + 1) as nat),
    ));
    join(&parts, " AND ")
}

/// The values of a row in its key columns, behind those of `values`.
fn push_key_values(values: &mut Vec<Value>, key: &Vec<KeyPart>)
    ensures
        values_view(final(values)@) == values_view(old(values)@) + key_values(key_view(key@)),
{
    let ghost first = values@.len();
    for i in 0..key.len()
        invariant
            first == old(values)@.len(),
            values@.len() == first + i,
            forall|k: int| 0 <= k < first ==> #[trigger] values@[k] == old(values)@[k],
            forall|k: int|
                0 <= k < i ==> #[trigger] values@[first + k]@ == SqlValue::Text(key@[k].value@),
    {
        values.push(Value::Text(key[i].value.clone()));
        assert(values@[first + i]@ == SqlValue::Text(key@[i as int].value@));
    }
    assert(values_view(values@) =~= values_view(old(values)@) + key_values(key_view(key@))) by {
        let want = values_view(old(values)@) + key_values(key_view(key@));
        assert forall|k: int| 0 <= k < want.len() implies values_view(values@)[k] == want[k] by {
            if k >= first {
                assert(values@[first + (k - first)]@ == SqlValue::Text(
                    key@[k - first].value@,
                ));
            }
        }
    }
}

impl Stamp {
    /// The values of this clock entry, in the order of the clock table's columns.
    fn params(&self) -> (values: Vec<Value>)
        ensures
            values_view(values@) == self@.params(),
    {
        let mut values: Vec<Value> = Vec::new();
        values.push(Value::Text(self.pk.clone()));
        values.push(Value::Text(self.column.clone()));
        values.push(Value::Integer(self.col_ver));
        values.push(Value::Integer(self.db_ver));
        values.push(Value::Blob(copy_bytes(&self.site_id)));
        values.push(Value::Integer(self.seq));
        assert(values_view(values@) =~= self@.params());
        values
    }
}

fn one_text(text: &str) -> (values: Vec<Value>)
    ensures
        values_view(values@) == seq![SqlValue::Text(text@)],
{
    let mut values: Vec<Value> = Vec::new();
    values.push(Value::Text(text.to_owned()));
    assert(values_view(values@) =~= seq![SqlValue::Text(text@)]);
    values
}

fn two_texts(a: &str, b: &str) -> (values: Vec<Value>)
    ensures
        values_view(values@) == seq![SqlValue::Text(a@), SqlValue::Text(b@)],
{
    let mut values: Vec<Value> = Vec::new();
    values.push(Value::Text(a.to_owned()));
    values.push(Value::Text(b.to_owned()));
    assert(values_view(values@) =~= seq![SqlValue::Text(a@), SqlValue::Text(b@)]);
    values
}

/// `head`, the name of the clock table of `table`, and `tail`.
fn about_clock(head: &str, table: &str, tail: &str) -> (text: String)
    ensures
        text@ == head@ + clock_name(table@) + tail@,
{
    let mut text = head.to_owned();
    text.append(clock_table(table).as_str());
    text.append(tail);
    text
}

/// Writes the statement that inserts a row.
fn insert_sql(table: &str, key: &Vec<KeyPart>, defaults: &Vec<Cell>) -> (sql: String)
    ensures
        sql@ == (StatementView::InsertRow {
            table: table@,
            key: key_view(key@),
            defaults: cells_view(defaults@),
        }).sql(),
{
    let ghost kv = key_view(key@);
    let ghost dv = cells_view(defaults@);
    let mut columns: Vec<String> = Vec::new();
    let mut marks: Vec<String> = Vec::new();
    for i in 0..key.len()
        invariant
            kv == key_view(key@),
            columns@.len() == i,
            marks@.len() == i,
            forall|k: int| 0 <= k < i ==> #[trigger] columns@[k]@ == kv[k].0,
            forall|k: int| 0 <= k < i ==> #[trigger] marks@[k]@ == "?"@ + decimal((k + 1) as nat),
    {
        columns.push(key[i].column.clone());
        marks.push("?".to_owned().concat(decimal_text(i as u64 + 1).as_str()));
    }
    for i in 0..defaults.len()
        invariant
            kv == key_view(key@),
            dv == cells_view(defaults@),
            columns@.len() == key@.len() + i,
            marks@.len() == key@.len() + i,
            forall|k: int| 0 <= k < key@.len() ==> #[trigger] columns@[k]@ == kv[k].0,
            forall|k: int|
                key@.len() <= k < key@.len() + i ==> #[trigger] columns@[k]@ == dv[k
                    - key@.len()].0,
            forall|k: int|
                0 <= k < key@.len() + i ==> #[trigger] marks@[k]@ == "?"@ + decimal((k + 1) as nat),
    {
        columns.push(defaults[i].column.clone());
        marks.push("?".to_owned().concat(decimal_text(columns.len() as u64).as_str()));
    }
    assert(texts_view(columns@) =~= inserted_columns(kv, dv));
    assert(texts_view(marks@) =~= Seq::new(
        kv.len() + dv.len(),
        |i: int| "?"@ + decimal((i + 1) as nat),
    ));
    let mut sql = "INSERT OR IGNORE INTO ".to_owned();
    sql.append(table);
    sql.append(" (");
    sql.append(join(&columns, ", ").as_str());
    sql.append(") VALUES (");
    sql.append(join(&marks, ", ").as_str());
    sql.append(")");
    sql
}

impl Statement {
    /// Whether this statement is a query.
    pub fn is_query(&self) -> (query: bool)
        ensures
            query == self@.is_query(),
    {
        match self {
            Statement::SelectVersion => true,
            Statement::SelectSite => true,
            Statement::SelectState { .. } => true,
            Statement::SelectColVer { .. } => true,
            Statement::SelectClock { .. } => true,
            Statement::SelectChanges { .. } => true,
            Statement::SelectSentinels { .. } => true,
            Statement::SelectPks { .. } => true,
            Statement::ClockExists { .. } => true,
            Statement::ReadCell { .. } => true,
            Statement::ProbeRow { .. } => true,
            Statement::SelectKeys { .. } => true,
            _ => false,
        }
    }

    /// The SQL text of this statement.
    pub fn sql(&self) -> (sql: String)
        ensures
            sql@ == self@.sql(),
    {
        match self {
            Statement::CreateSiteTable =>
                "CREATE TABLE IF NOT EXISTS crr_site_id (site_id BLOB PRIMARY KEY)".to_owned(),
            Statement::CreateVersionTable =>
                "CREATE TABLE IF NOT EXISTS crr_db_version (version INTEGER NOT NULL)".to_owned(),
            Statement::CreateStateTable =>
                "CREATE TABLE IF NOT EXISTS crr_sync_state (key TEXT PRIMARY KEY, value BLOB)".to_owned(),
            Statement::CreateClockTable { table } => about_clock(
                "CREATE TABLE IF NOT EXISTS ",
                table.as_str(),
                " (pk TEXT NOT NULL, col_name TEXT NOT NULL, col_ver INTEGER NOT NULL, db_ver INTEGER NOT NULL, site_id BLOB NOT NULL, seq INTEGER NOT NULL, PRIMARY KEY (pk, col_name))",
            ),
            Statement::SelectVersion => "SELECT version FROM crr_db_version LIMIT 1".to_owned(),
            Statement::InsertVersion =>
                "INSERT INTO crr_db_version (version) VALUES (0)".to_owned(),
            Statement::BumpVersion => "UPDATE crr_db_version SET version = version + 1".to_owned(),
            Statement::SelectSite => "SELECT site_id FROM crr_site_id LIMIT 1".to_owned(),
            Statement::InsertSite { or_ignore } => if *or_ignore {
                "INSERT OR IGNORE INTO crr_site_id (site_id) VALUES (randomblob(16))".to_owned()
            } else {
                "INSERT INTO crr_site_id (site_id) VALUES (randomblob(16))".to_owned()
            },
            Statement::SelectState { .. } =>
                "SELECT value FROM crr_sync_state WHERE key = ?1".to_owned(),
            Statement::PutState { .. } =>
                "INSERT OR REPLACE INTO crr_sync_state (key, value) VALUES (?1, ?2)".to_owned(),
            Statement::SelectColVer { table, .. } => about_clock(
                "SELECT col_ver FROM ",
                table.as_str(),
                " WHERE pk = ?1 AND col_name = ?2",
            ),
            Statement::SelectClock { table, .. } => about_clock(
                "SELECT col_ver, site_id FROM ",
                table.as_str(),
                " WHERE pk = ?1 AND col_name = ?2",
            ),
            Statement::PutClock { table, .. } => about_clock(
                "INSERT OR REPLACE INTO ",
                table.as_str(),
                " (pk, col_name, col_ver, db_ver, site_id, seq) VALUES (?1, ?2, ?3, ?4, ?5, ?6)",
            ),
            Statement::SeedClock { table, .. } => about_clock(
                "INSERT OR IGNORE INTO ",
                table.as_str(),
                " (pk, col_name, col_ver, db_ver, site_id, seq) VALUES (?1, ?2, ?3, ?4, ?5, ?6)",
            ),
            Statement::ZeroColumns { table, .. } => about_clock(
                "UPDATE ",
                table.as_str(),
                " SET col_ver = 0 WHERE pk = ?1 AND col_name != ?2",
            ),
            Statement::SelectChanges { table, .. } => about_clock(
                "SELECT pk, col_name, col_ver, db_ver, site_id, seq FROM ",
                table.as_str(),
                " WHERE db_ver > ?1 ORDER BY db_ver, seq",
            ),
            Statement::SelectSentinels { table } => about_clock(
                "SELECT pk, col_ver FROM ",
                table.as_str(),
                " WHERE col_name = ?1",
            ),
            Statement::SelectPks { table } => "SELECT DISTINCT pk FROM ".to_owned().concat(
                clock_table(table.as_str()).as_str(),
            ),
            Statement::DropColumn { table, .. } => about_clock(
                "DELETE FROM ",
                table.as_str(),
                " WHERE col_name = ?1",
            ),
            Statement::RenameClock { old_table, new_table } => about_clock(
                "ALTER TABLE ",
                old_table.as_str(),
                " RENAME TO ",
            ).concat(clock_table(new_table.as_str()).as_str()),
            Statement::ClockExists { .. } =>
                "SELECT 1 FROM sqlite_master WHERE type = 'table' AND name = ?1".to_owned(),
            Statement::RewritePk { table, .. } => about_clock(
                "UPDATE ",
                table.as_str(),
                " SET pk = ?1 WHERE pk = ?2",
            ),
            Statement::DropPk { table, .. } => about_clock(
                "DELETE FROM ",
                table.as_str(),
                " WHERE pk = ?1",
            ),
            Statement::ReadCell { table, column, key } => {
                let mut sql = "SELECT ".to_owned();
                sql.append(column.as_str());
                sql.append(" FROM ");
                sql.append(table.as_str());
                sql.append(" WHERE ");
                sql.append(where_clause(key).as_str());
                sql
            },
            Statement::ProbeRow { table, key } => {
                let mut sql = "SELECT 1 FROM ".to_owned();
                sql.append(table.as_str());
                sql.append(" WHERE ");
                sql.append(where_clause(key).as_str());
                sql
            },
            Statement::InsertRow { table, key, defaults } => insert_sql(
                table.as_str(),
                key,
                defaults,
            ),
            Statement::WriteCell { table, column, value, key } => {
                let mut sql = "UPDATE ".to_owned();
                sql.append(table.as_str());
                sql.append(" SET ");
                sql.append(column.as_str());
                sql.append(" = ?1 WHERE ");
                sql.append(shift_placeholders(where_clause(key).as_str(), 1).as_str());
                sql
            },
            Statement::DeleteRow { table, key } => {
                let mut sql = "DELETE FROM ".to_owned();
                sql.append(table.as_str());
                sql.append(" WHERE ");
                sql.append(where_clause(key).as_str());
                sql
            },
            Statement::SelectKeys { table, columns } => {
                let mut sql = "SELECT ".to_owned();
                sql.append(join(columns, ", ").as_str());
                sql.append(" FROM ");
                sql.append(table.as_str());
                sql
            },
        }
    }

    /// The values of this statement's placeholders, from `?1` on.
    pub fn params(&self) -> (params: Vec<Value>)
        ensures
            values_view(params@) == self@.params(),
    {
        let mut params: Vec<Value> = Vec::new();
        assert(values_view(params@) =~= Seq::empty());
        match self {
            Statement::SelectState { key } => one_text(key.as_str()),
            Statement::PutState { key, value } => {
                params.push(Value::Text(key.clone()));
                params.push(Value::Blob(copy_bytes(value)));
                assert(values_view(params@) =~= self@.params());
                params
            },
            Statement::SelectColVer { table, pk, column } => two_texts(
                pk.as_str(),
                column.as_str(),
            ),
            Statement::SelectClock { table, pk, column } => two_texts(
                pk.as_str(),
                column.as_str(),
            ),
            Statement::PutClock { table, stamp } => stamp.params(),
            Statement::SeedClock { table, stamp } => stamp.params(),
            Statement::ZeroColumns { table, pk } => two_texts(pk.as_str(), SENTINEL),
            Statement::SelectChanges { table, since } => {
                params.push(Value::Integer(*since));
                assert(values_view(params@) =~= self@.params());
                params
            },
            Statement::SelectSentinels { table } => one_text(SENTINEL),
            Statement::DropColumn { table, column } => one_text(column.as_str()),
            Statement::ClockExists { table } => one_text(clock_table(table.as_str()).as_str()),
            Statement::RewritePk { table, old_pk, new_pk } => two_texts(
                new_pk.as_str(),
                old_pk.as_str(),
            ),
            Statement::DropPk { table, pk } => one_text(pk.as_str()),
            Statement::ReadCell { table, column, key } => {
                push_key_values(&mut params, key);
                assert(values_view(params@) =~= self@.params());
                params
            },
            Statement::ProbeRow { table, key } => {
                push_key_values(&mut params, key);
                assert(values_view(params@) =~= self@.params());
                params
            },
            Statement::InsertRow { table, key, defaults } => {
                push_key_values(&mut params, key);
                let ghost kv = key_values(key_view(key@));
                let ghost dv = cells_view(defaults@);
                assert(values_view(params@) =~= kv);
                assert(params@.len() == values_view(params@).len());
                assert forall|k: int| 0 <= k < kv.len() implies #[trigger] params@[k]@
                    == kv[k] by {
                    assert(values_view(params@)[k] == kv[k]);
                }
                for i in 0..defaults.len()
                    invariant
                        dv == cells_view(defaults@),
                        params@.len() == kv.len() + i,
                        forall|k: int| 0 <= k < kv.len() ==> #[trigger] params@[k]@ == kv[k],
                        forall|k: int|
                            kv.len() <= k < kv.len() + i ==> #[trigger] params@[k]@ == dv[k
                                - kv.len()].1,
                {
                    params.push(defaults[i].value.copy());
                }
                assert(values_view(params@) =~= self@.params());
                params
            },
            Statement::WriteCell { table, column, value, key } => {
                params.push(value.copy());
                assert(values_view(params@) =~= seq![value@]);
                push_key_values(&mut params, key);
                params
            },
            Statement::DeleteRow { table, key } => {
                push_key_values(&mut params, key);
                assert(values_view(params@) =~= self@.params());
                params
            },
            _ => params,
        }
    }
}

} // verus!
