//! The application-supplied description of which tables and columns to sync.
//!
//! This holds the set of synced tables and their columns, each table's primary-key shape, and
//! the NOT NULL defaults used to materialize a "skeleton" row when a change arrives for a row
//! that doesn't exist locally yet.
use vstd::prelude::*;
use vstd::utf8::encode_utf8;

use crate::text::Ranking;
use crate::text::compare_texts;
use crate::text::same_text;
use crate::text::text_before;
use crate::value::SqlValue;
use crate::value::Value;
use crate::value::texts_view;

verus! {

/// The synthetic column name that tracks row existence (causal length).
pub const SENTINEL: &'static str = "__sentinel";

/// How a table's primary key is represented in a change's `pk` field.
#[derive(Debug)]
pub enum PkSpec {
    /// A single primary-key column, e.g. `id`. The `pk` string is its value.
    Single {
        /// The primary-key column name.
        column: String,
    },
    /// A composite key of two columns encoded as `"a{sep}b"` in the `pk` string.
    Composite {
        /// The two key column names, in order.
        columns: (String, String),
        /// The separator joining the two values in the `pk` string.
        sep: char,
    },
}

/// What a [`PkSpec`] holds.
pub enum PkView {
    Single { column: Seq<char> },
    Composite { columns: (Seq<char>, Seq<char>), sep: char },
}

impl View for PkSpec {
    type V = PkView;

    open spec fn view(&self) -> PkView {
        match *self {
            PkSpec::Single { column } => PkView::Single { column: column@ },
            PkSpec::Composite { columns, sep } => PkView::Composite {
                columns: (columns.0@, columns.1@),
                sep,
            },
        }
    }
}

impl PkSpec {
    /// A single-column key named `column`.
    pub fn single(column: &str) -> (pk: Self)
        ensures
            pk@ == (PkView::Single { column: column@ }),
    {
        PkSpec::Single { column: column.to_owned() }
    }

    /// A composite key of `a` + `b` joined by `sep`.
    pub fn composite(a: &str, b: &str, sep: char) -> (pk: Self)
        ensures
            pk@ == (PkView::Composite { columns: (a@, b@), sep }),
    {
        PkSpec::Composite { columns: (a.to_owned(), b.to_owned()), sep }
    }
}

impl Clone for PkSpec {
    fn clone(&self) -> (copy: Self)
        ensures
            copy@ == self@,
    {
        match self {
            PkSpec::Single { column } => PkSpec::Single { column: column.clone() },
            PkSpec::Composite { columns, sep } => PkSpec::Composite {
                columns: (columns.0.clone(), columns.1.clone()),
                sep: *sep,
            },
        }
    }
}

/// A default value for a NOT NULL column in a skeleton row.
///
/// A skeleton row is a placeholder inserted when a change references a row that doesn't exist
/// locally; column-level changes then fill in the real values. Only NOT NULL columns without a
/// database default need to appear here.
#[derive(Debug)]
pub enum SkeletonValue {
    /// A literal value.
    Literal(Value),
    /// The current time as an RFC 3339 string, filled in at insert time.
    NowRfc3339,
}

/// What a [`SkeletonValue`] holds.
pub enum SkeletonView {
    Literal(SqlValue),
    NowRfc3339,
}

impl View for SkeletonValue {
    type V = SkeletonView;

    open spec fn view(&self) -> SkeletonView {
        match *self {
            SkeletonValue::Literal(value) => SkeletonView::Literal(value@),
            SkeletonValue::NowRfc3339 => SkeletonView::NowRfc3339,
        }
    }
}

impl SkeletonView {
    /// The value that the default stands for at the time `now`.
    pub open spec fn at(self, now: Seq<char>) -> SqlValue {
        match self {
            SkeletonView::Literal(value) => value,
            SkeletonView::NowRfc3339 => SqlValue::Text(now),
        }
    }
}

/// `chrono::Utc::now` and `DateTime::to_rfc3339`: the current time in RFC 3339, with the zone
/// written as an offset of zero. Nothing else is known of it.
#[verifier::external_body]
fn now_rfc3339() -> (now: String)
    ensures
        "+00:00"@.is_suffix_of(now@),
{
    chrono::Utc::now().to_rfc3339()
}

/// The current time, as the clock gives it.
pub(crate) fn current_time() -> (now: String)
    ensures
        SkeletonValue::comes_of_clock(now),
        "+00:00"@.is_suffix_of(now@),
{
    now_rfc3339()
}

impl SkeletonValue {
    /// Whether `now` is a text that asking the clock for the current time can give.
    pub closed spec fn comes_of_clock(now: String) -> bool {
        call_ensures(now_rfc3339, (), now)
    }

    /// Resolves to a concrete [`Value`] at the time `now`.
    pub fn resolve_at(&self, now: &str) -> (value: Value)
        ensures
            value@ == self@.at(now@),
    {
        match self {
            SkeletonValue::Literal(value) => value.copy(),
            SkeletonValue::NowRfc3339 => Value::Text(now.to_owned()),
        }
    }

    /// Resolves to a concrete [`Value`] at insert time.
    pub fn resolve(&self) -> (value: Value)
        ensures
            exists|now: String| #[trigger]
                Self::comes_of_clock(now) && "+00:00"@.is_suffix_of(now@) && value@ == self@.at(
                    now@,
                ),
    {
        let now = current_time();
        self.resolve_at(now.as_str())
    }
}

impl Clone for SkeletonValue {
    fn clone(&self) -> (copy: Self)
        ensures
            copy@ == self@,
    {
        match self {
            SkeletonValue::Literal(value) => SkeletonValue::Literal(value.copy()),
            SkeletonValue::NowRfc3339 => SkeletonValue::NowRfc3339,
        }
    }
}

/// The description of one synced table.
#[derive(Debug)]
pub struct TableSpec {
    /// The table name.
    pub name: String,
    /// The columns to track for sync. Excludes the primary key(s) and any derived columns you
    /// don't want to replicate.
    pub columns: Vec<String>,
    /// How the primary key is shaped.
    pub pk: PkSpec,
    /// NOT NULL columns and their skeleton-row defaults, in `(column, default)` pairs. Must cover
    /// every NOT NULL column lacking a database default, so an `INSERT` of a skeleton row
    /// succeeds. The key columns are supplied automatically and need not be listed here.
    pub skeleton: Vec<(String, SkeletonValue)>,
}

/// What a [`TableSpec`] holds.
pub struct TableView {
    pub name: Seq<char>,
    pub columns: Seq<Seq<char>>,
    pub pk: PkView,
    pub skeleton: Seq<(Seq<char>, SkeletonView)>,
}

/// What a list of skeleton defaults holds.
pub open spec fn skeleton_view(skeleton: Seq<(String, SkeletonValue)>) -> Seq<
    (Seq<char>, SkeletonView),
> {
    skeleton.map_values(|entry: (String, SkeletonValue)| (entry.0@, entry.1@))
}

impl View for TableSpec {
    type V = TableView;

    open spec fn view(&self) -> TableView {
        TableView {
            name: self.name@,
            columns: texts_view(self.columns@),
            pk: self.pk@,
            skeleton: skeleton_view(self.skeleton@),
        }
    }
}

impl TableSpec {
    /// A table with a single `id` primary key and the given tracked columns.
    pub fn new(name: &str, columns: &[&str]) -> (table: Self)
        ensures
            table@ == (TableView {
                name: name@,
                columns: columns@.map_values(|column: &str| column@),
                pk: PkView::Single { column: "id"@ },
                skeleton: Seq::empty(),
            }),
    {
        let mut owned: Vec<String> = Vec::new();
        for i in 0..columns.len()
            invariant
                owned@.len() == i,
                forall|k: int| 0 <= k < i ==> #[trigger] owned@[k]@ == columns@[k]@,
        {
            owned.push(columns[i].to_owned());
        }
        let table = TableSpec {
            name: name.to_owned(),
            columns: owned,
            pk: PkSpec::single("id"),
            skeleton: Vec::new(),
        };
        assert(table@.columns =~= columns@.map_values(|column: &str| column@));
        assert(table@.skeleton =~= Seq::empty());
        table
    }

    /// Overrides the primary-key shape.
    pub fn with_pk(self, pk: PkSpec) -> (table: Self)
        ensures
            table@ == (TableView { pk: pk@, ..self@ }),
    {
        TableSpec { name: self.name, columns: self.columns, pk, skeleton: self.skeleton }
    }

    /// Sets the skeleton-row NOT NULL defaults.
    pub fn with_skeleton(self, skeleton: Vec<(&str, SkeletonValue)>) -> (table: Self)
        ensures
            table@ == (TableView {
                skeleton: skeleton@.map_values(
                    |entry: (&str, SkeletonValue)| (entry.0@, entry.1@),
                ),
                ..self@
            }),
    {
        let mut owned: Vec<(String, SkeletonValue)> = Vec::new();
        for entry in it: skeleton
            invariant
                it.seq() == skeleton@,
                owned@.len() == it.index(),
                forall|k: int|
                    #![trigger owned@[k]]
                    0 <= k < it.index() ==> owned@[k].0@ == skeleton@[k].0@ && owned@[k].1@
                        == skeleton@[k].1@,
        {
            owned.push((entry.0.to_owned(), entry.1));
        }
        assert(skeleton_view(owned@) =~= skeleton@.map_values(
            |entry: (&str, SkeletonValue)| (entry.0@, entry.1@),
        ));
        TableSpec { name: self.name, columns: self.columns, pk: self.pk, skeleton: owned }
    }
}

/// A copy of `texts`.
pub fn copy_texts(texts: &Vec<String>) -> (copy: Vec<String>)
    ensures
        texts_view(copy@) == texts_view(texts@),
{
    let mut copy: Vec<String> = Vec::new();
    for i in 0..texts.len()
        invariant
            copy@.len() == i,
            forall|k: int| 0 <= k < i ==> #[trigger] copy@[k]@ == texts@[k]@,
    {
        copy.push(texts[i].clone());
    }
    assert(texts_view(copy@) =~= texts_view(texts@));
    copy
}

impl Clone for TableSpec {
    fn clone(&self) -> (copy: Self)
        ensures
            copy@ == self@,
    {
        let mut skeleton: Vec<(String, SkeletonValue)> = Vec::new();
        for i in 0..self.skeleton.len()
            invariant
                skeleton@.len() == i,
                forall|k: int|
                    #![trigger skeleton@[k]]
                    0 <= k < i ==> skeleton@[k].0@ == self.skeleton@[k].0@ && skeleton@[k].1@
                        == self.skeleton@[k].1@,
        {
            skeleton.push((self.skeleton[i].0.clone(), self.skeleton[i].1.clone()));
        }
        assert(skeleton_view(skeleton@) =~= skeleton_view(self.skeleton@));
        TableSpec {
            name: self.name.clone(),
            columns: copy_texts(&self.columns),
            pk: self.pk.clone(),
            skeleton,
        }
    }
}

/// A type that describes one tracked table.
pub trait CrdtTable {
    /// The table's name.
    const TABLE: &'static str;

    /// The description of the table's columns, key, and skeleton defaults.
    fn table_spec() -> TableSpec;
}

/// The set of tables tracked and synced.
#[derive(Debug)]
pub struct Schema {
    pub tables: Vec<TableSpec>,
}

/// What a list of table descriptions holds.
pub open spec fn tables_view(tables: Seq<TableSpec>) -> Seq<TableView> {
    tables.map_values(|table: TableSpec| table@)
}

impl View for Schema {
    type V = Seq<TableView>;

    open spec fn view(&self) -> Seq<TableView> {
        tables_view(self.tables@)
    }
}

impl Clone for Schema {
    fn clone(&self) -> (copy: Self)
        ensures
            copy@ == self@,
    {
        let mut tables: Vec<TableSpec> = Vec::new();
        for i in 0..self.tables.len()
            invariant
                tables@.len() == i,
                forall|k: int| 0 <= k < i ==> #[trigger] tables@[k]@ == self.tables@[k]@,
        {
            tables.push(self.tables[i].clone());
        }
        assert(tables_view(tables@) =~= self@);
        Schema { tables }
    }
}

/// The first table `name` of a schema, counting from `from`.
pub open spec fn table_from(tables: Seq<TableView>, name: Seq<char>, from: int) -> Option<TableView>
    decreases tables.len() - from,
{
    if from < 0 || from >= tables.len() {
        None
    } else if tables[from].name == name {
        Some(tables[from])
    } else {
        table_from(tables, name, from + 1)
    }
}

/// The table `name` of a schema.
pub open spec fn table_of(tables: Seq<TableView>, name: Seq<char>) -> Option<TableView> {
    table_from(tables, name, 0)
}

/// Whether `column` is tracked in the table `name`; the sentinel is, in every table.
pub open spec fn tracks(tables: Seq<TableView>, name: Seq<char>, column: Seq<char>) -> bool {
    match table_of(tables, name) {
        Some(table) => column == SENTINEL@ || table.columns.contains(column),
        None => false,
    }
}

/// The offset basis of the 64-bit FNV-1a hash.
pub const FNV_OFFSET: u64 = 0xcbf29ce484222325;

/// The prime of the 64-bit FNV-1a hash.
pub const FNV_PRIME: u64 = 0x100000001b3;

/// The 64-bit FNV-1a hash.
pub open spec fn fnv1a_hash(bytes: Seq<u8>) -> u64
    decreases bytes.len(),
{
    if bytes.len() == 0 {
        FNV_OFFSET
    } else {
        (fnv1a_hash(bytes.drop_last()) ^ (bytes.last() as u64)).wrapping_mul(FNV_PRIME)
    }
}

/// FNV-1a 64-bit hash: small, and stable across platforms and crate versions (required for a
/// fingerprint that peers must agree on).
pub fn fnv1a(bytes: &[u8]) -> (hash: u64)
    ensures
        hash == fnv1a_hash(bytes@),
{
    let mut hash: u64 = FNV_OFFSET;
    for i in 0..bytes.len()
        invariant
            hash == fnv1a_hash(bytes@.take(i as int)),
    {
        assert(bytes@.take(i + 1).drop_last() == bytes@.take(i as int));
        hash = (hash ^ (bytes[i] as u64)).wrapping_mul(FNV_PRIME);
    }
    assert(bytes@.take(bytes@.len() as int) == bytes@);
    hash
}

/// `sorted`, with `text` put in behind all that it does not come before.
pub open spec fn insert_text(sorted: Seq<Seq<char>>, text: Seq<char>) -> Seq<Seq<char>>
    decreases sorted.len(),
{
    if sorted.len() > 0 && text_before(text, sorted.last()) {
        insert_text(sorted.drop_last(), text).push(sorted.last())
    } else {
        sorted.push(text)
    }
}

/// The texts in ascending order.
pub open spec fn sorted_texts(texts: Seq<Seq<char>>) -> Seq<Seq<char>>
    decreases texts.len(),
{
    if texts.len() == 0 {
        Seq::empty()
    } else {
        insert_text(sorted_texts(texts.drop_last()), texts.last())
    }
}

/// `sorted`, with `table` put in behind all whose names it does not come before.
pub open spec fn insert_table(sorted: Seq<TableView>, table: TableView) -> Seq<TableView>
    decreases sorted.len(),
{
    if sorted.len() > 0 && text_before(table.name, sorted.last().name) {
        insert_table(sorted.drop_last(), table).push(sorted.last())
    } else {
        sorted.push(table)
    }
}

/// The tables in ascending order of their names, those of one name as they were declared.
pub open spec fn sorted_tables(tables: Seq<TableView>) -> Seq<TableView>
    decreases tables.len(),
{
    if tables.len() == 0 {
        Seq::empty()
    } else {
        insert_table(sorted_tables(tables.drop_last()), tables.last())
    }
}

/// Each text, followed by a comma.
pub open spec fn listed(texts: Seq<Seq<char>>) -> Seq<char>
    decreases texts.len(),
{
    if texts.len() == 0 {
        Seq::empty()
    } else {
        (listed(texts.drop_last()) + texts.last()).push(',')
    }
}

/// The canonical text of a key's shape.
pub open spec fn pk_canon(pk: PkView) -> Seq<char> {
    match pk {
        PkView::Single { column } => "s:"@ + column,
        PkView::Composite { columns, sep } => ("c:"@ + columns.0.push(',') + columns.1.push(
            ',',
        )).push(sep),
    }
}

/// The canonical text of a table's structure.
pub open spec fn table_canon(table: TableView) -> Seq<char> {
    (table.name.push('|') + pk_canon(table.pk).push('|') + listed(
        sorted_texts(table.columns),
    )).push(';')
}

/// The canonical texts of tables, one after the other.
pub open spec fn tables_canon(tables: Seq<TableView>) -> Seq<char>
    decreases tables.len(),
{
    if tables.len() == 0 {
        Seq::empty()
    } else {
        tables_canon(tables.drop_last()) + table_canon(tables.last())
    }
}

/// The canonical text of a schema's structure: what its fingerprint is taken of.
pub open spec fn schema_canon(tables: Seq<TableView>) -> Seq<char> {
    tables_canon(sorted_tables(tables))
}

/// The fingerprint of a schema.
pub open spec fn fingerprint_of(tables: Seq<TableView>) -> u64 {
    fnv1a_hash(encode_utf8(schema_canon(tables)))
}

/// The texts in ascending order.
fn sort_texts(texts: &Vec<String>) -> (sorted: Vec<String>)
    ensures
        texts_view(sorted@) == sorted_texts(texts_view(texts@)),
{
    let mut sorted: Vec<String> = Vec::new();
    for i in 0..texts.len()
        invariant
            texts_view(sorted@) == sorted_texts(texts_view(texts@).take(i as int)),
    {
        let mut at: usize = sorted.len();
        let ghost held = texts_view(sorted@);
        let ghost text = texts_view(texts@)[i as int];
        assert(held.take(at as int) =~= held);
        assert(insert_text(held, text) =~= insert_text(
            held.take(at as int),
            text,
        ) + held.skip(at as int));
        while at > 0 && matches!(
            compare_texts(texts[i].as_str(), sorted[at - 1].as_str()),
            Ranking::Less
        )
            invariant
                at <= sorted@.len(),
                i < texts@.len(),
                text == texts@[i as int]@,
                held == texts_view(sorted@),
                insert_text(held, text) == insert_text(held.take(at as int), text)
                    + held.skip(at as int),
            decreases at,
        {
            proof {
                let head = held.take(at as int);
                assert(head.drop_last() =~= held.take(at - 1));
                assert(head.last() == held[at - 1]);
                assert(insert_text(head.drop_last(), text).push(head.last())
                    + held.skip(at as int) =~= insert_text(
                    held.take(at - 1),
                    text,
                ) + held.skip(at - 1));
            }
            at -= 1;
        }
        proof {
            let head = held.take(at as int);
            if at > 0 {
                crate::text::lemma_before_total(
                    crate::text::codes(text),
                    crate::text::codes(head.last()),
                );
            }
            assert(insert_text(head, text) =~= head.push(text));
        }
        sorted.insert(at, texts[i].clone());
        proof {
            let views = texts_view(texts@);
            assert(texts_view(sorted@) =~= held.take(at as int).push(text)
                + held.skip(at as int));
            assert(views.take(i + 1).drop_last() =~= views.take(i as int));
        }
    }
    assert(texts_view(texts@).take(texts@.len() as int) =~= texts_view(texts@));
    sorted
}

/// The tables in ascending order of their names, those of one name as they were declared.
fn sort_tables(tables: &Vec<TableSpec>) -> (sorted: Vec<&TableSpec>)
    ensures
        sorted@.map_values(|table: &TableSpec| table@) == sorted_tables(tables_view(tables@)),
{
    let mut sorted: Vec<&TableSpec> = Vec::new();
    for i in 0..tables.len()
        invariant
            sorted@.map_values(|table: &TableSpec| table@) == sorted_tables(
                tables_view(tables@).take(i as int),
            ),
    {
        let mut at: usize = sorted.len();
        let ghost held = sorted@.map_values(|table: &TableSpec| table@);
        let ghost table = tables@[i as int]@;
        assert(held.take(at as int) =~= held);
        assert(insert_table(held, table) =~= insert_table(held.take(at as int), table) + held.skip(
            at as int,
        ));
        while at > 0 && matches!(
            compare_texts(tables[i].name.as_str(), sorted[at - 1].name.as_str()),
            Ranking::Less
        )
            invariant
                at <= sorted@.len(),
                i < tables@.len(),
                table == tables@[i as int]@,
                held == sorted@.map_values(|table: &TableSpec| table@),
                insert_table(held, table) == insert_table(held.take(at as int), table) + held.skip(
                    at as int,
                ),
            decreases at,
        {
            proof {
                let head = held.take(at as int);
                assert(head.drop_last() =~= held.take(at - 1));
                assert(head.last() == held[at - 1]);
                assert(insert_table(head.drop_last(), table).push(head.last()) + held.skip(
                    at as int,
                ) =~= insert_table(held.take(at - 1), table) + held.skip(at - 1));
            }
            at -= 1;
        }
        proof {
            let head = held.take(at as int);
            if at > 0 {
                assert(head.last().name == sorted@[at - 1].name@);
                crate::text::lemma_before_total(
                    crate::text::codes(table.name),
                    crate::text::codes(head.last().name),
                );
            }
            assert(insert_table(head, table) =~= head.push(table));
        }
        sorted.insert(at, &tables[i]);
        proof {
            let views = tables_view(tables@);
            assert(sorted@.map_values(|table: &TableSpec| table@) =~= held.take(at as int).push(
                table,
            ) + held.skip(at as int));
            assert(views.take(i + 1).drop_last() =~= views.take(i as int));
        }
    }
    assert(tables_view(tables@).take(tables@.len() as int) =~= tables_view(tables@));
    sorted
}

/// Writes the canonical text of a table's structure.
fn canon_table(table: &TableSpec) -> (canon: String)
    ensures
        canon@ == table_canon(table@),
{
    let mut canon = table.name.clone();
    canon.push('|');
    let mut pk = String::new();
    match &table.pk {
        PkSpec::Single { column } => {
            pk.append("s:");
            pk.append(column.as_str());
            assert(pk@ =~= pk_canon(table.pk@));
        },
        PkSpec::Composite { columns, sep } => {
            pk.append("c:");
            pk.append(columns.0.as_str());
            pk.push(',');
            pk.append(columns.1.as_str());
            pk.push(',');
            pk.push(*sep);
            assert(pk@ =~= pk_canon(table.pk@));
        },
    }
    pk.push('|');
    canon.append(pk.as_str());
    let columns = sort_texts(&table.columns);
    let ghost views = texts_view(columns@);
    let mut list = String::new();
    for i in 0..columns.len()
        invariant
            views == texts_view(columns@),
            list@ == listed(views.take(i as int)),
    {
        assert(views.take(i + 1).drop_last() =~= views.take(i as int));
        list.append(columns[i].as_str());
        list.push(',');
    }
    assert(views.take(views.len() as int) =~= views);
    canon.append(list.as_str());
    canon.push(';');
    canon
}

impl Schema {
    /// Builds a schema from its tables.
    pub fn new(tables: Vec<TableSpec>) -> (schema: Self)
        ensures
            schema@ == tables_view(tables@),
    {
        Schema { tables }
    }

    /// A single-table schema for a type that describes its table.
    pub fn of<T: CrdtTable>() -> (schema: Self)
        ensures
            exists|table: TableSpec| #[trigger]
                call_ensures(T::table_spec, (), table) && schema@ == seq![table@],
    {
        let table = T::table_spec();
        let mut tables: Vec<TableSpec> = Vec::new();
        tables.push(table);
        assert(tables_view(tables@) =~= seq![table@]);
        Schema::new(tables)
    }

    /// The description of `table`, if tracked.
    pub fn table(&self, table: &str) -> (found: Option<&TableSpec>)
        ensures
            match found {
                Some(spec) => table_of(self@, table@) == Some(spec@),
                None => table_of(self@, table@) is None,
            },
    {
        let mut i: usize = 0;
        while i < self.tables.len()
            invariant
                i <= self.tables@.len(),
                table_of(self@, table@) == table_from(self@, table@, i as int),
            decreases self.tables@.len() - i,
        {
            if same_text(self.tables[i].name.as_str(), table) {
                return Some(&self.tables[i]);
            }
            i += 1;
        }
        None
    }

    /// Whether `col` is a valid tracked column of `table`.
    ///
    /// The sentinel column is valid for any tracked table.
    pub fn is_valid_column(&self, table: &str, col: &str) -> (valid: bool)
        ensures
            valid == tracks(self@, table@, col@),
    {
        match self.table(table) {
            Some(spec) => {
                if same_text(col, SENTINEL) {
                    return true;
                }
                for i in 0..spec.columns.len()
                    invariant
                        table_of(self@, table@) == Some(spec@),
                        forall|k: int| 0 <= k < i ==> spec.columns@[k]@ != col@,
                {
                    if same_text(spec.columns[i].as_str(), col) {
                        assert(spec@.columns[i as int] == col@);
                        return true;
                    }
                }
                assert(!spec@.columns.contains(col@));
                false
            },
            None => false,
        }
    }

    /// A stable, order-insensitive fingerprint of this schema's *structure*: its tables, their
    /// tracked columns, and each table's primary-key shape.
    ///
    /// Skeleton defaults are *not* part of the fingerprint: they affect only how a local
    /// placeholder row is seeded, never what data is synced.
    pub fn fingerprint(&self) -> (fingerprint: u64)
        ensures
            fingerprint == fingerprint_of(self@),
    {
        let tables = sort_tables(&self.tables);
        let ghost views = tables@.map_values(|table: &TableSpec| table@);
        let mut canon = String::new();
        for i in 0..tables.len()
            invariant
                views == tables@.map_values(|table: &TableSpec| table@),
                canon@ == tables_canon(views.take(i as int)),
        {
            assert(views.take(i + 1).drop_last() =~= views.take(i as int));
            canon.append(canon_table(tables[i]).as_str());
        }
        assert(views.take(views.len() as int) =~= views);
        fnv1a(canon.as_str().as_bytes())
    }
}

} // verus!
