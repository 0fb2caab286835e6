//! A model of SQL: how statements are written, and what they do to tables.
//!
//! Only what the bookkeeping needs is here: conditions are conjunctions of comparisons of a column,
//! and values are stored as they are given.
use vstd::prelude::*;

use crate::database::raised_version;
use crate::text::decimal;
use crate::value::SqlValue;

verus! {

/// What a row of a table holds, by column.
pub type Record = Map<Seq<char>, SqlValue>;

/// The declared kind of a column.
pub enum Kind {
    Any,
    Text,
    Integer,
    Blob,
}

/// What is declared of a column.
pub struct Column {
    pub kind: Kind,
    /// Whether the column cannot be null.
    pub required: bool,
    /// What the column holds unless it is given something.
    pub default: SqlValue,
}

/// What is declared of a table: its columns, and those that tell its rows apart.
pub struct Layout {
    pub columns: spec_fn(Seq<char>) -> Option<Column>,
    pub key: Seq<Seq<char>>,
}

/// The tables of a database, and what they hold.
pub struct Store {
    pub layouts: Map<Seq<char>, Layout>,
    pub rows: spec_fn(Seq<char>, Record) -> bool,
    /// The bytes that are drawn next.
    pub draw: Seq<u8>,
}

/// An expression.
pub enum Term {
    /// The value of a placeholder; the first is number one.
    Param(nat),
    /// A number.
    Number(nat),
    /// A text in quotes.
    Quoted(Seq<char>),
    /// What a row holds in a column.
    Field(Seq<char>),
    /// One more than what a row holds in a column.
    Next(Seq<char>),
    /// That many random bytes.
    Random(nat),
}

/// A way to compare.
pub enum Relation {
    Same,
    Differs,
    Above,
}

/// A comparison of a column of a row.
pub struct Test {
    pub column: Seq<char>,
    pub relation: Relation,
    pub term: Term,
}

/// The declaration of a column.
pub struct Declared {
    pub name: Seq<char>,
    pub kind: Kind,
    pub required: bool,
    pub key: bool,
}

/// What becomes of a row whose key is taken.
pub enum Clash {
    /// The statement fails.
    Refuse,
    /// The row is not inserted.
    Ignore,
    /// The row replaces the one that is there.
    Replace,
}

/// A statement.
pub enum Sql {
    Create { table: Seq<char>, columns: Seq<Declared>, key: Seq<Seq<char>> },
    Select {
        distinct: bool,
        terms: Seq<Term>,
        table: Seq<char>,
        tests: Seq<Test>,
        order: Seq<Seq<char>>,
        limit: Option<nat>,
    },
    Insert { clash: Clash, table: Seq<char>, columns: Seq<Seq<char>>, values: Seq<Term> },
    Update { table: Seq<char>, column: Seq<char>, value: Term, tests: Seq<Test> },
    Delete { table: Seq<char>, tests: Seq<Test> },
    Rename { table: Seq<char>, name: Seq<char> },
}

// How statements are written.
/// Parts from the one at `from` on, with `sep` between each and the next.
pub open spec fn listed(parts: Seq<Seq<char>>, sep: Seq<char>, from: int) -> Seq<char>
    decreases parts.len() - from,
{
    if from >= parts.len() {
        Seq::empty()
    } else if from == parts.len() - 1 {
        parts[from]
    } else {
        parts[from] + sep + listed(parts, sep, from + 1)
    }
}

impl Term {
    pub open spec fn written(self) -> Seq<char> {
        match self {
            Term::Param(n) => "?"@ + decimal(n),
            Term::Number(n) => decimal(n),
            Term::Quoted(text) => "'"@ + text + "'"@,
            Term::Field(column) => column,
            Term::Next(column) => column + " + 1"@,
            Term::Random(n) => "randomblob("@ + decimal(n) + ")"@,
        }
    }
}

impl Relation {
    pub open spec fn written(self) -> Seq<char> {
        match self {
            Relation::Same => " = "@,
            Relation::Differs => " != "@,
            Relation::Above => " > "@,
        }
    }
}

impl Test {
    pub open spec fn written(self) -> Seq<char> {
        self.column + self.relation.written() + self.term.written()
    }
}

impl Kind {
    pub open spec fn written(self) -> Seq<char> {
        match self {
            Kind::Any => ""@,
            Kind::Text => " TEXT"@,
            Kind::Integer => " INTEGER"@,
            Kind::Blob => " BLOB"@,
        }
    }
}

impl Declared {
    pub open spec fn written(self) -> Seq<char> {
        self.name + self.kind.written() + (if self.required {
            " NOT NULL"@
        } else {
            ""@
        }) + (if self.key {
            " PRIMARY KEY"@
        } else {
            ""@
        })
    }
}

impl Clash {
    pub open spec fn written(self) -> Seq<char> {
        match self {
            Clash::Refuse => ""@,
            Clash::Ignore => "OR IGNORE "@,
            Clash::Replace => "OR REPLACE "@,
        }
    }
}

/// How a condition is written.
pub open spec fn written_tests(tests: Seq<Test>) -> Seq<char> {
    if tests.len() == 0 {
        ""@
    } else {
        " WHERE "@ + listed(tests.map_values(|test: Test| test.written()), " AND "@, 0)
    }
}

/// How expressions are written.
pub open spec fn written_terms(terms: Seq<Term>) -> Seq<char> {
    listed(terms.map_values(|term: Term| term.written()), ", "@, 0)
}

impl Sql {
    /// How the statement is written.
    pub open spec fn written(self) -> Seq<char> {
        match self {
            Sql::Create { table, columns, key } => "CREATE TABLE IF NOT EXISTS "@ + table + " ("@
                + listed(columns.map_values(|column: Declared| column.written()), ", "@, 0) + (
            if key.len() == 0 {
                ""@
            } else {
                ", PRIMARY KEY ("@ + listed(key, ", "@, 0) + ")"@
            }) + ")"@,
            Sql::Select { distinct, terms, table, tests, order, limit } => "SELECT "@ + (
            if distinct {
                "DISTINCT "@
            } else {
                ""@
            }) + written_terms(terms) + " FROM "@ + table + written_tests(tests) + (if order.len()
                == 0 {
                ""@
            } else {
                " ORDER BY "@ + listed(order, ", "@, 0)
            }) + (match limit {
                Some(n) => " LIMIT "@ + decimal(n),
                None => ""@,
            }),
            Sql::Insert { clash, table, columns, values } => "INSERT "@ + clash.written()
                + "INTO "@ + table + " ("@ + listed(columns, ", "@, 0) + ") VALUES ("@
                + written_terms(values) + ")"@,
            Sql::Update { table, column, value, tests } => "UPDATE "@ + table + " SET "@ + column
                + " = "@ + value.written() + written_tests(tests),
            Sql::Delete { table, tests } => "DELETE FROM "@ + table + written_tests(tests),
            Sql::Rename { table, name } => "ALTER TABLE "@ + table + " RENAME TO "@ + name,
        }
    }
}

/// Whether a text can be the name of a table or a column: letters, digits, underscores and
/// characters beyond ASCII, no digit first.
pub open spec fn is_name(text: Seq<char>) -> bool {
    &&& text.len() > 0
    &&& !('0' <= text[0] && text[0] <= '9')
    &&& forall|i: int| 0 <= i < text.len() ==> is_name_char(#[trigger] text[i])
}

/// Whether a character can stand in a name.
pub open spec fn is_name_char(c: char) -> bool {
    ||| 'a' <= c && c <= 'z'
    ||| 'A' <= c && c <= 'Z'
    ||| '0' <= c && c <= '9'
    ||| c == '_'
    ||| c as int >= 128
}

/// Whether all tables and columns of a statement have names.
pub open spec fn named(sql: Sql) -> bool {
    match sql {
        Sql::Create { table, columns, key } => {
            &&& is_name(table)
            &&& forall|i: int| 0 <= i < columns.len() ==> is_name((#[trigger] columns[i]).name)
            &&& forall|i: int| 0 <= i < key.len() ==> is_name(#[trigger] key[i])
        },
        Sql::Select { distinct, terms, table, tests, order, limit } => {
            &&& is_name(table)
            &&& forall|i: int| 0 <= i < terms.len() ==> named_term(#[trigger] terms[i])
            &&& named_tests(tests)
            &&& forall|i: int| 0 <= i < order.len() ==> is_name(#[trigger] order[i])
        },
        Sql::Insert { clash, table, columns, values } => {
            &&& is_name(table)
            &&& forall|i: int| 0 <= i < columns.len() ==> is_name(#[trigger] columns[i])
            &&& forall|i: int| 0 <= i < values.len() ==> named_term(#[trigger] values[i])
        },
        Sql::Update { table, column, value, tests } => {
            is_name(table) && is_name(column) && named_term(value) && named_tests(tests)
        },
        Sql::Delete { table, tests } => is_name(table) && named_tests(tests),
        Sql::Rename { table, name } => is_name(table) && is_name(name),
    }
}

pub open spec fn named_term(term: Term) -> bool {
    match term {
        Term::Field(column) => is_name(column),
        Term::Next(column) => is_name(column),
        Term::Quoted(text) => is_name(text),
        _ => true,
    }
}

pub open spec fn named_tests(tests: Seq<Test>) -> bool {
    forall|i: int|
        0 <= i < tests.len() ==> is_name((#[trigger] tests[i]).column) && named_term(tests[i].term)
}

/// Whether a statement is a reading of a text.
pub open spec fn reads(text: Seq<char>, sql: Sql) -> bool {
    sql.written() == text && named(sql)
}

// What statements do.
/// The table that lists the tables.
pub open spec fn catalogue() -> Seq<char> {
    "sqlite_master"@
}

/// What the catalogue holds of a table.
pub open spec fn catalogue_record(name: Seq<char>) -> Record {
    Map::empty().insert("type"@, SqlValue::Text("table"@)).insert("name"@, SqlValue::Text(name))
}

impl Store {
    /// Whether a table is there.
    pub open spec fn has(self, table: Seq<char>) -> bool {
        table == catalogue() || self.layouts.dom().contains(table)
    }

    /// Whether a table holds a row.
    pub open spec fn holds(self, table: Seq<char>, record: Record) -> bool {
        if table == catalogue() {
            exists|name: Seq<char>| #[trigger]
                self.layouts.dom().contains(name) && record == catalogue_record(name)
        } else {
            (self.rows)(table, record)
        }
    }

    /// What a term stands for, of a row.
    pub open spec fn value(self, term: Term, params: Seq<SqlValue>, record: Record) -> SqlValue {
        match term {
            Term::Param(n) => if 1 <= n <= params.len() {
                params[n - 1]
            } else {
                SqlValue::Null
            },
            Term::Number(n) => SqlValue::Integer(n as i64),
            Term::Quoted(text) => SqlValue::Text(text),
            Term::Field(column) => record[column],
            Term::Next(column) => match record[column] {
                SqlValue::Integer(i) if i < i64::MAX => SqlValue::Integer((i + 1) as i64),
                other => raised_version(other),
            },
            Term::Random(n) => SqlValue::Blob(self.draw.take(n as int)),
        }
    }

    /// Whether a row passes a comparison. What is null passes none.
    pub open spec fn passes(self, test: Test, params: Seq<SqlValue>, record: Record) -> bool {
        let own = record[test.column];
        let other = self.value(test.term, params, record);
        own !is Null && other !is Null && match test.relation {
            Relation::Same => own == other,
            Relation::Differs => own != other,
            Relation::Above => match (own, other) {
                (SqlValue::Integer(a), SqlValue::Integer(b)) => a > b,
                _ => false,
            },
        }
    }

    /// Whether a row of a table meets a condition.
    pub open spec fn picks(
        self,
        table: Seq<char>,
        tests: Seq<Test>,
        params: Seq<SqlValue>,
        record: Record,
    ) -> bool {
        &&& self.holds(table, record)
        &&& forall|i: int|
            0 <= i < tests.len() ==> self.passes(#[trigger] tests[i], params, record)
    }

    /// The rows of a table exchanged.
    pub open spec fn with_rows(self, table: Seq<char>, rows: spec_fn(Record) -> bool) -> Store {
        Store {
            rows: |name: Seq<char>, record: Record|
                if name == table {
                    rows(record)
                } else {
                    (self.rows)(name, record)
                },
            ..self
        }
    }
}

/// The value of a record in each column of a list of expressions.
pub open spec fn shown_row(
    store: Store,
    terms: Seq<Term>,
    params: Seq<SqlValue>,
    record: Record,
) -> Seq<SqlValue> {
    Seq::new(terms.len(), |i: int| store.value(terms[i], params, record))
}

/// Whether a row comes before another by the numbers that they hold in columns.
pub open spec fn precedes(a: Record, b: Record, order: Seq<Seq<char>>, from: int) -> bool
    decreases order.len() - from,
{
    if from >= order.len() {
        false
    } else {
        match (a[order[from]], b[order[from]]) {
            (SqlValue::Integer(x), SqlValue::Integer(y)) => x < y || x == y && precedes(
                a,
                b,
                order,
                from + 1,
            ),
            _ => false,
        }
    }
}

/// Whether `found` are the rows that a query finds, each once, in the order that it asks for.
pub open spec fn finds(
    store: Store,
    table: Seq<char>,
    tests: Seq<Test>,
    order: Seq<Seq<char>>,
    params: Seq<SqlValue>,
    found: Seq<Record>,
) -> bool {
    &&& found.no_duplicates()
    &&& forall|record: Record| #[trigger]
        found.contains(record) <==> store.picks(table, tests, params, record)
    &&& forall|i: int, j: int|
        0 <= i < j < found.len() ==> !precedes(#[trigger] found[j], #[trigger] found[i], order, 0)
}

/// What is shown of rows, in their order, up to a limit.
pub open spec fn shown_rows(
    store: Store,
    terms: Seq<Term>,
    params: Seq<SqlValue>,
    found: Seq<Record>,
    limit: Option<nat>,
) -> Seq<Seq<SqlValue>> {
    Seq::new(
        match limit {
            Some(n) if n < found.len() => n,
            _ => found.len(),
        },
        |i: int| shown_row(store, terms, params, found[i]),
    )
}

/// Whether `rows` are `shown`, each once if they are to be distinct.
pub open spec fn gives(
    distinct: bool,
    shown: Seq<Seq<SqlValue>>,
    rows: Seq<Seq<SqlValue>>,
) -> bool {
    if distinct {
        rows.no_duplicates() && forall|row: Seq<SqlValue>| #[trigger]
            rows.contains(row) <==> shown.contains(row)
    } else {
        rows == shown
    }
}

/// Whether `rows` is what a query can list.
pub open spec fn lists(
    store: Store,
    sql: Sql,
    params: Seq<SqlValue>,
    rows: Seq<Seq<SqlValue>>,
) -> bool {
    match sql {
        Sql::Select { distinct, terms, table, tests, order, limit } => exists|found: Seq<Record>|
            #[trigger] finds(store, table, tests, order, params, found) && gives(
                distinct,
                shown_rows(store, terms, params, found, limit),
                rows,
            ),
        _ => rows.len() == 0,
    }
}

/// The column that a list of declarations gives a name.
pub open spec fn column_from(columns: Seq<Declared>, name: Seq<char>, from: int) -> Option<Column>
    decreases columns.len() - from,
{
    if from >= columns.len() {
        None
    } else if columns[from].name == name {
        Some(
            Column {
                kind: columns[from].kind,
                required: columns[from].required,
                default: SqlValue::Null,
            },
        )
    } else {
        column_from(columns, name, from + 1)
    }
}

/// The columns that are declared as keys themselves.
pub open spec fn key_from(columns: Seq<Declared>, from: int) -> Seq<Seq<char>>
    decreases columns.len() - from,
{
    if from >= columns.len() {
        Seq::empty()
    } else if columns[from].key {
        seq![columns[from].name] + key_from(columns, from + 1)
    } else {
        key_from(columns, from + 1)
    }
}

/// The table that declarations make.
pub open spec fn made_layout(columns: Seq<Declared>, key: Seq<Seq<char>>) -> Layout {
    Layout {
        columns: |name: Seq<char>| column_from(columns, name, 0),
        key: if key.len() == 0 {
            key_from(columns, 0)
        } else {
            key
        },
    }
}

/// The row that an insert makes.
pub open spec fn made_row(
    store: Store,
    layout: Layout,
    columns: Seq<Seq<char>>,
    values: Seq<Term>,
    params: Seq<SqlValue>,
) -> Record {
    Map::new(
        |column: Seq<char>| (layout.columns)(column) is Some,
        |column: Seq<char>|
            if columns.contains(column) {
                store.value(values[columns.index_of(column)], params, Map::empty())
            } else {
                (layout.columns)(column)->0.default
            },
    )
}

/// Whether two rows have the same key, in a table that has one.
pub open spec fn same_key(layout: Layout, a: Record, b: Record) -> bool {
    layout.key.len() > 0 && forall|i: int|
        0 <= i < layout.key.len() ==> a[#[trigger] layout.key[i]] == b[layout.key[i]]
}

/// Whether a row lacks what its table requires.
pub open spec fn incomplete(layout: Layout, record: Record) -> bool {
    exists|column: Seq<char>|
        (layout.columns)(column) is Some && (layout.columns)(column)->0.required
            && #[trigger] record[column] is Null
}

/// What comes of a statement, `None` where it fails.
pub open spec fn effect(store: Store, sql: Sql, params: Seq<SqlValue>) -> Option<Store> {
    match sql {
        Sql::Create { table, columns, key } => if store.has(table) {
            Some(store)
        } else {
            Some(
                Store {
                    layouts: store.layouts.insert(table, made_layout(columns, key)),
                    ..store
                },
            )
        },
        Sql::Select { distinct, terms, table, tests, order, limit } => if store.has(table) {
            Some(store)
        } else {
            None
        },
        Sql::Insert { clash, table, columns, values } => if !store.layouts.dom().contains(table)
            || columns.len() != values.len() || !columns.no_duplicates() || exists|i: int|
            0 <= i < columns.len()
                && (store.layouts[table].columns)(#[trigger] columns[i]) is None {
            None
        } else {
            let layout = store.layouts[table];
            let row = made_row(store, layout, columns, values, params);
            let taken = exists|other: Record| #[trigger]
                store.holds(table, other) && same_key(layout, other, row);
            if incomplete(layout, row) {
                if clash is Ignore {
                    Some(store)
                } else {
                    None
                }
            } else if taken && clash is Refuse {
                None
            } else if taken && clash is Ignore {
                Some(store)
            } else {
                Some(
                    store.with_rows(
                        table,
                        |record: Record|
                            record == row || store.holds(table, record) && !same_key(
                                layout,
                                record,
                                row,
                            ),
                    ),
                )
            }
        },
        Sql::Update { table, column, value, tests } => if !store.layouts.dom().contains(table)
            || (store.layouts[table].columns)(column) is None {
            None
        } else {
            let layout = store.layouts[table];
            let next = |record: Record|
                if store.picks(table, tests, params, record) {
                    record.insert(column, store.value(value, params, record))
                } else {
                    record
                };
            if (exists|a: Record, b: Record|
                #![trigger store.holds(table, a), store.holds(table, b)]
                store.holds(table, a) && store.holds(table, b) && a != b && same_key(
                    layout,
                    next(a),
                    next(b),
                )) || (exists|a: Record| #[trigger]
                store.holds(table, a) && incomplete(layout, next(a))) {
                None
            } else {
                Some(
                    store.with_rows(
                        table,
                        |record: Record|
                            exists|old: Record| #[trigger]
                                store.holds(table, old) && record == next(old),
                    ),
                )
            }
        },
        Sql::Delete { table, tests } => if store.layouts.dom().contains(table) {
            Some(
                store.with_rows(
                    table,
                    |record: Record|
                        store.holds(table, record) && !store.picks(table, tests, params, record),
                ),
            )
        } else {
            None
        },
        Sql::Rename { table, name } => if !store.layouts.dom().contains(table) || store.has(name) {
            None
        } else {
            Some(
                Store {
                    layouts: store.layouts.remove(table).insert(name, store.layouts[table]),
                    rows: |other: Seq<char>, record: Record|
                        if other == name {
                            (store.rows)(table, record)
                        } else {
                            other != table && (store.rows)(other, record)
                        },
                    ..store
                },
            )
        },
    }
}

} // verus!
