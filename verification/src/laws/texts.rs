//! What the statements' texts do.
use vstd::prelude::*;

use crate::sql::Clash;
use crate::sql::Declared;
use crate::sql::Kind;
use crate::sql::Relation;
use crate::sql::Sql;
use crate::sql::Term;
use crate::sql::Test;
use crate::sql::is_name;
use crate::sql::is_name_char;
use crate::sql::listed;
use crate::sql::written_terms;
use crate::sql::written_tests;
use crate::statement::Key;
use crate::statement::StampView;
use crate::statement::StatementView;
use crate::statement::clock_name;
use crate::statement::inserted_columns;
use crate::statement::law_shift_passes_text;
use crate::statement::law_shift_raises_numbers;
use crate::statement::shifted;
use crate::statement::where_text;
use crate::text::decimal;
use crate::text::joined;
use crate::value::SqlValue;

verus! {

pub open spec fn test_of(column: Seq<char>, relation: Relation, n: nat) -> Test {
    Test { column, relation, term: Term::Param(n) }
}

/// The condition that the columns of a key have the values of placeholders, from one number on.
pub open spec fn key_tests(key: Key, first: nat) -> Seq<Test> {
    Seq::new(key.len(), |i: int| test_of(key[i].0, Relation::Same, (i + first) as nat))
}

pub open spec fn fields(columns: Seq<Seq<char>>) -> Seq<Term> {
    columns.map_values(|column: Seq<char>| Term::Field(column))
}

pub open spec fn params_to(n: nat) -> Seq<Term> {
    Seq::new(n, |i: int| Term::Param((i + 1) as nat))
}

pub open spec fn declared(name: Seq<char>, kind: Kind, required: bool, key: bool) -> Declared {
    Declared { name, kind, required, key }
}

pub open spec fn entry_columns() -> Seq<Seq<char>> {
    seq!["pk"@, "col_name"@, "col_ver"@, "db_ver"@, "site_id"@, "seq"@]
}

pub open spec fn select(terms: Seq<Term>, table: Seq<char>, tests: Seq<Test>) -> Sql {
    Sql::Select {
        distinct: false,
        terms,
        table,
        tests,
        order: Seq::empty(),
        limit: None,
    }
}

/// How the text of a statement is read.
pub open spec fn reading(st: StatementView) -> Sql {
    match st {
        StatementView::CreateSiteTable => Sql::Create {
            table: "crr_site_id"@,
            columns: seq![declared("site_id"@, Kind::Blob, false, true)],
            key: Seq::empty(),
        },
        StatementView::CreateVersionTable => Sql::Create {
            table: "crr_db_version"@,
            columns: seq![declared("version"@, Kind::Integer, true, false)],
            key: Seq::empty(),
        },
        StatementView::CreateStateTable => Sql::Create {
            table: "crr_sync_state"@,
            columns: seq![
                declared("key"@, Kind::Text, false, true),
                declared("value"@, Kind::Blob, false, false),
            ],
            key: Seq::empty(),
        },
        StatementView::CreateClockTable { table } => Sql::Create {
            table: clock_name(table),
            columns: seq![
                declared("pk"@, Kind::Text, true, false),
                declared("col_name"@, Kind::Text, true, false),
                declared("col_ver"@, Kind::Integer, true, false),
                declared("db_ver"@, Kind::Integer, true, false),
                declared("site_id"@, Kind::Blob, true, false),
                declared("seq"@, Kind::Integer, true, false),
            ],
            key: seq!["pk"@, "col_name"@],
        },
        StatementView::SelectVersion => Sql::Select {
            distinct: false,
            terms: seq![Term::Field("version"@)],
            table: "crr_db_version"@,
            tests: Seq::empty(),
            order: Seq::empty(),
            limit: Some(1),
        },
        StatementView::InsertVersion => Sql::Insert {
            clash: Clash::Refuse,
            table: "crr_db_version"@,
            columns: seq!["version"@],
            values: seq![Term::Number(0)],
        },
        StatementView::BumpVersion => Sql::Update {
            table: "crr_db_version"@,
            column: "version"@,
            value: Term::Next("version"@),
            tests: Seq::empty(),
        },
        StatementView::SelectSite => Sql::Select {
            distinct: false,
            terms: seq![Term::Field("site_id"@)],
            table: "crr_site_id"@,
            tests: Seq::empty(),
            order: Seq::empty(),
            limit: Some(1),
        },
        StatementView::InsertSite { or_ignore } => Sql::Insert {
            clash: if or_ignore {
                Clash::Ignore
            } else {
                Clash::Refuse
            },
            table: "crr_site_id"@,
            columns: seq!["site_id"@],
            values: seq![Term::Random(16)],
        },
        StatementView::SelectState { key } => select(
            seq![Term::Field("value"@)],
            "crr_sync_state"@,
            seq![test_of("key"@, Relation::Same, 1)],
        ),
        StatementView::PutState { key, value } => Sql::Insert {
            clash: Clash::Replace,
            table: "crr_sync_state"@,
            columns: seq!["key"@, "value"@],
            values: seq![Term::Param(1), Term::Param(2)],
        },
        StatementView::SelectColVer { table, pk, column } => select(
            seq![Term::Field("col_ver"@)],
            clock_name(table),
            seq![test_of("pk"@, Relation::Same, 1), test_of("col_name"@, Relation::Same, 2)],
        ),
        StatementView::SelectClock { table, pk, column } => select(
            seq![Term::Field("col_ver"@), Term::Field("site_id"@)],
            clock_name(table),
            seq![test_of("pk"@, Relation::Same, 1), test_of("col_name"@, Relation::Same, 2)],
        ),
        StatementView::PutClock { table, stamp } => Sql::Insert {
            clash: Clash::Replace,
            table: clock_name(table),
            columns: entry_columns(),
            values: params_to(6),
        },
        StatementView::SeedClock { table, stamp } => Sql::Insert {
            clash: Clash::Ignore,
            table: clock_name(table),
            columns: entry_columns(),
            values: params_to(6),
        },
        StatementView::ZeroColumns { table, pk } => Sql::Update {
            table: clock_name(table),
            column: "col_ver"@,
            value: Term::Number(0),
            tests: seq![
                test_of("pk"@, Relation::Same, 1),
                test_of("col_name"@, Relation::Differs, 2),
            ],
        },
        StatementView::SelectChanges { table, since } => Sql::Select {
            distinct: false,
            terms: fields(entry_columns()),
            table: clock_name(table),
            tests: seq![test_of("db_ver"@, Relation::Above, 1)],
            order: seq!["db_ver"@, "seq"@],
            limit: None,
        },
        StatementView::SelectSentinels { table } => select(
            seq![Term::Field("pk"@), Term::Field("col_ver"@)],
            clock_name(table),
            seq![test_of("col_name"@, Relation::Same, 1)],
        ),
        StatementView::SelectPks { table } => Sql::Select {
            distinct: true,
            terms: seq![Term::Field("pk"@)],
            table: clock_name(table),
            tests: Seq::empty(),
            order: Seq::empty(),
            limit: None,
        },
        StatementView::DropColumn { table, column } => Sql::Delete {
            table: clock_name(table),
            tests: seq![test_of("col_name"@, Relation::Same, 1)],
        },
        StatementView::RenameClock { old_table, new_table } => Sql::Rename {
            table: clock_name(old_table),
            name: clock_name(new_table),
        },
        StatementView::ClockExists { table } => select(
            seq![Term::Number(1)],
            "sqlite_master"@,
            seq![
                Test {
                    column: "type"@,
                    relation: Relation::Same,
                    term: Term::Quoted("table"@),
                },
                test_of("name"@, Relation::Same, 1),
            ],
        ),
        StatementView::RewritePk { table, old_pk, new_pk } => Sql::Update {
            table: clock_name(table),
            column: "pk"@,
            value: Term::Param(1),
            tests: seq![test_of("pk"@, Relation::Same, 2)],
        },
        StatementView::DropPk { table, pk } => Sql::Delete {
            table: clock_name(table),
            tests: seq![test_of("pk"@, Relation::Same, 1)],
        },
        StatementView::ReadCell { table, column, key } => select(
            seq![Term::Field(column)],
            table,
            key_tests(key, 1),
        ),
        StatementView::ProbeRow { table, key } => select(
            seq![Term::Number(1)],
            table,
            key_tests(key, 1),
        ),
        StatementView::InsertRow { table, key, defaults } => Sql::Insert {
            clash: Clash::Ignore,
            table,
            columns: inserted_columns(key, defaults),
            values: params_to(key.len() + defaults.len()),
        },
        StatementView::WriteCell { table, column, value, key } => Sql::Update {
            table,
            column,
            value: Term::Param(1),
            tests: key_tests(key, 2),
        },
        StatementView::DeleteRow { table, key } => Sql::Delete { table, tests: key_tests(key, 1) },
        StatementView::SelectKeys { table, columns } => select(
            fields(columns),
            table,
            Seq::empty(),
        ),
    }
}

proof fn lemma_two(a: Seq<char>, b: Seq<char>, sep: Seq<char>)
    ensures
        listed(seq![a], sep, 0) == a,
        listed(seq![a, b], sep, 0) == a + sep + b,
{
    reveal_with_fuel(listed, 3);
}

proof fn lemma_six(p: Seq<Seq<char>>, sep: Seq<char>)
    requires
        p.len() == 6,
    ensures
        listed(p, sep, 0) == p[0] + sep + p[1] + sep + p[2] + sep + p[3] + sep + p[4] + sep + p[5],
{
    reveal_with_fuel(listed, 7);
    assert(listed(p, sep, 0) =~= p[0] + sep + p[1] + sep + p[2] + sep + p[3] + sep + p[4] + sep
        + p[5]);
}

proof fn lemma_digits()
    ensures
        decimal(0) == "0"@,
        decimal(1) == "1"@,
        decimal(2) == "2"@,
        decimal(3) == "3"@,
        decimal(4) == "4"@,
        decimal(5) == "5"@,
        decimal(6) == "6"@,
        decimal(16) == "16"@,
{
    reveal_strlit("0");
    reveal_strlit("1");
    reveal_strlit("2");
    reveal_strlit("3");
    reveal_strlit("4");
    reveal_strlit("5");
    reveal_strlit("6");
    reveal_strlit("16");
    reveal_with_fuel(decimal, 3);
    assert(decimal(0) =~= "0"@);
    assert(decimal(1) =~= "1"@);
    assert(decimal(2) =~= "2"@);
    assert(decimal(3) =~= "3"@);
    assert(decimal(4) =~= "4"@);
    assert(decimal(5) =~= "5"@);
    assert(decimal(6) =~= "6"@);
    assert(decimal(16) =~= "16"@);
}

/// A condition of one comparison, and of two.
proof fn lemma_tests(a: Test, b: Test)
    ensures
        written_tests(seq![a]) == " WHERE "@ + a.written(),
        written_tests(seq![a, b]) == " WHERE "@ + (a.written() + " AND "@ + b.written()),
{
    let write = |test: Test| test.written();
    assert(seq![a].map_values(write) =~= seq![a.written()]);
    assert(seq![a, b].map_values(write) =~= seq![a.written(), b.written()]);
    lemma_two(a.written(), b.written(), " AND "@);
}

/// A list of one expression, and of two.
proof fn lemma_terms(a: Term, b: Term)
    ensures
        written_terms(seq![a]) == a.written(),
        written_terms(seq![a, b]) == a.written() + ", "@ + b.written(),
{
    let write = |term: Term| term.written();
    assert(seq![a].map_values(write) =~= seq![a.written()]);
    assert(seq![a, b].map_values(write) =~= seq![a.written(), b.written()]);
    lemma_two(a.written(), b.written(), ", "@);
}

/// A list of one declaration, and of two.
proof fn lemma_declared(a: Declared, b: Declared)
    ensures
        listed(seq![a].map_values(|column: Declared| column.written()), ", "@, 0) == a.written(),
        listed(seq![a, b].map_values(|column: Declared| column.written()), ", "@, 0)
            == a.written() + ", "@ + b.written(),
{
    let write = |column: Declared| column.written();
    assert(seq![a].map_values(write) =~= seq![a.written()]);
    assert(seq![a, b].map_values(write) =~= seq![a.written(), b.written()]);
    lemma_two(a.written(), b.written(), ", "@);
}

pub proof fn lemma_create_site_text()
    ensures
        reading(StatementView::CreateSiteTable).written() == (StatementView::CreateSiteTable).sql(),
{
    lemma_declared(declared("site_id"@, Kind::Blob, false, true), declared("site_id"@, Kind::Blob,
        false, true));
    reveal_strlit("CREATE TABLE IF NOT EXISTS ");
    reveal_strlit("crr_site_id");
    reveal_strlit(" (");
    reveal_strlit("site_id");
    reveal_strlit(" BLOB");
    reveal_strlit("");
    reveal_strlit(" PRIMARY KEY");
    reveal_strlit(")");
    reveal_strlit("CREATE TABLE IF NOT EXISTS crr_site_id (site_id BLOB PRIMARY KEY)");
    assert("CREATE TABLE IF NOT EXISTS "@ + "crr_site_id"@ + " ("@ + (("site_id"@ + " BLOB"@ + ""@
        + " PRIMARY KEY"@)) + ""@ + ")"@
        =~= "CREATE TABLE IF NOT EXISTS crr_site_id (site_id BLOB PRIMARY KEY)"@);
    assert(reading(StatementView::CreateSiteTable).written()
        =~= (StatementView::CreateSiteTable).sql());
}

pub proof fn lemma_create_version_text()
    ensures
        reading(StatementView::CreateVersionTable).written()
            == (StatementView::CreateVersionTable).sql(),
{
    lemma_declared(declared("version"@, Kind::Integer, true, false), declared("version"@,
        Kind::Integer, true, false));
    reveal_strlit("CREATE TABLE IF NOT EXISTS ");
    reveal_strlit("crr_db_version");
    reveal_strlit(" (");
    reveal_strlit("version");
    reveal_strlit(" INTEGER");
    reveal_strlit(" NOT NULL");
    reveal_strlit("");
    reveal_strlit(")");
    reveal_strlit("CREATE TABLE IF NOT EXISTS crr_db_version (version INTEGER NOT NULL)");
    assert("CREATE TABLE IF NOT EXISTS "@ + "crr_db_version"@ + " ("@ + (("version"@ + " INTEGER"@
        + " NOT NULL"@ + ""@)) + ""@ + ")"@
        =~= "CREATE TABLE IF NOT EXISTS crr_db_version (version INTEGER NOT NULL)"@);
    assert(reading(StatementView::CreateVersionTable).written()
        =~= (StatementView::CreateVersionTable).sql());
}

pub proof fn lemma_create_state_text()
    ensures
        reading(StatementView::CreateStateTable).written()
            == (StatementView::CreateStateTable).sql(),
{
    lemma_declared(declared("key"@, Kind::Text, false, true), declared("value"@, Kind::Blob, false,
        false));
    reveal_strlit("CREATE TABLE IF NOT EXISTS ");
    reveal_strlit("crr_sync_state");
    reveal_strlit(" (");
    reveal_strlit("key");
    reveal_strlit(" TEXT");
    reveal_strlit("");
    reveal_strlit(" PRIMARY KEY");
    reveal_strlit(", ");
    reveal_strlit("value");
    reveal_strlit(" BLOB");
    reveal_strlit(")");
    reveal_strlit("CREATE TABLE IF NOT EXISTS crr_sync_state (key TEXT PRIMARY KEY, value BLOB)");
    assert("CREATE TABLE IF NOT EXISTS "@ + "crr_sync_state"@ + " ("@ + (("key"@ + " TEXT"@ + ""@
        + " PRIMARY KEY"@) + ", "@ + ("value"@ + " BLOB"@ + ""@ + ""@)) + ""@ + ")"@
        =~= "CREATE TABLE IF NOT EXISTS crr_sync_state (key TEXT PRIMARY KEY, value BLOB)"@);
    assert(reading(StatementView::CreateStateTable).written()
        =~= (StatementView::CreateStateTable).sql());
}

pub proof fn lemma_create_clock_text(table: Seq<char>)
    ensures
        reading(StatementView::CreateClockTable { table }).written()
            == (StatementView::CreateClockTable { table }).sql(),
{
    let columns = reading(StatementView::CreateClockTable { table })->Create_columns;
    let write = |column: Declared| column.written();
    lemma_six(columns.map_values(write), ", "@);
    lemma_two("pk"@, "col_name"@, ", "@);
    reveal_strlit(" (");
    reveal_strlit("pk");
    reveal_strlit(" TEXT");
    reveal_strlit(" NOT NULL");
    reveal_strlit("");
    reveal_strlit(", ");
    reveal_strlit("col_name");
    reveal_strlit("col_ver");
    reveal_strlit(" INTEGER");
    reveal_strlit("db_ver");
    reveal_strlit("site_id");
    reveal_strlit(" BLOB");
    reveal_strlit("seq");
    reveal_strlit(", PRIMARY KEY (");
    reveal_strlit(")");
    reveal_strlit(" (pk TEXT NOT NULL, col_name TEXT NOT NULL, col_ver INTEGER NOT NULL, db_ver INTEGER NOT NULL, site_id BLOB NOT NULL, seq INTEGER NOT NULL, PRIMARY KEY (pk, col_name))");
    reveal_strlit("CREATE TABLE IF NOT EXISTS ");
    assert(" ("@ + (("pk"@ + " TEXT"@ + " NOT NULL"@ + ""@) + ", "@ + ("col_name"@ + " TEXT"@
        + " NOT NULL"@ + ""@) + ", "@ + ("col_ver"@ + " INTEGER"@ + " NOT NULL"@ + ""@) + ", "@
        + ("db_ver"@ + " INTEGER"@ + " NOT NULL"@ + ""@) + ", "@ + ("site_id"@ + " BLOB"@
        + " NOT NULL"@ + ""@) + ", "@ + ("seq"@ + " INTEGER"@ + " NOT NULL"@ + ""@))
        + (", PRIMARY KEY ("@ + ("pk"@ + ", "@ + "col_name"@) + ")"@) + ")"@
        =~= " (pk TEXT NOT NULL, col_name TEXT NOT NULL, col_ver INTEGER NOT NULL, db_ver INTEGER NOT NULL, site_id BLOB NOT NULL, seq INTEGER NOT NULL, PRIMARY KEY (pk, col_name))"@);
    assert(reading(StatementView::CreateClockTable { table }).written()
        =~= (StatementView::CreateClockTable { table }).sql());
}

pub proof fn lemma_select_version_text()
    ensures
        reading(StatementView::SelectVersion).written() == (StatementView::SelectVersion).sql(),
{
    lemma_terms(Term::Field("version"@), Term::Number(0));
    lemma_digits();
    reveal_strlit("SELECT ");
    reveal_strlit("");
    reveal_strlit("version");
    reveal_strlit(" FROM ");
    reveal_strlit("crr_db_version");
    reveal_strlit(" LIMIT ");
    reveal_strlit("1");
    reveal_strlit("SELECT version FROM crr_db_version LIMIT 1");
    assert("SELECT "@ + ""@ + "version"@ + " FROM "@ + "crr_db_version"@ + ""@ + ""@ + (" LIMIT "@
        + "1"@) =~= "SELECT version FROM crr_db_version LIMIT 1"@);
    assert(reading(StatementView::SelectVersion).written()
        =~= (StatementView::SelectVersion).sql());
}

pub proof fn lemma_select_site_text()
    ensures
        reading(StatementView::SelectSite).written() == (StatementView::SelectSite).sql(),
{
    lemma_terms(Term::Field("site_id"@), Term::Number(0));
    lemma_digits();
    reveal_strlit("SELECT ");
    reveal_strlit("");
    reveal_strlit("site_id");
    reveal_strlit(" FROM ");
    reveal_strlit("crr_site_id");
    reveal_strlit(" LIMIT ");
    reveal_strlit("1");
    reveal_strlit("SELECT site_id FROM crr_site_id LIMIT 1");
    assert("SELECT "@ + ""@ + "site_id"@ + " FROM "@ + "crr_site_id"@ + ""@ + ""@ + (" LIMIT "@
        + "1"@) =~= "SELECT site_id FROM crr_site_id LIMIT 1"@);
    assert(reading(StatementView::SelectSite).written() =~= (StatementView::SelectSite).sql());
}

pub proof fn lemma_insert_version_text()
    ensures
        reading(StatementView::InsertVersion).written() == (StatementView::InsertVersion).sql(),
{
    lemma_terms(Term::Number(0), Term::Number(0));
    lemma_two("version"@, ""@, ", "@);
    lemma_digits();
    reveal_strlit("INSERT ");
    reveal_strlit("");
    reveal_strlit("INTO ");
    reveal_strlit("crr_db_version");
    reveal_strlit(" (");
    reveal_strlit("version");
    reveal_strlit(") VALUES (");
    reveal_strlit("0");
    reveal_strlit(")");
    reveal_strlit("INSERT INTO crr_db_version (version) VALUES (0)");
    assert("INSERT "@ + ""@ + "INTO "@ + "crr_db_version"@ + " ("@ + "version"@ + ") VALUES ("@
        + "0"@ + ")"@ =~= "INSERT INTO crr_db_version (version) VALUES (0)"@);
    assert(reading(StatementView::InsertVersion).written()
        =~= (StatementView::InsertVersion).sql());
}

pub proof fn lemma_bump_version_text()
    ensures
        reading(StatementView::BumpVersion).written() == (StatementView::BumpVersion).sql(),
{
    reveal_strlit("UPDATE ");
    reveal_strlit("crr_db_version");
    reveal_strlit(" SET ");
    reveal_strlit("version");
    reveal_strlit(" = ");
    reveal_strlit(" + 1");
    reveal_strlit("");
    reveal_strlit("UPDATE crr_db_version SET version = version + 1");
    assert("UPDATE "@ + "crr_db_version"@ + " SET "@ + "version"@ + " = "@ + ("version"@ + " + 1"@)
        + ""@ =~= "UPDATE crr_db_version SET version = version + 1"@);
    assert(reading(StatementView::BumpVersion).written() =~= (StatementView::BumpVersion).sql());
}

pub proof fn lemma_insert_site_text(or_ignore: bool)
    ensures
        reading(StatementView::InsertSite { or_ignore }).written()
            == (StatementView::InsertSite { or_ignore }).sql(),
{
    lemma_terms(Term::Random(16), Term::Number(0));
    lemma_two("site_id"@, ""@, ", "@);
    lemma_digits();
    reveal_strlit("INSERT ");
    reveal_strlit("OR IGNORE ");
    reveal_strlit("INTO ");
    reveal_strlit("crr_site_id");
    reveal_strlit(" (");
    reveal_strlit("site_id");
    reveal_strlit(") VALUES (");
    reveal_strlit("randomblob(");
    reveal_strlit("16");
    reveal_strlit(")");
    reveal_strlit("");
    reveal_strlit("INSERT OR IGNORE INTO crr_site_id (site_id) VALUES (randomblob(16))");
    reveal_strlit("INSERT INTO crr_site_id (site_id) VALUES (randomblob(16))");
    assert("INSERT "@ + "OR IGNORE "@ + "INTO "@ + "crr_site_id"@ + " ("@ + "site_id"@
        + ") VALUES ("@ + ("randomblob("@ + "16"@ + ")"@) + ")"@
        =~= "INSERT OR IGNORE INTO crr_site_id (site_id) VALUES (randomblob(16))"@);
    assert("INSERT "@ + ""@ + "INTO "@ + "crr_site_id"@ + " ("@ + "site_id"@ + ") VALUES ("@
        + ("randomblob("@ + "16"@ + ")"@) + ")"@
        =~= "INSERT INTO crr_site_id (site_id) VALUES (randomblob(16))"@);
    assert(reading(StatementView::InsertSite { or_ignore }).written()
        =~= (StatementView::InsertSite { or_ignore }).sql());
}

pub proof fn lemma_select_state_text(key: Seq<char>)
    ensures
        reading(StatementView::SelectState { key }).written()
            == (StatementView::SelectState { key }).sql(),
{
    lemma_terms(Term::Field("value"@), Term::Number(0));
    lemma_tests(test_of("key"@, Relation::Same, 1), test_of("key"@, Relation::Same, 1));
    lemma_digits();
    reveal_strlit("SELECT ");
    reveal_strlit("");
    reveal_strlit("value");
    reveal_strlit(" FROM ");
    reveal_strlit("crr_sync_state");
    reveal_strlit(" WHERE ");
    reveal_strlit("key");
    reveal_strlit(" = ");
    reveal_strlit("?");
    reveal_strlit("1");
    reveal_strlit("SELECT value FROM crr_sync_state WHERE key = ?1");
    assert("SELECT "@ + ""@ + "value"@ + " FROM "@ + "crr_sync_state"@ + (" WHERE "@ + ("key"@
        + " = "@ + ("?"@ + "1"@))) + ""@ + ""@
        =~= "SELECT value FROM crr_sync_state WHERE key = ?1"@);
    assert(reading(StatementView::SelectState { key }).written()
        =~= (StatementView::SelectState { key }).sql());
}

pub proof fn lemma_put_state_text(key: Seq<char>, value: Seq<u8>)
    ensures
        reading(StatementView::PutState { key, value }).written() == (StatementView::PutState { key,
            value }).sql(),
{
    lemma_terms(Term::Param(1), Term::Param(2));
    lemma_two("key"@, "value"@, ", "@);
    lemma_digits();
    reveal_strlit("INSERT ");
    reveal_strlit("OR REPLACE ");
    reveal_strlit("INTO ");
    reveal_strlit("crr_sync_state");
    reveal_strlit(" (");
    reveal_strlit("key");
    reveal_strlit(", ");
    reveal_strlit("value");
    reveal_strlit(") VALUES (");
    reveal_strlit("?");
    reveal_strlit("1");
    reveal_strlit("2");
    reveal_strlit(")");
    reveal_strlit("INSERT OR REPLACE INTO crr_sync_state (key, value) VALUES (?1, ?2)");
    reveal_strlit("");
    assert("INSERT "@ + "OR REPLACE "@ + "INTO "@ + "crr_sync_state"@ + " ("@ + ("key"@ + ", "@
        + "value"@) + ") VALUES ("@ + (("?"@ + "1"@) + ", "@ + ("?"@ + "2"@)) + ")"@
        =~= "INSERT OR REPLACE INTO crr_sync_state (key, value) VALUES (?1, ?2)"@);
    assert(reading(StatementView::PutState { key, value }).written()
        =~= (StatementView::PutState { key, value }).sql());
}

pub proof fn lemma_select_col_ver_text(table: Seq<char>, pk: Seq<char>, column: Seq<char>)
    ensures
        reading(StatementView::SelectColVer { table, pk, column }).written()
            == (StatementView::SelectColVer { table, pk, column }).sql(),
{
    lemma_terms(Term::Field("col_ver"@), Term::Number(0));
    lemma_tests(test_of("pk"@, Relation::Same, 1), test_of("col_name"@, Relation::Same, 2));
    lemma_digits();
    reveal_strlit("SELECT ");
    reveal_strlit("");
    reveal_strlit("col_ver");
    reveal_strlit(" FROM ");
    reveal_strlit(" WHERE ");
    reveal_strlit("pk");
    reveal_strlit(" = ");
    reveal_strlit("?");
    reveal_strlit("1");
    reveal_strlit(" AND ");
    reveal_strlit("col_name");
    reveal_strlit("2");
    reveal_strlit("SELECT col_ver FROM ");
    reveal_strlit(" WHERE pk = ?1 AND col_name = ?2");
    assert("SELECT "@ + ""@ + "col_ver"@ + " FROM "@ =~= "SELECT col_ver FROM "@);
    assert(" WHERE "@ + (("pk"@ + " = "@ + ("?"@ + "1"@)) + " AND "@ + ("col_name"@ + " = "@ + ("?"@
        + "2"@))) =~= " WHERE pk = ?1 AND col_name = ?2"@);
    assert(reading(StatementView::SelectColVer { table, pk, column }).written()
        =~= (StatementView::SelectColVer { table, pk, column }).sql());
}

pub proof fn lemma_select_clock_text(table: Seq<char>, pk: Seq<char>, column: Seq<char>)
    ensures
        reading(StatementView::SelectClock { table, pk, column }).written()
            == (StatementView::SelectClock { table, pk, column }).sql(),
{
    lemma_terms(Term::Field("col_ver"@), Term::Field("site_id"@));
    lemma_tests(test_of("pk"@, Relation::Same, 1), test_of("col_name"@, Relation::Same, 2));
    lemma_digits();
    reveal_strlit("SELECT ");
    reveal_strlit("");
    reveal_strlit("col_ver");
    reveal_strlit(", ");
    reveal_strlit("site_id");
    reveal_strlit(" FROM ");
    reveal_strlit(" WHERE ");
    reveal_strlit("pk");
    reveal_strlit(" = ");
    reveal_strlit("?");
    reveal_strlit("1");
    reveal_strlit(" AND ");
    reveal_strlit("col_name");
    reveal_strlit("2");
    reveal_strlit("SELECT col_ver, site_id FROM ");
    reveal_strlit(" WHERE pk = ?1 AND col_name = ?2");
    assert("SELECT "@ + ""@ + ("col_ver"@ + ", "@ + "site_id"@) + " FROM "@
        =~= "SELECT col_ver, site_id FROM "@);
    assert(" WHERE "@ + (("pk"@ + " = "@ + ("?"@ + "1"@)) + " AND "@ + ("col_name"@ + " = "@ + ("?"@
        + "2"@))) =~= " WHERE pk = ?1 AND col_name = ?2"@);
    assert(reading(StatementView::SelectClock { table, pk, column }).written()
        =~= (StatementView::SelectClock { table, pk, column }).sql());
}

pub proof fn lemma_put_clock_text(table: Seq<char>, stamp: StampView)
    ensures
        reading(StatementView::PutClock { table, stamp }).written()
            == (StatementView::PutClock { table, stamp }).sql(),
{
    let write = |term: Term| term.written();
    lemma_six(entry_columns(), ", "@);
    lemma_six(params_to(6).map_values(write), ", "@);
    lemma_digits();
    reveal_strlit("INSERT ");
    reveal_strlit("OR REPLACE ");
    reveal_strlit("INTO ");
    reveal_strlit(" (");
    reveal_strlit("pk");
    reveal_strlit(", ");
    reveal_strlit("col_name");
    reveal_strlit("col_ver");
    reveal_strlit("db_ver");
    reveal_strlit("site_id");
    reveal_strlit("seq");
    reveal_strlit(") VALUES (");
    reveal_strlit("?");
    reveal_strlit("1");
    reveal_strlit("2");
    reveal_strlit("3");
    reveal_strlit("4");
    reveal_strlit("5");
    reveal_strlit("6");
    reveal_strlit(")");
    reveal_strlit("INSERT OR REPLACE INTO ");
    reveal_strlit(" (pk, col_name, col_ver, db_ver, site_id, seq) VALUES (?1, ?2, ?3, ?4, ?5, ?6)");
    reveal_strlit("");
    assert("INSERT "@ + "OR REPLACE "@ + "INTO "@ =~= "INSERT OR REPLACE INTO "@);
    assert(" ("@ + ("pk"@ + ", "@ + "col_name"@ + ", "@ + "col_ver"@ + ", "@ + "db_ver"@ + ", "@
        + "site_id"@ + ", "@ + "seq"@) + ") VALUES ("@ + (("?"@ + "1"@) + ", "@ + ("?"@ + "2"@)
        + ", "@ + ("?"@ + "3"@) + ", "@ + ("?"@ + "4"@) + ", "@ + ("?"@ + "5"@) + ", "@ + ("?"@
        + "6"@)) + ")"@
        =~= " (pk, col_name, col_ver, db_ver, site_id, seq) VALUES (?1, ?2, ?3, ?4, ?5, ?6)"@);
    assert(reading(StatementView::PutClock { table, stamp }).written()
        =~= (StatementView::PutClock { table, stamp }).sql());
}

pub proof fn lemma_seed_clock_text(table: Seq<char>, stamp: StampView)
    ensures
        reading(StatementView::SeedClock { table, stamp }).written()
            == (StatementView::SeedClock { table, stamp }).sql(),
{
    let write = |term: Term| term.written();
    lemma_six(entry_columns(), ", "@);
    lemma_six(params_to(6).map_values(write), ", "@);
    lemma_digits();
    reveal_strlit("INSERT ");
    reveal_strlit("OR IGNORE ");
    reveal_strlit("INTO ");
    reveal_strlit(" (");
    reveal_strlit("pk");
    reveal_strlit(", ");
    reveal_strlit("col_name");
    reveal_strlit("col_ver");
    reveal_strlit("db_ver");
    reveal_strlit("site_id");
    reveal_strlit("seq");
    reveal_strlit(") VALUES (");
    reveal_strlit("?");
    reveal_strlit("1");
    reveal_strlit("2");
    reveal_strlit("3");
    reveal_strlit("4");
    reveal_strlit("5");
    reveal_strlit("6");
    reveal_strlit(")");
    reveal_strlit("INSERT OR IGNORE INTO ");
    reveal_strlit(" (pk, col_name, col_ver, db_ver, site_id, seq) VALUES (?1, ?2, ?3, ?4, ?5, ?6)");
    reveal_strlit("");
    assert("INSERT "@ + "OR IGNORE "@ + "INTO "@ =~= "INSERT OR IGNORE INTO "@);
    assert(" ("@ + ("pk"@ + ", "@ + "col_name"@ + ", "@ + "col_ver"@ + ", "@ + "db_ver"@ + ", "@
        + "site_id"@ + ", "@ + "seq"@) + ") VALUES ("@ + (("?"@ + "1"@) + ", "@ + ("?"@ + "2"@)
        + ", "@ + ("?"@ + "3"@) + ", "@ + ("?"@ + "4"@) + ", "@ + ("?"@ + "5"@) + ", "@ + ("?"@
        + "6"@)) + ")"@
        =~= " (pk, col_name, col_ver, db_ver, site_id, seq) VALUES (?1, ?2, ?3, ?4, ?5, ?6)"@);
    assert(reading(StatementView::SeedClock { table, stamp }).written()
        =~= (StatementView::SeedClock { table, stamp }).sql());
}

pub proof fn lemma_zero_columns_text(table: Seq<char>, pk: Seq<char>)
    ensures
        reading(StatementView::ZeroColumns { table, pk }).written()
            == (StatementView::ZeroColumns { table, pk }).sql(),
{
    lemma_tests(test_of("pk"@, Relation::Same, 1), test_of("col_name"@, Relation::Differs, 2));
    lemma_digits();
    reveal_strlit(" SET ");
    reveal_strlit("col_ver");
    reveal_strlit(" = ");
    reveal_strlit("0");
    reveal_strlit(" WHERE ");
    reveal_strlit("pk");
    reveal_strlit("?");
    reveal_strlit("1");
    reveal_strlit(" AND ");
    reveal_strlit("col_name");
    reveal_strlit(" != ");
    reveal_strlit("2");
    reveal_strlit(" SET col_ver = 0 WHERE pk = ?1 AND col_name != ?2");
    reveal_strlit("UPDATE ");
    reveal_strlit("");
    assert(" SET "@ + "col_ver"@ + " = "@ + "0"@ + (" WHERE "@ + (("pk"@ + " = "@ + ("?"@ + "1"@))
        + " AND "@ + ("col_name"@ + " != "@ + ("?"@ + "2"@))))
        =~= " SET col_ver = 0 WHERE pk = ?1 AND col_name != ?2"@);
    assert(reading(StatementView::ZeroColumns { table, pk }).written()
        =~= (StatementView::ZeroColumns { table, pk }).sql());
}

pub proof fn lemma_select_changes_text(table: Seq<char>, since: i64)
    ensures
        reading(StatementView::SelectChanges { table, since }).written()
            == (StatementView::SelectChanges { table, since }).sql(),
{
    let write = |term: Term| term.written();
    lemma_six(fields(entry_columns()).map_values(write), ", "@);
    lemma_tests(test_of("db_ver"@, Relation::Above, 1), test_of("db_ver"@, Relation::Above, 1));
    lemma_two("db_ver"@, "seq"@, ", "@);
    lemma_digits();
    reveal_strlit("SELECT ");
    reveal_strlit("");
    reveal_strlit("pk");
    reveal_strlit(", ");
    reveal_strlit("col_name");
    reveal_strlit("col_ver");
    reveal_strlit("db_ver");
    reveal_strlit("site_id");
    reveal_strlit("seq");
    reveal_strlit(" FROM ");
    reveal_strlit(" WHERE ");
    reveal_strlit(" > ");
    reveal_strlit("?");
    reveal_strlit("1");
    reveal_strlit(" ORDER BY ");
    reveal_strlit("SELECT pk, col_name, col_ver, db_ver, site_id, seq FROM ");
    reveal_strlit(" WHERE db_ver > ?1 ORDER BY db_ver, seq");
    assert("SELECT "@ + ""@ + ("pk"@ + ", "@ + "col_name"@ + ", "@ + "col_ver"@ + ", "@ + "db_ver"@
        + ", "@ + "site_id"@ + ", "@ + "seq"@) + " FROM "@
        =~= "SELECT pk, col_name, col_ver, db_ver, site_id, seq FROM "@);
    assert((" WHERE "@ + ("db_ver"@ + " > "@ + ("?"@ + "1"@))) + (" ORDER BY "@ + ("db_ver"@ + ", "@
        + "seq"@)) + ""@ =~= " WHERE db_ver > ?1 ORDER BY db_ver, seq"@);
    assert(reading(StatementView::SelectChanges { table, since }).written()
        =~= (StatementView::SelectChanges { table, since }).sql());
}

pub proof fn lemma_select_sentinels_text(table: Seq<char>)
    ensures
        reading(StatementView::SelectSentinels { table }).written()
            == (StatementView::SelectSentinels { table }).sql(),
{
    lemma_terms(Term::Field("pk"@), Term::Field("col_ver"@));
    lemma_tests(test_of("col_name"@, Relation::Same, 1), test_of("col_name"@, Relation::Same, 1));
    lemma_digits();
    reveal_strlit("SELECT ");
    reveal_strlit("");
    reveal_strlit("pk");
    reveal_strlit(", ");
    reveal_strlit("col_ver");
    reveal_strlit(" FROM ");
    reveal_strlit(" WHERE ");
    reveal_strlit("col_name");
    reveal_strlit(" = ");
    reveal_strlit("?");
    reveal_strlit("1");
    reveal_strlit("SELECT pk, col_ver FROM ");
    reveal_strlit(" WHERE col_name = ?1");
    assert("SELECT "@ + ""@ + ("pk"@ + ", "@ + "col_ver"@) + " FROM "@
        =~= "SELECT pk, col_ver FROM "@);
    assert(" WHERE "@ + ("col_name"@ + " = "@ + ("?"@ + "1"@)) =~= " WHERE col_name = ?1"@);
    assert(reading(StatementView::SelectSentinels { table }).written()
        =~= (StatementView::SelectSentinels { table }).sql());
}

pub proof fn lemma_select_pks_text(table: Seq<char>)
    ensures
        reading(StatementView::SelectPks { table }).written()
            == (StatementView::SelectPks { table }).sql(),
{
    lemma_terms(Term::Field("pk"@), Term::Number(0));
    reveal_strlit("SELECT ");
    reveal_strlit("DISTINCT ");
    reveal_strlit("pk");
    reveal_strlit(" FROM ");
    reveal_strlit("SELECT DISTINCT pk FROM ");
    reveal_strlit("");
    assert("SELECT "@ + "DISTINCT "@ + "pk"@ + " FROM "@ =~= "SELECT DISTINCT pk FROM "@);
    assert(reading(StatementView::SelectPks { table }).written()
        =~= (StatementView::SelectPks { table }).sql());
}

pub proof fn lemma_drop_column_text(table: Seq<char>, column: Seq<char>)
    ensures
        reading(StatementView::DropColumn { table, column }).written()
            == (StatementView::DropColumn { table, column }).sql(),
{
    lemma_tests(test_of("col_name"@, Relation::Same, 1), test_of("col_name"@, Relation::Same, 1));
    lemma_digits();
    reveal_strlit(" WHERE ");
    reveal_strlit("col_name");
    reveal_strlit(" = ");
    reveal_strlit("?");
    reveal_strlit("1");
    reveal_strlit(" WHERE col_name = ?1");
    reveal_strlit("DELETE FROM ");
    reveal_strlit("");
    assert(" WHERE "@ + ("col_name"@ + " = "@ + ("?"@ + "1"@)) =~= " WHERE col_name = ?1"@);
    assert(reading(StatementView::DropColumn { table, column }).written()
        =~= (StatementView::DropColumn { table, column }).sql());
}

pub proof fn lemma_rename_clock_text(old_table: Seq<char>, new_table: Seq<char>)
    ensures
        reading(StatementView::RenameClock { old_table, new_table }).written()
            == (StatementView::RenameClock { old_table, new_table }).sql(),
{
    reveal_strlit("ALTER TABLE ");
    reveal_strlit(" RENAME TO ");
    reveal_strlit("");
    assert(reading(StatementView::RenameClock { old_table, new_table }).written()
        =~= (StatementView::RenameClock { old_table, new_table }).sql());
}

pub proof fn lemma_clock_exists_text(table: Seq<char>)
    ensures
        reading(StatementView::ClockExists { table }).written()
            == (StatementView::ClockExists { table }).sql(),
{
    lemma_terms(Term::Number(1), Term::Number(0));
    lemma_tests(
        Test { column: "type"@, relation: Relation::Same, term: Term::Quoted("table"@) },
        test_of("name"@, Relation::Same, 1),
    );
    lemma_digits();
    reveal_strlit("SELECT ");
    reveal_strlit("");
    reveal_strlit("1");
    reveal_strlit(" FROM ");
    reveal_strlit("sqlite_master");
    reveal_strlit(" WHERE ");
    reveal_strlit("type");
    reveal_strlit(" = ");
    reveal_strlit("'");
    reveal_strlit("table");
    reveal_strlit(" AND ");
    reveal_strlit("name");
    reveal_strlit("?");
    reveal_strlit("SELECT 1 FROM sqlite_master WHERE type = 'table' AND name = ?1");
    assert("SELECT "@ + ""@ + "1"@ + " FROM "@ + "sqlite_master"@ + (" WHERE "@ + (("type"@ + " = "@
        + ("'"@ + "table"@ + "'"@)) + " AND "@ + ("name"@ + " = "@ + ("?"@ + "1"@)))) + ""@ + ""@
        =~= "SELECT 1 FROM sqlite_master WHERE type = 'table' AND name = ?1"@);
    assert(reading(StatementView::ClockExists { table }).written()
        =~= (StatementView::ClockExists { table }).sql());
}

pub proof fn lemma_rewrite_pk_text(table: Seq<char>, old_pk: Seq<char>, new_pk: Seq<char>)
    ensures
        reading(StatementView::RewritePk { table, old_pk, new_pk }).written()
            == (StatementView::RewritePk { table, old_pk, new_pk }).sql(),
{
    lemma_tests(test_of("pk"@, Relation::Same, 2), test_of("pk"@, Relation::Same, 2));
    lemma_digits();
    reveal_strlit(" SET ");
    reveal_strlit("pk");
    reveal_strlit(" = ");
    reveal_strlit("?");
    reveal_strlit("1");
    reveal_strlit(" WHERE ");
    reveal_strlit("2");
    reveal_strlit(" SET pk = ?1 WHERE pk = ?2");
    reveal_strlit("UPDATE ");
    reveal_strlit("");
    assert(" SET "@ + "pk"@ + " = "@ + ("?"@ + "1"@) + (" WHERE "@ + ("pk"@ + " = "@ + ("?"@
        + "2"@))) =~= " SET pk = ?1 WHERE pk = ?2"@);
    assert(reading(StatementView::RewritePk { table, old_pk, new_pk }).written()
        =~= (StatementView::RewritePk { table, old_pk, new_pk }).sql());
}

pub proof fn lemma_drop_pk_text(table: Seq<char>, pk: Seq<char>)
    ensures
        reading(StatementView::DropPk { table, pk }).written() == (StatementView::DropPk { table,
            pk }).sql(),
{
    lemma_tests(test_of("pk"@, Relation::Same, 1), test_of("pk"@, Relation::Same, 1));
    lemma_digits();
    reveal_strlit(" WHERE ");
    reveal_strlit("pk");
    reveal_strlit(" = ");
    reveal_strlit("?");
    reveal_strlit("1");
    reveal_strlit(" WHERE pk = ?1");
    reveal_strlit("DELETE FROM ");
    reveal_strlit("");
    assert(" WHERE "@ + ("pk"@ + " = "@ + ("?"@ + "1"@)) =~= " WHERE pk = ?1"@);
    assert(reading(StatementView::DropPk { table, pk }).written()
        =~= (StatementView::DropPk { table, pk }).sql());
}

proof fn lemma_listed_more(parts: Seq<Seq<char>>, more: Seq<char>, sep: Seq<char>, from: int)
    requires
        0 <= from < parts.len(),
    ensures
        listed(parts.push(more), sep, from) == listed(parts, sep, from) + sep + more,
    decreases parts.len() - from,
{
    reveal_with_fuel(listed, 2);
    if from < parts.len() - 1 {
        lemma_listed_more(parts, more, sep, from + 1);
    }
    assert(listed(parts.push(more), sep, from) =~= listed(parts, sep, from) + sep + more);
}

proof fn lemma_joined(parts: Seq<Seq<char>>, sep: Seq<char>)
    ensures
        joined(parts, sep) == listed(parts, sep, 0),
    decreases parts.len(),
{
    if parts.len() > 1 {
        lemma_joined(parts.drop_last(), sep);
        lemma_listed_more(parts.drop_last(), parts.last(), sep, 0);
        assert(parts.drop_last().push(parts.last()) =~= parts);
    }
}

/// What stands between the columns of a key in a condition, with placeholders from `first` on.
spec fn key_texts(key: Key, first: nat) -> Seq<Seq<char>> {
    Seq::new(key.len(), |i: int| key[i].0 + " = ?"@ + decimal((i + first) as nat))
}

proof fn lemma_key_tests(key: Key, first: nat)
    requires
        key.len() > 0,
    ensures
        written_tests(key_tests(key, first)) == " WHERE "@ + listed(
            key_texts(key, first),
            " AND "@,
            0,
        ),
{
    let write = |test: Test| test.written();
    reveal_strlit(" = ?");
    reveal_strlit(" = ");
    reveal_strlit("?");
    assert forall|i: int| 0 <= i < key.len() implies key_tests(key, first).map_values(write)[i]
        == key_texts(key, first)[i] by {
        assert(key_tests(key, first).map_values(write)[i] =~= key_texts(key, first)[i]);
    }
    assert(key_tests(key, first).map_values(write) =~= key_texts(key, first));
}

proof fn lemma_name_plain(name: Seq<char>)
    requires
        is_name(name),
    ensures
        !name.contains('?'),
{
    if name.contains('?') {
        let i = choose|i: int| 0 <= i < name.len() && name[i] == '?';
        assert(is_name_char(name[i]));
    }
}

proof fn lemma_key_shift(key: Key, from: int)
    requires
        0 <= from < key.len() < usize::MAX,
        forall|i: int| 0 <= i < key.len() ==> is_name((#[trigger] key[i]).0),
    ensures
        shifted(listed(key_texts(key, 1), " AND "@, from), 1) == listed(
            key_texts(key, 2),
            " AND "@,
            from,
        ),
    decreases key.len() - from,
{
    let texts = key_texts(key, 1);
    let column = key[from].0;
    let n = (from + 1) as nat;
    reveal_strlit(" = ?");
    reveal_strlit(" AND ");
    let equals: Seq<char> = seq![' ', '=', ' '];
    let head = column + equals;
    lemma_name_plain(column);
    assert(!head.contains('?')) by {
        if head.contains('?') {
            let i = choose|i: int| 0 <= i < head.len() && head[i] == '?';
            if i < column.len() {
                assert(column.contains(column[i]));
            }
        }
    }
    let rest = if from == key.len() - 1 {
        Seq::empty()
    } else {
        " AND "@ + listed(texts, " AND "@, from + 1)
    };
    let mark = seq!['?'] + decimal(n);
    assert(texts[from] =~= head + mark);
    assert(listed(texts, " AND "@, from) =~= head + (mark + rest));
    law_shift_passes_text(head, mark + rest, 1);
    law_shift_raises_numbers(n, rest, 1);
    assert(shifted(head + (mark + rest), 1) == head + (seq!['?'] + decimal(n + 1) + shifted(
        rest,
        1,
    )));
    if from < key.len() - 1 {
        lemma_key_shift(key, from + 1);
        assert(!" AND "@.contains('?'));
        law_shift_passes_text(" AND "@, listed(texts, " AND "@, from + 1), 1);
    }
    assert(key_texts(key, 2)[from] =~= head + (seq!['?'] + decimal(n + 1)));
    assert(shifted(listed(texts, " AND "@, from), 1) =~= listed(key_texts(key, 2), " AND "@, from));
}

proof fn lemma_where(key: Key)
    requires
        key.len() > 0,
    ensures
        written_tests(key_tests(key, 1)) == " WHERE "@ + where_text(key),
        key.len() < usize::MAX && (forall|i: int|
            0 <= i < key.len() ==> is_name((#[trigger] key[i]).0)) ==> written_tests(
            key_tests(key, 2),
        ) == " WHERE "@ + shifted(where_text(key), 1),
{
    lemma_key_tests(key, 1);
    lemma_key_tests(key, 2);
    lemma_joined(key_texts(key, 1), " AND "@);
    assert(key_texts(key, 1) =~= Seq::new(
        key.len(),
        |i: int| key[i].0 + " = ?"@ + decimal((i + 1) as nat),
    ));
    if key.len() < usize::MAX && (forall|i: int|
        0 <= i < key.len() ==> is_name((#[trigger] key[i]).0)) {
        lemma_key_shift(key, 0);
    }
}

pub proof fn lemma_read_cell_text(table: Seq<char>, column: Seq<char>, key: Key)
    requires
        key.len() > 0,
    ensures
        reading(StatementView::ReadCell { table, column, key }).written() == (
        StatementView::ReadCell { table, column, key }).sql(),
        reading(StatementView::ProbeRow { table, key }).written() == (StatementView::ProbeRow {
            table,
            key,
        }).sql(),
        reading(StatementView::DeleteRow { table, key }).written() == (StatementView::DeleteRow {
            table,
            key,
        }).sql(),
{
    lemma_where(key);
    lemma_terms(Term::Field(column), Term::Number(0));
    lemma_terms(Term::Number(1), Term::Number(0));
    lemma_digits();
    reveal_strlit("");
    reveal_strlit("1");
    reveal_strlit("SELECT ");
    reveal_strlit(" FROM ");
    reveal_strlit("SELECT 1 FROM ");
    assert("SELECT "@ + ""@ + "1"@ + " FROM "@ =~= "SELECT 1 FROM "@);
    assert(reading(StatementView::ReadCell { table, column, key }).written() =~= (
    StatementView::ReadCell { table, column, key }).sql());
    assert(reading(StatementView::ProbeRow { table, key }).written() =~= (
    StatementView::ProbeRow { table, key }).sql());
    assert(reading(StatementView::DeleteRow { table, key }).written() =~= (
    StatementView::DeleteRow { table, key }).sql());
}

pub proof fn lemma_write_cell_text(table: Seq<char>, column: Seq<char>, value: SqlValue, key: Key)
    requires
        0 < key.len() < usize::MAX,
        forall|i: int| 0 <= i < key.len() ==> is_name((#[trigger] key[i]).0),
    ensures
        reading(StatementView::WriteCell { table, column, value, key }).written() == (
        StatementView::WriteCell { table, column, value, key }).sql(),
{
    lemma_where(key);
    lemma_digits();
    reveal_strlit(" = ");
    reveal_strlit("?");
    reveal_strlit("1");
    reveal_strlit(" WHERE ");
    reveal_strlit(" = ?1 WHERE ");
    assert(" = "@ + ("?"@ + "1"@) + " WHERE "@ =~= " = ?1 WHERE "@);
    assert(reading(StatementView::WriteCell { table, column, value, key }).written() =~= (
    StatementView::WriteCell { table, column, value, key }).sql());
}

pub proof fn lemma_insert_row_text(
    table: Seq<char>,
    key: Key,
    defaults: Seq<(Seq<char>, SqlValue)>,
)
    ensures
        reading(StatementView::InsertRow { table, key, defaults }).written() == (
        StatementView::InsertRow { table, key, defaults }).sql(),
{
    let n = key.len() + defaults.len();
    let write = |term: Term| term.written();
    let marks = Seq::new(n, |i: int| "?"@ + decimal((i + 1) as nat));
    lemma_joined(inserted_columns(key, defaults), ", "@);
    lemma_joined(marks, ", "@);
    assert(params_to(n).map_values(write) =~= marks);
    reveal_strlit("INSERT ");
    reveal_strlit("OR IGNORE ");
    reveal_strlit("INTO ");
    reveal_strlit("INSERT OR IGNORE INTO ");
    assert("INSERT "@ + "OR IGNORE "@ + "INTO "@ =~= "INSERT OR IGNORE INTO "@);
    assert(reading(StatementView::InsertRow { table, key, defaults }).written() =~= (
    StatementView::InsertRow { table, key, defaults }).sql());
}

pub proof fn lemma_select_keys_text(table: Seq<char>, columns: Seq<Seq<char>>)
    ensures
        reading(StatementView::SelectKeys { table, columns }).written() == (
        StatementView::SelectKeys { table, columns }).sql(),
{
    let write = |term: Term| term.written();
    lemma_joined(columns, ", "@);
    assert(fields(columns).map_values(write) =~= columns);
    reveal_strlit("");
    assert(reading(StatementView::SelectKeys { table, columns }).written() =~= (
    StatementView::SelectKeys { table, columns }).sql());
}

} // verus!
