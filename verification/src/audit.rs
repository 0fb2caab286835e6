//! Auditing: catch the "forgot to track" mistake.
//!
//! Writes are never intercepted, so if you run an `INSERT` and forget the matching
//! [`Crr::track_insert`], that row simply never emits from [`Crr::changes_since`] and silently
//! never syncs. The audit finds such rows; it does a full scan of the table.
use vstd::hash_set::StringHashSet;
use vstd::prelude::*;

use crate::Crr;
use crate::flow::Journal;
use crate::flow::Rows;
use crate::flow::Script;
use crate::flow::Step;
use crate::flow::Turn;
use crate::flow::done;
use crate::flow::halted;
use crate::flow::lemma_run_bind;
use crate::flow::query;
use crate::migrate::live_pks;
use crate::migrate::read_live_pks;
use crate::schema::PkSpec;
use crate::schema::PkView;
use crate::schema::TableView;
use crate::schema::table_of;
use crate::statement::Statement;
use crate::statement::StatementView;
use crate::text::debug_str;
use crate::text::debug_text;
use crate::text::decimal;
use crate::text::decimal_text;
use crate::text::join;
use crate::text::joined;
use crate::value::ErrorView;
use crate::value::Row;
use crate::value::SqlValue;
use crate::value::cell;
use crate::value::rows_view;
use crate::value::texts_view;

verus! {

broadcast use lemma_run_bind;

/// The key columns of a table.
pub open spec fn key_columns(shape: PkView) -> Seq<Seq<char>> {
    match shape {
        PkView::Single { column } => seq![column],
        PkView::Composite { columns, sep } => seq![columns.0, columns.1],
    }
}

/// The key text of a row, from its key columns.
pub open spec fn encoded_pk(shape: PkView, row: Seq<SqlValue>) -> Seq<char> {
    match shape {
        PkView::Single { column } => cell(row, 0).text_or_empty(),
        PkView::Composite { columns, sep } => cell(row, 0).text_or_empty().push(sep) + cell(
            row,
            1,
        ).text_or_empty(),
    }
}

/// The key texts of all rows that are not among `known`, in the order of the rows.
pub open spec fn untracked(shape: PkView, rows: Rows, known: Seq<Seq<char>>) -> Seq<Seq<char>>
    decreases rows.len(),
{
    if rows.len() == 0 {
        Seq::empty()
    } else if known.contains(encoded_pk(shape, rows.last())) {
        untracked(shape, rows.drop_last(), known)
    } else {
        untracked(shape, rows.drop_last(), known).push(encoded_pk(shape, rows.last()))
    }
}

/// Lists the rows of a table that have no sentinel of a living row.
pub open spec fn untracked_script(tables: Seq<TableView>, table: Seq<char>) -> Script<
    Result<Seq<Seq<char>>, ErrorView>,
> {
    match table_of(tables, table) {
        Some(spec) => query(
            StatementView::SelectKeys { table, columns: key_columns(spec.pk) },
        ).and(
            |rows: Rows|
                query(StatementView::SelectSentinels { table }).and(
                    |sentinels: Rows| done(untracked(spec.pk, rows, live_pks(sentinels))),
                ),
        ),
        None => done(Seq::empty()),
    }
}

fn column_names(shape: &PkSpec) -> (columns: Vec<String>)
    ensures
        texts_view(columns@) == key_columns(shape@),
{
    let mut columns: Vec<String> = Vec::new();
    match shape {
        PkSpec::Single { column } => {
            columns.push(column.clone());
        },
        PkSpec::Composite { columns: pair, sep } => {
            columns.push(pair.0.clone());
            columns.push(pair.1.clone());
        },
    }
    assert(texts_view(columns@) =~= key_columns(shape@));
    columns
}

fn encode_pk(shape: &PkSpec, row: &Row) -> (pk: String)
    ensures
        pk@ == encoded_pk(shape@, row@),
{
    match shape {
        PkSpec::Single { column } => row.get(0).text_or_empty(),
        PkSpec::Composite { columns, sep } => {
            let mut pk = row.get(0).text_or_empty();
            pk.push(*sep);
            pk.append(row.get(1).text_or_empty().as_str());
            pk
        },
    }
}

/// The key texts of `rows`.
fn encode_pks(shape: &PkSpec, rows: &Vec<Row>) -> (pks: Vec<String>)
    ensures
        pks@.len() == rows@.len(),
        forall|k: int| 0 <= k < pks@.len() ==> #[trigger] pks@[k]@ == encoded_pk(shape@, rows@[k]@),
{
    let mut pks: Vec<String> = Vec::new();
    for i in 0..rows.len()
        invariant
            pks@.len() == i,
            forall|k: int| 0 <= k < i ==> #[trigger] pks@[k]@ == encoded_pk(shape@, rows@[k]@),
    {
        pks.push(encode_pk(shape, &rows[i]));
    }
    pks
}

/// What to complain of where rows of a table are not tracked.
pub open spec fn complaint(table: Seq<char>, pks: Seq<Seq<char>>) -> Option<Seq<char>> {
    if pks.len() == 0 {
        None
    } else {
        Some(
            "recrr: "@ + decimal(pks.len()) + " untracked row(s) in `"@ + table
                + "` (missing a track_* call): ["@ + joined(
                pks.map_values(|pk: Seq<char>| debug_text(pk)),
                ", "@,
            ) + "]"@,
        )
    }
}

/// What to complain of where `pks` are the rows of `table` that are not tracked.
pub fn complain(table: &str, pks: &Vec<String>) -> (message: Option<String>)
    ensures
        complaint(table@, texts_view(pks@)) == (match message {
            Some(text) => Some(text@),
            None => None,
        }),
{
    if pks.len() == 0 {
        return None;
    }
    let mut quoted: Vec<String> = Vec::new();
    for i in 0..pks.len()
        invariant
            quoted@.len() == i,
            forall|k: int| 0 <= k < i ==> #[trigger] quoted@[k]@ == debug_text(pks@[k]@),
    {
        quoted.push(debug_str(pks[i].as_str()));
    }
    assert(texts_view(quoted@) =~= texts_view(pks@).map_values(|pk: Seq<char>| debug_text(pk)));
    let mut text = "recrr: ".to_owned();
    text.append(decimal_text(pks.len() as u64).as_str());
    text.append(" untracked row(s) in `");
    text.append(table);
    text.append("` (missing a track_* call): [");
    text.append(join(&quoted, ", ").as_str());
    text.append("]");
    Some(text)
}

impl<D> Crr<D> {
    /// Primary keys of real rows in `table` that are not tracked as alive: rows you inserted
    /// without running [`Crr::track_insert`].
    ///
    /// A key is "tracked" if the clock table has a **live** sentinel entry for it (causal length
    /// odd), matching how a real, existing row is represented. The returned keys are encoded
    /// exactly as the clock table stores them (for a composite key, `"a{sep}b"`).
    ///
    /// An empty result means every row is tracked. Returns an error only if the underlying queries
    /// fail; an unknown table yields an empty result.
    pub fn untracked_rows(&self, j: &mut Journal, table: &str) -> (step: Step<Vec<String>>)
        ensures
            old(j).follows(
                *final(j),
                untracked_script(self.tables(), table@),
                match step {
                    Ok(Ok(pks)) => Turn::Done(Ok(texts_view(pks@))),
                    Ok(Err(error)) => Turn::Done(Err(error@)),
                    Err(halt) => halted(halt),
                },
            ),
    {
        let mut missing: Vec<String> = Vec::new();
        assert(texts_view(missing@) =~= Seq::empty());
        let spec = match self.schema().table(table) {
            Some(spec) => spec,
            None => return Ok(Ok(missing)),
        };
        let columns = column_names(&spec.pk);
        let ghost mut rows_seen: Rows = Seq::empty();
        let pks = match j.query(Statement::SelectKeys { table: table.to_owned(), columns })? {
            Ok(rows) => {
                proof {
                    rows_seen = rows_view(rows@);
                }
                encode_pks(&spec.pk, rows)
            },
            Err(error) => return Ok(Err(error)),
        };
        let live = match j.query(Statement::SelectSentinels { table: table.to_owned() })? {
            Ok(rows) => read_live_pks(rows),
            Err(error) => return Ok(Err(error)),
        };
        let ghost known = texts_view(live@);
        let mut set = StringHashSet::new();
        for i in 0..live.len()
            invariant
                known == texts_view(live@),
                forall|pk: Seq<char>| #[trigger]
                    set@.contains(pk) == known.take(i as int).contains(pk),
        {
            set.insert(live[i].clone());
            proof {
                assert(known.take(i + 1) =~= known.take(i as int).push(known[i as int]));
                assert forall|pk: Seq<char>| #[trigger] set@.contains(pk) == known.take(
                    i + 1,
                ).contains(pk) by {
                    let shorter = known.take(i as int);
                    if shorter.contains(pk) {
                        let k = choose|k: int| 0 <= k < shorter.len() && shorter[k] == pk;
                        assert(known.take(i + 1)[k] == pk);
                    }
                    if known[i as int] == pk {
                        assert(known.take(i + 1)[i as int] == pk);
                    }
                }
            }
        }
        assert(known.take(known.len() as int) =~= known);
        for i in 0..pks.len()
            invariant
                pks@.len() == rows_seen.len(),
                forall|k: int|
                    0 <= k < pks@.len() ==> #[trigger] pks@[k]@ == encoded_pk(
                        spec.pk@,
                        rows_seen[k],
                    ),
                forall|pk: Seq<char>| #[trigger] set@.contains(pk) == known.contains(pk),
                texts_view(missing@) == untracked(spec.pk@, rows_seen.take(i as int), known),
        {
            assert(rows_seen.take(i + 1).drop_last() =~= rows_seen.take(i as int));
            if !set.contains(pks[i].as_str()) {
                let ghost sofar = missing@;
                missing.push(pks[i].clone());
                assert(texts_view(missing@) =~= texts_view(sofar).push(pks@[i as int]@));
            }
        }
        assert(rows_seen.take(rows_seen.len() as int) =~= rows_seen);
        Ok(Ok(missing))
    }

    /// Asserts that every row of `table` is tracked: gives what to panic with where one is not. The
    /// message lists the offending primary keys.
    pub fn debug_assert_all_tracked(&self, j: &mut Journal, table: &str) -> (step: Step<
        Option<String>,
    >)
        ensures
            old(j).follows(
                *final(j),
                untracked_script(self.tables(), table@).and(
                    |pks: Seq<Seq<char>>| done(complaint(table@, pks)),
                ),
                match step {
                    Ok(Ok(Some(text))) => Turn::Done(Ok(Some(text@))),
                    Ok(Ok(None)) => Turn::Done(Ok(None)),
                    Ok(Err(error)) => Turn::Done(Err(error@)),
                    Err(halt) => halted(halt),
                },
            ),
    {
        match self.untracked_rows(j, table)? {
            Ok(pks) => Ok(Ok(complain(table, &pks))),
            Err(error) => Ok(Err(error)),
        }
    }
}

} // verus!
