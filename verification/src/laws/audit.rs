//! Laws of the audit.
use vstd::prelude::*;

use crate::alive;
use crate::audit::complaint;
use crate::audit::encoded_pk;
use crate::audit::key_columns;
use crate::audit::untracked;
use crate::audit::untracked_script;
use crate::database::Database;
use crate::database::Order;
use crate::database::converse;
use crate::database::group_converse;
use crate::flow::Rows;
use crate::helpers::decodes;
use crate::helpers::key_of;
use crate::laws::migration::lemma_live_rows;
use crate::laws::migration::lists_sentinels;
use crate::laws::replica::length_of;
use crate::laws::replica::row_kept;
use crate::laws::replica::sound;
use crate::laws::replica::table_kept;
use crate::migrate::live_pks;
use crate::schema::PkView;
use crate::schema::TableView;
use crate::schema::table_of;
use crate::statement::StatementView;
use crate::text::debug_text;
use crate::text::decimal;
use crate::text::joined;
use crate::text::lemma_join_halves;
use crate::value::ErrorView;
use crate::value::SqlValue;

verus! {

broadcast use group_converse;

proof fn lemma_untracked_members(shape: PkView, rows: Rows, known: Seq<Seq<char>>)
    ensures
        forall|pk: Seq<char>| #[trigger]
            untracked(shape, rows, known).contains(pk) <==> !known.contains(pk) && exists|i: int|
                #![trigger rows[i]]
                0 <= i < rows.len() && encoded_pk(shape, rows[i]) == pk,
    decreases rows.len(),
{
    if rows.len() > 0 {
        let rest = rows.drop_last();
        lemma_untracked_members(shape, rest, known);
        let all = untracked(shape, rows, known);
        let shorter = untracked(shape, rest, known);
        let last = rows.len() - 1;
        assert forall|pk: Seq<char>| #[trigger] all.contains(pk) <==> !known.contains(pk)
            && exists|i: int|
            #![trigger rows[i]]
            0 <= i < rows.len() && encoded_pk(shape, rows[i]) == pk by {
            if all.contains(pk) {
                let k = choose|k: int| 0 <= k < all.len() && all[k] == pk;
                if k < shorter.len() {
                    assert(shorter[k] == pk);
                    assert(shorter.contains(pk));
                    let i = choose|i: int|
                        #![trigger rest[i]]
                        0 <= i < rest.len() && encoded_pk(shape, rest[i]) == pk;
                    assert(rows[i] == rest[i]);
                } else {
                    assert(rows[last] == rows.last());
                }
            }
            if !known.contains(pk) && exists|i: int|
                #![trigger rows[i]]
                0 <= i < rows.len() && encoded_pk(shape, rows[i]) == pk {
                let i = choose|i: int|
                    #![trigger rows[i]]
                    0 <= i < rows.len() && encoded_pk(shape, rows[i]) == pk;
                if i < last {
                    assert(rest[i] == rows[i]);
                    assert(shorter.contains(pk));
                    let k = choose|k: int| 0 <= k < shorter.len() && shorter[k] == pk;
                    assert(all[k] == pk);
                } else {
                    assert(all[all.len() - 1] == pk);
                }
            }
        }
    }
}

proof fn lemma_untracked_filter(shape: PkView, rows: Rows, known: Seq<Seq<char>>)
    ensures
        untracked(shape, rows, known) == rows.map_values(
            |row: Seq<SqlValue>| encoded_pk(shape, row),
        ).filter(|pk: Seq<char>| !known.contains(pk)),
    decreases rows.len(),
{
    reveal(Seq::filter);
    let encode = |row: Seq<SqlValue>| encoded_pk(shape, row);
    if rows.len() > 0 {
        lemma_untracked_filter(shape, rows.drop_last(), known);
        assert(rows.map_values(encode).drop_last() =~= rows.drop_last().map_values(encode));
        assert(rows.map_values(encode).last() == encoded_pk(shape, rows.last()));
    } else {
        assert(rows.map_values(encode) =~= Seq::empty());
    }
}

proof fn lemma_same_filter(list: Seq<Seq<char>>, f: spec_fn(Seq<char>) -> bool, g: spec_fn(
    Seq<char>,
) -> bool)
    requires
        forall|x: Seq<char>| #[trigger] f(x) == g(x),
    ensures
        list.filter(f) == list.filter(g),
    decreases list.len(),
{
    reveal(Seq::filter);
    if list.len() > 0 {
        lemma_same_filter(list.drop_last(), f, g);
        assert(f(list.last()) == g(list.last()));
    }
}

/// The audit tells the key texts of all rows of a table that are not tracked as alive, in the order
/// in which the rows are listed. Of a table that is not known it tells nothing.
pub proof fn law_audit_keeps_the_order(
    tables: Seq<TableView>,
    db: Database,
    order: Order,
    table: TableView,
    unknown: Seq<char>,
)
    requires
        table_of(tables, table.name) == Some(table),
        db.clock_tables.contains(table.name),
        db.tables.contains(table.name),
        lists_sentinels(db, order, table.name),
        table_of(tables, unknown) is None,
    ensures
        ({
            let rows = order(
                db,
                StatementView::SelectKeys { table: table.name, columns: key_columns(table.pk) },
            );
            converse(untracked_script(tables, table.name), db, order).0 == Some(
                Ok::<Seq<Seq<char>>, ErrorView>(
                    rows.map_values(|row: Seq<SqlValue>| encoded_pk(table.pk, row)).filter(
                        |pk: Seq<char>| !alive(length_of(db, table.name, pk)),
                    ),
                ),
            )
        }),
        converse(untracked_script(tables, unknown), db, order) == (
            Some(Ok::<Seq<Seq<char>>, ErrorView>(Seq::empty())),
            db,
        ),
{
    let rows = order(
        db,
        StatementView::SelectKeys { table: table.name, columns: key_columns(table.pk) },
    );
    let known = live_pks(order(db, StatementView::SelectSentinels { table: table.name }));
    let keys = rows.map_values(|row: Seq<SqlValue>| encoded_pk(table.pk, row));
    lemma_live_rows(db, order, table.name);
    lemma_untracked_filter(table.pk, rows, known);
    lemma_same_filter(
        keys,
        |pk: Seq<char>| !known.contains(pk),
        |pk: Seq<char>| !alive(length_of(db, table.name, pk)),
    );
}

/// There is something to complain of exactly if a row is not tracked. The complaint tells how many
/// there are, of which table, and the key of each.
pub proof fn law_complaints_tell_the_rows(table: Seq<char>, pks: Seq<Seq<char>>)
    ensures
        complaint(table, pks) is None <==> pks.len() == 0,
        complaint(table, pks) matches Some(text) ==> text == "recrr: "@ + decimal(pks.len())
            + " untracked row(s) in `"@ + table + "` (missing a track_* call): ["@ + joined(
            Seq::new(pks.len(), |i: int| debug_text(pks[i])),
            ", "@,
        ) + "]"@,
{
    assert(pks.map_values(|pk: Seq<char>| debug_text(pk)) =~= Seq::new(
        pks.len(),
        |i: int| debug_text(pks[i]),
    ));
}

/// Texts are joined one behind the other, with the separator before each but the first.
pub proof fn law_texts_are_joined(parts: Seq<Seq<char>>, sep: Seq<char>, next: Seq<char>)
    ensures
        joined(Seq::empty(), sep) == Seq::<char>::empty(),
        joined(seq![next], sep) == next,
        parts.len() > 0 ==> joined(parts.push(next), sep) == joined(parts, sep) + sep + next,
{
    assert(parts.push(next).drop_last() =~= parts);
}

/// The audit finds exactly the rows of a table that are not tracked as alive, and changes nothing.
pub proof fn law_audit_finds_untracked_rows(
    tables: Seq<TableView>,
    db: Database,
    order: Order,
    table: TableView,
)
    requires
        table_of(tables, table.name) == Some(table),
        db.clock_tables.contains(table.name),
        db.tables.contains(table.name),
        lists_sentinels(db, order, table.name),
    ensures
        ({
            let rows = order(
                db,
                StatementView::SelectKeys { table: table.name, columns: key_columns(table.pk) },
            );
            let (outcome, after) = converse(untracked_script(tables, table.name), db, order);
            &&& after == db
            &&& outcome is Some
            &&& outcome->0 is Ok
            &&& forall|pk: Seq<char>| #[trigger]
                outcome->0->Ok_0.contains(pk) <==> !alive(length_of(db, table.name, pk))
                    && exists|i: int|
                    #![trigger rows[i]]
                    0 <= i < rows.len() && encoded_pk(table.pk, rows[i]) == pk
        }),
{
    let rows = order(
        db,
        StatementView::SelectKeys { table: table.name, columns: key_columns(table.pk) },
    );
    let sentinels = order(db, StatementView::SelectSentinels { table: table.name });
    lemma_live_rows(db, order, table.name);
    lemma_untracked_members(table.pk, rows, live_pks(sentinels));
}

/// The key text that the audit gives of a row stands for that row: its key columns are read back
/// from it. Of two key columns, the first must be free of the separator.
pub proof fn law_key_texts_read_back(shape: PkView, a: Seq<char>, b: Seq<char>)
    requires
        shape matches PkView::Composite { columns, sep } ==> !a.contains(sep),
    ensures
        match shape {
            PkView::Single { column } => key_of(
                shape,
                encoded_pk(shape, seq![SqlValue::Text(a)]),
            ) == seq![(column, a)],
            PkView::Composite { columns, sep } => key_of(
                shape,
                encoded_pk(shape, seq![SqlValue::Text(a), SqlValue::Text(b)]),
            ) == seq![(columns.0, a), (columns.1, b)],
        },
{
    if let PkView::Composite { columns, sep } = shape {
        lemma_join_halves(a, sep, b);
    }
}

/// Whether the rows that a database lists are those of a table, each with a key text that stands
/// for it.
pub open spec fn lists_rows(db: Database, order: Order, table: TableView) -> bool {
    let rows = order(
        db,
        StatementView::SelectKeys { table: table.name, columns: key_columns(table.pk) },
    );
    forall|i: int|
        #![trigger rows[i]]
        0 <= i < rows.len() ==> decodes(table.pk, encoded_pk(table.pk, rows[i]))
            && db.rows.contains(
            (table.name, key_of(table.pk, encoded_pk(table.pk, rows[i]))),
        )
}

/// In a sound replica the audit finds nothing: every row is tracked.
pub proof fn law_sound_replica_passes_audit(
    tables: Seq<TableView>,
    db: Database,
    order: Order,
    table: TableView,
)
    requires
        sound(db, tables),
        table_of(tables, table.name) == Some(table),
        lists_sentinels(db, order, table.name),
        lists_rows(db, order, table),
    ensures
        converse(untracked_script(tables, table.name), db, order).0 == Some(
            Ok::<Seq<Seq<char>>, ErrorView>(Seq::empty()),
        ),
{
    assert(table_kept(db, table));
    law_audit_finds_untracked_rows(tables, db, order, table);
    let rows = order(
        db,
        StatementView::SelectKeys { table: table.name, columns: key_columns(table.pk) },
    );
    let found = converse(untracked_script(tables, table.name), db, order).0->0->Ok_0;
    if found.len() > 0 {
        assert(found.contains(found[0]));
        let i = choose|i: int|
            #![trigger rows[i]]
            0 <= i < rows.len() && encoded_pk(table.pk, rows[i]) == found[0];
        assert(decodes(table.pk, found[0]));
        assert(row_kept(db, table, found[0]));
    }
    assert(found =~= Seq::empty());
}

} // verus!
