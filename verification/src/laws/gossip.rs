//! What replicas hold that have nothing more to tell each other.
use vstd::prelude::*;

use crate::ChangeView;
use crate::database::Database;
use crate::database::Order;
use crate::helpers::decodes;
use crate::helpers::key_of;
use crate::laws::convergence::brought;
use crate::laws::convergence::law_conflicts_resolve;
use crate::laws::convergence::outranks;
use crate::laws::replica::held;
use crate::laws::replica::lemma_row_kept;
use crate::laws::replica::lemma_table_of;
use crate::laws::replica::length_of;
use crate::laws::replica::row_of;
use crate::laws::replica::same_rows;
use crate::laws::replica::sound;
use crate::laws::replica::spent;
use crate::laws::replica::table_kept;
use crate::laws::replica::was_written;
use crate::laws::replica::written;
use crate::laws::sync::is_news;
use crate::laws::sync::law_changes_since_tells_news;
use crate::laws::sync::lemma_storable_told;
use crate::laws::sync::lists_news;
use crate::laws::sync::outgoing;
use crate::laws::sync::stamp_at;
use crate::laws::sync::tells_news;
use crate::laws::sync::tidy;
use crate::laws::sync::told;
use crate::schema::SENTINEL;
use crate::schema::TableView;
use crate::schema::table_of;

verus! {

broadcast use lemma_table_of;

/// Whether all that a replica can tell has nothing left to do at another one.
pub open spec fn nothing_new(
    tables: Seq<TableView>,
    from: Database,
    to: Database,
    order: Order,
    since: i64,
) -> bool {
    forall|x: ChangeView| #[trigger]
        outgoing(tables, from, order, since).contains(x) ==> spent(tables, to, x)
}

/// What a clock entry tells has nothing left to do at the other replica.
proof fn lemma_told_spent(
    tables: Seq<TableView>,
    a: Database,
    b: Database,
    order: Order,
    since: i64,
    name: Seq<char>,
    pk: Seq<char>,
    column: Seq<char>,
)
    requires
        sound(a, tables),
        tidy(tables, a, since),
        forall|name: Seq<char>| #[trigger]
            table_of(tables, name) is Some ==> lists_news(a, order, name, since),
        nothing_new(tables, a, b, order, since),
        table_of(tables, name) is Some,
        a.clocks.dom().contains((name, pk, column)),
    ensures
        spent(tables, b, told(tables, a, name, stamp_at(a, name, pk, column))),
{
    law_changes_since_tells_news(tables, a, order, since);
    let x = told(tables, a, name, stamp_at(a, name, pk, column));
    assert(is_news(a, name, pk, column, since));
    assert(tells_news(tables, a, since, x));
    assert(outgoing(tables, a, order, since).contains(x));
}

proof fn lemma_no_longer(
    tables: Seq<TableView>,
    a: Database,
    b: Database,
    order: Order,
    since: i64,
    name: Seq<char>,
    pk: Seq<char>,
)
    requires
        sound(a, tables),
        sound(b, tables),
        tidy(tables, a, since),
        forall|name: Seq<char>| #[trigger]
            table_of(tables, name) is Some ==> lists_news(a, order, name, since),
        nothing_new(tables, a, b, order, since),
        table_of(tables, name) is Some,
        decodes(table_of(tables, name)->0.pk, pk),
    ensures
        length_of(a, name, pk) <= length_of(b, name, pk),
{
    let table = table_of(tables, name)->0;
    assert(table_kept(b, table));
    lemma_row_kept(b, table, pk);
    if a.clocks.dom().contains((name, pk, SENTINEL@)) {
        lemma_told_spent(tables, a, b, order, since, name, pk, SENTINEL@);
    }
}

proof fn lemma_no_greater(
    tables: Seq<TableView>,
    a: Database,
    b: Database,
    order: Order,
    since: i64,
    name: Seq<char>,
    pk: Seq<char>,
    column: Seq<char>,
)
    requires
        sound(a, tables),
        tidy(tables, a, since),
        forall|name: Seq<char>| #[trigger]
            table_of(tables, name) is Some ==> lists_news(a, order, name, since),
        nothing_new(tables, a, b, order, since),
        table_of(tables, name) is Some,
        decodes(table_of(tables, name)->0.pk, pk),
        length_of(a, name, pk) == length_of(b, name, pk),
        row_of(a, table_of(tables, name)->0, pk).cells.dom().contains(column),
    ensures
        row_of(b, table_of(tables, name)->0, pk).cells.dom().contains(column),
        !outranks(
            row_of(a, table_of(tables, name)->0, pk).cells[column],
            row_of(b, table_of(tables, name)->0, pk).cells[column],
        ),
{
    let table = table_of(tables, name)->0;
    assert(table_kept(a, table));
    assert(was_written(a, table, pk, column));
    assert(a.clocks.dom().contains((name, pk, column)));
    lemma_told_spent(tables, a, b, order, since, name, pk, column);
    let x = told(tables, a, name, stamp_at(a, name, pk, column));
    lemma_storable_told((a.cells)(name, key_of(table.pk, pk), column));
    assert(brought(x) == written(a, table, pk, column));
    assert(!outranks(brought(x), held(b, table, pk, column)));
    assert(was_written(b, table, pk, column));
    assert(held(b, table, pk, column) == written(b, table, pk, column));
}

/// Replicas that have nothing more to tell each other hold the same rows, whatever came before.
pub proof fn law_settled_replicas_agree(
    tables: Seq<TableView>,
    a: Database,
    b: Database,
    order: Order,
    since: i64,
)
    requires
        sound(a, tables),
        sound(b, tables),
        tidy(tables, a, since),
        tidy(tables, b, since),
        forall|name: Seq<char>| #[trigger]
            table_of(tables, name) is Some ==> lists_news(a, order, name, since) && lists_news(
                b,
                order,
                name,
                since,
            ),
        nothing_new(tables, a, b, order, since),
        nothing_new(tables, b, a, order, since),
    ensures
        same_rows(tables, a, b),
{
    assert forall|name: Seq<char>, pk: Seq<char>|
        table_of(tables, name) is Some && decodes(
            table_of(tables, name)->0.pk,
            pk,
        ) implies #[trigger] row_of(a, table_of(tables, name)->0, pk) == row_of(
        b,
        table_of(tables, name)->0,
        pk,
    ) by {
        let table = table_of(tables, name)->0;
        let row_a = row_of(a, table, pk);
        let row_b = row_of(b, table, pk);
        lemma_no_longer(tables, a, b, order, since, name, pk);
        lemma_no_longer(tables, b, a, order, since, name, pk);
        assert forall|c: Seq<char>| #[trigger]
            row_a.cells.dom().contains(c) implies row_b.cells.dom().contains(c) && row_a.cells[c]
            == row_b.cells[c] by {
            lemma_no_greater(tables, a, b, order, since, name, pk, c);
            lemma_no_greater(tables, b, a, order, since, name, pk, c);
            law_conflicts_resolve(row_a.cells[c], row_b.cells[c]);
        }
        assert forall|c: Seq<char>| #[trigger]
            row_b.cells.dom().contains(c) implies row_a.cells.dom().contains(c) by {
            lemma_no_greater(tables, b, a, order, since, name, pk, c);
        }
        assert(row_a.cells =~= row_b.cells);
    }
}

} // verus!
