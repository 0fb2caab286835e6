//! What comes of applying changes more than once.
use vstd::prelude::*;

use crate::ChangeView;
use crate::MergeResult;
use crate::database::Database;
use crate::database::Order;
use crate::database::converse;
use crate::helpers::decodes;
use crate::laws::convergence::RowView;
use crate::laws::convergence::brought;
use crate::laws::convergence::is_sentinel;
use crate::laws::convergence::law_conflicts_transitive;
use crate::laws::convergence::lemma_replay_append;
use crate::laws::convergence::merged;
use crate::laws::convergence::outranks;
use crate::laws::convergence::replay;
use crate::laws::replica::fitting;
use crate::laws::replica::held;
use crate::laws::replica::law_apply_any_order;
use crate::laws::replica::law_apply_replays;
use crate::laws::replica::law_change_merges_into_its_row;
use crate::laws::replica::lemma_apply_starts;
use crate::laws::replica::lemma_change_step;
use crate::laws::replica::lemma_merge_over;
use crate::laws::replica::lemma_merge_step;
use crate::laws::replica::lemma_of_row_members;
use crate::laws::replica::lemma_row_kept;
use crate::laws::replica::lemma_table_of;
use crate::laws::replica::length_of;
use crate::laws::replica::of_row;
use crate::laws::replica::row_of;
use crate::laws::replica::same_rows;
use crate::laws::replica::sound;
use crate::laws::replica::spent;
use crate::laws::replica::table_kept;
use crate::laws::replica::was_written;
use crate::merge::Gate;
use crate::merge::apply_script;
use crate::merge::gate;
use crate::merge::merge_script;
use crate::merge::verdict_script;
use crate::schema::TableView;
use crate::schema::table_of;
use crate::schema::tracks;

verus! {

/// Changes that have nothing left to do are not applied and leave the database as it is.
proof fn lemma_spent_rest(
    tables: Seq<TableView>,
    db: Database,
    order: Order,
    changes: Seq<ChangeView>,
    now: Seq<char>,
    from: int,
    tally: MergeResult,
)
    requires
        sound(db, tables),
        0 <= from <= changes.len(),
        forall|i: int|
            0 <= i < changes.len() ==> fitting(#[trigger] changes[i]) && spent(
                tables,
                db,
                changes[i],
            ),
    ensures
        ({
            let (outcome, after) = converse(
                merge_script(tables, changes, now, from, tally),
                db,
                order,
            );
            &&& outcome is Some
            &&& outcome->0 is Ok
            &&& outcome->0->Ok_0.applied == tally.applied
            &&& after == db
        }),
    decreases changes.len() - from,
{
    if from < changes.len() {
        let change = changes[from];
        assert(spent(tables, db, change));
        law_change_merges_into_its_row(tables, db, order, change, now);
        lemma_change_step(tables, db, order, change, now);
        let (verdict, middle) = converse(verdict_script(tables, change, now), db, order);
        lemma_merge_step(tables, db, order, changes, now, from, tally);
        lemma_spent_rest(
            tables,
            db,
            order,
            changes,
            now,
            from + 1,
            tally.counted(verdict->0->Ok_0),
        );
    } else {
        lemma_merge_over(tables, db, order, changes, now, tally);
    }
}

/// A change that has nothing left to do has nothing left to do after others either.
proof fn lemma_stays_spent(
    tables: Seq<TableView>,
    db: Database,
    order: Order,
    change: ChangeView,
    now: Seq<char>,
    x: ChangeView,
)
    requires
        sound(db, tables),
        fitting(change),
        spent(tables, db, x),
    ensures
        spent(tables, converse(verdict_script(tables, change, now), db, order).1, x),
{
    broadcast use lemma_table_of;

    lemma_change_step(tables, db, order, change, now);
    let after = converse(verdict_script(tables, change, now), db, order).1;
    if tracks(tables, x.table_name, x.col_name) {
        let table = table_of(tables, x.table_name)->0;
        assert(length_of(db, x.table_name, x.pk) <= length_of(after, x.table_name, x.pk));
        let before = held(db, table, x.pk, x.col_name);
        let later = held(after, table_of(tables, x.table_name)->0, x.pk, x.col_name);
        if outranks(brought(x), later) && outranks(later, before) {
            law_conflicts_transitive(brought(x), later, before);
        }
    }
}

/// What a merged change leaves, of the replica and of another change.
proof fn lemma_spent_step(
    tables: Seq<TableView>,
    db: Database,
    order: Order,
    change: ChangeView,
    now: Seq<char>,
    x: ChangeView,
)
    requires
        sound(db, tables),
        fitting(change),
    ensures
        ({
            let (verdict, middle) = converse(verdict_script(tables, change, now), db, order);
            &&& verdict is Some
            &&& verdict->0 is Ok
            &&& sound(middle, tables)
            &&& spent(tables, db, x) || change == x ==> spent(tables, middle, x)
        }),
{
    law_change_merges_into_its_row(tables, db, order, change, now);
    lemma_change_step(tables, db, order, change, now);
    if spent(tables, db, x) {
        lemma_stays_spent(tables, db, order, change, now, x);
    }
}

/// Each of the changes that are merged has nothing left to do at the end, and so has any that had
/// nothing left to do before.
proof fn lemma_merged_are_spent(
    tables: Seq<TableView>,
    db: Database,
    order: Order,
    changes: Seq<ChangeView>,
    now: Seq<char>,
    from: int,
    tally: MergeResult,
    at: int,
    x: ChangeView,
)
    requires
        sound(db, tables),
        0 <= from <= changes.len(),
        forall|i: int| 0 <= i < changes.len() ==> fitting(#[trigger] changes[i]),
        spent(tables, db, x) || (from <= at < changes.len() && changes[at] == x),
    ensures
        spent(tables, converse(merge_script(tables, changes, now, from, tally), db, order).1, x),
    decreases changes.len() - from,
{
    if from < changes.len() {
        let change = changes[from];
        let (verdict, middle) = converse(verdict_script(tables, change, now), db, order);
        lemma_spent_step(tables, db, order, change, now, x);
        lemma_merge_step(tables, db, order, changes, now, from, tally);
        lemma_merged_are_spent(
            tables,
            middle,
            order,
            changes,
            now,
            from + 1,
            tally.counted(verdict->0->Ok_0),
            at,
            x,
        );
    } else {
        lemma_merge_over(tables, db, order, changes, now, tally);
    }
}

/// After changes were applied, each of them has nothing left to do.
pub proof fn law_applied_changes_are_spent(
    tables: Seq<TableView>,
    db: Database,
    order: Order,
    changes: Seq<ChangeView>,
    now: Seq<char>,
    at: int,
)
    requires
        sound(db, tables),
        forall|i: int| 0 <= i < changes.len() ==> fitting(#[trigger] changes[i]),
        0 <= at < changes.len(),
    ensures
        spent(tables, converse(apply_script(tables, changes, now), db, order).1, changes[at]),
{
    lemma_apply_starts(tables, db, order, changes, now);
    lemma_merged_are_spent(
        tables,
        db,
        order,
        changes,
        now,
        0,
        MergeResult::none(),
        at,
        changes[at],
    );
}

/// Applying changes is idempotent: applied a second time, none of them is applied and the database
/// stays as it is.
pub proof fn law_apply_again_changes_nothing(
    tables: Seq<TableView>,
    db: Database,
    order: Order,
    changes: Seq<ChangeView>,
    now: Seq<char>,
    later: Seq<char>,
)
    requires
        sound(db, tables),
        forall|i: int| 0 <= i < changes.len() ==> fitting(#[trigger] changes[i]),
    ensures
        ({
            let once = converse(apply_script(tables, changes, now), db, order).1;
            let (outcome, twice) = converse(apply_script(tables, changes, later), once, order);
            &&& outcome is Some
            &&& outcome->0 is Ok
            &&& outcome->0->Ok_0.applied == 0
            &&& twice == once
        }),
{
    law_apply_replays(tables, db, order, changes, now);
    let once = converse(apply_script(tables, changes, now), db, order).1;
    assert forall|i: int| 0 <= i < changes.len() implies fitting(
        #[trigger] changes[i],
    ) && spent(tables, once, changes[i]) by {
        law_applied_changes_are_spent(tables, db, order, changes, now, i);
    }
    lemma_apply_starts(tables, once, order, changes, later);
    lemma_spent_rest(tables, once, order, changes, later, 0, MergeResult::none());
}

/// A change that has nothing left to do does not change its row.
proof fn lemma_spent_keeps_row(tables: Seq<TableView>, db: Database, x: ChangeView)
    requires
        tracks(tables, x.table_name, x.col_name),
        spent(tables, db, x),
        decodes(table_of(tables, x.table_name)->0.pk, x.pk),
        length_of(db, x.table_name, x.pk) >= 0,
    ensures
        ({
            let row = row_of(db, table_of(tables, x.table_name)->0, x.pk);
            merged(row, x) == row
        }),
{
    broadcast use lemma_table_of;

    let table = table_of(tables, x.table_name)->0;
    let row = row_of(db, table, x.pk);
    if !is_sentinel(x) && gate(row.cl, x.cl) == Gate::Open && x.col_ver >= 1 {
        assert(was_written(db, table, x.pk, x.col_name));
        assert(row.cells.dom().contains(x.col_name));
        assert(row.cells[x.col_name] == held(db, table, x.pk, x.col_name));
    }
}

/// Changes that do not change a row one by one do not change it one after the other.
proof fn lemma_idle(row: RowView, changes: Seq<ChangeView>)
    requires
        forall|i: int| 0 <= i < changes.len() ==> merged(row, #[trigger] changes[i]) == row,
    ensures
        replay(row, changes) == row,
    decreases changes.len(),
{
    if changes.len() > 0 {
        let head = changes.drop_last();
        assert forall|i: int| 0 <= i < head.len() implies merged(row, #[trigger] head[i])
            == row by {
            assert(head[i] == changes[i]);
        }
        lemma_idle(row, head);
        assert(changes.last() == changes[changes.len() - 1]);
    }
}

/// The changes of one row in two lists, one after the other.
proof fn lemma_of_row_append(
    tables: Seq<TableView>,
    a: Seq<ChangeView>,
    b: Seq<ChangeView>,
    name: Seq<char>,
    pk: Seq<char>,
)
    ensures
        of_row(tables, a + b, name, pk) == of_row(tables, a, name, pk) + of_row(
            tables,
            b,
            name,
            pk,
        ),
    decreases a.len(),
{
    if a.len() == 0 {
        assert(a + b =~= b);
        assert(of_row(tables, a, name, pk) + of_row(tables, b, name, pk) =~= of_row(
            tables,
            b,
            name,
            pk,
        ));
    } else {
        assert((a + b).drop_first() =~= a.drop_first() + b);
        lemma_of_row_append(tables, a.drop_first(), b, name, pk);
        assert(of_row(tables, a + b, name, pk) =~= of_row(tables, a, name, pk) + of_row(
            tables,
            b,
            name,
            pk,
        ));
    }
}

/// A replica need not be told again what has nothing left to do: to apply only the news leads to
/// the same rows as to apply all changes, in whatever order.
pub proof fn law_news_suffice(
    tables: Seq<TableView>,
    db: Database,
    order: Order,
    all: Seq<ChangeView>,
    old: Seq<ChangeView>,
    news: Seq<ChangeView>,
    now: Seq<char>,
    later: Seq<char>,
)
    requires
        sound(db, tables),
        forall|i: int| 0 <= i < all.len() ==> fitting(#[trigger] all[i]),
        all.to_set() == (old + news).to_set(),
        forall|i: int| 0 <= i < old.len() ==> spent(tables, db, #[trigger] old[i]),
    ensures
        same_rows(
            tables,
            converse(apply_script(tables, all, now), db, order).1,
            converse(apply_script(tables, news, later), db, order).1,
        ),
{
    broadcast use lemma_table_of;

    let joined = old + news;
    assert forall|i: int| 0 <= i < joined.len() implies fitting(#[trigger] joined[i]) by {
        assert(joined.to_set().contains(joined[i]));
        assert(all.to_set().contains(joined[i]));
        assert(all.contains(joined[i]));
    }
    assert forall|i: int| 0 <= i < news.len() implies fitting(#[trigger] news[i]) by {
        assert(joined[old.len() + i] == news[i]);
    }
    law_apply_any_order(tables, db, order, all, joined, now, later);
    law_apply_replays(tables, db, order, joined, later);
    law_apply_replays(tables, db, order, news, later);
    let full = converse(apply_script(tables, all, now), db, order).1;
    let both = converse(apply_script(tables, joined, later), db, order).1;
    let after = converse(apply_script(tables, news, later), db, order).1;
    assert forall|name: Seq<char>, pk: Seq<char>|
        table_of(tables, name) is Some && decodes(
            table_of(tables, name)->0.pk,
            pk,
        ) implies #[trigger] row_of(full, table_of(tables, name)->0, pk) == row_of(
        after,
        table_of(tables, name)->0,
        pk,
    ) by {
        let table = table_of(tables, name)->0;
        let row = row_of(db, table, pk);
        let own_old = of_row(tables, old, name, pk);
        let own_news = of_row(tables, news, name, pk);
        assert(table_kept(db, table));
        lemma_row_kept(db, table, pk);
        lemma_of_row_append(tables, old, news, name, pk);
        lemma_of_row_members(tables, old, name, pk);
        assert forall|i: int| 0 <= i < own_old.len() implies merged(row, #[trigger] own_old[i])
            == row by {
            let x = own_old[i];
            assert(own_old.contains(x));
            assert(old.contains(x));
            lemma_spent_keeps_row(tables, db, x);
        }
        lemma_idle(row, own_old);
        lemma_replay_append(row, own_old, own_news);
        assert(row_of(both, table_of(tables, name)->0, pk) == replay(row, own_old + own_news));
        assert(row_of(after, table_of(tables, name)->0, pk) == replay(row, own_news));
    }
}

} // verus!
