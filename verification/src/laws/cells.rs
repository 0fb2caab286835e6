//! What comes of whole rows, also of the columns that nothing was written to.
//!
//! A row that begins a life holds the defaults of its columns. A change of version zero tells of a
//! column without a write; of such values the greatest text stays. So what a living row shows in a
//! column without a write is a function of the changes, not of their order ([`shown`]).
use vstd::prelude::*;

use crate::ChangeView;
use crate::MergeResult;
use crate::alive;
use crate::database::Database;
use crate::database::Order;
use crate::database::converse;
use crate::helpers::decodes;
use crate::helpers::defaults_at;
use crate::helpers::key_of;
use crate::json::json_of;
use crate::json::value_of;
use crate::laws::convergence::RowView;
use crate::laws::convergence::brought;
use crate::laws::convergence::candidate;
use crate::laws::convergence::is_sentinel;
use crate::laws::convergence::kept;
use crate::laws::convergence::law_length_grows;
use crate::laws::convergence::lemma_replay_sums;
use crate::laws::convergence::replay;
use crate::laws::replica::concerns;
use crate::laws::replica::fitting;
use crate::laws::replica::fresh_cell;
use crate::laws::replica::greater;
use crate::laws::replica::law_apply_any_order;
use crate::laws::replica::law_apply_replays;
use crate::laws::replica::law_change_merges_into_its_row;
use crate::laws::replica::lemma_apply_starts;
use crate::laws::replica::lemma_cells_step;
use crate::laws::replica::lemma_merge_over;
use crate::laws::replica::lemma_merge_rest;
use crate::laws::replica::lemma_merge_step;
use crate::laws::replica::lemma_row_kept;
use crate::laws::replica::lemma_row_set;
use crate::laws::replica::lemma_table_of;
use crate::laws::replica::length_of;
use crate::laws::replica::of_row;
use crate::laws::replica::row_kept;
use crate::laws::replica::row_of;
use crate::laws::replica::sound;
use crate::laws::replica::table_kept;
use crate::laws::replica::text_in;
use crate::laws::replica::was_written;
use crate::laws::replica::written;
use crate::merge::apply_script;
use crate::merge::merge_script;
use crate::merge::verdict_script;
use crate::schema::TableView;
use crate::schema::table_of;
use crate::statement::Key;
use crate::text::Ranking;
use crate::text::codes;
use crate::text::lemma_before_total;
use crate::text::lemma_before_transitive;
use crate::text::lemma_codes_injective;
use crate::text::ranking;
use crate::value::SqlValue;

verus! {

broadcast use lemma_table_of;

/// What a row is of a column without a write: its causal length, and the text that it shows.
pub struct Shown {
    pub cl: i64,
    pub text: Seq<char>,
}

/// Whether a change tells of a column without a write, of a row with the causal length `cl`.
pub open spec fn hints(change: ChangeView, cl: i64, column: Seq<char>) -> bool {
    !is_sentinel(change) && change.col_name == column && change.col_ver == 0 && change.cl == cl
}

/// What a row shows in a column after a change. A new life begins with `base`.
pub open spec fn shown_next(now: Shown, base: Seq<char>, column: Seq<char>, change: ChangeView) -> Shown {
    let start = if change.cl > now.cl {
        Shown { cl: change.cl, text: base }
    } else {
        now
    };
    if hints(change, start.cl, column) {
        Shown { cl: start.cl, text: greater(start.text, brought(change).text) }
    } else {
        start
    }
}

/// What a row shows in a column without a write after changes, one after the other.
pub open spec fn shown(
    start: Shown,
    base: Seq<char>,
    column: Seq<char>,
    changes: Seq<ChangeView>,
) -> Shown
    decreases changes.len(),
{
    if changes.len() == 0 {
        start
    } else {
        shown(shown_next(start, base, column, changes[0]), base, column, changes.drop_first())
    }
}

/// Whether a text is not greater than another one.
pub open spec fn up_to(a: Seq<char>, b: Seq<char>) -> bool {
    ranking(codes(a), codes(b)) != Ranking::Greater
}

proof fn lemma_up_to(a: Seq<char>, b: Seq<char>, c: Seq<char>)
    ensures
        up_to(a, a),
        up_to(a, b) || up_to(b, a),
        up_to(a, b) && up_to(b, a) ==> a == b,
        up_to(a, b) && up_to(b, c) ==> up_to(a, c),
        up_to(a, greater(a, b)),
        up_to(b, greater(a, b)),
{
    let (x, y, z) = (codes(a), codes(b), codes(c));
    lemma_before_total(x, x);
    lemma_before_total(x, y);
    lemma_before_total(y, x);
    lemma_before_total(y, z);
    lemma_before_total(x, z);
    lemma_before_total(z, x);
    lemma_codes_injective(a, b);
    if up_to(a, b) && up_to(b, c) && x != y && y != z {
        lemma_before_transitive(x, y, z);
    }
}

/// Whether a text is one of those that a row may show in the end: what it begins with, or what a
/// change of its last life tells of.
pub open spec fn offered(
    start: Shown,
    base: Seq<char>,
    column: Seq<char>,
    changes: Set<ChangeView>,
    cl: i64,
    text: Seq<char>,
) -> bool {
    ||| text == (if start.cl == cl {
        start.text
    } else {
        base
    })
    ||| exists|x: ChangeView| #[trigger]
        changes.contains(x) && hints(x, cl, column) && brought(x).text == text
}

/// Whether `end` is the greatest causal length of all, and the greatest text of that life.
pub open spec fn crowns(
    start: Shown,
    base: Seq<char>,
    column: Seq<char>,
    changes: Set<ChangeView>,
    end: Shown,
) -> bool {
    &&& start.cl <= end.cl
    &&& forall|x: ChangeView| #[trigger] changes.contains(x) ==> x.cl <= end.cl
    &&& start.cl == end.cl || exists|x: ChangeView| #[trigger]
        changes.contains(x) && x.cl == end.cl
    &&& offered(start, base, column, changes, end.cl, end.text)
    &&& forall|text: Seq<char>| #[trigger]
        offered(start, base, column, changes, end.cl, text) ==> up_to(text, end.text)
}

proof fn lemma_to_set_first(changes: Seq<ChangeView>)
    requires
        changes.len() > 0,
    ensures
        changes.to_set() == changes.drop_first().to_set().insert(changes[0]),
{
    let set = changes.drop_first().to_set().insert(changes[0]);
    assert forall|x: ChangeView| changes.to_set().contains(x) == set.contains(x) by {
        if changes.contains(x) {
            let i = choose|i: int| 0 <= i < changes.len() && changes[i] == x;
            if i > 0 {
                assert(changes.drop_first()[i - 1] == x);
            }
        }
        if changes.drop_first().contains(x) {
            let i = choose|i: int|
                0 <= i < changes.drop_first().len() && changes.drop_first()[i] == x;
            assert(changes[i + 1] == x);
        }
        assert(changes[0] == changes[0]);
    }
    assert(changes.to_set() =~= set);
}

proof fn lemma_shown_crowns(
    start: Shown,
    base: Seq<char>,
    column: Seq<char>,
    changes: Seq<ChangeView>,
)
    ensures
        crowns(start, base, column, changes.to_set(), shown(start, base, column, changes)),
    decreases changes.len(),
{
    let set = changes.to_set();
    let end = shown(start, base, column, changes);
    if changes.len() == 0 {
        assert(set =~= Set::empty());
        lemma_up_to(end.text, end.text, end.text);
    } else {
        let x = changes[0];
        let rest = changes.drop_first();
        let next = shown_next(start, base, column, x);
        lemma_to_set_first(changes);
        lemma_shown_crowns(next, base, column, rest);
        assert(set.contains(x));
        assert forall|y: ChangeView| #[trigger] set.contains(y) implies y.cl <= end.cl by {
            if y != x {
                assert(rest.to_set().contains(y));
            }
        }
        if next.cl != end.cl {
            let y = choose|y: ChangeView| #[trigger]
                rest.to_set().contains(y) && y.cl == end.cl;
            assert(set.contains(y));
        } else if start.cl != end.cl {
            assert(set.contains(x) && x.cl == end.cl);
        }
        // What the end shows is offered.
        if exists|y: ChangeView| #[trigger]
            rest.to_set().contains(y) && hints(y, end.cl, column) && brought(y).text == end.text {
            let y = choose|y: ChangeView| #[trigger]
                rest.to_set().contains(y) && hints(y, end.cl, column) && brought(y).text
                    == end.text;
            assert(set.contains(y));
        } else if next.cl == end.cl {
            assert(end.text == next.text);
            if hints(x, next.cl, column) {
                assert(set.contains(x) && hints(x, end.cl, column));
            }
        }
        assert(offered(start, base, column, set, end.cl, end.text));
        // Nothing that is offered is greater.
        assert forall|text: Seq<char>| #[trigger]
            offered(start, base, column, set, end.cl, text) implies up_to(text, end.text) by {
            let first = if next.cl == end.cl {
                next.text
            } else {
                base
            };
            assert(offered(next, base, column, rest.to_set(), end.cl, first));
            if exists|y: ChangeView| #[trigger]
                rest.to_set().contains(y) && hints(y, end.cl, column) && brought(y).text == text {
                assert(offered(next, base, column, rest.to_set(), end.cl, text));
            } else if next.cl == end.cl {
                let begin = if x.cl > start.cl {
                    base
                } else {
                    start.text
                };
                lemma_up_to(begin, brought(x).text, end.text);
                lemma_up_to(brought(x).text, begin, end.text);
                lemma_up_to(begin, next.text, end.text);
                lemma_up_to(brought(x).text, next.text, end.text);
                if text != begin {
                    let y = choose|y: ChangeView| #[trigger]
                        set.contains(y) && hints(y, end.cl, column) && brought(y).text == text;
                    assert(y == x);
                }
            } else {
                if text != base {
                    let y = choose|y: ChangeView| #[trigger]
                        set.contains(y) && hints(y, end.cl, column) && brought(y).text == text;
                    assert(y == x);
                }
            }
        }
    }
}

/// What a row shows in a column without a write does not depend on the order of the changes, nor on
/// how often each comes.
pub proof fn law_shown_any_order(
    start: Shown,
    base: Seq<char>,
    column: Seq<char>,
    a: Seq<ChangeView>,
    b: Seq<ChangeView>,
)
    requires
        a.to_set() == b.to_set(),
    ensures
        shown(start, base, column, a) == shown(start, base, column, b),
{
    lemma_shown_crowns(start, base, column, a);
    lemma_shown_crowns(start, base, column, b);
    let set = a.to_set();
    let one = shown(start, base, column, a);
    let two = shown(start, base, column, b);
    assert(one.cl == two.cl) by {
        if one.cl != start.cl {
            let x = choose|x: ChangeView| #[trigger] set.contains(x) && x.cl == one.cl;
            assert(set.contains(x));
        }
        if two.cl != start.cl {
            let x = choose|x: ChangeView| #[trigger] set.contains(x) && x.cl == two.cl;
            assert(set.contains(x));
        }
    }
    assert(offered(start, base, column, set, one.cl, one.text));
    assert(offered(start, base, column, set, one.cl, two.text));
    lemma_up_to(one.text, two.text, one.text);
}

/// A row that enters a later life does not show what it showed before.
proof fn lemma_shown_anew(
    a: Shown,
    b: Shown,
    base: Seq<char>,
    column: Seq<char>,
    changes: Seq<ChangeView>,
)
    requires
        a.cl == b.cl,
    ensures
        shown(a, base, column, changes).cl == shown(b, base, column, changes).cl,
        shown(a, base, column, changes).cl > a.cl ==> shown(a, base, column, changes) == shown(
            b,
            base,
            column,
            changes,
        ),
        shown(a, base, column, changes).cl >= a.cl,
    decreases changes.len(),
{
    if changes.len() > 0 {
        let x = changes[0];
        lemma_shown_anew(
            shown_next(a, base, column, x),
            shown_next(b, base, column, x),
            base,
            column,
            changes.drop_first(),
        );
    }
}

/// What a row of a database shows in a column.
pub open spec fn shown_in(db: Database, table: TableView, pk: Seq<char>, column: Seq<char>) -> Shown {
    Shown { cl: length_of(db, table.name, pk), text: text_in(db, table, pk, column) }
}

/// The text that a row that is made anew at the time `now` shows in a column.
pub open spec fn base_text(
    db: Database,
    table: TableView,
    pk: Seq<char>,
    now: Seq<char>,
    column: Seq<char>,
) -> Seq<char> {
    json_of(fresh_cell(db, table, pk, now, column)).text()
}

/// Whether a value is one that a row can have in a column after changes: what it had, or has anew if
/// it is in another life, or what a change brought.
pub open spec fn stems_from(
    db: Database,
    after: Database,
    table: TableView,
    pk: Seq<char>,
    now: Seq<char>,
    column: Seq<char>,
    changes: Seq<ChangeView>,
) -> bool {
    let value = (after.cells)(table.name, key_of(table.pk, pk), column);
    ||| value == (if length_of(after, table.name, pk) == length_of(db, table.name, pk) {
        (db.cells)(table.name, key_of(table.pk, pk), column)
    } else {
        fresh_cell(db, table, pk, now, column)
    })
    ||| exists|i: int|
        0 <= i < changes.len() && value == value_of((#[trigger] changes[i]).col_val)
}

/// A row that lives after changes shows in a column without a write what [`shown`] says.
proof fn lemma_merge_shows(
    tables: Seq<TableView>,
    db: Database,
    order: Order,
    changes: Seq<ChangeView>,
    now: Seq<char>,
    from: int,
    tally: MergeResult,
    name: Seq<char>,
    pk: Seq<char>,
    column: Seq<char>,
)
    requires
        sound(db, tables),
        0 <= from <= changes.len(),
        forall|i: int| 0 <= i < changes.len() ==> fitting(#[trigger] changes[i]),
        table_of(tables, name) is Some,
        decodes(table_of(tables, name)->0.pk, pk),
    ensures
        ({
            let table = table_of(tables, name)->0;
            let after = converse(
                merge_script(tables, changes, now, from, tally),
                db,
                order,
            ).1;
            alive(length_of(after, name, pk)) ==> {
                &&& !was_written(after, table, pk, column) ==> shown_in(after, table, pk, column)
                    == shown(
                    shown_in(db, table, pk, column),
                    base_text(db, table, pk, now, column),
                    column,
                    of_row(tables, changes.skip(from), name, pk),
                )
                &&& stems_from(db, after, table, pk, now, column, changes)
            }
        }),
    decreases changes.len() - from,
{
    let table = table_of(tables, name)->0;
    let rest = changes.skip(from);
    if from < changes.len() {
        let change = changes[from];
        let (verdict, middle) = converse(verdict_script(tables, change, now), db, order);
        law_change_merges_into_its_row(tables, db, order, change, now);
        lemma_merge_step(tables, db, order, changes, now, from, tally);
        let counted = tally.counted(verdict->0->Ok_0);
        lemma_merge_shows(
            tables,
            middle,
            order,
            changes,
            now,
            from + 1,
            counted,
            name,
            pk,
            column,
        );
        lemma_shows_step(
            tables,
            db,
            order,
            changes,
            now,
            from,
            counted,
            name,
            pk,
            column,
        );
    } else {
        lemma_merge_over(tables, db, order, changes, now, tally);
        assert(rest =~= Seq::empty());
    }
}

proof fn lemma_shows_step(
    tables: Seq<TableView>,
    db: Database,
    order: Order,
    changes: Seq<ChangeView>,
    now: Seq<char>,
    from: int,
    tally: MergeResult,
    name: Seq<char>,
    pk: Seq<char>,
    column: Seq<char>,
)
    requires
        sound(db, tables),
        0 <= from < changes.len(),
        forall|i: int| 0 <= i < changes.len() ==> fitting(#[trigger] changes[i]),
        table_of(tables, name) is Some,
        decodes(table_of(tables, name)->0.pk, pk),
        ({
            let table = table_of(tables, name)->0;
            let middle = converse(verdict_script(tables, changes[from], now), db, order).1;
            let after = converse(
                merge_script(tables, changes, now, from + 1, tally),
                middle,
                order,
            ).1;
            alive(length_of(after, name, pk)) ==> {
                &&& !was_written(after, table, pk, column) ==> shown_in(after, table, pk, column)
                    == shown(
                    shown_in(middle, table, pk, column),
                    base_text(middle, table, pk, now, column),
                    column,
                    of_row(tables, changes.skip(from + 1), name, pk),
                )
                &&& stems_from(middle, after, table, pk, now, column, changes)
            }
        }),
    ensures
        ({
            let table = table_of(tables, name)->0;
            let middle = converse(verdict_script(tables, changes[from], now), db, order).1;
            let after = converse(
                merge_script(tables, changes, now, from + 1, tally),
                middle,
                order,
            ).1;
            alive(length_of(after, name, pk)) ==> {
                &&& !was_written(after, table, pk, column) ==> shown_in(after, table, pk, column)
                    == shown(
                    shown_in(db, table, pk, column),
                    base_text(db, table, pk, now, column),
                    column,
                    of_row(tables, changes.skip(from), name, pk),
                )
                &&& stems_from(db, after, table, pk, now, column, changes)
            }
        }),
{
    let table = table_of(tables, name)->0;
    let change = changes[from];
    let rest = changes.skip(from);
    let tail = of_row(tables, changes.skip(from + 1), name, pk);
    let own = of_row(tables, rest, name, pk);
    let middle = converse(verdict_script(tables, change, now), db, order).1;
    let after = converse(merge_script(tables, changes, now, from + 1, tally), middle, order).1;
    let base = base_text(db, table, pk, now, column);
    assert(rest.drop_first() =~= changes.skip(from + 1));
    assert(rest[0] == change);
    law_change_merges_into_its_row(tables, db, order, change, now);
    lemma_cells_step(tables, db, order, change, now, name, pk, column);
    lemma_merge_rest(tables, middle, order, changes, now, from + 1, tally);
    assert(row_of(middle, table_of(tables, name)->0, pk).cl == length_of(middle, name, pk));
    assert(row_of(after, table_of(tables, name)->0, pk).cl == length_of(after, name, pk));
    assert(table_kept(db, table));
    assert(table_kept(middle, table));
    assert(row_kept(db, table, pk));
    assert(row_kept(middle, table, pk));
    lemma_row_kept(middle, table, pk);
    law_length_grows(row_of(middle, table, pk), tail);
    if alive(length_of(after, name, pk)) {
        if concerns(tables, change, name, pk) {
            let next = shown_next(shown_in(db, table, pk, column), base, column, change);
            assert(own =~= seq![change] + tail);
            assert(own.drop_first() =~= tail);
            assert(next.cl == length_of(middle, name, pk));
            if !was_written(after, table, pk, column) {
                lemma_shown_anew(shown_in(middle, table, pk, column), next, base, column, tail);
                if length_of(after, name, pk) == length_of(middle, name, pk) {
                    if was_written(middle, table, pk, column) {
                        lemma_stays_written(row_of(middle, table, pk), tail, column);
                    }
                    assert(shown_in(middle, table, pk, column) == next);
                }
            }
        }
        assert(stems_from(db, after, table, pk, now, column, changes)) by {
            if concerns(tables, change, name, pk) && length_of(after, name, pk) == length_of(
                middle,
                name,
                pk,
            ) {
                let value = (middle.cells)(table.name, key_of(table.pk, pk), column);
                if value == value_of(change.col_val) {
                    assert(value == value_of(changes[from].col_val));
                }
            }
        }
    }
}

/// A column that is written stays written while its row stays in its life.
pub proof fn lemma_stays_written(row: RowView, changes: Seq<ChangeView>, column: Seq<char>)
    requires
        kept(row),
        alive(row.cl),
        replay(row, changes).cl == row.cl,
        row.cells.dom().contains(column),
    ensures
        replay(row, changes).cells.dom().contains(column),
{
    lemma_replay_sums(row, changes);
    assert(candidate(row.cells, changes.to_set(), row.cl, column, row.cells[column]));
}

/// Two databases agree on a whole row: it is there in both or in neither, and then all its columns
/// read the same.
pub open spec fn same_row(a: Database, b: Database, table: TableView, pk: Seq<char>) -> bool {
    let key = key_of(table.pk, pk);
    &&& a.rows.contains((table.name, key)) == b.rows.contains((table.name, key))
    &&& a.rows.contains((table.name, key)) ==> forall|column: Seq<char>| #[trigger]
        text_in(a, table, pk, column) == text_in(b, table, pk, column)
}

/// Two databases agree on all rows of all tables, the columns that nothing was written to included.
pub open spec fn same_whole_rows(tables: Seq<TableView>, a: Database, b: Database) -> bool {
    forall|name: Seq<char>, pk: Seq<char>|
        table_of(tables, name) is Some && decodes(table_of(tables, name)->0.pk, pk)
            ==> #[trigger] same_row(a, b, table_of(tables, name)->0, pk)
}

/// Whether the skeleton defaults of all tables are literals.
pub open spec fn all_literal(tables: Seq<TableView>) -> bool {
    forall|name: Seq<char>, i: int|
        table_of(tables, name) is Some && 0 <= i < table_of(tables, name)->0.skeleton.len()
            ==> (#[trigger] table_of(tables, name)->0.skeleton[i]).1 is Literal
}

proof fn lemma_same_defaults(
    tables: Seq<TableView>,
    name: Seq<char>,
    now: Seq<char>,
    later: Seq<char>,
)
    requires
        now == later || all_literal(tables),
        table_of(tables, name) is Some,
    ensures
        defaults_at(table_of(tables, name)->0.skeleton, now) == defaults_at(
            table_of(tables, name)->0.skeleton,
            later,
        ),
{
    let skeleton = table_of(tables, name)->0.skeleton;
    if now != later {
        assert forall|i: int| 0 <= i < skeleton.len() implies skeleton[i].1.at(now)
            == skeleton[i].1.at(later) by {
            assert(table_of(tables, name)->0.skeleton[i].1 is Literal);
        }
        assert(defaults_at(skeleton, now) =~= defaults_at(skeleton, later));
    }
}

/// Applying changes is order-independent for whole rows: two lists that hold the same changes, in
/// any order and any number of times each, lead a replica to the same rows, all columns included, if
/// they are applied at one time or the skeleton defaults are literals.
pub proof fn law_apply_any_order_whole_rows(
    tables: Seq<TableView>,
    db: Database,
    order: Order,
    a: Seq<ChangeView>,
    b: Seq<ChangeView>,
    now_a: Seq<char>,
    now_b: Seq<char>,
)
    requires
        sound(db, tables),
        forall|i: int| 0 <= i < a.len() ==> fitting(#[trigger] a[i]),
        a.to_set() == b.to_set(),
        now_a == now_b || all_literal(tables),
    ensures
        same_whole_rows(
            tables,
            converse(apply_script(tables, a, now_a), db, order).1,
            converse(apply_script(tables, b, now_b), db, order).1,
        ),
{
    assert forall|i: int| 0 <= i < b.len() implies fitting(#[trigger] b[i]) by {
        assert(b.to_set().contains(b[i]));
        assert(a.to_set().contains(b[i]));
        assert(a.contains(b[i]));
    }
    law_apply_any_order(tables, db, order, a, b, now_a, now_b);
    law_apply_replays(tables, db, order, a, now_a);
    law_apply_replays(tables, db, order, b, now_b);
    let one = converse(apply_script(tables, a, now_a), db, order).1;
    let two = converse(apply_script(tables, b, now_b), db, order).1;
    assert forall|name: Seq<char>, pk: Seq<char>|
        table_of(tables, name) is Some && decodes(
            table_of(tables, name)->0.pk,
            pk,
        ) implies #[trigger] same_row(one, two, table_of(tables, name)->0, pk) by {
        let table = table_of(tables, name)->0;
        assert(table_kept(one, table));
        assert(table_kept(two, table));
        assert(row_kept(one, table, pk));
        assert(row_kept(two, table, pk));
        let row = row_of(one, table_of(tables, name)->0, pk);
        assert(row == row_of(two, table_of(tables, name)->0, pk));
        assert(row.cl == length_of(one, name, pk) && row.cl == length_of(two, name, pk));
        if alive(row.cl) {
            assert forall|column: Seq<char>| #[trigger] text_in(one, table, pk, column) == text_in(
                two,
                table,
                pk,
                column,
            ) by {
                lemma_column_any_order(
                    tables,
                    db,
                    order,
                    a,
                    b,
                    now_a,
                    now_b,
                    name,
                    pk,
                    column,
                );
            }
        }
    }
}

proof fn lemma_column_any_order(
    tables: Seq<TableView>,
    db: Database,
    order: Order,
    a: Seq<ChangeView>,
    b: Seq<ChangeView>,
    now_a: Seq<char>,
    now_b: Seq<char>,
    name: Seq<char>,
    pk: Seq<char>,
    column: Seq<char>,
)
    requires
        sound(db, tables),
        forall|i: int| 0 <= i < a.len() ==> fitting(#[trigger] a[i]),
        forall|i: int| 0 <= i < b.len() ==> fitting(#[trigger] b[i]),
        a.to_set() == b.to_set(),
        now_a == now_b || all_literal(tables),
        table_of(tables, name) is Some,
        decodes(table_of(tables, name)->0.pk, pk),
        ({
            let one = converse(apply_script(tables, a, now_a), db, order).1;
            let two = converse(apply_script(tables, b, now_b), db, order).1;
            let table = table_of(tables, name)->0;
            row_of(one, table, pk) == row_of(two, table, pk) && alive(length_of(one, name, pk))
        }),
    ensures
        ({
            let one = converse(apply_script(tables, a, now_a), db, order).1;
            let two = converse(apply_script(tables, b, now_b), db, order).1;
            let table = table_of(tables, name)->0;
            text_in(one, table, pk, column) == text_in(two, table, pk, column)
        }),
{
    let one = converse(apply_script(tables, a, now_a), db, order).1;
    let two = converse(apply_script(tables, b, now_b), db, order).1;
    let table = table_of(tables, name)->0;
    let row = row_of(one, table, pk);
    assert(row.cl == length_of(one, name, pk));
    assert(row_of(two, table, pk).cl == length_of(two, name, pk));
    assert(row.cells.dom().contains(column) == was_written(one, table, pk, column));
    assert(row_of(two, table, pk).cells.dom().contains(column) == was_written(
        two,
        table,
        pk,
        column,
    ));
    if was_written(one, table, pk, column) {
        assert(row.cells[column] == written(one, table, pk, column));
        assert(row_of(two, table, pk).cells[column] == written(two, table, pk, column));
    } else {
        let none = MergeResult::none();
        lemma_apply_starts(tables, db, order, a, now_a);
        lemma_apply_starts(tables, db, order, b, now_b);
        lemma_merge_shows(tables, db, order, a, now_a, 0, none, name, pk, column);
        lemma_merge_shows(tables, db, order, b, now_b, 0, none, name, pk, column);
        assert(a.skip(0) =~= a);
        assert(b.skip(0) =~= b);
        lemma_same_defaults(tables, name, now_a, now_b);
        lemma_row_set(tables, a, b, name, pk);
        law_shown_any_order(
            shown_in(db, table, pk, column),
            base_text(db, table, pk, now_a, column),
            column,
            of_row(tables, a, name, pk),
            of_row(tables, b, name, pk),
        );
    }
}

/// Whether the JSON texts of some values tell them apart.
pub open spec fn legible(values: Set<SqlValue>) -> bool {
    forall|u: SqlValue, v: SqlValue| #[trigger]
        values.contains(u) && #[trigger] values.contains(v) && json_of(u).text() == json_of(v).text()
            ==> u == v
}

/// Whether some values are all that a replica holds and can come to hold by applying changes.
pub open spec fn all_values(
    tables: Seq<TableView>,
    db: Database,
    changes: Seq<ChangeView>,
    now: Seq<char>,
    values: Set<SqlValue>,
) -> bool {
    &&& forall|name: Seq<char>, key: Key, column: Seq<char>|
        table_of(tables, name) is Some ==> values.contains(
            #[trigger] (db.cells)(name, key, column),
        )
    &&& forall|name: Seq<char>, pk: Seq<char>, column: Seq<char>|
        table_of(tables, name) is Some && decodes(table_of(tables, name)->0.pk, pk)
            ==> values.contains(
            #[trigger] fresh_cell(db, table_of(tables, name)->0, pk, now, column),
        )
    &&& forall|i: int|
        0 <= i < changes.len() ==> values.contains(value_of((#[trigger] changes[i]).col_val))
}

proof fn lemma_value_known(
    tables: Seq<TableView>,
    db: Database,
    order: Order,
    changes: Seq<ChangeView>,
    now: Seq<char>,
    values: Set<SqlValue>,
    name: Seq<char>,
    pk: Seq<char>,
    column: Seq<char>,
)
    requires
        sound(db, tables),
        forall|i: int| 0 <= i < changes.len() ==> fitting(#[trigger] changes[i]),
        all_values(tables, db, changes, now, values),
        table_of(tables, name) is Some,
        decodes(table_of(tables, name)->0.pk, pk),
        alive(length_of(converse(apply_script(tables, changes, now), db, order).1, name, pk)),
    ensures
        values.contains(
            (converse(apply_script(tables, changes, now), db, order).1.cells)(
                name,
                key_of(table_of(tables, name)->0.pk, pk),
                column,
            ),
        ),
{
    let table = table_of(tables, name)->0;
    lemma_apply_starts(tables, db, order, changes, now);
    lemma_merge_shows(
        tables,
        db,
        order,
        changes,
        now,
        0,
        MergeResult::none(),
        name,
        pk,
        column,
    );
    assert(values.contains((db.cells)(name, key_of(table.pk, pk), column)));
    assert(values.contains(fresh_cell(db, table_of(tables, name)->0, pk, now, column)));
}

/// Applying changes is order-independent for the values themselves, where their JSON texts tell them
/// apart: after two lists that hold the same changes every living row has the same value in each
/// column, if they are applied at one time or the skeleton defaults are literals.
pub proof fn law_apply_any_order_same_values(
    tables: Seq<TableView>,
    db: Database,
    order: Order,
    a: Seq<ChangeView>,
    b: Seq<ChangeView>,
    now_a: Seq<char>,
    now_b: Seq<char>,
    values: Set<SqlValue>,
    name: Seq<char>,
    pk: Seq<char>,
    column: Seq<char>,
)
    requires
        sound(db, tables),
        forall|i: int| 0 <= i < a.len() ==> fitting(#[trigger] a[i]),
        a.to_set() == b.to_set(),
        now_a == now_b || all_literal(tables),
        legible(values),
        all_values(tables, db, a, now_a, values),
        table_of(tables, name) is Some,
        decodes(table_of(tables, name)->0.pk, pk),
    ensures
        ({
            let one = converse(apply_script(tables, a, now_a), db, order).1;
            let two = converse(apply_script(tables, b, now_b), db, order).1;
            let key = key_of(table_of(tables, name)->0.pk, pk);
            &&& one.rows.contains((name, key)) == two.rows.contains((name, key))
            &&& one.rows.contains((name, key)) ==> (one.cells)(name, key, column) == (two.cells)(
                name,
                key,
                column,
            )
        }),
{
    let one = converse(apply_script(tables, a, now_a), db, order).1;
    let two = converse(apply_script(tables, b, now_b), db, order).1;
    let table = table_of(tables, name)->0;
    law_apply_any_order_whole_rows(tables, db, order, a, b, now_a, now_b);
    assert(same_row(one, two, table_of(tables, name)->0, pk));
    assert forall|i: int| 0 <= i < b.len() implies fitting(#[trigger] b[i]) && values.contains(
        value_of(b[i].col_val),
    ) by {
        assert(b.to_set().contains(b[i]));
        assert(a.to_set().contains(b[i]));
        assert(a.contains(b[i]));
    }
    law_apply_replays(tables, db, order, a, now_a);
    law_apply_replays(tables, db, order, b, now_b);
    assert(table_kept(one, table));
    assert(table_kept(two, table));
    assert(row_kept(one, table, pk));
    assert(row_kept(two, table, pk));
    if one.rows.contains((name, key_of(table.pk, pk))) {
        assert(all_values(tables, db, b, now_b, values)) by {
            assert forall|n: Seq<char>, p: Seq<char>, c: Seq<char>|
                table_of(tables, n) is Some && decodes(
                    table_of(tables, n)->0.pk,
                    p,
                ) implies values.contains(
                #[trigger] fresh_cell(db, table_of(tables, n)->0, p, now_b, c),
            ) by {
                lemma_same_defaults(tables, n, now_a, now_b);
                assert(values.contains(fresh_cell(db, table_of(tables, n)->0, p, now_a, c)));
            }
        }
        lemma_value_known(tables, db, order, a, now_a, values, name, pk, column);
        lemma_value_known(tables, db, order, b, now_b, values, name, pk, column);
        assert(text_in(one, table, pk, column) == text_in(two, table, pk, column));
    }
}

} // verus!
