//! What holds of a group of replicas that write, and tell each other their changes.
use vstd::prelude::*;

use crate::ChangeView;
use crate::alive;
use crate::database::Database;
use crate::database::Order;
use crate::helpers::decodes;
use crate::helpers::key_of;
use crate::laws::cells::lemma_stays_written;
use crate::laws::convergence::law_length_grows;
use crate::laws::convergence::lemma_replay_sums;
use crate::laws::convergence::replay;
use crate::laws::history::Deed;
use crate::laws::history::at_rest;
use crate::laws::history::blank;
use crate::laws::history::done_to;
use crate::laws::history::feasible;
use crate::laws::history::law_lived_replicas_are_orderly;
use crate::laws::history::lemma_added;
use crate::laws::history::lemma_done;
use crate::laws::history::lemma_rest_agrees;
use crate::laws::history::lived;
use crate::laws::history::orderly;
use crate::laws::replica::concerns;
use crate::laws::replica::law_apply_replays;
use crate::laws::replica::lemma_of_row_members;
use crate::laws::replica::lemma_row_kept;
use crate::laws::replica::lemma_table_of;
use crate::laws::replica::length_of;
use crate::laws::replica::of_row;
use crate::laws::replica::only_row;
use crate::laws::replica::row_kept;
use crate::laws::replica::row_of;
use crate::laws::replica::same_rows;
use crate::laws::replica::table_kept;
use crate::laws::replica::text_in;
use crate::laws::replica::ver_of;
use crate::laws::replica::was_written;
use crate::laws::state::law_init_sets_up;
use crate::laws::sync::law_changes_since_tells_news;
use crate::laws::sync::lists_news;
use crate::laws::sync::outgoing;
use crate::laws::sync::tells_news;
use crate::laws::tracking::law_adopted_insert;
use crate::laws::tracking::law_tracked_delete;
use crate::laws::tracking::law_tracked_insert;
use crate::laws::tracking::law_tracked_update;
use crate::laws::tracking::law_update_raises_columns;
use crate::laws::tracking::with_values;
use crate::schema::SENTINEL;
use crate::schema::TableView;
use crate::schema::table_of;

verus! {

broadcast use lemma_table_of;

/// Something that happens to one of the replicas.
pub struct Event {
    pub at: int,
    pub deed: Deed,
}

/// Whether a list holds all columns that a table tracks.
pub open spec fn covers(table: TableView, columns: Seq<Seq<char>>) -> bool {
    forall|c: Seq<char>| #[trigger]
        table.columns.contains(c) && c != SENTINEL@ ==> columns.contains(c)
}

/// Whether all tracked columns of a row that lives are written.
pub open spec fn full(db: Database, table: TableView, pk: Seq<char>) -> bool {
    forall|c: Seq<char>|
        #![trigger table.columns.contains(c)]
        table.columns.contains(c) && c != SENTINEL@ ==> was_written(db, table, pk, c)
}

/// Replicas of one schema, as they were before they were set up.
pub struct Group {
    pub tables: Seq<TableView>,
    pub starts: Seq<Database>,
    pub order: Order,
}

impl Group {
    /// The replicas after events.
    pub open spec fn after(self, events: Seq<Event>) -> Seq<Database>
        decreases events.len(),
    {
        if events.len() == 0 {
            Seq::new(
                self.starts.len(),
                |i: int| lived(self.tables, self.starts[i], self.order, Seq::empty()),
            )
        } else {
            let before = self.after(events.drop_last());
            let event = events.last();
            before.update(
                event.at,
                done_to(self.tables, before[event.at], self.order, event.deed),
            )
        }
    }

    /// Whether some replica tells of a change, now or at an earlier time.
    pub open spec fn tells(self, events: Seq<Event>, x: ChangeView) -> bool {
        exists|s: int, j: int|
            0 <= s <= events.len() && 0 <= j < self.starts.len() && #[trigger] outgoing(
                self.tables,
                self.after(events.take(s))[j],
                self.order,
                0,
            ).contains(x)
    }

    /// Whether an event can happen after others. An insert is of a row that was never tracked, or
    /// that was deleted once: one that came back in a later life is adopted. An insert and an
    /// adoption track all columns. The changes that are merged are ones that some replica told of,
    /// all that it told or some of them.
    pub open spec fn allows(self, events: Seq<Event>, event: Event) -> bool {
        &&& 0 <= event.at < self.starts.len()
        &&& feasible(self.tables, self.after(events)[event.at], self.order, event.deed)
        &&& match event.deed {
            Deed::Insert { table, pk, given, columns } => {
                &&& length_of(self.after(events)[event.at], table, pk) <= 2
                &&& covers(table_of(self.tables, table)->0, columns)
            },
            Deed::Adopt { table, pk, given, columns } => covers(
                table_of(self.tables, table)->0,
                columns,
            ),
            Deed::Merge { changes, now } => forall|i: int|
                0 <= i < changes.len() ==> self.tells(events, #[trigger] changes[i]),
            _ => true,
        }
    }

    /// Whether the events can happen, one after the other.
    pub open spec fn possible(self, events: Seq<Event>) -> bool
        decreases events.len(),
    {
        events.len() > 0 ==> self.possible(events.drop_last()) && self.allows(
            events.drop_last(),
            events.last(),
        )
    }

    /// Whether the replicas can be set up, and list their changes when they are asked for them.
    pub open spec fn able(self, events: Seq<Event>) -> bool {
        &&& forall|i: int|
            0 <= i < self.starts.len() ==> blank(self.tables, #[trigger] self.starts[i])
        &&& forall|s: int, j: int, name: Seq<char>|
            0 <= s <= events.len() && 0 <= j < self.starts.len() && table_of(
                self.tables,
                name,
            ) is Some ==> #[trigger] lists_news(self.after(events.take(s))[j], self.order, name, 0)
    }

    /// Whether a replica began a life of a row: it inserted or adopted it, and so brought it to a
    /// causal length.
    pub open spec fn begun(
        self,
        events: Seq<Event>,
        k: int,
        name: Seq<char>,
        pk: Seq<char>,
        cl: i64,
    ) -> bool {
        exists|s: int|
            0 <= s < events.len() && #[trigger] begins_row(events[s], k, name, pk) && length_of(
                self.after(events.take(s + 1))[k],
                name,
                pk,
            ) == cl
    }

    /// What holds of a row of all replicas at any time: a life that a replica began lies not ahead
    /// of it, all columns are written while it is in that life, and each life was begun by some
    /// replica.
    spec fn founded(self, events: Seq<Event>, name: Seq<char>, pk: Seq<char>) -> bool {
        let now = self.after(events);
        let table = table_of(self.tables, name)->0;
        &&& forall|k: int, cl: i64|
            0 <= k < self.starts.len() && #[trigger] self.begun(events, k, name, pk, cl) ==> {
                &&& alive(cl)
                &&& cl <= length_of(now[k], name, pk)
                &&& cl == length_of(now[k], name, pk) ==> full(now[k], table, pk)
            }
        &&& forall|i: int|
            0 <= i < self.starts.len() && alive(length_of(#[trigger] now[i], name, pk))
                ==> exists|k: int|
                0 <= k < self.starts.len() && #[trigger] self.begun(
                    events,
                    k,
                    name,
                    pk,
                    length_of(now[i], name, pk),
                )
    }
}

/// Whether an event begins a life of a row of a replica.
pub open spec fn begins_row(event: Event, k: int, name: Seq<char>, pk: Seq<char>) -> bool {
    event.at == k && match event.deed {
        Deed::Insert { table, pk: own, given, columns } => table == name && own == pk,
        Deed::Adopt { table, pk: own, given, columns } => table == name && own == pk,
        _ => false,
    }
}

/// What a deed does to a row, as far as the lives of rows go.
spec fn carries(
    tables: Seq<TableView>,
    db: Database,
    after: Database,
    deed: Deed,
    name: Seq<char>,
    pk: Seq<char>,
) -> bool {
    let table = table_of(tables, name)->0;
    let was = length_of(db, name, pk);
    let is = length_of(after, name, pk);
    let begins = begins_row(Event { at: 0, deed }, 0, name, pk);
    &&& was <= is || begins && was <= 2
    &&& begins ==> alive(is) && full(after, table, pk)
    &&& was == is && full(db, table, pk) ==> full(after, table, pk)
    &&& !begins && was < is && alive(is) ==> exists|i: int|
        #![trigger deed->changes[i]]
        deed is Merge && 0 <= i < deed->changes.len() && concerns(
            tables,
            deed->changes[i],
            name,
            pk,
        ) && deed->changes[i].cl == is
}

proof fn lemma_merge_carries(
    tables: Seq<TableView>,
    db: Database,
    order: Order,
    changes: Seq<ChangeView>,
    now: Seq<char>,
    name: Seq<char>,
    pk: Seq<char>,
)
    requires
        orderly(tables, db),
        feasible(tables, db, order, Deed::Merge { changes, now }),
        table_of(tables, name) is Some,
        decodes(table_of(tables, name)->0.pk, pk),
    ensures
        carries(
            tables,
            db,
            done_to(tables, db, order, Deed::Merge { changes, now }),
            Deed::Merge { changes, now },
            name,
            pk,
        ),
{
    let deed = Deed::Merge { changes, now };
    let after = done_to(tables, db, order, deed);
    let table = table_of(tables, name)->0;
    law_apply_replays(tables, db, order, changes, now);
    assert(table_kept(db, table));
    lemma_row_kept(db, table, pk);
    let row = row_of(db, table, pk);
    let own = of_row(tables, changes, name, pk);
    let end = row_of(after, table_of(tables, name)->0, pk);
    assert(end == replay(row, own));
    assert(row.cl == length_of(db, name, pk) && end.cl == length_of(after, name, pk));
    lemma_replay_sums(row, own);
    law_length_grows(row, own);
    lemma_of_row_members(tables, changes, name, pk);
    if row.cl < end.cl {
        let x = choose|x: ChangeView| #[trigger] own.to_set().contains(x) && x.cl == end.cl;
        assert(own.contains(x));
        let i = choose|i: int| 0 <= i < changes.len() && changes[i] == x;
        assert(deed->changes[i] == x);
    }
    if row.cl == end.cl && full(db, table, pk) {
        assert forall|c: Seq<char>|
            #![trigger table.columns.contains(c)]
            table.columns.contains(c) && c != SENTINEL@ implies was_written(
            after,
            table,
            pk,
            c,
        ) by {
            assert(was_written(db, table, pk, c));
            assert(row.cells.dom().contains(c));
            lemma_stays_written(row, own, c);
            assert(end.cells.dom().contains(c));
        }
    }
}

proof fn lemma_update_carries(
    tables: Seq<TableView>,
    db: Database,
    order: Order,
    deed: Deed,
    name: Seq<char>,
    pk: Seq<char>,
)
    requires
        orderly(tables, db),
        deed is Update,
        deed->Update_table == name,
        deed->Update_pk == pk,
        feasible(tables, db, order, deed),
    ensures
        carries(tables, db, done_to(tables, db, order, deed), deed, name, pk),
{
    let values = deed->values;
    let columns = deed->Update_columns;
    let table = table_of(tables, name)->0;
    let after = done_to(tables, db, order, deed);
    assert(table_kept(db, table));
    assert(row_kept(db, table, pk));
    law_tracked_update(tables, db, order, table, pk, values, columns);
    let updated = with_values(db, name, key_of(table.pk, pk), values);
    assert forall|c: Seq<char>| ver_of(updated, name, pk, c) == ver_of(db, name, pk, c) by {}
    law_update_raises_columns(updated, order, name, pk, columns);
    assert(row_of(after, table, pk).cl == length_of(after, name, pk));
    assert(row_of(db, table, pk).cl == length_of(db, name, pk));
    assert forall|c: Seq<char>| #[trigger]
        was_written(db, table, pk, c) implies was_written(after, table, pk, c) by {
        if columns.contains(c) {
            let i = choose|i: int| 0 <= i < columns.len() && columns[i] == c;
            assert(row_of(after, table, pk).cells.dom().contains(columns[i]));
        } else {
            assert(!columns.to_set().contains(c));
            assert(after.clocks.dom().contains((name, pk, c)) == updated.clocks.dom().contains(
                (name, pk, c),
            ));
        }
    }
    assert forall|c: Seq<char>|
        #![trigger table.columns.contains(c)]
        full(db, table, pk) && table.columns.contains(c) && c != SENTINEL@ implies was_written(
        after,
        table,
        pk,
        c,
    ) by {
        assert(was_written(db, table, pk, c));
    }
}

proof fn lemma_carries(
    tables: Seq<TableView>,
    db: Database,
    order: Order,
    deed: Deed,
    name: Seq<char>,
    pk: Seq<char>,
)
    requires
        orderly(tables, db),
        feasible(tables, db, order, deed),
        deed matches Deed::Insert { table, pk: own, given, columns } ==> length_of(db, table, own)
            <= 2 && covers(table_of(tables, table)->0, columns),
        deed matches Deed::Adopt { table, pk: own, given, columns } ==> covers(
            table_of(tables, table)->0,
            columns,
        ),
        table_of(tables, name) is Some,
        decodes(table_of(tables, name)->0.pk, pk),
    ensures
        carries(tables, db, done_to(tables, db, order, deed), deed, name, pk),
{
    let after = done_to(tables, db, order, deed);
    let spec = table_of(tables, name)->0;
    assert(table_kept(db, spec));
    assert(row_kept(db, spec, pk));
    match deed {
        Deed::Insert { table, pk: own, given, columns } => {
            let other = table_of(tables, table)->0;
            law_tracked_insert(tables, db, order, other, own, given, columns);
            if table == name && own == pk {
                lemma_taken_full(tables, after, spec, pk, columns);
            } else {
                lemma_apart(db, after, other, own, spec, pk);
            }
        },
        Deed::Adopt { table, pk: own, given, columns } => {
            let other = table_of(tables, table)->0;
            law_adopted_insert(tables, db, order, other, own, given, columns);
            if table == name && own == pk {
                lemma_taken_full(tables, after, spec, pk, columns);
            } else {
                lemma_apart(db, after, other, own, spec, pk);
            }
        },
        Deed::Update { table, pk: own, values, columns } => {
            let other = table_of(tables, table)->0;
            if table == name && own == pk {
                lemma_update_carries(tables, db, order, deed, name, pk);
            } else {
                law_tracked_update(tables, db, order, other, own, values, columns);
                lemma_apart(db, after, other, own, spec, pk);
            }
        },
        Deed::Delete { table, pk: own } => {
            let other = table_of(tables, table)->0;
            law_tracked_delete(tables, db, order, other, own);
            if table == name && own == pk {
                assert(row_of(after, spec, pk).cl == length_of(after, name, pk));
                assert(row_of(db, spec, pk).cl == length_of(db, name, pk));
            } else {
                lemma_apart(db, after, other, own, spec, pk);
            }
        },
        Deed::AddColumn { table, column } => {
            lemma_added(tables, db, order, table, column);
            assert(length_of(after, name, pk) == length_of(db, name, pk));
            assert forall|c: Seq<char>|
                #![trigger spec.columns.contains(c)]
                full(db, spec, pk) && spec.columns.contains(c) && c
                    != SENTINEL@ implies was_written(after, spec, pk, c) by {
                assert(was_written(db, spec, pk, c));
                assert(db.clocks.dom().contains((name, pk, c)));
            }
        },
        Deed::Merge { changes, now } => {
            lemma_merge_carries(tables, db, order, changes, now, name, pk);
        },
    }
}

/// A row all of whose columns were tracked is full.
proof fn lemma_taken_full(
    tables: Seq<TableView>,
    after: Database,
    table: TableView,
    pk: Seq<char>,
    columns: Seq<Seq<char>>,
)
    requires
        covers(table, columns),
        forall|c: Seq<char>| #[trigger]
            columns.contains(c) ==> row_of(after, table, pk).cells.dom().contains(c),
    ensures
        full(after, table, pk),
        row_of(after, table, pk).cl == length_of(after, table.name, pk),
{
    assert forall|c: Seq<char>|
        #![trigger table.columns.contains(c)]
        table.columns.contains(c) && c != SENTINEL@ implies was_written(after, table, pk, c) by {
        assert(columns.contains(c));
        assert(row_of(after, table, pk).cells.dom().contains(c));
    }
}

/// What happens to one row does not bear on the life of another.
proof fn lemma_apart(
    db: Database,
    after: Database,
    table: TableView,
    own: Seq<char>,
    other: TableView,
    pk: Seq<char>,
)
    requires
        only_row(db, after, table, own),
        decodes(table.pk, own),
        decodes(other.pk, pk),
        table.name == other.name ==> table == other,
        !(table.name == other.name && own == pk),
    ensures
        length_of(after, other.name, pk) == length_of(db, other.name, pk),
        full(db, other, pk) ==> full(after, other, pk),
{
    assert(after.clocks.dom().contains((other.name, pk, SENTINEL@)) == db.clocks.dom().contains(
        (other.name, pk, SENTINEL@),
    ));
    assert forall|c: Seq<char>|
        #![trigger other.columns.contains(c)]
        full(db, other, pk) && other.columns.contains(c) && c != SENTINEL@ implies was_written(
        after,
        other,
        pk,
        c,
    ) by {
        assert(was_written(db, other, pk, c));
        assert(after.clocks.dom().contains((other.name, pk, c)) == db.clocks.dom().contains(
            (other.name, pk, c),
        ));
    }
}

impl Group {
    proof fn lemma_able_before(self, events: Seq<Event>, s: int)
        requires
            self.able(events),
            0 <= s <= events.len(),
        ensures
            self.able(events.take(s)),
    {
        let earlier = events.take(s);
        assert forall|t: int, j: int, name: Seq<char>|
            0 <= t <= earlier.len() && 0 <= j < self.starts.len() && table_of(
                self.tables,
                name,
            ) is Some implies #[trigger] lists_news(
            self.after(earlier.take(t))[j],
            self.order,
            name,
            0,
        ) by {
            assert(earlier.take(t) =~= events.take(t));
            assert(lists_news(self.after(events.take(t))[j], self.order, name, 0));
        }
    }

    proof fn lemma_possible_before(self, events: Seq<Event>, s: int)
        requires
            self.able(events),
            self.possible(events),
            0 <= s <= events.len(),
        ensures
            self.able(events.take(s)),
            self.possible(events.take(s)),
        decreases events.len(),
    {
        self.lemma_able_before(events, s);
        if s == events.len() {
            assert(events.take(s) =~= events);
        } else {
            let pre = events.drop_last();
            assert(pre =~= events.take(events.len() - 1));
            self.lemma_able_before(events, events.len() - 1);
            self.lemma_possible_before(pre, s);
            assert(pre.take(s) =~= events.take(s));
        }
    }

    proof fn lemma_orderly(self, events: Seq<Event>)
        requires
            self.able(events),
            self.possible(events),
        ensures
            self.after(events).len() == self.starts.len(),
            forall|i: int|
                0 <= i < self.starts.len() ==> orderly(
                    self.tables,
                    #[trigger] self.after(events)[i],
                ),
        decreases events.len(),
    {
        if events.len() == 0 {
            assert forall|i: int| 0 <= i < self.starts.len() implies orderly(
                self.tables,
                #[trigger] self.after(events)[i],
            ) by {
                assert(blank(self.tables, self.starts[i]));
                law_lived_replicas_are_orderly(
                    self.tables,
                    self.starts[i],
                    self.order,
                    Seq::empty(),
                );
            }
        } else {
            let pre = events.drop_last();
            assert(pre =~= events.take(events.len() - 1));
            self.lemma_possible_before(events, events.len() - 1);
            self.lemma_orderly(pre);
            let event = events.last();
            lemma_done(self.tables, self.after(pre)[event.at], self.order, event.deed);
        }
    }

    proof fn lemma_begun_later(
        self,
        events: Seq<Event>,
        s: int,
        k: int,
        name: Seq<char>,
        pk: Seq<char>,
        cl: i64,
    )
        requires
            0 <= s <= events.len(),
            self.begun(events.take(s), k, name, pk, cl),
        ensures
            self.begun(events, k, name, pk, cl),
    {
        let earlier = events.take(s);
        let t = choose|t: int|
            0 <= t < earlier.len() && #[trigger] begins_row(earlier[t], k, name, pk) && length_of(
                self.after(earlier.take(t + 1))[k],
                name,
                pk,
            ) == cl;
        assert(events.take(t + 1) =~= earlier.take(t + 1));
        assert(begins_row(events[t], k, name, pk));
    }

    /// A life that a replica learns of was told by one that was in it, and so it was begun.
    proof fn lemma_told_begun(
        self,
        events: Seq<Event>,
        x: ChangeView,
        name: Seq<char>,
        pk: Seq<char>,
    ) -> (k: int)
        requires
            self.able(events),
            self.possible(events),
            self.tells(events, x),
            concerns(self.tables, x, name, pk),
            table_of(self.tables, name) is Some,
            decodes(table_of(self.tables, name)->0.pk, pk),
            alive(x.cl),
        ensures
            0 <= k < self.starts.len(),
            self.begun(events, k, name, pk, x.cl),
        decreases events.len(), 1int,
    {
        let (s, j) = choose|s: int, j: int|
            0 <= s <= events.len() && 0 <= j < self.starts.len() && #[trigger] outgoing(
                self.tables,
                self.after(events.take(s))[j],
                self.order,
                0,
            ).contains(x);
        let earlier = events.take(s);
        let teller = self.after(earlier)[j];
        self.lemma_possible_before(events, s);
        self.lemma_orderly(earlier);
        assert forall|other: Seq<char>| #[trigger]
            table_of(self.tables, other) is Some implies lists_news(
            teller,
            self.order,
            other,
            0,
        ) by {
            assert(lists_news(self.after(events.take(s))[j], self.order, other, 0));
        }
        law_changes_since_tells_news(self.tables, teller, self.order, 0);
        assert(tells_news(self.tables, teller, 0, x));
        assert(x.cl == length_of(teller, name, pk));
        assert(earlier.len() <= events.len());
        self.lemma_founded(earlier, name, pk);
        let k = choose|k: int|
            0 <= k < self.starts.len() && #[trigger] self.begun(
                earlier,
                k,
                name,
                pk,
                length_of(teller, name, pk),
            );
        self.lemma_begun_later(events, s, k, name, pk, x.cl);
        k
    }

    proof fn lemma_founded(self, events: Seq<Event>, name: Seq<char>, pk: Seq<char>)
        requires
            self.able(events),
            self.possible(events),
            table_of(self.tables, name) is Some,
            decodes(table_of(self.tables, name)->0.pk, pk),
        ensures
            self.founded(events, name, pk),
        decreases events.len(), 0int,
    {
        if events.len() == 0 {
            self.lemma_founded_at_start(events, name, pk);
        } else {
            let pre = events.drop_last();
            let event = events.last();
            assert(pre =~= events.take(events.len() - 1));
            assert(pre.push(event) =~= events);
            self.lemma_possible_before(events, events.len() - 1);
            self.lemma_founded(pre, name, pk);
            self.lemma_event_carries(pre, event, name, pk);
            self.lemma_founded_kept(pre, event, name, pk);
            let now = self.after(events);
            assert forall|i: int|
                0 <= i < self.starts.len() && alive(
                    length_of(#[trigger] now[i], name, pk),
                ) implies exists|k: int|
                0 <= k < self.starts.len() && #[trigger] self.begun(
                    events,
                    k,
                    name,
                    pk,
                    length_of(now[i], name, pk),
                ) by {
                let k = self.lemma_begun_now(pre, event, name, pk, i);
                assert(self.begun(events, k, name, pk, length_of(now[i], name, pk)));
            }
        }
    }

    proof fn lemma_founded_at_start(self, events: Seq<Event>, name: Seq<char>, pk: Seq<char>)
        requires
            self.able(events),
            events.len() == 0,
        ensures
            self.founded(events, name, pk),
    {
        let now = self.after(events);
        assert forall|i: int| 0 <= i < self.starts.len() implies !alive(
            length_of(#[trigger] now[i], name, pk),
        ) by {
            assert(blank(self.tables, self.starts[i]));
            law_init_sets_up(self.tables, self.starts[i], self.order);
        }
    }

    proof fn lemma_event_carries(
        self,
        pre: Seq<Event>,
        event: Event,
        name: Seq<char>,
        pk: Seq<char>,
    )
        requires
            self.able(pre),
            self.possible(pre),
            self.allows(pre, event),
            table_of(self.tables, name) is Some,
            decodes(table_of(self.tables, name)->0.pk, pk),
        ensures
            self.after(pre).len() == self.starts.len(),
            carries(
                self.tables,
                self.after(pre)[event.at],
                self.after(pre.push(event))[event.at],
                event.deed,
                name,
                pk,
            ),
    {
        self.lemma_orderly(pre);
        assert(pre.push(event).drop_last() =~= pre);
        lemma_carries(self.tables, self.after(pre)[event.at], self.order, event.deed, name, pk);
    }

    /// The life that a replica is in was begun.
    proof fn lemma_begun_now(
        self,
        pre: Seq<Event>,
        event: Event,
        name: Seq<char>,
        pk: Seq<char>,
        i: int,
    ) -> (k: int)
        requires
            self.able(pre),
            self.possible(pre),
            self.allows(pre, event),
            table_of(self.tables, name) is Some,
            decodes(table_of(self.tables, name)->0.pk, pk),
            self.after(pre).len() == self.starts.len(),
            self.founded(pre, name, pk),
            carries(
                self.tables,
                self.after(pre)[event.at],
                self.after(pre.push(event))[event.at],
                event.deed,
                name,
                pk,
            ),
            0 <= i < self.starts.len(),
            alive(length_of(self.after(pre.push(event))[i], name, pk)),
        ensures
            0 <= k < self.starts.len(),
            self.begun(
                pre.push(event),
                k,
                name,
                pk,
                length_of(self.after(pre.push(event))[i], name, pk),
            ),
        decreases pre.len(), 2int,
    {
        let events = pre.push(event);
        let before = self.after(pre);
        let is = length_of(self.after(events)[i], name, pk);
        let last = pre.len() as int;
        assert(events.drop_last() =~= pre);
        assert(events.take(last) =~= pre);
        if length_of(before[i], name, pk) == is {
            let k = choose|k: int|
                0 <= k < self.starts.len() && #[trigger] self.begun(
                    pre,
                    k,
                    name,
                    pk,
                    length_of(before[i], name, pk),
                );
            self.lemma_begun_later(events, last, k, name, pk, is);
            k
        } else if begins_row(event, i, name, pk) {
            assert(events.take(last + 1) =~= events);
            assert(begins_row(events[last], i, name, pk));
            i
        } else {
            let changes = event.deed->changes;
            let c = choose|c: int|
                #![trigger changes[c]]
                0 <= c < changes.len() && concerns(self.tables, changes[c], name, pk)
                    && changes[c].cl == is;
            assert(self.tells(pre, changes[c]));
            let k = self.lemma_told_begun(pre, changes[c], name, pk);
            self.lemma_begun_later(events, last, k, name, pk, is);
            k
        }
    }

    /// What a replica began it keeps while it is in that life.
    proof fn lemma_founded_kept(
        self,
        pre: Seq<Event>,
        event: Event,
        name: Seq<char>,
        pk: Seq<char>,
    )
        requires
            self.after(pre).len() == self.starts.len(),
            0 <= event.at < self.starts.len(),
            self.founded(pre, name, pk),
            carries(
                self.tables,
                self.after(pre)[event.at],
                self.after(pre.push(event))[event.at],
                event.deed,
                name,
                pk,
            ),
        ensures
            forall|k: int, cl: i64|
                0 <= k < self.starts.len() && #[trigger] self.begun(
                    pre.push(event),
                    k,
                    name,
                    pk,
                    cl,
                ) ==> {
                    let now = self.after(pre.push(event));
                    &&& alive(cl)
                    &&& cl <= length_of(now[k], name, pk)
                    &&& cl == length_of(now[k], name, pk) ==> full(
                        now[k],
                        table_of(self.tables, name)->0,
                        pk,
                    )
                },
    {
        let events = pre.push(event);
        assert(events.drop_last() =~= pre);
        assert forall|k: int, cl: i64|
            0 <= k < self.starts.len() && #[trigger] self.begun(
                events,
                k,
                name,
                pk,
                cl,
            ) implies {
            let now = self.after(events);
            &&& alive(cl)
            &&& cl <= length_of(now[k], name, pk)
            &&& cl == length_of(now[k], name, pk) ==> full(
                now[k],
                table_of(self.tables, name)->0,
                pk,
            )
        } by {
            let s = choose|s: int|
                0 <= s < events.len() && #[trigger] begins_row(events[s], k, name, pk)
                    && length_of(self.after(events.take(s + 1))[k], name, pk) == cl;
            if s < pre.len() {
                assert(events.take(s + 1) =~= pre.take(s + 1));
                assert(begins_row(pre[s], k, name, pk));
                assert(self.begun(pre, k, name, pk, cl));
            } else {
                assert(events.take(s + 1) =~= events);
            }
        }
    }

    proof fn lemma_rest_pair(self, events: Seq<Event>, now: Seq<char>, i: int, j: int)
        requires
            self.able(events),
            self.possible(events),
            at_rest(self.tables, self.after(events), self.order, now),
            0 <= i < self.starts.len(),
            0 <= j < self.starts.len(),
        ensures
            same_rows(self.tables, self.after(events)[i], self.after(events)[j]),
    {
        self.lemma_orderly(events);
        assert(events.take(events.len() as int) =~= events);
        let a = self.after(events)[i];
        let b = self.after(events)[j];
        assert forall|name: Seq<char>| #[trigger]
            table_of(self.tables, name) is Some implies lists_news(a, self.order, name, 0)
            && lists_news(b, self.order, name, 0) by {
            let all = events.len() as int;
            assert(lists_news(self.after(events.take(all))[i], self.order, name, 0));
            assert(lists_news(self.after(events.take(all))[j], self.order, name, 0));
        }
        lemma_rest_agrees(self.tables, a, b, self.order, now);
    }
}

/// Whether two replicas agree on whether a row is there and, if it is, on the values of all columns
/// that its table tracks.
pub open spec fn same_tracked_row(
    a: Database,
    b: Database,
    table: TableView,
    pk: Seq<char>,
) -> bool {
    let key = key_of(table.pk, pk);
    &&& a.rows.contains((table.name, key)) == b.rows.contains((table.name, key))
    &&& a.rows.contains((table.name, key)) ==> forall|column: Seq<char>| #[trigger]
        table.columns.contains(column) && column != SENTINEL@ ==> text_in(a, table, pk, column)
            == text_in(b, table, pk, column)
}

/// Replicas that were set up with empty tables and insert rows with all their columns, that update,
/// delete, add columns and merge what others told them as they like, agree on all rows as wholes
/// once none of them learns anything from what another one tells: on which rows there are, on the
/// values of all tracked columns, and on causal lengths, versions and sites.
pub proof fn law_group_at_rest_agrees(
    group: Group,
    events: Seq<Event>,
    now: Seq<char>,
    i: int,
    j: int,
)
    requires
        group.able(events),
        group.possible(events),
        at_rest(group.tables, group.after(events), group.order, now),
        0 <= i < group.starts.len(),
        0 <= j < group.starts.len(),
    ensures
        same_rows(group.tables, group.after(events)[i], group.after(events)[j]),
        forall|name: Seq<char>, pk: Seq<char>|
            table_of(group.tables, name) is Some && decodes(
                table_of(group.tables, name)->0.pk,
                pk,
            ) ==> #[trigger] same_tracked_row(
                group.after(events)[i],
                group.after(events)[j],
                table_of(group.tables, name)->0,
                pk,
            ),
{
    let tables = group.tables;
    let replicas = group.after(events);
    let a = replicas[i];
    let b = replicas[j];
    group.lemma_orderly(events);
    group.lemma_rest_pair(events, now, i, j);
    assert forall|name: Seq<char>, pk: Seq<char>|
        table_of(tables, name) is Some && decodes(
            table_of(tables, name)->0.pk,
            pk,
        ) implies #[trigger] same_tracked_row(a, b, table_of(tables, name)->0, pk) by {
        let table = table_of(tables, name)->0;
        assert(table_kept(a, table) && table_kept(b, table));
        assert(row_kept(a, table, pk) && row_kept(b, table, pk));
        let row_a = row_of(a, table_of(tables, name)->0, pk);
        assert(row_a == row_of(b, table_of(tables, name)->0, pk));
        if alive(length_of(a, name, pk)) {
            group.lemma_founded(events, name, pk);
            let k = choose|k: int|
                0 <= k < group.starts.len() && #[trigger] group.begun(
                    events,
                    k,
                    name,
                    pk,
                    length_of(replicas[i], name, pk),
                );
            group.lemma_rest_pair(events, now, k, i);
            let founder = replicas[k];
            assert(row_of(founder, table_of(tables, name)->0, pk) == row_a);
            assert(length_of(founder, name, pk) == length_of(a, name, pk));
            assert forall|column: Seq<char>| #[trigger]
                table.columns.contains(column) && column != SENTINEL@ implies text_in(
                a,
                table,
                pk,
                column,
            ) == text_in(b, table, pk, column) by {
                assert(was_written(founder, table, pk, column));
                assert(row_of(founder, table, pk).cells.dom().contains(column));
                assert(row_a.cells.dom().contains(column));
                assert(row_a.cells[column].text == text_in(a, table, pk, column));
                assert(row_of(b, table, pk).cells[column].text == text_in(b, table, pk, column));
            }
        }
    }
}

} // verus!
