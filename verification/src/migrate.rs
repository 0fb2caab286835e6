//! Explicit schema-migration operations.
//!
//! The metadata (the per-table `{table}__crr_clock` shadow tables and the persisted schema
//! fingerprint) must be kept in step with your application schema as it evolves. These operations
//! do exactly that: each one mutates the library's own metadata, never your real tables. You run
//! your own `ALTER TABLE` / rename first, update the in-memory schema, then run the matching
//! operation so the clock metadata (and any backfill required for existing rows to sync) catches
//! up.
//!
//! Each operation bumps the persisted schema version ([`Crr::schema_version`]) and re-stores the
//! schema fingerprint, so peers on a different schema are detectable via
//! [`Crr::apply_changeset`].
use vstd::hash_set::StringHashSet;
use vstd::prelude::*;

use crate::Crr;
use crate::alive;
use crate::flow::Halt;
use crate::flow::Journal;
use crate::flow::Rows;
use crate::flow::Script;
use crate::flow::Step;
use crate::flow::Turn;
use crate::flow::command;
use crate::flow::done;
use crate::flow::failed;
use crate::flow::halted;
use crate::flow::lemma_run_bind;
use crate::flow::query;
use crate::flow::run;
use crate::flow::step_of;
use crate::helpers::decodes;
use crate::is_alive;
use crate::schema::PkSpec;
use crate::schema::PkView;
use crate::schema::SENTINEL;
use crate::schema::TableView;
use crate::state::bump_script;
use crate::state::next_version_script;
use crate::state::site_script;
use crate::statement::Stamp;
use crate::statement::StampView;
use crate::statement::Statement;
use crate::statement::StatementView;
use crate::statement::clock_name;
use crate::statement::clock_table;
use crate::text::debug_char;
use crate::text::debug_sep;
use crate::text::debug_str;
use crate::text::debug_text;
use crate::text::decimal;
use crate::text::decimal_text;
use crate::text::same_text;
use crate::value::Error;
use crate::value::ErrorView;
use crate::value::Row;
use crate::value::SqlValue;
use crate::value::cell;
use crate::value::copy_bytes;
use crate::value::rows_view;
use crate::value::texts_view;

verus! {

broadcast use lemma_run_bind;

/// The keys in a listing of sentinels whose rows are alive.
pub open spec fn live_pks(rows: Rows) -> Seq<Seq<char>>
    decreases rows.len(),
{
    if rows.len() == 0 {
        Seq::empty()
    } else if alive(cell(rows.last(), 1).integer_or(0)) {
        live_pks(rows.drop_last()).push(cell(rows.last(), 0).text_or_empty())
    } else {
        live_pks(rows.drop_last())
    }
}

/// The keys in a listing of sentinels whose rows are alive.
pub fn read_live_pks(rows: &Vec<Row>) -> (pks: Vec<String>)
    ensures
        texts_view(pks@) == live_pks(rows_view(rows@)),
{
    let ghost views = rows_view(rows@);
    let mut pks: Vec<String> = Vec::new();
    assert(texts_view(pks@) =~= live_pks(views.take(0)));
    for i in 0..rows.len()
        invariant
            views == rows_view(rows@),
            texts_view(pks@) == live_pks(views.take(i as int)),
    {
        assert(views.take(i + 1).drop_last() =~= views.take(i as int));
        if is_alive(rows[i].get(1).integer_or(0)) {
            let ghost sofar = pks@;
            let pk = rows[i].get(0).text_or_empty();
            pks.push(pk);
            assert(texts_view(pks@) =~= texts_view(sofar).push(pk@));
        }
    }
    assert(views.take(views.len() as int) =~= views);
    pks
}

/// Stores a clock entry of version one for a column of each row from the one at `from` on, unless
/// it has one; the entries are numbered by their place.
pub open spec fn backfill_script(
    table: Seq<char>,
    column: Seq<char>,
    pks: Seq<Seq<char>>,
    db_ver: i64,
    site: Seq<u8>,
    from: int,
) -> Script<Result<(), ErrorView>>
    decreases pks.len() - from,
{
    if 0 <= from < pks.len() {
        if from > i64::MAX {
            Script::Fault
        } else {
            command(
                StatementView::SeedClock {
                    table,
                    stamp: StampView {
                        pk: pks[from],
                        column,
                        col_ver: 1,
                        db_ver,
                        site_id: site,
                        seq: from as i64,
                    },
                },
            ).and(|ok: ()| backfill_script(table, column, pks, db_ver, site, from + 1))
        }
    } else {
        done(())
    }
}

/// The error of an attempt to add the sentinel as a column.
pub open spec fn reserved_message() -> Seq<char> {
    "'__sentinel' is reserved and cannot be added as a column"@
}

/// Gives every living row of a table a clock entry for a column.
pub open spec fn add_column_script(
    tables: Seq<TableView>,
    table: Seq<char>,
    column: Seq<char>,
) -> Script<Result<(), ErrorView>> {
    if column == SENTINEL@ {
        failed(ErrorView::Backend(reserved_message()))
    } else {
        site_script().and(
            |site: Seq<u8>|
                query(StatementView::SelectSentinels { table }).and(
                    |rows: Rows|
                        (if live_pks(rows).len() == 0 {
                            done(())
                        } else {
                            next_version_script().and(
                                |db_ver: i64|
                                    backfill_script(table, column, live_pks(rows), db_ver, site, 0),
                            )
                        }).and(|ok: ()| bump_script(tables).and(|version: i64| done(()))),
                ),
        )
    }
}

/// The error of an attempt to drop the sentinel.
pub open spec fn refusal_message() -> Seq<char> {
    "refusing to drop the reserved '__sentinel' column"@
}

/// Removes the clock entries of a column.
pub open spec fn drop_column_script(
    tables: Seq<TableView>,
    table: Seq<char>,
    column: Seq<char>,
) -> Script<Result<(), ErrorView>> {
    if column == SENTINEL@ {
        failed(ErrorView::Backend(refusal_message()))
    } else {
        command(StatementView::DropColumn { table, column }).and(
            |ok: ()| bump_script(tables).and(|version: i64| done(())),
        )
    }
}

/// The error of an attempt to rename a table to one that has a clock table.
pub open spec fn taken_message(new_table: Seq<char>) -> Seq<char> {
    clock_name(new_table)
        + " already exists; rename the clock table before init() runs under the new name, or migrate manually"@
}

/// Renames the clock table of a table, unless the new name has one.
pub open spec fn rename_script(
    tables: Seq<TableView>,
    old_table: Seq<char>,
    new_table: Seq<char>,
) -> Script<Result<(), ErrorView>> {
    query(StatementView::ClockExists { table: new_table }).and(
        |rows: Rows|
            if rows.len() > 0 {
                failed(ErrorView::Backend(taken_message(new_table)))
            } else {
                command(StatementView::RenameClock { old_table, new_table }).and(
                    |ok: ()| bump_script(tables).and(|version: i64| done(())),
                )
            },
    )
}

/// A key text and the one that takes its place, or `None` where its clock entries are dropped.
#[derive(Clone, Debug)]
pub struct Recoding {
    pub old_pk: String,
    pub new_pk: Option<String>,
}

/// What a [`Recoding`] holds.
pub struct RecodingView {
    pub old_pk: Seq<char>,
    pub new_pk: Option<Seq<char>>,
}

impl View for Recoding {
    type V = RecodingView;

    open spec fn view(&self) -> RecodingView {
        RecodingView {
            old_pk: self.old_pk@,
            new_pk: match self.new_pk {
                Some(pk) => Some(pk@),
                None => None,
            },
        }
    }
}

/// What a list of recodings holds.
pub open spec fn recodings_view(mapping: Seq<Recoding>) -> Seq<RecodingView> {
    mapping.map_values(|recoding: Recoding| recoding@)
}

/// Whether the key `new_pk` is given to one of the first `n` old keys.
pub open spec fn given(mapping: Seq<RecodingView>, n: int, new_pk: Seq<char>) -> bool {
    exists|k: int| 0 <= k < n && (#[trigger] mapping[k]).new_pk == Some(new_pk)
}

/// The error of two old keys that were given one new key.
pub open spec fn collision_message(new_pk: Seq<char>) -> Seq<char> {
    "pk re-encode collision: two old keys map to "@ + debug_text(new_pk)
}

/// The error of a new key that does not hold a value for each key column.
pub open spec fn undecodable_message(new_pk: Seq<char>, sep: char) -> Seq<char> {
    "re-encoded pk "@ + debug_text(new_pk) + " does not decode into two components under separator "@
        + debug_char(sep)
}

/// What is wrong with the new key of the recoding at `i`: that an earlier one has it, or that it
/// does not hold a value for each key column.
pub open spec fn flaw(shape: PkView, mapping: Seq<RecodingView>, i: int) -> Option<Seq<char>> {
    match mapping[i].new_pk {
        Some(new_pk) => if given(mapping, i, new_pk) {
            Some(collision_message(new_pk))
        } else if !decodes(shape, new_pk) {
            Some(undecodable_message(new_pk, shape->sep))
        } else {
            None
        },
        None => None,
    }
}

/// The first thing that is wrong with the recodings from the one at `from` on.
pub open spec fn first_flaw(shape: PkView, mapping: Seq<RecodingView>, from: int) -> Option<
    Seq<char>,
>
    decreases mapping.len() - from,
{
    if 0 <= from < mapping.len() {
        match flaw(shape, mapping, from) {
            Some(message) => Some(message),
            None => first_flaw(shape, mapping, from + 1),
        }
    } else {
        None
    }
}

/// Gives the clock entries of each old key from the one at `from` on their new key, or drops them.
pub open spec fn recode_script(table: Seq<char>, mapping: Seq<RecodingView>, from: int) -> Script<
    Result<(), ErrorView>,
>
    decreases mapping.len() - from,
{
    if 0 <= from < mapping.len() {
        command(
            match mapping[from].new_pk {
                Some(new_pk) => StatementView::RewritePk {
                    table,
                    old_pk: mapping[from].old_pk,
                    new_pk,
                },
                None => StatementView::DropPk { table, pk: mapping[from].old_pk },
            },
        ).and(|ok: ()| recode_script(table, mapping, from + 1))
    } else {
        done(())
    }
}

/// Whether a key is one of the old keys.
pub open spec fn is_old(mapping: Seq<RecodingView>, pk: Seq<char>) -> bool {
    exists|k: int| 0 <= k < mapping.len() && (#[trigger] mapping[k]).old_pk == pk
}

/// Whether the new key of a recoding is the old key of another row.
pub open spec fn crosses(mapping: Seq<RecodingView>, i: int) -> bool {
    mapping[i].new_pk matches Some(new_pk) && new_pk != mapping[i].old_pk && is_old(mapping, new_pk)
}

/// Whether some new key is the old key of another row.
pub open spec fn crossing(mapping: Seq<RecodingView>) -> bool {
    exists|i: int| 0 <= i < mapping.len() && #[trigger] crosses(mapping, i)
}

/// The greater of two lengths.
pub open spec fn longer(a: nat, b: nat) -> nat {
    if a >= b {
        a
    } else {
        b
    }
}

/// The length of the longest of the keys.
pub open spec fn longest(keys: Seq<Seq<char>>) -> nat
    decreases keys.len(),
{
    if keys.len() == 0 {
        0
    } else {
        longer(longest(keys.drop_last()), keys.last().len())
    }
}

/// The length of the longest key of the recodings, old or new.
pub open spec fn widest(mapping: Seq<RecodingView>) -> nat
    decreases mapping.len(),
{
    if mapping.len() == 0 {
        0
    } else {
        longer(
            widest(mapping.drop_last()),
            longer(
                mapping.last().old_pk.len(),
                match mapping.last().new_pk {
                    Some(new_pk) => new_pk.len(),
                    None => 0,
                },
            ),
        )
    }
}

/// A key that no row has or gets, where those have at most `room` characters: it is longer, and
/// another one for each `i`.
pub open spec fn spare(room: nat, i: int) -> Seq<char> {
    Seq::new(room + 1, |k: int| '~') + decimal(i as nat)
}

/// The recodings with a spare key in place of each new key that is the old key of another row.
pub open spec fn vacated(mapping: Seq<RecodingView>, room: nat) -> Seq<RecodingView> {
    Seq::new(
        mapping.len(),
        |i: int|
            if crosses(mapping, i) {
                RecodingView { old_pk: mapping[i].old_pk, new_pk: Some(spare(room, i)) }
            } else {
                mapping[i]
            },
    )
}

/// The recodings, of the first `n`, that lead from the spare keys to the new keys.
pub open spec fn settled(mapping: Seq<RecodingView>, room: nat, n: int) -> Seq<RecodingView>
    decreases n,
{
    if n <= 0 {
        Seq::empty()
    } else if crosses(mapping, n - 1) {
        settled(mapping, room, n - 1).push(
            RecodingView { old_pk: spare(room, n - 1), new_pk: mapping[n - 1].new_pk },
        )
    } else {
        settled(mapping, room, n - 1)
    }
}

/// Gives the clock entries of each old key their new key, or drops them. Where a new key is the old
/// key of another row, the entries go by a key that no row has, so that rows can trade keys.
pub open spec fn move_script(table: Seq<char>, mapping: Seq<RecodingView>) -> Script<
    Result<(), ErrorView>,
> {
    if crossing(mapping) {
        stored_pks_script(table).and(
            |stored: Seq<Seq<char>>|
                recode_script(
                    table,
                    vacated(mapping, longer(longest(stored), widest(mapping))),
                    0,
                ).and(
                    |ok: ()|
                        recode_script(
                            table,
                            settled(
                                mapping,
                                longer(longest(stored), widest(mapping)),
                                mapping.len() as int,
                            ),
                            0,
                        ),
                ),
        )
    } else {
        recode_script(table, mapping, 0)
    }
}

/// Checks all new keys, then gives the clock entries of each old key their new key or drops them.
pub open spec fn change_pk_script(
    tables: Seq<TableView>,
    table: Seq<char>,
    shape: PkView,
    mapping: Seq<RecodingView>,
) -> Script<Result<(), ErrorView>> {
    match first_flaw(shape, mapping, 0) {
        Some(message) => failed(ErrorView::Backend(message)),
        None => move_script(table, mapping).and(
            |ok: ()| bump_script(tables).and(|version: i64| done(())),
        ),
    }
}

/// Lists the keys that a clock table holds.
pub open spec fn stored_pks_script(table: Seq<char>) -> Script<Result<Seq<Seq<char>>, ErrorView>> {
    query(StatementView::SelectPks { table }).and(
        |rows: Rows|
            done(rows.map_values(|row: Seq<SqlValue>| cell(row, 0).text_or_empty())),
    )
}

/// The old keys of a change of keys.
fn old_keys(mapping: &Vec<Recoding>) -> (keys: StringHashSet)
    ensures
        forall|pk: Seq<char>| #[trigger]
            keys@.contains(pk) == is_old(recodings_view(mapping@), pk),
{
    let ghost views = recodings_view(mapping@);
    let mut keys = StringHashSet::new();
    for i in 0..mapping.len()
        invariant
            views == recodings_view(mapping@),
            forall|pk: Seq<char>| #[trigger]
                keys@.contains(pk) == is_old(views.take(i as int), pk),
    {
        keys.insert(mapping[i].old_pk.clone());
        proof {
            let before = views.take(i as int);
            let after = views.take(i + 1);
            assert forall|pk: Seq<char>| #[trigger] keys@.contains(pk) == is_old(after, pk) by {
                if is_old(before, pk) {
                    let k = choose|k: int| 0 <= k < before.len() && before[k].old_pk == pk;
                    assert(after[k].old_pk == pk);
                }
                if is_old(after, pk) {
                    let k = choose|k: int| 0 <= k < after.len() && after[k].old_pk == pk;
                    if k < i {
                        assert(before[k].old_pk == pk);
                    }
                }
                assert(after[i as int].old_pk == mapping@[i as int].old_pk@);
            }
        }
    }
    assert(views.take(views.len() as int) =~= views);
    keys
}

/// Whether the new key of a recoding is the old key of another row.
fn trades(mapping: &Vec<Recoding>, olds: &StringHashSet, i: usize) -> (yes: bool)
    requires
        i < mapping@.len(),
        forall|pk: Seq<char>| #[trigger]
            olds@.contains(pk) == is_old(recodings_view(mapping@), pk),
    ensures
        yes == crosses(recodings_view(mapping@), i as int),
{
    match &mapping[i].new_pk {
        Some(new_pk) => !same_text(new_pk.as_str(), mapping[i].old_pk.as_str())
            && olds.contains(new_pk.as_str()),
        None => false,
    }
}

/// The length of the longest key, stored, old or new.
fn measure(mapping: &Vec<Recoding>, stored: &Vec<String>) -> (room: usize)
    ensures
        room == longer(longest(texts_view(stored@)), widest(recodings_view(mapping@))),
{
    let ghost keys = texts_view(stored@);
    let ghost views = recodings_view(mapping@);
    let mut a: usize = 0;
    for i in 0..stored.len()
        invariant
            keys == texts_view(stored@),
            a == longest(keys.take(i as int)),
    {
        let length = stored[i].as_str().unicode_len();
        if length > a {
            a = length;
        }
        assert(keys.take(i + 1).drop_last() =~= keys.take(i as int));
    }
    assert(keys.take(keys.len() as int) =~= keys);
    let mut b: usize = 0;
    for i in 0..mapping.len()
        invariant
            views == recodings_view(mapping@),
            b == widest(views.take(i as int)),
    {
        let length = mapping[i].old_pk.as_str().unicode_len();
        if length > b {
            b = length;
        }
        if let Some(new_pk) = &mapping[i].new_pk {
            let length = new_pk.as_str().unicode_len();
            if length > b {
                b = length;
            }
        }
        assert(views.take(i + 1).drop_last() =~= views.take(i as int));
        assert(views.take(i + 1).last() == mapping@[i as int]@);
    }
    assert(views.take(views.len() as int) =~= views);
    if a >= b {
        a
    } else {
        b
    }
}

/// The key that stands for the recoding at `i` while its new key is not free.
fn spare_key(room: usize, i: usize) -> (key: String)
    ensures
        key@ == spare(room as nat, i as int),
{
    let mut key = "".to_owned();
    proof {
        reveal_strlit("");
    }
    for n in 0..room
        invariant
            key@ =~= Seq::new(n as nat, |k: int| '~'),
    {
        key.push('~');
    }
    key.push('~');
    assert(key@ =~= Seq::new(room as nat + 1, |k: int| '~'));
    key.append(decimal_text(i as u64).as_str());
    key
}

/// The recodings in two parts: to new keys or, where these are not free yet, to spare keys; then
/// from the spare keys to the new keys.
fn detour(mapping: &Vec<Recoding>, olds: &StringHashSet, room: usize) -> (parts: (
    Vec<Recoding>,
    Vec<Recoding>,
))
    requires
        forall|pk: Seq<char>| #[trigger]
            olds@.contains(pk) == is_old(recodings_view(mapping@), pk),
    ensures
        recodings_view(parts.0@) == vacated(recodings_view(mapping@), room as nat),
        recodings_view(parts.1@) == settled(
            recodings_view(mapping@),
            room as nat,
            mapping@.len() as int,
        ),
{
    let ghost views = recodings_view(mapping@);
    let mut first: Vec<Recoding> = Vec::new();
    let mut second: Vec<Recoding> = Vec::new();
    assert(recodings_view(second@) =~= Seq::empty());
    for i in 0..mapping.len()
        invariant
            views == recodings_view(mapping@),
            forall|pk: Seq<char>| #[trigger] olds@.contains(pk) == is_old(views, pk),
            first@.len() == i,
            forall|k: int|
                0 <= k < i ==> (#[trigger] first@[k])@ == vacated(views, room as nat)[k],
            recodings_view(second@) == settled(views, room as nat, i as int),
    {
        let ghost sofar = recodings_view(second@);
        if trades(mapping, olds, i) {
            let own = Recoding {
                old_pk: spare_key(room, i),
                new_pk: match &mapping[i].new_pk {
                    Some(new_pk) => Some(new_pk.clone()),
                    None => None,
                },
            };
            let away = Recoding {
                old_pk: mapping[i].old_pk.clone(),
                new_pk: Some(spare_key(room, i)),
            };
            first.push(away);
            second.push(own);
            assert(own@.new_pk == views[i as int].new_pk);
            assert(recodings_view(second@) =~= sofar.push(own@));
        } else {
            let direct = Recoding {
                old_pk: mapping[i].old_pk.clone(),
                new_pk: match &mapping[i].new_pk {
                    Some(new_pk) => Some(new_pk.clone()),
                    None => None,
                },
            };
            assert(direct@ == views[i as int]);
            first.push(direct);
        }
    }
    assert(recodings_view(first@) =~= vacated(views, room as nat));
    (first, second)
}

/// Finds the first thing that is wrong with a change of keys.
fn find_flaw(shape: &PkSpec, mapping: &Vec<Recoding>) -> (message: Option<String>)
    ensures
        match message {
            Some(text) => first_flaw(shape@, recodings_view(mapping@), 0) == Some(text@),
            None => first_flaw(shape@, recodings_view(mapping@), 0) is None,
        },
{
    let ghost views = recodings_view(mapping@);
    let mut seen = StringHashSet::new();
    let mut i: usize = 0;
    while i < mapping.len()
        invariant
            i <= mapping@.len(),
            views == recodings_view(mapping@),
            forall|pk: Seq<char>| #[trigger] seen@.contains(pk) == given(views, i as int, pk),
            first_flaw(shape@, views, 0) == first_flaw(shape@, views, i as int),
        decreases mapping@.len() - i,
    {
        if let Some(new_pk) = &mapping[i].new_pk {
            // Collision guard.
            if seen.contains(new_pk.as_str()) {
                return Some(
                    "pk re-encode collision: two old keys map to ".to_owned().concat(
                        debug_str(new_pk.as_str()).as_str(),
                    ),
                );
            }
            // Separator-ambiguity guard for composite targets.
            if let PkSpec::Composite { columns, sep } = shape {
                if !pk_roundtrips(new_pk.as_str(), *sep) {
                    let mut text = "re-encoded pk ".to_owned();
                    text.append(debug_str(new_pk.as_str()).as_str());
                    text.append(" does not decode into two components under separator ");
                    text.append(debug_sep(*sep).as_str());
                    return Some(text);
                }
            }
            seen.insert(new_pk.clone());
        }
        proof {
            assert(flaw(shape@, views, i as int) is None);
            assert forall|pk: Seq<char>| #[trigger] seen@.contains(pk) == given(
                views,
                i + 1,
                pk,
            ) by {
                if given(views, i as int, pk) {
                    let k = choose|k: int| 0 <= k < i && (#[trigger] views[k]).new_pk == Some(pk);
                    assert(views[k].new_pk == Some(pk));
                }
                if views[i as int].new_pk == Some(pk) {
                    assert(given(views, i + 1, pk));
                }
            }
        }
        i += 1;
    }
    None
}

impl<D> Crr<D> {
    fn backfill(
        &self,
        j: &mut Journal,
        table: &str,
        column: &str,
        pks: &Vec<String>,
        db_ver: i64,
        site: &Vec<u8>,
    ) -> (step: Step<()>)
        ensures
            old(j).follows(
                *final(j),
                backfill_script(table@, column@, texts_view(pks@), db_ver, site@, 0),
                step_of(step),
            ),
    {
        let ghost views = texts_view(pks@);
        let mut i: usize = 0;
        while i < pks.len()
            invariant
                i <= pks@.len(),
                views == texts_view(pks@),
                run(
                    backfill_script(table@, column@, views, db_ver, site@, 0),
                    old(j).rest(),
                ) == run(
                    backfill_script(table@, column@, views, db_ver, site@, i as int),
                    j.rest(),
                ),
                j.all() == old(j).all(),
            decreases pks@.len() - i,
        {
            if i as u64 > i64::MAX as u64 {
                return Err(Halt::Fault);
            }
            let stamp = Stamp {
                pk: pks[i].clone(),
                column: column.to_owned(),
                col_ver: 1,
                db_ver,
                site_id: copy_bytes(site),
                seq: i as i64,
            };
            match j.command(Statement::SeedClock { table: table.to_owned(), stamp })? {
                Ok(()) => {},
                Err(error) => return Ok(Err(error)),
            }
            i += 1;
        }
        Ok(Ok(()))
    }

    fn finish_migration(&self, j: &mut Journal) -> (step: Step<()>)
        ensures
            old(j).follows(
                *final(j),
                bump_script(self.tables()).and(|version: i64| done(())),
                step_of(step),
            ),
    {
        match self.bump_schema_version(j)? {
            Ok(_) => Ok(Ok(())),
            Err(error) => Ok(Err(error)),
        }
    }

    /// Backfills clock entries so an added tracked column syncs for existing rows.
    ///
    /// You have already run `ALTER TABLE {table} ADD COLUMN {column}` on the real table, and
    /// `column` is present in the in-memory schema.
    ///
    /// For every **live** row (sentinel causal length odd) in `{table}__crr_clock` that lacks a
    /// clock entry for `column`, this inserts one at `col_ver = 1`. The whole backfill shares a
    /// single `db_ver` (a batch). Deleted rows are intentionally skipped: their column clocks are
    /// never read.
    ///
    /// Idempotent: re-running never clobbers a higher existing version and adds nothing once every
    /// live row is backfilled.
    pub fn migrate_add_column(&self, j: &mut Journal, table: &str, column: &str) -> (step: Step<()>)
        ensures
            old(j).follows(
                *final(j),
                add_column_script(self.tables(), table@, column@),
                step_of(step),
            ),
    {
        if same_text(column, SENTINEL) {
            return Ok(
                Err(
                    Error::Backend(
                        "'__sentinel' is reserved and cannot be added as a column".to_owned(),
                    ),
                ),
            );
        }
        let site = match self.site_id(j)? {
            Ok(site) => site,
            Err(error) => return Ok(Err(error)),
        };
        let pks = match j.query(Statement::SelectSentinels { table: table.to_owned() })? {
            Ok(rows) => read_live_pks(rows),
            Err(error) => return Ok(Err(error)),
        };
        assert(texts_view(pks@).len() == pks@.len());
        if pks.len() > 0 {
            // One db_ver for the whole batch; distinct seq per row keeps a stable order in the
            // outgoing stream.
            let db_ver = match self.next_db_version(j)? {
                Ok(db_ver) => db_ver,
                Err(error) => return Ok(Err(error)),
            };
            match self.backfill(j, table, column, &pks, db_ver, &site)? {
                Ok(()) => {},
                Err(error) => return Ok(Err(error)),
            }
        }
        self.finish_migration(j)
    }

    /// Drops a removed tracked column's clock metadata.
    ///
    /// `column` has been removed from the in-memory schema. Dropping the real column is your job.
    ///
    /// Deletes every `{table}__crr_clock` row for `column`. After this, inbound changes for the
    /// column are correctly unknown. Idempotent.
    pub fn migrate_drop_column(&self, j: &mut Journal, table: &str, column: &str) -> (step: Step<()>)
        ensures
            old(j).follows(
                *final(j),
                drop_column_script(self.tables(), table@, column@),
                step_of(step),
            ),
    {
        if same_text(column, SENTINEL) {
            return Ok(
                Err(
                    Error::Backend("refusing to drop the reserved '__sentinel' column".to_owned()),
                ),
            );
        }
        match j.command(
            Statement::DropColumn { table: table.to_owned(), column: column.to_owned() },
        )? {
            Ok(()) => {},
            Err(error) => return Ok(Err(error)),
        }
        self.finish_migration(j)
    }

    /// Whether the clock table of `table` exists.
    pub fn table_exists(&self, j: &mut Journal, table: &str) -> (step: Step<bool>)
        ensures
            old(j).follows(
                *final(j),
                query(StatementView::ClockExists { table: table@ }).and(
                    |rows: Rows| done(rows.len() > 0),
                ),
                step_of(step),
            ),
    {
        match j.query(Statement::ClockExists { table: table.to_owned() })? {
            Ok(rows) => Ok(Ok(rows.len() > 0)),
            Err(error) => Ok(Err(error)),
        }
    }

    /// Renames a table's clock metadata to follow a real-table rename.
    ///
    /// You have already renamed the real table, updated the in-memory schema to use `new_table`,
    /// and have **not** yet run [`Crr::init`] under the new name. This renames
    /// `{old_table}__crr_clock` to `{new_table}__crr_clock`, preserving all history.
    ///
    /// If `{new_table}__crr_clock` already exists this returns an error rather than risk a lossy
    /// merge.
    pub fn migrate_rename_table(&self, j: &mut Journal, old_table: &str, new_table: &str) -> (step:
        Step<()>)
        ensures
            old(j).follows(
                *final(j),
                rename_script(self.tables(), old_table@, new_table@),
                step_of(step),
            ),
    {
        match self.table_exists(j, new_table)? {
            Ok(exists) => if exists {
                return Ok(
                    Err(
                        Error::Backend(
                            clock_table(new_table).concat(
                                " already exists; rename the clock table before init() runs under the new name, or migrate manually",
                            ),
                        ),
                    ),
                );
            },
            Err(error) => return Ok(Err(error)),
        }
        match j.command(
            Statement::RenameClock {
                old_table: old_table.to_owned(),
                new_table: new_table.to_owned(),
            },
        )? {
            Ok(()) => {},
            Err(error) => return Ok(Err(error)),
        }
        self.finish_migration(j)
    }

    /// Lists the distinct primary keys that a table's clock metadata holds: those that
    /// [`Crr::migrate_change_pk`] needs a new encoding for.
    pub fn stored_pks(&self, j: &mut Journal, table: &str) -> (step: Step<Vec<String>>)
        ensures
            old(j).follows(
                *final(j),
                stored_pks_script(table@),
                match step {
                    Ok(Ok(pks)) => Turn::Done(Ok(texts_view(pks@))),
                    Ok(Err(error)) => Turn::Done(Err(error@)),
                    Err(halt) => halted(halt),
                },
            ),
    {
        let rows = match j.query(Statement::SelectPks { table: table.to_owned() })? {
            Ok(rows) => rows,
            Err(error) => return Ok(Err(error)),
        };
        let mut pks: Vec<String> = Vec::new();
        for i in 0..rows.len()
            invariant
                pks@.len() == i,
                forall|k: int|
                    0 <= k < i ==> #[trigger] pks@[k]@ == cell(rows@[k]@, 0).text_or_empty(),
        {
            pks.push(rows[i].get(0).text_or_empty());
        }
        assert(texts_view(pks@) =~= rows_view(rows@).map_values(
            |row: Seq<SqlValue>| cell(row, 0).text_or_empty(),
        ));
        Ok(Ok(pks))
    }

    fn recode(&self, j: &mut Journal, table: &str, mapping: &Vec<Recoding>) -> (step: Step<()>)
        ensures
            old(j).follows(
                *final(j),
                recode_script(table@, recodings_view(mapping@), 0),
                step_of(step),
            ),
    {
        let ghost views = recodings_view(mapping@);
        let mut i: usize = 0;
        while i < mapping.len()
            invariant
                i <= mapping@.len(),
                views == recodings_view(mapping@),
                run(recode_script(table@, views, 0), old(j).rest()) == run(
                    recode_script(table@, views, i as int),
                    j.rest(),
                ),
                j.all() == old(j).all(),
            decreases mapping@.len() - i,
        {
            let statement = match &mapping[i].new_pk {
                Some(new_pk) => Statement::RewritePk {
                    table: table.to_owned(),
                    old_pk: mapping[i].old_pk.clone(),
                    new_pk: new_pk.clone(),
                },
                None => Statement::DropPk {
                    table: table.to_owned(),
                    pk: mapping[i].old_pk.clone(),
                },
            };
            match j.command(statement)? {
                Ok(()) => {},
                Err(error) => return Ok(Err(error)),
            }
            i += 1;
        }
        Ok(Ok(()))
    }

    fn move_keys(&self, j: &mut Journal, table: &str, mapping: &Vec<Recoding>) -> (step: Step<()>)
        ensures
            old(j).follows(
                *final(j),
                move_script(table@, recodings_view(mapping@)),
                step_of(step),
            ),
    {
        let ghost views = recodings_view(mapping@);
        let olds = old_keys(mapping);
        let mut trading = false;
        let mut i: usize = 0;
        while i < mapping.len() && !trading
            invariant
                i <= mapping@.len(),
                views == recodings_view(mapping@),
                forall|pk: Seq<char>| #[trigger] olds@.contains(pk) == is_old(views, pk),
                trading ==> crossing(views),
                !trading ==> forall|k: int| 0 <= k < i ==> !#[trigger] crosses(views, k),
            decreases mapping@.len() - i,
        {
            trading = trades(mapping, &olds, i);
            i += 1;
        }
        if !trading {
            return self.recode(j, table, mapping);
        }
        let stored = match self.stored_pks(j, table)? {
            Ok(stored) => stored,
            Err(error) => return Ok(Err(error)),
        };
        let room = measure(mapping, &stored);
        let (first, second) = detour(mapping, &olds, room);
        match self.recode(j, table, &first)? {
            Ok(()) => {},
            Err(error) => return Ok(Err(error)),
        }
        self.recode(j, table, &second)
    }

    /// Re-encodes every stored primary-key string in a table's clock metadata to follow a change
    /// in primary-key shape.
    ///
    /// You have already migrated the real table's key columns to the new shape and updated the
    /// in-memory schema. `mapping` gives each of the keys that [`Crr::stored_pks`] lists its new
    /// encoding, or drops that key's clock rows entirely.
    ///
    /// All clock rows sharing an old key (its sentinel and every column) are rewritten to the new
    /// key in one statement. Rows may trade keys: where a new key is the old key of another row,
    /// they first go, again in one statement, to a key that no row has.
    ///
    /// # Errors
    ///
    /// Rejects the migration *before* writing anything if two old keys map to the same new key, or
    /// if `new_pk` is composite and any produced key does not decode into two components under its
    /// separator.
    pub fn migrate_change_pk(
        &self,
        j: &mut Journal,
        table: &str,
        new_pk: &PkSpec,
        mapping: &Vec<Recoding>,
    ) -> (step: Step<()>)
        ensures
            old(j).follows(
                *final(j),
                change_pk_script(self.tables(), table@, new_pk@, recodings_view(mapping@)),
                step_of(step),
            ),
    {
        if let Some(message) = find_flaw(new_pk, mapping) {
            return Ok(Err(Error::Backend(message)));
        }
        match self.move_keys(j, table, mapping)? {
            Ok(()) => {},
            Err(error) => return Ok(Err(error)),
        }
        self.finish_migration(j)
    }
}

/// Whether a composite key text splits into two components under `sep`.
pub fn pk_roundtrips(pk: &str, sep: char) -> (yes: bool)
    ensures
        yes == crate::text::halves(pk@, sep) is Some,
{
    crate::text::split_at_first(pk, sep).is_some()
}

} // verus!
