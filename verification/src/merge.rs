//! Merge logic for applying remote changes, by last write.
use vstd::prelude::*;

use crate::ChangeRow;
use crate::ChangeView;
use crate::Changeset;
use crate::ChangesetView;
use crate::Crr;
use crate::MergeResult;
use crate::alive;
use crate::changes_view;
use crate::flow::Halt;
use crate::flow::Journal;
use crate::flow::ReplyView;
use crate::flow::Script;
use crate::flow::Step;
use crate::flow::command;
use crate::flow::continues;
use crate::flow::done;
use crate::flow::lemma_continues_further;
use crate::flow::lemma_continues_here;
use crate::flow::lemma_run_bind;
use crate::flow::lemma_run_more;
use crate::flow::run;
use crate::flow::step_of;
use crate::flow::turn_of;
use crate::gone;
use crate::helpers::attempt;
use crate::helpers::clock_script;
use crate::helpers::col_ver_script;
use crate::helpers::decodes;
use crate::helpers::delete_script;
use crate::helpers::pk_decodes;
use crate::helpers::read_script;
use crate::helpers::skeleton_script;
use crate::helpers::write_script;
use crate::is_alive;
use crate::is_gone;
use crate::json::Json;
use crate::json::JsonView;
use crate::json::as_stored;
use crate::json::compare_json_values;
use crate::json::has_json;
use crate::json::stored_form;
use crate::json::value_of;
use crate::schema::SENTINEL;
use crate::schema::SkeletonValue;
use crate::schema::TableView;
use crate::schema::fingerprint_of;
use crate::schema::current_time;
use crate::schema::table_of;
use crate::schema::tracks;
use crate::state::next_version_script;
use crate::state::site_script;
use crate::statement::Stamp;
use crate::statement::StampView;
use crate::statement::Statement;
use crate::statement::StatementView;
use crate::text::Ranking;
use crate::text::bytes_before;
use crate::text::codes;
use crate::text::compare_bytes;
use crate::text::ranking;
use crate::text::same_text;
use crate::tracking::sentinel_entry;
use crate::tracking::sentinel_stamp;
use crate::value::ErrorView;
use crate::value::copy_bytes;

verus! {

broadcast use lemma_run_bind;

/// What became of a change.
#[derive(Clone, Copy, Debug, PartialEq, Eq, Structural)]
pub enum Verdict {
    /// It won its merge and was written.
    Applied,
    /// It lost its merge.
    Skipped,
    /// Its table or column is not tracked here.
    Unknown,
}

impl View for Verdict {
    type V = Verdict;

    open spec fn view(&self) -> Verdict {
        *self
    }
}

/// What an incoming causal length calls for, beside one that is held.
#[derive(Clone, Copy, Debug, PartialEq, Eq, Structural)]
pub enum Existence {
    /// Nothing: it is no news.
    Stale,
    /// The row is new here.
    Create,
    /// The row was deleted here and lives again.
    Resurrect,
    /// The row is deleted.
    Delete,
    /// The row lives here and, without its old columns, begins a later life.
    Advance,
}

/// What the incoming causal length `cl` calls for where `local` is held.
pub open spec fn existence(local: i64, cl: i64) -> Existence {
    if cl <= local {
        Existence::Stale
    } else if gone(cl) {
        Existence::Delete
    } else if local == 0 {
        Existence::Create
    } else if local > 0 && gone(local) {
        Existence::Resurrect
    } else {
        Existence::Advance
    }
}

/// What the causal length of an incoming column change calls for, beside one that is held.
#[derive(Clone, Copy, Debug, PartialEq, Eq, Structural)]
pub enum Gate {
    /// The change is of an earlier life of the row, or the row is dead: it is dropped.
    Shut,
    /// The change is of the row as it lives here.
    Open,
    /// The change is of a state of the row that is later than the one held: that state is entered
    /// first.
    Enter,
}

/// What a column change with the causal length `cl` calls for where `local` is held.
pub open spec fn gate(local: i64, cl: i64) -> Gate {
    if cl > local {
        Gate::Enter
    } else if cl == local && alive(local) {
        Gate::Open
    } else {
        Gate::Shut
    }
}

/// Whether, of two writes of one version, that of `value` at `site` prevails over that of `local`
/// at `local_site`: the greater value by its JSON text, then the greater site.
pub open spec fn prevails(
    value: JsonView,
    site: Seq<u8>,
    local: JsonView,
    local_site: Seq<u8>,
) -> bool {
    match ranking(codes(value.text()), codes(local.text())) {
        Ranking::Greater => true,
        Ranking::Less => false,
        Ranking::Equal => bytes_before(local_site, site),
    }
}

/// Stores the causal length of a change.
pub open spec fn mark_script(change: ChangeView) -> Script<Result<(), ErrorView>> {
    next_version_script().and(
        |db_ver: i64|
            command(
                StatementView::PutClock {
                    table: change.table_name,
                    stamp: sentinel_stamp(change.pk, change.cl, db_ver, change.site_id),
                },
            ),
    )
}

/// Creates the row of a change anew, with all its columns at version zero.
pub open spec fn revive_script(tables: Seq<TableView>, change: ChangeView, now: Seq<char>) -> Script<
    (),
> {
    skeleton_script(tables, change.table_name, change.pk, now).bind(
        |ok: ()|
            attempt(StatementView::ZeroColumns { table: change.table_name, pk: change.pk }),
    )
}

/// Does to the row what the causal length of a change calls for.
pub open spec fn existence_script(
    tables: Seq<TableView>,
    change: ChangeView,
    now: Seq<char>,
    existence: Existence,
) -> Script<()> {
    match existence {
        Existence::Create => skeleton_script(tables, change.table_name, change.pk, now),
        Existence::Resurrect => revive_script(tables, change, now),
        Existence::Delete => delete_script(tables, change.table_name, change.pk),
        Existence::Advance => delete_script(tables, change.table_name, change.pk).bind(
            |ok: ()| revive_script(tables, change, now),
        ),
        Existence::Stale => Script::Done(()),
    }
}

/// Brings the row to the state that the causal length of a change tells of, where `local` is held.
pub open spec fn enter_script(
    tables: Seq<TableView>,
    change: ChangeView,
    now: Seq<char>,
    local: i64,
) -> Script<Result<(), ErrorView>> {
    existence_script(tables, change, now, existence(local, change.cl)).bind(
        |ok: ()| mark_script(change),
    )
}

/// Merges a change of a row's existence.
pub open spec fn sentinel_script(tables: Seq<TableView>, change: ChangeView, now: Seq<char>) -> Script<
    Result<Verdict, ErrorView>,
> {
    col_ver_script(change.table_name, change.pk, SENTINEL@).bind(
        |local: i64|
            if existence(local, change.cl) == Existence::Stale {
                done(Verdict::Skipped)
            } else {
                enter_script(tables, change, now, local).and(|ok: ()| done(Verdict::Applied))
            },
    )
}

/// Stores the value of a column change, and its clock entry.
pub open spec fn take_script(tables: Seq<TableView>, change: ChangeView) -> Script<
    Result<Verdict, ErrorView>,
> {
    write_script(
        tables,
        change.table_name,
        change.pk,
        change.col_name,
        change.col_val,
    ).bind(
        |ok: ()|
            next_version_script().and(
                |db_ver: i64|
                    command(
                        StatementView::PutClock {
                            table: change.table_name,
                            stamp: StampView {
                                pk: change.pk,
                                column: change.col_name,
                                col_ver: change.col_ver,
                                db_ver,
                                site_id: change.site_id,
                                seq: change.seq,
                            },
                        },
                    ).and(|ok: ()| done(Verdict::Applied)),
            ),
    )
}

/// Whether the value of a column change has somewhere to land: its key text has a value for each key
/// column.
pub open spec fn lands(tables: Seq<TableView>, change: ChangeView) -> bool {
    table_of(tables, change.table_name) matches Some(spec) && decodes(spec.pk, change.pk)
}

/// Takes over a column change that has somewhere to land if it beats what is held: by its version,
/// then by its value as a column stores it, then by its site.
pub open spec fn contest_script(tables: Seq<TableView>, change: ChangeView) -> Script<
    Result<Verdict, ErrorView>,
> {
    if lands(tables, change) {
        rivalry_script(tables, change)
    } else {
        done(Verdict::Skipped)
    }
}

/// Takes over a column change if it beats what is held.
pub open spec fn rivalry_script(tables: Seq<TableView>, change: ChangeView) -> Script<
    Result<Verdict, ErrorView>,
> {
    clock_script(change.table_name, change.pk, change.col_name).bind(
        |entry: (i64, Seq<u8>)|
            if change.col_ver > entry.0 {
                take_script(tables, change)
            } else if change.col_ver < entry.0 {
                done(Verdict::Skipped)
            } else {
                read_script(tables, change.table_name, change.pk, change.col_name).bind(
                    |local: JsonView|
                        if !has_json(value_of(change.col_val)) {
                            Script::Fault
                        } else if prevails(
                            stored_form(change.col_val),
                            change.site_id,
                            local,
                            entry.1,
                        ) {
                            take_script(tables, change)
                        } else {
                            done(Verdict::Skipped)
                        },
                )
            },
    )
}

/// Merges a change of a column.
pub open spec fn column_script(tables: Seq<TableView>, change: ChangeView, now: Seq<char>) -> Script<
    Result<Verdict, ErrorView>,
> {
    col_ver_script(change.table_name, change.pk, SENTINEL@).bind(
        |local: i64|
            match gate(local, change.cl) {
                Gate::Shut => done(Verdict::Skipped),
                Gate::Open => contest_script(tables, change),
                Gate::Enter => enter_script(tables, change, now, local).and(
                    |ok: ()|
                        if gone(change.cl) {
                            done(Verdict::Skipped)
                        } else {
                            contest_script(tables, change)
                        },
                ),
            },
    )
}

/// Merges a change.
pub open spec fn verdict_script(tables: Seq<TableView>, change: ChangeView, now: Seq<char>) -> Script<
    Result<Verdict, ErrorView>,
> {
    if !tracks(tables, change.table_name, change.col_name) {
        done(Verdict::Unknown)
    } else if change.col_name == SENTINEL@ {
        sentinel_script(tables, change, now)
    } else {
        column_script(tables, change, now)
    }
}

impl MergeResult {
    /// The number of changes that the summary tells of.
    pub open spec fn total(self) -> int {
        self.applied + self.skipped + self.skipped_unknown
    }

    /// The summary with one more change.
    pub open spec fn counted(self, verdict: Verdict) -> MergeResult {
        match verdict {
            Verdict::Applied => MergeResult { applied: (self.applied + 1) as usize, ..self },
            Verdict::Skipped => MergeResult { skipped: (self.skipped + 1) as usize, ..self },
            Verdict::Unknown => MergeResult {
                skipped_unknown: (self.skipped_unknown + 1) as usize,
                ..self
            },
        }
    }

    /// The summary of no changes.
    pub open spec fn none() -> MergeResult {
        MergeResult { applied: 0, skipped: 0, skipped_unknown: 0, peer_schema: None }
    }

    /// Counts one more change.
    pub fn count(self, verdict: Verdict) -> (result: Self)
        requires
            self.total() < usize::MAX,
        ensures
            result == self.counted(verdict),
            result.total() == self.total() + 1,
    {
        let mut result = self;
        match verdict {
            Verdict::Applied => {
                result.applied = self.applied + 1;
            },
            Verdict::Skipped => {
                result.skipped = self.skipped + 1;
            },
            Verdict::Unknown => {
                result.skipped_unknown = self.skipped_unknown + 1;
            },
        }
        result
    }
}

/// Merges the changes from the one at `from` on, and counts them in `tally`.
pub open spec fn merge_script(
    tables: Seq<TableView>,
    changes: Seq<ChangeView>,
    now: Seq<char>,
    from: int,
    tally: MergeResult,
) -> Script<Result<MergeResult, ErrorView>>
    decreases changes.len() - from,
{
    if 0 <= from < changes.len() {
        verdict_script(tables, changes[from], now).and(
            |verdict: Verdict|
                merge_script(tables, changes, now, from + 1, tally.counted(verdict)),
        )
    } else {
        done(tally)
    }
}

/// Merges changes into a database that has a site.
pub open spec fn apply_script(tables: Seq<TableView>, changes: Seq<ChangeView>, now: Seq<char>) -> Script<
    Result<MergeResult, ErrorView>,
> {
    site_script().and(
        |site: Seq<u8>| merge_script(tables, changes, now, 0, MergeResult::none()),
    )
}

/// The summary of a changeset's merge: `result`, with the sender's schema identity where it
/// differs from that of `tables`.
pub open spec fn with_peer(
    tables: Seq<TableView>,
    changeset: ChangesetView,
    result: MergeResult,
) -> MergeResult {
    MergeResult {
        peer_schema: if changeset.fingerprint == fingerprint_of(tables) {
            None
        } else {
            Some((changeset.schema_version, changeset.fingerprint))
        },
        ..result
    }
}

/// Merges a changeset.
pub open spec fn apply_changeset_script(
    tables: Seq<TableView>,
    changeset: ChangesetView,
    now: Seq<char>,
) -> Script<Result<MergeResult, ErrorView>> {
    apply_script(tables, changeset.rows, now).and(
        |result: MergeResult| done(with_peer(tables, changeset, result)),
    )
}

/// Decides what the incoming causal length `cl` calls for where `local` is held.
pub fn decide_existence(local: i64, cl: i64) -> (decision: Existence)
    ensures
        decision == existence(local, cl),
{
    if cl <= local {
        Existence::Stale
    } else if is_gone(cl) {
        Existence::Delete
    } else if local == 0 {
        Existence::Create
    } else if local > 0 && is_gone(local) {
        Existence::Resurrect
    } else {
        Existence::Advance
    }
}

/// Decides what a column change with the causal length `cl` calls for where `local` is held.
pub fn decide_gate(local: i64, cl: i64) -> (decision: Gate)
    ensures
        decision == gate(local, cl),
{
    if cl > local {
        Gate::Enter
    } else if cl == local && is_alive(local) {
        Gate::Open
    } else {
        Gate::Shut
    }
}

/// Decides, of two writes of one version, whether that of `value` at `site` prevails over that of
/// `local` at `local_site`.
pub fn breaks_tie(value: &Json, site: &Vec<u8>, local: &Json, local_site: &Vec<u8>) -> (wins: bool)
    ensures
        wins == prevails(value@, site@, local@, local_site@),
{
    match compare_json_values(value, local) {
        Ranking::Greater => true,
        Ranking::Less => false,
        // Final tie-break by site_id; same site means duplicate.
        Ranking::Equal => {
            proof {
                crate::text::lemma_before_total(
                    crate::text::octets(site@),
                    crate::text::octets(local_site@),
                );
                crate::text::lemma_octets_injective(site@, local_site@);
            }
            matches!(compare_bytes(site, local_site), Ranking::Greater)
        },
    }
}

impl<D> Crr<D> {
    fn mark(&self, j: &mut Journal, change: &ChangeRow) -> (step: Step<()>)
        ensures
            old(j).follows(*final(j), mark_script(change@), step_of(step)),
    {
        let db_ver = match self.next_db_version(j)? {
            Ok(db_ver) => db_ver,
            Err(error) => return Ok(Err(error)),
        };
        let stamp = sentinel_entry(change.pk.as_str(), change.cl, db_ver, &change.site_id);
        j.command(Statement::PutClock { table: change.table_name.clone(), stamp })
    }

    fn revive(&self, j: &mut Journal, change: &ChangeRow, now: &str) -> (step: Result<(), Halt>)
        ensures
            old(j).follows(
                *final(j),
                revive_script(self.tables(), change@, now@),
                turn_of(step),
            ),
    {
        self.create_skeleton_row(j, change.table_name.as_str(), change.pk.as_str(), now)?;
        self.zero_column_clocks(j, change.table_name.as_str(), change.pk.as_str())
    }

    fn enact(&self, j: &mut Journal, change: &ChangeRow, now: &str, existence: Existence) -> (step:
        Result<(), Halt>)
        ensures
            old(j).follows(
                *final(j),
                existence_script(self.tables(), change@, now@, existence),
                turn_of(step),
            ),
    {
        match existence {
            Existence::Create => self.create_skeleton_row(
                j,
                change.table_name.as_str(),
                change.pk.as_str(),
                now,
            ),
            // Resurrect: re-create row and zero clocks so incoming values win.
            Existence::Resurrect => self.revive(j, change, now),
            Existence::Delete => self.delete_row(
                j,
                change.table_name.as_str(),
                change.pk.as_str(),
            ),
            // A later life of a row that lives: nothing of the old one is kept.
            Existence::Advance => {
                self.delete_row(j, change.table_name.as_str(), change.pk.as_str())?;
                self.revive(j, change, now)
            },
            Existence::Stale => Ok(()),
        }
    }

    fn enter(&self, j: &mut Journal, change: &ChangeRow, now: &str, local: i64) -> (step: Step<()>)
        ensures
            old(j).follows(
                *final(j),
                enter_script(self.tables(), change@, now@, local),
                step_of(step),
            ),
    {
        self.enact(j, change, now, decide_existence(local, change.cl))?;
        self.mark(j, change)
    }

    fn apply_sentinel(&self, j: &mut Journal, change: &ChangeRow, now: &str) -> (step: Step<Verdict>)
        ensures
            old(j).follows(
                *final(j),
                sentinel_script(self.tables(), change@, now@),
                step_of(step),
            ),
    {
        let local = self.get_col_ver(j, change.table_name.as_str(), change.pk.as_str(), SENTINEL)?;
        if decide_existence(local, change.cl) == Existence::Stale {
            return Ok(Ok(Verdict::Skipped));
        }
        match self.enter(j, change, now, local)? {
            Ok(()) => Ok(Ok(Verdict::Applied)),
            Err(error) => Ok(Err(error)),
        }
    }

    fn take(&self, j: &mut Journal, change: &ChangeRow) -> (step: Step<Verdict>)
        ensures
            old(j).follows(*final(j), take_script(self.tables(), change@), step_of(step)),
    {
        self.write_column_value(
            j,
            change.table_name.as_str(),
            change.pk.as_str(),
            change.col_name.as_str(),
            &change.col_val,
        )?;
        let db_ver = match self.next_db_version(j)? {
            Ok(db_ver) => db_ver,
            Err(error) => return Ok(Err(error)),
        };
        let stamp = Stamp {
            pk: change.pk.clone(),
            column: change.col_name.clone(),
            col_ver: change.col_ver,
            db_ver,
            site_id: copy_bytes(&change.site_id),
            seq: change.seq,
        };
        match j.command(Statement::PutClock { table: change.table_name.clone(), stamp })? {
            Ok(()) => Ok(Ok(Verdict::Applied)),
            Err(error) => Ok(Err(error)),
        }
    }

    fn contest(&self, j: &mut Journal, change: &ChangeRow) -> (step: Step<Verdict>)
        ensures
            old(j).follows(*final(j), contest_script(self.tables(), change@), step_of(step)),
    {
        // A malformed composite key stands for no row: there is nowhere to land, and no clock of
        // what was not written.
        let complete = match self.schema().table(change.table_name.as_str()) {
            Some(spec) => pk_decodes(&spec.pk, change.pk.as_str()),
            None => false,
        };
        if !complete {
            return Ok(Ok(Verdict::Skipped));
        }
        let (ver, site) = self.get_clock_entry(
            j,
            change.table_name.as_str(),
            change.pk.as_str(),
            change.col_name.as_str(),
        )?;
        let wins = if change.col_ver > ver {
            true
        } else if change.col_ver < ver {
            false
        } else {
            // Tie-break: compare values, then site_id (of clock entry, not local device).
            let local = self.read_column_value(
                j,
                change.table_name.as_str(),
                change.pk.as_str(),
                change.col_name.as_str(),
            )?;
            match as_stored(&change.col_val) {
                Some(value) => breaks_tie(&value, &change.site_id, &local, &site),
                None => return Err(Halt::Fault),
            }
        };
        if wins {
            self.take(j, change)
        } else {
            Ok(Ok(Verdict::Skipped))
        }
    }

    fn apply_column(&self, j: &mut Journal, change: &ChangeRow, now: &str) -> (step: Step<Verdict>)
        ensures
            old(j).follows(
                *final(j),
                column_script(self.tables(), change@, now@),
                step_of(step),
            ),
    {
        let local = self.get_col_ver(j, change.table_name.as_str(), change.pk.as_str(), SENTINEL)?;
        match decide_gate(local, change.cl) {
            Gate::Shut => Ok(Ok(Verdict::Skipped)),
            Gate::Open => self.contest(j, change),
            // Out-of-order: the column arrived before the sentinel of its row's state. The state
            // is entered as that sentinel would, which is then correctly a no-op.
            Gate::Enter => {
                match self.enter(j, change, now, local)? {
                    Ok(()) => {},
                    Err(error) => return Ok(Err(error)),
                }
                if is_gone(change.cl) {
                    // A column of a deleted row has nowhere to land. Its clock is not recorded: a
                    // dead row's column clocks are never read, as a new life zeroes them first.
                    Ok(Ok(Verdict::Skipped))
                } else {
                    self.contest(j, change)
                }
            },
        }
    }

    /// Merges one change, with `now` as the current time.
    pub fn apply_change(&self, j: &mut Journal, change: &ChangeRow, now: &str) -> (step: Step<
        Verdict,
    >)
        ensures
            old(j).follows(
                *final(j),
                verdict_script(self.tables(), change@, now@),
                step_of(step),
            ),
    {
        if !self.schema().is_valid_column(change.table_name.as_str(), change.col_name.as_str()) {
            Ok(Ok(Verdict::Unknown))
        } else if same_text(change.col_name.as_str(), SENTINEL) {
            self.apply_sentinel(j, change, now)
        } else {
            self.apply_column(j, change, now)
        }
    }

    /// Applies remote changes as [`Crr::apply_changes`] does, with `now` as the current time.
    pub fn apply_rows(&self, j: &mut Journal, changes: &[ChangeRow], now: &str) -> (step: Step<
        MergeResult,
    >)
        ensures
            old(j).follows(
                *final(j),
                apply_script(self.tables(), changes_view(changes@), now@),
                step_of(step),
            ),
            step matches Ok(Ok(result)) ==> result.total() == changes@.len(),
    {
        match self.site_id(j)? {
            Ok(_) => {},
            Err(error) => return Ok(Err(error)),
        }
        let ghost views = changes_view(changes@);
        let mut result = MergeResult::default();
        let mut i: usize = 0;
        while i < changes.len()
            invariant
                i <= changes@.len(),
                views == changes_view(changes@),
                result.total() == i,
                run(apply_script(self.tables(), views, now@), old(j).rest()) == run(
                    merge_script(self.tables(), views, now@, i as int, result),
                    j.rest(),
                ),
                j.all() == old(j).all(),
            decreases changes@.len() - i,
        {
            match self.apply_change(j, &changes[i], now)? {
                Ok(verdict) => {
                    result = result.count(verdict);
                },
                Err(error) => return Ok(Err(error)),
            }
            i += 1;
        }
        Ok(Ok(result))
    }

    /// Applies remote changes, by last write.
    ///
    /// Idempotent and order-independent: applying the same changes twice, or in a different order,
    /// converges to the same state. A row's causal length decides first, then per column its
    /// version, its value and its site.
    ///
    /// Unknown tables/columns (per the schema) are skipped rather than trusted, and counted in
    /// [`MergeResult::skipped_unknown`].
    ///
    /// This is the raw entry point; prefer [`Crr::apply_changeset`] when the sender provides a
    /// [`Changeset`] envelope, to also learn the peer's schema identity on a mismatch.
    pub fn apply_changes(&self, j: &mut Journal, changes: &[ChangeRow]) -> (step: Step<MergeResult>)
        ensures
            exists|now: String| #[trigger]
                SkeletonValue::comes_of_clock(now) && "+00:00"@.is_suffix_of(now@) && old(
                    j,
                ).follows(
                    *final(j),
                    apply_script(self.tables(), changes_view(changes@), now@),
                    step_of(step),
                ),
            step matches Ok(Ok(result)) ==> result.total() == changes@.len(),
    {
        let now = current_time();
        self.apply_rows(j, changes, now.as_str())
    }

    /// The summary of a changeset's merge, from that of the merge of its rows: with the sender's
    /// schema identity where it differs from ours.
    pub fn note_peer(&self, changeset: &Changeset, result: MergeResult) -> (noted: MergeResult)
        ensures
            noted == with_peer(self.tables(), changeset@, result),
    {
        let mut noted = result;
        noted.peer_schema =
        if changeset.fingerprint == self.schema().fingerprint() {
            None
        } else {
            Some((changeset.schema_version, changeset.fingerprint))
        };
        noted
    }

    /// Applies a versioned [`Changeset`] envelope as [`Crr::apply_changeset`] does, with `now` as
    /// the current time.
    pub fn apply_changeset_at(&self, j: &mut Journal, changeset: &Changeset, now: &str) -> (step:
        Step<MergeResult>)
        ensures
            old(j).follows(
                *final(j),
                apply_changeset_script(self.tables(), changeset@, now@),
                step_of(step),
            ),
            step matches Ok(Ok(result)) ==> result.total() == changeset.rows@.len(),
    {
        match self.apply_rows(j, changeset.rows.as_slice(), now)? {
            Ok(result) => Ok(Ok(self.note_peer(changeset, result))),
            Err(error) => Ok(Err(error)),
        }
    }

    /// Applies a versioned [`Changeset`] envelope.
    ///
    /// Behaves exactly like [`Crr::apply_changes`] for the merge itself, and additionally records
    /// the sender's schema identity in [`MergeResult::peer_schema`] whenever it differs from ours.
    /// The merge still applies every change it *can*; only genuinely unknown ones are skipped (and
    /// counted in [`MergeResult::skipped_unknown`]).
    pub fn apply_changeset(&self, j: &mut Journal, changeset: &Changeset) -> (step: Step<
        MergeResult,
    >)
        ensures
            exists|now: String| #[trigger]
                SkeletonValue::comes_of_clock(now) && "+00:00"@.is_suffix_of(now@) && old(
                    j,
                ).follows(
                    *final(j),
                    apply_changeset_script(self.tables(), changeset@, now@),
                    step_of(step),
                ),
            step matches Ok(Ok(result)) ==> result.total() == changeset.rows@.len(),
    {
        let now = current_time();
        self.apply_changeset_at(j, changeset, now.as_str())
    }
}

/// A merge of many changes that is carried on from one change to the next, so that the replies to
/// the statements of a change can be forgotten once it is merged.
pub struct Merge {
    started: bool,
    next: usize,
    result: MergeResult,
}

impl Merge {
    /// What is left to do of the merge.
    pub closed spec fn script(
        self,
        tables: Seq<TableView>,
        changes: Seq<ChangeView>,
        now: Seq<char>,
    ) -> Script<Result<MergeResult, ErrorView>> {
        if self.started {
            merge_script(tables, changes, now, self.next as int, self.result)
        } else {
            apply_script(tables, changes, now)
        }
    }

    /// Whether the merge can be one of that many changes.
    pub closed spec fn within(self, count: nat) -> bool {
        self.next <= count && self.result.total() == self.next
    }

    /// A merge that has not begun.
    pub fn new() -> (merge: Self)
        ensures
            forall|count: nat| merge.within(count),
            forall|tables: Seq<TableView>, changes: Seq<ChangeView>, now: Seq<char>|
                #![trigger merge.script(tables, changes, now)]
                merge.script(tables, changes, now) == apply_script(tables, changes, now),
    {
        Merge { started: false, next: 0, result: MergeResult::default() }
    }
}

impl<D> Crr<D> {
    /// Carries on a merge of `changes`, with `now` as the current time, until it is over or needs
    /// a reply. The journal holds only the replies of the change that is being merged.
    pub fn resume_merge_at(
        &self,
        merge: &mut Merge,
        j: &mut Journal,
        changes: &[ChangeRow],
        now: &str,
    ) -> (step: Step<MergeResult>)
        requires
            old(merge).within(changes@.len()),
            old(j).rest() == old(j).all(),
        ensures
            final(merge).within(changes@.len()),
            step_of(step) == run(
                old(merge).script(self.tables(), changes_view(changes@), now@),
                old(j).all(),
            ).0,
            continues(
                old(merge).script(self.tables(), changes_view(changes@), now@),
                old(j).all(),
                final(merge).script(self.tables(), changes_view(changes@), now@),
                final(j).all(),
            ),
    {
        let ghost tables = self.tables();
        let ghost views = changes_view(changes@);
        let ghost first = merge.script(tables, views, now@);
        let ghost replies = j.all();
        if !merge.started {
            match self.site_id(j)? {
                Ok(_) => {},
                Err(error) => return Ok(Err(error)),
            }
            j.forget();
            merge.started = true;
            merge.next = 0;
            merge.result = MergeResult::default();
            assert forall|more: Seq<ReplyView>| #[trigger]
                run(first, replies + more) == run(
                merge.script(tables, views, now@),
                j.all() + more,
            ) by {
                lemma_run_more(site_script(), replies, more);
            }
        }
        while merge.next < changes.len()
            invariant
                tables == self.tables(),
                views == changes_view(changes@),
                first == old(merge).script(tables, views, now@),
                replies == old(j).all(),
                merge.started,
                merge.within(changes@.len()),
                j.rest() == j.all(),
                continues(first, replies, merge.script(tables, views, now@), j.all()),
            ensures
                merge.next == changes@.len(),
            decreases changes@.len() - merge.next,
        {
            let ghost here = merge.script(tables, views, now@);
            let ghost held = j.all();
            proof {
                lemma_continues_here(first, replies, here, held);
            }
            let verdict = match self.apply_change(j, &changes[merge.next], now)? {
                Ok(verdict) => verdict,
                Err(error) => return Ok(Err(error)),
            };
            let ghost from = merge.next as int;
            j.forget();
            merge.result = merge.result.count(verdict);
            merge.next = merge.next + 1;
            proof {
                assert forall|more: Seq<ReplyView>| #[trigger]
                    run(here, held + more) == run(
                    merge.script(tables, views, now@),
                    j.all() + more,
                ) by {
                    lemma_run_more(verdict_script(tables, views[from], now@), held, more);
                }
                lemma_continues_further(
                    first,
                    replies,
                    here,
                    held,
                    merge.script(tables, views, now@),
                    j.all(),
                );
            }
        }
        proof {
            lemma_continues_here(first, replies, merge.script(tables, views, now@), j.all());
        }
        Ok(Ok(merge.result))
    }
}

impl<D> Crr<D> {
    /// Carries on a merge of `changes` until it is over or needs a reply, as [`Crr::apply_changes`]
    /// does from its beginning. The journal holds only the replies of the change that is being
    /// merged.
    pub fn resume_merge(&self, merge: &mut Merge, j: &mut Journal, changes: &[ChangeRow]) -> (step:
        Step<MergeResult>)
        requires
            old(merge).within(changes@.len()),
            old(j).rest() == old(j).all(),
        ensures
            final(merge).within(changes@.len()),
            exists|now: String|
                {
                    &&& #[trigger] SkeletonValue::comes_of_clock(now)
                    &&& "+00:00"@.is_suffix_of(now@)
                    &&& step_of(step) == run(
                        old(merge).script(self.tables(), changes_view(changes@), now@),
                        old(j).all(),
                    ).0
                    &&& continues(
                        old(merge).script(self.tables(), changes_view(changes@), now@),
                        old(j).all(),
                        final(merge).script(self.tables(), changes_view(changes@), now@),
                        final(j).all(),
                    )
                },
    {
        let now = current_time();
        self.resume_merge_at(merge, j, changes, now.as_str())
    }
}

} // verus!
