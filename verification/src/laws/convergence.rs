//! What a merge does to a row, and why replicas converge.
//!
//! A row is seen as its causal length and the values that were written to its columns, each with
//! its version and site. Merging a change takes a row to another ([`merged`]); merging many, one
//! after the other, is [`replay`]. A row's causal length decides before anything else, and within
//! one life the columns are joined, so the outcome depends neither on the order of the changes nor
//! on their repetition.
use vstd::prelude::*;

use crate::ChangeView;
use crate::alive;
use crate::gone;
use crate::json::stored_form;
use crate::schema::SENTINEL;
use crate::text::Ranking;
use crate::text::before;
use crate::text::bytes_before;
use crate::text::codes;
use crate::text::lemma_before_total;
use crate::text::lemma_before_transitive;
use crate::text::lemma_codes_injective;
use crate::text::lemma_octets_injective;
use crate::text::octets;
use crate::text::ranking;

verus! {

/// A value that was written to a column: its version, its JSON text, and the site that wrote it.
pub struct Written {
    pub ver: i64,
    pub text: Seq<char>,
    pub site: Seq<u8>,
}

/// A row: its causal length, and the values that were written to its columns while it lives.
#[verifier::ext_equal]
pub struct RowView {
    pub cl: i64,
    pub cells: Map<Seq<char>, Written>,
}

/// Whether `a` wins over `b`: by the higher version, then by the greater value, then by the
/// greater site.
pub open spec fn outranks(a: Written, b: Written) -> bool {
    if a.ver != b.ver {
        a.ver > b.ver
    } else {
        match ranking(codes(a.text), codes(b.text)) {
            Ranking::Greater => true,
            Ranking::Less => false,
            Ranking::Equal => bytes_before(b.site, a.site),
        }
    }
}

/// Conflicts resolve deterministically: of two different writes exactly one wins over the other,
/// and no write wins over itself.
pub proof fn law_conflicts_resolve(a: Written, b: Written)
    ensures
        a == b ==> !outranks(a, b),
        a != b ==> outranks(a, b) != outranks(b, a),
{
    lemma_before_total(codes(a.text), codes(b.text));
    lemma_before_total(codes(b.text), codes(a.text));
    lemma_codes_injective(a.text, b.text);
    lemma_before_total(octets(a.site), octets(b.site));
    lemma_octets_injective(a.site, b.site);
}

/// What wins over a write wins over all that this one wins over.
pub proof fn law_conflicts_transitive(a: Written, b: Written, c: Written)
    requires
        outranks(a, b),
        outranks(b, c),
    ensures
        outranks(a, c),
{
    if a.ver == b.ver && b.ver == c.ver {
        let (x, y, z) = (codes(a.text), codes(b.text), codes(c.text));
        lemma_before_total(x, y);
        lemma_before_total(y, z);
        lemma_before_total(x, z);
        if x != y && y != z {
            assert(before(y, x) && before(z, y));
            lemma_before_transitive(z, y, x);
            lemma_before_total(z, x);
        } else if x == y && y == z {
            lemma_before_transitive(octets(c.site), octets(b.site), octets(a.site));
        }
    }
}

/// Whether a change is one of a row's existence.
pub open spec fn is_sentinel(change: ChangeView) -> bool {
    change.col_name == SENTINEL@
}

/// The write that a column change tells of, with its value as a column stores it.
pub open spec fn brought(change: ChangeView) -> Written {
    Written { ver: change.col_ver, text: stored_form(change.col_val).text(), site: change.site_id }
}

/// The values of a row that lives, after a column change. Version zero stands for a column that
/// was never written.
pub open spec fn contested(cells: Map<Seq<char>, Written>, change: ChangeView) -> Map<
    Seq<char>,
    Written,
> {
    if change.col_ver >= 1 && (!cells.dom().contains(change.col_name) || outranks(
        brought(change),
        cells[change.col_name],
    )) {
        cells.insert(change.col_name, brought(change))
    } else {
        cells
    }
}

/// A row after a change: a greater causal length begins a new state without values, an equal one
/// contests the column if the row lives, and a smaller one is no news.
pub open spec fn merged(row: RowView, change: ChangeView) -> RowView {
    let start = if change.cl > row.cl {
        RowView { cl: change.cl, cells: Map::empty() }
    } else {
        row
    };
    if change.cl == start.cl && alive(start.cl) && !is_sentinel(change) {
        RowView { cl: start.cl, cells: contested(start.cells, change) }
    } else {
        start
    }
}

/// Merging is per column: a change of one column that begins no new state of the row leaves the
/// writes to its other columns in place.
pub proof fn law_columns_merge_apart(row: RowView, change: ChangeView, column: Seq<char>)
    requires
        change.cl <= row.cl,
        column != change.col_name,
    ensures
        merged(row, change).cl == row.cl,
        merged(row, change).cells.dom().contains(column) == row.cells.dom().contains(column),
        row.cells.dom().contains(column) ==> merged(row, change).cells[column]
            == row.cells[column],
{
}

/// A row after changes, one after the other.
pub open spec fn replay(row: RowView, changes: Seq<ChangeView>) -> RowView
    decreases changes.len(),
{
    if changes.len() == 0 {
        row
    } else {
        merged(replay(row, changes.drop_last()), changes.last())
    }
}

/// Whether a row is what bookkeeping makes of it: its causal length is not negative, and a row that
/// does not live has no values.
pub open spec fn kept(row: RowView) -> bool {
    row.cl >= 0 && (gone(row.cl) ==> row.cells == Map::<Seq<char>, Written>::empty())
}

/// The values with which a row of the causal length `m` begins: those that it holds, if it is of
/// that length.
pub open spec fn begins(row: RowView, m: i64) -> Map<Seq<char>, Written> {
    if row.cl == m {
        row.cells
    } else {
        Map::empty()
    }
}

/// Whether a change tells of a write to a column of a row with the causal length `m`.
pub open spec fn writes(change: ChangeView, m: i64, column: Seq<char>, w: Written) -> bool {
    !is_sentinel(change) && change.cl == m && change.col_name == column && change.col_ver >= 1
        && brought(change) == w
}

/// Whether `w` is one of the writes to `column` that are to be joined.
pub open spec fn candidate(
    cells: Map<Seq<char>, Written>,
    changes: Set<ChangeView>,
    m: i64,
    column: Seq<char>,
    w: Written,
) -> bool {
    ||| cells.dom().contains(column) && cells[column] == w
    ||| exists|x: ChangeView| #[trigger] changes.contains(x) && writes(x, m, column, w)
}

/// Whether `result` holds for each column the write that no other wins over, of those in `cells`
/// and those that `changes` tell of at the causal length `m`.
pub open spec fn joins(
    cells: Map<Seq<char>, Written>,
    changes: Set<ChangeView>,
    m: i64,
    result: Map<Seq<char>, Written>,
) -> bool {
    &&& forall|c: Seq<char>, w: Written| #[trigger]
        candidate(cells, changes, m, c, w) ==> result.dom().contains(c) && !outranks(w, result[c])
    &&& forall|c: Seq<char>| #[trigger]
        result.dom().contains(c) ==> candidate(cells, changes, m, c, result[c])
}

proof fn lemma_joins_unique(
    cells: Map<Seq<char>, Written>,
    changes: Set<ChangeView>,
    m: i64,
    a: Map<Seq<char>, Written>,
    b: Map<Seq<char>, Written>,
)
    requires
        joins(cells, changes, m, a),
        joins(cells, changes, m, b),
    ensures
        a == b,
{
    assert forall|c: Seq<char>| #[trigger] a.dom().contains(c) == b.dom().contains(c) by {
        if a.dom().contains(c) {
            assert(candidate(cells, changes, m, c, a[c]));
        }
        if b.dom().contains(c) {
            assert(candidate(cells, changes, m, c, b[c]));
        }
    }
    assert forall|c: Seq<char>| a.dom().contains(c) implies #[trigger] a[c] == b[c] by {
        assert(b.dom().contains(c));
        assert(candidate(cells, changes, m, c, a[c]));
        assert(candidate(cells, changes, m, c, b[c]));
        law_conflicts_resolve(a[c], b[c]);
    }
    assert(a =~= b);
}

/// Where no change writes, what is held stays.
proof fn lemma_joins_none(cells: Map<Seq<char>, Written>, changes: Set<ChangeView>, m: i64)
    requires
        forall|x: ChangeView| #[trigger] changes.contains(x) ==> x.cl != m,
    ensures
        joins(cells, changes, m, cells),
{
    assert forall|c: Seq<char>, w: Written| #[trigger]
        candidate(cells, changes, m, c, w) implies cells.dom().contains(c) && !outranks(
        w,
        cells[c],
    ) by {
        law_conflicts_resolve(w, cells[c]);
    }
}

/// A change that is no column change of the causal length `m` does not bear on the values.
proof fn lemma_joins_aside(
    cells: Map<Seq<char>, Written>,
    changes: Set<ChangeView>,
    m: i64,
    result: Map<Seq<char>, Written>,
    x: ChangeView,
)
    requires
        joins(cells, changes, m, result),
        is_sentinel(x) || x.cl != m,
    ensures
        joins(cells, changes.insert(x), m, result),
{
    let more = changes.insert(x);
    assert forall|c: Seq<char>, w: Written| #[trigger]
        candidate(cells, more, m, c, w) == candidate(cells, changes, m, c, w) by {
        if candidate(cells, more, m, c, w) && !(cells.dom().contains(c) && cells[c] == w) {
            let y = choose|y: ChangeView| #[trigger] more.contains(y) && writes(y, m, c, w);
            assert(changes.contains(y));
        }
        if candidate(cells, changes, m, c, w) && !(cells.dom().contains(c) && cells[c] == w) {
            let y = choose|y: ChangeView| #[trigger] changes.contains(y) && writes(y, m, c, w);
            assert(more.contains(y));
        }
    }
}

/// A column change is joined with what is held.
proof fn lemma_joins_column(
    cells: Map<Seq<char>, Written>,
    changes: Set<ChangeView>,
    m: i64,
    result: Map<Seq<char>, Written>,
    x: ChangeView,
)
    requires
        joins(cells, changes, m, result),
        !is_sentinel(x),
        x.cl == m,
    ensures
        joins(cells, changes.insert(x), m, contested(result, x)),
{
    let more = changes.insert(x);
    let after = contested(result, x);
    let w0 = brought(x);
    assert forall|c: Seq<char>, w: Written| #[trigger]
        candidate(cells, changes, m, c, w) implies candidate(cells, more, m, c, w) by {
        if !(cells.dom().contains(c) && cells[c] == w) {
            let y = choose|y: ChangeView| #[trigger] changes.contains(y) && writes(y, m, c, w);
            assert(more.contains(y));
        }
    }
    if x.col_ver >= 1 {
        assert(more.contains(x) && writes(x, m, x.col_name, w0));
        assert(candidate(cells, more, m, x.col_name, w0));
    }
    assert forall|c: Seq<char>, w: Written| #[trigger]
        candidate(cells, more, m, c, w) implies after.dom().contains(c) && !outranks(
        w,
        after[c],
    ) by {
        let old_one = candidate(cells, changes, m, c, w);
        if !old_one {
            let y = choose|y: ChangeView| #[trigger] more.contains(y) && writes(y, m, c, w);
            assert(y == x) by {
                if changes.contains(y) {
                    assert(candidate(cells, changes, m, c, w));
                }
            }
            assert(c == x.col_name && w == w0);
            law_conflicts_resolve(w0, w0);
        } else {
            assert(result.dom().contains(c) && !outranks(w, result[c]));
            if after[c] != result[c] {
                assert(c == x.col_name && after[c] == w0 && outranks(w0, result[c]));
                if outranks(w, w0) {
                    law_conflicts_transitive(w, w0, result[c]);
                }
            }
        }
    }
    assert forall|c: Seq<char>| #[trigger] after.dom().contains(c) implies candidate(
        cells,
        more,
        m,
        c,
        after[c],
    ) by {
        if c == x.col_name && after != result {
            assert(after[c] == w0);
        } else {
            assert(result.dom().contains(c));
            assert(candidate(cells, changes, m, c, result[c]));
        }
    }
}

proof fn lemma_to_set_last(changes: Seq<ChangeView>)
    requires
        changes.len() > 0,
    ensures
        changes.to_set() == changes.drop_last().to_set().insert(changes.last()),
{
    let set = changes.drop_last().to_set().insert(changes.last());
    assert forall|x: ChangeView| changes.to_set().contains(x) == set.contains(x) by {
        if changes.contains(x) {
            let i = choose|i: int| 0 <= i < changes.len() && changes[i] == x;
            if i < changes.len() - 1 {
                assert(changes.drop_last()[i] == x);
            }
        }
        if changes.drop_last().contains(x) {
            let i = choose|i: int|
                0 <= i < changes.drop_last().len() && changes.drop_last()[i] == x;
            assert(changes[i] == x);
        }
        assert(changes[changes.len() - 1] == changes.last());
    }
    assert(changes.to_set() =~= set);
}

/// Whether `r` is what a row and a set of changes come to together: the greatest causal length of
/// all and, if that is the one of a living row, for each column the write at that length that no
/// other wins over.
pub open spec fn sums(row: RowView, changes: Set<ChangeView>, r: RowView) -> bool {
    &&& row.cl <= r.cl
    &&& forall|x: ChangeView| #[trigger] changes.contains(x) ==> x.cl <= r.cl
    &&& row.cl == r.cl || exists|x: ChangeView| #[trigger] changes.contains(x) && x.cl == r.cl
    &&& gone(r.cl) ==> r.cells == Map::<Seq<char>, Written>::empty()
    &&& alive(r.cl) ==> joins(begins(row, r.cl), changes, r.cl, r.cells)
}

/// Changes that are merged one after the other, in whichever order, leave a row with what it and
/// they come to together.
pub proof fn lemma_replay_sums(row: RowView, changes: Seq<ChangeView>)
    requires
        kept(row),
    ensures
        kept(replay(row, changes)),
        sums(row, changes.to_set(), replay(row, changes)),
    decreases changes.len(),
{
    let set = changes.to_set();
    if changes.len() == 0 {
        assert(set =~= Set::empty());
        lemma_joins_none(row.cells, set, row.cl);
    } else {
        lemma_to_set_last(changes);
        let head = changes.drop_last();
        let x = changes.last();
        lemma_replay_sums(row, head);
        let sofar = replay(row, head);
        let r = replay(row, changes);
        assert(set.contains(x));
        if x.cl > sofar.cl {
            assert forall|y: ChangeView| #[trigger] head.to_set().contains(y) implies y.cl
                != r.cl by {}
            lemma_joins_none(Map::empty(), head.to_set(), r.cl);
            assert(begins(row, r.cl) == Map::<Seq<char>, Written>::empty());
            if is_sentinel(x) {
                lemma_joins_aside(Map::empty(), head.to_set(), r.cl, Map::empty(), x);
            } else {
                lemma_joins_column(Map::empty(), head.to_set(), r.cl, Map::empty(), x);
            }
        } else {
            if row.cl != sofar.cl {
                let y = choose|y: ChangeView| #[trigger]
                    head.to_set().contains(y) && y.cl == sofar.cl;
                assert(set.contains(y));
            }
            if alive(sofar.cl) {
                let cells = begins(row, sofar.cl);
                if is_sentinel(x) || x.cl != sofar.cl {
                    lemma_joins_aside(cells, head.to_set(), sofar.cl, sofar.cells, x);
                } else {
                    lemma_joins_column(cells, head.to_set(), sofar.cl, sofar.cells, x);
                }
            }
        }
    }
}

/// What a row and changes come to together is one thing.
proof fn lemma_sums_unique(row: RowView, changes: Set<ChangeView>, a: RowView, b: RowView)
    requires
        kept(row),
        sums(row, changes, a),
        sums(row, changes, b),
    ensures
        a == b,
{
    assert(a.cl == b.cl) by {
        if a.cl != row.cl {
            let x = choose|x: ChangeView| #[trigger] changes.contains(x) && x.cl == a.cl;
            assert(changes.contains(x));
        }
        if b.cl != row.cl {
            let x = choose|x: ChangeView| #[trigger] changes.contains(x) && x.cl == b.cl;
            assert(changes.contains(x));
        }
    }
    if alive(a.cl) {
        lemma_joins_unique(begins(row, a.cl), changes, a.cl, a.cells, b.cells);
    }
}

/// Merging is idempotent and order-independent: two lists of changes that hold the same changes,
/// in any order and any number of times each, lead a row to the same state.
pub proof fn law_merge_any_order(row: RowView, a: Seq<ChangeView>, b: Seq<ChangeView>)
    requires
        kept(row),
        a.to_set() == b.to_set(),
    ensures
        replay(row, a) == replay(row, b),
{
    lemma_replay_sums(row, a);
    lemma_replay_sums(row, b);
    lemma_sums_unique(row, a.to_set(), replay(row, a), replay(row, b));
}

/// Merging never lowers the causal length of a row.
pub proof fn law_length_grows(row: RowView, changes: Seq<ChangeView>)
    ensures
        row.cl <= replay(row, changes).cl,
        forall|i: int|
            0 <= i < changes.len() ==> #[trigger] changes[i].cl <= replay(row, changes).cl,
    decreases changes.len(),
{
    if changes.len() > 0 {
        let head = changes.drop_last();
        law_length_grows(row, head);
        assert forall|i: int| 0 <= i < changes.len() implies #[trigger] changes[i].cl <= replay(
            row,
            changes,
        ).cl by {
            if i < changes.len() - 1 {
                assert(head[i] == changes[i]);
            }
        }
    }
}

/// Whether a list of changes tells of a row what a replica sends of it: all with the causal length
/// of the row, at least one if the row is known, and for a row that lives the writes that it holds.
pub open spec fn tells(changes: Set<ChangeView>, row: RowView) -> bool {
    &&& forall|x: ChangeView| #[trigger] changes.contains(x) ==> x.cl == row.cl
    &&& row.cl > 0 ==> exists|x: ChangeView| #[trigger] changes.contains(x)
    &&& alive(row.cl) ==> forall|c: Seq<char>, w: Written| #[trigger]
        candidate(Map::empty(), changes, row.cl, c, w) <==> row.cells.dom().contains(c)
            && row.cells[c] == w
}

/// Whether `r` is what two states of a row come to together: the one with the greater causal
/// length or, where these are equal and the row lives, for each column the write of either that no
/// other wins over.
pub open spec fn meet(a: RowView, b: RowView, r: RowView) -> bool {
    &&& a.cl > b.cl ==> r == a
    &&& b.cl > a.cl ==> r == b
    &&& a.cl == b.cl ==> r.cl == a.cl
    &&& a.cl == b.cl && gone(r.cl) ==> r.cells == Map::<Seq<char>, Written>::empty()
    &&& a.cl == b.cl && alive(r.cl) ==> {
        &&& forall|c: Seq<char>| #[trigger]
            a.cells.dom().contains(c) ==> r.cells.dom().contains(c) && !outranks(
                a.cells[c],
                r.cells[c],
            )
        &&& forall|c: Seq<char>| #[trigger]
            b.cells.dom().contains(c) ==> r.cells.dom().contains(c) && !outranks(
                b.cells[c],
                r.cells[c],
            )
        &&& forall|c: Seq<char>| #[trigger]
            r.cells.dom().contains(c) ==> (a.cells.dom().contains(c) && r.cells[c] == a.cells[c])
                || (b.cells.dom().contains(c) && r.cells[c] == b.cells[c])
    }
}

proof fn lemma_meet_sums(a: RowView, b: RowView, sb: Set<ChangeView>, r: RowView)
    requires
        kept(a),
        kept(b),
        tells(sb, b),
        sums(a, sb, r),
    ensures
        meet(a, b, r),
{
    if b.cl > 0 {
        let x = choose|x: ChangeView| #[trigger] sb.contains(x);
        assert(sb.contains(x));
    }
    assert(r.cl == if a.cl >= b.cl {
        a.cl
    } else {
        b.cl
    }) by {
        if r.cl != a.cl {
            let x = choose|x: ChangeView| #[trigger] sb.contains(x) && x.cl == r.cl;
            assert(sb.contains(x));
        }
    }
    if alive(r.cl) {
        let cells = begins(a, r.cl);
        if a.cl > b.cl {
            lemma_joins_none(cells, sb, r.cl);
            lemma_joins_unique(cells, sb, r.cl, cells, r.cells);
            assert(r == a);
        } else {
            assert forall|c: Seq<char>, w: Written| #[trigger]
                candidate(cells, sb, r.cl, c, w) <==> (cells.dom().contains(c) && cells[c] == w)
                || (b.cells.dom().contains(c) && b.cells[c] == w) by {
                assert(!Map::<Seq<char>, Written>::empty().dom().contains(c));
                assert(candidate(Map::empty(), sb, r.cl, c, w) <==> b.cells.dom().contains(c)
                    && b.cells[c] == w);
            }
            if b.cl > a.cl {
                assert forall|c: Seq<char>, w: Written| #[trigger]
                    candidate(cells, sb, r.cl, c, w) implies b.cells.dom().contains(c)
                    && !outranks(w, b.cells[c]) by {
                    law_conflicts_resolve(w, w);
                }
                assert(joins(cells, sb, r.cl, b.cells));
                lemma_joins_unique(cells, sb, r.cl, b.cells, r.cells);
                assert(r == b);
            } else {
                assert forall|c: Seq<char>| #[trigger]
                    a.cells.dom().contains(c) implies r.cells.dom().contains(c) && !outranks(
                    a.cells[c],
                    r.cells[c],
                ) by {
                    assert(candidate(cells, sb, r.cl, c, a.cells[c]));
                }
                assert forall|c: Seq<char>| #[trigger]
                    b.cells.dom().contains(c) implies r.cells.dom().contains(c) && !outranks(
                    b.cells[c],
                    r.cells[c],
                ) by {
                    assert(candidate(cells, sb, r.cl, c, b.cells[c]));
                }
                assert forall|c: Seq<char>| #[trigger]
                    r.cells.dom().contains(c) implies (a.cells.dom().contains(c) && r.cells[c]
                    == a.cells[c]) || (b.cells.dom().contains(c) && r.cells[c]
                    == b.cells[c]) by {
                    assert(candidate(cells, sb, r.cl, c, r.cells[c]));
                }
            }
        }
    }
}

/// A row that is told of another state of it becomes what the two come to together.
pub proof fn law_row_meets_what_it_is_told(a: RowView, b: RowView, from_b: Seq<ChangeView>)
    requires
        kept(a),
        kept(b),
        tells(from_b.to_set(), b),
    ensures
        meet(a, b, replay(a, from_b)),
{
    lemma_replay_sums(a, from_b);
    lemma_meet_sums(a, b, from_b.to_set(), replay(a, from_b));
}

/// What two states of a row come to together is one thing, from whichever side it is seen.
pub proof fn lemma_meet_unique(a: RowView, b: RowView, r: RowView, s: RowView)
    requires
        kept(a),
        kept(b),
        meet(a, b, r),
        meet(b, a, s),
    ensures
        r == s,
{
    if a.cl == b.cl && alive(r.cl) {
        assert forall|c: Seq<char>| #[trigger] r.cells.dom().contains(c) == s.cells.dom().contains(
            c,
        ) by {}
        assert forall|c: Seq<char>| r.cells.dom().contains(c) implies #[trigger] r.cells[c]
            == s.cells[c] by {
            assert(s.cells.dom().contains(c));
            law_conflicts_resolve(r.cells[c], s.cells[c]);
        }
        assert(r.cells =~= s.cells);
    }
}

/// Two replicas that exchange their changes of a row, in any order, come to hold the same row.
pub proof fn law_exchange_converges(
    a: RowView,
    from_a: Seq<ChangeView>,
    b: RowView,
    from_b: Seq<ChangeView>,
)
    requires
        kept(a),
        kept(b),
        tells(from_a.to_set(), a),
        tells(from_b.to_set(), b),
    ensures
        replay(a, from_b) == replay(b, from_a),
{
    law_row_meets_what_it_is_told(a, b, from_b);
    law_row_meets_what_it_is_told(b, a, from_a);
    lemma_meet_unique(a, b, replay(a, from_b), replay(b, from_a));
}

/// Merging two lists of changes one after the other is merging one list.
pub proof fn lemma_replay_append(row: RowView, a: Seq<ChangeView>, b: Seq<ChangeView>)
    ensures
        replay(row, a + b) == replay(replay(row, a), b),
    decreases b.len(),
{
    if b.len() == 0 {
        assert(a + b =~= a);
    } else {
        lemma_replay_append(row, a, b.drop_last());
        assert((a + b).drop_last() =~= a + b.drop_last());
        assert((a + b).last() == b.last());
    }
}

} // verus!
