//! Laws of schema fingerprints.
use vstd::multiset::group_multiset_axioms;
use vstd::prelude::*;
use vstd::relations::sorted_by;
use vstd::relations::total_ordering;
use vstd::seq_lib::group_to_multiset_ensures;
use vstd::seq_lib::lemma_sorted_unique;
use vstd::utf8::decode_utf8;
use vstd::utf8::encode_utf8;
use vstd::utf8::encode_utf8_decode_utf8;

use crate::laws::exports::distinct_names;
use crate::schema::PkSpec;
use crate::schema::PkView;
use crate::schema::SENTINEL;
use crate::schema::SkeletonValue;
use crate::schema::TableSpec;
use crate::schema::TableView;
use crate::schema::fingerprint_of;
use crate::schema::fnv1a_hash;
use crate::schema::insert_table;
use crate::schema::insert_text;
use crate::schema::listed;
use crate::schema::pk_canon;
use crate::schema::schema_canon;
use crate::schema::sorted_tables;
use crate::schema::sorted_texts;
use crate::schema::table_canon;
use crate::schema::table_from;
use crate::schema::table_of;
use crate::schema::tables_canon;
use crate::schema::tracks;
use crate::text::codes;
use crate::text::lemma_before_total;
use crate::text::lemma_before_transitive;
use crate::text::lemma_codes_injective;
use crate::text::lemma_join_halves;
use crate::text::text_before;

verus! {

/// Whether one text does not come after another.
pub open spec fn no_later() -> spec_fn(Seq<char>, Seq<char>) -> bool {
    |a: Seq<char>, b: Seq<char>| !text_before(b, a)
}

proof fn lemma_no_later()
    ensures
        total_ordering(no_later()),
{
    let leq = no_later();
    assert forall|a: Seq<char>| #[trigger] leq(a, a) by {
        lemma_before_total(codes(a), codes(a));
    }
    assert forall|a: Seq<char>, b: Seq<char>| #[trigger] leq(a, b) && #[trigger] leq(b, a) implies a
        == b by {
        lemma_before_total(codes(a), codes(b));
        lemma_codes_injective(a, b);
    }
    assert forall|a: Seq<char>, b: Seq<char>, c: Seq<char>| #[trigger]
        leq(a, b) && #[trigger] leq(b, c) implies leq(a, c) by {
        if text_before(c, a) {
            lemma_before_total(codes(a), codes(b));
            if codes(a) == codes(b) {
                assert(text_before(c, b));
            } else {
                lemma_before_transitive(codes(c), codes(a), codes(b));
            }
        }
    }
    assert forall|a: Seq<char>, b: Seq<char>| #[trigger] leq(a, b) || #[trigger] leq(b, a) by {
        lemma_before_total(codes(a), codes(b));
    }
}

proof fn lemma_insert_text(sorted: Seq<Seq<char>>, text: Seq<char>)
    requires
        sorted_by(sorted, no_later()),
    ensures
        sorted_by(insert_text(sorted, text), no_later()),
        insert_text(sorted, text).to_multiset() == sorted.to_multiset().insert(text),
        insert_text(sorted, text).len() == sorted.len() + 1,
    decreases sorted.len(),
{
    broadcast use {group_multiset_axioms, group_to_multiset_ensures};

    let leq = no_later();
    lemma_no_later();
    let after = insert_text(sorted, text);
    if sorted.len() > 0 && text_before(text, sorted.last()) {
        let head = sorted.drop_last();
        assert(sorted_by(head, leq)) by {
            assert forall|i: int, j: int| 0 <= i < j < head.len() implies #[trigger] leq(
                head[i],
                head[j],
            ) by {
                assert(leq(sorted[i], sorted[j]));
            }
        }
        lemma_insert_text(head, text);
        let middle = insert_text(head, text);
        assert(sorted =~= head.push(sorted.last()));
        assert(after == middle.push(sorted.last()));
        assert(after.to_multiset() =~= sorted.to_multiset().insert(text));
        assert forall|i: int, j: int| 0 <= i < j < after.len() implies #[trigger] leq(
            after[i],
            after[j],
        ) by {
            if j == after.len() - 1 {
                assert(middle.to_multiset().contains(middle[i])) by {
                    assert(middle.contains(middle[i]));
                }
                if middle[i] == text {
                    lemma_before_total(codes(text), codes(sorted.last()));
                } else {
                    assert(head.to_multiset().contains(middle[i]));
                    assert(head.contains(middle[i]));
                    let k = choose|k: int| 0 <= k < head.len() && head[k] == middle[i];
                    assert(leq(sorted[k], sorted[sorted.len() - 1]));
                }
            } else {
                assert(leq(middle[i], middle[j]));
            }
        }
    } else {
        assert forall|i: int, j: int| 0 <= i < j < after.len() implies #[trigger] leq(
            after[i],
            after[j],
        ) by {
            if j == after.len() - 1 {
                assert(leq(sorted.last(), text));
                if i < sorted.len() - 1 {
                    assert(leq(sorted[i], sorted[sorted.len() - 1]));
                    assert(leq(sorted[i], text));
                }
            } else {
                assert(leq(sorted[i], sorted[j]));
            }
        }
    }
}

/// Sorting texts puts them in order and keeps them all.
pub proof fn lemma_sorted_texts(texts: Seq<Seq<char>>)
    ensures
        sorted_by(sorted_texts(texts), no_later()),
        sorted_texts(texts).to_multiset() == texts.to_multiset(),
        sorted_texts(texts).len() == texts.len(),
    decreases texts.len(),
{
    broadcast use {group_multiset_axioms, group_to_multiset_ensures};

    if texts.len() > 0 {
        lemma_sorted_texts(texts.drop_last());
        lemma_insert_text(sorted_texts(texts.drop_last()), texts.last());
        assert(texts =~= texts.drop_last().push(texts.last()));
    }
}

proof fn lemma_same_sorted(a: Seq<Seq<char>>, b: Seq<Seq<char>>)
    requires
        a.to_multiset() == b.to_multiset(),
    ensures
        sorted_texts(a) == sorted_texts(b),
{
    lemma_sorted_texts(a);
    lemma_sorted_texts(b);
    lemma_no_later();
    lemma_sorted_unique(sorted_texts(a), sorted_texts(b), no_later());
}

/// The names of tables.
pub open spec fn names_of(tables: Seq<TableView>) -> Seq<Seq<char>> {
    Seq::new(tables.len(), |i: int| tables[i].name)
}

proof fn lemma_insert_table(sorted: Seq<TableView>, table: TableView)
    ensures
        names_of(insert_table(sorted, table)) == insert_text(names_of(sorted), table.name),
        forall|x: TableView| #[trigger]
            insert_table(sorted, table).contains(x) <==> x == table || sorted.contains(x),
    decreases sorted.len(),
{
    let after = insert_table(sorted, table);
    if sorted.len() > 0 && text_before(table.name, sorted.last().name) {
        let head = sorted.drop_last();
        lemma_insert_table(head, table);
        let middle = insert_table(head, table);
        assert(names_of(sorted).drop_last() =~= names_of(head));
        assert(names_of(sorted).last() == sorted.last().name);
        assert(names_of(after) =~= names_of(middle).push(sorted.last().name));
        assert forall|x: TableView| #[trigger] after.contains(x) <==> x == table
            || sorted.contains(x) by {
            if after.contains(x) {
                let i = choose|i: int| 0 <= i < after.len() && after[i] == x;
                if i < middle.len() {
                    assert(middle[i] == x);
                    assert(middle.contains(x));
                    if head.contains(x) {
                        let k = choose|k: int| 0 <= k < head.len() && head[k] == x;
                        assert(sorted[k] == x);
                    }
                } else {
                    assert(sorted[sorted.len() - 1] == x);
                }
            }
            if x == table || sorted.contains(x) {
                if sorted.contains(x) && x != table {
                    let k = choose|k: int| 0 <= k < sorted.len() && sorted[k] == x;
                    if k < head.len() {
                        assert(head[k] == x);
                        assert(middle.contains(x));
                    } else {
                        assert(after[middle.len() as int] == x);
                    }
                }
                if middle.contains(x) {
                    let i = choose|i: int| 0 <= i < middle.len() && middle[i] == x;
                    assert(after[i] == x);
                }
            }
        }
    } else {
        assert(names_of(after) =~= names_of(sorted).push(table.name));
        assert(insert_text(names_of(sorted), table.name) =~= names_of(sorted).push(table.name));
        assert forall|x: TableView| #[trigger] after.contains(x) <==> x == table
            || sorted.contains(x) by {
            if sorted.contains(x) {
                let k = choose|k: int| 0 <= k < sorted.len() && sorted[k] == x;
                assert(after[k] == x);
            }
            assert(after[sorted.len() as int] == table);
        }
    }
}

proof fn lemma_sorted_tables(tables: Seq<TableView>)
    ensures
        names_of(sorted_tables(tables)) == sorted_texts(names_of(tables)),
        forall|x: TableView| #[trigger] sorted_tables(tables).contains(x) <==> tables.contains(x),
    decreases tables.len(),
{
    if tables.len() == 0 {
        assert(names_of(sorted_tables(tables)) =~= sorted_texts(names_of(tables)));
    } else {
        let head = tables.drop_last();
        lemma_sorted_tables(head);
        lemma_insert_table(sorted_tables(head), tables.last());
        assert(names_of(tables).drop_last() =~= names_of(head));
        assert(names_of(tables).last() == tables.last().name);
        assert forall|x: TableView| #[trigger]
            sorted_tables(tables).contains(x) <==> tables.contains(x) by {
            if tables.contains(x) {
                let k = choose|k: int| 0 <= k < tables.len() && tables[k] == x;
                if k < head.len() {
                    assert(head[k] == x);
                    assert(sorted_tables(head).contains(x));
                }
            }
            if head.contains(x) {
                let k = choose|k: int| 0 <= k < head.len() && head[k] == x;
                assert(tables[k] == x);
            }
            assert(tables[tables.len() - 1] == tables.last());
        }
    }
}

proof fn lemma_same_canon(a: Seq<TableView>, b: Seq<TableView>)
    requires
        a.len() == b.len(),
        forall|i: int|
            0 <= i < a.len() ==> table_canon(#[trigger] a[i]) == table_canon(b[i]),
    ensures
        tables_canon(a) == tables_canon(b),
    decreases a.len(),
{
    if a.len() > 0 {
        lemma_same_canon(a.drop_last(), b.drop_last());
        assert(table_canon(a[a.len() - 1]) == table_canon(b[a.len() - 1]));
    }
}

/// Whether two schemas have the same structure: the same table names, and for each the same key
/// shape and the same columns, in whatever order.
pub open spec fn same_structure(a: Seq<TableView>, b: Seq<TableView>) -> bool {
    &&& names_of(a).to_multiset() == names_of(b).to_multiset()
    &&& forall|i: int, j: int|
        0 <= i < a.len() && 0 <= j < b.len() && (#[trigger] a[i]).name == (#[trigger] b[j]).name
            ==> a[i].pk == b[j].pk && a[i].columns.to_multiset() == b[j].columns.to_multiset()
}

/// Schemas of one structure have one canonical text.
proof fn lemma_structure_canon(a: Seq<TableView>, b: Seq<TableView>)
    requires
        same_structure(a, b),
    ensures
        schema_canon(a) == schema_canon(b),
{
    lemma_sorted_tables(a);
    lemma_sorted_tables(b);
    lemma_same_sorted(names_of(a), names_of(b));
    let x = sorted_tables(a);
    let y = sorted_tables(b);
    assert(names_of(x) == names_of(y));
    assert(x.len() == names_of(x).len() && y.len() == names_of(y).len());
    assert forall|i: int| 0 <= i < x.len() implies table_canon(#[trigger] x[i]) == table_canon(
        y[i],
    ) by {
        assert(names_of(x)[i] == names_of(y)[i]);
        assert(x[i].name == y[i].name);
        assert(x.contains(x[i]));
        assert(y.contains(y[i]));
        assert(a.contains(x[i]));
        assert(b.contains(y[i]));
        let k = choose|k: int| 0 <= k < a.len() && a[k] == x[i];
        let m = choose|m: int| 0 <= m < b.len() && b[m] == y[i];
        assert(a[k].name == b[m].name);
        lemma_same_sorted(x[i].columns, y[i].columns);
    }
    lemma_same_canon(x, y);
}

/// The fingerprint of a schema does not depend on the order in which its tables and columns are
/// declared, nor on its skeleton defaults.
pub proof fn law_fingerprint_ignores_order(a: Seq<TableView>, b: Seq<TableView>)
    requires
        same_structure(a, b),
    ensures
        fingerprint_of(a) == fingerprint_of(b),
{
    lemma_structure_canon(a, b);
}

/// Whether a name is free of the signs that part the canonical text of a schema.
pub open spec fn unmarked(name: Seq<char>) -> bool {
    !name.contains('|') && !name.contains(',') && !name.contains(';')
}

/// Whether the names of a table and of its columns are free of the signs that part the canonical
/// text of a schema.
pub open spec fn unmarked_table(table: TableView) -> bool {
    &&& unmarked(table.name)
    &&& match table.pk {
        PkView::Single { column } => unmarked(column),
        PkView::Composite { columns, sep } => unmarked(columns.0) && unmarked(columns.1),
    }
    &&& forall|i: int| 0 <= i < table.columns.len() ==> unmarked(#[trigger] table.columns[i])
}

/// Texts that agree up to the first of a sign agree behind it.
proof fn lemma_same_halves(a: Seq<char>, x: Seq<char>, b: Seq<char>, y: Seq<char>, sep: char)
    requires
        !a.contains(sep),
        !b.contains(sep),
        a.push(sep) + x == b.push(sep) + y,
    ensures
        a == b,
        x == y,
{
    lemma_join_halves(a, sep, x);
    lemma_join_halves(b, sep, y);
}

proof fn lemma_listed_front(texts: Seq<Seq<char>>)
    requires
        texts.len() > 0,
    ensures
        listed(texts) == texts[0].push(',') + listed(texts.drop_first()),
    decreases texts.len(),
{
    let rest = texts.drop_first();
    let head = texts.drop_last();
    if texts.len() == 1 {
        assert(head =~= Seq::empty());
        assert(rest =~= Seq::empty());
        assert(listed(texts) =~= texts[0].push(',') + listed(rest));
    } else {
        lemma_listed_front(head);
        assert(head.drop_first() =~= rest.drop_last());
        assert(rest.last() == texts.last());
        assert(listed(texts) =~= texts[0].push(',') + listed(rest));
    }
}

/// The columns of a table are told from its canonical text.
proof fn lemma_columns_told(a: Seq<Seq<char>>, x: Seq<char>, b: Seq<Seq<char>>, y: Seq<char>)
    requires
        forall|i: int| 0 <= i < a.len() ==> unmarked(#[trigger] a[i]),
        forall|i: int| 0 <= i < b.len() ==> unmarked(#[trigger] b[i]),
        listed(a).push(';') + x == listed(b).push(';') + y,
    ensures
        a == b,
        x == y,
    decreases a.len(),
{
    let text = listed(a).push(';') + x;
    if a.len() == 0 && b.len() == 0 {
        assert(text.skip(1) =~= x);
        assert(text.skip(1) =~= y);
        assert(a =~= b);
    } else if a.len() == 0 || b.len() == 0 {
        let full = if a.len() == 0 {
            b
        } else {
            a
        };
        lemma_listed_front(full);
        assert(text[0] == ';');
        if full[0].len() > 0 {
            assert(full[0][0] == ';');
        }
    } else {
        lemma_listed_front(a);
        lemma_listed_front(b);
        let (u, v) = (listed(a.drop_first()).push(';') + x, listed(b.drop_first()).push(';') + y);
        assert(text =~= a[0].push(',') + u);
        assert(text =~= b[0].push(',') + v);
        lemma_same_halves(a[0], u, b[0], v, ',');
        lemma_columns_told(a.drop_first(), x, b.drop_first(), y);
        assert(a =~= seq![a[0]] + a.drop_first());
        assert(b =~= seq![b[0]] + b.drop_first());
    }
}

/// The key shape of a table is told from its canonical text.
proof fn lemma_pk_told(p: PkView, x: Seq<char>, q: PkView, y: Seq<char>)
    requires
        match p {
            PkView::Single { column } => unmarked(column),
            PkView::Composite { columns, sep } => unmarked(columns.0) && unmarked(columns.1),
        },
        match q {
            PkView::Single { column } => unmarked(column),
            PkView::Composite { columns, sep } => unmarked(columns.0) && unmarked(columns.1),
        },
        pk_canon(p).push('|') + x == pk_canon(q).push('|') + y,
    ensures
        p == q,
        x == y,
{
    reveal_strlit("s:");
    reveal_strlit("c:");
    let text = pk_canon(p).push('|') + x;
    assert(text[0] == (if p is Single {
        's'
    } else {
        'c'
    }));
    assert(text[0] == (if q is Single {
        's'
    } else {
        'c'
    }));
    let tail = text.skip(2);
    match (p, q) {
        (PkView::Single { column: a }, PkView::Single { column: b }) => {
            assert(tail =~= a.push('|') + x);
            assert(tail =~= b.push('|') + y);
            lemma_same_halves(a, x, b, y, '|');
        },
        (
            PkView::Composite { columns: a, sep: s },
            PkView::Composite { columns: b, sep: t },
        ) => {
            let (u, v) = (seq![s, '|'] + x, seq![t, '|'] + y);
            let (k, l) = (a.1.push(',') + u, b.1.push(',') + v);
            assert(tail =~= a.0.push(',') + k);
            assert(tail =~= b.0.push(',') + l);
            lemma_same_halves(a.0, k, b.0, l, ',');
            lemma_same_halves(a.1, u, b.1, v, ',');
            assert(u[0] == s && v[0] == t);
            assert(u.skip(2) =~= x);
            assert(v.skip(2) =~= y);
        },
        _ => {},
    }
}

/// The structure of a table is told from its canonical text.
proof fn lemma_table_told(a: TableView, x: Seq<char>, b: TableView, y: Seq<char>)
    requires
        unmarked_table(a),
        unmarked_table(b),
        table_canon(a) + x == table_canon(b) + y,
    ensures
        a.name == b.name,
        a.pk == b.pk,
        sorted_texts(a.columns) == sorted_texts(b.columns),
        x == y,
{
    let (c, d) = (sorted_texts(a.columns), sorted_texts(b.columns));
    lemma_sorted_unmarked(a.columns);
    lemma_sorted_unmarked(b.columns);
    let (k, l) = (listed(c).push(';') + x, listed(d).push(';') + y);
    let (u, v) = (pk_canon(a.pk).push('|') + k, pk_canon(b.pk).push('|') + l);
    assert(table_canon(a) + x =~= a.name.push('|') + u);
    assert(table_canon(b) + y =~= b.name.push('|') + v);
    lemma_same_halves(a.name, u, b.name, v, '|');
    lemma_pk_told(a.pk, k, b.pk, l);
    lemma_columns_told(c, x, d, y);
}

proof fn lemma_sorted_unmarked(texts: Seq<Seq<char>>)
    requires
        forall|i: int| 0 <= i < texts.len() ==> unmarked(#[trigger] texts[i]),
    ensures
        forall|i: int|
            0 <= i < sorted_texts(texts).len() ==> unmarked(#[trigger] sorted_texts(texts)[i]),
{
    broadcast use {group_multiset_axioms, group_to_multiset_ensures};

    lemma_sorted_texts(texts);
    let sorted = sorted_texts(texts);
    assert forall|i: int| 0 <= i < sorted.len() implies unmarked(#[trigger] sorted[i]) by {
        assert(sorted.contains(sorted[i]));
        assert(sorted.to_multiset().count(sorted[i]) > 0);
        assert(texts.contains(sorted[i]));
        let k = choose|k: int| 0 <= k < texts.len() && texts[k] == sorted[i];
        assert(unmarked(texts[k]));
    }
}

proof fn lemma_tables_front(tables: Seq<TableView>)
    requires
        tables.len() > 0,
    ensures
        tables_canon(tables) == table_canon(tables[0]) + tables_canon(tables.drop_first()),
    decreases tables.len(),
{
    let rest = tables.drop_first();
    let head = tables.drop_last();
    if tables.len() == 1 {
        assert(head =~= Seq::empty());
        assert(rest =~= Seq::empty());
        assert(tables_canon(tables) =~= table_canon(tables[0]) + tables_canon(rest));
    } else {
        lemma_tables_front(head);
        assert(head.drop_first() =~= rest.drop_last());
        assert(rest.last() == tables.last());
        assert(tables_canon(tables) =~= table_canon(tables[0]) + tables_canon(rest));
    }
}

/// The structure of tables is told from their canonical texts.
proof fn lemma_tables_told(a: Seq<TableView>, b: Seq<TableView>)
    requires
        forall|i: int| 0 <= i < a.len() ==> unmarked_table(#[trigger] a[i]),
        forall|i: int| 0 <= i < b.len() ==> unmarked_table(#[trigger] b[i]),
        tables_canon(a) == tables_canon(b),
    ensures
        a.len() == b.len(),
        forall|i: int|
            #![trigger a[i]]
            #![trigger b[i]]
            0 <= i < a.len() ==> a[i].name == b[i].name && a[i].pk == b[i].pk && sorted_texts(
                a[i].columns,
            ) == sorted_texts(b[i].columns),
    decreases a.len(),
{
    if a.len() > 0 {
        lemma_tables_front(a);
        assert(tables_canon(a).len() > 0);
    } else {
        assert(tables_canon(a).len() == 0);
    }
    if b.len() > 0 {
        lemma_tables_front(b);
        assert(tables_canon(b).len() > 0);
    } else {
        assert(tables_canon(b).len() == 0);
    }
    if a.len() > 0 && b.len() > 0 {
        let (x, y) = (tables_canon(a.drop_first()), tables_canon(b.drop_first()));
        lemma_table_told(a[0], x, b[0], y);
        lemma_tables_told(a.drop_first(), b.drop_first());
        assert forall|i: int|
            #![trigger a[i]]
            #![trigger b[i]]
            0 <= i < a.len() implies a[i].name == b[i].name && a[i].pk == b[i].pk && sorted_texts(
            a[i].columns,
        ) == sorted_texts(b[i].columns) by {
            if i > 0 {
                assert(a.drop_first()[i - 1] == a[i]);
                assert(b.drop_first()[i - 1] == b[i]);
            }
        }
    }
}

/// What a fingerprint is taken of tells one structure from another: of two schemas whose names hold
/// none of the signs that part the canonical text, the same bytes are hashed exactly if they have
/// the same tables, with the same key shapes and the same columns.
pub proof fn law_fingerprint_tells_structures(a: Seq<TableView>, b: Seq<TableView>)
    requires
        distinct_names(a),
        distinct_names(b),
        forall|i: int| 0 <= i < a.len() ==> unmarked_table(#[trigger] a[i]),
        forall|i: int| 0 <= i < b.len() ==> unmarked_table(#[trigger] b[i]),
    ensures
        fingerprint_of(a) == fnv1a_hash(encode_utf8(schema_canon(a))),
        encode_utf8(schema_canon(a)) == encode_utf8(schema_canon(b)) <==> same_structure(a, b),
{
    broadcast use encode_utf8_decode_utf8;

    if same_structure(a, b) {
        lemma_structure_canon(a, b);
    }
    if encode_utf8(schema_canon(a)) == encode_utf8(schema_canon(b)) {
        assert(decode_utf8(encode_utf8(schema_canon(a))) == schema_canon(a));
        assert(decode_utf8(encode_utf8(schema_canon(b))) == schema_canon(b));
        let (x, y) = (sorted_tables(a), sorted_tables(b));
        lemma_sorted_tables(a);
        lemma_sorted_tables(b);
        assert forall|i: int| 0 <= i < x.len() implies unmarked_table(#[trigger] x[i]) by {
            assert(x.contains(x[i]));
            assert(a.contains(x[i]));
        }
        assert forall|i: int| 0 <= i < y.len() implies unmarked_table(#[trigger] y[i]) by {
            assert(y.contains(y[i]));
            assert(b.contains(y[i]));
        }
        lemma_tables_told(x, y);
        assert(names_of(x) =~= names_of(y));
        lemma_sorted_texts(names_of(a));
        lemma_sorted_texts(names_of(b));
        assert forall|i: int, j: int|
            0 <= i < a.len() && 0 <= j < b.len() && (#[trigger] a[i]).name == (
            #[trigger] b[j]).name implies a[i].pk == b[j].pk && a[i].columns.to_multiset()
            == b[j].columns.to_multiset() by {
            assert(a.contains(a[i]));
            assert(x.contains(a[i]));
            let k = choose|k: int| 0 <= k < x.len() && x[k] == a[i];
            assert(y.contains(y[k]));
            assert(b.contains(y[k]));
            let m = choose|m: int| 0 <= m < b.len() && b[m] == y[k];
            assert(b[m].name == b[j].name);
            assert(m == j);
            lemma_sorted_texts(a[i].columns);
            lemma_sorted_texts(b[j].columns);
        }
    }
}

/// The hash of bytes: that of no bytes is the offset basis, and one more byte is mixed in from
/// below
/// and spread by the prime.
pub proof fn law_hash_is_fnv1a(bytes: Seq<u8>, next: u8)
    ensures
        fnv1a_hash(Seq::empty()) == 0xcbf29ce484222325,
        fnv1a_hash(bytes.push(next)) == ((fnv1a_hash(bytes) ^ (next as u64)) * 0x100000001b3)
            % 0x10000000000000000,
{
    assert(bytes.push(next).drop_last() =~= bytes);
}

/// The table of a name is the first that has it.
pub proof fn law_tables_are_found(tables: Seq<TableView>, name: Seq<char>) -> (i: int)
    ensures
        match table_of(tables, name) {
            Some(table) => {
                &&& 0 <= i < tables.len()
                &&& tables[i] == table
                &&& table.name == name
                &&& forall|k: int| 0 <= k < i ==> (#[trigger] tables[k]).name != name
            },
            None => forall|k: int| 0 <= k < tables.len() ==> (#[trigger] tables[k]).name != name,
        },
        tracks(tables, name, SENTINEL@) <==> table_of(tables, name) is Some,
        forall|column: Seq<char>| #[trigger]
            tracks(tables, name, column) && column != SENTINEL@ ==> table_of(
                tables,
                name,
            )->0.columns.contains(column),
        table_of(tables, name) matches Some(table) ==> forall|k: int|
            0 <= k < table.columns.len() ==> tracks(tables, name, #[trigger] table.columns[k]),
{
    lemma_found(tables, name, 0)
}

proof fn lemma_found(tables: Seq<TableView>, name: Seq<char>, from: int) -> (i: int)
    requires
        0 <= from <= tables.len(),
    ensures
        match table_from(tables, name, from) {
            Some(table) => {
                &&& from <= i < tables.len()
                &&& tables[i] == table
                &&& table.name == name
                &&& forall|k: int| from <= k < i ==> (#[trigger] tables[k]).name != name
            },
            None => forall|k: int| from <= k < tables.len() ==> (#[trigger] tables[k]).name != name,
        },
    decreases tables.len() - from,
{
    if from < tables.len() && tables[from].name != name {
        lemma_found(tables, name, from + 1)
    } else {
        from
    }
}

/// A table that is described step by step is what the steps say, in whatever order its key and its
/// skeleton defaults are given: it has the name and the columns that it was begun with, the key
/// that
/// it was given, `id` if it was given none, and the defaults that it was given, none if it was not.
pub proof fn law_tables_are_described(
    name: &str,
    columns: &[&str],
    pk: PkSpec,
    skeleton: Vec<(&str, SkeletonValue)>,
    plain: TableSpec,
    keyed: TableSpec,
    whole: TableSpec,
    filled: TableSpec,
    other: TableSpec,
)
    requires
        call_ensures(TableSpec::new, (name, columns), plain),
        call_ensures(TableSpec::with_pk, (plain, pk), keyed),
        call_ensures(TableSpec::with_skeleton, (keyed, skeleton), whole),
        call_ensures(TableSpec::with_skeleton, (plain, skeleton), filled),
        call_ensures(TableSpec::with_pk, (filled, pk), other),
    ensures
        plain@.name == name@,
        plain@.columns.len() == columns@.len(),
        forall|i: int| 0 <= i < columns@.len() ==> #[trigger] plain@.columns[i] == columns@[i]@,
        plain@.pk == (PkView::Single { column: "id"@ }),
        plain@.skeleton.len() == 0,
        whole@ == other@,
        whole@.name == plain@.name,
        whole@.columns == plain@.columns,
        whole@.pk == pk@,
        whole@.skeleton.len() == skeleton@.len(),
        forall|i: int|
            0 <= i < skeleton@.len() ==> #[trigger] whole@.skeleton[i] == (
                skeleton@[i].0@,
                skeleton@[i].1@,
            ),
        keyed@.skeleton.len() == 0,
        filled@.pk == plain@.pk,
{
}

} // verus!
