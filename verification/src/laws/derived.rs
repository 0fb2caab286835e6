//! Laws of what a struct's declaration describes.
//!
//! A declaration is put together from what its attributes are to say, in any order, over any number
//! of attributes and with others between them; what the expansion gives is stated in these terms.
use vstd::prelude::*;

use crate::derive::ArgView;
use crate::derive::ColumnView;
use crate::derive::ContainerView;
use crate::derive::DeclarationView;
use crate::derive::DiagnosticView;
use crate::derive::FieldAttrsView;
use crate::derive::FieldView;
use crate::derive::FormView;
use crate::derive::LayoutView;
use crate::derive::MisfitView;
use crate::derive::Place;
use crate::derive::PlanView;
use crate::derive::TokenView;
use crate::derive::Tokens;
use crate::derive::arg_at;
use crate::derive::args_from;
use crate::derive::close_from;
use crate::derive::composite_keys;
use crate::derive::containers_from;
use crate::derive::expanded;
use crate::derive::expression_end;
use crate::derive::field_attrs_from;
use crate::derive::key_at;
use crate::derive::key_from;
use crate::derive::layout_from;
use crate::derive::metas_from;
use crate::derive::plain;
use crate::derive::screaming;
use crate::derive::segments_end;
use crate::derive::skeletons;
use crate::derive::with_field;
use crate::derive::with_meta;
use crate::schema::PkView;
use crate::schema::SkeletonView;
use crate::value::RealView;
use crate::value::SqlValue;

verus! {

/// A skeleton default, as it is declared.
pub enum Preset {
    Text(Seq<char>),
    Integer(i64),
    Real(RealView),
    Bool(bool),
    Now,
}

/// Something that the attributes of a field say.
pub enum Mark {
    Pk,
    Skip,
    Rename(Seq<char>),
    Skeleton(Preset),
}

/// Something that the attributes of a struct say.
pub enum Clause {
    Table(Seq<char>),
    /// A composite key, without a separator of its own.
    Key { a: Seq<char>, b: Seq<char> },
    /// A composite key with a separator.
    KeyWith { a: Seq<char>, b: Seq<char>, sep: char },
}

/// The token of a word that is not reserved.
pub open spec fn word(text: Seq<char>) -> TokenView {
    TokenView::Word { text, keyword: false }
}

/// How a default is written.
pub open spec fn default_token(default: Preset) -> TokenView {
    match default {
        Preset::Text(text) => TokenView::Str(text),
        Preset::Integer(i) => TokenView::Int(i),
        Preset::Real(r) => TokenView::Float(r),
        Preset::Bool(b) => TokenView::Word {
            text: if b {
                "true"@
            } else {
                "false"@
            },
            keyword: true,
        },
        Preset::Now => word("now_rfc3339"@),
    }
}

/// What a default stands for: booleans are the numbers one and zero.
pub open spec fn default_value(default: Preset) -> SkeletonView {
    match default {
        Preset::Text(text) => SkeletonView::Literal(SqlValue::Text(text)),
        Preset::Integer(i) => SkeletonView::Literal(SqlValue::Integer(i)),
        Preset::Real(r) => SkeletonView::Literal(SqlValue::Real(r)),
        Preset::Bool(b) => SkeletonView::Literal(
            SqlValue::Integer(
                if b {
                    1
                } else {
                    0
                },
            ),
        ),
        Preset::Now => SkeletonView::NowRfc3339,
    }
}

/// How a mark is written.
pub open spec fn mark_tokens(mark: Mark) -> Tokens {
    match mark {
        Mark::Pk => seq![word("pk"@)],
        Mark::Skip => seq![word("skip"@)],
        Mark::Rename(name) => seq![
            word("rename"@),
            TokenView::Punct('='),
            TokenView::Str(name),
        ],
        Mark::Skeleton(default) => seq![
            word("skeleton"@),
            TokenView::Punct('='),
            default_token(default),
        ],
    }
}

/// How marks from the one at `from` on are written.
pub open spec fn marks_tokens(marks: Seq<Mark>, from: int) -> Tokens
    decreases marks.len() - from,
{
    if from >= marks.len() {
        Seq::empty()
    } else if from == marks.len() - 1 {
        mark_tokens(marks[from])
    } else {
        mark_tokens(marks[from]) + seq![TokenView::Punct(',')] + marks_tokens(marks, from + 1)
    }
}

/// How a clause is written.
pub open spec fn clause_tokens(clause: Clause) -> Tokens {
    match clause {
        Clause::Table(name) => seq![word("table"@), TokenView::Punct('='), TokenView::Str(name)],
        Clause::Key { a, b } => seq![
            word("pk"@),
            TokenView::Punct('='),
            TokenView::Open('('),
            word(a),
            TokenView::Punct(','),
            word(b),
            TokenView::Close,
        ],
        Clause::KeyWith { a, b, sep } => seq![
            word("pk"@),
            TokenView::Punct('='),
            TokenView::Open('('),
            word(a),
            TokenView::Punct(','),
            word(b),
            TokenView::Punct(';'),
            word("sep"@),
            TokenView::Punct('='),
            TokenView::Char(sep),
            TokenView::Close,
        ],
    }
}

/// How clauses from the one at `from` on are written.
pub open spec fn clauses_tokens(clauses: Seq<Clause>, from: int) -> Tokens
    decreases clauses.len() - from,
{
    if from >= clauses.len() {
        Seq::empty()
    } else if from == clauses.len() - 1 {
        clause_tokens(clauses[from])
    } else {
        clause_tokens(clauses[from]) + seq![TokenView::Punct(',')] + clauses_tokens(
            clauses,
            from + 1,
        )
    }
}

/// Whether tokens are those of a list, with or without a comma behind its last element.
pub open spec fn lists_out(tokens: Tokens, list: Tokens) -> bool {
    tokens == list || list.len() > 0 && tokens == list.push(TokenView::Punct(','))
}

/// The name that the last of the marks to rename a column gives it.
pub open spec fn renamed(marks: Seq<Mark>) -> Option<Seq<char>>
    decreases marks.len(),
{
    if marks.len() == 0 {
        None
    } else {
        match marks.last() {
            Mark::Rename(name) => Some(name),
            _ => renamed(marks.drop_last()),
        }
    }
}

/// The last default that marks give.
pub open spec fn defaulted(marks: Seq<Mark>) -> Option<Preset>
    decreases marks.len(),
{
    if marks.len() == 0 {
        None
    } else {
        match marks.last() {
            Mark::Skeleton(default) => Some(default),
            _ => defaulted(marks.drop_last()),
        }
    }
}

/// What marks say of a field.
pub open spec fn said(marks: Seq<Mark>) -> FieldAttrsView {
    FieldAttrsView {
        is_pk: marks.contains(Mark::Pk),
        skip: marks.contains(Mark::Skip),
        rename: renamed(marks),
        skeleton: match defaulted(marks) {
            Some(default) => Some(default_value(default)),
            None => None,
        },
    }
}

/// The last name that clauses give the table.
pub open spec fn table_named(clauses: Seq<Clause>) -> Option<Seq<char>>
    decreases clauses.len(),
{
    if clauses.len() == 0 {
        None
    } else {
        match clauses.last() {
            Clause::Table(name) => Some(name),
            _ => table_named(clauses.drop_last()),
        }
    }
}

/// The last composite key that clauses give: two columns and a separator, a colon unless another
/// one
/// is given.
pub open spec fn key_declared(clauses: Seq<Clause>) -> Option<(Seq<char>, Seq<char>, char)>
    decreases clauses.len(),
{
    if clauses.len() == 0 {
        None
    } else {
        match clauses.last() {
            Clause::Key { a, b } => Some((a, b, ':')),
            Clause::KeyWith { a, b, sep } => Some((a, b, sep)),
            _ => key_declared(clauses.drop_last()),
        }
    }
}

/// What a container says is what clauses say.
pub open spec fn contains_said(container: ContainerView, clauses: Seq<Clause>) -> bool {
    &&& container.table == table_named(clauses)
    &&& match (container.composite, key_declared(clauses)) {
        (Some((key, attr)), Some((a, b, sep))) => key.a == a && key.b == b && key.sep == sep,
        (None, None) => true,
        _ => false,
    }
}

proof fn lemma_words()
    ensures
        "pk"@ != "skip"@,
        "pk"@ != "rename"@,
        "pk"@ != "skeleton"@,
        "pk"@ != "table"@,
        "skip"@ != "rename"@,
        "skip"@ != "skeleton"@,
        "rename"@ != "skeleton"@,
        "true"@ != "false"@,
        "true"@ != "now_rfc3339"@,
        "false"@ != "now_rfc3339"@,
{
    reveal_strlit("pk");
    reveal_strlit("skip");
    reveal_strlit("rename");
    reveal_strlit("skeleton");
    reveal_strlit("table");
    reveal_strlit("true");
    reveal_strlit("false");
    reveal_strlit("now_rfc3339");
    assert("pk"@.len() == 2 && "skip"@.len() == 4 && "rename"@.len() == 6);
    assert("skeleton"@.len() == 8 && "table"@.len() == 5);
    assert("true"@.len() == 4 && "false"@.len() == 5 && "now_rfc3339"@.len() == 11);
}

/// One mark, wherever it stands: what follows it is a comma, or nothing.
pub proof fn lemma_mark(tokens: Tokens, at: int, mark: Mark, sofar: FieldAttrsView)
    requires
        0 <= at,
        at + mark_tokens(mark).len() <= tokens.len(),
        tokens.subrange(at, at + mark_tokens(mark).len() as int) == mark_tokens(mark),
        at + mark_tokens(mark).len() < tokens.len() ==> tokens[at + mark_tokens(
            mark,
        ).len() as int] == TokenView::Punct(','),
    ensures
        ({
            let key = key_at(tokens, at);
            key is Ok && with_meta(tokens, at, key->Ok_0, sofar) == Ok::<
                (FieldAttrsView, int),
                MisfitView,
            >(
                (
                    match mark {
                        Mark::Pk => FieldAttrsView { is_pk: true, ..sofar },
                        Mark::Skip => FieldAttrsView { skip: true, ..sofar },
                        Mark::Rename(name) => FieldAttrsView { rename: Some(name), ..sofar },
                        Mark::Skeleton(default) => FieldAttrsView {
                            skeleton: Some(default_value(default)),
                            ..sofar
                        },
                    },
                    at + mark_tokens(mark).len(),
                ),
            )
        }),
{
    lemma_words();
    let n = mark_tokens(mark).len() as int;
    assert forall|j: int| 0 <= j < n implies tokens[at + j] == mark_tokens(mark)[j] by {
        assert(tokens.subrange(at, at + n)[j] == tokens[at + j]);
    }
    assert(tokens[at + 0] == mark_tokens(mark)[0]);
    reveal_with_fuel(key_from, 2);
    match mark {
        Mark::Rename(name) => {
            assert(tokens[at + 1] == mark_tokens(mark)[1]);
            assert(tokens[at + 2] == mark_tokens(mark)[2]);
        },
        Mark::Skeleton(default) => {
            assert(tokens[at + 1] == mark_tokens(mark)[1]);
            assert(tokens[at + 2] == mark_tokens(mark)[2]);
            assert(segments_end(tokens, at + 3) == at + 3);
            assert(expression_end(tokens, at + 2) == at + 3);
        },
        _ => {},
    }
}

/// What is said with one mark more.
proof fn lemma_said_more(marks: Seq<Mark>, mark: Mark)
    ensures
        said(marks.push(mark)) == (match mark {
            Mark::Pk => FieldAttrsView { is_pk: true, ..said(marks) },
            Mark::Skip => FieldAttrsView { skip: true, ..said(marks) },
            Mark::Rename(name) => FieldAttrsView { rename: Some(name), ..said(marks) },
            Mark::Skeleton(default) => FieldAttrsView {
                skeleton: Some(default_value(default)),
                ..said(marks)
            },
        }),
{
    let more = marks.push(mark);
    assert(more.drop_last() =~= marks);
    assert forall|x: Mark| #[trigger] more.contains(x) <==> marks.contains(x) || x == mark by {
        if marks.contains(x) {
            let i = choose|i: int| 0 <= i < marks.len() && marks[i] == x;
            assert(more[i] == x);
        }
        if x == mark {
            assert(more[marks.len() as int] == x);
        }
        if more.contains(x) {
            let i = choose|i: int| 0 <= i < more.len() && more[i] == x;
            if i < marks.len() {
                assert(marks[i] == x);
            }
        }
    }
}

pub proof fn lemma_marks(tokens: Tokens, at: int, before: Seq<Mark>, marks: Seq<Mark>, from: int)
    requires
        0 <= from <= marks.len(),
        0 <= at <= tokens.len(),
        lists_out(tokens.skip(at), marks_tokens(marks, from)),
    ensures
        metas_from(tokens, at, said(before + marks.take(from))) == Ok::<
            FieldAttrsView,
            MisfitView,
        >(said(before + marks)),
    decreases marks.len() - from,
{
    assert(marks.take(marks.len() as int) =~= marks);
    let rest = tokens.skip(at);
    assert(rest.len() == tokens.len() - at);
    if from == marks.len() {
        assert(at == tokens.len());
    } else {
        let mark = marks[from];
        let own = mark_tokens(mark);
        let n = own.len() as int;
        let sofar = said(before + marks.take(from));
        assert(rest.take(n) =~= own);
        assert(tokens.subrange(at, at + n) =~= rest.take(n));
        if n < rest.len() {
            assert(tokens[at + n] == rest[n]);
        }
        lemma_mark(tokens, at, mark, sofar);
        assert((before + marks.take(from)).push(mark) =~= before + marks.take(from + 1));
        lemma_said_more(before + marks.take(from), mark);
        let next = said(before + marks.take(from + 1));
        if from == marks.len() - 1 {
            assert(metas_from(tokens, at + n + 1, next) == Ok::<
                FieldAttrsView,
                MisfitView,
            >(next));
        } else {
            let more = marks_tokens(marks, from + 1);
            assert(mark_tokens(marks[from + 1]).len() > 0);
            assert(lists_out(tokens.skip(at + n + 1), more)) by {
                assert(tokens.skip(at + n + 1) =~= rest.skip(n + 1));
                if rest == marks_tokens(marks, from) {
                    assert(rest.skip(n + 1) =~= more);
                } else {
                    assert(rest.skip(n + 1) =~= more.push(TokenView::Punct(',')));
                }
            }
            lemma_marks(tokens, at + n + 1, before, marks, from + 1);
        }
    }
}

/// One clause, wherever it stands.
pub proof fn lemma_clause(tokens: Tokens, at: int, clause: Clause)
    requires
        0 <= at,
        at + clause_tokens(clause).len() <= tokens.len(),
        tokens.subrange(at, at + clause_tokens(clause).len() as int) == clause_tokens(clause),
    ensures
        ({
            let read = arg_at(tokens, at);
            &&& read is Ok
            &&& read->Ok_0.next == at + clause_tokens(clause).len()
            &&& read->Ok_0.surplus is None
            &&& match (clause, read->Ok_0.arg) {
                (Clause::Table(name), ArgView::Table(own)) => own == name,
                (Clause::Key { a, b }, ArgView::Pk(key)) => key.a == a && key.b == b && key.sep
                    == ':',
                (Clause::KeyWith { a, b, sep }, ArgView::Pk(key)) => key.a == a && key.b == b
                    && key.sep == sep,
                _ => false,
            }
        }),
{
    lemma_words();
    let own = clause_tokens(clause);
    let n = own.len() as int;
    assert forall|j: int| 0 <= j < n implies tokens[at + j] == #[trigger] own[j] by {
        assert(tokens.subrange(at, at + n)[j] == tokens[at + j]);
    }
    assert(tokens[at + 0] == own[0]);
    assert(tokens[at + 1] == own[1]);
    assert(tokens[at + 2] == own[2]);
    if !(clause is Table) {
        reveal_with_fuel(close_from, 9);
        assert(tokens[at + 3] == own[3]);
        assert(tokens[at + 4] == own[4]);
        assert(tokens[at + 5] == own[5]);
        assert(tokens[at + 6] == own[6]);
        if clause is KeyWith {
            assert(tokens[at + 7] == own[7]);
            assert(tokens[at + 8] == own[8]);
            assert(tokens[at + 9] == own[9]);
            assert(tokens[at + 10] == own[10]);
            assert(close_from(tokens, at + 3, 0) == at + 10);
        } else {
            assert(close_from(tokens, at + 3, 0) == at + 6);
        }
    }
}

pub proof fn lemma_clauses(
    tokens: Tokens,
    at: int,
    attr: int,
    before: Seq<Clause>,
    clauses: Seq<Clause>,
    from: int,
    sofar: ContainerView,
)
    requires
        0 <= from <= clauses.len(),
        0 <= at <= tokens.len(),
        lists_out(tokens.skip(at), clauses_tokens(clauses, from)),
        contains_said(sofar, before + clauses.take(from)),
    ensures
        ({
            let read = args_from(tokens, at, attr, sofar, None);
            read is Ok && contains_said(read->Ok_0, before + clauses)
        }),
    decreases clauses.len() - from,
{
    assert(clauses.take(clauses.len() as int) =~= clauses);
    let rest = tokens.skip(at);
    assert(rest.len() == tokens.len() - at);
    if from == clauses.len() {
        assert(at == tokens.len());
    } else {
        let clause = clauses[from];
        let own = clause_tokens(clause);
        let n = own.len() as int;
        assert(rest.take(n) =~= own);
        assert(tokens.subrange(at, at + n) =~= rest.take(n));
        if n < rest.len() {
            assert(tokens[at + n] == rest[n]);
        }
        lemma_clause(tokens, at, clause);
        let read = arg_at(tokens, at)->Ok_0;
        let next = sofar.with(read.arg, attr);
        let more = before + clauses.take(from + 1);
        assert(more.drop_last() =~= before + clauses.take(from));
        assert(more.last() == clause);
        assert(contains_said(next, more));
        if from == clauses.len() - 1 {
            assert(args_from(tokens, at + n + 1, attr, next, None) == Ok::<
                ContainerView,
                MisfitView,
            >(next));
        } else {
            let list = clauses_tokens(clauses, from + 1);
            assert(clause_tokens(clauses[from + 1]).len() > 0);
            assert(lists_out(tokens.skip(at + n + 1), list)) by {
                assert(tokens.skip(at + n + 1) =~= rest.skip(n + 1));
                if rest == clauses_tokens(clauses, from) {
                    assert(rest.skip(n + 1) =~= list);
                } else {
                    assert(rest.skip(n + 1) =~= list.push(TokenView::Punct(',')));
                }
            }
            lemma_clauses(tokens, at + n + 1, attr, before, clauses, from + 1, next);
        }
    }
}

/// What lists hold one after the other; where there is none, nothing.
pub open spec fn all_of<T>(lists: Seq<Option<Seq<T>>>) -> Seq<T>
    decreases lists.len(),
{
    if lists.len() == 0 {
        Seq::empty()
    } else {
        all_of(lists.drop_last()) + (match lists.last() {
            Some(list) => list,
            None => Seq::empty(),
        })
    }
}

/// Whether attributes are `crdt` attributes with the given clauses, and others between them.
pub open spec fn says_clauses(
    attrs: Seq<(Seq<char>, FormView)>,
    lists: Seq<Option<Seq<Clause>>>,
) -> bool {
    &&& attrs.len() == lists.len()
    &&& forall|i: int|
        0 <= i < attrs.len() ==> match lists[i] {
            Some(clauses) => (#[trigger] attrs[i]).0 == "crdt"@ && attrs[i].1 is List && lists_out(
                attrs[i].1->List_0,
                clauses_tokens(clauses, 0),
            ),
            None => attrs[i].0 != "crdt"@ || attrs[i].1 !is List,
        }
}

/// Whether attributes are `crdt` attributes with the given marks, and others between them.
pub open spec fn says_marks(
    attrs: Seq<(Seq<char>, FormView)>,
    lists: Seq<Option<Seq<Mark>>>,
) -> bool {
    &&& attrs.len() == lists.len()
    &&& forall|i: int|
        0 <= i < attrs.len() ==> match lists[i] {
            Some(marks) => (#[trigger] attrs[i]).0 == "crdt"@ && attrs[i].1 is List && lists_out(
                attrs[i].1->List_0,
                marks_tokens(marks, 0),
            ),
            None => attrs[i].0 != "crdt"@,
        }
}

proof fn lemma_containers(
    attrs: Seq<(Seq<char>, FormView)>,
    lists: Seq<Option<Seq<Clause>>>,
    i: int,
    sofar: ContainerView,
)
    requires
        says_clauses(attrs, lists),
        0 <= i <= attrs.len(),
        contains_said(sofar, all_of(lists.take(i))),
    ensures
        ({
            let read = containers_from(attrs, i, sofar);
            read is Ok && contains_said(read->Ok_0, all_of(lists))
        }),
    decreases attrs.len() - i,
{
    assert(lists.take(lists.len() as int) =~= lists);
    if i < attrs.len() {
        let before = all_of(lists.take(i));
        assert(lists.take(i + 1).drop_last() =~= lists.take(i));
        match lists[i] {
            Some(clauses) => {
                let tokens = attrs[i].1->List_0;
                assert(lists_out(tokens, clauses_tokens(clauses, 0)));
                assert(tokens.skip(0) =~= tokens);
                assert(before + clauses.take(0) =~= before);
                lemma_clauses(tokens, 0, i, before, clauses, 0, sofar);
                let next = args_from(tokens, 0, i, sofar, None)->Ok_0;
                lemma_containers(attrs, lists, i + 1, next);
            },
            None => {
                assert(attrs[i].0 != "crdt"@ || attrs[i].1 !is List);
                assert(before + Seq::<Clause>::empty() =~= before);
                lemma_containers(attrs, lists, i + 1, sofar);
            },
        }
    }
}

/// The attributes of a field say what their marks say: it is the key if one of them is `pk`, it is
/// left out if one is `skip`, and the last name and the last default count.
pub proof fn law_field_attributes_are_read(
    attrs: Seq<(Seq<char>, FormView)>,
    lists: Seq<Option<Seq<Mark>>>,
    field: usize,
)
    requires
        says_marks(attrs, lists),
    ensures
        field_attrs_from(attrs, field, 0, plain()) == Ok::<
            FieldAttrsView,
            DiagnosticView,
        >(said(all_of(lists))),
{
    assert(all_of(lists.take(0)) =~= Seq::empty());
    assert(said(Seq::empty()) == plain()) by {
        assert(!Seq::<Mark>::empty().contains(Mark::Pk));
        assert(!Seq::<Mark>::empty().contains(Mark::Skip));
    }
    lemma_field_attrs(attrs, lists, field, 0);
}

#[verifier::rlimit(40)]
proof fn lemma_field_attrs(
    attrs: Seq<(Seq<char>, FormView)>,
    lists: Seq<Option<Seq<Mark>>>,
    field: usize,
    i: int,
)
    requires
        says_marks(attrs, lists),
        0 <= i <= attrs.len(),
    ensures
        field_attrs_from(attrs, field, i, said(all_of(lists.take(i)))) == Ok::<
            FieldAttrsView,
            DiagnosticView,
        >(said(all_of(lists))),
    decreases attrs.len() - i,
{
    assert(lists.take(lists.len() as int) =~= lists);
    if i < attrs.len() {
        let before = all_of(lists.take(i));
        assert(lists.take(i + 1).drop_last() =~= lists.take(i));
        lemma_field_attrs(attrs, lists, field, i + 1);
        match lists[i] {
            Some(marks) => {
                let tokens = attrs[i].1->List_0;
                assert(lists_out(tokens, marks_tokens(marks, 0)));
                assert(tokens.skip(0) =~= tokens);
                assert(before + marks.take(0) =~= before);
                lemma_marks(tokens, 0, before, marks, 0);
            },
            None => {
                assert(attrs[i].0 != "crdt"@);
                assert(before + Seq::<Mark>::empty() =~= before);
            },
        }
    }
}

/// A field, by its name and what its attributes say.
pub struct Described {
    pub ident: Seq<char>,
    pub lists: Seq<Option<Seq<Mark>>>,
}

impl Described {
    pub open spec fn marks(self) -> Seq<Mark> {
        all_of(self.lists)
    }

    /// The name of the column: that of the field, unless it is renamed.
    pub open spec fn name(self) -> Seq<char> {
        match renamed(self.marks()) {
            Some(name) => name,
            None => self.ident,
        }
    }

    pub open spec fn is_skipped(self) -> bool {
        self.marks().contains(Mark::Skip)
    }

    /// Whether the field is the key.
    pub open spec fn is_key(self) -> bool {
        !self.is_skipped() && self.marks().contains(Mark::Pk)
    }

    /// Whether the field is a column that is synced.
    pub open spec fn is_column(self, keys: Seq<Seq<char>>) -> bool {
        !self.is_skipped() && !self.is_key() && !keys.contains(self.name())
    }

    /// Whether the field is one that a declaration cannot have: only columns that are synced have
    /// defaults, and what is left out has no other name.
    pub open spec fn is_flawed(self, keys: Seq<Seq<char>>) -> bool {
        ||| self.is_skipped() && renamed(self.marks()) is Some
        ||| !self.is_column(keys) && defaulted(self.marks()) is Some
    }
}

/// Whether fields are written as described.
pub open spec fn says_fields(fields: Seq<FieldView>, described: Seq<Described>) -> bool {
    &&& fields.len() == described.len()
    &&& forall|i: int|
        0 <= i < fields.len() ==> (#[trigger] fields[i]).ident == described[i].ident
            && says_marks(fields[i].attrs, described[i].lists)
}

/// The columns that are synced, in the order of their fields.
pub open spec fn synced(described: Seq<Described>, keys: Seq<Seq<char>>) -> Seq<Described> {
    described.filter(|field: Described| field.is_column(keys))
}

/// The fields that are keys.
pub open spec fn key_fields(described: Seq<Described>) -> Seq<Described> {
    described.filter(|field: Described| field.is_key())
}

/// The columns that have defaults.
pub open spec fn with_defaults(described: Seq<Described>) -> Seq<Described> {
    described.filter(|field: Described| defaulted(field.marks()) is Some)
}

/// Whether no field is flawed.
pub open spec fn flawless(described: Seq<Described>, keys: Seq<Seq<char>>) -> bool {
    forall|i: int| 0 <= i < described.len() ==> !(#[trigger] described[i]).is_flawed(keys)
}

/// A column, as the expansion keeps it.
pub open spec fn column_view(field: Described) -> ColumnView {
    ColumnView {
        db_name: field.name(),
        const_name: screaming(field.ident),
        skeleton: said(field.marks()).skeleton,
    }
}

/// What fields make up.
pub open spec fn lays_out(
    layout: LayoutView,
    described: Seq<Described>,
    keys: Seq<Seq<char>>,
) -> bool {
    &&& layout.columns == synced(described, keys).map_values(
        |field: Described| column_view(field),
    )
    &&& key_fields(described).len() <= 1
    &&& match layout.pk {
        Some(pk) => key_fields(described).len() == 1 && pk == (
            screaming(key_fields(described)[0].ident),
            key_fields(described)[0].name(),
        ),
        None => key_fields(described).len() == 0,
    }
}

/// A list with one more element, filtered.
proof fn lemma_filter_more<T>(list: Seq<T>, x: T, keep: spec_fn(T) -> bool)
    ensures
        list.push(x).filter(keep) == if keep(x) {
            list.filter(keep).push(x)
        } else {
            list.filter(keep)
        },
{
    reveal(Seq::filter);
    assert(list.push(x).drop_last() =~= list);
}

/// Whether a field has the declaration refused, after the fields before it: it is flawed, or a
/// second
/// key.
pub open spec fn is_refused(
    described: Seq<Described>,
    keys: Seq<Seq<char>>,
    i: int,
) -> bool {
    described[i].is_flawed(keys) || described[i].is_key() && key_fields(described.take(i)).len()
        == 1
}

/// What is said of a field that has the declaration refused.
pub open spec fn refusal_of(field: Described) -> Seq<char> {
    if field.is_skipped() {
        "#[crdt(skip)] cannot be combined with rename or skeleton"@
    } else if field.is_key() && defaulted(field.marks()) is Some {
        "a #[crdt(pk)] field cannot also have a skeleton default"@
    } else if field.is_key() {
        "only one #[crdt(pk)] field is allowed"@
    } else {
        "a composite key column cannot also have a skeleton default"@
    }
}

/// One field more: it is refused, or adds to the layout what it describes.
proof fn lemma_layout_step(
    fields: Seq<FieldView>,
    described: Seq<Described>,
    keys: Seq<Seq<char>>,
    i: int,
    sofar: LayoutView,
)
    requires
        says_fields(fields, described),
        0 <= i < fields.len(),
        lays_out(sofar, described.take(i), keys),
        flawless(described.take(i), keys),
    ensures
        ({
            let attrs = field_attrs_from(fields[i].attrs, i as usize, 0, plain());
            let made = with_field(fields[i].ident, i as usize, attrs->Ok_0, keys, sofar);
            &&& attrs is Ok
            &&& is_refused(described, keys, i) ==> made == Err::<LayoutView, DiagnosticView>(
                DiagnosticView {
                    message: refusal_of(described[i]),
                    place: Place::Field(i as usize),
                },
            )
            &&& !is_refused(described, keys, i) ==> made is Ok && lays_out(
                made->Ok_0,
                described.take(i + 1),
                keys,
            ) && flawless(described.take(i + 1), keys)
        }),
{
    let field = described[i];
    let (before, more) = (described.take(i), described.take(i + 1));
    let marks = field.marks();
    assert(fields[i].ident == field.ident);
    law_field_attributes_are_read(fields[i].attrs, field.lists, i as usize);
    assert(before.push(field) =~= more);
    let column = |field: Described| field.is_column(keys);
    let key = |field: Described| field.is_key();
    let view = |field: Described| column_view(field);
    lemma_filter_more(before, field, column);
    lemma_filter_more(before, field, key);
    let made = with_field(fields[i].ident, i as usize, said(marks), keys, sofar);
    if !is_refused(described, keys, i) {
        assert(made is Ok);
        let next = made->Ok_0;
        assert(flawless(more, keys)) by {
            assert forall|k: int| 0 <= k < more.len() implies !(#[trigger] more[k]).is_flawed(
                keys,
            ) by {
                if k < i {
                    assert(more[k] == before[k]);
                }
            }
        }
        assert(lays_out(next, more, keys)) by {
            assert(synced(more, keys).map_values(view) =~= if field.is_column(keys) {
                synced(before, keys).map_values(view).push(column_view(field))
            } else {
                synced(before, keys).map_values(view)
            });
        }
    }
}

proof fn lemma_layout(
    fields: Seq<FieldView>,
    described: Seq<Described>,
    keys: Seq<Seq<char>>,
    i: int,
    sofar: LayoutView,
)
    requires
        says_fields(fields, described),
        0 <= i <= fields.len(),
        lays_out(sofar, described.take(i), keys),
        flawless(described.take(i), keys),
    ensures
        ({
            let made = layout_from(fields, keys, i, sofar);
            &&& made is Ok <==> flawless(described, keys) && key_fields(described).len() <= 1
            &&& made matches Ok(layout) ==> lays_out(layout, described, keys)
        }),
    decreases fields.len() - i,
{
    assert(described.take(described.len() as int) =~= described);
    if i < fields.len() {
        let field = described[i];
        let (before, more) = (described.take(i), described.take(i + 1));
        assert(before.push(field) =~= more);
        lemma_filter_more(before, field, |field: Described| field.is_key());
        lemma_layout_step(fields, described, keys, i, sofar);
        if field.is_flawed(keys) {
            assert(!flawless(described, keys));
        } else if is_refused(described, keys, i) {
            lemma_keys_grow(described, i + 1);
            assert(key_fields(more).len() == 2);
        } else {
            let attrs = field_attrs_from(fields[i].attrs, i as usize, 0, plain())->Ok_0;
            let next = with_field(fields[i].ident, i as usize, attrs, keys, sofar)->Ok_0;
            lemma_layout(fields, described, keys, i + 1, next);
        }
    }
}

/// The first field that is refused has the whole layout refused.
proof fn lemma_layout_refused(
    fields: Seq<FieldView>,
    described: Seq<Described>,
    keys: Seq<Seq<char>>,
    i: int,
    sofar: LayoutView,
    last: int,
)
    requires
        says_fields(fields, described),
        0 <= i <= last < fields.len(),
        lays_out(sofar, described.take(i), keys),
        flawless(described.take(i), keys),
        forall|k: int| i <= k < last ==> !#[trigger] is_refused(described, keys, k),
        is_refused(described, keys, last),
    ensures
        layout_from(fields, keys, i, sofar) == Err::<LayoutView, DiagnosticView>(
            DiagnosticView {
                message: refusal_of(described[last]),
                place: Place::Field(last as usize),
            },
        ),
    decreases last - i,
{
    lemma_layout_step(fields, described, keys, i, sofar);
    if i < last {
        assert(!is_refused(described, keys, i));
        let attrs = field_attrs_from(fields[i].attrs, i as usize, 0, plain())->Ok_0;
        let next = with_field(fields[i].ident, i as usize, attrs, keys, sofar)->Ok_0;
        lemma_layout_refused(fields, described, keys, i + 1, next, last);
    }
}

proof fn lemma_no_layout(described: Seq<Described>, keys: Seq<Seq<char>>)
    ensures
        lays_out(LayoutView { columns: Seq::empty(), pk: None }, described.take(0), keys),
        flawless(described.take(0), keys),
{
    reveal(Seq::filter);
    let view = |field: Described| column_view(field);
    let start = LayoutView { columns: Seq::empty(), pk: None };
    assert(described.take(0) =~= Seq::empty());
    assert(synced(described.take(0), keys) =~= Seq::empty());
    assert(key_fields(described.take(0)) =~= Seq::empty());
    assert(start.columns =~= synced(described.take(0), keys).map_values(view));
}

/// A refusal tells where it is: at the first field that is refused, and why. A struct that does not
/// name its table is refused as a whole, before its fields are looked at; one without a key at its
/// name, and one with two kinds of keys at the declaration of the composite one.
pub proof fn law_refusals_tell_where(
    input: DeclarationView,
    lists: Seq<Option<Seq<Clause>>>,
    described: Seq<Described>,
    i: int,
)
    requires
        !input.generic,
        says_clauses(input.attrs, lists),
        input.body is Named,
        says_fields(input.body->Named_0, described),
    ensures
        ({
            let clauses = all_of(lists);
            let key = key_declared(clauses);
            let keys = declared_keys(key);
            let made = expanded(input);
            &&& table_named(clauses) is None ==> made is Err && made->Err_0.place == Place::Whole
            &&& table_named(clauses) is Some && 0 <= i < described.len() && is_refused(
                described,
                keys,
                i,
            ) && (forall|k: int| 0 <= k < i ==> !#[trigger] is_refused(described, keys, k)) ==> made
                == Err::<PlanView, DiagnosticView>(
                DiagnosticView {
                    message: refusal_of(described[i]),
                    place: Place::Field(i as usize),
                },
            )
            &&& table_named(clauses) is Some && flawless(described, keys) && key_fields(
                described,
            ).len() == 0 && key is None ==> made is Err && made->Err_0.place == Place::Name
            &&& table_named(clauses) is Some && flawless(described, keys) && key_fields(
                described,
            ).len() == 1 && key is Some ==> made is Err && made->Err_0.place is Argument
        }),
{
    let clauses = all_of(lists);
    let keys = declared_keys(key_declared(clauses));
    let fields = input.body->Named_0;
    let none = ContainerView { table: None, composite: None };
    assert(all_of(lists.take(0)) =~= Seq::empty());
    lemma_containers(input.attrs, lists, 0, none);
    let container = containers_from(input.attrs, 0, none)->Ok_0;
    let start = LayoutView { columns: Seq::empty(), pk: None };
    assert(composite_keys(container.composite) =~= keys);
    lemma_no_layout(described, keys);
    lemma_layout(fields, described, keys, 0, start);
    if 0 <= i < described.len() && is_refused(described, keys, i) && forall|k: int|
        0 <= k < i ==> !#[trigger] is_refused(described, keys, k) {
        lemma_layout_refused(fields, described, keys, 0, start, i);
    }
}

/// The more fields, the more keys.
proof fn lemma_keys_grow(described: Seq<Described>, i: int)
    requires
        0 <= i <= described.len(),
    ensures
        key_fields(described.take(i)).len() <= key_fields(described).len(),
    decreases described.len() - i,
{
    if i < described.len() {
        lemma_keys_grow(described, i + 1);
        assert(described.take(i).push(described[i]) =~= described.take(i + 1));
        lemma_filter_more(described.take(i), described[i], |field: Described| field.is_key());
    } else {
        assert(described.take(i) =~= described);
    }
}

/// The columns of a declared composite key.
pub open spec fn declared_keys(key: Option<(Seq<char>, Seq<char>, char)>) -> Seq<Seq<char>> {
    match key {
        Some((a, b, sep)) => seq![a, b],
        None => Seq::empty(),
    }
}

proof fn lemma_skeletons(columns: Seq<Described>)
    ensures
        skeletons(columns.map_values(|field: Described| column_view(field))) == with_defaults(
            columns,
        ).map_values(
            |field: Described| (field.name(), default_value(defaulted(field.marks())->0)),
        ),
    decreases columns.len(),
{
    let view = |field: Described| column_view(field);
    let pair = |field: Described| (field.name(), default_value(defaulted(field.marks())->0));
    if columns.len() > 0 {
        let rest = columns.drop_last();
        lemma_skeletons(rest);
        assert(columns.map_values(view).drop_last() =~= rest.map_values(view));
        lemma_filter_more(
            rest,
            columns.last(),
            |field: Described| defaulted(field.marks()) is Some,
        );
        assert(rest.push(columns.last()) =~= columns);
        assert(with_defaults(columns).map_values(pair) =~= if defaulted(
            columns.last().marks(),
        ) is Some {
            with_defaults(rest).map_values(pair).push(pair(columns.last()))
        } else {
            with_defaults(rest).map_values(pair)
        });
    } else {
        reveal(Seq::filter);
        assert(columns.map_values(view) =~= Seq::empty());
        assert(with_defaults(columns) =~= Seq::empty());
        assert(with_defaults(columns).map_values(pair) =~= Seq::empty());
    }
}

/// What a struct's declaration describes. It is accepted exactly if it names its table, none of its
/// fields is flawed, and it has either one key field or a composite key. The table has the name
/// that
/// is declared. Its key is the column of the key field, or the composite of the two columns that
/// are
/// declared with the separator that is declared, a colon if none is. Its columns are those of the
/// fields that are neither keys nor left out, in their order and by their names; each has a
/// constant,
/// as has a key field, behind them; and the table has the defaults that are declared.
pub proof fn law_declarations_are_expanded(
    input: DeclarationView,
    lists: Seq<Option<Seq<Clause>>>,
    described: Seq<Described>,
)
    requires
        !input.generic,
        says_clauses(input.attrs, lists),
        input.body is Named,
        says_fields(input.body->Named_0, described),
    ensures
        ({
            let clauses = all_of(lists);
            let key = key_declared(clauses);
            let keys = declared_keys(key);
            let columns = synced(described, keys);
            let constant = |field: Described| (screaming(field.ident), field.name());
            let made = expanded(input);
            &&& made is Ok <==> {
                &&& table_named(clauses) is Some
                &&& flawless(described, keys)
                &&& key_fields(described).len() == if key is Some {
                    0int
                } else {
                    1int
                }
            }
            &&& made matches Ok(plan) ==> {
                &&& plan.table.name == table_named(clauses)->0
                &&& plan.table.pk == match key {
                    Some((a, b, sep)) => PkView::Composite { columns: (a, b), sep },
                    None => PkView::Single { column: key_fields(described)[0].name() },
                }
                &&& plan.table.columns == columns.map_values(|field: Described| field.name())
                &&& plan.table.skeleton == with_defaults(columns).map_values(
                    |field: Described|
                        (field.name(), default_value(defaulted(field.marks())->0)),
                )
                &&& plan.all == columns.map_values(|field: Described| screaming(field.ident))
                &&& plan.constants == columns.map_values(constant) + key_fields(
                    described,
                ).map_values(constant)
            }
        }),
{
    let clauses = all_of(lists);
    let key = key_declared(clauses);
    let keys = declared_keys(key);
    let columns = synced(described, keys);
    let fields = input.body->Named_0;
    let none = ContainerView { table: None, composite: None };
    assert(all_of(lists.take(0)) =~= Seq::empty());
    lemma_containers(input.attrs, lists, 0, none);
    let container = containers_from(input.attrs, 0, none)->Ok_0;
    let start = LayoutView { columns: Seq::empty(), pk: None };
    assert(composite_keys(container.composite) =~= keys);
    lemma_no_layout(described, keys);
    lemma_layout(fields, described, keys, 0, start);
    lemma_skeletons(columns);
    if expanded(input) is Ok {
        let plan = expanded(input)->Ok_0;
        let constant = |field: Described| (screaming(field.ident), field.name());
        assert(plan.table.columns =~= columns.map_values(|field: Described| field.name()));
        assert(plan.all =~= columns.map_values(|field: Described| screaming(field.ident)));
        assert(plan.constants =~= columns.map_values(constant) + key_fields(
            described,
        ).map_values(constant));
    }
}

/// Only structs with named fields and without generic parameters are expanded; generic parameters
/// are refused where they stand.
pub proof fn law_only_plain_structs_are_expanded(input: DeclarationView)
    ensures
        input.generic || !(input.body is Named) ==> expanded(input) is Err,
        input.generic ==> expanded(input)->Err_0.place == Place::Generics,
{
}

/// The name of a column's constant: letters of ASCII become the same letters in upper case, hyphens
/// become underscores, and everything else stays as it is.
pub proof fn law_constant_names(name: Seq<char>)
    ensures
        screaming(name).len() == name.len(),
        forall|i: int|
            0 <= i < name.len() ==> {
                let (c, u) = (name[i], #[trigger] screaming(name)[i]);
                &&& 'a' <= c && c <= 'z' ==> 'A' <= u && u <= 'Z' && u as int - 'A' as int
                    == c as int
                    - 'a' as int
                &&& c == '-' ==> u == '_'
                &&& !('a' <= c && c <= 'z') && c != '-' ==> u == c
            },
        screaming(screaming(name)) == screaming(name),
{
    assert(screaming(screaming(name)) =~= screaming(name));
}

} // verus!
