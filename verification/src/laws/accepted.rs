//! Laws of which declarations are accepted: only those that are written as they are to be.
use vstd::prelude::*;

use crate::derive::ArgView;
use crate::derive::ContainerView;
use crate::derive::DeclarationView;
use crate::derive::FieldAttrsView;
use crate::derive::FieldView;
use crate::derive::FormView;
use crate::derive::LayoutView;
use crate::derive::TokenView;
use crate::derive::Tokens;
use crate::derive::arg_at;
use crate::derive::args_from;
use crate::derive::close_from;
use crate::derive::composite_keys;
use crate::derive::containers_from;
use crate::derive::expanded;
use crate::derive::expression_end;
use crate::derive::field_attrs_from;
use crate::derive::float_token;
use crate::derive::integer_token;
use crate::derive::key_at;
use crate::derive::key_from;
use crate::derive::layout_from;
use crate::derive::metas_from;
use crate::derive::plain;
use crate::derive::skeleton_at;
use crate::derive::with_field;
use crate::derive::with_meta;
use crate::laws::derived::Clause;
use crate::laws::derived::Described;
use crate::laws::derived::Mark;
use crate::laws::derived::Preset;
use crate::laws::derived::clause_tokens;
use crate::laws::derived::clauses_tokens;
use crate::laws::derived::default_token;
use crate::laws::derived::lists_out;
use crate::laws::derived::mark_tokens;
use crate::laws::derived::marks_tokens;
use crate::laws::derived::says_clauses;
use crate::laws::derived::says_fields;
use crate::laws::derived::says_marks;
use crate::laws::misfits::law_brackets_close;
use crate::statement::lemma_decimal_number;
use crate::text::decimal;
use crate::text::signed_decimal;
use crate::value::RealView;

verus! {

/// Whether every bracket that opens closes.
pub open spec fn closed_up(tokens: Tokens) -> bool {
    forall|i: int|
        0 <= i < tokens.len() && (#[trigger] tokens[i]) is Open ==> close_from(tokens, i + 1, 0)
            < tokens.len()
}

/// Whether the words that attributes are made of are reserved words exactly where they are in Rust.
pub open spec fn lexed(tokens: Tokens) -> bool {
    forall|i: int|
        0 <= i < tokens.len() ==> (#[trigger] tokens[i] matches TokenView::Word { text, keyword }
            ==> {
            &&& text == "true"@ || text == "false"@ ==> keyword
            &&& text == "pk"@ || text == "skip"@ || text == "rename"@ || text == "skeleton"@ || text
                == "now_rfc3339"@ ==> !keyword
        })
}

/// What is in excess of an argument has the rest refused.
proof fn lemma_surplus(tokens: Tokens, at: int, attr: int, sofar: ContainerView, excess: int)
    requires
        0 <= at,
    ensures
        args_from(tokens, at, attr, sofar, Some(excess)) is Err,
    decreases tokens.len() + 1 - at,
{
    if at < tokens.len() {
        if let Ok(read) = arg_at(tokens, at) {
            if tokens[at + 2] is Open {
                law_brackets_close(tokens, at + 3, 0);
            }
            if !(read.next < tokens.len() && tokens[read.next] != TokenView::Punct(',')) {
                lemma_surplus(tokens, read.next + 1, attr, sofar.with(read.arg, attr), excess);
            }
        }
    }
}

/// An argument of a struct's attribute that is read is a clause.
proof fn lemma_arg(tokens: Tokens, at: int) -> (clause: Clause)
    requires
        0 <= at < tokens.len(),
        closed_up(tokens),
        arg_at(tokens, at) is Ok,
        arg_at(tokens, at)->Ok_0.surplus is None,
    ensures
        arg_at(tokens, at)->Ok_0.next == at + clause_tokens(clause).len(),
        at + clause_tokens(clause).len() <= tokens.len(),
        tokens.subrange(at, at + clause_tokens(clause).len() as int) == clause_tokens(clause),
{
    let read = arg_at(tokens, at)->Ok_0;
    match read.arg {
        ArgView::Table(name) => {
            let clause = Clause::Table(name);
            assert(tokens.subrange(at, at + 3) =~= clause_tokens(clause));
            clause
        },
        ArgView::Pk(key) => {
            assert(tokens[at + 2] is Open);
            let end = close_from(tokens, at + 3, 0);
            law_brackets_close(tokens, at + 3, 0);
            if tokens[at + 6] == TokenView::Punct(';') && at + 6 < end {
                let clause = Clause::KeyWith { a: key.a, b: key.b, sep: key.sep };
                assert(end == at + 10);
                assert(tokens.subrange(at, at + 11) =~= clause_tokens(clause));
                clause
            } else {
                let clause = Clause::Key { a: key.a, b: key.b };
                assert(end == at + 6);
                assert(tokens.subrange(at, at + 7) =~= clause_tokens(clause));
                clause
            }
        },
    }
}

proof fn lemma_clauses_shift(first: Clause, rest: Seq<Clause>, from: int)
    requires
        0 <= from <= rest.len(),
    ensures
        clauses_tokens(seq![first] + rest, from + 1) == clauses_tokens(rest, from),
    decreases rest.len() - from,
{
    let all = seq![first] + rest;
    if from < rest.len() {
        assert(all[from + 1] == rest[from]);
        if from < rest.len() - 1 {
            lemma_clauses_shift(first, rest, from + 1);
        }
    }
}

/// The arguments of a struct's attribute that are read are clauses.
proof fn lemma_args(tokens: Tokens, at: int, attr: int, sofar: ContainerView) -> (clauses: Seq<
    Clause,
>)
    requires
        0 <= at < tokens.len(),
        closed_up(tokens),
        args_from(tokens, at, attr, sofar, None) is Ok,
    ensures
        clauses.len() > 0,
        lists_out(tokens.skip(at), clauses_tokens(clauses, 0)),
    decreases tokens.len() - at,
{
    let read = arg_at(tokens, at)->Ok_0;
    let next = sofar.with(read.arg, attr);
    if let Some(excess) = read.surplus {
        if tokens[at + 2] is Open {
            law_brackets_close(tokens, at + 3, 0);
        }
        lemma_surplus(tokens, read.next + 1, attr, next, excess);
    }
    let clause = lemma_arg(tokens, at);
    let own = clause_tokens(clause);
    let n = own.len() as int;
    let whole = tokens.skip(at);
    assert(whole.take(n) =~= own) by {
        assert(whole.take(n) =~= tokens.subrange(at, at + n));
    }
    if read.next + 1 < tokens.len() {
        let rest = lemma_args(tokens, read.next + 1, attr, next);
        let clauses = seq![clause] + rest;
        lemma_clauses_shift(clause, rest, 0);
        let list = clauses_tokens(rest, 0);
        let comma = seq![TokenView::Punct(',')];
        assert(clauses[0] == clause);
        assert(clauses_tokens(clauses, 0) == own + comma + list);
        assert(whole =~= own + comma + tokens.skip(read.next + 1));
        if tokens.skip(read.next + 1) != list {
            assert(own + comma + list.push(TokenView::Punct(',')) =~= (own + comma + list).push(
                TokenView::Punct(','),
            ));
        }
        clauses
    } else {
        let clauses = seq![clause];
        assert(clauses_tokens(clauses, 0) == own);
        if read.next < tokens.len() {
            assert(whole =~= own.push(TokenView::Punct(',')));
        } else {
            assert(whole =~= own);
        }
        clauses
    }
}

/// What is read of an argument of a field's attribute is a mark.
proof fn lemma_meta(tokens: Tokens, at: int, sofar: FieldAttrsView) -> (mark: Mark)
    requires
        0 <= at < tokens.len(),
        lexed(tokens),
        key_at(tokens, at) is Ok,
        with_meta(tokens, at, key_at(tokens, at)->Ok_0, sofar) is Ok,
    ensures
        with_meta(tokens, at, key_at(tokens, at)->Ok_0, sofar)->Ok_0.1 == at + mark_tokens(
            mark,
        ).len(),
        at + mark_tokens(mark).len() <= tokens.len(),
        tokens.subrange(at, at + mark_tokens(mark).len() as int) == mark_tokens(mark),
{
    let key = key_at(tokens, at)->Ok_0;
    let next = with_meta(tokens, at, key, sofar)->Ok_0.1;
    reveal_with_fuel(key_from, 2);
    lemma_single(tokens, at + 1, tokens[at]->Word_text, true);
    lemma_single(tokens, at + 3, tokens[at + 2]->Word_text, false);
    assert(key.single);
    assert(tokens[at] is Word);
    assert(key.next == at + 1);
    if key.last == "pk"@ {
        assert(tokens.subrange(at, at + 1) =~= mark_tokens(Mark::Pk));
        Mark::Pk
    } else if key.last == "skip"@ {
        assert(tokens.subrange(at, at + 1) =~= mark_tokens(Mark::Skip));
        Mark::Skip
    } else if key.last == "rename"@ {
        let mark = Mark::Rename(tokens[at + 2]->Str_0);
        assert(tokens.subrange(at, at + 3) =~= mark_tokens(mark));
        mark
    } else {
        let to = expression_end(tokens, at + 2);
        assert(skeleton_at(tokens, at + 2, to) is Ok);
        assert(to == at + 3);
        assert(at + 2 < tokens.len()) by {
            if at + 2 >= tokens.len() {
                assert(crate::derive::run_end(tokens, at + 2, 0) == tokens.len());
            }
        }
        let default = match tokens[at + 2] {
            TokenView::Str(s) => Preset::Text(s),
            TokenView::Int(i) => Preset::Integer(i),
            TokenView::Float(r) => Preset::Real(r),
            TokenView::Word { text, keyword } => if text == "true"@ {
                Preset::Bool(true)
            } else if text == "false"@ {
                Preset::Bool(false)
            } else {
                Preset::Now
            },
            _ => Preset::Now,
        };
        let mark = Mark::Skeleton(default);
        assert(tokens[at + 2] == default_token(default));
        assert(tokens.subrange(at, at + 3) =~= mark_tokens(mark));
        mark
    }
}

/// A key is a single word only if nothing goes on with it.
proof fn lemma_single(tokens: Tokens, at: int, last: Seq<char>, single: bool)
    ensures
        key_from(tokens, at, last, single) matches Ok(key) ==> key.single ==> single && key.next
            == at && key.last == last,
    decreases tokens.len() - at,
{
    if 0 <= at && at + 2 < tokens.len() && tokens[at + 2] is Word {
        lemma_single(tokens, at + 3, tokens[at + 2]->Word_text, false);
    }
}

proof fn lemma_marks_shift(first: Mark, rest: Seq<Mark>, from: int)
    requires
        0 <= from <= rest.len(),
    ensures
        marks_tokens(seq![first] + rest, from + 1) == marks_tokens(rest, from),
    decreases rest.len() - from,
{
    let all = seq![first] + rest;
    if from < rest.len() {
        assert(all[from + 1] == rest[from]);
        if from < rest.len() - 1 {
            lemma_marks_shift(first, rest, from + 1);
        }
    }
}

/// The arguments of a field's attribute that are read are marks.
proof fn lemma_metas(tokens: Tokens, at: int, sofar: FieldAttrsView) -> (marks: Seq<Mark>)
    requires
        0 <= at < tokens.len(),
        lexed(tokens),
        metas_from(tokens, at, sofar) is Ok,
    ensures
        marks.len() > 0,
        lists_out(tokens.skip(at), marks_tokens(marks, 0)),
    decreases tokens.len() - at,
{
    let key = key_at(tokens, at)->Ok_0;
    let (attrs, next) = with_meta(tokens, at, key, sofar)->Ok_0;
    let mark = lemma_meta(tokens, at, sofar);
    let own = mark_tokens(mark);
    let n = own.len() as int;
    let whole = tokens.skip(at);
    assert(whole.take(n) =~= own) by {
        assert(whole.take(n) =~= tokens.subrange(at, at + n));
    }
    if next + 1 < tokens.len() {
        let rest = lemma_metas(tokens, next + 1, attrs);
        let marks = seq![mark] + rest;
        lemma_marks_shift(mark, rest, 0);
        let list = marks_tokens(rest, 0);
        let comma = seq![TokenView::Punct(',')];
        assert(marks[0] == mark);
        assert(marks_tokens(marks, 0) == own + comma + list);
        assert(whole =~= own + comma + tokens.skip(next + 1));
        if tokens.skip(next + 1) != list {
            assert(own + comma + list.push(TokenView::Punct(',')) =~= (own + comma + list).push(
                TokenView::Punct(','),
            ));
        }
        marks
    } else {
        let marks = seq![mark];
        assert(marks_tokens(marks, 0) == own);
        if next < tokens.len() {
            assert(whole =~= own.push(TokenView::Punct(',')));
        } else {
            assert(whole =~= own);
        }
        marks
    }
}

/// Whether the tokens of all attributes are as those of a Rust program are.
pub open spec fn sound_attrs(attrs: Seq<(Seq<char>, FormView)>) -> bool {
    forall|i: int|
        0 <= i < attrs.len() && (#[trigger] attrs[i]).1 is List ==> closed_up(attrs[i].1->List_0)
            && lexed(attrs[i].1->List_0)
}

proof fn lemma_struct_attrs(
    attrs: Seq<(Seq<char>, FormView)>,
    i: int,
    sofar: ContainerView,
) -> (lists: Seq<Option<Seq<Clause>>>)
    requires
        0 <= i <= attrs.len(),
        sound_attrs(attrs),
        containers_from(attrs, i, sofar) is Ok,
    ensures
        says_clauses(attrs.skip(i), lists),
    decreases attrs.len() - i,
{
    let all = attrs.skip(i);
    if i < attrs.len() {
        let ours = attrs[i].0 == "crdt"@ && attrs[i].1 is List;
        let tokens = attrs[i].1->List_0;
        let next = if ours {
            args_from(tokens, 0, i, sofar, None)->Ok_0
        } else {
            sofar
        };
        let rest = lemma_struct_attrs(attrs, i + 1, next);
        let first = if !ours {
            None
        } else if tokens.len() == 0 {
            Some(Seq::<Clause>::empty())
        } else {
            let clauses = lemma_args(tokens, 0, i, sofar);
            assert(tokens.skip(0) =~= tokens);
            Some(clauses)
        };
        if ours && tokens.len() == 0 {
            assert(tokens =~= clauses_tokens(Seq::empty(), 0));
        }
        let lists = seq![first] + rest;
        assert forall|k: int| 0 <= k < all.len() implies match lists[k] {
            Some(clauses) => (#[trigger] all[k]).0 == "crdt"@ && all[k].1 is List && lists_out(
                all[k].1->List_0,
                clauses_tokens(clauses, 0),
            ),
            None => all[k].0 != "crdt"@ || all[k].1 !is List,
        } by {
            if k > 0 {
                assert(attrs.skip(i + 1)[k - 1] == all[k]);
                assert(lists[k] == rest[k - 1]);
            }
        }
        lists
    } else {
        Seq::empty()
    }
}

proof fn lemma_field_attrs_read(
    attrs: Seq<(Seq<char>, FormView)>,
    field: usize,
    i: int,
    sofar: FieldAttrsView,
) -> (lists: Seq<Option<Seq<Mark>>>)
    requires
        0 <= i <= attrs.len(),
        sound_attrs(attrs),
        field_attrs_from(attrs, field, i, sofar) is Ok,
    ensures
        says_marks(attrs.skip(i), lists),
    decreases attrs.len() - i,
{
    let all = attrs.skip(i);
    if i < attrs.len() {
        let ours = attrs[i].0 == "crdt"@;
        let tokens = attrs[i].1->List_0;
        let next = if ours {
            metas_from(tokens, 0, sofar)->Ok_0
        } else {
            sofar
        };
        let rest = lemma_field_attrs_read(attrs, field, i + 1, next);
        let first = if !ours {
            None
        } else if tokens.len() == 0 {
            Some(Seq::<Mark>::empty())
        } else {
            let marks = lemma_metas(tokens, 0, sofar);
            assert(tokens.skip(0) =~= tokens);
            Some(marks)
        };
        if ours && tokens.len() == 0 {
            assert(tokens =~= marks_tokens(Seq::empty(), 0));
        }
        let lists = seq![first] + rest;
        assert forall|k: int| 0 <= k < all.len() implies match lists[k] {
            Some(marks) => (#[trigger] all[k]).0 == "crdt"@ && all[k].1 is List && lists_out(
                all[k].1->List_0,
                marks_tokens(marks, 0),
            ),
            None => all[k].0 != "crdt"@,
        } by {
            if k > 0 {
                assert(attrs.skip(i + 1)[k - 1] == all[k]);
                assert(lists[k] == rest[k - 1]);
            }
        }
        lists
    } else {
        Seq::empty()
    }
}

proof fn lemma_fields_read(
    fields: Seq<FieldView>,
    keys: Seq<Seq<char>>,
    i: int,
    sofar: LayoutView,
) -> (described: Seq<Described>)
    requires
        0 <= i <= fields.len(),
        forall|k: int| 0 <= k < fields.len() ==> sound_attrs((#[trigger] fields[k]).attrs),
        layout_from(fields, keys, i, sofar) is Ok,
    ensures
        says_fields(fields.skip(i), described),
    decreases fields.len() - i,
{
    let all = fields.skip(i);
    if i < fields.len() {
        let attrs = field_attrs_from(fields[i].attrs, i as usize, 0, plain())->Ok_0;
        let next = with_field(fields[i].ident, i as usize, attrs, keys, sofar)->Ok_0;
        let rest = lemma_fields_read(fields, keys, i + 1, next);
        let lists = lemma_field_attrs_read(fields[i].attrs, i as usize, 0, plain());
        assert(fields[i].attrs.skip(0) =~= fields[i].attrs);
        let first = Described { ident: fields[i].ident, lists };
        let described = seq![first] + rest;
        assert forall|k: int| 0 <= k < all.len() implies (#[trigger] all[k]).ident
            == described[k].ident && says_marks(all[k].attrs, described[k].lists) by {
            if k > 0 {
                assert(fields.skip(i + 1)[k - 1] == all[k]);
                assert(described[k] == rest[k - 1]);
            }
        }
        described
    } else {
        Seq::empty()
    }
}

/// A declaration that is accepted is that of a struct with named fields and without generic
/// parameters, whose attributes are lists of what they can say: the struct's of its table and its
/// composite key, and those of its fields of `pk`, `skip`, a new name and a default. Anything else
/// that is in an attribute has the declaration refused.
pub proof fn law_only_written_declarations_are_accepted(input: DeclarationView) -> (said: (
    Seq<Option<Seq<Clause>>>,
    Seq<Described>,
))
    requires
        expanded(input) is Ok,
        sound_attrs(input.attrs),
        input.body is Named ==> forall|k: int|
            0 <= k < input.body->Named_0.len() ==> sound_attrs(
                (#[trigger] input.body->Named_0[k]).attrs,
            ),
    ensures
        !input.generic,
        input.body is Named,
        says_clauses(input.attrs, said.0),
        says_fields(input.body->Named_0, said.1),
{
    let none = ContainerView { table: None, composite: None };
    let lists = lemma_struct_attrs(input.attrs, 0, none);
    assert(input.attrs.skip(0) =~= input.attrs);
    let container = containers_from(input.attrs, 0, none)->Ok_0;
    let fields = input.body->Named_0;
    let keys = composite_keys(container.composite);
    let described = lemma_fields_read(
        fields,
        keys,
        0,
        LayoutView { columns: Seq::empty(), pk: None },
    );
    assert(fields.skip(0) =~= fields);
    (lists, described)
}

/// The literal of an integer stands for it, with or without the suffix of its type, if a column
/// value
/// can hold it; with another suffix it is refused, and so is one that is too great or too small.
pub proof fn law_integer_literals(i: int, suffix: Seq<char>)
    ensures
        ({
            let token = integer_token(signed_decimal(i), suffix);
            if (suffix == ""@ || suffix == "i64"@) && i64::MIN <= i <= i64::MAX {
                token == TokenView::Int(i as i64)
            } else {
                token is Unfit
            }
        }),
{
    let size = if i < 0 {
        -i
    } else {
        i
    };
    lemma_decimal_number(size as nat);
    let digits = decimal(size as nat);
    if i < 0 {
        assert(signed_decimal(i).skip(1) =~= digits);
    } else {
        assert(crate::statement::is_digit(digits[0]));
    }
}

/// The literal of a finite floating-point number stands for it, with or without the suffix of its
/// type; with another suffix it is refused, and so is one that is too great.
pub proof fn law_float_literals(value: RealView, suffix: Seq<char>)
    ensures
        ({
            let token = float_token(value, suffix);
            if (suffix == ""@ || suffix == "f64"@) && value.json is Some {
                token == TokenView::Float(value)
            } else {
                token is Unfit
            }
        }),
{
}

} // verus!
