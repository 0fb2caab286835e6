//! Laws of where a declaration is found to be wrong.
use vstd::prelude::*;

use crate::derive::ContainerView;
use crate::derive::DeclarationView;
use crate::derive::DiagnosticView;
use crate::derive::FieldAttrsView;
use crate::derive::FormView;
use crate::derive::MisfitView;
use crate::derive::Place;
use crate::derive::PlanView;
use crate::derive::TokenView;
use crate::derive::Tokens;
use crate::derive::angles_end;
use crate::derive::arg_at;
use crate::derive::args_from;
use crate::derive::close_from;
use crate::derive::containers_from;
use crate::derive::expanded;
use crate::derive::expression_end;
use crate::derive::field_attrs_from;
use crate::derive::is_literal;
use crate::derive::key_at;
use crate::derive::key_from;
use crate::derive::metas_from;
use crate::derive::path_end;
use crate::derive::plain;
use crate::derive::run_end;
use crate::derive::segments_end;
use crate::derive::skeleton_at;
use crate::derive::with_meta;
use crate::laws::derived::Clause;
use crate::laws::derived::Mark;
use crate::laws::derived::all_of;
use crate::laws::derived::clause_tokens;
use crate::laws::derived::clauses_tokens;
use crate::laws::derived::contains_said;
use crate::laws::derived::lemma_clause;
use crate::laws::derived::lemma_clauses;
use crate::laws::derived::lemma_mark;
use crate::laws::derived::lemma_marks;
use crate::laws::derived::lists_out;
use crate::laws::derived::mark_tokens;
use crate::laws::derived::marks_tokens;
use crate::laws::derived::said;
use crate::laws::derived::says_clauses;
use crate::laws::derived::says_marks;

verus! {

/// How many more brackets open than close from one token up to another.
pub open spec fn depth_at(tokens: Tokens, from: int, i: int) -> int
    decreases i - from,
{
    if i <= from {
        0
    } else {
        depth_at(tokens, from, i - 1) + (if tokens[i - 1] is Open {
            1int
        } else if tokens[i - 1] is Close {
            -1
        } else {
            0
        })
    }
}

proof fn lemma_depth_step(tokens: Tokens, from: int, i: int)
    requires
        0 <= from < i,
    ensures
        depth_at(tokens, from, i) == (if tokens[from] is Open {
            1int
        } else if tokens[from] is Close {
            -1
        } else {
            0
        }) + depth_at(tokens, from + 1, i),
    decreases i - from,
{
    if from + 1 < i {
        lemma_depth_step(tokens, from, i - 1);
    } else {
        assert(depth_at(tokens, from, from) == 0);
    }
}

/// A run of tokens ends before the first comma, or the first closing bracket, that is outside of
/// the
/// brackets in it.
pub proof fn law_runs_end_at_commas(tokens: Tokens, from: int, depth: nat)
    requires
        0 <= from <= tokens.len(),
    ensures
        ({
            let end = run_end(tokens, from, depth);
            &&& from <= end <= tokens.len()
            &&& end < tokens.len() ==> depth + depth_at(tokens, from, end) == 0 && (tokens[end]
                == TokenView::Punct(',') || tokens[end] is Close)
            &&& forall|i: int|
                from <= i < end && depth + #[trigger] depth_at(tokens, from, i) == 0 ==> tokens[i]
                    != TokenView::Punct(',') && tokens[i] !is Close
        }),
    decreases tokens.len() - from,
{
    let end = run_end(tokens, from, depth);
    if from < tokens.len() {
        let next = if tokens[from] is Open {
            depth + 1int
        } else if tokens[from] is Close {
            depth - 1
        } else {
            depth as int
        };
        if end > from || !(depth == 0 && (tokens[from] == TokenView::Punct(',')
            || tokens[from] is Close)) {
            law_runs_end_at_commas(tokens, from + 1, next as nat);
            if end > from {
                lemma_depth_step(tokens, from, end);
            }
            assert forall|i: int|
                from <= i < end && depth + #[trigger] depth_at(
                    tokens,
                    from,
                    i,
                ) == 0 implies tokens[i] != TokenView::Punct(',') && tokens[i] !is Close by {
                if i > from {
                    lemma_depth_step(tokens, from, i);
                    assert(next + depth_at(tokens, from + 1, i) == 0);
                }
            }
        }
    }
}

/// A bracket is closed by the first closing bracket that is outside of the brackets in it.
pub proof fn law_brackets_close(tokens: Tokens, from: int, depth: nat)
    requires
        0 <= from <= tokens.len(),
    ensures
        ({
            let end = close_from(tokens, from, depth);
            &&& from <= end <= tokens.len()
            &&& end < tokens.len() ==> depth + depth_at(tokens, from, end) == 0
                && tokens[end] is Close
            &&& forall|i: int|
                from <= i < end && depth + #[trigger] depth_at(tokens, from, i) == 0
                    ==> tokens[i] !is Close
        }),
    decreases tokens.len() - from,
{
    let end = close_from(tokens, from, depth);
    if from < tokens.len() && !(depth == 0 && tokens[from] is Close) {
        let next = if tokens[from] is Open {
            depth + 1int
        } else if tokens[from] is Close {
            depth - 1
        } else {
            depth as int
        };
        law_brackets_close(tokens, from + 1, next as nat);
        if end > from {
            lemma_depth_step(tokens, from, end);
        }
        assert forall|i: int|
            from <= i < end && depth + #[trigger] depth_at(tokens, from, i) == 0 implies tokens[i]
            !is Close by {
            if i > from {
                lemma_depth_step(tokens, from, i);
                assert(next + depth_at(tokens, from + 1, i) == 0);
            }
        }
    }
}

/// Whether a struct's attribute can go on from `at` up to `to` as it does: a clause begins so.
pub open spec fn begins_clause(tokens: Tokens, at: int, to: int, clause: Clause) -> bool {
    to - at <= clause_tokens(clause).len() && clause_tokens(clause).take(to - at)
        == tokens.subrange(at, to)
}

/// A clause cannot begin with tokens that it has not.
proof fn lemma_not_clause(tokens: Tokens, at: int, k: int)
    requires
        0 <= at,
        0 <= k,
        at + k < tokens.len(),
        forall|clause: Clause, j: int|
            #![trigger clause_tokens(clause)[j]]
            0 <= j <= k < clause_tokens(clause).len() && (forall|m: int|
                0 <= m < k ==> #[trigger] tokens[at + m] == clause_tokens(clause)[m]) && j == k
                ==> tokens[at + j] != clause_tokens(clause)[j],
    ensures
        forall|clause: Clause| !#[trigger] begins_clause(tokens, at, at + k + 1, clause),
{
    assert forall|clause: Clause| !#[trigger] begins_clause(tokens, at, at + k + 1, clause) by {
        if begins_clause(tokens, at, at + k + 1, clause) {
            let own = clause_tokens(clause);
            let same = tokens.subrange(at, at + k + 1);
            assert forall|m: int| 0 <= m < k implies #[trigger] tokens[at + m] == own[m] by {
                assert(same[m] == own.take(k + 1)[m]);
            }
            assert(same[k] == own.take(k + 1)[k]);
            assert(tokens[at + k] == own[k]);
        }
    }
}

/// An argument of a struct's attribute that is wrong is found wrong at the first token after which
/// none that is right begins so; if there is such a beginning, but no more, at the end.
pub proof fn law_wrong_arguments_are_found_at_once(tokens: Tokens, at: int)
    requires
        0 <= at < tokens.len(),
        arg_at(tokens, at) is Err,
    ensures
        ({
            let found = arg_at(tokens, at)->Err_0.at;
            &&& at <= found <= tokens.len()
            &&& exists|clause: Clause| #[trigger] begins_clause(tokens, at, found, clause)
            &&& found < tokens.len() ==> forall|clause: Clause|
                !#[trigger] begins_clause(tokens, at, found + 1, clause)
        }),
{
    reveal_strlit("table");
    reveal_strlit("pk");
    assert("table"@.len() == 5 && "pk"@.len() == 2);
    let found = arg_at(tokens, at)->Err_0.at;
    let end = tokens.len() as int;
    let table = Clause::Table(Seq::empty());
    let key = tokens[at]->Word_text;
    if !(tokens[at] is Word) || tokens[at]->keyword || (key != "table"@ && key != "pk"@) {
        assert(found == at);
        assert(tokens.subrange(at, at) =~= clause_tokens(table).take(0));
        assert(begins_clause(tokens, at, at, table));
        lemma_not_clause(tokens, at, 0);
        assert(at + 0 + 1 == found + 1);
    } else if key == "table"@ {
        if found == at + 1 {
            assert(tokens.subrange(at, at + 1) =~= clause_tokens(table).take(1));
            assert(begins_clause(tokens, at, at + 1, table));
            if found < end {
                lemma_later(tokens, at, 1);
                lemma_not_clause(tokens, at, 1);
                assert(at + 1 + 1 == found + 1);
            }
        } else {
            assert(found == at + 2);
            assert(tokens.subrange(at, at + 2) =~= clause_tokens(table).take(2));
            assert(begins_clause(tokens, at, at + 2, table));
            if found < end {
                lemma_later(tokens, at, 2);
                lemma_not_clause(tokens, at, 2);
                assert(at + 2 + 1 == found + 1);
            }
        }
    } else {
        lemma_wrong_key(tokens, at);
    }
}

/// What is wanted at a token of an argument of a struct's attribute, by its place.
pub open spec fn wanted(key: Seq<char>, k: int) -> Seq<char> {
    if k == 0 || k == 3 || k == 5 || k == 7 {
        "expected identifier"@
    } else if k == 1 || k == 8 {
        "expected `=`"@
    } else if k == 2 && key == "table"@ {
        "expected string literal"@
    } else if k == 2 {
        "expected parentheses"@
    } else if k == 4 {
        "expected `,`"@
    } else {
        "expected character literal"@
    }
}

/// What is told of an argument of a struct's attribute that is wrong: what is wanted where it is
/// wrong, that there is nothing more if it ends there, and which word it is if that is one that
/// cannot stand there.
pub proof fn law_misfits_tell_what_is_wanted(tokens: Tokens, at: int)
    requires
        0 <= at < tokens.len(),
        arg_at(tokens, at) is Err,
    ensures
        ({
            let misfit = arg_at(tokens, at)->Err_0;
            let k = misfit.at - at;
            let key = tokens[at]->Word_text;
            let word = tokens[misfit.at]->Word_text;
            let over = misfit.at == tokens.len() || k >= 3 && misfit.at == close_from(
                tokens,
                at + 3,
                0,
            );
            misfit.message == if over {
                "unexpected end of input, "@ + wanted(key, k)
            } else if wanted(key, k) == "expected identifier"@ && tokens[misfit.at] is Word {
                if tokens[misfit.at]->keyword {
                    "expected identifier, found keyword `"@ + word + "`"@
                } else if k == 0 {
                    "unknown crdt(...) key `"@ + word
                        + "` on the struct; expected `table` or `pk`"@
                } else {
                    "expected `sep = '<char>'` in composite pk"@
                }
            } else {
                wanted(key, k)
            }
        }),
{
    reveal_strlit("expected identifier");
    reveal_strlit("expected `=`");
    reveal_strlit("expected string literal");
    reveal_strlit("expected parentheses");
    reveal_strlit("expected `,`");
    reveal_strlit("expected character literal");
    reveal_strlit("table");
    reveal_strlit("pk");
    assert("table"@.len() == 5 && "pk"@.len() == 2);
    assert("expected identifier"@.len() == 19 && "expected `=`"@.len() == 12);
    assert("expected string literal"@.len() == 23 && "expected parentheses"@.len() == 20);
    assert("expected `,`"@.len() == 12 && "expected character literal"@.len() == 26);
    if at + 3 <= tokens.len() {
        law_brackets_close(tokens, at + 3, 0);
    }
}

/// The tokens before the last one, one by one.
proof fn lemma_later(tokens: Tokens, at: int, k: int)
    requires
        0 <= at,
        0 < k,
    ensures
        forall|clause: Clause|
            #![trigger clause_tokens(clause)]
            k < clause_tokens(clause).len() && (forall|m: int|
                0 <= m < k ==> #[trigger] tokens[at + m] == clause_tokens(clause)[m])
                ==> tokens[at] == clause_tokens(clause)[0],
{
    assert forall|clause: Clause|
        #![trigger clause_tokens(clause)]
        k < clause_tokens(clause).len() && (forall|m: int|
            0 <= m < k ==> #[trigger] tokens[at + m] == clause_tokens(
                clause,
            )[m]) implies tokens[at] == clause_tokens(clause)[0] by {
        assert(tokens[at + 0] == clause_tokens(clause)[0]);
    }
}

/// The case of a composite key.
proof fn lemma_wrong_key(tokens: Tokens, at: int)
    requires
        0 <= at < tokens.len(),
        arg_at(tokens, at) is Err,
        tokens[at] == (TokenView::Word { text: "pk"@, keyword: false }),
    ensures
        ({
            let found = arg_at(tokens, at)->Err_0.at;
            &&& at <= found <= tokens.len()
            &&& exists|clause: Clause| #[trigger] begins_clause(tokens, at, found, clause)
            &&& found < tokens.len() ==> forall|clause: Clause|
                !#[trigger] begins_clause(tokens, at, found + 1, clause)
        }),
{
    reveal_strlit("table");
    reveal_strlit("pk");
    assert("table"@.len() == 5 && "pk"@.len() == 2);
    let found = arg_at(tokens, at)->Err_0.at;
    let k = found - at;
    if at + 3 <= tokens.len() {
        law_brackets_close(tokens, at + 3, 0);
    }
    let a = if tokens[at + 3] is Word {
        tokens[at + 3]->Word_text
    } else {
        Seq::empty()
    };
    let b = if tokens[at + 5] is Word {
        tokens[at + 5]->Word_text
    } else {
        Seq::empty()
    };
    let with = Clause::KeyWith { a, b, sep: ':' };
    assert(1 <= k <= 9);
    assert(tokens.subrange(at, found) =~= clause_tokens(with).take(k));
    assert(begins_clause(tokens, at, found, with));
    if found < tokens.len() {
        lemma_later(tokens, at, k);
        assert forall|clause: Clause, j: int|
            #![trigger clause_tokens(clause)[j]]
            0 <= j <= k < clause_tokens(clause).len() && (forall|m: int|
                0 <= m < k ==> #[trigger] tokens[at + m] == clause_tokens(clause)[m]) && j
                == k implies tokens[at + j] != clause_tokens(clause)[j] by {
            let own = clause_tokens(clause);
            assert(!(clause is Table));
            if k > 6 {
                assert(tokens[at + 6] == own[6]);
            }
        }
        lemma_not_clause(tokens, at, k);
    }
}

/// Clauses that are in order are passed.
proof fn lemma_pass_clauses(
    tokens: Tokens,
    at: int,
    attr: int,
    sofar: ContainerView,
    clauses: Seq<Clause>,
    from: int,
) -> (after: ContainerView)
    requires
        0 <= at,
        0 <= from < clauses.len(),
        at + clauses_tokens(clauses, from).len() < tokens.len(),
        tokens.subrange(at, at + clauses_tokens(clauses, from).len() + 1) == clauses_tokens(
            clauses,
            from,
        ).push(TokenView::Punct(',')),
    ensures
        args_from(tokens, at, attr, sofar, None) == args_from(
            tokens,
            at + clauses_tokens(clauses, from).len() + 1,
            attr,
            after,
            None,
        ),
    decreases clauses.len() - from,
{
    let all = clauses_tokens(clauses, from);
    let same = tokens.subrange(at, at + all.len() + 1);
    let own = clause_tokens(clauses[from]);
    let n = own.len() as int;
    assert(tokens.subrange(at, at + n) =~= own) by {
        assert(same.take(n) =~= own);
        assert(same.take(n) =~= tokens.subrange(at, at + n));
    }
    lemma_clause(tokens, at, clauses[from]);
    let next = sofar.with(arg_at(tokens, at)->Ok_0.arg, attr);
    assert(tokens[at + n] == same[n]);
    if from < clauses.len() - 1 {
        let rest = clauses_tokens(clauses, from + 1);
        assert(all == own + seq![TokenView::Punct(',')] + rest);
        assert(same[n] == TokenView::Punct(','));
        assert(tokens.subrange(at + n + 1, at + n + 1 + rest.len() + 1) =~= rest.push(
            TokenView::Punct(','),
        )) by {
            assert(same.skip(n + 1) =~= rest.push(TokenView::Punct(',')));
            assert(same.skip(n + 1) =~= tokens.subrange(at + n + 1, at + n + 1 + rest.len() + 1));
        }
        lemma_pass_clauses(tokens, at + n + 1, attr, next, clauses, from + 1)
    } else {
        assert(all == own);
        assert(same[n] == TokenView::Punct(','));
        next
    }
}

/// The first argument of a struct's attribute that is wrong is told, whatever follows it; and
/// behind
/// an argument there must be a comma, or nothing.
pub proof fn law_first_wrong_argument_is_told(
    tokens: Tokens,
    attr: int,
    sofar: ContainerView,
    clauses: Seq<Clause>,
)
    requires
        clauses.len() > 0,
        clauses_tokens(clauses, 0).len() + 1int < tokens.len(),
        tokens.take(clauses_tokens(clauses, 0).len() + 1int) == clauses_tokens(clauses, 0).push(
            TokenView::Punct(','),
        ),
    ensures
        ({
            let at = clauses_tokens(clauses, 0).len() + 1int;
            let read = arg_at(tokens, at);
            let all = args_from(tokens, 0, attr, sofar, None);
            let first = args_from(tokens, at, attr, sofar, None);
            &&& read is Err ==> all == Err::<ContainerView, MisfitView>(read->Err_0) && first
                == Err::<ContainerView, MisfitView>(read->Err_0)
            &&& read is Ok && read->Ok_0.next < tokens.len() && tokens[read->Ok_0.next]
                != TokenView::Punct(',') ==> all is Err && all->Err_0.at == read->Ok_0.next && first
                is Err && first->Err_0.at == read->Ok_0.next
        }),
{
    let n = clauses_tokens(clauses, 0).len() + 1int;
    assert(tokens.subrange(0, n) =~= tokens.take(n));
    let after = lemma_pass_clauses(tokens, 0, attr, sofar, clauses, 0);
}

/// Marks that are in order are passed.
proof fn lemma_pass_marks(
    tokens: Tokens,
    at: int,
    sofar: FieldAttrsView,
    marks: Seq<Mark>,
    from: int,
) -> (after: FieldAttrsView)
    requires
        0 <= at,
        0 <= from < marks.len(),
        at + marks_tokens(marks, from).len() < tokens.len(),
        tokens.subrange(at, at + marks_tokens(marks, from).len() + 1) == marks_tokens(
            marks,
            from,
        ).push(TokenView::Punct(',')),
    ensures
        metas_from(tokens, at, sofar) == metas_from(
            tokens,
            at + marks_tokens(marks, from).len() + 1,
            after,
        ),
    decreases marks.len() - from,
{
    let all = marks_tokens(marks, from);
    let same = tokens.subrange(at, at + all.len() + 1);
    let own = mark_tokens(marks[from]);
    let n = own.len() as int;
    assert(tokens.subrange(at, at + n) =~= own) by {
        assert(same.take(n) =~= own);
        assert(same.take(n) =~= tokens.subrange(at, at + n));
    }
    assert(tokens[at + n] == same[n]);
    if from < marks.len() - 1 {
        let rest = marks_tokens(marks, from + 1);
        assert(all == own + seq![TokenView::Punct(',')] + rest);
        assert(same[n] == TokenView::Punct(','));
        lemma_mark(tokens, at, marks[from], sofar);
        let next = with_meta(tokens, at, key_at(tokens, at)->Ok_0, sofar)->Ok_0.0;
        assert(tokens.subrange(at + n + 1, at + n + 1 + rest.len() + 1) =~= rest.push(
            TokenView::Punct(','),
        )) by {
            assert(same.skip(n + 1) =~= rest.push(TokenView::Punct(',')));
            assert(same.skip(n + 1) =~= tokens.subrange(at + n + 1, at + n + 1 + rest.len() + 1));
        }
        lemma_pass_marks(tokens, at + n + 1, next, marks, from + 1)
    } else {
        assert(all == own);
        assert(same[n] == TokenView::Punct(','));
        lemma_mark(tokens, at, marks[from], sofar);
        with_meta(tokens, at, key_at(tokens, at)->Ok_0, sofar)->Ok_0.0
    }
}

/// Whether and where an argument of a field's attribute is found wrong, as a path of words without
/// double colons: a token that is no word, or a word that is not known, is wrong itself; a new name
/// and a default need an equals sign behind their word; a new name is a string; and there must be a
/// default.
pub open spec fn wrong_mark_at(tokens: Tokens, at: int, found: int) -> bool {
    let end = tokens.len();
    let key = tokens[at]->Word_text;
    if !(tokens[at] is Word) || (key != "pk"@ && key != "skip"@ && key != "rename"@ && key
        != "skeleton"@) {
        found == at
    } else if key == "pk"@ || key == "skip"@ {
        false
    } else if at + 1 >= end || tokens[at + 1] != TokenView::Punct('=') {
        found == at + 1
    } else if key == "rename"@ {
        (at + 2 >= end || tokens[at + 2] !is Str) && found == at + 2
    } else {
        at + 2 >= end && found == end
    }
}

/// What is read of the argument of a field's attribute at a place, or what is wrong with it.
pub open spec fn mark_read(tokens: Tokens, at: int, sofar: FieldAttrsView) -> Result<
    (FieldAttrsView, int),
    MisfitView,
> {
    match key_at(tokens, at) {
        Err(misfit) => Err(misfit),
        Ok(key) => with_meta(tokens, at, key, sofar),
    }
}

/// The first argument of a field's attribute that is wrong is told, whatever follows it, where it
/// is
/// wrong; and behind an argument there must be a comma, or nothing.
pub proof fn law_first_wrong_mark_is_told(
    tokens: Tokens,
    sofar: FieldAttrsView,
    marks: Seq<Mark>,
    found: int,
)
    requires
        marks.len() > 0,
        marks_tokens(marks, 0).len() + 1int < tokens.len(),
        tokens.take(marks_tokens(marks, 0).len() + 1int) == marks_tokens(marks, 0).push(
            TokenView::Punct(','),
        ),
    ensures
        ({
            let at = marks_tokens(marks, 0).len() + 1int;
            let read = mark_read(tokens, at, sofar);
            let all = metas_from(tokens, 0, sofar);
            let first = metas_from(tokens, at, sofar);
            &&& read is Err ==> all is Err && all->Err_0.at == read->Err_0.at && first is Err
                && first->Err_0.at == read->Err_0.at
            &&& read is Ok && read->Ok_0.1 < tokens.len() && tokens[read->Ok_0.1]
                != TokenView::Punct(',') ==> all is Err && all->Err_0.at == read->Ok_0.1 && first
                is Err && first->Err_0.at == read->Ok_0.1
            &&& !colons(tokens, at) && !colons(tokens, at + 1) && wrong_mark_at(tokens, at, found)
                ==> read is Err && read->Err_0.at == found
        }),
{
    let n = marks_tokens(marks, 0).len() + 1int;
    assert(tokens.subrange(0, n) =~= tokens.take(n));
    let after = lemma_pass_marks(tokens, 0, sofar, marks, 0);
    reveal_strlit("pk");
    reveal_strlit("skip");
    reveal_strlit("rename");
    reveal_strlit("skeleton");
    assert("pk"@.len() == 2 && "skip"@.len() == 4 && "rename"@.len() == 6 && "skeleton"@.len()
        == 8);
    reveal_with_fuel(key_from, 2);
    if n + 2 <= tokens.len() {
        assert(n + 2 == tokens.len() ==> run_end(tokens, n + 2, 0) == tokens.len());
    }
}

/// Whether two colons stand at a place.
pub open spec fn colons(tokens: Tokens, at: int) -> bool {
    at + 1 < tokens.len() && tokens[at] == TokenView::Punct(':') && tokens[at + 1]
        == TokenView::Punct(':')
}

/// A default that is a single token, with a comma or nothing behind it, is refused where it stands
/// unless it is a string, an integer, a finite number, `true`, `false` or `now_rfc3339`.
pub proof fn law_wrong_defaults_are_found(tokens: Tokens, from: int)
    requires
        0 <= from < tokens.len(),
        from + 1 < tokens.len() ==> tokens[from + 1] == TokenView::Punct(','),
        tokens[from] !is Open,
        tokens[from] !is Close,
        tokens[from] != TokenView::Punct(','),
    ensures
        expression_end(tokens, from) == from + 1,
        ({
            let read = skeleton_at(tokens, from, from + 1);
            let word = tokens[from]->Word_text;
            &&& read is Ok <==> tokens[from] is Str || tokens[from] is Int || tokens[from] is Float
                || (tokens[from] is Word && (word == "true"@ || word == "false"@ || word
                == "now_rfc3339"@))
            &&& read is Err ==> read->Err_0.at == from
            &&& read is Err ==> read->Err_0.message == (match tokens[from] {
                TokenView::Word { text, keyword } =>
                    "unknown skeleton keyword; expected `now_rfc3339` or a literal"@,
                TokenView::Char(c) =>
                    "unsupported skeleton literal; use a string, integer, float, or bool"@,
                TokenView::Literal =>
                    "unsupported skeleton literal; use a string, integer, float, or bool"@,
                TokenView::Unfit(message) => message,
                _ =>
                    "skeleton must be a literal (string / integer / float / bool) or `now_rfc3339`"@,
            })
        }),
{
    reveal_with_fuel(run_end, 2);
    if tokens[from] is Word {
        assert(segments_end(tokens, from + 1) == from + 1);
    }
}

/// A default that begins with a literal is that literal, unless an operator, a bracket other than a
/// brace, or the word of a cast follows it: then it goes on to the next comma, and is refused where
/// it begins.
pub proof fn law_literals_end_defaults(tokens: Tokens, from: int)
    requires
        0 <= from,
        from + 1 < tokens.len(),
        is_literal(tokens[from]),
    ensures
        ({
            let next = tokens[from + 1];
            let goes_on = match next {
                TokenView::Punct(c) => "+-*/%^&|<>=!.?"@.contains(c),
                TokenView::Open(c) => c != '{',
                TokenView::Word { text, keyword } => text == "as"@,
                _ => false,
            };
            &&& !goes_on ==> expression_end(tokens, from) == from + 1
            &&& goes_on ==> {
                let to = expression_end(tokens, from);
                &&& to == run_end(tokens, from, 0)
                &&& to > from + 1 && skeleton_at(tokens, from, to) is Err
                &&& skeleton_at(tokens, from, to)->Err_0.at == from
            }
        }),
{
    reveal_strlit("+-*/%^&|<>=!.?");
    let operators = "+-*/%^&|<>=!.?"@;
    if let TokenView::Punct(c) = tokens[from + 1] {
        if operators.contains(c) {
            let i = choose|i: int| 0 <= i < operators.len() && operators[i] == c;
            assert(operators[i] == c);
        }
        if crate::derive::is_operator(c) {
            assert(operators[0] == '+' && operators[1] == '-' && operators[2] == '*');
            assert(operators[3] == '/' && operators[4] == '%' && operators[5] == '^');
            assert(operators[6] == '&' && operators[7] == '|' && operators[8] == '<');
            assert(operators[9] == '>' && operators[10] == '=' && operators[11] == '!');
            assert(operators[12] == '.' && operators[13] == '?');
            assert(operators.contains(c));
        }
    }
    reveal_with_fuel(run_end, 3);
    law_runs_end_at_commas(tokens, from, 0);
    if from + 2 <= tokens.len() {
        law_runs_end_at_commas(tokens, from + 2, 0);
        law_runs_end_at_commas(tokens, from + 2, 1);
    }
}

/// How a path is written: words with double colons between them.
pub open spec fn path_tokens(words: Seq<Seq<char>>, keywords: Seq<bool>, from: int) -> Tokens
    decreases words.len() - from,
{
    if from >= words.len() {
        Seq::empty()
    } else {
        seq![
            TokenView::Punct(':'),
            TokenView::Punct(':'),
            TokenView::Word { text: words[from], keyword: keywords[from] },
        ] + path_tokens(words, keywords, from + 1)
    }
}

proof fn lemma_segments(
    tokens: Tokens,
    at: int,
    words: Seq<Seq<char>>,
    keywords: Seq<bool>,
    from: int,
)
    requires
        0 <= at,
        0 <= from <= words.len(),
        at + path_tokens(words, keywords, from).len() <= tokens.len(),
        tokens.subrange(at, at + path_tokens(words, keywords, from).len() as int) == path_tokens(
            words,
            keywords,
            from,
        ),
        !colons(tokens, at + path_tokens(words, keywords, from).len() as int),
    ensures
        segments_end(tokens, at) == at + path_tokens(words, keywords, from).len(),
    decreases words.len() - from,
{
    let all = path_tokens(words, keywords, from);
    let same = tokens.subrange(at, at + all.len() as int);
    if from < words.len() {
        let rest = path_tokens(words, keywords, from + 1);
        assert(tokens[at] == same[0] && tokens[at + 1] == same[1] && tokens[at + 2] == same[2]);
        assert(tokens.subrange(at + 3, at + 3 + rest.len() as int) =~= rest) by {
            assert(same.skip(3) =~= rest);
            assert(same.skip(3) =~= tokens.subrange(at + 3, at + 3 + rest.len() as int));
        }
        lemma_segments(tokens, at + 3, words, keywords, from + 1);
    }
}

/// A path goes on as far as words follow it behind double colons.
pub proof fn law_paths_end(
    tokens: Tokens,
    from: int,
    words: Seq<Seq<char>>,
    keywords: Seq<bool>,
)
    requires
        0 <= from < tokens.len(),
        tokens[from] is Word,
        from + 1 + path_tokens(words, keywords, 0).len() <= tokens.len(),
        tokens.subrange(
            from + 1,
            from + 1 + path_tokens(words, keywords, 0).len() as int,
        ) == path_tokens(words, keywords, 0),
        !colons(tokens, from + 1 + path_tokens(words, keywords, 0).len() as int),
    ensures
        path_end(tokens, from) == from + 1 + path_tokens(words, keywords, 0).len(),
{
    lemma_segments(tokens, from + 1, words, keywords, 0);
}

/// How many more angle brackets open than close from one token up to another; the head of an arrow
/// closes none.
pub open spec fn angle_depth(tokens: Tokens, from: int, i: int) -> int
    decreases i - from,
{
    if i <= from {
        0
    } else {
        angle_depth(tokens, from, i - 1) + (if tokens[i - 1] == TokenView::Punct('<') {
            1int
        } else if closes_angle(tokens, i - 1) {
            -1
        } else {
            0
        })
    }
}

/// Whether an angle bracket closes at a place: one that is not the head of an arrow.
pub open spec fn closes_angle(tokens: Tokens, i: int) -> bool {
    tokens[i] == TokenView::Punct('>') && !(i > 0 && tokens[i - 1] == TokenView::Punct('-'))
}

proof fn lemma_angle_step(tokens: Tokens, from: int, i: int)
    requires
        0 <= from < i,
    ensures
        angle_depth(tokens, from, i) == (if tokens[from] == TokenView::Punct('<') {
            1int
        } else if closes_angle(tokens, from) {
            -1
        } else {
            0
        }) + angle_depth(tokens, from + 1, i),
    decreases i - from,
{
    if from + 1 < i {
        lemma_angle_step(tokens, from, i - 1);
    } else {
        assert(angle_depth(tokens, from, from) == 0);
    }
}

/// Type arguments end behind the first angle bracket that closes the first of them.
pub proof fn law_type_arguments_end(tokens: Tokens, from: int, depth: nat)
    requires
        0 <= from <= tokens.len(),
        depth >= 1,
    ensures
        ({
            let end = angles_end(tokens, from, depth);
            &&& from <= end <= tokens.len()
            &&& forall|i: int|
                from <= i < end ==> depth + #[trigger] angle_depth(tokens, from, i) > 0
            &&& depth + angle_depth(tokens, from, end) == 0 || end == tokens.len()
        }),
    decreases tokens.len() - from,
{
    let end = angles_end(tokens, from, depth);
    if from < tokens.len() {
        if closes_angle(tokens, from) && depth == 1 {
            assert(end == from + 1);
            assert(angle_depth(tokens, from, from) == 0);
            assert(angle_depth(tokens, from, from + 1) == -1);
        } else {
            let next = if tokens[from] == TokenView::Punct('<') {
                depth + 1int
            } else if closes_angle(tokens, from) {
                depth - 1
            } else {
                depth as int
            };
            law_type_arguments_end(tokens, from + 1, next as nat);
            lemma_angle_step(tokens, from, end);
            assert forall|i: int| from <= i < end implies depth + #[trigger] angle_depth(
                tokens,
                from,
                i,
            ) > 0 by {
                if i > from {
                    lemma_angle_step(tokens, from, i);
                    assert(next + angle_depth(tokens, from + 1, i) > 0);
                }
            }
        }
    }
}

/// Attributes of a field that are in order are passed.
#[verifier::rlimit(40)]
proof fn lemma_pass_field_attrs(
    attrs: Seq<(Seq<char>, FormView)>,
    lists: Seq<Option<Seq<Mark>>>,
    field: usize,
    k: int,
    i: int,
)
    requires
        0 <= k <= i <= attrs.len(),
        says_marks(attrs.take(i), lists),
    ensures
        field_attrs_from(attrs, field, k, said(all_of(lists.take(k)))) == field_attrs_from(
            attrs,
            field,
            i,
            said(all_of(lists)),
        ),
    decreases i - k,
{
    assert(lists.take(lists.len() as int) =~= lists);
    if k < i {
        let before = all_of(lists.take(k));
        assert(lists.take(k + 1).drop_last() =~= lists.take(k));
        assert(attrs.take(i)[k] == attrs[k]);
        lemma_pass_field_attrs(attrs, lists, field, k + 1, i);
        match lists[k] {
            Some(marks) => {
                let tokens = attrs[k].1->List_0;
                assert(lists_out(tokens, marks_tokens(marks, 0)));
                assert(tokens.skip(0) =~= tokens);
                assert(before + marks.take(0) =~= before);
                lemma_marks(tokens, 0, before, marks, 0);
            },
            None => {
                assert(attrs[k].0 != "crdt"@);
                assert(before + Seq::<Mark>::empty() =~= before);
            },
        }
    }
}

/// The first `crdt` attribute of a field that is wrong is told: as a whole if it has no arguments in
/// parentheses, and otherwise by the token at which its arguments are wrong.
pub proof fn law_wrong_field_attributes_are_told(
    attrs: Seq<(Seq<char>, FormView)>,
    lists: Seq<Option<Seq<Mark>>>,
    field: usize,
    i: int,
)
    requires
        0 <= i < attrs.len(),
        says_marks(attrs.take(i), lists),
        attrs[i].0 == "crdt"@,
    ensures
        ({
            let read = field_attrs_from(attrs, field, 0, plain());
            match attrs[i].1 {
                FormView::Bare => read == Err::<FieldAttrsView, DiagnosticView>(
                    DiagnosticView {
                        message: "expected attribute arguments in parentheses: #[crdt(...)]"@,
                        place: Place::FieldAttribute { field, attr: i as usize },
                    },
                ),
                FormView::NameValue => read == Err::<FieldAttrsView, DiagnosticView>(
                    DiagnosticView {
                        message: "expected parentheses: #[crdt(...)]"@,
                        place: Place::FieldAttribute { field, attr: i as usize },
                    },
                ),
                FormView::List(tokens) => {
                    let misfit = metas_from(tokens, 0, said(all_of(lists)));
                    misfit is Err ==> read == Err::<FieldAttrsView, DiagnosticView>(
                        DiagnosticView {
                            message: misfit->Err_0.message,
                            place: Place::FieldArgument {
                                field,
                                attr: i as usize,
                                token: misfit->Err_0.at as usize,
                            },
                        },
                    )
                },
            }
        }),
{
    assert(all_of(lists.take(0)) =~= Seq::empty());
    assert(said(Seq::empty()) == plain()) by {
        assert(!Seq::<Mark>::empty().contains(Mark::Pk));
        assert(!Seq::<Mark>::empty().contains(Mark::Skip));
    }
    lemma_pass_field_attrs(attrs, lists, field, 0, i);
}

/// Attributes of a struct that are in order are passed.
proof fn lemma_pass_struct_attrs(
    attrs: Seq<(Seq<char>, FormView)>,
    lists: Seq<Option<Seq<Clause>>>,
    k: int,
    i: int,
    sofar: ContainerView,
) -> (after: ContainerView)
    requires
        0 <= k <= i <= attrs.len(),
        says_clauses(attrs.take(i), lists),
        contains_said(sofar, all_of(lists.take(k))),
    ensures
        containers_from(attrs, k, sofar) == containers_from(attrs, i, after),
        contains_said(after, all_of(lists)),
    decreases i - k,
{
    assert(lists.take(lists.len() as int) =~= lists);
    if k < i {
        let before = all_of(lists.take(k));
        assert(lists.take(k + 1).drop_last() =~= lists.take(k));
        assert(attrs.take(i)[k] == attrs[k]);
        match lists[k] {
            Some(clauses) => {
                let tokens = attrs[k].1->List_0;
                assert(lists_out(tokens, clauses_tokens(clauses, 0)));
                assert(tokens.skip(0) =~= tokens);
                assert(before + clauses.take(0) =~= before);
                lemma_clauses(tokens, 0, k, before, clauses, 0, sofar);
                let next = args_from(tokens, 0, k, sofar, None)->Ok_0;
                lemma_pass_struct_attrs(attrs, lists, k + 1, i, next)
            },
            None => {
                assert(attrs[k].0 != "crdt"@ || attrs[k].1 !is List);
                assert(before + Seq::<Clause>::empty() =~= before);
                lemma_pass_struct_attrs(attrs, lists, k + 1, i, sofar)
            },
        }
    } else {
        sofar
    }
}

/// The first `crdt` attribute of a struct that is wrong is told by the token at which its arguments
/// are wrong, before its fields are looked at.
pub proof fn law_wrong_struct_attributes_are_told(
    input: DeclarationView,
    lists: Seq<Option<Seq<Clause>>>,
    i: int,
)
    requires
        !input.generic,
        0 <= i < input.attrs.len(),
        says_clauses(input.attrs.take(i), lists),
        input.attrs[i].0 == "crdt"@,
        input.attrs[i].1 is List,
        arg_at(input.attrs[i].1->List_0, 0) is Err,
        input.attrs[i].1->List_0.len() > 0,
    ensures
        ({
            let misfit = arg_at(input.attrs[i].1->List_0, 0)->Err_0;
            expanded(input) == Err::<PlanView, DiagnosticView>(
                DiagnosticView {
                    message: misfit.message,
                    place: Place::Argument { attr: i as usize, token: misfit.at as usize },
                },
            )
        }),
{
    let none = ContainerView { table: None, composite: None };
    assert(all_of(lists.take(0)) =~= Seq::empty());
    let after = lemma_pass_struct_attrs(input.attrs, lists, 0, i, none);
}

} // verus!
