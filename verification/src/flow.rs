//! Conversations with a database, as data.
//!
//! An operation of the library runs no statement itself. It reads the replies that it has
//! received so far from a [`Journal`] and either comes to its end or names the one statement that
//! it needs next. The caller runs that statement, puts the reply in the journal and calls the
//! operation again, until it comes to its end.
//!
//! What an operation does is stated as a [`Script`]: the tree of all the conversations that it may
//! have, one branch for each reply.
use vstd::prelude::*;

use crate::statement::Statement;
use crate::statement::StatementView;
use crate::value::Error;
use crate::value::ErrorView;
use crate::value::Row;
use crate::value::SqlValue;
use crate::value::rows_view;

verus! {

/// What a database answered to a statement.
#[derive(Clone, Debug)]
pub enum Reply {
    /// The statement went through and listed these rows, none where it is no query.
    Rows(Vec<Row>),
    /// The statement failed.
    Failed(Error),
}

/// What a [`Reply`] holds.
pub enum ReplyView {
    Rows(Seq<Seq<SqlValue>>),
    Failed(ErrorView),
}

impl View for Reply {
    type V = ReplyView;

    open spec fn view(&self) -> ReplyView {
        match *self {
            Reply::Rows(rows) => ReplyView::Rows(rows_view(rows@)),
            Reply::Failed(error) => ReplyView::Failed(error@),
        }
    }
}

/// What a list of replies holds.
pub open spec fn replies_view(replies: Seq<Reply>) -> Seq<ReplyView> {
    replies.map_values(|reply: Reply| reply@)
}

/// The conversations with a database that end in a `T`.
#[verifier::reject_recursive_types(T)]
pub enum Script<T> {
    /// The conversation is over.
    Done(T),
    /// A counter or a length would leave the numbers it is kept in.
    Fault,
    /// A statement to run, and what follows the reply to it.
    Ask(StatementView, spec_fn(ReplyView) -> Script<T>),
}

impl<T> Script<T> {
    /// This conversation, followed by the one that its outcome calls for.
    pub open spec fn bind<U>(self, next: spec_fn(T) -> Script<U>) -> Script<U>
        decreases self,
    {
        match self {
            Script::Done(value) => next(value),
            Script::Fault => Script::Fault,
            Script::Ask(statement, more) => Script::Ask(
                statement,
                |reply: ReplyView| more(reply).bind(next),
            ),
        }
    }
}

impl<T> Script<Result<T, ErrorView>> {
    /// This conversation, followed by another one unless it ended in an error.
    pub open spec fn and<U>(self, next: spec_fn(T) -> Script<Result<U, ErrorView>>) -> Script<
        Result<U, ErrorView>,
    > {
        self.bind(
            |outcome: Result<T, ErrorView>|
                match outcome {
                    Ok(value) => next(value),
                    Err(error) => Script::Done(Err(error)),
                },
        )
    }
}

/// The conversation that has come to its end with `value`.
pub open spec fn done<T>(value: T) -> Script<Result<T, ErrorView>> {
    Script::Done(Ok(value))
}

/// The conversation that has come to its end with `error`.
pub open spec fn failed<T>(error: ErrorView) -> Script<Result<T, ErrorView>> {
    Script::Done(Err(error))
}

/// The rows that a query lists.
pub type Rows = Seq<Seq<SqlValue>>;

/// A query, whose outcome are the rows that it lists.
pub open spec fn query(statement: StatementView) -> Script<Result<Rows, ErrorView>> {
    Script::Ask(
        statement,
        |reply: ReplyView|
            Script::Done(
                match reply {
                    ReplyView::Rows(rows) => Ok(rows),
                    ReplyView::Failed(error) => Err(error),
                },
            ),
    )
}

/// A statement that is no query.
pub open spec fn command(statement: StatementView) -> Script<Result<(), ErrorView>> {
    Script::Ask(
        statement,
        |reply: ReplyView|
            Script::Done(
                match reply {
                    ReplyView::Rows(rows) => Ok(()),
                    ReplyView::Failed(error) => Err(error),
                },
            ),
    )
}

/// Where a conversation stands once the replies have run out.
pub enum Turn<T> {
    Done(T),
    Fault,
    Ask(StatementView),
}

/// Where `script` stands after `replies`, and the replies that it left.
pub open spec fn run<T>(script: Script<T>, replies: Seq<ReplyView>) -> (Turn<T>, Seq<ReplyView>)
    decreases replies.len(),
{
    match script {
        Script::Done(value) => (Turn::Done(value), replies),
        Script::Fault => (Turn::Fault, replies),
        Script::Ask(statement, more) => if replies.len() == 0 {
            (Turn::Ask(statement), replies)
        } else {
            run(more(replies[0]), replies.drop_first())
        },
    }
}

/// A conversation in two parts stands where its second part does, on the replies that the first
/// part left, or where the first part stands if that is not over.
pub broadcast proof fn lemma_run_bind<T, U>(
    script: Script<T>,
    next: spec_fn(T) -> Script<U>,
    replies: Seq<ReplyView>,
)
    ensures
        #[trigger] run(script.bind(next), replies) == (match run(script, replies) {
            (Turn::Done(value), rest) => run(next(value), rest),
            (Turn::Fault, rest) => (Turn::Fault, rest),
            (Turn::Ask(statement), rest) => (Turn::Ask(statement), rest),
        }),
    decreases replies.len(),
{
    match script {
        Script::Done(value) => {},
        Script::Fault => {},
        Script::Ask(statement, more) => {
            if replies.len() > 0 {
                lemma_run_bind(more(replies[0]), next, replies.drop_first());
            }
        },
    }
}

/// A conversation that is over after some replies is over after more of them, which it leaves.
pub proof fn lemma_run_more<T>(script: Script<T>, replies: Seq<ReplyView>, more: Seq<ReplyView>)
    requires
        run(script, replies).0 is Done,
    ensures
        run(script, replies + more) == (run(script, replies).0, run(script, replies).1 + more),
    decreases replies.len(),
{
    if let Script::Ask(statement, next) = script {
        lemma_run_more(next(replies[0]), replies.drop_first(), more);
        assert((replies + more).drop_first() =~= replies.drop_first() + more);
    }
}

/// The conversation `script` after `replies` goes on as `later` does after `left`.
pub open spec fn continues<T>(
    script: Script<T>,
    replies: Seq<ReplyView>,
    later: Script<T>,
    left: Seq<ReplyView>,
) -> bool {
    forall|more: Seq<ReplyView>| #[trigger]
        run(script, replies + more) == run(later, left + more)
}

/// What goes on as one conversation, which goes on as another, goes on as that one.
pub proof fn lemma_continues_further<T>(
    first: Script<T>,
    replies: Seq<ReplyView>,
    second: Script<T>,
    left: Seq<ReplyView>,
    third: Script<T>,
    rest: Seq<ReplyView>,
)
    requires
        continues(first, replies, second, left),
        continues(second, left, third, rest),
    ensures
        continues(first, replies, third, rest),
{
    assert forall|more: Seq<ReplyView>| #[trigger]
        run(first, replies + more) == run(third, rest + more) by {
        assert(run(second, left + more) == run(third, rest + more));
    }
}

/// Two conversations of which one goes on as the other stand at the same point.
pub proof fn lemma_continues_here<T>(
    script: Script<T>,
    replies: Seq<ReplyView>,
    later: Script<T>,
    left: Seq<ReplyView>,
)
    requires
        continues(script, replies, later, left),
    ensures
        run(script, replies) == run(later, left),
{
    let none = Seq::<ReplyView>::empty();
    assert(run(script, replies + none) == run(later, left + none));
    assert(replies + none =~= replies);
    assert(left + none =~= left);
}

/// Why an operation has to stop where it is.
#[derive(Debug)]
pub enum Halt {
    /// The replies have run out: this statement comes next.
    Ask(Statement),
    /// A counter or a length would leave the numbers it is kept in.
    Fault,
}

/// What comes of an operation: its outcome, or the reason why it had to stop before.
pub type Step<T> = Result<Result<T, Error>, Halt>;

/// Where a conversation that had to stop stands.
pub open spec fn halted<T>(halt: Halt) -> Turn<T> {
    match halt {
        Halt::Ask(statement) => Turn::Ask(statement@),
        Halt::Fault => Turn::Fault,
    }
}

/// Where an operation that cannot fail stands.
pub open spec fn turn_of<T: View>(result: Result<T, Halt>) -> Turn<T::V> {
    match result {
        Ok(value) => Turn::Done(value@),
        Err(halt) => halted(halt),
    }
}

/// What the outcome of an operation holds.
pub open spec fn outcome_view<T: View>(outcome: Result<T, Error>) -> Result<T::V, ErrorView> {
    match outcome {
        Ok(value) => Ok(value@),
        Err(error) => Err(error@),
    }
}

/// Where an operation stands.
pub open spec fn step_of<T: View>(step: Step<T>) -> Turn<Result<T::V, ErrorView>> {
    match step {
        Ok(outcome) => Turn::Done(outcome_view(outcome)),
        Err(halt) => halted(halt),
    }
}

/// The replies that an operation has received so far, and how many of them it has read.
pub struct Journal {
    replies: Vec<Reply>,
    used: usize,
}

impl Journal {
    /// All replies.
    pub closed spec fn all(self) -> Seq<ReplyView> {
        replies_view(self.replies@)
    }

    /// The replies that have not been read.
    pub closed spec fn rest(self) -> Seq<ReplyView> {
        if self.used <= self.replies@.len() {
            self.all().skip(self.used as int)
        } else {
            Seq::empty()
        }
    }

    /// From `self` to `after`, `script` was followed as far as the replies go, up to `turn`.
    pub open spec fn follows<T>(self, after: Journal, script: Script<T>, turn: Turn<T>) -> bool {
        &&& run(script, self.rest()) == (turn, after.rest())
        &&& after.all() == self.all()
    }

    /// A journal without replies.
    pub fn new() -> (journal: Self)
        ensures
            journal.all().len() == 0,
            journal.rest().len() == 0,
    {
        Journal { replies: Vec::new(), used: 0 }
    }

    /// Adds the reply to the statement that was asked for, and starts over.
    pub fn answer(&mut self, reply: Reply)
        ensures
            final(self).all() == old(self).all().push(reply@),
            final(self).rest() == final(self).all(),
    {
        self.replies.push(reply);
        self.used = 0;
        assert(self.all() =~= old(self).all().push(reply@));
        assert(self.rest() =~= self.all());
    }

    /// Forgets the replies that have been read.
    pub fn forget(&mut self)
        ensures
            final(self).all() == old(self).rest(),
            final(self).rest() == old(self).rest(),
    {
        let mut left: Vec<Reply> = Vec::new();
        if self.used < self.replies.len() {
            left = self.replies.split_off(self.used);
        }
        self.replies = left;
        self.used = 0;
        assert(self.all() =~= old(self).rest());
        assert(self.rest() =~= self.all());
    }

    /// The next reply, or the statement that it has to answer.
    fn ask(&mut self, statement: Statement) -> (result: Result<&Reply, Halt>)
        ensures
            match result {
                Ok(reply) => {
                    &&& old(self).rest().len() > 0
                    &&& reply@ == old(self).rest()[0]
                    &&& final(self).rest() == old(self).rest().drop_first()
                },
                Err(halt) => {
                    &&& old(self).rest().len() == 0
                    &&& halt == Halt::Ask(statement)
                    &&& final(self).rest() == old(self).rest()
                },
            },
            final(self).all() == old(self).all(),
    {
        if self.used < self.replies.len() {
            let at: usize = self.used;
            self.used = at + 1;
            assert(self.rest() =~= old(self).rest().drop_first());
            Ok(&self.replies[at])
        } else {
            Err(Halt::Ask(statement))
        }
    }

    /// Runs a query.
    pub fn query(&mut self, statement: Statement) -> (step: Result<Result<&Vec<Row>, Error>, Halt>)
        ensures
            old(self).follows(
                *final(self),
                query(statement@),
                match step {
                    Ok(Ok(rows)) => Turn::Done(Ok(rows_view(rows@))),
                    Ok(Err(error)) => Turn::Done(Err(error@)),
                    Err(halt) => halted(halt),
                },
            ),
    {
        proof {
            reveal_with_fuel(run, 2);
        }
        match self.ask(statement)? {
            Reply::Rows(rows) => Ok(Ok(rows)),
            Reply::Failed(error) => Ok(Err(error.copy())),
        }
    }

    /// Runs a statement that is no query.
    pub fn command(&mut self, statement: Statement) -> (step: Step<()>)
        ensures
            old(self).follows(*final(self), command(statement@), step_of(step)),
    {
        proof {
            reveal_with_fuel(run, 2);
        }
        match self.ask(statement)? {
            Reply::Rows(rows) => Ok(Ok(())),
            Reply::Failed(error) => Ok(Err(error.copy())),
        }
    }
}

} // verus!
