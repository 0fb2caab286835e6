//! What comes of running an operation to its end.
use vstd::prelude::*;

use crate::database::Database;
use crate::database::Order;
use crate::database::converse;
use crate::flow::ReplyView;
use crate::flow::Script;
use crate::flow::Turn;
use crate::flow::run;

verus! {

/// The replies that a database gives in a conversation.
pub open spec fn transcript<T>(script: Script<T>, db: Database, order: Order) -> Seq<ReplyView>
    decreases script,
{
    match script {
        Script::Ask(statement, more) => {
            let (reply, after) = db.perform(statement, order);
            seq![reply] + transcript(more(reply), after, order)
        },
        _ => Seq::empty(),
    }
}

/// The database after its first `count` replies in a conversation.
pub open spec fn database_at<T>(
    script: Script<T>,
    db: Database,
    order: Order,
    count: int,
) -> Database
    decreases script,
{
    match script {
        Script::Ask(statement, more) => if count > 0 {
            let (reply, after) = db.perform(statement, order);
            database_at(more(reply), after, order, count - 1)
        } else {
            db
        },
        _ => db,
    }
}

/// Where a conversation that has come to its end stands.
pub open spec fn ended<T>(outcome: Option<T>) -> Turn<T> {
    match outcome {
        Some(value) => Turn::Done(value),
        None => Turn::Fault,
    }
}

/// An operation that is run on a database, each statement that it asks for in turn, comes to the
/// outcome and leaves the database that [`converse`] tells of.
pub proof fn law_running_converses<T>(script: Script<T>, db: Database, order: Order)
    ensures
        ({
            let replies = transcript(script, db, order);
            let (outcome, after) = converse(script, db, order);
            &&& run(script, replies) == (ended(outcome), Seq::<ReplyView>::empty())
            &&& database_at(script, db, order, replies.len() as int) == after
            &&& forall|k: int|
                #![trigger replies[k]]
                0 <= k < replies.len() ==> {
                    let asked = run(script, replies.take(k)).0;
                    &&& asked is Ask
                    &&& database_at(script, db, order, k).perform(asked->Ask_0, order) == (
                        replies[k],
                        database_at(script, db, order, k + 1),
                    )
                }
        }),
    decreases script,
{
    let replies = transcript(script, db, order);
    if let Script::Ask(statement, more) = script {
        let (reply, after) = db.perform(statement, order);
        law_running_converses(more(reply), after, order);
        let rest = transcript(more(reply), after, order);
        assert(replies.drop_first() =~= rest);
        assert(replies[0] == reply);
        assert forall|k: int|
            #![trigger replies[k]]
            0 <= k < replies.len() implies {
            let asked = run(script, replies.take(k)).0;
            &&& asked is Ask
            &&& database_at(script, db, order, k).perform(asked->Ask_0, order) == (
                replies[k],
                database_at(script, db, order, k + 1),
            )
        } by {
            if k > 0 {
                assert(replies[k] == rest[k - 1]);
                assert(replies.take(k).drop_first() =~= rest.take(k - 1));
                assert(replies.take(k)[0] == reply);
            } else {
                assert(replies.take(0) =~= Seq::empty());
                assert(database_at(more(reply), after, order, 0) == after) by {
                    match more(reply) {
                        Script::Ask(s, m) => {},
                        _ => {},
                    }
                }
            }
        }
    }
}

} // verus!
