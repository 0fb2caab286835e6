# recrr

A relational CRDT for SQLite-family databases: per-column last-write-wins sync with causal-length
tracking of deletes and resurrections, written and verified in Verus.

The library never touches a database itself. An operation reads the replies that it has received so
far from a `Journal` and either comes to its end or names the one statement that it needs next; the
caller runs that statement, adds the reply and calls the operation again. What an operation does is
stated as a `Script`, the tree of all conversations that it may have, and proved of the code for
every reply. The laws of the library are proved of these scripts over a model of the database:

- Of a sound replica, one whose clock tables and rows are as the operations leave them, merging does
  not depend on the order in which changes arrive, nor on how often: the rows come out the same, in
  all their columns, and what was applied before applies nothing again. A row's causal length decides first; within one
  life, per column, the version, then the value as a column stores it, then the site.
- Two sound replicas that tell each other all their changes come to hold the same rows. So do
  replicas that were set up with empty tables and have lived through any tracked writes, added
  columns and merges, once none of them learns anything from another. Where inserts track all
  columns, they then agree on all of them.
- What tracking, reading changes, adopting, auditing and migrating do and leave alone is stated for
  each; the conditions, such as that counters stay within what a database can hold, stand with the
  laws.

The model is one of a database that runs its statements and reports failures; what a real one does
beyond that is not proved.

## Layout

- `src/` is the verified library.
  - `value`, `json`, `text`: values, their JSON form, texts.
  - `schema`, `derive`: descriptions of tables, and how struct attributes give them.
  - `statement`, `flow`: the statements with their SQL, and conversations with a database.
  - `clock_tables`, `state`, `helpers`, `tracking`, `merge`, `migrate`, `audit`: the operations.
  - `database`: the model of the database; `laws`: what holds of the library as a whole.
  - `backends`: connections of rusqlite and turso.
- `app/` is the async face: the `Db` trait and its implementations, the handles that run operations
  to their end, the serde wire format, and the code that `#[derive(Crdt)]` generates. The macro's
  entry point, which only a crate of the kind `proc-macro` can hold, hands its input to
  `derive_crdt`.
- `tests/` runs the library on in-memory SQLite.

## Use

```rust
let crr = Crr::new(SqliteDb::in_memory()?, schema);
let mut journal = Journal::new();
let outcome = loop {
    match crr.track_insert(&mut journal, "papers", "p1", &["title"]) {
        Ok(outcome) => break outcome,
        Err(Halt::Ask(statement)) => journal.answer(run(crr.db(), &statement)),
        Err(Halt::Fault) => panic!("a counter is out of range"),
    }
};
```

`resume_merge` and `resume_export` do the same for many changes at a time without keeping the
replies of those that are done.
