//! The persisted tables as mathematical values, and the statements that change them.
use vstd::prelude::*;

verus! {

/// Contents of the two tables: `events` keyed by hex event id, and the
/// `(event_id, relay_url)` pairs of `event_seen_by_relays`.
pub struct Tables {
    pub events: Map<Seq<char>, Seq<u8>>,
    pub seen: Set<(Seq<char>, Seq<char>)>,
}

/// A freshly created (or freshly reset) database.
pub open spec fn empty_tables() -> Tables {
    Tables { events: Map::empty(), seen: Set::empty() }
}

/// What a statement does, over the model.
pub enum Op {
    DeleteEvent(Seq<char>),
    InsertEvent(Seq<char>, Seq<u8>),
    DeleteAllEvents,
    InsertSeen(Seq<char>, Seq<char>),
    Reset,
}

/// A single storage statement, run by whoever holds the connection.
pub enum Statement {
    /// `DELETE FROM events WHERE event_id = ?`
    DeleteEvent { event_id: String },
    /// `INSERT OR IGNORE INTO events (event_id, event) VALUES (?, ?)`
    InsertEvent { event_id: String, event: Vec<u8> },
    /// `DELETE FROM events`
    DeleteAllEvents,
    /// `INSERT OR IGNORE INTO event_seen_by_relays (event_id, relay_url) VALUES (?, ?)`
    InsertSeen { event_id: String, relay_url: String },
    /// Physical reset of the database followed by the baseline schema.
    Reset,
}

impl View for Statement {
    type V = Op;

    open spec fn view(&self) -> Op {
        match self {
            Statement::DeleteEvent { event_id } => Op::DeleteEvent(event_id@),
            Statement::InsertEvent { event_id, event } => Op::InsertEvent(event_id@, event@),
            Statement::DeleteAllEvents => Op::DeleteAllEvents,
            Statement::InsertSeen { event_id, relay_url } => Op::InsertSeen(
                event_id@,
                relay_url@,
            ),
            Statement::Reset => Op::Reset,
        }
    }
}

/// The models of a sequence of statements.
pub open spec fn ops_of(s: Seq<Statement>) -> Seq<Op> {
    s.map_values(|x: Statement| x@)
}

/// The tables after one statement. Inserts never overwrite an existing key.
pub open spec fn apply_op(t: Tables, op: Op) -> Tables {
    match op {
        Op::DeleteEvent(id) => Tables { events: t.events.remove(id), seen: t.seen },
        Op::InsertEvent(id, bytes) => if t.events.contains_key(id) {
            t
        } else {
            Tables { events: t.events.insert(id, bytes), seen: t.seen }
        },
        Op::DeleteAllEvents => Tables { events: Map::empty(), seen: t.seen },
        Op::InsertSeen(id, relay) => Tables { events: t.events, seen: t.seen.insert((id, relay)) },
        Op::Reset => empty_tables(),
    }
}

/// The tables after a sequence of statements, run in order.
pub open spec fn apply_ops(t: Tables, ops: Seq<Op>) -> Tables
    decreases ops.len(),
{
    if ops.len() == 0 {
        t
    } else {
        apply_op(apply_ops(t, ops.drop_last()), ops.last())
    }
}

/// The number of rows that a statement changes, as the storage engine reports it.
pub open spec fn rows_changed(t: Tables, op: Op) -> nat {
    match op {
        Op::DeleteEvent(id) => if t.events.contains_key(id) { 1 } else { 0 },
        Op::InsertEvent(id, _) => if t.events.contains_key(id) { 0 } else { 1 },
        Op::DeleteAllEvents => t.events.len(),
        Op::InsertSeen(id, relay) => if t.seen.contains((id, relay)) { 0 } else { 1 },
        Op::Reset => 0,
    }
}

/// Whether an insert of `id` into `t` creates a row (and so reports one changed row).
pub open spec fn inserts_row(t: Tables, id: Seq<char>) -> bool {
    !t.events.contains_key(id)
}

/// Running a sequence of statements and then one more is running the longer sequence.
pub proof fn lemma_apply_ops_push(t: Tables, ops: Seq<Op>, op: Op)
    ensures
        apply_ops(t, ops.push(op)) == apply_op(apply_ops(t, ops), op),
{
    assert(ops.push(op).drop_last() =~= ops);
}

} // verus!
