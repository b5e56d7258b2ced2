//! Statements for the write path: discards, saves and relay sightings.
use vstd::prelude::*;
use crate::tables::{Tables, Op, Statement, ops_of, apply_op, apply_ops, lemma_apply_ops_push};

verus! {

/// One delete per id, in the order given.
pub open spec fn deletes(ids: Seq<Seq<char>>) -> Seq<Op> {
    ids.map_values(|id: Seq<char>| Op::DeleteEvent(id))
}

/// The views of a list of ids.
pub open spec fn ids_view(ids: Seq<String>) -> Seq<Seq<char>> {
    ids.map_values(|s: String| s@)
}

/// Deleting a list of ids removes exactly those keys and leaves the relay table alone.
pub proof fn lemma_deletes(t: Tables, ids: Seq<Seq<char>>)
    ensures
        apply_ops(t, deletes(ids)).events == t.events.remove_keys(ids.to_set()),
        apply_ops(t, deletes(ids)).seen == t.seen,
    decreases ids.len(),
{
    if ids.len() == 0 {
        assert(deletes(ids) =~= Seq::<Op>::empty());
        assert(t.events.remove_keys(ids.to_set()) =~= t.events);
    } else {
        let front = ids.drop_last();
        lemma_deletes(t, front);
        assert(deletes(ids).drop_last() =~= deletes(front));
        assert(ids.to_set() =~= front.to_set().insert(ids.last())) by {
            assert forall|x| ids.to_set().contains(x) <==> front.to_set().insert(ids.last()).contains(x) by {
                if ids.to_set().contains(x) {
                    let i = choose|i: int| 0 <= i < ids.len() && ids[i] == x;
                    if i < ids.len() - 1 {
                        assert(front[i] == x);
                    }
                }
                if front.to_set().contains(x) {
                    let i = choose|i: int| 0 <= i < front.len() && front[i] == x;
                    assert(ids[i] == x);
                }
                if x == ids.last() {
                    assert(ids[ids.len() - 1] == x);
                }
            }
        }
        assert(apply_ops(t, deletes(ids)).events =~= t.events.remove_keys(ids.to_set()));
    }
}

/// The delete statements for a set of ids that the index says must not be kept.
pub fn discard_statements(ids: &Vec<String>) -> (r: Vec<Statement>)
    ensures
        ops_of(r@) == deletes(ids_view(ids@)),
{
    let mut r: Vec<Statement> = Vec::new();
    let mut i: usize = 0;
    while i < ids.len()
        invariant
            i <= ids@.len(),
            ops_of(r@) == deletes(ids_view(ids@.take(i as int))),
        decreases ids@.len() - i,
    {
        let ghost before = r@;
        r.push(Statement::DeleteEvent { event_id: ids[i].clone() });
        assert(ops_of(r@) =~= ops_of(before).push(Op::DeleteEvent(ids@[i as int]@)));
        assert(ids@.take(i + 1) =~= ids@.take(i as int).push(ids@[i as int]));
        assert(deletes(ids_view(ids@.take(i + 1))) =~= deletes(ids_view(ids@.take(i as int))).push(Op::DeleteEvent(ids@[i as int]@)));
        i = i + 1;
    }
    assert(ids@.take(i as int) =~= ids@);
    r
}

/// The statements of one save: the discards first, then the insert if the index
/// decided to store the event.
pub open spec fn save_ops(to_store: bool, ids: Seq<Seq<char>>, id: Seq<char>, bytes: Seq<u8>) -> Seq<Op> {
    if to_store {
        deletes(ids).push(Op::InsertEvent(id, bytes))
    } else {
        deletes(ids)
    }
}

/// Whether a save creates the row of its event.
pub open spec fn save_reports(t: Tables, to_store: bool, ids: Seq<Seq<char>>, id: Seq<char>) -> bool {
    to_store && !apply_ops(t, deletes(ids)).events.contains_key(id)
}

/// The statements of a save, from the index's decision (`to_store`, `to_discard`)
/// and the event's hex id and encoded bytes.
pub fn save_statements(to_store: bool, to_discard: &Vec<String>, event_id: &String, event: Vec<u8>) -> (r: Vec<Statement>)
    ensures
        ops_of(r@) == save_ops(to_store, ids_view(to_discard@), event_id@, event@),
{
    let mut r = discard_statements(to_discard);
    if to_store {
        let ghost before = r@;
        r.push(Statement::InsertEvent { event_id: event_id.clone(), event });
        assert(ops_of(r@) =~= ops_of(before).push(r@.last()@));
    }
    r
}

/// What a save reports: whether the row was newly created, from the index's
/// decision and the number of rows that the insert changed.
pub fn save_outcome(to_store: bool, rows_inserted: usize) -> (r: bool)
    ensures
        r == (to_store && rows_inserted > 0),
{
    to_store && rows_inserted > 0
}

/// Saving an event that is not stored yet reports a new row; saving it again
/// reports none, and afterwards exactly one row holds its id, with its bytes.
pub proof fn lemma_save_idempotent(
    t: Tables,
    first_discard: Seq<Seq<char>>,
    second_discard: Seq<Seq<char>>,
    id: Seq<char>,
    bytes: Seq<u8>,
)
    requires
        !t.events.contains_key(id),
        !second_discard.contains(id),
    ensures
        save_reports(t, true, first_discard, id),
        ({
            let t1 = apply_ops(t, save_ops(true, first_discard, id, bytes));
            let t2 = apply_ops(t1, save_ops(true, second_discard, id, bytes));
            &&& !save_reports(t1, true, second_discard, id)
            &&& t2.events.contains_key(id)
            &&& t2.events[id] == bytes
            &&& t2.events.dom().filter(|k: Seq<char>| k == id) == set![id]
        }),
{
    lemma_deletes(t, first_discard);
    let d1 = apply_ops(t, deletes(first_discard));
    assert(!d1.events.contains_key(id));
    lemma_apply_ops_push(t, deletes(first_discard), Op::InsertEvent(id, bytes));
    let t1 = apply_ops(t, save_ops(true, first_discard, id, bytes));
    assert(t1.events.contains_key(id) && t1.events[id] == bytes);
    lemma_deletes(t1, second_discard);
    let d2 = apply_ops(t1, deletes(second_discard));
    assert(!second_discard.to_set().contains(id));
    assert(d2.events.contains_key(id) && d2.events[id] == bytes);
    lemma_apply_ops_push(t1, deletes(second_discard), Op::InsertEvent(id, bytes));
    let t2 = apply_ops(t1, save_ops(true, second_discard, id, bytes));
    assert(t2 == d2);
    assert(t2.events.dom().filter(|k: Seq<char>| k == id) =~= set![id]);
}

/// The statement that records that an event was seen on a relay.
pub fn seen_statement(event_id: &String, relay_url: &String) -> (r: Statement)
    ensures
        r@ == Op::InsertSeen(event_id@, relay_url@),
{
    Statement::InsertSeen { event_id: event_id.clone(), relay_url: relay_url.clone() }
}

/// Recording the same sighting twice is recording it once: one association
/// row holds the pair, and nothing else changes.
pub proof fn lemma_seen_idempotent(t: Tables, id: Seq<char>, relay: Seq<char>)
    ensures
        ({
            let t1 = apply_op(t, Op::InsertSeen(id, relay));
            &&& apply_op(t1, Op::InsertSeen(id, relay)) == t1
            &&& t1.events == t.events
            &&& t1.seen.filter(|p: (Seq<char>, Seq<char>)| p == (id, relay)) == set![(id, relay)]
        }),
{
    let t1 = apply_op(t, Op::InsertSeen(id, relay));
    assert(t1.seen.insert((id, relay)) =~= t1.seen);
    assert(t1.seen.filter(|p: (Seq<char>, Seq<char>)| p == (id, relay)) =~= set![(id, relay)]);
}

} // verus!
