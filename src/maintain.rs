//! Statements for startup reconciliation, deletion, wipe and batch import.
use vstd::prelude::*;
use crate::tables::{Tables, Op, Statement, ops_of, apply_ops, empty_tables, lemma_apply_ops_push};
use crate::write::{deletes, ids_view, lemma_deletes, discard_statements};

verus! {

/// After reconciliation every id that the index called discardable is gone,
/// and every other stored id is still there with its bytes.
pub proof fn lemma_reconcile_converges(t: Tables, discard: Seq<Seq<char>>)
    ensures
        ({
            let r = apply_ops(t, deletes(discard));
            &&& forall|id: Seq<char>| discard.contains(id) ==> !r.events.contains_key(id)
            &&& forall|id: Seq<char>|
                t.events.contains_key(id) && !discard.contains(id) ==> r.events.contains_key(id)
                    && r.events[id] == t.events[id]
            &&& forall|id: Seq<char>| r.events.contains_key(id) ==> t.events.contains_key(id)
        }),
{
    lemma_deletes(t, discard);
    assert forall|id: Seq<char>| discard.contains(id) implies discard.to_set().contains(id) by {}
    assert forall|id: Seq<char>| !discard.contains(id) implies !discard.to_set().contains(id) by {}
}

/// The statements of a delete: the ids that the index matched, or, where the
/// index asks for everything (`None`), one statement that clears the table.
pub fn delete_statements(matched: &Option<Vec<String>>) -> (r: Vec<Statement>)
    ensures
        match matched {
            Some(ids) => ops_of(r@) == deletes(ids_view(ids@)),
            None => ops_of(r@) == seq![Op::DeleteAllEvents],
        },
{
    match matched {
        Some(ids) => discard_statements(ids),
        None => {
            let r = vec![Statement::DeleteAllEvents];
            assert(ops_of(r@) =~= seq![Op::DeleteAllEvents]);
            r
        },
    }
}

/// A delete that matched nothing changes nothing; a delete of everything
/// empties the events table. The relay table is kept either way.
pub proof fn lemma_delete_cases(t: Tables)
    ensures
        apply_ops(t, deletes(Seq::empty())) == t,
        apply_ops(t, seq![Op::DeleteAllEvents]).events == Map::<Seq<char>, Seq<u8>>::empty(),
        apply_ops(t, seq![Op::DeleteAllEvents]).events.len() == 0,
        apply_ops(t, seq![Op::DeleteAllEvents]).seen == t.seen,
{
    assert(deletes(Seq::empty()) =~= Seq::<Op>::empty());
    lemma_apply_ops_push(t, Seq::empty(), Op::DeleteAllEvents);
    assert(Seq::<Op>::empty().push(Op::DeleteAllEvents) =~= seq![Op::DeleteAllEvents]);
    assert(apply_ops(t, Seq::<Op>::empty()) == t);
}

/// The statements of a wipe: a physical reset that also brings back the
/// baseline schema.
pub fn wipe_statements() -> (r: Vec<Statement>)
    ensures
        ops_of(r@) == seq![Op::Reset],
{
    let r = vec![Statement::Reset];
    assert(ops_of(r@) =~= seq![Op::Reset]);
    r
}

/// Whether an id counts as already saved: the index reports it deleted, or a
/// row holds it.
pub open spec fn saved_in(t: Tables, deleted_in_index: bool, id: Seq<char>) -> bool {
    deleted_in_index || t.events.contains_key(id)
}

/// Whether an id was seen on some relay.
pub open spec fn seen_in(t: Tables, id: Seq<char>) -> bool {
    exists|relay: Seq<char>| t.seen.contains((id, relay))
}

/// After a wipe (with the index cleared, so it reports nothing deleted) both
/// tables are empty, and no id counts as saved or seen.
pub proof fn lemma_wipe_resets(t: Tables, id: Seq<char>)
    ensures
        ({
            let w = apply_ops(t, seq![Op::Reset]);
            &&& w == empty_tables()
            &&& w.events.len() == 0
            &&& !saved_in(w, false, id)
            &&& !seen_in(w, id)
        }),
{
    lemma_apply_ops_push(t, Seq::empty(), Op::Reset);
    assert(Seq::<Op>::empty().push(Op::Reset) =~= seq![Op::Reset]);
}

/// One insert per accepted event, in the order given.
pub open spec fn inserts(batch: Seq<(Seq<char>, Seq<u8>)>) -> Seq<Op> {
    batch.map_values(|e: (Seq<char>, Seq<u8>)| Op::InsertEvent(e.0, e.1))
}

/// The views of a batch of (hex id, encoded bytes) pairs.
pub open spec fn batch_view(batch: Seq<(String, Vec<u8>)>) -> Seq<(Seq<char>, Seq<u8>)> {
    batch.map_values(|e: (String, Vec<u8>)| (e.0@, e.1@))
}

/// The insert statements of a batch import, to run inside one transaction.
pub fn import_statements(accepted: Vec<(String, Vec<u8>)>) -> (r: Vec<Statement>)
    ensures
        ops_of(r@) == inserts(batch_view(accepted@)),
{
    let ghost all = accepted@;
    let mut rest = accepted;
    let mut r: Vec<Statement> = Vec::new();
    while rest.len() > 0
        invariant
            all.len() == r@.len() + rest@.len(),
            rest@ == all.skip(r@.len() as int),
            ops_of(r@) == inserts(batch_view(all.take(r@.len() as int))),
        decreases rest@.len(),
    {
        let ghost k = r@.len() as int;
        let (event_id, event) = rest.remove(0);
        assert(all[k] == (event_id, event)) by {
            assert(all.skip(k)[0] == all[k]);
        }
        let ghost before = r@;
        let ghost op = Op::InsertEvent(event_id@, event@);
        r.push(Statement::InsertEvent { event_id, event });
        assert(ops_of(r@) =~= ops_of(before).push(op));
        assert(all.take(k + 1) =~= all.take(k).push(all[k]));
        assert(inserts(batch_view(all.take(k + 1))) =~= inserts(batch_view(all.take(k))).push(op));
        assert(rest@ =~= all.skip(r@.len() as int));
    }
    assert(all.take(r@.len() as int) =~= all);
    r
}

/// The next step of a batch transaction that has run `done` of `total`
/// statements.
#[derive(Debug, Clone, Copy, PartialEq, Eq, Structural)]
pub enum TxStep {
    /// Run the statement at this index.
    Run(usize),
    /// Every statement succeeded: make them durable.
    Commit,
    /// A statement failed: undo everything the transaction did.
    Rollback,
}

/// Decides the next step of a batch transaction: roll back at the first
/// failure, run the statements in order, and commit once all have run.
pub fn tx_next(done: usize, total: usize, failed: bool) -> (r: TxStep)
    ensures
        failed ==> r == TxStep::Rollback,
        !failed && done < total ==> r == TxStep::Run(done),
        !failed && done >= total ==> r == TxStep::Commit,
{
    if failed {
        TxStep::Rollback
    } else if done < total {
        TxStep::Run(done)
    } else {
        TxStep::Commit
    }
}

/// The tables after a transaction over `ops` driven by `tx_next`, where
/// `failed_at` names the statement that failed, if one did. A rolled back
/// transaction leaves the tables as they were.
pub open spec fn tx_result(t: Tables, ops: Seq<Op>, failed_at: Option<nat>) -> Tables {
    match failed_at {
        Some(k) => if k < ops.len() {
            t
        } else {
            apply_ops(t, ops)
        },
        None => apply_ops(t, ops),
    }
}

/// Inserts keep every row that was there and add a row for each id inserted.
pub proof fn lemma_inserts_present(t: Tables, batch: Seq<(Seq<char>, Seq<u8>)>)
    ensures
        forall|id: Seq<char>|
            t.events.contains_key(id) ==> apply_ops(t, inserts(batch)).events.contains_key(id),
        forall|i: int|
            0 <= i < batch.len() ==> apply_ops(t, inserts(batch)).events.contains_key(batch[i].0),
    decreases batch.len(),
{
    if batch.len() > 0 {
        let front = batch.drop_last();
        lemma_inserts_present(t, front);
        assert(inserts(batch) =~= inserts(front).push(Op::InsertEvent(batch.last().0, batch.last().1)));
        lemma_apply_ops_push(t, inserts(front), Op::InsertEvent(batch.last().0, batch.last().1));
        assert forall|i: int| 0 <= i < batch.len() implies apply_ops(t, inserts(batch)).events.contains_key(batch[i].0) by {
            if i < batch.len() - 1 {
                assert(front[i] == batch[i]);
            }
        }
    }
}

/// A batch import leaves either none of the batch's changes or all of them:
/// on a failure the tables are as before, and otherwise every event of the
/// batch has its row.
pub proof fn lemma_import_all_or_nothing(
    t: Tables,
    batch: Seq<(Seq<char>, Seq<u8>)>,
    failed_at: Option<nat>,
)
    ensures
        ({
            let r = tx_result(t, inserts(batch), failed_at);
            ||| r == t
            ||| forall|i: int| 0 <= i < batch.len() ==> r.events.contains_key(batch[i].0)
        }),
        failed_at is None ==> forall|i: int|
            0 <= i < batch.len() ==> tx_result(t, inserts(batch), failed_at).events.contains_key(
                batch[i].0,
            ),
{
    lemma_inserts_present(t, batch);
}

} // verus!
