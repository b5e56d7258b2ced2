//! An in-memory store that runs statements exactly as the model describes.
use vstd::prelude::*;
use crate::tables::{Tables, Op, Statement, rows_changed, ops_of, apply_op, apply_ops, empty_tables, inserts_row, lemma_apply_ops_push};
use crate::write::{deletes, ids_view, save_ops, save_reports, discard_statements, save_outcome, seen_statement};
use crate::maintain::{
    batch_view, inserts, saved_in, seen_in, import_statements, delete_statements, wipe_statements,
    tx_next, tx_result, TxStep, lemma_reconcile_converges, lemma_inserts_present,
};
use crate::read::{LookupError, fetch_result};
use crate::read::strings_view;

verus! {

/// The two tables held in memory: one entry per stored event id, and one per
/// distinct `(event_id, relay_url)` pair.
pub struct MemoryTables {
    events: Vec<(String, Vec<u8>)>,
    seen: Vec<(String, String)>,
    model: Ghost<Tables>,
}

impl View for MemoryTables {
    type V = Tables;

    closed spec fn view(&self) -> Tables {
        self.model@
    }
}

/// The event entries hold exactly the map's pairs, one entry per key.
pub closed spec fn events_agree(ev: Seq<(String, Vec<u8>)>, m: Map<Seq<char>, Seq<u8>>) -> bool {
    &&& m.dom().finite()
    &&& forall|i: int|
        0 <= i < ev.len() ==> #[trigger] m.contains_key(ev[i].0@) && m[ev[i].0@] == ev[i].1@
    &&& forall|k: Seq<char>|
        #[trigger] m.contains_key(k) ==> exists|i: int| 0 <= i < ev.len() && ev[i].0@ == k
    &&& forall|i: int, j: int| 0 <= i < j < ev.len() ==> ev[i].0@ != ev[j].0@
}

/// The pair entries hold exactly the set's pairs.
pub closed spec fn seen_agrees(sn: Seq<(String, String)>, s: Set<(Seq<char>, Seq<char>)>) -> bool {
    &&& forall|i: int| 0 <= i < sn.len() ==> #[trigger] s.contains((sn[i].0@, sn[i].1@))
    &&& forall|p: (Seq<char>, Seq<char>)|
        #[trigger] s.contains(p) ==> exists|i: int| 0 <= i < sn.len() && (sn[i].0@, sn[i].1@) == p
}

/// An optional index as an optional natural number.
pub open spec fn opt_nat(o: Option<usize>) -> Option<nat> {
    match o {
        Some(k) => Some(k as nat),
        None => None,
    }
}

impl MemoryTables {
    /// The entries agree with the model: each entry is in it, each key of it
    /// has an entry, and no key has two.
    pub closed spec fn wf(&self) -> bool {
        &&& events_agree(self.events@, self.model@.events)
        &&& seen_agrees(self.seen@, self.model@.seen)
    }

    /// Empty tables, as a freshly created database has them.
    pub fn new() -> (r: MemoryTables)
        ensures
            r.wf(),
            r@ == empty_tables(),
    {
        MemoryTables { events: Vec::new(), seen: Vec::new(), model: Ghost(empty_tables()) }
    }

    /// The index of the entry of `id`, if there is one.
    fn find_event(&self, id: &String) -> (r: Option<usize>)
        requires
            self.wf(),
        ensures
            match r {
                Some(i) => i < self.events@.len() && self.events@[i as int].0@ == id@,
                None => !self@.events.contains_key(id@),
            },
    {
        let mut i: usize = 0;
        while i < self.events.len()
            invariant
                self.wf(),
                i <= self.events@.len(),
                forall|j: int| 0 <= j < i ==> self.events@[j].0@ != id@,
            decreases self.events@.len() - i,
        {
            if self.events[i].0 == *id {
                return Some(i);
            }
            i = i + 1;
        }
        None
    }

    /// Whether the pair is recorded.
    fn find_seen(&self, id: &String, relay: &String) -> (r: bool)
        requires
            self.wf(),
        ensures
            r == self@.seen.contains((id@, relay@)),
    {
        let mut i: usize = 0;
        while i < self.seen.len()
            invariant
                self.wf(),
                i <= self.seen@.len(),
                forall|j: int| 0 <= j < i ==> (self.seen@[j].0@, self.seen@[j].1@) != (id@, relay@),
            decreases self.seen@.len() - i,
        {
            if self.seen[i].0 == *id && self.seen[i].1 == *relay {
                assert(self@.seen.contains((self.seen@[i as int].0@, self.seen@[i as int].1@)));
                return true;
            }
            i = i + 1;
        }
        false
    }

    fn delete_event(&mut self, id: &String) -> (changed: usize)
        requires
            old(self).wf(),
        ensures
            final(self).wf(),
            final(self)@ == apply_op(old(self)@, Op::DeleteEvent(id@)),
            changed == (if old(self)@.events.contains_key(id@) { 1usize } else { 0usize }),
    {
        match self.find_event(id) {
            None => {
                proof {
                    assert(self@.events.remove(id@) =~= self@.events);
                }
                0
            },
            Some(i) => {
                let ghost old_ev = self.events@;
                let ghost m = self.model@;
                self.events.remove(i);
                self.model = Ghost(Tables { events: m.events.remove(id@), seen: m.seen });
                proof {
                    let ev = self.events@;
                    assert(self@.events.dom() =~= m.events.dom().remove(id@));
                    assert forall|j: int| 0 <= j < ev.len() implies #[trigger] self.model@.events.contains_key(ev[j].0@)
                        && self.model@.events[ev[j].0@] == ev[j].1@ by {
                        if j < i {
                            assert(ev[j] == old_ev[j]);
                            assert(old_ev[j].0@ != old_ev[i as int].0@);
                        } else {
                            assert(ev[j] == old_ev[j + 1]);
                            assert(old_ev[i as int].0@ != old_ev[j + 1].0@);
                        }
                    }
                    assert forall|k: Seq<char>| #[trigger] self.model@.events.contains_key(k) implies exists|j: int|
                        0 <= j < ev.len() && ev[j].0@ == k by {
                        assert(m.events.contains_key(k));
                        let j0 = choose|j: int| 0 <= j < old_ev.len() && old_ev[j].0@ == k;
                        if j0 < i {
                            assert(ev[j0] == old_ev[j0]);
                        } else {
                            assert(j0 != i);
                            assert(ev[j0 - 1] == old_ev[j0]);
                        }
                    }
                    assert forall|a: int, b: int| 0 <= a < b < ev.len() implies ev[a].0@ != ev[b].0@ by {
                        let oa = if a < i { a } else { a + 1 };
                        let ob = if b < i { b } else { b + 1 };
                        assert(ev[a] == old_ev[oa]);
                        assert(ev[b] == old_ev[ob]);
                    }
                }
                1
            },
        }
    }

    fn insert_event(&mut self, id: &String, bytes: &Vec<u8>) -> (changed: usize)
        requires
            old(self).wf(),
        ensures
            final(self).wf(),
            final(self)@ == apply_op(old(self)@, Op::InsertEvent(id@, bytes@)),
            changed == (if inserts_row(old(self)@, id@) { 1usize } else { 0usize }),
    {
        match self.find_event(id) {
            Some(i) => {
                assert(self@.events.contains_key(self.events@[i as int].0@));
                0
            },
            None => {
                let ghost old_ev = self.events@;
                let ghost m = self.model@;
                self.events.push((id.clone(), bytes.clone()));
                self.model = Ghost(Tables { events: m.events.insert(id@, bytes@), seen: m.seen });
                proof {
                    let ev = self.events@;
                    assert(self@.events.dom() =~= m.events.dom().insert(id@));
                    assert forall|j: int| 0 <= j < ev.len() implies #[trigger] self.model@.events.contains_key(ev[j].0@)
                        && self.model@.events[ev[j].0@] == ev[j].1@ by {
                        if j < old_ev.len() {
                            assert(ev[j] == old_ev[j]);
                            assert(m.events.contains_key(old_ev[j].0@));
                        }
                    }
                    assert forall|k: Seq<char>| #[trigger] self.model@.events.contains_key(k) implies exists|j: int|
                        0 <= j < ev.len() && ev[j].0@ == k by {
                        if k == id@ {
                            assert(ev[old_ev.len() as int].0@ == k);
                        } else {
                            assert(m.events.contains_key(k));
                            let j0 = choose|j: int| 0 <= j < old_ev.len() && old_ev[j].0@ == k;
                            assert(ev[j0] == old_ev[j0]);
                        }
                    }
                    assert forall|a: int, b: int| 0 <= a < b < ev.len() implies ev[a].0@ != ev[b].0@ by {
                        assert(ev[a] == old_ev[a]);
                        if b < old_ev.len() {
                            assert(ev[b] == old_ev[b]);
                        } else {
                            assert(m.events.contains_key(old_ev[a].0@));
                        }
                    }
                }
                1
            },
        }
    }

    fn insert_seen(&mut self, id: &String, relay: &String) -> (changed: usize)
        requires
            old(self).wf(),
        ensures
            final(self).wf(),
            final(self)@ == apply_op(old(self)@, Op::InsertSeen(id@, relay@)),
            changed == (if old(self)@.seen.contains((id@, relay@)) { 0usize } else { 1usize }),
    {
        if self.find_seen(id, relay) {
            proof {
                assert(self@.seen.insert((id@, relay@)) =~= self@.seen);
            }
            0
        } else {
            let ghost old_sn = self.seen@;
            let ghost m = self.model@;
            self.seen.push((id.clone(), relay.clone()));
            self.model = Ghost(Tables { events: m.events, seen: m.seen.insert((id@, relay@)) });
            proof {
                let sn = self.seen@;
                assert forall|j: int| 0 <= j < sn.len() implies #[trigger] self.model@.seen.contains((sn[j].0@, sn[j].1@)) by {
                    if j < old_sn.len() {
                        assert(sn[j] == old_sn[j]);
                        assert(m.seen.contains((old_sn[j].0@, old_sn[j].1@)));
                    }
                }
                assert forall|p: (Seq<char>, Seq<char>)| #[trigger] self.model@.seen.contains(p) implies exists|j: int|
                    0 <= j < sn.len() && (sn[j].0@, sn[j].1@) == p by {
                    if p == (id@, relay@) {
                        assert((sn[old_sn.len() as int].0@, sn[old_sn.len() as int].1@) == p);
                    } else {
                        assert(m.seen.contains(p));
                        let j0 = choose|j: int| 0 <= j < old_sn.len() && (old_sn[j].0@, old_sn[j].1@) == p;
                        assert(sn[j0] == old_sn[j0]);
                    }
                }
            }
            1
        }
    }

    /// Runs one statement and returns the number of rows it changed.
    pub fn run(&mut self, stmt: &Statement) -> (changed: usize)
        requires
            old(self).wf(),
        ensures
            final(self).wf(),
            final(self)@ == apply_op(old(self)@, stmt@),
            changed == rows_changed(old(self)@, stmt@),
    {
        match stmt {
            Statement::DeleteEvent { event_id } => self.delete_event(event_id),
            Statement::InsertEvent { event_id, event } => self.insert_event(event_id, event),
            Statement::DeleteAllEvents => {
                let n = self.event_count();
                let ghost m = self.model@;
                self.events = Vec::new();
                self.model = Ghost(Tables { events: Map::empty(), seen: m.seen });
                n
            },
            Statement::InsertSeen { event_id, relay_url } => self.insert_seen(event_id, relay_url),
            Statement::Reset => {
                *self = MemoryTables::new();
                0
            },
        }
    }

    /// The stored bytes of an event, if it has a row.
    pub fn event(&self, id: &String) -> (r: Option<Vec<u8>>)
        requires
            self.wf(),
        ensures
            match r {
                Some(bytes) => self@.events.contains_key(id@) && bytes@ == self@.events[id@],
                None => !self@.events.contains_key(id@),
            },
    {
        match self.find_event(id) {
            Some(i) => {
                let bytes = self.events[i].1.clone();
                assert(bytes@ =~= self.events@[i as int].1@);
                assert(self.model@.events.contains_key(self.events@[i as int].0@));
                Some(bytes)
            },
            None => None,
        }
    }

    /// The number of stored events.
    pub fn event_count(&self) -> (r: usize)
        requires
            self.wf(),
        ensures
            r == self@.events.len(),
    {
        proof {
            let keys = self.events@.map_values(|e: (String, Vec<u8>)| e.0@);
            assert(keys.no_duplicates());
            assert(keys.to_set() =~= self@.events.dom()) by {
                assert forall|k| keys.to_set().contains(k) implies self@.events.dom().contains(k) by {
                    let j = choose|j: int| 0 <= j < keys.len() && keys[j] == k;
                    assert(self@.events.contains_key(self.events@[j].0@));
                }
                assert forall|k| self@.events.dom().contains(k) implies keys.to_set().contains(k) by {
                    assert(self@.events.contains_key(k));
                    let j = choose|j: int| 0 <= j < self.events@.len() && self.events@[j].0@ == k;
                    assert(keys[j] == k);
                }
            }
            keys.unique_seq_to_set();
        }
        self.events.len()
    }

    /// The relay urls recorded for an event.
    pub fn relays(&self, id: &String) -> (r: Vec<String>)
        requires
            self.wf(),
        ensures
            forall|relay: Seq<char>|
                self@.seen.contains((id@, relay)) <==> strings_view(r@).contains(relay),
    {
        let mut r: Vec<String> = Vec::new();
        let mut i: usize = 0;
        while i < self.seen.len()
            invariant
                self.wf(),
                i <= self.seen@.len(),
                forall|relay: Seq<char>|
                    #[trigger] strings_view(r@).contains(relay) <==> exists|j: int|
                        0 <= j < i && self.seen@[j].0@ == id@ && self.seen@[j].1@ == relay,
            decreases self.seen@.len() - i,
        {
            let ghost before = r@;
            if self.seen[i].0 == *id {
                r.push(self.seen[i].1.clone());
            }
            proof {
                let a = strings_view(before);
                let b = strings_view(r@);
                let here = self.seen@[i as int];
                if here.0@ == id@ {
                    assert(b =~= a.push(here.1@));
                } else {
                    assert(b =~= a);
                }
                assert forall|relay: Seq<char>| #[trigger] b.contains(relay) implies exists|j: int|
                    0 <= j < i + 1 && self.seen@[j].0@ == id@ && self.seen@[j].1@ == relay by {
                    let x = choose|x: int| 0 <= x < b.len() && b[x] == relay;
                    if x < a.len() {
                        assert(a[x] == relay);
                        assert(a.contains(relay));
                        let j = choose|j: int| 0 <= j < i && self.seen@[j].0@ == id@ && self.seen@[j].1@ == relay;
                        assert(0 <= j < i + 1);
                    } else {
                        assert(here.0@ == id@ && here.1@ == relay);
                    }
                }
                assert forall|relay: Seq<char>| (exists|j: int|
                    0 <= j < i + 1 && self.seen@[j].0@ == id@ && self.seen@[j].1@ == relay) implies #[trigger] b.contains(relay) by {
                    let j = choose|j: int| 0 <= j < i + 1 && self.seen@[j].0@ == id@ && self.seen@[j].1@ == relay;
                    if j < i {
                        assert(a.contains(relay));
                        let x = choose|x: int| 0 <= x < a.len() && a[x] == relay;
                        assert(b[x] == relay);
                    } else {
                        assert(b[a.len() as int] == relay);
                    }
                }
            }
            i = i + 1;
        }
        proof {
            assert forall|relay: Seq<char>| self@.seen.contains((id@, relay)) implies strings_view(r@).contains(relay) by {
                let j = choose|j: int| 0 <= j < self.seen@.len() && (self.seen@[j].0@, self.seen@[j].1@) == (id@, relay);
                assert(self.seen@[j].0@ == id@ && self.seen@[j].1@ == relay);
            }
            assert forall|relay: Seq<char>| strings_view(r@).contains(relay) implies self@.seen.contains((id@, relay)) by {
                let j = choose|j: int| 0 <= j < self.seen@.len() && self.seen@[j].0@ == id@ && self.seen@[j].1@ == relay;
                assert(self@.seen.contains((self.seen@[j].0@, self.seen@[j].1@)));
            }
        }
        r
    }

    /// Runs statements in order.
    pub fn run_all(&mut self, stmts: &Vec<Statement>)
        requires
            old(self).wf(),
        ensures
            final(self).wf(),
            final(self)@ == apply_ops(old(self)@, ops_of(stmts@)),
    {
        let ghost start = self@;
        let mut i: usize = 0;
        while i < stmts.len()
            invariant
                self.wf(),
                i <= stmts@.len(),
                self@ == apply_ops(start, ops_of(stmts@.take(i as int))),
            decreases stmts@.len() - i,
        {
            self.run(&stmts[i]);
            proof {
                assert(ops_of(stmts@.take(i + 1)) =~= ops_of(stmts@.take(i as int)).push(stmts@[i as int]@));
                lemma_apply_ops_push(start, ops_of(stmts@.take(i as int)), stmts@[i as int]@);
            }
            i = i + 1;
        }
        assert(stmts@.take(i as int) =~= stmts@);
    }

    /// Saves an event as the index decided: the discards first, then the
    /// insert if `to_store`. Returns whether the event's row was newly created.
    pub fn save_event(&mut self, to_store: bool, to_discard: &Vec<String>, event_id: &String, event: Vec<u8>) -> (r: bool)
        requires
            old(self).wf(),
        ensures
            final(self).wf(),
            final(self)@ == apply_ops(old(self)@, save_ops(to_store, ids_view(to_discard@), event_id@, event@)),
            r == save_reports(old(self)@, to_store, ids_view(to_discard@), event_id@),
    {
        let ghost start = self@;
        let discards = discard_statements(to_discard);
        self.run_all(&discards);
        if to_store {
            let insert = Statement::InsertEvent { event_id: event_id.clone(), event };
            let changed = self.run(&insert);
            proof {
                lemma_apply_ops_push(start, ops_of(discards@), insert@);
            }
            save_outcome(true, changed)
        } else {
            save_outcome(false, 0)
        }
    }

    /// Stores the events that the index accepted from a batch.
    pub fn bulk_import(&mut self, accepted: Vec<(String, Vec<u8>)>)
        requires
            old(self).wf(),
        ensures
            final(self).wf(),
            final(self)@ == apply_ops(old(self)@, inserts(batch_view(accepted@))),
    {
        let stmts = import_statements(accepted);
        self.run_all(&stmts);
    }

    /// Deletes the ids that the index matched, or every event where it
    /// matched everything (`None`).
    pub fn delete(&mut self, matched: &Option<Vec<String>>)
        requires
            old(self).wf(),
        ensures
            final(self).wf(),
            final(self)@ == apply_ops(
                old(self)@,
                match matched {
                    Some(ids) => deletes(ids_view(ids@)),
                    None => seq![Op::DeleteAllEvents],
                },
            ),
    {
        let stmts = delete_statements(matched);
        self.run_all(&stmts);
    }

    /// Empties both tables.
    pub fn wipe(&mut self)
        requires
            old(self).wf(),
        ensures
            final(self).wf(),
            final(self)@ == apply_ops(old(self)@, seq![Op::Reset]),
            final(self)@ == empty_tables(),
    {
        let stmts = wipe_statements();
        self.run_all(&stmts);
        proof {
            lemma_apply_ops_push(old(self)@, Seq::empty(), Op::Reset);
            assert(Seq::<Op>::empty().push(Op::Reset) =~= seq![Op::Reset]);
        }
    }

    /// Records that an event was seen on a relay.
    pub fn event_id_seen(&mut self, event_id: &String, relay_url: &String)
        requires
            old(self).wf(),
        ensures
            final(self).wf(),
            final(self)@ == apply_op(old(self)@, Op::InsertSeen(event_id@, relay_url@)),
    {
        let stmt = seen_statement(event_id, relay_url);
        self.run(&stmt);
    }

    /// Whether the event counts as already saved, given whether the index
    /// reports its id deleted.
    pub fn has_event_already_been_saved(&self, deleted_in_index: bool, event_id: &String) -> (r: bool)
        requires
            self.wf(),
        ensures
            r == saved_in(self@, deleted_in_index, event_id@),
    {
        deleted_in_index || self.find_event(event_id).is_some()
    }

    /// Whether the event was seen on any relay.
    pub fn has_event_already_been_seen(&self, event_id: &String) -> (r: bool)
        requires
            self.wf(),
        ensures
            r == seen_in(self@, event_id@),
    {
        let relays = self.relays(event_id);
        proof {
            if seen_in(self@, event_id@) {
                let relay = choose|relay: Seq<char>| self@.seen.contains((event_id@, relay));
                assert(strings_view(relays@).contains(relay));
            }
            if relays@.len() > 0 {
                assert(strings_view(relays@)[0] == relays@[0]@);
                assert(strings_view(relays@).contains(relays@[0]@));
                assert(self@.seen.contains((event_id@, relays@[0]@)));
            }
        }
        relays.len() > 0
    }

    /// The stored bytes of an event, or `NotFound`.
    pub fn event_by_id(&self, event_id: &String) -> (r: Result<Vec<u8>, LookupError>)
        requires
            self.wf(),
        ensures
            match r {
                Ok(bytes) => self@.events.contains_key(event_id@) && bytes@ == self@.events[event_id@],
                Err(e) => e == LookupError::NotFound && !self@.events.contains_key(event_id@),
            },
    {
        fetch_result(self.event(event_id))
    }

    /// Startup reconciliation: removes every id that the index reported as
    /// not to be kept, and nothing else.
    pub fn reconcile(&mut self, to_discard: &Vec<String>)
        requires
            old(self).wf(),
        ensures
            final(self).wf(),
            final(self)@ == apply_ops(old(self)@, deletes(ids_view(to_discard@))),
            forall|id: Seq<char>|
                ids_view(to_discard@).contains(id) ==> !final(self)@.events.contains_key(id),
            forall|id: Seq<char>|
                old(self)@.events.contains_key(id) && !ids_view(to_discard@).contains(id)
                    ==> final(self)@.events.contains_key(id) && final(self)@.events[id]
                    == old(self)@.events[id],
            final(self)@.seen == old(self)@.seen,
    {
        let stmts = discard_statements(to_discard);
        self.run_all(&stmts);
        proof {
            lemma_reconcile_converges(old(self)@, ids_view(to_discard@));
            crate::write::lemma_deletes(old(self)@, ids_view(to_discard@));
        }
    }

    /// Imports a batch inside a transaction whose writes are staged and only
    /// applied at commit. `fail_at` names a statement that fails (as a storage
    /// error would); the transaction then rolls back, leaves the tables as
    /// they were, and reports how many statements had run.
    pub fn import_transaction(&mut self, accepted: Vec<(String, Vec<u8>)>, fail_at: Option<usize>) -> (r: Result<(), usize>)
        requires
            old(self).wf(),
        ensures
            final(self).wf(),
            final(self)@ == tx_result(old(self)@, inserts(batch_view(accepted@)), opt_nat(fail_at)),
            r is Ok <==> !(fail_at is Some && fail_at->0 < accepted@.len()),
            r is Err ==> r->Err_0 == fail_at->0,
            r is Err ==> final(self)@ == old(self)@,
            r is Ok ==> forall|i: int|
                0 <= i < accepted@.len() ==> final(self)@.events.contains_key(#[trigger] accepted@[i].0@),
    {
        let ghost batch = batch_view(accepted@);
        let stmts = import_statements(accepted);
        assert(ops_of(stmts@).len() == stmts@.len());
        assert(batch.len() == stmts@.len());
        let mut done: usize = 0;
        let mut failed = false;
        loop
            invariant
                self.wf(),
                self@ == old(self)@,
                batch == batch_view(accepted@),
                inserts(batch).len() == batch.len(),
                ops_of(stmts@) == inserts(batch),
                batch.len() == stmts@.len(),
                done <= stmts@.len(),
                !failed ==> forall|k: usize| fail_at == Some(k) ==> k >= done,
                failed ==> fail_at == Some(done) && done < stmts@.len(),
            decreases stmts@.len() - done + (if failed { 0int } else { 1int }),
        {
            match tx_next(done, stmts.len(), failed) {
                TxStep::Run(i) => {
                    if fail_at == Some(i) {
                        failed = true;
                    } else {
                        done = done + 1;
                    }
                },
                TxStep::Commit => {
                    self.run_all(&stmts);
                    proof {
                        lemma_inserts_present(old(self)@, batch);
                        assert forall|i: int| 0 <= i < accepted@.len() implies self@.events.contains_key(
                            #[trigger] accepted@[i].0@) by {
                            assert(batch[i].0 == accepted@[i].0@);
                        }
                    }
                    return Ok(());
                },
                TxStep::Rollback => {
                    return Err(done);
                },
            }
        }
    }
}

} // verus!
