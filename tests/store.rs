use nostr_sqlite::maintain::{delete_statements, import_statements, tx_next, wipe_statements, TxStep};
use nostr_sqlite::memory::MemoryTables;
use nostr_sqlite::read::{
    all_decoded, already_saved, distinct_relays, exists_flag, fetch_result, LookupError,
};
use nostr_sqlite::tables::Statement;
use nostr_sqlite::write::{discard_statements, save_outcome, save_statements, seen_statement};

fn id(n: u8) -> String {
    format!("{:064x}", n)
}

fn ids(ns: &[u8]) -> Vec<String> {
    ns.iter().map(|n| id(*n)).collect()
}

#[test]
fn scenario_save_seen_wipe() {
    let mut t = MemoryTables::new();
    let e1 = id(1);
    let bytes = vec![1u8, 2, 3];
    assert!(t.save_event(true, &vec![], &e1, bytes.clone()));
    assert!(!t.save_event(true, &vec![], &e1, bytes.clone()));
    assert_eq!(t.event_by_id(&e1), Ok(bytes.clone()));
    let relay = String::from("wss://relay.example");
    t.event_id_seen(&e1, &relay);
    assert_eq!(t.relays(&e1), vec![relay.clone()]);
    t.wipe();
    assert_eq!(t.event_by_id(&e1), Err(LookupError::NotFound));
}

#[test]
fn save_twice_keeps_one_row() {
    let mut t = MemoryTables::new();
    let e = id(7);
    assert!(t.save_event(true, &vec![], &e, vec![9]));
    assert!(!t.save_event(true, &vec![], &e, vec![10]));
    assert_eq!(t.event_count(), 1);
    assert_eq!(t.event(&e), Some(vec![9]));
}

#[test]
fn save_not_stored_reports_false() {
    let mut t = MemoryTables::new();
    assert!(!t.save_event(false, &vec![], &id(3), vec![1]));
    assert_eq!(t.event_count(), 0);
}

#[test]
fn save_applies_discards_first() {
    let mut t = MemoryTables::new();
    assert!(t.save_event(true, &vec![], &id(1), vec![1]));
    assert!(t.save_event(true, &ids(&[1]), &id(2), vec![2]));
    assert_eq!(t.event(&id(1)), None);
    assert_eq!(t.event(&id(2)), Some(vec![2]));
    assert_eq!(t.event_count(), 1);
}

#[test]
fn reconcile_removes_exactly_discarded() {
    let mut t = MemoryTables::new();
    for n in 1..=4u8 {
        assert!(t.save_event(true, &vec![], &id(n), vec![n]));
    }
    t.run_all(&discard_statements(&ids(&[2, 4, 9])));
    assert_eq!(t.event(&id(1)), Some(vec![1]));
    assert_eq!(t.event(&id(2)), None);
    assert_eq!(t.event(&id(3)), Some(vec![3]));
    assert_eq!(t.event(&id(4)), None);
    assert_eq!(t.event_count(), 2);
}

#[test]
fn bulk_import_stores_all() {
    let mut t = MemoryTables::new();
    t.bulk_import(vec![(id(1), vec![1]), (id(2), vec![2]), (id(1), vec![3])]);
    assert_eq!(t.event_count(), 2);
    assert_eq!(t.event(&id(1)), Some(vec![1]));
    assert_eq!(t.event(&id(2)), Some(vec![2]));
}

#[test]
fn import_statements_one_insert_each() {
    let stmts = import_statements(vec![(id(1), vec![1]), (id(2), vec![2])]);
    assert_eq!(stmts.len(), 2);
    match &stmts[1] {
        Statement::InsertEvent { event_id, event } => {
            assert_eq!(event_id, &id(2));
            assert_eq!(event, &vec![2]);
        }
        _ => panic!("expected an insert"),
    }
}

#[test]
fn transaction_steps() {
    assert_eq!(tx_next(0, 3, false), TxStep::Run(0));
    assert_eq!(tx_next(2, 3, false), TxStep::Run(2));
    assert_eq!(tx_next(3, 3, false), TxStep::Commit);
    assert_eq!(tx_next(1, 3, true), TxStep::Rollback);
    assert_eq!(tx_next(0, 0, false), TxStep::Commit);
}

#[test]
fn wipe_resets_everything() {
    let mut t = MemoryTables::new();
    assert!(t.save_event(true, &vec![], &id(5), vec![5]));
    t.event_id_seen(&id(5), &String::from("wss://a.example"));
    assert!(t.has_event_already_been_saved(false, &id(5)));
    assert!(t.has_event_already_been_seen(&id(5)));
    t.wipe();
    assert_eq!(t.event_count(), 0);
    assert!(!t.has_event_already_been_saved(false, &id(5)));
    assert!(!t.has_event_already_been_seen(&id(5)));
    assert!(matches!(wipe_statements().as_slice(), [Statement::Reset]));
}

#[test]
fn seen_twice_one_row() {
    let mut t = MemoryTables::new();
    let relay = String::from("wss://relay.example");
    t.event_id_seen(&id(1), &relay);
    t.event_id_seen(&id(1), &relay);
    assert_eq!(t.relays(&id(1)), vec![relay]);
    t.event_id_seen(&id(1), &String::from("wss://other.example"));
    assert_eq!(t.relays(&id(1)).len(), 2);
    assert_eq!(t.relays(&id(2)).len(), 0);
}

#[test]
fn delete_zero_match_and_all() {
    let mut t = MemoryTables::new();
    for n in 1..=3u8 {
        assert!(t.save_event(true, &vec![], &id(n), vec![n]));
    }
    t.delete(&Some(vec![]));
    assert_eq!(t.event_count(), 3);
    t.delete(&Some(ids(&[2])));
    assert_eq!(t.event_count(), 2);
    assert_eq!(t.event(&id(2)), None);
    t.delete(&None);
    assert_eq!(t.event_count(), 0);
    assert!(delete_statements(&Some(vec![])).is_empty());
    assert!(matches!(delete_statements(&None).as_slice(), [Statement::DeleteAllEvents]));
}

#[test]
fn delete_all_keeps_sightings() {
    let mut t = MemoryTables::new();
    assert!(t.save_event(true, &vec![], &id(1), vec![1]));
    t.event_id_seen(&id(1), &String::from("wss://a.example"));
    t.delete(&None);
    assert!(t.has_event_already_been_seen(&id(1)));
}

#[test]
fn saved_check_uses_index_deletion() {
    let t = MemoryTables::new();
    assert!(t.has_event_already_been_saved(true, &id(1)));
    assert!(!t.has_event_already_been_saved(false, &id(1)));
    assert!(already_saved(true, 0));
    assert!(already_saved(false, 1));
    assert!(!already_saved(false, 0));
    assert!(exists_flag(1));
    assert!(!exists_flag(0));
    assert!(!exists_flag(2));
}

#[test]
fn save_statement_shapes() {
    let stmts = save_statements(true, &ids(&[4, 5]), &id(6), vec![6]);
    assert_eq!(stmts.len(), 3);
    assert!(matches!(&stmts[0], Statement::DeleteEvent { event_id } if *event_id == id(4)));
    assert!(matches!(&stmts[1], Statement::DeleteEvent { event_id } if *event_id == id(5)));
    assert!(matches!(&stmts[2], Statement::InsertEvent { event_id, .. } if *event_id == id(6)));
    assert_eq!(save_statements(false, &ids(&[4]), &id(6), vec![6]).len(), 1);
    assert!(save_outcome(true, 1));
    assert!(!save_outcome(true, 0));
    assert!(!save_outcome(false, 1));
    let seen = seen_statement(&id(1), &String::from("wss://r.example"));
    assert!(matches!(seen, Statement::InsertSeen { relay_url, .. } if relay_url == "wss://r.example"));
}

#[test]
fn fetch_missing_is_not_found() {
    assert_eq!(fetch_result(None), Err(LookupError::NotFound));
    assert_eq!(fetch_result(Some(vec![1, 2])), Ok(vec![1, 2]));
}

#[test]
fn relays_deduplicated_in_order() {
    let rows = vec![
        String::from("wss://b.example"),
        String::from("wss://a.example"),
        String::from("wss://b.example"),
    ];
    assert_eq!(
        distinct_relays(&rows),
        vec![String::from("wss://b.example"), String::from("wss://a.example")]
    );
    assert!(distinct_relays(&vec![]).is_empty());
}

#[test]
fn decode_failure_aborts_load() {
    let ok: Vec<Result<u32, String>> = vec![Ok(1), Ok(2)];
    assert_eq!(all_decoded(ok), Ok(vec![1, 2]));
    let bad: Vec<Result<u32, String>> = vec![
        Ok(1),
        Err(String::from("first")),
        Err(String::from("second")),
    ];
    assert_eq!(all_decoded(bad), Err(String::from("first")));
    let empty: Vec<Result<u32, String>> = vec![];
    assert_eq!(all_decoded(empty), Ok(vec![]));
}

#[test]
fn reconcile_keeps_the_rest() {
    let mut t = MemoryTables::new();
    for n in 1..=3u8 {
        assert!(t.save_event(true, &vec![], &id(n), vec![n]));
    }
    t.event_id_seen(&id(2), &String::from("wss://a.example"));
    t.reconcile(&ids(&[2]));
    assert_eq!(t.event(&id(1)), Some(vec![1]));
    assert_eq!(t.event(&id(2)), None);
    assert_eq!(t.event(&id(3)), Some(vec![3]));
    assert!(t.has_event_already_been_seen(&id(2)));
}

#[test]
fn import_failure_leaves_nothing() {
    let mut t = MemoryTables::new();
    assert!(t.save_event(true, &vec![], &id(9), vec![9]));
    let batch = vec![(id(1), vec![1]), (id(2), vec![2]), (id(3), vec![3])];
    assert_eq!(t.import_transaction(batch.clone(), Some(1)), Err(1));
    assert_eq!(t.event_count(), 1);
    assert_eq!(t.event(&id(1)), None);
    assert_eq!(t.import_transaction(batch.clone(), Some(0)), Err(0));
    assert_eq!(t.event_count(), 1);
    assert_eq!(t.import_transaction(batch.clone(), Some(3)), Ok(()));
    assert_eq!(t.event_count(), 4);
}

#[test]
fn import_without_failure_stores_all() {
    let mut t = MemoryTables::new();
    let batch = vec![(id(1), vec![1]), (id(2), vec![2])];
    assert_eq!(t.import_transaction(batch, None), Ok(()));
    assert_eq!(t.event(&id(1)), Some(vec![1]));
    assert_eq!(t.event(&id(2)), Some(vec![2]));
}

#[test]
fn run_reports_changed_rows() {
    let mut t = MemoryTables::new();
    let insert = Statement::InsertEvent { event_id: id(1), event: vec![1] };
    assert_eq!(t.run(&insert), 1);
    assert_eq!(t.run(&insert), 0);
    assert_eq!(t.run(&Statement::InsertEvent { event_id: id(2), event: vec![2] }), 1);
    assert_eq!(t.run(&Statement::DeleteEvent { event_id: id(1) }), 1);
    assert_eq!(t.run(&Statement::DeleteEvent { event_id: id(1) }), 0);
    let seen = Statement::InsertSeen { event_id: id(2), relay_url: String::from("wss://a.example") };
    assert_eq!(t.run(&seen), 1);
    assert_eq!(t.run(&seen), 0);
    assert_eq!(t.run(&Statement::DeleteAllEvents), 1);
    assert_eq!(t.event_count(), 0);
    assert_eq!(t.run(&Statement::Reset), 0);
    assert!(!t.has_event_already_been_seen(&id(2)));
}
