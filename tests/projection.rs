use rooch_indexer::actor::IndexerActor;
use rooch_indexer::changeset::{ObjectId, Op, StateChange, StateChangeSet};
use rooch_indexer::projector::{project_events, project_transaction, EventData, ExecutionInfo, TxContext};
use rooch_indexer::query::LogRow;
use rooch_indexer::store::MemoryStore;

fn ctx(tx_order: u64, sender: &str) -> TxContext {
    TxContext {
        tx_order,
        tx_hash: format!("0xh{}", tx_order),
        sender: sender.to_string(),
        created_at: 1000 + tx_order,
    }
}

fn info() -> ExecutionInfo {
    ExecutionInfo { status: "executed".to_string(), gas_used: 42, state_root: "0xroot".to_string() }
}

fn events(types: &[&str]) -> Vec<EventData> {
    types.iter().map(|t| EventData { event_type: t.to_string(), data: t.as_bytes().to_vec() }).collect()
}

#[test]
fn transaction_projects_to_one_row() {
    let row = project_transaction(&ctx(7, "0xa"), &info(), &vec![1, 2, 3]);
    assert_eq!(row.tx_order, 7);
    assert_eq!(row.tx_hash, "0xh7");
    assert_eq!(row.sender, "0xa");
    assert_eq!(row.created_at, 1007);
    assert_eq!(row.status, "executed");
    assert_eq!(row.gas_used, 42);
    assert_eq!(row.state_root, "0xroot");
    assert_eq!(row.payload, vec![1, 2, 3]);
}

#[test]
fn events_carry_context_and_position() {
    let rows = project_events(&ctx(3, "0xb"), &events(&["A", "B", "A"]));
    assert_eq!(rows.len(), 3);
    for (i, r) in rows.iter().enumerate() {
        assert_eq!(r.tx_order, 3);
        assert_eq!(r.event_index, i as u64);
        assert_eq!(r.tx_hash, "0xh3");
        assert_eq!(r.sender, "0xb");
        assert_eq!(r.created_at, 1003);
    }
    assert_eq!(rows[1].event_type, "B");
    assert_eq!(rows[2].data, b"A".to_vec());
    assert!(project_events(&ctx(3, "0xb"), &vec![]).is_empty());
}

#[test]
fn transactions_and_events_are_queried_in_key_order() {
    let mut actor = IndexerActor::new(MemoryStore::new());
    for tx in [2u64, 1, 3] {
        let sender = if tx == 2 { "0xb" } else { "0xa" };
        actor.handle_transaction(&ctx(tx, sender), &info(), &vec![]);
        actor.handle_events(&ctx(tx, sender), &events(&["A", "B"]));
    }
    assert_eq!(keys(actor.query_transactions(&None, None, 10, false)), vec![(1, 0), (2, 0), (3, 0)]);
    assert_eq!(keys(actor.query_transactions(&Some("0xa".to_string()), None, 10, true)), vec![(3, 0), (1, 0)]);
    let first = keys(actor.query_events(&None, None, 4, false));
    assert_eq!(first, vec![(1, 0), (1, 1), (2, 0), (2, 1)]);
    let next = keys(actor.query_events(&None, Some(*first.last().unwrap()), 4, false));
    assert_eq!(next, vec![(3, 0), (3, 1)]);
    assert_eq!(keys(actor.query_events(&Some("B".to_string()), Some((3, 1)), 5, true)), vec![(2, 1), (1, 1)]);
}

#[test]
fn redelivered_events_replace_and_keep_order() {
    let mut actor = IndexerActor::new(MemoryStore::new());
    actor.handle_events(&ctx(1, "0xa"), &events(&["A"]));
    actor.handle_events(&ctx(2, "0xa"), &events(&["A", "B"]));
    actor.handle_events(&ctx(1, "0xa"), &events(&["A", "B", "C"]));
    assert_eq!(
        keys(actor.query_events(&None, None, 10, false)),
        vec![(1, 0), (1, 1), (1, 2), (2, 0), (2, 1)]
    );
    actor.handle_transaction(&ctx(5, "0xa"), &info(), &vec![]);
    actor.handle_transaction(&ctx(5, "0xa"), &info(), &vec![9]);
    assert_eq!(actor.indexer_store.transactions.len(), 1);
    assert_eq!(actor.indexer_store.transactions[0].payload, vec![9]);
}

#[test]
fn redelivered_change_set_keeps_sync_log_in_key_order() {
    let table = |b: u8| {
        let mut bytes = vec![0u8; 32];
        bytes[31] = b;
        ObjectId { bytes }
    };
    let cs = |b: u8| StateChangeSet {
        changes: vec![StateChange { handle: table(b), key: vec![b], op: Op::Delete }],
        new_tables: vec![],
        removed_tables: vec![],
    };
    let mut actor = IndexerActor::new(MemoryStore::new());
    actor.handle_states(1, &cs(1), &vec![None]).unwrap();
    actor.handle_states(2, &cs(2), &vec![None]).unwrap();
    actor.handle_states(1, &cs(1), &vec![None]).unwrap();
    assert_eq!(keys(actor.sync_states(&None, None, 10, false)), vec![(1, 0), (2, 0)]);
    assert_eq!(actor.indexer_store.table_change_sets.len(), 2);
}

fn keys<T: LogRow>(rows: Vec<T>) -> Vec<(u64, u64)> {
    rows.iter().map(|r| r.key()).collect()
}
