use rooch_indexer::actor::IndexerActor;
use rooch_indexer::changelog::split_change_set;
use rooch_indexer::changeset::{
    classify, IndexError, NewTable, ObjectId, Op, StateChange, StateChangeSet, Value, ValueKind,
};
use rooch_indexer::keyhash::key_hash;
use rooch_indexer::materialize::materialize;
use rooch_indexer::query::{query_log, LogRow};
use rooch_indexer::store::MemoryStore;

const COIN_OBJECT: &str = "0x2::object::ObjectEntity<0x3::coin::Coin>";
const TABLE_OBJECT: &str = "0x2::object::ObjectEntity<0x2::raw_table::TableInfo>";

fn id(last: u8) -> ObjectId {
    let mut bytes = vec![0u8; 32];
    bytes[31] = last;
    ObjectId { bytes }
}

fn id_bytes(last: u8) -> Vec<u8> {
    id(last).bytes
}

fn hex_id(last: u8) -> String {
    format!("0x{}{:02x}", "00".repeat(31), last)
}

fn value(t: &str, payload: &[u8]) -> Value {
    Value { value_type: t.to_string(), value: payload.to_vec() }
}

fn change(handle: ObjectId, key: Vec<u8>, op: Op) -> StateChange {
    StateChange { handle, key, op }
}

fn set(changes: Vec<StateChange>, new_tables: Vec<NewTable>, removed: Vec<ObjectId>) -> StateChangeSet {
    StateChangeSet { changes, new_tables, removed_tables: removed }
}

fn json(s: &str) -> Option<String> {
    Some(s.to_string())
}

#[test]
fn raw_object_creates_one_global_row() {
    let cs = set(
        vec![change(ObjectId::global(), id_bytes(0xa1), Op::New(value(COIN_OBJECT, &[100])))],
        vec![],
        vec![],
    );
    let mut store = IndexerActor::new(MemoryStore::new());
    assert_eq!(store.handle_states(1, &cs, &vec![json("{\"value\":100}")]), Ok(()));
    assert_eq!(store.indexer_store.global_states.len(), 1);
    let row = &store.indexer_store.global_states[0];
    assert_eq!(row.object_id, hex_id(0xa1));
    assert_eq!(row.value, "{\"value\":100}");
    assert_eq!(row.object_type, COIN_OBJECT);
    assert_eq!(row.key_type, "");
    assert!(store.indexer_store.leaf_states.is_empty());
}

#[test]
fn leaf_value_creates_leaf_row_and_one_log_group() {
    let table = id(0x07);
    let cs = set(vec![change(id(0x07), vec![0x0a, 0xff], Op::New(value("u64", &[1])))], vec![], vec![]);
    let mut store = IndexerActor::new(MemoryStore::new());
    assert_eq!(store.handle_states(5, &cs, &vec![json("\"1\"")]), Ok(()));
    assert_eq!(store.indexer_store.leaf_states.len(), 1);
    let row = &store.indexer_store.leaf_states[0];
    assert_eq!(row.table_handle, table.to_string());
    assert_eq!(row.key_hash, "0x0aff");
    assert_eq!(row.id, format!("{}0x0aff", hex_id(0x07)));
    assert_eq!(row.value_type, "u64");
    assert!(store.indexer_store.global_states.is_empty());
    assert_eq!(store.indexer_store.table_change_sets.len(), 1);
    let log = &store.indexer_store.table_change_sets[0];
    assert_eq!((log.tx_order, log.index), (5, 0));
    assert_eq!(log.table_handle, hex_id(0x07));
    assert_eq!(log.changes.len(), 1);
    assert!(!log.removed);
    assert!(log.key_type.is_none());
}

#[test]
fn removed_table_drops_root_and_all_leaf_rows() {
    let t = id(0x09);
    let mut store = IndexerActor::new(MemoryStore::new());
    let create = set(
        vec![
            change(ObjectId::global(), id_bytes(0x09), Op::New(value(TABLE_OBJECT, &[]))),
            change(id(0x09), vec![1], Op::New(value("u8", &[1]))),
            change(id(0x09), vec![2], Op::New(value("u8", &[2]))),
            change(id(0x09), vec![3], Op::New(value("u8", &[3]))),
            change(id(0x0b), vec![1], Op::New(value("u8", &[9]))),
        ],
        vec![NewTable { handle: id(0x09), key_type: "u8".to_string() }],
        vec![],
    );
    let resolved = vec![json("{}"), json("1"), json("2"), json("3"), json("9")];
    assert_eq!(store.handle_states(1, &create, &resolved), Ok(()));
    assert_eq!(store.indexer_store.global_states.len(), 1);
    assert_eq!(store.indexer_store.global_states[0].key_type, "u8");
    assert_eq!(store.indexer_store.leaf_states.len(), 4);

    let remove = set(vec![], vec![], vec![t]);
    assert_eq!(store.handle_states(2, &remove, &vec![]), Ok(()));
    assert!(store.indexer_store.global_states.is_empty());
    assert_eq!(store.indexer_store.leaf_states.len(), 1);
    assert_eq!(store.indexer_store.leaf_states[0].table_handle, hex_id(0x0b));
    let last = store.indexer_store.table_change_sets.last().unwrap();
    assert_eq!(last.tx_order, 2);
    assert_eq!(last.table_handle, hex_id(0x09));
    assert!(last.removed);
}

#[test]
fn key_hash_is_prefixed_lowercase_hex() {
    assert_eq!(key_hash(&vec![]), "0x");
    assert_eq!(key_hash(&vec![0xab, 0x01, 0xff]), "0xab01ff");
    assert_ne!(key_hash(&vec![0x01]), key_hash(&vec![0x01, 0x00]));
    assert_eq!(key_hash(&vec![0x5c]), key_hash(&vec![0x5c]));
}

#[test]
fn every_entry_lands_in_one_batch() {
    let cs = set(
        vec![
            change(ObjectId::global(), id_bytes(1), Op::New(value(COIN_OBJECT, &[]))),
            change(ObjectId::global(), id_bytes(2), Op::Modify(value(COIN_OBJECT, &[]))),
            change(ObjectId::global(), id_bytes(3), Op::Delete),
            change(ObjectId::global(), id_bytes(4), Op::New(value("u64", &[]))),
            change(id(8), vec![1], Op::New(value("u64", &[]))),
            change(id(8), vec![2], Op::Modify(value("u64", &[]))),
            change(id(8), vec![3], Op::Delete),
        ],
        vec![],
        vec![],
    );
    let resolved = vec![json("a"), json("b"), None, None, json("c"), json("d"), None];
    let b = materialize(&cs, &resolved).unwrap();
    assert_eq!(b.global_upserts.len(), 2);
    assert_eq!(b.global_upserts[0].value, "a");
    assert_eq!(b.global_upserts[1].value, "b");
    assert_eq!(b.global_removals, vec![hex_id(3)]);
    assert_eq!(b.leaf_upserts.len(), 2);
    assert_eq!(b.leaf_upserts[0].value, "c");
    assert_eq!(b.leaf_upserts[1].value, "d");
    assert_eq!(b.leaf_removals, vec![format!("{}0x03", hex_id(8))]);
    assert!(b.removed_table_handles.is_empty());
}

#[test]
fn replaying_a_change_set_changes_nothing() {
    let cs = set(
        vec![
            change(ObjectId::global(), id_bytes(1), Op::New(value(COIN_OBJECT, &[]))),
            change(id(8), vec![1], Op::New(value("u64", &[]))),
        ],
        vec![],
        vec![],
    );
    let resolved = vec![json("a"), json("c")];
    let mut store = IndexerActor::new(MemoryStore::new());
    store.handle_states(3, &cs, &resolved).unwrap();
    let once = format!("{:?}", store);
    store.handle_states(3, &cs, &resolved).unwrap();
    assert_eq!(format!("{:?}", store), once);
}

#[test]
fn global_row_count_moves_by_creations_minus_deletions() {
    let mut store = IndexerActor::new(MemoryStore::new());
    let seed = set(
        (1..=4).map(|i| change(ObjectId::global(), id_bytes(i), Op::New(value(COIN_OBJECT, &[])))).collect(),
        vec![],
        vec![],
    );
    store.handle_states(1, &seed, &vec![json("x"); 4]).unwrap();
    assert_eq!(store.indexer_store.global_states.len(), 4);
    let cs = set(
        vec![
            change(ObjectId::global(), id_bytes(10), Op::New(value(COIN_OBJECT, &[]))),
            change(ObjectId::global(), id_bytes(11), Op::New(value(COIN_OBJECT, &[]))),
            change(ObjectId::global(), id_bytes(12), Op::New(value(COIN_OBJECT, &[]))),
            change(ObjectId::global(), id_bytes(1), Op::Modify(value(COIN_OBJECT, &[]))),
            change(ObjectId::global(), id_bytes(2), Op::Delete),
        ],
        vec![],
        vec![],
    );
    store.handle_states(2, &cs, &vec![json("n"), json("n"), json("n"), json("m"), None]).unwrap();
    assert_eq!(store.indexer_store.global_states.len(), 4 + 3 - 1);
}

#[test]
fn malformed_global_key_is_a_decode_error() {
    let cs = set(vec![change(ObjectId::global(), vec![1, 2, 3], Op::Delete)], vec![], vec![]);
    let mut store = IndexerActor::new(MemoryStore::new());
    assert_eq!(store.handle_states(1, &cs, &vec![None]), Err(IndexError::Decode));
    assert!(store.indexer_store.table_change_sets.is_empty());
}

#[test]
fn unresolved_value_is_a_resolution_error() {
    let cs = set(vec![change(id(4), vec![1], Op::Modify(value("u64", &[])))], vec![], vec![]);
    assert_eq!(materialize(&cs, &vec![None]).unwrap_err(), IndexError::Resolution);
    let cs = set(
        vec![change(ObjectId::global(), id_bytes(4), Op::New(value(COIN_OBJECT, &[])))],
        vec![],
        vec![],
    );
    assert_eq!(materialize(&cs, &vec![None]).unwrap_err(), IndexError::Resolution);
}

#[test]
fn non_object_global_value_is_ignored() {
    let cs = set(vec![change(ObjectId::global(), vec![1], Op::New(value("u64", &[])))], vec![], vec![]);
    let b = materialize(&cs, &vec![None]).unwrap();
    assert!(b.global_upserts.is_empty());
    assert!(b.global_removals.is_empty());
}

#[test]
fn classification_by_declared_type() {
    assert_eq!(classify(&TABLE_OBJECT.to_string()), ValueKind::TableObject);
    assert_eq!(classify(&COIN_OBJECT.to_string()), ValueKind::RawObject);
    assert_eq!(classify(&"0x2::object::ObjectEntity".to_string()), ValueKind::LeafValue);
    assert_eq!(classify(&"u64".to_string()), ValueKind::LeafValue);
}

#[test]
fn object_id_parse_needs_exactly_32_bytes() {
    assert_eq!(ObjectId::from_bytes(&vec![0u8; 31]).unwrap_err(), IndexError::Decode);
    let parsed = ObjectId::from_bytes(&id_bytes(0x2c)).unwrap();
    assert_eq!(parsed.to_string(), hex_id(0x2c));
    assert!(ObjectId::global().is_global());
    assert!(!parsed.is_global());
}

#[test]
fn split_groups_new_changed_and_removed_tables() {
    let cs = set(
        vec![change(id(2), vec![1], Op::Delete), change(id(3), vec![1], Op::Delete), change(id(2), vec![2], Op::Delete)],
        vec![NewTable { handle: id(3), key_type: "address".to_string() }],
        vec![id(5), id(2)],
    );
    let rows = split_change_set(9, &cs);
    let handles: Vec<String> = rows.iter().map(|r| r.table_handle.clone()).collect();
    assert_eq!(handles, vec![hex_id(3), hex_id(2), hex_id(5)]);
    assert_eq!(rows.iter().map(|r| r.index).collect::<Vec<_>>(), vec![0, 1, 2]);
    assert_eq!(rows[0].key_type.as_deref(), Some("address"));
    assert_eq!(rows[0].changes.len(), 1);
    assert_eq!(rows[1].changes.len(), 2);
    assert!(rows[1].removed && rows[2].removed && !rows[0].removed);
    assert!(rows[2].changes.is_empty());
}

#[test]
fn pages_follow_each_other_without_gap_or_overlap() {
    let mut store = IndexerActor::new(MemoryStore::new());
    for tx in 1..=3u64 {
        let cs = set(
            vec![change(id(1), vec![tx as u8], Op::Delete), change(id(2), vec![tx as u8], Op::Delete)],
            vec![],
            vec![],
        );
        store.handle_states(tx, &cs, &vec![None, None]).unwrap();
    }
    let log = &store.indexer_store.table_change_sets;
    let first = query_log(log, &None, None, 4, false);
    assert_eq!(first, vec![(1, 0), (1, 1), (2, 0), (2, 1)]);
    let second = query_log(log, &None, Some(*first.last().unwrap()), 4, false);
    assert_eq!(second, vec![(3, 0), (3, 1)]);
    let only_two = query_log(log, &Some(hex_id(2)), Some((1, 1)), 10, false);
    assert_eq!(only_two, vec![(2, 1), (3, 1)]);
    assert!(query_log(log, &None, Some((3, 1)), 10, false).is_empty());
}

#[test]
fn descending_pages_run_backwards_from_the_cursor() {
    let mut actor = IndexerActor::new(MemoryStore::new());
    for tx in 1..=3u64 {
        let cs = set(
            vec![change(id(1), vec![tx as u8], Op::Delete), change(id(2), vec![tx as u8], Op::Delete)],
            vec![],
            vec![],
        );
        actor.handle_states(tx, &cs, &vec![None, None]).unwrap();
    }
    assert_eq!(keys(actor.sync_states(&None, None, 3, true)), vec![(3, 1), (3, 0), (2, 1)]);
    assert_eq!(keys(actor.sync_states(&None, Some((2, 1)), 3, true)), vec![(2, 0), (1, 1), (1, 0)]);
    assert_eq!(keys(actor.sync_states(&Some(hex_id(1)), Some((3, 0)), 5, true)), vec![(2, 0), (1, 0)]);
    assert_eq!(keys(actor.sync_states(&None, Some((1, 0)), 5, true)), vec![]);
    assert_eq!(keys(actor.sync_states(&None, None, 0, false)), vec![]);
}

fn keys<T: LogRow>(rows: Vec<T>) -> Vec<(u64, u64)> {
    rows.iter().map(|r| r.key()).collect()
}
