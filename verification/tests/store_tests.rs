use std::str::FromStr;

use persisted_dht::DiscoveryRecord;
use persisted_dht::LogicalColumn;
use persisted_dht::MemoryStore;
use persisted_dht::PersistedDht;
use persisted_dht::clear_dht;
use persisted_dht::dht_db_key;
use persisted_dht::load_dht;
use persisted_dht::persist_dht;

type Enr = enr::Enr<enr::k256::ecdsa::SigningKey>;

const FIXTURE: &str = "enr:-IS4QHCYrYZbAKWCBRlAy5zzaDZXJBGkcnh4MHcBFZntXNFrdvJjX04jRzjzCBOonrkTfj499SZuOh8R33Ls8RRcy5wBgmlkgnY0gmlwhH8AAAGJc2VjcDI1NmsxoQPKY0yuDUmstAHYpMa2_oxVtw0RW_QAdpzBQA8yWM0xOIN1ZHCCdl8";

fn fixture_record() -> DiscoveryRecord {
    let enr = Enr::from_str(FIXTURE).unwrap();
    DiscoveryRecord::from_bytes(alloy_rlp::encode(&enr)).unwrap()
}

#[test]
fn test_persisted_dht() {
    let mut store = MemoryStore::new();
    let enrs = vec![fixture_record()];
    store.put_item(
        PersistedDht::db_column(),
        &dht_db_key(),
        PersistedDht { enrs: enrs.clone() }.as_store_bytes(),
    );
    let blob = store
        .get_item(PersistedDht::db_column(), &dht_db_key())
        .unwrap();
    let dht: PersistedDht = PersistedDht::from_store_bytes(blob.as_slice()).unwrap();
    assert_eq!(dht.enrs, enrs);
}

#[test]
fn test_load_missing_entry_yields_empty_set() {
    let store = MemoryStore::new();
    assert_eq!(load_dht(&store), Vec::new());
}

#[test]
fn test_load_corrupt_blob_yields_empty_set() {
    let mut store = MemoryStore::new();
    store.put_item(PersistedDht::db_column(), &dht_db_key(), vec![0xff, 0x00]);
    assert_eq!(load_dht(&store), Vec::new());
    store.put_item(PersistedDht::db_column(), &dht_db_key(), vec![0x42]);
    assert_eq!(load_dht(&store), Vec::new());
}

#[test]
fn test_persist_then_load_round_trip() {
    let mut store = MemoryStore::new();
    let records = vec![
        fixture_record(),
        DiscoveryRecord::from_bytes(vec![0x01]).unwrap(),
    ];
    persist_dht(&mut store, records.clone()).unwrap();
    assert_eq!(load_dht(&store), records);
}

#[test]
fn test_persist_overwrites_previous_set() {
    let mut store = MemoryStore::new();
    let first = vec![DiscoveryRecord::from_bytes(vec![0x01]).unwrap()];
    let second = vec![DiscoveryRecord::from_bytes(vec![0x02]).unwrap()];
    persist_dht(&mut store, first).unwrap();
    persist_dht(&mut store, second.clone()).unwrap();
    assert_eq!(load_dht(&store), second);
}

#[test]
fn test_clear_on_empty_store_succeeds() {
    let mut store = MemoryStore::new();
    clear_dht(&mut store).unwrap();
    clear_dht(&mut store).unwrap();
    assert_eq!(load_dht(&store), Vec::new());
}

#[test]
fn test_persist_clear_load_yields_empty_set() {
    let mut store = MemoryStore::new();
    persist_dht(&mut store, vec![fixture_record()]).unwrap();
    clear_dht(&mut store).unwrap();
    assert_eq!(load_dht(&store), Vec::new());
    clear_dht(&mut store).unwrap();
    assert_eq!(load_dht(&store), Vec::new());
}

#[test]
fn test_column_isolation() {
    let mut store = MemoryStore::new();
    let other_column = LogicalColumn { tag: 7 };
    store.put_item(other_column, &dht_db_key(), vec![0xaa, 0xbb]);
    persist_dht(&mut store, vec![fixture_record()]).unwrap();
    // The other column still holds exactly what it held before.
    let other = store.get_item(other_column, &dht_db_key()).unwrap();
    assert_eq!(other.as_slice(), &[0xaa, 0xbb]);
    // A column never written to stays empty.
    let untouched = LogicalColumn { tag: 8 };
    assert!(store.get_item(untouched, &dht_db_key()).is_none());
}
