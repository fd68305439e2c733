//! Store-item adapter and persistence operations for the discovery
//! record set.
//!
//! The whole set lives as one blob under a fixed all-zero key inside
//! a column reserved for it; the column alone provides the namespace,
//! so no per-entry keys are needed. Three operations each perform one
//! store interaction: `load_dht` (never fails, degrades to the empty
//! set), `persist_dht` and `clear_dht`.

use vstd::prelude::*;

use crate::codec::DecodeError;
use crate::codec::DiscoveryRecord;
use crate::codec::decode;
use crate::codec::decode_spec;
use crate::codec::encode;
use crate::codec::encode_spec;
use crate::codec::lemma_round_trip;
use crate::codec::payload;
use crate::codec::record_views;
use crate::codec::wf_item;
use crate::kvstore::LogicalColumn;
use crate::kvstore::MemoryStore;
use crate::kvstore::StorageKey;
use crate::kvstore::zero_key;

verus! {

/// Tag of the logical column reserved for the discovery-record set.
pub const DHT_COLUMN_TAG: u64 = 1;

/// Failures surfaced by the store-item adapter: a stored blob whose
/// RLP structure cannot be parsed, with the offending cause.
#[derive(Clone, Copy, PartialEq, Eq, Debug)]
pub enum StoreError {
    MalformedEncoding(DecodeError),
}

/// The one store location of the persisted set: the reserved column
/// and the all-zero key.
pub open spec fn dht_location() -> (u64, Seq<u8>) {
    (DHT_COLUMN_TAG, zero_key())
}

/// The fixed 32-byte all-zero key. All zero because the set has its
/// own column, so the column provides the namespace.
pub fn dht_db_key() -> (k: StorageKey)
    ensures
        k@ == zero_key(),
{
    StorageKey::zero()
}

/// Wrapper around the discovery-record set for persistence to disk.
pub struct PersistedDht {
    pub enrs: Vec<DiscoveryRecord>,
}

impl PersistedDht {
    /// The logical column reserved for discovery-record sets.
    pub fn db_column() -> (c: LogicalColumn)
        ensures
            c.tag == DHT_COLUMN_TAG,
    {
        LogicalColumn { tag: DHT_COLUMN_TAG }
    }

    /// Serializes the set for storage. Total: encoding never fails.
    pub fn as_store_bytes(&self) -> (r: Vec<u8>)
        ensures
            r@ == encode_spec(record_views(self.enrs@)),
    {
        encode(&self.enrs)
    }

    /// Deserializes a stored blob, surfacing a malformed encoding as
    /// a store-level error that keeps the codec's cause.
    pub fn from_store_bytes(bytes: &[u8]) -> (r: Result<PersistedDht, StoreError>)
        ensures
            match r {
                Ok(d) => decode_spec(bytes@) == Some(record_views(d.enrs@)),
                Err(_) => decode_spec(bytes@) is None,
            },
    {
        match decode(bytes) {
            Ok(enrs) => Ok(PersistedDht { enrs }),
            Err(e) => Err(StoreError::MalformedEncoding(e)),
        }
    }
}

/// What a load yields from a store holding the map `m`: the decoded
/// set under the fixed location, or the empty set when the location
/// is empty or its blob is corrupt.
pub open spec fn loaded_records(m: Map<(u64, Seq<u8>), Seq<u8>>) -> Seq<Seq<u8>> {
    if m.contains_key(dht_location()) {
        match decode_spec(m[dht_location()]) {
            Some(items) => items,
            None => Seq::empty(),
        }
    } else {
        Seq::empty()
    }
}

/// Loads the persisted discovery-record set from the store.
///
/// Never fails and never surfaces an error: a missing entry or a
/// corrupt blob degrades to the empty set, since the set is a
/// best-effort cache that rediscovery can rebuild.
pub fn load_dht(store: &MemoryStore) -> (r: Vec<DiscoveryRecord>)
    ensures
        record_views(r@) == loaded_records(store@),
{
    let key = dht_db_key();
    match store.get_item(PersistedDht::db_column(), &key) {
        Some(bytes) => match PersistedDht::from_store_bytes(bytes.as_slice()) {
            Ok(p) => p.enrs,
            Err(_) => {
                let v: Vec<DiscoveryRecord> = Vec::new();
                proof {
                    assert(record_views(v@) =~= Seq::<Seq<u8>>::empty());
                }
                v
            },
        },
        None => {
            let v: Vec<DiscoveryRecord> = Vec::new();
            proof {
                assert(record_views(v@) =~= Seq::<Seq<u8>>::empty());
            }
            v
        },
    }
}

/// Persists the discovery-record set: one put of the encoded blob
/// under the fixed key and column, replacing any previous set and
/// touching no other location.
pub fn persist_dht(store: &mut MemoryStore, enrs: Vec<DiscoveryRecord>) -> (r: Result<
    (),
    StoreError,
>)
    ensures
        r is Ok,
        final(store)@ == old(store)@.insert(dht_location(), encode_spec(record_views(enrs@))),
{
    let dht = PersistedDht { enrs };
    let bytes = dht.as_store_bytes();
    let key = dht_db_key();
    store.put_item(PersistedDht::db_column(), &key, bytes);
    Ok(())
}

/// Clears any persisted discovery-record set: one delete of the fixed
/// key, scoped to the reserved column. Succeeds whether or not an
/// entry was there.
pub fn clear_dht(store: &mut MemoryStore) -> (r: Result<(), StoreError>)
    ensures
        r is Ok,
        final(store)@ == old(store)@.remove(dht_location()),
{
    let key = dht_db_key();
    store.delete(PersistedDht::db_column(), &key);
    Ok(())
}

/// Persist/load round trip via the store: after persisting a set of
/// well-formed records over any prior store contents, a load yields
/// exactly that set, element for element and in order.
pub proof fn lemma_persist_then_load(m: Map<(u64, Seq<u8>), Seq<u8>>, items: Seq<Seq<u8>>)
    requires
        forall|i: int| 0 <= i < items.len() ==> wf_item(#[trigger] items[i]),
        payload(items).len() < 0x10000000000000000,
    ensures
        loaded_records(m.insert(dht_location(), encode_spec(items))) == items,
{
    lemma_round_trip(items);
}

/// Column isolation: writing the blob of the persisted set touches no
/// location outside the reserved column and fixed key; every other
/// location keeps exactly the contents it had.
pub proof fn lemma_column_isolation(m: Map<(u64, Seq<u8>), Seq<u8>>, blob: Seq<u8>, lc: (
    u64,
    Seq<u8>,
))
    requires
        lc != dht_location(),
    ensures
        m.insert(dht_location(), blob).contains_key(lc) <==> m.contains_key(lc),
        m.contains_key(lc) ==> m.insert(dht_location(), blob)[lc] == m[lc],
{
}

/// Clearing a store that holds nothing under the fixed location
/// leaves the store exactly as it was.
pub proof fn lemma_clear_when_absent(m: Map<(u64, Seq<u8>), Seq<u8>>)
    requires
        !m.contains_key(dht_location()),
    ensures
        m.remove(dht_location()) == m,
{
    assert(m.remove(dht_location()) =~= m);
}

/// Clear is idempotent: clearing twice in a row leaves the same store
/// as clearing once.
pub proof fn lemma_clear_twice(m: Map<(u64, Seq<u8>), Seq<u8>>)
    ensures
        m.remove(dht_location()).remove(dht_location()) == m.remove(dht_location()),
{
    assert(m.remove(dht_location()).remove(dht_location()) =~= m.remove(dht_location()));
}

} // verus!
