//! A verified in-memory key-value store partitioned by logical
//! column.
//!
//! The store models the external engine the persistence operations
//! run against: atomic get/put/delete of a byte blob under a
//! (column, key) location, with columns isolating unrelated data
//! domains from one another. Its view is a map from locations to
//! blobs, so column isolation is a property of the map itself.

use vstd::prelude::*;

verus! {

/// An opaque tag naming one namespace partition of the store.
/// Entries under distinct columns never mix.
#[derive(Clone, Copy, PartialEq, Eq, Structural, Hash, Debug)]
pub struct LogicalColumn {
    pub tag: u64,
}

/// The all-zero 32-byte storage key.
pub open spec fn zero_key() -> Seq<u8> {
    Seq::new(32, |i: int| 0u8)
}

/// A 32-byte key naming one entry inside a column.
#[derive(PartialEq, Eq, Debug)]
pub struct StorageKey {
    bytes: Vec<u8>,
}

impl View for StorageKey {
    type V = Seq<u8>;

    closed spec fn view(&self) -> Seq<u8> {
        self.bytes@
    }
}

impl StorageKey {
    /// Keys are always exactly 32 bytes.
    #[verifier::type_invariant]
    spec fn type_inv(self) -> bool {
        self.bytes@.len() == 32
    }

    /// The well-known all-zero key.
    pub fn zero() -> (k: StorageKey)
        ensures
            k@ == zero_key(),
    {
        let mut bytes: Vec<u8> = Vec::new();
        let mut i: usize = 0;
        while i < 32
            invariant
                i <= 32,
                bytes@ =~= Seq::new(i as nat, |j: int| 0u8),
            decreases 32 - i,
        {
            bytes.push(0u8);
            proof {
                assert(bytes@ =~= Seq::new((i + 1) as nat, |j: int| 0u8));
            }
            i = i + 1;
        }
        proof {
            assert(bytes@ =~= zero_key());
        }
        StorageKey { bytes }
    }
}

impl Clone for StorageKey {
    /// Cloning a key keeps its bytes.
    fn clone(&self) -> (r: Self)
        ensures
            r@ == self@,
    {
        proof {
            use_type_invariant(self);
        }
        StorageKey { bytes: vstd::slice::slice_to_vec(self.bytes.as_slice()) }
    }
}

/// Byte-for-byte equality of two byte vectors.
fn bytes_eq(a: &Vec<u8>, b: &Vec<u8>) -> (r: bool)
    ensures
        r == (a@ == b@),
{
    if a.len() != b.len() {
        return false;
    }
    let mut i: usize = 0;
    while i < a.len()
        invariant
            i <= a@.len(),
            a@.len() == b@.len(),
            forall|j: int| 0 <= j < i ==> a@[j] == b@[j],
        decreases a@.len() - i,
    {
        if a[i] != b[i] {
            return false;
        }
        i = i + 1;
    }
    proof {
        assert(a@ =~= b@);
    }
    true
}

/// One stored entry: a blob at a (column, key) location.
struct Entry {
    column: LogicalColumn,
    key: StorageKey,
    value: Vec<u8>,
}

/// The location of an entry: its column tag paired with its key bytes.
spec fn entry_loc(e: Entry) -> (u64, Seq<u8>) {
    (e.column.tag, e.key@)
}

/// The map held by a sequence of entries with pairwise distinct
/// locations.
spec fn entries_map(s: Seq<Entry>) -> Map<(u64, Seq<u8>), Seq<u8>>
    decreases s.len(),
{
    if s.len() == 0 {
        Map::empty()
    } else {
        entries_map(s.drop_last()).insert(entry_loc(s.last()), s.last().value@)
    }
}

/// Last-match lookup over a sequence of entries.
spec fn lookup(s: Seq<Entry>, loc: (u64, Seq<u8>)) -> Option<Seq<u8>>
    decreases s.len(),
{
    if s.len() == 0 {
        None
    } else if entry_loc(s.last()) == loc {
        Some(s.last().value@)
    } else {
        lookup(s.drop_last(), loc)
    }
}

/// `lookup` agrees with the map held by the entries.
proof fn lemma_lookup_map(s: Seq<Entry>, loc: (u64, Seq<u8>))
    ensures
        entries_map(s).contains_key(loc) <==> lookup(s, loc) is Some,
        lookup(s, loc) is Some ==> entries_map(s)[loc] == lookup(s, loc).unwrap(),
    decreases s.len(),
{
    if s.len() > 0 {
        lemma_lookup_map(s.drop_last(), loc);
    }
}

/// A location no entry carries is absent from the map.
proof fn lemma_absent_loc(s: Seq<Entry>, loc: (u64, Seq<u8>))
    requires
        forall|k: int| 0 <= k < s.len() ==> entry_loc(#[trigger] s[k]) != loc,
    ensures
        !entries_map(s).contains_key(loc),
    decreases s.len(),
{
    if s.len() > 0 {
        assert(entry_loc(s.last()) != loc);
        lemma_absent_loc(s.drop_last(), loc);
    }
}

/// Removing the unique entry at a location removes exactly that
/// location from the map.
proof fn lemma_map_remove_entry(s: Seq<Entry>, i: int)
    requires
        0 <= i < s.len(),
        forall|a: int, b: int|
            0 <= a < b < s.len() ==> entry_loc(#[trigger] s[a]) != entry_loc(#[trigger] s[b]),
    ensures
        entries_map(s.remove(i)) == entries_map(s).remove(entry_loc(s[i])),
    decreases s.len(),
{
    let loc = entry_loc(s[i]);
    if i == s.len() - 1 {
        assert(s.remove(i) =~= s.drop_last());
        assert forall|k: int| 0 <= k < s.drop_last().len() implies entry_loc(
            #[trigger] s.drop_last()[k],
        ) != loc by {
            assert(s.drop_last()[k] == s[k]);
        }
        lemma_absent_loc(s.drop_last(), loc);
        assert(entries_map(s.drop_last()).insert(loc, s.last().value@).remove(loc)
            =~= entries_map(s.drop_last()));
    } else {
        let d = s.drop_last();
        assert(s.remove(i).last() == s.last());
        assert(s.remove(i).drop_last() =~= d.remove(i));
        assert(d[i] == s[i]);
        assert forall|a: int, b: int| 0 <= a < b < d.len() implies entry_loc(#[trigger] d[a])
            != entry_loc(#[trigger] d[b]) by {
            assert(d[a] == s[a]);
            assert(d[b] == s[b]);
        }
        lemma_map_remove_entry(d, i);
        let lloc = entry_loc(s.last());
        assert(lloc != loc);
        assert(entries_map(d).remove(loc).insert(lloc, s.last().value@) =~= entries_map(d).insert(
            lloc,
            s.last().value@,
        ).remove(loc));
    }
}

/// The in-memory store: one blob per (column, key) location.
pub struct MemoryStore {
    entries: Vec<Entry>,
}

impl View for MemoryStore {
    type V = Map<(u64, Seq<u8>), Seq<u8>>;

    closed spec fn view(&self) -> Map<(u64, Seq<u8>), Seq<u8>> {
        entries_map(self.entries@)
    }
}

impl MemoryStore {
    /// Entries hold pairwise distinct locations.
    #[verifier::type_invariant]
    spec fn type_inv(self) -> bool {
        forall|a: int, b: int|
            0 <= a < b < self.entries@.len() ==> entry_loc(#[trigger] self.entries@[a])
                != entry_loc(#[trigger] self.entries@[b])
    }

    /// An empty store holds nothing at any location.
    pub fn new() -> (s: MemoryStore)
        ensures
            s@ == Map::<(u64, Seq<u8>), Seq<u8>>::empty(),
    {
        MemoryStore { entries: Vec::new() }
    }

    /// Index of the entry at a location, if the store holds one.
    fn find(&self, column: LogicalColumn, key: &StorageKey) -> (r: Option<usize>)
        ensures
            match r {
                Some(i) => i < self.entries@.len() && entry_loc(self.entries@[i as int]) == (
                    column.tag,
                    key@,
                ) && self@.contains_key((column.tag, key@)) && self@[(column.tag, key@)]
                    == self.entries@[i as int].value@,
                None => !self@.contains_key((column.tag, key@)),
            },
    {
        let ghost loc = (column.tag, key@);
        let mut i: usize = self.entries.len();
        proof {
            assert(self.entries@.take(i as int) =~= self.entries@);
        }
        while i > 0
            invariant
                i <= self.entries@.len(),
                lookup(self.entries@, loc) == lookup(self.entries@.take(i as int), loc),
                loc == (column.tag, key@),
            decreases i,
        {
            let e = &self.entries[i - 1];
            proof {
                assert(self.entries@.take(i as int).last() == self.entries@[i - 1]);
                assert(self.entries@.take(i as int).drop_last() =~= self.entries@.take(i - 1));
            }
            if e.column == column && bytes_eq(&e.key.bytes, &key.bytes) {
                proof {
                    assert(entry_loc(self.entries@[i - 1]) == loc);
                    lemma_lookup_map(self.entries@, loc);
                }
                return Some(i - 1);
            }
            proof {
                assert(entry_loc(self.entries@[i - 1]) != loc);
            }
            i = i - 1;
        }
        proof {
            assert(self.entries@.take(0) =~= Seq::<Entry>::empty());
            lemma_lookup_map(self.entries@, loc);
        }
        None
    }

    /// The blob stored at (column, key), or `None` when the location
    /// is empty.
    pub fn get_item(&self, column: LogicalColumn, key: &StorageKey) -> (r: Option<&Vec<u8>>)
        ensures
            match r {
                Some(v) => self@.contains_key((column.tag, key@)) && v@ == self@[(
                    column.tag,
                    key@,
                )],
                None => !self@.contains_key((column.tag, key@)),
            },
    {
        match self.find(column, key) {
            Some(i) => Some(&self.entries[i].value),
            None => None,
        }
    }

    /// Stores a blob at (column, key), replacing any previous blob
    /// there and touching no other location.
    pub fn put_item(&mut self, column: LogicalColumn, key: &StorageKey, value: Vec<u8>)
        ensures
            final(self)@ == old(self)@.insert((column.tag, key@), value@),
    {
        let ghost loc = (column.tag, key@);
        self.delete(column, key);
        let ghost mid = self.entries@;
        proof {
            use_type_invariant(&*self);
            lemma_lookup_map(mid, loc);
            assert forall|k: int| 0 <= k < mid.len() implies entry_loc(#[trigger] mid[k])
                != loc by {
                if entry_loc(mid[k]) == loc {
                    lemma_lookup_some_of_entry(mid, k);
                }
            }
        }
        let entry = Entry { column, key: key.clone(), value };
        proof {
            assert(entry_loc(entry) == loc);
        }
        let ghost entry_snap = entry;
        let mut moved: Vec<Entry> = Vec::new();
        core::mem::swap(&mut moved, &mut self.entries);
        moved.push(entry);
        proof {
            assert forall|a: int, b: int| 0 <= a < b < moved@.len() implies entry_loc(
                #[trigger] moved@[a],
            ) != entry_loc(#[trigger] moved@[b]) by {
                assert(b == moved@.len() - 1 ==> moved@[b] == entry_snap);
                assert(a < mid.len() ==> moved@[a] == mid[a]);
            }
        }
        core::mem::swap(&mut self.entries, &mut moved);
        proof {
            assert(self.entries@.drop_last() =~= mid);
            assert(self.entries@.last() == entry);
            assert(entries_map(mid).insert(loc, entry.value@) =~= old(self)@.remove(loc).insert(
                loc,
                entry.value@,
            ));
            assert(old(self)@.remove(loc).insert(loc, entry.value@) =~= old(self)@.insert(
                loc,
                entry.value@,
            ));
        }
    }

    /// Deletes whatever blob sits at (column, key); deleting an empty
    /// location changes nothing and still succeeds.
    pub fn delete(&mut self, column: LogicalColumn, key: &StorageKey)
        ensures
            final(self)@ == old(self)@.remove((column.tag, key@)),
    {
        let ghost loc = (column.tag, key@);
        proof {
            use_type_invariant(&*self);
        }
        match self.find(column, key) {
            None => {
                proof {
                    assert(old(self)@.remove(loc) =~= old(self)@);
                }
            },
            Some(i) => {
                let ghost s = self.entries@;
                let mut moved: Vec<Entry> = Vec::new();
                core::mem::swap(&mut moved, &mut self.entries);
                moved.remove(i);
                proof {
                    assert forall|a: int, b: int| 0 <= a < b < moved@.len() implies entry_loc(
                        #[trigger] moved@[a],
                    ) != entry_loc(#[trigger] moved@[b]) by {
                        let oa: int = if a < i { a } else { a + 1 };
                        let ob: int = if b < i { b } else { b + 1 };
                        assert(moved@[a] == s[oa]);
                        assert(moved@[b] == s[ob]);
                    }
                }
                core::mem::swap(&mut self.entries, &mut moved);
                proof {
                    lemma_map_remove_entry(s, i as int);
                }
            },
        }
    }
}

/// An entry at a location makes the lookup over its suffix succeed.
proof fn lemma_lookup_some_of_entry(s: Seq<Entry>, k: int)
    requires
        0 <= k < s.len(),
    ensures
        lookup(s, entry_loc(s[k])) is Some,
    decreases s.len(),
{
    if k < s.len() - 1 {
        if entry_loc(s.last()) != entry_loc(s[k]) {
            assert(s.drop_last()[k] == s[k]);
            lemma_lookup_some_of_entry(s.drop_last(), k);
        }
    }
}

} // verus!
