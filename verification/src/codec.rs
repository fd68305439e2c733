//! Record codec: total, order-preserving conversion between an ordered
//! sequence of discovery records and a single RLP list blob.
//!
//! The persisted layout is one RLP list whose payload is the
//! concatenation of each record's own canonical, self-describing RLP
//! item encoding. The codec here owns the list framing: it writes and
//! parses the length prefixes itself, strictly (canonical lengths only,
//! no trailing bytes), and treats each record's bytes as one opaque,
//! well-formed RLP item.

use vstd::prelude::*;

verus! {

/// Value of a big-endian byte string, most significant byte first.
pub open spec fn be_val(s: Seq<u8>) -> nat
    decreases s.len(),
{
    if s.len() == 0 {
        0
    } else {
        be_val(s.drop_last()) * 256 + s.last() as nat
    }
}

/// Minimal big-endian byte encoding of a number: empty for zero, and
/// never a leading zero byte otherwise.
pub open spec fn be_bytes(n: nat) -> Seq<u8>
    decreases n,
{
    if n == 0 {
        Seq::empty()
    } else {
        be_bytes(n / 256).push((n % 256) as u8)
    }
}

/// 256 to the power `k`.
pub open spec fn pow256(k: nat) -> nat
    decreases k,
{
    if k == 0 {
        1
    } else {
        256 * pow256((k - 1) as nat)
    }
}

/// Reading back the minimal big-endian bytes of `n` yields `n`.
pub proof fn lemma_be_val_of_be_bytes(n: nat)
    ensures
        be_val(be_bytes(n)) == n,
    decreases n,
{
    if n != 0 {
        lemma_be_val_of_be_bytes(n / 256);
        assert(be_bytes(n).drop_last() =~= be_bytes(n / 256));
        assert(n / 256 * 256 + n % 256 == n) by (nonlinear_arith);
    }
}

/// The minimal big-endian bytes of a positive number are non-empty and
/// start with a non-zero byte.
pub proof fn lemma_be_bytes_first_nonzero(n: nat)
    requires
        n > 0,
    ensures
        be_bytes(n).len() >= 1,
        be_bytes(n)[0] != 0,
    decreases n,
{
    if n >= 256 {
        assert(n / 256 > 0) by (nonlinear_arith)
            requires n >= 256;
        lemma_be_bytes_first_nonzero(n / 256);
        assert(be_bytes(n)[0] == be_bytes(n / 256)[0]);
    } else {
        assert(n / 256 == 0) by (nonlinear_arith)
            requires 0 < n < 256;
        assert(n % 256 == n) by (nonlinear_arith)
            requires 0 < n < 256;
        assert(be_bytes(n / 256) =~= Seq::<u8>::empty());
        assert(be_bytes(n) =~= seq![(n % 256) as u8]);
    }
}

/// A number below `pow256(k)` has at most `k` minimal big-endian bytes.
pub proof fn lemma_be_bytes_len(n: nat, k: nat)
    requires
        n < pow256(k),
    ensures
        be_bytes(n).len() <= k,
    decreases n,
{
    if n != 0 {
        assert(k != 0);
        assert(n / 256 < pow256((k - 1) as nat)) by (nonlinear_arith)
            requires n < pow256(k), pow256(k) == 256 * pow256((k - 1) as nat);
        lemma_be_bytes_len(n / 256, (k - 1) as nat);
        assert(n / 256 < n) by (nonlinear_arith)
            requires n > 0;
    }
}

/// Minimal big-endian bytes of a machine word, executable form.
fn be_bytes_exec(n: usize) -> (r: Vec<u8>)
    ensures
        r@ == be_bytes(n as nat),
    decreases n,
{
    if n == 0 {
        Vec::new()
    } else {
        let mut r = be_bytes_exec(n / 256);
        r.push((n % 256) as u8);
        proof {
            assert(r@ =~= be_bytes(n as nat));
        }
        r
    }
}

/// The value of a big-endian byte string is below 256 to the power of
/// its length.
pub proof fn lemma_be_val_bound(s: Seq<u8>)
    ensures
        be_val(s) < pow256(s.len()),
    decreases s.len(),
{
    if s.len() > 0 {
        lemma_be_val_bound(s.drop_last());
        assert(be_val(s.drop_last()) * 256 + (s.last() as nat) < 256 * pow256((s.len() - 1) as nat))
            by (nonlinear_arith)
            requires
                be_val(s.drop_last()) < pow256((s.len() - 1) as nat),
                s.last() < 256,
        ;
    }
}

/// `pow256` is monotone.
pub proof fn lemma_pow256_mono(a: nat, b: nat)
    requires
        a <= b,
    ensures
        pow256(a) <= pow256(b),
    decreases b,
{
    if a < b {
        lemma_pow256_mono(a, (b - 1) as nat);
        assert(pow256((b - 1) as nat) <= 256 * pow256((b - 1) as nat)) by (nonlinear_arith)
            requires pow256((b - 1) as nat) >= 0;
    }
}

/// The concrete values of the small powers of 256.
pub proof fn lemma_pow256_values()
    ensures
        pow256(0) == 1,
        pow256(1) == 0x100,
        pow256(2) == 0x10000,
        pow256(3) == 0x1000000,
        pow256(4) == 0x100000000,
        pow256(5) == 0x10000000000,
        pow256(6) == 0x1000000000000,
        pow256(7) == 0x100000000000000,
        pow256(8) == 0x10000000000000000,
{
    assert(pow256(0) == 1);
    assert(pow256(1) == 0x100);
    assert(pow256(2) == 0x10000);
    assert(pow256(3) == 0x1000000);
    assert(pow256(4) == 0x100000000);
    assert(pow256(5) == 0x10000000000);
    assert(pow256(6) == 0x1000000000000);
    assert(pow256(7) == 0x100000000000000);
    assert(pow256(8) == 0x10000000000000000);
}

/// Reasons a byte sequence fails to parse as an RLP discovery-record
/// list. Each variant names the first structural fault the parser
/// meets; the whole decode aborts on any of them.
#[derive(Clone, Copy, PartialEq, Eq, Debug)]
pub enum DecodeError {
    /// A length prefix points past the end of the input.
    InputTooShort,
    /// The outer item is a string, not a list.
    UnexpectedString,
    /// A one-byte string payload below 0x80 was not inlined.
    NonCanonicalSingleByte,
    /// A long-form length below 56 should have used the short form.
    NonCanonicalSize,
    /// A long-form length has a leading zero byte.
    LeadingZero,
    /// Bytes remain after the outer list ends.
    UnexpectedLength,
}

impl DecodeError {
    /// A human-readable description of the cause, for diagnostics.
    pub fn describe(&self) -> (s: &'static str)
        ensures
            s@ == match self {
                DecodeError::InputTooShort => "input too short"@,
                DecodeError::UnexpectedString => "expected a list, got a string"@,
                DecodeError::NonCanonicalSingleByte => "non-canonical single byte"@,
                DecodeError::NonCanonicalSize => "non-canonical size"@,
                DecodeError::LeadingZero => "length has a leading zero"@,
                DecodeError::UnexpectedLength => "unexpected length"@,
            },
    {
        match self {
            DecodeError::InputTooShort => "input too short",
            DecodeError::UnexpectedString => "expected a list, got a string",
            DecodeError::NonCanonicalSingleByte => "non-canonical single byte",
            DecodeError::NonCanonicalSize => "non-canonical size",
            DecodeError::LeadingZero => "length has a leading zero",
            DecodeError::UnexpectedLength => "unexpected length",
        }
    }
}

/// Total length of the canonical long-form RLP item at the front of
/// `b`, whose first byte announced `ll` length bytes; `None` if the
/// length bytes are non-canonical or the item overruns `b`.
pub open spec fn long_item_len(b: Seq<u8>, ll: int) -> Option<int> {
    if b.len() < 1 + ll {
        None
    } else {
        let size = b.subrange(1, 1 + ll);
        if size[0] == 0 {
            None
        } else if be_val(size) < 56 {
            None
        } else if 1 + ll + be_val(size) <= b.len() {
            Some(1 + ll + be_val(size) as int)
        } else {
            None
        }
    }
}

/// Total length (header plus payload) of the single canonical RLP item
/// at the front of `b`, or `None` if no canonical item fits there.
pub open spec fn item_len(b: Seq<u8>) -> Option<int> {
    if b.len() == 0 {
        None
    } else {
        let b0 = b[0];
        if b0 < 0x80 {
            Some(1)
        } else if b0 <= 0xb7 {
            let l: int = b0 - 0x80;
            if l == 1 && (b.len() < 2 || b[1] < 0x80) {
                None
            } else if 1 + l <= b.len() {
                Some(1 + l)
            } else {
                None
            }
        } else if b0 <= 0xbf {
            long_item_len(b, b0 - 0xb7)
        } else if b0 <= 0xf7 {
            let l: int = b0 - 0xc0;
            if 1 + l <= b.len() {
                Some(1 + l)
            } else {
                None
            }
        } else {
            long_item_len(b, b0 - 0xf7)
        }
    }
}

/// `b` is exactly one canonical, self-describing RLP item.
pub open spec fn wf_item(b: Seq<u8>) -> bool {
    item_len(b) == Some(b.len() as int)
}

/// Parses the long-form length bytes of the item starting at `i`,
/// whose header byte announced `ll` length bytes.
fn long_length_at(bytes: &[u8], i: usize, ll: usize) -> (r: Result<usize, DecodeError>)
    requires
        i < bytes@.len(),
        1 <= ll <= 8,
    ensures
        match r {
            Ok(l) => long_item_len(bytes@.skip(i as int), ll as int) == Some(l as int) && 1 <= l
                && i + l <= bytes@.len(),
            Err(_) => long_item_len(bytes@.skip(i as int), ll as int) is None,
        },
{
    let n = bytes.len();
    let ghost suffix = bytes@.skip(i as int);
    if n - i - 1 < ll {
        return Err(DecodeError::InputTooShort);
    }
    let ghost size = suffix.subrange(1, 1 + ll as int);
    let mut val: u64 = 0;
    let mut j: usize = 0;
    while j < ll
        invariant
            i < bytes@.len(),
            1 <= ll <= 8,
            0 <= j <= ll,
            n == bytes@.len(),
            i + 1 + ll <= n,
            suffix == bytes@.skip(i as int),
            size == suffix.subrange(1, 1 + ll as int),
            val as nat == be_val(size.subrange(0, j as int)),
        decreases ll - j,
    {
        proof {
            lemma_be_val_bound(size.subrange(0, j as int));
            lemma_pow256_values();
            lemma_pow256_mono(j as nat, 7);
            assert(size.subrange(0, j as int + 1).drop_last() =~= size.subrange(0, j as int));
            assert(size.subrange(0, j as int + 1).last() == bytes@[i + 1 + j]);
        }
        let b = bytes[i + 1 + j];
        val = val * 256 + b as u64;
        j = j + 1;
    }
    proof {
        assert(size.subrange(0, ll as int) =~= size);
    }
    if bytes[i + 1] == 0 {
        proof {
            assert(size[0] == bytes@[i as int + 1]);
        }
        return Err(DecodeError::LeadingZero);
    }
    if val < 56 {
        return Err(DecodeError::NonCanonicalSize);
    }
    let remaining = n - i - 1 - ll;
    if val > remaining as u64 {
        return Err(DecodeError::InputTooShort);
    }
    Ok(1 + ll + val as usize)
}

/// Parses the header of the single RLP item starting at position `i`
/// and returns the item's total length (header plus payload).
fn item_length_at(bytes: &[u8], i: usize) -> (r: Result<usize, DecodeError>)
    requires
        i < bytes@.len(),
    ensures
        match r {
            Ok(l) => item_len(bytes@.skip(i as int)) == Some(l as int) && 1 <= l && i + l
                <= bytes@.len(),
            Err(_) => item_len(bytes@.skip(i as int)) is None,
        },
{
    let n = bytes.len();
    let ghost suffix = bytes@.skip(i as int);
    let b0 = bytes[i];
    if b0 < 0x80 {
        Ok(1)
    } else if b0 <= 0xb7 {
        let l = (b0 - 0x80) as usize;
        if l == 1 {
            if i + 1 >= n {
                Err(DecodeError::InputTooShort)
            } else if bytes[i + 1] < 0x80 {
                proof {
                    assert(suffix[1] == bytes@[i as int + 1]);
                }
                Err(DecodeError::NonCanonicalSingleByte)
            } else {
                proof {
                    assert(suffix[1] == bytes@[i as int + 1]);
                }
                Ok(2)
            }
        } else if l <= n - i - 1 {
            Ok(1 + l)
        } else {
            Err(DecodeError::InputTooShort)
        }
    } else if b0 <= 0xbf {
        long_length_at(bytes, i, (b0 - 0xb7) as usize)
    } else if b0 <= 0xf7 {
        let l = (b0 - 0xc0) as usize;
        if l <= n - i - 1 {
            Ok(1 + l)
        } else {
            Err(DecodeError::InputTooShort)
        }
    } else {
        long_length_at(bytes, i, (b0 - 0xf7) as usize)
    }
}

/// One discovery record, held as its canonical RLP item encoding.
///
/// The record is opaque to this crate beyond its framing: the bytes
/// are always exactly one canonical, self-describing RLP item, so a
/// decoder can find the record's boundary inside a list payload.
#[derive(PartialEq, Eq, Debug)]
pub struct DiscoveryRecord {
    bytes: Vec<u8>,
}

impl View for DiscoveryRecord {
    type V = Seq<u8>;

    closed spec fn view(&self) -> Seq<u8> {
        self.bytes@
    }
}

impl DiscoveryRecord {
    /// Every record holds exactly one canonical RLP item.
    #[verifier::type_invariant]
    spec fn type_inv(self) -> bool {
        wf_item(self.bytes@)
    }

    /// Wraps the canonical RLP item encoding of one record; rejects
    /// byte sequences that are not exactly one canonical item.
    pub fn from_bytes(bytes: Vec<u8>) -> (r: Option<DiscoveryRecord>)
        ensures
            match r {
                Some(rec) => rec@ == bytes@ && wf_item(bytes@),
                None => !wf_item(bytes@),
            },
    {
        if bytes.len() == 0 {
            return None;
        }
        proof {
            assert(bytes@.skip(0) =~= bytes@);
        }
        match item_length_at(bytes.as_slice(), 0) {
            Ok(l) => {
                if l == bytes.len() {
                    Some(DiscoveryRecord { bytes })
                } else {
                    None
                }
            },
            Err(_) => None,
        }
    }

    /// The record's canonical RLP item encoding.
    pub fn bytes(&self) -> (r: &Vec<u8>)
        ensures
            r@ == self@,
    {
        &self.bytes
    }
}

impl Clone for DiscoveryRecord {
    /// Cloning a record keeps its bytes.
    fn clone(&self) -> (r: Self)
        ensures
            r@ == self@,
    {
        proof {
            use_type_invariant(self);
        }
        DiscoveryRecord { bytes: vstd::slice::slice_to_vec(self.bytes.as_slice()) }
    }
}

/// The byte views of a sequence of records.
pub open spec fn record_views(s: Seq<DiscoveryRecord>) -> Seq<Seq<u8>> {
    s.map_values(|r: DiscoveryRecord| r@)
}

/// The list payload: the concatenation of the items' encodings, in
/// order.
pub open spec fn payload(items: Seq<Seq<u8>>) -> Seq<u8>
    decreases items.len(),
{
    if items.len() == 0 {
        Seq::empty()
    } else {
        items.first() + payload(items.drop_first())
    }
}

/// Appending one item to a list appends its bytes to the payload.
pub proof fn lemma_payload_push(items: Seq<Seq<u8>>, x: Seq<u8>)
    ensures
        payload(items.push(x)) == payload(items) + x,
    decreases items.len(),
{
    if items.len() == 0 {
        assert(items.push(x).drop_first() =~= Seq::<Seq<u8>>::empty());
        assert(payload(Seq::<Seq<u8>>::empty()) == Seq::<u8>::empty());
        assert(items =~= Seq::<Seq<u8>>::empty());
        assert(items.push(x).first() == x);
        assert(payload(items.push(x)) == x + Seq::<u8>::empty());
        assert(payload(items.push(x)) =~= payload(items) + x);
    } else {
        assert(items.push(x).first() == items.first());
        assert(items.push(x).drop_first() =~= items.drop_first().push(x));
        lemma_payload_push(items.drop_first(), x);
        assert(items.first() + (payload(items.drop_first()) + x) =~= (items.first() + payload(
            items.drop_first(),
        )) + x);
    }
}

/// The canonical RLP header announcing a list payload of `pl` bytes.
pub open spec fn list_header(pl: nat) -> Seq<u8> {
    if pl < 56 {
        seq![(0xc0 + pl) as u8]
    } else {
        seq![(0xf7 + be_bytes(pl).len()) as u8] + be_bytes(pl)
    }
}

/// The blob that encodes a sequence of items: list header, then the
/// concatenated item encodings.
pub open spec fn encode_spec(items: Seq<Seq<u8>>) -> Seq<u8> {
    list_header(payload(items).len()) + payload(items)
}

/// Header and payload length of the outer canonical RLP list at the
/// front of `b`, or `None` if `b` does not start with one.
pub open spec fn list_payload_bounds(b: Seq<u8>) -> Option<(int, int)> {
    if b.len() == 0 {
        None
    } else {
        let b0 = b[0];
        if b0 < 0xc0 {
            None
        } else if b0 <= 0xf7 {
            Some((1, b0 - 0xc0))
        } else {
            let ll: int = b0 - 0xf7;
            if b.len() < 1 + ll {
                None
            } else {
                let size = b.subrange(1, 1 + ll);
                if size[0] == 0 {
                    None
                } else if be_val(size) < 56 {
                    None
                } else {
                    Some((1 + ll, be_val(size) as int))
                }
            }
        }
    }
}

/// Splits a list payload into its items, each one canonical RLP item,
/// or `None` if the payload is not exactly such a concatenation.
pub open spec fn split_items(p: Seq<u8>) -> Option<Seq<Seq<u8>>>
    decreases p.len(),
{
    if p.len() == 0 {
        Some(Seq::empty())
    } else {
        match item_len(p) {
            None => None,
            Some(l) => if 1 <= l && l <= p.len() {
                match split_items(p.skip(l)) {
                    None => None,
                    Some(rest) => Some(seq![p.take(l)] + rest),
                }
            } else {
                None
            },
        }
    }
}

/// What a blob decodes to: the empty sequence for the empty blob, the
/// items of a strict canonical RLP list otherwise, and `None` for
/// every malformed blob (non-canonical lengths, items overrunning the
/// payload, bytes after the list).
pub open spec fn decode_spec(b: Seq<u8>) -> Option<Seq<Seq<u8>>> {
    if b.len() == 0 {
        Some(Seq::empty())
    } else {
        match list_payload_bounds(b) {
            None => None,
            Some((hl, pl)) => if b.len() == hl + pl {
                split_items(b.skip(hl))
            } else {
                None
            },
        }
    }
}

/// Encodes an ordered sequence of discovery records as one RLP list
/// blob: a length-prefixed list header followed by each record's own
/// canonical encoding, in sequence order. Total and deterministic.
pub fn encode(records: &Vec<DiscoveryRecord>) -> (r: Vec<u8>)
    ensures
        r@ == encode_spec(record_views(records@)),
{
    let mut payload_buf: Vec<u8> = Vec::new();
    let mut idx: usize = 0;
    while idx < records.len()
        invariant
            idx <= records.len(),
            payload_buf@ == payload(record_views(records@.take(idx as int))),
        decreases records.len() - idx,
    {
        let rec = &records[idx];
        payload_buf.extend_from_slice(rec.bytes.as_slice());
        proof {
            assert(records@.take(idx + 1) =~= records@.take(idx as int).push(records@[idx as int]));
            assert(record_views(records@.take(idx + 1)) =~= record_views(
                records@.take(idx as int),
            ).push(rec@));
            lemma_payload_push(record_views(records@.take(idx as int)), rec@);
        }
        idx = idx + 1;
    }
    proof {
        assert(records@.take(records@.len() as int) =~= records@);
    }
    let pl = payload_buf.len();
    let mut out: Vec<u8> = Vec::new();
    if pl < 56 {
        out.push((0xc0 + pl) as u8);
    } else {
        let mut be = be_bytes_exec(pl);
        proof {
            lemma_pow256_values();
            lemma_be_bytes_len(pl as nat, 8);
        }
        let ll = be.len();
        out.push((0xf7 + ll) as u8);
        out.append(&mut be);
    }
    proof {
        assert(out@ =~= list_header(pl as nat));
    }
    out.append(&mut payload_buf);
    out
}

/// When an item parses at the front of `b`, its length lies between 1
/// and the length of `b`.
pub proof fn lemma_item_len_bounds(b: Seq<u8>)
    requires
        item_len(b) is Some,
    ensures
        1 <= item_len(b).unwrap() <= b.len(),
{
}

/// The item header at the front of a sequence reads only bytes of the
/// item itself, so any sequence sharing those first `l` bytes parses
/// to the same item length.
pub proof fn lemma_item_len_prefix(p: Seq<u8>, q: Seq<u8>, l: int)
    requires
        item_len(p) == Some(l),
        l <= q.len(),
        p.take(l) == q.take(l),
    ensures
        item_len(q) == Some(l),
{
    lemma_item_len_bounds(p);
    assert forall|i: int| 0 <= i < l implies p[i] == q[i] by {
        assert(p.take(l)[i] == p[i]);
        assert(q.take(l)[i] == q[i]);
        assert(p.take(l)[i] == q.take(l)[i]);
    }
    let b0 = p[0];
    if b0 < 0x80 {
    } else if b0 <= 0xb7 {
        if b0 - 0x80 == 1 {
            assert(q[1] == p[1]);
        }
    } else if b0 <= 0xbf {
        let ll: int = b0 - 0xb7;
        assert(q.subrange(1, 1 + ll) =~= p.subrange(1, 1 + ll));
    } else if b0 <= 0xf7 {
    } else {
        let ll: int = b0 - 0xf7;
        assert(q.subrange(1, 1 + ll) =~= p.subrange(1, 1 + ll));
    }
}

/// Decodes a blob back into its ordered sequence of discovery
/// records.
///
/// The empty blob decodes to the empty sequence. Otherwise the blob
/// must be exactly one strict canonical RLP list: the outer header is
/// parsed, then one record is split off at a time, each a canonical
/// item, until the payload is exhausted. Any structural fault aborts
/// the whole decode with the first offending cause; no partial
/// sequence is ever returned.
pub fn decode(bytes: &[u8]) -> (r: Result<Vec<DiscoveryRecord>, DecodeError>)
    ensures
        match r {
            Ok(v) => decode_spec(bytes@) == Some(record_views(v@)),
            Err(_) => decode_spec(bytes@) is None,
        },
{
    let n = bytes.len();
    if n == 0 {
        let v: Vec<DiscoveryRecord> = Vec::new();
        proof {
            assert(record_views(v@) =~= Seq::<Seq<u8>>::empty());
        }
        return Ok(v);
    }
    let b0 = bytes[0];
    if b0 < 0xc0 {
        return Err(DecodeError::UnexpectedString);
    }
    let mut hl: usize = 1;
    if b0 <= 0xf7 {
        let pl = (b0 - 0xc0) as usize;
        if n - 1 < pl {
            return Err(DecodeError::InputTooShort);
        }
        if n - 1 > pl {
            return Err(DecodeError::UnexpectedLength);
        }
    } else {
        let ll = (b0 - 0xf7) as usize;
        proof {
            assert(bytes@.skip(0) =~= bytes@);
        }
        match long_length_at(bytes, 0, ll) {
            Err(e) => {
                return Err(e);
            },
            Ok(l) => {
                if l < n {
                    return Err(DecodeError::UnexpectedLength);
                }
                hl = 1 + ll;
            },
        }
    }
    proof {
        assert(decode_spec(bytes@) == split_items(bytes@.skip(hl as int)));
    }
    let mut recs: Vec<DiscoveryRecord> = Vec::new();
    let mut i: usize = hl;
    proof {
        if split_items(bytes@.skip(hl as int)) is Some {
            assert(record_views(recs@) + split_items(bytes@.skip(hl as int)).unwrap()
                =~= split_items(bytes@.skip(hl as int)).unwrap());
        }
    }
    while i < n
        invariant
            i <= n,
            n == bytes@.len(),
            (match split_items(bytes@.skip(i as int)) {
                None => decode_spec(bytes@) is None,
                Some(rest) => decode_spec(bytes@) == Some(record_views(recs@) + rest),
            }),
        decreases n - i,
    {
        let ghost s = bytes@.skip(i as int);
        match item_length_at(bytes, i) {
            Err(e) => {
                proof {
                    assert(split_items(s) is None);
                }
                return Err(e);
            },
            Ok(l) => {
                proof {
                    assert(bytes@.subrange(i as int, i + l) =~= s.take(l as int));
                    assert(s.take(l as int).take(l as int) =~= s.take(l as int));
                    lemma_item_len_prefix(s, s.take(l as int), l as int);
                }
                let item = vstd::slice::slice_to_vec(&bytes[i..i + l]);
                let rec = DiscoveryRecord { bytes: item };
                let ghost prev_views = record_views(recs@);
                recs.push(rec);
                proof {
                    assert(record_views(recs@) =~= prev_views.push(s.take(l as int)));
                    assert(s.skip(l as int) =~= bytes@.skip(i + l));
                    match split_items(bytes@.skip(i + l)) {
                        None => {
                            assert(split_items(s) is None);
                        },
                        Some(rest) => {
                            assert(split_items(s) == Some(seq![s.take(l as int)] + rest));
                            assert(prev_views + (seq![s.take(l as int)] + rest)
                                =~= record_views(recs@) + rest);
                        },
                    }
                }
                i = i + l;
            },
        }
    }
    proof {
        assert(bytes@.skip(n as int) =~= Seq::<u8>::empty());
        assert(split_items(Seq::<u8>::empty()) == Some(Seq::<Seq<u8>>::empty()));
        assert(record_views(recs@) + Seq::<Seq<u8>>::empty() =~= record_views(recs@));
    }
    Ok(recs)
}

/// Splitting the concatenation of well-formed items recovers exactly
/// those items, in order.
pub proof fn lemma_split_of_payload(items: Seq<Seq<u8>>)
    requires
        forall|i: int| 0 <= i < items.len() ==> wf_item(#[trigger] items[i]),
    ensures
        split_items(payload(items)) == Some(items),
    decreases items.len(),
{
    if items.len() == 0 {
        assert(items =~= Seq::<Seq<u8>>::empty());
        assert(split_items(payload(items)) == Some(Seq::<Seq<u8>>::empty()));
    } else {
        let b = items.first();
        let rest = items.drop_first();
        assert(wf_item(items[0]));
        let pb = payload(items);
        lemma_item_len_bounds(b);
        assert(b.take(b.len() as int) =~= b);
        assert(pb.take(b.len() as int) =~= b);
        lemma_item_len_prefix(b, pb, b.len() as int);
        assert(pb.skip(b.len() as int) =~= payload(rest));
        assert forall|i: int| 0 <= i < rest.len() implies wf_item(#[trigger] rest[i]) by {
            assert(rest[i] == items[i + 1]);
        }
        lemma_split_of_payload(rest);
        assert(split_items(pb) == Some(seq![b] + rest));
        assert(seq![b] + rest =~= items);
    }
}

/// Round-trip law: decoding the encoding of any sequence of
/// well-formed records yields that same sequence, element for element
/// and in the same order. The length bound only keeps the list header
/// within what a machine word can address.
pub proof fn lemma_round_trip(items: Seq<Seq<u8>>)
    requires
        forall|i: int| 0 <= i < items.len() ==> wf_item(#[trigger] items[i]),
        payload(items).len() < 0x10000000000000000,
    ensures
        decode_spec(encode_spec(items)) == Some(items),
{
    let p = payload(items);
    let pl = p.len();
    let b = encode_spec(items);
    lemma_split_of_payload(items);
    if pl < 56 {
        assert(b[0] == (0xc0 + pl) as u8);
        assert(list_payload_bounds(b) == Some((1int, pl as int)));
        assert(b.len() == 1 + pl);
        assert(b.skip(1) =~= p);
    } else {
        let size = be_bytes(pl as nat);
        lemma_be_bytes_first_nonzero(pl as nat);
        lemma_pow256_values();
        lemma_be_bytes_len(pl as nat, 8);
        lemma_be_val_of_be_bytes(pl as nat);
        let ll = size.len() as int;
        assert(b[0] == (0xf7 + size.len()) as u8);
        assert(b.subrange(1, 1 + ll) =~= size);
        assert(list_payload_bounds(b) == Some((1 + ll, pl as int)));
        assert(b.len() == 1 + ll + pl);
        assert(b.skip(1 + ll) =~= p);
    }
}

/// Empty-list identity: the empty sequence encodes to the single list
/// byte `0xc0`, which decodes back to the empty sequence, and the
/// empty blob also decodes to the empty sequence.
pub proof fn lemma_empty_list_identity()
    ensures
        encode_spec(Seq::<Seq<u8>>::empty()) == seq![0xc0u8],
        decode_spec(seq![0xc0u8]) == Some(Seq::<Seq<u8>>::empty()),
        decode_spec(Seq::<u8>::empty()) == Some(Seq::<Seq<u8>>::empty()),
{
    assert(payload(Seq::<Seq<u8>>::empty()) == Seq::<u8>::empty());
    assert(encode_spec(Seq::<Seq<u8>>::empty()) =~= seq![0xc0u8]);
    let b = seq![0xc0u8];
    assert(b[0] == 0xc0);
    assert(list_payload_bounds(b) == Some((1int, 0int)));
    assert(b.skip(1) =~= Seq::<u8>::empty());
    assert(split_items(Seq::<u8>::empty()) == Some(Seq::<Seq<u8>>::empty()));
}

} // verus!
