//! The record store: a fixed directory of buckets, each heading a chain of
//! variable-length records, over the free-space manager. A record's
//! identity is its key; deletion splices the chain or leaves a tombstone
//! that a per-chain dead-record threshold later reclaims.

use vstd::prelude::*;
use crate::errors::Error;
use crate::flags::StoreFlags;
use crate::hash::{hash_key, spec_hash};
use crate::space::{free_after_allocate, size_after_allocate, Space, Span};

verus! {

/// Bytes of per-record metadata in the simulated file: total length, key
/// length, chain-next offset and the tombstone word.
pub const RECORD_HEADER_LEN: u64 = 24;

/// Bytes of file header before the bucket directory.
pub const FILE_HEADER_LEN: u64 = 64;

/// Bytes of one bucket-directory slot.
pub const BUCKET_PTR_LEN: u64 = 4;

/// One record of a bucket chain: the key and value bytes, the tombstone
/// bit, and the span of simulated file space the record occupies.
pub struct Record {
    /// The key bytes; a record's identity.
    pub key: Vec<u8>,
    /// The value bytes.
    pub value: Vec<u8>,
    /// Whether the record is a tombstone: logically deleted, its span kept
    /// until the chain is purged.
    pub dead: bool,
    /// Offset of the record's span in the simulated file.
    pub off: u64,
    /// Allocated length of the span; at least the record's need.
    pub cap: u64,
}

/// The file space a record with this key and value needs.
pub open spec fn rec_need(key: Seq<u8>, value: Seq<u8>) -> int {
    RECORD_HEADER_LEN + key.len() + value.len()
}

/// Whether chain position `j` holds a live record with key `k`.
pub open spec fn live_at(c: Seq<Record>, j: int, k: Seq<u8>) -> bool {
    0 <= j < c.len() && !c[j].dead && c[j].key@ == k
}

/// Whether the chain holds a live record with key `k`.
pub open spec fn chain_has(c: Seq<Record>, k: Seq<u8>) -> bool {
    exists|j: int| live_at(c, j, k)
}

/// The value of the live record with key `k`; meaningful when the chain
/// holds exactly one such record.
pub open spec fn chain_value(c: Seq<Record>, k: Seq<u8>) -> Seq<u8> {
    c[choose|j: int| live_at(c, j, k)].value@
}

/// No two live records of the chain share a key.
pub open spec fn chain_unique(c: Seq<Record>) -> bool {
    forall|j1: int, j2: int|
        0 <= j1 < c.len() && 0 <= j2 < c.len() && !(#[trigger] c[j1]).dead && !(#[trigger] c[j2]).dead
            && c[j1].key@ == c[j2].key@ ==> j1 == j2
}

/// In a chain without duplicate live keys, the live record at `j` is the
/// one a lookup of its key finds.
pub proof fn lemma_chain_value_at(c: Seq<Record>, j: int, k: Seq<u8>)
    requires
        chain_unique(c),
        live_at(c, j, k),
    ensures
        chain_has(c, k),
        chain_value(c, k) == c[j].value@,
{
    assert(chain_has(c, k));
    let jj = choose|x: int| live_at(c, x, k);
    assert(live_at(c, jj, k));
}

/// Replacing the live record of key `k` in place keeps every other key's
/// content and the chain's uniqueness.
pub proof fn lemma_chain_set(c: Seq<Record>, j: int, r: Record, k: Seq<u8>)
    requires
        chain_unique(c),
        live_at(c, j, k),
        !r.dead,
        r.key@ == k,
    ensures
        chain_unique(c.update(j, r)),
        chain_has(c.update(j, r), k),
        chain_value(c.update(j, r), k) == r.value@,
        forall|k2: Seq<u8>| k2 != k ==> (chain_has(c.update(j, r), k2) <==> chain_has(c, k2)),
        forall|k2: Seq<u8>|
            k2 != k && chain_has(c, k2) ==> chain_value(c.update(j, r), k2) == chain_value(c, k2),
{
    let c2 = c.update(j, r);
    assert(live_at(c2, j, k));
    lemma_chain_value_at(c2, j, k);
    assert forall|k2: Seq<u8>| k2 != k implies (chain_has(c2, k2) <==> chain_has(c, k2)) by {
        if chain_has(c2, k2) {
            let x = choose|x: int| live_at(c2, x, k2);
            assert(x != j);
            assert(live_at(c, x, k2));
        }
        if chain_has(c, k2) {
            let x = choose|x: int| live_at(c, x, k2);
            assert(x != j);
            assert(live_at(c2, x, k2));
        }
    }
    assert forall|k2: Seq<u8>| k2 != k && chain_has(c, k2) implies chain_value(c2, k2)
        == chain_value(c, k2) by {
        let x = choose|x: int| live_at(c, x, k2);
        assert(x != j);
        assert(live_at(c2, x, k2));
        lemma_chain_value_at(c, x, k2);
        lemma_chain_value_at(c2, x, k2);
    }
}

/// Splicing the live record of key `k` out at `j` and putting a fresh
/// record for `k` at the chain's head keeps every other key's content.
pub proof fn lemma_chain_replace(c: Seq<Record>, j: int, r: Record, k: Seq<u8>)
    requires
        chain_unique(c),
        live_at(c, j, k),
        !r.dead,
        r.key@ == k,
    ensures
        chain_unique(seq![r] + c.remove(j)),
        chain_has(seq![r] + c.remove(j), k),
        chain_value(seq![r] + c.remove(j), k) == r.value@,
        forall|k2: Seq<u8>|
            k2 != k ==> (chain_has(seq![r] + c.remove(j), k2) <==> chain_has(c, k2)),
        forall|k2: Seq<u8>|
            k2 != k && chain_has(c, k2) ==> chain_value(seq![r] + c.remove(j), k2)
                == chain_value(c, k2),
{
    let c2 = seq![r] + c.remove(j);
    assert forall|x: int| 1 <= x < c2.len() implies c2[x] == (if x - 1 < j {
        c[x - 1]
    } else {
        c[x]
    }) by {}
    assert(chain_unique(c2)) by {
        assert forall|x1: int, x2: int|
            0 <= x1 < c2.len() && 0 <= x2 < c2.len() && !c2[x1].dead && !c2[x2].dead
                && c2[x1].key@ == c2[x2].key@ implies x1 == x2 by {
            if x1 >= 1 && x2 >= 1 {
                let y1: int = if x1 - 1 < j { x1 - 1 } else { x1 };
                let y2: int = if x2 - 1 < j { x2 - 1 } else { x2 };
                assert(c2[x1] == c[y1] && c2[x2] == c[y2]);
            } else if x1 == 0 && x2 >= 1 {
                let y2: int = if x2 - 1 < j { x2 - 1 } else { x2 };
                assert(c2[x2] == c[y2]);
                assert(y2 != j);
                assert(live_at(c, y2, k));
            } else if x2 == 0 && x1 >= 1 {
                let y1: int = if x1 - 1 < j { x1 - 1 } else { x1 };
                assert(c2[x1] == c[y1]);
                assert(y1 != j);
                assert(live_at(c, y1, k));
            }
        }
    }
    assert(live_at(c2, 0, k));
    lemma_chain_value_at(c2, 0, k);
    assert forall|k2: Seq<u8>| k2 != k implies (chain_has(c2, k2) <==> chain_has(c, k2)) by {
        if chain_has(c2, k2) {
            let x = choose|x: int| live_at(c2, x, k2);
            assert(x != 0);
            let y: int = if x - 1 < j { x - 1 } else { x };
            assert(live_at(c, y, k2));
        }
        if chain_has(c, k2) {
            let y = choose|y: int| live_at(c, y, k2);
            assert(y != j);
            let x: int = if y < j { y + 1 } else { y };
            assert(c2[x] == c[y]);
            assert(live_at(c2, x, k2));
        }
    }
    assert forall|k2: Seq<u8>| k2 != k && chain_has(c, k2) implies chain_value(c2, k2)
        == chain_value(c, k2) by {
        let y = choose|y: int| live_at(c, y, k2);
        assert(y != j);
        let x: int = if y < j { y + 1 } else { y };
        assert(c2[x] == c[y]);
        assert(live_at(c2, x, k2));
        lemma_chain_value_at(c, y, k2);
        lemma_chain_value_at(c2, x, k2);
    }
}

/// Putting a fresh record for an absent key `k` at the chain's head keeps
/// every other key's content.
pub proof fn lemma_chain_insert(c: Seq<Record>, r: Record, k: Seq<u8>)
    requires
        chain_unique(c),
        !chain_has(c, k),
        !r.dead,
        r.key@ == k,
    ensures
        chain_unique(seq![r] + c),
        chain_has(seq![r] + c, k),
        chain_value(seq![r] + c, k) == r.value@,
        forall|k2: Seq<u8>| k2 != k ==> (chain_has(seq![r] + c, k2) <==> chain_has(c, k2)),
        forall|k2: Seq<u8>|
            k2 != k && chain_has(c, k2) ==> chain_value(seq![r] + c, k2) == chain_value(c, k2),
{
    let c2 = seq![r] + c;
    assert forall|x: int| 1 <= x < c2.len() implies c2[x] == c[x - 1] by {}
    assert(chain_unique(c2)) by {
        assert forall|x1: int, x2: int|
            0 <= x1 < c2.len() && 0 <= x2 < c2.len() && !c2[x1].dead && !c2[x2].dead
                && c2[x1].key@ == c2[x2].key@ implies x1 == x2 by {
            if x1 == 0 && x2 >= 1 {
                assert(live_at(c, x2 - 1, k));
            } else if x2 == 0 && x1 >= 1 {
                assert(live_at(c, x1 - 1, k));
            }
        }
    }
    assert(live_at(c2, 0, k));
    lemma_chain_value_at(c2, 0, k);
    assert forall|k2: Seq<u8>| k2 != k implies (chain_has(c2, k2) <==> chain_has(c, k2)) by {
        if chain_has(c2, k2) {
            let x = choose|x: int| live_at(c2, x, k2);
            assert(x != 0);
            assert(live_at(c, x - 1, k2));
        }
        if chain_has(c, k2) {
            let y = choose|y: int| live_at(c, y, k2);
            assert(c2[y + 1] == c[y]);
            assert(live_at(c2, y + 1, k2));
        }
    }
    assert forall|k2: Seq<u8>| k2 != k && chain_has(c, k2) implies chain_value(c2, k2)
        == chain_value(c, k2) by {
        let y = choose|y: int| live_at(c, y, k2);
        assert(c2[y + 1] == c[y]);
        assert(live_at(c2, y + 1, k2));
        lemma_chain_value_at(c, y, k2);
        lemma_chain_value_at(c2, y + 1, k2);
    }
}

/// Marking the live record of key `k` dead takes exactly `k` out of the
/// chain's live content.
pub proof fn lemma_chain_kill(c: Seq<Record>, j: int, r: Record, k: Seq<u8>)
    requires
        chain_unique(c),
        live_at(c, j, k),
        r.dead,
    ensures
        chain_unique(c.update(j, r)),
        !chain_has(c.update(j, r), k),
        forall|k2: Seq<u8>| k2 != k ==> (chain_has(c.update(j, r), k2) <==> chain_has(c, k2)),
        forall|k2: Seq<u8>|
            k2 != k && chain_has(c, k2) ==> chain_value(c.update(j, r), k2) == chain_value(c, k2),
{
    let c2 = c.update(j, r);
    assert(!chain_has(c2, k)) by {
        if chain_has(c2, k) {
            let x = choose|x: int| live_at(c2, x, k);
            assert(x != j);
            assert(live_at(c, x, k));
        }
    }
    assert forall|k2: Seq<u8>| k2 != k implies (chain_has(c2, k2) <==> chain_has(c, k2)) by {
        if chain_has(c2, k2) {
            let x = choose|x: int| live_at(c2, x, k2);
            assert(x != j);
            assert(live_at(c, x, k2));
        }
        if chain_has(c, k2) {
            let x = choose|x: int| live_at(c, x, k2);
            assert(x != j);
            assert(live_at(c2, x, k2));
        }
    }
    assert forall|k2: Seq<u8>| k2 != k && chain_has(c, k2) implies chain_value(c2, k2)
        == chain_value(c, k2) by {
        let x = choose|x: int| live_at(c, x, k2);
        assert(x != j);
        assert(live_at(c2, x, k2));
        lemma_chain_value_at(c, x, k2);
        lemma_chain_value_at(c2, x, k2);
    }
}

/// Splicing the live record of key `k` out at `j` takes exactly `k` out
/// of the chain's live content.
pub proof fn lemma_chain_remove_live(c: Seq<Record>, j: int, k: Seq<u8>)
    requires
        chain_unique(c),
        live_at(c, j, k),
    ensures
        chain_unique(c.remove(j)),
        !chain_has(c.remove(j), k),
        forall|k2: Seq<u8>| k2 != k ==> (chain_has(c.remove(j), k2) <==> chain_has(c, k2)),
        forall|k2: Seq<u8>|
            k2 != k && chain_has(c, k2) ==> chain_value(c.remove(j), k2) == chain_value(c, k2),
{
    let c2 = c.remove(j);
    assert forall|x: int| 0 <= x < c2.len() implies c2[x] == (if x < j {
        c[x]
    } else {
        c[x + 1]
    }) by {}
    assert(chain_unique(c2)) by {
        assert forall|x1: int, x2: int|
            0 <= x1 < c2.len() && 0 <= x2 < c2.len() && !c2[x1].dead && !c2[x2].dead
                && c2[x1].key@ == c2[x2].key@ implies x1 == x2 by {
            let y1: int = if x1 < j { x1 } else { x1 + 1 };
            let y2: int = if x2 < j { x2 } else { x2 + 1 };
            assert(c2[x1] == c[y1] && c2[x2] == c[y2]);
        }
    }
    assert(!chain_has(c2, k)) by {
        if chain_has(c2, k) {
            let x = choose|x: int| live_at(c2, x, k);
            let y: int = if x < j { x } else { x + 1 };
            assert(live_at(c, y, k));
            assert(y != j);
        }
    }
    assert forall|k2: Seq<u8>| k2 != k implies (chain_has(c2, k2) <==> chain_has(c, k2)) by {
        if chain_has(c2, k2) {
            let x = choose|x: int| live_at(c2, x, k2);
            let y: int = if x < j { x } else { x + 1 };
            assert(live_at(c, y, k2));
        }
        if chain_has(c, k2) {
            let y = choose|y: int| live_at(c, y, k2);
            assert(y != j);
            let x: int = if y < j { y } else { y - 1 };
            assert(c2[x] == c[y]);
            assert(live_at(c2, x, k2));
        }
    }
    assert forall|k2: Seq<u8>| k2 != k && chain_has(c, k2) implies chain_value(c2, k2)
        == chain_value(c, k2) by {
        let y = choose|y: int| live_at(c, y, k2);
        assert(y != j);
        let x: int = if y < j { y } else { y - 1 };
        assert(c2[x] == c[y]);
        assert(live_at(c2, x, k2));
        lemma_chain_value_at(c, y, k2);
        lemma_chain_value_at(c2, x, k2);
    }
}

/// Splicing a dead record out changes no key's live content at all.
pub proof fn lemma_chain_remove_dead(c: Seq<Record>, j: int)
    requires
        chain_unique(c),
        0 <= j < c.len(),
        c[j].dead,
    ensures
        chain_unique(c.remove(j)),
        forall|k2: Seq<u8>| chain_has(c.remove(j), k2) <==> chain_has(c, k2),
        forall|k2: Seq<u8>|
            chain_has(c, k2) ==> chain_value(c.remove(j), k2) == chain_value(c, k2),
{
    let c2 = c.remove(j);
    assert forall|x: int| 0 <= x < c2.len() implies c2[x] == (if x < j {
        c[x]
    } else {
        c[x + 1]
    }) by {}
    assert(chain_unique(c2)) by {
        assert forall|x1: int, x2: int|
            0 <= x1 < c2.len() && 0 <= x2 < c2.len() && !c2[x1].dead && !c2[x2].dead
                && c2[x1].key@ == c2[x2].key@ implies x1 == x2 by {
            let y1: int = if x1 < j { x1 } else { x1 + 1 };
            let y2: int = if x2 < j { x2 } else { x2 + 1 };
            assert(c2[x1] == c[y1] && c2[x2] == c[y2]);
        }
    }
    assert forall|k2: Seq<u8>| (chain_has(c2, k2) <==> chain_has(c, k2)) by {
        if chain_has(c2, k2) {
            let x = choose|x: int| live_at(c2, x, k2);
            let y: int = if x < j { x } else { x + 1 };
            assert(live_at(c, y, k2));
        }
        if chain_has(c, k2) {
            let y = choose|y: int| live_at(c, y, k2);
            assert(y != j);
            let x: int = if y < j { y } else { y - 1 };
            assert(c2[x] == c[y]);
            assert(live_at(c2, x, k2));
        }
    }
    assert forall|k2: Seq<u8>| chain_has(c, k2) implies chain_value(c2, k2) == chain_value(
        c,
        k2,
    ) by {
        let y = choose|y: int| live_at(c, y, k2);
        assert(y != j);
        let x: int = if y < j { y } else { y - 1 };
        assert(c2[x] == c[y]);
        assert(live_at(c2, x, k2));
        lemma_chain_value_at(c, y, k2);
        lemma_chain_value_at(c2, x, k2);
    }
}

/// The record store of one database (or of one transaction's shadow).
pub struct Table {
    /// The hash directory: bucket `i` heads the chain of the records whose
    /// key digest falls in class `i`.
    pub buckets: Vec<Vec<Record>>,
    /// The free-space manager for the simulated file behind the records.
    pub space: Space,
    /// Whether keys are hashed with the improved variant.
    pub improved_hash: bool,
}

impl Table {
    /// The bucket count; fixed at creation.
    pub open spec fn n(self) -> int {
        self.buckets@.len() as int
    }

    /// The chain headed by bucket `i`.
    pub open spec fn chain(self, i: int) -> Seq<Record> {
        self.buckets@[i]@
    }

    /// The bucket a key's digest selects.
    pub open spec fn bucket_of(self, k: Seq<u8>) -> int {
        spec_hash(k, self.improved_hash) as int % self.n()
    }

    /// Whether a live record with key `k` is present.
    pub open spec fn spec_contains(self, k: Seq<u8>) -> bool {
        chain_has(self.chain(self.bucket_of(k)), k)
    }

    /// The value stored under key `k`, when present.
    pub open spec fn spec_value(self, k: Seq<u8>) -> Seq<u8> {
        chain_value(self.chain(self.bucket_of(k)), k)
    }

    /// The mathematical content of the store: the map from the live keys
    /// to their values.
    pub open spec fn as_map(self) -> Map<Seq<u8>, Seq<u8>> {
        Map::new(|k: Seq<u8>| self.spec_contains(k), |k: Seq<u8>| self.spec_value(k))
    }

    /// Record `j` of chain `i` is in the right chain and owns a span of
    /// the allocatable area big enough for its bytes.
    pub open spec fn rec_ok(self, i: int, j: int) -> bool {
        let r = self.chain(i)[j];
        &&& spec_hash(r.key@, self.improved_hash) as int % self.n() == i
        &&& r.off >= self.space.base
        &&& r.off + r.cap <= self.space.map_size
        &&& r.cap >= rec_need(r.key@, r.value@)
    }

    /// Well-formedness: the directory is non-empty and addressable, every
    /// record sits in the chain its key hashes to with a span inside the
    /// file, live keys are unique within a chain, and the free-space
    /// manager is itself well formed.
    pub open spec fn wf(self) -> bool {
        &&& 0 < self.n() <= u32::MAX
        &&& self.space.wf()
        &&& forall|i: int, j: int|
            0 <= i < self.n() && 0 <= j < self.chain(i).len() ==> #[trigger] self.rec_ok(i, j)
        &&& forall|i: int| 0 <= i < self.n() ==> chain_unique(#[trigger] self.chain(i))
    }

    /// A fresh, empty table with `n` buckets.
    pub fn new(n: u32, improved_hash: bool) -> (r: Table)
        requires
            n >= 1,
        ensures
            r.wf(),
            r.n() == n,
            r.improved_hash == improved_hash,
            r.as_map() == Map::<Seq<u8>, Seq<u8>>::empty(),
            r.space.free@.len() == 0,
            r.space.map_size == r.space.base,
            r.space.base == FILE_HEADER_LEN + BUCKET_PTR_LEN * n,
    {
        let mut buckets: Vec<Vec<Record>> = Vec::new();
        let mut i: u32 = 0;
        while i < n
            invariant
                i <= n,
                buckets@.len() == i,
                forall|b: int| 0 <= b < i ==> #[trigger] buckets@[b]@.len() == 0,
            decreases n - i,
        {
            buckets.push(Vec::new());
            i = i + 1;
        }
        let base = FILE_HEADER_LEN + BUCKET_PTR_LEN * (n as u64);
        let r = Table { buckets, space: Space::new(base), improved_hash };
        proof {
            lemma_empty_map(r);
        }
        r
    }

    /// Look a key up and hand back an owned copy of its value, or nothing
    /// when no live record holds the key.
    pub fn fetch(&self, key: &[u8]) -> (r: Option<Vec<u8>>)
        requires
            self.wf(),
        ensures
            match r {
                Some(v) => self.spec_contains(key@) && v@ == self.spec_value(key@),
                None => !self.spec_contains(key@),
            },
    {
        let b = self.bucket_index(key);
        match find_live(&self.buckets[b], key) {
            Some(j) => {
                proof {
                    lemma_chain_value_at(self.chain(b as int), j as int, key@);
                }
                Some(copy_bytes(self.buckets[b][j].value.as_slice()))
            },
            None => None,
        }
    }

    /// Whether a live record holds the key.
    pub fn exists_key(&self, key: &[u8]) -> (r: bool)
        requires
            self.wf(),
        ensures
            r == self.spec_contains(key@),
    {
        let b = self.bucket_index(key);
        find_live(&self.buckets[b], key).is_some()
    }

    /// Whether the new value fits in the span the key's live record
    /// already owns, so a store can mutate in place.
    pub open spec fn fits_in_place(self, k: Seq<u8>, v: Seq<u8>) -> bool {
        self.spec_contains(k) && self.chain(self.bucket_of(k))[choose|j: int|
            live_at(self.chain(self.bucket_of(k)), j, k)].cap >= rec_need(k, v)
    }

    /// Whether a create-or-replace of `k` with `v` can succeed: in place,
    /// or with a fresh span from the free-space manager.
    pub open spec fn upsert_ok(self, k: Seq<u8>, v: Seq<u8>) -> bool {
        self.fits_in_place(k, v) || self.space.can_allocate(rec_need(k, v))
    }

    /// The freelist after a successful create-or-replace of `k` with
    /// `v`: untouched by an in-place replace; otherwise the allocation
    /// consumes its first-fit span, and a replace that could not stay in
    /// place returns the old record's span.
    pub open spec fn free_after_upsert(self, k: Seq<u8>, v: Seq<u8>) -> Seq<Span> {
        if self.fits_in_place(k, v) {
            self.space.free@
        } else if self.spec_contains(k) {
            let c = self.chain(self.bucket_of(k));
            let j = choose|j: int| live_at(c, j, k);
            free_after_allocate(self.space, rec_need(k, v)).push(
                Span { off: c[j].off, len: c[j].cap },
            )
        } else {
            free_after_allocate(self.space, rec_need(k, v))
        }
    }

    /// The file size after a successful create-or-replace of `k` with
    /// `v`.
    pub open spec fn size_after_upsert(self, k: Seq<u8>, v: Seq<u8>) -> int {
        if self.fits_in_place(k, v) {
            self.space.map_size as int
        } else {
            size_after_allocate(self.space, rec_need(k, v))
        }
    }

    /// Create or replace: bind `k` to `v`. On replace the value is
    /// mutated in place when it fits the record's span; otherwise the old
    /// record is spliced out, its span returned to the freelist, and a
    /// fresh record linked in at the chain's head. Fails with `OOM`
    /// exactly when no space can be had, leaving the table unchanged.
    pub fn upsert(&mut self, key: &[u8], value: Vec<u8>) -> (r: Result<(), Error>)
        requires
            old(self).wf(),
            rec_need(key@, value@) <= u64::MAX,
        ensures
            final(self).wf(),
            final(self).n() == old(self).n(),
            final(self).improved_hash == old(self).improved_hash,
            final(self).space.base == old(self).space.base,
            r is Ok <==> old(self).upsert_ok(key@, value@),
            r is Ok ==> final(self).as_map() == old(self).as_map().insert(key@, value@),
            r is Ok ==> final(self).space.map_size <= old(self).space.map_size + rec_need(
                key@,
                value@,
            ),
            r is Ok ==> final(self).space.free@ == old(self).free_after_upsert(key@, value@)
                && final(self).space.map_size == old(self).size_after_upsert(key@, value@),
            r is Err ==> *final(self) == *old(self) && r == Err::<(), Error>(Error::OOM),
    {
        let ghost o = *old(self);
        let ghost kk = key@;
        let ghost vv = value@;
        let need = RECORD_HEADER_LEN + (key.len() as u64) + (value.len() as u64);
        let b = self.bucket_index(key);
        let ghost c = o.chain(b as int);
        match find_live(&self.buckets[b], key) {
            Some(j) => {
                proof {
                    assert(o.rec_ok(b as int, j as int));
                    let jj = choose|x: int| live_at(c, x, kk);
                    assert(live_at(c, jj, kk));
                    assert(jj == j as int);
                }
                let cap = self.buckets[b][j].cap;
                let off = self.buckets[b][j].off;
                if cap >= need {
                    let newrec = Record { key: copy_bytes(key), value, dead: false, off, cap };
                    let ghost nr = newrec;
                    chain_set(&mut self.buckets, b, j, newrec);
                    proof {
                        lemma_chain_set(c, j as int, nr, kk);
                        assert(self.chain(b as int) == c.update(j as int, nr));
                        assert forall|i: int, j2: int|
                            0 <= i < self.n() && 0 <= j2 < self.chain(i).len() implies #[trigger]
                            self.rec_ok(i, j2) by {
                            if i == b as int {
                                assert(o.rec_ok(i, j2));
                            } else {
                                assert(self.chain(i) == o.chain(i));
                                assert(o.rec_ok(i, j2));
                            }
                        }
                        assert forall|i: int| 0 <= i < self.n() implies chain_unique(
                            #[trigger] self.chain(i),
                        ) by {
                            if i != b as int {
                                assert(self.chain(i) == o.chain(i));
                            }
                        }
                        lemma_map_insert(o, *self, kk, vv);
                    }
                    Ok(())
                } else {
                    match self.space.allocate(need) {
                        Err(e) => {
                            proof {
                                assert(*self == o);
                                assert(!o.fits_in_place(kk, vv));
                            }
                            Err(e)
                        },
                        Ok(noff) => {
                            let oldrec = chain_remove(&mut self.buckets, b, j);
                            let newrec = Record {
                                key: copy_bytes(key),
                                value,
                                dead: false,
                                off: noff,
                                cap: need,
                            };
                            let ghost nr = newrec;
                            chain_push_front(&mut self.buckets, b, newrec);
                            proof {
                                assert(oldrec == c[j as int]);
                            }
                            self.space.free_span(oldrec.off, oldrec.cap);
                            proof {
                                lemma_chain_replace(c, j as int, nr, kk);
                                assert(self.chain(b as int) == seq![nr] + c.remove(j as int));
                                let c2 = self.chain(b as int);
                                assert forall|x: int| 1 <= x < c2.len() implies c2[x] == (if x - 1
                                    < j as int {
                                    c[x - 1]
                                } else {
                                    c[x]
                                }) by {}
                                assert forall|i: int, j2: int|
                                    0 <= i < self.n() && 0 <= j2 < self.chain(i).len() implies #[trigger]
                                    self.rec_ok(i, j2) by {
                                    if i == b as int {
                                        if j2 >= 1 {
                                            let y: int = if j2 - 1 < j as int {
                                                j2 - 1
                                            } else {
                                                j2
                                            };
                                            assert(self.chain(i)[j2] == c[y]);
                                            assert(o.rec_ok(i, y));
                                        }
                                    } else {
                                        assert(self.chain(i) == o.chain(i));
                                        assert(o.rec_ok(i, j2));
                                    }
                                }
                                assert forall|i: int| 0 <= i < self.n() implies chain_unique(
                                    #[trigger] self.chain(i),
                                ) by {
                                    if i != b as int {
                                        assert(self.chain(i) == o.chain(i));
                                    }
                                }
                                lemma_map_insert(o, *self, kk, vv);
                            }
                            Ok(())
                        },
                    }
                }
            },
            None => {
                match self.space.allocate(need) {
                    Err(e) => {
                        proof {
                            assert(*self == o);
                            assert(!o.fits_in_place(kk, vv));
                        }
                        Err(e)
                    },
                    Ok(noff) => {
                        let newrec = Record {
                            key: copy_bytes(key),
                            value,
                            dead: false,
                            off: noff,
                            cap: need,
                        };
                        let ghost nr = newrec;
                        chain_push_front(&mut self.buckets, b, newrec);
                        proof {
                            lemma_chain_insert(c, nr, kk);
                            assert(self.chain(b as int) == seq![nr] + c);
                            let c2 = self.chain(b as int);
                            assert forall|x: int| 1 <= x < c2.len() implies c2[x] == c[x - 1] by {}
                            assert forall|i: int, j2: int|
                                0 <= i < self.n() && 0 <= j2 < self.chain(i).len() implies #[trigger]
                                self.rec_ok(i, j2) by {
                                if i == b as int {
                                    if j2 >= 1 {
                                        assert(self.chain(i)[j2] == c[j2 - 1]);
                                        assert(o.rec_ok(i, j2 - 1));
                                    }
                                } else {
                                    assert(self.chain(i) == o.chain(i));
                                    assert(o.rec_ok(i, j2));
                                }
                            }
                            assert forall|i: int| 0 <= i < self.n() implies chain_unique(
                                #[trigger] self.chain(i),
                            ) by {
                                if i != b as int {
                                    assert(self.chain(i) == o.chain(i));
                                }
                            }
                            lemma_map_insert(o, *self, kk, vv);
                        }
                        Ok(())
                    },
                }
            },
        }
    }

    /// Store a key/value pair under a store mode: the default (or
    /// `Replace`) creates or overwrites; `Insert` refuses a present key
    /// with `Exists`; `Modify` refuses an absent key with `NoExist`.
    pub fn store(&mut self, key: &[u8], value: &[u8], mode: Option<StoreFlags>) -> (r: Result<
        (),
        Error,
    >)
        requires
            old(self).wf(),
            rec_need(key@, value@) <= u64::MAX,
        ensures
            final(self).wf(),
            final(self).n() == old(self).n(),
            final(self).improved_hash == old(self).improved_hash,
            final(self).space.base == old(self).space.base,
            (mode matches Some(StoreFlags::Insert)) && old(self).spec_contains(key@) ==> r
                == Err::<(), Error>(Error::Exists) && *final(self) == *old(self),
            (mode matches Some(StoreFlags::Modify)) && !old(self).spec_contains(key@) ==> r
                == Err::<(), Error>(Error::NoExist) && *final(self) == *old(self),
            !((mode matches Some(StoreFlags::Insert)) && old(self).spec_contains(key@)) && !((
            mode matches Some(StoreFlags::Modify)) && !old(self).spec_contains(key@)) ==> {
                &&& r is Ok <==> old(self).upsert_ok(key@, value@)
                &&& (r is Ok ==> final(self).as_map() == old(self).as_map().insert(key@, value@))
                &&& (r is Ok ==> final(self).space.map_size <= old(self).space.map_size
                    + rec_need(key@, value@))
                &&& (r is Ok ==> final(self).space.free@ == old(self).free_after_upsert(
                    key@,
                    value@,
                ) && final(self).space.map_size == old(self).size_after_upsert(key@, value@))
                &&& (r is Err ==> *final(self) == *old(self) && r == Err::<(), Error>(Error::OOM))
            },
    {
        match mode {
            Some(StoreFlags::Insert) => {
                if self.exists_key(key) {
                    return Err(Error::Exists);
                }
            },
            Some(StoreFlags::Modify) => {
                if !self.exists_key(key) {
                    return Err(Error::NoExist);
                }
            },
            _ => {},
        }
        self.upsert(key, copy_bytes(value))
    }

    /// Append bytes to a key's value, treating an absent key as holding
    /// the empty value.
    pub fn append(&mut self, key: &[u8], value: &[u8]) -> (r: Result<(), Error>)
        requires
            old(self).wf(),
            rec_need(key@, appended_value(old(self).as_map(), key@, value@)) <= u64::MAX,
        ensures
            final(self).wf(),
            final(self).n() == old(self).n(),
            final(self).improved_hash == old(self).improved_hash,
            final(self).space.base == old(self).space.base,
            r is Ok <==> old(self).upsert_ok(
                key@,
                appended_value(old(self).as_map(), key@, value@),
            ),
            r is Ok ==> final(self).as_map() == old(self).as_map().insert(
                key@,
                appended_value(old(self).as_map(), key@, value@),
            ),
            r is Ok ==> final(self).space.map_size <= old(self).space.map_size + rec_need(
                key@,
                appended_value(old(self).as_map(), key@, value@),
            ),
            r is Ok ==> final(self).space.free@ == old(self).free_after_upsert(
                key@,
                appended_value(old(self).as_map(), key@, value@),
            ) && final(self).space.map_size == old(self).size_after_upsert(
                key@,
                appended_value(old(self).as_map(), key@, value@),
            ),
            r is Err ==> *final(self) == *old(self) && r == Err::<(), Error>(Error::OOM),
    {
        let merged = match self.fetch(key) {
            Some(oldv) => concat_bytes(oldv.as_slice(), value),
            None => copy_bytes(value),
        };
        proof {
            assert(merged@ == appended_value(self.as_map(), key@, value@));
        }
        self.upsert(key, merged)
    }

    /// Delete a key: splice its record out and return the span to the
    /// freelist, or, with a positive dead-record threshold, leave a
    /// tombstone and purge the whole chain once it holds more than
    /// `max_dead` tombstones. Fails with `NoExist` when the key is absent.
    #[verifier::rlimit(60)]
    pub fn delete(&mut self, key: &[u8], max_dead: u32) -> (r: Result<(), Error>)
        requires
            old(self).wf(),
        ensures
            final(self).wf(),
            final(self).n() == old(self).n(),
            final(self).improved_hash == old(self).improved_hash,
            final(self).space.base == old(self).space.base,
            r is Ok <==> old(self).spec_contains(key@),
            r is Ok ==> final(self).as_map() == old(self).as_map().remove(key@),
            final(self).space.map_size == old(self).space.map_size,
            r is Ok && max_dead == 0 ==> ({
                let c = old(self).chain(old(self).bucket_of(key@));
                let j = choose|x: int| live_at(c, x, key@);
                final(self).space.free@ == old(self).space.free@.push(
                    Span { off: c[j].off, len: c[j].cap },
                )
            }),
            r is Ok && max_dead > 0 ==> ({
                let b = old(self).bucket_of(key@);
                let c = old(self).chain(b);
                let j = choose|x: int| live_at(c, x, key@);
                if dead_count_from(c, 0) + 1 > max_dead {
                    (forall|x: int|
                        0 <= x < final(self).chain(b).len() ==> !final(self).chain(b)[x].dead)
                        && final(self).space.free@.len() == old(self).space.free@.len()
                        + dead_count_from(c, 0) + 1
                } else {
                    final(self).space.free@ == old(self).space.free@ && final(self).chain(b)
                        == c.update(j, Record { dead: true, ..c[j] })
                }
            }),
            r is Err ==> *final(self) == *old(self) && r == Err::<(), Error>(Error::NoExist),
    {
        let ghost o = *old(self);
        let ghost kk = key@;
        let b = self.bucket_index(key);
        let ghost c = o.chain(b as int);
        match find_live(&self.buckets[b], key) {
            None => Err(Error::NoExist),
            Some(j) => {
                proof {
                    assert(o.rec_ok(b as int, j as int));
                    let jj = choose|x: int| live_at(c, x, kk);
                    assert(live_at(c, jj, kk));
                    assert(jj == j as int);
                }
                if max_dead == 0 {
                    let r = chain_remove(&mut self.buckets, b, j);
                    self.space.free_span(r.off, r.cap);
                    proof {
                        lemma_chain_remove_live(c, j as int, kk);
                        let c2 = self.chain(b as int);
                        assert forall|x: int| 0 <= x < c2.len() implies c2[x] == (if x < j as int {
                            c[x]
                        } else {
                            c[x + 1]
                        }) by {}
                        assert forall|i: int, j2: int|
                            0 <= i < self.n() && 0 <= j2 < self.chain(i).len() implies #[trigger]
                            self.rec_ok(i, j2) by {
                            if i == b as int {
                                let y: int = if j2 < j as int {
                                    j2
                                } else {
                                    j2 + 1
                                };
                                assert(self.chain(i)[j2] == c[y]);
                                assert(o.rec_ok(i, y));
                            } else {
                                assert(self.chain(i) == o.chain(i));
                                assert(o.rec_ok(i, j2));
                            }
                        }
                        assert forall|i: int| 0 <= i < self.n() implies chain_unique(
                            #[trigger] self.chain(i),
                        ) by {
                            if i != b as int {
                                assert(self.chain(i) == o.chain(i));
                            }
                        }
                        lemma_map_remove(o, *self, kk);
                    }
                    Ok(())
                } else {
                    let mut rec = chain_remove(&mut self.buckets, b, j);
                    rec.dead = true;
                    let ghost dr = rec;
                    chain_insert_at(&mut self.buckets, b, j, rec);
                    proof {
                        assert(self.chain(b as int) =~= c.update(j as int, dr));
                        lemma_chain_kill(c, j as int, dr, kk);
                        assert forall|i: int, j2: int|
                            0 <= i < self.n() && 0 <= j2 < self.chain(i).len() implies #[trigger]
                            self.rec_ok(i, j2) by {
                            if i == b as int {
                                assert(o.rec_ok(i, j2));
                            } else {
                                assert(self.chain(i) == o.chain(i));
                                assert(o.rec_ok(i, j2));
                            }
                        }
                        assert forall|i: int| 0 <= i < self.n() implies chain_unique(
                            #[trigger] self.chain(i),
                        ) by {
                            if i != b as int {
                                assert(self.chain(i) == o.chain(i));
                            }
                        }
                    }
                    let ghost c1 = self.chain(b as int);
                    proof {
                        lemma_dead_count_update(c, j as int, dr, 0);
                        lemma_dead_count_nonneg(c, 0);
                    }
                    let ndead = count_dead(&self.buckets[b]);
                    if ndead > max_dead as usize {
                        self.purge_chain(b);
                    }
                    proof {
                        lemma_map_remove(o, *self, kk);
                    }
                    Ok(())
                }
            },
        }
    }

    /// Splice the tombstone at chain `b`, position `x`, out and return
    /// its span to the freelist.
    fn remove_dead_at(&mut self, b: usize, x: usize)
        requires
            old(self).wf(),
            b < old(self).buckets@.len(),
            x < old(self).chain(b as int).len(),
            old(self).chain(b as int)[x as int].dead,
        ensures
            final(self).wf(),
            final(self).n() == old(self).n(),
            final(self).improved_hash == old(self).improved_hash,
            final(self).space.base == old(self).space.base,
            final(self).space.map_size == old(self).space.map_size,
            final(self).space.free@.len() == old(self).space.free@.len() + 1,
            forall|i: int|
                0 <= i < old(self).n() && i != b ==> final(self).chain(i) == old(self).chain(i),
            final(self).chain(b as int) == old(self).chain(b as int).remove(x as int),
    {
        let ghost o = *old(self);
        let ghost cprev = o.chain(b as int);
        proof {
            assert(self.rec_ok(b as int, x as int));
        }
        let drr = chain_remove(&mut self.buckets, b, x);
        self.space.free_span(drr.off, drr.cap);
        proof {
            lemma_chain_remove_dead(cprev, x as int);
            let c2 = self.chain(b as int);
            assert forall|y: int| 0 <= y < c2.len() implies c2[y] == (if y < x as int {
                cprev[y]
            } else {
                cprev[y + 1]
            }) by {}
            assert forall|i: int, j2: int|
                0 <= i < self.n() && 0 <= j2 < self.chain(i).len() implies #[trigger] self.rec_ok(
                i,
                j2,
            ) by {
                if i == b as int {
                    let y: int = if j2 < x as int {
                        j2
                    } else {
                        j2 + 1
                    };
                    assert(self.chain(i)[j2] == cprev[y]);
                    assert(o.rec_ok(i, y));
                } else {
                    assert(self.chain(i) == o.chain(i));
                    assert(o.rec_ok(i, j2));
                }
            }
            assert forall|i: int| 0 <= i < self.n() implies chain_unique(
                #[trigger] self.chain(i),
            ) by {
                if i != b as int {
                    assert(self.chain(i) == o.chain(i));
                }
            }
        }
    }

    /// Reclaim a chain's tombstones: splice every dead record out and
    /// return its span to the freelist. The chain's live content is
    /// untouched.
    #[verifier::rlimit(60)]
    pub fn purge_chain(&mut self, b: usize)
        requires
            old(self).wf(),
            b < old(self).buckets@.len(),
        ensures
            final(self).wf(),
            final(self).n() == old(self).n(),
            final(self).improved_hash == old(self).improved_hash,
            final(self).space.base == old(self).space.base,
            final(self).space.map_size == old(self).space.map_size,
            forall|x: int|
                0 <= x < final(self).chain(b as int).len() ==> !final(self).chain(b as int)[x].dead,
            final(self).space.free@.len() == old(self).space.free@.len() + dead_count_from(
                old(self).chain(b as int),
                0,
            ),
            chain_need_from(final(self).chain(b as int), 0) == chain_need_from(
                old(self).chain(b as int),
                0,
            ),
            forall|i: int|
                0 <= i < old(self).n() && i != b ==> final(self).chain(i) == old(self).chain(i),
            forall|k2: Seq<u8>|
                chain_has(final(self).chain(b as int), k2) <==> chain_has(
                    old(self).chain(b as int),
                    k2,
                ),
            forall|k2: Seq<u8>|
                chain_has(old(self).chain(b as int), k2) ==> chain_value(
                    final(self).chain(b as int),
                    k2,
                ) == chain_value(old(self).chain(b as int), k2),
    {
        let ghost o = *old(self);
        let ghost c1 = o.chain(b as int);
        let mut x: usize = 0;
        loop
            invariant
                self.wf(),
                self.n() == o.n(),
                self.improved_hash == o.improved_hash,
                self.space.base == o.space.base,
                self.space.map_size == o.space.map_size,
                self.space.free@.len() + dead_count_from(self.chain(b as int), 0)
                    == o.space.free@.len() + dead_count_from(c1, 0),
                chain_need_from(self.chain(b as int), 0) == chain_need_from(c1, 0),
                b < self.buckets@.len(),
                x <= self.chain(b as int).len(),
                forall|i: int| 0 <= i < o.n() && i != b ==> self.chain(i) == o.chain(i),
                forall|y: int| 0 <= y < x ==> !self.chain(b as int)[y].dead,
                forall|k2: Seq<u8>| chain_has(self.chain(b as int), k2) <==> chain_has(c1, k2),
                forall|k2: Seq<u8>|
                    chain_has(c1, k2) ==> chain_value(self.chain(b as int), k2) == chain_value(
                        c1,
                        k2,
                    ),
            ensures
                self.wf(),
                self.n() == o.n(),
                self.improved_hash == o.improved_hash,
                self.space.base == o.space.base,
                self.space.map_size == o.space.map_size,
                self.space.free@.len() == o.space.free@.len() + dead_count_from(c1, 0),
                chain_need_from(self.chain(b as int), 0) == chain_need_from(c1, 0),
                forall|y: int| 0 <= y < self.chain(b as int).len() ==> !self.chain(
                    b as int,
                )[y].dead,
                forall|i: int| 0 <= i < o.n() && i != b ==> self.chain(i) == o.chain(i),
                forall|k2: Seq<u8>| chain_has(self.chain(b as int), k2) <==> chain_has(c1, k2),
                forall|k2: Seq<u8>|
                    chain_has(c1, k2) ==> chain_value(self.chain(b as int), k2) == chain_value(
                        c1,
                        k2,
                    ),
            decreases self.chain(b as int).len() - x,
        {
            if x >= self.buckets[b].len() {
                proof {
                    lemma_dead_count_zero(self.chain(b as int), 0);
                }
                break;
            }
            let ghost cprev = self.chain(b as int);
            if self.buckets[b][x].dead {
                self.remove_dead_at(b, x);
                proof {
                    lemma_chain_remove_dead(cprev, x as int);
                    lemma_dead_count_remove(cprev, x as int, 0);
                    lemma_chain_need_remove_dead(cprev, x as int, 0);
                }
            } else {
                x = x + 1;
            }
        }
    }

    /// A deep copy with the same content and free-space state: the
    /// private shadow a transaction buffers its writes in.
    pub fn duplicate(&self) -> (t: Table)
        requires
            self.wf(),
        ensures
            t.wf(),
            t.n() == self.n(),
            t.improved_hash == self.improved_hash,
            t.space.base == self.space.base,
            t.space.map_size == self.space.map_size,
            t.space.free@ == self.space.free@,
            t.as_map() == self.as_map(),
    {
        let n = self.buckets.len();
        let mut buckets: Vec<Vec<Record>> = Vec::new();
        let mut i: usize = 0;
        while i < n
            invariant
                i <= n,
                n == self.buckets@.len(),
                buckets@.len() == i,
                forall|b: int| 0 <= b < i ==> chain_like(#[trigger] buckets@[b]@, self.chain(b)),
            decreases n - i,
        {
            buckets.push(copy_chain(&self.buckets[i]));
            i = i + 1;
        }
        let space2 = Space {
            base: self.space.base,
            map_size: self.space.map_size,
            free: copy_spans(&self.space.free),
        };
        let t = Table { buckets, space: space2, improved_hash: self.improved_hash };
        proof {
            assert(t.space.wf());
            assert forall|i2: int, j2: int|
                0 <= i2 < t.n() && 0 <= j2 < t.chain(i2).len() implies #[trigger] t.rec_ok(
                i2,
                j2,
            ) by {
                assert(chain_like(t.chain(i2), self.chain(i2)));
                assert(rec_like(t.chain(i2)[j2], self.chain(i2)[j2]));
                assert(self.rec_ok(i2, j2));
            }
            assert forall|i2: int| 0 <= i2 < t.n() implies chain_unique(
                #[trigger] t.chain(i2),
            ) by {
                assert(chain_like(t.chain(i2), self.chain(i2)));
                lemma_chain_like(t.chain(i2), self.chain(i2));
                assert(chain_unique(self.chain(i2)));
            }
            assert forall|i2: int, k: Seq<u8>| 0 <= i2 < self.n() implies (#[trigger] chain_has(
                t.chain(i2),
                k,
            ) <==> chain_has(self.chain(i2), k)) by {
                lemma_chain_like(t.chain(i2), self.chain(i2));
            }
            assert forall|i2: int, k: Seq<u8>|
                0 <= i2 < self.n() && chain_has(self.chain(i2), k) implies #[trigger] chain_value(
                t.chain(i2),
                k,
            ) == chain_value(self.chain(i2), k) by {
                lemma_chain_like(t.chain(i2), self.chain(i2));
            }
            lemma_same_map(*self, t);
        }
        t
    }

    /// Discard every record: all chains are emptied and the free-space
    /// manager starts over, while the directory and flags stay.
    #[verifier::rlimit(60)]
    pub fn wipe(&mut self)
        requires
            old(self).wf(),
        ensures
            final(self).wf(),
            final(self).n() == old(self).n(),
            final(self).improved_hash == old(self).improved_hash,
            final(self).space.base == old(self).space.base,
            final(self).as_map() == Map::<Seq<u8>, Seq<u8>>::empty(),
            final(self).space.free@.len() == 0,
            final(self).space.map_size == old(self).space.base,
    {
        let n = self.buckets.len();
        let mut i: usize = 0;
        while i < n
            invariant
                i <= n,
                n == self.buckets@.len(),
                self.space == old(self).space,
                self.improved_hash == old(self).improved_hash,
                forall|b: int| 0 <= b < i ==> #[trigger] self.chain(b).len() == 0,
            decreases n - i,
        {
            let ghost prevt = *self;
            chain_clear(&mut self.buckets, i);
            proof {
                assert forall|b: int| 0 <= b < i + 1 implies #[trigger] self.chain(b).len()
                    == 0 by {
                    if b < i as int {
                        assert(prevt.chain(b).len() == 0);
                        assert(self.buckets@[b] == prevt.buckets@[b]);
                    }
                }
            }
            i = i + 1;
        }
        let ghost prer = *self;
        self.space.reset();
        proof {
            assert forall|b: int| 0 <= b < self.n() implies #[trigger] self.chain(b).len()
                == 0 by {
                assert(self.chain(b) == prer.chain(b));
                assert(prer.chain(b).len() == 0);
            }
            lemma_empty_map(*self);
        }
    }

    /// Whether record `j` of chain `i` is live on a span of exactly its
    /// own need: what a compaction leaves behind.
    pub open spec fn rec_tight(self, i: int, j: int) -> bool {
        let r = self.chain(i)[j];
        &&& !r.dead
        &&& r.cap == rec_need(r.key@, r.value@)
    }

    /// Compact the store: every tombstone is reclaimed, every live record
    /// is rewritten onto a fresh span of exactly its need, packed from
    /// the base of the record area upward, and the file shrinks to the
    /// header, the directory and the live records, with an empty
    /// freelist and the content unchanged. Fails with `OOM`, changing
    /// nothing, exactly when that compact size cannot be addressed.
    #[verifier::rlimit(100)]
    pub fn repack(&mut self) -> (r: Result<(), Error>)
        requires
            old(self).wf(),
        ensures
            final(self).wf(),
            final(self).n() == old(self).n(),
            final(self).improved_hash == old(self).improved_hash,
            final(self).space.base == old(self).space.base,
            final(self).as_map() == old(self).as_map(),
            r is Ok <==> old(self).space.base + live_need(*old(self)) <= u64::MAX,
            r is Err ==> *final(self) == *old(self) && r == Err::<(), Error>(Error::OOM),
            r is Ok ==> {
                &&& final(self).space.free@.len() == 0
                &&& final(self).space.map_size == old(self).space.base + live_need(*old(self))
                &&& live_need(*final(self)) == live_need(*old(self))
                &&& forall|i: int, j: int|
                    0 <= i < final(self).n() && 0 <= j < final(self).chain(i).len()
                        ==> #[trigger] final(self).rec_tight(i, j)
            },
    {
        let ghost o = *old(self);
        let n = self.buckets.len();
        let base = self.space.base;

        let mut total: u64 = 0;
        let mut b: usize = 0;
        while b < n
            invariant
                b <= n,
                n == self.buckets@.len(),
                *self == o,
                self.wf(),
                base == o.space.base,
                base + total <= u64::MAX,
                total as int + table_need_from(o, b as int) == live_need(o),
            decreases n - b,
        {
            let clen = self.buckets[b].len();
            proof {
                assert(table_need_from(o, b as int) == chain_need_from(o.chain(b as int), 0)
                    + table_need_from(o, b as int + 1));
            }
            let mut j: usize = 0;
            while j < clen
                invariant
                    j <= clen,
                    b < n,
                    n == self.buckets@.len(),
                    clen == o.chain(b as int).len(),
                    *self == o,
                    self.wf(),
                    base == o.space.base,
                    base + total <= u64::MAX,
                    total as int + chain_need_from(o.chain(b as int), j as int) + table_need_from(
                        o,
                        b as int + 1,
                    ) == live_need(o),
                decreases clen - j,
            {
                let ghost c = o.chain(b as int);
                if !self.buckets[b][j].dead {
                    proof {
                        assert(o.rec_ok(b as int, j as int));
                    }
                    let need = RECORD_HEADER_LEN + (self.buckets[b][j].key.len() as u64) + (
                    self.buckets[b][j].value.len() as u64);
                    if need > u64::MAX - base - total {
                        proof {
                            lemma_chain_need_nonneg(c, j + 1);
                            lemma_table_need_nonneg(o, b as int + 1);
                        }
                        return Err(Error::OOM);
                    }
                    total = total + need;
                }
                j = j + 1;
            }
            b = b + 1;
        }
        proof {
            assert(total as int == live_need(o));
        }

        let mut b: usize = 0;
        while b < n
            invariant
                b <= n,
                n == self.buckets@.len(),
                self.wf(),
                self.n() == o.n(),
                self.improved_hash == o.improved_hash,
                self.space.base == o.space.base,
                live_need(*self) == live_need(o),
                forall|i: int, x: int|
                    0 <= i < b && 0 <= x < self.chain(i).len() ==> !(#[trigger] self.chain(
                        i,
                    )[x]).dead,
                forall|i: int, k: Seq<u8>|
                    0 <= i < o.n() ==> (#[trigger] chain_has(self.chain(i), k) <==> chain_has(
                        o.chain(i),
                        k,
                    )),
                forall|i: int, k: Seq<u8>|
                    0 <= i < o.n() && chain_has(o.chain(i), k) ==> #[trigger] chain_value(
                        self.chain(i),
                        k,
                    ) == chain_value(o.chain(i), k),
            decreases n - b,
        {
            let ghost prev = *self;
            self.purge_chain(b);
            proof {
                assert forall|i: int|
                    0 <= i < o.n() implies chain_need_from(#[trigger] self.chain(i), 0)
                    == chain_need_from(prev.chain(i), 0) by {
                    if i != b as int {
                        assert(self.chain(i) == prev.chain(i));
                    }
                }
                lemma_table_need_same(*self, prev, 0);
                assert forall|i: int, k: Seq<u8>| 0 <= i < o.n() implies (#[trigger] chain_has(
                    self.chain(i),
                    k,
                ) <==> chain_has(o.chain(i), k)) by {
                    if i != b as int {
                        assert(self.chain(i) == prev.chain(i));
                    }
                    assert(chain_has(prev.chain(i), k) <==> chain_has(o.chain(i), k));
                }
                assert forall|i: int, k: Seq<u8>|
                    0 <= i < o.n() && chain_has(o.chain(i), k) implies #[trigger] chain_value(
                    self.chain(i),
                    k,
                ) == chain_value(o.chain(i), k) by {
                    if i != b as int {
                        assert(self.chain(i) == prev.chain(i));
                    }
                    assert(chain_has(prev.chain(i), k) <==> chain_has(o.chain(i), k));
                    assert(chain_value(prev.chain(i), k) == chain_value(o.chain(i), k));
                }
                assert forall|i: int, x: int|
                    0 <= i < b + 1 && 0 <= x < self.chain(i).len() implies !(#[trigger] self.chain(
                    i,
                )[x]).dead by {
                    if i < b as int {
                        assert(self.chain(i) == prev.chain(i));
                    }
                }
            }
            b = b + 1;
        }

        let ghost p2 = *self;
        proof {
            lemma_table_need_nonneg(p2, 0);
        }
        self.space.drop_freelist();
        let full = base + total;
        self.space.set_size(full);
        proof {
            assert forall|i: int| 0 <= i < n implies chain_need_from(#[trigger] self.chain(i), 0)
                == chain_need_from(p2.chain(i), 0) by {
                assert(self.chain(i) == p2.chain(i));
            }
            lemma_table_need_same(*self, p2, 0);
            assert forall|i: int| 0 <= i < n implies chain_data_like(
                #[trigger] self.chain(i),
                p2.chain(i),
            ) by {
                assert(self.chain(i) == p2.chain(i));
                assert forall|x: int| 0 <= x < self.chain(i).len() implies rec_data_like(
                    #[trigger] self.chain(i)[x],
                    p2.chain(i)[x],
                ) by {}
            }
        }

        let mut cursor: u64 = base;
        let mut b: usize = 0;
        while b < n
            invariant
                b <= n,
                n == self.buckets@.len(),
                n == p2.buckets@.len(),
                self.improved_hash == p2.improved_hash,
                self.space.base == base,
                self.space.map_size == full,
                self.space.free@.len() == 0,
                self.space.wf(),
                full == base + total,
                base + total <= u64::MAX,
                base <= cursor <= full,
                cursor as int + table_need_from(*self, b as int) == full,
                forall|i: int| 0 <= i < n ==> chain_data_like(#[trigger] self.chain(i), p2.chain(i)),
                forall|i: int, x: int|
                    0 <= i < n && 0 <= x < p2.chain(i).len() ==> !(#[trigger] p2.chain(i)[x]).dead,
                forall|i: int, x: int|
                    0 <= i < b && 0 <= x < self.chain(i).len() ==> {
                        let r2 = #[trigger] self.chain(i)[x];
                        &&& !r2.dead
                        &&& r2.cap == rec_need(r2.key@, r2.value@)
                        &&& r2.off >= base
                        &&& r2.off + r2.cap <= full
                    },
            decreases n - b,
        {
            let clen = self.buckets[b].len();
            proof {
                assert(table_need_from(*self, b as int) == chain_need_from(self.chain(b as int), 0)
                    + table_need_from(*self, b as int + 1));
            }
            let mut j: usize = 0;
            while j < clen
                invariant
                    j <= clen,
                    b < n,
                    n == self.buckets@.len(),
                    n == p2.buckets@.len(),
                    clen == self.chain(b as int).len(),
                    self.improved_hash == p2.improved_hash,
                    self.space.base == base,
                    self.space.map_size == full,
                    self.space.free@.len() == 0,
                    self.space.wf(),
                    full == base + total,
                    base <= cursor <= full,
                    cursor as int + chain_need_from(self.chain(b as int), j as int)
                        + table_need_from(*self, b as int + 1) == full,
                    forall|i: int|
                        0 <= i < n ==> chain_data_like(#[trigger] self.chain(i), p2.chain(i)),
                    forall|i: int, x: int|
                        0 <= i < n && 0 <= x < p2.chain(i).len() ==> !(#[trigger] p2.chain(
                            i,
                        )[x]).dead,
                    forall|i: int, x: int|
                        0 <= i < b && 0 <= x < self.chain(i).len() ==> {
                            let r2 = #[trigger] self.chain(i)[x];
                            &&& !r2.dead
                            &&& r2.cap == rec_need(r2.key@, r2.value@)
                            &&& r2.off >= base
                            &&& r2.off + r2.cap <= full
                        },
                    forall|x: int|
                        0 <= x < j ==> {
                            let r2 = #[trigger] self.chain(b as int)[x];
                            &&& !r2.dead
                            &&& r2.cap == rec_need(r2.key@, r2.value@)
                            &&& r2.off >= base
                            &&& r2.off + r2.cap <= cursor
                        },
                decreases clen - j,
            {
                let ghost sprev = *self;
                let ghost cprev = self.chain(b as int);
                proof {
                    assert(chain_data_like(cprev, p2.chain(b as int)));
                    assert(rec_data_like(cprev[j as int], p2.chain(b as int)[j as int]));
                    assert(!p2.chain(b as int)[j as int].dead);
                    assert(!cprev[j as int].dead);
                    lemma_chain_need_nonneg(cprev, j + 1);
                    lemma_table_need_nonneg(*self, b as int + 1);
                    assert(chain_need_from(cprev, j as int) == rec_need(
                        cprev[j as int].key@,
                        cprev[j as int].value@,
                    ) + chain_need_from(cprev, j + 1));
                    assert(rec_need(cprev[j as int].key@, cprev[j as int].value@) <= full
                        - cursor);
                }
                let need = RECORD_HEADER_LEN + (self.buckets[b][j].key.len() as u64) + (
                self.buckets[b][j].value.len() as u64);
                let rec = chain_remove(&mut self.buckets, b, j);
                let newrec = Record {
                    key: rec.key,
                    value: rec.value,
                    dead: false,
                    off: cursor,
                    cap: need,
                };
                let ghost nr = newrec;
                chain_insert_at(&mut self.buckets, b, j, newrec);
                cursor = cursor + need;
                proof {
                    assert(self.chain(b as int) =~= cprev.update(j as int, nr));
                    assert(rec == cprev[j as int]);
                    assert(nr.key@ == cprev[j as int].key@ && nr.value@ == cprev[j as int].value@);
                    assert(need as int == rec_need(cprev[j as int].key@, cprev[j as int].value@));
                    assert forall|i: int| 0 <= i < n implies chain_data_like(
                        #[trigger] self.chain(i),
                        p2.chain(i),
                    ) by {
                        if i == b as int {
                            assert(self.chain(i).len() == p2.chain(i).len());
                            assert forall|x: int| 0 <= x < self.chain(i).len() implies rec_data_like(
                                #[trigger] self.chain(i)[x],
                                p2.chain(i)[x],
                            ) by {
                                assert(chain_data_like(cprev, p2.chain(i)));
                                assert(rec_data_like(cprev[x], p2.chain(i)[x]));
                                if x != j as int {
                                    assert(self.chain(i)[x] == cprev[x]);
                                } else {
                                    assert(self.chain(i)[x] == nr);
                                    assert(!p2.chain(i)[x].dead);
                                }
                            }
                        } else {
                            assert(self.chain(i) == sprev.chain(i));
                            assert(chain_data_like(sprev.chain(i), p2.chain(i)));
                        }
                    }
                    assert forall|x: int|
                        0 <= x < j + 1 implies {
                            let r2 = #[trigger] self.chain(b as int)[x];
                            &&& !r2.dead
                            &&& r2.cap == rec_need(r2.key@, r2.value@)
                            &&& r2.off >= base
                            &&& r2.off + r2.cap <= cursor
                        } by {
                        if x != j as int {
                            assert(self.chain(b as int)[x] == cprev[x]);
                        } else {
                            assert(self.chain(b as int)[x] == nr);
                        }
                    }
                    assert forall|x: int|
                        0 <= x < self.chain(b as int).len() implies rec_data_like(
                        #[trigger] self.chain(b as int)[x],
                        cprev[x],
                    ) by {
                        if x != j as int {
                            assert(self.chain(b as int)[x] == cprev[x]);
                        } else {
                            assert(self.chain(b as int)[x] == nr);
                        }
                    }
                    assert(chain_need_from(self.chain(b as int), j + 1) == chain_need_from(
                        cprev,
                        j + 1,
                    )) by {
                        lemma_chain_need_like(self.chain(b as int), cprev, j + 1);
                    }
                    assert forall|i: int| 0 <= i < n implies chain_need_from(
                        #[trigger] self.chain(i),
                        0,
                    ) == chain_need_from(sprev.chain(i), 0) by {
                        if i == b as int {
                            lemma_chain_need_like(self.chain(b as int), cprev, 0);
                        } else {
                            assert(self.chain(i) == sprev.chain(i));
                        }
                    }
                    lemma_table_need_same(*self, sprev, b as int + 1);
                    assert forall|i: int, x: int|
                        0 <= i < b && 0 <= x < self.chain(i).len() implies {
                            let r2 = #[trigger] self.chain(i)[x];
                            &&& !r2.dead
                            &&& r2.cap == rec_need(r2.key@, r2.value@)
                            &&& r2.off >= base
                            &&& r2.off + r2.cap <= full
                        } by {
                        assert(self.chain(i) == sprev.chain(i));
                        let r3 = sprev.chain(i)[x];
                        assert(!r3.dead && r3.cap == rec_need(r3.key@, r3.value@) && r3.off >= base
                            && r3.off + r3.cap <= full);
                    }
                }
                j = j + 1;
            }
            proof {
                assert(chain_need_from(self.chain(b as int), clen as int) == 0);
                if b + 1 < n {
                    assert(table_need_from(*self, b as int + 1) == chain_need_from(
                        self.chain(b as int + 1),
                        0,
                    ) + table_need_from(*self, b as int + 2));
                }
            }
            b = b + 1;
        }

        proof {
            assert(table_need_from(*self, n as int) == 0);
            assert(cursor == full);
            assert forall|i: int, j2: int|
                0 <= i < self.n() && 0 <= j2 < self.chain(i).len() implies #[trigger] self.rec_ok(
                i,
                j2,
            ) by {
                assert(chain_data_like(self.chain(i), p2.chain(i)));
                assert(rec_data_like(self.chain(i)[j2], p2.chain(i)[j2]));
                assert(p2.rec_ok(i, j2));
            }
            assert forall|i: int| 0 <= i < self.n() implies chain_unique(
                #[trigger] self.chain(i),
            ) by {
                assert(chain_data_like(self.chain(i), p2.chain(i)));
                lemma_chain_data_like(self.chain(i), p2.chain(i));
                assert(chain_unique(p2.chain(i)));
            }
            assert forall|i: int, k: Seq<u8>| 0 <= i < o.n() implies (#[trigger] chain_has(
                self.chain(i),
                k,
            ) <==> chain_has(o.chain(i), k)) by {
                lemma_chain_data_like(self.chain(i), p2.chain(i));
                assert(chain_has(p2.chain(i), k) <==> chain_has(o.chain(i), k));
            }
            assert forall|i: int, k: Seq<u8>|
                0 <= i < o.n() && chain_has(o.chain(i), k) implies #[trigger] chain_value(
                self.chain(i),
                k,
            ) == chain_value(o.chain(i), k) by {
                assert(chain_unique(p2.chain(i)));
                lemma_chain_data_like(self.chain(i), p2.chain(i));
                assert(chain_has(p2.chain(i), k) <==> chain_has(o.chain(i), k));
                assert(chain_value(p2.chain(i), k) == chain_value(o.chain(i), k));
            }
            assert forall|i: int| 0 <= i < n implies chain_need_from(#[trigger] self.chain(i), 0)
                == chain_need_from(p2.chain(i), 0) by {
                lemma_chain_need_like(self.chain(i), p2.chain(i), 0);
            }
            lemma_table_need_same(*self, p2, 0);
            lemma_same_map(o, *self);
        }
        Ok(())
    }

    /// The bucket index a key selects, as the directory is addressed.
    pub(crate) fn bucket_index(&self, key: &[u8]) -> (b: usize)
        requires
            self.wf(),
        ensures
            b == self.bucket_of(key@),
            b < self.buckets@.len(),
    {
        let h = hash_key(key, self.improved_hash);
        let n = self.buckets.len();
        proof {
            lemma_bucket_in_range(*self, key@);
        }
        (h as usize) % n
    }
}

/// A key's bucket is a valid directory index.
pub proof fn lemma_bucket_in_range(t: Table, k: Seq<u8>)
    requires
        t.n() > 0,
    ensures
        0 <= t.bucket_of(k) < t.n(),
{
}

/// When only key `k`'s bucket changed, and there exactly `k`'s live
/// record was set to value `v` while the other keys kept their content,
/// the whole store reads as the old map with `k` bound to `v`.
pub proof fn lemma_map_insert(o: Table, f: Table, k: Seq<u8>, v: Seq<u8>)
    requires
        o.n() > 0,
        f.n() == o.n(),
        f.improved_hash == o.improved_hash,
        forall|i: int| 0 <= i < o.n() && i != o.bucket_of(k) ==> f.chain(i) == o.chain(i),
        chain_has(f.chain(o.bucket_of(k)), k),
        chain_value(f.chain(o.bucket_of(k)), k) == v,
        forall|k2: Seq<u8>|
            k2 != k ==> (chain_has(f.chain(o.bucket_of(k)), k2) <==> chain_has(
                o.chain(o.bucket_of(k)),
                k2,
            )),
        forall|k2: Seq<u8>|
            k2 != k && chain_has(o.chain(o.bucket_of(k)), k2) ==> chain_value(
                f.chain(o.bucket_of(k)),
                k2,
            ) == chain_value(o.chain(o.bucket_of(k)), k2),
    ensures
        f.as_map() == o.as_map().insert(k, v),
{
    let b = o.bucket_of(k);
    assert forall|k2: Seq<u8>| true implies #[trigger] f.spec_contains(k2) == (k2 == k
        || o.spec_contains(k2)) by {
        lemma_bucket_in_range(o, k2);
        assert(f.bucket_of(k2) == o.bucket_of(k2));
        if k2 != k && o.bucket_of(k2) != b {
            assert(f.chain(o.bucket_of(k2)) == o.chain(o.bucket_of(k2)));
        }
    }
    assert forall|k2: Seq<u8>| f.spec_contains(k2) implies #[trigger] f.spec_value(k2) == (if k2
        == k {
        v
    } else {
        o.spec_value(k2)
    }) by {
        lemma_bucket_in_range(o, k2);
        assert(f.bucket_of(k2) == o.bucket_of(k2));
        if k2 != k && o.bucket_of(k2) != b {
            assert(f.chain(o.bucket_of(k2)) == o.chain(o.bucket_of(k2)));
        }
    }
    assert(f.as_map() =~= o.as_map().insert(k, v));
}

/// When only key `k`'s bucket changed, and there exactly `k`'s live
/// record went away while the other keys kept their content, the whole
/// store reads as the old map without `k`.
pub proof fn lemma_map_remove(o: Table, f: Table, k: Seq<u8>)
    requires
        o.n() > 0,
        f.n() == o.n(),
        f.improved_hash == o.improved_hash,
        forall|i: int| 0 <= i < o.n() && i != o.bucket_of(k) ==> f.chain(i) == o.chain(i),
        !chain_has(f.chain(o.bucket_of(k)), k),
        forall|k2: Seq<u8>|
            k2 != k ==> (chain_has(f.chain(o.bucket_of(k)), k2) <==> chain_has(
                o.chain(o.bucket_of(k)),
                k2,
            )),
        forall|k2: Seq<u8>|
            k2 != k && chain_has(o.chain(o.bucket_of(k)), k2) ==> chain_value(
                f.chain(o.bucket_of(k)),
                k2,
            ) == chain_value(o.chain(o.bucket_of(k)), k2),
    ensures
        f.as_map() == o.as_map().remove(k),
{
    let b = o.bucket_of(k);
    assert forall|k2: Seq<u8>| true implies #[trigger] f.spec_contains(k2) == (k2 != k
        && o.spec_contains(k2)) by {
        lemma_bucket_in_range(o, k2);
        assert(f.bucket_of(k2) == o.bucket_of(k2));
        if k2 != k && o.bucket_of(k2) != b {
            assert(f.chain(o.bucket_of(k2)) == o.chain(o.bucket_of(k2)));
        }
    }
    assert forall|k2: Seq<u8>| f.spec_contains(k2) implies #[trigger] f.spec_value(k2)
        == o.spec_value(k2) by {
        lemma_bucket_in_range(o, k2);
        assert(f.bucket_of(k2) == o.bucket_of(k2));
        if o.bucket_of(k2) != b {
            assert(f.chain(o.bucket_of(k2)) == o.chain(o.bucket_of(k2)));
        }
    }
    assert(f.as_map() =~= o.as_map().remove(k));
}

/// Whether two records carry the same bytes and metadata, whatever the
/// identity of their buffers.
pub open spec fn rec_like(a: Record, b: Record) -> bool {
    &&& a.key@ == b.key@
    &&& a.value@ == b.value@
    &&& a.dead == b.dead
    &&& a.off == b.off
    &&& a.cap == b.cap
}

/// Whether two chains carry the same records, position by position.
pub open spec fn chain_like(c1: Seq<Record>, c2: Seq<Record>) -> bool {
    c1.len() == c2.len() && forall|j: int| 0 <= j < c1.len() ==> rec_like(#[trigger] c1[j], c2[j])
}

/// Chains that carry the same records hold the same live content.
pub proof fn lemma_chain_like(c1: Seq<Record>, c2: Seq<Record>)
    requires
        chain_like(c1, c2),
    ensures
        forall|k: Seq<u8>| chain_has(c1, k) <==> chain_has(c2, k),
        chain_unique(c2) ==> chain_unique(c1),
        chain_unique(c2) ==> forall|k: Seq<u8>|
            chain_has(c2, k) ==> chain_value(c1, k) == chain_value(c2, k),
{
    assert forall|k: Seq<u8>| (chain_has(c1, k) <==> chain_has(c2, k)) by {
        if chain_has(c1, k) {
            let x = choose|x: int| live_at(c1, x, k);
            assert(rec_like(c1[x], c2[x]));
            assert(live_at(c2, x, k));
        }
        if chain_has(c2, k) {
            let x = choose|x: int| live_at(c2, x, k);
            assert(rec_like(c1[x], c2[x]));
            assert(live_at(c1, x, k));
        }
    }
    if chain_unique(c2) {
        assert forall|j1: int, j2: int|
            0 <= j1 < c1.len() && 0 <= j2 < c1.len() && !c1[j1].dead && !c1[j2].dead
                && c1[j1].key@ == c1[j2].key@ implies j1 == j2 by {
            assert(rec_like(c1[j1], c2[j1]));
            assert(rec_like(c1[j2], c2[j2]));
        }
    }
    if chain_unique(c2) {
        assert forall|k: Seq<u8>| chain_has(c2, k) implies chain_value(c1, k) == chain_value(
            c2,
            k,
        ) by {
            let x = choose|x: int| live_at(c2, x, k);
            assert(live_at(c2, x, k));
            assert(rec_like(c1[x], c2[x]));
            assert(live_at(c1, x, k));
            lemma_chain_value_at(c2, x, k);
            lemma_chain_value_at(c1, x, k);
        }
    }
}

/// An owned copy of a record's bytes and metadata.
fn copy_record(r: &Record) -> (r2: Record)
    ensures
        rec_like(r2, *r),
{
    Record {
        key: copy_bytes(r.key.as_slice()),
        value: copy_bytes(r.value.as_slice()),
        dead: r.dead,
        off: r.off,
        cap: r.cap,
    }
}

/// An owned copy of a chain.
fn copy_chain(c: &Vec<Record>) -> (r: Vec<Record>)
    ensures
        chain_like(r@, c@),
{
    let n = c.len();
    let mut r: Vec<Record> = Vec::new();
    let mut i: usize = 0;
    while i < n
        invariant
            i <= n,
            n == c@.len(),
            r@.len() == i,
            forall|j: int| 0 <= j < i ==> rec_like(#[trigger] r@[j], c@[j]),
        decreases n - i,
    {
        r.push(copy_record(&c[i]));
        i = i + 1;
    }
    r
}

/// An owned copy of the freelist.
fn copy_spans(c: &Vec<Span>) -> (r: Vec<Span>)
    ensures
        r@ == c@,
{
    let n = c.len();
    let mut r: Vec<Span> = Vec::new();
    let mut i: usize = 0;
    while i < n
        invariant
            i <= n,
            n == c@.len(),
            r@ == c@.subrange(0, i as int),
        decreases n - i,
    {
        r.push(c[i]);
        proof {
            assert(r@ =~= c@.subrange(0, i + 1));
        }
        i = i + 1;
    }
    proof {
        assert(c@.subrange(0, n as int) =~= c@);
    }
    r
}

/// A table whose chains are all empty reads as the empty map.
pub proof fn lemma_empty_map(t: Table)
    requires
        t.n() > 0,
        forall|i: int| 0 <= i < t.n() ==> #[trigger] t.chain(i).len() == 0,
    ensures
        t.as_map() == Map::<Seq<u8>, Seq<u8>>::empty(),
{
    assert forall|k: Seq<u8>| !t.spec_contains(k) by {
        lemma_bucket_in_range(t, k);
        assert(t.chain(t.bucket_of(k)).len() == 0);
    }
    assert(t.as_map() =~= Map::<Seq<u8>, Seq<u8>>::empty());
}

/// Two tables whose chains hold the same live content bucket by bucket
/// read as the same map.
pub proof fn lemma_same_map(o: Table, f: Table)
    requires
        o.n() > 0,
        f.n() == o.n(),
        f.improved_hash == o.improved_hash,
        forall|i: int, k: Seq<u8>|
            0 <= i < o.n() ==> (#[trigger] chain_has(f.chain(i), k) <==> chain_has(o.chain(i), k)),
        forall|i: int, k: Seq<u8>|
            0 <= i < o.n() && chain_has(o.chain(i), k) ==> #[trigger] chain_value(f.chain(i), k)
                == chain_value(o.chain(i), k),
    ensures
        f.as_map() == o.as_map(),
{
    assert forall|k: Seq<u8>| #[trigger] f.spec_contains(k) == o.spec_contains(k) by {
        lemma_bucket_in_range(o, k);
        assert(f.bucket_of(k) == o.bucket_of(k));
        assert(chain_has(f.chain(o.bucket_of(k)), k) <==> chain_has(o.chain(o.bucket_of(k)), k));
    }
    assert forall|k: Seq<u8>| f.spec_contains(k) implies #[trigger] f.spec_value(k)
        == o.spec_value(k) by {
        lemma_bucket_in_range(o, k);
        assert(f.bucket_of(k) == o.bucket_of(k));
        assert(chain_has(f.chain(o.bucket_of(k)), k) <==> chain_has(o.chain(o.bucket_of(k)), k));
        assert(chain_value(f.chain(o.bucket_of(k)), k) == chain_value(o.chain(o.bucket_of(k)), k));
    }
    assert(f.as_map() =~= o.as_map());
}

/// Link a record in at position `j` of chain `b`.
fn chain_insert_at(buckets: &mut Vec<Vec<Record>>, b: usize, j: usize, r: Record)
    requires
        b < old(buckets)@.len(),
        j <= old(buckets)@[b as int]@.len(),
    ensures
        final(buckets)@.len() == old(buckets)@.len(),
        forall|i: int|
            0 <= i < old(buckets)@.len() && i != b ==> final(buckets)@[i] == old(buckets)@[i],
        final(buckets)@[b as int]@ == old(buckets)@[b as int]@.insert(j as int, r),
{
    let chain = &mut buckets[b];
    chain.insert(j, r);
}

/// Empty chain `b`.
fn chain_clear(buckets: &mut Vec<Vec<Record>>, b: usize)
    requires
        b < old(buckets)@.len(),
    ensures
        final(buckets)@.len() == old(buckets)@.len(),
        forall|i: int|
            0 <= i < old(buckets)@.len() && i != b ==> final(buckets)@[i] == old(buckets)@[i],
        final(buckets)@[b as int]@.len() == 0,
{
    let chain = &mut buckets[b];
    chain.clear();
}

/// Replace chain `b`'s record `j`.
fn chain_set(buckets: &mut Vec<Vec<Record>>, b: usize, j: usize, r: Record)
    requires
        b < old(buckets)@.len(),
        j < old(buckets)@[b as int]@.len(),
    ensures
        final(buckets)@.len() == old(buckets)@.len(),
        forall|i: int|
            0 <= i < old(buckets)@.len() && i != b ==> final(buckets)@[i] == old(buckets)@[i],
        final(buckets)@[b as int]@ == old(buckets)@[b as int]@.update(j as int, r),
{
    let chain = &mut buckets[b];
    chain.set(j, r);
}

/// Splice chain `b`'s record `j` out and hand it back.
fn chain_remove(buckets: &mut Vec<Vec<Record>>, b: usize, j: usize) -> (r: Record)
    requires
        b < old(buckets)@.len(),
        j < old(buckets)@[b as int]@.len(),
    ensures
        final(buckets)@.len() == old(buckets)@.len(),
        forall|i: int|
            0 <= i < old(buckets)@.len() && i != b ==> final(buckets)@[i] == old(buckets)@[i],
        final(buckets)@[b as int]@ == old(buckets)@[b as int]@.remove(j as int),
        r == old(buckets)@[b as int]@[j as int],
{
    let chain = &mut buckets[b];
    chain.remove(j)
}

/// The value an append leaves under `k`: the old value, or nothing,
/// followed by the new bytes.
pub open spec fn appended_value(m: Map<Seq<u8>, Seq<u8>>, k: Seq<u8>, v: Seq<u8>) -> Seq<u8> {
    if m.contains_key(k) {
        m[k] + v
    } else {
        v
    }
}

/// The number of dead records in the chain from position `i` on.
pub open spec fn dead_count_from(c: Seq<Record>, i: int) -> int
    decreases c.len() - i,
{
    if i < 0 || i >= c.len() {
        0
    } else {
        (if c[i].dead {
            1int
        } else {
            0int
        }) + dead_count_from(c, i + 1)
    }
}

/// The number of dead records the chain holds.
fn count_dead(chain: &Vec<Record>) -> (r: usize)
    ensures
        r == dead_count_from(chain@, 0),
{
    let n = chain.len();
    let mut cnt: usize = 0;
    let mut i: usize = 0;
    while i < n
        invariant
            i <= n,
            n == chain@.len(),
            cnt <= i,
            cnt + dead_count_from(chain@, i as int) == dead_count_from(chain@, 0),
        decreases n - i,
    {
        if chain[i].dead {
            cnt = cnt + 1;
        }
        i = i + 1;
    }
    cnt
}

/// The file space the chain's live records need from position `j` on.
pub open spec fn chain_need_from(c: Seq<Record>, j: int) -> int
    decreases c.len() - j,
{
    if j < 0 || j >= c.len() {
        0
    } else {
        (if c[j].dead {
            0int
        } else {
            rec_need(c[j].key@, c[j].value@)
        }) + chain_need_from(c, j + 1)
    }
}

/// The file space the table's live records need, from bucket `i` on.
pub open spec fn table_need_from(t: Table, i: int) -> int
    decreases t.n() - i,
{
    if i < 0 || i >= t.n() {
        0
    } else {
        chain_need_from(t.chain(i), 0) + table_need_from(t, i + 1)
    }
}

/// The file space all live records of the table need.
pub open spec fn live_need(t: Table) -> int {
    table_need_from(t, 0)
}

/// A live-need sum is never negative.
pub proof fn lemma_chain_need_nonneg(c: Seq<Record>, j: int)
    ensures
        chain_need_from(c, j) >= 0,
    decreases c.len() - j,
{
    if 0 <= j < c.len() {
        lemma_chain_need_nonneg(c, j + 1);
    }
}

/// A table's live-need sum is never negative.
pub proof fn lemma_table_need_nonneg(t: Table, i: int)
    ensures
        table_need_from(t, i) >= 0,
    decreases t.n() - i,
{
    if 0 <= i < t.n() {
        lemma_chain_need_nonneg(t.chain(i), 0);
        lemma_table_need_nonneg(t, i + 1);
    }
}

/// Splicing position `j` out shifts the need sum past it.
proof fn lemma_chain_need_shift(c: Seq<Record>, j: int, i: int)
    requires
        0 <= j < c.len(),
        j <= i <= c.len() - 1,
    ensures
        chain_need_from(c.remove(j), i) == chain_need_from(c, i + 1),
    decreases c.len() - i,
{
    if i < c.len() - 1 {
        lemma_chain_need_shift(c, j, i + 1);
    }
}

/// Splicing a tombstone out leaves the live-need sum unchanged.
pub proof fn lemma_chain_need_remove_dead(c: Seq<Record>, j: int, i: int)
    requires
        0 <= i <= j < c.len(),
        c[j].dead,
    ensures
        chain_need_from(c.remove(j), i) == chain_need_from(c, i),
    decreases j - i,
{
    if i < j {
        lemma_chain_need_remove_dead(c, j, i + 1);
    } else {
        if j < c.len() - 1 {
            lemma_chain_need_shift(c, j, j);
        }
    }
}

/// Whether two records carry the same key, value and tombstone bit,
/// whatever spans they occupy.
pub open spec fn rec_data_like(a: Record, b: Record) -> bool {
    &&& a.key@ == b.key@
    &&& a.value@ == b.value@
    &&& a.dead == b.dead
}

/// Whether two chains carry the same record data, position by position.
pub open spec fn chain_data_like(c1: Seq<Record>, c2: Seq<Record>) -> bool {
    c1.len() == c2.len() && forall|j: int|
        0 <= j < c1.len() ==> rec_data_like(#[trigger] c1[j], c2[j])
}

/// Chains that carry the same record data hold the same live content
/// and need the same space.
pub proof fn lemma_chain_data_like(c1: Seq<Record>, c2: Seq<Record>)
    requires
        chain_data_like(c1, c2),
    ensures
        forall|k: Seq<u8>| chain_has(c1, k) <==> chain_has(c2, k),
        chain_unique(c2) ==> chain_unique(c1),
        chain_unique(c2) ==> forall|k: Seq<u8>|
            chain_has(c2, k) ==> chain_value(c1, k) == chain_value(c2, k),
{
    assert forall|k: Seq<u8>| (chain_has(c1, k) <==> chain_has(c2, k)) by {
        if chain_has(c1, k) {
            let x = choose|x: int| live_at(c1, x, k);
            assert(rec_data_like(c1[x], c2[x]));
            assert(live_at(c2, x, k));
        }
        if chain_has(c2, k) {
            let x = choose|x: int| live_at(c2, x, k);
            assert(rec_data_like(c1[x], c2[x]));
            assert(live_at(c1, x, k));
        }
    }
    if chain_unique(c2) {
        assert forall|j1: int, j2: int|
            0 <= j1 < c1.len() && 0 <= j2 < c1.len() && !c1[j1].dead && !c1[j2].dead
                && c1[j1].key@ == c1[j2].key@ implies j1 == j2 by {
            assert(rec_data_like(c1[j1], c2[j1]));
            assert(rec_data_like(c1[j2], c2[j2]));
        }
        assert forall|k: Seq<u8>| chain_has(c2, k) implies chain_value(c1, k) == chain_value(
            c2,
            k,
        ) by {
            let x = choose|x: int| live_at(c2, x, k);
            assert(live_at(c2, x, k));
            assert(rec_data_like(c1[x], c2[x]));
            assert(live_at(c1, x, k));
            lemma_chain_value_at(c2, x, k);
            lemma_chain_value_at(c1, x, k);
        }
    }
}

/// Chains with the same record data need the same space.
pub proof fn lemma_chain_need_like(c1: Seq<Record>, c2: Seq<Record>, i: int)
    requires
        chain_data_like(c1, c2),
        0 <= i <= c1.len(),
    ensures
        chain_need_from(c1, i) == chain_need_from(c2, i),
    decreases c1.len() - i,
{
    if i < c1.len() {
        assert(rec_data_like(c1[i], c2[i]));
        lemma_chain_need_like(c1, c2, i + 1);
    }
}

/// Tables whose chains need the same space, bucket by bucket, need the
/// same space overall.
pub proof fn lemma_table_need_same(t1: Table, t2: Table, i: int)
    requires
        t1.n() == t2.n(),
        forall|b: int|
            0 <= b < t1.n() ==> chain_need_from(#[trigger] t1.chain(b), 0) == chain_need_from(
                t2.chain(b),
                0,
            ),
        0 <= i <= t1.n(),
    ensures
        table_need_from(t1, i) == table_need_from(t2, i),
    decreases t1.n() - i,
{
    if i < t1.n() {
        lemma_table_need_same(t1, t2, i + 1);
    }
}

/// A tombstone count is never negative.
pub proof fn lemma_dead_count_nonneg(c: Seq<Record>, i: int)
    ensures
        dead_count_from(c, i) >= 0,
    decreases c.len() - i,
{
    if 0 <= i < c.len() {
        lemma_dead_count_nonneg(c, i + 1);
    }
}

/// Marking a live record dead raises the chain's tombstone count by one.
pub proof fn lemma_dead_count_update(c: Seq<Record>, j: int, r: Record, i: int)
    requires
        0 <= i <= c.len(),
        0 <= j < c.len(),
        !c[j].dead,
        r.dead,
    ensures
        dead_count_from(c.update(j, r), i) == dead_count_from(c, i) + (if i <= j {
            1int
        } else {
            0int
        }),
    decreases c.len() - i,
{
    if i < c.len() {
        lemma_dead_count_update(c, j, r, i + 1);
    }
}

/// Splicing position `j` out shifts the count past it.
proof fn lemma_dead_count_shift(c: Seq<Record>, j: int, i: int)
    requires
        0 <= j < c.len(),
        j <= i <= c.len() - 1,
    ensures
        dead_count_from(c.remove(j), i) == dead_count_from(c, i + 1),
    decreases c.len() - i,
{
    if i < c.len() - 1 {
        lemma_dead_count_shift(c, j, i + 1);
    }
}

/// Splicing a tombstone out lowers the chain's tombstone count by one.
pub proof fn lemma_dead_count_remove(c: Seq<Record>, j: int, i: int)
    requires
        0 <= i <= j < c.len(),
        c[j].dead,
    ensures
        dead_count_from(c.remove(j), i) == dead_count_from(c, i) - 1,
    decreases j - i,
{
    if i < j {
        lemma_dead_count_remove(c, j, i + 1);
    } else {
        if j < c.len() - 1 {
            lemma_dead_count_shift(c, j, j);
        }
    }
}

/// A chain with no tombstone from `i` on counts none.
pub proof fn lemma_dead_count_zero(c: Seq<Record>, i: int)
    requires
        0 <= i <= c.len(),
        forall|x: int| i <= x < c.len() ==> !c[x].dead,
    ensures
        dead_count_from(c, i) == 0,
    decreases c.len() - i,
{
    if i < c.len() {
        lemma_dead_count_zero(c, i + 1);
    }
}

/// Link a record in at chain `b`'s head.
fn chain_push_front(buckets: &mut Vec<Vec<Record>>, b: usize, r: Record)
    requires
        b < old(buckets)@.len(),
    ensures
        final(buckets)@.len() == old(buckets)@.len(),
        forall|i: int|
            0 <= i < old(buckets)@.len() && i != b ==> final(buckets)@[i] == old(buckets)@[i],
        final(buckets)@[b as int]@ == seq![r] + old(buckets)@[b as int]@,
    {
    let chain = &mut buckets[b];
    chain.insert(0, r);
    proof {
        assert(final(chain)@ =~= seq![r] + old(buckets)@[b as int]@);
    }
}

/// Whether two byte strings hold the same bytes.
pub fn bytes_eq(a: &[u8], b: &[u8]) -> (r: bool)
    ensures
        r == (a@ == b@),
{
    let n = a.len();
    if n != b.len() {
        proof {
            assert(a@.len() != b@.len());
        }
        return false;
    }
    let mut i: usize = 0;
    while i < n
        invariant
            i <= n,
            n == a@.len(),
            n == b@.len(),
            forall|j: int| 0 <= j < i ==> a@[j] == b@[j],
        decreases n - i,
    {
        if a[i] != b[i] {
            return false;
        }
        i = i + 1;
    }
    proof {
        assert(a@ =~= b@);
    }
    true
}

/// An owned copy of a byte string.
pub fn copy_bytes(src: &[u8]) -> (r: Vec<u8>)
    ensures
        r@ == src@,
{
    let n = src.len();
    let mut r: Vec<u8> = Vec::new();
    let mut i: usize = 0;
    while i < n
        invariant
            i <= n,
            n == src@.len(),
            r@ == src@.subrange(0, i as int),
        decreases n - i,
    {
        r.push(src[i]);
        proof {
            assert(r@ =~= src@.subrange(0, i + 1));
        }
        i = i + 1;
    }
    proof {
        assert(src@.subrange(0, n as int) =~= src@);
    }
    r
}

/// The two byte strings, one after the other, as one owned buffer.
pub fn concat_bytes(a: &[u8], b: &[u8]) -> (r: Vec<u8>)
    ensures
        r@ == a@ + b@,
{
    let mut r = copy_bytes(a);
    let n = b.len();
    let mut i: usize = 0;
    while i < n
        invariant
            i <= n,
            n == b@.len(),
            r@ == a@ + b@.subrange(0, i as int),
        decreases n - i,
    {
        r.push(b[i]);
        proof {
            assert(r@ =~= a@ + b@.subrange(0, i + 1));
        }
        i = i + 1;
    }
    proof {
        assert(a@ + b@.subrange(0, n as int) =~= a@ + b@);
    }
    r
}

/// The index of the first live record with this key, if the chain has one.
pub(crate) fn find_live(chain: &Vec<Record>, key: &[u8]) -> (r: Option<usize>)
    ensures
        match r {
            Some(j) => live_at(chain@, j as int, key@) && forall|j2: int|
                0 <= j2 < j ==> !live_at(chain@, j2, key@),
            None => !chain_has(chain@, key@),
        },
{
    let n = chain.len();
    let mut i: usize = 0;
    while i < n
        invariant
            i <= n,
            n == chain@.len(),
            forall|j2: int| 0 <= j2 < i ==> !live_at(chain@, j2, key@),
        decreases n - i,
    {
        if !chain[i].dead && bytes_eq(chain[i].key.as_slice(), key) {
            return Some(i);
        }
        i = i + 1;
    }
    proof {
        assert forall|j: int| !live_at(chain@, j, key@) by {}
    }
    None
}

} // verus!
