//! The database handle: the record store behind the operation surface,
//! the all-record lock discipline, the transaction state machine over a
//! shadow table, and the introspection calls.

use vstd::prelude::*;
use vstd::string::StringExecFns;
use vstd::wrapping::u64_specs;
use crate::errors::Error;
use crate::flags::{
    Flags, StoreFlags, ALLOW_NESTING_BIT, CLEAR_IF_FIRST_BIT, DISALLOW_NESTING_BIT, INTERNAL_BIT,
    MUTEX_LOCKING_BIT, NOLOCK_BIT, NOMMAP_BIT, SEQNUM_BIT, VOLATILE_BIT, INCOMPATIBLE_HASH_BIT,
    O_CREAT, O_RDWR,
};
use crate::iter::{
    buf_views, key_seq, lemma_iteration_covers, lemma_iteration_distinct, lemma_iteration_step,
    pair_keys, successor, table_first_key, table_keys, table_next_key, table_pairs,
};
use crate::table::live_need;
use crate::table::{
    appended_value, lemma_dead_count_nonneg, rec_need, Table, BUCKET_PTR_LEN, FILE_HEADER_LEN,
};

verus! {

/// The default bucket count when none is asked for.
pub const DEFAULT_HASH_SIZE: u32 = 131;

/// The default per-chain dead-record threshold under the volatile flag.
pub const DEFAULT_VOLATILE_MAX_DEAD: u32 = 5;

/// A trivial database: an open handle on one key/value store.
///
/// The store itself is held in memory; a durability layer outside the
/// engine exchanges plain byte buffers with it. One handle serializes its
/// own callers, so the blocking and non-blocking lock and transaction
/// calls differ only in name here: nothing ever contends.
pub struct Tdb {
    live: Table,
    shadow: Option<Table>,
    depth: u32,
    prepared: bool,
    write_locks: u32,
    read_locks: u32,
    db_name: String,
    flags: u32,
    read_only: bool,
    seqnum: u64,
    max_dead: u32,
}

/// Whether a combination of creation flags and open(2)-style flags can
/// open a database: the two nesting flags exclude one another, the
/// robust-mutex variant demands clear-if-first, and the access mode must
/// be read-only or read-write.
pub open spec fn open_args_ok(bits: u32, open_flags: i32) -> bool {
    &&& !(bits & ALLOW_NESTING_BIT != 0 && bits & DISALLOW_NESTING_BIT != 0)
    &&& (bits & MUTEX_LOCKING_BIT != 0 ==> bits & CLEAR_IF_FIRST_BIT != 0)
    &&& (open_flags & 3 == 0 || open_flags & 3 == 2)
}

/// The flag word a database keeps for a requested word: the in-memory
/// flag implies no locking and no mmap.
pub open spec fn effective_flags(bits: u32) -> u32 {
    if bits & INTERNAL_BIT != 0 {
        bits | NOLOCK_BIT | NOMMAP_BIT
    } else {
        bits
    }
}

impl View for Tdb {
    type V = Map<Seq<u8>, Seq<u8>>;

    /// The content this handle reads and writes: the transaction shadow's
    /// map while one is open, the live table's map otherwise.
    closed spec fn view(&self) -> Map<Seq<u8>, Seq<u8>> {
        self.tbl().as_map()
    }
}

impl Tdb {
    /// The table every read and write currently goes to: the transaction
    /// shadow while one is open, the live table otherwise.
    pub(crate) closed spec fn tbl(self) -> Table {
        match self.shadow {
            Some(t) => t,
            None => self.live,
        }
    }

    /// The handle is well formed: the live table is, a shadow exists
    /// exactly while a transaction is open and mirrors the live table's
    /// shape, and a prepared commit implies an open transaction.
    pub closed spec fn inv(self) -> bool {
        &&& self.live.wf()
        &&& self.live.space.base == FILE_HEADER_LEN + BUCKET_PTR_LEN * self.live.n()
        &&& (self.depth > 0 <==> self.shadow is Some)
        &&& (match self.shadow {
            Some(t) => t.wf() && t.n() == self.live.n() && t.improved_hash
                == self.live.improved_hash && t.space.base == self.live.space.base,
            None => true,
        })
        &&& (self.prepared ==> self.depth > 0)
    }

    /// The content another handle on the same store would see: the live
    /// table, untouched by an open transaction's buffered writes.
    pub closed spec fn committed(self) -> Map<Seq<u8>, Seq<u8>> {
        self.live.as_map()
    }

    /// The open transaction's nesting depth; zero when idle.
    pub closed spec fn tx_depth(self) -> int {
        self.depth as int
    }

    /// Whether a prepare-commit phase is pending.
    pub closed spec fn tx_prepared(self) -> bool {
        self.prepared
    }

    /// How many all-record write locks the handle holds.
    pub closed spec fn held_write_locks(self) -> int {
        self.write_locks as int
    }

    /// How many all-record read locks the handle holds.
    pub closed spec fn held_read_locks(self) -> int {
        self.read_locks as int
    }

    /// The database's flag word.
    pub closed spec fn flag_bits(self) -> u32 {
        self.flags
    }

    /// Whether the handle was opened read-only.
    pub closed spec fn is_read_only(self) -> bool {
        self.read_only
    }

    /// The current sequence number.
    pub closed spec fn seq_no(self) -> u64 {
        self.seqnum
    }

    /// The per-chain dead-record threshold; zero splices immediately.
    pub closed spec fn dead_threshold(self) -> u32 {
        self.max_dead
    }

    /// The bucket count, fixed at creation.
    pub closed spec fn hash_count(self) -> int {
        self.live.n()
    }

    /// The current size of the simulated file behind the visible table.
    pub closed spec fn spec_map_size(self) -> int {
        self.tbl().space.map_size as int
    }

    /// The number of spans on the visible table's freelist.
    pub closed spec fn spec_freelist_len(self) -> int {
        self.tbl().space.free@.len() as int
    }

    /// The file space the visible table's live records need: what a
    /// compact file holds beyond the header and the directory.
    pub closed spec fn spec_content_need(self) -> int {
        live_need(self.tbl())
    }

    /// The name the database was opened under.
    pub closed spec fn name_of(self) -> Seq<char> {
        self.db_name@
    }

    /// Whether transactions may nest.
    pub open spec fn nesting_allowed(self) -> bool {
        self.flag_bits() & ALLOW_NESTING_BIT != 0
    }

    /// Whether a sequence number is maintained.
    pub open spec fn seqnum_enabled(self) -> bool {
        self.flag_bits() & SEQNUM_BIT != 0
    }

    /// Whether all locking is switched off.
    pub open spec fn no_lock_mode(self) -> bool {
        self.flag_bits() & NOLOCK_BIT != 0
    }

    /// Whether a create-or-replace of `k` with `v` can find space.
    pub closed spec fn can_store(self, k: Seq<u8>, v: Seq<u8>) -> bool {
        self.tbl().upsert_ok(k, v)
    }

    /// Open a database and create it if necessary.
    ///
    /// The store lives in memory for every name; the name is kept for
    /// introspection. Returns no handle exactly when the flag combination
    /// is invalid.
    ///
    /// # Arguments
    ///
    /// * `name` - The name of the db to open.
    /// * `hash_size` - The hash size is advisory; leave `None` for a default.
    /// * `tdb_flags` - The creation flags to open the db with.
    /// * `open_flags` - Flags in the style of the open(2) function.
    /// * `mode` - The file mode in the style of the open(2) function.
    pub fn open(
        name: &str,
        hash_size: Option<u32>,
        tdb_flags: Flags,
        open_flags: i32,
        mode: u32,
    ) -> (r: Option<Tdb>)
        ensures
            r is Some <==> open_args_ok(tdb_flags.spec_bits(), open_flags),
            r matches Some(db) ==> {
                &&& db.inv()
                &&& db@ == Map::<Seq<u8>, Seq<u8>>::empty()
                &&& db.committed() == Map::<Seq<u8>, Seq<u8>>::empty()
                &&& db.tx_depth() == 0
                &&& !db.tx_prepared()
                &&& db.held_write_locks() == 0
                &&& db.held_read_locks() == 0
                &&& db.flag_bits() == effective_flags(tdb_flags.spec_bits())
                &&& db.is_read_only() == (open_flags & 3 == 0)
                &&& db.seq_no() == 0
                &&& db.hash_count() == (match hash_size {
                    Some(h) => if h == 0 { DEFAULT_HASH_SIZE as int } else { h as int },
                    None => DEFAULT_HASH_SIZE as int,
                })
                &&& db.dead_threshold() == (if tdb_flags.spec_bits() & VOLATILE_BIT != 0 {
                    DEFAULT_VOLATILE_MAX_DEAD
                } else {
                    0u32
                })
                &&& db.name_of() == name@
                &&& db.spec_map_size() == FILE_HEADER_LEN + BUCKET_PTR_LEN * db.hash_count()
                &&& db.spec_freelist_len() == 0
            },
    {
        let _ = mode;
        let bits = tdb_flags.bits();
        if bits & ALLOW_NESTING_BIT != 0 && bits & DISALLOW_NESTING_BIT != 0 {
            return None;
        }
        if bits & MUTEX_LOCKING_BIT != 0 && bits & CLEAR_IF_FIRST_BIT == 0 {
            return None;
        }
        let accmode = open_flags & 3;
        if accmode != 0 && accmode != 2 {
            return None;
        }
        let n = match hash_size {
            Some(h) => if h == 0 {
                DEFAULT_HASH_SIZE
            } else {
                h
            },
            None => DEFAULT_HASH_SIZE,
        };
        let eff = if bits & INTERNAL_BIT != 0 {
            bits | NOLOCK_BIT | NOMMAP_BIT
        } else {
            bits
        };
        let live = Table::new(n, bits & INCOMPATIBLE_HASH_BIT != 0);
        Some(
            Tdb {
                live,
                shadow: None,
                depth: 0,
                prepared: false,
                write_locks: 0,
                read_locks: 0,
                db_name: name.to_owned(),
                flags: eff,
                read_only: accmode == 0,
                seqnum: 0,
                max_dead: if bits & VOLATILE_BIT != 0 {
                    DEFAULT_VOLATILE_MAX_DEAD
                } else {
                    0
                },
            },
        )
    }

    /// Create a database in memory.
    ///
    /// # Arguments
    ///
    /// * `hash_size` - The hash size is advisory; leave `None` for a default.
    /// * `tdb_flags` - The creation flags to open the db with.
    pub fn memory(hash_size: Option<u32>, tdb_flags: Flags) -> (r: Option<Tdb>)
        ensures
            r is Some <==> open_args_ok(
                tdb_flags.spec_bits() | INTERNAL_BIT,
                O_RDWR | O_CREAT,
            ),
            r matches Some(db) ==> {
                &&& db.inv()
                &&& db@ == Map::<Seq<u8>, Seq<u8>>::empty()
                &&& db.committed() == Map::<Seq<u8>, Seq<u8>>::empty()
                &&& db.tx_depth() == 0
                &&& !db.tx_prepared()
                &&& db.held_write_locks() == 0
                &&& db.held_read_locks() == 0
                &&& db.flag_bits() == effective_flags(tdb_flags.spec_bits() | INTERNAL_BIT)
                &&& !db.is_read_only()
                &&& db.seq_no() == 0
                &&& db.hash_count() == (match hash_size {
                    Some(h) => if h == 0 { DEFAULT_HASH_SIZE as int } else { h as int },
                    None => DEFAULT_HASH_SIZE as int,
                })
                &&& db.dead_threshold() == (if tdb_flags.spec_bits() & VOLATILE_BIT != 0 {
                    DEFAULT_VOLATILE_MAX_DEAD
                } else {
                    0u32
                })
                &&& db.name_of() == ":memory:"@
                &&& db.spec_map_size() == FILE_HEADER_LEN + BUCKET_PTR_LEN * db.hash_count()
                &&& db.spec_freelist_len() == 0
            },
    {
        proof {
            assert(((2i32 | 64i32) & 3i32) == 2i32) by (bit_vector);
            let b = tdb_flags.bits;
            assert(((b | 2u32) & 256u32) == (b & 256u32)) by (bit_vector);
        }
        let mut tdb_flags = tdb_flags;
        tdb_flags.insert(Flags::internal());
        Tdb::open(":memory:", hash_size, tdb_flags, O_RDWR | O_CREAT, 0)
    }

    /// Fetch a value from the database.
    ///
    /// # Arguments
    /// * `key` - The key to fetch.
    ///
    /// # Returns
    ///
    /// * `Ok(Some(value))` - The value associated with the key.
    /// * `Ok(None)` - The key was not found; absence is not an error.
    pub fn fetch(&self, key: &[u8]) -> (r: Result<Option<Vec<u8>>, Error>)
        requires
            self.inv(),
        ensures
            match r {
                Ok(Some(v)) => self@.contains_key(key@) && v@ == self@[key@],
                Ok(None) => !self@.contains_key(key@),
                Err(_) => false,
            },
    {
        let found = match &self.shadow {
            Some(t) => t.fetch(key),
            None => self.live.fetch(key),
        };
        Ok(found)
    }

    /// Check if a particular key exists.
    pub fn exists_key(&self, key: &[u8]) -> (r: bool)
        requires
            self.inv(),
        ensures
            r == self@.contains_key(key@),
    {
        match &self.shadow {
            Some(t) => t.exists_key(key),
            None => self.live.exists_key(key),
        }
    }

    /// Store a key/value pair in the database.
    ///
    /// The default mode creates or overwrites; `Insert` refuses a present
    /// key with `Exists`, `Modify` refuses an absent key with `NoExist`.
    /// A read-only handle refuses every store with `ReadOnly`; a handle
    /// whose transaction is prepared refuses it with `Invalid`. With no
    /// space left the store fails with `OOM` and changes nothing.
    ///
    /// # Arguments
    ///
    /// * `key` - The key to store.
    /// * `val` - The value to store.
    /// * `flags` - The mode to store under.
    pub fn store(&mut self, key: &[u8], val: &[u8], flags: Option<StoreFlags>) -> (r: Result<
        (),
        Error,
    >)
        requires
            old(self).inv(),
            rec_need(key@, val@) <= u64::MAX,
        ensures
            final(self).inv(),
            final(self).admin_eq(*old(self)),
            old(self).is_read_only() ==> r == Err::<(), Error>(Error::ReadOnly) && *final(self)
                == *old(self),
            !old(self).is_read_only() && old(self).tx_prepared() ==> r == Err::<(), Error>(
                Error::Invalid,
            ) && *final(self) == *old(self),
            !old(self).is_read_only() && !old(self).tx_prepared() && (flags matches Some(
                StoreFlags::Insert,
            )) && old(self)@.contains_key(key@) ==> r == Err::<(), Error>(Error::Exists) && *final(self) == *old(self),
            !old(self).is_read_only() && !old(self).tx_prepared() && (flags matches Some(
                StoreFlags::Modify,
            )) && !old(self)@.contains_key(key@) ==> r == Err::<(), Error>(Error::NoExist)
                && *final(self) == *old(self),
            !old(self).is_read_only() && !old(self).tx_prepared() && !((flags matches Some(
                StoreFlags::Insert,
            )) && old(self)@.contains_key(key@)) && !((flags matches Some(StoreFlags::Modify))
                && !old(self)@.contains_key(key@)) ==> {
                &&& r is Ok <==> old(self).can_store(key@, val@)
                &&& old(self).spec_map_size() + rec_need(key@, val@) <= u64::MAX ==> r is Ok
                &&& (r is Err ==> *final(self) == *old(self) && r == Err::<(), Error>(Error::OOM))
                &&& (r is Ok ==> final(self)@ == old(self)@.insert(key@, val@)
                    && final(self).mutated_from(*old(self)) && final(self).spec_map_size() <= old(self).spec_map_size() + rec_need(key@, val@))
            },
    {
        if self.read_only {
            return Err(Error::ReadOnly);
        }
        if self.prepared {
            return Err(Error::Invalid);
        }
        let r = match &mut self.shadow {
            Some(t) => t.store(key, val, flags),
            None => self.live.store(key, val, flags),
        };
        if r.is_ok() {
            self.bump_seqnum_direct();
        }
        r
    }

    /// Delete a key from the database.
    ///
    /// Fails with `NoExist` when the key is absent, `ReadOnly` on a
    /// read-only handle, `Invalid` while a commit is prepared.
    ///
    /// # Arguments
    ///
    /// * `key` - The key to delete.
    pub fn delete(&mut self, key: &[u8]) -> (r: Result<(), Error>)
        requires
            old(self).inv(),
        ensures
            final(self).inv(),
            final(self).admin_eq(*old(self)),
            old(self).is_read_only() ==> r == Err::<(), Error>(Error::ReadOnly) && *final(self)
                == *old(self),
            !old(self).is_read_only() && old(self).tx_prepared() ==> r == Err::<(), Error>(
                Error::Invalid,
            ) && *final(self) == *old(self),
            !old(self).is_read_only() && !old(self).tx_prepared() ==> {
                &&& r is Ok <==> old(self)@.contains_key(key@)
                &&& (r is Err ==> *final(self) == *old(self) && r == Err::<(), Error>(
                    Error::NoExist,
                ))
                &&& (r is Ok ==> final(self)@ == old(self)@.remove(key@) && final(self).mutated_from(*old(self)) && final(self).spec_map_size() == old(self).spec_map_size())
                &&& (r is Ok && old(self).dead_threshold() == 0 ==> final(self).spec_freelist_len() == old(self).spec_freelist_len() + 1)
                &&& (r is Ok && old(self).dead_threshold() > 0 ==> final(self).spec_freelist_len()
                    >= old(self).spec_freelist_len())
            },
    {
        if self.read_only {
            return Err(Error::ReadOnly);
        }
        if self.prepared {
            return Err(Error::Invalid);
        }
        let max_dead = self.max_dead;
        let ghost pre = self.tbl();
        let r = match &mut self.shadow {
            Some(t) => t.delete(key, max_dead),
            None => self.live.delete(key, max_dead),
        };
        proof {
            if r is Ok && max_dead > 0 {
                lemma_dead_count_nonneg(pre.chain(pre.bucket_of(key@)), 0);
            }
        }
        if r.is_ok() {
            self.bump_seqnum_direct();
        }
        r
    }

    /// Append a value to an existing key, treating an absent key as
    /// holding the empty value.
    ///
    /// # Arguments
    /// * `key` - The key to append to.
    /// * `val` - The value to append.
    pub fn append(&mut self, key: &[u8], val: &[u8]) -> (r: Result<(), Error>)
        requires
            old(self).inv(),
            rec_need(key@, appended_value(old(self)@, key@, val@)) <= u64::MAX,
        ensures
            final(self).inv(),
            final(self).admin_eq(*old(self)),
            old(self).is_read_only() ==> r == Err::<(), Error>(Error::ReadOnly) && *final(self)
                == *old(self),
            !old(self).is_read_only() && old(self).tx_prepared() ==> r == Err::<(), Error>(
                Error::Invalid,
            ) && *final(self) == *old(self),
            !old(self).is_read_only() && !old(self).tx_prepared() ==> {
                &&& r is Ok <==> old(self).can_store(key@, appended_value(old(self)@, key@, val@))
                &&& old(self).spec_map_size() + rec_need(
                    key@,
                    appended_value(old(self)@, key@, val@),
                ) <= u64::MAX ==> r is Ok
                &&& (r is Err ==> *final(self) == *old(self) && r == Err::<(), Error>(Error::OOM))
                &&& (r is Ok ==> final(self)@ == old(self)@.insert(
                    key@,
                    appended_value(old(self)@, key@, val@),
                ) && final(self).mutated_from(*old(self)) && final(self).spec_map_size() <= old(self).spec_map_size() + rec_need(key@, appended_value(old(self)@, key@, val@)))
            },
    {
        if self.read_only {
            return Err(Error::ReadOnly);
        }
        if self.prepared {
            return Err(Error::Invalid);
        }
        proof {
            assert(self.tbl().as_map() == self@);
        }
        let r = match &mut self.shadow {
            Some(t) => t.append(key, val),
            None => self.live.append(key, val),
        };
        if r.is_ok() {
            self.bump_seqnum_direct();
        }
        r
    }

    /// What every mutation leaves alone, and how it treats the committed
    /// content and the sequence number: an open transaction buffers the
    /// change invisibly to other handles, a direct change commits at once
    /// and bumps the sequence number when one is kept.
    pub open spec fn mutated_from(self, o: Tdb) -> bool {
        &&& (o.tx_depth() > 0 ==> self.committed() == o.committed())
        &&& (o.tx_depth() == 0 ==> self.committed() == self@)
        &&& self.seq_no() == (if o.seqnum_enabled() && o.tx_depth() == 0 {
            u64_specs::wrapping_add(o.seq_no(), 1)
        } else {
            o.seq_no()
        })
    }

    /// What no data operation changes: the handle's administrative state.
    pub open spec fn admin_eq(self, o: Tdb) -> bool {
        &&& self.tx_depth() == o.tx_depth()
        &&& self.tx_prepared() == o.tx_prepared()
        &&& self.held_write_locks() == o.held_write_locks()
        &&& self.held_read_locks() == o.held_read_locks()
        &&& self.flag_bits() == o.flag_bits()
        &&& self.is_read_only() == o.is_read_only()
        &&& self.hash_count() == o.hash_count()
        &&& self.dead_threshold() == o.dead_threshold()
        &&& self.name_of() == o.name_of()
    }

    /// Every live key, in iteration order.
    pub closed spec fn iteration_order(self) -> Seq<Seq<u8>> {
        key_seq(self.tbl())
    }

    /// The key the iteration yields after `prev`.
    pub closed spec fn next_of(self, prev: Seq<u8>) -> Option<Seq<u8>> {
        successor(self.tbl(), prev)
    }

    /// The first key of the iteration, scanning buckets from index zero;
    /// `None` on an empty database.
    pub fn first_key(&self) -> (r: Option<Vec<u8>>)
        requires
            self.inv(),
        ensures
            match r {
                None => self.iteration_order().len() == 0,
                Some(k) => self.iteration_order().len() > 0 && k@ == self.iteration_order()[0],
            },
    {
        match &self.shadow {
            Some(t) => table_first_key(t),
            None => table_first_key(&self.live),
        }
    }

    /// The key after `prev` in iteration order: `prev` is re-hashed and
    /// relocated, and the walk continues behind it; `None` at the end.
    pub fn next_key(&self, prev: &[u8]) -> (r: Option<Vec<u8>>)
        requires
            self.inv(),
        ensures
            match r {
                None => self.next_of(prev@) is None,
                Some(k) => self.next_of(prev@) == Some(k@),
            },
    {
        match &self.shadow {
            Some(t) => {
                proof {
                    assert(self.tbl() == *t);
                }
                table_next_key(t, prev)
            },
            None => {
                proof {
                    assert(self.tbl() == self.live);
                }
                table_next_key(&self.live, prev)
            },
        }
    }

    /// Every key in the database, in iteration order.
    pub fn keys(&self) -> (r: Vec<Vec<u8>>)
        requires
            self.inv(),
        ensures
            buf_views(r@) == self.iteration_order(),
            r@.len() == self.iteration_order().len(),
            forall|i: int| 0 <= i < r@.len() ==> (#[trigger] r@[i])@ == self.iteration_order()[i],
    {
        match &self.shadow {
            Some(t) => table_keys(t),
            None => table_keys(&self.live),
        }
    }

    /// Every key/value pair in the database, in iteration order.
    pub fn iter(&self) -> (r: Vec<(Vec<u8>, Vec<u8>)>)
        requires
            self.inv(),
        ensures
            pair_keys(r@) == self.iteration_order(),
            r@.len() == self.iteration_order().len(),
            forall|i: int|
                0 <= i < r@.len() ==> (#[trigger] r@[i]).0@ == self.iteration_order()[i],
            forall|i: int|
                0 <= i < r@.len() ==> self@.contains_key((#[trigger] r@[i]).0@) && r@[i].1@
                    == self@[r@[i].0@],
    {
        match &self.shadow {
            Some(t) => table_pairs(t),
            None => table_pairs(&self.live),
        }
    }

    /// What a lock call leaves alone: everything but the two lock counts.
    pub open spec fn locks_aside_eq(self, o: Tdb) -> bool {
        &&& self@ == o@
        &&& self.committed() == o.committed()
        &&& self.tx_depth() == o.tx_depth()
        &&& self.tx_prepared() == o.tx_prepared()
        &&& self.flag_bits() == o.flag_bits()
        &&& self.is_read_only() == o.is_read_only()
        &&& self.seq_no() == o.seq_no()
        &&& self.hash_count() == o.hash_count()
        &&& self.dead_threshold() == o.dead_threshold()
        &&& self.name_of() == o.name_of()
        &&& self.iteration_order() == o.iteration_order()
    }

    /// Take the all-record lock exclusively. With locking switched off
    /// this does nothing; a read-only handle, a held read lock, or an
    /// exhausted counter refuse it. One handle never contends with
    /// itself, so this cannot block.
    pub fn lockall(&mut self) -> (r: Result<(), Error>)
        requires
            old(self).inv(),
        ensures
            final(self).inv(),
            old(self).no_lock_mode() ==> r is Ok && *final(self) == *old(self),
            !old(self).no_lock_mode() && old(self).is_read_only() ==> r == Err::<(), Error>(
                Error::ReadOnly,
            ) && *final(self) == *old(self),
            !old(self).no_lock_mode() && !old(self).is_read_only() && old(self).held_read_locks()
                > 0 ==> r == Err::<(), Error>(Error::Lock) && *final(self) == *old(self),
            !old(self).no_lock_mode() && !old(self).is_read_only() && old(self).held_read_locks()
                == 0 && old(self).held_write_locks() == u32::MAX ==> r == Err::<(), Error>(
                Error::Lock,
            ) && *final(self) == *old(self),
            !old(self).no_lock_mode() && !old(self).is_read_only() && old(self).held_read_locks()
                == 0 && old(self).held_write_locks() < u32::MAX ==> r is Ok && final(self).held_write_locks() == old(self).held_write_locks() + 1 && final(self).held_read_locks() == 0 && final(self).locks_aside_eq(*old(self)),
    {
        if self.flags & NOLOCK_BIT != 0 {
            return Ok(());
        }
        if self.read_only {
            return Err(Error::ReadOnly);
        }
        if self.read_locks > 0 {
            return Err(Error::Lock);
        }
        if self.write_locks == u32::MAX {
            return Err(Error::Lock);
        }
        self.write_locks = self.write_locks + 1;
        Ok(())
    }

    /// Take the all-record lock exclusively without blocking. One handle
    /// never contends with itself, so this refuses exactly what
    /// `lockall` refuses.
    pub fn lockall_nonblock(&mut self) -> (r: Result<(), Error>)
        requires
            old(self).inv(),
        ensures
            final(self).inv(),
            old(self).no_lock_mode() ==> r is Ok && *final(self) == *old(self),
            !old(self).no_lock_mode() && old(self).is_read_only() ==> r == Err::<(), Error>(
                Error::ReadOnly,
            ) && *final(self) == *old(self),
            !old(self).no_lock_mode() && !old(self).is_read_only() && old(self).held_read_locks()
                > 0 ==> r == Err::<(), Error>(Error::Lock) && *final(self) == *old(self),
            !old(self).no_lock_mode() && !old(self).is_read_only() && old(self).held_read_locks()
                == 0 && old(self).held_write_locks() == u32::MAX ==> r == Err::<(), Error>(
                Error::Lock,
            ) && *final(self) == *old(self),
            !old(self).no_lock_mode() && !old(self).is_read_only() && old(self).held_read_locks()
                == 0 && old(self).held_write_locks() < u32::MAX ==> r is Ok && final(self).held_write_locks() == old(self).held_write_locks() + 1 && final(self).held_read_locks() == 0 && final(self).locks_aside_eq(*old(self)),
    {
        self.lockall()
    }

    /// Release one exclusive all-record lock; refuses with `Lock` when
    /// none is held.
    pub fn unlockall(&mut self) -> (r: Result<(), Error>)
        requires
            old(self).inv(),
        ensures
            final(self).inv(),
            old(self).no_lock_mode() ==> r is Ok && *final(self) == *old(self),
            !old(self).no_lock_mode() && old(self).held_write_locks() == 0 ==> r == Err::<
                (),
                Error,
            >(Error::Lock) && *final(self) == *old(self),
            !old(self).no_lock_mode() && old(self).held_write_locks() > 0 ==> r is Ok && final(self).held_write_locks() == old(self).held_write_locks() - 1 && final(self).held_read_locks() == old(self).held_read_locks() && final(self).locks_aside_eq(
                *old(self),
            ),
    {
        if self.flags & NOLOCK_BIT != 0 {
            return Ok(());
        }
        if self.write_locks == 0 {
            return Err(Error::Lock);
        }
        self.write_locks = self.write_locks - 1;
        Ok(())
    }

    /// Take the all-record lock shared, for reading. A held exclusive
    /// lock or an exhausted counter refuse it.
    pub fn lockall_read(&mut self) -> (r: Result<(), Error>)
        requires
            old(self).inv(),
        ensures
            final(self).inv(),
            old(self).no_lock_mode() ==> r is Ok && *final(self) == *old(self),
            !old(self).no_lock_mode() && old(self).held_write_locks() > 0 ==> r == Err::<
                (),
                Error,
            >(Error::Lock) && *final(self) == *old(self),
            !old(self).no_lock_mode() && old(self).held_write_locks() == 0 && old(self).held_read_locks() == u32::MAX ==> r == Err::<(), Error>(Error::Lock) && *final(self)
                == *old(self),
            !old(self).no_lock_mode() && old(self).held_write_locks() == 0 && old(self).held_read_locks() < u32::MAX ==> r is Ok && final(self).held_read_locks() == old(self).held_read_locks() + 1 && final(self).held_write_locks() == 0 && final(self).locks_aside_eq(*old(self)),
    {
        if self.flags & NOLOCK_BIT != 0 {
            return Ok(());
        }
        if self.write_locks > 0 {
            return Err(Error::Lock);
        }
        if self.read_locks == u32::MAX {
            return Err(Error::Lock);
        }
        self.read_locks = self.read_locks + 1;
        Ok(())
    }

    /// Take the all-record lock shared without blocking; refuses exactly
    /// what `lockall_read` refuses.
    pub fn lockall_read_nonblock(&mut self) -> (r: Result<(), Error>)
        requires
            old(self).inv(),
        ensures
            final(self).inv(),
            old(self).no_lock_mode() ==> r is Ok && *final(self) == *old(self),
            !old(self).no_lock_mode() && old(self).held_write_locks() > 0 ==> r == Err::<
                (),
                Error,
            >(Error::Lock) && *final(self) == *old(self),
            !old(self).no_lock_mode() && old(self).held_write_locks() == 0 && old(self).held_read_locks() == u32::MAX ==> r == Err::<(), Error>(Error::Lock) && *final(self)
                == *old(self),
            !old(self).no_lock_mode() && old(self).held_write_locks() == 0 && old(self).held_read_locks() < u32::MAX ==> r is Ok && final(self).held_read_locks() == old(self).held_read_locks() + 1 && final(self).held_write_locks() == 0 && final(self).locks_aside_eq(*old(self)),
    {
        self.lockall_read()
    }

    /// Start a new transaction: take the all-record lock and open a
    /// private shadow of the store. While one is active a second start
    /// nests only under the allow-nesting flag, else it fails with
    /// `Nesting` and the outer transaction stands untouched; the
    /// all-record lock matters only for the outermost start.
    pub fn transaction_start(&mut self) -> (r: Result<(), Error>)
        requires
            old(self).inv(),
        ensures
            final(self).inv(),
            old(self).is_read_only() ==> r == Err::<(), Error>(Error::ReadOnly) && *final(self)
                == *old(self),
            !old(self).is_read_only() && old(self).tx_depth() > 0 && old(self).tx_prepared() ==> r
                == Err::<(), Error>(Error::Invalid) && *final(self) == *old(self),
            !old(self).is_read_only() && old(self).tx_depth() > 0 && !old(self).tx_prepared()
                && !old(self).nesting_allowed() ==> r == Err::<(), Error>(Error::Nesting)
                && *final(self) == *old(self),
            !old(self).is_read_only() && old(self).tx_depth() > 0 && !old(self).tx_prepared()
                && old(self).nesting_allowed() && old(self).tx_depth() == u32::MAX ==> r == Err::<
                (),
                Error,
            >(Error::Nesting) && *final(self) == *old(self),
            !old(self).is_read_only() && old(self).tx_depth() > 0 && !old(self).tx_prepared()
                && old(self).nesting_allowed() && old(self).tx_depth() < u32::MAX ==> r is Ok
                && final(self).tx_depth() == old(self).tx_depth() + 1 && final(self).tx_eq(
                *old(self),
            ),
            !old(self).is_read_only() && old(self).tx_depth() == 0 && old(self).held_write_locks() + old(self).held_read_locks() > 0 ==> r == Err::<(), Error>(
                Error::Lock,
            ) && *final(self) == *old(self),
            !old(self).is_read_only() && old(self).tx_depth() == 0 && old(self).held_write_locks() + old(self).held_read_locks() == 0 ==> r is Ok && final(self).tx_depth() == 1 && final(self).tx_eq(*old(self)),
    {
        if self.read_only {
            return Err(Error::ReadOnly);
        }
        if self.depth > 0 {
            if self.prepared {
                return Err(Error::Invalid);
            }
            if self.flags & ALLOW_NESTING_BIT == 0 {
                return Err(Error::Nesting);
            }
            if self.depth == u32::MAX {
                return Err(Error::Nesting);
            }
            self.depth = self.depth + 1;
            return Ok(());
        }
        if self.write_locks > 0 || self.read_locks > 0 {
            return Err(Error::Lock);
        }
        self.shadow = Some(self.live.duplicate());
        self.depth = 1;
        Ok(())
    }

    /// What a transaction boundary keeps: the visible and committed
    /// content, the flags, and the rest of the handle's state, with only
    /// the transaction fields moving.
    pub open spec fn tx_eq(self, o: Tdb) -> bool {
        &&& self@ == o@
        &&& self.committed() == o.committed()
        &&& self.spec_map_size() == o.spec_map_size()
        &&& self.spec_freelist_len() == o.spec_freelist_len()
        &&& !self.tx_prepared()
        &&& self.held_write_locks() == o.held_write_locks()
        &&& self.held_read_locks() == o.held_read_locks()
        &&& self.flag_bits() == o.flag_bits()
        &&& self.is_read_only() == o.is_read_only()
        &&& self.seq_no() == o.seq_no()
        &&& self.hash_count() == o.hash_count()
        &&& self.dead_threshold() == o.dead_threshold()
        &&& self.name_of() == o.name_of()
    }

    /// Start a new transaction without blocking. One handle never
    /// contends with itself, so this refuses exactly what
    /// `transaction_start` refuses.
    pub fn transaction_start_nonblock(&mut self) -> (r: Result<(), Error>)
        requires
            old(self).inv(),
        ensures
            final(self).inv(),
            old(self).is_read_only() ==> r == Err::<(), Error>(Error::ReadOnly) && *final(self)
                == *old(self),
            !old(self).is_read_only() && old(self).tx_depth() > 0 && !old(self).tx_prepared()
                && !old(self).nesting_allowed() ==> r == Err::<(), Error>(Error::Nesting)
                && *final(self) == *old(self),
            !old(self).is_read_only() && old(self).tx_depth() == 0 && old(self).held_write_locks() + old(self).held_read_locks() > 0 ==> r == Err::<(), Error>(
                Error::Lock,
            ) && *final(self) == *old(self),
            !old(self).is_read_only() && old(self).tx_depth() == 0 && old(self).held_write_locks() + old(self).held_read_locks() == 0 ==> r is Ok && final(self).tx_depth() == 1 && final(self).tx_eq(*old(self)),
    {
        self.transaction_start()
    }

    /// Check if a transaction is active.
    pub fn transaction_active(&self) -> (r: bool)
        requires
            self.inv(),
        ensures
            r == (self.tx_depth() > 0),
    {
        self.depth > 0
    }

    /// Prepare to commit: flush the buffered writes toward durability
    /// without applying them, so an external coordinator can confirm
    /// before `transaction_commit` makes them visible.
    pub fn transaction_prepare_commit(&mut self) -> (r: Result<(), Error>)
        requires
            old(self).inv(),
        ensures
            final(self).inv(),
            old(self).tx_depth() == 0 ==> r == Err::<(), Error>(Error::Invalid) && *final(self)
                == *old(self),
            old(self).tx_depth() > 0 && old(self).tx_prepared() ==> r == Err::<(), Error>(
                Error::Invalid,
            ) && *final(self) == *old(self),
            old(self).tx_depth() > 0 && !old(self).tx_prepared() ==> r is Ok && final(self).tx_prepared() && final(self).tx_depth() == old(self).tx_depth() && final(self).prepared_eq(*old(self)),
    {
        if self.depth == 0 {
            return Err(Error::Invalid);
        }
        if self.prepared {
            return Err(Error::Invalid);
        }
        self.prepared = true;
        Ok(())
    }

    /// What preparing a commit keeps: everything but the prepared bit.
    pub open spec fn prepared_eq(self, o: Tdb) -> bool {
        &&& self@ == o@
        &&& self.committed() == o.committed()
        &&& self.held_write_locks() == o.held_write_locks()
        &&& self.held_read_locks() == o.held_read_locks()
        &&& self.flag_bits() == o.flag_bits()
        &&& self.is_read_only() == o.is_read_only()
        &&& self.seq_no() == o.seq_no()
        &&& self.hash_count() == o.hash_count()
        &&& self.dead_threshold() == o.dead_threshold()
        &&& self.name_of() == o.name_of()
    }

    /// Commit the transaction: the outermost commit applies the shadow to
    /// the live store in one pass, so the buffered writes become visible
    /// to every handle at once; a nested commit only closes its level.
    pub fn transaction_commit(&mut self) -> (r: Result<(), Error>)
        requires
            old(self).inv(),
        ensures
            final(self).inv(),
            old(self).tx_depth() == 0 ==> r == Err::<(), Error>(Error::Invalid) && *final(self)
                == *old(self),
            old(self).tx_depth() > 1 ==> r is Ok && final(self).tx_depth() == old(self).tx_depth()
                - 1 && final(self)@ == old(self)@ && final(self).committed() == old(self).committed() && final(self).tx_prepared() == old(self).tx_prepared() && final(self).prepared_eq_aside(*old(self)),
            old(self).tx_depth() == 1 ==> r is Ok && final(self).tx_depth() == 0 && !final(self).tx_prepared() && final(self)@ == old(self)@ && final(self).committed() == old(self)@ && final(self).seq_no() == (if old(self).seqnum_enabled() {
                u64_specs::wrapping_add(old(self).seq_no(), 1)
            } else {
                old(self).seq_no()
            }) && final(self).commit_eq(*old(self)),
    {
        if self.depth == 0 {
            return Err(Error::Invalid);
        }
        if self.depth > 1 {
            self.depth = self.depth - 1;
            return Ok(());
        }
        let mut sh: Option<Table> = None;
        std::mem::swap(&mut sh, &mut self.shadow);
        match sh {
            Some(t) => {
                self.live = t;
            },
            None => {
                proof {
                    assert(false);
                }
            },
        }
        self.depth = 0;
        self.prepared = false;
        if self.flags & SEQNUM_BIT != 0 {
            self.seqnum = self.seqnum.wrapping_add(1);
        }
        Ok(())
    }

    /// What a nested transaction boundary keeps besides the depth.
    pub open spec fn prepared_eq_aside(self, o: Tdb) -> bool {
        &&& self.held_write_locks() == o.held_write_locks()
        &&& self.held_read_locks() == o.held_read_locks()
        &&& self.flag_bits() == o.flag_bits()
        &&& self.is_read_only() == o.is_read_only()
        &&& self.seq_no() == o.seq_no()
        &&& self.hash_count() == o.hash_count()
        &&& self.dead_threshold() == o.dead_threshold()
        &&& self.name_of() == o.name_of()
    }

    /// What an outermost commit or cancel keeps.
    pub open spec fn commit_eq(self, o: Tdb) -> bool {
        &&& self.held_write_locks() == o.held_write_locks()
        &&& self.held_read_locks() == o.held_read_locks()
        &&& self.flag_bits() == o.flag_bits()
        &&& self.is_read_only() == o.is_read_only()
        &&& self.hash_count() == o.hash_count()
        &&& self.dead_threshold() == o.dead_threshold()
        &&& self.name_of() == o.name_of()
    }

    /// Cancel the transaction: the outermost cancel discards the shadow
    /// and the store reads exactly as before the transaction started; a
    /// nested cancel only closes its level.
    pub fn transaction_cancel(&mut self) -> (r: Result<(), Error>)
        requires
            old(self).inv(),
        ensures
            final(self).inv(),
            old(self).tx_depth() == 0 ==> r == Err::<(), Error>(Error::Invalid) && *final(self)
                == *old(self),
            old(self).tx_depth() > 1 ==> r is Ok && final(self).tx_depth() == old(self).tx_depth()
                - 1 && final(self)@ == old(self)@ && final(self).committed() == old(self).committed() && final(self).tx_prepared() == old(self).tx_prepared() && final(self).prepared_eq_aside(*old(self)),
            old(self).tx_depth() == 1 ==> r is Ok && final(self).tx_depth() == 0 && !final(self).tx_prepared() && final(self)@ == old(self).committed() && final(self).committed()
                == old(self).committed() && final(self).seq_no() == old(self).seq_no() && final(self).commit_eq(*old(self)),
    {
        if self.depth == 0 {
            return Err(Error::Invalid);
        }
        if self.depth > 1 {
            self.depth = self.depth - 1;
            return Ok(());
        }
        self.shadow = None;
        self.depth = 0;
        self.prepared = false;
        Ok(())
    }

    /// Set the maximum number of dead records per hash chain. A positive
    /// threshold makes deletes leave tombstones that are reclaimed once a
    /// chain holds more than this many.
    pub fn set_max_dead(&mut self, max_dead: u32)
        requires
            old(self).inv(),
        ensures
            final(self).inv(),
            final(self).dead_threshold() == max_dead,
            final(self)@ == old(self)@,
            final(self).committed() == old(self).committed(),
            final(self).tx_depth() == old(self).tx_depth(),
            final(self).tx_prepared() == old(self).tx_prepared(),
            final(self).held_write_locks() == old(self).held_write_locks(),
            final(self).held_read_locks() == old(self).held_read_locks(),
            final(self).flag_bits() == old(self).flag_bits(),
            final(self).is_read_only() == old(self).is_read_only(),
            final(self).seq_no() == old(self).seq_no(),
            final(self).hash_count() == old(self).hash_count(),
            final(self).name_of() == old(self).name_of(),
            final(self).iteration_order() == old(self).iteration_order(),
    {
        self.max_dead = max_dead;
    }

    /// Reopen the database.
    ///
    /// This re-establishes locks and seek state after a fork; for the
    /// in-memory store there is nothing to re-acquire, but a handle in
    /// the middle of a transaction refuses, as the shadow cannot be
    /// carried across.
    pub fn reopen(&mut self) -> (r: Result<(), Error>)
        requires
            old(self).inv(),
        ensures
            final(self).inv(),
            *final(self) == *old(self),
            old(self).tx_depth() > 0 ==> r == Err::<(), Error>(Error::Invalid),
            old(self).tx_depth() == 0 ==> r is Ok,
    {
        if self.depth > 0 {
            return Err(Error::Invalid);
        }
        Ok(())
    }

    /// Return the name of the database.
    pub fn name(&self) -> (r: &str)
        ensures
            r@ == self.name_of(),
    {
        self.db_name.as_str()
    }

    /// Return the hash size used by the database.
    pub fn hash_size(&self) -> (r: u32)
        requires
            self.inv(),
        ensures
            r as int == self.hash_count(),
    {
        self.live.buckets.len() as u32
    }

    /// Return the map size used by the database, as a 32-bit word.
    pub fn map_size(&self) -> (r: u32)
        requires
            self.inv(),
        ensures
            r as int == self.spec_map_size() % 0x1_0000_0000,
    {
        let ms = match &self.shadow {
            Some(t) => t.space.map_size,
            None => self.live.space.map_size,
        };
        (ms % 0x1_0000_0000u64) as u32
    }

    /// Return the current sequence number.
    pub fn get_seqnum(&self) -> (r: u64)
        ensures
            r == self.seq_no(),
    {
        self.seqnum
    }

    /// Return the current flags.
    pub fn get_flags(&self) -> (r: Flags)
        ensures
            r.spec_bits() == self.flag_bits(),
    {
        Flags { bits: self.flags }
    }

    /// The flag word after adding `f`: the in-memory bit cannot be
    /// changed, and each nesting flag clears its opposite.
    pub open spec fn added_flags(old_bits: u32, f: u32) -> u32 {
        let f2 = f & !INTERNAL_BIT;
        let w = old_bits | f2;
        let w2 = if f2 & ALLOW_NESTING_BIT != 0 {
            w & !DISALLOW_NESTING_BIT
        } else {
            w
        };
        if f2 & DISALLOW_NESTING_BIT != 0 {
            w2 & !ALLOW_NESTING_BIT
        } else {
            w2
        }
    }

    /// Add flags to the database's flag word.
    pub fn add_flags(&mut self, flags: Flags)
        requires
            old(self).inv(),
        ensures
            final(self).inv(),
            final(self).flag_bits() == Tdb::added_flags(
                old(self).flag_bits(),
                flags.spec_bits(),
            ),
            final(self).flags_aside_eq(*old(self)),
    {
        let f2 = flags.bits & !INTERNAL_BIT;
        let mut w = self.flags | f2;
        if f2 & ALLOW_NESTING_BIT != 0 {
            w = w & !DISALLOW_NESTING_BIT;
        }
        if f2 & DISALLOW_NESTING_BIT != 0 {
            w = w & !ALLOW_NESTING_BIT;
        }
        self.flags = w;
    }

    /// Remove flags from the database's flag word; the in-memory bit
    /// cannot be changed.
    pub fn remove_flags(&mut self, flags: Flags)
        requires
            old(self).inv(),
        ensures
            final(self).inv(),
            final(self).flag_bits() == old(self).flag_bits() & !(flags.spec_bits()
                & !INTERNAL_BIT),
            final(self).flags_aside_eq(*old(self)),
    {
        self.flags = self.flags & !(flags.bits & !INTERNAL_BIT);
    }

    /// Enable sequence numbers.
    pub fn enable_seqnum(&mut self)
        requires
            old(self).inv(),
        ensures
            final(self).inv(),
            final(self).flag_bits() == old(self).flag_bits() | SEQNUM_BIT,
            final(self).seqnum_enabled(),
            final(self).flags_aside_eq(*old(self)),
    {
        self.flags = self.flags | SEQNUM_BIT;
        proof {
            let f = old(self).flags;
            assert((f | 128u32) & 128u32 != 0u32) by (bit_vector);
        }
    }

    /// What a flag change keeps: everything but the flag word.
    pub open spec fn flags_aside_eq(self, o: Tdb) -> bool {
        &&& self@ == o@
        &&& self.committed() == o.committed()
        &&& self.tx_depth() == o.tx_depth()
        &&& self.tx_prepared() == o.tx_prepared()
        &&& self.held_write_locks() == o.held_write_locks()
        &&& self.held_read_locks() == o.held_read_locks()
        &&& self.is_read_only() == o.is_read_only()
        &&& self.seq_no() == o.seq_no()
        &&& self.hash_count() == o.hash_count()
        &&& self.dead_threshold() == o.dead_threshold()
        &&& self.name_of() == o.name_of()
        &&& self.iteration_order() == o.iteration_order()
    }

    /// Increment the sequence number, when one is maintained, without
    /// taking any lock.
    pub fn increment_seqnum_nonblock(&mut self)
        requires
            old(self).inv(),
        ensures
            final(self).inv(),
            final(self).seq_no() == (if old(self).seqnum_enabled() {
                u64_specs::wrapping_add(old(self).seq_no(), 1)
            } else {
                old(self).seq_no()
            }),
            final(self).seqnum_aside_eq(*old(self)),
    {
        if self.flags & SEQNUM_BIT != 0 {
            self.seqnum = self.seqnum.wrapping_add(1);
        }
    }

    /// What a sequence-number change keeps: everything else.
    pub open spec fn seqnum_aside_eq(self, o: Tdb) -> bool {
        &&& self@ == o@
        &&& self.committed() == o.committed()
        &&& self.tx_depth() == o.tx_depth()
        &&& self.tx_prepared() == o.tx_prepared()
        &&& self.held_write_locks() == o.held_write_locks()
        &&& self.held_read_locks() == o.held_read_locks()
        &&& self.flag_bits() == o.flag_bits()
        &&& self.is_read_only() == o.is_read_only()
        &&& self.hash_count() == o.hash_count()
        &&& self.dead_threshold() == o.dead_threshold()
        &&& self.name_of() == o.name_of()
        &&& self.iteration_order() == o.iteration_order()
    }

    /// Return the freelist size, as a 32-bit word.
    pub fn freelist_size(&self) -> (r: u32)
        requires
            self.inv(),
        ensures
            r as int == self.spec_freelist_len() % 0x1_0000_0000,
    {
        let len = match &self.shadow {
            Some(t) => t.space.freelist_len(),
            None => self.live.space.freelist_len(),
        };
        ((len as u64) % 0x1_0000_0000u64) as u32
    }

    /// Repack the database: reclaim every tombstone and rewrite every
    /// live record onto a span of exactly its need, so the file holds
    /// the header, the directory and the live records with zero
    /// fragmentation and an empty freelist, the content unchanged. An
    /// offline maintenance operation: it refuses inside a transaction
    /// and on a read-only handle, and fails with `OOM`, changing
    /// nothing, exactly when the compact size cannot be addressed.
    pub fn repack(&mut self) -> (r: Result<(), Error>)
        requires
            old(self).inv(),
        ensures
            final(self).inv(),
            old(self).is_read_only() ==> r == Err::<(), Error>(Error::ReadOnly) && *final(self)
                == *old(self),
            !old(self).is_read_only() && old(self).tx_depth() > 0 ==> r == Err::<(), Error>(
                Error::Lock,
            ) && *final(self) == *old(self),
            !old(self).is_read_only() && old(self).tx_depth() == 0 ==> {
                &&& (r is Ok <==> FILE_HEADER_LEN + BUCKET_PTR_LEN * old(self).hash_count() + old(self).spec_content_need() <= u64::MAX)
                &&& (r is Err ==> *final(self) == *old(self) && r == Err::<(), Error>(Error::OOM))
                &&& (r is Ok ==> final(self)@ == old(self)@ && final(self).committed() == old(
                    self,
                ).committed() && final(self).spec_freelist_len() == 0 && final(self).spec_content_need() == old(self).spec_content_need() && final(self).spec_map_size() == FILE_HEADER_LEN + BUCKET_PTR_LEN * final(self).hash_count()
                    + final(self).spec_content_need() && final(self).admin_eq(*old(self)) && final(self).seq_no() == (if old(self).seqnum_enabled() {
                    u64_specs::wrapping_add(old(self).seq_no(), 1)
                } else {
                    old(self).seq_no()
                }))
            },
    {
        if self.read_only {
            return Err(Error::ReadOnly);
        }
        if self.depth > 0 {
            return Err(Error::Lock);
        }
        match self.live.repack() {
            Ok(_) => {
                if self.flags & SEQNUM_BIT != 0 {
                    self.seqnum = self.seqnum.wrapping_add(1);
                }
                Ok(())
            },
            Err(e) => Err(e),
        }
    }

    /// Wipe the database: discard every record, keeping the directory
    /// and the flags. Under an open transaction the wipe is buffered
    /// like any other mutation.
    pub fn wipe_all(&mut self) -> (r: Result<(), Error>)
        requires
            old(self).inv(),
        ensures
            final(self).inv(),
            final(self).admin_eq(*old(self)),
            old(self).is_read_only() ==> r == Err::<(), Error>(Error::ReadOnly) && *final(self)
                == *old(self),
            !old(self).is_read_only() && old(self).tx_prepared() ==> r == Err::<(), Error>(
                Error::Invalid,
            ) && *final(self) == *old(self),
            !old(self).is_read_only() && !old(self).tx_prepared() ==> r is Ok && final(self)@
                == Map::<Seq<u8>, Seq<u8>>::empty() && final(self).mutated_from(*old(self))
                && final(self).spec_freelist_len() == 0 && final(self).spec_map_size()
                == FILE_HEADER_LEN + BUCKET_PTR_LEN * final(self).hash_count(),
    {
        if self.read_only {
            return Err(Error::ReadOnly);
        }
        if self.prepared {
            return Err(Error::Invalid);
        }
        match &mut self.shadow {
            Some(t) => t.wipe(),
            None => self.live.wipe(),
        }
        self.bump_seqnum_direct();
        Ok(())
    }

    /// The text `summary` returns: one line per figure of the store.
    pub open spec fn spec_summary(self) -> Seq<char> {
        "hash size "@ + dec_digits(self.hash_count()) + "\nmap size "@ + dec_digits(
            self.spec_map_size(),
        ) + "\nfreelist entries "@ + dec_digits(self.spec_freelist_len()) + "\nsequence number "@
            + dec_digits(self.seq_no() as int) + "\n"@
    }

    /// Return a string summarizing the database: its bucket count, map
    /// size, freelist length and sequence number, one per line.
    pub fn summary(&self) -> (r: String)
        requires
            self.inv(),
        ensures
            r@ == self.spec_summary(),
    {
        let ms = match &self.shadow {
            Some(t) => t.space.map_size,
            None => self.live.space.map_size,
        };
        let fl = match &self.shadow {
            Some(t) => t.space.freelist_len(),
            None => self.live.space.freelist_len(),
        };
        let mut s = String::new();
        s.append("hash size ");
        push_decimal(&mut s, self.hash_size() as u64);
        s.append("\nmap size ");
        push_decimal(&mut s, ms);
        s.append("\nfreelist entries ");
        push_decimal(&mut s, fl as u64);
        s.append("\nsequence number ");
        push_decimal(&mut s, self.seqnum);
        s.append("\n");
        proof {
            assert("hash size "@ + dec_digits(self.hash_count()) + "\nmap size "@ + dec_digits(
                self.spec_map_size(),
            ) + "\nfreelist entries "@ + dec_digits(self.spec_freelist_len())
                + "\nsequence number "@ + dec_digits(self.seq_no() as int) + "\n"@ =~= s@);
        }
        s
    }

    /// Bump the sequence number after a successful direct mutation.
    fn bump_seqnum_direct(&mut self)
        ensures
            final(self).seqnum == (if old(self).seqnum_enabled() && old(self).depth == 0 {
                u64_specs::wrapping_add(old(self).seqnum, 1)
            } else {
                old(self).seqnum
            }),
            final(self).live == old(self).live,
            final(self).shadow == old(self).shadow,
            final(self).depth == old(self).depth,
            final(self).prepared == old(self).prepared,
            final(self).write_locks == old(self).write_locks,
            final(self).read_locks == old(self).read_locks,
            final(self).db_name == old(self).db_name,
            final(self).flags == old(self).flags,
            final(self).read_only == old(self).read_only,
            final(self).max_dead == old(self).max_dead,
    {
        if self.depth == 0 && self.flags & SEQNUM_BIT != 0 {
            self.seqnum = self.seqnum.wrapping_add(1);
        }
    }
}

/// Iteration completeness for a handle: the keys the walk from
/// `first_key` through `next_key` yields, taken as a set, are exactly
/// the keys the handle's content holds, provided no mutation happens
/// during the walk.
pub proof fn lemma_db_iteration_covers(db: Tdb)
    requires
        db.inv(),
    ensures
        forall|k: Seq<u8>| #[trigger] db.iteration_order().contains(k) <==> db@.dom().contains(
            k,
        ),
{
    lemma_iteration_covers(db.tbl());
}

/// The walk never yields a key twice.
pub proof fn lemma_db_iteration_distinct(db: Tdb)
    requires
        db.inv(),
    ensures
        db.iteration_order().no_duplicates(),
{
    lemma_iteration_distinct(db.tbl());
}

/// The walk steps through `iteration_order` in order: with `first_key`
/// yielding its head, each `next_key` yields the entry after the
/// previous one, and the last entry's `next_key` ends the iteration.
pub proof fn lemma_db_iteration_step(db: Tdb, x: int)
    requires
        db.inv(),
        0 <= x < db.iteration_order().len(),
    ensures
        db.next_of(db.iteration_order()[x]) == (if x + 1 < db.iteration_order().len() {
            Some(db.iteration_order()[x + 1])
        } else {
            None
        }),
{
    lemma_iteration_step(db.tbl(), x);
}

/// The handle's counters are machine words: the lock counts and the
/// transaction depth are non-negative and fit a 32-bit word, so the
/// case splits of the lock and transaction contracts are exhaustive.
pub proof fn lemma_counter_bounds(db: Tdb)
    ensures
        0 <= db.held_write_locks() <= u32::MAX,
        0 <= db.held_read_locks() <= u32::MAX,
        0 <= db.tx_depth() <= u32::MAX,
{
}

/// The character of one decimal digit.
pub open spec fn digit_char(d: int) -> char {
    if d == 0 {
        '0'
    } else if d == 1 {
        '1'
    } else if d == 2 {
        '2'
    } else if d == 3 {
        '3'
    } else if d == 4 {
        '4'
    } else if d == 5 {
        '5'
    } else if d == 6 {
        '6'
    } else if d == 7 {
        '7'
    } else if d == 8 {
        '8'
    } else {
        '9'
    }
}

/// The decimal digits of a number, most significant first.
pub open spec fn dec_digits(n: int) -> Seq<char>
    decreases n,
{
    if n < 10 {
        seq![digit_char(n)]
    } else {
        dec_digits(n / 10) + seq![digit_char(n % 10)]
    }
}

/// Append a number's decimal digits to the string.
fn push_decimal(s: &mut String, n: u64)
    ensures
        final(s)@ == old(s)@ + dec_digits(n as int),
    decreases n,
{
    if n >= 10 {
        push_decimal(s, n / 10);
    }
    let d = n % 10;
    match d {
        0u64 => s.append("0"),
        1u64 => s.append("1"),
        2u64 => s.append("2"),
        3u64 => s.append("3"),
        4u64 => s.append("4"),
        5u64 => s.append("5"),
        6u64 => s.append("6"),
        7u64 => s.append("7"),
        8u64 => s.append("8"),
        _ => s.append("9"),
    }
    proof {
        reveal_strlit("0");
        reveal_strlit("1");
        reveal_strlit("2");
        reveal_strlit("3");
        reveal_strlit("4");
        reveal_strlit("5");
        reveal_strlit("6");
        reveal_strlit("7");
        reveal_strlit("8");
        reveal_strlit("9");
        if n < 10 {
            assert(old(s)@ + seq![digit_char(n as int)] =~= final(s)@);
        } else {
            assert(old(s)@ + (dec_digits(n as int / 10) + seq![digit_char(n as int % 10)]) =~= (
            old(s)@ + dec_digits(n as int / 10)) + seq![digit_char(n as int % 10)]);
        }
    }
}

} // verus!
