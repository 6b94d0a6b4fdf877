//! Creation flags, store-mode flags, and the accepted open(2)-style flags.

use vstd::prelude::*;

verus! {

/// Clear the database if this handle is the only one with it open.
pub const CLEAR_IF_FIRST_BIT: u32 = 1;
/// Keep the data in memory instead of a file; the file name is ignored.
pub const INTERNAL_BIT: u32 = 2;
/// Do not do any locking.
pub const NOLOCK_BIT: u32 = 4;
/// Do not use mmap.
pub const NOMMAP_BIT: u32 = 8;
/// Do not synchronise transactions to disk.
pub const NOSYNC_BIT: u32 = 64;
/// Maintain a sequence number.
pub const SEQNUM_BIT: u32 = 128;
/// Activate the per-hashchain reclamation of dead records, default 5.
pub const VOLATILE_BIT: u32 = 256;
/// Allow transactions to nest.
pub const ALLOW_NESTING_BIT: u32 = 512;
/// Disallow transactions to nest.
pub const DISALLOW_NESTING_BIT: u32 = 1024;
/// Better hashing, incompatible with the legacy variant.
pub const INCOMPATIBLE_HASH_BIT: u32 = 2048;
/// Robust-mutex locking, only valid together with clear-if-first.
pub const MUTEX_LOCKING_BIT: u32 = 4096;

/// Every bit that names a defined creation flag.
pub const ALL_FLAG_BITS: u32 = 8143;

/// Open the file read-only.
pub const O_RDONLY: i32 = 0;
/// Open the file read-write.
pub const O_RDWR: i32 = 2;
/// Create the file if it does not exist.
pub const O_CREAT: i32 = 64;
/// Truncate the file on open.
pub const O_TRUNC: i32 = 512;

/// Flags for opening a database: a set of the `*_BIT` creation flags.
#[derive(Clone, Copy, Debug, PartialEq, Eq, Structural)]
pub struct Flags {
    /// The raw bit set.
    pub bits: u32,
}

impl Flags {
    /// The raw bit set this value stands for.
    pub open spec fn spec_bits(self) -> u32 {
        self.bits
    }

    /// Whether the set holds every bit of `mask`.
    pub open spec fn spec_has(self, mask: u32) -> bool {
        self.bits & mask == mask
    }

    /// The empty flag set.
    pub fn empty() -> (r: Flags)
        ensures
            r.spec_bits() == 0u32,
    {
        Flags { bits: 0 }
    }

    /// The raw bits.
    pub fn bits(&self) -> (r: u32)
        ensures
            r == self.spec_bits(),
    {
        self.bits
    }

    /// Keep only the defined flag bits of a raw word.
    pub fn from_bits_truncate(bits: u32) -> (r: Flags)
        ensures
            r.spec_bits() == bits & ALL_FLAG_BITS,
    {
        Flags { bits: bits & ALL_FLAG_BITS }
    }

    /// Whether every flag of `other` is in this set.
    pub fn contains(&self, other: Flags) -> (r: bool)
        ensures
            r == self.spec_has(other.spec_bits()),
    {
        self.bits & other.bits == other.bits
    }

    /// Add the flags of `other` to this set.
    pub fn insert(&mut self, other: Flags)
        ensures
            final(self).spec_bits() == old(self).spec_bits() | other.spec_bits(),
    {
        self.bits = self.bits | other.bits;
    }

    /// Take the flags of `other` out of this set.
    pub fn remove(&mut self, other: Flags)
        ensures
            final(self).spec_bits() == old(self).spec_bits() & !other.spec_bits(),
    {
        self.bits = self.bits & !other.bits;
    }

    /// Clear database if we are the only one with it open.
    pub fn clear_if_first() -> (r: Flags)
        ensures
            r.spec_bits() == CLEAR_IF_FIRST_BIT,
    {
        Flags { bits: CLEAR_IF_FIRST_BIT }
    }

    /// Don't use a file; store the data in memory. The file name is ignored.
    pub fn internal() -> (r: Flags)
        ensures
            r.spec_bits() == INTERNAL_BIT,
    {
        Flags { bits: INTERNAL_BIT }
    }

    /// Don't use mmap.
    pub fn no_mmap() -> (r: Flags)
        ensures
            r.spec_bits() == NOMMAP_BIT,
    {
        Flags { bits: NOMMAP_BIT }
    }

    /// Don't do any locking.
    pub fn no_lock() -> (r: Flags)
        ensures
            r.spec_bits() == NOLOCK_BIT,
    {
        Flags { bits: NOLOCK_BIT }
    }

    /// Don't synchronise transactions to disk. This is a bit of its own,
    /// distinct from the sequence-number flag.
    pub fn no_sync() -> (r: Flags)
        ensures
            r.spec_bits() == NOSYNC_BIT,
    {
        Flags { bits: NOSYNC_BIT }
    }

    /// Maintain a sequence number.
    pub fn seqnum() -> (r: Flags)
        ensures
            r.spec_bits() == SEQNUM_BIT,
    {
        Flags { bits: SEQNUM_BIT }
    }

    /// Activate the per-hashchain reclamation of dead records, default 5.
    pub fn volatile() -> (r: Flags)
        ensures
            r.spec_bits() == VOLATILE_BIT,
    {
        Flags { bits: VOLATILE_BIT }
    }

    /// Allow transactions to nest.
    pub fn allow_nesting() -> (r: Flags)
        ensures
            r.spec_bits() == ALLOW_NESTING_BIT,
    {
        Flags { bits: ALLOW_NESTING_BIT }
    }

    /// Disallow transactions to nest.
    pub fn disallow_nesting() -> (r: Flags)
        ensures
            r.spec_bits() == DISALLOW_NESTING_BIT,
    {
        Flags { bits: DISALLOW_NESTING_BIT }
    }

    /// Better hashing: incompatible with readers of the legacy variant.
    pub fn incompatible_hash() -> (r: Flags)
        ensures
            r.spec_bits() == INCOMPATIBLE_HASH_BIT,
    {
        Flags { bits: INCOMPATIBLE_HASH_BIT }
    }

    /// Robust-mutex locking, only valid together with clear-if-first.
    pub fn mutex_locking() -> (r: Flags)
        ensures
            r.spec_bits() == MUTEX_LOCKING_BIT,
    {
        Flags { bits: MUTEX_LOCKING_BIT }
    }
}

impl Default for Flags {
    /// The default flag set is empty.
    fn default() -> (r: Flags)
        ensures
            r.spec_bits() == 0u32,
    {
        Flags { bits: 0 }
    }
}

/// Store option flags: how `store` treats a key that is present or absent.
#[derive(Clone, Copy, Debug, PartialEq, Eq, Structural)]
pub enum StoreFlags {
    /// Don't overwrite an existing entry.
    Insert,
    /// Create or overwrite: the same as passing no flag.
    Replace,
    /// Don't create a new entry.
    Modify,
}

} // verus!
