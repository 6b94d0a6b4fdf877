//! The free-space manager: reclaimed spans of the simulated file are kept
//! on a freelist and handed back out first-fit, so deletions and
//! re-insertions reuse space instead of growing the file monotonically.

use vstd::prelude::*;
use crate::errors::Error;

verus! {

/// A reclaimed span of file space.
#[derive(Clone, Copy, Debug, PartialEq, Eq, Structural)]
pub struct Span {
    /// Offset of the span's first byte.
    pub off: u64,
    /// Length of the span in bytes; always positive on the freelist.
    pub len: u64,
}

/// The free-space state of one table: the current file size and the
/// freelist of reclaimed spans below it.
pub struct Space {
    /// Offset of the first byte records may occupy: everything below it is
    /// the header and the bucket directory.
    pub base: u64,
    /// Current size of the simulated file; spans at and above it are
    /// unallocated tail space.
    pub map_size: u64,
    /// The reclaimed spans, each reusable for a later allocation.
    pub free: Vec<Span>,
}

/// The first freelist index whose span can hold `need` bytes, scanning
/// from `i` on.
pub open spec fn first_fit_from(free: Seq<Span>, need: int, i: int) -> Option<int>
    decreases free.len() - i,
{
    if i < 0 || i >= free.len() {
        None
    } else if free[i].len >= need {
        Some(i)
    } else {
        first_fit_from(free, need, i + 1)
    }
}

/// The first freelist index whose span can hold `need` bytes.
pub open spec fn first_fit(free: Seq<Span>, need: int) -> Option<int> {
    first_fit_from(free, need, 0)
}

/// The freelist after an allocation of `need` bytes: the first fitting
/// span is consumed whole on an exact fit, or keeps its remainder;
/// without a fit the freelist is untouched and the file grows.
pub open spec fn free_after_allocate(s: Space, need: int) -> Seq<Span> {
    match first_fit(s.free@, need) {
        Some(i) => if s.free@[i].len == need {
            s.free@.remove(i)
        } else {
            s.free@.update(
                i,
                Span { off: (s.free@[i].off + need) as u64, len: (s.free@[i].len - need) as u64 },
            )
        },
        None => s.free@,
    }
}

/// The file size after an allocation of `need` bytes: unchanged when a
/// reclaimed span serves it, grown by `need` otherwise.
pub open spec fn size_after_allocate(s: Space, need: int) -> int {
    match first_fit(s.free@, need) {
        Some(_) => s.map_size as int,
        None => s.map_size + need,
    }
}

impl Space {
    /// Every freelist span is a positive stretch of allocatable file space.
    pub open spec fn wf(self) -> bool {
        &&& self.base <= self.map_size
        &&& forall|i: int|
            0 <= i < self.free@.len() ==> {
                &&& (#[trigger] self.free@[i]).len >= 1
                &&& self.free@[i].off >= self.base
                &&& self.free@[i].off + self.free@[i].len <= self.map_size
            }
    }

    /// Whether an allocation of `need` bytes can succeed: some reclaimed
    /// span holds it, or the file can still grow by it.
    pub open spec fn can_allocate(self, need: int) -> bool {
        first_fit(self.free@, need) is Some || self.map_size + need <= u64::MAX
    }

    /// An empty manager: no records yet, no reclaimed spans.
    pub fn new(base: u64) -> (r: Space)
        ensures
            r.wf(),
            r.base == base,
            r.map_size == base,
            r.free@.len() == 0,
    {
        Space { base, map_size: base, free: Vec::new() }
    }

    /// Discard every reclaimed span and shrink the file back to its base:
    /// the record area is empty again.
    pub fn reset(&mut self)
        ensures
            final(self).wf(),
            final(self).base == old(self).base,
            final(self).map_size == old(self).base,
            final(self).free@.len() == 0,
    {
        self.free.clear();
        self.map_size = self.base;
    }

    /// Allocate `need` bytes: first-fit from the freelist, splitting an
    /// oversized span and keeping the remainder; otherwise grow the file.
    /// Fails with `OOM` exactly when neither is possible.
    pub fn allocate(&mut self, need: u64) -> (r: Result<u64, Error>)
        requires
            old(self).wf(),
            need >= 1,
        ensures
            final(self).wf(),
            final(self).base == old(self).base,
            final(self).map_size >= old(self).map_size,
            r is Ok <==> old(self).can_allocate(need as int),
            r matches Err(e) ==> e == Error::OOM && *final(self) == *old(self),
            r matches Ok(off) ==> {
                &&& off >= old(self).base
                &&& off + need <= final(self).map_size
                &&& final(self).free@ == free_after_allocate(*old(self), need as int)
                &&& final(self).map_size == size_after_allocate(*old(self), need as int)
                &&& off == (match first_fit(old(self).free@, need as int) {
                    Some(i) => old(self).free@[i].off as int,
                    None => old(self).map_size as int,
                })
            },
    {
        let n = self.free.len();
        let mut i: usize = 0;
        while i < n
            invariant
                i <= n,
                n == self.free@.len(),
                need >= 1,
                *self == *old(self),
                self.wf(),
                first_fit(self.free@, need as int) == first_fit_from(
                    self.free@,
                    need as int,
                    i as int,
                ),
            decreases n - i,
        {
            if self.free[i].len >= need {
                proof {
                    assert(first_fit(self.free@, need as int) == Some(i as int));
                }
                let off = self.free[i].off;
                let len = self.free[i].len;
                if len == need {
                    self.free.remove(i);
                } else {
                    self.free.set(i, Span { off: off + need, len: len - need });
                }
                return Ok(off);
            }
            i = i + 1;
        }
        proof {
            assert(first_fit(self.free@, need as int) is None);
        }
        if need <= u64::MAX - self.map_size {
            let off = self.map_size;
            self.map_size = self.map_size + need;
            Ok(off)
        } else {
            Err(Error::OOM)
        }
    }

    /// Return a span to the freelist. The caller hands back exactly the
    /// span a record occupied, so it lies inside the allocatable area.
    pub fn free_span(&mut self, off: u64, len: u64)
        requires
            old(self).wf(),
            len >= 1,
            off >= old(self).base,
            off + len <= old(self).map_size,
        ensures
            final(self).wf(),
            final(self).base == old(self).base,
            final(self).map_size == old(self).map_size,
            final(self).free@ == old(self).free@.push(Span { off, len }),
    {
        self.free.push(Span { off, len });
    }

    /// Empty the freelist, leaving the file size alone; only meaningful
    /// when a compaction is about to re-tile the whole record area.
    pub fn drop_freelist(&mut self)
        requires
            old(self).wf(),
        ensures
            final(self).wf(),
            final(self).base == old(self).base,
            final(self).map_size == old(self).map_size,
            final(self).free@.len() == 0,
    {
        self.free.clear();
    }

    /// Set the file size outright; only meaningful while no reclaimed
    /// span is tracked, as when a compaction re-tiles the whole file.
    pub fn set_size(&mut self, ms: u64)
        requires
            old(self).free@.len() == 0,
            ms >= old(self).base,
        ensures
            final(self).wf(),
            final(self).base == old(self).base,
            final(self).map_size == ms,
            final(self).free@.len() == 0,
    {
        self.map_size = ms;
    }

    /// The number of spans on the freelist.
    pub fn freelist_len(&self) -> (r: usize)
        ensures
            r == self.free@.len(),
    {
        self.free.len()
    }
}

} // verus!
