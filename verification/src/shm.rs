//! Shared-memory pool bookkeeping: validated creation, resizing, and the
//! carving of typed buffers out of client-supplied regions.
//!
//! The actual `mmap`/`munmap` of a pool's descriptor is I/O and happens
//! outside this crate; this module is the authority on *whether* a pool
//! operation is legal and on the lifetime rule that a pool stays mapped
//! while any buffer carved from it is alive.

use vstd::prelude::*;

use crate::errors::ProtocolError;

verus! {

/// Pixel layout of a buffer. Only the byte width per pixel matters to the
/// core; everything else about a format is the rendering collaborator's
/// business.
#[derive(Clone, Copy, Debug, PartialEq, Eq, Structural)]
pub enum PixelFormat {
    Argb8888,
    Xrgb8888,
    Rgb565,
}

impl PixelFormat {
    /// Bytes each pixel occupies in a row.
    pub open spec fn spec_bytes_per_pixel(self) -> int {
        match self {
            PixelFormat::Argb8888 => 4,
            PixelFormat::Xrgb8888 => 4,
            PixelFormat::Rgb565 => 2,
        }
    }

    /// Exec mirror of `spec_bytes_per_pixel`.
    pub fn bytes_per_pixel(self) -> (r: u32)
        ensures
            r == self.spec_bytes_per_pixel(),
    {
        match self {
            PixelFormat::Argb8888 => 4,
            PixelFormat::Xrgb8888 => 4,
            PixelFormat::Rgb565 => 2,
        }
    }
}

/// A typed rectangular view into a pool: where it starts, its extent, and
/// how its rows are laid out.
#[derive(Clone, Copy, Debug, PartialEq, Eq, Structural)]
pub struct BufferGeometry {
    pub offset: u64,
    pub width: u32,
    pub height: u32,
    pub stride: u32,
    pub format: PixelFormat,
}

/// Bytes one row of pixels occupies.
pub open spec fn row_bytes(width: u32, format: PixelFormat) -> int {
    width * format.spec_bytes_per_pixel()
}

/// The last byte a buffer touches, exclusive: the start of its final row
/// plus one row of pixel data.
pub open spec fn required_bytes(g: BufferGeometry) -> int {
    g.offset + (g.height - 1) * g.stride + row_bytes(g.width, g.format)
}

/// The bounds rule: a buffer is legal in a pool exactly when every byte it
/// touches lies inside the pool.
pub open spec fn geometry_fits(g: BufferGeometry, pool_length: u64) -> bool {
    required_bytes(g) <= pool_length
}

/// Exec bounds check, exact against `geometry_fits`. The arithmetic is done
/// in a type wide enough that no intermediate can overflow.
pub fn check_geometry(g: &BufferGeometry, pool_length: u64) -> (r: bool)
    ensures
        r == geometry_fits(*g, pool_length),
{
    proof {
        assert((g.width as int) * g.format.spec_bytes_per_pixel() <= 0xffff_ffff * 4) by (nonlinear_arith)
            requires
                g.width < 0x1_0000_0000,
                0 <= g.format.spec_bytes_per_pixel() <= 4,
        ;
    }
    let row: u64 = (g.width as u64) * (g.format.bytes_per_pixel() as u64);
    proof {
        assert((g.height as int - 1) * (g.stride as int) <= 0xffff_ffff * 0xffff_ffff && (
        g.height as int - 1) * (g.stride as int) >= -0xffff_ffff) by (nonlinear_arith)
            requires
                g.height < 0x1_0000_0000,
                g.stride < 0x1_0000_0000,
        ;
    }
    let need: i128 = (g.offset as i128) + ((g.height as i128) - 1) * (g.stride as i128) + (
    row as i128);
    need <= (pool_length as i128)
}

/// One live buffer carved from a pool, recorded under its object
/// identifier.
#[derive(Clone, Copy, Debug, PartialEq, Eq, Structural)]
pub struct BufferRec {
    pub id: u32,
    pub geometry: BufferGeometry,
}

/// One mapped client region. `buffers` is the set of live buffers carved
/// from it; the pool may be released only once that set is empty.
/// `pending_destroy` remembers a destruction request that arrived while
/// buffers were still alive.
pub struct Pool {
    pub id: u64,
    pub owner: u64,
    pub fd: i32,
    pub length: u64,
    pub buffers: Vec<BufferRec>,
    pub pending_destroy: bool,
}

impl Pool {
    /// Every live buffer lies inside the pool, and buffer identifiers are
    /// unique within the pool.
    pub open spec fn wf(self) -> bool {
        &&& forall|k: int|
            0 <= k < self.buffers@.len() ==> geometry_fits(
                (#[trigger] self.buffers@[k]).geometry,
                self.length,
            )
        &&& forall|k1: int, k2: int|
            0 <= k1 < k2 < self.buffers@.len() ==> self.buffers@[k1].id != self.buffers@[k2].id
    }

    /// Whether a live buffer with this identifier exists in the pool.
    pub open spec fn has_buffer(self, buffer_id: u32) -> bool {
        exists|k: int| 0 <= k < self.buffers@.len() && self.buffers@[k].id == buffer_id
    }

    /// The pool's reference count: how many live buffers are carved from
    /// it.
    pub open spec fn live_buffers(self) -> nat {
        self.buffers@.len()
    }

    /// Find the index of a live buffer by identifier.
    fn find_buffer(&self, buffer_id: u32) -> (r: Option<usize>)
        ensures
            match r {
                Some(k) => k < self.buffers@.len() && self.buffers@[k as int].id == buffer_id,
                None => !self.has_buffer(buffer_id),
            },
    {
        let mut k: usize = 0;
        while k < self.buffers.len()
            invariant
                k <= self.buffers@.len(),
                forall|j: int| 0 <= j < k ==> self.buffers@[j].id != buffer_id,
            decreases self.buffers@.len() - k,
        {
            if self.buffers[k].id == buffer_id {
                return Some(k);
            }
            k += 1;
        }
        None
    }
}

/// The pool table: all live pools, an allocator for their identifiers, and
/// the configured ceiling on a single pool's size.
pub struct PoolManager {
    pub pools: Vec<Pool>,
    pub next_id: u64,
    pub max_len: u64,
}

impl PoolManager {
    /// Pool identifiers are unique and below the allocator's cursor, and
    /// every pool is internally consistent.
    pub open spec fn wf(self) -> bool {
        &&& forall|i: int, j: int|
            0 <= i < j < self.pools@.len() ==> self.pools@[i].id != self.pools@[j].id
        &&& forall|i: int| 0 <= i < self.pools@.len() ==> (#[trigger] self.pools@[i]).wf()
        &&& forall|i: int|
            0 <= i < self.pools@.len() ==> (#[trigger] self.pools@[i]).id < self.next_id
    }

    /// Whether a pool with this identifier is live.
    pub open spec fn has_pool(self, pool_id: u64) -> bool {
        exists|i: int| 0 <= i < self.pools@.len() && self.pools@[i].id == pool_id
    }

    /// Index of the pool with this identifier (meaningful only when
    /// `has_pool` holds; unique under `wf`).
    pub open spec fn idx_of(self, pool_id: u64) -> int {
        choose|i: int| 0 <= i < self.pools@.len() && self.pools@[i].id == pool_id
    }

    /// The pool with this identifier.
    pub open spec fn pool_of(self, pool_id: u64) -> Pool {
        self.pools@[self.idx_of(pool_id)]
    }

    /// An empty manager with the given per-pool size ceiling.
    pub fn new(max_len: u64) -> (r: PoolManager)
        ensures
            r.wf(),
            r.pools@ =~= Seq::<Pool>::empty(),
            r.max_len == max_len,
            r.next_id == 1,
    {
        PoolManager { pools: Vec::new(), next_id: 1, max_len }
    }

    /// Find the index of a pool by identifier.
    fn find(&self, pool_id: u64) -> (r: Option<usize>)
        ensures
            match r {
                Some(i) => i < self.pools@.len() && self.pools@[i as int].id == pool_id,
                None => !self.has_pool(pool_id),
            },
    {
        let mut i: usize = 0;
        while i < self.pools.len()
            invariant
                i <= self.pools@.len(),
                forall|j: int| 0 <= j < i ==> self.pools@[j].id != pool_id,
            decreases self.pools@.len() - i,
        {
            if self.pools[i].id == pool_id {
                return Some(i);
            }
            i += 1;
        }
        None
    }

    /// Under `wf`, `find`'s index and `idx_of` agree.
    pub proof fn lemma_idx_unique(self, pool_id: u64, i: int)
        requires
            self.wf(),
            0 <= i < self.pools@.len(),
            self.pools@[i].id == pool_id,
        ensures
            self.idx_of(pool_id) == i,
            self.pool_of(pool_id) == self.pools@[i],
    {
        let j = self.idx_of(pool_id);
        assert(0 <= j < self.pools@.len() && self.pools@[j].id == pool_id);
    }

    /// Accept a new pool. Succeeds exactly when the descriptor is usable,
    /// the length is positive and within the ceiling, and an identifier is
    /// still available; on success the pool is appended with no live
    /// buffers, on failure nothing changes.
    pub fn create_pool(&mut self, owner: u64, fd: i32, length: u64) -> (r: Result<
        u64,
        ProtocolError,
    >)
        requires
            old(self).wf(),
        ensures
            final(self).wf(),
            final(self).max_len == old(self).max_len,
            r is Ok <==> (fd >= 0 && length > 0 && length <= old(self).max_len && old(self).next_id
                < u64::MAX),
            r matches Ok(id) ==> ({
                &&& id == old(self).next_id
                &&& final(self).next_id == old(self).next_id + 1
                &&& final(self).pools@.len() == old(self).pools@.len() + 1
                &&& final(self).pools@.subrange(0, old(self).pools@.len() as int) == old(self).pools@
                &&& final(self).pools@.last().id == id
                &&& final(self).pools@.last().owner == owner
                &&& final(self).pools@.last().fd == fd
                &&& final(self).pools@.last().length == length
                &&& final(self).pools@.last().buffers@.len() == 0
                &&& final(self).pools@.last().pending_destroy == false
            }),
            r is Err ==> *final(self) == *old(self),
            r matches Err(e) ==> (e == ProtocolError::MapFailed <==> (fd < 0 || length == 0)),
            r matches Err(e) ==> (e == ProtocolError::TooLarge <==> (fd >= 0 && length > 0
                && length > old(self).max_len)),
            r matches Err(e) ==> (e == ProtocolError::TooManyObjects <==> (fd >= 0 && length > 0
                && length <= old(self).max_len && old(self).next_id == u64::MAX)),
    {
        if fd < 0 || length == 0 {
            return Err(ProtocolError::MapFailed);
        }
        if length > self.max_len {
            return Err(ProtocolError::TooLarge);
        }
        if self.next_id == u64::MAX {
            return Err(ProtocolError::TooManyObjects);
        }
        let id = self.next_id;
        let pool = Pool { id, owner, fd, length, buffers: Vec::new(), pending_destroy: false };
        self.pools.push(pool);
        self.next_id = id + 1;
        proof {
            assert(self.pools@.subrange(0, old(self).pools@.len() as int) =~= old(self).pools@);
        }
        Ok(id)
    }

    /// Whether a pool already records a live buffer under this identifier.
    pub fn pool_has_buffer(&self, pool_id: u64, buffer_id: u32) -> (r: bool)
        requires
            self.wf(),
            self.has_pool(pool_id),
        ensures
            r == self.pool_of(pool_id).has_buffer(buffer_id),
    {
        match self.find(pool_id) {
            None => {
                proof {
                    assert(false);
                }
                false
            },
            Some(i) => {
                proof {
                    self.lemma_idx_unique(pool_id, i as int);
                }
                match self.pools[i].find_buffer(buffer_id) {
                    Some(_) => true,
                    None => false,
                }
            },
        }
    }

    /// Bounds-check a carve without changing anything. Succeeds exactly
    /// when the pool exists and the geometry lies inside it.
    pub fn check_carve(&self, pool_id: u64, g: &BufferGeometry) -> (r: Result<(), ProtocolError>)
        requires
            self.wf(),
        ensures
            r is Ok <==> (self.has_pool(pool_id) && geometry_fits(
                *g,
                self.pool_of(pool_id).length,
            )),
            r == Err::<(), ProtocolError>(ProtocolError::UnknownPoolReference) <==> !self.has_pool(
                pool_id,
            ),
            r == Err::<(), ProtocolError>(ProtocolError::OutOfBounds) <==> (self.has_pool(pool_id)
                && !geometry_fits(*g, self.pool_of(pool_id).length)),
    {
        match self.find(pool_id) {
            None => Err(ProtocolError::UnknownPoolReference),
            Some(i) => {
                proof {
                    self.lemma_idx_unique(pool_id, i as int);
                }
                if check_geometry(g, self.pools[i].length) {
                    Ok(())
                } else {
                    Err(ProtocolError::OutOfBounds)
                }
            },
        }
    }

    /// Record a carved buffer in its pool, incrementing the pool's live
    /// count by one. The caller has already bounds-checked the geometry and
    /// allocated a buffer identifier that is fresh in the pool; a stale
    /// identifier is rejected and nothing changes.
    pub fn record_buffer(&mut self, pool_id: u64, buffer_id: u32, g: &BufferGeometry) -> (r: Result<
        (),
        ProtocolError,
    >)
        requires
            old(self).wf(),
            old(self).has_pool(pool_id),
            geometry_fits(*g, old(self).pool_of(pool_id).length),
        ensures
            final(self).wf(),
            final(self).max_len == old(self).max_len,
            final(self).next_id == old(self).next_id,
            r is Ok <==> !old(self).pool_of(pool_id).has_buffer(buffer_id),
            r is Err ==> r == Err::<(), ProtocolError>(ProtocolError::ProtocolViolation) && *final(self) == *old(self),
            r is Ok ==> ({
                let i = old(self).idx_of(pool_id);
                &&& final(self).pools@.len() == old(self).pools@.len()
                &&& forall|j: int|
                    0 <= j < old(self).pools@.len() && j != i ==> final(self).pools@[j] == old(self).pools@[j]
                &&& final(self).pools@[i].id == old(self).pools@[i].id
                &&& final(self).pools@[i].owner == old(self).pools@[i].owner
                &&& final(self).pools@[i].fd == old(self).pools@[i].fd
                &&& final(self).pools@[i].length == old(self).pools@[i].length
                &&& final(self).pools@[i].pending_destroy == old(self).pools@[i].pending_destroy
                &&& final(self).pools@[i].buffers@ == old(self).pools@[i].buffers@.push(
                    (BufferRec { id: buffer_id, geometry: *g }),
                )
            }),
    {
        let i = match self.find(pool_id) {
            Some(i) => i,
            None => {
                proof {
                    assert(false);
                }
                return Err(ProtocolError::ProtocolViolation);
            },
        };
        proof {
            self.lemma_idx_unique(pool_id, i as int);
        }
        match self.pools[i].find_buffer(buffer_id) {
            Some(_) => Err(ProtocolError::ProtocolViolation),
            None => {
                let ghost before = self.pools@;
                let mut p = self.pools.remove(i);
                p.buffers.push(BufferRec { id: buffer_id, geometry: *g });
                self.pools.insert(i, p);
                proof {
                    assert(self.pools@ =~= before.update(i as int, self.pools@[i as int]));
                }
                Ok(())
            },
        }
    }

    /// Shrink or grow a pool in place. Succeeds exactly when the pool
    /// exists, the new length is positive and within the ceiling, and every
    /// live buffer still lies inside the resized pool; on any failure the
    /// pool's length and buffers are exactly what they were.
    pub fn resize_pool(&mut self, pool_id: u64, new_length: u64) -> (r: Result<(), ProtocolError>)
        requires
            old(self).wf(),
        ensures
            final(self).wf(),
            final(self).max_len == old(self).max_len,
            final(self).next_id == old(self).next_id,
            r is Err ==> *final(self) == *old(self),
            r == Err::<(), ProtocolError>(ProtocolError::UnknownPoolReference) <==> !old(self).has_pool(pool_id),
            r == Err::<(), ProtocolError>(ProtocolError::MapFailed) <==> (old(self).has_pool(
                pool_id,
            ) && new_length == 0),
            r == Err::<(), ProtocolError>(ProtocolError::TooLarge) <==> (old(self).has_pool(pool_id)
                && new_length > 0 && new_length > old(self).max_len),
            r == Err::<(), ProtocolError>(ProtocolError::ShrinkViolatesBuffer) <==> (old(self).has_pool(pool_id) && new_length > 0 && new_length <= old(self).max_len && exists|
                k: int,
            |
                0 <= k < old(self).pool_of(pool_id).buffers@.len() && !geometry_fits(
                    (#[trigger] old(self).pool_of(pool_id).buffers@[k]).geometry,
                    new_length,
                )),
            r is Ok <==> (old(self).has_pool(pool_id) && new_length > 0 && new_length <= old(self).max_len && forall|k: int|
                0 <= k < old(self).pool_of(pool_id).buffers@.len() ==> geometry_fits(
                    (#[trigger] old(self).pool_of(pool_id).buffers@[k]).geometry,
                    new_length,
                )),
            r is Ok ==> ({
                let i = old(self).idx_of(pool_id);
                &&& final(self).pools@ == old(self).pools@.update(
                    i,
                    (Pool { length: new_length, ..old(self).pools@[i] }),
                )
            }),
    {
        let i = match self.find(pool_id) {
            Some(i) => i,
            None => {
                return Err(ProtocolError::UnknownPoolReference);
            },
        };
        proof {
            self.lemma_idx_unique(pool_id, i as int);
        }
        if new_length == 0 {
            return Err(ProtocolError::MapFailed);
        }
        if new_length > self.max_len {
            return Err(ProtocolError::TooLarge);
        }
        let ghost pool0 = self.pools@[i as int];
        let mut k: usize = 0;
        while k < self.pools[i].buffers.len()
            invariant
                self == old(self),
                old(self).wf(),
                old(self).has_pool(pool_id),
                i as int == old(self).idx_of(pool_id),
                new_length > 0,
                new_length <= old(self).max_len,
                i < self.pools@.len(),
                self.pools@[i as int] == pool0,
                pool0 == old(self).pool_of(pool_id),
                k <= pool0.buffers@.len(),
                forall|j: int|
                    0 <= j < k ==> geometry_fits(
                        (#[trigger] pool0.buffers@[j]).geometry,
                        new_length,
                    ),
            decreases pool0.buffers@.len() - k,
        {
            if !check_geometry(&self.pools[i].buffers[k].geometry, new_length) {
                return Err(ProtocolError::ShrinkViolatesBuffer);
            }
            k += 1;
        }
        let ghost before = self.pools@;
        let mut p = self.pools.remove(i);
        p.length = new_length;
        self.pools.insert(i, p);
        proof {
            assert(self.pools@ =~= before.update(i as int, self.pools@[i as int]));
        }
        Ok(())
    }

    /// Request destruction of a pool. If no live buffer remains the pool is
    /// released at once (`Ok(true)`: the caller unmaps it); otherwise it is
    /// marked and will be released when its last buffer dies (`Ok(false)`).
    pub fn destroy_pool(&mut self, pool_id: u64) -> (r: Result<bool, ProtocolError>)
        requires
            old(self).wf(),
        ensures
            final(self).wf(),
            final(self).max_len == old(self).max_len,
            final(self).next_id == old(self).next_id,
            r is Err ==> r == Err::<bool, ProtocolError>(ProtocolError::UnknownPoolReference)
                && *final(self) == *old(self),
            r is Err <==> !old(self).has_pool(pool_id),
            r matches Ok(released) ==> ({
                let i = old(self).idx_of(pool_id);
                &&& (released <==> old(self).pool_of(pool_id).live_buffers() == 0)
                &&& released ==> final(self).pools@ == old(self).pools@.remove(i)
                &&& !released ==> final(self).pools@ == old(self).pools@.update(
                    i,
                    (Pool { pending_destroy: true, ..old(self).pools@[i] }),
                )
            }),
    {
        let i = match self.find(pool_id) {
            Some(i) => i,
            None => {
                return Err(ProtocolError::UnknownPoolReference);
            },
        };
        proof {
            self.lemma_idx_unique(pool_id, i as int);
        }
        let ghost before = self.pools@;
        if self.pools[i].buffers.len() == 0 {
            self.pools.remove(i);
            proof {
                lemma_pools_wf_after_remove(before, self.pools@, i as int, self.next_id);
            }
            Ok(true)
        } else {
            let mut p = self.pools.remove(i);
            p.pending_destroy = true;
            self.pools.insert(i, p);
            proof {
                assert(self.pools@ =~= before.update(i as int, self.pools@[i as int]));
            }
            Ok(false)
        }
    }

    /// A buffer died: drop it from its pool, and release the pool if this
    /// was the last buffer of a pool already marked for destruction
    /// (`Ok(true)`: the caller unmaps it).
    pub fn buffer_destroyed(&mut self, pool_id: u64, buffer_id: u32) -> (r: Result<
        bool,
        ProtocolError,
    >)
        requires
            old(self).wf(),
        ensures
            final(self).wf(),
            final(self).max_len == old(self).max_len,
            final(self).next_id == old(self).next_id,
            r is Err ==> *final(self) == *old(self),
            r == Err::<bool, ProtocolError>(ProtocolError::UnknownPoolReference) <==> !old(self).has_pool(pool_id),
            r == Err::<bool, ProtocolError>(ProtocolError::UnknownObject) <==> (old(self).has_pool(
                pool_id,
            ) && !old(self).pool_of(pool_id).has_buffer(buffer_id)),
            r is Ok <==> (old(self).has_pool(pool_id) && old(self).pool_of(pool_id).has_buffer(
                buffer_id,
            )),
            r matches Ok(released) ==> ({
                let i = old(self).idx_of(pool_id);
                let p = old(self).pool_of(pool_id);
                &&& (released <==> (p.pending_destroy && p.live_buffers() == 1))
                &&& released ==> final(self).pools@ == old(self).pools@.remove(i)
                &&& !released ==> ({
                    &&& final(self).pools@.len() == old(self).pools@.len()
                    &&& (forall|j: int|
                        0 <= j < old(self).pools@.len() && j != i ==> final(self).pools@[j] == old(self).pools@[j])
                    &&& final(self).pools@[i].id == p.id
                    &&& final(self).pools@[i].owner == p.owner
                    &&& final(self).pools@[i].fd == p.fd
                    &&& final(self).pools@[i].length == p.length
                    &&& final(self).pools@[i].pending_destroy == p.pending_destroy
                    &&& (exists|k: int|
                        0 <= k < p.buffers@.len() && p.buffers@[k].id == buffer_id && final(self).pools@[i].buffers@ == p.buffers@.remove(k))
                })
            }),
    {
        let i = match self.find(pool_id) {
            Some(i) => i,
            None => {
                return Err(ProtocolError::UnknownPoolReference);
            },
        };
        proof {
            self.lemma_idx_unique(pool_id, i as int);
        }
        let k = match self.pools[i].find_buffer(buffer_id) {
            Some(k) => k,
            None => {
                return Err(ProtocolError::UnknownObject);
            },
        };
        let ghost before = self.pools@;
        let ghost pool0 = self.pools@[i as int];
        if self.pools[i].pending_destroy && self.pools[i].buffers.len() == 1 {
            self.pools.remove(i);
            proof {
                lemma_pools_wf_after_remove(before, self.pools@, i as int, self.next_id);
            }
            Ok(true)
        } else {
            let mut p = self.pools.remove(i);
            p.buffers.remove(k);
            self.pools.insert(i, p);
            proof {
                lemma_buffers_wf_after_remove(pool0, self.pools@[i as int], k as int);
                assert(self.pools@ =~= before.update(i as int, self.pools@[i as int]));
            }
            Ok(false)
        }
    }

    /// Drop every pool a disconnecting client owns. The descriptors of the
    /// removed pools are the caller's to unmap; their identifiers are never
    /// reused.
    pub fn purge_client(&mut self, client: u64)
        requires
            old(self).wf(),
        ensures
            final(self).wf(),
            final(self).max_len == old(self).max_len,
            final(self).next_id == old(self).next_id,
            final(self).pools@ == old(self).pools@.filter(|p: Pool| p.owner != client),
            forall|i: int| 0 <= i < final(self).pools@.len() ==> (#[trigger] final(self).pools@[i]).owner != client,
    {
        let ghost all = self.pools@;
        let ghost pred = |p: Pool| p.owner != client;
        let mut kept: Vec<Pool> = Vec::new();
        let ghost mut done: int = 0;
        while self.pools.len() > 0
            invariant
                0 <= done <= all.len(),
                self.pools@ =~= all.skip(done),
                self.max_len == old(self).max_len,
                self.next_id == old(self).next_id,
                kept@ == all.take(done).filter(pred),
                pred == (|p: Pool| p.owner != client),
            decreases self.pools@.len(),
        {
            proof {
                assert(all.take(done + 1).drop_last() =~= all.take(done));
                assert(all.take(done + 1).last() == all[done]);
                reveal(Seq::filter);
            }
            let p = self.pools.remove(0);
            proof {
                assert(p == all[done]);
            }
            if p.owner != client {
                kept.push(p);
            }
            proof {
                reveal(Seq::filter);
                assert(kept@ == all.take(done + 1).filter(pred));
                done = done + 1;
                assert(self.pools@ =~= all.skip(done));
            }
        }
        proof {
            assert(done == all.len());
            assert(all.take(all.len() as int) =~= all);
        }
        self.pools = kept;
        proof {
            lemma_filter_subseq_wf(all, self.pools@, pred, self.next_id);
            assert forall|j: int|
                0 <= j < self.pools@.len() implies (#[trigger] self.pools@[j]).owner
                != client by {
                all.lemma_filter_pred(pred, j);
            }
        }
    }
}

/// Removing one pool preserves the table invariant.
proof fn lemma_pools_wf_after_remove(before: Seq<Pool>, after: Seq<Pool>, i: int, next_id: u64)
    requires
        0 <= i < before.len(),
        after == before.remove(i),
        forall|a: int, b: int| 0 <= a < b < before.len() ==> before[a].id != before[b].id,
        forall|a: int| 0 <= a < before.len() ==> (#[trigger] before[a]).wf(),
        forall|a: int| 0 <= a < before.len() ==> (#[trigger] before[a]).id < next_id,
    ensures
        forall|a: int, b: int| 0 <= a < b < after.len() ==> after[a].id != after[b].id,
        forall|a: int| 0 <= a < after.len() ==> (#[trigger] after[a]).wf(),
        forall|a: int| 0 <= a < after.len() ==> (#[trigger] after[a]).id < next_id,
{
    assert(forall|a: int|
        0 <= a < after.len() ==> after[a] == (if a < i {
            before[a]
        } else {
            before[a + 1]
        }));
}

/// Removing one buffer record preserves a pool's invariant; the pool's
/// other fields are untouched.
proof fn lemma_buffers_wf_after_remove(before: Pool, after: Pool, k: int)
    requires
        before.wf(),
        0 <= k < before.buffers@.len(),
        after.buffers@ == before.buffers@.remove(k),
        after.length == before.length,
    ensures
        after.wf(),
{
    assert(forall|a: int|
        0 <= a < after.buffers@.len() ==> after.buffers@[a] == (if a < k {
            before.buffers@[a]
        } else {
            before.buffers@[a + 1]
        }));
}

/// Every element of a filtered sequence stands somewhere in the sequence
/// it was filtered from.
pub proof fn lemma_filter_elem_from(s: Seq<Pool>, pred: spec_fn(Pool) -> bool, a: int)
    requires
        0 <= a < s.filter(pred).len(),
    ensures
        exists|j: int| 0 <= j < s.len() && s[j] == s.filter(pred)[a],
    decreases s.len(),
{
    reveal(Seq::filter);
    if s.len() == 0 {
    } else {
        let head = s.drop_last();
        if a < head.filter(pred).len() {
            lemma_filter_elem_from(head, pred, a);
            let j = choose|j: int| 0 <= j < head.len() && head[j] == head.filter(pred)[a];
            assert(s[j] == s.filter(pred)[a]);
        } else {
            assert(pred(s.last()) && s.filter(pred)[a] == s.last());
            assert(s[s.len() - 1] == s.filter(pred)[a]);
        }
    }
}

/// A filtered pool table is still well formed: filtering keeps a subset of
/// the records in order.
proof fn lemma_filter_subseq_wf(
    before: Seq<Pool>,
    after: Seq<Pool>,
    pred: spec_fn(Pool) -> bool,
    next_id: u64,
)
    requires
        after == before.filter(pred),
        forall|a: int, b: int| 0 <= a < b < before.len() ==> before[a].id != before[b].id,
        forall|a: int| 0 <= a < before.len() ==> (#[trigger] before[a]).wf(),
        forall|a: int| 0 <= a < before.len() ==> (#[trigger] before[a]).id < next_id,
    ensures
        forall|a: int, b: int| 0 <= a < b < after.len() ==> after[a].id != after[b].id,
        forall|a: int| 0 <= a < after.len() ==> (#[trigger] after[a]).wf(),
        forall|a: int| 0 <= a < after.len() ==> (#[trigger] after[a]).id < next_id,
    decreases before.len(),
{
    reveal(Seq::filter);
    assert forall|a: int| 0 <= a < after.len() implies (#[trigger] after[a]).wf() && after[a].id
        < next_id by {
        lemma_filter_elem_from(before, pred, a);
    }
    if before.len() == 0 {
    } else {
        let head = before.drop_last();
        lemma_filter_subseq_wf(head, head.filter(pred), pred, next_id);
        if pred(before.last()) {
            assert(after == head.filter(pred).push(before.last()));
            assert forall|a: int, b: int|
                0 <= a < b < after.len() implies after[a].id != after[b].id by {
                if b == after.len() - 1 {
                    lemma_filter_elem_from(head, pred, a);
                    let j = choose|j: int|
                        0 <= j < head.len() && head[j] == head.filter(pred)[a];
                    assert(before[j] == after[a]);
                    assert(before[j].id != before[before.len() - 1].id);
                }
            }
        } else {
            assert(after == head.filter(pred));
        }
    }
}

} // verus!
