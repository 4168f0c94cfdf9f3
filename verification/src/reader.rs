//! Byte-range slicing: a file of `size` bytes is cut into slices of at
//! most `SLICE_SIZE` bytes, grouped into clusters of at most
//! `CLUSTER_CAP` slices. Cluster byte ranges partition `[0, size)`
//! exactly, in ascending order.

use vstd::prelude::*;
use vstd::arithmetic::div_mod::lemma_fundamental_div_mod;
use vstd::arithmetic::mul::lemma_mul_inequality;

verus! {

/// Largest number of bytes a single slice may hold (one remote attachment).
pub const SLICE_SIZE: usize = 26214400;

/// Largest number of slices a cluster may hold (one remote message).
pub const CLUSTER_CAP: usize = 10;

/// Largest number of bytes a cluster may cover.
pub const CLUSTER_SIZE: usize = 262144000;

/// Largest number of bytes handed out by a single read request.
pub const BUFFER_SIZE: usize = 4194304;

/// Number of slices a file of `size` bytes is cut into: `size / SLICE_SIZE`,
/// rounded up.
pub open spec fn num_slices(size: int) -> int {
    if size % (SLICE_SIZE as int) == 0 {
        size / (SLICE_SIZE as int)
    } else {
        size / (SLICE_SIZE as int) + 1
    }
}

/// Number of clusters those slices are grouped into: `num_slices / CLUSTER_CAP`,
/// rounded up.
pub open spec fn num_clusters(size: int) -> int {
    if num_slices(size) % (CLUSTER_CAP as int) == 0 {
        num_slices(size) / (CLUSTER_CAP as int)
    } else {
        num_slices(size) / (CLUSTER_CAP as int) + 1
    }
}

/// First byte covered by the cluster at `idx`.
pub open spec fn cluster_offset(idx: int) -> int {
    idx * (CLUSTER_SIZE as int)
}

/// Number of bytes covered by the cluster at `idx` of a file of `size` bytes.
pub open spec fn cluster_len(size: int, idx: int) -> int {
    if size - cluster_offset(idx) < CLUSTER_SIZE as int {
        size - cluster_offset(idx)
    } else {
        CLUSTER_SIZE as int
    }
}

/// Number of slices in the cluster at `idx`.
pub open spec fn cluster_slices(size: int, idx: int) -> int {
    if num_slices(size) - idx * (CLUSTER_CAP as int) < CLUSTER_CAP as int {
        num_slices(size) - idx * (CLUSTER_CAP as int)
    } else {
        CLUSTER_CAP as int
    }
}

/// `num_slices` is the exact ceiling of `size / SLICE_SIZE`.
pub proof fn lemma_num_slices_ceil(size: int)
    requires
        0 <= size,
    ensures
        0 <= num_slices(size),
        size <= num_slices(size) * (SLICE_SIZE as int),
        num_slices(size) * (SLICE_SIZE as int) < size + (SLICE_SIZE as int),
        (num_slices(size) == 0) <==> (size == 0),
{
    let s = SLICE_SIZE as int;
    lemma_fundamental_div_mod(size, s);
}

/// `num_clusters` is the exact ceiling of `num_slices / CLUSTER_CAP`.
pub proof fn lemma_num_clusters_ceil(size: int)
    requires
        0 <= size,
    ensures
        0 <= num_clusters(size),
        num_slices(size) <= num_clusters(size) * (CLUSTER_CAP as int),
        num_clusters(size) * (CLUSTER_CAP as int) < num_slices(size) + (CLUSTER_CAP as int),
        (num_clusters(size) == 0) <==> (size == 0),
{
    let c = CLUSTER_CAP as int;
    lemma_num_slices_ceil(size);
    lemma_fundamental_div_mod(num_slices(size), c);
}

/// First byte covered by slice `i` of the cluster at `idx`.
pub open spec fn slice_offset(idx: int, i: int) -> int {
    cluster_offset(idx) + i * (SLICE_SIZE as int)
}

/// Number of bytes covered by the slice starting at absolute offset `off`.
pub open spec fn slice_len(size: int, off: int) -> int {
    if size - off < SLICE_SIZE as int {
        size - off
    } else {
        SLICE_SIZE as int
    }
}

/// Total bytes covered by the first `n` slices of the cluster at `idx`.
pub open spec fn sum_slice_lens(size: int, idx: int, n: int) -> int
    decreases n,
{
    if n <= 0 {
        0
    } else {
        sum_slice_lens(size, idx, n - 1) + slice_len(size, slice_offset(idx, n - 1))
    }
}

/// The cluster byte ranges partition `[0, size)`: the first starts at 0,
/// each is non-empty, and each ends exactly where the next begins, the
/// last at `size`. Every cluster holds between 1 and `CLUSTER_CAP` slices.
pub proof fn lemma_cluster_partition(size: int)
    requires
        0 <= size,
    ensures
        cluster_offset(0) == 0,
        forall|idx: int|
            0 <= idx < num_clusters(size) ==> 0 < #[trigger] cluster_len(size, idx),
        forall|idx: int|
            0 <= idx < num_clusters(size) ==> cluster_offset(idx) + #[trigger] cluster_len(size, idx)
                == if idx + 1 < num_clusters(size) {
                    cluster_offset(idx + 1)
                } else {
                    size
                },
        forall|idx: int|
            0 <= idx < num_clusters(size) ==> 1 <= #[trigger] cluster_slices(size, idx)
                <= CLUSTER_CAP as int,
{
    lemma_num_slices_ceil(size);
    lemma_num_clusters_ceil(size);
}

/// Within one cluster, the first `n` slices cover `n * SLICE_SIZE` bytes,
/// clipped at the end of the cluster's range.
proof fn lemma_sum_slice_lens(size: int, idx: int, n: int)
    requires
        0 <= size,
        0 <= idx < num_clusters(size),
        0 <= n <= cluster_slices(size, idx),
    ensures
        sum_slice_lens(size, idx, n) == if n * (SLICE_SIZE as int) < size - cluster_offset(idx) {
            n * (SLICE_SIZE as int)
        } else {
            size - cluster_offset(idx)
        },
    decreases n,
{
    lemma_num_slices_ceil(size);
    lemma_num_clusters_ceil(size);
    if n > 0 {
        lemma_sum_slice_lens(size, idx, n - 1);
    }
}

/// The bytes delivered by a cluster's slices, pulled to completion, sum to
/// exactly the cluster's byte-range length.
pub proof fn lemma_cluster_slice_sum(size: int, idx: int)
    requires
        0 <= size,
        0 <= idx < num_clusters(size),
    ensures
        sum_slice_lens(size, idx, cluster_slices(size, idx)) == cluster_len(size, idx),
{
    lemma_num_slices_ceil(size);
    lemma_num_clusters_ceil(size);
    lemma_sum_slice_lens(size, idx, cluster_slices(size, idx));
}

/// Opens a file's byte range for slicing: records the total size and the
/// derived slice and cluster counts. The file handle itself, and the
/// progress channel, live with the caller.
#[derive(Clone, Copy, Debug)]
pub struct Reader {
    pub size: usize,
    pub slices: usize,
    pub clusters: usize,
}

impl Reader {
    /// The counts match the size they were derived from.
    pub open spec fn wf(self) -> bool {
        &&& self.slices == num_slices(self.size as int)
        &&& self.clusters == num_clusters(self.size as int)
    }

    pub fn new(size: usize) -> (r: Reader)
        ensures
            r.size == size,
            r.wf(),
    {
        proof {
            lemma_num_slices_ceil(size as int);
            lemma_num_clusters_ceil(size as int);
        }
        let slices: usize = size / SLICE_SIZE + if size % SLICE_SIZE != 0 { 1 } else { 0 };
        let clusters: usize = slices / CLUSTER_CAP + if slices % CLUSTER_CAP != 0 { 1 } else { 0 };
        Reader { size, slices, clusters }
    }

    /// Hands out the cluster at `idx`, or nothing once every cluster has
    /// been handed out.
    pub fn next_cluster(&self, idx: usize) -> (r: Option<Cluster>)
        requires
            self.wf(),
            idx <= self.clusters,
        ensures
            r is None <==> idx == self.clusters,
            r matches Some(c) ==> {
                &&& c.wf()
                &&& c.size == self.size
                &&& c.offset == cluster_offset(idx as int)
                &&& c.slices == cluster_slices(self.size as int, idx as int)
                &&& c.current_slice == 0
            },
    {
        if idx == self.clusters {
            return None;
        }
        proof {
            lemma_num_slices_ceil(self.size as int);
            lemma_num_clusters_ceil(self.size as int);
        }
        let tail = self.slices - idx * CLUSTER_CAP;
        let offset = idx * CLUSTER_SIZE;
        let count = if tail < CLUSTER_CAP { tail } else { CLUSTER_CAP };
        Some(Cluster { size: self.size, offset, slices: count, current_slice: 0 })
    }
}

/// A cluster: a contiguous run of up to `CLUSTER_CAP` slices of one file,
/// handed out one slice at a time.
#[derive(Clone, Copy, Debug)]
pub struct Cluster {
    pub size: usize,
    pub offset: usize,
    pub slices: usize,
    pub current_slice: usize,
}

impl Cluster {
    /// Every slice this cluster will hand out starts strictly inside the file.
    pub open spec fn wf(self) -> bool {
        &&& self.current_slice <= self.slices
        &&& 1 <= self.slices <= CLUSTER_CAP
        &&& self.offset + (self.slices - 1) * (SLICE_SIZE as int) < self.size
    }

    /// Hands out the next slice, in ascending offset order, or nothing once
    /// the cluster is exhausted.
    pub fn next_slice(&mut self) -> (r: Option<Slice>)
        requires
            old(self).wf(),
        ensures
            final(self).wf(),
            final(self).size == old(self).size,
            final(self).offset == old(self).offset,
            final(self).slices == old(self).slices,
            r is None <==> old(self).current_slice == old(self).slices,
            r is None ==> final(self).current_slice == old(self).current_slice,
            r matches Some(s) ==> {
                &&& final(self).current_slice == old(self).current_slice + 1
                &&& s.wf()
                &&& s.size == old(self).size
                &&& s.offset == old(self).offset + old(self).current_slice * (
                SLICE_SIZE as int)
                &&& s.read == 0
            },
    {
        if self.current_slice == self.slices {
            return None;
        }
        proof {
            lemma_mul_inequality(
                self.current_slice as int,
                self.slices - 1,
                SLICE_SIZE as int,
            );
        }
        let slice = Slice {
            size: self.size,
            offset: self.offset + self.current_slice * SLICE_SIZE,
            read: 0,
        };
        self.current_slice = self.current_slice + 1;
        Some(slice)
    }
}

/// A slice: one platform-sized piece, delivered lazily as a run of reads of
/// at most `BUFFER_SIZE` bytes each. `read` accumulates the bytes delivered
/// so far; the slice is complete once `read` reaches its capacity.
#[derive(Clone, Copy, Debug)]
pub struct Slice {
    pub size: usize,
    pub offset: usize,
    pub read: usize,
}

impl Slice {
    /// Bytes this slice covers: a full `SLICE_SIZE`, or whatever of the
    /// file remains past its offset.
    pub open spec fn cap(self) -> int {
        slice_len(self.size as int, self.offset as int)
    }

    pub open spec fn wf(self) -> bool {
        &&& self.offset < self.size
        &&& self.read <= self.cap()
    }

    /// The next read request: the absolute offset to read at and how many
    /// bytes to ask for, or nothing once the slice has delivered its full
    /// capacity. The caller must seek and read as one atomic step on the
    /// shared handle, then report the bytes obtained through `advance`.
    pub fn next_read(&self) -> (r: Option<(usize, usize)>)
        requires
            self.wf(),
        ensures
            r is None <==> self.read == self.cap(),
            r matches Some((off, len)) ==> {
                &&& off == self.offset + self.read
                &&& 0 < len <= BUFFER_SIZE
                &&& self.read + len <= self.cap()
                &&& len == if self.cap() - self.read < BUFFER_SIZE as int {
                    self.cap() - self.read
                } else {
                    BUFFER_SIZE as int
                }
            },
    {
        let remaining_in_slice = if SLICE_SIZE - self.read < self.size - self.offset - self.read {
            SLICE_SIZE - self.read
        } else {
            self.size - self.offset - self.read
        };
        if remaining_in_slice == 0 {
            return None;
        }
        let len = if remaining_in_slice < BUFFER_SIZE {
            remaining_in_slice
        } else {
            BUFFER_SIZE
        };
        Some((self.offset + self.read, len))
    }

    /// Records that `n` bytes were just delivered.
    pub fn advance(&mut self, n: usize)
        requires
            old(self).wf(),
            old(self).read + n <= old(self).cap(),
        ensures
            final(self).wf(),
            final(self).size == old(self).size,
            final(self).offset == old(self).offset,
            final(self).read == old(self).read + n,
    {
        self.read = self.read + n;
    }
}

} // verus!
