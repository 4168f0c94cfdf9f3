//! Shapes of the three remote operations: the per-piece entries of a
//! negotiate request, the slot descriptors the remote hands back, and the
//! attachment entries of a finalize request. The synthetic filename of the
//! i-th piece of cluster `idx` is `idx * CLUSTER_CAP + i`, so the remote
//! store can order pieces without extra metadata. The HTTP calls
//! themselves live with the caller.

use vstd::prelude::*;
use crate::reader::{SLICE_SIZE, CLUSTER_CAP, CLUSTER_SIZE, num_slices, slice_len, sum_slice_lens, lemma_num_slices_ceil, lemma_num_clusters_ceil, lemma_cluster_slice_sum};

verus! {

/// One upload slot the remote granted: where to put the bytes and the
/// name the store filed the slot under.
pub struct UploadDetail {
    pub upload_url: String,
    pub upload_filename: String,
}

/// One attachment of a finalized remote message.
pub struct MessageAttachment {
    pub url: String,
}

/// A finalized remote message: its durable id and its attachments.
pub struct Message {
    pub id: String,
    pub attachments: Vec<MessageAttachment>,
}

/// One piece of a negotiate request: the synthetic filename and the exact
/// byte count the piece will carry.
pub struct PiecePlan {
    pub filename: usize,
    pub file_size: usize,
}

/// One attachment entry of a finalize request.
pub struct FinalizeEntry {
    pub filename: usize,
    pub uploaded_filename: String,
    pub id: usize,
}

/// Plans the negotiate request for the cluster at `idx` covering `size`
/// bytes: one entry per slice, sizes in order summing to `size`, filenames
/// numbered from `idx * CLUSTER_CAP`.
pub fn preupload_pieces(idx: usize, size: usize) -> (r: Vec<PiecePlan>)
    requires
        size <= CLUSTER_SIZE,
        (idx as int) * (CLUSTER_CAP as int) + (CLUSTER_CAP as int) <= usize::MAX,
    ensures
        r@.len() == num_slices(size as int),
        forall|i: int|
            0 <= i < r@.len() ==> (#[trigger] r@[i]).filename == (idx as int) * (
            CLUSTER_CAP as int) + i,
        forall|i: int|
            0 <= i < r@.len() ==> (#[trigger] r@[i]).file_size == slice_len(
                size as int,
                i * (SLICE_SIZE as int),
            ),
        sum_slice_lens(size as int, 0, r@.len() as int) == size,
{
    proof {
        lemma_num_slices_ceil(size as int);
        lemma_num_clusters_ceil(size as int);
    }
    let slices: usize = size / SLICE_SIZE + if size % SLICE_SIZE != 0 { 1 } else { 0 };
    let mut r: Vec<PiecePlan> = Vec::new();
    let mut i: usize = 0;
    while i < slices
        invariant
            i <= slices,
            slices == num_slices(size as int),
            slices <= CLUSTER_CAP,
            size <= CLUSTER_SIZE,
            (idx as int) * (CLUSTER_CAP as int) + (CLUSTER_CAP as int) <= usize::MAX,
            size <= num_slices(size as int) * (SLICE_SIZE as int),
            num_slices(size as int) * (SLICE_SIZE as int) < size + (SLICE_SIZE as int),
            r@.len() == i,
            forall|k: int|
                0 <= k < i ==> (#[trigger] r@[k]).filename == (idx as int) * (
                CLUSTER_CAP as int) + k,
            forall|k: int|
                0 <= k < i ==> (#[trigger] r@[k]).file_size == slice_len(
                    size as int,
                    k * (SLICE_SIZE as int),
                ),
        decreases slices - i,
    {
        let file_size = if size - i * SLICE_SIZE < SLICE_SIZE {
            size - i * SLICE_SIZE
        } else {
            SLICE_SIZE
        };
        r.push(PiecePlan { filename: idx * CLUSTER_CAP + i, file_size });
        i = i + 1;
    }
    proof {
        if size > 0 {
            lemma_cluster_slice_sum(size as int, 0);
        }
    }
    r
}

/// Plans the finalize request for the cluster at `idx`: one entry per
/// granted slot, in order, filenames numbered from `idx * CLUSTER_CAP` and
/// per-request ids counting from zero.
pub fn finalize_entries(idx: usize, details: &Vec<UploadDetail>) -> (r: Vec<FinalizeEntry>)
    requires
        (idx as int) * (CLUSTER_CAP as int) + details@.len() <= usize::MAX,
    ensures
        r@.len() == details@.len(),
        forall|i: int|
            0 <= i < r@.len() ==> (#[trigger] r@[i]).filename == (idx as int) * (
            CLUSTER_CAP as int) + i,
        forall|i: int|
            0 <= i < r@.len() ==> (#[trigger] r@[i]).uploaded_filename
                == details@[i].upload_filename,
        forall|i: int| 0 <= i < r@.len() ==> (#[trigger] r@[i]).id == i,
{
    let offset = idx * CLUSTER_CAP;
    let mut r: Vec<FinalizeEntry> = Vec::new();
    let mut i: usize = 0;
    while i < details.len()
        invariant
            i <= details@.len(),
            offset == (idx as int) * (CLUSTER_CAP as int),
            offset + details@.len() <= usize::MAX,
            r@.len() == i,
            forall|k: int|
                0 <= k < i ==> (#[trigger] r@[k]).filename == offset + k,
            forall|k: int|
                0 <= k < i ==> (#[trigger] r@[k]).uploaded_filename
                    == details@[k].upload_filename,
            forall|k: int| 0 <= k < i ==> (#[trigger] r@[k]).id == k,
        decreases details@.len() - i,
    {
        r.push(FinalizeEntry {
            filename: offset + i,
            uploaded_filename: details[i].upload_filename.clone(),
            id: i,
        });
        i = i + 1;
    }
    r
}

} // verus!
