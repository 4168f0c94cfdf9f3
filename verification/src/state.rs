//! The catalog: the durable record of completed uploads, the pending
//! upload queue, and the single active upload. Ids are assigned once,
//! monotonically, and never reused; a committed record's id is unique
//! across the catalog. Loading and persisting the catalog document, and
//! the network driving, live with the caller.

use vstd::prelude::*;
use vstd::pervasive::VecAdditionalExecFns;
use std::collections::VecDeque;
use crate::strsim::{dl, damerau_levenshtein, lemma_dl_bounds};

verus! {

/// The name under which a path's file is cataloged: what follows the last
/// `/`, or the whole path when it has none.
pub open spec fn basename_of(s: Seq<char>) -> Seq<char>
    decreases s.len(),
{
    if s.len() == 0 {
        s
    } else if s[s.len() - 1] == '/' {
        Seq::empty()
    } else {
        basename_of(s.drop_last()).push(s[s.len() - 1])
    }
}

proof fn lemma_basename_suffix(s: Seq<char>, k: int)
    requires
        0 <= k < s.len(),
        s[k] == '/',
        forall|j: int| k < j < s.len() ==> s[j] != '/',
    ensures
        basename_of(s) == s.subrange(k + 1, s.len() as int),
    decreases s.len(),
{
    if s.len() - 1 == k {
        assert(basename_of(s) =~= s.subrange(k + 1, s.len() as int));
    } else {
        assert(s.drop_last()[k] == '/');
        lemma_basename_suffix(s.drop_last(), k);
        assert(basename_of(s) =~= s.subrange(k + 1, s.len() as int));
    }
}

proof fn lemma_basename_plain(s: Seq<char>)
    requires
        forall|j: int| 0 <= j < s.len() ==> s[j] != '/',
    ensures
        basename_of(s) == s,
    decreases s.len(),
{
    if s.len() > 0 {
        lemma_basename_plain(s.drop_last());
        assert(basename_of(s) =~= s);
    }
}

/// The file name a path is cataloged under.
pub fn basename(path: &str) -> (r: String)
    ensures
        r@ == basename_of(path@),
{
    let n = path.unicode_len();
    let mut i: usize = n;
    while i > 0
        invariant
            i <= n,
            n == path@.len(),
            forall|k: int| i <= k < n ==> path@[k] != '/',
        decreases i,
    {
        if path.get_char(i - 1) == '/' {
            let r = path.substring_char(i, n).to_owned();
            proof {
                lemma_basename_suffix(path@, i - 1);
            }
            return r;
        }
        i = i - 1;
    }
    proof {
        lemma_basename_plain(path@);
    }
    path.to_owned()
}

/// True when `ids` holds `id`.
pub fn contains_id(ids: &Vec<u32>, id: u32) -> (r: bool)
    ensures
        r == ids@.contains(id),
{
    let mut i: usize = 0;
    while i < ids.len()
        invariant
            i <= ids@.len(),
            forall|k: int| 0 <= k < i ==> ids@[k] != id,
        decreases ids@.len() - i,
    {
        if ids[i] == id {
            return true;
        }
        i = i + 1;
    }
    false
}

/// A completed upload: the remote message ids in `clusters` stand in
/// file-offset order, one per cluster.
pub struct File {
    pub id: u32,
    pub name: String,
    pub path: String,
    pub size: u64,
    pub clusters: Vec<String>,
    pub created_at: u64,
}

/// An upload the user has requested but that has not committed yet.
pub struct QueuedFile {
    pub id: u32,
    pub path: String,
}

impl Clone for QueuedFile {
    fn clone(&self) -> (r: Self)
        ensures
            r == *self,
    {
        QueuedFile { id: self.id, path: self.path.clone() }
    }
}

/// True when some record in `s` carries `id`.
pub open spec fn has_file(s: Seq<File>, id: u32) -> bool {
    exists|i: int| 0 <= i < s.len() && s[i].id == id
}

/// True when some queued upload in `s` carries `id`.
pub open spec fn has_queued(s: Seq<QueuedFile>, id: u32) -> bool {
    exists|i: int| 0 <= i < s.len() && s[i].id == id
}

pub open spec fn file_ids_distinct(s: Seq<File>) -> bool {
    forall|i: int, j: int| #![trigger s[i].id, s[j].id]
        0 <= i < j < s.len() ==> s[i].id != s[j].id
}

pub open spec fn queued_ids_distinct(s: Seq<QueuedFile>) -> bool {
    forall|i: int, j: int| #![trigger s[i].id, s[j].id]
        0 <= i < j < s.len() ==> s[i].id != s[j].id
}

/// `s` with every record whose id occurs in `ids` removed, order kept.
pub open spec fn remove_files(s: Seq<File>, ids: Seq<u32>) -> Seq<File>
    decreases s.len(),
{
    if s.len() == 0 {
        Seq::empty()
    } else {
        let rest = remove_files(s.drop_last(), ids);
        if ids.contains(s.last().id) {
            rest
        } else {
            rest.push(s.last())
        }
    }
}

/// `s` with every queued upload whose id occurs in `ids` removed, order kept.
pub open spec fn remove_queued(s: Seq<QueuedFile>, ids: Seq<u32>) -> Seq<QueuedFile>
    decreases s.len(),
{
    if s.len() == 0 {
        Seq::empty()
    } else {
        let rest = remove_queued(s.drop_last(), ids);
        if ids.contains(s.last().id) {
            rest
        } else {
            rest.push(s.last())
        }
    }
}

/// What `remove_files` keeps comes from `s`, carries no removed id, and
/// stays duplicate-free when `s` is.
pub proof fn lemma_remove_files_wf(s: Seq<File>, ids: Seq<u32>)
    ensures
        remove_files(s, ids).len() <= s.len(),
        forall|k: int|
            0 <= k < remove_files(s, ids).len() ==> has_file(
                s,
                (#[trigger] remove_files(s, ids)[k]).id,
            ),
        forall|k: int|
            0 <= k < remove_files(s, ids).len() ==> !ids.contains(
                (#[trigger] remove_files(s, ids)[k]).id,
            ),
        file_ids_distinct(s) ==> file_ids_distinct(remove_files(s, ids)),
    decreases s.len(),
{
    if s.len() > 0 {
        lemma_remove_files_wf(s.drop_last(), ids);
        let r0 = remove_files(s.drop_last(), ids);
        let r = remove_files(s, ids);
        assert forall|k: int| 0 <= k < r0.len() implies has_file(s, r0[k].id) by {
            let i = choose|i: int| 0 <= i < s.drop_last().len() && s.drop_last()[i].id == r0[k].id;
            assert(s[i].id == r0[k].id);
        }
        if file_ids_distinct(s) {
            assert(file_ids_distinct(s.drop_last()));
            if !ids.contains(s.last().id) {
                assert forall|k: int| 0 <= k < r0.len() implies r0[k].id != s.last().id by {
                    let i = choose|i: int|
                        0 <= i < s.drop_last().len() && s.drop_last()[i].id == r0[k].id;
                    assert(s[i].id == r0[k].id);
                    assert(s[i].id != s[s.len() - 1].id);
                }
                assert forall|i: int, j: int| 0 <= i < j < r.len() implies r[i].id != r[j].id by {
                    if j < r0.len() {
                        assert(r0[i].id != r0[j].id);
                    }
                }
            }
        }
    }
}

/// Removing ids that occur nowhere in `s` leaves `s` as it was.
pub proof fn lemma_remove_files_absent(s: Seq<File>, ids: Seq<u32>)
    requires
        forall|i: int| 0 <= i < s.len() ==> !ids.contains((#[trigger] s[i]).id),
    ensures
        remove_files(s, ids) == s,
    decreases s.len(),
{
    if s.len() > 0 {
        lemma_remove_files_absent(s.drop_last(), ids);
        assert(remove_files(s, ids) =~= s);
    } else {
        assert(remove_files(s, ids) =~= s);
    }
}

/// Removing the same ids twice is the same as removing them once.
pub proof fn lemma_remove_files_idempotent(s: Seq<File>, ids: Seq<u32>)
    ensures
        remove_files(remove_files(s, ids), ids) == remove_files(s, ids),
{
    lemma_remove_files_wf(s, ids);
    lemma_remove_files_absent(remove_files(s, ids), ids);
}

/// What `remove_queued` keeps comes from `s`, carries no removed id, and
/// stays duplicate-free when `s` is.
pub proof fn lemma_remove_queued_wf(s: Seq<QueuedFile>, ids: Seq<u32>)
    ensures
        remove_queued(s, ids).len() <= s.len(),
        forall|k: int|
            0 <= k < remove_queued(s, ids).len() ==> has_queued(
                s,
                (#[trigger] remove_queued(s, ids)[k]).id,
            ),
        forall|k: int|
            0 <= k < remove_queued(s, ids).len() ==> !ids.contains(
                (#[trigger] remove_queued(s, ids)[k]).id,
            ),
        queued_ids_distinct(s) ==> queued_ids_distinct(remove_queued(s, ids)),
    decreases s.len(),
{
    if s.len() > 0 {
        lemma_remove_queued_wf(s.drop_last(), ids);
        let r0 = remove_queued(s.drop_last(), ids);
        let r = remove_queued(s, ids);
        assert forall|k: int| 0 <= k < r0.len() implies has_queued(s, r0[k].id) by {
            let i = choose|i: int| 0 <= i < s.drop_last().len() && s.drop_last()[i].id == r0[k].id;
            assert(s[i].id == r0[k].id);
        }
        if queued_ids_distinct(s) {
            assert(queued_ids_distinct(s.drop_last()));
            if !ids.contains(s.last().id) {
                assert forall|k: int| 0 <= k < r0.len() implies r0[k].id != s.last().id by {
                    let i = choose|i: int|
                        0 <= i < s.drop_last().len() && s.drop_last()[i].id == r0[k].id;
                    assert(s[i].id == r0[k].id);
                    assert(s[i].id != s[s.len() - 1].id);
                }
                assert forall|i: int, j: int| 0 <= i < j < r.len() implies r[i].id != r[j].id by {
                    if j < r0.len() {
                        assert(r0[i].id != r0[j].id);
                    }
                }
            }
        }
    }
}

/// Removing ids that occur nowhere in `s` leaves `s` as it was.
pub proof fn lemma_remove_queued_absent(s: Seq<QueuedFile>, ids: Seq<u32>)
    requires
        forall|i: int| 0 <= i < s.len() ==> !ids.contains((#[trigger] s[i]).id),
    ensures
        remove_queued(s, ids) == s,
    decreases s.len(),
{
    if s.len() > 0 {
        lemma_remove_queued_absent(s.drop_last(), ids);
        assert(remove_queued(s, ids) =~= s);
    } else {
        assert(remove_queued(s, ids) =~= s);
    }
}

/// Removing the same ids twice is the same as removing them once.
pub proof fn lemma_remove_queued_idempotent(s: Seq<QueuedFile>, ids: Seq<u32>)
    ensures
        remove_queued(remove_queued(s, ids), ids) == remove_queued(s, ids),
{
    lemma_remove_queued_wf(s, ids);
    lemma_remove_queued_absent(remove_queued(s, ids), ids);
}

/// The catalog plus the pending queue and the single active upload.
pub struct State {
    pub token: Option<String>,
    pub channel: Option<String>,
    pub next_id: u32,
    pub root: Vec<File>,
    pub queue: VecDeque<QueuedFile>,
    pub uploading: Option<u32>,
}

impl State {
    /// Every id in the catalog, the queue and the active upload was handed
    /// out by `next_id` exactly once: all are below `next_id` and no two
    /// are equal.
    pub open spec fn inv(self) -> bool {
        &&& file_ids_distinct(self.root@)
        &&& queued_ids_distinct(self.queue@)
        &&& (forall|i: int|
            0 <= i < self.root@.len() ==> (#[trigger] self.root@[i].id) < self.next_id)
        &&& (forall|i: int|
            0 <= i < self.queue@.len() ==> (#[trigger] self.queue@[i].id) < self.next_id)
        &&& (forall|i: int, j: int|
            0 <= i < self.root@.len() && 0 <= j < self.queue@.len() ==> self.root@[i].id
                != self.queue@[j].id)
        &&& match self.uploading {
            Some(u) => u < self.next_id && !has_file(self.root@, u) && !has_queued(
                self.queue@,
                u,
            ),
            None => true,
        }
    }

    /// Hands out the next fresh id.
    pub fn next_id(&mut self) -> (id: u32)
        requires
            old(self).next_id < u32::MAX,
        ensures
            id == old(self).next_id,
            final(self).next_id == old(self).next_id + 1,
            final(self).token == old(self).token,
            final(self).channel == old(self).channel,
            final(self).root == old(self).root,
            final(self).queue == old(self).queue,
            final(self).uploading == old(self).uploading,
    {
        let id = self.next_id;
        self.next_id = self.next_id + 1;
        id
    }

    /// Queues the given paths for upload, assigning each a fresh id in
    /// order, and returns the queued descriptors. The caller has already
    /// dropped paths that do not name a regular file, and starts the next
    /// upload itself when no upload is active.
    pub fn upload(&mut self, files: Vec<String>) -> (queued: Vec<QueuedFile>)
        requires
            old(self).inv(),
            old(self).next_id + files@.len() <= u32::MAX,
        ensures
            final(self).inv(),
            final(self).next_id == old(self).next_id + files@.len(),
            final(self).token == old(self).token,
            final(self).channel == old(self).channel,
            final(self).root == old(self).root,
            final(self).uploading == old(self).uploading,
            queued@.len() == files@.len(),
            forall|i: int|
                0 <= i < files@.len() ==> (#[trigger] queued@[i]).id == old(self).next_id + i
                    && queued@[i].path == files@[i],
            final(self).queue@ == old(self).queue@ + queued@,
    {
        let ghost orig = *self;
        let mut queued: Vec<QueuedFile> = Vec::new();
        let mut i: usize = 0;
        while i < files.len()
            invariant
                self.inv(),
                i <= files@.len(),
                orig.next_id + files@.len() <= u32::MAX,
                self.next_id == orig.next_id + i,
                self.token == orig.token,
                self.channel == orig.channel,
                self.root == orig.root,
                self.uploading == orig.uploading,
                queued@.len() == i,
                forall|k: int|
                    0 <= k < i ==> (#[trigger] queued@[k]).id == orig.next_id + k
                        && queued@[k].path == files@[k],
                self.queue@ == orig.queue@ + queued@,
            decreases files@.len() - i,
        {
            let path = files[i].clone();
            let id = self.next_id();
            let qf = QueuedFile { id, path };
            queued.push(qf.clone());
            self.queue.push_back(qf);
            proof {
                assert(self.queue@ =~= orig.queue@ + queued@);
            }
            i = i + 1;
        }
        queued
    }

    /// Removes every record and queued upload whose id occurs in `ids`,
    /// keeping order. When the active upload's id is among them, the active
    /// upload is cleared and `true` comes back: the caller then fires the
    /// cancellation signal, which suppresses that upload's commit. Deleting
    /// absent ids changes nothing, and deleting twice is the same as once
    /// (see `lemma_remove_files_absent` and `lemma_remove_files_idempotent`).
    pub fn delete(&mut self, ids: Vec<u32>) -> (aborted: bool)
        requires
            old(self).inv(),
        ensures
            final(self).inv(),
            final(self).root@ == remove_files(old(self).root@, ids@),
            final(self).queue@ == remove_queued(old(self).queue@, ids@),
            final(self).next_id == old(self).next_id,
            final(self).token == old(self).token,
            final(self).channel == old(self).channel,
            aborted == (old(self).uploading matches Some(u) && ids@.contains(u)),
            final(self).uploading == if aborted {
                Option::<u32>::None
            } else {
                old(self).uploading
            },
    {
        let ghost orig = *self;
        let mut kept_rev: Vec<File> = Vec::new();
        while self.root.len() > 0
            invariant
                self.token == orig.token,
                self.channel == orig.channel,
                self.next_id == orig.next_id,
                self.queue == orig.queue,
                self.uploading == orig.uploading,
                remove_files(orig.root@, ids@) == remove_files(self.root@, ids@)
                    + kept_rev@.reverse(),
            decreases self.root@.len(),
        {
            let ghost before = self.root@;
            let ghost kept_before = kept_rev@;
            let f = self.root.pop().unwrap();
            if !contains_id(&ids, f.id) {
                kept_rev.push(f);
                proof {
                    assert(kept_rev@.reverse() =~= seq![before.last()] + kept_before.reverse());
                    assert(remove_files(before, ids@) + kept_before.reverse() =~= remove_files(
                        self.root@,
                        ids@,
                    ) + kept_rev@.reverse());
                }
            }
        }
        proof {
            assert(self.root@ =~= Seq::<File>::empty());
        }
        while kept_rev.len() > 0
            invariant
                self.token == orig.token,
                self.channel == orig.channel,
                self.next_id == orig.next_id,
                self.queue == orig.queue,
                self.uploading == orig.uploading,
                remove_files(orig.root@, ids@) == self.root@ + kept_rev@.reverse(),
            decreases kept_rev@.len(),
        {
            let ghost kept_before = kept_rev@;
            let ghost root_before = self.root@;
            let f = kept_rev.pop().unwrap();
            self.root.push(f);
            proof {
                assert(kept_before.reverse() =~= seq![kept_before.last()] + kept_rev@.reverse());
                assert(root_before + kept_before.reverse() =~= self.root@ + kept_rev@.reverse());
            }
        }
        proof {
            assert(self.root@ + kept_rev@.reverse() =~= self.root@);
        }
        let mut kept_rev_q: Vec<QueuedFile> = Vec::new();
        while self.queue.len() > 0
            invariant
                self.token == orig.token,
                self.channel == orig.channel,
                self.next_id == orig.next_id,
                self.root@ == remove_files(orig.root@, ids@),
                self.uploading == orig.uploading,
                remove_queued(orig.queue@, ids@) == remove_queued(self.queue@, ids@)
                    + kept_rev_q@.reverse(),
            decreases self.queue@.len(),
        {
            let ghost before = self.queue@;
            let ghost kept_before = kept_rev_q@;
            let f = self.queue.pop_back().unwrap();
            proof {
                assert(self.queue@ =~= before.drop_last());
            }
            if !contains_id(&ids, f.id) {
                kept_rev_q.push(f);
                proof {
                    assert(kept_rev_q@.reverse() =~= seq![before.last()] + kept_before.reverse());
                    assert(remove_queued(before, ids@) + kept_before.reverse() =~= remove_queued(
                        self.queue@,
                        ids@,
                    ) + kept_rev_q@.reverse());
                }
            }
        }
        proof {
            assert(self.queue@ =~= Seq::<QueuedFile>::empty());
        }
        while kept_rev_q.len() > 0
            invariant
                self.token == orig.token,
                self.channel == orig.channel,
                self.next_id == orig.next_id,
                self.root@ == remove_files(orig.root@, ids@),
                self.uploading == orig.uploading,
                remove_queued(orig.queue@, ids@) == self.queue@ + kept_rev_q@.reverse(),
            decreases kept_rev_q@.len(),
        {
            let ghost kept_before = kept_rev_q@;
            let ghost queue_before = self.queue@;
            let f = kept_rev_q.pop().unwrap();
            self.queue.push_back(f);
            proof {
                assert(kept_before.reverse() =~= seq![kept_before.last()] + kept_rev_q@.reverse());
                assert(queue_before + kept_before.reverse() =~= self.queue@ + kept_rev_q@.reverse());
            }
        }
        proof {
            assert(self.queue@ + kept_rev_q@.reverse() =~= self.queue@);
        }
        let aborted = match self.uploading {
            Some(u) => contains_id(&ids, u),
            None => false,
        };
        if aborted {
            self.uploading = None;
        }
        proof {
            lemma_remove_files_wf(orig.root@, ids@);
            lemma_remove_queued_wf(orig.queue@, ids@);
            let r = self.root@;
            let q = self.queue@;
            assert forall|i: int| 0 <= i < r.len() implies (#[trigger] r[i].id) < self.next_id by {
                let k = choose|k: int| 0 <= k < orig.root@.len() && orig.root@[k].id == r[i].id;
                assert(orig.root@[k].id < orig.next_id);
            }
            assert forall|i: int| 0 <= i < q.len() implies (#[trigger] q[i].id) < self.next_id by {
                let k = choose|k: int| 0 <= k < orig.queue@.len() && orig.queue@[k].id == q[i].id;
                assert(orig.queue@[k].id < orig.next_id);
            }
            assert forall|i: int, j: int|
                0 <= i < r.len() && 0 <= j < q.len() implies r[i].id != q[j].id by {
                let ki = choose|k: int| 0 <= k < orig.root@.len() && orig.root@[k].id == r[i].id;
                let kj = choose|k: int| 0 <= k < orig.queue@.len() && orig.queue@[k].id == q[j].id;
                assert(orig.root@[ki].id != orig.queue@[kj].id);
            }
            if self.uploading is Some {
                let u = self.uploading->0;
                assert(!has_file(orig.root@, u));
                assert forall|i: int| 0 <= i < r.len() implies (#[trigger] r[i].id) != u by {
                    let k = choose|k: int| 0 <= k < orig.root@.len() && orig.root@[k].id == r[i].id;
                }
                assert forall|j: int| 0 <= j < q.len() implies (#[trigger] q[j].id) != u by {
                    let k = choose|k: int| 0 <= k < orig.queue@.len() && orig.queue@[k].id == q[j].id;
                }
                assert(!has_file(r, u));
                assert(!has_queued(q, u));
            }
        }
        aborted
    }

    /// Gives the record carrying `id` the new `name`; every other field and
    /// every other record stays. Renaming an id that no record carries is a
    /// no-op.
    pub fn rename(&mut self, id: u32, name: String)
        requires
            old(self).inv(),
        ensures
            final(self).inv(),
            final(self).queue == old(self).queue,
            final(self).next_id == old(self).next_id,
            final(self).uploading == old(self).uploading,
            final(self).token == old(self).token,
            final(self).channel == old(self).channel,
            !has_file(old(self).root@, id) ==> final(self).root@ == old(self).root@,
            forall|i: int|
                0 <= i < old(self).root@.len() && (#[trigger] old(self).root@[i]).id == id
                    ==> final(self).root@ == old(self).root@.update(
                    i,
                    (File {
                        id: old(self).root@[i].id,
                        name: name,
                        path: old(self).root@[i].path,
                        size: old(self).root@[i].size,
                        clusters: old(self).root@[i].clusters,
                        created_at: old(self).root@[i].created_at,
                    }),
                ),
    {
        let ghost orig = *self;
        let n = self.root.len();
        let mut i: usize = 0;
        while i < n
            invariant
                orig == *old(self),
                orig.inv(),
                *self == orig,
                n == orig.root@.len(),
                i <= n,
                forall|k: int| 0 <= k < i ==> (#[trigger] orig.root@[k]).id != id,
            decreases n - i,
        {
            if self.root[i].id == id {
                let mut slot = File {
                    id: 0,
                    name: String::new(),
                    path: String::new(),
                    size: 0,
                    clusters: Vec::new(),
                    created_at: 0,
                };
                self.root.set_and_swap(i, &mut slot);
                let f = File {
                    id: slot.id,
                    name,
                    path: slot.path,
                    size: slot.size,
                    clusters: slot.clusters,
                    created_at: slot.created_at,
                };
                self.root.set(i, f);
                proof {
                    assert(self.root@ =~= orig.root@.update(i as int, f));
                    assert forall|i2: int|
                        0 <= i2 < orig.root@.len() && (#[trigger] orig.root@[i2]).id == id
                            implies self.root@ == orig.root@.update(
                        i2,
                        (File {
                            id: orig.root@[i2].id,
                            name: f.name,
                            path: orig.root@[i2].path,
                            size: orig.root@[i2].size,
                            clusters: orig.root@[i2].clusters,
                            created_at: orig.root@[i2].created_at,
                        }),
                    ) by {
                        if i2 != i as int {
                            assert(orig.root@[i2].id != orig.root@[i as int].id);
                        }
                    }
                    assert forall|a: int, b: int|
                        0 <= a < b < self.root@.len() implies self.root@[a].id
                        != self.root@[b].id by {
                        assert(orig.root@[a].id != orig.root@[b].id);
                    }
                    if orig.uploading is Some {
                        let u = orig.uploading->0;
                        assert forall|k: int|
                            0 <= k < self.root@.len() implies (#[trigger] self.root@[k].id)
                            != u by {
                            assert(orig.root@[k].id != u);
                        }
                        assert(!has_file(self.root@, u));
                    }
                }
                return ;
            }
            i = i + 1;
        }
    }

    /// Starts the next upload: pops the head of the queue and marks it as
    /// the single active upload. The caller must be idle (nothing active).
    pub fn upload_next(&mut self) -> (file: QueuedFile)
        requires
            old(self).inv(),
            old(self).queue@.len() > 0,
            old(self).uploading is None,
        ensures
            final(self).inv(),
            file == old(self).queue@[0],
            final(self).queue@ == old(self).queue@.drop_first(),
            final(self).uploading == Some(file.id),
            final(self).root == old(self).root,
            final(self).next_id == old(self).next_id,
            final(self).token == old(self).token,
            final(self).channel == old(self).channel,
    {
        let file = self.queue.pop_front().unwrap();
        self.uploading = Some(file.id);
        proof {
            assert(self.queue@ =~= old(self).queue@.drop_first());
            assert forall|j: int|
                0 <= j < self.queue@.len() implies (#[trigger] self.queue@[j].id) != file.id by {
                assert(old(self).queue@[0].id != old(self).queue@[j + 1].id);
            }
            assert(!has_queued(self.queue@, file.id));
            if has_file(self.root@, file.id) {
                let k = choose|k: int| 0 <= k < self.root@.len() && self.root@[k].id == file.id;
                assert(old(self).root@[k].id != old(self).queue@[0].id);
            }
        }
        file
    }

    /// Commits the active upload: appends its record to the catalog and
    /// returns to idle. Runs only when the upload was not cancelled, so a
    /// deletion that raced the transfer keeps the record out for good.
    pub fn commit(
        &mut self,
        id: u32,
        name: String,
        path: String,
        size: u64,
        clusters: Vec<String>,
        created_at: u64,
    )
        requires
            old(self).inv(),
            old(self).uploading == Some(id),
        ensures
            final(self).inv(),
            final(self).root@ == old(self).root@.push(
                (File { id, name, path, size, clusters, created_at }),
            ),
            final(self).queue == old(self).queue,
            final(self).uploading is None,
            final(self).next_id == old(self).next_id,
            final(self).token == old(self).token,
            final(self).channel == old(self).channel,
    {
        let f = File { id, name, path, size, clusters, created_at };
        self.root.push(f);
        self.uploading = None;
        proof {
            let r = self.root@;
            let orig = old(self).root@;
            assert forall|a: int, b: int| 0 <= a < b < r.len() implies r[a].id != r[b].id by {
                if b < orig.len() {
                    assert(orig[a].id != orig[b].id);
                } else {
                    assert(!has_file(orig, id));
                    assert(orig[a].id != id);
                }
            }
        }
    }
}

/// One fuzzy-search hit before ordering: the record's id, the
/// Damerau-Levenshtein distance of its name from the query, and the
/// normalizer of the distance ratio — the longer of the two lengths, or 1
/// when both strings are empty.
#[derive(Clone, Copy, Debug)]
pub struct Match {
    pub id: u32,
    pub dist: usize,
    pub len: usize,
}

/// `a` sorts at or before `b`: `a`'s normalized distance `dist / len` is
/// at most `b`'s, compared by cross-multiplication — the closest match
/// comes first.
pub open spec fn dist_le(a: Match, b: Match) -> bool {
    (a.dist as int) * (b.len as int) <= (b.dist as int) * (a.len as int)
}

pub open spec fn sorted_by_distance(s: Seq<Match>) -> bool {
    forall|i: int, j: int| 0 <= i < j < s.len() ==> #[trigger] dist_le(s[i], s[j])
}

fn dist_le_exec(a: &Match, b: &Match) -> (r: bool)
    ensures
        r == dist_le(*a, *b),
{
    proof {
        vstd::arithmetic::mul::lemma_mul_upper_bound(
            a.dist as int,
            u64::MAX as int,
            b.len as int,
            u64::MAX as int,
        );
        vstd::arithmetic::mul::lemma_mul_upper_bound(
            b.dist as int,
            u64::MAX as int,
            a.len as int,
            u64::MAX as int,
        );
    }
    (a.dist as u128) * (b.len as u128) <= (b.dist as u128) * (a.len as u128)
}

proof fn lemma_dist_le_trans(a: Match, b: Match, c: Match)
    requires
        a.len >= 1,
        b.len >= 1,
        c.len >= 1,
        dist_le(a, b),
        dist_le(b, c),
    ensures
        dist_le(a, c),
{
    let da = a.dist as int;
    let ma = a.len as int;
    let db = b.dist as int;
    let mb = b.len as int;
    let dc = c.dist as int;
    let mc = c.len as int;
    assert(da * mc <= dc * ma) by (nonlinear_arith)
        requires
            da * mb <= db * ma,
            db * mc <= dc * mb,
            ma >= 1,
            mb >= 1,
            mc >= 1,
    ;
}

/// Where a later hit lands among already-ordered hits: after every hit
/// that sorts at or before it, so hits at equal distance keep their input
/// order.
pub open spec fn insert_sorted(t: Seq<Match>, x: Match) -> Seq<Match>
    decreases t.len(),
{
    if t.len() == 0 {
        seq![x]
    } else if dist_le(t.last(), x) {
        t.push(x)
    } else {
        insert_sorted(t.drop_last(), x).push(t.last())
    }
}

/// Insertion sort as a function: ascending by normalized distance, stable
/// on ties.
pub open spec fn sort_spec(s: Seq<Match>) -> Seq<Match>
    decreases s.len(),
{
    if s.len() == 0 {
        Seq::empty()
    } else {
        insert_sorted(sort_spec(s.drop_last()), s.last())
    }
}

/// `insert_sorted` places `x` exactly at `p` when everything before `p`
/// sorts at or before `x` and everything from `p` on sorts strictly after.
proof fn lemma_insert_sorted_at(t: Seq<Match>, x: Match, p: int)
    requires
        0 <= p <= t.len(),
        p == 0 || dist_le(t[p - 1], x),
        forall|k: int| p <= k < t.len() ==> !dist_le(#[trigger] t[k], x),
    ensures
        insert_sorted(t, x) == t.take(p) + seq![x] + t.skip(p),
    decreases t.len(),
{
    if t.len() == 0 {
        assert(insert_sorted(t, x) =~= t.take(p) + seq![x] + t.skip(p));
    } else if p == t.len() {
        assert(dist_le(t.last(), x));
        assert(insert_sorted(t, x) =~= t.take(p) + seq![x] + t.skip(p));
    } else {
        assert(!dist_le(t[t.len() - 1], x));
        assert forall|k: int|
            p <= k < t.drop_last().len() implies !dist_le(#[trigger] t.drop_last()[k], x) by {
            assert(t.drop_last()[k] == t[k]);
        }
        if p > 0 {
            assert(t.drop_last()[p - 1] == t[p - 1]);
        }
        lemma_insert_sorted_at(t.drop_last(), x, p);
        assert(insert_sorted(t, x) =~= t.take(p) + seq![x] + t.skip(p));
    }
}

/// Sorts hits ascending by normalized distance, the closest match first;
/// hits at equal distance keep their input order. The result is exactly
/// `sort_spec` of the input, and so a permutation of it ordered by
/// `dist_le`.
pub fn sort_matches(v: &mut Vec<Match>)
    requires
        forall|k: int| 0 <= k < old(v)@.len() ==> (#[trigger] old(v)@[k]).len >= 1,
    ensures
        final(v)@ == sort_spec(old(v)@),
        final(v)@.len() == old(v)@.len(),
        final(v)@.to_multiset() == old(v)@.to_multiset(),
        sorted_by_distance(final(v)@),
        forall|k: int| 0 <= k < final(v)@.len() ==> (#[trigger] final(v)@[k]).len >= 1,
{
    let ghost orig = v@;
    if v.len() == 0 {
        proof {
            assert(sort_spec(orig) =~= orig);
        }
        return ;
    }
    if v.len() == 1 {
        proof {
            assert(orig.drop_last() =~= Seq::<Match>::empty());
            assert(sort_spec(orig.drop_last()) =~= Seq::<Match>::empty());
            assert(insert_sorted(Seq::<Match>::empty(), orig.last()) =~= orig);
            assert(sort_spec(orig) =~= orig);
        }
        return ;
    }
    proof {
        assert(orig.take(1).drop_last() =~= Seq::<Match>::empty());
        assert(sort_spec(orig.take(1).drop_last()) =~= Seq::<Match>::empty());
        assert(insert_sorted(Seq::<Match>::empty(), orig.take(1).last()) =~= orig.take(1));
        assert(v@.take(1) =~= orig.take(1));
        assert(v@.take(1) == sort_spec(orig.take(1)));
        assert(v@.skip(1) =~= orig.skip(1));
    }
    let mut i: usize = 1;
    while i < v.len()
        invariant
            1 <= i <= v@.len(),
            v@.len() == orig.len(),
            v@.to_multiset() == orig.to_multiset(),
            v@.take(i as int) == sort_spec(orig.take(i as int)),
            v@.skip(i as int) == orig.skip(i as int),
            forall|k1: int, k2: int| 0 <= k1 < k2 < i ==> #[trigger] dist_le(v@[k1], v@[k2]),
            forall|k: int| 0 <= k < v@.len() ==> (#[trigger] v@[k]).len >= 1,
        decreases v@.len() - i,
    {
        let ghost before = v@;
        let x = v[i];
        proof {
            assert(before.skip(i as int)[0] == orig.skip(i as int)[0]);
            assert(x == orig[i as int]);
        }
        let mut p: usize = i;
        while p > 0 && !dist_le_exec(&v[p - 1], &x)
            invariant
                p <= i,
                i < v@.len(),
                v@ == before,
                x == v@[i as int],
                forall|k1: int, k2: int| 0 <= k1 < k2 < i ==> #[trigger] dist_le(v@[k1], v@[k2]),
                forall|k: int| 0 <= k < v@.len() ==> (#[trigger] v@[k]).len >= 1,
                forall|k: int| p <= k < i ==> !dist_le(#[trigger] v@[k], x),
            decreases p,
        {
            p = p - 1;
        }
        let y = v.remove(i);
        v.insert(p, y);
        proof {
            broadcast use vstd::multiset::group_multiset_axioms;
            broadcast use vstd::seq_lib::group_to_multiset_ensures;

            assert(before.contains(x)) by {
                assert(before[i as int] == x);
            }
            assert(v@.to_multiset() =~= before.to_multiset());
            let w = v@;
            assert(forall|k: int| 0 <= k < p ==> w[k] == before[k]);
            assert(w[p as int] == x);
            assert(forall|k: int| p < k <= i ==> w[k] == before[k - 1]);
            assert(forall|k: int| i < k < w.len() ==> w[k] == before[k]);
            assert forall|a: int, b: int| 0 <= a < b < i + 1 implies #[trigger] dist_le(
                w[a],
                w[b],
            ) by {
                if b < p {
                    assert(dist_le(before[a], before[b]));
                } else if b == p {
                    if a < p - 1 {
                        assert(dist_le(before[a], before[p - 1]));
                        lemma_dist_le_trans(before[a], before[p - 1], x);
                    }
                } else {
                    if a < p {
                        if a == b - 1 {
                        } else {
                            assert(dist_le(before[a], before[b - 1]));
                        }
                    } else if a == p {
                        assert(!dist_le(before[b - 1], x));
                    } else {
                        assert(dist_le(before[a - 1], before[b - 1]));
                    }
                }
            }
            let t = before.take(i as int);
            assert(forall|k: int| 0 <= k < i ==> t[k] == before[k]);
            assert forall|k: int| p <= k < t.len() implies !dist_le(#[trigger] t[k], x) by {
                assert(t[k] == before[k]);
            }
            if p > 0 {
                assert(t[p - 1] == before[p - 1]);
            }
            lemma_insert_sorted_at(t, x, p as int);
            assert(v@.take(i + 1) =~= t.take(p as int) + seq![x] + t.skip(p as int));
            assert(orig.take(i + 1).drop_last() =~= orig.take(i as int));
            assert(orig.take(i + 1).last() == orig[i as int]);
            assert(sort_spec(orig.take(i + 1)) == insert_sorted(
                sort_spec(orig.take(i as int)),
                orig[i as int],
            ));
            assert(v@.take(i + 1) == sort_spec(orig.take(i + 1)));
            assert forall|k: int| i + 1 <= k < w.len() implies w[k] == orig[k] by {
                assert(w[k] == before[k]);
                assert(before.skip(i as int)[k - i] == orig.skip(i as int)[k - i]);
            }
            assert(v@.skip(i + 1) =~= orig.skip(i + 1));
        }
        i = i + 1;
    }
    proof {
        assert(v@.take(v@.len() as int) =~= v@);
        assert(orig.take(orig.len() as int) =~= orig);
    }
}

/// All hits among the catalog records, in catalog order: the records
/// whose name matches the query (normalized distance below one half).
pub open spec fn root_hits(s: Seq<File>, q: Seq<char>) -> Seq<Match>
    decreases s.len(),
{
    if s.len() == 0 {
        Seq::empty()
    } else {
        root_hits(s.drop_last(), q) + if is_hit(s.last().name@, q) {
            seq![hit_of(s.last().name@, q, s.last().id)]
        } else {
            Seq::empty()
        }
    }
}

/// All hits among the queued uploads, in queue order, matched on the path.
pub open spec fn queue_hits(s: Seq<QueuedFile>, q: Seq<char>) -> Seq<Match>
    decreases s.len(),
{
    if s.len() == 0 {
        Seq::empty()
    } else {
        queue_hits(s.drop_last(), q) + if is_hit(s.last().path@, q) {
            seq![hit_of(s.last().path@, q, s.last().id)]
        } else {
            Seq::empty()
        }
    }
}

/// `x` matches `q`: the normalized Damerau-Levenshtein distance
/// `dist / max(len)` falls below one half — smaller means closer, and two
/// empty strings are distance zero.
pub open spec fn is_hit(x: Seq<char>, q: Seq<char>) -> bool {
    let d = dl(x, q, x.len() as int, q.len() as int);
    let m = if x.len() >= q.len() {
        x.len() as int
    } else {
        q.len() as int
    };
    2 * d < m || m == 0
}

pub open spec fn hit_of(x: Seq<char>, q: Seq<char>, id: u32) -> Match {
    let d = dl(x, q, x.len() as int, q.len() as int);
    let m = if x.len() >= q.len() {
        x.len() as int
    } else {
        q.len() as int
    };
    Match {
        id,
        dist: d as usize,
        len: if m == 0 {
            1usize
        } else {
            m as usize
        },
    }
}

/// What `query` returns: the catalog hits first, then the queue hits,
/// each group a permutation of its hits ordered ascending by normalized
/// distance — the closest match first.
pub open spec fn query_shape(
    root: Seq<File>,
    queue: Seq<QueuedFile>,
    q: Seq<char>,
    rm: Seq<Match>,
    qm: Seq<Match>,
    r: Seq<u32>,
) -> bool {
    &&& rm.to_multiset() == root_hits(root, q).to_multiset()
    &&& qm.to_multiset() == queue_hits(queue, q).to_multiset()
    &&& sorted_by_distance(rm)
    &&& sorted_by_distance(qm)
    &&& r == rm.map_values(|m: Match| m.id) + qm.map_values(|m: Match| m.id)
}

impl State {
    /// Fuzzy search: the ids of the catalog records whose name matches
    /// the query, then the queued uploads whose path does, each group
    /// ascending by normalized distance with the closest match first, and
    /// hits at equal distance in catalog or queue order.
    pub fn query(&self, query: String) -> (r: Vec<u32>)
        ensures
            r@ == sort_spec(root_hits(self.root@, query@)).map_values(|m: Match| m.id)
                + sort_spec(queue_hits(self.queue@, query@)).map_values(|m: Match| m.id),
            exists|rm: Seq<Match>, qm: Seq<Match>|
                query_shape(self.root@, self.queue@, query@, rm, qm, r@),
    {
        let q = query.as_str();
        let qn = q.unicode_len();
        let mut rhits: Vec<Match> = Vec::new();
        let mut i: usize = 0;
        while i < self.root.len()
            invariant
                i <= self.root@.len(),
                qn == query@.len(),
                q@ == query@,
                rhits@ == root_hits(self.root@.take(i as int), query@),
                forall|k: int| 0 <= k < rhits@.len() ==> (#[trigger] rhits@[k]).len >= 1,
            decreases self.root@.len() - i,
        {
            let ghost prefix = self.root@.take(i as int);
            let name = self.root[i].name.as_str();
            let d = damerau_levenshtein(name, q);
            let ln = name.unicode_len();
            let m = if ln >= qn {
                ln
            } else {
                qn
            };
            proof {
                lemma_dl_bounds(name@, query@, ln as int, qn as int);
            }
            if d < m - d || m == 0 {
                let lm = if m == 0 {
                    1
                } else {
                    m
                };
                rhits.push(Match { id: self.root[i].id, dist: d, len: lm });
            }
            proof {
                assert(self.root@.take(i + 1).drop_last() =~= prefix);
                assert(self.root@.take(i + 1).last() == self.root@[i as int]);
                assert(rhits@ =~= root_hits(self.root@.take(i + 1), query@));
            }
            i = i + 1;
        }
        proof {
            assert(self.root@.take(self.root@.len() as int) =~= self.root@);
        }
        let mut qhits: Vec<Match> = Vec::new();
        let mut i: usize = 0;
        while i < self.queue.len()
            invariant
                i <= self.queue@.len(),
                qn == query@.len(),
                q@ == query@,
                qhits@ == queue_hits(self.queue@.take(i as int), query@),
                forall|k: int| 0 <= k < qhits@.len() ==> (#[trigger] qhits@[k]).len >= 1,
            decreases self.queue@.len() - i,
        {
            let ghost prefix = self.queue@.take(i as int);
            let path = self.queue[i].path.as_str();
            let d = damerau_levenshtein(path, q);
            let ln = path.unicode_len();
            let m = if ln >= qn {
                ln
            } else {
                qn
            };
            proof {
                lemma_dl_bounds(path@, query@, ln as int, qn as int);
            }
            if d < m - d || m == 0 {
                let lm = if m == 0 {
                    1
                } else {
                    m
                };
                qhits.push(Match { id: self.queue[i].id, dist: d, len: lm });
            }
            proof {
                assert(self.queue@.take(i + 1).drop_last() =~= prefix);
                assert(self.queue@.take(i + 1).last() == self.queue@[i as int]);
                assert(qhits@ =~= queue_hits(self.queue@.take(i + 1), query@));
            }
            i = i + 1;
        }
        proof {
            assert(self.queue@.take(self.queue@.len() as int) =~= self.queue@);
        }
        sort_matches(&mut rhits);
        sort_matches(&mut qhits);
        let mut r: Vec<u32> = Vec::new();
        let mut i: usize = 0;
        while i < rhits.len()
            invariant
                i <= rhits@.len(),
                r@.len() == i,
                forall|k: int| 0 <= k < i ==> r@[k] == rhits@[k].id,
            decreases rhits@.len() - i,
        {
            r.push(rhits[i].id);
            i = i + 1;
        }
        let mut i: usize = 0;
        while i < qhits.len()
            invariant
                i <= qhits@.len(),
                r@.len() == rhits@.len() + i,
                forall|k: int| 0 <= k < rhits@.len() ==> r@[k] == rhits@[k].id,
                forall|k: int| 0 <= k < i ==> r@[rhits@.len() + k] == qhits@[k].id,
            decreases qhits@.len() - i,
        {
            r.push(qhits[i].id);
            i = i + 1;
        }
        proof {
            assert(r@ =~= rhits@.map_values(|m: Match| m.id) + qhits@.map_values(
                |m: Match| m.id,
            ));
            assert(query_shape(self.root@, self.queue@, query@, rhits@, qhits@, r@));
        }
        r
    }
}

/// A stored catalog is sound when every record id is below the stored
/// `next_id` and no two records share an id.
pub open spec fn catalog_ok(root: Seq<File>, next_id: u32) -> bool {
    &&& file_ids_distinct(root)
    &&& forall|i: int| 0 <= i < root.len() ==> (#[trigger] root[i].id) < next_id
}

impl State {
    /// Rebuilds the state from a loaded catalog document, with an empty
    /// queue and no active upload. A document whose ids are duplicated or
    /// not below its `next_id` is refused, so every state handed out
    /// satisfies the id invariant.
    pub fn from_catalog(
        token: Option<String>,
        channel: Option<String>,
        next_id: u32,
        root: Vec<File>,
    ) -> (r: Option<State>)
        ensures
            (r is Some) <==> catalog_ok(root@, next_id),
            r matches Some(s) ==> {
                &&& s.inv()
                &&& s.token == token
                &&& s.channel == channel
                &&& s.next_id == next_id
                &&& s.root == root
                &&& s.queue@ == Seq::<QueuedFile>::empty()
                &&& s.uploading is None
            },
    {
        let n = root.len();
        let mut i: usize = 0;
        while i < n
            invariant
                n == root@.len(),
                i <= n,
                forall|a: int| 0 <= a < i ==> (#[trigger] root@[a].id) < next_id,
                forall|a: int, b: int| #![trigger root@[a].id, root@[b].id]
                    0 <= a < i && a < b < n ==> root@[a].id != root@[b].id,
            decreases n - i,
        {
            if root[i].id >= next_id {
                return None;
            }
            let mut j: usize = i + 1;
            while j < n
                invariant
                    n == root@.len(),
                    i < j <= n,
                    i < n,
                    forall|b: int| i < b < j ==> root@[b].id != root@[i as int].id,
                decreases n - j,
            {
                if root[j].id == root[i].id {
                    return None;
                }
                j = j + 1;
            }
            i = i + 1;
        }
        Some(
            State {
                token,
                channel,
                next_id,
                root,
                queue: VecDeque::new(),
                uploading: None,
            },
        )
    }
}

impl Default for State {
    /// The empty catalog: no token or channel, no records, nothing queued,
    /// nothing active, ids starting at zero.
    fn default() -> (r: Self)
        ensures
            r.token is None,
            r.channel is None,
            r.next_id == 0,
            r.root@ == Seq::<File>::empty(),
            r.queue@ == Seq::<QueuedFile>::empty(),
            r.uploading is None,
            r.inv(),
    {
        State {
            token: None,
            channel: None,
            next_id: 0,
            root: Vec::new(),
            queue: VecDeque::new(),
            uploading: None,
        }
    }
}

} // verus!
