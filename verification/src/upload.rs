//! The per-file upload orchestration: one `Transfer` collects the remote
//! message ids of all clusters into their file-offset slots, whatever
//! order the clusters finish in; one `SegmentTask` walks a single cluster
//! through negotiate, piece upload and finalize, retrying on rate-limit
//! signals. The caller performs the network operations and feeds the
//! outcomes back in.

use vstd::prelude::*;
use vstd::pervasive::VecAdditionalExecFns;
use crate::actions::UploadDetail;

verus! {

/// The reassembly buffer of the single active upload: slot `i` receives
/// the remote message id of cluster `i`, no matter when it arrives.
pub struct Transfer {
    pub id: u32,
    pub path: String,
    pub size: usize,
    pub ids: Vec<Option<String>>,
}

impl Transfer {
    /// Every cluster has reported its remote message id.
    pub open spec fn complete(self) -> bool {
        forall|i: int| 0 <= i < self.ids@.len() ==> (#[trigger] self.ids@[i]) is Some
    }

    /// A fresh transfer with one empty slot per cluster.
    pub fn new(id: u32, path: String, size: usize, clusters: usize) -> (t: Transfer)
        ensures
            t.id == id,
            t.path == path,
            t.size == size,
            t.ids@.len() == clusters,
            forall|i: int| 0 <= i < clusters ==> (#[trigger] t.ids@[i]) is None,
    {
        let mut ids: Vec<Option<String>> = Vec::new();
        let mut i: usize = 0;
        while i < clusters
            invariant
                i <= clusters,
                ids@.len() == i,
                forall|k: int| 0 <= k < i ==> (#[trigger] ids@[k]) is None,
            decreases clusters - i,
        {
            ids.push(None);
            i = i + 1;
        }
        Transfer { id, path, size, ids }
    }

    /// Records that the cluster at `idx` finalized into `remote_id`: the
    /// id lands in slot `idx` regardless of completion order.
    pub fn segment_done(&mut self, idx: usize, remote_id: String)
        requires
            idx < old(self).ids@.len(),
        ensures
            final(self).id == old(self).id,
            final(self).path == old(self).path,
            final(self).size == old(self).size,
            final(self).ids@ == old(self).ids@.update(idx as int, Some(remote_id)),
    {
        self.ids.set(idx, Some(remote_id));
    }

    pub fn is_complete(&self) -> (r: bool)
        ensures
            r == self.complete(),
    {
        let mut i: usize = 0;
        while i < self.ids.len()
            invariant
                i <= self.ids@.len(),
                forall|k: int| 0 <= k < i ==> (#[trigger] self.ids@[k]) is Some,
            decreases self.ids@.len() - i,
        {
            if self.ids[i].is_none() {
                return false;
            }
            i = i + 1;
        }
        true
    }

    /// Unwraps the collected ids, in file-offset order, for the catalog
    /// record.
    pub fn into_ids(self) -> (r: Vec<String>)
        requires
            self.complete(),
        ensures
            r@.len() == self.ids@.len(),
            forall|i: int| 0 <= i < r@.len() ==> Some(#[trigger] r@[i]) == self.ids@[i],
    {
        let ghost orig = self.ids@;
        let mut ids = self.ids;
        let mut rev: Vec<String> = Vec::new();
        while ids.len() > 0
            invariant
                ids@.len() + rev@.len() == orig.len(),
                ids@ == orig.subrange(0, ids@.len() as int),
                forall|k: int|
                    0 <= k < rev@.len() ==> Some(#[trigger] rev@[k]) == orig[orig.len() - 1 - k],
                forall|i: int| 0 <= i < orig.len() ==> (#[trigger] orig[i]) is Some,
            decreases ids@.len(),
        {
            let ghost before = ids@;
            let v = ids.pop().unwrap();
            proof {
                assert(before.last() == orig[ids@.len() as int]);
                assert(ids@ =~= orig.subrange(0, ids@.len() as int));
            }
            rev.push(v.unwrap());
        }
        let mut r: Vec<String> = Vec::new();
        while rev.len() > 0
            invariant
                r@.len() + rev@.len() == orig.len(),
                forall|k: int| 0 <= k < r@.len() ==> Some(#[trigger] r@[k]) == orig[k],
                forall|k: int|
                    0 <= k < rev@.len() ==> Some(#[trigger] rev@[k]) == orig[orig.len() - 1 - k],
            decreases rev@.len(),
        {
            let v = rev.pop().unwrap();
            r.push(v);
        }
        r
    }
}

/// The walk of one cluster through the remote protocol. Different
/// clusters' tasks run independently; pieces within one cluster go
/// strictly one after another.
#[derive(Clone, Copy, Debug, PartialEq, Eq, Structural)]
pub enum SegmentStep {
    /// Asking the remote for one upload slot per piece.
    Negotiating,
    /// Streaming piece `piece` to its granted slot.
    Uploading { piece: usize },
    /// Posting the message that makes the uploaded pieces durable.
    Finalizing,
    /// The remote message id is in `result`.
    Done,
}

pub struct SegmentTask {
    pub idx: usize,
    pub size: usize,
    pub pieces: usize,
    pub details: Vec<UploadDetail>,
    pub step: SegmentStep,
    pub result: Option<String>,
}

impl SegmentTask {
    /// The piece a task in the `Uploading` step is streaming.
    pub open spec fn step_piece(s: SegmentStep) -> usize {
        match s {
            SegmentStep::Uploading { piece } => piece,
            _ => 0,
        }
    }

    pub open spec fn wf(self) -> bool {
        &&& 1 <= self.pieces
        &&& match self.step {
            SegmentStep::Negotiating => self.result is None,
            SegmentStep::Uploading { piece } => piece < self.pieces && self.details@.len()
                == self.pieces && self.result is None,
            SegmentStep::Finalizing => self.details@.len() == self.pieces && self.result is None,
            SegmentStep::Done => self.result is Some,
        }
    }

    pub fn new(idx: usize, size: usize, pieces: usize) -> (t: SegmentTask)
        requires
            1 <= pieces,
        ensures
            t.wf(),
            t.idx == idx,
            t.size == size,
            t.pieces == pieces,
            t.step == SegmentStep::Negotiating,
            t.result is None,
    {
        SegmentTask {
            idx,
            size,
            pieces,
            details: Vec::new(),
            step: SegmentStep::Negotiating,
            result: None,
        }
    }

    /// A rate-limited reply to negotiate or finalize: the caller sleeps
    /// for the delay the remote named and retries. The task stands exactly
    /// where it stood — the retry goes on indefinitely, there is no cap.
    pub fn on_rate_limited(&mut self)
        requires
            old(self).wf(),
            old(self).step == SegmentStep::Negotiating || old(self).step
                == SegmentStep::Finalizing,
        ensures
            *final(self) == *old(self),
            *final(self) == segment_step(*old(self), SegmentEvent::RateLimited),
    {
    }

    /// Negotiation granted one slot per piece: start streaming the first
    /// piece. A reply with any other number of slots is a fatal protocol
    /// breach; the caller must not feed it in.
    pub fn on_negotiated(&mut self, details: Vec<UploadDetail>)
        requires
            old(self).wf(),
            old(self).step == SegmentStep::Negotiating,
            details@.len() == old(self).pieces,
        ensures
            final(self).wf(),
            final(self).step == (SegmentStep::Uploading { piece: 0 }),
            final(self).details == details,
            final(self).idx == old(self).idx,
            final(self).size == old(self).size,
            final(self).pieces == old(self).pieces,
            final(self).result == old(self).result,
            *final(self) == segment_step(*old(self), (SegmentEvent::Negotiated { details })),
    {
        self.details = details;
        self.step = SegmentStep::Uploading { piece: 0 };
    }

    /// The current piece was streamed in full: move to the next piece, or
    /// to finalization after the last one.
    pub fn on_piece_uploaded(&mut self)
        requires
            old(self).wf(),
            old(self).step matches SegmentStep::Uploading { .. },
        ensures
            final(self).wf(),
            final(self).step == (if Self::step_piece(old(self).step) + 1 == old(self).pieces {
                SegmentStep::Finalizing
            } else {
                SegmentStep::Uploading { piece: (Self::step_piece(old(self).step) + 1) as usize }
            }),
            final(self).idx == old(self).idx,
            final(self).size == old(self).size,
            final(self).pieces == old(self).pieces,
            final(self).details == old(self).details,
            final(self).result == old(self).result,
            *final(self) == segment_step(*old(self), SegmentEvent::PieceDone),
    {
        match self.step {
            SegmentStep::Uploading { piece } => {
                if piece + 1 == self.pieces {
                    self.step = SegmentStep::Finalizing;
                } else {
                    self.step = SegmentStep::Uploading { piece: piece + 1 };
                }
            },
            _ => {},
        }
    }

    /// Finalization succeeded: the remote message id is this cluster's
    /// contribution to the reassembled catalog record.
    pub fn on_finalized(&mut self, message_id: String)
        requires
            old(self).wf(),
            old(self).step == SegmentStep::Finalizing,
        ensures
            final(self).wf(),
            final(self).step == SegmentStep::Done,
            final(self).result == Some(message_id),
            final(self).idx == old(self).idx,
            final(self).size == old(self).size,
            final(self).pieces == old(self).pieces,
            final(self).details == old(self).details,
            *final(self) == segment_step(*old(self), (SegmentEvent::Finalized { message_id })),
    {
        self.result = Some(message_id);
        self.step = SegmentStep::Done;
    }
}

/// One outcome of a remote operation, as a segment's walk consumes it.
pub enum SegmentEvent {
    /// The remote asked for a delay; the caller sleeps and retries.
    RateLimited,
    /// Negotiation granted one slot per piece.
    Negotiated { details: Vec<UploadDetail> },
    /// The current piece was streamed in full.
    PieceDone,
    /// Finalization produced the durable remote message id.
    Finalized { message_id: String },
}

/// What one event does to a task: the function each handler is proved to
/// implement. An event that does not fit the task's step leaves the task
/// as it stands; the handlers' preconditions rule those pairings out.
pub open spec fn segment_step(t: SegmentTask, e: SegmentEvent) -> SegmentTask {
    match e {
        SegmentEvent::RateLimited => t,
        SegmentEvent::Negotiated { details } => if t.step == SegmentStep::Negotiating {
            SegmentTask {
                idx: t.idx,
                size: t.size,
                pieces: t.pieces,
                details: details,
                step: SegmentStep::Uploading { piece: 0 },
                result: t.result,
            }
        } else {
            t
        },
        SegmentEvent::PieceDone => match t.step {
            SegmentStep::Uploading { piece } => SegmentTask {
                idx: t.idx,
                size: t.size,
                pieces: t.pieces,
                details: t.details,
                step: if piece + 1 == t.pieces {
                    SegmentStep::Finalizing
                } else {
                    SegmentStep::Uploading { piece: (piece + 1) as usize }
                },
                result: t.result,
            },
            _ => t,
        },
        SegmentEvent::Finalized { message_id } => if t.step == SegmentStep::Finalizing {
            SegmentTask {
                idx: t.idx,
                size: t.size,
                pieces: t.pieces,
                details: t.details,
                step: SegmentStep::Done,
                result: Some(message_id),
            }
        } else {
            t
        },
    }
}

/// The task after consuming the events in order.
pub open spec fn segment_walk(t: SegmentTask, events: Seq<SegmentEvent>) -> SegmentTask
    decreases events.len(),
{
    if events.len() == 0 {
        t
    } else {
        segment_walk(segment_step(t, events[0]), events.drop_first())
    }
}

/// `n` rate-limited replies in a row.
pub open spec fn rate_limited_events(n: nat) -> Seq<SegmentEvent>
    decreases n,
{
    if n == 0 {
        Seq::empty()
    } else {
        seq![SegmentEvent::RateLimited] + rate_limited_events((n - 1) as nat)
    }
}

/// `n` completed piece uploads in a row.
pub open spec fn piece_done_events(n: nat) -> Seq<SegmentEvent>
    decreases n,
{
    if n == 0 {
        Seq::empty()
    } else {
        seq![SegmentEvent::PieceDone] + piece_done_events((n - 1) as nat)
    }
}

proof fn lemma_segment_walk_append(t: SegmentTask, e1: Seq<SegmentEvent>, e2: Seq<SegmentEvent>)
    ensures
        segment_walk(t, e1 + e2) == segment_walk(segment_walk(t, e1), e2),
    decreases e1.len(),
{
    if e1.len() == 0 {
        assert(e1 + e2 =~= e2);
    } else {
        assert((e1 + e2)[0] == e1[0]);
        assert((e1 + e2).drop_first() =~= e1.drop_first() + e2);
        lemma_segment_walk_append(segment_step(t, e1[0]), e1.drop_first(), e2);
    }
}

proof fn lemma_segment_walk_single(t: SegmentTask, e: SegmentEvent)
    ensures
        segment_walk(t, seq![e]) == segment_step(t, e),
{
    assert(seq![e][0] == e);
    assert(seq![e].drop_first() =~= Seq::<SegmentEvent>::empty());
    assert(segment_walk(segment_step(t, e), seq![e].drop_first()) == segment_step(t, e));
}

/// The retry policy as one fact: rate-limited replies move the task
/// nowhere, however many arrive in a row.
pub proof fn lemma_segment_walk_rate_limited(t: SegmentTask, n: nat)
    ensures
        segment_walk(t, rate_limited_events(n)) == t,
    decreases n,
{
    if n > 0 {
        let events = rate_limited_events(n);
        assert(events[0] == SegmentEvent::RateLimited);
        assert(events.drop_first() =~= rate_limited_events((n - 1) as nat));
        lemma_segment_walk_rate_limited(t, (n - 1) as nat);
    }
}

proof fn lemma_segment_walk_pieces(t: SegmentTask, j: usize)
    requires
        t.wf(),
        t.step == (SegmentStep::Uploading { piece: j }),
    ensures
        segment_walk(t, piece_done_events((t.pieces - j) as nat)) == (SegmentTask {
            idx: t.idx,
            size: t.size,
            pieces: t.pieces,
            details: t.details,
            step: SegmentStep::Finalizing,
            result: t.result,
        }),
    decreases t.pieces - j,
{
    let n = (t.pieces - j) as nat;
    let events = piece_done_events(n);
    assert(events[0] == SegmentEvent::PieceDone);
    assert(events.drop_first() =~= piece_done_events((n - 1) as nat));
    let t1 = segment_step(t, SegmentEvent::PieceDone);
    assert(segment_walk(t, events) == segment_walk(t1, events.drop_first()));
    if j + 1 == t.pieces {
        assert(piece_done_events((n - 1) as nat) =~= Seq::<SegmentEvent>::empty());
        assert(segment_walk(t1, events.drop_first()) == t1);
    } else {
        lemma_segment_walk_pieces(t1, (j + 1) as usize);
        assert(segment_walk(t1, piece_done_events((t1.pieces - (j + 1)) as nat))
            == segment_walk(t1, events.drop_first()));
    }
}

/// Rate-limit retry carries a segment to completion: a negotiation
/// answered by any number of rate-limited replies before its grant, then
/// every piece streamed, then a finalization answered by any number of
/// rate-limited replies before its success — in particular exactly two
/// rate limits in all — still ends the walk finalized with the remote
/// message id, which then lands in its file-offset slot.
pub proof fn lemma_rate_limited_walk_finishes(
    t: SegmentTask,
    a: nat,
    details: Vec<UploadDetail>,
    b: nat,
    message_id: String,
)
    requires
        t.wf(),
        t.step == SegmentStep::Negotiating,
        details@.len() == t.pieces,
    ensures
        ({
            let events = rate_limited_events(a) + seq![(SegmentEvent::Negotiated { details })]
                + piece_done_events(t.pieces as nat) + rate_limited_events(b)
                + seq![(SegmentEvent::Finalized { message_id })];
            segment_walk(t, events) == (SegmentTask {
                idx: t.idx,
                size: t.size,
                pieces: t.pieces,
                details: details,
                step: SegmentStep::Done,
                result: Some(message_id),
            })
        }),
{
    let ra = rate_limited_events(a);
    let neg = seq![(SegmentEvent::Negotiated { details })];
    let pieces = piece_done_events(t.pieces as nat);
    let rb = rate_limited_events(b);
    let fin = seq![(SegmentEvent::Finalized { message_id })];

    lemma_segment_walk_append(t, ra + neg + pieces + rb, fin);
    lemma_segment_walk_append(t, ra + neg + pieces, rb);
    lemma_segment_walk_append(t, ra + neg, pieces);
    lemma_segment_walk_append(t, ra, neg);
    lemma_segment_walk_rate_limited(t, a);
    lemma_segment_walk_single(t, (SegmentEvent::Negotiated { details }));
    let t_up = segment_step(t, (SegmentEvent::Negotiated { details }));
    lemma_segment_walk_pieces(t_up, 0);
    let t_fin = segment_walk(t_up, pieces);
    lemma_segment_walk_rate_limited(t_fin, b);
    lemma_segment_walk_single(t_fin, (SegmentEvent::Finalized { message_id }));
}

/// One completion report: which cluster finished and the remote message
/// id it produced.
pub open spec fn apply_completions(
    init: Seq<Option<String>>,
    done: Seq<(usize, String)>,
) -> Seq<Option<String>>
    decreases done.len(),
{
    if done.len() == 0 {
        init
    } else {
        apply_completions(init.update(done[0].0 as int, Some(done[0].1)), done.drop_first())
    }
}

/// No cluster reports twice.
pub open spec fn indices_distinct(done: Seq<(usize, String)>) -> bool {
    forall|k1: int, k2: int| #![trigger done[k1].0, done[k2].0]
        0 <= k1 < k2 < done.len() ==> done[k1].0 != done[k2].0
}

pub open spec fn has_index(done: Seq<(usize, String)>, i: int) -> bool {
    exists|k: int| 0 <= k < done.len() && (#[trigger] done[k]).0 == i
}

/// The id the first report for cluster `i` carries, if any.
pub open spec fn lookup(done: Seq<(usize, String)>, i: int) -> Option<String>
    decreases done.len(),
{
    if done.len() == 0 {
        None
    } else if done[0].0 == i {
        Some(done[0].1)
    } else {
        lookup(done.drop_first(), i)
    }
}

proof fn lemma_lookup_absent(done: Seq<(usize, String)>, i: int)
    requires
        !has_index(done, i),
    ensures
        lookup(done, i) is None,
    decreases done.len(),
{
    if done.len() > 0 {
        assert(done[0].0 != i);
        assert forall|k: int|
            0 <= k < done.drop_first().len() implies (#[trigger] done.drop_first()[k]).0 != i by {
            assert(done.drop_first()[k] == done[k + 1]);
        }
        lemma_lookup_absent(done.drop_first(), i);
    }
}

proof fn lemma_lookup_some_contains(done: Seq<(usize, String)>, i: int)
    requires
        lookup(done, i) is Some,
    ensures
        done.contains(((i as usize), lookup(done, i)->0)),
        i == i as usize as int,
        has_index(done, i),
    decreases done.len(),
{
    if done[0].0 == i {
        assert(done[0] == ((i as usize), lookup(done, i)->0));
    } else {
        lemma_lookup_some_contains(done.drop_first(), i);
        let rest = done.drop_first();
        let j = choose|j: int| 0 <= j < rest.len() && rest[j] == ((i as usize), lookup(done, i)->0);
        assert(done[j + 1] == ((i as usize), lookup(done, i)->0));
    }
}

proof fn lemma_contains_lookup(done: Seq<(usize, String)>, i: usize, s: String)
    requires
        indices_distinct(done),
        done.contains((i, s)),
    ensures
        lookup(done, i as int) == Some(s),
    decreases done.len(),
{
    let k = choose|k: int| 0 <= k < done.len() && done[k] == (i, s);
    assert(done[k].0 == i);
    if done[0].0 == i {
        if k != 0 {
            assert(done[0].0 != done[k].0);
        }
        assert(done[0] == (i, s));
    } else {
        assert(k > 0);
        let rest = done.drop_first();
        assert forall|k1: int, k2: int| #![trigger rest[k1].0, rest[k2].0]
            0 <= k1 < k2 < rest.len() implies rest[k1].0 != rest[k2].0 by {
            assert(rest[k1] == done[k1 + 1]);
            assert(rest[k2] == done[k2 + 1]);
            assert(done[k1 + 1].0 != done[k2 + 1].0);
        }
        assert(rest[k - 1] == (i, s));
        assert(rest.contains((i, s)));
        lemma_contains_lookup(rest, i, s);
    }
}

/// Slot by slot: after a run of distinct reports, slot `i` holds the id
/// cluster `i` reported, and untouched slots keep their initial value.
pub proof fn lemma_apply_completions_pointwise(
    init: Seq<Option<String>>,
    done: Seq<(usize, String)>,
)
    requires
        indices_distinct(done),
        forall|k: int| 0 <= k < done.len() ==> (#[trigger] done[k]).0 < init.len(),
    ensures
        apply_completions(init, done).len() == init.len(),
        forall|i: int|
            0 <= i < init.len() ==> #[trigger] apply_completions(init, done)[i] == (
            if lookup(done, i) is Some {
                lookup(done, i)
            } else {
                init[i]
            }),
    decreases done.len(),
{
    if done.len() > 0 {
        let d0 = done[0];
        let rest = done.drop_first();
        let init1 = init.update(d0.0 as int, Some(d0.1));
        assert forall|k1: int, k2: int| #![trigger rest[k1].0, rest[k2].0]
            0 <= k1 < k2 < rest.len() implies rest[k1].0 != rest[k2].0 by {
            assert(rest[k1] == done[k1 + 1]);
            assert(rest[k2] == done[k2 + 1]);
            assert(done[k1 + 1].0 != done[k2 + 1].0);
        }
        assert forall|k: int| 0 <= k < rest.len() implies (#[trigger] rest[k]).0 < init1.len() by {
            assert(rest[k] == done[k + 1]);
        }
        lemma_apply_completions_pointwise(init1, rest);
        assert forall|i: int| 0 <= i < init.len() implies #[trigger] apply_completions(init, done)[i]
            == (if lookup(done, i) is Some {
                lookup(done, i)
            } else {
                init[i]
            }) by {
            if i == d0.0 as int {
                assert forall|k: int| 0 <= k < rest.len() implies (#[trigger] rest[k]).0 != i by {
                    assert(rest[k] == done[k + 1]);
                    assert(done[0].0 != done[k + 1].0);
                }
                lemma_lookup_absent(rest, i);
            }
        }
    }
}

/// Reassembly is order-independent: two runs that deliver the same set of
/// per-cluster reports — in whatever order — leave identical id arrays, so
/// the committed order never depends on concurrency timing.
pub proof fn lemma_reassembly_order_independent(
    init: Seq<Option<String>>,
    d1: Seq<(usize, String)>,
    d2: Seq<(usize, String)>,
)
    requires
        indices_distinct(d1),
        indices_distinct(d2),
        d1.to_multiset() == d2.to_multiset(),
        forall|k: int| 0 <= k < d1.len() ==> (#[trigger] d1[k]).0 < init.len(),
    ensures
        apply_completions(init, d1) == apply_completions(init, d2),
{
    broadcast use vstd::seq_lib::group_to_multiset_ensures;

    assert forall|k: int| 0 <= k < d2.len() implies (#[trigger] d2[k]).0 < init.len() by {
        assert(d2.contains(d2[k]));
        assert(d2.to_multiset().count(d2[k]) > 0);
        assert(d1.contains(d2[k]));
        let j = choose|j: int| 0 <= j < d1.len() && d1[j] == d2[k];
        assert(d1[j].0 < init.len());
    }
    lemma_apply_completions_pointwise(init, d1);
    lemma_apply_completions_pointwise(init, d2);
    assert forall|i: int| 0 <= i < init.len() implies lookup(d1, i) == lookup(d2, i) by {
        if lookup(d1, i) is Some {
            lemma_lookup_some_contains(d1, i);
            let s = lookup(d1, i)->0;
            assert(d1.to_multiset().count(((i as usize), s)) > 0);
            assert(d2.contains(((i as usize), s)));
            lemma_contains_lookup(d2, i as usize, s);
        } else if lookup(d2, i) is Some {
            lemma_lookup_some_contains(d2, i);
            let s = lookup(d2, i)->0;
            assert(d2.to_multiset().count(((i as usize), s)) > 0);
            assert(d1.contains(((i as usize), s)));
            lemma_contains_lookup(d1, i as usize, s);
        }
    }
    assert(apply_completions(init, d1) =~= apply_completions(init, d2));
}

} // verus!
