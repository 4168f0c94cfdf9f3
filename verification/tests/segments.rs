use thunderspear::actions::{finalize_entries, preupload_pieces, UploadDetail};
use thunderspear::state::State;
use thunderspear::reader::Reader;
use thunderspear::upload::{SegmentStep, SegmentTask, Transfer};

fn slots(n: usize) -> Vec<UploadDetail> {
    (0..n)
        .map(|i| UploadDetail {
            upload_url: format!("https://store.example/slot/{}", i),
            upload_filename: format!("stored-{}", i),
        })
        .collect()
}

/// A remote that answers 429 with retry_after = 0.01 a fixed number of
/// times before each success.
struct FlakyRemote {
    rate_limits_left: u32,
}

impl FlakyRemote {
    fn negotiate(&mut self, pieces: usize) -> Result<Vec<UploadDetail>, f32> {
        if self.rate_limits_left > 0 {
            self.rate_limits_left -= 1;
            Err(0.01)
        } else {
            Ok(slots(pieces))
        }
    }

    fn finalize(&mut self, idx: usize) -> Result<String, f32> {
        if self.rate_limits_left > 0 {
            self.rate_limits_left -= 1;
            Err(0.01)
        } else {
            Ok(format!("msg-{}", idx))
        }
    }
}

/// Drives one segment task against a remote, sleeping on each rate-limit
/// signal exactly as the orchestrator does.
fn run_segment(task: &mut SegmentTask, remote: &mut FlakyRemote) -> String {
    loop {
        match task.step {
            SegmentStep::Negotiating => match remote.negotiate(task.pieces) {
                Ok(details) => {
                    assert_eq!(details.len(), task.pieces);
                    task.on_negotiated(details);
                }
                Err(_retry_after) => task.on_rate_limited(),
            },
            SegmentStep::Uploading { piece } => {
                assert!(piece < task.pieces);
                task.on_piece_uploaded();
            }
            SegmentStep::Finalizing => match remote.finalize(task.idx) {
                Ok(id) => task.on_finalized(id),
                Err(_retry_after) => task.on_rate_limited(),
            },
            SegmentStep::Done => return task.result.clone().unwrap(),
        }
    }
}

#[test]
fn rate_limited_retries_leave_the_task_where_it_stood() {
    let mut t = SegmentTask::new(0, 26_214_400, 1);
    assert_eq!(t.step, SegmentStep::Negotiating);
    t.on_rate_limited();
    t.on_rate_limited();
    assert_eq!(t.step, SegmentStep::Negotiating);
    assert!(t.result.is_none());
}

#[test]
fn segment_walks_negotiate_upload_finalize() {
    let mut t = SegmentTask::new(1, 78_643_200, 3);
    t.on_negotiated(slots(3));
    assert_eq!(t.step, SegmentStep::Uploading { piece: 0 });
    t.on_piece_uploaded();
    assert_eq!(t.step, SegmentStep::Uploading { piece: 1 });
    t.on_piece_uploaded();
    assert_eq!(t.step, SegmentStep::Uploading { piece: 2 });
    t.on_piece_uploaded();
    assert_eq!(t.step, SegmentStep::Finalizing);
    t.on_finalized("msg-1".to_string());
    assert_eq!(t.step, SegmentStep::Done);
    assert_eq!(t.result.as_deref(), Some("msg-1"));
}

#[test]
fn two_rate_limits_then_success_still_commits_in_order() {
    // The remote answers 429 (retry_after 0.01) exactly twice, then
    // succeeds; the upload still commits with correctly ordered ids.
    let mut state = State::default();
    state.upload(vec!["/tmp/big.bin".to_string()]);
    let file = state.upload_next();
    let reader = Reader::new(330_000_000);
    let mut transfer = Transfer::new(file.id, file.path, reader.size, reader.clusters);

    let mut remote = FlakyRemote { rate_limits_left: 2 };
    // Completion order 1 then 0; the remote stops rate-limiting after two
    // 429s in total.
    for idx in [1usize, 0usize] {
        let cluster = reader.next_cluster(idx).unwrap();
        let mut task = SegmentTask::new(idx, 0, cluster.slices);
        let id = run_segment(&mut task, &mut remote);
        transfer.segment_done(idx, id);
    }
    assert!(transfer.is_complete());
    let id = transfer.id;
    let path = transfer.path.clone();
    let ids = transfer.into_ids();
    state.commit(id, "big.bin".to_string(), path, 330_000_000, ids, 0);
    assert_eq!(state.root.len(), 1);
    assert_eq!(state.root[0].clusters, vec!["msg-0".to_string(), "msg-1".to_string()]);
}

#[test]
fn preupload_plans_one_entry_per_piece() {
    // Cluster 1 of the 330,000,000-byte file covers 67,856,000 bytes:
    // three pieces, the last one short.
    let plans = preupload_pieces(1, 67_856_000);
    assert_eq!(plans.len(), 3);
    assert_eq!(plans[0].filename, 10);
    assert_eq!(plans[0].file_size, 26_214_400);
    assert_eq!(plans[1].filename, 11);
    assert_eq!(plans[1].file_size, 26_214_400);
    assert_eq!(plans[2].filename, 12);
    assert_eq!(plans[2].file_size, 67_856_000 - 2 * 26_214_400);
    assert_eq!(plans.iter().map(|p| p.file_size).sum::<usize>(), 67_856_000);
}

#[test]
fn preupload_of_empty_cluster_is_empty() {
    let plans = preupload_pieces(0, 0);
    assert!(plans.is_empty());
}

#[test]
fn finalize_entries_number_pieces_from_the_cluster_offset() {
    let details = slots(2);
    let entries = finalize_entries(2, &details);
    assert_eq!(entries.len(), 2);
    assert_eq!(entries[0].filename, 20);
    assert_eq!(entries[0].uploaded_filename, "stored-0");
    assert_eq!(entries[0].id, 0);
    assert_eq!(entries[1].filename, 21);
    assert_eq!(entries[1].uploaded_filename, "stored-1");
    assert_eq!(entries[1].id, 1);
}

#[test]
fn transfer_slots_fill_independently_of_arrival() {
    let mut t = Transfer::new(7, "/tmp/x".to_string(), 600_000_000, 3);
    assert!(!t.is_complete());
    t.segment_done(2, "c".to_string());
    t.segment_done(0, "a".to_string());
    assert!(!t.is_complete());
    t.segment_done(1, "b".to_string());
    assert!(t.is_complete());
    assert_eq!(t.into_ids(), vec!["a".to_string(), "b".to_string(), "c".to_string()]);
}
