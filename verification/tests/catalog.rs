use thunderspear::state::{basename, State};
use thunderspear::reader::Reader;
use thunderspear::upload::Transfer;

fn fresh_state() -> State {
    let mut s = State::default();
    s.token = Some("example-token".to_string());
    s.channel = Some("123456".to_string());
    s
}

/// Runs one queued upload to completion: every cluster reports, in the
/// given order, and the record is committed.
fn finish_upload(state: &mut State, order: &[usize]) -> u32 {
    let file = state.upload_next();
    let reader = Reader::new(330_000_000);
    let mut t = Transfer::new(file.id, file.path, reader.size, reader.clusters);
    for &idx in order {
        t.segment_done(idx, format!("msg-{}", idx));
    }
    assert!(t.is_complete());
    let id = t.id;
    let name = basename(t.path.as_str());
    let path = t.path.clone();
    let ids = t.into_ids();
    state.commit(id, name, path, 330_000_000, ids, 1_700_000_000_000);
    id
}

#[test]
fn upload_assigns_fresh_ids_in_order() {
    let mut s = fresh_state();
    let queued = s.upload(vec!["/tmp/a.bin".to_string(), "/tmp/b.bin".to_string()]);
    assert_eq!(queued.len(), 2);
    assert_eq!(queued[0].id, 0);
    assert_eq!(queued[0].path, "/tmp/a.bin");
    assert_eq!(queued[1].id, 1);
    assert_eq!(queued[1].path, "/tmp/b.bin");
    assert_eq!(s.next_id, 2);
    assert_eq!(s.queue.len(), 2);
}

#[test]
fn commit_records_ids_in_file_offset_order() {
    let mut s = fresh_state();
    s.upload(vec!["/tmp/big.bin".to_string()]);
    finish_upload(&mut s, &[1, 0]);
    assert_eq!(s.root.len(), 1);
    let f = &s.root[0];
    assert_eq!(f.name, "big.bin");
    assert_eq!(f.path, "/tmp/big.bin");
    assert_eq!(f.size, 330_000_000);
    assert_eq!(f.clusters, vec!["msg-0".to_string(), "msg-1".to_string()]);
    assert!(s.uploading.is_none());
}

#[test]
fn reassembly_is_independent_of_completion_order() {
    // Whatever order the two clusters finish in, the committed id list is
    // the one of strict index order.
    let mut s1 = fresh_state();
    s1.upload(vec!["/tmp/big.bin".to_string()]);
    finish_upload(&mut s1, &[0, 1]);
    let mut s2 = fresh_state();
    s2.upload(vec!["/tmp/big.bin".to_string()]);
    finish_upload(&mut s2, &[1, 0]);
    assert_eq!(s1.root[0].clusters, s2.root[0].clusters);
    assert_eq!(s1.root[0].clusters, vec!["msg-0".to_string(), "msg-1".to_string()]);
}

#[test]
fn rename_changes_exactly_one_record() {
    let mut s = fresh_state();
    s.upload(vec!["/tmp/a.bin".to_string()]);
    finish_upload(&mut s, &[0, 1]);
    s.rename(0, "fresh-name".to_string());
    assert_eq!(s.root[0].name, "fresh-name");
    assert_eq!(s.root[0].path, "/tmp/a.bin");
}

#[test]
fn rename_of_missing_id_is_a_no_op() {
    let mut s = fresh_state();
    s.upload(vec!["/tmp/a.bin".to_string()]);
    finish_upload(&mut s, &[0, 1]);
    s.rename(999, "other".to_string());
    assert_eq!(s.root.len(), 1);
    assert_eq!(s.root[0].name, "a.bin");
}

#[test]
fn delete_of_missing_id_is_a_no_op() {
    let mut s = fresh_state();
    s.upload(vec!["/tmp/a.bin".to_string()]);
    finish_upload(&mut s, &[0, 1]);
    let aborted = s.delete(vec![999]);
    assert!(!aborted);
    assert_eq!(s.root.len(), 1);
    assert_eq!(s.queue.len(), 0);
}

#[test]
fn delete_twice_is_safe() {
    let mut s = fresh_state();
    s.upload(vec!["/tmp/a.bin".to_string(), "/tmp/b.bin".to_string()]);
    finish_upload(&mut s, &[0, 1]);
    assert_eq!(s.root.len(), 1);
    let first = s.delete(vec![0]);
    assert!(!first);
    assert_eq!(s.root.len(), 0);
    let second = s.delete(vec![0]);
    assert!(!second);
    assert_eq!(s.root.len(), 0);
    assert_eq!(s.queue.len(), 1);
    assert_eq!(s.queue[0].id, 1);
}

#[test]
fn deleting_the_active_upload_aborts_and_the_queue_proceeds() {
    // Two files queued; the first upload is cancelled mid-flight: no
    // record of it is committed and the second file goes through.
    let mut s = fresh_state();
    s.upload(vec!["/tmp/one.bin".to_string(), "/tmp/two.bin".to_string()]);
    let active = s.upload_next();
    assert_eq!(active.id, 0);
    assert_eq!(s.uploading, Some(0));
    let reader = Reader::new(330_000_000);
    let mut t = Transfer::new(active.id, active.path, reader.size, reader.clusters);
    t.segment_done(0, "msg-0".to_string());

    let aborted = s.delete(vec![0]);
    assert!(aborted);
    assert!(s.uploading.is_none());
    // The abandoned transfer is dropped without a commit.
    drop(t);

    assert_eq!(s.queue.len(), 1);
    finish_upload(&mut s, &[1, 0]);
    assert_eq!(s.root.len(), 1);
    assert_eq!(s.root[0].id, 1);
    assert_eq!(s.root[0].path, "/tmp/two.bin");
    assert!(s.uploading.is_none());
}

#[test]
fn next_id_is_monotonic_and_never_reused() {
    let mut s = fresh_state();
    assert_eq!(s.next_id(), 0);
    assert_eq!(s.next_id(), 1);
    s.delete(vec![0, 1]);
    assert_eq!(s.next_id(), 2);
}

#[test]
fn from_catalog_accepts_sound_documents_only() {
    let mut s = fresh_state();
    s.upload(vec!["/tmp/a.bin".to_string(), "/tmp/b.bin".to_string()]);
    finish_upload(&mut s, &[0, 1]);
    finish_upload(&mut s, &[1, 0]);

    let loaded = State::from_catalog(s.token.clone(), s.channel.clone(), s.next_id, s.root).unwrap();
    assert_eq!(loaded.root.len(), 2);
    assert_eq!(loaded.next_id, 2);
    assert!(loaded.queue.is_empty());
    assert!(loaded.uploading.is_none());

    // An id at or above next_id is refused.
    assert!(State::from_catalog(None, None, 1, loaded.root).is_none());

    // Duplicate ids are refused.
    let mut t = fresh_state();
    t.upload(vec!["/tmp/a.bin".to_string()]);
    finish_upload(&mut t, &[0, 1]);
    let mut dup = Vec::new();
    for f in &t.root {
        dup.push(thunderspear::state::File {
            id: f.id,
            name: f.name.clone(),
            path: f.path.clone(),
            size: f.size,
            clusters: f.clusters.clone(),
            created_at: f.created_at,
        });
    }
    dup.push(thunderspear::state::File {
        id: 0,
        name: "twin".to_string(),
        path: "/tmp/twin".to_string(),
        size: 1,
        clusters: Vec::new(),
        created_at: 0,
    });
    assert!(State::from_catalog(None, None, 5, dup).is_none());
}

#[test]
fn basename_takes_what_follows_the_last_slash() {
    assert_eq!(basename("/home/user/file.bin"), "file.bin");
    assert_eq!(basename("file.bin"), "file.bin");
    assert_eq!(basename("/trailing/"), "");
    assert_eq!(basename(""), "");
    assert_eq!(basename("a/b/c"), "c");
}
