use thunderspear::reader::{Reader, BUFFER_SIZE, CLUSTER_CAP, CLUSTER_SIZE, SLICE_SIZE};

#[test]
fn constants_match_the_remote_contract() {
    assert_eq!(SLICE_SIZE, 26_214_400);
    assert_eq!(CLUSTER_CAP, 10);
    assert_eq!(CLUSTER_SIZE, 262_144_000);
    assert_eq!(BUFFER_SIZE, 4_194_304);
}

#[test]
fn one_piece_file_has_one_cluster() {
    // A file of exactly one piece: 1 slice, 1 cluster.
    let r = Reader::new(26_214_400);
    assert_eq!(r.slices, 1);
    assert_eq!(r.clusters, 1);
    let c = r.next_cluster(0).unwrap();
    assert_eq!(c.offset, 0);
    assert_eq!(c.slices, 1);
    assert!(r.next_cluster(1).is_none());
}

#[test]
fn thirteen_piece_file_has_two_clusters() {
    // 330,000,000 bytes is about 12.59 pieces: 13 slices, 2 clusters of
    // 10 and 3.
    let r = Reader::new(330_000_000);
    assert_eq!(r.slices, 13);
    assert_eq!(r.clusters, 2);
    let c0 = r.next_cluster(0).unwrap();
    assert_eq!(c0.offset, 0);
    assert_eq!(c0.slices, 10);
    let c1 = r.next_cluster(1).unwrap();
    assert_eq!(c1.offset, 262_144_000);
    assert_eq!(c1.slices, 3);
    assert!(r.next_cluster(2).is_none());
}

#[test]
fn empty_file_has_no_clusters() {
    let r = Reader::new(0);
    assert_eq!(r.slices, 0);
    assert_eq!(r.clusters, 0);
    assert!(r.next_cluster(0).is_none());
}

/// Pulls every read request of one slice to completion, handing back full
/// reads, and returns the bytes delivered.
fn drain_slice(mut s: thunderspear::reader::Slice) -> usize {
    let mut total = 0usize;
    while let Some((off, len)) = s.next_read() {
        assert_eq!(off, s.offset + s.read);
        assert!(len > 0 && len <= BUFFER_SIZE);
        s.advance(len);
        total += len;
    }
    total
}

#[test]
fn cluster_byte_ranges_partition_the_file() {
    // The union of all cluster ranges is [0, size), in order, and the
    // bytes pulled from each cluster's slices sum to its range length.
    let size = 330_000_000usize;
    let r = Reader::new(size);
    let mut next_start = 0usize;
    let mut total = 0usize;
    let mut idx = 0usize;
    while let Some(mut c) = r.next_cluster(idx) {
        assert_eq!(c.offset, next_start);
        let mut cluster_bytes = 0usize;
        let mut slice_start = c.offset;
        while let Some(s) = c.next_slice() {
            assert_eq!(s.offset, slice_start);
            let got = drain_slice(s);
            cluster_bytes += got;
            slice_start += SLICE_SIZE;
        }
        let expected = (size - c.offset).min(CLUSTER_SIZE);
        assert_eq!(cluster_bytes, expected);
        next_start = c.offset + expected;
        total += cluster_bytes;
        idx += 1;
    }
    assert_eq!(idx, r.clusters);
    assert_eq!(total, size);
}

#[test]
fn slice_reads_are_buffer_sized_and_exact() {
    // One full slice takes six 4 MiB reads plus a 1 MiB tail.
    let r = Reader::new(26_214_400);
    let mut c = r.next_cluster(0).unwrap();
    let mut s = c.next_slice().unwrap();
    let mut reads = Vec::new();
    while let Some((_, len)) = s.next_read() {
        reads.push(len);
        s.advance(len);
    }
    assert_eq!(reads.len(), 7);
    assert_eq!(reads[..6], [4_194_304; 6]);
    assert_eq!(reads[6], 26_214_400 - 6 * 4_194_304);
    assert_eq!(reads.iter().sum::<usize>(), 26_214_400);
}

#[test]
fn short_final_slice_stops_at_file_end() {
    // A 5-byte file: a single slice delivering exactly 5 bytes.
    let r = Reader::new(5);
    assert_eq!(r.slices, 1);
    let mut c = r.next_cluster(0).unwrap();
    let s = c.next_slice().unwrap();
    assert_eq!(drain_slice(s), 5);
    assert!(c.next_slice().is_none());
}

#[test]
fn slice_tolerates_short_reads() {
    // The consumer may report fewer bytes than requested; the slice keeps
    // asking until its capacity is reached.
    let r = Reader::new(100);
    let mut c = r.next_cluster(0).unwrap();
    let mut s = c.next_slice().unwrap();
    let mut total = 0usize;
    while let Some((off, len)) = s.next_read() {
        assert_eq!(off, total);
        let got = len.min(7);
        s.advance(got);
        total += got;
    }
    assert_eq!(total, 100);
}
