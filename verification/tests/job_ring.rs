use orchestration::job_ring::{JobRing, RingSlice, RingStats};


#[test]
fn push_and_read_round_trip_keeps_absolute_offsets() {
    let mut ring = JobRing::new(64);
    assert_eq!(ring.push(b"abc"), 0);
    assert_eq!(ring.push(b"de"), 3);
    assert_eq!(ring.end_offset(), 5);
    assert_eq!(ring.read_at(0).bytes, b"abcde");
}


#[test]
fn over_capacity_drops_only_the_oldest_whole_chunk_needed() {
    let mut ring = JobRing::new(4);
    assert_eq!(ring.push(b"abc"), 0);
    assert_eq!(ring.push(b"de"), 3);
    assert_eq!(
        ring.stats(),
        RingStats {
            base_offset: 3,
            end_offset: 5,
            consumer_cursor: 0,
            retained_bytes: 2,
            lossy: true,
            omitted_chunks: 1,
            omitted_bytes: 3,
        }
    );
    assert_eq!(ring.read_at(0), RingSlice { start: 3, bytes: b"de".to_vec(), omitted_before: true });
}

#[test]
fn a_single_chunk_over_capacity_keeps_its_newest_bytes() {
    let mut ring = JobRing::new(4);
    assert_eq!(ring.push(b"abcdefg"), 0);
    let stats = ring.stats();
    assert_eq!(stats.base_offset, 3);
    assert_eq!(stats.omitted_chunks, 0);
    assert_eq!(stats.omitted_bytes, 3);
    assert_eq!(ring.read_at(0).bytes, b"defg".to_vec());
    assert_eq!(ring.chunk_count(), 1);
}

#[test]
fn a_zero_capacity_ring_keeps_nothing() {
    let mut ring = JobRing::new(0);
    assert_eq!(ring.push(b"ab"), 0);
    assert_eq!(ring.push(b"c"), 2);
    let stats = ring.stats();
    assert_eq!(stats.base_offset, 3);
    assert_eq!(stats.retained_bytes, 0);
    assert_eq!(stats.omitted_chunks, 0);
    assert_eq!(ring.chunk_count(), 0);
}
