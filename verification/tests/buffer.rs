use cowconnect::audio_buffer::AudioBuffer;

#[test]
fn reordered_chunks_drain_in_sequence_order() {
    let mut buf = AudioBuffer::new();
    buf.submit(2, vec![2]);
    buf.submit(0, vec![0]);
    buf.submit(1, vec![1]);
    assert_eq!(buf.next_sample(), Some(0));
    assert_eq!(buf.next_sample(), Some(1));
    assert_eq!(buf.next_sample(), Some(2));
    assert_eq!(buf.next_sample(), None);
}

#[test]
fn unwrapped_keys_increase_across_wraparound() {
    let mut buf = AudioBuffer::new();
    let mut prev: i64 = -1;
    // Raw sequences 0, 1, ..., 65535, 0, 1, 2: one full trip and past the
    // wrap boundary.
    for k in 0..65539u32 {
        let raw = (k % 65536) as u16;
        let key = buf.unwrap_raw(raw);
        assert!(key > prev, "key {key} did not pass {prev} at step {k}");
        assert_eq!(key, k as i64);
        buf.submit(raw, vec![]);
        prev = key;
    }
}

#[test]
fn sequence_far_behind_the_reference_unwraps_backwards() {
    let buf = AudioBuffer::new();
    // More than half a period ahead of reference 0 on the wire means one
    // period back in unwrapped space.
    assert_eq!(buf.unwrap_raw(65530), 65530 - 65536);
    // Within half a period: stays in the reference's own period.
    assert_eq!(buf.unwrap_raw(100), 100);
}

#[test]
fn exhausted_buffer_keeps_returning_nothing() {
    let mut buf = AudioBuffer::new();
    buf.submit(0, vec![7, 8]);
    assert_eq!(buf.next_sample(), Some(7));
    assert_eq!(buf.next_sample(), Some(8));
    for _ in 0..10 {
        assert_eq!(buf.next_sample(), None);
    }
    buf.submit(1, vec![9]);
    assert_eq!(buf.next_sample(), Some(9));
    assert_eq!(buf.next_sample(), None);
}

#[test]
fn duplicate_sequence_keeps_last_chunk() {
    let mut buf = AudioBuffer::new();
    buf.submit(5, vec![1, 1]);
    buf.submit(5, vec![2]);
    assert_eq!(buf.available_samples(), 1);
    assert_eq!(buf.next_sample(), Some(2));
    assert_eq!(buf.next_sample(), None);
}

#[test]
fn available_samples_counts_unopened_chunks_only() {
    let mut buf = AudioBuffer::new();
    buf.submit(0, vec![1, 2]);
    buf.submit(1, vec![3]);
    assert_eq!(buf.available_samples(), 3);
    // Opening the first chunk moves it out of the pending count.
    assert_eq!(buf.next_sample(), Some(1));
    assert_eq!(buf.available_samples(), 1);
}

#[test]
fn empty_chunks_are_skipped() {
    let mut buf = AudioBuffer::new();
    buf.submit(0, vec![]);
    buf.submit(1, vec![4]);
    assert_eq!(buf.next_sample(), Some(4));
    assert_eq!(buf.next_sample(), None);
}

#[test]
fn clear_resets_sequence_reference_and_audio() {
    let mut buf = AudioBuffer::new();
    buf.submit(16000, vec![1, 2, 3]);
    buf.submit(32000, vec![4]);
    // With the reference at 32000, a raw 0 looks like it wrapped forward.
    assert_eq!(buf.unwrap_raw(0), 65536);
    buf.clear();
    // After a reset the stale reference no longer distorts a new session.
    assert_eq!(buf.next_sample(), None);
    assert_eq!(buf.available_samples(), 0);
    assert_eq!(buf.unwrap_raw(0), 0);
}

#[test]
fn default_is_a_fresh_buffer() {
    let mut buf = AudioBuffer::default();
    assert_eq!(buf.available_samples(), 0);
    assert_eq!(buf.next_sample(), None);
}
