use sge_native_ops::physics_support::{
    decode_handle, encode_handle, poll_pair_events, polyline_segments, triangles_from_indices,
};

#[test]
fn handle_encoding_puts_generation_high() {
    assert_eq!(encode_handle(5, 2), (2u64 << 32) | 5);
    assert_eq!(encode_handle(0, 0), 0);
    assert_eq!(encode_handle(u32::MAX, u32::MAX), u64::MAX);
}

#[test]
fn handle_decoding_splits_the_halves() {
    assert_eq!(decode_handle(0x0000_0003_0000_0009), (9, 3));
    assert_eq!(decode_handle(u64::MAX), (u32::MAX, u32::MAX));
}

#[test]
fn handle_round_trips() {
    for &(i, g) in &[(0u32, 0u32), (1, 0), (0, 1), (123_456, 789), (u32::MAX, 1)] {
        assert_eq!(decode_handle(encode_handle(i, g)), (i, g));
    }
    for &v in &[0u64, 1, 0xdead_beef_0000_0001, u64::MAX] {
        let (i, g) = decode_handle(v);
        assert_eq!(encode_handle(i, g), v);
    }
}

#[test]
fn poll_copies_at_most_max_events() {
    let events = vec![(1u64, 2u64), (3, 4), (5, 6)];
    let mut out1 = vec![0u64; 2];
    let mut out2 = vec![0u64; 2];
    let n = poll_pair_events(&events, &mut out1, &mut out2, 2);
    assert_eq!(n, 2);
    assert_eq!(out1, vec![1, 3]);
    assert_eq!(out2, vec![2, 4]);
}

#[test]
fn poll_copies_all_when_room_remains() {
    let events = vec![(10u64, 20u64)];
    let mut out1 = vec![9u64; 4];
    let mut out2 = vec![9u64; 4];
    let n = poll_pair_events(&events, &mut out1, &mut out2, 4);
    assert_eq!(n, 1);
    assert_eq!(out1, vec![10, 9, 9, 9]);
    assert_eq!(out2, vec![20, 9, 9, 9]);
}

#[test]
fn poll_with_no_room_copies_nothing() {
    let events = vec![(1u64, 2u64)];
    let mut out1: Vec<u64> = Vec::new();
    let mut out2: Vec<u64> = Vec::new();
    assert_eq!(poll_pair_events(&events, &mut out1, &mut out2, 0), 0);
}

#[test]
fn polyline_segments_join_consecutive_vertices() {
    assert_eq!(polyline_segments(4), vec![[0, 1], [1, 2], [2, 3]]);
    assert_eq!(polyline_segments(1), Vec::<[u32; 2]>::new());
}

#[test]
fn triangles_take_runs_of_three() {
    assert_eq!(triangles_from_indices(&[0, 1, 2, 2, 1, 3]), vec![[0, 1, 2], [2, 1, 3]]);
    assert_eq!(triangles_from_indices(&[4, 5, 6, 7]), vec![[4, 5, 6]]);
    assert_eq!(triangles_from_indices(&[]), Vec::<[u32; 3]>::new());
}
