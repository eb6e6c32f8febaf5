use sge_native_ops::buffer_ops::{copy_bytes, find_vertex, find_vertex_in_bounds};

/// The bit patterns of single-precision components, as the search takes them.
fn bits(v: &[f32]) -> Vec<u32> {
    v.iter().map(|x| x.to_bits()).collect()
}

#[test]
fn copy_bytes_round_trip() {
    let src: Vec<u8> = (0..32).collect();
    let mut dst = vec![0u8; 32];
    copy_bytes(&src, 4, &mut dst, 8, 16);
    assert_eq!(&dst[8..24], &src[4..20]);
    // Untouched regions remain zero
    assert_eq!(&dst[0..8], &[0u8; 8]);
    assert_eq!(&dst[24..32], &[0u8; 8]);
}

#[test]
fn copy_bytes_full_slice() {
    let src = vec![0xAA_u8; 64];
    let mut dst = vec![0u8; 64];
    copy_bytes(&src, 0, &mut dst, 0, 64);
    assert_eq!(src, dst);
}

#[test]
fn copy_bytes_zero_length() {
    let src = vec![1u8, 2, 3];
    let mut dst = vec![0u8; 3];
    copy_bytes(&src, 1, &mut dst, 1, 0);
    assert_eq!(dst, vec![0, 0, 0]);
}

#[test]
fn copy_bytes_basic_no_offset() {
    let src = vec![10u8, 20, 30, 40, 50];
    let mut dst = vec![0u8; 5];
    copy_bytes(&src, 0, &mut dst, 0, 3);
    assert_eq!(&dst[..3], &[10, 20, 30]);
    assert_eq!(&dst[3..], &[0, 0]); // untouched
}

#[test]
fn copy_bytes_with_both_offsets() {
    let src = vec![0u8, 0, 100, 101, 102, 0];
    let mut dst = vec![0u8; 6];
    copy_bytes(&src, 2, &mut dst, 3, 3);
    assert_eq!(dst, vec![0, 0, 0, 100, 101, 102]);
}

#[test]
fn copy_bytes_keeps_bytes_outside_the_range() {
    let src = vec![7u8; 4];
    let mut dst = vec![1u8, 2, 3, 4, 5, 6];
    copy_bytes(&src, 1, &mut dst, 2, 2);
    assert_eq!(dst, vec![1, 2, 7, 7, 5, 6]);
}

#[test]
fn find_vertex_found() {
    let vertices: Vec<f32> = vec![
        1.0, 2.0, 3.0, // vertex 0
        4.0, 5.0, 6.0, // vertex 1
        7.0, 8.0, 9.0, // vertex 2
    ];
    let needle = vec![4.0, 5.0, 6.0];
    assert_eq!(find_vertex(&bits(&needle), 3, &bits(&vertices), 3), 1);
}

#[test]
fn find_vertex_not_found() {
    let vertices: Vec<f32> = vec![1.0, 2.0, 3.0, 4.0, 5.0, 6.0];
    let needle = vec![7.0, 8.0, 9.0];
    assert_eq!(find_vertex(&bits(&needle), 3, &bits(&vertices), 2), -1);
}

#[test]
fn find_vertex_first_match() {
    let vertices: Vec<f32> = vec![
        1.0, 2.0, // vertex 0
        1.0, 2.0, // vertex 1 (duplicate)
    ];
    let needle = vec![1.0, 2.0];
    assert_eq!(find_vertex(&bits(&needle), 2, &bits(&vertices), 2), 0);
}

#[test]
fn find_vertex_positive_negative_zero() {
    // +0.0 and -0.0 have different bit patterns but are equal by value.
    let vertices: Vec<f32> = vec![0.0_f32, 1.0];
    let needle = vec![-0.0_f32, 1.0];
    assert_eq!(find_vertex(&bits(&needle), 2, &bits(&vertices), 1), 0);
}

#[test]
fn find_vertex_zero_count() {
    let vertices: Vec<f32> = vec![];
    let needle = vec![1.0];
    assert_eq!(find_vertex(&bits(&needle), 1, &bits(&vertices), 0), -1);
}

#[test]
fn find_vertex_first_position() {
    let vertices: Vec<f32> = vec![
        10.0, 20.0, 30.0, // vertex 0
        40.0, 50.0, 60.0, // vertex 1
        70.0, 80.0, 90.0, // vertex 2
    ];
    let needle = vec![10.0, 20.0, 30.0];
    assert_eq!(find_vertex(&bits(&needle), 3, &bits(&vertices), 3), 0);
}

#[test]
fn find_vertex_middle_position() {
    let vertices: Vec<f32> = vec![
        1.0, 2.0, // vertex 0
        3.0, 4.0, // vertex 1
        5.0, 6.0, // vertex 2
        7.0, 8.0, // vertex 3
        9.0, 10.0, // vertex 4
    ];
    let needle = vec![5.0, 6.0];
    assert_eq!(find_vertex(&bits(&needle), 2, &bits(&vertices), 5), 2);
}

#[test]
fn find_vertex_no_match_returns_minus_one() {
    let vertices: Vec<f32> = vec![1.0, 1.0, 2.0, 2.0, 3.0, 3.0];
    let needle = vec![4.0, 4.0];
    assert_eq!(find_vertex(&bits(&needle), 2, &bits(&vertices), 3), -1);
}

#[test]
fn find_vertex_nan_matches_only_its_own_bits() {
    let nan = f32::NAN;
    let other_nan = f32::from_bits(nan.to_bits() | 1);
    let vertices: Vec<f32> = vec![other_nan, 1.0, nan, 1.0];
    let needle = vec![nan, 1.0];
    assert_eq!(find_vertex(&bits(&needle), 2, &bits(&vertices), 2), 1);
}

#[test]
fn find_vertex_with_stride_skips_extra_components() {
    // Vertices of two components stored four apart.
    let vertices: Vec<f32> = vec![1.0, 2.0, 9.0, 9.0, 3.0, 4.0, 9.0, 9.0, 5.0, 6.0];
    let needle = vec![5.0, 6.0];
    assert_eq!(find_vertex(&bits(&needle), 4, &bits(&vertices), 3), 2);
    let needle = vec![9.0, 9.0];
    assert_eq!(find_vertex(&bits(&needle), 4, &bits(&vertices), 3), -1);
}

#[test]
fn find_vertex_stops_at_the_first_match_before_the_array_ends() {
    // Five vertices are named but only the first fits; it matches.
    let vertices: Vec<f32> = vec![1.0, 2.0, 3.0];
    let needle = vec![1.0, 2.0];
    assert_eq!(find_vertex(&bits(&needle), 2, &bits(&vertices), 5), 0);
}

#[test]
fn find_vertex_in_bounds_reports_a_search_past_the_end() {
    let vertices: Vec<f32> = vec![1.0, 2.0, 3.0, 4.0, 5.0];
    let needle = vec![3.0, 4.0];
    // Vertex 1 (components 2..4) fits and matches before the array ends.
    assert_eq!(find_vertex_in_bounds(&bits(&needle), 2, &bits(&vertices), 5), Some(1));
    // No match among the fitting vertices: the search would run past the end.
    let missing = vec![9.0, 9.0];
    assert_eq!(find_vertex_in_bounds(&bits(&missing), 2, &bits(&vertices), 5), None);
    // All vertices fit and none matches.
    assert_eq!(find_vertex_in_bounds(&bits(&missing), 2, &bits(&vertices), 2), Some(-1));
}

#[test]
fn find_vertex_accepts_any_count() {
    // An empty vertex matches the first of any number of vertices.
    assert_eq!(find_vertex(&[], 0, &[], usize::MAX), 0);
    assert_eq!(find_vertex_in_bounds(&[], 0, &[], usize::MAX), Some(0));
}
