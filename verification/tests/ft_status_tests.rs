use sge_native_ops::ft_status::{glyph_copy_len, FtErrorState};

#[test]
fn new_state_reports_no_error() {
    let s = FtErrorState::new();
    assert_eq!(s.last_error_code(), 0);
}

#[test]
fn ft_ok_accepts_zero_and_records_it() {
    let mut s = FtErrorState::new();
    s.set_error(7);
    assert!(s.ft_ok(0));
    assert_eq!(s.last_error_code(), 0);
}

#[test]
fn ft_ok_refuses_an_error_code_and_records_it() {
    let mut s = FtErrorState::new();
    // FT_Err_Unknown_File_Format
    assert!(!s.ft_ok(2));
    assert_eq!(s.last_error_code(), 2);
    assert!(!s.ft_ok(-1));
    assert_eq!(s.last_error_code(), -1);
}

#[test]
fn set_error_overwrites_the_last_code() {
    let mut s = FtErrorState::new();
    s.set_error(3);
    s.set_error(5);
    assert_eq!(s.last_error_code(), 5);
}

#[test]
fn glyph_copy_len_is_the_smaller_size() {
    assert_eq!(glyph_copy_len(10, 12, 1000), 120);
    assert_eq!(glyph_copy_len(10, 12, 100), 100);
    assert_eq!(glyph_copy_len(0, 12, 100), 0);
    assert_eq!(glyph_copy_len(3, 4, 12), 12);
}
