use tsplat::display::{
    Backend, CellSize, cell_size_from_window, contains_da1_response, contains_kitty_ok,
    contains_subseq, kitty_probe_verdict, parse_cell_size_response, parse_u32,
};

#[test]
fn backend_names() {
    assert_eq!(Backend::HalfBlock.name(), "halfblock");
    assert_eq!(Backend::Kitty.name(), "kitty");
}

#[test]
fn subsequence_search() {
    assert!(contains_subseq(b"abcdef", b"cde"));
    assert!(!contains_subseq(b"abcdef", b"ced"));
    assert!(!contains_subseq(b"ab", b"abc"));
}

#[test]
fn kitty_ok_replies() {
    assert!(contains_kitty_ok(b"\x1b_Gi=31;OK\x1b\\"));
    assert!(contains_kitty_ok(b"\x1b_Gi=31;OK\x9c"));
    assert!(contains_kitty_ok(b"junk i=31;OK junk"));
    assert!(!contains_kitty_ok(b"\x1b_Gi=31;ENOENT\x1b\\"));
    assert!(!contains_kitty_ok(b""));
}

#[test]
fn device_attribute_replies() {
    assert!(contains_da1_response(b"\x1b[?62;22c"));
    assert!(contains_da1_response(b"xx\x1b[?1;2c"));
    assert!(!contains_da1_response(b"\x1b[?62;22"));
    assert!(!contains_da1_response(b"\x1b[62c"));
    assert!(contains_da1_response(b"\x1b[?c"));
    assert!(!contains_da1_response(b"\x1b[?"));
}

#[test]
fn probe_verdicts() {
    assert_eq!(kitty_probe_verdict(b"\x1b_Gi=31;OK\x1b\\\x1b[?62c"), Some(true));
    assert_eq!(kitty_probe_verdict(b"\x1b[?62;22c"), Some(false));
    assert_eq!(kitty_probe_verdict(b"\x1b[?62"), None);
}

#[test]
fn cell_size_reply() {
    assert_eq!(parse_cell_size_response(b"\x1b[6;16;8t"), Some(CellSize { w: 8, h: 16 }));
    assert_eq!(parse_cell_size_response(b"noise\x1b[6;20;10t\x1b[?62c"), Some(CellSize { w: 10, h: 20 }));
    assert_eq!(parse_cell_size_response(b"\x1b[6;0;8t"), None);
    assert_eq!(parse_cell_size_response(b"\x1b[6;16t"), None);
    assert_eq!(parse_cell_size_response(b"\x1b[6;16;8"), None);
    assert_eq!(parse_cell_size_response(b"\x1b[6;x;8t"), None);
    assert_eq!(parse_cell_size_response(b"\x1b[6;0;8t\x1b[6;16;8t"), Some(CellSize { w: 8, h: 16 }));
}

#[test]
fn decimal_fields() {
    assert_eq!(parse_u32(b"4294967295"), Some(u32::MAX));
    assert_eq!(parse_u32(b"4294967296"), None);
    assert_eq!(parse_u32(b"+12"), Some(12));
    assert_eq!(parse_u32(b""), None);
    assert_eq!(parse_u32(b"-1"), None);
}

#[test]
fn cell_size_from_window_geometry() {
    assert_eq!(cell_size_from_window(1600, 960, 200, 60), Some(CellSize { w: 8, h: 16 }));
    assert_eq!(cell_size_from_window(0, 960, 200, 60), None);
    assert_eq!(cell_size_from_window(1600, 960, 200, 0), None);
}

#[test]
fn cell_size_reply_must_be_utf8() {
    assert_eq!(parse_cell_size_response(b"\x1b[6;16;8;\xfft"), None);
    assert_eq!(parse_cell_size_response(b"\x1b[6;16;8;\xc3\xa9t"), Some(CellSize { w: 8, h: 16 }));
}
