use tsplat::ansi::{push_decimal, push_signed_decimal, push_u8_decimal};
use tsplat::display::{
    Backend, CellSize, Display, KITTY_IMG_Z_UNDER_UI, KittyImage, base64_encode_into,
    render_kitty_frame,
};
use tsplat::framebuffer::render_halfblocks;

fn b64(data: &[u8]) -> String {
    let mut out = Vec::new();
    base64_encode_into(data, &mut out);
    String::from_utf8(out).unwrap()
}

#[test]
fn decimal_digits() {
    let mut buf = Vec::new();
    push_u8_decimal(&mut buf, 0);
    buf.push(b' ');
    push_u8_decimal(&mut buf, 7);
    buf.push(b' ');
    push_u8_decimal(&mut buf, 42);
    buf.push(b' ');
    push_u8_decimal(&mut buf, 255);
    buf.push(b' ');
    push_u8_decimal(&mut buf, 100);
    assert_eq!(buf, b"0 7 42 255 100".to_vec());
    let mut buf = Vec::new();
    push_decimal(&mut buf, u64::MAX);
    buf.push(b' ');
    push_signed_decimal(&mut buf, i64::MIN);
    buf.push(b' ');
    push_signed_decimal(&mut buf, -5);
    assert_eq!(buf, b"18446744073709551615 -9223372036854775808 -5".to_vec());
}

#[test]
fn base64_rfc4648_vectors() {
    assert_eq!(b64(b""), "");
    assert_eq!(b64(b"f"), "Zg==");
    assert_eq!(b64(b"fo"), "Zm8=");
    assert_eq!(b64(b"foo"), "Zm9v");
    assert_eq!(b64(b"foob"), "Zm9vYg==");
    assert_eq!(b64(b"fooba"), "Zm9vYmE=");
    assert_eq!(b64(b"foobar"), "Zm9vYmFy");
    assert_eq!(b64(&[0, 255, 128]), "AP+A");
}

#[test]
fn base64_appends() {
    let mut out = b"x=".to_vec();
    base64_encode_into(b"foo", &mut out);
    assert_eq!(out, b"x=Zm9v".to_vec());
}

#[test]
fn halfblock_frame_bytes() {
    let fb = [(255u8, 0u8, 7u8), (10u8, 20u8, 30u8)];
    let mut out = b"stale".to_vec();
    render_halfblocks(&fb, 1, 2, &mut out);
    let expected = "\x1b[H\x1b[38;2;255;0;7;48;2;10;20;30m\u{2580}\x1b[0m";
    assert_eq!(String::from_utf8(out).unwrap(), expected);
}

#[test]
fn halfblock_frame_never_clears() {
    let fb: Vec<(u8, u8, u8)> = (0..64u32).map(|i| (i as u8, 2, (i * 7) as u8)).collect();
    let mut out = Vec::new();
    render_halfblocks(&fb, 8, 8, &mut out);
    assert!(out.starts_with(b"\x1b[H"));
    assert!(!out.windows(4).any(|w| w == b"\x1b[2J"));
}

#[test]
fn halfblock_rows_are_separated() {
    let fb = [(1u8, 1u8, 1u8), (2u8, 2u8, 2u8), (3u8, 3u8, 3u8), (4u8, 4u8, 4u8), (9u8, 9u8, 9u8)];
    let mut out = Vec::new();
    render_halfblocks(&fb, 1, 5, &mut out);
    let expected = "\x1b[H\x1b[38;2;1;1;1;48;2;2;2;2m\u{2580}\x1b[0m\r\n\x1b[38;2;3;3;3;48;2;4;4;4m\u{2580}\x1b[0m";
    assert_eq!(String::from_utf8(out).unwrap(), expected);
}

#[test]
fn kitty_frame_single_chunk() {
    let img = KittyImage { width: 1, height: 1, cols: 80, rows: 24, id: 1000 };
    let mut out = Vec::new();
    render_kitty_frame(&[1, 2, 3], img, &mut out);
    let expected = format!(
        "\x1b[H\x1b_Ga=T,f=24,t=d,s=1,v=1,c=80,r=24,i=1000,p=1,q=2,C=1,z={},m=0;AQID\x1b\\",
        KITTY_IMG_Z_UNDER_UI
    );
    assert_eq!(String::from_utf8(out).unwrap(), expected);
}

#[test]
fn kitty_frame_is_chunked() {
    let rgb = vec![0u8; 3 * 1026];
    let img = KittyImage { width: 1026, height: 1, cols: 10, rows: 2, id: 7 };
    let mut out = Vec::new();
    render_kitty_frame(&rgb, img, &mut out);
    let s = String::from_utf8(out).unwrap();
    let head = format!(
        "\x1b[H\x1b_Ga=T,f=24,t=d,s=1026,v=1,c=10,r=2,i=7,p=1,q=2,C=1,z={},m=1;",
        KITTY_IMG_Z_UNDER_UI
    );
    assert!(s.starts_with(&head));
    let rest = &s[head.len()..];
    let first_payload = &rest[..4096];
    assert!(first_payload.bytes().all(|b| b == b'A'));
    let second = &rest[4096..];
    assert_eq!(second, "\x1b\\\x1b_Gm=0;AAAAAAAA\x1b\\");
}

#[test]
fn kitty_depth_is_below_text() {
    assert_eq!(KITTY_IMG_Z_UNDER_UI, -1_073_741_825);
    assert!(KITTY_IMG_Z_UNDER_UI < i32::MIN / 2);
}

#[test]
fn display_picks_backend_and_renders() {
    let mut d = Display::new(80, 24, false, CellSize::default());
    assert_eq!(d.backend, Backend::HalfBlock);
    assert_eq!(d.detected_backend, Backend::HalfBlock);
    assert_eq!(d.cell_size, CellSize { w: 1, h: 2 });
    assert_eq!(d.framebuffer_size((999, 999)), (80, 48));
    d.queue_text_clear();
    d.render(&[(1, 2, 3), (4, 5, 6)], 1, 2);
    assert_eq!(
        String::from_utf8(d.frame.clone()).unwrap(),
        "\x1b[2J\x1b[H\x1b[38;2;1;2;3;48;2;4;5;6m\u{2580}\x1b[0m"
    );
    d.render(&[(1, 2, 3), (4, 5, 6)], 1, 2);
    assert!(!d.frame.starts_with(b"\x1b[2J"));
    let mut out = Vec::new();
    d.kitty_cleanup_bytes(&mut out);
    assert!(out.is_empty());
}

#[test]
fn kitty_display() {
    let mut d = Display::new(10, 5, true, CellSize { w: 8, h: 16 });
    assert_eq!(d.backend, Backend::Kitty);
    assert_eq!(d.framebuffer_size((0, 37)), (1, 37));
    d.render(&[(1, 2, 3), (9, 9, 9)], 1, 1);
    let expected = format!(
        "\x1b[H\x1b_Ga=T,f=24,t=d,s=1,v=1,c=10,r=5,i=1000,p=1,q=2,C=1,z={},m=0;AQID\x1b\\",
        KITTY_IMG_Z_UNDER_UI
    );
    assert_eq!(String::from_utf8(d.frame.clone()).unwrap(), expected);
    let mut out = Vec::new();
    d.kitty_cleanup_bytes(&mut out);
    assert_eq!(out, b"\x1b_Ga=d,d=I,i=1000\x1b\\".to_vec());
    d.backend = Backend::HalfBlock;
    let mut out = Vec::new();
    d.kitty_cleanup_bytes(&mut out);
    assert_eq!(out, b"\x1b_Ga=d,d=I,i=1000\x1b\\".to_vec());
}

#[test]
fn resize_keeps_cell_size_without_report() {
    let mut d = Display::new(10, 5, true, CellSize { w: 8, h: 16 });
    d.resize(100, 50, None);
    assert_eq!((d.cols, d.rows), (100, 50));
    assert_eq!(d.cell_size, CellSize { w: 8, h: 16 });
    d.resize(100, 50, Some(CellSize { w: 9, h: 18 }));
    assert_eq!(d.cell_size, CellSize { w: 9, h: 18 });
}

fn b64_digit(c: u8) -> u32 {
    match c {
        b'A'..=b'Z' => (c - b'A') as u32,
        b'a'..=b'z' => (c - b'a') as u32 + 26,
        b'0'..=b'9' => (c - b'0') as u32 + 52,
        b'+' => 62,
        b'/' => 63,
        _ => panic!("not a base64 character"),
    }
}

fn b64_decode(text: &[u8]) -> Vec<u8> {
    let mut out = Vec::new();
    for group in text.chunks(4) {
        let pad = group.iter().filter(|&&c| c == b'=').count();
        let mut v: u32 = 0;
        for &c in group {
            v = (v << 6) | if c == b'=' { 0 } else { b64_digit(c) };
        }
        let bytes = [(v >> 16) as u8, (v >> 8) as u8, v as u8];
        out.extend_from_slice(&bytes[..3 - pad]);
    }
    out
}

#[test]
fn base64_decodes_back() {
    let data: Vec<u8> = (0..=255u8).chain(0..100u8).collect();
    for len in 0..data.len() {
        let text = b64(&data[..len]);
        assert_eq!(text.len(), (len + 2) / 3 * 4);
        assert_eq!(b64_decode(text.as_bytes()), data[..len].to_vec());
    }
}
