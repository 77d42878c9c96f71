use tsplat::display::{Backend, CellSize};
use tsplat::hud::{
    DisplayInfo, HUD_ITEM_COUNT, HudAction, HudItem, HudState, KeyInput, item_at, key_direction,
    write_fps_overlay, write_hud_line,
};

fn hud(max: usize, total: usize) -> HudState {
    HudState::new(max, total, true, Backend::HalfBlock, Backend::HalfBlock)
}

fn focus(h: &mut HudState, item: HudItem) {
    while h.focused_item() != item {
        h.handle_key(KeyInput::Down, 16);
    }
}

#[test]
fn new_clamps_the_cap_to_the_scene() {
    assert_eq!(hud(0, 5000).max_splats, 5000);
    assert_eq!(hud(200_000, 5000).max_splats, 5000);
    assert_eq!(hud(3000, 5000).max_splats, 3000);
    let h = hud(3000, 5000);
    assert!(!h.visible);
    assert_eq!(h.cursor(), 0);
    assert_eq!(h.num_threads, 4);
    assert_eq!(h.focused_item(), HudItem::MaxSplats);
}

#[test]
fn toggle_twice_restores_visibility() {
    let mut h = hud(0, 10);
    h.toggle();
    assert!(h.visible);
    h.toggle();
    assert!(!h.visible);
}

#[test]
fn cursor_wraps_both_ways() {
    let mut h = hud(0, 10);
    assert_eq!(h.handle_key(KeyInput::Up, 16), HudAction::NoChange);
    assert_eq!(h.cursor(), HUD_ITEM_COUNT - 1);
    assert_eq!(h.focused_item(), HudItem::Saturation);
    h.handle_key(KeyInput::PageDown, 16);
    assert_eq!(h.cursor(), 0);
    for _ in 0..HUD_ITEM_COUNT {
        h.handle_key(KeyInput::Down, 16);
    }
    assert_eq!(h.cursor(), 0);
    h.handle_key(KeyInput::Down, 16);
    h.handle_key(KeyInput::PageUp, 16);
    assert_eq!(h.cursor(), 0);
}

#[test]
fn list_order() {
    let order = [
        HudItem::MaxSplats,
        HudItem::Sigmoid,
        HudItem::RenderBackend,
        HudItem::PixelDensity,
        HudItem::NumThreads,
        HudItem::FovY,
        HudItem::TranslateSpeed,
        HudItem::RotationSpeed,
        HudItem::ZoomStep,
        HudItem::Eps2d,
        HudItem::AlphaThreshold,
        HudItem::ExtendSigma,
        HudItem::Saturation,
    ];
    for (i, it) in order.iter().enumerate() {
        assert_eq!(item_at(i), *it);
    }
}

#[test]
fn key_directions() {
    assert_eq!(key_direction(KeyInput::Left), -1);
    assert_eq!(key_direction(KeyInput::Char(',')), -1);
    assert_eq!(key_direction(KeyInput::Char('<')), -1);
    assert_eq!(key_direction(KeyInput::Right), 1);
    assert_eq!(key_direction(KeyInput::Char('.')), 1);
    assert_eq!(key_direction(KeyInput::Char('>')), 1);
    assert_eq!(key_direction(KeyInput::Char('x')), 0);
    assert_eq!(key_direction(KeyInput::Up), 0);
}

#[test]
fn max_splats_doubles_then_snaps_to_the_scene() {
    let mut h = hud(200_000, 1_000_000);
    assert_eq!(h.handle_key(KeyInput::Right, 16), HudAction::ReloadSplats);
    assert_eq!(h.max_splats, 400_000);
    h.handle_key(KeyInput::Char('.'), 16);
    assert_eq!(h.max_splats, 800_000);
    assert_eq!(h.handle_key(KeyInput::Right, 16), HudAction::ReloadSplats);
    assert_eq!(h.max_splats, 1_000_000);
    assert_eq!(h.handle_key(KeyInput::Right, 16), HudAction::NoChange);
    assert_eq!(h.max_splats, 1_000_000);
    assert_eq!(h.handle_key(KeyInput::Left, 16), HudAction::ReloadSplats);
    assert_eq!(h.max_splats, 500_000);
}

#[test]
fn max_splats_floor_and_small_scenes() {
    let mut h = hud(1500, 100_000);
    h.handle_key(KeyInput::Left, 16);
    assert_eq!(h.max_splats, 1000);
    assert_eq!(h.handle_key(KeyInput::Left, 16), HudAction::NoChange);
    let mut small = hud(0, 500);
    assert_eq!(small.max_splats, 500);
    assert_eq!(small.handle_key(KeyInput::Right, 16), HudAction::ReloadSplats);
    assert_eq!(small.max_splats, 1000);
    assert_eq!(small.handle_key(KeyInput::Right, 16), HudAction::NoChange);
    let mut huge = hud(usize::MAX - 1, usize::MAX);
    huge.handle_key(KeyInput::Right, 16);
    assert_eq!(huge.max_splats, usize::MAX);
}

#[test]
fn sigmoid_toggles_and_reloads() {
    let mut h = hud(0, 10);
    focus(&mut h, HudItem::Sigmoid);
    assert_eq!(h.handle_key(KeyInput::Left, 16), HudAction::ReloadSplats);
    assert!(!h.apply_sigmoid);
    assert_eq!(h.handle_key(KeyInput::Left, 16), HudAction::ReloadSplats);
    assert!(h.apply_sigmoid);
}

#[test]
fn backend_switch_needs_kitty() {
    let mut h = hud(0, 10);
    focus(&mut h, HudItem::RenderBackend);
    assert_eq!(h.handle_key(KeyInput::Right, 16), HudAction::BackendChanged);
    assert_eq!(h.backend, Backend::HalfBlock);
    let mut k = HudState::new(0, 10, true, Backend::Kitty, Backend::Kitty);
    focus(&mut k, HudItem::RenderBackend);
    k.handle_key(KeyInput::Right, 16);
    assert_eq!(k.backend, Backend::HalfBlock);
    k.handle_key(KeyInput::Left, 16);
    assert_eq!(k.backend, Backend::Kitty);
}

#[test]
fn thread_count_steps() {
    let mut h = hud(0, 10);
    focus(&mut h, HudItem::NumThreads);
    assert_eq!(h.handle_key(KeyInput::Right, 5), HudAction::ValueChanged);
    assert_eq!(h.num_threads, 5);
    h.handle_key(KeyInput::Right, 5);
    assert_eq!(h.num_threads, 5);
    for _ in 0..7 {
        h.handle_key(KeyInput::Left, 5);
    }
    assert_eq!(h.num_threads, 0);
}

#[test]
fn real_valued_items_report_their_action() {
    let mut h = hud(0, 10);
    focus(&mut h, HudItem::PixelDensity);
    assert_eq!(h.handle_key(KeyInput::Right, 16), HudAction::DensityChanged);
    h.handle_key(KeyInput::Down, 16);
    h.handle_key(KeyInput::Down, 16);
    assert_eq!(h.focused_item(), HudItem::FovY);
    assert_eq!(h.handle_key(KeyInput::Right, 16), HudAction::ValueChanged);
    assert_eq!(h.handle_key(KeyInput::Char('x'), 16), HudAction::NoChange);
    assert_eq!(h.handle_key(KeyInput::Tab, 16), HudAction::NoChange);
    assert_eq!(h.focused_item(), HudItem::FovY);
}

fn text(v: Option<Vec<u8>>) -> Option<String> {
    v.map(|b| String::from_utf8(b).unwrap())
}

#[test]
fn value_texts() {
    let h = hud(200_000, 1_000_000);
    assert_eq!(text(h.format_value(HudItem::MaxSplats, b"0.2")), Some("200k".into()));
    let all = hud(0, 1_500_000);
    assert_eq!(text(all.format_value(HudItem::MaxSplats, b"1.5")), Some("all/1.5M".into()));
    let small = hud(0, 3_000);
    assert_eq!(text(small.format_value(HudItem::MaxSplats, b"0.0")), Some("all/3k".into()));
    assert_eq!(text(h.format_value(HudItem::Sigmoid, b"")), Some("ON".into()));
    let mut t = hud(0, 10);
    t.num_threads = 0;
    t.apply_sigmoid = false;
    assert_eq!(text(t.format_value(HudItem::NumThreads, b"")), Some("all".into()));
    assert_eq!(text(t.format_value(HudItem::Sigmoid, b"")), Some("OFF".into()));
    assert_eq!(text(h.format_value(HudItem::NumThreads, b"")), Some("4".into()));
    assert_eq!(text(h.format_value(HudItem::RenderBackend, b"")), Some("halfblock (only)".into()));
    assert_eq!(text(h.format_value(HudItem::PixelDensity, b"")), Some("n/a".into()));
    assert_eq!(text(h.format_value(HudItem::FovY, b"")), None);
    let k = HudState::new(0, 10, true, Backend::Kitty, Backend::Kitty);
    assert_eq!(text(k.format_value(HudItem::RenderBackend, b"")), Some("kitty".into()));
    assert_eq!(text(k.format_value(HudItem::PixelDensity, b"")), None);
}

#[test]
fn hud_lines_are_fitted_to_the_panel() {
    let mut out = Vec::new();
    write_hud_line(&mut out, 3, "\x1b[97;40m", "abc");
    let expected = format!("\x1b[3;1H\x1b[97;40mabc{}\x1b[0m", " ".repeat(29));
    assert_eq!(String::from_utf8(out).unwrap(), expected);
    let mut out = Vec::new();
    write_hud_line(&mut out, 12, "", &"x".repeat(40));
    let expected = format!("\x1b[12;1H{}\x1b[0m", "x".repeat(32));
    assert_eq!(String::from_utf8(out).unwrap(), expected);
    let mut out = Vec::new();
    write_hud_line(&mut out, 7, "", "h\u{e9}llo");
    let expected = format!("\x1b[7;1Hh\u{e9}llo{}\x1b[0m", " ".repeat(27));
    assert_eq!(String::from_utf8(out).unwrap(), expected);
}

fn info() -> DisplayInfo {
    DisplayInfo {
        fb_w: 160,
        fb_h: 96,
        cell_size: CellSize { w: 8, h: 16 },
        cols: 160,
        rows: 48,
        detected_backend: Backend::HalfBlock,
    }
}

fn values() -> Vec<Vec<u8>> {
    (0..HUD_ITEM_COUNT).map(|_| b"1.00".to_vec()).collect()
}

#[test]
fn hidden_hud_draws_nothing() {
    let h = hud(200_000, 1_000_000);
    let mut out = b"frame".to_vec();
    let cam: Vec<Vec<u8>> = (0..10).map(|_| b"+0.00".to_vec()).collect();
    h.render(&values(), b"0.2", &info(), &cam, &mut out);
    assert_eq!(out, b"frame".to_vec());
}

#[test]
fn visible_hud_layout() {
    let mut h = hud(200_000, 1_000_000);
    h.toggle();
    let cam: Vec<Vec<u8>> = (0..10).map(|i| format!("+{}.00", i).into_bytes()).collect();
    let mut out = Vec::new();
    h.render(&values(), b"0.2", &info(), &cam, &mut out);
    let s = String::from_utf8(out).unwrap();
    let lines: Vec<&str> = s.split_inclusive("\x1b[0m").collect();
    assert_eq!(lines.len(), 35);
    assert_eq!(lines[0], format!("\x1b[1;1H\x1b[1;97;40m [HUD] Tab to close{}\x1b[0m", " ".repeat(13)));
    assert_eq!(lines[1], format!("\x1b[2;1H\x1b[90;40m -- Splats {}\x1b[0m", "-".repeat(21)));
    assert_eq!(
        lines[2],
        format!("\x1b[3;1H\x1b[30;107m > max_splats       200k{}\x1b[0m", " ".repeat(8))
    );
    assert_eq!(
        lines[3],
        format!("\x1b[4;1H\x1b[97;40m   sigmoid            ON{}\x1b[0m", " ".repeat(8))
    );
    assert_eq!(lines[19], format!("\x1b[20;1H\x1b[90;40m -- Display Info {}\x1b[0m", "-".repeat(15)));
    assert_eq!(
        lines[20],
        format!("\x1b[21;1H\x1b[97;40m   resolution   160 x 96{}\x1b[0m", " ".repeat(8))
    );
    assert_eq!(
        lines[23],
        format!("\x1b[24;1H\x1b[97;40m   detected     halfblock{}\x1b[0m", " ".repeat(7))
    );
    assert_eq!(lines[24], format!("\x1b[25;1H\x1b[90;40m -- Camera State {}\x1b[0m", "-".repeat(15)));
    assert_eq!(
        lines[10],
        format!("\x1b[11;1H\x1b[97;40m   fov_y            1.00{}\x1b[0m", " ".repeat(8))
    );
    assert_eq!(
        lines[34],
        format!("\x1b[35;1H\x1b[97;40m   tgt z           +9.00{}\x1b[0m", " ".repeat(8))
    );
}

#[test]
fn fps_overlay_is_right_aligned() {
    let mut out = Vec::new();
    write_fps_overlay(&mut out, 80, b" FPS  60.0 ");
    assert_eq!(String::from_utf8(out).unwrap(), "\x1b[1;70H\x1b[97;40m FPS  60.0 \x1b[0m");
    let mut out = Vec::new();
    write_fps_overlay(&mut out, 5, b" FPS  60.0 ");
    assert_eq!(String::from_utf8(out).unwrap(), "\x1b[1;1H\x1b[97;40m FPS  60.0 \x1b[0m");
}

#[test]
fn direction_key_aliases_act_alike() {
    let lefts = [KeyInput::Left, KeyInput::Char(','), KeyInput::Char('<')];
    let rights = [KeyInput::Right, KeyInput::Char('.'), KeyInput::Char('>')];
    for i in 0..HUD_ITEM_COUNT {
        let mut start = HudState::new(3000, 9000, true, Backend::HalfBlock, Backend::Kitty);
        focus(&mut start, item_at(i));
        for keys in [lefts, rights] {
            let mut first = start;
            let first_action = first.handle_key(keys[0], 8);
            for k in &keys[1..] {
                let mut other = start;
                assert_eq!(other.handle_key(*k, 8), first_action);
                assert_eq!(other, first);
            }
        }
    }
}

#[test]
fn other_keys_change_nothing() {
    let mut start = hud(2000, 9000);
    focus(&mut start, HudItem::NumThreads);
    for k in [KeyInput::Tab, KeyInput::Esc, KeyInput::Other, KeyInput::Char('q'), KeyInput::Char(' ')] {
        let mut h = start;
        assert_eq!(h.handle_key(k, 8), HudAction::NoChange);
        assert_eq!(h, start);
    }
}
