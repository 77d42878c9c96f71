//! The HUD control panel: its item table, the key-driven state machine over
//! the integer settings, and the cursor-addressed text it draws.
//!
//! Settings that are real numbers (pixel density, camera speeds, render
//! thresholds) are stepped by the caller; this module decides which item is
//! focused, which direction a key moves it, and what the caller must do.
use vstd::prelude::*;
use crate::ansi::{dec_digits, push_all, push_decimal};
use crate::display::{Backend, CellSize};
use crate::text::chars_of;
use vstd::utf8::{encode_utf8, is_char_boundary};

verus! {

/// What happened after the HUD processed a key.
#[derive(Clone, Copy, Debug, PartialEq, Eq, Structural)]
pub enum HudAction {
    /// Nothing changed.
    NoChange,
    /// A real-time parameter changed (camera or render). No reload needed.
    ValueChanged,
    /// A parameter that requires a PLY reload changed (max_splats or sigmoid).
    ReloadSplats,
    /// The rendering backend was switched.
    BackendChanged,
    /// Pixel density changed (needs framebuffer resize).
    DensityChanged,
}

/// A key press, as far as the viewer tells keys apart.
#[derive(Clone, Copy, Debug, PartialEq, Eq, Structural)]
pub enum KeyInput {
    Up,
    Down,
    PageUp,
    PageDown,
    Left,
    Right,
    Tab,
    Esc,
    Char(char),
    Other,
}

/// Identity of each tunable item in the HUD.
#[derive(Clone, Copy, Debug, PartialEq, Eq, Structural)]
pub enum HudItem {
    MaxSplats,
    Sigmoid,
    NumThreads,
    RenderBackend,
    PixelDensity,
    FovY,
    TranslateSpeed,
    RotationSpeed,
    ZoomStep,
    Eps2d,
    AlphaThreshold,
    ExtendSigma,
    Saturation,
}

/// Number of entries in the HUD list.
pub const HUD_ITEM_COUNT: usize = 13;

/// Width of the HUD panel in characters.
pub const HUD_WIDTH: usize = 32;

/// The item shown at position `i` of the list.
pub open spec fn item_spec(i: int) -> HudItem {
    if i == 0 {
        HudItem::MaxSplats
    } else if i == 1 {
        HudItem::Sigmoid
    } else if i == 2 {
        HudItem::RenderBackend
    } else if i == 3 {
        HudItem::PixelDensity
    } else if i == 4 {
        HudItem::NumThreads
    } else if i == 5 {
        HudItem::FovY
    } else if i == 6 {
        HudItem::TranslateSpeed
    } else if i == 7 {
        HudItem::RotationSpeed
    } else if i == 8 {
        HudItem::ZoomStep
    } else if i == 9 {
        HudItem::Eps2d
    } else if i == 10 {
        HudItem::AlphaThreshold
    } else if i == 11 {
        HudItem::ExtendSigma
    } else {
        HudItem::Saturation
    }
}

/// The item at position `i` of the list.
pub fn item_at(i: usize) -> (it: HudItem)
    requires
        i < HUD_ITEM_COUNT,
    ensures
        it == item_spec(i as int),
{
    match i {
        0 => HudItem::MaxSplats,
        1 => HudItem::Sigmoid,
        2 => HudItem::RenderBackend,
        3 => HudItem::PixelDensity,
        4 => HudItem::NumThreads,
        5 => HudItem::FovY,
        6 => HudItem::TranslateSpeed,
        7 => HudItem::RotationSpeed,
        8 => HudItem::ZoomStep,
        9 => HudItem::Eps2d,
        10 => HudItem::AlphaThreshold,
        11 => HudItem::ExtendSigma,
        _ => HudItem::Saturation,
    }
}

/// Direction in which a key moves the focused value: -1, +1, or 0 for a
/// key that adjusts nothing.
pub open spec fn key_dir(key: KeyInput) -> int {
    match key {
        KeyInput::Left => -1,
        KeyInput::Right => 1,
        KeyInput::Char(c) => if c == ',' || c == '<' {
            -1
        } else if c == '.' || c == '>' {
            1
        } else {
            0
        },
        _ => 0,
    }
}

/// Direction in which `key` moves the focused value (see [`key_dir`]).
pub fn key_direction(key: KeyInput) -> (d: i8)
    ensures
        d == key_dir(key),
{
    match key {
        KeyInput::Left => -1,
        KeyInput::Right => 1,
        KeyInput::Char(c) => if c == ',' || c == '<' {
            -1
        } else if c == '.' || c == '>' {
            1
        } else {
            0
        },
        _ => 0,
    }
}

/// The key moves the cursor up (wrapping from the first item to the last).
pub open spec fn is_up_key(key: KeyInput) -> bool {
    key == KeyInput::Up || key == KeyInput::PageUp
}

/// The key moves the cursor down (wrapping from the last item to the first).
pub open spec fn is_down_key(key: KeyInput) -> bool {
    key == KeyInput::Down || key == KeyInput::PageDown
}

/// Cursor position after moving up.
pub open spec fn cursor_up(c: int) -> int {
    if c == 0 {
        HUD_ITEM_COUNT - 1
    } else {
        c - 1
    }
}

/// Cursor position after moving down.
pub open spec fn cursor_down(c: int) -> int {
    (c + 1) % (HUD_ITEM_COUNT as int)
}

/// `m * 2`, saturating at `usize::MAX`.
pub open spec fn saturating_double(m: int) -> int {
    if 2 * m > usize::MAX {
        usize::MAX as int
    } else {
        2 * m
    }
}

/// The next splat cap: doubling up to the scene total (at least 1000), or
/// halving down to 1000.
pub open spec fn next_max_splats(m: int, total: int, dir: int) -> int {
    if dir > 0 {
        let ceiling = if total > 1000 {
            total
        } else {
            1000
        };
        let d = saturating_double(m);
        if d < ceiling {
            d
        } else {
            ceiling
        }
    } else {
        if m / 2 > 1000 {
            m / 2
        } else {
            1000
        }
    }
}

/// The next thread count: one more up to `max_cpus`, or one fewer down to
/// zero.
pub open spec fn next_threads(n: int, dir: int, max_cpus: int) -> int {
    if dir > 0 {
        if n + 1 < max_cpus {
            n + 1
        } else {
            max_cpus
        }
    } else if n == 0 {
        0
    } else {
        n - 1
    }
}

/// The backend after a toggle: Kitty only where it was detected.
pub open spec fn next_backend(b: Backend, detected: Backend) -> Backend {
    match b {
        Backend::HalfBlock => if detected == Backend::Kitty {
            Backend::Kitty
        } else {
            Backend::HalfBlock
        },
        Backend::Kitty => Backend::HalfBlock,
    }
}

/// Integer state of the HUD.
#[derive(Clone, Copy, Debug, PartialEq, Eq, Structural)]
pub struct HudState {
    pub visible: bool,
    /// Position of the focused item in the list.
    pub cursor: usize,
    /// Splat cap used when the PLY file is (re)loaded.
    pub max_splats: usize,
    /// Total vertex count declared in the PLY header. Used as the ceiling for
    /// the MaxSplats slider so the user can actually reach "all of it" instead
    /// of a magic 10M cap.
    pub total_splats: usize,
    pub apply_sigmoid: bool,
    pub num_threads: usize,
    pub backend: Backend,
    pub detected_backend: Backend,
}

/// The settings other than the cursor agree.
pub open spec fn same_settings(a: HudState, b: HudState) -> bool {
    &&& a.visible == b.visible
    &&& a.max_splats == b.max_splats
    &&& a.total_splats == b.total_splats
    &&& a.apply_sigmoid == b.apply_sigmoid
    &&& a.num_threads == b.num_threads
    &&& a.backend == b.backend
    &&& a.detected_backend == b.detected_backend
}

/// `new` is `old` after the focused `item` was moved in direction `dir`,
/// and `a` is what the caller must do.
pub open spec fn adjusted(
    old: HudState,
    new: HudState,
    item: HudItem,
    dir: int,
    max_cpus: int,
    a: HudAction,
) -> bool {
    &&& new.visible == old.visible
    &&& new.total_splats == old.total_splats
    &&& new.detected_backend == old.detected_backend
    &&& new.max_splats == (if item == HudItem::MaxSplats {
        next_max_splats(old.max_splats as int, old.total_splats as int, dir)
    } else {
        old.max_splats as int
    })
    &&& new.apply_sigmoid == (if item == HudItem::Sigmoid {
        !old.apply_sigmoid
    } else {
        old.apply_sigmoid
    })
    &&& new.num_threads == (if item == HudItem::NumThreads {
        next_threads(old.num_threads as int, dir, max_cpus)
    } else {
        old.num_threads as int
    })
    &&& new.backend == (if item == HudItem::RenderBackend {
        next_backend(old.backend, old.detected_backend)
    } else {
        old.backend
    })
    &&& a == match item {
        HudItem::MaxSplats => if new.max_splats == old.max_splats {
            HudAction::NoChange
        } else {
            HudAction::ReloadSplats
        },
        HudItem::Sigmoid => HudAction::ReloadSplats,
        HudItem::RenderBackend => HudAction::BackendChanged,
        HudItem::PixelDensity => HudAction::DensityChanged,
        _ => HudAction::ValueChanged,
    }
}

/// What a key press does to the HUD: `new` is the state after `key` was
/// pressed in state `old`, and `a` is what the caller must do. Up and Down
/// (and their page aliases) move the cursor with wrap-around; a key with a
/// direction moves the focused value; any other key changes nothing.
pub open spec fn key_outcome(
    old: HudState,
    key: KeyInput,
    max_cpus: int,
    new: HudState,
    a: HudAction,
) -> bool {
    &&& is_up_key(key) ==> {
        &&& new.cursor_index() == cursor_up(old.cursor_index())
        &&& same_settings(new, old)
        &&& a == HudAction::NoChange
    }
    &&& is_down_key(key) ==> {
        &&& new.cursor_index() == cursor_down(old.cursor_index())
        &&& same_settings(new, old)
        &&& a == HudAction::NoChange
    }
    &&& key_dir(key) != 0 ==> {
        &&& new.cursor_index() == old.cursor_index()
        &&& adjusted(old, new, item_spec(old.cursor_index()), key_dir(key), max_cpus, a)
    }
    &&& !is_up_key(key) && !is_down_key(key) && key_dir(key) == 0 ==> {
        &&& new.cursor_index() == old.cursor_index()
        &&& same_settings(new, old)
        &&& a == HudAction::NoChange
    }
}

impl HudState {
    /// Position of the focused item in the list.
    pub open spec fn cursor_index(&self) -> int {
        self.cursor as int
    }

    /// The cursor points into the list.
    pub open spec fn wf(&self) -> bool {
        0 <= self.cursor_index() < HUD_ITEM_COUNT
    }

    /// A hidden HUD focused on its first item. A cap of 0 (load everything)
    /// or one above the scene total is shown as the scene total.
    pub fn new(
        max_splats: usize,
        total_splats: usize,
        apply_sigmoid: bool,
        backend: Backend,
        detected_backend: Backend,
    ) -> (s: Self)
        ensures
            s.wf(),
            s.cursor_index() == 0,
            !s.visible,
            s.max_splats == (if max_splats == 0 || max_splats > total_splats {
                total_splats
            } else {
                max_splats
            }),
            s.total_splats == total_splats,
            s.apply_sigmoid == apply_sigmoid,
            s.num_threads == 4,
            s.backend == backend,
            s.detected_backend == detected_backend,
    {
        // `max_splats == 0` (CLI --no-cap) means "load everything" which we
        // represent internally as "equal to the scene total" so the HUD slider
        // has a concrete value to show and clamp to.
        let max_splats = if max_splats == 0 || max_splats > total_splats {
            total_splats
        } else {
            max_splats
        };
        HudState {
            visible: false,
            cursor: 0,
            max_splats,
            total_splats,
            apply_sigmoid,
            num_threads: 4,
            backend,
            detected_backend,
        }
    }

    /// Shows or hides the panel.
    pub fn toggle(&mut self)
        ensures
            final(self).visible == !old(self).visible,
            final(self).cursor_index() == old(self).cursor_index(),
            final(self).max_splats == old(self).max_splats,
            final(self).total_splats == old(self).total_splats,
            final(self).apply_sigmoid == old(self).apply_sigmoid,
            final(self).num_threads == old(self).num_threads,
            final(self).backend == old(self).backend,
            final(self).detected_backend == old(self).detected_backend,
    {
        self.visible = !self.visible;
    }

    /// Position of the focused item.
    pub fn cursor(&self) -> (c: usize)
        ensures
            c == self.cursor_index(),
    {
        self.cursor
    }

    /// The focused item.
    pub fn focused_item(&self) -> (it: HudItem)
        requires
            self.wf(),
        ensures
            it == item_spec(self.cursor_index()),
    {
        item_at(self.cursor)
    }

    /// Process HUD navigation while the panel is visible: Up/Down move the
    /// selection, Left/Right adjust the focused value. PgUp/PgDn and `,` /
    /// `.` are aliases for the same actions. `max_cpus` caps the thread
    /// count.
    pub fn handle_key(&mut self, key: KeyInput, max_cpus: usize) -> (a: HudAction)
        requires
            old(self).wf(),
            key_dir(key) > 0 && item_spec(old(self).cursor_index()) == HudItem::NumThreads
                ==> old(self).num_threads < usize::MAX,
        ensures
            final(self).wf(),
            key_outcome(*old(self), key, max_cpus as int, *final(self), a),
    {
        match key {
            KeyInput::Up | KeyInput::PageUp => {
                if self.cursor == 0 {
                    self.cursor = HUD_ITEM_COUNT - 1;
                } else {
                    self.cursor -= 1;
                }
                HudAction::NoChange
            },
            KeyInput::Down | KeyInput::PageDown => {
                self.cursor = (self.cursor + 1) % HUD_ITEM_COUNT;
                HudAction::NoChange
            },
            _ => {
                let dir = key_direction(key);
                if dir == 0 {
                    HudAction::NoChange
                } else {
                    self.adjust(dir, max_cpus)
                }
            },
        }
    }

    fn adjust(&mut self, dir: i8, max_cpus: usize) -> (a: HudAction)
        requires
            old(self).wf(),
            dir == 1 || dir == -1,
            dir > 0 && item_spec(old(self).cursor_index()) == HudItem::NumThreads
                ==> old(self).num_threads < usize::MAX,
        ensures
            final(self).cursor_index() == old(self).cursor_index(),
            adjusted(
                *old(self),
                *final(self),
                item_spec(old(self).cursor_index()),
                dir as int,
                max_cpus as int,
                a,
            ),
    {
        let item = item_at(self.cursor);
        match item {
            HudItem::MaxSplats => {
                let new_val = if dir > 0 {
                    // Increase (right / `.`) at or above the scene total snaps to the
                    // full count (covers the "one more tap to go all the
                    // way" case when 2x would overshoot).
                    let ceiling = if self.total_splats > 1000 {
                        self.total_splats
                    } else {
                        1000
                    };
                    let doubled = if self.max_splats > usize::MAX / 2 {
                        usize::MAX
                    } else {
                        self.max_splats * 2
                    };
                    if doubled < ceiling {
                        doubled
                    } else {
                        ceiling
                    }
                } else {
                    let half = self.max_splats / 2;
                    if half > 1000 {
                        half
                    } else {
                        1000
                    }
                };
                if new_val == self.max_splats {
                    return HudAction::NoChange;
                }
                self.max_splats = new_val;
                HudAction::ReloadSplats
            },
            HudItem::Sigmoid => {
                self.apply_sigmoid = !self.apply_sigmoid;
                HudAction::ReloadSplats
            },
            HudItem::NumThreads => {
                if dir > 0 {
                    let up = self.num_threads + 1;
                    self.num_threads = if up < max_cpus {
                        up
                    } else {
                        max_cpus
                    };
                } else {
                    self.num_threads = self.num_threads.saturating_sub(1);
                }
                HudAction::ValueChanged
            },
            HudItem::RenderBackend => {
                // Toggle between available backends.
                self.backend = match self.backend {
                    Backend::HalfBlock => {
                        if self.detected_backend == Backend::Kitty {
                            Backend::Kitty
                        } else {
                            Backend::HalfBlock  // can't switch if not supported
                        }
                    },
                    Backend::Kitty => Backend::HalfBlock,
                };
                HudAction::BackendChanged
            },
            HudItem::PixelDensity => HudAction::DensityChanged,
            _ => HudAction::ValueChanged,
        }
    }
}

/// Moving the cursor up and then down, or down and then up, returns it to
/// where it was.
pub proof fn lemma_cursor_round_trip(c: int)
    requires
        0 <= c < HUD_ITEM_COUNT,
    ensures
        cursor_down(cursor_up(c)) == c,
        cursor_up(cursor_down(c)) == c,
        0 <= cursor_up(c) < HUD_ITEM_COUNT,
        0 <= cursor_down(c) < HUD_ITEM_COUNT,
{
}

proof fn lemma_cursor_down_n(c: int, k: nat)
    requires
        0 <= c < HUD_ITEM_COUNT,
    ensures
        cursor_down_n(c, k) == (c + k) % (HUD_ITEM_COUNT as int),
    decreases k,
{
    if k > 0 {
        lemma_cursor_down_n(c, (k - 1) as nat);
        vstd::arithmetic::div_mod::lemma_add_mod_noop(c + k - 1, 1, 13);
        vstd::arithmetic::div_mod::lemma_small_mod(1, 13);
    }
}

/// Moving down `k` times lands `k` places further, cyclically; after one
/// move per item the cursor is back where it started.
pub proof fn lemma_cursor_cycle(c: int, k: nat)
    requires
        0 <= c < HUD_ITEM_COUNT,
    ensures
        cursor_down_n(c, k) == (c + k) % (HUD_ITEM_COUNT as int),
        cursor_down_n(c, HUD_ITEM_COUNT as nat) == c,
{
    lemma_cursor_down_n(c, k);
    lemma_cursor_down_n(c, 13);
    vstd::arithmetic::div_mod::lemma_add_mod_noop(c, 13, 13);
    vstd::arithmetic::div_mod::lemma_small_mod(c as nat, 13);
}

/// The cursor after `k` moves down.
pub open spec fn cursor_down_n(c: int, k: nat) -> int
    decreases k,
{
    if k == 0 {
        c
    } else {
        cursor_down(cursor_down_n(c, (k - 1) as nat))
    }
}

/// The keys of one direction act alike: from the same state, Left, `,` and
/// `<` lead to the same new state and the same action, and so do Right, `.`
/// and `>`.
pub proof fn lemma_direction_keys_alike(
    s: HudState,
    k1: KeyInput,
    k2: KeyInput,
    max_cpus: int,
    n1: HudState,
    a1: HudAction,
    n2: HudState,
    a2: HudAction,
)
    requires
        key_dir(k1) != 0,
        key_dir(k1) == key_dir(k2),
        key_outcome(s, k1, max_cpus, n1, a1),
        key_outcome(s, k2, max_cpus, n2, a2),
    ensures
        n1 == n2,
        a1 == a2,
{
}

/// A key that neither moves the cursor nor has a direction leaves the HUD
/// exactly as it was and asks for nothing.
pub proof fn lemma_other_keys_inert(
    s: HudState,
    k: KeyInput,
    max_cpus: int,
    n: HudState,
    a: HudAction,
)
    requires
        !is_up_key(k),
        !is_down_key(k),
        key_dir(k) == 0,
        key_outcome(s, k, max_cpus, n, a),
    ensures
        n == s,
        a == HudAction::NoChange,
{
}

/// The backend switch never selects Kitty on a terminal where it was not
/// detected, and from Kitty it always returns to half blocks.
pub proof fn lemma_backend_switch(b: Backend, detected: Backend)
    ensures
        next_backend(b, detected) == Backend::Kitty ==> detected == Backend::Kitty,
        b == Backend::Kitty ==> next_backend(b, detected) == Backend::HalfBlock,
        detected == Backend::Kitty ==> next_backend(next_backend(b, detected), detected) == b,
{
}

/// Adjusting the sigmoid item twice, in either direction, restores every
/// setting, and both adjustments ask for a reload.
pub proof fn lemma_sigmoid_twice(
    s0: HudState,
    s1: HudState,
    s2: HudState,
    d1: int,
    d2: int,
    max_cpus: int,
    a1: HudAction,
    a2: HudAction,
)
    requires
        adjusted(s0, s1, HudItem::Sigmoid, d1, max_cpus, a1),
        adjusted(s1, s2, HudItem::Sigmoid, d2, max_cpus, a2),
    ensures
        same_settings(s2, s0),
        a1 == HudAction::ReloadSplats,
        a2 == HudAction::ReloadSplats,
{
}

/// The splat cap stays within `[0, max(total, 1000)]` under any sequence
/// of adjustments, and one more step up from the scene total keeps it
/// there.
pub proof fn lemma_max_splats_bounded(m: int, total: int, dir: int)
    requires
        0 <= m,
        0 <= total <= usize::MAX,
        m <= (if total > 1000 {
            total
        } else {
            1000
        }),
    ensures
        0 <= next_max_splats(m, total, dir) <= (if total > 1000 {
            total
        } else {
            1000
        }),
        dir > 0 && m == total && total >= 1000 ==> next_max_splats(m, total, dir) == total,
        dir <= 0 ==> next_max_splats(m, total, dir) >= 1000,
{
}


// ---------------------------------------------------------------------------
// Drawing. The panel is ASCII text; widths below count bytes.

/// `n` copies of the byte `c`.
pub open spec fn fill(n: int, c: u8) -> Seq<u8> {
    Seq::new(n as nat, |_i: int| c)
}

/// `t` left-aligned in a field of `w`, padded with `c` (`{:c<w}`).
pub open spec fn pad_end(t: Seq<u8>, w: int, c: u8) -> Seq<u8> {
    if t.len() >= w {
        t
    } else {
        t + fill(w - t.len(), c)
    }
}

/// `t` right-aligned in a field of `w`, padded with spaces (`{:>w}`).
pub open spec fn pad_start(t: Seq<u8>, w: int) -> Seq<u8> {
    if t.len() >= w {
        t
    } else {
        fill(w - t.len(), 32u8) + t
    }
}

/// `t` cut or space-padded to exactly the panel width.
pub open spec fn fit_panel(t: Seq<u8>) -> Seq<u8> {
    if t.len() >= HUD_WIDTH {
        t.subrange(0, HUD_WIDTH as int)
    } else {
        pad_end(t, HUD_WIDTH as int, 32u8)
    }
}

/// One panel line: move to column 1 of `row`, select the colours `sgr`,
/// draw `text` at the panel width, reset the colours.
pub open spec fn hud_line(row: int, sgr: Seq<u8>, text: Seq<u8>) -> Seq<u8> {
    seq![27u8, 91u8] + dec_digits(row as nat) + seq![59u8, 49u8, 72u8] + sgr + fit_panel(text)
        + seq![27u8, 91u8, 48u8, 109u8]
}

/// `text` as the panel shows it: its UTF-8 bytes cut to the panel width,
/// or padded with spaces to the panel width counted in characters.
pub open spec fn fit_panel_chars(text: Seq<char>) -> Seq<u8> {
    let b = encode_utf8(text);
    if b.len() >= HUD_WIDTH {
        b.subrange(0, HUD_WIDTH as int)
    } else {
        b + fill(HUD_WIDTH - text.len(), 32u8)
    }
}

/// A panel line of text: cursor to column 1 of `row`, the colours `sgr`,
/// the text fitted to the panel, the colour reset.
pub open spec fn hud_text_line(row: int, sgr: Seq<u8>, text: Seq<char>) -> Seq<u8> {
    seq![27u8, 91u8] + dec_digits(row as nat) + seq![59u8, 49u8, 72u8] + sgr + fit_panel_chars(text)
        + seq![27u8, 91u8, 48u8, 109u8]
}

proof fn lemma_encoding_not_shorter(t: Seq<char>)
    ensures
        encode_utf8(t).len() >= t.len(),
    decreases t.len(),
{
    if t.len() > 0 {
        lemma_encoding_not_shorter(t.drop_first());
    }
}

fn bytes_to_vec(a: &[u8]) -> (v: Vec<u8>)
    ensures
        v@ == a@,
{
    let mut v: Vec<u8> = Vec::new();
    push_all(&mut v, a);
    v
}

fn push_fill(out: &mut Vec<u8>, n: usize, c: u8)
    ensures
        final(out)@ == old(out)@ + fill(n as int, c),
{
    let mut k: usize = 0;
    while k < n
        invariant
            k <= n,
            out@ == old(out)@ + fill(k as int, c),
        decreases n - k,
    {
        out.push(c);
        proof {
            assert(fill(k + 1, c) =~= fill(k as int, c).push(c));
        }
        k += 1;
    }
}

fn push_pad_end(out: &mut Vec<u8>, t: &[u8], w: usize, c: u8)
    ensures
        final(out)@ == old(out)@ + pad_end(t@, w as int, c),
{
    push_all(out, t);
    if t.len() < w {
        push_fill(out, w - t.len(), c);
    }
    proof {
        assert(out@ =~= old(out)@ + pad_end(t@, w as int, c));
    }
}

fn push_pad_start(out: &mut Vec<u8>, t: &[u8], w: usize)
    ensures
        final(out)@ == old(out)@ + pad_start(t@, w as int),
{
    if t.len() < w {
        push_fill(out, w - t.len(), 32u8);
    }
    push_all(out, t);
    proof {
        assert(out@ =~= old(out)@ + pad_start(t@, w as int));
    }
}

fn push_hud_line(out: &mut Vec<u8>, row: usize, sgr: &[u8], text: &[u8])
    ensures
        final(out)@ == old(out)@ + hud_line(row as int, sgr@, text@),
{
    let ghost start = out@;
    push_all(out, &[27u8, 91u8]);
    push_decimal(out, row as u64);
    push_all(out, &[59u8, 49u8, 72u8]);
    push_all(out, sgr);
    if text.len() >= HUD_WIDTH {
        let cut = &text[0..HUD_WIDTH];
        push_all(out, cut);
        proof {
            assert(cut@ =~= text@.subrange(0, HUD_WIDTH as int));
        }
    } else {
        push_pad_end(out, text, HUD_WIDTH, 32u8);
    }
    push_all(out, &[27u8, 91u8, 48u8, 109u8]);
    proof {
        assert([27u8, 91u8]@ =~= seq![27u8, 91u8]);
        assert([59u8, 49u8, 72u8]@ =~= seq![59u8, 49u8, 72u8]);
        assert([27u8, 91u8, 48u8, 109u8]@ =~= seq![27u8, 91u8, 48u8, 109u8]);
        assert(out@ =~= start + hud_line(row as int, sgr@, text@));
    }
}

/// Label of an item (at most twelve characters).
pub open spec fn label_spec(item: HudItem) -> Seq<u8> {
    match item {
        HudItem::MaxSplats => seq![109u8, 97u8, 120u8, 95u8, 115u8, 112u8, 108u8, 97u8, 116u8, 115u8],  // "max_splats"
        HudItem::Sigmoid => seq![115u8, 105u8, 103u8, 109u8, 111u8, 105u8, 100u8],  // "sigmoid"
        HudItem::NumThreads => seq![116u8, 104u8, 114u8, 101u8, 97u8, 100u8, 115u8],  // "threads"
        HudItem::RenderBackend => seq![98u8, 97u8, 99u8, 107u8, 101u8, 110u8, 100u8],  // "backend"
        HudItem::PixelDensity => seq![112u8, 120u8, 32u8, 100u8, 101u8, 110u8, 115u8, 105u8, 116u8, 121u8],  // "px density"
        HudItem::FovY => seq![102u8, 111u8, 118u8, 95u8, 121u8],  // "fov_y"
        HudItem::TranslateSpeed => seq![109u8, 111u8, 118u8, 101u8, 32u8, 115u8, 112u8, 100u8],  // "move spd"
        HudItem::RotationSpeed => seq![114u8, 111u8, 116u8, 32u8, 115u8, 112u8, 100u8],  // "rot spd"
        HudItem::ZoomStep => seq![122u8, 111u8, 111u8, 109u8, 32u8, 115u8, 112u8, 100u8],  // "zoom spd"
        HudItem::Eps2d => seq![101u8, 112u8, 115u8, 50u8, 100u8],  // "eps2d"
        HudItem::AlphaThreshold => seq![97u8, 108u8, 112u8, 104u8, 97u8, 32u8, 116u8, 104u8, 114u8],  // "alpha thr"
        HudItem::ExtendSigma => seq![115u8, 105u8, 103u8, 109u8, 97u8, 32u8, 101u8, 120u8, 116u8],  // "sigma ext"
        HudItem::Saturation => seq![115u8, 97u8, 116u8, 117u8, 114u8, 97u8, 116u8, 105u8, 111u8, 110u8],  // "saturation"
    }
}

/// Group heading shown above position `i`, if one starts there.
pub open spec fn group_spec(i: int) -> Option<Seq<u8>> {
    if i == 0 {
        Some(seq![83u8, 112u8, 108u8, 97u8, 116u8, 115u8])  // "Splats"
    } else if i == 2 {
        Some(seq![68u8, 105u8, 115u8, 112u8, 108u8, 97u8, 121u8])  // "Display"
    } else if i == 4 {
        Some(seq![80u8, 101u8, 114u8, 102u8])  // "Perf"
    } else if i == 5 {
        Some(seq![67u8, 97u8, 109u8, 101u8, 114u8, 97u8])  // "Camera"
    } else if i == 9 {
        Some(seq![82u8, 101u8, 110u8, 100u8, 101u8, 114u8])  // "Render"
    } else {
        None
    }
}

/// Labels of the display-information rows.
pub open spec fn info_labels() -> Seq<Seq<u8>> {
    seq![
        seq![114u8, 101u8, 115u8, 111u8, 108u8, 117u8, 116u8, 105u8, 111u8, 110u8],  // "resolution"
        seq![99u8, 101u8, 108u8, 108u8, 32u8, 115u8, 105u8, 122u8, 101u8],  // "cell size"
        seq![116u8, 101u8, 114u8, 109u8, 105u8, 110u8, 97u8, 108u8],  // "terminal"
        seq![100u8, 101u8, 116u8, 101u8, 99u8, 116u8, 101u8, 100u8],  // "detected"
    ]
}

/// Labels of the camera-state rows.
pub open spec fn camera_labels() -> Seq<Seq<u8>> {
    seq![
        seq![121u8, 97u8, 119u8],  // "yaw"
        seq![112u8, 105u8, 116u8, 99u8, 104u8],  // "pitch"
        seq![114u8, 97u8, 100u8, 105u8, 117u8, 115u8],  // "radius"
        seq![102u8, 111u8, 118u8, 95u8, 121u8],  // "fov_y"
        seq![112u8, 111u8, 115u8, 32u8, 120u8],  // "pos x"
        seq![112u8, 111u8, 115u8, 32u8, 121u8],  // "pos y"
        seq![112u8, 111u8, 115u8, 32u8, 122u8],  // "pos z"
        seq![116u8, 103u8, 116u8, 32u8, 120u8],  // "tgt x"
        seq![116u8, 103u8, 116u8, 32u8, 121u8],  // "tgt y"
        seq![116u8, 103u8, 116u8, 32u8, 122u8],  // "tgt z"
    ]
}

fn label_of(item: HudItem) -> (v: Vec<u8>)
    ensures
        v@ == label_spec(item),
{
    match item {
        HudItem::MaxSplats => {
            let a = [109u8, 97u8, 120u8, 95u8, 115u8, 112u8, 108u8, 97u8, 116u8, 115u8];
            proof {
                assert(a@ =~= seq![109u8, 97u8, 120u8, 95u8, 115u8, 112u8, 108u8, 97u8, 116u8, 115u8]);
            }
            bytes_to_vec(&a)
        },
        HudItem::Sigmoid => {
            let a = [115u8, 105u8, 103u8, 109u8, 111u8, 105u8, 100u8];
            proof {
                assert(a@ =~= seq![115u8, 105u8, 103u8, 109u8, 111u8, 105u8, 100u8]);
            }
            bytes_to_vec(&a)
        },
        HudItem::NumThreads => {
            let a = [116u8, 104u8, 114u8, 101u8, 97u8, 100u8, 115u8];
            proof {
                assert(a@ =~= seq![116u8, 104u8, 114u8, 101u8, 97u8, 100u8, 115u8]);
            }
            bytes_to_vec(&a)
        },
        HudItem::RenderBackend => {
            let a = [98u8, 97u8, 99u8, 107u8, 101u8, 110u8, 100u8];
            proof {
                assert(a@ =~= seq![98u8, 97u8, 99u8, 107u8, 101u8, 110u8, 100u8]);
            }
            bytes_to_vec(&a)
        },
        HudItem::PixelDensity => {
            let a = [112u8, 120u8, 32u8, 100u8, 101u8, 110u8, 115u8, 105u8, 116u8, 121u8];
            proof {
                assert(a@ =~= seq![112u8, 120u8, 32u8, 100u8, 101u8, 110u8, 115u8, 105u8, 116u8, 121u8]);
            }
            bytes_to_vec(&a)
        },
        HudItem::FovY => {
            let a = [102u8, 111u8, 118u8, 95u8, 121u8];
            proof {
                assert(a@ =~= seq![102u8, 111u8, 118u8, 95u8, 121u8]);
            }
            bytes_to_vec(&a)
        },
        HudItem::TranslateSpeed => {
            let a = [109u8, 111u8, 118u8, 101u8, 32u8, 115u8, 112u8, 100u8];
            proof {
                assert(a@ =~= seq![109u8, 111u8, 118u8, 101u8, 32u8, 115u8, 112u8, 100u8]);
            }
            bytes_to_vec(&a)
        },
        HudItem::RotationSpeed => {
            let a = [114u8, 111u8, 116u8, 32u8, 115u8, 112u8, 100u8];
            proof {
                assert(a@ =~= seq![114u8, 111u8, 116u8, 32u8, 115u8, 112u8, 100u8]);
            }
            bytes_to_vec(&a)
        },
        HudItem::ZoomStep => {
            let a = [122u8, 111u8, 111u8, 109u8, 32u8, 115u8, 112u8, 100u8];
            proof {
                assert(a@ =~= seq![122u8, 111u8, 111u8, 109u8, 32u8, 115u8, 112u8, 100u8]);
            }
            bytes_to_vec(&a)
        },
        HudItem::Eps2d => {
            let a = [101u8, 112u8, 115u8, 50u8, 100u8];
            proof {
                assert(a@ =~= seq![101u8, 112u8, 115u8, 50u8, 100u8]);
            }
            bytes_to_vec(&a)
        },
        HudItem::AlphaThreshold => {
            let a = [97u8, 108u8, 112u8, 104u8, 97u8, 32u8, 116u8, 104u8, 114u8];
            proof {
                assert(a@ =~= seq![97u8, 108u8, 112u8, 104u8, 97u8, 32u8, 116u8, 104u8, 114u8]);
            }
            bytes_to_vec(&a)
        },
        HudItem::ExtendSigma => {
            let a = [115u8, 105u8, 103u8, 109u8, 97u8, 32u8, 101u8, 120u8, 116u8];
            proof {
                assert(a@ =~= seq![115u8, 105u8, 103u8, 109u8, 97u8, 32u8, 101u8, 120u8, 116u8]);
            }
            bytes_to_vec(&a)
        },
        HudItem::Saturation => {
            let a = [115u8, 97u8, 116u8, 117u8, 114u8, 97u8, 116u8, 105u8, 111u8, 110u8];
            proof {
                assert(a@ =~= seq![115u8, 97u8, 116u8, 117u8, 114u8, 97u8, 116u8, 105u8, 111u8, 110u8]);
            }
            bytes_to_vec(&a)
        },
    }
}

fn group_of(i: usize) -> (g: Option<Vec<u8>>)
    ensures
        match group_spec(i as int) {
            Some(s) => g is Some && g->0@ == s,
            None => g is None,
        },
{
    match i {
        0 => {
            let a = [83u8, 112u8, 108u8, 97u8, 116u8, 115u8];
            proof {
                assert(a@ =~= seq![83u8, 112u8, 108u8, 97u8, 116u8, 115u8]);
            }
            Some(bytes_to_vec(&a))
        },
        2 => {
            let a = [68u8, 105u8, 115u8, 112u8, 108u8, 97u8, 121u8];
            proof {
                assert(a@ =~= seq![68u8, 105u8, 115u8, 112u8, 108u8, 97u8, 121u8]);
            }
            Some(bytes_to_vec(&a))
        },
        4 => {
            let a = [80u8, 101u8, 114u8, 102u8];
            proof {
                assert(a@ =~= seq![80u8, 101u8, 114u8, 102u8]);
            }
            Some(bytes_to_vec(&a))
        },
        5 => {
            let a = [67u8, 97u8, 109u8, 101u8, 114u8, 97u8];
            proof {
                assert(a@ =~= seq![67u8, 97u8, 109u8, 101u8, 114u8, 97u8]);
            }
            Some(bytes_to_vec(&a))
        },
        9 => {
            let a = [82u8, 101u8, 110u8, 100u8, 101u8, 114u8];
            proof {
                assert(a@ =~= seq![82u8, 101u8, 110u8, 100u8, 101u8, 114u8]);
            }
            Some(bytes_to_vec(&a))
        },
        _ => None,
    }
}

fn info_label(k: usize) -> (v: Vec<u8>)
    requires
        k < 4,
    ensures
        v@ == info_labels()[k as int],
{
    match k {
        0 => {
            let a = [114u8, 101u8, 115u8, 111u8, 108u8, 117u8, 116u8, 105u8, 111u8, 110u8];
            proof {
                assert(a@ =~= seq![114u8, 101u8, 115u8, 111u8, 108u8, 117u8, 116u8, 105u8, 111u8, 110u8]);
            }
            bytes_to_vec(&a)
        },
        1 => {
            let a = [99u8, 101u8, 108u8, 108u8, 32u8, 115u8, 105u8, 122u8, 101u8];
            proof {
                assert(a@ =~= seq![99u8, 101u8, 108u8, 108u8, 32u8, 115u8, 105u8, 122u8, 101u8]);
            }
            bytes_to_vec(&a)
        },
        2 => {
            let a = [116u8, 101u8, 114u8, 109u8, 105u8, 110u8, 97u8, 108u8];
            proof {
                assert(a@ =~= seq![116u8, 101u8, 114u8, 109u8, 105u8, 110u8, 97u8, 108u8]);
            }
            bytes_to_vec(&a)
        },
        _ => {
            let a = [100u8, 101u8, 116u8, 101u8, 99u8, 116u8, 101u8, 100u8];
            proof {
                assert(a@ =~= seq![100u8, 101u8, 116u8, 101u8, 99u8, 116u8, 101u8, 100u8]);
            }
            bytes_to_vec(&a)
        },
    }
}

fn camera_label(k: usize) -> (v: Vec<u8>)
    requires
        k < 10,
    ensures
        v@ == camera_labels()[k as int],
{
    match k {
        0 => {
            let a = [121u8, 97u8, 119u8];
            proof {
                assert(a@ =~= seq![121u8, 97u8, 119u8]);
            }
            bytes_to_vec(&a)
        },
        1 => {
            let a = [112u8, 105u8, 116u8, 99u8, 104u8];
            proof {
                assert(a@ =~= seq![112u8, 105u8, 116u8, 99u8, 104u8]);
            }
            bytes_to_vec(&a)
        },
        2 => {
            let a = [114u8, 97u8, 100u8, 105u8, 117u8, 115u8];
            proof {
                assert(a@ =~= seq![114u8, 97u8, 100u8, 105u8, 117u8, 115u8]);
            }
            bytes_to_vec(&a)
        },
        3 => {
            let a = [102u8, 111u8, 118u8, 95u8, 121u8];
            proof {
                assert(a@ =~= seq![102u8, 111u8, 118u8, 95u8, 121u8]);
            }
            bytes_to_vec(&a)
        },
        4 => {
            let a = [112u8, 111u8, 115u8, 32u8, 120u8];
            proof {
                assert(a@ =~= seq![112u8, 111u8, 115u8, 32u8, 120u8]);
            }
            bytes_to_vec(&a)
        },
        5 => {
            let a = [112u8, 111u8, 115u8, 32u8, 121u8];
            proof {
                assert(a@ =~= seq![112u8, 111u8, 115u8, 32u8, 121u8]);
            }
            bytes_to_vec(&a)
        },
        6 => {
            let a = [112u8, 111u8, 115u8, 32u8, 122u8];
            proof {
                assert(a@ =~= seq![112u8, 111u8, 115u8, 32u8, 122u8]);
            }
            bytes_to_vec(&a)
        },
        7 => {
            let a = [116u8, 103u8, 116u8, 32u8, 120u8];
            proof {
                assert(a@ =~= seq![116u8, 103u8, 116u8, 32u8, 120u8]);
            }
            bytes_to_vec(&a)
        },
        8 => {
            let a = [116u8, 103u8, 116u8, 32u8, 121u8];
            proof {
                assert(a@ =~= seq![116u8, 103u8, 116u8, 32u8, 121u8]);
            }
            bytes_to_vec(&a)
        },
        _ => {
            let a = [116u8, 103u8, 116u8, 32u8, 122u8];
            proof {
                assert(a@ =~= seq![116u8, 103u8, 116u8, 32u8, 122u8]);
            }
            bytes_to_vec(&a)
        },
    }
}


/// Write a single HUD line at the given terminal row, padded to
/// `HUD_WIDTH` characters or cut to `HUD_WIDTH` bytes; the cut must fall
/// between two characters.
pub fn write_hud_line(out: &mut Vec<u8>, row: usize, sgr: &str, text: &str)
    requires
        encode_utf8(text@).len() >= HUD_WIDTH ==> is_char_boundary(
            encode_utf8(text@),
            HUD_WIDTH as int,
        ),
    ensures
        final(out)@ == old(out)@ + hud_text_line(row as int, encode_utf8(sgr@), text@),
{
    let ghost start = out@;
    let bytes = text.as_bytes();
    push_all(out, &[27u8, 91u8]);
    push_decimal(out, row as u64);
    push_all(out, &[59u8, 49u8, 72u8]);
    push_all(out, sgr.as_bytes());
    if bytes.len() >= HUD_WIDTH {
        let cut = &bytes[0..HUD_WIDTH];
        push_all(out, cut);
        proof {
            assert(cut@ =~= bytes@.subrange(0, HUD_WIDTH as int));
        }
    } else {
        let n = chars_of(text).len();
        proof {
            lemma_encoding_not_shorter(text@);
        }
        push_all(out, bytes);
        push_fill(out, HUD_WIDTH - n, 32u8);
    }
    push_all(out, &[27u8, 91u8, 48u8, 109u8]);
    proof {
        assert([27u8, 91u8]@ =~= seq![27u8, 91u8]);
        assert([59u8, 49u8, 72u8]@ =~= seq![59u8, 49u8, 72u8]);
        assert([27u8, 91u8, 48u8, 109u8]@ =~= seq![27u8, 91u8, 48u8, 109u8]);
        assert(out@ =~= start + hud_text_line(row as int, encode_utf8(sgr@), text@));
    }
}

/// Lower-case name of a backend.
pub open spec fn backend_name(b: Backend) -> Seq<u8> {
    match b {
        Backend::HalfBlock => seq![104u8, 97u8, 108u8, 102u8, 98u8, 108u8, 111u8, 99u8, 107u8],  // "halfblock"
        Backend::Kitty => seq![107u8, 105u8, 116u8, 116u8, 121u8],  // "kitty"
    }
}

fn push_backend_name(out: &mut Vec<u8>, b: Backend)
    ensures
        final(out)@ == old(out)@ + backend_name(b),
{
    match b {
        Backend::HalfBlock => {
            let a = [104u8, 97u8, 108u8, 102u8, 98u8, 108u8, 111u8, 99u8, 107u8];
            push_all(out, &a);
            proof {
                assert(a@ =~= backend_name(b));
            }
        },
        Backend::Kitty => {
            let a = [107u8, 105u8, 116u8, 116u8, 121u8];
            push_all(out, &a);
            proof {
                assert(a@ =~= backend_name(b));
            }
        },
    }
}

/// Text of the splat cap: thousands with a `k`, or from one million on the
/// caller's one-decimal rendering of the count in millions with an `M`;
/// prefixed with `all/` when the cap covers the whole scene.
pub open spec fn max_splats_text(s: HudState, millions: Seq<u8>) -> Seq<u8> {
    let label = if s.max_splats >= 1_000_000 {
        millions + seq![77u8]
    } else {
        dec_digits((s.max_splats / 1000) as nat) + seq![107u8]
    };
    if s.total_splats > 0 && s.max_splats >= s.total_splats {
        seq![97u8, 108u8, 108u8, 47u8] + label  // "all/"
    } else {
        label
    }
}

/// Text shown for `item`, or `None` for the items whose value is a real
/// number held by the caller (and for the pixel density while the Kitty
/// backend is active).
pub open spec fn value_text_spec(s: HudState, item: HudItem, millions: Seq<u8>) -> Option<Seq<u8>> {
    match item {
        HudItem::MaxSplats => Some(max_splats_text(s, millions)),
        HudItem::Sigmoid => Some(
            if s.apply_sigmoid {
                seq![79u8, 78u8]  // "ON"
            } else {
                seq![79u8, 70u8, 70u8]  // "OFF"
            },
        ),
        HudItem::NumThreads => Some(
            if s.num_threads == 0 {
                seq![97u8, 108u8, 108u8]  // "all"
            } else {
                dec_digits(s.num_threads as nat)
            },
        ),
        HudItem::RenderBackend => Some(
            if s.detected_backend == Backend::Kitty {
                backend_name(s.backend)
            } else {
                backend_name(s.backend) + seq![32u8, 40u8, 111u8, 110u8, 108u8, 121u8, 41u8]  // " (only)"
            },
        ),
        HudItem::PixelDensity => if s.backend == Backend::Kitty {
            None
        } else {
            Some(seq![110u8, 47u8, 97u8])  // "n/a"
        },
        _ => None,
    }
}

/// Snapshot of Display state needed for HUD rendering (avoids borrow conflicts).
#[derive(Clone, Copy, Debug, PartialEq, Eq, Structural)]
pub struct DisplayInfo {
    pub fb_w: u32,
    pub fb_h: u32,
    pub cell_size: CellSize,
    pub cols: u32,
    pub rows: u32,
    pub detected_backend: Backend,
}

/// `a x b`
pub open spec fn times_text(a: u32, b: u32) -> Seq<u8> {
    dec_digits(a as nat) + seq![32u8, 120u8, 32u8] + dec_digits(b as nat)
}

/// Values of the display-information rows.
pub open spec fn info_values(di: DisplayInfo) -> Seq<Seq<u8>> {
    seq![
        times_text(di.fb_w, di.fb_h),
        times_text(di.cell_size.w, di.cell_size.h) + seq![32u8, 112u8, 120u8],  // " px"
        times_text(di.cols, di.rows) + seq![32u8, 99u8, 101u8, 108u8, 108u8, 115u8],  // " cells"
        backend_name(di.detected_backend),
    ]
}

fn push_times(out: &mut Vec<u8>, a: u32, b: u32)
    ensures
        final(out)@ == old(out)@ + times_text(a, b),
{
    push_decimal(out, a as u64);
    push_all(out, &[32u8, 120u8, 32u8]);
    push_decimal(out, b as u64);
    proof {
        assert([32u8, 120u8, 32u8]@ =~= seq![32u8, 120u8, 32u8]);
        assert(out@ =~= old(out)@ + times_text(a, b));
    }
}

fn info_value(di: &DisplayInfo, k: usize) -> (v: Vec<u8>)
    requires
        k < 4,
    ensures
        v@ == info_values(*di)[k as int],
{
    let mut v: Vec<u8> = Vec::new();
    if k == 0 {
        push_times(&mut v, di.fb_w, di.fb_h);
    } else if k == 1 {
        push_times(&mut v, di.cell_size.w, di.cell_size.h);
        push_all(&mut v, &[32u8, 112u8, 120u8]);
        proof {
            assert([32u8, 112u8, 120u8]@ =~= seq![32u8, 112u8, 120u8]);
        }
    } else if k == 2 {
        push_times(&mut v, di.cols, di.rows);
        push_all(&mut v, &[32u8, 99u8, 101u8, 108u8, 108u8, 115u8]);
        proof {
            assert([32u8, 99u8, 101u8, 108u8, 108u8, 115u8]@ =~= seq![
                32u8,
                99u8,
                101u8,
                108u8,
                108u8,
                115u8,
            ]);
        }
    } else {
        push_backend_name(&mut v, di.detected_backend);
    }
    proof {
        assert(v@ =~= info_values(*di)[k as int]);
    }
    v
}

impl HudState {
    /// The text shown for `item` (see [`value_text_spec`]); `millions` is
    /// the caller's rendering of `max_splats / 1e6` with one decimal, used
    /// from one million splats on.
    pub fn format_value(&self, item: HudItem, millions: &[u8]) -> (v: Option<Vec<u8>>)
        ensures
            match value_text_spec(*self, item, millions@) {
                Some(t) => v is Some && v->0@ == t,
                None => v is None,
            },
    {
        match item {
            HudItem::MaxSplats => {
                let mut label: Vec<u8> = Vec::new();
                if self.max_splats >= 1_000_000 {
                    push_all(&mut label, millions);
                    label.push(77u8);
                } else {
                    push_decimal(&mut label, (self.max_splats / 1000) as u64);
                    label.push(107u8);
                }
                let mut v: Vec<u8> = Vec::new();
                if self.total_splats > 0 && self.max_splats >= self.total_splats {
                    push_all(&mut v, &[97u8, 108u8, 108u8, 47u8]);
                    proof {
                        assert([97u8, 108u8, 108u8, 47u8]@ =~= seq![97u8, 108u8, 108u8, 47u8]);
                    }
                }
                push_all(&mut v, label.as_slice());
                proof {
                    assert(v@ =~= max_splats_text(*self, millions@));
                }
                Some(v)
            },
            HudItem::Sigmoid => {
                if self.apply_sigmoid {
                    let a = [79u8, 78u8];
                    proof {
                        assert(a@ =~= seq![79u8, 78u8]);
                    }
                    Some(bytes_to_vec(&a))
                } else {
                    let a = [79u8, 70u8, 70u8];
                    proof {
                        assert(a@ =~= seq![79u8, 70u8, 70u8]);
                    }
                    Some(bytes_to_vec(&a))
                }
            },
            HudItem::NumThreads => {
                if self.num_threads == 0 {
                    let a = [97u8, 108u8, 108u8];
                    proof {
                        assert(a@ =~= seq![97u8, 108u8, 108u8]);
                    }
                    Some(bytes_to_vec(&a))
                } else {
                    let mut v: Vec<u8> = Vec::new();
                    push_decimal(&mut v, self.num_threads as u64);
                    Some(v)
                }
            },
            HudItem::RenderBackend => {
                let mut v: Vec<u8> = Vec::new();
                push_backend_name(&mut v, self.backend);
                if self.detected_backend != Backend::Kitty {
                    let a = [32u8, 40u8, 111u8, 110u8, 108u8, 121u8, 41u8];
                    push_all(&mut v, &a);
                    proof {
                        assert(a@ =~= seq![32u8, 40u8, 111u8, 110u8, 108u8, 121u8, 41u8]);
                    }
                }
                proof {
                    assert(v@ =~= value_text_spec(*self, item, millions@)->0);
                }
                Some(v)
            },
            HudItem::PixelDensity => {
                if self.backend == Backend::Kitty {
                    None
                } else {
                    let a = [110u8, 47u8, 97u8];
                    proof {
                        assert(a@ =~= seq![110u8, 47u8, 97u8]);
                    }
                    Some(bytes_to_vec(&a))
                }
            },
            _ => None,
        }
    }
}

/// The byte strings held by `v`.
pub open spec fn views(v: Seq<Vec<u8>>) -> Seq<Seq<u8>> {
    Seq::new(v.len(), |i: int| v[i]@)
}

/// Colours of the title line: bold bright white on black.
pub open spec fn sgr_title() -> Seq<u8> {
    seq![27u8, 91u8, 49u8, 59u8, 57u8, 55u8, 59u8, 52u8, 48u8, 109u8]
}

/// Colours of a section heading: grey on black.
pub open spec fn sgr_heading() -> Seq<u8> {
    seq![27u8, 91u8, 57u8, 48u8, 59u8, 52u8, 48u8, 109u8]
}

/// Colours of the focused item: black on bright white.
pub open spec fn sgr_focus() -> Seq<u8> {
    seq![27u8, 91u8, 51u8, 48u8, 59u8, 49u8, 48u8, 55u8, 109u8]
}

/// Colours of every other line: bright white on black.
pub open spec fn sgr_plain() -> Seq<u8> {
    seq![27u8, 91u8, 57u8, 55u8, 59u8, 52u8, 48u8, 109u8]
}

/// ` [HUD] Tab to close`
pub open spec fn title_text() -> Seq<u8> {
    seq![
        32u8, 91u8, 72u8, 85u8, 68u8, 93u8, 32u8, 84u8, 97u8, 98u8, 32u8, 116u8, 111u8, 32u8,
        99u8, 108u8, 111u8, 115u8, 101u8,
    ]
}

/// ` -- NAME ` followed by dashes to the panel width.
pub open spec fn section_heading(name: Seq<u8>) -> Seq<u8> {
    pad_end(seq![32u8, 45u8, 45u8, 32u8] + name + seq![32u8], HUD_WIDTH as int, 45u8)
}

/// `Display Info`
pub open spec fn display_info_name() -> Seq<u8> {
    seq![68u8, 105u8, 115u8, 112u8, 108u8, 97u8, 121u8, 32u8, 73u8, 110u8, 102u8, 111u8]
}

/// `Camera State`
pub open spec fn camera_state_name() -> Seq<u8> {
    seq![67u8, 97u8, 109u8, 101u8, 114u8, 97u8, 32u8, 83u8, 116u8, 97u8, 116u8, 101u8]
}

/// An item line: a `>` marker on the focused item, the label in twelve
/// columns, the value right-aligned in eight.
pub open spec fn item_text(focused: bool, label: Seq<u8>, value: Seq<u8>) -> Seq<u8> {
    seq![32u8, if focused {
        62u8
    } else {
        32u8
    }, 32u8] + pad_end(label, 12, 32u8) + seq![32u8] + pad_start(value, 8)
}

/// A read-only row: the label in twelve columns after an indent, the value
/// right-aligned in eight.
pub open spec fn row_text(label: Seq<u8>, value: Seq<u8>) -> Seq<u8> {
    seq![32u8, 32u8, 32u8] + pad_end(label, 12, 32u8) + seq![32u8] + pad_start(value, 8)
}

/// Number of group headings above the first `k` items.
pub open spec fn group_count(k: int) -> int
    decreases k,
{
    if k <= 0 {
        0
    } else {
        group_count(k - 1) + if group_spec(k - 1) is Some {
            1int
        } else {
            0int
        }
    }
}

/// The value shown for item `i`: its own text where the state decides it,
/// otherwise the caller's text for the real-valued setting.
pub open spec fn shown_value(s: HudState, values: Seq<Seq<u8>>, millions: Seq<u8>, i: int) -> Seq<
    u8,
> {
    match value_text_spec(s, item_spec(i), millions) {
        Some(t) => t,
        None => values[i],
    }
}

/// The lines of item `i`: its group heading where one starts there, then
/// the item itself.
pub open spec fn item_block(s: HudState, values: Seq<Seq<u8>>, millions: Seq<u8>, i: int) -> Seq<
    u8,
> {
    let row = 2 + i + group_count(i);
    let focused = i == s.cursor;
    let line = item_text(focused, label_spec(item_spec(i)), shown_value(s, values, millions, i));
    let sgr = if focused {
        sgr_focus()
    } else {
        sgr_plain()
    };
    match group_spec(i) {
        Some(g) => hud_line(row, sgr_heading(), section_heading(g)) + hud_line(row + 1, sgr, line),
        None => hud_line(row, sgr, line),
    }
}

/// The lines of the first `k` items.
pub open spec fn item_lines(s: HudState, values: Seq<Seq<u8>>, millions: Seq<u8>, k: int) -> Seq<
    u8,
>
    decreases k,
{
    if k <= 0 {
        seq![]
    } else {
        item_lines(s, values, millions, k - 1) + item_block(s, values, millions, k - 1)
    }
}

/// In the drawn panel the line of item `i` carries the `>` marker and the
/// focus colours (black on bright white, `ESC [ 30 ; 107 m`) exactly when
/// `i` is the cursor position; every other item line is drawn unmarked in
/// bright white on black (`ESC [ 97 ; 40 m`).
pub proof fn lemma_highlight_follows_cursor(
    s: HudState,
    values: Seq<Seq<u8>>,
    millions: Seq<u8>,
    i: int,
) -> (split: (Seq<u8>, int, Seq<u8>))
    requires
        0 <= i < HUD_ITEM_COUNT,
    ensures
        item_block(s, values, millions, i) == split.0 + hud_line(
            split.1,
            if i == s.cursor {
                seq![27u8, 91u8, 51u8, 48u8, 59u8, 49u8, 48u8, 55u8, 109u8]
            } else {
                seq![27u8, 91u8, 57u8, 55u8, 59u8, 52u8, 48u8, 109u8]
            },
            split.2,
        ),
        split.2.len() >= 3,
        split.2[0] == 32u8,
        split.2[1] == (if i == s.cursor {
            62u8
        } else {
            32u8
        }),
        split.2[2] == 32u8,
{
    let row = 2 + i + group_count(i);
    let focused = i == s.cursor;
    let line = item_text(focused, label_spec(item_spec(i)), shown_value(s, values, millions, i));
    let sgr = if focused {
        sgr_focus()
    } else {
        sgr_plain()
    };
    match group_spec(i) {
        Some(g) => {
            let pre = hud_line(row, sgr_heading(), section_heading(g));
            assert(item_block(s, values, millions, i) == pre + hud_line(row + 1, sgr, line));
            (pre, row + 1, line)
        },
        None => {
            assert(item_block(s, values, millions, i) =~= seq![] + hud_line(row, sgr, line));
            (seq![], row, line)
        },
    }
}

/// The first `k` read-only rows, from terminal row `first`.
pub open spec fn row_lines(labels: Seq<Seq<u8>>, values: Seq<Seq<u8>>, first: int, k: int) -> Seq<
    u8,
>
    decreases k,
{
    if k <= 0 {
        seq![]
    } else {
        row_lines(labels, values, first, k - 1) + hud_line(
            first + k - 1,
            sgr_plain(),
            row_text(labels[k - 1], values[k - 1]),
        )
    }
}

/// The whole panel: nothing while hidden; otherwise the title on row 1,
/// the items with their group headings from row 2 to 19, the display
/// information under its heading on rows 20 to 24 and the camera state
/// under its heading on rows 25 to 35.
pub open spec fn hud_frame(
    s: HudState,
    values: Seq<Seq<u8>>,
    millions: Seq<u8>,
    di: DisplayInfo,
    camera: Seq<Seq<u8>>,
) -> Seq<u8> {
    if !s.visible {
        seq![]
    } else {
        hud_line(1, sgr_title(), title_text()) + item_lines(s, values, millions, HUD_ITEM_COUNT as int)
            + hud_line(20, sgr_heading(), section_heading(display_info_name())) + row_lines(
            info_labels(),
            info_values(di),
            21,
            4,
        ) + hud_line(25, sgr_heading(), section_heading(camera_state_name())) + row_lines(
            camera_labels(),
            camera,
            26,
            10,
        )
    }
}

fn section_heading_vec(name: &[u8]) -> (v: Vec<u8>)
    ensures
        v@ == section_heading(name@),
{
    let mut t: Vec<u8> = Vec::new();
    push_all(&mut t, &[32u8, 45u8, 45u8, 32u8]);
    push_all(&mut t, name);
    t.push(32u8);
    let mut v: Vec<u8> = Vec::new();
    push_pad_end(&mut v, t.as_slice(), HUD_WIDTH, 45u8);
    proof {
        assert([32u8, 45u8, 45u8, 32u8]@ =~= seq![32u8, 45u8, 45u8, 32u8]);
        assert(t@ =~= seq![32u8, 45u8, 45u8, 32u8] + name@ + seq![32u8]);
    }
    v
}

fn item_text_vec(focused: bool, label: &[u8], value: &[u8]) -> (v: Vec<u8>)
    ensures
        v@ == item_text(focused, label@, value@),
{
    let mut v: Vec<u8> = Vec::new();
    v.push(32u8);
    v.push(
        if focused {
            62u8
        } else {
            32u8
        },
    );
    v.push(32u8);
    push_pad_end(&mut v, label, 12, 32u8);
    v.push(32u8);
    push_pad_start(&mut v, value, 8);
    proof {
        assert(v@ =~= item_text(focused, label@, value@));
    }
    v
}

fn row_text_vec(label: &[u8], value: &[u8]) -> (v: Vec<u8>)
    ensures
        v@ == row_text(label@, value@),
{
    let mut v: Vec<u8> = Vec::new();
    push_all(&mut v, &[32u8, 32u8, 32u8]);
    push_pad_end(&mut v, label, 12, 32u8);
    v.push(32u8);
    push_pad_start(&mut v, value, 8);
    proof {
        assert([32u8, 32u8, 32u8]@ =~= seq![32u8, 32u8, 32u8]);
        assert(v@ =~= row_text(label@, value@));
    }
    v
}

fn push_row_lines(out: &mut Vec<u8>, labels: &[Vec<u8>], values: &[Vec<u8>], first: usize)
    requires
        labels@.len() == values@.len(),
        first + labels@.len() <= usize::MAX,
    ensures
        final(out)@ == old(out)@ + row_lines(
            views(labels@),
            views(values@),
            first as int,
            labels@.len() as int,
        ),
{
    let plain = [27u8, 91u8, 57u8, 55u8, 59u8, 52u8, 48u8, 109u8];
    proof {
        assert(plain@ =~= sgr_plain());
    }
    let n = labels.len();
    let mut k: usize = 0;
    while k < n
        invariant
            n == labels@.len(),
            labels@.len() == values@.len(),
            first + n <= usize::MAX,
            plain@ == sgr_plain(),
            k <= n,
            out@ == old(out)@ + row_lines(views(labels@), views(values@), first as int, k as int),
        decreases n - k,
    {
        let text = row_text_vec(labels[k].as_slice(), values[k].as_slice());
        push_hud_line(out, first + k, &plain, text.as_slice());
        proof {
            assert(views(labels@)[k as int] == labels@[k as int]@);
            assert(views(values@)[k as int] == values@[k as int]@);
            assert(out@ =~= old(out)@ + row_lines(
                views(labels@),
                views(values@),
                first as int,
                k + 1,
            ));
        }
        k += 1;
    }
}

proof fn lemma_group_count_step(i: int)
    requires
        0 <= i,
    ensures
        group_count(i + 1) == group_count(i) + if group_spec(i) is Some {
            1int
        } else {
            0int
        },
{
}

impl HudState {
    /// Appends the lines of item `i` (its group heading first where one
    /// starts there), the first of them on `row`; returns the next row.
    fn push_item_block(
        &self,
        out: &mut Vec<u8>,
        values: &[Vec<u8>],
        millions: &[u8],
        i: usize,
        row: usize,
    ) -> (next: usize)
        requires
            self.wf(),
            values@.len() == HUD_ITEM_COUNT,
            i < HUD_ITEM_COUNT,
            row == 2 + i + group_count(i as int),
            group_count(i as int) <= i,
        ensures
            final(out)@ == old(out)@ + item_block(*self, views(values@), millions@, i as int),
            next == row + 1 + if group_spec(i as int) is Some {
                1int
            } else {
                0int
            },
    {
        let heading_sgr = [27u8, 91u8, 57u8, 48u8, 59u8, 52u8, 48u8, 109u8];
        let focus_sgr = [27u8, 91u8, 51u8, 48u8, 59u8, 49u8, 48u8, 55u8, 109u8];
        let plain_sgr = [27u8, 91u8, 57u8, 55u8, 59u8, 52u8, 48u8, 109u8];
        proof {
            assert(heading_sgr@ =~= sgr_heading());
            assert(focus_sgr@ =~= sgr_focus());
            assert(plain_sgr@ =~= sgr_plain());
        }
        let mut row = row;
        match group_of(i) {
            Some(name) => {
                let heading = section_heading_vec(name.as_slice());
                push_hud_line(out, row, &heading_sgr, heading.as_slice());
                row += 1;
            },
            None => {},
        }
        let item = item_at(i);
        let label = label_of(item);
        let focused = i == self.cursor;
        let own = self.format_value(item, millions);
        let text = match &own {
            Some(t) => item_text_vec(focused, label.as_slice(), t.as_slice()),
            None => item_text_vec(focused, label.as_slice(), values[i].as_slice()),
        };
        if focused {
            push_hud_line(out, row, &focus_sgr, text.as_slice());
        } else {
            push_hud_line(out, row, &plain_sgr, text.as_slice());
        }
        proof {
            assert(views(values@)[i as int] == values@[i as int]@);
            assert(out@ =~= old(out)@ + item_block(*self, views(values@), millions@, i as int));
        }
        row + 1
    }

    /// Appends the cursor-addressed panel to `out`; nothing while the panel
    /// is hidden. `values` holds, in list order, the caller's text of each
    /// real-valued setting (the other entries are not read), `millions` the
    /// splat cap in millions as [`HudState::format_value`] takes it, and
    /// `camera` the ten camera-state values (yaw, pitch, radius, fov_y,
    /// position, target).
    pub fn render(
        &self,
        values: &[Vec<u8>],
        millions: &[u8],
        di: &DisplayInfo,
        camera: &[Vec<u8>],
        out: &mut Vec<u8>,
    )
        requires
            self.wf(),
            values@.len() == HUD_ITEM_COUNT,
            camera@.len() == 10,
        ensures
            final(out)@ == old(out)@ + hud_frame(
                *self,
                views(values@),
                millions@,
                *di,
                views(camera@),
            ),
    {
        if !self.visible {
            proof {
                assert(out@ =~= old(out)@ + hud_frame(
                    *self,
                    views(values@),
                    millions@,
                    *di,
                    views(camera@),
                ));
            }
            return ;
        }
        let title_sgr = [27u8, 91u8, 49u8, 59u8, 57u8, 55u8, 59u8, 52u8, 48u8, 109u8];
        let heading_sgr = [27u8, 91u8, 57u8, 48u8, 59u8, 52u8, 48u8, 109u8];
        let title = [
            32u8, 91u8, 72u8, 85u8, 68u8, 93u8, 32u8, 84u8, 97u8, 98u8, 32u8, 116u8, 111u8, 32u8,
            99u8, 108u8, 111u8, 115u8, 101u8,
        ];
        proof {
            assert(title_sgr@ =~= sgr_title());
            assert(heading_sgr@ =~= sgr_heading());
            assert(title@ =~= title_text());
        }
        let ghost start = out@;
        let ghost vals = views(values@);
        push_hud_line(out, 1, &title_sgr, &title);
        let mut row: usize = 2;
        let mut i: usize = 0;
        while i < HUD_ITEM_COUNT
            invariant
                self.wf(),
                values@.len() == HUD_ITEM_COUNT,
                vals == views(values@),
                heading_sgr@ == sgr_heading(),
                i <= HUD_ITEM_COUNT,
                row == 2 + i + group_count(i as int),
                group_count(i as int) <= i,
                out@ == start + hud_line(1, sgr_title(), title_text()) + item_lines(
                    *self,
                    vals,
                    millions@,
                    i as int,
                ),
            decreases HUD_ITEM_COUNT - i,
        {
            proof {
                lemma_group_count_step(i as int);
            }
            row = self.push_item_block(out, values, millions, i, row);
            proof {
                assert(out@ =~= start + hud_line(1, sgr_title(), title_text()) + item_lines(
                    *self,
                    vals,
                    millions@,
                    i + 1,
                ));
            }
            i += 1;
        }
        proof {
            reveal_with_fuel(group_count, 14);
            assert(row == 20);
        }
        let ghost after_items = out@;
        let info_name = [68u8, 105u8, 115u8, 112u8, 108u8, 97u8, 121u8, 32u8, 73u8, 110u8, 102u8, 111u8];
        proof {
            assert(info_name@ =~= display_info_name());
        }
        let heading = section_heading_vec(&info_name);
        push_hud_line(out, 20, &heading_sgr, heading.as_slice());
        let mut info_lbls: Vec<Vec<u8>> = Vec::new();
        let mut info_vals: Vec<Vec<u8>> = Vec::new();
        let mut k: usize = 0;
        while k < 4
            invariant
                k <= 4,
                info_lbls@.len() == k,
                info_vals@.len() == k,
                forall|j: int| 0 <= j < k ==> #[trigger] info_lbls@[j]@ == info_labels()[j],
                forall|j: int| 0 <= j < k ==> #[trigger] info_vals@[j]@ == info_values(*di)[j],
            decreases 4 - k,
        {
            info_lbls.push(info_label(k));
            info_vals.push(info_value(di, k));
            k += 1;
        }
        proof {
            assert(views(info_lbls@) =~= info_labels());
            assert(views(info_vals@) =~= info_values(*di));
        }
        push_row_lines(out, info_lbls.as_slice(), info_vals.as_slice(), 21);
        let ghost after_info = out@;
        let cam_name = [67u8, 97u8, 109u8, 101u8, 114u8, 97u8, 32u8, 83u8, 116u8, 97u8, 116u8, 101u8];
        proof {
            assert(cam_name@ =~= camera_state_name());
        }
        let heading = section_heading_vec(&cam_name);
        push_hud_line(out, 25, &heading_sgr, heading.as_slice());
        let mut cam_lbls: Vec<Vec<u8>> = Vec::new();
        let mut k: usize = 0;
        while k < 10
            invariant
                k <= 10,
                cam_lbls@.len() == k,
                forall|j: int| 0 <= j < k ==> #[trigger] cam_lbls@[j]@ == camera_labels()[j],
            decreases 10 - k,
        {
            cam_lbls.push(camera_label(k));
            k += 1;
        }
        proof {
            assert(views(cam_lbls@) =~= camera_labels());
        }
        push_row_lines(out, cam_lbls.as_slice(), camera, 26);
        proof {
            assert(out@ =~= old(out)@ + hud_frame(
                *self,
                views(values@),
                millions@,
                *di,
                views(camera@),
            ));
        }
    }
}

/// Column where a text of `len` characters starts when right-aligned on a
/// terminal of `cols` columns (1-based; column 1 when it does not fit).
pub open spec fn right_aligned_column(cols: int, len: int) -> int {
    (if cols > len {
        cols - len
    } else {
        0
    }) + 1
}

/// The frame-rate overlay: `text` right-aligned on row 1 in the plain
/// colours.
pub open spec fn fps_overlay(cols: u32, text: Seq<u8>) -> Seq<u8> {
    seq![27u8, 91u8, 49u8, 59u8] + dec_digits(right_aligned_column(cols as int, text.len() as int) as nat)
        + seq![72u8] + sgr_plain() + text + seq![27u8, 91u8, 48u8, 109u8]
}

/// Appends the frame-rate overlay for a terminal `cols` wide.
pub fn write_fps_overlay(out: &mut Vec<u8>, cols: u32, text: &[u8])
    ensures
        final(out)@ == old(out)@ + fps_overlay(cols, text@),
{
    let n = text.len() as u64;
    let c = cols as u64;
    let col: u64 = if c > n {
        c - n + 1
    } else {
        1
    };
    let plain = [27u8, 91u8, 57u8, 55u8, 59u8, 52u8, 48u8, 109u8];
    push_all(out, &[27u8, 91u8, 49u8, 59u8]);
    push_decimal(out, col);
    out.push(72u8);
    push_all(out, &plain);
    push_all(out, text);
    push_all(out, &[27u8, 91u8, 48u8, 109u8]);
    proof {
        assert([27u8, 91u8, 49u8, 59u8]@ =~= seq![27u8, 91u8, 49u8, 59u8]);
        assert(plain@ =~= sgr_plain());
        assert([27u8, 91u8, 48u8, 109u8]@ =~= seq![27u8, 91u8, 48u8, 109u8]);
        assert(out@ =~= old(out)@ + fps_overlay(cols, text@));
    }
}

} // verus!
