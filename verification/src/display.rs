//! Terminal capability replies, cell geometry and the Kitty graphics frame.
use vstd::prelude::*;
use vstd::utf8::valid_utf8;
use crate::ansi::{dec_digits, push_all, push_decimal, push_signed_decimal, dec_signed};
use crate::framebuffer::{
    Rgb8, cursor_home, halfblock_frame, lemma_halfblock_never_clears, render_halfblocks,
};

verus! {

/// How frames reach the terminal.
#[derive(Clone, Copy, Debug, PartialEq, Eq, Structural)]
pub enum Backend {
    /// Two pixels per cell with `▀` and 24-bit colours.
    HalfBlock,
    /// Full-resolution images through the Kitty graphics protocol.
    Kitty,
}

impl Backend {
    /// Short lower-case name of the backend.
    pub fn name(self) -> (s: &'static str)
        ensures
            self == Backend::HalfBlock ==> s@ == "halfblock"@,
            self == Backend::Kitty ==> s@ == "kitty"@,
    {
        match self {
            Backend::HalfBlock => "halfblock",
            Backend::Kitty => "kitty",
        }
    }
}

/// Size of one terminal cell in pixels.
#[derive(Clone, Copy, Debug, PartialEq, Eq, Structural)]
pub struct CellSize {
    pub w: u32,
    pub h: u32,
}

impl Default for CellSize {
    /// One pixel wide and two high: the half-block geometry.
    fn default() -> (c: Self)
        ensures
            c == (CellSize { w: 1, h: 2 }),
    {
        CellSize { w: 1, h: 2 }
    }
}

/// Cell size from the window's pixel and cell dimensions, or `None` when
/// any of them is zero.
pub fn cell_size_from_window(pixel_w: u32, pixel_h: u32, cols: u32, rows: u32) -> (c: Option<
    CellSize,
>)
    ensures
        c == if pixel_w == 0 || pixel_h == 0 || cols == 0 || rows == 0 {
            None
        } else {
            Some(CellSize { w: pixel_w / cols, h: pixel_h / rows })
        },
{
    if pixel_w == 0 || pixel_h == 0 || cols == 0 || rows == 0 {
        return None;
    }
    Some(CellSize { w: pixel_w / cols, h: pixel_h / rows })
}

// ---------------------------------------------------------------------------
// Byte patterns in terminal replies.

/// `needle` occurs as a contiguous run in `haystack`.
pub open spec fn has_window(haystack: Seq<u8>, needle: Seq<u8>) -> bool {
    exists|i: int|
        0 <= i && i + needle.len() <= haystack.len() && #[trigger] haystack.subrange(
            i,
            i + needle.len(),
        ) == needle
}

fn window_eq(haystack: &[u8], start: usize, needle: &[u8]) -> (b: bool)
    requires
        start + needle@.len() <= haystack@.len(),
    ensures
        b == (haystack@.subrange(start as int, start + needle@.len()) == needle@),
{
    let _hl = haystack.len();
    let mut j: usize = 0;
    while j < needle.len()
        invariant
            start + needle@.len() <= haystack@.len(),
            haystack@.len() <= usize::MAX,
            0 <= j <= needle@.len(),
            forall|k: int| 0 <= k < j ==> haystack@[start + k] == needle@[k],
        decreases needle@.len() - j,
    {
        if haystack[start + j] != needle[j] {
            proof {
                assert(haystack@.subrange(start as int, start + needle@.len())[j as int]
                    != needle@[j as int]);
            }
            return false;
        }
        j += 1;
    }
    proof {
        assert(haystack@.subrange(start as int, start + needle@.len()) =~= needle@);
    }
    true
}

/// `needle` (non-empty) occurs as a contiguous run in `haystack`.
pub fn contains_subseq(haystack: &[u8], needle: &[u8]) -> (b: bool)
    requires
        needle@.len() > 0,
    ensures
        b == has_window(haystack@, needle@),
{
    let n = needle.len();
    let h = haystack.len();
    if n > h {
        return false;
    }
    let mut i: usize = 0;
    while i <= h - n
        invariant
            n == needle@.len(),
            h == haystack@.len(),
            n <= h,
            n > 0,
            0 <= i <= h - n + 1,
            forall|k: int|
                0 <= k < i ==> #[trigger] haystack@.subrange(k, k + n) != needle@,
        decreases h - n + 1 - i,
    {
        if window_eq(haystack, i, needle) {
            return true;
        }
        i += 1;
    }
    false
}

/// `ESC _ G i = 3 1 ; O K ESC \`: the Kitty graphics "OK" to image 31.
pub open spec fn kitty_ok_st() -> Seq<u8> {
    seq![27u8, 95u8, 71u8, 105u8, 61u8, 51u8, 49u8, 59u8, 79u8, 75u8, 27u8, 92u8]
}

/// The same reply closed by the one-byte string terminator `0x9c`.
pub open spec fn kitty_ok_c1() -> Seq<u8> {
    seq![27u8, 95u8, 71u8, 105u8, 61u8, 51u8, 49u8, 59u8, 79u8, 75u8, 0x9cu8]
}

/// `i=31;OK`, the core of the reply.
pub open spec fn kitty_ok_core() -> Seq<u8> {
    seq![105u8, 61u8, 51u8, 49u8, 59u8, 79u8, 75u8]
}

/// The terminal answered the Kitty graphics query with OK.
pub fn contains_kitty_ok(buf: &[u8]) -> (b: bool)
    ensures
        b == (has_window(buf@, kitty_ok_st()) || has_window(buf@, kitty_ok_c1()) || has_window(
            buf@,
            kitty_ok_core(),
        )),
{
    let st: [u8; 12] = [27u8, 95u8, 71u8, 105u8, 61u8, 51u8, 49u8, 59u8, 79u8, 75u8, 27u8, 92u8];
    let c1: [u8; 11] = [27u8, 95u8, 71u8, 105u8, 61u8, 51u8, 49u8, 59u8, 79u8, 75u8, 0x9cu8];
    let core: [u8; 7] = [105u8, 61u8, 51u8, 49u8, 59u8, 79u8, 75u8];
    proof {
        assert(st@ =~= kitty_ok_st());
        assert(c1@ =~= kitty_ok_c1());
        assert(core@ =~= kitty_ok_core());
    }
    contains_subseq(buf, st.as_slice()) || contains_subseq(buf, c1.as_slice()) || contains_subseq(
        buf,
        core.as_slice(),
    )
}

/// Either full form of the reply contains its core, so the answer is
/// exactly whether `i=31;OK` occurs.
pub proof fn lemma_kitty_ok_is_core(buf: Seq<u8>)
    ensures
        (has_window(buf, kitty_ok_st()) || has_window(buf, kitty_ok_c1()) || has_window(
            buf,
            kitty_ok_core(),
        )) == has_window(buf, kitty_ok_core()),
{
    if has_window(buf, kitty_ok_st()) {
        let i = choose|i: int|
            0 <= i && i + kitty_ok_st().len() <= buf.len() && #[trigger] buf.subrange(
                i,
                i + kitty_ok_st().len(),
            ) == kitty_ok_st();
        assert(buf.subrange(i + 3, i + 3 + 7) =~= kitty_ok_core()) by {
            assert forall|k: int| 0 <= k < 7 implies buf.subrange(i + 3, i + 10)[k]
                == kitty_ok_core()[k] by {
                assert(buf.subrange(i, i + 12)[k + 3] == kitty_ok_st()[k + 3]);
            }
        }
    }
    if has_window(buf, kitty_ok_c1()) {
        let i = choose|i: int|
            0 <= i && i + kitty_ok_c1().len() <= buf.len() && #[trigger] buf.subrange(
                i,
                i + kitty_ok_c1().len(),
            ) == kitty_ok_c1();
        assert(buf.subrange(i + 3, i + 3 + 7) =~= kitty_ok_core()) by {
            assert forall|k: int| 0 <= k < 7 implies buf.subrange(i + 3, i + 10)[k]
                == kitty_ok_core()[k] by {
                assert(buf.subrange(i, i + 11)[k + 3] == kitty_ok_c1()[k + 3]);
            }
        }
    }
}

/// `buf` holds a primary device attributes reply: `ESC [ ?` starting
/// before the last three bytes, followed somewhere later by `c`.
pub open spec fn has_da1_reply(buf: Seq<u8>) -> bool {
    exists|i: int, j: int|
        0 <= i && i + 3 < buf.len() && #[trigger] buf[i] == 27 && buf[i + 1] == 91 && buf[i + 2]
            == 63 && i + 3 <= j < buf.len() && #[trigger] buf[j] == 99
}

/// The terminal answered the primary device attributes query.
pub fn contains_da1_response(buf: &[u8]) -> (b: bool)
    ensures
        b == has_da1_reply(buf@),
{
    let n = buf.len();
    let end = if n >= 3 {
        n - 3
    } else {
        0
    };
    let mut i: usize = 0;
    while i < end
        invariant
            n == buf@.len(),
            end == if n >= 3 {
                n - 3
            } else {
                0
            },
            0 <= i <= end,
            forall|a: int, c: int|
                0 <= a < i && a + 3 < n && #[trigger] buf@[a] == 27 && buf@[a + 1] == 91 && buf@[a
                    + 2] == 63 && a + 3 <= c < n ==> #[trigger] buf@[c] != 99,
        decreases end - i,
    {
        if buf[i] == 27u8 && buf[i + 1] == 91u8 && buf[i + 2] == 63u8 {
            let mut j = i + 3;
            while j < n
                invariant
                    n == buf@.len(),
                    i + 3 < n,
                    buf@[i as int] == 27,
                    buf@[i + 1] == 91,
                    buf@[i + 2] == 63,
                    i + 3 <= j <= n,
                    forall|c: int| i + 3 <= c < j ==> buf@[c] != 99,
                decreases n - j,
            {
                if buf[j] == 99u8 {
                    proof {
                        let a = i as int;
                        let c = j as int;
                        assert(0 <= a && a + 3 < buf@.len() && buf@[a] == 27 && buf@[a + 1] == 91
                            && buf@[a + 2] == 63 && a + 3 <= c < buf@.len() && buf@[c] == 99);
                    }
                    return true;
                }
                j += 1;
            }
        }
        i += 1;
    }
    false
}

/// What a reply to the Kitty probe settles: `Some(true)` once the OK
/// arrived, `Some(false)` once only the attributes reply did, `None` while
/// neither is there.
pub fn kitty_probe_verdict(buf: &[u8]) -> (v: Option<bool>)
    ensures
        v == if has_window(buf@, kitty_ok_core()) {
            Some(true)
        } else if has_da1_reply(buf@) {
            Some(false)
        } else {
            None::<bool>
        },
{
    proof {
        lemma_kitty_ok_is_core(buf@);
    }
    if contains_kitty_ok(buf) {
        Some(true)
    } else if contains_da1_response(buf) {
        Some(false)
    } else {
        None
    }
}

// ---------------------------------------------------------------------------
// Cell size reply `ESC [ 6 ; height ; width t`.

/// Value of a run of ASCII digits.
pub open spec fn digits_value(s: Seq<u8>) -> nat
    decreases s.len(),
{
    if s.len() == 0 {
        0
    } else {
        digits_value(s.drop_last()) * 10 + (s.last() - 48) as nat
    }
}

/// Every byte is an ASCII digit.
pub open spec fn is_digit_run(s: Seq<u8>) -> bool {
    forall|i: int| 0 <= i < s.len() ==> 48 <= #[trigger] s[i] <= 57
}

/// A decimal `u32` as `str::parse` reads it: an optional `+`, then at least
/// one digit, and a value that fits.
pub open spec fn parse_u32_spec(s: Seq<u8>) -> Option<u32> {
    let digits = if s.len() > 0 && s[0] == 43 {
        s.subrange(1, s.len() as int)
    } else {
        s
    };
    if digits.len() == 0 || !is_digit_run(digits) || digits_value(digits) > u32::MAX {
        None
    } else {
        Some(digits_value(digits) as u32)
    }
}

/// Position of the first `b` at or after `i`, or `s.len()` when there is
/// none.
pub open spec fn find_from(s: Seq<u8>, b: u8, i: int) -> int
    decreases s.len() - i,
{
    if i < 0 || i >= s.len() {
        s.len() as int
    } else if s[i] == b {
        i
    } else {
        find_from(s, b, i + 1)
    }
}

/// The cell size that the reply scan finds from position `i` on: at the
/// first `ESC [ 6 ;` followed later by `t`, the parameters up to that `t`
/// must be UTF-8 and start with two `;`-separated numbers, or the scan
/// gives up; a reply with a zero dimension is skipped.
pub open spec fn cell_size_reply_from(buf: Seq<u8>, i: int) -> Option<CellSize>
    decreases buf.len() - i,
{
    if i < 0 || i + 6 >= buf.len() {
        None
    } else if buf[i] == 27 && buf[i + 1] == 91 && buf[i + 2] == 54 && buf[i + 3] == 59
        && find_from(buf, 116, i + 4) < buf.len() {
        let params = buf.subrange(i + 4, find_from(buf, 116, i + 4));
        let semi = find_from(params, 59, 0);
        if !valid_utf8(params) {
            None
        } else {
            match parse_u32_spec(params.subrange(0, semi)) {
                None => None,
                Some(h) => {
                    if semi >= params.len() {
                        None
                    } else {
                        let rest = params.subrange(semi + 1, params.len() as int);
                        match parse_u32_spec(rest.subrange(0, find_from(rest, 59, 0))) {
                            None => None,
                            Some(w) => {
                                if w > 0 && h > 0 {
                                    Some(CellSize { w, h })
                                } else {
                                    cell_size_reply_from(buf, i + 1)
                                }
                            },
                        }
                    }
                },
            }
        }
    } else {
        cell_size_reply_from(buf, i + 1)
    }
}

/// Calls `std::str::from_utf8` and reports whether it succeeded. Claimed,
/// as the standard library documents it: success exactly for well-formed
/// UTF-8 (vstd's `valid_utf8`).
#[verifier::external_body]
fn is_valid_utf8(bytes: &[u8]) -> (b: bool)
    ensures
        b == valid_utf8(bytes@),
{
    std::str::from_utf8(bytes).is_ok()
}

proof fn lemma_digits_prefix(s: Seq<u8>, i: int)
    requires
        0 <= i < s.len(),
    ensures
        digits_value(s.subrange(0, i + 1)) == digits_value(s.subrange(0, i)) * 10 + (s[i]
            - 48) as nat,
{
    assert(s.subrange(0, i + 1).drop_last() =~= s.subrange(0, i));
}

proof fn lemma_digits_grow(s: Seq<u8>, i: int)
    requires
        0 <= i <= s.len(),
        is_digit_run(s),
    ensures
        digits_value(s.subrange(0, i)) <= digits_value(s),
    decreases s.len() - i,
{
    if i < s.len() {
        lemma_digits_prefix(s, i);
        lemma_digits_grow(s, i + 1);
    } else {
        assert(s.subrange(0, i) =~= s);
    }
}

/// Parses `s` as `str::parse::<u32>` does.
pub fn parse_u32(s: &[u8]) -> (r: Option<u32>)
    ensures
        r == parse_u32_spec(s@),
{
    let n = s.len();
    if n == 0 {
        return None;
    }
    let start: usize = if s[0] == 43u8 {
        1
    } else {
        0
    };
    let ghost digits = if start == 1 {
        s@.subrange(1, n as int)
    } else {
        s@
    };
    if start == n {
        return None;
    }
    let mut v: u64 = 0;
    let mut i: usize = start;
    while i < n
        invariant
            n == s@.len(),
            start <= i <= n,
            start <= 1,
            start < n,
            (start == 1) == (s@[0] == 43),
            digits == s@.subrange(start as int, n as int),
            is_digit_run(digits.subrange(0, i - start)),
            v == digits_value(digits.subrange(0, i - start)),
            v <= u32::MAX,
        decreases n - i,
    {
        let b = s[i];
        if b < 48u8 || b > 57u8 {
            proof {
                assert(digits[i - start] == b);
                assert(!is_digit_run(digits));
                if start == 1 {
                    assert(s@[0] == 43);
                } else {
                    assert(s@[0] != 43);
                    assert(digits == s@);
                }
            }
            return None;
        }
        proof {
            lemma_digits_prefix(digits, i - start);
            assert(digits.subrange(0, i - start + 1) =~= digits.subrange(0, i - start).push(b));
        }
        v = v * 10 + (b - 48u8) as u64;
        if v > 0xFFFF_FFFFu64 {
            proof {
                assert(v == digits_value(digits.subrange(0, i - start + 1)));
                if is_digit_run(digits) {
                    lemma_digits_grow(digits, i - start + 1);
                }
                if start == 1 {
                    assert(s@[0] == 43);
                } else {
                    assert(s@[0] != 43);
                    assert(digits == s@);
                }
            }
            return None;
        }
        i += 1;
    }
    proof {
        assert(digits.subrange(0, n - start) =~= digits);
    }
    Some(v as u32)
}

/// First position at or after `from` in `s[..end]` that holds `b`, or `end`.
fn find_byte(s: &[u8], from: usize, end: usize, b: u8) -> (p: usize)
    requires
        from <= end <= s@.len(),
    ensures
        p == find_from(s@.subrange(0, end as int), b, from as int),
        from <= p <= end,
    decreases end - from,
{
    if from >= end {
        from
    } else if s[from] == b {
        from
    } else {
        find_byte(s, from + 1, end, b)
    }
}

proof fn lemma_find_shift(s: Seq<u8>, b: u8, lo: int, hi: int, i: int)
    requires
        0 <= lo <= i <= hi <= s.len(),
    ensures
        find_from(s.subrange(lo, hi), b, i - lo) + lo == find_from(s.subrange(0, hi), b, i),
    decreases hi - i,
{
    if i < hi {
        lemma_find_shift(s, b, lo, hi, i + 1);
    }
}

proof fn lemma_find_prefix(s: Seq<u8>, b: u8, i: int)
    requires
        0 <= i <= s.len(),
    ensures
        find_from(s.subrange(0, s.len() as int), b, i) == find_from(s, b, i),
{
    assert(s.subrange(0, s.len() as int) =~= s);
}

/// Reads a cell size reply `ESC [ 6 ; height ; width t` out of terminal
/// input.
pub fn parse_cell_size_response(buf: &[u8]) -> (r: Option<CellSize>)
    ensures
        r == cell_size_reply_from(buf@, 0),
{
    let n = buf.len();
    let end = if n >= 6 {
        n - 6
    } else {
        0
    };
    let mut i: usize = 0;
    while i < end
        invariant
            n == buf@.len(),
            end == if n >= 6 {
                n - 6
            } else {
                0
            },
            0 <= i <= end,
            cell_size_reply_from(buf@, 0) == cell_size_reply_from(buf@, i as int),
        decreases end - i,
    {
        if buf[i] == 27u8 && buf[i + 1] == 91u8 && buf[i + 2] == 54u8 && buf[i + 3] == 59u8 {
            let t_pos = find_byte(buf, i + 4, n, 116u8);
            proof {
                lemma_find_prefix(buf@, 116, i + 4);
            }
            if t_pos < n {
                let params = &buf[i + 4..t_pos];
                let ghost ps = params@;
                if !is_valid_utf8(params) {
                    return None;
                }
                let m = params.len();
                let semi = find_byte(params, 0, m, 59u8);
                proof {
                    lemma_find_prefix(ps, 59, 0);
                }
                let h_opt = parse_u32(&params[0..semi]);
                match h_opt {
                    None => {
                        return None;
                    },
                    Some(h) => {
                        if semi >= m {
                            return None;
                        }
                        let rest = &params[semi + 1..m];
                        let k = rest.len();
                        let semi2 = find_byte(rest, 0, k, 59u8);
                        proof {
                            lemma_find_prefix(rest@, 59, 0);
                            assert(ps.subrange(semi + 1, m as int) =~= rest@);
                        }
                        let w_opt = parse_u32(&rest[0..semi2]);
                        match w_opt {
                            None => {
                                return None;
                            },
                            Some(w) => {
                                if w > 0 && h > 0 {
                                    return Some(CellSize { w, h });
                                }
                            },
                        }
                    },
                }
            }
        }
        i += 1;
    }
    None
}

// ---------------------------------------------------------------------------
// Base64 and the Kitty graphics frame.

/// Character of the 6-bit value `v` in the standard Base64 alphabet.
pub open spec fn b64_char(v: int) -> u8 {
    if v < 26 {
        (65 + v) as u8
    } else if v < 52 {
        (97 + v - 26) as u8
    } else if v < 62 {
        (48 + v - 52) as u8
    } else if v == 62 {
        43u8
    } else {
        47u8
    }
}

/// Standard Base64 (RFC 4648) with `=` padding.
pub open spec fn b64_encode(d: Seq<u8>) -> Seq<u8>
    decreases d.len(),
{
    if d.len() >= 3 {
        seq![
            b64_char((d[0] as int) / 4),
            b64_char(((d[0] as int) % 4) * 16 + (d[1] as int) / 16),
            b64_char(((d[1] as int) % 16) * 4 + (d[2] as int) / 64),
            b64_char((d[2] as int) % 64),
        ] + b64_encode(d.subrange(3, d.len() as int))
    } else if d.len() == 2 {
        seq![
            b64_char((d[0] as int) / 4),
            b64_char(((d[0] as int) % 4) * 16 + (d[1] as int) / 16),
            b64_char(((d[1] as int) % 16) * 4),
            61u8,
        ]
    } else if d.len() == 1 {
        seq![b64_char((d[0] as int) / 4), b64_char(((d[0] as int) % 4) * 16), 61u8, 61u8]
    } else {
        seq![]
    }
}

fn b64_char_exec(v: u32) -> (c: u8)
    requires
        v < 64,
    ensures
        c == b64_char(v as int),
{
    if v < 26 {
        (65 + v) as u8
    } else if v < 52 {
        (97 + v - 26) as u8
    } else if v < 62 {
        (48 + v - 52) as u8
    } else if v == 62 {
        43u8
    } else {
        47u8
    }
}

/// Appends the Base64 encoding of `data` to `out`.
pub fn base64_encode_into(data: &[u8], out: &mut Vec<u8>)
    ensures
        final(out)@ == old(out)@ + b64_encode(data@),
{
    let ghost d = data@;
    let len = data.len();
    let mut i: usize = 0;
    proof {
        assert(d.subrange(0, d.len() as int) =~= d);
    }
    while len - i > 2
        invariant
            d == data@,
            len == d.len(),
            0 <= i <= len,
            old(out)@ + b64_encode(d) == out@ + b64_encode(d.subrange(i as int, len as int)),
        decreases len - i,
    {
        let b0 = data[i] as u32;
        let b1 = data[i + 1] as u32;
        let b2 = data[i + 2] as u32;
        let triple = (b0 << 16u32) | (b1 << 8u32) | b2;
        proof {
            assert(((triple >> 18u32) & 0x3Fu32) == b0 / 4 && ((triple >> 12u32) & 0x3Fu32) == (b0
                % 4) * 16 + b1 / 16 && ((triple >> 6u32) & 0x3Fu32) == (b1 % 16) * 4 + b2 / 64 && (
            triple & 0x3Fu32) == b2 % 64) by (bit_vector)
                requires
                    b0 < 256,
                    b1 < 256,
                    b2 < 256,
                    triple == (b0 << 16u32) | (b1 << 8u32) | b2,
            ;
        }
        let ghost before = out@;
        out.push(b64_char_exec((triple >> 18u32) & 0x3F));
        out.push(b64_char_exec((triple >> 12u32) & 0x3F));
        out.push(b64_char_exec((triple >> 6u32) & 0x3F));
        out.push(b64_char_exec(triple & 0x3F));
        proof {
            let rest = d.subrange(i as int, len as int);
            assert(rest.subrange(3, rest.len() as int) =~= d.subrange(i + 3, len as int));
            assert(rest[0] == d[i as int] && rest[1] == d[i + 1] && rest[2] == d[i + 2]);
            assert(out@ =~= before + seq![
                b64_char((rest[0] as int) / 4),
                b64_char(((rest[0] as int) % 4) * 16 + (rest[1] as int) / 16),
                b64_char(((rest[1] as int) % 16) * 4 + (rest[2] as int) / 64),
                b64_char((rest[2] as int) % 64),
            ]);
        }
        i += 3;
    }
    let remaining = len - i;
    let ghost before = out@;
    let ghost rest = d.subrange(i as int, len as int);
    if remaining == 1 {
        let b0 = data[i] as u32;
        proof {
            assert(b0 >> 2u32 == b0 / 4 && (b0 & 0x03u32) << 4u32 == (b0 % 4) * 16) by (bit_vector)
                requires
                    b0 < 256,
            ;
        }
        out.push(b64_char_exec(b0 >> 2u32));
        out.push(b64_char_exec((b0 & 0x03) << 4u32));
        out.push(61u8);
        out.push(61u8);
        proof {
            assert(rest[0] == d[i as int]);
            assert(out@ =~= before + b64_encode(rest));
        }
    } else if remaining == 2 {
        let b0 = data[i] as u32;
        let b1 = data[i + 1] as u32;
        proof {
            assert(b0 >> 2u32 == b0 / 4 && (((b0 & 0x03u32) << 4u32) | (b1 >> 4u32)) == (b0 % 4) * 16
                + b1 / 16 && (b1 & 0x0Fu32) << 2u32 == (b1 % 16) * 4) by (bit_vector)
                requires
                    b0 < 256,
                    b1 < 256,
            ;
        }
        out.push(b64_char_exec(b0 >> 2u32));
        out.push(b64_char_exec(((b0 & 0x03) << 4u32) | (b1 >> 4u32)));
        out.push(b64_char_exec((b1 & 0x0F) << 2u32));
        out.push(61u8);
        proof {
            assert(rest[0] == d[i as int] && rest[1] == d[i + 1]);
            assert(out@ =~= before + b64_encode(rest));
        }
    } else {
        proof {
            assert(rest.len() == 0);
            assert(out@ =~= before + b64_encode(rest));
        }
    }
}

/// Every byte is ASCII (below 128).
pub open spec fn is_ascii_bytes(s: Seq<u8>) -> bool {
    forall|i: int| 0 <= i < s.len() ==> #[trigger] s[i] < 128
}

/// Base64 output is four characters per started group of three bytes, all
/// ASCII.
pub proof fn lemma_b64_shape(d: Seq<u8>)
    ensures
        b64_encode(d).len() == 4 * ((d.len() + 2) / 3),
        is_ascii_bytes(b64_encode(d)),
    decreases d.len(),
{
    if d.len() >= 3 {
        lemma_b64_shape(d.subrange(3, d.len() as int));
    }
}

/// The 6-bit value of a Base64 character (the inverse of [`b64_char`]).
pub open spec fn b64_value(c: u8) -> int {
    if 65 <= c <= 90 {
        c - 65
    } else if 97 <= c <= 122 {
        c - 71
    } else if 48 <= c <= 57 {
        c + 4
    } else if c == 43 {
        62
    } else {
        63
    }
}

/// Decodes one group of four Base64 characters: three bytes, or fewer
/// where the group ends in `=` padding.
pub open spec fn b64_decode_group(g: Seq<u8>) -> Seq<u8> {
    let v0 = b64_value(g[0]);
    let v1 = b64_value(g[1]);
    let v2 = b64_value(g[2]);
    let v3 = b64_value(g[3]);
    let x0 = (v0 * 4 + v1 / 16) as u8;
    let x1 = ((v1 % 16) * 16 + v2 / 4) as u8;
    let x2 = ((v2 % 4) * 64 + v3) as u8;
    if g[2] == 61 {
        seq![x0]
    } else if g[3] == 61 {
        seq![x0, x1]
    } else {
        seq![x0, x1, x2]
    }
}

/// Standard Base64 decoding, group by group.
pub open spec fn b64_decode(t: Seq<u8>) -> Seq<u8>
    decreases t.len(),
{
    if t.len() < 4 {
        seq![]
    } else {
        b64_decode_group(t.subrange(0, 4)) + b64_decode(t.subrange(4, t.len() as int))
    }
}

proof fn lemma_b64_char_value(v: int)
    requires
        0 <= v < 64,
    ensures
        b64_value(b64_char(v)) == v,
        b64_char(v) != 61,
{
}

/// Base64 output decodes back to the bytes it was made from.
pub proof fn lemma_b64_round_trip(d: Seq<u8>)
    ensures
        b64_decode(b64_encode(d)) == d,
    decreases d.len(),
{
    let e = b64_encode(d);
    if d.len() == 0 {
        assert(d =~= Seq::<u8>::empty());
    } else {
        let b0 = d[0] as int;
        lemma_b64_char_value(b0 / 4);
        if d.len() == 1 {
            lemma_b64_char_value((b0 % 4) * 16);
            assert(e.subrange(0, 4) =~= e);
            assert(e.subrange(4, 4) =~= Seq::<u8>::empty());
            assert(b64_decode(e.subrange(4, 4)) =~= Seq::<u8>::empty());
            assert(b64_decode_group(e) =~= d);
        } else {
            let b1 = d[1] as int;
            lemma_b64_char_value((b0 % 4) * 16 + b1 / 16);
            if d.len() == 2 {
                lemma_b64_char_value((b1 % 16) * 4);
                assert(e.subrange(0, 4) =~= e);
                assert(e.subrange(4, 4) =~= Seq::<u8>::empty());
                assert(b64_decode(e.subrange(4, 4)) =~= Seq::<u8>::empty());
                assert(b64_decode_group(e) =~= d);
            } else {
                let b2 = d[2] as int;
                lemma_b64_char_value((b1 % 16) * 4 + b2 / 64);
                lemma_b64_char_value(b2 % 64);
                let rest = d.subrange(3, d.len() as int);
                lemma_b64_round_trip(rest);
                let g = e.subrange(0, 4);
                assert(e.subrange(4, e.len() as int) =~= b64_encode(rest));
                assert(b64_decode_group(g) =~= d.subrange(0, 3));
                assert(d =~= d.subrange(0, 3) + rest);
            }
        }
    }
}

/// Depth of the Kitty image: below text cells, also those with a
/// background colour, so overlays stay visible.
pub const KITTY_IMG_Z_UNDER_UI: i32 = -1_073_741_825;

/// Bytes of Base64 payload per graphics escape.
pub const KITTY_CHUNK: usize = 4096;

/// Parameters of one transmitted Kitty image.
#[derive(Clone, Copy, Debug, PartialEq, Eq, Structural)]
pub struct KittyImage {
    /// Image width in pixels.
    pub width: u32,
    /// Image height in pixels.
    pub height: u32,
    /// Terminal columns the image is scaled to.
    pub cols: u32,
    /// Terminal rows the image is scaled to.
    pub rows: u32,
    /// Image and placement id (the next frame replaces it).
    pub id: u32,
}

/// `ESC _ G a=T,f=24,t=d,s=W,v=H,c=C,r=R,i=ID,p=1,q=2,C=1,z=Z,m=M;`
pub open spec fn kitty_first_header(img: KittyImage, m: nat) -> Seq<u8> {
    seq![
        27u8, 95u8, 71u8, 97u8, 61u8, 84u8, 44u8, 102u8, 61u8, 50u8, 52u8, 44u8, 116u8, 61u8,
        100u8, 44u8, 115u8, 61u8,
    ] + dec_digits(img.width as nat) + seq![44u8, 118u8, 61u8] + dec_digits(img.height as nat)
        + seq![44u8, 99u8, 61u8] + dec_digits(img.cols as nat) + seq![44u8, 114u8, 61u8]
        + dec_digits(img.rows as nat) + seq![44u8, 105u8, 61u8] + dec_digits(img.id as nat) + seq![
        44u8, 112u8, 61u8, 49u8, 44u8, 113u8, 61u8, 50u8, 44u8, 67u8, 61u8, 49u8, 44u8, 122u8,
        61u8,
    ] + dec_signed(KITTY_IMG_Z_UNDER_UI as int) + seq![44u8, 109u8, 61u8] + dec_digits(m)
        + seq![59u8]
}

/// `ESC _ G m=M;`
pub open spec fn kitty_next_header(m: nat) -> Seq<u8> {
    seq![27u8, 95u8, 71u8, 109u8, 61u8] + dec_digits(m) + seq![59u8]
}

/// Number of chunks of a payload of `len` bytes.
pub open spec fn kitty_chunk_count(len: int) -> int {
    (len + 4095) / 4096
}

/// The slice of the payload carried by escape `ci`: 4096 bytes, fewer in
/// the last escape.
pub open spec fn chunk_slice(payload: Seq<u8>, ci: int) -> Seq<u8> {
    let start = ci * 4096;
    let end = if start + 4096 < payload.len() {
        start + 4096
    } else {
        payload.len() as int
    };
    payload.subrange(start, end)
}

/// Escape `ci` of the image: its header (`m=1` while more follow), its
/// slice of the payload, and the string terminator `ESC \`.
pub open spec fn kitty_chunk(payload: Seq<u8>, img: KittyImage, ci: int) -> Seq<u8> {
    let total = kitty_chunk_count(payload.len() as int);
    let m: nat = if ci == total - 1 {
        0
    } else {
        1
    };
    (if ci == 0 {
        kitty_first_header(img, m)
    } else {
        kitty_next_header(m)
    }) + chunk_slice(payload, ci) + seq![27u8, 92u8]
}

/// The payload slices of the first `k` escapes, in order.
pub open spec fn chunk_slices(payload: Seq<u8>, k: int) -> Seq<u8>
    decreases k,
{
    if k <= 0 {
        seq![]
    } else {
        chunk_slices(payload, k - 1) + chunk_slice(payload, k - 1)
    }
}

proof fn lemma_chunk_slices_prefix(payload: Seq<u8>, k: int)
    requires
        0 <= k <= kitty_chunk_count(payload.len() as int),
    ensures
        chunk_slices(payload, k) == payload.subrange(
            0,
            if k * 4096 < payload.len() {
                k * 4096
            } else {
                payload.len() as int
            },
        ),
    decreases k,
{
    let n = payload.len() as int;
    if k == 0 {
        assert(payload.subrange(0, 0) =~= Seq::<u8>::empty());
    } else {
        lemma_chunk_slices_prefix(payload, k - 1);
        assert((k - 1) * 4096 < n) by (nonlinear_arith)
            requires
                1 <= k <= (n + 4095) / 4096,
                n >= 0,
        ;
        assert(k * 4096 == (k - 1) * 4096 + 4096) by (nonlinear_arith);
        let lo = (k - 1) * 4096;
        let hi = if k * 4096 < n {
            k * 4096
        } else {
            n
        };
        assert(payload.subrange(0, lo) + payload.subrange(lo, hi) =~= payload.subrange(0, hi));
    }
}

/// The escapes of a Kitty frame carry the whole Base64 payload in order,
/// each at most 4096 bytes of it and none of them empty.
pub proof fn lemma_kitty_chunks_cover(payload: Seq<u8>)
    ensures
        chunk_slices(payload, kitty_chunk_count(payload.len() as int)) == payload,
        forall|ci: int|
            0 <= ci < kitty_chunk_count(payload.len() as int) ==> 1 <= #[trigger] chunk_slice(
                payload,
                ci,
            ).len() <= 4096,
{
    let n = payload.len() as int;
    let count = kitty_chunk_count(n);
    assert(count * 4096 >= n) by (nonlinear_arith)
        requires
            count == (n + 4095) / 4096,
            n >= 0,
    ;
    lemma_chunk_slices_prefix(payload, count);
    assert(payload.subrange(0, n) =~= payload);
    assert forall|ci: int| 0 <= ci < count implies 1 <= #[trigger] chunk_slice(payload, ci).len()
        <= 4096 by {
        assert(ci * 4096 < n) by (nonlinear_arith)
            requires
                0 <= ci < count,
                count == (n + 4095) / 4096,
                n >= 0,
        ;
    }
}

/// Escape `ci` of a Kitty image of `k` escapes: it opens with `ESC _ G`
/// (the first one with `a=T`, the action that transmits and shows the
/// image), ends with its slice of the payload and `ESC \`, and its header
/// closes with `m=1;` while more escapes follow and with `m=0;` on the
/// last one only. The later escapes carry nothing in their header but
/// that flag.
pub proof fn lemma_kitty_more_flag(payload: Seq<u8>, img: KittyImage, ci: int)
    requires
        0 <= ci < kitty_chunk_count(payload.len() as int),
    ensures
        ({
            let k = kitty_chunk_count(payload.len() as int);
            let c = kitty_chunk(payload, img, ci);
            let body = chunk_slice(payload, ci);
            let h = c.len() - body.len() - 2;
            &&& 7 <= h
            &&& c.subrange(h, c.len() as int) == body + seq![27u8, 92u8]
            &&& c.subrange(0, 3) == seq![27u8, 95u8, 71u8]
            &&& ci == 0 ==> c.subrange(3, 6) == seq![97u8, 61u8, 84u8]
            &&& ci > 0 ==> h == 7
            &&& c.subrange(h - 4, h) == (if ci < k - 1 {
                seq![109u8, 61u8, 49u8, 59u8]
            } else {
                seq![109u8, 61u8, 48u8, 59u8]
            })
        }),
{
    let k = kitty_chunk_count(payload.len() as int);
    let m: nat = if ci == k - 1 {
        0
    } else {
        1
    };
    let body = chunk_slice(payload, ci);
    let flag = seq![109u8, 61u8, (48 + m) as u8, 59u8];
    assert(dec_digits(m) == seq![(48 + m) as u8]);
    let hdr = if ci == 0 {
        kitty_first_header(img, m)
    } else {
        kitty_next_header(m)
    };
    let c = kitty_chunk(payload, img, ci);
    assert(c == hdr + body + seq![27u8, 92u8]);
    if ci == 0 {
        let pre = seq![
            27u8, 95u8, 71u8, 97u8, 61u8, 84u8, 44u8, 102u8, 61u8, 50u8, 52u8, 44u8, 116u8, 61u8,
            100u8, 44u8, 115u8, 61u8,
        ] + dec_digits(img.width as nat) + seq![44u8, 118u8, 61u8] + dec_digits(
            img.height as nat,
        ) + seq![44u8, 99u8, 61u8] + dec_digits(img.cols as nat) + seq![44u8, 114u8, 61u8]
            + dec_digits(img.rows as nat) + seq![44u8, 105u8, 61u8] + dec_digits(img.id as nat)
            + seq![
            44u8, 112u8, 61u8, 49u8, 44u8, 113u8, 61u8, 50u8, 44u8, 67u8, 61u8, 49u8, 44u8, 122u8,
            61u8,
        ] + dec_signed(KITTY_IMG_Z_UNDER_UI as int) + seq![44u8];
        assert(hdr =~= pre + flag);
        assert(pre.subrange(0, 6) =~= seq![27u8, 95u8, 71u8, 97u8, 61u8, 84u8]);
    } else {
        assert(hdr =~= seq![27u8, 95u8, 71u8] + flag);
    }
    let h = hdr.len() as int;
    assert(c.subrange(h, c.len() as int) =~= body + seq![27u8, 92u8]);
    assert(c.subrange(0, 3) =~= hdr.subrange(0, 3));
    assert(c.subrange(3, 6) =~= hdr.subrange(3, 6));
    assert(c.subrange(h - 4, h) =~= hdr.subrange(h - 4, h));
    assert(hdr.subrange(h - 4, h) =~= flag);
}

/// The first `k` escapes of the image.
pub open spec fn kitty_chunks(payload: Seq<u8>, img: KittyImage, k: int) -> Seq<u8>
    decreases k,
{
    if k <= 0 {
        seq![]
    } else {
        kitty_chunks(payload, img, k - 1) + kitty_chunk(payload, img, k - 1)
    }
}

/// A whole Kitty frame: cursor home, then the RGB image in Base64, split
/// into escapes of at most 4096 payload bytes.
pub open spec fn kitty_frame(rgb: Seq<u8>, img: KittyImage) -> Seq<u8> {
    let payload = b64_encode(rgb);
    seq![27u8, 91u8, 72u8] + kitty_chunks(payload, img, kitty_chunk_count(payload.len() as int))
}

fn push_kitty_first_header(out: &mut Vec<u8>, img: KittyImage, m: u64)
    ensures
        final(out)@ == old(out)@ + kitty_first_header(img, m as nat),
{
    let ghost before = out@;
    let lead: [u8; 18] = [
        27u8, 95u8, 71u8, 97u8, 61u8, 84u8, 44u8, 102u8, 61u8, 50u8, 52u8, 44u8, 116u8, 61u8,
        100u8, 44u8, 115u8, 61u8,
    ];
    let flags: [u8; 15] = [
        44u8, 112u8, 61u8, 49u8, 44u8, 113u8, 61u8, 50u8, 44u8, 67u8, 61u8, 49u8, 44u8, 122u8,
        61u8,
    ];
    push_all(out, &lead);
    push_decimal(out, img.width as u64);
    push_all(out, &[44u8, 118u8, 61u8]);
    push_decimal(out, img.height as u64);
    push_all(out, &[44u8, 99u8, 61u8]);
    push_decimal(out, img.cols as u64);
    push_all(out, &[44u8, 114u8, 61u8]);
    push_decimal(out, img.rows as u64);
    push_all(out, &[44u8, 105u8, 61u8]);
    push_decimal(out, img.id as u64);
    push_all(out, &flags);
    push_signed_decimal(out, KITTY_IMG_Z_UNDER_UI as i64);
    push_all(out, &[44u8, 109u8, 61u8]);
    push_decimal(out, m);
    out.push(59u8);
    proof {
        assert(lead@ =~= seq![
            27u8, 95u8, 71u8, 97u8, 61u8, 84u8, 44u8, 102u8, 61u8, 50u8, 52u8, 44u8, 116u8, 61u8,
            100u8, 44u8, 115u8, 61u8,
        ]);
        assert(flags@ =~= seq![
            44u8, 112u8, 61u8, 49u8, 44u8, 113u8, 61u8, 50u8, 44u8, 67u8, 61u8, 49u8, 44u8,
            122u8, 61u8,
        ]);
        assert([44u8, 118u8, 61u8]@ =~= seq![44u8, 118u8, 61u8]);
        assert([44u8, 99u8, 61u8]@ =~= seq![44u8, 99u8, 61u8]);
        assert([44u8, 114u8, 61u8]@ =~= seq![44u8, 114u8, 61u8]);
        assert([44u8, 105u8, 61u8]@ =~= seq![44u8, 105u8, 61u8]);
        assert([44u8, 109u8, 61u8]@ =~= seq![44u8, 109u8, 61u8]);
        assert(out@ =~= before + kitty_first_header(img, m as nat));
    }
}

fn push_kitty_next_header(out: &mut Vec<u8>, m: u64)
    ensures
        final(out)@ == old(out)@ + kitty_next_header(m as nat),
{
    let ghost before = out@;
    push_all(out, &[27u8, 95u8, 71u8, 109u8, 61u8]);
    push_decimal(out, m);
    out.push(59u8);
    proof {
        assert([27u8, 95u8, 71u8, 109u8, 61u8]@ =~= seq![27u8, 95u8, 71u8, 109u8, 61u8]);
        assert(out@ =~= before + kitty_next_header(m as nat));
    }
}

fn push_kitty_chunk(out: &mut Vec<u8>, payload: &[u8], img: KittyImage, ci: usize, total: usize)
    requires
        payload@.len() <= usize::MAX - 8192,
        total == kitty_chunk_count(payload@.len() as int),
        ci < total,
    ensures
        final(out)@ == old(out)@ + kitty_chunk(payload@, img, ci as int),
{
    let len = payload.len();
    proof {
        assert(ci * 4096 < len) by (nonlinear_arith)
            requires
                ci < total,
                total == (len + 4095) / 4096,
        ;
    }
    let start = ci * KITTY_CHUNK;
    let end = if start + KITTY_CHUNK < len {
        start + KITTY_CHUNK
    } else {
        len
    };
    let m: u64 = if ci == total - 1 {
        0
    } else {
        1
    };
    let ghost before = out@;
    if ci == 0 {
        push_kitty_first_header(out, img, m);
    } else {
        push_kitty_next_header(out, m);
    }
    let part = &payload[start..end];
    push_all(out, part);
    push_all(out, &[27u8, 92u8]);
    proof {
        assert([27u8, 92u8]@ =~= seq![27u8, 92u8]);
        assert(part@ =~= payload@.subrange(start as int, end as int));
        assert(out@ =~= before + kitty_chunk(payload@, img, ci as int));
    }
}

/// Builds the Kitty graphics frame for 24-bit RGB pixels `rgb` into `out`
/// (cleared first).
pub fn render_kitty_frame(rgb: &[u8], img: KittyImage, out: &mut Vec<u8>)
    requires
        rgb@.len() <= usize::MAX / 2,
    ensures
        final(out)@ == kitty_frame(rgb@, img),
{
    out.clear();
    push_all(out, &[27u8, 91u8, 72u8]);
    let mut b64: Vec<u8> = Vec::new();
    base64_encode_into(rgb, &mut b64);
    let ghost payload = b64@;
    proof {
        assert(b64@ =~= b64_encode(rgb@));
        lemma_b64_shape(rgb@);
        assert([27u8, 91u8, 72u8]@ =~= seq![27u8, 91u8, 72u8]);
    }
    let len = b64.len();
    let total = (len + KITTY_CHUNK - 1) / KITTY_CHUNK;
    let mut ci: usize = 0;
    while ci < total
        invariant
            payload == b64@,
            len == payload.len(),
            len <= usize::MAX - 8192,
            total == kitty_chunk_count(len as int),
            0 <= ci <= total,
            out@ == seq![27u8, 91u8, 72u8] + kitty_chunks(payload, img, ci as int),
        decreases total - ci,
    {
        push_kitty_chunk(out, b64.as_slice(), img, ci, total);
        proof {
            assert(out@ =~= seq![27u8, 91u8, 72u8] + kitty_chunks(payload, img, ci + 1));
        }
        ci += 1;
    }
}

/// The Kitty image sits below the text layer even under cells with an
/// explicit background colour, which takes a depth below `i32::MIN / 2`.
pub proof fn lemma_kitty_depth_under_text()
    ensures
        KITTY_IMG_Z_UNDER_UI < i32::MIN / 2,
{
}

// ---------------------------------------------------------------------------
// The display: backend choice and frame assembly.

/// `ESC [ 2 J`: clear the whole screen.
pub open spec fn clear_screen() -> Seq<u8> {
    seq![27u8, 91u8, 50u8, 74u8]
}

/// The RGB bytes of the first `n` pixels.
pub open spec fn rgb_bytes(px: Seq<Rgb8>, n: int) -> Seq<u8>
    decreases n,
{
    if n <= 0 {
        seq![]
    } else {
        rgb_bytes(px, n - 1) + seq![px[n - 1].0, px[n - 1].1, px[n - 1].2]
    }
}

/// `ESC _ G a=d,d=I,i=ID ESC \`: delete the Kitty image `id`.
pub open spec fn kitty_delete(id: u32) -> Seq<u8> {
    seq![27u8, 95u8, 71u8, 97u8, 61u8, 100u8, 44u8, 100u8, 61u8, 73u8, 44u8, 105u8, 61u8]
        + dec_digits(id as nat) + seq![27u8, 92u8]
}

/// Terminal output state: the backend in use, the terminal geometry and the
/// frame being built.
pub struct Display {
    pub backend: Backend,
    pub detected_backend: Backend,
    pub cols: u32,
    pub rows: u32,
    pub cell_size: CellSize,
    /// The bytes of the current frame; overlays are appended to it.
    pub frame: Vec<u8>,
    /// Id of the Kitty image that each frame replaces.
    pub kitty_img_id: u32,
    /// The next frame starts by clearing the screen.
    pub pending_text_clear: bool,
}

/// The frame body for pixels `fb` of `width` by `height`.
pub open spec fn frame_body(d: Display, fb: Seq<Rgb8>, width: u32, height: u32) -> Seq<u8> {
    match d.backend {
        Backend::HalfBlock => halfblock_frame(fb, width as int, height as int),
        Backend::Kitty => kitty_frame(
            rgb_bytes(fb, width * height),
            KittyImage { width, height, cols: d.cols, rows: d.rows, id: d.kitty_img_id },
        ),
    }
}

/// Both backends start a frame by homing the cursor, so a queued screen
/// clear goes first, then the cursor home, then the new picture.
pub proof fn lemma_frame_body_starts_home(d: Display, fb: Seq<Rgb8>, width: u32, height: u32)
    ensures
        frame_body(d, fb, width, height).len() >= 3,
        frame_body(d, fb, width, height).subrange(0, 3) == cursor_home(),
{
    match d.backend {
        Backend::HalfBlock => {
            lemma_halfblock_never_clears(fb, width as int, height as int);
        },
        Backend::Kitty => {
            let body = kitty_frame(
                rgb_bytes(fb, width * height),
                KittyImage { width, height, cols: d.cols, rows: d.rows, id: d.kitty_img_id },
            );
            assert(body.subrange(0, 3) =~= seq![27u8, 91u8, 72u8]);
        },
    }
}

fn push_rgb_bytes(out: &mut Vec<u8>, fb: &[Rgb8], n: usize)
    requires
        n <= fb@.len(),
    ensures
        final(out)@ == old(out)@ + rgb_bytes(fb@, n as int),
{
    let mut i: usize = 0;
    while i < n
        invariant
            n <= fb@.len(),
            i <= n,
            out@ == old(out)@ + rgb_bytes(fb@, i as int),
        decreases n - i,
    {
        let p = fb[i];
        out.push(p.0);
        out.push(p.1);
        out.push(p.2);
        proof {
            assert(out@ =~= old(out)@ + rgb_bytes(fb@, i + 1));
        }
        i += 1;
    }
}

proof fn lemma_rgb_bytes_len(px: Seq<Rgb8>, n: int)
    requires
        n >= 0,
    ensures
        rgb_bytes(px, n).len() == 3 * n,
    decreases n,
{
    if n > 0 {
        lemma_rgb_bytes_len(px, n - 1);
    }
}

impl Display {
    /// A display on a terminal of `cols` by `rows` cells whose cells measure
    /// `cell_size`; Kitty graphics are used where the terminal answered the
    /// probe, half blocks otherwise.
    pub fn new(cols: u32, rows: u32, kitty_supported: bool, cell_size: CellSize) -> (d: Self)
        ensures
            d.detected_backend == (if kitty_supported {
                Backend::Kitty
            } else {
                Backend::HalfBlock
            }),
            d.backend == d.detected_backend,
            d.cols == cols,
            d.rows == rows,
            d.cell_size == cell_size,
            d.frame@.len() == 0,
            d.kitty_img_id == 1000,
            !d.pending_text_clear,
    {
        let detected = if kitty_supported {
            Backend::Kitty
        } else {
            Backend::HalfBlock
        };
        Display {
            backend: detected,
            detected_backend: detected,
            cols,
            rows,
            cell_size,
            frame: Vec::new(),
            kitty_img_id: 1000,
            pending_text_clear: false,
        }
    }

    /// Framebuffer size in pixels: a column per cell and two rows per cell
    /// for half blocks; for Kitty the caller's density-scaled pixel size,
    /// at least one pixel each way.
    pub fn framebuffer_size(&self, kitty_pixels: (u32, u32)) -> (s: (u32, u32))
        requires
            self.backend == Backend::HalfBlock ==> self.rows * 2 <= u32::MAX,
        ensures
            self.backend == Backend::HalfBlock ==> s == (self.cols, (self.rows * 2) as u32),
            self.backend == Backend::Kitty ==> s == (
                if kitty_pixels.0 > 1 {
                    kitty_pixels.0
                } else {
                    1
                },
                if kitty_pixels.1 > 1 {
                    kitty_pixels.1
                } else {
                    1
                },
            ),
    {
        match self.backend {
            Backend::HalfBlock => (self.cols, self.rows * 2),
            Backend::Kitty => {
                let w = if kitty_pixels.0 > 1 {
                    kitty_pixels.0
                } else {
                    1
                };
                let h = if kitty_pixels.1 > 1 {
                    kitty_pixels.1
                } else {
                    1
                };
                (w, h)
            },
        }
    }

    /// New terminal size; the cell size is replaced where the window
    /// reported one.
    pub fn resize(&mut self, cols: u32, rows: u32, window_cell_size: Option<CellSize>)
        ensures
            final(self).cols == cols,
            final(self).rows == rows,
            final(self).cell_size == match window_cell_size {
                Some(cs) => cs,
                None => old(self).cell_size,
            },
            final(self).backend == old(self).backend,
            final(self).detected_backend == old(self).detected_backend,
            final(self).frame == old(self).frame,
            final(self).kitty_img_id == old(self).kitty_img_id,
            final(self).pending_text_clear == old(self).pending_text_clear,
    {
        self.cols = cols;
        self.rows = rows;
        if let Some(cs) = window_cell_size {
            self.cell_size = cs;
        }
    }

    /// The next frame clears the screen first.
    pub fn queue_text_clear(&mut self)
        ensures
            final(self).pending_text_clear,
            final(self).backend == old(self).backend,
            final(self).detected_backend == old(self).detected_backend,
            final(self).cols == old(self).cols,
            final(self).rows == old(self).rows,
            final(self).cell_size == old(self).cell_size,
            final(self).frame == old(self).frame,
            final(self).kitty_img_id == old(self).kitty_img_id,
    {
        self.pending_text_clear = true;
    }

    /// Replaces the frame with pixels `fb` (`width` by `height`, row-major)
    /// drawn by the active backend, after a screen clear when one was
    /// queued.
    pub fn render(&mut self, fb: &[Rgb8], width: u32, height: u32)
        requires
            old(self).backend == Backend::HalfBlock ==> (height as int / 2) * 2 * (width as int)
                <= fb@.len(),
            old(self).backend == Backend::Kitty ==> width * height <= u32::MAX && width * height
                <= fb@.len() && 3 * (width * height) <= usize::MAX / 2,
        ensures
            final(self).frame@ == (if old(self).pending_text_clear {
                clear_screen()
            } else {
                seq![]
            }) + frame_body(*old(self), fb@, width, height),
            !final(self).pending_text_clear,
            final(self).backend == old(self).backend,
            final(self).detected_backend == old(self).detected_backend,
            final(self).cols == old(self).cols,
            final(self).rows == old(self).rows,
            final(self).cell_size == old(self).cell_size,
            final(self).kitty_img_id == old(self).kitty_img_id,
    {
        let mut body: Vec<u8> = Vec::new();
        match self.backend {
            Backend::HalfBlock => {
                render_halfblocks(fb, width, height, &mut body);
            },
            Backend::Kitty => {
                let pixel_count = (width * height) as usize;
                let mut rgb: Vec<u8> = Vec::new();
                push_rgb_bytes(&mut rgb, fb, pixel_count);
                proof {
                    lemma_rgb_bytes_len(fb@, pixel_count as int);
                }
                let img = KittyImage {
                    width,
                    height,
                    cols: self.cols,
                    rows: self.rows,
                    id: self.kitty_img_id,
                };
                render_kitty_frame(rgb.as_slice(), img, &mut body);
            },
        }
        let mut frame: Vec<u8> = Vec::new();
        if self.pending_text_clear {
            push_all(&mut frame, &[27u8, 91u8, 50u8, 74u8]);
            proof {
                assert([27u8, 91u8, 50u8, 74u8]@ =~= clear_screen());
            }
            self.pending_text_clear = false;
        }
        push_all(&mut frame, body.as_slice());
        self.frame = frame;
        proof {
            assert(self.frame@ =~= (if old(self).pending_text_clear {
                clear_screen()
            } else {
                seq![]
            }) + frame_body(*old(self), fb@, width, height));
        }
    }

    /// The escape that deletes the Kitty image, where the Kitty backend is
    /// or was in use (appended to `out`).
    pub fn kitty_cleanup_bytes(&self, out: &mut Vec<u8>)
        ensures
            final(out)@ == old(out)@ + if self.backend == Backend::Kitty || self.detected_backend
                == Backend::Kitty {
                kitty_delete(self.kitty_img_id)
            } else {
                seq![]
            },
    {
        if self.backend == Backend::Kitty || self.detected_backend == Backend::Kitty {
            let lead = [27u8, 95u8, 71u8, 97u8, 61u8, 100u8, 44u8, 100u8, 61u8, 73u8, 44u8, 105u8, 61u8];
            push_all(out, &lead);
            push_decimal(out, self.kitty_img_id as u64);
            push_all(out, &[27u8, 92u8]);
            proof {
                assert(lead@ =~= seq![
                    27u8, 95u8, 71u8, 97u8, 61u8, 100u8, 44u8, 100u8, 61u8, 73u8, 44u8, 105u8, 61u8,
                ]);
                assert([27u8, 92u8]@ =~= seq![27u8, 92u8]);
                assert(out@ =~= old(out)@ + kitty_delete(self.kitty_img_id));
            }
        } else {
            proof {
                assert(out@ =~= old(out)@ + seq![]);
            }
        }
    }
}

} // verus!
