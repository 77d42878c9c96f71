//! Half-block output: two framebuffer rows per terminal row, the top pixel
//! as foreground and the bottom pixel as background of `▀` (U+2580).
use vstd::prelude::*;
use crate::ansi::{all_digits, dec_digits, lemma_dec_digits_shape, push_all, push_u8_decimal};

verus! {

/// An 8-bit RGB pixel.
pub type Rgb8 = (u8, u8, u8);

/// `ESC [ H`: cursor to the top-left cell.
pub open spec fn cursor_home() -> Seq<u8> {
    seq![27u8, 91u8, 72u8]
}

/// `ESC [ 0 m`: reset all attributes.
pub open spec fn sgr_reset() -> Seq<u8> {
    seq![27u8, 91u8, 48u8, 109u8]
}

/// Attribute reset, then carriage return and line feed.
pub open spec fn row_break() -> Seq<u8> {
    sgr_reset() + seq![13u8, 10u8]
}

/// `ESC [ 3 8 ; 2 ;`: start of a 24-bit foreground colour.
pub open spec fn fg_truecolor() -> Seq<u8> {
    seq![27u8, 91u8, 51u8, 56u8, 59u8, 50u8, 59u8]
}

/// `; 4 8 ; 2 ;`: switch to a 24-bit background colour.
pub open spec fn bg_truecolor() -> Seq<u8> {
    seq![59u8, 52u8, 56u8, 59u8, 50u8, 59u8]
}

/// UTF-8 encoding of `▀` (U+2580 UPPER HALF BLOCK).
pub open spec fn upper_half_block() -> Seq<u8> {
    seq![0xE2u8, 0x96u8, 0x80u8]
}

/// `r;g;b` in decimal.
pub open spec fn rgb_params(c: Rgb8) -> Seq<u8> {
    dec_digits(c.0 as nat) + seq![59u8] + dec_digits(c.1 as nat) + seq![59u8] + dec_digits(
        c.2 as nat,
    )
}

/// One terminal cell: `top` as foreground, `bottom` as background.
pub open spec fn cell_bytes(top: Rgb8, bottom: Rgb8) -> Seq<u8> {
    fg_truecolor() + rgb_params(top) + bg_truecolor() + rgb_params(bottom) + seq![109u8]
        + upper_half_block()
}

/// The first `cols` cells of terminal row `row` of a framebuffer `w`
/// pixels wide.
pub open spec fn row_cells(px: Seq<Rgb8>, w: int, row: int, cols: int) -> Seq<u8>
    decreases cols,
{
    if cols <= 0 {
        seq![]
    } else {
        row_cells(px, w, row, cols - 1) + cell_bytes(
            px[2 * row * w + cols - 1],
            px[(2 * row + 1) * w + cols - 1],
        )
    }
}

/// The first `rows` terminal rows, separated by row breaks.
pub open spec fn frame_rows(px: Seq<Rgb8>, w: int, rows: int) -> Seq<u8>
    decreases rows,
{
    if rows <= 0 {
        seq![]
    } else {
        frame_rows(px, w, rows - 1) + (if rows - 1 > 0 {
            row_break()
        } else {
            seq![]
        }) + row_cells(px, w, rows - 1, w)
    }
}

/// The whole half-block frame of a `width` x `height` framebuffer; an odd
/// last pixel row is not shown.
pub open spec fn halfblock_frame(px: Seq<Rgb8>, width: int, height: int) -> Seq<u8> {
    cursor_home() + frame_rows(px, width, height / 2) + sgr_reset()
}

fn push_rgb_params(buf: &mut Vec<u8>, c: Rgb8)
    ensures
        final(buf)@ == old(buf)@ + rgb_params(c),
{
    push_u8_decimal(buf, c.0);
    buf.push(59u8);
    push_u8_decimal(buf, c.1);
    buf.push(59u8);
    push_u8_decimal(buf, c.2);
    proof {
        assert(buf@ =~= old(buf)@ + rgb_params(c));
    }
}

/// Renders the framebuffer as half-block ANSI text into `out` (cleared
/// first): cursor home, one line per pair of pixel rows, attribute reset
/// at the end.
pub fn render_halfblocks(fb: &[Rgb8], width: u32, height: u32, out: &mut Vec<u8>)
    requires
        (height as int / 2) * 2 * (width as int) <= fb@.len(),
    ensures
        final(out)@ == halfblock_frame(fb@, width as int, height as int),
{
    out.clear();
    let _len = fb.len();
    let w = width as usize;
    let rows = (height / 2) as usize;
    let ghost px = fb@;
    let ghost wi = w as int;
    push_all(out, &[27u8, 91u8, 72u8]);
    proof {
        assert([27u8, 91u8, 72u8]@ =~= cursor_home());
        assert(out@ =~= cursor_home() + frame_rows(px, wi, 0));
    }
    let mut row: usize = 0;
    while row < rows
        invariant
            px == fb@,
            wi == w,
            rows == height / 2,
            w == width,
            rows * 2 * wi <= px.len(),
            px.len() <= usize::MAX,
            0 <= row <= rows,
            out@ == cursor_home() + frame_rows(px, wi, row as int),
        decreases rows - row,
    {
        let ghost before_row = out@;
        if row > 0 {
            push_all(out, &[27u8, 91u8, 48u8, 109u8, 13u8, 10u8]);
            proof {
                assert([27u8, 91u8, 48u8, 109u8, 13u8, 10u8]@ =~= row_break());
            }
        }
        let ghost after_break = out@;
        proof {
            assert((2 * row + 1) * wi + wi <= rows * 2 * wi) by (nonlinear_arith)
                requires
                    row + 1 <= rows,
                    wi >= 0,
            ;
            assert(2 * row * wi + wi <= (2 * row + 1) * wi) by (nonlinear_arith)
                requires
                    wi >= 0,
            ;
            assert((2 * row) * wi == 2 * row * wi) by (nonlinear_arith);
        }
        let top_base = 2 * row * w;
        let bot_base = (2 * row + 1) * w;
        let mut col: usize = 0;
        while col < w
            invariant
                px == fb@,
                wi == w,
                rows * 2 * wi <= px.len(),
                0 <= row < rows,
                top_base == 2 * row * wi,
                bot_base == (2 * row + 1) * wi,
                bot_base + wi <= px.len(),
                top_base + wi <= bot_base,
                0 <= col <= w,
                out@ == after_break + row_cells(px, wi, row as int, col as int),
            decreases w - col,
        {
            let top = fb[top_base + col];
            let bot = fb[bot_base + col];
            let ghost before_cell = out@;
            push_all(out, &[27u8, 91u8, 51u8, 56u8, 59u8, 50u8, 59u8]);
            push_rgb_params(out, top);
            push_all(out, &[59u8, 52u8, 56u8, 59u8, 50u8, 59u8]);
            push_rgb_params(out, bot);
            out.push(109u8);
            push_all(out, &[0xE2u8, 0x96u8, 0x80u8]);
            proof {
                assert([27u8, 91u8, 51u8, 56u8, 59u8, 50u8, 59u8]@ =~= fg_truecolor());
                assert([59u8, 52u8, 56u8, 59u8, 50u8, 59u8]@ =~= bg_truecolor());
                assert([0xE2u8, 0x96u8, 0x80u8]@ =~= upper_half_block());
                assert(out@ =~= before_cell + cell_bytes(top, bot));
                assert(px[2 * row * wi + (col + 1) - 1] == top);
                assert(px[(2 * row + 1) * wi + (col + 1) - 1] == bot);
                assert(out@ =~= after_break + row_cells(px, wi, row as int, col + 1));
            }
            col += 1;
        }
        proof {
            assert(out@ =~= cursor_home() + frame_rows(px, wi, row + 1));
        }
        row += 1;
    }
    push_all(out, &[27u8, 91u8, 48u8, 109u8]);
    proof {
        assert([27u8, 91u8, 48u8, 109u8]@ =~= sgr_reset());
        assert(out@ =~= halfblock_frame(px, width as int, height as int));
    }
}

/// `ESC [ 2 J`: erase the whole display.
pub open spec fn erase_display() -> Seq<u8> {
    seq![27u8, 91u8, 50u8, 74u8]
}

/// `s` holds an erase-display sequence.
pub open spec fn has_erase_display(s: Seq<u8>) -> bool {
    exists|i: int| 0 <= i && i + 4 <= s.len() && #[trigger] s.subrange(i, i + 4) == erase_display()
}

/// Every escape in `s` has its introducer and a first parameter byte
/// other than `2` inside `s`.
spec fn escapes_closed(s: Seq<u8>) -> bool {
    forall|i: int| 0 <= i < s.len() && #[trigger] s[i] == 27 ==> i + 2 < s.len() && s[i + 2] != 50
}

proof fn lemma_escapes_closed_concat(a: Seq<u8>, b: Seq<u8>)
    requires
        escapes_closed(a),
        escapes_closed(b),
    ensures
        escapes_closed(a + b),
{
    let s = a + b;
    assert forall|i: int| 0 <= i < s.len() && #[trigger] s[i] == 27 implies i + 2 < s.len() && s[i
        + 2] != 50 by {
        if i < a.len() {
            assert(a[i] == 27);
        } else {
            assert(b[i - a.len()] == 27);
        }
    }
}

proof fn lemma_no_escape(s: Seq<u8>)
    requires
        forall|i: int| 0 <= i < s.len() ==> #[trigger] s[i] != 27,
    ensures
        escapes_closed(s),
{
}

proof fn lemma_rgb_params_closed(c: Rgb8)
    ensures
        escapes_closed(rgb_params(c)),
{
    lemma_dec_digits_shape(c.0 as nat);
    lemma_dec_digits_shape(c.1 as nat);
    lemma_dec_digits_shape(c.2 as nat);
    let d0 = dec_digits(c.0 as nat);
    let d1 = dec_digits(c.1 as nat);
    let d2 = dec_digits(c.2 as nat);
    assert(all_digits(d0) && all_digits(d1) && all_digits(d2));
    lemma_no_escape(d0);
    lemma_no_escape(d1);
    lemma_no_escape(d2);
    lemma_no_escape(seq![59u8]);
    lemma_escapes_closed_concat(d0, seq![59u8]);
    lemma_escapes_closed_concat(d0 + seq![59u8], d1);
    lemma_escapes_closed_concat(d0 + seq![59u8] + d1, seq![59u8]);
    lemma_escapes_closed_concat(d0 + seq![59u8] + d1 + seq![59u8], d2);
}

proof fn lemma_cell_closed(top: Rgb8, bottom: Rgb8)
    ensures
        escapes_closed(cell_bytes(top, bottom)),
{
    lemma_rgb_params_closed(top);
    lemma_rgb_params_closed(bottom);
    assert(escapes_closed(fg_truecolor()));
    lemma_no_escape(bg_truecolor());
    lemma_no_escape(seq![109u8]);
    lemma_no_escape(upper_half_block());
    let a = fg_truecolor() + rgb_params(top);
    lemma_escapes_closed_concat(fg_truecolor(), rgb_params(top));
    lemma_escapes_closed_concat(a, bg_truecolor());
    lemma_escapes_closed_concat(a + bg_truecolor(), rgb_params(bottom));
    lemma_escapes_closed_concat(a + bg_truecolor() + rgb_params(bottom), seq![109u8]);
    lemma_escapes_closed_concat(
        a + bg_truecolor() + rgb_params(bottom) + seq![109u8],
        upper_half_block(),
    );
}

proof fn lemma_row_closed(px: Seq<Rgb8>, w: int, row: int, cols: int)
    ensures
        escapes_closed(row_cells(px, w, row, cols)),
    decreases cols,
{
    if cols > 0 {
        lemma_row_closed(px, w, row, cols - 1);
        lemma_cell_closed(px[2 * row * w + cols - 1], px[(2 * row + 1) * w + cols - 1]);
        lemma_escapes_closed_concat(
            row_cells(px, w, row, cols - 1),
            cell_bytes(px[2 * row * w + cols - 1], px[(2 * row + 1) * w + cols - 1]),
        );
    }
}

proof fn lemma_rows_closed(px: Seq<Rgb8>, w: int, rows: int)
    ensures
        escapes_closed(frame_rows(px, w, rows)),
    decreases rows,
{
    if rows > 0 {
        lemma_rows_closed(px, w, rows - 1);
        lemma_row_closed(px, w, rows - 1, w);
        let brk = if rows - 1 > 0 {
            row_break()
        } else {
            seq![]
        };
        assert(escapes_closed(sgr_reset()));
        lemma_no_escape(seq![13u8, 10u8]);
        lemma_escapes_closed_concat(sgr_reset(), seq![13u8, 10u8]);
        lemma_escapes_closed_concat(frame_rows(px, w, rows - 1), brk);
        lemma_escapes_closed_concat(frame_rows(px, w, rows - 1) + brk, row_cells(px, w, rows - 1, w));
    }
}

/// The half-block frame never clears the screen: it starts with cursor
/// home and overwrites in place, and no erase-display sequence occurs in
/// it.
pub proof fn lemma_halfblock_never_clears(px: Seq<Rgb8>, width: int, height: int)
    ensures
        !has_erase_display(halfblock_frame(px, width, height)),
        halfblock_frame(px, width, height).subrange(0, 3) == cursor_home(),
{
    let f = halfblock_frame(px, width, height);
    lemma_rows_closed(px, width, height / 2);
    assert(escapes_closed(cursor_home()));
    assert(escapes_closed(sgr_reset()));
    lemma_escapes_closed_concat(cursor_home(), frame_rows(px, width, height / 2));
    lemma_escapes_closed_concat(cursor_home() + frame_rows(px, width, height / 2), sgr_reset());
    if has_erase_display(f) {
        let i = choose|i: int|
            0 <= i && i + 4 <= f.len() && #[trigger] f.subrange(i, i + 4) == erase_display();
        assert(f.subrange(i, i + 4)[0] == f[i]);
        assert(f.subrange(i, i + 4)[2] == f[i + 2]);
        assert(f[i] == 27);
    }
    assert(f.subrange(0, 3) =~= cursor_home());
}

/// The cells for a list of (foreground, background) pixel pairs, one
/// after the other.
pub open spec fn cells_of(pairs: Seq<(Rgb8, Rgb8)>) -> Seq<u8>
    decreases pairs.len(),
{
    if pairs.len() == 0 {
        seq![]
    } else {
        cells_of(pairs.drop_last()) + cell_bytes(pairs.last().0, pairs.last().1)
    }
}

/// The (foreground, background) pixels of the first `cols` cells of
/// terminal row `r`: column `c` pairs pixel `c` of pixel row `2r` with
/// pixel `c` of pixel row `2r + 1`.
pub open spec fn row_pixel_pairs(px: Seq<Rgb8>, w: int, r: int, cols: int) -> Seq<(Rgb8, Rgb8)> {
    Seq::new(cols as nat, |c: int| (px[2 * r * w + c], px[(2 * r + 1) * w + c]))
}

/// Each terminal row of a half-block frame shows, in column `c`, the pixel
/// `(c, 2r)` as foreground and the pixel `(c, 2r + 1)` directly below it
/// as background.
pub proof fn lemma_row_cells_pair_vertical_neighbours(px: Seq<Rgb8>, w: int, r: int, cols: int)
    requires
        0 <= cols,
    ensures
        row_cells(px, w, r, cols) == cells_of(row_pixel_pairs(px, w, r, cols)),
    decreases cols,
{
    if cols > 0 {
        lemma_row_cells_pair_vertical_neighbours(px, w, r, cols - 1);
        assert(row_pixel_pairs(px, w, r, cols).drop_last() =~= row_pixel_pairs(px, w, r, cols - 1));
    } else {
        assert(row_pixel_pairs(px, w, r, cols) =~= Seq::<(Rgb8, Rgb8)>::empty());
    }
}

/// A cell is `ESC [ 38 ; 2 ; R ; G ; B ; 48 ; 2 ; R ; G ; B m ▀`, with the
/// upper pixel's colour first (foreground) and the lower pixel's second
/// (background).
pub proof fn lemma_cell_layout(top: Rgb8, bottom: Rgb8)
    ensures
        cell_bytes(top, bottom) == seq![27u8, 91u8, 51u8, 56u8, 59u8, 50u8, 59u8] + dec_digits(
            top.0 as nat,
        ) + seq![59u8] + dec_digits(top.1 as nat) + seq![59u8] + dec_digits(top.2 as nat)
            + seq![59u8, 52u8, 56u8, 59u8, 50u8, 59u8] + dec_digits(bottom.0 as nat) + seq![59u8]
            + dec_digits(bottom.1 as nat) + seq![59u8] + dec_digits(bottom.2 as nat) + seq![
            109u8,
            0xE2u8,
            0x96u8,
            0x80u8,
        ],
{
    assert(cell_bytes(top, bottom) =~= seq![27u8, 91u8, 51u8, 56u8, 59u8, 50u8, 59u8]
        + dec_digits(top.0 as nat) + seq![59u8] + dec_digits(top.1 as nat) + seq![59u8]
        + dec_digits(top.2 as nat) + seq![59u8, 52u8, 56u8, 59u8, 50u8, 59u8] + dec_digits(
        bottom.0 as nat,
    ) + seq![59u8] + dec_digits(bottom.1 as nat) + seq![59u8] + dec_digits(bottom.2 as nat)
        + seq![109u8, 0xE2u8, 0x96u8, 0x80u8]);
}

/// `lines` one after the other, each after the first preceded by a row
/// break.
pub open spec fn joined_lines(lines: Seq<Seq<u8>>) -> Seq<u8>
    decreases lines.len(),
{
    if lines.len() == 0 {
        seq![]
    } else if lines.len() == 1 {
        lines[0]
    } else {
        joined_lines(lines.drop_last()) + row_break() + lines.last()
    }
}

/// A half-block frame of a `width` x `height` framebuffer is the cursor
/// home, then terminal rows `0 .. height / 2` in order, separated by row
/// breaks, where terminal row `r` pairs pixel row `2r` (foreground) with
/// pixel row `2r + 1` (background) column by column, then an attribute
/// reset.
pub proof fn lemma_halfblock_frame_rows(px: Seq<Rgb8>, width: int, height: int)
    requires
        0 <= width,
        0 <= height,
    ensures
        halfblock_frame(px, width, height) == cursor_home() + joined_lines(
            Seq::new(
                (height / 2) as nat,
                |r: int| cells_of(row_pixel_pairs(px, width, r, width)),
            ),
        ) + sgr_reset(),
{
    lemma_frame_rows_joined(px, width, height / 2);
}

proof fn lemma_frame_rows_joined(px: Seq<Rgb8>, w: int, rows: int)
    requires
        0 <= w,
        0 <= rows,
    ensures
        frame_rows(px, w, rows) == joined_lines(
            Seq::new(rows as nat, |r: int| cells_of(row_pixel_pairs(px, w, r, w))),
        ),
    decreases rows,
{
    let lines = Seq::new(rows as nat, |r: int| cells_of(row_pixel_pairs(px, w, r, w)));
    if rows > 0 {
        lemma_frame_rows_joined(px, w, rows - 1);
        lemma_row_cells_pair_vertical_neighbours(px, w, rows - 1, w);
        assert(lines.drop_last() =~= Seq::new(
            (rows - 1) as nat,
            |r: int| cells_of(row_pixel_pairs(px, w, r, w)),
        ));
        if rows == 1 {
            assert(frame_rows(px, w, 0) == Seq::<u8>::empty());
            assert(frame_rows(px, w, 1) =~= lines[0]);
        }
    } else {
        assert(lines =~= Seq::<Seq<u8>>::empty());
    }
}

} // verus!
