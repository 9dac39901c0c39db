//! Frames for the textdraw screens: the grid is cut into chunks of rows
//! (one textdraw string each is limited to `TD_STRING_MAX` characters) and
//! every chunk is drawn by a pool of stacked textdraws, each showing `I`
//! where its layer is lit and `.` elsewhere: a white base layer, then one
//! layer per bit of the green, blue, red and darkness channels, then
//! transparent blanks.

use std::time::Duration;
use vstd::prelude::*;
use crate::text::push_char;

verus! {

/// Longest string one textdraw shows.
pub const TD_STRING_MAX: usize = 800;

/// Default number of textdraws one player may be shown.
pub const TD_PLAYER_BUDGET: usize = 256;

/// Rows that fit in one textdraw string: each row costs its columns plus a
/// three-character `~n~` line break.
pub open spec fn chunk_rows_spec(cols: int) -> int {
    (TD_STRING_MAX + 3) / (cols + 3)
}

/// Number of row chunks a grid is cut into.
pub open spec fn chunk_count_spec(cols: int, rows: int) -> int {
    let chunk_rows = chunk_rows_spec(cols);
    (rows + chunk_rows - 1) / chunk_rows
}

/// `budget - 1` (the background box) or 0 when `budget` is 0.
pub open spec fn budget_after_box(budget: int) -> int {
    if budget >= 1 { budget - 1 } else { 0 }
}

/// Textdraws per chunk: the budget (less the background box) shared by the
/// chunks, at least one.
pub open spec fn pool_size_spec(cols: int, rows: int, budget: int) -> int {
    let chunk_count = chunk_count_spec(cols, rows);
    let per_chunk = budget_after_box(budget) / (if chunk_count >= 1 { chunk_count } else { 1 });
    if per_chunk >= 1 { per_chunk } else { 1 }
}

/// The layout of a textdraw screen: rows per chunk, number of chunks and
/// textdraws per chunk. `textdraw_layout` hands it out for creating the
/// pools, and every frame `build_frame` builds has exactly that many
/// chunks with pools of that size.
pub open spec fn textdraw_layout_spec(cols: int, rows: int, budget: int) -> (int, int, int) {
    (chunk_rows_spec(cols), chunk_count_spec(cols, rows), pool_size_spec(cols, rows, budget))
}

/// Colour levels per channel that a budget allows (kept for callers that
/// size their pools ahead of time).
pub open spec fn colour_levels_spec(cols: int, rows: int, budget: int) -> int {
    let max_layers = budget_after_box(budget) / chunk_count_spec(cols, rows);
    let levels = (if max_layers >= 1 { max_layers - 1 } else { 0 }) / 4;
    if levels >= 1 { levels } else { 1 }
}

pub fn compute_colour_levels(cols: usize, rows: usize, budget: usize) -> (levels: usize)
    requires
        cols <= TD_STRING_MAX,
        rows >= 1,
        rows + TD_STRING_MAX + 3 <= usize::MAX,
    ensures
        levels == colour_levels_spec(cols as int, rows as int, budget as int),
{
    let chunk_rows = (TD_STRING_MAX + 3) / (cols + 3);
    assert(chunk_rows >= 1) by (nonlinear_arith)
        requires cols <= 800, chunk_rows == 803int / (cols + 3) as int;
    let chunk_count = (rows + chunk_rows - 1) / chunk_rows;
    assert(chunk_count >= 1) by (nonlinear_arith)
        requires chunk_rows >= 1, rows >= 1, chunk_count == (rows + chunk_rows - 1) as int / chunk_rows as int;
    let max_layers = (budget.saturating_sub(1)) / chunk_count;
    let levels = (max_layers.saturating_sub(1)) / 4;
    if levels >= 1 { levels } else { 1 }
}

pub fn layer_count(colour_levels: usize) -> (count: usize)
    requires
        colour_levels * 4 + 1 <= usize::MAX,
    ensures
        count == 1 + colour_levels * 4,
{
    1 + colour_levels * 4
}

/// One textdraw of a chunk's pool: its colour (`0xRRGGBBAA`) and its text.
#[derive(Clone)]
pub struct ChunkLayer {
    pub rgba: u32,
    pub text: String,
}

/// A textdraw screen frame: `pool_size` textdraws per chunk.
#[derive(Clone)]
pub struct TextDrawFrame {
    pub pool_size: usize,
    pub chunk_layers: Vec<Vec<ChunkLayer>>,
}

/// Line `row` of a mask text: `I` where the mask is lit, `.` elsewhere.
pub open spec fn mask_line(mask: Seq<bool>, row: int, cols: int) -> Seq<char> {
    Seq::new(cols as nat, |c: int| if mask[row * cols + c] { 'I' } else { '.' })
}

/// The text of a mask over `rows x cols` cells, lines joined by `~n~`.
pub open spec fn mask_text(mask: Seq<bool>, rows: int, cols: int) -> Seq<char>
    decreases rows,
{
    if rows <= 0 {
        Seq::empty()
    } else {
        mask_text(mask, rows - 1, cols) + (if rows - 1 > 0 {
            seq!['~', 'n', '~']
        } else {
            Seq::empty()
        }) + mask_line(mask, rows - 1, cols)
    }
}

proof fn lemma_index_in_grid(row: int, rows: int, cols: int, c: int)
    requires
        0 <= row < rows,
        0 <= c < cols,
    ensures
        0 <= row * cols + c < rows * cols,
{
    assert(0 <= row * cols + c < rows * cols) by (nonlinear_arith)
        requires 0 <= row < rows, 0 <= c < cols;
}

fn make_text(mask: &Vec<bool>, actual_rows: usize, cols: usize) -> (text: String)
    requires
        actual_rows * cols <= mask@.len(),
    ensures
        text@ == mask_text(mask@, actual_rows as int, cols as int),
{
    let mut s = String::new();
    let mask_len = mask.len();
    for row in 0..actual_rows
        invariant
            mask_len == mask@.len(),
            actual_rows * cols <= mask@.len(),
            s@ == mask_text(mask@, row as int, cols as int),
    {
        if row > 0 {
            push_char(&mut s, '~');
            push_char(&mut s, 'n');
            push_char(&mut s, '~');
        }
        let ghost before = s@;
        for col in 0..cols
            invariant
                mask_len == mask@.len(),
                actual_rows * cols <= mask@.len(),
                row < actual_rows,
                s@ == before + mask_line(mask@, row as int, cols as int).take(col as int),
        {
            proof {
                lemma_index_in_grid(row as int, actual_rows as int, cols as int, col as int);
            }
            let c = if mask[row * cols + col] { 'I' } else { '.' };
            push_char(&mut s, c);
            assert(mask_line(mask@, row as int, cols as int).take(col + 1) =~= mask_line(mask@, row as int, cols as int).take(
                col as int,
            ).push(c));
        }
        assert(mask_line(mask@, row as int, cols as int).take(cols as int) =~= mask_line(mask@, row as int, cols as int));
        assert(s@ =~= mask_text(mask@, row + 1, cols as int));
    }
    s
}

/// `2^n - 1`: the largest value `n` bits hold.
pub open spec fn bit_levels(n_bits: int) -> int
    decreases n_bits,
{
    if n_bits <= 0 { 0 } else { 2 * bit_levels(n_bits - 1) + 1 }
}

/// Bits per channel a pool of `pool_size` textdraws affords: the base layer
/// takes one, each of the four channels gets a quarter of the rest, at
/// least 1 and at most 8.
pub open spec fn channel_bits(pool_size: int) -> int {
    let bits = budget_after_box(pool_size) / 4;
    if bits < 1 { 1 } else if bits > 8 { 8 } else { bits }
}

/// A channel value scaled from 0..=255 to 0..=`levels`, rounded.
pub open spec fn scale_channel(v: int, levels: int) -> int {
    (v * levels + 127) / 255
}

/// Byte `k` (red, green, blue, alpha) of pixel `p` of a canvas.
pub open spec fn px(canvas: Seq<u8>, p: int, k: int) -> int {
    canvas[p * 4 + k] as int
}

pub open spec fn min3(a: int, b: int, c: int) -> int {
    if a <= b && a <= c { a } else if b <= c { b } else { c }
}

pub open spec fn max3(a: int, b: int, c: int) -> int {
    if a >= b && a >= c { a } else if b >= c { b } else { c }
}

/// Whether pixel `p` is drawn (alpha at least 128).
pub open spec fn pixel_opaque(canvas: Seq<u8>, p: int) -> bool {
    px(canvas, p, 3) >= 128
}

/// Channel `ch` of pixel `p` at `levels` precision: 0 green, 1 blue, 2 red
/// (each above the pixel's weakest channel), 3 darkness (below white).
pub open spec fn channel_value(canvas: Seq<u8>, p: int, ch: int, levels: int) -> u8 {
    let r = px(canvas, p, 0);
    let g = px(canvas, p, 1);
    let b = px(canvas, p, 2);
    let lo = min3(r, g, b);
    let hi = max3(r, g, b);
    (if ch == 0 {
        scale_channel(g - lo, levels)
    } else if ch == 1 {
        scale_channel(b - lo, levels)
    } else if ch == 2 {
        scale_channel(r - lo, levels)
    } else {
        scale_channel(255 - hi, levels)
    }) as u8
}

/// Whether bit `bit` of `v` is set.
pub open spec fn bit_set(v: u8, bit: u32) -> bool {
    ((v >> bit) & 1u8) == 1u8
}

/// Alpha of the layer for bit `bit` of an `n_bits`-bit channel:
/// `round(min(1, 2^bit / (2^n_bits - 1) * coverage) * 255)` as computed in
/// single precision, with coverage 1.5 for colour channels and 1.3 for
/// darkness.
pub open spec fn bit_alpha_spec(n_bits: int, bit: int, dark: bool) -> u8 {
    if n_bits <= 1 {
        255
    } else if n_bits == 2 {
        if !dark { if bit == 0 { 128 } else { 255 } } else { if bit == 0 { 111 } else { 221 } }
    } else if n_bits == 3 {
        if !dark {
            if bit == 0 { 55 } else if bit == 1 { 109 } else { 219 }
        } else {
            if bit == 0 { 47 } else if bit == 1 { 95 } else { 189 }
        }
    } else if n_bits == 4 {
        if !dark {
            if bit == 0 { 26 } else if bit == 1 { 51 } else if bit == 2 { 102 } else { 204 }
        } else {
            if bit == 0 { 22 } else if bit == 1 { 44 } else if bit == 2 { 88 } else { 177 }
        }
    } else if n_bits == 5 {
        if !dark {
            if bit == 0 { 12 } else if bit == 1 { 25 } else if bit == 2 { 49 } else if bit == 3 { 99 } else { 197 }
        } else {
            if bit == 0 { 11 } else if bit == 1 { 21 } else if bit == 2 { 43 } else if bit == 3 { 86 } else { 171 }
        }
    } else if n_bits == 6 {
        if !dark {
            if bit == 0 { 6 } else if bit == 1 { 12 } else if bit == 2 { 24 } else if bit == 3 { 49 } else if bit == 4 { 97 } else { 194 }
        } else {
            if bit == 0 { 5 } else if bit == 1 { 11 } else if bit == 2 { 21 } else if bit == 3 { 42 } else if bit == 4 { 84 } else { 168 }
        }
    } else if n_bits == 7 {
        if !dark {
            if bit == 0 { 3 } else if bit == 1 { 6 } else if bit == 2 { 12 } else if bit == 3 { 24 } else if bit == 4 { 48 } else if bit == 5 { 96 } else { 193 }
        } else {
            if bit == 0 { 3 } else if bit == 1 { 5 } else if bit == 2 { 10 } else if bit == 3 { 21 } else if bit == 4 { 42 } else if bit == 5 { 84 } else { 167 }
        }
    } else {
        if !dark {
            if bit == 0 { 2 } else if bit == 1 { 3 } else if bit == 2 { 6 } else if bit == 3 { 12 } else if bit == 4 { 24 } else if bit == 5 { 48 } else if bit == 6 { 96 } else { 192 }
        } else {
            if bit == 0 { 1 } else if bit == 1 { 3 } else if bit == 2 { 5 } else if bit == 3 { 10 } else if bit == 4 { 21 } else if bit == 5 { 42 } else if bit == 6 { 83 } else { 166 }
        }
    }
}

fn bit_alpha(n_bits: usize, bit: usize, dark: bool) -> (alpha: u8)
    ensures
        alpha == bit_alpha_spec(n_bits as int, bit as int, dark),
{
    if n_bits <= 1 {
        255
    } else if n_bits == 2 {
        if !dark { if bit == 0 { 128 } else { 255 } } else { if bit == 0 { 111 } else { 221 } }
    } else if n_bits == 3 {
        if !dark {
            if bit == 0 { 55 } else if bit == 1 { 109 } else { 219 }
        } else {
            if bit == 0 { 47 } else if bit == 1 { 95 } else { 189 }
        }
    } else if n_bits == 4 {
        if !dark {
            if bit == 0 { 26 } else if bit == 1 { 51 } else if bit == 2 { 102 } else { 204 }
        } else {
            if bit == 0 { 22 } else if bit == 1 { 44 } else if bit == 2 { 88 } else { 177 }
        }
    } else if n_bits == 5 {
        if !dark {
            if bit == 0 { 12 } else if bit == 1 { 25 } else if bit == 2 { 49 } else if bit == 3 { 99 } else { 197 }
        } else {
            if bit == 0 { 11 } else if bit == 1 { 21 } else if bit == 2 { 43 } else if bit == 3 { 86 } else { 171 }
        }
    } else if n_bits == 6 {
        if !dark {
            if bit == 0 { 6 } else if bit == 1 { 12 } else if bit == 2 { 24 } else if bit == 3 { 49 } else if bit == 4 { 97 } else { 194 }
        } else {
            if bit == 0 { 5 } else if bit == 1 { 11 } else if bit == 2 { 21 } else if bit == 3 { 42 } else if bit == 4 { 84 } else { 168 }
        }
    } else if n_bits == 7 {
        if !dark {
            if bit == 0 { 3 } else if bit == 1 { 6 } else if bit == 2 { 12 } else if bit == 3 { 24 } else if bit == 4 { 48 } else if bit == 5 { 96 } else { 193 }
        } else {
            if bit == 0 { 3 } else if bit == 1 { 5 } else if bit == 2 { 10 } else if bit == 3 { 21 } else if bit == 4 { 42 } else if bit == 5 { 84 } else { 167 }
        }
    } else {
        if !dark {
            if bit == 0 { 2 } else if bit == 1 { 3 } else if bit == 2 { 6 } else if bit == 3 { 12 } else if bit == 4 { 24 } else if bit == 5 { 48 } else if bit == 6 { 96 } else { 192 }
        } else {
            if bit == 0 { 1 } else if bit == 1 { 3 } else if bit == 2 { 5 } else if bit == 3 { 10 } else if bit == 4 { 21 } else if bit == 5 { 42 } else if bit == 6 { 83 } else { 166 }
        }
    }
}

/// RGB part (`0xRRGGBB00`) of channel `ch`'s layers: green, blue, red,
/// black.
pub open spec fn channel_rgb(ch: int) -> u32 {
    if ch == 0 {
        0x00FF_0000
    } else if ch == 1 {
        0x0000_FF00
    } else if ch == 2 {
        0xFF00_0000
    } else {
        0
    }
}

/// Number of layers in a chunk's pool: the pool, or more when the base
/// layer and the bit layers alone outnumber it.
pub open spec fn chunk_layer_count(pool_size: int) -> int {
    let lit = 1 + 4 * channel_bits(pool_size);
    if pool_size > lit { pool_size } else { lit }
}

/// Colour of layer `j` of a chunk: white base, then the bit layers of the
/// green, blue, red and darkness channels, then transparent blanks.
pub open spec fn layer_rgba(j: int, n_bits: int) -> u32 {
    if j == 0 {
        0xFFFF_FFFF
    } else if j <= 4 * n_bits {
        let ch = (j - 1) / n_bits;
        let bit = (j - 1) % n_bits;
        channel_rgb(ch) | (bit_alpha_spec(n_bits, bit, ch == 3) as u32)
    } else {
        0
    }
}

/// Which cells layer `j` lights, for the `n` pixels from pixel `base` on.
pub open spec fn layer_mask(canvas: Seq<u8>, base: int, n: int, j: int, n_bits: int) -> Seq<bool> {
    Seq::new(
        n as nat,
        |i: int|
            if j == 0 {
                pixel_opaque(canvas, base + i)
            } else if j <= 4 * n_bits {
                pixel_opaque(canvas, base + i) && bit_set(
                    channel_value(canvas, base + i, (j - 1) / n_bits, bit_levels(n_bits)),
                    ((j - 1) % n_bits) as u32,
                )
            } else {
                false
            },
    )
}

/// Rows in chunk `chunk` (the last chunk may be short).
pub open spec fn chunk_actual_rows(rows: int, chunk: int, chunk_rows: int) -> int {
    let left = if rows >= chunk * chunk_rows { rows - chunk * chunk_rows } else { 0 };
    if chunk_rows <= left { chunk_rows } else { left }
}

/// The layers of chunk `chunk`, as `build_frame` draws them.
pub open spec fn chunk_layers_ok(
    layers: Seq<ChunkLayer>,
    canvas: Seq<u8>,
    cols: int,
    rows: int,
    chunk: int,
    chunk_rows: int,
    pool_size: int,
) -> bool {
    let actual_rows = chunk_actual_rows(rows, chunk, chunk_rows);
    let n_bits = channel_bits(pool_size);
    &&& layers.len() == chunk_layer_count(pool_size)
    &&& forall|j: int|
        0 <= j < layers.len() ==> {
            &&& (#[trigger] layers[j]).rgba == layer_rgba(j, n_bits)
            &&& layers[j].text@ == mask_text(
                layer_mask(canvas, chunk * chunk_rows * cols, actual_rows * cols, j, n_bits),
                actual_rows,
                cols,
            )
        }
}

proof fn lemma_bit_levels(n: int)
    requires
        0 <= n <= 8,
    ensures
        0 <= bit_levels(n) <= 255,
        n >= 1 ==> bit_levels(n) >= 1,
    decreases n,
{
    if n > 0 {
        lemma_bit_levels(n - 1);
        if n < 8 {
            assert(bit_levels(n - 1) <= 127) by {
                lemma_bit_levels_small(n - 1);
            }
        } else {
            assert(bit_levels(7) <= 127) by {
                lemma_bit_levels_small(7);
            }
        }
    }
}

proof fn lemma_bit_levels_small(n: int)
    requires
        0 <= n <= 7,
    ensures
        bit_levels(n) <= 127,
{
    assert(bit_levels(0) == 0);
    assert(bit_levels(1) == 1);
    assert(bit_levels(2) == 3);
    assert(bit_levels(3) == 7);
    assert(bit_levels(4) == 15);
    assert(bit_levels(5) == 31);
    assert(bit_levels(6) == 63);
    assert(bit_levels(7) == 127);
}

fn channel_bits_of(pool_size: usize) -> (bits: usize)
    ensures
        bits == channel_bits(pool_size as int),
        1 <= bits <= 8,
{
    let bits = pool_size.saturating_sub(1) / 4;
    if bits < 1 { 1 } else if bits > 8 { 8 } else { bits }
}

fn levels_of(n_bits: usize) -> (levels: u16)
    requires
        1 <= n_bits <= 8,
    ensures
        levels == bit_levels(n_bits as int),
        1 <= levels <= 255,
{
    let mut levels: u16 = 0;
    for i in 0..n_bits
        invariant
            n_bits <= 8,
            levels == bit_levels(i as int),
    {
        proof {
            lemma_bit_levels(i as int);
            lemma_bit_levels(i + 1);
        }
        levels = 2 * levels + 1;
    }
    proof {
        lemma_bit_levels(n_bits as int);
    }
    levels
}

fn scale(v: u8, levels: u16) -> (s: u8)
    requires
        levels <= 255,
    ensures
        s == scale_channel(v as int, levels as int),
        s <= levels,
{
    proof {
        assert((v as int) * (levels as int) <= 255 * 255) by (nonlinear_arith)
            requires v <= 255, levels <= 255;
        assert(((v as int) * (levels as int) + 127) / 255 <= levels as int) by (nonlinear_arith)
            requires v <= 255, levels <= 255;
    }
    ((v as u16 * levels + 127) / 255) as u8
}

fn min3_u8(a: u8, b: u8, c: u8) -> (m: u8)
    ensures
        m == min3(a as int, b as int, c as int),
{
    if a <= b && a <= c { a } else if b <= c { b } else { c }
}

fn max3_u8(a: u8, b: u8, c: u8) -> (m: u8)
    ensures
        m == max3(a as int, b as int, c as int),
{
    if a >= b && a >= c { a } else if b >= c { b } else { c }
}

fn channel_rgb_of(ch: usize) -> (rgb: u32)
    ensures
        rgb == channel_rgb(ch as int),
{
    if ch == 0 {
        0x00FF_0000
    } else if ch == 1 {
        0x0000_FF00
    } else if ch == 2 {
        0xFF00_0000
    } else {
        0
    }
}

/// The per-pixel data of a chunk: which pixels are drawn, and the four
/// channel values of each drawn pixel.
fn chunk_channels(canvas: &[u8], base: usize, n: usize, levels: u16) -> (out: (Vec<bool>, Vec<Vec<u8>>))
    requires
        (base + n) * 4 <= canvas@.len(),
        levels <= 255,
    ensures
        out.0@.len() == n,
        out.1@.len() == 4,
        forall|c: int| 0 <= c < 4 ==> (#[trigger] out.1@[c])@.len() == n,
        forall|i: int| 0 <= i < n ==> #[trigger] out.0@[i] == pixel_opaque(canvas@, base + i),
        forall|c: int, i: int|
            0 <= c < 4 && 0 <= i < n && pixel_opaque(canvas@, base + i) ==> #[trigger] out.1@[c]@[i]
                == channel_value(canvas@, base + i, c, levels as int),
{
    let mut opaque: Vec<bool> = Vec::new();
    let mut g_ch: Vec<u8> = Vec::new();
    let mut b_ch: Vec<u8> = Vec::new();
    let mut r_ch: Vec<u8> = Vec::new();
    let mut k_dk: Vec<u8> = Vec::new();
    let canvas_len = canvas.len();
    for i in 0..n
        invariant
            canvas_len == canvas@.len(),
            (base + n) * 4 <= canvas@.len(),
            levels <= 255,
            opaque@.len() == i,
            g_ch@.len() == i,
            b_ch@.len() == i,
            r_ch@.len() == i,
            k_dk@.len() == i,
            forall|m: int| 0 <= m < i ==> #[trigger] opaque@[m] == pixel_opaque(canvas@, base + m),
            forall|m: int|
                0 <= m < i && pixel_opaque(canvas@, base + m) ==> #[trigger] g_ch@[m] == channel_value(canvas@, base + m, 0, levels as int),
            forall|m: int|
                0 <= m < i && pixel_opaque(canvas@, base + m) ==> #[trigger] b_ch@[m] == channel_value(canvas@, base + m, 1, levels as int),
            forall|m: int|
                0 <= m < i && pixel_opaque(canvas@, base + m) ==> #[trigger] r_ch@[m] == channel_value(canvas@, base + m, 2, levels as int),
            forall|m: int|
                0 <= m < i && pixel_opaque(canvas@, base + m) ==> #[trigger] k_dk@[m] == channel_value(canvas@, base + m, 3, levels as int),
    {
        let idx = (base + i) * 4;
        if canvas[idx + 3] >= 128 {
            opaque.push(true);
            let r = canvas[idx];
            let g = canvas[idx + 1];
            let b = canvas[idx + 2];
            let min_ch = min3_u8(r, g, b);
            let max_ch = max3_u8(r, g, b);
            let gv = scale(g - min_ch, levels);
            let bv = scale(b - min_ch, levels);
            let rv = scale(r - min_ch, levels);
            let kv = scale(255 - max_ch, levels);
            proof {
                let p = base + i;
                assert(px(canvas@, p as int, 0) == r as int);
                assert(px(canvas@, p as int, 1) == g as int);
                assert(px(canvas@, p as int, 2) == b as int);
                assert(gv == channel_value(canvas@, p as int, 0, levels as int));
                assert(bv == channel_value(canvas@, p as int, 1, levels as int));
                assert(rv == channel_value(canvas@, p as int, 2, levels as int));
                assert(kv == channel_value(canvas@, p as int, 3, levels as int));
            }
            g_ch.push(gv);
            b_ch.push(bv);
            r_ch.push(rv);
            k_dk.push(kv);
        } else {
            opaque.push(false);
            g_ch.push(0);
            b_ch.push(0);
            r_ch.push(0);
            k_dk.push(0);
        }
    }
    let mut values: Vec<Vec<u8>> = Vec::new();
    let ghost (gs, bs, rs, ks) = (g_ch@, b_ch@, r_ch@, k_dk@);
    values.push(g_ch);
    values.push(b_ch);
    values.push(r_ch);
    values.push(k_dk);
    proof {
        assert forall|c: int, i: int|
            0 <= c < 4 && 0 <= i < n && pixel_opaque(canvas@, base + i) implies #[trigger] values@[c]@[i]
                == channel_value(canvas@, base + i, c, levels as int) by {
            if c == 0 {
                assert(values@[c]@[i] == gs[i]);
            } else if c == 1 {
                assert(values@[c]@[i] == bs[i]);
            } else if c == 2 {
                assert(values@[c]@[i] == rs[i]);
            } else {
                assert(values@[c]@[i] == ks[i]);
            }
        }
    }
    (opaque, values)
}

fn channel_mask(opaque: &Vec<bool>, values: &Vec<u8>, n: usize, bit: usize) -> (mask: Vec<bool>)
    requires
        opaque@.len() == n,
        values@.len() == n,
        bit < 8,
    ensures
        mask@.len() == n,
        forall|i: int| 0 <= i < n ==> #[trigger] mask@[i] == (opaque@[i] && bit_set(values@[i], bit as u32)),
{
    let mut mask: Vec<bool> = Vec::new();
    for i in 0..n
        invariant
            opaque@.len() == n,
            values@.len() == n,
            bit < 8,
            mask@.len() == i,
            forall|m: int| 0 <= m < i ==> #[trigger] mask@[m] == (opaque@[m] && bit_set(values@[m], bit as u32)),
    {
        let lit = opaque[i] && (values[i] >> (bit as u32)) & 1 == 1;
        mask.push(lit);
    }
    mask
}

/// The layers of row chunk `chunk`: the white base (lit on every drawn
/// pixel), one layer per bit of each channel, then transparent blanks up
/// to `pool_size`.
fn build_chunk_layers(
    canvas: &[u8],
    cols: usize,
    rows: usize,
    chunk: usize,
    chunk_rows: usize,
    pool_size: usize,
) -> (layers: Vec<ChunkLayer>)
    requires
        chunk * chunk_rows <= rows,
        rows * cols * 4 <= canvas@.len(),
    ensures
        chunk_layers_ok(layers@, canvas@, cols as int, rows as int, chunk as int, chunk_rows as int, pool_size as int),
{
    let canvas_len = canvas.len();
    let actual_rows = if chunk_rows <= rows - chunk * chunk_rows { chunk_rows } else { rows - chunk * chunk_rows };
    proof {
        assert(chunk * chunk_rows * cols + actual_rows * cols <= rows * cols) by (nonlinear_arith)
            requires chunk * chunk_rows + actual_rows <= rows;
        assert(chunk * chunk_rows * cols >= 0 && actual_rows * cols >= 0) by (nonlinear_arith);
        assert(rows * cols <= canvas_len);
    }
    let base = chunk * chunk_rows * cols;
    let n = actual_rows * cols;
    let n_bits = channel_bits_of(pool_size);
    let levels = levels_of(n_bits);
    let (opaque, values) = chunk_channels(canvas, base, n, levels);
    let ghost lit_count = 1 + 4 * n_bits;

    let mut layers: Vec<ChunkLayer> = Vec::new();
    let white_text = make_text(&opaque, actual_rows, cols);
    proof {
        assert(opaque@ =~= layer_mask(canvas@, base as int, n as int, 0, n_bits as int));
    }
    layers.push(ChunkLayer { rgba: 0xFFFF_FFFF, text: white_text });
    assert(0 * n_bits == 0);

    for ch in 0..4usize
        invariant
            actual_rows == chunk_actual_rows(rows as int, chunk as int, chunk_rows as int),
            base == chunk * chunk_rows * cols,
            n == actual_rows * cols,
            n_bits == channel_bits(pool_size as int),
            1 <= n_bits <= 8,
            levels == bit_levels(n_bits as int),
            opaque@.len() == n,
            values@.len() == 4,
            forall|c: int| 0 <= c < 4 ==> (#[trigger] values@[c])@.len() == n,
            forall|i: int| 0 <= i < n ==> #[trigger] opaque@[i] == pixel_opaque(canvas@, base + i),
            forall|c: int, i: int|
                0 <= c < 4 && 0 <= i < n && pixel_opaque(canvas@, base + i) ==> #[trigger] values@[c]@[i]
                    == channel_value(canvas@, base + i, c, levels as int),
            layers@.len() == 1 + ch * n_bits,
            forall|j: int|
                0 <= j < layers@.len() ==> {
                    &&& (#[trigger] layers@[j]).rgba == layer_rgba(j, n_bits as int)
                    &&& layers@[j].text@ == mask_text(
                        layer_mask(canvas@, base as int, n as int, j, n_bits as int),
                        actual_rows as int,
                        cols as int,
                    )
                },
    {
        for bit in 0..n_bits
            invariant
                ch < 4,
                actual_rows == chunk_actual_rows(rows as int, chunk as int, chunk_rows as int),
                base == chunk * chunk_rows * cols,
                n == actual_rows * cols,
                n_bits == channel_bits(pool_size as int),
                1 <= n_bits <= 8,
                levels == bit_levels(n_bits as int),
                opaque@.len() == n,
                values@.len() == 4,
                forall|c: int| 0 <= c < 4 ==> (#[trigger] values@[c])@.len() == n,
                forall|i: int| 0 <= i < n ==> #[trigger] opaque@[i] == pixel_opaque(canvas@, base + i),
                forall|c: int, i: int|
                    0 <= c < 4 && 0 <= i < n && pixel_opaque(canvas@, base + i) ==> #[trigger] values@[c]@[i]
                        == channel_value(canvas@, base + i, c, levels as int),
                layers@.len() == 1 + ch * n_bits + bit,
                forall|j: int|
                    0 <= j < layers@.len() ==> {
                        &&& (#[trigger] layers@[j]).rgba == layer_rgba(j, n_bits as int)
                        &&& layers@[j].text@ == mask_text(
                            layer_mask(canvas@, base as int, n as int, j, n_bits as int),
                            actual_rows as int,
                            cols as int,
                        )
                    },
        {
            let ghost j = 1 + ch * n_bits + bit;
            proof {
                vstd::arithmetic::div_mod::lemma_fundamental_div_mod_converse(
                    (j - 1) as int,
                    n_bits as int,
                    ch as int,
                    bit as int,
                );
                assert(j <= 4 * n_bits) by (nonlinear_arith)
                    requires j == 1 + ch * n_bits + bit, ch < 4, bit < n_bits;
            }
            let mask = channel_mask(&opaque, &values[ch], n, bit);
            proof {
                assert forall|i: int| 0 <= i < n implies #[trigger] mask@[i] == layer_mask(
                    canvas@,
                    base as int,
                    n as int,
                    j as int,
                    n_bits as int,
                )[i] by {
                    if pixel_opaque(canvas@, base + i) {
                        assert(values@[ch as int]@[i] == channel_value(canvas@, base + i, ch as int, levels as int));
                    }
                }
                assert(mask@ =~= layer_mask(canvas@, base as int, n as int, j as int, n_bits as int));
            }
            let text = make_text(&mask, actual_rows, cols);
            let alpha = bit_alpha(n_bits, bit, ch == 3);
            let rgba = channel_rgb_of(ch) | (alpha as u32);
            layers.push(ChunkLayer { rgba, text });
        }
        proof {
            assert(1 + ch * n_bits + n_bits == 1 + (ch + 1) * n_bits) by (nonlinear_arith);
        }
    }

    let blank_mask: Vec<bool> = vec![false; n];
    let blank = make_text(&blank_mask, actual_rows, cols);
    proof {
        assert forall|j: int| j > 4 * n_bits implies #[trigger] layer_mask(canvas@, base as int, n as int, j, n_bits as int)
            =~= blank_mask@ by {}
    }
    while layers.len() < pool_size
        invariant
            n_bits == channel_bits(pool_size as int),
            layers@.len() >= 1 + 4 * n_bits,
            layers@.len() <= pool_size || layers@.len() == 1 + 4 * n_bits,
            blank@ == mask_text(blank_mask@, actual_rows as int, cols as int),
            forall|j: int| j > 4 * n_bits ==> #[trigger] layer_mask(canvas@, base as int, n as int, j, n_bits as int)
                == blank_mask@,
            forall|j: int|
                0 <= j < layers@.len() ==> {
                    &&& (#[trigger] layers@[j]).rgba == layer_rgba(j, n_bits as int)
                    &&& layers@[j].text@ == mask_text(
                        layer_mask(canvas@, base as int, n as int, j, n_bits as int),
                        actual_rows as int,
                        cols as int,
                    )
                },
        decreases pool_size - layers@.len(),
    {
        layers.push(ChunkLayer { rgba: 0, text: blank.clone() });
    }
    layers
}

/// Builds one textdraw frame from a raw RGBA canvas `cols x rows` pixels in
/// size: the grid is cut into chunks of `chunk_rows_spec(cols)` rows, and
/// each chunk gets its own pool of layers.
pub fn build_frame(
    canvas: &[u8],
    delay: Duration,
    cols: usize,
    rows: usize,
    budget: usize,
) -> (frame: (TextDrawFrame, Duration))
    requires
        cols <= TD_STRING_MAX,
        rows + TD_STRING_MAX + 3 <= usize::MAX,
        rows * cols * 4 <= canvas@.len(),
    ensures
        frame.0.pool_size == pool_size_spec(cols as int, rows as int, budget as int),
        frame.0.chunk_layers@.len() == chunk_count_spec(cols as int, rows as int),
        frame.0.chunk_layers@.len() == textdraw_layout_spec(cols as int, rows as int, budget as int).1,
        frame.0.pool_size == textdraw_layout_spec(cols as int, rows as int, budget as int).2,
        forall|c: int|
            0 <= c < frame.0.chunk_layers@.len() ==> chunk_layers_ok(
                (#[trigger] frame.0.chunk_layers@[c])@,
                canvas@,
                cols as int,
                rows as int,
                c,
                chunk_rows_spec(cols as int),
                frame.0.pool_size as int,
            ),
        frame.1 == delay,
{
    let chunk_rows = (TD_STRING_MAX + 3) / (cols + 3);
    assert(chunk_rows >= 1) by (nonlinear_arith)
        requires cols <= 800, chunk_rows == 803int / (cols + 3) as int;
    let chunk_count = (rows + chunk_rows - 1) / chunk_rows;
    let divisor = if chunk_count >= 1 { chunk_count } else { 1 };
    let per_chunk = budget.saturating_sub(1) / divisor;
    let pool_size = if per_chunk >= 1 { per_chunk } else { 1 };

    let mut chunk_layers: Vec<Vec<ChunkLayer>> = Vec::new();
    for chunk in 0..chunk_count
        invariant
            chunk_rows == chunk_rows_spec(cols as int),
            chunk_rows >= 1,
            chunk_count == chunk_count_spec(cols as int, rows as int),
            pool_size == pool_size_spec(cols as int, rows as int, budget as int),
            rows * cols * 4 <= canvas@.len(),
            chunk_layers@.len() == chunk,
            forall|c: int|
                0 <= c < chunk ==> chunk_layers_ok(
                    (#[trigger] chunk_layers@[c])@,
                    canvas@,
                    cols as int,
                    rows as int,
                    c,
                    chunk_rows as int,
                    pool_size as int,
                ),
    {
        proof {
            assert(chunk * chunk_rows <= rows) by (nonlinear_arith)
                requires
                    chunk < chunk_count,
                    chunk_count == (rows + chunk_rows - 1) as int / chunk_rows as int,
                    chunk_rows >= 1;
        }
        let layers = build_chunk_layers(canvas, cols, rows, chunk, chunk_rows, pool_size);
        chunk_layers.push(layers);
    }
    (TextDrawFrame { pool_size, chunk_layers }, delay)
}

proof fn lemma_mask_text_len(mask: Seq<bool>, rows: int, cols: int)
    requires
        rows >= 1,
        cols >= 0,
    ensures
        mask_text(mask, rows, cols).len() == rows * cols + 3 * (rows - 1),
    decreases rows,
{
    if rows > 1 {
        lemma_mask_text_len(mask, rows - 1, cols);
        assert((rows - 1) * cols + cols == rows * cols) by (nonlinear_arith);
    } else {
        assert(mask_text(mask, 0, cols).len() == 0);
        assert(1 * cols == cols);
    }
}

/// Every layer text of a chunk fits in one textdraw string: a chunk has at
/// most `chunk_rows_spec(cols)` rows, each `cols` characters plus a `~n~`
/// break.
pub proof fn lemma_chunk_text_fits(mask: Seq<bool>, actual_rows: int, cols: int)
    requires
        0 <= cols <= TD_STRING_MAX,
        0 <= actual_rows <= chunk_rows_spec(cols),
    ensures
        mask_text(mask, actual_rows, cols).len() <= TD_STRING_MAX,
{
    if actual_rows >= 1 {
        lemma_mask_text_len(mask, actual_rows, cols);
        assert(actual_rows * (cols + 3) <= 803) by (nonlinear_arith)
            requires
                actual_rows <= 803int / (cols + 3),
                cols + 3 > 0,
                actual_rows >= 0;
        assert(actual_rows * cols + 3 * (actual_rows - 1) == actual_rows * (cols + 3) - 3) by (nonlinear_arith);
    }
}

/// The chunk layout that `build_frame` uses: rows per chunk, number of
/// chunks and textdraws per chunk, for creating the pools ahead of time.
pub fn textdraw_layout(cols: usize, rows: usize, budget: usize) -> (layout: (usize, usize, usize))
    requires
        cols <= TD_STRING_MAX,
        rows + TD_STRING_MAX + 3 <= usize::MAX,
    ensures
        layout.0 == chunk_rows_spec(cols as int),
        layout.1 == chunk_count_spec(cols as int, rows as int),
        layout.2 == pool_size_spec(cols as int, rows as int, budget as int),
        (layout.0 as int, layout.1 as int, layout.2 as int) == textdraw_layout_spec(cols as int, rows as int, budget as int),
{
    let chunk_rows = (TD_STRING_MAX + 3) / (cols + 3);
    assert(chunk_rows >= 1) by (nonlinear_arith)
        requires cols <= 800, chunk_rows == 803int / (cols + 3) as int;
    let chunk_count = (rows + chunk_rows - 1) / chunk_rows;
    let divisor = if chunk_count >= 1 { chunk_count } else { 1 };
    let per_chunk = budget.saturating_sub(1) / divisor;
    let pool_size = if per_chunk >= 1 { per_chunk } else { 1 };
    (chunk_rows, chunk_count, pool_size)
}


/// The grid a textdraw screen renders at, and its textdraw budget.
#[derive(Clone, Copy)]
pub struct TextDrawDecodeConfig {
    pub cols: usize,
    pub rows: usize,
    pub budget: usize,
}

impl TextDrawDecodeConfig {
    /// The size frames are decoded at: one pixel per grid cell.
    pub fn decode_dimensions(&self) -> (dims: (u32, u32))
        ensures
            dims.0 == self.cols as u32,
            dims.1 == self.rows as u32,
    {
        (self.cols as u32, self.rows as u32)
    }
}


/// With room for at least one textdraw per chunk besides the background
/// box, the pools `textdraw_layout` sizes (the same `build_frame` fills)
/// stay within the budget: one box plus `chunk_count` pools of
/// `pool_size`.
pub proof fn lemma_pools_fit_budget(cols: int, rows: int, budget: int)
    requires
        0 <= cols <= TD_STRING_MAX,
        rows >= 1,
        budget >= 1 + chunk_count_spec(cols, rows),
    ensures
        chunk_count_spec(cols, rows) >= 1,
        1 + chunk_count_spec(cols, rows) * pool_size_spec(cols, rows, budget) <= budget,
        1 + textdraw_layout_spec(cols, rows, budget).1 * textdraw_layout_spec(cols, rows, budget).2 <= budget,
{
    let chunk_rows = chunk_rows_spec(cols);
    assert(chunk_rows >= 1) by (nonlinear_arith)
        requires cols <= 800, cols >= 0, chunk_rows == 803int / (cols + 3);
    let cc = chunk_count_spec(cols, rows);
    assert(cc >= 1) by (nonlinear_arith)
        requires chunk_rows >= 1, rows >= 1, cc == (rows + chunk_rows - 1) / chunk_rows;
    let per = (budget - 1) / cc;
    assert(per >= 1 && cc * per <= budget - 1) by (nonlinear_arith)
        requires cc >= 1, budget - 1 >= cc, per == (budget - 1) / cc;
}


/// How strongly a layer of colour `colour` (`0xRRGGBB`) shows pixel `p`,
/// from 0 to 255: a green, blue or red layer by how far that byte of the
/// pixel rises above its weakest byte, a black layer by how far its
/// strongest byte falls below white.
pub open spec fn strength_for_colour(canvas: Seq<u8>, p: int, colour: u32) -> int {
    let r = canvas[p * 4] as int;
    let g = canvas[p * 4 + 1] as int;
    let b = canvas[p * 4 + 2] as int;
    let weakest = if r <= g && r <= b { r } else if g <= b { g } else { b };
    let strongest = if r >= g && r >= b { r } else if g >= b { g } else { b };
    if colour == 0x00FF00u32 {
        g - weakest
    } else if colour == 0x0000FFu32 {
        b - weakest
    } else if colour == 0xFF0000u32 {
        r - weakest
    } else {
        255 - strongest
    }
}

proof fn lemma_rgb_of_layer(ch: int, alpha: u8)
    requires
        0 <= ch <= 3,
    ensures
        (channel_rgb(ch) | (alpha as u32)) >> 8u32 == if ch == 0 {
            0x00FF00u32
        } else if ch == 1 {
            0x0000FFu32
        } else if ch == 2 {
            0xFF0000u32
        } else {
            0u32
        },
{
    let a = alpha as u32;
    assert(a <= 255);
    assert((0x00FF_0000u32 | a) >> 8u32 == 0x00FF00u32) by (bit_vector)
        requires a <= 255;
    assert((0x0000_FF00u32 | a) >> 8u32 == 0x0000FFu32) by (bit_vector)
        requires a <= 255;
    assert((0xFF00_0000u32 | a) >> 8u32 == 0xFF0000u32) by (bit_vector)
        requires a <= 255;
    assert((0u32 | a) >> 8u32 == 0u32) by (bit_vector)
        requires a <= 255;
}

/// Every bit layer of a chunk lights a cell by the colour it is drawn in:
/// for the layer painted green (`0x00FF00`) it is the pixel's green byte
/// above its weakest byte, for blue the blue byte, for red the red byte,
/// for black the strongest byte below 255, scaled to the channel's
/// `2^bits - 1` levels and rounded; the layer shows bit `(j - 1) % bits`
/// of that level, on opaque pixels only. So a pure green pixel lights
/// green layers and never blue or red ones.
pub proof fn lemma_layer_lights_by_its_colour(
    layers: Seq<ChunkLayer>,
    canvas: Seq<u8>,
    cols: int,
    rows: int,
    chunk: int,
    chunk_rows: int,
    pool_size: int,
    j: int,
)
    requires
        chunk_layers_ok(layers, canvas, cols, rows, chunk, chunk_rows, pool_size),
        1 <= j <= 4 * channel_bits(pool_size),
    ensures
        ({
            let n_bits = channel_bits(pool_size);
            let actual_rows = chunk_actual_rows(rows, chunk, chunk_rows);
            let base = chunk * chunk_rows * cols;
            let colour = layers[j].rgba >> 8u32;
            let lit = Seq::new(
                (actual_rows * cols) as nat,
                |i: int|
                    canvas[(base + i) * 4 + 3] >= 128 && bit_set(
                        ((strength_for_colour(canvas, base + i, colour) * bit_levels(n_bits) + 127) / 255) as u8,
                        ((j - 1) % n_bits) as u32,
                    ),
            );
            &&& colour == if j <= n_bits {
                0x00FF00u32
            } else if j <= 2 * n_bits {
                0x0000FFu32
            } else if j <= 3 * n_bits {
                0xFF0000u32
            } else {
                0u32
            }
            &&& layers[j].text@ == mask_text(lit, actual_rows, cols)
        }),
{
    let n_bits = channel_bits(pool_size);
    let actual_rows = chunk_actual_rows(rows, chunk, chunk_rows);
    let base = chunk * chunk_rows * cols;
    assert(1 <= n_bits <= 8);
    assert(j < chunk_layer_count(pool_size));
    let ch = (j - 1) / n_bits;
    assert(0 <= ch <= 3) by (nonlinear_arith)
        requires 1 <= j <= 4 * n_bits, n_bits >= 1, ch == (j - 1) / n_bits;
    assert(ch == 0 <==> j <= n_bits) by (nonlinear_arith)
        requires 1 <= j <= 4 * n_bits, n_bits >= 1, ch == (j - 1) / n_bits;
    assert(ch <= 1 <==> j <= 2 * n_bits) by (nonlinear_arith)
        requires 1 <= j <= 4 * n_bits, n_bits >= 1, ch == (j - 1) / n_bits;
    assert(ch <= 2 <==> j <= 3 * n_bits) by (nonlinear_arith)
        requires 1 <= j <= 4 * n_bits, n_bits >= 1, ch == (j - 1) / n_bits;
    assert(layers[j].rgba == layer_rgba(j, n_bits));
    lemma_rgb_of_layer(ch, bit_alpha_spec(n_bits, (j - 1) % n_bits, ch == 3));
    let colour = layers[j].rgba >> 8u32;
    let lit = Seq::new(
        (actual_rows * cols) as nat,
        |i: int|
            canvas[(base + i) * 4 + 3] >= 128 && bit_set(
                ((strength_for_colour(canvas, base + i, colour) * bit_levels(n_bits) + 127) / 255) as u8,
                ((j - 1) % n_bits) as u32,
            ),
    );
    let mask = layer_mask(canvas, base, actual_rows * cols, j, n_bits);
    lemma_bit_levels(n_bits);
    assert forall|i: int| 0 <= i < mask.len() implies mask[i] == lit[i] by {
        let p = base + i;
        assert(px(canvas, p, 0) == canvas[p * 4] as int);
        assert(px(canvas, p, 3) == canvas[p * 4 + 3] as int);
        assert((base + i) * 4 + 3 == p * 4 + 3);
    }
    assert(mask =~= lit);
}


/// The first layer of a chunk is the white base: it lights every opaque
/// pixel of the chunk. Layers past the bit layers are transparent and
/// light nothing.
pub proof fn lemma_base_and_blank_layers(
    layers: Seq<ChunkLayer>,
    canvas: Seq<u8>,
    cols: int,
    rows: int,
    chunk: int,
    chunk_rows: int,
    pool_size: int,
    j: int,
)
    requires
        chunk_layers_ok(layers, canvas, cols, rows, chunk, chunk_rows, pool_size),
        j == 0 || 4 * channel_bits(pool_size) < j < layers.len(),
    ensures
        ({
            let actual_rows = chunk_actual_rows(rows, chunk, chunk_rows);
            let base = chunk * chunk_rows * cols;
            let lit = Seq::new(
                (actual_rows * cols) as nat,
                |i: int| j == 0 && canvas[(base + i) * 4 + 3] >= 128,
            );
            &&& layers[j].rgba == if j == 0 { 0xFFFF_FFFFu32 } else { 0u32 }
            &&& layers[j].text@ == mask_text(lit, actual_rows, cols)
        }),
{
    let n_bits = channel_bits(pool_size);
    let actual_rows = chunk_actual_rows(rows, chunk, chunk_rows);
    let base = chunk * chunk_rows * cols;
    assert(layers.len() == chunk_layer_count(pool_size));
    assert(layers[j].rgba == layer_rgba(j, n_bits));
    let lit = Seq::new((actual_rows * cols) as nat, |i: int| j == 0 && canvas[(base + i) * 4 + 3] >= 128);
    let mask = layer_mask(canvas, base, actual_rows * cols, j, n_bits);
    assert forall|i: int| 0 <= i < mask.len() implies mask[i] == lit[i] by {
        assert((base + i) * 4 + 3 == (base + i) * 4 + 3);
    }
    assert(mask =~= lit);
}

} // verus!
