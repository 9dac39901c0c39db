//! Pixel buffers: raw RGBA canvases (4 bytes per pixel, row-major) and
//! packed ARGB grids (`i32` per pixel, alpha in the top byte).

use vstd::prelude::*;

verus! {

/// Alpha byte of a packed ARGB pixel.
pub open spec fn alpha_of(pixel: i32) -> i32 {
    (pixel >> 24u32) & 0xFF
}

/// Red byte of a packed ARGB pixel.
pub open spec fn red_of(pixel: i32) -> i32 {
    (pixel >> 16u32) & 0xFF
}

/// Green byte of a packed ARGB pixel.
pub open spec fn green_of(pixel: i32) -> i32 {
    (pixel >> 8u32) & 0xFF
}

/// Blue byte of a packed ARGB pixel.
pub open spec fn blue_of(pixel: i32) -> i32 {
    pixel & 0xFF
}

/// Magnitude of a quantisation step.
pub open spec fn step_size(step: i32) -> int {
    if step < 0 { -step } else { step as int }
}

/// Rounds a (non-negative) channel value down to a multiple of the step's
/// magnitude; this is what `(value / step) * step` computes in Rust.
pub open spec fn quantize_channel(value: i32, step: i32) -> i32 {
    (((value as int) / step_size(step)) * step_size(step)) as i32
}

/// The pixel with its colour channels rounded down to multiples of `step`
/// and its alpha byte kept as it was.
pub open spec fn quantized_pixel(pixel: i32, step: i32) -> i32 {
    (pixel & !0x00FF_FFFFi32)
        | (quantize_channel(red_of(pixel), step) << 16u32)
        | (quantize_channel(green_of(pixel), step) << 8u32)
        | quantize_channel(blue_of(pixel), step)
}

proof fn lemma_quantize_channel_bounds(value: u32, size: u32)
    requires
        value <= 255,
        size != 0,
    ensures
        (value / size) * size <= value,
{
    assert((value / size) * size <= value) by (nonlinear_arith)
        requires
            size != 0,
    ;
}

fn quantize_byte(value: i32, step: i32) -> (result: i32)
    requires
        0 <= value <= 255,
        step != 0,
    ensures
        result == quantize_channel(value, step),
        0 <= result <= value,
{
    let size: u32 = if step > 0 { step as u32 } else { (0i64 - step as i64) as u32 };
    let v = value as u32;
    proof {
        lemma_quantize_channel_bounds(v, size);
    }
    ((v / size) * size) as i32
}

pub fn quantize_pixel(pixel: i32, step: i32) -> (result: i32)
    requires
        step != 0,
    ensures
        result == quantized_pixel(pixel, step),
{
    let alpha = pixel & !0x00FF_FFFF;
    let r = (pixel >> 16) & 0xFF;
    let g = (pixel >> 8) & 0xFF;
    let b = pixel & 0xFF;
    assert(0 <= r <= 255 && 0 <= g <= 255 && 0 <= b <= 255) by (bit_vector)
        requires
            r == (pixel >> 16u32) & 0xFF,
            g == (pixel >> 8u32) & 0xFF,
            b == pixel & 0xFF,
    ;
    let r = quantize_byte(r, step);
    let g = quantize_byte(g, step);
    let b = quantize_byte(b, step);

    alpha | (r << 16) | (g << 8) | b
}

/// The rows of a pixel grid as sequences.
pub open spec fn grid_view(pixels: Seq<Vec<i32>>) -> Seq<Seq<i32>> {
    pixels.map_values(|row: Vec<i32>| row@)
}

/// A grid with every pixel quantised with `step`.
pub open spec fn quantized_rows(grid: Seq<Seq<i32>>, step: i32) -> Seq<Seq<i32>> {
    grid.map_values(|row: Seq<i32>| row.map_values(|p: i32| quantized_pixel(p, step)))
}

/// Every pixel of a grid quantised with `step`.
pub open spec fn quantized_grid(pixels: Seq<Vec<i32>>, step: i32, result: Seq<Vec<i32>>) -> bool {
    &&& result.len() == pixels.len()
    &&& forall|i: int| 0 <= i < pixels.len() ==> (#[trigger] result[i])@.len() == pixels[i]@.len()
    &&& forall|i: int, j: int|
        0 <= i < pixels.len() && 0 <= j < pixels[i]@.len() ==> (#[trigger] result[i]@[j])
            == quantized_pixel(pixels[i]@[j], step)
}

pub fn quantize_pixels(pixels: &[Vec<i32>], step: i32) -> (result: Vec<Vec<i32>>)
    requires
        step != 0,
    ensures
        quantized_grid(pixels@, step, result@),
        grid_view(result@) == quantized_rows(grid_view(pixels@), step),
{
    let mut result: Vec<Vec<i32>> = Vec::new();
    for i in 0..pixels.len()
        invariant
            result@.len() == i,
            step != 0,
            forall|k: int| 0 <= k < i ==> (#[trigger] result@[k])@.len() == pixels@[k]@.len(),
            forall|k: int, j: int|
                0 <= k < i && 0 <= j < pixels@[k]@.len() ==> (#[trigger] result@[k]@[j])
                    == quantized_pixel(pixels@[k]@[j], step),
    {
        let row = &pixels[i];
        let mut out: Vec<i32> = Vec::new();
        for j in 0..row.len()
            invariant
                out@.len() == j,
                step != 0,
                forall|m: int| 0 <= m < j ==> out@[m] == quantized_pixel(row@[m], step),
        {
            out.push(quantize_pixel(row[j], step));
        }
        result.push(out);
    }
    proof {
        assert forall|k: int| 0 <= k < result@.len() implies #[trigger] grid_view(result@)[k]
            =~= quantized_rows(grid_view(pixels@), step)[k] by {}
        assert(grid_view(result@) =~= quantized_rows(grid_view(pixels@), step));
    }
    result
}

/// The byte offset in a region of `width_bytes` bytes per row.
pub open spec fn region_offset(row: int, width_bytes: int, k: int) -> int {
    row * width_bytes + k
}

/// The canvas byte that lands at (`row`, `k`) of an extracted region.
pub open spec fn canvas_offset(canvas_width: int, region_x: int, region_y: int, row: int, k: int) -> int {
    ((region_y + row) * canvas_width + region_x) * 4 + k
}

proof fn lemma_region_rows(row: int, r: int, w4: int, k: int)
    requires
        0 <= r < row,
        0 <= k < w4,
    ensures
        0 <= r * w4 + k < row * w4,
{
    assert(0 <= r * w4 + k < row * w4) by (nonlinear_arith)
        requires
            0 <= r < row,
            0 <= k < w4,
    ;
}

proof fn lemma_canvas_row_bound(row: int, rows: int, canvas_width: int, region_x: int, region_y: int, w4: int)
    requires
        0 <= row < rows,
        0 <= canvas_width,
        0 <= region_x,
        0 <= region_y,
    ensures
        (region_y + row) * canvas_width <= (region_y + rows - 1) * canvas_width,
{
    assert((region_y + row) * canvas_width <= (region_y + rows - 1) * canvas_width) by (nonlinear_arith)
        requires
            0 <= row < rows,
            0 <= canvas_width,
    ;
}

/// The bytes of a `width x height` rectangle at (`x`, `y`) of a canvas
/// `canvas_width` pixels wide, row by row.
pub open spec fn region_bytes(canvas: Seq<u8>, canvas_width: int, x: int, y: int, width: int, height: int) -> Seq<u8> {
    Seq::new(
        (width * height * 4) as nat,
        |i: int| canvas[canvas_offset(canvas_width, x, y, i / (width * 4), i % (width * 4))],
    )
}

proof fn lemma_region_bytes(out: Seq<u8>, canvas: Seq<u8>, canvas_width: int, x: int, y: int, width: int, height: int)
    requires
        width >= 0,
        height > 0,
        out.len() == width * height * 4,
        forall|row: int, k: int|
            0 <= row < height && 0 <= k < width * 4 ==> #[trigger] out[region_offset(row, width * 4, k)]
                == canvas[canvas_offset(canvas_width, x, y, row, k)],
    ensures
        out == region_bytes(canvas, canvas_width, x, y, width, height),
{
    let w4 = width * 4;
    if width == 0 {
        assert(width * height * 4 == 0) by (nonlinear_arith) requires width == 0;
        assert(out =~= region_bytes(canvas, canvas_width, x, y, width, height));
        return;
    }
    assert forall|i: int| 0 <= i < out.len() implies out[i] == region_bytes(canvas, canvas_width, x, y, width, height)[i] by {
        let row = i / w4;
        let k = i % w4;
        vstd::arithmetic::div_mod::lemma_fundamental_div_mod(i, w4);
        vstd::arithmetic::div_mod::lemma_mod_pos_bound(i, w4);
        assert(0 <= row < height) by (nonlinear_arith)
            requires
                i == w4 * row + k,
                0 <= k < w4,
                0 <= i < width * height * 4,
                w4 == width * 4,
                width > 0;
        assert(region_offset(row, w4, k) == i) by (nonlinear_arith)
            requires i == w4 * row + k;
    }
    assert(out =~= region_bytes(canvas, canvas_width, x, y, width, height));
}

/// Copies a `region_w x region_h` rectangle out of a larger raw RGBA canvas.
pub fn extract_region(
    canvas: &[u8],
    canvas_width: usize,
    region_x: usize,
    region_y: usize,
    region_w: usize,
    region_h: usize,
) -> (out: Vec<u8>)
    requires
        region_w * region_h * 4 <= usize::MAX,
        region_y + region_h <= usize::MAX,
        region_h > 0 ==> ((region_y + region_h - 1) * canvas_width + region_x + region_w) * 4
            <= canvas@.len(),
    ensures
        out@.len() == region_w * region_h * 4,
        forall|row: int, k: int|
            0 <= row < region_h && 0 <= k < region_w * 4 ==> #[trigger] out@[region_offset(
                row,
                region_w * 4,
                k,
            )] == canvas@[canvas_offset(canvas_width as int, region_x as int, region_y as int, row, k)],
        out@ == region_bytes(canvas@, canvas_width as int, region_x as int, region_y as int, region_w as int, region_h as int),
{
    let mut out: Vec<u8> = Vec::new();
    if region_h == 0 {
        assert(region_w * 0 * 4 == 0) by (nonlinear_arith);
        assert(out@ =~= region_bytes(canvas@, canvas_width as int, region_x as int, region_y as int, region_w as int, region_h as int));
        return out;
    }
    let canvas_len = canvas.len();
    proof {
        assert(region_w * 4 <= region_w * region_h * 4) by (nonlinear_arith)
            requires
                region_h >= 1,
        ;
    }
    let w4 = region_w * 4;
    assert(0 * w4 == 0);
    for row in 0..region_h
        invariant
            w4 == region_w * 4,
            canvas_len == canvas@.len(),
            region_w * region_h * 4 <= usize::MAX,
            region_y + region_h <= usize::MAX,
            region_h > 0,
            ((region_y + region_h - 1) * canvas_width + region_x + region_w) * 4 <= canvas@.len(),
            out@.len() == row * w4,
            forall|r: int, k: int|
                0 <= r < row && 0 <= k < w4 ==> #[trigger] out@[region_offset(r, w4 as int, k)]
                    == canvas@[canvas_offset(canvas_width as int, region_x as int, region_y as int, r, k)],
    {
        proof {
            lemma_canvas_row_bound(row as int, region_h as int, canvas_width as int, region_x as int, region_y as int, w4 as int);
            let top = (region_y + region_h - 1) * canvas_width;
            assert((region_y + row) * canvas_width <= top);
            assert((top + region_x + region_w) * 4 <= canvas_len);
            assert(((region_y + row) * canvas_width + region_x) * 4 + w4 <= canvas_len);
            assert((row + 1) * w4 == row * w4 + w4) by (nonlinear_arith);
            assert((row + 1) * w4 <= region_h * w4) by (nonlinear_arith)
                requires row < region_h, 0 <= w4;
            assert(region_h * w4 == region_w * region_h * 4) by (nonlinear_arith)
                requires w4 == region_w * 4;
        }
        let src_start = ((region_y + row) * canvas_width + region_x) * 4;
        let ghost before = out@;
        for k in 0..w4
            invariant
                w4 == region_w * 4,
                src_start == ((region_y + row) * canvas_width + region_x) * 4,
                src_start + w4 <= canvas_len,
                canvas_len == canvas@.len(),
                out@.len() == row * w4 + k,
                (row + 1) * w4 <= usize::MAX,
                forall|i: int| 0 <= i < row * w4 ==> out@[i] == before[i],
                forall|m: int| 0 <= m < k ==> #[trigger] out@[region_offset(row as int, w4 as int, m)] == canvas@[src_start + m],
        {
            out.push(canvas[src_start + k]);
        }
        proof {
            assert forall|r: int, k: int|
                0 <= r < row + 1 && 0 <= k < w4 implies #[trigger] out@[region_offset(r, w4 as int, k)]
                    == canvas@[canvas_offset(canvas_width as int, region_x as int, region_y as int, r, k)] by {
                if r < row {
                    lemma_region_rows(row as int, r, w4 as int, k);
                    assert(out@[r * w4 + k] == before[r * w4 + k]);
                } else {
                    assert(region_offset(r, w4 as int, k) == row * w4 + k);
                }
            }
        }
    }
    proof {
        assert(region_h * w4 == region_w * region_h * 4) by (nonlinear_arith)
            requires w4 == region_w * 4;
        lemma_region_bytes(out@, canvas@, canvas_width as int, region_x as int, region_y as int, region_w as int, region_h as int);
    }
    out
}

/// Packs RGBA bytes into an ARGB pixel (alpha in the top byte).
pub open spec fn argb_from_rgba(r: u8, g: u8, b: u8, a: u8) -> i32 {
    (((a as u32) << 24u32) | ((r as u32) << 16u32) | ((g as u32) << 8u32) | (b as u32)) as i32
}

/// The ARGB pixel made of the four canvas bytes starting at `index`.
pub open spec fn canvas_pixel(canvas: Seq<u8>, index: int) -> i32 {
    argb_from_rgba(canvas[index], canvas[index + 1], canvas[index + 2], canvas[index + 3])
}

/// `value` capped at `limit - 1` (at 0 when `limit` is 0).
pub open spec fn clamp_below(value: int, limit: int) -> int {
    let top = if limit > 0 { limit - 1 } else { 0 };
    if value < top { value } else { top }
}

/// Canvas column read for grid row `row` of a `rows`-row downsample.
pub open spec fn downsample_src_x(width: int, rows: int, row: int) -> int {
    clamp_below(row * width / rows, width)
}

/// Canvas line read for grid column `col`: columns run bottom to top.
pub open spec fn downsample_src_y(height: int, cols: int, col: int) -> int {
    height - 1 - clamp_below(col * height / cols, height)
}

/// Byte offset of the canvas pixel sampled for grid cell (`row`, `col`).
pub open spec fn downsample_index(width: int, height: int, rows: int, cols: int, row: int, col: int) -> int {
    (downsample_src_y(height, cols, col) * width + downsample_src_x(width, rows, row)) * 4
}

/// Every sampled canvas pixel lies inside the canvas.
pub open spec fn downsample_in_bounds(canvas_len: int, width: int, height: int, rows: int, cols: int) -> bool {
    forall|row: int, col: int|
        0 <= row < rows && 0 <= col < cols ==> #[trigger] downsample_index(width, height, rows, cols, row, col) + 4
            <= canvas_len
}

/// The grid that `downsample_to_argb` samples, as rows of pixels.
pub open spec fn downsampled(canvas: Seq<u8>, width: int, height: int, rows: int, cols: int) -> Seq<Seq<i32>> {
    Seq::new(
        rows as nat,
        |row: int| Seq::new(cols as nat, |col: int| canvas_pixel(canvas, downsample_index(width, height, rows, cols, row, col))),
    )
}

/// The grid that `downsample_to_argb` produces.
pub open spec fn is_downsampled(canvas: Seq<u8>, width: int, height: int, rows: int, cols: int, grid: Seq<Vec<i32>>) -> bool {
    &&& grid.len() == rows
    &&& forall|row: int| 0 <= row < rows ==> (#[trigger] grid[row])@.len() == cols
    &&& forall|row: int, col: int|
        0 <= row < rows && 0 <= col < cols ==> (#[trigger] grid[row]@[col]) == canvas_pixel(
            canvas,
            downsample_index(width, height, rows, cols, row, col),
        )
}

proof fn lemma_scaled_index(i: int, n: int, size: int)
    requires
        0 <= i < n,
        0 <= size,
    ensures
        0 <= i * size / n <= size,
        i * size <= (n - 1) * size,
{
    assert(0 <= i * size / n <= size) by (nonlinear_arith)
        requires 0 <= i < n, 0 <= size;
    assert(i * size <= (n - 1) * size) by (nonlinear_arith)
        requires 0 <= i < n, 0 <= size;
}

fn packed_pixel(canvas: &[u8], index: usize) -> (pixel: i32)
    requires
        index + 4 <= canvas@.len(),
    ensures
        pixel == canvas_pixel(canvas@, index as int),
{
    let r = canvas[index] as u32;
    let g = canvas[index + 1] as u32;
    let b = canvas[index + 2] as u32;
    let a = canvas[index + 3] as u32;
    ((a << 24) | (r << 16) | (g << 8) | b) as i32
}

/// Samples a `rows x cols` ARGB grid out of a `width x height` RGBA canvas;
/// grid rows walk the canvas left to right, grid columns bottom to top.
pub fn downsample_to_argb(
    canvas: &[u8],
    width: usize,
    height: usize,
    rows: usize,
    cols: usize,
) -> (pixels: Vec<Vec<i32>>)
    requires
        rows > 0 ==> (rows - 1) * width <= usize::MAX,
        cols > 0 ==> (cols - 1) * height <= usize::MAX,
        rows > 0 && cols > 0 ==> height >= 1,
        downsample_in_bounds(canvas@.len() as int, width as int, height as int, rows as int, cols as int),
    ensures
        is_downsampled(canvas@, width as int, height as int, rows as int, cols as int, pixels@),
        grid_view(pixels@) == downsampled(canvas@, width as int, height as int, rows as int, cols as int),
{
    let mut pixels: Vec<Vec<i32>> = Vec::new();
    let canvas_len = canvas.len();
    for row in 0..rows
        invariant
            pixels@.len() == row,
            canvas_len == canvas@.len(),
            rows > 0 ==> (rows - 1) * width <= usize::MAX,
            cols > 0 ==> (cols - 1) * height <= usize::MAX,
            rows > 0 && cols > 0 ==> height >= 1,
            downsample_in_bounds(canvas@.len() as int, width as int, height as int, rows as int, cols as int),
            forall|r: int| 0 <= r < row ==> (#[trigger] pixels@[r])@.len() == cols,
            forall|r: int, c: int|
                0 <= r < row && 0 <= c < cols ==> (#[trigger] pixels@[r]@[c]) == canvas_pixel(
                    canvas@,
                    downsample_index(width as int, height as int, rows as int, cols as int, r, c),
                ),
    {
        proof {
            lemma_scaled_index(row as int, rows as int, width as int);
        }
        let scaled_x = row * width / rows;
        let top_x = width.saturating_sub(1);
        let src_x = if scaled_x < top_x { scaled_x } else { top_x };
        let mut line: Vec<i32> = Vec::new();
        for col in 0..cols
            invariant
                line@.len() == col,
                canvas_len == canvas@.len(),
                0 <= row < rows,
                src_x == downsample_src_x(width as int, rows as int, row as int),
                cols > 0 ==> (cols - 1) * height <= usize::MAX,
                cols > 0 ==> height >= 1,
                downsample_in_bounds(canvas@.len() as int, width as int, height as int, rows as int, cols as int),
                forall|c: int|
                    0 <= c < col ==> (#[trigger] line@[c]) == canvas_pixel(
                        canvas@,
                        downsample_index(width as int, height as int, rows as int, cols as int, row as int, c),
                    ),
        {
            proof {
                lemma_scaled_index(col as int, cols as int, height as int);
                assert(downsample_index(width as int, height as int, rows as int, cols as int, row as int, col as int) + 4
                    <= canvas@.len());
            }
            let scaled_y = col * height / cols;
            let top_y = height.saturating_sub(1);
            let forward_y = if scaled_y < top_y { scaled_y } else { top_y };
            let src_y = height - 1 - forward_y;
            let pixel_index = (src_y * width + src_x) * 4;
            line.push(packed_pixel(canvas, pixel_index));
        }
        pixels.push(line);
    }
    proof {
        let d = downsampled(canvas@, width as int, height as int, rows as int, cols as int);
        assert forall|r: int| 0 <= r < rows implies #[trigger] grid_view(pixels@)[r] =~= d[r] by {}
        assert(grid_view(pixels@) =~= d);
    }
    pixels
}

/// With a canvas of at least `width * height` pixels every sampled pixel
/// lies inside it.
pub proof fn lemma_downsample_in_bounds(canvas_len: int, width: int, height: int, rows: int, cols: int)
    requires
        width >= 1,
        height >= 1,
        rows >= 1,
        cols >= 1,
        canvas_len >= width * height * 4,
    ensures
        downsample_in_bounds(canvas_len, width, height, rows, cols),
{
    assert forall|row: int, col: int| 0 <= row < rows && 0 <= col < cols implies #[trigger] downsample_index(
        width,
        height,
        rows,
        cols,
        row,
        col,
    ) + 4 <= canvas_len by {
        lemma_scaled_index(row, rows, width);
        lemma_scaled_index(col, cols, height);
        let sx = downsample_src_x(width, rows, row);
        let sy = downsample_src_y(height, cols, col);
        assert(0 <= sx <= width - 1);
        assert(0 <= sy <= height - 1);
        assert((sy * width + sx) * 4 + 4 <= width * height * 4) by (nonlinear_arith)
            requires
                0 <= sx <= width - 1,
                0 <= sy <= height - 1,
                width >= 1;
    }
}


/// Packing channel bytes into a pixel and reading them back gives the same
/// bytes, and the alpha byte of the base pixel.
proof fn lemma_pack_channels(p: i32, r: i32, g: i32, b: i32)
    requires
        0 <= r <= 255,
        0 <= g <= 255,
        0 <= b <= 255,
    ensures
        ({
            let q = (p & !0x00FF_FFFFi32) | (r << 16u32) | (g << 8u32) | b;
            &&& red_of(q) == r
            &&& green_of(q) == g
            &&& blue_of(q) == b
            &&& q & !0x00FF_FFFFi32 == p & !0x00FF_FFFFi32
        }),
{
    assert(((((p & !0x00FF_FFFFi32) | (r << 16u32) | (g << 8u32) | b) >> 16u32) & 0xFF) == r
        && ((((p & !0x00FF_FFFFi32) | (r << 16u32) | (g << 8u32) | b) >> 8u32) & 0xFF) == g
        && (((p & !0x00FF_FFFFi32) | (r << 16u32) | (g << 8u32) | b) & 0xFF) == b
        && (((p & !0x00FF_FFFFi32) | (r << 16u32) | (g << 8u32) | b) & !0x00FF_FFFFi32) == p & !0x00FF_FFFFi32)
        by (bit_vector)
        requires
            0 <= r <= 255,
            0 <= g <= 255,
            0 <= b <= 255,
    ;
}

/// A pixel is its alpha byte and its three channel bytes put back together.
proof fn lemma_unpack_channels(p: i32)
    ensures
        p == (p & !0x00FF_FFFFi32) | (red_of(p) << 16u32) | (green_of(p) << 8u32) | blue_of(p),
        0 <= red_of(p) <= 255,
        0 <= green_of(p) <= 255,
        0 <= blue_of(p) <= 255,
{
    assert(p == (p & !0x00FF_FFFFi32) | (((p >> 16u32) & 0xFF) << 16u32) | (((p >> 8u32) & 0xFF) << 8u32) | (p & 0xFF)
        && 0 <= ((p >> 16u32) & 0xFF) <= 255 && 0 <= ((p >> 8u32) & 0xFF) <= 255 && 0 <= (p & 0xFF) <= 255)
        by (bit_vector);
}

/// Rounding a channel value down to the step is idempotent, keeps it in
/// range, and is the identity for a step of one.
proof fn lemma_quantize_channel(v: i32, step: i32)
    requires
        0 <= v <= 255,
        step != 0,
    ensures
        0 <= quantize_channel(v, step) <= v,
        quantize_channel(quantize_channel(v, step), step) == quantize_channel(v, step),
        quantize_channel(v, 1) == v,
{
    let s = step_size(step);
    let q = (v as int / s) * s;
    assert(0 <= q <= v) by (nonlinear_arith)
        requires s > 0, 0 <= v, q == (v as int / s) * s;
    assert((q / s) * s == q) by (nonlinear_arith)
        requires s > 0, q == (v as int / s) * s, v >= 0;
    assert(step_size(1) == 1);
    assert((v as int / 1) * 1 == v);
}

/// Quantising an already quantised pixel changes nothing.
pub proof fn lemma_quantize_idempotent(pixel: i32, step: i32)
    requires
        step != 0,
    ensures
        quantized_pixel(quantized_pixel(pixel, step), step) == quantized_pixel(pixel, step),
{
    lemma_unpack_channels(pixel);
    lemma_quantize_channel(red_of(pixel), step);
    lemma_quantize_channel(green_of(pixel), step);
    lemma_quantize_channel(blue_of(pixel), step);
    lemma_pack_channels(
        pixel,
        quantize_channel(red_of(pixel), step),
        quantize_channel(green_of(pixel), step),
        quantize_channel(blue_of(pixel), step),
    );
}

/// Quantising with a step of one leaves a pixel as it is.
pub proof fn lemma_quantize_step_one(pixel: i32)
    ensures
        quantized_pixel(pixel, 1) == pixel,
{
    lemma_unpack_channels(pixel);
    lemma_quantize_channel(red_of(pixel), 1);
    lemma_quantize_channel(green_of(pixel), 1);
    lemma_quantize_channel(blue_of(pixel), 1);
}

/// Quantising a quantised grid again changes nothing, and a step of one
/// leaves a grid as it is.
pub proof fn lemma_quantize_grid_laws(grid: Seq<Seq<i32>>, step: i32)
    requires
        step != 0,
    ensures
        quantized_rows(quantized_rows(grid, step), step) == quantized_rows(grid, step),
        quantized_rows(grid, 1) == grid,
{
    let once = quantized_rows(grid, step);
    assert forall|i: int| 0 <= i < grid.len() implies #[trigger] quantized_rows(once, step)[i] == once[i] by {
        assert forall|j: int| 0 <= j < grid[i].len() implies #[trigger] quantized_rows(once, step)[i][j] == once[i][j] by {
            lemma_quantize_idempotent(grid[i][j], step);
        }
        assert(quantized_rows(once, step)[i] =~= once[i]);
    }
    assert(quantized_rows(once, step) =~= once);
    assert forall|i: int| 0 <= i < grid.len() implies #[trigger] quantized_rows(grid, 1)[i] == grid[i] by {
        assert forall|j: int| 0 <= j < grid[i].len() implies #[trigger] quantized_rows(grid, 1)[i][j] == grid[i][j] by {
            lemma_quantize_step_one(grid[i][j]);
        }
        assert(quantized_rows(grid, 1)[i] =~= grid[i]);
    }
    assert(quantized_rows(grid, 1) =~= grid);
}

} // verus!
