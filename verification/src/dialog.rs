//! Dialog screens: a frame is drawn as the body text of a message box,
//! one `@` per pixel, where each row is cut into segments that share one
//! averaged `{RRGGBB}` colour tag (the dialog body and each of its lines
//! have a length limit, so colour tags are rationed between rows).

use vstd::prelude::*;
use crate::frame3d::{is_opaque, rgb_of};
use crate::pixel::{canvas_pixel, clamp_below, grid_view};
use crate::text::{color_tag, push_char, push_color_tag};

verus! {

/// Longest dialog body.
pub const MAX_DIALOG_BODY_LEN: usize = 4096;

/// Longest dialog line.
pub const MAX_DIALOG_ROW_LEN: usize = 128;

/// Sums of the red, green and blue bytes of the opaque pixels of a
/// segment, and how many there are.
pub open spec fn segment_sums(segment: Seq<i32>) -> (int, int, int, int)
    decreases segment.len(),
{
    if segment.len() == 0 {
        (0, 0, 0, 0)
    } else {
        let (r, g, b, n) = segment_sums(segment.drop_last());
        let p = segment.last();
        if !is_opaque(p) {
            (r, g, b, n)
        } else {
            (r + ((p >> 16u32) & 0xFF), g + ((p >> 8u32) & 0xFF), b + (p & 0xFF), n + 1)
        }
    }
}

/// The rounded average colour of `len` pixels with the given channel sums.
pub open spec fn average_rgb_spec(r_sum: u32, g_sum: u32, b_sum: u32, len: u32) -> i32 {
    let r = ((r_sum + len / 2) / len as int) as u32;
    let g = ((g_sum + len / 2) / len as int) as u32;
    let b = ((b_sum + len / 2) / len as int) as u32;
    ((r << 16u32) | (g << 8u32) | b) as i32
}

/// The averaged colour of a segment's opaque pixels, if it has any.
pub open spec fn segment_average(segment: Seq<i32>) -> Option<i32> {
    let (r, g, b, n) = segment_sums(segment);
    if n > 0 {
        Some(average_rgb_spec(r as u32, g as u32, b as u32, n as u32))
    } else {
        None
    }
}

/// Segments short enough for their channel sums to fit in a `u32`.
pub open spec fn segment_len_ok(len: int) -> bool {
    len <= 0x100_0000
}

proof fn lemma_segment_sums_bounds(segment: Seq<i32>)
    ensures
        ({
            let (r, g, b, n) = segment_sums(segment);
            &&& 0 <= n <= segment.len()
            &&& 0 <= r <= 255 * n
            &&& 0 <= g <= 255 * n
            &&& 0 <= b <= 255 * n
        }),
    decreases segment.len(),
{
    if segment.len() > 0 {
        lemma_segment_sums_bounds(segment.drop_last());
        let p = segment.last();
        assert(0 <= (p >> 16u32) & 0xFF <= 255 && 0 <= (p >> 8u32) & 0xFF <= 255 && 0 <= p & 0xFF <= 255)
            by (bit_vector);
    }
}

pub fn average_rgb(r_sum: u32, g_sum: u32, b_sum: u32, len: usize) -> (rgb: i32)
    requires
        0 < len <= 0x100_0000,
        r_sum <= 255 * len,
        g_sum <= 255 * len,
        b_sum <= 255 * len,
    ensures
        rgb == average_rgb_spec(r_sum, g_sum, b_sum, len as u32),
{
    let len = len as u32;
    let r = (r_sum + (len / 2)) / len;
    let g = (g_sum + (len / 2)) / len;
    let b = (b_sum + (len / 2)) / len;

    ((r << 16) | (g << 8) | b) as i32
}

pub fn average_segment_rgb(segment: &[i32]) -> (rgb: Option<i32>)
    requires
        segment_len_ok(segment@.len() as int),
    ensures
        rgb == segment_average(segment@),
{
    let mut len: usize = 0;
    let mut r_sum: u32 = 0;
    let mut g_sum: u32 = 0;
    let mut b_sum: u32 = 0;
    for i in 0..segment.len()
        invariant
            segment_len_ok(segment@.len() as int),
            (r_sum as int, g_sum as int, b_sum as int, len as int) == segment_sums(segment@.take(i as int)),
    {
        proof {
            assert(segment@.take(i + 1).drop_last() =~= segment@.take(i as int));
            lemma_segment_sums_bounds(segment@.take(i as int));
            assert(255 * len <= 255 * 0x100_0000) by (nonlinear_arith) requires len <= 0x100_0000;
        }
        let pixel = segment[i];
        let alpha = (pixel >> 24) & 0xFF;
        if alpha >= 128 {
            let rv = (pixel >> 16) & 0xFF;
            let gv = (pixel >> 8) & 0xFF;
            let bv = pixel & 0xFF;
            assert(0 <= rv <= 255 && 0 <= gv <= 255 && 0 <= bv <= 255) by (bit_vector)
                requires rv == (pixel >> 16u32) & 0xFF, gv == (pixel >> 8u32) & 0xFF, bv == pixel & 0xFF;
            r_sum += rv as u32;
            g_sum += gv as u32;
            b_sum += bv as u32;
            len += 1;
        }
    }
    proof {
        assert(segment@.take(segment@.len() as int) =~= segment@);
        lemma_segment_sums_bounds(segment@);
    }
    if len > 0 {
        Some(average_rgb(r_sum, g_sum, b_sum, len))
    } else {
        None
    }
}

/// Number of opaque pixels in a row.
pub open spec fn opaque_count(row: Seq<i32>) -> int
    decreases row.len(),
{
    if row.len() == 0 {
        0
    } else {
        opaque_count(row.drop_last()) + if is_opaque(row.last()) { 1int } else { 0int }
    }
}

proof fn lemma_opaque_count_bound(row: Seq<i32>)
    ensures
        0 <= opaque_count(row) <= row.len(),
    decreases row.len(),
{
    if row.len() > 0 {
        lemma_opaque_count_bound(row.drop_last());
    }
}

pub fn opaque_pixel_count(row: &[i32]) -> (count: usize)
    ensures
        count == opaque_count(row@),
{
    let mut count: usize = 0;
    for i in 0..row.len()
        invariant
            count == opaque_count(row@.take(i as int)),
            count <= i,
    {
        proof {
            assert(row@.take(i + 1).drop_last() =~= row@.take(i as int));
        }
        if ((row[i] >> 24) & 0xFF) >= 128 {
            count += 1;
        }
    }
    assert(row@.take(row@.len() as int) =~= row@);
    count
}

/// One drawn unit of a dialog body: a transparent pixel, an opaque pixel
/// with the colour of its segment, or a line break.
pub enum DialogCell {
    Gap,
    Dot(i32),
    Break,
}

/// The colour in force after `cells`: that of the last opaque pixel.
pub open spec fn dialog_last(cells: Seq<DialogCell>) -> Option<i32>
    decreases cells.len(),
{
    if cells.len() == 0 {
        None
    } else {
        match cells.last() {
            DialogCell::Dot(c) => Some(c),
            _ => dialog_last(cells.drop_last()),
        }
    }
}

/// Whether `cell`, drawn after `before`, starts with a colour tag.
pub open spec fn cell_tagged(before: Seq<DialogCell>, cell: DialogCell) -> bool {
    match cell {
        DialogCell::Dot(c) => dialog_last(before) != Some(c),
        _ => false,
    }
}

/// The characters of one cell.
pub open spec fn cell_text(before: Seq<DialogCell>, cell: DialogCell) -> Seq<char> {
    match cell {
        DialogCell::Gap => seq![' '],
        DialogCell::Break => seq!['\n'],
        DialogCell::Dot(c) => if cell_tagged(before, cell) {
            color_tag(c as u32) + seq!['@']
        } else {
            seq!['@']
        },
    }
}

/// The body text of a sequence of cells.
pub open spec fn dialog_text(cells: Seq<DialogCell>) -> Seq<char>
    decreases cells.len(),
{
    if cells.len() == 0 {
        Seq::empty()
    } else {
        dialog_text(cells.drop_last()) + cell_text(cells.drop_last(), cells.last())
    }
}

/// Colour tags written, length of the current line, longest finished line.
pub open spec fn dialog_stats(cells: Seq<DialogCell>) -> (int, int, int)
    decreases cells.len(),
{
    if cells.len() == 0 {
        (0, 0, 0)
    } else {
        let (tags, line, longest) = dialog_stats(cells.drop_last());
        let cell = cells.last();
        match cell {
            DialogCell::Break => (tags, 0, if line > longest { line } else { longest }),
            DialogCell::Gap => (tags, line + 1, longest),
            DialogCell::Dot(_) => if cell_tagged(cells.drop_last(), cell) {
                (tags + 1, line + 9, longest)
            } else {
                (tags, line + 1, longest)
            },
        }
    }
}

proof fn lemma_dialog_stats_bound(cells: Seq<DialogCell>)
    ensures
        ({
            let (tags, line, longest) = dialog_stats(cells);
            &&& 0 <= tags <= cells.len()
            &&& 0 <= line <= 9 * cells.len()
            &&& 0 <= longest <= 9 * cells.len()
        }),
    decreases cells.len(),
{
    if cells.len() > 0 {
        lemma_dialog_stats_bound(cells.drop_last());
    }
}

/// Accumulates a dialog body cell by cell, with the counts that go with it.
struct DialogWriter {
    body: String,
    color_tags: usize,
    row_len: usize,
    max_row_len: usize,
    last_color: Option<i32>,
}

impl DialogWriter {
    spec fn holds(&self, cells: Seq<DialogCell>) -> bool {
        &&& self.body@ == dialog_text(cells)
        &&& dialog_stats(cells) == (self.color_tags as int, self.row_len as int, self.max_row_len as int)
        &&& self.last_color == dialog_last(cells)
    }

    fn new() -> (w: Self)
        ensures
            w.holds(Seq::empty()),
    {
        DialogWriter { body: String::new(), color_tags: 0, row_len: 0, max_row_len: 0, last_color: None }
    }

    fn push_gap(&mut self, Ghost(cells): Ghost<Seq<DialogCell>>)
        requires
            old(self).holds(cells),
            9 * (cells.len() + 1) <= usize::MAX,
        ensures
            final(self).holds(cells.push(DialogCell::Gap)),
    {
        proof {
            lemma_dialog_stats_bound(cells);
            assert(cells.push(DialogCell::Gap).drop_last() =~= cells);
        }
        push_char(&mut self.body, ' ');
        self.row_len = self.row_len + 1;
        assert(self.body@ =~= dialog_text(cells.push(DialogCell::Gap)));
    }

    fn push_break(&mut self, Ghost(cells): Ghost<Seq<DialogCell>>)
        requires
            old(self).holds(cells),
        ensures
            final(self).holds(cells.push(DialogCell::Break)),
    {
        proof {
            assert(cells.push(DialogCell::Break).drop_last() =~= cells);
        }
        if self.row_len > self.max_row_len {
            self.max_row_len = self.row_len;
        }
        self.row_len = 0;
        push_char(&mut self.body, '\n');
        assert(self.body@ =~= dialog_text(cells.push(DialogCell::Break)));
    }

    fn push_dot(&mut self, rgb: i32, Ghost(cells): Ghost<Seq<DialogCell>>)
        requires
            old(self).holds(cells),
            9 * (cells.len() + 1) <= usize::MAX,
        ensures
            final(self).holds(cells.push(DialogCell::Dot(rgb))),
    {
        proof {
            lemma_dialog_stats_bound(cells);
            assert(cells.push(DialogCell::Dot(rgb)).drop_last() =~= cells);
        }
        if self.last_color != Some(rgb) {
            push_color_tag(&mut self.body, rgb as u32);
            self.row_len = self.row_len + 8;
            self.color_tags = self.color_tags + 1;
            self.last_color = Some(rgb);
        }
        push_char(&mut self.body, '@');
        self.row_len = self.row_len + 1;
        assert(self.body@ =~= dialog_text(cells.push(DialogCell::Dot(rgb))));
    }
}

/// Start of segment `k` of a row: 0, then each boundary, then the row end.
pub open spec fn seg_point(bounds: Seq<usize>, len: int, k: int) -> int {
    if k <= 0 {
        0
    } else if k <= bounds.len() {
        bounds[k - 1] as int
    } else {
        len
    }
}

/// The cells of pixels `s..e` of a row, as one segment: each opaque pixel
/// takes the segment's average colour.
pub open spec fn seg_cells(row: Seq<i32>, s: int, e: int) -> Seq<DialogCell> {
    Seq::new(
        (e - s) as nat,
        |i: int|
            if is_opaque(row[s + i]) {
                match segment_average(row.subrange(s, e)) {
                    Some(c) => DialogCell::Dot(c),
                    None => DialogCell::Gap,
                }
            } else {
                DialogCell::Gap
            },
    )
}

/// The cells of the first `k` segments of a row.
pub open spec fn row_cells_upto(row: Seq<i32>, bounds: Seq<usize>, k: int) -> Seq<DialogCell>
    decreases k,
{
    if k <= 0 {
        Seq::empty()
    } else {
        row_cells_upto(row, bounds, k - 1) + seg_cells(
            row,
            seg_point(bounds, row.len() as int, k - 1),
            seg_point(bounds, row.len() as int, k),
        )
    }
}

/// The cells of a row cut at `bounds`.
pub open spec fn row_cells(row: Seq<i32>, bounds: Seq<usize>) -> Seq<DialogCell> {
    row_cells_upto(row, bounds, bounds.len() as int + 1)
}

/// The cells of the first `r` rows, rows separated by line breaks.
pub open spec fn dialog_cells(grid: Seq<Seq<i32>>, bounds: Seq<Vec<usize>>, r: int) -> Seq<DialogCell>
    decreases r,
{
    if r <= 0 {
        Seq::empty()
    } else {
        dialog_cells(grid, bounds, r - 1) + (if r - 1 > 0 {
            seq![DialogCell::Break]
        } else {
            Seq::empty()
        }) + row_cells(grid[r - 1], bounds[r - 1]@)
    }
}

/// Boundaries that cut a row of `len` pixels: ascending, within the row.
pub open spec fn bounds_ok(bounds: Seq<usize>, len: int) -> bool {
    &&& forall|i: int| 0 <= i < bounds.len() ==> #[trigger] bounds[i] <= len
    &&& forall|i: int, j: int| 0 <= i <= j < bounds.len() ==> #[trigger] bounds[i] <= #[trigger] bounds[j]
}

/// Cells (pixels and line breaks) of the first `r` rows.
pub open spec fn cells_total(grid: Seq<Seq<i32>>, r: int) -> int
    decreases r,
{
    if r <= 0 {
        0
    } else {
        cells_total(grid, r - 1) + grid[r - 1].len() + if r - 1 > 0 { 1int } else { 0int }
    }
}

/// A grid and its row boundaries that `render_pixels` can draw.
pub open spec fn render_input_ok(grid: Seq<Seq<i32>>, bounds: Seq<Vec<usize>>) -> bool {
    &&& bounds.len() >= grid.len()
    &&& forall|r: int| 0 <= r < grid.len() ==> bounds_ok(#[trigger] bounds[r]@, grid[r].len() as int)
    &&& forall|r: int| 0 <= r < grid.len() ==> segment_len_ok(#[trigger] grid[r].len() as int)
    &&& 9 * (cells_total(grid, grid.len() as int) + 1) <= usize::MAX
}

proof fn lemma_cells_total_mono(grid: Seq<Seq<i32>>, r: int, t: int)
    requires
        0 <= r <= t,
    ensures
        cells_total(grid, r) <= cells_total(grid, t),
    decreases t - r,
{
    if r < t {
        lemma_cells_total_mono(grid, r, t - 1);
    }
}

proof fn lemma_sums_count(seg: Seq<i32>)
    ensures
        segment_sums(seg).3 == opaque_count(seg),
    decreases seg.len(),
{
    if seg.len() > 0 {
        lemma_sums_count(seg.drop_last());
    }
}

proof fn lemma_opaque_count_pos(seg: Seq<i32>, j: int)
    requires
        0 <= j < seg.len(),
        is_opaque(seg[j]),
    ensures
        opaque_count(seg) >= 1,
    decreases seg.len(),
{
    lemma_opaque_count_bound(seg.drop_last());
    if j < seg.len() - 1 {
        assert(seg.drop_last()[j] == seg[j]);
        lemma_opaque_count_pos(seg.drop_last(), j);
    }
}

proof fn lemma_row_cells_upto_len(row: Seq<i32>, bounds: Seq<usize>, k: int)
    requires
        0 <= k <= bounds.len() + 1,
        bounds_ok(bounds, row.len() as int),
    ensures
        row_cells_upto(row, bounds, k).len() == seg_point(bounds, row.len() as int, k),
    decreases k,
{
    if k > 0 {
        lemma_row_cells_upto_len(row, bounds, k - 1);
        if k >= 2 && k <= bounds.len() {
            assert(bounds[k - 2] <= bounds[k - 1]);
        }
    }
}

/// Renders a pixel grid as a dialog body, cutting row `r` into segments at
/// `row_boundaries[r]`; also counts the colour tags and the longest line.
pub struct RenderedDialog {
    pub body: String,
    pub color_tags: usize,
    pub max_row_len: usize,
}

pub fn render_pixels(pixels: &[Vec<i32>], row_boundaries: &[Vec<usize>]) -> (rendered: RenderedDialog)
    requires
        render_input_ok(grid_view(pixels@), row_boundaries@),
    ensures
        ({
            let cells = dialog_cells(grid_view(pixels@), row_boundaries@, pixels@.len() as int);
            let (tags, line, longest) = dialog_stats(cells);
            &&& rendered.body@ == dialog_text(cells)
            &&& rendered.color_tags == tags
            &&& rendered.max_row_len == if line > longest { line } else { longest }
        }),
        within_dialog_limits(grid_view(pixels@), row_boundaries@) ==> rendered.body@.len() <= MAX_DIALOG_BODY_LEN
            && rendered.max_row_len <= MAX_DIALOG_ROW_LEN,
{
    let ghost grid = grid_view(pixels@);
    let mut w = DialogWriter::new();
    let ghost mut cells: Seq<DialogCell> = Seq::empty();
    for row_index in 0..pixels.len()
        invariant
            grid == grid_view(pixels@),
            render_input_ok(grid, row_boundaries@),
            cells == dialog_cells(grid, row_boundaries@, row_index as int),
            cells.len() == cells_total(grid, row_index as int),
            w.holds(cells),
    {
        proof {
            lemma_cells_total_mono(grid, row_index + 1, pixels@.len() as int);
        }
        if row_index > 0 {
            w.push_break(Ghost(cells));
            proof { cells = cells.push(DialogCell::Break); }
        }
        let ghost row_base = cells;
        let row = &pixels[row_index];
        let bounds = &row_boundaries[row_index];
        let ghost rs = row@;
        let ghost bs = bounds@;
        assert(grid[row_index as int] == rs);
        assert(bounds_ok(bs, rs.len() as int));
        let mut segment_start: usize = 0;
        let nb = bounds.len();
        let mut k: usize = 0;
        loop
            invariant_except_break
                k <= nb,
                segment_start == seg_point(bs, rs.len() as int, k as int),
                cells == row_base + row_cells_upto(rs, bs, k as int),
            invariant
                nb == bs.len(),
                rs == row@,
                bs == bounds@,
                bounds_ok(bs, rs.len() as int),
                segment_len_ok(rs.len() as int),
                row_base.len() + rs.len() <= cells_total(grid, pixels@.len() as int),
                9 * (cells_total(grid, pixels@.len() as int) + 1) <= usize::MAX,
                w.holds(cells),
            ensures
                cells == row_base + row_cells_upto(rs, bs, nb + 1),
                w.holds(cells),
            decreases nb - k,
        {
            proof {
                lemma_row_cells_upto_len(rs, bs, k as int);
                lemma_row_cells_upto_len(rs, bs, k + 1);
            }
            let segment_end = if k < bounds.len() { bounds[k] } else { row.len() };
            proof {
                if k > 0 && k < bounds.len() {
                    assert(bs[k - 1] <= bs[k as int]);
                }
            }
            assert(segment_start <= segment_end);
            let segment = vstd::slice::slice_subrange(row.as_slice(), segment_start, segment_end);
            let average = average_segment_rgb(segment);
            let ghost seg_base = cells;
            let ghost sc = seg_cells(rs, segment_start as int, segment_end as int);
            for c in segment_start..segment_end
                invariant
                    rs == row@,
                    segment_start <= segment_end <= rs.len(),
                    average == segment_average(rs.subrange(segment_start as int, segment_end as int)),
                    sc == seg_cells(rs, segment_start as int, segment_end as int),
                    cells == seg_base + sc.take(c - segment_start),
                    seg_base.len() + (segment_end - segment_start) <= cells_total(grid, pixels@.len() as int),
                    9 * (cells_total(grid, pixels@.len() as int) + 1) <= usize::MAX,
                    w.holds(cells),
            {
                let pixel = row[c];
                let ghost i = c - segment_start;
                assert(sc.take(i + 1) =~= sc.take(i).push(sc[i]));
                if (pixel >> 24) & 0xFF < 128 {
                    w.push_gap(Ghost(cells));
                    proof { cells = cells.push(DialogCell::Gap); }
                } else {
                    proof {
                        let seg = rs.subrange(segment_start as int, segment_end as int);
                        assert(seg[i] == pixel);
                        lemma_opaque_count_pos(seg, i);
                        lemma_sums_count(seg);
                    }
                    let rgb = match average {
                        Some(rgb) => rgb,
                        None => 0,
                    };
                    w.push_dot(rgb, Ghost(cells));
                    proof { cells = cells.push(DialogCell::Dot(rgb)); }
                }
            }
            proof {
                assert(sc.take(segment_end - segment_start) =~= sc);
                assert(cells =~= row_base + row_cells_upto(rs, bs, k + 1));
            }
            segment_start = segment_end;
            if k == nb {
                break;
            }
            k = k + 1;
        }
        proof {
            lemma_row_cells_upto_len(rs, bs, bs.len() as int + 1);
            assert(cells =~= dialog_cells(grid, row_boundaries@, row_index + 1));
        }
    }
    let max_row_len = if w.row_len > w.max_row_len { w.row_len } else { w.max_row_len };
    proof {
        if within_dialog_limits(grid, row_boundaries@) {
            lemma_dialog_within_limits(grid, row_boundaries@);
        }
    }
    RenderedDialog { body: w.body, color_tags: w.color_tags, max_row_len }
}

proof fn lemma_dialog_text_len(cells: Seq<DialogCell>)
    ensures
        dialog_text(cells).len() == cells.len() + 8 * dialog_stats(cells).0,
    decreases cells.len(),
{
    if cells.len() > 0 {
        lemma_dialog_text_len(cells.drop_last());
    }
}

proof fn lemma_dialog_cells_len(grid: Seq<Seq<i32>>, bounds: Seq<Vec<usize>>, r: int)
    requires
        0 <= r <= grid.len(),
        bounds.len() >= grid.len(),
        forall|k: int| 0 <= k < grid.len() ==> bounds_ok(#[trigger] bounds[k]@, grid[k].len() as int),
    ensures
        dialog_cells(grid, bounds, r).len() == cells_total(grid, r),
    decreases r,
{
    if r > 0 {
        lemma_dialog_cells_len(grid, bounds, r - 1);
        assert(bounds_ok(bounds[r - 1]@, grid[r - 1].len() as int));
        lemma_row_cells_upto_len(grid[r - 1], bounds[r - 1]@, bounds[r - 1]@.len() as int + 1);
    }
}

/// A rendered dialog body is one character per pixel, one line break
/// between rows, and eight characters per colour tag.
pub proof fn lemma_dialog_body_len(grid: Seq<Seq<i32>>, bounds: Seq<Vec<usize>>)
    requires
        render_input_ok(grid, bounds),
    ensures
        dialog_text(dialog_cells(grid, bounds, grid.len() as int)).len() == cells_total(grid, grid.len() as int)
            + 8 * dialog_stats(dialog_cells(grid, bounds, grid.len() as int)).0,
{
    lemma_dialog_cells_len(grid, bounds, grid.len() as int);
    lemma_dialog_text_len(dialog_cells(grid, bounds, grid.len() as int));
}

/// Byte offset of the canvas pixel sampled for cell (`row`, `col`) of a
/// `rows x cols` sampling of a `width x height` canvas.
pub open spec fn sample_index(width: int, height: int, cols: int, rows: int, row: int, col: int) -> int {
    (clamp_below(row * height / rows, height) * width + clamp_below(col * width / cols, width)) * 4
}

/// Every sampled pixel lies inside the canvas.
pub open spec fn sample_in_bounds(canvas_len: int, width: int, height: int, cols: int, rows: int) -> bool {
    forall|row: int, col: int|
        0 <= row < rows && 0 <= col < cols ==> #[trigger] sample_index(width, height, cols, rows, row, col) + 4
            <= canvas_len
}

proof fn lemma_scaled(i: int, n: int, size: int)
    requires
        0 <= i < n,
        0 <= size,
    ensures
        0 <= i * size / n <= size,
        i * size <= (n - 1) * size,
{
    assert(0 <= i * size / n <= size) by (nonlinear_arith)
        requires 0 <= i < n, 0 <= size;
    assert(i * size <= (n - 1) * size) by (nonlinear_arith)
        requires 0 <= i < n, 0 <= size;
}

fn rgba_pixel(canvas: &[u8], index: usize) -> (pixel: i32)
    requires
        index + 4 <= canvas@.len(),
    ensures
        pixel == canvas_pixel(canvas@, index as int),
{
    let r = canvas[index] as u32;
    let g = canvas[index + 1] as u32;
    let b = canvas[index + 2] as u32;
    let a = canvas[index + 3] as u32;
    ((a << 24) | (r << 16) | (g << 8) | b) as i32
}

/// Samples a `rows x cols` ARGB grid out of a `width x height` RGBA canvas,
/// rows top to bottom and columns left to right.
pub fn sample_argb(canvas: &[u8], width: usize, height: usize, cols: usize, rows: usize) -> (pixels: Vec<Vec<i32>>)
    requires
        rows > 0 ==> (rows - 1) * height <= usize::MAX,
        cols > 0 ==> (cols - 1) * width <= usize::MAX,
        sample_in_bounds(canvas@.len() as int, width as int, height as int, cols as int, rows as int),
    ensures
        pixels@.len() == rows,
        forall|row: int| 0 <= row < rows ==> (#[trigger] pixels@[row])@.len() == cols,
        forall|row: int, col: int|
            0 <= row < rows && 0 <= col < cols ==> (#[trigger] pixels@[row]@[col]) == canvas_pixel(
                canvas@,
                sample_index(width as int, height as int, cols as int, rows as int, row, col),
            ),
{
    let mut pixels: Vec<Vec<i32>> = Vec::new();
    let canvas_len = canvas.len();
    for row in 0..rows
        invariant
            canvas_len == canvas@.len(),
            pixels@.len() == row,
            rows > 0 ==> (rows - 1) * height <= usize::MAX,
            cols > 0 ==> (cols - 1) * width <= usize::MAX,
            sample_in_bounds(canvas@.len() as int, width as int, height as int, cols as int, rows as int),
            forall|r: int| 0 <= r < row ==> (#[trigger] pixels@[r])@.len() == cols,
            forall|r: int, c: int|
                0 <= r < row && 0 <= c < cols ==> (#[trigger] pixels@[r]@[c]) == canvas_pixel(
                    canvas@,
                    sample_index(width as int, height as int, cols as int, rows as int, r, c),
                ),
    {
        proof {
            lemma_scaled(row as int, rows as int, height as int);
        }
        let scaled_y = row * height / rows;
        let top_y = height.saturating_sub(1);
        let src_y = if scaled_y < top_y { scaled_y } else { top_y };
        let mut line: Vec<i32> = Vec::new();
        for col in 0..cols
            invariant
                canvas_len == canvas@.len(),
                line@.len() == col,
                0 <= row < rows,
                src_y == clamp_below((row * height) as int / rows as int, height as int),
                cols > 0 ==> (cols - 1) * width <= usize::MAX,
                sample_in_bounds(canvas@.len() as int, width as int, height as int, cols as int, rows as int),
                forall|c: int|
                    0 <= c < col ==> (#[trigger] line@[c]) == canvas_pixel(
                        canvas@,
                        sample_index(width as int, height as int, cols as int, rows as int, row as int, c),
                    ),
        {
            proof {
                lemma_scaled(col as int, cols as int, width as int);
                assert(sample_index(width as int, height as int, cols as int, rows as int, row as int, col as int) + 4
                    <= canvas@.len());
            }
            let scaled_x = col * width / cols;
            let top_x = width.saturating_sub(1);
            let src_x = if scaled_x < top_x { scaled_x } else { top_x };
            let pixel_index = (src_y * width + src_x) * 4;
            line.push(rgba_pixel(canvas, pixel_index));
        }
        pixels.push(line);
    }
    pixels
}

/// Tags a row may get: what its line's spare length pays for, and no more
/// than it has opaque pixels.
pub open spec fn row_tag_cap_spec(row: Seq<i32>) -> int {
    let spare = if MAX_DIALOG_ROW_LEN >= row.len() { MAX_DIALOG_ROW_LEN - row.len() } else { 0 };
    let limit = spare / 8;
    let opaque = opaque_count(row);
    if limit <= opaque { limit } else { opaque }
}

pub fn row_tag_cap(row: &[i32]) -> (cap: usize)
    ensures
        cap == row_tag_cap_spec(row@),
{
    let row_limit = MAX_DIALOG_ROW_LEN.saturating_sub(row.len()) / 8;
    let opaque = opaque_pixel_count(row);
    if row_limit <= opaque { row_limit } else { opaque }
}

/// Characters a grid's body takes without any colour tag.
pub open spec fn base_body_len(grid: Seq<Seq<i32>>) -> int {
    cells_total(grid, grid.len() as int)
}

/// Colour tags the body length leaves room for.
pub open spec fn dialog_tag_budget_spec(grid: Seq<Seq<i32>>) -> int {
    let base = base_body_len(grid);
    (if MAX_DIALOG_BODY_LEN >= base { MAX_DIALOG_BODY_LEN - base } else { 0 }) / 8
}

pub fn dialog_tag_budget(pixels: &[Vec<i32>]) -> (tags: usize)
    requires
        cells_total(grid_view(pixels@), pixels@.len() as int) <= usize::MAX,
    ensures
        tags == dialog_tag_budget_spec(grid_view(pixels@)),
{
    let ghost grid = grid_view(pixels@);
    let mut total: usize = 0;
    for i in 0..pixels.len()
        invariant
            grid == grid_view(pixels@),
            cells_total(grid, pixels@.len() as int) <= usize::MAX,
            total + (if i > 0 { i - 1 } else { 0 }) == cells_total(grid, i as int),
    {
        proof {
            lemma_cells_total_mono(grid, i + 1, pixels@.len() as int);
            assert(grid[i as int] == pixels@[i as int]@);
        }
        total = total + pixels[i].len();
    }
    let base = total + pixels.len().saturating_sub(1);
    MAX_DIALOG_BODY_LEN.saturating_sub(base) / 8
}

/// The boundaries met walking the split table back from (`budget`, `end`),
/// in the order they are met.
pub open spec fn boundary_walk(split: Seq<Seq<usize>>, budget: int, end: int) -> Seq<usize>
    decreases budget,
{
    if budget <= 1 {
        Seq::empty()
    } else {
        let start = split[budget][end];
        seq![start] + boundary_walk(split, budget - 1, start as int)
    }
}

/// The walk stays inside the split table.
pub open spec fn walk_in_table(split: Seq<Seq<usize>>, budget: int, end: int) -> bool
    decreases budget,
{
    budget <= 1 || (budget < split.len() && 0 <= end < split[budget].len() && walk_in_table(
        split,
        budget - 1,
        split[budget][end] as int,
    ))
}

/// Ascending order.
pub open spec fn is_sorted(s: Seq<usize>) -> bool {
    forall|i: int, j: int| 0 <= i <= j < s.len() ==> #[trigger] s[i] <= #[trigger] s[j]
}

/// Sorts a vector in ascending order.
///
/// Trusted: calls `slice::sort_unstable` from std, whose documentation says
/// it sorts the slice (equal elements may be reordered); the contract
/// claims the result is ascending and holds the same elements.
#[verifier::external_body]
fn sort_ascending(v: &mut Vec<usize>)
    ensures
        final(v)@.to_multiset() == old(v)@.to_multiset(),
        is_sorted(final(v)@),
{
    v.sort_unstable();
}

pub fn reconstruct_boundaries(split: &[Vec<usize>], budget: usize, end: usize) -> (boundaries: Vec<usize>)
    requires
        walk_in_table(split@.map_values(|row: Vec<usize>| row@), budget as int, end as int),
    ensures
        boundaries@.to_multiset() == boundary_walk(split@.map_values(|row: Vec<usize>| row@), budget as int, end as int).to_multiset(),
        is_sorted(boundaries@),
{
    let ghost table = split@.map_values(|row: Vec<usize>| row@);
    let mut boundaries: Vec<usize> = Vec::new();
    let mut budget = budget;
    let mut end = end;
    let ghost walk = boundary_walk(table, budget as int, end as int);
    while budget > 1
        invariant
            table == split@.map_values(|row: Vec<usize>| row@),
            walk_in_table(table, budget as int, end as int),
            boundaries@ + boundary_walk(table, budget as int, end as int) == walk,
        decreases budget,
    {
        assert(table[budget as int] == split@[budget as int]@);
        let start = split[budget][end];
        let ghost before = boundaries@;
        boundaries.push(start);
        proof {
            assert(boundary_walk(table, budget as int, end as int) == seq![start] + boundary_walk(table, budget - 1, start as int));
            assert(boundaries@ + boundary_walk(table, budget - 1, start as int) =~= before + boundary_walk(table, budget as int, end as int));
        }
        end = start;
        budget -= 1;
    }
    assert(boundaries@ =~= walk);
    sort_ascending(&mut boundaries);
    boundaries
}


/// The grid a dialog screen renders at.
#[derive(Clone, Copy)]
pub struct DialogDecodeConfig {
    pub cols: usize,
    pub rows: usize,
}

impl DialogDecodeConfig {
    /// The size frames are decoded at: one pixel per grid cell.
    pub fn decode_dimensions(&self) -> (dims: (u32, u32))
        ensures
            dims.0 == self.cols as u32,
            dims.1 == self.rows as u32,
    {
        (self.cols as u32, self.rows as u32)
    }
}


/// Cells that are gaps or dots of colour `c` only, as in one segment.
pub open spec fn one_colour(seg: Seq<DialogCell>, c: i32) -> bool {
    forall|i: int| 0 <= i < seg.len() ==> (#[trigger] seg[i] == DialogCell::Gap || seg[i] == DialogCell::Dot(c))
}

/// Colour tags a row may need: one per segment, none for a row without
/// an opaque pixel.
pub open spec fn row_tag_need(row: Seq<i32>, bounds: Seq<usize>) -> int {
    if opaque_count(row) > 0 {
        bounds.len() + 1int
    } else {
        0
    }
}

/// Colour tags the first `r` rows may need.
pub open spec fn tag_need_total(grid: Seq<Seq<i32>>, bounds: Seq<Vec<usize>>, r: int) -> int
    decreases r,
{
    if r <= 0 {
        0
    } else {
        tag_need_total(grid, bounds, r - 1) + row_tag_need(grid[r - 1], bounds[r - 1]@)
    }
}

/// Row boundaries that respect the rationing: each line has room for the
/// tags its segments may need, and the body for those of all rows.
pub open spec fn within_dialog_limits(grid: Seq<Seq<i32>>, bounds: Seq<Vec<usize>>) -> bool {
    &&& base_body_len(grid) <= MAX_DIALOG_BODY_LEN
    &&& forall|r: int|
        0 <= r < grid.len() ==> #[trigger] grid[r].len() + 8 * row_tag_need(grid[r], bounds[r]@)
            <= MAX_DIALOG_ROW_LEN
    &&& tag_need_total(grid, bounds, grid.len() as int) <= dialog_tag_budget_spec(grid)
}

proof fn lemma_last_is_segment_colour(p: Seq<DialogCell>, seg: Seq<DialogCell>, c: i32, j: int)
    requires
        one_colour(seg, c),
        0 <= j < seg.len(),
        seg[j] is Dot,
    ensures
        dialog_last(p + seg) == Some(c),
    decreases seg.len(),
{
    let q = seg.drop_last();
    assert((p + seg).drop_last() =~= p + q);
    assert((p + seg).last() == seg.last());
    assert(seg[seg.len() - 1] == seg.last());
    if !(seg.last() is Dot) {
        assert forall|i: int| 0 <= i < q.len() implies (#[trigger] q[i] == DialogCell::Gap || q[i] == DialogCell::Dot(c)) by {
            assert(q[i] == seg[i]);
        }
        assert(q[j] == seg[j]);
        lemma_last_is_segment_colour(p, q, c, j);
    }
}

/// Appending one segment adds at most one colour tag (none when it holds no
/// opaque pixel), one character per cell and eight per tag to the line.
proof fn lemma_segment_stats(p: Seq<DialogCell>, seg: Seq<DialogCell>, c: i32)
    requires
        one_colour(seg, c),
    ensures
        ({
            let before = dialog_stats(p);
            let after = dialog_stats(p + seg);
            let k = after.0 - before.0;
            &&& 0 <= k <= 1
            &&& (forall|i: int| 0 <= i < seg.len() ==> #[trigger] seg[i] == DialogCell::Gap) ==> k == 0
            &&& after.1 == before.1 + seg.len() + 8 * k
            &&& after.2 == before.2
        }),
    decreases seg.len(),
{
    if seg.len() == 0 {
        assert(p + seg =~= p);
    } else {
        let q = seg.drop_last();
        assert forall|i: int| 0 <= i < q.len() implies (#[trigger] q[i] == DialogCell::Gap || q[i] == DialogCell::Dot(c)) by {
            assert(q[i] == seg[i]);
        }
        lemma_segment_stats(p, q, c);
        assert((p + seg).drop_last() =~= p + q);
        assert((p + seg).last() == seg.last());
        assert(seg[seg.len() - 1] == seg.last());
        if (forall|i: int| 0 <= i < seg.len() ==> #[trigger] seg[i] == DialogCell::Gap) {
            assert forall|i: int| 0 <= i < q.len() implies #[trigger] q[i] == DialogCell::Gap by {
                assert(q[i] == seg[i]);
            }
        }
        if seg.last() is Dot {
            if exists|j: int| 0 <= j < q.len() && #[trigger] q[j] is Dot {
                let j = choose|j: int| 0 <= j < q.len() && #[trigger] q[j] is Dot;
                lemma_last_is_segment_colour(p, q, c, j);
            } else {
                assert forall|i: int| 0 <= i < q.len() implies #[trigger] q[i] == DialogCell::Gap by {
                    assert(!(q[i] is Dot));
                }
            }
        }
    }
}

proof fn lemma_row_stats(p: Seq<DialogCell>, row: Seq<i32>, bounds: Seq<usize>, k: int)
    requires
        0 <= k <= bounds.len() + 1,
        bounds_ok(bounds, row.len() as int),
    ensures
        ({
            let before = dialog_stats(p);
            let after = dialog_stats(p + row_cells_upto(row, bounds, k));
            let added = after.0 - before.0;
            &&& 0 <= added <= k
            &&& opaque_count(row) == 0 ==> added == 0
            &&& after.1 == before.1 + seg_point(bounds, row.len() as int, k) + 8 * added
            &&& after.2 == before.2
        }),
    decreases k,
{
    lemma_row_cells_upto_len(row, bounds, k);
    if k == 0 {
        assert(p + row_cells_upto(row, bounds, k) =~= p);
    } else {
        lemma_row_stats(p, row, bounds, k - 1);
        lemma_row_cells_upto_len(row, bounds, k - 1);
        let a = row_cells_upto(row, bounds, k - 1);
        let s = seg_point(bounds, row.len() as int, k - 1);
        let e = seg_point(bounds, row.len() as int, k);
        let sc = seg_cells(row, s, e);
        assert(p + row_cells_upto(row, bounds, k) =~= (p + a) + sc);
        assert(0 <= s <= e <= row.len()) by {
            if k >= 2 && k <= bounds.len() {
                assert(bounds[k - 2] <= bounds[k - 1]);
            }
            if k >= 2 {
                assert(bounds[k - 2] <= row.len());
            }
            if k >= 1 && k <= bounds.len() {
                assert(bounds[k - 1] <= row.len());
            }
        }
        let c = match segment_average(row.subrange(s, e)) {
            Some(c) => c,
            None => 0i32,
        };
        assert(one_colour(sc, c));
        lemma_segment_stats(p + a, sc, c);
        if opaque_count(row) == 0 {
            assert forall|i: int| 0 <= i < sc.len() implies #[trigger] sc[i] == DialogCell::Gap by {
                if is_opaque(row[s + i]) {
                    lemma_opaque_count_pos(row, s + i);
                }
            }
        }
    }
}

proof fn lemma_dialog_stats_within(grid: Seq<Seq<i32>>, bounds: Seq<Vec<usize>>, r: int)
    requires
        render_input_ok(grid, bounds),
        forall|i: int|
            0 <= i < grid.len() ==> #[trigger] grid[i].len() + 8 * row_tag_need(grid[i], bounds[i]@)
                <= MAX_DIALOG_ROW_LEN,
        0 <= r <= grid.len(),
    ensures
        ({
            let (tags, line, longest) = dialog_stats(dialog_cells(grid, bounds, r));
            &&& tags <= tag_need_total(grid, bounds, r)
            &&& line <= MAX_DIALOG_ROW_LEN
            &&& longest <= MAX_DIALOG_ROW_LEN
        }),
    decreases r,
{
    if r > 0 {
        lemma_dialog_stats_within(grid, bounds, r - 1);
        let prev = dialog_cells(grid, bounds, r - 1);
        let brk: Seq<DialogCell> = if r - 1 > 0 { seq![DialogCell::Break] } else { Seq::empty() };
        let p = prev + brk;
        if r - 1 > 0 {
            assert(p.drop_last() =~= prev);
            assert(p.last() == DialogCell::Break);
            assert(dialog_stats(p).0 == dialog_stats(prev).0);
            assert(dialog_stats(p).1 == 0);
            assert(dialog_stats(p).2 <= MAX_DIALOG_ROW_LEN);
        } else {
            assert(p =~= Seq::<DialogCell>::empty());
            assert(dialog_stats(p) == (0int, 0int, 0int));
        }
        let row = grid[r - 1];
        let bs = bounds[r - 1]@;
        assert(bounds_ok(bs, row.len() as int));
        lemma_row_stats(p, row, bs, bs.len() + 1int);
        assert(row.len() + 8 * row_tag_need(row, bs) <= MAX_DIALOG_ROW_LEN);
        assert(dialog_cells(grid, bounds, r) == p + row_cells_upto(row, bs, bs.len() + 1int));
        assert(tag_need_total(grid, bounds, r) == tag_need_total(grid, bounds, r - 1) + row_tag_need(row, bs));
        assert(seg_point(bs, row.len() as int, bs.len() + 1int) == row.len());
        lemma_opaque_count_bound(row);
    } else {
        assert(dialog_cells(grid, bounds, r) =~= Seq::<DialogCell>::empty());
    }
}

/// Row boundaries that respect the rationing keep the body within
/// `MAX_DIALOG_BODY_LEN` characters and every line within
/// `MAX_DIALOG_ROW_LEN`: a segment adds at most one colour tag.
pub proof fn lemma_dialog_within_limits(grid: Seq<Seq<i32>>, bounds: Seq<Vec<usize>>)
    requires
        render_input_ok(grid, bounds),
        within_dialog_limits(grid, bounds),
    ensures
        ({
            let cells = dialog_cells(grid, bounds, grid.len() as int);
            let (tags, line, longest) = dialog_stats(cells);
            &&& dialog_text(cells).len() <= MAX_DIALOG_BODY_LEN
            &&& line <= MAX_DIALOG_ROW_LEN
            &&& longest <= MAX_DIALOG_ROW_LEN
        }),
{
    lemma_dialog_stats_within(grid, bounds, grid.len() as int);
    lemma_dialog_body_len(grid, bounds);
}

} // verus!
