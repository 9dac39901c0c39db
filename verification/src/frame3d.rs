//! Frames for the 3D screens: each screen tile shows up to
//! `LAYERS_PER_BUFFER` object materials whose text draws the pixels as
//! coloured `n` glyphs (Wingdings squares), with `{RRGGBB}` colour tags.

use std::ops::Range;
use std::time::Duration;
use vstd::prelude::*;
use crate::pixel::{
    alpha_of, extract_region, region_bytes, downsample_to_argb, downsampled, grid_view, lemma_downsample_in_bounds, quantize_pixels,
    quantized_rows,
};
use crate::text::{color_tag, hex_digit, hex_nibble, push_char, push_color_tag};

verus! {

/// Longest text one object material accepts.
pub const MAX_TEXT_LEN: usize = 2048;

/// Materials per screen tile.
pub const LAYERS_PER_BUFFER: usize = 16;

/// A pixel is drawn when its alpha byte is at least 128.
pub open spec fn is_opaque(pixel: i32) -> bool {
    alpha_of(pixel) >= 128
}

/// The colour part of a pixel.
pub open spec fn rgb_of(pixel: i32) -> i32 {
    pixel & 0x00FF_FFFFi32
}

/// The colour in force after drawing `row` from the left: the colour of the
/// last opaque pixel (transparent pixels leave it as it was).
pub open spec fn row_last_color(row: Seq<i32>) -> Option<i32>
    decreases row.len(),
{
    if row.len() == 0 {
        None
    } else {
        let p = row.last();
        if !is_opaque(p) {
            row_last_color(row.drop_last())
        } else {
            Some(rgb_of(p))
        }
    }
}

/// The characters that draw one pixel after the pixels `before` it: a space
/// for a transparent pixel, otherwise an `n`, preceded by a colour tag when
/// the colour differs from the one in force.
pub open spec fn pixel_text(before: Seq<i32>, p: i32) -> Seq<char> {
    if !is_opaque(p) {
        seq![' ']
    } else if row_last_color(before) != Some(rgb_of(p)) {
        color_tag(rgb_of(p) as u32) + seq!['n']
    } else {
        seq!['n']
    }
}

/// The text that draws a row of pixels.
pub open spec fn row_text(row: Seq<i32>) -> Seq<char>
    decreases row.len(),
{
    if row.len() == 0 {
        Seq::empty()
    } else {
        row_text(row.drop_last()) + pixel_text(row.drop_last(), row.last())
    }
}

/// Predicted text length of a row: one character per pixel, eight more per
/// colour change.
pub open spec fn row_cost_of(row: Seq<i32>) -> int
    decreases row.len(),
{
    if row.len() == 0 {
        0
    } else {
        let before = row.drop_last();
        let p = row.last();
        row_cost_of(before) + if is_opaque(p) && row_last_color(before) != Some(rgb_of(p)) {
            9int
        } else {
            1int
        }
    }
}

/// The cost model is exact: a row's predicted cost is the length of the text
/// that draws it.
pub proof fn lemma_row_cost_is_text_len(row: Seq<i32>)
    ensures
        row_text(row).len() == row_cost_of(row),
    decreases row.len(),
{
    if row.len() > 0 {
        lemma_row_cost_is_text_len(row.drop_last());
    }
}

proof fn lemma_row_cost_bounds(row: Seq<i32>)
    ensures
        row.len() <= row_cost_of(row) <= 9 * row.len(),
    decreases row.len(),
{
    if row.len() > 0 {
        lemma_row_cost_bounds(row.drop_last());
    }
}

fn row_cost(row: &[i32]) -> (cost: usize)
    requires
        9 * row@.len() <= usize::MAX,
    ensures
        cost == row_cost_of(row@),
{
    let mut last_color: Option<i32> = None;
    let mut cost: usize = 0;
    for i in 0..row.len()
        invariant
            9 * row@.len() <= usize::MAX,
            cost == row_cost_of(row@.take(i as int)),
            last_color == row_last_color(row@.take(i as int)),
    {
        proof {
            lemma_row_cost_bounds(row@.take(i as int));
            assert(row@.take(i + 1).drop_last() =~= row@.take(i as int));
        }
        let pixel = row[i];
        let alpha = (pixel >> 24) & 0xFF;
        if alpha < 128 {
            cost += 1;
        } else {
            let rgb = pixel & 0x00FF_FFFF;
            if last_color != Some(rgb) {
                cost += 8;
                last_color = Some(rgb);
            }
            cost += 1;
        }
    }
    assert(row@.take(row@.len() as int) =~= row@);
    cost
}

/// Rows short enough that their text cost fits in a `usize`.
pub open spec fn rows_fit(grid: Seq<Seq<i32>>) -> bool {
    forall|i: int| 0 <= i < grid.len() ==> 18 * (#[trigger] grid[i]).len() <= usize::MAX
}

/// Predicted text cost of each row, as the `usize`s `row_costs` returns.
pub open spec fn grid_cost_seq(grid: Seq<Seq<i32>>) -> Seq<usize> {
    Seq::new(grid.len(), |i: int| row_cost_of(grid[i]) as usize)
}

pub fn row_costs(pixels: &[Vec<i32>]) -> (costs: Vec<usize>)
    requires
        rows_fit(grid_view(pixels@)),
    ensures
        costs@.len() == pixels@.len(),
        forall|i: int| 0 <= i < pixels@.len() ==> #[trigger] costs@[i] == row_cost_of(pixels@[i]@),
        costs@ == grid_cost_seq(grid_view(pixels@)),
        costs_fit(costs@),
{
    let mut costs: Vec<usize> = Vec::new();
    for i in 0..pixels.len()
        invariant
            rows_fit(grid_view(pixels@)),
            costs@.len() == i,
            forall|k: int| 0 <= k < i ==> #[trigger] costs@[k] == row_cost_of(pixels@[k]@),
    {
        proof {
            lemma_row_cost_bounds(pixels@[i as int]@);
            assert(grid_view(pixels@)[i as int] == pixels@[i as int]@);
        }
        let c = row_cost(pixels[i].as_slice());
        costs.push(c);
    }
    proof {
        assert forall|i: int| 0 <= i < costs@.len() implies #[trigger] costs@[i] <= usize::MAX / 2 by {
            lemma_row_cost_bounds(pixels@[i]@);
            assert(grid_view(pixels@)[i] == pixels@[i]@);
        }
        assert(costs@ =~= grid_cost_seq(grid_view(pixels@)));
    }
    costs
}

/// The text of one material: every row of the grid has its line (rows are
/// separated by `\n`), and only the rows in `start..end` are drawn.
pub open spec fn band_text(rows: Seq<Seq<i32>>, start: int, end: int) -> Seq<char>
    decreases rows.len(),
{
    if rows.len() == 0 {
        Seq::empty()
    } else {
        let k = rows.len() - 1;
        band_text(rows.drop_last(), start, end) + (if k > 0 {
            seq!['\n']
        } else {
            Seq::empty()
        }) + (if start <= k < end {
            row_text(rows.last())
        } else {
            Seq::empty()
        })
    }
}

fn push_row_text(text: &mut String, row: &[i32])
    ensures
        final(text)@ == old(text)@ + row_text(row@),
{
    let mut last_color: Option<i32> = None;
    for i in 0..row.len()
        invariant
            text@ == old(text)@ + row_text(row@.take(i as int)),
            last_color == row_last_color(row@.take(i as int)),
    {
        proof {
            assert(row@.take(i + 1).drop_last() =~= row@.take(i as int));
        }
        let pixel = row[i];
        let alpha = (pixel >> 24) & 0xFF;
        if alpha < 128 {
            push_char(text, ' ');
        } else {
            let rgb = pixel & 0x00FF_FFFF;
            if last_color != Some(rgb) {
                push_color_tag(text, rgb as u32);
                last_color = Some(rgb);
            }
            push_char(text, 'n');
        }
        assert(text@ =~= old(text)@ + row_text(row@.take(i + 1)));
    }
    assert(row@.take(row@.len() as int) =~= row@);
}

fn render_band(pixels: &[Vec<i32>], range: &Range<usize>) -> (text: String)
    ensures
        text@ == band_text(grid_view(pixels@), range.start as int, range.end as int),
{
    let mut text = String::new();
    for row_index in 0..pixels.len()
        invariant
            text@ == band_text(grid_view(pixels@).take(row_index as int), range.start as int, range.end as int),
    {
        proof {
            assert(grid_view(pixels@).take(row_index + 1).drop_last() =~= grid_view(pixels@).take(row_index as int));
            assert(grid_view(pixels@).take(row_index + 1).last() == pixels@[row_index as int]@);
        }
        if row_index > 0 {
            push_char(&mut text, '\n');
        }
        if range.start <= row_index && row_index < range.end {
            push_row_text(&mut text, pixels[row_index].as_slice());
        }
        assert(text@ =~= band_text(grid_view(pixels@).take(row_index + 1), range.start as int, range.end as int));
    }
    assert(grid_view(pixels@).take(pixels@.len() as int) =~= grid_view(pixels@));
    text
}

/// Total cost of rows `start..end`.
pub open spec fn cost_sum(costs: Seq<usize>, start: int, end: int) -> int
    decreases end - start,
{
    if end <= start {
        0
    } else {
        cost_sum(costs, start, end - 1) + costs[end - 1]
    }
}

/// Text budget per material left for row content once the `n - 1` line
/// breaks of an `n`-row grid are paid for.
pub open spec fn band_budget(row_count: int) -> int {
    if row_count == 0 {
        MAX_TEXT_LEN as int
    } else if MAX_TEXT_LEN >= row_count - 1 {
        MAX_TEXT_LEN - (row_count - 1)
    } else {
        0
    }
}

/// Greedy packing of the first rows: the closed bands, where the open band
/// starts, and what it costs so far. A row joins the open band unless the
/// band already costs something and the row would push it over `budget`.
pub open spec fn pack_state(costs: Seq<usize>, budget: int) -> (Seq<Range<usize>>, int, int)
    decreases costs.len(),
{
    if costs.len() == 0 {
        (Seq::empty(), 0, 0)
    } else {
        let k = costs.len() - 1;
        let c = costs[k] as int;
        let (bands, start, cost) = pack_state(costs.drop_last(), budget);
        if cost > 0 && cost + c > budget {
            (bands.push(Range { start: start as usize, end: k as usize }), k, c)
        } else {
            (bands, start, cost + c)
        }
    }
}

/// The row ranges that `pack_bands` returns.
pub open spec fn packed_bands(costs: Seq<usize>) -> Seq<Range<usize>> {
    if costs.len() == 0 {
        Seq::empty()
    } else {
        let (bands, start, _) = pack_state(costs, band_budget(costs.len() as int));
        bands.push(Range { start: start as usize, end: costs.len() as usize })
    }
}

/// `bands` split rows `0..end` into consecutive non-empty ranges, in order.
pub open spec fn is_partition(bands: Seq<Range<usize>>, end: int) -> bool {
    &&& bands.len() == 0 <==> end == 0
    &&& bands.len() > 0 ==> bands[0].start == 0 && bands.last().end == end
    &&& forall|i: int| 0 <= i < bands.len() ==> (#[trigger] bands[i]).start < bands[i].end
    &&& forall|i: int| 0 <= i < bands.len() - 1 ==> (#[trigger] bands[i]).end == bands[i + 1].start
}

/// Each row joined its band because the band was still free or the row
/// kept it within budget.
pub open spec fn band_accepts(costs: Seq<usize>, budget: int, band: Range<usize>) -> bool {
    forall|k: int|
        band.start < k < band.end ==> cost_sum(costs, band.start as int, k) == 0 || #[trigger] cost_sum(
            costs,
            band.start as int,
            k + 1,
        ) <= budget
}

/// A band was closed because it cost something and the next row would
/// have pushed it over budget.
pub open spec fn band_closed(costs: Seq<usize>, budget: int, band: Range<usize>) -> bool {
    cost_sum(costs, band.start as int, band.end as int) > 0 && cost_sum(
        costs,
        band.start as int,
        band.end + 1,
    ) > budget
}

/// Rows packed into bands greedily within `budget`.
pub open spec fn is_band_packing(costs: Seq<usize>, budget: int, bands: Seq<Range<usize>>) -> bool {
    &&& is_partition(bands, costs.len() as int)
    &&& forall|i: int| 0 <= i < bands.len() ==> band_accepts(costs, budget, #[trigger] bands[i])
    &&& forall|i: int| 0 <= i < bands.len() - 1 ==> band_closed(costs, budget, #[trigger] bands[i])
}

proof fn lemma_cost_sum_prefix(costs: Seq<usize>, n: int, start: int, end: int)
    requires
        0 <= start,
        end <= n <= costs.len(),
    ensures
        cost_sum(costs.take(n), start, end) == cost_sum(costs, start, end),
    decreases end - start,
{
    if start < end {
        lemma_cost_sum_prefix(costs, n, start, end - 1);
    }
}

/// Costs small enough that summing two of them cannot overflow.
pub open spec fn costs_fit(costs: Seq<usize>) -> bool {
    forall|i: int| 0 <= i < costs.len() ==> #[trigger] costs[i] <= usize::MAX / 2
}

proof fn lemma_cost_sum_step(costs: Seq<usize>, start: int, end: int)
    requires
        start <= end,
    ensures
        cost_sum(costs, start, end + 1) == cost_sum(costs, start, end) + costs[end],
{
    if start == end {
        assert(cost_sum(costs, start, start) == 0);
    }
}

proof fn lemma_pack_state_step(costs: Seq<usize>, i: int, budget: int)
    requires
        0 <= i < costs.len(),
    ensures
        pack_state(costs.take(i + 1), budget) == ({
            let (bands, start, cost) = pack_state(costs.take(i), budget);
            if cost > 0 && cost + costs[i] > budget {
                (bands.push(Range { start: start as usize, end: i as usize }), i, costs[i] as int)
            } else {
                (bands, start, cost + costs[i])
            }
        }),
{
    assert(costs.take(i + 1).drop_last() =~= costs.take(i));
    assert(costs.take(i + 1)[i] == costs[i]);
}

proof fn lemma_close_band(costs: Seq<usize>, budget: int, bands: Seq<Range<usize>>, start: usize, i: usize)
    requires
        (start as int) < (i as int) < costs.len(),
        is_partition(bands, start as int),
        forall|k: int| 0 <= k < bands.len() ==> band_accepts(costs, budget, #[trigger] bands[k]),
        forall|k: int| 0 <= k < bands.len() ==> band_closed(costs, budget, #[trigger] bands[k]),
        band_accepts(costs, budget, Range { start, end: i }),
        cost_sum(costs, start as int, i as int) > 0,
        cost_sum(costs, start as int, i as int) + costs[i as int] > budget,
    ensures
        ({
            let closed = bands.push(Range { start, end: i });
            &&& is_partition(closed, i as int)
            &&& forall|k: int| 0 <= k < closed.len() ==> band_accepts(costs, budget, #[trigger] closed[k])
            &&& forall|k: int| 0 <= k < closed.len() ==> band_closed(costs, budget, #[trigger] closed[k])
        }),
{
    let closed = bands.push(Range { start, end: i });
    lemma_cost_sum_step(costs, start as int, i as int);
    assert(band_closed(costs, budget, Range { start, end: i }));
    assert forall|k: int| 0 <= k < closed.len() implies band_accepts(costs, budget, #[trigger] closed[k]) by {
        if k < bands.len() {
            assert(closed[k] == bands[k]);
        }
    }
    assert forall|k: int| 0 <= k < closed.len() implies band_closed(costs, budget, #[trigger] closed[k]) by {
        if k < bands.len() {
            assert(closed[k] == bands[k]);
        }
    }
    assert forall|k: int| 0 <= k < closed.len() - 1 implies (#[trigger] closed[k]).end == closed[k + 1].start by {
        if k < bands.len() - 1 {
            assert(closed[k] == bands[k] && closed[k + 1] == bands[k + 1]);
        }
    }
}

proof fn lemma_accepts_at(costs: Seq<usize>, budget: int, band: Range<usize>, k: int)
    requires
        band_accepts(costs, budget, band),
        band.start < k < band.end,
    ensures
        cost_sum(costs, band.start as int, k) == 0 || cost_sum(costs, band.start as int, k + 1) <= budget,
{
}

proof fn lemma_extend_band(costs: Seq<usize>, budget: int, start: usize, i: usize, end: usize)
    requires
        (start as int) <= (i as int) < costs.len(),
        end == i + 1,
        band_accepts(costs, budget, Range { start, end: i }),
        cost_sum(costs, start as int, i as int) == 0 || cost_sum(costs, start as int, i as int)
            + costs[i as int] <= budget,
    ensures
        band_accepts(costs, budget, Range { start, end }),
{
    lemma_cost_sum_step(costs, start as int, i as int);
    assert forall|k: int| start < k < i + 1 implies cost_sum(costs, start as int, k) == 0
        || #[trigger] cost_sum(costs, start as int, k + 1) <= budget by {
        if k < i {
            lemma_accepts_at(costs, budget, Range { start, end: i }, k);
        } else {
            assert(k == i);
        }
    }
}

proof fn lemma_finish_packing(costs: Seq<usize>, budget: int, bands: Seq<Range<usize>>, start: usize)
    requires
        (start as int) < costs.len(),
        costs.len() <= usize::MAX,
        is_partition(bands, start as int),
        forall|k: int| 0 <= k < bands.len() ==> band_accepts(costs, budget, #[trigger] bands[k]),
        forall|k: int| 0 <= k < bands.len() ==> band_closed(costs, budget, #[trigger] bands[k]),
        band_accepts(costs, budget, Range { start, end: costs.len() as usize }),
    ensures
        is_band_packing(costs, budget, bands.push(Range { start, end: costs.len() as usize })),
{
    let all = bands.push(Range { start, end: costs.len() as usize });
    assert forall|k: int| 0 <= k < all.len() implies band_accepts(costs, budget, #[trigger] all[k]) by {
        if k < bands.len() {
            assert(all[k] == bands[k]);
        }
    }
    assert forall|k: int| 0 <= k < all.len() - 1 implies band_closed(costs, budget, #[trigger] all[k]) by {
        assert(all[k] == bands[k]);
    }
    assert forall|k: int| 0 <= k < all.len() - 1 implies (#[trigger] all[k]).end == all[k + 1].start by {
        if k < bands.len() - 1 {
            assert(all[k] == bands[k] && all[k + 1] == bands[k + 1]);
        }
    }
}

/// Splits rows into consecutive bands, greedily filling each band up to the
/// per-material text budget.
pub fn pack_bands(row_costs: &[usize]) -> (bands: Vec<Range<usize>>)
    requires
        costs_fit(row_costs@),
    ensures
        bands@ == packed_bands(row_costs@),
        is_band_packing(row_costs@, band_budget(row_costs@.len() as int), bands@),
{
    let row_count = row_costs.len();
    if row_count == 0 {
        return Vec::new();
    }
    let content_budget = MAX_TEXT_LEN.saturating_sub(row_count - 1);
    let ghost budget = content_budget as int;
    assert(budget == band_budget(row_count as int));

    let mut bands: Vec<Range<usize>> = Vec::new();
    let mut band_start: usize = 0;
    let mut band_cost: usize = 0;
    assert(row_costs@.take(0) =~= Seq::<usize>::empty());

    for row_index in 0..row_count
        invariant
            row_count == row_costs@.len(),
            row_count > 0,
            budget == content_budget as int,
            content_budget <= MAX_TEXT_LEN,
            costs_fit(row_costs@),
            (bands@, band_start as int, band_cost as int) == pack_state(row_costs@.take(row_index as int), budget),
            band_start <= row_index,
            row_index > 0 ==> band_start < row_index,
            band_cost <= usize::MAX / 2,
            band_cost == cost_sum(row_costs@, band_start as int, row_index as int),
            is_partition(bands@, band_start as int),
            forall|i: int| 0 <= i < bands@.len() ==> band_accepts(row_costs@, budget, #[trigger] bands@[i]),
            forall|i: int| 0 <= i < bands@.len() ==> band_closed(row_costs@, budget, #[trigger] bands@[i]),
            band_accepts(row_costs@, budget, Range { start: band_start, end: row_index }),
    {
        let cost = row_costs[row_index];
        proof {
            lemma_pack_state_step(row_costs@, row_index as int, budget);
        }
        if band_cost > 0 && band_cost + cost > content_budget {
            proof {
                lemma_close_band(row_costs@, budget, bands@, band_start, row_index);
            }
            bands.push(band_start..row_index);
            band_start = row_index;
            band_cost = 0;
            proof {
                assert(cost_sum(row_costs@, row_index as int, row_index as int) == 0);
            }
        }
        proof {
            lemma_extend_band(row_costs@, budget, band_start, row_index, (row_index + 1) as usize);
            lemma_cost_sum_step(row_costs@, band_start as int, row_index as int);
        }
        band_cost += cost;
    }
    let ghost open_band = Range { start: band_start, end: row_count };
    proof {
        assert(row_costs@.take(row_count as int) =~= row_costs@);
        assert(band_start < row_count);
    }
    proof {
        lemma_finish_packing(row_costs@, budget, bands@, band_start);
    }
    bands.push(band_start..row_count);
    bands
}

proof fn lemma_band_text_len(rows: Seq<Seq<i32>>, costs: Seq<usize>, start: int, end: int)
    requires
        0 <= start,
        forall|k: int| 0 <= k < rows.len() ==> costs[k] == row_cost_of(#[trigger] rows[k]),
    ensures
        band_text(rows, start, end).len() == (if rows.len() > 0 { rows.len() - 1 } else { 0 })
            + cost_sum(costs, start, if end < rows.len() { end } else { rows.len() as int }),
    decreases rows.len(),
{
    if rows.len() > 0 {
        let k = rows.len() - 1;
        let before = rows.drop_last();
        assert forall|m: int| 0 <= m < before.len() implies costs[m] == row_cost_of(#[trigger] before[m]) by {
            assert(before[m] == rows[m]);
        }
        lemma_band_text_len(before, costs, start, end);
        lemma_row_cost_is_text_len(rows.last());
        if start <= k && k < end {
            lemma_cost_sum_step(costs, start, k);
        }
    }
}

proof fn lemma_band_within_budget(pixels: Seq<Seq<i32>>, costs: Seq<usize>, band: Range<usize>)
    requires
        pixels.len() >= 1,
        pixels.len() - 1 <= MAX_TEXT_LEN,
        costs.len() == pixels.len(),
        forall|k: int| 0 <= k < pixels.len() ==> costs[k] == row_cost_of(#[trigger] pixels[k]),
        band.start < band.end <= pixels.len(),
        band_accepts(costs, band_budget(pixels.len() as int), band),
    ensures
        band_text(pixels, band.start as int, band.end as int).len() <= MAX_TEXT_LEN
            || cost_sum(costs, band.start as int, band.end - 1) == 0,
{
    lemma_band_text_len(pixels, costs, band.start as int, band.end as int);
    if band.start < band.end - 1 {
        lemma_accepts_at(costs, band_budget(pixels.len() as int), band, band.end - 1);
        lemma_cost_sum_step(costs, band.start as int, band.end - 1);
    } else {
        assert(cost_sum(costs, band.start as int, band.start as int) == 0);
    }
}

/// The text of any band that `pack_bands` forms from a grid's row costs fits
/// in one material (`MAX_TEXT_LEN` characters), unless all of the band's
/// cost sits in its last row (a single row too costly to fit on its own).
pub proof fn lemma_band_fits_material(pixels: Seq<Seq<i32>>, bands: Seq<Range<usize>>, i: int)
    requires
        pixels.len() >= 1,
        pixels.len() - 1 <= MAX_TEXT_LEN,
        rows_fit(pixels),
        is_band_packing(grid_cost_seq(pixels), band_budget(pixels.len() as int), bands),
        0 <= i < bands.len(),
    ensures
        band_text(pixels, bands[i].start as int, bands[i].end as int).len() <= MAX_TEXT_LEN
            || cost_sum(grid_cost_seq(pixels), bands[i].start as int, bands[i].end - 1) == 0,
{
    let costs = grid_cost_seq(pixels);
    assert forall|k: int| 0 <= k < pixels.len() implies costs[k] == row_cost_of(#[trigger] pixels[k]) by {
        lemma_row_cost_bounds(pixels[k]);
    }
    lemma_partition_bounds(bands, pixels.len() as int, i);
    lemma_band_within_budget(pixels, costs, bands[i]);
}

proof fn lemma_partition_bounds(bands: Seq<Range<usize>>, end: int, i: int)
    requires
        is_partition(bands, end),
        0 <= i < bands.len(),
    ensures
        bands[i].start < bands[i].end <= end,
    decreases bands.len() - i,
{
    if i < bands.len() - 1 {
        lemma_partition_bounds(bands, end, i + 1);
    }
}

/// The material texts of a pixel grid: one per band that `pack_bands` forms
/// from the rows' costs.
pub open spec fn band_texts(pixels: Seq<Seq<i32>>) -> Seq<Seq<char>> {
    let bands = packed_bands(grid_cost_seq(pixels));
    Seq::new(bands.len(), |i: int| band_text(pixels, bands[i].start as int, bands[i].end as int))
}

proof fn lemma_partition_starts(bands: Seq<Range<usize>>, end: int, i: int)
    requires
        is_partition(bands, end),
        0 <= i < bands.len(),
    ensures
        bands[i].start >= i,
    decreases i,
{
    if i > 0 {
        lemma_partition_starts(bands, end, i - 1);
    }
}

/// A partition of `end` rows has at most `end` bands.
proof fn lemma_partition_len(bands: Seq<Range<usize>>, end: int)
    requires
        is_partition(bands, end),
    ensures
        bands.len() <= end,
{
    if bands.len() > 0 {
        lemma_partition_starts(bands, end, bands.len() - 1);
    }
}

pub fn build_color_embedded_bands(pixels: &[Vec<i32>]) -> (texts: Vec<String>)
    requires
        rows_fit(grid_view(pixels@)),
    ensures
        texts@.len() <= pixels@.len(),
        texts@.len() == band_texts(grid_view(pixels@)).len(),
        forall|i: int| 0 <= i < texts@.len() ==> #[trigger] texts@[i]@ == band_texts(grid_view(pixels@))[i],
{
    let costs = row_costs(pixels);
    let bands = pack_bands(costs.as_slice());
    proof {
        lemma_partition_len(bands@, costs@.len() as int);
    }
    let mut texts: Vec<String> = Vec::new();
    for i in 0..bands.len()
        invariant
            bands@ == packed_bands(grid_cost_seq(grid_view(pixels@))),
            texts@.len() == i,
            forall|k: int| 0 <= k < i ==> #[trigger] texts@[k]@ == band_texts(grid_view(pixels@))[k],
    {
        let text = render_band(pixels, &bands[i]);
        texts.push(text);
    }
    texts
}

/// Number of resolution levels a clip can be drawn at.
pub const RESOLUTION_LEVEL_COUNT: usize = 4;

/// Number of colour quantisation steps tried at each level.
pub const QUANTIZE_STEP_COUNT: usize = 9;

/// Resolution levels, finest first: grid rows, grid columns, font size.
pub open spec fn resolution_level_spec(level: int) -> (usize, usize, i32) {
    if level == 0 {
        (108, 72, 5)
    } else if level == 1 {
        (54, 36, 10)
    } else if level == 2 {
        (27, 18, 20)
    } else {
        (14, 9, 40)
    }
}

fn resolution_level(level: usize) -> (r: (usize, usize, i32))
    requires
        level < RESOLUTION_LEVEL_COUNT,
    ensures
        r == resolution_level_spec(level as int),
{
    if level == 0 {
        (108, 72, 5)
    } else if level == 1 {
        (54, 36, 10)
    } else if level == 2 {
        (27, 18, 20)
    } else {
        (14, 9, 40)
    }
}

/// Colour quantisation steps tried in turn, 0 meaning full colour: merging
/// nearby colours cuts the number of colour tags a row needs.
pub open spec fn quantize_step_spec(index: int) -> i32 {
    if index == 0 {
        0
    } else if index == 1 {
        8
    } else if index == 2 {
        16
    } else if index == 3 {
        24
    } else if index == 4 {
        32
    } else if index == 5 {
        48
    } else if index == 6 {
        64
    } else if index == 7 {
        80
    } else {
        112
    }
}

fn quantize_step(index: usize) -> (step: i32)
    requires
        index < QUANTIZE_STEP_COUNT,
    ensures
        step == quantize_step_spec(index as int),
        step >= 0,
{
    if index == 0 {
        0
    } else if index == 1 {
        8
    } else if index == 2 {
        16
    } else if index == 3 {
        24
    } else if index == 4 {
        32
    } else if index == 5 {
        48
    } else if index == 6 {
        64
    } else if index == 7 {
        80
    } else {
        112
    }
}

/// The grid drawn for a tile region at a resolution level and quantisation
/// step (a step of 0 keeps the colours as they are).
pub open spec fn quality_grid(region: Seq<u8>, tile_w: int, tile_h: int, level: int, step_index: int) -> Seq<Seq<i32>> {
    let (rows, cols, _) = resolution_level_spec(level);
    let grid = downsampled(region, tile_w, tile_h, rows as int, cols as int);
    let step = quantize_step_spec(step_index);
    if step == 0 {
        grid
    } else {
        quantized_rows(grid, step)
    }
}

/// Whether a region's grid at this quality packs into at most
/// `LAYERS_PER_BUFFER` materials.
#[verifier::opaque]
pub open spec fn region_fits(region: Seq<u8>, tile_w: int, tile_h: int, level: int, step_index: int) -> bool {
    packed_bands(grid_cost_seq(quality_grid(region, tile_w, tile_h, level, step_index))).len() <= LAYERS_PER_BUFFER
}

/// Whether every region fits at candidate quality `candidate` (level
/// `candidate / 9`, step `candidate % 9`).
pub open spec fn quality_fits(regions: Seq<Seq<u8>>, tile_w: int, tile_h: int, candidate: int) -> bool {
    forall|r: int| 0 <= r < regions.len() ==> #[trigger] region_fits(regions[r], tile_w, tile_h, candidate / 9, candidate % 9)
}

/// The first candidate from `candidate` on (levels finest first, steps
/// smallest first) at which everything fits; the last one if none does.
pub open spec fn first_fitting(regions: Seq<Seq<u8>>, tile_w: int, tile_h: int, candidate: int) -> int
    decreases 36 - candidate,
{
    if candidate >= 35 {
        35
    } else if quality_fits(regions, tile_w, tile_h, candidate) {
        candidate
    } else {
        first_fitting(regions, tile_w, tile_h, candidate + 1)
    }
}

/// The quality `pick_quality` settles on: rows, columns, font size and
/// quantisation step.
pub open spec fn picked_quality(regions: Seq<Seq<u8>>, tile_w: int, tile_h: int) -> (usize, usize, i32, i32) {
    let candidate = first_fitting(regions, tile_w, tile_h, 0);
    let (rows, cols, font_size) = resolution_level_spec(candidate / 9);
    (rows, cols, font_size, quantize_step_spec(candidate % 9))
}

/// Tile regions of `tile_w x tile_h` pixels, each with all its bytes.
pub open spec fn regions_sized(regions: Seq<Seq<u8>>, tile_w: int, tile_h: int) -> bool {
    forall|r: int| 0 <= r < regions.len() ==> (#[trigger] regions[r]).len() == tile_w * tile_h * 4
}

/// The sizes a tile may have for its samples to be computed without overflow.
pub open spec fn tile_size_ok(tile_w: int, tile_h: int) -> bool {
    1 <= tile_w <= 0x10_0000 && 1 <= tile_h <= 0x10_0000
}

fn quality_grid_of(region: &Vec<u8>, tile_w: usize, tile_h: usize, level: usize, step_index: usize) -> (grid: Vec<Vec<i32>>)
    requires
        level < RESOLUTION_LEVEL_COUNT,
        step_index < QUANTIZE_STEP_COUNT,
        tile_size_ok(tile_w as int, tile_h as int),
        region@.len() == tile_w * tile_h * 4,
    ensures
        grid_view(grid@) == quality_grid(region@, tile_w as int, tile_h as int, level as int, step_index as int),
        rows_fit(grid_view(grid@)),
{
    let (rows, cols, _font_size) = resolution_level(level);
    proof {
        lemma_downsample_in_bounds(region@.len() as int, tile_w as int, tile_h as int, rows as int, cols as int);
        assert((rows - 1) * tile_w <= usize::MAX) by (nonlinear_arith)
            requires rows <= 108, tile_w <= 0x10_0000;
        assert((cols - 1) * tile_h <= usize::MAX) by (nonlinear_arith)
            requires cols <= 72, tile_h <= 0x10_0000;
    }
    let pixels = downsample_to_argb(region.as_slice(), tile_w, tile_h, rows, cols);
    let step = quantize_step(step_index);
    if step == 0 {
        pixels
    } else {
        quantize_pixels(pixels.as_slice(), step)
    }
}

proof fn lemma_first_fitting_range(regions: Seq<Seq<u8>>, tile_w: int, tile_h: int, candidate: int)
    requires
        0 <= candidate,
    ensures
        candidate <= first_fitting(regions, tile_w, tile_h, candidate) <= 35 || (candidate > 35
            && first_fitting(regions, tile_w, tile_h, candidate) == 35),
    decreases 36 - candidate,
{
    if candidate < 35 && !quality_fits(regions, tile_w, tile_h, candidate) {
        lemma_first_fitting_range(regions, tile_w, tile_h, candidate + 1);
    }
}

/// Samples a tile region at `rows x cols` and quantises it with `step`
/// unless `step` is 0.
fn sampled_grid(region: &Vec<u8>, tile_w: usize, tile_h: usize, rows: usize, cols: usize, step: i32) -> (grid: Vec<Vec<i32>>)
    requires
        1 <= rows <= 108,
        1 <= cols <= 72,
        tile_size_ok(tile_w as int, tile_h as int),
        region@.len() == tile_w * tile_h * 4,
    ensures
        grid_view(grid@) == (if step == 0 {
            downsampled(region@, tile_w as int, tile_h as int, rows as int, cols as int)
        } else {
            quantized_rows(downsampled(region@, tile_w as int, tile_h as int, rows as int, cols as int), step)
        }),
        grid@.len() == rows,
        rows_fit(grid_view(grid@)),
{
    proof {
        lemma_downsample_in_bounds(region@.len() as int, tile_w as int, tile_h as int, rows as int, cols as int);
        assert((rows - 1) * tile_w <= usize::MAX) by (nonlinear_arith)
            requires rows <= 108, tile_w <= 0x10_0000;
        assert((cols - 1) * tile_h <= usize::MAX) by (nonlinear_arith)
            requires cols <= 72, tile_h <= 0x10_0000;
    }
    let pixels = downsample_to_argb(region.as_slice(), tile_w, tile_h, rows, cols);
    if step == 0 {
        pixels
    } else {
        quantize_pixels(pixels.as_slice(), step)
    }
}

#[verifier::rlimit(40)]
fn quality_fits_all(regions: &Vec<Vec<u8>>, tile_w: usize, tile_h: usize, level: usize, step_index: usize) -> (fits: bool)
    requires
        level < RESOLUTION_LEVEL_COUNT,
        step_index < QUANTIZE_STEP_COUNT,
        tile_size_ok(tile_w as int, tile_h as int),
        regions_sized(regions@.map_values(|r: Vec<u8>| r@), tile_w as int, tile_h as int),
    ensures
        fits == quality_fits(regions@.map_values(|r: Vec<u8>| r@), tile_w as int, tile_h as int, (level * 9 + step_index) as int),
{
    let ghost views = regions@.map_values(|r: Vec<u8>| r@);
    let ghost candidate = (level * 9 + step_index) as int;
    assert(candidate / 9 == level as int && candidate % 9 == step_index as int);
    for r in 0..regions.len()
        invariant
            views == regions@.map_values(|r: Vec<u8>| r@),
            candidate == level * 9 + step_index,
            candidate / 9 == level as int && candidate % 9 == step_index as int,
            level < RESOLUTION_LEVEL_COUNT,
            step_index < QUANTIZE_STEP_COUNT,
            tile_size_ok(tile_w as int, tile_h as int),
            regions_sized(views, tile_w as int, tile_h as int),
            forall|k: int| 0 <= k < r ==> #[trigger] region_fits(views[k], tile_w as int, tile_h as int, level as int, step_index as int),
    {
        assert(views[r as int] == regions@[r as int]@);
        let grid = quality_grid_of(&regions[r], tile_w, tile_h, level, step_index);
        let costs = row_costs(grid.as_slice());
        let bands = pack_bands(costs.as_slice());
        assert(region_fits(views[r as int], tile_w as int, tile_h as int, level as int, step_index as int)
            <==> bands@.len() <= LAYERS_PER_BUFFER) by {
            reveal(region_fits);
        }
        if bands.len() > LAYERS_PER_BUFFER {
            return false;
        }
    }
    true
}

/// Picks the finest resolution level, and within it the smallest colour
/// quantisation, at which every region's text fits into a tile's
/// materials; the coarsest candidate when nothing is predicted to fit.
fn pick_quality(regions: &Vec<Vec<u8>>, tile_w: usize, tile_h: usize) -> (quality: (usize, usize, i32, i32))
    requires
        tile_size_ok(tile_w as int, tile_h as int),
        regions_sized(regions@.map_values(|r: Vec<u8>| r@), tile_w as int, tile_h as int),
    ensures
        quality == picked_quality(regions@.map_values(|r: Vec<u8>| r@), tile_w as int, tile_h as int),
{
    let ghost views = regions@.map_values(|r: Vec<u8>| r@);
    for level in 0..RESOLUTION_LEVEL_COUNT
        invariant
            views == regions@.map_values(|r: Vec<u8>| r@),
            tile_size_ok(tile_w as int, tile_h as int),
            regions_sized(views, tile_w as int, tile_h as int),
            first_fitting(views, tile_w as int, tile_h as int, 0) == first_fitting(views, tile_w as int, tile_h as int, level * 9),
    {
        let (rows, cols, font_size) = resolution_level(level);
        for step_index in 0..QUANTIZE_STEP_COUNT
            invariant
                views == regions@.map_values(|r: Vec<u8>| r@),
                level < RESOLUTION_LEVEL_COUNT,
                (rows, cols, font_size) == resolution_level_spec(level as int),
                tile_size_ok(tile_w as int, tile_h as int),
                regions_sized(views, tile_w as int, tile_h as int),
                first_fitting(views, tile_w as int, tile_h as int, 0) == first_fitting(
                    views,
                    tile_w as int,
                    tile_h as int,
                    level * 9 + step_index,
                ),
        {
            let step = quantize_step(step_index);
            let ghost candidate = (level * 9 + step_index) as int;
            assert(candidate / 9 == level as int && candidate % 9 == step_index as int);
            if quality_fits_all(regions, tile_w, tile_h, level, step_index) {
                return (rows, cols, font_size, step);
            }
        }
    }
    (14, 9, 40, 112)
}

/// One object material's text, as painted on one material slot.
#[derive(Clone)]
pub struct Frame3DMaterialLayer {
    pub material_index: i32,
    pub text: String,
    pub font_size: i32,
}

/// The materials of one screen tile.
#[derive(Clone)]
pub struct Frame3DMaterial {
    pub layers: Vec<Frame3DMaterialLayer>,
}

/// Width in pixels of the canvas slice one tile shows.
pub const TILE_CANVAS_WIDTH: usize = 240;

/// Height in pixels of the canvas slice one tile shows (the tile grid's
/// 54:36 aspect ratio applied to its width).
pub const TILE_CANVAS_HEIGHT: usize = 160;

/// The canvas region of tile `t` of a `tile_cols x tile_rows` mosaic: tiles
/// are numbered row by row from the bottom row of the canvas upwards.
pub open spec fn tile_region(canvas: Seq<u8>, tile_cols: int, tile_rows: int, t: int) -> Seq<u8> {
    region_bytes(
        canvas,
        240 * tile_cols,
        (t % tile_cols) * 240,
        (tile_rows - 1 - t / tile_cols) * 160,
        240,
        160,
    )
}

/// The regions of every tile, in tile order.
pub open spec fn tile_regions(canvas: Seq<u8>, tile_cols: int, tile_rows: int) -> Seq<Seq<u8>> {
    Seq::new((tile_cols * tile_rows) as nat, |t: int| tile_region(canvas, tile_cols, tile_rows, t))
}

/// A tile's layers carry `texts` on material slots 0, 1, ... in order.
pub open spec fn material_shows(material: Frame3DMaterial, texts: Seq<Seq<char>>, font_size: i32) -> bool {
    &&& material.layers@.len() == texts.len()
    &&& forall|k: int|
        0 <= k < texts.len() ==> {
            let layer = #[trigger] material.layers@[k];
            &&& layer.material_index == k
            &&& layer.text@ == texts[k]
            &&& layer.font_size == font_size
        }
}

/// The texts of tile `t` at the quality picked for the whole frame.
pub open spec fn tile_texts(canvas: Seq<u8>, tile_cols: int, tile_rows: int, t: int) -> Seq<Seq<char>> {
    let regions = tile_regions(canvas, tile_cols, tile_rows);
    let candidate = first_fitting(regions, 240, 160, 0);
    band_texts(quality_grid(regions[t], 240, 160, candidate / 9, candidate % 9))
}

/// Font size of the quality picked for the whole frame.
pub open spec fn frame_font_size(canvas: Seq<u8>, tile_cols: int, tile_rows: int) -> i32 {
    picked_quality(tile_regions(canvas, tile_cols, tile_rows), 240, 160).2
}

proof fn lemma_tile_region_fits(tile_rows: int, tile_cols: int, row: int, col: int)
    requires
        0 <= row < tile_rows,
        0 <= col < tile_cols,
    ensures
        (((tile_rows - 1 - row) * 160 + 160 - 1) * (240 * tile_cols) + col * 240 + 240) * 4
            <= 240 * tile_cols * 160 * tile_rows * 4,
{
    let w = 240 * tile_cols;
    let a = (tile_rows - 1 - row) * 160 + 159;
    assert(a <= tile_rows * 160 - 1) by (nonlinear_arith)
        requires 0 <= row < tile_rows, a == (tile_rows - 1 - row) * 160 + 159;
    assert(col * 240 + 240 <= w) by (nonlinear_arith)
        requires 0 <= col < tile_cols, w == 240 * tile_cols;
    assert(a * w <= (tile_rows * 160 - 1) * w) by (nonlinear_arith)
        requires a <= tile_rows * 160 - 1, w >= 0;
    assert((tile_rows * 160 - 1) * w + w == 240 * tile_cols * 160 * tile_rows) by (nonlinear_arith)
        requires w == 240 * tile_cols;
}

fn extract_tile_regions(canvas: &[u8], tile_cols: usize, tile_rows: usize) -> (regions: Vec<Vec<u8>>)
    requires
        tile_cols <= usize::MAX / 240,
        tile_rows <= usize::MAX / 160,
        240 * tile_cols * 160 * tile_rows * 4 <= canvas@.len(),
    ensures
        regions@.map_values(|r: Vec<u8>| r@) == tile_regions(canvas@, tile_cols as int, tile_rows as int),
        regions@.len() == tile_cols * tile_rows,
{
    let tile_w = TILE_CANVAS_WIDTH;
    let tile_h = TILE_CANVAS_HEIGHT;
    let canvas_width = tile_w * tile_cols;
    let mut regions: Vec<Vec<u8>> = Vec::new();
    assert(0 * tile_cols == 0);
    for tile_row in 0..tile_rows
        invariant
            tile_w == 240 && tile_h == 160,
            canvas_width == 240 * tile_cols,
            tile_cols <= usize::MAX / 240,
            tile_rows <= usize::MAX / 160,
            240 * tile_cols * 160 * tile_rows * 4 <= canvas@.len(),
            regions@.len() == tile_row * tile_cols,
            forall|t: int| 0 <= t < regions@.len() ==> (#[trigger] regions@[t])@ == tile_region(canvas@, tile_cols as int, tile_rows as int, t),
    {
        for tile_col in 0..tile_cols
            invariant
                tile_w == 240 && tile_h == 160,
                canvas_width == 240 * tile_cols,
                tile_cols <= usize::MAX / 240,
                tile_rows <= usize::MAX / 160,
                0 <= tile_row < tile_rows,
                240 * tile_cols * 160 * tile_rows * 4 <= canvas@.len(),
                regions@.len() == tile_row * tile_cols + tile_col,
                forall|t: int| 0 <= t < regions@.len() ==> (#[trigger] regions@[t])@ == tile_region(canvas@, tile_cols as int, tile_rows as int, t),
        {
            proof {
                lemma_tile_region_fits(tile_rows as int, tile_cols as int, tile_row as int, tile_col as int);
                assert(tile_col * 240 <= usize::MAX) by (nonlinear_arith)
                    requires tile_col < tile_cols, tile_cols <= usize::MAX / 240;
                assert((tile_rows - 1 - tile_row) * 160 + 160 <= usize::MAX) by (nonlinear_arith)
                    requires tile_row < tile_rows, tile_rows <= usize::MAX / 160;
                let t = tile_row * tile_cols + tile_col;
                vstd::arithmetic::div_mod::lemma_fundamental_div_mod_converse(t as int, tile_cols as int, tile_row as int, tile_col as int);
            }
            let region_x = tile_col * tile_w;
            let region_y = (tile_rows - 1 - tile_row) * tile_h;
            let region = extract_region(canvas, canvas_width, region_x, region_y, tile_w, tile_h);
            let ghost t = tile_row * tile_cols + tile_col;
            proof {
                assert(t % (tile_cols as int) == tile_col);
                assert(t / (tile_cols as int) == tile_row);
                assert(canvas_width as int == 240 * tile_cols);
                assert(region_x as int == (t % (tile_cols as int)) * 240);
                assert(region_y as int == (tile_rows - 1 - t / (tile_cols as int)) * 160);
                assert(region@ == region_bytes(canvas@, canvas_width as int, region_x as int, region_y as int, tile_w as int, tile_h as int));
                assert(region@ == region_bytes(canvas@, 240 * tile_cols, tile_col * 240, (tile_rows - 1 - tile_row) * 160, 240, 160));
                assert(region@ == tile_region(canvas@, tile_cols as int, tile_rows as int, t as int));
            }
            regions.push(region);
            proof {
                assert(regions@[t as int]@ == tile_region(canvas@, tile_cols as int, tile_rows as int, t as int));
            }
        }
        proof {
            assert(tile_row * tile_cols + tile_cols == (tile_row + 1) * tile_cols) by (nonlinear_arith);
        }
    }
    proof {
        assert(tile_rows * tile_cols == tile_cols * tile_rows) by (nonlinear_arith);
        assert(regions@.map_values(|r: Vec<u8>| r@) =~= tile_regions(canvas@, tile_cols as int, tile_rows as int));
    }
    regions
}

/// Builds one frame of a `tile_cols x tile_rows` screen from a raw RGBA
/// canvas `240 * tile_cols` pixels wide and `160 * tile_rows` high: picks
/// one quality for all tiles, then renders each tile's material texts.
pub fn build_frame3d(canvas: &[u8], delay: Duration, tile_cols: usize, tile_rows: usize) -> (frame: (
    Vec<Frame3DMaterial>,
    Duration,
))
    requires
        tile_cols <= usize::MAX / 240,
        tile_rows <= usize::MAX / 160,
        240 * tile_cols * 160 * tile_rows * 4 <= canvas@.len(),
    ensures
        frame.0@.len() == tile_cols * tile_rows,
        forall|t: int|
            0 <= t < tile_cols * tile_rows ==> material_shows(
                #[trigger] frame.0@[t],
                tile_texts(canvas@, tile_cols as int, tile_rows as int, t),
                frame_font_size(canvas@, tile_cols as int, tile_rows as int),
            ),
        frame.1 == delay,
{
    let tile_w = TILE_CANVAS_WIDTH;
    let tile_h = TILE_CANVAS_HEIGHT;
    let regions = extract_tile_regions(canvas, tile_cols, tile_rows);
    let ghost views = regions@.map_values(|r: Vec<u8>| r@);
    proof {
        assert forall|r: int| 0 <= r < views.len() implies (#[trigger] views[r]).len() == 240 * 160 * 4 by {
            assert(views[r] == tile_region(canvas@, tile_cols as int, tile_rows as int, r));
        }
    }
    let (rows, cols, font_size, quantize_step) = pick_quality(&regions, tile_w, tile_h);
    let ghost candidate = first_fitting(views, 240, 160, 0);

    let mut region_materials: Vec<Frame3DMaterial> = Vec::new();
    for t in 0..regions.len()
        invariant
            tile_w == 240 && tile_h == 160,
            views == regions@.map_values(|r: Vec<u8>| r@),
            views == tile_regions(canvas@, tile_cols as int, tile_rows as int),
            regions@.len() == tile_cols * tile_rows,
            regions_sized(views, 240, 160),
            candidate == first_fitting(views, 240, 160, 0),
            (rows, cols, font_size, quantize_step) == picked_quality(views, 240, 160),
            region_materials@.len() == t,
            forall|k: int|
                0 <= k < t ==> material_shows(
                    #[trigger] region_materials@[k],
                    tile_texts(canvas@, tile_cols as int, tile_rows as int, k),
                    font_size,
                ),
    {
        proof {
            lemma_first_fitting_range(views, 240, 160, 0);
            assert(views[t as int] == regions@[t as int]@);
        }
        let grid = sampled_grid(&regions[t], tile_w, tile_h, rows, cols, quantize_step);
        proof {
            assert(grid_view(grid@) == quality_grid(views[t as int], 240, 160, candidate / 9, candidate % 9));
        }
        let bands = build_color_embedded_bands(grid.as_slice());
        let mut layers: Vec<Frame3DMaterialLayer> = Vec::new();
        let ghost texts = tile_texts(canvas@, tile_cols as int, tile_rows as int, t as int);
        for k in 0..bands.len()
            invariant
                bands@.len() <= grid@.len(),
                grid@.len() <= 108,
                bands@.len() == texts.len(),
                forall|m: int| 0 <= m < bands@.len() ==> #[trigger] bands@[m]@ == texts[m],
                layers@.len() == k,
                forall|m: int|
                    0 <= m < k ==> {
                        let layer = #[trigger] layers@[m];
                        &&& layer.material_index == m
                        &&& layer.text@ == texts[m]
                        &&& layer.font_size == font_size
                    },
        {
            layers.push(Frame3DMaterialLayer { material_index: k as i32, text: bands[k].clone(), font_size });
        }
        region_materials.push(Frame3DMaterial { layers });
    }
    (region_materials, delay)
}


/// The size frames of a `tile_cols x tile_rows` object screen are decoded
/// at: one tile canvas per tile.
pub fn screen3d_canvas_size(tile_cols: usize, tile_rows: usize) -> (dims: (u32, u32))
    requires
        tile_cols * TILE_CANVAS_WIDTH <= u32::MAX,
        tile_rows * TILE_CANVAS_HEIGHT <= u32::MAX,
    ensures
        dims.0 == tile_cols * TILE_CANVAS_WIDTH,
        dims.1 == tile_rows * TILE_CANVAS_HEIGHT,
{
    ((TILE_CANVAS_WIDTH * tile_cols) as u32, (TILE_CANVAS_HEIGHT * tile_rows) as u32)
}


/// `first_fitting` settles on a fitting candidate whenever one at or after
/// where it starts fits.
proof fn lemma_first_fitting_fits(regions: Seq<Seq<u8>>, tile_w: int, tile_h: int, from: int, c: int)
    requires
        0 <= from <= c < 36,
        quality_fits(regions, tile_w, tile_h, c),
    ensures
        quality_fits(regions, tile_w, tile_h, first_fitting(regions, tile_w, tile_h, from)),
    decreases 36 - from,
{
    if from >= 35 {
        assert(c == 35);
    } else if !quality_fits(regions, tile_w, tile_h, from) {
        lemma_first_fitting_fits(regions, tile_w, tile_h, from + 1, c);
    }
}

/// When some quality fits every tile, every tile of the frame gets at most
/// `LAYERS_PER_BUFFER` materials: the quality picked is one that fits.
pub proof fn lemma_fitting_frame_within_materials(canvas: Seq<u8>, tile_cols: int, tile_rows: int, candidate: int, t: int)
    requires
        0 <= candidate < 36,
        quality_fits(tile_regions(canvas, tile_cols, tile_rows), 240, 160, candidate),
        0 <= t < tile_regions(canvas, tile_cols, tile_rows).len(),
    ensures
        tile_texts(canvas, tile_cols, tile_rows, t).len() <= LAYERS_PER_BUFFER,
{
    let regions = tile_regions(canvas, tile_cols, tile_rows);
    lemma_first_fitting_fits(regions, 240, 160, 0, candidate);
    let picked = first_fitting(regions, 240, 160, 0);
    assert(region_fits(regions[t], 240, 160, picked / 9, picked % 9));
    reveal(region_fits);
}


proof fn lemma_first_fitting_skips(regions: Seq<Seq<u8>>, tile_w: int, tile_h: int, from: int, c: int)
    requires
        0 <= from <= c < first_fitting(regions, tile_w, tile_h, from),
    ensures
        !quality_fits(regions, tile_w, tile_h, c),
    decreases 36 - from,
{
    if from < 35 && !quality_fits(regions, tile_w, tile_h, from) && from < c {
        lemma_first_fitting_skips(regions, tile_w, tile_h, from + 1, c);
    }
}

/// The quality picked for a frame is the best one that fits: no candidate
/// before it (finer levels first, smaller steps first) fits every tile, and
/// it fits unless it is the last, coarsest candidate.
pub proof fn lemma_picked_quality_is_first_fitting(regions: Seq<Seq<u8>>, tile_w: int, tile_h: int)
    ensures
        0 <= first_fitting(regions, tile_w, tile_h, 0) <= 35,
        forall|c: int| 0 <= c < first_fitting(regions, tile_w, tile_h, 0) ==> !#[trigger] quality_fits(regions, tile_w, tile_h, c),
        first_fitting(regions, tile_w, tile_h, 0) < 35 ==> quality_fits(regions, tile_w, tile_h, first_fitting(regions, tile_w, tile_h, 0)),
        ({
            let c = first_fitting(regions, tile_w, tile_h, 0);
            picked_quality(regions, tile_w, tile_h) == (
                resolution_level_spec(c / 9).0,
                resolution_level_spec(c / 9).1,
                resolution_level_spec(c / 9).2,
                quantize_step_spec(c % 9),
            )
        }),
{
    lemma_first_fitting_range(regions, tile_w, tile_h, 0);
    assert forall|c: int| 0 <= c < first_fitting(regions, tile_w, tile_h, 0) implies !#[trigger] quality_fits(regions, tile_w, tile_h, c) by {
        lemma_first_fitting_skips(regions, tile_w, tile_h, 0, c);
    }
    lemma_first_fitting_result(regions, tile_w, tile_h, 0);
}

proof fn lemma_first_fitting_result(regions: Seq<Seq<u8>>, tile_w: int, tile_h: int, from: int)
    requires
        0 <= from,
    ensures
        first_fitting(regions, tile_w, tile_h, from) < 35 ==> quality_fits(regions, tile_w, tile_h, first_fitting(regions, tile_w, tile_h, from)),
    decreases 36 - from,
{
    if from < 35 && !quality_fits(regions, tile_w, tile_h, from) {
        lemma_first_fitting_result(regions, tile_w, tile_h, from + 1);
    }
}

/// A band's material text is every row of the grid, each on its own line,
/// with the rows of the band drawn and the others left empty: its length is
/// one line break per row after the first plus the cost of the band's rows.
pub proof fn lemma_band_text_length(pixels: Seq<Seq<i32>>, start: int, end: int)
    requires
        0 <= start,
        rows_fit(pixels),
    ensures
        band_text(pixels, start, end).len() == (if pixels.len() > 0 { pixels.len() - 1 } else { 0 })
            + cost_sum(grid_cost_seq(pixels), start, if end < pixels.len() { end } else { pixels.len() as int }),
{
    let costs = grid_cost_seq(pixels);
    assert forall|k: int| 0 <= k < pixels.len() implies costs[k] == row_cost_of(#[trigger] pixels[k]) by {
        lemma_row_cost_bounds(pixels[k]);
    }
    lemma_band_text_len(pixels, costs, start, end);
}


/// Lines put one after another with a `\n` between each two.
pub open spec fn joined_lines(lines: Seq<Seq<char>>) -> Seq<char>
    decreases lines.len(),
{
    if lines.len() == 0 {
        Seq::empty()
    } else {
        joined_lines(lines.drop_last()) + (if lines.len() > 1 {
            seq!['\n']
        } else {
            Seq::empty()
        }) + lines.last()
    }
}

/// The lines of a band's material text: line `i` draws row `i` when the
/// row is in `start..end` and is empty otherwise.
pub open spec fn band_lines(rows: Seq<Seq<i32>>, start: int, end: int) -> Seq<Seq<char>> {
    Seq::new(rows.len(), |i: int| if start <= i < end { row_text(rows[i]) } else { Seq::empty() })
}

proof fn lemma_band_text_joins_lines(rows: Seq<Seq<i32>>, start: int, end: int)
    ensures
        band_text(rows, start, end) == joined_lines(band_lines(rows, start, end)),
    decreases rows.len(),
{
    if rows.len() > 0 {
        lemma_band_text_joins_lines(rows.drop_last(), start, end);
        assert(band_lines(rows, start, end).drop_last() =~= band_lines(rows.drop_last(), start, end));
    }
}

proof fn lemma_hex_digit_not_break(rgb: u32, i: u32)
    requires
        i <= 5,
    ensures
        hex_digit(hex_nibble(rgb, i)) != '\n',
{
    let d = hex_nibble(rgb, i);
    let s = (20 - 4 * i) as u32;
    assert((rgb >> s) & 0xF <= 15) by (bit_vector);
    assert(d <= 15);
}

/// A row's text stays on its line: it holds no `\n`.
pub proof fn lemma_row_text_single_line(row: Seq<i32>)
    ensures
        !row_text(row).contains('\n'),
    decreases row.len(),
{
    if row.len() > 0 {
        let before = row.drop_last();
        lemma_row_text_single_line(before);
        let p = row.last();
        let t = pixel_text(before, p);
        if is_opaque(p) && row_last_color(before) != Some(rgb_of(p)) {
            let rgb = rgb_of(p) as u32;
            lemma_hex_digit_not_break(rgb, 0);
            lemma_hex_digit_not_break(rgb, 1);
            lemma_hex_digit_not_break(rgb, 2);
            lemma_hex_digit_not_break(rgb, 3);
            lemma_hex_digit_not_break(rgb, 4);
            lemma_hex_digit_not_break(rgb, 5);
        }
        assert(!t.contains('\n'));
        let whole = row_text(before) + t;
        assert forall|j: int| 0 <= j < whole.len() implies whole[j] != '\n' by {
            if j < row_text(before).len() {
                assert(whole[j] == row_text(before)[j]);
            } else {
                assert(whole[j] == t[j - row_text(before).len()]);
            }
        }
    }
}

/// Each material text of a grid has one line per row of the grid, rows
/// separated by `\n`: the rows of its band are drawn on their lines (a
/// space per transparent pixel, an `n` per opaque one, with a colour tag
/// where the colour changes) and every other line is empty. Its length is
/// one `\n` per row after the first plus the cost of the band's rows.
pub proof fn lemma_band_texts_lines(pixels: Seq<Seq<i32>>, k: int)
    requires
        rows_fit(pixels),
        0 <= k < band_texts(pixels).len(),
    ensures
        ({
            let bands = packed_bands(grid_cost_seq(pixels));
            let lines = band_lines(pixels, bands[k].start as int, bands[k].end as int);
            &&& band_texts(pixels).len() == bands.len()
            &&& lines.len() == pixels.len()
            &&& band_texts(pixels)[k] == joined_lines(lines)
            &&& forall|i: int| 0 <= i < lines.len() ==> !(#[trigger] lines[i]).contains('\n')
            &&& band_texts(pixels)[k].len() == (if pixels.len() > 0 { pixels.len() - 1 } else { 0 }) + cost_sum(
                grid_cost_seq(pixels),
                bands[k].start as int,
                if bands[k].end < pixels.len() { bands[k].end as int } else { pixels.len() as int },
            )
        }),
{
    let bands = packed_bands(grid_cost_seq(pixels));
    let s = bands[k].start as int;
    let e = bands[k].end as int;
    let lines = band_lines(pixels, s, e);
    lemma_band_text_joins_lines(pixels, s, e);
    assert forall|i: int| 0 <= i < lines.len() implies !(#[trigger] lines[i]).contains('\n') by {
        if s <= i < e {
            lemma_row_text_single_line(pixels[i]);
        } else {
            assert(lines[i] =~= Seq::<char>::empty());
        }
    }
    lemma_band_text_length(pixels, s, e);
}

/// Every tile's materials are the band texts of its own canvas region:
/// tile `t` covers columns `(t % tile_cols) * 240..` and, counting tile rows
/// from the bottom of the canvas, rows `(tile_rows - 1 - t / tile_cols) * 160..`,
/// drawn at the one quality picked for the whole frame.
pub proof fn lemma_tile_texts_of_region(canvas: Seq<u8>, tile_cols: int, tile_rows: int, t: int)
    requires
        tile_cols >= 1,
        tile_rows >= 1,
        0 <= t < tile_cols * tile_rows,
    ensures
        ({
            let regions = tile_regions(canvas, tile_cols, tile_rows);
            let candidate = first_fitting(regions, 240, 160, 0);
            &&& regions[t] == region_bytes(
                canvas,
                240 * tile_cols,
                (t % tile_cols) * 240,
                (tile_rows - 1 - t / tile_cols) * 160,
                240,
                160,
            )
            &&& tile_texts(canvas, tile_cols, tile_rows, t) == band_texts(
                quality_grid(regions[t], 240, 160, candidate / 9, candidate % 9),
            )
            &&& picked_quality(regions, 240, 160) == (
                resolution_level_spec(candidate / 9).0,
                resolution_level_spec(candidate / 9).1,
                resolution_level_spec(candidate / 9).2,
                quantize_step_spec(candidate % 9),
            )
            &&& frame_font_size(canvas, tile_cols, tile_rows) == resolution_level_spec(candidate / 9).2
        }),
{
    assert(tile_cols * tile_rows >= 0) by (nonlinear_arith)
        requires tile_cols >= 1, tile_rows >= 1;
}

} // verus!
