//! The wall objects of a 3D screen: each tile owns a queue of material
//! paints still to send, and a buffer groups the tiles of one screen.

use std::collections::VecDeque;
use vstd::prelude::*;
use crate::frame3d::{Frame3DMaterial, Frame3DMaterialLayer, LAYERS_PER_BUFFER};
use crate::text::push_char;
use crate::config::ScreenModelConfig;

verus! {

/// Font size of the blank text that clears a material.
pub const GRID_FONT_SIZE: i32 = 10;

/// The 3D model a screen is built from.
#[derive(Clone, Copy, Debug, PartialEq, Eq, Structural)]
pub enum ScreenModel {
    Standard,
    Shadow,
}

impl ScreenModel {
    pub fn from_id(id: i32) -> (model: Option<Self>)
        ensures
            id == 0 ==> model == Some(ScreenModel::Standard),
            id == 1 ==> model == Some(ScreenModel::Shadow),
            id != 0 && id != 1 ==> model is None,
    {
        if id == 0 {
            Some(ScreenModel::Standard)
        } else if id == 1 {
            Some(ScreenModel::Shadow)
        } else {
            None
        }
    }

    /// The custom model id of this model, as configured.
    pub fn to_model_id(&self, config: &ScreenModelConfig) -> (id: i32)
        ensures
            *self == ScreenModel::Standard ==> id == config.standard_model_id,
            *self == ScreenModel::Shadow ==> id == config.shadow_model_id,
    {
        match self {
            ScreenModel::Standard => config.standard_model_id,
            ScreenModel::Shadow => config.shadow_model_id,
        }
    }

    /// The base game model this model extends, as configured.
    pub fn to_base_model_id(&self, config: &ScreenModelConfig) -> (id: i32)
        ensures
            *self == ScreenModel::Standard ==> id == config.standard_base_model_id,
            *self == ScreenModel::Shadow ==> id == config.shadow_base_model_id,
    {
        match self {
            ScreenModel::Standard => config.standard_base_model_id,
            ScreenModel::Shadow => config.shadow_base_model_id,
        }
    }
}

impl View for Frame3DMaterialLayer {
    type V = (i32, Seq<char>, i32);

    open spec fn view(&self) -> (i32, Seq<char>, i32) {
        (self.material_index, self.text@, self.font_size)
    }
}

impl Frame3DMaterialLayer {
    /// A copy of the layer.
    pub fn duplicate(&self) -> (copy: Self)
        ensures
            copy@ == self@,
    {
        Frame3DMaterialLayer { material_index: self.material_index, text: self.text.clone(), font_size: self.font_size }
    }
}

/// The queued paints, as (material slot, text, font size).
pub open spec fn layer_views(layers: Seq<Frame3DMaterialLayer>) -> Seq<(i32, Seq<char>, i32)> {
    layers.map_values(|l: Frame3DMaterialLayer| l@)
}

/// Blank paints for material slots `from..to`.
pub open spec fn blank_layers(from: int, to: int) -> Seq<(i32, Seq<char>, i32)> {
    Seq::new(
        (if to > from { to - from } else { 0 }) as nat,
        |k: int| ((from + k) as i32, seq![' '], GRID_FONT_SIZE),
    )
}

/// One wall object of a screen, with the paints still to send to it.
pub struct ScreenBufferTile {
    pub object_id: i32,
    pub last_painted_layers: usize,
    pending: VecDeque<Frame3DMaterialLayer>,
}

impl ScreenBufferTile {
    /// The tile's object.
    pub closed spec fn object(&self) -> i32 {
        self.object_id
    }

    /// How many materials the last staged frame used.
    pub closed spec fn painted_layers(&self) -> usize {
        self.last_painted_layers
    }

    /// The paints still to send, oldest first.
    pub closed spec fn pending(&self) -> Seq<(i32, Seq<char>, i32)> {
        layer_views(self.pending@)
    }

    pub fn new(object_id: i32) -> (tile: Self)
        ensures
            tile.object() == object_id,
            tile.painted_layers() == LAYERS_PER_BUFFER,
            tile.pending() == Seq::<(i32, Seq<char>, i32)>::empty(),
    {
        let tile = ScreenBufferTile { object_id, last_painted_layers: LAYERS_PER_BUFFER, pending: VecDeque::new() };
        assert(tile.pending() =~= Seq::<(i32, Seq<char>, i32)>::empty());
        tile
    }

    pub fn has_pending(&self) -> (pending: bool)
        ensures
            pending == (self.pending().len() > 0),
    {
        self.pending.len() > 0
    }

    /// Queues the paints of a tile's new layers, then blanks for the
    /// materials painted last time that the new layers leave unused.
    pub fn stage_paint(&mut self, layers: &[Frame3DMaterialLayer])
        ensures
            final(self).pending() == old(self).pending() + layer_views(layers@) + blank_layers(
                layers@.len() as int,
                old(self).painted_layers() as int,
            ),
            final(self).painted_layers() == layers@.len(),
            final(self).object() == old(self).object(),
    {
        let new_layer_count = layers.len();
        let ghost start = self.pending();
        for i in 0..layers.len()
            invariant
                self.pending() == start + layer_views(layers@.take(i as int)),
                self.object_id == old(self).object(),
                self.last_painted_layers == old(self).painted_layers(),
        {
            let layer = layers[i].duplicate();
            let ghost before = self.pending@;
            self.pending.push_back(layer);
            proof {
                assert(layer_views(layers@.take(i + 1)) =~= layer_views(layers@.take(i as int)).push(layers@[i as int]@));
                assert(self.pending() =~= layer_views(before).push(layer@));
            }
        }
        assert(layers@.take(layers@.len() as int) =~= layers@);
        let ghost mid = self.pending();
        let mut material_index = new_layer_count;
        while material_index < self.last_painted_layers
            invariant
                new_layer_count == layers@.len(),
                new_layer_count <= material_index || material_index == new_layer_count,
                self.last_painted_layers == old(self).painted_layers(),
                material_index <= self.last_painted_layers || material_index == new_layer_count,
                self.object_id == old(self).object(),
                self.pending() == mid + blank_layers(new_layer_count as int, material_index as int),
            decreases self.last_painted_layers - material_index,
        {
            let ghost before = self.pending@;
            let mut blank = String::new();
            push_char(&mut blank, ' ');
            assert(blank@ =~= seq![' ']);
            self.pending.push_back(Frame3DMaterialLayer { material_index: material_index as i32, text: blank, font_size: GRID_FONT_SIZE });
            proof {
                assert(blank_layers(new_layer_count as int, material_index + 1) =~= blank_layers(new_layer_count as int, material_index as int).push(
                    ((material_index as int) as i32, seq![' '], GRID_FONT_SIZE),
                ));
                assert(self.pending() =~= layer_views(before).push(self.pending@.last()@));
            }
            material_index = material_index + 1;
        }
        proof {
            if old(self).painted_layers() <= new_layer_count {
                assert(blank_layers(new_layer_count as int, material_index as int) =~= blank_layers(
                    new_layer_count as int,
                    old(self).painted_layers() as int,
                ));
            }
        }
        self.last_painted_layers = new_layer_count;
    }

    /// Takes up to `budget` paints off the front of the queue, oldest first,
    /// for the caller to send.
    pub fn take_pending(&mut self, budget: usize) -> (taken: Vec<Frame3DMaterialLayer>)
        ensures
            taken@.len() == if budget < old(self).pending().len() { budget as int } else { old(self).pending().len() as int },
            layer_views(taken@) == old(self).pending().take(taken@.len() as int),
            final(self).pending() == old(self).pending().skip(taken@.len() as int),
            final(self).object() == old(self).object(),
            final(self).painted_layers() == old(self).painted_layers(),
    {
        let mut taken: Vec<Frame3DMaterialLayer> = Vec::new();
        let ghost start = self.pending();
        let available = self.pending.len();
        assert(available == start.len());
        let count = if budget < available { budget } else { available };
        while taken.len() < count
            invariant
                count <= start.len(),
                taken@.len() <= count,
                layer_views(taken@) == start.take(taken@.len() as int),
                self.pending() == start.skip(taken@.len() as int),
                self.object_id == old(self).object(),
                self.last_painted_layers == old(self).painted_layers(),
                start == old(self).pending(),
            decreases count - taken@.len(),
        {
            let ghost before = self.pending@;
            let ghost n = taken@.len() as int;
            assert(layer_views(before).len() > 0);
            let popped = self.pending.pop_front();
            match popped {
                Some(layer) => {
                    proof {
                        assert(layer_views(before)[0] == before[0]@);
                        assert(self.pending() =~= layer_views(before).subrange(1, before.len() as int));
                        assert(layer@ == start[n]);
                    }
                    taken.push(layer);
                    proof {
                        assert(layer_views(taken@) =~= start.take(n + 1));
                        assert(self.pending() =~= start.skip(n + 1));
                    }
                },
                None => {},
            }
        }
        taken
    }
}

/// The wall tiles that make up one screen's worth of objects, row by row.
pub struct ScreenBuffer {
    pub tiles: Vec<ScreenBufferTile>,
    pub tile_cols: usize,
}

/// Grid position of tile `index`: where it is attached relative to the
/// anchor tile (tile 0).
pub fn tile_offset(index: usize, tile_cols: usize) -> (position: (usize, usize))
    requires
        tile_cols > 0,
    ensures
        position.0 == index % tile_cols,
        position.1 == index / tile_cols,
{
    (index % tile_cols, index / tile_cols)
}

/// The grid positions of the tiles of a `tile_cols x tile_rows` buffer in
/// the order they are created: the anchor at (0, 0) first, then the others
/// row by row.
pub fn tile_layout(tile_cols: usize, tile_rows: usize) -> (positions: Vec<(usize, usize)>)
    requires
        tile_cols * tile_rows <= usize::MAX,
    ensures
        positions@.len() == tile_cols * tile_rows,
        forall|i: int| #![trigger positions@[i]] 0 <= i < positions@.len() ==> positions@[i].0 == i % tile_cols as int && positions@[i].1 == i / tile_cols as int,
{
    let mut positions: Vec<(usize, usize)> = Vec::new();
    assert(0 * tile_cols == 0);
    for tile_row in 0..tile_rows
        invariant
            tile_cols * tile_rows <= usize::MAX,
            positions@.len() == tile_row * tile_cols,
            forall|i: int| #![trigger positions@[i]] 0 <= i < positions@.len() ==> positions@[i].0 == i % tile_cols as int && positions@[i].1 == i / tile_cols as int,
    {
        for tile_col in 0..tile_cols
            invariant
                tile_row < tile_rows,
                positions@.len() == tile_row * tile_cols + tile_col,
                forall|i: int| #![trigger positions@[i]] 0 <= i < positions@.len() ==> positions@[i].0 == i % tile_cols as int && positions@[i].1 == i / tile_cols as int,
        {
            proof {
                vstd::arithmetic::div_mod::lemma_fundamental_div_mod_converse(
                    (tile_row * tile_cols + tile_col) as int,
                    tile_cols as int,
                    tile_row as int,
                    tile_col as int,
                );
            }
            positions.push((tile_col, tile_row));
        }
        proof {
            assert(tile_row * tile_cols + tile_cols == (tile_row + 1) * tile_cols) by (nonlinear_arith);
        }
    }
    proof {
        assert(tile_rows * tile_cols == tile_cols * tile_rows) by (nonlinear_arith);
    }
    positions
}

/// Tile `after` is tile `before` with `taken` (at most `room` paints) taken
/// off the front of its queue.
pub open spec fn took_front(before: ScreenBufferTile, after: ScreenBufferTile, taken: Seq<Frame3DMaterialLayer>, room: int) -> bool {
    &&& taken.len() == if room < before.pending().len() { room } else { before.pending().len() as int }
    &&& layer_views(taken) == before.pending().take(taken.len() as int)
    &&& after.pending() == before.pending().skip(taken.len() as int)
    &&& after.object() == before.object()
    &&& after.painted_layers() == before.painted_layers()
}

/// Paints taken from tiles `0..i`.
pub open spec fn taken_total(taken: Seq<Vec<Frame3DMaterialLayer>>, i: int) -> int
    decreases i,
{
    if i <= 0 {
        0
    } else {
        taken_total(taken, i - 1) + taken[i - 1]@.len()
    }
}

/// `after` is the buffer `before` once `frame_tiles[i]` has been staged on
/// tile `i`, for every tile that has layers in the frame.
pub open spec fn staged(before: ScreenBuffer, after: ScreenBuffer, frame_tiles: Seq<Frame3DMaterial>) -> bool {
    &&& after.tile_cols == before.tile_cols
    &&& after.tiles@.len() == before.tiles@.len()
    &&& forall|i: int|
        0 <= i < before.tiles@.len() ==> {
            let b = before.tiles@[i];
            let a = #[trigger] after.tiles@[i];
            &&& a.object() == b.object()
            &&& i < frame_tiles.len() ==> {
                &&& a.pending() == b.pending() + layer_views(frame_tiles[i].layers@) + blank_layers(
                    frame_tiles[i].layers@.len() as int,
                    b.painted_layers() as int,
                )
                &&& a.painted_layers() == frame_tiles[i].layers@.len()
            }
            &&& i >= frame_tiles.len() ==> a == b
        }
}

/// Some tile of `buffer` has paints waiting.
pub open spec fn any_pending(buffer: ScreenBuffer) -> bool {
    exists|i: int| 0 <= i < buffer.tiles@.len() && (#[trigger] buffer.tiles@[i]).pending().len() > 0
}

/// `after` is the buffer `before` once `taken` (at most `budget` paints in
/// all) has been taken off its tiles' queues, tile by tile in order.
pub open spec fn took(before: ScreenBuffer, after: ScreenBuffer, taken: Seq<Vec<Frame3DMaterialLayer>>, budget: int) -> bool {
    &&& after.tile_cols == before.tile_cols
    &&& after.tiles@.len() == before.tiles@.len()
    &&& taken.len() == before.tiles@.len()
    &&& taken_total(taken, taken.len() as int) <= budget
    &&& forall|i: int|
        0 <= i < taken.len() ==> took_front(
            before.tiles@[i],
            #[trigger] after.tiles@[i],
            taken[i]@,
            budget - taken_total(taken, i),
        )
}

impl ScreenBuffer {
    /// Stages the layers of `frame_tiles[i]` on tile `i`, for every tile
    /// that has layers in the frame.
    pub fn stage_paint(&mut self, frame_tiles: &Vec<Frame3DMaterial>)
        ensures
            final(self).tile_cols == old(self).tile_cols,
            final(self).tiles@.len() == old(self).tiles@.len(),
            forall|i: int|
                0 <= i < old(self).tiles@.len() ==> {
                    let before = old(self).tiles@[i];
                    let after = #[trigger] final(self).tiles@[i];
                    &&& after.object() == before.object()
                    &&& i < frame_tiles@.len() ==> {
                        &&& after.pending() == before.pending() + layer_views(frame_tiles@[i].layers@) + blank_layers(
                            frame_tiles@[i].layers@.len() as int,
                            before.painted_layers() as int,
                        )
                        &&& after.painted_layers() == frame_tiles@[i].layers@.len()
                    }
                    &&& i >= frame_tiles@.len() ==> after == before
                },
            staged(*old(self), *final(self), frame_tiles@),
    {
        let n = if self.tiles.len() < frame_tiles.len() { self.tiles.len() } else { frame_tiles.len() };
        for i in 0..n
            invariant
                n <= self.tiles@.len(),
                n <= frame_tiles@.len(),
                self.tile_cols == old(self).tile_cols,
                self.tiles@.len() == old(self).tiles@.len(),
                forall|k: int| i <= k < self.tiles@.len() ==> #[trigger] self.tiles@[k] == old(self).tiles@[k],
                forall|k: int|
                    0 <= k < i ==> {
                        let before = old(self).tiles@[k];
                        let after = #[trigger] self.tiles@[k];
                        &&& after.object() == before.object()
                        &&& after.pending() == before.pending() + layer_views(frame_tiles@[k].layers@) + blank_layers(
                            frame_tiles@[k].layers@.len() as int,
                            before.painted_layers() as int,
                        )
                        &&& after.painted_layers() == frame_tiles@[k].layers@.len()
                    },
        {
            assert(self.tiles@[i as int] == old(self).tiles@[i as int]);
            self.tiles[i].stage_paint(frame_tiles[i].layers.as_slice());
        }
    }

    pub fn has_pending(&self) -> (pending: bool)
        ensures
            pending == exists|i: int| 0 <= i < self.tiles@.len() && (#[trigger] self.tiles@[i]).pending().len() > 0,
            pending == any_pending(*self),
    {
        for i in 0..self.tiles.len()
            invariant
                forall|k: int| 0 <= k < i ==> (#[trigger] self.tiles@[k]).pending().len() == 0,
        {
            if self.tiles[i].has_pending() {
                return true;
            }
        }
        false
    }

    /// Takes up to `budget` paints off the tiles' queues, tile by tile in
    /// order, each tile's oldest first; entry `i` of the result holds the
    /// paints for tile `i`.
    pub fn take_pending(&mut self, budget: usize) -> (taken: Vec<Vec<Frame3DMaterialLayer>>)
        ensures
            final(self).tile_cols == old(self).tile_cols,
            final(self).tiles@.len() == old(self).tiles@.len(),
            taken@.len() == old(self).tiles@.len(),
            taken_total(taken@, taken@.len() as int) <= budget,
            forall|i: int|
                0 <= i < taken@.len() ==> took_front(
                    old(self).tiles@[i],
                    #[trigger] final(self).tiles@[i],
                    taken@[i]@,
                    budget - taken_total(taken@, i),
                ),
            took(*old(self), *final(self), taken@, budget as int),
    {
        let mut remaining = budget;
        let mut taken: Vec<Vec<Frame3DMaterialLayer>> = Vec::new();
        let n = self.tiles.len();
        for i in 0..n
            invariant
                n == old(self).tiles@.len(),
                self.tile_cols == old(self).tile_cols,
                self.tiles@.len() == old(self).tiles@.len(),
                taken@.len() == i,
                remaining == budget - taken_total(taken@, i as int),
                forall|k: int| i <= k < self.tiles@.len() ==> #[trigger] self.tiles@[k] == old(self).tiles@[k],
                forall|k: int|
                    0 <= k < i ==> took_front(
                        old(self).tiles@[k],
                        #[trigger] self.tiles@[k],
                        taken@[k]@,
                        budget - taken_total(taken@, k),
                    ),
        {
            assert(self.tiles@[i as int] == old(self).tiles@[i as int]);
            let ghost old_remaining = remaining;
            let ghost tiles_before = self.tiles@;
            let tile_taken = self.tiles[i].take_pending(remaining);
            assert(tile_taken@.len() <= old_remaining);
            remaining = remaining - tile_taken.len();
            let ghost prev = taken@;
            taken.push(tile_taken);
            proof {
                assert(taken@.drop_last() =~= prev);
                assert(taken@[i as int] == tile_taken);
                assert forall|k: int| 0 <= k <= i implies taken_total(taken@, k) == taken_total(prev, k) by {
                    lemma_taken_total_prefix(prev, taken@, k);
                }
                assert(taken_total(taken@, i + 1) == taken_total(taken@, i as int) + tile_taken@.len());
                assert forall|k: int| 0 <= k < i + 1 implies took_front(
                    old(self).tiles@[k],
                    #[trigger] self.tiles@[k],
                    taken@[k]@,
                    budget - taken_total(taken@, k),
                ) by {
                    if k < i {
                        assert(taken@[k] == prev[k]);
                        assert(self.tiles@[k] == tiles_before[k]);
                    } else {
                        assert(k == i);
                        assert(budget - taken_total(taken@, k) == old_remaining);
                        assert(self.tiles@[k].pending() == old(self).tiles@[k].pending().skip(tile_taken@.len() as int));
                    }
                }
            }
        }
        taken
    }
}

proof fn lemma_taken_total_prefix(a: Seq<Vec<Frame3DMaterialLayer>>, b: Seq<Vec<Frame3DMaterialLayer>>, k: int)
    requires
        0 <= k <= a.len(),
        a.len() <= b.len(),
        forall|m: int| 0 <= m < a.len() ==> #[trigger] a[m] == b[m],
    ensures
        taken_total(a, k) == taken_total(b, k),
    decreases k,
{
    if k > 0 {
        lemma_taken_total_prefix(a, b, k - 1);
    }
}


proof fn lemma_taken_total_mono(taken: Seq<Vec<Frame3DMaterialLayer>>, i: int, n: int)
    requires
        0 <= i <= n <= taken.len(),
    ensures
        taken_total(taken, i) <= taken_total(taken, n),
    decreases n - i,
{
    if i < n {
        lemma_taken_total_mono(taken, i, n - 1);
    }
}

/// A take that used less than its budget emptied every tile's queue: the
/// buffer has nothing pending afterwards.
pub proof fn lemma_take_under_budget_drains(
    before: ScreenBuffer,
    after: ScreenBuffer,
    taken: Seq<Vec<Frame3DMaterialLayer>>,
    budget: int,
)
    requires
        took(before, after, taken, budget),
        taken_total(taken, taken.len() as int) < budget,
    ensures
        !any_pending(after),
{
    assert forall|i: int| 0 <= i < after.tiles@.len() implies (#[trigger] after.tiles@[i]).pending().len() == 0 by {
        lemma_taken_total_mono(taken, i + 1, taken.len() as int);
        assert(took_front(before.tiles@[i], after.tiles@[i], taken[i]@, budget - taken_total(taken, i)));
    }
}

} // verus!
