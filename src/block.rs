use vstd::prelude::*;

use crate::text::chars_of;

verus! {

/// Tiles along one side of a block.
pub const BLOCK_TILE_LENGTH: usize = 8;

/// Pixels along one side of a tile.
pub const TILE_PIXEL_LENGTH: usize = 16;

/// Pixels along one side of a block.
pub const BLOCK_PIXEL_LENGTH: usize = 128;

/// Tiles in one layer of a block.
pub const LAYER_TILE_COUNT: usize = 64;

/// Tile ids from this value on name collision tiles; the collision tile
/// for id `t` is entry `t - COLLISION_TILE_OFFSET` of the decoded tiles.
pub const COLLISION_TILE_OFFSET: usize = 340;

/// One entry of a block layer: which tile, rotated and mirrored how.
#[derive(Clone, Copy, Debug)]
pub struct Tile {
    pub rot: u32,
    pub flip: bool,
    pub tile: usize,
}

/// A named 8x8 grid of tiles, stored row by row.
pub struct Layer {
    pub name: String,
    pub tiles: Vec<Tile>,
}

/// A reusable 8x8-tile building unit of a level.
pub struct Block {
    pub graphics_layers: Vec<Layer>,
    pub collision_layers: Vec<Layer>,
}

/// Every tile of `layer` names a collision tile among `n` decoded ones.
pub open spec fn collision_layer_wf(layer: Layer, n: nat) -> bool {
    &&& layer.tiles@.len() == LAYER_TILE_COUNT
    &&& forall|k: int|
        0 <= k < LAYER_TILE_COUNT ==> COLLISION_TILE_OFFSET <= (#[trigger] layer.tiles@[k]).tile
            < COLLISION_TILE_OFFSET + n
}

impl Block {
    /// The block has at least one collision layer, and every collision
    /// layer is a full grid of tiles that name one of `n` collision tiles.
    pub open spec fn collision_wf(&self, n: nat) -> bool {
        &&& self.collision_layers@.len() >= 1
        &&& forall|l: int|
            0 <= l < self.collision_layers@.len() ==> collision_layer_wf(
                #[trigger] self.collision_layers@[l],
                n,
            )
    }
}


/// A block as stored: its layers, graphics and collision ones mixed.
pub struct RawBlock {
    pub layers: Vec<Layer>,
}

/// Why a stored block was rejected.
#[derive(Clone, Copy, Debug, PartialEq, Eq, Structural)]
pub enum BlockError {
    /// The block has this many graphics layers, not one or two.
    GraphicsLayerCount(usize),
    /// The block has this many collision layers, not one or two.
    CollisionLayerCount(usize),
    /// A layer has this many tiles, not 64.
    LayerTileCount(usize),
}

/// `s` starts with `prefix`.
pub open spec fn has_prefix(s: Seq<char>, prefix: Seq<char>) -> bool {
    prefix.len() <= s.len() && s.subrange(0, prefix.len() as int) == prefix
}

/// A layer holds collision data: its name says so, or, when its name says
/// neither, one of its tiles is a collision tile.
pub open spec fn is_collision_layer(l: Layer) -> bool {
    if has_prefix(l.name@, "Graphics"@) {
        false
    } else if has_prefix(l.name@, "Collision"@) {
        true
    } else {
        exists|k: int| 0 <= k < l.tiles@.len() && (#[trigger] l.tiles@[k]).tile >= COLLISION_TILE_OFFSET
    }
}

/// The layers of `ls` that hold collision data (or, with `collision` false,
/// graphics), in order.
pub open spec fn layers_of_kind(ls: Seq<Layer>, collision: bool) -> Seq<Layer>
    decreases ls.len(),
{
    if ls.len() == 0 {
        seq![]
    } else if is_collision_layer(ls.last()) == collision {
        layers_of_kind(ls.drop_last(), collision).push(ls.last())
    } else {
        layers_of_kind(ls.drop_last(), collision)
    }
}

/// The first layer of `ls` whose tile count is not 64, if any.
pub open spec fn first_bad_layer(ls: Seq<Layer>) -> Option<nat>
    decreases ls.len(),
{
    if ls.len() == 0 {
        None
    } else if ls[0].tiles@.len() != LAYER_TILE_COUNT {
        Some(ls[0].tiles@.len())
    } else {
        first_bad_layer(ls.drop_first())
    }
}

/// What loading a stored block gives: the split of its layers, or the first
/// fault found (graphics count, collision count, then the tile count of each
/// graphics layer and each collision layer, in order).
pub open spec fn block_spec(layers: Seq<Layer>) -> Result<(Seq<Layer>, Seq<Layer>), BlockError> {
    let g = layers_of_kind(layers, false);
    let c = layers_of_kind(layers, true);
    if !(g.len() == 1 || g.len() == 2) {
        Err(BlockError::GraphicsLayerCount(g.len() as usize))
    } else if !(c.len() == 1 || c.len() == 2) {
        Err(BlockError::CollisionLayerCount(c.len() as usize))
    } else if let Some(n) = first_bad_layer(g + c) {
        Err(BlockError::LayerTileCount(n as usize))
    } else {
        Ok((g, c))
    }
}

/// `s` starts with `prefix`.
fn starts_with(s: &String, prefix: &str) -> (r: bool)
    ensures
        r == has_prefix(s@, prefix@),
{
    let chars = chars_of(s.as_str());
    let n = prefix.unicode_len();
    if n > chars.len() {
        return false;
    }
    let mut i: usize = 0;
    while i < n
        invariant
            n == prefix@.len(),
            n <= chars@.len(),
            chars@ == s@,
            i <= n,
            forall|k: int| 0 <= k < i ==> chars@[k] == prefix@[k],
        decreases n - i,
    {
        if chars[i] != prefix.get_char(i) {
            assert(s@.subrange(0, n as int)[i as int] != prefix@[i as int]);
            return false;
        }
        i += 1;
    }
    assert(s@.subrange(0, n as int) =~= prefix@);
    true
}

/// Whether a layer holds collision data, as `is_collision_layer` says.
fn layer_is_collision(l: &Layer) -> (r: bool)
    ensures
        r == is_collision_layer(*l),
{
    if starts_with(&l.name, "Graphics") {
        return false;
    }
    if starts_with(&l.name, "Collision") {
        return true;
    }
    let mut k: usize = 0;
    while k < l.tiles.len()
        invariant
            !has_prefix(l.name@, "Graphics"@),
            !has_prefix(l.name@, "Collision"@),
            k <= l.tiles@.len(),
            forall|j: int| 0 <= j < k ==> (#[trigger] l.tiles@[j]).tile < COLLISION_TILE_OFFSET,
        decreases l.tiles@.len() - k,
    {
        if l.tiles[k].tile >= COLLISION_TILE_OFFSET {
            assert(l.tiles@[k as int].tile >= COLLISION_TILE_OFFSET);
            return true;
        }
        k += 1;
    }
    false
}

/// The first layer whose tile count is not 64, as `first_bad_layer` says.
fn find_bad_layer(a: &Vec<Layer>, b: &Vec<Layer>) -> (r: Option<usize>)
    requires
        a@.len() + b@.len() <= usize::MAX,
    ensures
        r == (match first_bad_layer(a@ + b@) {
            Some(n) => Some(n as usize),
            None => None::<usize>,
        }),
{
    let ghost all = a@ + b@;
    let mut i: usize = 0;
    assert(all.subrange(0, all.len() as int) =~= all);
    while i < a.len() + b.len()
        invariant
            all == a@ + b@,
            i <= all.len(),
            a@.len() + b@.len() <= usize::MAX,
            first_bad_layer(all) == first_bad_layer(all.subrange(i as int, all.len() as int)),
        decreases all.len() - i,
    {
        let l = if i < a.len() {
            &a[i]
        } else {
            &b[i - a.len()]
        };
        let ghost rest = all.subrange(i as int, all.len() as int);
        assert(rest[0] == *l);
        assert(rest.drop_first() =~= all.subrange(i + 1, all.len() as int));
        if l.tiles.len() != LAYER_TILE_COUNT {
            return Some(l.tiles.len());
        }
        i += 1;
    }
    assert(all.subrange(i as int, all.len() as int) =~= Seq::<Layer>::empty());
    None
}

impl Block {
    /// Splits a stored block into its graphics and collision layers, keeping
    /// their order. Fails unless there are one or two of each and every
    /// layer has 64 tiles.
    pub fn from_raw(raw: RawBlock) -> (r: Result<Block, BlockError>)
        ensures
            match r {
                Ok(b) => block_spec(raw.layers@) == Ok::<(Seq<Layer>, Seq<Layer>), BlockError>(
                    (b.graphics_layers@, b.collision_layers@),
                ),
                Err(e) => block_spec(raw.layers@) == Err::<(Seq<Layer>, Seq<Layer>), BlockError>(
                    e,
                ),
            },
    {
        let ghost orig = raw.layers@;
        let mut layers = raw.layers;
        let mut graphics: Vec<Layer> = Vec::new();
        let mut collision: Vec<Layer> = Vec::new();
        let mut i: usize = 0;
        let n = layers.len();
        while layers.len() > 0
            invariant
                n == orig.len(),
                i + layers@.len() == n,
                layers@ == orig.subrange(i as int, n as int),
                graphics@ == layers_of_kind(orig.subrange(0, i as int), false),
                collision@ == layers_of_kind(orig.subrange(0, i as int), true),
            decreases layers@.len(),
        {
            let layer = layers.remove(0);
            let ghost pre = orig.subrange(0, i + 1);
            assert(pre.drop_last() =~= orig.subrange(0, i as int));
            assert(pre.last() == layer);
            if layer_is_collision(&layer) {
                collision.push(layer);
            } else {
                graphics.push(layer);
            }
            i += 1;
            assert(layers@ =~= orig.subrange(i as int, n as int));
        }
        assert(orig.subrange(0, i as int) =~= orig);
        if !(graphics.len() == 1 || graphics.len() == 2) {
            return Err(BlockError::GraphicsLayerCount(graphics.len()));
        }
        if !(collision.len() == 1 || collision.len() == 2) {
            return Err(BlockError::CollisionLayerCount(collision.len()));
        }
        if let Some(count) = find_bad_layer(&graphics, &collision) {
            return Err(BlockError::LayerTileCount(count));
        }
        Ok(Block { graphics_layers: graphics, collision_layers: collision })
    }
}


/// A tile sheet image, `tiles_per_row` tiles across.
pub struct Tileset {
    pub tiles_per_row: usize,
    pub image: String,
}

/// Which copy of the tile sheet a tile is read from.
#[derive(Clone, Copy, Debug, PartialEq, Eq, Structural)]
pub enum SheetCopy {
    Plain,
    MirroredHorizontally,
    MirroredVertically,
    MirroredBoth,
}

/// Where tile `t` lies in a sheet of `width` by `height` pixels with `per_row`
/// tiles across, and in which copy of the sheet: a tile turned half round
/// and mirrored is read from the vertically mirrored copy, a mirrored one
/// from the horizontally mirrored copy, a turned one from the copy mirrored
/// both ways, each at the place the tile moved to.
pub open spec fn source_spec(t: Tile, per_row: int, width: int, height: int) -> (int, int, SheetCopy) {
    let x = (t.tile as int % per_row) * 16;
    let y = (t.tile as int / per_row) * 16;
    if t.rot == 2 && t.flip {
        (x, height - 16 - y, SheetCopy::MirroredVertically)
    } else if t.flip {
        (width - 16 - x, y, SheetCopy::MirroredHorizontally)
    } else if t.rot == 2 {
        (width - 16 - x, height - 16 - y, SheetCopy::MirroredBoth)
    } else {
        (x, y, SheetCopy::Plain)
    }
}

impl Tileset {
    /// The pixel position of tile `t` in the sheet copy it is read from.
    pub fn source_of(&self, t: &Tile, sheet_width: u32, sheet_height: u32) -> (r: (i32, i32, SheetCopy))
        requires
            self.tiles_per_row > 0,
            sheet_width <= i32::MAX,
            sheet_height <= i32::MAX,
            (t.tile % self.tiles_per_row) * 16 + 16 <= sheet_width,
            (t.tile / self.tiles_per_row) * 16 + 16 <= sheet_height,
        ensures
            (r.0 as int, r.1 as int, r.2) == source_spec(
                *t,
                self.tiles_per_row as int,
                sheet_width as int,
                sheet_height as int,
            ),
    {
        let x = ((t.tile % self.tiles_per_row) * 16) as i32;
        let y = ((t.tile / self.tiles_per_row) * 16) as i32;
        let w = sheet_width as i32;
        let h = sheet_height as i32;
        if t.rot == 2 && t.flip {
            (x, h - 16 - y, SheetCopy::MirroredVertically)
        } else if t.flip {
            (w - 16 - x, y, SheetCopy::MirroredHorizontally)
        } else if t.rot == 2 {
            (w - 16 - x, h - 16 - y, SheetCopy::MirroredBoth)
        } else {
            (x, y, SheetCopy::Plain)
        }
    }
}

/// The pixel position, within its block, of entry `idx` of a layer.
pub fn layer_position(idx: usize) -> (r: (i32, i32))
    requires
        idx < LAYER_TILE_COUNT,
    ensures
        r.0 == (idx % 8) * 16,
        r.1 == (idx / 8) * 16,
{
    (((idx % 8) * 16) as i32, ((idx / 8) * 16) as i32)
}

} // verus!
