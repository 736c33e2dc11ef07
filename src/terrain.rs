use vstd::prelude::*;

use crate::block::{
    collision_layer_wf, Block, Tile, BLOCK_PIXEL_LENGTH, BLOCK_TILE_LENGTH, COLLISION_TILE_OFFSET,
    TILE_PIXEL_LENGTH,
};

verus! {

/// Column heights (filled pixels counted from the bottom of the tile, one
/// per pixel column) and the surface angle byte of one collision tile.
pub type CollisionTile = ([u32; 16], u8);

/// A collision tile as the contracts see it.
pub open spec fn tile_view(t: CollisionTile) -> (Seq<u32>, u8) {
    (t.0@, t.1)
}

/// What a block placed with `flags` shows at tile column `tx`, tile row
/// `ty` of its collision layer `layer`: the tile is mirrored when exactly one
/// of the placement and the tile entry asks for a horizontal flip.
pub open spec fn block_tile(
    block: Block,
    tiles: Seq<CollisionTile>,
    flags: u32,
    tx: int,
    ty: int,
    layer: int,
) -> (Seq<u32>, u8) {
    let col = if flags != 0 {
        7 - tx
    } else {
        tx
    };
    let entry = block.collision_layers@[layer].tiles@[ty * 8 + col];
    let t = tiles[entry.tile - COLLISION_TILE_OFFSET];
    if (flags != 0) != entry.flip {
        (t.0@.reverse(), t.1)
    } else {
        (t.0@, t.1)
    }
}

/// Answers collision queries over a level: a grid of optional block
/// placements, the block catalog, and the decoded collision tiles.
pub struct TerrainGetter<'a> {
    width: usize,
    block_map: &'a [Option<(usize, u32)>],
    blocks: &'a [Block],
    tiles: &'a [CollisionTile],
}

impl<'a> TerrainGetter<'a> {
    /// Blocks across the level.
    pub closed spec fn spec_width(&self) -> nat {
        self.width as nat
    }

    /// The grid, row by row: a block index and its placement flags, or
    /// nothing.
    pub closed spec fn spec_cells(&self) -> Seq<Option<(usize, u32)>> {
        self.block_map@
    }

    pub closed spec fn spec_blocks(&self) -> Seq<Block> {
        self.blocks@
    }

    pub closed spec fn spec_tiles(&self) -> Seq<CollisionTile> {
        self.tiles@
    }

    /// Blocks down the level (whole rows of the grid).
    pub open spec fn spec_rows(&self) -> int {
        if self.spec_width() == 0 {
            0
        } else {
            (self.spec_cells().len() as int) / (self.spec_width() as int)
        }
    }

    /// The cell at grid position `i` names a block of the catalog.
    pub open spec fn cell_wf(&self, i: int) -> bool {
        match self.spec_cells()[i] {
            Some(c) => c.0 < self.spec_blocks().len(),
            None => true,
        }
    }

    /// Every placement names a block of the catalog, and every block's
    /// collision layers name decoded collision tiles only.
    pub open spec fn wf(&self) -> bool {
        &&& forall|i: int| 0 <= i < self.spec_cells().len() ==> #[trigger] self.cell_wf(i)
        &&& forall|b: int|
            0 <= b < self.spec_blocks().len() ==> (#[trigger] self.spec_blocks()[b]).collision_wf(
                self.spec_tiles().len(),
            )
    }

    /// Every block of the catalog has collision layer `layer`.
    pub open spec fn has_layer(&self, layer: int) -> bool {
        forall|b: int|
            0 <= b < self.spec_blocks().len() ==> layer < (
            #[trigger] self.spec_blocks()[b]).collision_layers@.len()
    }

    /// Pixel position `(x, y)` lies on the level.
    pub open spec fn in_bounds(&self, x: int, y: int) -> bool {
        &&& 0 <= x < self.spec_width() * 128
        &&& 0 <= y < self.spec_rows() * 128
    }

    /// The grid cell that holds pixel position `(x, y)`.
    pub open spec fn cell_of(&self, x: int, y: int) -> Option<(usize, u32)> {
        self.spec_cells()[(y / 128) * (self.spec_width() as int) + x / 128]
    }

    /// The collision tile at pixel position `(x, y)` on collision layer
    /// `layer`, mirrored as its placement asks; nothing off the level or
    /// over an empty cell.
    pub open spec fn tile_spec(&self, x: int, y: int, layer: int) -> Option<(Seq<u32>, u8)> {
        if !self.in_bounds(x, y) {
            None
        } else {
            match self.cell_of(x, y) {
                None => None,
                Some(c) => Some(
                    block_tile(
                        self.spec_blocks()[c.0 as int],
                        self.spec_tiles(),
                        c.1,
                        (x % 128) / 16,
                        (y % 128) / 16,
                        layer,
                    ),
                ),
            }
        }
    }

    /// Pixel `(x, y)` is solid: the ground of its tile column reaches its row.
    pub open spec fn occupied_spec(&self, x: int, y: int, layer: int) -> bool {
        match self.tile_spec(x, y, layer) {
            None => false,
            Some(t) => (y % 16) + t.0[x % 16] >= 16,
        }
    }

    pub fn new(
        width: usize,
        block_map: &'a [Option<(usize, u32)>],
        blocks: &'a [Block],
        tiles: &'a [CollisionTile],
    ) -> (r: TerrainGetter<'a>)
        ensures
            r.spec_width() == width,
            r.spec_cells() == block_map@,
            r.spec_blocks() == blocks@,
            r.spec_tiles() == tiles@,
    {
        TerrainGetter { width, block_map, blocks, tiles }
    }

    /// Whether every placement names a block of the catalog and every
    /// block's collision layers name decoded collision tiles only: what the
    /// queries ask of the level data.
    pub fn is_well_formed(&self) -> (r: bool)
        ensures
            r == self.wf(),
    {
        let mut i: usize = 0;
        while i < self.block_map.len()
            invariant
                i <= self.block_map@.len(),
                forall|j: int| 0 <= j < i ==> #[trigger] self.cell_wf(j),
            decreases self.block_map@.len() - i,
        {
            if let Some(c) = self.block_map[i] {
                if c.0 >= self.blocks.len() {
                    assert(!self.cell_wf(i as int));
                    return false;
                }
            }
            i += 1;
        }
        let mut b: usize = 0;
        while b < self.blocks.len()
            invariant
                b <= self.blocks@.len(),
                forall|j: int| 0 <= j < self.block_map@.len() ==> #[trigger] self.cell_wf(j),
                forall|j: int|
                    0 <= j < b ==> (#[trigger] self.blocks@[j]).collision_wf(self.tiles@.len()),
            decreases self.blocks@.len() - b,
        {
            if !block_fits(&self.blocks[b], self.tiles.len()) {
                assert(!self.spec_blocks()[b as int].collision_wf(self.spec_tiles().len()));
                return false;
            }
            b += 1;
        }
        true
    }

    pub fn is_occupied(&self, x: i32, y: i32, layer_idx: usize) -> (r: bool)
        requires
            self.wf(),
            self.has_layer(layer_idx as int),
        ensures
            r == self.occupied_spec(x as int, y as int, layer_idx as int),
    {
        match self.tile_at(x, y, layer_idx) {
            Some(tile) => {
                let pixel_x = x as usize % TILE_PIXEL_LENGTH;
                let pixel_y = y as usize % TILE_PIXEL_LENGTH;
                let column = tile.0[pixel_x];
                pixel_y as u64 + column as u64 >= TILE_PIXEL_LENGTH as u64
            },
            None => false,
        }
    }

    pub fn tile_at(&self, x: i32, y: i32, layer_idx: usize) -> (r: Option<CollisionTile>)
        requires
            self.wf(),
            self.has_layer(layer_idx as int),
        ensures
            match r {
                Some(t) => self.tile_spec(x as int, y as int, layer_idx as int) == Some(tile_view(t)),
                None => self.tile_spec(x as int, y as int, layer_idx as int) is None,
            },
    {
        if x < 0 || y < 0 || self.width == 0 {
            return None;
        }
        let xu = x as usize;
        let yu = y as usize;
        let block_x = xu / BLOCK_PIXEL_LENGTH;
        let block_y = yu / BLOCK_PIXEL_LENGTH;
        let rows = self.block_map.len() / self.width;
        proof {
            lemma_bound_by_quotient(x as int, self.width as int);
            lemma_bound_by_quotient(y as int, rows as int);
        }
        if block_x >= self.width || block_y >= rows {
            return None;
        }
        proof {
            lemma_cell_index(block_x as int, block_y as int, self.width as int, self.block_map@.len() as int);
        }
        let idx = block_y * self.width + block_x;
        let (block_idx, block_flags) = match self.block_map[idx] {
            Some(c) => c,
            None => {
                return None;
            },
        };
        assert(self.cell_wf(idx as int));
        let block = &self.blocks[block_idx];
        assert(block.collision_wf(self.tiles@.len()));
        let mut tile_x = (xu % BLOCK_PIXEL_LENGTH) / TILE_PIXEL_LENGTH;
        let tile_y = (yu % BLOCK_PIXEL_LENGTH) / TILE_PIXEL_LENGTH;
        if block_flags != 0 {
            tile_x = BLOCK_TILE_LENGTH - 1 - tile_x;
        }
        let layer = &block.collision_layers[layer_idx];
        assert(collision_layer_wf(*layer, self.tiles@.len()));
        let tile_entry: &Tile = &layer.tiles[tile_y * 8 + tile_x];
        let tile = self.tiles[tile_entry.tile - COLLISION_TILE_OFFSET];
        if (block_flags != 0) != tile_entry.flip {
            Some((reversed(&tile.0), tile.1))
        } else {
            Some(tile)
        }
    }
}

/// Whether `block` meets `collision_wf(n)`.
fn block_fits(block: &Block, n: usize) -> (r: bool)
    ensures
        r == block.collision_wf(n as nat),
{
    if block.collision_layers.len() == 0 {
        return false;
    }
    let mut l: usize = 0;
    while l < block.collision_layers.len()
        invariant
            block.collision_layers@.len() >= 1,
            l <= block.collision_layers@.len(),
            forall|j: int|
                0 <= j < l ==> collision_layer_wf(#[trigger] block.collision_layers@[j], n as nat),
        decreases block.collision_layers@.len() - l,
    {
        let layer = &block.collision_layers[l];
        if layer.tiles.len() != 64 {
            assert(!collision_layer_wf(block.collision_layers@[l as int], n as nat));
            return false;
        }
        let mut k: usize = 0;
        while k < 64
            invariant
                l < block.collision_layers@.len(),
                *layer == block.collision_layers@[l as int],
                layer.tiles@.len() == 64,
                k <= 64,
                forall|j: int|
                    0 <= j < k ==> COLLISION_TILE_OFFSET <= (#[trigger] layer.tiles@[j]).tile
                        < COLLISION_TILE_OFFSET + n,
            decreases 64 - k,
        {
            let t = layer.tiles[k].tile;
            if t < COLLISION_TILE_OFFSET || t - COLLISION_TILE_OFFSET >= n {
                assert(layer.tiles@[k as int].tile == t);
                assert(!collision_layer_wf(block.collision_layers@[l as int], n as nat));
                return false;
            }
            k += 1;
        }
        l += 1;
    }
    true
}

/// No pixel off the level is solid.
pub proof fn lemma_off_level_not_occupied(g: &TerrainGetter, x: int, y: int, layer: int)
    requires
        !g.in_bounds(x, y),
    ensures
        !g.occupied_spec(x, y, layer),
{
}

/// No pixel of an empty grid cell is solid.
pub proof fn lemma_empty_cell_not_occupied(g: &TerrainGetter, x: int, y: int, layer: int)
    requires
        g.cell_of(x, y) is None,
    ensures
        !g.occupied_spec(x, y, layer),
{
}

/// A block placed mirrored shows, at tile column `c`, the tile that the same
/// block placed plainly shows at tile column `7 - c` of the same tile row,
/// with its heights in the opposite order.
pub proof fn lemma_flip_mirrors(g: &TerrainGetter, xa: int, ya: int, xb: int, yb: int, layer: int)
    requires
        g.wf(),
        g.has_layer(layer),
        0 <= layer,
        g.in_bounds(xa, ya),
        g.in_bounds(xb, yb),
        g.cell_of(xa, ya) matches Some(ca) && ca.1 != 0 && g.cell_of(xb, yb) == Some(
            (ca.0, 0u32),
        ),
        (xa % 128) / 16 + (xb % 128) / 16 == 7,
        (ya % 128) / 16 == (yb % 128) / 16,
    ensures
        g.tile_spec(xa, ya, layer) matches Some(ta) && g.tile_spec(xb, yb, layer) matches Some(tb)
            && ta.0 == tb.0.reverse() && ta.1 == tb.1,
{
    let ca = g.cell_of(xa, ya)->0;
    let block = g.spec_blocks()[ca.0 as int];
    let ty = (ya % 128) / 16;
    let col = (xb % 128) / 16;
    let entry = block.collision_layers@[layer].tiles@[ty * 8 + col];
    let t = g.spec_tiles()[entry.tile - COLLISION_TILE_OFFSET];
    assert(t.0@.reverse().reverse() =~= t.0@);
}

/// The same sixteen heights in the opposite order.
fn reversed(h: &[u32; 16]) -> (r: [u32; 16])
    ensures
        r@ == h@.reverse(),
{
    let mut r: [u32; 16] = [0u32; 16];
    let mut i: usize = 0;
    while i < 16
        invariant
            i <= 16,
            r@.len() == 16,
            h@.len() == 16,
            forall|j: int| 0 <= j < i ==> r@[j] == h@[15 - j],
        decreases 16 - i,
    {
        r[i] = h[15 - i];
        i += 1;
    }
    assert(r@ =~= h@.reverse());
    r
}

proof fn lemma_bound_by_quotient(v: int, n: int)
    requires
        0 <= v,
        0 <= n,
    ensures
        (v < n * 128) <==> (v / 128 < n),
{
    assert((v < n * 128) <==> (v / 128 < n)) by (nonlinear_arith)
        requires
            0 <= v,
            0 <= n,
    ;
}

proof fn lemma_cell_index(bx: int, by: int, width: int, len: int)
    requires
        0 <= bx < width,
        0 <= by < len / width,
        0 <= len,
    ensures
        0 <= by * width + bx < len,
{
    assert(0 <= by * width + bx < len) by (nonlinear_arith)
        requires
            0 <= bx < width,
            0 <= by < len / width,
            0 <= len,
    ;
}

} // verus!
