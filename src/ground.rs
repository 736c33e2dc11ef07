use vstd::prelude::*;

use crate::block::{collision_layer_wf, Block, COLLISION_TILE_OFFSET};
use crate::terrain::TerrainGetter;

verus! {

/// The surface row reported for a probe that stopped at row `y` over a tile
/// column of height `h`, as a `u32` wraps it.
pub open spec fn surface_row(y: int, h: u32) -> u32 {
    ((y + 16 - h) % 0x1_0000_0000) as u32
}

/// Pixel column `c` of a sweep, as an `i32` holds it.
pub open spec fn column_x(c: int) -> int {
    if c <= i32::MAX {
        c
    } else {
        c - 0x1_0000_0000
    }
}

/// The better of the best ground so far and the ground of the next column:
/// the higher surface (smaller row) wins, the earlier one on a tie.
pub open spec fn pick(best: Option<(u32, u8)>, cur: Option<(u32, u8)>) -> Option<(u32, u8)> {
    match cur {
        None => best,
        Some(c) => match best {
            None => Some(c),
            Some(b) => if c.0 < b.0 {
                Some(c)
            } else {
                best
            },
        },
    }
}

impl<'a> TerrainGetter<'a> {
    /// The row that a probe reaches walking up from row `y` of pixel column
    /// `x` while the pixel just above it is solid on layer 0.
    pub open spec fn climb(&self, x: int, y: int) -> int
        decreases y,
    {
        if y > 0 && self.occupied_spec(x, y - 1, 0) {
            self.climb(x, y - 1)
        } else {
            y
        }
    }

    /// The ground that a probe down pixel column `x` from row `py` finds: the
    /// probe starts 16 rows below, climbs to the top of the solid run there,
    /// and reports the surface from the tile just below where it stopped.
    pub open spec fn collide_spec(&self, x: int, py: int) -> Option<(u32, u8)> {
        let yf = self.climb(x, py + 16);
        match self.tile_spec(x, yf + 1, 0) {
            None => None,
            Some(t) => Some((surface_row(yf, t.0[x % 8]), t.1)),
        }
    }

    /// The best ground of the sweep columns from `lo` up to, not including,
    /// `hi`.
    pub open spec fn ground_between(&self, lo: int, hi: int, py: int) -> Option<(u32, u8)>
        decreases hi - lo,
    {
        if hi <= lo {
            None
        } else {
            pick(self.ground_between(lo, hi - 1, py), self.collide_spec(column_x(hi - 1), py))
        }
    }
}

/// The ground under pixel column `position.0` for a body at row
/// `position.1`: the surface row and the angle byte of the tile there.
pub fn collide_line(position: (i32, i32), getter: &TerrainGetter) -> (r: Option<(u32, u8)>)
    requires
        getter.wf(),
        position.1 + 17 <= i32::MAX,
    ensures
        r == getter.collide_spec(position.0 as int, position.1 as int),
{
    let x = position.0;
    let py = position.1;
    proof {
        assert(getter.has_layer(0)) by {
            assert forall|b: int| 0 <= b < getter.spec_blocks().len() implies 0 < (
            #[trigger] getter.spec_blocks()[b]).collision_layers@.len() by {
                assert(getter.spec_blocks()[b].collision_wf(getter.spec_tiles().len()));
            }
        }
    }
    let ghost lower: int = if py + 16 < 0 {
        py + 16
    } else {
        0
    };
    let mut result: Option<i32> = None;
    let mut y: i32 = py + 17;
    while getter.is_occupied(x, y - 1, 0) || (result.is_none() && y >= py)
        invariant
            getter.wf(),
            getter.has_layer(0),
            py + 17 <= i32::MAX,
            lower == (if py + 16 < 0 {
                py + 16
            } else {
                0
            }),
            lower <= y <= py + 17,
            y > i32::MIN,
            result is None ==> y == py + 17,
            result matches Some(rv) ==> rv == y + 1 && getter.climb(x as int, py + 16)
                == getter.climb(x as int, y as int),
        decreases y - lower,
    {
        result = Some(y);
        y -= 1;
    }
    let top_row = match result {
        Some(rv) => rv,
        None => {
            return None;
        },
    };
    assert(getter.climb(x as int, py + 16) == y);
    let (data, angle) = match getter.tile_at(x, top_row, 0) {
        Some(t) => t,
        None => {
            return None;
        },
    };
    let h = data[(x % 8) as usize];
    let v: i64 = y as i64 + 16 - h as i64;
    let top: u32 = if v >= 0 {
        v as u32
    } else {
        (v + 0x1_0000_0000) as u32
    };
    Some((top, angle))
}

/// The best ground under the pixel columns `start` to `end`, both included,
/// for a body at row `y`: the highest surface, the leftmost on a tie; nothing
/// where no column finds ground.
pub fn find_ground_height(start: u32, end: u32, y: i32, getter: &TerrainGetter) -> (r: Option<
    (u32, u8),
>)
    requires
        getter.wf(),
        y + 17 <= i32::MAX,
    ensures
        r == getter.ground_between(start as int, end + 1, y as int),
{
    let mut best: Option<(u32, u8)> = None;
    let mut c: u64 = start as u64;
    while c <= end as u64
        invariant
            getter.wf(),
            y + 17 <= i32::MAX,
            start <= c <= end + 1 || (c == start && start > end),
            best == getter.ground_between(start as int, c as int, y as int),
        decreases end + 1 - c,
    {
        let cx: i32 = if c <= i32::MAX as u64 {
            c as i32
        } else {
            (c as i64 - 0x1_0000_0000) as i32
        };
        let cur = collide_line((cx, y), getter);
        best = match cur {
            None => best,
            Some(cv) => match best {
                None => Some(cv),
                Some(bv) => if cv.0 < bv.0 {
                    Some(cv)
                } else {
                    best
                },
            },
        };
        c += 1;
    }
    if start > end {
        assert(getter.ground_between(start as int, end + 1, y as int) == None::<(u32, u8)>);
    }
    best
}


/// Every tile of collision layer 0 of `block` is solid in all its columns.
pub open spec fn block_full(block: Block, tiles: Seq<([u32; 16], u8)>) -> bool {
    forall|k: int, c: int|
        0 <= k < 64 && 0 <= c < 16 ==> (#[trigger] layer0_heights(block, tiles, k)[c]) == 16
}

/// The heights of the tile at entry `k` of collision layer 0 of `block`.
pub open spec fn layer0_heights(block: Block, tiles: Seq<([u32; 16], u8)>, k: int) -> Seq<u32> {
    tiles[block.collision_layers@[0].tiles@[k].tile - COLLISION_TILE_OFFSET].0@
}

impl<'a> TerrainGetter<'a> {
    /// Grid cell `(bx, by)` holds a block whose layer 0 is solid throughout.
    pub open spec fn full_block_at(&self, bx: int, by: int) -> bool {
        &&& 0 <= bx < self.spec_width()
        &&& 0 <= by < self.spec_rows()
        &&& self.spec_cells()[by * (self.spec_width() as int) + bx] matches Some(c) && block_full(
            self.spec_blocks()[c.0 as int],
            self.spec_tiles(),
        )
    }

    /// Grid cell `(bx, by)` lies on the level and holds no block.
    pub open spec fn empty_cell_at(&self, bx: int, by: int) -> bool {
        &&& 0 <= bx < self.spec_width()
        &&& 0 <= by < self.spec_rows()
        &&& self.spec_cells()[by * (self.spec_width() as int) + bx] is None
    }

    /// Pixel column `x` is off the level, or every grid cell it crosses is
    /// empty.
    pub open spec fn column_clear(&self, x: int) -> bool {
        x < 0 || x >= self.spec_width() * 128 || forall|r: int|
            0 <= r < self.spec_rows() ==> #[trigger] self.spec_cells()[r * (self.spec_width() as int)
                + x / 128] is None
    }
}

proof fn lemma_in_block(g: &TerrainGetter, bx: int, by: int, x: int, y: int)
    requires
        0 <= bx < g.spec_width(),
        0 <= by < g.spec_rows(),
        bx * 128 <= x < bx * 128 + 128,
        by * 128 <= y < by * 128 + 128,
    ensures
        g.in_bounds(x, y),
        x / 128 == bx,
        y / 128 == by,
{
    assert(x / 128 == bx && y / 128 == by && x < g.spec_width() * 128 && y < g.spec_rows() * 128)
        by (nonlinear_arith)
        requires
            0 <= bx < g.spec_width(),
            0 <= by < g.spec_rows(),
            bx * 128 <= x < bx * 128 + 128,
            by * 128 <= y < by * 128 + 128,
    ;
}

/// Every pixel of a solid block shows a tile of full columns.
proof fn lemma_full_tile(g: &TerrainGetter, bx: int, by: int, x: int, y: int)
    requires
        g.wf(),
        g.full_block_at(bx, by),
        bx * 128 <= x < bx * 128 + 128,
        by * 128 <= y < by * 128 + 128,
    ensures
        g.tile_spec(x, y, 0) matches Some(t) && t.0.len() == 16 && forall|c: int|
            0 <= c < 16 ==> #[trigger] t.0[c] == 16,
{
    lemma_in_block(g, bx, by, x, y);
    let c = g.spec_cells()[by * (g.spec_width() as int) + bx]->0;
    let block = g.spec_blocks()[c.0 as int];
    assert(g.cell_wf(by * (g.spec_width() as int) + bx)) by {
        assert(0 <= by * (g.spec_width() as int) + bx < g.spec_cells().len()) by (nonlinear_arith)
            requires
                0 <= bx < g.spec_width(),
                0 <= by < g.spec_rows(),
                g.spec_width() > 0,
                g.spec_rows() == (g.spec_cells().len() as int) / (g.spec_width() as int),
        ;
    }
    assert(block.collision_wf(g.spec_tiles().len()));
    assert(collision_layer_wf(block.collision_layers@[0], g.spec_tiles().len()));
    let tx = (x % 128) / 16;
    let ty = (y % 128) / 16;
    let col = if c.1 != 0 {
        7 - tx
    } else {
        tx
    };
    let k = ty * 8 + col;
    assert(0 <= k < 64);
    let entry = block.collision_layers@[0].tiles@[k];
    let t = g.spec_tiles()[entry.tile - COLLISION_TILE_OFFSET];
    assert(forall|j: int| 0 <= j < 16 ==> t.0@[j] == 16) by {
        assert forall|j: int| 0 <= j < 16 implies t.0@[j] == 16 by {
            assert(layer0_heights(block, g.spec_tiles(), k)[j] == 16);
        }
    }
    assert(t.0@.len() == 16);
}

/// From row `y` inside a solid block whose top edge is open, a probe climbs
/// to that top edge.
proof fn lemma_climb_block(g: &TerrainGetter, bx: int, by: int, x: int, y: int)
    requires
        g.wf(),
        g.full_block_at(bx, by),
        by == 0 || g.empty_cell_at(bx, by - 1),
        bx * 128 <= x < bx * 128 + 128,
        by * 128 <= y <= by * 128 + 128,
    ensures
        g.climb(x, y) == by * 128,
    decreases y,
{
    if y > by * 128 {
        lemma_full_tile(g, bx, by, x, y - 1);
        lemma_climb_block(g, bx, by, x, y - 1);
    } else if y > 0 {
        lemma_in_block(g, bx, by - 1, x, y - 1);
    }
}

/// Every column over a solid block with an open top finds its top edge.
proof fn lemma_collide_block(g: &TerrainGetter, bx: int, by: int, x: int, py: int)
    requires
        g.wf(),
        g.full_block_at(bx, by),
        by == 0 || g.empty_cell_at(bx, by - 1),
        bx * 128 <= x < bx * 128 + 128,
        by * 128 <= py + 16 < by * 128 + 128,
        py + 17 <= i32::MAX,
    ensures
        g.collide_spec(x, py) matches Some(r) && r.0 == by * 128,
{
    lemma_climb_block(g, bx, by, x, py + 16);
    lemma_full_tile(g, bx, by, x, by * 128 + 1);
    let t = g.tile_spec(x, by * 128 + 1, 0)->0;
    assert(t.0[x % 8] == 16);
}

/// A sweep whose columns all report the same surface row reports that row.
proof fn lemma_ground_level(g: &TerrainGetter, lo: int, hi: int, py: int, row: u32)
    requires
        lo < hi,
        forall|c: int|
            lo <= c < hi ==> ((#[trigger] g.collide_spec(column_x(c), py)) matches Some(r) && r.0
                == row),
    ensures
        g.ground_between(lo, hi, py) matches Some(r) && r.0 == row,
    decreases hi - lo,
{
    assert(g.collide_spec(column_x(hi - 1), py) is Some);
    if hi - 1 > lo {
        lemma_ground_level(g, lo, hi - 1, py, row);
    }
}

/// A sweep over the open top of a solid block, from a body whose probe
/// starts inside the block, finds the block's top edge, whichever columns of
/// the block it spans.
pub proof fn lemma_ground_on_flat_block(
    g: &TerrainGetter,
    bx: int,
    by: int,
    start: u32,
    end: u32,
    py: int,
)
    requires
        g.wf(),
        g.full_block_at(bx, by),
        by == 0 || g.empty_cell_at(bx, by - 1),
        bx * 128 <= start <= end < bx * 128 + 128,
        end <= i32::MAX,
        by * 128 <= py + 16 < by * 128 + 128,
        py + 17 <= i32::MAX,
    ensures
        g.ground_between(start as int, end + 1, py) matches Some(r) && r.0 == by * 128,
{
    assert forall|c: int| start <= c < end + 1 implies ((#[trigger] g.collide_spec(
        column_x(c),
        py,
    )) matches Some(r) && r.0 == by * 128) by {
        lemma_collide_block(g, bx, by, c, py);
    }
    lemma_ground_level(g, start as int, end + 1, py, (by * 128) as u32);
}

/// A sweep over columns that cross no filled grid cell finds no ground.
pub proof fn lemma_no_ground_over_empty(g: &TerrainGetter, start: u32, end: u32, py: int)
    requires
        forall|c: int| start <= c <= end ==> g.column_clear(#[trigger] column_x(c)),
    ensures
        g.ground_between(start as int, end + 1, py) is None,
    decreases end + 1 - start,
{
    let hi = end + 1;
    assert forall|k: int| start <= k <= hi implies #[trigger] g.ground_between(
        start as int,
        k,
        py,
    ) is None by {
        lemma_ground_none(g, start as int, k, py);
    }
}

proof fn lemma_ground_none(g: &TerrainGetter, lo: int, hi: int, py: int)
    requires
        forall|c: int| lo <= c < hi ==> g.column_clear(#[trigger] column_x(c)),
    ensures
        g.ground_between(lo, hi, py) is None,
    decreases hi - lo,
{
    if hi > lo {
        lemma_ground_none(g, lo, hi - 1, py);
        let x = column_x(hi - 1);
        assert(g.column_clear(x));
        let y = g.climb(x, py + 16) + 1;
        if g.in_bounds(x, y) {
            assert(y / 128 < g.spec_rows()) by (nonlinear_arith)
                requires
                    0 <= y < g.spec_rows() * 128,
            ;
            assert(g.spec_cells()[(y / 128) * (g.spec_width() as int) + x / 128] is None);
        }
        assert(g.tile_spec(x, y, 0) is None);
    }
}

} // verus!
