use vstd::prelude::*;
use vstd::arithmetic::div_mod::lemma_fundamental_div_mod_converse;
use vstd::std_specs::bits::u32_trailing_zeros;

use crate::terrain::{tile_view, CollisionTile};

verus! {

/// Most collision tiles that one bitmap yields.
pub const MAX_COLLISION_TILES: usize = 256;

/// A bitmap of 32-bit pixels, row by row, with the masks of its red, green
/// and blue channels.
pub struct Bitmap {
    pub width: u32,
    pub height: u32,
    pub pixels: Vec<u32>,
    pub rmask: u32,
    pub gmask: u32,
    pub bmask: u32,
}

impl Bitmap {
    /// One pixel for each position.
    pub open spec fn wf(&self) -> bool {
        self.pixels@.len() == self.width * self.height
    }

    pub open spec fn pixel(&self, x: int, y: int) -> u32 {
        self.pixels@[y * self.width + x]
    }

    /// The pixel has ink in one of its colour channels.
    pub open spec fn solid(&self, x: int, y: int) -> bool {
        self.pixel(x, y) & (self.rmask | self.gmask | self.bmask) != 0
    }

    /// The green channel of a pixel, as a byte.
    pub open spec fn green(&self, p: u32) -> u8 {
        if self.gmask == 0 {
            0
        } else {
            (((p & self.gmask) >> u32_trailing_zeros(self.gmask)) % 256) as u8
        }
    }

    /// The first row from `r` on, of the 16 rows of pixel column `x` below
    /// `y0`, that holds a solid pixel.
    pub open spec fn first_solid_row(&self, x: int, y0: int, r: int) -> Option<int>
        decreases 16 - r,
    {
        if r < 0 || r >= 16 {
            None
        } else if self.solid(x, y0 + r) {
            Some(r)
        } else {
            self.first_solid_row(x, y0, r + 1)
        }
    }

    /// Filled pixels of column `x` in the tile whose top row is `y0`,
    /// counted from its first solid pixel down to the tile's bottom.
    pub open spec fn column_height(&self, x: int, y0: int) -> u32 {
        match self.first_solid_row(x, y0, 0) {
            Some(r) => (16 - r) as u32,
            None => 0,
        }
    }

    /// The green channel of the first solid pixel of the last of the first
    /// `c` columns of the tile at `(x0, y0)` that has one; 0 if none has.
    pub open spec fn tile_angle(&self, x0: int, y0: int, c: int) -> u8
        decreases c,
    {
        if c <= 0 {
            0
        } else {
            match self.first_solid_row(x0 + c - 1, y0, 0) {
                Some(r) => self.green(self.pixel(x0 + c - 1, y0 + r)),
                None => self.tile_angle(x0, y0, c - 1),
            }
        }
    }

    /// The collision tile of the 16x16 cell whose top left pixel is
    /// `(x0, y0)`.
    pub open spec fn decode_tile(&self, x0: int, y0: int) -> (Seq<u32>, u8) {
        (Seq::new(16, |c: int| self.column_height(x0 + c, y0)), self.tile_angle(x0, y0, 16))
    }

    /// Whole 16x16 cells across and down.
    pub open spec fn cell_columns(&self) -> int {
        self.width as int / 16
    }

    pub open spec fn cell_rows(&self) -> int {
        self.height as int / 16
    }

    /// How many collision tiles the bitmap yields: one per whole cell, at most
    /// `MAX_COLLISION_TILES`.
    pub open spec fn tile_count(&self) -> int {
        let n = self.cell_columns() * self.cell_rows();
        if n <= MAX_COLLISION_TILES {
            n
        } else {
            MAX_COLLISION_TILES as int
        }
    }
}

proof fn lemma_pixel_index(x: int, y: int, w: int, h: int)
    requires
        0 <= x < w,
        0 <= y < h,
    ensures
        0 <= y * w + x < w * h,
{
    assert(0 <= y * w + x < w * h) by (nonlinear_arith)
        requires
            0 <= x < w,
            0 <= y < h,
    ;
}

/// The collision tile of the 16x16 cell at `(x0, y0)`.
pub fn read_collision_tile(map: &Bitmap, x0: u32, y0: u32) -> (r: CollisionTile)
    requires
        map.wf(),
        x0 + 16 <= map.width,
        y0 + 16 <= map.height,
    ensures
        tile_view(r) == map.decode_tile(x0 as int, y0 as int),
{
    let color_mask = map.rmask | map.gmask | map.bmask;
    let g_shift = map.gmask.trailing_zeros();
    let mut result: [u32; 16] = [0u32; 16];
    let mut angle: u8 = 0;
    let mut col: usize = 0;
    let _ = map.pixels.len();
    while col < 16
        invariant
            map.pixels@.len() <= usize::MAX,
            map.wf(),
            x0 + 16 <= map.width,
            y0 + 16 <= map.height,
            color_mask == map.rmask | map.gmask | map.bmask,
            g_shift == u32_trailing_zeros(map.gmask),
            col <= 16,
            result@.len() == 16,
            forall|c: int| 0 <= c < col ==> result@[c] == map.column_height(x0 + c, y0 as int),
            angle == map.tile_angle(x0 as int, y0 as int, col as int),
        decreases 16 - col,
    {
        let x = x0 + col as u32;
        let mut y: u32 = 0;
        let mut found = false;
        while !found && y < 16
            invariant
                map.pixels@.len() <= usize::MAX,
                map.wf(),
                x0 + 16 <= map.width,
                y0 + 16 <= map.height,
                x == x0 + col,
                col < 16,
                color_mask == map.rmask | map.gmask | map.bmask,
                g_shift == u32_trailing_zeros(map.gmask),
                y <= 16,
                result@.len() == 16,
                forall|c: int| 0 <= c < col ==> result@[c] == map.column_height(x0 + c, y0 as int),
                !found ==> map.first_solid_row(x as int, y0 as int, 0) == map.first_solid_row(
                    x as int,
                    y0 as int,
                    y as int,
                ),
                !found ==> angle == map.tile_angle(x0 as int, y0 as int, col as int),
                found ==> result@[col as int] == map.column_height(x as int, y0 as int),
                found ==> angle == map.tile_angle(x0 as int, y0 as int, col + 1),
            decreases 16 - y + (if found {
                0int
            } else {
                1int
            }),
        {
            proof {
                lemma_pixel_index(x as int, (y0 + y) as int, map.width as int, map.height as int);
            }
            let idx = (y0 + y) as usize * map.width as usize + x as usize;
            let color = map.pixels[idx];
            if color & color_mask != 0 {
                angle = if map.gmask == 0 {
                    0
                } else {
                    (((color & map.gmask) >> g_shift) % 256) as u8
                };
                result[col] = 16 - y;
                found = true;
            } else {
                y += 1;
            }
        }
        if !found {
            result[col] = 0;
        }
        proof {
            assert(map.tile_angle(x0 as int, y0 as int, col + 1) == (match map.first_solid_row(
                x as int,
                y0 as int,
                0,
            ) {
                Some(r) => map.green(map.pixel(x as int, y0 + r)),
                None => map.tile_angle(x0 as int, y0 as int, col as int),
            }));
        }
        col += 1;
    }
    proof {
        assert(result@ =~= Seq::new(16, |c: int| map.column_height(x0 + c, y0 as int)));
    }
    (result, angle)
}

/// The collision tiles of a bitmap: one for each whole 16x16 cell, row by
/// row, left to right, until `MAX_COLLISION_TILES` are read.
pub fn read_collision_map(map: &Bitmap) -> (r: Vec<CollisionTile>)
    requires
        map.wf(),
    ensures
        r@.len() <= MAX_COLLISION_TILES,
        map.cell_columns() * map.cell_rows() <= MAX_COLLISION_TILES ==> r@.len()
            == map.cell_columns() * map.cell_rows(),
        r@.len() == map.tile_count(),
        forall|k: int|
            0 <= k < r@.len() ==> tile_view(#[trigger] r@[k]) == map.decode_tile(
                (k % map.cell_columns()) * 16,
                (k / map.cell_columns()) * 16,
            ),
{
    let mut result: Vec<CollisionTile> = Vec::new();
    let cols = map.width / 16;
    let rows = map.height / 16;
    let mut ty: u32 = 0;
    while ty < rows
        invariant
            map.wf(),
            cols == map.cell_columns(),
            rows == map.cell_rows(),
            ty <= rows,
            result@.len() == ty * cols,
            result@.len() < MAX_COLLISION_TILES || (ty == rows && result@.len()
                == MAX_COLLISION_TILES),
            forall|k: int|
                0 <= k < result@.len() ==> tile_view(#[trigger] result@[k]) == map.decode_tile(
                    (k % map.cell_columns()) * 16,
                    (k / map.cell_columns()) * 16,
                ),
        decreases rows - ty,
    {
        let mut tx: u32 = 0;
        while tx < cols
            invariant
                map.wf(),
                cols == map.cell_columns(),
                rows == map.cell_rows(),
                ty < rows,
                tx <= cols,
                result@.len() == ty * cols + tx,
                result@.len() < MAX_COLLISION_TILES,
                forall|k: int|
                    0 <= k < result@.len() ==> tile_view(#[trigger] result@[k]) == map.decode_tile(
                        (k % map.cell_columns()) * 16,
                        (k / map.cell_columns()) * 16,
                    ),
            decreases cols - tx,
        {
            proof {
                assert(tx * 16 + 16 <= map.width && ty * 16 + 16 <= map.height) by (nonlinear_arith)
                    requires
                        tx < cols,
                        ty < rows,
                        cols == map.width / 16,
                        rows == map.height / 16,
                ;
            }
            let tile = read_collision_tile(map, tx * 16, ty * 16);
            proof {
                let k = result@.len() as int;
                lemma_fundamental_div_mod_converse(k, cols as int, ty as int, tx as int);
            }
            result.push(tile);
            if result.len() == MAX_COLLISION_TILES {
                proof {
                    assert(map.cell_columns() * map.cell_rows() >= MAX_COLLISION_TILES) by (
                    nonlinear_arith)
                        requires
                            ty * cols + tx + 1 == MAX_COLLISION_TILES,
                            tx < cols,
                            ty < rows,
                            cols == map.cell_columns(),
                            rows == map.cell_rows(),
                    ;
                }
                return result;
            }
            tx += 1;
        }
        proof {
            assert((ty + 1) * cols == ty * cols + cols) by (nonlinear_arith);
        }
        ty += 1;
    }
    result
}


/// Column `x` of `n`, mirrored when `flip` is set.
pub open spec fn mirrored(x: int, n: int, flip: bool) -> int {
    if flip {
        n - 1 - x
    } else {
        x
    }
}

proof fn lemma_row_index(x: int, y: int, yy: int, w: int)
    requires
        0 <= x < w,
        0 <= yy < y,
    ensures
        yy * w + x < y * w,
{
    assert(yy * w + x < y * w) by (nonlinear_arith)
        requires
            0 <= x < w,
            0 <= yy < y,
    ;
}

/// A copy of `map` mirrored left to right when `horiz` is set and top to
/// bottom when `vertical` is set.
pub fn flip_pixels(map: &Bitmap, horiz: bool, vertical: bool) -> (r: Bitmap)
    requires
        map.wf(),
    ensures
        r.wf(),
        r.width == map.width,
        r.height == map.height,
        r.rmask == map.rmask,
        r.gmask == map.gmask,
        r.bmask == map.bmask,
        forall|x: int, y: int|
            0 <= x < map.width && 0 <= y < map.height ==> #[trigger] r.pixel(x, y) == map.pixel(
                mirrored(x, map.width as int, horiz),
                mirrored(y, map.height as int, vertical),
            ),
{
    let w = map.width;
    let h = map.height;
    let _ = map.pixels.len();
    let mut pixels: Vec<u32> = Vec::new();
    let mut y: u32 = 0;
    while y < h
        invariant
            map.wf(),
            map.pixels@.len() <= usize::MAX,
            w == map.width,
            h == map.height,
            y <= h,
            pixels@.len() == y * w,
            forall|yy: int, xx: int|
                0 <= yy < y && 0 <= xx < w ==> #[trigger] pixels@[yy * w + xx] == map.pixel(
                    mirrored(xx, w as int, horiz),
                    mirrored(yy, h as int, vertical),
                ),
        decreases h - y,
    {
        let sy = if vertical {
            h - 1 - y
        } else {
            y
        };
        let mut x: u32 = 0;
        while x < w
            invariant
                map.wf(),
                map.pixels@.len() <= usize::MAX,
                w == map.width,
                h == map.height,
                y < h,
                sy == mirrored(y as int, h as int, vertical),
                x <= w,
                pixels@.len() == y * w + x,
                forall|yy: int, xx: int|
                    0 <= yy < y && 0 <= xx < w ==> #[trigger] pixels@[yy * w + xx] == map.pixel(
                        mirrored(xx, w as int, horiz),
                        mirrored(yy, h as int, vertical),
                    ),
                forall|xx: int|
                    0 <= xx < x ==> #[trigger] pixels@[y * w + xx] == map.pixel(
                        mirrored(xx, w as int, horiz),
                        sy as int,
                    ),
            decreases w - x,
        {
            let sx = if horiz {
                w - 1 - x
            } else {
                x
            };
            proof {
                lemma_pixel_index(sx as int, sy as int, w as int, h as int);
            }
            let p = map.pixels[sy as usize * w as usize + sx as usize];
            let ghost before = pixels@;
            pixels.push(p);
            proof {
                assert forall|yy: int, xx: int|
                    0 <= yy < y && 0 <= xx < w implies #[trigger] pixels@[yy * w + xx] == map.pixel(
                    mirrored(xx, w as int, horiz),
                    mirrored(yy, h as int, vertical),
                ) by {
                    lemma_row_index(xx, y as int, yy, w as int);
                    assert(pixels@[yy * w + xx] == before[yy * w + xx]);
                }
                assert forall|xx: int| 0 <= xx < x + 1 implies #[trigger] pixels@[y * w + xx]
                    == map.pixel(mirrored(xx, w as int, horiz), sy as int) by {
                    if xx < x {
                        assert(pixels@[y * w + xx] == before[y * w + xx]);
                    }
                }
            }
            x += 1;
        }
        proof {
            assert((y + 1) * w == y * w + w) by (nonlinear_arith);
        }
        y += 1;
    }
    assert(pixels@.len() == w * h) by (nonlinear_arith)
        requires
            pixels@.len() == y * w,
            y == h,
    ;
    let r = Bitmap { width: w, height: h, pixels, rmask: map.rmask, gmask: map.gmask, bmask: map.bmask };
    assert forall|x: int, y: int|
        0 <= x < map.width && 0 <= y < map.height implies #[trigger] r.pixel(x, y) == map.pixel(
        mirrored(x, map.width as int, horiz),
        mirrored(y, map.height as int, vertical),
    ) by {
        assert(r.pixels@[y * w + x] == map.pixel(
            mirrored(x, w as int, horiz),
            mirrored(y, h as int, vertical),
        ));
    }
    r
}

} // verus!
