use project_tails::collision_map::{read_collision_map, read_collision_tile, Bitmap};

const RMASK: u32 = 0xff00_0000;
const GMASK: u32 = 0x00ff_0000;
const BMASK: u32 = 0x0000_ff00;

fn blank(width: u32, height: u32) -> Bitmap {
    Bitmap {
        width,
        height,
        pixels: vec![0x0000_00ff; (width * height) as usize],
        rmask: RMASK,
        gmask: GMASK,
        bmask: BMASK,
    }
}

fn set(b: &mut Bitmap, x: u32, y: u32, p: u32) {
    let i = (y * b.width + x) as usize;
    b.pixels[i] = p;
}

#[test]
fn tile_count_is_whole_cells() {
    let b = blank(16 * 3 + 5, 16 * 2 + 15);
    assert_eq!(read_collision_map(&b).len(), 6);
    assert_eq!(read_collision_map(&blank(15, 100)).len(), 0);
    assert_eq!(read_collision_map(&blank(0, 0)).len(), 0);
}

#[test]
fn tile_count_is_capped() {
    let b = blank(16 * 20, 16 * 20);
    assert_eq!(read_collision_map(&b).len(), 256);
    let exact = blank(16 * 16, 16 * 16);
    assert_eq!(read_collision_map(&exact).len(), 256);
}

#[test]
fn heights_count_from_first_solid_pixel() {
    let mut b = blank(16, 16);
    // column 0: solid from row 4; column 3: solid at the last row only
    for y in 4..16 {
        set(&mut b, 0, y, 0x0012_0000);
    }
    set(&mut b, 3, 15, 0x0034_0000);
    // alpha-only ink is not solid
    set(&mut b, 5, 0, 0x0000_00ff);
    let (h, angle) = read_collision_tile(&b, 0, 0);
    assert_eq!(h[0], 12);
    assert_eq!(h[3], 1);
    assert_eq!(h[5], 0);
    assert_eq!(h[1], 0);
    // the last column with ink gives the angle
    assert_eq!(angle, 0x34);
}

#[test]
fn angle_of_empty_tile_is_zero() {
    let b = blank(16, 16);
    assert_eq!(read_collision_tile(&b, 0, 0), ([0; 16], 0));
}

#[test]
fn tiles_are_read_row_by_row() {
    let mut b = blank(32, 32);
    // cell (1, 0): full column 2 with green 9; cell (0, 1): red ink in column 0
    for y in 0..16 {
        set(&mut b, 16 + 2, y, 0x0009_0000);
    }
    set(&mut b, 0, 16 + 8, 0xff00_0000);
    let tiles = read_collision_map(&b);
    assert_eq!(tiles.len(), 4);
    assert_eq!(tiles[1].0[2], 16);
    assert_eq!(tiles[1].1, 9);
    assert_eq!(tiles[2].0[0], 8);
    assert_eq!(tiles[2].1, 0);
    assert_eq!(tiles[0], ([0; 16], 0));
    assert_eq!(tiles[3], ([0; 16], 0));
}

#[test]
fn green_without_mask_reads_zero() {
    let mut b = blank(16, 16);
    b.gmask = 0;
    set(&mut b, 0, 0, 0xffff_ff00);
    let (h, angle) = read_collision_tile(&b, 0, 0);
    assert_eq!(h[0], 16);
    assert_eq!(angle, 0);
}
