use project_tails::block::{layer_position, SheetCopy, Tile, Tileset};
use project_tails::collision_map::{flip_pixels, Bitmap};

fn numbered(width: u32, height: u32) -> Bitmap {
    Bitmap {
        width,
        height,
        pixels: (0..width * height).collect(),
        rmask: 0xff00_0000,
        gmask: 0x00ff_0000,
        bmask: 0x0000_ff00,
    }
}

#[test]
fn flip_mirrors_each_axis() {
    let b = numbered(3, 2);
    assert_eq!(flip_pixels(&b, false, false).pixels, vec![0, 1, 2, 3, 4, 5]);
    assert_eq!(flip_pixels(&b, true, false).pixels, vec![2, 1, 0, 5, 4, 3]);
    assert_eq!(flip_pixels(&b, false, true).pixels, vec![3, 4, 5, 0, 1, 2]);
    assert_eq!(flip_pixels(&b, true, true).pixels, vec![5, 4, 3, 2, 1, 0]);
    let f = flip_pixels(&b, true, true);
    assert_eq!((f.width, f.height, f.gmask), (3, 2, 0x00ff_0000));
}

#[test]
fn tile_source_follows_rotation_and_flip() {
    let ts = Tileset { tiles_per_row: 20, image: "Zone".to_string() };
    let t = |rot, flip| Tile { rot, flip, tile: 23 };
    // tile 23 is column 3, row 1 of the sheet
    assert_eq!(ts.source_of(&t(0, false), 320, 160), (48, 16, SheetCopy::Plain));
    assert_eq!(ts.source_of(&t(0, true), 320, 160), (320 - 16 - 48, 16, SheetCopy::MirroredHorizontally));
    assert_eq!(ts.source_of(&t(2, true), 320, 160), (48, 160 - 16 - 16, SheetCopy::MirroredVertically));
    assert_eq!(ts.source_of(&t(2, false), 320, 160), (320 - 16 - 48, 160 - 16 - 16, SheetCopy::MirroredBoth));
    assert_eq!(ts.source_of(&t(1, false), 320, 160), (48, 16, SheetCopy::Plain));
}

#[test]
fn layer_positions_are_row_major() {
    assert_eq!(layer_position(0), (0, 0));
    assert_eq!(layer_position(9), (16, 16));
    assert_eq!(layer_position(63), (112, 112));
}
