use project_tails::block::{Block, Layer, Tile};
use project_tails::ground::{collide_line, find_ground_height};
use project_tails::terrain::{CollisionTile, TerrainGetter};

fn layer_of(tiles: Vec<Tile>) -> Layer {
    Layer { name: "Collision".to_string(), tiles }
}

fn uniform_block(tile: usize, flip: bool) -> Block {
    let tiles = vec![Tile { rot: 0, flip, tile }; 64];
    Block { graphics_layers: Vec::new(), collision_layers: vec![layer_of(tiles)] }
}

fn full_tile() -> CollisionTile {
    ([16; 16], 7)
}

fn ramp_tile() -> CollisionTile {
    let mut h = [0u32; 16];
    for (i, v) in h.iter_mut().enumerate() {
        *v = i as u32 + 1;
    }
    (h, 3)
}

#[test]
fn occupied_example_two_cells() {
    let cells = vec![Some((0usize, 0u32)), None];
    let blocks = vec![uniform_block(340, false)];
    let tiles = vec![full_tile()];
    let g = TerrainGetter::new(2, &cells, &blocks, &tiles);
    assert!(g.is_well_formed());
    assert!(g.is_occupied(8, 120, 0));
    assert!(!g.is_occupied(140, 120, 0));
}

#[test]
fn empty_cell_is_never_occupied() {
    let cells = vec![None, Some((0usize, 0u32)), None, None];
    let blocks = vec![uniform_block(340, false)];
    let tiles = vec![full_tile()];
    let g = TerrainGetter::new(2, &cells, &blocks, &tiles);
    for y in (0..256).step_by(7) {
        for x in (0..128).step_by(5) {
            assert!(!g.is_occupied(x, y, 0));
            assert!(g.tile_at(x, y, 0).is_none());
        }
    }
    assert!(g.is_occupied(130, 0, 0));
}

#[test]
fn off_level_is_never_occupied() {
    let cells = vec![Some((0usize, 0u32)); 4];
    let blocks = vec![uniform_block(340, false)];
    let tiles = vec![full_tile()];
    let g = TerrainGetter::new(2, &cells, &blocks, &tiles);
    assert!(g.is_occupied(0, 0, 0));
    assert!(g.is_occupied(255, 255, 0));
    assert!(!g.is_occupied(-1, 5, 0));
    assert!(!g.is_occupied(5, -1, 0));
    assert!(!g.is_occupied(256, 5, 0));
    assert!(!g.is_occupied(5, 256, 0));
    assert!(!g.is_occupied(i32::MAX, i32::MAX, 0));
}

#[test]
fn zero_width_level_has_no_tiles() {
    let cells: Vec<Option<(usize, u32)>> = Vec::new();
    let blocks = vec![uniform_block(340, false)];
    let tiles = vec![full_tile()];
    let g = TerrainGetter::new(0, &cells, &blocks, &tiles);
    assert!(g.tile_at(0, 0, 0).is_none());
}

#[test]
fn occupancy_follows_column_heights() {
    let cells = vec![Some((0usize, 0u32))];
    let blocks = vec![uniform_block(340, false)];
    let tiles = vec![ramp_tile()];
    let g = TerrainGetter::new(1, &cells, &blocks, &tiles);
    // column 0 has height 1: only the bottom row of each tile is solid
    assert!(g.is_occupied(0, 15, 0));
    assert!(!g.is_occupied(0, 14, 0));
    // column 15 has height 16: the whole column is solid
    assert!(g.is_occupied(15, 0, 0));
    // column 5 has height 6: rows 10..16 of the tile
    assert!(g.is_occupied(5, 10, 0));
    assert!(!g.is_occupied(5, 9, 0));
}

#[test]
fn flipped_placement_mirrors_tile() {
    let mut tiles_a = vec![Tile { rot: 0, flip: false, tile: 340 }; 64];
    // tile column 2 of row 0 names the ramp
    tiles_a[2] = Tile { rot: 0, flip: false, tile: 341 };
    let blocks = vec![Block { graphics_layers: Vec::new(), collision_layers: vec![layer_of(tiles_a)] }];
    let tiles = vec![full_tile(), ramp_tile()];
    // cell 0 flipped, cell 1 plain, same block
    let cells = vec![Some((0usize, 1u32)), Some((0usize, 0u32))];
    let g = TerrainGetter::new(2, &cells, &blocks, &tiles);
    // mirrored column 5 of the flipped block shows entry 7 - 5 = 2
    let flipped = g.tile_at(5 * 16, 0, 0).unwrap();
    let plain = g.tile_at(128 + 2 * 16, 0, 0).unwrap();
    let mut reversed = plain.0;
    reversed.reverse();
    assert_eq!(flipped.0, reversed);
    assert_eq!(flipped.1, plain.1);
    assert_eq!(plain.0, ramp_tile().0);
}

#[test]
fn tile_flip_and_block_flip_cancel() {
    let blocks = vec![uniform_block(341, true)];
    let tiles = vec![full_tile(), ramp_tile()];
    let cells = vec![Some((0usize, 1u32)), Some((0usize, 0u32))];
    let g = TerrainGetter::new(2, &cells, &blocks, &tiles);
    let mut reversed = ramp_tile().0;
    reversed.reverse();
    // both flags set: no mirroring
    assert_eq!(g.tile_at(0, 0, 0).unwrap().0, ramp_tile().0);
    // only the tile's flag: mirrored
    assert_eq!(g.tile_at(128, 0, 0).unwrap().0, reversed);
}

#[test]
fn well_formedness_catches_bad_data() {
    let tiles = vec![full_tile()];
    let good = vec![uniform_block(340, false)];
    let cells_bad_block = vec![Some((1usize, 0u32))];
    assert!(!TerrainGetter::new(1, &cells_bad_block, &good, &tiles).is_well_formed());
    let low = vec![uniform_block(339, false)];
    let cells = vec![Some((0usize, 0u32))];
    assert!(!TerrainGetter::new(1, &cells, &low, &tiles).is_well_formed());
    let high = vec![uniform_block(341, false)];
    assert!(!TerrainGetter::new(1, &cells, &high, &tiles).is_well_formed());
    let short = vec![Block {
        graphics_layers: Vec::new(),
        collision_layers: vec![layer_of(vec![Tile { rot: 0, flip: false, tile: 340 }; 63])],
    }];
    assert!(!TerrainGetter::new(1, &cells, &short, &tiles).is_well_formed());
    let none = vec![Block { graphics_layers: Vec::new(), collision_layers: Vec::new() }];
    assert!(!TerrainGetter::new(1, &cells, &none, &tiles).is_well_formed());
}

/// A column of two cells: nothing on top, a solid block below.
fn stacked_level() -> (Vec<Option<(usize, u32)>>, Vec<Block>, Vec<CollisionTile>) {
    (vec![None, Some((0usize, 0u32))], vec![uniform_block(340, false)], vec![full_tile()])
}

#[test]
fn ground_over_flat_block_is_its_top_edge() {
    let (cells, blocks, tiles) = stacked_level();
    let g = TerrainGetter::new(1, &cells, &blocks, &tiles);
    // body at row 120: the probe starts inside the block
    assert_eq!(find_ground_height(60, 70, 120, &g).map(|r| r.0), Some(128));
    assert_eq!(find_ground_height(5, 120, 120, &g).map(|r| r.0), Some(128));
    assert_eq!(find_ground_height(64, 64, 200, &g).map(|r| r.0), Some(128));
    assert_eq!(find_ground_height(10, 20, 120, &g).map(|r| r.1), Some(7));
}

#[test]
fn ground_over_empty_cells_is_none() {
    let cells = vec![None, None];
    let blocks = vec![uniform_block(340, false)];
    let tiles = vec![full_tile()];
    let g = TerrainGetter::new(1, &cells, &blocks, &tiles);
    assert_eq!(find_ground_height(0, 127, 100, &g), None);
    let (cells, blocks, tiles) = stacked_level();
    let g = TerrainGetter::new(1, &cells, &blocks, &tiles);
    // the probe from row 50 ends at row 67, still over the empty cell
    assert_eq!(find_ground_height(0, 127, 50, &g), None);
    // columns right of the level
    assert_eq!(find_ground_height(128, 300, 120, &g), None);
}

#[test]
fn ground_with_empty_span_is_none() {
    let (cells, blocks, tiles) = stacked_level();
    let g = TerrainGetter::new(1, &cells, &blocks, &tiles);
    assert_eq!(find_ground_height(10, 5, 120, &g), None);
}

#[test]
fn ground_prefers_highest_then_leftmost() {
    // ramp heights 1..16 across each tile; tile row 0 of the block
    let blocks = vec![uniform_block(341, false)];
    let tiles = vec![full_tile(), ramp_tile()];
    let cells = vec![None, Some((0usize, 0u32))];
    let g = TerrainGetter::new(1, &cells, &blocks, &tiles);
    // the probe from row 111 stops at row 127, over the empty cell, and
    // reads the tile at row 128; each column reports 127 + 16 - heights[x % 8]
    let single = collide_line((3, 111), &g);
    assert_eq!(single, Some((127 + 16 - 4, 3)));
    let best = find_ground_height(0, 7, 111, &g);
    assert_eq!(best, Some((127 + 16 - 8, 3)));
    let same = find_ground_height(7, 15, 111, &g);
    assert_eq!(same, Some((127 + 16 - 8, 3)));
    let right = find_ground_height(8, 9, 111, &g);
    assert_eq!(right, Some((127 + 16 - 2, 3)));
}

#[test]
fn collide_line_reports_wrapped_row_at_top_edge() {
    let cells = vec![Some((0usize, 0u32))];
    let blocks = vec![uniform_block(340, false)];
    let tiles = vec![full_tile()];
    let g = TerrainGetter::new(1, &cells, &blocks, &tiles);
    // probe from row -17 starts at row 0 and reads the tile at row 0
    assert_eq!(collide_line((3, -17), &g), Some((u32::MAX, 7)));
    assert_eq!(collide_line((3, 40), &g), Some((0, 7)));
    assert_eq!(collide_line((3, -40), &g), None);
}
