use project_tails::block::{Block, BlockError, Layer, RawBlock, Tile};

fn layer(name: &str, tile: usize, count: usize) -> Layer {
    Layer { name: name.to_string(), tiles: vec![Tile { rot: 0, flip: false, tile }; count] }
}

#[test]
fn layers_split_by_name() {
    let raw = RawBlock {
        layers: vec![
            layer("Graphics Back", 1, 64),
            layer("Collision A", 3, 64),
            layer("Graphics Front", 400, 64),
            layer("Collision B", 500, 64),
        ],
    };
    let b = Block::from_raw(raw).unwrap();
    let g: Vec<&str> = b.graphics_layers.iter().map(|l| l.name.as_str()).collect();
    let c: Vec<&str> = b.collision_layers.iter().map(|l| l.name.as_str()).collect();
    assert_eq!(g, vec!["Graphics Back", "Graphics Front"]);
    assert_eq!(c, vec!["Collision A", "Collision B"]);
}

#[test]
fn ambiguous_layers_split_by_tiles() {
    let raw = RawBlock { layers: vec![layer("Front", 339, 64), layer("Solid", 340, 64)] };
    let b = Block::from_raw(raw).unwrap();
    assert_eq!(b.graphics_layers[0].name, "Front");
    assert_eq!(b.collision_layers[0].name, "Solid");
}

#[test]
fn layer_counts_are_checked() {
    let none = RawBlock { layers: vec![layer("Collision", 340, 64)] };
    assert_eq!(Block::from_raw(none).err(), Some(BlockError::GraphicsLayerCount(0)));
    let three = RawBlock {
        layers: vec![
            layer("Graphics", 0, 64),
            layer("Collision 1", 340, 64),
            layer("Collision 2", 340, 64),
            layer("Collision 3", 340, 64),
        ],
    };
    assert_eq!(Block::from_raw(three).err(), Some(BlockError::CollisionLayerCount(3)));
}

#[test]
fn tile_counts_are_checked() {
    let short = RawBlock { layers: vec![layer("Graphics", 0, 64), layer("Collision", 340, 10)] };
    assert_eq!(Block::from_raw(short).err(), Some(BlockError::LayerTileCount(10)));
    let long = RawBlock { layers: vec![layer("Graphics", 0, 65), layer("Collision", 340, 10)] };
    assert_eq!(Block::from_raw(long).err(), Some(BlockError::LayerTileCount(65)));
}
