use flate2::read::GzDecoder;
use ohmc::schem::Schematic;
use ohmc::world::{Block, Grid, Material};
use std::io::Read;

#[test]
fn single_block_schematic_has_expected_extent() {
    let mut g = Grid::new();
    g.force((5, 7, 9), Block::Solid(Material::Gate));
    let s = Schematic::from_grid(&g);
    assert_eq!((s.width, s.height, s.length), (1, 1, 1));
    assert_eq!(s.palette, vec!["minecraft:air", "minecraft:stone"]);
    assert_eq!(s.data, vec![1]);
}

#[test]
fn indices_follow_x_z_y_order() {
    let mut g = Grid::new();
    // 2x2x2 box so we can check the index formula unambiguously.
    g.force((0, 0, 0), Block::Solid(Material::Gate));
    g.force((1, 0, 0), Block::Solid(Material::Wire));
    g.force((0, 0, 1), Block::Solid(Material::Shield));
    g.force((0, 1, 0), Block::Solid(Material::Clock));
    let s = Schematic::from_grid(&g);
    assert_eq!((s.width, s.height, s.length), (2, 2, 2));
    let at = |x: usize, y: usize, z: usize| s.data[x + z * 2 + y * 2 * 2];
    assert_eq!(s.palette[at(0, 0, 0) as usize], "minecraft:stone");
    assert_eq!(s.palette[at(1, 0, 0) as usize], "minecraft:polished_andesite");
    assert_eq!(s.palette[at(0, 0, 1) as usize], "minecraft:smooth_stone");
    assert_eq!(s.palette[at(0, 1, 0) as usize], "minecraft:blue_concrete");
    assert_eq!(at(1, 1, 1), 0, "unset cells are air");
}

#[test]
fn output_is_valid_gzip_with_nbt_header() {
    let mut g = Grid::new();
    g.force((0, 0, 0), Block::Solid(Material::Gate));
    let bytes = Schematic::from_grid(&g).to_bytes().unwrap();
    assert_eq!(&bytes[..2], &[0x1f, 0x8b], "gzip magic");

    let mut raw = Vec::new();
    GzDecoder::new(&bytes[..]).read_to_end(&mut raw).unwrap();
    // TAG_Compound, empty name, then the "Schematic" compound.
    assert_eq!(raw[0], 0x0a);
    assert_eq!(&raw[1..3], &[0x00, 0x00]);
    assert_eq!(raw[3], 0x0a);
    assert_eq!(&raw[6..15], b"Schematic");
}
