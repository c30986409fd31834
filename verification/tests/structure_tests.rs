use flate2::read::GzDecoder;
use ohmc::structure::{split_state, Structure};
use ohmc::world::{Block, Grid, Material};
use std::io::Read;

#[test]
fn splits_block_states() {
    assert_eq!(split_state("minecraft:stone"), ("minecraft:stone".into(), vec![]));
    let (name, props) = split_state("minecraft:repeater[delay=1,facing=north]");
    assert_eq!(name, "minecraft:repeater");
    assert_eq!(
        props,
        vec![("delay".to_string(), "1".to_string()), ("facing".into(), "north".into())]
    );
}

#[test]
fn air_is_omitted_and_palette_shared() {
    let mut g = Grid::new();
    g.force((0, 0, 0), Block::Solid(Material::Gate));
    g.force((2, 0, 0), Block::Solid(Material::Gate));
    let s = Structure::from_grid(&g);
    assert_eq!(s.size, (3, 1, 1));
    assert_eq!(s.palette.len(), 1, "identical blocks share a palette entry");
    assert_eq!(s.blocks.len(), 2, "the air gap is not listed");
}

#[test]
fn positions_are_relative_to_the_corner() {
    let mut g = Grid::new();
    g.force((10, 20, 30), Block::Solid(Material::Gate));
    g.force((11, 21, 32), Block::Solid(Material::Wire));
    let s = Structure::from_grid(&g);
    assert_eq!(s.size, (2, 2, 3));
    assert!(s.blocks.contains(&(0, 0, 0, 0)));
    assert!(s.blocks.contains(&(1, 1, 1, 2)));
}

#[test]
fn output_is_gzipped_nbt_with_the_expected_keys() {
    let mut g = Grid::new();
    g.force((0, 0, 0), Block::Solid(Material::Gate));
    let bytes = Structure::from_grid(&g).to_bytes().unwrap();
    assert_eq!(&bytes[..2], &[0x1f, 0x8b], "gzip magic");
    let mut raw = Vec::new();
    GzDecoder::new(&bytes[..]).read_to_end(&mut raw).unwrap();
    assert_eq!(raw[0], 0x0a, "unnamed root compound");
    for key in [&b"DataVersion"[..], b"size", b"palette", b"blocks", b"entities"] {
        assert!(
            raw.windows(key.len()).any(|w| w == key),
            "missing key {}",
            String::from_utf8_lossy(key)
        );
    }
}

#[test]
fn size_limit_is_reported() {
    let mut g = Grid::new();
    g.force((0, 0, 0), Block::Solid(Material::Gate));
    g.force((60, 0, 0), Block::Solid(Material::Gate));
    let s = Structure::from_grid(&g);
    assert!(!s.fits(), "61 blocks wide exceeds a structure block's 48");
}
