use ohmc::world::{Block, Conn, Dir, Grid, Material};

#[test]
fn dir_round_trips() {
    for d in Dir::ALL {
        assert_eq!(d.opposite().opposite(), d);
        let (dx, dy, dz) = d.delta();
        let (ox, oy, oz) = d.opposite().delta();
        assert_eq!((dx + ox, dy + oy, dz + oz), (0, 0, 0));
    }
}

#[test]
fn collision_is_rejected() {
    let mut g = Grid::new();
    g.set((0, 0, 0), Block::Solid(Material::Gate)).unwrap();
    let err = g.set((0, 0, 0), Block::Dust { power: 0 }).unwrap_err();
    assert!(err.contains("collision"), "{err}");
}

#[test]
fn identical_reblock_is_allowed() {
    let mut g = Grid::new();
    g.set((0, 0, 0), Block::Solid(Material::Gate)).unwrap();
    g.set((0, 0, 0), Block::Solid(Material::Gate)).unwrap();
}

#[test]
fn dust_connects_to_adjacent_dust() {
    let mut g = Grid::new();
    g.force((0, 0, 0), Block::Solid(Material::Wire));
    g.force((0, 1, 0), Block::Dust { power: 0 });
    g.force((0, 0, 1), Block::Solid(Material::Wire));
    g.force((0, 1, 1), Block::Dust { power: 0 });
    let s = g.dust_shape((0, 1, 0));
    assert_eq!(s.south, Conn::Side);
    assert_eq!(s.north, Conn::Empty);
}

#[test]
fn opaque_roof_blocks_up_connection() {
    // Dust at origin, opaque neighbor to the south carrying dust on top.
    let mut g = Grid::new();
    g.force((0, 0, 0), Block::Solid(Material::Wire));
    g.force((0, 1, 0), Block::Dust { power: 0 });
    g.force((0, 1, 1), Block::Solid(Material::Wire));
    g.force((0, 2, 1), Block::Dust { power: 0 });
    assert_eq!(g.dust_shape((0, 1, 0)).south, Conn::Up);

    // Now roof the source dust: the climb is blocked.
    g.force((0, 2, 0), Block::Solid(Material::Shield));
    assert_eq!(g.dust_shape((0, 1, 0)).south, Conn::Empty);
}

#[test]
fn repeater_connects_only_along_its_axis() {
    let mut g = Grid::new();
    g.force((0, 0, 0), Block::Solid(Material::Wire));
    g.force((0, 1, 0), Block::Dust { power: 0 });
    // Repeater to the south, reading from the north (i.e. from our dust).
    g.force((0, 1, 1), Block::Repeater { facing: Dir::North, delay: 1, powered: false });
    assert_eq!(g.dust_shape((0, 1, 0)).south, Conn::Side);

    // A repeater on the east/west axis placed to our south does not connect.
    g.force((0, 1, 1), Block::Repeater { facing: Dir::East, delay: 1, powered: false });
    assert_eq!(g.dust_shape((0, 1, 0)).south, Conn::Empty);
}
