use ohmc::redstone::Sim;
use ohmc::world::{Block, Dir, Face, Grid, Material};

/// A lever, a run of dust, and a lamp: checks seeding, decay, and readout.
#[test]
fn dust_decays_one_per_block() {
    let mut g = Grid::new();
    for z in 0..20 {
        g.force((0, 0, z), Block::Solid(Material::Wire));
        g.force((0, 1, z), Block::Dust { power: 0 });
    }
    g.force((0, 0, -1), Block::Solid(Material::Wire));
    g.force((0, 1, -1), Block::Lever { face: Face::Floor, facing: Dir::North, powered: true });

    let sim = Sim::new(&g);
    let f = sim.field();
    assert_eq!(f.dust_at((0, 1, 0)), 15);
    assert_eq!(f.dust_at((0, 1, 1)), 14);
    assert_eq!(f.dust_at((0, 1, 14)), 1);
    // Level 1 dust does not propagate further: it dies out.
    assert_eq!(f.dust_at((0, 1, 15)), 0);
}

/// The canonical inverter: dust on top of a block, torch on its side.
/// This single interaction is what every gate in the compiler is built from.
#[test]
fn torch_inverts_its_support_block() {
    let mut g = Grid::new();
    // Support block with dust on top.
    g.force((0, 0, 0), Block::Solid(Material::Gate));
    g.force((0, 1, 0), Block::Dust { power: 0 });
    // Torch on the south face of the support.
    g.force((0, 0, 1), Block::WallTorch { facing: Dir::South, lit: true });
    // A lever feeding the input dust, initially off.
    g.force((0, 0, -1), Block::Solid(Material::Wire));
    g.force((0, 1, -1), Block::Lever { face: Face::Floor, facing: Dir::North, powered: false });

    let mut sim = Sim::new(&g);
    sim.run_until_stable(20);
    assert!(*sim.state.torch_lit.get((0, 0, 1)).unwrap(), "input low => torch lit");

    sim.set_lever((0, 1, -1), true);
    sim.run_until_stable(20);
    assert!(!*sim.state.torch_lit.get((0, 0, 1)).unwrap(), "input high => torch out");

    sim.set_lever((0, 1, -1), false);
    sim.run_until_stable(20);
    assert!(*sim.state.torch_lit.get((0, 0, 1)).unwrap(), "input low again => torch relit");
}

/// A lit torch strongly powers the block above it, which then drives dust.
#[test]
fn torch_strongly_powers_block_above() {
    let mut g = Grid::new();
    g.force((0, 0, 0), Block::Solid(Material::Gate));
    g.force((0, 0, 1), Block::WallTorch { facing: Dir::South, lit: true });
    g.force((0, 1, 1), Block::Solid(Material::Gate));
    g.force((0, 2, 1), Block::Dust { power: 0 });

    let sim = Sim::new(&g);
    let f = sim.field();
    assert!(f.block_strong((0, 1, 1)));
    assert_eq!(f.dust_at((0, 2, 1)), 15);
}

/// Repeaters restore a decayed signal back to 15.
#[test]
fn repeater_restores_signal() {
    let mut g = Grid::new();
    for z in 0..14 {
        g.force((0, 0, z), Block::Solid(Material::Wire));
        g.force((0, 1, z), Block::Dust { power: 0 });
    }
    g.force((0, 0, -1), Block::Solid(Material::Wire));
    g.force((0, 1, -1), Block::Lever { face: Face::Floor, facing: Dir::North, powered: true });
    // Repeater reading from the north (from the dust run), driving south.
    g.force((0, 0, 14), Block::Solid(Material::Wire));
    g.force((0, 1, 14), Block::Repeater { facing: Dir::North, delay: 1, powered: false });
    g.force((0, 0, 15), Block::Solid(Material::Wire));
    g.force((0, 1, 15), Block::Dust { power: 0 });

    let mut sim = Sim::new(&g);
    sim.run_until_stable(20);
    assert!(*sim.state.repeater_powered.get((0, 1, 14)).unwrap());
    assert_eq!(sim.field().dust_at((0, 1, 15)), 15);
}

/// Weak power must not leak onto dust: dust -> block -> dust is a dead end.
#[test]
fn weak_power_does_not_drive_dust() {
    let mut g = Grid::new();
    g.force((0, 0, 0), Block::Solid(Material::Wire));
    g.force((0, 1, 0), Block::Lever { face: Face::Floor, facing: Dir::North, powered: true });
    // Block to the south, with dust on top and dust beyond it.
    g.force((0, 1, 1), Block::Solid(Material::Gate));
    g.force((0, 1, 2), Block::Solid(Material::Wire));
    g.force((0, 2, 2), Block::Dust { power: 0 });

    let sim = Sim::new(&g);
    let f = sim.field();
    // The lever strongly powers its support, not the block to its side,
    // so nothing should reach the far dust.
    assert_eq!(f.dust_at((0, 2, 2)), 0);
}
