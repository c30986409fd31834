use ohmc::redstone::Sim;
use ohmc::route::{NetId, Router};
use ohmc::world::{down, Block, Dir, Face, Grid, Material, Pos};

fn bounds() -> (Pos, Pos) {
    ((-40, -20, -40), (40, 20, 40))
}

/// Place a lever driving a single dust node the router can start from.
fn source(g: &mut Grid, r: &mut Router, p: Pos, net: NetId) -> Pos {
    g.force(down(p), Block::Solid(Material::Wire));
    g.force(p, Block::Dust { power: 0 });
    let lever = (p.0, p.1, p.2 - 1);
    g.force(down(lever), Block::Solid(Material::PortIn));
    g.force(lever, Block::Lever { face: Face::Floor, facing: Dir::North, powered: false });
    r.claim(p, net);
    lever
}

#[test]
fn routes_a_straight_line_and_carries_signal() {
    let mut g = Grid::new();
    let mut r = Router::from_grid(&g);
    let lever = source(&mut g, &mut r, (0, 0, 0), 1);
    r.route(&mut g, 1, &[(0, 0, 0)], (0, 0, 10), bounds(), Material::Wire, 0).unwrap();

    let mut sim = Sim::new(&g);
    sim.set_lever(lever, true);
    let (_, stable) = sim.run_until_stable(200);
    assert!(stable);
    assert!(sim.field().dust_at((0, 0, 10)) > 0, "signal must reach the far end");
}

/// Longer than the dust budget: the router has to insert repeaters.
#[test]
fn long_route_is_repeated() {
    let mut g = Grid::new();
    let mut r = Router::from_grid(&g);
    let lever = source(&mut g, &mut r, (0, 0, 0), 1);
    r.route(&mut g, 1, &[(0, 0, 0)], (0, 0, 35), bounds(), Material::Wire, 0).unwrap();

    let mut sim = Sim::new(&g);
    sim.set_lever(lever, true);
    let (_, stable) = sim.run_until_stable(400);
    assert!(stable);
    assert!(sim.field().dust_at((0, 0, 35)) > 0, "35-block route must survive");
}

/// The whole point: two nets whose straight paths would intersect must both
/// route, and must stay electrically separate.
#[test]
fn crossing_nets_do_not_short() {
    let mut g = Grid::new();
    let mut r = Router::from_grid(&g);
    // Net 1 runs west to east, net 2 runs north to south, crossing at (5,_,5).
    let l1 = source(&mut g, &mut r, (0, 0, 5), 1);
    r.route(&mut g, 1, &[(0, 0, 5)], (12, 0, 5), bounds(), Material::Wire, 0).unwrap();

    g.force((5, -1, 0), Block::Solid(Material::Wire));
    g.force((5, 0, 0), Block::Dust { power: 0 });
    let l2 = (5, 0, -1);
    g.force(down(l2), Block::Solid(Material::PortIn));
    g.force(l2, Block::Lever { face: Face::Floor, facing: Dir::North, powered: false });
    r.claim((5, 0, 0), 2);
    r.route(&mut g, 2, &[(5, 0, 0)], (5, 0, 12), bounds(), Material::Wire, 0)
        .expect("second net must find a way over or under the first");

    let mut sim = Sim::new(&g);
    for (a, b) in [(false, false), (true, false), (false, true), (true, true)] {
        sim.set_lever(l1, a);
        sim.set_lever(l2, b);
        let (_, stable) = sim.run_until_stable(400);
        assert!(stable, "must settle for ({a}, {b})");
        let f = sim.field();
        assert_eq!(f.dust_at((12, 0, 5)) > 0, a, "net 1 must carry only its own signal");
        assert_eq!(f.dust_at((5, 0, 12)) > 0, b, "net 2 must carry only its own signal");
    }
}

#[test]
fn reports_failure_when_boxed_in() {
    let mut g = Grid::new();
    // Seal the destination inside solid blocks.
    for dx in -1..=1i32 {
        for dy in -1..=1i32 {
            for dz in -1..=1i32 {
                if (dx, dy, dz) != (0, 0, 0) {
                    g.force((10 + dx, dy, 10 + dz), Block::Solid(Material::Shield));
                }
            }
        }
    }
    let mut r = Router::from_grid(&g);
    source(&mut g, &mut r, (0, 0, 0), 1);
    let err = r
        .route(&mut g, 1, &[(0, 0, 0)], (10, 0, 10), bounds(), Material::Wire, 0)
        .unwrap_err();
    assert!(err.contains("no route") || err.contains("gave up"), "{err}");
}
