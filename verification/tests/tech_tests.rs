use ohmc::redstone::{Sim, BURNOUT_WINDOW};
use ohmc::tech::{
    plane, ramp_z, run_x, run_z, stamp_d_latch, stamp_dff, stamp_nor, stamp_rs_latch, Budget,
};
use ohmc::world::{Block, Conn, Dir, Face, Grid, Material, Pos};

/// Drive a cell feed point from a lever, through enough dust to reach the
/// repeater. Returns the lever position so the test can toggle it.
fn drive(g: &mut Grid, feed: Pos) -> Pos {
    let (x, y, z) = feed;
    // Dust at the feed, then a lever two blocks north of it.
    g.force((x, y - 1, z), Block::Solid(Material::Wire));
    g.force((x, y, z), Block::Dust { power: 0 });
    g.force((x, y - 1, z - 1), Block::Solid(Material::Wire));
    g.force((x, y, z - 1), Block::Dust { power: 0 });
    let lever = (x, y, z - 2);
    g.force((x, y - 1, z - 2), Block::Solid(Material::PortIn));
    g.force(lever, Block::Lever { face: Face::Floor, facing: Dir::North, powered: false });
    lever
}

fn settle(sim: &mut Sim) {
    // Feedback loops take far longer to converge than the feed-forward
    // cells this helper was written for.
    let (ticks, stable) = sim.run_until_stable(5000);
    assert!(stable, "circuit failed to settle after {ticks} ticks");
}

/// A one-input NOR is an inverter. This is the single most important
/// geometric claim in the compiler.
#[test]
fn nor_cell_with_one_input_inverts() {
    let mut g = Grid::new();
    let cell = stamp_nor(&mut g, (0, 0, 0), 1).unwrap();
    let lever = drive(&mut g, cell.feeds[0]);

    let mut sim = Sim::new(&g);
    settle(&mut sim);
    assert_eq!(sim.field().dust_at(cell.out), 15, "input low => output high");

    sim.set_lever(lever, true);
    settle(&mut sim);
    assert_eq!(sim.field().dust_at(cell.out), 0, "input high => output low");

    sim.set_lever(lever, false);
    settle(&mut sim);
    assert_eq!(sim.field().dust_at(cell.out), 15, "input low again => output high");
}

/// Full truth table of a two-input cell: output is high only when both
/// inputs are low.
#[test]
fn nor_cell_with_two_inputs_matches_truth_table() {
    let mut g = Grid::new();
    let cell = stamp_nor(&mut g, (0, 0, 0), 2).unwrap();
    let l0 = drive(&mut g, cell.feeds[0]);
    let l1 = drive(&mut g, cell.feeds[1]);

    let mut sim = Sim::new(&g);
    for (a, b) in [(false, false), (true, false), (false, true), (true, true)] {
        sim.set_lever(l0, a);
        sim.set_lever(l1, b);
        settle(&mut sim);
        let high = sim.field().dust_at(cell.out) > 0;
        assert_eq!(high, !(a || b), "NOR({a}, {b})");
    }
}

/// The fan-in feeds must be electrically separate. Without this the four
/// "inputs" merge into one shorted bus, and a NOR truth table still passes -
/// because NOR of a shorted bus equals NOR of its members. This test fails
/// on a shorted cell, where the truth table alone does not.
#[test]
fn fan_in_feeds_are_isolated_from_each_other() {
    let mut g = Grid::new();
    let cell = stamp_nor(&mut g, (0, 0, 0), 4).unwrap();
    let levers: Vec<Pos> = cell.feeds.iter().map(|&f| drive(&mut g, f)).collect();

    let mut sim = Sim::new(&g);
    // Raise only the first input.
    sim.set_lever(levers[0], true);
    settle(&mut sim);
    let f = sim.field();
    assert!(f.dust_at(cell.feeds[0]) > 0, "driven feed should be live");
    for i in 1..4 {
        assert_eq!(
            f.dust_at(cell.feeds[i]),
            0,
            "feed {i} must not pick up feed 0's signal"
        );
    }
}

#[test]
fn nor_cell_with_four_inputs_matches_truth_table() {
    let mut g = Grid::new();
    let cell = stamp_nor(&mut g, (0, 0, 0), 4).unwrap();
    let levers: Vec<Pos> = cell.feeds.iter().map(|&f| drive(&mut g, f)).collect();

    let mut sim = Sim::new(&g);
    for v in 0..16u32 {
        for (i, &l) in levers.iter().enumerate() {
            sim.set_lever(l, (v >> i) & 1 == 1);
        }
        settle(&mut sim);
        let high = sim.field().dust_at(cell.out) > 0;
        assert_eq!(high, v == 0, "NOR of pattern {v:04b}");
    }
}

/// A wide pad is refreshed: every input of a cell with thirty of them, raised
/// alone, puts the torch out, however far from it the input lies.
#[test]
fn nor_cell_with_thirty_inputs_hears_each_of_them() {
    let mut g = Grid::new();
    let cell = stamp_nor(&mut g, (0, 0, 0), 30).unwrap();
    let levers: Vec<Pos> = cell.feeds.iter().map(|&f| drive(&mut g, f)).collect();

    let mut sim = Sim::new(&g);
    settle(&mut sim);
    assert_eq!(sim.field().dust_at(cell.out), 15, "no input => output high");
    for (i, &l) in levers.iter().enumerate() {
        sim.set_lever(l, true);
        settle(&mut sim);
        assert_eq!(sim.field().dust_at(cell.out), 0, "input {i} => output low");
        sim.set_lever(l, false);
        settle(&mut sim);
        assert_eq!(sim.field().dust_at(cell.out), 15, "input {i} dropped => output high");
        // A torch that toggles too often burns out.
        sim.run(BURNOUT_WINDOW);
    }
}

#[test]
fn nor_cell_with_nine_inputs_matches_truth_table() {
    let mut g = Grid::new();
    let cell = stamp_nor(&mut g, (0, 0, 0), 9).unwrap();
    let levers: Vec<Pos> = cell.feeds.iter().map(|&f| drive(&mut g, f)).collect();
    assert_eq!(
        g.get((13, plane::IN, 0)),
        Block::Repeater { facing: Dir::East, delay: 1, powered: false }
    );

    let mut sim = Sim::new(&g);
    for v in 0..512u32 {
        for (i, &l) in levers.iter().enumerate() {
            sim.set_lever(l, (v >> i) & 1 == 1);
        }
        settle(&mut sim);
        let high = sim.field().dust_at(cell.out) > 0;
        assert_eq!(high, v == 0, "NOR of pattern {v:09b}");
    }
}

/// The pad must be electrically isolated from the cell's own output.
#[test]
fn input_pad_is_isolated_from_output() {
    let mut g = Grid::new();
    let cell = stamp_nor(&mut g, (0, 0, 0), 1).unwrap();
    drive(&mut g, cell.feeds[0]);
    let pad = (0, plane::IN, 0);
    // No connection of any kind from the pad toward the torch/output side.
    assert_eq!(g.dust_shape(pad).south, Conn::Empty);
    // And the roof stops anything routed above from sloping down into it.
    assert!(g.get((0, plane::ROOF, 0)).is_opaque(), "pad must be roofed");
}

/// Two chained cells must give back the original signal.
#[test]
fn chained_cells_form_a_buffer() {
    let mut g = Grid::new();
    let a = stamp_nor(&mut g, (0, 0, 0), 1).unwrap();
    // Second cell far enough south that its repeater row clears cell A.
    let b = stamp_nor(&mut g, (0, 0, 6), 1).unwrap();
    let lever = drive(&mut g, a.feeds[0]);
    // A's output sits at plane::OUT; B's feed is at plane::IN, one level up.
    let mut budget = Budget::fresh();
    let z = ramp_z(&mut g, 0, (plane::OUT, a.out.2), plane::IN, 1, Material::Wire, &mut budget)
        .unwrap();
    run_z(&mut g, plane::IN, 0, z, b.feeds[0].2, Material::Wire, &mut budget).unwrap();

    let mut sim = Sim::new(&g);
    settle(&mut sim);
    assert_eq!(sim.field().dust_at(b.out), 0, "0 -> NOT -> 1 -> NOT -> 0");

    sim.set_lever(lever, true);
    settle(&mut sim);
    assert_eq!(sim.field().dust_at(b.out), 15, "1 -> NOT -> 0 -> NOT -> 1");
}

#[test]
fn rs_latch_remembers() {
    let mut g = Grid::new();
    let (sf, rf, clr, q, _qn) = stamp_rs_latch(&mut g, (0, 0, 0)).unwrap();
    let s_lever = drive(&mut g, sf);
    let r_lever = drive(&mut g, rf);
    let c_lever = drive(&mut g, clr);

    let mut sim = Sim::new(&g);
    settle(&mut sim);
    let hi = |sim: &Sim| sim.field().dust_at(q) > 0;

    // Absolute, not merely different. Asserting only that set and reset
    // disagree is satisfied by an inverted latch too, and this cell was
    // wired inverted for a whole session behind exactly that assertion.
    sim.set_lever(r_lever, true);
    settle(&mut sim);
    assert!(!hi(&sim), "reset must drive Q low");
    sim.set_lever(r_lever, false);
    settle(&mut sim);
    assert!(!hi(&sim), "cleared state must survive its input dropping");

    sim.set_lever(s_lever, true);
    settle(&mut sim);
    assert!(hi(&sim), "set must drive Q high");
    sim.set_lever(s_lever, false);
    settle(&mut sim);
    assert!(hi(&sim), "the bit must be held, not merely tracked");

    // Asynchronous clear: Q must go low with set and reset both idle, and
    // stay low once the clear is released. This is what lets a built
    // circuit be put into a known state - the state chosen at stamp time
    // does not survive `.mcfunction` placement.
    sim.set_lever(c_lever, true);
    settle(&mut sim);
    assert!(!hi(&sim), "clear must force Q low from a set latch");
    sim.set_lever(c_lever, false);
    settle(&mut sim);
    assert!(!hi(&sim), "the latch must stay cleared after the pulse ends");

    // And it must still be usable afterwards.
    sim.set_lever(s_lever, true);
    settle(&mut sim);
    assert!(hi(&sim), "the latch must still set after being cleared");
}

#[test]
fn d_latch_follows_then_holds() {
    let mut g = Grid::new();
    let p = stamp_d_latch(&mut g, (0, 0, 0)).unwrap();
    // Drive the boundary ports, which is what a caller has. Driving the
    // internal feeds directly - as this test used to - bypasses the macro's
    // own fan-out and tests a circuit no caller can build.
    let q = p.q;
    let d1 = drive(&mut g, p.d);
    let e1 = drive(&mut g, p.en);
    let mut sim = Sim::new(&g);

    let set = |sim: &mut Sim, d: bool, e: bool| {
        sim.set_lever(d1, d);
        sim.set_lever(e1, e);
        let (t, ok) = sim.run_until_stable(5000);
        assert!(ok, "did not settle after {t} ticks (d={d} e={e})");
    };

    set(&mut sim, true, true);
    assert!(sim.field().dust_at(q) > 0, "Q must be high when D=1 and enabled");
    set(&mut sim, false, true);
    assert!(sim.field().dust_at(q) == 0, "Q must be low when D=0 and enabled");
    set(&mut sim, true, true);
    assert!(sim.field().dust_at(q) > 0, "Q must return high when D goes back to 1");

    // Opaque: drop the enable, then change D. Q must not move.
    set(&mut sim, false, false);
    let held = sim.field().dust_at(q) > 0;
    set(&mut sim, true, false);
    assert_eq!(sim.field().dust_at(q) > 0, held, "Q must hold once disabled");
}

#[test]
fn dff_samples_on_the_clock_edge() {
    let mut g = Grid::new();
    let p = stamp_dff(&mut g, (0, 0, 0)).unwrap();
    let (q, dfs, cfs, rfs) = (p.q, p.d_feeds.clone(), p.clk_feeds.clone(), p.clr_feeds.clone());
    let dl: Vec<Pos> = dfs.iter().map(|&f| drive(&mut g, f)).collect();
    let cl: Vec<Pos> = cfs.iter().map(|&f| drive(&mut g, f)).collect();
    let rl: Vec<Pos> = rfs.iter().map(|&f| drive(&mut g, f)).collect();
    // The second clock phase. Driven as the exact complement here; keeping
    // the two non-overlapping is the clock distribution's job.
    let nl: Vec<Pos> = p.clk_n_feeds.iter().map(|&f| drive(&mut g, f)).collect();
    let mut sim = Sim::new(&g);

    let apply = |sim: &mut Sim, d: bool, c: bool| {
        for &l in &dl {
            sim.set_lever(l, d);
        }
        for &l in &cl {
            sim.set_lever(l, c);
        }
        for &l in &nl {
            sim.set_lever(l, !c);
        }
        let (t, ok) = sim.run_until_stable(20000);
        assert!(ok, "did not settle after {t} ticks (d={d} clk={c})");
    };

    // The master is transparent while the clock is high and the slave while
    // it is low, so Q updates on the falling edge.
    let hi = |sim: &Sim| sim.field().dust_at(q) > 0;

    // Pulse the asynchronous reset. This is how the built circuit is put
    // into a known state: the `lit=`/`powered=` chosen at stamp time does
    // not survive `.mcfunction` placement, because the game re-evaluates
    // every torch and repeater as its neighbours are placed.
    let pulse_reset = |sim: &mut Sim| {
        for &l in &rl {
            sim.set_lever(l, true);
        }
        assert!(sim.run_until_stable(20000).1, "reset did not settle");
        for &l in &rl {
            sim.set_lever(l, false);
        }
        assert!(sim.run_until_stable(20000).1, "reset release did not settle");
    };
    pulse_reset(&mut sim);
    assert!(!hi(&sim), "Q must be low after a reset pulse");

    // Reset must clear a *stored* 1, with the clock idle. Reset is pulsed
    // with the clock low on purpose: the master is transparent while the
    // clock is high, so releasing reset there just reloads D immediately -
    // correct for an asynchronous clear, and not a useful thing to assert.
    apply(&mut sim, true, true);
    apply(&mut sim, true, false);
    assert!(hi(&sim), "precondition: a 1 is stored");
    apply(&mut sim, false, false);
    pulse_reset(&mut sim);
    assert!(!hi(&sim), "a reset pulse must clear a stored 1");

    // And it must clear the master too, not just the slave: if the master
    // still held the 1, the next edge would shift it straight back in.
    apply(&mut sim, false, true);
    apply(&mut sim, false, false);
    assert!(!hi(&sim), "reset must clear the master, not only the slave");

    // Now clock a 0 in the ordinary way and confirm it agrees.
    apply(&mut sim, false, true);
    apply(&mut sim, false, false);
    assert!(!hi(&sim), "Q must be low after clocking in a 0");

    // Clock a 1 through.
    apply(&mut sim, true, true);
    apply(&mut sim, true, false);
    assert!(hi(&sim), "Q must be high after clocking in a 1");

    // Drop D with the clock idle. Q must NOT follow.
    apply(&mut sim, false, false);
    assert!(hi(&sim), "Q must hold between clock edges, not follow D");

    // Clock the 0 through. Asserted absolutely: the previous `assert_ne!`
    // against the earlier reading would have accepted any change at all,
    // and the bug this guards was the latch being wired inverted.
    apply(&mut sim, false, true);
    apply(&mut sim, false, false);
    assert!(!hi(&sim), "Q must take the 0 on the next edge");

    // And a 1 again, so the test covers both capture directions.
    apply(&mut sim, true, true);
    apply(&mut sim, true, false);
    assert!(hi(&sim), "Q must capture a 1 after having held a 0");
}

/// A run longer than the dust budget must still deliver full strength.
#[test]
fn long_runs_are_repeated() {
    let mut g = Grid::new();
    g.force((0, plane::IN - 1, 0), Block::Solid(Material::Wire));
    g.force((0, plane::IN, 0), Block::Lever { face: Face::Floor, facing: Dir::North, powered: true });
    run_x(&mut g, plane::IN, 0, 0, 40, Material::Wire, &mut Budget::fresh()).unwrap();

    let mut sim = Sim::new(&g);
    settle(&mut sim);
    assert!(
        sim.field().dust_at((40, plane::IN, 0)) > 0,
        "40-block run should survive via inserted repeaters"
    );
}
