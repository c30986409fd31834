use ohmc::bitblast::blast_combinational;
use ohmc::layout::{build, place_register_bank};
use ohmc::lower::lower_program;
use ohmc::netlist::{GateSim, Netlist, Sig};
use ohmc::parser::parse;
use ohmc::redstone::Sim;
use ohmc::schem::Schematic;
use ohmc::world::{Block, Dir, Face, Grid, Material, Pos};
use std::collections::HashMap;

/// Build a tiny netlist, place it, and check the redstone computes the
/// same function the gates do.
fn check(build_fn: impl Fn(&mut Netlist, &[Sig]) -> Sig, arity: u32) {
    let mut net = Netlist::new();
    let ins: Vec<Sig> = (0..arity).map(|i| net.input(0, i)).collect();
    let out = build_fn(&mut net, &ins);
    net.outputs.push(("q".into(), vec![out]));

    let layout = build(&net).expect("layout");
    let mut sim = Sim::new(&layout.grid);
    let levers = &layout.input_levers[0].1;
    let lamp = layout.output_lamps[0].1[0];

    for v in 0..(1u32 << arity) {
        for (i, &l) in levers.iter().enumerate() {
            sim.set_lever(l, (v >> i) & 1 == 1);
        }
        let (_, stable) = sim.run_until_stable(400);
        assert!(stable, "did not settle for input {v:0width$b}", width = arity as usize);

        let gsim = GateSim::new(&net);
        let expect = gsim.eval(&[v as u64], false)[out as usize];
        assert_eq!(sim.lamp_lit(lamp), expect, "input {v:0width$b}", width = arity as usize);
    }
}

#[test]
fn inverter_lays_out_and_runs() {
    check(|n, i| n.not(i[0]), 1);
}

#[test]
fn ohm_source_compiles_to_working_redstone() {
    let src = "input u1 a; output u1 q; proc main() { q = !a; }";
    let design = lower_program(&parse(src).unwrap()).unwrap();
    let net = blast_combinational(&design).unwrap();
    let layout = build(&net).expect("placement");

    // The same artifact a user would paste into WorldEdit.
    let schem = Schematic::from_grid(&layout.grid);
    let bytes = schem.to_bytes().unwrap();
    assert_eq!(&bytes[..2], &[0x1f, 0x8b], "schematic is gzip");
    assert!(schem.palette.iter().any(|p| p.starts_with("minecraft:redstone_wall_torch")));
    assert!(schem.palette.iter().any(|p| p.starts_with("minecraft:repeater")));

    let mut sim = Sim::new(&layout.grid);
    let lever = layout.input_levers[0].1[0];
    let lamp = layout.output_lamps[0].1[0];
    for a in [false, true] {
        sim.set_lever(lever, a);
        let (_, stable) = sim.run_until_stable(400);
        assert!(stable, "redstone did not settle for a={a}");
        assert_eq!(sim.lamp_lit(lamp), !a, "compiled circuit must invert (a={a})");
    }
}

#[test]
fn two_input_gates_lay_out_and_run() {
    check(|n, i| n.and(i[0], i[1]), 2);
    check(|n, i| n.or(i[0], i[1]), 2);
    check(|n, i| n.xor(i[0], i[1]), 2);
}

#[test]
fn three_input_logic_lays_out_and_runs() {
    check(|n, i| n.maj3(i[0], i[1], i[2]), 3);
    check(|n, i| n.xor3(i[0], i[1], i[2]), 3);
}

fn drive(g: &mut Grid, feed: Pos) -> Pos {
    let (x, y, z) = feed;
    g.force((x, y - 1, z), Block::Solid(Material::Wire));
    g.force((x, y, z), Block::Dust { power: 0 });
    g.force((x, y - 1, z - 1), Block::Solid(Material::Wire));
    g.force((x, y, z - 1), Block::Dust { power: 0 });
    let l = (x, y, z - 2);
    g.force((x, y - 1, z - 2), Block::Solid(Material::PortIn));
    g.force(l, Block::Lever { face: Face::Floor, facing: Dir::North, powered: false });
    l
}

#[test]
fn register_bank_holds_independent_values() {
    let mut g = Grid::new();
    let bank = place_register_bank(&mut g, (0, 0, 0), 3).unwrap();
    assert_eq!(bank.flops.len(), 3);

    let d: Vec<Vec<Pos>> = bank
        .flops
        .iter()
        .map(|f| f.d_feeds.iter().map(|&p| drive(&mut g, p)).collect())
        .collect();
    let clk: Vec<Pos> =
        bank.flops.iter().flat_map(|f| f.clk_feeds.clone()).map(|p| drive(&mut g, p)).collect();
    let clkn: Vec<Pos> =
        bank.flops.iter().flat_map(|f| f.clk_n_feeds.clone()).map(|p| drive(&mut g, p)).collect();
    let rst: Vec<Pos> =
        bank.flops.iter().flat_map(|f| f.clr_feeds.clone()).map(|p| drive(&mut g, p)).collect();

    let mut sim = Sim::new(&g);
    let set_all = |sim: &mut Sim, ls: &[Pos], v: bool| {
        for &l in ls {
            sim.set_lever(l, v);
        }
    };

    set_all(&mut sim, &clk, false);
    set_all(&mut sim, &clkn, true);
    set_all(&mut sim, &rst, true);
    assert!(sim.run_until_stable(20000).1, "reset did not settle");
    set_all(&mut sim, &rst, false);
    assert!(sim.run_until_stable(20000).1, "reset release did not settle");
    for (i, f) in bank.flops.iter().enumerate() {
        assert_eq!(sim.field().dust_at(f.q), 0, "register {i} not cleared by reset");
    }

    // Load 1, 0, 1 and clock once.
    let pattern = [true, false, true];
    for (i, &v) in pattern.iter().enumerate() {
        set_all(&mut sim, &d[i], v);
    }
    set_all(&mut sim, &clk, true);
    set_all(&mut sim, &clkn, false);
    assert!(sim.run_until_stable(20000).1, "clock high did not settle");
    set_all(&mut sim, &clk, false);
    set_all(&mut sim, &clkn, true);
    assert!(sim.run_until_stable(20000).1, "clock low did not settle");
    for (i, &v) in pattern.iter().enumerate() {
        assert_eq!(
            sim.field().dust_at(bank.flops[i].q) > 0,
            v,
            "register {i} holds the wrong bit; the bank is coupling"
        );
    }
}

#[test]
fn sequential_netlists_place() {
    let mut net = Netlist::new();
    let (idx, q) = net.add_dff("r");
    let nq = net.nor(&[q]);
    net.set_dff_d(idx, nq);
    net.outputs.push(("q".into(), vec![q]));

    let layout = build(&net).expect("sequential netlist must place");
    assert_eq!(layout.flops, 1, "the register bank should hold one flop");
    assert!(layout.clk_lever.is_some(), "a clocked design needs a clock lever");
    assert!(layout.rst_lever.is_some(), "a clocked design needs a reset lever");
    assert!(!layout.grid.is_empty(), "placement produced no blocks");
}

/// A circuit without state must read the same however its inputs got there.
#[test]
fn placed_logic_is_history_independent() {
    let src = "input u2 a; input u2 b; output u2 s; proc main() { s = a + b; }";
    let prog = parse(src).unwrap();
    let design = lower_program(&prog).unwrap();
    let net = blast_combinational(&design).unwrap();
    let lay = build(&net).unwrap();

    let levers: Vec<Pos> = lay.input_levers.iter().flat_map(|(_, v)| v.clone()).collect();
    let lamps: Vec<Pos> = lay.output_lamps.iter().flat_map(|(_, v)| v.clone()).collect();
    let n = 1usize << levers.len();

    let mut sim = Sim::new(&lay.grid);
    let sweep = |sim: &mut Sim, order: Vec<usize>| -> Vec<(usize, usize)> {
        let mut out = Vec::new();
        for v in order {
            for (b, &l) in levers.iter().enumerate() {
                sim.set_lever(l, (v >> b) & 1 == 1);
            }
            assert!(sim.run_until_stable(20000).1, "case {v} did not settle");
            let f = sim.field();
            let got = lamps
                .iter()
                .enumerate()
                .fold(0usize, |a, (i, &p)| a | ((f.block_powered(p) as usize) << i));
            out.push((v, got));
        }
        out
    };

    let gs = GateSim::new(&net);
    let expect = |v: usize| -> usize {
        let (mut vals, mut rest) = (Vec::new(), v as u64);
        for p in &design.inputs {
            vals.push(rest & ((1u64 << p.width) - 1));
            rest >>= p.width;
        }
        let mut got = 0usize;
        let mut bit = 0;
        for (name, sigs) in &net.outputs {
            let val = gs.read_output(name, &vals, false);
            for k in 0..sigs.len() {
                got |= (((val >> k) & 1) as usize) << bit;
                bit += 1;
            }
        }
        got
    };

    let up = sweep(&mut sim, (0..n).collect());
    let down = sweep(&mut sim, (0..n).rev().collect());
    let down: HashMap<usize, usize> = down.into_iter().collect();
    for (v, a) in up {
        assert_eq!(
            a, down[&v],
            "input {v} reads {a} on an ascending sweep and {} on a descending one; \
             the placed circuit is holding state it should not",
            down[&v]
        );
        assert_eq!(a, expect(v), "input {v}: placed circuit disagrees with the netlist");
    }
}
