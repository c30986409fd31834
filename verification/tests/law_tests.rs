use flate2::read::GzDecoder;
use ohmc::ast::Program;
use ohmc::bitblast::{blast, blast_combinational};
use ohmc::floorplan::levelize;
use ohmc::ir::{Design, Node};
use ohmc::layout::{build, build_with, place_register_bank};
use ohmc::lower::lower_program;
use ohmc::machine::{run_design, Machine};
use ohmc::nbt::{write_root, write_varint, Tag};
use ohmc::netlist::{GateSim, Netlist};
use ohmc::parser::parse;
use ohmc::paths::{first_conflict, plan_repeaters};
use ohmc::redstone::{Sim, BURNOUT_WINDOW};
use ohmc::route::{Router, Tuning};
use ohmc::schem::Schematic;
use ohmc::structure::{to_mcfunction, Structure};
use ohmc::tech::{stamp_nor, stamp_rs_latch};
use ohmc::world::{down, offset, up, Block, Dir, Face, Grid, Material, Pos};
use std::io::Read;

const COUNT: &str = "input u4 a; output u4 q; \
                     proc main() { var u4 x = a; q = 0; while (x != 0) { x = x - 1; q = q + 3; } }";

#[test]
fn gates_follow_the_golden_model_cycle_by_cycle() {
    let d = lower_program(&parse(COUNT).unwrap()).unwrap();
    let net = blast(&d);
    let mut gates = GateSim::new(&net);
    let mut golden = Machine::new(&d);
    gates.step(&[5], true);
    for _ in 0..40 {
        assert_eq!(gates.read_output("q", &[5], false), golden.output(&d, "q").unwrap());
        golden.step(&d, &[5]);
        gates.step(&[5], false);
    }
    assert_eq!(golden.output(&d, "q").unwrap(), 15);
}

#[test]
fn a_halted_machine_stays_as_it_is() {
    let d = lower_program(&parse(COUNT).unwrap()).unwrap();
    let (mut m, cycles) = run_design(&d, &[("a", 5)], 1000).unwrap();
    let q = m.output(&d, "q");
    m.step(&d, &[9]);
    assert_eq!(m.output(&d, "q"), q);
    assert_eq!(m.cycles, cycles, "a halted machine counts no cycles");
}

#[test]
fn combinational_netlists_show_what_the_machine_ends_with() {
    let src = "input u4 a; input u4 b; output u4 q; proc main() { q = (a * b) ^ (a << 1); }";
    let d = lower_program(&parse(src).unwrap()).unwrap();
    let net = blast_combinational(&d).unwrap();
    let sim = GateSim::new(&net);
    for (a, b) in [(0, 0), (3, 5), (15, 15), (9, 7)] {
        let (m, _) = run_design(&d, &[("a", a), ("b", b)], 10).unwrap();
        assert_eq!(sim.read_output("q", &[a, b], false), m.output(&d, "q").unwrap());
    }
}

#[test]
fn directions_lead_there_and_back() {
    for d in Dir::ALL {
        assert_eq!(d.opposite().opposite(), d);
        assert_eq!(offset(offset((3, 4, 5), d), d.opposite()), (3, 4, 5));
    }
    assert_eq!(up(down((3, 4, 5))), (3, 4, 5));
}

#[test]
fn varints_read_back() {
    for v in [0u32, 127, 128, 16383, 16384, u32::MAX] {
        let mut bytes = Vec::new();
        write_varint(&mut bytes, v);
        let mut got = 0u64;
        for (i, b) in bytes.iter().enumerate() {
            got |= ((b & 0x7f) as u64) << (7 * i);
            assert_eq!(b & 0x80 != 0, i + 1 < bytes.len());
        }
        assert_eq!(got, v as u64);
    }
}

#[test]
fn schematics_unpack_to_their_tags() {
    let mut g = Grid::new();
    g.force((0, 0, 0), Block::Solid(Material::Gate));
    g.force((0, 1, 0), Block::Dust { power: 0 });
    let s = Schematic::from_grid(&g);
    let bytes = s.to_bytes().unwrap();
    let mut raw = Vec::new();
    GzDecoder::new(&bytes[..]).read_to_end(&mut raw).unwrap();
    assert_eq!(raw, write_root("", &s.to_nbt()));
    assert_ne!(raw, bytes);
    assert_eq!(s.volume(), 2);
}

#[test]
fn structures_unpack_to_their_tags() {
    let mut g = Grid::new();
    g.force((0, 0, 0), Block::Lamp { lit: false });
    let s = Structure::from_grid(&g);
    let bytes = s.to_bytes().unwrap();
    let mut raw = Vec::new();
    GzDecoder::new(&bytes[..]).read_to_end(&mut raw).unwrap();
    assert_eq!(raw, write_root("", &s.to_nbt()));
}

#[test]
fn functions_place_solid_blocks_before_dust() {
    let mut g = Grid::new();
    g.force((2, 5, 3), Block::Solid(Material::Gate));
    g.force((2, 6, 3), Block::Dust { power: 0 });
    let text = to_mcfunction(&g, (0, 1, 0));
    let lines: Vec<&str> = text.lines().filter(|l| l.starts_with("setblock")).collect();
    assert_eq!(lines.len(), 2);
    assert_eq!(lines[0], "setblock ~0 ~1 ~0 minecraft:stone");
    assert!(lines[1].starts_with("setblock ~0 ~2 ~0 minecraft:redstone_wire"));
}

#[test]
fn a_settled_circuit_stays_settled() {
    let mut g = Grid::new();
    let cell = stamp_nor(&mut g, (0, 0, 0), 1).unwrap();
    let mut sim = Sim::new(&g);
    assert!(sim.run_until_stable(50).1);
    let before = sim.field().dust_at(cell.out);
    sim.step();
    assert_eq!(sim.field().dust_at(cell.out), before);
    assert_eq!(before, 15, "nothing drives the cell, so it is high");
}

#[test]
fn collisions_name_both_blocks() {
    let mut g = Grid::new();
    g.set((1, 2, 3), Block::Dust { power: 0 }).unwrap();
    g.set((1, 2, 3), Block::Dust { power: 0 }).unwrap();
    assert_eq!(
        g.set((1, 2, 3), Block::Solid(Material::Wire)).unwrap_err(),
        "block collision at (1, 2, 3): tried to place Solid(Wire) over Dust { power: 0 }"
    );
    g.clear((1, 2, 3));
    assert!(g.is_free((1, 2, 3)));
}

#[test]
fn straight_paths_have_no_conflict_and_are_refreshed() {
    let path: Vec<Pos> = (0..30).map(|z| (0, 0, z)).collect();
    assert_eq!(first_conflict(&path), None);
    let sites = plan_repeaters(&path, 0).unwrap();
    let mut last = 0;
    for s in sites {
        assert!(s - last <= 14, "a run of {} blocks without a refresh", s - last);
        last = s;
    }
    assert!(29 - last <= 14);
}

/// Wires of two routed nets never join.
#[test]
fn routed_nets_stay_apart() {
    let g0 = Grid::new();
    let mut g = Grid::new();
    let mut r = Router::from_grid(&g0);
    let ends: [(u32, Pos, Pos); 3] = [
        (1, (0, 0, 5), (12, 0, 5)),
        (2, (5, 0, 0), (5, 0, 12)),
        (3, (8, 0, 0), (8, 0, 12)),
    ];
    let bounds = ((-40, -20, -40), (40, 20, 40));
    for (net, a, b) in ends {
        for p in [a, b] {
            g.force(down(p), Block::Solid(Material::Wire));
            g.force(p, Block::Dust { power: 0 });
            r.claim(p, net);
        }
    }
    for (net, a, b) in ends {
        r.route(&mut g, net, &[a], b, bounds, Material::Wire, 0).unwrap();
    }
    let cells = r.owners().positions();
    for &p in &cells {
        for &q in &cells {
            let level = (p.0 - q.0).abs() + (p.2 - q.2).abs();
            if level == 1 && (p.1 - q.1).abs() <= 1 {
                assert_eq!(r.owners().get(p), r.owners().get(q), "{p:?} joins {q:?}");
            }
        }
    }
}

#[test]
fn ripping_up_leaves_the_ends() {
    let mut g = Grid::new();
    let mut r = Router::from_grid(&g);
    for p in [(0, 0, 0), (0, 0, 6)] {
        g.force(down(p), Block::Solid(Material::Wire));
        g.force(p, Block::Dust { power: 0 });
        r.claim(p, 7);
    }
    let bounds = ((-40, -20, -40), (40, 20, 40));
    r.route(&mut g, 7, &[(0, 0, 0)], (0, 0, 6), bounds, Material::Wire, 0).unwrap();
    assert_eq!(r.owners().len(), 7);
    let gone = r.rip(&mut g, 7);
    assert_eq!(gone.len(), 5);
    assert_eq!(r.owners().len(), 2);
    assert!(g.is_free((0, 0, 3)));
    assert!(!g.is_free((0, 0, 6)));
}

#[test]
fn levels_count_gates_from_the_leaves() {
    let mut net = Netlist::new();
    let a = net.input(0, 0);
    let b = net.input(0, 1);
    let n = net.nor(&[a, b]);
    let m = net.nor(&[a, n]);
    let level = levelize(&net);
    assert_eq!(level[a as usize], 0);
    assert_eq!(level[n as usize], 1);
    assert_eq!(level[m as usize], 2);
}

#[test]
fn layouts_report_their_ports() {
    let mut net = Netlist::new();
    let a = net.input(1, 0);
    let b = net.input(0, 1);
    let c = net.input(0, 0);
    let n = net.nor(&[a, b, c]);
    net.outputs.push(("q".into(), vec![n]));
    let l = build(&net).unwrap();
    assert_eq!(l.gates, 1);
    assert_eq!(l.levels, 2);
    assert_eq!(l.flops, 0);
    assert!(l.clk_lever.is_none() && l.net_reset_lever.is_none());
    // Levers stand three apart in the order of their signals, the constant first.
    assert_eq!(l.input_levers.len(), 2);
    assert_eq!(l.input_levers[0], ("port0".to_string(), vec![(9, 6, -4), (6, 6, -4)]));
    assert_eq!(l.input_levers[1], ("port1".to_string(), vec![(3, 6, -4)]));
    // The cell wants to stand in the middle of its drivers.
    let (out, feeds) = &l.gate_cells[&n];
    assert_eq!(*out, (6, -6, 2));
    assert_eq!(*feeds, vec![(6, -5, -2), (8, -5, -2), (10, -5, -2)]);
    assert_eq!(l.output_lamps, vec![("q".to_string(), vec![(0, -11, 14)])]);
    assert_eq!(l.wire_owner.get(*out), Some(&n));
}

#[test]
fn unroutable_layouts_say_what_failed() {
    let mut net = Netlist::new();
    let a = net.input(0, 0);
    let n = net.nor(&[a]);
    net.outputs.push(("q".into(), vec![n]));
    let usual = Tuning::usual();
    let none = Tuning { attempts: 0, ..usual };
    let e = match build_with(&net, none) {
        Ok(_) => panic!("placed without routing"),
        Err(e) => e,
    };
    assert!(e.contains("no attempt made"), "{e}");
    assert!(e.contains(&format!("net {a} into gate {n} input 0: no attempt made")), "{e}");
}

/// A circuit without state must not remember what its inputs were.
#[test]
fn a_placed_half_adder_has_no_memory() {
    let src = "input u1 a; input u1 b; output u1 s; output u1 c; \
               proc main() { s = a ^ b; c = a & b; }";
    let d = lower_program(&parse(src).unwrap()).unwrap();
    let net = blast_combinational(&d).unwrap();
    let l = build(&net).unwrap();
    let levers: Vec<Pos> = l.input_levers.iter().flat_map(|(_, v)| v.clone()).collect();
    let lamps: Vec<Pos> = l.output_lamps.iter().flat_map(|(_, v)| v.clone()).collect();
    let mut sim = Sim::new(&l.grid);
    for v in [0u32, 1, 2, 3, 3, 2, 1, 0] {
        for (b, &p) in levers.iter().enumerate() {
            sim.set_lever(p, (v >> b) & 1 == 1);
        }
        assert!(sim.run_until_stable(20000).1);
        let (a, b) = (v & 1, v >> 1);
        assert_eq!(sim.lamp_lit(lamps[0]), a ^ b == 1, "sum of {v}");
        assert_eq!(sim.lamp_lit(lamps[1]), a & b == 1, "carry of {v}");
    }
}

#[test]
fn assignments_take_effect_in_order() {
    let src = "input u8 a; input u8 b; output u8 q; output u8 r; output u1 t; \
               proc main() { var u8 x = a; var u8 y = b; x = y; y = x; q = y; r = x + 1; \
               t = (x == y) && !(a == b); }";
    let d = lower_program(&parse(src).unwrap()).unwrap();
    assert_eq!(d.blocks.len(), 1, "one cycle");
    let (m, _) = run_design(&d, &[("a", 3), ("b", 9)], 10).unwrap();
    assert_eq!(m.output(&d, "q"), Some(9));
    assert_eq!(m.output(&d, "r"), Some(10));
    assert_eq!(m.output(&d, "t"), Some(1));
}

#[test]
fn conditions_are_true_unless_zero() {
    let src = "input u8 a; output u8 q; proc main() { q = a ? 7 : 9; if (a) { q = q + 1; } }";
    let d = lower_program(&parse(src).unwrap()).unwrap();
    for (a, q) in [(0, 9), (1, 8), (128, 8)] {
        let (m, _) = run_design(&d, &[("a", a)], 10).unwrap();
        assert_eq!(m.output(&d, "q"), Some(q), "a = {a}");
    }
}

#[test]
fn expressions_wrap_at_their_widths() {
    let src = "input u4 a; output u4 n; output u4 s; output u4 m; output u8 w; \
               proc main() { n = -a; s = a << 2; m = a * a - 1; w = (a as u8) * 16; }";
    let d = lower_program(&parse(src).unwrap()).unwrap();
    let (m, _) = run_design(&d, &[("a", 11)], 10).unwrap();
    assert_eq!(m.output(&d, "n"), Some(5));
    assert_eq!(m.output(&d, "s"), Some(12));
    assert_eq!(m.output(&d, "m"), Some(8));
    assert_eq!(m.output(&d, "w"), Some(176));
}

#[test]
fn negating_twice_gives_the_same_id() {
    let mut d = Design::new();
    d.add_input("a", 8);
    let a = d.input(0);
    let n = d.not(a);
    assert_eq!(d.width(n), 8);
    assert_eq!(d.not(n), a);
    assert_eq!(d.not(a), n);
    let c = d.constant(0x0f, 8);
    let m = d.not(c);
    assert_eq!(d.node(m), Node::Const { value: 0xf0, width: 8 });
    let count = d.node_count();
    assert_eq!(d.not(m), c);
    assert_eq!(d.node_count(), count);
}

#[test]
fn sums_do_not_depend_on_the_order() {
    let mut d = Design::new();
    d.add_input("a", 8);
    d.add_input("b", 8);
    let (a, b) = (d.input(0), d.input(1));
    let s = d.add(b, a);
    let count = d.node_count();
    assert_eq!(d.add(a, b), s);
    assert_eq!(d.node_count(), count);
    assert_eq!(d.width(s), 8);
    let (x, y) = (d.constant(200, 8), d.constant(100, 8));
    let z = d.add(x, y);
    assert_eq!(d.node(z), Node::Const { value: 44, width: 8 });
    let (p, q) = (d.xor(a, b), d.eq(a, b));
    assert_eq!((d.xor(b, a), d.eq(b, a)), (p, q));
}

/// A torch that switches itself off: it powers the block above it, that block the dust
/// on its support.
#[test]
fn a_burned_out_torch_recovers() {
    let mut g = Grid::new();
    g.force((0, 0, 0), Block::Solid(Material::Gate));
    g.force((0, 0, 1), Block::WallTorch { facing: Dir::South, lit: true });
    g.force((0, 1, 1), Block::Solid(Material::Gate));
    g.force((0, 1, 0), Block::Dust { power: 0 });
    let torch = (0, 0, 1);
    let mut sim = Sim::new(&g);
    let mut seen = false;
    for _ in 0..60 {
        sim.step();
        if sim.burned_out().contains(&torch) {
            seen = true;
            break;
        }
    }
    assert!(seen, "the loop burns the torch out");
    let mut steps = 0;
    while sim.burned_out().contains(&torch) {
        assert!(!*sim.state.torch_lit.get(torch).unwrap(), "unlit while burned out");
        sim.step();
        steps += 1;
        assert!(steps <= BURNOUT_WINDOW + 1, "burnout outlasts its window");
    }
}

#[test]
fn a_nul_takes_two_bytes() {
    let t = Tag::String("a\0b".into());
    assert_eq!(
        write_root("", &t),
        vec![8, 0, 0, 0, 4, b'a', 0xc0, 0x80, b'b']
    );
}

#[test]
fn copies_are_alike() {
    let mut g = Grid::new();
    let cell = stamp_nor(&mut g, (0, 0, 0), 2).unwrap();
    let h = g.clone();
    assert_eq!(h.iter(), g.iter());
    let copy = cell.clone();
    assert_eq!((copy.feeds, copy.out, copy.width), (cell.feeds, cell.out, cell.width));
    let t = Tag::Compound(vec![("k".into(), Tag::List(3, vec![Tag::Int(7)]))]);
    assert_eq!(write_root("r", &t.clone()), write_root("r", &t));
    let p = parse(COUNT).unwrap();
    let d = lower_program(&p.clone()).unwrap();
    assert_eq!(d.node_count(), lower_program(&p).unwrap().node_count());
    let mut sim = Sim::new(&g);
    sim.step();
    let state = sim.state.clone();
    assert_eq!(state.tick, sim.state.tick);
    assert_eq!(state.torch_lit.get((0, 0, 1)), sim.state.torch_lit.get((0, 0, 1)));
    let mut r = Router::from_grid(&g);
    r.claim((9, 9, 9), 4);
    assert_eq!(r.clone().owners().get((9, 9, 9)), Some(&4));
}

#[test]
fn defaults_are_empty() {
    assert_eq!(Netlist::default().sigs.len(), 0);
    assert_eq!(Design::default().node_count(), 0);
    assert_eq!(Program::default().funcs.len(), 0);
}

/// Can `left` more repeaters carry a signal that was restored at step `from` to the end?
fn carries(path: &[Pos], legal: &[usize], from: i32, left: usize) -> bool {
    let end = path.len() as i32 - 1;
    if end - from < 13 {
        return true;
    }
    left > 0
        && legal
            .iter()
            .any(|&s| s as i32 > from && s as i32 - from <= 13 && carries(path, legal, s as i32, left - 1))
}

#[test]
fn no_plan_has_fewer_repeaters() {
    // A staircase of corners and straights: few sites are legal.
    let mut path: Vec<Pos> = vec![(0, 0, 0)];
    for leg in 0..9 {
        for _ in 0..(3 + leg % 4) {
            let (x, y, z) = *path.last().unwrap();
            path.push(if leg % 2 == 0 { (x + 1, y, z) } else { (x, y, z + 1) });
        }
    }
    let legal: Vec<usize> = (1..path.len() - 1)
        .filter(|&i| {
            let (a, b, c) = (path[i - 1], path[i], path[i + 1]);
            c.0 - b.0 == b.0 - a.0 && c.2 - b.2 == b.2 - a.2
        })
        .collect();
    for decay in 0..13 {
        let sites = plan_repeaters(&path, decay).unwrap();
        assert!(carries(&path, &legal, -decay, sites.len()));
        assert!(!carries(&path, &legal, -decay, sites.len() - 1));
    }
}

#[test]
fn a_latch_holds_what_it_was_given() {
    let mut g = Grid::new();
    let (set, reset, clr, q, q_not) = stamp_rs_latch(&mut g, (0, 0, 0)).unwrap();
    // The repeaters that the laws of the latch speak of stand where they say.
    for (p, facing) in [((6, 1, 5), Dir::North), ((-3, 1, 8), Dir::South)] {
        assert!(matches!(g.get(p), Block::Repeater { facing: f, .. } if f == facing));
    }
    let levers: Vec<Pos> = [set, reset, clr]
        .iter()
        .map(|&(x, y, z)| {
            g.force((x, y - 1, z), Block::Solid(Material::Wire));
            g.force((x, y, z), Block::Dust { power: 0 });
            g.force((x, y - 1, z - 1), Block::Solid(Material::PortIn));
            let lever = (x, y, z - 1);
            g.force(lever, Block::Lever { face: Face::Floor, facing: Dir::North, powered: false });
            lever
        })
        .collect();
    let mut sim = Sim::new(&g);
    let inputs = [true, false, true, true, false, false, true];
    for (turn, &up) in inputs.iter().enumerate() {
        let lever = if up { levers[0] } else { levers[1 + turn % 2] };
        for on in [true, false] {
            sim.set_lever(lever, on);
            assert!(sim.run_until_stable(5000).1);
            let f = sim.field();
            assert_eq!(f.dust_at(q), if up { 15 } else { 0 }, "turn {turn}");
            assert_eq!(f.dust_at(q_not), if up { 0 } else { 15 }, "turn {turn}");
        }
        sim.run(BURNOUT_WINDOW);
    }
    // Reset wins over set.
    sim.set_lever(levers[0], true);
    sim.set_lever(levers[1], true);
    assert!(sim.run_until_stable(5000).1);
    assert_eq!((sim.field().dust_at(q), sim.field().dust_at(q_not)), (0, 0));
}

#[test]
fn a_bank_beyond_the_edge_is_refused() {
    let mut g = Grid::new();
    let e = place_register_bank(&mut g, (0x1000_0000, 0, 0), 1).err().unwrap();
    assert_eq!(e, "register 0: circuit is too large to place");
    assert!(place_register_bank(&mut g, (0x1000_0000, 0, 0), 0).is_ok());
    assert!(place_register_bank(&mut g, (0x0fff_0000, 0, 0), 1).is_ok());
}
