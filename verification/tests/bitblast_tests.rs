use ohmc::bitblast::blast;
use ohmc::ir::Design;
use ohmc::lower::lower_program;
use ohmc::machine::run_design;
use ohmc::netlist::{GateSim, Netlist};
use ohmc::parser::parse;

fn build(src: &str) -> (Design, Netlist) {
    let d = lower_program(&parse(src).unwrap()).unwrap();
    let n = blast(&d);
    (d, n)
}

/// Run the NOR netlist the way the hardware will: pulse reset, then clock
/// until `done`.
fn run_gates<'n>(
    d: &Design,
    n: &'n Netlist,
    inputs: &[(&str, u64)],
    budget: u64,
) -> GateSim<'n> {
    let mut vals = vec![0u64; d.inputs.len()];
    for (name, v) in inputs {
        let i = d.inputs.iter().position(|p| p.name == *name).unwrap();
        vals[i] = *v;
    }
    let mut sim = GateSim::new(n);
    sim.step(&vals, true); // reset: load the entry state
    for _ in 0..budget {
        if sim.done(&vals, false) {
            break;
        }
        sim.step(&vals, false);
    }
    sim
}

/// The core differential check: word-level golden model vs. gate netlist.
fn assert_matches(src: &str, inputs: &[(&str, u64)], out: &str) {
    let (d, n) = build(src);
    let (m, _) = run_design(&d, inputs, 200_000).unwrap();
    let expect = m.output(&d, out).unwrap();

    let sim = run_gates(&d, &n, inputs, 200_000);
    let mut vals = vec![0u64; d.inputs.len()];
    for (name, v) in inputs {
        let i = d.inputs.iter().position(|p| p.name == *name).unwrap();
        vals[i] = *v;
    }
    assert!(sim.done(&vals, false), "gate netlist did not halt for {inputs:?}");
    let got = sim.read_output(out, &vals, false);
    assert_eq!(got, expect, "gates disagree with golden model for {inputs:?}");
}

#[test]
fn adder_matches_golden_model() {
    let src = "input u8 a; input u8 b; output u8 q; proc main() { q = a + b; }";
    for (a, b) in [(0, 0), (1, 2), (200, 100), (255, 255), (128, 128)] {
        assert_matches(src, &[("a", a), ("b", b)], "q");
    }
}

#[test]
fn subtractor_matches_golden_model() {
    let src = "input u8 a; input u8 b; output u8 q; proc main() { q = a - b; }";
    for (a, b) in [(5, 3), (3, 5), (0, 1), (255, 255)] {
        assert_matches(src, &[("a", a), ("b", b)], "q");
    }
}

#[test]
fn comparisons_match_golden_model() {
    for op in ["<", "<=", ">", ">=", "==", "!="] {
        let src = format!(
            "input u8 a; input u8 b; output u1 q; proc main() {{ q = a {op} b; }}"
        );
        for (a, b) in [(0, 0), (1, 2), (2, 1), (255, 0), (0, 255), (7, 7)] {
            assert_matches(&src, &[("a", a), ("b", b)], "q");
        }
    }
}

#[test]
fn multiplier_matches_golden_model() {
    let src = "input u8 a; input u8 b; output u8 q; proc main() { q = a * b; }";
    for (a, b) in [(0, 5), (1, 1), (12, 12), (20, 20), (255, 3), (16, 16)] {
        assert_matches(src, &[("a", a), ("b", b)], "q");
    }
}

#[test]
fn barrel_shifter_matches_golden_model() {
    for op in ["<<", ">>"] {
        let src = format!(
            "input u8 a; input u8 b; output u8 q; proc main() {{ q = a {op} b; }}"
        );
        for b in 0..10u64 {
            assert_matches(&src, &[("a", 0b1011_0110), ("b", b)], "q");
        }
    }
}

#[test]
fn sequential_gcd_matches_golden_model() {
    let src = r#"
        input u8 a; input u8 b; output u8 q;
        fn gcd(u8 x, u8 y) -> u8 {
            while (y != 0) {
                if (x > y) { x = x - y; } else { y = y - x; }
            }
            return x;
        }
        proc main() { q = gcd(a, b); }
    "#;
    for (a, b) in [(48, 18), (17, 5), (36, 36), (100, 75), (13, 1)] {
        assert_matches(src, &[("a", a), ("b", b)], "q");
    }
}

#[test]
fn loop_accumulator_matches_golden_model() {
    let src = "input u8 a; output u8 q; \
               proc main() { var u8 n = a; var u8 acc = 0; \
                             while (n != 0) { acc = acc + n; n = n - 1; } q = acc; }";
    for a in [0, 1, 5, 10, 20] {
        assert_matches(src, &[("a", a)], "q");
    }
}

#[test]
fn one_hot_state_holds_exactly_one_bit() {
    let (d, n) = build(
        "input u8 a; output u8 q; \
         proc main() { var u8 x = a; while (x != 0) { x = x - 1; } q = x; }",
    );
    let vals = vec![3u64];
    let mut sim = GateSim::new(&n);
    sim.step(&vals, true);
    let nblocks = d.blocks.len();
    let first_state = n.dffs.iter().position(|f| f.name.starts_with("state.")).unwrap();
    for cycle in 0..40 {
        let hot = (0..nblocks).filter(|i| sim.q[first_state + i]).count();
        assert_eq!(hot, 1, "state must stay one-hot (cycle {cycle})");
        sim.step(&vals, false);
    }
}

#[test]
fn reset_returns_the_machine_to_entry() {
    let (d, n) = build("input u8 a; output u8 q; proc main() { q = a + 1; }");
    let vals = vec![7u64];
    let mut sim = GateSim::new(&n);
    sim.step(&vals, true);
    let first_state = n.dffs.iter().position(|f| f.name.starts_with("state.")).unwrap();
    assert!(sim.q[first_state + d.entry as usize], "reset selects the entry state");
}
