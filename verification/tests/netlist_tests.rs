use ohmc::netlist::{GateSim, Netlist, Sig};

/// Evaluate a purely constant/1-input expression for all input assignments.
fn truth_table(build: impl Fn(&mut Netlist, &[Sig]) -> Sig, arity: u32) -> Vec<bool> {
    let mut n = Netlist::new();
    let ins: Vec<Sig> = (0..arity).map(|i| n.input(0, i)).collect();
    let out = build(&mut n, &ins);
    n.outputs.push(("o".into(), vec![out]));
    let sim = GateSim::new(&n);
    (0..(1u64 << arity))
        .map(|v| sim.eval(&[v], false)[out as usize])
        .collect()
}

#[test]
fn nor_of_nothing_is_true() {
    let mut n = Netlist::new();
    let s = n.nor(&[]);
    assert_eq!(s, n.one());
}

#[test]
fn basic_gates_have_correct_truth_tables() {
    assert_eq!(truth_table(|n, i| n.not(i[0]), 1), vec![true, false]);
    // Index order is b<<1 | a.
    assert_eq!(truth_table(|n, i| n.and(i[0], i[1]), 2), vec![false, false, false, true]);
    assert_eq!(truth_table(|n, i| n.or(i[0], i[1]), 2), vec![false, true, true, true]);
    assert_eq!(truth_table(|n, i| n.xor(i[0], i[1]), 2), vec![false, true, true, false]);
    assert_eq!(truth_table(|n, i| n.xnor(i[0], i[1]), 2), vec![true, false, false, true]);
    assert_eq!(
        truth_table(|n, i| n.nor(&[i[0], i[1]]), 2),
        vec![true, false, false, false]
    );
}

#[test]
fn mux_selects_correctly() {
    // c = bit0, t = bit1, f = bit2
    let table = truth_table(|n, i| n.mux(i[0], i[1], i[2]), 3);
    for v in 0..8u64 {
        let (c, t, f) = (v & 1 == 1, (v >> 1) & 1 == 1, (v >> 2) & 1 == 1);
        assert_eq!(table[v as usize], if c { t } else { f }, "v={v}");
    }
}

#[test]
fn maj3_and_xor3_match_a_full_adder() {
    let sum = truth_table(|n, i| n.xor3(i[0], i[1], i[2]), 3);
    let carry = truth_table(|n, i| n.maj3(i[0], i[1], i[2]), 3);
    for v in 0..8u64 {
        let bits = (v & 1) + ((v >> 1) & 1) + ((v >> 2) & 1);
        assert_eq!(sum[v as usize], bits % 2 == 1, "sum v={v}");
        assert_eq!(carry[v as usize], bits >= 2, "carry v={v}");
    }
}

#[test]
fn identical_gates_are_shared() {
    let mut n = Netlist::new();
    let a = n.input(0, 0);
    let b = n.input(0, 1);
    assert_eq!(n.nor(&[a, b]), n.nor(&[b, a]), "operand order is canonical");
    assert_eq!(n.and(a, b), n.and(a, b));
}

#[test]
fn constants_fold_through_nor() {
    let mut n = Netlist::new();
    let a = n.input(0, 0);
    let one = n.one();
    let zero = n.zero();
    assert_eq!(n.nor(&[a, one]), zero, "a true input forces the output low");
    assert_eq!(n.nor(&[a, zero]), n.nor(&[a]), "false inputs drop out");
}

#[test]
fn double_inversion_is_peepholed() {
    let mut n = Netlist::new();
    let a = n.input(0, 0);
    let na = n.not(a);
    assert_eq!(n.not(na), a);
}

#[test]
fn logic_depth_counts_gate_levels() {
    let mut n = Netlist::new();
    let a = n.input(0, 0);
    let b = n.not(a);
    let c = n.not(b);
    n.outputs.push(("o".into(), vec![c]));
    // not(not(a)) peepholes back to `a`, so depth is 0.
    assert_eq!(n.logic_depth(), 0);

    let mut n = Netlist::new();
    let a = n.input(0, 0);
    let b = n.input(0, 1);
    let g = n.and(a, b); // not, not -> nor  = 2 levels
    n.outputs.push(("o".into(), vec![g]));
    assert_eq!(n.logic_depth(), 2);
}
