use ohmc::circuits::{array_multiply, barrel_shift, ripple_add};
use ohmc::netlist::{GateSim, Netlist, Sig};

/// The number that signals stand for, least significant first.
fn number(val: &[bool], row: &[Sig]) -> u128 {
    row.iter().enumerate().map(|(i, &s)| (val[s as usize] as u128) << i).sum()
}

fn port(net: &mut Netlist, port: u32, bits: u32) -> Vec<Sig> {
    (0..bits).map(|b| net.input(port, b)).collect()
}

#[test]
fn every_signal_is_evaluated() {
    let mut n = Netlist::new();
    let a = n.input(0, 0);
    assert_eq!(GateSim::new(&n).eval(&[1], false), vec![true, false, true]);
    let x = n.not(a);
    assert_eq!(GateSim::new(&n).eval(&[1], false)[x as usize], false);
    assert_eq!(GateSim::new(&n).eval(&[0], false)[x as usize], true);
}

#[test]
fn the_shorter_operand_of_a_sum_is_filled_up() {
    for (wa, wb) in [(3, 5), (5, 3), (4, 4), (0, 2)] {
        let mut net = Netlist::new();
        let a = port(&mut net, 0, wa);
        let b = port(&mut net, 1, wb);
        let cin = net.input(2, 0);
        let (sum, carry) = ripple_add(&mut net, &a, &b, cin);
        assert_eq!(sum.len() as u32, wa.max(wb));
        let sim = GateSim::new(&net);
        for (x, y, c) in [(0, 0, 0), (5, 9, 1), (7, 31, 1), (31, 7, 0)] {
            let val = sim.eval(&[x, y, c], false);
            let got = number(&val, &sum) + ((val[carry as usize] as u128) << sum.len());
            assert_eq!(got, number(&val, &a) + number(&val, &b) + c as u128);
        }
    }
}

#[test]
fn products_are_cut_to_their_width() {
    let mut net = Netlist::new();
    let a = port(&mut net, 0, 4);
    let b = port(&mut net, 1, 3);
    let wide = array_multiply(&mut net, &a, &b, 7);
    let narrow = array_multiply(&mut net, &a, &b, 2);
    let sim = GateSim::new(&net);
    for (x, y) in [(0, 0), (15, 7), (9, 5), (3, 6)] {
        let val = sim.eval(&[x, y], false);
        assert_eq!(number(&val, &wide), (x * y) as u128);
        assert_eq!(number(&val, &narrow), ((x * y) % 4) as u128);
    }
}

#[test]
fn rows_of_any_length_are_shifted() {
    let mut net = Netlist::new();
    let mut a = port(&mut net, 0, 40);
    a.extend(port(&mut net, 1, 40));
    let s = port(&mut net, 2, 8);
    let left = barrel_shift(&mut net, &a, &s, 80, true);
    let right = barrel_shift(&mut net, &a, &s, 80, false);
    let odd = barrel_shift(&mut net, &a[..5].to_vec(), &s, 5, true);
    let sim = GateSim::new(&net);
    for amount in [0u64, 1, 39, 64, 79, 80, 127, 200] {
        let val = sim.eval(&[0x8123456789, 0xfedcba9876, amount], false);
        let x = number(&val, &a);
        let (l, r) = if amount < 80 {
            ((x << amount) & ((1 << 80) - 1), x >> amount)
        } else {
            (0, 0)
        };
        assert_eq!(number(&val, &left), l, "left by {amount}");
        assert_eq!(number(&val, &right), r, "right by {amount}");
        let small = if amount < 5 { ((x & 31) << amount) & 31 } else { 0 };
        assert_eq!(number(&val, &odd), small, "five bits by {amount}");
    }
}
