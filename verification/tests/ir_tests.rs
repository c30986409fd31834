use ohmc::ir::{Design, Node, NodeId};

#[test]
fn identical_expressions_are_shared() {
    let mut d = Design::new();
    let r = d.add_reg("x", 8);
    let a = d.reg(r);
    let k = d.constant(3, 8);
    let e1 = d.add(a, k);
    let e2 = d.add(a, k);
    assert_eq!(e1, e2, "hash-consing gives CSE");
}

#[test]
fn commutative_operands_are_canonicalised() {
    let mut d = Design::new();
    let r = d.add_reg("x", 8);
    let a = d.reg(r);
    let k = d.constant(3, 8);
    assert_eq!(d.add(a, k), d.add(k, a));
    assert_eq!(d.and(a, k), d.and(k, a));
    // Subtraction and comparison are not commutative and must not collapse.
    assert_ne!(d.lt(a, k), d.lt(k, a));
}

#[test]
fn constants_fold() {
    let mut d = Design::new();
    let a = d.constant(5, 8);
    let b = d.constant(3, 8);
    let s = d.add(a, b);
    assert_eq!(d.node(s), Node::Const { value: 8, width: 8 });
    let diff = d.sub(a, b);
    assert_eq!(d.node(diff), Node::Const { value: 2, width: 8 });
    let lt = d.lt(a, b);
    assert_eq!(d.node(lt), Node::Const { value: 0, width: 1 });
}

#[test]
fn constants_wrap_to_their_width() {
    let mut d = Design::new();
    let a = d.constant(200, 8);
    let b = d.constant(100, 8);
    let s = d.add(a, b);
    assert_eq!(d.node(s), Node::Const { value: 44, width: 8 }, "300 mod 256");
}

#[test]
fn double_negation_cancels() {
    let mut d = Design::new();
    let r = d.add_reg("x", 8);
    let a = d.reg(r);
    let n = d.not(a);
    assert_eq!(d.not(n), a);
}

#[test]
fn mux_with_constant_condition_collapses() {
    let mut d = Design::new();
    let r = d.add_reg("x", 8);
    let t = d.reg(r);
    let f = d.constant(9, 8);
    let yes = d.one(1);
    let no = d.zero(1);
    assert_eq!(d.mux(yes, t, f), t);
    assert_eq!(d.mux(no, t, f), f);
}

#[test]
fn topo_order_puts_operands_first() {
    let mut d = Design::new();
    let r = d.add_reg("x", 8);
    let a = d.reg(r);
    let k = d.constant(3, 8);
    let s = d.add(a, k);
    let t = d.mul(s, a);
    let order = d.topo_order(&[t]);
    let pos = |n: NodeId| order.iter().position(|&x| x == n).unwrap();
    assert!(pos(a) < pos(s));
    assert!(pos(k) < pos(s));
    assert!(pos(s) < pos(t));
    assert_eq!(*order.last().unwrap(), t);
}
