use ohmc::ir::{Design, Node, Term};
use ohmc::lower::lower_program;
use ohmc::parser::parse;

fn design(src: &str) -> Design {
    lower_program(&parse(src).unwrap()).unwrap()
}

fn err(src: &str) -> String {
    lower_program(&parse(src).unwrap()).unwrap_err()
}

#[test]
fn straight_line_code_is_one_cycle() {
    let d = design("input u8 a; output u8 q; proc main() { q = a + 1; }");
    assert_eq!(d.blocks.len(), 1, "no control flow => single state");
    assert!(matches!(d.blocks[0].term, Term::Halt));
    assert_eq!(d.blocks[0].assigns.len(), 1);
}

/// The classic swap: parallel commit with sequential source semantics.
#[test]
fn sequential_assignments_within_a_cycle() {
    let d = design(
        "input u8 a; input u8 b; output u8 q; \
         proc main() { var u8 x = a; var u8 y = b; x = y; y = x; q = y; }",
    );
    // `y = x` must see the value x was just given (= b), not a swap.
    assert_eq!(d.blocks.len(), 1);
}

#[test]
fn while_loop_builds_a_cycle_in_the_cfg() {
    let d = design(
        "input u8 a; output u8 q; \
         proc main() { var u8 x = a; while (x != 0) { x = x - 1; } q = x; }",
    );
    // entry -> head -> {body -> head, exit}
    let head = d.blocks.iter().position(|b| b.label == "while.head").unwrap();
    let body = d.blocks.iter().position(|b| b.label == "while.body").unwrap();
    assert!(matches!(d.blocks[head].term, Term::Branch { .. }));
    assert!(matches!(d.blocks[body].term, Term::Jump(t) if t as usize == head));
}

#[test]
fn unreachable_blocks_are_pruned() {
    let d = design("output u8 q; proc main() { q = 1; return; }");
    assert!(
        d.blocks.iter().all(|b| b.label != "after.return"),
        "dead block should be pruned"
    );
}

#[test]
fn recursion_is_rejected_with_a_call_chain() {
    let e = err(
        "output u8 q; fn f(u8 x) -> u8 { return g(x); } \
         fn g(u8 x) -> u8 { return f(x); } proc main() { q = f(1); }",
    );
    assert!(e.contains("recursive"), "{e}");
    assert!(e.contains("->"), "should show the chain: {e}");
}

#[test]
fn assigning_to_an_input_is_rejected() {
    let e = err("input u8 a; proc main() { a = 1; }");
    assert!(e.contains("cannot assign to input port"), "{e}");
}

#[test]
fn literal_too_wide_is_rejected() {
    let e = err("output u4 q; proc main() { q = 20; }");
    assert!(e.contains("does not fit in u4"), "{e}");
}

#[test]
fn unconstrained_literal_comparison_is_rejected() {
    let e = err("output u1 q; proc main() { q = 1 < 2; }");
    assert!(e.contains("cannot infer operand width"), "{e}");
}

#[test]
fn missing_main_is_reported() {
    let e = err("input u8 a;");
    assert!(e.contains("no `proc main()`"), "{e}");
}

#[test]
fn arity_mismatch_is_reported() {
    let e = err(
        "output u8 q; fn f(u8 x, u8 y) -> u8 { return x; } proc main() { q = f(1 as u8); }",
    );
    assert!(e.contains("takes 2 argument(s), got 1"), "{e}");
}

#[test]
fn calls_split_blocks() {
    let d = design(
        "input u8 a; output u8 q; fn f(u8 x) -> u8 { return x + 1; } \
         proc main() { q = f(a); }",
    );
    assert!(d.blocks.iter().any(|b| b.label == "call.f"));
    assert!(d.blocks.iter().any(|b| b.label == "ret.f"));
}

#[test]
fn cse_shares_repeated_subexpressions() {
    let d = design("input u8 a; output u8 q; proc main() { q = (a + 1) + (a + 1); }");
    // a, 1, a+1, (a+1)+(a+1) -> the inner sum is built once.
    let adds = (0..d.node_count())
        .filter(|&i| matches!(d.node(i as u32), Node::Add(..)))
        .count();
    assert_eq!(adds, 2, "inner `a + 1` should be shared");
}
