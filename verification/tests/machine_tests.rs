use ohmc::ir::Design;
use ohmc::lower::lower_program;
use ohmc::machine::run_design;
use ohmc::parser::parse;

fn design(src: &str) -> Design {
    lower_program(&parse(src).unwrap()).unwrap()
}

fn run1(src: &str, inputs: &[(&str, u64)], out: &str) -> u64 {
    let d = design(src);
    let (m, _) = run_design(&d, inputs, 100_000).unwrap();
    m.output(&d, out).unwrap()
}

#[test]
fn arithmetic_wraps_at_the_declared_width() {
    let src = "input u8 a; input u8 b; output u8 q; proc main() { q = a + b; }";
    assert_eq!(run1(src, &[("a", 200), ("b", 100)], "q"), 44);
}

#[test]
fn subtraction_borrows_correctly() {
    let src = "input u8 a; input u8 b; output u8 q; proc main() { q = a - b; }";
    assert_eq!(run1(src, &[("a", 5), ("b", 3)], "q"), 2);
    assert_eq!(run1(src, &[("a", 3), ("b", 5)], "q"), 254, "wraps mod 256");
}

#[test]
fn comparisons_are_unsigned() {
    let src = "input u8 a; input u8 b; output u1 q; proc main() { q = a < b; }";
    assert_eq!(run1(src, &[("a", 1), ("b", 200)], "q"), 1);
    assert_eq!(run1(src, &[("a", 200), ("b", 1)], "q"), 0);
}

/// The swap test: sequential source semantics inside a single cycle.
#[test]
fn assignments_are_sequential_within_a_cycle() {
    let src = "input u8 a; input u8 b; output u8 q; \
               proc main() { var u8 x = a; var u8 y = b; x = y; y = x; q = y; }";
    // Sequential semantics: x becomes b, then y becomes x (= b).
    assert_eq!(run1(src, &[("a", 7), ("b", 9)], "q"), 9);
}

#[test]
fn while_loop_runs_to_completion() {
    let src = "input u8 a; output u8 q; \
               proc main() { var u8 n = a; var u8 acc = 0; \
                             while (n != 0) { acc = acc + n; n = n - 1; } q = acc; }";
    // Triangular number 10 -> 55.
    assert_eq!(run1(src, &[("a", 10)], "q"), 55);
}

#[test]
fn gcd_by_subtraction() {
    let src = r#"
        input u8 a; input u8 b; output u8 q;
        fn gcd(u8 x, u8 y) -> u8 {
            while (y != 0) {
                if (x > y) { x = x - y; } else { y = y - x; }
            }
            return x;
        }
        proc main() { q = gcd(a, b); }
    "#;
    assert_eq!(run1(src, &[("a", 48), ("b", 18)], "q"), 6);
    assert_eq!(run1(src, &[("a", 17), ("b", 5)], "q"), 1);
    assert_eq!(run1(src, &[("a", 36), ("b", 36)], "q"), 36);
}

#[test]
fn multiplication_and_shifts() {
    let src = "input u8 a; input u8 b; output u8 q; proc main() { q = a * b; }";
    assert_eq!(run1(src, &[("a", 12), ("b", 12)], "q"), 144);
    assert_eq!(run1(src, &[("a", 20), ("b", 20)], "q"), 400 % 256);

    let src = "input u8 a; input u8 b; output u8 q; proc main() { q = a << b; }";
    assert_eq!(run1(src, &[("a", 3), ("b", 2)], "q"), 12);
    let src = "input u8 a; input u8 b; output u8 q; proc main() { q = a >> b; }";
    assert_eq!(run1(src, &[("a", 12), ("b", 2)], "q"), 3);
}

#[test]
fn early_return_from_a_function() {
    let src = r#"
        input u8 a; output u8 q;
        fn clamp(u8 x) -> u8 {
            if (x > 100) { return 100; }
            return x;
        }
        proc main() { q = clamp(a); }
    "#;
    assert_eq!(run1(src, &[("a", 5)], "q"), 5);
    assert_eq!(run1(src, &[("a", 200)], "q"), 100);
}

#[test]
fn infinite_loop_is_reported_not_hung() {
    let d = design("output u8 q; proc main() { while (q >= 0) { q = q + 1; } }");
    let err = run_design(&d, &[], 500).unwrap_err();
    assert!(err.contains("did not halt"), "{err}");
}

#[test]
fn ternary_and_logical_ops() {
    let src = "input u8 a; output u8 q; proc main() { q = (a > 10) ? 1 : 2; }";
    assert_eq!(run1(src, &[("a", 20)], "q"), 1);
    assert_eq!(run1(src, &[("a", 2)], "q"), 2);

    let src = "input u8 a; input u8 b; output u1 q; proc main() { q = (a > 1) && (b > 1); }";
    assert_eq!(run1(src, &[("a", 5), ("b", 5)], "q"), 1);
    assert_eq!(run1(src, &[("a", 5), ("b", 0)], "q"), 0);
}
