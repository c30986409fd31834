use ohmc::ast::{Expr, Stmt, Type, UnOp};
use ohmc::parser::{parse, Parser};

fn expr(src: &str) -> Expr {
    Parser::new(src).unwrap().parse_expr().unwrap()
}

/// Render an expression fully parenthesised so precedence is visible.
fn show(e: &Expr) -> String {
    match e {
        Expr::Num { value, .. } => value.to_string(),
        Expr::Ident { name, .. } => name.clone(),
        Expr::Unary { op, operand, .. } => {
            let s = match op {
                UnOp::Neg => "-",
                UnOp::Not => "!",
                UnOp::BitNot => "~",
            };
            format!("({s}{})", show(operand))
        }
        Expr::Binary { op, lhs, rhs, .. } => {
            format!("({} {} {})", show(lhs), op.symbol(), show(rhs))
        }
        Expr::Call { name, args, .. } => {
            let a: Vec<String> = args.iter().map(show).collect();
            format!("{name}({})", a.join(","))
        }
        Expr::Cast { operand, ty, .. } => format!("({} as {})", show(operand), ty.text()),
        Expr::Ternary { cond, then_e, else_e, .. } => {
            format!("({} ? {} : {})", show(cond), show(then_e), show(else_e))
        }
    }
}

#[test]
fn arithmetic_precedence() {
    assert_eq!(show(&expr("1 + 2 * 3")), "(1 + (2 * 3))");
    assert_eq!(show(&expr("1 * 2 + 3")), "((1 * 2) + 3)");
    assert_eq!(show(&expr("1 - 2 - 3")), "((1 - 2) - 3)", "left associative");
}

#[test]
fn bitwise_binds_looser_than_comparison() {
    // Unlike C's famous wart we keep C's actual precedence, so `&` is
    // looser than `==`. This test pins that down deliberately.
    assert_eq!(show(&expr("a & b == c")), "(a & (b == c))");
    assert_eq!(show(&expr("a && b || c")), "((a && b) || c)");
}

#[test]
fn shifts_bind_tighter_than_comparison() {
    assert_eq!(show(&expr("a << 1 < b")), "((a << 1) < b)");
}

#[test]
fn ternary_is_right_associative() {
    assert_eq!(show(&expr("a ? b : c ? d : e")), "(a ? b : (c ? d : e))");
}

#[test]
fn casts_bind_tighter_than_binary_ops() {
    assert_eq!(show(&expr("a as u8 + b")), "((a as u8) + b)");
}

#[test]
fn parses_a_whole_program() {
    let p = parse(
        r#"
        input u8 a;
        input u8 b;
        output u8 q;

        fn gcd(u8 x, u8 y) -> u8 {
            while (y != 0) {
                if (x > y) { x = x - y; } else { y = y - x; }
            }
            return x;
        }

        proc main() {
            q = gcd(a, b);
        }
        "#,
    )
    .unwrap();
    assert_eq!(p.ports.len(), 3);
    assert_eq!(p.funcs.len(), 2);
    assert_eq!(p.func("gcd").unwrap().params.len(), 2);
    assert_eq!(p.func("gcd").unwrap().ret, Some(Type::new(8)));
    assert!(p.func("main").unwrap().ret.is_none());
}

#[test]
fn else_if_chains_parse() {
    let p = parse("proc main() { if (a) { x = 1; } else if (b) { x = 2; } else { x = 3; } }")
        .unwrap();
    let Stmt::If { else_b: Some(e), .. } = &p.funcs[0].body.stmts[0] else {
        panic!("expected if/else");
    };
    assert!(matches!(e.stmts[0], Stmt::If { .. }));
}

#[test]
fn fn_without_return_type_is_rejected() {
    let err = parse("fn f() { return 1; }").unwrap_err();
    assert!(err.contains("must declare a return type"), "{err}");
}

#[test]
fn proc_with_return_type_is_rejected() {
    let err = parse("proc f() -> u8 { return 1; }").unwrap_err();
    assert!(err.contains("cannot declare a return type"), "{err}");
}

#[test]
fn width_bounds_are_enforced() {
    assert!(parse("input u64 a;").unwrap_err().contains("out of range"));
    assert!(parse("input u0 a;").unwrap_err().contains("out of range"));
}
