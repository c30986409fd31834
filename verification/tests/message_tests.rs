use ohmc::bitblast::blast_combinational;
use ohmc::lexer::Lexer;
use ohmc::lower::lower_program;
use ohmc::machine::run_design;
use ohmc::parser::parse;

fn lex_error(src: &str) -> String {
    Lexer::new(src).tokenize().unwrap_err()
}

fn parse_error(src: &str) -> String {
    match parse(src) {
        Ok(_) => panic!("`{src}` parsed"),
        Err(e) => e,
    }
}

fn lower_error(src: &str) -> String {
    match lower_program(&parse(src).unwrap()) {
        Ok(_) => panic!("`{src}` lowered"),
        Err(e) => e,
    }
}

fn assert_ends(e: String, tail: &str) {
    assert!(e.ends_with(tail), "{e}");
}

#[test]
fn an_unexpected_character_is_quoted() {
    assert_eq!(lex_error("@"), "1:1: unexpected character '@'");
    assert_eq!(lex_error("a\n  $"), "2:3: unexpected character '$'");
    assert_eq!(lex_error("\""), "1:1: unexpected character '\"'");
    assert_eq!(lex_error("'"), "1:1: unexpected character '\\''");
    assert_eq!(lex_error("\u{1}"), "1:1: unexpected character '\\u{1}'");
    assert_eq!(lex_error("\u{e9}"), "1:1: unexpected character '\u{c3}'");
}

#[test]
fn lexing_reports_unfinished_text() {
    assert_eq!(lex_error("a /* b"), "1:3: unterminated block comment");
    assert_eq!(lex_error("0x"), "1:1: malformed numeric literal \"0x\"");
    assert_eq!(lex_error("0b__"), "1:1: malformed numeric literal \"0b__\"");
    assert_eq!(lex_error("12ab"), "1:1: invalid base-10 literal \"12ab\"");
    assert_eq!(lex_error("0b12"), "1:1: invalid base-2 literal \"12\"");
    assert_eq!(
        lex_error("99999999999999999999"),
        "1:1: invalid base-10 literal \"99999999999999999999\""
    );
}

#[test]
fn parsing_reports_what_it_expected() {
    assert_eq!(parse_error("input u8 a"), "1:11: expected `;`, found `<eof>`");
    assert_eq!(parse_error("input u8 7;"), "1:11: expected identifier, found `7`");
    assert_eq!(parse_error("input u33 a;"), "1:7: width u33 out of range (expected u1..u32)");
    assert_eq!(parse_error("input a a;"), "1:7: expected a type like `u8`, found `a`");
    assert_eq!(
        parse_error("; "),
        "1:1: expected `input`, `output`, `fn`, or `proc`, found `;`"
    );
    assert_ends(
        parse_error("proc f() -> u8 { }"),
        "`proc f` cannot declare a return type; use `fn`",
    );
    assert_ends(
        parse_error("fn f() { }"),
        "`fn f` must declare a return type; use `proc` for none",
    );
    assert_ends(parse_error("proc main() { "), "unclosed block at end of file");
    assert_ends(
        parse_error("proc main() { x; }"),
        "expected `=` after `x`; Ohm has no expression statements",
    );
    assert_ends(parse_error("proc main() { ; }"), "expected a statement, found `;`");
    assert_ends(parse_error("proc main() { x = ; }"), "expected an expression, found `;`");
}

#[test]
fn lowering_reports_names_that_clash_or_lack() {
    assert_ends(lower_error("input u8 a; input u8 a; proc main() { }"), "duplicate port `a`");
    assert_ends(
        lower_error("proc f() { } proc f() { } proc main() { }"),
        "duplicate function `f`",
    );
    assert_eq!(lower_error("input u8 a;"), "program has no `proc main()` entry point");
    assert_ends(lower_error("proc main(u8 a) { }"), "`main` must take no parameters");
    assert_ends(
        lower_error("fn main() -> u8 { return 1; }"),
        "`main` must be a `proc`, not a `fn`",
    );
    assert_ends(lower_error("output u8 q; proc main() { q = z; }"), "unknown name `z`");
    assert_ends(lower_error("proc main() { z = 1; }"), "unknown variable `z`");
    assert_ends(lower_error("output u8 q; proc main() { q = f(1); }"), "unknown function `f`");
    assert_ends(
        lower_error("input u8 a; proc main() { a = 1; }"),
        "cannot assign to input port `a`",
    );
}

#[test]
fn lowering_reports_widths() {
    assert_ends(
        lower_error("output u4 q; proc main() { q = 16; }"),
        "literal `16` does not fit in u4",
    );
    assert_ends(
        lower_error("output u1 q; proc main() { q = 1 == 2; }"),
        "cannot infer operand width for `==`; both sides are bare literals",
    );
    assert_ends(
        lower_error("proc main() { var x = 1; }"),
        "cannot infer width of `x`; annotate it, e.g. `var u8 x = ...`",
    );
}

#[test]
fn lowering_reports_calls() {
    assert_ends(
        lower_error("fn f(u8 a) -> u8 { return a; } output u8 q; proc main() { q = f(); }"),
        "`f` takes 1 argument(s), got 0",
    );
    assert_ends(
        lower_error("fn f(u8 a) -> u8 { return f(a); } output u8 q; proc main() { q = f(1); }"),
        "recursive call to `f` cannot be synthesised (main -> f -> f)",
    );
}

#[test]
fn a_loop_needs_a_state_machine() {
    let src = "input u8 a; output u8 q; \
               proc main() { var u8 x = a; while (x != 0) { x = x - 1; } q = x; }";
    let d = lower_program(&parse(src).unwrap()).unwrap();
    let e = match blast_combinational(&d) {
        Ok(_) => panic!("a loop is not combinational"),
        Err(e) => e,
    };
    let n = d.blocks.len();
    assert_eq!(
        e,
        format!(
            "program has {n} basic block(s) and needs a control FSM; \
             only straight-line programs are combinational"
        )
    );
}

#[test]
fn running_reports_unknown_inputs_and_endless_loops() {
    let d = lower_program(
        &parse("input u8 a; output u8 q; proc main() { while (1 as u1) { q = a; } }").unwrap(),
    )
    .unwrap();
    assert_eq!(
        run_design(&d, &[("a", 1)], 50).unwrap_err(),
        "did not halt within 50 cycles (infinite loop?)"
    );
    assert_eq!(run_design(&d, &[("b", 1)], 50).unwrap_err(), "no such input port `b`");
}
