use ohmc::bitblast::{blast, blast_combinational};
use ohmc::cli::{
    chain_limit, parse_args, parse_inputs, placed_netlist, reported, split_counter, truth_table,
    wants_help,
};
use ohmc::ir::PortDecl;
use ohmc::lower::lower_program;
use ohmc::parser::parse;

fn args(words: &[&str]) -> Vec<String> {
    words.iter().map(|w| w.to_string()).collect()
}

fn args_error(words: &[&str]) -> String {
    match parse_args(&args(words)) {
        Ok(_) => panic!("accepted"),
        Err(e) => e,
    }
}

#[test]
fn help_is_given_on_request_and_without_arguments() {
    assert!(wants_help(&args(&[])));
    assert!(wants_help(&args(&["a.ohm", "-h"])));
    assert!(wants_help(&args(&["--help"])));
    assert!(!wants_help(&args(&["a.ohm", "--stats"])));
}

#[test]
fn arguments_are_read_in_any_order() {
    let o = parse_args(&args(&[
        "--stats", "x.ohm", "-o", "a.schem", "--nbt", "b.nbt", "--mcfn", "c", "--truth", "--run",
        "a=1", "y.ohm",
    ]))
    .unwrap_or_else(|e| panic!("{e}"));
    assert_eq!(o.path, "y.ohm", "the last path counts");
    assert_eq!(o.run.as_deref(), Some("a=1"));
    assert_eq!(o.out.as_deref(), Some("a.schem"));
    assert_eq!(o.nbt.as_deref(), Some("b.nbt"));
    assert_eq!(o.mcfn.as_deref(), Some("c"));
    assert!(o.stats && o.truth);
}

#[test]
fn bad_arguments_are_refused() {
    assert_eq!(args_error(&["--stats"]), "no input file given");
    assert_eq!(args_error(&["a", "--run"]), "--run needs a value");
    assert_eq!(args_error(&["a", "-o"]), "-o needs a path");
    assert_eq!(args_error(&["a", "--nbt"]), "--nbt needs a path");
    assert_eq!(args_error(&["a", "--mcfn"]), "--mcfn needs a path");
    assert_eq!(args_error(&["a", "--fast"]), "unknown flag `--fast`");
}

#[test]
fn run_inputs_are_names_and_numbers() {
    let got = parse_inputs("a=48, b = 18 ,,c=+7").unwrap();
    assert_eq!(got, vec![("a".to_string(), 48), ("b".to_string(), 18), ("c".to_string(), 7)]);
    assert_eq!(parse_inputs("").unwrap(), vec![]);
    assert_eq!(
        parse_inputs("x=18446744073709551615").unwrap(),
        vec![("x".to_string(), u64::MAX)]
    );
}

#[test]
fn bad_run_inputs_are_refused() {
    assert_eq!(
        parse_inputs("a=1,b").unwrap_err(),
        "bad --run entry `b`, expected name=value"
    );
    assert_eq!(parse_inputs("a=").unwrap_err(), "bad number in `a=`");
    assert_eq!(parse_inputs("a=+").unwrap_err(), "bad number in `a=+`");
    assert_eq!(parse_inputs("a=-1").unwrap_err(), "bad number in `a=-1`");
    assert_eq!(parse_inputs("a=1x").unwrap_err(), "bad number in `a=1x`");
    assert_eq!(
        parse_inputs("a=18446744073709551616").unwrap_err(),
        "bad number in `a=18446744073709551616`"
    );
}

#[test]
fn a_counter_is_split_from_its_low_end() {
    let ports = vec![
        PortDecl { name: "a".into(), width: 2 },
        PortDecl { name: "b".into(), width: 3 },
    ];
    assert_eq!(split_counter(0b101_10, &ports), vec![0b10, 0b101]);
}

#[test]
fn truth_tables_list_every_input() {
    let src = "input u1 a; input u1 b; output u1 s; output u1 c; \
               proc main() { s = a ^ b; c = a & b; }";
    let d = lower_program(&parse(src).unwrap()).unwrap();
    let net = blast_combinational(&d).unwrap();
    assert_eq!(
        truth_table(&d, &net).unwrap(),
        vec!["TRUTH 0 s=0 c=0", "TRUTH 1 s=1 c=0", "TRUTH 2 s=1 c=0", "TRUTH 3 s=0 c=1"]
    );
}

#[test]
fn wide_truth_tables_are_refused() {
    let src = "input u9 a; input u8 b; output u9 s; proc main() { s = a; }";
    let d = lower_program(&parse(src).unwrap()).unwrap();
    let net = blast_combinational(&d).unwrap();
    assert_eq!(truth_table(&d, &net).unwrap_err(), "17 input bits is too many to enumerate");
}

#[test]
fn only_programs_with_control_flow_get_registers() {
    let flat = lower_program(
        &parse("input u1 a; output u1 q; proc main() { q = !a; }").unwrap(),
    )
    .unwrap();
    assert_eq!(placed_netlist(&flat).dffs.len(), 0);
    let looped = lower_program(
        &parse("input u1 a; output u1 q; proc main() { while (a) { q = !q; } }").unwrap(),
    )
    .unwrap();
    assert_eq!(placed_netlist(&looped).dffs.len(), blast(&looped).dffs.len());
    assert!(placed_netlist(&looped).dffs.len() > 0);
}

#[test]
fn coordinates_follow_the_commands() {
    assert_eq!(reported((4, 5, 6), (-1, -2, -3), true), (5, 8, 9));
    assert_eq!(reported((4, 5, 6), (-1, -2, -3), false), (4, 5, 6));
}

#[test]
fn long_functions_need_a_higher_limit() {
    assert_eq!(chain_limit(65536), None);
    assert_eq!(chain_limit(65537), Some(1 << 20));
    assert_eq!(chain_limit((1 << 20) + 1), Some(1 << 21));
}
