use ohmc::lexer::{Lexer, Tok};

fn toks(src: &str) -> Vec<Tok> {
    Lexer::new(src).tokenize().unwrap().into_iter().map(|t| t.tok).collect()
}

#[test]
fn lexes_a_declaration() {
    assert_eq!(
        toks("input u8 a;"),
        vec![Tok::Input, Tok::UType(8), Tok::Ident("a".into()), Tok::Semi, Tok::Eof]
    );
}

#[test]
fn distinguishes_multi_char_operators() {
    assert_eq!(
        toks("< << <= > >> >= == != && || ->"),
        vec![
            Tok::Lt, Tok::Shl, Tok::Le, Tok::Gt, Tok::Shr, Tok::Ge,
            Tok::EqEq, Tok::Ne, Tok::AndAnd, Tok::OrOr, Tok::Arrow, Tok::Eof
        ]
    );
}

#[test]
fn number_bases_and_separators() {
    assert_eq!(toks("42 0xff 0b1010 1_000"),
        vec![Tok::Num(42), Tok::Num(255), Tok::Num(10), Tok::Num(1000), Tok::Eof]);
}

#[test]
fn utype_only_when_suffix_is_numeric() {
    assert_eq!(toks("u8"), vec![Tok::UType(8), Tok::Eof]);
    assert_eq!(toks("bool"), vec![Tok::UType(1), Tok::Eof]);
    assert_eq!(toks("up"), vec![Tok::Ident("up".into()), Tok::Eof]);
    assert_eq!(toks("u8x"), vec![Tok::Ident("u8x".into()), Tok::Eof]);
}

#[test]
fn comments_are_trivia() {
    assert_eq!(toks("1 // line\n /* block\n */ 2"),
        vec![Tok::Num(1), Tok::Num(2), Tok::Eof]);
}

#[test]
fn tracks_line_numbers() {
    let ts = Lexer::new("a\n\n  b").tokenize().unwrap();
    assert_eq!(ts[0].span.line, 1);
    assert_eq!(ts[1].span.line, 3);
    assert_eq!(ts[1].span.col, 3);
}

#[test]
fn reports_unterminated_comment() {
    let err = Lexer::new("/* nope").tokenize().unwrap_err();
    assert!(err.contains("unterminated"), "{err}");
}
