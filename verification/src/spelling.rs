//! Writing and lexing agree: the text of some tokens is lexed as those tokens.
use crate::ast::{symbol_text, BinOp, ProgramTree};
use crate::lexer::{
    all_digits, byte_at, chars_of, comment_end, digit_value, drop_underscores, is_digit, is_space,
    is_word, lemma_position_bound, lexeme_text, line_end, number_value, span_at, token_at,
    tokens_from, tokens_of, trivia_end, word_end, word_lexeme, Lexeme, Span,
};
use crate::parser::{binding, program_of};
use crate::printing::{
    lemma_program_reads_back, lemma_signs, program_fine, same_program, says, sign_of, written_program,
};
use crate::text::{decimal, digit, lemma_decimal_reads};
use vstd::prelude::*;
use vstd::string::*;

verus! {

/// How a token is spelled.
pub open spec fn spelled(t: Lexeme) -> Seq<char> {
    match t {
        Lexeme::Num(n) => decimal(n as nat),
        Lexeme::Ident(s) => s,
        Lexeme::UType(w) => seq!['u'] + decimal(w as nat),
        Lexeme::Input => seq!['i', 'n', 'p', 'u', 't'],
        Lexeme::Output => seq!['o', 'u', 't', 'p', 'u', 't'],
        Lexeme::Fn => seq!['f', 'n'],
        Lexeme::Proc => seq!['p', 'r', 'o', 'c'],
        Lexeme::Var => seq!['v', 'a', 'r'],
        Lexeme::If => seq!['i', 'f'],
        Lexeme::Else => seq!['e', 'l', 's', 'e'],
        Lexeme::While => seq!['w', 'h', 'i', 'l', 'e'],
        Lexeme::Return => seq!['r', 'e', 't', 'u', 'r', 'n'],
        Lexeme::As => seq!['a', 's'],
        Lexeme::True => seq!['t', 'r', 'u', 'e'],
        Lexeme::False => seq!['f', 'a', 'l', 's', 'e'],
        Lexeme::LParen => seq!['('],
        Lexeme::RParen => seq![')'],
        Lexeme::LBrace => seq!['{'],
        Lexeme::RBrace => seq!['}'],
        Lexeme::Semi => seq![';'],
        Lexeme::Comma => seq![','],
        Lexeme::Arrow => seq!['-', '>'],
        Lexeme::Question => seq!['?'],
        Lexeme::Colon => seq![':'],
        Lexeme::Assign => seq!['='],
        Lexeme::Plus => seq!['+'],
        Lexeme::Minus => seq!['-'],
        Lexeme::Star => seq!['*'],
        Lexeme::Amp => seq!['&'],
        Lexeme::Pipe => seq!['|'],
        Lexeme::Caret => seq!['^'],
        Lexeme::Tilde => seq!['~'],
        Lexeme::Bang => seq!['!'],
        Lexeme::Shl => seq!['<', '<'],
        Lexeme::Shr => seq!['>', '>'],
        Lexeme::EqEq => seq!['=', '='],
        Lexeme::Ne => seq!['!', '='],
        Lexeme::Lt => seq!['<'],
        Lexeme::Le => seq!['<', '='],
        Lexeme::Gt => seq!['>'],
        Lexeme::Ge => seq!['>', '='],
        Lexeme::AndAnd => seq!['&', '&'],
        Lexeme::OrOr => seq!['|', '|'],
        Lexeme::Eof => Seq::empty(),
    }
}

/// A letter, a digit or an underscore.
pub open spec fn word_char(c: char) -> bool {
    'a' <= c <= 'z' || 'A' <= c <= 'Z' || '0' <= c <= '9' || c == '_'
}

/// A word that the language keeps for itself.
pub open spec fn reserved(s: Seq<char>) -> bool {
    ||| s == "input"@
    ||| s == "output"@
    ||| s == "fn"@
    ||| s == "proc"@
    ||| s == "var"@
    ||| s == "if"@
    ||| s == "else"@
    ||| s == "while"@
    ||| s == "return"@
    ||| s == "as"@
    ||| s == "true"@
    ||| s == "false"@
    ||| s == "bool"@
    ||| s.len() > 1 && s[0] == 'u' && forall|i: int| 1 <= i < s.len() ==> '0' <= #[trigger] s[i] <= '9'
}

/// A name: letters, digits and underscores, not a digit first, and no reserved word.
pub open spec fn is_name(s: Seq<char>) -> bool {
    &&& s.len() > 0
    &&& !('0' <= s[0] <= '9')
    &&& forall|i: int| 0 <= i < s.len() ==> word_char(#[trigger] s[i])
    &&& !reserved(s)
}

/// A token that can be spelled.
pub open spec fn can_spell(t: Lexeme) -> bool {
    match t {
        Lexeme::Ident(s) => is_name(s),
        Lexeme::Eof => false,
        _ => true,
    }
}

/// ASCII text as bytes.
pub open spec fn ascii(s: Seq<char>) -> Seq<u8> {
    Seq::new(s.len(), |i: int| s[i] as u8)
}

/// The text of the tokens from the `i`th on, a blank before each.
pub open spec fn text_of(list: Seq<Lexeme>, i: int) -> Seq<u8>
    decreases list.len() - i,
{
    if i < 0 || i >= list.len() {
        Seq::empty()
    } else {
        seq![32u8] + (ascii(spelled(list[i])) + text_of(list, i + 1))
    }
}

/// `s` stands at `i` in the source, and a blank or the end of the source behind it.
spec fn stands_at(src: Seq<u8>, i: int, s: Seq<char>) -> bool {
    &&& 0 <= i
    &&& i + s.len() <= src.len()
    &&& forall|k: int| 0 <= k < s.len() ==> #[trigger] src[i + k] == s[k] as u8
    &&& i + s.len() < src.len() ==> src[i + s.len()] == 32
}

proof fn lemma_word_end(src: Seq<u8>, i: int, n: nat)
    requires
        0 <= i,
        i + n <= src.len(),
        forall|k: int| i <= k < i + n ==> is_word(#[trigger] src[k]),
        i + n < src.len() ==> !is_word(src[i + n]),
    ensures
        word_end(src, i) == i + n,
    decreases n,
{
    if n > 0 {
        assert(is_word(src[i]));
        lemma_word_end(src, i + 1, (n - 1) as nat);
    }
}

/// A word is taken whole.
proof fn lemma_word(src: Seq<u8>, i: int, s: Seq<char>)
    requires
        stands_at(src, i, s),
        s.len() > 0,
        !('0' <= s[0] <= '9'),
        forall|k: int| 0 <= k < s.len() ==> word_char(#[trigger] s[k]),
    ensures
        token_at(src, i) == Ok::<(Lexeme, int), Seq<char>>((word_lexeme(ascii(s)), i + s.len())),
        chars_of(ascii(s)) == s,
        !is_space(src[i]),
        src[i] != 47,
{
    assert forall|k: int| i <= k < i + s.len() implies is_word(#[trigger] src[k]) by {
        assert(src[i + (k - i)] == s[k - i] as u8);
        assert(word_char(s[k - i]));
    }
    lemma_word_end(src, i, s.len());
    assert(src.subrange(i, i + s.len()) =~= ascii(s)) by {
        assert forall|k: int| 0 <= k < s.len() implies src[i + k] == #[trigger] ascii(s)[k] by {
            assert(src[i + k] == s[k] as u8);
        }
    }
    assert(src[i + 0] == s[0] as u8);
    assert(word_char(s[0]));
    assert(chars_of(ascii(s)) =~= s) by {
        assert forall|k: int| 0 <= k < s.len() implies #[trigger] chars_of(ascii(s))[k] == s[k] by {
            assert(word_char(s[k]));
        }
    }
}

/// The reserved words.
proof fn lemma_reserved_words()
    ensures
        "input"@ == seq!['i', 'n', 'p', 'u', 't'],
        "output"@ == seq!['o', 'u', 't', 'p', 'u', 't'],
        "fn"@ == seq!['f', 'n'],
        "proc"@ == seq!['p', 'r', 'o', 'c'],
        "var"@ == seq!['v', 'a', 'r'],
        "if"@ == seq!['i', 'f'],
        "else"@ == seq!['e', 'l', 's', 'e'],
        "while"@ == seq!['w', 'h', 'i', 'l', 'e'],
        "return"@ == seq!['r', 'e', 't', 'u', 'r', 'n'],
        "as"@ == seq!['a', 's'],
        "true"@ == seq!['t', 'r', 'u', 'e'],
        "false"@ == seq!['f', 'a', 'l', 's', 'e'],
        "bool"@ == seq!['b', 'o', 'o', 'l'],
{
    reveal_strlit("input");
    reveal_strlit("output");
    reveal_strlit("fn");
    reveal_strlit("proc");
    reveal_strlit("var");
    reveal_strlit("if");
    reveal_strlit("else");
    reveal_strlit("while");
    reveal_strlit("return");
    reveal_strlit("as");
    reveal_strlit("true");
    reveal_strlit("false");
    reveal_strlit("bool");
    assert("input"@ =~= seq!['i', 'n', 'p', 'u', 't']);
    assert("output"@ =~= seq!['o', 'u', 't', 'p', 'u', 't']);
    assert("fn"@ =~= seq!['f', 'n']);
    assert("proc"@ =~= seq!['p', 'r', 'o', 'c']);
    assert("var"@ =~= seq!['v', 'a', 'r']);
    assert("if"@ =~= seq!['i', 'f']);
    assert("else"@ =~= seq!['e', 'l', 's', 'e']);
    assert("while"@ =~= seq!['w', 'h', 'i', 'l', 'e']);
    assert("return"@ =~= seq!['r', 'e', 't', 'u', 'r', 'n']);
    assert("as"@ =~= seq!['a', 's']);
    assert("true"@ =~= seq!['t', 'r', 'u', 'e']);
    assert("false"@ =~= seq!['f', 'a', 'l', 's', 'e']);
    assert("bool"@ =~= seq!['b', 'o', 'o', 'l']);
}

spec fn is_keyword(t: Lexeme) -> bool {
    match t {
        Lexeme::Input | Lexeme::Output | Lexeme::Fn | Lexeme::Proc | Lexeme::Var | Lexeme::If => true,
        Lexeme::Else | Lexeme::While | Lexeme::Return | Lexeme::As | Lexeme::True | Lexeme::False => true,
        _ => false,
    }
}

/// Keywords that differ are spelled differently: by length, or by a character.
proof fn lemma_keyword_lexeme(t: Lexeme)
    requires
        is_keyword(t),
    ensures
        word_lexeme(ascii(spelled(t))) == t,
        spelled(t).len() > 0,
        !('0' <= spelled(t)[0] <= '9'),
        forall|k: int| 0 <= k < spelled(t).len() ==> word_char(#[trigger] spelled(t)[k]),
{
    lemma_reserved_words();
    let s = spelled(t);
    assert(chars_of(ascii(s)) =~= s);
    let (i, o, f, p, v, g) = ("input"@, "output"@, "fn"@, "proc"@, "var"@, "if"@);
    let (e, w, r, a, u, l) = ("else"@, "while"@, "return"@, "as"@, "true"@, "false"@);
    assert(i.len() == 5 && w.len() == 5 && l.len() == 5 && i[0] == 'i' && w[0] == 'w' && l[0] == 'f');
    assert(o.len() == 6 && r.len() == 6 && o[0] == 'o' && r[0] == 'r');
    assert(f.len() == 2 && g.len() == 2 && a.len() == 2 && f[0] == 'f' && g[0] == 'i' && a[0] == 'a');
    assert(p.len() == 4 && e.len() == 4 && u.len() == 4 && p[0] == 'p' && e[0] == 'e' && u[0] == 't');
    assert(v.len() == 3);
}

/// A name is lexed as that name.
proof fn lemma_name_lexeme(s: Seq<char>)
    requires
        is_name(s),
        chars_of(ascii(s)) == s,
    ensures
        word_lexeme(ascii(s)) == Lexeme::Ident(s),
{
    let w = ascii(s);
    if w.len() > 1 && w[0] == 117 && all_digits(w.skip(1)) {
        assert(word_char(s[0]));
        assert(s[0] == 'u');
        assert forall|i: int| 1 <= i < s.len() implies '0' <= #[trigger] s[i] <= '9' by {
            assert(is_digit(w.skip(1)[i - 1]));
            assert(word_char(s[i]));
        }
        assert(reserved(s));
    }
}

/// The digits of a number, as bytes.
proof fn lemma_digits(n: nat)
    ensures
        number_value(ascii(decimal(n)), 10) == Some(n),
        all_digits(ascii(decimal(n))),
        drop_underscores(ascii(decimal(n))) == ascii(decimal(n)),
        decimal(n).len() > 0,
        n > 0 ==> decimal(n)[0] != '0',
        n == 0 ==> decimal(n).len() == 1,
    decreases n,
{
    lemma_decimal_reads(n);
    let b = ascii(decimal(n));
    if n >= 10 {
        lemma_digits(n / 10);
        let d = digit((n % 10) as int);
        assert(b.drop_last() =~= ascii(decimal(n / 10)));
        assert(b.last() == d as u8);
        assert(digit_value(b.last()) == n % 10);
        assert(b.last() != 95);
        assert(drop_underscores(b) =~= b);
        assert(decimal(n)[0] == decimal(n / 10)[0]);
        assert forall|i: int| 0 <= i < b.len() implies is_digit(#[trigger] b[i]) by {
            assert('0' <= decimal(n)[i] <= '9');
        }
    } else {
        assert(b.drop_last() =~= Seq::empty());
        assert(b.last() == digit(n as int) as u8);
        assert(number_value(b.drop_last(), 10) == Some(0nat));
        assert(digit_value(b.last()) == n);
        assert(drop_underscores(b.drop_last()) =~= Seq::empty());
        assert(drop_underscores(b) =~= b);
    }
}

/// A number is lexed as that number.
proof fn lemma_number(src: Seq<u8>, i: int, n: u64)
    requires
        stands_at(src, i, decimal(n as nat)),
    ensures
        token_at(src, i) == Ok::<(Lexeme, int), Seq<char>>((Lexeme::Num(n), i + decimal(n as nat).len())),
        !is_space(src[i]),
        src[i] != 47,
{
    let s = decimal(n as nat);
    lemma_digits(n as nat);
    lemma_decimal_reads(n as nat);
    assert(src[i + 0] == s[0] as u8);
    assert('0' <= s[0] <= '9');
    assert forall|k: int| i <= k < i + s.len() implies is_word(#[trigger] src[k]) by {
        assert(src[i + (k - i)] == s[k - i] as u8);
        assert('0' <= s[k - i] <= '9');
    }
    lemma_word_end(src, i, s.len());
    assert(src.subrange(i, i + s.len()) =~= ascii(s)) by {
        assert forall|k: int| 0 <= k < s.len() implies src[i + k] == #[trigger] ascii(s)[k] by {
            assert(src[i + k] == s[k] as u8);
        }
    }
    if n == 0 {
        assert(byte_at(src, i + 1) == 32 || byte_at(src, i + 1) == 0);
    }
}

/// A width type is lexed as that type.
proof fn lemma_type_lexeme(w: u32)
    ensures
        ({
            let s = seq!['u'] + decimal(w as nat);
            &&& word_lexeme(ascii(s)) == Lexeme::UType(w)
            &&& forall|k: int| 0 <= k < s.len() ==> word_char(#[trigger] s[k])
            &&& s[0] == 'u'
            &&& s.len() > 1
        }),
{
    let d = decimal(w as nat);
    let s = seq!['u'] + d;
    lemma_digits(w as nat);
    lemma_decimal_reads(w as nat);
    lemma_reserved_words();
    assert forall|k: int| 0 <= k < s.len() implies word_char(#[trigger] s[k]) by {
        if k > 0 {
            assert(s[k] == d[k - 1]);
        }
    }
    assert(chars_of(ascii(s)) =~= s) by {
        assert forall|k: int| 0 <= k < s.len() implies #[trigger] chars_of(ascii(s))[k] == s[k] by {
            assert(word_char(s[k]));
        }
    }
    assert(ascii(s).skip(1) =~= ascii(d));
    assert(s[0] == 'u');
}

/// A sign is lexed as that sign.
proof fn lemma_sign(src: Seq<u8>, i: int, t: Lexeme)
    requires
        stands_at(src, i, spelled(t)),
        can_spell(t),
        !is_keyword(t),
        !(t is Num || t is Ident || t is UType),
    ensures
        token_at(src, i) == Ok::<(Lexeme, int), Seq<char>>((t, i + spelled(t).len())),
        !is_space(src[i]),
        src[i] != 47,
{
    let s = spelled(t);
    assert(src[i + 0] == s[0] as u8);
    if s.len() == 2 {
        assert(src[i + 1] == s[1] as u8);
        assert(byte_at(src, i + 1) == s[1] as u8);
    } else {
        assert(byte_at(src, i + 1) == 32 || byte_at(src, i + 1) == 0);
    }
}

/// A token is lexed as it is spelled.
pub proof fn lemma_token_lexed(src: Seq<u8>, i: int, t: Lexeme)
    requires
        can_spell(t),
        0 <= i,
        i + spelled(t).len() <= src.len(),
        src.subrange(i, i + spelled(t).len()) == ascii(spelled(t)),
        i + spelled(t).len() < src.len() ==> src[i + spelled(t).len()] == 32,
    ensures
        token_at(src, i) == Ok::<(Lexeme, int), Seq<char>>((t, i + spelled(t).len())),
        spelled(t).len() > 0,
        !is_space(src[i]),
        src[i] != 47,
{
    let s = spelled(t);
    assert(stands_at(src, i, s)) by {
        assert forall|k: int| 0 <= k < s.len() implies #[trigger] src[i + k] == s[k] as u8 by {
            assert(src.subrange(i, i + s.len())[k] == ascii(s)[k]);
        }
    }
    match t {
        Lexeme::Num(n) => {
            lemma_number(src, i, n);
            lemma_digits(n as nat);
        },
        Lexeme::Ident(name) => {
            lemma_word(src, i, name);
            lemma_name_lexeme(name);
        },
        Lexeme::UType(w) => {
            lemma_type_lexeme(w);
            lemma_word(src, i, s);
        },
        _ => {
            if is_keyword(t) {
                lemma_keyword_lexeme(t);
                lemma_word(src, i, s);
            } else {
                lemma_sign(src, i, t);
            }
        },
    }
}

/// The tokens of a text are those that it was written from.
proof fn lemma_text_lexed(src: Seq<u8>, j: int, list: Seq<Lexeme>, i: int)
    requires
        0 <= i <= list.len(),
        forall|k: int| 0 <= k < list.len() ==> can_spell(#[trigger] list[k]),
        0 <= j <= src.len(),
        src.skip(j) == text_of(list, i),
    ensures
        tokens_from(src, j) matches Ok(ts) && ts.len() == list.len() - i + 1 && (forall|k: int|
            i <= k < list.len() ==> ts[k - i].0 == #[trigger] list[k]) && ts[list.len() - i].0 == Lexeme::Eof,
    decreases list.len() - i,
{
    if i == list.len() {
        assert(src.skip(j).len() == 0);
    } else {
        let s = spelled(list[i]);
        let rest = text_of(list, i + 1);
        let text = text_of(list, i);
        assert(src[j] == 32) by {
            assert(src.skip(j)[0] == src[j]);
        }
        let k = j + 1 + s.len();
        assert(src.len() == j + text.len());
        assert(src.subrange(j + 1, k) =~= ascii(s)) by {
            assert forall|m: int| 0 <= m < s.len() implies src[j + 1 + m] == #[trigger] ascii(s)[m] by {
                assert(src.skip(j)[1 + m] == src[j + 1 + m]);
                assert(text[1 + m] == ascii(s)[m]);
            }
        }
        assert(src.skip(k) =~= rest) by {
            assert forall|m: int| 0 <= m < rest.len() implies src.skip(k)[m] == #[trigger] rest[m] by {
                assert(src.skip(j)[1 + s.len() + m] == src[k + m]);
                assert(text[1 + s.len() + m] == rest[m]);
            }
        }
        if k < src.len() {
            assert(src.skip(k)[0] == src[k]);
            assert(rest.len() > 0);
            assert(rest[0] == 32);
        }
        lemma_token_lexed(src, j + 1, list[i]);
        lemma_text_lexed(src, k, list, i + 1);
        reveal_with_fuel(trivia_end, 2);
        assert(trivia_end(src, j) == Ok::<int, int>(j + 1));
        let more = tokens_from(src, k)->Ok_0;
        let ts = tokens_from(src, j)->Ok_0;
        assert(ts == seq![(list[i], span_at(src, j + 1))] + more);
        assert forall|m: int| i <= m < list.len() implies ts[m - i].0 == #[trigger] list[m] by {
            if m > i {
                assert(more[m - (i + 1)].0 == list[m]);
                assert(ts[m - i] == more[m - i - 1]);
            }
        }
        assert(ts[list.len() - i] == more[list.len() - i - 1]);
    }
}

/// Printing and reading agree: the text of a program, with parentheses around every
/// operation and a blank before every token, is lexed and parsed as that program.
pub proof fn lemma_text_reads_back(prog: ProgramTree)
    requires
        program_fine(prog),
        forall|k: int| 0 <= k < written_program(prog).len() ==> can_spell(#[trigger] written_program(prog)[k]),
    ensures
        program_of(text_of(written_program(prog), 0)) matches Ok(x) && same_program(x, prog),
{
    let list = written_program(prog);
    let src = text_of(list, 0);
    assert(src.skip(0) =~= src);
    lemma_text_lexed(src, 0, list, 0);
    let ts = tokens_of(src)->Ok_0;
    assert(says(ts, 0, list)) by {
        reveal(says);
        assert forall|i: int| 0 <= i < list.len() implies (#[trigger] ts[0 + i]).0 == list[i] by {
            assert(ts[i - 0].0 == list[i]);
        }
    }
    lemma_program_reads_back(ts, prog);
}

/// The symbol of every binary operator is lexed to a token that is read as that operator,
/// and that messages show as the symbol.
pub proof fn lemma_symbols(src: Seq<u8>, i: int, op: BinOp)
    requires
        0 <= i,
        i + symbol_text(op).len() <= src.len(),
        src.subrange(i, i + symbol_text(op).len()) == ascii(symbol_text(op)),
        i + symbol_text(op).len() < src.len() ==> src[i + symbol_text(op).len()] == 32,
    ensures
        token_at(src, i) matches Ok(t) && t.1 == i + symbol_text(op).len() && (binding(t.0) matches Some(b) && b.0
            == op) && lexeme_text(t.0) == symbol_text(op),
{
    reveal_strlit("+");
    reveal_strlit("-");
    reveal_strlit("*");
    reveal_strlit("&");
    reveal_strlit("|");
    reveal_strlit("^");
    reveal_strlit("<<");
    reveal_strlit(">>");
    reveal_strlit("==");
    reveal_strlit("!=");
    reveal_strlit("<");
    reveal_strlit("<=");
    reveal_strlit(">");
    reveal_strlit(">=");
    reveal_strlit("&&");
    reveal_strlit("||");
    let t = sign_of(op);
    assert(spelled(t) =~= symbol_text(op));
    lemma_token_lexed(src, i, t);
    lemma_signs(op, crate::ast::UnOp::Neg);
}

// --- numbers in other bases ----------------------------------------------------------------------

/// A digit: 0 to 9, then letters.
pub open spec fn digit_byte(d: int) -> u8 {
    if d < 10 {
        (48 + d) as u8
    } else {
        (87 + d) as u8
    }
}

/// A number in base 16 or 2, most significant digit first.
pub open spec fn in_base(n: nat, radix: nat) -> Seq<u8>
    decreases n,
{
    if radix == 16 && n >= 16 {
        in_base(n / 16, radix).push(digit_byte((n % 16) as int))
    } else if radix == 2 && n >= 2 {
        in_base(n / 2, radix).push(digit_byte((n % 2) as int))
    } else {
        seq![digit_byte(n as int)]
    }
}

proof fn lemma_in_base(n: nat, radix: nat)
    requires
        radix == 2 || radix == 16,
    ensures
        number_value(in_base(n, radix), radix as int) == Some(n),
        drop_underscores(in_base(n, radix)) == in_base(n, radix),
        in_base(n, radix).len() > 0,
        forall|i: int| 0 <= i < in_base(n, radix).len() ==> is_word(#[trigger] in_base(n, radix)[i]),
    decreases n,
{
    let b = in_base(n, radix);
    if n >= radix {
        let high = if radix == 16 {
            n / 16
        } else {
            n / 2
        };
        let low = if radix == 16 {
            n % 16
        } else {
            n % 2
        };
        lemma_in_base(high, radix);
        assert(b.drop_last() =~= in_base(high, radix));
        assert(b.last() == digit_byte(low as int));
        assert(digit_value(b.last()) == low);
        assert(n == high * radix + low);
        assert(drop_underscores(b) =~= b);
        assert forall|i: int| 0 <= i < b.len() implies is_word(#[trigger] b[i]) by {
            if i < b.len() - 1 {
                assert(b[i] == in_base(high, radix)[i]);
            }
        }
    } else {
        assert(b.drop_last() =~= Seq::empty());
        assert(number_value(b.drop_last(), radix as int) == Some(0nat));
        assert(digit_value(b.last()) == n);
        assert(drop_underscores(b.drop_last()) =~= Seq::empty());
        assert(drop_underscores(b) =~= b);
    }
}

/// A number that is written in base 16 behind `0x`, or in base 2 behind `0b`, is lexed as
/// that number.
pub proof fn lemma_based_number(src: Seq<u8>, i: int, n: u64, radix: nat)
    requires
        radix == 2 || radix == 16,
        0 <= i,
        i + 2 + in_base(n as nat, radix).len() <= src.len(),
        src[i] == 48,
        src[i + 1] == if radix == 16 {
            120u8
        } else {
            98u8
        },
        src.subrange(i + 2, i + 2 + in_base(n as nat, radix).len()) == in_base(n as nat, radix),
        i + 2 + in_base(n as nat, radix).len() < src.len() ==> !is_word(src[i + 2 + in_base(n as nat, radix).len()]),
    ensures
        token_at(src, i) == Ok::<(Lexeme, int), Seq<char>>((Lexeme::Num(n), i + 2 + in_base(n as nat, radix).len())),
{
    let b = in_base(n as nat, radix);
    lemma_in_base(n as nat, radix);
    assert forall|k: int| i + 2 <= k < i + 2 + b.len() implies is_word(#[trigger] src[k]) by {
        assert(src.subrange(i + 2, i + 2 + b.len())[k - i - 2] == b[k - i - 2]);
    }
    lemma_word_end(src, i + 2, b.len());
}

/// An underscore among the digits of a number changes nothing.
pub proof fn lemma_underscore(a: Seq<u8>, b: Seq<u8>)
    ensures
        drop_underscores(a + seq![95u8] + b) == drop_underscores(a + b),
    decreases b.len(),
{
    let s = a + seq![95u8] + b;
    if b.len() == 0 {
        assert(s.drop_last() =~= a);
        assert(a + b =~= a);
    } else {
        lemma_underscore(a, b.drop_last());
        assert(s.drop_last() =~= a + seq![95u8] + b.drop_last());
        assert((a + b).drop_last() =~= a + b.drop_last());
    }
}

// --- places and comments -------------------------------------------------------------------------------

/// Lines and columns count from one. Past the end of a line the next line begins at its first
/// column; past any other byte the column is one further.
pub proof fn lemma_places(src: Seq<u8>, i: int)
    requires
        0 <= i < src.len() < u32::MAX - 1,
    ensures
        span_at(src, 0) == (Span { line: 1, col: 1 }),
        src[i] == 10 ==> span_at(src, i + 1) == (Span { line: (span_at(src, i).line + 1) as u32, col: 1 }),
        src[i] != 10 ==> span_at(src, i + 1) == (Span {
            line: span_at(src, i).line,
            col: (span_at(src, i).col + 1) as u32,
        }),
        span_at(src, i).line <= i + 1,
        span_at(src, i).col <= i + 1,
{
    lemma_position_bound(src, i);
    lemma_position_bound(src, i + 1);
}

/// A comment to the end of the line is skipped.
pub proof fn lemma_line_comment(src: Seq<u8>, i: int, j: int)
    requires
        0 <= i,
        i + 2 <= j <= src.len(),
        src[i] == 47 && src[i + 1] == 47,
        forall|k: int| i <= k < j ==> #[trigger] src[k] != 10,
        j < src.len() ==> src[j] == 10,
    ensures
        trivia_end(src, i) == trivia_end(src, j),
{
    lemma_line_ends(src, i, j);
}

proof fn lemma_line_ends(src: Seq<u8>, i: int, j: int)
    requires
        0 <= i <= j <= src.len(),
        forall|k: int| i <= k < j ==> #[trigger] src[k] != 10,
        j < src.len() ==> src[j] == 10,
    ensures
        line_end(src, i) == j,
    decreases j - i,
{
    if i < j {
        lemma_line_ends(src, i + 1, j);
    }
}

/// A block comment is skipped, up to the first mark that closes it.
pub proof fn lemma_block_comment(src: Seq<u8>, i: int, j: int)
    requires
        0 <= i,
        i + 2 <= j,
        j + 2 <= src.len(),
        src[i] == 47 && src[i + 1] == 42,
        src[j] == 42 && src[j + 1] == 47,
        forall|k: int| i + 2 <= k < j ==> !(#[trigger] src[k] == 42 && src[k + 1] == 47),
    ensures
        trivia_end(src, i) == trivia_end(src, j + 2),
{
    lemma_comment_ends(src, i + 2, j);
}

proof fn lemma_comment_ends(src: Seq<u8>, i: int, j: int)
    requires
        0 <= i <= j,
        j + 2 <= src.len(),
        src[j] == 42 && src[j + 1] == 47,
        forall|k: int| i <= k < j ==> !(#[trigger] src[k] == 42 && src[k + 1] == 47),
    ensures
        comment_end(src, i) == Some(j + 2),
    decreases j - i,
{
    if i < j {
        assert(!(src[i] == 42 && src[i + 1] == 47));
        lemma_comment_ends(src, i + 1, j);
    }
}

} // verus!
