//! Hand-written lexer for Ohm.
use crate::text::{decimal, push_decimal};
use vstd::prelude::*;
use vstd::string::*;

verus! {

#[derive(Debug, Clone, Copy, PartialEq, Eq, Structural)]
pub struct Span {
    pub line: u32,
    pub col: u32,
}

impl Default for Span {
    fn default() -> (s: Span)
        ensures
            s == (Span { line: 0, col: 0 }),
    {
        Span { line: 0, col: 0 }
    }
}

/// A place in the source as people read it: line, colon, column.
pub open spec fn span_text(s: Span) -> Seq<char> {
    decimal(s.line as nat) + ":"@ + decimal(s.col as nat)
}

impl Span {
    pub fn text(&self) -> (s: String)
        ensures
            s@ == span_text(*self),
    {
        let mut s = String::new();
        push_decimal(&mut s, self.line as u64);
        s.append(":");
        push_decimal(&mut s, self.col as u64);
        assert(s@ =~= span_text(*self));
        s
    }
}

#[derive(Debug, Clone, PartialEq, Eq)]
pub enum Tok {
    Num(u64),
    Ident(String),
    /// `u8`, `u1`, ... - a width type.
    UType(u32),
    Input,
    Output,
    Fn,
    Proc,
    Var,
    If,
    Else,
    While,
    Return,
    As,
    True,
    False,
    LParen,
    RParen,
    LBrace,
    RBrace,
    Semi,
    Comma,
    Arrow,
    Question,
    Colon,
    Assign,
    Plus,
    Minus,
    Star,
    Amp,
    Pipe,
    Caret,
    Tilde,
    Bang,
    Shl,
    Shr,
    EqEq,
    Ne,
    Lt,
    Le,
    Gt,
    Ge,
    AndAnd,
    OrOr,
    Eof,
}

/// What a token says.
#[verifier::ext_equal]
pub enum Lexeme {
    Num(u64),
    Ident(Seq<char>),
    /// `u8`, `u1`, ... - a width type.
    UType(u32),
    Input,
    Output,
    Fn,
    Proc,
    Var,
    If,
    Else,
    While,
    Return,
    As,
    True,
    False,
    LParen,
    RParen,
    LBrace,
    RBrace,
    Semi,
    Comma,
    Arrow,
    Question,
    Colon,
    Assign,
    Plus,
    Minus,
    Star,
    Amp,
    Pipe,
    Caret,
    Tilde,
    Bang,
    Shl,
    Shr,
    EqEq,
    Ne,
    Lt,
    Le,
    Gt,
    Ge,
    AndAnd,
    OrOr,
    Eof,
}

impl View for Tok {
    type V = Lexeme;

    open spec fn view(&self) -> Lexeme {
        match self {
            Tok::Num(n) => Lexeme::Num(*n),
            Tok::Ident(s) => Lexeme::Ident(s@),
            Tok::UType(w) => Lexeme::UType(*w),
            Tok::Input => Lexeme::Input,
            Tok::Output => Lexeme::Output,
            Tok::Fn => Lexeme::Fn,
            Tok::Proc => Lexeme::Proc,
            Tok::Var => Lexeme::Var,
            Tok::If => Lexeme::If,
            Tok::Else => Lexeme::Else,
            Tok::While => Lexeme::While,
            Tok::Return => Lexeme::Return,
            Tok::As => Lexeme::As,
            Tok::True => Lexeme::True,
            Tok::False => Lexeme::False,
            Tok::LParen => Lexeme::LParen,
            Tok::RParen => Lexeme::RParen,
            Tok::LBrace => Lexeme::LBrace,
            Tok::RBrace => Lexeme::RBrace,
            Tok::Semi => Lexeme::Semi,
            Tok::Comma => Lexeme::Comma,
            Tok::Arrow => Lexeme::Arrow,
            Tok::Question => Lexeme::Question,
            Tok::Colon => Lexeme::Colon,
            Tok::Assign => Lexeme::Assign,
            Tok::Plus => Lexeme::Plus,
            Tok::Minus => Lexeme::Minus,
            Tok::Star => Lexeme::Star,
            Tok::Amp => Lexeme::Amp,
            Tok::Pipe => Lexeme::Pipe,
            Tok::Caret => Lexeme::Caret,
            Tok::Tilde => Lexeme::Tilde,
            Tok::Bang => Lexeme::Bang,
            Tok::Shl => Lexeme::Shl,
            Tok::Shr => Lexeme::Shr,
            Tok::EqEq => Lexeme::EqEq,
            Tok::Ne => Lexeme::Ne,
            Tok::Lt => Lexeme::Lt,
            Tok::Le => Lexeme::Le,
            Tok::Gt => Lexeme::Gt,
            Tok::Ge => Lexeme::Ge,
            Tok::AndAnd => Lexeme::AndAnd,
            Tok::OrOr => Lexeme::OrOr,
            Tok::Eof => Lexeme::Eof,
        }
    }
}

/// A token as it is written in messages.
pub open spec fn lexeme_text(t: Lexeme) -> Seq<char> {
    match t {
        Lexeme::Num(n) => decimal(n as nat),
        Lexeme::Ident(s) => s,
        Lexeme::UType(w) => "u"@ + decimal(w as nat),
        Lexeme::Input => "input"@,
        Lexeme::Output => "output"@,
        Lexeme::Fn => "fn"@,
        Lexeme::Proc => "proc"@,
        Lexeme::Var => "var"@,
        Lexeme::If => "if"@,
        Lexeme::Else => "else"@,
        Lexeme::While => "while"@,
        Lexeme::Return => "return"@,
        Lexeme::As => "as"@,
        Lexeme::True => "true"@,
        Lexeme::False => "false"@,
        Lexeme::LParen => "("@,
        Lexeme::RParen => ")"@,
        Lexeme::LBrace => "{"@,
        Lexeme::RBrace => "}"@,
        Lexeme::Semi => ";"@,
        Lexeme::Comma => ","@,
        Lexeme::Arrow => "->"@,
        Lexeme::Question => "?"@,
        Lexeme::Colon => ":"@,
        Lexeme::Assign => "="@,
        Lexeme::Plus => "+"@,
        Lexeme::Minus => "-"@,
        Lexeme::Star => "*"@,
        Lexeme::Amp => "&"@,
        Lexeme::Pipe => "|"@,
        Lexeme::Caret => "^"@,
        Lexeme::Tilde => "~"@,
        Lexeme::Bang => "!"@,
        Lexeme::Shl => "<<"@,
        Lexeme::Shr => ">>"@,
        Lexeme::EqEq => "=="@,
        Lexeme::Ne => "!="@,
        Lexeme::Lt => "<"@,
        Lexeme::Le => "<="@,
        Lexeme::Gt => ">"@,
        Lexeme::Ge => ">="@,
        Lexeme::AndAnd => "&&"@,
        Lexeme::OrOr => "||"@,
        Lexeme::Eof => "<eof>"@,
    }
}

impl Tok {
    /// The token as it is written in messages.
    pub fn text(&self) -> (s: String)
        ensures
            s@ == lexeme_text(self@),
    {
        match self {
            Tok::Num(n) => crate::text::decimal_text(*n),
            Tok::Ident(i) => i.clone(),
            Tok::UType(w) => {
                let mut s = String::from_str("u");
                push_decimal(&mut s, *w as u64);
                s
            },
            Tok::Input => String::from_str("input"),
            Tok::Output => String::from_str("output"),
            Tok::Fn => String::from_str("fn"),
            Tok::Proc => String::from_str("proc"),
            Tok::Var => String::from_str("var"),
            Tok::If => String::from_str("if"),
            Tok::Else => String::from_str("else"),
            Tok::While => String::from_str("while"),
            Tok::Return => String::from_str("return"),
            Tok::As => String::from_str("as"),
            Tok::True => String::from_str("true"),
            Tok::False => String::from_str("false"),
            Tok::LParen => String::from_str("("),
            Tok::RParen => String::from_str(")"),
            Tok::LBrace => String::from_str("{"),
            Tok::RBrace => String::from_str("}"),
            Tok::Semi => String::from_str(";"),
            Tok::Comma => String::from_str(","),
            Tok::Arrow => String::from_str("->"),
            Tok::Question => String::from_str("?"),
            Tok::Colon => String::from_str(":"),
            Tok::Assign => String::from_str("="),
            Tok::Plus => String::from_str("+"),
            Tok::Minus => String::from_str("-"),
            Tok::Star => String::from_str("*"),
            Tok::Amp => String::from_str("&"),
            Tok::Pipe => String::from_str("|"),
            Tok::Caret => String::from_str("^"),
            Tok::Tilde => String::from_str("~"),
            Tok::Bang => String::from_str("!"),
            Tok::Shl => String::from_str("<<"),
            Tok::Shr => String::from_str(">>"),
            Tok::EqEq => String::from_str("=="),
            Tok::Ne => String::from_str("!="),
            Tok::Lt => String::from_str("<"),
            Tok::Le => String::from_str("<="),
            Tok::Gt => String::from_str(">"),
            Tok::Ge => String::from_str(">="),
            Tok::AndAnd => String::from_str("&&"),
            Tok::OrOr => String::from_str("||"),
            Tok::Eof => String::from_str("<eof>"),
        }
    }

    /// A copy of the token.
    pub fn copy(&self) -> (t: Tok)
        ensures
            t@ == self@,
    {
        match self {
            Tok::Num(n) => Tok::Num(*n),
            Tok::Ident(i) => Tok::Ident(i.clone()),
            Tok::UType(w) => Tok::UType(*w),
            Tok::Input => Tok::Input,
            Tok::Output => Tok::Output,
            Tok::Fn => Tok::Fn,
            Tok::Proc => Tok::Proc,
            Tok::Var => Tok::Var,
            Tok::If => Tok::If,
            Tok::Else => Tok::Else,
            Tok::While => Tok::While,
            Tok::Return => Tok::Return,
            Tok::As => Tok::As,
            Tok::True => Tok::True,
            Tok::False => Tok::False,
            Tok::LParen => Tok::LParen,
            Tok::RParen => Tok::RParen,
            Tok::LBrace => Tok::LBrace,
            Tok::RBrace => Tok::RBrace,
            Tok::Semi => Tok::Semi,
            Tok::Comma => Tok::Comma,
            Tok::Arrow => Tok::Arrow,
            Tok::Question => Tok::Question,
            Tok::Colon => Tok::Colon,
            Tok::Assign => Tok::Assign,
            Tok::Plus => Tok::Plus,
            Tok::Minus => Tok::Minus,
            Tok::Star => Tok::Star,
            Tok::Amp => Tok::Amp,
            Tok::Pipe => Tok::Pipe,
            Tok::Caret => Tok::Caret,
            Tok::Tilde => Tok::Tilde,
            Tok::Bang => Tok::Bang,
            Tok::Shl => Tok::Shl,
            Tok::Shr => Tok::Shr,
            Tok::EqEq => Tok::EqEq,
            Tok::Ne => Tok::Ne,
            Tok::Lt => Tok::Lt,
            Tok::Le => Tok::Le,
            Tok::Gt => Tok::Gt,
            Tok::Ge => Tok::Ge,
            Tok::AndAnd => Tok::AndAnd,
            Tok::OrOr => Tok::OrOr,
            Tok::Eof => Tok::Eof,
        }
    }
}

#[derive(Debug, Clone)]
pub struct Token {
    pub tok: Tok,
    pub span: Span,
}

impl View for Token {
    type V = (Lexeme, Span);

    open spec fn view(&self) -> (Lexeme, Span) {
        (self.tok@, self.span)
    }
}

pub struct Lexer<'s> {
    src: &'s [u8],
    pos: usize,
    line: u32,
    col: u32,
}

pub type LexResult<T> = Result<T, String>;

// --- what the source says ------------------------------------------------

/// The byte at `i`; zero past the end.
pub open spec fn byte_at(src: Seq<u8>, i: int) -> u8 {
    if 0 <= i < src.len() {
        src[i]
    } else {
        0
    }
}

/// How many lines end before `i`.
pub open spec fn newlines(src: Seq<u8>, i: int) -> nat
    decreases i,
{
    if i <= 0 {
        0
    } else {
        newlines(src, i - 1) + if byte_at(src, i - 1) == 10 {
            1nat
        } else {
            0
        }
    }
}

/// How many bytes stand before `i` on its line.
pub open spec fn offset_in_line(src: Seq<u8>, i: int) -> nat
    decreases i,
{
    if i <= 0 || byte_at(src, i - 1) == 10 {
        0
    } else {
        offset_in_line(src, i - 1) + 1
    }
}

/// Line and column of the byte at `i`, both counted from one.
pub open spec fn span_at(src: Seq<u8>, i: int) -> Span {
    Span { line: (1 + newlines(src, i)) as u32, col: (1 + offset_in_line(src, i)) as u32 }
}

pub open spec fn is_space(b: u8) -> bool {
    b == 32 || b == 9 || b == 13 || b == 10
}

pub open spec fn is_digit(b: u8) -> bool {
    48 <= b <= 57
}

pub open spec fn is_letter(b: u8) -> bool {
    65 <= b <= 90 || 97 <= b <= 122
}

/// A letter, a digit or an underscore.
pub open spec fn is_word(b: u8) -> bool {
    is_digit(b) || is_letter(b) || b == 95
}

/// Where the line that `i` is on ends: at its newline, or at the end.
pub open spec fn line_end(src: Seq<u8>, i: int) -> int
    decreases src.len() - i,
{
    if i >= src.len() || src[i] == 10 {
        i
    } else {
        line_end(src, i + 1)
    }
}

/// Past the `*/` that closes a block comment, if there is one.
pub open spec fn comment_end(src: Seq<u8>, i: int) -> Option<int>
    decreases src.len() - i,
{
    if i >= src.len() {
        None
    } else if src[i] == 42 && byte_at(src, i + 1) == 47 {
        Some(i + 2)
    } else {
        comment_end(src, i + 1)
    }
}

/// Past blanks and comments, or where a comment opens that is never closed.
pub open spec fn trivia_end(src: Seq<u8>, i: int) -> Result<int, int>
    decreases src.len() - i,
{
    if i < 0 || i >= src.len() {
        Ok(i)
    } else if is_space(src[i]) {
        trivia_end(src, i + 1)
    } else if src[i] == 47 && byte_at(src, i + 1) == 47 {
        if i < line_end(src, i) <= src.len() {
            trivia_end(src, line_end(src, i))
        } else {
            Ok(i)
        }
    } else if src[i] == 47 && byte_at(src, i + 1) == 42 {
        match comment_end(src, i + 2) {
            Some(j) => if i < j <= src.len() {
                trivia_end(src, j)
            } else {
                Ok(i)
            },
            None => Err(i),
        }
    } else {
        Ok(i)
    }
}

/// Where a run of letters, digits and underscores ends.
pub open spec fn word_end(src: Seq<u8>, i: int) -> int
    decreases src.len() - i,
{
    if i < 0 || i >= src.len() || !is_word(src[i]) {
        i
    } else {
        word_end(src, i + 1)
    }
}

/// Bytes as characters.
pub open spec fn chars_of(b: Seq<u8>) -> Seq<char> {
    Seq::new(b.len(), |i: int| b[i] as char)
}

/// Without the underscores.
pub open spec fn drop_underscores(b: Seq<u8>) -> Seq<u8>
    decreases b.len(),
{
    if b.len() == 0 {
        b
    } else if b.last() == 95 {
        drop_underscores(b.drop_last())
    } else {
        drop_underscores(b.drop_last()).push(b.last())
    }
}

/// The value of a digit in bases up to 36.
pub open spec fn digit_value(b: u8) -> int {
    if 48 <= b <= 57 {
        b - 48
    } else if 97 <= b <= 122 {
        b - 87
    } else if 65 <= b <= 90 {
        b - 55
    } else {
        99
    }
}

/// The number that digits in a base stand for, if all of them are digits of it.
pub open spec fn number_value(b: Seq<u8>, radix: int) -> Option<nat>
    decreases b.len(),
{
    if b.len() == 0 {
        Some(0)
    } else {
        match number_value(b.drop_last(), radix) {
            Some(n) => if digit_value(b.last()) < radix {
                Some((n * radix + digit_value(b.last())) as nat)
            } else {
                None
            },
            None => None,
        }
    }
}

/// The base of the literal at `i`.
pub open spec fn radix_at(src: Seq<u8>, i: int) -> int {
    let second = byte_at(src, i + 1);
    if byte_at(src, i) == 48 && (second == 120 || second == 88) {
        16
    } else if byte_at(src, i) == 48 && (second == 98 || second == 66) {
        2
    } else {
        10
    }
}

/// Where the digits of the literal at `i` begin.
pub open spec fn digits_at(src: Seq<u8>, i: int) -> int {
    if radix_at(src, i) == 10 {
        i
    } else {
        i + 2
    }
}

pub open spec fn quoted(s: Seq<char>) -> Seq<char> {
    seq!['"'] + s + seq!['"']
}

/// The number literal at `i`, and where it ends.
pub open spec fn number_at(src: Seq<u8>, i: int) -> Result<(Lexeme, int), Seq<char>> {
    let radix = radix_at(src, i);
    let from = digits_at(src, i);
    let end = word_end(src, from);
    let digits = drop_underscores(src.subrange(from, end));
    let place = span_text(span_at(src, i));
    if digits.len() == 0 {
        Err(place + ": malformed numeric literal "@ + quoted(chars_of(src.subrange(i, end))))
    } else {
        match number_value(digits, radix) {
            Some(n) => if n <= u64::MAX {
                Ok((Lexeme::Num(n as u64), end))
            } else {
                Err(invalid_literal(place, radix, digits))
            },
            None => Err(invalid_literal(place, radix, digits)),
        }
    }
}

pub open spec fn invalid_literal(place: Seq<char>, radix: int, digits: Seq<u8>) -> Seq<char> {
    place + ": invalid base-"@ + decimal(radix as nat) + " literal "@ + quoted(chars_of(digits))
}

/// A word: a keyword, a width type or a name. `uN` is a type only when N is a
/// plain number that fits in 32 bits.
pub open spec fn word_lexeme(w: Seq<u8>) -> Lexeme {
    let s = chars_of(w);
    if s == "input"@ {
        Lexeme::Input
    } else if s == "output"@ {
        Lexeme::Output
    } else if s == "fn"@ {
        Lexeme::Fn
    } else if s == "proc"@ {
        Lexeme::Proc
    } else if s == "var"@ {
        Lexeme::Var
    } else if s == "if"@ {
        Lexeme::If
    } else if s == "else"@ {
        Lexeme::Else
    } else if s == "while"@ {
        Lexeme::While
    } else if s == "return"@ {
        Lexeme::Return
    } else if s == "as"@ {
        Lexeme::As
    } else if s == "true"@ {
        Lexeme::True
    } else if s == "false"@ {
        Lexeme::False
    } else if s == "bool"@ {
        Lexeme::UType(1)
    } else if w.len() > 1 && w[0] == 117 && all_digits(w.skip(1)) && number_value(w.skip(1), 10)->0
        <= u32::MAX {
        Lexeme::UType(number_value(w.skip(1), 10)->0 as u32)
    } else {
        Lexeme::Ident(s)
    }
}

pub open spec fn all_digits(b: Seq<u8>) -> bool {
    forall|i: int| 0 <= i < b.len() ==> is_digit(#[trigger] b[i])
}

/// `char`'s `Debug` text, quotes and escapes included.
pub uninterp spec fn char_debug(c: char) -> Seq<char>;

/// An operator or a punctuation mark at `i`, and where it ends.
pub open spec fn sign_at(src: Seq<u8>, i: int) -> Result<(Lexeme, int), Seq<char>> {
    let c = src[i];
    let second = byte_at(src, i + 1);
    if c == 40 {
        Ok((Lexeme::LParen, i + 1))
    } else if c == 41 {
        Ok((Lexeme::RParen, i + 1))
    } else if c == 123 {
        Ok((Lexeme::LBrace, i + 1))
    } else if c == 125 {
        Ok((Lexeme::RBrace, i + 1))
    } else if c == 59 {
        Ok((Lexeme::Semi, i + 1))
    } else if c == 44 {
        Ok((Lexeme::Comma, i + 1))
    } else if c == 63 {
        Ok((Lexeme::Question, i + 1))
    } else if c == 58 {
        Ok((Lexeme::Colon, i + 1))
    } else if c == 43 {
        Ok((Lexeme::Plus, i + 1))
    } else if c == 42 {
        Ok((Lexeme::Star, i + 1))
    } else if c == 94 {
        Ok((Lexeme::Caret, i + 1))
    } else if c == 126 {
        Ok((Lexeme::Tilde, i + 1))
    } else if c == 45 {
        if second == 62 {
            Ok((Lexeme::Arrow, i + 2))
        } else {
            Ok((Lexeme::Minus, i + 1))
        }
    } else if c == 38 {
        if second == 38 {
            Ok((Lexeme::AndAnd, i + 2))
        } else {
            Ok((Lexeme::Amp, i + 1))
        }
    } else if c == 124 {
        if second == 124 {
            Ok((Lexeme::OrOr, i + 2))
        } else {
            Ok((Lexeme::Pipe, i + 1))
        }
    } else if c == 61 {
        if second == 61 {
            Ok((Lexeme::EqEq, i + 2))
        } else {
            Ok((Lexeme::Assign, i + 1))
        }
    } else if c == 33 {
        if second == 61 {
            Ok((Lexeme::Ne, i + 2))
        } else {
            Ok((Lexeme::Bang, i + 1))
        }
    } else if c == 60 {
        if second == 60 {
            Ok((Lexeme::Shl, i + 2))
        } else if second == 61 {
            Ok((Lexeme::Le, i + 2))
        } else {
            Ok((Lexeme::Lt, i + 1))
        }
    } else if c == 62 {
        if second == 62 {
            Ok((Lexeme::Shr, i + 2))
        } else if second == 61 {
            Ok((Lexeme::Ge, i + 2))
        } else {
            Ok((Lexeme::Gt, i + 1))
        }
    } else {
        Err(span_text(span_at(src, i)) + ": unexpected character "@ + char_debug(c as char))
    }
}

/// The token at `i`, where no blank and no comment stands, and where it ends.
pub open spec fn token_at(src: Seq<u8>, i: int) -> Result<(Lexeme, int), Seq<char>> {
    if is_digit(src[i]) {
        number_at(src, i)
    } else if is_letter(src[i]) || src[i] == 95 {
        Ok((word_lexeme(src.subrange(i, word_end(src, i))), word_end(src, i)))
    } else {
        sign_at(src, i)
    }
}

/// The tokens from `i` on, ending in `Eof`, or what is wrong.
pub open spec fn tokens_from(src: Seq<u8>, i: int) -> Result<Seq<(Lexeme, Span)>, Seq<char>>
    decreases src.len() - i,
{
    match trivia_end(src, i) {
        Err(open) => Err(span_text(span_at(src, open)) + ": unterminated block comment"@),
        Ok(j) => if j < i || j >= src.len() {
            Ok(seq![(Lexeme::Eof, span_at(src, j))])
        } else {
            match token_at(src, j) {
                Err(e) => Err(e),
                Ok((t, k)) => if k <= j || k > src.len() {
                    Err(seq![])
                } else {
                    match tokens_from(src, k) {
                        Err(e) => Err(e),
                        Ok(rest) => Ok(seq![(t, span_at(src, j))] + rest),
                    }
                },
            }
        },
    }
}

/// The tokens of a source text.
pub open spec fn tokens_of(src: Seq<u8>) -> Result<Seq<(Lexeme, Span)>, Seq<char>> {
    tokens_from(src, 0)
}

/// What the views of a row of tokens are.
pub open spec fn views(ts: Seq<Token>) -> Seq<(Lexeme, Span)> {
    Seq::new(ts.len(), |i: int| ts[i]@)
}

// --- lemmas --------------------------------------------------------------

proof fn lemma_line_end(src: Seq<u8>, i: int)
    requires
        0 <= i <= src.len(),
    ensures
        i <= line_end(src, i) <= src.len(),
    decreases src.len() - i,
{
    if i < src.len() && src[i] != 10 {
        lemma_line_end(src, i + 1);
    }
}

proof fn lemma_comment_end(src: Seq<u8>, i: int)
    requires
        0 <= i,
    ensures
        comment_end(src, i) matches Some(j) ==> i + 2 <= j <= src.len(),
    decreases src.len() - i,
{
    if i < src.len() && !(src[i] == 42 && byte_at(src, i + 1) == 47) {
        lemma_comment_end(src, i + 1);
    }
}

proof fn lemma_trivia_end(src: Seq<u8>, i: int)
    requires
        0 <= i <= src.len(),
    ensures
        trivia_end(src, i) matches Ok(j) ==> i <= j <= src.len(),
        trivia_end(src, i) matches Err(j) ==> i <= j < src.len(),
    decreases src.len() - i,
{
    if i < src.len() {
        if is_space(src[i]) {
            lemma_trivia_end(src, i + 1);
        } else if src[i] == 47 && byte_at(src, i + 1) == 47 {
            lemma_line_end(src, i);
            if line_end(src, i) > i {
                lemma_trivia_end(src, line_end(src, i));
            }
        } else if src[i] == 47 && byte_at(src, i + 1) == 42 {
            lemma_comment_end(src, i + 2);
            if let Some(j) = comment_end(src, i + 2) {
                lemma_trivia_end(src, j);
            }
        }
    }
}

proof fn lemma_word_end(src: Seq<u8>, i: int)
    requires
        0 <= i <= src.len(),
    ensures
        i <= word_end(src, i) <= src.len(),
        i < src.len() && is_word(src[i]) ==> word_end(src, i) > i,
    decreases src.len() - i,
{
    if i < src.len() && is_word(src[i]) {
        lemma_word_end(src, i + 1);
    }
}

pub proof fn lemma_position_bound(src: Seq<u8>, i: int)
    requires
        0 <= i,
    ensures
        newlines(src, i) <= i,
        offset_in_line(src, i) <= i,
    decreases i,
{
    if i > 0 {
        lemma_position_bound(src, i - 1);
    }
}

/// Lexing makes progress and ends.
pub proof fn lemma_token_advances(src: Seq<u8>, j: int)
    requires
        0 <= j < src.len(),
    ensures
        token_at(src, j) matches Ok(r) ==> j < r.1 <= src.len(),
{
    lemma_word_end(src, j);
    if digits_at(src, j) <= src.len() {
        lemma_word_end(src, digits_at(src, j));
    }
}

/// The `Debug` text of a `char`, as std formats it.
///
/// Taken on trust: the text depends on the character alone and is called
/// [`char_debug`]; a printable ASCII character other than the quote and the backslash
/// stands between quotes as it is. How others are escaped is not stated.
#[verifier::external_body]
fn debug_char(c: char) -> (s: String)
    ensures
        s@ == char_debug(c),
        0x20 <= c as u32 <= 0x7e && c != '\'' && c != '\\' ==> s@ == seq!['\'', c, '\''],
{
    format!("{:?}", c)
}

/// Bytes as text.
fn text_of(b: &Vec<u8>) -> (s: String)
    ensures
        s@ == chars_of(b@),
{
    let mut s = String::new();
    for i in 0..b.len()
        invariant
            s@ == chars_of(b@.take(i as int)),
    {
        s.push(b[i] as char);
        assert(chars_of(b@.take(i + 1)) =~= chars_of(b@.take(i as int)).push(b@[i as int] as char));
    }
    assert(b@.take(b@.len() as int) =~= b@);
    s
}

fn digit_of(b: u8) -> (d: u64)
    ensures
        d == digit_value(b),
        d <= 99,
{
    if 48 <= b && b <= 57 {
        (b - 48) as u64
    } else if 97 <= b && b <= 122 {
        (b - 87) as u64
    } else if 65 <= b && b <= 90 {
        (b - 55) as u64
    } else {
        99
    }
}

/// A number too large stays too large, and what is no number stays none.
proof fn lemma_number_prefix(b: Seq<u8>, radix: int, n: int)
    requires
        0 <= n <= b.len(),
        radix >= 2,
        match number_value(b.take(n), radix) {
            Some(v) => v > u64::MAX,
            None => true,
        },
    ensures
        match number_value(b, radix) {
            Some(v) => v > u64::MAX,
            None => true,
        },
    decreases b.len() - n,
{
    if n < b.len() {
        assert(b.take(n + 1).drop_last() =~= b.take(n));
        if let Some(v) = number_value(b.take(n), radix) {
            assert(v * radix >= v) by (nonlinear_arith)
                requires
                    v >= 0,
                    radix >= 2,
            ;
        }
        lemma_number_prefix(b, radix, n + 1);
    } else {
        assert(b.take(n) =~= b);
    }
}

/// The number that the digits stand for, if it fits.
fn parse_number(b: &Vec<u8>, radix: u64) -> (r: Option<u64>)
    requires
        2 <= radix <= 16,
    ensures
        match r {
            Some(v) => number_value(b@, radix as int) == Some(v as nat),
            None => match number_value(b@, radix as int) {
                Some(v) => v > u64::MAX,
                None => true,
            },
        },
{
    let mut v: u64 = 0;
    for i in 0..b.len()
        invariant
            2 <= radix <= 16,
            number_value(b@.take(i as int), radix as int) == Some(v as nat),
    {
        let d: u64 = digit_of(b[i]);
        proof {
            assert(b@.take(i + 1).drop_last() =~= b@.take(i as int));
            assert(v * radix >= 0) by (nonlinear_arith)
                requires
                    v >= 0,
                    radix >= 0,
            ;
        }
        if d >= radix {
            proof {
                lemma_number_prefix(b@, radix as int, i + 1);
            }
            return None;
        }
        match v.checked_mul(radix) {
            Some(m) => match m.checked_add(d) {
                Some(x) => {
                    v = x;
                },
                None => {
                    proof {
                        lemma_number_prefix(b@, radix as int, i + 1);
                    }
                    return None;
                },
            },
            None => {
                proof {
                    lemma_number_prefix(b@, radix as int, i + 1);
                }
                return None;
            },
        }
    }
    assert(b@.take(b@.len() as int) =~= b@);
    Some(v)
}

proof fn lemma_digits_have_value(b: Seq<u8>)
    requires
        all_digits(b),
    ensures
        number_value(b, 10) is Some,
    decreases b.len(),
{
    if b.len() > 0 {
        assert(is_digit(b[b.len() - 1]));
        assert forall|i: int| 0 <= i < b.drop_last().len() implies is_digit(
            #[trigger] b.drop_last()[i],
        ) by {
            assert(b.drop_last()[i] == b[i]);
        }
        lemma_digits_have_value(b.drop_last());
    }
}

impl<'s> Lexer<'s> {
    /// The source, as bytes.
    pub closed spec fn source(&self) -> Seq<u8> {
        self.src@
    }

    /// How far the lexer has got.
    pub closed spec fn at(&self) -> int {
        self.pos as int
    }

    /// Line and column belong to the position.
    pub closed spec fn wf(&self) -> bool {
        &&& self.pos <= self.src@.len()
        &&& self.src@.len() < u32::MAX
        &&& self.line == 1 + newlines(self.src@, self.pos as int)
        &&& self.col == 1 + offset_in_line(self.src@, self.pos as int)
    }

    pub fn new(src: &'s str) -> (l: Self)
        requires
            src.spec_bytes().len() < u32::MAX,
        ensures
            l.source() == src.spec_bytes(),
            l.at() == 0,
            l.wf(),
    {
        Lexer { src: src.as_bytes(), pos: 0, line: 1, col: 1 }
    }

    fn peek(&self) -> (b: u8)
        requires
            self.wf(),
        ensures
            b == byte_at(self.source(), self.at()),
    {
        if self.pos < self.src.len() {
            self.src[self.pos]
        } else {
            0
        }
    }

    fn peek2(&self) -> (b: u8)
        requires
            self.wf(),
        ensures
            b == byte_at(self.source(), self.at() + 1),
    {
        if self.pos + 1 < self.src.len() {
            self.src[self.pos + 1]
        } else {
            0
        }
    }

    fn bump(&mut self) -> (b: u8)
        requires
            old(self).wf(),
            old(self).at() < old(self).source().len(),
        ensures
            final(self).wf(),
            final(self).source() == old(self).source(),
            final(self).at() == old(self).at() + 1,
            b == old(self).source()[old(self).at()],
    {
        proof {
            lemma_position_bound(self.src@, self.pos as int);
        }
        let c: u8 = self.peek();
        self.pos = self.pos + 1;
        if c == 10 {
            self.line = self.line + 1;
            self.col = 1;
        } else {
            self.col = self.col + 1;
        }
        c
    }

    fn span(&self) -> (s: Span)
        requires
            self.wf(),
        ensures
            s == span_at(self.source(), self.at()),
    {
        Span { line: self.line, col: self.col }
    }

    /// Skip to the end of a line.
    fn skip_line(&mut self)
        requires
            old(self).wf(),
        ensures
            final(self).wf(),
            final(self).source() == old(self).source(),
            final(self).at() == line_end(old(self).source(), old(self).at()),
    {
        while self.pos < self.src.len() && self.peek() != 10
            invariant
                self.wf(),
                self.source() == old(self).source(),
                line_end(self.source(), old(self).at()) == line_end(self.source(), self.at()),
            decreases self.source().len() - self.at(),
        {
            self.bump();
        }
    }

    /// Skip past the end of a block comment, if it has one.
    fn skip_comment(&mut self) -> (closed: bool)
        requires
            old(self).wf(),
        ensures
            final(self).wf(),
            final(self).source() == old(self).source(),
            match comment_end(old(self).source(), old(self).at()) {
                Some(j) => closed && final(self).at() == j,
                None => !closed,
            },
    {
        while self.pos < self.src.len()
            invariant
                self.wf(),
                self.source() == old(self).source(),
                comment_end(self.source(), old(self).at()) == comment_end(
                    self.source(),
                    self.at(),
                ),
            decreases self.source().len() - self.at(),
        {
            if self.peek() == 42 && self.peek2() == 47 {
                self.bump();
                self.bump();
                return true;
            }
            self.bump();
        }
        false
    }

    fn skip_trivia(&mut self) -> (r: LexResult<()>)
        requires
            old(self).wf(),
        ensures
            final(self).wf(),
            final(self).source() == old(self).source(),
            match trivia_end(old(self).source(), old(self).at()) {
                Ok(j) => r is Ok && final(self).at() == j,
                Err(open) => r matches Err(e) && e@ == span_text(span_at(old(self).source(), open))
                    + ": unterminated block comment"@,
            },
    {
        let ghost src = self.source();
        let ghost from = self.at();
        loop
            invariant
                self.wf(),
                self.source() == src,
                src == old(self).source(),
                from == old(self).at(),
                trivia_end(src, from) == trivia_end(src, self.at()),
            decreases src.len() - self.at(),
        {
            let c: u8 = self.peek();
            if c == 32 || c == 9 || c == 13 || c == 10 {
                self.bump();
            } else if c == 47 && self.peek2() == 47 {
                proof {
                    lemma_line_end(src, self.at());
                    lemma_line_end(src, self.at() + 1);
                }
                self.skip_line();
            } else if c == 47 && self.peek2() == 42 {
                let open = self.span();
                proof {
                    lemma_comment_end(src, self.at() + 2);
                }
                self.bump();
                self.bump();
                if !self.skip_comment() {
                    let mut e = open.text();
                    e.append(": unterminated block comment");
                    return Err(e);
                }
            } else {
                return Ok(());
            }
        }
    }

    pub fn tokenize(self) -> (r: LexResult<Vec<Token>>)
        requires
            self.wf(),
        ensures
            match r {
                Ok(ts) => tokens_from(self.source(), self.at()) == Ok::<_, Seq<char>>(views(ts@)),
                Err(e) => tokens_from(self.source(), self.at()) == Err::<Seq<(Lexeme, Span)>, _>(
                    e@,
                ),
            },
    {
        let mut lx = self;
        let mut out: Vec<Token> = Vec::new();
        let ghost src = self.source();
        let ghost from = self.at();
        assert(views(out@) =~= seq![]);
        loop
            invariant
                lx.wf(),
                lx.source() == src,
                src == self.source(),
                from == self.at(),
                match tokens_from(src, lx.at()) {
                    Ok(rest) => tokens_from(src, from) == Ok::<_, Seq<char>>(views(out@) + rest),
                    Err(e) => tokens_from(src, from) == Err::<Seq<(Lexeme, Span)>, _>(e),
                },
            decreases src.len() - lx.at(),
        {
            let ghost start = lx.at();
            proof {
                lemma_trivia_end(src, start);
            }
            match lx.skip_trivia() {
                Ok(_) => {},
                Err(e) => {
                    return Err(e);
                },
            }
            let span = lx.span();
            if lx.pos >= lx.src.len() {
                let ghost out0 = out@;
                out.push(Token { tok: Tok::Eof, span });
                assert(views(out@) =~= views(out0) + seq![(Lexeme::Eof, span)]);
                return Ok(out);
            }
            let ghost j = lx.at();
            proof {
                lemma_token_advances(src, j);
            }
            match lx.next_token(span) {
                Ok(tok) => {
                    let ghost out0 = out@;
                    let ghost t = tok@;
                    out.push(Token { tok, span });
                    proof {
                        assert(views(out@) =~= views(out0).push((t, span)));
                        match tokens_from(src, lx.at()) {
                            Ok(rest) => {
                                assert(views(out0) + (seq![(t, span)] + rest) =~= views(out@) + rest);
                            },
                            Err(_) => {},
                        }
                    }
                },
                Err(e) => {
                    return Err(e);
                },
            }
        }
    }

    fn next_token(&mut self, span: Span) -> (r: LexResult<Tok>)
        requires
            old(self).wf(),
            old(self).at() < old(self).source().len(),
            span == span_at(old(self).source(), old(self).at()),
        ensures
            final(self).wf(),
            final(self).source() == old(self).source(),
            match token_at(old(self).source(), old(self).at()) {
                Ok((t, end)) => r matches Ok(tok) && tok@ == t && final(self).at() == end,
                Err(e) => r matches Err(x) && x@ == e,
            },
    {
        let c: u8 = self.peek();
        if c >= 48 && c <= 57 {
            return self.number(span);
        }
        if (c >= 65 && c <= 90) || (c >= 97 && c <= 122) || c == 95 {
            return Ok(self.word());
        }
        let second: u8 = self.peek2();
        self.bump();
        let tok: Tok = if c == 40 {
            Tok::LParen
        } else if c == 41 {
            Tok::RParen
        } else if c == 123 {
            Tok::LBrace
        } else if c == 125 {
            Tok::RBrace
        } else if c == 59 {
            Tok::Semi
        } else if c == 44 {
            Tok::Comma
        } else if c == 63 {
            Tok::Question
        } else if c == 58 {
            Tok::Colon
        } else if c == 43 {
            Tok::Plus
        } else if c == 42 {
            Tok::Star
        } else if c == 94 {
            Tok::Caret
        } else if c == 126 {
            Tok::Tilde
        } else if c == 45 {
            if second == 62 {
                self.bump();
                Tok::Arrow
            } else {
                Tok::Minus
            }
        } else if c == 38 {
            if second == 38 {
                self.bump();
                Tok::AndAnd
            } else {
                Tok::Amp
            }
        } else if c == 124 {
            if second == 124 {
                self.bump();
                Tok::OrOr
            } else {
                Tok::Pipe
            }
        } else if c == 61 {
            if second == 61 {
                self.bump();
                Tok::EqEq
            } else {
                Tok::Assign
            }
        } else if c == 33 {
            if second == 61 {
                self.bump();
                Tok::Ne
            } else {
                Tok::Bang
            }
        } else if c == 60 {
            if second == 60 {
                self.bump();
                Tok::Shl
            } else if second == 61 {
                self.bump();
                Tok::Le
            } else {
                Tok::Lt
            }
        } else if c == 62 {
            if second == 62 {
                self.bump();
                Tok::Shr
            } else if second == 61 {
                self.bump();
                Tok::Ge
            } else {
                Tok::Gt
            }
        } else {
            let mut e = span.text();
            e.append(": unexpected character ");
            let shown = debug_char(c as char);
            e.append(shown.as_str());
            return Err(e);
        };
        Ok(tok)
    }

    /// Move to the end of a word, collecting its bytes.
    fn take_word(&mut self) -> (b: Vec<u8>)
        requires
            old(self).wf(),
        ensures
            final(self).wf(),
            final(self).source() == old(self).source(),
            final(self).at() == word_end(old(self).source(), old(self).at()),
            b@ == old(self).source().subrange(old(self).at(), final(self).at()),
            old(self).at() <= final(self).at(),
    {
        let mut b: Vec<u8> = Vec::new();
        let ghost src = self.source();
        let ghost from = self.at();
        assert(b@ =~= src.subrange(from, from));
        loop
            invariant
                self.wf(),
                self.source() == src,
                src == old(self).source(),
                from == old(self).at(),
                from <= self.at(),
                word_end(src, from) == word_end(src, self.at()),
                b@ == src.subrange(from, self.at()),
            decreases src.len() - self.at(),
        {
            let c: u8 = self.peek();
            let inside: bool = (c >= 48 && c <= 57) || (c >= 65 && c <= 90) || (c >= 97 && c <= 122)
                || c == 95;
            if self.pos >= self.src.len() || !inside {
                return b;
            }
            let c: u8 = self.bump();
            b.push(c);
            assert(b@ =~= src.subrange(from, self.at()));
        }
    }

    fn number(&mut self, span: Span) -> (r: LexResult<Tok>)
        requires
            old(self).wf(),
            old(self).at() < old(self).source().len(),
            is_digit(old(self).source()[old(self).at()]),
            span == span_at(old(self).source(), old(self).at()),
        ensures
            final(self).wf(),
            final(self).source() == old(self).source(),
            match number_at(old(self).source(), old(self).at()) {
                Ok((t, end)) => r matches Ok(tok) && tok@ == t && final(self).at() == end,
                Err(e) => r matches Err(x) && x@ == e,
            },
    {
        let ghost src = self.source();
        let ghost start = self.at();
        let first: u8 = self.peek();
        let second: u8 = self.peek2();
        let radix: u64 = if first == 48 && (second == 120 || second == 88) {
            16
        } else if first == 48 && (second == 98 || second == 66) {
            2
        } else {
            10
        };
        let mut raw: Vec<u8> = Vec::new();
        if radix != 10 {
            let x: u8 = self.bump();
            let y: u8 = self.bump();
            raw.push(x);
            raw.push(y);
        }
        let ghost from = self.at();
        proof {
            lemma_word_end(src, from);
            assert(raw@ =~= src.subrange(start, from));
        }
        let mut digits = self.take_word();
        let ghost end = self.at();
        let ghost all = digits@;
        let mut kept: Vec<u8> = Vec::new();
        for i in 0..digits.len()
            invariant
                digits@ == all,
                kept@ == drop_underscores(all.take(i as int)),
                raw@ == src.subrange(start, from) + all.take(i as int),
        {
            assert(all.take(i + 1).drop_last() =~= all.take(i as int));
            if digits[i] != 95 {
                kept.push(digits[i]);
            }
            raw.push(digits[i]);
            assert(raw@ =~= src.subrange(start, from) + all.take(i + 1));
        }
        proof {
            assert(all.take(all.len() as int) =~= all);
            assert(raw@ =~= src.subrange(start, end));
        }
        if kept.len() == 0 {
            let mut e = span.text();
            e.append(": malformed numeric literal ");
            e.push('"');
            let shown = text_of(&raw);
            e.append(shown.as_str());
            e.push('"');
            assert(e@ =~= span_text(span) + ": malformed numeric literal "@ + quoted(
                chars_of(raw@),
            ));
            return Err(e);
        }
        match parse_number(&kept, radix) {
            Some(v) => Ok(Tok::Num(v)),
            None => {
                let mut e = span.text();
                e.append(": invalid base-");
                push_decimal(&mut e, radix);
                e.append(" literal ");
                e.push('"');
                let shown = text_of(&kept);
                e.append(shown.as_str());
                e.push('"');
                assert(e@ =~= invalid_literal(span_text(span), radix as int, kept@));
                Err(e)
            },
        }
    }

    fn word(&mut self) -> (t: Tok)
        requires
            old(self).wf(),
            old(self).at() < old(self).source().len(),
        ensures
            final(self).wf(),
            final(self).source() == old(self).source(),
            final(self).at() == word_end(old(self).source(), old(self).at()),
            t@ == word_lexeme(old(self).source().subrange(old(self).at(), final(self).at())),
    {
        let w = self.take_word();
        let s = text_of(&w);
        if s == "input".to_owned() {
            return Tok::Input;
        }
        if s == "output".to_owned() {
            return Tok::Output;
        }
        if s == "fn".to_owned() {
            return Tok::Fn;
        }
        if s == "proc".to_owned() {
            return Tok::Proc;
        }
        if s == "var".to_owned() {
            return Tok::Var;
        }
        if s == "if".to_owned() {
            return Tok::If;
        }
        if s == "else".to_owned() {
            return Tok::Else;
        }
        if s == "while".to_owned() {
            return Tok::While;
        }
        if s == "return".to_owned() {
            return Tok::Return;
        }
        if s == "as".to_owned() {
            return Tok::As;
        }
        if s == "true".to_owned() {
            return Tok::True;
        }
        if s == "false".to_owned() {
            return Tok::False;
        }
        if s == "bool".to_owned() {
            return Tok::UType(1);
        }
        // `uN` is a type keyword, but only when N is a plain number;
        // identifiers like `u8x` or `up` stay identifiers.
        if w.len() > 1 && w[0] == 117 {
            let mut rest: Vec<u8> = Vec::new();
            let mut plain: bool = true;
            for i in 1..w.len()
                invariant
                    w@.len() > 1,
                    rest@ == w@.subrange(1, i as int),
                    plain == all_digits(rest@),
            {
                let c: u8 = w[i];
                let ghost rest0 = rest@;
                rest.push(c);
                proof {
                    assert(rest@ =~= w@.subrange(1, i + 1));
                    assert(rest@[rest0.len() as int] == c);
                    if all_digits(rest@) {
                        assert forall|k: int| 0 <= k < rest0.len() implies is_digit(
                            #[trigger] rest0[k],
                        ) by {
                            assert(rest@[k] == rest0[k]);
                        }
                    }
                }
                if !(c >= 48 && c <= 57) {
                    plain = false;
                }
            }
            assert(rest@ =~= w@.skip(1));
            if plain {
                proof {
                    lemma_digits_have_value(rest@);
                }
                if let Some(v) = parse_number(&rest, 10) {
                    if v <= 0xffff_ffff {
                        return Tok::UType(v as u32);
                    }
                }
            }
        }
        Tok::Ident(s)
    }
}

} // verus!
