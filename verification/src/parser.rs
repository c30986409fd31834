//! Recursive-descent parser with precedence climbing for binary operators.
use crate::ast::{
    tree_span, BinOp, Block, Expr, ExprTree, Func, FuncTree, Param, ParamTree, Port, PortDir,
    PortTree, Program, ProgramTree, Stmt, StmtTree, Type, UnOp,
};
use crate::lexer::{
    lexeme_text, span_text, tokens_from, tokens_of, views, Lexeme, Lexer, Span, Tok, Token,
};
use crate::lower_types::prog_ok;
use crate::parser_types::lemma_program_ok;
use crate::text::{decimal, push_decimal};
use vstd::prelude::*;
use vstd::string::*;

verus! {

pub type ParseResult<T> = Result<T, String>;

pub struct Parser {
    toks: Vec<Token>,
    pos: usize,
}

/// The tokens that a parser reads.
pub type Input = Seq<(Lexeme, Span)>;

/// What reading from a place gives: a tree and the place behind it, or a complaint.
pub type Read<T> = Result<(T, int), Seq<char>>;

// --- the grammar ---------------------------------------------------------

/// The place after `p`; the last token is never passed.
pub open spec fn step(ts: Input, p: int) -> int {
    if p + 1 < ts.len() {
        p + 1
    } else {
        p
    }
}

/// Binding powers, loosest first.
pub open spec fn binding(t: Lexeme) -> Option<(BinOp, int)> {
    match t {
        Lexeme::OrOr => Some((BinOp::LOr, 1int)),
        Lexeme::AndAnd => Some((BinOp::LAnd, 2int)),
        Lexeme::Pipe => Some((BinOp::Or, 3int)),
        Lexeme::Caret => Some((BinOp::Xor, 4int)),
        Lexeme::Amp => Some((BinOp::And, 5int)),
        Lexeme::EqEq => Some((BinOp::Eq, 6int)),
        Lexeme::Ne => Some((BinOp::Ne, 6int)),
        Lexeme::Lt => Some((BinOp::Lt, 7int)),
        Lexeme::Le => Some((BinOp::Le, 7int)),
        Lexeme::Gt => Some((BinOp::Gt, 7int)),
        Lexeme::Ge => Some((BinOp::Ge, 7int)),
        Lexeme::Shl => Some((BinOp::Shl, 8int)),
        Lexeme::Shr => Some((BinOp::Shr, 8int)),
        Lexeme::Plus => Some((BinOp::Add, 9int)),
        Lexeme::Minus => Some((BinOp::Sub, 9int)),
        Lexeme::Star => Some((BinOp::Mul, 10int)),
        _ => None,
    }
}

pub open spec fn prefix(t: Lexeme) -> Option<UnOp> {
    match t {
        Lexeme::Minus => Some(UnOp::Neg),
        Lexeme::Bang => Some(UnOp::Not),
        Lexeme::Tilde => Some(UnOp::BitNot),
        _ => None,
    }
}

pub open spec fn place(ts: Input, p: int) -> Seq<char> {
    span_text(ts[p].1)
}

/// A token that has to be there.
pub open spec fn read_sign(ts: Input, p: int, t: Lexeme) -> Result<int, Seq<char>> {
    if ts[p].0 == t {
        Ok(step(ts, p))
    } else {
        Err(
            place(ts, p) + ": expected `"@ + lexeme_text(t) + "`, found `"@ + lexeme_text(ts[p].0)
                + "`"@,
        )
    }
}

pub open spec fn read_name(ts: Input, p: int) -> Read<Seq<char>> {
    match ts[p].0 {
        Lexeme::Ident(s) => Ok((s, step(ts, p))),
        other => Err(
            place(ts, step(ts, p)) + ": expected identifier, found `"@ + lexeme_text(other) + "`"@,
        ),
    }
}

pub open spec fn read_type(ts: Input, p: int) -> Read<Type> {
    match ts[p].0 {
        Lexeme::UType(w) => if w == 0 || w > 32 {
            Err(
                place(ts, p) + ": width u"@ + decimal(w as nat)
                    + " out of range (expected u1..u32)"@,
            )
        } else {
            Ok((Type { width: w }, step(ts, p)))
        },
        other => Err(
            place(ts, p) + ": expected a type like `u8`, found `"@ + lexeme_text(other) + "`"@,
        ),
    }
}

/// Any number of casts behind an expression.
pub open spec fn read_casts(ts: Input, e: ExprTree, p: int) -> Read<ExprTree>
    decreases ts.len() - p,
{
    if ts[p].0 == Lexeme::As {
        match read_type(ts, step(ts, p)) {
            Ok((ty, q)) => if p < q < ts.len() {
                read_casts(
                    ts,
                    ExprTree::Cast { operand: Box::new(e), ty, span: ts[step(ts, p)].1 },
                    q,
                )
            } else {
                Err(seq![])
            },
            Err(m) => Err(m),
        }
    } else {
        Ok((e, p))
    }
}

pub open spec fn read_atom(ts: Input, p: int) -> Read<ExprTree>
    decreases ts.len() - p, 2int,
{
    let span = ts[p].1;
    let q = step(ts, p);
    match ts[p].0 {
        Lexeme::Num(value) => Ok((ExprTree::Num { value, span }, q)),
        Lexeme::True => Ok((ExprTree::Num { value: 1, span }, q)),
        Lexeme::False => Ok((ExprTree::Num { value: 0, span }, q)),
        Lexeme::LParen => if p < q < ts.len() {
            match read_expr(ts, q) {
                Ok((e, r)) => match read_sign(ts, r, Lexeme::RParen) {
                    Ok(s) => Ok((e, s)),
                    Err(m) => Err(m),
                },
                Err(m) => Err(m),
            }
        } else {
            Err(seq![])
        },
        Lexeme::Ident(name) => if ts[q].0 == Lexeme::LParen {
            let r = step(ts, q);
            if ts[r].0 == Lexeme::RParen {
                Ok((ExprTree::Call { name, args: seq![], span }, step(ts, r)))
            } else if p < r < ts.len() {
                match read_args(ts, r, seq![]) {
                    Ok((args, s)) => match read_sign(ts, s, Lexeme::RParen) {
                        Ok(t) => Ok((ExprTree::Call { name, args, span }, t)),
                        Err(m) => Err(m),
                    },
                    Err(m) => Err(m),
                }
            } else {
                Err(seq![])
            }
        } else {
            Ok((ExprTree::Ident { name, span }, q))
        },
        other => Err(
            span_text(span) + ": expected an expression, found `"@ + lexeme_text(other) + "`"@,
        ),
    }
}

/// One or more expressions, separated by commas.
pub open spec fn read_args(ts: Input, p: int, before: Seq<ExprTree>) -> Read<Seq<ExprTree>>
    decreases ts.len() - p, 7int,
{
    match read_expr(ts, p) {
        Ok((e, q)) => if ts[q].0 == Lexeme::Comma {
            if p < step(ts, q) < ts.len() {
                read_args(ts, step(ts, q), before.push(e))
            } else {
                Err(seq![])
            }
        } else {
            Ok((before.push(e), q))
        },
        Err(m) => Err(m),
    }
}

pub open spec fn read_unary(ts: Input, p: int) -> Read<ExprTree>
    decreases ts.len() - p, 3int,
{
    match prefix(ts[p].0) {
        Some(op) => if p < step(ts, p) < ts.len() {
            match read_unary(ts, step(ts, p)) {
                Ok((e, q)) => read_casts(
                    ts,
                    ExprTree::Unary { op, operand: Box::new(e), span: ts[p].1 },
                    q,
                ),
                Err(m) => Err(m),
            }
        } else {
            Err(seq![])
        },
        None => match read_atom(ts, p) {
            Ok((e, q)) => read_casts(ts, e, q),
            Err(m) => Err(m),
        },
    }
}

/// Operators of binding power `least` or more, with what stands between them.
pub open spec fn read_binary(ts: Input, p: int, least: int) -> Read<ExprTree>
    decreases ts.len() - p, 4int,
{
    match read_unary(ts, p) {
        Ok((e, q)) => if p < q < ts.len() {
            read_more(ts, e, q, least)
        } else {
            Err(seq![])
        },
        Err(m) => Err(m),
    }
}

/// All binary operators are left-associative.
pub open spec fn read_more(ts: Input, lhs: ExprTree, p: int, least: int) -> Read<ExprTree>
    decreases ts.len() - p, 5int,
{
    match binding(ts[p].0) {
        Some((op, bp)) => if bp < least {
            Ok((lhs, p))
        } else if p < step(ts, p) < ts.len() {
            match read_binary(ts, step(ts, p), bp + 1) {
                Ok((rhs, q)) => if p < q < ts.len() {
                    read_more(
                        ts,
                        ExprTree::Binary {
                            op,
                            lhs: Box::new(lhs),
                            rhs: Box::new(rhs),
                            span: ts[p].1,
                        },
                        q,
                        least,
                    )
                } else {
                    Err(seq![])
                },
                Err(m) => Err(m),
            }
        } else {
            Err(seq![])
        },
        None => Ok((lhs, p)),
    }
}

/// `c ? t : f`, right-associative, or a binary expression.
pub open spec fn read_expr(ts: Input, p: int) -> Read<ExprTree>
    decreases ts.len() - p, 6int,
{
    match read_binary(ts, p, 1) {
        Ok((cond, q)) => if ts[q].0 == Lexeme::Question {
            if p < step(ts, q) < ts.len() {
                match read_expr(ts, step(ts, q)) {
                    Ok((then_e, r)) => match read_sign(ts, r, Lexeme::Colon) {
                        Ok(s) => if p < s < ts.len() {
                            match read_expr(ts, s) {
                                Ok((else_e, t)) => Ok(
                                    (
                                        ExprTree::Ternary {
                                            cond: Box::new(cond),
                                            then_e: Box::new(then_e),
                                            else_e: Box::new(else_e),
                                            span: tree_span(cond),
                                        },
                                        t,
                                    ),
                                ),
                                Err(m) => Err(m),
                            }
                        } else {
                            Err(seq![])
                        },
                        Err(m) => Err(m),
                    },
                    Err(m) => Err(m),
                }
            } else {
                Err(seq![])
            }
        } else {
            Ok((cond, q))
        },
        Err(m) => Err(m),
    }
}

/// An expression and the semicolon behind it.
#[verifier::opaque]
pub open spec fn read_expr_semi(ts: Input, p: int) -> Read<ExprTree> {
    match read_expr(ts, p) {
        Ok((e, q)) => match read_sign(ts, q, Lexeme::Semi) {
            Ok(r) => Ok((e, r)),
            Err(m) => Err(m),
        },
        Err(m) => Err(m),
    }
}

/// An expression in parentheses.
#[verifier::opaque]
pub open spec fn read_cond(ts: Input, p: int) -> Read<ExprTree> {
    match read_sign(ts, p, Lexeme::LParen) {
        Ok(q) => match read_expr(ts, q) {
            Ok((e, r)) => match read_sign(ts, r, Lexeme::RParen) {
                Ok(s) => Ok((e, s)),
                Err(m) => Err(m),
            },
            Err(m) => Err(m),
        },
        Err(m) => Err(m),
    }
}

pub open spec fn read_block(ts: Input, p: int) -> Read<Seq<StmtTree>>
    decreases ts.len() - p, 8int,
{
    match read_sign(ts, p, Lexeme::LBrace) {
        Ok(q) => if p < q < ts.len() {
            read_stmts(ts, q, seq![])
        } else {
            Err(seq![])
        },
        Err(m) => Err(m),
    }
}

/// Statements up to the closing brace.
pub open spec fn read_stmts(ts: Input, p: int, before: Seq<StmtTree>) -> Read<Seq<StmtTree>>
    decreases ts.len() - p, 10int,
{
    if ts[p].0 == Lexeme::RBrace {
        Ok((before, step(ts, p)))
    } else if ts[p].0 == Lexeme::Eof {
        Err(place(ts, p) + ": unclosed block at end of file"@)
    } else {
        match read_stmt(ts, p) {
            Ok((s, q)) => if p < q < ts.len() {
                read_stmts(ts, q, before.push(s))
            } else {
                Err(seq![])
            },
            Err(m) => Err(m),
        }
    }
}

/// `var u8 x = e;` or `var x = e;`, from behind `var`.
#[verifier::opaque]
pub open spec fn read_var(ts: Input, p: int, span: Span) -> Read<StmtTree> {
    let typed: Read<Option<Type>> = match ts[p].0 {
        Lexeme::UType(_) => match read_type(ts, p) {
            Ok((t, q)) => Ok((Some(t), q)),
            Err(m) => Err(m),
        },
        _ => Ok((None, p)),
    };
    match typed {
        Ok((ty, q)) => match read_name(ts, q) {
            Ok((name, r)) => match read_sign(ts, r, Lexeme::Assign) {
                Ok(s) => match read_expr_semi(ts, s) {
                    Ok((init, t)) => Ok((StmtTree::Var { ty, name, init, span }, t)),
                    Err(m) => Err(m),
                },
                Err(m) => Err(m),
            },
            Err(m) => Err(m),
        },
        Err(m) => Err(m),
    }
}

pub open spec fn read_stmt(ts: Input, p: int) -> Read<StmtTree>
    decreases ts.len() - p, 9int,
{
    let span = ts[p].1;
    let q = step(ts, p);
    match ts[p].0 {
        Lexeme::Var => read_var(ts, q, span),
        Lexeme::If => match read_cond(ts, q) {
            Ok((cond, r)) => if p < r < ts.len() {
                match read_block(ts, r) {
                    Ok((then_b, s)) => if ts[s].0 == Lexeme::Else {
                        let t = step(ts, s);
                        if p < t < ts.len() {
                            // `else if` chains without requiring braces around the `if`.
                            if ts[t].0 == Lexeme::If {
                                match read_stmt(ts, t) {
                                    Ok((inner, u)) => Ok(
                                        (
                                            StmtTree::If {
                                                cond,
                                                then_b,
                                                else_b: Some(seq![inner]),
                                                span,
                                            },
                                            u,
                                        ),
                                    ),
                                    Err(m) => Err(m),
                                }
                            } else {
                                match read_block(ts, t) {
                                    Ok((b, u)) => Ok(
                                        (StmtTree::If { cond, then_b, else_b: Some(b), span }, u),
                                    ),
                                    Err(m) => Err(m),
                                }
                            }
                        } else {
                            Err(seq![])
                        }
                    } else {
                        Ok((StmtTree::If { cond, then_b, else_b: None, span }, s))
                    },
                    Err(m) => Err(m),
                }
            } else {
                Err(seq![])
            },
            Err(m) => Err(m),
        },
        Lexeme::While => match read_cond(ts, q) {
            Ok((cond, r)) => if p < r < ts.len() {
                match read_block(ts, r) {
                    Ok((body, s)) => Ok((StmtTree::While { cond, body, span }, s)),
                    Err(m) => Err(m),
                }
            } else {
                Err(seq![])
            },
            Err(m) => Err(m),
        },
        Lexeme::Return => if ts[q].0 == Lexeme::Semi {
            Ok((StmtTree::Return { value: None, span }, step(ts, q)))
        } else {
            match read_expr_semi(ts, q) {
                Ok((e, r)) => Ok((StmtTree::Return { value: Some(e), span }, r)),
                Err(m) => Err(m),
            }
        },
        Lexeme::LBrace => match read_block(ts, p) {
            Ok((b, r)) => Ok((StmtTree::Nested(b), r)),
            Err(m) => Err(m),
        },
        Lexeme::Ident(name) => if ts[q].0 == Lexeme::Assign {
            match read_expr_semi(ts, step(ts, q)) {
                Ok((value, r)) => Ok((StmtTree::Assign { name, value, span }, r)),
                Err(m) => Err(m),
            }
        } else {
            Err(
                span_text(span) + ": expected `=` after `"@ + name
                    + "`; Ohm has no expression statements"@,
            )
        },
        other => Err(
            span_text(span) + ": expected a statement, found `"@ + lexeme_text(other) + "`"@,
        ),
    }
}

/// One or more parameters, separated by commas.
pub open spec fn read_params(ts: Input, p: int, before: Seq<ParamTree>) -> Read<Seq<ParamTree>>
    decreases ts.len() - p,
{
    match read_type(ts, p) {
        Ok((ty, q)) => match read_name(ts, q) {
            Ok((name, r)) => {
                let all = before.push(ParamTree { ty, name, span: ts[p].1 });
                if ts[r].0 == Lexeme::Comma {
                    if p < step(ts, r) < ts.len() {
                        read_params(ts, step(ts, r), all)
                    } else {
                        Err(seq![])
                    }
                } else {
                    Ok((all, r))
                }
            },
            Err(m) => Err(m),
        },
        Err(m) => Err(m),
    }
}

/// Parameters in parentheses.
pub open spec fn read_param_list(ts: Input, p: int) -> Read<Seq<ParamTree>> {
    match read_sign(ts, p, Lexeme::LParen) {
        Ok(q) => if ts[q].0 == Lexeme::RParen {
            Ok((seq![], step(ts, q)))
        } else {
            match read_params(ts, q, seq![]) {
                Ok((ps, r)) => match read_sign(ts, r, Lexeme::RParen) {
                    Ok(s) => Ok((ps, s)),
                    Err(m) => Err(m),
                },
                Err(m) => Err(m),
            }
        },
        Err(m) => Err(m),
    }
}

/// `-> u8` for a `fn`, nothing for a `proc`.
pub open spec fn read_ret(ts: Input, p: int, is_proc: bool, name: Seq<char>, span: Span) -> Read<
    Option<Type>,
> {
    if ts[p].0 == Lexeme::Arrow {
        if is_proc {
            Err(
                span_text(span) + ": `proc "@ + name
                    + "` cannot declare a return type; use `fn`"@,
            )
        } else {
            match read_type(ts, step(ts, p)) {
                Ok((t, q)) => Ok((Some(t), q)),
                Err(m) => Err(m),
            }
        }
    } else if is_proc {
        Ok((None, p))
    } else {
        Err(
            span_text(span) + ": `fn "@ + name
                + "` must declare a return type; use `proc` for none"@,
        )
    }
}

/// A function, from behind `fn` or `proc`.
#[verifier::opaque]
pub open spec fn read_func(ts: Input, p: int, is_proc: bool) -> Read<FuncTree> {
    let span = ts[p].1;
    match read_name(ts, p) {
        Ok((name, q)) => match read_param_list(ts, q) {
            Ok((params, r)) => match read_ret(ts, r, is_proc, name, span) {
                Ok((ret, s)) => match read_block(ts, s) {
                    Ok((body, t)) => Ok((FuncTree { name, params, ret, body, span }, t)),
                    Err(m) => Err(m),
                },
                Err(m) => Err(m),
            },
            Err(m) => Err(m),
        },
        Err(m) => Err(m),
    }
}

/// A port, from behind `input` or `output`.
#[verifier::opaque]
pub open spec fn read_port(ts: Input, p: int, dir: PortDir) -> Read<PortTree> {
    match read_type(ts, p) {
        Ok((ty, q)) => match read_name(ts, q) {
            Ok((name, r)) => match read_sign(ts, r, Lexeme::Semi) {
                Ok(s) => Ok((PortTree { dir, ty, name, span: ts[p].1 }, s)),
                Err(m) => Err(m),
            },
            Err(m) => Err(m),
        },
        Err(m) => Err(m),
    }
}

/// Ports and functions up to the end of the file.
pub open spec fn read_items(ts: Input, p: int, before: ProgramTree) -> Read<ProgramTree>
    decreases ts.len() - p,
{
    let q = step(ts, p);
    match ts[p].0 {
        Lexeme::Eof => Ok((before, p)),
        Lexeme::Input => match read_port(ts, q, PortDir::In) {
            Ok((port, r)) => if p < r < ts.len() {
                read_items(
                    ts,
                    r,
                    ProgramTree { ports: before.ports.push(port), funcs: before.funcs },
                )
            } else {
                Err(seq![])
            },
            Err(m) => Err(m),
        },
        Lexeme::Output => match read_port(ts, q, PortDir::Out) {
            Ok((port, r)) => if p < r < ts.len() {
                read_items(
                    ts,
                    r,
                    ProgramTree { ports: before.ports.push(port), funcs: before.funcs },
                )
            } else {
                Err(seq![])
            },
            Err(m) => Err(m),
        },
        Lexeme::Fn => match read_func(ts, q, false) {
            Ok((f, r)) => if p < r < ts.len() {
                read_items(
                    ts,
                    r,
                    ProgramTree { ports: before.ports, funcs: before.funcs.push(f) },
                )
            } else {
                Err(seq![])
            },
            Err(m) => Err(m),
        },
        Lexeme::Proc => match read_func(ts, q, true) {
            Ok((f, r)) => if p < r < ts.len() {
                read_items(
                    ts,
                    r,
                    ProgramTree { ports: before.ports, funcs: before.funcs.push(f) },
                )
            } else {
                Err(seq![])
            },
            Err(m) => Err(m),
        },
        other => Err(
            place(ts, p) + ": expected `input`, `output`, `fn`, or `proc`, found `"@ + lexeme_text(
                other,
            ) + "`"@,
        ),
    }
}

pub open spec fn read_program(ts: Input, p: int) -> Read<ProgramTree> {
    read_items(ts, p, ProgramTree { ports: seq![], funcs: seq![] })
}

/// The program that a source text holds, or the first complaint about it.
pub open spec fn program_of(src: Seq<u8>) -> Result<ProgramTree, Seq<char>> {
    match tokens_of(src) {
        Ok(ts) => match read_program(ts, 0) {
            Ok((prog, _)) => Ok(prog),
            Err(m) => Err(m),
        },
        Err(m) => Err(m),
    }
}

// --- progress ------------------------------------------------------------

/// A row of tokens that can be read: it ends in `Eof`.
pub open spec fn ends(ts: Input) -> bool {
    ts.len() > 0 && ts[ts.len() - 1].0 == Lexeme::Eof
}

/// Reading got on, and stayed inside.
pub open spec fn advanced<T>(ts: Input, p: int, r: Read<T>) -> bool {
    r matches Ok(x) ==> p < x.1 < ts.len()
}

proof fn lemma_casts_stay(ts: Input, e: ExprTree, p: int)
    requires
        ends(ts),
        0 <= p < ts.len(),
    ensures
        read_casts(ts, e, p) matches Ok(x) ==> p <= x.1 < ts.len(),
    decreases ts.len() - p,
{
    if ts[p].0 == Lexeme::As {
        if let Ok((ty, q)) = read_type(ts, step(ts, p)) {
            if p < q < ts.len() {
                lemma_casts_stay(
                    ts,
                    ExprTree::Cast { operand: Box::new(e), ty, span: ts[step(ts, p)].1 },
                    q,
                );
            }
        }
    }
}

proof fn lemma_atom_advances(ts: Input, p: int)
    requires
        ends(ts),
        0 <= p < ts.len(),
    ensures
        advanced(ts, p, read_atom(ts, p)),
    decreases ts.len() - p, 2int,
{
    let q = step(ts, p);
    match ts[p].0 {
        Lexeme::LParen => {
            lemma_expr_advances(ts, q);
        },
        Lexeme::Ident(name) => {
            if ts[q].0 == Lexeme::LParen {
                let r = step(ts, q);
                if ts[r].0 != Lexeme::RParen && p < r {
                    lemma_args_advance(ts, r, seq![]);
                }
            }
        },
        _ => {},
    }
}

proof fn lemma_args_advance(ts: Input, p: int, before: Seq<ExprTree>)
    requires
        ends(ts),
        0 <= p < ts.len(),
    ensures
        advanced(ts, p, read_args(ts, p, before)),
    decreases ts.len() - p, 7int,
{
    lemma_expr_advances(ts, p);
    if let Ok((e, q)) = read_expr(ts, p) {
        if ts[q].0 == Lexeme::Comma {
            lemma_args_advance(ts, step(ts, q), before.push(e));
        }
    }
}

proof fn lemma_unary_advances(ts: Input, p: int)
    requires
        ends(ts),
        0 <= p < ts.len(),
    ensures
        advanced(ts, p, read_unary(ts, p)),
    decreases ts.len() - p, 3int,
{
    match prefix(ts[p].0) {
        Some(op) => {
            lemma_unary_advances(ts, step(ts, p));
            if let Ok((e, q)) = read_unary(ts, step(ts, p)) {
                lemma_casts_stay(
                    ts,
                    ExprTree::Unary { op, operand: Box::new(e), span: ts[p].1 },
                    q,
                );
            }
        },
        None => {
            lemma_atom_advances(ts, p);
            if let Ok((e, q)) = read_atom(ts, p) {
                lemma_casts_stay(ts, e, q);
            }
        },
    }
}

proof fn lemma_binary_advances(ts: Input, p: int, least: int)
    requires
        ends(ts),
        0 <= p < ts.len(),
    ensures
        advanced(ts, p, read_binary(ts, p, least)),
    decreases ts.len() - p, 4int,
{
    lemma_unary_advances(ts, p);
    if let Ok((e, q)) = read_unary(ts, p) {
        lemma_more_stays(ts, e, q, least);
    }
}

proof fn lemma_more_stays(ts: Input, lhs: ExprTree, p: int, least: int)
    requires
        ends(ts),
        0 <= p < ts.len(),
    ensures
        read_more(ts, lhs, p, least) matches Ok(x) ==> p <= x.1 < ts.len(),
    decreases ts.len() - p, 5int,
{
    if let Some((op, bp)) = binding(ts[p].0) {
        if bp >= least {
            lemma_binary_advances(ts, step(ts, p), bp + 1);
            if let Ok((rhs, q)) = read_binary(ts, step(ts, p), bp + 1) {
                lemma_more_stays(
                    ts,
                    ExprTree::Binary { op, lhs: Box::new(lhs), rhs: Box::new(rhs), span: ts[p].1 },
                    q,
                    least,
                );
            }
        }
    }
}

/// Reading an expression gets on, and never past the end.
pub proof fn lemma_expr_advances(ts: Input, p: int)
    requires
        ends(ts),
        0 <= p < ts.len(),
    ensures
        advanced(ts, p, read_expr(ts, p)),
    decreases ts.len() - p, 6int,
{
    lemma_binary_advances(ts, p, 1);
    if let Ok((cond, q)) = read_binary(ts, p, 1) {
        if ts[q].0 == Lexeme::Question {
            lemma_expr_advances(ts, step(ts, q));
            if let Ok((then_e, r)) = read_expr(ts, step(ts, q)) {
                if let Ok(s) = read_sign(ts, r, Lexeme::Colon) {
                    lemma_expr_advances(ts, s);
                }
            }
        }
    }
}

proof fn lemma_block_advances(ts: Input, p: int)
    requires
        ends(ts),
        0 <= p < ts.len(),
    ensures
        advanced(ts, p, read_block(ts, p)),
    decreases ts.len() - p, 8int,
{
    if let Ok(q) = read_sign(ts, p, Lexeme::LBrace) {
        lemma_stmts_advance(ts, q, seq![]);
    }
}

proof fn lemma_stmts_advance(ts: Input, p: int, before: Seq<StmtTree>)
    requires
        ends(ts),
        0 <= p < ts.len(),
    ensures
        advanced(ts, p, read_stmts(ts, p, before)),
    decreases ts.len() - p, 10int,
{
    if ts[p].0 != Lexeme::RBrace && ts[p].0 != Lexeme::Eof {
        lemma_stmt_advances(ts, p);
        if let Ok((s, q)) = read_stmt(ts, p) {
            lemma_stmts_advance(ts, q, before.push(s));
        }
    }
}

proof fn lemma_cond_advances(ts: Input, p: int)
    requires
        ends(ts),
        0 <= p < ts.len(),
    ensures
        advanced(ts, p, read_cond(ts, p)),
{
    reveal(read_cond);
    if let Ok(q) = read_sign(ts, p, Lexeme::LParen) {
        lemma_expr_advances(ts, q);
    }
}

/// Reading a statement gets on, and never past the end.
pub proof fn lemma_stmt_advances(ts: Input, p: int)
    requires
        ends(ts),
        0 <= p < ts.len(),
    ensures
        advanced(ts, p, read_stmt(ts, p)),
    decreases ts.len() - p, 9int,
{
    reveal(read_expr_semi);
    reveal(read_var);
    let q = step(ts, p);
    match ts[p].0 {
        Lexeme::Var => {
            let r = match ts[q].0 {
                Lexeme::UType(_) => match read_type(ts, q) {
                    Ok((t, r)) => r,
                    Err(_) => q,
                },
                _ => q,
            };
            if let Ok((name, s)) = read_name(ts, r) {
                if let Ok(t) = read_sign(ts, s, Lexeme::Assign) {
                    lemma_expr_advances(ts, t);
                }
            }
        },
        Lexeme::If => {
            lemma_cond_advances(ts, q);
            if let Ok((cond, r)) = read_cond(ts, q) {
                lemma_block_advances(ts, r);
                if let Ok((b, s)) = read_block(ts, r) {
                    if ts[s].0 == Lexeme::Else {
                        let t = step(ts, s);
                        if ts[t].0 == Lexeme::If {
                            lemma_stmt_advances(ts, t);
                        } else {
                            lemma_block_advances(ts, t);
                        }
                    }
                }
            }
        },
        Lexeme::While => {
            lemma_cond_advances(ts, q);
            if let Ok((cond, r)) = read_cond(ts, q) {
                lemma_block_advances(ts, r);
            }
        },
        Lexeme::Return => {
            lemma_expr_advances(ts, q);
        },
        Lexeme::LBrace => {
            lemma_block_advances(ts, p);
        },
        Lexeme::Ident(_) => {
            lemma_expr_advances(ts, step(ts, q));
        },
        _ => {},
    }
}

proof fn lemma_params_advance(ts: Input, p: int, before: Seq<ParamTree>)
    requires
        ends(ts),
        0 <= p < ts.len(),
    ensures
        advanced(ts, p, read_params(ts, p, before)),
    decreases ts.len() - p,
{
    if let Ok((ty, q)) = read_type(ts, p) {
        if let Ok((name, r)) = read_name(ts, q) {
            if ts[r].0 == Lexeme::Comma {
                lemma_params_advance(
                    ts,
                    step(ts, r),
                    before.push(ParamTree { ty, name, span: ts[p].1 }),
                );
            }
        }
    }
}

proof fn lemma_func_advances(ts: Input, p: int, is_proc: bool)
    requires
        ends(ts),
        0 <= p < ts.len(),
    ensures
        advanced(ts, p, read_func(ts, p, is_proc)),
{
    reveal(read_func);
    if let Ok((name, q)) = read_name(ts, p) {
        if let Ok(r) = read_sign(ts, q, Lexeme::LParen) {
            lemma_params_advance(ts, r, seq![]);
        }
        if let Ok((params, r)) = read_param_list(ts, q) {
            if let Ok((ret, s)) = read_ret(ts, r, is_proc, name, ts[p].1) {
                lemma_block_advances(ts, s);
            }
        }
    }
}

proof fn lemma_port_advances(ts: Input, p: int, dir: PortDir)
    requires
        ends(ts),
        0 <= p < ts.len(),
    ensures
        advanced(ts, p, read_port(ts, p, dir)),
{
    reveal(read_port);
}

/// What the lexer hands over ends in `Eof`.
proof fn lemma_tokens_end(src: Seq<u8>, i: int)
    ensures
        tokens_from(src, i) matches Ok(ts) ==> ends(ts),
    decreases src.len() - i,
{
    match crate::lexer::trivia_end(src, i) {
        Err(_) => {},
        Ok(j) => {
            if !(j < i || j >= src.len()) {
                if let Ok((t, k)) = crate::lexer::token_at(src, j) {
                    if !(k <= j || k > src.len()) {
                        lemma_tokens_end(src, k);
                        if let Ok(rest) = tokens_from(src, k) {
                            let all = seq![(t, crate::lexer::span_at(src, j))] + rest;
                            assert(all[all.len() - 1] == rest[rest.len() - 1]);
                        }
                    }
                }
            }
        },
    }
}

// --- the parser ----------------------------------------------------------

/// Trees of a row of expressions.
pub open spec fn trees(es: Seq<Expr>) -> Seq<ExprTree> {
    Seq::new(es.len(), |i: int| es[i].tree())
}

pub open spec fn stmt_trees(ss: Seq<Stmt>) -> Seq<StmtTree> {
    Seq::new(ss.len(), |i: int| ss[i].tree())
}

pub open spec fn param_trees(ps: Seq<Param>) -> Seq<ParamTree> {
    Seq::new(ps.len(), |i: int| ps[i].tree())
}

proof fn lemma_call_tree(name: String, args: Vec<Expr>, span: Span)
    ensures
        (Expr::Call { name, args, span }).tree() == (ExprTree::Call {
            name: name@,
            args: trees(args@),
            span,
        }),
{
    let e = Expr::Call { name, args, span };
    match e.tree() {
        ExprTree::Call { args: a, .. } => {
            assert(a =~= trees(args@));
        },
        _ => {},
    }
}

proof fn lemma_block_tree(stmts: Vec<Stmt>)
    ensures
        (Block { stmts }).tree() == stmt_trees(stmts@),
{
    let b = Block { stmts };
    assert(b.tree() =~= stmt_trees(stmts@));
}

fn binop_of(t: &Tok) -> (r: Option<(BinOp, u8)>)
    ensures
        match r {
            Some((op, bp)) => binding(t@) == Some((op, bp as int)) && 1 <= bp <= 10,
            None => binding(t@) is None,
        },
{
    match t {
        Tok::OrOr => Some((BinOp::LOr, 1)),
        Tok::AndAnd => Some((BinOp::LAnd, 2)),
        Tok::Pipe => Some((BinOp::Or, 3)),
        Tok::Caret => Some((BinOp::Xor, 4)),
        Tok::Amp => Some((BinOp::And, 5)),
        Tok::EqEq => Some((BinOp::Eq, 6)),
        Tok::Ne => Some((BinOp::Ne, 6)),
        Tok::Lt => Some((BinOp::Lt, 7)),
        Tok::Le => Some((BinOp::Le, 7)),
        Tok::Gt => Some((BinOp::Gt, 7)),
        Tok::Ge => Some((BinOp::Ge, 7)),
        Tok::Shl => Some((BinOp::Shl, 8)),
        Tok::Shr => Some((BinOp::Shr, 8)),
        Tok::Plus => Some((BinOp::Add, 9)),
        Tok::Minus => Some((BinOp::Sub, 9)),
        Tok::Star => Some((BinOp::Mul, 10)),
        _ => None,
    }
}

/// Are two tokens the same, where neither is a name?
fn same_sign(a: &Tok, b: &Tok) -> (r: bool)
    requires
        !(b@ is Ident) && !(b@ is Num) && !(b@ is UType),
    ensures
        r == (a@ == b@),
{
    match (a, b) {
        (Tok::LParen, Tok::LParen)
        | (Tok::RParen, Tok::RParen)
        | (Tok::LBrace, Tok::LBrace)
        | (Tok::RBrace, Tok::RBrace)
        | (Tok::Semi, Tok::Semi)
        | (Tok::Comma, Tok::Comma)
        | (Tok::Arrow, Tok::Arrow)
        | (Tok::Question, Tok::Question)
        | (Tok::Colon, Tok::Colon)
        | (Tok::Assign, Tok::Assign)
        | (Tok::As, Tok::As)
        | (Tok::Else, Tok::Else)
        | (Tok::If, Tok::If)
        | (Tok::Eof, Tok::Eof)
        | (Tok::Input, Tok::Input)
        | (Tok::Output, Tok::Output)
        | (Tok::Fn, Tok::Fn)
        | (Tok::Proc, Tok::Proc)
        | (Tok::Var, Tok::Var)
        | (Tok::While, Tok::While)
        | (Tok::Return, Tok::Return)
        | (Tok::True, Tok::True)
        | (Tok::False, Tok::False)
        | (Tok::Plus, Tok::Plus)
        | (Tok::Minus, Tok::Minus)
        | (Tok::Star, Tok::Star)
        | (Tok::Amp, Tok::Amp)
        | (Tok::Pipe, Tok::Pipe)
        | (Tok::Caret, Tok::Caret)
        | (Tok::Tilde, Tok::Tilde)
        | (Tok::Bang, Tok::Bang)
        | (Tok::Shl, Tok::Shl)
        | (Tok::Shr, Tok::Shr)
        | (Tok::EqEq, Tok::EqEq)
        | (Tok::Ne, Tok::Ne)
        | (Tok::Lt, Tok::Lt)
        | (Tok::Le, Tok::Le)
        | (Tok::Gt, Tok::Gt)
        | (Tok::Ge, Tok::Ge)
        | (Tok::AndAnd, Tok::AndAnd)
        | (Tok::OrOr, Tok::OrOr) => true,
        _ => false,
    }
}

/// What an exec reader owes to the grammar: the same tree and place, or the same
/// complaint.
pub open spec fn agrees<T>(spec: Read<T>, got: Option<T>, at: int, complaint: Seq<char>) -> bool {
    match spec {
        Ok((t, p)) => got == Some(t) && at == p,
        Err(m) => got is None && complaint == m,
    }
}

pub open spec fn complaint<T>(r: Result<T, String>) -> Seq<char> {
    match r {
        Ok(_) => seq![],
        Err(e) => e@,
    }
}

pub open spec fn expr_of(r: Result<Expr, String>) -> Option<ExprTree> {
    match r {
        Ok(e) => Some(e.tree()),
        Err(_) => None,
    }
}

pub open spec fn stmt_of(r: Result<Stmt, String>) -> Option<StmtTree> {
    match r {
        Ok(e) => Some(e.tree()),
        Err(_) => None,
    }
}

pub open spec fn block_of(r: Result<Block, String>) -> Option<Seq<StmtTree>> {
    match r {
        Ok(e) => Some(e.tree()),
        Err(_) => None,
    }
}

pub open spec fn func_of(r: Result<Func, String>) -> Option<FuncTree> {
    match r {
        Ok(e) => Some(e.tree()),
        Err(_) => None,
    }
}

pub open spec fn port_of(r: Result<Port, String>) -> Option<PortTree> {
    match r {
        Ok(e) => Some(e.tree()),
        Err(_) => None,
    }
}

pub open spec fn name_of(r: Result<String, String>) -> Option<Seq<char>> {
    match r {
        Ok(e) => Some(e@),
        Err(_) => None,
    }
}

pub open spec fn plain_of<T>(r: Result<T, String>) -> Option<T> {
    match r {
        Ok(e) => Some(e),
        Err(_) => None,
    }
}

pub open spec fn params_of(r: Result<Vec<Param>, String>) -> Option<Seq<ParamTree>> {
    match r {
        Ok(e) => Some(param_trees(e@)),
        Err(_) => None,
    }
}

pub open spec fn args_of(r: Result<Vec<Expr>, String>) -> Option<Seq<ExprTree>> {
    match r {
        Ok(e) => Some(trees(e@)),
        Err(_) => None,
    }
}

impl Parser {
    /// The tokens.
    pub closed spec fn input(&self) -> Input {
        views(self.toks@)
    }

    /// Where the parser stands.
    pub closed spec fn at(&self) -> int {
        self.pos as int
    }

    /// The parser stands on a token, and the tokens end in `Eof`.
    pub open spec fn wf(&self) -> bool {
        &&& ends(self.input())
        &&& 0 <= self.at() < self.input().len()
    }

    /// The parser went on, over the same tokens.
    pub open spec fn same_input(&self, later: &Parser) -> bool {
        &&& later.input() == self.input()
        &&& later.wf()
    }

    pub fn new(src: &str) -> (r: ParseResult<Parser>)
        requires
            src.spec_bytes().len() < u32::MAX,
        ensures
            match r {
                Ok(p) => p.wf() && p.at() == 0 && tokens_of(src.spec_bytes()) == Ok::<_, Seq<char>>(
                    p.input(),
                ),
                Err(e) => tokens_of(src.spec_bytes()) == Err::<Input, _>(e@),
            },
    {
        let lexer = Lexer::new(src);
        proof {
            lemma_tokens_end(src.spec_bytes(), 0);
        }
        match lexer.tokenize() {
            Ok(toks) => Ok(Parser { toks, pos: 0 }),
            Err(e) => Err(e),
        }
    }

    fn peek(&self) -> (t: &Tok)
        requires
            self.wf(),
        ensures
            t@ == self.input()[self.at()].0,
    {
        assert(self.input()[self.at()] == self.toks@[self.pos as int]@);
        &self.toks[self.pos].tok
    }

    fn span(&self) -> (s: Span)
        requires
            self.wf(),
        ensures
            s == self.input()[self.at()].1,
    {
        assert(self.input()[self.at()] == self.toks@[self.pos as int]@);
        self.toks[self.pos].span
    }

    fn bump(&mut self) -> (t: Tok)
        requires
            old(self).wf(),
        ensures
            old(self).same_input(final(self)),
            final(self).at() == step(old(self).input(), old(self).at()),
            t@ == old(self).input()[old(self).at()].0,
    {
        assert(self.input()[self.at()] == self.toks@[self.pos as int]@);
        let t = self.toks[self.pos].tok.copy();
        let n: usize = self.toks.len();
        if self.pos + 1 < n {
            self.pos = self.pos + 1;
        }
        t
    }

    fn eat(&mut self, t: &Tok) -> (r: bool)
        requires
            old(self).wf(),
            !(t@ is Ident) && !(t@ is Num) && !(t@ is UType),
        ensures
            old(self).same_input(final(self)),
            r == (old(self).input()[old(self).at()].0 == t@),
            final(self).at() == if r {
                step(old(self).input(), old(self).at())
            } else {
                old(self).at()
            },
    {
        if same_sign(self.peek(), t) {
            self.bump();
            true
        } else {
            false
        }
    }

    fn expect(&mut self, t: &Tok) -> (r: ParseResult<()>)
        requires
            old(self).wf(),
            !(t@ is Ident) && !(t@ is Num) && !(t@ is UType),
        ensures
            old(self).same_input(final(self)),
            match read_sign(old(self).input(), old(self).at(), t@) {
                Ok(p) => r is Ok && final(self).at() == p,
                Err(m) => r is Err && complaint(r) == m,
            },
    {
        if self.eat(t) {
            Ok(())
        } else {
            let mut e = self.span().text();
            e.append(": expected `");
            let want = t.text();
            e.append(want.as_str());
            e.append("`, found `");
            let found = self.peek().text();
            e.append(found.as_str());
            e.append("`");
            Err(e)
        }
    }

    fn expect_ident(&mut self) -> (r: ParseResult<String>)
        requires
            old(self).wf(),
        ensures
            old(self).same_input(final(self)),
            agrees(
                read_name(old(self).input(), old(self).at()),
                name_of(r),
                final(self).at(),
                complaint(r),
            ),
    {
        match self.bump() {
            Tok::Ident(s) => Ok(s),
            other => {
                let mut e = self.span().text();
                e.append(": expected identifier, found `");
                let found = other.text();
                e.append(found.as_str());
                e.append("`");
                Err(e)
            },
        }
    }

    fn expect_type(&mut self) -> (r: ParseResult<Type>)
        requires
            old(self).wf(),
        ensures
            old(self).same_input(final(self)),
            agrees(
                read_type(old(self).input(), old(self).at()),
                plain_of(r),
                final(self).at(),
                complaint(r),
            ),
    {
        let span = self.span();
        match self.bump() {
            Tok::UType(w) => {
                if w == 0 || w > 32 {
                    let mut e = span.text();
                    e.append(": width u");
                    push_decimal(&mut e, w as u64);
                    e.append(" out of range (expected u1..u32)");
                    Err(e)
                } else {
                    Ok(Type::new(w))
                }
            },
            other => {
                let mut e = span.text();
                e.append(": expected a type like `u8`, found `");
                let found = other.text();
                e.append(found.as_str());
                e.append("`");
                Err(e)
            },
        }
    }

    pub fn parse_program(&mut self) -> (r: ParseResult<Program>)
        requires
            old(self).wf(),
        ensures
            old(self).same_input(final(self)),
            match read_program(old(self).input(), old(self).at()) {
                Ok((prog, p)) => r matches Ok(x) && x.tree() == prog && final(self).at() == p
                    && prog_ok(prog),
                Err(m) => r matches Err(e) && e@ == m,
            },
    {
        let ghost ts = self.input();
        let ghost p0 = self.at();
        let mut prog = Program { ports: Vec::new(), funcs: Vec::new() };
        assert(prog.tree() =~= (ProgramTree { ports: seq![], funcs: seq![] }));
        loop
            invariant
                self.input() == ts,
                ts == old(self).input(),
                p0 == old(self).at(),
                self.wf(),
                read_program(ts, p0) == read_items(ts, self.at(), prog.tree()),
            decreases ts.len() - self.at(),
        {
            let ghost p = self.at();
            let ghost before = prog.tree();
            match self.peek() {
                Tok::Eof => {
                    proof {
                        lemma_program_ok(ts, p0);
                    }
                    return Ok(prog);
                },
                Tok::Input | Tok::Output => {
                    let t = self.bump();
                    let dir: PortDir = match t {
                        Tok::Input => PortDir::In,
                        _ => PortDir::Out,
                    };
                    proof {
                        lemma_port_advances(ts, self.at(), dir);
                    }
                    let port = match self.parse_port(dir) {
                        Ok(port) => port,
                        Err(e) => {
                            return Err(e);
                        },
                    };
                    let ghost pt = port.tree();
                    prog.ports.push(port);
                    proof {
                        assert(prog.tree().ports =~= before.ports.push(pt));
                        assert(prog.tree().funcs =~= before.funcs);
                        assert(p < self.at() < ts.len());
                    }
                },
                Tok::Fn | Tok::Proc => {
                    let t = self.bump();
                    let is_proc: bool = match t {
                        Tok::Proc => true,
                        _ => false,
                    };
                    proof {
                        lemma_func_advances(ts, self.at(), is_proc);
                    }
                    let f = match self.parse_func(is_proc) {
                        Ok(f) => f,
                        Err(e) => {
                            return Err(e);
                        },
                    };
                    let ghost ft = f.tree();
                    prog.funcs.push(f);
                    proof {
                        assert(prog.tree().funcs =~= before.funcs.push(ft));
                        assert(prog.tree().ports =~= before.ports);
                        assert(p < self.at() < ts.len());
                    }
                },
                other => {
                    let mut e = self.span().text();
                    e.append(": expected `input`, `output`, `fn`, or `proc`, found `");
                    let found = other.text();
                    e.append(found.as_str());
                    e.append("`");
                    return Err(e);
                },
            }
        }
    }

    /// A port, from behind `input` or `output`.
    fn parse_port(&mut self, dir: PortDir) -> (r: ParseResult<Port>)
        requires
            old(self).wf(),
        ensures
            old(self).same_input(final(self)),
            agrees(
                read_port(old(self).input(), old(self).at(), dir),
                port_of(r),
                final(self).at(),
                complaint(r),
            ),
    {
        proof {
            reveal(read_port);
        }
        let span = self.span();
        let ty = match self.expect_type() {
            Ok(ty) => ty,
            Err(e) => {
                return Err(e);
            },
        };
        let name = match self.expect_ident() {
            Ok(name) => name,
            Err(e) => {
                return Err(e);
            },
        };
        match self.expect(&Tok::Semi) {
            Ok(_) => Ok(Port { dir, ty, name, span }),
            Err(e) => Err(e),
        }
    }

    fn parse_params(&mut self) -> (r: ParseResult<Vec<Param>>)
        requires
            old(self).wf(),
        ensures
            old(self).same_input(final(self)),
            agrees(
                read_param_list(old(self).input(), old(self).at()),
                params_of(r),
                final(self).at(),
                complaint(r),
            ),
    {
        let ghost ts = self.input();
        match self.expect(&Tok::LParen) {
            Ok(_) => {},
            Err(e) => {
                return Err(e);
            },
        }
        let ghost p1 = self.at();
        let mut params: Vec<Param> = Vec::new();
        assert(param_trees(params@) =~= seq![]);
        if !self.eat(&Tok::RParen) {
            loop
                invariant_except_break
                    read_params(ts, p1, seq![]) == read_params(
                        ts,
                        self.at(),
                        param_trees(params@),
                    ),
                invariant
                    self.input() == ts,
                    ts == old(self).input(),
                    self.wf(),
                    read_sign(ts, old(self).at(), Lexeme::LParen) == Ok::<int, Seq<char>>(p1),
                    ts[p1].0 != Lexeme::RParen,
                ensures
                    self.input() == ts,
                    self.wf(),
                    read_params(ts, p1, seq![]) == Ok::<_, Seq<char>>(
                        (param_trees(params@), self.at()),
                    ),
                decreases ts.len() - self.at(),
            {
                let ghost p = self.at();
                let ghost before = param_trees(params@);
                let pspan = self.span();
                let ty = match self.expect_type() {
                    Ok(ty) => ty,
                    Err(e) => {
                        return Err(e);
                    },
                };
                let pname = match self.expect_ident() {
                    Ok(name) => name,
                    Err(e) => {
                        return Err(e);
                    },
                };
                let param = Param { ty, name: pname, span: pspan };
                let ghost pt = param.tree();
                params.push(param);
                assert(param_trees(params@) =~= before.push(pt));
                if !self.eat(&Tok::Comma) {
                    break;
                }
                assert(p < self.at() < ts.len());
            }
            match self.expect(&Tok::RParen) {
                Ok(_) => {},
                Err(e) => {
                    return Err(e);
                },
            }
        }
        Ok(params)
    }

    fn parse_func(&mut self, is_proc: bool) -> (r: ParseResult<Func>)
        requires
            old(self).wf(),
        ensures
            old(self).same_input(final(self)),
            agrees(
                read_func(old(self).input(), old(self).at(), is_proc),
                func_of(r),
                final(self).at(),
                complaint(r),
            ),
    {
        proof {
            reveal(read_func);
        }
        let span = self.span();
        let name = match self.expect_ident() {
            Ok(name) => name,
            Err(e) => {
                return Err(e);
            },
        };
        let params = match self.parse_params() {
            Ok(p) => p,
            Err(e) => {
                return Err(e);
            },
        };
        let ret: Option<Type> = if self.eat(&Tok::Arrow) {
            if is_proc {
                let mut e = span.text();
                e.append(": `proc ");
                e.append(name.as_str());
                e.append("` cannot declare a return type; use `fn`");
                return Err(e);
            }
            match self.expect_type() {
                Ok(t) => Some(t),
                Err(e) => {
                    return Err(e);
                },
            }
        } else {
            None
        };
        if !is_proc && ret.is_none() {
            let mut e = span.text();
            e.append(": `fn ");
            e.append(name.as_str());
            e.append("` must declare a return type; use `proc` for none");
            return Err(e);
        }
        let body = match self.parse_block() {
            Ok(b) => b,
            Err(e) => {
                return Err(e);
            },
        };
        let f = Func { name, params, ret, body, span };
        assert(f.tree().params =~= param_trees(f.params@));
        Ok(f)
    }

    fn parse_block(&mut self) -> (r: ParseResult<Block>)
        requires
            old(self).wf(),
        ensures
            old(self).same_input(final(self)),
            agrees(
                read_block(old(self).input(), old(self).at()),
                block_of(r),
                final(self).at(),
                complaint(r),
            ),
        decreases old(self).input().len() - old(self).at(), 8int,
    {
        let ghost ts = self.input();
        let ghost p0 = self.at();
        match self.expect(&Tok::LBrace) {
            Ok(_) => {},
            Err(e) => {
                return Err(e);
            },
        }
        let mut stmts: Vec<Stmt> = Vec::new();
        assert(stmt_trees(stmts@) =~= seq![]);
        assert(p0 < self.at());
        loop
            invariant
                self.input() == ts,
                ts == old(self).input(),
                p0 == old(self).at(),
                p0 < self.at(),
                self.wf(),
                read_block(ts, p0) == read_stmts(ts, self.at(), stmt_trees(stmts@)),
            decreases ts.len() - self.at(),
        {
            let ghost p = self.at();
            let ghost before = stmt_trees(stmts@);
            if self.eat(&Tok::RBrace) {
                proof {
                    lemma_block_tree(stmts);
                }
                return Ok(Block { stmts });
            }
            match self.peek() {
                Tok::Eof => {
                    let mut e = self.span().text();
                    e.append(": unclosed block at end of file");
                    return Err(e);
                },
                _ => {},
            }
            proof {
                lemma_stmt_advances(ts, p);
            }
            let s = match self.parse_stmt() {
                Ok(s) => s,
                Err(e) => {
                    return Err(e);
                },
            };
            let ghost st = s.tree();
            stmts.push(s);
            assert(stmt_trees(stmts@) =~= before.push(st));
        }
    }

    fn parse_expr_semi(&mut self) -> (r: ParseResult<Expr>)
        requires
            old(self).wf(),
        ensures
            old(self).same_input(final(self)),
            agrees(
                read_expr_semi(old(self).input(), old(self).at()),
                expr_of(r),
                final(self).at(),
                complaint(r),
            ),
    {
        proof {
            reveal(read_expr_semi);
        }
        let e = match self.parse_expr() {
            Ok(e) => e,
            Err(m) => {
                return Err(m);
            },
        };
        match self.expect(&Tok::Semi) {
            Ok(_) => Ok(e),
            Err(m) => Err(m),
        }
    }

    fn parse_cond(&mut self) -> (r: ParseResult<Expr>)
        requires
            old(self).wf(),
        ensures
            old(self).same_input(final(self)),
            agrees(
                read_cond(old(self).input(), old(self).at()),
                expr_of(r),
                final(self).at(),
                complaint(r),
            ),
    {
        proof {
            reveal(read_cond);
        }
        match self.expect(&Tok::LParen) {
            Ok(_) => {},
            Err(m) => {
                return Err(m);
            },
        }
        let e = match self.parse_expr() {
            Ok(e) => e,
            Err(m) => {
                return Err(m);
            },
        };
        match self.expect(&Tok::RParen) {
            Ok(_) => Ok(e),
            Err(m) => Err(m),
        }
    }

    fn parse_var(&mut self, span: Span) -> (r: ParseResult<Stmt>)
        requires
            old(self).wf(),
        ensures
            old(self).same_input(final(self)),
            agrees(
                read_var(old(self).input(), old(self).at(), span),
                stmt_of(r),
                final(self).at(),
                complaint(r),
            ),
    {
        proof {
            reveal(read_var);
        }
        // `var u8 x = e;` or `var x = e;`
        let typed: bool = match self.peek() {
            Tok::UType(_) => true,
            _ => false,
        };
        let ty: Option<Type> = if typed {
            match self.expect_type() {
                Ok(t) => Some(t),
                Err(m) => {
                    return Err(m);
                },
            }
        } else {
            None
        };
        let name = match self.expect_ident() {
            Ok(name) => name,
            Err(m) => {
                return Err(m);
            },
        };
        match self.expect(&Tok::Assign) {
            Ok(_) => {},
            Err(m) => {
                return Err(m);
            },
        }
        match self.parse_expr_semi() {
            Ok(init) => Ok(Stmt::Var { ty, name, init, span }),
            Err(m) => Err(m),
        }
    }

    #[verifier::rlimit(30)]
    fn parse_stmt(&mut self) -> (r: ParseResult<Stmt>)
        requires
            old(self).wf(),
        ensures
            old(self).same_input(final(self)),
            agrees(
                read_stmt(old(self).input(), old(self).at()),
                stmt_of(r),
                final(self).at(),
                complaint(r),
            ),
        decreases old(self).input().len() - old(self).at(), 9int,
    {
        let ghost ts = self.input();
        let ghost p = self.at();
        let span = self.span();
        match self.peek().copy() {
            Tok::Var => {
                self.bump();
                self.parse_var(span)
            },
            Tok::If => {
                self.bump();
                proof {
                    lemma_cond_advances(ts, self.at());
                }
                let cond = match self.parse_cond() {
                    Ok(e) => e,
                    Err(m) => {
                        return Err(m);
                    },
                };
                proof {
                    lemma_block_advances(ts, self.at());
                }
                let then_b = match self.parse_block() {
                    Ok(b) => b,
                    Err(m) => {
                        return Err(m);
                    },
                };
                let else_b: Option<Block> = if self.eat(&Tok::Else) {
                    // `else if` chains without requiring braces around the `if`.
                    let chained: bool = match self.peek() {
                        Tok::If => true,
                        _ => false,
                    };
                    if chained {
                        let s = match self.parse_stmt() {
                            Ok(s) => s,
                            Err(m) => {
                                return Err(m);
                            },
                        };
                        let ghost st = s.tree();
                        let stmts: Vec<Stmt> = vec![s];
                        proof {
                            lemma_block_tree(stmts);
                            assert(stmt_trees(stmts@) =~= seq![st]);
                        }
                        Some(Block { stmts })
                    } else {
                        match self.parse_block() {
                            Ok(b) => Some(b),
                            Err(m) => {
                                return Err(m);
                            },
                        }
                    }
                } else {
                    None
                };
                Ok(Stmt::If { cond, then_b, else_b, span })
            },
            Tok::While => {
                self.bump();
                proof {
                    lemma_cond_advances(ts, self.at());
                }
                let cond = match self.parse_cond() {
                    Ok(e) => e,
                    Err(m) => {
                        return Err(m);
                    },
                };
                let body = match self.parse_block() {
                    Ok(b) => b,
                    Err(m) => {
                        return Err(m);
                    },
                };
                Ok(Stmt::While { cond, body, span })
            },
            Tok::Return => {
                self.bump();
                let bare: bool = match self.peek() {
                    Tok::Semi => true,
                    _ => false,
                };
                if bare {
                    self.bump();
                    Ok(Stmt::Return { value: None, span })
                } else {
                    match self.parse_expr_semi() {
                        Ok(e) => Ok(Stmt::Return { value: Some(e), span }),
                        Err(m) => Err(m),
                    }
                }
            },
            Tok::LBrace => match self.parse_block() {
                Ok(b) => Ok(Stmt::Nested(b)),
                Err(m) => Err(m),
            },
            Tok::Ident(name) => {
                self.bump();
                if !self.eat(&Tok::Assign) {
                    let mut e = span.text();
                    e.append(": expected `=` after `");
                    e.append(name.as_str());
                    e.append("`; Ohm has no expression statements");
                    return Err(e);
                }
                match self.parse_expr_semi() {
                    Ok(value) => Ok(Stmt::Assign { name, value, span }),
                    Err(m) => Err(m),
                }
            },
            other => {
                let mut e = span.text();
                e.append(": expected a statement, found `");
                let found = other.text();
                e.append(found.as_str());
                e.append("`");
                Err(e)
            },
        }
    }

    pub fn parse_expr(&mut self) -> (r: ParseResult<Expr>)
        requires
            old(self).wf(),
        ensures
            old(self).same_input(final(self)),
            agrees(
                read_expr(old(self).input(), old(self).at()),
                expr_of(r),
                final(self).at(),
                complaint(r),
            ),
        decreases old(self).input().len() - old(self).at(), 6int,
    {
        self.parse_ternary()
    }

    fn parse_ternary(&mut self) -> (r: ParseResult<Expr>)
        requires
            old(self).wf(),
        ensures
            old(self).same_input(final(self)),
            agrees(
                read_expr(old(self).input(), old(self).at()),
                expr_of(r),
                final(self).at(),
                complaint(r),
            ),
        decreases old(self).input().len() - old(self).at(), 5int,
    {
        let ghost ts = self.input();
        let ghost p = self.at();
        proof {
            lemma_binary_advances(ts, p, 1);
        }
        let cond = match self.parse_binary(1) {
            Ok(e) => e,
            Err(m) => {
                return Err(m);
            },
        };
        if self.eat(&Tok::Question) {
            let span = cond.span();
            proof {
                lemma_expr_advances(ts, self.at());
            }
            let then_e = match self.parse_expr() {
                Ok(e) => e,
                Err(m) => {
                    return Err(m);
                },
            };
            match self.expect(&Tok::Colon) {
                Ok(_) => {},
                Err(m) => {
                    return Err(m);
                },
            }
            // Right-associative, so the else branch re-enters at ternary level.
            let else_e = match self.parse_ternary() {
                Ok(e) => e,
                Err(m) => {
                    return Err(m);
                },
            };
            return Ok(
                Expr::Ternary {
                    cond: Box::new(cond),
                    then_e: Box::new(then_e),
                    else_e: Box::new(else_e),
                    span,
                },
            );
        }
        Ok(cond)
    }

    fn parse_binary(&mut self, min_bp: u8) -> (r: ParseResult<Expr>)
        requires
            old(self).wf(),
            min_bp <= 11,
        ensures
            old(self).same_input(final(self)),
            agrees(
                read_binary(old(self).input(), old(self).at(), min_bp as int),
                expr_of(r),
                final(self).at(),
                complaint(r),
            ),
        decreases old(self).input().len() - old(self).at(), 4int,
    {
        let ghost ts = self.input();
        let ghost p0 = self.at();
        proof {
            lemma_unary_advances(ts, p0);
        }
        let mut lhs = match self.parse_unary() {
            Ok(e) => e,
            Err(m) => {
                return Err(m);
            },
        };
        loop
            invariant
                self.input() == ts,
                ts == old(self).input(),
                p0 == old(self).at(),
                p0 < self.at(),
                self.wf(),
                min_bp <= 11,
                read_binary(ts, p0, min_bp as int) == read_more(
                    ts,
                    lhs.tree(),
                    self.at(),
                    min_bp as int,
                ),
            decreases ts.len() - self.at(),
        {
            let ghost p = self.at();
            match binop_of(self.peek()) {
                Some((op, bp)) => {
                    if bp < min_bp {
                        return Ok(lhs);
                    }
                    let span = self.span();
                    self.bump();
                    proof {
                        lemma_binary_advances(ts, self.at(), bp + 1);
                    }
                    // All our binary operators are left-associative.
                    let rhs = match self.parse_binary(bp + 1) {
                        Ok(e) => e,
                        Err(m) => {
                            return Err(m);
                        },
                    };
                    lhs = Expr::Binary { op, lhs: Box::new(lhs), rhs: Box::new(rhs), span };
                },
                None => {
                    return Ok(lhs);
                },
            }
        }
    }

    fn parse_unary(&mut self) -> (r: ParseResult<Expr>)
        requires
            old(self).wf(),
        ensures
            old(self).same_input(final(self)),
            agrees(
                read_unary(old(self).input(), old(self).at()),
                expr_of(r),
                final(self).at(),
                complaint(r),
            ),
        decreases old(self).input().len() - old(self).at(), 3int,
    {
        let span = self.span();
        let op: Option<UnOp> = match self.peek() {
            Tok::Minus => Some(UnOp::Neg),
            Tok::Bang => Some(UnOp::Not),
            Tok::Tilde => Some(UnOp::BitNot),
            _ => None,
        };
        if let Some(op) = op {
            self.bump();
            let operand = match self.parse_unary() {
                Ok(e) => e,
                Err(m) => {
                    return Err(m);
                },
            };
            return self.parse_casts(Expr::Unary { op, operand: Box::new(operand), span });
        }
        let atom = match self.parse_atom() {
            Ok(e) => e,
            Err(m) => {
                return Err(m);
            },
        };
        self.parse_casts(atom)
    }

    fn parse_casts(&mut self, e: Expr) -> (r: ParseResult<Expr>)
        requires
            old(self).wf(),
        ensures
            old(self).same_input(final(self)),
            agrees(
                read_casts(old(self).input(), e.tree(), old(self).at()),
                expr_of(r),
                final(self).at(),
                complaint(r),
            ),
    {
        let ghost ts = self.input();
        let mut cur = e;
        while self.eat(&Tok::As)
            invariant
                self.input() == ts,
                ts == old(self).input(),
                self.wf(),
                read_casts(ts, e.tree(), old(self).at()) == read_casts(ts, cur.tree(), self.at()),
            ensures
                self.input() == ts,
                self.wf(),
                read_casts(ts, e.tree(), old(self).at()) == Ok::<_, Seq<char>>(
                    (cur.tree(), self.at()),
                ),
            decreases ts.len() - self.at(),
        {
            let span = self.span();
            let ty = match self.expect_type() {
                Ok(t) => t,
                Err(m) => {
                    return Err(m);
                },
            };
            cur = Expr::Cast { operand: Box::new(cur), ty, span };
        }
        Ok(cur)
    }

    /// One or more arguments, separated by commas.
    fn parse_args(&mut self) -> (r: ParseResult<Vec<Expr>>)
        requires
            old(self).wf(),
        ensures
            old(self).same_input(final(self)),
            agrees(
                read_args(old(self).input(), old(self).at(), seq![]),
                args_of(r),
                final(self).at(),
                complaint(r),
            ),
        decreases old(self).input().len() - old(self).at(), 7int,
    {
        let ghost ts = self.input();
        let ghost p0 = self.at();
        let mut args: Vec<Expr> = Vec::new();
        assert(trees(args@) =~= seq![]);
        loop
            invariant
                self.input() == ts,
                ts == old(self).input(),
                p0 == old(self).at(),
                p0 <= self.at(),
                self.wf(),
                read_args(ts, p0, seq![]) == read_args(ts, self.at(), trees(args@)),
            decreases ts.len() - self.at(),
        {
            let ghost p = self.at();
            let ghost before = trees(args@);
            proof {
                lemma_expr_advances(ts, p);
            }
            let e = match self.parse_expr() {
                Ok(e) => e,
                Err(m) => {
                    return Err(m);
                },
            };
            let ghost et = e.tree();
            args.push(e);
            assert(trees(args@) =~= before.push(et));
            if !self.eat(&Tok::Comma) {
                return Ok(args);
            }
        }
    }

    fn parse_atom(&mut self) -> (r: ParseResult<Expr>)
        requires
            old(self).wf(),
        ensures
            old(self).same_input(final(self)),
            agrees(
                read_atom(old(self).input(), old(self).at()),
                expr_of(r),
                final(self).at(),
                complaint(r),
            ),
        decreases old(self).input().len() - old(self).at(), 2int,
    {
        let ghost ts = self.input();
        let span = self.span();
        match self.bump() {
            Tok::Num(value) => Ok(Expr::Num { value, span }),
            Tok::True => Ok(Expr::Num { value: 1, span }),
            Tok::False => Ok(Expr::Num { value: 0, span }),
            Tok::LParen => {
                let e = match self.parse_expr() {
                    Ok(e) => e,
                    Err(m) => {
                        return Err(m);
                    },
                };
                match self.expect(&Tok::RParen) {
                    Ok(_) => Ok(e),
                    Err(m) => Err(m),
                }
            },
            Tok::Ident(name) => {
                if self.eat(&Tok::LParen) {
                    let mut args: Vec<Expr> = Vec::new();
                    assert(trees(args@) =~= seq![]);
                    if !self.eat(&Tok::RParen) {
                        args = match self.parse_args() {
                            Ok(a) => a,
                            Err(m) => {
                                return Err(m);
                            },
                        };
                        match self.expect(&Tok::RParen) {
                            Ok(_) => {},
                            Err(m) => {
                                return Err(m);
                            },
                        }
                    }
                    proof {
                        lemma_call_tree(name, args, span);
                    }
                    Ok(Expr::Call { name, args, span })
                } else {
                    Ok(Expr::Ident { name, span })
                }
            },
            other => {
                let mut e = span.text();
                e.append(": expected an expression, found `");
                let found = other.text();
                e.append(found.as_str());
                e.append("`");
                Err(e)
            },
        }
    }
}

pub fn parse(src: &str) -> (r: ParseResult<Program>)
    requires
        src.spec_bytes().len() < u32::MAX,
    ensures
        match program_of(src.spec_bytes()) {
            Ok(prog) => r matches Ok(x) && x.tree() == prog && prog_ok(prog),
            Err(m) => r matches Err(e) && e@ == m,
        },
{
    match Parser::new(src) {
        Ok(p) => {
            let mut parser = p;
            parser.parse_program()
        },
        Err(e) => Err(e),
    }
}

} // verus!
