//! What the parser lets through names only widths that fit in a word.
use crate::ast::{ExprTree, ParamTree, PortDir, ProgramTree, StmtTree};
use crate::lexer::{Lexeme, Span};
use crate::lower_types::{expr_ok, func_ok, prog_ok, stmt_ok, stmts_ok, width_ok};
use crate::parser::{
    binding, prefix, read_args, read_atom, read_binary, read_block, read_casts, read_cond,
    read_expr, read_expr_semi, read_func, read_items, read_more, read_name, read_param_list,
    read_params, read_port, read_program, read_ret, read_sign, read_stmt, read_stmts, read_type,
    read_unary, read_var, step, Input,
};
use vstd::prelude::*;

verus! {

pub open spec fn exprs_ok(es: Seq<ExprTree>) -> bool {
    forall|i: int| 0 <= i < es.len() ==> expr_ok(#[trigger] es[i])
}

proof fn lemma_casts_ok(ts: Input, e: ExprTree, p: int)
    requires
        expr_ok(e),
    ensures
        read_casts(ts, e, p) matches Ok(x) ==> expr_ok(x.0),
    decreases ts.len() - p,
{
    if ts[p].0 == Lexeme::As {
        if let Ok((ty, q)) = read_type(ts, step(ts, p)) {
            if p < q < ts.len() {
                lemma_casts_ok(
                    ts,
                    ExprTree::Cast { operand: Box::new(e), ty, span: ts[step(ts, p)].1 },
                    q,
                );
            }
        }
    }
}

proof fn lemma_atom_ok(ts: Input, p: int)
    ensures
        read_atom(ts, p) matches Ok(x) ==> expr_ok(x.0),
    decreases ts.len() - p, 2int,
{
    let q = step(ts, p);
    match ts[p].0 {
        Lexeme::LParen => {
            if p < q < ts.len() {
                lemma_expr_ok(ts, q);
            }
        },
        Lexeme::Ident(_) => {
            let r = step(ts, q);
            if p < r < ts.len() {
                lemma_args_ok(ts, r, seq![]);
            }
        },
        _ => {},
    }
}

proof fn lemma_args_ok(ts: Input, p: int, before: Seq<ExprTree>)
    requires
        exprs_ok(before),
    ensures
        read_args(ts, p, before) matches Ok(x) ==> exprs_ok(x.0),
    decreases ts.len() - p, 7int,
{
    lemma_expr_ok(ts, p);
    if let Ok((e, q)) = read_expr(ts, p) {
        if ts[q].0 == Lexeme::Comma {
            if p < step(ts, q) < ts.len() {
                lemma_args_ok(ts, step(ts, q), before.push(e));
            }
        }
    }
}

proof fn lemma_unary_ok(ts: Input, p: int)
    ensures
        read_unary(ts, p) matches Ok(x) ==> expr_ok(x.0),
    decreases ts.len() - p, 3int,
{
    match prefix(ts[p].0) {
        Some(op) => {
            if p < step(ts, p) < ts.len() {
                lemma_unary_ok(ts, step(ts, p));
                if let Ok((e, q)) = read_unary(ts, step(ts, p)) {
                    lemma_casts_ok(
                        ts,
                        ExprTree::Unary { op, operand: Box::new(e), span: ts[p].1 },
                        q,
                    );
                }
            }
        },
        None => {
            lemma_atom_ok(ts, p);
            if let Ok((e, q)) = read_atom(ts, p) {
                lemma_casts_ok(ts, e, q);
            }
        },
    }
}

proof fn lemma_binary_ok(ts: Input, p: int, least: int)
    ensures
        read_binary(ts, p, least) matches Ok(x) ==> expr_ok(x.0),
    decreases ts.len() - p, 4int,
{
    lemma_unary_ok(ts, p);
    if let Ok((e, q)) = read_unary(ts, p) {
        if p < q < ts.len() {
            lemma_more_ok(ts, e, q, least);
        }
    }
}

proof fn lemma_more_ok(ts: Input, lhs: ExprTree, p: int, least: int)
    requires
        expr_ok(lhs),
    ensures
        read_more(ts, lhs, p, least) matches Ok(x) ==> expr_ok(x.0),
    decreases ts.len() - p, 5int,
{
    if let Some((op, bp)) = binding(ts[p].0) {
        if bp >= least && p < step(ts, p) < ts.len() {
            lemma_binary_ok(ts, step(ts, p), bp + 1);
            if let Ok((rhs, q)) = read_binary(ts, step(ts, p), bp + 1) {
                if p < q < ts.len() {
                    lemma_more_ok(
                        ts,
                        ExprTree::Binary {
                            op,
                            lhs: Box::new(lhs),
                            rhs: Box::new(rhs),
                            span: ts[p].1,
                        },
                        q,
                        least,
                    );
                }
            }
        }
    }
}

proof fn lemma_expr_ok(ts: Input, p: int)
    ensures
        read_expr(ts, p) matches Ok(x) ==> expr_ok(x.0),
    decreases ts.len() - p, 6int,
{
    lemma_binary_ok(ts, p, 1);
    if let Ok((cond, q)) = read_binary(ts, p, 1) {
        if ts[q].0 == Lexeme::Question && p < step(ts, q) < ts.len() {
            lemma_expr_ok(ts, step(ts, q));
            if let Ok((then_e, r)) = read_expr(ts, step(ts, q)) {
                if let Ok(s) = read_sign(ts, r, Lexeme::Colon) {
                    if p < s < ts.len() {
                        lemma_expr_ok(ts, s);
                    }
                }
            }
        }
    }
}

proof fn lemma_expr_semi_ok(ts: Input, p: int)
    ensures
        read_expr_semi(ts, p) matches Ok(x) ==> expr_ok(x.0),
{
    reveal(read_expr_semi);
    lemma_expr_ok(ts, p);
}

proof fn lemma_cond_ok(ts: Input, p: int)
    ensures
        read_cond(ts, p) matches Ok(x) ==> expr_ok(x.0),
{
    reveal(read_cond);
    if let Ok(q) = read_sign(ts, p, Lexeme::LParen) {
        lemma_expr_ok(ts, q);
    }
}

proof fn lemma_var_ok(ts: Input, p: int, span: Span)
    ensures
        read_var(ts, p, span) matches Ok(x) ==> stmt_ok(x.0),
{
    reveal(read_var);
    let q = match ts[p].0 {
        Lexeme::UType(_) => match read_type(ts, p) {
            Ok((t, q)) => q,
            Err(_) => p,
        },
        _ => p,
    };
    if let Ok((name, r)) = read_name(ts, q) {
        if let Ok(s) = read_sign(ts, r, Lexeme::Assign) {
            lemma_expr_semi_ok(ts, s);
        }
    }
}

proof fn lemma_block_ok(ts: Input, p: int)
    ensures
        read_block(ts, p) matches Ok(x) ==> stmts_ok(x.0),
    decreases ts.len() - p, 8int,
{
    if let Ok(q) = read_sign(ts, p, Lexeme::LBrace) {
        if p < q < ts.len() {
            lemma_stmts_ok(ts, q, seq![]);
        }
    }
}

proof fn lemma_stmts_ok(ts: Input, p: int, before: Seq<StmtTree>)
    requires
        stmts_ok(before),
    ensures
        read_stmts(ts, p, before) matches Ok(x) ==> stmts_ok(x.0),
    decreases ts.len() - p, 10int,
{
    if ts[p].0 != Lexeme::RBrace && ts[p].0 != Lexeme::Eof {
        lemma_stmt_ok(ts, p);
        if let Ok((s, q)) = read_stmt(ts, p) {
            if p < q < ts.len() {
                lemma_stmts_ok(ts, q, before.push(s));
            }
        }
    }
}

proof fn lemma_stmt_ok(ts: Input, p: int)
    ensures
        read_stmt(ts, p) matches Ok(x) ==> stmt_ok(x.0),
    decreases ts.len() - p, 9int,
{
    let q = step(ts, p);
    match ts[p].0 {
        Lexeme::Var => {
            lemma_var_ok(ts, q, ts[p].1);
        },
        Lexeme::If => {
            lemma_cond_ok(ts, q);
            if let Ok((cond, r)) = read_cond(ts, q) {
                if p < r < ts.len() {
                    lemma_block_ok(ts, r);
                    if let Ok((b, s)) = read_block(ts, r) {
                        let t = step(ts, s);
                        if ts[s].0 == Lexeme::Else && p < t < ts.len() {
                            if ts[t].0 == Lexeme::If {
                                lemma_stmt_ok(ts, t);
                            } else {
                                lemma_block_ok(ts, t);
                            }
                        }
                    }
                }
            }
        },
        Lexeme::While => {
            lemma_cond_ok(ts, q);
            if let Ok((cond, r)) = read_cond(ts, q) {
                if p < r < ts.len() {
                    lemma_block_ok(ts, r);
                }
            }
        },
        Lexeme::Return => {
            lemma_expr_semi_ok(ts, q);
        },
        Lexeme::LBrace => {
            lemma_block_ok(ts, p);
        },
        Lexeme::Ident(_) => {
            lemma_expr_semi_ok(ts, step(ts, q));
        },
        _ => {},
    }
}

pub open spec fn params_ok(ps: Seq<ParamTree>) -> bool {
    forall|i: int| 0 <= i < ps.len() ==> width_ok((#[trigger] ps[i]).ty.width)
}

proof fn lemma_params_ok(ts: Input, p: int, before: Seq<ParamTree>)
    requires
        params_ok(before),
    ensures
        read_params(ts, p, before) matches Ok(x) ==> params_ok(x.0),
    decreases ts.len() - p,
{
    if let Ok((ty, q)) = read_type(ts, p) {
        if let Ok((name, r)) = read_name(ts, q) {
            if ts[r].0 == Lexeme::Comma && p < step(ts, r) < ts.len() {
                lemma_params_ok(
                    ts,
                    step(ts, r),
                    before.push(ParamTree { ty, name, span: ts[p].1 }),
                );
            }
        }
    }
}

proof fn lemma_func_ok(ts: Input, p: int, is_proc: bool)
    ensures
        read_func(ts, p, is_proc) matches Ok(x) ==> func_ok(x.0),
{
    reveal(read_func);
    if let Ok((name, q)) = read_name(ts, p) {
        if let Ok(r) = read_sign(ts, q, Lexeme::LParen) {
            lemma_params_ok(ts, r, seq![]);
        }
        if let Ok((params, r)) = read_param_list(ts, q) {
            if let Ok((ret, s)) = read_ret(ts, r, is_proc, name, ts[p].1) {
                lemma_block_ok(ts, s);
            }
        }
    }
}

proof fn lemma_items_ok(ts: Input, p: int, before: ProgramTree)
    requires
        prog_ok(before),
    ensures
        read_items(ts, p, before) matches Ok(x) ==> prog_ok(x.0),
    decreases ts.len() - p, 1int,
{
    let q = step(ts, p);
    match ts[p].0 {
        Lexeme::Input => {
            lemma_port_item_ok(ts, p, q, PortDir::In, before);
        },
        Lexeme::Output => {
            lemma_port_item_ok(ts, p, q, PortDir::Out, before);
        },
        Lexeme::Fn => {
            lemma_func_item_ok(ts, p, q, false, before);
        },
        Lexeme::Proc => {
            lemma_func_item_ok(ts, p, q, true, before);
        },
        _ => {},
    }
}

proof fn lemma_port_item_ok(ts: Input, p: int, q: int, dir: PortDir, before: ProgramTree)
    requires
        prog_ok(before),
    ensures
        read_port(ts, q, dir) matches Ok(x) ==> p < x.1 < ts.len() ==> (read_items(
            ts,
            x.1,
            ProgramTree { ports: before.ports.push(x.0), funcs: before.funcs },
        ) matches Ok(y) ==> prog_ok(y.0)),
    decreases ts.len() - p, 0int,
{
    reveal(read_port);
    if let Ok((port, r)) = read_port(ts, q, dir) {
        if p < r < ts.len() {
            let next = ProgramTree { ports: before.ports.push(port), funcs: before.funcs };
            assert(prog_ok(next));
            lemma_items_ok(ts, r, next);
        }
    }
}

proof fn lemma_func_item_ok(ts: Input, p: int, q: int, is_proc: bool, before: ProgramTree)
    requires
        prog_ok(before),
    ensures
        read_func(ts, q, is_proc) matches Ok(x) ==> p < x.1 < ts.len() ==> (read_items(
            ts,
            x.1,
            ProgramTree { ports: before.ports, funcs: before.funcs.push(x.0) },
        ) matches Ok(y) ==> prog_ok(y.0)),
    decreases ts.len() - p, 0int,
{
    lemma_func_ok(ts, q, is_proc);
    if let Ok((f, r)) = read_func(ts, q, is_proc) {
        if p < r < ts.len() {
            let next = ProgramTree { ports: before.ports, funcs: before.funcs.push(f) };
            assert(prog_ok(next));
            lemma_items_ok(ts, r, next);
        }
    }
}

/// Whatever the parser accepts can be lowered: every width it names is in range.
pub proof fn lemma_program_ok(ts: Input, p: int)
    ensures
        read_program(ts, p) matches Ok(x) ==> prog_ok(x.0),
{
    lemma_items_ok(ts, p, ProgramTree { ports: seq![], funcs: seq![] });
}

} // verus!
