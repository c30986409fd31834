//! Printing and parsing agree: the text of a program is read as that program.
use crate::ast::{
    BinOp, ExprTree, FuncTree, ParamTree, PortDir, PortTree, ProgramTree, StmtTree, Type, UnOp,
};
use crate::lexer::Lexeme;
use crate::parser::{
    binding, prefix, read_args, read_atom, read_binary, read_block, read_casts, read_cond, read_expr,
    read_expr_semi, read_func, read_items, read_more, read_params, read_port, read_program, read_stmt,
    read_stmts, read_type, read_unary, read_var, step, Input,
};
use vstd::prelude::*;

verus! {

// --- how a program is written --------------------------------------------------------------------

/// The sign of a binary operator.
pub open spec fn sign_of(op: BinOp) -> Lexeme {
    match op {
        BinOp::Add => Lexeme::Plus,
        BinOp::Sub => Lexeme::Minus,
        BinOp::Mul => Lexeme::Star,
        BinOp::And => Lexeme::Amp,
        BinOp::Or => Lexeme::Pipe,
        BinOp::Xor => Lexeme::Caret,
        BinOp::Shl => Lexeme::Shl,
        BinOp::Shr => Lexeme::Shr,
        BinOp::Eq => Lexeme::EqEq,
        BinOp::Ne => Lexeme::Ne,
        BinOp::Lt => Lexeme::Lt,
        BinOp::Le => Lexeme::Le,
        BinOp::Gt => Lexeme::Gt,
        BinOp::Ge => Lexeme::Ge,
        BinOp::LAnd => Lexeme::AndAnd,
        BinOp::LOr => Lexeme::OrOr,
    }
}

/// The sign of a unary operator.
pub open spec fn unary_sign(op: UnOp) -> Lexeme {
    match op {
        UnOp::Neg => Lexeme::Minus,
        UnOp::Not => Lexeme::Bang,
        UnOp::BitNot => Lexeme::Tilde,
    }
}

/// An expression, with parentheses around every operation.
pub open spec fn written(e: ExprTree) -> Seq<Lexeme>
    decreases e,
{
    match e {
        ExprTree::Num { value, .. } => seq![Lexeme::Num(value)],
        ExprTree::Ident { name, .. } => seq![Lexeme::Ident(name)],
        ExprTree::Unary { op, operand, .. } => seq![Lexeme::LParen, unary_sign(op)] + written(*operand)
            + seq![Lexeme::RParen],
        ExprTree::Binary { op, lhs, rhs, .. } => seq![Lexeme::LParen] + (written(*lhs) + (seq![sign_of(op)] + (
        written(*rhs) + seq![Lexeme::RParen]))),
        ExprTree::Call { name, args, .. } => seq![Lexeme::Ident(name), Lexeme::LParen] + (written_args(args, 0)
            + seq![Lexeme::RParen]),
        ExprTree::Cast { operand, ty, .. } => seq![Lexeme::LParen] + (written(*operand) + seq![
            Lexeme::As,
            Lexeme::UType(ty.width),
            Lexeme::RParen,
        ]),
        ExprTree::Ternary { cond, then_e, else_e, .. } => seq![Lexeme::LParen] + (written(*cond) + (seq![
            Lexeme::Question,
        ] + (written(*then_e) + (seq![Lexeme::Colon] + (written(*else_e) + seq![Lexeme::RParen]))))),
    }
}

/// The arguments from the `i`th on, with commas between them.
pub open spec fn written_args(args: Seq<ExprTree>, i: int) -> Seq<Lexeme>
    decreases args, args.len() - i,
{
    if i < 0 || i >= args.len() {
        Seq::empty()
    } else if i == args.len() - 1 {
        written(args[i])
    } else {
        written(args[i]) + (seq![Lexeme::Comma] + written_args(args, i + 1))
    }
}

/// The same expression, wherever it stands in a source.
pub open spec fn same_expr(a: ExprTree, b: ExprTree) -> bool
    decreases a,
{
    match (a, b) {
        (ExprTree::Num { value: v, .. }, ExprTree::Num { value: w, .. }) => v == w,
        (ExprTree::Ident { name: m, .. }, ExprTree::Ident { name: n, .. }) => m == n,
        (ExprTree::Unary { op: o, operand: x, .. }, ExprTree::Unary { op: p, operand: y, .. }) => o == p
            && same_expr(*x, *y),
        (ExprTree::Binary { op: o, lhs: x, rhs: u, .. }, ExprTree::Binary { op: p, lhs: y, rhs: v, .. }) => o
            == p && same_expr(*x, *y) && same_expr(*u, *v),
        (ExprTree::Call { name: m, args: x, .. }, ExprTree::Call { name: n, args: y, .. }) => m == n && x.len()
            == y.len() && forall|i: int| 0 <= i < x.len() ==> same_expr(#[trigger] x[i], y[i]),
        (ExprTree::Cast { operand: x, ty: s, .. }, ExprTree::Cast { operand: y, ty: t, .. }) => s == t && same_expr(
            *x,
            *y,
        ),
        (
            ExprTree::Ternary { cond: c, then_e: x, else_e: u, .. },
            ExprTree::Ternary { cond: d, then_e: y, else_e: v, .. },
        ) => same_expr(*c, *d) && same_expr(*x, *y) && same_expr(*u, *v),
        _ => false,
    }
}

/// A width that can be written.
pub open spec fn width_fine(w: u32) -> bool {
    1 <= w <= 32
}

/// Every cast is to a width that can be written.
pub open spec fn expr_fine(e: ExprTree) -> bool
    decreases e,
{
    match e {
        ExprTree::Num { .. } => true,
        ExprTree::Ident { .. } => true,
        ExprTree::Unary { operand, .. } => expr_fine(*operand),
        ExprTree::Binary { lhs, rhs, .. } => expr_fine(*lhs) && expr_fine(*rhs),
        ExprTree::Call { args, .. } => forall|i: int| 0 <= i < args.len() ==> expr_fine(#[trigger] args[i]),
        ExprTree::Cast { operand, ty, .. } => expr_fine(*operand) && width_fine(ty.width),
        ExprTree::Ternary { cond, then_e, else_e, .. } => expr_fine(*cond) && expr_fine(*then_e) && expr_fine(
            *else_e,
        ),
    }
}

// --- reading what is written -----------------------------------------------------------------------

/// The tokens from `p` on begin with `w`, and more follow.
#[verifier::opaque]
pub open spec fn says(ts: Input, p: int, w: Seq<Lexeme>) -> bool {
    &&& 0 <= p
    &&& p + w.len() < ts.len()
    &&& forall|i: int| 0 <= i < w.len() ==> (#[trigger] ts[p + i]).0 == w[i]
}

proof fn lemma_says(ts: Input, p: int, a: Seq<Lexeme>, b: Seq<Lexeme>)
    requires
        says(ts, p, a + b),
    ensures
        says(ts, p, a),
        says(ts, p + a.len(), b),
        0 <= p && p + a.len() + b.len() < ts.len(),
{
    reveal(says);
    assert forall|i: int| 0 <= i < a.len() implies (#[trigger] ts[p + i]).0 == a[i] by {
        assert((a + b)[i] == a[i]);
    }
    assert forall|i: int| 0 <= i < b.len() implies (#[trigger] ts[p + a.len() + i]).0 == b[i] by {
        assert((a + b)[a.len() + i] == b[i]);
        assert(ts[p + (a.len() + i)].0 == (a + b)[a.len() + i]);
    }
}

proof fn lemma_says_one(ts: Input, p: int, t: Lexeme, b: Seq<Lexeme>)
    requires
        says(ts, p, seq![t] + b),
    ensures
        ts[p].0 == t,
        step(ts, p) == p + 1,
        says(ts, p + 1, b),
        0 <= p && p + 1 + b.len() < ts.len(),
{
    lemma_says(ts, p, seq![t], b);
    lemma_says_last(ts, p, t);
}

proof fn lemma_says_last(ts: Input, p: int, t: Lexeme)
    requires
        says(ts, p, seq![t]),
    ensures
        ts[p].0 == t,
        step(ts, p) == p + 1,
        0 <= p && p + 1 < ts.len(),
{
    reveal(says);
    assert(ts[p + 0].0 == seq![t][0]);
}

proof fn lemma_says_first(ts: Input, p: int, w: Seq<Lexeme>)
    requires
        says(ts, p, w),
        w.len() > 0,
    ensures
        ts[p].0 == w[0],
        0 <= p && p + w.len() < ts.len(),
{
    reveal(says);
    assert(ts[p + 0].0 == w[0]);
}

/// Every operator's sign is read as that operator.
pub proof fn lemma_signs(op: BinOp, u: UnOp)
    ensures
        binding(sign_of(op)) matches Some(b) && b.0 == op && b.1 >= 1,
        prefix(unary_sign(u)) == Some(u),
{
}

/// An expression begins with something that is no sign.
proof fn lemma_written_first(e: ExprTree)
    ensures
        written(e).len() > 0,
        prefix(written(e)[0]) is None,
        written(e)[0] != Lexeme::Semi,
        written(e)[0] != Lexeme::RParen,
{
}

/// What stands behind an expression does not belong to it.
pub open spec fn closes(t: Lexeme) -> bool {
    t != Lexeme::As && binding(t) is None && t != Lexeme::Question
}

/// `x` is read at `p`, up to `q`.
spec fn is_read(r: Result<(ExprTree, int), Seq<char>>, e: ExprTree, q: int) -> bool {
    r matches Ok(x) && x.1 == q && same_expr(x.0, e)
}

#[verifier::opaque]
spec fn atom_read(ts: Input, p: int, e: ExprTree, q: int) -> bool {
    is_read(read_atom(ts, p), e, q)
}

#[verifier::opaque]
spec fn unary_read(ts: Input, p: int, e: ExprTree, q: int) -> bool {
    is_read(read_unary(ts, p), e, q)
}

#[verifier::opaque]
spec fn binary_read(ts: Input, p: int, least: int, e: ExprTree, q: int) -> bool {
    is_read(read_binary(ts, p, least), e, q)
}

#[verifier::opaque]
spec fn expr_read(ts: Input, p: int, e: ExprTree, q: int) -> bool {
    is_read(read_expr(ts, p), e, q)
}

/// An atom by itself is an operand.
proof fn lemma_operand(ts: Input, p: int, e: ExprTree, q: int)
    requires
        atom_read(ts, p, e, q),
        prefix(ts[p].0) is None,
        ts[q].0 != Lexeme::As,
    ensures
        unary_read(ts, p, e, q),
{
    reveal(atom_read);
    reveal(unary_read);
}

proof fn lemma_operands(ts: Input, p: int, e: ExprTree, q: int, least: int)
    requires
        unary_read(ts, p, e, q),
        p < q < ts.len(),
        binding(ts[q].0) is None,
    ensures
        binary_read(ts, p, least, e, q),
{
    reveal(unary_read);
    reveal(binary_read);
}

/// An atom by itself is an expression.
proof fn lemma_alone(ts: Input, p: int, e: ExprTree)
    requires
        says(ts, p, written(e)),
        atom_read(ts, p, e, p + written(e).len()),
        closes(ts[p + written(e).len()].0),
    ensures
        expr_read(ts, p, e, p + written(e).len()),
{
    let q = p + written(e).len();
    lemma_written_first(e);
    lemma_says_first(ts, p, written(e));
    lemma_operand(ts, p, e, q);
    lemma_operands(ts, p, e, q, 1);
    lemma_no_question(ts, p, e, q);
}

proof fn lemma_no_question(ts: Input, p: int, e: ExprTree, q: int)
    requires
        binary_read(ts, p, 1, e, q),
        ts[q].0 != Lexeme::Question,
    ensures
        expr_read(ts, p, e, q),
{
    reveal(binary_read);
    reveal(expr_read);
}

/// An expression that is written with parentheses is read as it was.
proof fn lemma_atom(ts: Input, p: int, e: ExprTree)
    requires
        expr_fine(e),
        says(ts, p, written(e)),
        e is Call || e is Ident ==> ts[p + written(e).len()].0 != Lexeme::LParen,
    ensures
        atom_read(ts, p, e, p + written(e).len()),
    decreases e, 1int,
{
    let end = p + written(e).len();
    match e {
        ExprTree::Num { value, .. } => {
            lemma_says_last(ts, p, Lexeme::Num(value));
            reveal(atom_read);
        },
        ExprTree::Ident { name, .. } => {
            lemma_says_last(ts, p, Lexeme::Ident(name));
            reveal(atom_read);
        },
        ExprTree::Unary { op, operand, .. } => {
            lemma_unary(ts, p, e, op, *operand);
        },
        ExprTree::Binary { op, lhs, rhs, .. } => {
            lemma_binary(ts, p, e, op, *lhs, *rhs);
        },
        ExprTree::Call { name, args, .. } => {
            lemma_call(ts, p, e, name, args);
        },
        ExprTree::Cast { operand, ty, .. } => {
            lemma_cast(ts, p, e, *operand, ty);
        },
        ExprTree::Ternary { cond, then_e, else_e, .. } => {
            lemma_ternary(ts, p, e, *cond, *then_e, *else_e);
        },
    }
}

proof fn lemma_unary(ts: Input, p: int, e: ExprTree, op: UnOp, operand: ExprTree)
    requires
        e matches ExprTree::Unary { op: o, operand: x, .. } && o == op && *x == operand,
        expr_fine(e),
        says(ts, p, written(e)),
    ensures
        atom_read(ts, p, e, p + written(e).len()),
    decreases e, 0int,
{
    let inner = written(operand);
    assert(written(e) =~= seq![Lexeme::LParen] + (seq![unary_sign(op)] + (inner + seq![Lexeme::RParen])));
    lemma_says_one(ts, p, Lexeme::LParen, seq![unary_sign(op)] + (inner + seq![Lexeme::RParen]));
    lemma_says_one(ts, p + 1, unary_sign(op), inner + seq![Lexeme::RParen]);
    lemma_says(ts, p + 2, inner, seq![Lexeme::RParen]);
    let r = p + 2 + inner.len();
    lemma_says_last(ts, r, Lexeme::RParen);
    lemma_atom(ts, p + 2, operand);
    lemma_signs(BinOp::Add, op);
    lemma_written_first(operand);
    lemma_says_first(ts, p + 2, inner);
    lemma_operand(ts, p + 2, operand, r);
    lemma_prefixed(ts, p + 1, op, operand, r, e);
    lemma_operands(ts, p + 1, e, r, 1);
    lemma_parenthesised(ts, p, e, r);
}

/// A sign before an operand.
proof fn lemma_prefixed(ts: Input, p: int, op: UnOp, operand: ExprTree, r: int, e: ExprTree)
    requires
        0 <= p,
        p + 1 < ts.len(),
        prefix(ts[p].0) == Some(op),
        unary_read(ts, p + 1, operand, r),
        ts[r].0 != Lexeme::As,
        e matches ExprTree::Unary { op: o, operand: x, .. } && o == op && *x == operand,
    ensures
        unary_read(ts, p, e, r),
{
    reveal(unary_read);
    assert(step(ts, p) == p + 1);
    let x = read_unary(ts, p + 1)->Ok_0.0;
    let one = ExprTree::Unary { op, operand: Box::new(x), span: ts[p].1 };
    assert(read_casts(ts, one, r) == Ok::<(ExprTree, int), Seq<char>>((one, r)));
    assert(same_expr(one, e));
}

proof fn lemma_cast(ts: Input, p: int, e: ExprTree, operand: ExprTree, ty: Type)
    requires
        e matches ExprTree::Cast { operand: x, ty: t, .. } && t == ty && *x == operand,
        expr_fine(e),
        says(ts, p, written(e)),
    ensures
        atom_read(ts, p, e, p + written(e).len()),
    decreases e, 0int,
{
    let inner = written(operand);
    let tail = seq![Lexeme::As, Lexeme::UType(ty.width), Lexeme::RParen];
    lemma_says_one(ts, p, Lexeme::LParen, inner + tail);
    lemma_says(ts, p + 1, inner, tail);
    let q = p + 1 + inner.len();
    assert(tail =~= seq![Lexeme::As] + (seq![Lexeme::UType(ty.width)] + seq![Lexeme::RParen]));
    lemma_says_one(ts, q, Lexeme::As, seq![Lexeme::UType(ty.width)] + seq![Lexeme::RParen]);
    lemma_says_one(ts, q + 1, Lexeme::UType(ty.width), seq![Lexeme::RParen]);
    lemma_says_last(ts, q + 2, Lexeme::RParen);
    lemma_atom(ts, p + 1, operand);
    lemma_written_first(operand);
    lemma_says_first(ts, p + 1, inner);
    lemma_casted(ts, p + 1, operand, q, ty, e);
    lemma_operands(ts, p + 1, e, q + 2, 1);
    lemma_parenthesised(ts, p, e, q + 2);
}

/// A cast behind an operand.
proof fn lemma_casted(ts: Input, p: int, operand: ExprTree, q: int, ty: Type, e: ExprTree)
    requires
        0 <= p < q,
        q + 3 < ts.len(),
        prefix(ts[p].0) is None,
        atom_read(ts, p, operand, q),
        ts[q].0 == Lexeme::As,
        ts[q + 1].0 == Lexeme::UType(ty.width),
        ts[q + 2].0 != Lexeme::As,
        width_fine(ty.width),
        e matches ExprTree::Cast { operand: x, ty: t, .. } && t == ty && *x == operand,
    ensures
        unary_read(ts, p, e, q + 2),
{
    reveal(atom_read);
    reveal(unary_read);
    let x = read_atom(ts, p)->Ok_0.0;
    assert(step(ts, q) == q + 1 && step(ts, q + 1) == q + 2);
    assert(read_type(ts, q + 1) == Ok::<(Type, int), Seq<char>>((ty, q + 2)));
    let one = ExprTree::Cast { operand: Box::new(x), ty, span: ts[q + 1].1 };
    assert(read_casts(ts, one, q + 2) == Ok::<(ExprTree, int), Seq<char>>((one, q + 2)));
    assert(read_casts(ts, x, q) == Ok::<(ExprTree, int), Seq<char>>((one, q + 2)));
    assert(same_expr(one, e));
}

proof fn lemma_call(ts: Input, p: int, e: ExprTree, name: Seq<char>, args: Seq<ExprTree>)
    requires
        e matches ExprTree::Call { name: n, args: x, .. } && n == name && x == args,
        expr_fine(e),
        says(ts, p, written(e)),
    ensures
        atom_read(ts, p, e, p + written(e).len()),
    decreases e, 0int,
{
    let inner = written_args(args, 0);
    let tail = inner + seq![Lexeme::RParen];
    assert(written(e) =~= seq![Lexeme::Ident(name)] + (seq![Lexeme::LParen] + tail));
    lemma_says_one(ts, p, Lexeme::Ident(name), seq![Lexeme::LParen] + tail);
    lemma_says_one(ts, p + 1, Lexeme::LParen, tail);
    lemma_says(ts, p + 2, inner, seq![Lexeme::RParen]);
    lemma_says_last(ts, p + 2 + inner.len(), Lexeme::RParen);
    let r = p + 2 + inner.len();
    if args.len() > 0 {
        lemma_args_first(args, 0);
        lemma_says_first(ts, p + 2, inner);
        lemma_args(ts, p + 2, args, 0, seq![]);
    }
    lemma_called(ts, p, name, args, r, e);
}

/// Arguments in parentheses behind a name.
proof fn lemma_called(ts: Input, p: int, name: Seq<char>, args: Seq<ExprTree>, r: int, e: ExprTree)
    requires
        0 <= p,
        p + 2 <= r,
        r + 1 < ts.len(),
        ts[p].0 == Lexeme::Ident(name),
        ts[p + 1].0 == Lexeme::LParen,
        args.len() == 0 ==> r == p + 2,
        args.len() > 0 ==> ts[p + 2].0 != Lexeme::RParen && args_read(ts, p + 2, seq![], args, 0, r),
        ts[r].0 == Lexeme::RParen,
        e matches ExprTree::Call { name: n, args: x, .. } && n == name && x == args,
    ensures
        atom_read(ts, p, e, r + 1),
{
    reveal(atom_read);
    reveal(args_read);
    assert(step(ts, p) == p + 1 && step(ts, p + 1) == p + 2);
    if args.len() > 0 {
        let x = read_args(ts, p + 2, seq![])->Ok_0;
        assert forall|k: int| 0 <= k < args.len() implies same_expr(#[trigger] x.0[k], args[k]) by {
            assert(same_expr(x.0[0 + k - 0], args[k]));
        }
    }
}

proof fn lemma_binary(ts: Input, p: int, e: ExprTree, op: BinOp, lhs: ExprTree, rhs: ExprTree)
    requires
        e matches ExprTree::Binary { op: o, lhs: l, rhs: r, .. } && o == op && *l == lhs && *r == rhs,
        expr_fine(e),
        says(ts, p, written(e)),
    ensures
        atom_read(ts, p, e, p + written(e).len()),
    decreases e, 0int,
{
    let (a, b) = (written(lhs), written(rhs));
    let close = seq![Lexeme::RParen];
    lemma_says_one(ts, p, Lexeme::LParen, a + (seq![sign_of(op)] + (b + close)));
    lemma_says(ts, p + 1, a, seq![sign_of(op)] + (b + close));
    let q = p + 1 + a.len();
    lemma_says_one(ts, q, sign_of(op), b + close);
    lemma_says(ts, q + 1, b, close);
    let r = q + 1 + b.len();
    lemma_says_last(ts, r, Lexeme::RParen);
    lemma_signs(op, UnOp::Neg);
    lemma_atom(ts, p + 1, lhs);
    lemma_atom(ts, q + 1, rhs);
    lemma_written_first(lhs);
    lemma_written_first(rhs);
    lemma_says_first(ts, p + 1, a);
    lemma_says_first(ts, q + 1, b);
    lemma_operand(ts, p + 1, lhs, q);
    lemma_operand(ts, q + 1, rhs, r);
    let bp = (binding(sign_of(op))->Some_0).1;
    lemma_operands(ts, q + 1, rhs, r, bp + 1);
    lemma_infix(ts, p + 1, lhs, q, op, bp, rhs, r, 1, e);
    lemma_parenthesised(ts, p, e, r);
}

/// An operation between two operands.
proof fn lemma_infix(
    ts: Input,
    p: int,
    lhs: ExprTree,
    q: int,
    op: BinOp,
    bp: int,
    rhs: ExprTree,
    r: int,
    least: int,
    e: ExprTree,
)
    requires
        0 <= p < q < r < ts.len(),
        unary_read(ts, p, lhs, q),
        binding(ts[q].0) == Some((op, bp)),
        bp >= least,
        binary_read(ts, q + 1, bp + 1, rhs, r),
        binding(ts[r].0) is None,
        e matches ExprTree::Binary { op: o, lhs: x, rhs: y, .. } && o == op && *x == lhs && *y == rhs,
    ensures
        binary_read(ts, p, least, e, r),
{
    reveal(unary_read);
    reveal(binary_read);
    assert(step(ts, q) == q + 1);
    let x = read_unary(ts, p)->Ok_0.0;
    let y = read_binary(ts, q + 1, bp + 1)->Ok_0.0;
    let both = ExprTree::Binary { op, lhs: Box::new(x), rhs: Box::new(y), span: ts[q].1 };
    assert(read_more(ts, both, r, least) == Ok::<(ExprTree, int), Seq<char>>((both, r)));
    assert(read_more(ts, x, q, least) == Ok::<(ExprTree, int), Seq<char>>((both, r)));
    assert(same_expr(both, e));
}

/// What stands in parentheses is an atom.
proof fn lemma_parenthesised(ts: Input, p: int, e: ExprTree, r: int)
    requires
        0 <= p,
        p + 1 < r,
        r + 1 < ts.len(),
        ts[p].0 == Lexeme::LParen,
        binary_read(ts, p + 1, 1, e, r),
        ts[r].0 == Lexeme::RParen,
    ensures
        atom_read(ts, p, e, r + 1),
{
    reveal(atom_read);
    reveal(binary_read);
    reveal(expr_read);
    assert(expr_read(ts, p + 1, e, r));
}

proof fn lemma_ternary(ts: Input, p: int, e: ExprTree, c: ExprTree, t: ExprTree, f: ExprTree)
    requires
        e matches ExprTree::Ternary { cond, then_e, else_e, .. } && *cond == c && *then_e == t && *else_e == f,
        expr_fine(e),
        says(ts, p, written(e)),
    ensures
        atom_read(ts, p, e, p + written(e).len()),
    decreases e, 0int,
{
    let (wc, wt, wf) = (written(c), written(t), written(f));
    let r4 = wf + seq![Lexeme::RParen];
    let r3 = wt + (seq![Lexeme::Colon] + r4);
    lemma_says_one(ts, p, Lexeme::LParen, wc + (seq![Lexeme::Question] + r3));
    lemma_says(ts, p + 1, wc, seq![Lexeme::Question] + r3);
    let q = p + 1 + wc.len();
    lemma_says_one(ts, q, Lexeme::Question, r3);
    lemma_says(ts, q + 1, wt, seq![Lexeme::Colon] + r4);
    let r = q + 1 + wt.len();
    lemma_says_one(ts, r, Lexeme::Colon, r4);
    lemma_says(ts, r + 1, wf, seq![Lexeme::RParen]);
    let s = r + 1 + wf.len();
    lemma_says_last(ts, s, Lexeme::RParen);
    lemma_atom(ts, p + 1, c);
    lemma_atom(ts, q + 1, t);
    lemma_atom(ts, r + 1, f);
    lemma_written_first(c);
    lemma_says_first(ts, p + 1, wc);
    lemma_operand(ts, p + 1, c, q);
    lemma_operands(ts, p + 1, c, q, 1);
    lemma_alone(ts, q + 1, t);
    lemma_alone(ts, r + 1, f);
    lemma_choice(ts, p, c, q, t, r, f, s, e);
}

/// A choice in parentheses.
proof fn lemma_choice(
    ts: Input,
    p: int,
    c: ExprTree,
    q: int,
    t: ExprTree,
    r: int,
    f: ExprTree,
    s: int,
    e: ExprTree,
)
    requires
        0 <= p,
        p + 1 < q,
        q + 1 < r,
        r + 1 < s,
        s + 1 < ts.len(),
        ts[p].0 == Lexeme::LParen,
        binary_read(ts, p + 1, 1, c, q),
        ts[q].0 == Lexeme::Question,
        expr_read(ts, q + 1, t, r),
        ts[r].0 == Lexeme::Colon,
        expr_read(ts, r + 1, f, s),
        ts[s].0 == Lexeme::RParen,
        e matches ExprTree::Ternary { cond, then_e, else_e, .. } && *cond == c && *then_e == t && *else_e == f,
    ensures
        atom_read(ts, p, e, s + 1),
{
    reveal(binary_read);
    reveal(expr_read);
    reveal(atom_read);
    let x = read_expr(ts, p + 1);
    assert(is_read(x, e, s));
}

proof fn lemma_args_first(args: Seq<ExprTree>, i: int)
    requires
        0 <= i < args.len(),
    ensures
        written_args(args, i).len() > 0,
        written_args(args, i)[0] != Lexeme::RParen,
        written_args(args, i)[0] == written(args[i])[0],
{
    lemma_written_first(args[i]);
}

/// The arguments from the `i`th on are read, behind those in `before`.
#[verifier::opaque]
spec fn args_read(ts: Input, p: int, before: Seq<ExprTree>, args: Seq<ExprTree>, i: int, q: int) -> bool {
    read_args(ts, p, before) matches Ok(x) && x.1 == q && x.0.len() == before.len() + args.len() - i && (forall|
        k: int,
    |
        0 <= k < before.len() ==> x.0[k] == before[k]) && (forall|k: int|
        i <= k < args.len() ==> same_expr(x.0[before.len() + k - i], #[trigger] args[k]))
}

proof fn lemma_last_arg(ts: Input, p: int, before: Seq<ExprTree>, args: Seq<ExprTree>, i: int, q: int)
    requires
        i == args.len() - 1,
        expr_read(ts, p, args[i], q),
        ts[q].0 == Lexeme::RParen,
    ensures
        args_read(ts, p, before, args, i, q),
{
    reveal(expr_read);
    reveal(args_read);
}

proof fn lemma_next_arg(ts: Input, p: int, before: Seq<ExprTree>, args: Seq<ExprTree>, i: int, q: int, r: int)
    requires
        0 <= i < args.len() - 1,
        0 <= p < q,
        q + 1 < ts.len(),
        expr_read(ts, p, args[i], q),
        ts[q].0 == Lexeme::Comma,
        forall|e: ExprTree| #[trigger] args_read(ts, q + 1, before.push(e), args, i + 1, r),
    ensures
        args_read(ts, p, before, args, i, r),
{
    reveal(expr_read);
    reveal(args_read);
    let e = read_expr(ts, p)->Ok_0.0;
    assert(args_read(ts, q + 1, before.push(e), args, i + 1, r));
    let x = read_args(ts, q + 1, before.push(e))->Ok_0;
    assert(x.0[before.len() as int] == before.push(e)[before.len() as int]);
    assert forall|k: int| 0 <= k < before.len() implies x.0[k] == before[k] by {
        assert(x.0[k] == before.push(e)[k]);
    }
    assert forall|k: int| i <= k < args.len() implies same_expr(x.0[before.len() + k - i], #[trigger] args[k]) by {
        if k > i {
            assert(same_expr(x.0[before.push(e).len() + k - (i + 1)], args[k]));
        }
    }
}

/// The arguments from the `i`th on are read as they were.
proof fn lemma_args(ts: Input, p: int, args: Seq<ExprTree>, i: int, before: Seq<ExprTree>)
    requires
        0 <= i < args.len(),
        forall|k: int| 0 <= k < args.len() ==> expr_fine(#[trigger] args[k]),
        says(ts, p, written_args(args, i)),
        ts[p + written_args(args, i).len()].0 == Lexeme::RParen,
    ensures
        args_read(ts, p, before, args, i, p + written_args(args, i).len()),
    decreases args, args.len() - i,
{
    let w = written(args[i]);
    let end = p + written_args(args, i).len();
    if i == args.len() - 1 {
        lemma_atom(ts, p, args[i]);
        lemma_alone(ts, p, args[i]);
        lemma_last_arg(ts, p, before, args, i, end);
    } else {
        let rest = written_args(args, i + 1);
        lemma_says(ts, p, w, seq![Lexeme::Comma] + rest);
        let q = p + w.len();
        lemma_says_one(ts, q, Lexeme::Comma, rest);
        lemma_atom(ts, p, args[i]);
        lemma_alone(ts, p, args[i]);
        lemma_written_first(args[i]);
        assert forall|e: ExprTree| #[trigger] args_read(ts, q + 1, before.push(e), args, i + 1, end) by {
            lemma_args(ts, q + 1, args, i + 1, before.push(e));
        }
        lemma_next_arg(ts, p, before, args, i, q, end);
    }
}

/// An expression, fully parenthesised, is read as it was, whatever is behind it that does not
/// belong to it.
pub proof fn lemma_expression_reads_back(ts: Input, p: int, e: ExprTree)
    requires
        expr_fine(e),
        says(ts, p, written(e)),
        closes(ts[p + written(e).len()].0),
        ts[p + written(e).len()].0 != Lexeme::LParen,
    ensures
        read_expr(ts, p) matches Ok(x) && x.1 == p + written(e).len() && same_expr(x.0, e),
{
    lemma_atom(ts, p, e);
    lemma_alone(ts, p, e);
    reveal(expr_read);
}

// --- precedence ------------------------------------------------------------------------------------

/// How tightly an operator binds, as in C: products, sums, shifts, comparisons, equality,
/// the three bitwise operators one by one, and the two logical ones.
pub open spec fn tightness(op: BinOp) -> int {
    match op {
        BinOp::Mul => 10,
        BinOp::Add | BinOp::Sub => 9,
        BinOp::Shl | BinOp::Shr => 8,
        BinOp::Lt | BinOp::Le | BinOp::Gt | BinOp::Ge => 7,
        BinOp::Eq | BinOp::Ne => 6,
        BinOp::And => 5,
        BinOp::Xor => 4,
        BinOp::Or => 3,
        BinOp::LAnd => 2,
        BinOp::LOr => 1,
    }
}

/// `x op y`.
pub open spec fn operation(op: BinOp, x: ExprTree, y: ExprTree) -> ExprTree {
    ExprTree::Binary {
        op,
        lhs: Box::new(x),
        rhs: Box::new(y),
        span: crate::lexer::Span { line: 0, col: 0 },
    }
}

/// Without parentheses the tighter of two operators takes the operand between them, and of
/// two that are as tight the first.
pub proof fn lemma_precedence(ts: Input, p: int, a: ExprTree, f: BinOp, b: ExprTree, g: BinOp, c: ExprTree)
    requires
        expr_fine(a),
        expr_fine(b),
        expr_fine(c),
        says(
            ts,
            p,
            written(a) + (seq![sign_of(f)] + (written(b) + (seq![sign_of(g)] + (written(c) + seq![Lexeme::Semi])))),
        ),
    ensures
        ({
            let end = p + written(a).len() + 1 + written(b).len() + 1 + written(c).len();
            let e = if tightness(g) > tightness(f) {
                operation(f, a, operation(g, b, c))
            } else {
                operation(g, operation(f, a, b), c)
            };
            read_expr(ts, p) matches Ok(x) && x.1 == end && same_expr(x.0, e)
        }),
{
    let (wa, wb, wc) = (written(a), written(b), written(c));
    let r4 = wc + seq![Lexeme::Semi];
    let r3 = wb + (seq![sign_of(g)] + r4);
    lemma_says(ts, p, wa, seq![sign_of(f)] + r3);
    let q = p + wa.len();
    lemma_says_one(ts, q, sign_of(f), r3);
    lemma_says(ts, q + 1, wb, seq![sign_of(g)] + r4);
    let r = q + 1 + wb.len();
    lemma_says_one(ts, r, sign_of(g), r4);
    lemma_says(ts, r + 1, wc, seq![Lexeme::Semi]);
    let s = r + 1 + wc.len();
    lemma_says_last(ts, s, Lexeme::Semi);
    lemma_signs(f, UnOp::Neg);
    lemma_signs(g, UnOp::Neg);
    lemma_atom(ts, p, a);
    lemma_atom(ts, q + 1, b);
    lemma_atom(ts, r + 1, c);
    lemma_written_first(a);
    lemma_written_first(b);
    lemma_written_first(c);
    lemma_says_first(ts, p, wa);
    lemma_says_first(ts, q + 1, wb);
    lemma_says_first(ts, r + 1, wc);
    lemma_operand(ts, p, a, q);
    lemma_operand(ts, q + 1, b, r);
    lemma_operand(ts, r + 1, c, s);
    let bf = (binding(sign_of(f))->Some_0).1;
    let bg = (binding(sign_of(g))->Some_0).1;
    lemma_operands(ts, r + 1, c, s, bg + 1);
    if tightness(g) > tightness(f) {
        lemma_infix(ts, q + 1, b, r, g, bg, c, s, bf + 1, operation(g, b, c));
        lemma_infix(ts, p, a, q, f, bf, operation(g, b, c), s, 1, operation(f, a, operation(g, b, c)));
        lemma_no_question(ts, p, operation(f, a, operation(g, b, c)), s);
    } else {
        lemma_left(ts, p, a, q, f, bf, b, r, g, bg, c, s);
        lemma_no_question(ts, p, operation(g, operation(f, a, b), c), s);
    }
    reveal(expr_read);
}

/// Two operations from left to right.
proof fn lemma_left(
    ts: Input,
    p: int,
    a: ExprTree,
    q: int,
    f: BinOp,
    bf: int,
    b: ExprTree,
    r: int,
    g: BinOp,
    bg: int,
    c: ExprTree,
    s: int,
)
    requires
        0 <= p < q,
        q + 1 < r,
        r + 1 < s < ts.len(),
        unary_read(ts, p, a, q),
        unary_read(ts, q + 1, b, r),
        binary_read(ts, r + 1, bg + 1, c, s),
        binding(ts[q].0) == Some((f, bf)),
        binding(ts[r].0) == Some((g, bg)),
        1 <= bg <= bf,
        binding(ts[s].0) is None,
    ensures
        binary_read(ts, p, 1, operation(g, operation(f, a, b), c), s),
{
    reveal(unary_read);
    reveal(binary_read);
    assert(step(ts, q) == q + 1 && step(ts, r) == r + 1);
    let x = read_unary(ts, p)->Ok_0.0;
    let y = read_unary(ts, q + 1)->Ok_0.0;
    let z = read_binary(ts, r + 1, bg + 1)->Ok_0.0;
    let one = ExprTree::Binary { op: f, lhs: Box::new(x), rhs: Box::new(y), span: ts[q].1 };
    let two = ExprTree::Binary { op: g, lhs: Box::new(one), rhs: Box::new(z), span: ts[r].1 };
    assert(read_more(ts, y, r, bf + 1) == Ok::<(ExprTree, int), Seq<char>>((y, r)));
    assert(read_binary(ts, q + 1, bf + 1) == Ok::<(ExprTree, int), Seq<char>>((y, r)));
    assert(read_more(ts, two, s, 1) == Ok::<(ExprTree, int), Seq<char>>((two, s)));
    assert(read_more(ts, one, r, 1) == Ok::<(ExprTree, int), Seq<char>>((two, s)));
    assert(read_more(ts, x, q, 1) == Ok::<(ExprTree, int), Seq<char>>((two, s)));
    assert(same_expr(one, operation(f, a, b)));
    assert(same_expr(two, operation(g, operation(f, a, b), c)));
}

// --- statements --------------------------------------------------------------------------------------

/// A statement.
pub open spec fn written_stmt(s: StmtTree) -> Seq<Lexeme>
    decreases s,
{
    match s {
        StmtTree::Var { ty, name, init, .. } => seq![Lexeme::Var] + (written_ty(ty) + (seq![Lexeme::Ident(name)] + (
        seq![Lexeme::Assign] + (written(init) + seq![Lexeme::Semi])))),
        StmtTree::Assign { name, value, .. } => seq![Lexeme::Ident(name)] + (seq![Lexeme::Assign] + (written(value)
            + seq![Lexeme::Semi])),
        StmtTree::If { cond, then_b, else_b, .. } => seq![Lexeme::If] + (written_cond(cond) + ((seq![Lexeme::LBrace]
            + (written_stmts(then_b, 0) + seq![Lexeme::RBrace])) + match else_b {
            Some(b) => seq![Lexeme::Else] + (seq![Lexeme::LBrace] + (written_stmts(b, 0) + seq![Lexeme::RBrace])),
            None => Seq::empty(),
        })),
        StmtTree::While { cond, body, .. } => seq![Lexeme::While] + (written_cond(cond) + (seq![Lexeme::LBrace] + (
        written_stmts(body, 0) + seq![Lexeme::RBrace]))),
        StmtTree::Return { value, .. } => match value {
            Some(e) => seq![Lexeme::Return] + (written(e) + seq![Lexeme::Semi]),
            None => seq![Lexeme::Return] + seq![Lexeme::Semi],
        },
        StmtTree::Nested(b) => seq![Lexeme::LBrace] + (written_stmts(b, 0) + seq![Lexeme::RBrace]),
    }
}

pub open spec fn written_ty(ty: Option<Type>) -> Seq<Lexeme> {
    match ty {
        Some(t) => seq![Lexeme::UType(t.width)],
        None => Seq::empty(),
    }
}

pub open spec fn written_cond(e: ExprTree) -> Seq<Lexeme> {
    seq![Lexeme::LParen] + (written(e) + seq![Lexeme::RParen])
}

/// The statements from the `i`th on.
pub open spec fn written_stmts(b: Seq<StmtTree>, i: int) -> Seq<Lexeme>
    decreases b, b.len() - i,
{
    if i < 0 || i >= b.len() {
        Seq::empty()
    } else {
        written_stmt(b[i]) + written_stmts(b, i + 1)
    }
}

/// A block.
pub open spec fn written_block(b: Seq<StmtTree>) -> Seq<Lexeme> {
    seq![Lexeme::LBrace] + (written_stmts(b, 0) + seq![Lexeme::RBrace])
}

/// The same statement, wherever it stands in a source.
pub open spec fn same_stmt(a: StmtTree, b: StmtTree) -> bool
    decreases a,
{
    match (a, b) {
        (
            StmtTree::Var { ty: s, name: m, init: x, .. },
            StmtTree::Var { ty: t, name: n, init: y, .. },
        ) => s == t && m == n && same_expr(x, y),
        (StmtTree::Assign { name: m, value: x, .. }, StmtTree::Assign { name: n, value: y, .. }) => m == n
            && same_expr(x, y),
        (
            StmtTree::If { cond: c, then_b: x, else_b: u, .. },
            StmtTree::If { cond: d, then_b: y, else_b: v, .. },
        ) => same_expr(c, d) && x.len() == y.len() && (forall|i: int|
            0 <= i < x.len() ==> same_stmt(#[trigger] x[i], y[i])) && match (u, v) {
            (Some(s), Some(t)) => s.len() == t.len() && forall|i: int|
                0 <= i < s.len() ==> same_stmt(#[trigger] s[i], t[i]),
            (None, None) => true,
            _ => false,
        },
        (StmtTree::While { cond: c, body: x, .. }, StmtTree::While { cond: d, body: y, .. }) => same_expr(c, d)
            && x.len() == y.len() && forall|i: int| 0 <= i < x.len() ==> same_stmt(#[trigger] x[i], y[i]),
        (StmtTree::Return { value: x, .. }, StmtTree::Return { value: y, .. }) => match (x, y) {
            (Some(s), Some(t)) => same_expr(s, t),
            (None, None) => true,
            _ => false,
        },
        (StmtTree::Nested(x), StmtTree::Nested(y)) => x.len() == y.len() && forall|i: int|
            0 <= i < x.len() ==> same_stmt(#[trigger] x[i], y[i]),
        _ => false,
    }
}

/// The same statements.
pub open spec fn same_block(x: Seq<StmtTree>, y: Seq<StmtTree>) -> bool {
    x.len() == y.len() && forall|i: int| 0 <= i < x.len() ==> same_stmt(#[trigger] x[i], y[i])
}

/// Every width can be written.
pub open spec fn stmt_fine(s: StmtTree) -> bool
    decreases s,
{
    match s {
        StmtTree::Var { ty, init, .. } => expr_fine(init) && (ty matches Some(t) ==> width_fine(t.width)),
        StmtTree::Assign { value, .. } => expr_fine(value),
        StmtTree::If { cond, then_b, else_b, .. } => expr_fine(cond) && (forall|i: int|
            0 <= i < then_b.len() ==> stmt_fine(#[trigger] then_b[i])) && match else_b {
            Some(b) => forall|i: int| 0 <= i < b.len() ==> stmt_fine(#[trigger] b[i]),
            None => true,
        },
        StmtTree::While { cond, body, .. } => expr_fine(cond) && forall|i: int|
            0 <= i < body.len() ==> stmt_fine(#[trigger] body[i]),
        StmtTree::Return { value, .. } => value matches Some(e) ==> expr_fine(e),
        StmtTree::Nested(b) => forall|i: int| 0 <= i < b.len() ==> stmt_fine(#[trigger] b[i]),
    }
}

pub open spec fn block_fine(b: Seq<StmtTree>) -> bool {
    forall|i: int| 0 <= i < b.len() ==> stmt_fine(#[trigger] b[i])
}

#[verifier::opaque]
spec fn semi_read(ts: Input, p: int, e: ExprTree, q: int) -> bool {
    is_read(read_expr_semi(ts, p), e, q)
}

#[verifier::opaque]
spec fn cond_read(ts: Input, p: int, e: ExprTree, q: int) -> bool {
    is_read(read_cond(ts, p), e, q)
}

#[verifier::opaque]
spec fn stmt_read(ts: Input, p: int, s: StmtTree, q: int) -> bool {
    read_stmt(ts, p) matches Ok(x) && x.1 == q && same_stmt(x.0, s)
}

#[verifier::opaque]
spec fn block_read(ts: Input, p: int, b: Seq<StmtTree>, q: int) -> bool {
    read_block(ts, p) matches Ok(x) && x.1 == q && same_block(x.0, b)
}

/// The statements from the `i`th on are read, behind those in `before`.
#[verifier::opaque]
spec fn stmts_read(ts: Input, p: int, before: Seq<StmtTree>, b: Seq<StmtTree>, i: int, q: int) -> bool {
    read_stmts(ts, p, before) matches Ok(x) && x.1 == q && x.0.len() == before.len() + b.len() - i && (forall|
        k: int,
    |
        0 <= k < before.len() ==> x.0[k] == before[k]) && (forall|k: int|
        i <= k < b.len() ==> same_stmt(x.0[before.len() + k - i], #[trigger] b[k]))
}

proof fn lemma_semi(ts: Input, p: int, e: ExprTree)
    requires
        expr_fine(e),
        says(ts, p, written(e) + seq![Lexeme::Semi]),
    ensures
        semi_read(ts, p, e, p + written(e).len() + 1),
        0 <= p,
        p + written(e).len() + 1 < ts.len(),
        ts[p].0 == written(e)[0],
{
    let q = p + written(e).len();
    lemma_says(ts, p, written(e), seq![Lexeme::Semi]);
    lemma_says_last(ts, q, Lexeme::Semi);
    lemma_atom(ts, p, e);
    lemma_alone(ts, p, e);
    lemma_written_first(e);
    lemma_says_first(ts, p, written(e));
    lemma_semi_step(ts, p, e, q);
}

proof fn lemma_semi_step(ts: Input, p: int, e: ExprTree, q: int)
    requires
        expr_read(ts, p, e, q),
        ts[q].0 == Lexeme::Semi,
        step(ts, q) == q + 1,
    ensures
        semi_read(ts, p, e, q + 1),
{
    reveal(expr_read);
    reveal(semi_read);
    reveal(read_expr_semi);
}

proof fn lemma_cond(ts: Input, p: int, e: ExprTree)
    requires
        expr_fine(e),
        says(ts, p, written_cond(e)),
    ensures
        cond_read(ts, p, e, p + written_cond(e).len()),
{
    let w = written(e);
    lemma_says_one(ts, p, Lexeme::LParen, w + seq![Lexeme::RParen]);
    lemma_says(ts, p + 1, w, seq![Lexeme::RParen]);
    let q = p + 1 + w.len();
    lemma_says_last(ts, q, Lexeme::RParen);
    lemma_atom(ts, p + 1, e);
    lemma_alone(ts, p + 1, e);
    lemma_cond_step(ts, p, e, q);
}

proof fn lemma_cond_step(ts: Input, p: int, e: ExprTree, q: int)
    requires
        ts[p].0 == Lexeme::LParen,
        step(ts, p) == p + 1,
        expr_read(ts, p + 1, e, q),
        ts[q].0 == Lexeme::RParen,
        step(ts, q) == q + 1,
    ensures
        cond_read(ts, p, e, q + 1),
{
    reveal(expr_read);
    reveal(cond_read);
    reveal(read_cond);
}

/// A statement begins with no closing brace.
proof fn lemma_stmt_first(s: StmtTree)
    ensures
        written_stmt(s).len() > 0,
        written_stmt(s)[0] != Lexeme::RBrace,
        written_stmt(s)[0] != Lexeme::Eof,
        written_stmt(s)[0] != Lexeme::Else,
{
}

/// A block is read as it was.
proof fn lemma_block(ts: Input, p: int, b: Seq<StmtTree>)
    requires
        block_fine(b),
        says(ts, p, written_block(b)),
    ensures
        block_read(ts, p, b, p + written_block(b).len()),
        ts[p].0 == Lexeme::LBrace,
    decreases b, b.len() + 1,
{
    let inner = written_stmts(b, 0) + seq![Lexeme::RBrace];
    lemma_says_one(ts, p, Lexeme::LBrace, inner);
    lemma_stmts(ts, p + 1, b, 0, seq![]);
    lemma_block_step(ts, p, b, p + written_block(b).len());
}

proof fn lemma_block_step(ts: Input, p: int, b: Seq<StmtTree>, q: int)
    requires
        0 <= p,
        p + 1 < ts.len(),
        ts[p].0 == Lexeme::LBrace,
        stmts_read(ts, p + 1, seq![], b, 0, q),
    ensures
        block_read(ts, p, b, q),
{
    reveal(stmts_read);
    reveal(block_read);
    assert(step(ts, p) == p + 1);
    let x = read_stmts(ts, p + 1, seq![])->Ok_0;
    assert forall|k: int| 0 <= k < b.len() implies same_stmt(#[trigger] x.0[k], b[k]) by {
        assert(same_stmt(x.0[0 + k - 0], b[k]));
    }
}

/// The statements from the `i`th on are read as they were.
proof fn lemma_stmts(ts: Input, p: int, b: Seq<StmtTree>, i: int, before: Seq<StmtTree>)
    requires
        0 <= i <= b.len(),
        block_fine(b),
        says(ts, p, written_stmts(b, i) + seq![Lexeme::RBrace]),
    ensures
        stmts_read(ts, p, before, b, i, p + written_stmts(b, i).len() + 1),
    decreases b, b.len() - i,
{
    let close = seq![Lexeme::RBrace];
    let end = p + written_stmts(b, i).len() + 1;
    if i == b.len() {
        assert(written_stmts(b, i) + close =~= close);
        lemma_says_last(ts, p, Lexeme::RBrace);
        reveal(stmts_read);
    } else {
        let w = written_stmt(b[i]);
        let rest = written_stmts(b, i + 1);
        assert(written_stmts(b, i) + close =~= w + (rest + close));
        lemma_says(ts, p, w, rest + close);
        let q = p + w.len();
        lemma_stmt_first(b[i]);
        lemma_says_first(ts, p, w);
        lemma_says_first(ts, q, rest + close);
        if i + 1 < b.len() {
            lemma_stmt_first(b[i + 1]);
            assert((rest + close)[0] == written_stmt(b[i + 1])[0]);
        } else {
            assert((rest + close)[0] == Lexeme::RBrace);
        }
        lemma_stmt(ts, p, b[i]);
        assert forall|s: StmtTree| #[trigger] stmts_read(ts, q, before.push(s), b, i + 1, end) by {
            lemma_stmts(ts, q, b, i + 1, before.push(s));
        }
        lemma_stmts_step(ts, p, before, b, i, q, end);
    }
}

proof fn lemma_stmts_step(ts: Input, p: int, before: Seq<StmtTree>, b: Seq<StmtTree>, i: int, q: int, r: int)
    requires
        0 <= i < b.len(),
        0 <= p < q < ts.len(),
        ts[p].0 != Lexeme::RBrace,
        ts[p].0 != Lexeme::Eof,
        stmt_read(ts, p, b[i], q),
        forall|s: StmtTree| #[trigger] stmts_read(ts, q, before.push(s), b, i + 1, r),
    ensures
        stmts_read(ts, p, before, b, i, r),
{
    reveal(stmt_read);
    reveal(stmts_read);
    let s = read_stmt(ts, p)->Ok_0.0;
    assert(stmts_read(ts, q, before.push(s), b, i + 1, r));
    let x = read_stmts(ts, q, before.push(s))->Ok_0;
    assert(x.0[before.len() as int] == before.push(s)[before.len() as int]);
    assert forall|k: int| 0 <= k < before.len() implies x.0[k] == before[k] by {
        assert(x.0[k] == before.push(s)[k]);
    }
    assert forall|k: int| i <= k < b.len() implies same_stmt(x.0[before.len() + k - i], #[trigger] b[k]) by {
        if k > i {
            assert(same_stmt(x.0[before.push(s).len() + k - (i + 1)], b[k]));
        }
    }
}

/// A statement is read as it was.
proof fn lemma_stmt(ts: Input, p: int, s: StmtTree)
    requires
        stmt_fine(s),
        says(ts, p, written_stmt(s)),
        ts[p + written_stmt(s).len()].0 != Lexeme::Else,
    ensures
        stmt_read(ts, p, s, p + written_stmt(s).len()),
    decreases s, 0int,
{
    let end = p + written_stmt(s).len();
    match s {
        StmtTree::Var { ty, name, init, .. } => {
            let tail = seq![Lexeme::Ident(name)] + (seq![Lexeme::Assign] + (written(init) + seq![Lexeme::Semi]));
            lemma_says_one(ts, p, Lexeme::Var, written_ty(ty) + tail);
            lemma_says(ts, p + 1, written_ty(ty), tail);
            let q = p + 1 + written_ty(ty).len();
            lemma_says_one(ts, q, Lexeme::Ident(name), seq![Lexeme::Assign] + (written(init) + seq![Lexeme::Semi]));
            lemma_says_one(ts, q + 1, Lexeme::Assign, written(init) + seq![Lexeme::Semi]);
            lemma_semi(ts, q + 2, init);
            if let Some(t) = ty {
                lemma_says_last(ts, p + 1, Lexeme::UType(t.width));
            }
            lemma_var_step(ts, p, ty, name, init, q, end, s);
        },
        StmtTree::Assign { name, value, .. } => {
            lemma_says_one(ts, p, Lexeme::Ident(name), seq![Lexeme::Assign] + (written(value) + seq![Lexeme::Semi]));
            lemma_says_one(ts, p + 1, Lexeme::Assign, written(value) + seq![Lexeme::Semi]);
            lemma_semi(ts, p + 2, value);
            lemma_assign_step(ts, p, name, value, end, s);
        },
        StmtTree::If { cond, then_b, else_b, .. } => {
            let c = written_cond(cond);
            let b = written_block(then_b);
            let tail: Seq<Lexeme> = match else_b {
                Some(x) => seq![Lexeme::Else] + written_block(x),
                None => Seq::empty(),
            };
            lemma_says_one(ts, p, Lexeme::If, c + (b + tail));
            lemma_says(ts, p + 1, c, b + tail);
            let q = p + 1 + c.len();
            lemma_says(ts, q, b, tail);
            let r = q + b.len();
            lemma_cond(ts, p + 1, cond);
            lemma_block(ts, q, then_b);
            match else_b {
                Some(x) => {
                    lemma_says_one(ts, r, Lexeme::Else, written_block(x));
                    lemma_block(ts, r + 1, x);
                    lemma_else_step(ts, p, cond, q, then_b, r, x, end, s);
                },
                None => {
                    lemma_if_step(ts, p, cond, q, then_b, end, s);
                },
            }
        },
        StmtTree::While { cond, body, .. } => {
            let c = written_cond(cond);
            let b = written_block(body);
            lemma_says_one(ts, p, Lexeme::While, c + b);
            lemma_says(ts, p + 1, c, b);
            let q = p + 1 + c.len();
            lemma_cond(ts, p + 1, cond);
            lemma_block(ts, q, body);
            lemma_while_step(ts, p, cond, q, body, end, s);
        },
        StmtTree::Return { value, .. } => {
            match value {
                Some(e) => {
                    lemma_says_one(ts, p, Lexeme::Return, written(e) + seq![Lexeme::Semi]);
                    lemma_semi(ts, p + 1, e);
                    lemma_written_first(e);
                },
                None => {
                    lemma_says_one(ts, p, Lexeme::Return, seq![Lexeme::Semi]);
                    lemma_says_last(ts, p + 1, Lexeme::Semi);
                },
            }
            lemma_return_step(ts, p, value, end, s);
        },
        StmtTree::Nested(b) => {
            lemma_block(ts, p, b);
            reveal(stmt_read);
            reveal(block_read);
        },
    }
}

proof fn lemma_var_step(
    ts: Input,
    p: int,
    ty: Option<Type>,
    name: Seq<char>,
    init: ExprTree,
    q: int,
    end: int,
    s: StmtTree,
)
    requires
        0 <= p,
        q + 2 < ts.len(),
        ts[p].0 == Lexeme::Var,
        q == p + 1 + written_ty(ty).len(),
        ty matches Some(t) ==> ts[p + 1].0 == Lexeme::UType(t.width) && width_fine(t.width),
        ts[q].0 == Lexeme::Ident(name),
        ts[q + 1].0 == Lexeme::Assign,
        semi_read(ts, q + 2, init, end),
        s matches StmtTree::Var { ty: u, name: n, init: x, .. } && u == ty && n == name && x == init,
    ensures
        stmt_read(ts, p, s, end),
{
    reveal(semi_read);
    reveal(stmt_read);
    reveal(read_var);
    assert(step(ts, p) == p + 1 && step(ts, p + 1) == p + 2 && step(ts, q) == q + 1 && step(ts, q + 1) == q + 2);
}

proof fn lemma_assign_step(ts: Input, p: int, name: Seq<char>, value: ExprTree, end: int, s: StmtTree)
    requires
        0 <= p,
        p + 2 < ts.len(),
        ts[p].0 == Lexeme::Ident(name),
        ts[p + 1].0 == Lexeme::Assign,
        semi_read(ts, p + 2, value, end),
        s matches StmtTree::Assign { name: n, value: x, .. } && n == name && x == value,
    ensures
        stmt_read(ts, p, s, end),
{
    reveal(semi_read);
    reveal(stmt_read);
    assert(step(ts, p) == p + 1 && step(ts, p + 1) == p + 2);
}

proof fn lemma_if_step(ts: Input, p: int, cond: ExprTree, q: int, then_b: Seq<StmtTree>, end: int, s: StmtTree)
    requires
        0 <= p,
        p + 1 < q < ts.len(),
        ts[p].0 == Lexeme::If,
        cond_read(ts, p + 1, cond, q),
        block_read(ts, q, then_b, end),
        ts[end].0 != Lexeme::Else,
        s matches StmtTree::If { cond: c, then_b: x, else_b: None, .. } && c == cond && x == then_b,
    ensures
        stmt_read(ts, p, s, end),
{
    reveal(cond_read);
    reveal(block_read);
    reveal(stmt_read);
    assert(step(ts, p) == p + 1);
}

proof fn lemma_else_step(
    ts: Input,
    p: int,
    cond: ExprTree,
    q: int,
    then_b: Seq<StmtTree>,
    r: int,
    else_b: Seq<StmtTree>,
    end: int,
    s: StmtTree,
)
    requires
        0 <= p,
        p + 1 < q < r,
        r + 1 < ts.len(),
        ts[p].0 == Lexeme::If,
        cond_read(ts, p + 1, cond, q),
        block_read(ts, q, then_b, r),
        ts[r].0 == Lexeme::Else,
        ts[r + 1].0 == Lexeme::LBrace,
        block_read(ts, r + 1, else_b, end),
        s matches StmtTree::If { cond: c, then_b: x, else_b: Some(y), .. } && c == cond && x == then_b && y == else_b,
    ensures
        stmt_read(ts, p, s, end),
{
    reveal(cond_read);
    reveal(block_read);
    reveal(stmt_read);
    assert(step(ts, p) == p + 1 && step(ts, r) == r + 1);
}

proof fn lemma_while_step(ts: Input, p: int, cond: ExprTree, q: int, body: Seq<StmtTree>, end: int, s: StmtTree)
    requires
        0 <= p,
        p + 1 < q < ts.len(),
        ts[p].0 == Lexeme::While,
        cond_read(ts, p + 1, cond, q),
        block_read(ts, q, body, end),
        s matches StmtTree::While { cond: c, body: x, .. } && c == cond && x == body,
    ensures
        stmt_read(ts, p, s, end),
{
    reveal(cond_read);
    reveal(block_read);
    reveal(stmt_read);
    assert(step(ts, p) == p + 1);
}

proof fn lemma_return_step(ts: Input, p: int, value: Option<ExprTree>, end: int, s: StmtTree)
    requires
        0 <= p,
        p + 2 < ts.len(),
        ts[p].0 == Lexeme::Return,
        match value {
            Some(e) => ts[p + 1].0 != Lexeme::Semi && semi_read(ts, p + 1, e, end),
            None => ts[p + 1].0 == Lexeme::Semi && end == p + 2,
        },
        s matches StmtTree::Return { value: x, .. } && x == value,
    ensures
        stmt_read(ts, p, s, end),
{
    reveal(semi_read);
    reveal(stmt_read);
    assert(step(ts, p) == p + 1 && step(ts, p + 1) == p + 2);
}

// --- programs ------------------------------------------------------------------------------------------

/// A port.
pub open spec fn written_port(port: PortTree) -> Seq<Lexeme> {
    seq![
        match port.dir {
            PortDir::In => Lexeme::Input,
            PortDir::Out => Lexeme::Output,
        },
        Lexeme::UType(port.ty.width),
        Lexeme::Ident(port.name),
        Lexeme::Semi,
    ]
}

/// The parameters from the `i`th on, with commas between them.
pub open spec fn written_params(ps: Seq<ParamTree>, i: int) -> Seq<Lexeme>
    decreases ps.len() - i,
{
    if i < 0 || i >= ps.len() {
        Seq::empty()
    } else {
        seq![Lexeme::UType(ps[i].ty.width), Lexeme::Ident(ps[i].name)] + if i == ps.len() - 1 {
            Seq::empty()
        } else {
            seq![Lexeme::Comma] + written_params(ps, i + 1)
        }
    }
}

/// A function: `fn` and a return type, or `proc` and none.
pub open spec fn written_func(f: FuncTree) -> Seq<Lexeme> {
    seq![
        match f.ret {
            Some(_) => Lexeme::Fn,
            None => Lexeme::Proc,
        },
        Lexeme::Ident(f.name),
        Lexeme::LParen,
    ] + (written_params(f.params, 0) + (seq![Lexeme::RParen] + (match f.ret {
        Some(t) => seq![Lexeme::Arrow, Lexeme::UType(t.width)],
        None => Seq::empty(),
    } + written_block(f.body))))
}

/// The ports from the `i`th on.
pub open spec fn written_ports(ports: Seq<PortTree>, i: int) -> Seq<Lexeme>
    decreases ports.len() - i,
{
    if i < 0 || i >= ports.len() {
        Seq::empty()
    } else {
        written_port(ports[i]) + written_ports(ports, i + 1)
    }
}

/// The functions from the `i`th on.
pub open spec fn written_funcs(funcs: Seq<FuncTree>, i: int) -> Seq<Lexeme>
    decreases funcs.len() - i,
{
    if i < 0 || i >= funcs.len() {
        Seq::empty()
    } else {
        written_func(funcs[i]) + written_funcs(funcs, i + 1)
    }
}

/// A program: its ports, then its functions.
pub open spec fn written_program(prog: ProgramTree) -> Seq<Lexeme> {
    written_ports(prog.ports, 0) + written_funcs(prog.funcs, 0)
}

pub open spec fn same_port(a: PortTree, b: PortTree) -> bool {
    a.dir == b.dir && a.ty == b.ty && a.name == b.name
}

pub open spec fn same_param(a: ParamTree, b: ParamTree) -> bool {
    a.ty == b.ty && a.name == b.name
}

/// The same function, wherever it stands in a source.
pub open spec fn same_func(a: FuncTree, b: FuncTree) -> bool {
    &&& a.name == b.name
    &&& a.params.len() == b.params.len()
    &&& forall|i: int| 0 <= i < a.params.len() ==> same_param(#[trigger] a.params[i], b.params[i])
    &&& a.ret == b.ret
    &&& same_block(a.body, b.body)
}

/// The same program, wherever its parts stand in a source.
pub open spec fn same_program(a: ProgramTree, b: ProgramTree) -> bool {
    &&& a.ports.len() == b.ports.len()
    &&& forall|i: int| 0 <= i < a.ports.len() ==> same_port(#[trigger] a.ports[i], b.ports[i])
    &&& a.funcs.len() == b.funcs.len()
    &&& forall|i: int| 0 <= i < a.funcs.len() ==> same_func(#[trigger] a.funcs[i], b.funcs[i])
}

pub open spec fn func_fine(f: FuncTree) -> bool {
    &&& forall|i: int| 0 <= i < f.params.len() ==> width_fine((#[trigger] f.params[i]).ty.width)
    &&& f.ret matches Some(t) ==> width_fine(t.width)
    &&& block_fine(f.body)
}

/// Every width can be written.
pub open spec fn program_fine(prog: ProgramTree) -> bool {
    &&& forall|i: int| 0 <= i < prog.ports.len() ==> width_fine((#[trigger] prog.ports[i]).ty.width)
    &&& forall|i: int| 0 <= i < prog.funcs.len() ==> func_fine(#[trigger] prog.funcs[i])
}

#[verifier::opaque]
spec fn params_read(ts: Input, p: int, before: Seq<ParamTree>, ps: Seq<ParamTree>, i: int, q: int) -> bool {
    read_params(ts, p, before) matches Ok(x) && x.1 == q && x.0.len() == before.len() + ps.len() - i && (forall|
        k: int,
    |
        0 <= k < before.len() ==> x.0[k] == before[k]) && (forall|k: int|
        i <= k < ps.len() ==> same_param(x.0[before.len() + k - i], #[trigger] ps[k]))
}

proof fn lemma_params(ts: Input, p: int, ps: Seq<ParamTree>, i: int, before: Seq<ParamTree>)
    requires
        0 <= i < ps.len(),
        forall|k: int| 0 <= k < ps.len() ==> width_fine((#[trigger] ps[k]).ty.width),
        says(ts, p, written_params(ps, i)),
        ts[p + written_params(ps, i).len()].0 == Lexeme::RParen,
    ensures
        params_read(ts, p, before, ps, i, p + written_params(ps, i).len()),
        ts[p].0 == Lexeme::UType(ps[i].ty.width),
    decreases ps.len() - i,
{
    let t = Lexeme::UType(ps[i].ty.width);
    let n = Lexeme::Ident(ps[i].name);
    let end = p + written_params(ps, i).len();
    assert(width_fine(ps[i].ty.width));
    if i == ps.len() - 1 {
        assert(written_params(ps, i) =~= seq![t] + seq![n]);
        lemma_says_one(ts, p, t, seq![n]);
        lemma_says_last(ts, p + 1, n);
        reveal(params_read);
    } else {
        let rest = written_params(ps, i + 1);
        assert(written_params(ps, i) =~= seq![t] + (seq![n] + (seq![Lexeme::Comma] + rest)));
        lemma_says_one(ts, p, t, seq![n] + (seq![Lexeme::Comma] + rest));
        lemma_says_one(ts, p + 1, n, seq![Lexeme::Comma] + rest);
        lemma_says_one(ts, p + 2, Lexeme::Comma, rest);
        assert forall|x: ParamTree| #[trigger] params_read(ts, p + 3, before.push(x), ps, i + 1, end) by {
            lemma_params(ts, p + 3, ps, i + 1, before.push(x));
        }
        lemma_params_step(ts, p, before, ps, i, end);
    }
}

proof fn lemma_params_step(ts: Input, p: int, before: Seq<ParamTree>, ps: Seq<ParamTree>, i: int, r: int)
    requires
        0 <= i < ps.len() - 1,
        0 <= p,
        p + 3 < ts.len(),
        ts[p].0 == Lexeme::UType(ps[i].ty.width),
        width_fine(ps[i].ty.width),
        ts[p + 1].0 == Lexeme::Ident(ps[i].name),
        ts[p + 2].0 == Lexeme::Comma,
        forall|x: ParamTree| #[trigger] params_read(ts, p + 3, before.push(x), ps, i + 1, r),
    ensures
        params_read(ts, p, before, ps, i, r),
{
    reveal(params_read);
    assert(step(ts, p) == p + 1 && step(ts, p + 1) == p + 2 && step(ts, p + 2) == p + 3);
    let e = ParamTree { ty: ps[i].ty, name: ps[i].name, span: ts[p].1 };
    assert(params_read(ts, p + 3, before.push(e), ps, i + 1, r));
    let x = read_params(ts, p + 3, before.push(e))->Ok_0;
    assert(x.0[before.len() as int] == before.push(e)[before.len() as int]);
    assert forall|k: int| 0 <= k < before.len() implies x.0[k] == before[k] by {
        assert(x.0[k] == before.push(e)[k]);
    }
    assert forall|k: int| i <= k < ps.len() implies same_param(x.0[before.len() + k - i], #[trigger] ps[k]) by {
        if k > i {
            assert(same_param(x.0[before.push(e).len() + k - (i + 1)], ps[k]));
        }
    }
}

#[verifier::opaque]
spec fn func_read(ts: Input, p: int, f: FuncTree, q: int) -> bool {
    read_func(ts, p, f.ret is None) matches Ok(x) && x.1 == q && same_func(x.0, f)
}

/// A function is read as it was, from behind `fn` or `proc`.
proof fn lemma_func(ts: Input, p: int, f: FuncTree)
    requires
        func_fine(f),
        says(ts, p, written_func(f)),
    ensures
        ts[p].0 == match f.ret {
            Some(_) => Lexeme::Fn,
            None => Lexeme::Proc,
        },
        0 <= p && p + written_func(f).len() < ts.len(),
        func_read(ts, p + 1, f, p + written_func(f).len()),
{
    let head = match f.ret {
        Some(_) => Lexeme::Fn,
        None => Lexeme::Proc,
    };
    let ret: Seq<Lexeme> = match f.ret {
        Some(t) => seq![Lexeme::Arrow, Lexeme::UType(t.width)],
        None => Seq::empty(),
    };
    let ps = written_params(f.params, 0);
    let r3 = ret + written_block(f.body);
    let r2 = ps + (seq![Lexeme::RParen] + r3);
    let r1 = seq![Lexeme::LParen] + r2;
    assert(written_func(f) =~= seq![head] + (seq![Lexeme::Ident(f.name)] + r1));
    lemma_says_one(ts, p, head, seq![Lexeme::Ident(f.name)] + r1);
    lemma_says_one(ts, p + 1, Lexeme::Ident(f.name), r1);
    lemma_says_one(ts, p + 2, Lexeme::LParen, r2);
    lemma_says(ts, p + 3, ps, seq![Lexeme::RParen] + r3);
    let q = p + 3 + ps.len();
    lemma_says_one(ts, q, Lexeme::RParen, r3);
    lemma_says(ts, q + 1, ret, written_block(f.body));
    let r = q + 1 + ret.len();
    if let Some(t) = f.ret {
        assert(ret =~= seq![Lexeme::Arrow] + seq![Lexeme::UType(t.width)]);
        lemma_says_one(ts, q + 1, Lexeme::Arrow, seq![Lexeme::UType(t.width)]);
        lemma_says_last(ts, q + 2, Lexeme::UType(t.width));
    }
    lemma_block(ts, r, f.body);
    if f.params.len() > 0 {
        lemma_params(ts, p + 3, f.params, 0, seq![]);
    }
    lemma_func_step(ts, p + 1, f, q, r, p + written_func(f).len());
}

proof fn lemma_func_step(ts: Input, p: int, f: FuncTree, q: int, r: int, end: int)
    requires
        0 <= p,
        p + 2 <= q < r < ts.len(),
        ts[p].0 == Lexeme::Ident(f.name),
        ts[p + 1].0 == Lexeme::LParen,
        f.params.len() == 0 ==> q == p + 2,
        f.params.len() > 0 ==> ts[p + 2].0 is UType && params_read(ts, p + 2, seq![], f.params, 0, q),
        ts[q].0 == Lexeme::RParen,
        match f.ret {
            Some(t) => ts[q + 1].0 == Lexeme::Arrow && ts[q + 2].0 == Lexeme::UType(t.width) && width_fine(
                t.width,
            ) && r == q + 3,
            None => r == q + 1,
        },
        ts[r].0 == Lexeme::LBrace,
        block_read(ts, r, f.body, end),
    ensures
        func_read(ts, p, f, end),
{
    reveal(params_read);
    reveal(block_read);
    reveal(func_read);
    reveal(read_func);
    assert(step(ts, p) == p + 1 && step(ts, p + 1) == p + 2 && step(ts, q) == q + 1);
    if f.params.len() > 0 {
        let x = read_params(ts, p + 2, seq![])->Ok_0;
        assert forall|k: int| 0 <= k < f.params.len() implies same_param(#[trigger] x.0[k], f.params[k]) by {
            assert(same_param(x.0[0 + k - 0], f.params[k]));
        }
    }
}

/// The program, read behind `before`, continues it with the ports from the `i`th on and the
/// functions from the `j`th on.
#[verifier::opaque]
spec fn items_read(ts: Input, p: int, before: ProgramTree, prog: ProgramTree, i: int, j: int) -> bool {
    read_items(ts, p, before) matches Ok(x) && x.0.ports.len() == before.ports.len() + prog.ports.len() - i
        && x.0.funcs.len() == before.funcs.len() + prog.funcs.len() - j && (forall|k: int|
        0 <= k < before.ports.len() ==> x.0.ports[k] == before.ports[k]) && (forall|k: int|
        0 <= k < before.funcs.len() ==> x.0.funcs[k] == before.funcs[k]) && (forall|k: int|
        i <= k < prog.ports.len() ==> same_port(x.0.ports[before.ports.len() + k - i], #[trigger] prog.ports[k]))
        && (forall|k: int|
        j <= k < prog.funcs.len() ==> same_func(x.0.funcs[before.funcs.len() + k - j], #[trigger] prog.funcs[k]))
}

proof fn lemma_funcs(ts: Input, p: int, before: ProgramTree, prog: ProgramTree, j: int)
    requires
        program_fine(prog),
        0 <= j <= prog.funcs.len(),
        says(ts, p, written_funcs(prog.funcs, j)),
        ts[p + written_funcs(prog.funcs, j).len()].0 == Lexeme::Eof,
    ensures
        items_read(ts, p, before, prog, prog.ports.len() as int, j),
    decreases prog.funcs.len() - j,
{
    if j == prog.funcs.len() {
        reveal(items_read);
    } else {
        let f = prog.funcs[j];
        let rest = written_funcs(prog.funcs, j + 1);
        lemma_says(ts, p, written_func(f), rest);
        let q = p + written_func(f).len();
        assert(func_fine(prog.funcs[j]));
        lemma_func(ts, p, f);
        let i = prog.ports.len() as int;
        assert forall|x: FuncTree| #[trigger]
            items_read(ts, q, ProgramTree { ports: before.ports, funcs: before.funcs.push(x) }, prog, i, j + 1) by {
            lemma_funcs(ts, q, ProgramTree { ports: before.ports, funcs: before.funcs.push(x) }, prog, j + 1);
        }
        lemma_func_item(ts, p, before, prog, j, q);
    }
}

proof fn lemma_func_item(ts: Input, p: int, before: ProgramTree, prog: ProgramTree, j: int, q: int)
    requires
        0 <= j < prog.funcs.len(),
        0 <= p,
        p < q < ts.len(),
        ts[p].0 == match prog.funcs[j].ret {
            Some(_) => Lexeme::Fn,
            None => Lexeme::Proc,
        },
        func_read(ts, p + 1, prog.funcs[j], q),
        forall|x: FuncTree| #[trigger]
            items_read(
                ts,
                q,
                ProgramTree { ports: before.ports, funcs: before.funcs.push(x) },
                prog,
                prog.ports.len() as int,
                j + 1,
            ),
    ensures
        items_read(ts, p, before, prog, prog.ports.len() as int, j),
{
    reveal(func_read);
    reveal(items_read);
    assert(step(ts, p) == p + 1);
    let i = prog.ports.len() as int;
    let f = read_func(ts, p + 1, prog.funcs[j].ret is None)->Ok_0.0;
    let next = ProgramTree { ports: before.ports, funcs: before.funcs.push(f) };
    assert(items_read(ts, q, next, prog, i, j + 1));
    let x = read_items(ts, q, next)->Ok_0.0;
    assert(read_items(ts, p, before) == read_items(ts, q, next));
    assert(x.funcs[before.funcs.len() as int] == next.funcs[before.funcs.len() as int]);
    assert forall|k: int| 0 <= k < before.funcs.len() implies x.funcs[k] == before.funcs[k] by {
        assert(x.funcs[k] == next.funcs[k]);
    }
    assert forall|k: int| j <= k < prog.funcs.len() implies same_func(
        x.funcs[before.funcs.len() + k - j],
        #[trigger] prog.funcs[k],
    ) by {
        if k > j {
            assert(same_func(x.funcs[next.funcs.len() + k - (j + 1)], prog.funcs[k]));
        }
    }
}

proof fn lemma_items(ts: Input, p: int, before: ProgramTree, prog: ProgramTree, i: int)
    requires
        program_fine(prog),
        0 <= i <= prog.ports.len(),
        says(ts, p, written_ports(prog.ports, i) + written_funcs(prog.funcs, 0)),
        ts[p + written_ports(prog.ports, i).len() + written_funcs(prog.funcs, 0).len()].0 == Lexeme::Eof,
    ensures
        items_read(ts, p, before, prog, i, 0),
    decreases prog.ports.len() - i,
{
    let fs = written_funcs(prog.funcs, 0);
    if i == prog.ports.len() {
        assert(written_ports(prog.ports, i) + fs =~= fs);
        lemma_funcs(ts, p, before, prog, 0);
    } else {
        let port = prog.ports[i];
        let rest = written_ports(prog.ports, i + 1);
        let head = match port.dir {
            PortDir::In => Lexeme::Input,
            PortDir::Out => Lexeme::Output,
        };
        let (t, n) = (Lexeme::UType(port.ty.width), Lexeme::Ident(port.name));
        assert(written_ports(prog.ports, i) + fs =~= seq![head] + (seq![t] + (seq![n] + (seq![Lexeme::Semi] + (rest
            + fs)))));
        lemma_says_one(ts, p, head, seq![t] + (seq![n] + (seq![Lexeme::Semi] + (rest + fs))));
        lemma_says_one(ts, p + 1, t, seq![n] + (seq![Lexeme::Semi] + (rest + fs)));
        lemma_says_one(ts, p + 2, n, seq![Lexeme::Semi] + (rest + fs));
        lemma_says_one(ts, p + 3, Lexeme::Semi, rest + fs);
        assert(width_fine(prog.ports[i].ty.width));
        assert forall|x: PortTree| #[trigger]
            items_read(ts, p + 4, ProgramTree { ports: before.ports.push(x), funcs: before.funcs }, prog, i + 1, 0) by {
            lemma_items(ts, p + 4, ProgramTree { ports: before.ports.push(x), funcs: before.funcs }, prog, i + 1);
        }
        lemma_port_item(ts, p, before, prog, i);
    }
}

proof fn lemma_port_item(ts: Input, p: int, before: ProgramTree, prog: ProgramTree, i: int)
    requires
        0 <= i < prog.ports.len(),
        0 <= p,
        p + 4 < ts.len(),
        ts[p].0 == match prog.ports[i].dir {
            PortDir::In => Lexeme::Input,
            PortDir::Out => Lexeme::Output,
        },
        ts[p + 1].0 == Lexeme::UType(prog.ports[i].ty.width),
        width_fine(prog.ports[i].ty.width),
        ts[p + 2].0 == Lexeme::Ident(prog.ports[i].name),
        ts[p + 3].0 == Lexeme::Semi,
        forall|x: PortTree| #[trigger]
            items_read(ts, p + 4, ProgramTree { ports: before.ports.push(x), funcs: before.funcs }, prog, i + 1, 0),
    ensures
        items_read(ts, p, before, prog, i, 0),
{
    reveal(items_read);
    reveal(read_port);
    assert(step(ts, p) == p + 1 && step(ts, p + 1) == p + 2 && step(ts, p + 2) == p + 3 && step(ts, p + 3) == p + 4);
    let port = PortTree {
        dir: prog.ports[i].dir,
        ty: prog.ports[i].ty,
        name: prog.ports[i].name,
        span: ts[p + 1].1,
    };
    let next = ProgramTree { ports: before.ports.push(port), funcs: before.funcs };
    assert(items_read(ts, p + 4, next, prog, i + 1, 0));
    let x = read_items(ts, p + 4, next)->Ok_0.0;
    assert(read_items(ts, p, before) == read_items(ts, p + 4, next));
    assert(x.ports[before.ports.len() as int] == next.ports[before.ports.len() as int]);
    assert forall|k: int| 0 <= k < before.ports.len() implies x.ports[k] == before.ports[k] by {
        assert(x.ports[k] == next.ports[k]);
    }
    assert forall|k: int| i <= k < prog.ports.len() implies same_port(
        x.ports[before.ports.len() + k - i],
        #[trigger] prog.ports[k],
    ) by {
        if k > i {
            assert(same_port(x.ports[next.ports.len() + k - (i + 1)], prog.ports[k]));
        }
    }
}

/// The tokens of a program are read as that program.
pub proof fn lemma_program_reads_back(ts: Input, prog: ProgramTree)
    requires
        program_fine(prog),
        says(ts, 0, written_program(prog)),
        ts[written_program(prog).len() as int].0 == Lexeme::Eof,
    ensures
        read_program(ts, 0) matches Ok(x) && same_program(x.0, prog),
{
    let start = ProgramTree { ports: seq![], funcs: seq![] };
    lemma_items(ts, 0, start, prog, 0);
    reveal(items_read);
    let x = read_items(ts, 0, start)->Ok_0.0;
    assert forall|k: int| 0 <= k < prog.ports.len() implies same_port(#[trigger] x.ports[k], prog.ports[k]) by {
        assert(same_port(x.ports[0 + k - 0], prog.ports[k]));
    }
    assert forall|k: int| 0 <= k < prog.funcs.len() implies same_func(#[trigger] x.funcs[k], prog.funcs[k]) by {
        assert(same_func(x.funcs[0 + k - 0], prog.funcs[k]));
    }
}

} // verus!
