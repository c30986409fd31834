//! Ohm abstract syntax tree.
use crate::lexer::Span;
use crate::text::{decimal, push_decimal, same_text};
use vstd::prelude::*;
use vstd::string::*;

verus! {

/// Every value in Ohm is an unsigned integer of an explicit bit width.
/// `bool` is spelled `u1`.
#[derive(Debug, Clone, Copy, PartialEq, Eq, Structural)]
pub struct Type {
    pub width: u32,
}

impl Type {
    /// The type of truth values, one bit wide.
    pub fn boolean() -> (t: Type)
        ensures
            t.width == 1,
    {
        Type { width: 1 }
    }

    pub fn new(width: u32) -> (t: Type)
        ensures
            t.width == width,
    {
        Type { width }
    }

    /// The type as it is written: `u` and the width.
    pub fn text(&self) -> (s: String)
        ensures
            s@ == "u"@ + decimal(self.width as nat),
    {
        let mut s = String::from_str("u");
        push_decimal(&mut s, self.width as u64);
        s
    }
}

#[derive(Debug, Clone, Copy, PartialEq, Eq, Structural)]
pub enum PortDir {
    In,
    Out,
}

#[derive(Debug, Clone)]
pub struct Port {
    pub dir: PortDir,
    pub ty: Type,
    pub name: String,
    pub span: Span,
}

#[derive(Debug, Clone)]
pub struct Param {
    pub ty: Type,
    pub name: String,
    pub span: Span,
}

#[derive(Debug)]
pub struct Func {
    pub name: String,
    pub params: Vec<Param>,
    pub ret: Option<Type>,
    pub body: Block,
    pub span: Span,
}

#[derive(Debug)]
pub struct Block {
    pub stmts: Vec<Stmt>,
}

impl Default for Block {
    fn default() -> (b: Block)
        ensures
            b.stmts@.len() == 0,
    {
        Block { stmts: Vec::new() }
    }
}

#[derive(Debug)]
pub enum Stmt {
    /// `var u8 x = e;` - the type is optional and inferred when omitted.
    Var { ty: Option<Type>, name: String, init: Expr, span: Span },
    Assign { name: String, value: Expr, span: Span },
    If { cond: Expr, then_b: Block, else_b: Option<Block>, span: Span },
    While { cond: Expr, body: Block, span: Span },
    Return { value: Option<Expr>, span: Span },
    Nested(Block),
}

#[derive(Debug, Clone, Copy, PartialEq, Eq, Structural)]
pub enum UnOp {
    Neg,
    Not,
    BitNot,
}

#[derive(Debug, Clone, Copy, PartialEq, Eq, Structural)]
pub enum BinOp {
    Add,
    Sub,
    Mul,
    And,
    Or,
    Xor,
    Shl,
    Shr,
    Eq,
    Ne,
    Lt,
    Le,
    Gt,
    Ge,
    LAnd,
    LOr,
}

/// Comparisons and logical connectives.
pub open spec fn predicate(op: BinOp) -> bool {
    match op {
        BinOp::Eq => true,
        BinOp::Ne => true,
        BinOp::Lt => true,
        BinOp::Le => true,
        BinOp::Gt => true,
        BinOp::Ge => true,
        BinOp::LAnd => true,
        BinOp::LOr => true,
        _ => false,
    }
}

/// How an operator is written.
pub open spec fn symbol_text(op: BinOp) -> Seq<char> {
    match op {
        BinOp::Add => "+"@,
        BinOp::Sub => "-"@,
        BinOp::Mul => "*"@,
        BinOp::And => "&"@,
        BinOp::Or => "|"@,
        BinOp::Xor => "^"@,
        BinOp::Shl => "<<"@,
        BinOp::Shr => ">>"@,
        BinOp::Eq => "=="@,
        BinOp::Ne => "!="@,
        BinOp::Lt => "<"@,
        BinOp::Le => "<="@,
        BinOp::Gt => ">"@,
        BinOp::Ge => ">="@,
        BinOp::LAnd => "&&"@,
        BinOp::LOr => "||"@,
    }
}

impl BinOp {
    /// Comparisons and logical connectives always produce `u1`.
    pub fn is_predicate(self) -> (r: bool)
        ensures
            r == predicate(self),
    {
        match self {
            BinOp::Eq
            | BinOp::Ne
            | BinOp::Lt
            | BinOp::Le
            | BinOp::Gt
            | BinOp::Ge
            | BinOp::LAnd
            | BinOp::LOr => true,
            _ => false,
        }
    }

    /// Shifts do not require both sides to share a width.
    pub fn is_shift(self) -> (r: bool)
        ensures
            r == (self is Shl || self is Shr),
    {
        match self {
            BinOp::Shl | BinOp::Shr => true,
            _ => false,
        }
    }

    pub fn symbol(self) -> (s: &'static str)
        ensures
            s@ == symbol_text(self),
    {
        match self {
            BinOp::Add => "+",
            BinOp::Sub => "-",
            BinOp::Mul => "*",
            BinOp::And => "&",
            BinOp::Or => "|",
            BinOp::Xor => "^",
            BinOp::Shl => "<<",
            BinOp::Shr => ">>",
            BinOp::Eq => "==",
            BinOp::Ne => "!=",
            BinOp::Lt => "<",
            BinOp::Le => "<=",
            BinOp::Gt => ">",
            BinOp::Ge => ">=",
            BinOp::LAnd => "&&",
            BinOp::LOr => "||",
        }
    }
}

#[derive(Debug)]
pub enum Expr {
    /// An integer literal. Width is unconstrained until type checking pins it
    /// down from context, which is what lets `x + 1` work for any width of `x`.
    Num { value: u64, span: Span },
    Ident { name: String, span: Span },
    Unary { op: UnOp, operand: Box<Expr>, span: Span },
    Binary { op: BinOp, lhs: Box<Expr>, rhs: Box<Expr>, span: Span },
    Call { name: String, args: Vec<Expr>, span: Span },
    Cast { operand: Box<Expr>, ty: Type, span: Span },
    Ternary { cond: Box<Expr>, then_e: Box<Expr>, else_e: Box<Expr>, span: Span },
}

#[derive(Debug)]
pub struct Program {
    pub ports: Vec<Port>,
    pub funcs: Vec<Func>,
}

impl Default for Program {
    fn default() -> (p: Program)
        ensures
            p.ports@.len() == 0,
            p.funcs@.len() == 0,
    {
        Program { ports: Vec::new(), funcs: Vec::new() }
    }
}

// --- trees as mathematical values ----------------------------------------

/// An expression, its names as character sequences.
#[verifier::ext_equal]
pub enum ExprTree {
    Num { value: u64, span: Span },
    Ident { name: Seq<char>, span: Span },
    Unary { op: UnOp, operand: Box<ExprTree>, span: Span },
    Binary { op: BinOp, lhs: Box<ExprTree>, rhs: Box<ExprTree>, span: Span },
    Call { name: Seq<char>, args: Seq<ExprTree>, span: Span },
    Cast { operand: Box<ExprTree>, ty: Type, span: Span },
    Ternary { cond: Box<ExprTree>, then_e: Box<ExprTree>, else_e: Box<ExprTree>, span: Span },
}

/// A statement.
#[verifier::ext_equal]
pub enum StmtTree {
    Var { ty: Option<Type>, name: Seq<char>, init: ExprTree, span: Span },
    Assign { name: Seq<char>, value: ExprTree, span: Span },
    If { cond: ExprTree, then_b: Seq<StmtTree>, else_b: Option<Seq<StmtTree>>, span: Span },
    While { cond: ExprTree, body: Seq<StmtTree>, span: Span },
    Return { value: Option<ExprTree>, span: Span },
    Nested(Seq<StmtTree>),
}

#[verifier::ext_equal]
pub struct PortTree {
    pub dir: PortDir,
    pub ty: Type,
    pub name: Seq<char>,
    pub span: Span,
}

#[verifier::ext_equal]
pub struct ParamTree {
    pub ty: Type,
    pub name: Seq<char>,
    pub span: Span,
}

#[verifier::ext_equal]
pub struct FuncTree {
    pub name: Seq<char>,
    pub params: Seq<ParamTree>,
    pub ret: Option<Type>,
    pub body: Seq<StmtTree>,
    pub span: Span,
}

#[verifier::ext_equal]
pub struct ProgramTree {
    pub ports: Seq<PortTree>,
    pub funcs: Seq<FuncTree>,
}

pub open spec fn tree_span(e: ExprTree) -> Span {
    match e {
        ExprTree::Num { span, .. } => span,
        ExprTree::Ident { span, .. } => span,
        ExprTree::Unary { span, .. } => span,
        ExprTree::Binary { span, .. } => span,
        ExprTree::Call { span, .. } => span,
        ExprTree::Cast { span, .. } => span,
        ExprTree::Ternary { span, .. } => span,
    }
}

impl Expr {
    pub open spec fn tree(&self) -> ExprTree
        decreases self,
    {
        match self {
            Expr::Num { value, span } => ExprTree::Num { value: *value, span: *span },
            Expr::Ident { name, span } => ExprTree::Ident { name: name@, span: *span },
            Expr::Unary { op, operand, span } => ExprTree::Unary {
                op: *op,
                operand: Box::new(operand.tree()),
                span: *span,
            },
            Expr::Binary { op, lhs, rhs, span } => ExprTree::Binary {
                op: *op,
                lhs: Box::new(lhs.tree()),
                rhs: Box::new(rhs.tree()),
                span: *span,
            },
            Expr::Call { name, args, span } => ExprTree::Call {
                name: name@,
                args: Seq::new(
                    args@.len(),
                    |i: int|
                        if 0 <= i < args@.len() {
                            args@[i].tree()
                        } else {
                            arbitrary()
                        },
                ),
                span: *span,
            },
            Expr::Cast { operand, ty, span } => ExprTree::Cast {
                operand: Box::new(operand.tree()),
                ty: *ty,
                span: *span,
            },
            Expr::Ternary { cond, then_e, else_e, span } => ExprTree::Ternary {
                cond: Box::new(cond.tree()),
                then_e: Box::new(then_e.tree()),
                else_e: Box::new(else_e.tree()),
                span: *span,
            },
        }
    }

    pub fn span(&self) -> (s: Span)
        ensures
            s == tree_span(self.tree()),
    {
        match self {
            Expr::Num { span, .. }
            | Expr::Ident { span, .. }
            | Expr::Unary { span, .. }
            | Expr::Binary { span, .. }
            | Expr::Call { span, .. }
            | Expr::Cast { span, .. }
            | Expr::Ternary { span, .. } => *span,
        }
    }
}

impl Block {
    pub open spec fn tree(&self) -> Seq<StmtTree>
        decreases self,
    {
        Seq::new(
            self.stmts@.len(),
            |i: int|
                if 0 <= i < self.stmts@.len() {
                    self.stmts@[i].tree()
                } else {
                    arbitrary()
                },
        )
    }
}

impl Stmt {
    pub open spec fn tree(&self) -> StmtTree
        decreases self,
    {
        match self {
            Stmt::Var { ty, name, init, span } => StmtTree::Var {
                ty: *ty,
                name: name@,
                init: init.tree(),
                span: *span,
            },
            Stmt::Assign { name, value, span } => StmtTree::Assign {
                name: name@,
                value: value.tree(),
                span: *span,
            },
            Stmt::If { cond, then_b, else_b, span } => StmtTree::If {
                cond: cond.tree(),
                then_b: then_b.tree(),
                else_b: match else_b {
                    Some(b) => Some(b.tree()),
                    None => None,
                },
                span: *span,
            },
            Stmt::While { cond, body, span } => StmtTree::While {
                cond: cond.tree(),
                body: body.tree(),
                span: *span,
            },
            Stmt::Return { value, span } => StmtTree::Return {
                value: match value {
                    Some(e) => Some(e.tree()),
                    None => None,
                },
                span: *span,
            },
            Stmt::Nested(b) => StmtTree::Nested(b.tree()),
        }
    }
}

impl Port {
    pub open spec fn tree(&self) -> PortTree {
        PortTree { dir: self.dir, ty: self.ty, name: self.name@, span: self.span }
    }
}

impl Param {
    pub open spec fn tree(&self) -> ParamTree {
        ParamTree { ty: self.ty, name: self.name@, span: self.span }
    }
}

impl Func {
    pub open spec fn tree(&self) -> FuncTree {
        FuncTree {
            name: self.name@,
            params: Seq::new(self.params@.len(), |i: int| self.params@[i].tree()),
            ret: self.ret,
            body: self.body.tree(),
            span: self.span,
        }
    }
}

impl Program {
    pub open spec fn tree(&self) -> ProgramTree {
        ProgramTree {
            ports: Seq::new(self.ports@.len(), |i: int| self.ports@[i].tree()),
            funcs: Seq::new(self.funcs@.len(), |i: int| self.funcs@[i].tree()),
        }
    }

    /// The first function called `name`.
    pub fn func(&self, name: &str) -> (r: Option<&Func>)
        ensures
            match r {
                Some(f) => exists|i: int|
                    0 <= i < self.funcs@.len() && *f == #[trigger] self.funcs@[i] && f.name@ == name@
                        && forall|j: int| 0 <= j < i ==> (#[trigger] self.funcs@[j]).name@ != name@,
                None => forall|i: int|
                    0 <= i < self.funcs@.len() ==> (#[trigger] self.funcs@[i]).name@ != name@,
            },
    {
        let mut i: usize = 0;
        while i < self.funcs.len()
            invariant
                i <= self.funcs@.len(),
                forall|j: int| 0 <= j < i ==> (#[trigger] self.funcs@[j]).name@ != name@,
            decreases self.funcs@.len() - i,
        {
            if same_text(self.funcs[i].name.as_str(), name) {
                return Some(&self.funcs[i]);
            }
            i = i + 1;
        }
        None
    }

    /// The first port called `name`.
    pub fn port(&self, name: &str) -> (r: Option<&Port>)
        ensures
            match r {
                Some(p) => exists|i: int|
                    0 <= i < self.ports@.len() && *p == #[trigger] self.ports@[i] && p.name@ == name@
                        && forall|j: int| 0 <= j < i ==> (#[trigger] self.ports@[j]).name@ != name@,
                None => forall|i: int|
                    0 <= i < self.ports@.len() ==> (#[trigger] self.ports@[i]).name@ != name@,
            },
    {
        let mut i: usize = 0;
        while i < self.ports.len()
            invariant
                i <= self.ports@.len(),
                forall|j: int| 0 <= j < i ==> (#[trigger] self.ports@[j]).name@ != name@,
            decreases self.ports@.len() - i,
        {
            if same_text(self.ports[i].name.as_str(), name) {
                return Some(&self.ports[i]);
            }
            i = i + 1;
        }
        None
    }
}

// --- copies --------------------------------------------------------------

fn copy_box(e: &Box<Expr>) -> (r: Box<Expr>)
    ensures
        r.tree() == e.tree(),
    decreases e, 1int,
{
    Box::new(copy_expr(&**e))
}

fn copy_expr(e: &Expr) -> (r: Expr)
    ensures
        r.tree() == e.tree(),
    decreases e, 0int,
{
    match e {
        Expr::Num { value, span } => Expr::Num { value: *value, span: *span },
        Expr::Ident { name, span } => Expr::Ident { name: name.clone(), span: *span },
        Expr::Unary { op, operand, span } => Expr::Unary { op: *op, operand: copy_box(operand), span: *span },
        Expr::Binary { op, lhs, rhs, span } => Expr::Binary {
            op: *op,
            lhs: copy_box(lhs),
            rhs: copy_box(rhs),
            span: *span,
        },
        Expr::Call { name, args, span } => {
            let mut copies: Vec<Expr> = Vec::new();
            for i in 0..args.len()
                invariant
                    forall|k: int| 0 <= k < args@.len() ==> decreases_to!(e => #[trigger] args@[k]),
                    copies@.len() == i,
                    forall|k: int| 0 <= k < i ==> (#[trigger] copies@[k]).tree() == args@[k].tree(),
            {
                copies.push(copy_expr(&args[i]));
            }
            let r = Expr::Call { name: name.clone(), args: copies, span: *span };
            assert(r.tree()->Call_args =~= e.tree()->Call_args);
            r
        },
        Expr::Cast { operand, ty, span } => Expr::Cast { operand: copy_box(operand), ty: *ty, span: *span },
        Expr::Ternary { cond, then_e, else_e, span } => Expr::Ternary {
            cond: copy_box(cond),
            then_e: copy_box(then_e),
            else_e: copy_box(else_e),
            span: *span,
        },
    }
}

fn copy_block(b: &Block) -> (r: Block)
    ensures
        r.tree() == b.tree(),
    decreases b,
{
    let mut stmts: Vec<Stmt> = Vec::new();
    for i in 0..b.stmts.len()
        invariant
            stmts@.len() == i,
            forall|k: int| 0 <= k < i ==> (#[trigger] stmts@[k]).tree() == b.stmts@[k].tree(),
    {
        assert(decreases_to!(*b => b.stmts@[i as int]));
        stmts.push(copy_stmt(&b.stmts[i]));
    }
    let r = Block { stmts };
    assert(r.tree() =~= b.tree());
    r
}

fn copy_stmt(s: &Stmt) -> (r: Stmt)
    ensures
        r.tree() == s.tree(),
    decreases s,
{
    match s {
        Stmt::Var { ty, name, init, span } => Stmt::Var {
            ty: *ty,
            name: name.clone(),
            init: copy_expr(init),
            span: *span,
        },
        Stmt::Assign { name, value, span } => Stmt::Assign {
            name: name.clone(),
            value: copy_expr(value),
            span: *span,
        },
        Stmt::If { cond, then_b, else_b, span } => Stmt::If {
            cond: copy_expr(cond),
            then_b: copy_block(then_b),
            else_b: match else_b {
                Some(b) => Some(copy_block(b)),
                None => None,
            },
            span: *span,
        },
        Stmt::While { cond, body, span } => Stmt::While {
            cond: copy_expr(cond),
            body: copy_block(body),
            span: *span,
        },
        Stmt::Return { value, span } => Stmt::Return {
            value: match value {
                Some(e) => Some(copy_expr(e)),
                None => None,
            },
            span: *span,
        },
        Stmt::Nested(b) => Stmt::Nested(copy_block(b)),
    }
}

impl Clone for Expr {
    fn clone(&self) -> (r: Expr)
        ensures
            r.tree() == self.tree(),
    {
        copy_expr(self)
    }
}

impl Clone for Block {
    fn clone(&self) -> (r: Block)
        ensures
            r.tree() == self.tree(),
    {
        copy_block(self)
    }
}

impl Clone for Stmt {
    fn clone(&self) -> (r: Stmt)
        ensures
            r.tree() == self.tree(),
    {
        copy_stmt(self)
    }
}

impl Clone for Func {
    fn clone(&self) -> (r: Func)
        ensures
            r.tree() == self.tree(),
    {
        let mut params: Vec<Param> = Vec::new();
        for i in 0..self.params.len()
            invariant
                params@.len() == i,
                forall|k: int| 0 <= k < i ==> (#[trigger] params@[k]).tree() == self.params@[k].tree(),
        {
            let p = &self.params[i];
            params.push(Param { ty: p.ty, name: p.name.clone(), span: p.span });
        }
        let r = Func {
            name: self.name.clone(),
            params,
            ret: self.ret,
            body: copy_block(&self.body),
            span: self.span,
        };
        assert(r.tree().params =~= self.tree().params);
        r
    }
}

impl Clone for Program {
    fn clone(&self) -> (r: Program)
        ensures
            r.tree() == self.tree(),
    {
        let mut ports: Vec<Port> = Vec::new();
        for i in 0..self.ports.len()
            invariant
                ports@.len() == i,
                forall|k: int| 0 <= k < i ==> (#[trigger] ports@[k]).tree() == self.ports@[k].tree(),
        {
            let p = &self.ports[i];
            ports.push(Port { dir: p.dir, ty: p.ty, name: p.name.clone(), span: p.span });
        }
        let mut funcs: Vec<Func> = Vec::new();
        for i in 0..self.funcs.len()
            invariant
                funcs@.len() == i,
                forall|k: int| 0 <= k < i ==> (#[trigger] funcs@[k]).tree() == self.funcs@[k].tree(),
        {
            funcs.push(self.funcs[i].clone());
        }
        let r = Program { ports, funcs };
        assert(r.tree().ports =~= self.tree().ports);
        assert(r.tree().funcs =~= self.tree().funcs);
        r
    }
}

} // verus!
