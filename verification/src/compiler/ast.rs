//! The syntax tree the parser builds.
use vstd::prelude::*;

use crate::arena::Handle;
use crate::compiler::error::Context;
use crate::intern::Interned;

pub mod convert;
pub mod meaning;
pub mod pretty;
pub mod typed;

verus! {

/// A translation unit: its top-level declarations in source order.
pub struct Program<'src> {
    pub items: Vec<Declaration<'src>>,
}

/// Storage-class and definition flags of a declaration.
#[derive(Clone, Copy, PartialEq, Eq, Debug, Structural)]
pub struct SpecifierFlags {
    pub defined: bool,
    pub is_extern: bool,
    pub is_static: bool,
}

impl SpecifierFlags {
    /// No flag set.
    pub fn empty() -> (r: Self)
        ensures
            !r.defined && !r.is_extern && !r.is_static,
    {
        SpecifierFlags { defined: false, is_extern: false, is_static: false }
    }

    /// Both `extern` and `static` are set.
    pub fn has_extern_and_static(&self) -> (r: bool)
        ensures
            r == (self.is_extern && self.is_static),
    {
        self.is_extern && self.is_static
    }

    /// `extern` or `defined` is set.
    pub fn extern_or_defined(&self) -> (r: bool)
        ensures
            r == (self.is_extern || self.defined),
    {
        self.is_extern || self.defined
    }
}

/// A declaration's type together with its specifier flags.
pub struct Specifiers {
    pub ty: Handle,
    pub flags: SpecifierFlags,
}

pub enum Declaration<'src> {
    Fn(FunctionDecl<'src>),
    Var(VarDecl<'src>),
}

pub struct VarDecl<'src> {
    pub specifier_flags: SpecifierFlags,
    pub id: Identifier<'src>,
    pub ty: Handle,
    pub init: Option<Expr<'src>>,
}

pub struct FunctionDecl<'src> {
    pub specifier_flags: SpecifierFlags,
    pub id: Identifier<'src>,
    pub ty: Handle,
    pub param_names: Vec<Option<Identifier<'src>>>,
    pub body: Option<Vec<Stmt<'src>>>,
}

/// A name as written at one place in the source.
#[derive(Clone, Copy, Debug)]
pub struct Identifier<'src> {
    pub name: Interned<'src>,
    pub ctx: Context,
}

pub struct ForStmt<'src> {
    pub init: Option<Box<Stmt<'src>>>,
    pub condition: Option<Box<Expr<'src>>>,
    pub increment: Option<Box<Expr<'src>>>,
    pub body: Box<Stmt<'src>>,
}

pub enum Stmt<'src> {
    Block(Vec<Stmt<'src>>),
    Break(Context),
    Case(Context, Option<Box<Expr<'src>>>, Box<Stmt<'src>>),
    Continue(Context),
    Decl(Box<Declaration<'src>>),
    Do(Box<Stmt<'src>>, Box<Expr<'src>>),
    Expr(Box<Expr<'src>>),
    For(Box<ForStmt<'src>>),
    Goto(Identifier<'src>),
    If(Box<Expr<'src>>, Box<Stmt<'src>>, Option<Box<Stmt<'src>>>),
    Labled(Identifier<'src>, Box<Stmt<'src>>),
    Nil,
    Return(Box<Expr<'src>>),
    Switch(Box<Expr<'src>>, Box<Stmt<'src>>),
    While(Box<Expr<'src>>, Box<Stmt<'src>>),
}

/// An expression and the source range it was parsed from.
pub struct Expr<'src> {
    pub expr: ExprTy<'src>,
    pub ctx: Context,
}

pub struct CallExpr<'src> {
    pub operand: Box<Expr<'src>>,
    pub args: Vec<Expr<'src>>,
}

pub enum ExprTy<'src> {
    /// condition, then branch, else branch
    Ternary(Box<Expr<'src>>, Box<Expr<'src>>, Box<Expr<'src>>),
    /// operator, target, value
    Assign(AssignOp, Box<Expr<'src>>, Box<Expr<'src>>),
    /// operator, left operand, right operand
    Binary(BinaryOp, Box<Expr<'src>>, Box<Expr<'src>>),
    /// prefix operator and operand
    Unary(UnaryOp, Box<Expr<'src>>),
    /// postfix `++` or `--` and operand
    DecInc(UnaryOp, Box<Expr<'src>>),
    Call(Box<CallExpr<'src>>),
    Var(Interned<'src>),
    Constant(i32),
    Poisoned,
}

#[derive(Clone, Copy, PartialEq, Eq, Debug, Structural)]
pub enum UnaryOp {
    Increment,
    Decrement,
    Compliment,
    Negate,
    Not,
    Plus,
}

#[derive(Clone, Copy, PartialEq, Eq, Debug, Structural)]
pub enum BinaryOp {
    Div,
    Mul,
    Rem,
    Add,
    Sub,
    L,
    LE,
    G,
    GE,
    E,
    NE,
    Shl,
    Shr,
    BitAnd,
    BitXor,
    BitOr,
    And,
    Or,
}

#[derive(Clone, Copy, PartialEq, Eq, Debug, Structural)]
pub enum AssignOp {
    Eq,
    Div,
    Mul,
    Rem,
    Add,
    Sub,
    Shl,
    Shr,
    And,
    Xor,
    Or,
}

/// A range lies within a source of `n` characters.
pub open spec fn ctx_within(c: Context, n: nat) -> bool {
    c.start <= c.end <= n
}

/// Every range recorded in an expression lies within the source.
pub open spec fn expr_ok(e: Expr, n: nat) -> bool
    decreases e,
{
    &&& ctx_within(e.ctx, n)
    &&& match e.expr {
        ExprTy::Ternary(a, b, c) => expr_ok(*a, n) && expr_ok(*b, n) && expr_ok(*c, n),
        ExprTy::Assign(_, a, b) => expr_ok(*a, n) && expr_ok(*b, n),
        ExprTy::Binary(_, a, b) => expr_ok(*a, n) && expr_ok(*b, n),
        ExprTy::Unary(_, a) => expr_ok(*a, n),
        ExprTy::DecInc(op, a) => (op == UnaryOp::Increment || op == UnaryOp::Decrement) && expr_ok(*a, n),
        ExprTy::Call(c) => expr_ok(*c.operand, n) && forall|i: int|
            0 <= i < c.args@.len() ==> expr_ok(#[trigger] c.args@[i], n),
        _ => true,
    }
}

pub open spec fn opt_expr_ok(e: Option<Box<Expr>>, n: nat) -> bool {
    match e {
        Some(e) => expr_ok(*e, n),
        None => true,
    }
}

/// Every range recorded in a statement lies within the source.
pub open spec fn stmt_ok(s: Stmt, n: nat) -> bool
    decreases s,
{
    match s {
        Stmt::Block(v) => forall|i: int| 0 <= i < v@.len() ==> stmt_ok(#[trigger] v@[i], n),
        Stmt::Break(c) => ctx_within(c, n),
        Stmt::Case(c, e, b) => ctx_within(c, n) && (match e {
            Some(e) => expr_ok(*e, n),
            None => true,
        }) && stmt_ok(*b, n),
        Stmt::Continue(c) => ctx_within(c, n),
        Stmt::Decl(d) => decl_ok(*d, n),
        Stmt::Do(b, e) => stmt_ok(*b, n) && expr_ok(*e, n),
        Stmt::Expr(e) => expr_ok(*e, n),
        Stmt::For(f) => (match f.init {
            Some(i) => stmt_ok(*i, n),
            None => true,
        }) && (match f.condition {
            Some(e) => expr_ok(*e, n),
            None => true,
        }) && (match f.increment {
            Some(e) => expr_ok(*e, n),
            None => true,
        }) && stmt_ok(*f.body, n),
        Stmt::Goto(id) => ctx_within(id.ctx, n),
        Stmt::If(c, t, e) => expr_ok(*c, n) && stmt_ok(*t, n) && (match e {
            Some(e) => stmt_ok(*e, n),
            None => true,
        }),
        Stmt::Labled(id, b) => ctx_within(id.ctx, n) && stmt_ok(*b, n),
        Stmt::Nil => true,
        Stmt::Return(e) => expr_ok(*e, n),
        Stmt::Switch(e, b) => expr_ok(*e, n) && stmt_ok(*b, n),
        Stmt::While(e, b) => expr_ok(*e, n) && stmt_ok(*b, n),
    }
}

/// Every range recorded in a declaration lies within the source.
pub open spec fn decl_ok(d: Declaration, n: nat) -> bool
    decreases d,
{
    match d {
        Declaration::Fn(f) => ctx_within(f.id.ctx, n) && (forall|i: int|
            0 <= i < f.param_names@.len() ==> match #[trigger] f.param_names@[i] {
                Some(p) => ctx_within(p.ctx, n),
                None => true,
            }) && (match f.body {
            Some(b) => forall|i: int| 0 <= i < b@.len() ==> stmt_ok(#[trigger] b@[i], n),
            None => true,
        }),
        Declaration::Var(v) => ctx_within(v.id.ctx, n) && (match v.init {
            Some(e) => expr_ok(e, n),
            None => true,
        }),
    }
}

/// Every range recorded in a program lies within a source of `n`
/// characters.
pub open spec fn program_ok(p: Program, n: nat) -> bool {
    forall|i: int| 0 <= i < p.items@.len() ==> decl_ok(#[trigger] p.items@[i], n)
}

} // verus!
