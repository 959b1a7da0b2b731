use ccompiler::compiler::ast::pretty::Level;
use ccompiler::compiler::ast::{
    AssignOp, BinaryOp, CallExpr, Declaration, Expr, ExprTy, Identifier, SpecifierFlags, Stmt, UnaryOp,
    VarDecl,
};
use ccompiler::compiler::error::Context;
use ccompiler::compiler::ty::{new_ty_interner, Ty};
use ccompiler::intern::{Interned, Interner};

fn expr(e: ExprTy<'_>) -> Expr<'_> {
    Expr { expr: e, ctx: Context::dummy() }
}

fn constant(n: i32) -> Expr<'static> {
    expr(ExprTy::Constant(n))
}

fn var(name: Interned<'_>) -> Expr<'_> {
    expr(ExprTy::Var(name))
}

fn ident(name: Interned<'_>) -> Identifier<'_> {
    Identifier { name, ctx: Context::dummy() }
}

#[test]
fn levels_indent_by_four_spaces() {
    let top = Level::new();
    assert_eq!(top.to_spaces(), 0);
    assert_eq!(top.next().to_spaces(), 4);
    assert_eq!(top.next().next().to_spaces(), 8);
    assert_eq!(top.next().next().prev().to_spaces(), 4);
    assert_eq!(top.prev().to_spaces(), 0);
}

#[test]
fn expressions_are_fully_parenthesised() {
    let mut ids = Interner::new();
    let x = ids.intern("x");
    let f = ids.intern("f");
    let sum = expr(ExprTy::Binary(BinaryOp::Add, Box::new(constant(2)), Box::new(constant(3))));
    let call = expr(ExprTy::Call(Box::new(CallExpr {
        operand: Box::new(var(f)),
        args: vec![constant(1), sum, expr(ExprTy::Unary(UnaryOp::Negate, Box::new(var(x))))],
    })));
    assert_eq!(call.to_string(), "f(1, (2 + 3), (-x))");
    let post = expr(ExprTy::DecInc(UnaryOp::Increment, Box::new(var(x))));
    assert_eq!(post.to_string(), "(++x)");
    let assign = expr(ExprTy::Assign(AssignOp::Shl, Box::new(var(x)), Box::new(constant(-7))));
    assert_eq!(assign.to_string(), "(x <<= -7)");
    let cond = expr(ExprTy::Ternary(Box::new(var(x)), Box::new(constant(1)), Box::new(expr(ExprTy::Poisoned))));
    assert_eq!(cond.to_string(), "(x ? 1 : ())");
    let no_args = expr(ExprTy::Call(Box::new(CallExpr { operand: Box::new(var(f)), args: vec![] })));
    assert_eq!(no_args.to_string(), "f()");
}

#[test]
fn statements_are_indented_by_nesting() {
    let mut ids = Interner::new();
    let a = ids.intern("a");
    let done = ids.intern("done");
    let mut tys = new_ty_interner();
    let int = tys.intern(Ty::Int);
    let decl = Stmt::Decl(Box::new(Declaration::Var(VarDecl {
        specifier_flags: SpecifierFlags::empty(),
        id: ident(a),
        ty: int,
        init: Some(constant(1)),
    })));
    let assign = expr(ExprTy::Assign(AssignOp::Eq, Box::new(var(a)), Box::new(constant(3))));
    let branch = Stmt::If(
        Box::new(var(a)),
        Box::new(Stmt::Return(Box::new(constant(2)))),
        Some(Box::new(Stmt::Block(vec![Stmt::Expr(Box::new(assign))]))),
    );
    let labelled = Stmt::Labled(ident(done), Box::new(Stmt::Nil));
    let block = Stmt::Block(vec![decl, branch, labelled]);
    assert!(block.is_printable(&tys));
    let mut out = Vec::new();
    block.pretty(&mut out, Level::new(), &tys);
    let text: String = out.into_iter().collect();
    assert_eq!(
        text,
        "{\n    int a = 1;\n    if (a)\n        return 2;\n    else\n    {\n        (a = 3);\n    }\ndone:\n;\n}"
    );
}

#[test]
fn function_types_cannot_be_written() {
    let mut ids = Interner::new();
    let g = ids.intern("g");
    let mut tys = new_ty_interner();
    let int = tys.intern(Ty::Int);
    let fn_ty = tys.intern(Ty::Function { ret: int, params: vec![] });
    let decl = Stmt::Decl(Box::new(Declaration::Var(VarDecl {
        specifier_flags: SpecifierFlags::empty(),
        id: ident(g),
        ty: fn_ty,
        init: None,
    })));
    assert!(!decl.is_printable(&tys));
    let poisoned = tys.intern(Ty::Poisoned);
    let ok = Stmt::Decl(Box::new(Declaration::Var(VarDecl {
        specifier_flags: SpecifierFlags::empty(),
        id: ident(g),
        ty: poisoned,
        init: None,
    })));
    assert!(ok.is_printable(&tys));
    let mut out = Vec::new();
    ok.pretty(&mut out, Level::new().next(), &tys);
    let text: String = out.into_iter().collect();
    assert_eq!(text, "    poisoned g;");
}
