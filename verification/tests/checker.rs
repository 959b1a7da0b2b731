use ccompiler::arena::Handle;
use ccompiler::compiler::ast::{
    CallExpr, Declaration, Expr, ExprTy, FunctionDecl, Identifier, Program, SpecifierFlags, Stmt, VarDecl,
};
use ccompiler::compiler::error::Context;
use ccompiler::compiler::ty::{new_ty_interner, Ty, TyInterner};
use ccompiler::compiler::tychk::TyChecker;
use ccompiler::intern::{Interned, Interner};

const SRC: &str = "int main() { return 0; } int f(int a) { return a; }";

fn at(start: usize) -> Context {
    Context::from_range(start, start + 1)
}

fn expr(e: ExprTy<'_>, start: usize) -> Expr<'_> {
    Expr { expr: e, ctx: at(start) }
}

fn constant(n: i32, start: usize) -> Expr<'static> {
    expr(ExprTy::Constant(n), start)
}

fn ident(name: Interned<'_>, start: usize) -> Identifier<'_> {
    Identifier { name, ctx: at(start) }
}

fn flags(is_static: bool, is_extern: bool) -> SpecifierFlags {
    SpecifierFlags { defined: false, is_extern, is_static }
}

fn function<'a>(name: Interned<'a>, ty: Handle, body: Vec<Stmt<'a>>) -> Declaration<'a> {
    Declaration::Fn(FunctionDecl {
        specifier_flags: flags(false, false),
        id: ident(name, 4),
        ty,
        param_names: vec![],
        body: Some(body),
    })
}

fn var<'a>(name: Interned<'a>, ty: Handle, f: SpecifierFlags, init: Option<Expr<'a>>, start: usize) -> Declaration<'a> {
    Declaration::Var(VarDecl { specifier_flags: f, id: ident(name, start), ty, init })
}

struct Types {
    int: Handle,
    main_ty: Handle,
}

fn types(tys: &mut TyInterner<'static>) -> Types {
    let int = tys.intern(Ty::Int);
    let main_ty = tys.intern(Ty::Function { ret: int, params: vec![] });
    Types { int, main_ty }
}

fn check_errors(tys: &mut TyInterner<'static>, program: Program<'static>) -> String {
    let checker = TyChecker::new(tys);
    match checker.check(SRC, "t.c".to_string(), program) {
        Ok(_) => String::new(),
        Err(e) => e.to_string(),
    }
}

fn main_with(ids: &mut Interner<'static>, tys: &mut TyInterner<'static>, body: Vec<Stmt<'static>>) -> String {
    let t = types(tys);
    let main = ids.intern("main");
    let program = Program { items: vec![function(main, t.main_ty, body)] };
    check_errors(tys, program)
}

fn ret0() -> Stmt<'static> {
    Stmt::Return(Box::new(constant(0, 20)))
}

#[test]
fn a_valid_function_checks() {
    let mut ids = Interner::new();
    let mut tys = new_ty_interner();
    assert_eq!(main_with(&mut ids, &mut tys, vec![ret0()]), "");
}

#[test]
fn break_outside_a_loop() {
    let mut ids = Interner::new();
    let mut tys = new_ty_interner();
    let text = main_with(&mut ids, &mut tys, vec![Stmt::Break(at(13)), ret0()]);
    assert!(text.contains("[SEME1] break must be in loop or switch"));
}

#[test]
fn continue_outside_a_loop() {
    let mut ids = Interner::new();
    let mut tys = new_ty_interner();
    let text = main_with(&mut ids, &mut tys, vec![Stmt::Continue(at(13)), ret0()]);
    assert!(text.contains("[SEME2] continue must be in loop"));
}

#[test]
fn break_inside_a_loop_is_fine() {
    let mut ids = Interner::new();
    let mut tys = new_ty_interner();
    let looped = Stmt::While(Box::new(constant(1, 14)), Box::new(Stmt::Break(at(15))));
    assert_eq!(main_with(&mut ids, &mut tys, vec![looped, ret0()]), "");
}

fn switch_on<'a>(cases: Vec<Stmt<'a>>) -> Stmt<'a> {
    Stmt::Switch(Box::new(constant(1, 14)), Box::new(Stmt::Block(cases)))
}

#[test]
fn duplicate_case() {
    let mut ids = Interner::new();
    let mut tys = new_ty_interner();
    let cases = vec![
        Stmt::Case(at(15), Some(Box::new(constant(3, 16))), Box::new(Stmt::Nil)),
        Stmt::Case(at(17), Some(Box::new(constant(3, 18))), Box::new(Stmt::Nil)),
    ];
    let text = main_with(&mut ids, &mut tys, vec![switch_on(cases), ret0()]);
    assert!(text.contains("[SEME12] duplicate case"));
}

#[test]
fn case_value_must_be_constant() {
    let mut ids = Interner::new();
    let mut tys = new_ty_interner();
    let t = types(&mut tys);
    let a = ids.intern("a");
    let decl = Stmt::Decl(Box::new(var(a, t.int, flags(false, false), None, 13)));
    let cases = vec![Stmt::Case(at(15), Some(Box::new(expr(ExprTy::Var(a), 16))), Box::new(Stmt::Nil))];
    let text = main_with(&mut ids, &mut tys, vec![decl, switch_on(cases), ret0()]);
    assert!(text.contains("[SEME13] case expression is not a constant"));
}

#[test]
fn case_outside_a_switch() {
    let mut ids = Interner::new();
    let mut tys = new_ty_interner();
    let case = Stmt::Case(at(15), Some(Box::new(constant(3, 16))), Box::new(Stmt::Nil));
    let text = main_with(&mut ids, &mut tys, vec![case, ret0()]);
    assert!(text.contains("[SEME14]"));
}

#[test]
fn two_default_cases() {
    let mut ids = Interner::new();
    let mut tys = new_ty_interner();
    let cases = vec![Stmt::Case(at(15), None, Box::new(Stmt::Nil)), Stmt::Case(at(17), None, Box::new(Stmt::Nil))];
    let text = main_with(&mut ids, &mut tys, vec![switch_on(cases), ret0()]);
    assert!(text.contains("[SEME15]"));
}

#[test]
fn static_function_declared_in_a_body() {
    let mut ids = Interner::new();
    let mut tys = new_ty_interner();
    let t = types(&mut tys);
    let g = ids.intern("g");
    let decl = Stmt::Decl(Box::new(Declaration::Fn(FunctionDecl {
        specifier_flags: flags(true, false),
        id: ident(g, 13),
        ty: t.main_ty,
        param_names: vec![],
        body: None,
    })));
    let text = main_with(&mut ids, &mut tys, vec![decl, ret0()]);
    assert!(text.contains("[SEME9] static function declared in a function body"));
}

#[test]
fn extern_with_initializer_in_a_body() {
    let mut ids = Interner::new();
    let mut tys = new_ty_interner();
    let t = types(&mut tys);
    let x = ids.intern("x");
    let decl = Stmt::Decl(Box::new(var(x, t.int, flags(false, true), Some(constant(3, 14)), 13)));
    let text = main_with(&mut ids, &mut tys, vec![decl, ret0()]);
    assert!(text.contains("[SEME10] extern declaration with an initializer in a function body"));
}

#[test]
fn global_initializer_must_be_constant() {
    let mut ids = Interner::new();
    let mut tys = new_ty_interner();
    let t = types(&mut tys);
    let x = ids.intern("x");
    let y = ids.intern("y");
    let program = Program {
        items: vec![
            var(x, t.int, flags(false, false), Some(constant(1, 8)), 4),
            var(y, t.int, flags(false, false), Some(expr(ExprTy::Var(x), 14)), 12),
        ],
    };
    let text = check_errors(&mut tys, program);
    assert!(text.contains("[SEME11] initializer is not a constant"));
}

#[test]
fn extern_and_static_together() {
    let mut ids = Interner::new();
    let mut tys = new_ty_interner();
    let t = types(&mut tys);
    let x = ids.intern("x");
    let program = Program { items: vec![var(x, t.int, flags(true, true), None, 4)] };
    let text = check_errors(&mut tys, program);
    assert!(text.contains("[SEME6] too many storage classes"));
}

#[test]
fn same_name_with_different_linkage() {
    let mut ids = Interner::new();
    let mut tys = new_ty_interner();
    let t = types(&mut tys);
    let x = ids.intern("x");
    let program = Program {
        items: vec![var(x, t.int, flags(false, false), None, 4), var(x, t.int, flags(true, false), None, 12)],
    };
    let text = check_errors(&mut tys, program);
    assert!(text.contains("[SEME7] declaration with different linkage"), "{text}");
}

#[test]
fn calling_a_variable() {
    let mut ids = Interner::new();
    let mut tys = new_ty_interner();
    let t = types(&mut tys);
    let a = ids.intern("a");
    let decl = Stmt::Decl(Box::new(var(a, t.int, flags(false, false), None, 13)));
    let call = expr(ExprTy::Call(Box::new(CallExpr { operand: Box::new(expr(ExprTy::Var(a), 16)), args: vec![] })), 16);
    let text = main_with(&mut ids, &mut tys, vec![decl, Stmt::Expr(Box::new(call)), ret0()]);
    assert!(text.contains("[SEME16]"), "{text}");
}

#[test]
fn calling_with_too_many_arguments() {
    let mut ids = Interner::new();
    let mut tys = new_ty_interner();
    let t = types(&mut tys);
    let main = ids.intern("main");
    let call = expr(
        ExprTy::Call(Box::new(CallExpr { operand: Box::new(expr(ExprTy::Var(main), 16)), args: vec![constant(1, 18)] })),
        16,
    );
    let program = Program { items: vec![function(main, t.main_ty, vec![Stmt::Expr(Box::new(call)), ret0()])] };
    let text = check_errors(&mut tys, program);
    assert!(text.contains("[SEME17]"), "{text}");
}

#[test]
fn checked_functions_follow_the_definitions() {
    let mut ids = Interner::new();
    let mut tys = new_ty_interner();
    let t = types(&mut tys);
    let main = ids.intern("main");
    let inner = ids.intern("inner");
    let other = ids.intern("other");
    let nested = Stmt::Decl(Box::new(function(inner, t.main_ty, vec![ret0()])));
    let program = Program {
        items: vec![
            function(main, t.main_ty, vec![nested, ret0()]),
            function(other, t.main_ty, vec![ret0(), ret0()]),
        ],
    };
    let checker = TyChecker::new(&mut tys);
    let checked = match checker.check(SRC, "t.c".to_string(), program) {
        Ok(p) => p,
        Err(e) => panic!("unexpected errors: {}", e.to_string()),
    };
    let names: Vec<Interned<'_>> = checked.functions.iter().map(|f| f.name).collect();
    assert!(names == vec![inner, main, other]);
    let lens: Vec<usize> = checked.functions.iter().map(|f| f.body.len()).collect();
    assert_eq!(lens, vec![1, 2, 2]);
}

#[test]
fn a_goto_without_its_label_is_reported() {
    let mut ids = Interner::new();
    let mut tys = new_ty_interner();
    let x = ids.intern("x");
    let text = main_with(&mut ids, &mut tys, vec![Stmt::Goto(ident(x, 13)), ret0()]);
    assert!(text.contains("[SEME4] use of undeclared variable"));
}

#[test]
fn a_goto_to_a_label_of_the_function_checks() {
    let mut ids = Interner::new();
    let mut tys = new_ty_interner();
    let x = ids.intern("x");
    let labelled = Stmt::Labled(ident(x, 15), Box::new(ret0()));
    assert_eq!(main_with(&mut ids, &mut tys, vec![Stmt::Goto(ident(x, 13)), labelled]), "");
}

#[test]
fn break_and_continue_inside_a_do_while_are_fine() {
    let mut ids = Interner::new();
    let mut tys = new_ty_interner();
    let body = Stmt::Block(vec![Stmt::Continue(at(15)), Stmt::Break(at(16))]);
    let looped = Stmt::Do(Box::new(body), Box::new(constant(1, 14)));
    assert_eq!(main_with(&mut ids, &mut tys, vec![looped, ret0()]), "");
}

#[test]
fn a_loop_ends_where_its_body_ends() {
    let mut ids = Interner::new();
    let mut tys = new_ty_interner();
    let looped = Stmt::While(Box::new(constant(1, 14)), Box::new(Stmt::Nil));
    let text = main_with(&mut ids, &mut tys, vec![looped, Stmt::Break(at(16)), ret0()]);
    assert!(text.contains("[SEME1] break must be in loop or switch"));
}

#[test]
fn every_misplaced_break_is_reported() {
    let mut ids = Interner::new();
    let mut tys = new_ty_interner();
    let text = main_with(&mut ids, &mut tys, vec![Stmt::Break(at(13)), Stmt::Continue(at(14)), Stmt::Break(at(15)), ret0()]);
    assert_eq!(text.matches("[SEME1]").count(), 2);
    assert_eq!(text.matches("[SEME2]").count(), 1);
}

#[test]
fn a_missing_label_is_reported_once() {
    let mut ids = Interner::new();
    let mut tys = new_ty_interner();
    let x = ids.intern("x");
    let y = ids.intern("y");
    let body = vec![Stmt::Goto(ident(x, 13)), Stmt::Goto(ident(y, 14)), Stmt::Goto(ident(x, 15)), ret0()];
    let text = main_with(&mut ids, &mut tys, body);
    assert_eq!(text.matches("[SEME4]").count(), 2);
}

#[test]
fn an_undeclared_name_is_reported() {
    let mut ids = Interner::new();
    let mut tys = new_ty_interner();
    let x = ids.intern("x");
    let body = vec![Stmt::Return(Box::new(expr(ExprTy::Var(x), 20)))];
    let text = main_with(&mut ids, &mut tys, body);
    assert_eq!(text.matches("[SEME4]").count(), 1);
}

#[test]
fn a_local_declared_twice_in_one_scope_is_reported() {
    let mut ids = Interner::new();
    let mut tys = new_ty_interner();
    let t = types(&mut tys);
    let a = ids.intern("a");
    let decl = |start: usize| Stmt::Decl(Box::new(var(a, t.int, flags(false, false), Some(constant(1, start + 2)), start)));
    let body = vec![decl(13), Stmt::Block(vec![decl(15)]), decl(17), Stmt::Return(Box::new(expr(ExprTy::Var(a), 20)))];
    let text = main_with(&mut ids, &mut tys, body);
    assert_eq!(text.matches("[SEME0]").count(), 1);
    assert!(!text.contains("[SEME4]"));
}

#[test]
fn a_label_used_twice_is_reported_once() {
    let mut ids = Interner::new();
    let mut tys = new_ty_interner();
    let x = ids.intern("x");
    let first = Stmt::Labled(ident(x, 13), Box::new(Stmt::Nil));
    let second = Stmt::Labled(ident(x, 16), Box::new(ret0()));
    let text = main_with(&mut ids, &mut tys, vec![Stmt::Goto(ident(x, 11)), first, second]);
    assert_eq!(text.matches("[SEME0]").count(), 1);
    assert!(!text.contains("[SEME4]"));
}
