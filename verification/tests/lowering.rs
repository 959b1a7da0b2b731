use ccompiler::arena::Handle;
use ccompiler::compiler::ast::convert::Converter;
use ccompiler::compiler::ast::typed::{Expr, ExprTy, Function, Program, Stmt, SwitchCase, SwitchStmt};
use ccompiler::compiler::x86::{Label, Linkage};
use ccompiler::intern::Interner;

fn constant(n: i32) -> Box<Expr<'static>> {
    Box::new(Expr { expr: ExprTy::Constant(n), ty: Handle { index: 0 } })
}

#[test]
fn an_unmatched_switch_without_default_skips_its_body() {
    let mut ids = Interner::new();
    let main = ids.intern("main");
    let body = Stmt::Block(vec![Stmt::Labled(Label(0), Box::new(Stmt::Return(constant(5))))]);
    let switch = Stmt::Switch(Box::new(SwitchStmt {
        expr: constant(1),
        cases: vec![SwitchCase { val: 1, label: Label(0) }],
        default: None,
        body: Box::new(body),
    }));
    let function = Function {
        linkage: Linkage::Global,
        name: main,
        body: vec![switch, Stmt::Return(constant(0))],
        param_count: 0,
        local_count: 0,
    };
    let program = Program { labels: 1, functions: vec![function], globals: vec![] };
    let mut converter = Converter::new();
    let tacky = converter.convert(program);
    assert_eq!(
        tacky.to_text(),
        "Program [\n    fn main:\n        .tmp0 <- $1 == $1\n        jnz .tmp0 .L0\n        jmp .L1\n    .L0\n        ret $5\n    .L1\n        ret $0\n        ret $0\n    },\n]\n"
    );
}

fn constant_of(n: i32, ty: usize) -> Box<Expr<'static>> {
    Box::new(Expr { expr: ExprTy::Constant(n), ty: Handle { index: ty } })
}

fn loop_program(ids: &mut Interner<'static>, ty: usize) -> Program<'static> {
    let main = ids.intern("main");
    let looped = Stmt::While(constant_of(1, ty), Box::new(Stmt::Block(vec![Stmt::Continue, Stmt::Break])));
    let function = Function {
        linkage: Linkage::Global,
        name: main,
        body: vec![looped, Stmt::Return(constant_of(3, ty))],
        param_count: 0,
        local_count: 0,
    };
    Program { labels: 0, functions: vec![function], globals: vec![] }
}

#[test]
fn checked_programs_of_one_shape_lower_alike() {
    let mut ids = Interner::new();
    let a = Converter::new().convert(loop_program(&mut ids, 0)).to_text();
    let b = Converter::new().convert(loop_program(&mut ids, 7)).to_text();
    assert_eq!(a, b);
    assert!(a.contains("ret $3"));
}
