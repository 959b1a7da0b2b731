use ccompiler::compiler::ast::{Declaration, ExprTy, Stmt};
use ccompiler::compiler::parser::Parser;
use ccompiler::compiler::ty::{built_in_types, new_ty_interner};
use ccompiler::intern::Interner;

#[test]
fn the_right_side_of_an_assignment_is_a_conditional() {
    let src = "int main() { int a = 0; int b = 1; a = b ? 2 : 3; return a; }";
    let mut ids = Interner::new();
    let mut tys = new_ty_interner();
    let types = built_in_types(&mut ids, &mut tys);
    let parser = Parser::new(src, &mut ids, &mut tys, types);
    let program = match parser.parse("t.c".to_string()) {
        Ok(p) => p,
        Err(e) => panic!("parse failed: {}", e.to_string()),
    };
    let body = match &program.items[0] {
        Declaration::Fn(f) => f.body.as_ref().unwrap(),
        _ => panic!("expected a function"),
    };
    match &body[2] {
        Stmt::Expr(e) => match &e.expr {
            ExprTy::Assign(_, lhs, rhs) => {
                assert!(matches!(lhs.expr, ExprTy::Var(_)));
                assert!(matches!(rhs.expr, ExprTy::Ternary(_, _, _)));
            },
            _ => panic!("expected an assignment"),
        },
        _ => panic!("expected an expression statement"),
    }
}
