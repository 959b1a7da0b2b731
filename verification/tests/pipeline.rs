use ccompiler::compiler::{generate_tacky, generate_unit, pretty_ast};
use ccompiler::compiler::tacky::{BinaryOp, Inst, UnaryOp, Val};
use ccompiler::intern::Interner;
use std::collections::HashMap;

fn tacky_text(src: &str) -> String {
    let mut ids = Interner::new();
    match generate_tacky(src, "t.c".to_string(), &mut ids) {
        Ok(p) => p.to_text(),
        Err(e) => panic!("lowering failed: {}", e.to_string()),
    }
}

fn asm_text(src: &str) -> String {
    match generate_unit(src, "t.c".to_string()) {
        Ok(text) => text,
        Err(e) => panic!("compile failed: {}", e.to_string()),
    }
}

fn error_text(src: &str) -> String {
    match generate_unit(src, "t.c".to_string()) {
        Ok(text) => panic!("expected an error, got {text}"),
        Err(e) => e.to_string(),
    }
}

#[test]
fn return_constant_expression() {
    let out = asm_text("int main() { return 2 + 3 * 4; }");
    assert!(out.starts_with("    .globl main\nmain:\n    pushq %rbp\n    movq %rsp, %rbp\n    subq $"));
    assert!(out.contains("    imull "));
    assert!(out.contains("    ret\n"));
}

#[test]
fn asm_of_return_constant() {
    assert_eq!(
        asm_text("int main() { return 2; }"),
        "    .globl main\nmain:\n    pushq %rbp\n    movq %rsp, %rbp\n    subq $0, %rsp\n    movl $2, %eax\n    movq %rbp, %rsp\n    popq %rbp\n    ret\n    movl $0, %eax\n    movq %rbp, %rsp\n    popq %rbp\n    ret\n\n"
    );
}

#[test]
fn tacky_of_return_constant() {
    assert_eq!(
        tacky_text("int main() { return 2; }"),
        "Program [\n    fn main:\n        ret $2\n        ret $0\n    },\n]\n"
    );
}

#[test]
fn tacky_of_if_else() {
    assert_eq!(
        tacky_text("int main() { int a = 1; if (a) a = 2; else { a = 3; } return a; }"),
        "Program [\n    fn main:\n        .tmp0 <- $1\n        jz .tmp0 .L0\n        .tmp0 <- $2\n        jmp .L1\n    .L0\n        .tmp0 <- $3\n    .L1\n        ret .tmp0\n        ret $0\n    },\n]\n"
    );
}

#[test]
fn asm_of_if_else() {
    assert_eq!(
        asm_text("int main() { int a = 1; if (a) a = 2; else { a = 3; } return a; }"),
        "    .globl main\nmain:\n    pushq %rbp\n    movq %rsp, %rbp\n    subq $4, %rsp\n    movl $1, -4(%rsp)\n    cmpl $0, -4(%rsp)\n    je .L0\n    movl $2, -4(%rsp)\n    jmp .L1\n.L0:\n    movl $3, -4(%rsp)\n.L1:\n    movl -4(%rsp), %eax\n    movq %rbp, %rsp\n    popq %rbp\n    ret\n    movl $0, %eax\n    movq %rbp, %rsp\n    popq %rbp\n    ret\n\n"
    );
}

#[test]
fn tacky_of_compound_assignment_and_unary() {
    assert_eq!(
        tacky_text("int main() { int a = 5; a += 3; return -a * 2 - ~1; }"),
        "Program [\n    fn main:\n        .tmp0 <- $5\n        .tmp1 <- .tmp0 + $3\n        .tmp0 <- .tmp1\n        .tmp2 <- -(.tmp0)\n        .tmp3 <- .tmp2 * $2\n        .tmp4 <- ~($1)\n        .tmp5 <- .tmp3 - .tmp4\n        ret .tmp5\n        ret $0\n    },\n]\n"
    );
}

#[test]
fn asm_fixes_memory_operands() {
    assert_eq!(
        asm_text("int main() { int a = 5; a += 3; return -a * 2 - ~1; }"),
        "    .globl main\nmain:\n    pushq %rbp\n    movq %rsp, %rbp\n    subq $24, %rsp\n    movl $5, -4(%rsp)\n    movl -4(%rsp), %r10d\n    movl %r10d, -8(%rsp)\n    addl $3, -8(%rsp)\n    movl -8(%rsp), %r10d\n    movl %r10d, -4(%rsp)\n    movl -4(%rsp), %r10d\n    movl %r10d, -12(%rsp)\n    negl -12(%rsp)\n    movl -12(%rsp), %r10d\n    movl %r10d, -16(%rsp)\n    movl -16(%rsp), %r11d\n    imull $2, %r11d\n    movl %r11d, -16(%rsp)\n    movl $1, -20(%rsp)\n    notl -20(%rsp)\n    movl -16(%rsp), %r10d\n    movl %r10d, -24(%rsp)\n    movl -20(%rsp), %r10d\n    subl %r10d, -24(%rsp)\n    movl -24(%rsp), %eax\n    movq %rbp, %rsp\n    popq %rbp\n    ret\n    movl $0, %eax\n    movq %rbp, %rsp\n    popq %rbp\n    ret\n\n"
    );
}

#[test]
fn tacky_of_ternary_and_logical_and() {
    assert_eq!(
        tacky_text("int main() { int a = 5; return a > 2 ? !a : a && 0; }"),
        "Program [\n    fn main:\n        .tmp0 <- $5\n        .tmp2 <- .tmp0 > $2\n        jz .tmp2 .L0\n        .tmp3 <- !(.tmp0)\n        .tmp1 <- .tmp3\n        jmp .L1\n    .L0\n        jz .tmp0 .L2\n        jz $0 .L2\n        .tmp4 <- $1\n        jmp .L3\n    .L2\n        .tmp4 <- $0\n    .L3\n        .tmp1 <- .tmp4\n    .L1\n        ret .tmp1\n        ret $0\n    },\n]\n"
    );
}

#[test]
fn asm_of_comparison_uses_set() {
    let out = asm_text("int main() { int a = 5; return a > 2 ? !a : a && 0; }");
    assert!(out.contains("    cmpl $2, -4(%rsp)\n    movl $0, -8(%rsp)\n    setg -8(%rsp)\n"));
    assert!(out.contains("    movl $0, %r11d\n    cmpl $0, %r11d\n    je .L2\n"));
}

#[test]
fn break_is_not_a_statement_yet() {
    let text = error_text("int main() { break; }");
    assert!(text.contains("[STXE8] invalid expression"));
    assert!(text.contains("t.c:1:14"));
}

#[test]
fn missing_operand_is_a_syntax_error() {
    let text = error_text("int main() { return 1 +; }");
    assert!(text.contains("[STXE8] invalid expression"));
    assert!(text.contains("t.c:1:24"));
}

#[test]
fn undeclared_variable_is_reported() {
    let text = error_text("int main() { return b; }");
    assert!(text.contains("[SEME4] use of undeclared variable"));
    assert!(text.contains("t.c:1:21"));
}

#[test]
fn duplicate_declaration_is_reported() {
    let text = error_text("int main() { int a; int a; return 0; }");
    assert!(text.contains("[SEME0] duplicate declaration"));
    assert!(text.contains("t.c:1:25"));
}

#[test]
fn function_types_have_no_written_form() {
    match pretty_ast("int main() { return 2; }", "t.c".to_string()) {
        Ok(None) => {}
        Ok(Some(text)) => panic!("unexpected rendering {text}"),
        Err(e) => panic!("parse failed: {}", e.to_string()),
    }
}

/// Runs straight-line three-address code up to its first `ret`.
fn run_straight_line(insts: &[Inst<'_>]) -> i32 {
    let mut temps = HashMap::new();
    let val = |temps: &HashMap<usize, i32>, v: &Val<'_>| match v {
        Val::Const(c) => *c,
        Val::Temp(t) => temps[t],
        _ => panic!("not a plain value"),
    };
    for inst in insts {
        match inst {
            Inst::Ret(v) => return val(&temps, v),
            Inst::Copy { src, dst: Val::Temp(t) } => {
                let x = val(&temps, src);
                temps.insert(*t, x);
            }
            Inst::Unary { op, src, dst: Val::Temp(t) } => {
                let a = val(&temps, src);
                let x = match op {
                    UnaryOp::Compliment => !a,
                    UnaryOp::Negate => a.wrapping_neg(),
                    UnaryOp::Not => (a == 0) as i32,
                };
                temps.insert(*t, x);
            }
            Inst::Binary { op, lhs, rhs, dst: Val::Temp(t) } => {
                let (a, b) = (val(&temps, lhs), val(&temps, rhs));
                let x = match op {
                    BinaryOp::Add => a.wrapping_add(b),
                    BinaryOp::Sub => a.wrapping_sub(b),
                    BinaryOp::Mul => a.wrapping_mul(b),
                    BinaryOp::Div => a / b,
                    BinaryOp::Rem => a % b,
                    BinaryOp::L => (a < b) as i32,
                    BinaryOp::LE => (a <= b) as i32,
                    BinaryOp::G => (a > b) as i32,
                    BinaryOp::GE => (a >= b) as i32,
                    BinaryOp::E => (a == b) as i32,
                    BinaryOp::NE => (a != b) as i32,
                    BinaryOp::Shl => a << b,
                    BinaryOp::Sar => a >> b,
                    BinaryOp::BitAnd => a & b,
                    BinaryOp::BitOr => a | b,
                    BinaryOp::BitXor => a ^ b,
                };
                temps.insert(*t, x);
            }
            _ => panic!("not straight-line code"),
        }
    }
    panic!("no return")
}

#[test]
fn lowered_code_computes_the_value_of_its_expressions() {
    let src = "int main() { int a = 6; int b = a * 7 - 2; a += b % 9; b++; return (b << 1) - -a + (a < b) + !a; }";
    let mut ids = Interner::new();
    let program = match generate_tacky(src, "t.c".to_string(), &mut ids) {
        Ok(p) => p,
        Err(e) => panic!("lowering failed: {}", e.to_string()),
    };
    let a: i32 = 6 + (6 * 7 - 2) % 9;
    let b: i32 = 6 * 7 - 2 + 1;
    assert_eq!(run_straight_line(&program.functions[0].insts), (b << 1) + a + 1);
}

#[test]
fn a_source_in_the_grammar_parses() {
    match pretty_ast("int main() { int a = 1 - 2 * 3 - 4; { a = a ? 1 : 2; } if (a) return a; else ; return 0; }", "t.c".to_string()) {
        Ok(_) => {}
        Err(e) => panic!("parse failed: {}", e.to_string()),
    }
}

#[test]
fn each_function_reserves_its_own_frame() {
    let out = asm_text("int f() { return 1; } int main() { int a = 1; int b = 2; return a + b; }");
    assert!(out.contains("f:\n    pushq %rbp\n    movq %rsp, %rbp\n    subq $0, %rsp\n"));
    assert!(out.contains("main:\n    pushq %rbp\n    movq %rsp, %rbp\n    subq $12, %rsp\n"));
}

#[test]
fn a_name_declared_in_a_block_ends_with_it() {
    let shadowed = tacky_text("int main() { int a = 1; { int a = 2; } return a; }");
    let renamed = tacky_text("int main() { int a = 1; { int b = 2; } return a; }");
    assert_eq!(shadowed, renamed);
    let out = error_text("int main() { int a = 1; { int b = 2; } return b; }");
    assert!(out.contains("[SEME4]"));
}

#[test]
fn operands_of_different_types_are_reported() {
    let out = error_text("int main() { int a = 1; return a + main; }");
    assert_eq!(out.matches("[SEME5]").count(), 1);
}

#[test]
fn a_global_and_a_parameter_resolve_without_error() {
    let mut ids = Interner::new();
    let r = generate_tacky("int g; int f(int a) { return a + g; } int main() { return 0; }", "t.c".to_string(), &mut ids);
    match r {
        Ok(_) => {},
        Err(e) => assert!(!e.to_string().contains("[SEME4]")),
    }
}

#[test]
fn an_unclosed_block_is_a_syntax_error() {
    let text = error_text("int main() { return 0;");
    assert!(text.contains("[STXE10] unclosed delimiter"));
}
