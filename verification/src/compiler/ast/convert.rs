//! Lowering of the checked tree to three-address code. Counters of
//! temporaries and labels wrap at their type's maximum.
use vstd::prelude::*;

use crate::compiler::ast::typed::{
    self, expr_size, expr_supported, opt_expr_supported, stmt_supported, Expr, ExprTy, Stmt,
};
use crate::compiler::ast::{AssignOp, BinaryOp, UnaryOp};
use crate::compiler::tacky::{self, insts_plain_from, inst_plain, val_plain, Inst, Val};
use crate::compiler::x86::Label;

verus! {

/// `before` is a prefix of `after`.
pub open spec fn extends<'src>(before: Seq<Inst<'src>>, after: Seq<Inst<'src>>) -> bool {
    before.len() <= after.len() && forall|i: int| 0 <= i < before.len() ==> #[trigger] after[i] == before[i]
}

pub proof fn lemma_extends_trans<'src>(a: Seq<Inst<'src>>, b: Seq<Inst<'src>>, c: Seq<Inst<'src>>)
    requires
        extends(a, b),
        extends(b, c),
    ensures
        extends(a, c),
{
    assert forall|i: int| 0 <= i < a.len() implies #[trigger] c[i] == a[i] by {
        assert(c[i] == b[i]);
    }
}

/// Plain instructions from `k` on stay plain when more plain ones follow.
pub proof fn lemma_plain_trans<'src>(a: Seq<Inst<'src>>, b: Seq<Inst<'src>>, k: int)
    requires
        extends(a, b),
        insts_plain_from(a, k),
        insts_plain_from(b, a.len() as int),
        0 <= k <= a.len(),
    ensures
        insts_plain_from(b, k),
{
    assert forall|i: int| k <= i < b.len() implies inst_plain(#[trigger] b[i]) by {
        if i < a.len() {
            assert(b[i] == a[i]);
        }
    }
}

/// One more step of lowering: `c` extends `b` which extends `a`, and when
/// `plain` holds each step added only plain instructions.
pub proof fn lemma_step<'src>(a: Seq<Inst<'src>>, b: Seq<Inst<'src>>, c: Seq<Inst<'src>>, plain: bool)
    requires
        extends(a, b),
        extends(b, c),
        plain ==> insts_plain_from(b, a.len() as int),
        plain ==> insts_plain_from(c, b.len() as int),
    ensures
        extends(a, c),
        plain ==> insts_plain_from(c, a.len() as int),
{
    lemma_extends_trans(a, b, c);
    if plain {
        assert forall|i: int| a.len() <= i < c.len() implies inst_plain(#[trigger] c[i]) by {
            if i < b.len() {
                assert(c[i] == b[i]);
            }
        }
    }
}

/// The tacky operator for a binary operator other than `&&` and `||`.
pub open spec fn spec_binary_op(op: BinaryOp) -> tacky::BinaryOp {
    match op {
        BinaryOp::Div => tacky::BinaryOp::Div,
        BinaryOp::Mul => tacky::BinaryOp::Mul,
        BinaryOp::Rem => tacky::BinaryOp::Rem,
        BinaryOp::Add => tacky::BinaryOp::Add,
        BinaryOp::Sub => tacky::BinaryOp::Sub,
        BinaryOp::G => tacky::BinaryOp::G,
        BinaryOp::GE => tacky::BinaryOp::GE,
        BinaryOp::L => tacky::BinaryOp::L,
        BinaryOp::LE => tacky::BinaryOp::LE,
        BinaryOp::E => tacky::BinaryOp::E,
        BinaryOp::NE => tacky::BinaryOp::NE,
        BinaryOp::Shl => tacky::BinaryOp::Shl,
        BinaryOp::Shr => tacky::BinaryOp::Sar,
        BinaryOp::BitAnd => tacky::BinaryOp::BitAnd,
        BinaryOp::BitOr => tacky::BinaryOp::BitOr,
        BinaryOp::BitXor => tacky::BinaryOp::BitXor,
        _ => tacky::BinaryOp::Add,
    }
}

fn binary_op(op: BinaryOp) -> (r: tacky::BinaryOp)
    ensures
        r == spec_binary_op(op),
{
    match op {
        BinaryOp::Div => tacky::BinaryOp::Div,
        BinaryOp::Mul => tacky::BinaryOp::Mul,
        BinaryOp::Rem => tacky::BinaryOp::Rem,
        BinaryOp::Add => tacky::BinaryOp::Add,
        BinaryOp::Sub => tacky::BinaryOp::Sub,
        BinaryOp::G => tacky::BinaryOp::G,
        BinaryOp::GE => tacky::BinaryOp::GE,
        BinaryOp::L => tacky::BinaryOp::L,
        BinaryOp::LE => tacky::BinaryOp::LE,
        BinaryOp::E => tacky::BinaryOp::E,
        BinaryOp::NE => tacky::BinaryOp::NE,
        BinaryOp::Shl => tacky::BinaryOp::Shl,
        BinaryOp::Shr => tacky::BinaryOp::Sar,
        BinaryOp::BitAnd => tacky::BinaryOp::BitAnd,
        BinaryOp::BitOr => tacky::BinaryOp::BitOr,
        BinaryOp::BitXor => tacky::BinaryOp::BitXor,
        _ => tacky::BinaryOp::Add,
    }
}

/// The tacky operator of a compound assignment (`=` has none).
pub open spec fn spec_assign_op(op: AssignOp) -> Option<tacky::BinaryOp> {
    match op {
        AssignOp::Div => Some(tacky::BinaryOp::Div),
        AssignOp::Mul => Some(tacky::BinaryOp::Mul),
        AssignOp::Rem => Some(tacky::BinaryOp::Rem),
        AssignOp::Add => Some(tacky::BinaryOp::Add),
        AssignOp::Sub => Some(tacky::BinaryOp::Sub),
        AssignOp::Shl => Some(tacky::BinaryOp::Shl),
        AssignOp::Shr => Some(tacky::BinaryOp::Sar),
        AssignOp::And => Some(tacky::BinaryOp::BitAnd),
        AssignOp::Or => Some(tacky::BinaryOp::BitOr),
        AssignOp::Xor => Some(tacky::BinaryOp::BitXor),
        AssignOp::Eq => None,
    }
}

fn assign_op(op: AssignOp) -> (r: Option<tacky::BinaryOp>)
    ensures
        r == spec_assign_op(op),
{
    match op {
        AssignOp::Div => Some(tacky::BinaryOp::Div),
        AssignOp::Mul => Some(tacky::BinaryOp::Mul),
        AssignOp::Rem => Some(tacky::BinaryOp::Rem),
        AssignOp::Add => Some(tacky::BinaryOp::Add),
        AssignOp::Sub => Some(tacky::BinaryOp::Sub),
        AssignOp::Shl => Some(tacky::BinaryOp::Shl),
        AssignOp::Shr => Some(tacky::BinaryOp::Sar),
        AssignOp::And => Some(tacky::BinaryOp::BitAnd),
        AssignOp::Or => Some(tacky::BinaryOp::BitOr),
        AssignOp::Xor => Some(tacky::BinaryOp::BitXor),
        AssignOp::Eq => None,
    }
}

/// The counters and jump targets of the lowering: the next temporary, the
/// next label, the next local, and where `break` and `continue` go.
pub struct LowerState {
    pub temps: usize,
    pub labels: u32,
    pub locals: usize,
    pub brk: Label,
    pub cont: Label,
}

/// One temporary taken.
pub open spec fn with_temp(st: LowerState) -> LowerState {
    LowerState { temps: st.temps.wrapping_add(1), labels: st.labels, locals: st.locals, brk: st.brk, cont: st.cont }
}

/// One label taken.
pub open spec fn with_label(st: LowerState) -> LowerState {
    LowerState { temps: st.temps, labels: st.labels.wrapping_add(1), locals: st.locals, brk: st.brk, cont: st.cont }
}

/// One local taken.
pub open spec fn with_local(st: LowerState) -> LowerState {
    LowerState { temps: st.temps, labels: st.labels, locals: st.locals.wrapping_add(1), brk: st.brk, cont: st.cont }
}

/// The jump of `&&` (taken on zero) or `||` (taken on non-zero) to the
/// label that settles the result early.
pub open spec fn short_jump<'src>(is_and: bool, v: Val<'src>, l: Label) -> Inst<'src> {
    if is_and {
        Inst::JumpIfZero(v, l)
    } else {
        Inst::JumpIfNotZero(v, l)
    }
}

/// The tacky operator of `~`, `-` or `!`.
pub open spec fn spec_unary_op(op: UnaryOp) -> tacky::UnaryOp {
    match op {
        UnaryOp::Compliment => tacky::UnaryOp::Compliment,
        UnaryOp::Negate => tacky::UnaryOp::Negate,
        _ => tacky::UnaryOp::Not,
    }
}

/// The code of an expression, the value that holds its result, and the
/// state after it. A constant, a local or a global name is its own value and
/// needs no code.
pub open spec fn lower_expr<'src>(e: Expr<'src>, st: LowerState) -> (Seq<Inst<'src>>, Val<'src>, LowerState)
    decreases expr_size(e), 3int,
{
    match e.expr {
        ExprTy::Ternary(c, a, b) => lower_ternary(*c, *a, *b, st),
        ExprTy::Assign(op, l, r) => lower_assign(op, *l, *r, st),
        ExprTy::Binary(op, l, r) => lower_binary(op, *l, *r, st),
        ExprTy::Unary(op, a) => lower_unary(op, *a, st),
        ExprTy::DecInc(op, a) => lower_dec_inc(op, *a, st),
        ExprTy::GlobalLoad(name) => (Seq::empty(), Val::GlobalVar(name), st),
        ExprTy::Local(id) => (Seq::empty(), Val::Temp(id as usize), st),
        ExprTy::Constant(imm) => (Seq::empty(), Val::Const(imm), st),
        _ => (Seq::empty(), Val::Const(0), st),
    }
}

/// `c ? a : b`: a fresh temporary receives the value of the branch taken.
pub open spec fn lower_ternary<'src>(c: Expr<'src>, a: Expr<'src>, b: Expr<'src>, st: LowerState) -> (Seq<Inst<'src>>, Val<'src>, LowerState)
    decreases expr_size(c) + expr_size(a) + expr_size(b), 1int,
{
    let dst = Val::Temp(st.temps);
    let (cc, vc, s1) = lower_expr(c, with_temp(st));
    let else_label = Label(s1.labels);
    let (ca, va, s2) = lower_expr(a, with_label(s1));
    let end_label = Label(s2.labels);
    let (cb, vb, s3) = lower_expr(b, with_label(s2));
    (cc + seq![Inst::JumpIfZero(vc, else_label)] + ca + seq![
        Inst::Copy { src: va, dst },
        Inst::Jump(end_label),
        Inst::Label(else_label),
    ] + cb + seq![Inst::Copy { src: vb, dst }, Inst::Label(end_label)], dst, s3)
}

/// `l op= r`: the right side first, then the target; a compound assignment
/// computes into a fresh temporary, which is the result.
pub open spec fn lower_assign<'src>(op: AssignOp, l: Expr<'src>, r: Expr<'src>, st: LowerState) -> (Seq<Inst<'src>>, Val<'src>, LowerState)
    decreases expr_size(l) + expr_size(r), 1int,
{
    let (cr, vr, s1) = lower_expr(r, st);
    let (cl, vl, s2) = lower_expr(l, s1);
    match spec_assign_op(op) {
        None => (cr + cl + seq![Inst::Copy { src: vr, dst: vl }], vl, s2),
        Some(bop) => {
            let dst = Val::Temp(s2.temps);
            (cr + cl + seq![Inst::Binary { op: bop, lhs: vl, rhs: vr, dst }, Inst::Copy { src: dst, dst: vl }], dst, with_temp(s2))
        },
    }
}

/// `l op r`: both sides, then the operation into a fresh temporary; `&&`
/// and `||` skip the right side when the left one settles the result, and
/// give 0 or 1.
pub open spec fn lower_binary<'src>(op: BinaryOp, l: Expr<'src>, r: Expr<'src>, st: LowerState) -> (Seq<Inst<'src>>, Val<'src>, LowerState)
    decreases expr_size(l) + expr_size(r), 1int,
{
    if op == BinaryOp::And || op == BinaryOp::Or {
        let is_and = op == BinaryOp::And;
        let (cl, vl, s1) = lower_expr(l, st);
        let short = Label(s1.labels);
        let (cr, vr, s2) = lower_expr(r, with_label(s1));
        let dst = Val::Temp(s2.temps);
        let s3 = with_temp(s2);
        let end_label = Label(s3.labels);
        let fall: i32 = if is_and { 1 } else { 0 };
        let settled: i32 = if is_and { 0 } else { 1 };
        (cl + seq![short_jump(is_and, vl, short)] + cr + seq![
            short_jump(is_and, vr, short),
            Inst::Copy { src: Val::Const(fall), dst },
            Inst::Jump(end_label),
            Inst::Label(short),
            Inst::Copy { src: Val::Const(settled), dst },
            Inst::Label(end_label),
        ], dst, with_label(s3))
    } else {
        let (cl, vl, s1) = lower_expr(l, st);
        let (cr, vr, s2) = lower_expr(r, s1);
        let dst = Val::Temp(s2.temps);
        (cl + cr + seq![Inst::Binary { op: spec_binary_op(op), lhs: vl, rhs: vr, dst }], dst, with_temp(s2))
    }
}

/// A prefix operator: `++x` and `--x` are `x += 1` and `x -= 1`, `+x` is
/// `x`, and `~`, `-`, `!` compute into a fresh temporary.
pub open spec fn lower_unary<'src>(op: UnaryOp, a: Expr<'src>, st: LowerState) -> (Seq<Inst<'src>>, Val<'src>, LowerState)
    decreases expr_size(a) + 1, 2int,
{
    let one = Expr { expr: ExprTy::Constant(1), ty: a.ty };
    match op {
        UnaryOp::Decrement => lower_assign(AssignOp::Sub, a, one, st),
        UnaryOp::Increment => lower_assign(AssignOp::Add, a, one, st),
        UnaryOp::Plus => lower_expr(a, st),
        _ => {
            let (c, v, s1) = lower_expr(a, st);
            let dst = Val::Temp(s1.temps);
            (c + seq![Inst::Unary { op: spec_unary_op(op), src: v, dst }], dst, with_temp(s1))
        },
    }
}

/// A postfix `++` or `--`: a fresh temporary keeps the old value, which is
/// the result, and the operand is then updated.
pub open spec fn lower_dec_inc<'src>(op: UnaryOp, a: Expr<'src>, st: LowerState) -> (Seq<Inst<'src>>, Val<'src>, LowerState)
    decreases expr_size(a) + 1, 2int,
{
    let (c, v, s1) = lower_expr(a, st);
    let dst = Val::Temp(s1.temps);
    let bop = if op == UnaryOp::Decrement { tacky::BinaryOp::Sub } else { tacky::BinaryOp::Add };
    (c + seq![Inst::Copy { src: v, dst }, Inst::Binary { op: bop, lhs: v, rhs: Val::Const(1), dst: v }], dst, with_temp(s1))
}

/// A fresh label taken as the target of `break`.
pub open spec fn with_break(st: LowerState) -> LowerState {
    LowerState { temps: st.temps, labels: st.labels.wrapping_add(1), locals: st.locals, brk: Label(st.labels), cont: st.cont }
}

/// A fresh label taken as the target of `continue`.
pub open spec fn with_continue(st: LowerState) -> LowerState {
    LowerState { temps: st.temps, labels: st.labels.wrapping_add(1), locals: st.locals, brk: st.brk, cont: Label(st.labels) }
}

/// The counters of `st` with the jump targets of `outer`.
pub open spec fn restore_targets(st: LowerState, outer: LowerState) -> LowerState {
    LowerState { temps: st.temps, labels: st.labels, locals: st.locals, brk: outer.brk, cont: outer.cont }
}

/// The comparisons of a `switch` value `v` with each case value, each into
/// a fresh temporary, jumping to the case's label on a match.
pub open spec fn lower_cases<'src>(cases: Seq<typed::SwitchCase>, v: Val<'src>, st: LowerState) -> (Seq<Inst<'src>>, LowerState)
    decreases cases.len(),
{
    if cases.len() == 0 {
        (Seq::empty(), st)
    } else {
        let (c, s1) = lower_cases(cases.drop_last(), v, st);
        let dst = Val::Temp(s1.temps);
        (c + seq![
            Inst::Binary { op: tacky::BinaryOp::E, lhs: v, rhs: Val::Const(cases.last().val), dst },
            Inst::JumpIfNotZero(dst, cases.last().label),
        ], with_temp(s1))
    }
}

/// The code of the statements, one after the other.
pub open spec fn lower_stmts<'src>(ss: Seq<Stmt<'src>>, st: LowerState) -> (Seq<Inst<'src>>, LowerState)
    decreases ss,
{
    if ss.len() == 0 {
        (Seq::empty(), st)
    } else {
        let (c1, s1) = lower_stmt(ss[0], st);
        let (c2, s2) = lower_stmts(ss.subrange(1, ss.len() as int), s1);
        (c1 + c2, s2)
    }
}

/// The code of a statement and the state after it. Loops and `switch`
/// take fresh labels for `break` and `continue` and give the outer ones back
/// at their end.
pub open spec fn lower_stmt<'src>(s: Stmt<'src>, st: LowerState) -> (Seq<Inst<'src>>, LowerState)
    decreases s,
{
    match s {
        Stmt::Block(v) => lower_stmts(v@, st),
        Stmt::Break => (seq![Inst::Jump(st.brk)], st),
        Stmt::Continue => (seq![Inst::Jump(st.cont)], st),
        Stmt::Decl(init) => {
            let local = Val::Temp(st.locals);
            match init {
                Some(e) => {
                    let (c, v, s1) = lower_expr(*e, with_local(st));
                    (c + seq![Inst::Copy { src: v, dst: local }], s1)
                },
                None => (Seq::empty(), with_local(st)),
            }
        },
        Stmt::Do(body, cond) => {
            let s1 = with_break(st);
            let s2 = with_continue(s1);
            let start_label = Label(s2.labels);
            let (cb, s3) = lower_stmt(*body, with_label(s2));
            let (cc, vc, s4) = lower_expr(*cond, s3);
            (seq![Inst::Label(start_label)] + cb + seq![Inst::Label(s2.cont)] + cc + seq![
                Inst::JumpIfNotZero(vc, start_label),
                Inst::Label(s1.brk),
            ], restore_targets(s4, st))
        },
        Stmt::Expr(e) => {
            let (c, _, s1) = lower_expr(*e, st);
            (c, s1)
        },
        Stmt::For(f) => {
            let s1 = with_break(st);
            let s2 = with_continue(s1);
            let (ci, s3) = match f.init {
                Some(i) => lower_stmt(*i, s2),
                None => (Seq::empty(), s2),
            };
            let start_label = Label(s3.labels);
            let (cc, s4) = match f.condition {
                Some(c) => {
                    let (cc, vc, s) = lower_expr(*c, with_label(s3));
                    (cc + seq![Inst::JumpIfZero(vc, s1.brk)], s)
                },
                None => (Seq::empty(), with_label(s3)),
            };
            let (cb, s5) = lower_stmt(*f.body, s4);
            let (cn, s6) = match f.increment {
                Some(e) => {
                    let (cn, _, s) = lower_expr(*e, s5);
                    (cn, s)
                },
                None => (Seq::empty(), s5),
            };
            (ci + seq![Inst::Label(start_label)] + cc + cb + seq![Inst::Label(s2.cont)] + cn + seq![
                Inst::Jump(start_label),
                Inst::Label(s1.brk),
            ], restore_targets(s6, st))
        },
        Stmt::Goto(l) => (seq![Inst::Jump(l)], st),
        Stmt::If(c, t, e) => {
            let (cc, vc, s1) = lower_expr(*c, st);
            let else_label = Label(s1.labels);
            let (ct, s2) = lower_stmt(*t, with_label(s1));
            match e {
                Some(e) => {
                    let end_label = Label(s2.labels);
                    let (ce, s3) = lower_stmt(*e, with_label(s2));
                    (cc + seq![Inst::JumpIfZero(vc, else_label)] + ct + seq![Inst::Jump(end_label), Inst::Label(else_label)]
                        + ce + seq![Inst::Label(end_label)], s3)
                },
                None => (cc + seq![Inst::JumpIfZero(vc, else_label)] + ct + seq![Inst::Label(else_label)], s2),
            }
        },
        Stmt::Labled(l, b) => {
            let (cb, s1) = lower_stmt(*b, st);
            (seq![Inst::Label(l)] + cb, s1)
        },
        Stmt::Nil => (Seq::empty(), st),
        Stmt::Return(e) => {
            let (c, v, s1) = lower_expr(*e, st);
            (c + seq![Inst::Ret(v)], s1)
        },
        Stmt::Switch(sw) => {
            let s1 = with_break(st);
            let (ce, v, s2) = lower_expr(*sw.expr, s1);
            let (cs, s3) = lower_cases(sw.cases@, v, s2);
            let cd = match sw.default {
                Some(l) => seq![Inst::Jump(l)],
                None => seq![Inst::Jump(s1.brk)],
            };
            let (cb, s4) = lower_stmt(*sw.body, s3);
            (ce + cs + cd + cb + seq![Inst::Label(s1.brk)], LowerState { temps: s4.temps, labels: s4.labels, locals: s4.locals, brk: st.brk, cont: s4.cont })
        },
        Stmt::While(c, b) => {
            let brk = Label(st.labels);
            let cont = Label(st.labels.wrapping_add(1));
            let s1 = LowerState {
                temps: st.temps,
                labels: st.labels.wrapping_add(1).wrapping_add(1),
                locals: st.locals,
                brk,
                cont,
            };
            let (cc, vc, s2) = lower_expr(*c, s1);
            let (cb, s3) = lower_stmt(*b, s2);
            (seq![Inst::Label(cont)] + cc + seq![Inst::JumpIfZero(vc, brk)] + cb + seq![Inst::Jump(cont), Inst::Label(brk)], restore_targets(s3, st))
        },
    }
}

/// The state a function starts from: temporaries numbered after its
/// locals, locals from 0, labels and jump targets carried on.
pub open spec fn fn_start(f: typed::Function, st: LowerState) -> LowerState {
    LowerState { temps: f.local_count as usize, labels: st.labels, locals: 0, brk: st.brk, cont: st.cont }
}

/// The code of a function: its statements, then a `return 0` for control
/// that reaches its end.
pub open spec fn lower_function<'src>(f: typed::Function<'src>, st: LowerState) -> (Seq<Inst<'src>>, LowerState) {
    let (c, s1) = lower_stmts(f.body@, fn_start(f, st));
    (c.push(Inst::Ret(Val::Const(0))), s1)
}

/// The code of each function, labels numbered on from one function to the
/// next.
pub open spec fn lower_functions<'src>(fs: Seq<typed::Function<'src>>, st: LowerState) -> (Seq<Seq<Inst<'src>>>, LowerState)
    decreases fs.len(),
{
    if fs.len() == 0 {
        (Seq::empty(), st)
    } else {
        let (cs, s1) = lower_functions(fs.drop_last(), st);
        let (c, s2) = lower_function(fs.last(), s1);
        (cs.push(c), s2)
    }
}

/// The state of a new lowering: every counter at 0, and `break` and
/// `continue` aimed at the last label.
pub open spec fn initial_state() -> LowerState {
    LowerState { temps: 0, labels: 0, locals: 0, brk: Label(u32::MAX), cont: Label(u32::MAX) }
}

/// The state a program starts from: labels after those the checker gave
/// out.
pub open spec fn program_start(st: LowerState, labels: u32) -> LowerState {
    LowerState { temps: st.temps, labels, locals: st.locals, brk: st.brk, cont: st.cont }
}

/// Lowers the checked tree of a program to three-address code.
pub struct Converter {
    temp_count: usize,
    label_count: u32,
    curr_local: usize,
    break_label: Label,
    continue_label: Label,
}

impl Converter {
    /// The target of `break` here.
    pub closed spec fn break_target(&self) -> Label {
        self.break_label
    }

    /// The target of `continue` here.
    pub closed spec fn continue_target(&self) -> Label {
        self.continue_label
    }

    /// The counters and jump targets.
    pub closed spec fn state(&self) -> LowerState {
        LowerState {
            temps: self.temp_count,
            labels: self.label_count,
            locals: self.curr_local,
            brk: self.break_label,
            cont: self.continue_label,
        }
    }

    /// The jump targets of `break` and `continue` are as in `old`.
    pub open spec fn targets_kept(&self, old: Self) -> bool {
        self.break_target() == old.break_target() && self.continue_target() == old.continue_target()
    }

    pub fn new() -> (r: Self)
        ensures
            r.break_target() == Label(u32::MAX),
            r.continue_target() == Label(u32::MAX),
            r.state() == initial_state(),
    {
        Converter {
            temp_count: 0,
            label_count: 0,
            curr_local: 0,
            break_label: Label(u32::MAX),
            continue_label: Label(u32::MAX),
        }
    }

    /// Lowers a program: its variables are kept, and every function ends
    /// with a `return 0` for control that reaches its end. A program with
    /// no global names gives only plain instructions.
    pub fn convert<'src>(&mut self, program: typed::Program<'src>) -> (r: tacky::Program<'src>)
        requires
            typed::program_supported(program, true),
        ensures
            r.functions@.len() == program.functions@.len(),
            r.globals@.len() == program.globals@.len(),
            forall|i: int| 0 <= i < r.functions@.len() ==> {
                let f = #[trigger] r.functions@[i];
                &&& f.name == program.functions@[i].name
                &&& f.insts@.len() > 0
                &&& f.insts@.last() == Inst::Ret(Val::Const(0))
            },
            forall|i: int| 0 <= i < r.globals@.len() ==> {
                let g = #[trigger] r.globals@[i];
                &&& g.name == program.globals@[i].name
                &&& g.generation == program.globals@[i].generation
                &&& g.def == program.globals@[i].def
            },
            typed::program_supported(program, false) ==> tacky::program_plain(r),
            forall|i: int| 0 <= i < r.functions@.len() ==> (#[trigger] r.functions@[i]).insts@ == lower_functions(
                program.functions@,
                program_start(old(self).state(), program.labels),
            ).0[i],
    {
        let ghost st0 = program_start(old(self).state(), program.labels);
        self.reset_for_program(program.labels);
        let typed::Program { functions, globals, .. } = program;
        let mut out_globals: Vec<tacky::GlobalVar<'src>> = Vec::new();
        let mut i: usize = 0;
        while i < globals.len()
            invariant
                i <= globals@.len(),
                out_globals@.len() == i,
                forall|k: int| 0 <= k < i ==> {
                    let g = #[trigger] out_globals@[k];
                    &&& g.name == globals@[k].name
                    &&& g.generation == globals@[k].generation
                    &&& g.def == globals@[k].def
                },
            decreases globals@.len() - i,
        {
            out_globals.push(self.global(globals[i]));
            i += 1;
        }
        let ghost fs = functions@;
        let mut rest = functions;
        let mut out_functions: Vec<tacky::Function<'src>> = Vec::new();
        let mut k: usize = 0;
        proof {
            assert(fs.len() == rest.len());
            assert(rest@ =~= fs.subrange(0, fs.len() as int));
        }
        while rest.len() > 0
            invariant
                fs.len() <= usize::MAX,
                k + rest@.len() == fs.len(),
                rest@ == fs.subrange(k as int, fs.len() as int),
                out_functions@.len() == k,
                forall|m: int| 0 <= m < fs.len() ==> forall|j: int|
                    0 <= j < (#[trigger] fs[m]).body@.len() ==> stmt_supported(#[trigger] fs[m].body@[j], true),
                typed::program_supported(program, false) ==> forall|m: int| 0 <= m < fs.len() ==> forall|j: int|
                    0 <= j < (#[trigger] fs[m]).body@.len() ==> stmt_supported(#[trigger] fs[m].body@[j], false),
                fs == program.functions@,
                forall|m: int| 0 <= m < k ==> {
                    let f = #[trigger] out_functions@[m];
                    &&& f.name == fs[m].name
                    &&& f.insts@.len() > 0
                    &&& f.insts@.last() == Inst::Ret(Val::Const(0))
                    &&& typed::program_supported(program, false) ==> insts_plain_from(f.insts@, 0)
                },
                lower_functions(fs.take(k as int), st0).0.len() == k,
                forall|m: int| 0 <= m < k ==> (#[trigger] out_functions@[m]).insts@ == lower_functions(fs.take(k as int), st0).0[m],
                self.state() == lower_functions(fs.take(k as int), st0).1,
            decreases rest@.len(),
        {
            let f = rest.remove(0);
            proof {
                assert(f == fs[k as int]);
                assert(rest@ =~= fs.subrange(k + 1, fs.len() as int));
                assert(fs.take(k + 1).drop_last() =~= fs.take(k as int));
            }
            let tf = self.function(f);
            out_functions.push(tf);
            k += 1;
        }
        proof {
            assert(fs.take(k as int) =~= fs);
        }
        tacky::Program { functions: out_functions, globals: out_globals }
    }

    fn reset_for_program(&mut self, labels: u32)
        ensures
            final(self).label_count == labels,
            final(self).targets_kept(*old(self)),
            final(self).state() == program_start(old(self).state(), labels),
    {
        self.label_count = labels;
    }

    fn reset_for_fn(&mut self, local_count: u32)
        ensures
            final(self).temp_count == local_count,
            final(self).curr_local == 0,
            final(self).targets_kept(*old(self)),
            final(self).state() == (LowerState {
                temps: local_count as usize,
                labels: old(self).state().labels,
                locals: 0,
                brk: old(self).state().brk,
                cont: old(self).state().cont,
            }),
    {
        self.temp_count = local_count as usize;
        self.curr_local = 0;
    }

    /// The next local, in order of declaration.
    fn new_local<'src>(&mut self) -> (r: Val<'src>)
        ensures
            r == Val::<'src>::Temp(old(self).curr_local),
            final(self).targets_kept(*old(self)),
            final(self).label_count == old(self).label_count,
            r == Val::<'src>::Temp(old(self).state().locals),
            final(self).state() == with_local(old(self).state()),
    {
        let local = self.curr_local;
        self.curr_local = self.curr_local.wrapping_add(1);
        Val::Temp(local)
    }

    /// A fresh temporary, numbered after the locals.
    fn new_temp<'src>(&mut self) -> (r: Val<'src>)
        ensures
            r == Val::<'src>::Temp(old(self).temp_count),
            final(self).targets_kept(*old(self)),
            final(self).label_count == old(self).label_count,
            r == Val::<'src>::Temp(old(self).state().temps),
            final(self).state() == with_temp(old(self).state()),
    {
        let temp = self.temp_count;
        self.temp_count = self.temp_count.wrapping_add(1);
        Val::Temp(temp)
    }

    /// A fresh label.
    fn new_label(&mut self) -> (r: Label)
        ensures
            r == Label(old(self).label_count),
            final(self).label_count == old(self).label_count.wrapping_add(1),
            final(self).targets_kept(*old(self)),
            r == Label(old(self).state().labels),
            final(self).state() == with_label(old(self).state()),
    {
        let label = self.label_count;
        self.label_count = self.label_count.wrapping_add(1);
        Label(label)
    }

    /// Makes a fresh label the target of `break`; gives the old target.
    fn new_break_label(&mut self) -> (r: Label)
        ensures
            r == old(self).break_target(),
            final(self).break_target() == Label(old(self).label_count),
            final(self).continue_target() == old(self).continue_target(),
            final(self).state() == with_break(old(self).state()),
    {
        let break_label = self.new_label();
        let old = self.break_label;
        self.break_label = break_label;
        old
    }

    /// Makes a fresh label the target of `continue`; gives the old target.
    fn new_continue_label(&mut self) -> (r: Label)
        ensures
            r == old(self).continue_target(),
            final(self).continue_target() == Label(old(self).label_count),
            final(self).break_target() == old(self).break_target(),
            final(self).state() == with_continue(old(self).state()),
    {
        let continue_label = self.new_label();
        let old = self.continue_label;
        self.continue_label = continue_label;
        old
    }

    fn global<'src>(&self, global: typed::GlobalVar<'src>) -> (r: tacky::GlobalVar<'src>)
        ensures
            r.name == global.name,
            r.generation == global.generation,
            r.def == global.def,
    {
        tacky::GlobalVar { name: global.name, generation: global.generation, def: global.def }
    }

    /// Lowers a function: its statements, then a `return 0`.
    fn function<'src>(&mut self, fun: typed::Function<'src>) -> (r: tacky::Function<'src>)
        requires
            forall|j: int| 0 <= j < fun.body@.len() ==> stmt_supported(#[trigger] fun.body@[j], true),
        ensures
            r.name == fun.name,
            r.insts@.len() > 0,
            r.insts@.last() == Inst::Ret(Val::Const(0)),
            (forall|j: int| 0 <= j < fun.body@.len() ==> stmt_supported(#[trigger] fun.body@[j], false)) ==> insts_plain_from(r.insts@, 0),
            final(self).targets_kept(*old(self)),
            r.insts@ == lower_function(fun, old(self).state()).0,
            final(self).state() == lower_function(fun, old(self).state()).1,
    {
        let ghost f0 = fun;
        let typed::Function { name, body, local_count, .. } = fun;
        self.reset_for_fn(local_count);
        let mut insts: Vec<Inst<'src>> = Vec::new();
        let ghost orig = body@;
        let ghost plain = forall|j: int| 0 <= j < orig.len() ==> stmt_supported(#[trigger] orig[j], false);
        let mut rest = body;
        let mut k: usize = 0;
        proof {
            assert(orig.len() == rest.len());
            assert(rest@ =~= orig.subrange(0, orig.len() as int));
        }
        while rest.len() > 0
            invariant
                orig.len() <= usize::MAX,
                k + rest@.len() == orig.len(),
                rest@ == orig.subrange(k as int, orig.len() as int),
                forall|j: int| 0 <= j < orig.len() ==> stmt_supported(#[trigger] orig[j], true),
                plain == forall|j: int| 0 <= j < orig.len() ==> stmt_supported(#[trigger] orig[j], false),
                plain ==> insts_plain_from(insts@, 0),
                self.targets_kept(*old(self)),
                lower_stmts(orig, fn_start(f0, old(self).state())).0 == insts@ + lower_stmts(rest@, self.state()).0,
                lower_stmts(orig, fn_start(f0, old(self).state())).1 == lower_stmts(rest@, self.state()).1,
            decreases rest@.len(),
        {
            let ghost rest_before = rest@;
            let s = rest.remove(0);
            proof {
                assert(s == orig[k as int]);
                assert(rest@ =~= orig.subrange(k + 1, orig.len() as int));
            }
            let ghost before = insts@;
            let ghost st_before = self.state();
            self.stmt(s, &mut insts);
            proof {
                assert(rest_before[0] == s);
                assert(rest_before.subrange(1, rest_before.len() as int) =~= rest@);
                assert(insts@ + lower_stmts(rest@, self.state()).0 =~= before + lower_stmts(rest_before, st_before).0);
            }
            proof {
                if plain {
                    assert(stmt_supported(orig[k as int], false));
                    lemma_plain_trans(before, insts@, 0);
                }
            }
            k += 1;
        }
        proof {
            assert(lower_stmts(rest@, self.state()).0 =~= Seq::<Inst<'src>>::empty());
        }
        insts.push(Inst::Ret(Val::Const(0)));
        tacky::Function { name, insts }
    }

    /// Lowers a statement, appending its instructions.
    fn stmt<'src>(&mut self, stmt: Stmt<'src>, insts: &mut Vec<Inst<'src>>)
        requires
            stmt_supported(stmt, true),
        ensures
            extends(old(insts)@, final(insts)@),
            stmt_supported(stmt, false) ==> insts_plain_from(final(insts)@, old(insts)@.len() as int),
            final(self).targets_kept(*old(self)),
            final(insts)@ == old(insts)@ + lower_stmt(stmt, old(self).state()).0,
            final(self).state() == lower_stmt(stmt, old(self).state()).1,
        decreases stmt, 1int,
    {
        let ghost start = insts@;
        let ghost plain = stmt_supported(stmt, false);
        let ghost s0 = stmt;
        match stmt {
            Stmt::Block(stmts) => {
                self.stmt_block(stmts, insts, Ghost(s0));
            },
            Stmt::Break => {
                insts.push(Inst::Jump(self.break_label));
                proof {
                    assert(insts@ =~= start + lower_stmt(s0, old(self).state()).0);
                }
            },
            Stmt::Continue => {
                insts.push(Inst::Jump(self.continue_label));
                proof {
                    assert(insts@ =~= start + lower_stmt(s0, old(self).state()).0);
                }
            },
            Stmt::Decl(init) => {
                let local = self.new_local();
                match init {
                    Some(init) => {
                        let src = self.expr(*init, insts);
                        let ghost cur = insts@;
                        insts.push(Inst::Copy { src, dst: local });
                        proof {
                            lemma_step(start, cur, insts@, plain);
                            assert(insts@ =~= start + lower_stmt(s0, old(self).state()).0);
                        }
                    },
                    None => {
                        proof {
                            assert(insts@ =~= start + lower_stmt(s0, old(self).state()).0);
                        }
                    },
                }
            },
            Stmt::Do(body, condition) => {
                self.stmt_do(*body, *condition, insts, Ghost(s0));
            },
            Stmt::Expr(e) => {
                let _ = self.expr(*e, insts);
            },
            Stmt::For(for_stmt) => {
                self.stmt_for(*for_stmt, insts, Ghost(s0));
            },
            Stmt::Goto(label) => {
                insts.push(Inst::Jump(label));
                proof {
                    assert(insts@ =~= start + lower_stmt(s0, old(self).state()).0);
                }
            },
            Stmt::If(condition, then_branch, else_branch) => {
                self.stmt_if(*condition, *then_branch, else_branch, insts, Ghost(s0));
            },
            Stmt::Labled(label, body) => {
                insts.push(Inst::Label(label));
                let ghost cur = insts@;
                proof {
                    lemma_step(start, start, insts@, plain);
                }
                self.stmt(*body, insts);
                proof {
                    lemma_step(start, cur, insts@, plain);
                    assert(insts@ =~= start + lower_stmt(s0, old(self).state()).0);
                }
            },
            Stmt::Nil => {
                proof {
                    assert(insts@ =~= start + lower_stmt(s0, old(self).state()).0);
                }
            },
            Stmt::Return(e) => {
                let src = self.expr(*e, insts);
                let ghost cur = insts@;
                insts.push(Inst::Ret(src));
                proof {
                    lemma_step(start, cur, insts@, plain);
                    assert(insts@ =~= start + lower_stmt(s0, old(self).state()).0);
                }
            },
            Stmt::Switch(switch_stmt) => {
                self.stmt_switch(*switch_stmt, insts, Ghost(s0));
            },
            Stmt::While(condition, body) => {
                self.stmt_while(*condition, *body, insts, Ghost(s0));
            },
        }
    }

    /// A block: its statements in order.
    fn stmt_block<'src>(&mut self, stmts: Vec<Stmt<'src>>, insts: &mut Vec<Inst<'src>>, Ghost(stmt): Ghost<Stmt<'src>>)
        requires
            stmt == Stmt::Block(stmts),
            stmt_supported(stmt, true),
            stmt_supported(stmt, false) ==> forall|j: int| 0 <= j < stmts@.len() ==> stmt_supported(#[trigger] stmts@[j], false),
        ensures
            extends(old(insts)@, final(insts)@),
            stmt_supported(stmt, false) ==> insts_plain_from(final(insts)@, old(insts)@.len() as int),
            final(self).targets_kept(*old(self)),
            final(insts)@ == old(insts)@ + lower_stmt(stmt, old(self).state()).0,
            final(self).state() == lower_stmt(stmt, old(self).state()).1,
        decreases stmt, 0int,
    {
        let ghost start = insts@;
        let ghost plain = stmt_supported(stmt, false);
        let ghost orig = stmts@;
        let ghost vv = stmts;
        let mut rest = stmts;
        proof {
            assert(rest@ =~= orig.subrange(0, orig.len() as int));
            assert(decreases_to!(stmt => vv));
            assert(orig.len() == vv.len());
        }
        let mut k: usize = 0;
        while rest.len() > 0
            invariant
                decreases_to!(stmt => vv),
                orig.len() <= usize::MAX,
                k + rest@.len() == orig.len(),
                rest@ == orig.subrange(k as int, orig.len() as int),
                vv@ == orig,
                stmt == Stmt::Block(vv),
                forall|j: int| 0 <= j < orig.len() ==> stmt_supported(#[trigger] orig[j], true),
                plain == stmt_supported(stmt, false),
                plain ==> forall|j: int| 0 <= j < orig.len() ==> stmt_supported(#[trigger] orig[j], false),
                extends(start, insts@),
                plain ==> insts_plain_from(insts@, start.len() as int),
                self.targets_kept(*old(self)),
                start == old(insts)@,
                start + lower_stmts(orig, old(self).state()).0 == insts@ + lower_stmts(rest@, self.state()).0,
                lower_stmts(orig, old(self).state()).1 == lower_stmts(rest@, self.state()).1,
            decreases rest@.len(),
        {
            let ghost rest_before = rest@;
            let s = rest.remove(0);
            proof {
                assert(s == orig[k as int]);
                assert(rest@ =~= orig.subrange(k + 1, orig.len() as int));
                vstd::std_specs::vec::axiom_vec_index_decreases(vv, k as int);
                assert(decreases_to!(stmt => s));
            }
            let ghost before = insts@;
            let ghost st_before = self.state();
            self.stmt(s, insts);
            proof {
                lemma_step(start, before, insts@, plain);
                assert(rest_before[0] == s);
                assert(rest_before.subrange(1, rest_before.len() as int) =~= rest@);
                assert(insts@ + lower_stmts(rest@, self.state()).0 =~= before + lower_stmts(rest_before, st_before).0);
            }
            k += 1;
        }
        proof {
            assert(insts@ =~= start + lower_stmt(stmt, old(self).state()).0);
        }
    }

    /// `do body while (condition);`
    fn stmt_do<'src>(&mut self, body: Stmt<'src>, condition: Expr<'src>, insts: &mut Vec<Inst<'src>>, Ghost(stmt): Ghost<Stmt<'src>>)
        requires
            stmt matches Stmt::Do(b, c) && *b == body && *c == condition,
            stmt_supported(stmt, true),
        ensures
            extends(old(insts)@, final(insts)@),
            stmt_supported(stmt, false) ==> insts_plain_from(final(insts)@, old(insts)@.len() as int),
            final(self).targets_kept(*old(self)),
            final(insts)@ == old(insts)@ + lower_stmt(stmt, old(self).state()).0,
            final(self).state() == lower_stmt(stmt, old(self).state()).1,
        decreases stmt, 0int,
    {
        let ghost start = insts@;
        let ghost plain = stmt_supported(stmt, false);
        let ghost mut cur = insts@;
        let old_break = self.new_break_label();
        let old_continue = self.new_continue_label();
        let start_label = self.new_label();
        insts.push(Inst::Label(start_label));
        proof {
            lemma_step(start, cur, insts@, plain);
            cur = insts@;
        }
        self.stmt(body, insts);
        proof {
            lemma_step(start, cur, insts@, plain);
            cur = insts@;
        }
        insts.push(Inst::Label(self.continue_label));
        proof {
            lemma_step(start, cur, insts@, plain);
            cur = insts@;
        }
        let cond = self.expr(condition, insts);
        proof {
            lemma_step(start, cur, insts@, plain);
            cur = insts@;
        }
        insts.push(Inst::JumpIfNotZero(cond, start_label));
        insts.push(Inst::Label(self.break_label));
        proof {
            lemma_step(start, cur, insts@, plain);
        }
        self.break_label = old_break;
        self.continue_label = old_continue;
        proof {
            assert(insts@ =~= start + lower_stmt(stmt, old(self).state()).0);
        }
    }

    /// `for (init; condition; increment) body`
    #[verifier::rlimit(60)]
    fn stmt_for<'src>(&mut self, for_stmt: typed::ForStmt<'src>, insts: &mut Vec<Inst<'src>>, Ghost(stmt): Ghost<Stmt<'src>>)
        requires
            stmt matches Stmt::For(f) && *f == for_stmt,
            stmt_supported(stmt, true),
        ensures
            extends(old(insts)@, final(insts)@),
            stmt_supported(stmt, false) ==> insts_plain_from(final(insts)@, old(insts)@.len() as int),
            final(self).targets_kept(*old(self)),
            final(insts)@ == old(insts)@ + lower_stmt(stmt, old(self).state()).0,
            final(self).state() == lower_stmt(stmt, old(self).state()).1,
        decreases stmt, 0int,
    {
        let ghost start = insts@;
        let ghost plain = stmt_supported(stmt, false);
        let ghost mut cur = insts@;
        let typed::ForStmt { init, condition, increment, body } = for_stmt;
        let old_break = self.new_break_label();
        let old_continue = self.new_continue_label();
        match init {
            Some(init) => {
                self.stmt(*init, insts);
                proof {
                    lemma_step(start, cur, insts@, plain);
                    cur = insts@;
                }
            },
            None => {},
        }
        let ghost after_init = insts@;
        let start_label = self.new_label();
        insts.push(Inst::Label(start_label));
        proof {
            lemma_step(start, cur, insts@, plain);
            cur = insts@;
        }
        let ghost after_start = insts@;
        match condition {
            Some(condition) => {
                let cond = self.expr(*condition, insts);
                proof {
                    lemma_step(start, cur, insts@, plain);
                    cur = insts@;
                }
                insts.push(Inst::JumpIfZero(cond, self.break_label));
                proof {
                    lemma_step(start, cur, insts@, plain);
                    cur = insts@;
                }
            },
            None => {},
        }
        let ghost after_cond = insts@;
        self.stmt(*body, insts);
        proof {
            lemma_step(start, cur, insts@, plain);
            cur = insts@;
        }
        let ghost after_body = insts@;
        insts.push(Inst::Label(self.continue_label));
        proof {
            lemma_step(start, cur, insts@, plain);
            cur = insts@;
        }
        match increment {
            Some(increment) => {
                let _ = self.expr(*increment, insts);
                proof {
                    lemma_step(start, cur, insts@, plain);
                    cur = insts@;
                }
            },
            None => {},
        }
        insts.push(Inst::Jump(start_label));
        insts.push(Inst::Label(self.break_label));
        proof {
            lemma_step(start, cur, insts@, plain);
        }
        self.break_label = old_break;
        self.continue_label = old_continue;
        proof {
            assert(insts@ =~= start + lower_stmt(stmt, old(self).state()).0);
        }
    }

    /// `if (condition) then_branch else else_branch`
    fn stmt_if<'src>(
        &mut self,
        condition: Expr<'src>,
        then_branch: Stmt<'src>,
        else_branch: Option<Box<Stmt<'src>>>,
        insts: &mut Vec<Inst<'src>>,
        Ghost(stmt): Ghost<Stmt<'src>>,
    )
        requires
            stmt matches Stmt::If(c, t, e) && *c == condition && *t == then_branch && e == else_branch,
            stmt_supported(stmt, true),
        ensures
            extends(old(insts)@, final(insts)@),
            stmt_supported(stmt, false) ==> insts_plain_from(final(insts)@, old(insts)@.len() as int),
            final(self).targets_kept(*old(self)),
            final(insts)@ == old(insts)@ + lower_stmt(stmt, old(self).state()).0,
            final(self).state() == lower_stmt(stmt, old(self).state()).1,
        decreases stmt, 0int,
    {
        let ghost start = insts@;
        let ghost plain = stmt_supported(stmt, false);
        let ghost mut cur = insts@;
        let cond_result = self.expr(condition, insts);
        proof {
            lemma_step(start, cur, insts@, plain);
            cur = insts@;
        }
        let else_label = self.new_label();
        insts.push(Inst::JumpIfZero(cond_result, else_label));
        proof {
            lemma_step(start, cur, insts@, plain);
            cur = insts@;
        }
        self.stmt(then_branch, insts);
        proof {
            lemma_step(start, cur, insts@, plain);
            cur = insts@;
        }
        match else_branch {
            Some(else_branch) => {
                let end_label = self.new_label();
                insts.push(Inst::Jump(end_label));
                insts.push(Inst::Label(else_label));
                proof {
                    lemma_step(start, cur, insts@, plain);
                    cur = insts@;
                }
                self.stmt(*else_branch, insts);
                proof {
                    lemma_step(start, cur, insts@, plain);
                    cur = insts@;
                }
                insts.push(Inst::Label(end_label));
                proof {
                    lemma_step(start, cur, insts@, plain);
                    assert(insts@ =~= start + lower_stmt(stmt, old(self).state()).0);
                }
            },
            None => {
                insts.push(Inst::Label(else_label));
                proof {
                    lemma_step(start, cur, insts@, plain);
                    assert(insts@ =~= start + lower_stmt(stmt, old(self).state()).0);
                }
            },
        }
    }

    /// `switch (expr) body`: the value is compared with each case in turn,
    /// each comparison into a fresh local.
    fn stmt_switch<'src>(&mut self, switch_stmt: typed::SwitchStmt<'src>, insts: &mut Vec<Inst<'src>>, Ghost(stmt): Ghost<Stmt<'src>>)
        requires
            stmt matches Stmt::Switch(sw) && *sw == switch_stmt,
            stmt_supported(stmt, true),
        ensures
            extends(old(insts)@, final(insts)@),
            stmt_supported(stmt, false) ==> insts_plain_from(final(insts)@, old(insts)@.len() as int),
            final(self).targets_kept(*old(self)),
            final(insts)@ == old(insts)@ + lower_stmt(stmt, old(self).state()).0,
            final(self).state() == lower_stmt(stmt, old(self).state()).1,
        decreases stmt, 0int,
    {
        let ghost start = insts@;
        let ghost plain = stmt_supported(stmt, false);
        let ghost mut cur = insts@;
        let typed::SwitchStmt { expr, cases, default, body } = switch_stmt;
        let old_break = self.new_break_label();
        let brk = self.break_label;
        let lhs = self.expr(*expr, insts);
        proof {
            lemma_step(start, cur, insts@, plain);
            cur = insts@;
        }
        let ghost after_expr = insts@;
        let ghost st_expr = self.state();
        let mut i: usize = 0;
        while i < cases.len()
            invariant
                i <= cases@.len(),
                extends(start, insts@),
                plain ==> insts_plain_from(insts@, start.len() as int),
                plain ==> val_plain(lhs),
                self.continue_target() == old(self).continue_target(),
                insts@ == after_expr + lower_cases(cases@.take(i as int), lhs, st_expr).0,
                self.state() == lower_cases(cases@.take(i as int), lhs, st_expr).1,
            decreases cases@.len() - i,
        {
            let ghost before = insts@;
            let dst = self.new_temp();
            insts.push(Inst::Binary { op: tacky::BinaryOp::E, lhs, rhs: Val::Const(cases[i].val), dst });
            insts.push(Inst::JumpIfNotZero(dst, cases[i].label));
            proof {
                lemma_step(start, before, insts@, plain);
                assert(cases@.take(i + 1).drop_last() =~= cases@.take(i as int));
                assert(insts@ =~= after_expr + lower_cases(cases@.take(i + 1), lhs, st_expr).0);
            }
            i += 1;
        }
        proof {
            cur = insts@;
            assert(cases@.take(i as int) =~= cases@);
        }
        match default {
            Some(label) => {
                insts.push(Inst::Jump(label));
                proof {
                    lemma_step(start, cur, insts@, plain);
                    cur = insts@;
                }
            },
            None => {
                insts.push(Inst::Jump(brk));
                proof {
                    lemma_step(start, cur, insts@, plain);
                    cur = insts@;
                }
            },
        }
        self.stmt(*body, insts);
        proof {
            lemma_step(start, cur, insts@, plain);
            cur = insts@;
        }
        insts.push(Inst::Label(brk));
        proof {
            lemma_step(start, cur, insts@, plain);
        }
        self.break_label = old_break;
        proof {
            assert(insts@ =~= start + lower_stmt(stmt, old(self).state()).0);
        }
    }

    /// `while (condition) body`
    fn stmt_while<'src>(&mut self, condition: Expr<'src>, body: Stmt<'src>, insts: &mut Vec<Inst<'src>>, Ghost(stmt): Ghost<Stmt<'src>>)
        requires
            stmt matches Stmt::While(c, b) && *c == condition && *b == body,
            stmt_supported(stmt, true),
        ensures
            extends(old(insts)@, final(insts)@),
            stmt_supported(stmt, false) ==> insts_plain_from(final(insts)@, old(insts)@.len() as int),
            final(self).targets_kept(*old(self)),
            final(insts)@ == old(insts)@ + lower_stmt(stmt, old(self).state()).0,
            final(self).state() == lower_stmt(stmt, old(self).state()).1,
        decreases stmt, 0int,
    {
        let ghost start = insts@;
        let ghost plain = stmt_supported(stmt, false);
        let ghost mut cur = insts@;
        let break_label = self.new_label();
        let continue_label = self.new_label();
        let old_break = self.break_label;
        let old_continue = self.continue_label;
        self.break_label = break_label;
        self.continue_label = continue_label;
        insts.push(Inst::Label(continue_label));
        proof {
            lemma_step(start, cur, insts@, plain);
            cur = insts@;
        }
        let cond = self.expr(condition, insts);
        proof {
            lemma_step(start, cur, insts@, plain);
            cur = insts@;
        }
        insts.push(Inst::JumpIfZero(cond, break_label));
        proof {
            lemma_step(start, cur, insts@, plain);
            cur = insts@;
        }
        self.stmt(body, insts);
        proof {
            lemma_step(start, cur, insts@, plain);
            cur = insts@;
        }
        insts.push(Inst::Jump(continue_label));
        insts.push(Inst::Label(break_label));
        proof {
            lemma_step(start, cur, insts@, plain);
        }
        self.break_label = old_break;
        self.continue_label = old_continue;
        proof {
            assert(insts@ =~= start + lower_stmt(stmt, old(self).state()).0);
        }
    }

    /// Lowers an expression, appending its instructions; gives the value
    /// holding its result.
    fn expr<'src>(&mut self, e: Expr<'src>, insts: &mut Vec<Inst<'src>>) -> (r: Val<'src>)
        requires
            expr_supported(e, true),
        ensures
            final(insts)@ == old(insts)@ + lower_expr(e, old(self).state()).0,
            r == lower_expr(e, old(self).state()).1,
            final(self).state() == lower_expr(e, old(self).state()).2,
            extends(old(insts)@, final(insts)@),
            expr_supported(e, false) ==> insts_plain_from(final(insts)@, old(insts)@.len() as int) && val_plain(r),
            final(self).targets_kept(*old(self)),
            e.expr matches ExprTy::Constant(c) ==> r == Val::<'src>::Const(c) && final(insts)@ == old(insts)@,
            e.expr matches ExprTy::Local(id) ==> r == Val::<'src>::Temp(id as usize) && final(insts)@ == old(insts)@,
            e.expr matches ExprTy::GlobalLoad(n) ==> r == Val::<'src>::GlobalVar(n) && final(insts)@ == old(insts)@,
        decreases expr_size(e), 3int,
    {
        let ty = e.ty;
        match e.expr {
            ExprTy::Ternary(cond, then_branch, else_branch) => self.ternary(*cond, *then_branch, *else_branch, insts),
            ExprTy::Assign(op, lhs, rhs) => self.assign(op, *lhs, *rhs, insts),
            ExprTy::Binary(op, lhs, rhs) => self.binary(op, *lhs, *rhs, insts),
            ExprTy::Unary(op, operand) => self.unary(op, *operand, insts),
            ExprTy::DecInc(op, operand) => self.dec_inc(op, *operand, insts),
            ExprTy::GlobalLoad(name) => Val::GlobalVar(name),
            ExprTy::Local(id) => Val::Temp(id as usize),
            ExprTy::Constant(imm) => Val::Const(imm),
            _ => {
                proof {
                    assert(false);
                }
                Val::Const(0)
            },
        }
    }

    /// `cond ? a : b`: a fresh temporary receives the branch taken.
    fn ternary<'src>(&mut self, cond: Expr<'src>, then_branch: Expr<'src>, else_branch: Expr<'src>, insts: &mut Vec<Inst<'src>>) -> (r: Val<'src>)
        requires
            expr_supported(cond, true),
            expr_supported(then_branch, true),
            expr_supported(else_branch, true),
        ensures
            final(insts)@ == old(insts)@ + lower_ternary(cond, then_branch, else_branch, old(self).state()).0,
            r == lower_ternary(cond, then_branch, else_branch, old(self).state()).1,
            final(self).state() == lower_ternary(cond, then_branch, else_branch, old(self).state()).2,
            extends(old(insts)@, final(insts)@),
            expr_supported(cond, false) && expr_supported(then_branch, false) && expr_supported(else_branch, false)
                ==> insts_plain_from(final(insts)@, old(insts)@.len() as int) && val_plain(r),
            final(self).targets_kept(*old(self)),
            r is Temp,
        decreases expr_size(cond) + expr_size(then_branch) + expr_size(else_branch), 1int,
    {
        let ghost start = insts@;
        let ghost plain = expr_supported(cond, false) && expr_supported(then_branch, false) && expr_supported(else_branch, false);
        let ghost mut cur = insts@;
        let dst = self.new_temp();
        let cond_result = self.expr(cond, insts);
        proof {
            lemma_step(start, cur, insts@, plain);
            cur = insts@;
        }
        let else_label = self.new_label();
        insts.push(Inst::JumpIfZero(cond_result, else_label));
        proof {
            lemma_step(start, cur, insts@, plain);
            cur = insts@;
        }
        let then_result = self.expr(then_branch, insts);
        proof {
            lemma_step(start, cur, insts@, plain);
            cur = insts@;
        }
        insts.push(Inst::Copy { src: then_result, dst });
        let end_label = self.new_label();
        insts.push(Inst::Jump(end_label));
        insts.push(Inst::Label(else_label));
        proof {
            lemma_step(start, cur, insts@, plain);
            cur = insts@;
        }
        let else_result = self.expr(else_branch, insts);
        proof {
            lemma_step(start, cur, insts@, plain);
            cur = insts@;
        }
        insts.push(Inst::Copy { src: else_result, dst });
        insts.push(Inst::Label(end_label));
        proof {
            lemma_step(start, cur, insts@, plain);
        }
        dst
    }

    /// `lhs op= rhs`: `rhs` first, then `lhs`; a compound assignment goes
    /// through a fresh temporary, which is the result.
    fn assign<'src>(&mut self, ast_op: AssignOp, lhs: Expr<'src>, rhs: Expr<'src>, insts: &mut Vec<Inst<'src>>) -> (r: Val<'src>)
        requires
            expr_supported(lhs, true),
            expr_supported(rhs, true),
        ensures
            final(insts)@ == old(insts)@ + lower_assign(ast_op, lhs, rhs, old(self).state()).0,
            r == lower_assign(ast_op, lhs, rhs, old(self).state()).1,
            final(self).state() == lower_assign(ast_op, lhs, rhs, old(self).state()).2,
            extends(old(insts)@, final(insts)@),
            expr_supported(lhs, false) && expr_supported(rhs, false) ==> insts_plain_from(final(insts)@, old(insts)@.len() as int) && val_plain(r),
            final(self).targets_kept(*old(self)),
        decreases expr_size(lhs) + expr_size(rhs), 1int,
    {
        let ghost start = insts@;
        let ghost plain = expr_supported(lhs, false) && expr_supported(rhs, false);
        let ghost mut cur = insts@;
        let rhs = self.expr(rhs, insts);
        proof {
            lemma_step(start, cur, insts@, plain);
            cur = insts@;
        }
        let lhs = self.expr(lhs, insts);
        proof {
            lemma_step(start, cur, insts@, plain);
            cur = insts@;
        }
        match assign_op(ast_op) {
            None => {
                insts.push(Inst::Copy { src: rhs, dst: lhs });
                proof {
                    lemma_step(start, cur, insts@, plain);
                }
                lhs
            },
            Some(op) => {
                let dst = self.new_temp();
                insts.push(Inst::Binary { op, lhs, rhs, dst });
                insts.push(Inst::Copy { src: dst, dst: lhs });
                proof {
                    lemma_step(start, cur, insts@, plain);
                }
                dst
            },
        }
    }

    /// `lhs op rhs`. `&&` and `||` skip their right operand when the left
    /// one decides, and give 0 or 1.
    fn binary<'src>(&mut self, ast_op: BinaryOp, lhs: Expr<'src>, rhs: Expr<'src>, insts: &mut Vec<Inst<'src>>) -> (r: Val<'src>)
        requires
            expr_supported(lhs, true),
            expr_supported(rhs, true),
        ensures
            final(insts)@ == old(insts)@ + lower_binary(ast_op, lhs, rhs, old(self).state()).0,
            r == lower_binary(ast_op, lhs, rhs, old(self).state()).1,
            final(self).state() == lower_binary(ast_op, lhs, rhs, old(self).state()).2,
            extends(old(insts)@, final(insts)@),
            expr_supported(lhs, false) && expr_supported(rhs, false) ==> insts_plain_from(final(insts)@, old(insts)@.len() as int) && val_plain(r),
            final(self).targets_kept(*old(self)),
            r is Temp,
        decreases expr_size(lhs) + expr_size(rhs), 1int,
    {
        let ghost start = insts@;
        let ghost plain = expr_supported(lhs, false) && expr_supported(rhs, false);
        let ghost mut cur = insts@;
        if ast_op == BinaryOp::And || ast_op == BinaryOp::Or {
            let is_and = ast_op == BinaryOp::And;
            let lhs = self.expr(lhs, insts);
            proof {
                lemma_step(start, cur, insts@, plain);
                cur = insts@;
            }
            let short_label = self.new_label();
            if is_and {
                insts.push(Inst::JumpIfZero(lhs, short_label));
            } else {
                insts.push(Inst::JumpIfNotZero(lhs, short_label));
            }
            proof {
                lemma_step(start, cur, insts@, plain);
                cur = insts@;
            }
            let rhs = self.expr(rhs, insts);
            proof {
                lemma_step(start, cur, insts@, plain);
                cur = insts@;
            }
            if is_and {
                insts.push(Inst::JumpIfZero(rhs, short_label));
            } else {
                insts.push(Inst::JumpIfNotZero(rhs, short_label));
            }
            let dst = self.new_temp();
            let (fall, short) = if is_and { (1i32, 0i32) } else { (0i32, 1i32) };
            insts.push(Inst::Copy { src: Val::Const(fall), dst });
            let end_label = self.new_label();
            insts.push(Inst::Jump(end_label));
            insts.push(Inst::Label(short_label));
            insts.push(Inst::Copy { src: Val::Const(short), dst });
            insts.push(Inst::Label(end_label));
            proof {
                lemma_step(start, cur, insts@, plain);
            }
            dst
        } else {
            let op = binary_op(ast_op);
            let lhs = self.expr(lhs, insts);
            proof {
                lemma_step(start, cur, insts@, plain);
                cur = insts@;
            }
            let rhs = self.expr(rhs, insts);
            proof {
                lemma_step(start, cur, insts@, plain);
                cur = insts@;
            }
            let dst = self.new_temp();
            insts.push(Inst::Binary { op, lhs, rhs, dst });
            proof {
                lemma_step(start, cur, insts@, plain);
            }
            dst
        }
    }

    /// A prefix operator: `++x` and `--x` are `x += 1` and `x -= 1`, `+x`
    /// is `x`, the others go to a fresh temporary.
    fn unary<'src>(&mut self, ast_op: UnaryOp, e: Expr<'src>, insts: &mut Vec<Inst<'src>>) -> (r: Val<'src>)
        requires
            expr_supported(e, true),
        ensures
            final(insts)@ == old(insts)@ + lower_unary(ast_op, e, old(self).state()).0,
            r == lower_unary(ast_op, e, old(self).state()).1,
            final(self).state() == lower_unary(ast_op, e, old(self).state()).2,
            extends(old(insts)@, final(insts)@),
            expr_supported(e, false) ==> insts_plain_from(final(insts)@, old(insts)@.len() as int) && val_plain(r),
            final(self).targets_kept(*old(self)),
        decreases expr_size(e) + 1, 2int,
    {
        let ghost start = insts@;
        let ghost plain = expr_supported(e, false);
        let op = match ast_op {
            UnaryOp::Compliment => tacky::UnaryOp::Compliment,
            UnaryOp::Negate => tacky::UnaryOp::Negate,
            UnaryOp::Not => tacky::UnaryOp::Not,
            UnaryOp::Decrement => {
                let rhs = Expr { expr: ExprTy::Constant(1), ty: e.ty };
                return self.assign(AssignOp::Sub, e, rhs, insts);
            },
            UnaryOp::Increment => {
                let rhs = Expr { expr: ExprTy::Constant(1), ty: e.ty };
                return self.assign(AssignOp::Add, e, rhs, insts);
            },
            UnaryOp::Plus => {
                return self.expr(e, insts);
            },
        };
        let src = self.expr(e, insts);
        let ghost cur = insts@;
        let dst = self.new_temp();
        insts.push(Inst::Unary { op, src, dst });
        proof {
            lemma_step(start, cur, insts@, plain);
        }
        dst
    }

    /// A postfix `++` or `--`: a fresh temporary keeps the old value, which
    /// is the result; the operand is then updated.
    fn dec_inc<'src>(&mut self, ast_op: UnaryOp, e: Expr<'src>, insts: &mut Vec<Inst<'src>>) -> (r: Val<'src>)
        requires
            expr_supported(e, true),
            ast_op == UnaryOp::Increment || ast_op == UnaryOp::Decrement,
        ensures
            final(insts)@ == old(insts)@ + lower_dec_inc(ast_op, e, old(self).state()).0,
            r == lower_dec_inc(ast_op, e, old(self).state()).1,
            final(self).state() == lower_dec_inc(ast_op, e, old(self).state()).2,
            extends(old(insts)@, final(insts)@),
            expr_supported(e, false) ==> insts_plain_from(final(insts)@, old(insts)@.len() as int) && val_plain(r),
            final(self).targets_kept(*old(self)),
            r is Temp,
        decreases expr_size(e) + 1, 2int,
    {
        let ghost start = insts@;
        let ghost plain = expr_supported(e, false);
        let operand = self.expr(e, insts);
        let ghost cur = insts@;
        let op = if ast_op == UnaryOp::Decrement { tacky::BinaryOp::Sub } else { tacky::BinaryOp::Add };
        let dst = self.new_temp();
        insts.push(Inst::Copy { src: operand, dst });
        insts.push(Inst::Binary { op, lhs: operand, rhs: Val::Const(1), dst: operand });
        proof {
            lemma_step(start, cur, insts@, plain);
        }
        dst
    }
}

} // verus!
