//! What straight-line three-address code computes, what a side-effect-free
//! expression evaluates to, and the proof that lowering an expression keeps
//! its value.
use vstd::prelude::*;

use crate::compiler::ast::convert::{
    lower_assign, lower_dec_inc, lower_expr, lower_stmt, lower_stmts, spec_assign_op, spec_binary_op, spec_unary_op,
    with_local, LowerState,
};
use crate::compiler::ast::typed::{expr_size, Expr, ExprTy, Stmt};
use crate::compiler::ast::{AssignOp, BinaryOp, UnaryOp};
use crate::arena::Handle;
use crate::compiler::tacky::{self, Inst, Val};

verus! {

/// The value of an operand when the temporaries hold `env`.
pub open spec fn val_of(env: spec_fn(usize) -> i32, v: Val) -> i32 {
    match v {
        Val::Const(c) => c,
        Val::Temp(t) => env(t),
        _ => 0,
    }
}

/// `env` with temporary `t` holding `x`.
pub open spec fn set(env: spec_fn(usize) -> i32, t: usize, x: i32) -> spec_fn(usize) -> i32 {
    |k: usize| if k == t { x } else { env(k) }
}

/// What a unary operation gives.
pub open spec fn apply_unary(op: tacky::UnaryOp, a: i32) -> i32 {
    match op {
        tacky::UnaryOp::Compliment => !a,
        tacky::UnaryOp::Negate => (0 - a) as i32,
        tacky::UnaryOp::Not => if a == 0 {
            1
        } else {
            0
        },
    }
}

/// What a binary operation gives: arithmetic wraps, a comparison gives 0
/// or 1, and division by zero or of the least value by -1 gives nothing.
pub open spec fn apply_binary(op: tacky::BinaryOp, a: i32, b: i32) -> Option<i32> {
    match op {
        tacky::BinaryOp::Add => Some((a + b) as i32),
        tacky::BinaryOp::Sub => Some((a - b) as i32),
        tacky::BinaryOp::Mul => Some((a * b) as i32),
        tacky::BinaryOp::Div => if b == 0 || (a == i32::MIN && b == -1) {
            None
        } else {
            Some(truncated_div(a as int, b as int) as i32)
        },
        tacky::BinaryOp::Rem => if b == 0 || (a == i32::MIN && b == -1) {
            None
        } else {
            Some((a - b * truncated_div(a as int, b as int)) as i32)
        },
        tacky::BinaryOp::L => Some(if a < b { 1 } else { 0 }),
        tacky::BinaryOp::LE => Some(if a <= b { 1 } else { 0 }),
        tacky::BinaryOp::G => Some(if a > b { 1 } else { 0 }),
        tacky::BinaryOp::GE => Some(if a >= b { 1 } else { 0 }),
        tacky::BinaryOp::E => Some(if a == b { 1 } else { 0 }),
        tacky::BinaryOp::NE => Some(if a != b { 1 } else { 0 }),
        tacky::BinaryOp::BitAnd => Some(a & b),
        tacky::BinaryOp::BitOr => Some(a | b),
        tacky::BinaryOp::BitXor => Some(a ^ b),
        tacky::BinaryOp::Shl => if 0 <= b < 32 {
            Some(a << b)
        } else {
            None
        },
        tacky::BinaryOp::Sar => if 0 <= b < 32 {
            Some(a >> b)
        } else {
            None
        },
    }
}

/// Division rounding toward zero.
pub open spec fn truncated_div(a: int, b: int) -> int {
    let q = (if a < 0 { -a } else { a }) / (if b < 0 { -b } else { b });
    if (a < 0) != (b < 0) {
        -q
    } else {
        q
    }
}

/// One straight-line instruction: it writes its destination temporary, or
/// gives nothing when its operation is undefined or it is not a copy,
/// unary or binary operation into a temporary.
pub open spec fn step(i: Inst, env: spec_fn(usize) -> i32) -> Option<spec_fn(usize) -> i32> {
    match i {
        Inst::Copy { src, dst: Val::Temp(t) } => Some(set(env, t, val_of(env, src))),
        Inst::Unary { op, src, dst: Val::Temp(t) } => Some(set(env, t, apply_unary(op, val_of(env, src)))),
        Inst::Binary { op, lhs, rhs, dst: Val::Temp(t) } => match apply_binary(op, val_of(env, lhs), val_of(env, rhs)) {
            Some(x) => Some(set(env, t, x)),
            None => None,
        },
        _ => None,
    }
}

/// Straight-line code run from `env`, one instruction after another.
pub open spec fn run(code: Seq<Inst>, env: spec_fn(usize) -> i32) -> Option<spec_fn(usize) -> i32>
    decreases code.len(),
{
    if code.len() == 0 {
        Some(env)
    } else {
        match run(code.drop_last(), env) {
            Some(e1) => step(code.last(), e1),
            None => None,
        }
    }
}

/// An expression without side effects or jumps: constants, locals, `~`,
/// `-`, `!`, `+` and the binary operators other than `&&` and `||`.
pub open spec fn pure_expr(e: Expr) -> bool
    decreases e,
{
    match e.expr {
        ExprTy::Constant(_) => true,
        ExprTy::Local(_) => true,
        ExprTy::Unary(op, a) => (op == UnaryOp::Compliment || op == UnaryOp::Negate || op == UnaryOp::Not
            || op == UnaryOp::Plus) && pure_expr(*a),
        ExprTy::Binary(op, l, r) => op != BinaryOp::And && op != BinaryOp::Or && pure_expr(*l) && pure_expr(*r),
        _ => false,
    }
}

/// Every local an expression reads is numbered below `n`.
pub open spec fn locals_below(e: Expr, n: nat) -> bool
    decreases e,
{
    match e.expr {
        ExprTy::Local(id) => id < n,
        ExprTy::Unary(_, a) => locals_below(*a, n),
        ExprTy::Binary(_, l, r) => locals_below(*l, n) && locals_below(*r, n),
        _ => true,
    }
}

/// The value of a side-effect-free expression when local `i` holds
/// `env(i)`; nothing when an operation in it is undefined.
pub open spec fn eval_pure(e: Expr, env: spec_fn(usize) -> i32) -> Option<i32>
    decreases e,
{
    match e.expr {
        ExprTy::Constant(c) => Some(c),
        ExprTy::Local(id) => Some(env(id as usize)),
        ExprTy::Unary(op, a) => match eval_pure(*a, env) {
            Some(x) => if op == UnaryOp::Plus {
                Some(x)
            } else {
                Some(apply_unary(spec_unary_op(op), x))
            },
            None => None,
        },
        ExprTy::Binary(op, l, r) => match (eval_pure(*l, env), eval_pure(*r, env)) {
            (Some(a), Some(b)) => apply_binary(spec_binary_op(op), a, b),
            _ => None,
        },
        _ => None,
    }
}

/// `a` and `b` agree on every temporary outside `lo..hi`.
pub open spec fn agree_outside(a: spec_fn(usize) -> i32, b: spec_fn(usize) -> i32, lo: nat, hi: nat) -> bool {
    forall|k: usize| (k < lo || k >= hi) ==> #[trigger] a(k) == b(k)
}

/// Running two pieces of code one after the other.
pub proof fn lemma_run_append(a: Seq<Inst>, b: Seq<Inst>, env: spec_fn(usize) -> i32)
    ensures
        run(a + b, env) == match run(a, env) {
            Some(e1) => run(b, e1),
            None => None,
        },
    decreases b.len(),
{
    if b.len() == 0 {
        assert(a + b =~= a);
    } else {
        assert((a + b).drop_last() =~= a + b.drop_last());
        assert((a + b).last() == b.last());
        lemma_run_append(a, b.drop_last(), env);
    }
}

/// Running one instruction.
pub proof fn lemma_run_one(i: Inst, env: spec_fn(usize) -> i32)
    ensures
        run(seq![i], env) == step(i, env),
{
    reveal_with_fuel(run, 2);
    assert(seq![i].drop_last() =~= Seq::<Inst>::empty());
}

/// A bound on the locals read stays a bound when raised.
pub proof fn lemma_locals_below_mono(e: Expr, n: nat, m: nat)
    requires
        locals_below(e, n),
        n <= m,
    ensures
        locals_below(e, m),
    decreases e,
{
    match e.expr {
        ExprTy::Unary(_, x) => lemma_locals_below_mono(*x, n, m),
        ExprTy::Binary(_, l, r) => {
            lemma_locals_below_mono(*l, n, m);
            lemma_locals_below_mono(*r, n, m);
        },
        _ => {},
    }
}

/// A side-effect-free expression evaluates the same in two environments
/// that agree on the locals it reads.
pub proof fn lemma_eval_agree(e: Expr, a: spec_fn(usize) -> i32, b: spec_fn(usize) -> i32, n: nat)
    requires
        locals_below(e, n),
        forall|k: usize| k < n ==> #[trigger] a(k) == b(k),
    ensures
        eval_pure(e, a) == eval_pure(e, b),
    decreases e,
{
    match e.expr {
        ExprTy::Unary(_, x) => lemma_eval_agree(*x, a, b, n),
        ExprTy::Binary(_, l, r) => {
            lemma_eval_agree(*l, a, b, n);
            lemma_eval_agree(*r, a, b, n);
        },
        _ => {},
    }
}

/// Lowering a side-effect-free expression: its code takes at most one
/// temporary per node, numbered on from `st.temps`, writes no other
/// temporary, and leaves its value in the operand it gives, which is a
/// constant, a local or one of those temporaries.
pub proof fn lemma_lower_pure<'src>(e: Expr<'src>, st: LowerState, env: spec_fn(usize) -> i32)
    requires
        pure_expr(e),
        locals_below(e, st.temps as nat),
        st.temps + expr_size(e) <= usize::MAX,
    ensures
        ({
            let (code, v, s1) = lower_expr(e, st);
            &&& st.temps <= s1.temps <= st.temps + expr_size(e)
            &&& s1.locals == st.locals
            &&& (v is Const || (v matches Val::Temp(t) && t < s1.temps))
            &&& eval_pure(e, env) matches Some(x) ==> (run(code, env) matches Some(env2) && val_of(env2, v) == x
                && agree_outside(env2, env, st.temps as nat, s1.temps as nat))
        }),
    decreases e,
{
    reveal_with_fuel(lower_expr, 3);
    match e.expr {
        ExprTy::Constant(_) => {},
        ExprTy::Local(_) => {},
        ExprTy::Unary(op, a) => {
            lemma_lower_pure(*a, st, env);
            if op != UnaryOp::Plus {
                let (ca, va, s1) = lower_expr(*a, st);
                let dst = s1.temps;
                let code = ca + seq![Inst::Unary { op: spec_unary_op(op), src: va, dst: Val::Temp(dst) }];
                assert(lower_expr(e, st).0 == code);
                if let Some(x) = eval_pure(*a, env) {
                    let env1 = run(ca, env).unwrap();
                    lemma_run_append(ca, seq![Inst::Unary { op: spec_unary_op(op), src: va, dst: Val::Temp(dst) }], env);
                    lemma_run_one(Inst::Unary { op: spec_unary_op(op), src: va, dst: Val::Temp(dst) }, env1);
                }
            }
        },
        ExprTy::Binary(op, l, r) => {
            lemma_lower_pure(*l, st, env);
            let (cl, vl, s1) = lower_expr(*l, st);
            lemma_locals_below_mono(*r, st.temps as nat, s1.temps as nat);
            if let Some(x) = eval_pure(*l, env) {
                let env1 = run(cl, env).unwrap();
                lemma_eval_agree(*r, env, env1, st.temps as nat);
                lemma_lower_pure(*r, s1, env1);
            }
            lemma_lower_pure(*r, s1, env);
            let (cr, vr, s2) = lower_expr(*r, s1);
            let dst = s2.temps;
            let last = Inst::Binary { op: spec_binary_op(op), lhs: vl, rhs: vr, dst: Val::Temp(dst) };
            assert(lower_expr(e, st).0 == cl + cr + seq![last]);
            if let (Some(a), Some(b)) = (eval_pure(*l, env), eval_pure(*r, env)) {
                let env1 = run(cl, env).unwrap();
                lemma_eval_agree(*r, env, env1, st.temps as nat);
                let env2 = run(cr, env1).unwrap();
                lemma_run_append(cl, cr, env);
                lemma_run_append(cl + cr, seq![last], env);
                lemma_run_one(last, env2);
                assert(val_of(env2, vl) == val_of(env1, vl));
            }
        },
        _ => {},
    }
}

/// Law: lowering keeps the value of a side-effect-free expression. When
/// the expression's value is defined, its code runs to the end, leaves
/// that value in the operand the lowering gives, and changes no local.
pub proof fn law_lowering_keeps_value<'src>(e: Expr<'src>, st: LowerState, env: spec_fn(usize) -> i32)
    requires
        pure_expr(e),
        locals_below(e, st.temps as nat),
        st.temps + expr_size(e) <= usize::MAX,
        eval_pure(e, env) is Some,
    ensures
        ({
            let (code, v, _) = lower_expr(e, st);
            &&& run(code, env) is Some
            &&& val_of(run(code, env).unwrap(), v) == eval_pure(e, env).unwrap()
            &&& forall|k: usize| k < st.temps ==> #[trigger] run(code, env).unwrap()(k) == env(k)
        }),
{
    lemma_lower_pure(e, st, env);
}

/// What C gives for `a op b` on `int` operands, operator by operator: the
/// arithmetic wraps to 32 bits, `/` rounds toward zero and `%` leaves the
/// remainder of that division, a comparison gives 1 when it holds and 0
/// when it does not, `&&` and `||` give 1 or 0 by the truth of their
/// operands; a division by zero or of the least value by -1, and a shift by
/// a count outside `0..32`, have no value.
pub open spec fn c_binary(op: BinaryOp, a: i32, b: i32) -> Option<i32> {
    match op {
        BinaryOp::Add => Some((a + b) as i32),
        BinaryOp::Sub => Some((a - b) as i32),
        BinaryOp::Mul => Some((a * b) as i32),
        BinaryOp::Div => if b == 0 || (a == i32::MIN && b == -1) {
            None
        } else {
            Some(truncated_div(a as int, b as int) as i32)
        },
        BinaryOp::Rem => if b == 0 || (a == i32::MIN && b == -1) {
            None
        } else {
            Some((a - b * truncated_div(a as int, b as int)) as i32)
        },
        BinaryOp::L => Some(if a < b { 1 } else { 0 }),
        BinaryOp::LE => Some(if a <= b { 1 } else { 0 }),
        BinaryOp::G => Some(if a > b { 1 } else { 0 }),
        BinaryOp::GE => Some(if a >= b { 1 } else { 0 }),
        BinaryOp::E => Some(if a == b { 1 } else { 0 }),
        BinaryOp::NE => Some(if a != b { 1 } else { 0 }),
        BinaryOp::BitAnd => Some(a & b),
        BinaryOp::BitOr => Some(a | b),
        BinaryOp::BitXor => Some(a ^ b),
        BinaryOp::Shl => if 0 <= b < 32 {
            Some(a << b)
        } else {
            None
        },
        BinaryOp::Shr => if 0 <= b < 32 {
            Some(a >> b)
        } else {
            None
        },
        BinaryOp::And => Some(if a != 0 && b != 0 { 1 } else { 0 }),
        BinaryOp::Or => Some(if a != 0 || b != 0 { 1 } else { 0 }),
    }
}

/// Law: a side-effect-free binary expression `l op r` means what C says of
/// `op`: its value is [`c_binary`] of the operands' values, and the code it
/// is lowered to, run to the end, leaves that value in its result operand.
pub proof fn law_binary_operators_mean_c<'src>(
    op: BinaryOp,
    l: Expr<'src>,
    r: Expr<'src>,
    ty: Handle,
    st: LowerState,
    env: spec_fn(usize) -> i32,
)
    requires
        op != BinaryOp::And && op != BinaryOp::Or,
        pure_expr(l),
        pure_expr(r),
        eval_pure(l, env) is Some,
        eval_pure(r, env) is Some,
    ensures
        ({
            let e = Expr { expr: ExprTy::Binary(op, Box::new(l), Box::new(r)), ty };
            &&& eval_pure(e, env) == c_binary(op, eval_pure(l, env).unwrap(), eval_pure(r, env).unwrap())
            &&& locals_below(e, st.temps as nat) && st.temps + expr_size(e) <= usize::MAX && eval_pure(e, env) is Some ==> {
                let (code, v, _) = lower_expr(e, st);
                &&& run(code, env) is Some
                &&& c_binary(op, eval_pure(l, env).unwrap(), eval_pure(r, env).unwrap()) == Some(val_of(run(code, env).unwrap(), v))
            }
        }),
{
    let e = Expr { expr: ExprTy::Binary(op, Box::new(l), Box::new(r)), ty };
    assert(pure_expr(e));
    if locals_below(e, st.temps as nat) && st.temps + expr_size(e) <= usize::MAX && eval_pure(e, env) is Some {
        law_lowering_keeps_value(e, st, env);
    }
}

/// The value an assignment stores: the right side for `=`, otherwise the
/// operator applied to the old value and the right side.
pub open spec fn assigned_value(op: AssignOp, old: i32, rhs: i32) -> Option<i32> {
    match spec_assign_op(op) {
        None => Some(rhs),
        Some(bop) => apply_binary(bop, old, rhs),
    }
}

/// Law: an assignment to a local stores the value C gives it. When the
/// right side's value and the stored value are defined, the code runs to
/// the end, the local and the result operand hold the stored value, and no
/// other local changes.
pub proof fn law_assignment_stores<'src>(
    op: AssignOp,
    target: Expr<'src>,
    id: u32,
    r: Expr<'src>,
    st: LowerState,
    env: spec_fn(usize) -> i32,
)
    requires
        target.expr == ExprTy::<'src>::Local(id),
        id < st.temps,
        pure_expr(r),
        locals_below(r, st.temps as nat),
        st.temps + expr_size(r) < usize::MAX,
        eval_pure(r, env) is Some,
        assigned_value(op, env(id as usize), eval_pure(r, env).unwrap()) is Some,
    ensures
        ({
            let (code, v, _) = lower_assign(op, target, r, st);
            let stored = assigned_value(op, env(id as usize), eval_pure(r, env).unwrap()).unwrap();
            &&& run(code, env) is Some
            &&& run(code, env).unwrap()(id as usize) == stored
            &&& val_of(run(code, env).unwrap(), v) == stored
            &&& forall|k: usize| k < st.temps && k != id ==> #[trigger] run(code, env).unwrap()(k) == env(k)
        }),
        st.temps <= lower_assign(op, target, r, st).2.temps <= st.temps + expr_size(r) + 1,
        lower_assign(op, target, r, st).2.locals == st.locals,
{
    reveal_with_fuel(lower_expr, 2);
    lemma_lower_pure(r, st, env);
    let (cr, vr, s1) = lower_expr(r, st);
    assert(lower_expr(target, s1) == (Seq::<Inst<'src>>::empty(), Val::<'src>::Temp(id as usize), s1));
    let x = eval_pure(r, env).unwrap();
    let env1 = run(cr, env).unwrap();
    assert(env1(id as usize) == env(id as usize));
    match spec_assign_op(op) {
        None => {
            let copy = Inst::Copy { src: vr, dst: Val::<'src>::Temp(id as usize) };
            assert(lower_assign(op, target, r, st).0 =~= cr + seq![copy]);
            lemma_run_append(cr, seq![copy], env);
            lemma_run_one(copy, env1);
        },
        Some(bop) => {
            let dst = s1.temps;
            let bin = Inst::Binary { op: bop, lhs: Val::<'src>::Temp(id as usize), rhs: vr, dst: Val::Temp(dst) };
            let copy = Inst::Copy { src: Val::<'src>::Temp(dst), dst: Val::Temp(id as usize) };
            assert(lower_assign(op, target, r, st).0 =~= cr + seq![bin, copy]);
            assert(seq![bin, copy] =~= seq![bin] + seq![copy]);
            lemma_run_append(cr, seq![bin] + seq![copy], env);
            lemma_run_append(seq![bin], seq![copy], env1);
            lemma_run_one(bin, env1);
            let env2 = step(bin, env1).unwrap();
            lemma_run_one(copy, env2);
        },
    }
}

/// Law: a postfix `++` or `--` on a local gives the old value and stores
/// it plus or minus one, wrapping; no other local changes.
pub proof fn law_postfix_updates<'src>(op: UnaryOp, target: Expr<'src>, id: u32, st: LowerState, env: spec_fn(usize) -> i32)
    requires
        target.expr == ExprTy::<'src>::Local(id),
        id < st.temps,
        op == UnaryOp::Increment || op == UnaryOp::Decrement,
    ensures
        ({
            let (code, v, _) = lower_dec_inc(op, target, st);
            let old = env(id as usize);
            &&& run(code, env) is Some
            &&& val_of(run(code, env).unwrap(), v) == old
            &&& run(code, env).unwrap()(id as usize) == (if op == UnaryOp::Increment {
                (old + 1) as i32
            } else {
                (old - 1) as i32
            })
            &&& forall|k: usize| k < st.temps && k != id ==> #[trigger] run(code, env).unwrap()(k) == env(k)
        }),
{
    reveal_with_fuel(lower_expr, 2);
    assert(lower_expr(target, st) == (Seq::<Inst<'src>>::empty(), Val::<'src>::Temp(id as usize), st));
    let dst = st.temps;
    let bop = if op == UnaryOp::Decrement { tacky::BinaryOp::Sub } else { tacky::BinaryOp::Add };
    let copy = Inst::Copy { src: Val::<'src>::Temp(id as usize), dst: Val::Temp(dst) };
    let bin = Inst::Binary { op: bop, lhs: Val::<'src>::Temp(id as usize), rhs: Val::Const(1), dst: Val::Temp(id as usize) };
    assert(lower_dec_inc(op, target, st).0 =~= seq![copy] + seq![bin]);
    lemma_run_append(seq![copy], seq![bin], env);
    lemma_run_one(copy, env);
    let env1 = step(copy, env).unwrap();
    lemma_run_one(bin, env1);
}

/// Law: a declaration with an initializer stores the initializer's value
/// in the next local, when that value is defined; no other local changes.
pub proof fn law_declaration_initializes<'src>(init: Expr<'src>, st: LowerState, env: spec_fn(usize) -> i32)
    requires
        st.locals < st.temps,
        pure_expr(init),
        locals_below(init, st.temps as nat),
        st.temps + expr_size(init) <= usize::MAX,
        eval_pure(init, env) is Some,
    ensures
        ({
            let (code, _) = lower_stmt(Stmt::Decl(Some(Box::new(init))), st);
            &&& run(code, env) is Some
            &&& run(code, env).unwrap()(st.locals) == eval_pure(init, env).unwrap()
            &&& forall|k: usize| k < st.temps && k != st.locals ==> #[trigger] run(code, env).unwrap()(k) == env(k)
        }),
        st.temps <= lower_stmt(Stmt::Decl(Some(Box::new(init))), st).1.temps <= st.temps + expr_size(init),
        lower_stmt(Stmt::Decl(Some(Box::new(init))), st).1.locals == st.locals + 1,
{
    lemma_lower_pure(init, with_local(st), env);
    let (c, v, s1) = lower_expr(init, with_local(st));
    let copy = Inst::Copy { src: v, dst: Val::<'src>::Temp(st.locals) };
    assert(lower_stmt(Stmt::Decl(Some(Box::new(init))), st).0 =~= c + seq![copy]);
    lemma_run_append(c, seq![copy], env);
    lemma_run_one(copy, run(c, env).unwrap());
}

/// A statement of straight-line code: a local declared with a
/// side-effect-free initializer, or a side-effect-free value assigned to a
/// local; every local read or written is numbered below `n`.
pub open spec fn simple_stmt(s: Stmt, n: nat) -> bool {
    match s {
        Stmt::Decl(Some(e)) => pure_expr(*e) && locals_below(*e, n),
        Stmt::Expr(e) => match e.expr {
            ExprTy::Assign(_, l, r) => (l.expr matches ExprTy::Local(id) && id < n) && pure_expr(*r) && locals_below(*r, n),
            _ => false,
        },
        _ => false,
    }
}

/// How many temporaries a simple statement may take, at most.
pub open spec fn stmt_weight(s: Stmt) -> nat {
    match s {
        Stmt::Decl(Some(e)) => expr_size(*e),
        Stmt::Expr(e) => expr_size(*e) + 1,
        _ => 0,
    }
}

/// How many temporaries a block of simple statements may take, at most.
pub open spec fn block_weight(ss: Seq<Stmt>) -> nat
    decreases ss.len(),
{
    if ss.len() == 0 {
        0
    } else {
        stmt_weight(ss[0]) + block_weight(ss.subrange(1, ss.len() as int))
    }
}

/// How many locals a block declares.
pub open spec fn decl_count(ss: Seq<Stmt>) -> nat
    decreases ss.len(),
{
    if ss.len() == 0 {
        0
    } else {
        (if ss[0] is Decl { 1nat } else { 0nat }) + decl_count(ss.subrange(1, ss.len() as int))
    }
}

/// What a simple statement does: a declaration gives the next local,
/// `next`, its initializer's value; an assignment stores into its target.
/// Gives the new values and the next local to declare, or nothing when a
/// value is undefined.
pub open spec fn exec_simple(s: Stmt, env: spec_fn(usize) -> i32, next: usize) -> Option<(spec_fn(usize) -> i32, usize)> {
    match s {
        Stmt::Decl(Some(e)) => match eval_pure(*e, env) {
            Some(x) => Some((set(env, next, x), (next + 1) as usize)),
            None => None,
        },
        Stmt::Expr(e) => match e.expr {
            ExprTy::Assign(op, l, r) => match (l.expr, eval_pure(*r, env)) {
                (ExprTy::Local(id), Some(x)) => match assigned_value(op, env(id as usize), x) {
                    Some(v) => Some((set(env, id as usize, v), next)),
                    None => None,
                },
                _ => None,
            },
            _ => None,
        },
        _ => None,
    }
}

/// What a block of simple statements does, one statement after another.
pub open spec fn exec_block(ss: Seq<Stmt>, env: spec_fn(usize) -> i32, next: usize) -> Option<(spec_fn(usize) -> i32, usize)>
    decreases ss.len(),
{
    if ss.len() == 0 {
        Some((env, next))
    } else {
        match exec_simple(ss[0], env, next) {
            Some((e1, n1)) => exec_block(ss.subrange(1, ss.len() as int), e1, n1),
            None => None,
        }
    }
}

proof fn lemma_block<'src>(
    ss: Seq<Stmt<'src>>,
    st: LowerState,
    n: nat,
    env: spec_fn(usize) -> i32,
    xenv: spec_fn(usize) -> i32,
)
    requires
        forall|i: int| 0 <= i < ss.len() ==> simple_stmt(#[trigger] ss[i], n),
        n <= st.temps,
        st.locals + decl_count(ss) <= n,
        st.temps + block_weight(ss) < usize::MAX,
        forall|k: usize| k < n ==> #[trigger] env(k) == xenv(k),
        exec_block(ss, xenv, st.locals) is Some,
    ensures
        run(lower_stmts(ss, st).0, env) is Some,
        forall|k: usize| k < n ==> #[trigger] run(lower_stmts(ss, st).0, env).unwrap()(k) == exec_block(ss, xenv, st.locals).unwrap().0(k),
    decreases ss.len(),
{
    if ss.len() == 0 {
        assert(run(Seq::<Inst<'src>>::empty(), env) == Some(env));
    } else {
        let s = ss[0];
        let rest = ss.subrange(1, ss.len() as int);
        assert forall|i: int| 0 <= i < rest.len() implies simple_stmt(#[trigger] rest[i], n) by {
            assert(rest[i] == ss[i + 1]);
        }
        assert(simple_stmt(s, n));
        let (c, s1) = lower_stmt(s, st);
        assert(lower_stmts(ss, st).0 == c + lower_stmts(rest, s1).0);
        match s {
            Stmt::Decl(Some(e)) => {
                lemma_locals_below_mono(*e, n, st.temps as nat);
                lemma_eval_agree(*e, env, xenv, n);
                let x = eval_pure(*e, xenv).unwrap();
                law_declaration_initializes(*e, st, env);
                assert(s == Stmt::Decl(Some(Box::new(*e))));
                let env2 = run(c, env).unwrap();
                let xenv1 = set(xenv, st.locals, x);
                assert forall|k: usize| k < n implies #[trigger] env2(k) == xenv1(k) by {}
                lemma_block(rest, s1, n, env2, xenv1);
                lemma_run_append(c, lower_stmts(rest, s1).0, env);
            },
            Stmt::Expr(b) => {
                if let ExprTy::Assign(op, l, r) = b.expr {
                    if let ExprTy::Local(id) = l.expr {
                        reveal_with_fuel(lower_expr, 2);
                        lemma_locals_below_mono(*r, n, st.temps as nat);
                        lemma_eval_agree(*r, env, xenv, n);
                        let x = eval_pure(*r, xenv).unwrap();
                        law_assignment_stores(op, *l, id, *r, st, env);
                        assert(lower_expr(*b, st) == lower_assign(op, *l, *r, st));
                        let env2 = run(c, env).unwrap();
                        let v = assigned_value(op, xenv(id as usize), x).unwrap();
                        let xenv1 = set(xenv, id as usize, v);
                        assert forall|k: usize| k < n implies #[trigger] env2(k) == xenv1(k) by {}
                        lemma_block(rest, s1, n, env2, xenv1);
                        lemma_run_append(c, lower_stmts(rest, s1).0, env);
                    }
                }
            },
            _ => {},
        }
    }
}

/// Law: a block of straight-line statements keeps its meaning when
/// lowered. When every value it computes is defined, its code runs to the
/// end and leaves every local as the block's statements, run in order,
/// leave it; locals are numbered in order of declaration from `st.locals`,
/// below the first temporary.
pub proof fn law_block_keeps_meaning<'src>(ss: Seq<Stmt<'src>>, st: LowerState, env: spec_fn(usize) -> i32)
    requires
        forall|i: int| 0 <= i < ss.len() ==> simple_stmt(#[trigger] ss[i], st.temps as nat),
        st.locals + decl_count(ss) <= st.temps,
        st.temps + block_weight(ss) < usize::MAX,
        exec_block(ss, env, st.locals) is Some,
    ensures
        run(lower_stmts(ss, st).0, env) is Some,
        forall|k: usize| k < st.temps ==> #[trigger] run(lower_stmts(ss, st).0, env).unwrap()(k) == exec_block(ss, env, st.locals).unwrap().0(k),
{
    lemma_block(ss, st, st.temps as nat, env, env);
}

} // verus!
