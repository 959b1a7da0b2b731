//! The semantic checker: resolves every name, checks types, linkage,
//! labels, `break`, `continue` and `case`, and builds the typed tree.
//! Counters of labels, locals and static locals wrap at `u32::MAX`.
use vstd::prelude::*;

use crate::arena::Handle;
use crate::compiler::ast::typed::{
    self, ForStmt, SwitchCase, SwitchStmt, SymbolData, SymbolTable,
};
use crate::compiler::ast::{
    self, ctx_within, decl_ok, expr_ok, stmt_ok, AssignOp, BinaryOp, Declaration, FunctionDecl,
    Identifier, SpecifierFlags, UnaryOp, VarDecl,
};
use crate::compiler::error::{
    cached_ok, compile_error_wf, sorted_errors, CompileError, Context, SemanticError, SemanticErrorWithCtx,
};
use crate::compiler::ty::{lookup, ScopeStack, Ty, TyInterner};
use crate::compiler::x86::{Label, Linkage};
use crate::intern::Interned;

verus! {

/// A `goto` target seen in the current function, and whether its labelled
/// statement has been seen.
struct GotoLabel<'src> {
    id: Identifier<'src>,
    label: Label,
    declared: bool,
}

/// The checked expression keeps the structure of the parsed one: each
/// operation becomes the same operation on the checked operands, except
/// that an assignment, `++` or `--` whose target is not a name becomes the
/// poisoned expression; a name becomes a local, a static local, a global or
/// a function, or the poisoned expression when it is not declared; a call
/// becomes a call, the poisoned expression, or its checked callee when the
/// callee's type is already poisoned.
pub open spec fn expr_shape(e: ast::Expr, t: typed::Expr) -> bool
    decreases e,
{
    match e.expr {
        ast::ExprTy::Ternary(c, a, b) => t.expr matches typed::ExprTy::Ternary(tc, ta, tb) && expr_shape(*c, *tc)
            && expr_shape(*a, *ta) && expr_shape(*b, *tb),
        ast::ExprTy::Assign(op, l, r) => if spec_is_lvalue(*l) {
            t.expr matches typed::ExprTy::Assign(top, tl, tr) && top == op && expr_shape(*l, *tl) && expr_shape(*r, *tr)
        } else {
            t.expr is Poisoned
        },
        ast::ExprTy::Binary(op, l, r) => t.expr matches typed::ExprTy::Binary(top, tl, tr) && top == op && expr_shape(*l, *tl)
            && expr_shape(*r, *tr),
        ast::ExprTy::Unary(op, a) => if (op == UnaryOp::Increment || op == UnaryOp::Decrement) && !spec_is_lvalue(*a) {
            t.expr is Poisoned
        } else {
            t.expr matches typed::ExprTy::Unary(top, ta) && top == op && expr_shape(*a, *ta)
        },
        ast::ExprTy::DecInc(op, a) => if spec_is_lvalue(*a) {
            t.expr matches typed::ExprTy::DecInc(top, ta) && top == op && expr_shape(*a, *ta)
        } else {
            t.expr is Poisoned
        },
        ast::ExprTy::Var(_) => t.expr is Local || t.expr is LocalStaticLoad || t.expr is GlobalLoad || t.expr is FnLoad
            || t.expr is Poisoned,
        ast::ExprTy::Constant(c) => t.expr == typed::ExprTy::<'_>::Constant(c),
        ast::ExprTy::Poisoned => t.expr is Poisoned,
        ast::ExprTy::Call(c) => t.expr is Call || t.expr is Poisoned || expr_shape(*c.operand, t),
    }
}

/// The shape of a checked expression depends on its structure, not on
/// its type.
proof fn lemma_shape_ignores_type(e: ast::Expr, t1: typed::Expr, t2: typed::Expr)
    requires
        t1.expr == t2.expr,
    ensures
        expr_shape(e, t1) == expr_shape(e, t2),
    decreases e,
{
    if let ast::ExprTy::Call(c) = e.expr {
        lemma_shape_ignores_type(*c.operand, t1, t2);
    }
}

/// What the latest binding of a name gives, in bindings `b`, names being
/// told apart by their number.
pub open spec fn binding_of<'src>(b: Seq<(Interned<'src>, IdInfo)>, name: Interned<'src>) -> Option<IdInfo>
    decreases b.len(),
{
    if b.len() == 0 {
        None
    } else if b.last().0.index() == name.index() {
        Some(b.last().1)
    } else {
        binding_of(b.drop_last(), name)
    }
}

/// Looking a name up finds its latest binding.
proof fn lemma_lookup_binding<'src>(b: Seq<(Interned<'src>, IdInfo)>, name: Interned<'src>)
    ensures
        lookup(b, name) == binding_of(b, name),
    decreases b.len(),
{
    if b.len() > 0 {
        lemma_lookup_binding(b.drop_last(), name);
    }
}

/// `h` names the poisoned type in `tys`.
pub open spec fn ty_poisoned<'src>(tys: Seq<Ty<'src>>, h: Handle) -> bool {
    h.index < tys.len() && tys[h.index as int] is Poisoned
}

/// `h` names `int` in `tys`.
pub open spec fn ty_int<'src>(tys: Seq<Ty<'src>>, h: Handle) -> bool {
    h.index < tys.len() && tys[h.index as int] is Int
}

/// The return and parameter types of the function type `h`, if it is one.
pub open spec fn fn_sig<'src>(tys: Seq<Ty<'src>>, h: Handle) -> Option<(Handle, Seq<Handle>)> {
    if h.index < tys.len() {
        match tys[h.index as int] {
            Ty::Function { ret, params } => Some((ret, params@)),
            _ => None,
        }
    } else {
        None
    }
}

/// The type of an operation on operands of types `a` and `b`: their type
/// when they agree, else the poisoned type `p`.
pub open spec fn common_ty(p: Handle, a: Handle, b: Handle) -> Handle {
    if a == b {
        a
    } else {
        p
    }
}

/// The error such an operation reports at `ctx`: a mismatch, unless the
/// types agree or one of them is already poisoned.
pub open spec fn common_errs<'src>(tys: Seq<Ty<'src>>, ctx: Context, a: Handle, b: Handle) -> Seq<SemanticErrorWithCtx> {
    if a != b && !ty_poisoned(tys, a) && !ty_poisoned(tys, b) {
        seq![SemanticErrorWithCtx { ctx, err: SemanticError::TypeMismatch }]
    } else {
        Seq::empty()
    }
}

/// The type of an operation that needs an `int` operand of type `a`.
pub open spec fn int_ty<'src>(tys: Seq<Ty<'src>>, p: Handle, a: Handle) -> Handle {
    if ty_int(tys, a) {
        a
    } else {
        p
    }
}

/// The error such an operation reports at `ctx`: a mismatch, unless the
/// operand is an `int` or already poisoned.
pub open spec fn int_errs<'src>(tys: Seq<Ty<'src>>, ctx: Context, a: Handle) -> Seq<SemanticErrorWithCtx> {
    if ty_int(tys, a) || ty_poisoned(tys, a) {
        Seq::empty()
    } else {
        seq![SemanticErrorWithCtx { ctx, err: SemanticError::TypeMismatch }]
    }
}

/// The errors that checking expression `e` reports, in order, and its
/// type, under the bindings `b`, the types `tys` and the poisoned type `p`:
/// an undeclared name, an assignment or `++`/`--` on what is not a name,
/// operand types that disagree or are not `int`, a call of what is not a
/// function, with the wrong number of arguments, or with an argument of
/// another type.
pub open spec fn expr_check<'src>(b: Seq<(Interned<'src>, IdInfo)>, tys: Seq<Ty<'src>>, p: Handle, e: ast::Expr<'src>) -> (Seq<SemanticErrorWithCtx>, Handle)
    decreases e, 0int,
{
    match e.expr {
        ast::ExprTy::Ternary(c, x, y) => {
            let ec = expr_check(b, tys, p, *c).0;
            let (ex, tx) = expr_check(b, tys, p, *x);
            let (ey, ty) = expr_check(b, tys, p, *y);
            (ec + ex + ey + common_errs(tys, e.ctx, tx, ty), common_ty(p, tx, ty))
        },
        ast::ExprTy::Assign(_, l, r) => if spec_is_lvalue(*l) {
            let (el, tl) = expr_check(b, tys, p, *l);
            let (er, tr) = expr_check(b, tys, p, *r);
            (el + er + common_errs(tys, e.ctx, tl, tr), common_ty(p, tl, tr))
        } else {
            (seq![SemanticErrorWithCtx { ctx: l.ctx, err: SemanticError::InvalidLValue }], p)
        },
        ast::ExprTy::Binary(_, l, r) => {
            let (el, tl) = expr_check(b, tys, p, *l);
            let (er, tr) = expr_check(b, tys, p, *r);
            (el + er + common_errs(tys, e.ctx, tl, tr), common_ty(p, tl, tr))
        },
        ast::ExprTy::Unary(op, a) => if (op == UnaryOp::Increment || op == UnaryOp::Decrement) && !spec_is_lvalue(*a) {
            (seq![SemanticErrorWithCtx { ctx: a.ctx, err: SemanticError::InvalidLValue }], p)
        } else {
            let (ea, ta) = expr_check(b, tys, p, *a);
            (ea + int_errs(tys, a.ctx, ta), int_ty(tys, p, ta))
        },
        ast::ExprTy::DecInc(_, a) => if spec_is_lvalue(*a) {
            let (ea, ta) = expr_check(b, tys, p, *a);
            (ea + int_errs(tys, a.ctx, ta), int_ty(tys, p, ta))
        } else {
            (seq![SemanticErrorWithCtx { ctx: a.ctx, err: SemanticError::InvalidLValue }], p)
        },
        ast::ExprTy::Var(name) => match binding_of(b, name) {
            None => (seq![SemanticErrorWithCtx { ctx: e.ctx, err: SemanticError::UndeclaredVar }], p),
            Some(info) => (Seq::empty(), info.ty),
        },
        ast::ExprTy::Call(c) => {
            let (eo, to) = expr_check(b, tys, p, *c.operand);
            match fn_sig(tys, to) {
                None => if ty_poisoned(tys, to) {
                    (eo, p)
                } else {
                    (eo + seq![SemanticErrorWithCtx { ctx: c.operand.ctx, err: SemanticError::ExpectedFunctionType }], p)
                },
                Some((ret, params)) => {
                    let count = if c.args@.len() != params.len() {
                        seq![SemanticErrorWithCtx { ctx: e.ctx, err: SemanticError::InvalidArgCount }]
                    } else {
                        Seq::empty()
                    };
                    let n = if c.args@.len() < params.len() { c.args@.len() } else { params.len() };
                    (eo + count + args_errs(b, tys, p, c.args@, params, n as int), ret)
                },
            }
        },
        _ => (Seq::empty(), p),
    }
}

/// The errors of checking the first `k` arguments of a call against the
/// parameter types `params`: each argument's own, then a mismatch at it
/// when its type is neither the parameter's nor poisoned.
pub open spec fn args_errs<'src>(
    b: Seq<(Interned<'src>, IdInfo)>,
    tys: Seq<Ty<'src>>,
    p: Handle,
    args: Seq<ast::Expr<'src>>,
    params: Seq<Handle>,
    k: int,
) -> Seq<SemanticErrorWithCtx>
    decreases args, k,
{
    if k <= 0 || k > args.len() || k > params.len() {
        Seq::empty()
    } else {
        let a = args[k - 1];
        let (ea, ta) = expr_check(b, tys, p, a);
        let mismatch = if !(ta == params[k - 1] || ty_poisoned(tys, ta) || ty_poisoned(tys, params[k - 1])) {
            seq![SemanticErrorWithCtx { ctx: a.ctx, err: SemanticError::TypeMismatch }]
        } else {
            Seq::empty()
        };
        args_errs(b, tys, p, args, params, k - 1) + ea + mismatch
    }
}

/// What a name in an expression stands for under the bindings `b`: an
/// undeclared name is poisoned, a local or a static local is loaded by its
/// number, a file-scope name by its name.
pub open spec fn var_resolves<'src>(b: Seq<(Interned<'src>, IdInfo)>, name: Interned<'src>, t: typed::ExprTy<'src>) -> bool {
    match binding_of(b, name) {
        None => t is Poisoned,
        Some(info) => match info.scope {
            ScopeTy::InternalLocal(id) => t == typed::ExprTy::LocalStaticLoad(id),
            ScopeTy::Local(id) => t == typed::ExprTy::Local(id),
            _ => t == typed::ExprTy::FnLoad(name) || t == typed::ExprTy::GlobalLoad(name),
        },
    }
}

/// The checked expression keeps the shape of `e`, as [`expr_shape`] says,
/// and each name in it stands for what the bindings `b` give it.
pub open spec fn expr_resolves<'src>(b: Seq<(Interned<'src>, IdInfo)>, e: ast::Expr<'src>, t: typed::Expr<'src>) -> bool
    decreases e,
{
    match e.expr {
        ast::ExprTy::Ternary(c, x, y) => t.expr matches typed::ExprTy::Ternary(tc, tx, ty) && expr_resolves(b, *c, *tc)
            && expr_resolves(b, *x, *tx) && expr_resolves(b, *y, *ty),
        ast::ExprTy::Assign(op, l, r) => if spec_is_lvalue(*l) {
            t.expr matches typed::ExprTy::Assign(top, tl, tr) && top == op && expr_resolves(b, *l, *tl) && expr_resolves(b, *r, *tr)
        } else {
            t.expr is Poisoned
        },
        ast::ExprTy::Binary(op, l, r) => t.expr matches typed::ExprTy::Binary(top, tl, tr) && top == op && expr_resolves(b, *l, *tl)
            && expr_resolves(b, *r, *tr),
        ast::ExprTy::Unary(op, a) => if (op == UnaryOp::Increment || op == UnaryOp::Decrement) && !spec_is_lvalue(*a) {
            t.expr is Poisoned
        } else {
            t.expr matches typed::ExprTy::Unary(top, ta) && top == op && expr_resolves(b, *a, *ta)
        },
        ast::ExprTy::DecInc(op, a) => if spec_is_lvalue(*a) {
            t.expr matches typed::ExprTy::DecInc(top, ta) && top == op && expr_resolves(b, *a, *ta)
        } else {
            t.expr is Poisoned
        },
        ast::ExprTy::Var(name) => var_resolves(b, name, t.expr),
        ast::ExprTy::Constant(c) => t.expr == typed::ExprTy::<'_>::Constant(c),
        ast::ExprTy::Poisoned => t.expr is Poisoned,
        ast::ExprTy::Call(c) => t.expr is Call || t.expr is Poisoned || expr_resolves(b, *c.operand, t),
    }
}

/// What the names of a checked expression stand for does not depend on its
/// type.
proof fn lemma_resolves_ignores_type<'src>(b: Seq<(Interned<'src>, IdInfo)>, e: ast::Expr<'src>, t1: typed::Expr<'src>, t2: typed::Expr<'src>)
    requires
        t1.expr == t2.expr,
    ensures
        expr_resolves(b, e, t1) == expr_resolves(b, e, t2),
    decreases e,
{
    if let ast::ExprTy::Call(c) = e.expr {
        lemma_resolves_ignores_type(b, *c.operand, t1, t2);
    }
}

/// The checked form of an optional expression.
pub open spec fn opt_expr_shape(e: Option<Box<ast::Expr>>, t: Option<Box<typed::Expr>>) -> bool {
    match (e, t) {
        (Some(a), Some(b)) => expr_shape(*a, *b),
        (None, None) => true,
        _ => false,
    }
}

/// What a declaration inside a function body becomes: a local variable a
/// declaration, with an initializer when it has one; anything else nothing.
pub open spec fn decl_shape(d: Declaration, t: typed::Stmt) -> bool {
    match d {
        Declaration::Fn(_) => t is Nil,
        Declaration::Var(v) => if v.specifier_flags.is_extern || v.specifier_flags.is_static {
            t is Nil
        } else {
            t matches typed::Stmt::Decl(init) && match (v.init, init) {
                (Some(e), Some(te)) => expr_shape(e, *te),
                (None, None) => true,
                _ => false,
            }
        },
    }
}

/// The checked statement keeps the structure of the parsed one: each
/// statement becomes one of the same kind (`case` and `default` a labelled
/// statement), holding the checked forms of its statements and expressions
/// in the same places.
pub open spec fn stmt_shape(s: ast::Stmt, t: typed::Stmt) -> bool
    decreases s,
{
    match s {
        ast::Stmt::Block(v) => t matches typed::Stmt::Block(w) && w@.len() == v@.len() && forall|i: int|
            0 <= i < v@.len() ==> stmt_shape(#[trigger] v@[i], w@[i]),
        ast::Stmt::Break(_) => t is Break,
        ast::Stmt::Case(_, _, b) => t matches typed::Stmt::Labled(_, tb) && stmt_shape(*b, *tb),
        ast::Stmt::Continue(_) => t is Continue,
        ast::Stmt::Decl(d) => decl_shape(*d, t),
        ast::Stmt::Do(b, c) => t matches typed::Stmt::Do(tb, tc) && stmt_shape(*b, *tb) && expr_shape(*c, *tc),
        ast::Stmt::Expr(e) => t matches typed::Stmt::Expr(te) && expr_shape(*e, *te),
        ast::Stmt::For(f) => t matches typed::Stmt::For(tf) && (match (f.init, tf.init) {
            (Some(i), Some(ti)) => stmt_shape(*i, *ti),
            (None, None) => true,
            _ => false,
        }) && opt_expr_shape(f.condition, tf.condition) && opt_expr_shape(f.increment, tf.increment)
            && stmt_shape(*f.body, *tf.body),
        ast::Stmt::Goto(_) => t is Goto,
        ast::Stmt::If(c, a, e) => t matches typed::Stmt::If(tc, ta, te) && expr_shape(*c, *tc) && stmt_shape(*a, *ta) && (match (e, te) {
            (Some(b), Some(tb)) => stmt_shape(*b, *tb),
            (None, None) => true,
            _ => false,
        }),
        ast::Stmt::Labled(_, b) => t matches typed::Stmt::Labled(_, tb) && stmt_shape(*b, *tb),
        ast::Stmt::Nil => t is Nil,
        ast::Stmt::Return(e) => t matches typed::Stmt::Return(te) && expr_shape(*e, *te),
        ast::Stmt::Switch(e, b) => t matches typed::Stmt::Switch(sw) && expr_shape(*e, *sw.expr) && stmt_shape(*b, *sw.body),
        ast::Stmt::While(c, b) => t matches typed::Stmt::While(tc, tb) && expr_shape(*c, *tc) && stmt_shape(*b, *tb),
    }
}

/// The function definitions met while checking a statement, in the order
/// in which they are checked: the ones nested in a function's body come
/// before it. A `static` function declared inside a body is refused and
/// defines nothing.
pub open spec fn stmt_defs<'src>(s: ast::Stmt<'src>) -> Seq<FunctionDecl<'src>>
    decreases s,
{
    match s {
        ast::Stmt::Block(v) => seq_defs(v@),
        ast::Stmt::Case(_, _, b) => stmt_defs(*b),
        ast::Stmt::Decl(d) => decl_defs(*d),
        ast::Stmt::Do(b, _) => stmt_defs(*b),
        ast::Stmt::For(f) => (match f.init {
            Some(i) => stmt_defs(*i),
            None => Seq::empty(),
        }) + stmt_defs(*f.body),
        ast::Stmt::If(_, a, e) => stmt_defs(*a) + match e {
            Some(b) => stmt_defs(*b),
            None => Seq::empty(),
        },
        ast::Stmt::Labled(_, b) => stmt_defs(*b),
        ast::Stmt::Switch(_, b) => stmt_defs(*b),
        ast::Stmt::While(_, b) => stmt_defs(*b),
        _ => Seq::empty(),
    }
}

/// The function definitions met while checking statements in order.
pub open spec fn seq_defs<'src>(v: Seq<ast::Stmt<'src>>) -> Seq<FunctionDecl<'src>>
    decreases v,
{
    if v.len() == 0 {
        Seq::empty()
    } else {
        seq_defs(v.subrange(0, v.len() - 1)) + stmt_defs(v[v.len() - 1])
    }
}

/// The function definitions met while checking a function declaration:
/// those of its body, then the function itself; none for a declaration
/// without a body.
pub open spec fn fun_defs<'src>(f: FunctionDecl<'src>) -> Seq<FunctionDecl<'src>>
    decreases f,
{
    match f.body {
        Some(b) => seq_defs(b@).push(f),
        None => Seq::empty(),
    }
}

/// The function definitions met while checking a declaration inside a
/// function body.
pub open spec fn decl_defs<'src>(d: Declaration<'src>) -> Seq<FunctionDecl<'src>>
    decreases d,
{
    match d {
        Declaration::Fn(f) => if f.specifier_flags.is_static {
            Seq::empty()
        } else {
            fun_defs(f)
        },
        Declaration::Var(_) => Seq::empty(),
    }
}

/// The function definitions met while checking a file-scope declaration.
pub open spec fn item_defs<'src>(d: Declaration<'src>) -> Seq<FunctionDecl<'src>> {
    match d {
        Declaration::Fn(f) => fun_defs(f),
        Declaration::Var(_) => Seq::empty(),
    }
}

/// The function definitions of a unit, in the order in which they are
/// checked.
pub open spec fn program_defs<'src>(items: Seq<Declaration<'src>>) -> Seq<FunctionDecl<'src>> {
    Seq::new(items.len(), |i: int| item_defs(items[i])).flatten()
}

/// A checked function stands for a definition: it bears its name, and its
/// body holds the checked form of each statement of the definition's body.
pub open spec fn fn_matches<'src>(f: FunctionDecl<'src>, t: typed::Function<'src>) -> bool {
    &&& t.name == f.id.name
    &&& f.body matches Some(b) && t.body@.len() == b@.len()
        && forall|j: int| 0 <= j < b@.len() ==> stmt_shape(#[trigger] b@[j], t.body@[j])
}

/// `after` is `before` followed by one checked function for each definition
/// of `defs`, in order.
pub open spec fn fns_added<'src>(
    before: Seq<typed::Function<'src>>,
    after: Seq<typed::Function<'src>>,
    defs: Seq<FunctionDecl<'src>>,
) -> bool {
    &&& after.len() == before.len() + defs.len()
    &&& forall|i: int| 0 <= i < before.len() ==> #[trigger] after[i] == before[i]
    &&& forall|i: int| 0 <= i < defs.len() ==> fn_matches(#[trigger] defs[i], after[before.len() + i])
}

/// Checking statements in order meets the definitions of each in turn.
pub proof fn lemma_seq_defs_push<'src>(v: Seq<ast::Stmt<'src>>, s: ast::Stmt<'src>)
    ensures
        seq_defs(v.push(s)) == seq_defs(v) + stmt_defs(s),
{
    let w = v.push(s);
    assert(w.subrange(0, w.len() - 1) =~= v);
}

/// The same for file-scope declarations.
pub proof fn lemma_program_defs_push<'src>(v: Seq<Declaration<'src>>, d: Declaration<'src>)
    ensures
        program_defs(v.push(d)) == program_defs(v) + item_defs(d),
{
    let w = v.push(d);
    let a = Seq::new(w.len(), |i: int| item_defs(w[i]));
    let b = Seq::new(v.len(), |i: int| item_defs(v[i]));
    assert(a =~= b.push(item_defs(d)));
    b.lemma_flatten_push(item_defs(d));
}

/// Where a name in scope lives.
#[derive(Clone, Copy, PartialEq, Eq, Debug, Structural)]
pub enum ScopeTy {
    External,
    Internal,
    InternalLocal(u32),
    Local(u32),
}

/// A name in scope: its type and where it lives.
#[derive(Clone, Copy, Debug)]
pub struct IdInfo {
    pub ty: Handle,
    pub scope: ScopeTy,
}

/// The cases collected for the innermost `switch`, and its default label.
type SwitchData = (Vec<SwitchCase>, Option<Label>);

pub struct TyChecker<'src, 'p> {
    tys: &'p mut TyInterner<'src>,
    poisoned_ty: Handle,
    errors: Vec<SemanticErrorWithCtx>,
    id_map: ScopeStack<Interned<'src>, IdInfo>,
    symbol_table: SymbolTable<'src>,
    label_count: u32,
    goto_labels: Vec<GotoLabel<'src>>,
    local_count: u32,
    local_static_count: u32,
    loop_depth: u32,
    switch_cases: Option<SwitchData>,
    src_len: Ghost<nat>,
}

/// An assignment target must be a plain name.
pub open spec fn spec_is_lvalue(e: ast::Expr) -> bool {
    e.expr is Var
}

/// An assignment target must be a plain name.
pub fn is_lvalue(e: &ast::Expr) -> (r: bool)
    ensures
        r == spec_is_lvalue(*e),
{
    match e.expr {
        ast::ExprTy::Var(_) => true,
        _ => false,
    }
}

/// `errors` grew from `before` by appending.
pub open spec fn appended(before: Seq<SemanticErrorWithCtx>, after: Seq<SemanticErrorWithCtx>) -> bool {
    before.len() <= after.len() && forall|i: int| 0 <= i < before.len() ==> #[trigger] after[i] == before[i]
}

/// Appending is transitive.
pub proof fn lemma_appended_trans(a: Seq<SemanticErrorWithCtx>, b: Seq<SemanticErrorWithCtx>, c: Seq<SemanticErrorWithCtx>)
    requires
        appended(a, b),
        appended(b, c),
    ensures
        appended(a, c),
{
    assert forall|i: int| 0 <= i < a.len() implies #[trigger] c[i] == a[i] by {
        assert(c[i] == b[i]);
    }
}

/// `gs[i]` is the first `goto` target named `name`.
spec fn first_goto<'src>(gs: Seq<GotoLabel<'src>>, name: Interned<'src>, i: int) -> bool {
    &&& 0 <= i < gs.len()
    &&& gs[i].id.name.index() == name.index()
    &&& forall|j: int| 0 <= j < i ==> gs[j].id.name.index() != name.index()
}

/// `g[i]` is the first recorded `goto` target named `x`.
pub open spec fn first_named<'src>(g: Seq<(Identifier<'src>, bool)>, x: nat, i: int) -> bool {
    &&& 0 <= i < g.len()
    &&& g[i].0.name.index() == x
    &&& forall|j: int| 0 <= j < i ==> g[j].0.name.index() != x
}

/// The `goto` targets recorded, each with the name as first written and
/// whether its labelled statement has been seen, after meeting `goto id`:
/// a name not recorded yet is added as not labelled.
pub open spec fn goto_seen<'src>(g: Seq<(Identifier<'src>, bool)>, id: Identifier<'src>) -> Seq<(Identifier<'src>, bool)> {
    if exists|i: int| 0 <= i < g.len() && g[i].0.name.index() == id.name.index() {
        g
    } else {
        g.push((id, false))
    }
}

/// The `goto` targets recorded after meeting the labelled statement `id:`:
/// the first target of that name is now labelled, or the name is added as
/// labelled.
pub open spec fn label_seen<'src>(g: Seq<(Identifier<'src>, bool)>, id: Identifier<'src>) -> Seq<(Identifier<'src>, bool)> {
    if exists|i: int| first_named(g, id.name.index(), i) {
        let i = choose|i: int| first_named(g, id.name.index(), i);
        g.update(i, (g[i].0, true))
    } else {
        g.push((id, true))
    }
}

/// The error that the labelled statement `id:` reports, given the `goto`
/// targets recorded `g`: a second statement labelled with that name.
pub open spec fn label_errs<'src>(g: Seq<(Identifier<'src>, bool)>, id: Identifier<'src>) -> Seq<SemanticErrorWithCtx> {
    if (exists|i: int| first_named(g, id.name.index(), i)) && g[choose|i: int| first_named(g, id.name.index(), i)].1 {
        seq![SemanticErrorWithCtx { ctx: id.ctx, err: SemanticError::DuplicateDecl }]
    } else {
        Seq::empty()
    }
}

/// A name is first recorded at one place only.
proof fn lemma_first_named_unique<'src>(g: Seq<(Identifier<'src>, bool)>, x: nat, i: int, j: int)
    requires
        first_named(g, x, i),
        first_named(g, x, j),
    ensures
        i == j,
{
}

/// The `goto` targets recorded after checking statement `s`, in the order
/// in which it is checked.
pub open spec fn goto_walk<'src>(g: Seq<(Identifier<'src>, bool)>, s: ast::Stmt<'src>) -> Seq<(Identifier<'src>, bool)>
    decreases s,
{
    match s {
        ast::Stmt::Block(v) => goto_walk_seq(g, v@),
        ast::Stmt::Case(_, _, b) => goto_walk(g, *b),
        ast::Stmt::Do(b, _) => goto_walk(g, *b),
        ast::Stmt::For(f) => goto_walk(
            match f.init {
                Some(i) => goto_walk(g, *i),
                None => g,
            },
            *f.body,
        ),
        ast::Stmt::Decl(d) => if decl_defs(*d).len() > 0 {
            Seq::empty()
        } else {
            g
        },
        ast::Stmt::Goto(id) => goto_seen(g, id),
        ast::Stmt::If(_, a, e) => match e {
            Some(b) => goto_walk(goto_walk(g, *a), *b),
            None => goto_walk(g, *a),
        },
        ast::Stmt::Labled(id, b) => goto_walk(label_seen(g, id), *b),
        ast::Stmt::Switch(_, b) => goto_walk(g, *b),
        ast::Stmt::While(_, b) => goto_walk(g, *b),
        _ => g,
    }
}

/// The `goto` targets recorded after checking statements in order.
pub open spec fn goto_walk_seq<'src>(g: Seq<(Identifier<'src>, bool)>, v: Seq<ast::Stmt<'src>>) -> Seq<(Identifier<'src>, bool)>
    decreases v,
{
    if v.len() == 0 {
        g
    } else {
        goto_walk(goto_walk_seq(g, v.subrange(0, v.len() - 1)), v[v.len() - 1])
    }
}

/// The errors for the recorded `goto` targets that no statement labels, in
/// order: one for each, at the name as first written.
pub open spec fn unresolved_errors<'src>(g: Seq<(Identifier<'src>, bool)>) -> Seq<SemanticErrorWithCtx>
    decreases g.len(),
{
    if g.len() == 0 {
        Seq::empty()
    } else {
        unresolved_errors(g.drop_last()) + if g.last().1 {
            Seq::<SemanticErrorWithCtx>::empty()
        } else {
            seq![SemanticErrorWithCtx { ctx: g.last().0.ctx, err: SemanticError::UndeclaredVar }]
        }
    }
}

/// Every expression of `s` is a constant, and `s` declares nothing and holds
/// no `case`, `default`, label, `goto` or `switch`: only blocks, loops,
/// `if`, `break`, `continue`, `return` and expression statements.
pub open spec fn const_only<'src>(s: ast::Stmt<'src>) -> bool
    decreases s,
{
    match s {
        ast::Stmt::Block(v) => const_only_seq(v@),
        ast::Stmt::Break(_) => true,
        ast::Stmt::Continue(_) => true,
        ast::Stmt::Nil => true,
        ast::Stmt::Do(b, c) => c.expr is Constant && const_only(*b),
        ast::Stmt::Expr(e) => e.expr is Constant,
        ast::Stmt::Return(e) => e.expr is Constant,
        ast::Stmt::For(f) => {
            &&& match f.init {
                Some(i) => const_only(*i),
                None => true,
            }
            &&& match f.condition {
                Some(c) => c.expr is Constant,
                None => true,
            }
            &&& match f.increment {
                Some(c) => c.expr is Constant,
                None => true,
            }
            &&& const_only(*f.body)
        },
        ast::Stmt::If(c, a, e) => c.expr is Constant && const_only(*a) && match e {
            Some(b) => const_only(*b),
            None => true,
        },
        ast::Stmt::While(c, b) => c.expr is Constant && const_only(*b),
        _ => false,
    }
}

/// Each statement of `v` is [`const_only`].
pub open spec fn const_only_seq<'src>(v: Seq<ast::Stmt<'src>>) -> bool
    decreases v,
{
    if v.len() == 0 {
        true
    } else {
        const_only_seq(v.subrange(0, v.len() - 1)) && const_only(v[v.len() - 1])
    }
}

/// The errors that checking a [`const_only`] statement `s` reports, `depth`
/// loops deep and inside a `switch` or not: one for each `break` outside any
/// loop or `switch` and each `continue` outside any loop, in order.
pub open spec fn control_errors<'src>(s: ast::Stmt<'src>, depth: u32, in_switch: bool) -> Seq<SemanticErrorWithCtx>
    decreases s,
{
    match s {
        ast::Stmt::Block(v) => control_errors_seq(v@, depth, in_switch),
        ast::Stmt::Break(ctx) => if depth > 0 || in_switch {
            Seq::empty()
        } else {
            seq![SemanticErrorWithCtx { ctx, err: SemanticError::InvalidBreak }]
        },
        ast::Stmt::Continue(ctx) => if depth > 0 {
            Seq::empty()
        } else {
            seq![SemanticErrorWithCtx { ctx, err: SemanticError::InvalidContinue }]
        },
        ast::Stmt::Do(b, _) => control_errors(*b, depth.wrapping_add(1), in_switch),
        ast::Stmt::For(f) => {
            let i = match f.init {
                Some(i) => control_errors(*i, depth.wrapping_add(1), in_switch),
                None => Seq::empty(),
            };
            i + control_errors(*f.body, depth.wrapping_add(1), in_switch)
        },
        ast::Stmt::If(_, a, e) => {
            let b = match e {
                Some(b) => control_errors(*b, depth, in_switch),
                None => Seq::empty(),
            };
            control_errors(*a, depth, in_switch) + b
        },
        ast::Stmt::While(_, b) => control_errors(*b, depth.wrapping_add(1), in_switch),
        _ => Seq::empty(),
    }
}

/// The errors of [`control_errors`] for statements checked in order.
pub open spec fn control_errors_seq<'src>(v: Seq<ast::Stmt<'src>>, depth: u32, in_switch: bool) -> Seq<SemanticErrorWithCtx>
    decreases v,
{
    if v.len() == 0 {
        Seq::empty()
    } else {
        control_errors_seq(v.subrange(0, v.len() - 1), depth, in_switch) + control_errors(v[v.len() - 1], depth, in_switch)
    }
}

/// A prefix of statements that are all [`const_only`] is too, and so is each
/// of them.
pub proof fn lemma_const_only_prefix<'src>(v: Seq<ast::Stmt<'src>>, k: int)
    requires
        const_only_seq(v),
        0 <= k <= v.len(),
    ensures
        const_only_seq(v.subrange(0, k)),
        k < v.len() ==> const_only(v[k]),
    decreases v.len() - k,
{
    if k < v.len() {
        lemma_const_only_prefix(v, k + 1);
        let w = v.subrange(0, k + 1);
        assert(w.subrange(0, w.len() - 1) =~= v.subrange(0, k));
        assert(w[w.len() - 1] == v[k]);
    } else {
        assert(v.subrange(0, k) =~= v);
    }
}

/// A statement whose checking [`stmt_walk`] states: it holds no `switch`,
/// `case` or `default`, and declares nothing but local variables (neither
/// `extern` nor `static`).
pub open spec fn plain_stmt<'src>(s: ast::Stmt<'src>) -> bool
    decreases s,
{
    match s {
        ast::Stmt::Block(v) => plain_seq(v@),
        ast::Stmt::Break(_) => true,
        ast::Stmt::Continue(_) => true,
        ast::Stmt::Nil => true,
        ast::Stmt::Expr(_) => true,
        ast::Stmt::Return(_) => true,
        ast::Stmt::Do(b, _) => plain_stmt(*b),
        ast::Stmt::While(_, b) => plain_stmt(*b),
        ast::Stmt::For(f) => (match f.init {
            Some(i) => plain_stmt(*i),
            None => true,
        }) && plain_stmt(*f.body),
        ast::Stmt::If(_, a, e) => plain_stmt(*a) && match e {
            Some(b) => plain_stmt(*b),
            None => true,
        },
        ast::Stmt::Decl(d) => match *d {
            Declaration::Var(v) => !v.specifier_flags.is_extern && !v.specifier_flags.is_static,
            Declaration::Fn(_) => false,
        },
        ast::Stmt::Goto(_) => true,
        ast::Stmt::Labled(_, b) => plain_stmt(*b),
        _ => false,
    }
}

/// Each statement of `v` is [`plain_stmt`].
pub open spec fn plain_seq<'src>(v: Seq<ast::Stmt<'src>>) -> bool
    decreases v,
{
    if v.len() == 0 {
        true
    } else {
        plain_seq(v.subrange(0, v.len() - 1)) && plain_stmt(v[v.len() - 1])
    }
}

/// A prefix of [`plain_stmt`] statements is too, and so is each of them.
pub proof fn lemma_plain_prefix<'src>(v: Seq<ast::Stmt<'src>>, k: int)
    requires
        plain_seq(v),
        0 <= k <= v.len(),
    ensures
        plain_seq(v.subrange(0, k)),
        k < v.len() ==> plain_stmt(v[k]),
    decreases v.len() - k,
{
    if k < v.len() {
        lemma_plain_prefix(v, k + 1);
        let w = v.subrange(0, k + 1);
        assert(w.subrange(0, w.len() - 1) =~= v.subrange(0, k));
        assert(w[w.len() - 1] == v[k]);
    } else {
        assert(v.subrange(0, k) =~= v);
    }
}

/// What checking a [`plain_stmt`] statement `s` gives, from the bindings
/// `b` whose innermost scope begins at `bottom`, `depth` loops deep, inside
/// a `switch` or not, with `locals` locals numbered so far, over the types
/// `tys` and the poisoned type `p`, with the `goto` targets `g` recorded
/// before it: the errors it reports, in order, the bindings after it, and
/// the number of locals after it. A block or a `for` opens a scope of its
/// own and gives back the bindings it began with; a local declaration is
/// bound as [`local_binds`] says, its initializer checked with it in scope;
/// a labelled statement reports a second label of its name
/// ([`label_errs`]).
pub open spec fn stmt_walk<'src>(
    s: ast::Stmt<'src>,
    g: Seq<(Identifier<'src>, bool)>,
    b: Seq<(Interned<'src>, IdInfo)>,
    bottom: nat,
    depth: u32,
    sw: bool,
    locals: u32,
    tys: Seq<Ty<'src>>,
    p: Handle,
) -> (Seq<SemanticErrorWithCtx>, Seq<(Interned<'src>, IdInfo)>, u32)
    decreases s,
{
    match s {
        ast::Stmt::Block(v) => {
            let w = stmts_walk(v@, g, b, b.len(), depth, sw, locals, tys, p);
            (w.0, b, w.2)
        },
        ast::Stmt::Break(_) => (control_errors(s, depth, sw), b, locals),
        ast::Stmt::Continue(_) => (control_errors(s, depth, sw), b, locals),
        ast::Stmt::Expr(e) => (expr_check(b, tys, p, *e).0, b, locals),
        ast::Stmt::Return(e) => (expr_check(b, tys, p, *e).0, b, locals),
        ast::Stmt::Do(body, c) => {
            let w = stmt_walk(*body, g, b, bottom, depth.wrapping_add(1), sw, locals, tys, p);
            (w.0 + expr_check(w.1, tys, p, *c).0, w.1, w.2)
        },
        ast::Stmt::While(c, body) => {
            let w = stmt_walk(*body, g, b, bottom, depth.wrapping_add(1), sw, locals, tys, p);
            (expr_check(b, tys, p, *c).0 + w.0, w.1, w.2)
        },
        ast::Stmt::For(f) => {
            let d = depth.wrapping_add(1);
            let gi = match f.init {
                Some(i) => goto_walk(g, *i),
                None => g,
            };
            let wi = match f.init {
                Some(i) => stmt_walk(*i, g, b, b.len(), d, sw, locals, tys, p),
                None => (Seq::empty(), b, locals),
            };
            let ec = match f.condition {
                Some(c) => expr_check(wi.1, tys, p, *c).0,
                None => Seq::empty(),
            };
            let en = match f.increment {
                Some(c) => expr_check(wi.1, tys, p, *c).0,
                None => Seq::empty(),
            };
            let wb = stmt_walk(*f.body, gi, wi.1, b.len(), d, sw, wi.2, tys, p);
            (wi.0 + ec + en + wb.0, b, wb.2)
        },
        ast::Stmt::If(c, a, e) => {
            let wa = stmt_walk(*a, g, b, bottom, depth, sw, locals, tys, p);
            let we = match e {
                Some(x) => stmt_walk(*x, goto_walk(g, *a), wa.1, bottom, depth, sw, wa.2, tys, p),
                None => (Seq::empty(), wa.1, wa.2),
            };
            (expr_check(b, tys, p, *c).0 + wa.0 + we.0, we.1, we.2)
        },
        ast::Stmt::Decl(d) => match *d {
            Declaration::Var(v) => {
                let w = local_walk(b, bottom, v.id, v.ty, v.init, locals, tys, p);
                (w.0, w.1, locals.wrapping_add(1))
            },
            Declaration::Fn(_) => (Seq::empty(), b, locals),
        },
        ast::Stmt::Labled(id, body) => {
            let w = stmt_walk(*body, label_seen(g, id), b, bottom, depth, sw, locals, tys, p);
            (label_errs(g, id) + w.0, w.1, w.2)
        },
        _ => (Seq::empty(), b, locals),
    }
}

/// The checked statement `t` of a [`plain_stmt`] statement `s` resolves
/// each name to what the bindings in scope at that point give it, the
/// bindings evolving as [`stmt_walk`] says: a block's statements in a scope
/// of their own, a local declaration's initializer with the new name in
/// scope, a `do` condition after its body, a `for` condition, increment and
/// body after its initializer.
pub open spec fn stmt_res<'src>(
    s: ast::Stmt<'src>,
    t: typed::Stmt<'src>,
    g: Seq<(Identifier<'src>, bool)>,
    b: Seq<(Interned<'src>, IdInfo)>,
    bottom: nat,
    depth: u32,
    sw: bool,
    locals: u32,
    tys: Seq<Ty<'src>>,
    p: Handle,
) -> bool
    decreases s,
{
    match s {
        ast::Stmt::Block(v) => match t {
            typed::Stmt::Block(w) => stmts_res(v@, w@, g, b, b.len(), depth, sw, locals, tys, p),
            _ => false,
        },
        ast::Stmt::Expr(e) => match t {
            typed::Stmt::Expr(te) => expr_resolves(b, *e, *te),
            _ => false,
        },
        ast::Stmt::Return(e) => match t {
            typed::Stmt::Return(te) => expr_resolves(b, *e, *te),
            _ => false,
        },
        ast::Stmt::Do(body, c) => match t {
            typed::Stmt::Do(tb, tc) => {
                let d = depth.wrapping_add(1);
                &&& stmt_res(*body, *tb, g, b, bottom, d, sw, locals, tys, p)
                &&& expr_resolves(stmt_walk(*body, g, b, bottom, d, sw, locals, tys, p).1, *c, *tc)
            },
            _ => false,
        },
        ast::Stmt::While(c, body) => match t {
            typed::Stmt::While(tc, tb) => {
                &&& expr_resolves(b, *c, *tc)
                &&& stmt_res(*body, *tb, g, b, bottom, depth.wrapping_add(1), sw, locals, tys, p)
            },
            _ => false,
        },
        ast::Stmt::For(f) => match t {
            typed::Stmt::For(tf) => {
                let d = depth.wrapping_add(1);
                let gi = match f.init {
                    Some(i) => goto_walk(g, *i),
                    None => g,
                };
                let wi = match f.init {
                    Some(i) => stmt_walk(*i, g, b, b.len(), d, sw, locals, tys, p),
                    None => (Seq::empty(), b, locals),
                };
                &&& match (f.init, tf.init) {
                    (Some(i), Some(ti)) => stmt_res(*i, *ti, g, b, b.len(), d, sw, locals, tys, p),
                    (None, None) => true,
                    _ => false,
                }
                &&& match (f.condition, tf.condition) {
                    (Some(c), Some(tc)) => expr_resolves(wi.1, *c, *tc),
                    (None, None) => true,
                    _ => false,
                }
                &&& match (f.increment, tf.increment) {
                    (Some(c), Some(tc)) => expr_resolves(wi.1, *c, *tc),
                    (None, None) => true,
                    _ => false,
                }
                &&& stmt_res(*f.body, *tf.body, gi, wi.1, b.len(), d, sw, wi.2, tys, p)
            },
            _ => false,
        },
        ast::Stmt::If(c, a, e) => match t {
            typed::Stmt::If(tc, ta, te) => {
                let wa = stmt_walk(*a, g, b, bottom, depth, sw, locals, tys, p);
                &&& expr_resolves(b, *c, *tc)
                &&& stmt_res(*a, *ta, g, b, bottom, depth, sw, locals, tys, p)
                &&& match (e, te) {
                    (Some(x), Some(tx)) => stmt_res(*x, *tx, goto_walk(g, *a), wa.1, bottom, depth, sw, wa.2, tys, p),
                    (None, None) => true,
                    _ => false,
                }
            },
            _ => false,
        },
        ast::Stmt::Decl(d) => match *d {
            Declaration::Var(v) => match t {
                typed::Stmt::Decl(i) => match (v.init, i) {
                    (Some(e), Some(te)) => expr_resolves(local_walk(b, bottom, v.id, v.ty, v.init, locals, tys, p).1, e, *te),
                    (None, None) => true,
                    _ => false,
                },
                _ => false,
            },
            Declaration::Fn(_) => true,
        },
        ast::Stmt::Labled(id, body) => match t {
            typed::Stmt::Labled(_, tb) => stmt_res(*body, *tb, label_seen(g, id), b, bottom, depth, sw, locals, tys, p),
            _ => false,
        },
        _ => true,
    }
}

/// The checked statements `w` of [`plain_stmt`] statements `v` resolve
/// their names as [`stmt_res`] says, each from the bindings the ones
/// before it left.
pub open spec fn stmts_res<'src>(
    v: Seq<ast::Stmt<'src>>,
    w: Seq<typed::Stmt<'src>>,
    g: Seq<(Identifier<'src>, bool)>,
    b: Seq<(Interned<'src>, IdInfo)>,
    bottom: nat,
    depth: u32,
    sw: bool,
    locals: u32,
    tys: Seq<Ty<'src>>,
    p: Handle,
) -> bool
    decreases v,
{
    if v.len() == 0 {
        w.len() == 0
    } else {
        let pre = stmts_walk(v.subrange(0, v.len() - 1), g, b, bottom, depth, sw, locals, tys, p);
        &&& w.len() == v.len()
        &&& stmts_res(v.subrange(0, v.len() - 1), w.subrange(0, w.len() - 1), g, b, bottom, depth, sw, locals, tys, p)
        &&& stmt_res(v[v.len() - 1], w[w.len() - 1], goto_walk_seq(g, v.subrange(0, v.len() - 1)), pre.1, bottom, depth, sw, pre.2, tys, p)
    }
}

/// What declaring a local variable `id` of type `ty` with initializer
/// `init` gives, numbered `locals`, from the bindings `b` whose innermost
/// scope begins at `bottom`: the errors (a name already declared in that
/// scope, then the initializer's, checked with the new name in scope) and
/// the bindings after it, as [`local_binds`] says.
pub open spec fn local_walk<'src>(
    b: Seq<(Interned<'src>, IdInfo)>,
    bottom: nat,
    id: Identifier<'src>,
    ty: Handle,
    init: Option<ast::Expr<'src>>,
    locals: u32,
    tys: Seq<Ty<'src>>,
    p: Handle,
) -> (Seq<SemanticErrorWithCtx>, Seq<(Interned<'src>, IdInfo)>) {
    let info = IdInfo { ty, scope: ScopeTy::Local(locals) };
    let dup = duplicate_decl(binding_of(b.subrange(bottom as int, b.len() as int), id.name), info);
    let b1 = if dup {
        b
    } else {
        b.push((id.name, info))
    };
    let ed = if dup {
        seq![SemanticErrorWithCtx { ctx: id.ctx, err: SemanticError::DuplicateDecl }]
    } else {
        Seq::empty()
    };
    let ei = match init {
        Some(e) => expr_check(b1, tys, p, e).0,
        None => Seq::empty(),
    };
    (ed + ei, b1)
}

/// What checking [`plain_stmt`] statements in order gives, as
/// [`stmt_walk`] says for each.
pub open spec fn stmts_walk<'src>(
    v: Seq<ast::Stmt<'src>>,
    g: Seq<(Identifier<'src>, bool)>,
    b: Seq<(Interned<'src>, IdInfo)>,
    bottom: nat,
    depth: u32,
    sw: bool,
    locals: u32,
    tys: Seq<Ty<'src>>,
    p: Handle,
) -> (Seq<SemanticErrorWithCtx>, Seq<(Interned<'src>, IdInfo)>, u32)
    decreases v,
{
    if v.len() == 0 {
        (Seq::empty(), b, locals)
    } else {
        let w = stmts_walk(v.subrange(0, v.len() - 1), g, b, bottom, depth, sw, locals, tys, p);
        let x = stmt_walk(v[v.len() - 1], goto_walk_seq(g, v.subrange(0, v.len() - 1)), w.1, bottom, depth, sw, w.2, tys, p);
        (w.0 + x.0, x.1, x.2)
    }
}

/// A [`plain_stmt`] statement defines no function.
proof fn lemma_plain_quiet<'src>(s: ast::Stmt<'src>)
    requires
        plain_stmt(s),
    ensures
        stmt_defs(s).len() == 0,
    decreases s,
{
    match s {
        ast::Stmt::Block(v) => lemma_plain_quiet_seq(v@),
        ast::Stmt::Decl(d) => {
            assert(decl_defs(*d).len() == 0);
        },
        ast::Stmt::Do(b, _) => lemma_plain_quiet(*b),
        ast::Stmt::While(_, b) => lemma_plain_quiet(*b),
        ast::Stmt::Labled(_, b) => lemma_plain_quiet(*b),
        ast::Stmt::For(f) => {
            match f.init {
                Some(i) => lemma_plain_quiet(*i),
                None => {},
            }
            lemma_plain_quiet(*f.body);
        },
        ast::Stmt::If(_, a, e) => {
            lemma_plain_quiet(*a);
            match e {
                Some(b) => lemma_plain_quiet(*b),
                None => {},
            }
        },
        _ => {},
    }
}

/// Statements that are all [`plain_stmt`] define no function.
proof fn lemma_plain_quiet_seq<'src>(v: Seq<ast::Stmt<'src>>)
    requires
        plain_seq(v),
    ensures
        seq_defs(v).len() == 0,
    decreases v,
{
    if v.len() > 0 {
        lemma_plain_quiet_seq(v.subrange(0, v.len() - 1));
        lemma_plain_quiet(v[v.len() - 1]);
    }
}

/// What declaring the first `k` parameters gives: each named one is
/// declared as a local of its parameter type, as [`local_walk`] says; an
/// unnamed one is skipped.
pub open spec fn params_walk<'src>(
    names: Seq<Option<Identifier<'src>>>,
    params: Seq<Handle>,
    k: int,
    b: Seq<(Interned<'src>, IdInfo)>,
    bottom: nat,
    locals: u32,
    tys: Seq<Ty<'src>>,
    p: Handle,
) -> (Seq<SemanticErrorWithCtx>, Seq<(Interned<'src>, IdInfo)>, u32)
    decreases k,
{
    if k <= 0 {
        (Seq::empty(), b, locals)
    } else {
        let w = params_walk(names, params, k - 1, b, bottom, locals, tys, p);
        match names[k - 1] {
            Some(pid) => {
                let l = local_walk(w.1, bottom, pid, params[k - 1], None, w.2, tys, p);
                (w.0 + l.0, l.1, w.2.wrapping_add(1))
            },
            None => w,
        }
    }
}

/// Where the name of a function definition is bound: with internal
/// linkage when it is `static`.
pub open spec fn fn_scope<'src>(f: FunctionDecl<'src>) -> ScopeTy {
    if f.specifier_flags.is_static {
        ScopeTy::Internal
    } else {
        ScopeTy::External
    }
}

/// A function definition whose checking [`def_walk`] states: not both
/// `static` and `extern`, not marked defined, with a body of
/// [`plain_stmt`] statements.
pub open spec fn plain_def<'src>(f: FunctionDecl<'src>) -> bool {
    &&& f.body matches Some(b) && plain_seq(b@)
    &&& !(f.specifier_flags.is_static && f.specifier_flags.is_extern)
    &&& !f.specifier_flags.defined
}

/// The parameter types of a function of type `h`: none when `h` is not a
/// function type.
pub open spec fn param_types<'src>(tys: Seq<Ty<'src>>, h: Handle) -> Seq<Handle> {
    match fn_sig(tys, h) {
        Some((_, ps)) => ps,
        None => Seq::empty(),
    }
}

/// The errors of checking a [`plain_def`] definition `f`, first declared
/// here, from the bindings `b`, `depth` loops deep and inside a `switch` or
/// not: its name is bound, its parameters are declared in a scope of their
/// own as [`params_walk`] says, its body is checked in that scope as
/// [`stmts_walk`] says, and then each `goto` target that no statement
/// labels is reported ([`unresolved_errors`]).
pub open spec fn def_walk<'src>(
    f: FunctionDecl<'src>,
    b: Seq<(Interned<'src>, IdInfo)>,
    depth: u32,
    sw: bool,
    tys: Seq<Ty<'src>>,
    p: Handle,
) -> Seq<SemanticErrorWithCtx> {
    let b1 = b.push((f.id.name, IdInfo { ty: f.ty, scope: fn_scope(f) }));
    let params = param_types(tys, f.ty);
    let n = if f.param_names@.len() < params.len() { f.param_names@.len() } else { params.len() };
    let pw = params_walk(f.param_names@, params, n as int, b1, b1.len(), 0, tys, p);
    let bw = stmts_walk(f.body.unwrap()@, Seq::empty(), pw.1, b1.len(), depth, sw, pw.2, tys, p);
    pw.0 + bw.0 + unresolved_errors(goto_walk_seq(Seq::empty(), f.body.unwrap()@))
}

/// A [`const_only`] statement defines no function and names no `goto`
/// target.
proof fn lemma_const_only_quiet<'src>(s: ast::Stmt<'src>, g: Seq<(Identifier<'src>, bool)>)
    requires
        const_only(s),
    ensures
        stmt_defs(s).len() == 0,
        goto_walk(g, s) == g,
    decreases s,
{
    match s {
        ast::Stmt::Block(v) => lemma_const_only_quiet_seq(v@, g),
        ast::Stmt::Do(b, _) => lemma_const_only_quiet(*b, g),
        ast::Stmt::While(_, b) => lemma_const_only_quiet(*b, g),
        ast::Stmt::For(f) => {
            match f.init {
                Some(i) => lemma_const_only_quiet(*i, g),
                None => {},
            }
            lemma_const_only_quiet(*f.body, g);
        },
        ast::Stmt::If(_, a, e) => {
            lemma_const_only_quiet(*a, g);
            match e {
                Some(b) => lemma_const_only_quiet(*b, g),
                None => {},
            }
        },
        _ => {},
    }
}

/// Statements that are all [`const_only`] define no function and name no
/// `goto` target.
proof fn lemma_const_only_quiet_seq<'src>(v: Seq<ast::Stmt<'src>>, g: Seq<(Identifier<'src>, bool)>)
    requires
        const_only_seq(v),
    ensures
        seq_defs(v).len() == 0,
        goto_walk_seq(g, v) == g,
    decreases v,
{
    if v.len() > 0 {
        lemma_const_only_quiet_seq(v.subrange(0, v.len() - 1), g);
        lemma_const_only_quiet(v[v.len() - 1], g);
    }
}

/// What a [`const_only`] statement is checked into can be lowered: its
/// expressions are all constants.
proof fn lemma_const_only_supported<'src>(s: ast::Stmt<'src>, t: typed::Stmt<'src>, globals: bool)
    requires
        const_only(s),
        stmt_shape(s, t),
    ensures
        typed::stmt_supported(t, globals),
    decreases s,
{
    match s {
        ast::Stmt::Block(v) => {
            if let typed::Stmt::Block(w) = t {
                assert forall|i: int| 0 <= i < w@.len() implies typed::stmt_supported(#[trigger] w@[i], globals) by {
                    lemma_const_only_prefix(v@, i);
                    vstd::std_specs::vec::axiom_vec_index_decreases(v, i);
                    assert(decreases_to!(v => v@[i]));
                    lemma_const_only_supported(v@[i], w@[i], globals);
                }
            }
        },
        ast::Stmt::Do(b, _) => {
            if let typed::Stmt::Do(tb, _) = t {
                lemma_const_only_supported(*b, *tb, globals);
            }
        },
        ast::Stmt::While(_, b) => {
            if let typed::Stmt::While(_, tb) = t {
                lemma_const_only_supported(*b, *tb, globals);
            }
        },
        ast::Stmt::For(f) => {
            if let typed::Stmt::For(tf) = t {
                match (f.init, tf.init) {
                    (Some(i), Some(ti)) => lemma_const_only_supported(*i, *ti, globals),
                    _ => {},
                }
                lemma_const_only_supported(*f.body, *tf.body, globals);
            }
        },
        ast::Stmt::If(_, a, e) => {
            if let typed::Stmt::If(_, ta, te) = t {
                lemma_const_only_supported(*a, *ta, globals);
                match (e, te) {
                    (Some(b), Some(tb)) => lemma_const_only_supported(*b, *tb, globals),
                    _ => {},
                }
            }
        },
        _ => {},
    }
}

/// The definitions of a unit of [`clean_def`] definitions are its items, in
/// order.
pub proof fn lemma_clean_defs<'src>(items: Seq<Declaration<'src>>)
    requires
        forall|i: int| 0 <= i < items.len() ==> decl_clean(#[trigger] items[i]),
    ensures
        program_defs(items).len() == items.len(),
        forall|i: int| 0 <= i < items.len() ==> items[i] == Declaration::Fn(#[trigger] program_defs(items)[i]),
    decreases items.len(),
{
    if items.len() == 0 {
        assert(Seq::new(items.len(), |i: int| item_defs(items[i])) =~= Seq::<Seq<FunctionDecl<'src>>>::empty());
        assert(program_defs(items) =~= Seq::<FunctionDecl<'src>>::empty());
    } else {
        let v = items.drop_last();
        let d = items.last();
        assert forall|i: int| 0 <= i < v.len() implies decl_clean(#[trigger] v[i]) by {
            assert(v[i] == items[i]);
        }
        lemma_clean_defs(v);
        lemma_program_defs_push(v, d);
        assert(v.push(d) =~= items);
        assert(decl_clean(items[items.len() - 1]));
        if let Declaration::Fn(f) = d {
            lemma_const_only_quiet_seq(f.body.unwrap()@, Seq::empty());
            assert(item_defs(d) =~= seq![f]);
        }
        assert forall|i: int| 0 <= i < items.len() implies items[i] == Declaration::Fn(#[trigger] program_defs(items)[i]) by {
            if i < v.len() {
                assert(program_defs(items)[i] == program_defs(v)[i]);
                assert(items[i] == v[i]);
            }
        }
    }
}

/// A function definition that the checker accepts as long as its body has
/// no `break` or `continue` out of place: it is neither `static` nor marked
/// defined, takes no parameters, and its body is [`const_only`].
pub open spec fn clean_def<'src>(f: FunctionDecl<'src>) -> bool {
    &&& f.body matches Some(b) && const_only_seq(b@)
    &&& f.param_names@.len() == 0
    &&& !f.specifier_flags.is_static
    &&& !f.specifier_flags.defined
}

/// The declaration is a [`clean_def`] function definition.
pub open spec fn decl_clean<'src>(d: Declaration<'src>) -> bool {
    d matches Declaration::Fn(f) && clean_def(f)
}

/// The number of the name that a declaration declares.
pub open spec fn decl_name_index<'src>(d: Declaration<'src>) -> nat {
    match d {
        Declaration::Fn(f) => f.id.name.index(),
        Declaration::Var(v) => v.id.name.index(),
    }
}

/// A unit of [`clean_def`] function definitions with distinct names.
pub open spec fn program_clean<'src>(items: Seq<Declaration<'src>>) -> bool {
    &&& forall|i: int| 0 <= i < items.len() ==> decl_clean(#[trigger] items[i])
    &&& forall|i: int, j: int| 0 <= i < j < items.len() ==> decl_name_index(#[trigger] items[i]) != decl_name_index(#[trigger] items[j])
}

/// The checked function `t` of a [`plain_def`] definition `f`, first
/// declared here from the bindings `b`, resolves the names of its body as
/// [`stmts_res`] says, from the bindings [`def_walk`] gives after the
/// parameters.
pub open spec fn def_res<'src>(
    f: FunctionDecl<'src>,
    t: typed::Function<'src>,
    b: Seq<(Interned<'src>, IdInfo)>,
    depth: u32,
    sw: bool,
    tys: Seq<Ty<'src>>,
    p: Handle,
) -> bool {
    let b1 = b.push((f.id.name, IdInfo { ty: f.ty, scope: fn_scope(f) }));
    let params = param_types(tys, f.ty);
    let n = if f.param_names@.len() < params.len() { f.param_names@.len() } else { params.len() };
    let pw = params_walk(f.param_names@, params, n as int, b1, b1.len(), 0, tys, p);
    stmts_res(f.body.unwrap()@, t.body@, Seq::empty(), pw.1, b1.len(), depth, sw, pw.2, tys, p)
}

/// The checked functions `fs` of a [`program_plain`] unit are those of its
/// definitions, in order, each resolving its names as [`def_res`] says from
/// the file-scope bindings [`unit_walk`] gives before it.
pub open spec fn unit_res<'src>(items: Seq<Declaration<'src>>, fs: Seq<typed::Function<'src>>, tys: Seq<Ty<'src>>, p: Handle) -> bool
    decreases items.len(),
{
    if items.len() == 0 {
        fs.len() == 0
    } else {
        let pre = items.subrange(0, items.len() - 1);
        match items[items.len() - 1] {
            Declaration::Fn(f) => fs.len() > 0 && unit_res(pre, fs.drop_last(), tys, p) && def_res(
                f,
                fs.last(),
                unit_walk(pre, tys, p).1,
                0,
                false,
                tys,
                p,
            ),
            Declaration::Var(_) => unit_res(pre, fs, tys, p),
        }
    }
}

/// A file-scope declaration whose checking [`unit_walk`] states: a
/// [`plain_def`] function definition, or a variable.
pub open spec fn decl_plain<'src>(d: Declaration<'src>) -> bool {
    match d {
        Declaration::Fn(f) => plain_def(f),
        Declaration::Var(_) => true,
    }
}

/// A unit of [`decl_plain`] declarations, each of its own name.
pub open spec fn program_plain<'src>(items: Seq<Declaration<'src>>) -> bool {
    &&& forall|i: int| 0 <= i < items.len() ==> decl_plain(#[trigger] items[i])
    &&& forall|i: int, j: int| 0 <= i < j < items.len() ==> decl_name_index(#[trigger] items[i]) != decl_name_index(#[trigger] items[j])
}

/// What checking the declarations of a [`program_plain`] unit in order
/// gives, over the types `tys` and the poisoned type `p`: the errors, in
/// order, and the file-scope bindings after them. A function definition
/// reports what [`def_walk`] says and binds its name; a variable reports
/// what [`global_errors`] says of a name seen for the first time, and binds
/// its name.
pub open spec fn unit_walk<'src>(items: Seq<Declaration<'src>>, tys: Seq<Ty<'src>>, p: Handle) -> (Seq<SemanticErrorWithCtx>, Seq<(Interned<'src>, IdInfo)>)
    decreases items.len(),
{
    if items.len() == 0 {
        (Seq::empty(), Seq::empty())
    } else {
        let w = unit_walk(items.subrange(0, items.len() - 1), tys, p);
        match items[items.len() - 1] {
            Declaration::Fn(f) => (w.0 + def_walk(f, w.1, 0, false, tys, p), w.1.push((f.id.name, IdInfo { ty: f.ty, scope: fn_scope(f) }))),
            Declaration::Var(v) => (w.0 + global_errors(None, None, v), w.1.push((v.id.name, global_info(None, v)))),
        }
    }
}

/// A name bound nowhere in `b` has no binding.
proof fn lemma_binding_absent<'src>(b: Seq<(Interned<'src>, IdInfo)>, name: Interned<'src>)
    requires
        forall|j: int| 0 <= j < b.len() ==> (#[trigger] b[j]).0.index() != name.index(),
    ensures
        binding_of(b, name) is None,
    decreases b.len(),
{
    if b.len() > 0 {
        let c = b.drop_last();
        assert forall|j: int| 0 <= j < c.len() implies (#[trigger] c[j]).0.index() != name.index() by {
            assert(c[j] == b[j]);
        }
        lemma_binding_absent(c, name);
    }
}

/// One of the first `k` declarations declares a name numbered as `n`.
pub open spec fn named_before<'src>(items: Seq<Declaration<'src>>, k: int, n: Interned<'src>) -> bool {
    exists|i: int| 0 <= i < k && decl_name_index(#[trigger] items[i]) == n.index()
}

/// The errors that checking the definitions of a [`program_clean`] unit
/// reports, in order: those of [`control_errors`] for each body, at file
/// scope.
pub open spec fn clean_errors<'src>(items: Seq<Declaration<'src>>) -> Seq<SemanticErrorWithCtx>
    decreases items.len(),
{
    if items.len() == 0 {
        Seq::empty()
    } else {
        clean_errors(items.subrange(0, items.len() - 1)) + match items[items.len() - 1] {
            Declaration::Fn(f) => match f.body {
                Some(b) => control_errors_seq(b@, 0, false),
                None => Seq::empty(),
            },
            _ => Seq::empty(),
        }
    }
}

/// What declaring a local variable named `name` of type `ty`, numbered
/// `id`, does to the bindings `before`, whose innermost scope begins at
/// `bottom`: a name already declared in that scope, other than as
/// `extern`, is refused and nothing is bound; else the name is bound to the
/// new local.
pub open spec fn local_binds<'src>(
    before: Seq<(Interned<'src>, IdInfo)>,
    after: Seq<(Interned<'src>, IdInfo)>,
    bottom: nat,
    name: Interned<'src>,
    ty: Handle,
    id: u32,
) -> bool {
    let info = IdInfo { ty, scope: ScopeTy::Local(id) };
    if duplicate_decl(binding_of(before.subrange(bottom as int, before.len() as int), name), info) {
        after == before
    } else {
        after == before.push((name, info))
    }
}

/// A declaration in a body, checked into `t`, took the bindings from
/// `before` to `after`: a local variable (neither `extern` nor `static`) is
/// bound as [`local_binds`] says, and its initializer is checked with it in
/// scope.
pub open spec fn decl_scoped<'src>(
    d: Declaration<'src>,
    t: typed::Stmt<'src>,
    before: Seq<(Interned<'src>, IdInfo)>,
    after: Seq<(Interned<'src>, IdInfo)>,
    bottom: nat,
) -> bool {
    match d {
        Declaration::Var(v) => v.specifier_flags.is_extern || v.specifier_flags.is_static || exists|id: u32|
            #[trigger] local_binds(before, after, bottom, v.id.name, v.ty, id) && match t {
                typed::Stmt::Decl(i) => match (v.init, i) {
                    (Some(e), Some(te)) => expr_resolves(after, e, *te),
                    (None, None) => true,
                    _ => false,
                },
                _ => false,
            },
        Declaration::Fn(_) => true,
    }
}

/// A statement checked into `t` took the bindings from `before` to `after`
/// (the innermost scope beginning at `bottom`): it only added bindings, a
/// block or a `for` added none, a declaration bound as [`decl_scoped`]
/// says, and the names of an expression statement, a `return` value and
/// the condition of an `if` or a `while` stand for what `before` gives them.
pub open spec fn stmt_scoped<'src>(
    s: ast::Stmt<'src>,
    t: typed::Stmt<'src>,
    before: Seq<(Interned<'src>, IdInfo)>,
    after: Seq<(Interned<'src>, IdInfo)>,
    bottom: nat,
) -> bool {
    &&& bindings_extend(before, after)
    &&& match s {
        ast::Stmt::Block(_) => after == before,
        ast::Stmt::For(_) => after == before,
        ast::Stmt::Decl(d) => decl_scoped(*d, t, before, after, bottom),
        ast::Stmt::Expr(e) => match t {
            typed::Stmt::Expr(te) => expr_resolves(before, *e, *te),
            _ => false,
        },
        ast::Stmt::Return(e) => match t {
            typed::Stmt::Return(te) => expr_resolves(before, *e, *te),
            _ => false,
        },
        ast::Stmt::If(c, _, _) => match t {
            typed::Stmt::If(tc, _, _) => expr_resolves(before, *c, *tc),
            _ => false,
        },
        ast::Stmt::While(c, _) => match t {
            typed::Stmt::While(tc, _) => expr_resolves(before, *c, *tc),
            _ => false,
        },
        _ => true,
    }
}

/// Statements checked in order took the bindings from `first` to `last`,
/// each as [`stmt_scoped`] says, each starting where the one before ended.
pub open spec fn stmts_scoped<'src>(
    v: Seq<ast::Stmt<'src>>,
    t: Seq<typed::Stmt<'src>>,
    sc: Seq<(Seq<(Interned<'src>, IdInfo)>, Seq<(Interned<'src>, IdInfo)>)>,
    first: Seq<(Interned<'src>, IdInfo)>,
    last: Seq<(Interned<'src>, IdInfo)>,
    bottom: nat,
) -> bool {
    &&& sc.len() == v.len() && t.len() == v.len()
    &&& v.len() == 0 ==> first == last
    &&& v.len() > 0 ==> sc[0].0 == first && sc[v.len() - 1].1 == last
    &&& forall|i: int| 0 <= i < v.len() ==> stmt_scoped(v[i], t[i], (#[trigger] sc[i]).0, sc[i].1, bottom)
    &&& forall|i: int| 0 <= i < v.len() - 1 ==> (#[trigger] sc[i]).1 == sc[i + 1].0
}

/// The bindings `b` hold those of `a` first, then possibly more.
pub open spec fn bindings_extend<'src>(a: Seq<(Interned<'src>, IdInfo)>, b: Seq<(Interned<'src>, IdInfo)>) -> bool {
    a.len() <= b.len() && b.subrange(0, a.len() as int) == a
}

/// Holding the bindings of another is reflexive, transitive, and survives
/// adding one.
pub proof fn lemma_bindings_extend<'src>(a: Seq<(Interned<'src>, IdInfo)>)
    ensures
        bindings_extend(a, a),
        forall|x: (Interned<'src>, IdInfo)| #[trigger] bindings_extend(a, a.push(x)),
        forall|b: Seq<(Interned<'src>, IdInfo)>, c: Seq<(Interned<'src>, IdInfo)>|
            #[trigger] bindings_extend(a, b) && #[trigger] bindings_extend(b, c) ==> bindings_extend(a, c),
{
    assert(a.subrange(0, a.len() as int) =~= a);
    assert forall|x: (Interned<'src>, IdInfo)| #[trigger] bindings_extend(a, a.push(x)) by {
        assert(a.push(x).subrange(0, a.len() as int) =~= a);
    }
    assert forall|b: Seq<(Interned<'src>, IdInfo)>, c: Seq<(Interned<'src>, IdInfo)>|
        #[trigger] bindings_extend(a, b) && #[trigger] bindings_extend(b, c) implies bindings_extend(a, c) by {
        assert(c.subrange(0, a.len() as int) =~= c.subrange(0, b.len() as int).subrange(0, a.len() as int));
    }
}

/// `errs` holds `u` from position `k` on.
pub open spec fn errors_at(errs: Seq<SemanticErrorWithCtx>, k: int, u: Seq<SemanticErrorWithCtx>) -> bool {
    0 <= k && k + u.len() <= errs.len() && errs.subrange(k, k + u.len()) == u
}

/// What the checker records of its `goto` targets.
spec fn goto_view<'src>(gs: Seq<GotoLabel<'src>>) -> Seq<(Identifier<'src>, bool)> {
    Seq::new(gs.len(), |i: int| (gs[i].id, gs[i].declared))
}

/// No two `goto` targets have the same name.
spec fn goto_distinct<'src>(gs: Seq<GotoLabel<'src>>) -> bool {
    forall|i: int, j: int| 0 <= i < j < gs.len() ==> #[trigger] gs[i].id.name.index() != #[trigger] gs[j].id.name.index()
}

/// No `goto` target is named `name`.
spec fn no_goto<'src>(gs: Seq<GotoLabel<'src>>, name: Interned<'src>) -> bool {
    forall|j: int| 0 <= j < gs.len() ==> gs[j].id.name.index() != name.index()
}

/// The constant a static variable starts with: its initializer when that
/// is a constant.
pub open spec fn static_def(init: Option<ast::Expr>) -> Option<i32> {
    match init {
        Some(e) => match e.expr {
            ast::ExprTy::Constant(c) => Some(c),
            _ => None,
        },
        None => None,
    }
}

/// What an initializer that is not a constant reports for a static
/// variable.
pub open spec fn static_init_errors(init: Option<ast::Expr>) -> Seq<SemanticErrorWithCtx> {
    match init {
        Some(e) => match e.expr {
            ast::ExprTy::Constant(_) => Seq::empty(),
            _ => seq![SemanticErrorWithCtx { ctx: e.ctx, err: SemanticError::NonConstGlobal }],
        },
        None => Seq::empty(),
    }
}

/// The linkage a file-scope variable gets, given what was known of its
/// name: what declaring it gives, or internal linkage after an error.
pub open spec fn var_linkage(known: Option<SymbolData>, v: VarDecl) -> Linkage {
    match typed::decl_result(known, v.specifier_flags, v.ty) {
        Ok(l) => l,
        Err(_) => Linkage::Internal,
    }
}

/// Where a file-scope variable with linkage `l` lives.
pub open spec fn linkage_scope(l: Linkage) -> ScopeTy {
    match l {
        Linkage::Internal => ScopeTy::Internal,
        Linkage::Global => ScopeTy::External,
    }
}

/// The binding a file-scope variable gets.
pub open spec fn global_info(known: Option<SymbolData>, v: VarDecl) -> IdInfo {
    IdInfo { ty: v.ty, scope: linkage_scope(var_linkage(known, v)) }
}

/// The definition a file-scope variable adds: one when its initializer is
/// a constant and the name was not defined already.
pub open spec fn global_def<'src>(known: Option<SymbolData>, v: VarDecl<'src>) -> Option<typed::GlobalVar<'src>> {
    match static_def(v.init) {
        Some(c) => if typed::decl_data(known, v.specifier_flags, v.ty).specifier_flags.defined {
            None
        } else {
            Some(typed::GlobalVar { linkage: var_linkage(known, v), name: v.id.name, generation: None, def: Some(c) })
        },
        None => None,
    }
}

/// The errors a file-scope variable reports, in order, given what was
/// known of its name and its binding in the innermost scope: the
/// declaration's, a linkage clash, an initializer that is not a constant,
/// and a second definition.
pub open spec fn global_errors(known: Option<SymbolData>, scoped: Option<IdInfo>, v: VarDecl) -> Seq<SemanticErrorWithCtx> {
    let decl = match typed::decl_result(known, v.specifier_flags, v.ty) {
        Ok(_) => Seq::empty(),
        Err(e) => seq![SemanticErrorWithCtx { ctx: v.id.ctx, err: e }],
    };
    let clash = if linkage_clash(scoped, global_info(known, v)) {
        seq![SemanticErrorWithCtx { ctx: v.id.ctx, err: SemanticError::DeclWithDifLinkage }]
    } else {
        Seq::empty()
    };
    let redefined = if static_def(v.init) is Some && typed::decl_data(known, v.specifier_flags, v.ty).specifier_flags.defined {
        seq![SemanticErrorWithCtx { ctx: v.id.ctx, err: SemanticError::DuplicateDef }]
    } else {
        Seq::empty()
    };
    decl + clash + static_init_errors(v.init) + redefined
}

/// A file-scope name clashes with its binding in the innermost scope when
/// the two have different kinds of linkage.
pub open spec fn linkage_clash(prev: Option<IdInfo>, info: IdInfo) -> bool {
    prev matches Some(p) && p.scope != info.scope
}

/// A name declared twice in one scope, neither time `extern`.
pub open spec fn duplicate_decl(prev: Option<IdInfo>, info: IdInfo) -> bool {
    prev matches Some(p) && p.scope != ScopeTy::External && info.scope != ScopeTy::External
}

impl<'src, 'p> TyChecker<'src, 'p> {
    /// The errors found so far, in order.
    pub closed spec fn errors(&self) -> Seq<SemanticErrorWithCtx> {
        self.errors@
    }

    /// The types the checker knows, by handle.
    pub closed spec fn types(&self) -> Seq<Ty<'src>> {
        self.tys.values()
    }

    /// The handle of the poisoned type, the type of what failed to check.
    pub closed spec fn poisoned(&self) -> Handle {
        self.poisoned_ty
    }

    /// The length of the source being checked.
    pub closed spec fn source_len(&self) -> nat {
        self.src_len@
    }

    /// Nothing has been checked yet.
    pub closed spec fn is_fresh(&self) -> bool {
        &&& self.errors@.len() == 0
        &&& self.goto_labels@.len() == 0
        &&& self.symbol_table.functions().len() == 0
        &&& self.symbol_table.symbols().len() == 0
        &&& self.symbol_table.globals().len() == 0
        &&& self.bindings().len() == 0
        &&& self.scope_bottom() == 0
        &&& self.label_count == 0
        &&& self.loop_depth == 0
        &&& self.switch_cases is None
    }

    /// Where the innermost name scope begins.
    pub closed spec fn scope_bottom(&self) -> nat {
        self.id_map.model().bottom
    }

    /// The names in scope, oldest first, with what each stands for.
    pub closed spec fn bindings(&self) -> Seq<(Interned<'src>, IdInfo)> {
        self.id_map.model().entries
    }

    /// The bindings of the innermost scope, oldest first.
    pub closed spec fn inner_bindings(&self) -> Seq<(Interned<'src>, IdInfo)> {
        self.id_map.model().entries.subrange(self.id_map.model().bottom as int, self.id_map.model().entries.len() as int)
    }

    /// Every error lies within the source, and the name scopes are well
    /// formed.
    pub closed spec fn wf(&self) -> bool {
        &&& forall|i: int| 0 <= i < self.errors@.len() ==> ctx_within(#[trigger] self.errors@[i].ctx, self.src_len@)
        &&& forall|i: int| 0 <= i < self.goto_labels@.len() ==> ctx_within(#[trigger] self.goto_labels@[i].id.ctx, self.src_len@)
        &&& goto_distinct(self.goto_labels@)
        &&& self.id_map.wf()
    }

    /// A `break` is allowed: inside a loop or a `switch`.
    pub closed spec fn spec_can_break(&self) -> bool {
        self.loop_depth > 0 || self.switch_cases is Some
    }

    /// A `continue` is allowed: inside a loop.
    pub closed spec fn spec_can_continue(&self) -> bool {
        self.loop_depth > 0
    }

    /// Nothing but the errors and the counters changed since `old`.
    pub closed spec fn frame(&self, old: Self) -> bool {
        &&& self.tys == old.tys
        &&& self.poisoned_ty == old.poisoned_ty
        &&& self.symbol_table == old.symbol_table
        &&& self.src_len == old.src_len
        &&& self.goto_labels == old.goto_labels
        &&& self.id_map == old.id_map
    }

    /// Only the errors changed since `old`.
    pub closed spec fn only_errors(&self, old: Self) -> bool {
        &&& self.frame(old)
        &&& self.label_count == old.label_count
        &&& self.local_count == old.local_count
        &&& self.local_static_count == old.local_static_count
        &&& self.loop_depth == old.loop_depth
        &&& self.switch_cases == old.switch_cases
    }

    /// The loop and `switch` context and the type interner are as in `old`.
    pub closed spec fn context_kept(&self, old: Self) -> bool {
        &&& self.loop_depth == old.loop_depth
        &&& (self.switch_cases is Some <==> old.switch_cases is Some)
        &&& self.tys == old.tys
        &&& self.poisoned_ty == old.poisoned_ty
    }

    /// `self` was reached from `old` by checking: invariant kept, errors
    /// only added, the innermost scope unchanged.
    pub closed spec fn step_from(&self, old: Self) -> bool {
        &&& self.wf()
        &&& self.source_len() == old.source_len()
        &&& appended(old.errors(), self.errors())
        &&& self.scope_bottom() == old.scope_bottom()
        &&& self.symbol_table.keys_kept_from(old.symbol_table)
        &&& self.symbol_table.functions() == old.symbol_table.functions()
    }

    /// As `step_from`, for a step that may define functions: when it found
    /// no error, the functions it defined are those of `defs`, in order.
    pub closed spec fn step_defs(&self, old: Self, defs: Seq<FunctionDecl<'src>>) -> bool {
        &&& self.wf()
        &&& self.source_len() == old.source_len()
        &&& appended(old.errors(), self.errors())
        &&& self.scope_bottom() == old.scope_bottom()
        &&& self.symbol_table.keys_kept_from(old.symbol_table)
        &&& self.errors() == old.errors() ==> fns_added(
            old.symbol_table.functions(),
            self.symbol_table.functions(),
            defs,
        )
    }

    /// Two steps make one, meeting the definitions of both in order.
    proof fn lemma_defs_trans(a: Self, b: Self, c: Self, d1: Seq<FunctionDecl<'src>>, d2: Seq<FunctionDecl<'src>>)
        requires
            b.step_defs(a, d1),
            c.step_defs(b, d2),
        ensures
            c.step_defs(a, d1 + d2),
    {
        lemma_appended_trans(a.errors(), b.errors(), c.errors());
        if c.errors() == a.errors() {
            assert(b.errors() =~= a.errors());
            let f0 = a.symbol_table.functions();
            let f1 = b.symbol_table.functions();
            let f2 = c.symbol_table.functions();
            assert forall|i: int| 0 <= i < (d1 + d2).len() implies fn_matches(#[trigger] (d1 + d2)[i], f2[f0.len() + i]) by {
                if i < d1.len() {
                    assert(f2[f0.len() + i] == f1[f0.len() + i]);
                } else {
                    assert((d1 + d2)[i] == d2[i - d1.len()]);
                }
            }
            assert forall|i: int| 0 <= i < f0.len() implies #[trigger] f2[i] == f0[i] by {
                assert(f2[i] == f1[i]);
            }
        }
    }

    /// A step that defines nothing.
    proof fn lemma_no_defs(a: Self, b: Self)
        requires
            b.step_from(a),
        ensures
            b.step_defs(a, Seq::empty()),
    {
    }

    /// A step that defines nothing, then one that defines `d`.
    proof fn lemma_defs_after(a: Self, b: Self, c: Self, d: Seq<FunctionDecl<'src>>)
        requires
            b.step_from(a),
            c.step_defs(b, d),
        ensures
            c.step_defs(a, d),
    {
        Self::lemma_no_defs(a, b);
        Self::lemma_defs_trans(a, b, c, Seq::empty(), d);
        assert(Seq::<FunctionDecl<'src>>::empty() + d =~= d);
    }

    /// A step that defines `d`, then one that defines nothing.
    proof fn lemma_defs_before(a: Self, b: Self, c: Self, d: Seq<FunctionDecl<'src>>)
        requires
            b.step_defs(a, d),
            c.step_from(b),
        ensures
            c.step_defs(a, d),
    {
        Self::lemma_no_defs(b, c);
        Self::lemma_defs_trans(a, b, c, d, Seq::empty());
        assert(d + Seq::<FunctionDecl<'src>>::empty() =~= d);
    }

    /// A checker with nothing recorded; `Poisoned` is interned into
    /// `ty_interner` for the expressions that fail to check.
    pub fn new(ty_interner: &'p mut TyInterner<'src>) -> (r: Self)
        ensures
            r.wf(),
            r.is_fresh(),
    {
        let poisoned_ty = ty_interner.intern(Ty::Poisoned);
        TyChecker {
            tys: ty_interner,
            poisoned_ty,
            errors: Vec::new(),
            id_map: ScopeStack::new(),
            symbol_table: SymbolTable::new(),
            label_count: 0,
            goto_labels: Vec::new(),
            local_count: 0,
            local_static_count: 0,
            loop_depth: 0,
            switch_cases: None,
            src_len: Ghost(0),
        }
    }

    /// Checks a whole program parsed from `src`. Any semantic error makes
    /// the result an error that shows every error found.
    pub fn check(self, src: &str, src_path: String, program: ast::Program<'src>) -> (r: Result<typed::Program<'src>, CompileError>)
        requires
            self.wf(),
            self.is_fresh(),
            ast::program_ok(program, src@.len()),
            src@.len() < usize::MAX,
        ensures
            match r {
                Ok(p) => {
                    &&& p.functions@.len() == program_defs(program.items@).len()
                    &&& forall|i: int| 0 <= i < p.functions@.len()
                        ==> fn_matches(program_defs(program.items@)[i], #[trigger] p.functions@[i])
                },
                Err(e) => {
                    &&& compile_error_wf(e)
                    &&& e matches CompileError::SemanticErrors { src_path: p, err_cache }
                    &&& p@ == src_path@
                    &&& err_cache.entries().len() > 0
                },
            },
            program_plain(program.items@) ==> (r is Ok <==> unit_walk(program.items@, self.types(), self.poisoned()).0.len() == 0),
            program_plain(program.items@) ==> (r matches Ok(p) ==> unit_res(program.items@, p.functions@, self.types(), self.poisoned())),
            program_plain(program.items@) ==> match r {
                Err(CompileError::SemanticErrors { err_cache, .. }) => {
                    let errs = unit_walk(program.items@, self.types(), self.poisoned()).0;
                    &&& err_cache.entries().len() == errs.len()
                    &&& forall|i: int| 0 <= i < errs.len()
                        ==> cached_ok(src@, err_cache.line_infos(), #[trigger] err_cache.entries()[i], sorted_errors(errs)[i])
                },
                _ => true,
            },
            program_clean(program.items@) ==> (r is Ok <==> clean_errors(program.items@).len() == 0),
            program_clean(program.items@) ==> (r matches Ok(p) ==> typed::program_supported(p, false) && typed::program_supported(
                p,
                true,
            ) && p.globals@.len() == 0 && p.labels == 0 && forall|i: int| 0 <= i < p.functions@.len()
                ==> (#[trigger] p.functions@[i]).local_count == 0),
            program_clean(program.items@) ==> match r {
                Err(CompileError::SemanticErrors { err_cache, .. }) => {
                    let errs = clean_errors(program.items@);
                    &&& err_cache.entries().len() == errs.len()
                    &&& forall|i: int| 0 <= i < errs.len()
                        ==> cached_ok(src@, err_cache.line_infos(), #[trigger] err_cache.entries()[i], sorted_errors(errs)[i])
                },
                _ => true,
            },
    {
        let mut this = self;
        this.src_len = Ghost(src@.len());
        let ghost start = this;
        let ast::Program { items } = program;
        let mut items = items;
        let ghost orig = items@;
        let n = items.len();
        let mut k: usize = 0;
        proof {
            assert(orig.len() == n);
            assert(this.errors@.take(this.errors@.len() as int) =~= this.errors@);
            assert(orig.subrange(0, 0) =~= Seq::<Declaration<'src>>::empty());
            assert(items@ =~= orig.subrange(0, orig.len() as int));
            assert(this.errors() =~= clean_errors(orig.subrange(0, 0)));
            assert forall|n: Interned<'src>| !named_before(orig, 0, n) implies #[trigger] this.symbol_table.known(n) is None by {
                assert(this.symbol_table.symbols().len() == 0);
            }
            assert(this.bindings() =~= unit_walk(orig.subrange(0, 0), start.types(), start.poisoned_ty).1);
        }
        while items.len() > 0
            invariant
                this.step_defs(start, program_defs(orig.subrange(0, k as int))),
                this.source_len() == src@.len(),
                k + items@.len() == orig.len(),
                orig.len() <= usize::MAX,
                items@ == orig.subrange(k as int, orig.len() as int),
                forall|i: int| 0 <= i < orig.len() ==> decl_ok(#[trigger] orig[i], src@.len()),
                orig == program.items@,
                start.is_fresh(),
                program_clean(orig) ==> this.errors() == clean_errors(orig.subrange(0, k as int)),
                program_clean(orig) ==> this.goto_labels@.len() == 0 && this.loop_depth == 0 && this.switch_cases is None,
                program_clean(orig) ==> forall|n: Interned<'src>| !named_before(orig, k as int, n) ==> #[trigger] this.symbol_table.known(n) is None,
                program_clean(orig) ==> this.symbol_table.globals().len() == 0 && typed::all_defined(this.symbol_table.symbols()),
                program_clean(orig) ==> this.label_count == 0 && forall|j: int| 0 <= j < this.symbol_table.functions().len()
                    ==> (#[trigger] this.symbol_table.functions()[j]).local_count == 0,
                this.tys == start.tys && this.poisoned_ty == start.poisoned_ty,
                program_plain(orig) ==> {
                    let w = unit_walk(orig.subrange(0, k as int), start.types(), start.poisoned_ty);
                    &&& this.errors() == w.0
                    &&& this.bindings() == w.1
                    &&& this.scope_bottom() == 0
                    &&& this.goto_labels@.len() == 0
                    &&& this.loop_depth == 0
                    &&& this.switch_cases is None
                    &&& forall|n: Interned<'src>| !named_before(orig, k as int, n) ==> #[trigger] this.symbol_table.known(n) is None
                    &&& forall|j: int| 0 <= j < w.1.len() ==> named_before(orig, k as int, (#[trigger] w.1[j]).0)
                    &&& unit_res(orig.subrange(0, k as int), this.symbol_table.functions(), start.types(), start.poisoned_ty)
                },
            decreases items@.len(),
        {
            let item = items.remove(0);
            proof {
                assert(item == orig[k as int]);
                assert(items@ =~= orig.subrange(k + 1, orig.len() as int));
                assert(decl_ok(item, src@.len()));
            }
            let ghost before = this;
            proof {
                if program_plain(orig) {
                    assert(decl_plain(orig[k as int]));
                    let nk = decl_name_index(item);
                    assert forall|n: Interned<'src>| n.index() == nk implies !named_before(orig, k as int, n) by {
                        assert forall|i: int| 0 <= i < k implies decl_name_index(#[trigger] orig[i]) != n.index() by {
                            assert(decl_name_index(orig[i]) != decl_name_index(orig[k as int]));
                        }
                    }
                    let wb = unit_walk(orig.subrange(0, k as int), start.types(), start.poisoned_ty).1;
                    assert forall|j: int| 0 <= j < wb.len() implies (#[trigger] wb[j]).0.index() != nk by {
                        assert(named_before(orig, k as int, wb[j].0));
                    }
                }
                if program_clean(orig) {
                    assert(decl_clean(orig[k as int]));
                    let nk = decl_name_index(item);
                    assert forall|n: Interned<'src>| n.index() == nk implies !named_before(orig, k as int, n) by {
                        assert forall|i: int| 0 <= i < k implies decl_name_index(#[trigger] orig[i]) != n.index() by {
                            assert(decl_name_index(orig[i]) != decl_name_index(orig[k as int]));
                        }
                    }
                }
            }
            match item {
                Declaration::Fn(fun) => {
                    proof {
                        if program_plain(orig) {
                            assert(!named_before(orig, k as int, fun.id.name));
                            assert(this.symbol_table.known(fun.id.name) is None);
                            assert(this.inner_bindings() =~= this.bindings());
                            lemma_binding_absent(this.bindings(), fun.id.name);
                        }
                        if program_clean(orig) {
                            assert(!named_before(orig, k as int, fun.id.name));
                            assert(this.symbol_table.known(fun.id.name) is None);
                        }
                    }
                    this.function(fun)
                },
                Declaration::Var(var) => {
                    proof {
                        if program_plain(orig) {
                            assert(!named_before(orig, k as int, var.id.name));
                            assert(this.symbol_table.known(var.id.name) is None);
                            lemma_lookup_binding(this.inner_bindings(), var.id.name);
                            assert(this.inner_bindings() =~= this.bindings());
                            lemma_binding_absent(this.bindings(), var.id.name);
                        }
                    }
                    this.global(var);
                    proof {
                        Self::lemma_no_defs(before, this);
                    }
                },
            }
            proof {
                Self::lemma_defs_trans(start, before, this, program_defs(orig.subrange(0, k as int)), item_defs(item));
                lemma_program_defs_push(orig.subrange(0, k as int), item);
                assert(orig.subrange(0, k as int).push(item) =~= orig.subrange(0, k + 1));
                if program_plain(orig) {
                    let w = orig.subrange(0, k + 1);
                    assert(w.subrange(0, w.len() - 1) =~= orig.subrange(0, k as int));
                    assert(w[w.len() - 1] == item);
                    let ub = unit_walk(w, start.types(), start.poisoned_ty);
                    assert(this.errors() == ub.0);
                    match orig[k as int] {
                        Declaration::Fn(_) => {
                            assert(this.symbol_table.functions().drop_last() =~= before.symbol_table.functions());
                        },
                        Declaration::Var(_) => {},
                    }
                    assert(unit_res(w, this.symbol_table.functions(), start.types(), start.poisoned_ty));
                    assert(this.bindings() == ub.1);
                    assert forall|n: Interned<'src>| !named_before(orig, k + 1, n) implies #[trigger] this.symbol_table.known(n) is None by {
                        if named_before(orig, k as int, n) {
                            let i = choose|i: int| 0 <= i < k && decl_name_index(#[trigger] orig[i]) == n.index();
                            assert(0 <= i < k + 1 && decl_name_index(orig[i]) == n.index());
                        }
                        assert(decl_name_index(orig[k as int]) != n.index());
                    }
                    let wb = unit_walk(orig.subrange(0, k as int), start.types(), start.poisoned_ty).1;
                    assert forall|j: int| 0 <= j < ub.1.len() implies named_before(orig, k + 1, (#[trigger] ub.1[j]).0) by {
                        if j < wb.len() {
                            assert(ub.1[j] == wb[j]);
                            assert(named_before(orig, k as int, wb[j].0));
                            let i = choose|i: int| 0 <= i < k && decl_name_index(#[trigger] orig[i]) == wb[j].0.index();
                            assert(0 <= i < k + 1 && decl_name_index(orig[i]) == ub.1[j].0.index());
                        } else {
                            assert(decl_name_index(orig[k as int]) == ub.1[j].0.index());
                        }
                    }
                }
                if program_clean(orig) {
                    let fs0 = before.symbol_table.functions();
                    let fs1 = this.symbol_table.functions();
                    assert forall|j: int| 0 <= j < fs1.len() implies (#[trigger] fs1[j]).local_count == 0 by {
                        if j < fs0.len() {
                            assert(fs1[j] == fs0[j]);
                        }
                    }
                    let w = orig.subrange(0, k + 1);
                    assert(w.subrange(0, w.len() - 1) =~= orig.subrange(0, k as int));
                    assert(w[w.len() - 1] == item);
                    assert(this.errors() == clean_errors(w));
                    assert forall|n: Interned<'src>| !named_before(orig, k + 1, n) implies #[trigger] this.symbol_table.known(n) is None by {
                        if named_before(orig, k as int, n) {
                            let i = choose|i: int| 0 <= i < k && decl_name_index(#[trigger] orig[i]) == n.index();
                            assert(0 <= i < k + 1 && decl_name_index(orig[i]) == n.index());
                        }
                        assert(decl_name_index(orig[k as int]) != n.index());
                    }
                }
            }
            k += 1;
        }
        proof {
            assert(orig.subrange(0, k as int) =~= orig);
        }
        let ghost final_errors = this.errors();
        let TyChecker { errors, symbol_table, label_count, .. } = this;
        let (functions, globals) = symbol_table.into_parts();
        if errors.len() == 0 {
            proof {
                assert(this.errors() =~= start.errors());
                let defs = program_defs(program.items@);
                assert(orig == program.items@);
                assert forall|i: int| 0 <= i < functions@.len() implies fn_matches(defs[i], #[trigger] functions@[i]) by {
                    assert(functions@[i] == this.symbol_table.functions()[start.symbol_table.functions().len() + i]);
                }
            }
            proof {
                if program_clean(orig) {
                    let defs = program_defs(orig);
                    lemma_clean_defs(orig);
                    typed::lemma_no_tentatives(this.symbol_table.symbols());
                    assert forall|i: int, j: int| 0 <= i < functions@.len() && 0 <= j < (#[trigger] functions@[i]).body@.len()
                        implies typed::stmt_supported(#[trigger] functions@[i].body@[j], false) && typed::stmt_supported(functions@[i].body@[j], true) by {
                        assert(fn_matches(defs[i], functions@[i]));
                        assert(orig[i] == Declaration::Fn(defs[i]));
                        assert(decl_clean(orig[i]));
                        let b = defs[i].body.unwrap();
                        lemma_const_only_prefix(b@, j);
                        lemma_const_only_supported(b@[j], functions@[i].body@[j], false);
                        lemma_const_only_supported(b@[j], functions@[i].body@[j], true);
                    }
                }
            }
            Ok(typed::Program { labels: label_count, functions, globals })
        } else {
            Err(CompileError::from_semantic_errors(src, src_path, errors))
        }
    }

    fn reset_for_fn(&mut self)
        ensures
            final(self).frame(*old(self)),
            final(self).local_count == 0,
            final(self).label_count == old(self).label_count,
            final(self).errors == old(self).errors,
            final(self).id_map == old(self).id_map,
            final(self).src_len == old(self).src_len,
            final(self).loop_depth == old(self).loop_depth,
            final(self).switch_cases == old(self).switch_cases,
    {
        self.local_count = 0;
    }

    /// A fresh local number.
    fn new_local(&mut self) -> (r: u32)
        ensures
            final(self).label_count == old(self).label_count,
            final(self).local_static_count == old(self).local_static_count,
            final(self).frame(*old(self)),
            r == old(self).local_count,
            final(self).local_count == old(self).local_count.wrapping_add(1),
            final(self).errors == old(self).errors,
            final(self).id_map == old(self).id_map,
            final(self).src_len == old(self).src_len,
            final(self).loop_depth == old(self).loop_depth,
            final(self).switch_cases == old(self).switch_cases,
    {
        let local = self.local_count;
        self.local_count = self.local_count.wrapping_add(1);
        local
    }

    /// A fresh static-local number.
    fn new_local_static(&mut self) -> (r: u32)
        ensures
            final(self).label_count == old(self).label_count,
            final(self).local_count == old(self).local_count,
            final(self).frame(*old(self)),
            r == old(self).local_static_count,
            final(self).local_static_count == old(self).local_static_count.wrapping_add(1),
            final(self).errors == old(self).errors,
            final(self).id_map == old(self).id_map,
            final(self).src_len == old(self).src_len,
            final(self).loop_depth == old(self).loop_depth,
            final(self).switch_cases == old(self).switch_cases,
    {
        let n = self.local_static_count;
        self.local_static_count = self.local_static_count.wrapping_add(1);
        n
    }

    /// Records an error.
    fn log_err(&mut self, ctx: Context, err: SemanticError)
        requires
            old(self).wf(),
            ctx_within(ctx, old(self).source_len()),
        ensures
            final(self).only_errors(*old(self)),
            final(self).frame(*old(self)),
            final(self).step_from(*old(self)),
            final(self).errors() == old(self).errors().push(SemanticErrorWithCtx { ctx, err }),
            final(self).loop_depth == old(self).loop_depth,
            final(self).switch_cases == old(self).switch_cases,
            final(self).local_count == old(self).local_count,
            final(self).label_count == old(self).label_count,
    {
        self.errors.push(SemanticErrorWithCtx { ctx, err });
        proof {
            assert(self.errors@.take(old(self).errors@.len() as int) =~= old(self).errors@);
        }
    }

    /// Records an error and gives the poisoned expression that stands for
    /// what failed to check.
    fn error(&mut self, ctx: Context, err: SemanticError) -> (r: typed::Expr<'src>)
        requires
            old(self).wf(),
            ctx_within(ctx, old(self).source_len()),
        ensures
            final(self).only_errors(*old(self)),
            final(self).frame(*old(self)),
            final(self).step_from(*old(self)),
            final(self).errors() == old(self).errors().push(SemanticErrorWithCtx { ctx, err }),
            r.expr is Poisoned,
            r.ty == old(self).poisoned_ty,
            final(self).loop_depth == old(self).loop_depth,
            final(self).switch_cases == old(self).switch_cases,
    {
        self.log_err(ctx, err);
        typed::Expr { expr: typed::ExprTy::Poisoned, ty: self.poisoned_ty }
    }

    fn enter_loop(&mut self)
        ensures
            final(self).frame(*old(self)),
            final(self).loop_depth == old(self).loop_depth.wrapping_add(1),
            final(self).local_count == old(self).local_count,
            final(self).label_count == old(self).label_count,
            final(self).errors == old(self).errors,
            final(self).id_map == old(self).id_map,
            final(self).src_len == old(self).src_len,
            final(self).switch_cases == old(self).switch_cases,
    {
        self.loop_depth = self.loop_depth.wrapping_add(1);
    }

    fn exit_loop(&mut self)
        ensures
            final(self).frame(*old(self)),
            final(self).loop_depth == old(self).loop_depth.wrapping_sub(1),
            final(self).local_count == old(self).local_count,
            final(self).label_count == old(self).label_count,
            final(self).errors == old(self).errors,
            final(self).id_map == old(self).id_map,
            final(self).src_len == old(self).src_len,
            final(self).switch_cases == old(self).switch_cases,
    {
        self.loop_depth = self.loop_depth.wrapping_sub(1);
    }

    /// Starts collecting the cases of a `switch`; returns the cases of the
    /// enclosing one.
    fn enter_switch(&mut self) -> (r: Option<SwitchData>)
        ensures
            final(self).frame(*old(self)),
            r == old(self).switch_cases,
            final(self).switch_cases matches Some(d) && d.0@.len() == 0 && d.1 is None,
            final(self).errors == old(self).errors,
            final(self).id_map == old(self).id_map,
            final(self).src_len == old(self).src_len,
            final(self).loop_depth == old(self).loop_depth,
    {
        let mut data: Option<SwitchData> = Some((Vec::new(), None));
        std::mem::swap(&mut data, &mut self.switch_cases);
        data
    }

    /// Ends a `switch`: gives its cases and restores the enclosing ones.
    fn exit_switch(&mut self, old_switch_data: Option<SwitchData>) -> (r: SwitchData)
        requires
            old(self).switch_cases is Some,
        ensures
            final(self).frame(*old(self)),
            Some(r) == old(self).switch_cases,
            final(self).switch_cases == old_switch_data,
            final(self).errors == old(self).errors,
            final(self).id_map == old(self).id_map,
            final(self).src_len == old(self).src_len,
            final(self).loop_depth == old(self).loop_depth,
    {
        let mut data = old_switch_data;
        std::mem::swap(&mut data, &mut self.switch_cases);
        match data {
            Some(d) => d,
            None => (Vec::new(), None),
        }
    }

    fn can_break(&self) -> (r: bool)
        ensures
            r == self.spec_can_break(),
    {
        self.loop_depth > 0 || self.switch_cases.is_some()
    }

    fn can_continue(&self) -> (r: bool)
        ensures
            r == self.spec_can_continue(),
    {
        self.loop_depth > 0
    }

    /// A fresh label.
    fn new_label(&mut self) -> (r: Label)
        ensures
            final(self).local_count == old(self).local_count,
            final(self).local_static_count == old(self).local_static_count,
            final(self).frame(*old(self)),
            r == Label(old(self).label_count),
            final(self).label_count == old(self).label_count.wrapping_add(1),
            final(self).errors == old(self).errors,
            final(self).id_map == old(self).id_map,
            final(self).src_len == old(self).src_len,
            final(self).loop_depth == old(self).loop_depth,
            final(self).switch_cases == old(self).switch_cases,
    {
        let label = Label(self.label_count);
        self.label_count = self.label_count.wrapping_add(1);
        label
    }

    /// Whether `h` is the poisoned type.
    fn is_poisoned(&self, h: Handle) -> (r: bool)
        ensures
            r == (h.index < self.types().len() && self.types()[h.index as int] is Poisoned),
    {
        if h.index < self.tys.len() {
            match self.tys.get(h) {
                Ty::Poisoned => true,
                _ => false,
            }
        } else {
            false
        }
    }

    /// Whether `h` is `int`.
    fn is_int(&self, h: Handle) -> (r: bool)
        ensures
            r == (h.index < self.types().len() && self.types()[h.index as int] is Int),
    {
        if h.index < self.tys.len() {
            match self.tys.get(h) {
                Ty::Int => true,
                _ => false,
            }
        } else {
            false
        }
    }

    /// The return and parameter types of a function type.
    fn fn_signature(&self, h: Handle) -> (r: Option<(Handle, Vec<Handle>)>)
        ensures
            match r {
                Some((ret, params)) => h.index < self.types().len() && (self.types()[h.index as int] matches Ty::Function { ret: r2, params: p2 } && r2 == ret && p2@ == params@),
                None => !(h.index < self.types().len() && self.types()[h.index as int] is Function),
            },
    {
        if h.index < self.tys.len() {
            match self.tys.get(h) {
                Ty::Function { ret, params } => {
                    let mut copy: Vec<Handle> = Vec::new();
                    let mut i: usize = 0;
                    while i < params.len()
                        invariant
                            i <= params@.len(),
                            copy@ == params@.take(i as int),
                        decreases params@.len() - i,
                    {
                        copy.push(params[i]);
                        i += 1;
                        proof {
                            assert(copy@ =~= params@.take(i as int));
                        }
                    }
                    proof {
                        assert(copy@ =~= params@);
                    }
                    Some((*ret, copy))
                },
                _ => None,
            }
        } else {
            None
        }
    }

    /// Types agree when they are the same, or when either is poisoned.
    fn eq_or_poison(&self, a: Handle, b: Handle) -> (r: bool)
        ensures
            r == (a == b || (a.index < self.types().len() && self.types()[a.index as int] is Poisoned)
                || (b.index < self.types().len() && self.types()[b.index as int] is Poisoned)),
    {
        a == b || self.is_poisoned(a) || self.is_poisoned(b)
    }

    /// The type of an operation on operands of types `lhs` and `rhs`:
    /// their common type, or the poisoned type, with a mismatch reported
    /// unless one of them is already poisoned.
    fn common_type(&mut self, ctx: Context, lhs: Handle, rhs: Handle) -> (r: Handle)
        requires
            old(self).wf(),
            ctx_within(ctx, old(self).source_len()),
        ensures
            final(self).id_map == old(self).id_map,
            final(self).goto_labels == old(self).goto_labels,
            final(self).local_count == old(self).local_count,
            final(self).label_count == old(self).label_count,
            final(self).step_from(*old(self)),
            lhs == rhs ==> r == lhs && final(self).errors() == old(self).errors(),
            lhs != rhs ==> r == old(self).poisoned_ty,
            r == common_ty(old(self).poisoned_ty, lhs, rhs),
            final(self).errors() == old(self).errors() + common_errs(old(self).types(), ctx, lhs, rhs),
            final(self).symbol_table == old(self).symbol_table,
            lhs != rhs && !(old(self).types().len() > lhs.index && old(self).types()[lhs.index as int] is Poisoned)
                && !(old(self).types().len() > rhs.index && old(self).types()[rhs.index as int] is Poisoned)
                ==> final(self).errors() == old(self).errors().push(SemanticErrorWithCtx { ctx, err: SemanticError::TypeMismatch }),
            final(self).loop_depth == old(self).loop_depth,
            final(self).switch_cases == old(self).switch_cases,
            final(self).tys == old(self).tys,
            final(self).poisoned_ty == old(self).poisoned_ty,
    {
        proof {
            assert(self.errors() + Seq::<SemanticErrorWithCtx>::empty() =~= self.errors());
        }
        if lhs == rhs {
            proof {
                assert(self.errors@.take(self.errors@.len() as int) =~= self.errors@);
            }
            lhs
        } else if self.eq_or_poison(lhs, rhs) {
            proof {
                assert(self.errors@.take(self.errors@.len() as int) =~= self.errors@);
            }
            self.poisoned_ty
        } else {
            self.log_err(ctx, SemanticError::TypeMismatch);
            proof {
                let x = SemanticErrorWithCtx { ctx, err: SemanticError::TypeMismatch };
                assert(old(self).errors().push(x) =~= old(self).errors() + seq![x]);
            }
            self.poisoned_ty
        }
    }

    /// The type of an operation that needs an `int` operand of type
    /// `other`.
    fn common_type_int(&mut self, ctx: Context, other: Handle) -> (r: Handle)
        requires
            old(self).wf(),
            ctx_within(ctx, old(self).source_len()),
        ensures
            final(self).local_count == old(self).local_count,
            final(self).label_count == old(self).label_count,
            final(self).step_from(*old(self)),
            final(self).loop_depth == old(self).loop_depth,
            final(self).switch_cases == old(self).switch_cases,
            final(self).tys == old(self).tys,
            final(self).poisoned_ty == old(self).poisoned_ty,
            final(self).frame(*old(self)),
            final(self).id_map == old(self).id_map,
            if other.index < old(self).types().len() && old(self).types()[other.index as int] is Int {
                r == other && final(self).errors() == old(self).errors()
            } else if other.index < old(self).types().len() && old(self).types()[other.index as int] is Poisoned {
                r == old(self).poisoned_ty && final(self).errors() == old(self).errors()
            } else {
                r == old(self).poisoned_ty && final(self).errors() == old(self).errors().push(
                    SemanticErrorWithCtx { ctx, err: SemanticError::TypeMismatch },
                )
            },
    {
        if self.is_int(other) {
            proof {
                assert(self.errors@.take(self.errors@.len() as int) =~= self.errors@);
            }
            other
        } else if self.is_poisoned(other) {
            proof {
                assert(self.errors@.take(self.errors@.len() as int) =~= self.errors@);
            }
            self.poisoned_ty
        } else {
            self.log_err(ctx, SemanticError::TypeMismatch);
            self.poisoned_ty
        }
    }

    /// Declares a file-scope name, reporting a clash with an earlier
    /// declaration; gives its linkage (`Internal` after an error).
    fn declare_symbol(&mut self, id: Identifier<'src>, specifier_flags: SpecifierFlags, ty: Handle) -> (r: Linkage)
        requires
            old(self).wf(),
            ctx_within(id.ctx, old(self).source_len()),
        ensures
            final(self).local_count == old(self).local_count,
            final(self).label_count == old(self).label_count,
            final(self).step_from(*old(self)),
            final(self).context_kept(*old(self)),
            final(self).symbol_table.known(id.name) == Some(
                typed::decl_data(old(self).symbol_table.known(id.name), specifier_flags, ty),
            ),
            forall|n: Interned<'src>| n.index() != id.name.index() ==> #[trigger] final(self).symbol_table.known(n)
                == old(self).symbol_table.known(n),
            old(self).symbol_table.known(id.name) is None ==> final(self).symbol_table.symbols() == old(self).symbol_table.symbols().push(
                (id.name, typed::SymbolData { specifier_flags, ty }),
            ),
            final(self).symbol_table.globals() == old(self).symbol_table.globals(),
            final(self).id_map == old(self).id_map,
            final(self).goto_labels == old(self).goto_labels,
            final(self).local_static_count == old(self).local_static_count,
            match typed::decl_result(old(self).symbol_table.known(id.name), specifier_flags, ty) {
                Ok(l) => r == l && final(self).errors() == old(self).errors(),
                Err(e) => r == Linkage::Internal && final(self).errors() == old(self).errors().push(SemanticErrorWithCtx { ctx: id.ctx, err: e }),
            },
    {
        match self.symbol_table.decl(id.name, specifier_flags, ty) {
            Ok(linkage) => {
                proof {
                    assert(self.errors@.take(self.errors@.len() as int) =~= self.errors@);
                }
                linkage
            },
            Err(err) => {
                self.log_err(id.ctx, err);
                Linkage::Internal
            },
        }
    }

    /// Brings a file-scope name into scope; a name already in the innermost
    /// scope with another kind of linkage is reported instead.
    fn declare_id_global(&mut self, id: Identifier<'src>, id_info: IdInfo)
        requires
            old(self).wf(),
            ctx_within(id.ctx, old(self).source_len()),
        ensures
            final(self).local_count == old(self).local_count,
            final(self).label_count == old(self).label_count,
            final(self).step_from(*old(self)),
            final(self).context_kept(*old(self)),
            final(self).symbol_table == old(self).symbol_table,
            final(self).goto_labels == old(self).goto_labels,
            final(self).local_static_count == old(self).local_static_count,
            if linkage_clash(lookup(old(self).inner_bindings(), id.name), id_info) {
                &&& final(self).errors() == old(self).errors().push(
                    SemanticErrorWithCtx { ctx: id.ctx, err: SemanticError::DeclWithDifLinkage },
                )
                &&& final(self).bindings() == old(self).bindings()
            } else {
                &&& final(self).errors() == old(self).errors()
                &&& final(self).bindings() == old(self).bindings().push((id.name, id_info))
            },
    {
        let clash = match self.id_map.get_in_scope(&id.name) {
            Some(prev) => prev.scope != id_info.scope,
            None => false,
        };
        if clash {
            self.log_err(id.ctx, SemanticError::DeclWithDifLinkage);
        } else {
            self.id_map.push(id.name, id_info);
            proof {
                assert(self.errors@.take(self.errors@.len() as int) =~= self.errors@);
            }
        }
    }

    /// Brings a name into scope; declaring a name twice in one scope is an
    /// error unless either declaration is external.
    fn declare_id(&mut self, id: Identifier<'src>, id_info: IdInfo)
        requires
            old(self).wf(),
            ctx_within(id.ctx, old(self).source_len()),
        ensures
            final(self).step_from(*old(self)),
            final(self).context_kept(*old(self)),
            final(self).symbol_table == old(self).symbol_table,
            final(self).local_count == old(self).local_count,
            final(self).label_count == old(self).label_count,
            final(self).goto_labels == old(self).goto_labels,
            final(self).local_static_count == old(self).local_static_count,
            if duplicate_decl(lookup(old(self).inner_bindings(), id.name), id_info) {
                &&& final(self).errors() == old(self).errors().push(
                    SemanticErrorWithCtx { ctx: id.ctx, err: SemanticError::DuplicateDecl },
                )
                &&& final(self).bindings() == old(self).bindings()
            } else {
                &&& final(self).errors() == old(self).errors()
                &&& final(self).bindings() == old(self).bindings().push((id.name, id_info))
            },
    {
        let duplicate = match self.id_map.get_in_scope(&id.name) {
            Some(old_info) => old_info.scope != ScopeTy::External && id_info.scope != ScopeTy::External,
            None => false,
        };
        if duplicate {
            let _ = self.error(id.ctx, SemanticError::DuplicateDecl);
        } else {
            self.id_map.push(id.name, id_info);
            proof {
                assert(self.errors@.take(self.errors@.len() as int) =~= self.errors@);
            }
        }
    }

    /// Where the `goto` target named `name` is among those seen.
    fn find_goto(&self, name: Interned<'src>) -> (r: Option<usize>)
        ensures
            match r {
                Some(i) => first_goto(self.goto_labels@, name, i as int),
                None => no_goto(self.goto_labels@, name),
            },
    {
        let mut i: usize = 0;
        while i < self.goto_labels.len()
            invariant
                i <= self.goto_labels@.len(),
                forall|j: int| 0 <= j < i ==> self.goto_labels@[j].id.name.index() != name.index(),
            decreases self.goto_labels@.len() - i,
        {
            if self.goto_labels[i].id.name == name {
                return Some(i);
            }
            i += 1;
        }
        None
    }

    /// The label of `goto id`: the one of an earlier `goto` or labelled
    /// statement with that name, or a fresh one.
    fn get_or_make_goto_label(&mut self, id: Identifier<'src>) -> (r: Label)
        requires
            old(self).wf(),
            ctx_within(id.ctx, old(self).source_len()),
        ensures
            final(self).step_from(*old(self)),
            final(self).errors() == old(self).errors(),
            final(self).context_kept(*old(self)),
            final(self).symbol_table == old(self).symbol_table,
            final(self).local_count == old(self).local_count,
            final(self).id_map == old(self).id_map,
            final(self).local_static_count == old(self).local_static_count,
            no_goto(old(self).goto_labels@, id.name) ==> {
                &&& r == Label(old(self).label_count)
                &&& final(self).label_count == old(self).label_count.wrapping_add(1)
                &&& final(self).goto_labels@ == old(self).goto_labels@.push(GotoLabel { id, label: r, declared: false })
            },
            !no_goto(old(self).goto_labels@, id.name) ==> exists|i: int| {
                &&& #[trigger] first_goto(old(self).goto_labels@, id.name, i)
                &&& r == old(self).goto_labels@[i].label
                &&& final(self).label_count == old(self).label_count
                &&& final(self).goto_labels@ == old(self).goto_labels@
            },
            goto_view(final(self).goto_labels@) == goto_seen(goto_view(old(self).goto_labels@), id),
    {
        proof {
            assert(self.errors@.take(self.errors@.len() as int) =~= self.errors@);
        }
        let ghost g = goto_view(self.goto_labels@);
        match self.find_goto(id.name) {
            Some(i) => {
                proof {
                    assert(g[i as int].0.name.index() == id.name.index());
                }
                self.goto_labels[i].label
            },
            None => {
                let label = self.new_label();
                self.goto_labels.push(GotoLabel { id, label, declared: false });
                proof {
                    assert(!exists|i: int| 0 <= i < g.len() && g[i].0.name.index() == id.name.index());
                    assert(goto_view(self.goto_labels@) =~= g.push((id, false)));
                }
                label
            },
        }
    }

    /// The label of a labelled statement `id:`; a second statement with that
    /// label is reported.
    fn make_goto_label(&mut self, id: Identifier<'src>) -> (r: Label)
        requires
            old(self).wf(),
            ctx_within(id.ctx, old(self).source_len()),
        ensures
            final(self).step_from(*old(self)),
            final(self).context_kept(*old(self)),
            final(self).symbol_table == old(self).symbol_table,
            final(self).local_count == old(self).local_count,
            final(self).id_map == old(self).id_map,
            final(self).local_static_count == old(self).local_static_count,
            no_goto(old(self).goto_labels@, id.name) ==> {
                &&& r == Label(old(self).label_count)
                &&& final(self).label_count == old(self).label_count.wrapping_add(1)
                &&& final(self).goto_labels@ == old(self).goto_labels@.push(GotoLabel { id, label: r, declared: true })
                &&& final(self).errors() == old(self).errors()
            },
            !no_goto(old(self).goto_labels@, id.name) ==> exists|i: int| {
                let g = old(self).goto_labels@[i];
                &&& #[trigger] first_goto(old(self).goto_labels@, id.name, i)
                &&& r == g.label
                &&& final(self).label_count == old(self).label_count
                &&& final(self).goto_labels@ == old(self).goto_labels@.update(i, GotoLabel { id: g.id, label: g.label, declared: true })
                &&& final(self).errors() == if g.declared {
                    old(self).errors().push(SemanticErrorWithCtx { ctx: id.ctx, err: SemanticError::DuplicateDecl })
                } else {
                    old(self).errors()
                }
            },
            goto_view(final(self).goto_labels@) == label_seen(goto_view(old(self).goto_labels@), id),
    {
        proof {
            assert(self.errors@.take(self.errors@.len() as int) =~= self.errors@);
        }
        let ghost g = goto_view(self.goto_labels@);
        match self.find_goto(id.name) {
            Some(i) => {
                let old_id = self.goto_labels[i].id;
                let label = self.goto_labels[i].label;
                if self.goto_labels[i].declared {
                    self.log_err(id.ctx, SemanticError::DuplicateDecl);
                }
                self.goto_labels.set(i, GotoLabel { id: old_id, label, declared: true });
                proof {
                    let x = id.name.index();
                    assert(first_named(g, x, i as int));
                    let c = choose|c: int| first_named(g, x, c);
                    assert(c == i) by {
                        if c < i {
                            assert(g[c].0.name.index() != x);
                        } else if c > i {
                            assert(g[i as int].0.name.index() != x);
                        }
                    }
                    assert(goto_view(self.goto_labels@) =~= g.update(i as int, (g[i as int].0, true)));
                }
                label
            },
            None => {
                let label = self.new_label();
                self.goto_labels.push(GotoLabel { id, label, declared: true });
                proof {
                    assert(!exists|c: int| first_named(g, id.name.index(), c));
                    assert(goto_view(self.goto_labels@) =~= g.push((id, true)));
                }
                label
            },
        }
    }

    /// The constant a static variable starts with: its initializer, which
    /// must be a constant (reported otherwise).
    fn static_init(&mut self, init: Option<ast::Expr<'src>>) -> (r: Option<i32>)
        requires
            old(self).wf(),
            match init {
                Some(e) => expr_ok(e, old(self).source_len()),
                None => true,
            },
        ensures
            final(self).step_from(*old(self)),
            final(self).context_kept(*old(self)),
            final(self).symbol_table == old(self).symbol_table,
            final(self).local_count == old(self).local_count,
            final(self).id_map == old(self).id_map,
            final(self).goto_labels == old(self).goto_labels,
            final(self).local_static_count == old(self).local_static_count,
            r == static_def(init),
            final(self).errors() == old(self).errors() + static_init_errors(init),
            match init {
                Some(e) => match e.expr {
                    ast::ExprTy::Constant(c) => r == Some(c) && final(self).errors() == old(self).errors(),
                    _ => r is None && final(self).errors() == old(self).errors().push(
                        SemanticErrorWithCtx { ctx: e.ctx, err: SemanticError::NonConstGlobal },
                    ),
                },
                None => r is None && final(self).errors() == old(self).errors(),
            },
    {
        proof {
            assert(self.errors@.take(self.errors@.len() as int) =~= self.errors@);
        }
        match init {
            Some(e) => match e.expr {
                ast::ExprTy::Constant(c) => Some(c),
                _ => {
                    self.log_err(e.ctx, SemanticError::NonConstGlobal);
                    None
                },
            },
            None => None,
        }
    }

    /// A file-scope (or `extern`) variable: declared, brought into scope,
    /// and defined when it has an initializer.
    fn global(&mut self, global: VarDecl<'src>)
        requires
            old(self).wf(),
            decl_ok(Declaration::Var(global), old(self).source_len()),
        ensures
            bindings_extend(old(self).bindings(), final(self).bindings()),
            final(self).step_from(*old(self)),
            final(self).context_kept(*old(self)),
            final(self).local_count == old(self).local_count,
            final(self).errors() == old(self).errors() + global_errors(
                old(self).symbol_table.known(global.id.name),
                lookup(old(self).inner_bindings(), global.id.name),
                global,
            ),
            final(self).bindings() == if linkage_clash(
                lookup(old(self).inner_bindings(), global.id.name),
                global_info(old(self).symbol_table.known(global.id.name), global),
            ) {
                old(self).bindings()
            } else {
                old(self).bindings().push((global.id.name, global_info(old(self).symbol_table.known(global.id.name), global)))
            },
            final(self).symbol_table.globals() == match global_def(old(self).symbol_table.known(global.id.name), global) {
                Some(g) => old(self).symbol_table.globals().push(g),
                None => old(self).symbol_table.globals(),
            },
            final(self).symbol_table.known(global.id.name) is Some,
            forall|n: Interned<'src>| n.index() != global.id.name.index() && old(self).symbol_table.known(n) is None
                ==> #[trigger] final(self).symbol_table.known(n) is None,
            final(self).symbol_table.functions() == old(self).symbol_table.functions(),
            final(self).goto_labels == old(self).goto_labels,
            final(self).local_static_count == old(self).local_static_count,
    {
        let VarDecl { specifier_flags, id, ty, init } = global;
        let linkage = self.declare_symbol(id, specifier_flags, ty);
        let ghost ta = self.symbol_table;
        let scope = match linkage {
            Linkage::Internal => ScopeTy::Internal,
            Linkage::Global => ScopeTy::External,
        };
        self.declare_id_global(id, IdInfo { ty, scope });
        let def = self.static_init(init);
        let ghost tb = self.symbol_table;
        if def.is_some() {
            let typed_global = typed::GlobalVar { linkage, name: id.name, generation: None, def };
            match self.symbol_table.define_global(typed_global) {
                Ok(()) => {},
                Err(err) => self.log_err(id.ctx, err),
            }
        }
        proof {
            assert(tb == ta);
            assert forall|n: Interned<'src>| n.index() != id.name.index() && old(self).symbol_table.known(n) is None
                implies #[trigger] self.symbol_table.known(n) is None by {
                assert(ta.known(n) is None);
            }
        }
        proof {
            assert(self.errors@.take(old(self).errors@.len() as int) =~= old(self).errors@);
            lemma_bindings_extend(old(self).bindings());
        }
    }

    /// A static local variable.
    fn local_static_declaration(&mut self, var: VarDecl<'src>)
        requires
            old(self).wf(),
            decl_ok(Declaration::Var(var), old(self).source_len()),
        ensures
            bindings_extend(old(self).bindings(), final(self).bindings()),
            final(self).step_from(*old(self)),
            final(self).context_kept(*old(self)),
            final(self).local_count == old(self).local_count,
            final(self).local_static_count == old(self).local_static_count.wrapping_add(1),
            final(self).symbol_table.symbols() == old(self).symbol_table.symbols(),
            final(self).symbol_table.globals() == old(self).symbol_table.globals().push(typed::GlobalVar {
                linkage: Linkage::Internal,
                name: var.id.name,
                generation: Some(old(self).local_static_count),
                def: static_def(var.init),
            }),
            final(self).goto_labels == old(self).goto_labels,
            ({
                let info = IdInfo { ty: var.ty, scope: ScopeTy::InternalLocal(old(self).local_static_count) };
                if duplicate_decl(lookup(old(self).inner_bindings(), var.id.name), info) {
                    &&& final(self).errors() == old(self).errors() + static_init_errors(var.init).push(
                        SemanticErrorWithCtx { ctx: var.id.ctx, err: SemanticError::DuplicateDecl },
                    )
                    &&& final(self).bindings() == old(self).bindings()
                } else {
                    &&& final(self).errors() == old(self).errors() + static_init_errors(var.init)
                    &&& final(self).bindings() == old(self).bindings().push((var.id.name, info))
                }
            }),
    {
        let VarDecl { id, ty, init, .. } = var;
        let local_static = self.new_local_static();
        let def = self.static_init(init);
        self.symbol_table.decl_local_static(id.name, local_static, def);
        self.declare_id(id, IdInfo { ty, scope: ScopeTy::InternalLocal(local_static) });
        proof {
            assert(self.errors@.take(old(self).errors@.len() as int) =~= old(self).errors@);
            lemma_bindings_extend(old(self).bindings());
        }
    }

    /// A local variable: a fresh local number, brought into scope, then its
    /// initializer checked.
    fn local_declaration(&mut self, id: Identifier<'src>, ty: Handle, init: Option<ast::Expr<'src>>) -> (r: typed::Stmt<'src>)
        requires
            old(self).wf(),
            ctx_within(id.ctx, old(self).source_len()),
            match init {
                Some(e) => expr_ok(e, old(self).source_len()),
                None => true,
            },
        ensures
            bindings_extend(old(self).bindings(), final(self).bindings()),
            final(self).goto_labels == old(self).goto_labels,
            final(self).step_from(*old(self)),
            final(self).context_kept(*old(self)),
            r matches typed::Stmt::Decl(i) && match (init, i) {
                (Some(e), Some(te)) => expr_shape(e, *te) && expr_resolves(final(self).bindings(), e, *te),
                (None, None) => true,
                _ => false,
            },
            local_binds(old(self).bindings(), final(self).bindings(), old(self).scope_bottom(), id.name, ty, old(self).local_count),
            final(self).errors() == old(self).errors() + local_walk(
                old(self).bindings(),
                old(self).scope_bottom(),
                id,
                ty,
                init,
                old(self).local_count,
                old(self).types(),
                old(self).poisoned_ty,
            ).0,
            final(self).bindings() == local_walk(
                old(self).bindings(),
                old(self).scope_bottom(),
                id,
                ty,
                init,
                old(self).local_count,
                old(self).types(),
                old(self).poisoned_ty,
            ).1,
            final(self).local_count == old(self).local_count.wrapping_add(1),
            final(self).symbol_table == old(self).symbol_table,
            final(self).label_count == old(self).label_count,
    {
        let local = self.new_local();
        proof {
            lemma_lookup_binding(self.inner_bindings(), id.name);
        }
        self.declare_id(id, IdInfo { ty, scope: ScopeTy::Local(local) });
        proof {
            lemma_bindings_extend(old(self).bindings());
        }
        let ghost e1 = self.errors();
        let ghost ginit = init;
        let init = match init {
            Some(e) => Some(self.expr(e)),
            None => None,
        };
        proof {
            assert(self.errors@.take(old(self).errors@.len() as int) =~= old(self).errors@);
            let w = local_walk(old(self).bindings(), old(self).scope_bottom(), id, ty, ginit, old(self).local_count, old(self).types(), old(self).poisoned_ty);
            let info = IdInfo { ty, scope: ScopeTy::Local(old(self).local_count) };
            let dup = duplicate_decl(binding_of(old(self).bindings().subrange(old(self).scope_bottom() as int, old(self).bindings().len() as int), id.name), info);
            let ed = if dup {
                seq![SemanticErrorWithCtx { ctx: id.ctx, err: SemanticError::DuplicateDecl }]
            } else {
                Seq::<SemanticErrorWithCtx>::empty()
            };
            assert(old(self).inner_bindings() == old(self).bindings().subrange(old(self).scope_bottom() as int, old(self).bindings().len() as int));
            assert(e1 =~= old(self).errors() + ed);
            assert(self.bindings() == w.1);
            let ei = match ginit {
                Some(e) => expr_check(w.1, old(self).types(), old(self).poisoned_ty, e).0,
                None => Seq::<SemanticErrorWithCtx>::empty(),
            };
            assert(self.errors() =~= e1 + ei);
            assert(old(self).errors() + ed + ei =~= old(self).errors() + (ed + ei));
        }
        typed::Stmt::Decl(init)
    }

    /// A function declaration or definition. A definition's parameters and
    /// body are checked in a scope of their own, and every `goto` in it must
    /// name a label of the function: each target that no statement labels is
    /// reported once, at its first `goto`. A definition nested in a body
    /// shares the targets recorded so far and reports them in its turn.
    #[verifier::rlimit(100)]
    #[verifier::spinoff_prover]
    fn function(&mut self, fun: FunctionDecl<'src>)
        requires
            old(self).wf(),
            decl_ok(Declaration::Fn(fun), old(self).source_len()),
        ensures
            bindings_extend(old(self).bindings(), final(self).bindings()),
            final(self).step_defs(*old(self), fun_defs(fun)),
            final(self).context_kept(*old(self)),
            fun.body is None ==> final(self).goto_labels == old(self).goto_labels,
            fun.body is Some ==> final(self).goto_labels@.len() == 0,
            fun.body matches Some(b) ==> exists|k: int| old(self).errors().len() <= k && #[trigger] errors_at(
                final(self).errors(),
                k,
                unresolved_errors(goto_walk_seq(goto_view(old(self).goto_labels@), b@)),
            ),
            clean_def(fun) && old(self).goto_labels@.len() == 0 && old(self).symbol_table.known(fun.id.name) is None ==> final(self).errors()
                == old(self).errors() + control_errors_seq(fun.body.unwrap()@, old(self).loop_depth, old(self).switch_cases is Some),
            clean_def(fun) && old(self).goto_labels@.len() == 0 && old(self).symbol_table.known(fun.id.name) is None ==> forall|n: Interned<'src>|
                n.index() != fun.id.name.index() && old(self).symbol_table.known(n) is None ==> #[trigger] final(self).symbol_table.known(n) is None,
            clean_def(fun) && old(self).goto_labels@.len() == 0 && old(self).symbol_table.known(fun.id.name) is None ==> {
                &&& final(self).label_count == old(self).label_count
                &&& final(self).symbol_table.functions() == old(self).symbol_table.functions().push(
                    final(self).symbol_table.functions().last(),
                )
                &&& final(self).symbol_table.functions().last().local_count == 0
            },
            clean_def(fun) && old(self).goto_labels@.len() == 0 && old(self).symbol_table.known(fun.id.name) is None ==> final(self).symbol_table.globals()
                == old(self).symbol_table.globals() && (typed::all_defined(old(self).symbol_table.symbols()) ==> typed::all_defined(
                final(self).symbol_table.symbols(),
            )),
            plain_def(fun) && old(self).goto_labels@.len() == 0 && old(self).symbol_table.known(fun.id.name) is None
                && binding_of(old(self).inner_bindings(), fun.id.name) is None ==> {
                &&& final(self).errors() == old(self).errors() + def_walk(
                    fun,
                    old(self).bindings(),
                    old(self).loop_depth,
                    old(self).switch_cases is Some,
                    old(self).types(),
                    old(self).poisoned_ty,
                )
                &&& final(self).bindings() == old(self).bindings().push((fun.id.name, IdInfo { ty: fun.ty, scope: fn_scope(fun) }))
                &&& final(self).symbol_table.globals() == old(self).symbol_table.globals()
                &&& final(self).symbol_table.functions() == old(self).symbol_table.functions().push(
                    final(self).symbol_table.functions().last(),
                )
                &&& def_res(
                    fun,
                    final(self).symbol_table.functions().last(),
                    old(self).bindings(),
                    old(self).loop_depth,
                    old(self).switch_cases is Some,
                    old(self).types(),
                    old(self).poisoned_ty,
                )
                &&& forall|n: Interned<'src>| n.index() != fun.id.name.index() && old(self).symbol_table.known(n) is None
                    ==> #[trigger] final(self).symbol_table.known(n) is None
            },
        decreases fun, 2int,
    {
        let ghost clean = clean_def(fun) && old(self).goto_labels@.len() == 0 && old(self).symbol_table.known(fun.id.name) is None;
        let ghost plain = plain_def(fun) && old(self).goto_labels@.len() == 0 && old(self).symbol_table.known(fun.id.name) is None
            && binding_of(old(self).inner_bindings(), fun.id.name) is None;
        let ghost T = old(self).types();
        let ghost P = old(self).poisoned_ty;
        let FunctionDecl { specifier_flags, id, ty, param_names, body } = fun;
        let ghost e0 = self.errors@;
        let linkage = self.declare_symbol(id, specifier_flags, ty);
        let ghost e1 = self.errors@;
        let ghost table1 = self.symbol_table;
        let scope = if specifier_flags.is_static { ScopeTy::Internal } else { ScopeTy::External };
        proof {
            lemma_lookup_binding(old(self).inner_bindings(), id.name);
            assert(self.inner_bindings() == old(self).inner_bindings());
            if plain {
                assert(lookup(self.inner_bindings(), id.name) is None);
                assert(!duplicate_decl(lookup(self.inner_bindings(), id.name), IdInfo { ty, scope }));
            }
            if clean {
                assert(scope == ScopeTy::External);
                assert(!duplicate_decl(lookup(self.inner_bindings(), id.name), IdInfo { ty, scope }));
            }
        }
        self.declare_id(id, IdInfo { ty, scope });
        proof {
            if clean || plain {
                assert(e1 == e0);
                assert(self.errors@ == e0);
                assert(self.symbol_table == table1);
                assert(self.bindings() == old(self).bindings().push((id.name, IdInfo { ty, scope: fn_scope(fun) })));
            }
        }
        let ghost d1 = self.bindings();
        proof {
            lemma_appended_trans(e0, e1, self.errors@);
            lemma_bindings_extend(old(self).bindings());
            lemma_bindings_extend(d1);
            assert(bindings_extend(old(self).bindings(), d1));
        }
        match body {
            Some(body) => {
                self.reset_for_fn();
                let old_scope = self.id_map.enter_scope();
                let ghost inner = self.scope_bottom();
                let params = match self.fn_signature(ty) {
                    Some((_, params)) => params,
                    None => Vec::new(),
                };
                let mut k: usize = 0;
                let ghost s_params = *self;
                proof {
                    assert(old(self).errors() + Seq::<SemanticErrorWithCtx>::empty() =~= old(self).errors());
                }
                while k < param_names.len() && k < params.len()
                    invariant
                        param_names@.len() == 0 ==> *self == s_params,
                        plain ==> {
                            let pw = params_walk(param_names@, params@, k as int, d1, inner, 0, T, P);
                            &&& self.errors() == old(self).errors() + pw.0
                            &&& self.bindings() == pw.1
                            &&& self.local_count == pw.2
                            &&& self.symbol_table == table1
                            &&& self.label_count == old(self).label_count
                        },
                        T == old(self).types(),
                        P == old(self).poisoned_ty,
                        self.wf(),
                        self.source_len() == old(self).source_len(),
                        appended(old(self).errors(), self.errors()),
                        self.scope_bottom() >= old_scope,
                        self.context_kept(*old(self)),
                        self.symbol_table.keys_kept_from(table1),
                        table1.keys_kept_from(old(self).symbol_table),
                        self.symbol_table.functions() == old(self).symbol_table.functions(),
                        self.goto_labels == old(self).goto_labels,
                        self.scope_bottom() == inner,
                        inner == d1.len(),
                        bindings_extend(d1, self.bindings()),
                        k <= param_names@.len(),
                        k <= params@.len(),
                        forall|i: int| 0 <= i < param_names@.len() ==> match #[trigger] param_names@[i] {
                            Some(p) => ctx_within(p.ctx, old(self).source_len()),
                            None => true,
                        },
                    decreases param_names@.len() - k,
                {
                    let ghost before = self.errors@;
                    let ghost sk = *self;
                    match param_names[k] {
                        Some(pid) => {
                            proof {
                                assert(ctx_within(pid.ctx, old(self).source_len()));
                            }
                            let ghost bk = self.bindings();
                            let _ = self.local_declaration(pid, params[k], None);
                            proof {
                                lemma_bindings_extend(d1);
                                assert(bindings_extend(d1, bk) && bindings_extend(bk, self.bindings()));
                            }
                        },
                        None => {},
                    }
                    proof {
                        if plain {
                            let pw = params_walk(param_names@, params@, k as int, d1, inner, 0, T, P);
                            assert(sk.errors() == old(self).errors() + pw.0);
                            match param_names@[k as int] {
                                Some(pid) => {
                                    let l = local_walk(pw.1, inner, pid, params@[k as int], None, pw.2, T, P);
                                    assert(self.errors() == sk.errors() + l.0);
                                    assert(old(self).errors() + pw.0 + l.0 =~= old(self).errors() + (pw.0 + l.0));
                                },
                                None => {},
                            }
                        }
                    }
                    proof {
                        if self.errors@ != before {
                            lemma_appended_trans(old(self).errors(), before, self.errors@);
                        }
                    }
                    k += 1;
                }
                let ghost e2 = self.errors@;
                let ghost body_seq = body@;
                let ghost pre = *self;
                let typed_body = self.stmts(body);
                let ghost post = *self;
                proof {
                    assert(bindings_extend(d1, pre.bindings()) && bindings_extend(pre.bindings(), post.bindings()));
                    assert(bindings_extend(d1, post.bindings()));
                    lemma_appended_trans(old(self).errors(), e2, self.errors@);
                }
                self.id_map.exit_scope(old_scope);
                proof {
                    assert(self.bindings() =~= d1);
                }
                let mut labels: Vec<GotoLabel<'src>> = Vec::new();
                std::mem::swap(&mut labels, &mut self.goto_labels);
                proof {
                    assert forall|i: int| 0 <= i < labels@.len() implies ctx_within(#[trigger] labels@[i].id.ctx, old(self).source_len()) by {}
                }
                let mut j: usize = 0;
                while j < labels.len()
                    invariant
                        self.wf(),
                        self.source_len() == old(self).source_len(),
                        appended(old(self).errors(), self.errors()),
                        j <= labels@.len(),
                        forall|i: int| 0 <= i < labels@.len() ==> ctx_within(#[trigger] labels@[i].id.ctx, old(self).source_len()),
                        self.context_kept(*old(self)),
                        self.symbol_table.keys_kept_from(table1),
                        table1.keys_kept_from(old(self).symbol_table),
                        self.scope_bottom() == old(self).scope_bottom(),
                        self.symbol_table == post.symbol_table,
                        self.label_count == post.label_count,
                        self.local_count == post.local_count,
                        appended(post.errors(), self.errors()),
                        self.goto_labels@.len() == 0,
                        self.bindings() == d1,
                        self.errors() == post.errors() + unresolved_errors(goto_view(labels@).take(j as int)),
                    decreases labels@.len() - j,
                {
                    let ghost before_j = self.errors();
                    proof {
                        let v = goto_view(labels@);
                        assert(v.take(j + 1).drop_last() =~= v.take(j as int));
                        assert(v.take(j + 1).last() == (labels@[j as int].id, labels@[j as int].declared));
                    }
                    if !labels[j].declared {
                        let ghost before = self.errors@;
                        self.log_err(labels[j].id.ctx, SemanticError::UndeclaredVar);
                        proof {
                            lemma_appended_trans(old(self).errors(), before, self.errors@);
                            lemma_appended_trans(post.errors(), before, self.errors@);
                        }
                    }
                    proof {
                        let v = goto_view(labels@);
                        assert(self.errors() =~= post.errors() + unresolved_errors(v.take(j + 1)));
                    }
                    j += 1;
                }
                let ghost after_labels = self.errors();
                let param_count: u32 = if params.len() <= 4294967295 { params.len() as u32 } else { 4294967295 };
                let typed_function = typed::Function {
                    linkage,
                    name: id.name,
                    body: typed_body,
                    param_count,
                    local_count: self.local_count,
                };
                let ghost before = self.errors@;
                let ghost table2 = self.symbol_table;
                proof {
                    self.symbol_table.lemma_known_kept(table1, id.name);
                    if clean {
                        lemma_const_only_quiet_seq(body_seq, goto_view(pre.goto_labels@));
                        assert(s_params.symbol_table == table1);
                        assert(pre.symbol_table == table1);
                        assert(post.symbol_table == table1);
                        assert(goto_view(labels@).len() == 0);
                        assert(goto_view(labels@).take(labels@.len() as int) =~= Seq::<(Identifier<'src>, bool)>::empty());
                        assert(after_labels == post.errors());
                        assert(self.symbol_table.known(id.name) == Some(typed::SymbolData { specifier_flags, ty }));
                    }
                    if plain {
                        lemma_plain_quiet_seq(body_seq);
                        assert(pre.symbol_table == table1);
                        assert(post.symbol_table == table1);
                        assert(goto_view(pre.goto_labels@) =~= Seq::<(Identifier<'src>, bool)>::empty());
                        assert(goto_view(labels@).take(labels@.len() as int) =~= goto_view(labels@));
                        assert(goto_view(labels@) == goto_walk_seq(Seq::<(Identifier<'src>, bool)>::empty(), body_seq));
                        assert(after_labels == post.errors() + unresolved_errors(goto_walk_seq(Seq::<(Identifier<'src>, bool)>::empty(), body_seq)));
                        assert(self.symbol_table.known(id.name) == Some(typed::SymbolData { specifier_flags, ty }));
                    }
                }
                match self.symbol_table.define_fun(typed_function) {
                    Ok(()) => {},
                    Err(err) => self.log_err(id.ctx, err),
                }
                proof {
                    if plain {
                        let b1 = old(self).bindings().push((id.name, IdInfo { ty, scope: fn_scope(fun) }));
                        assert(d1 == b1);
                        assert(inner == b1.len());
                        assert(params@ == param_types(T, ty));
                        let n = if param_names@.len() < params@.len() { param_names@.len() } else { params@.len() };
                        assert(k == n);
                        let pw = params_walk(param_names@, params@, n as int, b1, b1.len(), 0, T, P);
                        assert(pre.errors() == old(self).errors() + pw.0);
                        assert(pre.bindings() == pw.1 && pre.local_count == pw.2);
                        assert(pre.scope_bottom() == b1.len());
                        let g0 = Seq::<(Identifier<'src>, bool)>::empty();
                        assert(goto_view(pre.goto_labels@) =~= g0);
                        let bw = stmts_walk(body_seq, g0, pw.1, b1.len(), old(self).loop_depth, old(self).switch_cases is Some, pw.2, T, P);
                        let ue = unresolved_errors(goto_walk_seq(g0, body_seq));
                        assert(post.errors() == pre.errors() + bw.0);
                        assert(self.errors@ == before);
                        assert(self.errors() =~= old(self).errors() + (pw.0 + bw.0 + ue));
                        assert(self.errors() == old(self).errors() + def_walk(fun, old(self).bindings(), old(self).loop_depth,
                            old(self).switch_cases is Some, T, P));
                        assert(table2.functions() == old(self).symbol_table.functions());
                        assert(self.symbol_table.functions() == old(self).symbol_table.functions().push(typed_function));
                        assert(typed_function.body@ == typed_body@);
                        assert forall|n2: Interned<'src>| n2.index() != id.name.index() && old(self).symbol_table.known(n2) is None implies #[trigger] self.symbol_table.known(n2) is None by {
                            assert(table1.known(n2) is None);
                            assert(table2.known(n2) is None);
                        }
                    }
                    if clean {
                        assert(s_params.local_count == 0);
                        assert(pre.local_count == 0);
                        assert(post.local_count == 0);
                        assert(typed_function.local_count == 0);
                        assert(table2.functions() == old(self).symbol_table.functions());
                        assert(self.symbol_table.functions() == old(self).symbol_table.functions().push(typed_function));
                        assert(self.errors@ == before);
                        assert(pre.errors() == old(self).errors());
                        assert(pre.loop_depth == old(self).loop_depth);
                        assert(self.errors() == old(self).errors() + control_errors_seq(body_seq, old(self).loop_depth, old(self).switch_cases is Some));
                        assert forall|n: Interned<'src>| n.index() != id.name.index() && old(self).symbol_table.known(n) is None implies #[trigger] self.symbol_table.known(n) is None by {
                            assert(table1.known(n) is None);
                            assert(table2.known(n) is None);
                        }
                        let s0 = old(self).symbol_table.symbols();
                        let s1 = table1.symbols();
                        let s3 = self.symbol_table.symbols();
                        assert(s1 == s0.push((id.name, typed::SymbolData { specifier_flags, ty })));
                        if typed::all_defined(s0) {
                            typed::lemma_symbol_pos(s0, id.name);
                            typed::lemma_symbol_pos(s3, id.name);
                            let pos = typed::symbol_pos(s3, id.name).unwrap();
                            if pos < s0.len() {
                                assert(s3[pos].0 == s1[pos].0);
                                assert(s1[pos] == s0[pos]);
                            }
                            assert(pos == s0.len());
                            assert forall|j: int| 0 <= j < s3.len() implies (#[trigger] s3[j]).1.specifier_flags.defined by {
                                if j < s0.len() {
                                    assert(s1[j] == s0[j]);
                                    assert(s0[j].1.specifier_flags.defined);
                                }
                            }
                        }
                    }
                }
                proof {
                    if self.errors@ != before {
                        lemma_appended_trans(old(self).errors(), before, self.errors@);
                    }
                    if self.errors() == old(self).errors() {
                        assert(before =~= old(self).errors());
                        assert(post.errors() =~= old(self).errors());
                        assert(pre.errors() =~= old(self).errors());
                        let f0 = old(self).symbol_table.functions();
                        let defs = seq_defs(body_seq);
                        assert(fns_added(f0, post.symbol_table.functions(), defs));
                        assert(fun_defs(fun) == defs.push(fun));
                        assert(fn_matches(fun, typed_function));
                        assert forall|i: int| 0 <= i < defs.push(fun).len()
                            implies fn_matches(#[trigger] defs.push(fun)[i], self.symbol_table.functions()[f0.len() + i]) by {
                            if i < defs.len() {
                                assert(defs.push(fun)[i] == defs[i]);
                            }
                        }
                    }
                    {
                        let u = unresolved_errors(goto_walk_seq(goto_view(old(self).goto_labels@), body_seq));
                        assert(goto_view(pre.goto_labels@) == goto_view(old(self).goto_labels@));
                        assert(goto_view(labels@) == goto_view(post.goto_labels@));
                        assert(goto_view(labels@).take(labels@.len() as int) =~= goto_view(labels@));
                        assert(after_labels == post.errors() + u);
                        assert(appended(after_labels, self.errors()));
                        let k = post.errors().len() as int;
                        assert(self.errors().subrange(k, k + u.len()) =~= u);
                        assert(errors_at(self.errors(), k, u));
                    }
                }
            },
            None => {
                let old_scope = self.id_map.enter_scope();
                let ghost inner = self.scope_bottom();
                let mut k: usize = 0;
                while k < param_names.len()
                    invariant
                        self.wf(),
                        self.source_len() == old(self).source_len(),
                        appended(old(self).errors(), self.errors()),
                        self.scope_bottom() >= old_scope,
                        self.context_kept(*old(self)),
                        self.symbol_table.keys_kept_from(table1),
                        table1.keys_kept_from(old(self).symbol_table),
                        self.symbol_table.functions() == old(self).symbol_table.functions(),
                        self.goto_labels == old(self).goto_labels,
                        self.scope_bottom() == inner,
                        inner == d1.len(),
                        bindings_extend(d1, self.bindings()),
                        k <= param_names@.len(),
                        forall|i: int| 0 <= i < param_names@.len() ==> match #[trigger] param_names@[i] {
                            Some(p) => ctx_within(p.ctx, old(self).source_len()),
                            None => true,
                        },
                    decreases param_names@.len() - k,
                {
                    let ghost before = self.errors@;
                    match param_names[k] {
                        Some(pid) => {
                            proof {
                                assert(ctx_within(pid.ctx, old(self).source_len()));
                            }
                            let p = self.poisoned_ty;
                            let ghost bk = self.bindings();
                            self.declare_id(pid, IdInfo { ty: p, scope: ScopeTy::Local(0) });
                            proof {
                                lemma_appended_trans(old(self).errors(), before, self.errors@);
                                lemma_bindings_extend(d1);
                                lemma_bindings_extend(bk);
                                assert(bindings_extend(d1, bk) && bindings_extend(bk, self.bindings()));
                            }
                        },
                        None => {},
                    }
                    k += 1;
                }
                self.id_map.exit_scope(old_scope);
                proof {
                    assert(self.bindings() =~= d1);
                }
            },
        }
    }

    /// Checks statements in order.
    #[verifier::rlimit(100)]
    #[verifier::spinoff_prover]
    fn stmts(&mut self, v: Vec<ast::Stmt<'src>>) -> (r: Vec<typed::Stmt<'src>>)
        requires
            old(self).wf(),
            forall|i: int| 0 <= i < v@.len() ==> stmt_ok(#[trigger] v@[i], old(self).source_len()),
        ensures
            bindings_extend(old(self).bindings(), final(self).bindings()),
            final(self).step_defs(*old(self), seq_defs(v@)),
            final(self).context_kept(*old(self)),
            r@.len() == v@.len(),
            forall|i: int| 0 <= i < v@.len() ==> stmt_shape(#[trigger] v@[i], r@[i]),
            goto_view(final(self).goto_labels@) == goto_walk_seq(goto_view(old(self).goto_labels@), v@),
            exists|sc: Seq<(Seq<(Interned<'src>, IdInfo)>, Seq<(Interned<'src>, IdInfo)>)>|
                stmts_scoped(v@, r@, sc, old(self).bindings(), final(self).bindings(), old(self).scope_bottom()),
            plain_seq(v@) ==> {
                let w = stmts_walk(
                    v@,
                    goto_view(old(self).goto_labels@),
                    old(self).bindings(),
                    old(self).scope_bottom(),
                    old(self).loop_depth,
                    old(self).switch_cases is Some,
                    old(self).local_count,
                    old(self).types(),
                    old(self).poisoned_ty,
                );
                &&& final(self).errors() == old(self).errors() + w.0
                &&& final(self).bindings() == w.1
                &&& final(self).local_count == w.2
                &&& final(self).symbol_table == old(self).symbol_table
                &&& stmts_res(
                    v@,
                    r@,
                    goto_view(old(self).goto_labels@),
                    old(self).bindings(),
                    old(self).scope_bottom(),
                    old(self).loop_depth,
                    old(self).switch_cases is Some,
                    old(self).local_count,
                    old(self).types(),
                    old(self).poisoned_ty,
                )
            },
            const_only_seq(v@) ==> final(self).errors() == old(self).errors() + control_errors_seq(
                v@,
                old(self).loop_depth,
                old(self).switch_cases is Some,
            ) && final(self).symbol_table == old(self).symbol_table && final(self).local_count == old(self).local_count
                && final(self).label_count == old(self).label_count,
        decreases v, 1int,
    {
        let ghost orig = v@;
        let ghost vv = v;
        let mut rest = v;
        let mut out: Vec<typed::Stmt<'src>> = Vec::new();
        let mut k: usize = 0;
        let ghost mut sc: Seq<(Seq<(Interned<'src>, IdInfo)>, Seq<(Interned<'src>, IdInfo)>)> = Seq::empty();
        proof {
            assert(self.errors@.take(self.errors@.len() as int) =~= self.errors@);
            assert(self.errors() + Seq::<SemanticErrorWithCtx>::empty() =~= self.errors());
            assert(rest@ =~= orig.subrange(0, orig.len() as int));
            assert(orig.len() == vv.len());
            assert(orig.subrange(0, 0) =~= Seq::<ast::Stmt<'src>>::empty());
            lemma_bindings_extend(self.bindings());
        }
        while rest.len() > 0
            invariant
                self.step_defs(*old(self), seq_defs(orig.subrange(0, k as int))),
                self.context_kept(*old(self)),
                k + rest@.len() == orig.len(),
                out@.len() == k,
                rest@ == orig.subrange(k as int, orig.len() as int),
                forall|i: int| 0 <= i < orig.len() ==> stmt_ok(#[trigger] orig[i], old(self).source_len()),
                vv@ == orig,
                vv@ == orig,
                vv == v,
                orig.len() <= usize::MAX,
                forall|i: int| 0 <= i < k ==> stmt_shape(#[trigger] orig[i], out@[i]),
                goto_view(self.goto_labels@)
                    == goto_walk_seq(goto_view(old(self).goto_labels@), orig.subrange(0, k as int)),
                const_only_seq(orig) ==> self.errors() == old(self).errors() + control_errors_seq(
                    orig.subrange(0, k as int),
                    old(self).loop_depth,
                    old(self).switch_cases is Some,
                ) && self.symbol_table == old(self).symbol_table && self.local_count == old(self).local_count
                    && self.label_count == old(self).label_count,
                bindings_extend(old(self).bindings(), self.bindings()),
                stmts_scoped(orig.subrange(0, k as int), out@, sc, old(self).bindings(), self.bindings(), old(self).scope_bottom()),
                plain_seq(orig) ==> {
                    let w = stmts_walk(
                        orig.subrange(0, k as int),
                        goto_view(old(self).goto_labels@),
                        old(self).bindings(),
                        old(self).scope_bottom(),
                        old(self).loop_depth,
                        old(self).switch_cases is Some,
                        old(self).local_count,
                        old(self).types(),
                        old(self).poisoned_ty,
                    );
                    &&& self.errors() == old(self).errors() + w.0
                    &&& self.bindings() == w.1
                    &&& self.local_count == w.2
                    &&& self.symbol_table == old(self).symbol_table
                    &&& stmts_res(
                        orig.subrange(0, k as int),
                        out@,
                        goto_view(old(self).goto_labels@),
                        old(self).bindings(),
                        old(self).scope_bottom(),
                        old(self).loop_depth,
                        old(self).switch_cases is Some,
                        old(self).local_count,
                        old(self).types(),
                        old(self).poisoned_ty,
                    )
},
            decreases rest@.len(),
        {
            let item = rest.remove(0);
            proof {
                assert(item == orig[k as int]);
                assert(rest@ =~= orig.subrange(k + 1, orig.len() as int));
                vstd::std_specs::vec::axiom_vec_index_decreases(vv, k as int);
                assert(decreases_to!(vv => item));
                assert(decreases_to!(v => item));
            }
            let ghost before = *self;
            let t = self.stmt(item);
            proof {
                lemma_bindings_extend(old(self).bindings());
                assert(bindings_extend(old(self).bindings(), before.bindings()) && bindings_extend(before.bindings(), self.bindings()));
                Self::lemma_defs_trans(*old(self), before, *self, seq_defs(orig.subrange(0, k as int)), stmt_defs(item));
                lemma_seq_defs_push(orig.subrange(0, k as int), item);
                assert(orig.subrange(0, k as int).push(item) =~= orig.subrange(0, k + 1));
                {
                    let w = orig.subrange(0, k + 1);
                    assert(w.subrange(0, w.len() - 1) =~= orig.subrange(0, k as int));
                    assert(w[w.len() - 1] == item);
                }
                if plain_seq(orig) {
                    lemma_plain_prefix(orig, k as int);
                    let w = orig.subrange(0, k + 1);
                    assert(w.subrange(0, w.len() - 1) =~= orig.subrange(0, k as int));
                    assert(w[w.len() - 1] == item);
                    let a = stmts_walk(orig.subrange(0, k as int), goto_view(old(self).goto_labels@), old(self).bindings(), old(self).scope_bottom(), old(self).loop_depth,
                        old(self).switch_cases is Some, old(self).local_count, old(self).types(), old(self).poisoned_ty);
                    let x = stmt_walk(item, goto_walk_seq(goto_view(old(self).goto_labels@), orig.subrange(0, k as int)), a.1, old(self).scope_bottom(), old(self).loop_depth,
                        old(self).switch_cases is Some, a.2, old(self).types(), old(self).poisoned_ty);
                    assert(before.bindings() == a.1 && before.local_count == a.2);
                    assert(before.scope_bottom() == old(self).scope_bottom());
                    assert(old(self).errors() + a.0 + x.0 =~= old(self).errors() + (a.0 + x.0));
                }
                if const_only_seq(orig) {
                    lemma_const_only_prefix(orig, k as int);
                    let w = orig.subrange(0, k + 1);
                    assert(w.subrange(0, w.len() - 1) =~= orig.subrange(0, k as int));
                    assert(w[w.len() - 1] == item);
                    let d = old(self).loop_depth;
                    let sw = old(self).switch_cases is Some;
                    assert(old(self).errors() + control_errors_seq(orig.subrange(0, k as int), d, sw) + control_errors(item, d, sw)
                        =~= old(self).errors() + control_errors_seq(w, d, sw));
                }
            }
            let ghost before_out = out@;
            out.push(t);
            proof {
                if plain_seq(orig) {
                    lemma_plain_prefix(orig, k as int);
                    let w = orig.subrange(0, k + 1);
                    assert(w.subrange(0, w.len() - 1) =~= orig.subrange(0, k as int));
                    assert(w[w.len() - 1] == item);
                    assert(out@.subrange(0, out@.len() - 1) =~= before_out);
                    assert(out@[out@.len() - 1] == t);
                }
            }
            proof {
                let w = orig.subrange(0, k + 1);
                let sc2 = sc.push((before.bindings(), self.bindings()));
                assert(before.scope_bottom() == old(self).scope_bottom());
                assert(w.subrange(0, k as int) =~= orig.subrange(0, k as int));
                assert forall|i: int| 0 <= i < w.len() implies stmt_scoped(w[i], out@[i], (#[trigger] sc2[i]).0, sc2[i].1, old(self).scope_bottom()) by {
                    if i < k {
                        assert(w[i] == orig.subrange(0, k as int)[i]);
                        assert(out@[i] == before_out[i]);
                        assert(sc2[i] == sc[i]);
                    } else {
                        assert(w[i] == item);
                        assert(out@[i] == t);
                    }
                }
                assert forall|i: int| 0 <= i < w.len() - 1 implies (#[trigger] sc2[i]).1 == sc2[i + 1].0 by {
                    assert(sc2[i] == sc[i]);
                    if i + 1 < k {
                        assert(sc2[i + 1] == sc[i + 1]);
                    }
                }
                sc = sc2;
            }
            k += 1;
        }
        proof {
            assert(orig.subrange(0, k as int) =~= orig);
        }
        out
    }

    /// A declaration inside a function body. Only a local variable gives a
    /// statement; everything else is recorded and gives `Nil`.
    fn declaration(&mut self, decl: Declaration<'src>) -> (r: typed::Stmt<'src>)
        requires
            old(self).wf(),
            decl_ok(decl, old(self).source_len()),
        ensures
            bindings_extend(old(self).bindings(), final(self).bindings()),
            final(self).step_defs(*old(self), decl_defs(decl)),
            final(self).context_kept(*old(self)),
            decl_shape(decl, r),
            decl_scoped(decl, r, old(self).bindings(), final(self).bindings(), old(self).scope_bottom()),
            match decl {
                Declaration::Var(v) => !v.specifier_flags.is_extern && !v.specifier_flags.is_static ==> {
                    let w = local_walk(
                        old(self).bindings(),
                        old(self).scope_bottom(),
                        v.id,
                        v.ty,
                        v.init,
                        old(self).local_count,
                        old(self).types(),
                        old(self).poisoned_ty,
                    );
                    &&& final(self).errors() == old(self).errors() + w.0
                    &&& final(self).bindings() == w.1
                    &&& final(self).local_count == old(self).local_count.wrapping_add(1)
                    &&& final(self).symbol_table == old(self).symbol_table
                    &&& final(self).label_count == old(self).label_count
                    &&& match r {
                        typed::Stmt::Decl(i) => match (v.init, i) {
                            (Some(e), Some(te)) => expr_resolves(w.1, e, *te),
                            (None, None) => true,
                            _ => false,
                        },
                        _ => false,
                    }
                },
                Declaration::Fn(_) => true,
            },
            decl_defs(decl).len() == 0 ==> final(self).goto_labels == old(self).goto_labels,
            decl_defs(decl).len() > 0 ==> final(self).goto_labels@.len() == 0,
        decreases decl, 3int,
    {
        proof {
            lemma_bindings_extend(old(self).bindings());
        }
        match decl {
            Declaration::Fn(fun) => {
                if fun.specifier_flags.is_static {
                    self.log_err(fun.id.ctx, SemanticError::StaticFnDeclInBody);
                    proof {
                        Self::lemma_no_defs(*old(self), *self);
                    }
                } else {
                    self.function(fun);
                }
                typed::Stmt::Nil
            },
            Declaration::Var(var) => {
                if var.specifier_flags.is_extern {
                    if var.init.is_some() {
                        self.log_err(var.id.ctx, SemanticError::ExternDeclInFnBody);
                    }
                    let ghost before = self.errors@;
                    self.global(var);
                    proof {
                        assert(self.errors@.take(old(self).errors@.len() as int) =~= old(self).errors@) by {
                            assert(self.errors@.take(before.len() as int) =~= before);
                        }
                        Self::lemma_no_defs(*old(self), *self);
                    }
                    typed::Stmt::Nil
                } else if var.specifier_flags.is_static {
                    self.local_static_declaration(var);
                    proof {
                        Self::lemma_no_defs(*old(self), *self);
                    }
                    typed::Stmt::Nil
                } else {
                    let r = self.local_declaration(var.id, var.ty, var.init);
                    proof {
                        Self::lemma_no_defs(*old(self), *self);
                        assert(local_binds(old(self).bindings(), self.bindings(), old(self).scope_bottom(), var.id.name, var.ty, old(self).local_count));
                    }
                    r
                }
            },
        }
    }

    /// Checks a statement. `break` outside a loop or `switch`, and
    /// `continue` outside a loop, are reported where they stand.
    /// Checks a statement `stmt` of the kind its name says, as [`Self::stmt`] does.
    fn stmt_block(&mut self, stmt: ast::Stmt<'src>) -> (r: typed::Stmt<'src>)
        requires
            old(self).wf(),
            stmt_ok(stmt, old(self).source_len()),
            stmt is Block,
        ensures
            final(self).stmt_post(*old(self), stmt, r),
        decreases stmt, 0int,
    {
        proof {
            assert(self.errors@.take(self.errors@.len() as int) =~= self.errors@);
            assert(self.errors() + Seq::<SemanticErrorWithCtx>::empty() =~= self.errors());
            lemma_bindings_extend(old(self).bindings());
        }
        let ghost gstmt = stmt;
        match stmt {
                ast::Stmt::Block(stmts) => {
                    let old_scope = self.id_map.enter_scope();
                    let ghost entered = *self;
                    let body = self.stmts(stmts);
                    proof {
                        assert(self.scope_bottom() == entered.scope_bottom());
                        assert(entered.bindings() == old(self).bindings());
                    }
                    self.id_map.exit_scope(old_scope);
                    proof {
                        assert(self.bindings() =~= old(self).bindings());
                    }
                    typed::Stmt::Block(body)
                },
            _ => typed::Stmt::Nil,
        }
    }

    /// Checks a statement `stmt` of the kind its name says, as [`Self::stmt`] does.
    fn stmt_do(&mut self, stmt: ast::Stmt<'src>) -> (r: typed::Stmt<'src>)
        requires
            old(self).wf(),
            stmt_ok(stmt, old(self).source_len()),
            stmt is Do,
        ensures
            final(self).stmt_post(*old(self), stmt, r),
        decreases stmt, 0int,
    {
        proof {
            assert(self.errors@.take(self.errors@.len() as int) =~= self.errors@);
            assert(self.errors() + Seq::<SemanticErrorWithCtx>::empty() =~= self.errors());
            lemma_bindings_extend(old(self).bindings());
        }
        let ghost gstmt = stmt;
        match stmt {
                ast::Stmt::Do(body, condition) => {
                    let ghost gbody = *body;
                    let ghost gcond = *condition;
                    self.enter_loop();
                    let ghost pre = *self;
                    let body = self.stmt(*body);
                    let ghost mid = *self;
                    let condition = self.expr(*condition);
                    let ghost post = *self;
                    self.exit_loop();
                    proof {
                        if plain_stmt(gstmt) {
                            let w = stmt_walk(gbody, goto_view(old(self).goto_labels@), old(self).bindings(), old(self).scope_bottom(), old(self).loop_depth.wrapping_add(1),
                                old(self).switch_cases is Some, old(self).local_count, old(self).types(), old(self).poisoned_ty);
                            let ec = expr_check(w.1, old(self).types(), old(self).poisoned_ty, gcond).0;
                            assert(mid.errors() == old(self).errors() + w.0);
                            assert(self.errors() == mid.errors() + ec);
                            assert(old(self).errors() + w.0 + ec =~= old(self).errors() + (w.0 + ec));
                        }
                        assert(pre.goto_labels == old(self).goto_labels);
                        assert(self.goto_labels == mid.goto_labels);
                        assert(self.errors@.take(mid.errors@.len() as int) =~= mid.errors@);
                        assert(self.errors@.take(old(self).errors@.len() as int) =~= old(self).errors@);
                        Self::lemma_defs_before(pre, mid, post, stmt_defs(stmt));
                    }
                    typed::Stmt::Do(Box::new(body), condition)
                },
            _ => typed::Stmt::Nil,
        }
    }

    /// Checks a statement `stmt` of the kind its name says, as [`Self::stmt`] does.
    #[verifier::rlimit(100)]
    #[verifier::spinoff_prover]
    fn stmt_for(&mut self, stmt: ast::Stmt<'src>) -> (r: typed::Stmt<'src>)
        requires
            old(self).wf(),
            stmt_ok(stmt, old(self).source_len()),
            stmt is For,
        ensures
            final(self).stmt_post(*old(self), stmt, r),
        decreases stmt, 0int,
    {
        proof {
            assert(self.errors@.take(self.errors@.len() as int) =~= self.errors@);
            assert(self.errors() + Seq::<SemanticErrorWithCtx>::empty() =~= self.errors());
            lemma_bindings_extend(old(self).bindings());
        }
        let ghost gstmt = stmt;
        match stmt {
                ast::Stmt::For(for_stmt) => {
                    let ast::ForStmt { init, condition, increment, body } = *for_stmt;
                    let ghost ginit = init;
                    let ghost gbody = *body;
                    let ghost gcond = condition;
                    let ghost ginc = increment;
                    self.enter_loop();
                    let old_scope = self.id_map.enter_scope();
                    let ghost e0 = self.errors@;
                    let ghost s0 = *self;
                    let init = match init {
                        Some(s) => Some(Box::new(self.stmt(*s))),
                        None => None,
                    };
                    let ghost s1 = *self;
                    let ghost d1 = match ginit {
                        Some(i) => stmt_defs(*i),
                        None => Seq::<FunctionDecl<'src>>::empty(),
                    };
                    proof {
                        if ginit is None {
                            Self::lemma_no_defs(s0, s1);
                        }
                    }
                    let ghost e1 = self.errors@;
                    let condition = match condition {
                        Some(e) => Some(self.expr(*e)),
                        None => None,
                    };
                    let ghost e2 = self.errors@;
                    let increment = match increment {
                        Some(e) => Some(self.expr(*e)),
                        None => None,
                    };
                    let ghost e3 = self.errors@;
                    let ghost s3 = *self;
                    proof {
                        assert(e2.take(e1.len() as int) =~= e1);
                        assert(e3.take(e2.len() as int) =~= e2);
                        assert(e3.take(e1.len() as int) =~= e1);
                        Self::lemma_defs_before(s0, s1, s3, d1);
                    }
                    let body = self.stmt(*body);
                    let ghost s4 = *self;
                    proof {
                        Self::lemma_defs_trans(s0, s3, s4, d1, stmt_defs(gbody));
                        assert(s0.goto_labels == old(self).goto_labels);
                        assert(s3.goto_labels == s1.goto_labels);
                    }
                    self.id_map.exit_scope(old_scope);
                    self.exit_loop();
                    proof {
                        if plain_stmt(gstmt) {
                            let T = old(self).types();
                            let P = old(self).poisoned_ty;
                            let b = old(self).bindings();
                            let d = old(self).loop_depth.wrapping_add(1);
                            let sw = old(self).switch_cases is Some;
                            let g = goto_view(old(self).goto_labels@);
                            assert(s0.scope_bottom() == b.len());
                            assert(s0.bindings() == b);
                            let gi = match ginit {
                                Some(i) => goto_walk(g, *i),
                                None => g,
                            };
                            assert(goto_view(s3.goto_labels@) == gi);
                            let wi = match ginit {
                                Some(i) => stmt_walk(*i, g, b, b.len(), d, sw, old(self).local_count, T, P),
                                None => (Seq::<SemanticErrorWithCtx>::empty(), b, old(self).local_count),
                            };
                            let ec = match gcond {
                                Some(c) => expr_check(wi.1, T, P, *c).0,
                                None => Seq::<SemanticErrorWithCtx>::empty(),
                            };
                            let en = match ginc {
                                Some(c) => expr_check(wi.1, T, P, *c).0,
                                None => Seq::<SemanticErrorWithCtx>::empty(),
                            };
                            let wb = stmt_walk(gbody, gi, wi.1, b.len(), d, sw, wi.2, T, P);
                            assert(e1 == e0 + wi.0);
                            assert(s1.bindings() == wi.1 && s1.local_count == wi.2);
                            assert(e2 == e1 + ec);
                            assert(e3 == e2 + en);
                            assert(s4.errors() == e3 + wb.0);
                            assert(e0 + wi.0 + ec + en + wb.0 =~= e0 + (wi.0 + ec + en + wb.0));
                        }
                        if const_only(gstmt) {
                            let d = s0.loop_depth;
                            let sw = s0.switch_cases is Some;
                            let ci = match ginit {
                                Some(i) => control_errors(*i, d, sw),
                                None => Seq::<SemanticErrorWithCtx>::empty(),
                            };
                            assert(e1 == e0 + ci);
                            assert(self.errors() == e3 + control_errors(gbody, d, sw));
                            assert(e0 + ci + control_errors(gbody, d, sw) =~= e0 + (ci + control_errors(gbody, d, sw)));
                        }
                        assert(e1.take(e0.len() as int) =~= e0);
                        assert(self.errors@.take(e3.len() as int) =~= e3);
                        assert(self.errors@.take(old(self).errors@.len() as int) =~= old(self).errors@);
                    }
                    typed::Stmt::For(Box::new(ForStmt { init, condition, increment, body: Box::new(body) }))
                },
            _ => typed::Stmt::Nil,
        }
    }

    /// Checks a statement `stmt` of the kind its name says, as [`Self::stmt`] does.
    fn stmt_if(&mut self, stmt: ast::Stmt<'src>) -> (r: typed::Stmt<'src>)
        requires
            old(self).wf(),
            stmt_ok(stmt, old(self).source_len()),
            stmt is If,
        ensures
            final(self).stmt_post(*old(self), stmt, r),
        decreases stmt, 0int,
    {
        proof {
            assert(self.errors@.take(self.errors@.len() as int) =~= self.errors@);
            assert(self.errors() + Seq::<SemanticErrorWithCtx>::empty() =~= self.errors());
            lemma_bindings_extend(old(self).bindings());
        }
        let ghost gstmt = stmt;
        match stmt {
                ast::Stmt::If(condition, then_branch, else_branch) => {
                    let ghost gthen = *then_branch;
                    let ghost gelse = else_branch;
                    let ghost gcond = *condition;
                    let condition = self.expr(*condition);
                    let ghost e1 = self.errors@;
                    let ghost s1 = *self;
                    let then_branch = self.stmt(*then_branch);
                    let ghost e2 = self.errors@;
                    let ghost s2 = *self;
                    let else_branch = match else_branch {
                        Some(s) => Some(Box::new(self.stmt(*s))),
                        None => None,
                    };
                    proof {
                        assert(s1.goto_labels == old(self).goto_labels);
                        if plain_stmt(gstmt) {
                            let T = old(self).types();
                            let P = old(self).poisoned_ty;
                            let bot = old(self).scope_bottom();
                            let d = old(self).loop_depth;
                            let sw = old(self).switch_cases is Some;
                            let ec = expr_check(old(self).bindings(), T, P, gcond).0;
                            let g = goto_view(old(self).goto_labels@);
                            let wa = stmt_walk(gthen, g, old(self).bindings(), bot, d, sw, old(self).local_count, T, P);
                            assert(goto_view(s2.goto_labels@) == goto_walk(g, gthen));
                            let we = match gelse {
                                Some(x) => stmt_walk(*x, goto_walk(g, gthen), wa.1, bot, d, sw, wa.2, T, P),
                                None => (Seq::<SemanticErrorWithCtx>::empty(), wa.1, wa.2),
                            };
                            assert(e1 == old(self).errors() + ec);
                            assert(e2 == e1 + wa.0);
                            assert(self.errors() == e2 + we.0);
                            assert(old(self).errors() + ec + wa.0 + we.0 =~= old(self).errors() + (ec + wa.0 + we.0));
                        }
                        if const_only(gstmt) {
                            let d = old(self).loop_depth;
                            let sw = old(self).switch_cases is Some;
                            let ce = match gelse {
                                Some(b) => control_errors(*b, d, sw),
                                None => Seq::<SemanticErrorWithCtx>::empty(),
                            };
                            assert(e2 == e1 + control_errors(gthen, d, sw));
                            assert(self.errors() == e2 + ce);
                            assert(e1 + control_errors(gthen, d, sw) + ce =~= e1 + (control_errors(gthen, d, sw) + ce));
                        }
                        assert(e2.take(e1.len() as int) =~= e1);
                        assert(self.errors@.take(e2.len() as int) =~= e2);
                        assert(self.errors@.take(old(self).errors@.len() as int) =~= old(self).errors@);
                        Self::lemma_defs_after(*old(self), s1, s2, stmt_defs(gthen));
                        match gelse {
                            Some(b) => {
                                Self::lemma_defs_trans(*old(self), s2, *self, stmt_defs(gthen), stmt_defs(*b));
                            },
                            None => {
                                Self::lemma_defs_before(*old(self), s2, *self, stmt_defs(gthen));
                                assert(stmt_defs(gthen) + Seq::<FunctionDecl<'src>>::empty() =~= stmt_defs(gthen));
                            },
                        }
                    }
                    typed::Stmt::If(condition, Box::new(then_branch), else_branch)
                },
            _ => typed::Stmt::Nil,
        }
    }

    /// Checks a statement `stmt` of the kind its name says, as [`Self::stmt`] does.
    fn stmt_while(&mut self, stmt: ast::Stmt<'src>) -> (r: typed::Stmt<'src>)
        requires
            old(self).wf(),
            stmt_ok(stmt, old(self).source_len()),
            stmt is While,
        ensures
            final(self).stmt_post(*old(self), stmt, r),
        decreases stmt, 0int,
    {
        proof {
            assert(self.errors@.take(self.errors@.len() as int) =~= self.errors@);
            assert(self.errors() + Seq::<SemanticErrorWithCtx>::empty() =~= self.errors());
            lemma_bindings_extend(old(self).bindings());
        }
        let ghost gstmt = stmt;
        match stmt {
                ast::Stmt::While(condition, body) => {
                    let ghost gbody = *body;
                    let ghost gcond = *condition;
                    self.enter_loop();
                    let condition = self.expr(*condition);
                    let ghost e1 = self.errors@;
                    let ghost s1 = *self;
                    let body = self.stmt(*body);
                    let ghost s2 = *self;
                    self.exit_loop();
                    proof {
                        if plain_stmt(gstmt) {
                            let w = stmt_walk(gbody, goto_view(old(self).goto_labels@), old(self).bindings(), old(self).scope_bottom(), old(self).loop_depth.wrapping_add(1),
                                old(self).switch_cases is Some, old(self).local_count, old(self).types(), old(self).poisoned_ty);
                            let ec = expr_check(old(self).bindings(), old(self).types(), old(self).poisoned_ty, gcond).0;
                            assert(s1.errors() == old(self).errors() + ec);
                            assert(self.errors() == s1.errors() + w.0);
                            assert(old(self).errors() + ec + w.0 =~= old(self).errors() + (ec + w.0));
                        }
                        assert(s1.goto_labels == old(self).goto_labels);
                        assert(self.goto_labels == s2.goto_labels);
                        Self::lemma_defs_after(*old(self), s1, s2, stmt_defs(stmt));
                        assert(self.errors@.take(e1.len() as int) =~= e1);
                        assert(self.errors@.take(old(self).errors@.len() as int) =~= old(self).errors@);
                    }
                    typed::Stmt::While(condition, Box::new(body))
                },
            _ => typed::Stmt::Nil,
        }
    }

    /// What checking `stmt` into `r` took the checker from `old` to `self`.
    spec fn stmt_post(&self, old: Self, stmt: ast::Stmt<'src>, r: typed::Stmt<'src>) -> bool {
        &&& (bindings_extend(old.bindings(), self.bindings()))
        &&& (stmt is Block || stmt is For ==> self.bindings() == old.bindings())
        &&& (stmt_scoped(stmt, r, old.bindings(), self.bindings(), old.scope_bottom()))
        &&& (plain_stmt(stmt) ==> {
            let w = stmt_walk(
                stmt,
                goto_view(old.goto_labels@),
                old.bindings(),
                old.scope_bottom(),
                old.loop_depth,
                old.switch_cases is Some,
                old.local_count,
                old.types(),
                old.poisoned_ty,
            );
            &&& self.errors() == old.errors() + w.0
            &&& self.bindings() == w.1
            &&& self.local_count == w.2
            &&& self.symbol_table == old.symbol_table
        })
        &&& (self.step_defs(old, stmt_defs(stmt)))
        &&& (self.context_kept(old))
        &&& (stmt matches ast::Stmt::Break(ctx) ==> r is Break && self.errors() == if old.spec_can_break() {
            old.errors()
        } else {
            old.errors().push(SemanticErrorWithCtx { ctx, err: SemanticError::InvalidBreak })
        })
        &&& (stmt matches ast::Stmt::Continue(ctx) ==> r is Continue && self.errors() == if old.spec_can_continue() {
            old.errors()
        } else {
            old.errors().push(SemanticErrorWithCtx { ctx, err: SemanticError::InvalidContinue })
        })
        &&& (stmt is Nil ==> r is Nil && self.errors() == old.errors())
        &&& (const_only(stmt) ==> self.errors() == old.errors() + control_errors(
            stmt,
            old.loop_depth,
            old.switch_cases is Some,
        ) && self.symbol_table == old.symbol_table)
        &&& (const_only(stmt) ==> self.local_count == old.local_count && self.label_count == old.label_count)
        &&& (stmt_shape(stmt, r))
        &&& (goto_view(self.goto_labels@) == goto_walk(goto_view(old.goto_labels@), stmt))
        &&& (plain_stmt(stmt) ==> stmt_res(
            stmt,
            r,
            goto_view(old.goto_labels@),
            old.bindings(),
            old.scope_bottom(),
            old.loop_depth,
            old.switch_cases is Some,
            old.local_count,
            old.types(),
            old.poisoned_ty,
        ))
    }

    #[verifier::rlimit(100)]
    #[verifier::spinoff_prover]
    fn stmt(&mut self, stmt: ast::Stmt<'src>) -> (r: typed::Stmt<'src>)
        requires
            old(self).wf(),
            stmt_ok(stmt, old(self).source_len()),
        ensures
            final(self).stmt_post(*old(self), stmt, r),
        decreases stmt, 1int,
    {
        proof {
            assert(self.errors@.take(self.errors@.len() as int) =~= self.errors@);
            assert(self.errors() + Seq::<SemanticErrorWithCtx>::empty() =~= self.errors());
            lemma_bindings_extend(old(self).bindings());
        }
        let ghost gstmt = stmt;
        match stmt {
            ast::Stmt::Block(..) => self.stmt_block(stmt),
            ast::Stmt::Break(ctx) => {
                if !self.can_break() {
                    self.log_err(ctx, SemanticError::InvalidBreak);
                }
                proof {
                    Self::lemma_no_defs(*old(self), *self);
                    let x = SemanticErrorWithCtx { ctx, err: SemanticError::InvalidBreak };
                    assert(old(self).errors().push(x) =~= old(self).errors() + seq![x]);
                }
                proof { assert(goto_view(self.goto_labels@) == goto_walk(goto_view(old(self).goto_labels@), gstmt)); }
                typed::Stmt::Break
            },
            ast::Stmt::Case(ctx, value, body) => match value {
                Some(e) => self.switch_case(ctx, *e, *body),
                None => self.switch_default(ctx, *body),
            },
            ast::Stmt::Continue(ctx) => {
                if !self.can_continue() {
                    self.log_err(ctx, SemanticError::InvalidContinue);
                }
                proof {
                    Self::lemma_no_defs(*old(self), *self);
                    let x = SemanticErrorWithCtx { ctx, err: SemanticError::InvalidContinue };
                    assert(old(self).errors().push(x) =~= old(self).errors() + seq![x]);
                }
                proof { assert(goto_view(self.goto_labels@) == goto_walk(goto_view(old(self).goto_labels@), gstmt)); }
                typed::Stmt::Continue
            },
            ast::Stmt::Do(..) => self.stmt_do(stmt),
            ast::Stmt::Expr(e) => {
                let te = self.expr(*e);
                proof {
                    Self::lemma_no_defs(*old(self), *self);
                }
                proof { assert(goto_view(self.goto_labels@) == goto_walk(goto_view(old(self).goto_labels@), gstmt)); }
                typed::Stmt::Expr(te)
            },
            ast::Stmt::Decl(decl) => {
                let r = self.declaration(*decl);
                proof { assert(goto_view(self.goto_labels@) == goto_walk(goto_view(old(self).goto_labels@), gstmt)); }
                r
            },
            ast::Stmt::For(..) => self.stmt_for(stmt),
            ast::Stmt::Goto(id) => {
                let label = self.get_or_make_goto_label(id);
                proof {
                    Self::lemma_no_defs(*old(self), *self);
                    assert(old(self).errors() + Seq::<SemanticErrorWithCtx>::empty() =~= old(self).errors());
                }
                proof { assert(goto_view(self.goto_labels@) == goto_walk(goto_view(old(self).goto_labels@), gstmt)); }
                typed::Stmt::Goto(label)
            },
            ast::Stmt::If(..) => self.stmt_if(stmt),
            ast::Stmt::Labled(id, body) => {
                let ghost gb = *body;
                let ghost g = goto_view(old(self).goto_labels@);
                let label = self.make_goto_label(id);
                let ghost e1 = self.errors@;
                let ghost s1 = *self;
                proof {
                    let x = id.name.index();
                    let gs = old(self).goto_labels@;
                    if no_goto(gs, id.name) {
                        assert(!exists|c: int| first_named(g, x, c));
                        assert(old(self).errors() + Seq::<SemanticErrorWithCtx>::empty() =~= old(self).errors());
                    } else {
                        let i = choose|i: int| {
                            let gg = gs[i];
                            &&& #[trigger] first_goto(gs, id.name, i)
                            &&& label == gg.label
                            &&& s1.label_count == old(self).label_count
                            &&& s1.goto_labels@ == gs.update(i, GotoLabel { id: gg.id, label: gg.label, declared: true })
                            &&& s1.errors() == if gg.declared {
                                old(self).errors().push(SemanticErrorWithCtx { ctx: id.ctx, err: SemanticError::DuplicateDecl })
                            } else {
                                old(self).errors()
                            }
                        };
                        assert(first_named(g, x, i));
                        let c = choose|c: int| first_named(g, x, c);
                        lemma_first_named_unique(g, x, c, i);
                        assert(g[i].1 == gs[i].declared);
                        let dup = SemanticErrorWithCtx { ctx: id.ctx, err: SemanticError::DuplicateDecl };
                        assert(old(self).errors().push(dup) =~= old(self).errors() + seq![dup]);
                        assert(old(self).errors() + Seq::<SemanticErrorWithCtx>::empty() =~= old(self).errors());
                    }
                    assert(s1.errors() == old(self).errors() + label_errs(g, id));
                }
                let body = self.stmt(*body);
                proof {
                    if plain_stmt(gstmt) {
                        let w = stmt_walk(gb, label_seen(g, id), old(self).bindings(), old(self).scope_bottom(), old(self).loop_depth,
                            old(self).switch_cases is Some, old(self).local_count, old(self).types(), old(self).poisoned_ty);
                        assert(goto_view(s1.goto_labels@) == label_seen(g, id));
                        assert(s1.bindings() == old(self).bindings());
                        assert(self.errors() == s1.errors() + w.0);
                        assert(old(self).errors() + label_errs(g, id) + w.0 =~= old(self).errors() + (label_errs(g, id) + w.0));
                    }
                    assert(goto_view(self.goto_labels@) == goto_walk(goto_view(s1.goto_labels@), gb));
                    Self::lemma_defs_after(*old(self), s1, *self, stmt_defs(stmt));
                    assert(self.errors@.take(e1.len() as int) =~= e1);
                    assert(self.errors@.take(old(self).errors@.len() as int) =~= old(self).errors@);
                }
                proof { assert(goto_view(self.goto_labels@) == goto_walk(goto_view(old(self).goto_labels@), gstmt)); }
                typed::Stmt::Labled(label, Box::new(body))
            },
            ast::Stmt::Nil => {
                proof {
                }
                typed::Stmt::Nil
            },
            ast::Stmt::Return(e) => {
                let te = self.expr(*e);
                proof {
                    Self::lemma_no_defs(*old(self), *self);
                }
                proof { assert(goto_view(self.goto_labels@) == goto_walk(goto_view(old(self).goto_labels@), gstmt)); }
                typed::Stmt::Return(te)
            },
            ast::Stmt::Switch(e, body) => self.switch_stmt(*e, *body),
            ast::Stmt::While(..) => self.stmt_while(stmt),
        }
    }

    /// A `switch`: its cases are collected while its body is checked.
    fn switch_stmt(&mut self, e: ast::Expr<'src>, body: ast::Stmt<'src>) -> (r: typed::Stmt<'src>)
        requires
            old(self).wf(),
            expr_ok(e, old(self).source_len()),
            stmt_ok(body, old(self).source_len()),
        ensures
            bindings_extend(old(self).bindings(), final(self).bindings()),
            final(self).step_defs(*old(self), stmt_defs(body)),
            final(self).context_kept(*old(self)),
            r matches typed::Stmt::Switch(sw) && expr_shape(e, *sw.expr) && stmt_shape(body, *sw.body),
            goto_view(final(self).goto_labels@) == goto_walk(goto_view(old(self).goto_labels@), body),
        decreases body, 2int,
    {
        let old_switch_data = self.enter_switch();
        let e = self.expr(e);
        let ghost e1 = self.errors@;
        let ghost gbody = body;
        let ghost pre = *self;
        let body = self.stmt(body);
        let ghost post = *self;
        proof {
            assert(e1.take(old(self).errors@.len() as int) =~= old(self).errors@);
            Self::lemma_defs_after(*old(self), pre, post, stmt_defs(gbody));
        }
        let (cases, default) = self.exit_switch(old_switch_data);
        proof {
            assert(self.errors@.take(e1.len() as int) =~= e1);
            assert(self.errors@.take(old(self).errors@.len() as int) =~= old(self).errors@);
        }
        typed::Stmt::Switch(Box::new(SwitchStmt { expr: e, cases, default, body: Box::new(body) }))
    }

    /// `case value: body`: the value must be a constant not used by another
    /// case of the same `switch`, and there must be an enclosing `switch`.
    fn switch_case(&mut self, ctx: Context, e: ast::Expr<'src>, body: ast::Stmt<'src>) -> (r: typed::Stmt<'src>)
        requires
            old(self).wf(),
            ctx_within(ctx, old(self).source_len()),
            expr_ok(e, old(self).source_len()),
            stmt_ok(body, old(self).source_len()),
        ensures
            bindings_extend(old(self).bindings(), final(self).bindings()),
            final(self).step_defs(*old(self), stmt_defs(body)),
            final(self).context_kept(*old(self)),
            r matches typed::Stmt::Labled(_, tb) && stmt_shape(body, *tb),
            goto_view(final(self).goto_labels@) == goto_walk(goto_view(old(self).goto_labels@), body),
        decreases body, 2int,
    {
        let label = self.new_label();
        let mut data: Option<SwitchData> = None;
        std::mem::swap(&mut data, &mut self.switch_cases);
        let ghost had = data is Some;
        match data {
            Some((mut cases, default)) => {
                match e.expr {
                    ast::ExprTy::Constant(imm) => {
                        let mut duplicate = false;
                        let mut i: usize = 0;
                        while i < cases.len()
                            invariant
                                i <= cases@.len(),
                            decreases cases@.len() - i,
                        {
                            if cases[i].val == imm {
                                duplicate = true;
                            }
                            i += 1;
                        }
                        if duplicate {
                            self.log_err(e.ctx, SemanticError::DuplicateCase);
                        } else {
                            cases.push(SwitchCase { val: imm, label });
                        }
                    },
                    _ => {
                        self.log_err(e.ctx, SemanticError::InvalidCaseExpr);
                    },
                }
                self.switch_cases = Some((cases, default));
            },
            None => {
                self.log_err(ctx, SemanticError::InvalidCase);
            },
        }
        let ghost e1 = self.errors@;
        let ghost gbody = body;
        let ghost pre = *self;
        proof {
            assert(e1.take(old(self).errors@.len() as int) =~= old(self).errors@);
        }
        let stmt = self.stmt(body);
        let ghost post = *self;
        proof {
            Self::lemma_defs_after(*old(self), pre, post, stmt_defs(gbody));
            assert(self.errors@.take(e1.len() as int) =~= e1);
            assert(self.errors@.take(old(self).errors@.len() as int) =~= old(self).errors@);
        }
        typed::Stmt::Labled(label, Box::new(stmt))
    }

    /// `default: body`: one per `switch`, and only inside one.
    fn switch_default(&mut self, ctx: Context, body: ast::Stmt<'src>) -> (r: typed::Stmt<'src>)
        requires
            old(self).wf(),
            ctx_within(ctx, old(self).source_len()),
            stmt_ok(body, old(self).source_len()),
        ensures
            bindings_extend(old(self).bindings(), final(self).bindings()),
            final(self).step_defs(*old(self), stmt_defs(body)),
            final(self).context_kept(*old(self)),
            r matches typed::Stmt::Labled(_, tb) && stmt_shape(body, *tb),
            goto_view(final(self).goto_labels@) == goto_walk(goto_view(old(self).goto_labels@), body),
        decreases body, 2int,
    {
        let label = self.new_label();
        let mut data: Option<SwitchData> = None;
        std::mem::swap(&mut data, &mut self.switch_cases);
        match data {
            Some((cases, default)) => {
                match default {
                    None => {
                        self.switch_cases = Some((cases, Some(label)));
                    },
                    Some(d) => {
                        self.log_err(ctx, SemanticError::MultipleDefaultCases);
                        self.switch_cases = Some((cases, Some(d)));
                    },
                }
            },
            None => {
                self.log_err(ctx, SemanticError::InvalidCase);
            },
        }
        let ghost e1 = self.errors@;
        let ghost gbody = body;
        let ghost pre = *self;
        proof {
            assert(e1.take(old(self).errors@.len() as int) =~= old(self).errors@);
        }
        let stmt = self.stmt(body);
        let ghost post = *self;
        proof {
            Self::lemma_defs_after(*old(self), pre, post, stmt_defs(gbody));
            assert(self.errors@.take(e1.len() as int) =~= e1);
            assert(self.errors@.take(old(self).errors@.len() as int) =~= old(self).errors@);
        }
        typed::Stmt::Labled(label, Box::new(stmt))
    }

    /// Checks an expression.
    fn expr(&mut self, e: ast::Expr<'src>) -> (r: Box<typed::Expr<'src>>)
        requires
            old(self).wf(),
            expr_ok(e, old(self).source_len()),
        ensures
            final(self).id_map == old(self).id_map,
            final(self).goto_labels == old(self).goto_labels,
            final(self).step_from(*old(self)),
            final(self).context_kept(*old(self)),
            final(self).label_count == old(self).label_count,
            final(self).local_count == old(self).local_count,
            e.expr matches ast::ExprTy::Constant(c) ==> r.expr == typed::ExprTy::Constant(c) && r.ty == old(self).poisoned_ty
                && final(self).errors() == old(self).errors() && final(self).symbol_table == old(self).symbol_table,
            expr_shape(e, *r),
            expr_resolves(old(self).bindings(), e, *r),
            final(self).errors() == old(self).errors() + expr_check(old(self).bindings(), old(self).types(), old(self).poisoned_ty, e).0,
            r.ty == expr_check(old(self).bindings(), old(self).types(), old(self).poisoned_ty, e).1,
            final(self).symbol_table == old(self).symbol_table,
        decreases e, 1int,
    {
        let ghost orig = e;
        let ast::Expr { expr, ctx } = e;
        proof {
            assert(self.errors@.take(self.errors@.len() as int) =~= self.errors@);
            assert(self.errors() + Seq::<SemanticErrorWithCtx>::empty() =~= self.errors());
        }
        let typed = match expr {
            ast::ExprTy::Ternary(cond, then_branch, else_branch) => self.ternary(ctx, *cond, *then_branch, *else_branch, Ghost(orig)),
            ast::ExprTy::Assign(op, lhs, rhs) => self.assign(ctx, op, *lhs, *rhs, Ghost(orig)),
            ast::ExprTy::Binary(op, lhs, rhs) => self.binary(ctx, op, *lhs, *rhs, Ghost(orig)),
            ast::ExprTy::Unary(op, operand) => self.unary(op, *operand, Ghost(orig)),
            ast::ExprTy::DecInc(op, operand) => self.decinc(op, *operand, Ghost(orig)),
            ast::ExprTy::Var(name) => {
                proof {
                    lemma_lookup_binding(self.bindings(), name);
                }
                let r = self.variable(ctx, name);
                proof {
                    let x = SemanticErrorWithCtx { ctx, err: SemanticError::UndeclaredVar };
                    assert(old(self).errors().push(x) =~= old(self).errors() + seq![x]);
                }
                r
            },
            ast::ExprTy::Constant(imm) => typed::Expr { expr: typed::ExprTy::Constant(imm), ty: self.poisoned_ty },
            ast::ExprTy::Poisoned => typed::Expr { expr: typed::ExprTy::Poisoned, ty: self.poisoned_ty },
            ast::ExprTy::Call(call) => self.call_expr(ctx, *call, Ghost(orig)),
        };
        Box::new(typed)
    }

    /// `cond ? a : b`: the branches must agree in type.
    fn ternary(&mut self, ctx: Context, cond: ast::Expr<'src>, then_branch: ast::Expr<'src>, else_branch: ast::Expr<'src>, Ghost(orig): Ghost<ast::Expr<'src>>) -> (r: typed::Expr<'src>)
        requires
            orig.expr matches ast::ExprTy::Ternary(a, b, c) && *a == cond && *b == then_branch && *c == else_branch,
            ctx == orig.ctx,
            old(self).wf(),
            ctx_within(ctx, old(self).source_len()),
            expr_ok(cond, old(self).source_len()),
            expr_ok(then_branch, old(self).source_len()),
            expr_ok(else_branch, old(self).source_len()),
        ensures
            final(self).id_map == old(self).id_map,
            final(self).goto_labels == old(self).goto_labels,
            final(self).step_from(*old(self)),
            final(self).context_kept(*old(self)),
            final(self).label_count == old(self).label_count,
            final(self).local_count == old(self).local_count,
            r.expr is Ternary,
            expr_shape(orig, r),
            expr_resolves(old(self).bindings(), orig, r),
            final(self).errors() == old(self).errors() + expr_check(old(self).bindings(), old(self).types(), old(self).poisoned_ty, orig).0,
            r.ty == expr_check(old(self).bindings(), old(self).types(), old(self).poisoned_ty, orig).1,
            final(self).symbol_table == old(self).symbol_table,
        decreases orig, 0int,
    {
        let ghost cond_g = cond;
        let ghost then_g = then_branch;
        let ghost else_g = else_branch;
        let cond = self.expr(cond);
        let ghost e1 = self.errors@;
        let then_branch = self.expr(then_branch);
        let ghost e2 = self.errors@;
        let else_branch = self.expr(else_branch);
        let ghost e3 = self.errors@;
        let ty = self.common_type(ctx, then_branch.ty, else_branch.ty);
        proof {
            assert(e2.take(e1.len() as int) =~= e1);
            assert(e3.take(e2.len() as int) =~= e2);
            assert(self.errors@.take(e3.len() as int) =~= e3);
            assert(self.errors@.take(old(self).errors@.len() as int) =~= old(self).errors@);
            let sp = expr_check(old(self).bindings(), old(self).types(), old(self).poisoned_ty, orig);
            let o = old(self).errors();
            let ec = expr_check(old(self).bindings(), old(self).types(), old(self).poisoned_ty, cond_g).0;
            let ex = expr_check(old(self).bindings(), old(self).types(), old(self).poisoned_ty, then_g).0;
            let ey = expr_check(old(self).bindings(), old(self).types(), old(self).poisoned_ty, else_g).0;
            let ce = common_errs(old(self).types(), ctx, then_branch.ty, else_branch.ty);
            assert(self.errors() == o + ec + ex + ey + ce);
            assert(o + ec + ex + ey + ce =~= o + (ec + ex + ey + ce));
        }
        typed::Expr { expr: typed::ExprTy::Ternary(cond, then_branch, else_branch), ty }
    }

    /// `lhs op= rhs`: the target must be a name, and the sides must agree in
    /// type.
    fn assign(&mut self, ctx: Context, op: AssignOp, lhs: ast::Expr<'src>, rhs: ast::Expr<'src>, Ghost(orig): Ghost<ast::Expr<'src>>) -> (r: typed::Expr<'src>)
        requires
            orig.expr matches ast::ExprTy::Assign(o, a, b) && o == op && *a == lhs && *b == rhs,
            ctx == orig.ctx,
            old(self).wf(),
            ctx_within(ctx, old(self).source_len()),
            expr_ok(lhs, old(self).source_len()),
            expr_ok(rhs, old(self).source_len()),
        ensures
            final(self).id_map == old(self).id_map,
            final(self).goto_labels == old(self).goto_labels,
            final(self).step_from(*old(self)),
            final(self).context_kept(*old(self)),
            final(self).label_count == old(self).label_count,
            final(self).local_count == old(self).local_count,
            !spec_is_lvalue(lhs) ==> r.expr is Poisoned && final(self).errors() == old(self).errors().push(
                SemanticErrorWithCtx { ctx: lhs.ctx, err: SemanticError::InvalidLValue },
            ),
            spec_is_lvalue(lhs) ==> r.expr is Assign,
            expr_shape(orig, r),
            expr_resolves(old(self).bindings(), orig, r),
            final(self).errors() == old(self).errors() + expr_check(old(self).bindings(), old(self).types(), old(self).poisoned_ty, orig).0,
            r.ty == expr_check(old(self).bindings(), old(self).types(), old(self).poisoned_ty, orig).1,
            final(self).symbol_table == old(self).symbol_table,
        decreases orig, 0int,
    {
        let ghost lg = lhs;
        let ghost rg = rhs;
        if is_lvalue(&lhs) {
            let lhs = self.expr(lhs);
            let ghost e1 = self.errors@;
            let rhs = self.expr(rhs);
            let ghost e2 = self.errors@;
            let ty = self.common_type(ctx, lhs.ty, rhs.ty);
            proof {
                assert(e2.take(e1.len() as int) =~= e1);
                assert(self.errors@.take(e2.len() as int) =~= e2);
                assert(self.errors@.take(old(self).errors@.len() as int) =~= old(self).errors@);
                let o = old(self).errors();
                let el = expr_check(old(self).bindings(), old(self).types(), old(self).poisoned_ty, lg).0;
                let er = expr_check(old(self).bindings(), old(self).types(), old(self).poisoned_ty, rg).0;
                let ce = common_errs(old(self).types(), ctx, lhs.ty, rhs.ty);
                assert(self.errors() == o + el + er + ce);
                assert(o + el + er + ce =~= o + (el + er + ce));
            }
            typed::Expr { expr: typed::ExprTy::Assign(op, lhs, rhs), ty }
        } else {
            let r = self.error(lhs.ctx, SemanticError::InvalidLValue);
            proof {
                let x = SemanticErrorWithCtx { ctx: lg.ctx, err: SemanticError::InvalidLValue };
                assert(old(self).errors().push(x) =~= old(self).errors() + seq![x]);
            }
            r
        }
    }

    /// `lhs op rhs`: the operands must agree in type.
    fn binary(&mut self, ctx: Context, op: BinaryOp, lhs: ast::Expr<'src>, rhs: ast::Expr<'src>, Ghost(orig): Ghost<ast::Expr<'src>>) -> (r: typed::Expr<'src>)
        requires
            orig.expr matches ast::ExprTy::Binary(o, a, b) && o == op && *a == lhs && *b == rhs,
            ctx == orig.ctx,
            old(self).wf(),
            ctx_within(ctx, old(self).source_len()),
            expr_ok(lhs, old(self).source_len()),
            expr_ok(rhs, old(self).source_len()),
        ensures
            final(self).id_map == old(self).id_map,
            final(self).goto_labels == old(self).goto_labels,
            final(self).step_from(*old(self)),
            final(self).context_kept(*old(self)),
            final(self).label_count == old(self).label_count,
            final(self).local_count == old(self).local_count,
            r.expr matches typed::ExprTy::Binary(o, _, _) && o == op,
            expr_shape(orig, r),
            expr_resolves(old(self).bindings(), orig, r),
            final(self).errors() == old(self).errors() + expr_check(old(self).bindings(), old(self).types(), old(self).poisoned_ty, orig).0,
            r.ty == expr_check(old(self).bindings(), old(self).types(), old(self).poisoned_ty, orig).1,
            final(self).symbol_table == old(self).symbol_table,
        decreases orig, 0int,
    {
        let ghost lg = lhs;
        let ghost rg = rhs;
        let lhs = self.expr(lhs);
        let ghost e1 = self.errors@;
        let rhs = self.expr(rhs);
        let ghost e2 = self.errors@;
        let ty = self.common_type(ctx, lhs.ty, rhs.ty);
        proof {
            assert(e2.take(e1.len() as int) =~= e1);
            assert(self.errors@.take(e2.len() as int) =~= e2);
            assert(self.errors@.take(old(self).errors@.len() as int) =~= old(self).errors@);
            let o = old(self).errors();
            let el = expr_check(old(self).bindings(), old(self).types(), old(self).poisoned_ty, lg).0;
            let er = expr_check(old(self).bindings(), old(self).types(), old(self).poisoned_ty, rg).0;
            let ce = common_errs(old(self).types(), ctx, lhs.ty, rhs.ty);
            assert(self.errors() == o + el + er + ce);
            assert(o + el + er + ce =~= o + (el + er + ce));
        }
        typed::Expr { expr: typed::ExprTy::Binary(op, lhs, rhs), ty }
    }

    /// A prefix operator: `++` and `--` need a name; the operand must be an
    /// `int`.
    fn unary(&mut self, op: UnaryOp, operand: ast::Expr<'src>, Ghost(orig): Ghost<ast::Expr<'src>>) -> (r: typed::Expr<'src>)
        requires
            orig.expr matches ast::ExprTy::Unary(o, a) && o == op && *a == operand,
            old(self).wf(),
            expr_ok(operand, old(self).source_len()),
        ensures
            final(self).id_map == old(self).id_map,
            final(self).goto_labels == old(self).goto_labels,
            final(self).step_from(*old(self)),
            final(self).context_kept(*old(self)),
            final(self).label_count == old(self).label_count,
            final(self).local_count == old(self).local_count,
            (op == UnaryOp::Increment || op == UnaryOp::Decrement) && !spec_is_lvalue(operand) ==> r.expr is Poisoned
                && final(self).errors() == old(self).errors().push(
                SemanticErrorWithCtx { ctx: operand.ctx, err: SemanticError::InvalidLValue },
            ),
            expr_shape(orig, r),
            expr_resolves(old(self).bindings(), orig, r),
            final(self).errors() == old(self).errors() + expr_check(old(self).bindings(), old(self).types(), old(self).poisoned_ty, orig).0,
            r.ty == expr_check(old(self).bindings(), old(self).types(), old(self).poisoned_ty, orig).1,
            final(self).symbol_table == old(self).symbol_table,
        decreases orig, 0int,
    {
        let ghost ag = operand;
        if (op == UnaryOp::Increment || op == UnaryOp::Decrement) && !is_lvalue(&operand) {
            let r = self.error(operand.ctx, SemanticError::InvalidLValue);
            proof {
                let x = SemanticErrorWithCtx { ctx: ag.ctx, err: SemanticError::InvalidLValue };
                assert(old(self).errors().push(x) =~= old(self).errors() + seq![x]);
            }
            r
        } else {
            let ctx = operand.ctx;
            let operand = self.expr(operand);
            let ghost e1 = self.errors@;
            let ty = self.common_type_int(ctx, operand.ty);
            proof {
                assert(self.errors@.take(e1.len() as int) =~= e1);
                assert(self.errors@.take(old(self).errors@.len() as int) =~= old(self).errors@);
                let o = old(self).errors();
                let ea = expr_check(old(self).bindings(), old(self).types(), old(self).poisoned_ty, ag).0;
                let ie = int_errs(old(self).types(), ctx, operand.ty);
                assert(self.errors() =~= o + ea + ie);
                assert(o + ea + ie =~= o + (ea + ie));
            }
            typed::Expr { expr: typed::ExprTy::Unary(op, operand), ty }
        }
    }

    /// A postfix `++` or `--`: the operand must be a name of type `int`.
    fn decinc(&mut self, op: UnaryOp, operand: ast::Expr<'src>, Ghost(orig): Ghost<ast::Expr<'src>>) -> (r: typed::Expr<'src>)
        requires
            orig.expr matches ast::ExprTy::DecInc(o, a) && o == op && *a == operand,
            old(self).wf(),
            expr_ok(operand, old(self).source_len()),
        ensures
            final(self).id_map == old(self).id_map,
            final(self).goto_labels == old(self).goto_labels,
            final(self).step_from(*old(self)),
            final(self).context_kept(*old(self)),
            final(self).label_count == old(self).label_count,
            final(self).local_count == old(self).local_count,
            !spec_is_lvalue(operand) ==> r.expr is Poisoned && final(self).errors() == old(self).errors().push(
                SemanticErrorWithCtx { ctx: operand.ctx, err: SemanticError::InvalidLValue },
            ),
            spec_is_lvalue(operand) ==> (r.expr matches typed::ExprTy::DecInc(o, _) && o == op),
            expr_shape(orig, r),
            expr_resolves(old(self).bindings(), orig, r),
            final(self).errors() == old(self).errors() + expr_check(old(self).bindings(), old(self).types(), old(self).poisoned_ty, orig).0,
            r.ty == expr_check(old(self).bindings(), old(self).types(), old(self).poisoned_ty, orig).1,
            final(self).symbol_table == old(self).symbol_table,
        decreases orig, 0int,
    {
        let ghost ag = operand;
        if is_lvalue(&operand) {
            let ctx = operand.ctx;
            let operand = self.expr(operand);
            let ghost e1 = self.errors@;
            let ty = self.common_type_int(ctx, operand.ty);
            proof {
                assert(self.errors@.take(e1.len() as int) =~= e1);
                assert(self.errors@.take(old(self).errors@.len() as int) =~= old(self).errors@);
                let o = old(self).errors();
                let ea = expr_check(old(self).bindings(), old(self).types(), old(self).poisoned_ty, ag).0;
                let ie = int_errs(old(self).types(), ctx, operand.ty);
                assert(self.errors() =~= o + ea + ie);
                assert(o + ea + ie =~= o + (ea + ie));
            }
            typed::Expr { expr: typed::ExprTy::DecInc(op, operand), ty }
        } else {
            let r = self.error(operand.ctx, SemanticError::InvalidLValue);
            proof {
                let x = SemanticErrorWithCtx { ctx: ag.ctx, err: SemanticError::InvalidLValue };
                assert(old(self).errors().push(x) =~= old(self).errors() + seq![x]);
            }
            r
        }
    }

    /// A call: the callee must have a function type, and the arguments
    /// must match its parameters in number and type. Arguments beyond the
    /// parameters are left out.
    fn call_expr(&mut self, ctx: Context, call: ast::CallExpr<'src>, Ghost(orig): Ghost<ast::Expr<'src>>) -> (r: typed::Expr<'src>)
        requires
            orig.expr matches ast::ExprTy::Call(c) && *c == call,
            ctx == orig.ctx,
            old(self).wf(),
            ctx_within(ctx, old(self).source_len()),
            expr_ok(*call.operand, old(self).source_len()),
            forall|i: int| 0 <= i < call.args@.len() ==> expr_ok(#[trigger] call.args@[i], old(self).source_len()),
        ensures
            final(self).id_map == old(self).id_map,
            final(self).goto_labels == old(self).goto_labels,
            final(self).step_from(*old(self)),
            final(self).context_kept(*old(self)),
            final(self).label_count == old(self).label_count,
            final(self).local_count == old(self).local_count,
            expr_shape(orig, r),
            expr_resolves(old(self).bindings(), orig, r),
            final(self).errors() == old(self).errors() + expr_check(old(self).bindings(), old(self).types(), old(self).poisoned_ty, orig).0,
            r.ty == expr_check(old(self).bindings(), old(self).types(), old(self).poisoned_ty, orig).1,
            final(self).symbol_table == old(self).symbol_table,
        decreases orig, 0int,
    {
        let ghost args_vec = call.args;
        let ghost callee = *call.operand;
        let ast::CallExpr { operand, args } = call;
        let operand_ctx = operand.ctx;
        let operand = self.expr(*operand);
        let ghost e1 = self.errors@;
        let ty = operand.ty;
        match self.fn_signature(ty) {
            None => {
                if self.is_poisoned(ty) {
                    proof {
                        assert(self.errors@.take(old(self).errors@.len() as int) =~= old(self).errors@);
                    }
                    let p = self.poisoned_ty;
                    let ghost checked = *operand;
                    let typed::Expr { expr, .. } = *operand;
                    let r = typed::Expr { expr, ty: p };
                    proof {
                        lemma_shape_ignores_type(callee, checked, r);
                        lemma_resolves_ignores_type(old(self).bindings(), callee, checked, r);
                    }
                    r
                } else {
                    let r = self.error(operand_ctx, SemanticError::ExpectedFunctionType);
                    proof {
                        assert(self.errors@.take(e1.len() as int) =~= e1);
                        assert(self.errors@.take(old(self).errors@.len() as int) =~= old(self).errors@);
                        let x = SemanticErrorWithCtx { ctx: operand_ctx, err: SemanticError::ExpectedFunctionType };
                        let eo = expr_check(old(self).bindings(), old(self).types(), old(self).poisoned_ty, callee).0;
                        assert(self.errors() =~= old(self).errors() + (eo + seq![x]));
                    }
                    r
                }
            },
            Some((ret, params)) => {
                let ghost count = if args@.len() != params@.len() {
                    seq![SemanticErrorWithCtx { ctx, err: SemanticError::InvalidArgCount }]
                } else {
                    Seq::<SemanticErrorWithCtx>::empty()
                };
                if args.len() != params.len() {
                    self.log_err(ctx, SemanticError::InvalidArgCount);
                }
                proof {
                    assert(self.errors@.take(old(self).errors@.len() as int) =~= old(self).errors@) by {
                        assert(self.errors@.take(e1.len() as int) =~= e1);
                    }
                    assert(self.errors@ =~= e1 + count);
                }
                let ghost ebase = self.errors();
                let ghost B = old(self).bindings();
                let ghost T = old(self).types();
                let ghost P = old(self).poisoned_ty;
                let ghost orig_args = args@;
                let mut rest = args;
                let mut typed_args: Vec<typed::Expr<'src>> = Vec::new();
                let mut k: usize = 0;
                while rest.len() > 0 && k < params.len()
                    invariant
                        self.step_from(*old(self)),
                        self.context_kept(*old(self)),
                        self.goto_labels == old(self).goto_labels,
                        self.id_map == old(self).id_map,
                        self.label_count == old(self).label_count,
                        self.local_count == old(self).local_count,
                        k + rest@.len() == orig_args.len(),
                        rest@ == orig_args.subrange(k as int, orig_args.len() as int),
                        forall|i: int| 0 <= i < orig_args.len() ==> expr_ok(#[trigger] orig_args[i], old(self).source_len()),
                        args_vec@ == orig_args,
                        k <= params@.len(),
                        orig.expr matches ast::ExprTy::Call(c) && c.args == args_vec,
                        self.errors() == ebase + args_errs(B, T, P, orig_args, params@, k as int),
                        B == old(self).bindings(),
                        T == old(self).types(),
                        P == old(self).poisoned_ty,
                        self.symbol_table == old(self).symbol_table,
                    decreases rest@.len(),
                {
                    let arg = rest.remove(0);
                    proof {
                        assert(arg == orig_args[k as int]);
                        assert(rest@ =~= orig_args.subrange(k + 1, orig_args.len() as int));
                        vstd::std_specs::vec::axiom_vec_index_decreases(args_vec, k as int);
                        assert(args_vec@ == orig_args);
                        assert(decreases_to!(orig => args_vec));
                        assert(decreases_to!(orig => arg));
                    }
                    let arg_ctx = arg.ctx;
                    let ghost before = self.errors@;
                    let ghost ga = arg;
                    let typed_arg = self.expr(arg);
                    let ghost mid = self.errors();
                    if !self.eq_or_poison(typed_arg.ty, params[k]) {
                        self.log_err(arg_ctx, SemanticError::TypeMismatch);
                    }
                    proof {
                        let (ea, ta) = expr_check(B, T, P, ga);
                        let mismatch = if !(ta == params@[k as int] || ty_poisoned(T, ta) || ty_poisoned(T, params@[k as int])) {
                            seq![SemanticErrorWithCtx { ctx: ga.ctx, err: SemanticError::TypeMismatch }]
                        } else {
                            Seq::<SemanticErrorWithCtx>::empty()
                        };
                        assert(mid == before + ea);
                        assert(self.errors() =~= mid + mismatch);
                        assert(orig_args[k as int] == ga);
                        assert(args_errs(B, T, P, orig_args, params@, k + 1) == args_errs(B, T, P, orig_args, params@, k as int) + ea + mismatch);
                        assert(self.errors() =~= ebase + args_errs(B, T, P, orig_args, params@, k + 1));
                    }
                    proof {
                        assert(self.errors@.take(before.len() as int) =~= before) by {
                            assert(self.errors@.take(before.len() as int) =~= before);
                        }
                        assert(self.errors@.take(old(self).errors@.len() as int) =~= old(self).errors@);
                    }
                    typed_args.push(*typed_arg);
                    k += 1;
                }
                proof {
                    let eo = expr_check(B, T, P, callee).0;
                    let n = if orig_args.len() < params@.len() { orig_args.len() } else { params@.len() };
                    assert(k == n);
                    assert(self.errors() =~= old(self).errors() + (eo + count + args_errs(B, T, P, orig_args, params@, n as int)));
                }
                let call = typed::CallExpr { operand, args: typed_args };
                typed::Expr { expr: typed::ExprTy::Call(Box::new(call)), ty: ret }
            },
        }
    }

    /// A name in an expression: an undeclared name is reported; a known
    /// one loads the function, global, static local or local it names.
    fn variable(&mut self, ctx: Context, name: Interned<'src>) -> (r: typed::Expr<'src>)
        requires
            old(self).wf(),
            ctx_within(ctx, old(self).source_len()),
        ensures
            final(self).id_map == old(self).id_map,
            final(self).goto_labels == old(self).goto_labels,
            final(self).step_from(*old(self)),
            final(self).context_kept(*old(self)),
            final(self).label_count == old(self).label_count,
            final(self).local_count == old(self).local_count,
            final(self).symbol_table == old(self).symbol_table,
            match crate::compiler::ty::lookup(old(self).id_map.model().entries, name) {
                None => r.expr is Poisoned && r.ty == old(self).poisoned_ty && final(self).errors() == old(self).errors().push(
                    SemanticErrorWithCtx { ctx, err: SemanticError::UndeclaredVar },
                ),
                Some(info) => r.ty == info.ty && final(self).errors() == old(self).errors() && match info.scope {
                    ScopeTy::InternalLocal(id) => r.expr == typed::ExprTy::LocalStaticLoad(id),
                    ScopeTy::Local(id) => r.expr == typed::ExprTy::Local(id),
                    _ => r.expr == typed::ExprTy::FnLoad(name) || r.expr == typed::ExprTy::GlobalLoad(name),
                },
            },
    {
        proof {
            assert(self.errors@.take(self.errors@.len() as int) =~= self.errors@);
        }
        match self.id_map.get(&name) {
            None => self.error(ctx, SemanticError::UndeclaredVar),
            Some(info) => {
                let info = *info;
                match info.scope {
                    ScopeTy::InternalLocal(id) => typed::Expr { expr: typed::ExprTy::LocalStaticLoad(id), ty: info.ty },
                    ScopeTy::Local(id) => typed::Expr { expr: typed::ExprTy::Local(id), ty: info.ty },
                    _ => {
                        if self.fn_signature(info.ty).is_some() {
                            typed::Expr { expr: typed::ExprTy::FnLoad(name), ty: info.ty }
                        } else {
                            typed::Expr { expr: typed::ExprTy::GlobalLoad(name), ty: info.ty }
                        }
                    },
                }
            },
        }
    }
}

} // verus!
