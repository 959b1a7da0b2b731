//! The checked syntax tree: names resolved to locals, statics, globals and
//! functions, types attached, and jump targets numbered.
use vstd::prelude::*;

use crate::arena::Handle;
use crate::compiler::x86::{Label, Linkage};
use crate::compiler::ast::{AssignOp, BinaryOp, SpecifierFlags, UnaryOp};
use crate::compiler::error::SemanticError;
use crate::intern::Interned;

verus! {

/// What is known of a file-scope name: its flags and its type.
#[derive(Clone, Copy, Debug)]
pub struct SymbolData {
    pub specifier_flags: SpecifierFlags,
    pub ty: Handle,
}

pub struct Program<'src> {
    pub labels: u32,
    pub functions: Vec<Function<'src>>,
    pub globals: Vec<GlobalVar<'src>>,
}

/// A variable with static storage. `generation` tells apart the static
/// locals that share a name.
#[derive(Clone, Copy, Debug)]
pub struct GlobalVar<'src> {
    pub linkage: Linkage,
    pub name: Interned<'src>,
    pub generation: Option<u32>,
    pub def: Option<i32>,
}

pub struct Function<'src> {
    pub linkage: Linkage,
    pub name: Interned<'src>,
    pub body: Vec<Stmt<'src>>,
    pub param_count: u32,
    pub local_count: u32,
}

pub struct ForStmt<'src> {
    pub init: Option<Box<Stmt<'src>>>,
    pub condition: Option<Box<Expr<'src>>>,
    pub increment: Option<Box<Expr<'src>>>,
    pub body: Box<Stmt<'src>>,
}

pub struct SwitchStmt<'src> {
    pub expr: Box<Expr<'src>>,
    pub cases: Vec<SwitchCase>,
    pub default: Option<Label>,
    pub body: Box<Stmt<'src>>,
}

#[derive(Clone, Copy, Debug)]
pub struct SwitchCase {
    pub val: i32,
    pub label: Label,
}

pub enum Stmt<'src> {
    Break,
    Block(Vec<Stmt<'src>>),
    Continue,
    Decl(Option<Box<Expr<'src>>>),
    Do(Box<Stmt<'src>>, Box<Expr<'src>>),
    Expr(Box<Expr<'src>>),
    For(Box<ForStmt<'src>>),
    Goto(Label),
    If(Box<Expr<'src>>, Box<Stmt<'src>>, Option<Box<Stmt<'src>>>),
    Labled(Label, Box<Stmt<'src>>),
    Nil,
    Return(Box<Expr<'src>>),
    Switch(Box<SwitchStmt<'src>>),
    While(Box<Expr<'src>>, Box<Stmt<'src>>),
}

pub struct Expr<'src> {
    pub expr: ExprTy<'src>,
    pub ty: Handle,
}

pub struct CallExpr<'src> {
    pub operand: Box<Expr<'src>>,
    pub args: Vec<Expr<'src>>,
}

pub enum ExprTy<'src> {
    Ternary(Box<Expr<'src>>, Box<Expr<'src>>, Box<Expr<'src>>),
    Assign(AssignOp, Box<Expr<'src>>, Box<Expr<'src>>),
    Binary(BinaryOp, Box<Expr<'src>>, Box<Expr<'src>>),
    Unary(UnaryOp, Box<Expr<'src>>),
    DecInc(UnaryOp, Box<Expr<'src>>),
    Call(Box<CallExpr<'src>>),
    FnLoad(Interned<'src>),
    GlobalLoad(Interned<'src>),
    LocalStaticLoad(u32),
    Local(u32),
    Constant(i32),
    Poisoned,
}

/// An expression the back end supports: no node is poisoned, postfix
/// operators are `++` or `--`, and there are no calls, no function names and
/// no static locals; names of globals only where `globals` allows them.
pub open spec fn expr_supported(e: Expr, globals: bool) -> bool
    decreases e,
{
    match e.expr {
        ExprTy::Ternary(a, b, c) => expr_supported(*a, globals) && expr_supported(*b, globals) && expr_supported(*c, globals),
        ExprTy::Assign(_, a, b) => expr_supported(*a, globals) && expr_supported(*b, globals),
        ExprTy::Binary(_, a, b) => expr_supported(*a, globals) && expr_supported(*b, globals),
        ExprTy::Unary(_, a) => expr_supported(*a, globals),
        ExprTy::DecInc(op, a) => (op == UnaryOp::Increment || op == UnaryOp::Decrement) && expr_supported(*a, globals),
        ExprTy::GlobalLoad(_) => globals,
        ExprTy::Local(_) => true,
        ExprTy::Constant(_) => true,
        _ => false,
    }
}

pub open spec fn opt_expr_supported(e: Option<Box<Expr>>, globals: bool) -> bool {
    match e {
        Some(e) => expr_supported(*e, globals),
        None => true,
    }
}

/// Every expression in a statement is supported.
pub open spec fn stmt_supported(s: Stmt, globals: bool) -> bool
    decreases s,
{
    match s {
        Stmt::Block(v) => forall|i: int| 0 <= i < v@.len() ==> stmt_supported(#[trigger] v@[i], globals),
        Stmt::Decl(e) => opt_expr_supported(e, globals),
        Stmt::Do(b, e) => stmt_supported(*b, globals) && expr_supported(*e, globals),
        Stmt::Expr(e) => expr_supported(*e, globals),
        Stmt::For(f) => (match f.init {
            Some(i) => stmt_supported(*i, globals),
            None => true,
        }) && opt_expr_supported(f.condition, globals) && opt_expr_supported(f.increment, globals) && stmt_supported(*f.body, globals),
        Stmt::If(c, t, e) => expr_supported(*c, globals) && stmt_supported(*t, globals) && (match e {
            Some(e) => stmt_supported(*e, globals),
            None => true,
        }),
        Stmt::Labled(_, b) => stmt_supported(*b, globals),
        Stmt::Return(e) => expr_supported(*e, globals),
        Stmt::Switch(sw) => expr_supported(*sw.expr, globals) && stmt_supported(*sw.body, globals),
        Stmt::While(e, b) => expr_supported(*e, globals) && stmt_supported(*b, globals),
        _ => true,
    }
}

/// Every function body of a program is supported.
pub open spec fn program_supported(p: Program, globals: bool) -> bool {
    forall|i: int| 0 <= i < p.functions@.len() ==> forall|j: int|
        0 <= j < (#[trigger] p.functions@[i]).body@.len() ==> stmt_supported(#[trigger] p.functions@[i].body@[j], globals)
}

/// The number of nodes of an expression (a call counts its callee only).
pub open spec fn expr_size(e: Expr) -> nat
    decreases e,
{
    1 + match e.expr {
        ExprTy::Ternary(a, b, c) => expr_size(*a) + expr_size(*b) + expr_size(*c),
        ExprTy::Assign(_, a, b) => expr_size(*a) + expr_size(*b),
        ExprTy::Binary(_, a, b) => expr_size(*a) + expr_size(*b),
        ExprTy::Unary(_, a) => expr_size(*a),
        ExprTy::DecInc(_, a) => expr_size(*a),
        ExprTy::Call(c) => expr_size(*c.operand),
        _ => 0,
    }
}

/// Whether an expression is supported.
pub fn check_expr_supported(e: &Expr, globals: bool) -> (r: bool)
    ensures
        r == expr_supported(*e, globals),
    decreases e,
{
    match &e.expr {
        ExprTy::Ternary(a, b, c) => check_expr_supported(a, globals) && check_expr_supported(b, globals) && check_expr_supported(c, globals),
        ExprTy::Assign(_, a, b) => check_expr_supported(a, globals) && check_expr_supported(b, globals),
        ExprTy::Binary(_, a, b) => check_expr_supported(a, globals) && check_expr_supported(b, globals),
        ExprTy::Unary(_, a) => check_expr_supported(a, globals),
        ExprTy::DecInc(op, a) => (*op == UnaryOp::Increment || *op == UnaryOp::Decrement) && check_expr_supported(a, globals),
        ExprTy::GlobalLoad(_) => globals,
        ExprTy::Local(_) => true,
        ExprTy::Constant(_) => true,
        _ => false,
    }
}

fn check_opt_expr_supported(e: &Option<Box<Expr>>, globals: bool) -> (r: bool)
    ensures
        r == opt_expr_supported(*e, globals),
{
    match e {
        Some(e) => check_expr_supported(e, globals),
        None => true,
    }
}

/// Whether every statement of a list is supported.
fn check_stmts_supported(v: &Vec<Stmt>, globals: bool) -> (r: bool)
    ensures
        r == forall|i: int| 0 <= i < v@.len() ==> stmt_supported(#[trigger] v@[i], globals),
    decreases v, 0int,
{
    let mut i: usize = 0;
    while i < v.len()
        invariant
            i <= v@.len(),
            forall|k: int| 0 <= k < i ==> stmt_supported(#[trigger] v@[k], globals),
        decreases v@.len() - i,
    {
        proof {
            vstd::std_specs::vec::axiom_vec_index_decreases(*v, i as int);
        }
        if !check_stmt_supported(&v[i], globals) {
            return false;
        }
        i += 1;
    }
    true
}

/// Whether every expression in a statement is supported.
pub fn check_stmt_supported(s: &Stmt, globals: bool) -> (r: bool)
    ensures
        r == stmt_supported(*s, globals),
    decreases s, 1int,
{
    match s {
        Stmt::Block(v) => check_stmts_supported(v, globals),
        Stmt::Decl(e) => check_opt_expr_supported(e, globals),
        Stmt::Do(b, e) => check_stmt_supported(b, globals) && check_expr_supported(e, globals),
        Stmt::Expr(e) => check_expr_supported(e, globals),
        Stmt::For(f) => {
            let init_ok = match &f.init {
                Some(i) => check_stmt_supported(i, globals),
                None => true,
            };
            init_ok && check_opt_expr_supported(&f.condition, globals) && check_opt_expr_supported(&f.increment, globals)
                && check_stmt_supported(&f.body, globals)
        },
        Stmt::If(c, t, e) => {
            let else_ok = match e {
                Some(e) => check_stmt_supported(e, globals),
                None => true,
            };
            check_expr_supported(c, globals) && check_stmt_supported(t, globals) && else_ok
        },
        Stmt::Labled(_, b) => check_stmt_supported(b, globals),
        Stmt::Return(e) => check_expr_supported(e, globals),
        Stmt::Switch(sw) => check_expr_supported(&sw.expr, globals) && check_stmt_supported(&sw.body, globals),
        Stmt::While(e, b) => check_expr_supported(e, globals) && check_stmt_supported(b, globals),
        _ => true,
    }
}

/// Whether every function body of a program is supported.
pub fn check_program_supported(p: &Program, globals: bool) -> (r: bool)
    ensures
        r == program_supported(*p, globals),
{
    let mut i: usize = 0;
    while i < p.functions.len()
        invariant
            i <= p.functions@.len(),
            forall|k: int| 0 <= k < i ==> forall|j: int|
                0 <= j < (#[trigger] p.functions@[k]).body@.len() ==> stmt_supported(#[trigger] p.functions@[k].body@[j], globals),
        decreases p.functions@.len() - i,
    {
        let body = &p.functions[i].body;
        let mut j: usize = 0;
        while j < body.len()
            invariant
                i < p.functions@.len(),
                body@ == p.functions@[i as int].body@,
                j <= body@.len(),
                forall|m: int| 0 <= m < j ==> stmt_supported(#[trigger] body@[m], globals),
            decreases body@.len() - j,
        {
            if !check_stmt_supported(&body[j], globals) {
                proof {
                    assert(!stmt_supported(p.functions@[i as int].body@[j as int], globals));
                }
                return false;
            }
            j += 1;
        }
        proof {
            assert forall|j2: int| 0 <= j2 < p.functions@[i as int].body@.len() implies stmt_supported(#[trigger] p.functions@[i as int].body@[j2], globals) by {
                assert(body@[j2] == p.functions@[i as int].body@[j2]);
            }
        }
        i += 1;
    }
    true
}

/// The position of the first entry named `name`, if any.
pub open spec fn symbol_pos(s: Seq<(Interned, SymbolData)>, name: Interned) -> Option<int>
    decreases s.len(),
{
    if s.len() == 0 {
        None
    } else {
        match symbol_pos(s.drop_last(), name) {
            Some(i) => Some(i),
            None => if s.last().0.index() == name.index() {
                Some(s.len() - 1)
            } else {
                None
            },
        }
    }
}

pub proof fn lemma_symbol_pos(s: Seq<(Interned, SymbolData)>, name: Interned)
    ensures
        match symbol_pos(s, name) {
            Some(i) => 0 <= i < s.len() && s[i].0.index() == name.index()
                && forall|j: int| 0 <= j < i ==> s[j].0.index() != name.index(),
            None => forall|j: int| 0 <= j < s.len() ==> s[j].0.index() != name.index(),
        },
    decreases s.len(),
{
    if s.len() > 0 {
        let t = s.drop_last();
        lemma_symbol_pos(t, name);
        assert forall|j: int| 0 <= j < t.len() implies t[j] == s[j] by {}
    }
}

/// Every name of `s` is defined.
pub open spec fn all_defined(s: Seq<(Interned, SymbolData)>) -> bool {
    forall|j: int| 0 <= j < s.len() ==> (#[trigger] s[j]).1.specifier_flags.defined
}

/// Names that are all defined leave no tentative definition.
pub proof fn lemma_no_tentatives(s: Seq<(Interned, SymbolData)>)
    requires
        all_defined(s),
    ensures
        tentatives(s).len() == 0,
    decreases s.len(),
{
    if s.len() > 0 {
        let t = s.drop_last();
        assert forall|j: int| 0 <= j < t.len() implies (#[trigger] t[j]).1.specifier_flags.defined by {
            assert(t[j] == s[j]);
        }
        lemma_no_tentatives(t);
        assert(s[s.len() - 1].1.specifier_flags.defined);
    }
}

/// Where a name stands depends on the names alone.
pub proof fn lemma_symbol_pos_keys(s: Seq<(Interned, SymbolData)>, t: Seq<(Interned, SymbolData)>, name: Interned)
    requires
        s.len() == t.len(),
        forall|j: int| 0 <= j < s.len() ==> #[trigger] s[j].0 == t[j].0,
    ensures
        symbol_pos(s, name) == symbol_pos(t, name),
    decreases s.len(),
{
    if s.len() > 0 {
        let a = s.drop_last();
        let b = t.drop_last();
        assert forall|j: int| 0 <= j < a.len() implies #[trigger] a[j].0 == b[j].0 by {
            assert(a[j] == s[j] && b[j] == t[j]);
        }
        lemma_symbol_pos_keys(a, b, name);
        assert(s.last().0 == t.last().0);
    }
}

/// What is known of a name after declaring it with `flags` and type `ty`:
/// what was known before, or else the declaration itself.
pub open spec fn decl_data(known: Option<SymbolData>, flags: SpecifierFlags, ty: Handle) -> SymbolData {
    match known {
        Some(d) => d,
        None => SymbolData { specifier_flags: flags, ty },
    }
}

/// What declaring a name with `flags` and type `ty` gives, when the name is
/// already known as `known` (or not at all): a type different from the
/// earlier one, both `extern` and `static`, or a linkage that differs from
/// the earlier one are errors; otherwise the linkage.
pub open spec fn decl_result(known: Option<SymbolData>, flags: SpecifierFlags, ty: Handle) -> Result<Linkage, SemanticError> {
    let sym = match known {
        Some(d) => d,
        None => SymbolData { specifier_flags: flags, ty },
    };
    if sym.ty != ty {
        Err(SemanticError::TypeMismatch)
    } else if flags.is_extern && flags.is_static {
        Err(SemanticError::TooManyStorageClasses)
    } else if sym.specifier_flags.is_static {
        if flags.is_extern {
            Err(SemanticError::DeclWithDifLinkage)
        } else {
            Ok(Linkage::Internal)
        }
    } else if flags.is_static {
        Err(SemanticError::DeclWithDifLinkage)
    } else {
        Ok(Linkage::Global)
    }
}

/// The file-scope names of a unit, with the functions and variables defined
/// so far.
pub struct SymbolTable<'src> {
    symbols: Vec<(Interned<'src>, SymbolData)>,
    functions: Vec<Function<'src>>,
    globals: Vec<GlobalVar<'src>>,
}

/// One tentative definition, with internal linkage and no value, for each
/// name of `s` never defined nor declared `extern`, in order.
pub open spec fn tentatives<'src>(s: Seq<(Interned<'src>, SymbolData)>) -> Seq<GlobalVar<'src>>
    decreases s.len(),
{
    if s.len() == 0 {
        Seq::empty()
    } else {
        let t = tentatives(s.drop_last());
        let d = s.last().1;
        if !d.specifier_flags.is_extern && !d.specifier_flags.defined {
            t.push(GlobalVar { linkage: Linkage::Internal, name: s.last().0, generation: None, def: None })
        } else {
            t
        }
    }
}

impl<'src> SymbolTable<'src> {
    /// The names declared so far, in order of first declaration.
    pub closed spec fn symbols(&self) -> Seq<(Interned<'src>, SymbolData)> {
        self.symbols@
    }

    /// The functions defined so far.
    pub closed spec fn functions(&self) -> Seq<Function<'src>> {
        self.functions@
    }

    /// The variables defined so far.
    pub closed spec fn globals(&self) -> Seq<GlobalVar<'src>> {
        self.globals@
    }

    /// What is known of `name`.
    pub open spec fn known(&self, name: Interned<'src>) -> Option<SymbolData> {
        match symbol_pos(self.symbols(), name) {
            Some(i) => Some(self.symbols()[i].1),
            None => None,
        }
    }

    /// Every name of `old` is still here, at the same place.
    pub open spec fn keys_kept_from(&self, old: Self) -> bool {
        &&& old.symbols().len() <= self.symbols().len()
        &&& forall|i: int| 0 <= i < old.symbols().len() ==> #[trigger] self.symbols()[i].0 == old.symbols()[i].0
    }

    /// A name known before is still known.
    pub proof fn lemma_known_kept(&self, old: Self, name: Interned<'src>)
        requires
            self.keys_kept_from(old),
            old.known(name) is Some,
        ensures
            self.known(name) is Some,
    {
        lemma_symbol_pos(old.symbols(), name);
        lemma_symbol_pos(self.symbols(), name);
        let i = symbol_pos(old.symbols(), name).unwrap();
        assert(self.symbols()[i].0 == old.symbols()[i].0);
    }

    pub fn new() -> (r: Self)
        ensures
            r.symbols().len() == 0,
            r.functions().len() == 0,
            r.globals().len() == 0,
    {
        SymbolTable { symbols: Vec::new(), functions: Vec::new(), globals: Vec::new() }
    }

    /// Where `name` is in the table.
    fn find(&self, name: Interned<'src>) -> (r: Option<usize>)
        ensures
            match r {
                Some(i) => i < self.symbols().len() && symbol_pos(self.symbols(), name) == Some(i as int),
                None => symbol_pos(self.symbols(), name) is None,
            },
    {
        proof {
            lemma_symbol_pos(self.symbols(), name);
        }
        let mut i: usize = 0;
        while i < self.symbols.len()
            invariant
                i <= self.symbols@.len(),
                forall|j: int| 0 <= j < i ==> self.symbols@[j].0.index() != name.index(),
            decreases self.symbols@.len() - i,
        {
            if self.symbols[i].0 == name {
                proof {
                    lemma_symbol_pos(self.symbols(), name);
                    match symbol_pos(self.symbols(), name) {
                        Some(k) => {
                            if k < i {
                                assert(self.symbols@[k].0.index() != name.index());
                            }
                            if k > i {
                                assert(self.symbols@[i as int].0.index() != name.index());
                            }
                        },
                        None => {
                            assert(self.symbols@[i as int].0.index() != name.index());
                        },
                    }
                }
                return Some(i);
            }
            i += 1;
        }
        None
    }

    /// The functions defined, and the variables: those defined, then one
    /// tentative definition for each name never defined nor declared
    /// `extern`.
    pub fn into_parts(self) -> (r: (Vec<Function<'src>>, Vec<GlobalVar<'src>>))
        ensures
            r.0@ == self.functions(),
            r.1@ == self.globals() + tentatives(self.symbols()),
            r.1@.len() >= self.globals().len(),
            r.1@.take(self.globals().len() as int) == self.globals(),
            forall|i: int| self.globals().len() <= i < r.1@.len() ==> {
                let g = #[trigger] r.1@[i];
                &&& g.linkage == Linkage::Internal
                &&& g.generation is None
                &&& g.def is None
                &&& exists|j: int| 0 <= j < self.symbols().len() && self.symbols()[j].0 == g.name
                    && !self.symbols()[j].1.specifier_flags.is_extern && !self.symbols()[j].1.specifier_flags.defined
            },
    {
        let SymbolTable { symbols, functions, mut globals } = self;
        let ghost g0 = globals@;
        let mut i: usize = 0;
        while i < symbols.len()
            invariant
                i <= symbols@.len(),
                symbols@ == self.symbols(),
                g0 == self.globals(),
                globals@ == g0 + tentatives(symbols@.take(i as int)),
                globals@.len() >= g0.len(),
                globals@.take(g0.len() as int) == g0,
                forall|k: int| g0.len() <= k < globals@.len() ==> {
                    let g = #[trigger] globals@[k];
                    &&& g.linkage == Linkage::Internal
                    &&& g.generation is None
                    &&& g.def is None
                    &&& exists|j: int| 0 <= j < symbols@.len() && symbols@[j].0 == g.name
                        && !symbols@[j].1.specifier_flags.is_extern && !symbols@[j].1.specifier_flags.defined
                },
            decreases symbols@.len() - i,
        {
            let (name, data) = symbols[i];
            proof {
                assert(symbols@.take(i + 1).drop_last() =~= symbols@.take(i as int));
                assert(symbols@.take(i + 1).last() == symbols@[i as int]);
            }
            if !data.specifier_flags.extern_or_defined() {
                let ghost before = globals@;
                globals.push(GlobalVar { linkage: Linkage::Internal, name, generation: None, def: None });
                proof {
                    assert(globals@.take(g0.len() as int) =~= before.take(g0.len() as int));
                    assert(symbols@[i as int].0 == name);
                    assert forall|k: int| g0.len() <= k < globals@.len() implies {
                        let g = #[trigger] globals@[k];
                        &&& g.linkage == Linkage::Internal
                        &&& g.generation is None
                        &&& g.def is None
                        &&& exists|j: int| 0 <= j < symbols@.len() && symbols@[j].0 == g.name
                            && !symbols@[j].1.specifier_flags.is_extern && !symbols@[j].1.specifier_flags.defined
                    } by {
                        if k < before.len() {
                            assert(globals@[k] == before[k]);
                        }
                    }
                }
            }
            i += 1;
        }
        proof {
            assert(symbols@.take(i as int) =~= symbols@);
        }
        (functions, globals)
    }

    /// Declares `name`: a name seen for the first time is recorded with
    /// `flags` and `ty`; the result is `decl_result` of what was known.
    pub fn decl(&mut self, name: Interned<'src>, specifier_flags: SpecifierFlags, ty: Handle) -> (r: Result<Linkage, SemanticError>)
        ensures
            final(self).keys_kept_from(*old(self)),
            r == decl_result(old(self).known(name), specifier_flags, ty),
            old(self).known(name) is Some ==> final(self).symbols() == old(self).symbols(),
            old(self).known(name) is None ==> final(self).symbols() == old(self).symbols().push(
                (name, SymbolData { specifier_flags, ty }),
            ),
            final(self).known(name) == Some(decl_data(old(self).known(name), specifier_flags, ty)),
            forall|n: Interned<'src>| n.index() != name.index() ==> #[trigger] final(self).known(n) == old(self).known(n),
            final(self).functions() == old(self).functions(),
            final(self).globals() == old(self).globals(),
    {
        let sym = match self.find(name) {
            Some(i) => self.symbols[i].1,
            None => {
                let d = SymbolData { specifier_flags, ty };
                self.symbols.push((name, d));
                proof {
                    lemma_symbol_pos(old(self).symbols(), name);
                    assert(self.symbols@.drop_last() =~= old(self).symbols());
                    assert forall|n: Interned<'src>| n.index() != name.index() implies #[trigger] self.known(n) == old(self).known(n) by {
                        assert(self.symbols@.drop_last() =~= old(self).symbols());
                        assert(self.symbols().drop_last() == old(self).symbols());
                        lemma_symbol_pos(old(self).symbols(), n);
                        match symbol_pos(old(self).symbols(), n) {
                            Some(i) => {
                                assert(symbol_pos(self.symbols(), n) == Some(i));
                                assert(self.symbols()[i] == old(self).symbols()[i]);
                            },
                            None => {
                                assert(self.symbols().last().0.index() == name.index());
                                assert(symbol_pos(self.symbols(), n) is None);
                            },
                        }
                    }
                }
                d
            },
        };
        proof {
            lemma_symbol_pos(self.symbols(), name);
        }
        if sym.ty != ty {
            return Err(SemanticError::TypeMismatch);
        }
        if specifier_flags.has_extern_and_static() {
            return Err(SemanticError::TooManyStorageClasses);
        }
        if sym.specifier_flags.is_static {
            if specifier_flags.is_extern {
                Err(SemanticError::DeclWithDifLinkage)
            } else {
                Ok(Linkage::Internal)
            }
        } else if specifier_flags.is_static {
            Err(SemanticError::DeclWithDifLinkage)
        } else {
            Ok(Linkage::Global)
        }
    }

    /// Records a static local variable, numbered by `generation`.
    pub fn decl_local_static(&mut self, name: Interned<'src>, generation: u32, def: Option<i32>)
        ensures
            final(self).keys_kept_from(*old(self)),
            final(self).symbols() == old(self).symbols(),
            final(self).functions() == old(self).functions(),
            final(self).globals() == old(self).globals().push(
                GlobalVar { linkage: Linkage::Internal, name, generation: Some(generation), def },
            ),
    {
        self.globals.push(GlobalVar { linkage: Linkage::Internal, name, generation: Some(generation), def });
    }

    /// Marks the name defined, first setting the `defined` flag.
    fn mark_defined(&mut self, name: Interned<'src>) -> (r: bool)
        requires
            old(self).known(name) is Some,
        ensures
            final(self).keys_kept_from(*old(self)),
            r == old(self).known(name).unwrap().specifier_flags.defined,
            final(self).known(name) is Some,
            final(self).known(name).unwrap().specifier_flags.defined,
            final(self).symbols().len() == old(self).symbols().len(),
            forall|n: Interned<'src>| #[trigger] old(self).known(n) is None ==> final(self).known(n) is None,
            forall|j: int| 0 <= j < old(self).symbols().len() ==> (#[trigger] final(self).symbols()[j]).0 == old(self).symbols()[j].0
                && (old(self).symbols()[j].1.specifier_flags.defined ==> final(self).symbols()[j].1.specifier_flags.defined),
            final(self).functions() == old(self).functions(),
            final(self).globals() == old(self).globals(),
    {
        proof {
            lemma_symbol_pos(self.symbols(), name);
        }
        match self.find(name) {
            Some(i) => {
                let (n, mut d) = self.symbols[i];
                if d.specifier_flags.defined {
                    true
                } else {
                    d.specifier_flags.defined = true;
                    self.symbols.set(i, (n, d));
                    proof {
                        lemma_symbol_pos(self.symbols(), name);
                        lemma_symbol_pos(old(self).symbols(), name);
                        assert forall|j: int| 0 <= j < i implies self.symbols@[j].0.index() != name.index() by {
                            assert(self.symbols@[j] == old(self).symbols@[j]);
                        }
                        assert forall|n2: Interned<'src>| #[trigger] old(self).known(n2) is None implies self.known(n2) is None by {
                            assert forall|j: int| 0 <= j < self.symbols@.len() implies #[trigger] self.symbols@[j].0 == old(self).symbols@[j].0 by {
                                if j != i {
                                    assert(self.symbols@[j] == old(self).symbols@[j]);
                                }
                            }
                            lemma_symbol_pos_keys(self.symbols(), old(self).symbols(), n2);
                        }
                        match symbol_pos(self.symbols(), name) {
                            Some(k) => {
                                if k != i {
                                    if k < i {
                                        assert(self.symbols@[k].0.index() != name.index());
                                    } else {
                                        assert(self.symbols@[i as int].0.index() == name.index());
                                    }
                                }
                            },
                            None => {
                                assert(self.symbols@[i as int].0.index() == name.index());
                            },
                        }
                    }
                    false
                }
            },
            None => false,
        }
    }

    /// Defines a function declared before: defining it twice is an error.
    pub fn define_fun(&mut self, fun: Function<'src>) -> (r: Result<(), SemanticError>)
        requires
            old(self).known(fun.name) is Some,
        ensures
            final(self).keys_kept_from(*old(self)),
            r is Err <==> old(self).known(fun.name).unwrap().specifier_flags.defined,
            r is Err ==> r == Err::<(), SemanticError>(SemanticError::DuplicateDef) && final(self).functions() == old(self).functions(),
            r is Ok ==> final(self).functions() == old(self).functions().push(fun),
            final(self).known(fun.name).unwrap().specifier_flags.defined,
            forall|n: Interned<'src>| #[trigger] old(self).known(n) is None ==> final(self).known(n) is None,
            forall|j: int| 0 <= j < old(self).symbols().len() ==> (#[trigger] final(self).symbols()[j]).0 == old(self).symbols()[j].0
                && (old(self).symbols()[j].1.specifier_flags.defined ==> final(self).symbols()[j].1.specifier_flags.defined),
            final(self).symbols().len() == old(self).symbols().len(),
            final(self).globals() == old(self).globals(),
    {
        if self.mark_defined(fun.name) {
            Err(SemanticError::DuplicateDef)
        } else {
            self.functions.push(fun);
            Ok(())
        }
    }

    /// Defines a variable declared before: defining it twice is an error.
    pub fn define_global(&mut self, global: GlobalVar<'src>) -> (r: Result<(), SemanticError>)
        requires
            old(self).known(global.name) is Some,
        ensures
            final(self).keys_kept_from(*old(self)),
            r is Err <==> old(self).known(global.name).unwrap().specifier_flags.defined,
            r is Err ==> r == Err::<(), SemanticError>(SemanticError::DuplicateDef) && final(self).globals() == old(self).globals(),
            r is Ok ==> final(self).globals() == old(self).globals().push(global),
            forall|n: Interned<'src>| #[trigger] old(self).known(n) is None ==> final(self).known(n) is None,
            final(self).known(global.name) is Some,
            final(self).known(global.name).unwrap().specifier_flags.defined,
            final(self).functions() == old(self).functions(),
    {
        if self.mark_defined(global.name) {
            Err(SemanticError::DuplicateDef)
        } else {
            self.globals.push(global);
            Ok(())
        }
    }
}

} // verus!
