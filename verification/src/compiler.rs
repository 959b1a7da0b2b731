//! The compiler passes, from source text to x86-64 assembly text, and the
//! pipeline that runs them on one translation unit.
pub mod x86;
pub mod ast;
pub mod error;
pub mod grammar;
pub mod lexer;
pub mod machine;
pub mod parser;
pub mod tacky;
pub mod token;
pub mod ty;
pub mod tychk;

use vstd::prelude::*;

use crate::compiler::ast::convert::{
    initial_state, lower_expr, lower_function, lower_functions, lower_stmt, lower_stmts, program_start, with_break, with_continue,
    with_label, Converter, LowerState,
};
use crate::compiler::ast::typed;
use crate::compiler::ast::typed::check_program_supported;
use crate::compiler::error::{cached_ok, compile_error_wf, lines_ok, sorted_errors, CompileError, Context, ErrorWithCtx, SemanticError};
use crate::compiler::parser::Parser;
use crate::compiler::x86::Label;
use crate::compiler::tacky::{inst_plain, AsmConverter};
use crate::compiler::ast::pretty::{program_printable, program_text};
use crate::compiler::grammar::{pprogram, Names};
use crate::compiler::parser::names_of;
use crate::compiler::tychk::{
    program_plain, unit_res, unit_walk,
    clean_def, clean_errors, const_only, const_only_seq, fn_matches, lemma_clean_defs, lemma_const_only_prefix, program_clean,
    program_defs, stmt_shape,
};
use crate::compiler::ty::{built_in_names, built_in_scope, built_in_types, new_ty_interner, Ty};
use crate::arena::Handle;
use crate::compiler::tychk::TyChecker;
use crate::intern::Interner;

verus! {

/// The error for a program that uses what the back end cannot lower yet:
/// the semantic errors of `src_path` with one entry, an unsupported
/// construct placed at the start of the text.
fn unsupported(src: &str, src_path: String) -> (r: CompileError)
    requires
        src@.len() < usize::MAX,
    ensures
        compile_error_wf(r),
        match r {
            CompileError::SemanticErrors { src_path: p, err_cache } => {
                &&& p@ == src_path@
                &&& lines_ok(src@, err_cache.text(), err_cache.line_infos())
                &&& err_cache.entries().len() == 1
                &&& cached_ok(src@, err_cache.line_infos(), err_cache.entries()[0],
                    ErrorWithCtx { ctx: Context { start: 0, end: 0 }, err: SemanticError::UnsupportedConstruct })
            },
            _ => false,
        },
{
    let mut errors = Vec::new();
    let e = ErrorWithCtx { ctx: Context::dummy(), err: SemanticError::UnsupportedConstruct };
    errors.push(e);
    proof {
        assert(errors@ =~= seq![e]);
        reveal_with_fuel(sorted_errors, 2);
        assert(sorted_errors(errors@.drop_last()) =~= Seq::<ErrorWithCtx<SemanticError>>::empty());
        assert(sorted_errors(errors@) =~= seq![e]);
    }
    CompileError::from_semantic_errors(src, src_path, errors)
}

/// What the pipeline owes a source all of whose parses are
/// [`program_plain`] units, given its result `r`: success only when the
/// checker, over some type table `tys` with poisoned type `p`, finds no
/// error in a parse; semantic errors that are the checker's, sorted, or
/// the one unsupported-construct error when it found none; nothing else
/// but syntax errors.
pub open spec fn plain_outcome<'src, T>(src: Seq<char>, r: Result<T, CompileError>) -> bool {
    match r {
        Ok(_) => exists|items: Seq<ast::Declaration<'src>>, tys: Seq<Ty<'src>>, p: Handle|
            #![trigger pprogram(src, built_in_scope(), items), unit_walk(items, tys, p)]
            pprogram(src, built_in_scope(), items) && unit_walk(items, tys, p).0.len() == 0,
        Err(CompileError::SemanticErrors { err_cache, .. }) => exists|items: Seq<ast::Declaration<'src>>, tys: Seq<Ty<'src>>, p: Handle|
            #![trigger pprogram(src, built_in_scope(), items), unit_walk(items, tys, p)]
            {
                let errs = unit_walk(items, tys, p).0;
                &&& pprogram(src, built_in_scope(), items)
                &&& {
                    ||| errs.len() > 0 && err_cache.entries().len() == errs.len() && forall|i: int| 0 <= i < errs.len()
                        ==> cached_ok(src, err_cache.line_infos(), #[trigger] err_cache.entries()[i], sorted_errors(errs)[i])
                    ||| errs.len() == 0 && err_cache.entries().len() == 1 && cached_ok(src, err_cache.line_infos(), err_cache.entries()[0],
                        ErrorWithCtx { ctx: Context { start: 0, end: 0 }, err: SemanticError::UnsupportedConstruct })
                }
            },
        Err(e) => e is SyntaxErrors,
    }
}

/// `c` is a checked program that keeps the shape of the definitions of
/// `items`, with no local variable in any function and no label given out:
/// what the checker gives for a [`program_clean`] unit.
pub open spec fn checked_from<'src>(items: Seq<ast::Declaration<'src>>, c: typed::Program<'src>) -> bool {
    &&& c.labels == 0
    &&& c.functions@.len() == program_defs(items).len()
    &&& forall|i: int| 0 <= i < c.functions@.len() ==> fn_matches(program_defs(items)[i], #[trigger] c.functions@[i])
        && c.functions@[i].local_count == 0
}

/// The three-address code `t` is the lowering of every checked program
/// that [`checked_from`] ties to `items`.
pub open spec fn lowers_parse<'src>(items: Seq<ast::Declaration<'src>>, t: tacky::Program<'src>) -> bool {
    forall|c: typed::Program<'src>| #[trigger] checked_from(items, c) ==> {
        &&& t.functions@.len() == c.functions@.len()
        &&& forall|i: int| 0 <= i < t.functions@.len() ==> (#[trigger] t.functions@[i]).insts@ == lower_functions(
            c.functions@,
            program_start(initial_state(), c.labels),
        ).0[i]
    }
}

/// Two checked forms of one [`const_only`] statement lower alike: its
/// shape fixes every instruction.
proof fn lemma_lower_by_shape<'src>(s: ast::Stmt<'src>, t1: typed::Stmt<'src>, t2: typed::Stmt<'src>)
    requires
        const_only(s),
        stmt_shape(s, t1),
        stmt_shape(s, t2),
    ensures
        forall|st: LowerState| #[trigger] lower_stmt(t1, st) == lower_stmt(t2, st),
    decreases s,
{
    match s {
        ast::Stmt::Block(v) => {
            if let (typed::Stmt::Block(w1), typed::Stmt::Block(w2)) = (t1, t2) {
                assert forall|i: int| 0 <= i < v@.len() implies const_only(#[trigger] v@[i]) by {
                    lemma_const_only_prefix(v@, i);
                }
                lemma_lower_seq_by_shape(v@, w1@, w2@);
                assert forall|st: LowerState| #[trigger] lower_stmt(t1, st) == lower_stmt(t2, st) by {
                    assert(lower_stmts(w1@, st) == lower_stmts(w2@, st));
                }
            }
        },
        ast::Stmt::Do(b, _) => {
            if let (typed::Stmt::Do(b1, c1), typed::Stmt::Do(b2, c2)) = (t1, t2) {
                lemma_lower_by_shape(*b, *b1, *b2);
                assert(c1.expr == c2.expr);
                assert forall|st: LowerState| #[trigger] lower_stmt(t1, st) == lower_stmt(t2, st) by {
                    let s2 = with_continue(with_break(st));
                    assert(lower_stmt(*b1, with_label(s2)) == lower_stmt(*b2, with_label(s2)));
                    let s3 = lower_stmt(*b1, with_label(s2)).1;
                    assert(lower_expr(*c1, s3) == lower_expr(*c2, s3));
                }
            }
        },
        ast::Stmt::While(_, b) => {
            if let (typed::Stmt::While(c1, b1), typed::Stmt::While(c2, b2)) = (t1, t2) {
                lemma_lower_by_shape(*b, *b1, *b2);
                assert(c1.expr == c2.expr);
                assert forall|st: LowerState| #[trigger] lower_stmt(t1, st) == lower_stmt(t2, st) by {
                    let s1 = LowerState {
                        temps: st.temps,
                        labels: st.labels.wrapping_add(1).wrapping_add(1),
                        locals: st.locals,
                        brk: Label(st.labels),
                        cont: Label(st.labels.wrapping_add(1)),
                    };
                    assert(lower_expr(*c1, s1) == lower_expr(*c2, s1));
                    let s2 = lower_expr(*c1, s1).2;
                    assert(lower_stmt(*b1, s2) == lower_stmt(*b2, s2));
                }
            }
        },
        ast::Stmt::For(f) => {
            if let (typed::Stmt::For(f1), typed::Stmt::For(f2)) = (t1, t2) {
                match (f.init, f1.init, f2.init) {
                    (Some(i), Some(i1), Some(i2)) => lemma_lower_by_shape(*i, *i1, *i2),
                    _ => {},
                }
                lemma_lower_by_shape(*f.body, *f1.body, *f2.body);
                assert forall|st: LowerState| #[trigger] lower_stmt(t1, st) == lower_stmt(t2, st) by {
                    let s2 = with_continue(with_break(st));
                    match (f1.init, f2.init) {
                        (Some(i1), Some(i2)) => assert(lower_stmt(*i1, s2) == lower_stmt(*i2, s2)),
                        _ => {},
                    }
                    let s3 = match f1.init {
                        Some(i) => lower_stmt(*i, s2).1,
                        None => s2,
                    };
                    match (f1.condition, f2.condition) {
                        (Some(a), Some(b)) => {
                            assert(a.expr == b.expr);
                            assert(lower_expr(*a, with_label(s3)) == lower_expr(*b, with_label(s3)));
                        },
                        _ => {},
                    }
                    let s4 = match f1.condition {
                        Some(c) => lower_expr(*c, with_label(s3)).2,
                        None => with_label(s3),
                    };
                    assert(lower_stmt(*f1.body, s4) == lower_stmt(*f2.body, s4));
                    let s5 = lower_stmt(*f1.body, s4).1;
                    match (f1.increment, f2.increment) {
                        (Some(a), Some(b)) => {
                            assert(a.expr == b.expr);
                            assert(lower_expr(*a, s5) == lower_expr(*b, s5));
                        },
                        _ => {},
                    }
                }
            }
        },
        ast::Stmt::If(_, a, e) => {
            if let (typed::Stmt::If(c1, a1, e1), typed::Stmt::If(c2, a2, e2)) = (t1, t2) {
                lemma_lower_by_shape(*a, *a1, *a2);
                match (e, e1, e2) {
                    (Some(x), Some(x1), Some(x2)) => lemma_lower_by_shape(*x, *x1, *x2),
                    _ => {},
                }
                assert(c1.expr == c2.expr);
                assert forall|st: LowerState| #[trigger] lower_stmt(t1, st) == lower_stmt(t2, st) by {
                    assert(lower_expr(*c1, st) == lower_expr(*c2, st));
                    let s1 = lower_expr(*c1, st).2;
                    assert(lower_stmt(*a1, with_label(s1)) == lower_stmt(*a2, with_label(s1)));
                    let s2 = lower_stmt(*a1, with_label(s1)).1;
                    match (e1, e2) {
                        (Some(x1), Some(x2)) => assert(lower_stmt(*x1, with_label(s2)) == lower_stmt(*x2, with_label(s2))),
                        _ => {},
                    }
                }
            }
        },
        ast::Stmt::Expr(_) => {
            if let (typed::Stmt::Expr(x1), typed::Stmt::Expr(x2)) = (t1, t2) {
                assert(x1.expr == x2.expr);
                assert forall|st: LowerState| #[trigger] lower_stmt(t1, st) == lower_stmt(t2, st) by {
                    assert(lower_expr(*x1, st) == lower_expr(*x2, st));
                }
            }
        },
        ast::Stmt::Return(_) => {
            if let (typed::Stmt::Return(x1), typed::Stmt::Return(x2)) = (t1, t2) {
                assert(x1.expr == x2.expr);
                assert forall|st: LowerState| #[trigger] lower_stmt(t1, st) == lower_stmt(t2, st) by {
                    assert(lower_expr(*x1, st) == lower_expr(*x2, st));
                }
            }
        },
        _ => {},
    }
}

/// Two checked forms of [`const_only`] statements lower alike.
proof fn lemma_lower_seq_by_shape<'src>(v: Seq<ast::Stmt<'src>>, w1: Seq<typed::Stmt<'src>>, w2: Seq<typed::Stmt<'src>>)
    requires
        w1.len() == v.len(),
        w2.len() == v.len(),
        forall|i: int| 0 <= i < v.len() ==> const_only(#[trigger] v[i]),
        forall|i: int| 0 <= i < v.len() ==> stmt_shape(v[i], #[trigger] w1[i]) && stmt_shape(v[i], w2[i]),
    ensures
        forall|st: LowerState| #[trigger] lower_stmts(w1, st) == lower_stmts(w2, st),
    decreases v,
{
    if v.len() > 0 {
        assert(const_only(v[0]));
        assert(stmt_shape(v[0], w1[0]) && stmt_shape(v[0], w2[0]));
        lemma_lower_by_shape(v[0], w1[0], w2[0]);
        let rv = v.subrange(1, v.len() as int);
        let r1 = w1.subrange(1, w1.len() as int);
        let r2 = w2.subrange(1, w2.len() as int);
        assert forall|i: int| 0 <= i < rv.len() implies const_only(#[trigger] rv[i]) by {
            assert(rv[i] == v[i + 1]);
        }
        assert forall|i: int| 0 <= i < rv.len() implies stmt_shape(rv[i], #[trigger] r1[i]) && stmt_shape(rv[i], r2[i]) by {
            assert(rv[i] == v[i + 1] && r1[i] == w1[i + 1] && r2[i] == w2[i + 1]);
        }
        lemma_lower_seq_by_shape(rv, r1, r2);
        assert forall|st: LowerState| #[trigger] lower_stmts(w1, st) == lower_stmts(w2, st) by {
            assert(lower_stmt(w1[0], st) == lower_stmt(w2[0], st));
            let s1 = lower_stmt(w1[0], st).1;
            assert(lower_stmts(r1, s1) == lower_stmts(r2, s1));
        }
    } else {
        assert forall|st: LowerState| #[trigger] lower_stmts(w1, st) == lower_stmts(w2, st) by {}
    }
}

/// For a unit of [`clean_def`] definitions, every checked program that keeps
/// the shape of its definitions, with no local variable and no label, lowers
/// to the same three-address code: the code follows from the parse alone.
pub proof fn law_lowering_follows_the_parse<'src>(
    items: Seq<ast::Declaration<'src>>,
    c1: typed::Program<'src>,
    c2: typed::Program<'src>,
)
    requires
        program_clean(items),
        checked_from(items, c1),
        checked_from(items, c2),
    ensures
        lower_functions(c1.functions@, program_start(initial_state(), c1.labels)) == lower_functions(
            c2.functions@,
            program_start(initial_state(), c2.labels),
        ),
{
    lemma_clean_defs(items);
    let defs = program_defs(items);
    lemma_lower_fns_by_shape(defs, c1.functions@, c2.functions@);
}

/// Checked functions of [`clean_def`] definitions, with equal local counts,
/// lower alike.
proof fn lemma_lower_fns_by_shape<'src>(defs: Seq<ast::FunctionDecl<'src>>, f1: Seq<typed::Function<'src>>, f2: Seq<typed::Function<'src>>)
    requires
        f1.len() == defs.len(),
        f2.len() == defs.len(),
        forall|i: int| 0 <= i < defs.len() ==> clean_def(#[trigger] defs[i]),
        forall|i: int| 0 <= i < defs.len() ==> fn_matches(defs[i], #[trigger] f1[i]) && fn_matches(defs[i], f2[i])
            && f1[i].local_count == f2[i].local_count,
    ensures
        forall|st: LowerState| #[trigger] lower_functions(f1, st) == lower_functions(f2, st),
    decreases defs.len(),
{
    if defs.len() > 0 {
        let n = defs.len() - 1;
        let d0 = defs.drop_last();
        let g1 = f1.drop_last();
        let g2 = f2.drop_last();
        assert forall|i: int| 0 <= i < d0.len() implies clean_def(#[trigger] d0[i]) by {
            assert(d0[i] == defs[i]);
        }
        assert forall|i: int| 0 <= i < d0.len() implies fn_matches(d0[i], #[trigger] g1[i]) && fn_matches(d0[i], g2[i])
            && g1[i].local_count == g2[i].local_count by {
            assert(d0[i] == defs[i] && g1[i] == f1[i] && g2[i] == f2[i]);
        }
        lemma_lower_fns_by_shape(d0, g1, g2);
        let d = defs[n];
        assert(clean_def(d));
        assert(fn_matches(d, f1[n]) && fn_matches(d, f2[n]));
        let b = d.body.unwrap();
        assert forall|j: int| 0 <= j < b@.len() implies const_only(#[trigger] b@[j]) by {
            lemma_const_only_prefix(b@, j);
        }
        lemma_lower_seq_by_shape(b@, f1[n].body@, f2[n].body@);
        assert forall|st: LowerState| #[trigger] lower_functions(f1, st) == lower_functions(f2, st) by {
            let s1 = lower_functions(g1, st).1;
            assert(lower_functions(g1, st) == lower_functions(g2, st));
            assert(f1.last() == f1[n] && f2.last() == f2[n]);
            assert(lower_function(f1[n], s1) == lower_function(f2[n], s1)) by {
                assert(lower_stmts(f1[n].body@, crate::compiler::ast::convert::fn_start(f1[n], s1))
                    == lower_stmts(f2[n].body@, crate::compiler::ast::convert::fn_start(f2[n], s1)));
            }
        }
    } else {
        assert forall|st: LowerState| #[trigger] lower_functions(f1, st) == lower_functions(f2, st) by {}
    }
}

/// `t` is the three-address code of `src`: `src` parses, with the
/// built-in type names, into a program whose function definitions the
/// checked program holds in order, and the functions of `t` are the
/// checked functions lowered in order.
pub open spec fn lowered_from<'src>(src: Seq<char>, t: tacky::Program<'src>) -> bool {
    exists|parsed: ast::Program<'src>, names: Names, checked: typed::Program<'src>|
        #![trigger pprogram(src, names, parsed.items@), typed::program_supported(checked, true)]
        {
            &&& built_in_names(names)
            &&& pprogram(src, names, parsed.items@)
            &&& checked.functions@.len() == program_defs(parsed.items@).len()
            &&& forall|i: int| 0 <= i < checked.functions@.len()
                ==> fn_matches(program_defs(parsed.items@)[i], #[trigger] checked.functions@[i])
            &&& typed::program_supported(checked, true)
            &&& t.functions@.len() == checked.functions@.len()
            &&& forall|i: int| 0 <= i < t.functions@.len() ==> (#[trigger] t.functions@[i]).insts@
                == lower_functions(checked.functions@, program_start(initial_state(), checked.labels)).0[i]
        }
}

/// Parses, checks and lowers `src` to three-address code. Calls, function
/// names and static locals cannot be lowered yet and are reported as
/// unsupported.
pub fn generate_tacky<'src>(src: &'src str, src_path: String, id_interner: &mut Interner<'src>) -> (r: Result<
    tacky::Program<'src>,
    CompileError,
>)
    requires
        old(id_interner).wf(),
        src@.len() < usize::MAX,
    ensures
        match r {
            Ok(p) => {
                &&& forall|i: int| 0 <= i < p.functions@.len() ==> {
                    let f = #[trigger] p.functions@[i];
                    f.insts@.len() > 0 && f.insts@.last() == tacky::Inst::Ret(tacky::Val::Const(0))
                }
                &&& lowered_from(src@, p)
            },
            Err(e) => compile_error_wf(e),
        },
        (match r {
            Err(CompileError::SyntaxErrors { .. }) => true,
            _ => false,
        }) <==> !(exists|items: Seq<ast::Declaration<'src>>| pprogram(src@, built_in_scope(), items)),
        (forall|items: Seq<ast::Declaration<'src>>| #[trigger] pprogram(src@, built_in_scope(), items) ==> program_plain(items))
            ==> plain_outcome(src@, r),
        (forall|items: Seq<ast::Declaration<'src>>| #[trigger] pprogram(src@, built_in_scope(), items) ==> program_plain(items))
            ==> (r matches Ok(t) ==> exists|items: Seq<ast::Declaration<'src>>, tys: Seq<Ty<'src>>, p: Handle, c: typed::Program<'src>|
            #![trigger pprogram(src@, built_in_scope(), items), unit_res(items, c.functions@, tys, p)]
            {
                &&& pprogram(src@, built_in_scope(), items)
                &&& unit_res(items, c.functions@, tys, p)
                &&& t.functions@.len() == c.functions@.len()
                &&& forall|i: int| 0 <= i < t.functions@.len() ==> (#[trigger] t.functions@[i]).insts@ == lower_functions(
                    c.functions@,
                    program_start(initial_state(), c.labels),
                ).0[i]
            }),
        (forall|items: Seq<ast::Declaration<'src>>| #[trigger] pprogram(src@, built_in_scope(), items) ==> program_clean(items))
            ==> match r {
            Ok(p) => {
                &&& exists|items: Seq<ast::Declaration<'src>>| #[trigger] pprogram(src@, built_in_scope(), items) && clean_errors(items).len() == 0
                    && lowers_parse(items, p)
                &&& tacky::program_plain(p)
                &&& p.globals@.len() == 0
            },
            Err(CompileError::SemanticErrors { err_cache, .. }) => exists|items: Seq<ast::Declaration<'src>>|
                #[trigger] pprogram(src@, built_in_scope(), items) && {
                    let errs = clean_errors(items);
                    &&& errs.len() > 0
                    &&& err_cache.entries().len() == errs.len()
                    &&& forall|i: int| 0 <= i < errs.len()
                        ==> cached_ok(src@, err_cache.line_infos(), #[trigger] err_cache.entries()[i], sorted_errors(errs)[i])
                },
            Err(e) => e is SyntaxErrors,
        },
{
    let mut ty_interner = new_ty_interner();
    let types = built_in_types(id_interner, &mut ty_interner);
    let ghost names = names_of(types.model().entries);
    proof {
        assert(names =~= built_in_scope());
    }
    let parser = Parser::new(src, id_interner, &mut ty_interner, types);
    let program = match parser.parse(src_path.clone()) {
        Ok(p) => p,
        Err(e) => return Err(e),
    };
    let ghost parsed = program;
    proof {
        assert(pprogram(src@, built_in_scope(), parsed.items@));
    }
    let checker = TyChecker::new(&mut ty_interner);
    let ghost ct = checker.types();
    let ghost cp = checker.poisoned();
    let checked = match checker.check(src, src_path.clone(), program) {
        Ok(p) => p,
        Err(e) => {
            proof {
                if program_plain(parsed.items@) {
                    assert(pprogram(src@, built_in_scope(), parsed.items@));
                    let w = unit_walk(parsed.items@, ct, cp);
                    assert(w.0.len() > 0);
                }
            }
            return Err(e);
        },
    };
    proof {
        if program_plain(parsed.items@) {
            let w = unit_walk(parsed.items@, ct, cp);
            assert(w.0.len() == 0);
        }
    }
    if !check_program_supported(&checked, true) {
        proof {
            assert(!program_clean(parsed.items@));
        }
        return Err(unsupported(src, src_path));
    }
    let ghost ck = checked;
    let mut converter = Converter::new();
    let p = converter.convert(checked);
    proof {
        assert(typed::program_supported(ck, true));
        assert(pprogram(src@, names, parsed.items@));
        if program_clean(parsed.items@) {
            assert(checked_from(parsed.items@, ck));
            assert forall|c: typed::Program<'src>| #[trigger] checked_from(parsed.items@, c) implies {
                &&& p.functions@.len() == c.functions@.len()
                &&& forall|i: int| 0 <= i < p.functions@.len() ==> (#[trigger] p.functions@[i]).insts@ == lower_functions(
                    c.functions@,
                    program_start(initial_state(), c.labels),
                ).0[i]
            } by {
                law_lowering_follows_the_parse(parsed.items@, ck, c);
            }
            assert(lowers_parse(parsed.items@, p));
        }
    }
    Ok(p)
}

/// Parses `src` and renders its syntax tree as source. Function and
/// aggregate types have no written form yet, so a tree that declares one
/// gives `None`.
pub fn pretty_ast(src: &str, src_path: String) -> (r: Result<Option<String>, CompileError>)
    requires
        src@.len() < usize::MAX,
    ensures
        match r {
            Ok(o) => exists|p: ast::Program, names: Names, tys: Seq<Ty>|
                #![trigger pprogram(src@, names, p.items@), program_printable(p, tys)]
                {
                    &&& built_in_names(names)
                    &&& pprogram(src@, names, p.items@)
                    &&& match o {
                        Some(text) => program_printable(p, tys) && text@ == program_text(p, tys),
                        None => !program_printable(p, tys),
                    }
                },
            Err(e) => compile_error_wf(e),
        },
        r is Ok <==> exists|items: Seq<ast::Declaration>| pprogram(src@, built_in_scope(), items),
{
    let mut id_interner = Interner::new();
    let mut ty_interner = new_ty_interner();
    let types = built_in_types(&mut id_interner, &mut ty_interner);
    let ghost types_names = names_of(types.model().entries);
    proof {
        assert(types_names =~= built_in_scope());
    }
    let parser = Parser::new(src, &mut id_interner, &mut ty_interner, types);
    let program = match parser.parse(src_path) {
        Ok(p) => p,
        Err(e) => return Err(e),
    };
    let ghost names = types_names;
    let printable = program.is_printable(&ty_interner);
    let ghost tys = ty_interner.values();
    if printable {
        let text = program.pretty(&ty_interner);
        proof {
            assert(pprogram(src@, names, program.items@));
            assert(program_printable(program, tys));
        }
        Ok(Some(text))
    } else {
        proof {
            assert(pprogram(src@, names, program.items@));
            assert(!program_printable(program, tys));
        }
        Ok(None)
    }
}

/// Whether every instruction of every function can be lowered to assembly,
/// and no function is too long to lower.
fn check_lowerable(p: &tacky::Program) -> (r: bool)
    ensures
        r == (tacky::program_plain(*p) && forall|i: int| 0 <= i < p.functions@.len()
            ==> (#[trigger] p.functions@[i]).insts@.len() <= 100000000),
{
    let mut i: usize = 0;
    while i < p.functions.len()
        invariant
            i <= p.functions@.len(),
            forall|k: int| 0 <= k < i ==> tacky::insts_plain_from((#[trigger] p.functions@[k]).insts@, 0),
            forall|k: int| 0 <= k < i ==> (#[trigger] p.functions@[k]).insts@.len() <= 100000000,
        decreases p.functions@.len() - i,
    {
        let insts = &p.functions[i].insts;
        if insts.len() > 100000000 {
            proof {
                assert(!(p.functions@[i as int].insts@.len() <= 100000000));
            }
            return false;
        }
        let mut j: usize = 0;
        while j < insts.len()
            invariant
                i < p.functions@.len(),
                insts@ == p.functions@[i as int].insts@,
                j <= insts@.len(),
                forall|m: int| 0 <= m < j ==> inst_plain(#[trigger] insts@[m]),
            decreases insts@.len() - j,
        {
            let ok = match &insts[j] {
                tacky::Inst::Ret(v) => val_is_plain(v),
                tacky::Inst::Copy { src, dst } => val_is_plain(src) && val_is_plain(dst),
                tacky::Inst::Unary { src, dst, .. } => val_is_plain(src) && val_is_plain(dst),
                tacky::Inst::Binary { lhs, rhs, dst, .. } => val_is_plain(lhs) && val_is_plain(rhs) && val_is_plain(dst),
                tacky::Inst::JumpIfZero(v, _) => val_is_plain(v),
                tacky::Inst::JumpIfNotZero(v, _) => val_is_plain(v),
                tacky::Inst::Call { .. } => false,
                _ => true,
            };
            if !ok {
                proof {
                    assert(!inst_plain(insts@[j as int]));
                    assert(!tacky::insts_plain_from(p.functions@[i as int].insts@, 0));
                }
                return false;
            }
            j += 1;
        }
        i += 1;
    }
    true
}

fn val_is_plain(v: &tacky::Val) -> (r: bool)
    ensures
        r == tacky::val_plain(*v),
{
    match v {
        tacky::Val::Const(_) => true,
        tacky::Val::Temp(_) => true,
        _ => false,
    }
}

/// Compiles one preprocessed translation unit to x86-64 assembly text.
/// Global variables, static locals, calls and function names cannot be
/// lowered yet and are reported as unsupported.
pub fn generate_unit(src: &str, src_path: String) -> (r: Result<String, CompileError>)
    requires
        src@.len() < usize::MAX,
    ensures
        match r {
            Ok(text) => exists|t: tacky::Program, a: x86::Program| #[trigger] tacky::assembly_of(t, a)
                && lowered_from(src@, t) && tacky::program_plain(t) && t.globals@.len() == 0
                && text@ == x86::functions_text(a.functions@, 0),
            Err(e) => compile_error_wf(e),
        },
        (match r {
            Err(CompileError::SyntaxErrors { .. }) => true,
            _ => false,
        }) <==> !(exists|items: Seq<ast::Declaration>| pprogram(src@, built_in_scope(), items)),
        (forall|items: Seq<ast::Declaration>| #[trigger] pprogram(src@, built_in_scope(), items) ==> program_plain(items))
            ==> plain_outcome(src@, r),
        (forall|items: Seq<ast::Declaration>| #[trigger] pprogram(src@, built_in_scope(), items) ==> program_clean(items)) ==> match r {
            Ok(text) => exists|items: Seq<ast::Declaration>, t: tacky::Program, a: x86::Program|
                #![trigger pprogram(src@, built_in_scope(), items), tacky::assembly_of(t, a)]
                {
                    &&& pprogram(src@, built_in_scope(), items)
                    &&& clean_errors(items).len() == 0
                    &&& lowers_parse(items, t)
                    &&& tacky::assembly_of(t, a)
                    &&& text@ == x86::functions_text(a.functions@, 0)
                },
            Err(CompileError::SemanticErrors { err_cache, .. }) => {
                ||| exists|items: Seq<ast::Declaration>| #[trigger] pprogram(src@, built_in_scope(), items) && {
                    let errs = clean_errors(items);
                    &&& errs.len() > 0
                    &&& err_cache.entries().len() == errs.len()
                    &&& forall|i: int| 0 <= i < errs.len()
                        ==> cached_ok(src@, err_cache.line_infos(), #[trigger] err_cache.entries()[i], sorted_errors(errs)[i])
                }
                ||| exists|t: tacky::Program| #[trigger] lowered_from(src@, t) && exists|i: int|
                    0 <= i < t.functions@.len() && (#[trigger] t.functions@[i]).insts@.len() > 100000000
            },
            Err(e) => e is SyntaxErrors,
        },
{
    let mut id_interner = Interner::new();
    let tacky_program = match generate_tacky(src, src_path.clone(), &mut id_interner) {
        Ok(p) => p,
        Err(e) => return Err(e),
    };
    if tacky_program.globals.len() > 0 || !check_lowerable(&tacky_program) {
        proof {
            if forall|items: Seq<ast::Declaration>| #[trigger] pprogram(src@, built_in_scope(), items) ==> program_clean(items) {
                assert(tacky::program_plain(tacky_program));
                assert(tacky_program.globals@.len() == 0);
                let i = choose|i: int| 0 <= i < tacky_program.functions@.len() && !((#[trigger] tacky_program.functions@[i]).insts@.len() <= 100000000);
                assert(lowered_from(src@, tacky_program));
                assert(0 <= i < tacky_program.functions@.len() && tacky_program.functions@[i].insts@.len() > 100000000);
            }
        }
        return Err(unsupported(src, src_path));
    }
    let ghost tp = tacky_program;
    let mut converter = AsmConverter::new();
    let asm_program = converter.convert(tacky_program);
    proof {
        assert forall|i: int| 0 <= i < asm_program.functions@.len() implies forall|j: int|
            0 <= j < (#[trigger] asm_program.functions@[i]).insts@.len() ==> x86::inst_printable(#[trigger] asm_program.functions@[i].insts@[j]) by {
            assert forall|j: int| 0 <= j < asm_program.functions@[i].insts@.len() implies x86::inst_printable(#[trigger] asm_program.functions@[i].insts@[j]) by {
                assert(tacky::inst_placed(asm_program.functions@[i].insts@[j]));
            }
        }
    }
    let text = asm_program.to_text();
    proof {
        assert(tacky::assembly_of(tp, asm_program));
    }
    Ok(text)
}

} // verus!
