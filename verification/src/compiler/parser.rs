//! A recursive-descent parser with precedence climbing for expressions.
//! Errors are recorded and parsing resynchronises, so one run reports as
//! many syntax errors as it can.
use vstd::prelude::*;
use vstd::string::StrSliceExecFns;

use crate::arena::Handle;
use crate::compiler::ast::{
    self, ctx_within, decl_ok, expr_ok, stmt_ok, AssignOp, BinaryOp, Declaration, Expr, ExprTy,
    FunctionDecl, Identifier, SpecifierFlags, Stmt, UnaryOp, VarDecl,
};
use crate::compiler::error::{compile_error_wf, CompileError, Context, SyntaxError, SyntaxErrorWithCtx};
use crate::compiler::grammar::{
    assign_token, binary_token, lemma_op_rank_bound, lhs_rank, lemma_pexpr_looser, op_rank, pexpr, prefix_token, ptree, pgroup,
    bound_text, const_text, type_start, Names, pitem, lemma_binary_rank, lemma_spine_leaf, lemma_spine_parent, on_spine, pnode, spine_parent, lemma_top_may_follow, may_follow, pexpr_whole, spine_leaf, tok_start,
    tok_text, tok_end, tok_ty, extends, pfunction, pfunctions, pprogram, pitems, pstmt, ptype, ptypedef, pvar,
};
use crate::compiler::lexer::{lemma_next_token, next_token, Lexer};
use crate::compiler::token::{prec_rank, spec_anyfix_precedence, Precedence, Token, TokenTy};
use crate::compiler::ty::{lookup, Ty, TyInterner, TyStack};
use crate::intern::{Interned, Interner};

verus! {

/// The value of a string of decimal digits.
pub open spec fn decimal_value(s: Seq<char>) -> int
    decreases s.len(),
{
    if s.len() == 0 {
        0
    } else {
        decimal_value(s.drop_last()) * 10 + (s.last() as int - '0' as int)
    }
}

/// Reads the decimal digits `chars[start..end]` as an `i32`; `None` when the
/// value does not fit.
pub fn parse_decimal(lexer: &Lexer, start: usize, end: usize) -> (r: Option<i32>)
    requires
        start <= end <= lexer.source().len(),
        forall|k: int| start <= k < end ==> '0' <= #[trigger] lexer.source()[k] <= '9',
    ensures
        match r {
            Some(v) => v == decimal_value(lexer.source().subrange(start as int, end as int)),
            None => decimal_value(lexer.source().subrange(start as int, end as int)) > i32::MAX,
        },
{
    let mut value: i64 = 0;
    let mut i = start;
    while i < end
        invariant
            start <= i <= end <= lexer.source().len(),
            forall|k: int| start <= k < end ==> '0' <= #[trigger] lexer.source()[k] <= '9',
            0 <= value <= i32::MAX,
            value == decimal_value(lexer.source().subrange(start as int, i as int)),
        decreases end - i,
    {
        let c = lexer.char_at(i);
        let d = (c as u32 - '0' as u32) as i64;
        proof {
            let sub = lexer.source().subrange(start as int, i + 1);
            assert(sub.drop_last() =~= lexer.source().subrange(start as int, i as int));
            assert(sub.last() == c);
        }
        let next = value * 10 + d;
        if next > i32::MAX as i64 {
            proof {
                lemma_decimal_grows(lexer.source().subrange(start as int, end as int), (i + 1 - start) as int);
                assert(lexer.source().subrange(start as int, end as int).take((i + 1 - start) as int)
                    =~= lexer.source().subrange(start as int, i + 1));
            }
            return None;
        }
        value = next;
        i += 1;
    }
    proof {
        assert(lexer.source().subrange(start as int, i as int) =~= lexer.source().subrange(start as int, end as int));
    }
    Some(value as i32)
}

/// A longer digit string is worth at least as much as any of its prefixes.
pub proof fn lemma_decimal_grows(s: Seq<char>, k: int)
    requires
        0 <= k <= s.len(),
        forall|j: int| 0 <= j < s.len() ==> '0' <= #[trigger] s[j] <= '9',
    ensures
        decimal_value(s.take(k)) <= decimal_value(s),
        0 <= decimal_value(s.take(k)),
    decreases s.len(),
{
    if s.len() == 0 {
        assert(s.take(k) =~= s);
    } else if k == s.len() {
        assert(s.take(k) =~= s);
        lemma_decimal_nonneg(s);
    } else {
        lemma_decimal_grows(s.drop_last(), k);
        assert(s.drop_last().take(k) =~= s.take(k));
        lemma_decimal_nonneg(s.drop_last());
    }
}

pub proof fn lemma_decimal_nonneg(s: Seq<char>)
    requires
        forall|j: int| 0 <= j < s.len() ==> '0' <= #[trigger] s[j] <= '9',
    ensures
        0 <= decimal_value(s),
    decreases s.len(),
{
    if s.len() > 0 {
        lemma_decimal_nonneg(s.drop_last());
    }
}

/// The type names of scope bindings, by text.
pub open spec fn names_of<'src>(entries: Seq<(Interned<'src>, Handle)>) -> Names {
    Seq::new(entries.len(), |i: int| (entries[i].0.text(), entries[i].1))
}

/// Adding a binding adds its name.
pub proof fn lemma_names_push<'src>(entries: Seq<(Interned<'src>, Handle)>, k: Interned<'src>, h: Handle)
    ensures
        names_of(entries.push((k, h))) == names_of(entries).push((k.text(), h)),
{
    assert(names_of(entries.push((k, h))) =~= names_of(entries).push((k.text(), h)));
}

/// Where equal indexes are equal texts, looking up by index is looking up
/// by text.
proof fn lemma_lookup_text_of<'src>(entries: Seq<(Interned<'src>, Handle)>, k: Interned<'src>)
    requires
        forall|i: int| 0 <= i < entries.len() ==> (#[trigger] entries[i].0.index() == k.index()) == (entries[i].0.text() == k.text()),
    ensures
        lookup(entries, k) == bound_text(names_of(entries), k.text()),
    decreases entries.len(),
{
    if entries.len() > 0 {
        let rest = entries.drop_last();
        assert(names_of(rest) =~= names_of(entries).drop_last());
        assert forall|i: int| 0 <= i < rest.len() implies (#[trigger] rest[i].0.index() == k.index()) == (rest[i].0.text() == k.text()) by {
            assert(rest[i] == entries[i]);
        }
        lemma_lookup_text_of(rest, k);
        assert(entries.last() == entries[entries.len() - 1]);
    }
}

/// The names of a prefix of the bindings are a prefix of the names.
pub proof fn lemma_names_prefix<'src>(entries: Seq<(Interned<'src>, Handle)>, n: int)
    requires
        0 <= n <= entries.len(),
    ensures
        names_of(entries.subrange(0, n)) == names_of(entries).subrange(0, n),
{
    assert(names_of(entries.subrange(0, n)) =~= names_of(entries).subrange(0, n));
}

/// The tokens that start a prefix operator expression.
pub open spec fn is_prefix_op(t: TokenTy) -> bool {
    t == TokenTy::PlusPlus || t == TokenTy::MinusMinus || t == TokenTy::Plus || t == TokenTy::Minus
        || t == TokenTy::Tilde || t == TokenTy::Bang
}

/// Reading on from position `p` past error tokens: the kind of the first
/// token that is not one, and where it ends.
pub open spec fn read_past_errors(s: Seq<char>, p: int) -> (TokenTy, int)
    decreases s.len() - p,
{
    let t = tok_ty(s, p);
    let q = tok_end(s, p);
    if t is Error && p < q <= s.len() {
        read_past_errors(s, q)
    } else {
        (t, q)
    }
}

/// Just after a token of kind `prev` that ends at `p`, parsing can resume:
/// a declaration starts, a label or a block has just ended, or the next
/// token is a brace, a `;`, `if`, `else`, `return` or the end of input.
pub open spec fn sync_point(s: Seq<char>, names: Names, prev: TokenTy, p: int) -> bool {
    let c = tok_ty(s, p);
    ||| type_start(s, p, names)
    ||| prev == TokenTy::Colon || prev == TokenTy::CloseBrace
    ||| c == TokenTy::OpenBrace || c == TokenTy::Semicolon || c == TokenTy::CloseBrace
    ||| c == TokenTy::If || c == TokenTy::Else || c == TokenTy::Return || c == TokenTy::Eof
}

/// Where skipping tokens from just after a token of kind `prev` that ends
/// at `p` stops: the first point where parsing can resume, given as the
/// kind of the token before it and its position.
pub open spec fn sync_stop(s: Seq<char>, names: Names, prev: TokenTy, p: int) -> (TokenTy, int)
    decreases s.len() - p,
{
    if sync_point(s, names, prev, p) {
        (prev, p)
    } else {
        let (t, q) = read_past_errors(s, p);
        if p < q <= s.len() {
            sync_stop(s, names, t, q)
        } else {
            (prev, p)
        }
    }
}

/// A token's range lies within the source.
pub open spec fn tok_ok(t: Token, n: nat) -> bool {
    t.ctx.start <= t.ctx.end <= n
}

pub struct Parser<'src, 'p> {
    src: &'src str,
    lexer: Lexer,
    id_interner: &'p mut Interner<'src>,
    ty_interner: &'p mut TyInterner<'src>,
    curr: Token,
    prev: Token,
    errors: Vec<SyntaxErrorWithCtx>,
    types: TyStack<'src>,
}

impl<'src, 'p> Parser<'src, 'p> {
    /// The length of the source, in characters.
    pub closed spec fn n(&self) -> nat {
        self.src@.len()
    }

    /// How much of the source the current token and what follows it cover;
    /// consuming a token other than the end of input shrinks it.
    pub closed spec fn remaining(&self) -> int {
        self.src@.len() - self.curr.ctx.start
    }

    /// The state before the first token has been read.
    pub closed spec fn wf_initial(&self) -> bool {
        &&& self.lexer.wf()
        &&& self.lexer.source() == self.src@
        &&& self.lexer.position() == 0
        &&& self.curr.ctx.start == 0 && self.curr.ctx.end == 0
        &&& self.prev.ctx.start == 0 && self.prev.ctx.end == 0
        &&& self.prev.ty == TokenTy::Eof
        &&& self.curr.ty == TokenTy::Eof
        &&& self.errors@.len() == 0
        &&& self.id_interner.wf()
        &&& self.types.wf()
        &&& self.names_issued()
    }

    /// The parser's invariant: the current token is the one the lexer last
    /// produced, tokens lie in order within the source, the end of input
    /// sits at the end, and every recorded error lies within the source.
    pub closed spec fn wf(&self) -> bool {
        &&& self.lexer.wf()
        &&& self.lexer.source() == self.src@
        &&& self.lexer.position() == self.curr.ctx.end
        &&& next_token(self.src@, self.prev.ctx.end as int) == (
            self.curr.ty,
            self.curr.ctx.start as int,
            self.curr.ctx.end as int,
        )
        &&& tok_ok(self.curr, self.src@.len())
        &&& tok_ok(self.prev, self.src@.len())
        &&& self.prev.ctx.end <= self.curr.ctx.start
        &&& (self.curr.ty == TokenTy::Eof <==> self.curr.ctx.start == self.curr.ctx.end)
        &&& (self.prev.ty != TokenTy::Eof ==> self.prev.ctx.start < self.prev.ctx.end)
        &&& (self.curr.ty == TokenTy::Eof ==> self.curr.ctx.end == self.src@.len())
        &&& (forall|i: int| 0 <= i < self.errors@.len() ==> ctx_within(#[trigger] self.errors@[i].ctx, self.src@.len()))
        &&& self.id_interner.wf()
        &&& self.types.wf()
        &&& self.names_issued()
    }

    /// `self` was reached from `old` by parsing: same source, invariant
    /// kept, tokens only consumed.
    pub closed spec fn step_from(&self, old: Self) -> bool {
        &&& self.wf()
        &&& self.src@ == old.src@
        &&& old.curr.ctx.start <= self.curr.ctx.start
        &&& old.prev.ctx.start <= self.prev.ctx.start
        &&& old.prev.ctx.end <= self.prev.ctx.end
        &&& old.errors@.len() <= self.errors@.len()
        &&& self.types.model().bottom == old.types.model().bottom
    }

    /// The errors recorded so far.
    pub closed spec fn recorded_errors(&self) -> Seq<SyntaxErrorWithCtx> {
        self.errors@
    }

    /// Whether `ty` is the kind of the current token.
    pub closed spec fn current_is(&self, ty: TokenTy) -> bool {
        self.curr.ty == ty
    }

    /// The source being parsed.
    pub closed spec fn source(&self) -> Seq<char> {
        self.src@
    }

    /// No error was recorded since `old`.
    pub closed spec fn clean_since(&self, old: Self) -> bool {
        self.errors@.len() == old.errors@.len()
    }

    /// The expression `e`, read from position `from`, is complete: either
    /// the current token is a lexing error, which whoever expects a token
    /// here reports, or `e` covers exactly the tokens read since `from` and
    /// binds at least as tightly as rank `lvl`.
    pub closed spec fn done(&self, from: int, e: Expr, lvl: nat) -> bool {
        ||| self.curr.ty is Error
        ||| pexpr(self.src@, from, e, lvl) && e.ctx.end == self.prev.ctx.end
    }

    /// The position the current token was read from: where the previous
    /// token ends.
    pub closed spec fn pos(&self) -> int {
        self.prev.ctx.end as int
    }

    /// The type name bindings in scope, oldest first.
    pub closed spec fn raw_names(&self) -> Seq<(Interned<'src>, Handle)> {
        self.types.model().entries
    }

    /// The type names in scope, by text, oldest first.
    pub open spec fn type_names(&self) -> Names {
        names_of(self.raw_names())
    }

    /// Every type name binding names a string the interner holds.
    pub closed spec fn names_issued(&self) -> bool {
        forall|i: int| 0 <= i < self.types.model().entries.len()
            ==> self.id_interner.issued(#[trigger] self.types.model().entries[i].0)
    }

    /// Looking an interned name up among the bindings finds the most recent
    /// binding of its text.
    proof fn lemma_lookup_text(&self, k: Interned<'src>)
        requires
            self.id_interner.wf(),
            self.names_issued(),
            self.id_interner.issued(k),
        ensures
            lookup(self.raw_names(), k) == bound_text(self.type_names(), k.text()),
    {
        let entries = self.raw_names();
        assert forall|i: int| 0 <= i < entries.len()
            implies (#[trigger] entries[i].0.index() == k.index()) == (entries[i].0.text() == k.text()) by {
            assert(self.id_interner.issued(self.types.model().entries[i].0));
            self.id_interner.lemma_issued_unique(entries[i].0, k);
        }
        lemma_lookup_text_of(entries, k);
    }

    /// The type names in scope are as in `old`.
    pub closed spec fn names_same(&self, old: Self) -> bool {
        self.types.model() == old.types.model()
    }

    /// Type names were only added to the innermost scope since `old`.
    pub closed spec fn names_grew(&self, old: Self) -> bool {
        &&& old.raw_names().len() <= self.raw_names().len()
        &&& self.raw_names().subrange(0, old.raw_names().len() as int) == old.raw_names()
        &&& self.types.model().bottom == old.types.model().bottom
    }

    /// The token that was current in `old` has been consumed.
    pub closed spec fn moved_past(&self, old: Self) -> bool {
        old.curr.ctx.end <= self.prev.ctx.end
    }

    /// The previous token was read from position `p`.
    pub closed spec fn prev_read_from(&self, p: int) -> bool {
        next_token(self.src@, p) == (self.prev.ty, self.prev.ctx.start as int, self.prev.ctx.end as int)
    }

    /// As `done`, and `e` also binds at least as tightly as the operator
    /// that follows it, so that it can be that operator's left operand.
    pub closed spec fn ready(&self, from: int, e: Expr, lvl: nat) -> bool {
        ||| self.curr.ty is Error
        ||| {
            &&& pexpr(self.src@, from, e, lvl)
            &&& pexpr(self.src@, from, e, lhs_rank(self.curr.ty))
            &&& e.ctx.end == self.prev.ctx.end
        }
    }

    pub fn new(
        src: &'src str,
        id_interner: &'p mut Interner<'src>,
        ty_interner: &'p mut TyInterner<'src>,
        types: TyStack<'src>,
    ) -> (r: Self)
        requires
            old(id_interner).wf(),
            types.wf(),
            forall|i: int| 0 <= i < types.model().entries.len() ==> old(id_interner).issued(#[trigger] types.model().entries[i].0),
        ensures
            r.wf_initial(),
            r.source() == src@,
            r.type_names() == names_of(types.model().entries),
    {
        Parser {
            src,
            lexer: Lexer::new(src),
            id_interner,
            ty_interner,
            curr: Token::new(TokenTy::Eof, 0, 0),
            prev: Token::new(TokenTy::Eof, 0, 0),
            errors: Vec::new(),
            types,
        }
    }

    /// Parses the whole source. Any syntax error makes the result an error
    /// that shows every syntax error found, each with its lines; a source
    /// that the grammar derives always parses.
    pub fn parse(self, src_path: String) -> (r: Result<ast::Program<'src>, CompileError>)
        requires
            self.wf_initial(),
            self.source().len() < usize::MAX,
        ensures
            match r {
                Ok(p) => {
                    &&& forall|i: int| 0 <= i < p.items@.len() ==> decl_ok(#[trigger] p.items@[i], self.source().len())
                    &&& pprogram(self.source(), self.type_names(), p.items@)
                },
                Err(e) => {
                    &&& compile_error_wf(e)
                    &&& e matches CompileError::SyntaxErrors { src_path: p, err_cache }
                    &&& p@ == src_path@
                    &&& err_cache.entries().len() > 0
                },
            },
            (exists|items: Seq<Declaration<'src>>| pprogram(self.source(), self.type_names(), items)) ==> r is Ok,
    {
        let mut parser = self;
        let (items, errors) = parser.parse_items();
        if errors.len() > 0 {
            let e = CompileError::from_syntax_errors(parser.src, src_path, errors);
            Err(e)
        } else {
            Ok(ast::Program { items })
        }
    }

    /// Parses the whole source into its declarations; the second result
    /// holds the syntax errors, in the order they were found. Parsing always
    /// runs to the end of the input.
    pub fn parse_items(&mut self) -> (r: (Vec<Declaration<'src>>, Vec<SyntaxErrorWithCtx>))
        requires
            old(self).wf_initial(),
        ensures
            final(self).source() == old(self).source(),
            final(self).current_is(TokenTy::Eof),
            forall|i: int| 0 <= i < r.0@.len() ==> decl_ok(#[trigger] r.0@[i], old(self).source().len()),
            forall|i: int| 0 <= i < r.1@.len() ==> ctx_within(#[trigger] r.1@[i].ctx, old(self).source().len()),
            r.1@.len() == 0 ==> pprogram(old(self).source(), old(self).type_names(), r.0@),
            (exists|items: Seq<Declaration<'src>>| pprogram(old(self).source(), old(self).type_names(), items)) ==> r.1@.len() == 0,
    {
        let mut items: Vec<Declaration<'src>> = Vec::new();
        let ghost src = self.src@;
        let ghost ok = exists|items: Seq<Declaration<'src>>| pprogram(src, old(self).type_names(), items);
        let ghost titems = choose|items: Seq<Declaration<'src>>| pprogram(src, old(self).type_names(), items);
        let ghost tto = choose|to: int| #![trigger pfunctions(src, 0, old(self).type_names(), titems, to)]
            pfunctions(src, 0, old(self).type_names(), titems, to) && tok_ty(src, to) == TokenTy::Eof;
        let ghost mut grest = titems;
        self.advance_unchecked_initial();
        let ghost start = *self;
        let ghost sc = self.type_names();
        while !self.at_end()
            invariant
                self.wf(),
                self.src@ == old(self).src@,
                forall|i: int| 0 <= i < items@.len() ==> decl_ok(#[trigger] items@[i], self.src@.len()),
                self.step_from(start),
                self.names_same(start),
                sc == old(self).type_names(),
                sc == start.type_names(),
                start.pos() == 0,
                start.errors == old(self).errors,
                self.clean_since(start) ==> pfunctions(self.src@, 0, sc, items@, self.pos()),
                src == self.src@,
                ok ==> self.clean_since(start) && pfunctions(src, self.pos(), sc, grest, tto) && tok_ty(src, tto) == TokenTy::Eof,
            decreases self.remaining(),
        {
            let before = self.curr.ctx.start;
            let ghost si = *self;
            let ghost items0 = items@;
            let ghost mut tf: FunctionDecl<'src> = vstd::pervasive::arbitrary();
            let ghost mut tq: int = 0;
            proof {
                assert(tok_ty(src, self.pos()) == self.curr.ty);
                if ok {
                    crate::compiler::grammar::lemma_functions_first(src, self.pos(), sc, grest, tto);
                    if grest.len() == 0 {
                        assert(false);
                    }
                    let q = choose|q: int| #![trigger pfunctions(src, q, sc, grest.drop_first(), tto)] {
                        &&& self.pos() < q <= tto
                        &&& grest[0] matches Declaration::Fn(f) && pfunction(src, self.pos(), sc, f, q)
                        &&& pfunctions(src, q, sc, grest.drop_first(), tto)
                    };
                    tq = q;
                    tf = match grest[0] {
                        Declaration::Fn(f) => f,
                        _ => tf,
                    };
                }
            }
            let item = self.function(Ghost(tf), Ghost(tq));
            proof {
                if ok {
                    grest = grest.drop_first();
                    assert(self.clean_since(start));
                    assert(self.pos() == tq);
                    assert(si.curr.ctx.start < si.curr.ctx.end);
                }
            }
            let ghost sj = *self;
            let ghost gitem = item;
            items.push(item);
            proof {
                if self.clean_since(start) {
                    lemma_next_token(self.src@, si.pos());
                    assert(si.clean_since(start));
                    assert(sj.clean_since(si));
                    assert(si.names_same(start));
                    assert(start.type_names() == sc);
                    assert(si.type_names() == sc);
                    crate::compiler::grammar::lemma_functions_push(self.src@, 0, sc, items0, si.pos(), gitem, self.pos());
                    assert(items0.push(gitem) =~= items@);
                }
            }
            if self.curr.ctx.start == before && !self.at_end() {
                self.advance();
            }
        }
        proof {
            if self.clean_since(start) {
                assert(pfunctions(self.src@, 0, sc, items@, self.pos()) && tok_ty(self.src@, self.pos()) == TokenTy::Eof);
            }
            if ok {
                assert(tok_ty(src, self.pos()) == self.curr.ty);
                crate::compiler::grammar::lemma_functions_first(src, self.pos(), sc, grest, tto);
                assert(self.clean_since(start));
            }
        }
        let mut errors: Vec<SyntaxErrorWithCtx> = Vec::new();
        std::mem::swap(&mut self.errors, &mut errors);
        (items, errors)
    }
}

impl<'src, 'p> Parser<'src, 'p> {
    /// The source text a token covers.
    fn get_src_str(&self, token: &Token) -> (r: &'src str)
        requires
            tok_ok(*token, self.src@.len()),
        ensures
            r@ == self.src@.subrange(token.ctx.start as int, token.ctx.end as int),
    {
        self.src.substring_char(token.ctx.start, token.ctx.end)
    }

    /// An error at the previous token.
    fn error(&self, err: SyntaxError) -> (r: SyntaxErrorWithCtx)
        ensures
            r.ctx == self.prev.ctx,
            r.err == err,
    {
        SyntaxErrorWithCtx { ctx: self.prev.ctx, err }
    }

    /// An error at the current token.
    fn error_at(&self, err: SyntaxError) -> (r: SyntaxErrorWithCtx)
        ensures
            r.ctx == self.curr.ctx,
            r.err == err,
    {
        SyntaxErrorWithCtx { ctx: self.curr.ctx, err }
    }

    fn log_err(&mut self, err_with_ctx: SyntaxErrorWithCtx)
        requires
            old(self).wf(),
            ctx_within(err_with_ctx.ctx, old(self).src@.len()),
        ensures
            final(self).step_from(*old(self)),
            final(self).names_same(*old(self)),
            final(self).curr == old(self).curr,
            final(self).prev == old(self).prev,
            final(self).errors@ == old(self).errors@.push(err_with_ctx),
    {
        self.errors.push(err_with_ctx);
    }

    fn at_end(&self) -> (r: bool)
        ensures
            r == (self.curr.ty == TokenTy::Eof),
    {
        self.curr.ty == TokenTy::Eof
    }

    fn check(&self, expected: TokenTy) -> (r: bool)
        ensures
            r == (self.curr.ty == expected),
    {
        self.curr.ty == expected
    }

    fn peek(&self) -> (r: TokenTy)
        ensures
            r == self.curr.ty,
    {
        self.curr.ty
    }

    fn intern_prev(&mut self) -> (r: Interned<'src>)
        requires
            old(self).wf(),
        ensures
            final(self).step_from(*old(self)),
            final(self).names_same(*old(self)),
            final(self).curr == old(self).curr,
            final(self).prev == old(self).prev,
            final(self).errors == old(self).errors,
            r.text() == old(self).src@.subrange(old(self).prev.ctx.start as int, old(self).prev.ctx.end as int),
            final(self).id_interner.issued(r),
    {
        let text = self.get_src_str(&self.prev);
        let r = self.id_interner.intern(text);
        proof {
            assert forall|i: int| 0 <= i < self.types.model().entries.len()
                implies self.id_interner.issued(#[trigger] self.types.model().entries[i].0) by {
                assert(old(self).id_interner.issued(self.types.model().entries[i].0));
            }
        }
        r
    }

    fn intern_next(&mut self) -> (r: Interned<'src>)
        requires
            old(self).wf(),
        ensures
            final(self).step_from(*old(self)),
            final(self).names_same(*old(self)),
            final(self).curr == old(self).curr,
            final(self).prev == old(self).prev,
            final(self).errors == old(self).errors,
            r.text() == old(self).src@.subrange(old(self).curr.ctx.start as int, old(self).curr.ctx.end as int),
            final(self).id_interner.issued(r),
            final(self).id_interner.wf(),
    {
        let text = self.get_src_str(&self.curr);
        let r = self.id_interner.intern(text);
        proof {
            assert forall|i: int| 0 <= i < self.types.model().entries.len()
                implies self.id_interner.issued(#[trigger] self.types.model().entries[i].0) by {
                assert(old(self).id_interner.issued(self.types.model().entries[i].0));
            }
        }
        r
    }

    /// Skips tokens until one where parsing can resume: the start of a
    /// declaration or statement, a `;` or brace, or the end of input.
    fn synchronize(&mut self)
        requires
            old(self).wf(),
        ensures
            final(self).step_from(*old(self)),
            final(self).names_same(*old(self)),
            old(self).curr.ty is Error && final(self).clean_since(*old(self)) ==> final(self).curr == old(self).curr,
            (final(self).prev.ty, final(self).pos()) == sync_stop(
                old(self).src@,
                old(self).type_names(),
                old(self).prev.ty,
                old(self).pos(),
            ),
            final(self).errors@.take(old(self).errors@.len() as int) == old(self).errors@,
    {
        proof {
            assert(self.errors@.take(self.errors@.len() as int) =~= self.errors@);
        }
        loop
            invariant
                self.errors@.take(old(self).errors@.len() as int) == old(self).errors@,
                self.step_from(*old(self)),
                old(self).curr.ty is Error && self.errors@.len() == old(self).errors@.len() ==> self.curr == old(self).curr,
                self.names_same(*old(self)),
                sync_stop(self.src@, self.type_names(), self.prev.ty, self.pos())
                    == sync_stop(old(self).src@, old(self).type_names(), old(self).prev.ty, old(self).pos()),
            ensures
                self.errors@.take(old(self).errors@.len() as int) == old(self).errors@,
                self.step_from(*old(self)),
                old(self).curr.ty is Error && self.errors@.len() == old(self).errors@.len() ==> self.curr == old(self).curr,
                self.names_same(*old(self)),
                (self.prev.ty, self.pos())
                    == sync_stop(old(self).src@, old(self).type_names(), old(self).prev.ty, old(self).pos()),
            decreases self.remaining(),
        {
            let ghost start = *self;
            if self.next_is_type() {
                proof {
                    assert(self.type_names() == start.type_names());
                    assert(sync_point(self.src@, self.type_names(), self.prev.ty, self.pos()));
                    assert(sync_stop(self.src@, self.type_names(), self.prev.ty, self.pos()) == (self.prev.ty, self.pos()));
                }
                break;
            }
            proof {
                assert(self.type_names() == start.type_names());
                assert(tok_ty(self.src@, self.pos()) == self.curr.ty);
            }
            if self.prev.ty == TokenTy::Colon || self.prev.ty == TokenTy::CloseBrace {
                proof {
                    assert(sync_point(self.src@, self.type_names(), self.prev.ty, self.pos()));
                    assert(sync_stop(self.src@, self.type_names(), self.prev.ty, self.pos()) == (self.prev.ty, self.pos()));
                }
                break;
            }
            let c = self.curr.ty;
            if c == TokenTy::OpenBrace || c == TokenTy::Semicolon || c == TokenTy::CloseBrace
                || c == TokenTy::If || c == TokenTy::Else || c == TokenTy::Return || c == TokenTy::Eof {
                proof {
                    assert(sync_point(self.src@, self.type_names(), self.prev.ty, self.pos()));
                    assert(sync_stop(self.src@, self.type_names(), self.prev.ty, self.pos()) == (self.prev.ty, self.pos()));
                }
                break;
            }
            let ghost before = *self;
            self.advance();
            proof {
                assert(!sync_point(before.src@, before.type_names(), before.prev.ty, before.pos()));
                assert(before.pos() < self.pos() <= self.src@.len());
            }
        }
    }

    /// Reads the first token.
    fn advance_unchecked_initial(&mut self)
        requires
            old(self).wf_initial(),
        ensures
            final(self).wf(),
            final(self).src@ == old(self).src@,
            final(self).pos() == 0,
            final(self).errors == old(self).errors,
            final(self).names_same(*old(self)),
    {
        proof {
            lemma_next_token(self.lexer.source(), self.lexer.position());
        }
        let next = self.lexer.advance_token();
        self.prev = self.curr;
        self.curr = next;
    }

    /// Moves to the next token, error tokens included.
    fn advance_unchecked(&mut self)
        requires
            old(self).wf(),
        ensures
            final(self).step_from(*old(self)),
            final(self).names_same(*old(self)),
            final(self).prev == old(self).curr,
            final(self).errors == old(self).errors,
            old(self).curr.ty != TokenTy::Eof ==> final(self).remaining() < old(self).remaining(),
            old(self).curr.ty != TokenTy::Eof ==> final(self).curr.ctx.start >= old(self).curr.ctx.end,
            old(self).curr.ty == TokenTy::Eof ==> final(self).curr.ty == TokenTy::Eof,
    {
        proof {
            lemma_next_token(self.lexer.source(), self.lexer.position());
        }
        let next = self.lexer.advance_token();
        self.prev = self.curr;
        self.curr = next;
    }

    /// Moves to the next token, recording and skipping error tokens.
    fn advance(&mut self) -> (r: TokenTy)
        requires
            old(self).wf(),
        ensures
            final(self).step_from(*old(self)),
            final(self).names_same(*old(self)),
            r == final(self).prev.ty,
            old(self).curr.ty != TokenTy::Eof ==> final(self).remaining() < old(self).remaining(),
            old(self).curr.ty is Error ==> final(self).errors@.len() > old(self).errors@.len(),
            (final(self).prev.ty, final(self).pos()) == read_past_errors(old(self).src@, old(self).pos()),
            old(self).curr.ty != TokenTy::Eof ==> old(self).pos() < final(self).pos(),
            final(self).errors@.take(old(self).errors@.len() as int) == old(self).errors@,
    {
        proof {
            lemma_next_token(self.src@, self.pos());
        }
        self.advance_unchecked();
        loop
            invariant
                self.step_from(*old(self)),
                old(self).curr.ty != TokenTy::Eof ==> self.remaining() < old(self).remaining(),
                old(self).curr.ty is Error ==> self.errors@.len() > old(self).errors@.len() || self.prev.ty == old(self).curr.ty,
                self.names_same(*old(self)),
                self.prev.ty is Error ==> read_past_errors(old(self).src@, old(self).pos()) == read_past_errors(self.src@, self.pos()),
                !(self.prev.ty is Error) ==> read_past_errors(old(self).src@, old(self).pos()) == (self.prev.ty, self.pos()),
                old(self).curr.ty != TokenTy::Eof ==> old(self).pos() < self.pos(),
                self.errors@.take(old(self).errors@.len() as int) == old(self).errors@,
            ensures
                self.errors@.take(old(self).errors@.len() as int) == old(self).errors@,
                self.step_from(*old(self)),
                self.names_same(*old(self)),
                old(self).curr.ty != TokenTy::Eof ==> self.remaining() < old(self).remaining(),
                old(self).curr.ty is Error ==> self.errors@.len() > old(self).errors@.len(),
                (self.prev.ty, self.pos()) == read_past_errors(old(self).src@, old(self).pos()),
                old(self).curr.ty != TokenTy::Eof ==> old(self).pos() < self.pos(),
            decreases self.src@.len() - self.prev.ctx.start,
        {
            match self.prev.ty {
                TokenTy::Error(err) => {
                    let e = self.error(err);
                    self.log_err(e);
                    proof {
                        lemma_next_token(self.src@, self.pos());
                    }
                    self.advance_unchecked();
                },
                _ => {
                    break;
                },
            }
        }
        self.prev.ty
    }

    /// Consumes the expected token, or records `err` and resynchronises.
    fn eat(&mut self, expected: TokenTy, err: SyntaxError) -> (r: bool)
        requires
            old(self).wf(),
        ensures
            final(self).step_from(*old(self)),
            final(self).names_same(*old(self)),
            r == (old(self).curr.ty == expected),
            r && expected != TokenTy::Eof ==> final(self).remaining() < old(self).remaining(),
            r ==> final(self).prev == old(self).curr && final(self).errors == old(self).errors,
            !r ==> final(self).errors@.len() > old(self).errors@.len(),
            !r ==> final(self).errors@.take(old(self).errors@.len() + 1int) == old(self).errors@.push(
                SyntaxErrorWithCtx { ctx: old(self).curr.ctx, err },
            ),
            !r ==> (final(self).prev.ty, final(self).pos()) == sync_stop(
                old(self).src@,
                old(self).type_names(),
                old(self).prev.ty,
                old(self).pos(),
            ),
    {
        if self.check(expected) {
            self.advance_unchecked();
            true
        } else {
            let e = self.error_at(err);
            self.log_err(e);
            let ghost logged = self.errors@;
            self.synchronize();
            proof {
                assert(self.errors@.take(old(self).errors@.len() + 1int) == logged.take(logged.len() as int));
                assert(logged.take(logged.len() as int) =~= logged);
            }
            false
        }
    }

    /// Consumes the expected token, or records `err` without resynchronising.
    fn eat_no_sync(&mut self, expected: TokenTy, err: SyntaxError) -> (r: bool)
        requires
            old(self).wf(),
        ensures
            final(self).step_from(*old(self)),
            final(self).names_same(*old(self)),
            r == (old(self).curr.ty == expected),
            r && expected != TokenTy::Eof ==> final(self).remaining() < old(self).remaining(),
            r ==> final(self).prev == old(self).curr && final(self).errors == old(self).errors,
            !r ==> final(self).errors@.len() > old(self).errors@.len(),
            !r ==> final(self).errors@ == old(self).errors@.push(SyntaxErrorWithCtx { ctx: old(self).curr.ctx, err }),
            !r ==> final(self).curr == old(self).curr && final(self).prev == old(self).prev,
    {
        if self.check(expected) {
            self.advance_unchecked();
            true
        } else {
            let e = self.error_at(err);
            self.log_err(e);
            false
        }
    }

    /// Consumes the expected token if it is next.
    fn eat_if(&mut self, expected: TokenTy) -> (r: bool)
        requires
            old(self).wf(),
        ensures
            final(self).step_from(*old(self)),
            final(self).names_same(*old(self)),
            r == (old(self).curr.ty == expected),
            r ==> final(self).prev == old(self).curr,
            r ==> final(self).errors == old(self).errors,
            !r ==> *final(self) == *old(self),
            r && expected != TokenTy::Eof ==> final(self).remaining() < old(self).remaining(),
    {
        if self.check(expected) {
            self.advance_unchecked();
            true
        } else {
            false
        }
    }

    /// Whether the next token starts a type: `int` or a type name in scope.
    fn next_is_type(&mut self) -> (r: bool)
        requires
            old(self).wf(),
        ensures
            final(self).step_from(*old(self)),
            final(self).names_same(*old(self)),
            final(self).curr == old(self).curr,
            final(self).prev == old(self).prev,
            final(self).errors == old(self).errors,
            r ==> old(self).curr.ty == TokenTy::Int || old(self).curr.ty == TokenTy::Identifier,
            r == type_start(old(self).src@, old(self).pos(), old(self).type_names()),
    {
        match self.peek() {
            TokenTy::Int => true,
            TokenTy::Identifier => {
                let id = self.intern_next();
                proof {
                    self.lemma_lookup_text(id);
                }
                self.types.get(&id).is_some()
            },
            _ => false,
        }
    }

    /// A type: `int` or a type name.
    fn parse_type(&mut self) -> (r: Handle)
        requires
            old(self).wf(),
        ensures
            final(self).step_from(*old(self)),
            final(self).names_same(*old(self)),
            (old(self).curr.ty == TokenTy::Int || old(self).curr.ty == TokenTy::Identifier)
                ==> final(self).remaining() < old(self).remaining(),
            final(self).clean_since(*old(self)) ==> final(self).prev == old(self).curr
                && ptype(old(self).src@, old(self).pos(), old(self).type_names(), r),
            (old(self).curr.ty == TokenTy::Int || old(self).curr.ty == TokenTy::Identifier)
                && bound_text(old(self).type_names(), crate::compiler::grammar::tok_text(old(self).src@, old(self).pos())) is Some
                ==> final(self).clean_since(*old(self)),
    {
        proof {
            assert(tok_ty(self.src@, self.pos()) == self.curr.ty);
        }
        if !self.eat_if(TokenTy::Identifier) {
            self.eat(TokenTy::Int, SyntaxError::UnknownSymbol);
        }
        let id = self.intern_prev();
        proof {
            self.lemma_lookup_text(id);
        }
        match self.types.get(&id) {
            Some(ty) => {
                proof {
                    self.lemma_lookup_text(id);
                }
                *ty
            },
            None => {
                let e = self.error(SyntaxError::UnknownSymbol);
                self.log_err(e);
                self.synchronize();
                self.ty_interner.intern(Ty::Poisoned)
            },
        }
    }

    /// `int name() { ... }`: a function definition.
    fn function(&mut self, Ghost(target): Ghost<FunctionDecl<'src>>, Ghost(to): Ghost<int>) -> (r: Declaration<'src>)
        requires
            old(self).wf(),
        ensures
            pfunction(old(self).src@, old(self).pos(), old(self).type_names(), target, to)
                ==> final(self).clean_since(*old(self)) && final(self).pos() == to,
            final(self).step_from(*old(self)),
            final(self).names_same(*old(self)),
            decl_ok(r, old(self).src@.len()),
            final(self).clean_since(*old(self)) ==> final(self).moved_past(*old(self))
                && (r matches Declaration::Fn(f) && pfunction(old(self).src@, old(self).pos(), old(self).type_names(), f, final(self).pos())),
    {
        let ghost s0 = *self;
        let ghost src = self.src@;
        let ghost ok = pfunction(src, self.pos(), self.type_names(), target, to);
        let ghost titems: Seq<Stmt<'src>> = match target.body {
            Some(b) => b@,
            None => Seq::empty(),
        };
        let ghost tp4 = tok_end(src, tok_end(src, tok_end(src, tok_end(src, self.pos()))));
        let ghost (tm, tsc) = choose|m: int, sc: Names| #![trigger pitems(src, tok_end(src, tp4), s0.type_names(), titems, m, sc)] {
            &&& extends(sc, s0.type_names())
            &&& pitems(src, tok_end(src, tp4), s0.type_names(), titems, m, sc)
            &&& tok_ty(src, m) == TokenTy::CloseBrace
            &&& tok_end(src, m) == to
        };
        proof {
            assert(tok_ty(src, self.pos()) == self.curr.ty);
        }
        self.eat(TokenTy::Int, SyntaxError::UnknownSymbol);
        let ghost s1 = *self;
        proof {
            assert(tok_ty(src, self.pos()) == self.curr.ty);
        }
        self.eat(TokenTy::Identifier, SyntaxError::ExpectedIdentifier);
        let ghost s2 = *self;
        let ctx = self.prev.ctx;
        let name = self.intern_prev();
        proof {
            assert(tok_ty(src, self.pos()) == self.curr.ty);
        }
        self.eat(TokenTy::OpenParen, SyntaxError::ExpectedFunctionArgs);
        let ghost s3 = *self;
        proof {
            assert(tok_ty(src, self.pos()) == self.curr.ty);
        }
        self.eat(TokenTy::CloseParen, SyntaxError::UnclosedDelimiter);
        let ghost s4 = *self;
        proof {
            if ok {
                assert(s4.clean_since(s0));
                assert(s4.pos() == tp4);
                assert(s4.curr.ctx.end == tok_end(src, tp4));
                assert(s4.type_names() == s0.type_names());
            }
        }
        let body = self.block_body(Ghost(titems), Ghost(tm), Ghost(tsc));
        let int_ty = self.ty_interner.intern(Ty::Int);
        let ty = self.ty_interner.intern(Ty::Function { ret: int_ty, params: Vec::new() });
        let fd = FunctionDecl {
            specifier_flags: SpecifierFlags::empty(),
            id: Identifier { name, ctx },
            ty,
            param_names: Vec::new(),
            body: Some(body),
        };
        proof {
            if self.clean_since(s0) {
                let s = self.src@;
                let p1 = tok_end(s, s0.pos());
                let p2 = tok_end(s, p1);
                let p3 = tok_end(s, p2);
                let p4 = tok_end(s, p3);
                assert(s1.pos() == p1);
                assert(s2.pos() == p2);
                assert(s3.pos() == p3);
                assert(s4.pos() == p4);
                assert(s4.curr.ctx.end == tok_end(s, p4));
                assert(tok_ty(s, s0.pos()) == TokenTy::Int);
                assert(tok_ty(s, p1) == TokenTy::Identifier);
                assert(name.text() == crate::compiler::grammar::tok_text(s, p1));
                assert(ctx.start == crate::compiler::grammar::tok_start(s, p1) && ctx.end == p2);
                assert(tok_ty(s, p2) == TokenTy::OpenParen);
                assert(tok_ty(s, p3) == TokenTy::CloseParen);
                assert(s4.type_names() == s0.type_names());
                let (m, sc) = choose|m: int, sc: Names| {
                    &&& extends(sc, s4.type_names())
                    &&& pitems(s, s4.curr.ctx.end as int, s4.type_names(), body@, m, sc)
                    &&& tok_ty(s, m) == TokenTy::CloseBrace
                    &&& tok_end(s, m) == self.pos()
                };
                assert(pitems(s, tok_end(s, p4), s0.type_names(), body@, m, sc));
                assert(fd.param_names@.len() == 0);
                assert(!fd.specifier_flags.defined && !fd.specifier_flags.is_extern && !fd.specifier_flags.is_static);
                assert(fd.id.name.text() == crate::compiler::grammar::tok_text(s, p1));
                assert(fd.body matches Some(b) && b@ == body@);
                assert(exists|m: int, sc: Names| #![trigger pitems(s, tok_end(s, p4), s0.type_names(), body@, m, sc)] {
                    &&& pitems(s, tok_end(s, p4), s0.type_names(), body@, m, sc)
                    &&& tok_ty(s, m) == TokenTy::CloseBrace
                    &&& tok_end(s, m) == self.pos()
                });
                assert(pfunction(s, s0.pos(), s0.type_names(), fd, self.pos()));
            }
        }
        Declaration::Fn(fd)
    }
}


/// Statements
impl<'src, 'p> Parser<'src, 'p> {
    /// A declaration or a statement; `None` for a `typedef`, which only
    /// records the new type name.
    fn declaration(&mut self, Ghost(target): Ghost<Option<Stmt<'src>>>, Ghost(to): Ghost<int>, Ghost(so): Ghost<Names>) -> (r: Option<Stmt<'src>>)
        requires
            old(self).wf(),
        ensures
            match target {
                None => ptypedef(old(self).src@, old(self).pos(), old(self).type_names(), to, so),
                Some(st) => pitem(old(self).src@, old(self).pos(), old(self).type_names(), st, to) && so == old(self).type_names(),
            } ==> final(self).clean_since(*old(self)) && final(self).pos() == to && final(self).type_names() == so,
            final(self).step_from(*old(self)),
            final(self).names_grew(*old(self)),
            r is Some ==> final(self).names_same(*old(self)),
            r matches Some(st) ==> stmt_ok(st, old(self).src@.len()),
            final(self).clean_since(*old(self)) ==> final(self).moved_past(*old(self)) && match r {
                None => ptypedef(old(self).src@, old(self).pos(), old(self).type_names(), final(self).pos(), final(self).type_names()),
                Some(st) => pitem(old(self).src@, old(self).pos(), old(self).type_names(), st, final(self).pos()),
            },
        decreases old(self).remaining(), 31nat,
    {
        let ghost src = self.src@;
        let ghost tst: Stmt<'src> = match target {
            Some(st) => st,
            None => vstd::pervasive::arbitrary(),
        };
        let ghost tv: VarDecl<'src> = match tst {
            Stmt::Decl(d) => match *d {
                Declaration::Var(v) => v,
                _ => vstd::pervasive::arbitrary(),
            },
            _ => vstd::pervasive::arbitrary(),
        };
        proof {
            assert(tok_ty(src, self.pos()) == self.curr.ty);
            if let Some(st) = target {
                if pitem(src, self.pos(), self.type_names(), st, to) {
                    crate::compiler::grammar::lemma_item_start(src, self.pos(), self.type_names(), st, to);
                }
            }
        }
        if let TokenTy::Typedef = self.peek() {
            self.typedef(Ghost(to), Ghost(so));
            return None;
        }
        let r = if self.next_is_type() {
            Some(self.var_declaration(Ghost(tv), Ghost(to)))
        } else {
            Some(self.stmt(Ghost(tst), Ghost(to)))
        };
        proof {
            assert(self.raw_names().subrange(0, old(self).raw_names().len() as int) =~= old(self).raw_names());
        }
        r
    }

    /// `typedef type name`: binds `name` to the type in the current scope.
    fn typedef(&mut self, Ghost(to): Ghost<int>, Ghost(so): Ghost<Names>)
        requires
            old(self).wf(),
            old(self).curr.ty == TokenTy::Typedef,
        ensures
            ptypedef(old(self).src@, old(self).pos(), old(self).type_names(), to, so)
                ==> final(self).clean_since(*old(self)) && final(self).pos() == to && final(self).type_names() == so,
            final(self).step_from(*old(self)),
            final(self).names_grew(*old(self)),
            final(self).clean_since(*old(self)) ==> final(self).moved_past(*old(self))
                && ptypedef(old(self).src@, old(self).pos(), old(self).type_names(), final(self).pos(), final(self).type_names()),
    {
        self.advance_unchecked();
        let ghost s1 = *self;
        proof {
            assert(tok_ty(self.src@, self.pos()) == self.curr.ty);
        }
        let ty = self.parse_type();
        let ghost s2 = *self;
        proof {
            assert(tok_ty(self.src@, self.pos()) == self.curr.ty);
        }
        self.eat(TokenTy::Identifier, SyntaxError::ExpectedIdentifier);
        let id = self.intern_prev();
        let ghost raw_before = self.raw_names();
        self.types.push(id, ty);
        proof {
            assert(self.raw_names() == raw_before.push((id, ty)));
            assert(raw_before == old(self).raw_names());
            assert(self.raw_names().subrange(0, old(self).raw_names().len() as int) =~= old(self).raw_names());
            lemma_names_push(raw_before, id, ty);
            assert forall|i: int| 0 <= i < self.types.model().entries.len()
                implies self.id_interner.issued(#[trigger] self.types.model().entries[i].0) by {
                if i < raw_before.len() {
                    assert(self.types.model().entries[i] == raw_before[i]);
                }
            }
            if self.clean_since(*old(self)) {
                let s = self.src@;
                assert(s1.pos() == tok_end(s, old(self).pos()));
                assert(s2.pos() == tok_end(s, s1.pos()));
                assert(ptype(s, s1.pos(), s1.type_names(), ty));
                assert(old(self).type_names().push((id.text(), ty)) == self.type_names());
            }
        }
    }

    /// `type name [= init];`
    fn var_declaration(&mut self, Ghost(target): Ghost<VarDecl<'src>>, Ghost(to): Ghost<int>) -> (r: Stmt<'src>)
        requires
            old(self).wf(),
        ensures
            pvar(old(self).src@, old(self).pos(), old(self).type_names(), target, to)
                ==> final(self).clean_since(*old(self)) && final(self).pos() == to,
            final(self).step_from(*old(self)),
            final(self).names_same(*old(self)),
            stmt_ok(r, old(self).src@.len()),
            final(self).clean_since(*old(self)) ==> final(self).moved_past(*old(self))
                && pitem(old(self).src@, old(self).pos(), old(self).type_names(), r, final(self).pos()),
        decreases old(self).remaining(), 30nat,
    {
        let ty = self.parse_type();
        let ghost s1 = *self;
        proof {
            assert(tok_ty(self.src@, self.pos()) == self.curr.ty);
        }
        self.eat(TokenTy::Identifier, SyntaxError::ExpectedIdentifier);
        let ghost s2 = *self;
        proof {
            assert(tok_ty(self.src@, self.pos()) == self.curr.ty);
        }
        let ctx = self.prev.ctx;
        let name = self.intern_prev();
        let ident = Identifier { name, ctx };
        let ghost s3 = *self;
        let has_init = self.eat_if(TokenTy::Equal);
        let ghost s4 = *self;
        let ghost tinit = match target.init {
            Some(e) => e,
            None => vstd::pervasive::arbitrary(),
        };
        let init = if has_init {
            Some(self.expr(Ghost(tinit)))
        } else {
            None
        };
        let ghost s5 = *self;
        let ghost ginit = init;
        self.eat(TokenTy::Semicolon, SyntaxError::ExpectedSemicolon);
        let v = VarDecl { specifier_flags: SpecifierFlags::empty(), id: ident, ty, init };
        let decl = Declaration::Var(v);
        proof {
            assert(decl_ok(decl, self.src@.len()));
            if self.clean_since(*old(self)) {
                let s = self.src@;
                let p1 = tok_end(s, old(self).pos());
                let p2 = tok_end(s, p1);
                assert(s1.pos() == p1);
                assert(s2.pos() == p2);
                match ginit {
                    Some(e) => {
                        assert(s4.pos() == tok_end(s, p2));
                        assert(s5.curr.ty == TokenTy::Semicolon);
                    },
                    None => {
                        assert(s5.curr == s3.curr);
                    },
                }
                assert(pvar(s, old(self).pos(), old(self).type_names(), v, self.pos()));
            }
        }
        Stmt::Decl(Box::new(decl))
    }

    fn stmt(&mut self, Ghost(target): Ghost<Stmt<'src>>, Ghost(to): Ghost<int>) -> (r: Stmt<'src>)
        requires
            old(self).wf(),
        ensures
            pstmt(old(self).src@, old(self).pos(), old(self).type_names(), target, to)
                ==> final(self).clean_since(*old(self)) && final(self).pos() == to,
            final(self).step_from(*old(self)),
            final(self).names_same(*old(self)),
            stmt_ok(r, old(self).src@.len()),
            final(self).clean_since(*old(self)) ==> final(self).moved_past(*old(self))
                && pstmt(old(self).src@, old(self).pos(), old(self).type_names(), r, final(self).pos()),
        decreases old(self).remaining(), 30nat,
    {
        proof {
            assert(tok_ty(self.src@, self.pos()) == self.curr.ty);
            if pstmt(self.src@, self.pos(), self.type_names(), target, to) {
                if let Stmt::Expr(e) = target {
                    crate::compiler::grammar::lemma_expr_start(self.src@, self.pos(), *e, 1);
                }
            }
        }
        match self.peek() {
            TokenTy::If => self.if_stmt(Ghost(target), Ghost(to)),
            TokenTy::OpenBrace => self.block(Ghost(target), Ghost(to)),
            TokenTy::Return => self.ret(Ghost(target), Ghost(to)),
            _ => self.expr_stmt(Ghost(target), Ghost(to)),
        }
    }

    /// `if (cond) stmt [else stmt]`
    #[verifier::rlimit(50)]
    fn if_stmt(&mut self, Ghost(target): Ghost<Stmt<'src>>, Ghost(to): Ghost<int>) -> (r: Stmt<'src>)
        requires
            old(self).wf(),
            old(self).curr.ty == TokenTy::If,
        ensures
            pstmt(old(self).src@, old(self).pos(), old(self).type_names(), target, to)
                ==> final(self).clean_since(*old(self)) && final(self).pos() == to,
            final(self).step_from(*old(self)),
            final(self).names_same(*old(self)),
            stmt_ok(r, old(self).src@.len()),
            final(self).clean_since(*old(self)) ==> final(self).moved_past(*old(self))
                && pstmt(old(self).src@, old(self).pos(), old(self).type_names(), r, final(self).pos()),
        decreases old(self).remaining(), 29nat,
    {
        let ghost src = self.src@;
        let ghost names = self.type_names();
        let ghost ok = pstmt(src, self.pos(), names, target, to);
        let ghost tc: Expr<'src> = match target {
            Stmt::If(c, _, _) => *c,
            _ => vstd::pervasive::arbitrary(),
        };
        let ghost ta: Stmt<'src> = match target {
            Stmt::If(_, a, _) => *a,
            _ => vstd::pervasive::arbitrary(),
        };
        let ghost tb: Option<Box<Stmt<'src>>> = match target {
            Stmt::If(_, _, b) => b,
            _ => None,
        };
        let ghost tm: int = choose|m: int| #![trigger tok_ty(src, m)] {
            &&& pstmt(src, tok_end(src, tc.ctx.end as int), names, ta, m)
            &&& match tb {
                None => tok_ty(src, m) != TokenTy::Else && m == to,
                Some(b) => tok_ty(src, m) == TokenTy::Else && pstmt(src, tok_end(src, m), names, *b, to),
            }
        };
        let ghost tbb: Stmt<'src> = match tb {
            Some(b) => *b,
            None => vstd::pervasive::arbitrary(),
        };
        proof {
            assert(tok_ty(src, self.pos()) == self.curr.ty);
            if let Stmt::Expr(e) = target {
                if ok {
                    crate::compiler::grammar::lemma_expr_start(src, self.pos(), *e, 1);
                }
            }
        }
        self.advance_unchecked();
        let ghost s1 = *self;
        proof {
            assert(tok_ty(self.src@, self.pos()) == self.curr.ty);
        }
        self.eat_no_sync(TokenTy::OpenParen, SyntaxError::ExpectedOpenParen);
        let ghost s2 = *self;
        let condition = self.expr(Ghost(tc));
        let ghost s3 = *self;
        proof {
            assert(tok_ty(self.src@, self.pos()) == self.curr.ty);
        }
        self.eat(TokenTy::CloseParen, SyntaxError::UnclosedDelimiter);
        let ghost s4 = *self;
        let then_branch = self.stmt(Ghost(ta), Ghost(tm));
        let ghost s5 = *self;
        proof {
            assert(tok_ty(self.src@, self.pos()) == self.curr.ty);
        }
        let has_else = self.eat_if(TokenTy::Else);
        let ghost s6 = *self;
        let else_branch = if has_else {
            let else_branch = self.stmt(Ghost(tbb), Ghost(to));
            Some(Box::new(else_branch))
        } else {
            None
        };
        proof {
            if ok {
                assert(s1.clean_since(*old(self)));
                assert(s2.clean_since(*old(self)));
                assert(s2.pos() == tok_end(src, tok_end(src, old(self).pos())));
                assert(op_rank(TokenTy::CloseParen) == 0);
                assert(pexpr_whole(src, s2.pos(), tc, 1));
                assert(s3.clean_since(*old(self)) && s3.pos() == tc.ctx.end);
                assert(s4.clean_since(*old(self)));
                assert(s4.pos() == tok_end(src, tc.ctx.end as int));
                assert(s5.clean_since(*old(self)) && s5.pos() == tm);
                assert(s5.type_names() == names);
                assert(s6.clean_since(*old(self)));
            }
        }
        let ghost gcond = condition;
        let ghost gthen = then_branch;
        let ghost gelse = else_branch;
        let r = Stmt::If(Box::new(condition), Box::new(then_branch), else_branch);
        proof {
            if self.clean_since(*old(self)) {
                let s = self.src@;
                let p1 = tok_end(s, old(self).pos());
                assert(s1.pos() == p1);
                assert(s2.pos() == tok_end(s, p1));
                assert(s3.curr.ty == TokenTy::CloseParen);
                assert(s4.pos() == tok_end(s, gcond.ctx.end as int));
                let m = s5.pos();
                assert(pstmt(s, tok_end(s, gcond.ctx.end as int), old(self).type_names(), gthen, m));
                assert(tok_ty(s, old(self).pos()) == TokenTy::If);
                assert(tok_ty(s, p1) == TokenTy::OpenParen);
                assert(pexpr(s, tok_end(s, p1), gcond, 1));
                assert(tok_ty(s, gcond.ctx.end as int) == TokenTy::CloseParen);
                match gelse {
                    Some(b) => {
                        assert(s6.pos() == tok_end(s, m));
                        assert(tok_ty(s, m) == TokenTy::Else);
                        assert(pstmt(s, tok_end(s, m), old(self).type_names(), *b, self.pos()));
                    },
                    None => {
                        assert(tok_ty(s, m) != TokenTy::Else);
                        assert(m == self.pos());
                    },
                }
                crate::compiler::grammar::lemma_if_stmt(s, old(self).pos(), old(self).type_names(), r, m, self.pos());
            }
        }
        r
    }

    /// `{ ... }` as a statement.
    fn block(&mut self, Ghost(target): Ghost<Stmt<'src>>, Ghost(to): Ghost<int>) -> (r: Stmt<'src>)
        requires
            old(self).wf(),
            old(self).curr.ty == TokenTy::OpenBrace,
        ensures
            pstmt(old(self).src@, old(self).pos(), old(self).type_names(), target, to)
                ==> final(self).clean_since(*old(self)) && final(self).pos() == to,
            final(self).step_from(*old(self)),
            final(self).names_same(*old(self)),
            stmt_ok(r, old(self).src@.len()),
            final(self).clean_since(*old(self)) ==> final(self).moved_past(*old(self))
                && pstmt(old(self).src@, old(self).pos(), old(self).type_names(), r, final(self).pos()),
        decreases old(self).remaining(), 29nat,
    {
        let ghost src = self.src@;
        let ghost names = self.type_names();
        let ghost titems: Seq<Stmt<'src>> = match target {
            Stmt::Block(v) => v@,
            _ => vstd::pervasive::arbitrary(),
        };
        let ghost (tm, tsc) = choose|m: int, sc: Names| #![trigger tok_ty(src, m), extends(sc, names)] {
            &&& extends(sc, names)
            &&& pitems(src, tok_end(src, self.pos()), names, titems, m, sc)
            &&& tok_ty(src, m) == TokenTy::CloseBrace
            &&& tok_end(src, m) == to
        };
        proof {
            assert(tok_end(src, self.pos()) == self.curr.ctx.end);
            assert(tok_ty(src, self.pos()) == self.curr.ty);
            if let Stmt::Expr(e) = target {
                if pstmt(src, self.pos(), names, target, to) {
                    crate::compiler::grammar::lemma_expr_start(src, self.pos(), *e, 1);
                }
            }
        }
        let stmts = self.block_body(Ghost(titems), Ghost(tm), Ghost(tsc));
        proof {
            if self.clean_since(*old(self)) {
                let s = self.src@;
                let (m, sc) = choose|m: int, sc: Names| {
                    &&& extends(sc, old(self).type_names())
                    &&& pitems(s, old(self).curr.ctx.end as int, old(self).type_names(), stmts@, m, sc)
                    &&& tok_ty(s, m) == TokenTy::CloseBrace
                    &&& tok_end(s, m) == self.pos()
                };
                crate::compiler::grammar::lemma_block_stmt(
                    s, old(self).pos(), old(self).type_names(), stmts@, Stmt::Block(stmts), m, sc, self.pos());
            }
        }
        Stmt::Block(stmts)
    }

    /// The statements of a block. The token that opens the block is taken
    /// as given; type names declared inside go out of scope at its end.
    fn block_body(&mut self, Ghost(titems): Ghost<Seq<Stmt<'src>>>, Ghost(tm): Ghost<int>, Ghost(tsc): Ghost<Names>) -> (r: Vec<Stmt<'src>>)
        requires
            old(self).wf(),
        ensures
            pitems(old(self).src@, old(self).curr.ctx.end as int, old(self).type_names(), titems, tm, tsc)
                && tok_ty(old(self).src@, tm) == TokenTy::CloseBrace
                ==> final(self).clean_since(*old(self)) && final(self).pos() == tok_end(old(self).src@, tm),
            final(self).step_from(*old(self)),
            final(self).names_same(*old(self)),
            forall|i: int| 0 <= i < r@.len() ==> stmt_ok(#[trigger] r@[i], old(self).src@.len()),
            final(self).clean_since(*old(self)) ==> final(self).moved_past(*old(self)) && exists|m: int, sc: Names|
                #![trigger pitems(old(self).src@, old(self).curr.ctx.end as int, old(self).type_names(), r@, m, sc)]
                {
                    &&& extends(sc, old(self).type_names())
                    &&& pitems(old(self).src@, old(self).curr.ctx.end as int, old(self).type_names(), r@, m, sc)
                    &&& tok_ty(old(self).src@, m) == TokenTy::CloseBrace
                    &&& tok_end(old(self).src@, m) == final(self).pos()
                },
        decreases old(self).remaining(), 28nat,
    {
        let ghost src = self.src@;
        let ghost ok = pitems(src, self.curr.ctx.end as int, self.type_names(), titems, tm, tsc) && tok_ty(src, tm) == TokenTy::CloseBrace;
        self.advance_unchecked();
        let old_scope_bottom = self.types.enter_scope();
        let ghost inner_bottom = self.types.model().bottom;
        let ghost mut grest = titems;
        let ghost p0 = self.pos();
        let ghost sc0 = self.type_names();
        let ghost raw0 = self.raw_names();
        let mut stmts: Vec<Stmt<'src>> = Vec::new();
        proof {
            assert(sc0 == old(self).type_names());
            assert(raw0.subrange(0, raw0.len() as int) =~= raw0);
            crate::compiler::grammar::lemma_items_empty(self.src@, p0, sc0);
            assert(stmts@ =~= Seq::<Stmt<'src>>::empty());
        }
        while !self.at_end() && !self.check(TokenTy::CloseBrace)
            invariant
                self.wf(),
                self.src@ == old(self).src@,
                old(self).curr.ctx.start <= self.curr.ctx.start,
                old(self).prev.ctx.start <= self.prev.ctx.start,
                old(self).prev.ctx.end <= self.prev.ctx.end,
                old(self).errors@.len() <= self.errors@.len(),
                self.types.model().bottom == inner_bottom,
                old_scope_bottom == old(self).types.model().bottom,
                old_scope_bottom <= self.types.model().bottom,
                inner_bottom == raw0.len(),
                sc0 == old(self).type_names(),
                raw0 == old(self).raw_names(),
                sc0 == names_of(raw0),
                raw0.len() <= self.raw_names().len(),
                self.raw_names().subrange(0, raw0.len() as int) == raw0,
                p0 == old(self).curr.ctx.end,
                p0 <= self.pos(),
                self.curr.ty != TokenTy::Eof ==> self.remaining() < old(self).remaining(),
                forall|i: int| 0 <= i < stmts@.len() ==> stmt_ok(#[trigger] stmts@[i], self.src@.len()),
                self.clean_since(*old(self)) ==> pitems(self.src@, p0, sc0, stmts@, self.pos(), self.type_names()),
                src == self.src@,
                ok ==> self.clean_since(*old(self)) && pitems(src, self.pos(), self.type_names(), grest, tm, tsc),
                ok ==> tok_ty(src, tm) == TokenTy::CloseBrace,
            decreases self.remaining(),
        {
            let before = self.curr.ctx.start;
            let ghost si = *self;
            let ghost items0 = stmts@;
            let ghost mut tst: Option<Stmt<'src>> = None;
            let ghost mut tq: int = 0;
            let ghost mut tso: Names = self.type_names();
            proof {
                assert(tok_ty(src, self.pos()) == self.curr.ty);
                if ok {
                    crate::compiler::grammar::lemma_items_first(src, self.pos(), self.type_names(), grest, tm, tsc);
                    if self.pos() == tm {
                        assert(false);
                    }
                    if exists|q: int, sc: Names| #![trigger ptypedef(src, self.pos(), self.type_names(), q, sc)] {
                        &&& self.pos() < q <= tm
                        &&& ptypedef(src, self.pos(), self.type_names(), q, sc)
                        &&& pitems(src, q, sc, grest, tm, tsc)
                    } {
                        let (q, sc) = choose|q: int, sc: Names| #![trigger ptypedef(src, self.pos(), self.type_names(), q, sc)] {
                            &&& self.pos() < q <= tm
                            &&& ptypedef(src, self.pos(), self.type_names(), q, sc)
                            &&& pitems(src, q, sc, grest, tm, tsc)
                        };
                        tq = q;
                        tso = sc;
                    } else {
                        let q = choose|q: int| #![trigger pitem(src, self.pos(), self.type_names(), grest[0], q)] {
                            &&& self.pos() < q <= tm
                            &&& tok_ty(src, self.pos()) != TokenTy::Eof
                            &&& pitem(src, self.pos(), self.type_names(), grest[0], q)
                            &&& pitems(src, q, self.type_names(), grest.drop_first(), tm, tsc)
                        };
                        tst = Some(grest[0]);
                        tq = q;
                    }
                }
            }
            let d = self.declaration(Ghost(tst), Ghost(tq), Ghost(tso));
            proof {
                if ok {
                    if tst is Some {
                        grest = grest.drop_first();
                    }
                    assert(self.clean_since(*old(self)));
                    assert(self.pos() == tq);
                }
            }
            let ghost sj = *self;
            proof {
                lemma_next_token(self.src@, si.pos());
                assert(self.raw_names().subrange(0, raw0.len() as int) =~= raw0) by {
                    assert(self.raw_names().subrange(0, si.raw_names().len() as int) == si.raw_names());
                    assert forall|k: int| 0 <= k < raw0.len() implies self.raw_names()[k] == raw0[k] by {
                        assert(self.raw_names().subrange(0, si.raw_names().len() as int)[k] == si.raw_names()[k]);
                        assert(si.raw_names().subrange(0, raw0.len() as int)[k] == raw0[k]);
                    }
                }
            }
            match d {
                Some(stmt) => {
                    stmts.push(stmt);
                    proof {
                        if self.clean_since(*old(self)) {
                            let s = self.src@;
                            assert(stmts@.subrange(0, stmts@.len() - 1) =~= items0);
                            assert(stmts@[stmts@.len() - 1] == stmt);
                            assert(si.clean_since(*old(self)));
                            assert(pitems(s, p0, sc0, items0, si.pos(), si.type_names()));
                            assert(si.type_names() == self.type_names());
                            crate::compiler::grammar::lemma_items_stmt(s, p0, sc0, items0, si.pos(), si.type_names(), stmt, self.pos());
                            assert(items0.push(stmt) =~= stmts@);
                            assert(pitems(s, p0, sc0, stmts@, self.pos(), self.type_names()));
                        }
                    }
                },
                None => {
                    proof {
                        if self.clean_since(*old(self)) {
                            let s = self.src@;
                            assert(si.clean_since(*old(self)));
                            assert(pitems(s, p0, sc0, stmts@, si.pos(), si.type_names()));
                            assert(ptypedef(s, si.pos(), si.type_names(), self.pos(), self.type_names()));
                            assert(p0 <= si.pos() < self.pos());
                            assert(exists|m: int, sc: Names| #![trigger ptypedef(s, m, sc, self.pos(), self.type_names())] {
                                &&& p0 <= m < self.pos()
                                &&& pitems(s, p0, sc0, stmts@, m, sc)
                                &&& ptypedef(s, m, sc, self.pos(), self.type_names())
                            });
                            crate::compiler::grammar::lemma_items_typedef(s, p0, sc0, stmts@, si.pos(), si.type_names(), self.pos(), self.type_names());
                            assert(pitems(s, p0, sc0, stmts@, self.pos(), self.type_names()));
                        }
                    }
                },
            }
            if self.curr.ctx.start == before && !self.at_end() {
                self.advance();
            }
        }
        let ghost m = self.pos();
        let ghost sc = self.type_names();
        proof {
            assert(tok_ty(src, self.pos()) == self.curr.ty);
            if ok {
                crate::compiler::grammar::lemma_items_first(src, self.pos(), self.type_names(), grest, tm, tsc);
                if self.pos() < tm {
                    if exists|q: int, sc: Names| #![trigger ptypedef(src, self.pos(), self.type_names(), q, sc)] {
                        &&& self.pos() < q <= tm
                        &&& ptypedef(src, self.pos(), self.type_names(), q, sc)
                        &&& pitems(src, q, sc, grest, tm, tsc)
                    } {
                    } else {
                        let q = choose|q: int| #![trigger pitem(src, self.pos(), self.type_names(), grest[0], q)] {
                            &&& self.pos() < q <= tm
                            &&& tok_ty(src, self.pos()) != TokenTy::Eof
                            &&& pitem(src, self.pos(), self.type_names(), grest[0], q)
                            &&& pitems(src, q, self.type_names(), grest.drop_first(), tm, tsc)
                        };
                        crate::compiler::grammar::lemma_item_start(src, self.pos(), self.type_names(), grest[0], q);
                    }
                }
                assert(self.pos() == tm);
            }
        }
        self.eat(TokenTy::CloseBrace, SyntaxError::UnclosedDelimiter);
        let ghost raw_end = self.raw_names();
        proof {
            assert(self.raw_names().subrange(0, raw0.len() as int) == raw0);
            assert(self.raw_names().take(inner_bottom as int) =~= raw0);
            lemma_names_prefix(raw_end, raw0.len() as int);
        }
        self.types.exit_scope(old_scope_bottom);
        proof {
            assert(self.raw_names() == raw0);
            if self.clean_since(*old(self)) {
                assert(pitems(self.src@, p0, sc0, stmts@, m, sc));
                assert(sc == names_of(raw_end));
                assert(extends(sc, sc0));
            }
        }
        stmts
    }

    /// An expression statement, or `;` alone.
    fn expr_stmt(&mut self, Ghost(target): Ghost<Stmt<'src>>, Ghost(to): Ghost<int>) -> (r: Stmt<'src>)
        requires
            old(self).wf(),
            old(self).curr.ty != TokenTy::If,
            old(self).curr.ty != TokenTy::OpenBrace,
            old(self).curr.ty != TokenTy::Return,
        ensures
            pstmt(old(self).src@, old(self).pos(), old(self).type_names(), target, to)
                ==> final(self).clean_since(*old(self)) && final(self).pos() == to,
            final(self).step_from(*old(self)),
            final(self).names_same(*old(self)),
            stmt_ok(r, old(self).src@.len()),
            final(self).clean_since(*old(self)) ==> final(self).moved_past(*old(self))
                && pstmt(old(self).src@, old(self).pos(), old(self).type_names(), r, final(self).pos()),
        decreases old(self).remaining(), 29nat,
    {
        let ghost te: Option<Expr<'src>> = match target {
            Stmt::Expr(e) => Some(*e),
            _ => None,
        };
        proof {
            assert(tok_ty(self.src@, self.pos()) == self.curr.ty);
            if pstmt(self.src@, self.pos(), self.type_names(), target, to) {
                if let Stmt::Expr(e) = target {
                    crate::compiler::grammar::lemma_expr_start(self.src@, self.pos(), *e, 1);
                }
            }
        }
        if let Some(expr) = self.optional_expr(TokenTy::Semicolon, SyntaxError::ExpectedSemicolon, Ghost(te), Ghost(to)) {
            Stmt::Expr(Box::new(expr))
        } else {
            Stmt::Nil
        }
    }

    /// `return expr;`
    fn ret(&mut self, Ghost(target): Ghost<Stmt<'src>>, Ghost(to): Ghost<int>) -> (r: Stmt<'src>)
        requires
            old(self).wf(),
            old(self).curr.ty == TokenTy::Return,
        ensures
            pstmt(old(self).src@, old(self).pos(), old(self).type_names(), target, to)
                ==> final(self).clean_since(*old(self)) && final(self).pos() == to,
            final(self).step_from(*old(self)),
            final(self).names_same(*old(self)),
            stmt_ok(r, old(self).src@.len()),
            final(self).clean_since(*old(self)) ==> final(self).moved_past(*old(self))
                && pstmt(old(self).src@, old(self).pos(), old(self).type_names(), r, final(self).pos()),
        decreases old(self).remaining(), 29nat,
    {
        let ghost src = self.src@;
        let ghost ok = pstmt(src, self.pos(), self.type_names(), target, to);
        let ghost te: Expr<'src> = match target {
            Stmt::Return(e) => *e,
            _ => vstd::pervasive::arbitrary(),
        };
        self.advance_unchecked();
        let ghost s1 = *self;
        proof {
            if ok {
                assert(tok_ty(src, old(self).pos()) == old(self).curr.ty);
                if let Stmt::Expr(e) = target {
                    crate::compiler::grammar::lemma_expr_start(src, old(self).pos(), *e, 1);
                }
                assert(target is Return);
                assert(pexpr(src, tok_end(src, old(self).pos()), te, 1));
                assert(tok_ty(src, te.ctx.end as int) == TokenTy::Semicolon);
                assert(op_rank(TokenTy::Semicolon) == 0);
                assert(s1.pos() == tok_end(src, old(self).pos()));
                assert(pexpr_whole(src, s1.pos(), te, 1));
            }
        }
        let expr = self.expr(Ghost(te));
        let ghost s2 = *self;
        proof {
            assert(tok_ty(self.src@, self.pos()) == self.curr.ty);
        }
        self.eat(TokenTy::Semicolon, SyntaxError::ExpectedSemicolon);
        proof {
            if self.clean_since(*old(self)) {
                assert(s2.curr.ty == TokenTy::Semicolon);
                assert(s1.pos() == tok_end(self.src@, old(self).pos()));
            }
        }
        Stmt::Return(Box::new(expr))
    }

    /// A placeholder for a malformed expression at the current token;
    /// records `err` unless the token is itself a lexing error.
    fn poison_expr(&mut self, err: SyntaxError) -> (r: Expr<'src>)
        requires
            old(self).wf(),
        ensures
            final(self).step_from(*old(self)),
            final(self).names_same(*old(self)),
            expr_ok(r, old(self).src@.len()),
            old(self).curr.ctx.start <= r.ctx.start <= final(self).curr.ctx.start,
            final(self).clean_since(*old(self)) ==> final(self).curr.ty is Error,
    {
        if !matches!(self.peek(), TokenTy::Error(_)) {
            let e = self.error_at(err);
            self.log_err(e);
        }
        let ctx = self.curr.ctx;
        self.synchronize();
        Expr { expr: ExprTy::Poisoned, ctx }
    }

    /// Nothing if the next token is `ender`, else an expression followed by
    /// `;`.
    fn optional_expr(&mut self, ender: TokenTy, err: SyntaxError, Ghost(target): Ghost<Option<Expr<'src>>>, Ghost(to): Ghost<int>) -> (r: Option<Expr<'src>>)
        requires
            old(self).wf(),
        ensures
            !crate::compiler::grammar::expr_start(ender) && match target {
                None => tok_ty(old(self).src@, old(self).pos()) == ender && tok_end(old(self).src@, old(self).pos()) == to,
                Some(e) => {
                    &&& pexpr(old(self).src@, old(self).pos(), e, 1)
                    &&& tok_ty(old(self).src@, e.ctx.end as int) == TokenTy::Semicolon
                    &&& tok_end(old(self).src@, e.ctx.end as int) == to
                },
            } ==> final(self).clean_since(*old(self)) && final(self).pos() == to,
            final(self).step_from(*old(self)),
            final(self).names_same(*old(self)),
            r matches Some(e) ==> expr_ok(e, old(self).src@.len()),
            final(self).clean_since(*old(self)) ==> final(self).moved_past(*old(self)) && match r {
                None => tok_ty(old(self).src@, old(self).pos()) == ender && tok_end(old(self).src@, old(self).pos()) == final(self).pos(),
                Some(e) => {
                    &&& pexpr(old(self).src@, old(self).pos(), e, 1)
                    &&& tok_ty(old(self).src@, e.ctx.end as int) == TokenTy::Semicolon
                    &&& tok_end(old(self).src@, e.ctx.end as int) == final(self).pos()
                },
            },
        decreases old(self).remaining(), 28nat,
    {
        let ghost src = self.src@;
        let ghost te: Expr<'src> = match target {
            Some(e) => e,
            None => vstd::pervasive::arbitrary(),
        };
        proof {
            assert(tok_ty(self.src@, self.pos()) == self.curr.ty);
            if let Some(e) = target {
                if pexpr(src, self.pos(), e, 1) {
                    crate::compiler::grammar::lemma_expr_start(src, self.pos(), e, 1);
                    assert(op_rank(TokenTy::Semicolon) == 0);
                }
            }
        }
        if self.eat_if(ender) {
            None
        } else {
            let expr = self.expr(Ghost(te));
            let ghost s1 = *self;
            proof {
                assert(tok_ty(self.src@, self.pos()) == self.curr.ty);
            }
            self.eat(TokenTy::Semicolon, err);
            proof {
                if self.clean_since(*old(self)) {
                    assert(s1.curr.ty == TokenTy::Semicolon);
                }
            }
            Some(expr)
        }
    }

    fn expr(&mut self, Ghost(target): Ghost<Expr<'src>>) -> (r: Expr<'src>)
        requires
            old(self).wf(),
        ensures
            pexpr_whole(old(self).src@, old(self).pos(), target, 1)
                ==> final(self).clean_since(*old(self)) && final(self).pos() == target.ctx.end,
            final(self).step_from(*old(self)),
            final(self).clean_since(*old(self)) && !(final(self).curr.ty is Error) ==> final(self).moved_past(*old(self)),
            final(self).names_same(*old(self)),
            expr_ok(r, old(self).src@.len()),
            old(self).curr.ctx.start <= r.ctx.start <= final(self).curr.ctx.start,
            final(self).clean_since(*old(self)) ==> final(self).done(old(self).prev.ctx.end as int, r, 1),
            op_rank(final(self).curr.ty) < 1,
        decreases old(self).remaining(), 20nat,
    {
        self.expr_with_precedence(Precedence::Lowest.up(), Ghost(target))
    }

    /// An expression whose operators bind at least as tightly as `prec`.
    fn expr_with_precedence(&mut self, prec: Precedence, Ghost(target): Ghost<Expr<'src>>) -> (r: Expr<'src>)
        requires
            old(self).wf(),
            1 <= prec_rank(prec) <= 13,
        ensures
            pexpr_whole(old(self).src@, old(self).pos(), target, prec_rank(prec))
                ==> final(self).clean_since(*old(self)) && final(self).pos() == target.ctx.end,
            final(self).step_from(*old(self)),
            final(self).clean_since(*old(self)) && !(final(self).curr.ty is Error) ==> final(self).moved_past(*old(self)),
            final(self).names_same(*old(self)),
            expr_ok(r, old(self).src@.len()),
            old(self).curr.ctx.start <= r.ctx.start <= final(self).curr.ctx.start,
            final(self).clean_since(*old(self)) ==> final(self).done(old(self).prev.ctx.end as int, r, prec_rank(prec)),
            op_rank(final(self).curr.ty) < prec_rank(prec),
        decreases old(self).remaining(), 19nat,
    {
        let ghost from = self.prev.ctx.end as int;
        let ghost whole = pexpr_whole(self.src@, from, target, prec_rank(prec));
        let ghost leaf = spine_leaf(self.src@, from, target);
        proof {
            if whole {
                lemma_top_may_follow(self.src@, from, target, prec_rank(prec), op_rank(tok_ty(self.src@, target.ctx.end as int)));
                lemma_spine_leaf(self.src@, from, target, prec_rank(prec));
            }
        }
        let expr = self.prefix_expr(Ghost(leaf));
        let ghost mid = *self;
        proof {
            if self.clean_since(*old(self)) && !(self.curr.ty is Error) {
                lemma_pexpr_looser(self.src@, from, expr, 13, prec_rank(prec));
            }
        }
        let r = self.anyfix_expr(expr, prec, Ghost(from), Ghost(target));
        r
    }

    fn prefix_expr(&mut self, Ghost(leaf): Ghost<Expr<'src>>) -> (r: Expr<'src>)
        requires
            old(self).wf(),
        ensures
            pexpr(old(self).src@, old(self).pos(), leaf, 13)
                && may_follow(old(self).src@, old(self).pos(), leaf, op_rank(tok_ty(old(self).src@, leaf.ctx.end as int)))
                && (pgroup(old(self).src@, old(self).pos(), leaf.expr, leaf.ctx.end as int) || leaf.expr is Constant
                    || leaf.expr is Var || leaf.expr is Unary)
                ==> final(self).clean_since(*old(self)) && final(self).pos() == leaf.ctx.end,
            final(self).step_from(*old(self)),
            final(self).clean_since(*old(self)) && !(final(self).curr.ty is Error) ==> final(self).moved_past(*old(self)),
            final(self).names_same(*old(self)),
            expr_ok(r, old(self).src@.len()),
            old(self).curr.ctx.start <= r.ctx.start <= final(self).curr.ctx.start,
            final(self).clean_since(*old(self)) ==> final(self).ready(old(self).prev.ctx.end as int, r, 13),
        decreases old(self).remaining(), 18nat,
    {
        let ghost from = self.prev.ctx.end as int;
        let ghost s = self.src@;
        let ghost operand = match leaf.expr {
            ExprTy::Unary(_, x) => *x,
            _ => leaf,
        };
        let ghost inner = if pgroup(s, from, leaf.expr, leaf.ctx.end as int) {
            let m = tok_end(s, from);
            let q = choose|q: int|
                {
                    &&& from < tok_end(s, from) <= q < leaf.ctx.end
                    &&& tok_ty(s, q) == TokenTy::CloseParen
                    &&& tok_end(s, q) == leaf.ctx.end
                    &&& ptree(s, m, leaf.expr, q, 1)
                };
            Expr { expr: leaf.expr, ctx: Context { start: tok_start(s, m) as usize, end: q as usize } }
        } else {
            leaf
        };
        proof {
            if pexpr(s, from, leaf, 13) && pgroup(s, from, leaf.expr, leaf.ctx.end as int) {
                let m = tok_end(s, from);
                let q = inner.ctx.end as int;
                lemma_next_token(s, from);
                assert(from < tok_end(s, from) <= q < leaf.ctx.end);
                lemma_next_token(s, m);
                self.lexer.lemma_source_fits();
                assert(inner.ctx.start == tok_start(s, m));
                assert(pexpr_whole(s, m, inner, 1));
            }
        }
        let r = match self.peek() {
            TokenTy::PlusPlus | TokenTy::MinusMinus | TokenTy::Plus | TokenTy::Minus | TokenTy::Tilde
            | TokenTy::Bang => self.unary(Ghost(operand)),
            TokenTy::Const => self.constant(),
            TokenTy::Identifier => self.ident(),
            TokenTy::OpenParen => self.grouping(Ghost(inner)),
            _ => self.poison_expr(SyntaxError::InvalidExpr),
        };
        proof {
            if self.clean_since(*old(self)) && !(self.curr.ty is Error) {
                let rk = lhs_rank(self.curr.ty);
                lemma_op_rank_bound(self.curr.ty);
                if pexpr(self.src@, from, r, 15) {
                    lemma_pexpr_looser(self.src@, from, r, 15, 13);
                    lemma_pexpr_looser(self.src@, from, r, 15, rk);
                } else {
                    lemma_pexpr_looser(self.src@, from, r, 13, rk);
                }
            }
        }
        r
    }

    /// Extends `expr` with infix and postfix operators binding at least as
    /// tightly as `old_prec`; `first` was read from position `from`.
    fn anyfix_expr(&mut self, first: Expr<'src>, old_prec: Precedence, Ghost(from): Ghost<int>, Ghost(target): Ghost<Expr<'src>>) -> (r: Expr<'src>)
        requires
            old(self).wf(),
            1 <= prec_rank(old_prec) <= 13,
            expr_ok(first, old(self).src@.len()),
            first.ctx.start <= old(self).curr.ctx.start,
        ensures
            final(self).step_from(*old(self)),
            final(self).names_same(*old(self)),
            expr_ok(r, old(self).src@.len()),
            r.ctx.start == first.ctx.start,
            r.ctx.start <= final(self).curr.ctx.start,
            op_rank(final(self).curr.ty) < prec_rank(old_prec),
            final(self).clean_since(*old(self)) && old(self).ready(from, first, prec_rank(old_prec))
                ==> final(self).done(from, r, prec_rank(old_prec)),
            old(self).curr.ty is Error ==> final(self).curr == old(self).curr,
            pexpr_whole(old(self).src@, from, target, prec_rank(old_prec)) && on_spine(old(self).src@, from, target, old(self).pos())
                ==> final(self).clean_since(*old(self)) && final(self).pos() == target.ctx.end,
        decreases old(self).remaining(), 18nat,
    {
        let ghost first_start = first.ctx.start;
        let ghost s = self.src@;
        let ghost whole = pexpr_whole(s, from, target, prec_rank(old_prec)) && on_spine(s, from, target, self.pos());
        proof {
            if whole {
                lemma_top_may_follow(s, from, target, prec_rank(old_prec), op_rank(tok_ty(s, target.ctx.end as int)));
            }
        }
        let mut expr = first;
        loop
            invariant
                first_start == first.ctx.start,
                self.step_from(*old(self)),
                prec_rank(old_prec) >= 1,
                expr_ok(expr, self.src@.len()),
                expr.ctx.start == first_start,
                expr.ctx.start <= self.curr.ctx.start,
                self.clean_since(*old(self)) && old(self).ready(from, first, prec_rank(old_prec))
                    ==> self.ready(from, expr, prec_rank(old_prec)),
                self.names_same(*old(self)),
                old(self).curr.ty is Error ==> self.curr == old(self).curr,
                s == self.src@,
                whole == (pexpr_whole(s, from, target, prec_rank(old_prec)) && on_spine(s, from, target, old(self).pos())),
                whole ==> may_follow(s, from, target, op_rank(tok_ty(s, target.ctx.end as int))),
                whole ==> self.clean_since(*old(self)) && on_spine(s, from, target, self.pos()),
            decreases self.remaining(),
        {
            let new_prec = self.peek().anyfix_precedence();
            let ghost at = self.pos();
            let ghost parent = spine_parent(s, from, target, at);
            proof {
                if whole && at != target.ctx.end {
                    lemma_spine_parent(s, from, target, prec_rank(old_prec), at);
                    assert(pnode(s, from, parent.expr, parent.ctx.end as int, prec_rank(old_prec)));
                    match parent.expr {
                        ExprTy::Binary(op, _, _) => {
                            lemma_binary_rank(op);
                        },
                        _ => {},
                    }
                    assert(op_rank(self.curr.ty) >= prec_rank(old_prec));
                }
            }
            if new_prec.lt(old_prec) {
                return expr;
            }
            let ghost before = *self;
            let ghost lhs = expr;
            self.advance_unchecked();
            proof {
                assert(self.prev_read_from(before.prev.ctx.end as int));
            }
            let ghost mid = *self;
            let ghost rhs = match parent.expr {
                ExprTy::Binary(_, _, r) => *r,
                ExprTy::Assign(_, _, r) => *r,
                ExprTy::Ternary(_, a, _) => *a,
                _ => parent,
            };
            let ghost rhs2 = match parent.expr {
                ExprTy::Ternary(_, _, b) => *b,
                _ => parent,
            };
            expr = match new_prec {
                Precedence::Assignment => self.assignment(expr, Ghost(from), Ghost(rhs)),
                Precedence::Conditional => self.ternary(expr, Ghost(from), Ghost(rhs), Ghost(rhs2)),
                Precedence::Postfix => self.postfix(expr, Ghost(from)),
                _ => self.binary(expr, new_prec, Ghost(from), Ghost(rhs)),
            };
            proof {
                if whole {
                    assert(at != target.ctx.end);
                    assert(on_spine(s, from, target, parent.ctx.end as int));
                    assert(self.pos() == parent.ctx.end);
                }
            }
            proof {
                if self.clean_since(*old(self)) && old(self).ready(from, first, prec_rank(old_prec)) {
                    assert(before.ready(from, lhs, prec_rank(old_prec)));
                    assert(!(before.curr.ty is Error));
                    assert(pexpr(self.src@, from, lhs, lhs_rank(before.curr.ty)));
                    assert(lhs.ctx.end == before.prev.ctx.end);
                    if !(self.curr.ty is Error) {
                        assert(self.ready(from, expr, prec_rank(new_prec)));
                        lemma_pexpr_looser(self.src@, from, expr, prec_rank(new_prec), prec_rank(old_prec));
                    }
                }
            }
        }
    }

    /// `lhs op= rhs`; the operator was just consumed. Assignment groups to
    /// the right.
    fn assignment(&mut self, lhs: Expr<'src>, Ghost(from): Ghost<int>, Ghost(target): Ghost<Expr<'src>>) -> (r: Expr<'src>)
        requires
            old(self).wf(),
            spec_anyfix_precedence(old(self).prev.ty) == Precedence::Assignment,
            expr_ok(lhs, old(self).src@.len()),
            lhs.ctx.start <= old(self).curr.ctx.start,
        ensures
            final(self).step_from(*old(self)),
            final(self).names_same(*old(self)),
            expr_ok(r, old(self).src@.len()),
            r.ctx.start == lhs.ctx.start,
            r.ctx.start <= final(self).curr.ctx.start,
            final(self).clean_since(*old(self)) && pexpr(old(self).src@, from, lhs, 2)
                && old(self).prev_read_from(lhs.ctx.end as int) ==> final(self).ready(from, r, 1),
            pexpr_whole(old(self).src@, old(self).pos(), target, 1)
                ==> final(self).clean_since(*old(self)) && final(self).pos() == target.ctx.end,
        decreases old(self).remaining(), 25nat,
    {
        let op = match self.prev.ty {
            TokenTy::Equal => AssignOp::Eq,
            TokenTy::PlusEqual => AssignOp::Add,
            TokenTy::MinusEqual => AssignOp::Sub,
            TokenTy::StarEqual => AssignOp::Mul,
            TokenTy::SlashEqual => AssignOp::Div,
            TokenTy::PercentEqual => AssignOp::Rem,
            TokenTy::LessLessEqual => AssignOp::Shl,
            TokenTy::GreaterGreaterEqual => AssignOp::Shr,
            TokenTy::AmpersandEqual => AssignOp::And,
            TokenTy::CaretEqual => AssignOp::Xor,
            _ => AssignOp::Or,
        };
        proof {
            assert(assign_token(op) == self.prev.ty);
        }
        let rhs = self.expr_with_precedence(Precedence::Assignment, Ghost(target));
        let ctx = Context::from_sub(&lhs.ctx, &rhs.ctx);
        let r = Expr { expr: ExprTy::Assign(op, Box::new(lhs), Box::new(rhs)), ctx };
        proof {
            if self.clean_since(*old(self)) && pexpr(old(self).src@, from, lhs, 2)
                && old(self).prev_read_from(lhs.ctx.end as int) && !(self.curr.ty is Error) {
                assert(pexpr(self.src@, from, r, 1));
                lemma_op_rank_bound(self.curr.ty);
                lemma_pexpr_looser(self.src@, from, r, 1, lhs_rank(self.curr.ty));
            }
        }
        r
    }

    /// `cond ? then : else`; the `?` was just consumed.
    fn ternary(
        &mut self,
        cond: Expr<'src>,
        Ghost(from): Ghost<int>,
        Ghost(then_target): Ghost<Expr<'src>>,
        Ghost(else_target): Ghost<Expr<'src>>,
    ) -> (r: Expr<'src>)
        requires
            old(self).wf(),
            old(self).prev.ty == TokenTy::QuestionMark,
            expr_ok(cond, old(self).src@.len()),
            cond.ctx.start <= old(self).curr.ctx.start,
        ensures
            final(self).step_from(*old(self)),
            final(self).names_same(*old(self)),
            expr_ok(r, old(self).src@.len()),
            r.ctx.start == cond.ctx.start,
            r.ctx.start <= final(self).curr.ctx.start,
            final(self).clean_since(*old(self)) && pexpr(old(self).src@, from, cond, 3)
                && old(self).prev_read_from(cond.ctx.end as int) ==> final(self).ready(from, r, 2),
            pexpr_whole(old(self).src@, old(self).pos(), then_target, 1)
                && tok_ty(old(self).src@, then_target.ctx.end as int) == TokenTy::Colon
                && pexpr_whole(old(self).src@, tok_end(old(self).src@, then_target.ctx.end as int), else_target, 2)
                ==> final(self).clean_since(*old(self)) && final(self).pos() == else_target.ctx.end,
        decreases old(self).remaining(), 25nat,
    {
        let then_branch = self.expr(Ghost(then_target));
        let ghost s1 = *self;
        self.eat(TokenTy::Colon, SyntaxError::ExpectedColon);
        let ghost s2 = *self;
        let else_branch = self.expr_with_precedence(Precedence::Conditional, Ghost(else_target));
        let ctx = Context::from_sub(&cond.ctx, &else_branch.ctx);
        let r = Expr { expr: ExprTy::Ternary(Box::new(cond), Box::new(then_branch), Box::new(else_branch)), ctx };
        proof {
            if self.clean_since(*old(self)) && pexpr(old(self).src@, from, cond, 3)
                && old(self).prev_read_from(cond.ctx.end as int) && !(self.curr.ty is Error) {
                assert(s1.curr.ty == TokenTy::Colon);
                assert(s2.prev_read_from(then_branch.ctx.end as int));
                assert(pexpr(self.src@, from, r, 2));
                lemma_op_rank_bound(self.curr.ty);
                lemma_pexpr_looser(self.src@, from, r, 2, lhs_rank(self.curr.ty));
            }
        }
        r
    }

    /// `lhs op rhs`; the operator, of precedence `prec`, was just consumed.
    /// Binary operators group to the left.
    fn binary(&mut self, lhs: Expr<'src>, prec: Precedence, Ghost(from): Ghost<int>, Ghost(target): Ghost<Expr<'src>>) -> (r: Expr<'src>)
        requires
            old(self).wf(),
            spec_anyfix_precedence(old(self).prev.ty) == prec,
            3 <= prec_rank(prec) <= 12,
            expr_ok(lhs, old(self).src@.len()),
            lhs.ctx.start <= old(self).curr.ctx.start,
        ensures
            final(self).step_from(*old(self)),
            final(self).names_same(*old(self)),
            expr_ok(r, old(self).src@.len()),
            r.ctx.start == lhs.ctx.start,
            r.ctx.start <= final(self).curr.ctx.start,
            final(self).clean_since(*old(self)) && pexpr(old(self).src@, from, lhs, prec_rank(prec))
                && old(self).prev_read_from(lhs.ctx.end as int) ==> final(self).ready(from, r, prec_rank(prec)),
            pexpr_whole(old(self).src@, old(self).pos(), target, prec_rank(prec) + 1)
                ==> final(self).clean_since(*old(self)) && final(self).pos() == target.ctx.end,
        decreases old(self).remaining(), 25nat,
    {
        let op = match self.prev.ty {
            TokenTy::Star => BinaryOp::Mul,
            TokenTy::Slash => BinaryOp::Div,
            TokenTy::Percent => BinaryOp::Rem,
            TokenTy::Plus => BinaryOp::Add,
            TokenTy::Minus => BinaryOp::Sub,
            TokenTy::GreaterGreater => BinaryOp::Shr,
            TokenTy::LessLess => BinaryOp::Shl,
            TokenTy::Greater => BinaryOp::G,
            TokenTy::GreaterEqual => BinaryOp::GE,
            TokenTy::Less => BinaryOp::L,
            TokenTy::LessEqual => BinaryOp::LE,
            TokenTy::EqualEqual => BinaryOp::E,
            TokenTy::BangEqual => BinaryOp::NE,
            TokenTy::Ampersand => BinaryOp::BitAnd,
            TokenTy::Caret => BinaryOp::BitXor,
            TokenTy::Pipe => BinaryOp::BitOr,
            TokenTy::AmpersandAmpersand => BinaryOp::And,
            _ => BinaryOp::Or,
        };
        proof {
            assert(binary_token(op) == self.prev.ty);
        }
        let up = prec.up();
        let up = if prec_rank_of(up) == 0 { Precedence::Primary } else { up };
        let rhs = self.expr_with_precedence(up, Ghost(target));
        let ctx = Context::from_sub(&lhs.ctx, &rhs.ctx);
        let r = Expr { expr: ExprTy::Binary(op, Box::new(lhs), Box::new(rhs)), ctx };
        proof {
            if self.clean_since(*old(self)) && pexpr(old(self).src@, from, lhs, prec_rank(prec))
                && old(self).prev_read_from(lhs.ctx.end as int) && !(self.curr.ty is Error) {
                assert(pexpr(self.src@, from, r, prec_rank(prec)));
                lemma_op_rank_bound(self.curr.ty);
                lemma_pexpr_looser(self.src@, from, r, prec_rank(prec), lhs_rank(self.curr.ty));
            }
        }
        r
    }

    /// A prefix operator and its operand.
    fn unary(&mut self, Ghost(target): Ghost<Expr<'src>>) -> (r: Expr<'src>)
        requires
            old(self).wf(),
            is_prefix_op(old(self).curr.ty),
        ensures
            pexpr_whole(old(self).src@, tok_end(old(self).src@, old(self).pos()), target, 13)
                ==> final(self).clean_since(*old(self)) && final(self).pos() == target.ctx.end,
            final(self).step_from(*old(self)),
            final(self).clean_since(*old(self)) && !(final(self).curr.ty is Error) ==> final(self).moved_past(*old(self)),
            final(self).names_same(*old(self)),
            expr_ok(r, old(self).src@.len()),
            old(self).curr.ctx.start <= r.ctx.start <= final(self).curr.ctx.start,
            final(self).clean_since(*old(self)) ==> final(self).done(old(self).prev.ctx.end as int, r, 13),
            op_rank(final(self).curr.ty) < 13,
        decreases old(self).remaining(), 17nat,
    {
        self.advance_unchecked();
        let op = match self.prev.ty {
            TokenTy::Plus => UnaryOp::Plus,
            TokenTy::Minus => UnaryOp::Negate,
            TokenTy::Tilde => UnaryOp::Compliment,
            TokenTy::Bang => UnaryOp::Not,
            TokenTy::PlusPlus => UnaryOp::Increment,
            _ => UnaryOp::Decrement,
        };
        proof {
            assert(prefix_token(op) == self.prev.ty);
        }
        let op_ctx = self.prev.ctx;
        let operand = self.expr_with_precedence(Precedence::Unary, Ghost(target));
        let ctx = Context::from_sub(&op_ctx, &operand.ctx);
        Expr { expr: ExprTy::Unary(op, Box::new(operand)), ctx }
    }

    /// A postfix operator just consumed after `operand`: `++` and `--`
    /// apply to it; `.`, `[` and `(` are not supported and are reported.
    fn postfix(&mut self, operand: Expr<'src>, Ghost(from): Ghost<int>) -> (r: Expr<'src>)
        requires
            old(self).wf(),
            expr_ok(operand, old(self).src@.len()),
            operand.ctx.start <= old(self).prev.ctx.start,
        ensures
            final(self).step_from(*old(self)),
            final(self).names_same(*old(self)),
            expr_ok(r, old(self).src@.len()),
            r.ctx.start == operand.ctx.start,
            r.ctx.start <= final(self).curr.ctx.start,
            final(self).curr == old(self).curr,
            final(self).clean_since(*old(self)) && pexpr(old(self).src@, from, operand, 14)
                && old(self).prev_read_from(operand.ctx.end as int) ==> final(self).ready(from, r, 14),
            old(self).prev.ty == TokenTy::PlusPlus || old(self).prev.ty == TokenTy::MinusMinus
                ==> final(self).clean_since(*old(self)) && final(self).prev == old(self).prev,
    {
        let ctx = Context::from_sub(&operand.ctx, &self.prev.ctx);
        let r = match self.prev.ty {
            TokenTy::PlusPlus => Expr { expr: ExprTy::DecInc(UnaryOp::Increment, Box::new(operand)), ctx },
            TokenTy::MinusMinus => Expr { expr: ExprTy::DecInc(UnaryOp::Decrement, Box::new(operand)), ctx },
            _ => {
                let e = self.error(SyntaxError::InvalidExpr);
                self.log_err(e);
                Expr { expr: ExprTy::Poisoned, ctx }
            },
        };
        proof {
            if self.clean_since(*old(self)) && pexpr(old(self).src@, from, operand, 14)
                && old(self).prev_read_from(operand.ctx.end as int) && !(self.curr.ty is Error) {
                assert(pexpr(self.src@, from, r, 14));
                lemma_op_rank_bound(self.curr.ty);
                lemma_pexpr_looser(self.src@, from, r, 14, lhs_rank(self.curr.ty));
            }
        }
        r
    }

    /// An integer constant; too large a value is reported.
    fn constant(&mut self) -> (r: Expr<'src>)
        requires
            old(self).wf(),
            old(self).curr.ty == TokenTy::Const,
        ensures
            final(self).step_from(*old(self)),
            final(self).clean_since(*old(self)) && !(final(self).curr.ty is Error) ==> final(self).moved_past(*old(self)),
            final(self).names_same(*old(self)),
            expr_ok(r, old(self).src@.len()),
            r.ctx == old(self).curr.ctx,
            r.ctx.start <= final(self).curr.ctx.start,
            final(self).clean_since(*old(self)) ==> final(self).done(old(self).prev.ctx.end as int, r, 15),
            final(self).prev == old(self).curr,
            (exists|v: i32| const_text(tok_text(old(self).src@, old(self).pos()), v)) ==> final(self).clean_since(*old(self)),
    {
        self.advance_unchecked();
        let ctx = self.prev.ctx;
        let mut all_digits = true;
        let mut i = ctx.start;
        let ghost text = self.src@.subrange(ctx.start as int, ctx.end as int);
        let ghost digits = forall|k: int| 0 <= k < text.len() ==> '0' <= #[trigger] text[k] <= '9';
        proof {
            assert(text =~= self.lexer.source().subrange(ctx.start as int, ctx.end as int));
        }
        while i < ctx.end
            invariant
                self.wf(),
                ctx.start <= i <= ctx.end <= self.lexer.source().len(),
                all_digits ==> forall|k: int| ctx.start <= k < i ==> '0' <= #[trigger] self.lexer.source()[k] <= '9',
                text == self.lexer.source().subrange(ctx.start as int, ctx.end as int),
                digits == forall|k: int| 0 <= k < text.len() ==> '0' <= #[trigger] text[k] <= '9',
                digits ==> all_digits,
            decreases ctx.end - i,
        {
            proof {
                if digits {
                    assert(text[i - ctx.start] == self.lexer.source()[i as int]);
                }
            }
            let c = self.lexer.char_at(i);
            if !('0' <= c && c <= '9') {
                all_digits = false;
            }
            i += 1;
        }
        let parsed = if all_digits {
            parse_decimal(&self.lexer, ctx.start, ctx.end)
        } else {
            None
        };
        match parsed {
            Some(cnst) => {
                proof {
                    let t = self.src@.subrange(ctx.start as int, ctx.end as int);
                    assert(t =~= self.lexer.source().subrange(ctx.start as int, ctx.end as int));
                    assert forall|k: int| 0 <= k < t.len() implies '0' <= #[trigger] t[k] <= '9' by {
                        assert(t[k] == self.lexer.source()[ctx.start + k]);
                    }
                }
                Expr { expr: ExprTy::Constant(cnst), ctx }
            },
            None => {
                proof {
                    if exists|v: i32| const_text(text, v) {
                        let v = choose|v: i32| const_text(text, v);
                        assert(digits);
                        lemma_decimal_nonneg(text);
                    }
                }
                let e = self.error(SyntaxError::IntegerLiteralTooLarge);
                self.log_err(e);
                Expr { expr: ExprTy::Poisoned, ctx }
            },
        }
    }

    /// A variable name.
    fn ident(&mut self) -> (r: Expr<'src>)
        requires
            old(self).wf(),
            old(self).curr.ty == TokenTy::Identifier,
        ensures
            final(self).step_from(*old(self)),
            final(self).clean_since(*old(self)) && !(final(self).curr.ty is Error) ==> final(self).moved_past(*old(self)),
            final(self).names_same(*old(self)),
            expr_ok(r, old(self).src@.len()),
            r.ctx == old(self).curr.ctx,
            r.ctx.start <= final(self).curr.ctx.start,
            final(self).clean_since(*old(self)) ==> final(self).done(old(self).prev.ctx.end as int, r, 15),
            final(self).clean_since(*old(self)),
            final(self).prev == old(self).curr,
    {
        self.advance_unchecked();
        let id = self.intern_prev();
        Expr { expr: ExprTy::Var(id), ctx: self.prev.ctx }
    }

    /// `( expr )`: the parentheses widen the range of the inner expression.
    fn grouping(&mut self, Ghost(target): Ghost<Expr<'src>>) -> (r: Expr<'src>)
        requires
            old(self).wf(),
            old(self).curr.ty == TokenTy::OpenParen,
        ensures
            pexpr_whole(old(self).src@, tok_end(old(self).src@, old(self).pos()), target, 1)
                && tok_ty(old(self).src@, target.ctx.end as int) == TokenTy::CloseParen
                ==> final(self).clean_since(*old(self)) && final(self).pos() == tok_end(old(self).src@, target.ctx.end as int),
            final(self).step_from(*old(self)),
            final(self).clean_since(*old(self)) && !(final(self).curr.ty is Error) ==> final(self).moved_past(*old(self)),
            final(self).names_same(*old(self)),
            expr_ok(r, old(self).src@.len()),
            old(self).curr.ctx.start <= r.ctx.start <= final(self).curr.ctx.start,
            final(self).clean_since(*old(self)) ==> final(self).done(old(self).prev.ctx.end as int, r, 15),
        decreases old(self).remaining(), 17nat,
    {
        let ghost from = self.prev.ctx.end as int;
        self.advance_unchecked();
        let op_ctx = self.prev.ctx;
        let ghost s1 = *self;
        let inner = self.expr(Ghost(target));
        let ghost s2 = *self;
        let Expr { expr, ctx: inner_ctx } = inner;
        self.eat(TokenTy::CloseParen, SyntaxError::UnclosedDelimiter);
        let ctx = Context::from_sub(&op_ctx, &self.prev.ctx);
        let r = Expr { expr, ctx };
        proof {
            if self.clean_since(*old(self)) {
                assert(s2.curr.ty == TokenTy::CloseParen);
                let q = inner_ctx.end as int;
                assert(pexpr(self.src@, s1.prev.ctx.end as int, inner, 1));
                assert(self.prev_read_from(q));
                lemma_next_token(self.src@, from);
                lemma_next_token(self.src@, q);
                let to = ctx.end as int;
                assert(tok_ty(self.src@, from) == TokenTy::OpenParen);
                assert(from < tok_end(self.src@, from) <= q < to);
                assert(tok_ty(self.src@, q) == TokenTy::CloseParen);
                assert(tok_end(self.src@, q) == to);
                assert(ptree(self.src@, tok_end(self.src@, from), expr, q, 1));
                assert(pgroup(self.src@, from, expr, to));
                assert(ptree(self.src@, from, expr, to, 15));
            }
        }
        r
    }
}

/// The rank of a precedence level, for use in executable code.
fn prec_rank_of(p: Precedence) -> (r: u8)
    ensures
        r == prec_rank(p),
{
    p.rank()
}

} // verus!
