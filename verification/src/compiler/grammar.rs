//! The grammar that the parser accepts, stated over the tokens that the
//! lexer produces. A position is where lexing resumes: the token read from
//! position `p` is `next_token(s, p)`, and the next one is read from where
//! it ends. Ranges in the tree are those of the tokens they cover.
use vstd::prelude::*;

use crate::arena::Handle;
use crate::compiler::ast::{AssignOp, BinaryOp, Declaration, Expr, ExprTy, FunctionDecl, Stmt, UnaryOp, VarDecl};
use crate::compiler::lexer::next_token;
use crate::compiler::parser::decimal_value;
use crate::compiler::token::{prec_rank, spec_anyfix_precedence, Precedence, TokenTy};

verus! {

/// The kind of the token read from position `p`.
pub open spec fn tok_ty(s: Seq<char>, p: int) -> TokenTy {
    next_token(s, p).0
}

/// Where the token read from position `p` starts.
pub open spec fn tok_start(s: Seq<char>, p: int) -> int {
    next_token(s, p).1
}

/// Where the token read from position `p` ends, which is where the next
/// token is read from.
pub open spec fn tok_end(s: Seq<char>, p: int) -> int {
    next_token(s, p).2
}

/// The text of the token read from position `p`.
pub open spec fn tok_text(s: Seq<char>, p: int) -> Seq<char> {
    s.subrange(tok_start(s, p), tok_end(s, p))
}

/// How tightly a token binds when it follows an operand, as a rank from 0
/// (not an operator there) to 14 (postfix).
pub open spec fn op_rank(t: TokenTy) -> nat {
    prec_rank(spec_anyfix_precedence(t))
}

/// How tightly the left operand of a token must bind: as tightly as the
/// operator itself, and strictly more for `?:` and assignment, which group
/// to the right.
pub open spec fn lhs_rank(t: TokenTy) -> nat {
    let p = spec_anyfix_precedence(t);
    if p == Precedence::Assignment || p == Precedence::Conditional {
        op_rank(t) + 1
    } else {
        op_rank(t)
    }
}

/// The token of a binary operator.
pub open spec fn binary_token(op: BinaryOp) -> TokenTy {
    match op {
        BinaryOp::Div => TokenTy::Slash,
        BinaryOp::Mul => TokenTy::Star,
        BinaryOp::Rem => TokenTy::Percent,
        BinaryOp::Add => TokenTy::Plus,
        BinaryOp::Sub => TokenTy::Minus,
        BinaryOp::L => TokenTy::Less,
        BinaryOp::LE => TokenTy::LessEqual,
        BinaryOp::G => TokenTy::Greater,
        BinaryOp::GE => TokenTy::GreaterEqual,
        BinaryOp::E => TokenTy::EqualEqual,
        BinaryOp::NE => TokenTy::BangEqual,
        BinaryOp::Shl => TokenTy::LessLess,
        BinaryOp::Shr => TokenTy::GreaterGreater,
        BinaryOp::BitAnd => TokenTy::Ampersand,
        BinaryOp::BitXor => TokenTy::Caret,
        BinaryOp::BitOr => TokenTy::Pipe,
        BinaryOp::And => TokenTy::AmpersandAmpersand,
        BinaryOp::Or => TokenTy::PipePipe,
    }
}

/// The token of an assignment operator.
pub open spec fn assign_token(op: AssignOp) -> TokenTy {
    match op {
        AssignOp::Eq => TokenTy::Equal,
        AssignOp::Div => TokenTy::SlashEqual,
        AssignOp::Mul => TokenTy::StarEqual,
        AssignOp::Rem => TokenTy::PercentEqual,
        AssignOp::Add => TokenTy::PlusEqual,
        AssignOp::Sub => TokenTy::MinusEqual,
        AssignOp::Shl => TokenTy::LessLessEqual,
        AssignOp::Shr => TokenTy::GreaterGreaterEqual,
        AssignOp::And => TokenTy::AmpersandEqual,
        AssignOp::Xor => TokenTy::CaretEqual,
        AssignOp::Or => TokenTy::PipeEqual,
    }
}

/// The token of a prefix operator.
pub open spec fn prefix_token(op: UnaryOp) -> TokenTy {
    match op {
        UnaryOp::Increment => TokenTy::PlusPlus,
        UnaryOp::Decrement => TokenTy::MinusMinus,
        UnaryOp::Compliment => TokenTy::Tilde,
        UnaryOp::Negate => TokenTy::Minus,
        UnaryOp::Not => TokenTy::Bang,
        UnaryOp::Plus => TokenTy::Plus,
    }
}

/// The digits of an integer constant, and the value they denote.
pub open spec fn const_text(t: Seq<char>, v: i32) -> bool {
    &&& forall|k: int| 0 <= k < t.len() ==> '0' <= #[trigger] t[k] <= '9'
    &&& decimal_value(t) == v
}

/// The tokens read from `from` up to `e.ctx.end` form the expression `e`,
/// which binds at least as tightly as rank `lvl`; `e.ctx` starts where its
/// first token does.
pub open spec fn pexpr(s: Seq<char>, from: int, e: Expr, lvl: nat) -> bool
    decreases e, 0int,
{
    e.ctx.start == tok_start(s, from) && ptree(s, from, e.expr, e.ctx.end as int, lvl)
}

/// The tokens read from `from` up to `to` form the expression `t`, bound at
/// least as tightly as rank `lvl`, possibly within parentheses; a
/// parenthesised expression is primary (rank 15) whatever it holds.
pub open spec fn ptree(s: Seq<char>, from: int, t: ExprTy, to: int, lvl: nat) -> bool
    decreases t, if from <= to { to - from + 2 } else { 1 },
{
    ||| pnode(s, from, t, to, lvl)
    ||| lvl <= 15 && pgroup(s, from, t, to)
}

/// The tokens read from `from` up to `to` are `(`, then tokens that form
/// the expression `t`, then `)`.
pub open spec fn pgroup(s: Seq<char>, from: int, t: ExprTy, to: int) -> bool
    decreases t, if from <= to { to - from + 1 } else { 0 },
{
    &&& tok_ty(s, from) == TokenTy::OpenParen
    &&& exists|q: int|
        #![trigger tok_ty(s, q)]
        {
            &&& from < tok_end(s, from) <= q < to
            &&& tok_ty(s, q) == TokenTy::CloseParen
            &&& tok_end(s, q) == to
            &&& ptree(s, tok_end(s, from), t, q, 1)
        }
}

/// The tokens read from `from` up to `to` form the expression `t` itself,
/// without enclosing parentheses: operators group by their rank, binary
/// operators to the left, assignment and `?:` to the right.
pub open spec fn pnode(s: Seq<char>, from: int, t: ExprTy, to: int, lvl: nat) -> bool
    decreases t, 0int,
{
    match t {
        ExprTy::Constant(v) => {
            &&& lvl <= 15
            &&& tok_ty(s, from) == TokenTy::Const
            &&& tok_end(s, from) == to
            &&& const_text(tok_text(s, from), v)
        },
        ExprTy::Var(name) => {
            &&& lvl <= 15
            &&& tok_ty(s, from) == TokenTy::Identifier
            &&& tok_end(s, from) == to
            &&& name.text() == tok_text(s, from)
        },
        ExprTy::Unary(op, x) => {
            &&& lvl <= 13
            &&& tok_ty(s, from) == prefix_token(op)
            &&& pexpr(s, tok_end(s, from), *x, 13)
            &&& x.ctx.end == to
        },
        ExprTy::DecInc(op, x) => {
            &&& lvl <= 14
            &&& (op == UnaryOp::Increment || op == UnaryOp::Decrement)
            &&& pexpr(s, from, *x, 14)
            &&& tok_ty(s, x.ctx.end as int) == prefix_token(op)
            &&& tok_end(s, x.ctx.end as int) == to
        },
        ExprTy::Binary(op, l, r) => {
            let rank = op_rank(binary_token(op));
            &&& lvl <= rank
            &&& pexpr(s, from, *l, rank)
            &&& tok_ty(s, l.ctx.end as int) == binary_token(op)
            &&& pexpr(s, tok_end(s, l.ctx.end as int), *r, rank + 1)
            &&& r.ctx.end == to
        },
        ExprTy::Assign(op, l, r) => {
            &&& lvl <= 1
            &&& pexpr(s, from, *l, 2)
            &&& tok_ty(s, l.ctx.end as int) == assign_token(op)
            &&& pexpr(s, tok_end(s, l.ctx.end as int), *r, 1)
            &&& r.ctx.end == to
        },
        ExprTy::Ternary(c, a, b) => {
            &&& lvl <= 2
            &&& pexpr(s, from, *c, 3)
            &&& tok_ty(s, c.ctx.end as int) == TokenTy::QuestionMark
            &&& pexpr(s, tok_end(s, c.ctx.end as int), *a, 1)
            &&& tok_ty(s, a.ctx.end as int) == TokenTy::Colon
            &&& pexpr(s, tok_end(s, a.ctx.end as int), *b, 2)
            &&& b.ctx.end == to
        },
        _ => false,
    }
}

/// No token binds as tightly as a primary expression; only the assignment
/// operators have rank 1 and only `?` rank 2.
pub proof fn lemma_op_rank_bound(t: TokenTy)
    ensures
        op_rank(t) <= 14,
        lhs_rank(t) <= 14,
        op_rank(t) <= lhs_rank(t),
        op_rank(t) != 1 && op_rank(t) != 2 ==> lhs_rank(t) == op_rank(t),
        op_rank(t) == 1 ==> lhs_rank(t) == 2,
        op_rank(t) == 2 ==> lhs_rank(t) == 3,
{
}

/// A derivation at one rank is one at every looser rank.
pub proof fn lemma_pexpr_looser(s: Seq<char>, from: int, e: Expr, hi: nat, lo: nat)
    requires
        pexpr(s, from, e, hi),
        lo <= hi,
    ensures
        pexpr(s, from, e, lo),
{
    let to = e.ctx.end as int;
    if !pnode(s, from, e.expr, to, hi) {
        assert(pgroup(s, from, e.expr, to));
    }
}

/// `e` is an expression read from `from`, bound at least as tightly as
/// rank `p`, and the token after it binds less tightly: reading from `from`
/// at rank `p` reads exactly `e`.
pub open spec fn pexpr_whole(s: Seq<char>, from: int, e: Expr, p: nat) -> bool {
    pexpr(s, from, e, p) && op_rank(tok_ty(s, e.ctx.end as int)) < p
}

/// The rank of the expression `e` as read from `from`: a parenthesised
/// expression is primary; otherwise the rank of its operator.
pub open spec fn node_rank(s: Seq<char>, from: int, e: Expr) -> nat {
    if pgroup(s, from, e.expr, e.ctx.end as int) {
        15
    } else {
        match e.expr {
            ExprTy::Constant(_) => 15,
            ExprTy::Var(_) => 15,
            ExprTy::Unary(_, _) => 13,
            ExprTy::DecInc(_, _) => 14,
            ExprTy::Binary(op, _, _) => op_rank(binary_token(op)),
            ExprTy::Assign(_, _, _) => 1,
            ExprTy::Ternary(_, _, _) => 2,
            _ => 0,
        }
    }
}

/// A token of rank `c` may follow `e`, read from `from`, without extending
/// its last operand: it binds less tightly than that operand must.
pub open spec fn may_follow(s: Seq<char>, from: int, e: Expr, c: nat) -> bool {
    !pgroup(s, from, e.expr, e.ctx.end as int) ==> match e.expr {
        ExprTy::Binary(op, _, _) => c < op_rank(binary_token(op)) + 1,
        ExprTy::Assign(_, _, _) => c < 1,
        ExprTy::Ternary(_, _, _) => c < 2,
        ExprTy::Unary(_, _) => c < 13,
        _ => true,
    }
}

/// Some expression on the left spine of `e`, read from `from`, ends at
/// `end`: `e` itself, or, when `e` is an operator node outside
/// parentheses, one on the spine of its left operand.
pub open spec fn on_spine(s: Seq<char>, from: int, e: Expr, end: int) -> bool
    decreases e,
{
    ||| e.ctx.end == end
    ||| !pgroup(s, from, e.expr, e.ctx.end as int) && match e.expr {
        ExprTy::Binary(_, l, _) => on_spine(s, from, *l, end),
        ExprTy::Assign(_, l, _) => on_spine(s, from, *l, end),
        ExprTy::Ternary(c, _, _) => on_spine(s, from, *c, end),
        ExprTy::DecInc(_, x) => on_spine(s, from, *x, end),
        _ => false,
    }
}

/// The expression on the left spine of `e` whose left operand ends at
/// `end`.
pub open spec fn spine_parent(s: Seq<char>, from: int, e: Expr, end: int) -> Expr
    decreases e,
{
    if pgroup(s, from, e.expr, e.ctx.end as int) {
        e
    } else {
        match e.expr {
            ExprTy::Binary(_, l, _) => if l.ctx.end == end { e } else { spine_parent(s, from, *l, end) },
            ExprTy::Assign(_, l, _) => if l.ctx.end == end { e } else { spine_parent(s, from, *l, end) },
            ExprTy::Ternary(c, _, _) => if c.ctx.end == end { e } else { spine_parent(s, from, *c, end) },
            ExprTy::DecInc(_, x) => if x.ctx.end == end { e } else { spine_parent(s, from, *x, end) },
            _ => e,
        }
    }
}

/// The bottom of the left spine of `e`: a parenthesised expression, a
/// constant, a name or a prefix operation.
pub open spec fn spine_leaf(s: Seq<char>, from: int, e: Expr) -> Expr
    decreases e,
{
    if pgroup(s, from, e.expr, e.ctx.end as int) {
        e
    } else {
        match e.expr {
            ExprTy::Binary(_, l, _) => spine_leaf(s, from, *l),
            ExprTy::Assign(_, l, _) => spine_leaf(s, from, *l),
            ExprTy::Ternary(c, _, _) => spine_leaf(s, from, *c),
            ExprTy::DecInc(_, x) => spine_leaf(s, from, *x),
            _ => e,
        }
    }
}

/// The binary operators rank between `||` (3) and `*` (12).
pub proof fn lemma_binary_rank(op: BinaryOp)
    ensures
        3 <= op_rank(binary_token(op)) <= 12,
        lhs_rank(binary_token(op)) == op_rank(binary_token(op)),
{
}

/// The left operand of an operator node, when `e` is one.
pub open spec fn left_child(e: Expr) -> Option<Expr> {
    match e.expr {
        ExprTy::Binary(_, l, _) => Some(*l),
        ExprTy::Assign(_, l, _) => Some(*l),
        ExprTy::Ternary(c, _, _) => Some(*c),
        ExprTy::DecInc(_, x) => Some(*x),
        _ => None,
    }
}

/// The left operand of an operator node may be followed by its operator.
pub proof fn lemma_lhs_may_follow(s: Seq<char>, from: int, e: Expr, p: nat)
    requires
        pexpr(s, from, e, p),
        !pgroup(s, from, e.expr, e.ctx.end as int),
        left_child(e) is Some,
    ensures
        may_follow(s, from, left_child(e).unwrap(), op_rank(tok_ty(s, left_child(e).unwrap().ctx.end as int))),
{
    let l = left_child(e).unwrap();
    let need: nat = match e.expr {
        ExprTy::Binary(op, _, _) => op_rank(binary_token(op)),
        ExprTy::Assign(_, _, _) => 2,
        ExprTy::Ternary(_, _, _) => 3,
        _ => 14,
    };
    let c = op_rank(tok_ty(s, l.ctx.end as int));
    assert(pnode(s, from, e.expr, e.ctx.end as int, p));
    assert(pexpr(s, from, l, need));
    match e.expr {
        ExprTy::Binary(op, _, _) => {
            lemma_binary_rank(op);
            assert(c == need);
        },
        ExprTy::Assign(op, _, _) => {
            assert(c == 1);
        },
        ExprTy::Ternary(_, _, _) => {
            assert(c == 2);
        },
        _ => {
            assert(c == 14);
        },
    }
    if !pgroup(s, from, l.expr, l.ctx.end as int) {
        assert(pnode(s, from, l.expr, l.ctx.end as int, need));
        match l.expr {
            ExprTy::Binary(op2, _, _) => {
                lemma_binary_rank(op2);
            },
            _ => {},
        }
    }
}

/// A complete expression may be followed by what binds less tightly than
/// it.
pub proof fn lemma_top_may_follow(s: Seq<char>, from: int, e: Expr, p: nat, c: nat)
    requires
        pexpr(s, from, e, p),
        c < p <= 13,
    ensures
        may_follow(s, from, e, c),
{
}

/// The spine of an expression ends in its leaf, whose operand, for a prefix
/// operation, is followed by what binds less tightly than it.
pub proof fn lemma_spine_leaf(s: Seq<char>, from: int, e: Expr, p: nat)
    requires
        pexpr(s, from, e, p),
        may_follow(s, from, e, op_rank(tok_ty(s, e.ctx.end as int))),
    ensures
        on_spine(s, from, e, spine_leaf(s, from, e).ctx.end as int),
        pexpr(s, from, spine_leaf(s, from, e), 13),
        may_follow(s, from, spine_leaf(s, from, e), op_rank(tok_ty(s, spine_leaf(s, from, e).ctx.end as int))),
        pgroup(s, from, spine_leaf(s, from, e).expr, spine_leaf(s, from, e).ctx.end as int) || match spine_leaf(s, from, e).expr {
            ExprTy::Constant(_) => true,
            ExprTy::Var(_) => true,
            ExprTy::Unary(_, _) => true,
            _ => false,
        },
    decreases e,
{
    if !pgroup(s, from, e.expr, e.ctx.end as int) {
        if left_child(e) is Some {
            lemma_lhs_may_follow(s, from, e, p);
        }
        match e.expr {
            ExprTy::Binary(_, l, _) => lemma_spine_leaf(s, from, *l, op_rank(tok_ty(s, l.ctx.end as int))),
            ExprTy::Assign(_, l, _) => lemma_spine_leaf(s, from, *l, 2),
            ExprTy::Ternary(c, _, _) => lemma_spine_leaf(s, from, *c, 3),
            ExprTy::DecInc(_, x) => lemma_spine_leaf(s, from, *x, 14),
            _ => {},
        }
    }
}

/// Going up the spine: the parent of the spine expression that ends at
/// `end` is on the spine, binds at least as tightly as the whole, and may
/// be followed by what follows it.
pub proof fn lemma_spine_parent(s: Seq<char>, from: int, e: Expr, p: nat, end: int)
    requires
        pexpr(s, from, e, p),
        may_follow(s, from, e, op_rank(tok_ty(s, e.ctx.end as int))),
        on_spine(s, from, e, end),
        end != e.ctx.end,
    ensures
        ({
            let q = spine_parent(s, from, e, end);
            &&& on_spine(s, from, e, q.ctx.end as int)
            &&& pexpr(s, from, q, p)
            &&& may_follow(s, from, q, op_rank(tok_ty(s, q.ctx.end as int)))
            &&& !pgroup(s, from, q.expr, q.ctx.end as int)
            &&& match q.expr {
                ExprTy::Binary(_, l, _) => l.ctx.end == end,
                ExprTy::Assign(_, l, _) => l.ctx.end == end,
                ExprTy::Ternary(c, _, _) => c.ctx.end == end,
                ExprTy::DecInc(_, x) => x.ctx.end == end,
                _ => false,
            }
        }),
    decreases e,
{
    if !pgroup(s, from, e.expr, e.ctx.end as int) && left_child(e) is Some {
        lemma_lhs_may_follow(s, from, e, p);
    }
    match e.expr {
        ExprTy::Binary(op, l, _) => if l.ctx.end != end {
            lemma_pexpr_looser(s, from, *l, op_rank(binary_token(op)), p);
            lemma_spine_parent(s, from, *l, p, end);
        },
        ExprTy::Assign(_, l, _) => if l.ctx.end != end {
            lemma_pexpr_looser(s, from, *l, 2, p);
            lemma_spine_parent(s, from, *l, p, end);
        },
        ExprTy::Ternary(c, _, _) => if c.ctx.end != end {
            lemma_pexpr_looser(s, from, *c, 3, p);
            lemma_spine_parent(s, from, *c, p, end);
        },
        ExprTy::DecInc(_, x) => if x.ctx.end != end {
            lemma_pexpr_looser(s, from, *x, 14, p);
            lemma_spine_parent(s, from, *x, p, end);
        },
        _ => {},
    }
}

/// Type names in scope: each name's text and the type it stands for,
/// oldest first.
pub type Names = Seq<(Seq<char>, Handle)>;

/// The type names `sc` extend `scope`: they hold its bindings, then
/// possibly more.
pub open spec fn extends(sc: Names, scope: Names) -> bool {
    scope.len() <= sc.len() && sc.subrange(0, scope.len() as int) == scope
}

/// The type most recently bound to the name `name` among `scope`.
pub open spec fn bound_text(scope: Names, name: Seq<char>) -> Option<Handle>
    decreases scope.len(),
{
    if scope.len() == 0 {
        None
    } else if scope.last().0 == name {
        Some(scope.last().1)
    } else {
        bound_text(scope.drop_last(), name)
    }
}

/// A type read from `from`: `int` or a name, whose most recent binding
/// among the type names `scope` is `h`.
pub open spec fn ptype(s: Seq<char>, from: int, scope: Names, h: Handle) -> bool {
    &&& (tok_ty(s, from) == TokenTy::Int || tok_ty(s, from) == TokenTy::Identifier)
    &&& bound_text(scope, tok_text(s, from)) == Some(h)
}

/// The token read from `from` starts a type: `int` or a type name in
/// scope.
pub open spec fn type_start(s: Seq<char>, from: int, scope: Names) -> bool {
    ||| tok_ty(s, from) == TokenTy::Int
    ||| tok_ty(s, from) == TokenTy::Identifier && bound_text(scope, tok_text(s, from)) is Some
}

/// `typedef type name` read from `from` up to `to`: `scope_out` is `scope`
/// with `name` bound to the type.
pub open spec fn ptypedef(s: Seq<char>, from: int, scope: Names, to: int, scope_out: Names) -> bool {
    let p1 = tok_end(s, from);
    let p2 = tok_end(s, p1);
    &&& tok_ty(s, from) == TokenTy::Typedef
    &&& (tok_ty(s, p1) == TokenTy::Int || tok_ty(s, p1) == TokenTy::Identifier)
    &&& bound_text(scope, tok_text(s, p1)) matches Some(h) && scope_out == scope.push((tok_text(s, p2), h))
    &&& tok_ty(s, p2) == TokenTy::Identifier
    &&& tok_end(s, p2) == to
}

/// `type name;` or `type name = init;` read from `from` up to `to`: a
/// variable declared without a storage class.
pub open spec fn pvar<'src>(s: Seq<char>, from: int, scope: Names, v: VarDecl<'src>, to: int) -> bool {
    let p1 = tok_end(s, from);
    let p2 = tok_end(s, p1);
    &&& ptype(s, from, scope, v.ty)
    &&& tok_ty(s, p1) == TokenTy::Identifier
    &&& v.id.name.text() == tok_text(s, p1)
    &&& v.id.ctx.start == tok_start(s, p1) && v.id.ctx.end == p2
    &&& !v.specifier_flags.defined && !v.specifier_flags.is_extern && !v.specifier_flags.is_static
    &&& match v.init {
        None => tok_ty(s, p2) == TokenTy::Semicolon && tok_end(s, p2) == to,
        Some(e) => {
            &&& tok_ty(s, p2) == TokenTy::Equal
            &&& pexpr(s, tok_end(s, p2), e, 1)
            &&& tok_ty(s, e.ctx.end as int) == TokenTy::Semicolon
            &&& tok_end(s, e.ctx.end as int) == to
        },
    }
}

/// The tokens read from `from` up to `to` form the statement `st`, with the
/// type names `scope`: `return e;`, `e;`, `;`, `if (c) st [else st]` or a
/// block.
pub open spec fn pstmt<'src>(s: Seq<char>, from: int, scope: Names, st: Stmt<'src>, to: int) -> bool
    decreases st, 0int,
{
    match st {
        Stmt::Return(e) => {
            &&& tok_ty(s, from) == TokenTy::Return
            &&& pexpr(s, tok_end(s, from), *e, 1)
            &&& tok_ty(s, e.ctx.end as int) == TokenTy::Semicolon
            &&& tok_end(s, e.ctx.end as int) == to
        },
        Stmt::Expr(e) => {
            &&& pexpr(s, from, *e, 1)
            &&& tok_ty(s, e.ctx.end as int) == TokenTy::Semicolon
            &&& tok_end(s, e.ctx.end as int) == to
        },
        Stmt::Nil => tok_ty(s, from) == TokenTy::Semicolon && tok_end(s, from) == to,
        Stmt::If(c, a, b) => {
            let p1 = tok_end(s, from);
            &&& tok_ty(s, from) == TokenTy::If
            &&& tok_ty(s, p1) == TokenTy::OpenParen
            &&& pexpr(s, tok_end(s, p1), *c, 1)
            &&& tok_ty(s, c.ctx.end as int) == TokenTy::CloseParen
            &&& exists|m: int|
                #![trigger tok_ty(s, m)]
                {
                    &&& pstmt(s, tok_end(s, c.ctx.end as int), scope, *a, m)
                    &&& match b {
                        None => tok_ty(s, m) != TokenTy::Else && m == to,
                        Some(b) => tok_ty(s, m) == TokenTy::Else && pstmt(s, tok_end(s, m), scope, *b, to),
                    }
                }
        },
        Stmt::Block(v) => {
            &&& tok_ty(s, from) == TokenTy::OpenBrace
            &&& exists|m: int, sc: Names|
                #![trigger tok_ty(s, m), extends(sc, scope)]
                {
                    &&& extends(sc, scope)
                    &&& pitems(s, tok_end(s, from), scope, v@, m, sc)
                    &&& tok_ty(s, m) == TokenTy::CloseBrace
                    &&& tok_end(s, m) == to
                }
        },
        _ => false,
    }
}

/// An item of a block read from `from` up to `to`: a variable declaration,
/// or a statement that does not start with a type or `typedef`.
pub open spec fn pitem<'src>(s: Seq<char>, from: int, scope: Names, st: Stmt<'src>, to: int) -> bool
    decreases st, 1int,
{
    match st {
        Stmt::Decl(d) => match *d {
            Declaration::Var(v) => pvar(s, from, scope, v, to),
            Declaration::Fn(_) => false,
        },
        _ => {
            &&& !type_start(s, from, scope)
            &&& tok_ty(s, from) != TokenTy::Typedef
            &&& pstmt(s, from, scope, st, to)
        },
    }
}

/// The tokens read from `from` up to `to` form the items of a block, which
/// give the statements `items` in order; a `typedef` gives no statement but
/// binds a type name for the items after it. The type names are `scope_in`
/// before and `scope_out` after.
pub open spec fn pitems<'src>(s: Seq<char>, from: int, scope_in: Names, items: Seq<Stmt<'src>>, to: int, scope_out: Names) -> bool
    decreases items, if from <= to { to - from + 1 } else { 0 },
{
    ||| from == to && items.len() == 0 && scope_out == scope_in
    ||| exists|m: int|
        #![trigger tok_ty(s, m)]
        {
            &&& from <= m < to
            &&& tok_ty(s, m) != TokenTy::Eof
            &&& items.len() > 0
            &&& pitems(s, from, scope_in, items.subrange(0, items.len() - 1), m, scope_out)
            &&& pitem(s, m, scope_out, items[items.len() - 1], to)
        }
    ||| exists|m: int, sc: Names|
        #![trigger ptypedef(s, m, sc, to, scope_out)]
        {
            &&& from <= m < to
            &&& pitems(s, from, scope_in, items, m, sc)
            &&& ptypedef(s, m, sc, to, scope_out)
        }
}

/// A block's items followed by a `typedef`.
pub proof fn lemma_items_typedef<'src>(
    s: Seq<char>,
    from: int,
    scope_in: Names,
    items: Seq<Stmt<'src>>,
    m: int,
    sc: Names,
    to: int,
    scope_out: Names,
)
    requires
        from <= m < to,
        pitems(s, from, scope_in, items, m, sc),
        ptypedef(s, m, sc, to, scope_out),
    ensures
        pitems(s, from, scope_in, items, to, scope_out),
{
}

/// A block's items followed by one more.
pub proof fn lemma_items_stmt<'src>(
    s: Seq<char>,
    from: int,
    scope_in: Names,
    items: Seq<Stmt<'src>>,
    m: int,
    sc: Names,
    st: Stmt<'src>,
    to: int,
)
    requires
        from <= m < to,
        tok_ty(s, m) != TokenTy::Eof,
        pitems(s, from, scope_in, items, m, sc),
        pitem(s, m, sc, st, to),
    ensures
        pitems(s, from, scope_in, items.push(st), to, sc),
{
    let w = items.push(st);
    assert(w.subrange(0, w.len() - 1) =~= items);
    assert(w[w.len() - 1] == st);
}

/// No items at all.
pub proof fn lemma_items_empty(s: Seq<char>, p: int, sc: Names)
    ensures
        pitems(s, p, sc, Seq::<Stmt>::empty(), p, sc),
{
}

/// The tokens an expression can start with.
pub open spec fn expr_start(t: TokenTy) -> bool {
    ||| t == TokenTy::OpenParen
    ||| t == TokenTy::Const
    ||| t == TokenTy::Identifier
    ||| t == TokenTy::PlusPlus
    ||| t == TokenTy::MinusMinus
    ||| t == TokenTy::Plus
    ||| t == TokenTy::Minus
    ||| t == TokenTy::Tilde
    ||| t == TokenTy::Bang
}

/// An expression starts with a token that can start one.
pub proof fn lemma_expr_start(s: Seq<char>, from: int, e: Expr, p: nat)
    requires
        pexpr(s, from, e, p),
    ensures
        expr_start(tok_ty(s, from)),
    decreases e,
{
    let to = e.ctx.end as int;
    if !pnode(s, from, e.expr, to, p) {
        assert(pgroup(s, from, e.expr, to));
    } else {
        match e.expr {
            ExprTy::Unary(op, x) => {},
            ExprTy::DecInc(op, x) => {
                lemma_expr_start(s, from, *x, 14);
            },
            ExprTy::Binary(op, l, r) => {
                lemma_expr_start(s, from, *l, op_rank(binary_token(op)));
            },
            ExprTy::Assign(op, l, r) => {
                lemma_expr_start(s, from, *l, 2);
            },
            ExprTy::Ternary(c, a, b) => {
                lemma_expr_start(s, from, *c, 3);
            },
            _ => {},
        }
    }
}

/// An item of a block starts with neither `}` nor the end of input.
pub proof fn lemma_item_start<'src>(s: Seq<char>, from: int, scope: Names, st: Stmt<'src>, to: int)
    requires
        pitem(s, from, scope, st, to),
    ensures
        tok_ty(s, from) != TokenTy::CloseBrace,
        tok_ty(s, from) != TokenTy::Eof,
        tok_ty(s, from) != TokenTy::Typedef,
{
    match st {
        Stmt::Decl(d) => {},
        Stmt::Expr(e) => {
            lemma_expr_start(s, from, *e, 1);
        },
        _ => {},
    }
}

/// The items of a block read forwards: none, or a first `typedef` or item
/// and then the rest.
pub proof fn lemma_items_first<'src>(
    s: Seq<char>,
    from: int,
    scope_in: Names,
    items: Seq<Stmt<'src>>,
    to: int,
    scope_out: Names,
)
    requires
        pitems(s, from, scope_in, items, to, scope_out),
    ensures
        from <= to,
        from == to ==> items.len() == 0 && scope_out == scope_in,
        from < to ==> {
            ||| exists|q: int, sc: Names| #![trigger ptypedef(s, from, scope_in, q, sc)] {
                &&& from < q <= to
                &&& ptypedef(s, from, scope_in, q, sc)
                &&& pitems(s, q, sc, items, to, scope_out)
            }
            ||| items.len() > 0 && exists|q: int| #![trigger pitem(s, from, scope_in, items[0], q)] {
                &&& from < q <= to
                &&& tok_ty(s, from) != TokenTy::Eof
                &&& pitem(s, from, scope_in, items[0], q)
                &&& pitems(s, q, scope_in, items.drop_first(), to, scope_out)
            }
        },
    decreases to - from,
{
    if from == to {
        if !(items.len() == 0 && scope_out == scope_in) {
            assert(false);
        }
    } else if items.len() == 0 && scope_out == scope_in && from == to {
    } else if exists|m: int| #![trigger tok_ty(s, m)] {
        &&& from <= m < to
        &&& tok_ty(s, m) != TokenTy::Eof
        &&& items.len() > 0
        &&& pitems(s, from, scope_in, items.subrange(0, items.len() - 1), m, scope_out)
        &&& pitem(s, m, scope_out, items[items.len() - 1], to)
    } {
        let m = choose|m: int| #![trigger tok_ty(s, m)] {
            &&& from <= m < to
            &&& tok_ty(s, m) != TokenTy::Eof
            &&& items.len() > 0
            &&& pitems(s, from, scope_in, items.subrange(0, items.len() - 1), m, scope_out)
            &&& pitem(s, m, scope_out, items[items.len() - 1], to)
        };
        let pre = items.subrange(0, items.len() - 1);
        let last = items[items.len() - 1];
        lemma_items_first(s, from, scope_in, pre, m, scope_out);
        if from == m {
            assert(pre.len() == 0);
            assert(items.drop_first() =~= Seq::<Stmt<'src>>::empty());
            assert(items[0] == last);
            lemma_items_empty(s, to, scope_out);
        } else {
            if exists|q: int, sc: Names| #![trigger ptypedef(s, from, scope_in, q, sc)] {
                &&& from < q <= m
                &&& ptypedef(s, from, scope_in, q, sc)
                &&& pitems(s, q, sc, pre, m, scope_out)
            } {
                let (q, sc) = choose|q: int, sc: Names| #![trigger ptypedef(s, from, scope_in, q, sc)] {
                    &&& from < q <= m
                    &&& ptypedef(s, from, scope_in, q, sc)
                    &&& pitems(s, q, sc, pre, m, scope_out)
                };
                lemma_items_stmt(s, q, sc, pre, m, scope_out, last, to);
                assert(pre.push(last) =~= items);
            } else {
                let q = choose|q: int| #![trigger pitem(s, from, scope_in, pre[0], q)] {
                    &&& from < q <= m
                    &&& tok_ty(s, from) != TokenTy::Eof
                    &&& pitem(s, from, scope_in, pre[0], q)
                    &&& pitems(s, q, scope_in, pre.drop_first(), m, scope_out)
                };
                lemma_items_first(s, q, scope_in, pre.drop_first(), m, scope_out);
                lemma_items_stmt(s, q, scope_in, pre.drop_first(), m, scope_out, last, to);
                assert(pre.drop_first().push(last) =~= items.drop_first());
                assert(pre[0] == items[0]);
            }
        }
    } else {
        let (m, sc) = choose|m: int, sc: Names| #![trigger ptypedef(s, m, sc, to, scope_out)] {
            &&& from <= m < to
            &&& pitems(s, from, scope_in, items, m, sc)
            &&& ptypedef(s, m, sc, to, scope_out)
        };
        lemma_items_first(s, from, scope_in, items, m, sc);
        if from == m {
            lemma_items_empty(s, to, scope_out);
        } else {
            if exists|q: int, sc2: Names| #![trigger ptypedef(s, from, scope_in, q, sc2)] {
                &&& from < q <= m
                &&& ptypedef(s, from, scope_in, q, sc2)
                &&& pitems(s, q, sc2, items, m, sc)
            } {
                let (q, sc2) = choose|q: int, sc2: Names| #![trigger ptypedef(s, from, scope_in, q, sc2)] {
                    &&& from < q <= m
                    &&& ptypedef(s, from, scope_in, q, sc2)
                    &&& pitems(s, q, sc2, items, m, sc)
                };
                lemma_items_first(s, q, sc2, items, m, sc);
                lemma_items_typedef(s, q, sc2, items, m, sc, to, scope_out);
            } else {
                let q = choose|q: int| #![trigger pitem(s, from, scope_in, items[0], q)] {
                    &&& from < q <= m
                    &&& tok_ty(s, from) != TokenTy::Eof
                    &&& pitem(s, from, scope_in, items[0], q)
                    &&& pitems(s, q, scope_in, items.drop_first(), m, sc)
                };
                lemma_items_first(s, q, scope_in, items.drop_first(), m, sc);
                lemma_items_typedef(s, q, scope_in, items.drop_first(), m, sc, to, scope_out);
            }
        }
    }
}

/// `if (c) a` or `if (c) a else b`, from its parts: `m` is where `a` ends.
pub proof fn lemma_if_stmt<'src>(s: Seq<char>, from: int, scope: Names, st: Stmt<'src>, m: int, to: int)
    requires
        st matches Stmt::If(c, a, b) && {
            &&& tok_ty(s, from) == TokenTy::If
            &&& tok_ty(s, tok_end(s, from)) == TokenTy::OpenParen
            &&& pexpr(s, tok_end(s, tok_end(s, from)), *c, 1)
            &&& tok_ty(s, c.ctx.end as int) == TokenTy::CloseParen
            &&& pstmt(s, tok_end(s, c.ctx.end as int), scope, *a, m)
            &&& match b {
                None => tok_ty(s, m) != TokenTy::Else && m == to,
                Some(b) => tok_ty(s, m) == TokenTy::Else && pstmt(s, tok_end(s, m), scope, *b, to),
            }
        },
    ensures
        pstmt(s, from, scope, st, to),
{
}

/// A block, from its items: `m` is where the closing `}` is read from.
pub proof fn lemma_block_stmt<'src>(
    s: Seq<char>,
    from: int,
    scope: Names,
    v: Seq<Stmt<'src>>,
    st: Stmt<'src>,
    m: int,
    sc: Names,
    to: int,
)
    requires
        st matches Stmt::Block(w) && w@ == v,
        tok_ty(s, from) == TokenTy::OpenBrace,
        extends(sc, scope),
        pitems(s, tok_end(s, from), scope, v, m, sc),
        tok_ty(s, m) == TokenTy::CloseBrace,
        tok_end(s, m) == to,
    ensures
        pstmt(s, from, scope, st, to),
{
}

/// `int name() body` read from `from` up to `to`: a function definition
/// without parameters. The token after `)` opens the body, whatever it is;
/// the body's items follow it, up to the closing `}`.
pub open spec fn pfunction<'src>(s: Seq<char>, from: int, scope: Names, f: FunctionDecl<'src>, to: int) -> bool {
    let p1 = tok_end(s, from);
    let p2 = tok_end(s, p1);
    let p3 = tok_end(s, p2);
    let p4 = tok_end(s, p3);
    &&& tok_ty(s, from) == TokenTy::Int
    &&& tok_ty(s, p1) == TokenTy::Identifier
    &&& f.id.name.text() == tok_text(s, p1)
    &&& f.id.ctx.start == tok_start(s, p1) && f.id.ctx.end == p2
    &&& tok_ty(s, p2) == TokenTy::OpenParen
    &&& tok_ty(s, p3) == TokenTy::CloseParen
    &&& !f.specifier_flags.defined && !f.specifier_flags.is_extern && !f.specifier_flags.is_static
    &&& f.param_names@.len() == 0
    &&& f.body matches Some(b) && exists|m: int, sc: Names|
        #![trigger pitems(s, tok_end(s, p4), scope, b@, m, sc)]
        {
            &&& extends(sc, scope)
            &&& pitems(s, tok_end(s, p4), scope, b@, m, sc)
            &&& tok_ty(s, m) == TokenTy::CloseBrace
            &&& tok_end(s, m) == to
        }
}

/// The tokens read from `from` up to `to` form the function definitions
/// `items`, in order.
pub open spec fn pfunctions<'src>(s: Seq<char>, from: int, scope: Names, items: Seq<Declaration<'src>>, to: int) -> bool
    decreases items.len(),
{
    if items.len() == 0 {
        from == to
    } else {
        exists|m: int|
            #![trigger tok_ty(s, m)]
            {
                &&& from <= m < to
                &&& tok_ty(s, m) == TokenTy::Int
                &&& pfunctions(s, from, scope, items.subrange(0, items.len() - 1), m)
                &&& items[items.len() - 1] matches Declaration::Fn(f) && pfunction(s, m, scope, f, to)
            }
    }
}

/// Function definitions followed by one more.
pub proof fn lemma_functions_push<'src>(
    s: Seq<char>,
    from: int,
    scope: Names,
    items: Seq<Declaration<'src>>,
    m: int,
    d: Declaration<'src>,
    to: int,
)
    requires
        from <= m < to,
        pfunctions(s, from, scope, items, m),
        d matches Declaration::Fn(f) && pfunction(s, m, scope, f, to),
    ensures
        pfunctions(s, from, scope, items.push(d), to),
{
    let w = items.push(d);
    assert(w.subrange(0, w.len() - 1) =~= items);
    assert(w[w.len() - 1] == d);
}

/// Function definitions read forwards: none, or a first one and then the
/// rest.
pub proof fn lemma_functions_first<'src>(s: Seq<char>, from: int, scope: Names, items: Seq<Declaration<'src>>, to: int)
    requires
        pfunctions(s, from, scope, items, to),
    ensures
        from <= to,
        items.len() == 0 ==> from == to,
        items.len() > 0 ==> from < to && tok_ty(s, from) == TokenTy::Int && exists|q: int| #![trigger pfunctions(s, q, scope, items.drop_first(), to)] {
            &&& from < q <= to
            &&& items[0] matches Declaration::Fn(f) && pfunction(s, from, scope, f, q)
            &&& pfunctions(s, q, scope, items.drop_first(), to)
        },
    decreases items.len(),
{
    if items.len() > 0 {
        let m = choose|m: int| #![trigger tok_ty(s, m)] {
            &&& from <= m < to
            &&& tok_ty(s, m) == TokenTy::Int
            &&& pfunctions(s, from, scope, items.subrange(0, items.len() - 1), m)
            &&& items[items.len() - 1] matches Declaration::Fn(f) && pfunction(s, m, scope, f, to)
        };
        let pre = items.subrange(0, items.len() - 1);
        lemma_functions_first(s, from, scope, pre, m);
        if pre.len() == 0 {
            assert(items.drop_first() =~= Seq::<Declaration<'src>>::empty());
            assert(pfunctions(s, to, scope, items.drop_first(), to));
        } else {
            let q = choose|q: int| #![trigger pfunctions(s, q, scope, pre.drop_first(), m)] {
                &&& from < q <= m
                &&& pre[0] matches Declaration::Fn(f) && pfunction(s, from, scope, f, q)
                &&& pfunctions(s, q, scope, pre.drop_first(), m)
            };
            lemma_functions_first(s, q, scope, pre.drop_first(), m);
            lemma_functions_push(s, q, scope, pre.drop_first(), m, items[items.len() - 1], to);
            assert(pre.drop_first().push(items[items.len() - 1]) =~= items.drop_first());
            assert(pre[0] == items[0]);
        }
    }
}

/// The whole source forms the program `items`, with the type names `scope`
/// to start with: function definitions, then the end of input.
pub open spec fn pprogram<'src>(s: Seq<char>, scope: Names, items: Seq<Declaration<'src>>) -> bool {
    exists|to: int|
        #![trigger pfunctions(s, 0, scope, items, to)]
        pfunctions(s, 0, scope, items, to) && tok_ty(s, to) == TokenTy::Eof
}

} // verus!
