//! The syntax tree rendered back as indented C-like source.
use vstd::prelude::*;

use crate::arena::Handle;
use crate::compiler::ast::{AssignOp, BinaryOp, Declaration, Expr, ExprTy, Program, Stmt, UnaryOp};
use crate::compiler::ty::{ty_printable, ty_text, Ty, TyInterner};
use crate::compiler::x86::{int_text, push_int};
use crate::text::{push_repeat, push_str, repeat, string_from_chars};

verus! {

/// Spaces per nesting level.
pub const LEVEL_SPACES: usize = 4;

/// A nesting level of the rendering.
#[derive(Clone, Copy, Debug)]
pub struct Level(usize);

/// One level deeper; the deepest level stays where it is.
pub open spec fn level_next(l: usize) -> usize {
    if l < usize::MAX {
        (l + 1) as usize
    } else {
        l
    }
}

/// One level shallower; the outermost level stays where it is.
pub open spec fn level_prev(l: usize) -> usize {
    if l > 0 {
        (l - 1) as usize
    } else {
        0
    }
}

/// The indentation of a level in spaces, at most `usize::MAX`.
pub open spec fn level_spaces(l: usize) -> nat {
    if l * LEVEL_SPACES <= usize::MAX {
        (l * LEVEL_SPACES) as nat
    } else {
        usize::MAX as nat
    }
}

/// The indentation of a level.
pub open spec fn indent(l: usize) -> Seq<char> {
    repeat(' ', level_spaces(l))
}

impl Level {
    /// How deep this level is.
    pub closed spec fn depth(self) -> usize {
        self.0
    }

    /// The outermost level.
    pub fn new() -> (r: Self)
        ensures
            r.depth() == 0,
    {
        Level(0)
    }

    /// The level one deeper.
    pub fn next(self) -> (r: Self)
        ensures
            r.depth() == level_next(self.depth()),
    {
        Level(self.0.saturating_add(1))
    }

    /// The level one shallower.
    pub fn prev(self) -> (r: Self)
        ensures
            r.depth() == level_prev(self.depth()),
    {
        Level(self.0.saturating_sub(1))
    }

    /// The indentation of this level in spaces.
    pub fn to_spaces(self) -> (r: usize)
        ensures
            r == level_spaces(self.depth()),
    {
        if self.0 <= usize::MAX / LEVEL_SPACES {
            self.0 * LEVEL_SPACES
        } else {
            usize::MAX
        }
    }
}

/// The symbol of an assignment operator.
pub open spec fn assign_op_text(op: AssignOp) -> Seq<char> {
    match op {
        AssignOp::Eq => "="@,
        AssignOp::Add => "+="@,
        AssignOp::Div => "/="@,
        AssignOp::Mul => "*="@,
        AssignOp::Rem => "%="@,
        AssignOp::Sub => "-="@,
        AssignOp::Shl => "<<="@,
        AssignOp::Shr => ">>="@,
        AssignOp::And => "&="@,
        AssignOp::Xor => "^="@,
        AssignOp::Or => "|="@,
    }
}

/// The symbol of a binary operator.
pub open spec fn binary_op_text(op: BinaryOp) -> Seq<char> {
    match op {
        BinaryOp::Add => "+"@,
        BinaryOp::Div => "/"@,
        BinaryOp::Mul => "*"@,
        BinaryOp::Rem => "%"@,
        BinaryOp::Sub => "-"@,
        BinaryOp::Shl => "<<"@,
        BinaryOp::Shr => ">>"@,
        BinaryOp::G => ">"@,
        BinaryOp::GE => ">="@,
        BinaryOp::L => "<"@,
        BinaryOp::LE => "<="@,
        BinaryOp::E => "=="@,
        BinaryOp::NE => "!="@,
        BinaryOp::BitAnd => "&"@,
        BinaryOp::BitOr => "|"@,
        BinaryOp::BitXor => "^"@,
        BinaryOp::And => "&&"@,
        BinaryOp::Or => "||"@,
    }
}

/// The symbol of a unary operator.
pub open spec fn unary_op_text(op: UnaryOp) -> Seq<char> {
    match op {
        UnaryOp::Compliment => "~"@,
        UnaryOp::Plus => "+"@,
        UnaryOp::Negate => "-"@,
        UnaryOp::Not => "!"@,
        UnaryOp::Increment => "++"@,
        UnaryOp::Decrement => "--"@,
    }
}

impl AssignOp {
    /// The operator's symbol.
    pub fn text(self) -> (r: &'static str)
        ensures
            r@ == assign_op_text(self),
    {
        match self {
            AssignOp::Eq => "=",
            AssignOp::Add => "+=",
            AssignOp::Div => "/=",
            AssignOp::Mul => "*=",
            AssignOp::Rem => "%=",
            AssignOp::Sub => "-=",
            AssignOp::Shl => "<<=",
            AssignOp::Shr => ">>=",
            AssignOp::And => "&=",
            AssignOp::Xor => "^=",
            AssignOp::Or => "|=",
        }
    }
}

impl BinaryOp {
    /// The operator's symbol.
    pub fn text(self) -> (r: &'static str)
        ensures
            r@ == binary_op_text(self),
    {
        match self {
            BinaryOp::Add => "+",
            BinaryOp::Div => "/",
            BinaryOp::Mul => "*",
            BinaryOp::Rem => "%",
            BinaryOp::Sub => "-",
            BinaryOp::Shl => "<<",
            BinaryOp::Shr => ">>",
            BinaryOp::G => ">",
            BinaryOp::GE => ">=",
            BinaryOp::L => "<",
            BinaryOp::LE => "<=",
            BinaryOp::E => "==",
            BinaryOp::NE => "!=",
            BinaryOp::BitAnd => "&",
            BinaryOp::BitOr => "|",
            BinaryOp::BitXor => "^",
            BinaryOp::And => "&&",
            BinaryOp::Or => "||",
        }
    }
}

impl UnaryOp {
    /// The operator's symbol.
    pub fn text(self) -> (r: &'static str)
        ensures
            r@ == unary_op_text(self),
    {
        match self {
            UnaryOp::Compliment => "~",
            UnaryOp::Plus => "+",
            UnaryOp::Negate => "-",
            UnaryOp::Not => "!",
            UnaryOp::Increment => "++",
            UnaryOp::Decrement => "--",
        }
    }
}

/// The texts `0..k` one after the other.
pub open spec fn concat(texts: Seq<Seq<char>>) -> Seq<char>
    decreases texts.len(),
{
    if texts.len() == 0 {
        Seq::empty()
    } else {
        concat(texts.drop_last()) + texts.last()
    }
}

/// Appending one more text to a concatenation.
proof fn lemma_concat_step(texts: Seq<Seq<char>>, k: int)
    requires
        0 <= k < texts.len(),
    ensures
        concat(texts.take(k + 1)) == concat(texts.take(k)) + texts[k],
{
    assert(texts.take(k + 1).drop_last() =~= texts.take(k));
}

/// What stands before the argument at position `i` of a call.
pub open spec fn arg_sep(i: int) -> Seq<char> {
    if i == 0 {
        Seq::empty()
    } else {
        ", "@
    }
}

/// An expression, fully parenthesised: every operator application is
/// wrapped in parentheses, a postfix `++` or `--` is written before its
/// operand, and an expression that failed to parse is `()`.
pub open spec fn expr_text(e: Expr) -> Seq<char>
    decreases e, 1int,
{
    match e.expr {
        ExprTy::Assign(op, l, r) => "("@ + expr_text(*l) + " "@ + assign_op_text(op) + " "@ + expr_text(*r) + ")"@,
        ExprTy::Binary(op, l, r) => "("@ + expr_text(*l) + " "@ + binary_op_text(op) + " "@ + expr_text(*r) + ")"@,
        ExprTy::Constant(n) => int_text(n as int),
        ExprTy::DecInc(op, a) => "("@ + unary_op_text(op) + expr_text(*a) + ")"@,
        ExprTy::Poisoned => "()"@,
        ExprTy::Ternary(c, a, b) => "("@ + expr_text(*c) + " ? "@ + expr_text(*a) + " : "@ + expr_text(*b) + ")"@,
        ExprTy::Unary(op, a) => "("@ + unary_op_text(op) + expr_text(*a) + ")"@,
        ExprTy::Var(name) => name.text(),
        ExprTy::Call(c) => expr_text(*c.operand) + "("@ + concat(call_arg_texts(e)) + ")"@,
    }
}

/// The arguments of a call expression, each with what stands before it.
pub open spec fn call_arg_texts(e: Expr) -> Seq<Seq<char>>
    decreases e, 0int,
{
    match e.expr {
        ExprTy::Call(c) => Seq::new(
            c.args@.len(),
            |i: int| if 0 <= i < c.args@.len() { arg_sep(i) + expr_text(c.args@[i]) } else { Seq::empty() },
        ),
        _ => Seq::empty(),
    }
}

impl<'src> Expr<'src> {
    /// Appends the expression's text.
    #[verifier::rlimit(40)]
    pub fn push_text(&self, out: &mut Vec<char>)
        ensures
            final(out)@ == old(out)@ + expr_text(*self),
        decreases self,
    {
        match &self.expr {
            ExprTy::Assign(op, l, r) => {
                push_str(out, "(");
                l.push_text(out);
                push_str(out, " ");
                push_str(out, op.text());
                push_str(out, " ");
                r.push_text(out);
                push_str(out, ")");
                proof {
                    assert(final(out)@ =~= old(out)@ + expr_text(*self));
                }
            },
            ExprTy::Binary(op, l, r) => {
                push_str(out, "(");
                l.push_text(out);
                push_str(out, " ");
                push_str(out, op.text());
                push_str(out, " ");
                r.push_text(out);
                push_str(out, ")");
                proof {
                    assert(final(out)@ =~= old(out)@ + expr_text(*self));
                }
            },
            ExprTy::Constant(n) => {
                push_int(out, *n);
            },
            ExprTy::DecInc(op, a) => {
                push_str(out, "(");
                push_str(out, op.text());
                a.push_text(out);
                push_str(out, ")");
                proof {
                    assert(final(out)@ =~= old(out)@ + expr_text(*self));
                }
            },
            ExprTy::Poisoned => {
                push_str(out, "()");
            },
            ExprTy::Ternary(c, a, b) => {
                push_str(out, "(");
                c.push_text(out);
                push_str(out, " ? ");
                a.push_text(out);
                push_str(out, " : ");
                b.push_text(out);
                push_str(out, ")");
                proof {
                    assert(final(out)@ =~= old(out)@ + expr_text(*self));
                }
            },
            ExprTy::Unary(op, a) => {
                push_str(out, "(");
                push_str(out, op.text());
                a.push_text(out);
                push_str(out, ")");
                proof {
                    assert(final(out)@ =~= old(out)@ + expr_text(*self));
                }
            },
            ExprTy::Var(name) => {
                push_str(out, name.get());
            },
            ExprTy::Call(c) => {
                c.operand.push_text(out);
                push_str(out, "(");
                let ghost texts = call_arg_texts(*self);
                let ghost head = out@;
                let mut k: usize = 0;
                while k < c.args.len()
                    invariant
                        k <= c.args@.len(),
                        self.expr == ExprTy::Call(*c),
                        texts.len() == c.args@.len(),
                        forall|i: int| 0 <= i < c.args@.len() ==> #[trigger] texts[i] == arg_sep(i) + expr_text(c.args@[i]),
                        out@ == head + concat(texts.take(k as int)),
                    decreases c.args@.len() - k,
                {
                    let ghost before = out@;
                    if k > 0 {
                        push_str(out, ", ");
                    }
                    proof {
                        vstd::std_specs::vec::axiom_vec_index_decreases(c.args, k as int);
                        let ghost e = *self;
                        assert(e.expr matches ExprTy::Call(cc) && cc.args == c.args);
                        assert(decreases_to!(e => c.args@[k as int]));
                    }
                    c.args[k].push_text(out);
                    proof {
                        lemma_concat_step(texts, k as int);
                        assert(out@ =~= before + texts[k as int]);
                    }
                    k += 1;
                }
                push_str(out, ")");
                proof {
                    assert(texts.take(texts.len() as int) =~= texts);
                    assert(final(out)@ =~= old(out)@ + expr_text(*self));
                }
            },
        }
    }

    /// The expression's text.
    pub fn to_string(&self) -> (r: String)
        ensures
            r@ == expr_text(*self),
    {
        let mut out: Vec<char> = Vec::new();
        self.push_text(&mut out);
        proof {
            assert(out@ =~= expr_text(*self));
        }
        string_from_chars(&out)
    }
}


/// The handle names a type that has a written form.
pub open spec fn handle_printable(tys: Seq<Ty>, h: Handle) -> bool {
    h.index < tys.len() && ty_printable(tys[h.index as int])
}

/// The written form of the type behind a handle.
pub open spec fn handle_text(tys: Seq<Ty>, h: Handle) -> Seq<char> {
    ty_text(tys[h.index as int])
}

/// Whether a type handle can be written out.
fn check_handle(tys: &TyInterner, h: Handle) -> (r: bool)
    ensures
        r == handle_printable(tys.values(), h),
{
    if h.index >= tys.len() {
        return false;
    }
    match tys.get(h) {
        Ty::Int => true,
        Ty::Poisoned => true,
        _ => false,
    }
}

/// Appends the written form of the type behind a handle.
fn push_handle(out: &mut Vec<char>, tys: &TyInterner, h: Handle)
    requires
        handle_printable(tys.values(), h),
    ensures
        final(out)@ == old(out)@ + handle_text(tys.values(), h),
{
    push_str(out, tys.get(h).text());
}

/// A declaration inside a function body: type, name and initializer of a
/// variable; a declared function is written with a doubled `;`.
pub open spec fn decl_stmt_text(d: Declaration, tys: Seq<Ty>) -> Seq<char> {
    match d {
        Declaration::Var(v) => handle_text(tys, v.ty) + " "@ + v.id.name.text() + (match v.init {
            Some(e) => " = "@ + expr_text(e) + ";"@,
            None => ";"@,
        }),
        Declaration::Fn(f) => handle_text(tys, f.ty) + " "@ + f.id.name.text() + ";;"@,
    }
}

/// The type of a declaration can be written out.
pub open spec fn decl_printable(d: Declaration, tys: Seq<Ty>) -> bool {
    match d {
        Declaration::Var(v) => handle_printable(tys, v.ty),
        Declaration::Fn(f) => handle_printable(tys, f.ty),
    }
}

/// Every declaration in a statement has a type that can be written out.
pub open spec fn stmt_printable(s: Stmt, tys: Seq<Ty>) -> bool
    decreases s,
{
    match s {
        Stmt::Block(v) => forall|i: int| 0 <= i < v@.len() ==> stmt_printable(#[trigger] v@[i], tys),
        Stmt::Case(_, _, b) => stmt_printable(*b, tys),
        Stmt::Decl(d) => decl_printable(*d, tys),
        Stmt::Do(b, _) => stmt_printable(*b, tys),
        Stmt::For(f) => (match f.init {
            Some(i) => stmt_printable(*i, tys),
            None => true,
        }) && stmt_printable(*f.body, tys),
        Stmt::If(_, t, e) => stmt_printable(*t, tys) && (match e {
            Some(e) => stmt_printable(*e, tys),
            None => true,
        }),
        Stmt::Labled(_, b) => stmt_printable(*b, tys),
        Stmt::Switch(_, b) => stmt_printable(*b, tys),
        Stmt::While(_, b) => stmt_printable(*b, tys),
        _ => true,
    }
}

/// The level of a statement nested under another: blocks, cases and
/// labelled statements stay at the level of what holds them.
pub open spec fn sub_stmt_depth(s: Stmt, l: usize) -> usize {
    if s is Block || s is Case || s is Labled {
        l
    } else {
        level_next(l)
    }
}

/// The level of a statement inside a block: cases and labelled statements
/// stay at the block's level.
pub open spec fn block_stmt_depth(s: Stmt, l: usize) -> usize {
    if s is Case || s is Labled {
        l
    } else {
        level_next(l)
    }
}

/// The level of a statement nested under another.
pub fn sub_stmt_level(stmt: &Stmt, level: Level) -> (r: Level)
    ensures
        r.depth() == sub_stmt_depth(*stmt, level.depth()),
{
    match stmt {
        Stmt::Block(_) | Stmt::Case(..) | Stmt::Labled(..) => level,
        _ => level.next(),
    }
}

/// The level of a statement inside a block.
pub fn block_stmt_level(stmt: &Stmt, level: Level) -> (r: Level)
    ensures
        r.depth() == block_stmt_depth(*stmt, level.depth()),
{
    match stmt {
        Stmt::Case(..) | Stmt::Labled(..) => level,
        _ => level.next(),
    }
}

/// The lines of a block whose statements are `v`, at level `l`.
pub open spec fn stmts_items(v: Seq<Stmt>, l: usize, tys: Seq<Ty>) -> Seq<Seq<char>> {
    Seq::new(v.len(), |i: int| stmt_text(v[i], block_stmt_depth(v[i], l), tys) + "\n"@)
}

/// A block at level `l`: `{`, each statement on its own lines one level
/// deeper, and `}` at level `l`.
pub open spec fn body_text(v: Seq<Stmt>, l: usize, tys: Seq<Ty>) -> Seq<char> {
    "{\n"@ + concat(stmts_items(v, l, tys)) + indent(l) + "}"@
}

/// The lines of a block statement.
pub open spec fn block_items(s: Stmt, l: usize, tys: Seq<Ty>) -> Seq<Seq<char>>
    decreases s, 0int,
{
    match s {
        Stmt::Block(v) => Seq::new(
            v@.len(),
            |i: int| if 0 <= i < v@.len() { (lead(v@[i], block_stmt_depth(v@[i], l)) + stmt_body(v@[i], block_stmt_depth(v@[i], l), tys)) + "\n"@ } else { Seq::empty() },
        ),
        _ => Seq::empty(),
    }
}

/// A statement at level `l`, starting with its indentation (a labelled
/// statement is indented one level less) and without a final newline.
pub open spec fn stmt_text(s: Stmt, l: usize, tys: Seq<Ty>) -> Seq<char> {
    lead(s, l) + stmt_body(s, l, tys)
}

/// The indentation of a statement at level `l`: a labelled statement is
/// indented one level less.
pub open spec fn lead(s: Stmt, l: usize) -> Seq<char> {
    if s is Labled {
        indent(level_prev(l))
    } else {
        indent(l)
    }
}

/// A statement at level `l` after its indentation.
#[verifier::opaque]
pub open spec fn stmt_body(s: Stmt, l: usize, tys: Seq<Ty>) -> Seq<char>
    decreases s, 1int,
{
    match s {
        Stmt::Block(_) => "{\n"@ + concat(block_items(s, l, tys)) + indent(l) + "}"@,
        Stmt::Break(_) => "break;"@,
        Stmt::Case(_, e, b) => (match e {
            Some(e) => "case "@ + expr_text(*e) + ":\n"@,
            None => "default:\n"@,
        }) + (lead(*b, sub_stmt_depth(*b, l)) + stmt_body(*b, sub_stmt_depth(*b, l), tys)),
        Stmt::Continue(_) => "continue;"@,
        Stmt::Decl(d) => decl_stmt_text(*d, tys),
        Stmt::Do(b, c) => "do\n"@ + (lead(*b, sub_stmt_depth(*b, l)) + stmt_body(*b, sub_stmt_depth(*b, l), tys)) + "\n"@ + indent(l) + "while ("@
            + expr_text(*c) + ");"@,
        Stmt::Expr(e) => expr_text(*e) + ";"@,
        Stmt::For(f) => "for ("@ + (match f.init {
            Some(i) => (lead(*i, 0) + stmt_body(*i, 0, tys)),
            None => ";"@,
        }) + (match f.condition {
            Some(c) => " "@ + expr_text(*c),
            None => Seq::empty(),
        }) + "; "@ + (match f.increment {
            Some(i) => expr_text(*i),
            None => Seq::empty(),
        }) + ")\n"@ + (lead(*f.body, sub_stmt_depth(*f.body, l)) + stmt_body(*f.body, sub_stmt_depth(*f.body, l), tys)),
        Stmt::Goto(id) => "goto "@ + id.name.text() + ";"@,
        Stmt::If(c, t, e) => "if ("@ + expr_text(*c) + ")\n"@ + (lead(*t, sub_stmt_depth(*t, l)) + stmt_body(*t, sub_stmt_depth(*t, l), tys)) + (match e {
            Some(e) => "\n"@ + indent(l) + "else\n"@ + (lead(*e, if (*e) is Block { l } else { level_next(l) }) + stmt_body(*e, if (*e) is Block { l } else { level_next(l) }, tys)),
            None => Seq::empty(),
        }),
        Stmt::Labled(id, b) => id.name.text() + ":\n"@ + (lead(*b, l) + stmt_body(*b, l, tys)),
        Stmt::Nil => ";"@,
        Stmt::Return(e) => "return "@ + expr_text(*e) + ";"@,
        Stmt::Switch(e, b) => "switch ("@ + expr_text(*e) + ")\n"@ + (lead(*b, sub_stmt_depth(*b, l)) + stmt_body(*b, sub_stmt_depth(*b, l), tys)),
        Stmt::While(c, b) => "while ("@ + expr_text(*c) + ")\n"@ + (lead(*b, sub_stmt_depth(*b, l)) + stmt_body(*b, sub_stmt_depth(*b, l), tys)),
    }
}

/// The lines of a block statement are those of its statements.
proof fn lemma_block_items(s: Stmt, l: usize, tys: Seq<Ty>)
    requires
        s is Block,
    ensures
        block_items(s, l, tys) == stmts_items(s->Block_0@, l, tys),
{
    reveal(stmt_body);
    assert(block_items(s, l, tys) =~= stmts_items(s->Block_0@, l, tys));
}

/// Appends a declaration inside a function body.
fn push_decl_stmt<'src>(out: &mut Vec<char>, d: &Declaration<'src>, tys: &TyInterner<'src>)
    requires
        decl_printable(*d, tys.values()),
    ensures
        final(out)@ == old(out)@ + decl_stmt_text(*d, tys.values()),
{
    match d {
        Declaration::Var(v) => {
            push_handle(out, tys, v.ty);
            push_str(out, " ");
            push_str(out, v.id.name.get());
            match &v.init {
                Some(e) => {
                    push_str(out, " = ");
                    e.push_text(out);
                    push_str(out, ";");
                },
                None => {
                    push_str(out, ";");
                },
            }
        },
        Declaration::Fn(f) => {
            push_handle(out, tys, f.ty);
            push_str(out, " ");
            push_str(out, f.id.name.get());
            push_str(out, ";;");
        },
    }
    proof {
        assert(final(out)@ =~= old(out)@ + decl_stmt_text(*d, tys.values()));
    }
}

/// Appends a statement that holds no other statement, after its
/// indentation.
fn push_simple_body<'src>(out: &mut Vec<char>, s: &Stmt<'src>, l: Ghost<usize>, tys: &TyInterner<'src>)
    requires
        s is Break || s is Continue || s is Decl || s is Expr || s is Goto || s is Nil || s is Return,
        stmt_printable(*s, tys.values()),
    ensures
        final(out)@ == old(out)@ + stmt_body(*s, l@, tys.values()),
{
    match s {
        Stmt::Break(_) => push_str(out, "break;"),
        Stmt::Continue(_) => push_str(out, "continue;"),
        Stmt::Decl(d) => push_decl_stmt(out, d, tys),
        Stmt::Expr(e) => {
            e.push_text(out);
            push_str(out, ";");
        },
        Stmt::Goto(id) => {
            push_str(out, "goto ");
            push_str(out, id.name.get());
            push_str(out, ";");
        },
        Stmt::Nil => push_str(out, ";"),
        Stmt::Return(e) => {
            push_str(out, "return ");
            e.push_text(out);
            push_str(out, ";");
        },
        _ => {},
    }
    assert(final(out)@ =~= old(out)@ + stmt_body(*s, l@, tys.values())) by {
        reveal(stmt_body);
    }
}

impl<'src> Stmt<'src> {
    /// Appends the statement at `level`, starting with its indentation and
    /// without a final newline.
    pub fn pretty(&self, out: &mut Vec<char>, level: Level, tys: &TyInterner<'src>)
        requires
            stmt_printable(*self, tys.values()),
        ensures
            final(out)@ == old(out)@ + stmt_text(*self, level.depth(), tys.values()),
        decreases self, 1int,
    {
        let spaces = match self {
            Stmt::Labled(..) => level.prev().to_spaces(),
            _ => level.to_spaces(),
        };
        push_repeat(out, ' ', spaces);
        let ghost mid = out@;
        match self {
            Stmt::Break(_) | Stmt::Continue(_) | Stmt::Decl(_) | Stmt::Expr(_) | Stmt::Goto(_) | Stmt::Nil
            | Stmt::Return(_) => push_simple_body(out, self, Ghost(level.depth()), tys),
            Stmt::Block(_) => self.pretty_block_stmt(out, level, tys),
            Stmt::Case(..) => self.pretty_case(out, level, tys),
            Stmt::Do(..) => self.pretty_do(out, level, tys),
            Stmt::For(_) => self.pretty_for(out, level, tys),
            Stmt::If(..) => self.pretty_if(out, level, tys),
            Stmt::Labled(..) | Stmt::Switch(..) | Stmt::While(..) => self.pretty_headed(out, level, tys),
        }
        assert(final(out)@ == mid + stmt_body(*self, level.depth(), tys.values()));
        assert(final(out)@ =~= old(out)@ + stmt_text(*self, level.depth(), tys.values()));
    }

    /// Appends a block statement, after its indentation.
    fn pretty_block_stmt(&self, out: &mut Vec<char>, level: Level, tys: &TyInterner<'src>)
        requires
            self is Block,
            stmt_printable(*self, tys.values()),
        ensures
            final(out)@ == old(out)@ + stmt_body(*self, level.depth(), tys.values()),
        decreases self, 0int,
    {
        if let Stmt::Block(v) = self {
            proof {
                assert(decreases_to!(*self => *v));
                lemma_block_items(*self, level.depth(), tys.values());
            }
            pretty_block(v, out, level, tys);
            assert(final(out)@ =~= old(out)@ + stmt_body(*self, level.depth(), tys.values())) by {
                reveal(stmt_body);
            }
        }
    }

    /// Appends a `case` or `default` statement, after its indentation.
    fn pretty_case(&self, out: &mut Vec<char>, level: Level, tys: &TyInterner<'src>)
        requires
            self is Case,
            stmt_printable(*self, tys.values()),
        ensures
            final(out)@ == old(out)@ + stmt_body(*self, level.depth(), tys.values()),
        decreases self, 0int,
    {
        if let Stmt::Case(_, e, b) = self {
            match e {
                Some(e) => {
                    push_str(out, "case ");
                    e.push_text(out);
                    push_str(out, ":\n");
                },
                None => {
                    push_str(out, "default:\n");
                },
            }
            b.pretty(out, sub_stmt_level(b, level), tys);
            assert(final(out)@ =~= old(out)@ + stmt_body(*self, level.depth(), tys.values())) by {
                reveal(stmt_body);
            }
        }
    }

    /// Appends a `do` loop, after its indentation.
    fn pretty_do(&self, out: &mut Vec<char>, level: Level, tys: &TyInterner<'src>)
        requires
            self is Do,
            stmt_printable(*self, tys.values()),
        ensures
            final(out)@ == old(out)@ + stmt_body(*self, level.depth(), tys.values()),
        decreases self, 0int,
    {
        if let Stmt::Do(b, c) = self {
            push_str(out, "do\n");
            b.pretty(out, sub_stmt_level(b, level), tys);
            push_str(out, "\n");
            push_repeat(out, ' ', level.to_spaces());
            push_str(out, "while (");
            c.push_text(out);
            push_str(out, ");");
            assert(final(out)@ =~= old(out)@ + stmt_body(*self, level.depth(), tys.values())) by {
                reveal(stmt_body);
            }
        }
    }

    /// Appends a `for` loop, after its indentation.
    fn pretty_for(&self, out: &mut Vec<char>, level: Level, tys: &TyInterner<'src>)
        requires
            self is For,
            stmt_printable(*self, tys.values()),
        ensures
            final(out)@ == old(out)@ + stmt_body(*self, level.depth(), tys.values()),
        decreases self, 0int,
    {
        if let Stmt::For(f) = self {
            push_str(out, "for (");
            match &f.init {
                Some(i) => i.pretty(out, Level::new(), tys),
                None => push_str(out, ";"),
            }
            if let Some(c) = &f.condition {
                push_str(out, " ");
                c.push_text(out);
            }
            push_str(out, "; ");
            if let Some(i) = &f.increment {
                i.push_text(out);
            }
            push_str(out, ")\n");
            f.body.pretty(out, sub_stmt_level(&f.body, level), tys);
            assert(final(out)@ =~= old(out)@ + stmt_body(*self, level.depth(), tys.values())) by {
                reveal(stmt_body);
            }
        }
    }

    /// Appends an `if` statement, after its indentation.
    fn pretty_if(&self, out: &mut Vec<char>, level: Level, tys: &TyInterner<'src>)
        requires
            self is If,
            stmt_printable(*self, tys.values()),
        ensures
            final(out)@ == old(out)@ + stmt_body(*self, level.depth(), tys.values()),
        decreases self, 0int,
    {
        if let Stmt::If(c, then_branch, else_branch) = self {
            push_str(out, "if (");
            c.push_text(out);
            push_str(out, ")\n");
            then_branch.pretty(out, sub_stmt_level(then_branch, level), tys);
            if let Some(e) = else_branch {
                push_str(out, "\n");
                push_repeat(out, ' ', level.to_spaces());
                push_str(out, "else\n");
                let else_level = match &**e {
                    Stmt::Block(_) => level,
                    _ => level.next(),
                };
                e.pretty(out, else_level, tys);
            }
            assert(final(out)@ =~= old(out)@ + stmt_body(*self, level.depth(), tys.values())) by {
                reveal(stmt_body);
            }
        }
    }

    /// Appends a statement with a head line and one nested statement:
    /// a label, `switch` or `while`, after its indentation.
    fn pretty_headed(&self, out: &mut Vec<char>, level: Level, tys: &TyInterner<'src>)
        requires
            self is Labled || self is Switch || self is While,
            stmt_printable(*self, tys.values()),
        ensures
            final(out)@ == old(out)@ + stmt_body(*self, level.depth(), tys.values()),
        decreases self, 0int,
    {
        match self {
            Stmt::Labled(id, b) => {
                push_str(out, id.name.get());
                push_str(out, ":\n");
                b.pretty(out, level, tys);
            },
            Stmt::Switch(e, b) => {
                push_str(out, "switch (");
                e.push_text(out);
                push_str(out, ")\n");
                b.pretty(out, sub_stmt_level(b, level), tys);
            },
            Stmt::While(c, b) => {
                push_str(out, "while (");
                c.push_text(out);
                push_str(out, ")\n");
                b.pretty(out, sub_stmt_level(b, level), tys);
            },
            _ => {},
        }
        assert(final(out)@ =~= old(out)@ + stmt_body(*self, level.depth(), tys.values())) by {
            reveal(stmt_body);
        }
    }
}

/// Appends a block at `level`: `{`, each statement on its own lines, and
/// `}` indented to `level`.
pub fn pretty_block<'src>(stmts: &Vec<Stmt<'src>>, out: &mut Vec<char>, level: Level, tys: &TyInterner<'src>)
    requires
        forall|i: int| 0 <= i < stmts@.len() ==> stmt_printable(#[trigger] stmts@[i], tys.values()),
    ensures
        final(out)@ == old(out)@ + body_text(stmts@, level.depth(), tys.values()),
    decreases stmts,
{
    let ghost texts = stmts_items(stmts@, level.depth(), tys.values());
    push_str(out, "{\n");
    let ghost head = out@;
    let mut k: usize = 0;
    while k < stmts.len()
        invariant
            k <= stmts@.len(),
            forall|i: int| 0 <= i < stmts@.len() ==> stmt_printable(#[trigger] stmts@[i], tys.values()),
            texts == stmts_items(stmts@, level.depth(), tys.values()),
            out@ == head + concat(texts.take(k as int)),
        decreases stmts@.len() - k,
    {
        let ghost before = out@;
        let stmt = &stmts[k];
        proof {
            vstd::std_specs::vec::axiom_vec_index_decreases(*stmts, k as int);
        }
        stmt.pretty(out, block_stmt_level(stmt, level), tys);
        push_str(out, "\n");
        proof {
            lemma_concat_step(texts, k as int);
            assert(out@ =~= before + texts[k as int]);
        }
        k += 1;
    }
    push_repeat(out, ' ', level.to_spaces());
    push_str(out, "}");
    proof {
        assert(texts.take(texts.len() as int) =~= texts);
        assert(final(out)@ =~= old(out)@ + body_text(stmts@, level.depth(), tys.values()));
    }
}


impl<'src> Stmt<'src> {
    /// Whether every declaration in the statement has a type that can be
    /// written out.
    pub fn is_printable(&self, tys: &TyInterner<'src>) -> (r: bool)
        ensures
            r == stmt_printable(*self, tys.values()),
        decreases self,
    {
        match self {
            Stmt::Block(v) => {
                proof {
                    assert(decreases_to!(*self => *v));
                }
                stmts_printable(v, tys)
            },
            Stmt::Case(_, _, b) => b.is_printable(tys),
            Stmt::Decl(d) => match &**d {
                Declaration::Var(v) => check_handle(tys, v.ty),
                Declaration::Fn(f) => check_handle(tys, f.ty),
            },
            Stmt::Do(b, _) => b.is_printable(tys),
            Stmt::For(f) => {
                let init_ok = match &f.init {
                    Some(i) => i.is_printable(tys),
                    None => true,
                };
                init_ok && f.body.is_printable(tys)
            },
            Stmt::If(_, t, e) => {
                let else_ok = match e {
                    Some(e) => e.is_printable(tys),
                    None => true,
                };
                t.is_printable(tys) && else_ok
            },
            Stmt::Labled(_, b) => b.is_printable(tys),
            Stmt::Switch(_, b) => b.is_printable(tys),
            Stmt::While(_, b) => b.is_printable(tys),
            _ => true,
        }
    }
}

/// Whether every statement of `stmts` can be written out.
pub fn stmts_printable<'src>(stmts: &Vec<Stmt<'src>>, tys: &TyInterner<'src>) -> (r: bool)
    ensures
        r == forall|i: int| 0 <= i < stmts@.len() ==> stmt_printable(#[trigger] stmts@[i], tys.values()),
    decreases stmts,
{
    let mut k: usize = 0;
    while k < stmts.len()
        invariant
            k <= stmts@.len(),
            forall|i: int| 0 <= i < k ==> stmt_printable(#[trigger] stmts@[i], tys.values()),
        decreases stmts@.len() - k,
    {
        proof {
            vstd::std_specs::vec::axiom_vec_index_decreases(*stmts, k as int);
        }
        if !stmts[k].is_printable(tys) {
            return false;
        }
        k += 1;
    }
    true
}

/// A top-level declaration: a function's type and name, followed by its
/// body when it has one, or a variable's name as a quoted global.
pub open spec fn item_text(d: Declaration, tys: Seq<Ty>) -> Seq<char> {
    match d {
        Declaration::Fn(f) => handle_text(tys, f.ty) + " "@ + f.id.name.text() + ";"@ + (match f.body {
            Some(b) => "\n"@ + body_text(b@, 0, tys),
            None => Seq::empty(),
        }),
        Declaration::Var(v) => "global \""@ + v.id.name.text() + "\";"@,
    }
}

/// Every type a top-level declaration writes out has a written form.
pub open spec fn item_printable(d: Declaration, tys: Seq<Ty>) -> bool {
    match d {
        Declaration::Fn(f) => handle_printable(tys, f.ty) && match f.body {
            Some(b) => forall|i: int| 0 <= i < b@.len() ==> stmt_printable(#[trigger] b@[i], tys),
            None => true,
        },
        Declaration::Var(_) => true,
    }
}

/// A program: each top-level declaration followed by a newline.
pub open spec fn program_text(p: Program, tys: Seq<Ty>) -> Seq<char> {
    concat(Seq::new(p.items@.len(), |i: int| item_text(p.items@[i], tys) + "\n"@))
}

/// Every top-level declaration can be written out.
pub open spec fn program_printable(p: Program, tys: Seq<Ty>) -> bool {
    forall|i: int| 0 <= i < p.items@.len() ==> item_printable(#[trigger] p.items@[i], tys)
}

/// Appends a top-level declaration.
fn push_item<'src>(out: &mut Vec<char>, d: &Declaration<'src>, tys: &TyInterner<'src>)
    requires
        item_printable(*d, tys.values()),
    ensures
        final(out)@ == old(out)@ + item_text(*d, tys.values()),
{
    match d {
        Declaration::Fn(f) => {
            push_handle(out, tys, f.ty);
            push_str(out, " ");
            push_str(out, f.id.name.get());
            push_str(out, ";");
            if let Some(body) = &f.body {
                push_str(out, "\n");
                pretty_block(body, out, Level::new(), tys);
            }
        },
        Declaration::Var(v) => {
            push_str(out, "global \"");
            push_str(out, v.id.name.get());
            push_str(out, "\";");
        },
    }
    proof {
        assert(final(out)@ =~= old(out)@ + item_text(*d, tys.values()));
    }
}

impl<'src> Program<'src> {
    /// Whether every type the rendering writes out has a written form.
    pub fn is_printable(&self, tys: &TyInterner<'src>) -> (r: bool)
        ensures
            r == program_printable(*self, tys.values()),
    {
        let mut k: usize = 0;
        while k < self.items.len()
            invariant
                k <= self.items@.len(),
                forall|i: int| 0 <= i < k ==> item_printable(#[trigger] self.items@[i], tys.values()),
            decreases self.items@.len() - k,
        {
            let ok = match &self.items[k] {
                Declaration::Fn(f) => {
                    let body_ok = match &f.body {
                        Some(b) => stmts_printable(b, tys),
                        None => true,
                    };
                    check_handle(tys, f.ty) && body_ok
                },
                Declaration::Var(_) => true,
            };
            if !ok {
                return false;
            }
            k += 1;
        }
        true
    }

    /// The program rendered as source.
    pub fn pretty(&self, tys: &TyInterner<'src>) -> (r: String)
        requires
            program_printable(*self, tys.values()),
        ensures
            r@ == program_text(*self, tys.values()),
    {
        let ghost texts = Seq::new(self.items@.len(), |i: int| item_text(self.items@[i], tys.values()) + "\n"@);
        let mut out: Vec<char> = Vec::new();
        let mut k: usize = 0;
        while k < self.items.len()
            invariant
                k <= self.items@.len(),
                program_printable(*self, tys.values()),
                texts == Seq::new(self.items@.len(), |i: int| item_text(self.items@[i], tys.values()) + "\n"@),
                out@ == concat(texts.take(k as int)),
            decreases self.items@.len() - k,
        {
            let ghost before = out@;
            push_item(&mut out, &self.items[k], tys);
            push_str(&mut out, "\n");
            proof {
                lemma_concat_step(texts, k as int);
                assert(out@ =~= before + texts[k as int]);
            }
            k += 1;
        }
        proof {
            assert(texts.take(texts.len() as int) =~= texts);
        }
        string_from_chars(&out)
    }
}

} // verus!
