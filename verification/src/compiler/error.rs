//! Source ranges, the errors the passes report, and how errors are shown:
//! each with the source lines it concerns, underlined.
use vstd::prelude::*;
use vstd::string::StrSliceExecFns;

use crate::compiler::lexer::chars_of;
use crate::text::{
    decimal, display_width, lemma_decimal_len, lemma_repeat_len, pad_left, push_decimal,
    push_decimal_padded, push_repeat, push_slice, push_str, repeat, str_width, string_from_chars,
};

verus! {

/// A half-open range of character positions in the source.
#[derive(Clone, Copy, PartialEq, Eq, Debug, Structural)]
pub struct Context {
    pub start: usize,
    pub end: usize,
}

impl Context {
    /// The empty range at the start of the source.
    pub fn dummy() -> (r: Context)
        ensures
            r.start == 0,
            r.end == 0,
    {
        Context { start: 0, end: 0 }
    }

    /// The range from the start of `left` to the end of `right`.
    pub fn from_sub(left: &Context, right: &Context) -> (r: Context)
        ensures
            r.start == left.start,
            r.end == right.end,
    {
        Context { start: left.start, end: right.end }
    }

    /// The range `start..end`.
    pub fn from_range(start: usize, end: usize) -> (r: Context)
        ensures
            r.start == start,
            r.end == end,
    {
        Context { start, end }
    }
}

/// Errors found while lexing and parsing.
#[derive(Clone, Copy, PartialEq, Eq, Debug, Structural)]
pub enum SyntaxError {
    ExpectedColon,
    ExpectedFunctionArgs,
    ExpectedIdentifier,
    ExpectedOpenParen,
    ExpectedSemicolon,
    ExpectedWhile,
    IntegerLiteralTooLarge,
    InvalidLabel,
    InvalidExpr,
    InvalidIntegerSuffix,
    UnclosedDelimiter,
    UnknownSymbol,
    UnterminatedBlockComment,
}

/// Errors found by the semantic checker.
#[derive(Clone, Copy, PartialEq, Eq, Debug, Structural)]
pub enum SemanticError {
    DuplicateDecl,
    InvalidBreak,
    InvalidContinue,
    InvalidLValue,
    UndeclaredVar,
    TypeMismatch,
    TooManyStorageClasses,
    DeclWithDifLinkage,
    DuplicateDef,
    StaticFnDeclInBody,
    ExternDeclInFnBody,
    NonConstGlobal,
    DuplicateCase,
    InvalidCaseExpr,
    InvalidCase,
    MultipleDefaultCases,
    ExpectedFunctionType,
    InvalidArgCount,
    UnsupportedConstruct,
}

/// An error together with the source range it concerns.
#[derive(Clone, Copy, Debug)]
pub struct ErrorWithCtx<E: Copy> {
    pub ctx: Context,
    pub err: E,
}

pub type SyntaxErrorWithCtx = ErrorWithCtx<SyntaxError>;

pub type SemanticErrorWithCtx = ErrorWithCtx<SemanticError>;

/// An error that can describe itself in one line.
pub trait Describe {
    /// The line of text describing the error.
    spec fn message_spec(&self) -> Seq<char>;

    fn message(&self) -> (r: &'static str)
        ensures
            r@ == self.message_spec(),
    ;
}

/// The text of each syntax error: its code, then what went wrong.
pub open spec fn syntax_message(e: SyntaxError) -> Seq<char> {
    match e {
        SyntaxError::ExpectedColon => "[STXE0] expected a ':' after conditional then branch"@,
        SyntaxError::ExpectedFunctionArgs => "[STXE1] expected function args after function identifier"@,
        SyntaxError::ExpectedIdentifier => "[STXE2] expected an identifier"@,
        SyntaxError::ExpectedOpenParen => "[STXE3] expected a '('"@,
        SyntaxError::ExpectedSemicolon => "[STXE4] expected a ';'"@,
        SyntaxError::ExpectedWhile => "[STXE5] expected 'while' after do loop body"@,
        SyntaxError::IntegerLiteralTooLarge => "[STXE6] integer literal too large"@,
        SyntaxError::InvalidLabel => "[STXE7] invalid label"@,
        SyntaxError::InvalidExpr => "[STXE8] invalid expression"@,
        SyntaxError::InvalidIntegerSuffix => "[STXE9] invalid integer suffix"@,
        SyntaxError::UnclosedDelimiter => "[STXE10] unclosed delimiter"@,
        SyntaxError::UnknownSymbol => "[STXE11] unknown symbol"@,
        SyntaxError::UnterminatedBlockComment => "[STXE12] unterminated block comment"@,
    }
}

impl Describe for SyntaxError {
    open spec fn message_spec(&self) -> Seq<char> {
        syntax_message(*self)
    }

    fn message(&self) -> (r: &'static str) {
        match self {
            SyntaxError::ExpectedColon => "[STXE0] expected a ':' after conditional then branch",
            SyntaxError::ExpectedFunctionArgs => "[STXE1] expected function args after function identifier",
            SyntaxError::ExpectedIdentifier => "[STXE2] expected an identifier",
            SyntaxError::ExpectedOpenParen => "[STXE3] expected a '('",
            SyntaxError::ExpectedSemicolon => "[STXE4] expected a ';'",
            SyntaxError::ExpectedWhile => "[STXE5] expected 'while' after do loop body",
            SyntaxError::IntegerLiteralTooLarge => "[STXE6] integer literal too large",
            SyntaxError::InvalidLabel => "[STXE7] invalid label",
            SyntaxError::InvalidExpr => "[STXE8] invalid expression",
            SyntaxError::InvalidIntegerSuffix => "[STXE9] invalid integer suffix",
            SyntaxError::UnclosedDelimiter => "[STXE10] unclosed delimiter",
            SyntaxError::UnknownSymbol => "[STXE11] unknown symbol",
            SyntaxError::UnterminatedBlockComment => "[STXE12] unterminated block comment",
        }
    }
}

/// The text of each semantic error: its code, then what went wrong.
pub open spec fn semantic_message(e: SemanticError) -> Seq<char> {
    match e {
        SemanticError::DuplicateDecl => "[SEME0] duplicate declaration"@,
        SemanticError::InvalidBreak => "[SEME1] break must be in loop or switch"@,
        SemanticError::InvalidContinue => "[SEME2] continue must be in loop"@,
        SemanticError::InvalidLValue => "[SEME3] invalid lvalue"@,
        SemanticError::UndeclaredVar => "[SEME4] use of undeclared variable"@,
        SemanticError::TypeMismatch => "[SEME5] mismatched types"@,
        SemanticError::TooManyStorageClasses => "[SEME6] too many storage classes"@,
        SemanticError::DeclWithDifLinkage => "[SEME7] declaration with different linkage"@,
        SemanticError::DuplicateDef => "[SEME8] duplicate definition"@,
        SemanticError::StaticFnDeclInBody => "[SEME9] static function declared in a function body"@,
        SemanticError::ExternDeclInFnBody => "[SEME10] extern declaration with an initializer in a function body"@,
        SemanticError::NonConstGlobal => "[SEME11] initializer is not a constant"@,
        SemanticError::DuplicateCase => "[SEME12] duplicate case"@,
        SemanticError::InvalidCaseExpr => "[SEME13] case expression is not a constant"@,
        SemanticError::InvalidCase => "[SEME14] case outside of a switch"@,
        SemanticError::MultipleDefaultCases => "[SEME15] multiple default cases"@,
        SemanticError::ExpectedFunctionType => "[SEME16] called object is not a function"@,
        SemanticError::InvalidArgCount => "[SEME17] wrong number of arguments"@,
        SemanticError::UnsupportedConstruct => "[SEME18] construct not supported"@,
    }
}

impl Describe for SemanticError {
    open spec fn message_spec(&self) -> Seq<char> {
        semantic_message(*self)
    }

    fn message(&self) -> (r: &'static str) {
        match self {
            SemanticError::DuplicateDecl => "[SEME0] duplicate declaration",
            SemanticError::InvalidBreak => "[SEME1] break must be in loop or switch",
            SemanticError::InvalidContinue => "[SEME2] continue must be in loop",
            SemanticError::InvalidLValue => "[SEME3] invalid lvalue",
            SemanticError::UndeclaredVar => "[SEME4] use of undeclared variable",
            SemanticError::TypeMismatch => "[SEME5] mismatched types",
            SemanticError::TooManyStorageClasses => "[SEME6] too many storage classes",
            SemanticError::DeclWithDifLinkage => "[SEME7] declaration with different linkage",
            SemanticError::DuplicateDef => "[SEME8] duplicate definition",
            SemanticError::StaticFnDeclInBody => "[SEME9] static function declared in a function body",
            SemanticError::ExternDeclInFnBody => "[SEME10] extern declaration with an initializer in a function body",
            SemanticError::NonConstGlobal => "[SEME11] initializer is not a constant",
            SemanticError::DuplicateCase => "[SEME12] duplicate case",
            SemanticError::InvalidCaseExpr => "[SEME13] case expression is not a constant",
            SemanticError::InvalidCase => "[SEME14] case outside of a switch",
            SemanticError::MultipleDefaultCases => "[SEME15] multiple default cases",
            SemanticError::ExpectedFunctionType => "[SEME16] called object is not a function",
            SemanticError::InvalidArgCount => "[SEME17] wrong number of arguments",
            SemanticError::UnsupportedConstruct => "[SEME18] construct not supported",
        }
    }
}

} // verus!
verus! {

/// The position of the first `'\n'` at or after `i`, or the end of `s`.
pub open spec fn newline_at_or_after(s: Seq<char>, i: int) -> int
    decreases s.len() - i,
{
    if i >= s.len() {
        s.len() as int
    } else if s[i] == '\n' {
        i
    } else {
        newline_at_or_after(s, i + 1)
    }
}

pub proof fn lemma_newline_at_or_after(s: Seq<char>, i: int)
    requires
        0 <= i <= s.len(),
    ensures
        i <= newline_at_or_after(s, i) <= s.len(),
        newline_at_or_after(s, i) < s.len() ==> s[newline_at_or_after(s, i)] == '\n',
    decreases s.len() - i,
{
    if i < s.len() && s[i] != '\n' {
        lemma_newline_at_or_after(s, i + 1);
    }
}

/// The lines of `s` from position `i` on, as `str::lines` splits them: a
/// line ends at a `'\n'`, and a `'\r'` just before that `'\n'` is not part of
/// it; a trailing newline does not start another line.
pub open spec fn lines_from(s: Seq<char>, i: int) -> Seq<(int, int)>
    decreases s.len() - i,
{
    if i < 0 || i >= s.len() {
        Seq::empty()
    } else {
        let j = newline_at_or_after(s, i);
        let e = if j < s.len() && j > i && s[j - 1] == '\r' { j - 1 } else { j };
        proof {
            lemma_newline_at_or_after(s, i);
        }
        if j < s.len() {
            seq![(i, e)] + lines_from(s, j + 1)
        } else {
            seq![(i, e)]
        }
    }
}

/// The lines of `s`, each as the range of its characters.
pub open spec fn lines(s: Seq<char>) -> Seq<(int, int)> {
    lines_from(s, 0)
}

/// Lines lie within the text, in order, separated by at least a newline.
pub open spec fn ranges_ordered(r: Seq<(int, int)>, lo: int, n: int) -> bool {
    &&& forall|k: int| 0 <= k < r.len() ==> lo <= #[trigger] r[k].0 <= r[k].1 <= n
    &&& forall|k: int, l: int| 0 <= k < l < r.len() ==> #[trigger] r[k].1 < #[trigger] r[l].0
}

pub proof fn lemma_lines_from(s: Seq<char>, i: int)
    requires
        0 <= i,
    ensures
        ranges_ordered(lines_from(s, i), i, s.len() as int),
    decreases s.len() - i,
{
    if i < s.len() {
        lemma_newline_at_or_after(s, i);
        let j = newline_at_or_after(s, i);
        if j < s.len() {
            lemma_lines_from(s, j + 1);
            let e = if j < s.len() && j > i && s[j - 1] == '\r' { j - 1 } else { j };
            let rest = lines_from(s, j + 1);
            let all = seq![(i, e)] + rest;
            assert(lines_from(s, i) == all);
            assert forall|k: int, l: int| 0 <= k < l < all.len() implies #[trigger] all[k].1 < #[trigger] all[l].0 by {
                if k == 0 {
                    assert(all[l] == rest[l - 1]);
                    assert(rest[l - 1].0 >= j + 1);
                } else {
                    assert(all[k] == rest[k - 1]);
                    assert(all[l] == rest[l - 1]);
                }
            }
            assert forall|k: int| 0 <= k < all.len() implies i <= #[trigger] all[k].0 <= all[k].1 <= s.len() by {
                if k > 0 {
                    assert(all[k] == rest[k - 1]);
                }
            }
        }
    }
}

/// The pairs of positions as integers.
pub open spec fn pairs_view(v: Seq<(usize, usize)>) -> Seq<(int, int)> {
    v.map_values(|p: (usize, usize)| (p.0 as int, p.1 as int))
}

/// The line ranges of `s`.
pub fn line_ranges(s: &Vec<char>) -> (r: Vec<(usize, usize)>)
    ensures
        pairs_view(r@) == lines(s@),
{
    let n = s.len();
    let mut r: Vec<(usize, usize)> = Vec::new();
    let mut i: usize = 0;
    while i < n
        invariant
            i <= n,
            n == s@.len(),
            pairs_view(r@) + lines_from(s@, i as int) == lines(s@),
        decreases n - i,
    {
        let mut j = i;
        while j < n && s[j] != '\n'
            invariant
                i <= j <= n,
                n == s@.len(),
                newline_at_or_after(s@, j as int) == newline_at_or_after(s@, i as int),
            decreases n - j,
        {
            j += 1;
        }
        let e = if j < n && j > i && s[j - 1] == '\r' { j - 1 } else { j };
        let ghost before = r@;
        r.push((i, e));
        proof {
            assert(pairs_view(r@) =~= pairs_view(before).push((i as int, e as int)));
            if j < n {
                assert(lines_from(s@, i as int) == seq![(i as int, e as int)] + lines_from(s@, j + 1));
                assert(pairs_view(r@) + lines_from(s@, j + 1) =~= pairs_view(before) + lines_from(s@, i as int));
            } else {
                assert(lines_from(s@, i as int) == seq![(i as int, e as int)]);
                assert(pairs_view(r@) + lines_from(s@, n as int) =~= pairs_view(before) + lines_from(s@, i as int));
            }
        }
        if j < n {
            i = j + 1;
        } else {
            i = n;
        }
    }
    proof {
        assert(pairs_view(r@) =~= lines(s@));
    }
    r
}

/// The first line, from `k` on, that ends at or after `p` (the number of
/// lines if there is none): where `partition_point` splits the lines that
/// end before `p` from the rest.
pub open spec fn first_end_at_least(r: Seq<(int, int)>, p: int, k: int) -> int
    decreases r.len() - k,
{
    if k < 0 || k >= r.len() {
        r.len() as int
    } else if r[k].1 >= p {
        k
    } else {
        first_end_at_least(r, p, k + 1)
    }
}

/// The first line, from `k` on, that starts at or after `p` (the number of
/// lines if there is none).
pub open spec fn first_start_at_least(r: Seq<(int, int)>, p: int, k: int) -> int
    decreases r.len() - k,
{
    if k < 0 || k >= r.len() {
        r.len() as int
    } else if r[k].0 >= p {
        k
    } else {
        first_start_at_least(r, p, k + 1)
    }
}

pub proof fn lemma_first_end_at_least(r: Seq<(int, int)>, p: int, k: int)
    requires
        0 <= k <= r.len(),
    ensures
        k <= first_end_at_least(r, p, k) <= r.len(),
        forall|j: int| k <= j < first_end_at_least(r, p, k) ==> r[j].1 < p,
        first_end_at_least(r, p, k) < r.len() ==> r[first_end_at_least(r, p, k)].1 >= p,
    decreases r.len() - k,
{
    if k < r.len() && r[k].1 < p {
        lemma_first_end_at_least(r, p, k + 1);
    }
}

pub proof fn lemma_first_start_at_least(r: Seq<(int, int)>, p: int, k: int)
    requires
        0 <= k <= r.len(),
    ensures
        k <= first_start_at_least(r, p, k) <= r.len(),
        forall|j: int| k <= j < first_start_at_least(r, p, k) ==> r[j].0 < p,
        first_start_at_least(r, p, k) < r.len() ==> r[first_start_at_least(r, p, k)].0 >= p,
    decreases r.len() - k,
{
    if k < r.len() && r[k].0 < p {
        lemma_first_start_at_least(r, p, k + 1);
    }
}

/// `first_end_at_least` from 0 grows with `p`, and never passes
/// `first_start_at_least` for a later position.
pub proof fn lemma_partition_order(r: Seq<(int, int)>, n: int, p: int, q: int)
    requires
        ranges_ordered(r, 0, n),
        p <= q,
    ensures
        first_end_at_least(r, p, 0) <= first_end_at_least(r, q, 0),
        first_end_at_least(r, p, 0) <= first_start_at_least(r, q, 0),
{
    lemma_first_end_at_least(r, p, 0);
    lemma_first_end_at_least(r, q, 0);
    lemma_first_start_at_least(r, q, 0);
    let a = first_end_at_least(r, p, 0);
    let b = first_end_at_least(r, q, 0);
    let c = first_start_at_least(r, q, 0);
    if b < a {
        assert(r[b].1 < p);
    }
    if c < a {
        assert(r[c].1 < p);
        assert(r[c].0 <= r[c].1);
    }
}

/// The index of the first line that ends at or after `p`.
fn partition_end(r: &Vec<(usize, usize)>, p: usize) -> (k: usize)
    ensures
        k == first_end_at_least(pairs_view(r@), p as int, 0),
{
    let ghost v = pairs_view(r@);
    let mut k: usize = 0;
    while k < r.len() && r[k].1 < p
        invariant
            k <= r@.len(),
            v == pairs_view(r@),
            first_end_at_least(v, p as int, k as int) == first_end_at_least(v, p as int, 0),
        decreases r@.len() - k,
    {
        proof {
            assert(v[k as int].1 == r@[k as int].1);
        }
        k += 1;
    }
    proof {
        if k < r@.len() {
            assert(v[k as int].1 == r@[k as int].1);
        }
    }
    k
}

/// The index of the first line that starts at or after `p`.
fn partition_start(r: &Vec<(usize, usize)>, p: usize) -> (k: usize)
    ensures
        k == first_start_at_least(pairs_view(r@), p as int, 0),
{
    let ghost v = pairs_view(r@);
    let mut k: usize = 0;
    while k < r.len() && r[k].0 < p
        invariant
            k <= r@.len(),
            v == pairs_view(r@),
            first_start_at_least(v, p as int, k as int) == first_start_at_least(v, p as int, 0),
        decreases r@.len() - k,
    {
        proof {
            assert(v[k as int].0 == r@[k as int].0);
        }
        k += 1;
    }
    proof {
        if k < r@.len() {
            assert(v[k as int].0 == r@[k as int].0);
        }
    }
    k
}

/// `char::is_ascii_whitespace`.
pub open spec fn is_ascii_space(c: char) -> bool {
    c == ' ' || c == '\t' || c == '\n' || c == '\x0C' || c == '\r'
}

/// The first position, from `k` on, whose character is not ASCII
/// whitespace (the length if there is none).
pub open spec fn first_non_space(t: Seq<char>, k: int) -> int
    decreases t.len() - k,
{
    if k < 0 || k >= t.len() {
        t.len() as int
    } else if !is_ascii_space(t[k]) {
        k
    } else {
        first_non_space(t, k + 1)
    }
}

} // verus!
verus! {

/// A source line kept for showing errors: its number (from 1), where its
/// first non-blank character is, its display width, and where its text sits
/// in the cache.
#[derive(Clone, Copy, Debug)]
pub struct LineInfo {
    pub num: usize,
    pub whitespace_end: usize,
    pub width: usize,
    pub span: Context,
}

/// An error ready to be shown: the cached lines it covers (`line_ids`, a
/// half-open range of indices into the cache's lines), its column, the
/// display width of its line before it starts, and the display width of its
/// last line up to where it ends.
#[derive(Debug)]
pub struct CachedError<E> {
    pub line_ids: (usize, usize),
    pub col: usize,
    pub start_width: usize,
    pub end_width: usize,
    pub err: E,
}

/// The text of line number `ln` (from 0) of `src`.
pub open spec fn line_text(src: Seq<char>, ln: int) -> Seq<char> {
    src.subrange(lines(src)[ln].0, lines(src)[ln].1)
}

/// `li` describes a line of `src` whose text sits in `cache`.
pub open spec fn line_info_ok(src: Seq<char>, cache: Seq<char>, li: LineInfo) -> bool {
    &&& 1 <= li.num <= lines(src).len()
    &&& li.span.start <= li.span.end <= cache.len()
    &&& cache.subrange(li.span.start as int, li.span.end as int) == line_text(src, li.num - 1)
    &&& li.width == display_width(line_text(src, li.num - 1))
    &&& li.whitespace_end == first_non_space(line_text(src, li.num - 1), 0)
}

/// The cached lines are distinct source lines, in order.
pub open spec fn lines_ok(src: Seq<char>, cache: Seq<char>, ls: Seq<LineInfo>) -> bool {
    &&& forall|i: int| 0 <= i < ls.len() ==> line_info_ok(src, cache, #[trigger] ls[i])
    &&& forall|i: int, j: int| 0 <= i < j < ls.len() ==> #[trigger] ls[i].num < #[trigger] ls[j].num
}

/// The first line an error touches.
pub open spec fn start_line_of(src: Seq<char>, c: Context) -> int {
    first_end_at_least(lines(src), c.start as int, 0)
}

/// The line after the last one an error touches.
pub open spec fn end_line_of(src: Seq<char>, c: Context) -> int {
    first_start_at_least(lines(src), c.end as int, 0)
}

/// Where the text before an error starts: its first line's start, or the
/// start of the source when it touches no line (and the error's own start if
/// the error begins before its first line, at a `'\n'` that ends a `"\r\n"`).
pub open spec fn lead_start(src: Seq<char>, c: Context) -> int {
    let sl = start_line_of(src, c);
    let el = end_line_of(src, c);
    let fs = if sl < el { lines(src)[sl].0 } else { 0 };
    if fs <= c.start { fs } else { c.start as int }
}

/// Where the last line an error touches starts (the start of the source
/// when it touches none).
pub open spec fn last_start(src: Seq<char>, c: Context) -> int {
    let sl = start_line_of(src, c);
    let el = end_line_of(src, c);
    if sl < el { lines(src)[el - 1].0 } else { 0 }
}

/// `ce` is how error `e` of `src` is shown, given the cached lines `ls`.
pub open spec fn cached_ok<E>(src: Seq<char>, ls: Seq<LineInfo>, ce: CachedError<E>, e: ErrorWithCtx<E>) -> bool
    where E: Copy,
{
    let sl = start_line_of(src, e.ctx);
    let el = end_line_of(src, e.ctx);
    &&& ce.err == e.err
    &&& ce.line_ids.0 + (el - sl) == ce.line_ids.1
    &&& (sl < el ==> ce.line_ids.1 <= ls.len())
    &&& forall|k: int| 0 <= k < el - sl ==> #[trigger] ls[ce.line_ids.0 + k].num == sl + k + 1
    &&& (sl == el ==> ce.line_ids.0 == 0 || (ce.line_ids.0 < ls.len() && ls[ce.line_ids.0 as int].num == sl + 1))
    &&& ce.col == e.ctx.start - lead_start(src, e.ctx) + 1
    &&& ce.start_width == display_width(src.subrange(lead_start(src, e.ctx), e.ctx.start as int))
    &&& ce.end_width == display_width(src.subrange(last_start(src, e.ctx), e.ctx.end as int))
}

/// `a` comes strictly before `b`: by start, then by end.
pub open spec fn ctx_lt(a: Context, b: Context) -> bool {
    a.start < b.start || (a.start == b.start && a.end < b.end)
}

/// Where `x` goes in the sorted `s`: before the first element that comes
/// strictly after it, so equal elements keep their order.
pub open spec fn insert_pos<E>(s: Seq<ErrorWithCtx<E>>, x: ErrorWithCtx<E>, k: int) -> int
    where E: Copy,
    decreases s.len() - k,
{
    if k < 0 || k >= s.len() {
        s.len() as int
    } else if ctx_lt(x.ctx, s[k].ctx) {
        k
    } else {
        insert_pos(s, x, k + 1)
    }
}

/// `s` sorted by range, stably: what `sort_by` on start, then end, gives.
pub open spec fn sorted_errors<E>(s: Seq<ErrorWithCtx<E>>) -> Seq<ErrorWithCtx<E>>
    where E: Copy,
    decreases s.len(),
{
    if s.len() == 0 {
        s
    } else {
        let t = sorted_errors(s.drop_last());
        t.insert(insert_pos(t, s.last(), 0), s.last())
    }
}

pub proof fn lemma_insert_pos<E: Copy>(s: Seq<ErrorWithCtx<E>>, x: ErrorWithCtx<E>, k: int)
    requires
        0 <= k <= s.len(),
    ensures
        k <= insert_pos(s, x, k) <= s.len(),
    decreases s.len() - k,
{
    if k < s.len() && !ctx_lt(x.ctx, s[k].ctx) {
        lemma_insert_pos(s, x, k + 1);
    }
}

/// Sorting errors keeps each of them, as many times as it occurs: the
/// errors shown are exactly the errors reported.
pub proof fn law_sorting_keeps_every_error<E: Copy>(s: Seq<ErrorWithCtx<E>>)
    ensures
        sorted_errors(s).to_multiset() == s.to_multiset(),
    decreases s.len(),
{
    if s.len() > 0 {
        let d = s.drop_last();
        let t = sorted_errors(d);
        law_sorting_keeps_every_error(d);
        lemma_sorted_errors(d);
        lemma_insert_pos(t, s.last(), 0);
        vstd::seq_lib::to_multiset_insert(t, insert_pos(t, s.last(), 0), s.last());
        vstd::seq_lib::to_multiset_build(d, s.last());
        assert(d.push(s.last()) =~= s);
    }
}

pub proof fn lemma_sorted_errors<E: Copy>(s: Seq<ErrorWithCtx<E>>)
    ensures
        sorted_errors(s).len() == s.len(),
        forall|i: int, j: int| 0 <= i < j < s.len() ==> !ctx_lt(#[trigger] sorted_errors(s)[j].ctx, #[trigger] sorted_errors(s)[i].ctx),
        forall|i: int| 0 <= i < s.len() ==> exists|j: int| 0 <= j < s.len() && #[trigger] sorted_errors(s)[i] == s[j],
    decreases s.len(),
{
    if s.len() > 0 {
        let t = sorted_errors(s.drop_last());
        lemma_sorted_errors(s.drop_last());
        let x = s.last();
        let p = insert_pos(t, x, 0);
        lemma_insert_pos(t, x, 0);
        lemma_insert_pos_facts(t, x, 0);
        let u = t.insert(p, x);
        assert forall|i: int, j: int| 0 <= i < j < u.len() implies !ctx_lt(#[trigger] u[j].ctx, #[trigger] u[i].ctx) by {
            if j < p {
                assert(u[i] == t[i] && u[j] == t[j]);
            } else if j == p {
                assert(u[j] == x);
                assert(u[i] == t[i]);
            } else if i < p {
                assert(u[i] == t[i] && u[j] == t[j - 1]);
                if i < j - 1 {
                    assert(!ctx_lt(t[j - 1].ctx, t[i].ctx));
                }
            } else if i == p {
                assert(u[i] == x && u[j] == t[j - 1]);
                if p < j - 1 {
                    assert(!ctx_lt(t[j - 1].ctx, t[p].ctx));
                }
            } else {
                assert(u[i] == t[i - 1] && u[j] == t[j - 1]);
            }
        }
        assert forall|i: int| 0 <= i < s.len() implies exists|j: int| 0 <= j < s.len() && #[trigger] u[i] == s[j] by {
            if i < p {
                assert(u[i] == t[i]);
                let j = choose|j: int| 0 <= j < s.drop_last().len() && t[i] == s.drop_last()[j];
                assert(s[j] == s.drop_last()[j]);
            } else if i == p {
                assert(u[i] == s[s.len() - 1]);
            } else {
                assert(u[i] == t[i - 1]);
                let j = choose|j: int| 0 <= j < s.drop_last().len() && t[i - 1] == s.drop_last()[j];
                assert(s[j] == s.drop_last()[j]);
            }
        }
    }
}

proof fn lemma_insert_pos_facts<E: Copy>(s: Seq<ErrorWithCtx<E>>, x: ErrorWithCtx<E>, k: int)
    requires
        0 <= k <= s.len(),
        forall|i: int, j: int| 0 <= i < j < s.len() ==> !ctx_lt(#[trigger] s[j].ctx, #[trigger] s[i].ctx),
    ensures
        forall|i: int| k <= i < insert_pos(s, x, k) ==> !ctx_lt(x.ctx, #[trigger] s[i].ctx),
        forall|i: int| insert_pos(s, x, k) <= i < s.len() ==> !ctx_lt(#[trigger] s[i].ctx, x.ctx),
    decreases s.len() - k,
{
    if k < s.len() && !ctx_lt(x.ctx, s[k].ctx) {
        lemma_insert_pos_facts(s, x, k + 1);
    }
    if k < s.len() && ctx_lt(x.ctx, s[k].ctx) {
        assert forall|i: int| k <= i < s.len() implies !ctx_lt(#[trigger] s[i].ctx, x.ctx) by {
            if i > k {
                assert(!ctx_lt(s[i].ctx, s[k].ctx));
            }
        }
    }
}

/// Sorts errors by range, stably.
fn sort_errors<E: Copy>(errors: Vec<ErrorWithCtx<E>>) -> (r: Vec<ErrorWithCtx<E>>)
    ensures
        r@ == sorted_errors(errors@),
{
    let mut r: Vec<ErrorWithCtx<E>> = Vec::new();
    let mut i: usize = 0;
    while i < errors.len()
        invariant
            i <= errors@.len(),
            r@ == sorted_errors(errors@.take(i as int)),
        decreases errors@.len() - i,
    {
        let x = errors[i];
        let mut k: usize = 0;
        while k < r.len() && !(x.ctx.start < r[k].ctx.start || (x.ctx.start == r[k].ctx.start && x.ctx.end < r[k].ctx.end))
            invariant
                k <= r@.len(),
                insert_pos(r@, x, k as int) == insert_pos(r@, x, 0),
            decreases r@.len() - k,
        {
            k += 1;
        }
        proof {
            assert(errors@.take(i + 1).drop_last() =~= errors@.take(i as int));
            assert(errors@.take(i + 1).last() == x);
        }
        r.insert(k, x);
        i += 1;
    }
    proof {
        assert(errors@.take(errors@.len() as int) =~= errors@);
    }
    r
}

} // verus!
verus! {

/// Some cached line has number `num`.
pub open spec fn has_line(ls: Seq<LineInfo>, num: int) -> bool {
    exists|j: int| 0 <= j < ls.len() && #[trigger] ls[j].num == num
}

/// In a list of strictly increasing numbers that holds every number from
/// `a` to `b`, the numbers from `a` on sit next to each other.
proof fn lemma_consecutive(ls: Seq<LineInfo>, lo: int, a: int, b: int)
    requires
        forall|i: int, j: int| 0 <= i < j < ls.len() ==> #[trigger] ls[i].num < #[trigger] ls[j].num,
        forall|x: int| a <= x <= b ==> #[trigger] has_line(ls, x),
        0 <= lo < ls.len(),
        ls[lo].num == a,
    ensures
        forall|k: int| 0 <= k <= b - a ==> lo + k < ls.len() && #[trigger] ls[lo + k].num == a + k,
    decreases b - a,
{
    if b > a {
        lemma_consecutive(ls, lo, a, b - 1);
        assert(has_line(ls, b));
        let j = choose|j: int| 0 <= j < ls.len() && #[trigger] ls[j].num == b;
        let m = lo + (b - 1 - a);
        assert(ls[m].num == b - 1);
        if j <= m {
            if j < m {
                assert(ls[j].num < ls[m].num);
            }
            assert(false);
        }
        if m + 1 < j {
            assert(ls[m + 1].num < ls[j].num);
            assert(ls[m].num < ls[m + 1].num);
        }
        assert(j == m + 1);
    }
}

/// Extending the cache keeps the cached lines' texts.
proof fn lemma_lines_ok_extend(src: Seq<char>, c1: Seq<char>, c2: Seq<char>, ls: Seq<LineInfo>)
    requires
        lines_ok(src, c1, ls),
        c1.len() <= c2.len(),
        c2.take(c1.len() as int) == c1,
    ensures
        lines_ok(src, c2, ls),
{
    assert forall|i: int| 0 <= i < ls.len() implies line_info_ok(src, c2, #[trigger] ls[i]) by {
        let li = ls[i];
        assert(line_info_ok(src, c1, li));
        assert(c2.subrange(li.span.start as int, li.span.end as int) =~= c1.subrange(li.span.start as int, li.span.end as int)) by {
            assert forall|k: int| 0 <= k < li.span.end - li.span.start implies
                c2.subrange(li.span.start as int, li.span.end as int)[k] == c1.subrange(li.span.start as int, li.span.end as int)[k] by {
                assert(c2.take(c1.len() as int)[li.span.start + k] == c2[li.span.start + k]);
            }
        }
    }
}

/// Adding lines keeps what an error was cached as.
proof fn lemma_cached_ok_extend<E: Copy>(src: Seq<char>, ls1: Seq<LineInfo>, ls2: Seq<LineInfo>, ce: CachedError<E>, e: ErrorWithCtx<E>)
    requires
        cached_ok(src, ls1, ce, e),
        ls1.len() <= ls2.len(),
        forall|j: int| 0 <= j < ls1.len() ==> ls2[j] == ls1[j],
        start_line_of(src, e.ctx) <= end_line_of(src, e.ctx),
    ensures
        cached_ok(src, ls2, ce, e),
{
    let sl = start_line_of(src, e.ctx);
    let el = end_line_of(src, e.ctx);
    assert forall|k: int| 0 <= k < el - sl implies #[trigger] ls2[ce.line_ids.0 + k].num == sl + k + 1 by {
        assert(ls1[ce.line_ids.0 + k].num == sl + k + 1);
        assert(ce.line_ids.0 + k < ls1.len());
    }
}

/// The cached line for line number `ln` (from 0) of `src`; its text is
/// appended to `cache`.
fn line_info(src: &str, chars: &Vec<char>, ranges: &Vec<(usize, usize)>, cache: &mut Vec<char>, ln: usize) -> (li: LineInfo)
    requires
        chars@ == src@,
        pairs_view(ranges@) == lines(src@),
        ranges_ordered(lines(src@), 0, src@.len() as int),
        ln < ranges@.len(),
    ensures
        line_info_ok(src@, final(cache)@, li),
        li.num == ln + 1,
        final(cache)@ == old(cache)@ + line_text(src@, ln as int),
{
    let (a, b) = ranges[ln];
    let _n = ranges.len();
    proof {
        assert(lines(src@)[ln as int] == (a as int, b as int));
        assert(0 <= lines(src@)[ln as int].0 <= lines(src@)[ln as int].1 <= src@.len());
    }
    let start = cache.len();
    push_slice(cache, chars, a, b);
    let end = cache.len();
    let width = str_width(src.substring_char(a, b));
    let mut k = a;
    while k < b && (chars[k] == ' ' || chars[k] == '\t' || chars[k] == '\n' || chars[k] == '\x0C' || chars[k] == '\r')
        invariant
            a <= k <= b <= chars@.len(),
            first_non_space(chars@.subrange(a as int, b as int), (k - a) as int)
                == first_non_space(chars@.subrange(a as int, b as int), 0),
        decreases b - k,
    {
        k += 1;
    }
    proof {
        assert(cache@.subrange(start as int, end as int) =~= line_text(src@, ln as int));
        assert(ln + 1 <= lines(src@).len());
    }
    LineInfo { num: ln + 1, whitespace_end: k - a, width, span: Context { start, end } }
}

/// Caches the lines error `err` touches that are not cached yet, and
/// computes how it is shown.
#[verifier::rlimit(40)]
fn cache_err<E: Copy>(
    src: &str,
    chars: &Vec<char>,
    ranges: &Vec<(usize, usize)>,
    infos: &mut Vec<LineInfo>,
    cache: &mut Vec<char>,
    err: ErrorWithCtx<E>,
    Ghost(prev): Ghost<int>,
) -> (ce: CachedError<E>)
    requires
        err.ctx.start <= err.ctx.end <= src@.len(),
        src@.len() < usize::MAX,
        chars@ == src@,
        pairs_view(ranges@) == lines(src@),
        ranges_ordered(lines(src@), 0, src@.len() as int),
        lines_ok(src@, old(cache)@, old(infos)@),
        start_line_of(src@, err.ctx) >= prev,
        old(infos)@.len() > 0 ==> forall|x: int| prev <= x < old(infos)@.last().num ==> #[trigger] has_line(old(infos)@, x + 1),
    ensures
        lines_ok(src@, final(cache)@, final(infos)@),
        old(infos)@.len() <= final(infos)@.len(),
        forall|j: int| 0 <= j < old(infos)@.len() ==> final(infos)@[j] == old(infos)@[j],
        start_line_of(src@, err.ctx) <= end_line_of(src@, err.ctx),
        cached_ok(src@, final(infos)@, ce, err),
        final(infos)@.len() > 0 ==> forall|x: int| start_line_of(src@, err.ctx) <= x < final(infos)@.last().num ==> #[trigger] has_line(final(infos)@, x + 1),
{
    let ghost lns = lines(src@);
    let s = err.ctx.start;
    let e = err.ctx.end;
    let sl = partition_end(ranges, s);
    let el = partition_start(ranges, e);
    proof {
        lemma_partition_order(lns, src@.len() as int, s as int, e as int);
        lemma_first_end_at_least(lns, s as int, 0);
        lemma_first_start_at_least(lns, e as int, 0);
    }
    let ghost before = infos@;
    let ghost cache_before = cache@;
    let mut ln = sl;
    while ln < el
        invariant
            sl <= ln <= el <= lns.len(),
            sl >= prev,
            lns == lines(src@),
            pairs_view(ranges@) == lns,
            chars@ == src@,
            ranges_ordered(lns, 0, src@.len() as int),
            lines_ok(src@, cache@, infos@),
            before.len() <= infos@.len(),
            forall|j: int| 0 <= j < before.len() ==> infos@[j] == before[j],
            infos@.len() > before.len() ==> infos@.last().num == ln,
            before.len() > 0 ==> forall|x: int| prev <= x < before.last().num ==> #[trigger] has_line(before, x + 1),
            forall|x: int| sl <= x < ln ==> #[trigger] has_line(infos@, x + 1),
        decreases el - ln,
    {
        if infos.len() == 0 || infos[infos.len() - 1].num <= ln {
            let ghost c0 = cache@;
            let info = line_info(src, chars, ranges, cache, ln);
            proof {
                assert(cache@.take(c0.len() as int) =~= c0);
                lemma_lines_ok_extend(src@, c0, cache@, infos@);
            }
            let ghost l0 = infos@;
            infos.push(info);
            proof {
                assert forall|a: int, b: int| 0 <= a < b < infos@.len() implies #[trigger] infos@[a].num < #[trigger] infos@[b].num by {
                    if b == infos@.len() - 1 {
                        assert(infos@[a] == l0[a]);
                        if a < l0.len() - 1 {
                            assert(l0[a].num < l0.last().num);
                        }
                    } else {
                        assert(infos@[a] == l0[a] && infos@[b] == l0[b]);
                    }
                }
                assert forall|x: int| sl <= x < ln + 1 implies #[trigger] has_line(infos@, x + 1) by {
                    if x == ln {
                        assert(infos@[infos@.len() - 1].num == x + 1);
                    } else {
                        assert(has_line(l0, x + 1));
                        let j = choose|j: int| 0 <= j < l0.len() && #[trigger] l0[j].num == x + 1;
                        assert(infos@[j] == l0[j]);
                    }
                }
            }
        } else {
            proof {
                assert(infos@.len() == before.len());
                assert(infos@.last() == before.last());
                assert(has_line(before, ln + 1));
                let j = choose|j: int| 0 <= j < before.len() && #[trigger] before[j].num == ln + 1;
                assert(infos@[j] == before[j]);
                assert forall|x: int| sl <= x < ln + 1 implies #[trigger] has_line(infos@, x + 1) by {
                    if x == ln {
                        assert(infos@[j].num == x + 1);
                    }
                }
            }
        }
        ln += 1;
    }
    proof {
        assert forall|x: int| infos@.len() > 0 && sl <= x < infos@.last().num implies #[trigger] has_line(infos@, x + 1) by {
            if x >= el {
                assert(infos@.len() == before.len());
                assert(has_line(before, x + 1));
                let j = choose|j: int| 0 <= j < before.len() && #[trigger] before[j].num == x + 1;
                assert(infos@[j] == before[j]);
            }
        }
    }
    let mut lo: usize = 0;
    let mut found = false;
    while lo < infos.len() && !found
        invariant
            lo <= infos@.len(),
            found ==> lo < infos@.len() && infos@[lo as int].num == sl + 1,
            !found ==> forall|j: int| 0 <= j < lo ==> infos@[j].num != sl + 1,
        decreases infos@.len() - lo + (if found { 0int } else { 1int }),
    {
        if infos[lo].num > 0 && infos[lo].num - 1 == sl {
            found = true;
        } else {
            lo += 1;
        }
    }
    proof {
        if sl < el {
            assert(has_line(infos@, sl + 1));
            let j = choose|j: int| 0 <= j < infos@.len() && #[trigger] infos@[j].num == sl + 1;
            if !found {
                assert(infos@[j].num != sl + 1);
            }
            assert forall|x: int| sl + 1 <= x <= el implies #[trigger] has_line(infos@, x) by {
                assert(has_line(infos@, (x - 1) + 1));
            }
            lemma_consecutive(infos@, lo as int, sl + 1, el as int);
            assert(lo + (el - sl) <= infos@.len()) by {
                assert(infos@[lo + (el - sl - 1)].num == sl + 1 + (el - sl - 1));
            }
        }
    }
    if !found {
        lo = 0;
    }
    let count = el - sl;
    let lead0 = if sl < el { ranges[sl].0 } else { 0 };
    let lead = if lead0 <= s { lead0 } else { s };
    let last = if sl < el { ranges[el - 1].0 } else { 0 };
    proof {
        if sl < el {
            assert(pairs_view(ranges@)[el - 1] == (ranges@[el - 1].0 as int, ranges@[el - 1].1 as int));
            assert(pairs_view(ranges@)[sl as int] == (ranges@[sl as int].0 as int, ranges@[sl as int].1 as int));
            assert(lns[el - 1].0 < e);
        }
    }
    let start_width = str_width(src.substring_char(lead, s));
    let end_width = str_width(src.substring_char(last, e));
    CachedError {
        line_ids: (lo, lo + count),
        col: s - lead + 1,
        start_width,
        end_width,
        err: err.err,
    }
}

/// Errors collected with the source lines they concern, sorted by position,
/// ready to be shown.
pub struct ErrorCache<E> {
    lines: Vec<LineInfo>,
    cache: Vec<char>,
    errors: Vec<CachedError<E>>,
}

impl<E: Copy + Describe> ErrorCache<E> {
    /// The cached lines.
    pub closed spec fn line_infos(&self) -> Seq<LineInfo> {
        self.lines@
    }

    /// The text of the cached lines, one after another.
    pub closed spec fn text(&self) -> Seq<char> {
        self.cache@
    }

    /// The errors, sorted by position.
    pub closed spec fn entries(&self) -> Seq<CachedError<E>> {
        self.errors@
    }

    /// Every error's lines are among the cached ones.
    pub open spec fn wf(&self) -> bool {
        &&& forall|i: int| 0 <= i < self.line_infos().len() ==> {
            let li = #[trigger] self.line_infos()[i];
            li.span.start <= li.span.end <= self.text().len()
        }
        &&& forall|i: int| 0 <= i < self.entries().len() ==> {
            let ce = #[trigger] self.entries()[i];
            ce.line_ids.0 <= ce.line_ids.1
                && (ce.line_ids.0 < ce.line_ids.1 ==> ce.line_ids.1 <= self.line_infos().len())
        }
    }

    /// Sorts `errors` by position and caches, once each, the source lines
    /// they touch.
    pub fn from_errors_with_ctx(src: &str, errors: Vec<ErrorWithCtx<E>>) -> (r: Self)
        requires
            forall|i: int| 0 <= i < errors@.len() ==> #[trigger] errors@[i].ctx.start <= errors@[i].ctx.end <= src@.len(),
            src@.len() < usize::MAX,
        ensures
            r.wf(),
            lines_ok(src@, r.text(), r.line_infos()),
            r.entries().len() == errors@.len(),
            forall|i: int| 0 <= i < errors@.len() ==> cached_ok(src@, r.line_infos(), #[trigger] r.entries()[i], sorted_errors(errors@)[i]),
    {
        let chars = chars_of(src);
        let ranges = line_ranges(&chars);
        let ghost lns = lines(src@);
        let ghost input = errors@;
        proof {
            lemma_lines_from(src@, 0);
            lemma_sorted_errors(errors@);
            assert forall|i: int| 0 <= i < input.len() implies #[trigger] sorted_errors(input)[i].ctx.start <= sorted_errors(input)[i].ctx.end <= src@.len() by {
                let j = choose|j: int| 0 <= j < input.len() && sorted_errors(input)[i] == input[j];
                assert(input[j].ctx.start <= input[j].ctx.end);
            }
        }
        let sorted = sort_errors(errors);
        let mut infos: Vec<LineInfo> = Vec::new();
        let mut cache: Vec<char> = Vec::new();
        let mut out: Vec<CachedError<E>> = Vec::new();
        let ghost mut prev: int = 0;
        let mut i: usize = 0;
        while i < sorted.len()
            invariant
                i <= sorted@.len(),
                sorted@ == sorted_errors(input),
                sorted@.len() == input.len(),
                forall|a: int, b: int| 0 <= a < b < sorted@.len() ==> !ctx_lt(#[trigger] sorted@[b].ctx, #[trigger] sorted@[a].ctx),
                forall|k: int| 0 <= k < sorted@.len() ==> #[trigger] sorted@[k].ctx.start <= sorted@[k].ctx.end <= src@.len(),
                src@.len() < usize::MAX,
                chars@ == src@,
                pairs_view(ranges@) == lns,
                lns == lines(src@),
                ranges_ordered(lns, 0, src@.len() as int),
                lines_ok(src@, cache@, infos@),
                out@.len() == i,
                forall|k: int| 0 <= k < i ==> cached_ok(src@, infos@, #[trigger] out@[k], sorted@[k]),
                forall|k: int| 0 <= k < i ==> start_line_of(src@, #[trigger] sorted@[k].ctx) <= end_line_of(src@, sorted@[k].ctx),
                i > 0 ==> prev == start_line_of(src@, sorted@[i - 1].ctx),
                i == 0 ==> prev == 0,
                infos@.len() > 0 ==> forall|x: int| prev <= x < infos@.last().num ==> #[trigger] has_line(infos@, x + 1),
            decreases sorted@.len() - i,
        {
            let err = sorted[i];
            proof {
                lemma_partition_order(lns, src@.len() as int, err.ctx.start as int, err.ctx.end as int);
                lemma_first_end_at_least(lns, err.ctx.start as int, 0);
                if i > 0 {
                    assert(!ctx_lt(sorted@[i as int].ctx, sorted@[i - 1].ctx));
                    lemma_partition_order(lns, src@.len() as int, sorted@[i - 1].ctx.start as int, err.ctx.start as int);
                }
            }
            let ghost before = infos@;
            let ce = cache_err(src, &chars, &ranges, &mut infos, &mut cache, err, Ghost(prev));
            proof {
                assert forall|k: int| 0 <= k < i implies cached_ok(src@, infos@, #[trigger] out@[k], sorted@[k]) by {
                    lemma_cached_ok_extend(src@, before, infos@, out@[k], sorted@[k]);
                }
            }
            out.push(ce);
            proof {
                prev = start_line_of(src@, err.ctx);
                assert forall|k: int| 0 <= k < i + 1 implies cached_ok(src@, infos@, #[trigger] out@[k], sorted@[k]) by {
                }
            }
            i += 1;
        }
        ErrorCache { lines: infos, cache, errors: out }
    }
}

} // verus!
verus! {

/// The first line of every error: `error: ` in bold red, then the message.
pub open spec fn header_text(msg: Seq<char>) -> Seq<char> {
    "\x1b[1m\x1b[31merror\x1b[39m: "@ + msg + "\x1b[0m\n"@
}

/// The line pointing at the file, line and column of an error.
pub open spec fn location_text(path: Seq<char>, line: nat, col: nat) -> Seq<char> {
    "  \x1b[1m\x1b[36m-->\x1b[0m "@ + path + ":"@ + decimal(line) + ":"@ + decimal(col) + "\n"@
}

/// A source line, after its number right-aligned in `w` columns.
pub open spec fn source_text(num: nat, w: nat, text: Seq<char>) -> Seq<char> {
    "\x1b[1m\x1b[36m"@ + pad_left(decimal(num), w) + " |\x1b[0m "@ + text + "\n"@
}

/// The line under a source line: `count` red tildes after `indent` blanks.
pub open spec fn squiggle_text(w: nat, indent: nat, count: nat) -> Seq<char> {
    "\x1b[1m\x1b[36m"@ + repeat(' ', w) + " |\x1b[0m "@ + repeat(' ', indent) + "\x1b[1m\x1b[31m"@ + repeat('~', count)
        + "\x1b[0m\n"@
}

/// What stands for lines that are skipped.
pub open spec fn dots_text() -> Seq<char> {
    "\x1b[1m\x1b[36m...\x1b[0m\n"@
}

/// `a - b`, or 0 when `b` is larger.
pub open spec fn sat_sub(a: nat, b: nat) -> nat {
    if a >= b { (a - b) as nat } else { 0 }
}

/// The lines `id..hi` of an error, each with its underline. A line that is
/// empty, or whose underline would start at its end, is left out, and a run
/// of such lines is shown as one `...` line. The underline starts at
/// `indent` or at the line's first non-blank character, whichever is later
/// (for the first line `indent` is where the error starts, then 0), and runs
/// to the line's end, or to `end_width` on the last line.
pub open spec fn lines_text(
    ls: Seq<LineInfo>,
    cache: Seq<char>,
    hi: int,
    end_width: nat,
    w: nat,
    id: int,
    indent: nat,
    skipped: bool,
) -> Seq<char>
    decreases hi - id,
{
    if id < 0 || id >= hi || id >= ls.len() {
        Seq::empty()
    } else {
        let li = ls[id];
        let text = cache.subrange(li.span.start as int, li.span.end as int);
        let sw: nat = if indent >= li.whitespace_end { indent } else { li.whitespace_end as nat };
        if text.len() == 0 || sw == li.width {
            (if skipped { Seq::empty() } else { dots_text() }) + lines_text(ls, cache, hi, end_width, w, id + 1, sw, true)
        } else {
            let count = if id + 1 == hi { sat_sub(end_width, sw) } else { sat_sub(li.width as nat, sw) };
            source_text(li.num as nat, w, text) + squiggle_text(w, sw, count)
                + lines_text(ls, cache, hi, end_width, w, id + 1, 0, false)
        }
    }
}

/// `n`, or `usize::MAX` if it is larger.
pub open spec fn clamp_usize(n: int) -> nat {
    if n > usize::MAX { usize::MAX as nat } else if n < 0 { 0 } else { n as nat }
}

/// The number of the first line of an error (0 when no line is cached).
pub open spec fn first_num(ls: Seq<LineInfo>, lo: int) -> nat {
    if 0 <= lo < ls.len() { ls[lo].num as nat } else { 0 }
}

/// How one error is shown: its header, where it is, and its lines, numbered
/// in columns wide enough for the last line's number.
pub open spec fn error_text<E: Describe>(ls: Seq<LineInfo>, cache: Seq<char>, path: Seq<char>, ce: CachedError<E>) -> Seq<char> {
    let (lo, hi) = ce.line_ids;
    let start = first_num(ls, lo as int);
    let w = decimal(sat_sub(clamp_usize(start + (hi - lo)), 1)).len();
    header_text(ce.err.message_spec()) + location_text(path, start, ce.col as nat) + if lo >= hi {
        Seq::empty()
    } else {
        lines_text(ls, cache, hi as int, ce.end_width as nat, w, lo as int, ce.start_width as nat, false) + "\n"@
    }
}

/// How the errors `k..` are shown, one after another.
pub open spec fn errors_text<E: Describe>(ls: Seq<LineInfo>, cache: Seq<char>, path: Seq<char>, es: Seq<CachedError<E>>, k: int) -> Seq<char>
    decreases es.len() - k,
{
    if k < 0 || k >= es.len() {
        Seq::empty()
    } else {
        error_text(ls, cache, path, es[k]) + errors_text(ls, cache, path, es, k + 1)
    }
}

impl<E: Copy + Describe> ErrorCache<E> {
    /// How all the errors are shown, for the file at `path`.
    pub open spec fn text_for(&self, path: Seq<char>) -> Seq<char> {
        errors_text(self.line_infos(), self.text(), path, self.entries(), 0)
    }

    /// Appends one source line and its underline.
    fn push_line(&self, out: &mut Vec<char>, li: LineInfo, w: usize, sw: usize, count: usize)
        requires
            li.span.start <= li.span.end <= self.text().len(),
        ensures
            final(out)@ == old(out)@ + source_text(li.num as nat, w as nat, self.text().subrange(li.span.start as int, li.span.end as int))
                + squiggle_text(w as nat, sw as nat, count as nat),
    {
        let ghost before = out@;
        push_str(out, "\x1b[1m\x1b[36m");
        push_decimal_padded(out, li.num, w);
        push_str(out, " |\x1b[0m ");
        push_slice(out, &self.cache, li.span.start, li.span.end);
        push_str(out, "\n");
        let ghost mid = out@;
        push_str(out, "\x1b[1m\x1b[36m");
        push_repeat(out, ' ', w);
        push_str(out, " |\x1b[0m ");
        push_repeat(out, ' ', sw);
        push_str(out, "\x1b[1m\x1b[31m");
        push_repeat(out, '~', count);
        push_str(out, "\x1b[0m\n");
        proof {
            let text = self.text().subrange(li.span.start as int, li.span.end as int);
            assert(mid =~= before + source_text(li.num as nat, w as nat, text));
            assert(out@ =~= mid + squiggle_text(w as nat, sw as nat, count as nat));
        }
    }

    /// Appends the lines `id..hi` of an error with their underlines.
    #[verifier::rlimit(30)]
    fn push_lines(&self, out: &mut Vec<char>, ce: &CachedError<E>, w: usize)
        requires
            self.wf(),
            ce.line_ids.0 <= ce.line_ids.1 <= self.line_infos().len(),
        ensures
            final(out)@ == old(out)@ + lines_text(
                self.line_infos(),
                self.text(),
                ce.line_ids.1 as int,
                ce.end_width as nat,
                w as nat,
                ce.line_ids.0 as int,
                ce.start_width as nat,
                false,
            ),
    {
        let (lo, hi) = ce.line_ids;
        let ghost ls = self.line_infos();
        let ghost cache = self.text();
        let ghost ew = ce.end_width as nat;
        let mut id = lo;
        let mut sw = ce.start_width;
        let mut skipped = false;
        while id < hi
            invariant
                self.wf(),
                lo <= id <= hi <= ls.len(),
                ls == self.line_infos(),
                cache == self.text(),
                ew == ce.end_width,
                out@ + lines_text(ls, cache, hi as int, ew, w as nat, id as int, sw as nat, skipped)
                    == old(out)@ + lines_text(ls, cache, hi as int, ew, w as nat, lo as int, ce.start_width as nat, false),
            decreases hi - id,
        {
            let li = self.lines[id];
            let ghost sw0 = sw;
            let ghost skipped0 = skipped;
            proof {
                assert(ls[id as int] == li);
                assert(li.span.start <= li.span.end <= cache.len());
            }
            if sw < li.whitespace_end {
                sw = li.whitespace_end;
            }
            let ghost before = out@;
            if li.span.start == li.span.end || sw == li.width {
                if !skipped {
                    push_str(out, "\x1b[1m\x1b[36m...\x1b[0m\n");
                }
                skipped = true;
                proof {
                    assert(cache.subrange(li.span.start as int, li.span.end as int).len() == li.span.end - li.span.start);
                    assert(lines_text(ls, cache, hi as int, ew, w as nat, id as int, sw0 as nat, skipped0)
                        == (if skipped0 { Seq::<char>::empty() } else { dots_text() }) + lines_text(ls, cache, hi as int, ew, w as nat, id + 1, sw as nat, true));
                    assert(out@ + lines_text(ls, cache, hi as int, ew, w as nat, id + 1, sw as nat, true)
                        =~= before + lines_text(ls, cache, hi as int, ew, w as nat, id as int, sw0 as nat, skipped0));
                }
            } else {
                let count = if id + 1 == hi {
                    if ce.end_width >= sw { ce.end_width - sw } else { 0 }
                } else {
                    if li.width >= sw { li.width - sw } else { 0 }
                };
                self.push_line(out, li, w, sw, count);
                proof {
                    let text = cache.subrange(li.span.start as int, li.span.end as int);
                    assert(lines_text(ls, cache, hi as int, ew, w as nat, id as int, sw0 as nat, skipped0)
                        == source_text(li.num as nat, w as nat, text) + squiggle_text(w as nat, sw as nat, count as nat)
                            + lines_text(ls, cache, hi as int, ew, w as nat, id + 1, 0, false));
                    assert(out@ + lines_text(ls, cache, hi as int, ew, w as nat, id + 1, 0, false)
                        =~= before + lines_text(ls, cache, hi as int, ew, w as nat, id as int, sw0 as nat, skipped0));
                }
                sw = 0;
                skipped = false;
            }
            id += 1;
        }
    }

    /// Appends how one error is shown.
    fn push_error(&self, out: &mut Vec<char>, path: &str, ce: &CachedError<E>)
        requires
            self.wf(),
            ce.line_ids.0 <= ce.line_ids.1,
            ce.line_ids.0 < ce.line_ids.1 ==> ce.line_ids.1 <= self.line_infos().len(),
        ensures
            final(out)@ == old(out)@ + error_text(self.line_infos(), self.text(), path@, *ce),
    {
        let (lo, hi) = ce.line_ids;
        let ghost before = out@;
        push_str(out, "\x1b[1m\x1b[31merror\x1b[39m: ");
        push_str(out, ce.err.message());
        push_str(out, "\x1b[0m\n");
        let start = if lo < self.lines.len() { self.lines[lo].num } else { 0 };
        push_str(out, "  \x1b[1m\x1b[36m-->\x1b[0m ");
        push_str(out, path);
        push_str(out, ":");
        push_decimal(out, start);
        push_str(out, ":");
        push_decimal(out, ce.col);
        push_str(out, "\n");
        proof {
            assert(out@ =~= before + header_text(ce.err.message_spec()) + location_text(path@, start as nat, ce.col as nat));
        }
        if lo < hi {
            let span = hi - lo;
            let total = if span <= usize::MAX - start { start + span } else { usize::MAX };
            let last = if total >= 1 { total - 1 } else { 0 };
            let w = crate::text::decimal_len(last);
            let ghost mid = out@;
            self.push_lines(out, ce, w);
            push_str(out, "\n");
            proof {
                assert(out@ =~= mid + lines_text(self.line_infos(), self.text(), hi as int, ce.end_width as nat, w as nat, lo as int, ce.start_width as nat, false) + "\n"@);
            }
        }
    }

    /// The errors as text, each with its file name, line and column, and its
    /// lines underlined.
    pub fn display(&self, path: &str) -> (r: Vec<char>)
        requires
            self.wf(),
        ensures
            r@ == self.text_for(path@),
    {
        let mut out: Vec<char> = Vec::new();
        let mut k: usize = 0;
        while k < self.errors.len()
            invariant
                self.wf(),
                k <= self.entries().len(),
                out@ + errors_text(self.line_infos(), self.text(), path@, self.entries(), k as int) == self.text_for(path@),
            decreases self.entries().len() - k,
        {
            let ghost before = out@;
            self.push_error(&mut out, path, &self.errors[k]);
            proof {
                assert(out@ + errors_text(self.line_infos(), self.text(), path@, self.entries(), k + 1)
                    =~= before + errors_text(self.line_infos(), self.text(), path@, self.entries(), k as int));
            }
            k += 1;
        }
        proof {
            assert(out@ =~= self.text_for(path@));
        }
        out
    }
}

} // verus!
verus! {

/// Why compiling a unit failed. File paths and I/O errors are kept as
/// their text.
pub enum CompileError {
    IoError { src_path: String, err: String, msg: String },
    PreprocessorError { src_path: String, err: String },
    SyntaxErrors { src_path: String, err_cache: ErrorCache<SyntaxError> },
    SemanticErrors { src_path: String, err_cache: ErrorCache<SemanticError> },
}

/// The errors recorded while compiling, or the assembler's complaint.
pub enum BuildError {
    AssemblerError(String),
    CompileErrors(Vec<CompileError>),
}

/// Each error cache is well formed.
pub open spec fn compile_error_wf(e: CompileError) -> bool {
    match e {
        CompileError::SyntaxErrors { err_cache, .. } => err_cache.wf(),
        CompileError::SemanticErrors { err_cache, .. } => err_cache.wf(),
        _ => true,
    }
}

/// How a compile error is shown.
pub open spec fn compile_error_text(e: CompileError) -> Seq<char> {
    match e {
        CompileError::IoError { src_path, err, msg } => " --> "@ + src_path@ + "io error ["@ + err@ + "]: "@ + msg@,
        CompileError::PreprocessorError { src_path, err } => " --> "@ + src_path@ + "error: "@ + err@,
        CompileError::SyntaxErrors { src_path, err_cache } => err_cache.text_for(src_path@),
        CompileError::SemanticErrors { src_path, err_cache } => err_cache.text_for(src_path@),
    }
}

/// How the compile errors `k..` are shown, one after another.
pub open spec fn compile_errors_text(es: Seq<CompileError>, k: int) -> Seq<char>
    decreases es.len() - k,
{
    if k < 0 || k >= es.len() {
        Seq::empty()
    } else {
        compile_error_text(es[k]) + compile_errors_text(es, k + 1)
    }
}

impl CompileError {
    /// The error for syntax errors in `src`, read from `src_path`.
    pub fn from_syntax_errors(src: &str, src_path: String, errors: Vec<SyntaxErrorWithCtx>) -> (r: Self)
        requires
            forall|i: int| 0 <= i < errors@.len() ==> #[trigger] errors@[i].ctx.start <= errors@[i].ctx.end <= src@.len(),
            src@.len() < usize::MAX,
        ensures
            compile_error_wf(r),
            match r {
                CompileError::SyntaxErrors { src_path: p, err_cache } => {
                    &&& p@ == src_path@
                    &&& lines_ok(src@, err_cache.text(), err_cache.line_infos())
                    &&& err_cache.entries().len() == errors@.len()
                    &&& forall|i: int| 0 <= i < errors@.len() ==> cached_ok(src@, err_cache.line_infos(), #[trigger] err_cache.entries()[i], sorted_errors(errors@)[i])
                },
                _ => false,
            },
    {
        let err_cache = ErrorCache::from_errors_with_ctx(src, errors);
        CompileError::SyntaxErrors { src_path, err_cache }
    }

    /// The error for semantic errors in `src`, read from `src_path`.
    pub fn from_semantic_errors(src: &str, src_path: String, errors: Vec<SemanticErrorWithCtx>) -> (r: Self)
        requires
            forall|i: int| 0 <= i < errors@.len() ==> #[trigger] errors@[i].ctx.start <= errors@[i].ctx.end <= src@.len(),
            src@.len() < usize::MAX,
        ensures
            compile_error_wf(r),
            match r {
                CompileError::SemanticErrors { src_path: p, err_cache } => {
                    &&& p@ == src_path@
                    &&& lines_ok(src@, err_cache.text(), err_cache.line_infos())
                    &&& err_cache.entries().len() == errors@.len()
                    &&& forall|i: int| 0 <= i < errors@.len() ==> cached_ok(src@, err_cache.line_infos(), #[trigger] err_cache.entries()[i], sorted_errors(errors@)[i])
                },
                _ => false,
            },
    {
        let err_cache = ErrorCache::from_errors_with_ctx(src, errors);
        CompileError::SemanticErrors { src_path, err_cache }
    }

    /// Appends how the error is shown.
    fn push_text(&self, out: &mut Vec<char>)
        requires
            compile_error_wf(*self),
        ensures
            final(out)@ == old(out)@ + compile_error_text(*self),
    {
        match self {
            CompileError::IoError { src_path, err, msg } => {
                push_str(out, " --> ");
                push_str(out, src_path.as_str());
                push_str(out, "io error [");
                push_str(out, err.as_str());
                push_str(out, "]: ");
                push_str(out, msg.as_str());
                proof {
                    assert(final(out)@ =~= old(out)@ + compile_error_text(*self));
                }
            },
            CompileError::PreprocessorError { src_path, err } => {
                push_str(out, " --> ");
                push_str(out, src_path.as_str());
                push_str(out, "error: ");
                push_str(out, err.as_str());
                proof {
                    assert(final(out)@ =~= old(out)@ + compile_error_text(*self));
                }
            },
            CompileError::SyntaxErrors { src_path, err_cache } => {
                let text = err_cache.display(src_path.as_str());
                push_slice(out, &text, 0, text.len());
                proof {
                    assert(text@.subrange(0, text@.len() as int) =~= text@);
                }
            },
            CompileError::SemanticErrors { src_path, err_cache } => {
                let text = err_cache.display(src_path.as_str());
                push_slice(out, &text, 0, text.len());
                proof {
                    assert(text@.subrange(0, text@.len() as int) =~= text@);
                }
            },
        }
    }

    /// The error as text, as it is printed.
    pub fn to_string(&self) -> (r: String)
        requires
            compile_error_wf(*self),
        ensures
            r@ == compile_error_text(*self),
    {
        let mut out: Vec<char> = Vec::new();
        self.push_text(&mut out);
        proof {
            assert(out@ =~= compile_error_text(*self));
        }
        string_from_chars(&out)
    }
}

impl BuildError {
    /// The build error as text, as it is printed: the assembler's message
    /// under an error header, or each compile error in turn.
    pub fn to_string(&self) -> (r: String)
        requires
            match self {
                BuildError::CompileErrors(es) => forall|i: int| 0 <= i < es@.len() ==> compile_error_wf(#[trigger] es@[i]),
                _ => true,
            },
        ensures
            r@ == match self {
                BuildError::AssemblerError(err) => header_text(err@),
                BuildError::CompileErrors(es) => compile_errors_text(es@, 0),
            },
    {
        let mut out: Vec<char> = Vec::new();
        match self {
            BuildError::AssemblerError(err) => {
                push_str(&mut out, "\x1b[1m\x1b[31merror\x1b[39m: ");
                push_str(&mut out, err.as_str());
                push_str(&mut out, "\x1b[0m\n");
                proof {
                    assert(out@ =~= header_text(err@));
                }
            },
            BuildError::CompileErrors(es) => {
                let mut k: usize = 0;
                while k < es.len()
                    invariant
                        k <= es@.len(),
                        forall|i: int| 0 <= i < es@.len() ==> compile_error_wf(#[trigger] es@[i]),
                        out@ + compile_errors_text(es@, k as int) == compile_errors_text(es@, 0),
                    decreases es@.len() - k,
                {
                    let ghost before = out@;
                    es[k].push_text(&mut out);
                    proof {
                        assert(out@ + compile_errors_text(es@, k + 1) =~= before + compile_errors_text(es@, k as int));
                    }
                    k += 1;
                }
                proof {
                    assert(out@ =~= compile_errors_text(es@, 0));
                }
            },
        }
        string_from_chars(&out)
    }
}

} // verus!
