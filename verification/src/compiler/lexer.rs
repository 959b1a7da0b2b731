//! The lexer: turns source characters into tokens, one at a time.
use vstd::prelude::*;

use crate::compiler::error::{Context, SyntaxError};
use crate::compiler::token::{punct_spelling, Token, TokenTy};

verus! {

/// The character `peek` reports past the end of the input.
pub const EOF_CHAR: char = '\0';

/// Whether std's `char::is_alphabetic` holds of `c` (the Unicode
/// `Alphabetic` property).
pub uninterp spec fn alphabetic(c: char) -> bool;

/// Whether std's `char::is_alphanumeric` holds of `c` (`Alphabetic` or
/// `Numeric`).
pub uninterp spec fn alphanumeric(c: char) -> bool;

/// `char::is_alphabetic`; its result is named. Of ASCII it is stated: the
/// ASCII characters with the Unicode `Alphabetic` property are the letters.
#[verifier::external_body]
fn is_alphabetic(c: char) -> (r: bool)
    ensures
        r == alphabetic(c),
        c < '\u{80}' ==> (r <==> spec_is_ascii_alphabetic(c)),
{
    c.is_alphabetic()
}

/// `char::is_alphanumeric`; its result is named. Of ASCII it is stated:
/// the ASCII characters that are `Alphabetic` or `Numeric` are the letters
/// and the digits.
#[verifier::external_body]
fn is_alphanumeric(c: char) -> (r: bool)
    ensures
        r == alphanumeric(c),
        c < '\u{80}' ==> (r <==> (spec_is_ascii_alphabetic(c) || spec_is_ascii_digit(c))),
{
    c.is_alphanumeric()
}

pub open spec fn spec_is_ascii_digit(c: char) -> bool {
    '0' <= c && c <= '9'
}

pub open spec fn spec_is_ascii_alphabetic(c: char) -> bool {
    ('a' <= c && c <= 'z') || ('A' <= c && c <= 'Z')
}

pub open spec fn spec_is_ascii_alphanumeric(c: char) -> bool {
    spec_is_ascii_digit(c) || spec_is_ascii_alphabetic(c)
}

/// The characters skipped between tokens.
pub open spec fn is_blank(c: char) -> bool {
    c == ' ' || c == '\t' || c == '\r' || c == '\n'
}

/// An ASCII decimal digit.
pub fn is_ascii_digit(c: char) -> (r: bool)
    ensures
        r == spec_is_ascii_digit(c),
{
    '0' <= c && c <= '9'
}

/// An ASCII letter.
pub fn is_ascii_alphabetic(c: char) -> (r: bool)
    ensures
        r == spec_is_ascii_alphabetic(c),
{
    ('a' <= c && c <= 'z') || ('A' <= c && c <= 'Z')
}

/// An ASCII letter or digit.
pub fn is_ascii_alphanumeric(c: char) -> (r: bool)
    ensures
        r == spec_is_ascii_alphanumeric(c),
{
    is_ascii_digit(c) || is_ascii_alphabetic(c)
}

/// The character at `i`, or `EOF_CHAR` outside the input.
pub open spec fn char_at(s: Seq<char>, i: int) -> char {
    if 0 <= i < s.len() {
        s[i]
    } else {
        '\0'
    }
}

/// The position just past the newline that ends a line comment whose text
/// starts at `i` (the end of input if there is none).
pub open spec fn line_comment_end(s: Seq<char>, i: int) -> int
    decreases s.len() - i,
{
    if i >= s.len() {
        s.len() as int
    } else if s[i] == '\n' {
        i + 1
    } else {
        line_comment_end(s, i + 1)
    }
}

/// The position just past the `*/` that closes a block comment whose text
/// starts at `i`, if there is one.
pub open spec fn block_comment_end(s: Seq<char>, i: int) -> Option<int>
    decreases s.len() - i,
{
    if i >= s.len() {
        None
    } else if s[i] == '*' && char_at(s, i + 1) == '/' {
        Some(i + 2)
    } else {
        block_comment_end(s, i + 1)
    }
}

pub proof fn lemma_line_comment_end(s: Seq<char>, i: int)
    requires
        0 <= i,
    ensures
        i <= line_comment_end(s, i) <= s.len() || (i > s.len() && line_comment_end(s, i) == s.len()),
        i <= s.len() ==> i <= line_comment_end(s, i) <= s.len(),
    decreases s.len() - i,
{
    if i < s.len() && s[i] != '\n' {
        lemma_line_comment_end(s, i + 1);
    }
}

pub proof fn lemma_block_comment_end(s: Seq<char>, i: int)
    requires
        0 <= i,
    ensures
        block_comment_end(s, i) matches Some(j) ==> i + 2 <= j <= s.len(),
    decreases s.len() - i,
{
    if i < s.len() && !(s[i] == '*' && char_at(s, i + 1) == '/') {
        lemma_block_comment_end(s, i + 1);
    }
}

/// Where the next token starts when lexing resumes at `i`, after blanks,
/// line comments and block comments; `None` when a block comment is never
/// closed.
pub open spec fn skip_trivia(s: Seq<char>, i: int) -> Option<int>
    decreases s.len() - i,
{
    if i < 0 || i >= s.len() {
        Some(i)
    } else if s[i] == '/' && char_at(s, i + 1) == '/' {
        let j = line_comment_end(s, i + 2);
        proof {
            lemma_line_comment_end(s, i + 2);
        }
        if j <= i {
            None
        } else {
            skip_trivia(s, j)
        }
    } else if s[i] == '/' && char_at(s, i + 1) == '*' {
        proof {
            lemma_block_comment_end(s, i + 2);
        }
        match block_comment_end(s, i + 2) {
            Some(j) => skip_trivia(s, j),
            None => None,
        }
    } else if is_blank(s[i]) {
        skip_trivia(s, i + 1)
    } else {
        Some(i)
    }
}

/// The first position at or after `i` that does not hold an ASCII digit.
pub open spec fn digits_end(s: Seq<char>, i: int) -> int
    decreases s.len() - i,
{
    if 0 <= i < s.len() && spec_is_ascii_digit(s[i]) {
        digits_end(s, i + 1)
    } else {
        i
    }
}

/// The first position at or after `i` that does not hold an ASCII letter or
/// digit.
pub open spec fn ascii_alnum_end(s: Seq<char>, i: int) -> int
    decreases s.len() - i,
{
    if 0 <= i < s.len() && spec_is_ascii_alphanumeric(s[i]) {
        ascii_alnum_end(s, i + 1)
    } else {
        i
    }
}

/// The first position at or after `i` that does not hold an alphanumeric
/// character.
pub open spec fn alnum_end(s: Seq<char>, i: int) -> int
    decreases s.len() - i,
{
    if 0 <= i < s.len() && alphanumeric(s[i]) {
        alnum_end(s, i + 1)
    } else {
        i
    }
}

/// Where a floating-point literal whose digits end at `j` ends: an optional
/// fraction (`.` and digits), then an optional exponent (`e` or `E`, an
/// optional sign, digits).
pub open spec fn float_end(s: Seq<char>, j: int) -> int {
    let k = if char_at(s, j) == '.' { digits_end(s, j + 1) } else { j };
    if char_at(s, k) == 'e' || char_at(s, k) == 'E' {
        let m = if char_at(s, k + 1) == '+' || char_at(s, k + 1) == '-' { k + 2 } else { k + 1 };
        digits_end(s, m)
    } else {
        k
    }
}

/// A numeric literal whose first digit precedes `i`: the token kind and
/// where it ends. A floating-point literal is one token over the whole
/// literal; the language has no floating-point type, so it is an error.
pub open spec fn scan_number(s: Seq<char>, i: int) -> (TokenTy, int) {
    let j = digits_end(s, i);
    let c = char_at(s, j);
    if c == '.' || c == 'e' {
        (TokenTy::Error(SyntaxError::UnknownSymbol), float_end(s, j))
    } else if spec_is_ascii_alphabetic(c) {
        (TokenTy::Error(SyntaxError::InvalidIntegerSuffix), ascii_alnum_end(s, j))
    } else {
        (TokenTy::Const, j)
    }
}

/// The input continues at `i` with `target`.
pub open spec fn continues_with(s: Seq<char>, i: int, target: Seq<char>) -> bool {
    0 <= i && i + target.len() <= s.len() && s.subrange(i, i + target.len()) == target
}

/// A word whose first letter precedes `i`: the keyword `ty` when the rest
/// of its letters and digits are exactly `rest`, an identifier otherwise.
pub open spec fn scan_keyword(s: Seq<char>, i: int, ty: TokenTy, rest: Seq<char>) -> (TokenTy, int) {
    if continues_with(s, i, rest) && !(i + rest.len() < s.len() && alphanumeric(s[i + rest.len()])) {
        (ty, i + rest.len())
    } else {
        (TokenTy::Identifier, alnum_end(s, i))
    }
}

/// A word that starts with the letter `c`, the rest starting at `i`.
pub open spec fn scan_word(s: Seq<char>, c: char, i: int) -> (TokenTy, int) {
    let ident = (TokenTy::Identifier, alnum_end(s, i));
    if c == 'b' {
        scan_keyword(s, i, TokenTy::Break, seq!['r', 'e', 'a', 'k'])
    } else if c == 'c' {
        if char_at(s, i) == 'a' {
            scan_keyword(s, i, TokenTy::Case, seq!['a', 's', 'e'])
        } else if char_at(s, i) == 'o' {
            scan_keyword(s, i, TokenTy::Continue, seq!['o', 'n', 't', 'i', 'n', 'u', 'e'])
        } else {
            ident
        }
    } else if c == 'd' {
        if char_at(s, i) == 'e' {
            scan_keyword(s, i, TokenTy::Default, seq!['e', 'f', 'a', 'u', 'l', 't'])
        } else if char_at(s, i) == 'o' {
            scan_keyword(s, i, TokenTy::Do, seq!['o'])
        } else {
            ident
        }
    } else if c == 'e' {
        scan_keyword(s, i, TokenTy::Else, seq!['l', 's', 'e'])
    } else if c == 'f' {
        scan_keyword(s, i, TokenTy::For, seq!['o', 'r'])
    } else if c == 'g' {
        scan_keyword(s, i, TokenTy::Goto, seq!['o', 't', 'o'])
    } else if c == 'i' {
        if char_at(s, i) == 'f' {
            scan_keyword(s, i, TokenTy::If, seq!['f'])
        } else if char_at(s, i) == 'n' {
            scan_keyword(s, i, TokenTy::Int, seq!['n', 't'])
        } else {
            ident
        }
    } else if c == 'r' {
        scan_keyword(s, i, TokenTy::Return, seq!['e', 't', 'u', 'r', 'n'])
    } else if c == 's' {
        scan_keyword(s, i, TokenTy::Switch, seq!['w', 'i', 't', 'c', 'h'])
    } else if c == 't' {
        scan_keyword(s, i, TokenTy::Typedef, seq!['y', 'p', 'e', 'd', 'e', 'f'])
    } else if c == 'v' {
        scan_keyword(s, i, TokenTy::Void, seq!['o', 'i', 'd'])
    } else if c == 'w' {
        scan_keyword(s, i, TokenTy::While, seq!['h', 'i', 'l', 'e'])
    } else {
        ident
    }
}

/// An operator that may be followed by `=` (`op=`) or doubled (`opop`).
pub open spec fn scan_op(s: Seq<char>, i: int, single: TokenTy, doubled: Option<TokenTy>, with_eq: Option<TokenTy>) -> (TokenTy, int) {
    let c = s[i];
    if doubled is Some && char_at(s, i + 1) == c {
        (doubled->0, i + 2)
    } else if with_eq is Some && char_at(s, i + 1) == '=' {
        (with_eq->0, i + 2)
    } else {
        (single, i + 1)
    }
}

/// The token that starts at `i` (which holds no blank or comment) and the
/// position just past it.
pub open spec fn scan_token(s: Seq<char>, i: int) -> (TokenTy, int) {
    let c = s[i];
    let n = char_at(s, i + 1);
    if c == '(' {
        (TokenTy::OpenParen, i + 1)
    } else if c == ')' {
        (TokenTy::CloseParen, i + 1)
    } else if c == '{' {
        (TokenTy::OpenBrace, i + 1)
    } else if c == '}' {
        (TokenTy::CloseBrace, i + 1)
    } else if c == '[' {
        (TokenTy::OpenSquare, i + 1)
    } else if c == ']' {
        (TokenTy::CloseSquare, i + 1)
    } else if c == '.' {
        (TokenTy::Dot, i + 1)
    } else if c == '~' {
        (TokenTy::Tilde, i + 1)
    } else if c == ';' {
        (TokenTy::Semicolon, i + 1)
    } else if c == ':' {
        (TokenTy::Colon, i + 1)
    } else if c == '?' {
        (TokenTy::QuestionMark, i + 1)
    } else if c == '+' {
        scan_op(s, i, TokenTy::Plus, Some(TokenTy::PlusPlus), Some(TokenTy::PlusEqual))
    } else if c == '-' {
        scan_op(s, i, TokenTy::Minus, Some(TokenTy::MinusMinus), Some(TokenTy::MinusEqual))
    } else if c == '*' {
        scan_op(s, i, TokenTy::Star, None, Some(TokenTy::StarEqual))
    } else if c == '/' {
        scan_op(s, i, TokenTy::Slash, None, Some(TokenTy::SlashEqual))
    } else if c == '%' {
        scan_op(s, i, TokenTy::Percent, None, Some(TokenTy::PercentEqual))
    } else if c == '>' {
        if n == '>' {
            if char_at(s, i + 2) == '=' {
                (TokenTy::GreaterGreaterEqual, i + 3)
            } else {
                (TokenTy::GreaterGreater, i + 2)
            }
        } else {
            scan_op(s, i, TokenTy::Greater, None, Some(TokenTy::GreaterEqual))
        }
    } else if c == '<' {
        if n == '<' {
            if char_at(s, i + 2) == '=' {
                (TokenTy::LessLessEqual, i + 3)
            } else {
                (TokenTy::LessLess, i + 2)
            }
        } else {
            scan_op(s, i, TokenTy::Less, None, Some(TokenTy::LessEqual))
        }
    } else if c == '=' {
        scan_op(s, i, TokenTy::Equal, None, Some(TokenTy::EqualEqual))
    } else if c == '!' {
        scan_op(s, i, TokenTy::Bang, None, Some(TokenTy::BangEqual))
    } else if c == '&' {
        scan_op(s, i, TokenTy::Ampersand, Some(TokenTy::AmpersandAmpersand), Some(TokenTy::AmpersandEqual))
    } else if c == '^' {
        scan_op(s, i, TokenTy::Caret, None, Some(TokenTy::CaretEqual))
    } else if c == '|' {
        scan_op(s, i, TokenTy::Pipe, Some(TokenTy::PipePipe), Some(TokenTy::PipeEqual))
    } else if spec_is_ascii_digit(c) {
        scan_number(s, i + 1)
    } else if alphabetic(c) {
        scan_word(s, c, i + 1)
    } else {
        (TokenTy::Error(SyntaxError::UnknownSymbol), i + 1)
    }
}

/// The next token produced from position `i`: its kind and range.
pub open spec fn next_token(s: Seq<char>, i: int) -> (TokenTy, int, int) {
    match skip_trivia(s, i) {
        None => (TokenTy::Error(SyntaxError::UnterminatedBlockComment), i, s.len() as int),
        Some(p) => if p >= s.len() {
            (TokenTy::Eof, p, p)
        } else {
            let (ty, e) = scan_token(s, p);
            (ty, p, e)
        },
    }
}

pub proof fn lemma_skip_trivia(s: Seq<char>, i: int)
    requires
        0 <= i <= s.len(),
    ensures
        skip_trivia(s, i) matches Some(p) ==> i <= p <= s.len(),
    decreases s.len() - i,
{
    if i < s.len() {
        if s[i] == '/' && char_at(s, i + 1) == '/' {
            lemma_line_comment_end(s, i + 2);
            let j = line_comment_end(s, i + 2);
            if j > i {
                lemma_skip_trivia(s, j);
            }
        } else if s[i] == '/' && char_at(s, i + 1) == '*' {
            lemma_block_comment_end(s, i + 2);
            if let Some(j) = block_comment_end(s, i + 2) {
                lemma_skip_trivia(s, j);
            }
        } else if is_blank(s[i]) {
            lemma_skip_trivia(s, i + 1);
        }
    }
}

pub proof fn lemma_digits_end(s: Seq<char>, i: int)
    requires
        0 <= i <= s.len(),
    ensures
        i <= digits_end(s, i) <= s.len(),
    decreases s.len() - i,
{
    if i < s.len() && spec_is_ascii_digit(s[i]) {
        lemma_digits_end(s, i + 1);
    }
}

pub proof fn lemma_ascii_alnum_end(s: Seq<char>, i: int)
    requires
        0 <= i <= s.len(),
    ensures
        i <= ascii_alnum_end(s, i) <= s.len(),
    decreases s.len() - i,
{
    if i < s.len() && spec_is_ascii_alphanumeric(s[i]) {
        lemma_ascii_alnum_end(s, i + 1);
    }
}

pub proof fn lemma_alnum_end(s: Seq<char>, i: int)
    requires
        0 <= i <= s.len(),
    ensures
        i <= alnum_end(s, i) <= s.len(),
    decreases s.len() - i,
{
    if i < s.len() && alphanumeric(s[i]) {
        lemma_alnum_end(s, i + 1);
    }
}

pub proof fn lemma_scan_word(s: Seq<char>, c: char, i: int)
    requires
        0 <= i <= s.len(),
    ensures
        i <= scan_word(s, c, i).1 <= s.len(),
{
    lemma_alnum_end(s, i);
}

/// Every token other than the end of input covers at least one character,
/// and lies within the input.
pub proof fn lemma_float_end(s: Seq<char>, j: int)
    requires
        0 <= j <= s.len(),
    ensures
        j <= float_end(s, j) <= s.len(),
{
    let k = if char_at(s, j) == '.' { digits_end(s, j + 1) } else { j };
    if char_at(s, j) == '.' {
        lemma_digits_end(s, j + 1);
    }
    if char_at(s, k) == 'e' || char_at(s, k) == 'E' {
        let m = if char_at(s, k + 1) == '+' || char_at(s, k + 1) == '-' { k + 2 } else { k + 1 };
        lemma_digits_end(s, m);
    }
}

pub proof fn lemma_scan_token(s: Seq<char>, p: int)
    requires
        0 <= p < s.len(),
    ensures
        p < scan_token(s, p).1 <= s.len(),
{
    let c = s[p];
    if spec_is_ascii_digit(c) && !(c == '(' || c == ')' || c == '{' || c == '}' || c == '[' || c == ']'
        || c == '.' || c == '~' || c == ';' || c == ':' || c == '?' || c == '+' || c == '-' || c == '*'
        || c == '/' || c == '%' || c == '>' || c == '<' || c == '=' || c == '!' || c == '&' || c == '^'
        || c == '|') {
        lemma_digits_end(s, p + 1);
        lemma_ascii_alnum_end(s, digits_end(s, p + 1));
        lemma_float_end(s, digits_end(s, p + 1));
    }
    lemma_scan_word(s, c, p + 1);
}

/// Tokens come in order through the input: the next token starts no
/// earlier than where lexing resumes and ends within the input; only the end
/// of input is empty, and it sits at the very end.
pub proof fn lemma_next_token(s: Seq<char>, i: int)
    requires
        0 <= i <= s.len(),
    ensures
        ({
            let (ty, a, b) = next_token(s, i);
            &&& i <= a <= b <= s.len()
            &&& ty == TokenTy::Eof <==> a == b
            &&& ty == TokenTy::Eof ==> b == s.len()
            &&& ty != TokenTy::Eof && !(ty == TokenTy::Error(SyntaxError::UnterminatedBlockComment) && a == b) ==> a < b
        }),
{
    lemma_skip_trivia(s, i);
    if let Some(p) = skip_trivia(s, i) {
        if p < s.len() {
            lemma_scan_token(s, p);
        }
    }
}

/// Law: a punctuator covers exactly its C spelling. When the token that
/// starts at `i` is a punctuator, the characters it covers are how C
/// spells that punctuator (`>=` for `GreaterEqual`, `>` for `Greater`).
pub proof fn law_punctuator_covers_its_spelling(s: Seq<char>, i: int)
    requires
        0 <= i < s.len(),
    ensures
        ({
            let (ty, e) = scan_token(s, i);
            punct_spelling(ty).len() > 0 ==> e == i + punct_spelling(ty).len() && s.subrange(i, e) == punct_spelling(ty)
        }),
{
    let (ty, e) = scan_token(s, i);
    lemma_scan_token(s, i);
    let sp = punct_spelling(ty);
    if sp.len() > 0 {
        assert(e == i + sp.len());
        assert(s[i] == sp[0]);
        if sp.len() > 1 {
            assert(s[i + 1] == sp[1]);
        }
        if sp.len() > 2 {
            assert(s[i + 2] == sp[2]);
        }
        assert(s.subrange(i, e) =~= sp);
    }
}

/// Law: the lexer takes the longest punctuator. When the input at `i`
/// continues with the spelling of some punctuator `t`, the token that
/// starts there is a punctuator spelled at least as long, so `>=` is never
/// taken as `>` followed by `=`.
pub proof fn law_longest_punctuator(s: Seq<char>, i: int, t: TokenTy)
    requires
        0 <= i < s.len(),
        punct_spelling(t).len() > 0,
        continues_with(s, i, punct_spelling(t)),
    ensures
        punct_spelling(scan_token(s, i).0).len() >= punct_spelling(t).len(),
{
    let sp = punct_spelling(t);
    assert(s[i] == s.subrange(i, i + sp.len())[0]);
    if sp.len() > 1 {
        assert(s[i + 1] == s.subrange(i, i + sp.len())[1]);
    }
    if sp.len() > 2 {
        assert(s[i + 2] == s.subrange(i, i + sp.len())[2]);
    }
}

/// Converts a string slice to its characters.
pub fn chars_of(s: &str) -> (r: Vec<char>)
    ensures
        r@ == s@,
{
    broadcast use vstd::string::group_string_axioms;

    let mut v: Vec<char> = Vec::new();
    for c in it: s.chars()
        invariant
            v@ == it.seq().take(it.index() as int),
    {
        v.push(c);
    }
    v
}

/// Produces tokens from a source text on demand.
pub struct Lexer {
    src: Vec<char>,
    pos: usize,
    start: usize,
}

impl Lexer {
    /// The characters being lexed.
    pub closed spec fn source(&self) -> Seq<char> {
        self.src@
    }

    /// Where lexing resumes.
    pub closed spec fn position(&self) -> int {
        self.pos as int
    }

    /// The lexer's position lies within its input.
    pub closed spec fn wf(&self) -> bool {
        &&& self.start == self.pos
        &&& self.pos <= self.src@.len()
        &&& self.src@.len() <= usize::MAX
    }

    /// The input's length fits a `usize`.
    pub proof fn lemma_source_fits(&self)
        requires
            self.wf(),
        ensures
            self.source().len() <= usize::MAX,
    {
    }

    /// The character at position `i` of the input.
    pub fn char_at(&self, i: usize) -> (c: char)
        requires
            i < self.source().len(),
        ensures
            c == self.source()[i as int],
    {
        self.src[i]
    }

    /// The length of the input, in characters.
    pub fn source_len(&self) -> (r: usize)
        ensures
            r == self.source().len(),
    {
        self.src.len()
    }

    pub fn new(input: &str) -> (r: Self)
        ensures
            r.wf(),
            r.source() == input@,
            r.position() == 0,
    {
        let src = chars_of(input);
        let _n = src.len();
        Lexer { src, pos: 0, start: 0 }
    }

    /// Lexes the next token: blanks and comments are skipped, then the
    /// longest token at that point is taken. At the end of the input every
    /// call gives `Eof`.
    pub fn advance_token(&mut self) -> (tok: Token)
        requires
            old(self).wf(),
        ensures
            final(self).wf(),
            final(self).source() == old(self).source(),
            next_token(old(self).source(), old(self).position()) == (
                tok.ty,
                tok.ctx.start as int,
                tok.ctx.end as int,
            ),
            final(self).position() == tok.ctx.end,
    {
        if let Err(err) = self.skip_whitespace() {
            return self.emit_token(TokenTy::Error(err));
        }
        let ghost p = self.pos as int;
        let c = match self.advance() {
            Some(c) => c,
            None => {
                return self.emit_token(TokenTy::Eof);
            },
        };
        let ty = if c == '(' {
            TokenTy::OpenParen
        } else if c == ')' {
            TokenTy::CloseParen
        } else if c == '{' {
            TokenTy::OpenBrace
        } else if c == '}' {
            TokenTy::CloseBrace
        } else if c == '[' {
            TokenTy::OpenSquare
        } else if c == ']' {
            TokenTy::CloseSquare
        } else if c == '.' {
            TokenTy::Dot
        } else if c == '~' {
            TokenTy::Tilde
        } else if c == ';' {
            TokenTy::Semicolon
        } else if c == ':' {
            TokenTy::Colon
        } else if c == '?' {
            TokenTy::QuestionMark
        } else if c == '+' {
            if self.eat_if('+') {
                TokenTy::PlusPlus
            } else if self.eat_if('=') {
                TokenTy::PlusEqual
            } else {
                TokenTy::Plus
            }
        } else if c == '-' {
            if self.eat_if('-') {
                TokenTy::MinusMinus
            } else if self.eat_if('=') {
                TokenTy::MinusEqual
            } else {
                TokenTy::Minus
            }
        } else if c == '*' {
            if self.eat_if('=') {
                TokenTy::StarEqual
            } else {
                TokenTy::Star
            }
        } else if c == '/' {
            if self.eat_if('=') {
                TokenTy::SlashEqual
            } else {
                TokenTy::Slash
            }
        } else if c == '%' {
            if self.eat_if('=') {
                TokenTy::PercentEqual
            } else {
                TokenTy::Percent
            }
        } else if c == '>' {
            if self.eat_if('>') {
                if self.eat_if('=') {
                    TokenTy::GreaterGreaterEqual
                } else {
                    TokenTy::GreaterGreater
                }
            } else if self.eat_if('=') {
                TokenTy::GreaterEqual
            } else {
                TokenTy::Greater
            }
        } else if c == '<' {
            if self.eat_if('<') {
                if self.eat_if('=') {
                    TokenTy::LessLessEqual
                } else {
                    TokenTy::LessLess
                }
            } else if self.eat_if('=') {
                TokenTy::LessEqual
            } else {
                TokenTy::Less
            }
        } else if c == '=' {
            if self.eat_if('=') {
                TokenTy::EqualEqual
            } else {
                TokenTy::Equal
            }
        } else if c == '!' {
            if self.eat_if('=') {
                TokenTy::BangEqual
            } else {
                TokenTy::Bang
            }
        } else if c == '&' {
            if self.eat_if('&') {
                TokenTy::AmpersandAmpersand
            } else if self.eat_if('=') {
                TokenTy::AmpersandEqual
            } else {
                TokenTy::Ampersand
            }
        } else if c == '^' {
            if self.eat_if('=') {
                TokenTy::CaretEqual
            } else {
                TokenTy::Caret
            }
        } else if c == '|' {
            if self.eat_if('|') {
                TokenTy::PipePipe
            } else if self.eat_if('=') {
                TokenTy::PipeEqual
            } else {
                TokenTy::Pipe
            }
        } else if is_ascii_digit(c) {
            self.number()
        } else if is_alphabetic(c) {
            self.identifier(c)
        } else {
            TokenTy::Error(SyntaxError::UnknownSymbol)
        };
        proof {
            assert(scan_token(self.src@, p) == (ty, self.pos as int));
        }
        self.emit_token(ty)
    }
}

impl Lexer {
    /// The token of kind `ty` covering everything consumed since the last
    /// token.
    fn emit_token(&mut self, ty: TokenTy) -> (tok: Token)
        requires
            old(self).start <= old(self).pos <= old(self).src@.len(),
        ensures
            tok.ty == ty,
            tok.ctx.start == old(self).start,
            tok.ctx.end == old(self).pos,
            final(self).src == old(self).src,
            final(self).pos == old(self).pos,
            final(self).start == old(self).pos,
    {
        let start = self.start;
        self.start = self.pos;
        Token::new(ty, start, self.pos)
    }

    /// Consumes and returns the next character, if any.
    fn advance(&mut self) -> (r: Option<char>)
        requires
            old(self).pos <= old(self).src@.len(),
        ensures
            final(self).src == old(self).src,
            final(self).start == old(self).start,
            old(self).pos < old(self).src@.len() ==> r == Some(old(self).src@[old(self).pos as int])
                && final(self).pos == old(self).pos + 1,
            old(self).pos >= old(self).src@.len() ==> r is None && final(self).pos == old(self).pos,
    {
        if self.pos < self.src.len() {
            let c = self.src[self.pos];
            self.pos += 1;
            Some(c)
        } else {
            None
        }
    }

    /// The next character, without consuming it.
    fn peek(&self) -> (r: char)
        ensures
            r == char_at(self.src@, self.pos as int),
    {
        if self.pos < self.src.len() {
            self.src[self.pos]
        } else {
            EOF_CHAR
        }
    }

    /// The character after the next one, without consuming anything.
    fn peek_next(&self) -> (r: char)
        ensures
            r == char_at(self.src@, self.pos + 1),
    {
        if self.pos < self.src.len() && self.pos + 1 < self.src.len() {
            self.src[self.pos + 1]
        } else {
            EOF_CHAR
        }
    }

    /// Consumes the next character when it is `expected`.
    fn eat_if(&mut self, expected: char) -> (r: bool)
        requires
            old(self).pos <= old(self).src@.len(),
            expected != EOF_CHAR,
        ensures
            final(self).src == old(self).src,
            final(self).start == old(self).start,
            r == (char_at(old(self).src@, old(self).pos as int) == expected),
            r ==> final(self).pos == old(self).pos + 1,
            !r ==> final(self).pos == old(self).pos,
    {
        if self.peek() == expected {
            self.advance();
            true
        } else {
            false
        }
    }

    /// Consumes ASCII digits.
    fn eat_digits(&mut self)
        requires
            old(self).pos <= old(self).src@.len(),
        ensures
            final(self).src == old(self).src,
            final(self).start == old(self).start,
            old(self).pos <= final(self).pos <= final(self).src@.len(),
            final(self).pos == digits_end(old(self).src@, old(self).pos as int),
    {
        while self.pos < self.src.len() && is_ascii_digit(self.src[self.pos])
            invariant
                self.src == old(self).src,
                self.start == old(self).start,
                old(self).pos <= self.pos <= self.src@.len(),
                digits_end(self.src@, self.pos as int) == digits_end(self.src@, old(self).pos as int),
            decreases self.src@.len() - self.pos,
        {
            self.pos += 1;
        }
    }

    /// Consumes ASCII letters and digits.
    fn eat_ascii_alphanumeric(&mut self)
        requires
            old(self).pos <= old(self).src@.len(),
        ensures
            final(self).src == old(self).src,
            final(self).start == old(self).start,
            old(self).pos <= final(self).pos <= final(self).src@.len(),
            final(self).pos == ascii_alnum_end(old(self).src@, old(self).pos as int),
    {
        while self.pos < self.src.len() && is_ascii_alphanumeric(self.src[self.pos])
            invariant
                self.src == old(self).src,
                self.start == old(self).start,
                old(self).pos <= self.pos <= self.src@.len(),
                ascii_alnum_end(self.src@, self.pos as int) == ascii_alnum_end(self.src@, old(self).pos as int),
            decreases self.src@.len() - self.pos,
        {
            self.pos += 1;
        }
    }

    /// Consumes alphanumeric characters.
    fn eat_alphanumeric(&mut self)
        requires
            old(self).pos <= old(self).src@.len(),
        ensures
            final(self).src == old(self).src,
            final(self).start == old(self).start,
            old(self).pos <= final(self).pos <= final(self).src@.len(),
            final(self).pos == alnum_end(old(self).src@, old(self).pos as int),
    {
        while self.pos < self.src.len() && is_alphanumeric(self.src[self.pos])
            invariant
                self.src == old(self).src,
                self.start == old(self).start,
                old(self).pos <= self.pos <= self.src@.len(),
                alnum_end(self.src@, self.pos as int) == alnum_end(self.src@, old(self).pos as int),
            decreases self.src@.len() - self.pos,
        {
            self.pos += 1;
        }
    }

    /// Skips blanks and comments; on success the next token starts where
    /// they end.
    fn skip_whitespace(&mut self) -> (r: Result<(), SyntaxError>)
        requires
            old(self).wf(),
        ensures
            final(self).src == old(self).src,
            final(self).pos <= final(self).src@.len(),
            match skip_trivia(old(self).src@, old(self).pos as int) {
                Some(p) => r is Ok && final(self).pos == p && final(self).start == p,
                None => r == Err::<(), SyntaxError>(SyntaxError::UnterminatedBlockComment)
                    && final(self).start == old(self).start
                    && final(self).pos == final(self).src@.len(),
            },
    {
        loop
            invariant
                self.src == old(self).src,
                self.start == old(self).start,
                old(self).pos <= self.pos <= self.src@.len(),
                skip_trivia(self.src@, self.pos as int) == skip_trivia(self.src@, old(self).pos as int),
            ensures
                self.src == old(self).src,
                old(self).pos <= self.pos <= self.src@.len(),
                skip_trivia(self.src@, old(self).pos as int) == Some(self.pos as int),
            decreases self.src@.len() - self.pos,
        {
            let c = self.peek();
            if c == '/' && self.peek_next() == '/' {
                proof {
                    lemma_line_comment_end(self.src@, self.pos + 2);
                }
                self.line_comment();
            } else if c == '/' && self.peek_next() == '*' {
                proof {
                    lemma_block_comment_end(self.src@, self.pos + 2);
                }
                let r = self.block_comment();
                if r.is_err() {
                    return r;
                }
            } else if c == ' ' || c == '\t' || c == '\r' || c == '\n' {
                self.advance();
            } else {
                proof {
                    assert(skip_trivia(self.src@, self.pos as int) == Some(self.pos as int));
                }
                break;
            }
        }
        self.start = self.pos;
        Ok(())
    }

    /// A `//` comment: runs to the end of the line.
    fn line_comment(&mut self)
        requires
            old(self).pos + 1 < old(self).src@.len(),
        ensures
            final(self).src == old(self).src,
            final(self).start == old(self).start,
            final(self).pos == line_comment_end(old(self).src@, old(self).pos + 2),
    {
        self.advance();
        self.advance();
        while self.pos < self.src.len()
            invariant
                self.src == old(self).src,
                self.start == old(self).start,
                old(self).pos + 2 <= self.pos <= self.src@.len(),
                line_comment_end(self.src@, self.pos as int) == line_comment_end(self.src@, old(self).pos + 2),
            decreases self.src@.len() - self.pos,
        {
            let c = self.src[self.pos];
            self.pos += 1;
            if c == '\n' {
                return;
            }
        }
    }

    /// A `/* */` comment: runs to its closer, which is consumed too.
    fn block_comment(&mut self) -> (r: Result<(), SyntaxError>)
        requires
            old(self).pos + 1 < old(self).src@.len(),
        ensures
            final(self).src == old(self).src,
            final(self).start == old(self).start,
            final(self).pos <= final(self).src@.len(),
            match block_comment_end(old(self).src@, old(self).pos + 2) {
                Some(j) => r is Ok && final(self).pos == j,
                None => r == Err::<(), SyntaxError>(SyntaxError::UnterminatedBlockComment)
                    && final(self).pos == final(self).src@.len(),
            },
    {
        self.advance();
        self.advance();
        while self.pos < self.src.len()
            invariant
                self.src == old(self).src,
                self.start == old(self).start,
                old(self).pos + 2 <= self.pos <= self.src@.len(),
                block_comment_end(self.src@, self.pos as int) == block_comment_end(self.src@, old(self).pos + 2),
            decreases self.src@.len() - self.pos,
        {
            let c = self.src[self.pos];
            self.pos += 1;
            if c == '*' && self.peek() == '/' {
                self.pos += 1;
                return Ok(());
            }
        }
        Err(SyntaxError::UnterminatedBlockComment)
    }

    /// A number whose first digit was consumed: integers only.
    fn number(&mut self) -> (ty: TokenTy)
        requires
            old(self).pos <= old(self).src@.len(),
        ensures
            final(self).src == old(self).src,
            final(self).start == old(self).start,
            old(self).pos <= final(self).pos <= final(self).src@.len(),
            scan_number(old(self).src@, old(self).pos as int) == (ty, final(self).pos as int),
    {
        self.eat_digits();
        let c = self.peek();
        if c == '.' || c == 'e' {
            proof {
                lemma_float_end(self.src@, self.pos as int);
            }
            self.float()
        } else if is_ascii_alphabetic(c) {
            self.eat_ascii_alphanumeric();
            TokenTy::Error(SyntaxError::InvalidIntegerSuffix)
        } else {
            TokenTy::Const
        }
    }

    /// The rest of a floating-point literal, which the language has no type
    /// for: consumed as one erroneous token.
    fn float(&mut self) -> (ty: TokenTy)
        requires
            old(self).pos <= old(self).src@.len(),
        ensures
            ty == TokenTy::Error(SyntaxError::UnknownSymbol),
            final(self).src == old(self).src,
            final(self).start == old(self).start,
            final(self).pos == float_end(old(self).src@, old(self).pos as int),
    {
        let n = self.src.len();
        if self.peek() == '.' {
            assert(self.pos < n);
            self.pos += 1;
            self.eat_digits();
        }
        let c = self.peek();
        if c == 'e' || c == 'E' {
            assert(self.pos < n);
            self.pos += 1;
            let d = self.peek();
            if d == '+' || d == '-' {
                assert(self.pos < n);
                self.pos += 1;
            }
            self.eat_digits();
        }
        TokenTy::Error(SyntaxError::UnknownSymbol)
    }

    /// A word whose first letter `c` was consumed: a keyword or an
    /// identifier.
    fn identifier(&mut self, c: char) -> (ty: TokenTy)
        requires
            old(self).pos <= old(self).src@.len(),
        ensures
            final(self).src == old(self).src,
            final(self).start == old(self).start,
            old(self).pos <= final(self).pos <= final(self).src@.len(),
            scan_word(old(self).src@, c, old(self).pos as int) == (ty, final(self).pos as int),
    {
        if c == 'b' {
            return self.check_keyword(TokenTy::Break, &['r', 'e', 'a', 'k']);
        } else if c == 'c' {
            let n = self.peek();
            if n == 'a' {
                return self.check_keyword(TokenTy::Case, &['a', 's', 'e']);
            } else if n == 'o' {
                return self.check_keyword(TokenTy::Continue, &['o', 'n', 't', 'i', 'n', 'u', 'e']);
            }
        } else if c == 'd' {
            let n = self.peek();
            if n == 'e' {
                return self.check_keyword(TokenTy::Default, &['e', 'f', 'a', 'u', 'l', 't']);
            } else if n == 'o' {
                let t: &[char] = &['o'];
                assert(t@ =~= seq!['o']);
                return self.check_keyword(TokenTy::Do, t);
            }
        } else if c == 'e' {
            return self.check_keyword(TokenTy::Else, &['l', 's', 'e']);
        } else if c == 'f' {
            return self.check_keyword(TokenTy::For, &['o', 'r']);
        } else if c == 'g' {
            return self.check_keyword(TokenTy::Goto, &['o', 't', 'o']);
        } else if c == 'i' {
            let n = self.peek();
            if n == 'f' {
                let t: &[char] = &['f'];
                assert(t@ =~= seq!['f']);
                return self.check_keyword(TokenTy::If, t);
            } else if n == 'n' {
                return self.check_keyword(TokenTy::Int, &['n', 't']);
            }
        } else if c == 'r' {
            return self.check_keyword(TokenTy::Return, &['e', 't', 'u', 'r', 'n']);
        } else if c == 's' {
            return self.check_keyword(TokenTy::Switch, &['w', 'i', 't', 'c', 'h']);
        } else if c == 't' {
            return self.check_keyword(TokenTy::Typedef, &['y', 'p', 'e', 'd', 'e', 'f']);
        } else if c == 'v' {
            return self.check_keyword(TokenTy::Void, &['o', 'i', 'd']);
        } else if c == 'w' {
            return self.check_keyword(TokenTy::While, &['h', 'i', 'l', 'e']);
        }
        self.eat_alphanumeric();
        TokenTy::Identifier
    }

    /// Takes the keyword `target_ty` when the input continues with `target`,
    /// otherwise the rest of an identifier.
    fn check_keyword(&mut self, target_ty: TokenTy, target: &[char]) -> (ty: TokenTy)
        requires
            old(self).pos <= old(self).src@.len(),
        ensures
            final(self).src == old(self).src,
            final(self).start == old(self).start,
            old(self).pos <= final(self).pos <= final(self).src@.len(),
            scan_keyword(old(self).src@, old(self).pos as int, target_ty, target@) == (ty, final(self).pos as int),
    {
        let n = target.len();
        let p = self.pos;
        let len = self.src.len();
        let mut is_target = n <= len - p;
        let mut i: usize = 0;
        while is_target && i < n
            invariant
                p == self.pos,
                len == self.src@.len(),
                self.pos <= self.src@.len(),
                n == target@.len(),
                0 <= i <= n,
                is_target ==> self.pos + n <= self.src@.len(),
                is_target ==> forall|k: int| 0 <= k < i ==> self.src@[self.pos + k] == target@[k],
                !is_target ==> !continues_with(self.src@, self.pos as int, target@),
            decreases n - i,
        {
            assert(p + n <= self.src@.len());
            if self.src[p + i] != target[i] {
                is_target = false;
                proof {
                    assert(self.src@.subrange(self.pos as int, self.pos + n)[i as int] != target@[i as int]);
                }
            }
            i += 1;
        }
        if is_target && p + n < len && is_alphanumeric(self.src[p + n]) {
            is_target = false;
        }
        if is_target {
            proof {
                assert(self.src@.subrange(self.pos as int, self.pos + n) =~= target@);
            }
            self.pos += n;
            target_ty
        } else {
            self.eat_alphanumeric();
            TokenTy::Identifier
        }
    }
}

} // verus!
