//! Tokens and the operator precedence table.
use vstd::prelude::*;

use crate::compiler::error::{Context, SyntaxError};

verus! {

/// The kinds of token the lexer produces.
#[derive(Clone, Copy, PartialEq, Eq, Debug, Structural)]
pub enum TokenTy {
    Const,
    Identifier,
    // Keywords
    Break,
    Case,
    Continue,
    Default,
    Do,
    Else,
    For,
    Goto,
    If,
    Int,
    Return,
    Switch,
    Typedef,
    Void,
    While,
    // Single character
    OpenBrace,
    CloseBrace,
    OpenParen,
    CloseParen,
    OpenSquare,
    CloseSquare,
    Semicolon,
    Tilde,
    Dot,
    QuestionMark,
    Colon,
    // Single or double
    Minus,
    MinusMinus,
    MinusEqual,
    Percent,
    PercentEqual,
    Plus,
    PlusPlus,
    PlusEqual,
    Slash,
    SlashEqual,
    Star,
    StarEqual,
    Equal,
    EqualEqual,
    Bang,
    BangEqual,
    Greater,
    GreaterEqual,
    GreaterGreater,
    GreaterGreaterEqual,
    Less,
    LessEqual,
    LessLess,
    LessLessEqual,
    Ampersand,
    AmpersandAmpersand,
    AmpersandEqual,
    Caret,
    CaretEqual,
    Pipe,
    PipePipe,
    PipeEqual,
    // Special
    Error(SyntaxError),
    Eof,
}

/// Binding strength of operators, from loosest to tightest.
#[derive(Clone, Copy, PartialEq, Eq, Debug, Structural)]
pub enum Precedence {
    Lowest,
    Assignment,
    Conditional,
    LogicOr,
    LogicAnd,
    BitOr,
    BitXor,
    BitAnd,
    Equality,
    Relational,
    Shift,
    Term,
    Product,
    Unary,
    Postfix,
    Primary,
}

/// The rank of a precedence level: `Lowest` is 0, `Primary` is 15.
pub open spec fn prec_rank(p: Precedence) -> nat {
    match p {
        Precedence::Lowest => 0,
        Precedence::Assignment => 1,
        Precedence::Conditional => 2,
        Precedence::LogicOr => 3,
        Precedence::LogicAnd => 4,
        Precedence::BitOr => 5,
        Precedence::BitXor => 6,
        Precedence::BitAnd => 7,
        Precedence::Equality => 8,
        Precedence::Relational => 9,
        Precedence::Shift => 10,
        Precedence::Term => 11,
        Precedence::Product => 12,
        Precedence::Unary => 13,
        Precedence::Postfix => 14,
        Precedence::Primary => 15,
    }
}

impl Precedence {
    /// The next tighter level; `Primary` is its own successor.
    pub fn up(self) -> (r: Self)
        ensures
            prec_rank(r) == if prec_rank(self) == 15 { 15 } else { prec_rank(self) + 1 },
    {
        match self {
            Precedence::Lowest => Precedence::Assignment,
            Precedence::Assignment => Precedence::Conditional,
            Precedence::Conditional => Precedence::LogicOr,
            Precedence::LogicOr => Precedence::LogicAnd,
            Precedence::LogicAnd => Precedence::BitOr,
            Precedence::BitOr => Precedence::BitXor,
            Precedence::BitXor => Precedence::BitAnd,
            Precedence::BitAnd => Precedence::Equality,
            Precedence::Equality => Precedence::Relational,
            Precedence::Relational => Precedence::Shift,
            Precedence::Shift => Precedence::Term,
            Precedence::Term => Precedence::Product,
            Precedence::Product => Precedence::Unary,
            Precedence::Unary => Precedence::Postfix,
            Precedence::Postfix => Precedence::Primary,
            Precedence::Primary => Precedence::Primary,
        }
    }

    /// The rank of this level, as in `prec_rank`.
    pub fn rank(self) -> (r: u8)
        ensures
            r == prec_rank(self),
    {
        match self {
            Precedence::Lowest => 0,
            Precedence::Assignment => 1,
            Precedence::Conditional => 2,
            Precedence::LogicOr => 3,
            Precedence::LogicAnd => 4,
            Precedence::BitOr => 5,
            Precedence::BitXor => 6,
            Precedence::BitAnd => 7,
            Precedence::Equality => 8,
            Precedence::Relational => 9,
            Precedence::Shift => 10,
            Precedence::Term => 11,
            Precedence::Product => 12,
            Precedence::Unary => 13,
            Precedence::Postfix => 14,
            Precedence::Primary => 15,
        }
    }

    /// `self` binds strictly looser than `other`.
    pub fn lt(self, other: Self) -> (r: bool)
        ensures
            r == (prec_rank(self) < prec_rank(other)),
    {
        self.rank() < other.rank()
    }
}

/// The precedence a token has when it follows an operand.
pub open spec fn spec_anyfix_precedence(t: TokenTy) -> Precedence {
    match t {
        TokenTy::PlusPlus | TokenTy::MinusMinus => Precedence::Postfix,
        TokenTy::Star | TokenTy::Slash | TokenTy::Percent => Precedence::Product,
        TokenTy::Plus | TokenTy::Minus => Precedence::Term,
        TokenTy::GreaterGreater | TokenTy::LessLess => Precedence::Shift,
        TokenTy::GreaterEqual | TokenTy::Greater | TokenTy::LessEqual | TokenTy::Less => Precedence::Relational,
        TokenTy::EqualEqual | TokenTy::BangEqual => Precedence::Equality,
        TokenTy::Ampersand => Precedence::BitAnd,
        TokenTy::Caret => Precedence::BitXor,
        TokenTy::Pipe => Precedence::BitOr,
        TokenTy::AmpersandAmpersand => Precedence::LogicAnd,
        TokenTy::PipePipe => Precedence::LogicOr,
        TokenTy::Dot | TokenTy::OpenSquare | TokenTy::OpenParen => Precedence::Postfix,
        TokenTy::QuestionMark => Precedence::Conditional,
        TokenTy::Equal | TokenTy::PlusEqual | TokenTy::MinusEqual | TokenTy::StarEqual
        | TokenTy::SlashEqual | TokenTy::PercentEqual | TokenTy::LessLessEqual
        | TokenTy::GreaterGreaterEqual | TokenTy::AmpersandEqual | TokenTy::CaretEqual
        | TokenTy::PipeEqual => Precedence::Assignment,
        _ => Precedence::Lowest,
    }
}

impl TokenTy {
    /// The precedence of this token as an infix or postfix operator
    /// (`Lowest` for tokens that cannot follow an operand).
    pub fn anyfix_precedence(self) -> (r: Precedence)
        ensures
            r == spec_anyfix_precedence(self),
    {
        match self {
            TokenTy::PlusPlus | TokenTy::MinusMinus => Precedence::Postfix,
            TokenTy::Star | TokenTy::Slash | TokenTy::Percent => Precedence::Product,
            TokenTy::Plus | TokenTy::Minus => Precedence::Term,
            TokenTy::GreaterGreater | TokenTy::LessLess => Precedence::Shift,
            TokenTy::GreaterEqual | TokenTy::Greater | TokenTy::LessEqual | TokenTy::Less => {
                Precedence::Relational
            },
            TokenTy::EqualEqual | TokenTy::BangEqual => Precedence::Equality,
            TokenTy::Ampersand => Precedence::BitAnd,
            TokenTy::Caret => Precedence::BitXor,
            TokenTy::Pipe => Precedence::BitOr,
            TokenTy::AmpersandAmpersand => Precedence::LogicAnd,
            TokenTy::PipePipe => Precedence::LogicOr,
            TokenTy::Dot | TokenTy::OpenSquare | TokenTy::OpenParen => Precedence::Postfix,
            TokenTy::QuestionMark => Precedence::Conditional,
            TokenTy::Equal | TokenTy::PlusEqual | TokenTy::MinusEqual | TokenTy::StarEqual
            | TokenTy::SlashEqual | TokenTy::PercentEqual | TokenTy::LessLessEqual
            | TokenTy::GreaterGreaterEqual | TokenTy::AmpersandEqual | TokenTy::CaretEqual
            | TokenTy::PipeEqual => Precedence::Assignment,
            _ => Precedence::Lowest,
        }
    }
}

/// The rank a token has as an infix or postfix operator.
pub open spec fn op_rank(t: TokenTy) -> nat {
    prec_rank(spec_anyfix_precedence(t))
}

/// Law: operators bind as in C. `*`, `/` and `%` bind alike and tighter
/// than `+` and `-`, which bind alike and tighter than the shifts, then the
/// relational operators, then `==` and `!=`, then `&`, `^`, `|`, `&&`,
/// `||`, the conditional `?`, and loosest of all the assignments, which
/// all bind alike. Every binary operator binds looser than a prefix
/// operator, and `++`, `--`, `.`, `[` and `(` after an operand bind tighter
/// than one; a token that is no operator has the lowest rank of all.
pub proof fn law_operators_bind_as_in_c()
    ensures
        op_rank(TokenTy::Star) == op_rank(TokenTy::Slash),
        op_rank(TokenTy::Star) == op_rank(TokenTy::Percent),
        op_rank(TokenTy::Plus) == op_rank(TokenTy::Minus),
        op_rank(TokenTy::Plus) < op_rank(TokenTy::Star),
        op_rank(TokenTy::LessLess) == op_rank(TokenTy::GreaterGreater),
        op_rank(TokenTy::LessLess) < op_rank(TokenTy::Plus),
        op_rank(TokenTy::Less) == op_rank(TokenTy::LessEqual),
        op_rank(TokenTy::Less) == op_rank(TokenTy::Greater),
        op_rank(TokenTy::Less) == op_rank(TokenTy::GreaterEqual),
        op_rank(TokenTy::Less) < op_rank(TokenTy::LessLess),
        op_rank(TokenTy::EqualEqual) == op_rank(TokenTy::BangEqual),
        op_rank(TokenTy::EqualEqual) < op_rank(TokenTy::Less),
        op_rank(TokenTy::Ampersand) < op_rank(TokenTy::EqualEqual),
        op_rank(TokenTy::Caret) < op_rank(TokenTy::Ampersand),
        op_rank(TokenTy::Pipe) < op_rank(TokenTy::Caret),
        op_rank(TokenTy::AmpersandAmpersand) < op_rank(TokenTy::Pipe),
        op_rank(TokenTy::PipePipe) < op_rank(TokenTy::AmpersandAmpersand),
        op_rank(TokenTy::QuestionMark) < op_rank(TokenTy::PipePipe),
        op_rank(TokenTy::Equal) < op_rank(TokenTy::QuestionMark),
        op_rank(TokenTy::Equal) == op_rank(TokenTy::PlusEqual),
        op_rank(TokenTy::Equal) == op_rank(TokenTy::MinusEqual),
        op_rank(TokenTy::Equal) == op_rank(TokenTy::StarEqual),
        op_rank(TokenTy::Equal) == op_rank(TokenTy::SlashEqual),
        op_rank(TokenTy::Equal) == op_rank(TokenTy::PercentEqual),
        op_rank(TokenTy::Equal) == op_rank(TokenTy::LessLessEqual),
        op_rank(TokenTy::Equal) == op_rank(TokenTy::GreaterGreaterEqual),
        op_rank(TokenTy::Equal) == op_rank(TokenTy::AmpersandEqual),
        op_rank(TokenTy::Equal) == op_rank(TokenTy::CaretEqual),
        op_rank(TokenTy::Equal) == op_rank(TokenTy::PipeEqual),
        prec_rank(Precedence::Lowest) < op_rank(TokenTy::Equal),
        op_rank(TokenTy::Star) < prec_rank(Precedence::Unary),
        prec_rank(Precedence::Unary) < op_rank(TokenTy::PlusPlus),
        op_rank(TokenTy::PlusPlus) == op_rank(TokenTy::MinusMinus),
        op_rank(TokenTy::PlusPlus) == op_rank(TokenTy::Dot),
        op_rank(TokenTy::PlusPlus) == op_rank(TokenTy::OpenSquare),
        op_rank(TokenTy::PlusPlus) == op_rank(TokenTy::OpenParen),
        op_rank(TokenTy::Int) == prec_rank(Precedence::Lowest),
        op_rank(TokenTy::Semicolon) == prec_rank(Precedence::Lowest),
        op_rank(TokenTy::Bang) == prec_rank(Precedence::Lowest),
        op_rank(TokenTy::Tilde) == prec_rank(Precedence::Lowest),
{
}

/// How C spells a punctuator token; empty for the other tokens (words,
/// literals, errors and the end of input).
pub open spec fn punct_spelling(t: TokenTy) -> Seq<char> {
    match t {
        TokenTy::OpenBrace => seq!['{'],
        TokenTy::CloseBrace => seq!['}'],
        TokenTy::OpenParen => seq!['('],
        TokenTy::CloseParen => seq![')'],
        TokenTy::OpenSquare => seq!['['],
        TokenTy::CloseSquare => seq![']'],
        TokenTy::Semicolon => seq![';'],
        TokenTy::Tilde => seq!['~'],
        TokenTy::Dot => seq!['.'],
        TokenTy::QuestionMark => seq!['?'],
        TokenTy::Colon => seq![':'],
        TokenTy::Minus => seq!['-'],
        TokenTy::MinusMinus => seq!['-', '-'],
        TokenTy::MinusEqual => seq!['-', '='],
        TokenTy::Percent => seq!['%'],
        TokenTy::PercentEqual => seq!['%', '='],
        TokenTy::Plus => seq!['+'],
        TokenTy::PlusPlus => seq!['+', '+'],
        TokenTy::PlusEqual => seq!['+', '='],
        TokenTy::Slash => seq!['/'],
        TokenTy::SlashEqual => seq!['/', '='],
        TokenTy::Star => seq!['*'],
        TokenTy::StarEqual => seq!['*', '='],
        TokenTy::Equal => seq!['='],
        TokenTy::EqualEqual => seq!['=', '='],
        TokenTy::Bang => seq!['!'],
        TokenTy::BangEqual => seq!['!', '='],
        TokenTy::Greater => seq!['>'],
        TokenTy::GreaterEqual => seq!['>', '='],
        TokenTy::GreaterGreater => seq!['>', '>'],
        TokenTy::GreaterGreaterEqual => seq!['>', '>', '='],
        TokenTy::Less => seq!['<'],
        TokenTy::LessEqual => seq!['<', '='],
        TokenTy::LessLess => seq!['<', '<'],
        TokenTy::LessLessEqual => seq!['<', '<', '='],
        TokenTy::Ampersand => seq!['&'],
        TokenTy::AmpersandAmpersand => seq!['&', '&'],
        TokenTy::AmpersandEqual => seq!['&', '='],
        TokenTy::Caret => seq!['^'],
        TokenTy::CaretEqual => seq!['^', '='],
        TokenTy::Pipe => seq!['|'],
        TokenTy::PipePipe => seq!['|', '|'],
        TokenTy::PipeEqual => seq!['|', '='],
        _ => Seq::empty(),
    }
}

/// A token: its kind and the source range it covers.
#[derive(Clone, Copy, Debug)]
pub struct Token {
    pub ty: TokenTy,
    pub ctx: Context,
}

impl Token {
    /// A token of kind `ty` covering `start..end`.
    pub fn new(ty: TokenTy, start: usize, end: usize) -> (r: Self)
        ensures
            r.ty == ty,
            r.ctx.start == start,
            r.ctx.end == end,
    {
        Token { ty, ctx: Context { start, end } }
    }
}

} // verus!
