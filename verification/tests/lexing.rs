use ccompiler::compiler::error::SyntaxError;
use ccompiler::compiler::lexer::Lexer;
use ccompiler::compiler::token::TokenTy;

fn tokens(src: &str) -> Vec<(TokenTy, usize, usize)> {
    let mut lexer = Lexer::new(src);
    let mut out = Vec::new();
    loop {
        let tok = lexer.advance_token();
        out.push((tok.ty, tok.ctx.start, tok.ctx.end));
        if tok.ty == TokenTy::Eof {
            return out;
        }
    }
}

#[test]
fn a_keyword_is_a_whole_word() {
    assert_eq!(tokens("if"), vec![(TokenTy::If, 0, 2), (TokenTy::Eof, 2, 2)]);
    assert_eq!(tokens("iffy"), vec![(TokenTy::Identifier, 0, 4), (TokenTy::Eof, 4, 4)]);
    assert_eq!(tokens("int2"), vec![(TokenTy::Identifier, 0, 4), (TokenTy::Eof, 4, 4)]);
    assert_eq!(tokens("b"), vec![(TokenTy::Identifier, 0, 1), (TokenTy::Eof, 1, 1)]);
    assert_eq!(
        tokens("return(x)"),
        vec![
            (TokenTy::Return, 0, 6),
            (TokenTy::OpenParen, 6, 7),
            (TokenTy::Identifier, 7, 8),
            (TokenTy::CloseParen, 8, 9),
            (TokenTy::Eof, 9, 9),
        ],
    );
}

#[test]
fn a_floating_point_literal_is_one_token() {
    let bad = TokenTy::Error(SyntaxError::UnknownSymbol);
    assert_eq!(tokens("1.5;"), vec![(bad, 0, 3), (TokenTy::Semicolon, 3, 4), (TokenTy::Eof, 4, 4)]);
    assert_eq!(tokens("2e10"), vec![(bad, 0, 4), (TokenTy::Eof, 4, 4)]);
    assert_eq!(tokens("1.5e-3"), vec![(bad, 0, 6), (TokenTy::Eof, 6, 6)]);
    assert_eq!(tokens("42;"), vec![(TokenTy::Const, 0, 2), (TokenTy::Semicolon, 2, 3), (TokenTy::Eof, 3, 3)]);
}
