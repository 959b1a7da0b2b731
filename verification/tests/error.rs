use ccompiler::compiler::error::{CompileError, Context, ErrorWithCtx, SyntaxError};

#[test]
fn multiline_err_cache_test() {
    let src = "int main()\n\
        printf(\n\
        \"Hello, %s!\",\n\
        name\n\
        );\n\
        wowow\n\
        \n\
        \n\
        \n\
        cool;";
    let errors = vec![
        ErrorWithCtx::<SyntaxError> {
            ctx: Context::from_range(17, src.len()),
            err: SyntaxError::InvalidExpr,
        },
        ErrorWithCtx::<SyntaxError> {
            ctx: Context::from_range(11, 17),
            err: SyntaxError::InvalidExpr,
        },
    ];
    let error_msg = CompileError::from_syntax_errors(src, "test.c".into(), errors).to_string();

    let mut src_lines = error_msg.lines();
    _ = src_lines.next();
    assert_eq!(
        Some("  \x1b[1m\x1b[36m-->\x1b[0m test.c:2:1"),
        src_lines.next()
    );
    assert_eq!(Some("\x1b[1m\x1b[36m2 |\x1b[0m printf("), src_lines.next());
    assert_eq!(
        Some("\x1b[1m\x1b[36m  |\x1b[0m \x1b[1m\x1b[31m~~~~~~\x1b[0m"),
        src_lines.next()
    );
    _ = src_lines.next();
    _ = src_lines.next();

    assert_eq!(
        Some("  \x1b[1m\x1b[36m-->\x1b[0m test.c:2:7"),
        src_lines.next()
    );
    assert_eq!(Some("\x1b[1m\x1b[36m 2 |\x1b[0m printf("), src_lines.next());
    assert_eq!(
        Some("\x1b[1m\x1b[36m   |\x1b[0m       \x1b[1m\x1b[31m~\x1b[0m"),
        src_lines.next()
    );
    assert_eq!(
        Some("\x1b[1m\x1b[36m 3 |\x1b[0m \"Hello, %s!\","),
        src_lines.next()
    );
    assert_eq!(
        Some("\x1b[1m\x1b[36m   |\x1b[0m \x1b[1m\x1b[31m~~~~~~~~~~~~~\x1b[0m"),
        src_lines.next()
    );
    assert_eq!(Some("\x1b[1m\x1b[36m 4 |\x1b[0m name"), src_lines.next());
    assert_eq!(
        Some("\x1b[1m\x1b[36m   |\x1b[0m \x1b[1m\x1b[31m~~~~\x1b[0m"),
        src_lines.next()
    );
    assert_eq!(Some("\x1b[1m\x1b[36m 5 |\x1b[0m );"), src_lines.next());
    assert_eq!(
        Some("\x1b[1m\x1b[36m   |\x1b[0m \x1b[1m\x1b[31m~~\x1b[0m"),
        src_lines.next()
    );
    assert_eq!(Some("\x1b[1m\x1b[36m 6 |\x1b[0m wowow"), src_lines.next());
    assert_eq!(
        Some("\x1b[1m\x1b[36m   |\x1b[0m \x1b[1m\x1b[31m~~~~~\x1b[0m"),
        src_lines.next()
    );
    assert_eq!(Some("\x1b[1m\x1b[36m...\x1b[0m"), src_lines.next());
    assert_eq!(Some("\x1b[1m\x1b[36m10 |\x1b[0m cool;"), src_lines.next());
    assert_eq!(
        Some("\x1b[1m\x1b[36m   |\x1b[0m \x1b[1m\x1b[31m~~~~~\x1b[0m"),
        src_lines.next()
    );
}
