use ccompiler::compiler::generate_unit;

/// The error lines of the report for `src`, without colours.
fn error_lines(src: &str) -> Vec<String> {
    let text = match generate_unit(src, "t.c".to_string()) {
        Ok(t) => panic!("expected errors, got {t}"),
        Err(e) => e.to_string(),
    };
    let mut plain = String::new();
    let mut chars = text.chars();
    while let Some(c) = chars.next() {
        if c == '\x1b' {
            for d in chars.by_ref() {
                if d == 'm' {
                    break;
                }
            }
        } else {
            plain.push(c);
        }
    }
    plain.lines().filter(|l| l.starts_with("error: ")).map(|l| l.to_string()).collect()
}

#[test]
fn missing_colon_in_conditional() {
    assert_eq!(
        error_lines("int main() { return 1 ? 2 3; }")[0],
        "error: [STXE0] expected a ':' after conditional then branch"
    );
}

#[test]
fn function_without_parameter_list() {
    assert_eq!(
        error_lines("int main { return 0; }")[0],
        "error: [STXE1] expected function args after function identifier"
    );
}

#[test]
fn declaration_without_name() {
    assert_eq!(error_lines("int = 3;")[0], "error: [STXE2] expected an identifier");
}

#[test]
fn if_without_open_paren() {
    assert_eq!(error_lines("int main() { if 1) return 0; return 1; }"), vec!["error: [STXE3] expected a '('"]);
}

#[test]
fn missing_semicolon() {
    assert_eq!(error_lines("int main() { return 1 }"), vec!["error: [STXE4] expected a ';'"]);
}

#[test]
fn integer_literal_too_large() {
    assert_eq!(error_lines("int main() { return 99999999999; }"), vec!["error: [STXE6] integer literal too large"]);
}

#[test]
fn largest_literal_is_accepted() {
    assert!(generate_unit("int main() { return 2147483647; }", "t.c".to_string()).is_ok());
}

#[test]
fn invalid_integer_suffix() {
    assert_eq!(error_lines("int main() { return 12abc; }")[0], "error: [STXE9] invalid integer suffix");
}

#[test]
fn unclosed_parenthesis() {
    assert_eq!(error_lines("int main() { return (1; }"), vec!["error: [STXE10] unclosed delimiter"]);
}

#[test]
fn unknown_symbol() {
    let lines = error_lines("int main() { return 1 @ 2; }");
    assert!(lines.contains(&"error: [STXE11] unknown symbol".to_string()));
}

#[test]
fn assignment_to_a_constant() {
    assert_eq!(error_lines("int main() { 1 = 2; return 0; }"), vec!["error: [SEME3] invalid lvalue"]);
}

#[test]
fn function_defined_twice() {
    assert_eq!(
        error_lines("int main() { return 0; } int main() { return 1; }"),
        vec!["error: [SEME8] duplicate definition"]
    );
}

#[test]
fn function_names_cannot_be_lowered_yet() {
    assert_eq!(error_lines("int main() { return main + 1; }"), vec!["error: [SEME18] construct not supported"]);
}

#[test]
fn every_error_is_reported_in_source_order() {
    let lines = error_lines("int main() { int a; int a; return b; }");
    assert_eq!(lines, vec!["error: [SEME0] duplicate declaration", "error: [SEME4] use of undeclared variable"]);
}

#[test]
fn wide_characters_widen_the_underline() {
    let text = match generate_unit("int main() { return \u{4e16}; }", "t.c".to_string()) {
        Ok(t) => panic!("expected errors, got {t}"),
        Err(e) => e.to_string(),
    };
    assert_eq!(
        text,
        "\x1b[1m\x1b[31merror\x1b[39m: [SEME4] use of undeclared variable\x1b[0m\n  \x1b[1m\x1b[36m-->\x1b[0m t.c:1:21\n\x1b[1m\x1b[36m1 |\x1b[0m int main() { return \u{4e16}; }\n\x1b[1m\x1b[36m  |\x1b[0m                     \x1b[1m\x1b[31m~~\x1b[0m\n\n"
    );
}
