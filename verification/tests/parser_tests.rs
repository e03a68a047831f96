use bruhlang::ast::{LoopCond, Stmt, Var};
use bruhlang::lexer::lex;
use bruhlang::parser::{parse, parse_line, RawStmt};

fn parse_src(src: &str) -> Result<RawStmt, (usize, &'static str, String)> {
    let (lines, errors) = lex(src);
    assert!(errors.is_empty());
    match parse_line(&lines[0]) {
        Ok(s) => Ok(s),
        Err(e) => Err((e.line, e.code, e.msg)),
    }
}

fn err_of(src: &str) -> (usize, &'static str, String) {
    match parse_src(src) {
        Ok(_) => panic!("expected an error"),
        Err(e) => e,
    }
}

#[test]
fn parse_statements() {
    assert!(matches!(parse_src("bruh. momentum"), Ok(RawStmt::Stmt(Stmt::IncBy1(Var::A), 1))));
    assert!(matches!(parse_src("bruh! moment"), Ok(RawStmt::Stmt(Stmt::DecBy1(Var::B), 1))));
    assert!(matches!(
        parse_src("bruh? momentum bruh."),
        Ok(RawStmt::Stmt(Stmt::IncByVar(Var::C, Var::A), 1))
    ));
    assert!(matches!(
        parse_src("bruh. moment bruh?"),
        Ok(RawStmt::Stmt(Stmt::DecByVar(Var::A, Var::C), 1))
    ));
    assert!(matches!(
        parse_src("bruh. bruh!"),
        Ok(RawStmt::Stmt(Stmt::Assign { dst: Var::A, src: Var::B }, 1))
    ));
    assert!(matches!(parse_src("moment bruh!"), Ok(RawStmt::Stmt(Stmt::PrintInt(Var::B), 1))));
    assert!(matches!(parse_src("momentum bruh?"), Ok(RawStmt::Stmt(Stmt::PrintChar(Var::C), 1))));
}

#[test]
fn parse_loop_headers() {
    assert!(matches!(
        parse_src("sound bruh. bruh!"),
        Ok(RawStmt::Sound(LoopCond::NotEqual(Var::A, Var::B), 1))
    ));
    assert!(matches!(
        parse_src("sound bruh. momentum bruh!"),
        Ok(RawStmt::Sound(LoopCond::Greater(Var::A, Var::B), 1))
    ));
    assert!(matches!(
        parse_src("sound bruh? moment bruh."),
        Ok(RawStmt::Sound(LoopCond::Less(Var::C, Var::A), 1))
    ));
    assert!(matches!(parse_src("effect"), Ok(RawStmt::Effect(1))));
}

#[test]
fn parse_error_messages() {
    assert_eq!(
        err_of("sound bruh."),
        (1, "MalformedStatement", "expected: sound <var> [momentum|moment] <var> at line 1".to_string())
    );
    assert_eq!(
        err_of("sound moment bruh."),
        (1, "MalformedStatement", "expected variable after 'sound' at line 1".to_string())
    );
    assert_eq!(
        err_of("sound bruh. effect"),
        (1, "MalformedStatement", "expected variable at line 1".to_string())
    );
    assert_eq!(
        err_of("sound bruh. sound bruh!"),
        (1, "MalformedStatement", "expected 'momentum' or 'moment' at line 1".to_string())
    );
    assert_eq!(
        err_of("sound bruh. moment bruh! bruh?"),
        (1, "TrailingTokens", "trailing tokens after loop header at line 1".to_string())
    );
    assert_eq!(
        err_of("effect bruh."),
        (1, "TrailingTokens", "trailing tokens after 'effect' at line 1".to_string())
    );
    assert_eq!(
        err_of("momentum"),
        (1, "MalformedStatement", "expected variable after 'momentum' at line 1".to_string())
    );
    assert_eq!(
        err_of("moment"),
        (1, "MalformedStatement", "expected variable after 'moment' at line 1".to_string())
    );
    assert_eq!(
        err_of("moment effect"),
        (1, "MalformedStatement", "expected variable at line 1".to_string())
    );
    assert_eq!(
        err_of("bruh."),
        (1, "MalformedStatement", "incomplete statement at line 1".to_string())
    );
    assert_eq!(
        err_of("bruh. bruh! bruh?"),
        (1, "TrailingTokens", "trailing tokens at line 1".to_string())
    );
    assert_eq!(
        err_of("bruh. momentum bruh! bruh?"),
        (1, "TrailingTokens", "trailing tokens at line 1".to_string())
    );
    assert_eq!(
        err_of("bruh. moment sound"),
        (1, "MalformedStatement", "expected variable at line 1".to_string())
    );
    assert_eq!(
        err_of("bruh. sound"),
        (1, "MalformedStatement", "unexpected token at line 1".to_string())
    );
}

#[test]
fn parse_skips_empty_lines_and_keeps_line_numbers() {
    let (lines, _) = lex("\n\nbruh. momentum\nmoment\n\neffect\n");
    let (raw, errors) = parse(&lines);
    assert_eq!(raw.len(), 2);
    assert!(matches!(raw[0], RawStmt::Stmt(Stmt::IncBy1(Var::A), 3)));
    assert!(matches!(raw[1], RawStmt::Effect(6)));
    assert_eq!(errors.len(), 1);
    assert_eq!(errors[0].line, 4);
    assert_eq!(errors[0].msg, "expected variable after 'moment' at line 4");
}
