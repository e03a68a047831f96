use bruhlang::ast::{LoopCond, Stmt, Var};
use bruhlang::interp::Interpreter;
use bruhlang::lexer::lex;
use bruhlang::cli::{parse_emit_format, EmitFormat};
use bruhlang::compile_src;
use bruhlang::diag::sort_by_line;
use bruhlang::error::line_error;
use bruhlang::text::{decimal_string, push_int_bytes};

#[test]
fn emit_formats() {
    assert_eq!(parse_emit_format("wasm"), Ok(EmitFormat::Wasm));
    assert_eq!(parse_emit_format("wat"), Ok(EmitFormat::Wat));
    assert_eq!(
        parse_emit_format("elf"),
        Err("unknown emit format 'elf', expected wasm or wat".to_string())
    );
}

#[test]
fn decimal_rendering() {
    assert_eq!(decimal_string(0), "0");
    assert_eq!(decimal_string(1234567890), "1234567890");
    let mut out = Vec::new();
    push_int_bytes(&mut out, i64::MIN);
    push_int_bytes(&mut out, 0);
    push_int_bytes(&mut out, i64::MAX);
    assert_eq!(out, b"-922337203685477580809223372036854775807");
    let e = line_error("X", "at", 42);
    assert_eq!(e.msg, "at line 42");
}

#[test]
fn sort_is_stable_by_line() {
    let v = vec![
        (3, "a", "1".to_string()),
        (1, "b", "2".to_string()),
        (3, "c", "3".to_string()),
        (2, "d", "4".to_string()),
        (1, "e", "5".to_string()),
    ];
    let s = sort_by_line(v);
    let codes: Vec<&str> = s.iter().map(|d| d.1).collect();
    assert_eq!(codes, vec!["b", "e", "d", "a", "c"]);
}

#[test]
fn compile_errors_sorted_and_formatted() {
    let src = "sound bruh. bruh!\nbruh. xyz\neffect bruh.\n";
    let errors = compile_src(src).expect_err("errors expected");
    assert_eq!(errors.len(), 4);
    assert_eq!(errors[0], (1, "UnterminatedLoop", "loop opened at line 1 is never closed".to_string()));
    assert_eq!(errors[1], (2, "UnknownToken", "unknown token 'xyz' at column 7".to_string()));
    assert_eq!(errors[2], (2, "MalformedStatement", "incomplete statement at line 2".to_string()));
    assert_eq!(errors[3], (3, "TrailingTokens", "trailing tokens after 'effect' at line 3".to_string()));
}

#[test]
fn compile_ok_has_one_loop_level() {
    let result = compile_src("sound bruh. moment bruh!\nbruh. momentum\neffect\n").expect("ok");
    assert_eq!(result.stmts.len(), 1);
}

#[test]
fn stmt_clone_copies_loops() {
    let s = Stmt::Loop {
        cond: LoopCond::Less(Var::A, Var::B),
        body: vec![Stmt::IncBy1(Var::A), Stmt::PrintInt(Var::C)],
        line: 7,
    };
    match s.clone() {
        Stmt::Loop { cond, body, line } => {
            assert_eq!(cond, LoopCond::Less(Var::A, Var::B));
            assert_eq!(line, 7);
            assert_eq!(body.len(), 2);
            assert!(matches!(body[0], Stmt::IncBy1(Var::A)));
            assert!(matches!(body[1], Stmt::PrintInt(Var::C)));
        }
        _ => panic!("expected a loop"),
    }
}

#[test]
fn running_in_parts_equals_running_whole() {
    let prog = vec![
        Stmt::IncBy1(Var::B),
        Stmt::IncBy1(Var::B),
        Stmt::Loop {
            cond: LoopCond::Less(Var::A, Var::B),
            body: vec![Stmt::IncBy1(Var::A), Stmt::PrintInt(Var::A)],
            line: 3,
        },
        Stmt::PrintInt(Var::B),
    ];
    let mut whole = Interpreter::new();
    let mut out1 = Vec::new();
    whole.run_to(&prog, &mut out1).unwrap();
    let mut parts = Interpreter::new();
    let mut out2 = Vec::new();
    parts.run_to(&prog[..2], &mut out2).unwrap();
    parts.run_to(&prog[2..], &mut out2).unwrap();
    assert_eq!(out1, out2);
    assert_eq!(out1, b"122");
}

#[test]
fn comment_text_is_ignored() {
    let (l1, e1) = lex("bruh. momentum # yeet\r\nmoment bruh.");
    let (l2, e2) = lex("bruh. momentum\nmoment bruh.");
    assert!(e1.is_empty() && e2.is_empty());
    assert_eq!(l1.len(), l2.len());
    for (a, b) in l1.iter().zip(l2.iter()) {
        assert_eq!(a.len(), b.len());
        for (x, y) in a.iter().zip(b.iter()) {
            assert_eq!(x.tok, y.tok);
            assert_eq!((x.pos.line, x.pos.col), (y.pos.line, y.pos.col));
        }
    }
}
