use bruhlang::ast::{LoopCond, Stmt, Var};
use bruhlang::parser::RawStmt;
use bruhlang::sema::analyze;

#[test]
fn analyze_builds_loop_bodies() {
    let raw = vec![
        RawStmt::Stmt(Stmt::IncBy1(Var::A), 1),
        RawStmt::Sound(LoopCond::Less(Var::A, Var::B), 2),
        RawStmt::Stmt(Stmt::PrintInt(Var::A), 3),
        RawStmt::Stmt(Stmt::DecBy1(Var::B), 4),
        RawStmt::Effect(5),
        RawStmt::Stmt(Stmt::PrintChar(Var::C), 6),
    ];
    let (stmts, errors) = analyze(raw);
    assert!(errors.is_empty());
    assert_eq!(stmts.len(), 3);
    assert!(matches!(stmts[0], Stmt::IncBy1(Var::A)));
    match &stmts[1] {
        Stmt::Loop { cond, body, line } => {
            assert_eq!(*cond, LoopCond::Less(Var::A, Var::B));
            assert_eq!(*line, 2);
            assert_eq!(body.len(), 2);
            assert!(matches!(body[0], Stmt::PrintInt(Var::A)));
            assert!(matches!(body[1], Stmt::DecBy1(Var::B)));
        }
        _ => panic!("expected a loop"),
    }
    assert!(matches!(stmts[2], Stmt::PrintChar(Var::C)));
}

#[test]
fn analyze_reports_loop_errors() {
    let raw = vec![
        RawStmt::Effect(1),
        RawStmt::Sound(LoopCond::NotEqual(Var::A, Var::B), 2),
        RawStmt::Sound(LoopCond::NotEqual(Var::A, Var::C), 3),
        RawStmt::Stmt(Stmt::IncBy1(Var::A), 4),
    ];
    let (stmts, errors) = analyze(raw);
    assert!(stmts.is_empty());
    assert_eq!(errors.len(), 3);
    assert_eq!((errors[0].line, errors[0].code), (1, "UnmatchedEffect"));
    assert_eq!(errors[0].msg, "'effect' without matching 'sound' at line 1");
    assert_eq!((errors[1].line, errors[1].code), (3, "NestedLoop"));
    assert_eq!(errors[1].msg, "nested loop at line 3");
    assert_eq!((errors[2].line, errors[2].code), (2, "UnterminatedLoop"));
    assert_eq!(errors[2].msg, "loop opened at line 2 is never closed");
}
