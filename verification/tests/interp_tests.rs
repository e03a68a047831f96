use bruhlang::ast::{LoopCond, Stmt, Var};
use bruhlang::interp::{Interpreter, RunError};

fn run_stmts(stmts: &[Stmt]) -> Vec<u8> {
    let mut i = Interpreter::new();
    let mut out = Vec::new();
    i.run_to(stmts, &mut out).unwrap();
    out
}

#[test]
fn interp_wrapping_arithmetic() {
    // A = 0 - 1 = -1, printed with its sign
    assert_eq!(run_stmts(&[Stmt::DecBy1(Var::A), Stmt::PrintInt(Var::A)]), b"-1");
    // B = 1; repeatedly doubling overflows and wraps
    let mut stmts = vec![Stmt::IncBy1(Var::B)];
    for _ in 0..63 {
        stmts.push(Stmt::IncByVar(Var::B, Var::B));
    }
    stmts.push(Stmt::PrintInt(Var::B));
    assert_eq!(run_stmts(&stmts), b"-9223372036854775808");
    stmts.push(Stmt::DecBy1(Var::B));
    stmts.push(Stmt::PrintInt(Var::B));
    assert_eq!(run_stmts(&stmts), b"-92233720368547758089223372036854775807");
}

#[test]
fn interp_print_char_low_byte() {
    // A = -191: the low byte is 65, 'A'
    let mut stmts = Vec::new();
    for _ in 0..191 {
        stmts.push(Stmt::DecBy1(Var::A));
    }
    stmts.push(Stmt::PrintChar(Var::A));
    assert_eq!(run_stmts(&stmts), b"A");
}

#[test]
fn interp_assign_and_sub() {
    let stmts = vec![
        Stmt::IncBy1(Var::C),
        Stmt::IncBy1(Var::C),
        Stmt::Assign { dst: Var::A, src: Var::C },
        Stmt::DecByVar(Var::A, Var::C),
        Stmt::DecByVar(Var::A, Var::C),
        Stmt::PrintInt(Var::A),
        Stmt::PrintInt(Var::C),
        Stmt::PrintInt(Var::B),
    ];
    assert_eq!(run_stmts(&stmts), b"-220");
}

#[test]
fn interp_loop_condition_tested_first() {
    // A == B == 0: a `!=` loop never runs its body
    let stmts = vec![Stmt::Loop {
        cond: LoopCond::NotEqual(Var::A, Var::B),
        body: vec![Stmt::PrintInt(Var::A)],
        line: 1,
    }];
    assert_eq!(run_stmts(&stmts), b"");
}

#[test]
fn interp_loop_counts_down() {
    let stmts = vec![
        Stmt::IncBy1(Var::A),
        Stmt::IncBy1(Var::A),
        Stmt::IncBy1(Var::A),
        Stmt::Loop {
            cond: LoopCond::Greater(Var::A, Var::C),
            body: vec![Stmt::PrintInt(Var::A), Stmt::DecBy1(Var::A)],
            line: 4,
        },
        Stmt::PrintInt(Var::A),
    ];
    assert_eq!(run_stmts(&stmts), b"3210");
}

#[test]
fn interp_bound_on_iterations() {
    // the loop needs three iterations
    let stmts = vec![
        Stmt::IncBy1(Var::B),
        Stmt::IncBy1(Var::B),
        Stmt::IncBy1(Var::B),
        Stmt::Loop {
            cond: LoopCond::Less(Var::A, Var::B),
            body: vec![Stmt::IncBy1(Var::A), Stmt::PrintInt(Var::A)],
            line: 4,
        },
    ];
    let mut i = Interpreter::new();
    let mut out = Vec::new();
    assert!(!i.run_bounded(&stmts, &mut out, 2));
    assert_eq!(out, b"12");
    let mut i = Interpreter::new();
    let mut out = Vec::new();
    assert!(i.run_bounded(&stmts, &mut out, 3));
    assert_eq!(out, b"123");
    let mut i = Interpreter::new();
    let mut out = Vec::new();
    assert!(i.run_bounded(&stmts, &mut out, 1000));
    assert_eq!(out, b"123");
}

#[test]
fn interp_run_to_appends() {
    let mut i = Interpreter::default();
    let mut out = b"x".to_vec();
    assert_eq!(i.run_to(&[Stmt::PrintInt(Var::C)], &mut out), Ok(()));
    assert_eq!(out, b"x0");
    let _ = RunError::LoopLimit;
}

#[test]
fn interp_one_iteration_at_a_time() {
    let mut i = Interpreter::new();
    let mut out = Vec::new();
    i.run_to(&[Stmt::IncBy1(Var::B), Stmt::IncBy1(Var::B)], &mut out).unwrap();
    let cond = LoopCond::Less(Var::A, Var::B);
    let body = vec![Stmt::IncBy1(Var::A), Stmt::PrintInt(Var::A)];
    assert_eq!(i.run_iteration(&cond, &body, &mut out), Ok(true));
    assert_eq!(out, b"1");
    assert_eq!(i.run_iteration(&cond, &body, &mut out), Ok(true));
    assert_eq!(out, b"12");
    assert_eq!(i.run_iteration(&cond, &body, &mut out), Ok(false));
    assert_eq!(out, b"12");
}
