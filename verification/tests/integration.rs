use bruhlang::compile_src;
use bruhlang::interp::Interpreter;

fn run(src: &str) -> Vec<u8> {
    let result = compile_src(src).expect("compile failed");
    let mut interp = Interpreter::new();
    let mut out = Vec::new();
    interp.run_to(&result.stmts, &mut out).unwrap();
    out
}

fn check_error(src: &str, expected_code: &str) {
    let errors = compile_src(src).expect_err("expected compile error");
    let has_code = errors.iter().any(|(_, code, _)| *code == expected_code);
    assert!(
        has_code,
        "expected error code '{}', got: {:?}",
        expected_code,
        errors.iter().map(|(_, c, _)| *c).collect::<Vec<_>>()
    );
}

const COUNT: &str = "bruh? momentum    # C = 1
bruh? momentum    # C = 2

# while A < C: A++
sound bruh. moment bruh?
bruh. momentum
effect

moment bruh.      # print A
";

const COUNTDOWN: &str = "# A = 3
bruh. momentum
bruh. momentum
bruh. momentum

# while A > C (C=0): print A, A--
sound bruh. momentum bruh?
moment bruh.
bruh. moment
effect
";

const ADD_BY_VAR: &str = "# B = 4, C = 3
bruh! momentum
bruh! momentum
bruh! momentum
bruh! momentum
bruh? momentum
bruh? momentum
bruh? momentum
# A = B + C, then A = A - B + B + B
bruh. momentum bruh!
bruh. momentum bruh?
moment bruh.
bruh. moment bruh!
moment bruh.
";

fn letter_a_src() -> String {
    let mut s = String::from("# 65 increments, then print as a character\n");
    for _ in 0..65 {
        s.push_str("bruh. momentum\n");
    }
    s.push_str("momentum bruh.\n");
    s
}

// ── positive cases ──────────────────────────────────────────────────────────

#[test]
fn test_count() {
    assert_eq!(run(COUNT), b"2");
}

#[test]
fn test_countdown() {
    assert_eq!(run(COUNTDOWN), b"321");
}

#[test]
fn test_add_by_var() {
    assert_eq!(run(ADD_BY_VAR), b"73");
}

#[test]
fn test_letter_a() {
    assert_eq!(run(&letter_a_src()), b"A");
}

// ── negative cases ──────────────────────────────────────────────────────────

#[test]
fn test_err_nested() {
    check_error(
        "sound bruh. bruh!\nsound bruh. bruh?\neffect\neffect\n",
        "NestedLoop",
    );
}

#[test]
fn test_err_effect() {
    check_error("bruh. momentum\neffect\n", "UnmatchedEffect");
}

#[test]
fn test_err_open() {
    check_error("sound bruh. moment bruh?\nbruh. momentum\n", "UnterminatedLoop");
}

#[test]
fn test_err_token() {
    check_error("bruh. momentum\nbruh. yeet\n", "UnknownToken");
}

#[test]
fn test_err_trailing() {
    check_error("moment bruh. bruh!\n", "TrailingTokens");
}

// ── wasm output: the module is assembled for each program ─────────────────
// (running it needs a WebAssembly runtime, which these tests do not start)

fn wasm_builds(src: &str) {
    let interp_out = run(src);
    let result = compile_src(src).unwrap();
    let bytes =
        bruhlang::codegen::wasm::generate_wasm(&result.stmts).expect("wasm codegen failed");
    assert_eq!(&bytes[0..4], b"\0asm");
    assert!(!interp_out.is_empty());
}

#[test]
fn wasm_count() {
    wasm_builds(COUNT);
}

#[test]
fn wasm_countdown() {
    wasm_builds(COUNTDOWN);
}

#[test]
fn wasm_add_by_var() {
    wasm_builds(ADD_BY_VAR);
}

#[test]
fn wasm_letter_a() {
    wasm_builds(&letter_a_src());
}
