use bruhlang::ast::{LoopCond, Stmt, Var};
use bruhlang::codegen::wasm::{generate_wasm, generate_wat, PRINT_I64_FUNC};

fn head() -> String {
    let mut s = String::from("(module\n");
    s.push_str("  (import \"wasi_snapshot_preview1\" \"fd_write\"\n(func $fd_write (param i32 i32 i32 i32) (result i32)))\n");
    s.push_str("  (memory (export \"memory\") 1)\n");
    s.push_str("  (global $A (mut i64) (i64.const 0))\n");
    s.push_str("  (global $B (mut i64) (i64.const 0))\n");
    s.push_str("  (global $C (mut i64) (i64.const 0))\n");
    s.push_str(PRINT_I64_FUNC);
    s.push_str("  (func $_start (export \"_start\")\n");
    s
}

#[test]
fn wat_of_empty_program() {
    let wat = generate_wat(&[]);
    assert_eq!(wat, format!("{}  )\n)\n", head()));
}

#[test]
fn wat_of_statements() {
    let wat = generate_wat(&[
        Stmt::IncBy1(Var::A),
        Stmt::DecByVar(Var::B, Var::C),
        Stmt::Assign { dst: Var::C, src: Var::A },
        Stmt::PrintInt(Var::B),
    ]);
    let body = "    (global.set $A (i64.add (global.get $A) (i64.const 1)))\n\
                \x20   (global.set $B (i64.sub (global.get $B) (global.get $C)))\n\
                \x20   (global.set $C (global.get $A))\n\
                \x20   (call $print_i64 (global.get $B))\n";
    assert_eq!(wat, format!("{}{}  )\n)\n", head(), body));
}

#[test]
fn wat_loops_are_numbered() {
    let wat = generate_wat(&[
        Stmt::Loop { cond: LoopCond::Less(Var::A, Var::B), body: vec![Stmt::IncBy1(Var::A)], line: 1 },
        Stmt::Loop { cond: LoopCond::NotEqual(Var::A, Var::C), body: vec![Stmt::PrintChar(Var::A)], line: 4 },
    ]);
    let body = "    (block $exit_0\n\
                \x20     (loop $top_0\n\
                \x20       (br_if $exit_0 (i64.ge_s (global.get $A) (global.get $B)))\n\
                \x20       (global.set $A (i64.add (global.get $A) (i64.const 1)))\n\
                \x20       (br $top_0)\n\
                \x20     )\n\
                \x20   )\n\
                \x20   (block $exit_1\n\
                \x20     (loop $top_1\n\
                \x20       (br_if $exit_1 (i64.eq (global.get $A) (global.get $C)))\n\
                \x20       (i32.store8 (i32.const 0) (i32.wrap_i64 (i64.and (global.get $A) (i64.const 255))))\n\
                \x20       (i32.store (i32.const 32) (i32.const 0))\n\
                \x20       (i32.store (i32.const 36) (i32.const 1))\n\
                \x20       (drop (call $fd_write (i32.const 1) (i32.const 32) (i32.const 1) (i32.const 40)))\n\
                \x20       (br $top_1)\n\
                \x20     )\n\
                \x20   )\n";
    assert_eq!(wat, format!("{}{}  )\n)\n", head(), body));
}

#[test]
fn wasm_binary_is_assembled() {
    let bytes = generate_wasm(&[
        Stmt::IncBy1(Var::A),
        Stmt::Loop { cond: LoopCond::Greater(Var::A, Var::B), body: vec![Stmt::DecBy1(Var::A)], line: 2 },
        Stmt::PrintInt(Var::A),
    ])
    .expect("assembly failed");
    // the binary format starts with the magic number and version 1
    assert_eq!(&bytes[0..8], &[0x00, 0x61, 0x73, 0x6d, 0x01, 0x00, 0x00, 0x00]);
    assert!(bytes.len() > 8);
}
