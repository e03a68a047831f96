//! Compiles a program to a WebAssembly module (WASI) in text form, and from
//! there to the binary form.
//!
//! Memory layout of the module: bytes 0 to 31 hold the digits that
//! `$print_i64` writes right to left; bytes 32 to 35 the pointer of the
//! `iovec`, 36 to 39 its length, 40 to 43 the count of bytes written.
use vstd::prelude::*;

use crate::ast::{LoopCond, Stmt, Var};
use crate::interp::{assign, cond_holds, simple_step, value, var_index};
use crate::text::{append_decimal, dec_chars, int_bytes};

verus! {

/// The function that prints an `i64` in decimal.
pub const PRINT_I64_FUNC: &'static str = r#"  (func $print_i64 (param $val i64)
    (local $neg i32)
    (local $uval i64)
    (local $pos i32)
    (local $digit i64)
    (if (i64.eqz (local.get $val))
      (then
        (i32.store8 (i32.const 31) (i32.const 48))
        (i32.store (i32.const 32) (i32.const 31))
        (i32.store (i32.const 36) (i32.const 1))
        (drop (call $fd_write (i32.const 1) (i32.const 32) (i32.const 1) (i32.const 40)))
        return
      )
    )
    (local.set $neg (i64.lt_s (local.get $val) (i64.const 0)))
    (if (local.get $neg)
      (then (local.set $uval (i64.sub (i64.const 0) (local.get $val))))
      (else (local.set $uval (local.get $val)))
    )
    (local.set $pos (i32.const 31))
    (block $brk
      (loop $top
        (br_if $brk (i64.eqz (local.get $uval)))
        (local.set $digit (i64.rem_u (local.get $uval) (i64.const 10)))
        (i32.store8
          (local.get $pos)
          (i32.add (i32.const 48) (i32.wrap_i64 (local.get $digit)))
        )
        (local.set $pos (i32.sub (local.get $pos) (i32.const 1)))
        (local.set $uval (i64.div_u (local.get $uval) (i64.const 10)))
        (br $top)
      )
    )
    (if (local.get $neg)
      (then
        (i32.store8 (local.get $pos) (i32.const 45))
        (local.set $pos (i32.sub (local.get $pos) (i32.const 1)))
      )
    )
    (i32.store (i32.const 32) (i32.add (local.get $pos) (i32.const 1)))
    (i32.store (i32.const 36) (i32.sub (i32.const 31) (local.get $pos)))
    (drop (call $fd_write (i32.const 1) (i32.const 32) (i32.const 1) (i32.const 40)))
  )
"#;

/// The name of the global that holds a variable.
pub open spec fn global_name(v: Var) -> Seq<char> {
    match v {
        Var::A => "$A"@,
        Var::B => "$B"@,
        Var::C => "$C"@,
    }
}

/// Indentation: two spaces per level.
pub open spec fn pad(depth: nat) -> Seq<char>
    decreases depth,
{
    if depth == 0 {
        seq![]
    } else {
        pad((depth - 1) as nat) + "  "@
    }
}

/// Number of loops in a sequence of statements, nested ones included.
pub open spec fn loop_count(stmts: Seq<Stmt>) -> nat
    decreases stmts,
{
    if stmts.len() == 0 {
        0
    } else {
        stmt_loop_count(stmts[0]) + loop_count(stmts.drop_first())
    }
}

/// Number of loops in a statement, nested ones included.
pub open spec fn stmt_loop_count(s: Stmt) -> nat
    decreases s,
{
    match s {
        Stmt::Loop { body, .. } => {
            proof {
                assert(decreases_to!(s => body@));
            }
            1 + loop_count(body@)
        },
        _ => 0,
    }
}

/// `prefix` followed by `(global.set D (OP (global.get D) OPERAND))` and a
/// line break.
pub open spec fn update_text(prefix: Seq<char>, d: Var, op: Seq<char>, operand: Seq<char>) -> Seq<char> {
    prefix + "(global.set "@ + global_name(d) + " ("@ + op + " (global.get "@ + global_name(d)
        + ") "@ + operand + "))\n"@
}

/// The instruction that ends a loop: the negation of its condition.
pub open spec fn exit_instr(c: LoopCond) -> Seq<char> {
    match c {
        LoopCond::NotEqual(..) => "i64.eq"@,
        LoopCond::Greater(..) => "i64.le_s"@,
        LoopCond::Less(..) => "i64.ge_s"@,
    }
}

/// The two variables that a condition compares.
pub open spec fn cond_vars(c: LoopCond) -> (Var, Var) {
    match c {
        LoopCond::NotEqual(a, b) => (a, b),
        LoopCond::Greater(a, b) => (a, b),
        LoopCond::Less(a, b) => (a, b),
    }
}

/// The text of a statement that is no loop, at indentation `depth`.
pub open spec fn simple_text(s: Stmt, depth: nat) -> Seq<char> {
    let p = pad(depth);
    match s {
        Stmt::IncBy1(v) => update_text(p, v, "i64.add"@, "(i64.const 1)"@),
        Stmt::DecBy1(v) => update_text(p, v, "i64.sub"@, "(i64.const 1)"@),
        Stmt::IncByVar(d, v) => update_text(p, d, "i64.add"@, "(global.get "@ + global_name(v) + ")"@),
        Stmt::DecByVar(d, v) => update_text(p, d, "i64.sub"@, "(global.get "@ + global_name(v) + ")"@),
        Stmt::Assign { dst, src } => p + "(global.set "@ + global_name(dst) + " (global.get "@
            + global_name(src) + "))\n"@,
        Stmt::PrintInt(v) => p + "(call $print_i64 (global.get "@ + global_name(v) + "))\n"@,
        Stmt::PrintChar(v) => p + "(i32.store8 (i32.const 0) (i32.wrap_i64 (i64.and (global.get "@
            + global_name(v) + ") (i64.const 255))))\n"@ + p
            + "(i32.store (i32.const 32) (i32.const 0))\n"@ + p
            + "(i32.store (i32.const 36) (i32.const 1))\n"@ + p
            + "(drop (call $fd_write (i32.const 1) (i32.const 32) (i32.const 1) (i32.const 40)))\n"@,
        Stmt::Loop { .. } => seq![],
    }
}

/// The opening of loop number `idx`: a block to leave, a loop to repeat, and
/// the exit taken when the condition fails.
pub open spec fn loop_head_text(cond: LoopCond, depth: nat, idx: nat) -> Seq<char> {
    let p = pad(depth);
    let n = dec_chars(idx);
    p + "(block $exit_"@ + n + "\n"@ + p + "  (loop $top_"@ + n + "\n"@ + p + "    (br_if $exit_"@ + n
        + " ("@ + exit_instr(cond) + " (global.get "@ + global_name(cond_vars(cond).0)
        + ") (global.get "@ + global_name(cond_vars(cond).1) + ")))\n"@
}

/// The closing of loop number `idx`: the jump back and the brackets.
pub open spec fn loop_tail_text(depth: nat, idx: nat) -> Seq<char> {
    let p = pad(depth);
    p + "    (br $top_"@ + dec_chars(idx) + ")\n"@ + p + "  )\n"@ + p + ")\n"@
}

/// The text of one statement at indentation `depth`, when the loops before
/// it have used the labels below `idx`; and the next free label. The body
/// of a loop is indented two levels deeper than the loop.
pub open spec fn stmt_text(s: Stmt, depth: nat, idx: nat) -> (Seq<char>, nat)
    decreases s,
{
    match s {
        Stmt::Loop { cond, body, .. } => {
            proof {
                assert(decreases_to!(s => body@));
            }
            let inner = block_text(body@, depth + 2, idx + 1);
            (loop_head_text(cond, depth, idx) + inner.0 + loop_tail_text(depth, idx), inner.1)
        },
        _ => (simple_text(s, depth), idx),
    }
}

/// The text of a sequence of statements, each after the other, numbering
/// loops from `idx` on; and the next free label.
pub open spec fn block_text(stmts: Seq<Stmt>, depth: nat, idx: nat) -> (Seq<char>, nat)
    decreases stmts,
{
    if stmts.len() == 0 {
        (seq![], idx)
    } else {
        let first = stmt_text(stmts[0], depth, idx);
        let rest = block_text(stmts.drop_first(), depth, first.1);
        (first.0 + rest.0, rest.1)
    }
}

/// The head of the module: the WASI import, the memory, the globals and the
/// printing function, then the start of `_start`.
pub open spec fn module_head() -> Seq<char> {
    "(module\n"@
        + "  (import \"wasi_snapshot_preview1\" \"fd_write\"\n(func $fd_write (param i32 i32 i32 i32) (result i32)))\n"@
        + "  (memory (export \"memory\") 1)\n"@ + "  (global $A (mut i64) (i64.const 0))\n"@
        + "  (global $B (mut i64) (i64.const 0))\n"@ + "  (global $C (mut i64) (i64.const 0))\n"@
        + PRINT_I64_FUNC@ + "  (func $_start (export \"_start\")\n"@
}

/// The WebAssembly text of a program: the head, the statements of the
/// program as the body of `_start` at indentation 2, loops numbered from 0,
/// and the closing brackets.
pub open spec fn wat_text(program: Seq<Stmt>) -> Seq<char> {
    module_head() + block_text(program, 2, 0).0 + "  )\n)\n"@
}

/// Loops are numbered in order, each with a label of its own: the text of a
/// sequence of statements uses exactly the labels from `idx` to
/// `idx + loop_count(stmts) - 1`.
pub proof fn lemma_block_labels(stmts: Seq<Stmt>, depth: nat, idx: nat)
    ensures
        block_text(stmts, depth, idx).1 == idx + loop_count(stmts),
    decreases stmts,
{
    if stmts.len() > 0 {
        lemma_stmt_labels(stmts[0], depth, idx);
        lemma_block_labels(stmts.drop_first(), depth, stmt_text(stmts[0], depth, idx).1);
    }
}

/// `lemma_block_labels` for one statement.
pub proof fn lemma_stmt_labels(s: Stmt, depth: nat, idx: nat)
    ensures
        stmt_text(s, depth, idx).1 == idx + stmt_loop_count(s),
    decreases s,
{
    if let Stmt::Loop { body, .. } = s {
        assert(decreases_to!(s => body@));
        lemma_block_labels(body@, depth + 2, idx + 1);
    }
}

/// What the comparisons that close loops compute in WebAssembly: `i64.eq`
/// tests equality, `i64.le_s` and `i64.ge_s` compare as signed integers.
pub open spec fn wasm_compare(instr: Seq<char>, a: i64, b: i64) -> bool {
    if instr == "i64.eq"@ {
        a == b
    } else if instr == "i64.le_s"@ {
        a <= b
    } else {
        a >= b
    }
}

/// A loop of the module is left exactly when the interpreter would stop
/// it: the exit test compares the two variables of the condition and holds
/// just when the condition does not.
pub proof fn lemma_exit_is_negated_cond(c: LoopCond, vars: Seq<i64>)
    requires
        vars.len() == 3,
    ensures
        wasm_compare(
            exit_instr(c),
            value(vars, cond_vars(c).0),
            value(vars, cond_vars(c).1),
        ) == !cond_holds(c, vars),
{
    reveal_strlit("i64.eq");
    reveal_strlit("i64.le_s");
    reveal_strlit("i64.ge_s");
    assert("i64.le_s"@ != "i64.eq"@) by {
        assert("i64.le_s"@.len() != "i64.eq"@.len());
    }
    assert("i64.ge_s"@ != "i64.eq"@) by {
        assert("i64.ge_s"@.len() != "i64.eq"@.len());
    }
    assert("i64.ge_s"@ != "i64.le_s"@) by {
        assert("i64.ge_s"@[4] != "i64.le_s"@[4]);
    }
}

/// What the `i64` arithmetic instructions compute: `i64.add` and
/// `i64.sub` wrap around.
pub open spec fn wasm_arith(op: Seq<char>, a: i64, b: i64) -> Option<i64> {
    if op == "i64.add"@ {
        Some(vstd::wrapping::i64_specs::wrapping_add(a, b))
    } else if op == "i64.sub"@ {
        Some(vstd::wrapping::i64_specs::wrapping_sub(a, b))
    } else {
        None
    }
}

/// The operand `(global.get G)` of a variable.
pub open spec fn global_get(v: Var) -> Seq<char> {
    "(global.get "@ + global_name(v) + ")"@
}

/// The value of an operand: the constant `1` or the global of a variable.
pub open spec fn operand_value(o: Seq<char>, vars: Seq<i64>) -> Option<i64> {
    if o == "(i64.const 1)"@ {
        Some(1)
    } else if o == global_get(Var::A) {
        Some(value(vars, Var::A))
    } else if o == global_get(Var::B) {
        Some(value(vars, Var::B))
    } else if o == global_get(Var::C) {
        Some(value(vars, Var::C))
    } else {
        None
    }
}

proof fn lemma_operands(vars: Seq<i64>, v: Var)
    ensures
        operand_value("(i64.const 1)"@, vars) == Some(1i64),
        operand_value(global_get(v), vars) == Some(value(vars, v)),
        "i64.add"@ != "i64.sub"@,
{
    reveal_strlit("(i64.const 1)");
    reveal_strlit("(global.get ");
    reveal_strlit(")");
    reveal_strlit("$A");
    reveal_strlit("$B");
    reveal_strlit("$C");
    reveal_strlit("i64.add");
    reveal_strlit("i64.sub");
    assert("i64.add"@[4] != "i64.sub"@[4]);
    let ga = global_get(Var::A);
    let gb = global_get(Var::B);
    let gc = global_get(Var::C);
    assert(ga[1] == 'g' && gb[1] == 'g' && gc[1] == 'g');
    assert("(i64.const 1)"@[1] == 'i');
    assert(ga[13] == 'A' && gb[13] == 'B' && gc[13] == 'C');
    assert(ga != "(i64.const 1)"@ && gb != "(i64.const 1)"@ && gc != "(i64.const 1)"@);
    assert(gb != ga && gc != ga && gc != gb);
}

/// The text of an arithmetic statement computes what the interpreter does:
/// it sets the global of one variable to an `i64` instruction applied to
/// that global and an operand, and the interpreter gives exactly that
/// variable exactly that value, leaving the others alone.
pub proof fn lemma_update_text_computes(s: Stmt, d: nat, vars: Seq<i64>)
    requires
        vars.len() == 3,
        s is IncBy1 || s is DecBy1 || s is IncByVar || s is DecByVar,
    ensures
        exists|v: Var, op: Seq<char>, o: Seq<char>, x: i64|
            #![trigger update_text(pad(d), v, op, o), wasm_arith(op, value(vars, v), x)]
            {
                &&& simple_text(s, d) == update_text(pad(d), v, op, o)
                &&& operand_value(o, vars) == Some(x)
                &&& wasm_arith(op, value(vars, v), x) is Some
                &&& simple_step(vars, s).0 == assign(vars, v, wasm_arith(op, value(vars, v), x)->0)
            },
{
    let add = "i64.add"@;
    let sub = "i64.sub"@;
    let one = "(i64.const 1)"@;
    match s {
        Stmt::IncBy1(v) => {
            lemma_operands(vars, v);
            assert(wasm_arith(add, value(vars, v), 1) is Some);
            assert(simple_text(s, d) == update_text(pad(d), v, add, one));
        },
        Stmt::DecBy1(v) => {
            lemma_operands(vars, v);
            assert(wasm_arith(sub, value(vars, v), 1) is Some);
            assert(simple_text(s, d) == update_text(pad(d), v, sub, one));
        },
        Stmt::IncByVar(v, w) => {
            lemma_operands(vars, w);
            assert(wasm_arith(add, value(vars, v), value(vars, w)) is Some);
            assert(simple_text(s, d) == update_text(pad(d), v, add, global_get(w)));
        },
        Stmt::DecByVar(v, w) => {
            lemma_operands(vars, w);
            assert(wasm_arith(sub, value(vars, v), value(vars, w)) is Some);
            assert(simple_text(s, d) == update_text(pad(d), v, sub, global_get(w)));
        },
        _ => {},
    }
}

/// The text of a copy or print statement reads the variable that the
/// interpreter reads: `d = s` sets the global of `d` to the operand of
/// `s`, whose value the interpreter gives `d`; printing a number calls
/// `$print_i64` on the operand of the printed variable, whose decimal
/// digits the interpreter writes; printing a character stores the low byte
/// (`i64.and` with 255) of that operand, the byte the interpreter writes.
pub proof fn lemma_read_text(d: nat, vars: Seq<i64>, v: Var, w: Var)
    requires
        vars.len() == 3,
    ensures
        simple_text(Stmt::Assign { dst: v, src: w }, d) == pad(d) + "(global.set "@ + global_name(v)
            + " "@ + global_get(w) + ")\n"@,
        simple_step(vars, Stmt::Assign { dst: v, src: w }).0 == assign(
            vars,
            v,
            operand_value(global_get(w), vars)->0,
        ),
        simple_text(Stmt::PrintInt(v), d) == pad(d) + "(call $print_i64 "@ + global_get(v) + ")\n"@,
        simple_step(vars, Stmt::PrintInt(v)).1 == int_bytes(
            operand_value(global_get(v), vars)->0 as int,
        ),
        simple_text(Stmt::PrintChar(v), d).take(
            (pad(d) + "(i32.store8 (i32.const 0) (i32.wrap_i64 (i64.and "@ + global_get(v)
                + " (i64.const 255))))\n"@).len() as int,
        ) == pad(d) + "(i32.store8 (i32.const 0) (i32.wrap_i64 (i64.and "@ + global_get(v)
            + " (i64.const 255))))\n"@,
        simple_step(vars, Stmt::PrintChar(v)).1 == seq![
            (operand_value(global_get(v), vars)->0 & 255) as u8,
        ],
{
    lemma_operands(vars, v);
    lemma_operands(vars, w);
    reveal_strlit("(global.set ");
    reveal_strlit(" (global.get ");
    reveal_strlit("(global.get ");
    reveal_strlit(" ");
    reveal_strlit("))\n");
    reveal_strlit(")\n");
    reveal_strlit("(call $print_i64 (global.get ");
    reveal_strlit("(call $print_i64 ");
    reveal_strlit("(i32.store8 (i32.const 0) (i32.wrap_i64 (i64.and (global.get ");
    reveal_strlit("(i32.store8 (i32.const 0) (i32.wrap_i64 (i64.and ");
    reveal_strlit(") (i64.const 255))))\n");
    reveal_strlit(" (i64.const 255))))\n");
    reveal_strlit(")");
    let p = pad(d);
    assert(simple_text(Stmt::Assign { dst: v, src: w }, d) =~= p + "(global.set "@ + global_name(v)
        + " "@ + global_get(w) + ")\n"@);
    assert(simple_text(Stmt::PrintInt(v), d) =~= p + "(call $print_i64 "@ + global_get(v) + ")\n"@);
    let head = p + "(i32.store8 (i32.const 0) (i32.wrap_i64 (i64.and "@ + global_get(v)
        + " (i64.const 255))))\n"@;
    let full = simple_text(Stmt::PrintChar(v), d);
    assert(p + "(i32.store8 (i32.const 0) (i32.wrap_i64 (i64.and (global.get "@ + global_name(v)
        + ") (i64.const 255))))\n"@ =~= head);
    assert(full.take(head.len() as int) =~= head);
}

fn var_name(v: Var) -> (r: &'static str)
    ensures
        r@ == global_name(v),
{
    match v {
        Var::A => "$A",
        Var::B => "$B",
        Var::C => "$C",
    }
}

fn append_pad(out: &mut String, depth: usize)
    ensures
        final(out)@ == old(out)@ + pad(depth as nat),
{
    let mut i: usize = 0;
    while i < depth
        invariant
            0 <= i <= depth,
            out@ == old(out)@ + pad(i as nat),
        decreases depth - i,
    {
        out.append("  ");
        i = i + 1;
        proof {
            assert(pad(i as nat) == pad((i - 1) as nat) + "  "@);
        }
    }
}

fn append_update(out: &mut String, d: Var, op: &str, operand_var: Option<Var>)
    ensures
        final(out)@ == update_text(
            old(out)@,
            d,
            op@,
            match operand_var {
                Some(v) => "(global.get "@ + global_name(v) + ")"@,
                None => "(i64.const 1)"@,
            },
        ),
{
    let dn = var_name(d);
    out.append("(global.set ");
    out.append(dn);
    out.append(" (");
    out.append(op);
    out.append(" (global.get ");
    out.append(dn);
    out.append(") ");
    let ghost mid = out@;
    match operand_var {
        Some(v) => {
            out.append("(global.get ");
            out.append(var_name(v));
            out.append(")");
            proof {
                assert(out@ =~= mid + ("(global.get "@ + global_name(v) + ")"@));
            }
        },
        None => {
            out.append("(i64.const 1)");
        },
    }
    out.append("))\n");
}

fn emit_stmts(stmts: &[Stmt], out: &mut String, depth: usize, loop_idx: &mut usize)
    requires
        *old(loop_idx) + loop_count(stmts@) <= usize::MAX,
        depth + 2 * loop_count(stmts@) <= usize::MAX,
    ensures
        final(out)@ == old(out)@ + block_text(stmts@, depth as nat, *old(loop_idx) as nat).0,
        *final(loop_idx) == block_text(stmts@, depth as nat, *old(loop_idx) as nat).1,
    decreases stmts@,
{
    let ghost o0 = out@;
    let ghost i0 = *loop_idx;
    let mut i: usize = 0;
    proof {
        assert(stmts@.skip(0) =~= stmts@);
        assert(out@.skip(o0.len() as int) =~= Seq::<char>::empty());
        assert(Seq::<char>::empty() + block_text(stmts@, depth as nat, i0 as nat).0 =~= block_text(
            stmts@,
            depth as nat,
            i0 as nat,
        ).0);
        assert(out@.take(o0.len() as int) =~= o0);
    }
    while i < stmts.len()
        invariant
            0 <= i <= stmts@.len(),
            o0 == old(out)@,
            i0 == *old(loop_idx),
            out@.len() >= o0.len(),
            out@.take(o0.len() as int) == o0,
            block_text(stmts@, depth as nat, i0 as nat).0 == out@.skip(o0.len() as int)
                + block_text(stmts@.skip(i as int), depth as nat, *loop_idx as nat).0,
            block_text(stmts@, depth as nat, i0 as nat).1 == block_text(
                stmts@.skip(i as int),
                depth as nat,
                *loop_idx as nat,
            ).1,
            *loop_idx + loop_count(stmts@.skip(i as int)) <= usize::MAX,
            depth + 2 * loop_count(stmts@.skip(i as int)) <= usize::MAX,
        decreases stmts@.len() - i,
    {
        let ghost oi = out@;
        let ghost li = *loop_idx;
        proof {
            assert(stmts@.skip(i as int).drop_first() =~= stmts@.skip(i + 1));
            assert(stmts@.skip(i as int)[0] == stmts@[i as int]);
            lemma_stmt_labels(stmts@[i as int], depth as nat, li as nat);
        }
        emit_stmt(&stmts[i], out, depth, loop_idx);
        proof {
            assert(out@.take(o0.len() as int) =~= oi.take(o0.len() as int));
            assert(out@.skip(o0.len() as int) =~= oi.skip(o0.len() as int) + stmt_text(
                stmts@[i as int],
                depth as nat,
                li as nat,
            ).0);
            let rest = block_text(stmts@.skip(i + 1), depth as nat, *loop_idx as nat);
            assert(oi.skip(o0.len() as int) + (stmt_text(stmts@[i as int], depth as nat, li as nat).0
                + rest.0) =~= out@.skip(o0.len() as int) + rest.0);
        }
        i = i + 1;
    }
    proof {
        assert(stmts@.skip(i as int) =~= Seq::<Stmt>::empty());
        assert(out@ =~= o0 + out@.skip(o0.len() as int));
        assert(out@.skip(o0.len() as int) + Seq::<char>::empty() =~= out@.skip(o0.len() as int));
    }
}

fn emit_simple(stmt: &Stmt, out: &mut String, depth: usize)
    requires
        !(*stmt is Loop),
    ensures
        final(out)@ == old(out)@ + simple_text(*stmt, depth as nat),
{
    let mut t = String::new();
    append_pad(&mut t, depth);
    proof {
        assert(Seq::<char>::empty() + pad(depth as nat) =~= pad(depth as nat));
    }
    match stmt {
        Stmt::IncBy1(v) => {
            append_update(&mut t,  *v, "i64.add", None);
        },
        Stmt::DecBy1(v) => {
            append_update(&mut t,  *v, "i64.sub", None);
        },
        Stmt::IncByVar(dst, src) => {
            append_update(&mut t,  *dst, "i64.add", Some(*src));
        },
        Stmt::DecByVar(dst, src) => {
            append_update(&mut t,  *dst, "i64.sub", Some(*src));
        },
        Stmt::Assign { dst, src } => {
            t.append("(global.set ");
            t.append(var_name(*dst));
            t.append(" (global.get ");
            t.append(var_name(*src));
            t.append("))\n");
        },
        Stmt::PrintInt(v) => {
            t.append("(call $print_i64 (global.get ");
            t.append(var_name(*v));
            t.append("))\n");
        },
        Stmt::PrintChar(v) => {
            t.append("(i32.store8 (i32.const 0) (i32.wrap_i64 (i64.and (global.get ");
            t.append(var_name(*v));
            t.append(") (i64.const 255))))\n");
            append_pad(&mut t, depth);
            t.append("(i32.store (i32.const 32) (i32.const 0))\n");
            append_pad(&mut t, depth);
            t.append("(i32.store (i32.const 36) (i32.const 1))\n");
            append_pad(&mut t, depth);
            t.append(
                "(drop (call $fd_write (i32.const 1) (i32.const 32) (i32.const 1) (i32.const 40)))\n",
            );
        },
        Stmt::Loop { .. } => {},
    }
    out.append(t.as_str());
}

fn emit_loop_head(cond: &LoopCond, out: &mut String, depth: usize, idx: usize)
    ensures
        final(out)@ == old(out)@ + loop_head_text(*cond, depth as nat, idx as nat),
{
    let (exit, lhs, rhs) = match cond {
        LoopCond::NotEqual(a, b) => ("i64.eq", var_name(*a), var_name(*b)),
        LoopCond::Greater(a, b) => ("i64.le_s", var_name(*a), var_name(*b)),
        LoopCond::Less(a, b) => ("i64.ge_s", var_name(*a), var_name(*b)),
    };
    let mut t = String::new();
    append_pad(&mut t, depth);
    proof {
        assert(Seq::<char>::empty() + pad(depth as nat) =~= pad(depth as nat));
    }
    t.append("(block $exit_");
    append_decimal(&mut t, idx);
    t.append("\n");
    append_pad(&mut t, depth);
    t.append("  (loop $top_");
    append_decimal(&mut t, idx);
    t.append("\n");
    append_pad(&mut t, depth);
    t.append("    (br_if $exit_");
    append_decimal(&mut t, idx);
    t.append(" (");
    t.append(exit);
    t.append(" (global.get ");
    t.append(lhs);
    t.append(") (global.get ");
    t.append(rhs);
    t.append(")))\n");
    out.append(t.as_str());
}

fn emit_loop_tail(out: &mut String, depth: usize, idx: usize)
    ensures
        final(out)@ == old(out)@ + loop_tail_text(depth as nat, idx as nat),
{
    let mut t = String::new();
    append_pad(&mut t, depth);
    proof {
        assert(Seq::<char>::empty() + pad(depth as nat) =~= pad(depth as nat));
    }
    t.append("    (br $top_");
    append_decimal(&mut t, idx);
    t.append(")\n");
    append_pad(&mut t, depth);
    t.append("  )\n");
    append_pad(&mut t, depth);
    t.append(")\n");
    out.append(t.as_str());
}

fn emit_stmt(stmt: &Stmt, out: &mut String, depth: usize, loop_idx: &mut usize)
    requires
        *old(loop_idx) + stmt_loop_count(*stmt) <= usize::MAX,
        depth + 2 * stmt_loop_count(*stmt) <= usize::MAX,
    ensures
        final(out)@ == old(out)@ + stmt_text(*stmt, depth as nat, *old(loop_idx) as nat).0,
        *final(loop_idx) == stmt_text(*stmt, depth as nat, *old(loop_idx) as nat).1,
    decreases stmt,
{
    match stmt {
        Stmt::Loop { cond, body, .. } => {
            let idx = *loop_idx;
            *loop_idx = *loop_idx + 1;
            emit_loop_head(cond, out, depth, idx);
            proof {
                assert(decreases_to!(*stmt => body@));
            }
            let b = body.as_slice();
            emit_stmts(b, out, depth + 2, loop_idx);
            emit_loop_tail(out, depth, idx);
            proof {
                assert(final(out)@ =~= old(out)@ + stmt_text(*stmt, depth as nat, idx as nat).0);
            }
        },
        _ => {
            emit_simple(stmt, out, depth);
        },
    }
}

/// The WebAssembly text of a program.
pub fn generate_wat(program: &[Stmt]) -> (wat: String)
    requires
        2 + 2 * loop_count(program@) <= usize::MAX,
    ensures
        wat@ == wat_text(program@),
{
    let mut wat = String::new();
    wat.append("(module\n");
    wat.append(
        "  (import \"wasi_snapshot_preview1\" \"fd_write\"\n(func $fd_write (param i32 i32 i32 i32) (result i32)))\n",
    );
    wat.append("  (memory (export \"memory\") 1)\n");
    wat.append("  (global $A (mut i64) (i64.const 0))\n");
    wat.append("  (global $B (mut i64) (i64.const 0))\n");
    wat.append("  (global $C (mut i64) (i64.const 0))\n");
    wat.append(PRINT_I64_FUNC);
    wat.append("  (func $_start (export \"_start\")\n");
    let mut body = String::new();
    let mut loop_idx: usize = 0;
    emit_stmts(program, &mut body, 2, &mut loop_idx);
    wat.append(body.as_str());
    wat.append("  )\n)\n");
    proof {
        assert(wat@ =~= wat_text(program@));
    }
    wat
}

/// The text of every program opens a core module.
pub proof fn lemma_wat_text_core(program: Seq<Stmt>)
    ensures
        core_module_text(wat_text(program)),
{
    reveal_strlit("(module\n");
    let t = wat_text(program);
    let rest = module_head().skip(8) + block_text(program, 2, 0).0 + "  )\n)\n"@;
    assert(module_head() =~= "(module\n"@ + module_head().skip(8));
    assert(t =~= "(module\n"@ + rest);
    assert(t.take(8) =~= "(module\n"@);
}

/// The error type of the `wat` crate.
#[verifier::external_type_specification]
#[verifier::external_body]
pub struct ExWatError(wat::Error);

/// The text opens a core module: it starts with `(module` and a line break.
/// `wast` then parses a core module, whose fields hold no component items.
pub open spec fn core_module_text(text: Seq<char>) -> bool {
    text.len() >= 8 && text.take(8) == "(module\n"@
}

/// The binary module that `wat::parse_str` makes of the text of a core
/// module, or `None` where it reports an error. For such a text the outcome
/// depends on the text alone; for the text of a component it may also
/// depend on the environment variable `WAST_STRICT_COMPONENT_INDICES`,
/// which is why the name is applied to core-module text only.
pub uninterp spec fn wat_binary(text: Seq<char>) -> Option<Seq<u8>>;

/// Calls `wat::parse_str`, which parses WebAssembly text and encodes the
/// module in the binary format. For the text of a core module, the contract
/// claims no more than that the outcome is the one that `wat_binary` names
/// for the text: the bytes on success, an error exactly where `wat_binary`
/// gives `None`. Texts of other kinds are not admitted.
#[verifier::external_body]
fn parse_wat(text: &str) -> (r: Result<Vec<u8>, wat::Error>)
    requires
        core_module_text(text@),
    ensures
        match r {
            Ok(b) => wat_binary(text@) == Some(b@),
            Err(_) => wat_binary(text@) is None,
        },
{
    wat::parse_str(text)
}

/// Renders an error of the `wat` crate with its `Display` impl. Nothing is
/// stated of the text.
#[verifier::external_body]
fn wat_error_message(e: &wat::Error) -> String {
    e.to_string()
}

/// The binary form of a module could not be made; the message is that of
/// the assembler.
#[derive(Debug)]
pub struct WasmError {
    pub msg: String,
}

/// Compiles a program to a binary WebAssembly module: its text, as
/// `generate_wat` makes it, assembled by the `wat` crate.
pub fn generate_wasm(program: &[Stmt]) -> (r: Result<Vec<u8>, WasmError>)
    requires
        2 + 2 * loop_count(program@) <= usize::MAX,
    ensures
        match r {
            Ok(b) => wat_binary(wat_text(program@)) == Some(b@),
            Err(_) => wat_binary(wat_text(program@)) is None,
        },
{
    let text = generate_wat(program);
    proof {
        lemma_wat_text_core(program@);
    }
    match parse_wat(text.as_str()) {
        Ok(bytes) => Ok(bytes),
        Err(e) => Err(WasmError { msg: wat_error_message(&e) }),
    }
}

} // verus!
