//! Runs a program: three signed 64-bit variables, all starting at zero,
//! with wrapping arithmetic; output is a sequence of bytes.
use vstd::prelude::*;

use crate::ast::{LoopCond, Stmt, Var};
use crate::text::{int_bytes, push_int_bytes};

verus! {

/// The values of A, B and C, in this order.
pub type Vars = Seq<i64>;

/// The position of a variable in `Vars`.
pub open spec fn var_index(v: Var) -> int {
    match v {
        Var::A => 0,
        Var::B => 1,
        Var::C => 2,
    }
}

/// The value of `v`.
pub open spec fn value(vars: Vars, v: Var) -> i64 {
    vars[var_index(v)]
}

/// The condition holds: the comparisons are signed.
pub open spec fn cond_holds(c: LoopCond, vars: Vars) -> bool {
    match c {
        LoopCond::NotEqual(a, b) => value(vars, a) != value(vars, b),
        LoopCond::Greater(a, b) => value(vars, a) > value(vars, b),
        LoopCond::Less(a, b) => value(vars, a) < value(vars, b),
    }
}

/// Sets `v` to `x`.
pub open spec fn assign(vars: Vars, v: Var, x: i64) -> Vars {
    vars.update(var_index(v), x)
}

/// The effect of a statement that is no loop: the new values and the bytes
/// written. A number prints in decimal with a `-` when negative; a
/// character prints as the low byte of the value.
pub open spec fn simple_step(vars: Vars, s: Stmt) -> (Vars, Seq<u8>) {
    match s {
        Stmt::IncBy1(v) => (
            assign(vars, v, vstd::wrapping::i64_specs::wrapping_add(value(vars, v), 1)),
            seq![],
        ),
        Stmt::DecBy1(v) => (
            assign(vars, v, vstd::wrapping::i64_specs::wrapping_sub(value(vars, v), 1)),
            seq![],
        ),
        Stmt::IncByVar(d, s) => (
            assign(
                vars,
                d,
                vstd::wrapping::i64_specs::wrapping_add(value(vars, d), value(vars, s)),
            ),
            seq![],
        ),
        Stmt::DecByVar(d, s) => (
            assign(
                vars,
                d,
                vstd::wrapping::i64_specs::wrapping_sub(value(vars, d), value(vars, s)),
            ),
            seq![],
        ),
        Stmt::Assign { dst, src } => (assign(vars, dst, value(vars, src)), seq![]),
        Stmt::PrintInt(v) => (vars, int_bytes(value(vars, v) as int)),
        Stmt::PrintChar(v) => (vars, seq![(value(vars, v) & 0xff) as u8]),
        Stmt::Loop { .. } => (vars, seq![]),
    }
}

/// Runs `stmts` in order from `vars`, where no loop may run more than
/// `fuel` iterations (and a loop nested in an iteration `fuel - 1`): the
/// final values and the bytes written, or `None` when some loop would
/// exceed its bound.
pub open spec fn run_block(vars: Vars, stmts: Seq<Stmt>, fuel: nat) -> Option<(Vars, Seq<u8>)>
    decreases fuel, stmts,
{
    if stmts.len() == 0 {
        Some((vars, seq![]))
    } else {
        match run_stmt(vars, stmts[0], fuel) {
            None => None,
            Some((v1, o1)) => match run_block(v1, stmts.drop_first(), fuel) {
                None => None,
                Some((v2, o2)) => Some((v2, o1 + o2)),
            },
        }
    }
}

/// Runs one statement, as `run_block` does.
pub open spec fn run_stmt(vars: Vars, s: Stmt, fuel: nat) -> Option<(Vars, Seq<u8>)>
    decreases fuel, s,
{
    match s {
        Stmt::Loop { cond, body, .. } => run_loop(vars, cond, body@, fuel),
        _ => Some(simple_step(vars, s)),
    }
}

/// Runs a loop: while the condition holds, run the body. The condition is
/// tested before each iteration.
pub open spec fn run_loop(vars: Vars, cond: LoopCond, body: Seq<Stmt>, fuel: nat) -> Option<
    (Vars, Seq<u8>),
>
    decreases fuel, body,
{
    if !cond_holds(cond, vars) {
        Some((vars, seq![]))
    } else if fuel == 0 {
        None
    } else {
        match run_block(vars, body, (fuel - 1) as nat) {
            None => None,
            Some((v1, o1)) => match run_loop(v1, cond, body, (fuel - 1) as nat) {
                None => None,
                Some((v2, o2)) => Some((v2, o1 + o2)),
            },
        }
    }
}

/// Runs `stmts` from `vars` with the bound on loop iterations that
/// `Interpreter::run_to` uses.
pub open spec fn run_program(vars: Vars, stmts: Seq<Stmt>) -> Option<(Vars, Seq<u8>)> {
    run_block(vars, stmts, u64::MAX as nat)
}

/// A higher bound on loop iterations gives the same outcome as a lower
/// one under which the run already ends.
pub proof fn lemma_run_block_fuel(vars: Vars, stmts: Seq<Stmt>, f: nat, g: nat)
    requires
        f <= g,
        run_block(vars, stmts, f) is Some,
    ensures
        run_block(vars, stmts, g) == run_block(vars, stmts, f),
    decreases f, stmts,
{
    if stmts.len() > 0 {
        lemma_run_stmt_fuel(vars, stmts[0], f, g);
        let (v1, _) = run_stmt(vars, stmts[0], f)->0;
        lemma_run_block_fuel(v1, stmts.drop_first(), f, g);
    }
}

/// `lemma_run_block_fuel` for one statement.
pub proof fn lemma_run_stmt_fuel(vars: Vars, s: Stmt, f: nat, g: nat)
    requires
        f <= g,
        run_stmt(vars, s, f) is Some,
    ensures
        run_stmt(vars, s, g) == run_stmt(vars, s, f),
    decreases f, s,
{
    if let Stmt::Loop { cond, body, .. } = s {
        assert(decreases_to!(s => body@));
        lemma_run_loop_fuel(vars, cond, body@, f, g);
    }
}

/// `lemma_run_block_fuel` for a loop.
pub proof fn lemma_run_loop_fuel(vars: Vars, cond: LoopCond, body: Seq<Stmt>, f: nat, g: nat)
    requires
        f <= g,
        run_loop(vars, cond, body, f) is Some,
    ensures
        run_loop(vars, cond, body, g) == run_loop(vars, cond, body, f),
    decreases f, body,
{
    if cond_holds(cond, vars) {
        lemma_run_block_fuel(vars, body, (f - 1) as nat, (g - 1) as nat);
        let (v1, _) = run_block(vars, body, (f - 1) as nat)->0;
        lemma_run_loop_fuel(v1, cond, body, (f - 1) as nat, (g - 1) as nat);
    }
}

/// Runs one outcome after another: `None` if either is `None`, else the
/// second's values and both outputs in order.
pub open spec fn and_run(first: Option<(Vars, Seq<u8>)>, stmts: Seq<Stmt>, fuel: nat) -> Option<(Vars, Seq<u8>)> {
    match first {
        None => None,
        Some((v1, o1)) => match run_block(v1, stmts, fuel) {
            None => None,
            Some((v2, o2)) => Some((v2, o1 + o2)),
        },
    }
}

/// Running a sequence of statements one after the other: the empty
/// sequence changes nothing and writes nothing, and running `s1 + s2` is
/// running `s1` and, unless it stopped, `s2` from where `s1` ended.
pub proof fn lemma_run_block_concat(vars: Vars, s1: Seq<Stmt>, s2: Seq<Stmt>, fuel: nat)
    ensures
        run_block(vars, Seq::<Stmt>::empty(), fuel) == Some((vars, Seq::<u8>::empty())),
        run_block(vars, s1 + s2, fuel) == and_run(run_block(vars, s1, fuel), s2, fuel),
    decreases s1.len(),
{
    if s1.len() == 0 {
        assert(s1 + s2 =~= s2);
        if let Some((v2, o2)) = run_block(vars, s2, fuel) {
            assert(Seq::<u8>::empty() + o2 =~= o2);
        }
    } else {
        let rest = s1.drop_first();
        lemma_run_block_concat(vars, rest, s2, fuel);
        assert((s1 + s2)[0] == s1[0]);
        assert((s1 + s2).drop_first() =~= rest + s2);
        if let Some((v1, o1)) = run_stmt(vars, s1[0], fuel) {
            lemma_run_block_concat(v1, rest, s2, fuel);
            if let Some((v2, o2)) = run_block(v1, rest, fuel) {
                if let Some((v3, o3)) = run_block(v2, s2, fuel) {
                    assert(o1 + (o2 + o3) =~= (o1 + o2) + o3);
                }
            }
        }
    }
}

/// A loop runs as `while cond { body }`: when the condition holds and the
/// bound allows one more iteration, the loop is its body followed by the
/// loop again, with one iteration less allowed.
pub proof fn lemma_loop_unfolds(vars: Vars, cond: LoopCond, body: Vec<Stmt>, line: usize, f: nat)
    requires
        cond_holds(cond, vars),
    ensures
        run_stmt(vars, Stmt::Loop { cond, body, line }, f + 1) == and_run(
            run_block(vars, body@, f),
            seq![Stmt::Loop { cond, body, line }],
            f,
        ),
        run_stmt(vars, Stmt::Loop { cond, body, line }, 0) is None,
{
    let l = Stmt::Loop { cond, body, line };
    assert(run_stmt(vars, l, f + 1) == run_loop(vars, cond, body@, f + 1));
    if let Some((v1, o1)) = run_block(vars, body@, f) {
        assert(seq![l].drop_first() =~= Seq::<Stmt>::empty());
        assert(seq![l][0] == l);
        assert(run_stmt(v1, l, f) == run_loop(v1, cond, body@, f));
        if let Some((v2, o2)) = run_stmt(v1, l, f) {
            assert(run_block(v2, Seq::<Stmt>::empty(), f) == Some((v2, Seq::<u8>::empty())));
            assert(o2 + Seq::<u8>::empty() =~= o2);
            assert(run_block(v1, seq![l], f) == Some((v2, o2)));
        } else {
            assert(run_block(v1, seq![l], f) is None);
        }
    }
}

/// The condition of a loop is tested before the first iteration: a loop
/// whose condition does not hold runs no iteration, writes nothing and
/// changes no variable, whatever the bound.
pub proof fn lemma_loop_not_entered(vars: Vars, cond: LoopCond, body: Vec<Stmt>, line: usize, f: nat)
    requires
        !cond_holds(cond, vars),
    ensures
        run_stmt(vars, Stmt::Loop { cond, body, line }, f) == Some((vars, Seq::<u8>::empty())),
{
}

/// `x` and `y` are congruent modulo 2^64.
pub open spec fn congruent_2_64(x: int, y: int) -> bool {
    (x - y) % 0x1_0000_0000_0000_0000int == 0
}

/// Running `s` sets `d` to a value congruent to `x` modulo 2^64, leaves the
/// other variables as they were and writes nothing.
pub open spec fn sets_mod(vars: Vars, s: Stmt, d: Var, x: int, f: nat) -> bool {
    match run_stmt(vars, s, f) {
        Some((v, o)) => {
            &&& o.len() == 0
            &&& v.len() == vars.len()
            &&& congruent_2_64(value(v, d) as int, x)
            &&& forall|u: Var| u != d ==> #[trigger] value(v, u) == value(vars, u)
        },
        None => false,
    }
}

/// Running `s` leaves every variable as it was and writes `o`.
pub open spec fn writes(vars: Vars, s: Stmt, o: Seq<u8>, f: nat) -> bool {
    run_stmt(vars, s, f) == Some((vars, o))
}

/// What each statement does, for all variables `d` and `s` (the same one
/// or not), whatever the bound: `d += 1`, `d -= 1`, `d += s` and `d -= s`
/// set `d` to the exact result modulo 2^64 (the arithmetic wraps), `d = s`
/// copies `s` into `d`, each changing no other variable and writing
/// nothing; printing a number writes its decimal digits, printing a
/// character writes the value modulo 256, and neither changes a variable;
/// the loop conditions compare signed values: `!=`, `>` and `<`.
pub proof fn lemma_statement_meaning(vars: Vars, d: Var, s: Var, f: nat)
    requires
        vars.len() == 3,
    ensures
        ({
            let x = value(vars, d) as int;
            let y = value(vars, s) as int;
            &&& sets_mod(vars, Stmt::IncBy1(d), d, x + 1, f)
            &&& sets_mod(vars, Stmt::DecBy1(d), d, x - 1, f)
            &&& sets_mod(vars, Stmt::IncByVar(d, s), d, x + y, f)
            &&& sets_mod(vars, Stmt::DecByVar(d, s), d, x - y, f)
            &&& sets_mod(vars, Stmt::Assign { dst: d, src: s }, d, y, f)
            &&& run_stmt(vars, Stmt::Assign { dst: d, src: s }, f) matches Some((v, _)) && value(v, d)
                == value(vars, s)
            &&& writes(vars, Stmt::PrintInt(d), int_bytes(x), f)
            &&& writes(vars, Stmt::PrintChar(d), seq![(x % 256) as u8], f)
            &&& cond_holds(LoopCond::NotEqual(d, s), vars) == (x != y)
            &&& cond_holds(LoopCond::Greater(d, s), vars) == (x > y)
            &&& cond_holds(LoopCond::Less(d, s), vars) == (x < y)
        }),
{
    let m = 0x1_0000_0000_0000_0000int;
    assert(m % m == 0 && (-m) % m == 0 && 0int % m == 0) by (nonlinear_arith)
        requires
            m == 0x1_0000_0000_0000_0000int,
    ;
    lemma_print_char_byte(value(vars, d));
    assert forall|u: Var, w: i64| u != d implies #[trigger] value(assign(vars, d, w), u) == value(
        vars,
        u,
    ) by {}
}

/// A character prints as the value modulo 256.
pub proof fn lemma_print_char_byte(x: i64)
    ensures
        ((x & 0xff) as u8) as int == (x as int) % 256,
{
    assert(((x & 0xff) as u8) as int == (x as int) % 256) by (bit_vector);
}

/// `run_to` lets every loop run up to `u64::MAX` iterations: whenever the
/// program ends within some bound `f` no larger than `u64::MAX`, the run of
/// `run_to` ends with the same values and output.
pub proof fn lemma_run_program_bound(vars: Vars, stmts: Seq<Stmt>, f: nat)
    requires
        f <= u64::MAX,
        run_block(vars, stmts, f) is Some,
    ensures
        run_program(vars, stmts) == run_block(vars, stmts, f),
{
    lemma_run_block_fuel(vars, stmts, f, u64::MAX as nat);
}

/// Why a run stopped before the end of the program.
#[derive(Debug, Clone, Copy, PartialEq, Eq, Structural)]
pub enum RunError {
    /// A loop reached the bound on its iterations.
    LoopLimit,
}

/// The machine that runs programs: the three variables.
pub struct Interpreter {
    vars: [i64; 3],
}

impl View for Interpreter {
    type V = Vars;

    closed spec fn view(&self) -> Vars {
        self.vars@
    }
}

impl Interpreter {
    /// An interpreter holds the values of three variables.
    pub proof fn lemma_view_len(&self)
        ensures
            self@.len() == 3,
    {
    }

    /// An interpreter whose variables are all zero.
    pub fn new() -> (r: Self)
        ensures
            r@ == seq![0i64, 0i64, 0i64],
    {
        let r = Interpreter { vars: [0, 0, 0] };
        proof {
            assert(r.vars@ =~= seq![0i64, 0i64, 0i64]);
        }
        r
    }

    fn get(&self, v: Var) -> (r: i64)
        ensures
            r == value(self@, v),
    {
        match v {
            Var::A => self.vars[0],
            Var::B => self.vars[1],
            Var::C => self.vars[2],
        }
    }

    fn set(&mut self, v: Var, val: i64)
        ensures
            final(self)@ == assign(old(self)@, v, val),
    {
        let i: usize = match v {
            Var::A => 0,
            Var::B => 1,
            Var::C => 2,
        };
        self.vars[i] = val;
        proof {
            assert(self.vars@ =~= old(self).vars@.update(i as int, val));
        }
    }

    fn holds(&self, c: &LoopCond) -> (r: bool)
        ensures
            r == cond_holds(*c, self@),
    {
        match c {
            LoopCond::NotEqual(a, b) => self.get(*a) != self.get(*b),
            LoopCond::Greater(a, b) => self.get(*a) > self.get(*b),
            LoopCond::Less(a, b) => self.get(*a) < self.get(*b),
        }
    }

    fn exec(&mut self, stmts: &[Stmt], out: &mut Vec<u8>, fuel: u64) -> (done: bool)
        ensures
            match run_block(old(self)@, stmts@, fuel as nat) {
                Some((v, o)) => done && final(self)@ == v && final(out)@ == old(out)@ + o,
                None => !done,
            },
        decreases stmts@,
    {
        let ghost v0 = self@;
        let ghost o0 = out@;
        let mut i: usize = 0;
        proof {
            assert(stmts@.skip(0) =~= stmts@);
            assert(out@.skip(o0.len() as int) =~= Seq::<u8>::empty());
            if let Some((v, o)) = run_block(v0, stmts@, fuel as nat) {
                assert(Seq::<u8>::empty() + o =~= o);
            }
            assert(out@.take(o0.len() as int) =~= o0);
        }
        while i < stmts.len()
            invariant
                0 <= i <= stmts@.len(),
                v0 == old(self)@,
                o0 == old(out)@,
                run_block(v0, stmts@, fuel as nat) == match run_block(
                    self@,
                    stmts@.skip(i as int),
                    fuel as nat,
                ) {
                    None => None,
                    Some((v, o)) => Some((v, out@.skip(o0.len() as int) + o)),
                },
                out@.len() >= o0.len(),
                out@.take(o0.len() as int) == o0,
            decreases stmts@.len() - i,
        {
            let ghost vi = self@;
            let ghost oi = out@;
            proof {
                assert(stmts@.skip(i as int).drop_first() =~= stmts@.skip(i + 1));
                assert(stmts@.skip(i as int)[0] == stmts@[i as int]);
            }
            let ok = self.exec_stmt(&stmts[i], out, fuel);
            if !ok {
                proof {
                    assert(run_stmt(vi, stmts@.skip(i as int)[0], fuel as nat) is None);
                    assert(run_block(vi, stmts@.skip(i as int), fuel as nat) is None);
                    assert(run_block(v0, stmts@, fuel as nat) is None);
                }
                return false;
            }
            proof {
                assert(out@.skip(o0.len() as int) =~= oi.skip(o0.len() as int) + out@.skip(
                    oi.len() as int,
                ));
                assert(out@.take(o0.len() as int) =~= oi.take(o0.len() as int));
                let rest = run_block(self@, stmts@.skip(i + 1), fuel as nat);
                if let Some((v, o)) = rest {
                    assert(oi.skip(o0.len() as int) + (out@.skip(oi.len() as int) + o)
                        =~= out@.skip(o0.len() as int) + o);
                }
            }
            i = i + 1;
        }
        proof {
            assert(stmts@.skip(i as int) =~= Seq::<Stmt>::empty());
            assert(out@ =~= o0 + out@.skip(o0.len() as int));
            assert(out@.skip(o0.len() as int) + Seq::<u8>::empty() =~= out@.skip(
                o0.len() as int,
            ));
        }
        true
    }

    fn exec_stmt(&mut self, stmt: &Stmt, out: &mut Vec<u8>, fuel: u64) -> (done: bool)
        ensures
            match run_stmt(old(self)@, *stmt, fuel as nat) {
                Some((v, o)) => done && final(self)@ == v && final(out)@ == old(out)@ + o,
                None => !done,
            },
        decreases stmt,
    {
        match stmt {
            Stmt::IncBy1(v) => {
                let val = self.get(*v).wrapping_add(1);
                self.set(*v, val);
            },
            Stmt::DecBy1(v) => {
                let val = self.get(*v).wrapping_sub(1);
                self.set(*v, val);
            },
            Stmt::IncByVar(dst, src) => {
                let val = self.get(*dst).wrapping_add(self.get(*src));
                self.set(*dst, val);
            },
            Stmt::DecByVar(dst, src) => {
                let val = self.get(*dst).wrapping_sub(self.get(*src));
                self.set(*dst, val);
            },
            Stmt::Assign { dst, src } => {
                let val = self.get(*src);
                self.set(*dst, val);
            },
            Stmt::PrintInt(v) => {
                push_int_bytes(out, self.get(*v));
            },
            Stmt::PrintChar(v) => {
                let byte = #[verifier::truncate] ((self.get(*v) & 0xFF) as u8);
                out.push(byte);
            },
            Stmt::Loop { cond, body, .. } => {
                let ghost v0 = self@;
                let ghost o0 = out@;
                let mut f = fuel;
                proof {
                    assert(out@.skip(o0.len() as int) =~= Seq::<u8>::empty());
                    if let Some((v, o)) = run_loop(v0, *cond, body@, fuel as nat) {
                        assert(Seq::<u8>::empty() + o =~= o);
                    }
                    assert(out@.take(o0.len() as int) =~= o0);
                }
                loop
                    invariant
                        f <= fuel,
                        v0 == old(self)@,
                        o0 == old(out)@,
                        *stmt is Loop,
                        (*stmt)->body == *body,
                        (*stmt)->cond == *cond,
                        run_loop(v0, *cond, body@, fuel as nat) == match run_loop(
                            self@,
                            *cond,
                            body@,
                            f as nat,
                        ) {
                            None => None,
                            Some((v, o)) => Some((v, out@.skip(o0.len() as int) + o)),
                        },
                        out@.len() >= o0.len(),
                        out@.take(o0.len() as int) == o0,
                    decreases f,
                {
                    if !self.holds(cond) {
                        proof {
                            assert(run_loop(self@, *cond, body@, f as nat) == Some(
                                (self@, Seq::<u8>::empty()),
                            ));
                            assert(out@ =~= o0 + out@.skip(o0.len() as int));
                            assert(out@.skip(o0.len() as int) + Seq::<u8>::empty() =~= out@.skip(
                                o0.len() as int,
                            ));
                            assert(run_loop(v0, *cond, body@, fuel as nat) == Some(
                                (self@, out@.skip(o0.len() as int)),
                            ));
                            assert(run_stmt(v0, *stmt, fuel as nat) == run_loop(
                                v0,
                                *cond,
                                body@,
                                fuel as nat,
                            ));
                        }
                        return true;
                    }
                    if f == 0 {
                        return false;
                    }
                    let ghost vi = self@;
                    let ghost oi = out@;
                    proof {
                        assert(decreases_to!(*stmt => body@));
                    }
                    let b = body.as_slice();
                    let ok = self.exec(b, out, f - 1);
                    if !ok {
                        return false;
                    }
                    proof {
                        assert(out@.take(o0.len() as int) =~= oi.take(o0.len() as int));
                        let rest = run_loop(self@, *cond, body@, (f - 1) as nat);
                        if let Some((v, o)) = rest {
                            assert(oi.skip(o0.len() as int) + (out@.skip(oi.len() as int) + o)
                                =~= out@.skip(o0.len() as int) + o);
                        }
                    }
                    f = f - 1;
                }
            },
        }
        proof {
            assert(out@ =~= old(out)@ + simple_step(old(self)@, *stmt).1);
        }
        true
    }

    /// Runs `stmts`, appending what they print to `out`, where no loop may
    /// run more than `fuel` iterations (and a loop nested in an iteration
    /// `fuel - 1`). Returns whether the program ran to its end; when it did
    /// not, the variables and `out` hold what the run had reached.
    pub fn run_bounded(&mut self, stmts: &[Stmt], out: &mut Vec<u8>, fuel: u64) -> (done: bool)
        ensures
            match run_block(old(self)@, stmts@, fuel as nat) {
                Some((v, o)) => done && final(self)@ == v && final(out)@ == old(out)@ + o,
                None => !done,
            },
    {
        self.exec(stmts, out, fuel)
    }

    /// One step of the loop `while cond { body }`: tests the condition and,
    /// when it holds, runs the body once, appending what it prints to `out`
    /// (a loop inside the body may run `u64::MAX` iterations at most).
    /// Returns `Ok(false)` when the condition does not hold, and then
    /// changes nothing; `Ok(true)` after an iteration; `Err(LoopLimit)` when
    /// a loop inside the body reached its bound. Repeating the step until it
    /// returns `Ok(false)` runs the loop with no bound on its own iterations.
    pub fn run_iteration(&mut self, cond: &LoopCond, body: &[Stmt], out: &mut Vec<u8>) -> (r: Result<bool, RunError>)
        ensures
            !cond_holds(*cond, old(self)@) ==> r == Ok::<bool, RunError>(false) && final(self)@
                == old(self)@ && final(out)@ == old(out)@,
            cond_holds(*cond, old(self)@) ==> match run_block(old(self)@, body@, u64::MAX as nat) {
                Some((v, o)) => r == Ok::<bool, RunError>(true) && final(self)@ == v && final(out)@
                    == old(out)@ + o,
                None => r == Err::<bool, RunError>(RunError::LoopLimit),
            },
    {
        if !self.holds(cond) {
            return Ok(false);
        }
        if self.exec(body, out, u64::MAX) {
            Ok(true)
        } else {
            Err(RunError::LoopLimit)
        }
    }

    /// Runs `stmts`, appending what they print to `out`. A loop may run
    /// `u64::MAX` iterations at most; beyond that the run stops with
    /// `RunError::LoopLimit`. So whenever the program ends within some
    /// bound on loop iterations no larger than `u64::MAX`, the run succeeds
    /// with the values and the output of that run.
    pub fn run_to(&mut self, stmts: &[Stmt], out: &mut Vec<u8>) -> (r: Result<(), RunError>)
        ensures
            match run_program(old(self)@, stmts@) {
                Some((v, o)) => r is Ok && final(self)@ == v && final(out)@ == old(out)@ + o,
                None => r == Err::<(), RunError>(RunError::LoopLimit),
            },
            forall|f: nat|
                f <= u64::MAX ==> (#[trigger] run_block(old(self)@, stmts@, f) matches Some((v, o))
                    ==> r is Ok && final(self)@ == v && final(out)@ == old(out)@ + o),
    {
        let ghost start = self@;
        let r = if self.exec(stmts, out, u64::MAX) {
            Ok(())
        } else {
            Err(RunError::LoopLimit)
        };
        proof {
            assert forall|f: nat| f <= u64::MAX && #[trigger] run_block(start, stmts@, f) is Some implies run_block(
                start,
                stmts@,
                f,
            ) == run_block(start, stmts@, u64::MAX as nat) by {
                lemma_run_block_fuel(start, stmts@, f, u64::MAX as nat);
            }
        }
        r
    }
}

impl Default for Interpreter {
    fn default() -> (r: Self)
        ensures
            r@ == seq![0i64, 0i64, 0i64],
    {
        Self::new()
    }
}

} // verus!
