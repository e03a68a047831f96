//! Pairs each loop header with its end and gathers the statements between
//! them into the loop's body.
use vstd::prelude::*;

use crate::ast::{all_simple, is_simple, one_loop_level, LoopCond, Stmt};
use crate::error::{line_error, report, BruhError, Report};
use crate::parser::{raw_simple, RawStmt};
use crate::text::{append_decimal, dec_chars};

verus! {

/// A statement of the checked program as plain values: a statement that is
/// no loop, or a loop with its condition, body and line.
pub enum Item {
    Plain(Stmt),
    Loop(LoopCond, Seq<Stmt>, usize),
}

/// The statement `s` is the one that `item` describes.
pub open spec fn item_is(s: Stmt, item: Item) -> bool {
    match item {
        Item::Plain(p) => s == p,
        Item::Loop(c, b, l) => match s {
            Stmt::Loop { cond, body, line } => cond == c && body@ == b && line == l,
            _ => false,
        },
    }
}

/// The statements `stmts` are those that `items` describe, one for one.
pub open spec fn stmts_are(stmts: Seq<Stmt>, items: Seq<Item>) -> bool {
    &&& stmts.len() == items.len()
    &&& forall|i: int| 0 <= i < stmts.len() ==> item_is(#[trigger] stmts[i], items[i])
}

/// The state of the check after a prefix of the lines: the statements
/// finished so far, the diagnostics so far, and the loop that is open, if
/// any, with its condition, line and the body gathered so far.
pub struct SemaState {
    pub items: Seq<Item>,
    pub errors: Seq<Report>,
    pub open: Option<(LoopCond, usize, Seq<Stmt>)>,
}

/// The state before the first line.
pub open spec fn initial_state() -> SemaState {
    SemaState { items: seq![], errors: seq![], open: None }
}

/// The effect of one line on the state.
pub open spec fn sema_step(st: SemaState, r: RawStmt) -> SemaState {
    match r {
        RawStmt::Sound(cond, line) => match st.open {
            Some(_) => SemaState {
                errors: st.errors.push(report(line, "NestedLoop"@, "nested loop at"@)),
                ..st
            },
            None => SemaState { open: Some((cond, line, seq![])), ..st },
        },
        RawStmt::Effect(line) => match st.open {
            None => SemaState {
                errors: st.errors.push(
                    report(line, "UnmatchedEffect"@, "'effect' without matching 'sound' at"@),
                ),
                ..st
            },
            Some((cond, loop_line, body)) => SemaState {
                items: st.items.push(Item::Loop(cond, body, loop_line)),
                open: None,
                ..st
            },
        },
        RawStmt::Stmt(s, _) => match st.open {
            Some((cond, loop_line, body)) => SemaState {
                open: Some((cond, loop_line, body.push(s))),
                ..st
            },
            None => SemaState { items: st.items.push(Item::Plain(s)), ..st },
        },
    }
}

/// The state after the lines `raw`.
pub open spec fn sema_run(raw: Seq<RawStmt>) -> SemaState
    decreases raw.len(),
{
    if raw.len() == 0 {
        initial_state()
    } else {
        sema_step(sema_run(raw.drop_last()), raw.last())
    }
}

/// The message for a loop that is never closed.
pub open spec fn unterminated_msg(line: usize) -> Seq<char> {
    "loop opened at line "@ + dec_chars(line as nat) + " is never closed"@
}

/// The statements and diagnostics of the check: a loop still open after the
/// last line gives `UnterminatedLoop` on the line where it opened.
pub open spec fn analyze_spec(raw: Seq<RawStmt>) -> (Seq<Item>, Seq<Report>) {
    let st = sema_run(raw);
    match st.open {
        Some((_, line, _)) => (
            st.items,
            st.errors.push((line, "UnterminatedLoop"@, unterminated_msg(line))),
        ),
        None => (st.items, st.errors),
    }
}

/// Every loop described holds no loop in its body.
pub open spec fn items_one_level(items: Seq<Item>) -> bool {
    forall|i: int|
        0 <= i < items.len() ==> match #[trigger] items[i] {
            Item::Loop(_, b, _) => all_simple(b),
            Item::Plain(s) => is_simple(s),
        }
}

/// The diagnostics as plain values.
pub open spec fn reports(errs: Seq<BruhError>) -> Seq<Report> {
    errs.map_values(|e: BruhError| e@)
}

/// Loops nest one level deep at most: when no line holds a loop as its
/// statement, no loop that the check builds holds a loop in its body.
pub proof fn lemma_sema_one_level(raw: Seq<RawStmt>)
    requires
        raw_simple(raw),
    ensures
        items_one_level(sema_run(raw).items),
        sema_run(raw).open matches Some((_, _, b)) ==> all_simple(b),
    decreases raw.len(),
{
    if raw.len() > 0 {
        assert(raw_simple(raw.drop_last())) by {
            assert forall|i: int| 0 <= i < raw.drop_last().len() implies match #[trigger] raw.drop_last()[i] {
                RawStmt::Stmt(s, _) => is_simple(s),
                _ => true,
            } by {
                assert(raw.drop_last()[i] == raw[i]);
            }
        }
        lemma_sema_one_level(raw.drop_last());
        assert(match raw[raw.len() - 1] {
            RawStmt::Stmt(s, _) => is_simple(s),
            _ => true,
        });
        let st = sema_run(raw.drop_last());
        let st2 = sema_run(raw);
        assert forall|i: int| 0 <= i < st2.items.len() implies match #[trigger] st2.items[i] {
            Item::Loop(_, b, _) => all_simple(b),
            Item::Plain(s) => is_simple(s),
        } by {
            if i < st.items.len() {
                assert(st2.items[i] == st.items[i]);
            }
        }
        if let Some((_, _, b)) = st2.open {
            assert forall|j: int| 0 <= j < b.len() implies is_simple(#[trigger] b[j]) by {
                if let Some((_, _, b0)) = st.open {
                    if j < b0.len() {
                        assert(b[j] == b0[j]);
                    }
                }
            }
        }
    }
}

/// The statements of the statement lines among `rs`, in order.
pub open spec fn stmts_of(rs: Seq<RawStmt>) -> Seq<Stmt>
    decreases rs.len(),
{
    if rs.len() == 0 {
        seq![]
    } else {
        match rs.last() {
            RawStmt::Stmt(s, _) => stmts_of(rs.drop_last()).push(s),
            _ => stmts_of(rs.drop_last()),
        }
    }
}

/// The loop with condition `c`, body `b` and line `l` comes from the header
/// line `raw[i]`, which says `sound` with `c` on line `l`, and the end line
/// `raw[j]`; its body is made of the statements of the lines between them.
pub open spec fn loop_from(raw: Seq<RawStmt>, c: LoopCond, b: Seq<Stmt>, l: usize, i: int, j: int) -> bool {
    &&& 0 <= i < j < raw.len()
    &&& raw[i] == RawStmt::Sound(c, l)
    &&& raw[j] is Effect
    &&& b == stmts_of(raw.subrange(i + 1, j))
}

/// The open loop `o` (condition, line and body so far) comes from the
/// header line `raw[i]`, and its body is made of the statements of the
/// lines after it.
spec fn open_from(raw: Seq<RawStmt>, o: (LoopCond, usize, Seq<Stmt>), i: int) -> bool {
    &&& 0 <= i < raw.len()
    &&& raw[i] == RawStmt::Sound(o.0, o.1)
    &&& o.2 == stmts_of(raw.subrange(i + 1, raw.len() as int))
}

/// The line `raw[i]` holds the statement `s`.
pub open spec fn plain_from(raw: Seq<RawStmt>, s: Stmt, i: int) -> bool {
    &&& 0 <= i < raw.len()
    &&& match raw[i] {
        RawStmt::Stmt(x, _) => x == s,
        _ => false,
    }
}

/// The statement that `it` describes comes from the lines `raw[i]` and
/// `raw[j]`: a loop from its header and end lines, another statement from
/// its own line `raw[i]`.
pub open spec fn made_from(raw: Seq<RawStmt>, it: Item, i: int, j: int) -> bool {
    match it {
        Item::Loop(c, b, l) => loop_from(raw, c, b, l, i, j),
        Item::Plain(s) => plain_from(raw, s, i),
    }
}

/// The statement that `it` describes comes from some of the lines `raw`.
pub open spec fn item_from(raw: Seq<RawStmt>, it: Item) -> bool {
    exists|i: int, j: int| made_from(raw, it, i, j)
}

/// What the statements that the check builds are made of.
pub open spec fn items_from(raw: Seq<RawStmt>, items: Seq<Item>) -> bool {
    forall|k: int| 0 <= k < items.len() ==> item_from(raw, #[trigger] items[k])
}

proof fn lemma_stmts_of_push(rs: Seq<RawStmt>, r: RawStmt)
    ensures
        stmts_of(rs.push(r)) == match r {
            RawStmt::Stmt(s, _) => stmts_of(rs).push(s),
            _ => stmts_of(rs),
        },
{
    assert(rs.push(r).drop_last() =~= rs);
}

proof fn lemma_made_from_push(raw: Seq<RawStmt>, r: RawStmt, it: Item, i: int, j: int)
    requires
        made_from(raw, it, i, j),
    ensures
        made_from(raw.push(r), it, i, j),
{
    let raw2 = raw.push(r);
    assert(raw2[i] == raw[i]);
    if let Item::Loop(c, b, l) = it {
        assert(raw2[j] == raw[j]);
        assert(raw2.subrange(i + 1, j) =~= raw.subrange(i + 1, j));
    }
}

/// The lines that each statement built so far comes from, and the header
/// line of the open loop.
proof fn lemma_sema_from(raw: Seq<RawStmt>) -> (w: (Seq<(int, int)>, int))
    ensures
        w.0.len() == sema_run(raw).items.len(),
        forall|k: int|
            0 <= k < w.0.len() ==> made_from(raw, #[trigger] sema_run(raw).items[k], w.0[k].0, w.0[k].1),
        sema_run(raw).open is Some ==> open_from(raw, sema_run(raw).open->0, w.1),
    decreases raw.len(),
{
    if raw.len() == 0 {
        (seq![], 0)
    } else {
        let prev = raw.drop_last();
        let r = raw.last();
        let n = prev.len() as int;
        let w0 = lemma_sema_from(prev);
        assert(raw =~= prev.push(r));
        assert(raw[n] == r);
        let st = sema_run(prev);
        let st2 = sema_run(raw);
        assert(st2 == sema_step(st, r));
        // what was built before keeps its lines
        assert forall|k: int| 0 <= k < w0.0.len() implies made_from(raw, #[trigger] st.items[k], w0.0[k].0, w0.0[k].1) by {
            lemma_made_from_push(prev, r, st.items[k], w0.0[k].0, w0.0[k].1);
        }
        match st.open {
            Some((c, l, b)) => {
                let i = w0.1;
                assert(raw[i] == prev[i]);
                assert(raw.subrange(i + 1, n + 1) =~= prev.subrange(i + 1, n).push(r));
                assert(raw.subrange(i + 1, n) =~= prev.subrange(i + 1, n));
                lemma_stmts_of_push(prev.subrange(i + 1, n), r);
                match r {
                    RawStmt::Effect(_) => {
                        let w = w0.0.push((i, n));
                        assert(made_from(raw, Item::Loop(c, b, l), i, n));
                        assert forall|k: int| 0 <= k < w.len() implies made_from(raw, #[trigger] st2.items[k], w[k].0, w[k].1) by {
                            if k < w0.0.len() {
                                assert(st2.items[k] == st.items[k]);
                            }
                        }
                        (w, i)
                    },
                    RawStmt::Sound(_, _) => {
                        assert(open_from(raw, (c, l, b), i));
                        (w0.0, i)
                    },
                    RawStmt::Stmt(s, _) => {
                        assert(open_from(raw, (c, l, b.push(s)), i));
                        (w0.0, i)
                    },
                }
            },
            None => {
                match r {
                    RawStmt::Sound(c, l) => {
                        assert(raw.subrange(n + 1, n + 1) =~= Seq::<RawStmt>::empty());
                        assert(open_from(raw, (c, l, seq![]), n));
                        (w0.0, n)
                    },
                    RawStmt::Stmt(s, _) => {
                        let w = w0.0.push((n, n));
                        assert(made_from(raw, Item::Plain(s), n, n));
                        assert forall|k: int| 0 <= k < w.len() implies made_from(raw, #[trigger] st2.items[k], w[k].0, w[k].1) by {
                            if k < w0.0.len() {
                                assert(st2.items[k] == st.items[k]);
                            }
                        }
                        (w, n)
                    },
                    RawStmt::Effect(_) => (w0.0, n),
                }
            },
        }
    }
}

/// Every loop that the check builds comes from a `sound` line, whose
/// condition and line it keeps, and a later `effect` line, and its body is
/// made of the statements of the lines between the two, in order; every
/// other statement is that of one of the lines.
pub proof fn lemma_loops_from_lines(raw: Seq<RawStmt>)
    ensures
        items_from(raw, analyze_spec(raw).0),
{
    let w = lemma_sema_from(raw);
    let items = analyze_spec(raw).0;
    assert forall|k: int| 0 <= k < items.len() implies item_from(raw, #[trigger] items[k]) by {
        assert(made_from(raw, items[k], w.0[k].0, w.0[k].1));
    }
}

/// The line opens or closes a loop.
pub open spec fn marker_pred() -> spec_fn(RawStmt) -> bool {
    |r: RawStmt| !(r is Stmt)
}

/// The lines that open or close loops, in order.
pub open spec fn markers(raw: Seq<RawStmt>) -> Seq<RawStmt> {
    raw.filter(marker_pred())
}

/// Loop headers and loop ends alternate, starting with a header.
pub open spec fn alternating(m: Seq<RawStmt>) -> bool {
    forall|i: int| 0 <= i < m.len() ==> ((#[trigger] m[i] is Sound) <==> i % 2 == 0)
}

proof fn lemma_sema_markers(raw: Seq<RawStmt>)
    ensures
        (sema_run(raw).errors.len() == 0) <==> alternating(markers(raw)),
        sema_run(raw).errors.len() == 0 ==> ((sema_run(raw).open is Some) <==> markers(raw).len()
            % 2 == 1),
    decreases raw.len(),
{
    reveal(Seq::filter);
    if raw.len() == 0 {
        assert(markers(raw) =~= Seq::<RawStmt>::empty());
    } else {
        let prev = raw.drop_last();
        let r = raw.last();
        lemma_sema_markers(prev);
        let m0 = markers(prev);
        let st = sema_run(prev);
        prev.lemma_filter_push(r, marker_pred());
        assert(raw =~= prev.push(r));
        if marker_pred()(r) {
            let m = m0.push(r);
            assert(markers(raw) == m);
            if alternating(m) {
                assert forall|i: int| 0 <= i < m0.len() implies ((#[trigger] m0[i] is Sound) <==> i
                    % 2 == 0) by {
                    assert(m[i] == m0[i]);
                }
            }
            if !alternating(m0) {
                let i = choose|i: int|
                    0 <= i < m0.len() && !((#[trigger] m0[i] is Sound) <==> i % 2 == 0);
                assert(m[i] == m0[i]);
            }
            if st.errors.len() == 0 && alternating(m0) {
                assert(m[m0.len() as int] == r);
                assert(alternating(m) <==> ((r is Sound) <==> m0.len() % 2 == 0)) by {
                    if (r is Sound) <==> m0.len() % 2 == 0 {
                        assert forall|i: int| 0 <= i < m.len() implies ((#[trigger] m[i] is Sound)
                            <==> i % 2 == 0) by {
                            if i < m0.len() {
                                assert(m[i] == m0[i]);
                            }
                        }
                    }
                }
            }
        } else {
            assert(markers(raw) == m0);
        }
    }
}

/// The check of loops reports nothing exactly when the loop headers and
/// loop ends alternate, starting with a header and ending with an end.
pub proof fn lemma_sema_no_errors(raw: Seq<RawStmt>)
    ensures
        analyze_spec(raw).1.len() == 0 <==> (alternating(markers(raw)) && markers(raw).len() % 2
            == 0),
{
    lemma_sema_markers(raw);
}

/// Pairs loop headers with loop ends. Returns the program's statements and
/// the diagnostics: `NestedLoop` for a header inside an open loop,
/// `UnmatchedEffect` for an end with no open loop, `UnterminatedLoop` for a
/// loop still open at the end.
pub fn analyze(raw: Vec<RawStmt>) -> (r: (Vec<Stmt>, Vec<BruhError>))
    ensures
        stmts_are(r.0@, analyze_spec(raw@).0),
        reports(r.1@) == analyze_spec(raw@).1,
        raw_simple(raw@) ==> one_loop_level(r.0@),
{
    let ghost all = raw@;
    let mut stmts: Vec<Stmt> = Vec::new();
    let mut errors: Vec<BruhError> = Vec::new();
    let mut in_loop = false;
    let mut loop_line: usize = 0;
    let mut loop_cond: Option<LoopCond> = None;
    let mut loop_body: Vec<Stmt> = Vec::new();

    for item in it: raw
        invariant
            it.seq() == all,
            0 <= it.index() <= all.len(),
            ({
                let st = sema_run(all.take(it.index() as int));
                &&& stmts_are(stmts@, st.items)
                &&& reports(errors@) == st.errors
                &&& in_loop == (st.open is Some)
                &&& in_loop ==> loop_cond is Some && st.open == Some(
                    (loop_cond->0, loop_line, loop_body@),
                )
            }),
    {
        let ghost k = it.index();
        let ghost st = sema_run(all.take(k as int));
        proof {
            assert(all.take(k + 1).drop_last() =~= all.take(k as int));
            assert(all.take(k + 1).last() == item);
        }
        let ghost st2 = sema_step(st, item);
        match item {
            RawStmt::Sound(cond, line) => {
                if in_loop {
                    let e = line_error("NestedLoop", "nested loop at", line);
                    errors.push(e);
                    proof {
                        assert(reports(errors@) =~= st.errors.push(e@));
                    }
                } else {
                    in_loop = true;
                    loop_line = line;
                    loop_cond = Some(cond);
                    loop_body = Vec::new();
                    proof {
                        assert(loop_body@ =~= Seq::<Stmt>::empty());
                    }
                }
            },
            RawStmt::Effect(line) => {
                if !in_loop {
                    let e = line_error("UnmatchedEffect", "'effect' without matching 'sound' at", line);
                    errors.push(e);
                    proof {
                        assert(reports(errors@) =~= st.errors.push(e@));
                    }
                } else {
                    in_loop = false;
                    let cond = loop_cond.take().unwrap();
                    let mut body: Vec<Stmt> = Vec::new();
                    std::mem::swap(&mut body, &mut loop_body);
                    let ghost before = stmts@;
                    stmts.push(Stmt::Loop { cond, body, line: loop_line });
                    proof {
                        assert forall|i: int| 0 <= i < stmts@.len() implies item_is(
                            #[trigger] stmts@[i],
                            st2.items[i],
                        ) by {
                            if i < before.len() {
                                assert(stmts@[i] == before[i]);
                            }
                        }
                    }
                }
            },
            RawStmt::Stmt(s, _) => {
                if in_loop {
                    loop_body.push(s);
                } else {
                    let ghost before = stmts@;
                    stmts.push(s);
                    proof {
                        assert forall|i: int| 0 <= i < stmts@.len() implies item_is(
                            #[trigger] stmts@[i],
                            st2.items[i],
                        ) by {
                            if i < before.len() {
                                assert(stmts@[i] == before[i]);
                            }
                        }
                    }
                }
            },
        }
    }
    proof {
        assert(all.take(all.len() as int) =~= all);
    }
    if in_loop {
        let mut msg = String::from_str("loop opened at line ");
        append_decimal(&mut msg, loop_line);
        msg.append(" is never closed");
        let e = BruhError { line: loop_line, code: "UnterminatedLoop", msg };
        let ghost before = errors@;
        errors.push(e);
        proof {
            assert(reports(errors@) =~= reports(before).push(e@));
        }
    }
    proof {
        if raw_simple(all) {
            lemma_sema_one_level(all);
            let items = analyze_spec(all).0;
            assert forall|i: int| 0 <= i < stmts@.len() implies match #[trigger] stmts@[i] {
                Stmt::Loop { body, .. } => all_simple(body@),
                _ => true,
            } by {
                assert(item_is(stmts@[i], items[i]));
                match items[i] {
                    Item::Loop(_, b, _) => {},
                    Item::Plain(s) => {},
                }
            }
        }
    }
    (stmts, errors)
}

} // verus!
