//! Turns the tokens of each line into one statement, a loop header or a
//! loop end.
use vstd::prelude::*;

use crate::ast::{is_simple, LoopCond, Stmt, Var};
use crate::error::{line_error, report, BruhError, Report};
use crate::token::{Spanned, Token};

verus! {

/// What one line of the program says.
pub enum RawStmt {
    /// A statement, with its line.
    Stmt(Stmt, usize),
    /// `sound`: a loop opens, with its condition and line.
    Sound(LoopCond, usize),
    /// `effect`: the open loop closes, with the line.
    Effect(usize),
}

/// The variable that a token names, if it names one.
pub open spec fn var_of(tok: Token) -> Option<Var> {
    match tok {
        Token::VarA => Some(Var::A),
        Token::VarB => Some(Var::B),
        Token::VarC => Some(Var::C),
        _ => None,
    }
}

/// `MalformedStatement` on `line`, message `what line N`.
pub open spec fn malformed(line: usize, what: Seq<char>) -> Result<RawStmt, Report> {
    Err(report(line, "MalformedStatement"@, what))
}

/// `TrailingTokens` on `line`, message `what line N`.
pub open spec fn trailing(line: usize, what: Seq<char>) -> Result<RawStmt, Report> {
    Err(report(line, "TrailingTokens"@, what))
}

/// A loop header: `sound <var> <var>`, `sound <var> momentum <var>` or
/// `sound <var> moment <var>`.
pub open spec fn sound_header(toks: Seq<Spanned>, line: usize) -> Result<RawStmt, Report> {
    if toks.len() < 3 {
        malformed(line, "expected: sound <var> [momentum|moment] <var> at"@)
    } else if var_of(toks[1].tok) is None {
        malformed(line, "expected variable after 'sound' at"@)
    } else if toks.len() == 3 {
        match var_of(toks[2].tok) {
            Some(rhs) => Ok(RawStmt::Sound(LoopCond::NotEqual(var_of(toks[1].tok)->0, rhs), line)),
            None => malformed(line, "expected variable at"@),
        }
    } else if toks.len() == 4 {
        let lhs = var_of(toks[1].tok)->0;
        match var_of(toks[3].tok) {
            None => malformed(line, "expected variable at"@),
            Some(rhs) => match toks[2].tok {
                Token::Momentum => Ok(RawStmt::Sound(LoopCond::Greater(lhs, rhs), line)),
                Token::Moment => Ok(RawStmt::Sound(LoopCond::Less(lhs, rhs), line)),
                _ => malformed(line, "expected 'momentum' or 'moment' at"@),
            },
        }
    } else {
        trailing(line, "trailing tokens after loop header at"@)
    }
}

/// An output statement: `momentum <var>` prints a character when
/// `is_char`, `moment <var>` prints a number otherwise.
pub open spec fn print_stmt(toks: Seq<Spanned>, line: usize, is_char: bool) -> Result<
    RawStmt,
    Report,
> {
    if toks.len() < 2 {
        if is_char {
            malformed(line, "expected variable after 'momentum' at"@)
        } else {
            malformed(line, "expected variable after 'moment' at"@)
        }
    } else if toks.len() > 2 {
        trailing(line, "trailing tokens at"@)
    } else {
        match var_of(toks[1].tok) {
            Some(v) => Ok(
                RawStmt::Stmt(
                    if is_char {
                        Stmt::PrintChar(v)
                    } else {
                        Stmt::PrintInt(v)
                    },
                    line,
                ),
            ),
            None => malformed(line, "expected variable at"@),
        }
    }
}

/// A statement that starts with the variable `dst`: assignment, increment
/// or decrement.
pub open spec fn update_stmt(toks: Seq<Spanned>, line: usize, dst: Var) -> Result<
    RawStmt,
    Report,
> {
    if toks.len() < 2 {
        malformed(line, "incomplete statement at"@)
    } else {
        match toks[1].tok {
            Token::VarA | Token::VarB | Token::VarC => if toks.len() > 2 {
                trailing(line, "trailing tokens at"@)
            } else {
                Ok(RawStmt::Stmt(Stmt::Assign { dst, src: var_of(toks[1].tok)->0 }, line))
            },
            Token::Momentum => if toks.len() == 2 {
                Ok(RawStmt::Stmt(Stmt::IncBy1(dst), line))
            } else if toks.len() == 3 {
                match var_of(toks[2].tok) {
                    Some(src) => Ok(RawStmt::Stmt(Stmt::IncByVar(dst, src), line)),
                    None => malformed(line, "expected variable at"@),
                }
            } else {
                trailing(line, "trailing tokens at"@)
            },
            Token::Moment => if toks.len() == 2 {
                Ok(RawStmt::Stmt(Stmt::DecBy1(dst), line))
            } else if toks.len() == 3 {
                match var_of(toks[2].tok) {
                    Some(src) => Ok(RawStmt::Stmt(Stmt::DecByVar(dst, src), line)),
                    None => malformed(line, "expected variable at"@),
                }
            } else {
                trailing(line, "trailing tokens at"@)
            },
            _ => malformed(line, "unexpected token at"@),
        }
    }
}

/// What a non-empty line of tokens says, or the diagnostic for it. The line
/// number is that of the first token.
pub open spec fn parse_line_spec(toks: Seq<Spanned>) -> Result<RawStmt, Report>
    recommends
        toks.len() > 0,
{
    let line = toks[0].pos.line;
    match toks[0].tok {
        Token::Sound => sound_header(toks, line),
        Token::Effect => if toks.len() > 1 {
            trailing(line, "trailing tokens after 'effect' at"@)
        } else {
            Ok(RawStmt::Effect(line))
        },
        Token::Momentum => print_stmt(toks, line, true),
        Token::Moment => print_stmt(toks, line, false),
        _ => update_stmt(toks, line, var_of(toks[0].tok)->0),
    }
}

/// The tokens of each line as plain sequences.
pub open spec fn token_lines(lines: Seq<Vec<Spanned>>) -> Seq<Seq<Spanned>> {
    lines.map_values(|l: Vec<Spanned>| l@)
}

/// What the lines say: empty lines are skipped; each other line gives a
/// statement or a diagnostic, in the order of the lines.
pub open spec fn parse_spec(lines: Seq<Seq<Spanned>>) -> (Seq<RawStmt>, Seq<Report>)
    decreases lines.len(),
{
    if lines.len() == 0 {
        (seq![], seq![])
    } else {
        let (raw, errs) = parse_spec(lines.drop_last());
        let l = lines.last();
        if l.len() == 0 {
            (raw, errs)
        } else {
            match parse_line_spec(l) {
                Ok(s) => (raw.push(s), errs),
                Err(e) => (raw, errs.push(e)),
            }
        }
    }
}

/// No line holds a loop as its statement.
pub open spec fn raw_simple(raw: Seq<RawStmt>) -> bool {
    forall|i: int|
        0 <= i < raw.len() ==> match #[trigger] raw[i] {
            RawStmt::Stmt(s, _) => is_simple(s),
            _ => true,
        }
}

/// A line never holds a loop as its statement: loops are built from their
/// header and end lines only.
pub proof fn lemma_parse_simple(lines: Seq<Seq<Spanned>>)
    ensures
        raw_simple(parse_spec(lines).0),
    decreases lines.len(),
{
    if lines.len() > 0 {
        lemma_parse_simple(lines.drop_last());
        let prev = parse_spec(lines.drop_last()).0;
        let cur = parse_spec(lines).0;
        assert forall|i: int| 0 <= i < cur.len() implies match #[trigger] cur[i] {
            RawStmt::Stmt(s, _) => is_simple(s),
            _ => true,
        } by {
            if i < prev.len() {
                assert(cur[i] == prev[i]);
            }
        }
    }
}

/// The token that names the variable `v`.
pub open spec fn var_token(v: Var) -> Token {
    match v {
        Var::A => Token::VarA,
        Var::B => Token::VarB,
        Var::C => Token::VarC,
    }
}

/// The line `toks` is made of the words `words`, in this order.
pub open spec fn line_is(toks: Seq<Spanned>, words: Seq<Token>) -> bool {
    &&& toks.len() == words.len()
    &&& forall|i: int| 0 <= i < toks.len() ==> (#[trigger] toks[i]).tok == words[i]
}

/// Each form of a line reads as the language defines it, for all variables
/// `d` and `s`, on the line of its first token:
/// `d momentum` is `d += 1`, `d moment` is `d -= 1`, `d momentum s` is
/// `d += s`, `d moment s` is `d -= s`, `d s` is `d = s`, `moment d` prints
/// `d` as a number, `momentum d` prints it as a character, `sound d s` loops
/// while `d != s`, `sound d momentum s` while `d > s`, `sound d moment s`
/// while `d < s`, and `effect` closes the loop.
pub proof fn lemma_line_forms(toks: Seq<Spanned>, d: Var, s: Var)
    ensures
        ({
            let line = toks[0].pos.line;
            &&& line_is(toks, seq![var_token(d), Token::Momentum]) ==> parse_line_spec(toks) == Ok::<
                RawStmt,
                Report,
            >(RawStmt::Stmt(Stmt::IncBy1(d), line))
            &&& line_is(toks, seq![var_token(d), Token::Moment]) ==> parse_line_spec(toks) == Ok::<
                RawStmt,
                Report,
            >(RawStmt::Stmt(Stmt::DecBy1(d), line))
            &&& line_is(toks, seq![var_token(d), Token::Momentum, var_token(s)])
                ==> parse_line_spec(toks) == Ok::<RawStmt, Report>(
                RawStmt::Stmt(Stmt::IncByVar(d, s), line),
            )
            &&& line_is(toks, seq![var_token(d), Token::Moment, var_token(s)]) ==> parse_line_spec(
                toks,
            ) == Ok::<RawStmt, Report>(RawStmt::Stmt(Stmt::DecByVar(d, s), line))
            &&& line_is(toks, seq![var_token(d), var_token(s)]) ==> parse_line_spec(toks) == Ok::<
                RawStmt,
                Report,
            >(RawStmt::Stmt(Stmt::Assign { dst: d, src: s }, line))
            &&& line_is(toks, seq![Token::Moment, var_token(d)]) ==> parse_line_spec(toks) == Ok::<
                RawStmt,
                Report,
            >(RawStmt::Stmt(Stmt::PrintInt(d), line))
            &&& line_is(toks, seq![Token::Momentum, var_token(d)]) ==> parse_line_spec(toks)
                == Ok::<RawStmt, Report>(RawStmt::Stmt(Stmt::PrintChar(d), line))
            &&& line_is(toks, seq![Token::Sound, var_token(d), var_token(s)]) ==> parse_line_spec(
                toks,
            ) == Ok::<RawStmt, Report>(RawStmt::Sound(LoopCond::NotEqual(d, s), line))
            &&& line_is(toks, seq![Token::Sound, var_token(d), Token::Momentum, var_token(s)])
                ==> parse_line_spec(toks) == Ok::<RawStmt, Report>(
                RawStmt::Sound(LoopCond::Greater(d, s), line),
            )
            &&& line_is(toks, seq![Token::Sound, var_token(d), Token::Moment, var_token(s)])
                ==> parse_line_spec(toks) == Ok::<RawStmt, Report>(
                RawStmt::Sound(LoopCond::Less(d, s), line),
            )
            &&& line_is(toks, seq![Token::Effect]) ==> parse_line_spec(toks) == Ok::<
                RawStmt,
                Report,
            >(RawStmt::Effect(line))
        }),
{
    assert(var_of(var_token(d)) == Some(d));
    assert(var_of(var_token(s)) == Some(s));
    if toks.len() > 0 {
        assert(toks[0].tok == toks[0].tok);
    }
    if toks.len() > 1 {
        assert(toks[1].tok == toks[1].tok);
    }
    if toks.len() > 2 {
        assert(toks[2].tok == toks[2].tok);
    }
    if toks.len() > 3 {
        assert(toks[3].tok == toks[3].tok);
    }
}

fn as_var(tok: &Token) -> (r: Option<Var>)
    ensures
        r == var_of(*tok),
{
    match tok {
        Token::VarA => Some(Var::A),
        Token::VarB => Some(Var::B),
        Token::VarC => Some(Var::C),
        _ => None,
    }
}

fn malformed_at(what: &str, line: usize) -> (e: BruhError)
    ensures
        Err::<RawStmt, Report>(e@) == malformed(line, what@),
{
    line_error("MalformedStatement", what, line)
}

fn trailing_at(what: &str, line: usize) -> (e: BruhError)
    ensures
        Err::<RawStmt, Report>(e@) == trailing(line, what@),
{
    line_error("TrailingTokens", what, line)
}

/// The result of a line as plain values.
pub open spec fn result_view(r: Result<RawStmt, BruhError>) -> Result<RawStmt, Report> {
    match r {
        Ok(s) => Ok(s),
        Err(e) => Err(e@),
    }
}

fn parse_sound(toks: &[Spanned], line: usize) -> (r: Result<RawStmt, BruhError>)
    requires
        toks@.len() > 0,
    ensures
        result_view(r) == sound_header(toks@, line),
{
    if toks.len() < 3 {
        return Err(malformed_at("expected: sound <var> [momentum|moment] <var> at", line));
    }
    let lhs = match as_var(&toks[1].tok) {
        Some(v) => v,
        None => return Err(malformed_at("expected variable after 'sound' at", line)),
    };
    if toks.len() == 3 {
        return match as_var(&toks[2].tok) {
            Some(rhs) => Ok(RawStmt::Sound(LoopCond::NotEqual(lhs, rhs), line)),
            None => Err(malformed_at("expected variable at", line)),
        };
    }
    if toks.len() == 4 {
        let rhs = match as_var(&toks[3].tok) {
            Some(v) => v,
            None => return Err(malformed_at("expected variable at", line)),
        };
        return match toks[2].tok {
            Token::Momentum => Ok(RawStmt::Sound(LoopCond::Greater(lhs, rhs), line)),
            Token::Moment => Ok(RawStmt::Sound(LoopCond::Less(lhs, rhs), line)),
            _ => Err(malformed_at("expected 'momentum' or 'moment' at", line)),
        };
    }
    Err(trailing_at("trailing tokens after loop header at", line))
}

fn parse_print(toks: &[Spanned], line: usize, is_char: bool) -> (r: Result<RawStmt, BruhError>)
    requires
        toks@.len() > 0,
    ensures
        result_view(r) == print_stmt(toks@, line, is_char),
{
    if toks.len() < 2 {
        if is_char {
            return Err(malformed_at("expected variable after 'momentum' at", line));
        } else {
            return Err(malformed_at("expected variable after 'moment' at", line));
        }
    }
    if toks.len() > 2 {
        return Err(trailing_at("trailing tokens at", line));
    }
    match as_var(&toks[1].tok) {
        Some(v) => {
            let s = if is_char {
                Stmt::PrintChar(v)
            } else {
                Stmt::PrintInt(v)
            };
            Ok(RawStmt::Stmt(s, line))
        },
        None => Err(malformed_at("expected variable at", line)),
    }
}

fn parse_update(toks: &[Spanned], line: usize, dst: Var) -> (r: Result<RawStmt, BruhError>)
    requires
        toks@.len() > 0,
    ensures
        result_view(r) == update_stmt(toks@, line, dst),
{
    if toks.len() < 2 {
        return Err(malformed_at("incomplete statement at", line));
    }
    match toks[1].tok {
        Token::VarA | Token::VarB | Token::VarC => {
            if toks.len() > 2 {
                return Err(trailing_at("trailing tokens at", line));
            }
            let src = as_var(&toks[1].tok).unwrap();
            Ok(RawStmt::Stmt(Stmt::Assign { dst, src }, line))
        },
        Token::Momentum => {
            if toks.len() == 2 {
                Ok(RawStmt::Stmt(Stmt::IncBy1(dst), line))
            } else if toks.len() == 3 {
                match as_var(&toks[2].tok) {
                    Some(src) => Ok(RawStmt::Stmt(Stmt::IncByVar(dst, src), line)),
                    None => Err(malformed_at("expected variable at", line)),
                }
            } else {
                Err(trailing_at("trailing tokens at", line))
            }
        },
        Token::Moment => {
            if toks.len() == 2 {
                Ok(RawStmt::Stmt(Stmt::DecBy1(dst), line))
            } else if toks.len() == 3 {
                match as_var(&toks[2].tok) {
                    Some(src) => Ok(RawStmt::Stmt(Stmt::DecByVar(dst, src), line)),
                    None => Err(malformed_at("expected variable at", line)),
                }
            } else {
                Err(trailing_at("trailing tokens at", line))
            }
        },
        _ => Err(malformed_at("unexpected token at", line)),
    }
}

/// Parses one non-empty line of tokens.
pub fn parse_line(toks: &[Spanned]) -> (r: Result<RawStmt, BruhError>)
    requires
        toks@.len() > 0,
    ensures
        result_view(r) == parse_line_spec(toks@),
{
    let line = toks[0].pos.line;
    match toks[0].tok {
        Token::Sound => parse_sound(toks, line),
        Token::Effect => {
            if toks.len() > 1 {
                Err(trailing_at("trailing tokens after 'effect' at", line))
            } else {
                Ok(RawStmt::Effect(line))
            }
        },
        Token::Momentum => parse_print(toks, line, true),
        Token::Moment => parse_print(toks, line, false),
        Token::VarA => parse_update(toks, line, Var::A),
        Token::VarB => parse_update(toks, line, Var::B),
        Token::VarC => parse_update(toks, line, Var::C),
    }
}

/// Parses every line: the statements of the lines that parse, and the
/// diagnostics of those that do not, each in the order of the lines.
pub fn parse(lines: &[Vec<Spanned>]) -> (r: (Vec<RawStmt>, Vec<BruhError>))
    ensures
        r.0@ == parse_spec(token_lines(lines@)).0,
        r.1@.map_values(|e: BruhError| e@) == parse_spec(token_lines(lines@)).1,
{
    let mut raw: Vec<RawStmt> = Vec::new();
    let mut errors: Vec<BruhError> = Vec::new();
    let ghost all = token_lines(lines@);
    let mut i: usize = 0;
    while i < lines.len()
        invariant
            0 <= i <= lines@.len(),
            all == token_lines(lines@),
            raw@ == parse_spec(all.take(i as int)).0,
            errors@.map_values(|e: BruhError| e@) == parse_spec(all.take(i as int)).1,
        decreases lines@.len() - i,
    {
        let line = &lines[i];
        proof {
            assert(all.take(i + 1).drop_last() =~= all.take(i as int));
            assert(all.take(i + 1).last() == line@);
        }
        if line.len() > 0 {
            match parse_line(line.as_slice()) {
                Ok(s) => raw.push(s),
                Err(e) => {
                    let ghost before = errors@;
                    errors.push(e);
                    proof {
                        assert(errors@.map_values(|e: BruhError| e@) =~= before.map_values(
                            |e: BruhError| e@,
                        ).push(errors@.last()@));
                    }
                },
            }
        }
        i = i + 1;
    }
    proof {
        assert(all.take(lines@.len() as int) =~= all);
    }
    (raw, errors)
}

} // verus!
