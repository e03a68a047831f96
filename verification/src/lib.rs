//! The front end, interpreter and WebAssembly back end of bruh-lang, a
//! small esoteric language with three signed 64-bit variables, wrapping
//! arithmetic, output of numbers and characters, and loops one level deep.
use vstd::prelude::*;
use vstd::string::*;

pub mod ast;
pub mod cli;
pub mod codegen;
pub mod diag;
pub mod error;
pub mod interp;
pub mod lexer;
pub mod parser;
pub mod sema;
pub mod text;
pub mod token;

use crate::ast::{one_loop_level, Stmt};
use crate::diag::{diag_views, sort_by_line, stable_sort_of, Diagnostic};
use crate::error::{BruhError, Report};
use crate::lexer::{lex_reports, lex_spec, LexReport};
use crate::parser::{lemma_parse_simple, parse_spec};
use crate::sema::{analyze_spec, reports, stmts_are, Item};
use crate::text::{append_decimal, dec_chars};

verus! {

/// A program that passed every check.
#[derive(Debug)]
pub struct CompileResult {
    pub stmts: Vec<Stmt>,
}

/// The message for a word that is no token.
pub open spec fn unknown_token_msg(raw: Seq<char>, col: usize) -> Seq<char> {
    "unknown token '"@ + raw + "' at column "@ + dec_chars(col as nat)
}

/// The diagnostic for a word that is no token.
pub open spec fn unknown_token(e: LexReport) -> Report {
    (e.0, "UnknownToken"@, unknown_token_msg(e.2, e.1))
}

/// What the front end makes of a source text: the statements of the
/// program, and the diagnostics of the lexer, the parser and the check of
/// loops, in this order.
pub open spec fn front_end(src: Seq<char>) -> (Seq<Item>, Seq<Report>) {
    let lexed = lex_spec(src);
    let parsed = parse_spec(lexed.0);
    let checked = analyze_spec(parsed.0);
    (checked.0, lexed.1.map_values(|e: LexReport| unknown_token(e)) + parsed.1 + checked.1)
}

/// Compiles a source text: the program when no stage reports an error, and
/// else every diagnostic, sorted by line (those on one line keep the order
/// of the stages: lexer, parser, check of loops).
pub fn compile_src(src: &str) -> (r: Result<CompileResult, Vec<Diagnostic>>)
    ensures
        match r {
            Ok(c) => {
                &&& front_end(src@).1.len() == 0
                &&& stmts_are(c.stmts@, front_end(src@).0)
                &&& one_loop_level(c.stmts@)
            },
            Err(v) => {
                &&& front_end(src@).1.len() > 0
                &&& v@.len() == front_end(src@).1.len()
                &&& stable_sort_of(diag_views(v@), front_end(src@).1)
            },
        },
{
    let (token_lines, lex_errors) = lexer::lex(src);
    let (raw, parse_errors) = parser::parse(token_lines.as_slice());
    proof {
        lemma_parse_simple(lex_spec(src@).0);
    }
    let (stmts, sema_errors) = sema::analyze(raw);

    let ghost lex_all = lex_reports(lex_errors@);
    let ghost parse_all = reports(parse_errors@);
    let ghost sema_all = reports(sema_errors@);
    let ghost lex_diags = lex_all.map_values(|e: LexReport| unknown_token(e));
    let mut all: Vec<Diagnostic> = Vec::new();
    proof {
        assert(diag_views(all@) =~= lex_diags.take(0));
    }
    for e in it: lex_errors
        invariant
            it.seq().map_values(|e: crate::error::LexError| e@) == lex_all,
            0 <= it.index() <= lex_all.len(),
            lex_diags == lex_all.map_values(|e: LexReport| unknown_token(e)),
            diag_views(all@) == lex_diags.take(it.index() as int),
    {
        let ghost k = it.index();
        let mut msg = String::from_str("unknown token '");
        msg.append(e.raw.as_str());
        msg.append("' at column ");
        append_decimal(&mut msg, e.col);
        let ghost before = all@;
        all.push((e.line, "UnknownToken", msg));
        proof {
            assert(lex_all[k as int] == e@);
            assert(lex_diags.take(k + 1) =~= lex_diags.take(k as int).push(unknown_token(e@)));
            assert(diag_views(all@) =~= diag_views(before).push(unknown_token(e@)));
        }
    }
    proof {
        assert(lex_diags.take(lex_all.len() as int) =~= lex_diags);
    }
    let ghost d1 = diag_views(all@);
    for e in it: parse_errors
        invariant
            it.seq().map_values(|e: BruhError| e@) == parse_all,
            0 <= it.index() <= parse_all.len(),
            diag_views(all@) == d1 + parse_all.take(it.index() as int),
    {
        let ghost k = it.index();
        let ghost ev = e@;
        let BruhError { line, code, msg } = e;
        let ghost before = all@;
        all.push((line, code, msg));
        proof {
            assert(parse_all[k as int] == ev);
            assert(parse_all.take(k + 1) =~= parse_all.take(k as int).push(ev));
            assert(diag_views(all@) =~= diag_views(before).push(ev));
        }
    }
    proof {
        assert(parse_all.take(parse_all.len() as int) =~= parse_all);
    }
    let ghost d2 = diag_views(all@);
    for e in it: sema_errors
        invariant
            it.seq().map_values(|e: BruhError| e@) == sema_all,
            0 <= it.index() <= sema_all.len(),
            diag_views(all@) == d2 + sema_all.take(it.index() as int),
    {
        let ghost k = it.index();
        let ghost ev = e@;
        let BruhError { line, code, msg } = e;
        let ghost before = all@;
        all.push((line, code, msg));
        proof {
            assert(sema_all[k as int] == ev);
            assert(sema_all.take(k + 1) =~= sema_all.take(k as int).push(ev));
            assert(diag_views(all@) =~= diag_views(before).push(ev));
        }
    }
    proof {
        assert(sema_all.take(sema_all.len() as int) =~= sema_all);
        assert(diag_views(all@) =~= front_end(src@).1);
        assert(all@.len() == diag_views(all@).len());
    }
    if all.len() > 0 {
        return Err(sort_by_line(all));
    }
    Ok(CompileResult { stmts })
}

} // verus!
