//! Diagnostics of the front end.
use vstd::prelude::*;

verus! {

/// A diagnostic of the parser or the semantic check: the line, a code that
/// names the kind of error, and a message.
#[derive(Debug)]
pub struct BruhError {
    pub line: usize,
    pub code: &'static str,
    pub msg: String,
}

/// A word of the source that is no token.
#[derive(Debug)]
pub struct LexError {
    pub line: usize,
    pub col: usize,
    pub raw: String,
}

/// A diagnostic as plain values: line, code, message.
pub type Report = (usize, Seq<char>, Seq<char>);

impl View for BruhError {
    type V = Report;

    open spec fn view(&self) -> Report {
        (self.line, self.code@, self.msg@)
    }
}

/// The message `what line N`.
pub open spec fn line_msg(what: Seq<char>, line: usize) -> Seq<char> {
    what + " line "@ + crate::text::dec_chars(line as nat)
}

/// The diagnostic with `code` on `line` whose message is `what line N`.
pub open spec fn report(line: usize, code: Seq<char>, what: Seq<char>) -> Report {
    (line, code, line_msg(what, line))
}

/// Builds the diagnostic with `code` on `line` whose message is `what line N`.
pub fn line_error(code: &'static str, what: &str, line: usize) -> (e: BruhError)
    ensures
        e@ == report(line, code@, what@),
{
    let mut msg = String::from_str(what);
    msg.append(" line ");
    crate::text::append_decimal(&mut msg, line);
    BruhError { line, code, msg }
}

} // verus!
