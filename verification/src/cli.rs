//! The output formats of the `build` command.
use vstd::prelude::*;
use vstd::string::*;

verus! {

/// The form in which `build` writes the module.
#[derive(Debug, Clone, Copy, PartialEq, Eq, Structural)]
pub enum EmitFormat {
    /// The binary format.
    Wasm,
    /// The text format.
    Wat,
}

/// The message for a format name that is not known.
pub open spec fn unknown_format_msg(s: Seq<char>) -> Seq<char> {
    "unknown emit format '"@ + s + "', expected wasm or wat"@
}

/// Reads a format name: `wasm` or `wat`.
pub fn parse_emit_format(s: &str) -> (r: Result<EmitFormat, String>)
    ensures
        match r {
            Ok(EmitFormat::Wasm) => s@ == "wasm"@,
            Ok(EmitFormat::Wat) => s@ == "wat"@,
            Err(msg) => s@ != "wasm"@ && s@ != "wat"@ && msg@ == unknown_format_msg(s@),
        },
{
    let wasm = String::from_str("wasm");
    let wat = String::from_str("wat");
    let given = String::from_str(s);
    if given == wasm {
        Ok(EmitFormat::Wasm)
    } else if given == wat {
        Ok(EmitFormat::Wat)
    } else {
        let mut msg = String::from_str("unknown emit format '");
        msg.append(s);
        msg.append("', expected wasm or wat");
        Err(msg)
    }
}

} // verus!
