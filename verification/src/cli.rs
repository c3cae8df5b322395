//! Command-line arguments of the table-versus-Spectec comparison.

use vstd::prelude::*;

verus! {

broadcast use vstd::string::group_string_axioms;

/// The paths the comparison reads.
#[derive(Debug, Clone, PartialEq, Eq)]
pub struct Invocation {
    pub spectec_path: String,
    pub instructions_path: String,
}

/// The help text.
pub open spec fn usage_text() -> Seq<char> {
    "usage: diff-spectec <spectec-file> [instructions.toml]\n\nCompare opcode keys in instructions.toml against Spectec grammar rules.\nPrints a table of missing instructions; exits 2 when any are missing."@
}

/// The opcode table read when no path is given.
pub open spec fn default_path_text() -> Seq<char> {
    "instructions.toml"@
}

/// The help text of the comparison.
pub fn usage() -> (r: String)
    ensures
        r@ == usage_text(),
{
    "usage: diff-spectec <spectec-file> [instructions.toml]\n\nCompare opcode keys in instructions.toml against Spectec grammar rules.\nPrints a table of missing instructions; exits 2 when any are missing.".to_string()
}

/// The path of the opcode table when none is given: `instructions.toml`.
pub fn default_instructions_path() -> (r: String)
    ensures
        r@ == default_path_text(),
{
    "instructions.toml".to_string()
}

/// Reads the arguments after the program name: the Spectec file, then
/// optionally the opcode table; anything else is answered with the help text.
pub fn parse_args(args: &[String]) -> (r: Result<Invocation, String>)
    ensures
        match r {
            Ok(inv) => {
                &&& 1 <= args@.len() <= 2
                &&& inv.spectec_path@ == args@[0]@
                &&& inv.instructions_path@ == (if args@.len() == 2 {
                    args@[1]@
                } else {
                    default_path_text()
                })
            },
            Err(msg) => {
                &&& !(1 <= args@.len() <= 2)
                &&& msg@ == usage_text()
            },
        },
{
    if args.len() == 0 || args.len() > 2 {
        return Err(usage());
    }
    let spectec_path = args[0].clone();
    let instructions_path = if args.len() == 2 {
        args[1].clone()
    } else {
        default_instructions_path()
    };
    Ok(Invocation { spectec_path, instructions_path })
}

} // verus!
