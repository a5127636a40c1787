//! What the command line shows around a query: the wordmark, and the help given
//! when no compilation database was found.
use vstd::prelude::*;
use crate::text::push_str;

verus! {

/// The CallJet wordmark.
pub const CALLJET_ASCII_ART: &'static str = r#"
  _____      _ _      _      _
 / ____|    | | |    | |    | |
| |     __ _| | |    | | ___| |_
| |    / _` | | | _  | |/ _ \ __|
| |___| (_| | | || |_| |  __/ |_
 \_____\__,_|_|_| \___/ \___|\__|

          FIND THE PATH. SKIP THE WHOLE GRAPH.
"#;

/// What the help says before the path.
pub open spec fn help_head() -> Seq<char> {
    "[CallJet] compilation database not found: "@
}

/// What the help says after the path: analysis goes on with the syntactic
/// candidates alone, and how to create and pass a database.
pub open spec fn help_tail() -> Seq<char> {
    "\n[CallJet] continuing with Tree-sitter candidates; Clang semantic verification is unavailable.\n\nCreate a compilation database with CMake:\n  cmake -S . -B build -DCMAKE_EXPORT_COMPILE_COMMANDS=ON\n\nThen pass the generated file to CallJet:\n  calljet <COMMAND> --root . --compile-commands build/compile_commands.json"@
}

/// Actionable help for a compilation database that is absent at `path`.
pub fn missing_compilation_database_help(path: &str) -> (r: String)
    ensures
        r@ == help_head() + path@ + help_tail(),
{
    let mut s = "[CallJet] compilation database not found: ".to_string();
    push_str(&mut s, path);
    push_str(&mut s, "\n[CallJet] continuing with Tree-sitter candidates; Clang semantic verification is unavailable.\n\nCreate a compilation database with CMake:\n  cmake -S . -B build -DCMAKE_EXPORT_COMPILE_COMMANDS=ON\n\nThen pass the generated file to CallJet:\n  calljet <COMMAND> --root . --compile-commands build/compile_commands.json");
    s
}

} // verus!
