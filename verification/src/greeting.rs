//! The library's greeting.

use vstd::prelude::*;
use vstd::string::StringExecFns;

verus! {

/// The text of the greeting for `name`: a fixed opening, the name as given,
/// and a fixed close.
pub open spec fn greeting_text(name: Seq<char>) -> Seq<char> {
    "Hello, "@ + name + "! Welcome to Rust Helpers."@
}

/// Greets `name`. Any text is accepted as a name, the empty one too.
pub fn greet_rust_helpers(name: &str) -> (greeting: String)
    ensures
        greeting@ == greeting_text(name@),
{
    let mut greeting = String::from_str("Hello, ");
    greeting.append(name);
    greeting.append("! Welcome to Rust Helpers.");
    greeting
}

} // verus!
