//! The command line that starts the app when the user logs in.
use vstd::prelude::*;

use crate::text::push_str;

verus! {

/// The value stored under the `Run` key: the executable's path in double quotes, so that a
/// path with spaces (`Program Files`) stays one argument.
pub fn run_command(exe_path: &str) -> (r: String)
    ensures
        r@ == "\""@ + exe_path@ + "\""@,
{
    let mut r = String::new();
    push_str(&mut r, "\"");
    push_str(&mut r, exe_path);
    push_str(&mut r, "\"");
    assert(r@ =~= "\""@ + exe_path@ + "\""@);
    r
}

} // verus!
