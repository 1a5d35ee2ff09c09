//! `exit [CODE]`.

use vstd::prelude::*;
use crate::parser::Command;
use crate::text::{chars_of, parse_i32, parse_i32_spec, strings_view};

verus! {

/// The status `exit` ends the shell with: its first argument as an `i32`,
/// or 0 when there is none or it is not a number.
pub open spec fn exit_code_spec(args: Seq<Seq<char>>) -> i32 {
    if args.len() > 0 {
        match parse_i32_spec(args[0]) {
            Some(c) => c,
            None => 0,
        }
    } else {
        0
    }
}

/// The status `exit` ends the shell with.
pub fn run(cmd: &Command) -> (code: i32)
    ensures
        code == exit_code_spec(strings_view(cmd.args@)),
{
    if cmd.args.len() == 0 {
        return 0;
    }
    assert(strings_view(cmd.args@)[0] == cmd.args@[0]@);
    let v = chars_of(cmd.args[0].as_str());
    assert(v@.subrange(0, v@.len() as int) =~= v@);
    match parse_i32(&v, 0, v.len()) {
        Some(c) => c,
        None => 0,
    }
}

} // verus!
