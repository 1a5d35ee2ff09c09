//! `echo ARGS`.

use vstd::prelude::*;
use crate::parser::{parse_echo_args, parse_echo_args_spec, Command};

verus! {

/// The line `echo` prints: its raw arguments with quoting removed and
/// unquoted spaces collapsed.
pub fn run(cmd: &Command) -> (r: String)
    ensures
        r@ == parse_echo_args_spec(cmd.raw_args@),
{
    parse_echo_args(cmd.raw_args.as_str())
}

} // verus!
