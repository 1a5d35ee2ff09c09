//! Names of the shell's built-in commands and fixed strings.

use vstd::prelude::*;

verus! {

pub const EXIT_CMD: &'static str = "exit";

pub const ECHO_CMD: &'static str = "echo";

pub const TYPE_CMD: &'static str = "type";

pub const PWD_CMD: &'static str = "pwd";

pub const CD_CMD: &'static str = "cd";

pub const HISTORY_CMD: &'static str = "history";

pub const JOBS_CMD: &'static str = "jobs";

pub const COMPLETE_CMD: &'static str = "complete";

pub const DECLARE_CMD: &'static str = "declare";

pub const HOME_DIR: &'static str = "~";

pub const PROMPT: &'static str = "$ ";

/// The built-in command names, in the order the shell lists them.
pub open spec fn shell_builtins() -> Seq<Seq<char>> {
    seq![EXIT_CMD@, ECHO_CMD@, TYPE_CMD@, PWD_CMD@, CD_CMD@, HISTORY_CMD@, JOBS_CMD@]
}

/// The built-in command names as strings.
pub fn shell_builtins_list() -> (r: Vec<&'static str>)
    ensures
        r@.len() == shell_builtins().len(),
        forall|k: int| 0 <= k < r@.len() ==> (#[trigger] r@[k])@ == shell_builtins()[k],
{
    let r = vec![EXIT_CMD, ECHO_CMD, TYPE_CMD, PWD_CMD, CD_CMD, HISTORY_CMD, JOBS_CMD];
    r
}

} // verus!
