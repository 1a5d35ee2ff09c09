//! `cd [DIR]`.

use vstd::prelude::*;
use vstd::string::StringExecFns;
use crate::parser::Command;
use crate::text::{chars_of, same_chars, strings_view};

verus! {

/// Where `cd` goes.
pub enum CdRequest {
    /// No argument, or `~`.
    Home,
    /// The directory named.
    Dir(String),
}

/// `cd` with no argument or `~` goes home; otherwise to its first argument.
pub fn run(cmd: &Command) -> (r: CdRequest)
    ensures
        match r {
            CdRequest::Home => cmd.args@.len() == 0 || cmd.args@[0]@ == "~"@,
            CdRequest::Dir(d) => cmd.args@.len() > 0 && cmd.args@[0]@ != "~"@ && d@ == cmd.args@[0]@,
        },
{
    if cmd.args.len() == 0 {
        return CdRequest::Home;
    }
    let d = &cmd.args[0];
    if same_chars(&chars_of(d.as_str()), &chars_of("~")) {
        CdRequest::Home
    } else {
        CdRequest::Dir(d.clone())
    }
}

/// `cd: DIR: No such file or directory`.
pub fn no_such_dir_message(dir: &str) -> (r: String)
    ensures
        r@ == "cd: "@ + dir@ + ": No such file or directory"@,
{
    let mut r = String::new();
    r.append("cd: ");
    r.append(dir);
    r.append(": No such file or directory");
    r
}

} // verus!
