//! `type NAME...`.

use vstd::prelude::*;
use vstd::string::StringExecFns;
use crate::builtins::registry::{is_builtin, registered_builtins};
use crate::parser::Command;
use crate::text::strings_view;

verus! {

/// What `type` says of `name`, given where `PATH` has it (if anywhere).
pub open spec fn identify_text(name: Seq<char>, found: Option<Seq<char>>) -> Seq<char> {
    if registered_builtins().contains(name) {
        name + " is a shell builtin"@
    } else {
        match found {
            Some(p) => name + " is "@ + p,
            None => name + ": not found"@,
        }
    }
}

/// What `type` says of `name`, given where `PATH` has it.
pub fn identify(name: &str, found: &Option<String>) -> (r: String)
    ensures
        r@ == identify_text(
            name@,
            match found {
                Some(p) => Some(p@),
                None => None,
            },
        ),
{
    let mut r = String::new();
    r.append(name);
    if is_builtin(name) {
        r.append(" is a shell builtin");
    } else {
        match found {
            Some(p) => {
                r.append(" is ");
                r.append(p.as_str());
            },
            None => {
                r.append(": not found");
            },
        }
    }
    r
}

/// The lines `type` prints for each argument, given where `PATH` has each.
pub fn run(cmd: &Command, found: &Vec<Option<String>>) -> (lines: Vec<String>)
    requires
        found@.len() == cmd.args@.len(),
    ensures
        lines@.len() == cmd.args@.len(),
        forall|k: int|
            0 <= k < lines@.len() ==> (#[trigger] lines@[k])@ == identify_text(
                cmd.args@[k]@,
                match found@[k] {
                    Some(p) => Some(p@),
                    None => None,
                },
            ),
{
    let mut lines: Vec<String> = Vec::new();
    let mut i: usize = 0;
    while i < cmd.args.len()
        invariant
            i <= cmd.args@.len(),
            found@.len() == cmd.args@.len(),
            lines@.len() == i,
            forall|k: int|
                0 <= k < i ==> (#[trigger] lines@[k])@ == identify_text(
                    cmd.args@[k]@,
                    match found@[k] {
                        Some(p) => Some(p@),
                        None => None,
                    },
                ),
        decreases cmd.args.len() - i,
    {
        lines.push(identify(cmd.args[i].as_str(), &found[i]));
        i = i + 1;
    }
    lines
}

} // verus!
