//! The plain built-ins of the line-reading shell: `exit`, `echo`, `type`,
//! `pwd` and `cd`, and what running one asks for.

use vstd::prelude::*;
use crate::builtins::cd::CdRequest;
use crate::builtins::exit::exit_code_spec;
use crate::parser::{parse_echo_args_spec, Command};
use crate::text::{chars_of, same_chars, strings_view};

verus! {

/// All registered shell builtins.
pub open spec fn registered_builtins() -> Seq<Seq<char>> {
    seq!["exit"@, "echo"@, "type"@, "pwd"@, "cd"@]
}

/// Whether `name` is one of `exit`, `echo`, `type`, `pwd`, `cd`.
pub fn is_builtin(name: &str) -> (b: bool)
    ensures
        b == registered_builtins().contains(name@),
{
    let v = chars_of(name);
    let names = vec!["exit", "echo", "type", "pwd", "cd"];
    let mut i: usize = 0;
    while i < names.len()
        invariant
            i <= names@.len(),
            v@ == name@,
            names@.len() == registered_builtins().len(),
            forall|k: int| 0 <= k < names@.len() ==> (#[trigger] names@[k])@ == registered_builtins()[k],
            forall|k: int| 0 <= k < i ==> registered_builtins()[k] != name@,
        decreases names.len() - i,
    {
        if same_chars(&v, &chars_of(names[i])) {
            assert(registered_builtins()[i as int] == name@);
            return true;
        }
        i = i + 1;
    }
    false
}

/// What running a built-in asks the shell to do.
pub enum BuiltinAction {
    /// End the shell with this status.
    Exit(i32),
    /// Print this line.
    Echo(String),
    /// Say what each of these names is.
    Type(Vec<String>),
    /// Print the working directory.
    Pwd,
    /// Change the working directory.
    Cd(CdRequest),
    /// Not a built-in.
    NotBuiltin,
}

impl BuiltinAction {
    /// Execute a builtin. Returns `true` if the shell should exit.
    pub fn should_exit(&self) -> (b: bool)
        ensures
            b == (self is Exit),
    {
        match self {
            BuiltinAction::Exit(_) => true,
            _ => false,
        }
    }
}

/// The action of `cmd` when its name is a built-in.
pub open spec fn action_is(a: BuiltinAction, cmd: Command) -> bool {
    let name = cmd.name@;
    if name == "exit"@ {
        a == BuiltinAction::Exit(exit_code_spec(strings_view(cmd.args@)))
    } else if name == "echo"@ {
        a matches BuiltinAction::Echo(s) && s@ == parse_echo_args_spec(cmd.raw_args@)
    } else if name == "type"@ {
        a matches BuiltinAction::Type(names) && strings_view(names@) == strings_view(cmd.args@)
    } else if name == "pwd"@ {
        a is Pwd
    } else if name == "cd"@ {
        a matches BuiltinAction::Cd(r) && match r {
            CdRequest::Home => cmd.args@.len() == 0 || cmd.args@[0]@ == "~"@,
            CdRequest::Dir(d) => cmd.args@.len() > 0 && cmd.args@[0]@ != "~"@ && d@
                == cmd.args@[0]@,
        }
    } else {
        a is NotBuiltin
    }
}

fn name_is(cmd: &Command, lit: &str) -> (b: bool)
    ensures
        b == (cmd.name@ == lit@),
{
    same_chars(&chars_of(cmd.name.as_str()), &chars_of(lit))
}

fn clone_all(v: &Vec<String>) -> (r: Vec<String>)
    ensures
        strings_view(r@) == strings_view(v@),
{
    let mut r: Vec<String> = Vec::new();
    let mut i: usize = 0;
    while i < v.len()
        invariant
            i <= v@.len(),
            strings_view(r@) == strings_view(v@).take(i as int),
        decreases v.len() - i,
    {
        let ghost prev = strings_view(r@);
        let c = v[i].clone();
        r.push(c);
        assert(strings_view(r@) =~= prev.push(c@));
        assert(strings_view(v@).take(i + 1) =~= strings_view(v@).take(i as int).push(v@[i as int]@));
        i = i + 1;
        assert(strings_view(r@) =~= strings_view(v@).take(i as int));
    }
    assert(strings_view(v@).take(v@.len() as int) =~= strings_view(v@));
    r
}

/// What running the built-in `cmd` asks for.
pub fn execute(cmd: &Command) -> (a: BuiltinAction)
    ensures
        action_is(a, *cmd),
{
    if name_is(cmd, "exit") {
        BuiltinAction::Exit(crate::builtins::exit::run(cmd))
    } else if name_is(cmd, "echo") {
        BuiltinAction::Echo(crate::builtins::echo::run(cmd))
    } else if name_is(cmd, "type") {
        BuiltinAction::Type(clone_all(&cmd.args))
    } else if name_is(cmd, "pwd") {
        BuiltinAction::Pwd
    } else if name_is(cmd, "cd") {
        BuiltinAction::Cd(crate::builtins::cd::run(cmd))
    } else {
        BuiltinAction::NotBuiltin
    }
}

} // verus!
