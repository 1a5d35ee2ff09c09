//! The bookkeeping of a pipeline run stage by stage: which input each
//! process gets, whose output is captured, what built-in output is passed on,
//! and what the pipeline as a whole reports.

use vstd::prelude::*;
use crate::builtins::CmdOutput;

verus! {

/// Where a process stage reads its input from.
#[derive(Clone, Copy, PartialEq, Eq, Structural, Debug)]
pub enum StdinSource {
    /// The output of the process before it.
    Previous,
    /// A pipe the shell writes the previous built-in's output into.
    Piped,
    /// The shell's own input.
    Inherit,
}

/// How a process stage is wired.
pub struct Wiring {
    pub stdin: StdinSource,
    /// Its output and errors are captured rather than shown.
    pub capture: bool,
    /// Text to write into its input, once started.
    pub feed: Option<Vec<u8>>,
}

/// What a pipeline carries from one stage to the next.
pub struct PipeState {
    /// The last stage was a process whose output the next stage reads.
    pub from_child: bool,
    /// Output of the last built-in stage, not yet handed on.
    pub out: Option<Vec<u8>>,
    /// Errors of the last built-in stage, not yet handed on.
    pub err: Option<Vec<u8>>,
    /// Exit status of the last built-in stage.
    pub status: i32,
    /// The final stage was a built-in.
    pub last_builtin: bool,
}

/// `Some(b)` for non-empty bytes, `None` for none.
pub open spec fn kept(b: Seq<u8>) -> Option<Seq<u8>> {
    if b.len() == 0 {
        None
    } else {
        Some(b)
    }
}

/// The view of optional bytes.
pub open spec fn opt_bytes(o: Option<Vec<u8>>) -> Option<Seq<u8>> {
    match o {
        Some(v) => Some(v@),
        None => None,
    }
}

fn keep(b: Vec<u8>) -> (r: Option<Vec<u8>>)
    ensures
        opt_bytes(r) == kept(b@),
{
    if b.len() == 0 {
        None
    } else {
        Some(b)
    }
}

impl PipeState {
    /// The state before the first stage.
    pub fn new() -> (s: PipeState)
        ensures
            !s.from_child,
            s.out is None,
            s.err is None,
            s.status == 0,
            !s.last_builtin,
    {
        PipeState { from_child: false, out: None, err: None, status: 0, last_builtin: false }
    }

    /// Records a built-in stage that produced `result`.
    pub fn after_builtin(&mut self, result: CmdOutput, is_last: bool)
        ensures
            !final(self).from_child,
            opt_bytes(final(self).out) == kept(result.stdout@),
            opt_bytes(final(self).err) == kept(result.stderr@),
            final(self).status == result.status,
            final(self).last_builtin == (old(self).last_builtin || is_last),
    {
        self.status = result.status;
        self.out = keep(result.stdout);
        self.err = keep(result.stderr);
        self.from_child = false;
        if is_last {
            self.last_builtin = true;
        }
    }

    /// Wires a process stage: it reads the previous process's output, or a
    /// pipe fed with the last built-in output when there is some, or the
    /// shell's input; its output is captured unless it ends a pipeline of
    /// several stages.  The built-in output is handed on (errors only when
    /// there was no output).
    pub fn wire_external(&mut self, is_last: bool, single: bool) -> (w: Wiring)
        ensures
            w.stdin == if old(self).from_child {
                StdinSource::Previous
            } else if old(self).out is Some || old(self).err is Some {
                StdinSource::Piped
            } else {
                StdinSource::Inherit
            },
            w.capture == (!is_last || single),
            opt_bytes(w.feed) == if old(self).out is Some {
                opt_bytes(old(self).out)
            } else {
                opt_bytes(old(self).err)
            },
            final(self).from_child == !is_last,
            final(self).out is None,
            final(self).err == if old(self).out is Some {
                old(self).err
            } else {
                None
            },
            final(self).status == old(self).status,
            final(self).last_builtin == old(self).last_builtin,
    {
        let stdin = if self.from_child {
            StdinSource::Previous
        } else if self.out.is_some() || self.err.is_some() {
            StdinSource::Piped
        } else {
            StdinSource::Inherit
        };
        let feed = if self.out.is_some() {
            self.out.take()
        } else {
            self.err.take()
        };
        self.from_child = !is_last;
        Wiring { stdin, capture: !is_last || single, feed }
    }

    /// Whether the output of the last process is the pipeline's output:
    /// some process ran and the final stage was not a built-in.
    pub fn waits_for_last(&self, any_process: bool) -> (b: bool)
        ensures
            b == (any_process && !self.last_builtin),
    {
        any_process && !self.last_builtin
    }

    /// What the pipeline reports: the built-in output still held, with the
    /// last built-in status, if there is any; else the last process's output;
    /// else nothing, with the last built-in status.
    pub fn finish(self, last: Option<CmdOutput>) -> (r: CmdOutput)
        ensures
            (self.out is None && self.err is None) ==> match last {
                Some(o) => r == o,
                None => r.status == self.status && r.stdout@.len() == 0 && r.stderr@.len()
                    == 0,
            },
            (self.out is Some || self.err is Some) ==> {
                &&& r.status == self.status
                &&& r.stdout@ == match self.out {
                    Some(v) => v@,
                    None => Seq::<u8>::empty(),
                }
                &&& r.stderr@ == match self.err {
                    Some(v) => v@,
                    None => Seq::<u8>::empty(),
                }
            },
    {
        if self.out.is_none() && self.err.is_none() {
            match last {
                Some(o) => o,
                None => CmdOutput { status: self.status, stdout: Vec::new(), stderr: Vec::new() },
            }
        } else {
            let stdout = match self.out {
                Some(v) => v,
                None => Vec::new(),
            };
            let stderr = match self.err {
                Some(v) => v,
                None => Vec::new(),
            };
            CmdOutput { status: self.status, stdout, stderr }
        }
    }
}

} // verus!
