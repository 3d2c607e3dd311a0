//! Build-and-run of generated projects: the typed outcome of a finished
//! command.  Spawning the command and collecting its output is the
//! surrounding process's business; the verdict on what came back is decided
//! here.

use vstd::prelude::*;
use vstd::string::*;
use crate::digits::{dec_digits, push_u64_decimal};

verus! {

/// Why a command did not produce a usable result.
#[derive(Debug, Clone, PartialEq, Eq)]
pub enum ExecutorError {
    /// The command could not be run at all; carries the I/O error's text.
    Io(String),
    /// The command ran and exited unsuccessfully.
    CommandFailed { status: i32, stderr: String },
}

/// The decimal notation of a signed value: a minus sign for negatives.
pub open spec fn int_digits(n: int) -> Seq<char> {
    if n < 0 {
        seq!['-'] + dec_digits((-n) as nat)
    } else {
        dec_digits(n as nat)
    }
}

/// A signed value written in decimal.
pub fn i32_string(v: i32) -> (r: String)
    ensures
        r@ == int_digits(v as int),
{
    let mut out = String::new();
    if v < 0 {
        crate::strutil::push_char(&mut out, '-');
        let m: u64 = (-(v as i64)) as u64;
        push_u64_decimal(&mut out, m);
        proof {
            assert(out@ =~= seq!['-'] + dec_digits(m as nat));
        }
    } else {
        push_u64_decimal(&mut out, v as u64);
        proof {
            assert(out@ =~= dec_digits(v as nat));
        }
    }
    out
}

impl ExecutorError {
    /// The human-readable text of this error.
    pub fn message(&self) -> (r: String)
        ensures
            match self {
                ExecutorError::Io(e) => r@ == "Command failed to execute: "@ + e@,
                ExecutorError::CommandFailed { status, stderr } => r@
                    == "Command failed with status "@ + int_digits(*status as int) + ": "@
                    + stderr@,
            },
    {
        match self {
            ExecutorError::Io(e) => {
                let mut out = String::from_str("Command failed to execute: ");
                out.append(e.as_str());
                proof {
                    assert(out@ =~= "Command failed to execute: "@ + e@);
                }
                out
            },
            ExecutorError::CommandFailed { status, stderr } => {
                let mut out = String::from_str("Command failed with status ");
                let num = i32_string(*status);
                out.append(num.as_str());
                out.append(": ");
                out.append(stderr.as_str());
                proof {
                    assert(out@ =~= "Command failed with status "@ + int_digits(*status as int)
                        + ": "@ + stderr@);
                }
                out
            },
        }
    }
}

/// Runs build tool commands inside a workspace directory.
pub struct Executor {
    workspace: String,
}

impl Executor {
    pub closed spec fn workspace_spec(&self) -> Seq<char> {
        self.workspace@
    }

    /// An executor rooted at the given workspace directory.
    pub fn new(workspace: String) -> (r: Executor)
        ensures
            r.workspace_spec() == workspace@,
    {
        Executor { workspace }
    }

    /// The workspace directory commands run in.
    pub fn workspace(&self) -> (r: &str)
        ensures
            r@ == self.workspace_spec(),
    {
        self.workspace.as_str()
    }
}

/// The verdict on a finished command: a successful exit passes the captured
/// standard output through; anything else is a failure carrying the exit
/// status (`-1` where the process died without one) and the captured
/// standard error.
pub fn command_verdict(success: bool, code: Option<i32>, stdout: String, stderr: String) -> (r:
    Result<String, ExecutorError>)
    ensures
        success ==> (r matches Ok(o) && o@ == stdout@),
        !success ==> (r matches Err(e) && e matches ExecutorError::CommandFailed {
            status,
            stderr: se,
        } && se@ == stderr@ && status == (match code {
            Option::Some(c) => c,
            Option::None => -1i32,
        })),
{
    if success {
        Ok(stdout)
    } else {
        let status = match code {
            Option::Some(c) => c,
            Option::None => -1i32,
        };
        Err(ExecutorError::CommandFailed { status, stderr })
    }
}

/// The verdict on a finished project-creation command: success reports the
/// created project by name.
pub fn creation_verdict(name: &str, success: bool, code: Option<i32>, stderr: String) -> (r:
    Result<String, ExecutorError>)
    ensures
        success ==> (r matches Ok(o) && o@ == "Created project: "@ + name@),
        !success ==> (r matches Err(e) && e matches ExecutorError::CommandFailed {
            status,
            stderr: se,
        } && se@ == stderr@ && status == (match code {
            Option::Some(c) => c,
            Option::None => -1i32,
        })),
{
    if success {
        let mut out = String::from_str("Created project: ");
        out.append(name);
        proof {
            assert(out@ =~= "Created project: "@ + name@);
        }
        Ok(out)
    } else {
        let status = match code {
            Option::Some(c) => c,
            Option::None => -1i32,
        };
        Err(ExecutorError::CommandFailed { status, stderr })
    }
}

} // verus!
