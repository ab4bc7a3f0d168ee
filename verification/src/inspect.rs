//! Classification of listener-inspection outcomes.
//!
//! Inspection is a capability the scan invokes, not owns: some host command is
//! run for a port found open, and whatever it observed is handed back here as
//! plain values. This module decides which of the three inspection outcomes
//! those observations mean; the returned text stays opaque payload.

use vstd::prelude::*;
use vstd::string::StringExecFns;

verus! {

/// The outcome of inspecting the listener behind an open port.
#[derive(Debug)]
pub enum InspectionResult {
    /// The inspection command exited successfully; its decoded output.
    Success(String),
    /// The command exited with a non-zero code; the code and its decoded
    /// error output.
    CommandFailed(i32, String),
    /// The command could not be run to completion at all: it failed to
    /// launch, its output was not decodable, or it was ended by a signal.
    ExecutionError(String),
}

/// The mathematical value of an [`InspectionResult`]: text as character
/// sequences.
pub enum InspectionView {
    Success(Seq<char>),
    CommandFailed(int, Seq<char>),
    ExecutionError(Seq<char>),
}

impl View for InspectionResult {
    type V = InspectionView;

    open spec fn view(&self) -> InspectionView {
        match self {
            InspectionResult::Success(t) => InspectionView::Success(t@),
            InspectionResult::CommandFailed(c, t) => InspectionView::CommandFailed(*c as int, t@),
            InspectionResult::ExecutionError(t) => InspectionView::ExecutionError(t@),
        }
    }
}

/// What the host environment observed when the inspection command was run:
/// either the launch itself failed, or the command finished and left an exit
/// status and its two output streams (`None` where a stream was not valid
/// text).
pub enum ExecEvent {
    LaunchFailed(String),
    Finished { success: bool, code: Option<i32>, stdout: Option<String>, stderr: Option<String> },
}

/// The mathematical value of an [`ExecEvent`].
pub enum ExecEventView {
    LaunchFailed(Seq<char>),
    Finished { success: bool, code: Option<int>, stdout: Option<Seq<char>>, stderr: Option<Seq<char>> },
}

impl View for ExecEvent {
    type V = ExecEventView;

    open spec fn view(&self) -> ExecEventView {
        match self {
            ExecEvent::LaunchFailed(m) => ExecEventView::LaunchFailed(m@),
            ExecEvent::Finished { success, code, stdout, stderr } => (ExecEventView::Finished {
                success: *success,
                code: match code {
                    Some(c) => Some(*c as int),
                    None => None,
                },
                stdout: match stdout {
                    Some(t) => Some(t@),
                    None => None,
                },
                stderr: match stderr {
                    Some(t) => Some(t@),
                    None => None,
                },
            }),
        }
    }
}

/// The message attached when a finished command's output stream was not
/// decodable text.
pub open spec fn undecodable_msg() -> Seq<char> {
    "inspection output was not valid text"@
}

/// The message attached when the command was ended by a signal and so left no
/// exit code.
pub open spec fn signal_msg() -> Seq<char> {
    "process terminated by signal"@
}

/// The inspection outcome an execution event means: success with its output
/// when the command exited cleanly, the exit code with the error output when
/// it exited non-zero, and an execution error when it could not be launched,
/// left undecodable output, or was ended by a signal.
pub open spec fn spec_classify(ev: ExecEventView) -> InspectionView {
    match ev {
        ExecEventView::LaunchFailed(msg) => InspectionView::ExecutionError(msg),
        ExecEventView::Finished { success, code, stdout, stderr } => {
            if success {
                match stdout {
                    Some(text) => InspectionView::Success(text),
                    None => InspectionView::ExecutionError(undecodable_msg()),
                }
            } else {
                match code {
                    Some(c) => match stderr {
                        Some(text) => InspectionView::CommandFailed(c, text),
                        None => InspectionView::ExecutionError(undecodable_msg()),
                    },
                    None => InspectionView::ExecutionError(signal_msg()),
                }
            }
        },
    }
}

/// Decides the inspection outcome from what the host observed of the
/// inspection command.
pub fn classify(ev: ExecEvent) -> (r: InspectionResult)
    ensures
        r@ == spec_classify(ev@),
{
    match ev {
        ExecEvent::LaunchFailed(msg) => InspectionResult::ExecutionError(msg),
        ExecEvent::Finished { success, code, stdout, stderr } => {
            if success {
                match stdout {
                    Some(text) => InspectionResult::Success(text),
                    None => InspectionResult::ExecutionError(
                        String::from_str("inspection output was not valid text"),
                    ),
                }
            } else {
                match code {
                    Some(c) => match stderr {
                        Some(text) => InspectionResult::CommandFailed(c, text),
                        None => InspectionResult::ExecutionError(
                            String::from_str("inspection output was not valid text"),
                        ),
                    },
                    None => InspectionResult::ExecutionError(
                        String::from_str("process terminated by signal"),
                    ),
                }
            }
        },
    }
}

} // verus!
