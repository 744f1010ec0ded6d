//! The errors of pipeline operations.

use vstd::prelude::*;
use vstd::string::*;

use crate::text::{i32_text, signed_decimal, trim, trimmed};

verus! {

/// Errors that can occur during pipeline operations.
#[derive(Debug)]
pub enum PipelineError {
    /// A git command failed.
    GitCommandFailed { command: String, exit_code: i32, stderr: String },
    /// A command's output was not valid UTF-8; holds the decoder's description.
    Utf8Error(String),
    /// JSON serialization or deserialization failed; holds the description.
    JsonError(String),
    /// A stage dependency was not found.
    DependencyNotFound(String),
    /// Cycle detected in stage dependencies.
    CycleDetected,
    /// Working directory is not a git repo.
    NotAGitRepo(String),
    /// A stage has already been executed.
    StageAlreadyRun(String),
    /// An I/O operation failed; holds the description.
    Io(String),
}

/// The human-readable description of an error.
pub open spec fn error_message(e: PipelineError) -> Seq<char> {
    match e {
        PipelineError::GitCommandFailed { command, exit_code, stderr } => "git command '"@
            + command@ + "' failed (exit "@ + signed_decimal(exit_code as int) + "): "@ + trimmed(
            stderr@,
        ),
        PipelineError::Utf8Error(m) => "UTF-8 error: "@ + m@,
        PipelineError::JsonError(m) => "JSON error: "@ + m@,
        PipelineError::DependencyNotFound(name) => "dependency '"@ + name@ + "' not found"@,
        PipelineError::CycleDetected => "cycle detected in stage dependencies"@,
        PipelineError::NotAGitRepo(path) => "not a git repo: "@ + path@,
        PipelineError::StageAlreadyRun(name) => "stage '"@ + name@ + "' already run"@,
        PipelineError::Io(m) => "IO error: "@ + m@,
    }
}

impl PipelineError {
    /// The human-readable description of this error.
    pub fn message(&self) -> (text: String)
        ensures
            text@ == error_message(*self),
    {
        match self {
            PipelineError::GitCommandFailed { command, exit_code, stderr } => {
                let mut text = String::from_str("git command '");
                text.append(command.as_str());
                text.append("' failed (exit ");
                let code = i32_text(*exit_code);
                text.append(code.as_str());
                text.append("): ");
                let detail = trim(stderr.as_str());
                text.append(detail.as_str());
                text
            },
            PipelineError::Utf8Error(m) => String::from_str("UTF-8 error: ").concat(m.as_str()),
            PipelineError::JsonError(m) => String::from_str("JSON error: ").concat(m.as_str()),
            PipelineError::DependencyNotFound(name) => {
                let mut text = String::from_str("dependency '");
                text.append(name.as_str());
                text.append("' not found");
                text
            },
            PipelineError::CycleDetected => String::from_str("cycle detected in stage dependencies"),
            PipelineError::NotAGitRepo(path) => String::from_str("not a git repo: ").concat(
                path.as_str(),
            ),
            PipelineError::StageAlreadyRun(name) => {
                let mut text = String::from_str("stage '");
                text.append(name.as_str());
                text.append("' already run");
                text
            },
            PipelineError::Io(m) => String::from_str("IO error: ").concat(m.as_str()),
        }
    }
}

} // verus!
