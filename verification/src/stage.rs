//! Pipeline stages and the results that running them produces.

use vstd::prelude::*;
use vstd::string::*;
use vstd::utf8::*;

use crate::text::{i32_text, signed_decimal, views};

verus! {

/// A single pipeline stage: a name, a shell command and the names of the
/// stages that must succeed before it runs.
#[derive(Debug, Clone, PartialEq)]
pub struct Stage {
    pub name: String,
    pub command: String,
    pub dependencies: Vec<String>,
}

/// The result of executing (or skipping) a single pipeline stage.
#[derive(Debug, Clone, PartialEq)]
pub struct StageResult {
    pub stage: String,
    pub success: bool,
    pub exit_code: i32,
    pub stdout: String,
    pub stderr: String,
    pub duration_ms: u64,
    pub commit_sha: String,
}

/// A stage result with its texts as character sequences.
pub struct StageResultView {
    pub stage: Seq<char>,
    pub success: bool,
    pub exit_code: i32,
    pub stdout: Seq<char>,
    pub stderr: Seq<char>,
    pub duration_ms: u64,
    pub commit_sha: Seq<char>,
}

impl View for StageResult {
    type V = StageResultView;

    open spec fn view(&self) -> StageResultView {
        StageResultView {
            stage: self.stage@,
            success: self.success,
            exit_code: self.exit_code,
            stdout: self.stdout@,
            stderr: self.stderr@,
            duration_ms: self.duration_ms,
            commit_sha: self.commit_sha@,
        }
    }
}

/// The most bytes of a stage's stdout or stderr that a result keeps.
pub const OUTPUT_LIMIT: usize = 10000;

/// The exit code that marks a stage that was not run.
pub const NOT_RUN_EXIT_CODE: i32 = -1;

/// The result recorded for a stage that was skipped because `dependency` failed.
pub open spec fn skipped_result(stage: Seq<char>, dependency: Seq<char>) -> StageResultView {
    StageResultView {
        stage,
        success: false,
        exit_code: NOT_RUN_EXIT_CODE,
        stdout: Seq::empty(),
        stderr: "skipped: dependency '"@ + dependency + "' failed"@,
        duration_ms: 0,
        commit_sha: Seq::empty(),
    }
}

/// The text kept of a stage's output: all of it when its UTF-8 encoding has at
/// most `OUTPUT_LIMIT` bytes, else the characters that make up its first
/// `OUTPUT_LIMIT` bytes.
pub open spec fn is_capped_output(text: Seq<char>, kept: Seq<char>) -> bool {
    if encode_utf8(text).len() <= OUTPUT_LIMIT {
        kept == text
    } else {
        &&& kept == text.take(kept.len() as int)
        &&& encode_utf8(kept).len() == OUTPUT_LIMIT
    }
}

/// Whether `text` can be cut at `OUTPUT_LIMIT` bytes: it is short enough to
/// keep whole, or that byte offset falls between two characters.
pub open spec fn can_cap_output(text: Seq<char>) -> bool {
    encode_utf8(text).len() <= OUTPUT_LIMIT || is_char_boundary(
        encode_utf8(text),
        OUTPUT_LIMIT as int,
    )
}

/// Cuts a stage's output to at most `OUTPUT_LIMIT` bytes. The cut must fall
/// between two characters, as slicing a `str` requires.
pub fn capped_output(text: String) -> (kept: String)
    requires
        can_cap_output(text@),
    ensures
        is_capped_output(text@, kept@),
{
    let byte_len = text.as_str().as_bytes().len();
    if byte_len > OUTPUT_LIMIT {
        let (head, _) = text.as_str().split_at(OUTPUT_LIMIT);
        let kept = head.to_owned();
        proof {
            let bytes = encode_utf8(text@);
            let k = OUTPUT_LIMIT as int;
            broadcast use encode_utf8_valid_utf8, encode_utf8_decode_utf8;

            decode_utf8_split(bytes, k);
            assert(decode_utf8(bytes.subrange(0, k)) == kept@);
            assert(text@ == kept@ + decode_utf8(bytes.subrange(k, bytes.len() as int)));
            assert(kept@ =~= text@.take(kept@.len() as int));
        }
        kept
    } else {
        text
    }
}

impl Stage {
    /// A stage with the given name and command and no dependencies.
    pub fn new(name: &str, command: &str) -> (stage: Stage)
        ensures
            stage.name@ == name@,
            stage.command@ == command@,
            stage.dependencies@ == Seq::<String>::empty(),
    {
        Stage { name: name.to_owned(), command: command.to_owned(), dependencies: Vec::new() }
    }

    /// This stage with one more dependency, on the stage named `dep`.
    pub fn depends_on(self, dep: &str) -> (stage: Stage)
        ensures
            stage.name == self.name,
            stage.command == self.command,
            views(stage.dependencies@) == views(self.dependencies@).push(dep@),
    {
        let mut stage = self;
        stage.dependencies.push(dep.to_owned());
        proof {
            assert(views(stage.dependencies@) =~= views(self.dependencies@).push(dep@));
        }
        stage
    }

    /// The git branch that holds this stage's result commits: `ci/<name>`.
    pub fn branch_name(&self) -> (branch: String)
        ensures
            branch@ == "ci/"@ + self.name@,
    {
        let mut branch = String::from_str("ci/");
        branch.append(self.name.as_str());
        branch
    }

    /// The file that carries this stage's result into its commit:
    /// `.ci-result-<name>`.
    pub fn result_file_name(&self) -> (file: String)
        ensures
            file@ == ".ci-result-"@ + self.name@,
    {
        let mut file = String::from_str(".ci-result-");
        file.append(self.name.as_str());
        file
    }

    /// The message of the commit that records this stage's result:
    /// `ci: <name> PASSED (exit <code>)` or `ci: <name> FAILED (exit <code>)`.
    pub fn commit_message(&self, success: bool, exit_code: i32) -> (message: String)
        ensures
            message@ == "ci: "@ + self.name@ + " "@ + (if success {
                "PASSED"@
            } else {
                "FAILED"@
            }) + " (exit "@ + signed_decimal(exit_code as int) + ")"@,
    {
        let mut message = String::from_str("ci: ");
        message.append(self.name.as_str());
        message.append(" ");
        message.append(
            if success {
                "PASSED"
            } else {
                "FAILED"
            },
        );
        message.append(" (exit ");
        let code = i32_text(exit_code);
        message.append(code.as_str());
        message.append(")");
        message
    }
}

impl StageResult {
    /// The result of a stage that ran: its outputs are cut to `OUTPUT_LIMIT`
    /// bytes each, everything else is kept as given.
    pub fn executed(
        stage: &Stage,
        success: bool,
        exit_code: i32,
        stdout: String,
        stderr: String,
        duration_ms: u64,
        commit_sha: String,
    ) -> (result: StageResult)
        requires
            can_cap_output(stdout@),
            can_cap_output(stderr@),
        ensures
            result.stage@ == stage.name@,
            result.success == success,
            result.exit_code == exit_code,
            is_capped_output(stdout@, result.stdout@),
            is_capped_output(stderr@, result.stderr@),
            result.duration_ms == duration_ms,
            result.commit_sha@ == commit_sha@,
    {
        StageResult {
            stage: stage.name.clone(),
            success,
            exit_code,
            stdout: capped_output(stdout),
            stderr: capped_output(stderr),
            duration_ms,
            commit_sha,
        }
    }

    /// The result recorded for the stage `stage` when its dependency
    /// `dependency` has failed.
    pub fn skipped(stage: &String, dependency: &String) -> (result: StageResult)
        ensures
            result@ == skipped_result(stage@, dependency@),
    {
        let mut stderr = String::from_str("skipped: dependency '");
        stderr.append(dependency.as_str());
        stderr.append("' failed");
        StageResult {
            stage: stage.clone(),
            success: false,
            exit_code: NOT_RUN_EXIT_CODE,
            stdout: String::new(),
            stderr,
            duration_ms: 0,
            commit_sha: String::new(),
        }
    }
}

} // verus!
