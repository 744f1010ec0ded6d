//! How the outcome of a git invocation is read.

use vstd::prelude::*;
use vstd::string::*;

use crate::error::PipelineError;
use crate::text::{trim, trimmed, views};

verus! {

/// `parts` joined with `separator` between neighbours, as `[&str]::join` does.
pub open spec fn joined(parts: Seq<Seq<char>>, separator: Seq<char>) -> Seq<char>
    decreases parts.len(),
{
    if parts.len() == 0 {
        Seq::empty()
    } else if parts.len() == 1 {
        parts[0]
    } else {
        joined(parts.drop_last(), separator) + separator + parts.last()
    }
}

/// `parts` joined with `separator` between neighbours.
pub fn join(parts: &Vec<String>, separator: &str) -> (text: String)
    ensures
        text@ == joined(views(parts@), separator@),
{
    let n = parts.len();
    let mut text = String::new();
    let mut i: usize = 0;
    assert(views(parts@).take(0) =~= Seq::<Seq<char>>::empty());
    while i < n
        invariant
            n == parts@.len(),
            i <= n,
            text@ == joined(views(parts@).take(i as int), separator@),
        decreases n - i,
    {
        if i > 0 {
            text.append(separator);
        }
        text.append(parts[i].as_str());
        proof {
            let taken = views(parts@).take(i + 1);
            assert(taken.drop_last() =~= views(parts@).take(i as int));
            assert(taken.last() == parts@[i as int]@);
            if i == 0 {
                assert(taken[0] == parts@[0]@);
                assert(text@ =~= taken[0]);
            }
        }
        i = i + 1;
    }
    assert(views(parts@).take(n as int) =~= views(parts@));
    text
}

/// What a git invocation with arguments `args` came to, given whether it
/// exited successfully, its exit code (none when a signal ended it) and its
/// output: the trimmed stdout on success, else `GitCommandFailed` with the
/// arguments joined by spaces, the exit code (1 when there is none) and the
/// stderr.
pub fn command_outcome(
    args: &Vec<String>,
    success: bool,
    exit_code: Option<i32>,
    stdout: &str,
    stderr: String,
) -> (r: Result<String, PipelineError>)
    ensures
        success ==> (r matches Ok(out) && out@ == trimmed(stdout@)),
        !success ==> (r matches Err(PipelineError::GitCommandFailed { command, exit_code: code, stderr: e })
            && command@ == joined(views(args@), " "@) && code == (match exit_code {
            Some(c) => c,
            None => 1,
        }) && e@ == stderr@),
{
    if !success {
        let code = match exit_code {
            Some(c) => c,
            None => 1,
        };
        return Err(PipelineError::GitCommandFailed { command: join(args, " "), exit_code: code, stderr });
    }
    Ok(trim(stdout))
}

} // verus!
