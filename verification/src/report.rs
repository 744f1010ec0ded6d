//! Pipeline reports: the stage results read back from the `ci/*` branches and
//! their git notes, summarised and rendered as text.

use vstd::prelude::*;
use vstd::string::*;

use crate::stage::{StageResult, StageResultView, NOT_RUN_EXIT_CODE};
use crate::text::{
    char_position, chars_of, decimal, digit_char, i32_text, lemma_char_position, lines, lines_of,
    signed_decimal, trim, trimmed, u64_text, usize_text, views,
};
use crate::run::result_views;

verus! {

/// Reads pipeline results from git notes and produces a status summary.
pub struct PipelineReport {
    repo_path: String,
}

/// Summary of a pipeline run.
#[derive(Debug, Clone)]
pub struct PipelineSummary {
    pub total_stages: usize,
    pub passed: usize,
    pub failed: usize,
    pub skipped: usize,
    pub results: Vec<StageResult>,
    pub overall_success: bool,
}

/// The prefix that names a pipeline branch.
pub open spec fn ci_prefix() -> Seq<char> {
    seq!['c', 'i', '/']
}

/// `s` with every leading repetition of `prefix` removed, as
/// `str::trim_start_matches` does for a non-empty pattern.
pub open spec fn without_prefixes(s: Seq<char>, prefix: Seq<char>) -> Seq<char>
    decreases s.len(),
{
    if prefix.len() > 0 && prefix.len() <= s.len() && s.take(prefix.len() as int) == prefix {
        without_prefixes(s.skip(prefix.len() as int), prefix)
    } else {
        s
    }
}

/// The (stage, commit) pair that one line of `git branch --list 'ci/*'
/// --format='%(refname:short) %(objectname:short)'` names: the trimmed line is
/// cut at its first space, the `ci/` prefixes come off the branch. A line
/// without a space names nothing.
pub open spec fn branch_entry(line: Seq<char>) -> Option<(Seq<char>, Seq<char>)> {
    let t = trimmed(line);
    let k = char_position(t, ' ');
    if k < t.len() {
        Some((without_prefixes(t.take(k as int), ci_prefix()), t.skip(k + 1int)))
    } else {
        None
    }
}

/// The (stage, commit) pairs that a branch listing names, in listing order.
pub open spec fn branch_entries(lines: Seq<Seq<char>>) -> Seq<(Seq<char>, Seq<char>)>
    decreases lines.len(),
{
    if lines.len() == 0 {
        seq![]
    } else {
        let earlier = branch_entries(lines.drop_last());
        match branch_entry(lines.last()) {
            Some(entry) => earlier.push(entry),
            None => earlier,
        }
    }
}

/// The views of (stage, commit) pairs.
pub open spec fn pair_views(pairs: Seq<(String, String)>) -> Seq<(Seq<char>, Seq<char>)> {
    pairs.map_values(|p: (String, String)| (p.0@, p.1@))
}

/// The result that stands for a stage whose commit carries no note.
pub open spec fn missing_note_result(stage: Seq<char>, commit_sha: Seq<char>) -> StageResultView {
    StageResultView {
        stage,
        success: false,
        exit_code: NOT_RUN_EXIT_CODE,
        stdout: Seq::empty(),
        stderr: "no note found"@,
        duration_ms: 0,
        commit_sha,
    }
}

/// The result reported for a commit: its note when it has one, else the
/// stand-in of `missing_note_result`.
pub open spec fn note_or_missing(
    commit: (Seq<char>, Seq<char>),
    note: Option<StageResultView>,
) -> StageResultView {
    match note {
        Some(r) => r,
        None => missing_note_result(commit.0, commit.1),
    }
}

/// The views of optional results.
pub open spec fn note_views(notes: Seq<Option<StageResult>>) -> Seq<Option<StageResultView>> {
    notes.map_values(
        |n: Option<StageResult>|
            match n {
                Some(r) => Some(r@),
                None => None,
            },
    )
}

/// How many results are successes.
pub open spec fn count_passed(results: Seq<StageResultView>) -> nat {
    results.filter(|r: StageResultView| r.success).len()
}

/// How many results are failures of stages that ran.
pub open spec fn count_failed(results: Seq<StageResultView>) -> nat {
    results.filter(|r: StageResultView| !r.success && r.exit_code != NOT_RUN_EXIT_CODE).len()
}

/// How many results are of stages that did not run.
pub open spec fn count_skipped(results: Seq<StageResultView>) -> nat {
    results.filter(|r: StageResultView| !r.success && r.exit_code == NOT_RUN_EXIT_CODE).len()
}

/// Every result is a success.
pub open spec fn all_succeeded(results: Seq<StageResultView>) -> bool {
    forall|i: int| 0 <= i < results.len() ==> #[trigger] results[i].success
}

/// The summary describes exactly `results`.
pub open spec fn summarizes(summary: PipelineSummary, results: Seq<StageResultView>) -> bool {
    &&& result_views(summary.results@) == results
    &&& summary.total_stages == results.len()
    &&& summary.passed == count_passed(results)
    &&& summary.failed == count_failed(results)
    &&& summary.skipped == count_skipped(results)
    &&& summary.overall_success == all_succeeded(results)
}

impl PipelineReport {
    /// The path of the repository the report reads.
    pub closed spec fn repo(&self) -> Seq<char> {
        self.repo_path@
    }

    /// Create a new report reader for the given repo.
    pub fn new(repo_path: &str) -> (report: PipelineReport)
        ensures
            report.repo() == repo_path@,
    {
        PipelineReport { repo_path: repo_path.to_owned() }
    }

    /// The path of the repository the report reads.
    pub fn repo_path(&self) -> (path: &str)
        ensures
            path@ == self.repo(),
    {
        self.repo_path.as_str()
    }

    /// The `ci/*` branches and their head commits, read from the output of
    /// `git branch --list 'ci/*' --format='%(refname:short) %(objectname:short)'`:
    /// one (stage, commit) pair for each line that holds a space.
    pub fn list_ci_branches(output: &str) -> (branches: Vec<(String, String)>)
        ensures
            pair_views(branches@) == branch_entries(lines_of(output@)),
    {
        let all = lines(output);
        let n = all.len();
        let mut branches: Vec<(String, String)> = Vec::new();
        let mut i: usize = 0;
        while i < n
            invariant
                n == all@.len(),
                i <= n,
                views(all@) == lines_of(output@),
                pair_views(branches@) == branch_entries(views(all@).take(i as int)),
            decreases n - i,
        {
            let ghost old_branches = branches@;
            let entry = Self::branch_line(all[i].as_str());
            proof {
                assert(views(all@)[i as int] == all@[i as int]@);
                let taken = views(all@).take(i + 1);
                assert(taken.drop_last() =~= views(all@).take(i as int));
                assert(taken.last() == all@[i as int]@);
            }
            match entry {
                Some(pair) => {
                    branches.push(pair);
                    assert(pair_views(branches@) =~= pair_views(old_branches).push(
                        branch_entry(all@[i as int]@)->0,
                    ));
                },
                None => {},
            }
            i = i + 1;
        }
        assert(views(all@).take(n as int) =~= views(all@));
        branches
    }

    /// The (stage, commit) pair that one line of the branch listing names.
    fn branch_line(line: &str) -> (entry: Option<(String, String)>)
        ensures
            match entry {
                Some(pair) => branch_entry(line@) == Some((pair.0@, pair.1@)),
                None => branch_entry(line@) is None,
            },
    {
        let t = trim(line);
        let cs = chars_of(t.as_str());
        let n = cs.len();
        let mut k: usize = 0;
        while k < n && cs[k] != ' '
            invariant
                cs@ == t@,
                n == cs@.len(),
                k <= n,
                forall|i: int| 0 <= i < k ==> #[trigger] t@[i] != ' ',
            decreases n - k,
        {
            k = k + 1;
        }
        proof {
            lemma_char_position(t@, ' ', k as int);
        }
        if k == n {
            return None;
        }
        let ghost head = t@.take(k as int);
        let mut a: usize = 0;
        proof {
            assert(head.skip(0) =~= head);
        }
        while k - a >= 3 && cs[a] == 'c' && cs[a + 1] == 'i' && cs[a + 2] == '/'
            invariant
                cs@ == t@,
                n == cs@.len(),
                k < n,
                a <= k,
                head == t@.take(k as int),
                without_prefixes(head, ci_prefix()) == without_prefixes(head.skip(a as int), ci_prefix()),
            decreases k - a,
        {
            proof {
                let rest = head.skip(a as int);
                assert(rest.take(3) =~= ci_prefix());
                assert(rest.skip(3) =~= head.skip(a + 3));
            }
            a = a + 3;
        }
        proof {
            let rest = head.skip(a as int);
            if 3 <= rest.len() && rest.take(3) == ci_prefix() {
                assert(rest.take(3)[0] == cs@[a as int]);
                assert(rest.take(3)[1] == cs@[a + 1]);
                assert(rest.take(3)[2] == cs@[a + 2]);
            }
            assert(rest =~= t@.subrange(a as int, k as int));
        }
        let branch = t.as_str().substring_char(a, k).to_owned();
        let sha = t.as_str().substring_char(k + 1, n).to_owned();
        proof {
            assert(t@.skip(k + 1) =~= t@.subrange(k + 1, n as int));
        }
        Some((branch, sha))
    }

    /// The results of the listed branches, given the note read from each
    /// branch's commit (`None` where the commit has no note): each note as
    /// it is, or a failed stand-in saying that no note was found.
    pub fn read_all_notes(commits: &Vec<(String, String)>, notes: Vec<Option<StageResult>>) -> (results: Vec<StageResult>)
        requires
            notes@.len() == commits@.len(),
        ensures
            results@.len() == commits@.len(),
            forall|i: int|
                0 <= i < commits@.len() ==> #[trigger] result_views(results@)[i] == note_or_missing(
                    pair_views(commits@)[i],
                    note_views(notes@)[i],
                ),
    {
        let n = commits.len();
        let mut results: Vec<StageResult> = Vec::new();
        let mut i: usize = 0;
        for note in it: notes
            invariant
                n == commits@.len(),
                it.seq() == notes@,
                n == notes@.len(),
                i == it.index(),
                results@.len() == i,
                forall|k: int|
                    0 <= k < i ==> #[trigger] result_views(results@)[k] == note_or_missing(
                        pair_views(commits@)[k],
                        note_views(notes@)[k],
                    ),
        {
            let ghost old_results = results@;
            let result = match note {
                Some(r) => r,
                None => {
                    let stderr = String::from_str("no note found");
                    StageResult {
                        stage: commits[i].0.clone(),
                        success: false,
                        exit_code: NOT_RUN_EXIT_CODE,
                        stdout: String::new(),
                        stderr,
                        duration_ms: 0,
                        commit_sha: commits[i].1.clone(),
                    }
                },
            };
            results.push(result);
            proof {
                assert(result_views(results@) =~= result_views(old_results).push(result@));
            }
            i = i + 1;
        }
        results
    }

    /// Summarise the results read back from a repository.
    pub fn generate(results: Vec<StageResult>) -> (summary: PipelineSummary)
        ensures
            summarizes(summary, result_views(results@)),
    {
        let n = results.len();
        let ghost all = result_views(results@);
        let mut passed: usize = 0;
        let mut failed: usize = 0;
        let mut skipped: usize = 0;
        let mut overall_success = true;
        let mut i: usize = 0;
        while i < n
            invariant
                n == results@.len(),
                all == result_views(results@),
                i <= n,
                passed == count_passed(all.take(i as int)),
                failed == count_failed(all.take(i as int)),
                skipped == count_skipped(all.take(i as int)),
                passed + failed + skipped == i,
                overall_success == all_succeeded(all.take(i as int)),
            decreases n - i,
        {
            let r = &results[i];
            proof {
                reveal_with_fuel(Seq::<_>::filter, 1);
                assert(all.take(i + 1).drop_last() =~= all.take(i as int));
                assert(all.take(i + 1).last() == r@);
            }
            if r.success {
                passed = passed + 1;
            } else if r.exit_code != NOT_RUN_EXIT_CODE {
                failed = failed + 1;
            } else {
                skipped = skipped + 1;
            }
            if !r.success {
                overall_success = false;
                assert(!all.take(i + 1)[i as int].success);
            } else {
                let ghost before = all.take(i as int);
                let ghost after = all.take(i + 1);
                proof {
                    if all_succeeded(before) {
                        assert forall|k: int| 0 <= k < i + 1 implies #[trigger] after[k].success by {
                            if k < i {
                                assert(after[k] == before[k]);
                            }
                        }
                    } else {
                        let k = choose|k: int| 0 <= k < before.len() && !#[trigger] before[k].success;
                        assert(after[k] == before[k]);
                    }
                }
            }
            i = i + 1;
        }
        assert(all.take(n as int) =~= all);
        PipelineSummary { total_stages: n, passed, failed, skipped, results, overall_success }
    }
}

/// The passed, failed and skipped counts of a summary add up to the number
/// of results: each result is exactly one of the three.
pub proof fn law_counts_partition_results(results: Seq<StageResultView>)
    ensures
        count_passed(results) + count_failed(results) + count_skipped(results) == results.len(),
    decreases results.len(),
{
    reveal_with_fuel(Seq::<_>::filter, 1);
    if results.len() > 0 {
        law_counts_partition_results(results.drop_last());
    }
}

/// A summary reports overall success exactly when nothing failed and nothing
/// was skipped.
pub proof fn law_overall_success_means_no_failures(results: Seq<StageResultView>)
    ensures
        all_succeeded(results) <==> (count_failed(results) == 0 && count_skipped(results) == 0),
    decreases results.len(),
{
    reveal_with_fuel(Seq::<_>::filter, 1);
    if results.len() > 0 {
        law_overall_success_means_no_failures(results.drop_last());
        let earlier = results.drop_last();
        if all_succeeded(results) {
            assert(results.last().success);
            assert forall|i: int| 0 <= i < earlier.len() implies #[trigger] earlier[i].success by {
                assert(earlier[i] == results[i]);
            }
        } else if all_succeeded(earlier) && results.last().success {
            assert forall|i: int| 0 <= i < results.len() implies #[trigger] results[i].success by {
                if i < earlier.len() {
                    assert(earlier[i] == results[i]);
                }
            }
        }
    }
}

/// The most lines of a stage's stdout or stderr that a report shows.
pub const SHOWN_LINES: usize = 5;

/// The first `SHOWN_LINES` of `lines` (all of them when there are fewer).
pub open spec fn shown(lines: Seq<Seq<char>>) -> Seq<Seq<char>> {
    if lines.len() <= SHOWN_LINES {
        lines
    } else {
        lines.take(SHOWN_LINES as int)
    }
}

/// Each line on a row of its own behind `marker`.
pub open spec fn quoted(lines: Seq<Seq<char>>, marker: Seq<char>) -> Seq<char>
    decreases lines.len(),
{
    if lines.len() == 0 {
        Seq::empty()
    } else {
        quoted(lines.drop_last(), marker) + marker + lines.last() + "\n"@
    }
}

/// The icon of a result: passed, skipped or failed.
pub open spec fn result_icon(r: StageResultView) -> Seq<char> {
    if r.success {
        "\u{2705}"@
    } else if r.exit_code == NOT_RUN_EXIT_CODE {
        "\u{23ed}\u{fe0f} "@
    } else {
        "\u{274c}"@
    }
}

/// The first row of a report for one result: its icon, stage, exit code and
/// duration.
pub open spec fn result_headline(r: StageResultView) -> Seq<char> {
    "  "@ + result_icon(r) + " "@ + r.stage + " (exit "@ + signed_decimal(r.exit_code as int)
        + ", "@ + decimal(r.duration_ms as nat) + "ms)\n"@
}

/// The rows of a report for one result: its headline, then up to
/// `SHOWN_LINES` lines of its stdout, then, for a failure, up to
/// `SHOWN_LINES` lines of its stderr.
pub open spec fn result_text(r: StageResultView) -> Seq<char> {
    result_headline(r) + (if r.stdout.len() > 0 {
        quoted(shown(lines_of(r.stdout)), "     > "@)
    } else {
        Seq::empty()
    }) + (if !r.success && r.stderr.len() > 0 {
        quoted(shown(lines_of(r.stderr)), "     ! "@)
    } else {
        Seq::empty()
    })
}

/// The rows of a report for each result, in order.
pub open spec fn results_text(results: Seq<StageResultView>) -> Seq<char>
    decreases results.len(),
{
    if results.len() == 0 {
        Seq::empty()
    } else {
        results_text(results.drop_last()) + result_text(results.last())
    }
}

/// The first rows of a report on `summary`: its counts and overall verdict.
pub open spec fn summary_header(summary: PipelineSummary) -> Seq<char> {
    "Pipeline Report: "@ + decimal(summary.total_stages as nat) + " stages\n"@
        + "  \u{2705} Passed: "@ + decimal(summary.passed as nat) + "  \u{274c} Failed: "@
        + decimal(summary.failed as nat) + "  \u{23ed}\u{fe0f}  Skipped: "@ + decimal(
        summary.skipped as nat,
    ) + "\n"@ + "  Overall: "@ + (if summary.overall_success {
        "\u{2705} SUCCESS"@
    } else {
        "\u{274c} FAILURE"@
    }) + "\n"@ + "\nStage Results:\n"@
}

/// The text of a report on `summary`.
pub open spec fn summary_text(summary: PipelineSummary) -> Seq<char> {
    summary_header(summary) + results_text(result_views(summary.results@))
}

/// `part` occurs somewhere in `text`.
pub open spec fn occurs_in(part: Seq<char>, text: Seq<char>) -> bool {
    exists|i: int|
        0 <= i && i + part.len() <= text.len() && #[trigger] text.subrange(i, i + part.len()) == part
}

proof fn lemma_results_text_concat(a: Seq<StageResultView>, b: Seq<StageResultView>)
    ensures
        results_text(a + b) == results_text(a) + results_text(b),
    decreases b.len(),
{
    if b.len() == 0 {
        assert(a + b =~= a);
        assert(results_text(a) + results_text(b) =~= results_text(a));
    } else {
        assert((a + b).drop_last() =~= a + b.drop_last());
        assert((a + b).last() == b.last());
        lemma_results_text_concat(a, b.drop_last());
        assert(results_text(a + b) =~= results_text(a) + results_text(b));
    }
}

proof fn lemma_occurs_transitive(part: Seq<char>, middle: Seq<char>, text: Seq<char>)
    requires
        occurs_in(part, middle),
        occurs_in(middle, text),
    ensures
        occurs_in(part, text),
{
    let i = choose|i: int|
        0 <= i && i + part.len() <= middle.len() && #[trigger] middle.subrange(i, i + part.len())
            == part;
    let j = choose|j: int|
        0 <= j && j + middle.len() <= text.len() && #[trigger] text.subrange(j, j + middle.len())
            == middle;
    assert(text.subrange(j + i, j + i + part.len()) =~= part) by {
        assert forall|t: int| 0 <= t < part.len() implies text.subrange(j + i, j + i + part.len())[t]
            == part[t] by {
            assert(middle.subrange(i, i + part.len())[t] == middle[i + t]);
            assert(text.subrange(j, j + middle.len())[i + t] == text[j + i + t]);
        }
    }
}

proof fn lemma_headline_parts(r: StageResultView)
    ensures
        occurs_in(result_icon(r), result_headline(r)),
        occurs_in(r.stage, result_headline(r)),
{
    reveal_strlit("  ");
    reveal_strlit(" ");
    let h = result_headline(r);
    let icon = result_icon(r);
    let lead = "  "@ + icon + " "@;
    let tail = " (exit "@ + signed_decimal(r.exit_code as int) + ", "@ + decimal(
        r.duration_ms as nat,
    ) + "ms)\n"@;
    assert(h =~= lead + r.stage + tail);
    assert(h.subrange(2, 2 + icon.len() as int) =~= icon);
    assert(h.subrange(lead.len() as int, (lead.len() + r.stage.len()) as int) =~= r.stage);
}

/// A report has a row for every result: its headline, with the result's
/// icon and stage name, appears in the report's text.
#[verifier::spinoff_prover]
#[verifier::rlimit(40)]
pub proof fn law_report_lists_every_result(summary: PipelineSummary, k: int)
    requires
        0 <= k < summary.results@.len(),
    ensures
        occurs_in(result_headline(summary.results@[k]@), summary_text(summary)),
        occurs_in(result_icon(summary.results@[k]@), summary_text(summary)),
        occurs_in(summary.results@[k].stage@, summary_text(summary)),
{
    let rv = result_views(summary.results@);
    let r = rv[k];
    assert(r == summary.results@[k]@);
    let before = rv.take(k);
    let after = rv.skip(k + 1);
    assert(rv =~= before + seq![r] + after);
    lemma_results_text_concat(before + seq![r], after);
    lemma_results_text_concat(before, seq![r]);
    let none = seq![r].drop_last();
    assert(none =~= Seq::<StageResultView>::empty());
    assert(results_text(none) == Seq::<char>::empty());
    assert(results_text(seq![r]) =~= result_text(r));
    let head = summary_header(summary) + results_text(before);
    let text = summary_text(summary);
    let headline = result_headline(r);
    let rest = result_text(r).skip(headline.len() as int) + results_text(after);
    assert(result_text(r) =~= headline + result_text(r).skip(headline.len() as int));
    assert(text =~= head + headline + rest);
    let i = head.len() as int;
    assert(text.subrange(i, i + headline.len()) =~= headline);
    lemma_headline_parts(r);
    lemma_occurs_transitive(result_icon(r), headline, text);
    lemma_occurs_transitive(r.stage, headline, text);
}

/// Append each of the first `SHOWN_LINES` lines of `text` to `out` behind `marker`.
fn append_quoted(out: &mut String, text: &str, marker: &str)
    ensures
        final(out)@ == old(out)@ + quoted(shown(lines_of(text@)), marker@),
{
    let all = lines(text);
    let n = if all.len() <= SHOWN_LINES {
        all.len()
    } else {
        SHOWN_LINES
    };
    let ghost start = out@;
    let ghost picked = shown(lines_of(text@));
    assert(picked =~= views(all@).take(n as int));
    let mut i: usize = 0;
    assert(quoted(picked.take(0), marker@) =~= Seq::<char>::empty()) by {
        assert(picked.take(0).len() == 0);
    }
    assert(out@ =~= start + quoted(picked.take(0), marker@));
    while i < n
        invariant
            n <= all@.len(),
            n == picked.len(),
            picked == views(all@).take(n as int),
            i <= n,
            out@ == start + quoted(picked.take(i as int), marker@),
        decreases n - i,
    {
        out.append(marker);
        out.append(all[i].as_str());
        out.append("\n");
        proof {
            let taken = picked.take(i + 1);
            assert(taken.drop_last() =~= picked.take(i as int));
            assert(taken.last() == all@[i as int]@);
            assert(out@ =~= start + quoted(taken, marker@));
        }
        i = i + 1;
    }
    assert(picked.take(n as int) =~= picked);
}

/// The first row of a report for one result.
fn headline(r: &StageResult) -> (text: String)
    ensures
        text@ == result_headline(r@),
{
    let mut text = String::from_str("  ");
    let icon = if r.success {
        "\u{2705}"
    } else if r.exit_code == NOT_RUN_EXIT_CODE {
        "\u{23ed}\u{fe0f} "
    } else {
        "\u{274c}"
    };
    assert(icon@ == result_icon(r@));
    text.append(icon);
    text.append(" ");
    text.append(r.stage.as_str());
    text.append(" (exit ");
    let code = i32_text(r.exit_code);
    text.append(code.as_str());
    text.append(", ");
    let duration = u64_text(r.duration_ms);
    text.append(duration.as_str());
    text.append("ms)\n");
    text
}

/// Append the rows of a report for one result to `out`.
fn append_result(out: &mut String, r: &StageResult)
    ensures
        final(out)@ == old(out)@ + result_text(r@),
{
    let ghost start = out@;
    let head = headline(r);
    out.append(head.as_str());
    let ghost headline_end = out@;
    if !r.stdout.as_str().is_empty() {
        append_quoted(out, r.stdout.as_str(), "     > ");
    }
    let ghost with_stdout = out@;
    if !r.success && !r.stderr.as_str().is_empty() {
        append_quoted(out, r.stderr.as_str(), "     ! ");
    }
    proof {
        let stdout_part = if r.stdout@.len() > 0 {
            quoted(shown(lines_of(r.stdout@)), "     > "@)
        } else {
            Seq::empty()
        };
        let stderr_part = if !r.success && r.stderr@.len() > 0 {
            quoted(shown(lines_of(r.stderr@)), "     ! "@)
        } else {
            Seq::empty()
        };
        assert(with_stdout =~= headline_end + stdout_part);
        assert(out@ =~= with_stdout + stderr_part);
        assert(out@ =~= start + (result_headline(r@) + stdout_part + stderr_part));
    }
}

impl PipelineReport {
    /// Format a summary as a human-readable report.
    pub fn format_summary(summary: &PipelineSummary) -> (text: String)
        ensures
            text@ == summary_text(*summary),
    {
        let mut out = String::from_str("Pipeline Report: ");
        let total = usize_text(summary.total_stages);
        out.append(total.as_str());
        out.append(" stages\n");
        out.append("  \u{2705} Passed: ");
        let passed = usize_text(summary.passed);
        out.append(passed.as_str());
        out.append("  \u{274c} Failed: ");
        let failed = usize_text(summary.failed);
        out.append(failed.as_str());
        out.append("  \u{23ed}\u{fe0f}  Skipped: ");
        let skipped = usize_text(summary.skipped);
        out.append(skipped.as_str());
        out.append("\n");
        out.append("  Overall: ");
        out.append(
            if summary.overall_success {
                "\u{2705} SUCCESS"
            } else {
                "\u{274c} FAILURE"
            },
        );
        out.append("\n");
        out.append("\nStage Results:\n");
        let ghost header = out@;
        let ghost all = result_views(summary.results@);
        let n = summary.results.len();
        let mut i: usize = 0;
        assert(out@ =~= header + results_text(all.take(0))) by {
            assert(all.take(0).len() == 0);
        }
        while i < n
            invariant
                n == summary.results@.len(),
                all == result_views(summary.results@),
                i <= n,
                out@ == header + results_text(all.take(i as int)),
            decreases n - i,
        {
            append_result(&mut out, &summary.results[i]);
            proof {
                let taken = all.take(i + 1);
                assert(taken.drop_last() =~= all.take(i as int));
                assert(taken.last() == summary.results@[i as int]@);
            }
            i = i + 1;
        }
        assert(all.take(n as int) =~= all);
        out
    }
}

/// `s` holds no line feed.
pub open spec fn no_line_break(s: Seq<char>) -> bool {
    forall|i: int| 0 <= i < s.len() ==> s[i] != '\n'
}

proof fn lemma_line_then_rest(a: Seq<char>, b: Seq<char>)
    requires
        no_line_break(a),
        a.len() == 0 || a.last() != '\r',
    ensures
        lines_of(a + seq!['\n'] + b) == seq![a] + lines_of(b),
{
    let t = a + seq!['\n'] + b;
    assert forall|i: int| 0 <= i < a.len() implies #[trigger] t[i] != '\n' by {
        assert(t[i] == a[i]);
    }
    assert(t[a.len() as int] == '\n');
    lemma_char_position(t, '\n', a.len() as int);
    assert(t.take(a.len() as int) =~= a);
    assert(t.skip(a.len() + 1int) =~= b);
}

proof fn lemma_decimal_is_digits(n: nat)
    ensures
        no_line_break(decimal(n)),
        decimal(n).len() > 0,
        decimal(n).last() != '\r',
    decreases n,
{
    let digits = seq!['0', '1', '2', '3', '4', '5', '6', '7', '8', '9'];
    assert forall|d: int| 0 <= d < 10 implies digit_char(d) != '\n' && digit_char(d) != '\r' by {
        assert(digit_char(d) == digits[d]);
    }
    if n >= 10 {
        lemma_decimal_is_digits(n / 10);
        let prev = decimal(n / 10);
        assert forall|i: int| 0 <= i < decimal(n).len() implies decimal(n)[i] != '\n' by {
            if i < prev.len() {
                assert(decimal(n)[i] == prev[i]);
            }
        }
    }
}

proof fn lemma_no_line_break_add(a: Seq<char>, b: Seq<char>)
    requires
        no_line_break(a),
        no_line_break(b),
    ensures
        no_line_break(a + b),
{
    assert forall|i: int| 0 <= i < (a + b).len() implies (a + b)[i] != '\n' by {
        if i < a.len() {
            assert((a + b)[i] == a[i]);
        } else {
            assert((a + b)[i] == b[i - a.len()]);
        }
    }
}

/// The first lines of a report: stage count, the three counts, the verdict,
/// an empty line and the title of the per-stage rows.
spec fn header_lines(summary: PipelineSummary) -> Seq<Seq<char>> {
    seq![
        "Pipeline Report: "@ + decimal(summary.total_stages as nat) + " stages"@,
        "  \u{2705} Passed: "@ + decimal(summary.passed as nat) + "  \u{274c} Failed: "@ + decimal(
            summary.failed as nat,
        ) + "  \u{23ed}\u{fe0f}  Skipped: "@ + decimal(summary.skipped as nat),
        "  Overall: "@ + if summary.overall_success {
            "\u{2705} SUCCESS"@
        } else {
            "\u{274c} FAILURE"@
        },
        Seq::<char>::empty(),
        "Stage Results:"@,
    ]
}

#[verifier::spinoff_prover]
proof fn lemma_header_shape(summary: PipelineSummary)
    ensures
        summary_text(summary) == header_lines(summary)[0] + seq!['\n'] + (header_lines(summary)[1]
            + seq!['\n'] + (header_lines(summary)[2] + seq!['\n'] + (header_lines(summary)[3]
            + seq!['\n'] + (header_lines(summary)[4] + seq!['\n'] + results_text(
            result_views(summary.results@),
        ))))),
{
    reveal_strlit(" stages\n");
    reveal_strlit(" stages");
    reveal_strlit("\n");
    reveal_strlit("\nStage Results:\n");
    reveal_strlit("Stage Results:");
    let nl = seq!['\n'];
    assert(" stages\n"@ =~= " stages"@ + nl);
    assert("\n"@ =~= nl);
    assert("\nStage Results:\n"@ =~= nl + "Stage Results:"@ + nl);
    let h = header_lines(summary);
    let rows = results_text(result_views(summary.results@));
    assert(summary_text(summary) =~= h[0] + nl + (h[1] + nl + (h[2] + nl + (h[3] + nl + (h[4] + nl
        + rows)))));
}

#[verifier::spinoff_prover]
proof fn lemma_header_lines_plain(summary: PipelineSummary)
    ensures
        forall|k: int|
            0 <= k < 5 ==> no_line_break(#[trigger] header_lines(summary)[k]) && (header_lines(
                summary,
            )[k].len() == 0 || header_lines(summary)[k].last() != '\r'),
{
    reveal_strlit("Pipeline Report: ");
    reveal_strlit(" stages");
    reveal_strlit("  \u{2705} Passed: ");
    reveal_strlit("  \u{274c} Failed: ");
    reveal_strlit("  \u{23ed}\u{fe0f}  Skipped: ");
    reveal_strlit("  Overall: ");
    reveal_strlit("\u{2705} SUCCESS");
    reveal_strlit("\u{274c} FAILURE");
    reveal_strlit("Stage Results:");
    lemma_decimal_is_digits(summary.total_stages as nat);
    lemma_decimal_is_digits(summary.passed as nat);
    lemma_decimal_is_digits(summary.failed as nat);
    lemma_decimal_is_digits(summary.skipped as nat);
    let verdict = if summary.overall_success {
        "\u{2705} SUCCESS"@
    } else {
        "\u{274c} FAILURE"@
    };
    let counts_a = "  \u{2705} Passed: "@ + decimal(summary.passed as nat);
    let counts_b = counts_a + "  \u{274c} Failed: "@ + decimal(summary.failed as nat);
    lemma_no_line_break_add("Pipeline Report: "@, decimal(summary.total_stages as nat));
    lemma_no_line_break_add("Pipeline Report: "@ + decimal(summary.total_stages as nat), " stages"@);
    lemma_no_line_break_add("  \u{2705} Passed: "@, decimal(summary.passed as nat));
    lemma_no_line_break_add(counts_a, "  \u{274c} Failed: "@);
    lemma_no_line_break_add(counts_a + "  \u{274c} Failed: "@, decimal(summary.failed as nat));
    lemma_no_line_break_add(counts_b, "  \u{23ed}\u{fe0f}  Skipped: "@);
    lemma_no_line_break_add(counts_b + "  \u{23ed}\u{fe0f}  Skipped: "@, decimal(summary.skipped as nat));
    lemma_no_line_break_add("  Overall: "@, verdict);
    let h = header_lines(summary);
    assert(h[1].last() == decimal(summary.skipped as nat).last());
    assert(no_line_break(h[3]));
}

/// The report opens with five lines: the stage count; the passed, failed
/// and skipped counts; the verdict, which reads SUCCESS exactly when the
/// summary's overall success is set and FAILURE otherwise; an empty line;
/// and the title of the per-stage rows.
pub proof fn law_report_header_lines(summary: PipelineSummary)
    ensures
        lines_of(summary_text(summary)).len() >= 5,
        lines_of(summary_text(summary))[0] == "Pipeline Report: "@ + decimal(
            summary.total_stages as nat,
        ) + " stages"@,
        lines_of(summary_text(summary))[1] == "  \u{2705} Passed: "@ + decimal(summary.passed as nat)
            + "  \u{274c} Failed: "@ + decimal(summary.failed as nat) + "  \u{23ed}\u{fe0f}  Skipped: "@
            + decimal(summary.skipped as nat),
        lines_of(summary_text(summary))[2] == if summary.overall_success {
            "  Overall: \u{2705} SUCCESS"@
        } else {
            "  Overall: \u{274c} FAILURE"@
        },
        lines_of(summary_text(summary))[3] == Seq::<char>::empty(),
        lines_of(summary_text(summary))[4] == "Stage Results:"@,
{
    reveal_strlit("  Overall: ");
    reveal_strlit("\u{2705} SUCCESS");
    reveal_strlit("\u{274c} FAILURE");
    reveal_strlit("  Overall: \u{2705} SUCCESS");
    reveal_strlit("  Overall: \u{274c} FAILURE");
    let h = header_lines(summary);
    let nl = seq!['\n'];
    let rows = results_text(result_views(summary.results@));
    lemma_header_shape(summary);
    lemma_header_lines_plain(summary);
    assert(no_line_break(h[0]) && no_line_break(h[1]) && no_line_break(h[2]) && no_line_break(h[3])
        && no_line_break(h[4]));
    let t4 = h[4] + nl + rows;
    let t3 = h[3] + nl + t4;
    let t2 = h[2] + nl + t3;
    let t1 = h[1] + nl + t2;
    lemma_line_then_rest(h[0], t1);
    lemma_line_then_rest(h[1], t2);
    lemma_line_then_rest(h[2], t3);
    lemma_line_then_rest(h[3], t4);
    lemma_line_then_rest(h[4], rows);
    let all = lines_of(summary_text(summary));
    assert(all =~= seq![h[0], h[1], h[2], h[3], h[4]] + lines_of(rows));
    assert(h[2] =~= if summary.overall_success {
        "  Overall: \u{2705} SUCCESS"@
    } else {
        "  Overall: \u{274c} FAILURE"@
    });
}

} // verus!
