//! The decisions of a pipeline run. The host performs the git operations and
//! executes stage commands; this module decides, stage by stage, whether a
//! stage runs, is skipped because a dependency failed, or already has a
//! result, and keeps the results.

use vstd::prelude::*;
use vstd::string::*;

use crate::error::PipelineError;
use crate::pipeline::{
    dependencies_known, dependency_names, depends_on, distinct_names, find_stage, has_stage,
    is_execution_order, is_order_outcome, law_execution_order_lists_every_stage, stage_position,
    Pipeline,
};
use crate::stage::{skipped_result, Stage, StageResult, StageResultView};
use crate::text::views;

verus! {

/// The views of a sequence of results.
pub open spec fn result_views(results: Seq<StageResult>) -> Seq<StageResultView> {
    results.map_values(|r: StageResult| r@)
}

/// No two results belong to the same stage.
pub open spec fn distinct_stages(results: Seq<StageResultView>) -> bool {
    forall|i: int, j: int|
        0 <= i < results.len() && 0 <= j < results.len() && i != j ==> results[i].stage
            != results[j].stage
}

/// Some result belongs to the stage `name`.
pub open spec fn has_result(results: Seq<StageResultView>, name: Seq<char>) -> bool {
    exists|i: int| 0 <= i < results.len() && #[trigger] results[i].stage == name
}

/// The position of the result of the stage `name` (meaningful when there is one).
pub open spec fn result_position(results: Seq<StageResultView>, name: Seq<char>) -> int {
    choose|i: int| 0 <= i < results.len() && #[trigger] results[i].stage == name
}

/// The result of the stage `name`, if there is one.
pub open spec fn find_result(results: Seq<StageResultView>, name: Seq<char>) -> Option<
    StageResultView,
> {
    if has_result(results, name) {
        Some(results[result_position(results, name)])
    } else {
        None
    }
}

/// The results after recording `result`: it replaces the result of the same
/// stage, or joins the end when there is none.
pub open spec fn with_result(results: Seq<StageResultView>, result: StageResultView) -> Seq<
    StageResultView,
> {
    if has_result(results, result.stage) {
        results.update(result_position(results, result.stage), result)
    } else {
        results.push(result)
    }
}

/// Every result belongs to a stage of the pipeline.
pub open spec fn results_name_stages(stages: Seq<Stage>, results: Seq<StageResultView>) -> bool {
    forall|i: int| 0 <= i < results.len() ==> has_stage(stages, #[trigger] results[i].stage)
}

/// A dependency keeps a stage from running: it has no result, or a failed one.
pub open spec fn blocks(results: Seq<StageResultView>, dependency: Seq<char>) -> bool {
    match find_result(results, dependency) {
        Some(r) => !r.success,
        None => true,
    }
}

/// `deps[j]` is the first dependency in `deps` that blocks.
pub open spec fn is_first_blocking(
    results: Seq<StageResultView>,
    deps: Seq<Seq<char>>,
    j: int,
) -> bool {
    &&& 0 <= j < deps.len()
    &&& blocks(results, deps[j])
    &&& forall|k: int| 0 <= k < j ==> !blocks(results, #[trigger] deps[k])
}

/// What the run does with one stage, given the results so far.
pub enum StepOutcome {
    /// The stage runs: every dependency succeeded and it has no result yet.
    Run,
    /// The stage is skipped because this dependency failed.
    Skipped(Seq<char>),
    /// The stage already has a result, which stays.
    Recorded,
    /// The pipeline has no stage of that name.
    MissingStage,
    /// This dependency has no result yet.
    MissingResult(Seq<char>),
}

/// The step of a run for the stage `name`: dependencies are read in order, and
/// the first one that has no result, or a failed one, decides.
pub open spec fn step_outcome(
    stages: Seq<Stage>,
    results: Seq<StageResultView>,
    name: Seq<char>,
) -> StepOutcome {
    match find_stage(stages, name) {
        None => StepOutcome::MissingStage,
        Some(stage) => {
            let deps = dependency_names(stage);
            if exists|j: int| is_first_blocking(results, deps, j) {
                let j = choose|j: int| is_first_blocking(results, deps, j);
                if has_result(results, deps[j]) {
                    StepOutcome::Skipped(deps[j])
                } else {
                    StepOutcome::MissingResult(deps[j])
                }
            } else if has_result(results, name) {
                StepOutcome::Recorded
            } else {
                StepOutcome::Run
            }
        },
    }
}

/// What the host is to do with a stage after `PipelineRun::decide_stage`.
#[derive(Debug, Clone, Copy, PartialEq, Eq)]
pub enum StageAction {
    /// Execute the stage and record its result.
    Execute,
    /// Nothing: the stage was skipped and its skip result recorded.
    Skipped,
    /// Nothing: the stage already has a result.
    AlreadyRecorded,
}

/// Executes a pipeline against a git repository.
pub struct PipelineRun {
    repo_path: String,
    pipeline: Pipeline,
    results: Vec<StageResult>,
}

proof fn lemma_result_position(results: Seq<StageResultView>, i: int)
    requires
        distinct_stages(results),
        0 <= i < results.len(),
    ensures
        has_result(results, results[i].stage),
        result_position(results, results[i].stage) == i,
        find_result(results, results[i].stage) == Some(results[i]),
{
    assert(has_result(results, results[i].stage));
}

impl PipelineRun {
    #[verifier::type_invariant]
    closed spec fn one_result_per_stage(self) -> bool {
        &&& distinct_stages(result_views(self.results@))
        &&& results_name_stages(self.pipeline@, result_views(self.results@))
    }

    /// The results recorded so far.
    pub closed spec fn outcomes(&self) -> Seq<StageResultView> {
        result_views(self.results@)
    }

    /// The stages of the pipeline being run.
    pub closed spec fn stages_view(&self) -> Seq<Stage> {
        self.pipeline@
    }

    /// The path of the repository the run works in.
    pub closed spec fn repo(&self) -> Seq<char> {
        self.repo_path@
    }

    /// Create a new pipeline run for the given repo, with no results yet.
    pub fn new(repo_path: &str, pipeline: Pipeline) -> (run: PipelineRun)
        ensures
            run.repo() == repo_path@,
            run.stages_view() == pipeline@,
            run.outcomes() == Seq::<StageResultView>::empty(),
    {
        let run = PipelineRun { repo_path: repo_path.to_owned(), pipeline, results: Vec::new() };
        assert(result_views(run.results@) =~= Seq::<StageResultView>::empty());
        run
    }

    /// The path of the repository the run works in.
    pub fn repo_path(&self) -> (path: &str)
        ensures
            path@ == self.repo(),
    {
        self.repo_path.as_str()
    }

    /// The pipeline being run.
    pub fn pipeline(&self) -> (pipeline: &Pipeline)
        ensures
            pipeline@ == self.stages_view(),
    {
        &self.pipeline
    }

    /// Get the results of the run.
    pub fn results(&self) -> (results: &Vec<StageResult>)
        ensures
            result_views(results@) == self.outcomes(),
            distinct_stages(self.outcomes()),
            results_name_stages(self.stages_view(), self.outcomes()),
    {
        proof {
            use_type_invariant(self);
        }
        &self.results
    }

    /// The position of the result of the stage `name`, if there is one.
    fn position(&self, name: &String) -> (position: Option<usize>)
        ensures
            match position {
                Some(i) => i < self.outcomes().len() && has_result(self.outcomes(), name@)
                    && result_position(self.outcomes(), name@) == i,
                None => !has_result(self.outcomes(), name@),
            },
    {
        proof {
            use_type_invariant(self);
        }
        let n = self.results.len();
        let mut i: usize = 0;
        while i < n
            invariant
                n == self.results@.len(),
                i <= n,
                distinct_stages(result_views(self.results@)),
                forall|k: int| 0 <= k < i ==> #[trigger] self.results@[k].stage@ != name@,
            decreases n - i,
        {
            if self.results[i].stage == *name {
                proof {
                    assert(result_views(self.results@)[i as int].stage == name@);
                    lemma_result_position(result_views(self.results@), i as int);
                }
                return Some(i);
            }
            i = i + 1;
        }
        proof {
            assert forall|k: int| 0 <= k < n implies #[trigger] result_views(self.results@)[k].stage
                != name@ by {
                assert(self.results@[k].stage@ != name@);
            }
        }
        None
    }

    /// Get a specific stage result.
    pub fn get_result(&self, stage: &str) -> (result: Option<&StageResult>)
        ensures
            match result {
                Some(r) => find_result(self.outcomes(), stage@) == Some(r@),
                None => find_result(self.outcomes(), stage@) is None,
            },
    {
        let key = stage.to_owned();
        match self.position(&key) {
            Some(i) => Some(&self.results[i]),
            None => None,
        }
    }

    /// Record a stage's result, replacing any earlier result of that stage.
    /// The result must belong to a stage of the pipeline.
    pub fn record(&mut self, result: StageResult)
        requires
            has_stage(old(self).stages_view(), result@.stage),
        ensures
            distinct_stages(old(self).outcomes()),
            final(self).outcomes() == with_result(old(self).outcomes(), result@),
            distinct_stages(final(self).outcomes()),
            results_name_stages(final(self).stages_view(), final(self).outcomes()),
            final(self).stages_view() == old(self).stages_view(),
            final(self).repo() == old(self).repo(),
    {
        proof {
            use_type_invariant(&*self);
        }
        let found = self.position(&result.stage);
        let ghost before = result_views(self.results@);
        let ghost view = result@;
        let mut results: Vec<StageResult> = Vec::new();
        std::mem::swap(&mut results, &mut self.results);
        match found {
            Some(i) => {
                results.set(i, result);
                assert(result_views(results@) =~= before.update(i as int, view));
            },
            None => {
                results.push(result);
                assert(result_views(results@) =~= before.push(view));
            },
        }
        proof {
            let after = result_views(results@);
            assert forall|i: int| 0 <= i < after.len() implies has_stage(self.pipeline@, #[trigger] after[i].stage) by {
                if has_result(before, view.stage) {
                    if i != result_position(before, view.stage) {
                        assert(after[i] == before[i]);
                    }
                } else if i < before.len() {
                    assert(after[i] == before[i]);
                }
            }
            assert forall|i: int, j: int|
                0 <= i < after.len() && 0 <= j < after.len() && i != j implies after[i].stage
                != after[j].stage by {
                if has_result(before, view.stage) {
                    let p = result_position(before, view.stage);
                    if i != p && j != p {
                        assert(after[i] == before[i]);
                        assert(after[j] == before[j]);
                    } else if i == p {
                        assert(after[j] == before[j]);
                    } else {
                        assert(after[i] == before[i]);
                    }
                } else {
                    if i < before.len() && j < before.len() {
                        assert(after[i] == before[i]);
                        assert(after[j] == before[j]);
                    } else if i < before.len() {
                        assert(after[i] == before[i]);
                        assert(!has_result(before, view.stage));
                    } else {
                        assert(after[j] == before[j]);
                        assert(!has_result(before, view.stage));
                    }
                }
            }
        }
        self.results = results;
        proof {
            use_type_invariant(&*self);
        }
    }

    /// The execution order of the run's pipeline, as
    /// `Pipeline::execution_order` gives it.
    pub fn plan(&self) -> (order: Result<Vec<String>, PipelineError>)
        ensures
            is_order_outcome(self.stages_view(), order),
    {
        self.pipeline.execution_order()
    }
}

proof fn lemma_first_blocking_unique(
    results: Seq<StageResultView>,
    deps: Seq<Seq<char>>,
    j: int,
    k: int,
)
    requires
        is_first_blocking(results, deps, j),
        is_first_blocking(results, deps, k),
    ensures
        j == k,
{
    if j < k {
        assert(!blocks(results, deps[j]));
    } else if k < j {
        assert(!blocks(results, deps[k]));
    }
}

impl PipelineRun {
    /// The first dependency in `deps` that has no result, or a failed one,
    /// with whether it has a result.
    fn first_blocking(&self, deps: &Vec<String>) -> (r: Option<(usize, bool)>)
        ensures
            match r {
                Some((j, recorded)) => {
                    &&& is_first_blocking(self.outcomes(), views(deps@), j as int)
                    &&& recorded == has_result(self.outcomes(), deps@[j as int]@)
                },
                None => forall|k: int|
                    0 <= k < deps@.len() ==> !blocks(self.outcomes(), #[trigger] views(deps@)[k]),
            },
    {
        proof {
            use_type_invariant(self);
        }
        let m = deps.len();
        let mut j: usize = 0;
        while j < m
            invariant
                m == deps@.len(),
                j <= m,
                distinct_stages(self.outcomes()),
                forall|k: int| 0 <= k < j ==> !blocks(self.outcomes(), #[trigger] views(deps@)[k]),
            decreases m - j,
        {
            match self.position(&deps[j]) {
                None => {
                    return Some((j, false));
                },
                Some(p) => {
                    if !self.results[p].success {
                        proof {
                            assert(self.outcomes()[p as int].success == self.results@[p as int].success);
                        }
                        return Some((j, true));
                    }
                    proof {
                        assert(self.outcomes()[p as int].success == self.results@[p as int].success);
                    }
                },
            }
            j = j + 1;
        }
        None
    }

    /// Decide what happens to the stage `name` in a run, given the results so
    /// far. Its dependencies are read in order: the first without a result
    /// fails the run with `DependencyNotFound`, the first with a failed result
    /// makes the stage skipped (its skip result is recorded). When none
    /// blocks, a stage with no result yet is to be executed.
    pub fn decide_stage(&mut self, name: &str) -> (r: Result<StageAction, PipelineError>)
        ensures
            final(self).stages_view() == old(self).stages_view(),
            final(self).repo() == old(self).repo(),
            match step_outcome(old(self).stages_view(), old(self).outcomes(), name@) {
                StepOutcome::Run => r == Ok::<StageAction, PipelineError>(StageAction::Execute)
                    && final(self).outcomes() == old(self).outcomes(),
                StepOutcome::Recorded => r == Ok::<StageAction, PipelineError>(
                    StageAction::AlreadyRecorded,
                ) && final(self).outcomes() == old(self).outcomes(),
                StepOutcome::Skipped(d) => r == Ok::<StageAction, PipelineError>(
                    StageAction::Skipped,
                ) && final(self).outcomes() == with_result(
                    old(self).outcomes(),
                    skipped_result(name@, d),
                ),
                StepOutcome::MissingStage => (r matches Err(PipelineError::DependencyNotFound(n))
                    && n@ == name@) && final(self).outcomes() == old(self).outcomes(),
                StepOutcome::MissingResult(d) => (r matches Err(
                    PipelineError::DependencyNotFound(n),
                ) && n@ == d) && final(self).outcomes() == old(self).outcomes(),
            },
    {
        let key = name.to_owned();
        let ghost stages = self.pipeline@;
        let ghost outs = self.outcomes();
        let stage = match self.pipeline.get_stage(name) {
            Some(s) => s,
            None => {
                return Err(PipelineError::DependencyNotFound(key));
            },
        };
        let ghost deps = dependency_names(*stage);
        match self.first_blocking(&stage.dependencies) {
            Some((j, recorded)) => {
                let dep = stage.dependencies[j].clone();
                proof {
                    let c = choose|c: int| is_first_blocking(outs, deps, c);
                    lemma_first_blocking_unique(outs, deps, c, j as int);
                    assert(deps[j as int] == dep@);
                }
                if recorded {
                    let skip = StageResult::skipped(&key, &dep);
                    self.record(skip);
                    assert(dependency_names(find_stage(stages, name@)->0) == deps);
                    assert(step_outcome(stages, outs, name@) == StepOutcome::Skipped(dep@));
                    Ok(StageAction::Skipped)
                } else {
                    Err(PipelineError::DependencyNotFound(dep))
                }
            },
            None => {
                proof {
                    if exists|c: int| is_first_blocking(outs, deps, c) {
                        let c = choose|c: int| is_first_blocking(outs, deps, c);
                        assert(!blocks(outs, deps[c]));
                    }
                }
                assert(!exists|c: int| is_first_blocking(outs, deps, c));
                match self.position(&key) {
                    Some(_) => {
                        assert(step_outcome(stages, outs, name@) == StepOutcome::Recorded);
                        Ok(StageAction::AlreadyRecorded)
                    },
                    None => {
                        assert(step_outcome(stages, outs, name@) == StepOutcome::Run);
                        Ok(StageAction::Execute)
                    },
                }
            },
        }
    }

    /// The stage that a single-stage run executes: the stage named `name`,
    /// or `DependencyNotFound` when the pipeline has none.
    pub fn stage_to_run(&self, name: &str) -> (r: Result<&Stage, PipelineError>)
        ensures
            match r {
                Ok(stage) => find_stage(self.stages_view(), name@) == Some(*stage),
                Err(e) => find_stage(self.stages_view(), name@) is None && (e matches PipelineError::DependencyNotFound(n) && n@ == name@),
            },
    {
        match self.pipeline.get_stage(name) {
            Some(stage) => Ok(stage),
            None => Err(PipelineError::DependencyNotFound(name.to_owned())),
        }
    }
}

/// A stage never runs while one of its dependencies has a failed result,
/// whether that dependency ran and failed or was itself skipped: its step is
/// a skip (or a missing-result error for an earlier dependency).
pub proof fn law_failed_dependency_blocks(
    stages: Seq<Stage>,
    results: Seq<StageResultView>,
    name: Seq<char>,
    dependency: Seq<char>,
)
    requires
        find_stage(stages, name) is Some,
        dependency_names(find_stage(stages, name)->0).contains(dependency),
        find_result(results, dependency) matches Some(r) && !r.success,
    ensures
        step_outcome(stages, results, name) is Skipped || step_outcome(stages, results, name) is MissingResult,
{
    let deps = dependency_names(find_stage(stages, name)->0);
    let i = choose|i: int| 0 <= i < deps.len() && deps[i] == dependency;
    assert(blocks(results, deps[i]));
    lemma_some_first_blocking(results, deps, i);
}

proof fn lemma_some_first_blocking(results: Seq<StageResultView>, deps: Seq<Seq<char>>, i: int)
    requires
        0 <= i < deps.len(),
        blocks(results, deps[i]),
    ensures
        exists|j: int| is_first_blocking(results, deps, j),
    decreases i,
{
    if forall|k: int| 0 <= k < i ==> !blocks(results, #[trigger] deps[k]) {
        assert(is_first_blocking(results, deps, i));
    } else {
        let k = choose|k: int| 0 <= k < i && blocks(results, #[trigger] deps[k]);
        lemma_some_first_blocking(results, deps, k);
    }
}

/// A stage runs only when each of its dependencies has a successful result
/// and the stage itself has none yet.
pub proof fn law_runs_only_after_dependencies_succeed(
    stages: Seq<Stage>,
    results: Seq<StageResultView>,
    name: Seq<char>,
)
    requires
        step_outcome(stages, results, name) is Run,
    ensures
        find_stage(stages, name) is Some,
        forall|k: int|
            0 <= k < dependency_names(find_stage(stages, name)->0).len() ==> (find_result(
                results,
                #[trigger] dependency_names(find_stage(stages, name)->0)[k],
            ) matches Some(r) && r.success),
        !has_result(results, name),
{
    let deps = dependency_names(find_stage(stages, name)->0);
    assert forall|k: int| 0 <= k < deps.len() implies (find_result(results, #[trigger] deps[k]) matches Some(r) && r.success) by {
        if blocks(results, deps[k]) {
            lemma_some_first_blocking(results, deps, k);
        }
    }
}

/// A skipped stage's recorded result is a failure that names the dependency
/// which failed, and it is what a later lookup of the stage finds; so every
/// stage that depends on it is skipped in turn.
pub proof fn law_skip_is_recorded_as_failure(
    results: Seq<StageResultView>,
    name: Seq<char>,
    dependency: Seq<char>,
)
    requires
        distinct_stages(results),
    ensures
        find_result(with_result(results, skipped_result(name, dependency)), name) == Some(
            skipped_result(name, dependency),
        ),
        !skipped_result(name, dependency).success,
        skipped_result(name, dependency).exit_code == -1,
{
    law_result_after_record(results, skipped_result(name, dependency), name);
}

/// Once a stage is skipped, every stage that depends on it is kept from
/// running in turn: a failure spreads to all of its dependents.
pub proof fn law_skip_spreads_to_dependents(
    stages: Seq<Stage>,
    results: Seq<StageResultView>,
    skipped: Seq<char>,
    failed_dependency: Seq<char>,
    dependent: Seq<char>,
)
    requires
        distinct_stages(results),
        find_stage(stages, dependent) is Some,
        dependency_names(find_stage(stages, dependent)->0).contains(skipped),
    ensures
        ({
            let after = with_result(results, skipped_result(skipped, failed_dependency));
            step_outcome(stages, after, dependent) is Skipped || step_outcome(
                stages,
                after,
                dependent,
            ) is MissingResult
        }),
{
    law_skip_is_recorded_as_failure(results, skipped, failed_dependency);
    law_failed_dependency_blocks(
        stages,
        with_result(results, skipped_result(skipped, failed_dependency)),
        dependent,
        skipped,
    );
}

/// Recording a result and then looking up its stage gives back that result,
/// and every other stage still gives what it gave before.
pub proof fn law_result_after_record(
    results: Seq<StageResultView>,
    result: StageResultView,
    name: Seq<char>,
)
    requires
        distinct_stages(results),
    ensures
        distinct_stages(with_result(results, result)),
        find_result(with_result(results, result), result.stage) == Some(result),
        name != result.stage ==> find_result(with_result(results, result), name) == find_result(
            results,
            name,
        ),
{
    let after = with_result(results, result);
    let p = if has_result(results, result.stage) {
        result_position(results, result.stage)
    } else {
        results.len() as int
    };
    assert(after[p] == result);
    assert forall|i: int, j: int|
        0 <= i < after.len() && 0 <= j < after.len() && i != j implies after[i].stage
        != after[j].stage by {
        if i != p {
            assert(after[i] == results[i]);
        }
        if j != p {
            assert(after[j] == results[j]);
        }
    }
    lemma_result_position(after, p);
    if name != result.stage {
        if has_result(results, name) {
            let i = result_position(results, name);
            assert(after[i] == results[i]);
            lemma_result_position(after, i);
            lemma_result_position(results, i);
        } else {
            assert(!has_result(after, name)) by {
                if has_result(after, name) {
                    let i = result_position(after, name);
                    assert(i != p);
                    assert(results[i].stage == name);
                }
            }
        }
    }
}

/// The results after the host's step for the stage `name`, that is
/// `PipelineRun::decide_stage` followed, on `Execute`, by `PipelineRun::record`
/// of the stage's execution result: it records
/// `executed(name)` when the stage is to be executed, the skip result when it
/// is skipped, and nothing when it already has a result. `None` when the step
/// fails.
pub open spec fn after_step(
    stages: Seq<Stage>,
    results: Seq<StageResultView>,
    name: Seq<char>,
    executed: spec_fn(Seq<char>) -> StageResultView,
) -> Option<Seq<StageResultView>> {
    match step_outcome(stages, results, name) {
        StepOutcome::Run => Some(with_result(results, executed(name))),
        StepOutcome::Skipped(d) => Some(with_result(results, skipped_result(name, d))),
        StepOutcome::Recorded => Some(results),
        _ => None,
    }
}

/// The results of a whole run: the steps for the stages of `plan`, in order,
/// starting from `results`, where executing a stage yields `executed` of its
/// name. `None` when some step fails.
pub open spec fn run_through(
    stages: Seq<Stage>,
    results: Seq<StageResultView>,
    plan: Seq<Seq<char>>,
    executed: spec_fn(Seq<char>) -> StageResultView,
) -> Option<Seq<StageResultView>>
    decreases plan.len(),
{
    if plan.len() == 0 {
        Some(results)
    } else {
        match run_through(stages, results, plan.drop_last(), executed) {
            Some(before) => after_step(stages, before, plan.last(), executed),
            None => None,
        }
    }
}

/// Executing a stage yields a result of that stage.
pub open spec fn executions_fit(executed: spec_fn(Seq<char>) -> StageResultView) -> bool {
    forall|name: Seq<char>| #[trigger] executed(name).stage == name
}

proof fn lemma_run_prefix(
    stages: Seq<Stage>,
    results: Seq<StageResultView>,
    plan: Seq<Seq<char>>,
    executed: spec_fn(Seq<char>) -> StageResultView,
    k: int,
)
    requires
        0 <= k < plan.len(),
    ensures
        run_through(stages, results, plan.take(k + 1), executed) == match run_through(
            stages,
            results,
            plan.take(k),
            executed,
        ) {
            Some(before) => after_step(stages, before, plan[k], executed),
            None => None,
        },
{
    assert(plan.take(k + 1).drop_last() =~= plan.take(k));
}

proof fn lemma_run_some_prefix(
    stages: Seq<Stage>,
    results: Seq<StageResultView>,
    plan: Seq<Seq<char>>,
    executed: spec_fn(Seq<char>) -> StageResultView,
    k: int,
    m: int,
)
    requires
        0 <= k <= m <= plan.len(),
        run_through(stages, results, plan.take(m), executed) is Some,
    ensures
        run_through(stages, results, plan.take(k), executed) is Some,
    decreases m - k,
{
    if k < m {
        lemma_run_prefix(stages, results, plan, executed, m - 1);
        lemma_run_some_prefix(stages, results, plan, executed, k, m - 1);
    }
}

/// A step keeps one result per stage and changes only the result of its
/// own stage, which it leaves present.
proof fn lemma_step_frame(
    stages: Seq<Stage>,
    before: Seq<StageResultView>,
    name: Seq<char>,
    executed: spec_fn(Seq<char>) -> StageResultView,
    other: Seq<char>,
)
    requires
        distinct_stages(before),
        executions_fit(executed),
        after_step(stages, before, name, executed) is Some,
    ensures
        distinct_stages(after_step(stages, before, name, executed)->0),
        has_result(after_step(stages, before, name, executed)->0, name),
        other != name ==> find_result(after_step(stages, before, name, executed)->0, other)
            == find_result(before, other),
{
    match step_outcome(stages, before, name) {
        StepOutcome::Run => {
            assert(executed(name).stage == name);
            law_result_after_record(before, executed(name), other);
        },
        StepOutcome::Skipped(d) => {
            law_result_after_record(before, skipped_result(name, d), other);
        },
        _ => {},
    }
}

/// After step `k` of a run, a stage's result changes only at its own steps.
proof fn lemma_result_stable(
    stages: Seq<Stage>,
    results: Seq<StageResultView>,
    plan: Seq<Seq<char>>,
    executed: spec_fn(Seq<char>) -> StageResultView,
    k: int,
    m: int,
    name: Seq<char>,
)
    requires
        distinct_stages(results),
        executions_fit(executed),
        0 <= k <= m <= plan.len(),
        run_through(stages, results, plan.take(m), executed) is Some,
        forall|i: int| k <= i < m ==> #[trigger] plan[i] != name,
    ensures
        run_through(stages, results, plan.take(k), executed) is Some,
        distinct_stages(run_through(stages, results, plan.take(m), executed)->0),
        find_result(run_through(stages, results, plan.take(m), executed)->0, name) == find_result(
            run_through(stages, results, plan.take(k), executed)->0,
            name,
        ),
    decreases m,
{
    if m == 0 {
        assert(plan.take(0) =~= Seq::<Seq<char>>::empty());
    } else {
        lemma_run_prefix(stages, results, plan, executed, m - 1);
        lemma_run_some_prefix(stages, results, plan, executed, m - 1, m);
        if k < m {
            lemma_result_stable(stages, results, plan, executed, k, m - 1, name);
            let before = run_through(stages, results, plan.take(m - 1), executed)->0;
            lemma_step_frame(stages, before, plan[m - 1], executed, name);
        } else {
            lemma_result_stable(stages, results, plan, executed, m - 1, m - 1, name);
            let before = run_through(stages, results, plan.take(m - 1), executed)->0;
            lemma_step_frame(stages, before, plan[m - 1], executed, name);
        }
    }
}

/// Recording a result that is already the stage's result changes nothing.
proof fn lemma_record_same(results: Seq<StageResultView>, result: StageResultView)
    requires
        find_result(results, result.stage) == Some(result),
    ensures
        with_result(results, result) == results,
{
    assert(with_result(results, result) =~= results);
}

/// Two result sets that agree on every dependency of `name` (and on `name`
/// itself) lead to the same step for it.
proof fn lemma_same_step(
    stages: Seq<Stage>,
    a: Seq<StageResultView>,
    b: Seq<StageResultView>,
    name: Seq<char>,
)
    requires
        find_stage(stages, name) is Some,
        forall|k: int|
            0 <= k < dependency_names(find_stage(stages, name)->0).len() ==> find_result(
                a,
                #[trigger] dependency_names(find_stage(stages, name)->0)[k],
            ) == find_result(b, dependency_names(find_stage(stages, name)->0)[k]),
        has_result(a, name) == has_result(b, name),
    ensures
        step_outcome(stages, a, name) == step_outcome(stages, b, name),
{
    let deps = dependency_names(find_stage(stages, name)->0);
    assert forall|j: int| is_first_blocking(a, deps, j) <==> is_first_blocking(b, deps, j) by {
        if 0 <= j < deps.len() {
            assert(find_result(a, deps[j]) == find_result(b, deps[j]));
            assert forall|k: int| 0 <= k < j implies (!blocks(a, #[trigger] deps[k]) <==> !blocks(
                b,
                deps[k],
            )) by {
                assert(find_result(a, deps[k]) == find_result(b, deps[k]));
            }
        }
    }
    if exists|j: int| is_first_blocking(a, deps, j) {
        let ja = choose|j: int| is_first_blocking(a, deps, j);
        let jb = choose|j: int| is_first_blocking(b, deps, j);
        lemma_first_blocking_unique(a, deps, ja, jb);
        assert(find_result(a, deps[ja]) == find_result(b, deps[ja]));
    }
}

/// In a plan that lists stages in an execution order, every dependency of
/// the stage at step `k` is either not in the plan or listed before `k`.
proof fn lemma_dependency_earlier(
    stages: Seq<Stage>,
    plan: Seq<Seq<char>>,
    k: int,
    dependency: Seq<char>,
    i: int,
)
    requires
        is_execution_order(stages, plan),
        0 <= k < plan.len(),
        find_stage(stages, plan[k]) is Some,
        dependency_names(find_stage(stages, plan[k])->0).contains(dependency),
        k <= i < plan.len(),
    ensures
        plan[i] != dependency,
{
    let p = stage_position(stages, plan[k]);
    assert(stages[p].name@ == plan[k]);
    if plan[i] == dependency {
        assert(depends_on(stages, plan[k], plan[i]));
    }
}

/// Running the same plan again right after a successful run changes nothing:
/// every stage already has its result, and no stage is executed again.
pub proof fn law_rerun_changes_nothing(
    stages: Seq<Stage>,
    results: Seq<StageResultView>,
    plan: Seq<Seq<char>>,
    executed: spec_fn(Seq<char>) -> StageResultView,
    executed_again: spec_fn(Seq<char>) -> StageResultView,
)
    requires
        distinct_stages(results),
        executions_fit(executed),
        is_execution_order(stages, plan),
        run_through(stages, results, plan, executed) is Some,
    ensures
        run_through(stages, run_through(stages, results, plan, executed)->0, plan, executed_again)
            == run_through(stages, results, plan, executed),
        forall|k: int|
            0 <= k < plan.len() ==> !(step_outcome(
                stages,
                run_through(stages, results, plan, executed)->0,
                #[trigger] plan[k],
            ) is Run),
{
    let n = plan.len() as int;
    assert(plan.take(n) =~= plan);
    let rs = run_through(stages, results, plan, executed)->0;
    assert forall|k: int| 0 <= k < n implies after_step(stages, rs, #[trigger] plan[k], executed_again)
        == Some(rs) by {
        lemma_rerun_step(stages, results, plan, executed, executed_again, k);
    }
    assert forall|k: int| 0 <= k < n implies !(step_outcome(stages, rs, #[trigger] plan[k]) is Run) by {
        lemma_rerun_step(stages, results, plan, executed, executed_again, k);
    }
    lemma_rerun_prefix(stages, results, plan, executed, executed_again, n);
}

proof fn lemma_rerun_step(
    stages: Seq<Stage>,
    results: Seq<StageResultView>,
    plan: Seq<Seq<char>>,
    executed: spec_fn(Seq<char>) -> StageResultView,
    executed_again: spec_fn(Seq<char>) -> StageResultView,
    k: int,
)
    requires
        distinct_stages(results),
        executions_fit(executed),
        is_execution_order(stages, plan),
        run_through(stages, results, plan, executed) is Some,
        0 <= k < plan.len(),
    ensures
        after_step(stages, run_through(stages, results, plan, executed)->0, plan[k], executed_again)
            == Some(run_through(stages, results, plan, executed)->0),
        !(step_outcome(stages, run_through(stages, results, plan, executed)->0, plan[k]) is Run),
{
    let n = plan.len() as int;
    assert(plan.take(n) =~= plan);
    let x = plan[k];
    lemma_run_some_prefix(stages, results, plan, executed, k + 1, n);
    lemma_run_prefix(stages, results, plan, executed, k);
    let b = run_through(stages, results, plan.take(k), executed)->0;
    let a = run_through(stages, results, plan.take(k + 1), executed)->0;
    let rs = run_through(stages, results, plan, executed)->0;
    assert(find_stage(stages, x) is Some);
    let deps = dependency_names(find_stage(stages, x)->0);
    assert forall|j: int| 0 <= j < deps.len() implies find_result(rs, #[trigger] deps[j])
        == find_result(b, deps[j]) by {
        assert(deps.contains(deps[j]));
        assert forall|i: int| k <= i < n implies #[trigger] plan[i] != deps[j] by {
            lemma_dependency_earlier(stages, plan, k, deps[j], i);
        }
        lemma_result_stable(stages, results, plan, executed, k, n, deps[j]);
    }
    assert forall|i: int| k + 1 <= i < n implies #[trigger] plan[i] != x by {
        assert(plan.no_duplicates());
    }
    lemma_result_stable(stages, results, plan, executed, k + 1, n, x);
    lemma_result_stable(stages, results, plan, executed, k, k, x);
    lemma_step_frame(stages, b, x, executed, x);
    assert(has_result(a, x));
    assert(find_result(rs, x) == find_result(a, x));
    assert(has_result(rs, x));
    if has_result(b, x) {
        lemma_same_step(stages, rs, b, x);
    } else {
        match step_outcome(stages, b, x) {
            StepOutcome::Run => {
                let deps2 = deps;
                if exists|j: int| is_first_blocking(rs, deps2, j) {
                    let j = choose|j: int| is_first_blocking(rs, deps2, j);
                    assert(is_first_blocking(b, deps2, j)) by {
                        assert(find_result(rs, deps2[j]) == find_result(b, deps2[j]));
                        assert forall|i: int| 0 <= i < j implies !blocks(b, #[trigger] deps2[i]) by {
                            assert(find_result(rs, deps2[i]) == find_result(b, deps2[i]));
                        }
                    }
                }
            },
            StepOutcome::Skipped(d) => {
                law_result_after_record(b, skipped_result(x, d), x);
                let c = choose|j: int| is_first_blocking(b, deps, j);
                assert(is_first_blocking(rs, deps, c)) by {
                    assert(find_result(rs, deps[c]) == find_result(b, deps[c]));
                    assert forall|i: int| 0 <= i < c implies !blocks(rs, #[trigger] deps[i]) by {
                        assert(find_result(rs, deps[i]) == find_result(b, deps[i]));
                    }
                }
                let c2 = choose|j: int| is_first_blocking(rs, deps, j);
                lemma_first_blocking_unique(rs, deps, c, c2);
                assert(find_result(rs, deps[c]) == find_result(b, deps[c]));
                lemma_record_same(rs, skipped_result(x, d));
            },
            _ => {},
        }
    }
}

proof fn lemma_rerun_prefix(
    stages: Seq<Stage>,
    results: Seq<StageResultView>,
    plan: Seq<Seq<char>>,
    executed: spec_fn(Seq<char>) -> StageResultView,
    executed_again: spec_fn(Seq<char>) -> StageResultView,
    m: int,
)
    requires
        run_through(stages, results, plan, executed) is Some,
        0 <= m <= plan.len(),
        forall|k: int|
            0 <= k < plan.len() ==> after_step(
                stages,
                run_through(stages, results, plan, executed)->0,
                #[trigger] plan[k],
                executed_again,
            ) == Some(run_through(stages, results, plan, executed)->0),
    ensures
        run_through(stages, run_through(stages, results, plan, executed)->0, plan.take(m), executed_again)
            == Some(run_through(stages, results, plan, executed)->0),
    decreases m,
{
    let rs = run_through(stages, results, plan, executed)->0;
    if m == 0 {
        assert(plan.take(0) =~= Seq::<Seq<char>>::empty());
    } else {
        lemma_rerun_prefix(stages, results, plan, executed, executed_again, m - 1);
        lemma_run_prefix(stages, rs, plan, executed_again, m - 1);
    }
}

/// In a run along an execution order, once a stage's final result is a
/// failure, every stage of the plan that depends on it is skipped at its step
/// (its command is not executed) and keeps that skip result.
pub proof fn law_run_skips_dependents_of_failure(
    stages: Seq<Stage>,
    results: Seq<StageResultView>,
    plan: Seq<Seq<char>>,
    executed: spec_fn(Seq<char>) -> StageResultView,
    failed: Seq<char>,
    k: int,
)
    requires
        distinct_stages(results),
        executions_fit(executed),
        is_execution_order(stages, plan),
        run_through(stages, results, plan, executed) is Some,
        0 <= k < plan.len(),
        find_stage(stages, plan[k]) is Some,
        dependency_names(find_stage(stages, plan[k])->0).contains(failed),
        find_result(run_through(stages, results, plan, executed)->0, failed) matches Some(r)
            && !r.success,
    ensures
        run_through(stages, results, plan.take(k), executed) is Some,
        step_outcome(stages, run_through(stages, results, plan.take(k), executed)->0, plan[k]) is Skipped,
        exists|d: Seq<char>|
            find_result(run_through(stages, results, plan, executed)->0, plan[k]) == Some(
                #[trigger] skipped_result(plan[k], d),
            ),
{
    let n = plan.len() as int;
    assert(plan.take(n) =~= plan);
    let x = plan[k];
    lemma_run_some_prefix(stages, results, plan, executed, k + 1, n);
    lemma_run_prefix(stages, results, plan, executed, k);
    let b = run_through(stages, results, plan.take(k), executed)->0;
    let rs = run_through(stages, results, plan, executed)->0;
    assert forall|i: int| k <= i < n implies #[trigger] plan[i] != failed by {
        lemma_dependency_earlier(stages, plan, k, failed, i);
    }
    lemma_result_stable(stages, results, plan, executed, k, n, failed);
    lemma_result_stable(stages, results, plan, executed, k, k, failed);
    law_failed_dependency_blocks(stages, b, x, failed);
    if let StepOutcome::Skipped(d) = step_outcome(stages, b, x) {
        law_result_after_record(b, skipped_result(x, d), x);
        assert forall|i: int| k + 1 <= i < n implies #[trigger] plan[i] != x by {
            assert(plan.no_duplicates());
        }
        lemma_result_stable(stages, results, plan, executed, k + 1, n, x);
        assert(find_result(rs, x) == Some(skipped_result(x, d)));
    }
}

/// A failure spreads along every chain of dependents: when `chain[0]`'s
/// final result is a failure and each later stage of the chain is in the plan
/// and depends on the one before it, each of them is skipped at its step and
/// ends with a skip result.
#[verifier::spinoff_prover]
#[verifier::rlimit(40)]
pub proof fn law_run_skips_transitive_dependents(
    stages: Seq<Stage>,
    results: Seq<StageResultView>,
    plan: Seq<Seq<char>>,
    executed: spec_fn(Seq<char>) -> StageResultView,
    chain: Seq<Seq<char>>,
)
    requires
        distinct_stages(results),
        executions_fit(executed),
        is_execution_order(stages, plan),
        run_through(stages, results, plan, executed) is Some,
        chain.len() > 0,
        find_result(run_through(stages, results, plan, executed)->0, chain[0]) matches Some(r)
            && !r.success,
        forall|i: int| 1 <= i < chain.len() ==> plan.contains(#[trigger] chain[i]),
        forall|i: int|
            1 <= i < chain.len() ==> find_stage(stages, #[trigger] chain[i]) is Some
                && dependency_names(find_stage(stages, chain[i])->0).contains(chain[i - 1]),
    ensures
        forall|i: int|
            1 <= i < chain.len() ==> exists|d: Seq<char>|
                find_result(run_through(stages, results, plan, executed)->0, #[trigger] chain[i])
                    == Some(skipped_result(chain[i], d)),
        forall|i: int, k: int|
            1 <= i < chain.len() && 0 <= k < plan.len() && plan[k] == #[trigger] chain[i] ==> (#[trigger] step_outcome(
                stages,
                run_through(stages, results, plan.take(k), executed)->0,
                plan[k],
            )) is Skipped,
    decreases chain.len(),
{
    if chain.len() > 1 {
        let shorter = chain.drop_last();
        assert forall|i: int| 1 <= i < shorter.len() implies plan.contains(#[trigger] shorter[i]) by {
            assert(shorter[i] == chain[i]);
        }
        assert forall|i: int| 1 <= i < shorter.len() implies find_stage(stages, #[trigger] shorter[i]) is Some
            && dependency_names(find_stage(stages, shorter[i])->0).contains(shorter[i - 1]) by {
            assert(shorter[i] == chain[i]);
            assert(shorter[i - 1] == chain[i - 1]);
        }
        law_run_skips_transitive_dependents(stages, results, plan, executed, shorter);
        let last = chain.len() - 1;
        let rs = run_through(stages, results, plan, executed)->0;
        assert(find_result(rs, chain[last - 1]) matches Some(r) && !r.success) by {
            if last - 1 >= 1 {
                assert(shorter[last - 1] == chain[last - 1]);
                let d = choose|d: Seq<char>|
                    find_result(rs, shorter[last - 1]) == Some(#[trigger] skipped_result(shorter[last - 1], d));
            }
        }
        assert(plan.contains(chain[last]));
        let k = choose|k: int| 0 <= k < plan.len() && plan[k] == chain[last];
        law_run_skips_dependents_of_failure(stages, results, plan, executed, chain[last - 1], k);
        assert forall|i: int|
            1 <= i < chain.len() implies exists|d: Seq<char>|
                find_result(rs, #[trigger] chain[i]) == Some(skipped_result(chain[i], d)) by {
            if i < last {
                assert(shorter[i] == chain[i]);
            }
        }
        assert forall|i: int, k2: int|
            1 <= i < chain.len() && 0 <= k2 < plan.len() && plan[k2] == #[trigger] chain[i] implies (#[trigger] step_outcome(
                stages,
                run_through(stages, results, plan.take(k2), executed)->0,
                plan[k2],
            )) is Skipped by {
            if i < last {
                assert(shorter[i] == chain[i]);
            } else {
                assert(plan.no_duplicates());
                assert(k2 == k);
            }
        }
    }
}

/// A run in which every executed stage succeeds, starting from successful
/// results only, gives every stage of the plan a result and every result is
/// a success: nothing is skipped.
pub proof fn law_clean_run_succeeds(
    stages: Seq<Stage>,
    results: Seq<StageResultView>,
    plan: Seq<Seq<char>>,
    executed: spec_fn(Seq<char>) -> StageResultView,
)
    requires
        distinct_stages(results),
        executions_fit(executed),
        forall|name: Seq<char>| #[trigger] executed(name).success,
        forall|i: int| 0 <= i < results.len() ==> #[trigger] results[i].success,
        run_through(stages, results, plan, executed) is Some,
    ensures
        forall|i: int|
            0 <= i < run_through(stages, results, plan, executed)->0.len() ==> #[trigger] run_through(
                stages,
                results,
                plan,
                executed,
            )->0[i].success,
        forall|k: int|
            0 <= k < plan.len() ==> has_result(
                run_through(stages, results, plan, executed)->0,
                #[trigger] plan[k],
            ),
{
    let n = plan.len() as int;
    assert(plan.take(n) =~= plan);
    lemma_clean_prefix(stages, results, plan, executed, n);
}

proof fn lemma_clean_prefix(
    stages: Seq<Stage>,
    results: Seq<StageResultView>,
    plan: Seq<Seq<char>>,
    executed: spec_fn(Seq<char>) -> StageResultView,
    m: int,
)
    requires
        distinct_stages(results),
        executions_fit(executed),
        forall|name: Seq<char>| #[trigger] executed(name).success,
        forall|i: int| 0 <= i < results.len() ==> #[trigger] results[i].success,
        0 <= m <= plan.len(),
        run_through(stages, results, plan.take(m), executed) is Some,
    ensures
        distinct_stages(run_through(stages, results, plan.take(m), executed)->0),
        forall|i: int|
            0 <= i < run_through(stages, results, plan.take(m), executed)->0.len() ==> #[trigger] run_through(
                stages,
                results,
                plan.take(m),
                executed,
            )->0[i].success,
        forall|k: int|
            0 <= k < m ==> has_result(
                run_through(stages, results, plan.take(m), executed)->0,
                #[trigger] plan[k],
            ),
    decreases m,
{
    if m == 0 {
        assert(plan.take(0) =~= Seq::<Seq<char>>::empty());
    } else {
        lemma_run_prefix(stages, results, plan, executed, m - 1);
        lemma_run_some_prefix(stages, results, plan, executed, m - 1, m);
        lemma_clean_prefix(stages, results, plan, executed, m - 1);
        let b = run_through(stages, results, plan.take(m - 1), executed)->0;
        let a = run_through(stages, results, plan.take(m), executed)->0;
        let x = plan[m - 1];
        lemma_step_frame(stages, b, x, executed, x);
        assert forall|k: int| 0 <= k < m implies has_result(a, #[trigger] plan[k]) by {
            if plan[k] != x {
                lemma_step_frame(stages, b, x, executed, plan[k]);
                assert(has_result(b, plan[k]));
                assert(find_result(b, plan[k]) is Some);
            }
        }
        match step_outcome(stages, b, x) {
            StepOutcome::Run => {
                let r = executed(x);
                assert forall|i: int| 0 <= i < a.len() implies #[trigger] a[i].success by {
                    if has_result(b, r.stage) {
                        if i != result_position(b, r.stage) {
                            assert(a[i] == b[i]);
                        }
                    } else if i < b.len() {
                        assert(a[i] == b[i]);
                    }
                }
            },
            StepOutcome::Skipped(d) => {
                let deps = dependency_names(find_stage(stages, x)->0);
                let j = choose|j: int| is_first_blocking(b, deps, j);
                let p = result_position(b, deps[j]);
                assert(b[p].success);
            },
            _ => {},
        }
    }
}

/// A stage runs exactly when it is a stage of the pipeline, each of its
/// dependencies has a successful result, and it has no result yet.
pub proof fn law_runs_exactly_when_dependencies_succeeded(
    stages: Seq<Stage>,
    results: Seq<StageResultView>,
    name: Seq<char>,
)
    ensures
        step_outcome(stages, results, name) is Run <==> {
            &&& find_stage(stages, name) is Some
            &&& forall|k: int|
                0 <= k < dependency_names(find_stage(stages, name)->0).len() ==> (find_result(
                    results,
                    #[trigger] dependency_names(find_stage(stages, name)->0)[k],
                ) matches Some(r) && r.success)
            &&& !has_result(results, name)
        },
{
    if step_outcome(stages, results, name) is Run {
        law_runs_only_after_dependencies_succeed(stages, results, name);
    } else if find_stage(stages, name) is Some {
        let deps = dependency_names(find_stage(stages, name)->0);
        if exists|j: int| is_first_blocking(results, deps, j) {
            let j = choose|j: int| is_first_blocking(results, deps, j);
            assert(blocks(results, deps[j]));
        }
    }
}

/// A run of a whole pipeline along an execution order, starting from
/// successful results only, in which every executed stage succeeds, never
/// fails a step: it completes, every stage of the pipeline gets a result, and
/// every result is a success.
pub proof fn law_clean_run_completes(
    stages: Seq<Stage>,
    results: Seq<StageResultView>,
    plan: Seq<Seq<char>>,
    executed: spec_fn(Seq<char>) -> StageResultView,
)
    requires
        distinct_names(stages),
        dependencies_known(stages),
        is_execution_order(stages, plan),
        distinct_stages(results),
        executions_fit(executed),
        forall|name: Seq<char>| #[trigger] executed(name).success,
        forall|i: int| 0 <= i < results.len() ==> #[trigger] results[i].success,
    ensures
        run_through(stages, results, plan, executed) is Some,
        forall|i: int|
            0 <= i < stages.len() ==> has_result(
                run_through(stages, results, plan, executed)->0,
                #[trigger] stages[i].name@,
            ),
        forall|i: int|
            0 <= i < run_through(stages, results, plan, executed)->0.len() ==> #[trigger] run_through(
                stages,
                results,
                plan,
                executed,
            )->0[i].success,
{
    let n = plan.len() as int;
    assert(plan.take(n) =~= plan);
    lemma_clean_run_some(stages, results, plan, executed, n);
    law_clean_run_succeeds(stages, results, plan, executed);
    law_execution_order_lists_every_stage(stages, plan);
    assert forall|i: int| 0 <= i < stages.len() implies has_result(
        run_through(stages, results, plan, executed)->0,
        #[trigger] stages[i].name@,
    ) by {
        assert(plan.contains(stages[i].name@));
        let k = choose|k: int| 0 <= k < plan.len() && plan[k] == stages[i].name@;
        assert(has_result(run_through(stages, results, plan, executed)->0, plan[k]));
    }
}

proof fn lemma_clean_run_some(
    stages: Seq<Stage>,
    results: Seq<StageResultView>,
    plan: Seq<Seq<char>>,
    executed: spec_fn(Seq<char>) -> StageResultView,
    m: int,
)
    requires
        distinct_names(stages),
        dependencies_known(stages),
        is_execution_order(stages, plan),
        distinct_stages(results),
        executions_fit(executed),
        forall|name: Seq<char>| #[trigger] executed(name).success,
        forall|i: int| 0 <= i < results.len() ==> #[trigger] results[i].success,
        0 <= m <= plan.len(),
    ensures
        run_through(stages, results, plan.take(m), executed) is Some,
    decreases m,
{
    if m == 0 {
        assert(plan.take(0) =~= Seq::<Seq<char>>::empty());
    } else {
        let k = m - 1;
        lemma_clean_run_some(stages, results, plan, executed, k);
        lemma_clean_prefix(stages, results, plan, executed, k);
        lemma_run_prefix(stages, results, plan, executed, k);
        law_execution_order_lists_every_stage(stages, plan);
        let b = run_through(stages, results, plan.take(k), executed)->0;
        let x = plan[k];
        assert(has_stage(stages, x));
        let p = stage_position(stages, x);
        assert(find_stage(stages, x) == Some(stages[p]));
        let deps = dependency_names(stages[p]);
        assert forall|j: int| 0 <= j < deps.len() implies !blocks(b, #[trigger] deps[j]) by {
            assert(deps[j] == stages[p].dependencies@[j]@);
            assert(has_stage(stages, stages[p].dependencies@[j]@));
            let q = stage_position(stages, deps[j]);
            assert(plan.contains(stages[q].name@));
            let i = choose|i: int| 0 <= i < plan.len() && plan[i] == stages[q].name@;
            assert(deps.contains(deps[j]));
            assert(depends_on(stages, plan[k], plan[i]));
            assert(i < k);
            assert(has_result(b, plan[i]));
            let r = result_position(b, deps[j]);
            assert(b[r].success);
        }
        if exists|j: int| is_first_blocking(b, deps, j) {
            let j = choose|j: int| is_first_blocking(b, deps, j);
            assert(!blocks(b, deps[j]));
        }
    }
}

} // verus!
