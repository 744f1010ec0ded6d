use git_pipeline::{
    command_outcome, ArtifactMetadata, ArtifactTracker, Pipeline, PipelineError, PipelineReport,
    PipelineRun, Stage, StageAction, StageResult,
};

fn result(stage: &str, success: bool, exit_code: i32, stdout: &str, stderr: &str) -> StageResult {
    StageResult {
        stage: stage.to_string(),
        success,
        exit_code,
        stdout: stdout.to_string(),
        stderr: stderr.to_string(),
        duration_ms: 5,
        commit_sha: "abc1234".to_string(),
    }
}

/// Drives a run the way the host does, with each executed stage reporting
/// the outcome that `outcome` gives for it.
fn drive(run: &mut PipelineRun, outcome: impl Fn(&str) -> (bool, i32)) -> Vec<String> {
    let order = run.plan().unwrap();
    let mut executed = Vec::new();
    for name in &order {
        if run.decide_stage(name).unwrap() == StageAction::Execute {
            let (success, code) = outcome(name);
            run.record(result(name, success, code, "", ""));
            executed.push(name.clone());
        }
    }
    executed
}

// ─── Stage Tests ───

#[test]
fn test_stage_new() {
    let s = Stage::new("build", "cargo build");
    assert_eq!(s.name, "build");
    assert_eq!(s.command, "cargo build");
    assert!(s.dependencies.is_empty());
}

#[test]
fn test_stage_with_dependencies() {
    let s = Stage::new("test", "cargo test").depends_on("build").depends_on("lint");
    assert_eq!(s.dependencies, vec!["build", "lint"]);
}

#[test]
fn test_stage_branch_name() {
    let s = Stage::new("build", "cargo build");
    assert_eq!(s.branch_name(), "ci/build");
}

// ─── Pipeline Tests ───

#[test]
fn test_pipeline_new() {
    let p = Pipeline::new();
    assert!(p.is_empty());
    assert_eq!(p.len(), 0);
}

#[test]
fn test_pipeline_add_stage() {
    let mut p = Pipeline::new();
    p.add_stage(Stage::new("build", "cargo build"));
    assert_eq!(p.len(), 1);
    assert!(p.get_stage("build").is_some());
    assert!(p.get_stage("test").is_none());
}

#[test]
fn test_pipeline_validation_valid() {
    let mut p = Pipeline::new();
    p.add_stage(Stage::new("fmt", "cargo fmt -- --check"));
    p.add_stage(Stage::new("check", "cargo check").depends_on("fmt"));
    assert!(p.validate().is_ok());
}

#[test]
fn test_pipeline_validation_cycle() {
    let mut p = Pipeline::new();
    p.add_stage(Stage::new("a", "echo a").depends_on("b"));
    p.add_stage(Stage::new("b", "echo b").depends_on("a"));
    assert!(matches!(p.validate().unwrap_err(), PipelineError::CycleDetected));
}

#[test]
fn test_pipeline_validation_missing_dep() {
    let mut p = Pipeline::new();
    p.add_stage(Stage::new("test", "cargo test").depends_on("nonexistent"));
    assert!(matches!(
        p.validate().unwrap_err(),
        PipelineError::DependencyNotFound(name) if name == "nonexistent"
    ));
}

#[test]
fn test_pipeline_execution_order() {
    let mut p = Pipeline::new();
    p.add_stage(Stage::new("fmt", "echo fmt"));
    p.add_stage(Stage::new("check", "echo check").depends_on("fmt"));
    p.add_stage(Stage::new("test", "echo test").depends_on("check"));
    p.add_stage(Stage::new("publish", "echo publish").depends_on("test"));

    let order = p.execution_order().unwrap();
    assert_eq!(order.len(), 4);

    let fmt_pos = order.iter().position(|n| n == "fmt").unwrap();
    let check_pos = order.iter().position(|n| n == "check").unwrap();
    let test_pos = order.iter().position(|n| n == "test").unwrap();
    let pub_pos = order.iter().position(|n| n == "publish").unwrap();

    assert!(fmt_pos < check_pos);
    assert!(check_pos < test_pos);
    assert!(test_pos < pub_pos);
}

#[test]
fn test_pipeline_root_stages() {
    let mut p = Pipeline::new();
    p.add_stage(Stage::new("fmt", "echo fmt"));
    p.add_stage(Stage::new("check", "echo check").depends_on("fmt"));

    let roots = p.root_stages();
    assert_eq!(roots.len(), 1);
    assert_eq!(roots[0].name, "fmt");
}

#[test]
fn test_pipeline_diamond_dependency() {
    // build → test, build → lint, test → publish, lint → publish
    let mut p = Pipeline::new();
    p.add_stage(Stage::new("build", "echo build"));
    p.add_stage(Stage::new("test", "echo test").depends_on("build"));
    p.add_stage(Stage::new("lint", "echo lint").depends_on("build"));
    p.add_stage(Stage::new("publish", "echo publish").depends_on("test").depends_on("lint"));

    assert!(p.validate().is_ok());
    let order = p.execution_order().unwrap();
    assert_eq!(order.len(), 4);

    let build_pos = order.iter().position(|n| n == "build").unwrap();
    let test_pos = order.iter().position(|n| n == "test").unwrap();
    let lint_pos = order.iter().position(|n| n == "lint").unwrap();
    let pub_pos = order.iter().position(|n| n == "publish").unwrap();

    assert!(build_pos < test_pos);
    assert!(build_pos < lint_pos);
    assert!(test_pos < pub_pos);
    assert!(lint_pos < pub_pos);
}

#[test]
fn test_standard_pipeline() {
    let p = Pipeline::standard_pipeline();
    assert_eq!(p.len(), 4);
    assert!(p.validate().is_ok());
    let order = p.execution_order().unwrap();
    assert_eq!(order[0], "fmt");
    assert_eq!(order[3], "publish-dry-run");
}

// ─── PipelineRun Tests ───

#[test]
fn test_run_verify_not_git_repo() {
    // `git rev-parse --git-dir` outside a repository exits with 128.
    let args = vec!["rev-parse".to_string(), "--git-dir".to_string()];
    let outcome = command_outcome(
        &args,
        false,
        Some(128),
        "",
        "fatal: not a git repository (or any of the parent directories): .git\n".to_string(),
    );
    assert!(matches!(outcome.unwrap_err(), PipelineError::GitCommandFailed { .. }));
}

#[test]
fn test_run_single_success_stage() {
    let mut p = Pipeline::new();
    p.add_stage(Stage::new("echo-stage", "echo hello-world"));

    let mut run = PipelineRun::new("/tmp/repo", p);
    let stage = run.stage_to_run("echo-stage").unwrap();
    let result = StageResult::executed(
        stage,
        true,
        0,
        "hello-world\n".to_string(),
        String::new(),
        3,
        "0123abc".to_string(),
    );
    run.record(result);
    let result = run.get_result("echo-stage").unwrap();

    assert!(result.success);
    assert_eq!(result.exit_code, 0);
    assert!(result.stdout.contains("hello-world"));
    assert!(!result.commit_sha.is_empty());
}

#[test]
fn test_run_single_failing_stage() {
    let mut p = Pipeline::new();
    p.add_stage(Stage::new("fail-stage", "exit 42"));

    let mut run = PipelineRun::new("/tmp/repo", p);
    let stage = run.stage_to_run("fail-stage").unwrap();
    let result =
        StageResult::executed(stage, false, 42, String::new(), String::new(), 1, "0123abc".to_string());
    run.record(result);
    let result = run.get_result("fail-stage").unwrap();

    assert!(!result.success);
    assert_eq!(result.exit_code, 42);
}

#[test]
fn test_run_full_pipeline_success() {
    let mut p = Pipeline::new();
    p.add_stage(Stage::new("step1", "echo step1"));
    p.add_stage(Stage::new("step2", "echo step2").depends_on("step1"));
    p.add_stage(Stage::new("step3", "echo step3").depends_on("step2"));

    let mut run = PipelineRun::new("/tmp/repo", p);
    let executed = drive(&mut run, |_| (true, 0));
    assert_eq!(executed, vec!["step1", "step2", "step3"]);

    let results = run.results();
    assert_eq!(results.len(), 3);
    assert!(results.iter().all(|r| r.success));
}

#[test]
fn test_run_pipeline_stops_on_failure() {
    let mut p = Pipeline::new();
    p.add_stage(Stage::new("step1", "exit 1"));
    p.add_stage(Stage::new("step2", "echo step2").depends_on("step1"));

    let mut run = PipelineRun::new("/tmp/repo", p);
    let executed = drive(&mut run, |_| (false, 1));
    assert_eq!(executed, vec!["step1"]);

    let r1 = run.get_result("step1").unwrap();
    assert!(!r1.success);

    let r2 = run.get_result("step2").unwrap();
    assert!(!r2.success);
    assert!(r2.stderr.contains("skipped"));
}

#[test]
fn test_run_creates_ci_branches() {
    let hello = Stage::new("hello", "echo hello");
    assert_eq!(hello.branch_name(), "ci/hello");
    let listing = "ci/hello 1a2b3c4";
    let branches = PipelineReport::list_ci_branches(listing);
    assert_eq!(branches, vec![("hello".to_string(), "1a2b3c4".to_string())]);
}

// ─── Report Tests ───

#[test]
fn test_report_empty_repo() {
    let branches = PipelineReport::list_ci_branches("");
    let results = PipelineReport::read_all_notes(&branches, Vec::new());
    let summary = PipelineReport::generate(results);
    assert_eq!(summary.total_stages, 0);
    assert!(summary.overall_success); // vacuously true
}

#[test]
fn test_report_after_run() {
    let branches = PipelineReport::list_ci_branches("ci/step1 aaa1111\nci/step2 bbb2222");
    let notes = vec![Some(result("step1", true, 0, "ok\n", "")), Some(result("step2", true, 0, "ok\n", ""))];
    let results = PipelineReport::read_all_notes(&branches, notes);
    let summary = PipelineReport::generate(results);
    assert_eq!(summary.total_stages, 2);
    assert_eq!(summary.passed, 2);
    assert!(summary.overall_success);

    let formatted = PipelineReport::format_summary(&summary);
    assert!(formatted.contains("✅"));
    assert!(formatted.contains("step1"));
    assert!(formatted.contains("step2"));
}

// ─── ArtifactTracker Tests ───

fn metadata(name: &str) -> ArtifactMetadata {
    ArtifactMetadata {
        name: name.to_string(),
        stage: "build".to_string(),
        commit_sha: "0123abc".to_string(),
        created_at: "2026-06-06T00:00:00Z".to_string(),
        size_bytes: 1024,
        description: "Test binary".to_string(),
    }
}

#[test]
fn test_artifact_store_and_get() {
    let meta = metadata("v1.0-binary");
    let args = ArtifactTracker::store(&meta, "{}");
    assert_eq!(args, vec!["tag", "-a", "artifact/v1.0-binary", "0123abc", "-m", "{}"]);
    assert_eq!(ArtifactTracker::tag_name("v1.0-binary"), "artifact/v1.0-binary");
    let get = ArtifactTracker::get("v1.0-binary");
    assert_eq!(get, vec!["tag", "-l", "artifact/v1.0-binary", "--format=%(contents)"]);
}

#[test]
fn test_artifact_exists() {
    assert!(!ArtifactTracker::listing_shows_tag("", "nope"));
    let args = ArtifactTracker::exists_query("test-artifact");
    assert_eq!(args, vec!["tag", "-l", "artifact/test-artifact"]);
    assert!(ArtifactTracker::listing_shows_tag("artifact/test-artifact", "test-artifact"));
}

#[test]
fn test_artifact_remove() {
    let args = ArtifactTracker::remove("removeme");
    assert_eq!(args, vec!["tag", "-d", "artifact/removeme"]);
}

#[test]
fn test_artifact_list() {
    let listing = "{\n  \"name\": \"artifact-0\"\n}\n\n{\n  \"name\": \"artifact-1\"\n}\n\n{\n  \"name\": \"artifact-2\"\n}";
    let texts = ArtifactTracker::listed_metadata(listing);
    assert_eq!(texts.len(), 3);
    assert_eq!(texts[1], "{\n  \"name\": \"artifact-1\"\n}");
    assert_eq!(ArtifactTracker::list(), vec!["tag", "-l", "artifact/*", "--format=%(contents)"]);
}

// ─── Error Tests ───

#[test]
fn test_error_display() {
    let e = PipelineError::CycleDetected;
    assert!(e.message().contains("cycle"));

    let e = PipelineError::DependencyNotFound("build".to_string());
    assert!(e.message().contains("build"));
}
