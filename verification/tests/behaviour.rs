use git_pipeline::text::{i32_text, lines, trim, u64_text};
use git_pipeline::stage::capped_output;
use git_pipeline::{
    command_outcome, ArtifactTracker, Pipeline, PipelineError, PipelineReport, PipelineRun,
    PipelineSummary, Stage, StageAction, StageResult,
};

fn result(stage: &str, success: bool, exit_code: i32, stdout: &str, stderr: &str) -> StageResult {
    StageResult {
        stage: stage.to_string(),
        success,
        exit_code,
        stdout: stdout.to_string(),
        stderr: stderr.to_string(),
        duration_ms: 12,
        commit_sha: "cafe".to_string(),
    }
}

#[test]
fn lines_follow_str_lines() {
    assert_eq!(lines("a\r\nb\n"), vec!["a", "b"]);
    assert_eq!(lines("a\r"), vec!["a\r"]);
    assert_eq!(lines(""), Vec::<String>::new());
    assert_eq!(lines("\n"), vec![""]);
    assert_eq!(lines("x\n\ny"), vec!["x", "", "y"]);
}

#[test]
fn trim_removes_unicode_whitespace() {
    assert_eq!(trim("\u{3000} x y\t\n"), "x y");
    assert_eq!(trim("   "), "");
    assert_eq!(trim("\u{a0}z\u{2028}"), "z");
}

#[test]
fn integers_render_in_decimal() {
    assert_eq!(i32_text(-42), "-42");
    assert_eq!(i32_text(0), "0");
    assert_eq!(i32_text(i32::MIN), "-2147483648");
    assert_eq!(u64_text(u64::MAX), "18446744073709551615");
}

#[test]
fn long_output_is_cut_at_the_byte_limit() {
    let long = "a".repeat(10001);
    assert_eq!(capped_output(long).len(), 10000);
    let short = "é".repeat(10);
    assert_eq!(capped_output(short.clone()), short);
    // 4999 two-byte characters and then a two-byte one straddle nothing: cut at 10000.
    let wide = "é".repeat(6000);
    let kept = capped_output(wide);
    assert_eq!(kept.len(), 10000);
    assert_eq!(kept.chars().count(), 5000);
}

#[test]
fn stage_texts_are_exact() {
    let s = Stage::new("build", "cargo build");
    assert_eq!(s.result_file_name(), ".ci-result-build");
    assert_eq!(s.commit_message(true, 0), "ci: build PASSED (exit 0)");
    assert_eq!(s.commit_message(false, -1), "ci: build FAILED (exit -1)");
}

#[test]
fn skipped_result_names_the_failed_dependency() {
    let r = StageResult::skipped(&"deploy".to_string(), &"test".to_string());
    assert_eq!(r.stage, "deploy");
    assert!(!r.success);
    assert_eq!(r.exit_code, -1);
    assert_eq!(r.stderr, "skipped: dependency 'test' failed");
    assert!(r.stdout.is_empty());
    assert!(r.commit_sha.is_empty());
}

#[test]
fn error_messages_are_exact() {
    let cases = vec![
        (
            PipelineError::GitCommandFailed {
                command: "tag -d x".to_string(),
                exit_code: 1,
                stderr: "  error: tag 'x' not found.\n".to_string(),
            },
            "git command 'tag -d x' failed (exit 1): error: tag 'x' not found.",
        ),
        (PipelineError::Utf8Error("bad byte".to_string()), "UTF-8 error: bad byte"),
        (PipelineError::JsonError("eof".to_string()), "JSON error: eof"),
        (PipelineError::DependencyNotFound("build".to_string()), "dependency 'build' not found"),
        (PipelineError::CycleDetected, "cycle detected in stage dependencies"),
        (PipelineError::NotAGitRepo("/tmp/x".to_string()), "not a git repo: /tmp/x"),
        (PipelineError::StageAlreadyRun("fmt".to_string()), "stage 'fmt' already run"),
        (PipelineError::Io("denied".to_string()), "IO error: denied"),
    ];
    for (e, text) in cases {
        assert_eq!(e.message(), text);
    }
}

#[test]
fn git_outcome_trims_or_reports_failure() {
    let args = vec!["rev-parse".to_string(), "HEAD".to_string()];
    let ok = command_outcome(&args, true, Some(0), "  abc123\n", String::new()).unwrap();
    assert_eq!(ok, "abc123");
    match command_outcome(&args, false, None, "", "boom".to_string()) {
        Err(PipelineError::GitCommandFailed { command, exit_code, stderr }) => {
            assert_eq!(command, "rev-parse HEAD");
            assert_eq!(exit_code, 1);
            assert_eq!(stderr, "boom");
        }
        _ => panic!("expected a git failure"),
    }
}

#[test]
fn execution_order_does_not_follow_insertion_order() {
    let mut p = Pipeline::new();
    p.add_stage(Stage::new("publish", "p").depends_on("test"));
    p.add_stage(Stage::new("test", "t").depends_on("check"));
    p.add_stage(Stage::new("check", "c").depends_on("fmt"));
    p.add_stage(Stage::new("fmt", "f"));
    assert_eq!(p.execution_order().unwrap(), vec!["fmt", "check", "test", "publish"]);
}

#[test]
fn self_dependency_is_a_cycle() {
    let mut p = Pipeline::new();
    p.add_stage(Stage::new("loop", "x").depends_on("loop"));
    assert!(matches!(p.execution_order().unwrap_err(), PipelineError::CycleDetected));
}

#[test]
fn first_missing_dependency_is_reported() {
    let mut p = Pipeline::new();
    p.add_stage(Stage::new("a", "x").depends_on("m1"));
    p.add_stage(Stage::new("b", "x").depends_on("m2"));
    assert!(matches!(
        p.execution_order().unwrap_err(),
        PipelineError::DependencyNotFound(name) if name == "m1"
    ));
}

#[test]
fn adding_a_stage_twice_replaces_it() {
    let mut p = Pipeline::new();
    p.add_stage(Stage::new("build", "old"));
    p.add_stage(Stage::new("lint", "l"));
    p.add_stage(Stage::new("build", "new"));
    assert_eq!(p.len(), 2);
    assert_eq!(p.get_stage("build").unwrap().command, "new");
    assert_eq!(p.stage_names(), vec!["build", "lint"]);
}

#[test]
fn decisions_cover_every_outcome() {
    let mut p = Pipeline::new();
    p.add_stage(Stage::new("a", "x"));
    p.add_stage(Stage::new("b", "x").depends_on("a"));
    let mut run = PipelineRun::new("/repo", p);

    assert!(matches!(
        run.decide_stage("zzz").unwrap_err(),
        PipelineError::DependencyNotFound(n) if n == "zzz"
    ));
    assert!(matches!(
        run.decide_stage("b").unwrap_err(),
        PipelineError::DependencyNotFound(n) if n == "a"
    ));
    assert_eq!(run.decide_stage("a").unwrap(), StageAction::Execute);
    run.record(result("a", true, 0, "", ""));
    assert_eq!(run.decide_stage("a").unwrap(), StageAction::AlreadyRecorded);
    assert_eq!(run.decide_stage("b").unwrap(), StageAction::Execute);
    run.record(result("a", false, 3, "", ""));
    assert_eq!(run.decide_stage("b").unwrap(), StageAction::Skipped);
    assert_eq!(run.get_result("b").unwrap().stderr, "skipped: dependency 'a' failed");
    assert_eq!(run.results().len(), 2);
}

#[test]
fn failure_spreads_to_transitive_dependents() {
    let mut p = Pipeline::new();
    p.add_stage(Stage::new("a", "x"));
    p.add_stage(Stage::new("b", "x").depends_on("a"));
    p.add_stage(Stage::new("c", "x").depends_on("b"));
    let mut run = PipelineRun::new("/repo", p);
    for name in run.plan().unwrap() {
        if run.decide_stage(&name).unwrap() == StageAction::Execute {
            run.record(result(&name, false, 2, "", "broken"));
        }
    }
    assert_eq!(run.get_result("b").unwrap().stderr, "skipped: dependency 'a' failed");
    assert_eq!(run.get_result("c").unwrap().stderr, "skipped: dependency 'b' failed");
}

#[test]
fn branch_listing_is_parsed() {
    let listing = "ci/build abc\nci/ci/deep def\nnospace\n  ci/spaced   g h  \r\nother xyz";
    let branches = PipelineReport::list_ci_branches(listing);
    assert_eq!(
        branches,
        vec![
            ("build".to_string(), "abc".to_string()),
            ("deep".to_string(), "def".to_string()),
            ("spaced".to_string(), "  g h".to_string()),
            ("other".to_string(), "xyz".to_string()),
        ]
    );
}

#[test]
fn missing_notes_get_a_stand_in() {
    let commits = vec![("a".to_string(), "111".to_string()), ("b".to_string(), "222".to_string())];
    let notes = vec![Some(result("a", true, 0, "", "")), None];
    let results = PipelineReport::read_all_notes(&commits, notes);
    assert_eq!(results.len(), 2);
    assert!(results[0].success);
    assert_eq!(results[1].stage, "b");
    assert_eq!(results[1].commit_sha, "222");
    assert_eq!(results[1].exit_code, -1);
    assert_eq!(results[1].stderr, "no note found");
}

#[test]
fn summary_counts_partition_the_results() {
    let summary = PipelineReport::generate(vec![
        result("a", true, 0, "", ""),
        result("b", false, 1, "", ""),
        result("c", false, -1, "", ""),
        result("d", false, -1, "", ""),
    ]);
    assert_eq!(summary.total_stages, 4);
    assert_eq!(summary.passed, 1);
    assert_eq!(summary.failed, 1);
    assert_eq!(summary.skipped, 2);
    assert_eq!(summary.passed + summary.failed + summary.skipped, summary.total_stages);
    assert!(!summary.overall_success);
}

#[test]
fn report_text_is_exact() {
    let summary = PipelineSummary {
        total_stages: 2,
        passed: 1,
        failed: 1,
        skipped: 0,
        results: vec![
            result("fmt", true, 0, "1\n2\n3\n4\n5\n6\n", "ignored"),
            result("test", false, 101, "", "e1\ne2"),
        ],
        overall_success: false,
    };
    let text = PipelineReport::format_summary(&summary);
    let expected = [
        "Pipeline Report: 2 stages\n",
        "  ✅ Passed: 1  ❌ Failed: 1  ⏭️  Skipped: 0\n",
        "  Overall: ❌ FAILURE\n",
        "\nStage Results:\n",
        "  ✅ fmt (exit 0, 12ms)\n",
        "     > 1\n     > 2\n     > 3\n     > 4\n     > 5\n",
        "  ❌ test (exit 101, 12ms)\n",
        "     ! e1\n     ! e2\n",
    ]
    .join("");
    assert_eq!(text, expected);
}

#[test]
fn skipped_rows_use_the_skip_icon() {
    let summary = PipelineReport::generate(vec![result("c", false, -1, "", "skipped: dependency 'b' failed")]);
    let text = PipelineReport::format_summary(&summary);
    assert!(text.contains("  ⏭️  c (exit -1, 12ms)\n     ! skipped: dependency 'b' failed\n"));
}

#[test]
fn artifact_listing_is_split_at_blank_lines() {
    assert_eq!(ArtifactTracker::listed_metadata(""), vec![""]);
    assert_eq!(ArtifactTracker::listed_metadata(" a \n\n\n\n b"), vec!["a", "", "b"]);
}

#[test]
fn root_stages_keep_pipeline_order() {
    let mut p = Pipeline::new();
    p.add_stage(Stage::new("x", "1"));
    p.add_stage(Stage::new("y", "2").depends_on("x"));
    p.add_stage(Stage::new("z", "3"));
    let roots: Vec<&str> = p.root_stages().iter().map(|s| s.name.as_str()).collect();
    assert_eq!(roots, vec!["x", "z"]);
    assert_eq!(p.stages().len(), 3);
}

#[test]
fn existence_needs_the_exact_tag() {
    // `git tag -l artifact/v1*` lists every tag the pattern matches.
    assert!(!ArtifactTracker::listing_shows_tag("artifact/v1.0-binary", "v1*"));
    assert!(ArtifactTracker::listing_shows_tag("artifact/v1\nartifact/v1.0-binary", "v1"));
    assert!(!ArtifactTracker::listing_shows_tag("artifact/v10", "v1"));
}

#[test]
fn rerun_executes_nothing_and_keeps_results() {
    let mut p = Pipeline::new();
    p.add_stage(Stage::new("a", "x"));
    p.add_stage(Stage::new("b", "x").depends_on("a"));
    p.add_stage(Stage::new("c", "x").depends_on("b"));
    let mut run = PipelineRun::new("/repo", p);
    let order = run.plan().unwrap();
    for name in &order {
        if run.decide_stage(name).unwrap() == StageAction::Execute {
            let ok = name != "b";
            run.record(result(name, ok, if ok { 0 } else { 1 }, "", ""));
        }
    }
    let before: Vec<(String, bool, String)> =
        run.results().iter().map(|r| (r.stage.clone(), r.success, r.stderr.clone())).collect();
    for name in &order {
        assert_ne!(run.decide_stage(name).unwrap(), StageAction::Execute);
    }
    let after: Vec<(String, bool, String)> =
        run.results().iter().map(|r| (r.stage.clone(), r.success, r.stderr.clone())).collect();
    assert_eq!(before, after);
    assert_eq!(run.get_result("c").unwrap().stderr, "skipped: dependency 'b' failed");
}

#[test]
fn report_has_a_row_per_result() {
    let summary = PipelineReport::generate(vec![result("step1", true, 0, "", ""), result("step2", true, 0, "", "")]);
    let text = PipelineReport::format_summary(&summary);
    assert!(text.contains("  ✅ step1 (exit 0, 12ms)\n"));
    assert!(text.contains("  ✅ step2 (exit 0, 12ms)\n"));
    assert_eq!(summary.passed, 2);
}
