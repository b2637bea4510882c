use parasol::ai;
use parasol::args::{
    Ai, AiArgs, CommonArgs, MiniZincArgs, OutputMode, SolverConfigMode, StaticArgs, UnpackAiError,
    Verbosity,
};
use parasol::backup_solvers;
use parasol::mzn_to_fzn;
use parasol::orchestrator::static_parallel_portfolio::{
    self, feature_timeout, get_compilation_priority, get_cores, schedule_source, FeatureOutcome,
    RestartEvent, RestartLoop, RestartStep, ScheduleSource,
};
use parasol::orchestrator::static_parallel_portfolio::Error as Failure;
use parasol::orchestrator::{exit_code, needs_backup_solver, Error};
use parasol::sunny::{cores_or_default, static_schedule};
use std::io;
use std::path::PathBuf;

fn static_args(cores: usize, static_runtime: u64, feature_timeout: u64) -> StaticArgs {
    StaticArgs {
        ai: AiArgs {
            kind: Ai::Simple,
            config: None,
            feature_extraction_solver_id: "org.gecode.gecode".to_owned(),
        },
        static_runtime,
        restart_interval: 5,
        feature_timeout,
        static_schedule: None,
        timeout_schedule: None,
        common: CommonArgs {
            model: PathBuf::from("m.mzn"),
            data: None,
            output_mode: OutputMode::Dzn,
            output_objective: false,
            output_solver: false,
            cores,
            pin_java_solvers: false,
            enforce_memory: false,
            solver_config_mode: SolverConfigMode::Cache,
            compilation_priority: None,
            minizinc: MiniZincArgs { minizinc_exe: PathBuf::from("minizinc") },
            verbosity: Verbosity::Quiet,
        },
    }
}

#[test]
fn one_core_is_kept_for_features() {
    assert_eq!(get_cores(&static_args(8, 5, 10).common, true), (8, 7));
    assert_eq!(get_cores(&static_args(1, 5, 10).common, true), (2, 1));
    assert_eq!(get_cores(&static_args(0, 5, 10).common, true), (2, 1));
    assert_eq!(get_cores(&static_args(2, 5, 10).common, true), (2, 1));
    assert_eq!(get_cores(&static_args(1, 5, 10).common, false), (1, 1));
}

#[test]
fn features_have_at_least_the_static_runtime() {
    assert_eq!(feature_timeout(&static_args(2, 5, 10)), 10);
    assert_eq!(feature_timeout(&static_args(2, 15, 10)), 15);
}

#[test]
fn priority_is_empty_without_a_file() {
    assert!(get_compilation_priority(None).take_next().is_none());
    let mut priority = get_compilation_priority(Some("#x\na"));
    assert_eq!(priority.take_next().map(|(id, _)| id), Some("a".to_owned()));
}

#[test]
fn features_decide_where_the_schedule_comes_from() {
    let source = schedule_source(FeatureOutcome::Extracted(vec![1]), 4).unwrap();
    assert!(matches!(source, ScheduleSource::Ai(f, 4) if f == vec![1]));
    let source = schedule_source::<Vec<i64>>(FeatureOutcome::TimedOut, 3).unwrap();
    assert!(matches!(source, ScheduleSource::Timeout(3)));
    let error = schedule_source::<Vec<i64>>(FeatureOutcome::Cancelled, 3).unwrap_err();
    assert!(matches!(error, static_parallel_portfolio::Error::Cancelled));
    let failed = FeatureOutcome::Failed(static_parallel_portfolio::Error::FznToFeatures("x".to_owned()));
    let error = schedule_source::<Vec<i64>>(failed, 3).unwrap_err();
    assert!(matches!(error, static_parallel_portfolio::Error::FznToFeatures(_)));
}

#[test]
fn extra_compilations_are_disabled_once() {
    let go_on = RestartEvent::TimeUp { all_solvers_failed: false };
    let mut with_ai = RestartLoop::new(true, 7);
    assert!(matches!(
        with_ai.step(go_on),
        RestartStep::Restart { disable_extra_compilations: true, seconds: 7 }
    ));
    for _ in 0..3 {
        assert!(matches!(
            with_ai.step(go_on),
            RestartStep::Restart { disable_extra_compilations: false, seconds: 7 }
        ));
    }
    let mut without_ai = RestartLoop::new(false, 7);
    assert!(matches!(
        without_ai.step(go_on),
        RestartStep::Restart { disable_extra_compilations: false, .. }
    ));
}

#[test]
fn restart_loop_ends_on_failure_and_cancellation() {
    let mut restart = RestartLoop::new(true, 7);
    assert!(matches!(
        restart.step(RestartEvent::TimeUp { all_solvers_failed: true }),
        RestartStep::End(static_parallel_portfolio::Error::SolverFailure)
    ));
    assert!(matches!(
        restart.step(RestartEvent::Cancelled),
        RestartStep::End(static_parallel_portfolio::Error::Cancelled)
    ));
}

#[test]
fn cancellation_stays_cancellation() {
    assert!(matches!(Error::from(static_parallel_portfolio::Error::Cancelled), Error::Cancelled));
    let error = Error::from(static_parallel_portfolio::Error::SolverFailure);
    assert_eq!(
        error.message(),
        "error occurred in orchestrator: All solvers failed, could not continue"
    );
    assert_eq!(Error::Cancelled.message(), "conversion was cancelled");
}

#[test]
fn every_error_has_its_words() {
    let io = io::Error::new(io::ErrorKind::Other, "x");
    let words = [
        (Failure::Cancelled, "conversion was cancelled"),
        (Failure::FznToFeatures(String::new()), "failed converting flatzinc to features"),
        (Failure::MznToFzn(mzn_to_fzn::Error::Cancelled), "failed converting minizinc to flatzinc"),
        (Failure::WaitForMznToFzn(String::new()), "failed to wait for the compilation"),
        (Failure::Schedule(String::new()), "Schedule error"),
        (Failure::Ai(ai::Error::Other(String::new())), "Ai error"),
        (Failure::JoinError(String::new()), "Task join error"),
        (Failure::SolverManager(String::new()), "Solver manager error"),
        (Failure::SolverFailure, "All solvers failed, could not continue"),
        (Failure::TokioIo(io), "an IO error occurred"),
        (
            Failure::UnpackAi(UnpackAiError::CommandLineAiConfigMissing(String::new())),
            "failed to unpack the AI",
        ),
    ];
    for (error, text) in words {
        assert_eq!(error.message(), text);
    }
}

#[test]
fn backup_solver_runs_after_failures_only() {
    assert!(!needs_backup_solver(&Ok(())));
    assert!(!needs_backup_solver(&Err(Error::Cancelled)));
    let failure = Error::from(static_parallel_portfolio::Error::SolverFailure);
    assert!(needs_backup_solver(&Err(failure)));
}

#[test]
fn failed_backup_solver_gives_code_one() {
    assert_eq!(exit_code(&None), 0);
    assert_eq!(exit_code(&Some(Ok(()))), 0);
    assert_eq!(exit_code(&Some(Err(backup_solvers::Error::CommandFailed))), 1);
}

#[test]
fn first_schedule_shares_the_cores() {
    assert_eq!(cores_or_default(None), 2);
    assert_eq!(cores_or_default(Some(0)), 0);
    let schedule = static_schedule(5);
    assert_eq!(schedule.len(), 2);
    assert_eq!((schedule[0].solver.as_str(), schedule[0].cores), ("gecode", 2));
    assert_eq!((schedule[1].solver.as_str(), schedule[1].cores), ("coinbc", 2));
}
