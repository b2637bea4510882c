use parasol::args::{CommonArgs, MiniZincArgs, OutputMode, SolverConfigMode, Verbosity};
use parasol::backup_solvers::{self, backup_result, backup_solver_cmd};
use parasol::command::{Argument, CommandLine, ExitStatus};
use parasol::mzn_to_fzn::{
    conversion_result, forwards_warnings, get_mzn_to_fzn_cmd, CachedConverter, ConversionError,
    Error, Wait,
};
use std::io;
use std::path::PathBuf;
use std::sync::Arc;

fn args(data: Option<&str>, output_objective: bool) -> CommonArgs {
    CommonArgs {
        model: PathBuf::from("m.mzn"),
        data: data.map(PathBuf::from),
        output_mode: OutputMode::Dzn,
        output_objective,
        output_solver: false,
        cores: 2,
        pin_java_solvers: false,
        enforce_memory: false,
        solver_config_mode: SolverConfigMode::Discover,
        compilation_priority: None,
        minizinc: MiniZincArgs { minizinc_exe: PathBuf::from("minizinc") },
        verbosity: Verbosity::Warning,
    }
}

fn shown(command: &CommandLine) -> Vec<String> {
    let mut out = vec![command.program.display().to_string()];
    for argument in &command.arguments {
        out.push(match argument {
            Argument::Text(text) => text.clone(),
            Argument::Path(path) => path.display().to_string(),
        });
    }
    out
}

#[test]
fn model_is_compiled_for_one_solver() {
    let (fzn, ozn) = (PathBuf::from("o.fzn"), PathBuf::from("o.ozn"));
    let args = args(Some("d.dzn"), false);
    let command = get_mzn_to_fzn_cmd(&args, "cp-sat", &fzn, &ozn);
    assert_eq!(
        shown(&command).join(" "),
        "minizinc -c m.mzn d.dzn --solver cp-sat -o o.fzn --output-objective --output-mode dzn --ozn o.ozn"
    );
}

#[test]
fn model_without_data_is_compiled() {
    let (fzn, ozn) = (PathBuf::from("o.fzn"), PathBuf::from("o.ozn"));
    let args = args(None, true);
    let command = get_mzn_to_fzn_cmd(&args, "yuck", &fzn, &ozn);
    assert_eq!(
        shown(&command).join(" "),
        "minizinc -c m.mzn --solver yuck -o o.fzn --output-objective --output-mode dzn --ozn o.ozn"
    );
}

#[test]
fn backup_solver_is_cp_sat() {
    let with = args(Some("d.dzn"), true);
    assert_eq!(
        shown(&backup_solver_cmd(&with, Some(OutputMode::Dzn), 12)).join(" "),
        "minizinc --solver cp-sat m.mzn d.dzn -i -f --output-objective --output-mode dzn -p 12"
    );
    let without = args(None, false);
    assert_eq!(
        shown(&backup_solver_cmd(&without, None, 1)).join(" "),
        "minizinc --solver cp-sat m.mzn -i -f --output-mode dzn -p 1"
    );
}

#[test]
fn end_of_the_backup_solver_is_told() {
    assert!(backup_result(Ok(ExitStatus::Code(0))).is_ok());
    assert!(matches!(
        backup_result(Ok(ExitStatus::Terminated)),
        Err(backup_solvers::Error::CommandFailed)
    ));
    let broken = io::Error::new(io::ErrorKind::NotFound, "no minizinc");
    assert!(matches!(
        backup_result(Err(broken)),
        Err(backup_solvers::Error::Io(e)) if e.kind() == io::ErrorKind::NotFound
    ));
}

#[test]
fn end_of_a_conversion_is_told() {
    assert!(conversion_result(Wait::Exited(ExitStatus::Code(0))).is_ok());
    assert!(matches!(conversion_result(Wait::Cancelled), Err(Error::Cancelled)));
    assert!(matches!(
        conversion_result(Wait::Exited(ExitStatus::Code(3))),
        Err(Error::Conversion(ConversionError::CommandFailed(ExitStatus::Code(3))))
    ));
    assert!(matches!(
        conversion_result(Wait::Exited(ExitStatus::Terminated)),
        Err(Error::Conversion(ConversionError::CommandFailed(ExitStatus::Terminated)))
    ));
    let broken = io::Error::new(io::ErrorKind::Other, "wait");
    assert!(matches!(
        conversion_result(Wait::Failed(broken)),
        Err(Error::Conversion(ConversionError::Io(_)))
    ));
}

#[test]
fn warnings_are_forwarded_from_warning_on() {
    assert!(!forwards_warnings(Verbosity::Quiet));
    assert!(!forwards_warnings(Verbosity::Error));
    assert!(forwards_warnings(Verbosity::Warning));
    assert!(forwards_warnings(Verbosity::Info));
}

#[test]
fn conversions_are_kept_and_errors_are_not() {
    let mut converter: CachedConverter<u32> = CachedConverter::new();
    assert!(converter.cached("a").is_none());
    assert!(converter.converted("a", Err(Error::Cancelled)).is_err());
    assert!(converter.cached("a").is_none());
    assert!(converter.converted("a", Ok(Arc::new(5))).is_ok());
    assert_eq!(converter.cached("a").map(|c| **c), Some(5));
    assert!(converter.cached("b").is_none());
    let temp = ConversionError::TempFile(io::Error::new(io::ErrorKind::Other, "full"));
    assert!(matches!(
        converter.converted("b", Err(Error::Conversion(temp))),
        Err(Error::Conversion(ConversionError::TempFile(_)))
    ));
}
