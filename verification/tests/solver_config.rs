use parasol::config::Config;
use parasol::solver_config::{Executable, Solver, SolverInputType, Solvers, SupportedStdFlags};
use std::path::PathBuf;

fn solver(id: &str, a: bool, i: bool, f: bool) -> Solver {
    Solver::new(id.to_owned(), None, SupportedStdFlags { a, i, f, p: false }, SolverInputType::Fzn)
}

#[test]
fn solvers_are_found_whatever_the_case_of_the_name() {
    let solvers = Solvers::from_vec(vec![
        solver("org.gecode.gecode", false, false, false),
        solver("cp-sat", true, false, false),
        solver("straße\u{307}", false, true, false),
        solver("cp-sat", false, false, true),
    ]);
    let found = solvers.get_by_id("CP-Sat").unwrap();
    assert_eq!(found.id(), "cp-sat");
    assert!(found.supported_std_flags().a);
    assert_eq!(solvers.get_by_id("ORG.GECODE.GECODE").unwrap().id(), "org.gecode.gecode");
    assert!(solvers.get_by_id("STRAßE\u{307}").unwrap().supported_std_flags().i);
    for name in ["cP-sAT", "Cp-SaT"] {
        assert_eq!(solvers.get_by_id(name).unwrap().id(), "cp-sat");
    }
    assert!(solvers.get_by_id("chuffed").is_none());
}

#[test]
fn solver_with_an_upper_case_name_is_not_found() {
    let solvers = Solvers::from_vec(vec![solver("Yuck", false, false, false)]);
    assert!(solvers.get_by_id("Yuck").is_none());
}

#[test]
fn solvers_are_walked_in_order() {
    let solvers = Solvers::from_vec(vec![solver("b", false, false, false), solver("a", false, false, false)]);
    let ids: Vec<&str> = solvers.iter().map(|s| s.id()).collect();
    assert_eq!(ids, vec!["b", "a"]);
    assert_eq!(solvers.len(), 2);
    assert_eq!(solvers.solver(1).id(), "a");
    assert_eq!(Solvers::empty().len(), 0);
}

#[test]
fn flags_follow_from_what_a_solver_supports() {
    let solvers = Solvers::from_vec(vec![
        solver("all", true, true, true),
        solver("a", true, false, false),
        solver("none", false, false, false),
        solver("f", false, false, true),
    ]);
    let config = Config::new(&solvers);
    let flags = |id: &str| config.solver_args.get(&id.to_owned()).unwrap().clone();
    assert_eq!(flags("all"), vec!["-i", "-f"]);
    assert_eq!(flags("a"), vec!["-a"]);
    assert_eq!(flags("none"), Vec::<String>::new());
    assert_eq!(flags("f"), vec!["-f"]);
    assert_eq!(config.solver_args.len(), 4);
}

#[test]
fn last_solver_with_a_name_gives_the_flags() {
    let solvers = Solvers::from_vec(vec![solver("x", false, true, false), solver("x", false, false, true)]);
    let config = Config::new(&solvers);
    assert_eq!(config.solver_args.len(), 1);
    assert_eq!(config.solver_args.get(&"x".to_owned()).unwrap(), &vec!["-f".to_owned()]);
}

#[test]
fn executable_hands_out_what_it_was_made_of() {
    let executable = Executable::new(PathBuf::from("/bin/fzn"), vec!["-v".to_owned()]);
    let solver = Solver::new(
        "s".to_owned(),
        Some(executable),
        SupportedStdFlags::default(),
        SolverInputType::Json,
    );
    assert!(solver.executable().is_some());
    assert!(matches!(solver.input_type(), SolverInputType::Json));
    let parts = Executable::new(PathBuf::from("/bin/fzn"), vec!["-v".to_owned()]).into_parts();
    assert_eq!(parts, (PathBuf::from("/bin/fzn"), vec!["-v".to_owned()]));
}
