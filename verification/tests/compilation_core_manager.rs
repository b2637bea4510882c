use parasol::mzn_to_fzn::compilation_core_manager::State;
use parasol::mzn_to_fzn::compilation_manager::Error;
use parasol::mzn_to_fzn::pool::{CompilationWork, MainCompilation};
use parasol::mzn_to_fzn::priority::{Priority, SolverPriority};

fn state(solvers: &[&str]) -> State {
    let solvers = solvers.iter().map(|s| s.to_string()).collect();
    State::from_vec(SolverPriority::from_descending_priority(solvers))
}

fn taken(state: &mut State) -> Vec<String> {
    state
        .take_compilation_work()
        .into_iter()
        .map(|w| match w {
            CompilationWork::Start(id) => format!("+{id}"),
            CompilationWork::Stop(id) => format!("-{id}"),
        })
        .collect()
}

#[test]
fn deferred_mains_start_first() {
    let mut s = state(&["a", "b"]);
    s.register_main_compilation("m".to_owned(), 2);
    assert!(s.is_main_compilation("m"));
    assert!(!s.is_main_compilation("a"));
    assert_eq!(taken(&mut s), vec!["+m", "+a"]);
    assert!(s.is_main_compilation("m"));
    assert!(!s.is_main_compilation("a"));
    assert!(taken(&mut s).is_empty());
}

#[test]
fn deferred_main_makes_extras_stop() {
    let mut s = state(&["a", "b"]);
    s.register_main_compilation("m".to_owned(), 3);
    assert_eq!(taken(&mut s), vec!["+m", "+a", "+b"]);
    s.register_main_compilation("n".to_owned(), 0);
    assert_eq!(taken(&mut s), vec!["+n", "-b"]);
}

#[test]
fn running_extra_becomes_main_at_once() {
    let mut s = state(&["a", "b"]);
    s.register_main_compilation("m".to_owned(), 2);
    assert_eq!(taken(&mut s), vec!["+m", "+a"]);
    s.register_main_compilation("a".to_owned(), 1);
    assert!(s.is_main_compilation("a"));
    assert_eq!(taken(&mut s), vec!["+b"]);
    s.register_main_compilation("a".to_owned(), 0);
    assert_eq!(taken(&mut s), vec!["-b"]);
}

#[test]
fn stopped_deferred_main_waits_again() {
    let mut s = state(&["a"]);
    s.register_main_compilation("a".to_owned(), 1);
    assert_eq!(taken(&mut s), vec!["+a"]);
    s.compilation_ended(&"a".to_owned(), true);
    assert!(!s.is_main_compilation("a"));
    s.register_main_compilation("m".to_owned(), 2);
    assert_eq!(taken(&mut s), vec!["+m", "+a"]);
    s.compilation_ended(&"a".to_owned(), false);
    assert!(taken(&mut s).is_empty());
}

#[test]
fn waiting_is_for_mains_only() {
    let mut s = state(&["a"]);
    s.register_main_compilation("m".to_owned(), 2);
    let _ = taken(&mut s);
    assert!(s.check_wait::<()>("m").is_ok());
    assert!(matches!(s.check_wait::<()>("a"), Err(Error::NotStarted(n)) if n == "a"));
}

#[test]
fn mains_that_wait_to_start_are_listed() {
    let mut s = state(&[]);
    s.register_main_compilation("m".to_owned(), 1);
    let _ = taken(&mut s);
    s.register_main_compilation("n".to_owned(), 1);
    s.register_main_compilation("n".to_owned(), 1);
    let mut mains = s.get_main_compilations_except(&Vec::new());
    mains.sort();
    assert_eq!(mains, vec!["m", "n"]);
    assert_eq!(s.get_main_compilations_except(&vec!["n".to_owned()]), vec!["m"]);
}

#[test]
fn done_compilation_is_not_asked_for_again() {
    let mut s = state(&[]);
    assert!(!s.request_main_compilation(&"m".to_owned(), 1, true));
    assert!(taken(&mut s).is_empty());
    assert!(s.request_main_compilation(&"m".to_owned(), 1, false));
    assert_eq!(taken(&mut s), vec!["+m"]);
    s.compilation_stopped(&"m".to_owned());
    s.compilation_finished(&"m".to_owned());
    assert!(!s.is_main_compilation("m"));
}

#[test]
fn main_compilation_keeps_its_cores_and_place() {
    let main = MainCompilation::new(4, Some(Priority(2)));
    assert_eq!(main.cores, 4);
    assert_eq!(main.priority, Some(Priority(2)));
}

#[test]
fn limits_of_cores_are_told() {
    let mut s = state(&["a"]);
    assert!(s.can_register(&"m".to_owned(), usize::MAX));
    s.register_main_compilation("m".to_owned(), 5);
    assert!(s.can_take_work());
    assert!(!s.can_register(&"n".to_owned(), usize::MAX));
    let _ = taken(&mut s);
    assert!(s.can_register(&"m".to_owned(), isize::MAX as usize));
    assert!(!s.can_register(&"m".to_owned(), usize::MAX));
}

#[test]
fn deferred_mains_are_counted_when_they_start() {
    let mut s = state(&["a", "b", "c"]);
    s.register_main_compilation("m".to_owned(), 2);
    s.register_main_compilation("n".to_owned(), 1);
    assert_eq!(taken(&mut s), vec!["+m", "+n", "+a"]);
    s.compilation_finished(&"n".to_owned());
    assert!(taken(&mut s).is_empty());
    s.compilation_finished(&"a".to_owned());
    assert_eq!(taken(&mut s), vec!["+b"]);
}

#[test]
fn cores_follow_registered_mains() {
    let mut s = state(&["a", "b", "c", "d"]);
    s.register_main_compilation("m".to_owned(), 2);
    assert_eq!(taken(&mut s), vec!["+m", "+a"]);
    s.register_main_compilation("m".to_owned(), 4);
    assert_eq!(taken(&mut s), vec!["+b", "+c"]);
    s.register_main_compilation("a".to_owned(), 1);
    assert_eq!(taken(&mut s), vec!["+d"]);
    s.compilation_finished(&"m".to_owned());
    assert_eq!(taken(&mut s), vec!["-d", "-c", "-b"]);
}

#[test]
fn waiting_solver_of_a_main_is_no_hindrance_to_others() {
    let mut s = state(&["m", "m"]);
    s.register_main_compilation("m".to_owned(), 1);
    s.register_main_compilation("n".to_owned(), 0);
    assert_eq!(taken(&mut s), vec!["+m", "+n"]);
    assert!(s.is_main_compilation("n"));
}
