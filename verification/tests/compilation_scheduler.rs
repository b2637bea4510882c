use parasol::mzn_to_fzn::compilation_scheduler::{partition_work, State};
use parasol::mzn_to_fzn::pool::CompilationWork;
use parasol::mzn_to_fzn::priority::{Priority, SolverPriority};

fn priority(solvers: &[&str]) -> SolverPriority {
    SolverPriority::from_descending_priority(solvers.iter().map(|s| s.to_string()).collect())
}

fn shown(work: Vec<CompilationWork>) -> Vec<String> {
    work.into_iter()
        .map(|w| match w {
            CompilationWork::Start(id) => format!("+{id}"),
            CompilationWork::Stop(id) => format!("-{id}"),
        })
        .collect()
}

fn strings(list: &[&str]) -> Vec<String> {
    list.iter().map(|s| s.to_string()).collect()
}

#[test]
fn first_solver_of_a_list_comes_first() {
    let mut p = priority(&["a", "b"]);
    assert_eq!(p.take_next(), Some(("a".to_owned(), Priority(0))));
    p.insert("c".to_owned(), Priority(0));
    assert_eq!(p.remove_by_solver_id(&"b".to_owned()), Some(Priority(1)));
    assert_eq!(p.remove_by_solver_id(&"b".to_owned()), None);
    assert_eq!(p.take_next(), Some(("c".to_owned(), Priority(0))));
    assert_eq!(p.take_next(), None);
    assert_eq!(SolverPriority::empty().take_next(), None);
}

#[test]
fn free_cores_go_to_the_highest_priorities() {
    let mut state = State::from_vec(priority(&["a", "b", "c", "d"]));
    assert!(state.take_compilation_work().is_empty());
    state.register_main_compilation("m".to_owned(), 3);
    assert_eq!(shown(state.take_compilation_work()), vec!["+a", "+b"]);
    assert_eq!((state.available_cores(), state.used_cores()), (3, 3));
    assert!(state.take_compilation_work().is_empty());
}

#[test]
fn lowest_priorities_make_way_first() {
    let mut state = State::from_vec(priority(&["a", "b", "c"]));
    state.register_main_compilation("m".to_owned(), 4);
    assert_eq!(shown(state.take_compilation_work()), vec!["+a", "+b", "+c"]);
    state.register_main_compilation("n".to_owned(), 0);
    state.register_main_compilation("o".to_owned(), 0);
    assert_eq!(shown(state.take_compilation_work()), vec!["-c", "-b"]);
    state.compilation_finished(&"n".to_owned());
    assert_eq!(shown(state.take_compilation_work()), vec!["+b"]);
}

#[test]
fn promoted_extra_counts_its_core_once_more() {
    let mut state = State::from_vec(priority(&["a", "b"]));
    state.register_main_compilation("m".to_owned(), 3);
    assert_eq!(shown(state.take_compilation_work()), vec!["+a", "+b"]);
    state.register_main_compilation("a".to_owned(), 2);
    assert_eq!((state.available_cores(), state.used_cores()), (5, 4));
    state.register_main_compilation("a".to_owned(), 1);
    assert_eq!((state.available_cores(), state.used_cores()), (4, 5));
}

#[test]
fn stopped_main_goes_back_to_its_place() {
    let mut state = State::from_vec(priority(&["a", "b"]));
    state.register_main_compilation("a".to_owned(), 1);
    assert!(state.take_compilation_work().is_empty());
    state.compilation_stopped(&"a".to_owned());
    assert_eq!((state.available_cores(), state.used_cores()), (0, 0));
    state.register_main_compilation("m".to_owned(), 2);
    assert_eq!(shown(state.take_compilation_work()), vec!["+a"]);
}

#[test]
fn finished_main_does_not_come_back() {
    let mut state = State::from_vec(priority(&["a", "b"]));
    state.register_main_compilation("a".to_owned(), 1);
    state.compilation_finished(&"a".to_owned());
    state.compilation_finished(&"unknown".to_owned());
    state.register_main_compilation("m".to_owned(), 2);
    assert_eq!(shown(state.take_compilation_work()), vec!["+b"]);
}

#[test]
fn disabling_stops_all_extras_and_starts_none() {
    let mut state = State::from_vec(priority(&["a", "b", "c"]));
    state.register_main_compilation("m".to_owned(), 3);
    assert_eq!(shown(state.take_compilation_work()), vec!["+a", "+b"]);
    state.disable();
    assert_eq!(shown(state.take_compilation_work()), vec!["-b", "-a"]);
    assert!(state.take_compilation_work().is_empty());
}

#[test]
fn too_many_mains_stop_nothing_but_extras() {
    let mut state = State::from_vec(priority(&[]));
    state.register_main_compilation("m".to_owned(), 0);
    state.register_main_compilation("n".to_owned(), 0);
    assert!(state.take_compilation_work().is_empty());
    assert_eq!((state.available_cores(), state.used_cores()), (0, 2));
}

#[test]
fn work_never_stops_and_starts_at_once() {
    let mut state = State::from_vec(priority(&["a", "b", "c"]));
    for (i, cores) in [2usize, 0, 3, 1].into_iter().enumerate() {
        state.register_main_compilation(format!("m{i}"), cores);
        let (to_start, to_stop) = partition_work(state.take_compilation_work());
        assert!(to_start.is_empty() || to_stop.is_empty());
    }
}

#[test]
fn work_is_parted_in_order() {
    let work = vec![
        CompilationWork::Stop("x".to_owned()),
        CompilationWork::Start("a".to_owned()),
        CompilationWork::Stop("y".to_owned()),
        CompilationWork::Start("b".to_owned()),
    ];
    assert_eq!(partition_work(work), (strings(&["a", "b"]), strings(&["x", "y"])));
}

#[test]
fn running_mains_are_listed_but_for_exceptions() {
    let mut state = State::from_vec(priority(&["a"]));
    state.register_main_compilation("m".to_owned(), 2);
    state.register_main_compilation("n".to_owned(), 2);
    let _ = state.take_compilation_work();
    let mut mains = state.get_main_compilations_except(&strings(&["n", "z"]));
    assert_eq!(mains, strings(&["m"]));
    mains = state.get_main_compilations_except(&Vec::new());
    mains.sort();
    assert_eq!(mains, strings(&["m", "n"]));
}

#[test]
fn end_of_a_compilation_is_taken_in() {
    let mut state = State::from_vec(priority(&["a"]));
    state.register_main_compilation("a".to_owned(), 1);
    assert!(!state.compilation_ended(&"a".to_owned(), true));
    state.register_main_compilation("a".to_owned(), 1);
    assert!(state.compilation_ended(&"a".to_owned(), false));
    state.register_main_compilation("m".to_owned(), 2);
    assert!(state.take_compilation_work().is_empty());
}

#[test]
fn request_for_a_finished_compilation_is_passed_over() {
    let mut state = State::from_vec(priority(&["a"]));
    assert!(!state.request_main_compilation(&"m".to_owned(), 4, true));
    assert_eq!((state.available_cores(), state.used_cores()), (0, 0));
    assert!(state.request_main_compilation(&"m".to_owned(), 4, false));
    assert_eq!((state.available_cores(), state.used_cores()), (4, 1));
}

#[test]
fn cores_in_use_are_as_many_as_compilations_run() {
    let mut state = State::from_vec(priority(&["a", "b", "c"]));
    state.register_main_compilation("m".to_owned(), 3);
    let started = state.take_compilation_work().len();
    assert_eq!(state.used_cores(), 1 + started);
    state.compilation_finished(&"m".to_owned());
    let stopped = state.take_compilation_work().len();
    assert_eq!(state.used_cores(), started - stopped);
    assert_eq!(state.used_cores(), 0);
}

#[test]
fn available_cores_are_those_of_the_mains() {
    let mut state = State::from_vec(priority(&["a", "a", "b"]));
    state.register_main_compilation("m".to_owned(), 3);
    assert_eq!(state.available_cores(), 3);
    let _ = state.take_compilation_work();
    assert_eq!(state.available_cores(), 3);
    state.register_main_compilation("a".to_owned(), 2);
    assert_eq!(state.available_cores(), 5);
    state.register_main_compilation("m".to_owned(), 1);
    assert_eq!(state.available_cores(), 3);
    state.compilation_stopped(&"m".to_owned());
    state.compilation_finished(&"a".to_owned());
    assert_eq!(state.available_cores(), 0);
}

#[test]
fn taking_work_spares_mains() {
    let mut state = State::from_vec(priority(&["a", "b"]));
    state.register_main_compilation("m".to_owned(), 0);
    state.register_main_compilation("n".to_owned(), 0);
    assert!(state.take_compilation_work().is_empty());
    assert_eq!(state.get_main_compilations_except(&Vec::new()).len(), 2);
}
