use parasol::mzn_to_fzn::compilation_manager::{
    after_waiting, is_cancelled, outcome_of, CompilationManager, Error, Lookup, Outcome, Waited,
};
use std::sync::Arc;

type Manager = CompilationManager<u32, &'static str, u8>;

fn names(list: &[&str]) -> Vec<String> {
    list.iter().map(|s| s.to_string()).collect()
}

fn started(list: &[(&str, u8)]) -> Vec<(String, Arc<u8>)> {
    list.iter().map(|(name, handle)| (name.to_string(), Arc::new(*handle))).collect()
}

#[test]
fn only_new_solvers_are_started() {
    let mut manager = Manager::new();
    assert!(!manager.is_started("a"));
    manager.register_started(started(&[("a", 1)]));
    assert!(manager.is_started("a"));
    assert_eq!(manager.new_solvers(names(&["a", "b", "a", "c", "b"])), names(&["b", "c", "b"]));
}

#[test]
fn compilation_is_looked_up() {
    let mut manager = Manager::new();
    manager.register_started(started(&[("a", 1), ("b", 2)]));
    manager.compiled("b".to_owned(), Arc::new(outcome_of(Ok(7))));
    assert!(matches!(manager.lookup("a", true), Lookup::Refused(Error::Cancelled)));
    assert!(matches!(manager.lookup("c", false), Lookup::Refused(Error::NotStarted(n)) if n == "c"));
    assert!(matches!(manager.lookup("a", false), Lookup::Pending(h) if **h == 1));
    assert!(matches!(manager.lookup("b", false), Lookup::Ready(o) if matches!(**o, Ok(7))));
}

#[test]
fn cancelled_outcome_is_not_kept() {
    let mut manager = Manager::new();
    manager.compiled("a".to_owned(), Arc::new(Err(Error::Cancelled)));
    assert!(!manager.is_started("a"));
    manager.compiled("a".to_owned(), Arc::new(outcome_of(Err("broken"))));
    assert!(manager.is_started("a"));
}

#[test]
fn failure_of_the_compiler_is_no_cancellation() {
    let outcome: Outcome<u32, &str> = outcome_of(Err("stopped"));
    assert!(!is_cancelled(&outcome));
    assert!(matches!(outcome, Err(Error::Compilation("stopped"))));
    assert!(is_cancelled::<u32, &str>(&Err(Error::Cancelled)));
    assert!(!is_cancelled::<u32, &str>(&Ok(1)));
    assert!(!Error::<()>::NotStarted("a".to_owned()).is_cancelled());
}

#[test]
fn stopping_spares_what_is_done() {
    let mut manager = Manager::new();
    manager.register_started(started(&[("a", 1), ("b", 2), ("c", 3)]));
    manager.compiled("b".to_owned(), Arc::new(Ok(7)));
    let handles = manager.stop_all(names(&["c", "b", "x", "a", "c"]));
    assert_eq!(handles.iter().map(|h| **h).collect::<Vec<u8>>(), vec![3, 1]);
    assert!(!manager.is_started("a"));
    assert!(manager.is_started("b"));
    assert!(!manager.is_started("c"));
}

#[test]
fn stopping_undoes_starting() {
    let mut manager = Manager::new();
    manager.compiled("done".to_owned(), Arc::new(Ok(1)));
    manager.register_started(started(&[("a", 1), ("b", 2)]));
    assert_eq!(manager.stop_all(names(&["a", "b"])).len(), 2);
    assert_eq!(manager.new_solvers(names(&["a", "b", "done"])), names(&["a", "b"]));
}

#[test]
fn end_of_the_wait_gives_the_outcome_or_why_there_is_none() {
    let outcome: Arc<Outcome<u32, &str>> = Arc::new(Ok(4));
    let got = after_waiting("a", Waited::Value(Some(outcome))).unwrap();
    assert!(matches!(*got, Ok(4)));
    let error = after_waiting::<u32, &str>("a", Waited::Cancelled).unwrap_err();
    assert!(matches!(error, Error::Cancelled));
    let error = after_waiting::<u32, &str>("a", Waited::Closed).unwrap_err();
    assert!(matches!(error, Error::ChannelClosed(n) if n == "a"));
    let error = after_waiting::<u32, &str>("a", Waited::Value(None)).unwrap_err();
    assert!(matches!(error, Error::CompilationUnfinishedAfterWaiting(n) if n == "a"));
}
