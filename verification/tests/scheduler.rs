use parasol::scheduler::{
    memory_limit_bytes, memory_limit_mib, ApplyPlan, MemoryEnforcerState, Schedule,
    ScheduleElement,
};
use std::collections::HashSet;

fn schedule(elements: &[(usize, &str, usize)]) -> Schedule {
    elements
        .iter()
        .map(|(id, solver, cores)| ScheduleElement::new(*id, solver.to_string(), *cores))
        .collect()
}

fn sorted(mut ids: Vec<usize>) -> Vec<usize> {
    ids.sort();
    ids
}

fn set(ids: &[usize]) -> HashSet<usize> {
    ids.iter().copied().collect()
}

fn running(elements: &[(usize, &str, usize)]) -> MemoryEnforcerState {
    let mut state = MemoryEnforcerState::new(0);
    state.restart_with(&schedule(elements));
    state
}

#[test]
fn schedule_is_numbered_anew_each_time() {
    let mut state = MemoryEnforcerState::new(0);
    let mut first = schedule(&[(9, "a", 1), (9, "b", 2)]);
    state.assign_ids(&mut first);
    assert_eq!(first.iter().map(|e| e.id).collect::<Vec<usize>>(), vec![0, 1]);
    let mut second = schedule(&[(0, "c", 1)]);
    state.assign_ids(&mut second);
    assert_eq!(second[0].id, 2);
    assert_eq!(second[0].solver, "c");
}

#[test]
fn schedule_is_parted_by_what_runs() {
    let mut state = running(&[(1, "a", 1), (2, "b", 1), (3, "c", 1)]);
    let changes = state.categorize_schedule(schedule(&[(1, "a", 1)]), &set(&[1, 2, 3]));
    assert_eq!(sorted(changes.to_suspend.clone()), vec![2, 3]);
    state.apply_changes_to_state(&changes);
    assert_eq!(state.running_ids(), vec![1]);
    assert_eq!(sorted(state.suspended_ids()), vec![2, 3]);
    let next = schedule(&[(2, "b", 1), (4, "d", 2), (2, "b", 1)]);
    let changes = state.categorize_schedule(next, &set(&[1, 2]));
    assert_eq!(changes.to_resume, vec![2]);
    assert_eq!(changes.to_start.iter().map(|e| e.id).collect::<Vec<usize>>(), vec![4, 2]);
    assert_eq!(changes.to_suspend, vec![1]);
    assert_eq!(state.suspended_ids(), vec![2]);
    state.apply_changes_to_state(&changes);
    assert_eq!(sorted(state.running_ids()), vec![2, 4]);
    assert_eq!(state.suspended_ids(), vec![1]);
}

#[test]
fn exited_solvers_are_forgotten() {
    let mut state = running(&[(1, "a", 1), (2, "b", 1)]);
    state.remove_exited_solvers(&set(&[2, 5]));
    assert_eq!(state.running_ids(), vec![2]);
}

#[test]
fn applying_replaces_the_runs() {
    let mut state = MemoryEnforcerState::new(0);
    let plan = state.plan_apply(schedule(&[(0, "a", 1), (0, "b", 1)]), false, &set(&[]));
    let ApplyPlan::Change(changes) = plan else { panic!("restart") };
    assert_eq!(changes.to_start.len(), 2);
    let plan = state.plan_apply(schedule(&[(0, "c", 1)]), false, &set(&[0, 1]));
    let ApplyPlan::Change(changes) = plan else { panic!("restart") };
    assert_eq!(changes.to_start[0].id, 2);
    assert!(changes.to_resume.is_empty());
    assert_eq!(sorted(changes.to_suspend), vec![0, 1]);
    assert_eq!(state.running_ids(), vec![2]);
    assert_eq!(sorted(state.suspended_ids()), vec![0, 1]);
}

#[test]
fn objective_makes_everything_restart() {
    let mut state = MemoryEnforcerState::new(0);
    let _ = state.plan_apply(schedule(&[(0, "a", 1)]), false, &set(&[]));
    let plan = state.plan_apply(schedule(&[(0, "a", 1), (0, "b", 3)]), true, &set(&[0]));
    let ApplyPlan::Restart(asked) = plan else { panic!("change") };
    assert_eq!(asked.iter().map(|e| e.id).collect::<Vec<usize>>(), vec![1, 2]);
    assert_eq!(state.running_ids(), vec![0]);
    state.restart_with(&asked);
    assert_eq!(sorted(state.running_ids()), vec![1, 2]);
    assert!(state.suspended_ids().is_empty());
    assert_eq!(state.total_running_cores(), Some(4));
}

#[test]
fn suspended_solvers_are_killed_in_order_while_memory_is_short() {
    let mut state = running(&[(1, "a", 1), (2, "b", 1)]);
    let changes = state.categorize_schedule(Vec::new(), &set(&[1, 2]));
    state.apply_changes_to_state(&changes);
    let mut list = vec![(500, 2), (100, 1)];
    assert_eq!(state.next_suspended_to_kill(&mut list, false), None);
    assert_eq!(state.next_suspended_to_kill(&mut list, true), Some((500, 2)));
    assert_eq!(list, vec![(100, 1)]);
    assert_eq!(state.suspended_ids(), vec![1]);
    assert_eq!(state.next_suspended_to_kill(&mut list, true), Some((100, 1)));
    assert_eq!(state.next_suspended_to_kill(&mut list, true), None);
}

#[test]
fn running_solvers_over_their_share_are_killed_first() {
    let mut state = running(&[(1, "a", 1), (2, "b", 4), (3, "c", 2)]);
    assert_eq!(state.total_running_cores(), Some(7));
    let (to_kill, mut remaining) =
        state.take_over_fair_share(&vec![(900, 2), (250, 1), (201, 3), (7, 8)], 225);
    assert_eq!(to_kill, vec![(250, 1)]);
    assert_eq!(remaining, vec![(900, 2), (201, 3)]);
    assert_eq!(sorted(state.running_ids()), vec![2, 3]);
    assert_eq!(state.next_running_to_kill(&mut remaining, true), Some((900, 2)));
    assert_eq!(state.running_ids(), vec![3]);
    assert_eq!(state.next_running_to_kill(&mut remaining, false), None);
    assert_eq!(remaining, vec![(201, 3)]);
}

#[test]
fn limits_of_counting_are_told() {
    let state = running(&[(1, "a", usize::MAX), (2, "b", 1)]);
    assert_eq!(state.total_running_cores(), None);
    assert!(state.can_number(usize::MAX));
    let mut state = running(&[(1, "a", 0), (2, "b", 1)]);
    assert!(state.have_cores(&vec![(9, 2), (9, 7)]));
    assert!(!state.have_cores(&vec![(9, 2), (9, 1)]));
    state.assign_ids(&mut schedule(&[(0, "c", 1)]));
    assert!(!state.can_number(usize::MAX));
}

#[test]
fn limit_counts_before_what_the_machine_has() {
    assert_eq!(MemoryEnforcerState::new(0).total_memory(64), 64);
    assert_eq!(MemoryEnforcerState::new(8).total_memory(64), 8);
}

#[test]
fn limit_is_read_in_mebibytes() {
    assert_eq!(memory_limit_mib(Some("+512")), Some(512));
    assert_eq!(memory_limit_mib(Some("512MiB")), None);
    assert_eq!(memory_limit_mib(None), None);
    assert_eq!(memory_limit_bytes(Some(512)), 536_870_912);
    assert_eq!(memory_limit_bytes(None), 0);
}

#[test]
fn started_solver_gets_the_cores_of_the_schedule() {
    let mut state = running(&[(1, "a", 1)]);
    let changes = state.categorize_schedule(schedule(&[(1, "a", 9), (2, "b", 5)]), &set(&[1]));
    state.apply_changes_to_state(&changes);
    assert_eq!(state.total_running_cores(), Some(6));
}
