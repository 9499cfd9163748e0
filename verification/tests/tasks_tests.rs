use microkernelia::tasks::{
    begin_task, end_task, next_task, spawn, spawn_log_task, Scheduler, LOG_TASK_ENTRY, MAX_TASKS,
};

#[test]
fn spawn_fills_first_empty_slot() {
    let mut s = Scheduler::new();
    spawn(&mut s, 3, "a".to_string());
    spawn(&mut s, 4, "b".to_string());
    assert_eq!(s.task_at(0), Some((3, false)));
    assert_eq!(s.task_at(1), Some((4, false)));
    assert_eq!(s.task_at(2), None);
}

#[test]
fn spawn_into_full_table_drops_task() {
    let mut s = Scheduler::new();
    for i in 0..MAX_TASKS {
        spawn(&mut s, i + 1, format!("t{}", i));
    }
    spawn(&mut s, 99, "extra".to_string());
    for i in 0..MAX_TASKS {
        assert_eq!(s.task_at(i), Some((i + 1, false)));
    }
}

#[test]
fn ordinary_task_runs_once() {
    let mut s = Scheduler::new();
    spawn(&mut s, 7, "worker".to_string());
    let i = next_task(&s, 0).unwrap();
    assert_eq!(begin_task(&mut s, i), 7);
    assert_eq!(s.current(), i);
    end_task(&mut s, i);
    assert_eq!(s.task_at(i), Some((7, true)));
    assert_eq!(next_task(&s, 0), None);
}

#[test]
fn log_task_never_finishes() {
    let mut s = Scheduler::new();
    spawn_log_task(&mut s);
    spawn_log_task(&mut s);
    assert_eq!(s.task_at(0), Some((LOG_TASK_ENTRY, false)));
    assert_eq!(s.task_at(1), None);
    for _ in 0..3 {
        let i = next_task(&s, 0).unwrap();
        assert_eq!(i, 0);
        assert_eq!(begin_task(&mut s, i), LOG_TASK_ENTRY);
        end_task(&mut s, i);
    }
    assert_eq!(s.task_at(0), Some((LOG_TASK_ENTRY, false)));
}

#[test]
fn round_visits_runnable_tasks_in_slot_order() {
    let mut s = Scheduler::new();
    spawn_log_task(&mut s);
    spawn(&mut s, 5, "x".to_string());
    spawn(&mut s, 6, "y".to_string());
    let mut ran = Vec::new();
    let mut from = 0;
    while let Some(i) = next_task(&s, from) {
        ran.push(begin_task(&mut s, i));
        end_task(&mut s, i);
        from = i + 1;
    }
    assert_eq!(ran, vec![LOG_TASK_ENTRY, 5, 6]);
    assert_eq!(next_task(&s, 0), Some(0));
    assert_eq!(next_task(&s, 1), None);
}

fn run_round(s: &mut Scheduler) -> Vec<usize> {
    let mut visits = Vec::new();
    let mut from = 0;
    while let Some(i) = next_task(s, from) {
        begin_task(s, i);
        end_task(s, i);
        visits.push(i);
        from = i + 1;
    }
    visits
}

#[test]
fn each_round_runs_every_runnable_task_and_finished_ones_never_again() {
    let mut s = Scheduler::new();
    spawn(&mut s, 3, "a".to_string());
    spawn_log_task(&mut s);
    spawn(&mut s, 4, "b".to_string());
    assert_eq!(run_round(&mut s), vec![0, 1, 2]);
    // only the logging task is left, round after round
    assert_eq!(run_round(&mut s), vec![1]);
    spawn(&mut s, 5, "c".to_string());
    assert_eq!(run_round(&mut s), vec![1, 3]);
    assert_eq!(run_round(&mut s), vec![1]);
    assert_eq!(s.task_at(0), Some((3, true)));
}
