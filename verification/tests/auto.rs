//! Plans, their subtasks, and noticing that no progress is made.

use dscode_core::agent::stream::StreamEvent;
use dscode_core::auto::decomposer::{parse_subtasks, split_deps, split_numbered};
use dscode_core::auto::runner::{
    agent_id_for, compute_average_quality, subtask_session, AutoError, AutoRunner,
    AutoStep, Subtask, SubtaskStatus,
};
use dscode_core::auto::stall::StallDetector;
use dscode_core::auto::subtask::{find_all_ready, find_next_ready, has_cycle};
use dscode_core::magi::scheduler::{MagiError, MagiRound, Promotion};

#[test]
fn parse_with_deps() {
    let text = "\
1. Create model
2. Migration deps: 1
3. API deps: 1, 2
";
    let tasks = parse_subtasks(text).unwrap();
    assert_eq!(tasks.len(), 3);
    assert!(tasks[0].dependencies.is_empty());
    assert_eq!(tasks[1].dependencies, vec![1]);
    assert_eq!(tasks[2].dependencies, vec![1, 2]);
}

#[test]
fn cycle_cleared() {
    // 1 deps 2, 2 deps 1 — after remap still cycle
    let text = "\
1. A deps: 2
2. B deps: 1
";
    let tasks = parse_subtasks(text).unwrap();
    assert!(tasks.iter().all(|t| t.dependencies.is_empty()));
}

#[test]
fn test_find_next_ready_no_dependencies() {
    let subtasks = vec![
        Subtask {
            id: 1,
            description: "Task A".into(),
            dependencies: vec![],
            status: SubtaskStatus::Pending,
        },
        Subtask {
            id: 2,
            description: "Task B".into(),
            dependencies: vec![],
            status: SubtaskStatus::Pending,
        },
    ];
    let ready = find_next_ready(&subtasks);
    assert!(ready.is_some());
    assert_eq!(ready.unwrap(), 0); // first pending
}

#[test]
fn test_find_next_ready_with_dependencies() {
    let subtasks = vec![
        Subtask {
            id: 1,
            description: "Task A".into(),
            dependencies: vec![],
            status: SubtaskStatus::Done,
        },
        Subtask {
            id: 2,
            description: "Task B".into(),
            dependencies: vec![1],
            status: SubtaskStatus::Pending,
        },
        Subtask {
            id: 3,
            description: "Task C".into(),
            dependencies: vec![2],
            status: SubtaskStatus::Pending,
        },
    ];
    let ready = find_next_ready(&subtasks);
    assert!(ready.is_some());
    assert_eq!(subtasks[ready.unwrap()].id, 2);
}

#[test]
fn test_find_next_ready_blocked() {
    let subtasks = vec![
        Subtask {
            id: 1,
            description: "Task A".into(),
            dependencies: vec![],
            status: SubtaskStatus::Failed("error".into()),
        },
        Subtask {
            id: 2,
            description: "Task B".into(),
            dependencies: vec![1],
            status: SubtaskStatus::Pending,
        },
    ];
    let ready = find_next_ready(&subtasks);
    assert!(ready.is_none());
}

#[test]
fn test_find_next_ready_in_progress_skipped() {
    let subtasks = vec![
        Subtask {
            id: 1,
            description: "Task A".into(),
            dependencies: vec![],
            status: SubtaskStatus::InProgress,
        },
        Subtask {
            id: 2,
            description: "Task B".into(),
            dependencies: vec![],
            status: SubtaskStatus::Pending,
        },
    ];
    let ready = find_next_ready(&subtasks);
    assert!(ready.is_some());
    assert_eq!(subtasks[ready.unwrap()].id, 2);
}

#[test]
fn test_compute_average_quality() {
    let rounds = vec![
        vec![MagiRound {
            round_number: 1,
            scrutiny: "x".into(),
            execution: "x".into(),
            promotion: Promotion {
                quality_score: 80,
                should_stop: true,
                stop_reason: "done".into(),
                next_round_focus: "None".into(),
            },
        }],
        vec![MagiRound {
            round_number: 1,
            scrutiny: "y".into(),
            execution: "y".into(),
            promotion: Promotion {
                quality_score: 90,
                should_stop: true,
                stop_reason: "done".into(),
                next_round_focus: "None".into(),
            },
        }],
    ];
    let (sum, count) = compute_average_quality(&rounds);
    let avg = sum as f64 / count as f64;
    assert!((avg - 85.0).abs() < 0.01);
}

#[test]
fn test_compute_average_quality_empty() {
    // No score at all: there is nothing to divide, and the average is shown as 0.
    assert_eq!(compute_average_quality(&vec![]), (0, 0));
}

#[test]
fn test_no_stall_with_few_scores() {
    let mut d = StallDetector::new(3);
    d.record(50);
    d.record(50);
    assert!(!d.is_stalled()); // only 2 scores, threshold is 3
}

#[test]
fn test_stall_with_all_low() {
    let mut d = StallDetector::new(3);
    d.record(50);
    d.record(40);
    d.record(30);
    assert!(d.is_stalled());
}

#[test]
fn test_no_stall_when_improving() {
    let mut d = StallDetector::new(3);
    d.record(30);
    d.record(50);
    d.record(55); // trending up, last >= 50.0 -> no stall
    assert!(!d.is_stalled());
}

#[test]
fn test_no_stall_with_high_score() {
    let mut d = StallDetector::new(3);
    d.record(30);
    d.record(80); // high score breaks the stall
    d.record(30);
    assert!(!d.is_stalled());
}

#[test]
fn test_stall_on_non_monotone_noise() {
    // Endpoint ratio rises 200% but the window is not improving.
    let mut d = StallDetector::new(3);
    d.record(10);
    d.record(40);
    d.record(30);
    assert!(d.is_stalled());
}

#[test]
fn test_reset() {
    let mut d = StallDetector::new(3);
    d.record(30);
    d.record(30);
    d.record(30);
    assert!(d.is_stalled());
    d.reset();
    assert!(!d.is_stalled());
    assert_eq!(d.stalled_rounds(), 0);
}

fn plan(items: &[(usize, &[usize])]) -> Vec<Subtask> {
    items
        .iter()
        .map(|(id, deps)| Subtask {
            id: *id,
            description: format!("task {}", id),
            dependencies: deps.to_vec(),
            status: SubtaskStatus::Pending,
        })
        .collect()
}

fn round(quality: u32, stop: bool) -> MagiRound {
    MagiRound {
        round_number: 1,
        scrutiny: "s".into(),
        execution: "the work that was done".into(),
        promotion: Promotion {
            quality_score: quality,
            should_stop: stop,
            stop_reason: "done".into(),
            next_round_focus: "None".into(),
        },
    }
}

#[test]
fn numbered_lines_are_read() {
    let line: Vec<char> = "12) write tests".chars().collect();
    let (n, rest) = split_numbered(&line).unwrap();
    assert_eq!(n, 12);
    assert_eq!(rest.iter().collect::<String>().trim(), "write tests");
    let plain: Vec<char> = "write tests".chars().collect();
    assert!(split_numbered(&plain).is_none());
    let deps: Vec<char> = "API deps: 1, 2".chars().collect();
    assert_eq!(split_deps(&deps), ("API".to_string(), vec![1, 2]));
}

#[test]
fn a_text_without_a_list_is_no_plan() {
    match parse_subtasks("nothing to see here") {
        Err(AutoError::Parse(msg)) => assert_eq!(msg, "no numbered subtasks in decomposer output"),
        other => panic!("{:?}", other),
    }
}

#[test]
fn cycles_are_found() {
    assert!(has_cycle(&plan(&[(1, &[2]), (2, &[1])])));
    assert!(!has_cycle(&plan(&[(1, &[]), (2, &[1]), (3, &[1, 2])])));
    assert_eq!(find_all_ready(&plan(&[(1, &[]), (2, &[1]), (3, &[])])), vec![0, 2]);
}

#[test]
fn settings_have_lower_bounds() {
    let r = AutoRunner::new("/w").with_max_parallel(0).with_permission_timeout(3);
    assert_eq!(r.max_parallel, 1);
    assert_eq!(r.permission_timeout_secs, 10);
    assert_eq!(agent_id_for(true, 4), "at-4");
    assert_eq!(agent_id_for(false, 4), "subtask-4");
    assert!(subtask_session("s", 4).starts_with('s'));
}

#[test]
fn a_run_goes_through_its_plan() {
    let settings = AutoRunner::new("/w");
    let (mut run, _) = settings.run("goal", plan(&[(1, &[]), (2, &[1])])).unwrap();
    let wave = run.next_wave();
    assert_eq!(wave.jobs.len(), 1);
    assert_eq!(wave.jobs[0].task_id, 1);
    run.apply_spiral_result(0, Ok(vec![round(90, true)]));
    assert!(matches!(run.after_wave(), AutoStep::Continue));
    let wave = run.next_wave();
    assert_eq!(wave.jobs[0].task_id, 2);
    run.apply_spiral_result(1, Err(MagiError::Cancelled));
    let _ = run.after_wave();
    assert!(run.next_wave().jobs.is_empty());
    let (events, result) = run.finish("90.0");
    assert!(matches!(events[0], StreamEvent::TeamComplete { completed: 1, failed: 1 }));
    assert_eq!(result.subtasks[0].status, SubtaskStatus::Done);
    assert!(matches!(result.subtasks[1].status, SubtaskStatus::Failed(_)));
}

#[test]
fn an_empty_plan_is_an_error() {
    let settings = AutoRunner::new("/w");
    assert!(matches!(settings.run("goal", vec![]), Err(AutoError::NoSubtasks)));
}

#[test]
fn side_by_side_takes_a_whole_wave() {
    let settings = AutoRunner::new("/w").with_teams_parallel(true).with_max_parallel(2);
    let (mut run, _) = settings.run("goal", plan(&[(1, &[]), (2, &[]), (3, &[])])).unwrap();
    let wave = run.next_wave();
    assert_eq!(wave.jobs.len(), 2);
    assert_eq!(wave.jobs[1].agent_id, "at-2");
}

#[test]
fn a_stalled_run_is_planned_anew_with_fresh_ids() {
    let settings = AutoRunner::new("/w").with_stall_rounds(2);
    let tasks = plan(&[(1, &[]), (2, &[]), (3, &[])]);
    let (mut run, _) = settings.run("goal", tasks).unwrap();
    let _ = run.next_wave();
    run.apply_spiral_result(0, Err(MagiError::Provider("down".into())));
    assert!(matches!(run.after_wave(), AutoStep::Continue));
    let _ = run.next_wave();
    run.apply_spiral_result(1, Err(MagiError::Provider("down".into())));
    match run.after_wave() {
        AutoStep::Recompose(_) => {}
        other => panic!("{:?}", other),
    }
    assert!(run.on_recompose_failed("a").is_ok());
    assert!(run.on_recompose_failed("b").is_ok());
    match run.on_recompose_failed("c") {
        Err(AutoError::Parse(m)) => {
            assert_eq!(m, "Re-decomposition failed 3 times consecutively: c")
        }
        other => panic!("{:?}", other),
    }
    run.on_recomposed(plan(&[(7, &[]), (7, &[])]));
    let ids: Vec<usize> = run.subtasks().iter().map(|t| t.id).collect();
    assert_eq!(ids, vec![1, 2]);
}

#[test]
fn run_failures_describe_themselves() {
    assert_eq!(AutoError::NoSubtasks.describe(), "decomposer produced no subtasks");
    assert_eq!(AutoError::Provider("p".into()).describe(), "provider error: p");
    assert_eq!(AutoError::Parse("p".into()).describe(), "parse error: p");
    assert_eq!(
        AutoError::MaxRecomposeCycles(3).describe(),
        "max re-decompose cycles (3) reached"
    );
    assert_eq!(
        AutoError::Magi(MagiError::Parse("x".into())).describe(),
        "MAGI error: parse error: x"
    );
}

#[test]
fn new_subtasks_wait_on_new_subtasks() {
    let settings = AutoRunner::new("/w").with_stall_rounds(2);
    let tasks = plan(&[(1, &[]), (2, &[]), (3, &[])]);
    let (mut run, _) = settings.run("goal", tasks).unwrap();
    let _ = run.next_wave();
    run.apply_spiral_result(0, Ok(vec![round(90, true)]));
    let _ = run.next_wave();
    run.apply_spiral_result(1, Err(MagiError::Cancelled));
    run.on_recomposed(plan(&[(1, &[]), (2, &[1])]));
    let left: Vec<(usize, Vec<usize>)> =
        run.subtasks().iter().map(|t| (t.id, t.dependencies.clone())).collect();
    assert_eq!(left, vec![(1, vec![]), (2, vec![]), (3, vec![2])]);
    let wave = run.next_wave();
    assert_eq!(wave.jobs.len(), 1);
    assert_eq!(wave.jobs[0].task_id, 2);
}
