use service_allocator::allocator::{
    assign, assign_basic, build_basic_pool, pair_assignments, Assignment, AssignmentResult, Mode,
};
use service_allocator::detailed::{assign_detailed, assign_detailed_core};
use service_allocator::model::{Participant, Task};

fn names(v: &[&str]) -> Vec<String> {
    v.iter().map(|s| s.to_string()).collect()
}

fn task_count(out: &[Assignment], task: &str) -> usize {
    out.iter().filter(|a| a.task.as_deref() == Some(task)).count()
}

fn sentinel_count(out: &[Assignment]) -> usize {
    out.iter().filter(|a| a.task.is_none()).count()
}

fn participant_once(out: &[Assignment], who: &str) -> bool {
    out.iter().filter(|a| a.participant == who).count() == 1
}

#[test]
fn basic_five_over_two_splits_three_two() {
    for _ in 0..20 {
        let r = assign_basic(names(&["A", "B", "C", "D", "E"]), names(&["X", "Y"]));
        match r {
            AssignmentResult::Assigned(out) => {
                assert_eq!(out.len(), 5);
                let x = task_count(&out, "X");
                let y = task_count(&out, "Y");
                assert!(x == 2 || x == 3);
                assert!(y == 2 || y == 3);
                assert_eq!(x + y, 5);
                for p in ["A", "B", "C", "D", "E"] {
                    assert!(participant_once(&out, p));
                }
            }
            AssignmentResult::InsufficientInput => panic!("expected an assignment"),
        }
    }
}

#[test]
fn basic_even_split_is_exact_on_every_run() {
    for _ in 0..20 {
        let r = assign_basic(names(&["A", "B", "C", "D", "E", "F"]), names(&["X", "Y", "Z"]));
        match r {
            AssignmentResult::Assigned(out) => {
                assert_eq!(out.len(), 6);
                assert_eq!(task_count(&out, "X"), 2);
                assert_eq!(task_count(&out, "Y"), 2);
                assert_eq!(task_count(&out, "Z"), 2);
            }
            AssignmentResult::InsufficientInput => panic!("expected an assignment"),
        }
    }
}

#[test]
fn basic_rejects_empty_participants() {
    let r = assign_basic(Vec::new(), names(&["X"]));
    assert!(matches!(r, AssignmentResult::InsufficientInput));
}

#[test]
fn basic_rejects_empty_selection() {
    let r = assign_basic(names(&["A"]), Vec::new());
    assert!(matches!(r, AssignmentResult::InsufficientInput));
}

#[test]
fn basic_pool_gives_first_names_the_extra_copies() {
    let pool = build_basic_pool(&names(&["X", "Y"]), 5);
    assert_eq!(pool, names(&["X", "X", "X", "Y", "Y"]));
    let even = build_basic_pool(&names(&["X", "Y", "Z"]), 6);
    assert_eq!(even, names(&["X", "X", "Y", "Y", "Z", "Z"]));
}

#[test]
fn pairing_is_positional() {
    let out = pair_assignments(names(&["A", "B"]), names(&["X", "Y"]));
    assert_eq!(out.len(), 2);
    assert_eq!(out[0].participant, "A");
    assert_eq!(out[0].task.as_deref(), Some("X"));
    assert_eq!(out[1].participant, "B");
    assert_eq!(out[1].task.as_deref(), Some("Y"));
}

#[test]
fn detailed_covers_every_selected_task() {
    for _ in 0..20 {
        let r = assign_detailed(
            names(&["A", "B", "C", "D", "E"]),
            names(&["X", "Y", "Z"]),
            names(&["X", "Y", "Y", "Z"]),
        );
        match r {
            AssignmentResult::Assigned(out) => {
                assert_eq!(out.len(), 5);
                assert!(task_count(&out, "X") >= 1);
                assert!(task_count(&out, "Y") >= 1);
                assert!(task_count(&out, "Z") >= 1);
            }
            AssignmentResult::InsufficientInput => panic!("expected an assignment"),
        }
    }
}

#[test]
fn detailed_with_fewer_participants_covers_n_distinct_tasks() {
    for _ in 0..20 {
        let r = assign_detailed(
            names(&["A", "B"]),
            names(&["X", "Y", "Z"]),
            names(&["X", "Y", "Z"]),
        );
        match r {
            AssignmentResult::Assigned(out) => {
                assert_eq!(out.len(), 2);
                assert_eq!(sentinel_count(&out), 0);
                let first = out[0].task.clone().unwrap();
                let second = out[1].task.clone().unwrap();
                assert_ne!(first, second);
                for t in [first, second] {
                    assert!(t == "X" || t == "Y" || t == "Z");
                }
            }
            AssignmentResult::InsufficientInput => panic!("expected an assignment"),
        }
    }
}

#[test]
fn detailed_exhausted_pool_leaves_sentinels_for_the_tail() {
    for _ in 0..20 {
        let roster: Vec<Participant> = ["A", "B", "C", "D"]
            .iter()
            .map(|n| Participant { name: n.to_string(), enabled: true })
            .collect();
        let catalog = vec![Task { name: "X".to_string(), importance: 1 }];
        let r = assign(&roster, Mode::Detailed, &catalog);
        match r {
            AssignmentResult::Assigned(out) => {
                assert_eq!(out.len(), 4);
                assert_eq!(task_count(&out, "X"), 1);
                assert_eq!(sentinel_count(&out), 3);
                assert!(out[0].task.is_some());
                assert!(out[1].task.is_none());
                assert!(out[2].task.is_none());
                assert!(out[3].task.is_none());
            }
            AssignmentResult::InsufficientInput => panic!("expected an assignment"),
        }
    }
}

#[test]
fn detailed_core_example_three_participants_two_tasks() {
    let out = assign_detailed_core(
        names(&["A", "B", "C"]),
        names(&["X", "Y"]),
        names(&["X", "Y", "Y"]),
    );
    assert_eq!(out.len(), 3);
    assert_eq!(out[0].participant, "A");
    assert_eq!(out[0].task.as_deref(), Some("X"));
    assert_eq!(out[1].participant, "B");
    assert_eq!(out[1].task.as_deref(), Some("Y"));
    assert_eq!(out[2].participant, "C");
    assert_eq!(out[2].task.as_deref(), Some("Y"));
}

#[test]
fn detailed_core_second_pass_pops_from_the_end() {
    let out = assign_detailed_core(names(&["A", "B"]), Vec::new(), names(&["X", "Y"]));
    assert_eq!(out.len(), 2);
    assert_eq!(out[0].participant, "A");
    assert_eq!(out[0].task.as_deref(), Some("Y"));
    assert_eq!(out[1].participant, "B");
    assert_eq!(out[1].task.as_deref(), Some("X"));
}

#[test]
fn detailed_core_removes_one_pool_copy_per_covered_task() {
    let out = assign_detailed_core(
        names(&["A", "B", "C"]),
        names(&["X"]),
        names(&["Y", "X", "X"]),
    );
    assert_eq!(out.len(), 3);
    assert_eq!(out[0].task.as_deref(), Some("X"));
    assert_eq!(out[1].task.as_deref(), Some("X"));
    assert_eq!(out[2].task.as_deref(), Some("Y"));
}

#[test]
fn assign_basic_mode_ignores_disabled_and_unselected() {
    let roster = vec![
        Participant { name: "A".to_string(), enabled: true },
        Participant { name: "B".to_string(), enabled: false },
        Participant { name: "C".to_string(), enabled: true },
    ];
    let catalog = vec![
        Task { name: "X".to_string(), importance: 1 },
        Task { name: "Z".to_string(), importance: 0 },
    ];
    let r = assign(&roster, Mode::Basic, &catalog);
    match r {
        AssignmentResult::Assigned(out) => {
            assert_eq!(out.len(), 2);
            assert!(participant_once(&out, "A"));
            assert!(participant_once(&out, "C"));
            assert_eq!(task_count(&out, "X"), 2);
            assert_eq!(task_count(&out, "Z"), 0);
        }
        AssignmentResult::InsufficientInput => panic!("expected an assignment"),
    }
}

#[test]
fn assign_rejects_all_zero_importance_in_both_modes() {
    let roster = vec![Participant { name: "A".to_string(), enabled: true }];
    let catalog = vec![
        Task { name: "X".to_string(), importance: 0 },
        Task { name: "Y".to_string(), importance: 0 },
    ];
    assert!(matches!(assign(&roster, Mode::Basic, &catalog), AssignmentResult::InsufficientInput));
    assert!(matches!(
        assign(&roster, Mode::Detailed, &catalog),
        AssignmentResult::InsufficientInput
    ));
}

#[test]
fn assign_rejects_empty_roster_in_both_modes() {
    let roster = vec![Participant { name: "A".to_string(), enabled: false }];
    let catalog = vec![Task { name: "X".to_string(), importance: 2 }];
    assert!(matches!(assign(&roster, Mode::Basic, &catalog), AssignmentResult::InsufficientInput));
    assert!(matches!(
        assign(&roster, Mode::Detailed, &catalog),
        AssignmentResult::InsufficientInput
    ));
}

#[test]
fn shuffles_keep_every_participant_and_every_copy() {
    let people: Vec<&str> = vec![
        "P01", "P02", "P03", "P04", "P05", "P06", "P07", "P08", "P09", "P10", "P11", "P12",
    ];
    for _ in 0..10 {
        let r = assign_basic(names(&people), names(&["X", "Y", "Z"]));
        match r {
            AssignmentResult::Assigned(out) => {
                assert_eq!(out.len(), people.len());
                for p in &people {
                    assert!(participant_once(&out, p));
                }
                assert_eq!(task_count(&out, "X"), 4);
                assert_eq!(task_count(&out, "Y"), 4);
                assert_eq!(task_count(&out, "Z"), 4);
            }
            AssignmentResult::InsufficientInput => panic!("expected an assignment"),
        }
    }
}
