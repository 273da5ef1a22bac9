use service_allocator::model::{enabled_participants, selected_tasks, weighted_pool, Participant, Task};

fn roster() -> Vec<Participant> {
    vec![
        Participant { name: "Dane".to_string(), enabled: true },
        Participant { name: "Dhandapani".to_string(), enabled: false },
        Participant { name: "Li Chien".to_string(), enabled: true },
        Participant { name: "Andrea".to_string(), enabled: false },
        Participant { name: "Andrew".to_string(), enabled: true },
    ]
}

fn catalog() -> Vec<Task> {
    vec![
        Task { name: "verification-api".to_string(), importance: 1 },
        Task { name: "connections-api".to_string(), importance: 0 },
        Task { name: "auth-server".to_string(), importance: 2 },
        Task { name: "signup-plus".to_string(), importance: 0 },
        Task { name: "resource-api".to_string(), importance: 3 },
    ]
}

#[test]
fn enabled_participants_keeps_order_and_drops_disabled() {
    let names = enabled_participants(&roster());
    assert_eq!(names, vec!["Dane".to_string(), "Li Chien".to_string(), "Andrew".to_string()]);
}

#[test]
fn enabled_participants_empty_roster() {
    let names = enabled_participants(&Vec::new());
    assert!(names.is_empty());
}

#[test]
fn selected_tasks_keeps_order_and_drops_zero_importance() {
    let names = selected_tasks(&catalog());
    assert_eq!(
        names,
        vec![
            "verification-api".to_string(),
            "auth-server".to_string(),
            "resource-api".to_string()
        ]
    );
}

#[test]
fn weighted_pool_repeats_each_name_importance_times() {
    let pool = weighted_pool(&catalog());
    assert_eq!(
        pool,
        vec![
            "verification-api".to_string(),
            "auth-server".to_string(),
            "auth-server".to_string(),
            "resource-api".to_string(),
            "resource-api".to_string(),
            "resource-api".to_string()
        ]
    );
}

#[test]
fn weighted_pool_small_example() {
    let catalog = vec![
        Task { name: "X".to_string(), importance: 1 },
        Task { name: "Y".to_string(), importance: 2 },
    ];
    let pool = weighted_pool(&catalog);
    assert_eq!(pool, vec!["X".to_string(), "Y".to_string(), "Y".to_string()]);
}

#[test]
fn filters_twice_give_identical_sequences() {
    let r = roster();
    let c = catalog();
    assert_eq!(enabled_participants(&r), enabled_participants(&r));
    assert_eq!(selected_tasks(&c), selected_tasks(&c));
    assert_eq!(weighted_pool(&c), weighted_pool(&c));
}

#[test]
fn all_importance_zero_selects_nothing() {
    let catalog = vec![
        Task { name: "X".to_string(), importance: 0 },
        Task { name: "Y".to_string(), importance: 0 },
    ];
    assert!(selected_tasks(&catalog).is_empty());
    assert!(weighted_pool(&catalog).is_empty());
}
