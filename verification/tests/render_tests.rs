use service_allocator::allocator::{Assignment, AssignmentResult};
use service_allocator::detailed::assign_detailed_core;
use service_allocator::render::{
    insufficient_input_message, no_service_text, render_line, render_report,
};

#[test]
fn line_with_task() {
    let a = Assignment { participant: "Andrea".to_string(), task: Some("auth-server".to_string()) };
    assert_eq!(render_line(&a), "Andrea => auth-server");
}

#[test]
fn line_without_task_uses_the_sentinel() {
    let a = Assignment { participant: "Andrea".to_string(), task: None };
    assert_eq!(render_line(&a), "Andrea => No Service Available");
}

#[test]
fn report_joins_lines_with_newlines() {
    let out = assign_detailed_core(
        vec!["A".to_string(), "B".to_string(), "C".to_string()],
        vec!["X".to_string(), "Y".to_string()],
        vec!["X".to_string(), "Y".to_string(), "Y".to_string()],
    );
    let report = render_report(&AssignmentResult::Assigned(out));
    assert_eq!(report, "A => X\nB => Y\nC => Y");
}

#[test]
fn report_of_empty_assignment_list_is_empty() {
    let report = render_report(&AssignmentResult::Assigned(Vec::new()));
    assert_eq!(report, "");
}

#[test]
fn report_with_sentinel_line() {
    let out = assign_detailed_core(
        vec!["A".to_string(), "B".to_string()],
        vec!["X".to_string()],
        vec!["X".to_string()],
    );
    let report = render_report(&AssignmentResult::Assigned(out));
    assert_eq!(report, "A => X\nB => No Service Available");
}

#[test]
fn insufficient_input_has_the_fixed_diagnostic() {
    let report = render_report(&AssignmentResult::InsufficientInput);
    assert_eq!(report, "Please select at least one team member and service");
    assert_eq!(insufficient_input_message(), "Please select at least one team member and service");
}

#[test]
fn sentinel_text_is_fixed() {
    assert_eq!(no_service_text(), "No Service Available");
}
