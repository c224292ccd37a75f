//! The task lifecycle: creation, the state machine, and the ledger.

use zap_lib::error::ZapError;
use zap_lib::store::Store;
use zap_lib::store::TaskStatus;
use zap_lib::task::add_task_impl;
use zap_lib::task::finish_task_impl;
use zap_lib::task::get_task_by_id;
use zap_lib::task::start_task_impl;
use zap_lib::task::stop_task_impl;
use zap_lib::task::toggle_task_done_impl;
use zap_lib::task::CreateTaskRequest;

fn plain_request(title: &str) -> CreateTaskRequest {
    CreateTaskRequest {
        title: title.to_string(),
        category_id: None,
        estimate_seconds: None,
        notes: None,
        is_today_focus: None,
        start_on_create: None,
    }
}

#[test]
fn test_add_task_basic() {
    let mut s = Store::new();
    let req = plain_request("Test Task");
    add_task_impl(&mut s, req, 1_000).expect("Failed to add task");
    assert_eq!(s.tasks.len(), 1);
    assert_eq!(s.tasks[0].id, 1);
    assert_eq!(s.tasks[0].title, "Test Task");
    assert_eq!(s.tasks[0].done, TaskStatus::Todo);
    assert!(s.entries.is_empty());
}

#[test]
fn create_with_empty_title_is_rejected() {
    let mut s = Store::new();
    let req = plain_request("");
    let r = add_task_impl(&mut s, req, 1_000);
    assert!(matches!(r, Err(ZapError::InvalidTaskData(_))));
    assert!(s.tasks.is_empty());
}

#[test]
fn create_with_unknown_category_inserts_nothing() {
    // Scenario: a reference to the non-existent category 999 is rejected.
    let mut s = Store::new();
    let mut req = plain_request("Task with category");
    req.category_id = Some(999);
    let r = add_task_impl(&mut s, req, 1_000);
    assert!(matches!(r, Err(ZapError::InvalidCategoryData(_))));
    assert!(s.tasks.is_empty());
    assert!(s.entries.is_empty());
}

#[test]
fn create_start_then_stop_closes_first_session() {
    // Scenario: "Write report" with start_on_create, stopped immediately.
    let mut s = Store::new();
    let mut req = plain_request("Write report");
    req.start_on_create = Some(true);
    add_task_impl(&mut s, req, 5_000).unwrap();
    assert_eq!(s.tasks[0].done, TaskStatus::Running);
    assert_eq!(s.entries.len(), 1);
    assert_eq!(s.entries[0].note, "Write report #1");
    assert!(s.entries[0].ended_at.is_none());

    stop_task_impl(&mut s, 1, 5_125).unwrap();
    assert_eq!(s.tasks[0].done, TaskStatus::Todo);
    assert_eq!(s.entries.len(), 1);
    assert_eq!(s.entries[0].ended_at, Some(5_125));
    assert_eq!(s.entries[0].duration_seconds, Some(125));
    assert!(s.entries[0].duration_seconds.unwrap() >= 0);
    assert_eq!(s.entries[0].note, "Write report #1");
}

#[test]
fn start_assigns_consecutive_note_ordinals() {
    // Stop followed immediately by start: the two notes carry consecutive
    // ordinals.
    let mut s = Store::new();
    add_task_impl(&mut s, plain_request("Deep work"), 100).unwrap();
    start_task_impl(&mut s, 1, 200).unwrap();
    stop_task_impl(&mut s, 1, 300).unwrap();
    start_task_impl(&mut s, 1, 301).unwrap();
    assert_eq!(s.entries.len(), 2);
    assert_eq!(s.entries[0].note, "Deep work #1");
    assert_eq!(s.entries[1].note, "Deep work #2");
}

#[test]
fn start_on_running_task_fails_and_leaves_ledger_unchanged() {
    let mut s = Store::new();
    add_task_impl(&mut s, plain_request("One at a time"), 100).unwrap();
    start_task_impl(&mut s, 1, 200).unwrap();
    let entries_before = s.entries.len();
    let r = start_task_impl(&mut s, 1, 250);
    assert_eq!(r, Err(ZapError::TaskAlreadyStarted(1)));
    assert_eq!(s.entries.len(), entries_before);
    assert_eq!(s.tasks[0].done, TaskStatus::Running);
}

#[test]
fn stop_requires_running() {
    let mut s = Store::new();
    add_task_impl(&mut s, plain_request("Idle"), 100).unwrap();
    assert_eq!(stop_task_impl(&mut s, 1, 200), Err(ZapError::TaskNotStarted(1)));
    assert_eq!(stop_task_impl(&mut s, 7, 200), Err(ZapError::TaskNotFound(7)));
}

#[test]
fn finish_running_task_freezes_exact_duration() {
    // The implicit stop: finish closes the open entry with
    // duration == ended - started, then marks the task Finished.
    let mut s = Store::new();
    add_task_impl(&mut s, plain_request("Ship it"), 1_000).unwrap();
    start_task_impl(&mut s, 1, 2_000).unwrap();
    finish_task_impl(&mut s, 1, 2_777).unwrap();
    assert_eq!(s.tasks[0].done, TaskStatus::Finished);
    assert_eq!(s.tasks[0].completed_at, Some(2_777));
    assert_eq!(s.entries[0].ended_at, Some(2_777));
    assert_eq!(s.entries[0].duration_seconds, Some(777));
}

#[test]
fn finish_todo_task_skips_the_ledger() {
    let mut s = Store::new();
    add_task_impl(&mut s, plain_request("Quick win"), 1_000).unwrap();
    finish_task_impl(&mut s, 1, 1_500).unwrap();
    assert_eq!(s.tasks[0].done, TaskStatus::Finished);
    assert_eq!(s.tasks[0].completed_at, Some(1_500));
    assert!(s.entries.is_empty());
}

#[test]
fn reopen_clears_completion_and_requires_finished() {
    let mut s = Store::new();
    add_task_impl(&mut s, plain_request("Again"), 1_000).unwrap();
    assert_eq!(toggle_task_done_impl(&mut s, 1, 1_100), Err(ZapError::TaskNotDone(1)));
    finish_task_impl(&mut s, 1, 1_200).unwrap();
    toggle_task_done_impl(&mut s, 1, 1_300).unwrap();
    assert_eq!(s.tasks[0].done, TaskStatus::Todo);
    assert_eq!(s.tasks[0].completed_at, None);
    assert_eq!(toggle_task_done_impl(&mut s, 9, 1_400), Err(ZapError::TaskNotFound(9)));
}

#[test]
fn get_task_by_id_reports_misses() {
    let mut s = Store::new();
    add_task_impl(&mut s, plain_request("Found"), 1_000).unwrap();
    let t = get_task_by_id(&s, 1).unwrap();
    assert_eq!(t.title, "Found");
    assert_eq!(get_task_by_id(&s, 2).unwrap_err(), ZapError::TaskNotFound(2));
    assert_eq!(get_task_by_id(&s, 0).unwrap_err(), ZapError::TaskNotFound(0));
}

#[test]
fn running_task_has_exactly_one_open_entry() {
    // The single-open-session invariant, observed through the ledger.
    let mut s = Store::new();
    add_task_impl(&mut s, plain_request("Invariant"), 100).unwrap();
    start_task_impl(&mut s, 1, 200).unwrap();
    stop_task_impl(&mut s, 1, 300).unwrap();
    start_task_impl(&mut s, 1, 400).unwrap();
    let open: Vec<_> = s.entries.iter().filter(|e| e.ended_at.is_none()).collect();
    assert_eq!(open.len(), 1);
    assert_eq!(open[0].task_id, 1);
    stop_task_impl(&mut s, 1, 500).unwrap();
    assert!(s.entries.iter().all(|e| e.ended_at.is_some()));
}
