//! The query/list service and the category listing.

use zap_lib::categories::add_category_impl;
use zap_lib::categories::list_categories_impl;
use zap_lib::categories::remove_category_impl;
use zap_lib::date::date_to_day_number;
use zap_lib::date::Date;
use zap_lib::date::SECONDS_PER_DAY;
use zap_lib::error::ZapError;
use zap_lib::store::Store;
use zap_lib::store::TaskStatus;
use zap_lib::task::add_task_impl;
use zap_lib::task::finish_task_impl;
use zap_lib::task::list_tasks_impl;
use zap_lib::task::start_task_impl;
use zap_lib::task::stop_task_impl;
use zap_lib::task::CreateTaskRequest;
use zap_lib::task::TaskQuery;
use zap_lib::types::PaginatedResponse;

fn request(title: &str) -> CreateTaskRequest {
    CreateTaskRequest {
        title: title.to_string(),
        category_id: None,
        estimate_seconds: None,
        notes: None,
        is_today_focus: None,
        start_on_create: None,
    }
}

fn monday() -> i64 {
    date_to_day_number(Date { year: 2024, month: 1, day: 15 }) * SECONDS_PER_DAY
}

#[test]
fn test_list_tasks() {
    let mut s = Store::new();
    let t0 = monday();
    add_task_impl(&mut s, request("Alpha"), t0 + 10).unwrap();
    add_task_impl(&mut s, request("Beta"), t0 + 20).unwrap();
    let mut q = TaskQuery::new();
    q.done = Some(TaskStatus::Todo);
    q.page_size = 10;
    q.page_index = 1;
    let page = list_tasks_impl(&s, &q, t0 + 100);
    assert_eq!(page.total, 2);
    assert_eq!(page.data.len(), 2);
}

#[test]
fn listing_hides_finished_tasks_by_default() {
    let mut s = Store::new();
    let t0 = monday();
    add_task_impl(&mut s, request("Open one"), t0 + 10).unwrap();
    add_task_impl(&mut s, request("Done one"), t0 + 20).unwrap();
    finish_task_impl(&mut s, 2, t0 + 30).unwrap();

    let page = list_tasks_impl(&s, &TaskQuery::new(), t0 + 100);
    assert_eq!(page.total, 1);
    assert_eq!(page.data[0].title, "Open one");

    let mut q = TaskQuery::new();
    q.done = Some(TaskStatus::Finished);
    let done_page = list_tasks_impl(&s, &q, t0 + 100);
    assert_eq!(done_page.total, 1);
    assert_eq!(done_page.data[0].title, "Done one");
    assert_eq!(done_page.data[0].completed_at.as_deref(), Some("2024-01-15 00:00:30"));
}

#[test]
fn listing_orders_by_status_then_newest() {
    let mut s = Store::new();
    let t0 = monday();
    add_task_impl(&mut s, request("Old todo"), t0 + 10).unwrap();
    add_task_impl(&mut s, request("Running one"), t0 + 20).unwrap();
    add_task_impl(&mut s, request("New todo"), t0 + 30).unwrap();
    start_task_impl(&mut s, 2, t0 + 40).unwrap();

    let page = list_tasks_impl(&s, &TaskQuery::new(), t0 + 100);
    let titles: Vec<&str> = page.data.iter().map(|t| t.title.as_str()).collect();
    assert_eq!(titles, vec!["New todo", "Old todo", "Running one"]);
}

#[test]
fn listing_filters_by_title_substring() {
    let mut s = Store::new();
    let t0 = monday();
    add_task_impl(&mut s, request("Write report"), t0 + 10).unwrap();
    add_task_impl(&mut s, request("Read book"), t0 + 20).unwrap();
    let mut q = TaskQuery::new();
    q.task_name = Some("port".to_string());
    let page = list_tasks_impl(&s, &q, t0 + 100);
    assert_eq!(page.total, 1);
    assert_eq!(page.data[0].title, "Write report");

    q.task_name = Some("missing".to_string());
    let empty = list_tasks_impl(&s, &q, t0 + 100);
    assert_eq!(empty.total, 0);
    assert!(empty.data.is_empty());
    assert_eq!(empty.page_index, 1);
    assert_eq!(empty.page_size, 20);
}

#[test]
fn listing_filter_handles_wide_characters() {
    let mut s = Store::new();
    let t0 = monday();
    add_task_impl(&mut s, request("\u{6d4b}\u{8bd5}\u{4efb}\u{52a1}"), t0 + 10).unwrap();
    add_task_impl(&mut s, request("Plain"), t0 + 20).unwrap();
    let mut q = TaskQuery::new();
    q.task_name = Some("\u{4efb}\u{52a1}".to_string());
    let page = list_tasks_impl(&s, &q, t0 + 100);
    assert_eq!(page.total, 1);
    assert_eq!(page.data[0].title, "\u{6d4b}\u{8bd5}\u{4efb}\u{52a1}");
}

#[test]
fn listing_paginates() {
    let mut s = Store::new();
    let t0 = monday();
    for i in 0..5i64 {
        add_task_impl(&mut s, request(&format!("Task {i}")), t0 + 10 + i).unwrap();
    }
    let mut q = TaskQuery::new();
    q.page_size = 2;
    q.page_index = 1;
    let first = list_tasks_impl(&s, &q, t0 + 100);
    assert_eq!(first.total, 5);
    assert_eq!(first.data.len(), 2);
    assert_eq!(first.data[0].title, "Task 4");
    q.page_index = 3;
    let last = list_tasks_impl(&s, &q, t0 + 100);
    assert_eq!(last.data.len(), 1);
    assert_eq!(last.data[0].title, "Task 0");
    q.page_index = 4;
    let past = list_tasks_impl(&s, &q, t0 + 100);
    assert!(past.data.is_empty());
    assert_eq!(past.total, 5);
}

#[test]
fn listing_reports_durations_and_live_session() {
    let t0 = monday();
    // Yesterday is out of "today" but in the lifetime sum.
    let yesterday = t0 - SECONDS_PER_DAY;
    let mut s2 = Store::new();
    add_task_impl(&mut s2, request("Tracked"), yesterday + 10).unwrap();
    start_task_impl(&mut s2, 1, yesterday + 100).unwrap();
    stop_task_impl(&mut s2, 1, yesterday + 160).unwrap();
    start_task_impl(&mut s2, 1, t0 + 100).unwrap();
    stop_task_impl(&mut s2, 1, t0 + 125).unwrap();
    start_task_impl(&mut s2, 1, t0 + 200).unwrap();

    let page = list_tasks_impl(&s2, &TaskQuery::new(), t0 + 230);
    assert_eq!(page.total, 1);
    let row = &page.data[0];
    assert_eq!(row.done, TaskStatus::Running);
    assert_eq!(row.total_duration_seconds, 85);
    assert_eq!(row.today_duration_seconds, 25);
    assert_eq!(row.session_seconds, 30);
}

#[test]
fn test_list_categories() {
    let mut s = Store::new();
    let t0 = monday();
    let a = add_category_impl(&mut s, "Work".to_string(), "#FF0000".to_string(), t0).unwrap();
    let b = add_category_impl(&mut s, "Life".to_string(), "#00FF00".to_string(), t0 + 1).unwrap();
    let cats = list_categories_impl(&s);
    assert_eq!(cats.len(), 2);
    assert_eq!(cats[0].id, a);
    assert_eq!(cats[0].name, "Work");
    assert_eq!(cats[1].id, b);
    assert_eq!(cats[1].color, "#00FF00");
}

#[test]
fn category_maintenance_enforces_references() {
    let mut s = Store::new();
    let t0 = monday();
    let empty = add_category_impl(&mut s, String::new(), "#123456".to_string(), t0);
    assert!(matches!(empty, Err(ZapError::InvalidCategoryData(_))));

    let c = add_category_impl(&mut s, "Work".to_string(), "#FF0000".to_string(), t0).unwrap();
    let mut req = request("Attached");
    req.category_id = Some(c);
    add_task_impl(&mut s, req, t0 + 10).unwrap();

    assert_eq!(remove_category_impl(&mut s, 42, t0 + 20), Err(ZapError::CategoryNotFound(42)));
    assert_eq!(remove_category_impl(&mut s, c, t0 + 30), Err(ZapError::CategoryHasTasks));

    let lonely = add_category_impl(&mut s, "Spare".to_string(), "#0000FF".to_string(), t0 + 40)
        .unwrap();
    remove_category_impl(&mut s, lonely, t0 + 50).unwrap();
    assert_eq!(list_categories_impl(&s).len(), 1);
}

#[test]
fn paginated_response_constructors_echo_their_inputs() {
    let page: PaginatedResponse<u32> = PaginatedResponse::new(vec![5, 6], 9, 2, 2);
    assert_eq!(page.data, vec![5, 6]);
    assert_eq!(page.total, 9);
    assert_eq!(page.page_index, 2);
    assert_eq!(page.page_size, 2);
    let empty: PaginatedResponse<u32> = PaginatedResponse::empty(3, 10);
    assert!(empty.data.is_empty());
    assert_eq!(empty.total, 0);
    assert_eq!(empty.page_index, 3);
    assert_eq!(empty.page_size, 10);
}
