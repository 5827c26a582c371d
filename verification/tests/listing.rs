use task_tracker::store::TodoList;

#[test]
fn listing_empty_store_is_single_indicator() {
    let store = TodoList::new();
    let lines = store.render_listing();
    assert_eq!(lines, vec!["Task list is empty.".to_string()]);
}

#[test]
fn listing_shows_header_and_one_line_per_task() {
    let mut store = TodoList::new();
    store.add_task("Write report".to_string());
    store.add_task("Send mail".to_string());
    assert!(store.mark_completed(1));
    let lines = store.render_listing();
    assert_eq!(
        lines,
        vec![
            "Tasks:".to_string(),
            "1. Write report [done]".to_string(),
            "2. Send mail [not done]".to_string(),
        ]
    );
}

#[test]
fn listing_differs_between_empty_and_populated() {
    let empty = TodoList::new();
    let mut one = TodoList::new();
    one.add_task("A".to_string());
    assert_eq!(empty.render_listing().len(), 1);
    assert_eq!(one.render_listing().len(), 2);
    assert_ne!(empty.render_listing()[0], one.render_listing()[0]);
}

#[test]
fn list_tasks_reports_rows_in_order() {
    let mut store = TodoList::new();
    store.add_task("A".to_string());
    store.add_task("B".to_string());
    assert!(store.mark_completed(2));
    let r = store.list_tasks();
    assert_eq!(r, vec![(1, "A".to_string(), false), (2, "B".to_string(), true)]);
}
