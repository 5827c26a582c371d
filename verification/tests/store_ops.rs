use task_tracker::store::TodoList;

fn store_with(titles: &[&str]) -> TodoList {
    let mut store = TodoList::new();
    for t in titles {
        store.add_task(t.to_string());
    }
    store
}

fn rows(store: &TodoList) -> Vec<(u32, String, bool)> {
    store.list_tasks()
}

#[test]
fn new_store_is_empty() {
    let store = TodoList::new();
    assert_eq!(rows(&store).len(), 0);
}

#[test]
fn add_assigns_sequential_ids() {
    let store = store_with(&["A", "B", "C"]);
    let r = rows(&store);
    assert_eq!(r.len(), 3);
    assert_eq!(r[0], (1, "A".to_string(), false));
    assert_eq!(r[1], (2, "B".to_string(), false));
    assert_eq!(r[2], (3, "C".to_string(), false));
}

#[test]
fn add_after_delete_continues_from_count() {
    let mut store = store_with(&["A", "B", "C"]);
    assert!(store.delete_task(1));
    store.add_task("D".to_string());
    let r = rows(&store);
    assert_eq!(r.len(), 3);
    assert_eq!(r[0], (1, "B".to_string(), false));
    assert_eq!(r[1], (2, "C".to_string(), false));
    assert_eq!(r[2], (3, "D".to_string(), false));
}

#[test]
fn delete_then_reindex() {
    let mut store = store_with(&["A", "B", "C"]);
    assert!(store.delete_task(2));
    let r = rows(&store);
    assert_eq!(r.len(), 2);
    assert_eq!(r[0], (1, "A".to_string(), false));
    assert_eq!(r[1], (2, "C".to_string(), false));
}

#[test]
fn delete_keeps_completion_of_renumbered_task() {
    let mut store = store_with(&["A", "B", "C"]);
    assert!(store.mark_completed(3));
    assert!(store.delete_task(2));
    let r = rows(&store);
    assert_eq!(r.len(), 2);
    assert_eq!(r[0], (1, "A".to_string(), false));
    assert_eq!(r[1], (2, "C".to_string(), true));
}

#[test]
fn delete_all_then_add_restarts_at_one() {
    let mut store = store_with(&["A", "B"]);
    assert!(store.delete_task(1));
    assert!(store.delete_task(1));
    assert_eq!(rows(&store).len(), 0);
    store.add_task("C".to_string());
    assert_eq!(rows(&store), vec![(1, "C".to_string(), false)]);
}

#[test]
fn delete_not_found_is_noop() {
    let mut store = store_with(&["A", "B"]);
    let before = rows(&store);
    assert!(!store.delete_task(0));
    assert!(!store.delete_task(3));
    assert_eq!(rows(&store), before);
}

#[test]
fn edit_not_found_is_noop() {
    let mut store = store_with(&["A", "B"]);
    let before = rows(&store);
    assert!(!store.edit_task(0, "X".to_string()));
    assert!(!store.edit_task(3, "X".to_string()));
    assert_eq!(rows(&store), before);
}

#[test]
fn mark_completed_not_found_is_noop() {
    let mut store = store_with(&["A", "B"]);
    let before = rows(&store);
    assert!(!store.mark_completed(0));
    assert!(!store.mark_completed(3));
    assert_eq!(rows(&store), before);
}

#[test]
fn edit_replaces_title_in_place() {
    let mut store = store_with(&["A", "B"]);
    assert!(store.edit_task(2, "B2".to_string()));
    let r = rows(&store);
    assert_eq!(r[0], (1, "A".to_string(), false));
    assert_eq!(r[1], (2, "B2".to_string(), false));
}

#[test]
fn edit_preserves_completion() {
    let mut store = store_with(&["A"]);
    assert!(store.mark_completed(1));
    assert!(store.edit_task(1, "New title".to_string()));
    assert_eq!(rows(&store), vec![(1, "New title".to_string(), true)]);
}

#[test]
fn mark_completed_is_idempotent() {
    let mut store = store_with(&["A"]);
    assert!(store.mark_completed(1));
    assert!(store.mark_completed(1));
    assert_eq!(rows(&store), vec![(1, "A".to_string(), true)]);
}

#[test]
fn reassign_ids_renumbers_in_order() {
    let mut store = store_with(&["A", "B", "C"]);
    store.reassign_ids();
    let r = rows(&store);
    assert_eq!(r[0].0, 1);
    assert_eq!(r[1].0, 2);
    assert_eq!(r[2].0, 3);
}

#[test]
fn check_ids_accepts_library_stores() {
    let mut store = store_with(&["A", "B", "C"]);
    assert!(store.check_ids());
    store.delete_task(2);
    assert!(store.check_ids());
}
