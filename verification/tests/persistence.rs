use task_tracker::codec::load_from_content;
use task_tracker::codec::parse_store;
use task_tracker::store::TodoList;

fn store_with(titles: &[&str]) -> TodoList {
    let mut store = TodoList::new();
    for t in titles {
        store.add_task(t.to_string());
    }
    store
}

#[test]
fn render_empty_store() {
    let store = TodoList::new();
    assert_eq!(store.render_store(), "{\"tasks\":[]}");
}

#[test]
fn render_two_tasks_exact() {
    let mut store = store_with(&["A", "B"]);
    assert!(store.mark_completed(2));
    assert_eq!(
        store.render_store(),
        "{\"tasks\":[{\"id\":1,\"title\":\"A\",\"completed\":false},{\"id\":2,\"title\":\"B\",\"completed\":true}]}"
    );
}

#[test]
fn render_escapes_quotes_backslashes_and_controls() {
    let store = store_with(&["a\"b\\c\nd"]);
    assert_eq!(
        store.render_store(),
        "{\"tasks\":[{\"id\":1,\"title\":\"a\\\"b\\\\c\\u000ad\",\"completed\":false}]}"
    );
}

#[test]
fn round_trip_reproduces_store() {
    let mut store = store_with(&["Buy milk", "", "quote \" and slash \\", "tab\tnewline\n", "done one"]);
    assert!(store.mark_completed(3));
    assert!(store.mark_completed(5));
    let rendered = store.render_store();
    let reloaded = load_from_content(Some(&rendered));
    assert_eq!(reloaded.list_tasks(), store.list_tasks());
}

#[test]
fn round_trip_empty_store() {
    let store = TodoList::new();
    let rendered = store.render_store();
    let reloaded = load_from_content(Some(&rendered));
    assert_eq!(reloaded.list_tasks().len(), 0);
}

#[test]
fn load_missing_content_gives_empty() {
    let store = load_from_content(None);
    assert_eq!(store.list_tasks().len(), 0);
}

#[test]
fn load_invalid_json_gives_empty() {
    assert_eq!(load_from_content(Some("not json at all")).list_tasks().len(), 0);
    assert_eq!(load_from_content(Some("")).list_tasks().len(), 0);
    assert_eq!(load_from_content(Some("{\"tasks\":[")).list_tasks().len(), 0);
}

#[test]
fn load_missing_tasks_field_gives_empty() {
    assert_eq!(load_from_content(Some("{}")).list_tasks().len(), 0);
    assert_eq!(load_from_content(Some("{\"items\":[]}")).list_tasks().len(), 0);
}

#[test]
fn load_type_mismatch_gives_empty() {
    let content = "{\"tasks\":[{\"id\":\"1\",\"title\":\"A\",\"completed\":false}]}";
    assert_eq!(load_from_content(Some(content)).list_tasks().len(), 0);
}

#[test]
fn load_accepts_surrounding_whitespace() {
    let spaced = " {\"tasks\":[]} \n";
    assert_eq!(load_from_content(Some(spaced)).list_tasks().len(), 0);
    let one = " {\"tasks\": [ {\"id\": 1, \"title\": \"A\", \"completed\": false} ] }";
    assert_eq!(load_from_content(Some(one)).list_tasks(), vec![(1, "A".to_string(), false)]);
}

#[test]
fn load_accepts_pretty_printed_document() {
    let pretty = "{\n  \"tasks\": [\n    {\n      \"id\": 1,\n      \"title\": \"A\",\n      \"completed\": false\n    },\n    {\n      \"id\": 2,\n      \"title\": \"B\",\n      \"completed\": true\n    }\n  ]\n}\n";
    let store = load_from_content(Some(pretty));
    assert_eq!(
        store.list_tasks(),
        vec![(1, "A".to_string(), false), (2, "B".to_string(), true)]
    );
}

#[test]
fn load_accepts_reordered_fields() {
    let content = "{\"tasks\":[{\"completed\":true,\"title\":\"A\",\"id\":1},{\"title\":\"B\",\"id\":2,\"completed\":false}]}";
    let store = load_from_content(Some(content));
    assert_eq!(
        store.list_tasks(),
        vec![(1, "A".to_string(), true), (2, "B".to_string(), false)]
    );
}

#[test]
fn load_duplicate_field_gives_empty() {
    let content = "{\"tasks\":[{\"id\":1,\"id\":1,\"title\":\"A\",\"completed\":false}]}";
    assert_eq!(load_from_content(Some(content)).list_tasks().len(), 0);
}

#[test]
fn load_missing_task_field_gives_empty() {
    let content = "{\"tasks\":[{\"id\":1,\"title\":\"A\"}]}";
    assert_eq!(load_from_content(Some(content)).list_tasks().len(), 0);
}

#[test]
fn load_surrogate_pair_escape() {
    let content = "{\"tasks\":[{\"id\":1,\"title\":\"\\uD83D\\uDE00!\",\"completed\":false}]}";
    let store = load_from_content(Some(content));
    assert_eq!(store.list_tasks(), vec![(1, "\u{1F600}!".to_string(), false)]);
}

#[test]
fn load_trailing_garbage_gives_empty() {
    assert_eq!(load_from_content(Some("{\"tasks\":[]}x")).list_tasks().len(), 0);
    assert_eq!(load_from_content(Some("{\"tasks\":[]}{}")).list_tasks().len(), 0);
}

#[test]
fn load_short_escapes() {
    let content = "{\"tasks\":[{\"id\":1,\"title\":\"x\\ty\\nz\\\"q\\\\w\\/e\",\"completed\":true}]}";
    let store = load_from_content(Some(content));
    assert_eq!(store.list_tasks(), vec![(1, "x\ty\nz\"q\\w/e".to_string(), true)]);
}

#[test]
fn load_unicode_escape() {
    let content = "{\"tasks\":[{\"id\":1,\"title\":\"\\u0416\\u0061\",\"completed\":false}]}";
    let store = load_from_content(Some(content));
    assert_eq!(store.list_tasks(), vec![(1, "\u{416}a".to_string(), false)]);
}

#[test]
fn load_lone_surrogate_escape_gives_empty() {
    let content = "{\"tasks\":[{\"id\":1,\"title\":\"\\uD800\",\"completed\":false}]}";
    assert_eq!(load_from_content(Some(content)).list_tasks().len(), 0);
    let low_first = "{\"tasks\":[{\"id\":1,\"title\":\"\\uDE00\",\"completed\":false}]}";
    assert_eq!(load_from_content(Some(low_first)).list_tasks().len(), 0);
}

#[test]
fn load_unknown_escape_gives_empty() {
    let content = "{\"tasks\":[{\"id\":1,\"title\":\"\\x41\",\"completed\":false}]}";
    assert_eq!(load_from_content(Some(content)).list_tasks().len(), 0);
}

#[test]
fn load_huge_id_gives_empty() {
    let content = "{\"tasks\":[{\"id\":4294967296,\"title\":\"A\",\"completed\":false}]}";
    assert_eq!(load_from_content(Some(content)).list_tasks().len(), 0);
}

#[test]
fn parse_keeps_noncontiguous_ids_but_load_rejects_them() {
    let content = "{\"tasks\":[{\"id\":2,\"title\":\"A\",\"completed\":false},{\"id\":3,\"title\":\"B\",\"completed\":false}]}";
    let parsed = parse_store(content).expect("well-formed JSON should parse");
    let ids: Vec<u32> = parsed.list_tasks().iter().map(|r| r.0).collect();
    assert_eq!(ids, vec![2, 3]);
    assert!(!parsed.check_ids());
    assert_eq!(load_from_content(Some(content)).list_tasks().len(), 0);
}

#[test]
fn load_round_trips_unicode_titles() {
    let store = store_with(&["Зробити щось", "買い物"]);
    let rendered = store.render_store();
    let reloaded = load_from_content(Some(&rendered));
    assert_eq!(reloaded.list_tasks(), store.list_tasks());
}
