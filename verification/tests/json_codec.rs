use task_tracker::store::TaskStore;
use task_tracker::task::{Status, Task};

fn task(id: u32, description: &str, status: Status, created: &str, updated: &str) -> Task {
    Task {
        id,
        description: description.to_string(),
        status,
        created_at: created.to_string(),
        updated_at: updated.to_string(),
    }
}

#[test]
fn empty_store_encodes_as_empty_array() {
    let store = TaskStore::new();
    assert_eq!(store.to_json(), "[]\n");
}

#[test]
fn empty_document_decodes_to_empty_store() {
    let store = TaskStore::from_json("[]\n").unwrap();
    assert_eq!(store.len(), 0);
}

#[test]
fn encode_exact_document() {
    let store = TaskStore {
        tasks: vec![
            task(1, "buy milk", Status::Todo, "2024-01-02T03:04:05+00:00", "2024-01-02T03:04:05+00:00"),
            task(2, "walk dog", Status::Done, "2024-01-02T03:04:06+00:00", "2024-01-03T07:08:09+00:00"),
        ],
    };
    let expected = "[\n  {\"id\": 1, \"description\": \"buy milk\", \"status\": \"todo\", \"created_at\": \"2024-01-02T03:04:05+00:00\", \"updated_at\": \"2024-01-02T03:04:05+00:00\"},\n  {\"id\": 2, \"description\": \"walk dog\", \"status\": \"done\", \"created_at\": \"2024-01-02T03:04:06+00:00\", \"updated_at\": \"2024-01-03T07:08:09+00:00\"}\n]\n";
    assert_eq!(store.to_json(), expected);
}

#[test]
fn decode_exact_document() {
    let doc = "[\n  {\"id\": 12, \"description\": \"water plants\", \"status\": \"in-progress\", \"created_at\": \"c\", \"updated_at\": \"u\"}\n]\n";
    let store = TaskStore::from_json(doc).unwrap();
    assert_eq!(store.len(), 1);
    let t = &store.tasks[0];
    assert_eq!(t.id, 12);
    assert_eq!(t.description, "water plants");
    assert_eq!(t.status, Status::InProgress);
    assert_eq!(t.created_at, "c");
    assert_eq!(t.updated_at, "u");
}

#[test]
fn round_trip_preserves_every_field() {
    let store = TaskStore {
        tasks: vec![
            task(1, "plain", Status::Todo, "2024-05-06T07:08:09+02:00", "2024-05-06T07:08:09+02:00"),
            task(7, "", Status::InProgress, "a", "b"),
            task(40, "ordered after a gap", Status::Done, "x", "y"),
        ],
    };
    let encoded = store.to_json();
    let back = TaskStore::from_json(&encoded).unwrap();
    assert_eq!(back.tasks, store.tasks);
    assert_eq!(back.to_json(), encoded);
}

#[test]
fn round_trip_escapes_special_characters() {
    let store = TaskStore {
        tasks: vec![task(
            1,
            "say \"hi\\there\"\nwith a\ttab and a\rreturn",
            Status::Todo,
            "c",
            "u",
        )],
    };
    let encoded = store.to_json();
    let back = TaskStore::from_json(&encoded).unwrap();
    assert_eq!(back.tasks, store.tasks);
}

#[test]
fn round_trip_after_operations() {
    let mut store = TaskStore::new();
    store.add("one".to_string());
    store.add("two, with a comma".to_string());
    store.mark_done(1).unwrap();
    let encoded = store.to_json();
    let back = TaskStore::from_json(&encoded).unwrap();
    assert_eq!(back.tasks, store.tasks);
}

#[test]
fn corrupt_documents_are_rejected() {
    assert!(TaskStore::from_json("").is_none());
    assert!(TaskStore::from_json("[]").is_none());
    assert!(TaskStore::from_json("not json").is_none());
    assert!(TaskStore::from_json("[\n]\n").is_none());
    assert!(TaskStore::from_json("[\n  {\"id\": 1}\n]\n").is_none());
    assert!(TaskStore::from_json(
        "[\n  {\"id\": 1, \"description\": \"a\", \"status\": \"todo\", \"created_at\": \"c\", \"updated_at\": \"u\"}\n]\ntrailing"
    )
    .is_none());
    // unknown status literal
    assert!(TaskStore::from_json(
        "[\n  {\"id\": 1, \"description\": \"a\", \"status\": \"started\", \"created_at\": \"c\", \"updated_at\": \"u\"}\n]\n"
    )
    .is_none());
    // id too large for u32
    assert!(TaskStore::from_json(
        "[\n  {\"id\": 4294967296, \"description\": \"a\", \"status\": \"todo\", \"created_at\": \"c\", \"updated_at\": \"u\"}\n]\n"
    )
    .is_none());
}

#[test]
fn documents_breaking_the_store_invariant_are_rejected() {
    // duplicate ids
    assert!(TaskStore::from_json(
        "[\n  {\"id\": 1, \"description\": \"a\", \"status\": \"todo\", \"created_at\": \"c\", \"updated_at\": \"u\"},\n  {\"id\": 1, \"description\": \"b\", \"status\": \"done\", \"created_at\": \"c\", \"updated_at\": \"u\"}\n]\n"
    )
    .is_none());
    // non-positive id
    assert!(TaskStore::from_json(
        "[\n  {\"id\": 0, \"description\": \"a\", \"status\": \"todo\", \"created_at\": \"c\", \"updated_at\": \"u\"}\n]\n"
    )
    .is_none());
}

#[test]
fn encoded_document_is_well_formed_json() {
    let mut store = TaskStore::new();
    store.add("quote \" backslash \\ and newline \n inside".to_string());
    store.add("plain".to_string());
    store.mark_in_progress(2).unwrap();
    let encoded = store.to_json();
    let value: serde_json::Value = serde_json::from_str(&encoded).unwrap();
    let arr = value.as_array().unwrap();
    assert_eq!(arr.len(), 2);
    assert_eq!(arr[0]["id"].as_u64(), Some(1));
    assert_eq!(
        arr[0]["description"].as_str(),
        Some("quote \" backslash \\ and newline \n inside")
    );
    assert_eq!(arr[0]["status"].as_str(), Some("todo"));
    assert_eq!(arr[1]["id"].as_u64(), Some(2));
    assert_eq!(arr[1]["status"].as_str(), Some("in-progress"));
    assert!(arr[1]["created_at"].is_string());
    assert!(arr[1]["updated_at"].is_string());
}

#[test]
fn parser_accepts_raw_newlines_inside_strings() {
    let doc = "[\n  {\"id\": 3, \"description\": \"two\nlines\", \"status\": \"todo\", \"created_at\": \"c\", \"updated_at\": \"u\"}\n]\n";
    let store = TaskStore::from_json(doc).unwrap();
    assert_eq!(store.tasks[0].description, "two\nlines");
}
