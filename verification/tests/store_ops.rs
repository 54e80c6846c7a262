use task_tracker::store::{TaskError, TaskStore};
use task_tracker::task::{Status, Task};

fn descriptions(store: &TaskStore) -> Vec<String> {
    store.tasks.iter().map(|t| t.description.clone()).collect()
}

#[test]
fn add_assigns_sequential_ids() {
    let mut store = TaskStore::new();
    for k in 1..=5u32 {
        let t = store.add(format!("task {}", k));
        assert_eq!(t.id, k);
        assert_eq!(t.status, Status::Todo);
    }
    let ids: Vec<u32> = store.tasks.iter().map(|t| t.id).collect();
    assert_eq!(ids, vec![1, 2, 3, 4, 5]);
}

#[test]
fn add_after_delete_reuses_max_plus_one() {
    let mut store = TaskStore::new();
    store.add("a".to_string());
    store.add("b".to_string());
    store.add("c".to_string());
    store.delete(3).unwrap();
    let t = store.add("d".to_string());
    assert_eq!(t.id, 3);
    store.delete(1).unwrap();
    let t = store.add("e".to_string());
    assert_eq!(t.id, 4);
}

#[test]
fn delete_removes_and_returns_task() {
    let mut store = TaskStore::new();
    store.add("first".to_string());
    store.add("second".to_string());
    let removed = store.delete(1).unwrap();
    assert_eq!(removed.id, 1);
    assert_eq!(removed.description, "first");
    assert_eq!(store.len(), 1);
    assert_eq!(store.tasks[0].id, 2);
}

#[test]
fn delete_then_lookup_reports_not_found() {
    let mut store = TaskStore::new();
    store.add("only".to_string());
    store.delete(1).unwrap();
    assert_eq!(store.delete(1), Err(TaskError::NotFound));
    assert_eq!(store.update(1, None, None), Err(TaskError::NotFound));
    assert_eq!(store.mark_done(1), Err(TaskError::NotFound));
    assert_eq!(store.mark_in_progress(1), Err(TaskError::NotFound));
    assert!(store.get(1).is_none());
}

#[test]
fn update_description_only_keeps_status_and_id() {
    let mut store = TaskStore::new();
    store.add("old text".to_string());
    store.mark_in_progress(1).unwrap();
    let t = store.update(1, Some("new text".to_string()), None).unwrap();
    assert_eq!(t.id, 1);
    assert_eq!(t.description, "new text");
    assert_eq!(t.status, Status::InProgress);
}

#[test]
fn update_status_only_keeps_description_and_id() {
    let mut store = TaskStore::new();
    store.add("stays".to_string());
    let before = store.get(1).unwrap();
    let t = store.update(1, None, Some("done".to_string())).unwrap();
    assert_eq!(t.id, 1);
    assert_eq!(t.description, "stays");
    assert_eq!(t.status, Status::Done);
    assert_eq!(t.created_at, before.created_at);
}

#[test]
fn update_with_neither_field_changes_nothing_but_timestamp() {
    let mut store = TaskStore::new();
    store.add("unchanged".to_string());
    let before = store.get(1).unwrap();
    let t = store.update(1, None, None).unwrap();
    assert_eq!(t.id, before.id);
    assert_eq!(t.description, before.description);
    assert_eq!(t.status, before.status);
    assert_eq!(t.created_at, before.created_at);
}

#[test]
fn update_rejects_unknown_status_and_leaves_store_unchanged() {
    let mut store = TaskStore::new();
    store.add("keep me".to_string());
    let snapshot = store.to_json();
    let r = store.update(1, Some("clobbered?".to_string()), Some("bogus".to_string()));
    assert_eq!(r, Err(TaskError::InvalidStatus));
    assert_eq!(store.to_json(), snapshot);
    assert_eq!(store.get(1).unwrap().description, "keep me");
}

#[test]
fn update_status_is_case_sensitive() {
    let mut store = TaskStore::new();
    store.add("x".to_string());
    assert_eq!(
        store.update(1, None, Some("Done".to_string())),
        Err(TaskError::InvalidStatus)
    );
    assert_eq!(
        store.update(1, None, Some("TODO".to_string())),
        Err(TaskError::InvalidStatus)
    );
}

#[test]
fn invalid_status_reported_even_for_missing_id() {
    let mut store = TaskStore::new();
    assert_eq!(
        store.update(7, None, Some("nope".to_string())),
        Err(TaskError::InvalidStatus)
    );
}

#[test]
fn mark_shorthands_set_the_fixed_status() {
    let mut store = TaskStore::new();
    store.add("a".to_string());
    store.add("b".to_string());
    let t = store.mark_in_progress(1).unwrap();
    assert_eq!(t.status, Status::InProgress);
    let t = store.mark_done(2).unwrap();
    assert_eq!(t.status, Status::Done);
    assert_eq!(store.get(1).unwrap().status, Status::InProgress);
    assert_eq!(store.get(2).unwrap().status, Status::Done);
}

#[test]
fn list_without_filter_returns_all_in_order() {
    let mut store = TaskStore::new();
    store.add("a".to_string());
    store.add("b".to_string());
    store.add("c".to_string());
    let all = store.list(None);
    let descs: Vec<&str> = all.iter().map(|t| t.description.as_str()).collect();
    assert_eq!(descs, vec!["a", "b", "c"]);
}

#[test]
fn list_with_filter_returns_exactly_the_matching_subset_in_order() {
    let mut store = TaskStore::new();
    store.add("a".to_string());
    store.add("b".to_string());
    store.add("c".to_string());
    store.mark_done(1).unwrap();
    store.mark_done(3).unwrap();
    let done = store.list(Some(Status::Done));
    let ids: Vec<u32> = done.iter().map(|t| t.id).collect();
    assert_eq!(ids, vec![1, 3]);
    let todo = store.list(Some(Status::Todo));
    let ids: Vec<u32> = todo.iter().map(|t| t.id).collect();
    assert_eq!(ids, vec![2]);
    let in_progress = store.list(Some(Status::InProgress));
    assert!(in_progress.is_empty());
}

#[test]
fn scenario_full_cycle() {
    let mut store = TaskStore::new();
    let t = store.add("buy milk".to_string());
    assert_eq!(store.len(), 1);
    assert_eq!(t.id, 1);
    assert_eq!(t.status, Status::Todo);
    let t = store.add("walk dog".to_string());
    assert_eq!(t.id, 2);
    store.mark_done(1).unwrap();
    assert_eq!(store.get(1).unwrap().status, Status::Done);
    assert_eq!(store.get(2).unwrap().status, Status::Todo);
    let done = store.list(Some(Status::Done));
    assert_eq!(done.len(), 1);
    assert_eq!(done[0].id, 1);
    store.delete(2).unwrap();
    assert_eq!(store.len(), 1);
    assert_eq!(store.tasks[0].id, 1);
    let snapshot = store.to_json();
    assert_eq!(
        store.update(1, None, Some("bogus".to_string())),
        Err(TaskError::InvalidStatus)
    );
    assert_eq!(store.to_json(), snapshot);
    assert_eq!(descriptions(&store), vec!["buy milk".to_string()]);
}

#[test]
fn status_helpers() {
    assert_eq!(Status::Todo.get(), "todo");
    assert_eq!(Status::InProgress.get(), "in-progress");
    assert_eq!(Status::Done.get(), "done");
    assert!(Status::verify(&"todo".to_string()));
    assert!(Status::verify(&"in-progress".to_string()));
    assert!(Status::verify(&"done".to_string()));
    assert!(!Status::verify(&"Done".to_string()));
    assert!(!Status::verify(&"".to_string()));
    assert_eq!(Status::from_name("todo"), Some(Status::Todo));
    assert_eq!(Status::from_name("in-progress"), Some(Status::InProgress));
    assert_eq!(Status::from_name("done"), Some(Status::Done));
    assert_eq!(Status::from_name("finished"), None);
}

#[test]
fn task_update_helpers() {
    let t = Task::new(9, "hello".to_string());
    assert_eq!(t.id, 9);
    assert_eq!(t.status, Status::Todo);
    assert_eq!(t.created_at, t.updated_at);
    let u = t.update(Some(&"bye".to_string()), None);
    assert_eq!(u.id, 9);
    assert_eq!(u.description, "bye");
    assert_eq!(u.status, Status::Todo);
    assert_eq!(u.created_at, t.created_at);
    let v = t.update_status(Status::Done);
    assert_eq!(v.description, "hello");
    assert_eq!(v.status, Status::Done);
}

#[test]
fn error_messages() {
    assert_eq!(TaskError::NotFound.message(), "no task has the requested id");
    assert_eq!(
        TaskError::InvalidStatus.message(),
        "status must be todo, in-progress or done"
    );
}
