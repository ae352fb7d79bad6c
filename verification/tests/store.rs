use timely::{create_todo, delete_subtree, filter_todos_by_date, toggle_subtree, Error, TaskDate,
    Todo, TodoToSend};

fn row(id: i64, parent_id: Option<i64>, done: bool) -> Todo {
    Todo {
        id,
        name: format!("row {}", id),
        done,
        description: Some(format!("description {}", id)),
        parent_id,
        date: None,
    }
}

fn store_abc() -> Vec<Todo> {
    vec![row(1, None, false), row(2, Some(1), false), row(3, Some(2), false)]
}

fn ids(tasks: &[Todo]) -> Vec<i64> {
    tasks.iter().map(|t| t.id).collect()
}

#[test]
fn delete_root_removes_whole_subtree() {
    let remaining = delete_subtree(&store_abc(), 1).unwrap();
    assert!(remaining.is_empty());
}

#[test]
fn delete_middle_leaves_ancestors() {
    let remaining = delete_subtree(&store_abc(), 2).unwrap();
    assert_eq!(ids(&remaining), vec![1]);
}

#[test]
fn delete_leaf_removes_only_leaf() {
    let remaining = delete_subtree(&store_abc(), 3).unwrap();
    assert_eq!(ids(&remaining), vec![1, 2]);
}

#[test]
fn delete_handles_wide_trees_transitively() {
    let store = vec![
        row(1, None, false),
        row(2, Some(1), false),
        row(3, Some(1), false),
        row(4, Some(2), false),
        row(5, Some(4), false),
        row(6, None, false),
    ];
    let remaining = delete_subtree(&store, 2).unwrap();
    assert_eq!(ids(&remaining), vec![1, 3, 6]);
}

#[test]
fn delete_missing_id_is_not_found() {
    assert_eq!(delete_subtree(&store_abc(), 42).unwrap_err(), Error::NotFound);
}

#[test]
fn toggle_cascades_to_all_descendants() {
    let mut store = store_abc();
    let state = toggle_subtree(&mut store, 1).unwrap();
    assert!(state);
    assert!(store.iter().all(|t| t.done));
    let state = toggle_subtree(&mut store, 1).unwrap();
    assert!(!state);
    assert!(store.iter().all(|t| !t.done));
}

#[test]
fn toggle_forces_descendants_regardless_of_prior_state() {
    let mut store = vec![row(1, None, false), row(2, Some(1), true), row(3, Some(2), false)];
    let state = toggle_subtree(&mut store, 1).unwrap();
    assert!(state);
    assert!(store.iter().all(|t| t.done));
}

#[test]
fn toggle_leaf_is_single_row_update() {
    let mut store = store_abc();
    let state = toggle_subtree(&mut store, 3).unwrap();
    assert!(state);
    assert!(!store[0].done);
    assert!(!store[1].done);
    assert!(store[2].done);
}

#[test]
fn toggle_missing_id_is_not_found() {
    let mut store = store_abc();
    assert_eq!(toggle_subtree(&mut store, 42).unwrap_err(), Error::NotFound);
    assert_eq!(ids(&store), vec![1, 2, 3]);
}

#[test]
fn create_assigns_fresh_id_and_cleared_done() {
    let mut store = store_abc();
    let created = create_todo(
        &mut store,
        TodoToSend {
            name: "new".to_string(),
            description: "d".to_string(),
            parent_id: Some(2),
            date: Some(TaskDate { year: 2025, month: 1, day: 2 }),
        },
    );
    assert_eq!(created.id, 4);
    assert!(!created.done);
    assert_eq!(created.name, "new");
    assert_eq!(created.parent_id, Some(2));
    assert_eq!(store.len(), 4);
    assert_eq!(store[3].id, 4);
}

#[test]
fn filter_without_bounds_keeps_everything() {
    let store = store_abc();
    let out = filter_todos_by_date(&store, None, None);
    assert_eq!(ids(&out), vec![1, 2, 3]);
}

#[test]
fn filter_is_inclusive_and_drops_undated() {
    let mut store = store_abc();
    store[0].date = Some(TaskDate { year: 2024, month: 3, day: 5 });
    store[1].date = Some(TaskDate { year: 2024, month: 6, day: 1 });
    // store[2] stays undated.
    let lo = TaskDate { year: 2024, month: 3, day: 5 };
    let hi = TaskDate { year: 2024, month: 5, day: 31 };
    let out = filter_todos_by_date(&store, Some(hi), Some(lo));
    assert_eq!(ids(&out), vec![1]);
    let upper_only = filter_todos_by_date(&store, Some(hi), None);
    assert_eq!(ids(&upper_only), vec![1]);
    let lower_only = filter_todos_by_date(&store, None, Some(lo));
    assert_eq!(ids(&lower_only), vec![1, 2]);
}

#[test]
fn error_messages_describe_each_kind() {
    assert_eq!(Error::AuthenticationFailed.message(), "Failed authentication");
    assert_eq!(Error::NotFound.message(), "Not found");
    assert_eq!(Error::StorageInconsistency.message(), "Could not delete");
    assert_eq!(Error::TransportFailure.message(), "Transport failure");
}
