use timely::{add_to_hierarchy, build_hierarchy, create_todo, flatten_hierarchy, forest_has_id,
    toggle_in_hierarchy, toggle_subtree, TaskDate, Todo, TodoHierarchy, TodoToSend};

fn task(id: i64, parent_id: Option<i64>) -> Todo {
    Todo {
        id,
        name: format!("task {}", id),
        done: false,
        description: None,
        parent_id,
        date: None,
    }
}

fn abc() -> Vec<Todo> {
    vec![task(1, None), task(2, Some(1)), task(3, Some(2))]
}

#[test]
fn build_reconstructs_tree_shape() {
    let forest = build_hierarchy(abc());
    assert_eq!(forest.len(), 1);
    let a = &forest[0];
    assert_eq!(a.todo.id, 1);
    assert_eq!(a.children.len(), 1);
    let b = &a.children[0];
    assert_eq!(b.todo.id, 2);
    assert_eq!(b.children.len(), 1);
    let c = &b.children[0];
    assert_eq!(c.todo.id, 3);
    assert!(c.children.is_empty());
}

#[test]
fn build_child_before_parent_still_attaches() {
    let tasks = vec![task(3, Some(2)), task(2, Some(1)), task(1, None)];
    let forest = build_hierarchy(tasks);
    assert_eq!(forest.len(), 1);
    assert_eq!(forest[0].todo.id, 1);
    assert_eq!(forest[0].children.len(), 1);
    assert_eq!(forest[0].children[0].todo.id, 2);
    assert_eq!(forest[0].children[0].children[0].todo.id, 3);
}

#[test]
fn orphan_becomes_root() {
    let tasks = vec![task(1, None), task(2, Some(99))];
    let forest = build_hierarchy(tasks);
    assert_eq!(forest.len(), 2);
    assert_eq!(forest[0].todo.id, 1);
    assert_eq!(forest[1].todo.id, 2);
    assert!(forest[1].children.is_empty());
}

#[test]
fn children_preserve_input_order() {
    let tasks = vec![task(1, None), task(5, Some(1)), task(3, Some(1)), task(4, Some(1))];
    let forest = build_hierarchy(tasks);
    assert_eq!(forest.len(), 1);
    let kids: Vec<i64> = forest[0].children.iter().map(|h| h.todo.id).collect();
    assert_eq!(kids, vec![5, 3, 4]);
}

#[test]
fn roots_preserve_input_order() {
    let tasks = vec![task(7, None), task(2, None), task(5, None)];
    let forest = build_hierarchy(tasks);
    let roots: Vec<i64> = forest.iter().map(|h| h.todo.id).collect();
    assert_eq!(roots, vec![7, 2, 5]);
}

fn same_forest(a: &[TodoHierarchy], b: &[TodoHierarchy]) -> bool {
    if a.len() != b.len() {
        return false;
    }
    for i in 0..a.len() {
        if a[i].todo.id != b[i].todo.id || a[i].todo.name != b[i].todo.name
            || a[i].todo.done != b[i].todo.done || a[i].todo_date != b[i].todo_date
            || !same_forest(&a[i].children, &b[i].children)
        {
            return false;
        }
    }
    true
}

#[test]
fn build_is_deterministic() {
    let f1 = build_hierarchy(abc());
    let f2 = build_hierarchy(abc());
    assert!(same_forest(&f1, &f2));
}

#[test]
fn build_renders_date_tag() {
    let mut t = task(1, None);
    t.date = Some(TaskDate { year: 2024, month: 3, day: 5 });
    let forest = build_hierarchy(vec![t]);
    assert_eq!(forest[0].todo_date.as_deref(), Some("2024-03-05"));
    let undated = build_hierarchy(vec![task(2, None)]);
    assert_eq!(undated[0].todo_date, None);
}

#[test]
fn round_trip_flatten_keeps_tasks() {
    let tasks = vec![task(4, Some(2)), task(1, None), task(2, Some(1)), task(3, Some(2))];
    let forest = build_hierarchy(tasks);
    let back = flatten_hierarchy(&forest);
    let mut ids: Vec<i64> = back.iter().map(|t| t.id).collect();
    ids.sort();
    assert_eq!(ids, vec![1, 2, 3, 4]);
}

#[test]
fn get_hierarchy_by_id_finds_nested_node() {
    let forest = build_hierarchy(abc());
    let found = TodoHierarchy::get_hierarchy_by_id(&forest, 3);
    assert_eq!(found.unwrap().todo.id, 3);
    assert!(TodoHierarchy::get_hierarchy_by_id(&forest, 42).is_none());
}

#[test]
fn forest_has_id_searches_all_levels() {
    let forest = build_hierarchy(abc());
    assert!(forest_has_id(&forest, 1));
    assert!(forest_has_id(&forest, 3));
    assert!(!forest_has_id(&forest, 99));
}

#[test]
fn toggle_with_children_forces_state() {
    let mut forest = build_hierarchy(abc());
    forest[0].toggle_with_children(true);
    assert!(forest[0].todo.done);
    assert!(forest[0].children[0].todo.done);
    assert!(forest[0].children[0].children[0].todo.done);
}

#[test]
fn toggle_in_hierarchy_matches_server_cascade() {
    let mut forest = build_hierarchy(abc());
    // B starts in a differing state; the cascade forces it anyway.
    forest[0].children[0].todo.done = true;
    let found = toggle_in_hierarchy(&mut forest, 1, true);
    assert!(found);
    assert!(forest[0].todo.done);
    assert!(forest[0].children[0].todo.done);
    assert!(forest[0].children[0].children[0].todo.done);
    let found_again = toggle_in_hierarchy(&mut forest, 1, false);
    assert!(found_again);
    assert!(!forest[0].todo.done);
    assert!(!forest[0].children[0].todo.done);
    assert!(!forest[0].children[0].children[0].todo.done);
    assert!(!toggle_in_hierarchy(&mut forest, 42, true));
}

#[test]
fn incremental_insert_as_last_child() {
    let mut forest = build_hierarchy(abc());
    add_to_hierarchy(&mut forest, task(4, Some(2)));
    let b = &forest[0].children[0];
    assert_eq!(b.todo.id, 2);
    let kids: Vec<i64> = b.children.iter().map(|h| h.todo.id).collect();
    assert_eq!(kids, vec![3, 4]);
}

#[test]
fn incremental_insert_without_parent_appends_root() {
    let mut forest = build_hierarchy(abc());
    add_to_hierarchy(&mut forest, task(4, None));
    assert_eq!(forest.len(), 2);
    assert_eq!(forest[1].todo.id, 4);
    assert!(forest[1].children.is_empty());
}

#[test]
fn incremental_insert_unknown_parent_appends_root() {
    let mut forest = build_hierarchy(abc());
    add_to_hierarchy(&mut forest, task(4, Some(77)));
    assert_eq!(forest.len(), 2);
    assert_eq!(forest[1].todo.id, 4);
}

#[test]
fn client_toggle_agrees_with_rebuild() {
    let mut store = abc();
    let mut forest = build_hierarchy(store.clone());
    let new_state = toggle_subtree(&mut store, 2).unwrap();
    assert!(toggle_in_hierarchy(&mut forest, 2, new_state));
    let rebuilt = build_hierarchy(store);
    assert!(same_forest(&forest, &rebuilt));
}

#[test]
fn client_insert_agrees_with_rebuild() {
    let mut store = abc();
    let mut forest = build_hierarchy(store.clone());
    let created = create_todo(
        &mut store,
        TodoToSend {
            name: "new".to_string(),
            description: "d".to_string(),
            parent_id: Some(2),
            date: None,
        },
    );
    add_to_hierarchy(&mut forest, created);
    let rebuilt = build_hierarchy(store);
    assert!(same_forest(&forest, &rebuilt));
}

#[test]
fn hierarchy_new_wraps_task() {
    let mut t = task(9, None);
    t.date = Some(TaskDate { year: 987, month: 12, day: 31 });
    let h = TodoHierarchy::new(t);
    assert_eq!(h.todo.id, 9);
    assert!(h.children.is_empty());
    assert_eq!(h.todo_date.as_deref(), Some("0987-12-31"));
}
