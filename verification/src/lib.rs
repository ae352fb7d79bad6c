//! Verified core of a hierarchical to-do list: calendar dates attached to
//! tasks, the parent/child hierarchy built from a flat task list, cascading
//! delete and toggle over a task store, incremental client-side updates of an
//! already-built hierarchy, and shared-password authentication.

pub mod auth;
pub mod date;
pub mod hierarchy;
pub mod parse;
pub mod relation;
pub mod store;
pub mod task;

pub use auth::{authenticate, check_credential, extract_provided, hash_password};
pub use date::{convert_date_to_string, days_in_month, is_leap_year, month_num_to_month, Month,
    TaskDate};
pub use hierarchy::{add_to_hierarchy, build_hierarchy, flatten_hierarchy, forest_has_id,
    toggle_in_hierarchy, TodoHierarchy};
pub use parse::parse_date;
pub use store::{create_todo, delete_subtree, filter_todos_by_date, toggle_subtree};
pub use task::{Done, Error, Todo, TodoToSend};
