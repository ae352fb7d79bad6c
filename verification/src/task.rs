//! The task data model: a to-do item, the wire shapes callers exchange, and
//! the error kinds the operations report.

use vstd::prelude::*;
use crate::date::TaskDate;

verus! {

/// One to-do item, the store's unit of persistence.
///
/// `parent_id`, when present, names the id of another task; the flat set of
/// tasks with this reference is the source of truth from which the nested
/// hierarchy view is derived.
#[derive(Debug)]
pub struct Todo {
    pub id: i64,
    pub name: String,
    pub done: bool,
    pub description: Option<String>,
    pub parent_id: Option<i64>,
    pub date: Option<TaskDate>,
}

impl Clone for Todo {
    fn clone(&self) -> (r: Self)
        ensures
            r == *self,
    {
        Todo {
            id: self.id,
            name: self.name.clone(),
            done: self.done,
            description: match &self.description {
                Some(d) => Some(d.clone()),
                None => None,
            },
            parent_id: self.parent_id,
            date: self.date,
        }
    }
}

/// The same task with its done flag forced to `done`.
pub open spec fn with_done(t: Todo, done: bool) -> Todo {
    Todo { done, ..t }
}

/// The answer to a toggle request: the target's new done state.
#[derive(Clone, Copy, Debug, PartialEq, Eq, Structural)]
pub struct Done {
    pub done: bool,
}

/// The shape of a task creation request: everything but the id and the done
/// flag, which the store assigns.
#[derive(Debug)]
pub struct TodoToSend {
    pub name: String,
    pub description: String,
    pub parent_id: Option<i64>,
    pub date: Option<TaskDate>,
}

impl Clone for TodoToSend {
    fn clone(&self) -> (r: Self)
        ensures
            r == *self,
    {
        TodoToSend {
            name: self.name.clone(),
            description: self.description.clone(),
            parent_id: self.parent_id,
            date: self.date,
        }
    }
}

/// The error kinds of the library's operations. Each is terminal for the
/// request in which it occurs; none is retried.
#[derive(Clone, Copy, Debug, PartialEq, Eq, Structural)]
pub enum Error {
    /// A wrong or missing credential.
    AuthenticationFailed,
    /// An operation named a task id that no task has.
    NotFound,
    /// A cascade affected fewer rows than its precondition implied.
    StorageInconsistency,
    /// A call to the server failed or returned an unexpected body.
    TransportFailure,
}

impl Error {
    /// A short description of the error, for display by callers.
    pub fn message(&self) -> (r: &'static str)
        ensures
            *self is AuthenticationFailed ==> r@ == "Failed authentication"@,
    {
        match self {
            Error::AuthenticationFailed => "Failed authentication",
            Error::NotFound => "Not found",
            Error::StorageInconsistency => "Could not delete",
            Error::TransportFailure => "Transport failure",
        }
    }
}

} // verus!
