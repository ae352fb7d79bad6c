//! The derived hierarchy view: building a forest of nested nodes from the
//! flat task list, and the incremental client-side updates of a built
//! forest.
//!
//! The forest is a disposable view, rebuilt wholesale from the store; it
//! carries no identity of its own. A node's children are exactly the tasks
//! whose parent reference names the node's id, kept in input order; roots
//! are the tasks without a resolvable parent, kept in input order, with a
//! task naming an absent parent id tolerated as a root.

use vstd::prelude::*;
use crate::date::{convert_date_to_string, date_str};
use crate::relation::{
    children_of, depth_at, has_id, idx_of_id, is_root_todo, lemma_children_of_empty,
    lemma_children_of_in_tasks, lemma_children_of_members, lemma_children_of_push,
    lemma_children_of_snoc, lemma_depth_child, lemma_depth_le_fuel, lemma_idx_of_id,
    lemma_occ_concat, lemma_occ_contains, lemma_occ_dup, lemma_occ_roots_of_le, lemma_occ_unique,
    lemma_pushed_tasks_shape, lemma_roots_of_all_congruent, lemma_roots_of_in_tasks,
    lemma_roots_of_members, lemma_roots_of_snoc, occ, roots_of, tree_input,
};
use crate::store::{
    closure_ind, in_closure, in_subtree, lemma_children_of_mapped, lemma_closure_partition,
    lemma_in_subtree_depth, lemma_in_subtree_mono, lemma_in_subtree_step, lemma_root_above,
    lemma_roots_of_mapped, lemma_same_depth_disjoint, lemma_sum_single,
    lemma_toggled_tasks_pointwise, lemma_toggled_tasks_shape, sum_closures, toggle_elem,
    toggled_tasks,
};
use crate::task::{with_done, Todo};

verus! {

/// One node of the derived view: a task, its rendered date, and its
/// children in input order.
#[derive(Debug)]
pub struct TodoHierarchy {
    pub todo: Todo,
    pub todo_date: Option<String>,
    pub children: Vec<TodoHierarchy>,
}

/// The rendered date tag agrees with the task's date.
pub open spec fn date_tag_ok(h: TodoHierarchy) -> bool {
    match h.todo_date {
        Some(s) => {
            &&& h.todo.date is Some
            &&& s@ == date_str(h.todo.date->0)
        },
        None => h.todo.date is None,
    }
}

/// The tasks a forest displays, in display order.
pub open spec fn todos_of(forest: Seq<TodoHierarchy>) -> Seq<Todo> {
    forest.map_values(|c: TodoHierarchy| c.todo)
}

proof fn lemma_todos_of_push(forest: Seq<TodoHierarchy>, h: TodoHierarchy)
    ensures
        todos_of(forest.push(h)) == todos_of(forest).push(h.todo),
{
    assert(todos_of(forest.push(h)) =~= todos_of(forest).push(h.todo));
}

/// Every node of the forest displays its task faithfully; see
/// [`node_matches`].
pub open spec fn forest_matches(forest: Seq<TodoHierarchy>, tasks: Seq<Todo>) -> bool
    decreases forest,
{
    if forest.len() == 0 {
        true
    } else {
        node_matches(forest[0], tasks) && forest_matches(forest.drop_first(), tasks)
    }
}

/// A node displays its task faithfully: its date tag agrees, its children
/// are exactly the tasks whose parent reference names its id, in input
/// order, and each child node does the same in turn.
pub open spec fn node_matches(h: TodoHierarchy, tasks: Seq<Todo>) -> bool
    decreases h,
{
    &&& date_tag_ok(h)
    &&& todos_of(h.children@) == children_of(tasks, h.todo.id)
    &&& forest_matches(h.children@, tasks)
}

/// A forest matches exactly when each of its nodes does.
pub proof fn lemma_forest_matches_iff(forest: Seq<TodoHierarchy>, tasks: Seq<Todo>)
    ensures
        forest_matches(forest, tasks) <==> (forall|i: int|
            0 <= i < forest.len() ==> #[trigger] node_matches(forest[i], tasks)),
    decreases forest.len(),
{
    if forest.len() > 0 {
        lemma_forest_matches_iff(forest.drop_first(), tasks);
        if forall|i: int| 0 <= i < forest.len() ==> #[trigger] node_matches(forest[i], tasks) {
            assert forall|i: int|
                0 <= i < forest.drop_first().len() implies #[trigger] node_matches(
                forest.drop_first()[i],
                tasks,
            ) by {
                assert(forest.drop_first()[i] == forest[i + 1]);
            }
            assert(node_matches(forest[0], tasks));
            assert(forest_matches(forest, tasks));
        }
        if forest_matches(forest, tasks) {
            assert forall|i: int| 0 <= i < forest.len() implies #[trigger] node_matches(
                forest[i],
                tasks,
            ) by {
                if i > 0 {
                    assert(forest.drop_first()[i - 1] == forest[i]);
                }
            }
        }
    }
}

impl TodoHierarchy {
    /// Wraps a task as a childless node, rendering its date.
    pub fn new(todo: Todo) -> (h: TodoHierarchy)
        ensures
            h.todo == todo,
            h.children@ == Seq::<TodoHierarchy>::empty(),
            date_tag_ok(h),
    {
        TodoHierarchy {
            todo_date: match todo.date {
                Some(date) => Some(convert_date_to_string(date)),
                None => None,
            },
            todo,
            children: Vec::new(),
        }
    }
}

/// Whether any task in the list carries the given id.
pub fn id_present(tasks: &Vec<Todo>, id: i64) -> (r: bool)
    ensures
        r == has_id(tasks@, id),
{
    let mut j: usize = 0;
    while j < tasks.len()
        invariant
            0 <= j <= tasks@.len(),
            forall|i: int| 0 <= i < j ==> (#[trigger] tasks@[i]).id != id,
        decreases tasks@.len() - j,
    {
        if tasks[j].id == id {
            return true;
        }
        j += 1;
    }
    false
}

/// Enough fuel to build the node of a task: the task is in the list, and
/// the fuel covers the levels below it in a well-shaped input.
pub open spec fn build_pre(tasks: Seq<Todo>, t: Todo, fuel: nat) -> bool {
    &&& tree_input(tasks)
    &&& exists|k: int|
        0 <= k < tasks.len() && tasks[k] == t && fuel + #[trigger] depth_at(tasks, k)
            >= tasks.len()
}

fn build_node(tasks: &Vec<Todo>, t: &Todo, fuel: usize) -> (h: TodoHierarchy)
    ensures
        h.todo == *t,
        date_tag_ok(h),
        build_pre(tasks@, *t, fuel as nat) ==> node_matches(h, tasks@),
    decreases fuel,
{
    let ghost n = tasks@.len() as int;
    let mut children: Vec<TodoHierarchy> = Vec::new();
    if fuel > 0 {
        let mut j: usize = 0;
        while j < tasks.len()
            invariant
                0 <= j <= n,
                n == tasks@.len(),
                fuel >= 1,
                todos_of(children@) == children_of(tasks@.take(j as int), t.id),
                build_pre(tasks@, *t, fuel as nat) ==> forall|i: int|
                    0 <= i < children@.len() ==> #[trigger] node_matches(children@[i], tasks@),
            decreases n - j,
        {
            let is_child = match tasks[j].parent_id {
                Some(p) => p == t.id,
                None => false,
            };
            if is_child {
                let c = build_node(tasks, &tasks[j], fuel - 1);
                proof {
                    if build_pre(tasks@, *t, fuel as nat) {
                        let k = choose|k: int|
                            0 <= k < tasks@.len() && tasks@[k] == *t && fuel as nat
                                + #[trigger] depth_at(tasks@, k) >= tasks@.len();
                        lemma_depth_child(tasks@, k, j as int);
                        assert(0 <= j < tasks@.len() && tasks@[j as int] == tasks@[j as int]
                            && (fuel - 1) as nat + depth_at(tasks@, j as int) >= tasks@.len());
                        assert(build_pre(tasks@, tasks@[j as int], (fuel - 1) as nat));
                    }
                }
                children.push(c);
                proof {
                    lemma_children_of_snoc(tasks@, j as int, t.id);
                    lemma_todos_of_push(children@.drop_last(), c);
                    assert(children@.drop_last() =~= children@.subrange(
                        0,
                        children@.len() - 1,
                    ));
                    assert(todos_of(children@) =~= children_of(
                        tasks@.take(j as int + 1),
                        t.id,
                    ));
                }
            } else {
                proof {
                    lemma_children_of_snoc(tasks@, j as int, t.id);
                    assert(todos_of(children@) == children_of(tasks@.take(j as int + 1), t.id));
                }
            }
            j += 1;
        }
        proof {
            assert(tasks@.take(n) =~= tasks@);
        }
    } else {
        proof {
            if build_pre(tasks@, *t, fuel as nat) {
                let k = choose|k: int|
                    0 <= k < tasks@.len() && tasks@[k] == *t && fuel as nat + #[trigger] depth_at(
                        tasks@,
                        k,
                    ) >= tasks@.len();
                lemma_depth_le_fuel(tasks@, k, tasks@.len() as nat);
                assert forall|j: int|
                    0 <= j < tasks@.len() implies (#[trigger] tasks@[j]).parent_id != Some(
                    t.id,
                ) by {
                    if tasks@[j].parent_id == Some(t.id) {
                        lemma_depth_child(tasks@, k, j);
                        lemma_depth_le_fuel(tasks@, j, tasks@.len() as nat);
                    }
                }
                lemma_children_of_empty(tasks@, t.id);
                assert(todos_of(children@) =~= children_of(tasks@, t.id));
            }
        }
    }
    let todo_date = match t.date {
        Some(date) => Some(convert_date_to_string(date)),
        None => None,
    };
    let ghost cs = children@;
    let h = TodoHierarchy { todo: t.clone(), todo_date, children };
    proof {
        if build_pre(tasks@, *t, fuel as nat) {
            assert(h.children@ == cs);
            lemma_forest_matches_iff(cs, tasks@);
            assert(forest_matches(cs, tasks@));
            assert(node_matches(h, tasks@));
        }
    }
    h
}

/// Builds the forest view of a flat task list.
///
/// Unconditionally, the roots are exactly the input's root tasks — those
/// with no parent reference or a parent reference naming an absent id — in
/// input order. When the input is well shaped (unique ids, acyclic parent
/// chains), every node of the forest displays as children exactly the tasks
/// whose parent reference names its id, in input order, recursively.
pub fn build_hierarchy(todos: Vec<Todo>) -> (forest: Vec<TodoHierarchy>)
    ensures
        todos_of(forest@) == roots_of(todos@, todos@),
        forall|i: int| 0 <= i < forest@.len() ==> date_tag_ok(#[trigger] forest@[i]),
        tree_input(todos@) ==> forall|i: int|
            0 <= i < forest@.len() ==> #[trigger] node_matches(forest@[i], todos@),
{
    let ghost n = todos@.len() as int;
    let mut forest: Vec<TodoHierarchy> = Vec::new();
    let mut j: usize = 0;
    while j < todos.len()
        invariant
            0 <= j <= n,
            n == todos@.len(),
            todos_of(forest@) == roots_of(todos@.take(j as int), todos@),
            forall|i: int| 0 <= i < forest@.len() ==> date_tag_ok(#[trigger] forest@[i]),
            tree_input(todos@) ==> forall|i: int|
                0 <= i < forest@.len() ==> #[trigger] node_matches(forest@[i], todos@),
        decreases n - j,
    {
        let is_root = match todos[j].parent_id {
            Some(p) => !id_present(&todos, p),
            None => true,
        };
        if is_root {
            let node = build_node(&todos, &todos[j], todos.len());
            proof {
                if tree_input(todos@) {
                    assert(0 <= j < todos@.len() && todos@[j as int] == todos@[j as int]
                        && todos@.len() as nat + depth_at(todos@, j as int) >= todos@.len());
                    assert(build_pre(todos@, todos@[j as int], todos@.len() as nat));
                }
            }
            forest.push(node);
            proof {
                lemma_roots_of_snoc(todos@, j as int, todos@);
                lemma_todos_of_push(forest@.drop_last(), node);
                assert(forest@.drop_last() =~= forest@.subrange(0, forest@.len() - 1));
                assert(todos_of(forest@) =~= roots_of(todos@.take(j as int + 1), todos@));
            }
        } else {
            proof {
                lemma_roots_of_snoc(todos@, j as int, todos@);
                assert(todos_of(forest@) == roots_of(todos@.take(j as int + 1), todos@));
            }
        }
        j += 1;
    }
    proof {
        assert(todos@.take(n) =~= todos@);
    }
    forest
}

/// Whether any node of the forest displays a task with the given id.
pub open spec fn forest_has_task_id(forest: Seq<TodoHierarchy>, id: i64) -> bool
    decreases forest,
{
    if forest.len() == 0 {
        false
    } else {
        node_has_task_id(forest[0], id) || forest_has_task_id(forest.drop_first(), id)
    }
}

/// Whether the node or any of its descendants displays a task with the id.
pub open spec fn node_has_task_id(h: TodoHierarchy, id: i64) -> bool
    decreases h,
{
    h.todo.id == id || forest_has_task_id(h.children@, id)
}

/// A forest has an id exactly when one of its nodes has it.
pub proof fn lemma_forest_has_iff(forest: Seq<TodoHierarchy>, id: i64)
    ensures
        forest_has_task_id(forest, id) <==> (exists|i: int|
            0 <= i < forest.len() && #[trigger] node_has_task_id(forest[i], id)),
    decreases forest.len(),
{
    if forest.len() > 0 {
        lemma_forest_has_iff(forest.drop_first(), id);
        if forest_has_task_id(forest, id) {
            if node_has_task_id(forest[0], id) {
            } else {
                let i = choose|i: int|
                    0 <= i < forest.drop_first().len() && #[trigger] node_has_task_id(
                        forest.drop_first()[i],
                        id,
                    );
                assert(node_has_task_id(forest[i + 1], id));
            }
        }
        if exists|i: int| 0 <= i < forest.len() && #[trigger] node_has_task_id(forest[i], id) {
            let i = choose|i: int|
                0 <= i < forest.len() && #[trigger] node_has_task_id(forest[i], id);
            if i > 0 {
                assert(node_has_task_id(forest.drop_first()[i - 1], id));
            }
        }
    }
}

/// Whether `n` is one of the forest's nodes, at any depth.
pub open spec fn forest_contains_node(forest: Seq<TodoHierarchy>, n: TodoHierarchy) -> bool
    decreases forest,
{
    if forest.len() == 0 {
        false
    } else {
        node_contains_node(forest[0], n) || forest_contains_node(forest.drop_first(), n)
    }
}

/// Whether `n` is `h` itself or a node below it.
pub open spec fn node_contains_node(h: TodoHierarchy, n: TodoHierarchy) -> bool
    decreases h,
{
    h == n || forest_contains_node(h.children@, n)
}

proof fn lemma_forest_contains_at(forest: Seq<TodoHierarchy>, i: int, n: TodoHierarchy)
    requires
        0 <= i < forest.len(),
        node_contains_node(forest[i], n),
    ensures
        forest_contains_node(forest, n),
    decreases i,
{
    if i > 0 {
        assert(forest.drop_first()[i - 1] == forest[i]);
        lemma_forest_contains_at(forest.drop_first(), i - 1, n);
    }
}

impl TodoHierarchy {
    /// Finds a node displaying the task with the given id, searching the
    /// forest depth first; `None` exactly when no node has the id.
    pub fn get_hierarchy_by_id<'a>(hierarchies: &'a Vec<TodoHierarchy>, id: i64) -> (r: Option<
        &'a TodoHierarchy,
    >)
        ensures
            match r {
                Some(h) => h.todo.id == id && forest_contains_node(hierarchies@, *h),
                None => !forest_has_task_id(hierarchies@, id),
            },
        decreases hierarchies@,
    {
        let mut i: usize = 0;
        while i < hierarchies.len()
            invariant
                0 <= i <= hierarchies@.len(),
                forall|k: int| 0 <= k < i ==> !node_has_task_id(#[trigger] hierarchies@[k], id),
            decreases hierarchies@.len() - i,
        {
            let node = &hierarchies[i];
            if node.todo.id == id {
                proof {
                    lemma_forest_contains_at(hierarchies@, i as int, *node);
                }
                return Some(node);
            }
            let sub = Self::get_hierarchy_by_id(&node.children, id);
            match sub {
                Some(found) => {
                    proof {
                        lemma_forest_contains_at(hierarchies@, i as int, *found);
                    }
                    return Some(found);
                },
                None => {
                    assert(!node_has_task_id(hierarchies@[i as int], id));
                },
            }
            i += 1;
        }
        proof {
            lemma_forest_has_iff(hierarchies@, id);
        }
        None
    }
}

/// `b` is `a` with every node's done flag forced to `state`, and nothing
/// else changed.
pub open spec fn toggled_forest(a: Seq<TodoHierarchy>, b: Seq<TodoHierarchy>, state: bool) -> bool
    decreases a,
{
    if a.len() == 0 {
        b.len() == 0
    } else {
        &&& b.len() == a.len()
        &&& toggled_node(a[0], b[0], state)
        &&& toggled_forest(a.drop_first(), b.drop_first(), state)
    }
}

/// `b` is `a` with its own and every descendant's done flag forced to
/// `state`: descendants inherit the value, they do not flip their own.
pub open spec fn toggled_node(a: TodoHierarchy, b: TodoHierarchy, state: bool) -> bool
    decreases a,
{
    &&& b.todo == with_done(a.todo, state)
    &&& b.todo_date == a.todo_date
    &&& toggled_forest(a.children@, b.children@, state)
}

/// Two forests are toggle-related exactly when they are so pairwise.
pub proof fn lemma_toggled_forest_iff(a: Seq<TodoHierarchy>, b: Seq<TodoHierarchy>, state: bool)
    ensures
        toggled_forest(a, b, state) <==> (b.len() == a.len() && forall|k: int|
            0 <= k < a.len() ==> #[trigger] toggled_node(a[k], b[k], state)),
    decreases a.len(),
{
    if a.len() > 0 && b.len() == a.len() {
        lemma_toggled_forest_iff(a.drop_first(), b.drop_first(), state);
        if b.len() == a.len() && forall|k: int|
            0 <= k < a.len() ==> #[trigger] toggled_node(a[k], b[k], state) {
            assert forall|k: int|
                0 <= k < a.drop_first().len() implies #[trigger] toggled_node(
                a.drop_first()[k],
                b.drop_first()[k],
                state,
            ) by {
                assert(a.drop_first()[k] == a[k + 1]);
                assert(b.drop_first()[k] == b[k + 1]);
            }
            assert(toggled_node(a[0], b[0], state));
        }
        if toggled_forest(a, b, state) {
            assert forall|k: int| 0 <= k < a.len() implies #[trigger] toggled_node(
                a[k],
                b[k],
                state,
            ) by {
                if k > 0 {
                    assert(a.drop_first()[k - 1] == a[k]);
                    assert(b.drop_first()[k - 1] == b[k]);
                }
            }
        }
    }
}

/// Forces the node's and all its descendants' done flags to `state`.
fn toggle_node(node: TodoHierarchy, state: bool) -> (r: TodoHierarchy)
    ensures
        toggled_node(node, r, state),
    decreases node,
{
    let ghost orig = node;
    let TodoHierarchy { mut todo, todo_date, children } = node;
    todo.done = state;
    let mut new_children: Vec<TodoHierarchy> = Vec::new();
    let mut rest = children;
    while rest.len() > 0
        invariant
            orig == node,
            new_children@.len() + rest@.len() == orig.children@.len(),
            rest@ == orig.children@.subrange(new_children@.len() as int, orig.children@.len() as int),
            forall|k: int|
                0 <= k < new_children@.len() ==> #[trigger] toggled_node(
                    orig.children@[k],
                    new_children@[k],
                    state,
                ),
        decreases rest@.len(),
    {
        let ghost m = new_children@.len() as int;
        let c = rest.remove(0);
        proof {
            assert(c == orig.children@[m]);
            assert(decreases_to!(orig => orig.children));
            assert(decreases_to!(orig.children => orig.children@));
            assert(decreases_to!(orig.children@ => orig.children@[m]));
            assert(decreases_to!(node => c));
        }
        let nc = toggle_node(c, state);
        new_children.push(nc);
        proof {
            assert(rest@ =~= orig.children@.subrange(m + 1, orig.children@.len() as int));
        }
    }
    proof {
        lemma_toggled_forest_iff(orig.children@, new_children@, state);
    }
    TodoHierarchy { todo, todo_date, children: new_children }
}

impl TodoHierarchy {
    /// Forces this node's and every descendant's done flag to `state`,
    /// mirroring the store's cascade-toggle semantics.
    pub fn toggle_with_children(&mut self, state: bool)
        ensures
            toggled_node(*old(self), *final(self), state),
    {
        let mut tmp = TodoHierarchy {
            todo: Todo {
                id: 0,
                name: String::new(),
                done: false,
                description: None,
                parent_id: None,
                date: None,
            },
            todo_date: None,
            children: Vec::new(),
        };
        core::mem::swap(self, &mut tmp);
        let r = toggle_node(tmp, state);
        *self = r;
    }
}

/// `b` is `a` with every node displaying task id `id` — and each of its
/// descendants — forced to `state`; every other node is untouched.
pub open spec fn forest_toggle_at(
    a: Seq<TodoHierarchy>,
    b: Seq<TodoHierarchy>,
    id: i64,
    state: bool,
) -> bool
    decreases a,
{
    if a.len() == 0 {
        b.len() == 0
    } else {
        &&& b.len() == a.len()
        &&& node_toggle_at(a[0], b[0], id, state)
        &&& forest_toggle_at(a.drop_first(), b.drop_first(), id, state)
    }
}

/// See [`forest_toggle_at`].
pub open spec fn node_toggle_at(a: TodoHierarchy, b: TodoHierarchy, id: i64, state: bool) -> bool
    decreases a,
{
    if a.todo.id == id {
        toggled_node(a, b, state)
    } else {
        &&& b.todo == a.todo
        &&& b.todo_date == a.todo_date
        &&& forest_toggle_at(a.children@, b.children@, id, state)
    }
}

/// Two forests are toggle-at-related exactly when they are so pairwise.
pub proof fn lemma_forest_toggle_at_iff(
    a: Seq<TodoHierarchy>,
    b: Seq<TodoHierarchy>,
    id: i64,
    state: bool,
)
    ensures
        forest_toggle_at(a, b, id, state) <==> (b.len() == a.len() && forall|k: int|
            0 <= k < a.len() ==> #[trigger] node_toggle_at(a[k], b[k], id, state)),
    decreases a.len(),
{
    if a.len() > 0 && b.len() == a.len() {
        lemma_forest_toggle_at_iff(a.drop_first(), b.drop_first(), id, state);
        if b.len() == a.len() && forall|k: int|
            0 <= k < a.len() ==> #[trigger] node_toggle_at(a[k], b[k], id, state) {
            assert forall|k: int|
                0 <= k < a.drop_first().len() implies #[trigger] node_toggle_at(
                a.drop_first()[k],
                b.drop_first()[k],
                id,
                state,
            ) by {
                assert(a.drop_first()[k] == a[k + 1]);
                assert(b.drop_first()[k] == b[k + 1]);
            }
            assert(node_toggle_at(a[0], b[0], id, state));
        }
        if forest_toggle_at(a, b, id, state) {
            assert forall|k: int| 0 <= k < a.len() implies #[trigger] node_toggle_at(
                a[k],
                b[k],
                id,
                state,
            ) by {
                if k > 0 {
                    assert(a.drop_first()[k - 1] == a[k]);
                    assert(b.drop_first()[k - 1] == b[k]);
                }
            }
        }
    }
}

fn toggle_forest_at(forest: Vec<TodoHierarchy>, id: i64, state: bool) -> (res: (
    Vec<TodoHierarchy>,
    bool,
))
    ensures
        forest_toggle_at(forest@, res.0@, id, state),
        res.1 == forest_has_task_id(forest@, id),
    decreases forest,
{
    let ghost orig = forest@;
    let mut out: Vec<TodoHierarchy> = Vec::new();
    let mut rest = forest;
    let mut found = false;
    while rest.len() > 0
        invariant
            orig == forest@,
            out@.len() + rest@.len() == orig.len(),
            rest@ == orig.subrange(out@.len() as int, orig.len() as int),
            forall|k: int|
                0 <= k < out@.len() ==> #[trigger] node_toggle_at(orig[k], out@[k], id, state),
            found <==> (exists|k: int|
                0 <= k < out@.len() && #[trigger] node_has_task_id(orig[k], id)),
        decreases rest@.len(),
    {
        let ghost m = out@.len() as int;
        let c = rest.remove(0);
        proof {
            assert(c == orig[m]);
        }
        if c.todo.id == id {
            let nc = toggle_node(c, state);
            found = true;
            out.push(nc);
            proof {
                assert(node_has_task_id(orig[m], id));
            }
        } else {
            let ghost corig = c;
            let TodoHierarchy { todo, todo_date, children } = c;
            proof {
                assert(corig == forest@[m]);
                assert(decreases_to!(forest => forest@));
                assert(decreases_to!(forest@ => forest@[m]));
                assert(decreases_to!(corig => corig.children));
                assert(children == corig.children);
                assert(decreases_to!(forest => children));
            }
            let (nch, f) = toggle_forest_at(children, id, state);
            let nc = TodoHierarchy { todo, todo_date, children: nch };
            if f {
                found = true;
            }
            out.push(nc);
            proof {
                assert(node_toggle_at(corig, nc, id, state));
                assert(node_has_task_id(orig[m], id) == f);
            }
        }
        proof {
            assert(rest@ =~= orig.subrange(m + 1, orig.len() as int));
        }
    }
    proof {
        lemma_forest_toggle_at_iff(orig, out@, id, state);
        lemma_forest_has_iff(orig, id);
    }
    (out, found)
}

/// Forces the done flag of every node displaying task id `id`, and of all
/// its descendants, to `state`, anywhere in the forest; reports whether any
/// such node exists. Mirrors the store's cascade toggle, so a client can
/// patch its built forest without refetching.
pub fn toggle_in_hierarchy(hierarchies: &mut Vec<TodoHierarchy>, id: i64, state: bool) -> (found:
    bool)
    ensures
        forest_toggle_at(old(hierarchies)@, final(hierarchies)@, id, state),
        found == forest_has_task_id(old(hierarchies)@, id),
{
    let mut tmp: Vec<TodoHierarchy> = Vec::new();
    core::mem::swap(hierarchies, &mut tmp);
    let (res, found) = toggle_forest_at(tmp, id, state);
    *hierarchies = res;
    found
}

/// A freshly inserted node: it displays `t`, has no children yet, and its
/// date tag agrees with `t`'s date.
pub open spec fn is_new_leaf(h: TodoHierarchy, t: Todo) -> bool {
    &&& h.todo == t
    &&& h.children@ == Seq::<TodoHierarchy>::empty()
    &&& date_tag_ok(h)
}

/// `b` is `a` with one new root appended at the end, displaying `t`.
pub open spec fn appended_as_root(a: Seq<TodoHierarchy>, b: Seq<TodoHierarchy>, t: Todo) -> bool {
    &&& b.len() == a.len() + 1
    &&& b.take(a.len() as int) == a
    &&& is_new_leaf(b.last(), t)
}

/// `b` is `a` with a leaf for `t` appended as last child of exactly one
/// node displaying task id `pid`; every other node is untouched.
pub open spec fn forest_insert_at(
    a: Seq<TodoHierarchy>,
    b: Seq<TodoHierarchy>,
    t: Todo,
    pid: i64,
) -> bool
    decreases a,
{
    if a.len() == 0 {
        false
    } else {
        &&& b.len() == a.len()
        &&& {
            ||| (node_insert_at(a[0], b[0], t, pid) && b.drop_first() == a.drop_first())
            ||| (b[0] == a[0] && forest_insert_at(a.drop_first(), b.drop_first(), t, pid))
        }
    }
}

/// See [`forest_insert_at`].
pub open spec fn node_insert_at(x: TodoHierarchy, y: TodoHierarchy, t: Todo, pid: i64) -> bool
    decreases x,
{
    &&& y.todo == x.todo
    &&& y.todo_date == x.todo_date
    &&& if x.todo.id == pid {
        &&& y.children@.len() == x.children@.len() + 1
        &&& y.children@.take(x.children@.len() as int) == x.children@
        &&& is_new_leaf(y.children@.last(), t)
    } else {
        forest_insert_at(x.children@, y.children@, t, pid)
    }
}

/// An insertion at one position, everything else equal, is a forest
/// insertion.
proof fn lemma_forest_insert_at_point(
    a: Seq<TodoHierarchy>,
    b: Seq<TodoHierarchy>,
    i: int,
    t: Todo,
    pid: i64,
)
    requires
        a.len() == b.len(),
        0 <= i < a.len(),
        node_insert_at(a[i], b[i], t, pid),
        forall|j: int| 0 <= j < a.len() && j != i ==> a[j] == b[j],
    ensures
        forest_insert_at(a, b, t, pid),
    decreases a.len(),
{
    if i == 0 {
        assert(b.drop_first() =~= a.drop_first());
    } else {
        assert(a.drop_first()[i - 1] == a[i]);
        assert(b.drop_first()[i - 1] == b[i]);
        assert forall|j: int|
            0 <= j < a.drop_first().len() && j != i - 1 implies a.drop_first()[j]
            == b.drop_first()[j] by {
            assert(a.drop_first()[j] == a[j + 1]);
            assert(b.drop_first()[j] == b[j + 1]);
        }
        lemma_forest_insert_at_point(a.drop_first(), b.drop_first(), i - 1, t, pid);
    }
}

/// Whether any node of the forest displays a task with the given id,
/// searching depth first.
pub fn forest_has_id(forest: &Vec<TodoHierarchy>, id: i64) -> (r: bool)
    ensures
        r == forest_has_task_id(forest@, id),
    decreases forest@,
{
    let mut i: usize = 0;
    while i < forest.len()
        invariant
            0 <= i <= forest@.len(),
            forall|k: int| 0 <= k < i ==> !node_has_task_id(#[trigger] forest@[k], id),
        decreases forest@.len() - i,
    {
        let node = &forest[i];
        if node.todo.id == id {
            proof {
                assert(node_has_task_id(forest@[i as int], id));
                lemma_forest_has_iff(forest@, id);
            }
            return true;
        }
        if forest_has_id(&node.children, id) {
            proof {
                assert(node_has_task_id(forest@[i as int], id));
                lemma_forest_has_iff(forest@, id);
            }
            return true;
        }
        assert(!node_has_task_id(forest@[i as int], id));
        i += 1;
    }
    proof {
        lemma_forest_has_iff(forest@, id);
    }
    false
}

fn insert_in_forest(forest: Vec<TodoHierarchy>, t: &Todo, pid: i64) -> (res: (
    Vec<TodoHierarchy>,
    bool,
))
    ensures
        res.1 == forest_has_task_id(forest@, pid),
        res.1 ==> forest_insert_at(forest@, res.0@, *t, pid),
        !res.1 ==> res.0@ == forest@,
    decreases forest,
{
    let ghost orig = forest@;
    let mut out: Vec<TodoHierarchy> = Vec::new();
    let mut rest = forest;
    let mut found = false;
    let ghost mut gm: int = 0;
    while rest.len() > 0
        invariant
            orig == forest@,
            out@.len() + rest@.len() == orig.len(),
            rest@ == orig.subrange(out@.len() as int, orig.len() as int),
            !found ==> out@ =~= orig.take(out@.len() as int),
            !found ==> forall|k: int|
                0 <= k < out@.len() ==> !node_has_task_id(#[trigger] orig[k], pid),
            found ==> 0 <= gm < out@.len() && node_insert_at(orig[gm], out@[gm], *t, pid)
                && node_has_task_id(orig[gm], pid),
            found ==> forall|j: int| 0 <= j < out@.len() && j != gm ==> orig[j] == out@[j],
        decreases rest@.len(),
    {
        let ghost m = out@.len() as int;
        let c = rest.remove(0);
        proof {
            assert(c == orig[m]);
        }
        if found {
            out.push(c);
        } else if c.todo.id == pid {
            let mut c = c;
            c.children.push(TodoHierarchy::new(t.clone()));
            proof {
                assert(c.children@.take(orig[m].children@.len() as int) =~= orig[m].children@);
                assert(node_insert_at(orig[m], c, *t, pid));
            }
            found = true;
            proof {
                gm = m;
            }
            out.push(c);
        } else if forest_has_id(&c.children, pid) {
            let ghost corig = c;
            let TodoHierarchy { todo, todo_date, children } = c;
            proof {
                assert(corig == orig[m]);
                assert(decreases_to!(forest => forest@));
                assert(decreases_to!(forest@ => forest@[m]));
                assert(decreases_to!(corig => corig.children));
                assert(children == corig.children);
                assert(decreases_to!(forest => children));
            }
            let (nch, f) = insert_in_forest(children, t, pid);
            let nc = TodoHierarchy { todo, todo_date, children: nch };
            proof {
                assert(node_insert_at(corig, nc, *t, pid));
            }
            found = true;
            proof {
                gm = m;
            }
            out.push(nc);
        } else {
            proof {
                assert(!node_has_task_id(orig[m], pid));
            }
            out.push(c);
        }
        proof {
            assert(rest@ =~= orig.subrange(m + 1, orig.len() as int));
            if !found {
                assert(out@ =~= orig.take(out@.len() as int));
            }
        }
    }
    proof {
        if found {
            lemma_forest_insert_at_point(orig, out@, gm, *t, pid);
            lemma_forest_has_iff(orig, pid);
        } else {
            assert(out@ =~= orig);
            lemma_forest_has_iff(orig, pid);
        }
    }
    (out, found)
}

/// Places a freshly created task into an already-built forest: as the last
/// child of a node displaying its parent id when one exists, and as a new
/// last root otherwise — also when the task has no parent reference. The
/// client-side counterpart of creating a task, sparing a refetch.
pub fn add_to_hierarchy(hierarchy: &mut Vec<TodoHierarchy>, todo: Todo)
    ensures
        match todo.parent_id {
            Some(pid) => {
                if forest_has_task_id(old(hierarchy)@, pid) {
                    forest_insert_at(old(hierarchy)@, final(hierarchy)@, todo, pid)
                } else {
                    appended_as_root(old(hierarchy)@, final(hierarchy)@, todo)
                }
            },
            None => appended_as_root(old(hierarchy)@, final(hierarchy)@, todo),
        },
{
    let has_parent = match todo.parent_id {
        Some(pid) => {
            let mut tmp: Vec<TodoHierarchy> = Vec::new();
            core::mem::swap(hierarchy, &mut tmp);
            let (res, found) = insert_in_forest(tmp, &todo, pid);
            *hierarchy = res;
            found
        },
        None => false,
    };
    if !has_parent {
        let ghost before = hierarchy@;
        hierarchy.push(TodoHierarchy::new(todo));
        proof {
            assert(hierarchy@.take(before.len() as int) =~= before);
        }
    }
}

/// The tasks of a forest in depth-first order: each node's task before its
/// children's, children left to right.
pub open spec fn flatten_forest(forest: Seq<TodoHierarchy>) -> Seq<Todo>
    decreases forest,
{
    if forest.len() == 0 {
        Seq::empty()
    } else {
        flatten_node(forest[0]) + flatten_forest(forest.drop_first())
    }
}

/// See [`flatten_forest`].
pub open spec fn flatten_node(h: TodoHierarchy) -> Seq<Todo>
    decreases h,
{
    seq![h.todo] + flatten_forest(h.children@)
}

fn flatten_forest_into(forest: &Vec<TodoHierarchy>, out: &mut Vec<Todo>)
    ensures
        final(out)@ == old(out)@ + flatten_forest(forest@),
    decreases forest@,
{
    let mut i: usize = 0;
    while i < forest.len()
        invariant
            0 <= i <= forest@.len(),
            out@ == old(out)@ + flatten_forest(forest@.take(i as int)),
        decreases forest@.len() - i,
    {
        let node = &forest[i];
        out.push(node.todo.clone());
        flatten_forest_into(&node.children, out);
        proof {
            lemma_flatten_forest_snoc(forest@, i as int);
        }
        i += 1;
    }
    proof {
        assert(forest@.take(forest@.len() as int) =~= forest@);
    }
}

/// Flattening a prefix extended by one node appends that node's subtree.
proof fn lemma_flatten_forest_snoc(forest: Seq<TodoHierarchy>, i: int)
    requires
        0 <= i < forest.len(),
    ensures
        flatten_forest(forest.take(i + 1)) == flatten_forest(forest.take(i)) + flatten_node(
            forest[i],
        ),
    decreases i,
{
    if i == 0 {
        assert(forest.take(1)[0] == forest[0]);
        assert(forest.take(1).drop_first() =~= Seq::<TodoHierarchy>::empty());
        assert(forest.take(0) =~= Seq::<TodoHierarchy>::empty());
        assert(flatten_forest(Seq::<TodoHierarchy>::empty()) == Seq::<Todo>::empty());
        assert(flatten_forest(forest.take(1)) == flatten_node(forest.take(1)[0]) + flatten_forest(
            forest.take(1).drop_first(),
        ));
        assert(flatten_forest(forest.take(1)) =~= flatten_forest(forest.take(0)) + flatten_node(
            forest[0],
        ));
    } else {
        assert(forest.take(i + 1)[0] == forest[0]);
        assert(forest.take(i)[0] == forest[0]);
        assert(forest.take(i + 1).drop_first() =~= forest.drop_first().take(i));
        assert(forest.take(i).drop_first() =~= forest.drop_first().take(i - 1));
        assert(forest.drop_first()[i - 1] == forest[i]);
        lemma_flatten_forest_snoc(forest.drop_first(), i - 1);
        assert(flatten_forest(forest.take(i + 1)) =~= flatten_forest(forest.take(i))
            + flatten_node(forest[i]));
    }
}

/// The tasks of a built forest, read back by depth-first traversal.
pub fn flatten_hierarchy(forest: &Vec<TodoHierarchy>) -> (r: Vec<Todo>)
    ensures
        r@ == flatten_forest(forest@),
{
    let mut out: Vec<Todo> = Vec::new();
    flatten_forest_into(forest, &mut out);
    out
}

/// Rendered date tags equal as text; the spec cannot pin which `String`
/// value carries the text.
pub open spec fn equiv_date_tag(a: Option<String>, b: Option<String>) -> bool {
    match (a, b) {
        (None, None) => true,
        (Some(x), Some(y)) => x@ == y@,
        _ => false,
    }
}

/// Forests equal node for node: same tasks, same shape, date tags equal as
/// text.
pub open spec fn equiv_forest(a: Seq<TodoHierarchy>, b: Seq<TodoHierarchy>) -> bool
    decreases a,
{
    if a.len() == 0 {
        b.len() == 0
    } else {
        &&& b.len() == a.len()
        &&& equiv_node(a[0], b[0])
        &&& equiv_forest(a.drop_first(), b.drop_first())
    }
}

/// See [`equiv_forest`].
pub open spec fn equiv_node(a: TodoHierarchy, b: TodoHierarchy) -> bool
    decreases a,
{
    &&& a.todo == b.todo
    &&& equiv_date_tag(a.todo_date, b.todo_date)
    &&& equiv_forest(a.children@, b.children@)
}

proof fn lemma_matched_forests_equiv(tasks: Seq<Todo>, a: Seq<TodoHierarchy>, b: Seq<TodoHierarchy>)
    requires
        forest_matches(a, tasks),
        forest_matches(b, tasks),
        todos_of(a) == todos_of(b),
    ensures
        equiv_forest(a, b),
    decreases a,
{
    assert(todos_of(a).len() == a.len());
    assert(todos_of(b).len() == b.len());
    if a.len() > 0 {
        assert(a[0].todo == todos_of(a)[0]);
        assert(b[0].todo == todos_of(b)[0]);
        assert(a[0].todo == b[0].todo);
        assert(node_matches(a[0], tasks));
        assert(node_matches(b[0], tasks));
        assert(todos_of(a[0].children@) == children_of(tasks, a[0].todo.id));
        assert(todos_of(b[0].children@) == children_of(tasks, b[0].todo.id));
        lemma_matched_forests_equiv(tasks, a[0].children@, b[0].children@);
        assert(equiv_date_tag(a[0].todo_date, b[0].todo_date));
        assert(equiv_node(a[0], b[0]));
        assert(todos_of(a.drop_first()) =~= todos_of(a).drop_first());
        assert(todos_of(b.drop_first()) =~= todos_of(b).drop_first());
        lemma_matched_forests_equiv(tasks, a.drop_first(), b.drop_first());
    }
}

proof fn lemma_contained_matches_forest(
    forest: Seq<TodoHierarchy>,
    tasks: Seq<Todo>,
    n: TodoHierarchy,
)
    requires
        forest_matches(forest, tasks),
        forest_contains_node(forest, n),
    ensures
        node_matches(n, tasks),
    decreases forest,
{
    assert(node_matches(forest[0], tasks));
    if node_contains_node(forest[0], n) {
        lemma_contained_matches_node(forest[0], tasks, n);
    } else {
        lemma_contained_matches_forest(forest.drop_first(), tasks, n);
    }
}

proof fn lemma_contained_matches_node(h: TodoHierarchy, tasks: Seq<Todo>, n: TodoHierarchy)
    requires
        node_matches(h, tasks),
        node_contains_node(h, n),
    ensures
        node_matches(n, tasks),
    decreases h,
{
    if h == n {
    } else {
        lemma_contained_matches_forest(h.children@, tasks, n);
    }
}

proof fn lemma_contained_child_forest(forest: Seq<TodoHierarchy>, n: TodoHierarchy, ci: int)
    requires
        forest_contains_node(forest, n),
        0 <= ci < n.children@.len(),
    ensures
        forest_contains_node(forest, n.children@[ci]),
    decreases forest,
{
    if node_contains_node(forest[0], n) {
        lemma_contained_child_node(forest[0], n, ci);
    } else {
        lemma_contained_child_forest(forest.drop_first(), n, ci);
    }
}

proof fn lemma_contained_child_node(h: TodoHierarchy, n: TodoHierarchy, ci: int)
    requires
        node_contains_node(h, n),
        0 <= ci < n.children@.len(),
    ensures
        node_contains_node(h, n.children@[ci]),
    decreases h,
{
    if h == n {
        assert(node_contains_node(n.children@[ci], n.children@[ci]));
        lemma_forest_contains_at(h.children@, ci, n.children@[ci]);
    } else {
        lemma_contained_child_forest(h.children@, n, ci);
    }
}

proof fn lemma_flatten_contains_forest(forest: Seq<TodoHierarchy>, n: TodoHierarchy)
    requires
        forest_contains_node(forest, n),
    ensures
        flatten_forest(forest).contains(n.todo),
    decreases forest,
{
    if node_contains_node(forest[0], n) {
        lemma_flatten_contains_node(forest[0], n);
        let w = choose|w: int|
            0 <= w < flatten_node(forest[0]).len() && flatten_node(forest[0])[w] == n.todo;
        assert(flatten_forest(forest)[w] == n.todo);
    } else {
        lemma_flatten_contains_forest(forest.drop_first(), n);
        let rest = flatten_forest(forest.drop_first());
        let w = choose|w: int| 0 <= w < rest.len() && rest[w] == n.todo;
        assert(flatten_forest(forest)[flatten_node(forest[0]).len() + w] == n.todo);
    }
}

proof fn lemma_flatten_contains_node(h: TodoHierarchy, n: TodoHierarchy)
    requires
        node_contains_node(h, n),
    ensures
        flatten_node(h).contains(n.todo),
    decreases h,
{
    if h == n {
        assert(flatten_node(h)[0] == h.todo);
    } else {
        lemma_flatten_contains_forest(h.children@, n);
        let rest = flatten_forest(h.children@);
        let w = choose|w: int| 0 <= w < rest.len() && rest[w] == n.todo;
        assert(flatten_node(h)[1 + w] == n.todo);
    }
}

proof fn lemma_task_node_exists(tasks: Seq<Todo>, forest: Seq<TodoHierarchy>, j: int)
    requires
        tree_input(tasks),
        todos_of(forest) == roots_of(tasks, tasks),
        forest_matches(forest, tasks),
        0 <= j < tasks.len(),
    ensures
        exists|n: TodoHierarchy|
            #[trigger] forest_contains_node(forest, n) && n.todo == tasks[j],
    decreases depth_at(tasks, j),
{
    if is_root_todo(tasks, tasks[j]) {
        lemma_roots_of_members(tasks, tasks);
        assert(roots_of(tasks, tasks).contains(tasks[j]));
        let i = choose|i: int|
            0 <= i < roots_of(tasks, tasks).len() && roots_of(tasks, tasks)[i] == tasks[j];
        assert(todos_of(forest)[i] == tasks[j]);
        assert(forest[i].todo == tasks[j]);
        assert(node_contains_node(forest[i], forest[i]));
        lemma_forest_contains_at(forest, i, forest[i]);
        assert(forest_contains_node(forest, forest[i]) && forest[i].todo == tasks[j]);
    } else {
        let p = tasks[j].parent_id->0;
        assert(has_id(tasks, p));
        let k = idx_of_id(tasks, p);
        assert(0 <= k < tasks.len() && tasks[k].id == p);
        lemma_depth_child(tasks, k, j);
        lemma_task_node_exists(tasks, forest, k);
        let np = choose|n: TodoHierarchy|
            #[trigger] forest_contains_node(forest, n) && n.todo == tasks[k];
        lemma_contained_matches_forest(forest, tasks, np);
        assert(todos_of(np.children@) == children_of(tasks, p));
        lemma_children_of_members(tasks, p);
        assert(children_of(tasks, p).contains(tasks[j]));
        let ci = choose|ci: int|
            0 <= ci < children_of(tasks, p).len() && children_of(tasks, p)[ci] == tasks[j];
        assert(np.children@[ci].todo == todos_of(np.children@)[ci]);
        assert(np.children@[ci].todo == tasks[j]);
        lemma_contained_child_forest(forest, np, ci);
        assert(forest_contains_node(forest, np.children@[ci]));
    }
}

proof fn lemma_flatten_in_tasks(forest: Seq<TodoHierarchy>, tasks: Seq<Todo>)
    requires
        forest_matches(forest, tasks),
        forall|i: int| 0 <= i < forest.len() ==> tasks.contains((#[trigger] forest[i]).todo),
    ensures
        forall|x: Todo| #[trigger] flatten_forest(forest).contains(x) ==> tasks.contains(x),
    decreases forest,
{
    if forest.len() > 0 {
        let h = forest[0];
        assert(node_matches(h, tasks));
        lemma_children_of_in_tasks(tasks, h.todo.id);
        assert forall|ci: int| 0 <= ci < h.children@.len() implies tasks.contains(
            (#[trigger] h.children@[ci]).todo,
        ) by {
            assert(h.children@[ci].todo == todos_of(h.children@)[ci]);
            assert(todos_of(h.children@)[ci] == children_of(tasks, h.todo.id)[ci]);
        }
        lemma_flatten_in_tasks(h.children@, tasks);
        assert forall|i: int| 0 <= i < forest.drop_first().len() implies tasks.contains(
            (#[trigger] forest.drop_first()[i]).todo,
        ) by {
            assert(forest.drop_first()[i] == forest[i + 1]);
        }
        lemma_flatten_in_tasks(forest.drop_first(), tasks);
        assert forall|x: Todo| #[trigger] flatten_forest(forest).contains(x) implies tasks.contains(
            x,
        ) by {
            let w = choose|w: int|
                0 <= w < flatten_forest(forest).len() && flatten_forest(forest)[w] == x;
            let hn = flatten_node(h);
            if w < hn.len() {
                assert(hn[w] == x);
                if w == 0 {
                    assert(x == h.todo);
                    assert(tasks.contains(forest[0].todo));
                } else {
                    assert(flatten_forest(h.children@)[w - 1] == x);
                    assert(flatten_forest(h.children@).contains(x));
                }
            } else {
                assert(flatten_forest(forest.drop_first())[w - hn.len()] == x);
                assert(flatten_forest(forest.drop_first()).contains(x));
            }
        }
    }
}

proof fn lemma_flatten_node_occ(tasks: Seq<Todo>, h: TodoHierarchy, k: int, jx: int)
    requires
        tree_input(tasks),
        node_matches(h, tasks),
        0 <= k < tasks.len(),
        tasks[k] == h.todo,
        0 <= jx < tasks.len(),
    ensures
        occ(flatten_node(h), tasks[jx]) == closure_ind(tasks, jx, h.todo.id),
    decreases tasks.len() - depth_at(tasks, k), 1nat, 0nat,
{
    let x = tasks[jx];
    let pid = h.todo.id;
    let n = tasks.len() as nat;
    let dk = depth_at(tasks, k);
    crate::relation::lemma_depth_le_fuel(tasks, k, n);
    lemma_occ_concat(seq![h.todo], flatten_forest(h.children@), x);
    assert(seq![h.todo].drop_first() =~= Seq::<Todo>::empty());
    assert(seq![h.todo][0] == h.todo);
    assert(occ(seq![h.todo], x) == (if h.todo == x {
        1nat
    } else {
        0nat
    }) + occ(seq![h.todo].drop_first(), x));
    assert((h.todo == x) == (jx == k)) by {
        if h.todo == x && jx != k {
            assert(tasks[k].id == tasks[jx].id);
        }
    }
    crate::relation::lemma_children_of_in_tasks(tasks, pid);
    lemma_children_of_members(tasks, pid);
    assert forall|i: int| 0 <= i < h.children@.len() implies tasks.contains(
        (#[trigger] h.children@[i]).todo,
    ) && depth_at(tasks, idx_of_id(tasks, h.children@[i].todo.id)) == dk + 1 by {
        assert(h.children@[i].todo == todos_of(h.children@)[i]);
        assert(h.children@[i].todo == children_of(tasks, pid)[i]);
        let w0 = choose|w0: int|
            0 <= w0 < tasks.len() && tasks[w0] == children_of(tasks, pid)[i];
        crate::relation::lemma_idx_of_id(tasks, w0);
        crate::relation::lemma_depth_child(tasks, k, w0);
    }
    lemma_flatten_forest_occ(tasks, h.children@, (dk + 1) as nat, jx);
    assert(todos_of(h.children@) == children_of(tasks, pid));
    lemma_closure_partition(tasks, k, jx);
}

proof fn lemma_flatten_forest_occ(tasks: Seq<Todo>, forest: Seq<TodoHierarchy>, dlevel: nat, jx: int)
    requires
        tree_input(tasks),
        forest_matches(forest, tasks),
        forall|i: int| 0 <= i < forest.len() ==> tasks.contains((#[trigger] forest[i]).todo),
        forall|i: int|
            0 <= i < forest.len() ==> depth_at(
                tasks,
                idx_of_id(tasks, (#[trigger] forest[i]).todo.id),
            ) == dlevel,
        0 <= jx < tasks.len(),
        dlevel <= tasks.len() + 1,
    ensures
        occ(flatten_forest(forest), tasks[jx]) == sum_closures(tasks, todos_of(forest), jx),
    decreases tasks.len() + 1 - dlevel, 0nat, forest.len(),
{
    let x = tasks[jx];
    assert(todos_of(forest).len() == forest.len());
    if forest.len() > 0 {
        let h0 = forest[0];
        assert(node_matches(h0, tasks));
        assert(tasks.contains(h0.todo));
        let w0 = choose|w0: int| 0 <= w0 < tasks.len() && tasks[w0] == h0.todo;
        crate::relation::lemma_idx_of_id(tasks, w0);
        assert(idx_of_id(tasks, h0.todo.id) == w0);
        assert(depth_at(tasks, w0) == dlevel);
        assert(dlevel <= tasks.len()) by {
            crate::relation::lemma_depth_le_fuel(tasks, w0, tasks.len() as nat);
        }
        lemma_flatten_node_occ(tasks, h0, w0, jx);
        assert forall|i: int| 0 <= i < forest.drop_first().len() implies tasks.contains(
            (#[trigger] forest.drop_first()[i]).todo,
        ) && depth_at(tasks, idx_of_id(tasks, forest.drop_first()[i].todo.id)) == dlevel by {
            assert(forest.drop_first()[i] == forest[i + 1]);
        }
        lemma_flatten_forest_occ(tasks, forest.drop_first(), dlevel, jx);
        lemma_occ_concat(flatten_node(h0), flatten_forest(forest.drop_first()), x);
        assert(todos_of(forest)[0] == h0.todo);
        assert(todos_of(forest).drop_first() =~= todos_of(forest.drop_first()));
        assert(sum_closures(tasks, todos_of(forest), jx) == closure_ind(tasks, jx, h0.todo.id)
            + sum_closures(tasks, todos_of(forest).drop_first(), jx));
    } else {
        assert(todos_of(forest) =~= Seq::<Todo>::empty());
    }
}

/// The round trip: flattening the forest built from a well-shaped task
/// list by depth-first traversal reproduces the same tasks, with no loss —
/// every input task appears — and no duplication — each task exactly as
/// often as in the input, which with unique ids is exactly once.
pub proof fn lemma_round_trip(tasks: Seq<Todo>, forest: Seq<TodoHierarchy>)
    requires
        tree_input(tasks),
        todos_of(forest) == roots_of(tasks, tasks),
        forall|i: int| 0 <= i < forest.len() ==> #[trigger] node_matches(forest[i], tasks),
    ensures
        forall|j: int|
            0 <= j < tasks.len() ==> flatten_forest(forest).contains(#[trigger] tasks[j]),
        forall|x: Todo| #[trigger] flatten_forest(forest).contains(x) ==> tasks.contains(x),
        forall|x: Todo| #[trigger] occ(flatten_forest(forest), x) == occ(tasks, x),
{
    lemma_forest_matches_iff(forest, tasks);
    assert forall|j: int| 0 <= j < tasks.len() implies flatten_forest(forest).contains(
        #[trigger] tasks[j],
    ) by {
        lemma_task_node_exists(tasks, forest, j);
        let n = choose|n: TodoHierarchy|
            #[trigger] forest_contains_node(forest, n) && n.todo == tasks[j];
        lemma_flatten_contains_forest(forest, n);
    }
    lemma_roots_of_in_tasks(tasks, tasks);
    lemma_roots_of_members(tasks, tasks);
    assert forall|i: int| 0 <= i < forest.len() implies tasks.contains(
        (#[trigger] forest[i]).todo,
    ) by {
        assert(forest[i].todo == todos_of(forest)[i]);
        assert(roots_of(tasks, tasks)[i] == todos_of(forest)[i]);
    }
    lemma_flatten_in_tasks(forest, tasks);
    let n = tasks.len() as nat;
    assert forall|x: Todo| #[trigger] occ(flatten_forest(forest), x) == occ(tasks, x) by {
        lemma_occ_unique(tasks, x);
        lemma_occ_contains(flatten_forest(forest), x);
        if tasks.contains(x) {
            let jx = choose|jx: int| 0 <= jx < tasks.len() && tasks[jx] == x;
            assert forall|i: int| 0 <= i < forest.len() implies depth_at(
                tasks,
                idx_of_id(tasks, (#[trigger] forest[i]).todo.id),
            ) == 0 by {
                assert(forest[i].todo == roots_of(tasks, tasks)[i]);
                assert(is_root_todo(tasks, forest[i].todo));
                let w0 = choose|w0: int| 0 <= w0 < tasks.len() && tasks[w0] == forest[i].todo;
                crate::relation::lemma_idx_of_id(tasks, w0);
                assert(crate::relation::depth_of(tasks, w0, n) == Some(0nat));
            }
            lemma_flatten_forest_occ(tasks, forest, 0, jx);
            lemma_root_above(tasks, jx);
            let r = choose|r: int|
                0 <= r < tasks.len() && is_root_todo(tasks, #[trigger] tasks[r]) && in_closure(
                    tasks,
                    jx,
                    tasks[r].id,
                );
            let rv = tasks[r];
            let roots = roots_of(tasks, tasks);
            assert(roots.contains(rv));
            lemma_occ_roots_of_le(tasks, tasks, rv);
            lemma_occ_unique(tasks, rv);
            lemma_occ_contains(roots, rv);
            assert(occ(roots, rv) == 1);
            assert forall|i: int|
                0 <= i < roots.len() && (#[trigger] roots[i]) != rv implies !in_closure(
                tasks,
                jx,
                roots[i].id,
            ) by {
                assert(tasks.contains(roots[i]));
                let ww = choose|ww: int| 0 <= ww < tasks.len() && tasks[ww] == roots[i];
                assert(is_root_todo(tasks, tasks[ww]));
                assert(crate::relation::depth_of(tasks, ww, n) == Some(0nat));
                assert(crate::relation::depth_of(tasks, r, n) == Some(0nat));
                assert(ww != r) by {
                    if ww == r {
                        assert(roots[i] == rv);
                    }
                }
                lemma_same_depth_disjoint(tasks, jx, r, ww);
            }
            lemma_sum_single(tasks, roots, jx, rv);
            assert(occ(flatten_forest(forest), x) == sum_closures(tasks, todos_of(forest), jx));
            assert(todos_of(forest) == roots);
        } else {
            if occ(flatten_forest(forest), x) > 0 {
                assert(flatten_forest(forest).contains(x));
            }
        }
    }
}

proof fn lemma_forced_matches(
    tasks: Seq<Todo>,
    id: i64,
    state: bool,
    h: TodoHierarchy,
    h2: TodoHierarchy,
    k: int,
)
    requires
        tree_input(tasks),
        node_matches(h, tasks),
        toggled_node(h, h2, state),
        0 <= k < tasks.len(),
        tasks[k] == h.todo,
        in_closure(tasks, k, id),
    ensures
        node_matches(h2, toggled_tasks(tasks, id, state)),
    decreases h,
{
    let t2 = toggled_tasks(tasks, id, state);
    let pid = h.todo.id;
    lemma_toggled_tasks_pointwise(tasks, id, state);
    crate::relation::lemma_idx_of_id(tasks, k);
    assert(h2.todo == with_done(h.todo, state));
    assert(date_tag_ok(h2));
    lemma_children_of_mapped(tasks, tasks, t2, pid, id, state);
    lemma_toggled_forest_iff(h.children@, h2.children@, state);
    lemma_forest_matches_iff(h.children@, tasks);
    lemma_children_of_members(tasks, pid);
    lemma_children_of_in_tasks(tasks, pid);
    assert(todos_of(h.children@) == children_of(tasks, pid));
    assert forall|i: int| 0 <= i < children_of(tasks, pid).len() implies ({
        let w = idx_of_id(tasks, (#[trigger] children_of(tasks, pid)[i]).id);
        &&& 0 <= w < tasks.len()
        &&& tasks[w] == children_of(tasks, pid)[i]
        &&& in_closure(tasks, w, id)
    }) by {
        assert(tasks.contains(children_of(tasks, pid)[i]));
        let w0 = choose|w0: int|
            0 <= w0 < tasks.len() && tasks[w0] == children_of(tasks, pid)[i];
        crate::relation::lemma_idx_of_id(tasks, w0);
        lemma_in_subtree_step(tasks, w0, k, id);
    }
    assert forall|i: int| 0 <= i < h2.children@.len() implies (#[trigger] h2.children@[i]).todo
        == children_of(t2, pid)[i] by {
        let c = children_of(tasks, pid)[i];
        assert(h.children@[i].todo == todos_of(h.children@)[i]);
        assert(toggled_node(h.children@[i], h2.children@[i], state));
        assert(h2.children@[i].todo == with_done(c, state));
        assert(children_of(t2, pid)[i] == toggle_elem(tasks, c, id, state));
    }
    assert(todos_of(h2.children@) =~= children_of(t2, pid));
    assert(h2.todo.id == pid);
    assert forall|i: int| 0 <= i < h2.children@.len() implies #[trigger] node_matches(
        h2.children@[i],
        t2,
    ) by {
        let c = h.children@[i];
        let w = idx_of_id(tasks, children_of(tasks, pid)[i].id);
        assert(c.todo == children_of(tasks, pid)[i]);
        assert(tasks[w] == c.todo);
        assert(decreases_to!(h => h.children));
        assert(decreases_to!(h.children => h.children@));
        assert(decreases_to!(h.children@ => h.children@[i]));
        lemma_forced_matches(tasks, id, state, c, h2.children@[i], w);
    }
    lemma_forest_matches_iff(h2.children@, t2);
    assert(node_matches(h2, t2));
}

proof fn lemma_partial_matches(
    tasks: Seq<Todo>,
    id: i64,
    state: bool,
    h: TodoHierarchy,
    h2: TodoHierarchy,
    k: int,
)
    requires
        tree_input(tasks),
        node_matches(h, tasks),
        node_toggle_at(h, h2, id, state),
        0 <= k < tasks.len(),
        tasks[k] == h.todo,
        h.todo.id == id || !in_closure(tasks, k, id),
    ensures
        node_matches(h2, toggled_tasks(tasks, id, state)),
    decreases h,
{
    let t2 = toggled_tasks(tasks, id, state);
    let pid = h.todo.id;
    let n = tasks.len() as nat;
    lemma_toggled_tasks_pointwise(tasks, id, state);
    crate::relation::lemma_idx_of_id(tasks, k);
    if h.todo.id == id {
        assert(in_subtree(tasks, k, id, 0));
        lemma_in_subtree_mono(tasks, k, id, 0, n);
        lemma_forced_matches(tasks, id, state, h, h2, k);
    } else {
        assert(!in_closure(tasks, k, id));
        assert(h2.todo == h.todo);
        assert(toggle_elem(tasks, h.todo, id, state) == h.todo);
        assert(date_tag_ok(h2));
        lemma_children_of_mapped(tasks, tasks, t2, pid, id, state);
        lemma_forest_toggle_at_iff(h.children@, h2.children@, id, state);
        lemma_forest_matches_iff(h.children@, tasks);
        lemma_children_of_members(tasks, pid);
        lemma_children_of_in_tasks(tasks, pid);
        assert(todos_of(h.children@) == children_of(tasks, pid));
        assert forall|i: int| 0 <= i < children_of(tasks, pid).len() implies ({
            let w = idx_of_id(tasks, (#[trigger] children_of(tasks, pid)[i]).id);
            &&& 0 <= w < tasks.len()
            &&& tasks[w] == children_of(tasks, pid)[i]
            &&& (children_of(tasks, pid)[i].id == id || !in_closure(tasks, w, id))
        }) by {
            assert(tasks.contains(children_of(tasks, pid)[i]));
            let w0 = choose|w0: int|
                0 <= w0 < tasks.len() && tasks[w0] == children_of(tasks, pid)[i];
            crate::relation::lemma_idx_of_id(tasks, w0);
            let c = children_of(tasks, pid)[i];
            if c.id != id && in_closure(tasks, w0, id) {
                assert(has_id(tasks, pid)) by {
                    assert(tasks[k].id == pid);
                }
                assert(idx_of_id(tasks, tasks[w0].parent_id->0) == k);
                assert(in_subtree(tasks, k, id, (n - 1) as nat));
                lemma_in_subtree_mono(tasks, k, id, (n - 1) as nat, n);
            }
        }
        assert forall|i: int| 0 <= i < h2.children@.len() implies (#[trigger] h2.children@[i]).todo
            == children_of(t2, pid)[i] by {
            let c = children_of(tasks, pid)[i];
            let w = idx_of_id(tasks, c.id);
            assert(h.children@[i].todo == todos_of(h.children@)[i]);
            assert(node_toggle_at(h.children@[i], h2.children@[i], id, state));
            if c.id == id {
                assert(in_subtree(tasks, w, id, 0));
                lemma_in_subtree_mono(tasks, w, id, 0, n);
                assert(h2.children@[i].todo == with_done(c, state));
            } else {
                assert(h2.children@[i].todo == c);
            }
            assert(children_of(t2, pid)[i] == toggle_elem(tasks, c, id, state));
        }
        assert(todos_of(h2.children@) =~= children_of(t2, pid));
        assert forall|i: int| 0 <= i < h2.children@.len() implies #[trigger] node_matches(
            h2.children@[i],
            t2,
        ) by {
            let c = h.children@[i];
            let w = idx_of_id(tasks, children_of(tasks, pid)[i].id);
            assert(c.todo == children_of(tasks, pid)[i]);
            assert(tasks[w] == c.todo);
            assert(decreases_to!(h => h.children));
            assert(decreases_to!(h.children => h.children@));
            assert(decreases_to!(h.children@ => h.children@[i]));
            lemma_partial_matches(tasks, id, state, c, h2.children@[i], w);
        }
        lemma_forest_matches_iff(h2.children@, t2);
        assert(node_matches(h2, t2));
    }
}

/// Client and server cascades agree: patching a matching forest with the
/// client-side toggle at an id leaves a forest that matches the store
/// after the server-side cascade toggle of the same id to the same state.
/// A client may therefore patch locally instead of refetching.
pub proof fn lemma_toggle_consistent(
    tasks: Seq<Todo>,
    forest: Seq<TodoHierarchy>,
    f2: Seq<TodoHierarchy>,
    id: i64,
    state: bool,
)
    requires
        tree_input(tasks),
        todos_of(forest) == roots_of(tasks, tasks),
        forall|i: int| 0 <= i < forest.len() ==> #[trigger] node_matches(forest[i], tasks),
        forest_toggle_at(forest, f2, id, state),
    ensures
        todos_of(f2) == roots_of(toggled_tasks(tasks, id, state), toggled_tasks(tasks, id, state)),
        forall|i: int|
            0 <= i < f2.len() ==> #[trigger] node_matches(f2[i], toggled_tasks(tasks, id, state)),
{
    let t2 = toggled_tasks(tasks, id, state);
    let n = tasks.len() as nat;
    lemma_toggled_tasks_pointwise(tasks, id, state);
    lemma_toggled_tasks_shape(tasks, id, state);
    lemma_forest_toggle_at_iff(forest, f2, id, state);
    lemma_roots_of_members(tasks, tasks);
    lemma_roots_of_in_tasks(tasks, tasks);
    assert(todos_of(forest).len() == forest.len());
    assert forall|i: int| 0 <= i < forest.len() implies ({
        let w = idx_of_id(tasks, (#[trigger] forest[i]).todo.id);
        &&& 0 <= w < tasks.len()
        &&& tasks[w] == forest[i].todo
        &&& (forest[i].todo.id == id || !in_closure(tasks, w, id))
    }) by {
        assert(forest[i].todo == roots_of(tasks, tasks)[i]);
        assert(tasks.contains(forest[i].todo));
        assert(is_root_todo(tasks, forest[i].todo));
        let w0 = choose|w0: int| 0 <= w0 < tasks.len() && tasks[w0] == forest[i].todo;
        crate::relation::lemma_idx_of_id(tasks, w0);
    }
    assert forall|i: int| 0 <= i < f2.len() implies #[trigger] node_matches(f2[i], t2) by {
        let w = idx_of_id(tasks, forest[i].todo.id);
        lemma_partial_matches(tasks, id, state, forest[i], f2[i], w);
    }
    lemma_roots_of_mapped(tasks, tasks, t2, tasks, t2, id, state);
    assert forall|i: int| 0 <= i < f2.len() implies (#[trigger] f2[i]).todo == roots_of(t2, t2)[i] by {
        let w = idx_of_id(tasks, forest[i].todo.id);
        assert(node_toggle_at(forest[i], f2[i], id, state));
        if forest[i].todo.id == id {
            assert(in_subtree(tasks, w, id, 0));
            lemma_in_subtree_mono(tasks, w, id, 0, n);
            assert(f2[i].todo == with_done(forest[i].todo, state));
        } else {
            assert(f2[i].todo == forest[i].todo);
        }
        assert(forest[i].todo == roots_of(tasks, tasks)[i]);
        assert(roots_of(t2, t2)[i] == toggle_elem(tasks, roots_of(tasks, tasks)[i], id, state));
    }
    assert(todos_of(f2) =~= roots_of(t2, t2));
}

/// The builder is deterministic: any two forests that satisfy its
/// guarantees for the same well-shaped input are equal node for node —
/// same tasks, same shape, same order, date tags equal as text. Running
/// the build twice on the same input thus yields identical output, up to
/// which `String` values carry the date texts.
pub proof fn lemma_build_deterministic(
    tasks: Seq<Todo>,
    f1: Seq<TodoHierarchy>,
    f2: Seq<TodoHierarchy>,
)
    requires
        tree_input(tasks),
        todos_of(f1) == roots_of(tasks, tasks),
        todos_of(f2) == roots_of(tasks, tasks),
        forall|i: int| 0 <= i < f1.len() ==> #[trigger] node_matches(f1[i], tasks),
        forall|i: int| 0 <= i < f2.len() ==> #[trigger] node_matches(f2[i], tasks),
    ensures
        equiv_forest(f1, f2),
{
    lemma_forest_matches_iff(f1, tasks);
    lemma_forest_matches_iff(f2, tasks);
    lemma_matched_forests_equiv(tasks, f1, f2);
}

proof fn lemma_forest_has_contained(forest: Seq<TodoHierarchy>, id: i64)
    requires
        forest_has_task_id(forest, id),
    ensures
        exists|n: TodoHierarchy|
            #[trigger] forest_contains_node(forest, n) && n.todo.id == id,
    decreases forest,
{
    if node_has_task_id(forest[0], id) {
        lemma_node_has_contained(forest[0], id);
        let n = choose|n: TodoHierarchy|
            #[trigger] node_contains_node(forest[0], n) && n.todo.id == id;
        lemma_forest_contains_at(forest, 0, n);
    } else {
        lemma_forest_has_contained(forest.drop_first(), id);
        let n = choose|n: TodoHierarchy|
            #[trigger] forest_contains_node(forest.drop_first(), n) && n.todo.id == id;
        assert(forest_contains_node(forest, n));
    }
}

proof fn lemma_node_has_contained(h: TodoHierarchy, id: i64)
    requires
        node_has_task_id(h, id),
    ensures
        exists|n: TodoHierarchy| #[trigger] node_contains_node(h, n) && n.todo.id == id,
    decreases h,
{
    if h.todo.id == id {
        assert(node_contains_node(h, h));
    } else {
        lemma_forest_has_contained(h.children@, id);
        let n = choose|n: TodoHierarchy|
            #[trigger] forest_contains_node(h.children@, n) && n.todo.id == id;
        assert(node_contains_node(h, n));
    }
}

proof fn lemma_flatten_elem_has_forest(forest: Seq<TodoHierarchy>, x: Todo)
    requires
        flatten_forest(forest).contains(x),
    ensures
        forest_has_task_id(forest, x.id),
    decreases forest,
{
    assert(forest.len() > 0);
    let w = choose|w: int|
        0 <= w < flatten_forest(forest).len() && flatten_forest(forest)[w] == x;
    let hn = flatten_node(forest[0]);
    if w < hn.len() {
        assert(hn[w] == x);
        lemma_flatten_elem_has_node(forest[0], x);
    } else {
        assert(flatten_forest(forest.drop_first())[w - hn.len()] == x);
        assert(flatten_forest(forest.drop_first()).contains(x));
        lemma_flatten_elem_has_forest(forest.drop_first(), x);
    }
}

proof fn lemma_flatten_elem_has_node(h: TodoHierarchy, x: Todo)
    requires
        flatten_node(h).contains(x),
    ensures
        node_has_task_id(h, x.id),
    decreases h,
{
    let w = choose|w: int| 0 <= w < flatten_node(h).len() && flatten_node(h)[w] == x;
    if w == 0 {
        assert(x == h.todo);
    } else {
        assert(flatten_forest(h.children@)[w - 1] == x);
        assert(flatten_forest(h.children@).contains(x));
        lemma_flatten_elem_has_forest(h.children@, x);
    }
}

proof fn lemma_insert_forest_has(
    a: Seq<TodoHierarchy>,
    b: Seq<TodoHierarchy>,
    t: Todo,
    pid: i64,
)
    requires
        forest_insert_at(a, b, t, pid),
    ensures
        forest_has_task_id(a, pid),
    decreases a,
{
    if node_insert_at(a[0], b[0], t, pid) && b.drop_first() == a.drop_first() {
        lemma_insert_node_has(a[0], b[0], t, pid);
    } else {
        lemma_insert_forest_has(a.drop_first(), b.drop_first(), t, pid);
    }
}

proof fn lemma_insert_node_has(x: TodoHierarchy, y: TodoHierarchy, t: Todo, pid: i64)
    requires
        node_insert_at(x, y, t, pid),
    ensures
        node_has_task_id(x, pid),
    decreases x,
{
    if x.todo.id != pid {
        lemma_insert_forest_has(x.children@, y.children@, t, pid);
    }
}

/// A matching node's subtree displays a task exactly when that task lies
/// in the closure of the node's id.
proof fn lemma_display_iff_closure(tasks: Seq<Todo>, h: TodoHierarchy, w: int, kstar: int)
    requires
        tree_input(tasks),
        node_matches(h, tasks),
        0 <= w < tasks.len(),
        tasks[w] == h.todo,
        0 <= kstar < tasks.len(),
    ensures
        node_has_task_id(h, tasks[kstar].id) == in_closure(tasks, kstar, h.todo.id),
{
    lemma_flatten_node_occ(tasks, h, w, kstar);
    let pidstar = tasks[kstar].id;
    assert(forest_matches(seq![h], tasks)) by {
        assert(seq![h].len() == 1);
        assert(seq![h][0] == h);
        assert(seq![h].drop_first() =~= Seq::<TodoHierarchy>::empty());
        assert(forest_matches(Seq::<TodoHierarchy>::empty(), tasks));
        assert(forest_matches(seq![h].drop_first(), tasks));
    }
    if node_has_task_id(h, pidstar) {
        lemma_node_has_contained(h, pidstar);
        let nn = choose|nn: TodoHierarchy|
            #[trigger] node_contains_node(h, nn) && nn.todo.id == pidstar;
        lemma_flatten_contains_node(h, nn);
        assert forall|i: int| 0 <= i < seq![h].len() implies tasks.contains(
            (#[trigger] seq![h][i]).todo,
        ) by {
            assert(seq![h][i] == h);
        }
        lemma_flatten_in_tasks(seq![h], tasks);
        assert(flatten_forest(seq![h]) =~= flatten_node(h)) by {
            assert(seq![h][0] == h);
            assert(seq![h].drop_first() =~= Seq::<TodoHierarchy>::empty());
            assert(flatten_forest(Seq::<TodoHierarchy>::empty()) == Seq::<Todo>::empty());
            assert(flatten_forest(seq![h].drop_first()) == Seq::<Todo>::empty());
            assert(flatten_forest(seq![h]) == flatten_node(seq![h][0]) + flatten_forest(
                seq![h].drop_first(),
            ));
        }
        assert(flatten_forest(seq![h]).contains(nn.todo));
        assert(tasks.contains(nn.todo));
        let wt = choose|wt: int| 0 <= wt < tasks.len() && tasks[wt] == nn.todo;
        assert(tasks[wt].id == tasks[kstar].id);
        assert(wt == kstar);
        lemma_occ_contains(flatten_node(h), tasks[kstar]);
        assert(in_closure(tasks, kstar, h.todo.id));
    }
    if in_closure(tasks, kstar, h.todo.id) {
        assert(occ(flatten_node(h), tasks[kstar]) == 1);
        lemma_occ_contains(flatten_node(h), tasks[kstar]);
        lemma_flatten_elem_has_node(h, tasks[kstar]);
    }
}

/// A matching forest can only display ids that the task list holds.
proof fn lemma_forest_displays_present(tasks: Seq<Todo>, forest: Seq<TodoHierarchy>, id: i64)
    requires
        forest_matches(forest, tasks),
        forall|i: int| 0 <= i < forest.len() ==> tasks.contains((#[trigger] forest[i]).todo),
        forest_has_task_id(forest, id),
    ensures
        has_id(tasks, id),
{
    lemma_forest_has_contained(forest, id);
    let nn = choose|nn: TodoHierarchy|
        #[trigger] forest_contains_node(forest, nn) && nn.todo.id == id;
    lemma_flatten_contains_forest(forest, nn);
    lemma_flatten_in_tasks(forest, tasks);
    assert(tasks.contains(nn.todo));
    let wt = choose|wt: int| 0 <= wt < tasks.len() && tasks[wt] == nn.todo;
    assert(tasks[wt].id == id);
}

/// The child nodes of a matching node: their tasks are in the list, one
/// level below the node's, with pairwise distinct ids.
proof fn lemma_children_nodes_facts(tasks: Seq<Todo>, x: TodoHierarchy, w: int)
    requires
        tree_input(tasks),
        node_matches(x, tasks),
        0 <= w < tasks.len(),
        tasks[w] == x.todo,
    ensures
        forall|i: int|
            0 <= i < x.children@.len() ==> tasks.contains((#[trigger] x.children@[i]).todo),
        forall|i: int|
            0 <= i < x.children@.len() ==> depth_at(
                tasks,
                idx_of_id(tasks, (#[trigger] x.children@[i]).todo.id),
            ) == depth_at(tasks, w) + 1,
        forall|i: int, j: int|
            0 <= i < j < x.children@.len() ==> (#[trigger] x.children@[i]).todo.id
                != (#[trigger] x.children@[j]).todo.id,
{
    lemma_children_of_members(tasks, x.todo.id);
    lemma_children_of_in_tasks(tasks, x.todo.id);
    assert(todos_of(x.children@) == children_of(tasks, x.todo.id));
    assert forall|i: int| 0 <= i < x.children@.len() implies tasks.contains(
        (#[trigger] x.children@[i]).todo,
    ) && depth_at(tasks, idx_of_id(tasks, x.children@[i].todo.id)) == depth_at(tasks, w)
        + 1 by {
        assert(x.children@[i].todo == children_of(tasks, x.todo.id)[i]);
        let wc = choose|wc: int|
            0 <= wc < tasks.len() && tasks[wc] == children_of(tasks, x.todo.id)[i];
        lemma_idx_of_id(tasks, wc);
        lemma_depth_child(tasks, w, wc);
    }
    assert forall|i: int, j: int|
        0 <= i < j < x.children@.len() implies (#[trigger] x.children@[i]).todo.id
        != (#[trigger] x.children@[j]).todo.id by {
        let ci = children_of(tasks, x.todo.id)[i];
        let cj = children_of(tasks, x.todo.id)[j];
        assert(x.children@[i].todo == ci);
        assert(x.children@[j].todo == cj);
        if ci.id == cj.id {
            let wi = choose|wi: int| 0 <= wi < tasks.len() && tasks[wi] == ci;
            let wj = choose|wj: int| 0 <= wj < tasks.len() && tasks[wj] == cj;
            assert(tasks[wi].id == tasks[wj].id);
            assert(wi == wj);
            assert(ci == cj);
            lemma_occ_dup(children_of(tasks, x.todo.id), i, j);
            crate::relation::lemma_occ_children_of_le(tasks, x.todo.id, ci);
            lemma_occ_unique(tasks, ci);
        }
    }
}

/// The freshly inserted leaf matches the extended task list.
proof fn lemma_new_leaf_matches(tasks: Seq<Todo>, t: Todo, leaf: TodoHierarchy)
    requires
        !has_id(tasks, t.id),
        forall|j: int| 0 <= j < tasks.len() ==> (#[trigger] tasks[j]).parent_id != Some(t.id),
        t.parent_id != Some(t.id),
        is_new_leaf(leaf, t),
    ensures
        node_matches(leaf, tasks.push(t)),
{
    let t2 = tasks.push(t);
    let n = tasks.len() as int;
    assert(children_of(t2, t.id) == Seq::<Todo>::empty()) by {
        assert forall|j: int|
            0 <= j < t2.len() implies (#[trigger] t2[j]).parent_id != Some(t.id) by {
            if j < n {
                assert(t2[j] == tasks[j]);
            } else {
                assert(t2[j] == t);
            }
        }
        lemma_children_of_empty(t2, t.id);
    }
    assert(leaf.todo == t);
    assert(todos_of(leaf.children@) =~= children_of(t2, t.id));
    assert(forest_matches(leaf.children@, t2));
}

/// A child of the insertion target keeps matching: the new task lands
/// beside it, not below it.
proof fn lemma_child_of_target_congruent(
    tasks: Seq<Todo>,
    t: Todo,
    pid: i64,
    kstar: int,
    c: TodoHierarchy,
    wc: int,
)
    requires
        tree_input(tasks),
        t.parent_id == Some(pid),
        0 <= kstar < tasks.len(),
        tasks[kstar].id == pid,
        kstar == idx_of_id(tasks, pid),
        node_matches(c, tasks),
        0 <= wc < tasks.len(),
        tasks[wc] == c.todo,
        depth_at(tasks, wc) == depth_at(tasks, kstar) + 1,
    ensures
        node_matches(c, tasks.push(t)),
{
    assert(!node_has_task_id(c, pid)) by {
        lemma_display_iff_closure(tasks, c, wc, kstar);
        if in_closure(tasks, kstar, c.todo.id) {
            lemma_idx_of_id(tasks, wc);
            lemma_in_subtree_depth(tasks, kstar, c.todo.id, tasks.len() as nat);
        }
    }
    lemma_matches_push_congruent(tasks, t, c);
}

/// A node whose subtree is untouched by an appended task keeps matching.
proof fn lemma_matches_push_congruent(tasks: Seq<Todo>, t: Todo, h: TodoHierarchy)
    requires
        node_matches(h, tasks),
        t.parent_id matches Some(pid) ==> !node_has_task_id(h, pid),
    ensures
        node_matches(h, tasks.push(t)),
    decreases h,
{
    lemma_children_of_push(tasks, t, h.todo.id);
    assert(children_of(tasks.push(t), h.todo.id) == children_of(tasks, h.todo.id));
    lemma_forest_matches_iff(h.children@, tasks);
    lemma_forest_has_iff(h.children@, t.parent_id->0);
    assert forall|i: int| 0 <= i < h.children@.len() implies #[trigger] node_matches(
        h.children@[i],
        tasks.push(t),
    ) by {
        lemma_matches_push_congruent(tasks, t, h.children@[i]);
    }
    lemma_forest_matches_iff(h.children@, tasks.push(t));
    assert(node_matches(h, tasks.push(t)));
}

#[verifier::rlimit(100)]
proof fn lemma_insert_node_matches_base(
    tasks: Seq<Todo>,
    t: Todo,
    pid: i64,
    kstar: int,
    x: TodoHierarchy,
    y: TodoHierarchy,
    w: int,
)
    requires
        tree_input(tasks),
        !has_id(tasks, t.id),
        forall|j: int| 0 <= j < tasks.len() ==> (#[trigger] tasks[j]).parent_id != Some(t.id),
        t.parent_id == Some(pid),
        has_id(tasks, pid),
        kstar == idx_of_id(tasks, pid),
        node_matches(x, tasks),
        node_insert_at(x, y, t, pid),
        0 <= w < tasks.len(),
        tasks[w] == x.todo,
        x.todo.id == pid,
    ensures
        node_matches(y, tasks.push(t)),
        y.todo == x.todo,
{
    let t2 = tasks.push(t);
    assert(0 <= kstar < tasks.len() && tasks[kstar].id == pid);
    assert(t.id != pid) by {
        if t.id == pid {
            assert(has_id(tasks, t.id));
        }
    }
    assert(t.parent_id != Some(t.id));
    lemma_forest_matches_iff(x.children@, tasks);
    lemma_children_nodes_facts(tasks, x, w);
    assert(todos_of(x.children@) == children_of(tasks, pid));
    assert(w == kstar);
    lemma_children_of_push(tasks, t, pid);
    assert(children_of(t2, pid) == children_of(tasks, pid).push(t));
    let oldlen = x.children@.len() as int;
    assert(y.children@.len() == oldlen + 1);
    assert(y.children@.take(oldlen) == x.children@);
    assert forall|i: int| 0 <= i < oldlen + 1 implies todos_of(y.children@)[i] == children_of(
        t2,
        pid,
    )[i] by {
        if i < oldlen {
            assert(y.children@[i] == y.children@.take(oldlen)[i]);
            assert(y.children@[i] == x.children@[i]);
            assert(x.children@[i].todo == todos_of(x.children@)[i]);
        } else {
            assert(y.children@[i] == y.children@.last());
            assert(y.children@.last().todo == t);
        }
    }
    assert(todos_of(y.children@) =~= children_of(t2, pid));
    assert forall|i: int| 0 <= i < y.children@.len() implies #[trigger] node_matches(
        y.children@[i],
        t2,
    ) by {
        if i < oldlen {
            assert(y.children@[i] == y.children@.take(oldlen)[i]);
            assert(y.children@[i] == x.children@[i]);
            let c = x.children@[i];
            assert(tasks.contains(c.todo));
            let wc = choose|wc: int| 0 <= wc < tasks.len() && tasks[wc] == c.todo;
            lemma_idx_of_id(tasks, wc);
            assert(depth_at(tasks, idx_of_id(tasks, c.todo.id)) == depth_at(tasks, w) + 1);
            lemma_child_of_target_congruent(tasks, t, pid, kstar, c, wc);
        } else {
            assert(y.children@[i] == y.children@.last());
            lemma_new_leaf_matches(tasks, t, y.children@.last());
        }
    }
    lemma_forest_matches_iff(y.children@, t2);
    assert(y.todo.id == pid);
    assert(node_matches(y, t2));
}

#[verifier::rlimit(100)]
proof fn lemma_insert_node_matches(
    tasks: Seq<Todo>,
    t: Todo,
    pid: i64,
    kstar: int,
    x: TodoHierarchy,
    y: TodoHierarchy,
    w: int,
)
    requires
        tree_input(tasks),
        !has_id(tasks, t.id),
        forall|j: int| 0 <= j < tasks.len() ==> (#[trigger] tasks[j]).parent_id != Some(t.id),
        t.parent_id == Some(pid),
        has_id(tasks, pid),
        kstar == idx_of_id(tasks, pid),
        node_matches(x, tasks),
        node_insert_at(x, y, t, pid),
        0 <= w < tasks.len(),
        tasks[w] == x.todo,
    ensures
        node_matches(y, tasks.push(t)),
        y.todo == x.todo,
    decreases x,
{
    let t2 = tasks.push(t);
    let n = tasks.len() as int;
    assert(0 <= kstar < tasks.len() && tasks[kstar].id == pid);
    assert(t.id != pid) by {
        if t.id == pid {
            assert(has_id(tasks, t.id));
        }
    }
    lemma_forest_matches_iff(x.children@, tasks);
    assert(todos_of(x.children@) == children_of(tasks, x.todo.id));
    if x.todo.id == pid {
        lemma_insert_node_matches_base(tasks, t, pid, kstar, x, y, w);
    } else {
        assert(w != kstar) by {
            assert(tasks[w].id == x.todo.id);
        }
        lemma_children_nodes_facts(tasks, x, w);
        lemma_insert_forest_matches(
            tasks,
            t,
            pid,
            kstar,
            x.children@,
            y.children@,
            depth_at(tasks, w) + 1 as int,
        );
        lemma_children_of_push(tasks, t, x.todo.id);
        assert(children_of(t2, x.todo.id) == children_of(tasks, x.todo.id));
        assert(todos_of(y.children@) == todos_of(x.children@));
        assert(node_matches(y, t2));
    }
}

proof fn lemma_insert_forest_matches(
    tasks: Seq<Todo>,
    t: Todo,
    pid: i64,
    kstar: int,
    a: Seq<TodoHierarchy>,
    b: Seq<TodoHierarchy>,
    dlevel: int,
)
    requires
        tree_input(tasks),
        !has_id(tasks, t.id),
        forall|j: int| 0 <= j < tasks.len() ==> (#[trigger] tasks[j]).parent_id != Some(t.id),
        t.parent_id == Some(pid),
        has_id(tasks, pid),
        kstar == idx_of_id(tasks, pid),
        forest_matches(a, tasks),
        forest_insert_at(a, b, t, pid),
        forall|i: int| 0 <= i < a.len() ==> tasks.contains((#[trigger] a[i]).todo),
        forall|i: int|
            0 <= i < a.len() ==> depth_at(tasks, idx_of_id(tasks, (#[trigger] a[i]).todo.id))
                == dlevel,
        forall|i: int, j: int|
            0 <= i < j < a.len() ==> (#[trigger] a[i]).todo.id != (#[trigger] a[j]).todo.id,
    ensures
        forest_matches(b, tasks.push(t)),
        todos_of(b) == todos_of(a),
    decreases a,
{
    let t2 = tasks.push(t);
    assert(a.len() > 0);
    assert(0 <= kstar < tasks.len() && tasks[kstar].id == pid);
    lemma_forest_matches_iff(a, tasks);
    let w0 = choose|w0: int| 0 <= w0 < tasks.len() && tasks[w0] == a[0].todo;
    lemma_idx_of_id(tasks, w0);
    if node_insert_at(a[0], b[0], t, pid) && b.drop_first() == a.drop_first() {
        lemma_insert_node_matches(tasks, t, pid, kstar, a[0], b[0], w0);
        lemma_insert_node_has(a[0], b[0], t, pid);
        lemma_display_iff_closure(tasks, a[0], w0, kstar);
        assert(in_closure(tasks, kstar, a[0].todo.id));
        assert forall|i: int| 0 <= i < b.len() implies #[trigger] node_matches(b[i], t2) by {
            if i == 0 {
            } else {
                assert(b[i] == b.drop_first()[i - 1]);
                assert(b[i] == a[i]);
                let wi = choose|wi: int| 0 <= wi < tasks.len() && tasks[wi] == a[i].todo;
                lemma_idx_of_id(tasks, wi);
                assert(wi != w0) by {
                    if wi == w0 {
                        assert(a[i].todo.id == a[0].todo.id);
                    }
                }
                lemma_same_depth_disjoint(tasks, kstar, w0, wi);
                lemma_display_iff_closure(tasks, a[i], wi, kstar);
                assert(!node_has_task_id(a[i], pid));
                lemma_matches_push_congruent(tasks, t, a[i]);
            }
        }
        lemma_forest_matches_iff(b, t2);
        assert forall|i: int| 0 <= i < b.len() implies todos_of(b)[i] == todos_of(a)[i] by {
            if i > 0 {
                assert(b[i] == b.drop_first()[i - 1]);
                assert(b[i] == a[i]);
            }
        }
        assert(todos_of(b) =~= todos_of(a));
    } else {
        assert(b[0] == a[0]);
        assert forall|i: int| 0 <= i < a.drop_first().len() implies ({
            &&& tasks.contains((#[trigger] a.drop_first()[i]).todo)
            &&& depth_at(tasks, idx_of_id(tasks, a.drop_first()[i].todo.id)) == dlevel
        }) by {
            assert(a.drop_first()[i] == a[i + 1]);
        }
        assert forall|i: int, j: int|
            0 <= i < j < a.drop_first().len() implies (#[trigger] a.drop_first()[i]).todo.id
            != (#[trigger] a.drop_first()[j]).todo.id by {
            assert(a.drop_first()[i] == a[i + 1]);
            assert(a.drop_first()[j] == a[j + 1]);
        }
        lemma_forest_matches_iff(a.drop_first(), tasks);
        lemma_insert_forest_matches(tasks, t, pid, kstar, a.drop_first(), b.drop_first(), dlevel);
        lemma_insert_forest_has(a.drop_first(), b.drop_first(), t, pid);
        lemma_forest_has_iff(a.drop_first(), pid);
        let ih = choose|ih: int|
            0 <= ih < a.drop_first().len() && #[trigger] node_has_task_id(
                a.drop_first()[ih],
                pid,
            );
        assert(a.drop_first()[ih] == a[ih + 1]);
        let wh = choose|wh: int| 0 <= wh < tasks.len() && tasks[wh] == a[ih + 1].todo;
        lemma_idx_of_id(tasks, wh);
        lemma_display_iff_closure(tasks, a[ih + 1], wh, kstar);
        assert(in_closure(tasks, kstar, a[ih + 1].todo.id));
        assert(!node_has_task_id(a[0], pid)) by {
            assert(wh != w0) by {
                if wh == w0 {
                    assert(a[ih + 1].todo.id == a[0].todo.id);
                }
            }
            lemma_same_depth_disjoint(tasks, kstar, wh, w0);
            lemma_display_iff_closure(tasks, a[0], w0, kstar);
        }
        lemma_matches_push_congruent(tasks, t, a[0]);
        lemma_forest_matches_iff(b.drop_first(), t2);
        assert forall|i: int| 0 <= i < b.len() implies #[trigger] node_matches(b[i], t2) by {
            if i > 0 {
                assert(b.drop_first()[i - 1] == b[i]);
            }
        }
        lemma_forest_matches_iff(b, t2);
        assert forall|i: int| 0 <= i < b.len() implies todos_of(b)[i] == todos_of(a)[i] by {
            if i > 0 {
                assert(b.drop_first()[i - 1] == b[i]);
                assert(a.drop_first()[i - 1] == a[i]);
                assert(todos_of(b.drop_first())[i - 1] == todos_of(a.drop_first())[i - 1]);
            }
        }
        assert(todos_of(b) =~= todos_of(a));
    }
}

/// Client and server agree on creation: placing a freshly created task
/// into a matching forest, as `add_to_hierarchy` guarantees, leaves a
/// forest that matches the store with the task appended — the forest a
/// full rebuild would display. The task's id must be fresh and no existing
/// task may already name it as parent.
#[verifier::rlimit(100)]
pub proof fn lemma_insert_consistent(
    tasks: Seq<Todo>,
    forest: Seq<TodoHierarchy>,
    f2: Seq<TodoHierarchy>,
    t: Todo,
)
    requires
        tree_input(tasks),
        !has_id(tasks, t.id),
        forall|j: int| 0 <= j < tasks.len() ==> (#[trigger] tasks[j]).parent_id != Some(t.id),
        t.parent_id != Some(t.id),
        todos_of(forest) == roots_of(tasks, tasks),
        forall|i: int| 0 <= i < forest.len() ==> #[trigger] node_matches(forest[i], tasks),
        match t.parent_id {
            Some(pid) => {
                if forest_has_task_id(forest, pid) {
                    forest_insert_at(forest, f2, t, pid)
                } else {
                    appended_as_root(forest, f2, t)
                }
            },
            None => appended_as_root(forest, f2, t),
        },
    ensures
        todos_of(f2) == roots_of(tasks.push(t), tasks.push(t)),
        forall|i: int|
            0 <= i < f2.len() ==> #[trigger] node_matches(f2[i], tasks.push(t)),
{
    lemma_forest_matches_iff(forest, tasks);
    lemma_roots_of_members(tasks, tasks);
    lemma_roots_of_in_tasks(tasks, tasks);
    assert(todos_of(forest).len() == forest.len());
    assert forall|i: int| 0 <= i < forest.len() implies tasks.contains(
        (#[trigger] forest[i]).todo,
    ) by {
        assert(forest[i].todo == roots_of(tasks, tasks)[i]);
    }
    let inserted_under_parent = match t.parent_id {
        Some(pid) => forest_has_task_id(forest, pid),
        None => false,
    };
    if inserted_under_parent {
        lemma_insert_consistent_parent(tasks, forest, f2, t);
    } else {
        lemma_insert_consistent_root(tasks, forest, f2, t);
    }
}

#[verifier::rlimit(100)]
proof fn lemma_insert_consistent_parent(
    tasks: Seq<Todo>,
    forest: Seq<TodoHierarchy>,
    f2: Seq<TodoHierarchy>,
    t: Todo,
)
    requires
        tree_input(tasks),
        !has_id(tasks, t.id),
        forall|j: int| 0 <= j < tasks.len() ==> (#[trigger] tasks[j]).parent_id != Some(t.id),
        t.parent_id != Some(t.id),
        todos_of(forest) == roots_of(tasks, tasks),
        forest_matches(forest, tasks),
        forall|i: int| 0 <= i < forest.len() ==> tasks.contains((#[trigger] forest[i]).todo),
        t.parent_id matches Some(pid) && forest_has_task_id(forest, pid) && forest_insert_at(
            forest,
            f2,
            t,
            pid,
        ),
    ensures
        todos_of(f2) == roots_of(tasks.push(t), tasks.push(t)),
        forall|i: int|
            0 <= i < f2.len() ==> #[trigger] node_matches(f2[i], tasks.push(t)),
{
    let t2 = tasks.push(t);
    let pid = t.parent_id->0;
    lemma_forest_displays_present(tasks, forest, pid);
    lemma_pushed_tasks_shape(tasks, t);
    lemma_roots_of_members(tasks, tasks);
    let kstar = idx_of_id(tasks, pid);
    assert forall|i: int| 0 <= i < forest.len() implies depth_at(
        tasks,
        idx_of_id(tasks, (#[trigger] forest[i]).todo.id),
    ) == 0 by {
        assert(forest[i].todo == roots_of(tasks, tasks)[i]);
        assert(is_root_todo(tasks, forest[i].todo));
        let w0 = choose|w0: int| 0 <= w0 < tasks.len() && tasks[w0] == forest[i].todo;
        lemma_idx_of_id(tasks, w0);
        assert(crate::relation::depth_of(tasks, w0, tasks.len() as nat) == Some(0nat));
    }
    assert forall|i: int, j: int|
        0 <= i < j < forest.len() implies (#[trigger] forest[i]).todo.id
        != (#[trigger] forest[j]).todo.id by {
        if forest[i].todo.id == forest[j].todo.id {
            let wi = choose|wi: int| 0 <= wi < tasks.len() && tasks[wi] == forest[i].todo;
            let wj = choose|wj: int| 0 <= wj < tasks.len() && tasks[wj] == forest[j].todo;
            assert(tasks[wi].id == tasks[wj].id);
            assert(wi == wj);
            assert(forest[i].todo == forest[j].todo);
            assert(roots_of(tasks, tasks)[i] == forest[i].todo);
            assert(roots_of(tasks, tasks)[j] == forest[j].todo);
            lemma_occ_dup(roots_of(tasks, tasks), i, j);
            lemma_occ_roots_of_le(tasks, tasks, forest[i].todo);
            lemma_occ_unique(tasks, forest[i].todo);
        }
    }
    lemma_insert_forest_matches(tasks, t, pid, kstar, forest, f2, 0);
    lemma_forest_matches_iff(f2, t2);
    assert(todos_of(f2) == roots_of(tasks, tasks));
    assert(roots_of(t2, t2) == roots_of(tasks, tasks)) by {
        assert(t2.drop_last() =~= tasks);
        assert(t2.last() == t);
        assert(!is_root_todo(t2, t)) by {
            assert(has_id(t2, pid));
        }
        assert(roots_of(t2, t2) == roots_of(tasks, t2));
        lemma_roots_of_all_congruent(tasks, tasks, t2);
    }
}

/// Appending a root-to-be extends the root list by exactly that task.
proof fn lemma_roots_after_append(tasks: Seq<Todo>, t: Todo)
    requires
        tree_input(tasks),
        !has_id(tasks, t.id),
        forall|j: int| 0 <= j < tasks.len() ==> (#[trigger] tasks[j]).parent_id != Some(t.id),
        t.parent_id != Some(t.id),
        t.parent_id matches Some(p) ==> !has_id(tasks, p),
    ensures
        roots_of(tasks.push(t), tasks.push(t)) == roots_of(tasks, tasks).push(t),
{
    let t2 = tasks.push(t);
    let n = tasks.len() as int;
    assert(t.parent_id matches Some(p) ==> !has_id(t2, p)) by {
        match t.parent_id {
            Some(p) => {
                if has_id(t2, p) {
                    let jx = idx_of_id(t2, p);
                    assert(0 <= jx < t2.len() && t2[jx].id == p);
                    if jx < n {
                        assert(tasks[jx].id == p);
                    } else {
                        assert(t.id == p);
                    }
                }
            },
            None => {},
        }
    }
    lemma_pushed_tasks_shape(tasks, t);
    assert(t2.drop_last() =~= tasks);
    assert(t2.last() == t);
    assert(is_root_todo(t2, t)) by {
        match t.parent_id {
            Some(p) => {
                assert(!has_id(t2, p));
            },
            None => {},
        }
    }
    assert(roots_of(t2, t2) == roots_of(tasks, t2).push(t));
    lemma_roots_of_all_congruent(tasks, tasks, t2);
}

/// An id displayed nowhere in a faithful full forest is held by no task.
proof fn lemma_absent_id(tasks: Seq<Todo>, forest: Seq<TodoHierarchy>, p: i64)
    requires
        tree_input(tasks),
        todos_of(forest) == roots_of(tasks, tasks),
        forest_matches(forest, tasks),
        !forest_has_task_id(forest, p),
    ensures
        !has_id(tasks, p),
{
    if has_id(tasks, p) {
        let jx = idx_of_id(tasks, p);
        assert(0 <= jx < tasks.len() && tasks[jx].id == p);
        lemma_task_node_exists(tasks, forest, jx);
        let nn = choose|nn: TodoHierarchy|
            #[trigger] forest_contains_node(forest, nn) && nn.todo == tasks[jx];
        lemma_contained_has(forest, nn);
    }
}

/// When the new task's parent id is displayed nowhere, every existing node
/// keeps matching after the task is appended.
proof fn lemma_root_case_nodes(tasks: Seq<Todo>, forest: Seq<TodoHierarchy>, t: Todo)
    requires
        forest_matches(forest, tasks),
        forall|i: int| 0 <= i < forest.len() ==> tasks.contains((#[trigger] forest[i]).todo),
        t.parent_id matches Some(pid) ==> !forest_has_task_id(forest, pid),
    ensures
        forall|i: int|
            0 <= i < forest.len() ==> #[trigger] node_matches(forest[i], tasks.push(t)),
{
    lemma_forest_matches_iff(forest, tasks);
    assert forall|i: int| 0 <= i < forest.len() implies #[trigger] node_matches(
        forest[i],
        tasks.push(t),
    ) by {
        assert(!(t.parent_id matches Some(pid) && node_has_task_id(forest[i], pid))) by {
            match t.parent_id {
                Some(pid) => {
                    if node_has_task_id(forest[i], pid) {
                        lemma_forest_has_iff(forest, pid);
                    }
                },
                None => {},
            }
        }
        lemma_matches_push_congruent(tasks, t, forest[i]);
    }
}

#[verifier::rlimit(100)]
proof fn lemma_insert_consistent_root(
    tasks: Seq<Todo>,
    forest: Seq<TodoHierarchy>,
    f2: Seq<TodoHierarchy>,
    t: Todo,
)
    requires
        tree_input(tasks),
        !has_id(tasks, t.id),
        forall|j: int| 0 <= j < tasks.len() ==> (#[trigger] tasks[j]).parent_id != Some(t.id),
        t.parent_id != Some(t.id),
        todos_of(forest) == roots_of(tasks, tasks),
        forest_matches(forest, tasks),
        forall|i: int| 0 <= i < forest.len() ==> tasks.contains((#[trigger] forest[i]).todo),
        t.parent_id matches Some(pid) ==> !forest_has_task_id(forest, pid),
        appended_as_root(forest, f2, t),
    ensures
        todos_of(f2) == roots_of(tasks.push(t), tasks.push(t)),
        forall|i: int|
            0 <= i < f2.len() ==> #[trigger] node_matches(f2[i], tasks.push(t)),
{
    let t2 = tasks.push(t);
    assert(t.parent_id matches Some(p) ==> !has_id(tasks, p)) by {
        match t.parent_id {
            Some(p) => {
                lemma_absent_id(tasks, forest, p);
            },
            None => {},
        }
    }
    lemma_roots_after_append(tasks, t);
    assert(f2.len() == forest.len() + 1);
    assert(f2.take(forest.len() as int) == forest);
    let leaf = f2.last();
    assert(is_new_leaf(leaf, t));
    lemma_root_case_nodes(tasks, forest, t);
    assert forall|i: int| 0 <= i < f2.len() implies #[trigger] node_matches(f2[i], t2) by {
        if i < forest.len() {
            assert(f2[i] == f2.take(forest.len() as int)[i]);
            assert(f2[i] == forest[i]);
            assert(node_matches(forest[i], t2));
        } else {
            assert(f2[i] == leaf);
            lemma_new_leaf_matches(tasks, t, leaf);
        }
    }
    assert forall|i: int| 0 <= i < f2.len() implies todos_of(f2)[i] == roots_of(t2, t2)[i] by {
        if i < forest.len() {
            assert(f2[i] == f2.take(forest.len() as int)[i]);
            assert(f2[i] == forest[i]);
            assert(forest[i].todo == todos_of(forest)[i]);
        } else {
            assert(f2[i] == leaf);
        }
    }
    assert(todos_of(f2) =~= roots_of(t2, t2));
}

proof fn lemma_contained_has(forest: Seq<TodoHierarchy>, n: TodoHierarchy)
    requires
        forest_contains_node(forest, n),
    ensures
        forest_has_task_id(forest, n.todo.id),
    decreases forest,
{
    if node_contains_node(forest[0], n) {
        lemma_contained_has_node(forest[0], n);
    } else {
        lemma_contained_has(forest.drop_first(), n);
    }
}

proof fn lemma_contained_has_node(h: TodoHierarchy, n: TodoHierarchy)
    requires
        node_contains_node(h, n),
    ensures
        node_has_task_id(h, n.todo.id),
    decreases h,
{
    if h == n {
    } else {
        lemma_contained_has(h.children@, n);
    }
}

} // verus!
