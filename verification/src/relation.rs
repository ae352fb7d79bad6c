//! The parent/child relation over a flat task list: id lookup, roots,
//! children, and depth certificates for well-shaped (acyclic) inputs.

use vstd::prelude::*;
use crate::task::Todo;

verus! {

/// Whether some task in `tasks` has id `id`.
pub open spec fn has_id(tasks: Seq<Todo>, id: i64) -> bool {
    exists|i: int| 0 <= i < tasks.len() && tasks[i].id == id
}

/// Whether all tasks carry distinct ids.
pub open spec fn unique_ids(tasks: Seq<Todo>) -> bool {
    forall|i: int, j: int| 0 <= i < j < tasks.len() ==> tasks[i].id != tasks[j].id
}

/// An index of a task with id `id`; the index when ids are unique and the
/// id is present.
pub open spec fn idx_of_id(tasks: Seq<Todo>, id: i64) -> int {
    choose|i: int| 0 <= i < tasks.len() && tasks[i].id == id
}

pub proof fn lemma_idx_of_id(tasks: Seq<Todo>, k: int)
    requires
        unique_ids(tasks),
        0 <= k < tasks.len(),
    ensures
        idx_of_id(tasks, tasks[k].id) == k,
{
    assert(0 <= k < tasks.len() && tasks[k].id == tasks[k].id);
    let i = idx_of_id(tasks, tasks[k].id);
    assert(0 <= i < tasks.len() && tasks[i].id == tasks[k].id);
}

/// A root: no parent reference, or a parent reference naming an id absent
/// from the set (an orphan is tolerated as a root, not treated as an error).
pub open spec fn is_root_todo(tasks: Seq<Todo>, t: Todo) -> bool {
    match t.parent_id {
        None => true,
        Some(p) => !has_id(tasks, p),
    }
}

/// The tasks of `tasks` whose parent reference is `pid`, in input order.
pub open spec fn children_of(tasks: Seq<Todo>, pid: i64) -> Seq<Todo>
    decreases tasks.len(),
{
    if tasks.len() == 0 {
        Seq::empty()
    } else {
        let rest = children_of(tasks.drop_last(), pid);
        if tasks.last().parent_id == Some(pid) {
            rest.push(tasks.last())
        } else {
            rest
        }
    }
}

/// The tasks of `sub` that are roots with respect to `all`, in order.
pub open spec fn roots_of(sub: Seq<Todo>, all: Seq<Todo>) -> Seq<Todo>
    decreases sub.len(),
{
    if sub.len() == 0 {
        Seq::empty()
    } else {
        let rest = roots_of(sub.drop_last(), all);
        if is_root_todo(all, sub.last()) {
            rest.push(sub.last())
        } else {
            rest
        }
    }
}

pub proof fn lemma_children_of_snoc(tasks: Seq<Todo>, j: int, pid: i64)
    requires
        0 <= j < tasks.len(),
    ensures
        children_of(tasks.take(j + 1), pid) == if tasks[j].parent_id == Some(pid) {
            children_of(tasks.take(j), pid).push(tasks[j])
        } else {
            children_of(tasks.take(j), pid)
        },
{
    assert(tasks.take(j + 1).drop_last() =~= tasks.take(j));
    assert(tasks.take(j + 1).last() == tasks[j]);
}

pub proof fn lemma_roots_of_snoc(sub: Seq<Todo>, j: int, all: Seq<Todo>)
    requires
        0 <= j < sub.len(),
    ensures
        roots_of(sub.take(j + 1), all) == if is_root_todo(all, sub[j]) {
            roots_of(sub.take(j), all).push(sub[j])
        } else {
            roots_of(sub.take(j), all)
        },
{
    assert(sub.take(j + 1).drop_last() =~= sub.take(j));
    assert(sub.take(j + 1).last() == sub[j]);
}

/// Every member of `children_of` indeed carries the parent reference, and
/// every such member of the input is kept.
pub proof fn lemma_children_of_members(tasks: Seq<Todo>, pid: i64)
    ensures
        forall|i: int|
            0 <= i < children_of(tasks, pid).len() ==> (#[trigger] children_of(tasks, pid)[i]).parent_id
                == Some(pid),
        forall|j: int|
            0 <= j < tasks.len() && (#[trigger] tasks[j]).parent_id == Some(pid) ==> children_of(
                tasks,
                pid,
            ).contains(tasks[j]),
    decreases tasks.len(),
{
    if tasks.len() > 0 {
        lemma_children_of_members(tasks.drop_last(), pid);
        assert forall|j: int|
            0 <= j < tasks.len() && (#[trigger] tasks[j]).parent_id == Some(pid) implies children_of(
            tasks,
            pid,
        ).contains(tasks[j]) by {
            if j < tasks.len() - 1 {
                assert(tasks.drop_last()[j] == tasks[j]);
                let rest = children_of(tasks.drop_last(), pid);
                let w = choose|w: int| 0 <= w < rest.len() && rest[w] == tasks[j];
                if tasks.last().parent_id == Some(pid) {
                    assert(children_of(tasks, pid)[w] == tasks[j]);
                } else {
                    assert(children_of(tasks, pid)[w] == tasks[j]);
                }
            } else {
                assert(children_of(tasks, pid).last() == tasks[j]);
            }
        }
    }
}

/// A task whose parent reference names an absent id is kept among the roots:
/// an orphan shows up as a root.
pub proof fn lemma_orphan_is_root(tasks: Seq<Todo>, j: int)
    requires
        0 <= j < tasks.len(),
        tasks[j].parent_id matches Some(p) ==> !has_id(tasks, p),
    ensures
        roots_of(tasks, tasks).contains(tasks[j]),
{
    lemma_roots_of_members(tasks, tasks);
}

/// Every root-filtered member is a root, and every root of the input is kept.
pub proof fn lemma_roots_of_members(sub: Seq<Todo>, all: Seq<Todo>)
    ensures
        forall|i: int|
            0 <= i < roots_of(sub, all).len() ==> is_root_todo(all, #[trigger] roots_of(sub, all)[i]),
        forall|j: int|
            0 <= j < sub.len() && is_root_todo(all, #[trigger] sub[j]) ==> roots_of(sub, all).contains(
                sub[j],
            ),
    decreases sub.len(),
{
    if sub.len() > 0 {
        lemma_roots_of_members(sub.drop_last(), all);
        let rest = roots_of(sub.drop_last(), all);
        assert forall|i: int|
            0 <= i < roots_of(sub, all).len() implies is_root_todo(
            all,
            #[trigger] roots_of(sub, all)[i],
        ) by {
            if i < rest.len() {
                assert(roots_of(sub, all)[i] == rest[i]);
            }
        }
        assert forall|j: int|
            0 <= j < sub.len() && is_root_todo(all, #[trigger] sub[j]) implies roots_of(
            sub,
            all,
        ).contains(sub[j]) by {
            if j < sub.len() - 1 {
                assert(sub.drop_last()[j] == sub[j]);
                let rest = roots_of(sub.drop_last(), all);
                let w = choose|w: int| 0 <= w < rest.len() && rest[w] == sub[j];
                assert(roots_of(sub, all)[w] == sub[j]);
            } else {
                assert(roots_of(sub, all).last() == sub[j]);
            }
        }
    }
}

/// The children filter only selects tasks of the input.
pub proof fn lemma_children_of_in_tasks(tasks: Seq<Todo>, pid: i64)
    ensures
        forall|i: int|
            0 <= i < children_of(tasks, pid).len() ==> tasks.contains(
                #[trigger] children_of(tasks, pid)[i],
            ),
    decreases tasks.len(),
{
    if tasks.len() > 0 {
        lemma_children_of_in_tasks(tasks.drop_last(), pid);
        let rest = children_of(tasks.drop_last(), pid);
        assert forall|i: int|
            0 <= i < children_of(tasks, pid).len() implies tasks.contains(
            #[trigger] children_of(tasks, pid)[i],
        ) by {
            if i < rest.len() {
                assert(children_of(tasks, pid)[i] == rest[i]);
                let w = choose|w: int| 0 <= w < tasks.drop_last().len() && tasks.drop_last()[w]
                    == rest[i];
                assert(tasks[w] == rest[i]);
            } else {
                assert(children_of(tasks, pid)[i] == tasks.last());
                assert(tasks[tasks.len() - 1] == tasks.last());
            }
        }
    }
}

/// The roots filter only selects tasks of the input.
pub proof fn lemma_roots_of_in_tasks(sub: Seq<Todo>, all: Seq<Todo>)
    ensures
        forall|i: int|
            0 <= i < roots_of(sub, all).len() ==> sub.contains(#[trigger] roots_of(sub, all)[i]),
    decreases sub.len(),
{
    if sub.len() > 0 {
        lemma_roots_of_in_tasks(sub.drop_last(), all);
        let rest = roots_of(sub.drop_last(), all);
        assert forall|i: int|
            0 <= i < roots_of(sub, all).len() implies sub.contains(
            #[trigger] roots_of(sub, all)[i],
        ) by {
            if i < rest.len() {
                assert(roots_of(sub, all)[i] == rest[i]);
                let w = choose|w: int| 0 <= w < sub.drop_last().len() && sub.drop_last()[w]
                    == rest[i];
                assert(sub[w] == rest[i]);
            } else {
                assert(roots_of(sub, all)[i] == sub.last());
                assert(sub[sub.len() - 1] == sub.last());
            }
        }
    }
}

/// A parent reference nobody carries selects no children.
pub proof fn lemma_children_of_empty(tasks: Seq<Todo>, pid: i64)
    requires
        forall|j: int| 0 <= j < tasks.len() ==> (#[trigger] tasks[j]).parent_id != Some(pid),
    ensures
        children_of(tasks, pid) == Seq::<Todo>::empty(),
    decreases tasks.len(),
{
    if tasks.len() > 0 {
        assert forall|j: int|
            0 <= j < tasks.drop_last().len() implies (#[trigger] tasks.drop_last()[j]).parent_id
            != Some(pid) by {
            assert(tasks.drop_last()[j] == tasks[j]);
        }
        lemma_children_of_empty(tasks.drop_last(), pid);
    }
}

/// Appending a task extends exactly its parent's children list.
pub proof fn lemma_children_of_push(tasks: Seq<Todo>, t: Todo, x: i64)
    ensures
        children_of(tasks.push(t), x) == if t.parent_id == Some(x) {
            children_of(tasks, x).push(t)
        } else {
            children_of(tasks, x)
        },
{
    assert(tasks.push(t).drop_last() =~= tasks);
    assert(tasks.push(t).last() == t);
}

/// Root decisions depend on the reference set only through which ids it
/// holds; equal decisions give equal root lists.
pub proof fn lemma_roots_of_all_congruent(sub: Seq<Todo>, all1: Seq<Todo>, all2: Seq<Todo>)
    requires
        forall|j: int|
            0 <= j < sub.len() ==> is_root_todo(all2, #[trigger] sub[j]) == is_root_todo(
                all1,
                sub[j],
            ),
    ensures
        roots_of(sub, all2) == roots_of(sub, all1),
    decreases sub.len(),
{
    if sub.len() > 0 {
        assert forall|j: int|
            0 <= j < sub.drop_last().len() implies is_root_todo(
            all2,
            #[trigger] sub.drop_last()[j],
        ) == is_root_todo(all1, sub.drop_last()[j]) by {
            assert(sub.drop_last()[j] == sub[j]);
        }
        lemma_roots_of_all_congruent(sub.drop_last(), all1, all2);
        assert(sub[sub.len() - 1] == sub.last());
    }
}

/// Appending a task that nothing references and that references no new id
/// leaves every existing shape fact unchanged: ids, indices, root
/// decisions and depths carry over, and the extended store is again well
/// shaped.
pub proof fn lemma_pushed_tasks_shape(tasks: Seq<Todo>, t: Todo)
    requires
        tree_input(tasks),
        !has_id(tasks, t.id),
        forall|j: int| 0 <= j < tasks.len() ==> (#[trigger] tasks[j]).parent_id != Some(t.id),
        t.parent_id != Some(t.id),
        t.parent_id matches Some(p) ==> has_id(tasks, p) || !has_id(tasks.push(t), p),
    ensures
        tree_input(tasks.push(t)),
        forall|x: i64| has_id(tasks.push(t), x) == (#[trigger] has_id(tasks, x) || x == t.id),
        forall|x: i64|
            #[trigger] has_id(tasks, x) ==> idx_of_id(tasks.push(t), x) == idx_of_id(tasks, x),
        idx_of_id(tasks.push(t), t.id) == tasks.len(),
        forall|j: int|
            0 <= j < tasks.len() ==> is_root_todo(tasks.push(t), #[trigger] tasks[j])
                == is_root_todo(tasks, tasks[j]),
        is_root_todo(tasks.push(t), t) == is_root_todo(tasks, t),
{
    let t2 = tasks.push(t);
    let n = tasks.len() as int;
    assert forall|x: i64| has_id(t2, x) == (#[trigger] has_id(tasks, x) || x == t.id) by {
        if has_id(tasks, x) {
            let w = choose|w: int| 0 <= w < tasks.len() && tasks[w].id == x;
            assert(t2[w].id == x);
        }
        assert(t2[n].id == t.id);
        if has_id(t2, x) && x != t.id {
            let w = choose|w: int| 0 <= w < t2.len() && t2[w].id == x;
            assert(w < n);
            assert(tasks[w].id == x);
        }
    }
    assert(unique_ids(t2)) by {
        assert forall|i: int, j: int| 0 <= i < j < t2.len() implies t2[i].id != t2[j].id by {
            if j == n {
                assert(t2[i] == tasks[i]);
                if tasks[i].id == t.id {
                    assert(has_id(tasks, t.id));
                }
            } else {
                assert(t2[i] == tasks[i] && t2[j] == tasks[j]);
            }
        }
    }
    assert forall|x: i64| #[trigger] has_id(tasks, x) implies idx_of_id(t2, x) == idx_of_id(
        tasks,
        x,
    ) by {
        let i1 = idx_of_id(tasks, x);
        assert(0 <= i1 < tasks.len() && tasks[i1].id == x);
        assert(t2[i1].id == x);
        let i2 = idx_of_id(t2, x);
        assert(0 <= i2 < t2.len() && t2[i2].id == x);
        if i2 == n {
            assert(t.id == x);
            assert(has_id(tasks, t.id));
        }
        assert(tasks[i2].id == x);
    }
    assert(idx_of_id(t2, t.id) == n) by {
        assert(t2[n].id == t.id);
        let i2 = idx_of_id(t2, t.id);
        assert(0 <= i2 < t2.len() && t2[i2].id == t.id);
        if i2 < n {
            assert(tasks[i2].id == t.id);
            assert(has_id(tasks, t.id));
        }
    }
    assert forall|j: int|
        0 <= j < tasks.len() implies is_root_todo(t2, #[trigger] tasks[j]) == is_root_todo(
        tasks,
        tasks[j],
    ) by {
        match tasks[j].parent_id {
            None => {},
            Some(p) => {
                assert(p != t.id);
            },
        }
    }
    assert(is_root_todo(t2, t) == is_root_todo(tasks, t)) by {
        match t.parent_id {
            None => {},
            Some(p) => {
                assert(p != t.id);
                if !has_id(tasks, p) {
                    assert(!has_id(t2, p));
                }
            },
        }
    }
    assert forall|j: int, fuel: nat|
        0 <= j < tasks.len() implies #[trigger] depth_of(t2, j, fuel) == depth_of(
        tasks,
        j,
        fuel,
    ) by {
        lemma_pushed_depth(tasks, t, j, fuel);
    }
    assert forall|j: int|
        0 <= j < t2.len() implies (#[trigger] depth_of(t2, j, t2.len() as nat)) is Some by {
        let m = t2.len() as nat;
        if j < n {
            assert(depth_of(t2, j, m) == depth_of(tasks, j, m));
            assert(depth_of(tasks, j, tasks.len() as nat) is Some);
            lemma_depth_fuel_mono(tasks, j, tasks.len() as nat, m);
        } else {
            assert(t2[j] == t);
            if is_root_todo(t2, t) {
            } else {
                let p = t.parent_id->0;
                assert(has_id(t2, p));
                assert(has_id(tasks, p)) by {
                    if !has_id(tasks, p) {
                        assert(p == t.id);
                    }
                }
                let q = idx_of_id(tasks, p);
                assert(0 <= q < tasks.len() && tasks[q].id == p);
                assert(idx_of_id(t2, p) == q);
                assert(depth_of(tasks, q, tasks.len() as nat) is Some);
                lemma_depth_fuel_mono(tasks, q, tasks.len() as nat, (m - 1) as nat);
                assert(depth_of(t2, q, (m - 1) as nat) == depth_of(tasks, q, (m - 1) as nat));
            }
        }
    }
}

proof fn lemma_pushed_depth(tasks: Seq<Todo>, t: Todo, j: int, fuel: nat)
    requires
        tree_input(tasks),
        !has_id(tasks, t.id),
        forall|j0: int| 0 <= j0 < tasks.len() ==> (#[trigger] tasks[j0]).parent_id != Some(t.id),
        0 <= j < tasks.len(),
    ensures
        depth_of(tasks.push(t), j, fuel) == depth_of(tasks, j, fuel),
    decreases fuel,
{
    let t2 = tasks.push(t);
    assert(t2[j] == tasks[j]);
    assert(is_root_todo(t2, tasks[j]) == is_root_todo(tasks, tasks[j])) by {
        match tasks[j].parent_id {
            None => {},
            Some(p) => {
                assert(p != t.id);
                if has_id(tasks, p) {
                    let w = choose|w: int| 0 <= w < tasks.len() && tasks[w].id == p;
                    assert(t2[w].id == p);
                }
                if has_id(t2, p) {
                    let w = choose|w: int| 0 <= w < t2.len() && t2[w].id == p;
                    if w == tasks.len() {
                        assert(t.id == p);
                    } else {
                        assert(tasks[w].id == p);
                    }
                }
            },
        }
    }
    if !is_root_todo(tasks, tasks[j]) && fuel > 0 {
        let p = tasks[j].parent_id->0;
        let q = idx_of_id(tasks, p);
        assert(0 <= q < tasks.len() && tasks[q].id == p);
        assert(t2[q].id == p);
        assert(idx_of_id(t2, p) == q) by {
            let i2 = idx_of_id(t2, p);
            assert(0 <= i2 < t2.len() && t2[i2].id == p);
            if i2 == tasks.len() {
                assert(t.id == p);
                assert(p != t.id);
            }
            assert(tasks[i2].id == p);
        }
        lemma_pushed_depth(tasks, t, q, (fuel - 1) as nat);
    }
}

/// How often a task occurs in a list.
pub open spec fn occ(s: Seq<Todo>, x: Todo) -> nat
    decreases s.len(),
{
    if s.len() == 0 {
        0
    } else {
        (if s[0] == x {
            1nat
        } else {
            0nat
        }) + occ(s.drop_first(), x)
    }
}

pub proof fn lemma_occ_concat(a: Seq<Todo>, b: Seq<Todo>, x: Todo)
    ensures
        occ(a + b, x) == occ(a, x) + occ(b, x),
    decreases a.len(),
{
    if a.len() == 0 {
        assert(a + b =~= b);
    } else {
        assert((a + b)[0] == a[0]);
        assert((a + b).drop_first() =~= a.drop_first() + b);
        lemma_occ_concat(a.drop_first(), b, x);
    }
}

pub proof fn lemma_occ_contains(s: Seq<Todo>, x: Todo)
    ensures
        (occ(s, x) > 0) <==> s.contains(x),
    decreases s.len(),
{
    if s.len() > 0 {
        lemma_occ_contains(s.drop_first(), x);
        if s[0] == x {
        } else if s.drop_first().contains(x) {
            let w = choose|w: int| 0 <= w < s.drop_first().len() && s.drop_first()[w] == x;
            assert(s[w + 1] == x);
        } else if s.contains(x) {
            let w = choose|w: int| 0 <= w < s.len() && s[w] == x;
            assert(s.drop_first()[w - 1] == x);
        }
    }
}

proof fn lemma_occ_last(s: Seq<Todo>, x: Todo)
    requires
        s.len() > 0,
    ensures
        occ(s, x) == occ(s.drop_last(), x) + (if s.last() == x {
            1nat
        } else {
            0nat
        }),
{
    assert(s =~= s.drop_last() + seq![s.last()]);
    lemma_occ_concat(s.drop_last(), seq![s.last()], x);
    assert(seq![s.last()].drop_first() =~= Seq::<Todo>::empty());
    assert(seq![s.last()][0] == s.last());
    assert(occ(seq![s.last()], x) == (if s.last() == x {
        1nat
    } else {
        0nat
    }) + occ(seq![s.last()].drop_first(), x));
}

/// A repeated element occurs at least twice.
pub proof fn lemma_occ_dup(s: Seq<Todo>, i: int, j: int)
    requires
        0 <= i < j < s.len(),
        s[i] == s[j],
    ensures
        occ(s, s[i]) >= 2,
{
    let x = s[i];
    assert(s =~= s.take(j) + s.skip(j));
    lemma_occ_concat(s.take(j), s.skip(j), x);
    assert(s.take(j)[i] == x);
    assert(s.take(j).contains(x));
    lemma_occ_contains(s.take(j), x);
    assert(s.skip(j)[0] == x);
    assert(s.skip(j).contains(x));
    lemma_occ_contains(s.skip(j), x);
}

/// With unique ids, every task occurs at most once.
pub proof fn lemma_occ_unique(tasks: Seq<Todo>, x: Todo)
    requires
        unique_ids(tasks),
    ensures
        occ(tasks, x) == if tasks.contains(x) {
            1nat
        } else {
            0nat
        },
    decreases tasks.len(),
{
    lemma_occ_contains(tasks, x);
    if tasks.len() > 0 {
        lemma_occ_last(tasks, x);
        assert(unique_ids(tasks.drop_last())) by {
            assert(forall|i: int|
                0 <= i < tasks.drop_last().len() ==> tasks.drop_last()[i] == tasks[i]);
        }
        lemma_occ_unique(tasks.drop_last(), x);
        lemma_occ_contains(tasks.drop_last(), x);
        if tasks.last() == x {
            if tasks.drop_last().contains(x) {
                let w = choose|w: int|
                    0 <= w < tasks.drop_last().len() && tasks.drop_last()[w] == x;
                assert(tasks[w].id == tasks[tasks.len() - 1].id);
                assert(false);
            }
        } else {
            if tasks.contains(x) {
                let w = choose|w: int| 0 <= w < tasks.len() && tasks[w] == x;
                assert(tasks.drop_last()[w] == x);
            }
        }
    }
}

/// The children filter keeps no more copies than the input has.
pub proof fn lemma_occ_children_of_le(tasks: Seq<Todo>, pid: i64, x: Todo)
    ensures
        occ(children_of(tasks, pid), x) <= occ(tasks, x),
    decreases tasks.len(),
{
    if tasks.len() > 0 {
        lemma_occ_children_of_le(tasks.drop_last(), pid, x);
        lemma_occ_last(tasks, x);
        if tasks.last().parent_id == Some(pid) {
            lemma_occ_last(children_of(tasks, pid), x);
            assert(children_of(tasks, pid).drop_last() =~= children_of(tasks.drop_last(), pid));
        }
    }
}

/// The roots filter keeps no more copies than the input has.
pub proof fn lemma_occ_roots_of_le(sub: Seq<Todo>, all: Seq<Todo>, x: Todo)
    ensures
        occ(roots_of(sub, all), x) <= occ(sub, x),
    decreases sub.len(),
{
    if sub.len() > 0 {
        lemma_occ_roots_of_le(sub.drop_last(), all, x);
        lemma_occ_last(sub, x);
        if is_root_todo(all, sub.last()) {
            lemma_occ_last(roots_of(sub, all), x);
            assert(roots_of(sub, all).drop_last() =~= roots_of(sub.drop_last(), all));
        }
    }
}

/// The depth of the task at index `j`: 0 for a root, one more than its
/// parent's depth otherwise; `None` when `fuel` steps do not reach a root.
pub open spec fn depth_of(tasks: Seq<Todo>, j: int, fuel: nat) -> Option<nat>
    decreases fuel,
{
    if !(0 <= j < tasks.len()) {
        None
    } else if is_root_todo(tasks, tasks[j]) {
        Some(0)
    } else if fuel == 0 {
        None
    } else {
        match depth_of(tasks, idx_of_id(tasks, tasks[j].parent_id->0), (fuel - 1) as nat) {
            Some(d) => Some((d + 1) as nat),
            None => None,
        }
    }
}

/// A well-shaped input: ids unique, and every parent chain reaches a root.
/// Orphans count as roots, so only a cyclic parent chain is excluded.
pub open spec fn tree_input(tasks: Seq<Todo>) -> bool {
    &&& unique_ids(tasks)
    &&& forall|j: int|
        0 <= j < tasks.len() ==> (#[trigger] depth_of(tasks, j, tasks.len() as nat)) is Some
}

/// The depth of the task at index `j` under a full-length fuel bound.
pub open spec fn depth_at(tasks: Seq<Todo>, j: int) -> nat {
    depth_of(tasks, j, tasks.len() as nat)->0
}

/// A defined depth never exceeds the fuel that established it.
pub proof fn lemma_depth_le_fuel(tasks: Seq<Todo>, j: int, fuel: nat)
    requires
        depth_of(tasks, j, fuel) is Some,
    ensures
        depth_of(tasks, j, fuel)->0 <= fuel,
    decreases fuel,
{
    if 0 <= j < tasks.len() && !is_root_todo(tasks, tasks[j]) && fuel > 0 {
        lemma_depth_le_fuel(tasks, idx_of_id(tasks, tasks[j].parent_id->0), (fuel - 1) as nat);
    }
}

/// A depth established with some fuel stays the same with more fuel.
pub proof fn lemma_depth_fuel_mono(tasks: Seq<Todo>, j: int, f1: nat, f2: nat)
    requires
        depth_of(tasks, j, f1) is Some,
        f1 <= f2,
    ensures
        depth_of(tasks, j, f2) == depth_of(tasks, j, f1),
    decreases f1,
{
    if 0 <= j < tasks.len() && !is_root_todo(tasks, tasks[j]) && f1 > 0 {
        lemma_depth_fuel_mono(
            tasks,
            idx_of_id(tasks, tasks[j].parent_id->0),
            (f1 - 1) as nat,
            (f2 - 1) as nat,
        );
    }
}

/// In a well-shaped input, a child sits one level below its parent.
pub proof fn lemma_depth_child(tasks: Seq<Todo>, k: int, c: int)
    requires
        tree_input(tasks),
        0 <= k < tasks.len(),
        0 <= c < tasks.len(),
        tasks[c].parent_id == Some(tasks[k].id),
    ensures
        depth_at(tasks, c) == depth_at(tasks, k) + 1,
{
    let n = tasks.len() as nat;
    lemma_idx_of_id(tasks, k);
    assert(has_id(tasks, tasks[k].id));
    assert(!is_root_todo(tasks, tasks[c]));
    assert(depth_of(tasks, c, n) is Some);
    assert(n > 0);
    let dp = depth_of(tasks, k, (n - 1) as nat);
    assert(depth_of(tasks, c, n) == match dp {
        Some(d) => Some((d + 1) as nat),
        None => None,
    });
    assert(dp is Some);
    lemma_depth_fuel_mono(tasks, k, (n - 1) as nat, n);
}

} // verus!
