//! The flat task store and its cascade operations: deleting a task with
//! its whole descendant subtree, toggling a task and forcing the new state
//! onto its descendants, creating tasks with fresh ids, and the inclusive
//! date-range filter of listings.
//!
//! The store holds tasks with unique ids; descendants are found by walking
//! parent references, so a cascade covers the full transitive closure, not
//! just one level.

use vstd::prelude::*;
use crate::date::{date_is_le, date_le, TaskDate};
use crate::relation::{has_id, idx_of_id, lemma_idx_of_id, unique_ids};
use crate::task::{with_done, Error, Todo, TodoToSend};

verus! {

/// Whether the task at index `j` is the target with id `target`, or
/// descends from it through parent references, reached within `fuel` steps.
pub open spec fn in_subtree(tasks: Seq<Todo>, j: int, target: i64, fuel: nat) -> bool
    decreases fuel,
{
    if !(0 <= j < tasks.len()) {
        false
    } else if tasks[j].id == target {
        true
    } else if fuel == 0 {
        false
    } else {
        match tasks[j].parent_id {
            None => false,
            Some(p) => has_id(tasks, p) && in_subtree(
                tasks,
                idx_of_id(tasks, p),
                target,
                (fuel - 1) as nat,
            ),
        }
    }
}

/// The descendant closure: the task at index `j` is the target or reachable
/// from it by child edges. A parent chain in a store of `n` tasks that
/// reaches the target does so within `n` steps, so the fuel bound is the
/// store's size.
pub open spec fn in_closure(tasks: Seq<Todo>, j: int, target: i64) -> bool {
    in_subtree(tasks, j, target, tasks.len() as nat)
}

/// More fuel never loses a reachable target.
pub proof fn lemma_in_subtree_mono(tasks: Seq<Todo>, j: int, target: i64, f1: nat, f2: nat)
    requires
        in_subtree(tasks, j, target, f1),
        f1 <= f2,
    ensures
        in_subtree(tasks, j, target, f2),
    decreases f1,
{
    if 0 <= j < tasks.len() && tasks[j].id != target {
        lemma_in_subtree_mono(
            tasks,
            idx_of_id(tasks, tasks[j].parent_id->0),
            target,
            (f1 - 1) as nat,
            (f2 - 1) as nat,
        );
    }
}

/// Walking up to a target only ever moves to smaller depths: a member of a
/// subtree sits at least as deep as the subtree's top, strictly deeper
/// unless it is the top itself.
pub proof fn lemma_in_subtree_depth(tasks: Seq<Todo>, j: int, target: i64, fuel: nat)
    requires
        crate::relation::tree_input(tasks),
        in_subtree(tasks, j, target, fuel),
    ensures
        has_id(tasks, target),
        crate::relation::depth_at(tasks, j) >= crate::relation::depth_at(
            tasks,
            idx_of_id(tasks, target),
        ),
        j != idx_of_id(tasks, target) ==> crate::relation::depth_at(tasks, j)
            > crate::relation::depth_at(tasks, idx_of_id(tasks, target)),
    decreases fuel,
{
    if tasks[j].id == target {
        lemma_idx_of_id(tasks, j);
    } else {
        let p = tasks[j].parent_id->0;
        let q = idx_of_id(tasks, p);
        assert(0 <= q < tasks.len() && tasks[q].id == p);
        crate::relation::lemma_depth_child(tasks, q, j);
        lemma_in_subtree_depth(tasks, q, target, (fuel - 1) as nat);
        assert(tasks[j].id != tasks[idx_of_id(tasks, target)].id);
    }
}

/// A reachable target is reachable within the walker's own depth.
pub proof fn lemma_in_subtree_compress(tasks: Seq<Todo>, j: int, target: i64, fuel: nat)
    requires
        crate::relation::tree_input(tasks),
        in_subtree(tasks, j, target, fuel),
    ensures
        in_subtree(tasks, j, target, crate::relation::depth_at(tasks, j)),
    decreases fuel,
{
    if 0 <= j < tasks.len() && tasks[j].id != target {
        let p = tasks[j].parent_id->0;
        let q = idx_of_id(tasks, p);
        assert(0 <= q < tasks.len() && tasks[q].id == p);
        crate::relation::lemma_depth_child(tasks, q, j);
        lemma_in_subtree_compress(tasks, q, target, (fuel - 1) as nat);
    }
}

/// Reachability with any fuel is reachability in the closure.
pub proof fn lemma_in_closure_any(tasks: Seq<Todo>, j: int, target: i64, fuel: nat)
    requires
        crate::relation::tree_input(tasks),
        in_subtree(tasks, j, target, fuel),
    ensures
        in_closure(tasks, j, target),
{
    lemma_in_subtree_compress(tasks, j, target, fuel);
    let d = crate::relation::depth_at(tasks, j);
    crate::relation::lemma_depth_le_fuel(tasks, j, tasks.len() as nat);
    lemma_in_subtree_mono(tasks, j, target, d, tasks.len() as nat);
}

/// A child belongs to every closure its parent belongs to.
pub proof fn lemma_in_subtree_step(tasks: Seq<Todo>, j: int, q: int, target: i64)
    requires
        crate::relation::tree_input(tasks),
        0 <= j < tasks.len(),
        0 <= q < tasks.len(),
        tasks[j].parent_id == Some(tasks[q].id),
        in_closure(tasks, q, target),
    ensures
        in_closure(tasks, j, target),
{
    if tasks[j].id != target {
        lemma_idx_of_id(tasks, q);
        assert(has_id(tasks, tasks[q].id));
        lemma_in_subtree_compress(tasks, q, target, tasks.len() as nat);
        let dq = crate::relation::depth_at(tasks, q);
        assert(in_subtree(tasks, j, target, dq + 1)) by {
            assert(idx_of_id(tasks, tasks[j].parent_id->0) == q);
        }
        lemma_in_closure_any(tasks, j, target, dq + 1);
    } else {
        lemma_in_subtree_mono(tasks, j, target, 0, tasks.len() as nat);
    }
}

/// One parent chain: of any two subtree tops above the same task, one
/// contains the other.
pub proof fn lemma_chain_linear(tasks: Seq<Todo>, j: int, a: i64, b: i64, fa: nat, fb: nat)
    requires
        crate::relation::tree_input(tasks),
        in_subtree(tasks, j, a, fa),
        in_subtree(tasks, j, b, fb),
    ensures
        in_closure(tasks, idx_of_id(tasks, a), b) || in_closure(tasks, idx_of_id(tasks, b), a),
    decreases fa,
{
    if tasks[j].id == a {
        lemma_idx_of_id(tasks, j);
        lemma_in_closure_any(tasks, j, b, fb);
    } else if tasks[j].id == b {
        lemma_idx_of_id(tasks, j);
        lemma_in_closure_any(tasks, j, a, fa);
    } else {
        let p = tasks[j].parent_id->0;
        let q = idx_of_id(tasks, p);
        lemma_chain_linear(tasks, q, a, b, (fa - 1) as nat, (fb - 1) as nat);
    }
}

/// A strict member of a subtree lies in the closure of one of the top's
/// direct children.
pub proof fn lemma_chain_through_child(tasks: Seq<Todo>, j: int, pid: i64, fuel: nat)
    requires
        crate::relation::tree_input(tasks),
        in_subtree(tasks, j, pid, fuel),
        tasks[j].id != pid,
    ensures
        exists|c: int|
            0 <= c < tasks.len() && (#[trigger] tasks[c]).parent_id == Some(pid) && in_closure(
                tasks,
                j,
                tasks[c].id,
            ),
    decreases fuel,
{
    let p = tasks[j].parent_id->0;
    let q = idx_of_id(tasks, p);
    assert(0 <= q < tasks.len() && tasks[q].id == p);
    if tasks[q].id == pid {
        assert(in_subtree(tasks, j, tasks[j].id, 0));
        lemma_in_subtree_mono(tasks, j, tasks[j].id, 0, tasks.len() as nat);
        assert(tasks[j].parent_id == Some(pid) && in_closure(tasks, j, tasks[j].id));
    } else {
        lemma_chain_through_child(tasks, q, pid, (fuel - 1) as nat);
        let c = choose|c: int|
            0 <= c < tasks.len() && (#[trigger] tasks[c]).parent_id == Some(pid) && in_closure(
                tasks,
                q,
                tasks[c].id,
            );
        lemma_in_subtree_step(tasks, j, q, tasks[c].id);
    }
}

/// A subtree's closure extends to the subtree top's own parent's closure.
proof fn lemma_closure_extend_top(tasks: Seq<Todo>, jx: int, w: int, fuel: nat)
    requires
        crate::relation::tree_input(tasks),
        in_subtree(tasks, jx, tasks[w].id, fuel),
        0 <= w < tasks.len(),
        tasks[w].parent_id is Some,
        has_id(tasks, tasks[w].parent_id->0),
    ensures
        in_closure(tasks, jx, tasks[w].parent_id->0),
    decreases fuel,
{
    let p = tasks[w].parent_id->0;
    if tasks[jx].id == tasks[w].id {
        assert(jx == w) by {
            lemma_idx_of_id(tasks, jx);
            lemma_idx_of_id(tasks, w);
        }
        if tasks[jx].id == p {
            lemma_in_subtree_mono(tasks, jx, p, 0, tasks.len() as nat);
        } else {
            let q = idx_of_id(tasks, p);
            assert(0 <= q < tasks.len() && tasks[q].id == p);
            assert(in_subtree(tasks, q, p, 0));
            assert(in_subtree(tasks, jx, p, 1));
            lemma_in_closure_any(tasks, jx, p, 1);
        }
    } else {
        let pj = tasks[jx].parent_id->0;
        let q = idx_of_id(tasks, pj);
        assert(0 <= q < tasks.len() && tasks[q].id == pj);
        lemma_closure_extend_top(tasks, q, w, (fuel - 1) as nat);
        lemma_in_subtree_step(tasks, jx, q, p);
    }
}

/// Every task lies in the closure of some root.
pub proof fn lemma_root_above(tasks: Seq<Todo>, jx: int)
    requires
        crate::relation::tree_input(tasks),
        0 <= jx < tasks.len(),
    ensures
        exists|r: int|
            0 <= r < tasks.len() && crate::relation::is_root_todo(tasks, #[trigger] tasks[r])
                && in_closure(tasks, jx, tasks[r].id),
    decreases crate::relation::depth_at(tasks, jx),
{
    if crate::relation::is_root_todo(tasks, tasks[jx]) {
        assert(in_subtree(tasks, jx, tasks[jx].id, 0));
        lemma_in_subtree_mono(tasks, jx, tasks[jx].id, 0, tasks.len() as nat);
        assert(0 <= jx < tasks.len() && crate::relation::is_root_todo(tasks, tasks[jx])
            && in_closure(tasks, jx, tasks[jx].id));
    } else {
        let p = tasks[jx].parent_id->0;
        let q = idx_of_id(tasks, p);
        assert(0 <= q < tasks.len() && tasks[q].id == p);
        crate::relation::lemma_depth_child(tasks, q, jx);
        lemma_root_above(tasks, q);
        let r = choose|r: int|
            0 <= r < tasks.len() && crate::relation::is_root_todo(tasks, #[trigger] tasks[r])
                && in_closure(tasks, q, tasks[r].id);
        lemma_in_subtree_step(tasks, jx, q, tasks[r].id);
    }
}

/// Whether the task at index `jx` lies in the closure of id `pid`, as a
/// count of zero or one.
pub open spec fn closure_ind(tasks: Seq<Todo>, jx: int, pid: i64) -> nat {
    if in_closure(tasks, jx, pid) {
        1nat
    } else {
        0nat
    }
}

/// The number of listed subtree tops whose closure holds the task at
/// index `jx`.
pub open spec fn sum_closures(tasks: Seq<Todo>, cs: Seq<Todo>, jx: int) -> nat
    decreases cs.len(),
{
    if cs.len() == 0 {
        0
    } else {
        closure_ind(tasks, jx, cs[0].id) + sum_closures(tasks, cs.drop_first(), jx)
    }
}

proof fn lemma_sum_zero(tasks: Seq<Todo>, cs: Seq<Todo>, jx: int)
    requires
        forall|i: int| 0 <= i < cs.len() ==> !in_closure(tasks, jx, (#[trigger] cs[i]).id),
    ensures
        sum_closures(tasks, cs, jx) == 0,
    decreases cs.len(),
{
    if cs.len() > 0 {
        assert forall|i: int|
            0 <= i < cs.drop_first().len() implies !in_closure(
            tasks,
            jx,
            (#[trigger] cs.drop_first()[i]).id,
        ) by {
            assert(cs.drop_first()[i] == cs[i + 1]);
        }
        lemma_sum_zero(tasks, cs.drop_first(), jx);
    }
}

pub proof fn lemma_sum_single(tasks: Seq<Todo>, cs: Seq<Todo>, jx: int, c: Todo)
    requires
        crate::relation::occ(cs, c) == 1,
        in_closure(tasks, jx, c.id),
        forall|i: int|
            0 <= i < cs.len() && (#[trigger] cs[i]) != c ==> !in_closure(tasks, jx, cs[i].id),
    ensures
        sum_closures(tasks, cs, jx) == 1,
    decreases cs.len(),
{
    assert(cs.len() > 0);
    let rest = cs.drop_first();
    if cs[0] == c {
        assert(crate::relation::occ(rest, c) == 0);
        crate::relation::lemma_occ_contains(rest, c);
        assert forall|i: int| 0 <= i < rest.len() implies !in_closure(
            tasks,
            jx,
            (#[trigger] rest[i]).id,
        ) by {
            assert(rest[i] == cs[i + 1]);
            if rest[i] == c {
                assert(rest.contains(rest[i]));
            }
        }
        lemma_sum_zero(tasks, rest, jx);
    } else {
        assert(crate::relation::occ(rest, c) == 1);
        assert forall|i: int|
            0 <= i < rest.len() && (#[trigger] rest[i]) != c implies !in_closure(
            tasks,
            jx,
            rest[i].id,
        ) by {
            assert(rest[i] == cs[i + 1]);
        }
        lemma_sum_single(tasks, rest, jx, c);
    }
}

/// Two distinct tasks at one level never share a subtree member: their
/// closures are disjoint.
pub proof fn lemma_same_depth_disjoint(tasks: Seq<Todo>, jx: int, wa: int, wb: int)
    requires
        crate::relation::tree_input(tasks),
        0 <= jx < tasks.len(),
        0 <= wa < tasks.len(),
        0 <= wb < tasks.len(),
        wa != wb,
        crate::relation::depth_at(tasks, wa) == crate::relation::depth_at(tasks, wb),
        in_closure(tasks, jx, tasks[wa].id),
    ensures
        !in_closure(tasks, jx, tasks[wb].id),
{
    if in_closure(tasks, jx, tasks[wb].id) {
        lemma_chain_linear(
            tasks,
            jx,
            tasks[wa].id,
            tasks[wb].id,
            tasks.len() as nat,
            tasks.len() as nat,
        );
        lemma_idx_of_id(tasks, wa);
        lemma_idx_of_id(tasks, wb);
        if in_closure(tasks, wa, tasks[wb].id) {
            lemma_in_subtree_depth(tasks, wa, tasks[wb].id, tasks.len() as nat);
        } else {
            lemma_in_subtree_depth(tasks, wb, tasks[wa].id, tasks.len() as nat);
        }
    }
}

/// Membership in a task's closure splits exactly: the task itself, or a
/// member of exactly one direct child's closure.
pub proof fn lemma_closure_partition(tasks: Seq<Todo>, k: int, jx: int)
    requires
        crate::relation::tree_input(tasks),
        0 <= k < tasks.len(),
        0 <= jx < tasks.len(),
    ensures
        closure_ind(tasks, jx, tasks[k].id) == (if jx == k {
            1nat
        } else {
            0nat
        }) + sum_closures(tasks, crate::relation::children_of(tasks, tasks[k].id), jx),
{
    let pid = tasks[k].id;
    let cs = crate::relation::children_of(tasks, pid);
    let n = tasks.len() as nat;
    crate::relation::lemma_children_of_members(tasks, pid);
    crate::relation::lemma_children_of_in_tasks(tasks, pid);
    lemma_idx_of_id(tasks, k);
    assert forall|i: int| 0 <= i < cs.len() implies ({
        let w = idx_of_id(tasks, (#[trigger] cs[i]).id);
        &&& 0 <= w < tasks.len()
        &&& tasks[w] == cs[i]
        &&& w != k
        &&& crate::relation::depth_at(tasks, w) == crate::relation::depth_at(tasks, k) + 1
    }) by {
        assert(tasks.contains(cs[i]));
        let w0 = choose|w0: int| 0 <= w0 < tasks.len() && tasks[w0] == cs[i];
        lemma_idx_of_id(tasks, w0);
        if cs[i].id == pid {
            assert(w0 == k);
            assert(tasks[k].parent_id == Some(pid));
            assert(!crate::relation::is_root_todo(tasks, tasks[k])) by {
                assert(tasks[k].id == pid);
            }
            assert(crate::relation::depth_of(tasks, k, n) is Some);
            assert(idx_of_id(tasks, tasks[k].parent_id->0) == k);
            assert(n >= 1);
            let dk1 = crate::relation::depth_of(tasks, k, (n - 1) as nat);
            assert(crate::relation::depth_of(tasks, k, n) == match dk1 {
                Some(d) => Some((d + 1) as nat),
                None => None,
            });
            assert(dk1 is Some);
            crate::relation::lemma_depth_fuel_mono(tasks, k, (n - 1) as nat, n);
            assert(false);
        }
        crate::relation::lemma_depth_child(tasks, k, w0);
    }
    if jx == k {
        assert(in_subtree(tasks, k, pid, 0));
        lemma_in_subtree_mono(tasks, k, pid, 0, n);
        assert(closure_ind(tasks, jx, pid) == 1);
        assert forall|i: int| 0 <= i < cs.len() implies !in_closure(
            tasks,
            jx,
            (#[trigger] cs[i]).id,
        ) by {
            let w = idx_of_id(tasks, cs[i].id);
            if in_closure(tasks, k, tasks[w].id) {
                lemma_in_subtree_depth(tasks, k, tasks[w].id, n);
            }
        }
        lemma_sum_zero(tasks, cs, jx);
    } else {
        assert(tasks[jx].id != pid) by {
            if tasks[jx].id == pid {
                lemma_idx_of_id(tasks, jx);
            }
        }
        if in_closure(tasks, jx, pid) {
            lemma_chain_through_child(tasks, jx, pid, n);
            let cc = choose|cc: int|
                0 <= cc < tasks.len() && (#[trigger] tasks[cc]).parent_id == Some(pid)
                    && in_closure(tasks, jx, tasks[cc].id);
            let cval = tasks[cc];
            assert(cs.contains(cval));
            crate::relation::lemma_occ_children_of_le(tasks, pid, cval);
            crate::relation::lemma_occ_unique(tasks, cval);
            crate::relation::lemma_occ_contains(cs, cval);
            assert(crate::relation::occ(cs, cval) == 1);
            assert forall|i: int|
                0 <= i < cs.len() && (#[trigger] cs[i]) != cval implies !in_closure(
                tasks,
                jx,
                cs[i].id,
            ) by {
                let w = idx_of_id(tasks, cs[i].id);
                let wc = idx_of_id(tasks, cval.id);
                lemma_idx_of_id(tasks, cc);
                assert(wc == cc);
                assert(w != cc) by {
                    if w == cc {
                        assert(cs[i] == tasks[w]);
                    }
                }
                lemma_same_depth_disjoint(tasks, jx, cc, w);
            }
            lemma_sum_single(tasks, cs, jx, cval);
        } else {
            assert forall|i: int| 0 <= i < cs.len() implies !in_closure(
                tasks,
                jx,
                (#[trigger] cs[i]).id,
            ) by {
                let w = idx_of_id(tasks, cs[i].id);
                if in_closure(tasks, jx, tasks[w].id) {
                    lemma_closure_extend_top(tasks, jx, w, n);
                }
            }
            lemma_sum_zero(tasks, cs, jx);
        }
    }
}

/// One task after a cascade toggle at `id`: forced to `state` when it lies
/// in the target's closure, untouched otherwise.
pub open spec fn toggle_elem(tasks: Seq<Todo>, t: Todo, id: i64, state: bool) -> Todo {
    if in_closure(tasks, idx_of_id(tasks, t.id), id) {
        with_done(t, state)
    } else {
        t
    }
}

/// The store after a cascade toggle at `id`: closure members forced to
/// `state`, everything else untouched.
pub open spec fn toggled_tasks(tasks: Seq<Todo>, id: i64, state: bool) -> Seq<Todo> {
    Seq::new(
        tasks.len(),
        |j: int|
            if in_closure(tasks, j, id) {
                with_done(tasks[j], state)
            } else {
                tasks[j]
            },
    )
}

pub proof fn lemma_toggled_tasks_pointwise(tasks: Seq<Todo>, id: i64, state: bool)
    requires
        unique_ids(tasks),
    ensures
        toggled_tasks(tasks, id, state).len() == tasks.len(),
        forall|j: int|
            0 <= j < tasks.len() ==> #[trigger] toggled_tasks(tasks, id, state)[j] == toggle_elem(
                tasks,
                tasks[j],
                id,
                state,
            ),
        forall|j: int|
            0 <= j < tasks.len() ==> (#[trigger] toggled_tasks(tasks, id, state)[j]).id
                == tasks[j].id && toggled_tasks(tasks, id, state)[j].parent_id
                == tasks[j].parent_id,
{
    assert forall|j: int|
        0 <= j < tasks.len() implies #[trigger] toggled_tasks(tasks, id, state)[j] == toggle_elem(
        tasks,
        tasks[j],
        id,
        state,
    ) by {
        lemma_idx_of_id(tasks, j);
    }
}

/// The cascade toggle changes no id, no parent reference, and no depth:
/// the shape facts of the store carry over unchanged.
pub proof fn lemma_toggled_tasks_shape(tasks: Seq<Todo>, id: i64, state: bool)
    requires
        crate::relation::tree_input(tasks),
    ensures
        crate::relation::tree_input(toggled_tasks(tasks, id, state)),
        forall|x: i64|
            has_id(toggled_tasks(tasks, id, state), x) == #[trigger] has_id(tasks, x),
        forall|x: i64|
            #[trigger] has_id(tasks, x) ==> idx_of_id(toggled_tasks(tasks, id, state), x)
                == idx_of_id(tasks, x),
{
    let t2 = toggled_tasks(tasks, id, state);
    assert forall|x: i64| has_id(t2, x) == #[trigger] has_id(tasks, x) by {
        if has_id(tasks, x) {
            let w = choose|w: int| 0 <= w < tasks.len() && tasks[w].id == x;
            assert(t2[w].id == x);
        }
        if has_id(t2, x) {
            let w = choose|w: int| 0 <= w < t2.len() && t2[w].id == x;
            assert(tasks[w].id == x);
        }
    }
    assert(crate::relation::unique_ids(t2));
    assert forall|x: i64| #[trigger] has_id(tasks, x) implies idx_of_id(t2, x) == idx_of_id(
        tasks,
        x,
    ) by {
        let w = choose|w: int| 0 <= w < tasks.len() && tasks[w].id == x;
        assert(t2[w].id == x);
        let i2 = idx_of_id(t2, x);
        assert(0 <= i2 < t2.len() && t2[i2].id == x);
        let i1 = idx_of_id(tasks, x);
        assert(0 <= i1 < tasks.len() && tasks[i1].id == x);
        assert(tasks[i2].id == x);
    }
    assert forall|j: int, fuel: nat|
        0 <= j < tasks.len() implies #[trigger] crate::relation::depth_of(t2, j, fuel)
        == crate::relation::depth_of(tasks, j, fuel) by {
        lemma_toggled_depth(tasks, id, state, j, fuel);
    }
    assert forall|j: int|
        0 <= j < t2.len() implies (#[trigger] crate::relation::depth_of(
        t2,
        j,
        t2.len() as nat,
    )) is Some by {
        assert(crate::relation::depth_of(t2, j, tasks.len() as nat) == crate::relation::depth_of(
            tasks,
            j,
            tasks.len() as nat,
        ));
    }
}

proof fn lemma_toggled_depth(tasks: Seq<Todo>, id: i64, state: bool, j: int, fuel: nat)
    requires
        crate::relation::tree_input(tasks),
        0 <= j < tasks.len(),
    ensures
        crate::relation::depth_of(toggled_tasks(tasks, id, state), j, fuel)
            == crate::relation::depth_of(tasks, j, fuel),
    decreases fuel,
{
    let t2 = toggled_tasks(tasks, id, state);
    assert(t2[j].parent_id == tasks[j].parent_id);
    assert(crate::relation::is_root_todo(t2, t2[j]) == crate::relation::is_root_todo(
        tasks,
        tasks[j],
    )) by {
        match tasks[j].parent_id {
            None => {},
            Some(p) => {
                if has_id(tasks, p) {
                    let w = choose|w: int| 0 <= w < tasks.len() && tasks[w].id == p;
                    assert(t2[w].id == p);
                }
                if has_id(t2, p) {
                    let w = choose|w: int| 0 <= w < t2.len() && t2[w].id == p;
                    assert(tasks[w].id == p);
                }
            },
        }
    }
    if !crate::relation::is_root_todo(tasks, tasks[j]) && fuel > 0 {
        let p = tasks[j].parent_id->0;
        let q = idx_of_id(tasks, p);
        assert(0 <= q < tasks.len() && tasks[q].id == p);
        assert(t2[q].id == p);
        let q2 = idx_of_id(t2, p);
        assert(0 <= q2 < t2.len() && t2[q2].id == p);
        assert(tasks[q2].id == p);
        assert(q2 == q);
        lemma_toggled_depth(tasks, id, state, q, (fuel - 1) as nat);
    }
}

/// The cascade toggle changes no closure: reachability is the same before
/// and after.
pub proof fn lemma_toggled_in_subtree(
    tasks: Seq<Todo>,
    id: i64,
    state: bool,
    j: int,
    target: i64,
    fuel: nat,
)
    requires
        crate::relation::tree_input(tasks),
    ensures
        in_subtree(toggled_tasks(tasks, id, state), j, target, fuel) == in_subtree(
            tasks,
            j,
            target,
            fuel,
        ),
    decreases fuel,
{
    let t2 = toggled_tasks(tasks, id, state);
    if 0 <= j < tasks.len() {
        assert(t2[j].id == tasks[j].id);
        assert(t2[j].parent_id == tasks[j].parent_id);
        if tasks[j].id != target && fuel > 0 {
            match tasks[j].parent_id {
                None => {},
                Some(p) => {
                    assert(has_id(t2, p) == has_id(tasks, p)) by {
                        if has_id(tasks, p) {
                            let w = choose|w: int| 0 <= w < tasks.len() && tasks[w].id == p;
                            assert(t2[w].id == p);
                        }
                        if has_id(t2, p) {
                            let w = choose|w: int| 0 <= w < t2.len() && t2[w].id == p;
                            assert(tasks[w].id == p);
                        }
                    }
                    if has_id(tasks, p) {
                        let q = idx_of_id(tasks, p);
                        assert(0 <= q < tasks.len() && tasks[q].id == p);
                        assert(t2[q].id == p);
                        let q2 = idx_of_id(t2, p);
                        assert(0 <= q2 < t2.len() && t2[q2].id == p);
                        assert(tasks[q2].id == p);
                        assert(q2 == q);
                        lemma_toggled_in_subtree(tasks, id, state, q, target, (fuel - 1) as nat);
                    }
                },
            }
        }
    }
}

/// The children filter commutes with the per-task toggle map.
pub proof fn lemma_children_of_mapped(
    tasks: Seq<Todo>,
    a: Seq<Todo>,
    b: Seq<Todo>,
    pid: i64,
    id: i64,
    state: bool,
)
    requires
        b.len() == a.len(),
        forall|j: int| 0 <= j < a.len() ==> b[j] == toggle_elem(tasks, #[trigger] a[j], id, state),
    ensures
        crate::relation::children_of(b, pid).len() == crate::relation::children_of(a, pid).len(),
        forall|i: int|
            0 <= i < crate::relation::children_of(a, pid).len()
                ==> #[trigger] crate::relation::children_of(b, pid)[i] == toggle_elem(
                tasks,
                crate::relation::children_of(a, pid)[i],
                id,
                state,
            ),
    decreases a.len(),
{
    if a.len() > 0 {
        assert(b.drop_last().len() == a.drop_last().len());
        assert forall|j: int|
            0 <= j < a.drop_last().len() implies b.drop_last()[j] == toggle_elem(
            tasks,
            #[trigger] a.drop_last()[j],
            id,
            state,
        ) by {
            assert(a.drop_last()[j] == a[j]);
            assert(b.drop_last()[j] == b[j]);
        }
        lemma_children_of_mapped(tasks, a.drop_last(), b.drop_last(), pid, id, state);
        assert(b.last() == toggle_elem(tasks, a.last(), id, state)) by {
            assert(a[a.len() - 1] == a.last());
            assert(b[a.len() - 1] == b.last());
        }
        assert(b.last().parent_id == a.last().parent_id);
        let ca = crate::relation::children_of(a, pid);
        let cb = crate::relation::children_of(b, pid);
        if a.last().parent_id == Some(pid) {
            assert(ca == crate::relation::children_of(a.drop_last(), pid).push(a.last()));
            assert(cb == crate::relation::children_of(b.drop_last(), pid).push(b.last()));
        }
    }
}

/// The roots filter commutes with the per-task toggle map.
pub proof fn lemma_roots_of_mapped(
    tasks: Seq<Todo>,
    a: Seq<Todo>,
    b: Seq<Todo>,
    all_a: Seq<Todo>,
    all_b: Seq<Todo>,
    id: i64,
    state: bool,
)
    requires
        b.len() == a.len(),
        forall|j: int| 0 <= j < a.len() ==> b[j] == toggle_elem(tasks, #[trigger] a[j], id, state),
        forall|x: i64| #[trigger] has_id(all_b, x) == has_id(all_a, x),
    ensures
        crate::relation::roots_of(b, all_b).len() == crate::relation::roots_of(a, all_a).len(),
        forall|i: int|
            0 <= i < crate::relation::roots_of(a, all_a).len()
                ==> #[trigger] crate::relation::roots_of(b, all_b)[i] == toggle_elem(
                tasks,
                crate::relation::roots_of(a, all_a)[i],
                id,
                state,
            ),
    decreases a.len(),
{
    if a.len() > 0 {
        assert forall|j: int|
            0 <= j < a.drop_last().len() implies b.drop_last()[j] == toggle_elem(
            tasks,
            #[trigger] a.drop_last()[j],
            id,
            state,
        ) by {
            assert(a.drop_last()[j] == a[j]);
            assert(b.drop_last()[j] == b[j]);
        }
        lemma_roots_of_mapped(tasks, a.drop_last(), b.drop_last(), all_a, all_b, id, state);
        assert(b.last() == toggle_elem(tasks, a.last(), id, state)) by {
            assert(a[a.len() - 1] == a.last());
            assert(b[a.len() - 1] == b.last());
        }
        assert(b.last().parent_id == a.last().parent_id);
        assert(crate::relation::is_root_todo(all_b, b.last()) == crate::relation::is_root_todo(
            all_a,
            a.last(),
        ));
        let ra = crate::relation::roots_of(a, all_a);
        let rb = crate::relation::roots_of(b, all_b);
        if crate::relation::is_root_todo(all_a, a.last()) {
            assert(ra == crate::relation::roots_of(a.drop_last(), all_a).push(a.last()));
            assert(rb == crate::relation::roots_of(b.drop_last(), all_b).push(b.last()));
        }
    }
}

/// The first index holding the given id, if any task has it.
fn find_index_of_id(tasks: &Vec<Todo>, id: i64) -> (r: Option<usize>)
    ensures
        match r {
            Some(j) => j < tasks@.len() && tasks@[j as int].id == id,
            None => !has_id(tasks@, id),
        },
{
    let mut j: usize = 0;
    while j < tasks.len()
        invariant
            0 <= j <= tasks@.len(),
            forall|i: int| 0 <= i < j ==> (#[trigger] tasks@[i]).id != id,
        decreases tasks@.len() - j,
    {
        if tasks[j].id == id {
            return Some(j);
        }
        j += 1;
    }
    None
}

/// Whether the task at index `j` belongs to the target's subtree, walking
/// at most `fuel` parent references.
fn task_in_subtree(tasks: &Vec<Todo>, j: usize, target: i64, fuel: usize) -> (r: bool)
    requires
        j < tasks@.len(),
        unique_ids(tasks@),
    ensures
        r == in_subtree(tasks@, j as int, target, fuel as nat),
    decreases fuel,
{
    if tasks[j].id == target {
        true
    } else if fuel == 0 {
        false
    } else {
        match tasks[j].parent_id {
            None => false,
            Some(p) => {
                match find_index_of_id(tasks, p) {
                    None => false,
                    Some(pj) => {
                        proof {
                            lemma_idx_of_id(tasks@, pj as int);
                        }
                        task_in_subtree(tasks, pj, target, fuel - 1)
                    },
                }
            },
        }
    }
}

/// The first `n` tasks with the target's subtree removed, in order.
pub open spec fn remaining_prefix(all: Seq<Todo>, target: i64, n: int) -> Seq<Todo>
    decreases n,
{
    if n <= 0 {
        Seq::empty()
    } else {
        let rest = remaining_prefix(all, target, n - 1);
        if in_closure(all, n - 1, target) {
            rest
        } else {
            rest.push(all[n - 1])
        }
    }
}

/// The store with the target's subtree removed, in order.
pub open spec fn remaining_after_delete(all: Seq<Todo>, target: i64) -> Seq<Todo> {
    remaining_prefix(all, target, all.len() as int)
}

/// Deletes the task with id `target_id` and every task in its descendant
/// closure, in one pass; the remaining tasks keep their order. Fails with
/// `NotFound` exactly when no task has the id. The store is left untouched
/// on failure; the caller receives the full remaining list on success.
/// A storage-consistency failure — a cascade removing fewer rows than owed
/// — cannot arise here: the contract pins the removed set exactly, so that
/// error kind is left to stores that cannot give this guarantee.
pub fn delete_subtree(tasks: &Vec<Todo>, target_id: i64) -> (r: Result<Vec<Todo>, Error>)
    requires
        unique_ids(tasks@),
    ensures
        match r {
            Ok(remaining) => has_id(tasks@, target_id) && remaining@ == remaining_after_delete(
                tasks@,
                target_id,
            ),
            Err(e) => e == Error::NotFound && !has_id(tasks@, target_id),
        },
{
    match find_index_of_id(tasks, target_id) {
        None => Err(Error::NotFound),
        Some(_) => {
            let mut out: Vec<Todo> = Vec::new();
            let mut j: usize = 0;
            while j < tasks.len()
                invariant
                    0 <= j <= tasks@.len(),
                    unique_ids(tasks@),
                    out@ == remaining_prefix(tasks@, target_id, j as int),
                decreases tasks@.len() - j,
            {
                if !task_in_subtree(tasks, j, target_id, tasks.len()) {
                    out.push(tasks[j].clone());
                }
                j += 1;
            }
            Ok(out)
        },
    }
}

/// Flips the done flag of the task with id `target_id`, and forces every
/// task in its descendant closure to the same new value — descendants
/// inherit the target's new state, they do not flip their own. Returns the
/// target's new state; fails with `NotFound`, leaving the store untouched,
/// exactly when no task has the id.
pub fn toggle_subtree(tasks: &mut Vec<Todo>, target_id: i64) -> (r: Result<bool, Error>)
    requires
        unique_ids(old(tasks)@),
    ensures
        match r {
            Ok(new_state) => {
                &&& has_id(old(tasks)@, target_id)
                &&& new_state == !old(tasks)@[idx_of_id(old(tasks)@, target_id)].done
                &&& final(tasks)@ == toggled_tasks(old(tasks)@, target_id, new_state)
                &&& final(tasks)@.len() == old(tasks)@.len()
                &&& forall|j: int|
                    0 <= j < old(tasks)@.len() ==> #[trigger] final(tasks)@[j] == (if in_closure(
                        old(tasks)@,
                        j,
                        target_id,
                    ) {
                        with_done(old(tasks)@[j], new_state)
                    } else {
                        old(tasks)@[j]
                    })
            },
            Err(e) => e == Error::NotFound && !has_id(old(tasks)@, target_id) && final(tasks)@
                == old(tasks)@,
        },
{
    let ti = match find_index_of_id(tasks, target_id) {
        None => {
            return Err(Error::NotFound);
        },
        Some(ti) => ti,
    };
    proof {
        lemma_idx_of_id(tasks@, ti as int);
    }
    let new_state = !tasks[ti].done;
    let mut out: Vec<Todo> = Vec::new();
    let mut j: usize = 0;
    while j < tasks.len()
        invariant
            0 <= j <= tasks@.len(),
            unique_ids(tasks@),
            out@.len() == j,
            forall|i: int|
                0 <= i < j ==> #[trigger] out@[i] == (if in_closure(tasks@, i, target_id) {
                    with_done(tasks@[i], new_state)
                } else {
                    tasks@[i]
                }),
        decreases tasks@.len() - j,
    {
        let mut t = tasks[j].clone();
        if task_in_subtree(tasks, j, target_id, tasks.len()) {
            t.done = new_state;
        }
        out.push(t);
        j += 1;
    }
    proof {
        assert(out@ =~= toggled_tasks(tasks@, target_id, new_state));
    }
    *tasks = out;
    Ok(new_state)
}

/// Whether a task passes the inclusive date-range filter: with no bounds
/// everything passes; with any bound, only dated tasks within the bounds.
pub open spec fn date_in_range(
    t: Todo,
    date_less: Option<TaskDate>,
    date_more: Option<TaskDate>,
) -> bool {
    if date_less is None && date_more is None {
        true
    } else {
        &&& t.date is Some
        &&& (date_less matches Some(hi) ==> date_le(t.date->0, hi))
        &&& (date_more matches Some(lo) ==> date_le(lo, t.date->0))
    }
}

/// The first `n` tasks passing the date filter, in order.
pub open spec fn date_filtered_prefix(
    all: Seq<Todo>,
    date_less: Option<TaskDate>,
    date_more: Option<TaskDate>,
    n: int,
) -> Seq<Todo>
    decreases n,
{
    if n <= 0 {
        Seq::empty()
    } else {
        let rest = date_filtered_prefix(all, date_less, date_more, n - 1);
        if date_in_range(all[n - 1], date_less, date_more) {
            rest.push(all[n - 1])
        } else {
            rest
        }
    }
}

/// The tasks passing the date filter, in order.
pub open spec fn date_filtered(
    all: Seq<Todo>,
    date_less: Option<TaskDate>,
    date_more: Option<TaskDate>,
) -> Seq<Todo> {
    date_filtered_prefix(all, date_less, date_more, all.len() as int)
}

/// Lists the tasks within an inclusive date range: at most `date_less`,
/// at least `date_more`, both optional. With any bound set, undated tasks
/// are left out; with no bounds, the full list comes back, in order.
pub fn filter_todos_by_date(
    tasks: &Vec<Todo>,
    date_less: Option<TaskDate>,
    date_more: Option<TaskDate>,
) -> (r: Vec<Todo>)
    ensures
        r@ == date_filtered(tasks@, date_less, date_more),
{
    let mut out: Vec<Todo> = Vec::new();
    let mut j: usize = 0;
    while j < tasks.len()
        invariant
            0 <= j <= tasks@.len(),
            out@ == date_filtered_prefix(tasks@, date_less, date_more, j as int),
        decreases tasks@.len() - j,
    {
        let keep = match &tasks[j].date {
            Some(d) => {
                let hi_ok = match &date_less {
                    Some(hi) => date_is_le(d, hi),
                    None => true,
                };
                let lo_ok = match &date_more {
                    Some(lo) => date_is_le(lo, d),
                    None => true,
                };
                hi_ok && lo_ok
            },
            None => date_less.is_none() && date_more.is_none(),
        };
        if keep {
            out.push(tasks[j].clone());
        }
        j += 1;
    }
    out
}

/// An id strictly above every id in the store, for the next created task.
fn next_task_id(tasks: &Vec<Todo>) -> (id: i64)
    requires
        forall|j: int| 0 <= j < tasks@.len() ==> (#[trigger] tasks@[j]).id < i64::MAX,
    ensures
        forall|j: int| 0 <= j < tasks@.len() ==> (#[trigger] tasks@[j]).id < id,
{
    let mut max: i64 = 0;
    let mut j: usize = 0;
    while j < tasks.len()
        invariant
            0 <= j <= tasks@.len(),
            max < i64::MAX,
            forall|i: int| 0 <= i < j ==> (#[trigger] tasks@[i]).id <= max,
            forall|i: int| 0 <= i < tasks@.len() ==> (#[trigger] tasks@[i]).id < i64::MAX,
        decreases tasks@.len() - j,
    {
        if tasks[j].id > max {
            max = tasks[j].id;
        }
        j += 1;
    }
    max + 1
}

/// Creates a task from a creation request: the store assigns a fresh id
/// and a cleared done flag, and appends the task. The created row is
/// returned, as the caller sees it.
pub fn create_todo(tasks: &mut Vec<Todo>, payload: TodoToSend) -> (t: Todo)
    requires
        forall|j: int| 0 <= j < old(tasks)@.len() ==> (#[trigger] old(tasks)@[j]).id < i64::MAX,
    ensures
        final(tasks)@ == old(tasks)@.push(t),
        !has_id(old(tasks)@, t.id),
        t.name == payload.name,
        t.description == Some(payload.description),
        t.parent_id == payload.parent_id,
        t.date == payload.date,
        t.done == false,
        unique_ids(old(tasks)@) ==> unique_ids(final(tasks)@),
{
    let id = next_task_id(tasks);
    let t = Todo {
        id,
        name: payload.name,
        done: false,
        description: Some(payload.description),
        parent_id: payload.parent_id,
        date: payload.date,
    };
    let r = t.clone();
    tasks.push(t);
    proof {
        assert(!has_id(old(tasks)@, r.id));
        if unique_ids(old(tasks)@) {
            assert forall|i: int, j: int|
                0 <= i < j < final(tasks)@.len() implies final(tasks)@[i].id
                != final(tasks)@[j].id by {
                if j < old(tasks)@.len() {
                } else {
                    assert(final(tasks)@[j] == r);
                }
            }
        }
    }
    r
}

} // verus!
