//! The focus (target) subgraph: the tasks that must be finished to reach a
//! focus task, and the next task to work on inside it.
use vstd::prelude::*;
use crate::error::Error;
use crate::graph::{
    push_prereqs, contains_id, find_index, find_task_by_id, has_edge, is_path, is_topo_prefix, lemma_in_universe,
    lemma_nodup_subset_len, lemma_push_contains, lemma_task_by_id, lemma_task_ids_index,
    orderable, precedes, ready, task_by_id, task_ids, topo_sorted, topological_sort, universe,
};
use crate::models::{Dependency, Task, TaskStatus};

verus! {

/// `p` is a walk along dependency edges whose every step leaves a known task.
pub open spec fn task_path(tasks: Seq<Task>, deps: Seq<Dependency>, p: Seq<i64>) -> bool {
    &&& is_path(deps, p)
    &&& forall|i: int| 0 <= i < p.len() - 1 ==> #[trigger] task_by_id(tasks, p[i]) is Some
}

/// `b` is reached from `a` by following the prerequisites of known tasks.
pub open spec fn reaches(tasks: Seq<Task>, deps: Seq<Dependency>, a: i64, b: i64) -> bool {
    exists|p: Seq<i64>| #[trigger] task_path(tasks, deps, p) && p[0] == a && p.last() == b
}

/// `id` is a task that the focus `target` still needs: reached from the
/// focus and not completed.
pub open spec fn focus_open(tasks: Seq<Task>, deps: Seq<Dependency>, target: i64, id: i64) -> bool {
    &&& reaches(tasks, deps, target, id)
    &&& task_by_id(tasks, id) is Some
    &&& task_by_id(tasks, id)->0.status != TaskStatus::Completed
}

/// `c` holds every prerequisite of each of its members that is a known task.
pub open spec fn closed_for_tasks(tasks: Seq<Task>, deps: Seq<Dependency>, c: Seq<i64>) -> bool {
    forall|k: int|
        0 <= k < deps.len() && c.contains(#[trigger] deps[k].task_id) && task_by_id(
            tasks,
            deps[k].task_id,
        ) is Some ==> c.contains(deps[k].depends_on)
}

pub proof fn lemma_reaches_refl(tasks: Seq<Task>, deps: Seq<Dependency>, a: i64)
    ensures
        reaches(tasks, deps, a, a),
{
    let p = seq![a];
    assert(is_path(deps, p));
    assert(task_path(tasks, deps, p));
    assert(p[0] == a && p.last() == a);
}

pub proof fn lemma_reaches_step(tasks: Seq<Task>, deps: Seq<Dependency>, a: i64, x: i64, k: int)
    requires
        reaches(tasks, deps, a, x),
        task_by_id(tasks, x) is Some,
        0 <= k < deps.len(),
        deps[k].task_id == x,
    ensures
        reaches(tasks, deps, a, deps[k].depends_on),
{
    let p = choose|p: Seq<i64>| #[trigger] task_path(tasks, deps, p) && p[0] == a && p.last() == x;
    let q = p.push(deps[k].depends_on);
    assert forall|i: int| 0 <= i < q.len() - 1 implies #[trigger] has_edge(deps, q[i], q[i + 1]) by {
        if i < p.len() - 1 {
            assert(q[i] == p[i] && q[i + 1] == p[i + 1]);
        } else {
            assert(q[i] == x);
        }
    }
    assert forall|i: int| 0 <= i < q.len() - 1 implies #[trigger] task_by_id(tasks, q[i]) is Some by {
        if i < p.len() - 1 {
            assert(q[i] == p[i]);
        } else {
            assert(q[i] == x);
        }
    }
    assert(task_path(tasks, deps, q));
    assert(q[0] == a && q.last() == deps[k].depends_on);
}

pub proof fn lemma_closed_task_path(tasks: Seq<Task>, deps: Seq<Dependency>, c: Seq<i64>, p: Seq<i64>)
    requires
        closed_for_tasks(tasks, deps, c),
        task_path(tasks, deps, p),
        c.contains(p[0]),
    ensures
        c.contains(p.last()),
    decreases p.len(),
{
    if p.len() > 1 {
        let q = p.drop_last();
        assert forall|i: int| 0 <= i < q.len() - 1 implies #[trigger] has_edge(deps, q[i], q[i + 1]) by {
            assert(has_edge(deps, p[i], p[i + 1]));
        }
        assert forall|i: int| 0 <= i < q.len() - 1 implies #[trigger] task_by_id(tasks, q[i]) is Some by {
            assert(task_by_id(tasks, p[i]) is Some);
        }
        lemma_closed_task_path(tasks, deps, c, q);
        let j = p.len() - 2;
        assert(has_edge(deps, p[j], p[j + 1]));
        assert(task_by_id(tasks, p[j]) is Some);
        let k = choose|k: int|
            0 <= k < deps.len() && deps[k].task_id == p[j] && deps[k].depends_on == p[j + 1];
        assert(c.contains(deps[k].task_id));
    }
}

pub proof fn lemma_closed_reaches(tasks: Seq<Task>, deps: Seq<Dependency>, c: Seq<i64>, a: i64, b: i64)
    requires
        closed_for_tasks(tasks, deps, c),
        c.contains(a),
        reaches(tasks, deps, a, b),
    ensures
        c.contains(b),
{
    let p = choose|p: Seq<i64>| #[trigger] task_path(tasks, deps, p) && p[0] == a && p.last() == b;
    lemma_closed_task_path(tasks, deps, c, p);
}

/// The state of the walk from a focus: the ids visited, the tasks kept, and
/// the stack.
pub type FocusWalk = (Seq<i64>, Seq<Task>, Seq<i64>);

/// One step of the walk from a focus: pop an id; an id seen before is
/// dropped; a new one is visited and, when it names a task, that task is
/// kept unless completed and its unvisited prerequisites are pushed in edge
/// order. An empty stack stays as it is.
pub open spec fn focus_walk_step(tasks: Seq<Task>, deps: Seq<Dependency>, st: FocusWalk) -> FocusWalk {
    if st.2.len() == 0 {
        st
    } else {
        let cur = st.2.last();
        let rest = st.2.drop_last();
        if st.0.contains(cur) {
            (st.0, st.1, rest)
        } else {
            let v = st.0.push(cur);
            match task_by_id(tasks, cur) {
                Some(t) => (
                    v,
                    if t.status != TaskStatus::Completed {
                        st.1.push(t)
                    } else {
                        st.1
                    },
                    push_prereqs(deps, cur, v, Seq::empty(), rest, deps.len() as int).1,
                ),
                None => (v, st.1, rest),
            }
        }
    }
}

/// The walk from `target` after `n` steps.
pub open spec fn focus_walk(tasks: Seq<Task>, deps: Seq<Dependency>, target: i64, n: nat) -> FocusWalk
    decreases n,
{
    if n == 0 {
        (Seq::empty(), Seq::empty(), seq![target])
    } else {
        focus_walk_step(tasks, deps, focus_walk(tasks, deps, target, (n - 1) as nat))
    }
}

/// The tasks the walk from `target` keeps, in the order it keeps them,
/// once its stack is empty.
pub open spec fn focus_subgraph(tasks: Seq<Task>, deps: Seq<Dependency>, target: i64) -> Seq<Task> {
    focus_walk(tasks, deps, target, choose|n: nat| #[trigger] focus_walk(tasks, deps, target, n).2.len() == 0).1
}

proof fn lemma_focus_walk_stays(tasks: Seq<Task>, deps: Seq<Dependency>, target: i64, n: nat, m: nat)
    requires
        focus_walk(tasks, deps, target, n).2.len() == 0,
        n <= m,
    ensures
        focus_walk(tasks, deps, target, m) == focus_walk(tasks, deps, target, n),
    decreases m - n,
{
    if m > n {
        lemma_focus_walk_stays(tasks, deps, target, n, (m - 1) as nat);
    }
}

proof fn lemma_focus_subgraph(tasks: Seq<Task>, deps: Seq<Dependency>, target: i64, n: nat)
    requires
        focus_walk(tasks, deps, target, n).2.len() == 0,
    ensures
        focus_subgraph(tasks, deps, target) == focus_walk(tasks, deps, target, n).1,
{
    let m = choose|m: nat| #[trigger] focus_walk(tasks, deps, target, m).2.len() == 0;
    assert(focus_walk(tasks, deps, target, m).2.len() == 0);
    if m <= n {
        lemma_focus_walk_stays(tasks, deps, target, m, n);
    } else {
        lemma_focus_walk_stays(tasks, deps, target, n, m);
    }
}

/// The tasks that the focus `target_id` still needs: every task reached from
/// it through known tasks, the focus included, that is not completed; each
/// once, as the last task with its id in `tasks`.
pub fn compute_target_subgraph(target_id: i64, tasks: &Vec<Task>, deps: &[Dependency]) -> (r: Vec<Task>)
    ensures
        r@ == focus_subgraph(tasks@, deps@, target_id),
        task_ids(r@).no_duplicates(),
        forall|i: int|
            0 <= i < r@.len() ==> task_by_id(tasks@, (#[trigger] r@[i]).id) == Some(r@[i])
                && focus_open(tasks@, deps@, target_id, r@[i].id),
        forall|id: i64|
            focus_open(tasks@, deps@, target_id, id) ==> #[trigger] task_ids(r@).contains(id),
{
    let ghost u = universe(deps@, target_id);
    let mut visited: Vec<i64> = Vec::new();
    let mut result: Vec<Task> = Vec::new();
    let mut stack: Vec<i64> = Vec::new();
    stack.push(target_id);
    let ghost mut steps: nat = 0;
    proof {
        assert(visited@ =~= Seq::<i64>::empty());
        assert(result@ =~= Seq::<Task>::empty());
        assert(stack@ =~= seq![target_id]);
        lemma_reaches_refl(tasks@, deps@, target_id);
        assert(u[0] == target_id);
        assert(task_ids(result@) =~= Seq::<i64>::empty());
    }
    while stack.len() > 0
        invariant
            u == universe(deps@, target_id),
            (visited@, result@, stack@) == focus_walk(tasks@, deps@, target_id, steps),
            visited@.no_duplicates(),
            task_ids(result@).no_duplicates(),
            forall|i: int|
                0 <= i < result@.len() ==> task_by_id(tasks@, (#[trigger] result@[i]).id) == Some(
                    result@[i],
                ) && focus_open(tasks@, deps@, target_id, result@[i].id),
            forall|x: i64| #[trigger]
                task_ids(result@).contains(x) ==> visited@.contains(x),
            forall|x: i64|
                #[trigger] visited@.contains(x) && task_by_id(tasks@, x) is Some && task_by_id(
                    tasks@,
                    x,
                )->0.status != TaskStatus::Completed ==> task_ids(result@).contains(x),
            forall|x: i64| #[trigger]
                visited@.contains(x) ==> u.contains(x) && reaches(tasks@, deps@, target_id, x),
            forall|x: i64| #[trigger]
                stack@.contains(x) ==> u.contains(x) && reaches(tasks@, deps@, target_id, x),
            visited@.contains(target_id) || (visited@.len() == 0 && stack@ == seq![target_id]),
            forall|k: int|
                0 <= k < deps@.len() && visited@.contains(#[trigger] deps@[k].task_id) && task_by_id(
                    tasks@,
                    deps@[k].task_id,
                ) is Some ==> (visited@.contains(deps@[k].depends_on) || stack@.contains(
                    deps@[k].depends_on,
                )),
        decreases u.len() - visited@.len(), stack@.len(),
    {
        let ghost before_pop = stack@;
        let current = stack.pop().unwrap();
        let ghost popped = stack@;
        assert(before_pop =~= popped.push(current));
        assert(before_pop[popped.len() as int] == current);
        assert(before_pop.contains(current));
        assert forall|x: i64| #[trigger] popped.contains(x) implies before_pop.contains(x) by {
            lemma_push_contains(popped, current, x);
        }
        assert(before_pop.last() == current);
        assert(before_pop.drop_last() =~= popped);
        if !contains_id(&visited, current) {
            let ghost old_visited = visited@;
            let ghost old_result = result@;
            visited.push(current);
            proof {
                assert forall|x: i64| visited@.contains(x) implies u.contains(x) && reaches(
                    tasks@,
                    deps@,
                    target_id,
                    x,
                ) by {
                    lemma_push_contains(old_visited, current, x);
                }
                lemma_push_contains(old_visited, current, target_id);
                if old_visited.len() == 0 {
                    assert(popped.len() == 0);
                    assert(current == target_id);
                }
                lemma_nodup_subset_len(visited@, u);
                assert forall|x: i64| #[trigger] task_ids(result@).contains(x) implies visited@.contains(x) by {
                    lemma_push_contains(old_visited, current, x);
                }
            }
            let found = find_task_by_id(tasks, current);
            match found {
                Some(task) => {
                    if task.status != TaskStatus::Completed {
                        proof {
                            assert(!task_ids(old_result).contains(current));
                            lemma_task_by_id(tasks@, current);
                        }
                        result.push(task.clone());
                        proof {
                            assert(task_ids(result@) =~= task_ids(old_result).push(current));
                            assert forall|a: int, b: int|
                                0 <= a < b < task_ids(result@).len() implies task_ids(result@)[a]
                                != task_ids(result@)[b] by {
                                if b == old_result.len() {
                                    assert(task_ids(result@)[a] == task_ids(old_result)[a]);
                                    assert(task_ids(old_result).contains(task_ids(result@)[a]));
                                } else {
                                    assert(task_ids(result@)[a] == task_ids(old_result)[a]);
                                    assert(task_ids(result@)[b] == task_ids(old_result)[b]);
                                }
                            }
                            assert forall|i: int|
                                0 <= i < result@.len() implies task_by_id(
                                    tasks@,
                                    (#[trigger] result@[i]).id,
                                ) == Some(result@[i]) && focus_open(
                                    tasks@,
                                    deps@,
                                    target_id,
                                    result@[i].id,
                                ) by {
                                if i < old_result.len() {
                                    assert(result@[i] == old_result[i]);
                                }
                            }
                            assert forall|x: i64| #[trigger] task_ids(result@).contains(x) implies visited@.contains(x) by {
                                lemma_push_contains(task_ids(old_result), current, x);
                                lemma_push_contains(old_visited, current, x);
                            }
                            assert forall|x: i64|
                                #[trigger] visited@.contains(x) && task_by_id(tasks@, x) is Some
                                    && task_by_id(tasks@, x)->0.status != TaskStatus::Completed implies task_ids(
                                result@,
                            ).contains(x) by {
                                lemma_push_contains(task_ids(old_result), current, x);
                                lemma_push_contains(old_visited, current, x);
                            }
                        }
                    } else {
                        proof {
                            assert forall|x: i64|
                                #[trigger] visited@.contains(x) && task_by_id(tasks@, x) is Some
                                    && task_by_id(tasks@, x)->0.status != TaskStatus::Completed implies task_ids(
                                result@,
                            ).contains(x) by {
                                lemma_push_contains(old_visited, current, x);
                            }
                        }
                    }
                    proof {
                        lemma_push_contains(old_visited, current, current);
                    }
                    let ghost kept = result@;
                    let mut k: usize = 0;
                    while k < deps.len()
                        invariant
                            u == universe(deps@, target_id),
                            stack@ == push_prereqs(deps@, current, visited@, Seq::empty(), popped, k as int).1,
                            result@ == kept,
                            visited@ == old_visited.push(current),
                            k <= deps@.len(),
                            visited@.contains(current),
                            task_by_id(tasks@, current) is Some,
                            reaches(tasks@, deps@, target_id, current),
                            stack@.len() >= popped.len(),
                            stack@.subrange(0, popped.len() as int) == popped,
                            forall|x: i64| #[trigger]
                                stack@.contains(x) ==> u.contains(x) && reaches(
                                    tasks@,
                                    deps@,
                                    target_id,
                                    x,
                                ),
                            forall|j: int|
                                0 <= j < k && deps@[j].task_id == current ==> visited@.contains(
                                    #[trigger] deps@[j].depends_on,
                                ) || stack@.contains(deps@[j].depends_on),
                        decreases deps@.len() - k,
                    {
                        if deps[k].task_id == current {
                            let prereq = deps[k].depends_on;
                            if !contains_id(&visited, prereq) {
                                let ghost before = stack@;
                                stack.push(prereq);
                                proof {
                                    lemma_in_universe(deps@, target_id, k as int);
                                    lemma_reaches_step(tasks@, deps@, target_id, current, k as int);
                                    assert forall|x: i64| #[trigger] stack@.contains(x) implies u.contains(x)
                                        && reaches(tasks@, deps@, target_id, x) by {
                                        lemma_push_contains(before, prereq, x);
                                    }
                                    assert forall|j: int|
                                        0 <= j < k + 1 && deps@[j].task_id == current implies visited@.contains(
                                        #[trigger] deps@[j].depends_on,
                                    ) || stack@.contains(deps@[j].depends_on) by {
                                        lemma_push_contains(before, prereq, deps@[j].depends_on);
                                    }
                                    assert(stack@.subrange(0, popped.len() as int) =~= popped);
                                }
                            }
                        }
                        k = k + 1;
                    }
                    proof {
                        assert(focus_walk_step(tasks@, deps@, focus_walk(tasks@, deps@, target_id, steps)) == (
                        visited@, result@, stack@));
                    }
                },
                None => {
                    proof {
                        assert(focus_walk_step(tasks@, deps@, focus_walk(tasks@, deps@, target_id, steps)) == (
                        visited@, result@, stack@));
                        assert forall|x: i64|
                            #[trigger] visited@.contains(x) && task_by_id(tasks@, x) is Some
                                && task_by_id(tasks@, x)->0.status != TaskStatus::Completed implies task_ids(
                            result@,
                        ).contains(x) by {
                            lemma_push_contains(old_visited, current, x);
                        }
                    }
                },
            }
            proof {
                steps = steps + 1;
                assert forall|x: i64| popped.contains(x) implies stack@.contains(x) by {
                    let i = choose|i: int| 0 <= i < popped.len() && popped[i] == x;
                    assert(stack@.subrange(0, popped.len() as int)[i] == x);
                }
                assert forall|kk: int|
                    0 <= kk < deps@.len() && visited@.contains(#[trigger] deps@[kk].task_id)
                        && task_by_id(tasks@, deps@[kk].task_id) is Some implies (visited@.contains(
                    deps@[kk].depends_on,
                ) || stack@.contains(deps@[kk].depends_on)) by {
                    lemma_push_contains(old_visited, current, deps@[kk].task_id);
                    lemma_push_contains(old_visited, current, deps@[kk].depends_on);
                    if deps@[kk].task_id != current {
                        assert(old_visited.contains(deps@[kk].task_id));
                        let t = deps@[kk].depends_on;
                        if t != current && !old_visited.contains(t) {
                            assert(before_pop.contains(t));
                            lemma_push_contains(popped, current, t);
                            assert(popped.contains(t));
                        }
                    }
                }
            }
        } else {
            proof {
                assert(focus_walk_step(tasks@, deps@, focus_walk(tasks@, deps@, target_id, steps)) == (
                visited@, result@, stack@));
                steps = steps + 1;
                assert forall|kk: int|
                    0 <= kk < deps@.len() && visited@.contains(#[trigger] deps@[kk].task_id)
                        && task_by_id(tasks@, deps@[kk].task_id) is Some implies (visited@.contains(
                    deps@[kk].depends_on,
                ) || stack@.contains(deps@[kk].depends_on)) by {
                    let t = deps@[kk].depends_on;
                    if t != current && !visited@.contains(t) {
                        assert(before_pop.contains(t));
                        lemma_push_contains(popped, current, t);
                        assert(popped.contains(t));
                    }
                }
            }
        }
    }
    proof {
        assert forall|id: i64| focus_open(tasks@, deps@, target_id, id) implies #[trigger] task_ids(
            result@,
        ).contains(id) by {
            lemma_closed_reaches(tasks@, deps@, visited@, target_id, id);
        }
        lemma_focus_subgraph(tasks@, deps@, target_id, steps);
    }
    result
}


/// Whether task `id` is among the tasks that the focus `target_id` still
/// needs.
pub fn in_target_subgraph(target_id: i64, tasks: &Vec<Task>, deps: &[Dependency], id: i64) -> (r: bool)
    ensures
        r == task_ids(focus_subgraph(tasks@, deps@, target_id)).contains(id),
{
    let sub = compute_target_subgraph(target_id, tasks, deps);
    let mut i: usize = 0;
    while i < sub.len()
        invariant
            sub@ == focus_subgraph(tasks@, deps@, target_id),
            i <= sub@.len(),
            forall|j: int| 0 <= j < i ==> (#[trigger] sub@[j]).id != id,
        decreases sub@.len() - i,
    {
        if sub[i].id == id {
            proof {
                lemma_task_ids_index(sub@, i as int);
            }
            return true;
        }
        i = i + 1;
    }
    proof {
        if task_ids(sub@).contains(id) {
            let k = choose|k: int| 0 <= k < task_ids(sub@).len() && task_ids(sub@)[k] == id;
            lemma_task_ids_index(sub@, k);
        }
    }
    false
}

/// No task of the focus subgraph is left: every task that the focus needs
/// is completed.
pub open spec fn target_reached(tasks: Seq<Task>, deps: Seq<Dependency>, target: i64) -> bool {
    forall|id: i64| !#[trigger] focus_open(tasks, deps, target, id)
}

/// Whether the focus `target_id` is reached: nothing that it needs is left
/// undone.
pub fn is_target_reached(target_id: i64, tasks: &Vec<Task>, deps: &[Dependency]) -> (r: bool)
    ensures
        r == target_reached(tasks@, deps@, target_id),
{
    let sub = compute_target_subgraph(target_id, tasks, deps);
    proof {
        if sub@.len() == 0 {
            assert(task_ids(sub@) =~= Seq::<i64>::empty());
            assert forall|id: i64| !#[trigger] focus_open(tasks@, deps@, target_id, id) by {
                if focus_open(tasks@, deps@, target_id, id) {
                    assert(task_ids(sub@).contains(id));
                }
            }
        } else {
            assert(focus_open(tasks@, deps@, target_id, sub@[0].id));
        }
    }
    sub.len() == 0
}


/// The blocked tasks of the focus subgraph: each task that the focus needs
/// and whose status is `Blocked`, once.
pub fn get_blocked_tasks(target_id: i64, tasks: &Vec<Task>, deps: &[Dependency]) -> (r: Vec<Task>)
    ensures
        r@ == focus_subgraph(tasks@, deps@, target_id).filter(|t: Task| t.status == TaskStatus::Blocked),
        task_ids(r@).no_duplicates(),
        forall|i: int|
            0 <= i < r@.len() ==> task_by_id(tasks@, (#[trigger] r@[i]).id) == Some(r@[i])
                && focus_open(tasks@, deps@, target_id, r@[i].id) && r@[i].status
                == TaskStatus::Blocked,
        forall|id: i64|
            focus_open(tasks@, deps@, target_id, id) && task_by_id(tasks@, id)->0.status
                == TaskStatus::Blocked ==> #[trigger] task_ids(r@).contains(id),
{
    let sub = compute_target_subgraph(target_id, tasks, deps);
    let mut out: Vec<Task> = Vec::new();
    let mut i: usize = 0;
    proof {
        assert(task_ids(out@) =~= Seq::<i64>::empty());
    }
    proof {
        reveal(Seq::filter);
        assert(sub@.take(0).filter(|t: Task| t.status == TaskStatus::Blocked) =~= out@);
    }
    while i < sub.len()
        invariant
            i <= sub@.len(),
            out@ == sub@.take(i as int).filter(|t: Task| t.status == TaskStatus::Blocked),
            task_ids(sub@).no_duplicates(),
            forall|j: int|
                0 <= j < sub@.len() ==> task_by_id(tasks@, (#[trigger] sub@[j]).id) == Some(sub@[j])
                    && focus_open(tasks@, deps@, target_id, sub@[j].id),
            task_ids(out@).no_duplicates(),
            forall|j: int|
                0 <= j < out@.len() ==> task_by_id(tasks@, (#[trigger] out@[j]).id) == Some(out@[j])
                    && focus_open(tasks@, deps@, target_id, out@[j].id) && out@[j].status
                    == TaskStatus::Blocked,
            forall|x: i64| #[trigger]
                task_ids(out@).contains(x) ==> task_ids(sub@.take(i as int)).contains(x),
            forall|j: int|
                0 <= j < i && (#[trigger] sub@[j]).status == TaskStatus::Blocked ==> task_ids(
                    out@,
                ).contains(sub@[j].id),
        decreases sub@.len() - i,
    {
        let ghost old_out = out@;
        proof {
            reveal(Seq::filter);
            assert(sub@.take(i + 1).drop_last() =~= sub@.take(i as int));
            assert(sub@.take(i + 1) =~= sub@.take(i as int).push(sub@[i as int]));
            assert(task_ids(sub@.take(i + 1)) =~= task_ids(sub@.take(i as int)).push(sub@[i as int].id));
        }
        if sub[i].status == TaskStatus::Blocked {
            out.push(sub[i].clone());
            proof {
                assert(task_ids(out@) =~= task_ids(old_out).push(sub@[i as int].id));
                if task_ids(old_out).contains(sub@[i as int].id) {
                    let q = choose|q: int|
                        0 <= q < i && task_ids(sub@.take(i as int))[q] == sub@[i as int].id;
                    assert(task_ids(sub@)[q] == task_ids(sub@)[i as int]);
                }
                assert forall|a: int, b: int|
                    0 <= a < b < task_ids(out@).len() implies task_ids(out@)[a] != task_ids(out@)[b] by {
                    if b == old_out.len() {
                        assert(task_ids(out@)[a] == task_ids(old_out)[a]);
                        assert(task_ids(old_out).contains(task_ids(out@)[a]));
                    } else {
                        assert(task_ids(out@)[a] == task_ids(old_out)[a]);
                        assert(task_ids(out@)[b] == task_ids(old_out)[b]);
                    }
                }
                assert forall|j: int|
                    0 <= j < out@.len() implies task_by_id(tasks@, (#[trigger] out@[j]).id) == Some(
                        out@[j],
                    ) && focus_open(tasks@, deps@, target_id, out@[j].id) && out@[j].status
                        == TaskStatus::Blocked by {
                    if j < old_out.len() {
                        assert(out@[j] == old_out[j]);
                    }
                }
                assert forall|x: i64| #[trigger] task_ids(out@).contains(x) implies task_ids(
                    sub@.take(i + 1),
                ).contains(x) by {
                    lemma_push_contains(task_ids(old_out), sub@[i as int].id, x);
                    lemma_push_contains(task_ids(sub@.take(i as int)), sub@[i as int].id, x);
                }
                assert forall|j: int|
                    0 <= j < i + 1 && (#[trigger] sub@[j]).status == TaskStatus::Blocked implies task_ids(
                        out@,
                    ).contains(sub@[j].id) by {
                    lemma_push_contains(task_ids(old_out), sub@[i as int].id, sub@[j].id);
                }
            }
        } else {
            proof {
                assert forall|x: i64| #[trigger] task_ids(out@).contains(x) implies task_ids(
                    sub@.take(i + 1),
                ).contains(x) by {
                    lemma_push_contains(task_ids(sub@.take(i as int)), sub@[i as int].id, x);
                }
            }
        }
        i = i + 1;
    }
    proof {
        assert forall|id: i64|
            focus_open(tasks@, deps@, target_id, id) && task_by_id(tasks@, id)->0.status
                == TaskStatus::Blocked implies #[trigger] task_ids(out@).contains(id) by {
            assert(task_ids(sub@).contains(id));
            let j = choose|j: int| 0 <= j < task_ids(sub@).len() && task_ids(sub@)[j] == id;
            assert(sub@[j].id == id);
        }
    }
    assert(sub@.take(sub@.len() as int) =~= sub@);
    out
}

/// Whether the focus is stuck: something is left, and every task left in the
/// focus subgraph is blocked.
pub fn all_remaining_blocked(target_id: i64, tasks: &Vec<Task>, deps: &[Dependency]) -> (r: bool)
    ensures
        r == (!target_reached(tasks@, deps@, target_id) && forall|id: i64|
            #[trigger] focus_open(tasks@, deps@, target_id, id) ==> task_by_id(tasks@, id)->0.status
                == TaskStatus::Blocked),
{
    let sub = compute_target_subgraph(target_id, tasks, deps);
    if sub.len() == 0 {
        proof {
            assert(task_ids(sub@) =~= Seq::<i64>::empty());
            assert forall|id: i64| !#[trigger] focus_open(tasks@, deps@, target_id, id) by {
                if focus_open(tasks@, deps@, target_id, id) {
                    assert(task_ids(sub@).contains(id));
                }
            }
        }
        return false;
    }
    proof {
        assert(focus_open(tasks@, deps@, target_id, sub@[0].id));
    }
    let mut i: usize = 0;
    while i < sub.len()
        invariant
            i <= sub@.len(),
            forall|j: int|
                0 <= j < sub@.len() ==> task_by_id(tasks@, (#[trigger] sub@[j]).id) == Some(sub@[j])
                    && focus_open(tasks@, deps@, target_id, sub@[j].id),
            forall|j: int| 0 <= j < i ==> (#[trigger] sub@[j]).status == TaskStatus::Blocked,
        decreases sub@.len() - i,
    {
        if sub[i].status != TaskStatus::Blocked && sub[i].status != TaskStatus::Completed {
            proof {
                assert(task_by_id(tasks@, sub@[i as int].id) == Some(sub@[i as int]));
                assert(focus_open(tasks@, deps@, target_id, sub@[i as int].id));
            }
            return false;
        }
        proof {
            assert(task_by_id(tasks@, sub@[i as int].id) == Some(sub@[i as int]));
        }
        i = i + 1;
    }
    proof {
        assert forall|id: i64| #[trigger] focus_open(tasks@, deps@, target_id, id) implies task_by_id(
            tasks@,
            id,
        )->0.status == TaskStatus::Blocked by {
            assert(task_ids(sub@).contains(id));
            let j = choose|j: int| 0 <= j < task_ids(sub@).len() && task_ids(sub@)[j] == id;
            assert(sub@[j].id == id);
            assert(task_by_id(tasks@, sub@[j].id) == Some(sub@[j]));
        }
    }
    true
}


/// The ids that the focus `target` still needs, as a predicate.
pub open spec fn in_focus(tasks: Seq<Task>, deps: Seq<Dependency>, target: i64) -> spec_fn(i64) -> bool {
    |x: i64| focus_open(tasks, deps, target, x)
}

/// The edges of `es` whose two ends both satisfy `keep`, in edge order.
pub open spec fn deps_among(es: Seq<Dependency>, keep: spec_fn(i64) -> bool) -> Seq<Dependency>
    decreases es.len(),
{
    if es.len() == 0 {
        Seq::empty()
    } else {
        deps_among(es.drop_last(), keep) + if keep(es.last().task_id) && keep(es.last().depends_on) {
            seq![es.last()]
        } else {
            Seq::empty()
        }
    }
}

/// The tasks of `ts` whose id satisfies `keep`, in order.
pub open spec fn tasks_among(ts: Seq<Task>, keep: spec_fn(i64) -> bool) -> Seq<Task>
    decreases ts.len(),
{
    if ts.len() == 0 {
        Seq::empty()
    } else {
        tasks_among(ts.drop_last(), keep) + if keep(ts.last().id) {
            seq![ts.last()]
        } else {
            Seq::empty()
        }
    }
}

/// The tasks of the focus subgraph.
pub open spec fn focus_tasks(tasks: Seq<Task>, deps: Seq<Dependency>, target: i64) -> Seq<Task> {
    tasks_among(tasks, in_focus(tasks, deps, target))
}

/// The edges of the focus subgraph: those between two tasks that the focus
/// still needs.
pub open spec fn focus_deps(tasks: Seq<Task>, deps: Seq<Dependency>, target: i64) -> Seq<Dependency> {
    deps_among(deps, in_focus(tasks, deps, target))
}

/// The focus subgraph can be ordered: each of its tasks has a place in some
/// order that puts prerequisites first.
pub open spec fn focus_acyclic(tasks: Seq<Task>, deps: Seq<Dependency>, target: i64) -> bool {
    forall|x: i64|
        #[trigger] focus_open(tasks, deps, target, x) ==> orderable(
            focus_tasks(tasks, deps, target),
            focus_deps(tasks, deps, target),
            x,
        )
}

/// Every prerequisite of `id` is completed or is no known task.
pub open spec fn deps_done(tasks: Seq<Task>, deps: Seq<Dependency>, id: i64) -> bool {
    forall|k: int|
        0 <= k < deps.len() && #[trigger] deps[k].task_id == id ==> match task_by_id(
            tasks,
            deps[k].depends_on,
        ) {
            Some(p) => p.status == TaskStatus::Completed,
            None => true,
        }
}

/// `t` can be worked on next for the focus: it is a pending task that the
/// focus needs and all of its prerequisites are done.
pub open spec fn next_candidate(tasks: Seq<Task>, deps: Seq<Dependency>, target: i64, t: Task) -> bool {
    &&& focus_open(tasks, deps, target, t.id)
    &&& task_by_id(tasks, t.id) == Some(t)
    &&& t.status == TaskStatus::Pending
    &&& deps_done(tasks, deps, t.id)
}

pub proof fn lemma_deps_among_elem(es: Seq<Dependency>, keep: spec_fn(i64) -> bool)
    ensures
        forall|k: int|
            0 <= k < deps_among(es, keep).len() ==> es.contains(#[trigger] deps_among(es, keep)[k])
                && keep(deps_among(es, keep)[k].task_id) && keep(deps_among(es, keep)[k].depends_on),
    decreases es.len(),
{
    if es.len() > 0 {
        let d = es.drop_last();
        lemma_deps_among_elem(d, keep);
        let r = deps_among(es, keep);
        assert forall|k: int| 0 <= k < r.len() implies es.contains(#[trigger] r[k]) && keep(
            r[k].task_id,
        ) && keep(r[k].depends_on) by {
            if k < deps_among(d, keep).len() {
                assert(r[k] == deps_among(d, keep)[k]);
                let j = choose|j: int| 0 <= j < d.len() && d[j] == r[k];
                assert(es[j] == r[k]);
            } else {
                assert(r[k] == es.last());
                assert(es[es.len() - 1] == r[k]);
            }
        }
    }
}

pub proof fn lemma_tasks_among_ids(ts: Seq<Task>, keep: spec_fn(i64) -> bool, x: i64)
    ensures
        task_ids(tasks_among(ts, keep)).contains(x) <==> (task_ids(ts).contains(x) && keep(x)),
    decreases ts.len(),
{
    if ts.len() == 0 {
        assert(task_ids(tasks_among(ts, keep)) =~= Seq::<i64>::empty());
        assert(task_ids(ts) =~= Seq::<i64>::empty());
    } else {
        let d = ts.drop_last();
        lemma_tasks_among_ids(d, keep, x);
        assert(task_ids(ts) =~= task_ids(d).push(ts.last().id));
        lemma_push_contains(task_ids(d), ts.last().id, x);
        if keep(ts.last().id) {
            assert(tasks_among(ts, keep) =~= tasks_among(d, keep).push(ts.last()));
            assert(task_ids(tasks_among(ts, keep)) =~= task_ids(tasks_among(d, keep)).push(
                ts.last().id,
            ));
            lemma_push_contains(task_ids(tasks_among(d, keep)), ts.last().id, x);
        } else {
            assert(tasks_among(ts, keep) =~= tasks_among(d, keep));
        }
    }
}

/// Whether a task can be ordered depends only on which ids are known.
pub proof fn lemma_orderable_same_ids(t1: Seq<Task>, t2: Seq<Task>, deps: Seq<Dependency>, id: i64)
    requires
        forall|x: i64| #[trigger] task_ids(t1).contains(x) <==> task_ids(t2).contains(x),
    ensures
        orderable(t1, deps, id) == orderable(t2, deps, id),
{
    if orderable(t1, deps, id) {
        let s = choose|s: Seq<i64>| #[trigger] is_topo_prefix(t1, deps, s) && s.contains(id);
        assert forall|i: int| 0 <= i < s.len() implies task_ids(t2).contains(#[trigger] s[i]) by {
            assert(task_ids(t1).contains(s[i]));
        }
        assert(is_topo_prefix(t2, deps, s));
    }
    if orderable(t2, deps, id) {
        let s = choose|s: Seq<i64>| #[trigger] is_topo_prefix(t2, deps, s) && s.contains(id);
        assert forall|i: int| 0 <= i < s.len() implies task_ids(t1).contains(#[trigger] s[i]) by {
            assert(task_ids(t2).contains(s[i]));
        }
        assert(is_topo_prefix(t1, deps, s));
    }
}

/// Two duplicate-free sequences of one length, the first drawn from the
/// second, hold the same elements.
pub proof fn lemma_same_len_subset(a: Seq<i64>, b: Seq<i64>)
    requires
        a.no_duplicates(),
        b.no_duplicates(),
        a.len() == b.len(),
        forall|x: i64| a.contains(x) ==> b.contains(x),
    ensures
        forall|x: i64| b.contains(x) ==> a.contains(x),
{
    assert forall|y: i64| b.contains(y) implies a.contains(y) by {
        if !a.contains(y) {
            a.unique_seq_to_set();
            b.unique_seq_to_set();
            assert(a.to_set().subset_of(b.to_set().remove(y)));
            vstd::set_lib::lemma_len_subset(a.to_set(), b.to_set().remove(y));
        }
    }
}

/// The index in the focus subgraph list of a task that the focus needs.
proof fn lemma_sub_index(tasks: Seq<Task>, deps: Seq<Dependency>, target: i64, subv: Seq<Task>, x: i64) -> (j: int)
    requires
        forall|i: int|
            0 <= i < subv.len() ==> task_by_id(tasks, (#[trigger] subv[i]).id) == Some(subv[i])
                && focus_open(tasks, deps, target, subv[i].id),
        forall|id: i64| focus_open(tasks, deps, target, id) ==> #[trigger] task_ids(subv).contains(id),
        focus_open(tasks, deps, target, x),
    ensures
        0 <= j < subv.len(),
        subv[j].id == x,
        task_by_id(tasks, x) == Some(subv[j]),
{
    assert(task_ids(subv).contains(x));
    let j = choose|j: int| 0 <= j < task_ids(subv).len() && task_ids(subv)[j] == x;
    assert(subv[j].id == x);
    assert(task_by_id(tasks, subv[j].id) == Some(subv[j]));
    j
}

/// Whether every prerequisite of `id` is completed or is no known task.
fn all_deps_completed(tasks: &Vec<Task>, deps: &[Dependency], id: i64) -> (r: bool)
    ensures
        r == deps_done(tasks@, deps@, id),
{
    let mut k: usize = 0;
    while k < deps.len()
        invariant
            k <= deps@.len(),
            forall|j: int|
                0 <= j < k && #[trigger] deps@[j].task_id == id ==> match task_by_id(
                    tasks@,
                    deps@[j].depends_on,
                ) {
                    Some(p) => p.status == TaskStatus::Completed,
                    None => true,
                },
        decreases deps@.len() - k,
    {
        if deps[k].task_id == id {
            match find_task_by_id(tasks, deps[k].depends_on) {
                Some(p) => {
                    if p.status != TaskStatus::Completed {
                        return false;
                    }
                },
                None => {},
            }
        }
        k = k + 1;
    }
    true
}


/// The next task to work on for the focus `target_id`: among the pending
/// tasks of the focus subgraph whose prerequisites are all done, the one
/// first in topological order, which is the one with the lowest manual
/// order (ties by id). `None` when there is no such task, or when the focus
/// subgraph cannot be ordered.
pub fn find_next_task(target_id: i64, tasks: &Vec<Task>, deps: &[Dependency]) -> (r: Option<Task>)
    requires
        task_ids(tasks@).no_duplicates(),
    ensures
        match r {
            Some(t) => {
                &&& next_candidate(tasks@, deps@, target_id, t)
                &&& forall|c: Task| #[trigger]
                    next_candidate(tasks@, deps@, target_id, c) ==> precedes(t, c)
                &&& focus_acyclic(tasks@, deps@, target_id)
            },
            None => (forall|c: Task| !#[trigger] next_candidate(tasks@, deps@, target_id, c))
                || !focus_acyclic(tasks@, deps@, target_id),
        },
{
    let sub = compute_target_subgraph(target_id, tasks, deps);
    let ghost subv = sub@;
    let ghost keep = in_focus(tasks@, deps@, target_id);
    proof {
        assert forall|x: i64|
            #![trigger task_ids(subv).contains(x)]
            #![trigger focus_open(tasks@, deps@, target_id, x)]
            task_ids(subv).contains(x) <==> focus_open(tasks@, deps@, target_id, x) by {
            if task_ids(subv).contains(x) {
                let j = choose|j: int| 0 <= j < task_ids(subv).len() && task_ids(subv)[j] == x;
                assert(subv[j].id == x);
            }
        }
    }
    if sub.len() == 0 {
        proof {
            assert forall|c: Task| !#[trigger] next_candidate(tasks@, deps@, target_id, c) by {
                if next_candidate(tasks@, deps@, target_id, c) {
                    let j = lemma_sub_index(tasks@, deps@, target_id, subv, c.id);
                }
            }
        }
        return None;
    }
    let sub_deps = focus_edges(target_id, tasks, deps, &sub);
    proof {
        assert forall|x: i64| #[trigger] task_ids(subv).contains(x) <==> task_ids(
            focus_tasks(tasks@, deps@, target_id),
        ).contains(x) by {
            lemma_tasks_among_ids(tasks@, keep, x);
            if focus_open(tasks@, deps@, target_id, x) {
                lemma_task_by_id(tasks@, x);
            }
        }
    }
    let sorted = match topological_sort(sub, &sub_deps) {
        Ok(s) => s,
        Err(e) => {
            proof {
                if let Error::CycleDetected(a, b, ids) = e {
                    let x = ids@[0];
                    assert(ids@.contains(x));
                    assert(focus_open(tasks@, deps@, target_id, x));
                    lemma_orderable_same_ids(
                        subv,
                        focus_tasks(tasks@, deps@, target_id),
                        sub_deps@,
                        x,
                    );
                }
            }
            return None;
        },
    };
    proof {
        assert forall|x: i64| task_ids(sorted@).contains(x) implies task_ids(subv).contains(x) by {
            let j = choose|j: int| 0 <= j < task_ids(sorted@).len() && task_ids(sorted@)[j] == x;
            assert(subv.contains(sorted@[j]));
            let q = choose|q: int| 0 <= q < subv.len() && subv[q] == sorted@[j];
            lemma_task_ids_index(subv, q);
        }
        lemma_same_len_subset(task_ids(sorted@), task_ids(subv));
    }
    let mut i: usize = 0;
    while i < sorted.len()
        invariant
            i <= sorted@.len(),
            forall|j: int|
                0 <= j < i ==> !((#[trigger] sorted@[j]).status == TaskStatus::Pending && deps_done(
                    tasks@,
                    deps@,
                    sorted@[j].id,
                )),
        ensures
            i <= sorted@.len(),
            forall|j: int|
                0 <= j < i ==> !((#[trigger] sorted@[j]).status == TaskStatus::Pending && deps_done(
                    tasks@,
                    deps@,
                    sorted@[j].id,
                )),
            i < sorted@.len() ==> sorted@[i as int].status == TaskStatus::Pending && deps_done(
                tasks@,
                deps@,
                sorted@[i as int].id,
            ),
        decreases sorted@.len() - i,
    {
        if sorted[i].status == TaskStatus::Pending && all_deps_completed(tasks, deps, sorted[i].id) {
            break;
        }
        i = i + 1;
    }
    proof {
        // A candidate sits in the sorted list, as the very task of its id.
        assert forall|c: Task| #[trigger] next_candidate(tasks@, deps@, target_id, c) implies exists|q: int|
            0 <= q < sorted@.len() && sorted@[q] == c by {
            let j0 = lemma_sub_index(tasks@, deps@, target_id, subv, c.id);
            assert(task_ids(subv).contains(c.id));
            assert(task_ids(sorted@).contains(c.id));
            let q = choose|q: int| 0 <= q < task_ids(sorted@).len() && task_ids(sorted@)[q] == c.id;
            assert(subv.contains(sorted@[q]));
            let q2 = choose|q2: int| 0 <= q2 < subv.len() && subv[q2] == sorted@[q];
            assert(task_by_id(tasks@, subv[q2].id) == Some(subv[q2]));
        }
    }
    if i < sorted.len() {
        let t = sorted[i].clone();
        proof {
            assert(subv.contains(sorted@[i as int]));
            let q = choose|q: int| 0 <= q < subv.len() && subv[q] == sorted@[i as int];
            assert(task_by_id(tasks@, subv[q].id) == Some(subv[q]));
            assert(next_candidate(tasks@, deps@, target_id, t));
            assert forall|c: Task| #[trigger] next_candidate(tasks@, deps@, target_id, c) implies precedes(t, c) by {
                let j0 = lemma_sub_index(tasks@, deps@, target_id, subv, c.id);
                assert(subv[j0] == c);
                if task_ids(sorted@).take(i as int).contains(c.id) {
                    let q = choose|q: int|
                        0 <= q < task_ids(sorted@).take(i as int).len() && task_ids(sorted@).take(
                            i as int,
                        )[q] == c.id;
                    assert(task_ids(sorted@)[q] == c.id);
                    assert(subv.contains(sorted@[q]));
                    let q2 = choose|q2: int| 0 <= q2 < subv.len() && subv[q2] == sorted@[q];
                    assert(task_by_id(tasks@, subv[q2].id) == Some(subv[q2]));
                    assert(sorted@[q] == c);
                }
                lemma_deps_among_elem(deps@, keep);
                assert forall|kk: int|
                    0 <= kk < sub_deps@.len() && #[trigger] sub_deps@[kk].task_id == c.id implies task_ids(
                        sorted@,
                    ).take(i as int).contains(sub_deps@[kk].depends_on) by {
                    let e = sub_deps@[kk];
                    assert(deps@.contains(e));
                    let k2 = choose|k2: int| 0 <= k2 < deps@.len() && deps@[k2] == e;
                    assert(deps@[k2].task_id == c.id);
                    assert(focus_open(tasks@, deps@, target_id, e.depends_on));
                }
                assert(ready(sub_deps@, task_ids(sorted@).take(i as int), subv[j0].id));
                assert(precedes(sorted@[i as int], subv[j0]));
            }
            assert forall|x: i64| #[trigger] focus_open(tasks@, deps@, target_id, x) implies orderable(
                focus_tasks(tasks@, deps@, target_id),
                focus_deps(tasks@, deps@, target_id),
                x,
            ) by {
                assert(task_ids(subv).contains(x));
                assert(task_ids(sorted@).contains(x));
                assert(is_topo_prefix(subv, sub_deps@, task_ids(sorted@)));
                assert(orderable(subv, sub_deps@, x));
                lemma_orderable_same_ids(subv, focus_tasks(tasks@, deps@, target_id), sub_deps@, x);
            }
        }
        Some(t)
    } else {
        proof {
            assert forall|c: Task| !#[trigger] next_candidate(tasks@, deps@, target_id, c) by {
                if next_candidate(tasks@, deps@, target_id, c) {
                    let q = choose|q: int| 0 <= q < sorted@.len() && sorted@[q] == c;
                    assert(!(sorted@[q].status == TaskStatus::Pending && deps_done(tasks@, deps@, sorted@[q].id)));
                }
            }
        }
        None
    }
}


/// `sub` lists the tasks of the focus subgraph: each once, as the task of
/// its id, and every task that the focus still needs.
pub open spec fn is_focus_list(tasks: Seq<Task>, deps: Seq<Dependency>, target: i64, sub: Seq<Task>) -> bool {
    &&& task_ids(sub).no_duplicates()
    &&& forall|i: int|
        0 <= i < sub.len() ==> task_by_id(tasks, (#[trigger] sub[i]).id) == Some(sub[i]) && focus_open(
            tasks,
            deps,
            target,
            sub[i].id,
        )
    &&& forall|id: i64| focus_open(tasks, deps, target, id) ==> #[trigger] task_ids(sub).contains(id)
}

/// The edges of the focus subgraph whose tasks `sub` lists.
pub fn focus_edges(target_id: i64, tasks: &Vec<Task>, deps: &[Dependency], sub: &Vec<Task>) -> (r: Vec<Dependency>)
    requires
        is_focus_list(tasks@, deps@, target_id, sub@),
    ensures
        r@ == focus_deps(tasks@, deps@, target_id),
{
    let ghost keep = in_focus(tasks@, deps@, target_id);
    let ghost subv = sub@;
    proof {
        assert forall|x: i64|
            #![trigger task_ids(subv).contains(x)]
            #![trigger focus_open(tasks@, deps@, target_id, x)]
            task_ids(subv).contains(x) <==> focus_open(tasks@, deps@, target_id, x) by {
            if task_ids(subv).contains(x) {
                let j = choose|j: int| 0 <= j < task_ids(subv).len() && task_ids(subv)[j] == x;
                assert(subv[j].id == x);
            }
        }
    }
    let mut sub_deps: Vec<Dependency> = Vec::new();
    let mut k: usize = 0;
    while k < deps.len()
        invariant
            k <= deps@.len(),
            sub@ == subv,
            task_ids(subv).no_duplicates(),
            keep == in_focus(tasks@, deps@, target_id),
            forall|x: i64|
                #![trigger task_ids(subv).contains(x)]
                #![trigger focus_open(tasks@, deps@, target_id, x)]
                task_ids(subv).contains(x) <==> focus_open(tasks@, deps@, target_id, x),
            sub_deps@ == deps_among(deps@.take(k as int), keep),
        decreases deps@.len() - k,
    {
        let d = deps[k];
        proof {
            assert(deps@.take(k + 1).drop_last() =~= deps@.take(k as int));
            assert(deps@.take(k + 1).last() == d);
        }
        let a = find_index(sub, d.task_id);
        let b = find_index(sub, d.depends_on);
        if a.is_some() && b.is_some() {
            sub_deps.push(d);
        }
        proof {
            if let Some(j) = a {
                lemma_task_ids_index(subv, j as int);
            }
            if let Some(j) = b {
                lemma_task_ids_index(subv, j as int);
            }
            assert(task_ids(subv).contains(d.task_id) == a.is_some());
            assert(task_ids(subv).contains(d.depends_on) == b.is_some());
            assert(sub_deps@ =~= deps_among(deps@.take(k + 1), keep));
        }
        k = k + 1;
    }
    proof {
        assert(deps@.take(deps@.len() as int) =~= deps@);
    }
    sub_deps
}


/// A sorted focus subgraph shows the focus subgraph can be ordered.
pub proof fn lemma_sorted_focus_acyclic(tasks: Seq<Task>, deps: Seq<Dependency>, target: i64, sub: Seq<Task>, sorted: Seq<Task>)
    requires
        is_focus_list(tasks, deps, target, sub),
        topo_sorted(sub, focus_deps(tasks, deps, target), sorted),
    ensures
        focus_acyclic(tasks, deps, target),
{
    let keep = in_focus(tasks, deps, target);
    assert forall|x: i64| task_ids(sorted).contains(x) implies task_ids(sub).contains(x) by {
        let j = choose|j: int| 0 <= j < task_ids(sorted).len() && task_ids(sorted)[j] == x;
        assert(sub.contains(sorted[j]));
        let q = choose|q: int| 0 <= q < sub.len() && sub[q] == sorted[j];
        lemma_task_ids_index(sub, q);
    }
    lemma_same_len_subset(task_ids(sorted), task_ids(sub));
    assert forall|x: i64| #[trigger] focus_open(tasks, deps, target, x) implies orderable(
        focus_tasks(tasks, deps, target),
        focus_deps(tasks, deps, target),
        x,
    ) by {
        assert(task_ids(sub).contains(x));
        assert(task_ids(sorted).contains(x));
        assert(orderable(sub, focus_deps(tasks, deps, target), x));
        assert forall|y: i64| #[trigger] task_ids(sub).contains(y) <==> task_ids(focus_tasks(tasks, deps, target)).contains(y) by {
            lemma_tasks_among_ids(tasks, keep, y);
            if task_ids(sub).contains(y) {
                let j = choose|j: int| 0 <= j < task_ids(sub).len() && task_ids(sub)[j] == y;
                assert(sub[j].id == y);
            }
            if focus_open(tasks, deps, target, y) {
                lemma_task_by_id(tasks, y);
            }
        }
        lemma_orderable_same_ids(sub, focus_tasks(tasks, deps, target), focus_deps(tasks, deps, target), x);
    }
}

/// A task of the focus subgraph that no order reaches shows the focus
/// subgraph cannot be ordered.
pub proof fn lemma_unorderable_focus(tasks: Seq<Task>, deps: Seq<Dependency>, target: i64, sub: Seq<Task>, x: i64)
    requires
        is_focus_list(tasks, deps, target, sub),
        task_ids(sub).contains(x),
        !orderable(sub, focus_deps(tasks, deps, target), x),
    ensures
        !focus_acyclic(tasks, deps, target),
{
    let keep = in_focus(tasks, deps, target);
    let j = choose|j: int| 0 <= j < task_ids(sub).len() && task_ids(sub)[j] == x;
    assert(sub[j].id == x);
    assert(focus_open(tasks, deps, target, x));
    assert forall|y: i64| #[trigger] task_ids(sub).contains(y) <==> task_ids(focus_tasks(tasks, deps, target)).contains(y) by {
        lemma_tasks_among_ids(tasks, keep, y);
        if task_ids(sub).contains(y) {
            let q = choose|q: int| 0 <= q < task_ids(sub).len() && task_ids(sub)[q] == y;
            assert(sub[q].id == y);
        }
        if focus_open(tasks, deps, target, y) {
            lemma_task_by_id(tasks, y);
        }
    }
    lemma_orderable_same_ids(sub, focus_tasks(tasks, deps, target), focus_deps(tasks, deps, target), x);
}

} // verus!
