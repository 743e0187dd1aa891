//! Properties of the tracker that relate several operations.
use vstd::prelude::*;
use crate::graph::{
    has_edge, is_topo_prefix, lemma_task_by_id, lemma_task_ids_index, ready, task_by_id, task_ids, topo_sorted,
};
use crate::ordering::{lemma_max_order_key, max_order_key, placement, OrderPlacement};
use crate::target::{deps_among, focus_deps, focus_open, in_focus, is_focus_list};
use crate::error::Error;
use crate::models::{Dependency, Task, TaskStatus};
use crate::store::{
    active_task, among_ids, archived_row, complete_outcome, edges_among, incomplete_deps, listing, live_count,
    live_others, live_row, lookup_row, ordered_selection, page, prerequisite_rows, dependent_rows, row_matches,
    selection_listing, split_outcome, start_outcome, started, status_count, with_status, without_edge, RowFilter,
    Store,
};
use crate::text::is_blank;
use crate::tools::{tool_name, tool_named, Tool};

verus! {

/// A task that creation appended is read back as it was created.
pub proof fn law_read_after_create(before: Store, after: Store, t: Task)
    requires
        after.wf(),
        after.rows() == before.rows().push(t),
        !t.deleted,
    ensures
        live_row(after.rows(), t.id) == Some(t),
        task_by_id(after.rows(), t.id) == Some(t),
{
    let rows = after.rows();
    assert(rows.last() == t);
}

/// Removing an edge just added gives the edges back.
pub proof fn law_remove_undoes_add(edges: Seq<Dependency>, d: Dependency)
    requires
        !edges.contains(d),
    ensures
        without_edge(edges.push(d), d) == edges,
    decreases edges.len(),
{
    lemma_without_absent(edges, d);
    assert(edges.push(d).drop_last() =~= edges);
}

proof fn lemma_without_absent(edges: Seq<Dependency>, d: Dependency)
    requires
        !edges.contains(d),
    ensures
        without_edge(edges, d) == edges,
    decreases edges.len(),
{
    if edges.len() > 0 {
        let e = edges.drop_last();
        assert(!e.contains(d)) by {
            if e.contains(d) {
                let j = choose|j: int| 0 <= j < e.len() && e[j] == d;
                assert(edges[j] == d);
            }
        }
        lemma_without_absent(e, d);
        assert(edges.last() != d) by {
            assert(edges[edges.len() - 1] == edges.last());
        }
        assert(without_edge(edges, d) =~= e.push(edges.last()));
        assert(edges =~= e.push(edges.last()));
    }
}

/// Stopping a task that was just started puts it back to pending, with the
/// rest of the row as before the start but for the start and touch times.
pub proof fn law_stop_after_start(t: Task, now: String, later: String)
    ensures
        with_status(started(t, now), TaskStatus::Pending, later) == (Task {
            status: TaskStatus::Pending,
            started_at: Some(now),
            last_touched_at: later,
            ..t
        }),
{
}

/// After archiving, no live row is completed or cancelled, and every row
/// that was live and neither stays live and unchanged.
pub proof fn law_archive_hides_finished(rows: Seq<Task>, after: Seq<Task>, now: String)
    requires
        after == rows.map_values(|t: Task| archived_row(t, now)),
    ensures
        after.len() == rows.len(),
        forall|i: int|
            0 <= i < after.len() && !(#[trigger] after[i]).deleted ==> after[i].status != TaskStatus::Completed
                && after[i].status != TaskStatus::Cancelled,
        forall|i: int|
            0 <= i < after.len() && !rows[i].deleted && rows[i].status != TaskStatus::Completed
                && rows[i].status != TaskStatus::Cancelled ==> #[trigger] after[i] == rows[i],
{
}

/// A topological order never puts a task before one of its prerequisites.
pub proof fn law_prerequisites_first(tasks: Seq<Task>, deps: Seq<Dependency>, res: Seq<Task>, i: int, j: int)
    requires
        topo_sorted(tasks, deps, res),
        0 <= i < j < res.len(),
    ensures
        !has_edge(deps, res[i].id, res[j].id),
{
    let ids = task_ids(res);
    assert(is_topo_prefix(tasks, deps, ids));
    assert(ids[i] == res[i].id && ids[j] == res[j].id);
    assert(ready(deps, ids.take(i), ids[i]));
    if has_edge(deps, res[i].id, res[j].id) {
        let k = choose|k: int| 0 <= k < deps.len() && deps[k].task_id == res[i].id && deps[k].depends_on == res[j].id;
        assert(ids.take(i).contains(res[j].id));
        let q = choose|q: int| 0 <= q < ids.take(i).len() && ids.take(i)[q] == res[j].id;
        assert(ids[q] == ids[j]);
    }
}

/// A well-formed store has at most one task in progress, counting archived
/// rows, and its dependency edges never lead back to where they start.
pub proof fn law_store_invariants(s: Store, i: int, j: int, a: i64, b: i64)
    requires
        s.wf(),
        0 <= i < s.rows().len(),
        0 <= j < s.rows().len(),
        s.rows()[i].status == TaskStatus::InProgress,
        s.rows()[j].status == TaskStatus::InProgress,
        has_edge(s.edges(), a, b),
    ensures
        i == j,
        a != b,
        !crate::graph::reachable(s.edges(), b, a),
{
    let k = choose|k: int| 0 <= k < s.edges().len() && s.edges()[k].task_id == a && s.edges()[k].depends_on == b;
    assert(s.edges()[k].task_id != s.edges()[k].depends_on);
}

/// A pending task is started only when every prerequisite it has among the
/// rows is completed.
pub proof fn law_start_needs_completed_prerequisites(
    rows: Seq<Task>,
    deps: Seq<Dependency>,
    id: i64,
    now: String,
    r: Result<Task, Error>,
    rows2: Seq<Task>,
    k: int,
)
    requires
        start_outcome(rows, deps, id, now, r, rows2),
        r is Ok,
        live_row(rows, id) matches Some(t) && t.status == TaskStatus::Pending,
        0 <= k < deps.len(),
        deps[k].task_id == id,
        task_by_id(rows, deps[k].depends_on) is Some,
    ensures
        task_by_id(rows, deps[k].depends_on)->0.status == TaskStatus::Completed,
{
    lemma_no_incomplete(rows, deps, id, k);
}

proof fn lemma_no_incomplete(rows: Seq<Task>, deps: Seq<Dependency>, id: i64, k: int)
    requires
        incomplete_deps(rows, deps, id).len() == 0,
        0 <= k < deps.len(),
        deps[k].task_id == id,
        task_by_id(rows, deps[k].depends_on) is Some,
    ensures
        task_by_id(rows, deps[k].depends_on)->0.status == TaskStatus::Completed,
    decreases deps.len(),
{
    if k < deps.len() - 1 {
        let prefix = incomplete_deps(rows, deps.drop_last(), id);
        assert(prefix.len() == 0);
        assert(deps.drop_last()[k] == deps[k]);
        lemma_no_incomplete(rows, deps.drop_last(), id, k);
    }
}

/// Completing succeeds only for the task in progress, and only when its
/// definition of done is set and not blank.
pub proof fn law_complete_needs_dod(rows: Seq<Task>, now: String, r: Result<Task, Error>, rows2: Seq<Task>)
    requires
        complete_outcome(rows, now, r, rows2),
        r is Ok,
    ensures
        active_task(rows) matches Some(t) && t.dod is Some && !is_blank(t.dod->0@),
{
}

/// Each tool is found again under its own name.
pub proof fn law_tool_names(t: Tool)
    ensures
        tool_named(tool_name(t)) == Some(t),
{
    reveal_strlit("get_task");
    reveal_strlit("list_tasks");
    reveal_strlit("create_task");
    reveal_strlit("edit_task");
    reveal_strlit("focus");
    reveal_strlit("archive_tasks");
    reveal_strlit("split_task");
    reveal_strlit("advance_task");
    reveal_strlit("artifacts");
    assert("get_task"@.len() == 8);
    assert("list_tasks"@.len() == 10);
    assert("create_task"@.len() == 11);
    assert("edit_task"@.len() == 9);
    assert("focus"@.len() == 5);
    assert("archive_tasks"@.len() == 13);
    assert("split_task"@.len() == 10);
    assert("advance_task"@.len() == 12);
    assert("artifacts"@.len() == 9);
    assert("list_tasks"@[0] != "split_task"@[0]);
    assert("edit_task"@[0] != "artifacts"@[0]);
}

proof fn lemma_deps_among_has_edge(es: Seq<Dependency>, keep: spec_fn(i64) -> bool, a: i64, b: i64)
    requires
        has_edge(es, a, b),
        keep(a),
        keep(b),
    ensures
        has_edge(deps_among(es, keep), a, b),
    decreases es.len(),
{
    let d = es.drop_last();
    let r = deps_among(es, keep);
    let k = choose|k: int| 0 <= k < es.len() && es[k].task_id == a && es[k].depends_on == b;
    if k == es.len() - 1 {
        assert(r[r.len() - 1] == es.last());
    } else {
        assert(d[k] == es[k]);
        lemma_deps_among_has_edge(d, keep, a, b);
        let j = choose|j: int| 0 <= j < deps_among(d, keep).len() && deps_among(d, keep)[j].task_id == a
            && deps_among(d, keep)[j].depends_on == b;
        assert(r[j] == deps_among(d, keep)[j]);
    }
}

/// In a topological order over the edges among some tasks, no task comes
/// before one it depends on.
proof fn lemma_topo_no_back_edge(
    tasks: Seq<Task>,
    es: Seq<Dependency>,
    keep: spec_fn(i64) -> bool,
    res: Seq<Task>,
    a: int,
    b: int,
)
    requires
        topo_sorted(tasks, deps_among(es, keep), res),
        forall|t: Task| #[trigger] tasks.contains(t) ==> keep(t.id),
        0 <= a < b < res.len(),
    ensures
        !has_edge(es, res[a].id, res[b].id),
{
    law_prerequisites_first(tasks, deps_among(es, keep), res, a, b);
    assert(tasks.contains(res[a]) && tasks.contains(res[b]));
    if has_edge(es, res[a].id, res[b].id) {
        lemma_deps_among_has_edge(es, keep, res[a].id, res[b].id);
    }
}

proof fn lemma_selection_no_back_edge(s: Store, filter: RowFilter, res: Seq<Task>, a: int, b: int)
    requires
        selection_listing(s, filter, res),
        0 <= a < b < res.len(),
    ensures
        !has_edge(s.edges(), res[a].id, res[b].id),
{
    let sel = choose|sel: Seq<Task>|
        ordered_selection(s.rows(), |t: Task| row_matches(t, filter), sel) && task_ids(sel).no_duplicates()
            && #[trigger] topo_sorted(sel, edges_among(sel, s.edges()), res);
    assert forall|t: Task| #[trigger] sel.contains(t) implies among_ids(sel)(t.id) by {
        let q = choose|q: int| 0 <= q < sel.len() && sel[q] == t;
        lemma_task_ids_index(sel, q);
    }
    lemma_topo_no_back_edge(sel, s.edges(), among_ids(sel), res, a, b);
}

proof fn lemma_focus_no_back_edge(live: Seq<Task>, edges: Seq<Dependency>, tid: i64, sub: Seq<Task>, res: Seq<Task>, a: int, b: int)
    requires
        is_focus_list(live, edges, tid, sub),
        topo_sorted(sub, focus_deps(live, edges, tid), res),
        0 <= a < b < res.len(),
    ensures
        !has_edge(edges, res[a].id, res[b].id),
{
    assert forall|t: Task| #[trigger] sub.contains(t) implies in_focus(live, edges, tid)(t.id) by {
        let q = choose|q: int| 0 <= q < sub.len() && sub[q] == t;
        assert(focus_open(live, edges, tid, sub[q].id));
    }
    lemma_topo_no_back_edge(sub, edges, in_focus(live, edges, tid), res, a, b);
}

/// Every listing puts prerequisites first: no listed task comes before a
/// task that it depends on.
pub proof fn law_listing_prerequisites_first(
    s: Store,
    all: bool,
    status: Option<TaskStatus>,
    active: bool,
    archived: Option<bool>,
    res: Seq<Task>,
    i: int,
    j: int,
)
    requires
        s.wf(),
        listing(s, all, status, active, archived, res),
        0 <= i < j < res.len(),
    ensures
        !has_edge(s.edges(), res[i].id, res[j].id),
{
    if archived == Some(true) {
        lemma_selection_no_back_edge(s, RowFilter::Archived, res, i, j);
    } else if status is Some {
        lemma_selection_no_back_edge(s, RowFilter::Status(status->0), res, i, j);
    } else if active {
        lemma_selection_no_back_edge(s, RowFilter::Active, res, i, j);
    } else if all || s.focus() is None {
        lemma_selection_no_back_edge(s, RowFilter::Live, res, i, j);
    } else {
        let live = live_others(s.rows(), None);
        let tid = s.focus()->0;
        let sub = choose|sub: Seq<Task>|
            #[trigger] is_focus_list(live, s.edges(), tid, sub) && topo_sorted(sub, focus_deps(live, s.edges(), tid), res);
        lemma_focus_no_back_edge(live, s.edges(), tid, sub, res, i, j);
    }
}

/// A page of a listing keeps the listing's order.
pub proof fn law_page_keeps_order(res: Seq<Task>, limit: Option<usize>, offset: Option<usize>, i: int, j: int)
    requires
        0 <= i < j < page(res, limit, offset).len(),
    ensures
        exists|a: int, b: int|
            0 <= a < b < res.len() && page(res, limit, offset)[i] == #[trigger] res[a] && page(res, limit, offset)[j]
                == #[trigger] res[b],
{
    let start: int = match offset {
        Some(o) => if o < res.len() {
            o as int
        } else {
            res.len() as int
        },
        None => 0,
    };
    assert(page(res, limit, offset)[i] == res[start + i]);
    assert(page(res, limit, offset)[j] == res[start + j]);
}

/// With no position hint and at least one task, a task is placed one gap
/// after an order that no task's order exceeds and that some task has: the
/// highest order.
pub proof fn law_unhinted_placement_after_highest(tasks: Seq<Task>)
    requires
        tasks.len() > 0,
    ensures
        placement(tasks, None, None) matches Ok(OrderPlacement::After(k)) && (forall|i: int|
            0 <= i < tasks.len() ==> #[trigger] tasks[i].manual_order <= k) && (exists|i: int|
            0 <= i < tasks.len() && #[trigger] tasks[i].manual_order == k),
{
    lemma_max_order_key(tasks);
}

/// The active listing holds exactly the live rows that are pending or in
/// progress.
pub proof fn law_active_listing(rows: Seq<Task>, r: Seq<Task>)
    requires
        ordered_selection(rows, |t: Task| row_matches(t, RowFilter::Active), r),
    ensures
        forall|t: Task| #[trigger] r.contains(t) <==> (rows.contains(t) && !t.deleted && (t.status
            == TaskStatus::Pending || t.status == TaskStatus::InProgress)),
{
}

/// Counting rows by status: no rows count nothing, and one more row adds
/// one to the count of its own status exactly when it is live.
pub proof fn law_status_count_step(rows: Seq<Task>, t: Task, s: TaskStatus)
    ensures
        status_count(Seq::empty(), s) == 0,
        status_count(rows.push(t), s) == status_count(rows, s) + (if !t.deleted && t.status == s {
            1int
        } else {
            0int
        }),
        live_count(Seq::empty()) == 0,
        live_count(rows.push(t)) == live_count(rows) + (if !t.deleted {
            1int
        } else {
            0int
        }),
{
    assert(rows.push(t).drop_last() =~= rows);
}

/// Each live row counts under exactly one status: the counts of the five
/// statuses add up to the number of live rows.
pub proof fn law_status_counts_add_up(rows: Seq<Task>)
    ensures
        status_count(rows, TaskStatus::Pending) + status_count(rows, TaskStatus::InProgress) + status_count(
            rows,
            TaskStatus::Completed,
        ) + status_count(rows, TaskStatus::Blocked) + status_count(rows, TaskStatus::Cancelled) == live_count(rows),
    decreases rows.len(),
{
    if rows.len() > 0 {
        law_status_counts_add_up(rows.drop_last());
    }
}

/// Each task listed as a prerequisite of task `id` is a stored task found
/// under the id that an edge from `id` names.
pub proof fn law_prerequisites_are_edges(rows: Seq<Task>, edges: Seq<Dependency>, id: i64, include_archived: bool)
    ensures
        forall|i: int|
            0 <= i < prerequisite_rows(rows, edges, id, include_archived).len() ==> {
                let t = #[trigger] prerequisite_rows(rows, edges, id, include_archived)[i];
                &&& edges.contains(Dependency { task_id: id, depends_on: t.id })
                &&& rows.contains(t)
            },
    decreases edges.len(),
{
    if edges.len() > 0 {
        let d = edges.drop_last();
        law_prerequisites_are_edges(rows, d, id, include_archived);
        let p = prerequisite_rows(rows, d, id, include_archived);
        let e = edges.last();
        lemma_task_by_id(rows, e.depends_on);
        assert forall|i: int|
            0 <= i < prerequisite_rows(rows, edges, id, include_archived).len() implies {
                let t = #[trigger] prerequisite_rows(rows, edges, id, include_archived)[i];
                &&& edges.contains(Dependency { task_id: id, depends_on: t.id })
                &&& rows.contains(t)
            } by {
            let t = prerequisite_rows(rows, edges, id, include_archived)[i];
            if i < p.len() {
                assert(t == p[i]);
                let k = choose|k: int| 0 <= k < d.len() && d[k] == Dependency { task_id: id, depends_on: t.id };
                assert(edges[k] == d[k]);
            } else {
                assert(edges[edges.len() - 1] == e);
            }
        }
    }
}

/// Each task listed as a dependent of task `id` is a stored task found
/// under the id of an edge into `id`.
pub proof fn law_dependents_are_edges(rows: Seq<Task>, edges: Seq<Dependency>, id: i64, include_archived: bool)
    ensures
        forall|i: int|
            0 <= i < dependent_rows(rows, edges, id, include_archived).len() ==> {
                let t = #[trigger] dependent_rows(rows, edges, id, include_archived)[i];
                &&& edges.contains(Dependency { task_id: t.id, depends_on: id })
                &&& rows.contains(t)
            },
    decreases edges.len(),
{
    if edges.len() > 0 {
        let d = edges.drop_last();
        law_dependents_are_edges(rows, d, id, include_archived);
        let p = dependent_rows(rows, d, id, include_archived);
        let e = edges.last();
        lemma_task_by_id(rows, e.task_id);
        assert forall|i: int|
            0 <= i < dependent_rows(rows, edges, id, include_archived).len() implies {
                let t = #[trigger] dependent_rows(rows, edges, id, include_archived)[i];
                &&& edges.contains(Dependency { task_id: t.id, depends_on: id })
                &&& rows.contains(t)
            } by {
            let t = dependent_rows(rows, edges, id, include_archived)[i];
            if i < p.len() {
                assert(t == p[i]);
                let k = choose|k: int| 0 <= k < d.len() && d[k] == Dependency { task_id: t.id, depends_on: id };
                assert(edges[k] == d[k]);
            } else {
                assert(edges[edges.len() - 1] == e);
            }
        }
    }
}

/// A split that succeeds gives one new pending task per part, in order,
/// each with that part's title, description and definition of done.
pub proof fn law_split_parts_become_subtasks(
    s: Store,
    s2: Store,
    task_id: i64,
    subtasks: Seq<(String, String, String)>,
    now: String,
    r: Result<Vec<Task>, Error>,
)
    requires
        split_outcome(s, s2, task_id, subtasks, now, r),
        r is Ok,
    ensures
        r->Ok_0@.len() == subtasks.len(),
        forall|i: int|
            0 <= i < subtasks.len() ==> {
                let t = #[trigger] r->Ok_0@[i];
                &&& t.title@ == subtasks[i].0@
                &&& t.description matches Some(d) && d@ == subtasks[i].1@
                &&& t.dod matches Some(x) && x@ == subtasks[i].2@
                &&& t.status == TaskStatus::Pending
            },
{
}

} // verus!
