//! The tracker's state, held in memory: task rows (archived ones included),
//! dependency edges, artifacts and the focus, with the invariants that the
//! storage keeps (unique ids, edges between existing rows, no self edge, no
//! edge twice, an acyclic graph, at most one task in progress) and the
//! operations of the tracker, each of which keeps them.
//!
//! Times are handed in by the caller as text (`now`); manual orders are
//! order keys (see `ordering`).
use vstd::prelude::*;
use crate::dag::lemma_dag_orderable;
use crate::error::Error;
use crate::ordering::{calculate_manual_order, placement, reindex_orders, stable_order, OrderPlacement, ORDER_GAP};
use crate::graph::{
    lemma_push_contains, orderable, topo_sorted, topological_sort, contains_id, find_cycle_path, find_task_by_id, has_edge, is_cycle_path, cycle_path_of, lemma_reach_map, lemma_reach_push,
    lemma_reach_refl, lemma_reach_step, lemma_reach_trans, lemma_task_by_id, lemma_task_ids_index,
    reachable, task_by_id, task_ids, would_create_cycle,
};
use crate::models::{Artifact, Dependency, EditAction, Task, TaskDetail, TaskStatus};
use crate::state::{
    can_block_task, can_cancel_task, can_complete_task, can_start_task, can_unblock_task,
    start_check, status_debug,
};
use crate::target::{
    all_remaining_blocked, compute_target_subgraph, deps_among, find_next_task, focus_acyclic, focus_deps,
    focus_edges, focus_open, get_blocked_tasks, is_focus_list, is_target_reached,
    lemma_deps_among_elem, lemma_sorted_focus_acyclic, lemma_tasks_among_ids, lemma_unorderable_focus, next_candidate,
    target_reached, focus_tasks, in_focus, tasks_among,
};
use crate::text::{is_blank, lemma_text_lt_order, text_lt, text_lt_exec};

verus! {

/// Task `a` comes before task `b` in manual order: a lower order key, or an
/// equal key and a lower id.
pub open spec fn order_lt(a: Task, b: Task) -> bool {
    a.manual_order < b.manual_order || (a.manual_order == b.manual_order && a.id < b.id)
}

/// `s` is sorted by manual order, ties by id.
pub open spec fn sorted_by_order(s: Seq<Task>) -> bool {
    forall|i: int, j: int| 0 <= i < j < s.len() ==> order_lt(#[trigger] s[i], #[trigger] s[j])
}

/// `r` holds exactly the tasks of `s` that `keep` selects, sorted by manual
/// order.
pub open spec fn ordered_selection(s: Seq<Task>, keep: spec_fn(Task) -> bool, r: Seq<Task>) -> bool {
    &&& sorted_by_order(r)
    &&& forall|t: Task| #[trigger] r.contains(t) <==> (s.contains(t) && keep(t))
}

/// The part of `s` that `LIMIT limit OFFSET offset` selects.
pub open spec fn page(s: Seq<Task>, limit: Option<usize>, offset: Option<usize>) -> Seq<Task> {
    let start: int = match offset {
        Some(o) => if o < s.len() {
            o as int
        } else {
            s.len() as int
        },
        None => 0,
    };
    let end: int = match limit {
        Some(l) => if start + l < s.len() {
            start + l
        } else {
            s.len() as int
        },
        None => s.len() as int,
    };
    s.subrange(start, end)
}

/// The row with id `id` when it is not archived.
pub open spec fn live_row(rows: Seq<Task>, id: i64) -> Option<Task> {
    match task_by_id(rows, id) {
        Some(t) => if t.deleted {
            None
        } else {
            Some(t)
        },
        None => None,
    }
}

/// No edge closes a cycle: the prerequisite of an edge never reaches back
/// to its dependent.
pub open spec fn acyclic(deps: Seq<Dependency>) -> bool {
    forall|a: i64, b: i64| #[trigger] has_edge(deps, a, b) ==> !reachable(deps, b, a)
}

/// The invariants of the stored state.
pub open spec fn store_wf(
    rows: Seq<Task>,
    deps: Seq<Dependency>,
    files: Seq<Artifact>,
    next_id: i64,
    next_artifact_id: i64,
) -> bool {
    &&& forall|i: int, j: int| 0 <= i < j < rows.len() ==> (#[trigger] rows[i]).id < (#[trigger] rows[j]).id
    &&& forall|i: int| 0 <= i < rows.len() ==> 0 < (#[trigger] rows[i]).id < next_id
    &&& 0 < next_id
    &&& forall|k: int|
        0 <= k < deps.len() ==> task_ids(rows).contains((#[trigger] deps[k]).task_id) && task_ids(
            rows,
        ).contains(deps[k].depends_on) && deps[k].task_id != deps[k].depends_on
    &&& deps.no_duplicates()
    &&& acyclic(deps)
    &&& forall|i: int, j: int|
        0 <= i < rows.len() && 0 <= j < rows.len() && (#[trigger] rows[i]).status == TaskStatus::InProgress
            && (#[trigger] rows[j]).status == TaskStatus::InProgress ==> i == j
    &&& forall|i: int, j: int| 0 <= i < j < files.len() ==> (#[trigger] files[i]).id < (#[trigger] files[j]).id
    &&& forall|i: int|
        0 <= i < files.len() ==> 0 < (#[trigger] files[i]).id < next_artifact_id && task_ids(rows).contains(
            files[i].task_id,
        )
    &&& 0 < next_artifact_id
}

/// The tracker's stored state.
pub struct Store {
    tasks: Vec<Task>,
    deps: Vec<Dependency>,
    artifacts: Vec<Artifact>,
    target: Option<i64>,
    next_id: i64,
    next_artifact: i64,
}

/// Sorts tasks with distinct ids by manual order, ties by id.
pub fn sort_by_order(v: Vec<Task>) -> (r: Vec<Task>)
    requires
        task_ids(v@).no_duplicates(),
    ensures
        sorted_by_order(r@),
        r@.len() == v@.len(),
        forall|t: Task| #[trigger] r@.contains(t) <==> v@.contains(t),
{
    let mut out: Vec<Task> = Vec::new();
    let mut i: usize = 0;
    while i < v.len()
        invariant
            i <= v@.len(),
            task_ids(v@).no_duplicates(),
            sorted_by_order(out@),
            out@.len() == i,
            forall|t: Task| #[trigger] out@.contains(t) <==> v@.take(i as int).contains(t),
        decreases v@.len() - i,
    {
        let x = v[i].clone();
        proof {
            assert(v@.take(i + 1) =~= v@.take(i as int).push(v@[i as int]));
            assert forall|j: int| 0 <= j < out@.len() implies (#[trigger] out@[j]).id != x.id by {
                assert(out@.contains(out@[j]));
                assert(v@.take(i as int).contains(out@[j]));
                let q = choose|q: int| 0 <= q < i && v@.take(i as int)[q] == out@[j];
                assert(task_ids(v@)[q] == v@[q].id);
                assert(task_ids(v@)[i as int] == v@[i as int].id);
            }
        }
        let mut pos: usize = 0;
        while pos < out.len() && order_lt_exec(&out[pos], &x)
            invariant
                pos <= out@.len(),
                forall|j: int| 0 <= j < pos ==> order_lt(#[trigger] out@[j], x),
            decreases out@.len() - pos,
        {
            pos = pos + 1;
        }
        let ghost before = out@;
        proof {
            assert forall|j: int| pos <= j < before.len() implies order_lt(x, #[trigger] before[j]) by {
                assert(before[j].id != x.id);
                if j > pos {
                    assert(order_lt(before[pos as int], before[j]));
                }
            }
        }
        out.insert(pos, x);
        proof {
            before.insert_ensures(pos as int, x);
            assert forall|a: int, b: int| 0 <= a < b < out@.len() implies order_lt(
                #[trigger] out@[a],
                #[trigger] out@[b],
            ) by {
                if b < pos {
                    assert(out@[a] == before[a] && out@[b] == before[b]);
                } else if b == pos {
                    assert(out@[a] == before[a]);
                } else if a < pos {
                    assert(out@[a] == before[a] && out@[b] == before[b - 1]);
                } else if a == pos {
                    assert(out@[b] == before[b - 1]);
                } else {
                    assert(out@[a] == before[a - 1] && out@[b] == before[b - 1]);
                }
            }
            assert forall|t: Task| #[trigger] out@.contains(t) <==> v@.take(i + 1).contains(t) by {
                if out@.contains(t) {
                    let q = choose|q: int| 0 <= q < out@.len() && out@[q] == t;
                    if q < pos {
                        assert(before[q] == t);
                        assert(before.contains(t));
                    } else if q > pos {
                        assert(before[q - 1] == t);
                        assert(before.contains(t));
                    }
                    crate::graph::lemma_push_contains(v@.take(i as int), v@[i as int], t);
                }
                if v@.take(i + 1).contains(t) {
                    crate::graph::lemma_push_contains(v@.take(i as int), v@[i as int], t);
                    if t == x {
                        assert(out@[pos as int] == t);
                    } else {
                        assert(before.contains(t));
                        let q = choose|q: int| 0 <= q < before.len() && before[q] == t;
                        if q < pos {
                            assert(out@[q] == t);
                        } else {
                            assert(out@[q + 1] == t);
                        }
                    }
                }
            }
        }
        i = i + 1;
    }
    assert(v@.take(v@.len() as int) =~= v@);
    out
}

/// Whether task `a` comes before task `b` in manual order.
pub fn order_lt_exec(a: &Task, b: &Task) -> (r: bool)
    ensures
        r == order_lt(*a, *b),
{
    a.manual_order < b.manual_order || (a.manual_order == b.manual_order && a.id < b.id)
}

/// The part of `v` that `LIMIT limit OFFSET offset` selects.
pub fn paginate(v: &Vec<Task>, limit: Option<usize>, offset: Option<usize>) -> (r: Vec<Task>)
    ensures
        r@ == page(v@, limit, offset),
{
    let n = v.len();
    let start: usize = match offset {
        Some(o) => if o < n {
            o
        } else {
            n
        },
        None => 0,
    };
    let end: usize = match limit {
        Some(l) => if l < n - start {
            start + l
        } else {
            n
        },
        None => n,
    };
    let mut r: Vec<Task> = Vec::new();
    let mut i = start;
    while i < end
        invariant
            start <= i <= end <= n == v@.len(),
            r@ == v@.subrange(start as int, i as int),
        decreases end - i,
    {
        r.push(v[i].clone());
        assert(r@ =~= v@.subrange(start as int, i + 1));
        i = i + 1;
    }
    r
}


/// Whether the ids of `rows` increase strictly and lie in `1..next_id`.
fn check_rows(rows: &Vec<Task>, next_id: i64) -> (r: bool)
    ensures
        r == ((forall|i: int, j: int|
            0 <= i < j < rows@.len() ==> (#[trigger] rows@[i]).id < (#[trigger] rows@[j]).id)
            && (forall|i: int| 0 <= i < rows@.len() ==> 0 < (#[trigger] rows@[i]).id < next_id)),
{
    let mut i: usize = 0;
    while i < rows.len()
        invariant
            i <= rows@.len(),
            forall|a: int, b: int| 0 <= a < b < i ==> (#[trigger] rows@[a]).id < (#[trigger] rows@[b]).id,
            forall|a: int| 0 <= a < i ==> 0 < (#[trigger] rows@[a]).id < next_id,
        decreases rows@.len() - i,
    {
        if rows[i].id <= 0 || rows[i].id >= next_id {
            return false;
        }
        if i > 0 && rows[i - 1].id >= rows[i].id {
            return false;
        }
        proof {
            assert forall|a: int, b: int| 0 <= a < b < i + 1 implies (#[trigger] rows@[a]).id < (
            #[trigger] rows@[b]).id by {
                if b == i && a < i - 1 {
                    assert(rows@[a].id < rows@[i - 1].id);
                }
            }
        }
        i = i + 1;
    }
    true
}

/// Whether the ids of `files` increase strictly and lie in `1..next_id`, each
/// naming the task of an existing row.
fn check_files(files: &Vec<Artifact>, rows: &Vec<Task>, next_id: i64) -> (r: bool)
    requires
        task_ids(rows@).no_duplicates(),
    ensures
        r == ((forall|i: int, j: int|
            0 <= i < j < files@.len() ==> (#[trigger] files@[i]).id < (#[trigger] files@[j]).id) && (
        forall|i: int|
            0 <= i < files@.len() ==> 0 < (#[trigger] files@[i]).id < next_id && task_ids(rows@).contains(
                files@[i].task_id,
            ))),
{
    let mut i: usize = 0;
    while i < files.len()
        invariant
            i <= files@.len(),
            task_ids(rows@).no_duplicates(),
            forall|a: int, b: int| 0 <= a < b < i ==> (#[trigger] files@[a]).id < (#[trigger] files@[b]).id,
            forall|a: int|
                0 <= a < i ==> 0 < (#[trigger] files@[a]).id < next_id && task_ids(rows@).contains(
                    files@[a].task_id,
                ),
        decreases files@.len() - i,
    {
        if files[i].id <= 0 || files[i].id >= next_id {
            return false;
        }
        if i > 0 && files[i - 1].id >= files[i].id {
            return false;
        }
        match crate::graph::find_index(rows, files[i].task_id) {
            Some(j) => {
                proof {
                    lemma_task_ids_index(rows@, j as int);
                }
            },
            None => {
                return false;
            },
        }
        proof {
            assert forall|a: int, b: int| 0 <= a < b < i + 1 implies (#[trigger] files@[a]).id < (
            #[trigger] files@[b]).id by {
                if b == i && a < i - 1 {
                    assert(files@[a].id < files@[i - 1].id);
                }
            }
        }
        i = i + 1;
    }
    true
}

/// Whether every edge joins two existing rows, none is a self edge, none
/// occurs twice, and none closes a cycle.
fn check_edges(deps: &Vec<Dependency>, rows: &Vec<Task>) -> (r: bool)
    requires
        task_ids(rows@).no_duplicates(),
    ensures
        r == ((forall|k: int|
            0 <= k < deps@.len() ==> task_ids(rows@).contains((#[trigger] deps@[k]).task_id)
                && task_ids(rows@).contains(deps@[k].depends_on) && deps@[k].task_id
                != deps@[k].depends_on) && deps@.no_duplicates() && acyclic(deps@)),
{
    let mut k: usize = 0;
    while k < deps.len()
        invariant
            k <= deps@.len(),
            task_ids(rows@).no_duplicates(),
            forall|q: int|
                0 <= q < k ==> task_ids(rows@).contains((#[trigger] deps@[q]).task_id) && task_ids(
                    rows@,
                ).contains(deps@[q].depends_on) && deps@[q].task_id != deps@[q].depends_on,
            forall|a: int, b: int| 0 <= a < b < k ==> deps@[a] != deps@[b],
            forall|q: int|
                0 <= q < k ==> !reachable(deps@, (#[trigger] deps@[q]).depends_on, deps@[q].task_id),
        decreases deps@.len() - k,
    {
        let d = deps[k];
        if d.task_id == d.depends_on {
            return false;
        }
        match crate::graph::find_index(rows, d.task_id) {
            Some(j) => {
                proof {
                    lemma_task_ids_index(rows@, j as int);
                }
            },
            None => {
                return false;
            },
        }
        match crate::graph::find_index(rows, d.depends_on) {
            Some(j) => {
                proof {
                    lemma_task_ids_index(rows@, j as int);
                }
            },
            None => {
                return false;
            },
        }
        let mut q: usize = 0;
        while q < k
            invariant
                q <= k < deps@.len(),
                d == deps@[k as int],
                forall|a: int| 0 <= a < q ==> deps@[a] != d,
            decreases k - q,
        {
            if deps[q] == d {
                proof {
                    assert(deps@[q as int] == deps@[k as int]);
                    assert(!deps@.no_duplicates());
                }
                return false;
            }
            q = q + 1;
        }
        if crate::graph::would_create_cycle(d.task_id, d.depends_on, deps.as_slice()) {
            proof {
                assert(has_edge(deps@, d.task_id, d.depends_on));
            }
            return false;
        }
        k = k + 1;
    }
    proof {
        assert forall|a: i64, b: i64| #[trigger] has_edge(deps@, a, b) implies !reachable(deps@, b, a) by {
            let q = choose|q: int| 0 <= q < deps@.len() && deps@[q].task_id == a && deps@[q].depends_on == b;
            assert(!reachable(deps@, deps@[q].depends_on, deps@[q].task_id));
        }
    }
    true
}

/// Whether at most one row is in progress.
fn check_single_in_progress(rows: &Vec<Task>) -> (r: bool)
    ensures
        r == (forall|i: int, j: int|
            0 <= i < rows@.len() && 0 <= j < rows@.len() && (#[trigger] rows@[i]).status
                == TaskStatus::InProgress && (#[trigger] rows@[j]).status == TaskStatus::InProgress
                ==> i == j),
{
    let mut seen: Option<usize> = None;
    let mut i: usize = 0;
    while i < rows.len()
        invariant
            i <= rows@.len(),
            match seen {
                Some(s) => s < i && rows@[s as int].status == TaskStatus::InProgress && forall|a: int|
                    0 <= a < i && rows@[a].status == TaskStatus::InProgress ==> a == s,
                None => forall|a: int| 0 <= a < i ==> rows@[a].status != TaskStatus::InProgress,
            },
        decreases rows@.len() - i,
    {
        if rows[i].status == TaskStatus::InProgress {
            if seen.is_some() {
                return false;
            }
            seen = Some(i);
        }
        i = i + 1;
    }
    true
}

impl Store {
    /// The task rows, archived ones included, in id order.
    pub closed spec fn rows(&self) -> Seq<Task> {
        self.tasks@
    }

    /// The dependency edges, in the order they were added.
    pub closed spec fn edges(&self) -> Seq<Dependency> {
        self.deps@
    }

    /// The artifacts, in id order.
    pub closed spec fn files(&self) -> Seq<Artifact> {
        self.artifacts@
    }

    /// The focus task's id, if one is set.
    pub closed spec fn focus(&self) -> Option<i64> {
        self.target
    }

    /// The id the next task will get.
    pub closed spec fn next_task_id(&self) -> i64 {
        self.next_id
    }

    /// The id the next artifact will get.
    pub closed spec fn next_artifact_id(&self) -> i64 {
        self.next_artifact
    }

    /// The stored state keeps its invariants.
    pub open spec fn wf(&self) -> bool {
        store_wf(self.rows(), self.edges(), self.files(), self.next_task_id(), self.next_artifact_id())
    }

    /// An empty store.
    pub fn new() -> (s: Store)
        ensures
            s.wf(),
            s.rows() == Seq::<Task>::empty(),
            s.edges() == Seq::<Dependency>::empty(),
            s.files() == Seq::<Artifact>::empty(),
            s.focus() is None,
            s.next_task_id() == 1,
            s.next_artifact_id() == 1,
    {
        let s = Store {
            tasks: Vec::new(),
            deps: Vec::new(),
            artifacts: Vec::new(),
            target: None,
            next_id: 1,
            next_artifact: 1,
        };
        proof {
            assert forall|a: i64, b: i64| #[trigger] has_edge(s.deps@, a, b) implies !reachable(
                s.deps@,
                b,
                a,
            ) by {}
        }
        s
    }

    /// A store holding the rows given, when they keep the store's
    /// invariants; `Db` otherwise.
    pub fn from_rows(
        tasks: Vec<Task>,
        deps: Vec<Dependency>,
        artifacts: Vec<Artifact>,
        target: Option<i64>,
        next_id: i64,
        next_artifact: i64,
    ) -> (r: Result<Store, Error>)
        ensures
            match r {
                Ok(s) => s.wf() && s.rows() == tasks@ && s.edges() == deps@ && s.files() == artifacts@
                    && s.focus() == target && s.next_task_id() == next_id && s.next_artifact_id()
                    == next_artifact,
                Err(e) => e is Db && !store_wf(tasks@, deps@, artifacts@, next_id, next_artifact),
            },
    {
        if next_id <= 0 || next_artifact <= 0 || !check_rows(&tasks, next_id) {
            return Err(Error::Db(String::from_str("stored task rows are not consistent")));
        }
        proof {
            lemma_increasing_ids_nodup(tasks@);
        }
        if !check_edges(&deps, &tasks) {
            return Err(Error::Db(String::from_str("stored dependencies are not consistent")));
        }
        if !check_single_in_progress(&tasks) {
            return Err(Error::Db(String::from_str("Cannot have more than one in_progress task")));
        }
        if !check_files(&artifacts, &tasks, next_artifact) {
            return Err(Error::Db(String::from_str("stored artifacts are not consistent")));
        }
        Ok(Store { tasks, deps, artifacts, target, next_id, next_artifact })
    }
}

/// Rows with strictly increasing ids have distinct ids.
pub proof fn lemma_increasing_ids_nodup(rows: Seq<Task>)
    requires
        forall|i: int, j: int| 0 <= i < j < rows.len() ==> (#[trigger] rows[i]).id < (#[trigger] rows[j]).id,
    ensures
        task_ids(rows).no_duplicates(),
{
    assert forall|i: int, j: int| 0 <= i < task_ids(rows).len() && 0 <= j < task_ids(rows).len() && i != j implies task_ids(rows)[i] != task_ids(rows)[j] by {
        if i < j {
            assert(rows[i].id < rows[j].id);
        } else {
            assert(rows[j].id < rows[i].id);
        }
    }
}


/// A live task that is in progress.
pub open spec fn is_active(t: Task) -> bool {
    t.status == TaskStatus::InProgress && !t.deleted
}

/// Which rows a listing selects.
#[derive(PartialEq, Eq, Structural, Clone, Copy, Debug)]
pub enum RowFilter {
    /// The archived rows.
    Archived,
    /// The live rows.
    Live,
    /// The live rows with this status.
    Status(TaskStatus),
    /// The live rows that are pending or in progress.
    Active,
}

/// Row `t` passes filter `f`.
pub open spec fn row_matches(t: Task, f: RowFilter) -> bool {
    match f {
        RowFilter::Archived => t.deleted,
        RowFilter::Live => !t.deleted,
        RowFilter::Status(s) => !t.deleted && t.status == s,
        RowFilter::Active => !t.deleted && (t.status == TaskStatus::Pending || t.status == TaskStatus::InProgress),
    }
}

impl Store {
    /// The row with id `id`, left out when archived unless
    /// `include_archived`.
    pub fn get_task(&self, id: i64, include_archived: bool) -> (r: Option<Task>)
        requires
            self.wf(),
        ensures
            r == (if include_archived {
                task_by_id(self.rows(), id)
            } else {
                live_row(self.rows(), id)
            }),
    {
        match find_task_by_id(&self.tasks, id) {
            Some(t) => {
                if t.deleted && !include_archived {
                    None
                } else {
                    Some(t.clone())
                }
            },
            None => None,
        }
    }

    /// The live task in progress, if any.
    pub fn get_active_task(&self) -> (r: Option<Task>)
        requires
            self.wf(),
        ensures
            match r {
                Some(t) => self.rows().contains(t) && is_active(t),
                None => forall|i: int| 0 <= i < self.rows().len() ==> !is_active(#[trigger] self.rows()[i]),
            },
    {
        let mut i: usize = 0;
        while i < self.tasks.len()
            invariant
                i <= self.tasks@.len(),
                forall|j: int| 0 <= j < i ==> !is_active(#[trigger] self.tasks@[j]),
            decreases self.tasks@.len() - i,
        {
            if self.tasks[i].status == TaskStatus::InProgress && !self.tasks[i].deleted {
                let t = self.tasks[i].clone();
                proof {
                    assert(self.tasks@[i as int] == t);
                }
                return Some(t);
            }
            i = i + 1;
        }
        None
    }

    /// The rows that these filters select, sorted by manual order.
    pub fn select_tasks(&self, filter: RowFilter) -> (r: Vec<Task>)
        requires
            self.wf(),
        ensures
            ordered_selection(self.rows(), |t: Task| row_matches(t, filter), r@),
            task_ids(r@).no_duplicates(),
            filter == RowFilter::Active ==> forall|t: Task| #[trigger] r@.contains(t) <==> (self.rows().contains(t)
                && !t.deleted && (t.status == TaskStatus::Pending || t.status == TaskStatus::InProgress)),
            filter == RowFilter::Live ==> forall|t: Task| #[trigger] r@.contains(t) <==> (self.rows().contains(t)
                && !t.deleted),
            filter == RowFilter::Archived ==> forall|t: Task| #[trigger] r@.contains(t) <==> (self.rows().contains(t)
                && t.deleted),
            filter matches RowFilter::Status(st) ==> forall|t: Task| #[trigger] r@.contains(t) <==> (
            self.rows().contains(t) && !t.deleted && t.status == st),
    {
        let mut v: Vec<Task> = Vec::new();
        let mut i: usize = 0;
        proof {
            assert(task_ids(v@) =~= Seq::<i64>::empty());
        }
        while i < self.tasks.len()
            invariant
                self.wf(),
                i <= self.tasks@.len(),
                forall|t: Task| #[trigger]
                    v@.contains(t) <==> (self.tasks@.take(i as int).contains(t) && row_matches(t, filter)),
                forall|a: int, b: int| 0 <= a < b < v@.len() ==> (#[trigger] v@[a]).id < (#[trigger] v@[b]).id,
                forall|a: int| 0 <= a < v@.len() ==> exists|j: int| 0 <= j < i && self.tasks@[j] == #[trigger] v@[a],
            decreases self.tasks@.len() - i,
        {
            let ghost before = v@;
            let t = &self.tasks[i];
            proof {
                assert(self.tasks@.take(i + 1) =~= self.tasks@.take(i as int).push(self.tasks@[i as int]));
            }
            let selected = match filter {
                RowFilter::Archived => t.deleted,
                RowFilter::Live => !t.deleted,
                RowFilter::Status(st) => !t.deleted && t.status == st,
                RowFilter::Active => !t.deleted && (t.status == TaskStatus::Pending || t.status == TaskStatus::InProgress),
            };
            if selected {
                v.push(t.clone());
                proof {
                    assert forall|a: int, b: int| 0 <= a < b < v@.len() implies (#[trigger] v@[a]).id < (#[trigger] v@[b]).id by {
                        if b == before.len() {
                            let j = choose|j: int| 0 <= j < i && self.tasks@[j] == before[a];
                            assert(self.tasks@[j].id < self.tasks@[i as int].id);
                            assert(v@[a] == before[a]);
                        } else {
                            assert(v@[a] == before[a] && v@[b] == before[b]);
                        }
                    }
                    assert forall|a: int| 0 <= a < v@.len() implies exists|j: int| 0 <= j < i + 1 && self.tasks@[j] == #[trigger] v@[a] by {
                        if a < before.len() {
                            assert(v@[a] == before[a]);
                        } else {
                            assert(self.tasks@[i as int] == v@[a]);
                        }
                    }
                    assert forall|x: Task| #[trigger] v@.contains(x) <==> (self.tasks@.take(i + 1).contains(x) && row_matches(x, filter)) by {
                        crate::graph::lemma_push_contains(before, self.tasks@[i as int], x);
                        crate::graph::lemma_push_contains(self.tasks@.take(i as int), self.tasks@[i as int], x);
                    }
                }
            } else {
                proof {
                    assert forall|x: Task| #[trigger] v@.contains(x) <==> (self.tasks@.take(i + 1).contains(x) && row_matches(x, filter)) by {
                        crate::graph::lemma_push_contains(self.tasks@.take(i as int), self.tasks@[i as int], x);
                    }
                }
            }
            i = i + 1;
        }
        proof {
            assert(self.tasks@.take(self.tasks@.len() as int) =~= self.tasks@);
            lemma_increasing_ids_nodup(v@);
        }
        let r = sort_by_order(v);
        proof {
            assert forall|a: int, b: int| 0 <= a < task_ids(r@).len() && 0 <= b < task_ids(r@).len() && a != b implies task_ids(r@)[a] != task_ids(r@)[b] by {
                if a < b {
                    assert(order_lt(r@[a], r@[b]));
                } else {
                    assert(order_lt(r@[b], r@[a]));
                }
                assert(r@.contains(r@[a]) && r@.contains(r@[b]));
                if r@[a].id == r@[b].id && r@[a] != r@[b] {
                    let ja = choose|j: int| 0 <= j < self.tasks@.len() && self.tasks@[j] == r@[a];
                    let jb = choose|j: int| 0 <= j < self.tasks@.len() && self.tasks@[j] == r@[b];
                    if ja < jb {
                        assert(self.tasks@[ja].id < self.tasks@[jb].id);
                    } else if jb < ja {
                        assert(self.tasks@[jb].id < self.tasks@[ja].id);
                    }
                }
            }
        }
        r
    }

    /// Every live task, sorted by manual order.
    pub fn get_all_tasks(&self) -> (r: Vec<Task>)
        requires
            self.wf(),
        ensures
            ordered_selection(self.rows(), |t: Task| row_matches(t, RowFilter::Live), r@),
            task_ids(r@).no_duplicates(),
    {
        self.select_tasks(RowFilter::Live)
    }
}


/// `rows` with the row of `t`'s id replaced by `t`.
pub open spec fn with_row(rows: Seq<Task>, t: Task) -> Seq<Task> {
    rows.map_values(|r: Task| if r.id == t.id { t } else { r })
}

/// A row after it is started at `now`.
pub open spec fn started(t: Task, now: String) -> Task {
    Task { status: TaskStatus::InProgress, started_at: Some(now), last_touched_at: now, ..t }
}

/// A row after it is completed at `now`.
pub open spec fn completed(t: Task, now: String) -> Task {
    Task { status: TaskStatus::Completed, completed_at: Some(now), last_touched_at: now, ..t }
}

/// A row after its status is set to `s` at `now`.
pub open spec fn with_status(t: Task, s: TaskStatus, now: String) -> Task {
    Task { status: s, last_touched_at: now, ..t }
}

/// The live task in progress, if any.
pub open spec fn active_task(rows: Seq<Task>) -> Option<Task> {
    if exists|i: int| 0 <= i < rows.len() && is_active(#[trigger] rows[i]) {
        Some(rows[choose|i: int| 0 <= i < rows.len() && is_active(#[trigger] rows[i])])
    } else {
        None
    }
}

/// Some row, archived or not, is in progress.
pub open spec fn any_in_progress(rows: Seq<Task>) -> bool {
    exists|i: int| 0 <= i < rows.len() && (#[trigger] rows[i]).status == TaskStatus::InProgress
}

/// The prerequisites of `id`, in edge order, whose rows are not completed.
pub open spec fn incomplete_deps(rows: Seq<Task>, deps: Seq<Dependency>, id: i64) -> Seq<i64>
    decreases deps.len(),
{
    if deps.len() == 0 {
        Seq::empty()
    } else {
        incomplete_deps(rows, deps.drop_last(), id) + if deps.last().task_id == id && (task_by_id(
            rows,
            deps.last().depends_on,
        ) matches Some(p) && p.status != TaskStatus::Completed) {
            seq![deps.last().depends_on]
        } else {
            Seq::empty()
        }
    }
}

pub proof fn lemma_row_id_in(rows: Seq<Task>, t: Task)
    requires
        rows.contains(t),
    ensures
        task_ids(rows).contains(t.id),
{
    let k = choose|k: int| 0 <= k < rows.len() && rows[k] == t;
    lemma_task_ids_index(rows, k);
}

pub proof fn lemma_active_task(rows: Seq<Task>, t: Task)
    requires
        rows.contains(t),
        is_active(t),
        forall|i: int, j: int|
            0 <= i < rows.len() && 0 <= j < rows.len() && (#[trigger] rows[i]).status == TaskStatus::InProgress
                && (#[trigger] rows[j]).status == TaskStatus::InProgress ==> i == j,
    ensures
        active_task(rows) == Some(t),
{
    let k = choose|k: int| 0 <= k < rows.len() && rows[k] == t;
    assert(is_active(rows[k]));
    let c = choose|i: int| 0 <= i < rows.len() && is_active(#[trigger] rows[i]);
    assert(rows[c].status == TaskStatus::InProgress && rows[k].status == TaskStatus::InProgress);
}

impl Store {
    /// The index of the row with id `id`.
    fn row_index(&self, id: i64) -> (r: Option<usize>)
        requires
            self.wf(),
        ensures
            match r {
                Some(j) => j < self.rows().len() && self.rows()[j as int].id == id && task_by_id(self.rows(), id)
                    == Some(self.rows()[j as int]) && task_ids(self.rows()).contains(id),
                None => task_by_id(self.rows(), id) is None && !task_ids(self.rows()).contains(id),
            },
    {
        proof {
            lemma_increasing_ids_nodup(self.tasks@);
            lemma_task_by_id(self.tasks@, id);
        }
        let r = crate::graph::find_index(&self.tasks, id);
        proof {
            if let Some(j) = r {
                lemma_task_ids_index(self.tasks@, j as int);
                let t = task_by_id(self.tasks@, id)->0;
                let k = choose|k: int| 0 <= k < self.tasks@.len() && self.tasks@[k] == t;
                if k != j {
                    if k < j {
                        assert(self.tasks@[k].id < self.tasks@[j as int].id);
                    } else {
                        assert(self.tasks@[j as int].id < self.tasks@[k].id);
                    }
                }
            }
        }
        r
    }

    /// Replaces row `j` by `t`, which keeps its id.
    fn replace_row(&mut self, j: usize, t: Task)
        requires
            old(self).wf(),
            j < old(self).rows().len(),
            t.id == old(self).rows()[j as int].id,
            t.status == TaskStatus::InProgress ==> forall|i: int|
                0 <= i < old(self).rows().len() && i != j ==> (#[trigger] old(self).rows()[i]).status
                    != TaskStatus::InProgress,
        ensures
            final(self).wf(),
            final(self).rows() == old(self).rows().update(j as int, t),
            final(self).rows() == with_row(old(self).rows(), t),
            final(self).edges() == old(self).edges(),
            final(self).files() == old(self).files(),
            final(self).focus() == old(self).focus(),
            final(self).next_task_id() == old(self).next_task_id(),
            final(self).next_artifact_id() == old(self).next_artifact_id(),
    {
        let ghost old_rows = self.tasks@;
        self.tasks.set(j, t);
        proof {
            assert(task_ids(self.tasks@) =~= task_ids(old_rows));
            assert forall|i: int| 0 <= i < old_rows.len() implies #[trigger] self.tasks@[i] == (if old_rows[i].id == t.id {
                t
            } else {
                old_rows[i]
            }) by {
                if i != j {
                    if i < j {
                        assert(old_rows[i].id < old_rows[j as int].id);
                    } else {
                        assert(old_rows[j as int].id < old_rows[i].id);
                    }
                }
            }
            assert(self.tasks@ =~= with_row(old_rows, t));
            assert forall|a: int, b: int| 0 <= a < b < self.tasks@.len() implies (#[trigger] self.tasks@[a]).id < (#[trigger] self.tasks@[b]).id by {
                assert(old_rows[a].id < old_rows[b].id);
            }
            assert forall|a: int| 0 <= a < self.tasks@.len() implies 0 < (#[trigger] self.tasks@[a]).id < self.next_id by {
                assert(0 < old_rows[a].id < self.next_id);
            }
            assert forall|a: int, b: int|
                0 <= a < self.tasks@.len() && 0 <= b < self.tasks@.len() && (#[trigger] self.tasks@[a]).status
                    == TaskStatus::InProgress && (#[trigger] self.tasks@[b]).status == TaskStatus::InProgress implies a == b by {
                if a != j && b != j {
                    assert(old_rows[a].status == TaskStatus::InProgress);
                    assert(old_rows[b].status == TaskStatus::InProgress);
                }
            }
        }
    }
}


/// `r` with the value of its `Ok` dropped.
pub open spec fn discard_ok(r: Result<Task, Error>) -> Result<(), Error> {
    match r {
        Ok(_) => Ok(()),
        Err(e) => Err(e),
    }
}

/// Only the task rows may differ between `a` and `b`.
pub open spec fn same_but_rows(a: Store, b: Store) -> bool {
    &&& a.edges() == b.edges()
    &&& a.files() == b.files()
    &&& a.focus() == b.focus()
    &&& a.next_task_id() == b.next_task_id()
    &&& a.next_artifact_id() == b.next_artifact_id()
}

/// The outcome of starting task `id` at `now`: `r` is returned and the rows
/// become `rows2`.
pub open spec fn start_outcome(
    rows: Seq<Task>,
    deps: Seq<Dependency>,
    id: i64,
    now: String,
    r: Result<Task, Error>,
    rows2: Seq<Task>,
) -> bool {
    match live_row(rows, id) {
        None => (r matches Err(Error::TaskNotFound(x)) && x == id) && rows2 == rows,
        Some(t) => if t.status == TaskStatus::Pending && active_task(rows) is None && incomplete_deps(
            rows,
            deps,
            id,
        ).len() == 0 {
            if any_in_progress(rows) {
                (r matches Err(Error::Db(m)) && m@ == "Cannot have more than one in_progress task"@)
                    && rows2 == rows
            } else {
                r == Ok::<Task, Error>(started(t, now)) && rows2 == with_row(rows, started(t, now))
            }
        } else {
            &&& start_check(t, active_task(rows), incomplete_deps(rows, deps, id), discard_ok(r))
            &&& t.status == TaskStatus::InProgress ==> r == Ok::<Task, Error>(t)
            &&& rows2 == rows
        },
    }
}

/// The outcome of an action on the live task `id` that `allowed` statuses
/// permit and that moves it to `to`; other statuses are refused with
/// `refusal` followed by the status.
pub open spec fn status_action_outcome(
    rows: Seq<Task>,
    id: i64,
    now: String,
    allowed: spec_fn(TaskStatus) -> bool,
    to: TaskStatus,
    refusal: Seq<char>,
    r: Result<Task, Error>,
    rows2: Seq<Task>,
) -> bool {
    match live_row(rows, id) {
        None => (r matches Err(Error::TaskNotFound(x)) && x == id) && rows2 == rows,
        Some(t) => if allowed(t.status) {
            r == Ok::<Task, Error>(with_status(t, to, now)) && rows2 == with_row(rows, with_status(t, to, now))
        } else {
            (r matches Err(Error::NotSupported(m)) && m@ == refusal + status_debug(t.status)) && rows2 == rows
        },
    }
}

/// The outcome of cancelling task `id` at `now`.
pub open spec fn cancel_outcome(rows: Seq<Task>, id: i64, now: String, r: Result<Task, Error>, rows2: Seq<Task>) -> bool {
    status_action_outcome(rows, id, now, |s: TaskStatus| cancellable(s), TaskStatus::Cancelled, "Cannot cancel task with status "@, r, rows2)
}

/// The outcome of blocking task `id` at `now`.
pub open spec fn block_outcome(rows: Seq<Task>, id: i64, now: String, r: Result<Task, Error>, rows2: Seq<Task>) -> bool {
    status_action_outcome(rows, id, now, |s: TaskStatus| blockable(s), TaskStatus::Blocked, "Cannot block task with status "@, r, rows2)
}

/// The outcome of unblocking task `id` at `now`.
pub open spec fn unblock_outcome(rows: Seq<Task>, id: i64, now: String, r: Result<Task, Error>, rows2: Seq<Task>) -> bool {
    status_action_outcome(rows, id, now, |s: TaskStatus| unblockable(s), TaskStatus::Pending, "Cannot unblock task with status "@, r, rows2)
}

/// Statuses from which a task can be cancelled.
pub open spec fn cancellable(s: TaskStatus) -> bool {
    s == TaskStatus::Pending || s == TaskStatus::InProgress || s == TaskStatus::Blocked
}

/// Statuses from which a task can be blocked.
pub open spec fn blockable(s: TaskStatus) -> bool {
    s == TaskStatus::Pending || s == TaskStatus::InProgress
}

/// Statuses from which a task can be unblocked.
pub open spec fn unblockable(s: TaskStatus) -> bool {
    s == TaskStatus::Blocked
}

impl Store {
    /// The prerequisites of `id`, in edge order, whose rows are not
    /// completed.
    pub fn get_incomplete_dependencies(&self, id: i64) -> (r: Vec<i64>)
        requires
            self.wf(),
        ensures
            r@ == incomplete_deps(self.rows(), self.edges(), id),
    {
        let mut out: Vec<i64> = Vec::new();
        let mut k: usize = 0;
        while k < self.deps.len()
            invariant
                self.wf(),
                k <= self.deps@.len(),
                out@ == incomplete_deps(self.tasks@, self.deps@.take(k as int), id),
            decreases self.deps@.len() - k,
        {
            let d = self.deps[k];
            proof {
                assert(self.deps@.take(k + 1).drop_last() =~= self.deps@.take(k as int));
                assert(self.deps@.take(k + 1).last() == d);
            }
            if d.task_id == id {
                match find_task_by_id(&self.tasks, d.depends_on) {
                    Some(p) => {
                        if p.status != TaskStatus::Completed {
                            out.push(d.depends_on);
                        }
                    },
                    None => {},
                }
            }
            proof {
                assert(out@ =~= incomplete_deps(self.tasks@, self.deps@.take(k + 1), id));
            }
            k = k + 1;
        }
        proof {
            assert(self.deps@.take(self.deps@.len() as int) =~= self.deps@);
        }
        out
    }

    /// Whether some row, archived or not, is in progress.
    fn has_in_progress_row(&self) -> (r: bool)
        ensures
            r == any_in_progress(self.rows()),
    {
        let mut i: usize = 0;
        while i < self.tasks.len()
            invariant
                i <= self.tasks@.len(),
                forall|j: int| 0 <= j < i ==> (#[trigger] self.tasks@[j]).status != TaskStatus::InProgress,
            decreases self.tasks@.len() - i,
        {
            if self.tasks[i].status == TaskStatus::InProgress {
                return true;
            }
            i = i + 1;
        }
        false
    }

    /// The live task in progress, with its specification name.
    fn active(&self) -> (r: Option<Task>)
        requires
            self.wf(),
        ensures
            r == active_task(self.rows()),
            r matches Some(t) ==> self.rows().contains(t) && is_active(t) && task_ids(self.rows()).contains(t.id),
    {
        let r = self.get_active_task();
        proof {
            if r is Some {
                lemma_active_task(self.tasks@, r->0);
                lemma_row_id_in(self.tasks@, r->0);
            }
        }
        r
    }

    /// Starts task `id`: it must be live and pending (starting a task in
    /// progress returns it unchanged), no task may be in progress, and its
    /// prerequisites must be completed.
    pub fn start_task(&mut self, id: i64, now: &String) -> (r: Result<Task, Error>)
        requires
            old(self).wf(),
        ensures
            final(self).wf(),
            same_but_rows(*old(self), *final(self)),
            start_outcome(old(self).rows(), old(self).edges(), id, *now, r, final(self).rows()),
    {
        let task = match self.get_task(id, false) {
            Some(t) => t,
            None => {
                return Err(Error::TaskNotFound(id));
            },
        };
        let active = self.active();
        let incomplete = self.get_incomplete_dependencies(id);
        let checked = match &active {
            Some(a) => can_start_task(&task, Some(a), incomplete.as_slice()),
            None => can_start_task(&task, None, incomplete.as_slice()),
        };
        match checked {
            Ok(_) => {},
            Err(e) => {
                return Err(e);
            },
        }
        if task.status == TaskStatus::InProgress {
            return Ok(task);
        }
        if self.has_in_progress_row() {
            return Err(Error::Db(String::from_str("Cannot have more than one in_progress task")));
        }
        let j = match self.row_index(id) {
            Some(j) => j,
            None => {
                return Err(Error::TaskNotFound(id));
            },
        };
        let t = Task {
            status: TaskStatus::InProgress,
            started_at: Some(now.clone()),
            last_touched_at: now.clone(),
            ..task
        };
        self.replace_row(j, t.clone());
        Ok(t)
    }
}


/// The outcome of stopping the task in progress at `now`.
pub open spec fn stop_outcome(rows: Seq<Task>, now: String, r: Result<Task, Error>, rows2: Seq<Task>) -> bool {
    match active_task(rows) {
        None => r matches Err(Error::NoActiveTask) && rows2 == rows,
        Some(t) => r == Ok::<Task, Error>(with_status(t, TaskStatus::Pending, now)) && rows2 == with_row(
            rows,
            with_status(t, TaskStatus::Pending, now),
        ),
    }
}

/// The outcome of completing the task in progress at `now`: it needs a
/// definition of done that is not blank.
pub open spec fn complete_outcome(rows: Seq<Task>, now: String, r: Result<Task, Error>, rows2: Seq<Task>) -> bool {
    match active_task(rows) {
        None => r matches Err(Error::NoActiveTask) && rows2 == rows,
        Some(t) => if t.dod is None || is_blank(t.dod->0@) {
            (r matches Err(Error::NoDod(x)) && x == t.id) && rows2 == rows
        } else {
            r == Ok::<Task, Error>(completed(t, now)) && rows2 == with_row(rows, completed(t, now))
        },
    }
}

impl Store {
    /// Stops the task in progress: it goes back to pending.
    pub fn stop_task(&mut self, now: &String) -> (r: Result<Task, Error>)
        requires
            old(self).wf(),
        ensures
            final(self).wf(),
            same_but_rows(*old(self), *final(self)),
            stop_outcome(old(self).rows(), *now, r, final(self).rows()),
    {
        let task = match self.active() {
            Some(t) => t,
            None => {
                return Err(Error::NoActiveTask);
            },
        };
        let j = match self.row_index(task.id) {
            Some(j) => j,
            None => {
                return Err(Error::TaskNotFound(task.id));
            },
        };
        let t = Task { status: TaskStatus::Pending, last_touched_at: now.clone(), ..task };
        self.replace_row(j, t.clone());
        Ok(t)
    }

    /// Completes the task in progress; it must have a definition of done.
    pub fn complete_task(&mut self, now: &String) -> (r: Result<Task, Error>)
        requires
            old(self).wf(),
        ensures
            final(self).wf(),
            same_but_rows(*old(self), *final(self)),
            complete_outcome(old(self).rows(), *now, r, final(self).rows()),
    {
        let task = match self.active() {
            Some(t) => t,
            None => {
                return Err(Error::NoActiveTask);
            },
        };
        match can_complete_task(&task) {
            Ok(_) => {},
            Err(e) => {
                return Err(e);
            },
        }
        let j = match self.row_index(task.id) {
            Some(j) => j,
            None => {
                return Err(Error::TaskNotFound(task.id));
            },
        };
        let t = Task {
            status: TaskStatus::Completed,
            completed_at: Some(now.clone()),
            last_touched_at: now.clone(),
            ..task
        };
        self.replace_row(j, t.clone());
        Ok(t)
    }

    /// Sets the status of the live task at row `j` to `to`.
    fn set_status(&mut self, j: usize, task: Task, to: TaskStatus, now: &String) -> (r: Task)
        requires
            old(self).wf(),
            j < old(self).rows().len(),
            old(self).rows()[j as int] == task,
            to != TaskStatus::InProgress,
        ensures
            final(self).wf(),
            same_but_rows(*old(self), *final(self)),
            r == with_status(task, to, *now),
            final(self).rows() == with_row(old(self).rows(), r),
    {
        let t = Task { status: to, last_touched_at: now.clone(), ..task };
        self.replace_row(j, t.clone());
        t
    }

    /// Cancels task `id`: it must be live and pending, in progress or
    /// blocked.
    pub fn cancel_task(&mut self, id: i64, now: &String) -> (r: Result<Task, Error>)
        requires
            old(self).wf(),
        ensures
            final(self).wf(),
            same_but_rows(*old(self), *final(self)),
            cancel_outcome(old(self).rows(), id, *now, r, final(self).rows()),
    {
        let task = match self.get_task(id, false) {
            Some(t) => t,
            None => {
                return Err(Error::TaskNotFound(id));
            },
        };
        match can_cancel_task(&task) {
            Ok(_) => {},
            Err(e) => {
                return Err(e);
            },
        }
        let j = match self.row_index(id) {
            Some(j) => j,
            None => {
                return Err(Error::TaskNotFound(id));
            },
        };
        Ok(self.set_status(j, task, TaskStatus::Cancelled, now))
    }

    /// Blocks task `id`: it must be live and pending or in progress.
    pub fn block_task(&mut self, id: i64, now: &String) -> (r: Result<Task, Error>)
        requires
            old(self).wf(),
        ensures
            final(self).wf(),
            same_but_rows(*old(self), *final(self)),
            block_outcome(old(self).rows(), id, *now, r, final(self).rows()),
    {
        let task = match self.get_task(id, false) {
            Some(t) => t,
            None => {
                return Err(Error::TaskNotFound(id));
            },
        };
        match can_block_task(&task) {
            Ok(_) => {},
            Err(e) => {
                return Err(e);
            },
        }
        let j = match self.row_index(id) {
            Some(j) => j,
            None => {
                return Err(Error::TaskNotFound(id));
            },
        };
        Ok(self.set_status(j, task, TaskStatus::Blocked, now))
    }

    /// Unblocks task `id`: it must be live and blocked; it goes back to
    /// pending.
    pub fn unblock_task(&mut self, id: i64, now: &String) -> (r: Result<Task, Error>)
        requires
            old(self).wf(),
        ensures
            final(self).wf(),
            same_but_rows(*old(self), *final(self)),
            unblock_outcome(old(self).rows(), id, *now, r, final(self).rows()),
    {
        let task = match self.get_task(id, false) {
            Some(t) => t,
            None => {
                return Err(Error::TaskNotFound(id));
            },
        };
        match can_unblock_task(&task) {
            Ok(_) => {},
            Err(e) => {
                return Err(e);
            },
        }
        let j = match self.row_index(id) {
            Some(j) => j,
            None => {
                return Err(Error::TaskNotFound(id));
            },
        };
        Ok(self.set_status(j, task, TaskStatus::Pending, now))
    }
}


/// A graph whose every edge maps under `f` to an edge of an acyclic graph
/// is acyclic.
pub proof fn lemma_acyclic_map(deps: Seq<Dependency>, deps2: Seq<Dependency>, f: spec_fn(i64) -> i64)
    requires
        acyclic(deps),
        forall|k: int| 0 <= k < deps2.len() ==> has_edge(deps, f((#[trigger] deps2[k]).task_id), f(deps2[k].depends_on)),
    ensures
        acyclic(deps2),
{
    assert forall|a: i64, b: i64| #[trigger] has_edge(deps2, a, b) implies !reachable(deps2, b, a) by {
        let k = choose|k: int| 0 <= k < deps2.len() && deps2[k].task_id == a && deps2[k].depends_on == b;
        assert(has_edge(deps, f(deps2[k].task_id), f(deps2[k].depends_on)));
        if reachable(deps2, b, a) {
            lemma_reach_map(deps, deps2, f, b, a);
        }
    }
}

/// Keeping some of the edges of an acyclic graph keeps it acyclic.
pub proof fn lemma_acyclic_sub(deps: Seq<Dependency>, deps2: Seq<Dependency>)
    requires
        acyclic(deps),
        forall|k: int| 0 <= k < deps2.len() ==> deps.contains(#[trigger] deps2[k]),
    ensures
        acyclic(deps2),
{
    let f = |x: i64| x;
    assert forall|k: int| 0 <= k < deps2.len() implies has_edge(deps, f((#[trigger] deps2[k]).task_id), f(deps2[k].depends_on)) by {
        assert(deps.contains(deps2[k]));
        let j = choose|j: int| 0 <= j < deps.len() && deps[j] == deps2[k];
        assert(deps[j].task_id == deps2[k].task_id && deps[j].depends_on == deps2[k].depends_on);
    }
    lemma_acyclic_map(deps, deps2, f);
}

/// Adding an edge whose prerequisite does not reach its dependent keeps a
/// graph acyclic.
pub proof fn lemma_acyclic_push(deps: Seq<Dependency>, e: Dependency)
    requires
        acyclic(deps),
        !reachable(deps, e.depends_on, e.task_id),
    ensures
        acyclic(deps.push(e)),
{
    let g = deps.push(e);
    assert forall|a: i64, b: i64| #[trigger] has_edge(g, a, b) implies !reachable(g, b, a) by {
        let k = choose|k: int| 0 <= k < g.len() && g[k].task_id == a && g[k].depends_on == b;
        if reachable(g, b, a) {
            lemma_reach_push(deps, e, b, a);
            if k < deps.len() {
                assert(deps[k] == g[k]);
                assert(has_edge(deps, a, b));
                if !reachable(deps, b, a) {
                    // b reaches e's dependent and e's prerequisite reaches a,
                    // so e's prerequisite reaches its dependent through a -> b.
                    lemma_reach_step(deps, e.depends_on, a, k);
                    lemma_reach_trans(deps, e.depends_on, b, e.task_id);
                }
            } else {
                assert(g[k] == e);
            }
        }
    }
}

/// `edges` after inserting, one by one, an edge from `task_id` to each of
/// `ids`, and the first id whose edge was already there (the insertion
/// stops there).
pub open spec fn insert_edges(edges: Seq<Dependency>, task_id: i64, ids: Seq<i64>) -> (Seq<Dependency>, Option<i64>)
    decreases ids.len(),
{
    if ids.len() == 0 {
        (edges, None)
    } else {
        let prev = insert_edges(edges, task_id, ids.drop_last());
        if prev.1 is Some {
            prev
        } else {
            let d = Dependency { task_id: task_id, depends_on: ids.last() };
            if prev.0.contains(d) {
                (prev.0, Some(ids.last()))
            } else {
                (prev.0.push(d), None)
            }
        }
    }
}

/// `edges` without the edge `d`.
pub open spec fn without_edge(edges: Seq<Dependency>, d: Dependency) -> Seq<Dependency>
    decreases edges.len(),
{
    if edges.len() == 0 {
        edges
    } else {
        without_edge(edges.drop_last(), d) + if edges.last() == d {
            Seq::empty()
        } else {
            seq![edges.last()]
        }
    }
}

/// `edges` after removing, one by one, the edge from `task_id` to each of
/// `ids`, and the first id whose edge was missing (the removal stops there).
pub open spec fn remove_edges(edges: Seq<Dependency>, task_id: i64, ids: Seq<i64>) -> (Seq<Dependency>, Option<i64>)
    decreases ids.len(),
{
    if ids.len() == 0 {
        (edges, None)
    } else {
        let prev = remove_edges(edges, task_id, ids.drop_last());
        if prev.1 is Some {
            prev
        } else {
            let d = Dependency { task_id: task_id, depends_on: ids.last() };
            if prev.0.contains(d) {
                (without_edge(prev.0, d), None)
            } else {
                (prev.0, Some(ids.last()))
            }
        }
    }
}

/// The message with which a second copy of an edge is refused.
pub open spec fn duplicate_edge_message() -> Seq<char> {
    "UNIQUE constraint failed: dependencies.task_id, dependencies.depends_on"@
}

/// The refusal of an edge that would close a cycle: the edge, and the
/// cycle as `find_cycle_path` gives it.
pub open spec fn cycle_refusal(edges: Seq<Dependency>, task_id: i64, depends_on: i64, e: Error) -> bool {
    &&& e matches Error::CycleDetected(a, b, path) && a == task_id && b == depends_on
    &&& task_id == depends_on ==> (e matches Error::CycleDetected(_, _, path) && path@ == seq![task_id, depends_on])
    &&& task_id != depends_on ==> (e matches Error::CycleDetected(_, _, path) && is_cycle_path(edges, task_id, depends_on, path@))
    &&& e matches Error::CycleDetected(_, _, path) && cycle_path_of(edges, task_id, depends_on) == Some(path@)
}

/// Only the edges may differ between `a` and `b`.
pub open spec fn same_but_edges(a: Store, b: Store) -> bool {
    &&& a.rows() == b.rows()
    &&& a.files() == b.files()
    &&& a.focus() == b.focus()
    &&& a.next_task_id() == b.next_task_id()
    &&& a.next_artifact_id() == b.next_artifact_id()
}

impl Store {
    /// The cycle error for the edge from `task_id` to `depends_on`, which
    /// would close a cycle.
    fn cycle_error(&self, task_id: i64, depends_on: i64) -> (e: Error)
        requires
            reachable(self.edges(), depends_on, task_id),
        ensures
            cycle_refusal(self.edges(), task_id, depends_on, e),
    {
        match find_cycle_path(task_id, depends_on, self.deps.as_slice()) {
            Some(path) => Error::CycleDetected(task_id, depends_on, path),
            None => {
                let mut path: Vec<i64> = Vec::new();
                path.push(task_id);
                path.push(depends_on);
                path.push(task_id);
                Error::CycleDetected(task_id, depends_on, path)
            },
        }
    }

    /// Whether the edge `d` is stored.
    fn has_edge_row(&self, d: Dependency) -> (r: bool)
        ensures
            r == self.edges().contains(d),
    {
        let mut k: usize = 0;
        while k < self.deps.len()
            invariant
                k <= self.deps@.len(),
                forall|j: int| 0 <= j < k ==> self.deps@[j] != d,
            decreases self.deps@.len() - k,
        {
            if self.deps[k] == d {
                proof {
                    assert(self.deps@[k as int] == d);
                }
                return true;
            }
            k = k + 1;
        }
        false
    }

    /// Stores the edge `d` between two rows; a second copy is refused.
    fn insert_edge(&mut self, d: Dependency) -> (r: Result<(), Error>)
        requires
            old(self).wf(),
            task_ids(old(self).rows()).contains(d.task_id),
            task_ids(old(self).rows()).contains(d.depends_on),
            !reachable(old(self).edges(), d.depends_on, d.task_id),
        ensures
            final(self).wf(),
            same_but_edges(*old(self), *final(self)),
            old(self).edges().contains(d) ==> (r matches Err(Error::Db(m)) && m@ == duplicate_edge_message())
                && final(self).edges() == old(self).edges(),
            !old(self).edges().contains(d) ==> r is Ok && final(self).edges() == old(self).edges().push(d),
    {
        if self.has_edge_row(d) {
            return Err(Error::Db(String::from_str("UNIQUE constraint failed: dependencies.task_id, dependencies.depends_on")));
        }
        let ghost before = self.deps@;
        proof {
            lemma_reach_refl(before, d.task_id);
            lemma_acyclic_push(before, d);
        }
        self.deps.push(d);
        proof {
            assert forall|k: int| 0 <= k < self.deps@.len() implies task_ids(self.tasks@).contains((#[trigger] self.deps@[k]).task_id)
                && task_ids(self.tasks@).contains(self.deps@[k].depends_on) && self.deps@[k].task_id != self.deps@[k].depends_on by {
                if k < before.len() {
                    assert(self.deps@[k] == before[k]);
                }
            }
            assert forall|a: int, b: int| 0 <= a < self.deps@.len() && 0 <= b < self.deps@.len() && a != b implies self.deps@[a] != self.deps@[b] by {
                if a < before.len() && b < before.len() {
                    assert(self.deps@[a] == before[a] && self.deps@[b] == before[b]);
                } else if a < before.len() {
                    assert(before.contains(before[a]));
                } else {
                    assert(before.contains(before[b]));
                }
            }
        }
        Ok(())
    }

    /// Makes `task_id` depend on `depends_on`. Both must be live tasks, and
    /// the edge must not close a cycle (an edge from a task to itself
    /// closes one).
    pub fn add_dependency(&mut self, task_id: i64, depends_on: i64) -> (r: Result<(), Error>)
        requires
            old(self).wf(),
        ensures
            final(self).wf(),
            add_dependency_outcome(*old(self), *final(self), task_id, depends_on, r),
    {
        if self.get_task(task_id, false).is_none() {
            return Err(Error::TaskNotFound(task_id));
        }
        if self.get_task(depends_on, false).is_none() {
            return Err(Error::TaskNotFound(depends_on));
        }
        if would_create_cycle(task_id, depends_on, self.deps.as_slice()) {
            return Err(self.cycle_error(task_id, depends_on));
        }
        proof {
            lemma_task_by_id(self.tasks@, task_id);
            lemma_task_by_id(self.tasks@, depends_on);
        }
        self.insert_edge(Dependency { task_id, depends_on })
    }
}


pub proof fn lemma_without_edge(edges: Seq<Dependency>, d: Dependency)
    ensures
        forall|x: Dependency| #[trigger] without_edge(edges, d).contains(x) <==> (edges.contains(x) && x != d),
        edges.no_duplicates() ==> without_edge(edges, d).no_duplicates(),
    decreases edges.len(),
{
    if edges.len() > 0 {
        let e = edges.drop_last();
        lemma_without_edge(e, d);
        assert(edges =~= e.push(edges.last()));
        let w = without_edge(edges, d);
        if edges.last() == d {
            assert(w =~= without_edge(e, d));
        } else {
            assert(w =~= without_edge(e, d).push(edges.last()));
        }
        assert forall|x: Dependency| #[trigger] w.contains(x) <==> (edges.contains(x) && x != d) by {
            crate::graph::lemma_push_contains(e, edges.last(), x);
            crate::graph::lemma_push_contains(without_edge(e, d), edges.last(), x);
        }
        if edges.no_duplicates() {
            assert(e.no_duplicates()) by {
                assert forall|a: int, b: int| 0 <= a < e.len() && 0 <= b < e.len() && a != b implies e[a] != e[b] by {
                    assert(edges[a] == e[a] && edges[b] == e[b]);
                }
            }
            if edges.last() != d {
                let we = without_edge(e, d);
                assert(!e.contains(edges.last())) by {
                    if e.contains(edges.last()) {
                        let j = choose|j: int| 0 <= j < e.len() && e[j] == edges.last();
                        assert(edges[j] == edges[edges.len() - 1]);
                    }
                }
                assert(!we.contains(edges.last()));
                assert forall|a: int, b: int| 0 <= a < w.len() && 0 <= b < w.len() && a != b implies w[a] != w[b] by {
                    if a < we.len() && b < we.len() {
                        assert(w[a] == we[a] && w[b] == we[b]);
                    } else if a < we.len() {
                        assert(we.contains(we[a]));
                    } else if b < we.len() {
                        assert(we.contains(we[b]));
                    }
                }
            }
        }
    } else {
        assert(without_edge(edges, d) =~= edges);
    }
}

/// The first of `ids` that is no live task.
pub open spec fn first_missing(rows: Seq<Task>, ids: Seq<i64>) -> Option<i64>
    decreases ids.len(),
{
    if ids.len() == 0 {
        None
    } else if first_missing(rows, ids.drop_last()) is Some {
        first_missing(rows, ids.drop_last())
    } else if live_row(rows, ids.last()) is None {
        Some(ids.last())
    } else {
        None
    }
}

/// The first of `ids` that reaches `task_id`: an edge from `task_id` to it
/// would close a cycle.
pub open spec fn first_cycle(edges: Seq<Dependency>, task_id: i64, ids: Seq<i64>) -> Option<i64>
    decreases ids.len(),
{
    if ids.len() == 0 {
        None
    } else if first_cycle(edges, task_id, ids.drop_last()) is Some {
        first_cycle(edges, task_id, ids.drop_last())
    } else if reachable(edges, ids.last(), task_id) {
        Some(ids.last())
    } else {
        None
    }
}

impl Store {
    /// Removes the edge from `task_id` to `depends_on`; a missing edge is
    /// refused.
    pub fn remove_dependency(&mut self, task_id: i64, depends_on: i64) -> (r: Result<(), Error>)
        requires
            old(self).wf(),
        ensures
            final(self).wf(),
            remove_dependency_outcome(*old(self), *final(self), task_id, depends_on, r),
    {
        let d = Dependency { task_id, depends_on };
        if !self.has_edge_row(d) {
            return Err(Error::NotSupported(String::from_str("Dependency does not exist")));
        }
        let mut kept: Vec<Dependency> = Vec::new();
        let mut k: usize = 0;
        while k < self.deps.len()
            invariant
                k <= self.deps@.len(),
                kept@ == without_edge(self.deps@.take(k as int), d),
            decreases self.deps@.len() - k,
        {
            proof {
                assert(self.deps@.take(k + 1).drop_last() =~= self.deps@.take(k as int));
            }
            if self.deps[k] != d {
                kept.push(self.deps[k]);
            }
            proof {
                assert(kept@ =~= without_edge(self.deps@.take(k + 1), d));
            }
            k = k + 1;
        }
        proof {
            assert(self.deps@.take(self.deps@.len() as int) =~= self.deps@);
            lemma_without_edge(self.deps@, d);
            assert forall|j: int| 0 <= j < kept@.len() implies self.deps@.contains(#[trigger] kept@[j]) by {
                assert(kept@.contains(kept@[j]));
            }
            lemma_acyclic_sub(self.deps@, kept@);
            assert forall|j: int| 0 <= j < kept@.len() implies task_ids(self.tasks@).contains((#[trigger] kept@[j]).task_id)
                && task_ids(self.tasks@).contains(kept@[j].depends_on) && kept@[j].task_id != kept@[j].depends_on by {
                assert(kept@.contains(kept@[j]));
                let q = choose|q: int| 0 <= q < self.deps@.len() && self.deps@[q] == kept@[j];
                assert(self.deps@[q] == kept@[j]);
            }
        }
        self.deps = kept;
        Ok(())
    }

    /// Removes the edges from `task_id` to each of `ids` in turn, stopping
    /// at the first that is missing.
    pub fn remove_dependencies(&mut self, task_id: i64, ids: Vec<i64>) -> (r: Result<(), Error>)
        requires
            old(self).wf(),
        ensures
            final(self).wf(),
            remove_dependencies_outcome(*old(self), *final(self), task_id, ids@, r),
    {
        let ghost start = *self;
        let mut i: usize = 0;
        while i < ids.len()
            invariant
                self.wf(),
                start == *old(self),
                same_but_edges(start, *self),
                i <= ids@.len(),
                remove_edges(start.edges(), task_id, ids@.take(i as int)) == (self.edges(), None::<i64>),
            decreases ids@.len() - i,
        {
            proof {
                assert(ids@.take(i + 1).drop_last() =~= ids@.take(i as int));
            }
            let ghost before = *self;
            let res = self.remove_dependency(task_id, ids[i]);
            proof {
                assert(ids@.take(i + 1).last() == ids@[i as int]);
                assert(remove_edges(start.edges(), task_id, ids@.take(i + 1)) == (if before.edges().contains(
                    Dependency { task_id: task_id, depends_on: ids@[i as int] },
                ) {
                    (without_edge(before.edges(), Dependency { task_id: task_id, depends_on: ids@[i as int] }), None::<i64>)
                } else {
                    (before.edges(), Some(ids@[i as int]))
                }));
            }
            if res.is_err() {
                proof {
                    lemma_remove_edges_stop(start.edges(), task_id, ids@, i as int);
                }
                return res;
            }
            i = i + 1;
        }
        proof {
            assert(ids@.take(ids@.len() as int) =~= ids@);
        }
        Ok(())
    }
}

/// Once the removal has stopped, later ids change nothing.
proof fn lemma_remove_edges_stop(edges: Seq<Dependency>, task_id: i64, ids: Seq<i64>, i: int)
    requires
        0 <= i < ids.len(),
        remove_edges(edges, task_id, ids.take(i + 1)).1 is Some,
    ensures
        remove_edges(edges, task_id, ids) == remove_edges(edges, task_id, ids.take(i + 1)),
    decreases ids.len() - i,
{
    if i + 1 < ids.len() {
        assert(ids.take(i + 2).drop_last() =~= ids.take(i + 1));
        lemma_remove_edges_stop(edges, task_id, ids, i + 1);
    } else {
        assert(ids.take(i + 1) =~= ids);
    }
}

/// Once the insertion has stopped, later ids change nothing.
proof fn lemma_insert_edges_stop(edges: Seq<Dependency>, task_id: i64, ids: Seq<i64>, i: int)
    requires
        0 <= i < ids.len(),
        insert_edges(edges, task_id, ids.take(i + 1)).1 is Some,
    ensures
        insert_edges(edges, task_id, ids) == insert_edges(edges, task_id, ids.take(i + 1)),
    decreases ids.len() - i,
{
    if i + 1 < ids.len() {
        assert(ids.take(i + 2).drop_last() =~= ids.take(i + 1));
        lemma_insert_edges_stop(edges, task_id, ids, i + 1);
    } else {
        assert(ids.take(i + 1) =~= ids);
    }
}


proof fn lemma_first_missing_none(rows: Seq<Task>, ids: Seq<i64>)
    requires
        first_missing(rows, ids) is None,
    ensures
        forall|j: int| 0 <= j < ids.len() ==> live_row(rows, #[trigger] ids[j]) is Some,
    decreases ids.len(),
{
    if ids.len() > 0 {
        lemma_first_missing_none(rows, ids.drop_last());
        assert forall|j: int| 0 <= j < ids.len() implies live_row(rows, #[trigger] ids[j]) is Some by {
            if j < ids.len() - 1 {
                assert(ids.drop_last()[j] == ids[j]);
            }
        }
    }
}

proof fn lemma_first_cycle_none(edges: Seq<Dependency>, task_id: i64, ids: Seq<i64>)
    requires
        first_cycle(edges, task_id, ids) is None,
    ensures
        forall|j: int| 0 <= j < ids.len() ==> !reachable(edges, #[trigger] ids[j], task_id),
    decreases ids.len(),
{
    if ids.len() > 0 {
        lemma_first_cycle_none(edges, task_id, ids.drop_last());
        assert forall|j: int| 0 <= j < ids.len() implies !reachable(edges, #[trigger] ids[j], task_id) by {
            if j < ids.len() - 1 {
                assert(ids.drop_last()[j] == ids[j]);
            }
        }
    }
}

/// The outcome of making `task_id` depend on each of `ids`: `r` is returned
/// and the edges become `edges2`.
pub open spec fn add_deps_outcome(
    rows: Seq<Task>,
    edges: Seq<Dependency>,
    task_id: i64,
    ids: Seq<i64>,
    r: Result<(), Error>,
    edges2: Seq<Dependency>,
) -> bool {
    match first_missing(rows, ids) {
        Some(x) => (r matches Err(Error::TaskNotFound(y)) && y == x) && edges2 == edges,
        None => match first_cycle(edges, task_id, ids) {
            Some(x) => (r matches Err(e) && cycle_refusal(edges, task_id, x, e)) && edges2 == edges,
            None => if ids.len() > 0 && !task_ids(rows).contains(task_id) {
                (r matches Err(Error::Db(m)) && m@ == "FOREIGN KEY constraint failed"@) && edges2 == edges
            } else {
                &&& edges2 == insert_edges(edges, task_id, ids).0
                &&& insert_edges(edges, task_id, ids).1 is None ==> r is Ok
                &&& insert_edges(edges, task_id, ids).1 is Some ==> (r matches Err(Error::Db(m)) && m@
                    == duplicate_edge_message())
            },
        },
    }
}

impl Store {
    /// Makes `task_id` depend on each of `ids`: all must be live tasks and
    /// none may close a cycle (both checked before any edge is added); then
    /// the edges are added in turn, stopping at the first that is already
    /// there.
    pub fn add_dependencies(&mut self, task_id: i64, ids: Vec<i64>) -> (r: Result<(), Error>)
        requires
            old(self).wf(),
        ensures
            final(self).wf(),
            add_dependencies_outcome(*old(self), *final(self), task_id, ids@, r),
    {
        let mut i: usize = 0;
        while i < ids.len()
            invariant
                self.wf(),
                i <= ids@.len(),
                first_missing(self.rows(), ids@.take(i as int)) is None,
            decreases ids@.len() - i,
        {
            proof {
                assert(ids@.take(i + 1).drop_last() =~= ids@.take(i as int));
                assert(ids@.take(i + 1).last() == ids@[i as int]);
            }
            if self.get_task(ids[i], false).is_none() {
                proof {
                    lemma_first_missing_stop(self.rows(), ids@, i as int);
                }
                return Err(Error::TaskNotFound(ids[i]));
            }
            i = i + 1;
        }
        proof {
            assert(ids@.take(ids@.len() as int) =~= ids@);
        }
        let mut i: usize = 0;
        while i < ids.len()
            invariant
                self.wf(),
                i <= ids@.len(),
                first_missing(self.rows(), ids@) is None,
                first_cycle(self.edges(), task_id, ids@.take(i as int)) is None,
            decreases ids@.len() - i,
        {
            proof {
                assert(ids@.take(i + 1).drop_last() =~= ids@.take(i as int));
                assert(ids@.take(i + 1).last() == ids@[i as int]);
            }
            if would_create_cycle(task_id, ids[i], self.deps.as_slice()) {
                proof {
                    lemma_first_cycle_stop(self.edges(), task_id, ids@, i as int);
                }
                return Err(self.cycle_error(task_id, ids[i]));
            }
            i = i + 1;
        }
        proof {
            assert(ids@.take(ids@.len() as int) =~= ids@);
            lemma_first_missing_none(self.rows(), ids@);
            lemma_first_cycle_none(self.edges(), task_id, ids@);
        }
        if ids.len() > 0 && self.row_index(task_id).is_none() {
            return Err(Error::Db(String::from_str("FOREIGN KEY constraint failed")));
        }
        let ghost start = *self;
        let mut i: usize = 0;
        proof {
            assert(ids@.take(0) =~= Seq::<i64>::empty());
        }
        while i < ids.len()
            invariant
                self.wf(),
                start == *old(self),
                same_but_edges(start, *self),
                i <= ids@.len(),
                ids@.len() > 0 ==> task_ids(start.rows()).contains(task_id),
                first_missing(start.rows(), ids@) is None,
                first_cycle(start.edges(), task_id, ids@) is None,
                forall|j: int| 0 <= j < ids@.len() ==> live_row(start.rows(), #[trigger] ids@[j]) is Some,
                forall|j: int| 0 <= j < ids@.len() ==> !reachable(start.edges(), #[trigger] ids@[j], task_id),
                insert_edges(start.edges(), task_id, ids@.take(i as int)) == (self.edges(), None::<i64>),
                forall|y: i64| reachable(self.edges(), y, task_id) ==> #[trigger] reachable(start.edges(), y, task_id),
            decreases ids@.len() - i,
        {
            let ghost before = *self;
            let d = Dependency { task_id, depends_on: ids[i] };
            proof {
                assert(ids@.take(i + 1).drop_last() =~= ids@.take(i as int));
                assert(ids@.take(i + 1).last() == ids@[i as int]);
                assert(live_row(start.rows(), ids@[i as int]) is Some);
                lemma_task_by_id(start.rows(), ids@[i as int]);
                assert(!reachable(start.edges(), ids@[i as int], task_id));
            }
            let res = self.insert_edge(d);
            proof {
                assert(insert_edges(start.edges(), task_id, ids@.take(i + 1)) == (if before.edges().contains(d) {
                    (before.edges(), Some(ids@[i as int]))
                } else {
                    (before.edges().push(d), None::<i64>)
                }));
                assert forall|y: i64| reachable(self.edges(), y, task_id) implies #[trigger] reachable(start.edges(), y, task_id) by {
                    if !before.edges().contains(d) {
                        lemma_reach_push(before.edges(), d, y, task_id);
                    }
                }
            }
            if res.is_err() {
                proof {
                    lemma_insert_edges_stop(start.edges(), task_id, ids@, i as int);
                }
                return res;
            }
            i = i + 1;
        }
        proof {
            assert(ids@.take(ids@.len() as int) =~= ids@);
        }
        Ok(())
    }
}

/// Once a missing id is found, later ids change nothing.
proof fn lemma_first_missing_stop(rows: Seq<Task>, ids: Seq<i64>, i: int)
    requires
        0 <= i < ids.len(),
        first_missing(rows, ids.take(i)) is None,
        live_row(rows, ids[i]) is None,
    ensures
        first_missing(rows, ids) == Some(ids[i]),
    decreases ids.len() - i,
{
    assert(ids.take(i + 1).drop_last() =~= ids.take(i));
    assert(ids.take(i + 1).last() == ids[i]);
    lemma_first_missing_from(rows, ids, i + 1, ids[i]);
}

proof fn lemma_first_missing_from(rows: Seq<Task>, ids: Seq<i64>, n: int, x: i64)
    requires
        0 < n <= ids.len(),
        first_missing(rows, ids.take(n)) == Some(x),
    ensures
        first_missing(rows, ids) == Some(x),
    decreases ids.len() - n,
{
    if n < ids.len() {
        assert(ids.take(n + 1).drop_last() =~= ids.take(n));
        lemma_first_missing_from(rows, ids, n + 1, x);
    } else {
        assert(ids.take(n) =~= ids);
    }
}

/// Once an id closing a cycle is found, later ids change nothing.
proof fn lemma_first_cycle_stop(edges: Seq<Dependency>, task_id: i64, ids: Seq<i64>, i: int)
    requires
        0 <= i < ids.len(),
        first_cycle(edges, task_id, ids.take(i)) is None,
        reachable(edges, ids[i], task_id),
    ensures
        first_cycle(edges, task_id, ids) == Some(ids[i]),
    decreases ids.len() - i,
{
    assert(ids.take(i + 1).drop_last() =~= ids.take(i));
    assert(ids.take(i + 1).last() == ids[i]);
    lemma_first_cycle_from(edges, task_id, ids, i + 1, ids[i]);
}

proof fn lemma_first_cycle_from(edges: Seq<Dependency>, task_id: i64, ids: Seq<i64>, n: int, x: i64)
    requires
        0 < n <= ids.len(),
        first_cycle(edges, task_id, ids.take(n)) == Some(x),
    ensures
        first_cycle(edges, task_id, ids) == Some(x),
    decreases ids.len() - n,
{
    if n < ids.len() {
        assert(ids.take(n + 1).drop_last() =~= ids.take(n));
        lemma_first_cycle_from(edges, task_id, ids, n + 1, x);
    } else {
        assert(ids.take(n) =~= ids);
    }
}


/// `t` is the row that creating a task with these fields at `now` adds,
/// under id `id`.
pub open spec fn is_new_row(
    t: Task,
    id: i64,
    title: Seq<char>,
    description: Seq<char>,
    dod: Seq<char>,
    order: u64,
    now: String,
) -> bool {
    &&& t.id == id
    &&& t.title@ == title
    &&& t.description matches Some(d) && d@ == description
    &&& t.dod matches Some(x) && x@ == dod
    &&& t.status == TaskStatus::Pending
    &&& t.manual_order == order
    &&& t.created_at == now
    &&& t.started_at is None
    &&& t.completed_at is None
    &&& t.last_touched_at == now
    &&& !t.deleted
}

/// The message with which an insertion is refused once ids run out.
pub open spec fn full_message() -> Seq<char> {
    "database or disk is full"@
}

impl Store {
    /// Adds a pending task row with the next id.
    fn insert_row(&mut self, title: &str, description: &str, dod: &str, order: u64, now: &String) -> (r: Result<Task, Error>)
        requires
            old(self).wf(),
        ensures
            final(self).wf(),
            old(self).next_task_id() == i64::MAX ==> (r matches Err(Error::Db(m)) && m@ == full_message())
                && *final(self) == *old(self),
            old(self).next_task_id() < i64::MAX ==> (r matches Ok(t) && is_new_row(
                t,
                old(self).next_task_id(),
                title@,
                description@,
                dod@,
                order,
                *now,
            ) && final(self).rows() == old(self).rows().push(t)),
            old(self).next_task_id() < i64::MAX ==> final(self).next_task_id() == old(self).next_task_id() + 1,
            final(self).edges() == old(self).edges(),
            final(self).files() == old(self).files(),
            final(self).focus() == old(self).focus(),
            final(self).next_artifact_id() == old(self).next_artifact_id(),
    {
        if self.next_id == i64::MAX {
            return Err(Error::Db(String::from_str("database or disk is full")));
        }
        let t = Task {
            id: self.next_id,
            title: String::from_str(title),
            description: Some(String::from_str(description)),
            dod: Some(String::from_str(dod)),
            status: TaskStatus::Pending,
            manual_order: order,
            created_at: now.clone(),
            started_at: None,
            completed_at: None,
            last_touched_at: now.clone(),
            deleted: false,
        };
        let ghost before = self.tasks@;
        self.tasks.push(t.clone());
        self.next_id = self.next_id + 1;
        proof {
            assert(task_ids(self.tasks@) =~= task_ids(before).push(t.id));
            assert forall|x: i64| task_ids(before).contains(x) implies task_ids(self.tasks@).contains(x) by {
                crate::graph::lemma_push_contains(task_ids(before), t.id, x);
            }
            assert forall|a: int, b: int| 0 <= a < b < self.tasks@.len() implies (#[trigger] self.tasks@[a]).id < (#[trigger] self.tasks@[b]).id by {
                if b < before.len() {
                    assert(self.tasks@[a] == before[a] && self.tasks@[b] == before[b]);
                } else {
                    assert(self.tasks@[a] == before[a]);
                }
            }
            assert forall|a: int| 0 <= a < self.tasks@.len() implies 0 < (#[trigger] self.tasks@[a]).id < self.next_id by {
                if a < before.len() {
                    assert(self.tasks@[a] == before[a]);
                }
            }
            assert forall|a: int, b: int|
                0 <= a < self.tasks@.len() && 0 <= b < self.tasks@.len() && (#[trigger] self.tasks@[a]).status
                    == TaskStatus::InProgress && (#[trigger] self.tasks@[b]).status == TaskStatus::InProgress implies a == b by {
                if a < before.len() && b < before.len() {
                    assert(self.tasks@[a] == before[a] && self.tasks@[b] == before[b]);
                }
            }
            assert forall|k: int| 0 <= k < self.deps@.len() implies task_ids(self.tasks@).contains((#[trigger] self.deps@[k]).task_id)
                && task_ids(self.tasks@).contains(self.deps@[k].depends_on) && self.deps@[k].task_id != self.deps@[k].depends_on by {
                assert(task_ids(before).contains(self.deps@[k].task_id));
                assert(task_ids(before).contains(self.deps@[k].depends_on));
            }
            assert forall|k: int| 0 <= k < self.artifacts@.len() implies 0 < (#[trigger] self.artifacts@[k]).id < self.next_artifact
                && task_ids(self.tasks@).contains(self.artifacts@[k].task_id) by {
                assert(task_ids(before).contains(self.artifacts@[k].task_id));
            }
        }
        Ok(t)
    }

    /// Creates a pending task with the order key `order` (see
    /// `ordering::calculate_manual_order` for where it goes), then adds its
    /// dependencies, if any. A failure to add them is returned; the task
    /// stays created.
    pub fn create_task(
        &mut self,
        title: &str,
        description: &str,
        dod: &str,
        order: u64,
        depends_on: Option<Vec<i64>>,
        now: &String,
    ) -> (r: Result<Task, Error>)
        requires
            old(self).wf(),
        ensures
            final(self).wf(),
            create_outcome(*old(self), *final(self), title@, description@, dod@, order, opt_ids(depends_on), *now, r),
    {
        let task = match self.insert_row(title, description, dod, order, now) {
            Ok(t) => t,
            Err(e) => {
                return Err(e);
            },
        };
        match depends_on {
            Some(ids) => {
                if ids.len() > 0 {
                    match self.add_dependencies(task.id, ids) {
                        Ok(_) => {},
                        Err(e) => {
                            return Err(e);
                        },
                    }
                }
            },
            None => {},
        }
        Ok(task)
    }
}


/// The live rows, but for the row `skip` if one is given, in row order.
pub open spec fn live_others(rows: Seq<Task>, skip: Option<i64>) -> Seq<Task>
    decreases rows.len(),
{
    if rows.len() == 0 {
        Seq::empty()
    } else {
        live_others(rows.drop_last(), skip) + if !rows.last().deleted && skip != Some(rows.last().id) {
            seq![rows.last()]
        } else {
            Seq::empty()
        }
    }
}

/// A row after archiving at `now`: completed and cancelled rows become
/// archived.
pub open spec fn archived_row(t: Task, now: String) -> Task {
    if t.status == TaskStatus::Completed || t.status == TaskStatus::Cancelled {
        Task { deleted: true, last_touched_at: now, ..t }
    } else {
        t
    }
}

/// The number of completed or cancelled rows, archived ones included.
pub open spec fn finished_count(rows: Seq<Task>) -> nat
    decreases rows.len(),
{
    if rows.len() == 0 {
        0
    } else {
        finished_count(rows.drop_last()) + if rows.last().status == TaskStatus::Completed
            || rows.last().status == TaskStatus::Cancelled {
            1nat
        } else {
            0nat
        }
    }
}

impl Store {
    /// Sets the focus to task `id`, which must be live.
    pub fn set_target(&mut self, id: i64) -> (r: Result<(), Error>)
        requires
            old(self).wf(),
        ensures
            final(self).wf(),
            set_target_outcome(*old(self), *final(self), id, r),
    {
        if self.get_task(id, false).is_none() {
            return Err(Error::TaskNotFound(id));
        }
        self.target = Some(id);
        Ok(())
    }

    /// Clears the focus.
    pub fn clear_target(&mut self)
        requires
            old(self).wf(),
        ensures
            final(self).wf(),
            final(self).rows() == old(self).rows(),
            final(self).edges() == old(self).edges(),
            final(self).files() == old(self).files(),
            final(self).next_task_id() == old(self).next_task_id(),
            final(self).next_artifact_id() == old(self).next_artifact_id(),
            final(self).focus() is None,
    {
        self.target = None;
    }

    /// The id of the focus, if one is set.
    pub fn target_id(&self) -> (r: Option<i64>)
        ensures
            r == self.focus(),
    {
        self.target
    }

    /// The focus task, when one is set and it is live.
    pub fn get_target(&self) -> (r: Option<Task>)
        requires
            self.wf(),
        ensures
            r == match self.focus() {
                Some(id) => live_row(self.rows(), id),
                None => None,
            },
    {
        match self.target {
            Some(id) => self.get_task(id, false),
            None => None,
        }
    }

    /// The live task in progress; `NoActiveTask` when there is none.
    pub fn get_current_task(&self) -> (r: Result<Task, Error>)
        requires
            self.wf(),
        ensures
            match active_task(self.rows()) {
                Some(t) => r == Ok::<Task, Error>(t),
                None => r matches Err(Error::NoActiveTask),
            },
    {
        match self.active() {
            Some(t) => Ok(t),
            None => Err(Error::NoActiveTask),
        }
    }

    /// Sets the order key of the row `id` (archived ones included).
    pub fn set_task_order(&mut self, id: i64, order: u64, now: &String) -> (r: Result<(), Error>)
        requires
            old(self).wf(),
        ensures
            final(self).wf(),
            set_task_order_outcome(*old(self), *final(self), id, order, *now, r),
    {
        let j = match self.row_index(id) {
            Some(j) => j,
            None => {
                return Err(Error::TaskNotFound(id));
            },
        };
        let t = self.tasks[j].clone();
        let t2 = Task { manual_order: order, last_touched_at: now.clone(), ..t };
        self.replace_row(j, t2);
        Ok(())
    }

    /// Archives every completed or cancelled row and returns how many rows
    /// matched (rows archived before count again).
    #[verifier::spinoff_prover]
    pub fn archive_completed(&mut self, now: &String) -> (r: usize)
        requires
            old(self).wf(),
        ensures
            final(self).wf(),
            archive_outcome(*old(self), *final(self), *now, r),
    {
        let ghost before = self.tasks@;
        let mut count: usize = 0;
        let mut i: usize = 0;
        while i < self.tasks.len()
            invariant
                self.wf(),
                same_but_rows(*old(self), *self),
                before == old(self).rows(),
                self.tasks@.len() == before.len(),
                i <= before.len(),
                count == finished_count(before.take(i as int)),
                count <= i,
                forall|j: int| 0 <= j < i ==> #[trigger] self.tasks@[j] == archived_row(before[j], *now),
                forall|j: int| i <= j < before.len() ==> #[trigger] self.tasks@[j] == before[j],
            decreases before.len() - i,
        {
            proof {
                assert(before.take(i + 1).drop_last() =~= before.take(i as int));
            }
            let ghost rows_i = self.tasks@;
            let t = self.tasks[i].clone();
            if t.status == TaskStatus::Completed || t.status == TaskStatus::Cancelled {
                let t2 = Task { deleted: true, last_touched_at: now.clone(), ..t };
                self.replace_row(i, t2);
                count = count + 1;
                proof {
                    assert(self.tasks@ == rows_i.update(i as int, archived_row(before[i as int], *now)));
                }
            } else {
                proof {
                    assert(self.tasks@[i as int] == archived_row(before[i as int], *now));
                }
            }
            i = i + 1;
        }
        proof {
            assert(before.take(before.len() as int) =~= before);
            assert(self.tasks@ =~= before.map_values(|t: Task| archived_row(t, *now)));
        }
        count
    }

    /// The live rows, but for the row `skip` if one is given, in row order.
    fn others(&self, skip: Option<i64>) -> (r: Vec<Task>)
        ensures
            r@ == live_others(self.rows(), skip),
    {
        let mut v: Vec<Task> = Vec::new();
        let mut i: usize = 0;
        while i < self.tasks.len()
            invariant
                i <= self.tasks@.len(),
                v@ == live_others(self.tasks@.take(i as int), skip),
            decreases self.tasks@.len() - i,
        {
            proof {
                assert(self.tasks@.take(i + 1).drop_last() =~= self.tasks@.take(i as int));
            }
            let keep = match skip {
                Some(x) => !self.tasks[i].deleted && self.tasks[i].id != x,
                None => !self.tasks[i].deleted,
            };
            if keep {
                v.push(self.tasks[i].clone());
            }
            proof {
                assert(v@ =~= live_others(self.tasks@.take(i + 1), skip));
            }
            i = i + 1;
        }
        proof {
            assert(self.tasks@.take(self.tasks@.len() as int) =~= self.tasks@);
        }
        v
    }

    /// Where a new task goes among the live tasks (see
    /// `ordering::calculate_manual_order`).
    pub fn new_task_placement(&self, after_id: Option<i64>, before_id: Option<i64>) -> (r: Result<OrderPlacement, Error>)
        requires
            self.wf(),
        ensures
            match placement(live_others(self.rows(), None), after_id, before_id) {
                Ok(p) => r == Ok::<OrderPlacement, Error>(p),
                Err(Some(x)) => r matches Err(Error::TaskNotFound(y)) && x == y,
                Err(None) => r matches Err(Error::NotSupported(m)) && m@
                    == "After task must have lower order than before task"@,
            },
    {
        let live = self.others(None);
        calculate_manual_order(&live, after_id, before_id)
    }

    /// Where task `id` moves among the other live tasks (see
    /// `ordering::calculate_manual_order`); its new order key is then set
    /// with `set_task_order`.
    pub fn reorder_task(&self, id: i64, after_id: Option<i64>, before_id: Option<i64>) -> (r: Result<OrderPlacement, Error>)
        requires
            self.wf(),
        ensures
            match placement(live_others(self.rows(), Some(id)), after_id, before_id) {
                Ok(p) => r == Ok::<OrderPlacement, Error>(p),
                Err(Some(x)) => r matches Err(Error::TaskNotFound(y)) && x == y,
                Err(None) => r matches Err(Error::NotSupported(m)) && m@
                    == "After task must have lower order than before task"@,
            },
    {
        let others = self.others(Some(id));
        calculate_manual_order(&others, after_id, before_id)
    }

    /// The new orders that renumbering gives: the live tasks in manual order,
    /// each with `ORDER_GAP` times its position; apply them with
    /// `set_task_order`.
    pub fn reindex_tasks(&self) -> (r: Vec<(i64, u64)>)
        requires
            self.wf(),
            self.rows().len() * ORDER_GAP <= u64::MAX,
        ensures
            exists|live: Seq<Task>, p: Seq<int>|
                ordered_selection(self.rows(), |t: Task| row_matches(t, RowFilter::Live), live)
                    && #[trigger] stable_order(live, p) && r@.len() == p.len() && forall|i: int|
                    0 <= i < r@.len() ==> #[trigger] r@[i] == (live[p[i]].id, ((i + 1) * ORDER_GAP) as u64),
    {
        let live = self.get_all_tasks();
        proof {
            assert(live@.len() <= self.rows().len()) by {
                assert forall|x: i64| task_ids(live@).contains(x) implies task_ids(self.rows()).contains(x) by {
                    let j = choose|j: int| 0 <= j < task_ids(live@).len() && task_ids(live@)[j] == x;
                    assert(live@.contains(live@[j]));
                    lemma_row_id_in(self.rows(), live@[j]);
                }
                crate::graph::lemma_nodup_subset_len(task_ids(live@), task_ids(self.rows()));
            }
            assert(live@.len() * ORDER_GAP <= self.rows().len() * ORDER_GAP) by (nonlinear_arith)
                requires
                    live@.len() <= self.rows().len(),
            ;
        }
        let r = reindex_orders(&live);
        proof {
            let p = choose|p: Seq<int>|
                #[trigger] stable_order(live@, p) && r@.len() == p.len() && forall|i: int|
                    0 <= i < r@.len() ==> #[trigger] r@[i] == (live@[p[i]].id, ((i + 1) * ORDER_GAP) as u64);
            assert(ordered_selection(self.rows(), |t: Task| row_matches(t, RowFilter::Live), live@));
        }
        r
    }
}


/// `t` can be worked on next when no focus is set: a live pending task each
/// of whose prerequisites is completed or is no live task.
pub open spec fn runnable(rows: Seq<Task>, deps: Seq<Dependency>, t: Task) -> bool {
    &&& rows.contains(t)
    &&& !t.deleted
    &&& t.status == TaskStatus::Pending
    &&& forall|k: int|
        0 <= k < deps.len() && #[trigger] deps[k].task_id == t.id ==> match live_row(rows, deps[k].depends_on) {
            Some(p) => p.status == TaskStatus::Completed,
            None => true,
        }
}

/// The next task when no focus is set: the runnable task lowest in manual
/// order (ties by id).
pub open spec fn next_runnable(rows: Seq<Task>, deps: Seq<Dependency>, r: Option<Task>) -> bool {
    match r {
        Some(t) => runnable(rows, deps, t) && forall|c: Task| #[trigger] runnable(rows, deps, c) ==> c == t || order_lt(t, c),
        None => forall|c: Task| !#[trigger] runnable(rows, deps, c),
    }
}

/// The number of live rows with status `s`.
pub open spec fn status_count(rows: Seq<Task>, s: TaskStatus) -> nat
    decreases rows.len(),
{
    if rows.len() == 0 {
        0
    } else {
        status_count(rows.drop_last(), s) + if !rows.last().deleted && rows.last().status == s {
            1nat
        } else {
            0nat
        }
    }
}

/// The number of live rows.
pub open spec fn live_count(rows: Seq<Task>) -> nat
    decreases rows.len(),
{
    if rows.len() == 0 {
        0
    } else {
        live_count(rows.drop_last()) + if !rows.last().deleted {
            1nat
        } else {
            0nat
        }
    }
}

/// How many live tasks are in each status.
#[derive(Debug, Clone, Copy, PartialEq, Eq)]
pub struct StatusSummary {
    pub pending: usize,
    pub blocked: usize,
    pub completed: usize,
    pub in_progress: usize,
    pub total: usize,
}

/// The focus, the task in progress, the next runnable task and the counts.
#[derive(Debug)]
pub struct StatusOutput {
    pub target: Option<Task>,
    pub current_task: Option<Task>,
    pub next_task: Option<Task>,
    pub summary: StatusSummary,
}

/// The rows whose ids increase have their live rows in increasing id order.
proof fn lemma_live_others_ids(rows: Seq<Task>, skip: Option<i64>)
    requires
        forall|i: int, j: int| 0 <= i < j < rows.len() ==> (#[trigger] rows[i]).id < (#[trigger] rows[j]).id,
    ensures
        forall|i: int, j: int| 0 <= i < j < live_others(rows, skip).len() ==> (#[trigger] live_others(rows, skip)[i]).id < (#[trigger] live_others(rows, skip)[j]).id,
        forall|t: Task| #[trigger] live_others(rows, skip).contains(t) <==> (rows.contains(t) && !t.deleted && skip != Some(t.id)),
        task_ids(live_others(rows, skip)).no_duplicates(),
    decreases rows.len(),
{
    let l = live_others(rows, skip);
    if rows.len() > 0 {
        let d = rows.drop_last();
        assert forall|i: int, j: int| 0 <= i < j < d.len() implies (#[trigger] d[i]).id < (#[trigger] d[j]).id by {
            assert(rows[i] == d[i] && rows[j] == d[j]);
        }
        lemma_live_others_ids(d, skip);
        let ld = live_others(d, skip);
        assert(rows =~= d.push(rows.last()));
        assert forall|t: Task| #[trigger] l.contains(t) <==> (rows.contains(t) && !t.deleted && skip != Some(t.id)) by {
            crate::graph::lemma_push_contains(d, rows.last(), t);
            if !rows.last().deleted && skip != Some(rows.last().id) {
                assert(l =~= ld.push(rows.last()));
                crate::graph::lemma_push_contains(ld, rows.last(), t);
            } else {
                assert(l =~= ld);
            }
        }
        if !rows.last().deleted && skip != Some(rows.last().id) {
            assert(l =~= ld.push(rows.last()));
            assert forall|i: int, j: int| 0 <= i < j < l.len() implies (#[trigger] l[i]).id < (#[trigger] l[j]).id by {
                if j < ld.len() {
                    assert(l[i] == ld[i] && l[j] == ld[j]);
                } else {
                    assert(l[i] == ld[i]);
                    assert(ld.contains(ld[i]));
                    let q = choose|q: int| 0 <= q < d.len() && d[q] == ld[i];
                    assert(rows[q] == d[q]);
                    assert(rows[q].id < rows[rows.len() - 1].id);
                }
            }
        } else {
            assert(l =~= ld);
        }
    } else {
        assert(l =~= Seq::<Task>::empty());
    }
    lemma_increasing_ids_nodup(l);
}

impl Store {
    /// Whether every prerequisite of `id` is completed or is no live task.
    fn prerequisites_done(&self, id: i64) -> (r: bool)
        requires
            self.wf(),
        ensures
            r == forall|k: int|
                0 <= k < self.edges().len() && #[trigger] self.edges()[k].task_id == id ==> match live_row(
                    self.rows(),
                    self.edges()[k].depends_on,
                ) {
                    Some(p) => p.status == TaskStatus::Completed,
                    None => true,
                },
    {
        let mut k: usize = 0;
        while k < self.deps.len()
            invariant
                self.wf(),
                k <= self.deps@.len(),
                forall|j: int|
                    0 <= j < k && #[trigger] self.deps@[j].task_id == id ==> match live_row(self.tasks@, self.deps@[j].depends_on) {
                        Some(p) => p.status == TaskStatus::Completed,
                        None => true,
                    },
            decreases self.deps@.len() - k,
        {
            if self.deps[k].task_id == id {
                match self.get_task(self.deps[k].depends_on, false) {
                    Some(p) => {
                        if p.status != TaskStatus::Completed {
                            return false;
                        }
                    },
                    None => {},
                }
            }
            k = k + 1;
        }
        true
    }

    /// The next task when no focus is set: among live pending tasks whose
    /// prerequisites are completed (or no live task), the lowest in manual
    /// order, ties by id.
    pub fn find_next_runnable(&self) -> (r: Option<Task>)
        requires
            self.wf(),
        ensures
            next_runnable(self.rows(), self.edges(), r),
    {
        let mut best: Option<Task> = None;
        let mut i: usize = 0;
        while i < self.tasks.len()
            invariant
                self.wf(),
                i <= self.tasks@.len(),
                match best {
                    Some(b) => runnable(self.tasks@, self.deps@, b) && forall|j: int|
                        0 <= j < i && runnable(self.tasks@, self.deps@, #[trigger] self.tasks@[j]) ==> self.tasks@[j] == b
                            || order_lt(b, self.tasks@[j]),
                    None => forall|j: int| 0 <= j < i ==> !runnable(self.tasks@, self.deps@, #[trigger] self.tasks@[j]),
                },
            decreases self.tasks@.len() - i,
        {
            let t = &self.tasks[i];
            proof {
                assert(self.tasks@.contains(self.tasks@[i as int]));
            }
            if !t.deleted && t.status == TaskStatus::Pending && self.prerequisites_done(t.id) {
                let better = match &best {
                    Some(b) => order_lt_exec(t, b),
                    None => true,
                };
                if better {
                    best = Some(t.clone());
                    proof {
                        let b = best->0;
                        assert forall|j: int|
                            0 <= j < i + 1 && runnable(self.tasks@, self.deps@, #[trigger] self.tasks@[j]) implies self.tasks@[j] == b
                                || order_lt(b, self.tasks@[j]) by {
                            if j < i {
                                if self.tasks@[j].id == b.id {
                                    assert(self.tasks@[j].id < self.tasks@[i as int].id);
                                }
                            }
                        }
                    }
                } else {
                    proof {
                        let b = best->0;
                        let bj = choose|q: int| 0 <= q < self.tasks@.len() && self.tasks@[q] == b;
                        if self.tasks@[i as int] != b {
                            if bj != i {
                                if bj < i {
                                    assert(self.tasks@[bj].id < self.tasks@[i as int].id);
                                } else {
                                    assert(self.tasks@[i as int].id < self.tasks@[bj].id);
                                }
                            }
                        }
                    }
                }
            }
            i = i + 1;
        }
        proof {
            assert forall|c: Task| #[trigger] runnable(self.tasks@, self.deps@, c) implies (match best {
                Some(b) => c == b || order_lt(b, c),
                None => false,
            }) by {
                let j = choose|j: int| 0 <= j < self.tasks@.len() && self.tasks@[j] == c;
                assert(runnable(self.tasks@, self.deps@, self.tasks@[j]));
            }
        }
        best
    }
}


/// What `get_next_task` answers with the focus `tid` over the live rows
/// `live` and the edges.
pub open spec fn focus_next_outcome(live: Seq<Task>, edges: Seq<Dependency>, tid: i64, r: Result<Option<Task>, Error>) -> bool {
    if target_reached(live, edges, tid) {
        r matches Err(Error::TargetReached(x)) && x == tid
    } else if forall|id: i64| #[trigger] focus_open(live, edges, tid, id) ==> task_by_id(live, id)->0.status
        == TaskStatus::Blocked {
        r matches Err(Error::AllBlocked(v)) && v@.no_duplicates() && forall|x: i64| #[trigger]
            v@.contains(x) <==> focus_open(live, edges, tid, x)
    } else {
        match r {
            Ok(Some(t)) => {
                &&& next_candidate(live, edges, tid, t)
                &&& forall|c: Task| #[trigger] next_candidate(live, edges, tid, c) ==> crate::graph::precedes(t, c)
            },
            Ok(None) => forall|c: Task| !#[trigger] next_candidate(live, edges, tid, c),
            Err(_) => false,
        }
    }
}

impl Store {
    /// The next task to work on. With a focus: `TargetReached` when the
    /// focus needs nothing more, `AllBlocked` with the blocked tasks when
    /// all it still needs is blocked, and otherwise the next task of the
    /// focus subgraph (see `target::find_next_task`). Without a focus: the
    /// next runnable task.
    pub fn get_next_task(&self) -> (r: Result<Option<Task>, Error>)
        requires
            self.wf(),
        ensures
            match self.focus() {
                Some(tid) => focus_next_outcome(live_others(self.rows(), None), self.edges(), tid, r),
                None => r matches Ok(o) && next_runnable(self.rows(), self.edges(), o),
            },
    {
        match self.target {
            Some(tid) => {
                let live = self.others(None);
                proof {
                    lemma_live_others_ids(self.tasks@, None);
                }
                if is_target_reached(tid, &live, self.deps.as_slice()) {
                    return Err(Error::TargetReached(tid));
                }
                if all_remaining_blocked(tid, &live, self.deps.as_slice()) {
                    let blocked = get_blocked_tasks(tid, &live, self.deps.as_slice());
                    let mut ids: Vec<i64> = Vec::new();
                    let mut i: usize = 0;
                    while i < blocked.len()
                        invariant
                            i <= blocked@.len(),
                            ids@ == crate::graph::task_ids(blocked@).take(i as int),
                        decreases blocked@.len() - i,
                    {
                        ids.push(blocked[i].id);
                        proof {
                            assert(ids@ =~= crate::graph::task_ids(blocked@).take(i + 1));
                        }
                        i = i + 1;
                    }
                    proof {
                        assert(ids@ =~= crate::graph::task_ids(blocked@));
                        assert forall|x: i64| #[trigger] ids@.contains(x) <==> focus_open(live@, self.deps@, tid, x) by {
                            if ids@.contains(x) {
                                let j = choose|j: int| 0 <= j < ids@.len() && ids@[j] == x;
                                assert(blocked@[j].id == x);
                            }
                            if focus_open(live@, self.deps@, tid, x) {
                                assert(task_by_id(live@, x)->0.status == TaskStatus::Blocked);
                            }
                        }
                    }
                    return Err(Error::AllBlocked(ids));
                }
                proof {
                    lemma_focus_orderable_live(live@, self.deps@, tid);
                }
                Ok(find_next_task(tid, &live, self.deps.as_slice()))
            },
            None => Ok(self.find_next_runnable()),
        }
    }

    /// The counts of live tasks per status, the focus, the task in progress
    /// and the next runnable task.
    pub fn get_status(&self) -> (r: StatusOutput)
        requires
            self.wf(),
        ensures
            r.target == (match self.focus() {
                Some(id) => live_row(self.rows(), id),
                None => None,
            }),
            r.current_task == active_task(self.rows()),
            next_runnable(self.rows(), self.edges(), r.next_task),
            r.summary.pending == status_count(self.rows(), TaskStatus::Pending),
            r.summary.blocked == status_count(self.rows(), TaskStatus::Blocked),
            r.summary.completed == status_count(self.rows(), TaskStatus::Completed),
            r.summary.in_progress == status_count(self.rows(), TaskStatus::InProgress),
            r.summary.total == live_count(self.rows()),
            r.summary.pending + r.summary.in_progress + r.summary.completed + r.summary.blocked + status_count(
                self.rows(),
                TaskStatus::Cancelled,
            ) == r.summary.total,
    {
        let ghost mut cancelled: nat = 0;
        let mut pending: usize = 0;
        let mut blocked: usize = 0;
        let mut completed: usize = 0;
        let mut in_progress: usize = 0;
        let mut total: usize = 0;
        let mut i: usize = 0;
        while i < self.tasks.len()
            invariant
                i <= self.tasks@.len(),
                pending == status_count(self.tasks@.take(i as int), TaskStatus::Pending),
                blocked == status_count(self.tasks@.take(i as int), TaskStatus::Blocked),
                completed == status_count(self.tasks@.take(i as int), TaskStatus::Completed),
                in_progress == status_count(self.tasks@.take(i as int), TaskStatus::InProgress),
                total == live_count(self.tasks@.take(i as int)),
                cancelled == status_count(self.tasks@.take(i as int), TaskStatus::Cancelled),
                pending + blocked + completed + in_progress + cancelled == total,
                pending <= i && blocked <= i && completed <= i && in_progress <= i && total <= i,
            decreases self.tasks@.len() - i,
        {
            proof {
                assert(self.tasks@.take(i + 1).drop_last() =~= self.tasks@.take(i as int));
            }
            let t = &self.tasks[i];
            if !t.deleted {
                total = total + 1;
                match t.status {
                    TaskStatus::Pending => {
                        pending = pending + 1;
                    },
                    TaskStatus::Blocked => {
                        blocked = blocked + 1;
                    },
                    TaskStatus::Completed => {
                        completed = completed + 1;
                    },
                    TaskStatus::InProgress => {
                        in_progress = in_progress + 1;
                    },
                    TaskStatus::Cancelled => {
                        proof {
                            cancelled = cancelled + 1;
                        }
                    },
                }
            }
            i = i + 1;
        }
        proof {
            assert(self.tasks@.take(self.tasks@.len() as int) =~= self.tasks@);
        }
        StatusOutput {
            target: self.get_target(),
            current_task: self.active(),
            next_task: self.find_next_runnable(),
            summary: StatusSummary { pending, blocked, completed, in_progress, total },
        }
    }
}


/// One step of blocking several tasks: a task in progress is stopped and
/// then blocked; any other goes through `block_task`.
pub open spec fn block_step(rows: Seq<Task>, id: i64, now: String, r: Result<Task, Error>, rows2: Seq<Task>) -> bool {
    match live_row(rows, id) {
        Some(t) if t.status == TaskStatus::InProgress => r == Ok::<Task, Error>(with_status(t, TaskStatus::Blocked, now))
            && rows2 == with_row(rows, with_status(t, TaskStatus::Blocked, now)),
        _ => block_outcome(rows, id, now, r, rows2),
    }
}

/// One step of unblocking several tasks: `unblock_task`.
pub open spec fn unblock_step(rows: Seq<Task>, id: i64, now: String, r: Result<Task, Error>, rows2: Seq<Task>) -> bool {
    unblock_outcome(rows, id, now, r, rows2)
}

/// The status of the live task `id`, if there is one.
pub open spec fn live_status(rows: Seq<Task>, id: i64) -> Option<TaskStatus> {
    match live_row(rows, id) {
        Some(t) => Some(t.status),
        None => None,
    }
}

/// The prerequisites of task `id`, in the order their edges were added, each
/// with the status of the live task it names (`None` when it names none).
pub open spec fn prereq_marks(rows: Seq<Task>, edges: Seq<Dependency>, id: i64) -> Seq<(i64, Option<TaskStatus>)>
    decreases edges.len(),
{
    if edges.len() == 0 {
        Seq::empty()
    } else {
        let rest = prereq_marks(rows, edges.drop_last(), id);
        if edges.last().task_id == id {
            rest.push((edges.last().depends_on, live_status(rows, edges.last().depends_on)))
        } else {
            rest
        }
    }
}

impl Store {
    /// The prerequisites of task `id` with the status of each.
    pub fn prerequisite_marks(&self, id: i64) -> (r: Vec<(i64, Option<TaskStatus>)>)
        requires
            self.wf(),
        ensures
            r@ == prereq_marks(self.rows(), self.edges(), id),
    {
        let mut out: Vec<(i64, Option<TaskStatus>)> = Vec::new();
        let mut k: usize = 0;
        while k < self.deps.len()
            invariant
                self.wf(),
                k <= self.deps@.len(),
                out@ == prereq_marks(self.rows(), self.deps@.take(k as int), id),
            decreases self.deps@.len() - k,
        {
            assert(self.deps@.take(k + 1).drop_last() =~= self.deps@.take(k as int));
            let d = self.deps[k];
            if d.task_id == id {
                let st = match self.get_task(d.depends_on, false) {
                    Some(t) => Some(t.status),
                    None => None,
                };
                out.push((d.depends_on, st));
            }
            k = k + 1;
        }
        assert(self.deps@.take(self.deps@.len() as int) =~= self.deps@);
        out
    }
}

/// Why no task was started: one is runnable after all, every live task is
/// completed, every live task not completed is blocked, or none of them can
/// run yet.
#[derive(PartialEq, Eq, Structural, Clone, Copy, Debug)]
pub enum IdleReason {
    NextAvailable,
    AllCompleted,
    AllBlocked,
    NoneRunnable,
}

/// The reason no task runs, for `rows` and `edges`.
pub open spec fn idle_reason_of(rows: Seq<Task>, edges: Seq<Dependency>) -> IdleReason {
    if exists|c: Task| #[trigger] runnable(rows, edges, c) {
        IdleReason::NextAvailable
    } else if forall|i: int| 0 <= i < rows.len() && !(#[trigger] rows[i]).deleted ==> rows[i].status
        == TaskStatus::Completed {
        IdleReason::AllCompleted
    } else if forall|i: int|
        0 <= i < rows.len() && !(#[trigger] rows[i]).deleted && rows[i].status != TaskStatus::Completed
            ==> rows[i].status == TaskStatus::Blocked {
        IdleReason::AllBlocked
    } else {
        IdleReason::NoneRunnable
    }
}

impl Store {
    /// Says why no task is being started.
    pub fn idle_reason(&self) -> (r: IdleReason)
        requires
            self.wf(),
        ensures
            r == idle_reason_of(self.rows(), self.edges()),
    {
        if self.find_next_runnable().is_some() {
            return IdleReason::NextAvailable;
        }
        let mut all_completed = true;
        let mut all_blocked = true;
        let mut i: usize = 0;
        while i < self.tasks.len()
            invariant
                i <= self.tasks@.len(),
                all_completed <==> forall|j: int|
                    0 <= j < i && !(#[trigger] self.tasks@[j]).deleted ==> self.tasks@[j].status
                        == TaskStatus::Completed,
                all_blocked <==> forall|j: int|
                    0 <= j < i && !(#[trigger] self.tasks@[j]).deleted && self.tasks@[j].status
                        != TaskStatus::Completed ==> self.tasks@[j].status == TaskStatus::Blocked,
            decreases self.tasks@.len() - i,
        {
            let t = &self.tasks[i];
            if !t.deleted {
                if t.status != TaskStatus::Completed {
                    all_completed = false;
                    if t.status != TaskStatus::Blocked {
                        all_blocked = false;
                    }
                }
            }
            i = i + 1;
        }
        proof {
            assert(self.rows() == self.tasks@);
        }
        if all_completed {
            IdleReason::AllCompleted
        } else if all_blocked {
            IdleReason::AllBlocked
        } else {
            IdleReason::NoneRunnable
        }
    }
}

/// The result of completing the task in progress and starting the next.
#[derive(Debug)]
pub struct AdvanceResult {
    pub completed: Option<Task>,
    pub started: Option<Task>,
}

/// The second half of advancing: starting `next`, if any, once the rows
/// are `mid` and `done` was completed.
pub open spec fn advance_next(
    mid: Seq<Task>,
    edges: Seq<Dependency>,
    now: String,
    done: Option<Task>,
    next: Option<Task>,
    r: Result<AdvanceResult, Error>,
    rows2: Seq<Task>,
) -> bool {
    match next {
        None => r == Ok::<AdvanceResult, Error>(AdvanceResult { completed: done, started: None }) && rows2 == mid,
        Some(n) => exists|rs: Result<Task, Error>| {
            &&& #[trigger] start_outcome(mid, edges, n.id, now, rs, rows2)
            &&& match rs {
                Ok(st) => r == Ok::<AdvanceResult, Error>(AdvanceResult { completed: done, started: Some(st) }),
                Err(e) => r == Err::<AdvanceResult, Error>(e),
            }
        },
    }
}

/// The rows once the task in progress, if any, is completed at `now`.
pub open spec fn after_done(rows: Seq<Task>, now: String) -> Seq<Task> {
    match active_task(rows) {
        Some(c) => with_row(rows, completed(c, now)),
        None => rows,
    }
}

/// The task in progress, if any, as completing it at `now` leaves it.
pub open spec fn done_task(rows: Seq<Task>, now: String) -> Option<Task> {
    match active_task(rows) {
        Some(c) => Some(completed(c, now)),
        None => None,
    }
}

/// The outcome of advancing at `now`: the task in progress is completed
/// (it needs a definition of done), then the next runnable task among the
/// rows as they are after that completion is started. A dry run changes
/// nothing and answers the task in progress and the task that would start.
pub open spec fn advance_outcome(
    rows: Seq<Task>,
    edges: Seq<Dependency>,
    dry_run: bool,
    now: String,
    r: Result<AdvanceResult, Error>,
    rows2: Seq<Task>,
) -> bool {
    if dry_run {
        &&& rows2 == rows
        &&& exists|n: Option<Task>|
            #[trigger] next_runnable(after_done(rows, now), edges, n)
                && r == Ok::<AdvanceResult, Error>(AdvanceResult { completed: active_task(rows), started: n })
    } else if active_task(rows) matches Some(c) && (c.dod is None || is_blank(c.dod->0@)) {
        &&& r matches Err(Error::NoDod(x)) && x == active_task(rows)->0.id
        &&& rows2 == rows
    } else {
        exists|n: Option<Task>|
            #[trigger] next_runnable(after_done(rows, now), edges, n)
                && advance_next(after_done(rows, now), edges, now, done_task(rows, now), n, r, rows2)
    }
}

impl Store {
    /// Blocks each of `ids` in turn (a task in progress is stopped first),
    /// returning one result per id.
    pub fn block_tasks(&mut self, ids: Vec<i64>, now: &String) -> (r: Vec<Result<Task, Error>>)
        requires
            old(self).wf(),
        ensures
            final(self).wf(),
            block_tasks_outcome(*old(self), *final(self), ids@, *now, r),
    {
        let mut results: Vec<Result<Task, Error>> = Vec::new();
        let ghost mut states: Seq<Seq<Task>> = seq![self.rows()];
        let mut i: usize = 0;
        while i < ids.len()
            invariant
                self.wf(),
                same_but_rows(*old(self), *self),
                i <= ids@.len(),
                results@.len() == i,
                states.len() == i + 1,
                states[0] == old(self).rows(),
                states.last() == self.rows(),
                forall|q: int| 0 <= q < i ==> #[trigger] block_step(states[q], ids@[q], *now, results@[q], states[q + 1]),
            decreases ids@.len() - i,
        {
            let id = ids[i];
            let ghost before = self.rows();
            let res = match self.get_task(id, false) {
                Some(t) => {
                    if t.status == TaskStatus::InProgress {
                        match self.row_index(id) {
                            Some(j) => Ok(self.set_status(j, t, TaskStatus::Blocked, now)),
                            None => Err(Error::TaskNotFound(id)),
                        }
                    } else {
                        self.block_task(id, now)
                    }
                },
                None => self.block_task(id, now),
            };
            proof {
                assert(block_step(before, id, *now, res, self.rows()));
                states = states.push(self.rows());
                assert forall|q: int| 0 <= q < i + 1 implies #[trigger] block_step(states[q], ids@[q], *now, results@.push(res)[q], states[q + 1]) by {
                    if q < i {
                        assert(results@.push(res)[q] == results@[q]);
                    }
                }
            }
            results.push(res);
            i = i + 1;
        }
        results
    }

    /// Unblocks each of `ids` in turn, returning one result per id.
    pub fn unblock_tasks(&mut self, ids: Vec<i64>, now: &String) -> (r: Vec<Result<Task, Error>>)
        requires
            old(self).wf(),
        ensures
            final(self).wf(),
            unblock_tasks_outcome(*old(self), *final(self), ids@, *now, r),
    {
        let mut results: Vec<Result<Task, Error>> = Vec::new();
        let ghost mut states: Seq<Seq<Task>> = seq![self.rows()];
        let mut i: usize = 0;
        while i < ids.len()
            invariant
                self.wf(),
                same_but_rows(*old(self), *self),
                i <= ids@.len(),
                results@.len() == i,
                states.len() == i + 1,
                states[0] == old(self).rows(),
                states.last() == self.rows(),
                forall|q: int| 0 <= q < i ==> #[trigger] unblock_step(states[q], ids@[q], *now, results@[q], states[q + 1]),
            decreases ids@.len() - i,
        {
            let ghost before = self.rows();
            let res = self.unblock_task(ids[i], now);
            proof {
                states = states.push(self.rows());
                assert forall|q: int| 0 <= q < i + 1 implies #[trigger] unblock_step(states[q], ids@[q], *now, results@.push(res)[q], states[q + 1]) by {
                    if q < i {
                        assert(results@.push(res)[q] == results@[q]);
                    }
                }
            }
            results.push(res);
            i = i + 1;
        }
        results
    }
}

impl Store {
    /// A copy of this store.
    fn duplicate(&self) -> (r: Store)
        requires
            self.wf(),
        ensures
            r.wf(),
            r.rows() == self.rows(),
            r.edges() == self.edges(),
            same_but_rows(*self, r),
    {
        let tasks = self.tasks.clone();
        let deps = self.deps.clone();
        let artifacts = self.artifacts.clone();
        proof {
            assert(tasks@ =~= self.tasks@);
            assert(deps@ =~= self.deps@);
            assert(artifacts@ =~= self.artifacts@);
        }
        Store {
            tasks,
            deps,
            artifacts,
            target: self.target,
            next_id: self.next_id,
            next_artifact: self.next_artifact,
        }
    }

    /// Marks the task in progress, if any, completed at `now`, whatever its
    /// definition of done.
    fn finish_active(&mut self, now: &String) -> (r: Option<Task>)
        requires
            old(self).wf(),
        ensures
            final(self).wf(),
            same_but_rows(*old(self), *final(self)),
            final(self).edges() == old(self).edges(),
            final(self).rows() == after_done(old(self).rows(), *now),
            r == done_task(old(self).rows(), *now),
    {
        let task = match self.active() {
            Some(t) => t,
            None => {
                return None;
            },
        };
        let j = match self.row_index(task.id) {
            Some(j) => j,
            None => {
                proof {
                    assert(false);
                }
                return None;
            },
        };
        let t = Task {
            status: TaskStatus::Completed,
            completed_at: Some(now.clone()),
            last_touched_at: now.clone(),
            ..task
        };
        self.replace_row(j, t.clone());
        Some(t)
    }

    /// Completes the task in progress, if any, and starts the next runnable
    /// task once it is done; a dry run only reports both.
    pub fn advance_task(&mut self, dry_run: bool, now: &String) -> (r: Result<AdvanceResult, Error>)
        requires
            old(self).wf(),
        ensures
            final(self).wf(),
            advance_task_outcome(*old(self), *final(self), dry_run, *now, r),
    {
        let current = self.active();
        let ghost rows0 = self.rows();
        let ghost edges0 = self.edges();
        if dry_run {
            let mut trial = self.duplicate();
            let _ = trial.finish_active(now);
            let next = trial.find_next_runnable();
            let r = Ok(AdvanceResult { completed: current, started: next });
            proof {
                assert(next_runnable(after_done(rows0, *now), edges0, next));
                assert(advance_outcome(rows0, edges0, dry_run, *now, r, self.rows()));
            }
            return r;
        }
        let completed_task = match current {
            Some(_) => {
                match self.complete_task(now) {
                    Ok(t) => Some(t),
                    Err(e) => {
                        let r = Err(e);
                        proof {
                            assert(advance_outcome(rows0, edges0, dry_run, *now, r, self.rows()));
                        }
                        return r;
                    },
                }
            },
            None => None,
        };
        let ghost mid = self.rows();
        proof {
            assert(mid == after_done(rows0, *now));
            assert(completed_task == done_task(rows0, *now));
        }
        let next = self.find_next_runnable();
        match next {
            Some(n) => {
                let res = self.start_task(n.id, now);
                match res {
                    Ok(st) => {
                        let r = Ok(AdvanceResult { completed: completed_task, started: Some(st) });
                        proof {
                            assert(start_outcome(mid, self.edges(), n.id, *now, Ok::<Task, Error>(st), self.rows()));
                            assert(advance_next(mid, self.edges(), *now, completed_task, next, r, self.rows()));
                            assert(advance_outcome(rows0, edges0, dry_run, *now, r, self.rows()));
                        }
                        r
                    },
                    Err(e) => {
                        let ghost rs = Err::<Task, Error>(e);
                        let r = Err(e);
                        proof {
                            assert(start_outcome(mid, self.edges(), n.id, *now, rs, self.rows()));
                            assert(advance_next(mid, self.edges(), *now, completed_task, next, r, self.rows()));
                            assert(advance_outcome(rows0, edges0, dry_run, *now, r, self.rows()));
                        }
                        r
                    },
                }
            },
            None => {
                let r = Ok(AdvanceResult { completed: completed_task, started: None });
                proof {
                    assert(advance_next(mid, self.edges(), *now, completed_task, next, r, self.rows()));
                    assert(advance_outcome(rows0, edges0, dry_run, *now, r, self.rows()));
                }
                r
            },
        }
    }
}


/// Some artifact of `files` has id `id`.
pub open spec fn has_artifact(files: Seq<Artifact>, id: i64) -> bool {
    exists|j: int| 0 <= j < files.len() && (#[trigger] files[j]).id == id
}

/// The position of the artifact with id `id` in `files`.
pub open spec fn artifact_index(files: Seq<Artifact>, id: i64) -> int {
    choose|j: int| 0 <= j < files.len() && (#[trigger] files[j]).id == id
}

/// The artifact with id `id`, if any.
pub open spec fn artifact_by_id(files: Seq<Artifact>, id: i64) -> Option<Artifact> {
    if has_artifact(files, id) {
        Some(files[artifact_index(files, id)])
    } else {
        None
    }
}

impl Store {
    /// The position of the artifact with id `id`, if any.
    fn find_artifact(&self, id: i64) -> (r: Option<usize>)
        requires
            self.wf(),
        ensures
            match r {
                Some(j) => has_artifact(self.files(), id) && j as int == artifact_index(self.files(), id),
                None => !has_artifact(self.files(), id),
            },
    {
        let mut i: usize = 0;
        while i < self.artifacts.len()
            invariant
                self.wf(),
                i <= self.artifacts@.len(),
                forall|j: int| 0 <= j < i ==> (#[trigger] self.artifacts@[j]).id != id,
            decreases self.artifacts@.len() - i,
        {
            if self.artifacts[i].id == id {
                proof {
                    let f = self.files();
                    assert(f[i as int].id == id);
                    let k = artifact_index(f, id);
                    assert(0 <= k < f.len() && f[k].id == id);
                    if k < i {
                        assert(f[k].id < f[i as int].id);
                    } else if k > i {
                        assert(f[i as int].id < f[k].id);
                    }
                }
                return Some(i);
            }
            i = i + 1;
        }
        None
    }

    /// The artifact with id `id`, if any.
    pub fn get_artifact(&self, id: i64) -> (r: Option<Artifact>)
        requires
            self.wf(),
        ensures
            r == artifact_by_id(self.files(), id),
    {
        match self.find_artifact(id) {
            Some(j) => Some(self.artifacts[j].clone()),
            None => None,
        }
    }

    /// Deletes the artifact with id `id`; refused when there is none.
    pub fn delete_artifact(&mut self, id: i64) -> (r: Result<(), Error>)
        requires
            old(self).wf(),
        ensures
            final(self).wf(),
            final(self).rows() == old(self).rows(),
            final(self).edges() == old(self).edges(),
            final(self).focus() == old(self).focus(),
            final(self).next_task_id() == old(self).next_task_id(),
            final(self).next_artifact_id() == old(self).next_artifact_id(),
            has_artifact(old(self).files(), id) ==> r is Ok && final(self).files() == old(self).files().remove(
                artifact_index(old(self).files(), id),
            ),
            !has_artifact(old(self).files(), id) ==> (r matches Err(Error::NotSupported(m)) && m@
                == "Artifact not found"@) && final(self).files() == old(self).files(),
    {
        match self.find_artifact(id) {
            Some(j) => {
                let ghost f = self.artifacts@;
                let _ = self.artifacts.remove(j);
                proof {
                    let g = self.artifacts@;
                    assert forall|a: int, b: int| 0 <= a < b < g.len() implies (#[trigger] g[a]).id < (
                    #[trigger] g[b]).id by {
                        let a2 = if a < j { a } else { a + 1 };
                        let b2 = if b < j { b } else { b + 1 };
                        assert(g[a] == f[a2] && g[b] == f[b2]);
                    }
                    assert forall|a: int| 0 <= a < g.len() implies 0 < (#[trigger] g[a]).id < self.next_artifact
                        && task_ids(self.tasks@).contains(g[a].task_id) by {
                        let a2 = if a < j { a } else { a + 1 };
                        assert(g[a] == f[a2]);
                    }
                }
                Ok(())
            },
            None => Err(Error::NotSupported(String::from_str("Artifact not found"))),
        }
    }
}

/// Artifact `a` comes before `b`: created earlier (as text), ties by id.
pub open spec fn artifact_lt(a: Artifact, b: Artifact) -> bool {
    text_lt(a.created_at@, b.created_at@) || (a.created_at@ == b.created_at@ && a.id < b.id)
}

/// `s` is sorted by creation time, ties by id.
pub open spec fn artifacts_sorted(s: Seq<Artifact>) -> bool {
    forall|i: int, j: int| 0 <= i < j < s.len() ==> artifact_lt(#[trigger] s[i], #[trigger] s[j])
}

/// `r` lists exactly the artifacts of task `id` among `files`, sorted by
/// creation time, ties by id.
pub open spec fn artifacts_of(files: Seq<Artifact>, id: i64, r: Seq<Artifact>) -> bool {
    &&& artifacts_sorted(r)
    &&& forall|a: Artifact| #[trigger] r.contains(a) <==> (files.contains(a) && a.task_id == id)
}

proof fn lemma_artifact_lt(a: Artifact, b: Artifact, c: Artifact)
    ensures
        !artifact_lt(a, a),
        a.id != b.id ==> artifact_lt(a, b) || artifact_lt(b, a),
        artifact_lt(a, b) && artifact_lt(b, c) ==> artifact_lt(a, c),
{
    lemma_text_lt_order(a.created_at@, b.created_at@, c.created_at@);
    lemma_text_lt_order(a.created_at@, c.created_at@, b.created_at@);
    lemma_text_lt_order(b.created_at@, a.created_at@, c.created_at@);
}

/// Sorts artifacts with distinct ids by creation time, ties by id.
fn sort_artifacts(v: Vec<Artifact>) -> (r: Vec<Artifact>)
    requires
        forall|i: int, j: int| 0 <= i < j < v@.len() ==> (#[trigger] v@[i]).id != (#[trigger] v@[j]).id,
    ensures
        artifacts_sorted(r@),
        forall|a: Artifact| #[trigger] r@.contains(a) <==> v@.contains(a),
{
    let mut out: Vec<Artifact> = Vec::new();
    let mut i: usize = 0;
    while i < v.len()
        invariant
            i <= v@.len(),
            forall|a: int, b: int| 0 <= a < b < v@.len() ==> (#[trigger] v@[a]).id != (#[trigger] v@[b]).id,
            artifacts_sorted(out@),
            forall|a: Artifact| #[trigger] out@.contains(a) <==> v@.take(i as int).contains(a),
        decreases v@.len() - i,
    {
        let x = v[i].clone();
        proof {
            assert(v@.take(i + 1) =~= v@.take(i as int).push(v@[i as int]));
            assert forall|j: int| 0 <= j < out@.len() implies (#[trigger] out@[j]).id != x.id by {
                assert(out@.contains(out@[j]));
                let q = choose|q: int| 0 <= q < i && v@.take(i as int)[q] == out@[j];
                assert(v@[q] == out@[j]);
            }
        }
        let mut pos: usize = 0;
        while pos < out.len() && artifact_lt_exec(&out[pos], &x)
            invariant
                pos <= out@.len(),
                forall|j: int| 0 <= j < pos ==> artifact_lt(#[trigger] out@[j], x),
            decreases out@.len() - pos,
        {
            pos = pos + 1;
        }
        let ghost before = out@;
        proof {
            assert forall|j: int| pos <= j < before.len() implies artifact_lt(x, #[trigger] before[j]) by {
                assert(before[j].id != x.id);
                lemma_artifact_lt(before[pos as int], x, before[j]);
                lemma_artifact_lt(x, before[pos as int], before[j]);
                if j > pos {
                    assert(artifact_lt(before[pos as int], before[j]));
                }
            }
        }
        out.insert(pos, x);
        proof {
            before.insert_ensures(pos as int, x);
            assert forall|a: int, b: int| 0 <= a < b < out@.len() implies artifact_lt(#[trigger] out@[a], #[trigger] out@[b]) by {
                if b < pos {
                    assert(out@[a] == before[a] && out@[b] == before[b]);
                } else if b == pos {
                    assert(out@[a] == before[a]);
                } else if a < pos {
                    assert(out@[a] == before[a] && out@[b] == before[b - 1]);
                    lemma_artifact_lt(before[a], x, before[b - 1]);
                } else if a == pos {
                    assert(out@[b] == before[b - 1]);
                } else {
                    assert(out@[a] == before[a - 1] && out@[b] == before[b - 1]);
                }
            }
            assert forall|t: Artifact| #[trigger] out@.contains(t) <==> v@.take(i + 1).contains(t) by {
                crate::graph::lemma_push_contains(v@.take(i as int), v@[i as int], t);
                if out@.contains(t) {
                    let q = choose|q: int| 0 <= q < out@.len() && out@[q] == t;
                    if q < pos {
                        assert(before[q] == t);
                        assert(before.contains(t));
                    } else if q > pos {
                        assert(before[q - 1] == t);
                        assert(before.contains(t));
                    }
                }
                if v@.take(i + 1).contains(t) {
                    if t == x {
                        assert(out@[pos as int] == t);
                    } else {
                        assert(before.contains(t));
                        let q = choose|q: int| 0 <= q < before.len() && before[q] == t;
                        if q < pos {
                            assert(out@[q] == t);
                        } else {
                            assert(out@[q + 1] == t);
                        }
                    }
                }
            }
        }
        i = i + 1;
    }
    assert(v@.take(v@.len() as int) =~= v@);
    out
}

/// Whether artifact `a` comes before `b`.
fn artifact_lt_exec(a: &Artifact, b: &Artifact) -> (r: bool)
    ensures
        r == artifact_lt(*a, *b),
{
    if text_lt_exec(a.created_at.as_str(), b.created_at.as_str()) {
        return true;
    }
    if text_lt_exec(b.created_at.as_str(), a.created_at.as_str()) {
        return false;
    }
    proof {
        lemma_text_lt_order(a.created_at@, b.created_at@, b.created_at@);
    }
    a.id < b.id
}

/// `files` after adding an artifact with id `id`.
pub open spec fn is_new_artifact(a: Artifact, id: i64, task_id: i64, name: Seq<char>, file_path: Seq<char>, now: String) -> bool {
    &&& a.id == id
    &&& a.task_id == task_id
    &&& a.name@ == name
    &&& a.file_path@ == file_path
    &&& a.created_at == now
}

impl Store {
    /// The artifacts of task `id`, sorted by creation time, ties by id.
    pub fn get_artifacts_for_task(&self, id: i64) -> (r: Vec<Artifact>)
        requires
            self.wf(),
        ensures
            artifacts_of(self.files(), id, r@),
    {
        let mut v: Vec<Artifact> = Vec::new();
        let mut i: usize = 0;
        while i < self.artifacts.len()
            invariant
                self.wf(),
                i <= self.artifacts@.len(),
                forall|a: Artifact| #[trigger] v@.contains(a) <==> (self.artifacts@.take(i as int).contains(a) && a.task_id == id),
                forall|a: int, b: int| 0 <= a < b < v@.len() ==> (#[trigger] v@[a]).id < (#[trigger] v@[b]).id,
                forall|a: int| 0 <= a < v@.len() ==> exists|j: int| 0 <= j < i && self.artifacts@[j] == #[trigger] v@[a],
            decreases self.artifacts@.len() - i,
        {
            let ghost before = v@;
            proof {
                assert(self.artifacts@.take(i + 1) =~= self.artifacts@.take(i as int).push(self.artifacts@[i as int]));
            }
            if self.artifacts[i].task_id == id {
                v.push(self.artifacts[i].clone());
                proof {
                    assert forall|a: int, b: int| 0 <= a < b < v@.len() implies (#[trigger] v@[a]).id < (#[trigger] v@[b]).id by {
                        if b == before.len() {
                            let j = choose|j: int| 0 <= j < i && self.artifacts@[j] == before[a];
                            assert(self.artifacts@[j].id < self.artifacts@[i as int].id);
                            assert(v@[a] == before[a]);
                        } else {
                            assert(v@[a] == before[a] && v@[b] == before[b]);
                        }
                    }
                    assert forall|a: int| 0 <= a < v@.len() implies exists|j: int| 0 <= j < i + 1 && self.artifacts@[j] == #[trigger] v@[a] by {
                        if a < before.len() {
                            assert(v@[a] == before[a]);
                        } else {
                            assert(self.artifacts@[i as int] == v@[a]);
                        }
                    }
                    assert forall|x: Artifact| #[trigger] v@.contains(x) <==> (self.artifacts@.take(i + 1).contains(x) && x.task_id == id) by {
                        crate::graph::lemma_push_contains(before, self.artifacts@[i as int], x);
                        crate::graph::lemma_push_contains(self.artifacts@.take(i as int), self.artifacts@[i as int], x);
                    }
                }
            } else {
                proof {
                    assert forall|x: Artifact| #[trigger] v@.contains(x) <==> (self.artifacts@.take(i + 1).contains(x) && x.task_id == id) by {
                        crate::graph::lemma_push_contains(self.artifacts@.take(i as int), self.artifacts@[i as int], x);
                    }
                }
            }
            i = i + 1;
        }
        proof {
            assert(self.artifacts@.take(self.artifacts@.len() as int) =~= self.artifacts@);
        }
        sort_artifacts(v)
    }

    /// The artifacts of task `task_id`, or of the task in progress when none
    /// is given (`NoActiveTask` when there is none).
    pub fn get_task_artifacts(&self, task_id: Option<i64>) -> (r: Result<Vec<Artifact>, Error>)
        requires
            self.wf(),
        ensures
            match task_id {
                Some(id) => r matches Ok(v) && artifacts_of(self.files(), id, v@),
                None => match active_task(self.rows()) {
                    Some(t) => r matches Ok(v) && artifacts_of(self.files(), t.id, v@),
                    None => r matches Err(Error::NoActiveTask),
                },
            },
    {
        let id = match task_id {
            Some(id) => id,
            None => match self.active() {
                Some(t) => t.id,
                None => {
                    return Err(Error::NoActiveTask);
                },
            },
        };
        Ok(self.get_artifacts_for_task(id))
    }

    /// Records an artifact for task `task_id`, or for the task in progress
    /// when none is given. The task's row must exist.
    pub fn log_artifact(&mut self, name: &str, file_path: &str, task_id: Option<i64>, now: &String) -> (r: Result<Artifact, Error>)
        requires
            old(self).wf(),
        ensures
            final(self).wf(),
            log_artifact_outcome(*old(self), *final(self), name@, file_path@, task_id, *now, r),
    {
        let id = match task_id {
            Some(id) => id,
            None => match self.active() {
                Some(t) => t.id,
                None => {
                    return Err(Error::NoActiveTask);
                },
            },
        };
        if self.next_artifact == i64::MAX {
            return Err(Error::Db(String::from_str("database or disk is full")));
        }
        if self.row_index(id).is_none() {
            return Err(Error::Db(String::from_str("FOREIGN KEY constraint failed")));
        }
        let a = Artifact {
            id: self.next_artifact,
            task_id: id,
            name: String::from_str(name),
            file_path: String::from_str(file_path),
            created_at: now.clone(),
        };
        let ghost before = self.artifacts@;
        self.artifacts.push(a.clone());
        self.next_artifact = self.next_artifact + 1;
        proof {
            assert forall|i: int, j: int| 0 <= i < j < self.artifacts@.len() implies (#[trigger] self.artifacts@[i]).id < (#[trigger] self.artifacts@[j]).id by {
                if j < before.len() {
                    assert(self.artifacts@[i] == before[i] && self.artifacts@[j] == before[j]);
                } else {
                    assert(self.artifacts@[i] == before[i]);
                }
            }
            assert forall|i: int| 0 <= i < self.artifacts@.len() implies 0 < (#[trigger] self.artifacts@[i]).id < self.next_artifact
                && task_ids(self.tasks@).contains(self.artifacts@[i].task_id) by {
                if i < before.len() {
                    assert(self.artifacts@[i] == before[i]);
                }
            }
        }
        Ok(a)
    }
}


/// The row with id `id`, archived ones included when `include_archived`.
pub open spec fn lookup_row(rows: Seq<Task>, id: i64, include_archived: bool) -> Option<Task> {
    if include_archived {
        task_by_id(rows, id)
    } else {
        live_row(rows, id)
    }
}

/// The rows of `ids` that are found, in the order of `ids`.
pub open spec fn rows_for(rows: Seq<Task>, ids: Seq<i64>, include_archived: bool) -> Seq<Task>
    decreases ids.len(),
{
    if ids.len() == 0 {
        Seq::empty()
    } else {
        rows_for(rows, ids.drop_last(), include_archived) + match lookup_row(rows, ids.last(), include_archived) {
            Some(t) => seq![t],
            None => Seq::empty(),
        }
    }
}

/// The rows found for the prerequisites of `id`, in edge order.
pub open spec fn prerequisite_rows(rows: Seq<Task>, edges: Seq<Dependency>, id: i64, include_archived: bool) -> Seq<Task>
    decreases edges.len(),
{
    if edges.len() == 0 {
        Seq::empty()
    } else {
        prerequisite_rows(rows, edges.drop_last(), id, include_archived) + if edges.last().task_id == id {
            match lookup_row(rows, edges.last().depends_on, include_archived) {
                Some(t) => seq![t],
                None => Seq::empty(),
            }
        } else {
            Seq::empty()
        }
    }
}

/// The rows found for the tasks that depend on `id`, in edge order.
pub open spec fn dependent_rows(rows: Seq<Task>, edges: Seq<Dependency>, id: i64, include_archived: bool) -> Seq<Task>
    decreases edges.len(),
{
    if edges.len() == 0 {
        Seq::empty()
    } else {
        dependent_rows(rows, edges.drop_last(), id, include_archived) + if edges.last().depends_on == id {
            match lookup_row(rows, edges.last().task_id, include_archived) {
                Some(t) => seq![t],
                None => Seq::empty(),
            }
        } else {
            Seq::empty()
        }
    }
}

/// `d` is the detail of task `id`.
pub open spec fn is_detail(s: Store, id: i64, include_archived: bool, d: TaskDetail) -> bool {
    &&& lookup_row(s.rows(), id, include_archived) == Some(d.task)
    &&& d.dependencies@ == prerequisite_rows(s.rows(), s.edges(), id, include_archived)
    &&& d.dependents@ == dependent_rows(s.rows(), s.edges(), id, include_archived)
    &&& artifacts_of(s.files(), id, d.artifacts@)
    &&& forall|i: int| 0 <= i < d.dependencies@.len() ==> s.edges().contains(
        Dependency { task_id: id, depends_on: (#[trigger] d.dependencies@[i]).id },
    ) && s.rows().contains(d.dependencies@[i])
    &&& forall|i: int| 0 <= i < d.dependents@.len() ==> s.edges().contains(
        Dependency { task_id: (#[trigger] d.dependents@[i]).id, depends_on: id },
    ) && s.rows().contains(d.dependents@[i])
}

impl Store {
    fn tasks_for(&self, ids: &Vec<i64>, include_archived: bool) -> (r: Vec<Task>)
        requires
            self.wf(),
        ensures
            r@ == rows_for(self.rows(), ids@, include_archived),
    {
        let mut out: Vec<Task> = Vec::new();
        let mut i: usize = 0;
        while i < ids.len()
            invariant
                self.wf(),
                i <= ids@.len(),
                out@ == rows_for(self.rows(), ids@.take(i as int), include_archived),
            decreases ids@.len() - i,
        {
            proof {
                assert(ids@.take(i + 1).drop_last() =~= ids@.take(i as int));
            }
            match self.get_task(ids[i], include_archived) {
                Some(t) => {
                    out.push(t);
                },
                None => {},
            }
            proof {
                assert(out@ =~= rows_for(self.rows(), ids@.take(i + 1), include_archived));
            }
            i = i + 1;
        }
        proof {
            assert(ids@.take(ids@.len() as int) =~= ids@);
        }
        out
    }

    /// The live tasks among `ids`, in the order of `ids`; missing ids are
    /// left out.
    pub fn get_tasks(&self, ids: Vec<i64>) -> (r: Vec<Task>)
        requires
            self.wf(),
        ensures
            r@ == rows_for(self.rows(), ids@, false),
    {
        self.tasks_for(&ids, false)
    }

    /// The tasks among `ids`, archived ones included, in the order of `ids`;
    /// missing ids are left out.
    pub fn get_tasks_allow_archived(&self, ids: Vec<i64>) -> (r: Vec<Task>)
        requires
            self.wf(),
        ensures
            r@ == rows_for(self.rows(), ids@, true),
    {
        self.tasks_for(&ids, true)
    }

    fn detail(&self, id: i64, include_archived: bool) -> (r: Result<TaskDetail, Error>)
        requires
            self.wf(),
        ensures
            match lookup_row(self.rows(), id, include_archived) {
                Some(_) => r matches Ok(d) && is_detail(*self, id, include_archived, d),
                None => r matches Err(Error::TaskNotFound(x)) && x == id,
            },
    {
        let task = match self.get_task(id, include_archived) {
            Some(t) => t,
            None => {
                return Err(Error::TaskNotFound(id));
            },
        };
        let mut dependencies: Vec<Task> = Vec::new();
        let mut dependents: Vec<Task> = Vec::new();
        let mut k: usize = 0;
        while k < self.deps.len()
            invariant
                self.wf(),
                k <= self.deps@.len(),
                dependencies@ == prerequisite_rows(self.rows(), self.deps@.take(k as int), id, include_archived),
                dependents@ == dependent_rows(self.rows(), self.deps@.take(k as int), id, include_archived),
                forall|j: int| 0 <= j < dependencies@.len() ==> self.edges().contains(
                    Dependency { task_id: id, depends_on: (#[trigger] dependencies@[j]).id },
                ) && self.rows().contains(dependencies@[j]),
                forall|j: int| 0 <= j < dependents@.len() ==> self.edges().contains(
                    Dependency { task_id: (#[trigger] dependents@[j]).id, depends_on: id },
                ) && self.rows().contains(dependents@[j]),
            decreases self.deps@.len() - k,
        {
            proof {
                assert(self.deps@.take(k + 1).drop_last() =~= self.deps@.take(k as int));
            }
            let d = self.deps[k];
            proof {
                assert(self.edges()[k as int] == d);
                assert(self.edges().contains(d));
            }
            if d.task_id == id {
                match self.get_task(d.depends_on, include_archived) {
                    Some(t) => {
                        proof {
                            lemma_task_by_id(self.rows(), d.depends_on);
                            assert(t.id == d.depends_on && self.rows().contains(t));
                        }
                        let ghost before = dependencies@;
                        dependencies.push(t);
                        proof {
                            assert forall|j: int| 0 <= j < dependencies@.len() implies self.edges().contains(
                                Dependency { task_id: id, depends_on: (#[trigger] dependencies@[j]).id },
                            ) && self.rows().contains(dependencies@[j]) by {
                                if j < before.len() {
                                    assert(dependencies@[j] == before[j]);
                                }
                            }
                        }
                    },
                    None => {},
                }
            }
            if d.depends_on == id {
                match self.get_task(d.task_id, include_archived) {
                    Some(t) => {
                        proof {
                            lemma_task_by_id(self.rows(), d.task_id);
                            assert(t.id == d.task_id && self.rows().contains(t));
                        }
                        let ghost before = dependents@;
                        dependents.push(t);
                        proof {
                            assert forall|j: int| 0 <= j < dependents@.len() implies self.edges().contains(
                                Dependency { task_id: (#[trigger] dependents@[j]).id, depends_on: id },
                            ) && self.rows().contains(dependents@[j]) by {
                                if j < before.len() {
                                    assert(dependents@[j] == before[j]);
                                }
                            }
                        }
                    },
                    None => {},
                }
            }
            proof {
                assert(dependencies@ =~= prerequisite_rows(self.rows(), self.deps@.take(k + 1), id, include_archived));
                assert(dependents@ =~= dependent_rows(self.rows(), self.deps@.take(k + 1), id, include_archived));
            }
            k = k + 1;
        }
        proof {
            assert(self.deps@.take(self.deps@.len() as int) =~= self.deps@);
        }
        let artifacts = self.get_artifacts_for_task(id);
        Ok(TaskDetail { task, dependencies, dependents, artifacts })
    }

    /// The live task `id` with its prerequisites and dependents (live ones)
    /// and its artifacts.
    pub fn get_task_detail(&self, id: i64) -> (r: Result<TaskDetail, Error>)
        requires
            self.wf(),
        ensures
            match live_row(self.rows(), id) {
                Some(_) => r matches Ok(d) && is_detail(*self, id, false, d),
                None => r matches Err(Error::TaskNotFound(x)) && x == id,
            },
    {
        self.detail(id, false)
    }

    /// Task `id`, archived or not, with its prerequisites, dependents and
    /// artifacts.
    pub fn get_task_detail_allow_archived(&self, id: i64) -> (r: Result<TaskDetail, Error>)
        requires
            self.wf(),
        ensures
            match task_by_id(self.rows(), id) {
                Some(_) => r matches Ok(d) && is_detail(*self, id, true, d),
                None => r matches Err(Error::TaskNotFound(x)) && x == id,
            },
    {
        self.detail(id, true)
    }
}



/// Membership in the ids of `ts`.
pub open spec fn among_ids(ts: Seq<Task>) -> spec_fn(i64) -> bool {
    |x: i64| task_ids(ts).contains(x)
}

/// The edges of `edges` whose two tasks are both among `ts`.
pub open spec fn edges_among(ts: Seq<Task>, edges: Seq<Dependency>) -> Seq<Dependency> {
    deps_among(edges, among_ids(ts))
}

fn edges_between(ts: &Vec<Task>, edges: &Vec<Dependency>) -> (r: Vec<Dependency>)
    ensures
        r@ == edges_among(ts@, edges@),
{
    let mut ids: Vec<i64> = Vec::new();
    let mut i: usize = 0;
    while i < ts.len()
        invariant
            i <= ts@.len(),
            ids@ == task_ids(ts@.take(i as int)),
        decreases ts@.len() - i,
    {
        assert(task_ids(ts@.take(i + 1)) =~= task_ids(ts@.take(i as int)).push(ts@[i as int].id));
        ids.push(ts[i].id);
        i = i + 1;
    }
    assert(ts@.take(ts@.len() as int) =~= ts@);
    let ghost keep = among_ids(ts@);
    let mut r: Vec<Dependency> = Vec::new();
    let mut k: usize = 0;
    while k < edges.len()
        invariant
            k <= edges@.len(),
            ids@ == task_ids(ts@),
            keep == among_ids(ts@),
            r@ == deps_among(edges@.take(k as int), keep),
        decreases edges@.len() - k,
    {
        assert(edges@.take(k + 1).drop_last() =~= edges@.take(k as int));
        let e = edges[k];
        if contains_id(&ids, e.task_id) && contains_id(&ids, e.depends_on) {
            r.push(e);
        }
        k = k + 1;
    }
    assert(edges@.take(edges@.len() as int) =~= edges@);
    r
}

fn copy_tasks(v: &Vec<Task>) -> (r: Vec<Task>)
    ensures
        r@ == v@,
{
    let mut r: Vec<Task> = Vec::new();
    let mut i: usize = 0;
    while i < v.len()
        invariant
            i <= v@.len(),
            r@ == v@.take(i as int),
        decreases v@.len() - i,
    {
        assert(v@.take(i + 1) =~= v@.take(i as int).push(v@[i as int]));
        r.push(v[i].clone());
        i = i + 1;
    }
    assert(v@.take(v@.len() as int) =~= v@);
    r
}

/// Orders tasks with distinct ids so that prerequisites come first, by
/// manual order where the edges among them leave a choice.
fn order_by_dependencies(v: Vec<Task>, edges: &Vec<Dependency>) -> (r: Vec<Task>)
    requires
        task_ids(v@).no_duplicates(),
        acyclic(edges@),
    ensures
        topo_sorted(v@, edges_among(v@, edges@), r@),
{
    let among = edges_between(&v, edges);
    let backup = copy_tasks(&v);
    let ghost vv = v@;
    match topological_sort(v, among.as_slice()) {
        Ok(sorted) => sorted,
        Err(e) => {
            proof {
                if let Error::CycleDetected(a, b, ids) = e {
                    assert(ids@.contains(ids@[0]));
                    lemma_among_orderable(vv, edges@, ids@[0]);
                }
            }
            backup
        },
    }
}

/// Every task of `ts` (distinct ids) can be ordered by the acyclic edges
/// among them.
proof fn lemma_among_orderable(ts: Seq<Task>, edges: Seq<Dependency>, x: i64)
    requires
        task_ids(ts).no_duplicates(),
        acyclic(edges),
        task_ids(ts).contains(x),
    ensures
        orderable(ts, edges_among(ts, edges), x),
{
    let keep = among_ids(ts);
    let among = edges_among(ts, edges);
    lemma_deps_among_elem(edges, keep);
    lemma_acyclic_sub(edges, among);
    assert forall|e: int| 0 <= e < among.len() implies task_ids(ts).contains(#[trigger] among[e].depends_on) by {
        assert(keep(among[e].depends_on));
    }
    lemma_dag_orderable(ts, among, task_ids(ts), x);
}

/// Keeping some tasks of a list with increasing ids keeps the ids
/// increasing.
proof fn lemma_tasks_among_increasing(ts: Seq<Task>, keep: spec_fn(i64) -> bool)
    requires
        forall|i: int, j: int| 0 <= i < j < ts.len() ==> (#[trigger] ts[i]).id < (#[trigger] ts[j]).id,
    ensures
        forall|i: int, j: int|
            0 <= i < j < tasks_among(ts, keep).len() ==> (#[trigger] tasks_among(ts, keep)[i]).id
                < (#[trigger] tasks_among(ts, keep)[j]).id,
        forall|i: int| 0 <= i < tasks_among(ts, keep).len() ==> ts.contains(#[trigger] tasks_among(ts, keep)[i]),
    decreases ts.len(),
{
    if ts.len() > 0 {
        let d = ts.drop_last();
        lemma_tasks_among_increasing(d, keep);
        let r = tasks_among(ts, keep);
        let rd = tasks_among(d, keep);
        assert forall|i: int| 0 <= i < r.len() implies ts.contains(#[trigger] r[i]) by {
            if i < rd.len() {
                assert(r[i] == rd[i]);
                assert(d.contains(rd[i]));
                let q = choose|q: int| 0 <= q < d.len() && d[q] == rd[i];
                assert(ts[q] == d[q]);
            } else {
                assert(r[i] == ts.last());
                assert(ts[ts.len() - 1] == ts.last());
            }
        }
        assert forall|i: int, j: int| 0 <= i < j < r.len() implies (#[trigger] r[i]).id < (#[trigger] r[j]).id by {
            if j < rd.len() {
                assert(r[i] == rd[i] && r[j] == rd[j]);
            } else {
                assert(r[j] == ts.last());
                assert(r[i] == rd[i]);
                assert(d.contains(rd[i]));
                let q = choose|q: int| 0 <= q < d.len() && d[q] == rd[i];
                assert(ts[q] == d[q]);
                assert(ts[ts.len() - 1] == ts.last());
            }
        }
    }
}

/// In an acyclic graph over tasks with increasing ids, the focus subgraph
/// can always be ordered.
pub proof fn lemma_focus_orderable_live(live: Seq<Task>, edges: Seq<Dependency>, tid: i64)
    requires
        acyclic(edges),
        forall|i: int, j: int| 0 <= i < j < live.len() ==> (#[trigger] live[i]).id < (#[trigger] live[j]).id,
    ensures
        focus_acyclic(live, edges, tid),
{
    let keep = in_focus(live, edges, tid);
    let ft = focus_tasks(live, edges, tid);
    let fd = focus_deps(live, edges, tid);
    lemma_tasks_among_increasing(live, keep);
    lemma_increasing_ids_nodup(ft);
    lemma_deps_among_elem(edges, keep);
    lemma_acyclic_sub(edges, fd);
    assert forall|e: int| 0 <= e < fd.len() implies task_ids(ft).contains(#[trigger] fd[e].depends_on) by {
        let y = fd[e].depends_on;
        assert(keep(y));
        lemma_tasks_among_ids(live, keep, y);
        lemma_task_by_id(live, y);
    }
    assert forall|x: i64| #[trigger] focus_open(live, edges, tid, x) implies orderable(ft, fd, x) by {
        lemma_tasks_among_ids(live, keep, x);
        lemma_task_by_id(live, x);
        assert(keep(x));
        lemma_dag_orderable(ft, fd, task_ids(ft), x);
    }
}

/// In an acyclic graph, the focus subgraph can always be ordered.
pub proof fn lemma_focus_orderable(live: Seq<Task>, edges: Seq<Dependency>, tid: i64, sub: Seq<Task>)
    requires
        acyclic(edges),
        is_focus_list(live, edges, tid, sub),
    ensures
        focus_acyclic(live, edges, tid),
{
    let keep = in_focus(live, edges, tid);
    let ft = focus_tasks(live, edges, tid);
    let fd = focus_deps(live, edges, tid);
    lemma_deps_among_elem(edges, keep);
    lemma_acyclic_sub(edges, fd);
    assert forall|y: i64| #[trigger] task_ids(sub).contains(y) <==> task_ids(ft).contains(y) by {
        lemma_tasks_among_ids(live, keep, y);
        lemma_task_by_id(live, y);
        if task_ids(sub).contains(y) {
            let j = choose|j: int| 0 <= j < task_ids(sub).len() && task_ids(sub)[j] == y;
            assert(sub[j].id == y);
            assert(focus_open(live, edges, tid, sub[j].id));
        }
        if task_ids(ft).contains(y) {
            assert(keep(y));
        }
    }
    assert forall|e: int| 0 <= e < fd.len() implies task_ids(sub).contains(#[trigger] fd[e].depends_on) by {
        assert(keep(fd[e].depends_on));
    }
    assert forall|x: i64| #[trigger] focus_open(live, edges, tid, x) implies orderable(ft, fd, x) by {
        lemma_tasks_among_ids(live, keep, x);
        lemma_task_by_id(live, x);
        assert(keep(x));
        lemma_dag_orderable(ft, fd, task_ids(sub), x);
    }
}

/// What `list_tasks` lists before paging, for these filters.
pub open spec fn listing(s: Store, all: bool, status: Option<TaskStatus>, active: bool, archived: Option<bool>, res: Seq<Task>) -> bool {
    if archived == Some(true) {
        selection_listing(s, RowFilter::Archived, res)
    } else if status is Some {
        selection_listing(s, RowFilter::Status(status->0), res)
    } else if active {
        selection_listing(s, RowFilter::Active, res)
    } else if all || s.focus() is None {
        selection_listing(s, RowFilter::Live, res)
    } else {
        let live = live_others(s.rows(), None);
        let tid = s.focus()->0;
        exists|sub: Seq<Task>|
            #[trigger] is_focus_list(live, s.edges(), tid, sub) && topo_sorted(sub, focus_deps(live, s.edges(), tid), res)
    }
}

/// The rows that `filter` selects, prerequisites first (by manual order
/// where the edges among them leave a choice).
pub open spec fn selection_listing(s: Store, filter: RowFilter, res: Seq<Task>) -> bool {
    exists|sel: Seq<Task>|
        ordered_selection(s.rows(), |t: Task| row_matches(t, filter), sel) && task_ids(sel).no_duplicates()
            && #[trigger] topo_sorted(sel, edges_among(sel, s.edges()), res)
}

impl Store {
    /// The rows that `filter` selects, in dependency order.
    fn listed(&self, filter: RowFilter) -> (r: Vec<Task>)
        requires
            self.wf(),
        ensures
            selection_listing(*self, filter, r@),
    {
        let v = self.select_tasks(filter);
        let ghost sel = v@;
        let w = order_by_dependencies(v, &self.deps);
        proof {
            assert(ordered_selection(self.rows(), |t: Task| row_matches(t, filter), sel));
        }
        w
    }

    /// Lists tasks, one page (`limit`, `offset`) of them: the archived ones
    /// when `archived` is `Some(true)`; else those with `status` if given;
    /// else the pending and in-progress ones when `active`; else every live
    /// task when `all` or when no focus is set; else the focus subgraph. Each
    /// listing puts prerequisites before their dependents, by manual order
    /// where the edges leave a choice (by manual order alone if the tasks
    /// listed cannot be ordered so).
    pub fn list_tasks(
        &self,
        all: bool,
        status: Option<TaskStatus>,
        active: bool,
        limit: Option<usize>,
        offset: Option<usize>,
        archived: Option<bool>,
    ) -> (r: Vec<Task>)
        requires
            self.wf(),
        ensures
            exists|res: Seq<Task>| #[trigger] listing(*self, all, status, active, archived, res) && r@ == page(res, limit, offset),
    {
        if archived == Some(true) {
            let v = self.listed(RowFilter::Archived);
            proof {
                assert(listing(*self, all, status, active, archived, v@));
            }
            return paginate(&v, limit, offset);
        }
        if let Some(st) = status {
            let v = self.listed(RowFilter::Status(st));
            proof {
                assert(listing(*self, all, status, active, archived, v@));
            }
            return paginate(&v, limit, offset);
        }
        if active {
            let v = self.listed(RowFilter::Active);
            proof {
                assert(listing(*self, all, status, active, archived, v@));
            }
            return paginate(&v, limit, offset);
        }
        if all || self.target.is_none() {
            let v = self.listed(RowFilter::Live);
            proof {
                assert(listing(*self, all, status, active, archived, v@));
            }
            return paginate(&v, limit, offset);
        }
        let tid = match self.target {
            Some(t) => t,
            None => 0,
        };
        let live = self.others(None);
        proof {
            lemma_live_others_ids(self.tasks@, None);
        }
        let sub = compute_target_subgraph(tid, &live, self.deps.as_slice());
        let ghost subv = sub@;
        proof {
            assert(is_focus_list(live@, self.deps@, tid, subv));
        }
        let sub_deps = focus_edges(tid, &live, self.deps.as_slice(), &sub);
        match topological_sort(sub, &sub_deps) {
            Ok(sorted) => {
                proof {
                    lemma_sorted_focus_acyclic(live@, self.deps@, tid, subv, sorted@);
                    assert(listing(*self, all, status, active, archived, sorted@));
                }
                paginate(&sorted, limit, offset)
            },
            Err(e) => {
                proof {
                    lemma_focus_orderable(live@, self.deps@, tid, subv);
                    if let Error::CycleDetected(a, b, ids) = e {
                        assert(ids@.contains(ids@[0]));
                        lemma_unorderable_focus(live@, self.deps@, tid, subv, ids@[0]);
                    }
                }
                let v = self.listed(RowFilter::Live);
                paginate(&v, limit, offset)
            },
        }
    }
}


/// Task `id` is the live task in progress, so that completing or stopping
/// it through an edit of `id` acts on it.
pub open spec fn acts_on_active(rows: Seq<Task>, id: i64) -> bool {
    &&& live_row(rows, id) is Some
    &&& active_task(rows) matches Some(t) && t.id == id
}

/// The refusal to complete or stop task `id` when it is not the task in
/// progress: a missing task is not found; with no task in progress there is
/// none to act on; otherwise the task in progress is named.
pub open spec fn not_active_refusal(rows: Seq<Task>, id: i64, r: Result<(), Error>) -> bool {
    match live_row(rows, id) {
        None => r matches Err(Error::TaskNotFound(x)) && x == id,
        Some(_) => match active_task(rows) {
            None => r matches Err(Error::NoActiveTask),
            Some(t) => r matches Err(Error::AnotherTaskActive(i, s)) && i == t.id && s@ == t.title@,
        },
    }
}

/// The outcome of the action step of editing task `id`.
pub open spec fn edit_action_outcome(
    rows: Seq<Task>,
    id: i64,
    action: Option<EditAction>,
    now: String,
    r: Result<(), Error>,
    rows2: Seq<Task>,
) -> bool {
    match action {
        None => r is Ok && rows2 == rows,
        Some(EditAction::Complete) => if acts_on_active(rows, id) {
            exists|x: Result<Task, Error>| #[trigger] complete_outcome(rows, now, x, rows2) && r == discard_ok(x)
        } else {
            not_active_refusal(rows, id, r) && rows2 == rows
        },
        Some(EditAction::Stop) => if acts_on_active(rows, id) {
            exists|x: Result<Task, Error>| #[trigger] stop_outcome(rows, now, x, rows2) && r == discard_ok(x)
        } else {
            not_active_refusal(rows, id, r) && rows2 == rows
        },
        Some(EditAction::Cancel) => exists|x: Result<Task, Error>|
            #[trigger] cancel_outcome(rows, id, now, x, rows2)
                && r == discard_ok(x),
        Some(EditAction::Block) => exists|x: Result<Task, Error>|
            #[trigger] block_outcome(rows, id, now, x, rows2)
                && r == discard_ok(x),
        Some(EditAction::Unblock) => exists|x: Result<Task, Error>|
            #[trigger] unblock_outcome(rows, id, now, x, rows2)
                && r == discard_ok(x),
    }
}

/// The outcome of the status step of editing task `id`: a change of status
/// goes through the operation that makes it.
pub open spec fn edit_status_outcome(
    rows: Seq<Task>,
    edges: Seq<Dependency>,
    id: i64,
    status: Option<TaskStatus>,
    now: String,
    r: Result<(), Error>,
    rows2: Seq<Task>,
) -> bool {
    match status {
        None => r is Ok && rows2 == rows,
        Some(new) => match live_row(rows, id) {
            None => (r matches Err(Error::TaskNotFound(x)) && x == id) && rows2 == rows,
            Some(cur) => if cur.status == new {
                r is Ok && rows2 == rows
            } else {
                match new {
                    TaskStatus::InProgress => exists|x: Result<Task, Error>| #[trigger] start_outcome(rows, edges, id, now, x, rows2) && r == discard_ok(x),
                    TaskStatus::Pending => if cur.status == TaskStatus::InProgress {
                        exists|x: Result<Task, Error>| #[trigger] stop_outcome(rows, now, x, rows2) && r == discard_ok(x)
                    } else if cur.status == TaskStatus::Blocked {
                        exists|x: Result<Task, Error>|
                            #[trigger] unblock_outcome(rows, id, now, x, rows2)
                                && r == discard_ok(x)
                    } else {
                        r is Ok && rows2 == rows
                    },
                    TaskStatus::Completed => if cur.status == TaskStatus::InProgress {
                        exists|x: Result<Task, Error>| #[trigger] complete_outcome(rows, now, x, rows2) && r == discard_ok(x)
                    } else {
                        (r matches Err(Error::TaskNotPending(x)) && x == id) && rows2 == rows
                    },
                    TaskStatus::Blocked => exists|x: Result<Task, Error>|
                        #[trigger] block_outcome(rows, id, now, x, rows2)
                            && r == discard_ok(x),
                    TaskStatus::Cancelled => exists|x: Result<Task, Error>|
                        #[trigger] cancel_outcome(rows, id, now, x, rows2)
                            && r == discard_ok(x),
                }
            },
        },
    }
}

/// `t2` is row `t` with the given fields replaced, touched at `now`.
pub open spec fn edited(
    t: Task,
    t2: Task,
    title: Option<Seq<char>>,
    description: Option<Seq<char>>,
    dod: Option<Seq<char>>,
    now: String,
) -> bool {
    &&& t2 == Task { title: t2.title, description: t2.description, dod: t2.dod, last_touched_at: now, ..t }
    &&& match title {
        Some(x) => t2.title@ == x,
        None => t2.title == t.title,
    }
    &&& match description {
        Some(x) => t2.description matches Some(d) && d@ == x,
        None => t2.description == t.description,
    }
    &&& match dod {
        Some(x) => t2.dod matches Some(d) && d@ == x,
        None => t2.dod == t.dod,
    }
}

/// The outcome of the field step of editing task `id` (archived rows can
/// be edited too).
pub open spec fn edit_fields_outcome(
    rows: Seq<Task>,
    id: i64,
    title: Option<Seq<char>>,
    description: Option<Seq<char>>,
    dod: Option<Seq<char>>,
    now: String,
    r: Result<(), Error>,
    rows2: Seq<Task>,
) -> bool {
    if title is None && description is None && dod is None {
        r is Ok && rows2 == rows
    } else {
        match task_by_id(rows, id) {
            None => (r matches Err(Error::TaskNotFound(x)) && x == id) && rows2 == rows,
            Some(t) => r is Ok && exists|t2: Task| #[trigger] edited(t, t2, title, description, dod, now) && rows2 == with_row(rows, t2),
        }
    }
}

/// The ids of an optional list.
pub open spec fn opt_ids(o: Option<Vec<i64>>) -> Option<Seq<i64>> {
    match o {
        Some(v) => Some(v@),
        None => None,
    }
}

/// The text of an optional string argument.
pub open spec fn opt_view(s: Option<&str>) -> Option<Seq<char>> {
    match s {
        Some(x) => Some(x@),
        None => None,
    }
}

impl Store {
    /// Whether task `id` is the task in progress, or why an action that
    /// needs it to be is refused.
    fn check_acts_on_active(&self, id: i64) -> (r: Result<(), Error>)
        requires
            self.wf(),
        ensures
            r is Ok <==> acts_on_active(self.rows(), id),
            r is Err ==> not_active_refusal(self.rows(), id, r),
    {
        if self.get_task(id, false).is_none() {
            return Err(Error::TaskNotFound(id));
        }
        match self.active() {
            None => Err(Error::NoActiveTask),
            Some(t) => if t.id == id {
                Ok(())
            } else {
                Err(Error::AnotherTaskActive(t.id, t.title.clone()))
            },
        }
    }

    /// The action step of `edit_task`.
    fn edit_action(&mut self, id: i64, action: Option<EditAction>, now: &String) -> (r: Result<(), Error>)
        requires
            old(self).wf(),
        ensures
            final(self).wf(),
            same_but_rows(*old(self), *final(self)),
            edit_action_outcome(old(self).rows(), id, action, *now, r, final(self).rows()),
    {
        let ghost rows0 = self.rows();
        match action {
            None => Ok(()),
            Some(EditAction::Complete) => {
                self.check_acts_on_active(id)?;
                let x = self.complete_task(now);
                proof {
                    assert(complete_outcome(rows0, *now, x, self.rows()));
                }
                match x {
                    Ok(_) => Ok(()),
                    Err(e) => Err(e),
                }
            },
            Some(EditAction::Stop) => {
                self.check_acts_on_active(id)?;
                let x = self.stop_task(now);
                proof {
                    assert(stop_outcome(rows0, *now, x, self.rows()));
                }
                match x {
                    Ok(_) => Ok(()),
                    Err(e) => Err(e),
                }
            },
            Some(EditAction::Cancel) => {
                let x = self.cancel_task(id, now);
                proof {
                    assert(cancel_outcome(rows0, id, *now, x, self.rows()));
                }
                match x {
                    Ok(_) => Ok(()),
                    Err(e) => Err(e),
                }
            },
            Some(EditAction::Block) => {
                let x = self.block_task(id, now);
                proof {
                    assert(block_outcome(rows0, id, *now, x, self.rows()));
                }
                match x {
                    Ok(_) => Ok(()),
                    Err(e) => Err(e),
                }
            },
            Some(EditAction::Unblock) => {
                let x = self.unblock_task(id, now);
                proof {
                    assert(unblock_outcome(rows0, id, *now, x, self.rows()));
                }
                match x {
                    Ok(_) => Ok(()),
                    Err(e) => Err(e),
                }
            },
        }
    }

    /// The status step of `edit_task`.
    fn edit_status(&mut self, id: i64, status: Option<TaskStatus>, now: &String) -> (r: Result<(), Error>)
        requires
            old(self).wf(),
        ensures
            final(self).wf(),
            same_but_rows(*old(self), *final(self)),
            edit_status_outcome(old(self).rows(), old(self).edges(), id, status, *now, r, final(self).rows()),
    {
        let ghost rows0 = self.rows();
        let new_status = match status {
            Some(s) => s,
            None => {
                return Ok(());
            },
        };
        let current = match self.get_task(id, false) {
            Some(t) => t,
            None => {
                return Err(Error::TaskNotFound(id));
            },
        };
        if current.status == new_status {
            return Ok(());
        }
        match new_status {
            TaskStatus::InProgress => {
                let x = self.start_task(id, now);
                proof {
                    assert(start_outcome(rows0, self.edges(), id, *now, x, self.rows()));
                }
                match x {
                    Ok(_) => Ok(()),
                    Err(e) => Err(e),
                }
            },
            TaskStatus::Pending => {
                if current.status == TaskStatus::InProgress {
                    let x = self.stop_task(now);
                    proof {
                        assert(stop_outcome(rows0, *now, x, self.rows()));
                    }
                    match x {
                        Ok(_) => Ok(()),
                        Err(e) => Err(e),
                    }
                } else if current.status == TaskStatus::Blocked {
                    let x = self.unblock_task(id, now);
                    proof {
                        assert(unblock_outcome(rows0, id, *now, x, self.rows()));
                    }
                    match x {
                        Ok(_) => Ok(()),
                        Err(e) => Err(e),
                    }
                } else {
                    Ok(())
                }
            },
            TaskStatus::Completed => {
                if current.status == TaskStatus::InProgress {
                    let x = self.complete_task(now);
                    proof {
                        assert(complete_outcome(rows0, *now, x, self.rows()));
                    }
                    match x {
                        Ok(_) => Ok(()),
                        Err(e) => Err(e),
                    }
                } else {
                    Err(Error::TaskNotPending(id))
                }
            },
            TaskStatus::Blocked => {
                let x = self.block_task(id, now);
                proof {
                    assert(block_outcome(rows0, id, *now, x, self.rows()));
                }
                match x {
                    Ok(_) => Ok(()),
                    Err(e) => Err(e),
                }
            },
            TaskStatus::Cancelled => {
                let x = self.cancel_task(id, now);
                proof {
                    assert(cancel_outcome(rows0, id, *now, x, self.rows()));
                }
                match x {
                    Ok(_) => Ok(()),
                    Err(e) => Err(e),
                }
            },
        }
    }

    /// The field step of `edit_task`.
    fn edit_fields(&mut self, id: i64, title: Option<&str>, description: Option<&str>, dod: Option<&str>, now: &String) -> (r: Result<(), Error>)
        requires
            old(self).wf(),
        ensures
            final(self).wf(),
            same_but_rows(*old(self), *final(self)),
            edit_fields_outcome(old(self).rows(), id, opt_view(title), opt_view(description), opt_view(dod), *now, r, final(self).rows()),
    {
        if title.is_none() && description.is_none() && dod.is_none() {
            return Ok(());
        }
        let j = match self.row_index(id) {
            Some(j) => j,
            None => {
                return Err(Error::TaskNotFound(id));
            },
        };
        let t = self.tasks[j].clone();
        let new_title = match title {
            Some(x) => String::from_str(x),
            None => t.title.clone(),
        };
        let new_description = match description {
            Some(x) => Some(String::from_str(x)),
            None => crate::models::clone_opt_string(&t.description),
        };
        let new_dod = match dod {
            Some(x) => Some(String::from_str(x)),
            None => crate::models::clone_opt_string(&t.dod),
        };
        let t2 = Task { title: new_title, description: new_description, dod: new_dod, last_touched_at: now.clone(), ..t };
        proof {
            assert(edited(self.tasks@[j as int], t2, opt_view(title), opt_view(description), opt_view(dod), *now));
        }
        self.replace_row(j, t2);
        Ok(())
    }

    /// Edits task `id`: first the action, if any (complete and stop act on
    /// the task in progress); then a change of status, if any, through the
    /// operation that makes it; then the title, description and definition
    /// of done given. Stops at the first error; returns the live task.
    pub fn edit_task(
        &mut self,
        id: i64,
        title: Option<&str>,
        description: Option<&str>,
        dod: Option<&str>,
        status: Option<TaskStatus>,
        action: Option<EditAction>,
        now: &String,
    ) -> (r: Result<Task, Error>)
        requires
            old(self).wf(),
        ensures
            final(self).wf(),
            edit_outcome(*old(self), *final(self), id, opt_view(title), opt_view(description), opt_view(dod), status, action, *now, r),
    {
        let ghost rows0 = self.rows();
        let r1 = self.edit_action(id, action, now);
        let ghost s1 = self.rows();
        match r1 {
            Ok(_) => {},
            Err(e) => {
                let r = Err(e);
                proof {
                    assert(edit_action_outcome(rows0, id, action, *now, discard_ok(r), s1));
                }
                return r;
            },
        }
        let r2 = self.edit_status(id, status, now);
        let ghost s2 = self.rows();
        match r2 {
            Ok(_) => {},
            Err(e) => {
                let r = Err(e);
                proof {
                    assert(edit_status_outcome(s1, self.edges(), id, status, *now, discard_ok(r), s2));
                    assert(edit_action_outcome(rows0, id, action, *now, Ok::<(), Error>(()), s1));
                }
                return r;
            },
        }
        let r3 = self.edit_fields(id, title, description, dod, now);
        match r3 {
            Ok(_) => {},
            Err(e) => {
                let r = Err(e);
                proof {
                    assert(edit_fields_outcome(s2, id, opt_view(title), opt_view(description), opt_view(dod), *now, discard_ok(r), self.rows()));
                    assert(edit_status_outcome(s1, self.edges(), id, status, *now, Ok::<(), Error>(()), s2));
                    assert(edit_action_outcome(rows0, id, action, *now, Ok::<(), Error>(()), s1));
                }
                return r;
            },
        }
        let r = match self.get_task(id, false) {
            Some(t) => Ok(t),
            None => Err(Error::TaskNotFound(id)),
        };
        proof {
            assert(edit_fields_outcome(s2, id, opt_view(title), opt_view(description), opt_view(dod), *now, Ok::<(), Error>(()), self.rows()));
            assert(edit_status_outcome(s1, self.edges(), id, status, *now, Ok::<(), Error>(()), s2));
            assert(edit_action_outcome(rows0, id, action, *now, Ok::<(), Error>(()), s1));
        }
        r
    }
}


/// The prerequisites of `x`, in edge order.
pub open spec fn prereq_ids(es: Seq<Dependency>, x: i64) -> Seq<i64>
    decreases es.len(),
{
    if es.len() == 0 {
        Seq::empty()
    } else {
        prereq_ids(es.drop_last(), x) + if es.last().task_id == x {
            seq![es.last().depends_on]
        } else {
            Seq::empty()
        }
    }
}

/// The tasks that depend on `x`, in edge order.
pub open spec fn dependent_ids(es: Seq<Dependency>, x: i64) -> Seq<i64>
    decreases es.len(),
{
    if es.len() == 0 {
        Seq::empty()
    } else {
        dependent_ids(es.drop_last(), x) + if es.last().depends_on == x {
            seq![es.last().task_id]
        } else {
            Seq::empty()
        }
    }
}

/// The edges of `es` that do not lead to `x`, in order.
pub open spec fn edges_not_into(es: Seq<Dependency>, x: i64) -> Seq<Dependency>
    decreases es.len(),
{
    if es.len() == 0 {
        Seq::empty()
    } else {
        edges_not_into(es.drop_last(), x) + if es.last().depends_on != x {
            seq![es.last()]
        } else {
            Seq::empty()
        }
    }
}

/// An edge from each of `srcs` to each of `dsts`, sources outermost.
pub open spec fn edge_pairs(srcs: Seq<i64>, dsts: Seq<i64>) -> Seq<Dependency>
    decreases srcs.len(),
{
    if srcs.len() == 0 {
        Seq::empty()
    } else {
        edge_pairs(srcs.drop_last(), dsts) + dsts.map_values(|d: i64| Dependency { task_id: srcs.last(), depends_on: d })
    }
}

/// The edges after splitting task `x` into the tasks `new_ids`: the edges
/// into `x` are gone; each new task depends on each prerequisite of `x`;
/// each task that depended on `x` depends on each new task.
pub open spec fn split_edges(es: Seq<Dependency>, x: i64, new_ids: Seq<i64>) -> Seq<Dependency> {
    edges_not_into(es, x) + edge_pairs(new_ids, prereq_ids(es, x)) + edge_pairs(dependent_ids(es, x), new_ids)
}

/// A row after it is archived at `now`.
pub open spec fn archived(t: Task, now: String) -> Task {
    Task { deleted: true, last_touched_at: now, ..t }
}

proof fn lemma_split_lists(es: Seq<Dependency>, x: i64)
    ensures
        forall|p: i64| #[trigger] prereq_ids(es, x).contains(p) <==> es.contains(Dependency { task_id: x, depends_on: p }),
        forall|d: i64| #[trigger] dependent_ids(es, x).contains(d) <==> es.contains(Dependency { task_id: d, depends_on: x }),
        forall|e: Dependency| #[trigger] edges_not_into(es, x).contains(e) <==> (es.contains(e) && e.depends_on != x),
        es.no_duplicates() ==> prereq_ids(es, x).no_duplicates() && dependent_ids(es, x).no_duplicates()
            && edges_not_into(es, x).no_duplicates(),
    decreases es.len(),
{
    if es.len() > 0 {
        let d = es.drop_last();
        let l = es.last();
        lemma_split_lists(d, x);
        assert(es =~= d.push(l));
        assert forall|p: i64| #[trigger] prereq_ids(es, x).contains(p) <==> es.contains(Dependency { task_id: x, depends_on: p }) by {
            lemma_push_contains(d, l, Dependency { task_id: x, depends_on: p });
            if l.task_id == x {
                assert(prereq_ids(es, x) =~= prereq_ids(d, x).push(l.depends_on));
                lemma_push_contains(prereq_ids(d, x), l.depends_on, p);
            } else {
                assert(prereq_ids(es, x) =~= prereq_ids(d, x));
            }
        }
        assert forall|q: i64| #[trigger] dependent_ids(es, x).contains(q) <==> es.contains(Dependency { task_id: q, depends_on: x }) by {
            lemma_push_contains(d, l, Dependency { task_id: q, depends_on: x });
            if l.depends_on == x {
                assert(dependent_ids(es, x) =~= dependent_ids(d, x).push(l.task_id));
                lemma_push_contains(dependent_ids(d, x), l.task_id, q);
            } else {
                assert(dependent_ids(es, x) =~= dependent_ids(d, x));
            }
        }
        assert forall|e: Dependency| #[trigger] edges_not_into(es, x).contains(e) <==> (es.contains(e) && e.depends_on != x) by {
            lemma_push_contains(d, l, e);
            if l.depends_on != x {
                assert(edges_not_into(es, x) =~= edges_not_into(d, x).push(l));
                lemma_push_contains(edges_not_into(d, x), l, e);
            } else {
                assert(edges_not_into(es, x) =~= edges_not_into(d, x));
            }
        }
        if es.no_duplicates() {
            assert(d.no_duplicates()) by {
                assert forall|a: int, b: int| 0 <= a < d.len() && 0 <= b < d.len() && a != b implies d[a] != d[b] by {
                    assert(es[a] == d[a] && es[b] == d[b]);
                }
            }
            assert(!d.contains(l)) by {
                if d.contains(l) {
                    let j = choose|j: int| 0 <= j < d.len() && d[j] == l;
                    assert(es[j] == es[es.len() - 1]);
                }
            }
            lemma_push_nodup(prereq_ids(d, x), l.depends_on, l.task_id == x);
            lemma_push_nodup(dependent_ids(d, x), l.task_id, l.depends_on == x);
            if l.task_id == x {
                assert(prereq_ids(es, x) =~= prereq_ids(d, x).push(l.depends_on));
                assert(!prereq_ids(d, x).contains(l.depends_on));
            } else {
                assert(prereq_ids(es, x) =~= prereq_ids(d, x));
            }
            if l.depends_on == x {
                assert(dependent_ids(es, x) =~= dependent_ids(d, x).push(l.task_id));
                assert(!dependent_ids(d, x).contains(l.task_id));
            } else {
                assert(dependent_ids(es, x) =~= dependent_ids(d, x));
            }
            if l.depends_on != x {
                assert(edges_not_into(es, x) =~= edges_not_into(d, x).push(l));
                assert(!edges_not_into(d, x).contains(l));
                lemma_push_nodup(edges_not_into(d, x), l, true);
            } else {
                assert(edges_not_into(es, x) =~= edges_not_into(d, x));
            }
        }
    } else {
        assert(prereq_ids(es, x) =~= Seq::<i64>::empty());
        assert(dependent_ids(es, x) =~= Seq::<i64>::empty());
        assert(edges_not_into(es, x) =~= Seq::<Dependency>::empty());
    }
}

proof fn lemma_push_nodup<A>(s: Seq<A>, e: A, pushed: bool)
    requires
        s.no_duplicates(),
        pushed ==> !s.contains(e),
    ensures
        pushed ==> s.push(e).no_duplicates(),
{
    if pushed {
        assert forall|a: int, b: int| 0 <= a < s.push(e).len() && 0 <= b < s.push(e).len() && a != b implies s.push(e)[a] != s.push(e)[b] by {
            if a < s.len() && b < s.len() {
                assert(s.push(e)[a] == s[a] && s.push(e)[b] == s[b]);
            } else if a < s.len() {
                assert(s.contains(s[a]));
            } else {
                assert(s.contains(s[b]));
            }
        }
    }
}

proof fn lemma_edge_pairs(srcs: Seq<i64>, dsts: Seq<i64>)
    ensures
        forall|e: Dependency| #[trigger] edge_pairs(srcs, dsts).contains(e) <==> (srcs.contains(e.task_id) && dsts.contains(e.depends_on)),
        srcs.no_duplicates() && dsts.no_duplicates() ==> edge_pairs(srcs, dsts).no_duplicates(),
    decreases srcs.len(),
{
    if srcs.len() > 0 {
        let d = srcs.drop_last();
        let l = srcs.last();
        lemma_edge_pairs(d, dsts);
        let m = dsts.map_values(|x: i64| Dependency { task_id: l, depends_on: x });
        let ep = edge_pairs(srcs, dsts);
        assert(ep =~= edge_pairs(d, dsts) + m);
        assert(srcs =~= d.push(l));
        assert forall|e: Dependency| #[trigger] ep.contains(e) <==> (srcs.contains(e.task_id) && dsts.contains(e.depends_on)) by {
            lemma_push_contains(d, l, e.task_id);
            if ep.contains(e) {
                let k = choose|k: int| 0 <= k < ep.len() && ep[k] == e;
                if k >= edge_pairs(d, dsts).len() {
                    let j = k - edge_pairs(d, dsts).len();
                    assert(m[j] == e);
                    assert(dsts[j] == e.depends_on);
                } else {
                    assert(edge_pairs(d, dsts)[k] == e);
                    assert(edge_pairs(d, dsts).contains(e));
                }
            }
            if srcs.contains(e.task_id) && dsts.contains(e.depends_on) {
                if e.task_id == l {
                    let j = choose|j: int| 0 <= j < dsts.len() && dsts[j] == e.depends_on;
                    assert(m[j] == e);
                    assert(ep[edge_pairs(d, dsts).len() + j] == e);
                } else {
                    assert(d.contains(e.task_id));
                    assert(edge_pairs(d, dsts).contains(e));
                    let k = choose|k: int| 0 <= k < edge_pairs(d, dsts).len() && edge_pairs(d, dsts)[k] == e;
                    assert(ep[k] == e);
                }
            }
        }
        if srcs.no_duplicates() && dsts.no_duplicates() {
            assert(d.no_duplicates()) by {
                assert forall|a: int, b: int| 0 <= a < d.len() && 0 <= b < d.len() && a != b implies d[a] != d[b] by {
                    assert(srcs[a] == d[a] && srcs[b] == d[b]);
                }
            }
            assert(!d.contains(l)) by {
                if d.contains(l) {
                    let j = choose|j: int| 0 <= j < d.len() && d[j] == l;
                    assert(srcs[j] == srcs[srcs.len() - 1]);
                }
            }
            let n = edge_pairs(d, dsts).len();
            assert forall|a: int, b: int| 0 <= a < ep.len() && 0 <= b < ep.len() && a != b implies ep[a] != ep[b] by {
                if a < n && b < n {
                    assert(ep[a] == edge_pairs(d, dsts)[a] && ep[b] == edge_pairs(d, dsts)[b]);
                } else if a >= n && b >= n {
                    assert(ep[a] == m[a - n] && ep[b] == m[b - n]);
                    assert(dsts[a - n] != dsts[b - n]);
                } else if a < n {
                    assert(edge_pairs(d, dsts).contains(ep[a]));
                    assert(ep[b] == m[b - n]);
                } else {
                    assert(edge_pairs(d, dsts).contains(ep[b]));
                    assert(ep[a] == m[a - n]);
                }
            }
        }
    } else {
        assert(edge_pairs(srcs, dsts) =~= Seq::<Dependency>::empty());
    }
}


proof fn lemma_concat_nodup<A>(a: Seq<A>, b: Seq<A>)
    requires
        a.no_duplicates(),
        b.no_duplicates(),
        forall|x: A| a.contains(x) ==> !b.contains(x),
    ensures
        (a + b).no_duplicates(),
        forall|x: A| #[trigger] (a + b).contains(x) <==> (a.contains(x) || b.contains(x)),
{
    let c = a + b;
    assert forall|i: int, j: int| 0 <= i < c.len() && 0 <= j < c.len() && i != j implies c[i] != c[j] by {
        if i < a.len() && j < a.len() {
            assert(c[i] == a[i] && c[j] == a[j]);
        } else if i >= a.len() && j >= a.len() {
            assert(c[i] == b[i - a.len()] && c[j] == b[j - a.len()]);
        } else if i < a.len() {
            assert(a.contains(a[i]));
            assert(c[j] == b[j - a.len()]);
            assert(b.contains(b[j - a.len()]));
        } else {
            assert(a.contains(a[j]));
            assert(c[i] == b[i - a.len()]);
            assert(b.contains(b[i - a.len()]));
        }
    }
    assert forall|x: A| #[trigger] c.contains(x) <==> (a.contains(x) || b.contains(x)) by {
        if c.contains(x) {
            let k = choose|k: int| 0 <= k < c.len() && c[k] == x;
            if k < a.len() {
                assert(a[k] == x);
            } else {
                assert(b[k - a.len()] == x);
            }
        }
        if a.contains(x) {
            let k = choose|k: int| 0 <= k < a.len() && a[k] == x;
            assert(c[k] == x);
        }
        if b.contains(x) {
            let k = choose|k: int| 0 <= k < b.len() && b[k] == x;
            assert(c[a.len() + k] == x);
        }
    }
}

/// The ids of the tasks that creating `n` tasks from id `next0` gives.
pub open spec fn id_range(next0: i64, n: int) -> Seq<i64> {
    Seq::new(n as nat, |i: int| (next0 + i) as i64)
}

impl Store {
    /// The prerequisites and the dependents of `x`, in edge order.
    fn neighbours(&self, x: i64) -> (r: (Vec<i64>, Vec<i64>))
        ensures
            r.0@ == prereq_ids(self.edges(), x),
            r.1@ == dependent_ids(self.edges(), x),
    {
        let mut pre: Vec<i64> = Vec::new();
        let mut dep: Vec<i64> = Vec::new();
        let mut k: usize = 0;
        while k < self.deps.len()
            invariant
                k <= self.deps@.len(),
                pre@ == prereq_ids(self.deps@.take(k as int), x),
                dep@ == dependent_ids(self.deps@.take(k as int), x),
            decreases self.deps@.len() - k,
        {
            proof {
                assert(self.deps@.take(k + 1).drop_last() =~= self.deps@.take(k as int));
            }
            if self.deps[k].task_id == x {
                pre.push(self.deps[k].depends_on);
            }
            if self.deps[k].depends_on == x {
                dep.push(self.deps[k].task_id);
            }
            proof {
                assert(pre@ =~= prereq_ids(self.deps@.take(k + 1), x));
                assert(dep@ =~= dependent_ids(self.deps@.take(k + 1), x));
            }
            k = k + 1;
        }
        proof {
            assert(self.deps@.take(self.deps@.len() as int) =~= self.deps@);
        }
        (pre, dep)
    }

    /// The edges after splitting `x` into the tasks with ids `new_ids`.
    fn build_split_edges(&self, x: i64, pre: &Vec<i64>, dep: &Vec<i64>, new_ids: &Vec<i64>) -> (r: Vec<Dependency>)
        requires
            pre@ == prereq_ids(self.edges(), x),
            dep@ == dependent_ids(self.edges(), x),
        ensures
            r@ == split_edges(self.edges(), x, new_ids@),
    {
        let mut es: Vec<Dependency> = Vec::new();
        let mut k: usize = 0;
        while k < self.deps.len()
            invariant
                k <= self.deps@.len(),
                es@ == edges_not_into(self.deps@.take(k as int), x),
            decreases self.deps@.len() - k,
        {
            proof {
                assert(self.deps@.take(k + 1).drop_last() =~= self.deps@.take(k as int));
            }
            if self.deps[k].depends_on != x {
                es.push(self.deps[k]);
            }
            proof {
                assert(es@ =~= edges_not_into(self.deps@.take(k + 1), x));
            }
            k = k + 1;
        }
        proof {
            assert(self.deps@.take(self.deps@.len() as int) =~= self.deps@);
        }
        let ghost base = es@;
        let mut i: usize = 0;
        while i < new_ids.len()
            invariant
                i <= new_ids@.len(),
                es@ == base + edge_pairs(new_ids@.take(i as int), pre@),
            decreases new_ids@.len() - i,
        {
            let ghost before = es@;
            let mut j: usize = 0;
            while j < pre.len()
                invariant
                    i < new_ids@.len(),
                    j <= pre@.len(),
                    es@ == before + pre@.take(j as int).map_values(|d: i64| Dependency { task_id: new_ids@[i as int], depends_on: d }),
                decreases pre@.len() - j,
            {
                es.push(Dependency { task_id: new_ids[i], depends_on: pre[j] });
                proof {
                    assert(es@ =~= before + pre@.take(j + 1).map_values(|d: i64| Dependency { task_id: new_ids@[i as int], depends_on: d }));
                }
                j = j + 1;
            }
            proof {
                assert(new_ids@.take(i + 1).drop_last() =~= new_ids@.take(i as int));
                assert(pre@.take(pre@.len() as int) =~= pre@);
                assert(es@ =~= base + edge_pairs(new_ids@.take(i + 1), pre@));
            }
            i = i + 1;
        }
        proof {
            assert(new_ids@.take(new_ids@.len() as int) =~= new_ids@);
        }
        let ghost base2 = es@;
        let mut i: usize = 0;
        while i < dep.len()
            invariant
                i <= dep@.len(),
                es@ == base2 + edge_pairs(dep@.take(i as int), new_ids@),
            decreases dep@.len() - i,
        {
            let ghost before = es@;
            let mut j: usize = 0;
            while j < new_ids.len()
                invariant
                    i < dep@.len(),
                    j <= new_ids@.len(),
                    es@ == before + new_ids@.take(j as int).map_values(|s: i64| Dependency { task_id: dep@[i as int], depends_on: s }),
                decreases new_ids@.len() - j,
            {
                es.push(Dependency { task_id: dep[i], depends_on: new_ids[j] });
                proof {
                    assert(es@ =~= before + new_ids@.take(j + 1).map_values(|s: i64| Dependency { task_id: dep@[i as int], depends_on: s }));
                }
                j = j + 1;
            }
            proof {
                assert(dep@.take(i + 1).drop_last() =~= dep@.take(i as int));
                assert(new_ids@.take(new_ids@.len() as int) =~= new_ids@);
                assert(es@ =~= base2 + edge_pairs(dep@.take(i + 1), new_ids@));
            }
            i = i + 1;
        }
        proof {
            assert(dep@.take(dep@.len() as int) =~= dep@);
        }
        es
    }
}


/// The edges after a split keep the store's invariants.
proof fn lemma_split_wf(rows: Seq<Task>, g0: Seq<Dependency>, x: i64, next0: i64, new_ids: Seq<i64>, files: Seq<Artifact>, next_id: i64, next_artifact: i64)
    requires
        store_wf(rows, g0, files, next_id, next_artifact),
        new_ids.no_duplicates(),
        forall|i: int| 0 <= i < new_ids.len() ==> next0 <= #[trigger] new_ids[i] && task_ids(rows).contains(new_ids[i]),
        forall|k: int| 0 <= k < g0.len() ==> (#[trigger] g0[k]).task_id < next0 && g0[k].depends_on < next0,
    ensures
        store_wf(rows, split_edges(g0, x, new_ids), files, next_id, next_artifact),
{
    let pre = prereq_ids(g0, x);
    let dep = dependent_ids(g0, x);
    let a = edges_not_into(g0, x);
    let b = edge_pairs(new_ids, pre);
    let c = edge_pairs(dep, new_ids);
    lemma_split_lists(g0, x);
    lemma_edge_pairs(new_ids, pre);
    lemma_edge_pairs(dep, new_ids);
    assert forall|p: i64| #[trigger] pre.contains(p) implies p < next0 && task_ids(rows).contains(p) && p != x by {
        let k = choose|k: int| 0 <= k < g0.len() && g0[k] == Dependency { task_id: x, depends_on: p };
        assert(g0[k].depends_on == p);
    }
    assert forall|d: i64| #[trigger] dep.contains(d) implies d < next0 && task_ids(rows).contains(d) by {
        let k = choose|k: int| 0 <= k < g0.len() && g0[k] == Dependency { task_id: d, depends_on: x };
        assert(g0[k].task_id == d);
    }
    assert forall|e: Dependency| a.contains(e) implies !b.contains(e) by {
        let k = choose|k: int| 0 <= k < g0.len() && g0[k] == e;
        assert(g0[k].task_id < next0);
        if b.contains(e) {
            let i = choose|i: int| 0 <= i < new_ids.len() && new_ids[i] == e.task_id;
        }
    }
    lemma_concat_nodup(a, b);
    assert forall|e: Dependency| (a + b).contains(e) implies !c.contains(e) by {
        if c.contains(e) {
            let i = choose|i: int| 0 <= i < new_ids.len() && new_ids[i] == e.depends_on;
            if a.contains(e) {
                let k = choose|k: int| 0 <= k < g0.len() && g0[k] == e;
                assert(g0[k].depends_on < next0);
            } else {
                assert(dep.contains(e.task_id));
                let i2 = choose|i2: int| 0 <= i2 < new_ids.len() && new_ids[i2] == e.task_id;
            }
        }
    }
    lemma_concat_nodup(a + b, c);
    let es = a + b + c;
    assert(es == split_edges(g0, x, new_ids));
    assert forall|k: int| 0 <= k < es.len() implies task_ids(rows).contains((#[trigger] es[k]).task_id)
        && task_ids(rows).contains(es[k].depends_on) && es[k].task_id != es[k].depends_on by {
        let e = es[k];
        assert(es.contains(e));
        if a.contains(e) {
            let q = choose|q: int| 0 <= q < g0.len() && g0[q] == e;
            assert(g0[q] == e);
        } else if b.contains(e) {
            let i = choose|i: int| 0 <= i < new_ids.len() && new_ids[i] == e.task_id;
            assert(pre.contains(e.depends_on));
        } else {
            let i = choose|i: int| 0 <= i < new_ids.len() && new_ids[i] == e.depends_on;
            assert(dep.contains(e.task_id));
        }
    }
    let f = |v: i64| if v >= next0 { x } else { v };
    assert forall|k: int| 0 <= k < es.len() implies has_edge(g0, f((#[trigger] es[k]).task_id), f(es[k].depends_on)) by {
        let e = es[k];
        assert(es.contains(e));
        if a.contains(e) {
            let q = choose|q: int| 0 <= q < g0.len() && g0[q] == e;
            assert(g0[q].task_id < next0 && g0[q].depends_on < next0);
            assert(g0[q].task_id == f(e.task_id) && g0[q].depends_on == f(e.depends_on));
        } else if b.contains(e) {
            let i = choose|i: int| 0 <= i < new_ids.len() && new_ids[i] == e.task_id;
            assert(pre.contains(e.depends_on));
            let q = choose|q: int| 0 <= q < g0.len() && g0[q] == Dependency { task_id: x, depends_on: e.depends_on };
            assert(g0[q].task_id == f(e.task_id) && g0[q].depends_on == f(e.depends_on));
        } else {
            let i = choose|i: int| 0 <= i < new_ids.len() && new_ids[i] == e.depends_on;
            assert(dep.contains(e.task_id));
            let q = choose|q: int| 0 <= q < g0.len() && g0[q] == Dependency { task_id: e.task_id, depends_on: x };
            assert(g0[q].task_id == f(e.task_id) && g0[q].depends_on == f(e.depends_on));
        }
    }
    lemma_acyclic_map(g0, es, f);
}

impl Store {
    /// Splits the live task `task_id` into new pending tasks, one per
    /// (title, description, definition of done), at its manual order: each
    /// new task depends on every prerequisite of the original, every task
    /// that depended on the original depends on every new task instead, and
    /// the original is archived. When ids run out part way, the tasks made
    /// so far stay and nothing else changes.
    pub fn split_task(&mut self, task_id: i64, subtasks: Vec<(String, String, String)>, now: &String) -> (r: Result<Vec<Task>, Error>)
        requires
            old(self).wf(),
        ensures
            final(self).wf(),
            split_outcome(*old(self), *final(self), task_id, subtasks@, *now, r),
            r is Ok ==> r->Ok_0@.len() == subtasks@.len() && forall|i: int|
                0 <= i < subtasks@.len() ==> (#[trigger] r->Ok_0@[i]).title@ == subtasks@[i].0@ && (
                r->Ok_0@[i].description matches Some(d) && d@ == subtasks@[i].1@) && (r->Ok_0@[i].dod matches Some(
                x) && x@ == subtasks@[i].2@),
    {
        let orig = match self.get_task(task_id, false) {
            Some(t) => t,
            None => {
                return Err(Error::TaskNotFound(task_id));
            },
        };
        let (pre, dep) = self.neighbours(task_id);
        let ghost s0 = *self;
        let ghost rows0 = self.rows();
        let ghost next0 = self.next_id;
        let mut new_tasks: Vec<Task> = Vec::new();
        let mut new_ids: Vec<i64> = Vec::new();
        let mut i: usize = 0;
        while i < subtasks.len()
            invariant
                self.wf(),
                s0 == *old(self),
                rows0 == s0.rows(),
                live_row(rows0, task_id) == Some(orig),
                next0 == s0.next_task_id(),
                self.edges() == s0.edges(),
                self.files() == s0.files(),
                self.focus() == s0.focus(),
                self.next_artifact_id() == s0.next_artifact_id(),
                i <= subtasks@.len(),
                new_tasks@.len() == i,
                new_ids@ == task_ids(new_tasks@),
                self.rows() == rows0 + new_tasks@,
                self.next_task_id() == next0 + i,
                forall|q: int| 0 <= q < i ==> is_new_row(#[trigger] new_tasks@[q], (next0 + q) as i64, subtasks@[q].0@, subtasks@[q].1@, subtasks@[q].2@, orig.manual_order, *now),
            decreases subtasks@.len() - i,
        {
            match self.insert_row(subtasks[i].0.as_str(), subtasks[i].1.as_str(), subtasks[i].2.as_str(), orig.manual_order, now) {
                Ok(t) => {
                    proof {
                        assert(task_ids(new_tasks@.push(t)) =~= task_ids(new_tasks@).push(t.id));
                        assert(self.rows() =~= rows0 + new_tasks@.push(t));
                    }
                    new_ids.push(t.id);
                    new_tasks.push(t);
                    proof {
                        assert forall|q: int| 0 <= q < i + 1 implies is_new_row(#[trigger] new_tasks@[q], (next0 + q) as i64, subtasks@[q].0@, subtasks@[q].1@, subtasks@[q].2@, orig.manual_order, *now) by {}
                    }
                },
                Err(e) => {
                    proof {
                        assert(self.rows().take(rows0.len() as int) =~= rows0);
                        assert forall|q: int| 0 <= q < i implies is_new_row(#[trigger] self.rows()[rows0.len() + q], (next0 + q) as i64, subtasks@[q].0@, subtasks@[q].1@, subtasks@[q].2@, orig.manual_order, *now) by {
                            assert(self.rows()[rows0.len() + q] == new_tasks@[q]);
                        }
                    }
                    return Err(e);
                },
            }
            i = i + 1;
        }
        proof {
            assert(new_ids@ =~= id_range(next0, subtasks@.len() as int)) by {
                assert forall|q: int| 0 <= q < new_ids@.len() implies new_ids@[q] == id_range(next0, subtasks@.len() as int)[q] by {
                    assert(new_tasks@[q].id == next0 + q);
                }
            }
        }
        let es = self.build_split_edges(task_id, &pre, &dep, &new_ids);
        proof {
            assert forall|k: int| 0 <= k < s0.edges().len() implies (#[trigger] s0.edges()[k]).task_id < next0 && s0.edges()[k].depends_on < next0 by {
                let a = s0.edges()[k].task_id;
                let b = s0.edges()[k].depends_on;
                assert(task_ids(rows0).contains(a));
                assert(task_ids(rows0).contains(b));
                let ia = choose|ia: int| 0 <= ia < task_ids(rows0).len() && task_ids(rows0)[ia] == a;
                let ib = choose|ib: int| 0 <= ib < task_ids(rows0).len() && task_ids(rows0)[ib] == b;
                assert(rows0[ia].id < next0 && rows0[ib].id < next0);
            }
            assert forall|q: int| 0 <= q < new_ids@.len() implies next0 <= #[trigger] new_ids@[q] && task_ids(self.rows()).contains(new_ids@[q]) by {
                assert(self.rows()[rows0.len() + q] == new_tasks@[q]);
                lemma_task_ids_index(self.rows(), rows0.len() + q);
            }
            assert(new_ids@.no_duplicates());
            lemma_split_wf(self.rows(), s0.edges(), task_id, next0, new_ids@, self.files(), self.next_id, self.next_artifact);
        }
        self.deps = es;
        proof {
            lemma_task_by_id(rows0, task_id);
            let q = choose|q: int| 0 <= q < rows0.len() && rows0[q] == orig;
            assert(self.tasks@[q] == orig);
            lemma_task_ids_index(self.tasks@, q);
        }
        let j = match self.row_index(task_id) {
            Some(j) => j,
            None => {
                return Err(Error::TaskNotFound(task_id));
            },
        };
        proof {
            lemma_task_by_id(rows0, task_id);
            let q = choose|q: int| 0 <= q < rows0.len() && rows0[q] == orig;
            assert(self.tasks@[q] == orig);
            if q != j {
                if q < j {
                    assert(self.tasks@[q].id < self.tasks@[j as int].id);
                } else {
                    assert(self.tasks@[j as int].id < self.tasks@[q].id);
                }
            }
        }
        let t = Task { deleted: true, last_touched_at: now.clone(), ..orig };
        self.replace_row(j, t);
        Ok(new_tasks)
    }
}


impl Store {
    /// The task rows, archived ones included, in id order.
    pub fn task_rows(&self) -> (r: &Vec<Task>)
        ensures
            r@ == self.rows(),
    {
        &self.tasks
    }

    /// The dependency edges, in the order they were added.
    pub fn edge_rows(&self) -> (r: &Vec<Dependency>)
        ensures
            r@ == self.edges(),
    {
        &self.deps
    }

    /// The artifacts, in id order.
    pub fn artifact_rows(&self) -> (r: &Vec<Artifact>)
        ensures
            r@ == self.files(),
    {
        &self.artifacts
    }

    /// The ids the next task and the next artifact will get.
    pub fn next_ids(&self) -> (r: (i64, i64))
        ensures
            r == (self.next_task_id(), self.next_artifact_id()),
    {
        (self.next_id, self.next_artifact)
    }
}


impl Store {
    /// The live pending task lowest in manual order (ties by id).
    pub fn lowest_pending(&self) -> (r: Option<Task>)
        requires
            self.wf(),
        ensures
            match r {
                Some(t) => self.rows().contains(t) && !t.deleted && t.status == TaskStatus::Pending && forall|c: Task|
                    #[trigger] self.rows().contains(c) && !c.deleted && c.status == TaskStatus::Pending ==> c == t || order_lt(t, c),
                None => forall|c: Task| #[trigger] self.rows().contains(c) ==> c.deleted || c.status != TaskStatus::Pending,
            },
    {
        let mut best: Option<Task> = None;
        let mut i: usize = 0;
        while i < self.tasks.len()
            invariant
                self.wf(),
                i <= self.tasks@.len(),
                match best {
                    Some(b) => self.tasks@.contains(b) && !b.deleted && b.status == TaskStatus::Pending && forall|j: int|
                        0 <= j < i && !(#[trigger] self.tasks@[j]).deleted && self.tasks@[j].status == TaskStatus::Pending
                            ==> self.tasks@[j] == b || order_lt(b, self.tasks@[j]),
                    None => forall|j: int| 0 <= j < i ==> (#[trigger] self.tasks@[j]).deleted || self.tasks@[j].status != TaskStatus::Pending,
                },
            decreases self.tasks@.len() - i,
        {
            let t = &self.tasks[i];
            proof {
                assert(self.tasks@.contains(self.tasks@[i as int]));
            }
            if !t.deleted && t.status == TaskStatus::Pending {
                let better = match &best {
                    Some(b) => order_lt_exec(t, b),
                    None => true,
                };
                if better {
                    best = Some(t.clone());
                    proof {
                        let b = best->0;
                        assert forall|j: int|
                            0 <= j < i + 1 && !(#[trigger] self.tasks@[j]).deleted && self.tasks@[j].status == TaskStatus::Pending
                                implies self.tasks@[j] == b || order_lt(b, self.tasks@[j]) by {
                            if j < i && self.tasks@[j].id == b.id {
                                assert(self.tasks@[j].id < self.tasks@[i as int].id);
                            }
                        }
                    }
                } else {
                    proof {
                        let b = best->0;
                        let bj = choose|q: int| 0 <= q < self.tasks@.len() && self.tasks@[q] == b;
                        if self.tasks@[i as int] != b && bj != i {
                            if bj < i {
                                assert(self.tasks@[bj].id < self.tasks@[i as int].id);
                            } else {
                                assert(self.tasks@[i as int].id < self.tasks@[bj].id);
                            }
                        }
                    }
                }
            }
            i = i + 1;
        }
        proof {
            assert forall|c: Task| #[trigger] self.tasks@.contains(c) && !c.deleted && c.status == TaskStatus::Pending implies (match best {
                Some(b) => c == b || order_lt(b, c),
                None => false,
            }) by {
                let j = choose|j: int| 0 <= j < self.tasks@.len() && self.tasks@[j] == c;
                assert(!self.tasks@[j].deleted);
            }
        }
        best
    }

    /// The live task with the highest id.
    pub fn last_task(&self) -> (r: Option<Task>)
        requires
            self.wf(),
        ensures
            match r {
                Some(t) => self.rows().contains(t) && !t.deleted && forall|c: Task|
                    #[trigger] self.rows().contains(c) && !c.deleted ==> c.id <= t.id,
                None => forall|c: Task| #[trigger] self.rows().contains(c) ==> c.deleted,
            },
    {
        let mut i = self.tasks.len();
        while i > 0
            invariant
                self.wf(),
                i <= self.tasks@.len(),
                forall|j: int| i <= j < self.tasks@.len() ==> (#[trigger] self.tasks@[j]).deleted,
            decreases i,
        {
            if !self.tasks[i - 1].deleted {
                let t = self.tasks[i - 1].clone();
                proof {
                    assert(self.tasks@[i - 1] == t);
                    assert forall|c: Task| #[trigger] self.tasks@.contains(c) && !c.deleted implies c.id <= t.id by {
                        let j = choose|j: int| 0 <= j < self.tasks@.len() && self.tasks@[j] == c;
                        if j > i - 1 {
                            assert(self.tasks@[j].deleted);
                        } else if j < i - 1 {
                            assert(self.tasks@[j].id < self.tasks@[i - 1].id);
                        }
                    }
                }
                return Some(t);
            }
            i = i - 1;
        }
        proof {
            assert forall|c: Task| #[trigger] self.tasks@.contains(c) implies c.deleted by {
                let j = choose|j: int| 0 <= j < self.tasks@.len() && self.tasks@[j] == c;
                assert(self.tasks@[j].deleted);
            }
        }
        None
    }
}


/// The outcome of `add_dependency`.
pub open spec fn add_dependency_outcome(s: Store, s2: Store, task_id: i64, depends_on: i64, r: Result<(), Error>) -> bool {
    &&& same_but_edges(s, s2)
    &&& ({
            let rows = s.rows();
            let edges = s.edges();
            let d = Dependency { task_id: task_id, depends_on: depends_on };
            if live_row(rows, task_id) is None {
                (r matches Err(Error::TaskNotFound(x)) && x == task_id) && s2.edges() == edges
            } else if live_row(rows, depends_on) is None {
                (r matches Err(Error::TaskNotFound(x)) && x == depends_on) && s2.edges() == edges
            } else if reachable(edges, depends_on, task_id) {
                (r matches Err(e) && cycle_refusal(edges, task_id, depends_on, e)) && s2.edges() == edges
            } else if edges.contains(d) {
                (r matches Err(Error::Db(m)) && m@ == duplicate_edge_message()) && s2.edges() == edges
            } else {
                r is Ok && s2.edges() == edges.push(d)
            }
    })
}

/// The outcome of `remove_dependency`.
pub open spec fn remove_dependency_outcome(s: Store, s2: Store, task_id: i64, depends_on: i64, r: Result<(), Error>) -> bool {
    &&& same_but_edges(s, s2)
    &&& ({
            let d = Dependency { task_id: task_id, depends_on: depends_on };
            if s.edges().contains(d) {
                r is Ok && s2.edges() == without_edge(s.edges(), d)
            } else {
                (r matches Err(Error::NotSupported(m)) && m@ == "Dependency does not exist"@)
                    && s2.edges() == s.edges()
            }
    })
}

/// The outcome of `remove_dependencies`.
pub open spec fn remove_dependencies_outcome(s: Store, s2: Store, task_id: i64, ids: Seq<i64>, r: Result<(), Error>) -> bool {
    &&& same_but_edges(s, s2)
    &&& s2.edges() == remove_edges(s.edges(), task_id, ids).0
    &&& remove_edges(s.edges(), task_id, ids).1 is None ==> r is Ok
    &&& remove_edges(s.edges(), task_id, ids).1 is Some ==> (r matches Err(Error::NotSupported(m))
            && m@ == "Dependency does not exist"@)
}

/// The outcome of `add_dependencies`.
pub open spec fn add_dependencies_outcome(s: Store, s2: Store, task_id: i64, ids: Seq<i64>, r: Result<(), Error>) -> bool {
    &&& same_but_edges(s, s2)
    &&& add_deps_outcome(s.rows(), s.edges(), task_id, ids, r, s2.edges())
}

/// The outcome of `set_target`.
pub open spec fn set_target_outcome(s: Store, s2: Store, id: i64, r: Result<(), Error>) -> bool {
    &&& s2.rows() == s.rows()
    &&& s2.edges() == s.edges()
    &&& s2.files() == s.files()
    &&& s2.next_task_id() == s.next_task_id()
    &&& s2.next_artifact_id() == s.next_artifact_id()
    &&& live_row(s.rows(), id) is None ==> (r matches Err(Error::TaskNotFound(x)) && x == id)
            && s2.focus() == s.focus()
    &&& live_row(s.rows(), id) is Some ==> r is Ok && s2.focus() == Some(id)
}

/// The outcome of `set_task_order`.
pub open spec fn set_task_order_outcome(s: Store, s2: Store, id: i64, order: u64, now: String, r: Result<(), Error>) -> bool {
    &&& same_but_rows(s, s2)
    &&& match task_by_id(s.rows(), id) {
            Some(t) => r is Ok && s2.rows() == with_row(
                s.rows(),
                Task { manual_order: order, last_touched_at: now, ..t },
            ),
            None => (r matches Err(Error::TaskNotFound(x)) && x == id) && s2.rows() == s.rows()
    }
}

/// The outcome of `archive_completed`.
pub open spec fn archive_outcome(s: Store, s2: Store, now: String, r: usize) -> bool {
    &&& same_but_rows(s, s2)
    &&& s2.rows() == s.rows().map_values(|t: Task| archived_row(t, now))
    &&& r == finished_count(s.rows())
}

/// The outcome of `log_artifact`.
pub open spec fn log_artifact_outcome(s: Store, s2: Store, name: Seq<char>, file_path: Seq<char>, task_id: Option<i64>, now: String, r: Result<Artifact, Error>) -> bool {
    &&& s2.rows() == s.rows()
    &&& s2.edges() == s.edges()
    &&& s2.focus() == s.focus()
    &&& s2.next_task_id() == s.next_task_id()
    &&& ({
            let id = match task_id {
                Some(id) => Some(id),
                None => match active_task(s.rows()) {
                    Some(t) => Some(t.id),
                    None => None,
                },
            };
            match id {
                None => r matches Err(Error::NoActiveTask) && s2 == s,
                Some(id) => if s.next_artifact_id() == i64::MAX {
                    (r matches Err(Error::Db(m)) && m@ == full_message()) && s2 == s
                } else if !task_ids(s.rows()).contains(id) {
                    (r matches Err(Error::Db(m)) && m@ == "FOREIGN KEY constraint failed"@) && s2 == s
                } else {
                    &&& r matches Ok(a)
                    &&& is_new_artifact(r->Ok_0, s.next_artifact_id(), id, name, file_path, now)
                    &&& s2.files() == s.files().push(r->Ok_0)
                    &&& s2.next_artifact_id() == s.next_artifact_id() + 1
                },
            }
    })
}

/// The outcome of `advance_task`.
pub open spec fn advance_task_outcome(s: Store, s2: Store, dry_run: bool, now: String, r: Result<AdvanceResult, Error>) -> bool {
    &&& same_but_rows(s, s2)
    &&& advance_outcome(s.rows(), s.edges(), dry_run, now, r, s2.rows())
}

/// The outcome of `block_tasks`.
pub open spec fn block_tasks_outcome(s: Store, s2: Store, ids: Seq<i64>, now: String, r: Vec<Result<Task, Error>>) -> bool {
    &&& same_but_rows(s, s2)
    &&& r@.len() == ids.len()
    &&& exists|states: Seq<Seq<Task>>| {
            &&& states.len() == ids.len() + 1
            &&& states[0] == s.rows()
            &&& states.last() == s2.rows()
            &&& forall|i: int| 0 <= i < ids.len() ==> #[trigger] block_step(states[i], ids[i], now, r@[i], states[i + 1])
    }
}

/// The outcome of `unblock_tasks`.
pub open spec fn unblock_tasks_outcome(s: Store, s2: Store, ids: Seq<i64>, now: String, r: Vec<Result<Task, Error>>) -> bool {
    &&& same_but_rows(s, s2)
    &&& r@.len() == ids.len()
    &&& exists|states: Seq<Seq<Task>>| {
            &&& states.len() == ids.len() + 1
            &&& states[0] == s.rows()
            &&& states.last() == s2.rows()
            &&& forall|i: int| 0 <= i < ids.len() ==> #[trigger] unblock_step(states[i], ids[i], now, r@[i], states[i + 1])
    }
}


/// The outcome of `create_task`.
pub open spec fn create_outcome(s: Store, s2: Store, title: Seq<char>, description: Seq<char>, dod: Seq<char>, order: u64, depends_on: Option<Seq<i64>>, now: String, r: Result<Task, Error>) -> bool {
    &&& s2.files() == s.files()
    &&& s2.focus() == s.focus()
    &&& s2.next_artifact_id() == s.next_artifact_id()
    &&& s.next_task_id() == i64::MAX ==> (r matches Err(Error::Db(m)) && m@ == full_message())
            && s2 == s
    &&& s.next_task_id() < i64::MAX ==> ({
            let t = s2.rows().last();
            &&& is_new_row(t, s.next_task_id(), title, description, dod, order, now)
            &&& s2.rows() == s.rows().push(t)
            &&& s2.next_task_id() == s.next_task_id() + 1
            &&& match depends_on {
                Some(ids) if ids.len() > 0 => {
                    &&& add_deps_outcome(s2.rows(), s.edges(), t.id, ids, discard_ok(r), s2.edges())
                    &&& r is Ok ==> r == Ok::<Task, Error>(t)
                },
                _ => r == Ok::<Task, Error>(t) && s2.edges() == s.edges(),
            }
    })
}


/// The outcome of `edit_task`.
pub open spec fn edit_outcome(s: Store, s2: Store, id: i64, title: Option<Seq<char>>, description: Option<Seq<char>>, dod: Option<Seq<char>>, status: Option<TaskStatus>, action: Option<EditAction>, now: String, r: Result<Task, Error>) -> bool {
    &&& same_but_rows(s, s2)
    &&& exists|m1: Seq<Task>, r1: Result<(), Error>| {
            &&& #[trigger] edit_action_outcome(s.rows(), id, action, now, r1, m1)
            &&& r1 is Err ==> discard_ok(r) == r1 && s2.rows() == m1
            &&& r1 is Ok ==> exists|m2: Seq<Task>, r2: Result<(), Error>| {
                &&& #[trigger] edit_status_outcome(m1, s.edges(), id, status, now, r2, m2)
                &&& r2 is Err ==> discard_ok(r) == r2 && s2.rows() == m2
                &&& r2 is Ok ==> exists|r3: Result<(), Error>| {
                    &&& #[trigger] edit_fields_outcome(m2, id, title, description, dod, now, r3, s2.rows())
                    &&& r3 is Err ==> discard_ok(r) == r3
                    &&& r3 is Ok ==> match live_row(s2.rows(), id) {
                        Some(t) => r == Ok::<Task, Error>(t),
                        None => r matches Err(Error::TaskNotFound(x)) && x == id,
                    }
                }
            }
    }
}


/// The outcome of `split_task`.
pub open spec fn split_outcome(s: Store, s2: Store, task_id: i64, subtasks: Seq<(String, String, String)>, now: String, r: Result<Vec<Task>, Error>) -> bool {
    &&& s2.files() == s.files()
    &&& s2.focus() == s.focus()
    &&& s2.next_artifact_id() == s.next_artifact_id()
    &&& match live_row(s.rows(), task_id) {
            None => (r matches Err(Error::TaskNotFound(x)) && x == task_id) && s2 == s,
            Some(orig) => {
                let n = subtasks.len() as int;
                let next0 = s.next_task_id();
                if next0 + n <= i64::MAX {
                    &&& r matches Ok(v)
                    &&& r->Ok_0@.len() == n
                    &&& forall|i: int| 0 <= i < n ==> is_new_row(#[trigger] r->Ok_0@[i], (next0 + i) as i64, subtasks[i].0@, subtasks[i].1@, subtasks[i].2@, orig.manual_order, now)
                    &&& s2.rows() == with_row(s.rows() + r->Ok_0@, archived(orig, now))
                    &&& s2.edges() == split_edges(s.edges(), task_id, id_range(next0, n))
                    &&& s2.next_task_id() == next0 + n
                } else {
                    let k = i64::MAX - next0;
                    &&& r matches Err(Error::Db(m)) && m@ == full_message()
                    &&& s2.edges() == s.edges()
                    &&& s2.next_task_id() == i64::MAX
                    &&& s2.rows().len() == s.rows().len() + k
                    &&& s2.rows().take(s.rows().len() as int) == s.rows()
                    &&& forall|i: int| 0 <= i < k ==> is_new_row(#[trigger] s2.rows()[s.rows().len() + i], (next0 + i) as i64, subtasks[i].0@, subtasks[i].1@, subtasks[i].2@, orig.manual_order, now)
                }
            }
    }
}

} // verus!
