//! The MCP tools: one handler per tool, each turning its input into a change
//! of the store and a response.
//!
//! Inputs arrive already parsed; a handler answers `Err` with a message only
//! where a required field is missing, and otherwise a response, which is an
//! error response when the tracker refuses the request.
use vstd::prelude::*;
use crate::cli::{parse_edit_status, parse_status, status_of_word};
use crate::error::Error;
use crate::models::{action_from_name, Artifact, Dependency, EditAction, Task, TaskStatus};
use crate::store::{
    active_task, add_dependencies_outcome, add_dependency_outcome, advance_task_outcome,
    archive_outcome, artifacts_of, block_outcome, block_tasks_outcome, create_outcome,
    edit_outcome, is_detail, listing, live_row, log_artifact_outcome, order_lt, page,
    remove_dependencies_outcome, remove_dependency_outcome, rows_for, same_but_rows,
    same_but_edges, set_target_outcome, set_task_order_outcome, split_outcome, unblock_outcome, without_edge,
    unblock_tasks_outcome, opt_view, Store,
};
use crate::graph::task_by_id;
use crate::text::{lowercase, str_equals, to_lowercase};
use crate::store::AdvanceResult;
use crate::transport::{refuses, reports, McpResponse, Payload};

verus! {

/// The response that answers a task result: the task, or the error.
pub open spec fn answers_task(resp: McpResponse, r: Result<Task, Error>) -> bool {
    match r {
        Ok(t) => resp == (McpResponse::Success { data: Payload::Task(t) }),
        Err(e) => reports(resp, e),
    }
}

/// `r` is the response `resp`, with no message error.
pub open spec fn responds(r: Result<McpResponse, String>, resp: McpResponse) -> bool {
    r == Ok::<McpResponse, String>(resp)
}

/// `r` is the message error `m`.
pub open spec fn fails_with(r: Result<McpResponse, String>, m: Seq<char>) -> bool {
    r matches Err(e) && e@ == m
}

/// The tasks of `s` whose ids are among `ids`, in their order.
pub open spec fn with_ids(s: Seq<Task>, ids: Seq<i64>) -> Seq<Task>
    decreases s.len(),
{
    if s.len() == 0 {
        s
    } else if ids.contains(s.last().id) {
        with_ids(s.drop_last(), ids).push(s.last())
    } else {
        with_ids(s.drop_last(), ids)
    }
}

/// The status filter a word names, in any case.
pub open spec fn status_filter_of(s: Option<String>) -> Option<TaskStatus> {
    match s {
        Some(s) => status_of_word(lowercase(s@), false),
        None => None,
    }
}

/// The ids of an optional list.
pub open spec fn ids_of(ids: Option<Vec<i64>>) -> Option<Seq<i64>> {
    match ids {
        Some(ids) => Some(ids@),
        None => None,
    }
}

/// The listing narrowed to the ids given, if any.
pub open spec fn narrowed(s: Seq<Task>, ids: Option<Seq<i64>>) -> Seq<Task> {
    match ids {
        Some(ids) => with_ids(s, ids),
        None => s,
    }
}

fn keep_ids(v: Vec<Task>, ids: &Vec<i64>) -> (r: Vec<Task>)
    ensures
        r@ == with_ids(v@, ids@),
{
    let mut out: Vec<Task> = Vec::new();
    let mut i: usize = 0;
    while i < v.len()
        invariant
            i <= v@.len(),
            out@ == with_ids(v@.take(i as int), ids@),
        decreases v@.len() - i,
    {
        assert(v@.take(i + 1).drop_last() =~= v@.take(i as int));
        let t = &v[i];
        let mut found = false;
        let mut j: usize = 0;
        while j < ids.len()
            invariant
                j <= ids@.len(),
                found == ids@.take(j as int).contains(t.id),
            decreases ids@.len() - j,
        {
            let ghost s1 = ids@.take(j as int);
            let ghost s2 = ids@.take(j + 1);
            assert(s2 =~= s1.push(ids@[j as int]));
            proof {
                if s2.contains(t.id) {
                    let k = choose|k: int| 0 <= k < s2.len() && s2[k] == t.id;
                    if k < j {
                        assert(s1[k] == t.id);
                    }
                }
                if s1.contains(t.id) {
                    let k = choose|k: int| 0 <= k < s1.len() && s1[k] == t.id;
                    assert(s2[k] == t.id);
                }
                if ids@[j as int] == t.id {
                    assert(s2[j as int] == t.id);
                }
            }
            if ids[j] == t.id {
                found = true;
            }
            j = j + 1;
        }
        assert(ids@.take(ids@.len() as int) =~= ids@);
        if found {
            out.push(t.clone());
        }
        i = i + 1;
    }
    assert(v@.take(v@.len() as int) =~= v@);
    out
}

/// The input of tools that name one task.
#[derive(Debug)]
pub struct GetTaskInput {
    pub id: i64,
}

/// The input of `list_tasks`.
#[derive(Debug)]
pub struct ListTasksInput {
    pub no_focus: bool,
    pub archived: Option<bool>,
    pub status: Option<String>,
    pub active: bool,
    pub limit: Option<usize>,
    pub offset: Option<usize>,
    pub ids: Option<Vec<i64>>,
}

/// The input of `create_task`.
#[derive(Debug)]
pub struct CreateTaskInput {
    pub title: Option<String>,
    pub description: Option<String>,
    pub dod: Option<String>,
    pub after_id: Option<i64>,
    pub before_id: Option<i64>,
    pub depends_on: Vec<i64>,
}

/// The input of `edit_task`.
#[derive(Debug)]
pub struct EditTaskInput {
    pub id: i64,
    pub title: Option<String>,
    pub description: Option<String>,
    pub dod: Option<String>,
    /// A status to set (pending, in_progress, completed, blocked, cancelled).
    pub status: Option<String>,
    /// An action (complete, stop, cancel, block, unblock).
    pub action: Option<String>,
    /// Prerequisites to add.
    pub depends_on: Option<Vec<i64>>,
    /// Prerequisites to remove.
    pub remove_depends_on: Option<Vec<i64>>,
    /// Move the task after this one.
    pub after: Option<i64>,
    /// Move the task before this one.
    pub before: Option<i64>,
}

/// The input of tools that take one task id.
#[derive(Debug)]
pub struct TaskIdInput {
    pub id: i64,
}

/// The input of `manage_dependency`.
#[derive(Debug)]
pub struct DependencyInput {
    pub task_id: i64,
    pub depends_on: Vec<i64>,
    /// Remove the dependencies instead of adding them.
    pub remove: bool,
}

/// The input of tools that take several task ids.
#[derive(Debug)]
pub struct TaskIdsInput {
    pub task_ids: Vec<i64>,
}

/// The input of `log_artifact`.
#[derive(Debug)]
pub struct LogArtifactInput {
    pub name: String,
    pub file_path: String,
    /// The task; the task in progress when absent.
    pub task_id: Option<i64>,
}

/// The input of `get_artifacts`.
#[derive(Debug)]
pub struct GetArtifactsInput {
    pub task_id: Option<i64>,
}

/// The input of `reorder_task`.
#[derive(Debug)]
pub struct ReorderTaskInput {
    pub id: i64,
    pub after_id: Option<i64>,
    pub before_id: Option<i64>,
}

/// The input of `advance_task`.
#[derive(Debug)]
pub struct AdvanceInput {
    pub dry_run: bool,
}

/// One subtask of `split_task`.
#[derive(Debug)]
pub struct SubtaskDefinition {
    pub title: String,
    pub description: String,
    pub dod: String,
}

/// The input of `split_task`.
#[derive(Debug)]
pub struct SplitTaskInput {
    pub id: i64,
    pub subtasks: Vec<SubtaskDefinition>,
}

/// The input of `focus`.
#[derive(Debug)]
pub struct FocusInput {
    /// set, get, clear, next or last.
    pub action: String,
    /// The task, for `set`.
    pub id: Option<i64>,
}

/// The input of `artifacts`.
#[derive(Debug)]
pub struct ArtifactsInput {
    /// log or list.
    pub action: String,
    /// The task; the task in progress when absent.
    pub id: Option<i64>,
    /// The artifact's name, for `log`.
    pub name: Option<String>,
    /// The file, for `log`.
    pub file_path: Option<String>,
}

/// Tool `get_current_task`: the task in progress and its artifacts.
pub struct GetCurrentTaskHandler;

impl GetCurrentTaskHandler {
    pub fn name(&self) -> (r: &'static str)
        ensures
            r@ == "get_current_task"@,
    {
        "get_current_task"
    }

    pub fn handle(&self, store: &Store) -> (r: Result<McpResponse, String>)
        requires
            store.wf(),
        ensures
            match active_task(store.rows()) {
                Some(t) => r matches Ok(McpResponse::Success { data: Payload::Current { task, artifacts } })
                    && task == t && artifacts_of(store.files(), t.id, artifacts@),
                None => r matches Ok(resp) && reports(resp, Error::NoActiveTask),
            },
    {
        match store.get_current_task() {
            Ok(task) => {
                let artifacts = store.get_artifacts_for_task(task.id);
                Ok(McpResponse::ok(Payload::Current { task, artifacts }))
            },
            Err(e) => Ok(McpResponse::from_tt_error(e)),
        }
    }
}

/// Tool `tt_get_target`: the focus task.
pub struct GetTargetHandler;

impl GetTargetHandler {
    pub fn name(&self) -> (r: &'static str)
        ensures
            r@ == "tt_get_target"@,
    {
        "tt_get_target"
    }

    pub fn handle(&self, store: &Store) -> (r: Result<McpResponse, String>)
        requires
            store.wf(),
        ensures
            match (match store.focus() {
                Some(id) => live_row(store.rows(), id),
                None => None,
            }) {
                Some(t) => responds(r, McpResponse::Success { data: Payload::Task(t) }),
                None => r matches Ok(McpResponse::Success { data: Payload::Message(m) }) && m@ == "No target set"@,
            },
    {
        match store.get_target() {
            Some(task) => Ok(McpResponse::ok(Payload::Task(task))),
            None => Ok(McpResponse::ok(Payload::Message(String::from_str("No target set")))),
        }
    }
}

/// Tool `clear_focus`.
pub struct ClearFocusHandler;

impl ClearFocusHandler {
    pub fn name(&self) -> (r: &'static str)
        ensures
            r@ == "clear_focus"@,
    {
        "clear_focus"
    }

    pub fn handle(&self, store: &mut Store) -> (r: Result<McpResponse, String>)
        requires
            old(store).wf(),
        ensures
            final(store).wf(),
            final(store).rows() == old(store).rows(),
            final(store).edges() == old(store).edges(),
            final(store).files() == old(store).files(),
            final(store).next_task_id() == old(store).next_task_id(),
            final(store).next_artifact_id() == old(store).next_artifact_id(),
            final(store).focus() is None,
            r matches Ok(McpResponse::Success { data: Payload::Message(m) }) && m@ == "Focus cleared"@,
    {
        store.clear_target();
        Ok(McpResponse::ok(Payload::Message(String::from_str("Focus cleared"))))
    }
}

/// Tool `get_task`: a task in detail, archived ones included.
pub struct GetTaskHandler;

impl GetTaskHandler {
    pub fn name(&self) -> (r: &'static str)
        ensures
            r@ == "get_task"@,
    {
        "get_task"
    }

    pub fn handle(&self, store: &Store, input: GetTaskInput) -> (r: Result<McpResponse, String>)
        requires
            store.wf(),
        ensures
            match task_by_id(store.rows(), input.id) {
                Some(_) => r matches Ok(McpResponse::Success { data: Payload::Detail(d) })
                    && is_detail(*store, input.id, true, d),
                None => r matches Ok(resp) && reports(resp, Error::TaskNotFound(input.id)),
            },
    {
        match store.get_task_detail_allow_archived(input.id) {
            Ok(detail) => Ok(McpResponse::ok(Payload::Detail(detail))),
            Err(e) => Ok(McpResponse::from_tt_error(e)),
        }
    }
}

/// Tool `get_tasks`: the tasks with the ids given that exist, archived ones
/// included.
pub struct GetTasksHandler;

impl GetTasksHandler {
    pub fn name(&self) -> (r: &'static str)
        ensures
            r@ == "get_tasks"@,
    {
        "get_tasks"
    }

    pub fn handle(&self, store: &Store, input: TaskIdsInput) -> (r: Result<McpResponse, String>)
        requires
            store.wf(),
        ensures
            r matches Ok(McpResponse::Success { data: Payload::Tasks(v) })
                && v@ == rows_for(store.rows(), input.task_ids@, true),
    {
        let tasks = store.get_tasks_allow_archived(input.task_ids);
        Ok(McpResponse::ok(Payload::Tasks(tasks)))
    }
}

/// Tool `list_tasks`: tasks in order, filtered and paginated, as summaries.
pub struct ListTasksHandler;

impl ListTasksHandler {
    pub fn name(&self) -> (r: &'static str)
        ensures
            r@ == "list_tasks"@,
    {
        "list_tasks"
    }

    pub fn handle(&self, store: &Store, input: ListTasksInput) -> (r: Result<McpResponse, String>)
        requires
            store.wf(),
        ensures
            input.status is Some && input.active ==> (r matches Ok(resp) && refuses(
                resp,
                "InvalidArgument"@,
                "Cannot use both status and active parameters together. Use active=true to show pending and in_progress tasks."@,
            )),
            !(input.status is Some && input.active) ==> match input.status {
                Some(s) if status_of_word(lowercase(s@), false) is None => r matches Ok(resp) && refuses(
                    resp,
                    "InvalidStatus"@,
                    "Invalid status: "@ + s@,
                ),
                _ => r matches Ok(McpResponse::Success { data: Payload::Summaries(v) }) && exists|res: Seq<Task>|
                    #[trigger] listing(
                        *store,
                        input.no_focus,
                        status_filter_of(input.status),
                        input.active,
                        input.archived,
                        res,
                    ) && v@ == narrowed(
                        page(res, input.limit, input.offset),
                        ids_of(input.ids),
                    ),
            },
    {
        if input.status.is_some() && input.active {
            return Ok(McpResponse::error(
                "InvalidArgument",
                "Cannot use both status and active parameters together. Use active=true to show pending and in_progress tasks.",
            ));
        }
        let status_filter = match &input.status {
            Some(s) => match parse_status(s.as_str()) {
                Ok(st) => Some(st),
                Err(_) => {
                    let mut m = String::from_str("Invalid status: ");
                    m.append(s.as_str());
                    return Ok(McpResponse::error("InvalidStatus", m.as_str()));
                },
            },
            None => None,
        };
        let tasks = store.list_tasks(
            input.no_focus,
            status_filter,
            input.active,
            input.limit,
            input.offset,
            input.archived,
        );
        let ghost res = choose|res: Seq<Task>|
            #[trigger] listing(*store, input.no_focus, status_filter, input.active, input.archived, res)
                && tasks@ == page(res, input.limit, input.offset);
        let tasks = match &input.ids {
            Some(ids) => keep_ids(tasks, ids),
            None => tasks,
        };
        assert(listing(*store, input.no_focus, status_filter, input.active, input.archived, res));
        Ok(McpResponse::ok(Payload::Summaries(tasks)))
    }
}

/// The dependency list of `create_task`: none when empty.
pub open spec fn deps_of(v: Vec<i64>) -> Option<Seq<i64>> {
    if v@.len() == 0 {
        None
    } else {
        Some(v@)
    }
}

/// The text of an optional string.
pub open spec fn text_of(s: Option<String>) -> Option<Seq<char>> {
    match s {
        Some(t) => Some(t@),
        None => None,
    }
}

/// The answer to `create_task` once title, description and definition of
/// done are given: the error of the order, or what creating gives.
pub open spec fn create_answer(
    s: Store,
    s2: Store,
    title: Seq<char>,
    description: Seq<char>,
    dod: Seq<char>,
    order: Result<u64, Error>,
    depends_on: Option<Seq<i64>>,
    now: String,
    r: Result<McpResponse, String>,
) -> bool {
    match order {
        Err(e) => s2 == s && (r matches Ok(resp) && reports(resp, e)),
        Ok(k) => exists|res: Result<Task, Error>|
            #[trigger] create_outcome(s, s2, title, description, dod, k, depends_on, now, res)
                && (r matches Ok(resp) && answers_task(resp, res)),
    }
}

fn answer_task(r: Result<Task, Error>) -> (resp: McpResponse)
    ensures
        answers_task(resp, r),
{
    match r {
        Ok(t) => McpResponse::ok(Payload::Task(t)),
        Err(e) => McpResponse::from_tt_error(e),
    }
}

/// Tool `create_task`.
pub struct CreateTaskHandler;

impl CreateTaskHandler {
    pub fn name(&self) -> (r: &'static str)
        ensures
            r@ == "create_task"@,
    {
        "create_task"
    }

    /// Creates the task; `order` is the order key that the placement after
    /// `after_id` and before `before_id` gives, or why there is none.
    pub fn handle(
        &self,
        store: &mut Store,
        input: CreateTaskInput,
        order: Result<u64, Error>,
        now: &String,
    ) -> (r: Result<McpResponse, String>)
        requires
            old(store).wf(),
        ensures
            final(store).wf(),
            match input.title {
                None => fails_with(r, "title required"@) && *final(store) == *old(store),
                Some(title) => match input.description {
                    None => fails_with(r, "description required"@) && *final(store) == *old(store),
                    Some(description) => match input.dod {
                        None => fails_with(r, "dod required"@) && *final(store) == *old(store),
                        Some(dod) => create_answer(
                            *old(store),
                            *final(store),
                            title@,
                            description@,
                            dod@,
                            order,
                            deps_of(input.depends_on),
                            *now,
                            r,
                        ),
                    },
                },
            },
    {
        let title = match input.title {
            Some(t) => t,
            None => return Err(String::from_str("title required")),
        };
        let description = match input.description {
            Some(d) => d,
            None => return Err(String::from_str("description required")),
        };
        let dod = match input.dod {
            Some(d) => d,
            None => return Err(String::from_str("dod required")),
        };
        let k = match order {
            Ok(k) => k,
            Err(e) => return Ok(McpResponse::from_tt_error(e)),
        };
        let deps_opt = if input.depends_on.len() == 0 {
            None
        } else {
            Some(input.depends_on)
        };
        let res = store.create_task(title.as_str(), description.as_str(), dod.as_str(), k, deps_opt, now);
        let resp = answer_task(res);
        Ok(resp)
    }
}

/// The answer to setting the focus on `id`.
pub open spec fn focus_answer(resp: McpResponse, id: i64, title: Option<String>, res: Result<(), Error>) -> bool {
    match res {
        Ok(_) => resp == (McpResponse::Success { data: Payload::FocusSet { target_id: id, title: title } }),
        Err(e) => reports(resp, e),
    }
}

fn answer_focus(id: i64, title: Option<String>, res: Result<(), Error>) -> (resp: McpResponse)
    ensures
        focus_answer(resp, id, title, res),
{
    match res {
        Ok(_) => McpResponse::ok(Payload::FocusSet { target_id: id, title }),
        Err(e) => McpResponse::from_tt_error(e),
    }
}

/// Tool `set_focus`.
pub struct SetFocusHandler;

impl SetFocusHandler {
    pub fn name(&self) -> (r: &'static str)
        ensures
            r@ == "set_focus"@,
    {
        "set_focus"
    }

    pub fn handle(&self, store: &mut Store, input: TaskIdInput) -> (r: Result<McpResponse, String>)
        requires
            old(store).wf(),
        ensures
            final(store).wf(),
            exists|res: Result<(), Error>|
                #[trigger] set_target_outcome(*old(store), *final(store), input.id, res) && (r matches Ok(resp)
                    && focus_answer(resp, input.id, None, res)),
    {
        let res = store.set_target(input.id);
        Ok(answer_focus(input.id, None, res))
    }
}

/// `t` is the live pending task lowest in manual order.
pub open spec fn lowest_pending_row(rows: Seq<Task>, t: Task) -> bool {
    &&& rows.contains(t)
    &&& !t.deleted
    &&& t.status == TaskStatus::Pending
    &&& forall|c: Task| #[trigger] rows.contains(c) && !c.deleted && c.status == TaskStatus::Pending ==> c == t || order_lt(t, c)
}

/// Some live task is pending.
pub open spec fn has_pending(rows: Seq<Task>) -> bool {
    exists|c: Task| #[trigger] rows.contains(c) && !c.deleted && c.status == TaskStatus::Pending
}

/// `t` is the live task with the highest id.
pub open spec fn last_row(rows: Seq<Task>, t: Task) -> bool {
    &&& rows.contains(t)
    &&& !t.deleted
    &&& forall|c: Task| #[trigger] rows.contains(c) && !c.deleted ==> c.id <= t.id
}

/// Some task is live.
pub open spec fn has_live(rows: Seq<Task>) -> bool {
    exists|c: Task| #[trigger] rows.contains(c) && !c.deleted
}

/// The focus task of a store, if it is live.
pub open spec fn focus_task(s: Store) -> Option<Task> {
    match s.focus() {
        Some(id) => live_row(s.rows(), id),
        None => None,
    }
}

/// The answer of the `focus` tool to the lower-case action `w`.
pub open spec fn focus_tool_answer(s: Store, s2: Store, w: Seq<char>, action: Seq<char>, id: Option<i64>, r: Result<McpResponse, String>) -> bool {
    if w == "set"@ {
        match id {
            None => fails_with(r, "id required for set action"@) && s2 == s,
            Some(id) => exists|res: Result<(), Error>|
                #[trigger] set_target_outcome(s, s2, id, res) && (r matches Ok(resp) && focus_answer(resp, id, None, res)),
        }
    } else if w == "get"@ {
        &&& s2 == s
        &&& match focus_task(s) {
            Some(t) => responds(r, McpResponse::Success { data: Payload::Task(t) }),
            None => r matches Ok(McpResponse::Success { data: Payload::Message(m) }) && m@ == "No focus set"@,
        }
    } else if w == "clear"@ {
        &&& s2.rows() == s.rows()
        &&& s2.edges() == s.edges()
        &&& s2.files() == s.files()
        &&& s2.next_task_id() == s.next_task_id()
        &&& s2.next_artifact_id() == s.next_artifact_id()
        &&& s2.focus() is None
        &&& r matches Ok(McpResponse::Success { data: Payload::Message(m) }) && m@ == "Focus cleared"@
    } else if w == "next"@ {
        if has_pending(s.rows()) {
            exists|t: Task, res: Result<(), Error>|
                lowest_pending_row(s.rows(), t) && #[trigger] set_target_outcome(s, s2, t.id, res)
                    && (r matches Ok(resp) && focus_answer(resp, t.id, Some(t.title), res))
        } else {
            s2 == s && (r matches Ok(McpResponse::Success { data: Payload::Message(m) }) && m@
                == "No pending tasks available"@)
        }
    } else if w == "last"@ {
        if has_live(s.rows()) {
            exists|t: Task, res: Result<(), Error>|
                last_row(s.rows(), t) && #[trigger] set_target_outcome(s, s2, t.id, res)
                    && (r matches Ok(resp) && focus_answer(resp, t.id, Some(t.title), res))
        } else {
            s2 == s && (r matches Ok(McpResponse::Success { data: Payload::Message(m) }) && m@ == "No tasks available"@)
        }
    } else {
        s2 == s && (r matches Ok(resp) && refuses(
            resp,
            "InvalidAction"@,
            "Invalid action: "@ + action + ". Use set, get, clear, next, or last"@,
        ))
    }
}

/// Tool `focus`: set, get or clear the focus, or focus on the next pending
/// task or on the newest task.
pub struct FocusHandler;

impl FocusHandler {
    pub fn name(&self) -> (r: &'static str)
        ensures
            r@ == "focus"@,
    {
        "focus"
    }

    pub fn handle(&self, store: &mut Store, input: FocusInput) -> (r: Result<McpResponse, String>)
        requires
            old(store).wf(),
        ensures
            final(store).wf(),
            focus_tool_answer(*old(store), *final(store), lowercase(input.action@), input.action@, input.id, r),
    {
        let w = to_lowercase(input.action.as_str());
        if str_equals(w.as_str(), "set") {
            let id = match input.id {
                Some(id) => id,
                None => return Err(String::from_str("id required for set action")),
            };
            let res = store.set_target(id);
            Ok(answer_focus(id, None, res))
        } else if str_equals(w.as_str(), "get") {
            match store.get_target() {
                Some(t) => Ok(McpResponse::ok(Payload::Task(t))),
                None => Ok(McpResponse::ok(Payload::Message(String::from_str("No focus set")))),
            }
        } else if str_equals(w.as_str(), "clear") {
            store.clear_target();
            Ok(McpResponse::ok(Payload::Message(String::from_str("Focus cleared"))))
        } else if str_equals(w.as_str(), "next") {
            match store.lowest_pending() {
                Some(t) => {
                    let id = t.id;
                    let res = store.set_target(id);
                    proof {
                        assert(lowest_pending_row(old(store).rows(), t));
                    }
                    Ok(answer_focus(id, Some(t.title), res))
                },
                None => Ok(McpResponse::ok(Payload::Message(String::from_str("No pending tasks available")))),
            }
        } else if str_equals(w.as_str(), "last") {
            match store.last_task() {
                Some(t) => {
                    let id = t.id;
                    let res = store.set_target(id);
                    proof {
                        assert(last_row(old(store).rows(), t));
                    }
                    Ok(answer_focus(id, Some(t.title), res))
                },
                None => Ok(McpResponse::ok(Payload::Message(String::from_str("No tasks available")))),
            }
        } else {
            let mut m = String::from_str("Invalid action: ");
            m.append(input.action.as_str());
            m.append(". Use set, get, clear, next, or last");
            Ok(McpResponse::error("InvalidAction", m.as_str()))
        }
    }
}

/// Tool `advance_task`: complete the task in progress and start the next
/// runnable one.
pub struct AdvanceTaskHandler;

impl AdvanceTaskHandler {
    pub fn name(&self) -> (r: &'static str)
        ensures
            r@ == "advance_task"@,
    {
        "advance_task"
    }

    pub fn handle(&self, store: &mut Store, input: AdvanceInput, now: &String) -> (r: Result<McpResponse, String>)
        requires
            old(store).wf(),
        ensures
            final(store).wf(),
            exists|res: Result<AdvanceResult, Error>|
                #[trigger] advance_task_outcome(*old(store), *final(store), input.dry_run, *now, res) && match res {
                    Ok(a) => responds(r, McpResponse::Success { data: Payload::Advanced { result: a, dry_run: input.dry_run } }),
                    Err(e) => r matches Ok(resp) && reports(resp, e),
                },
    {
        let res = store.advance_task(input.dry_run, now);
        match res {
            Ok(a) => Ok(McpResponse::ok(Payload::Advanced { result: a, dry_run: input.dry_run })),
            Err(e) => Ok(McpResponse::from_tt_error(e)),
        }
    }
}

/// Tool `archive_tasks`: archive every finished task.
pub struct ArchiveTasksHandler;

impl ArchiveTasksHandler {
    pub fn name(&self) -> (r: &'static str)
        ensures
            r@ == "archive_tasks"@,
    {
        "archive_tasks"
    }

    pub fn handle(&self, store: &mut Store, now: &String) -> (r: Result<McpResponse, String>)
        requires
            old(store).wf(),
        ensures
            final(store).wf(),
            r matches Ok(McpResponse::Success { data: Payload::Archived(n) }) && archive_outcome(
                *old(store),
                *final(store),
                *now,
                n,
            ),
    {
        let n = store.archive_completed(now);
        Ok(McpResponse::ok(Payload::Archived(n)))
    }
}

/// How many of the results are successes.
pub open spec fn ok_count(rs: Seq<Result<Task, Error>>) -> nat
    decreases rs.len(),
{
    if rs.len() == 0 {
        0
    } else {
        ok_count(rs.drop_last()) + if rs.last() is Ok {
            1nat
        } else {
            0nat
        }
    }
}

proof fn lemma_ok_count_bound(rs: Seq<Result<Task, Error>>)
    ensures
        ok_count(rs) <= rs.len(),
    decreases rs.len(),
{
    if rs.len() > 0 {
        lemma_ok_count_bound(rs.drop_last());
    }
}

/// The bulk answer: the results, and how many succeeded and failed.
fn bulk(results: Vec<Result<Task, Error>>) -> (resp: McpResponse)
    ensures
        resp matches McpResponse::Success { data: Payload::Bulk { succeeded, failed, results: v } } && v == results
            && succeeded == ok_count(results@) && failed == results@.len() - ok_count(results@),
{
    let mut succeeded: usize = 0;
    let mut i: usize = 0;
    while i < results.len()
        invariant
            i <= results@.len(),
            succeeded == ok_count(results@.take(i as int)),
            succeeded <= i,
        decreases results@.len() - i,
    {
        assert(results@.take(i + 1).drop_last() =~= results@.take(i as int));
        if results[i].is_ok() {
            succeeded = succeeded + 1;
        }
        i = i + 1;
    }
    assert(results@.take(results@.len() as int) =~= results@);
    let failed = results.len() - succeeded;
    McpResponse::ok(Payload::Bulk { succeeded, failed, results })
}

/// The answer of a tool that blocks (`block`) or unblocks one or several
/// tasks: several ids given as a list, or one id, in the list or alone.
pub open spec fn bulk_tool_answer(
    s: Store,
    s2: Store,
    block: bool,
    task_ids: Option<Seq<i64>>,
    id: Result<i64, String>,
    now: String,
    r: Result<McpResponse, String>,
) -> bool {
    match task_ids {
        Some(ids) if ids.len() > 1 => r matches Ok(McpResponse::Success { data: Payload::Bulk { succeeded, failed, results } }) && succeeded
            == ok_count(results@) && failed == results@.len() - ok_count(results@) && if block {
            block_tasks_outcome(s, s2, ids, now, results)
        } else {
            unblock_tasks_outcome(s, s2, ids, now, results)
        },
        Some(ids) if ids.len() == 1 => single_answer(s, s2, block, ids[0], now, r),
        _ => match id {
            Err(m) => r == Err::<McpResponse, String>(m) && s2 == s,
            Ok(i) => single_answer(s, s2, block, i, now, r),
        },
    }
}

/// The answer to blocking or unblocking one task.
pub open spec fn single_answer(s: Store, s2: Store, block: bool, id: i64, now: String, r: Result<McpResponse, String>) -> bool {
    &&& same_but_rows(s, s2)
    &&& exists|res: Result<Task, Error>|
        #[trigger] step_outcome(s.rows(), block, id, now, res, s2.rows()) && (r matches Ok(resp) && answers_task(resp, res))
}

/// Blocking or unblocking one task.
pub open spec fn step_outcome(rows: Seq<Task>, block: bool, id: i64, now: String, res: Result<Task, Error>, rows2: Seq<Task>) -> bool {
    if block {
        block_outcome(rows, id, now, res, rows2)
    } else {
        unblock_outcome(rows, id, now, res, rows2)
    }
}

fn block_or_unblock(store: &mut Store, block: bool, task_ids: Option<Vec<i64>>, id: Result<i64, String>, now: &String) -> (r: Result<McpResponse, String>)
    requires
        old(store).wf(),
    ensures
        final(store).wf(),
        bulk_tool_answer(*old(store), *final(store), block, ids_of(task_ids), id, *now, r),
{
    let one = match task_ids {
        Some(ids) => {
            if ids.len() > 1 {
                let results = if block {
                    store.block_tasks(ids, now)
                } else {
                    store.unblock_tasks(ids, now)
                };
                return Ok(bulk(results));
            } else if ids.len() == 1 {
                ids[0]
            } else {
                match id {
                    Ok(i) => i,
                    Err(m) => return Err(m),
                }
            }
        },
        None => match id {
            Ok(i) => i,
            Err(m) => return Err(m),
        },
    };
    let res = if block {
        store.block_task(one, now)
    } else {
        store.unblock_task(one, now)
    };
    assert(step_outcome(old(store).rows(), block, one, *now, res, store.rows()));
    Ok(answer_task(res))
}

/// Tool `block_task`: block one task, or several.
pub struct BlockTaskHandler;

impl BlockTaskHandler {
    pub fn name(&self) -> (r: &'static str)
        ensures
            r@ == "block_task"@,
    {
        "block_task"
    }

    /// `task_ids` is the list of ids when the input has one; `id` the single
    /// id, or why the input has none.
    pub fn handle(&self, store: &mut Store, task_ids: Option<Vec<i64>>, id: Result<i64, String>, now: &String) -> (r: Result<McpResponse, String>)
        requires
            old(store).wf(),
        ensures
            final(store).wf(),
            bulk_tool_answer(*old(store), *final(store), true, ids_of(task_ids), id, *now, r),
    {
        block_or_unblock(store, true, task_ids, id, now)
    }
}

/// Tool `unblock_task`: unblock one task, or several.
pub struct UnblockTaskHandler;

impl UnblockTaskHandler {
    pub fn name(&self) -> (r: &'static str)
        ensures
            r@ == "unblock_task"@,
    {
        "unblock_task"
    }

    /// `task_ids` is the list of ids when the input has one; `id` the single
    /// id, or why the input has none.
    pub fn handle(&self, store: &mut Store, task_ids: Option<Vec<i64>>, id: Result<i64, String>, now: &String) -> (r: Result<McpResponse, String>)
        requires
            old(store).wf(),
        ensures
            final(store).wf(),
            bulk_tool_answer(*old(store), *final(store), false, ids_of(task_ids), id, *now, r),
    {
        block_or_unblock(store, false, task_ids, id, now)
    }
}

/// The answer to a change of dependencies that succeeded or failed.
pub open spec fn dependency_answer(resp: McpResponse, res: Result<(), Error>, message: Seq<char>, task_id: i64, depends_on: Vec<i64>, single: bool) -> bool {
    match res {
        Ok(_) => resp matches McpResponse::Success { data: Payload::Dependencies { message: m, task_id: t, depends_on: d, single: one } }
            && m@ == message && t == task_id && d == depends_on && one == single,
        Err(e) => reports(resp, e),
    }
}

fn answer_dependency(res: Result<(), Error>, message: &str, task_id: i64, depends_on: Vec<i64>, single: bool) -> (resp: McpResponse)
    ensures
        dependency_answer(resp, res, message@, task_id, depends_on, single),
{
    match res {
        Ok(_) => McpResponse::ok(Payload::Dependencies { message: String::from_str(message), task_id, depends_on, single }),
        Err(e) => McpResponse::from_tt_error(e),
    }
}

/// The answer of `manage_dependency`.
pub open spec fn dependency_tool_answer(s: Store, s2: Store, input: DependencyInput, r: Result<McpResponse, String>) -> bool {
    let ids = input.depends_on@;
    let single = ids.len() == 1;
    exists|res: Result<(), Error>| {
        &&& #[trigger] dependency_change(s, s2, input.task_id, ids, input.remove, res)
        &&& r matches Ok(resp)
        &&& dependency_answer(
            r->Ok_0,
            res,
            if input.remove {
                if single { "Dependency removed"@ } else { "Dependencies removed"@ }
            } else {
                if single { "Dependency added"@ } else { "Dependencies added"@ }
            },
            input.task_id,
            input.depends_on,
            single,
        )
    }
}

/// Adding (or removing) the edges from `task_id` to `ids`: one at a time
/// when one id is given.
pub open spec fn dependency_change(s: Store, s2: Store, task_id: i64, ids: Seq<i64>, remove: bool, res: Result<(), Error>) -> bool {
    if remove {
        if ids.len() == 1 {
            remove_dependency_outcome(s, s2, task_id, ids[0], res)
        } else {
            remove_dependencies_outcome(s, s2, task_id, ids, res)
        }
    } else {
        if ids.len() == 1 {
            add_dependency_outcome(s, s2, task_id, ids[0], res)
        } else {
            add_dependencies_outcome(s, s2, task_id, ids, res)
        }
    }
}

/// Tool `manage_dependency`: add or remove prerequisites of a task.
pub struct ManageDependencyHandler;

impl ManageDependencyHandler {
    pub fn name(&self) -> (r: &'static str)
        ensures
            r@ == "manage_dependency"@,
    {
        "manage_dependency"
    }

    pub fn handle(&self, store: &mut Store, input: DependencyInput) -> (r: Result<McpResponse, String>)
        requires
            old(store).wf(),
        ensures
            final(store).wf(),
            dependency_tool_answer(*old(store), *final(store), input, r),
    {
        let ghost inp = input;
        let task_id = input.task_id;
        let remove = input.remove;
        let deps = input.depends_on;
        let single = deps.len() == 1;
        if remove {
            if single {
                let res = store.remove_dependency(task_id, deps[0]);
                assert(dependency_change(*old(store), *store, task_id, deps@, remove, res));
                Ok(answer_dependency(res, "Dependency removed", task_id, deps, true))
            } else {
                let res = store.remove_dependencies(task_id, deps.clone());
                assert(dependency_change(*old(store), *store, task_id, deps@, remove, res));
                Ok(answer_dependency(res, "Dependencies removed", task_id, deps, false))
            }
        } else {
            if single {
                let res = store.add_dependency(task_id, deps[0]);
                assert(dependency_change(*old(store), *store, task_id, deps@, remove, res));
                Ok(answer_dependency(res, "Dependency added", task_id, deps, true))
            } else {
                let res = store.add_dependencies(task_id, deps.clone());
                assert(dependency_change(*old(store), *store, task_id, deps@, remove, res));
                Ok(answer_dependency(res, "Dependencies added", task_id, deps, false))
            }
        }
    }
}

/// The answer to an artifact result.
pub open spec fn answers_artifact(resp: McpResponse, r: Result<Artifact, Error>) -> bool {
    match r {
        Ok(a) => resp == (McpResponse::Success { data: Payload::Artifact(a) }),
        Err(e) => reports(resp, e),
    }
}

/// The answer to listing the artifacts of `task_id`, or of the task in
/// progress.
pub open spec fn artifacts_answer(s: Store, task_id: Option<i64>, r: Result<McpResponse, String>) -> bool {
    match task_id {
        Some(id) => r matches Ok(McpResponse::Success { data: Payload::Artifacts(v) }) && artifacts_of(s.files(), id, v@),
        None => match active_task(s.rows()) {
            Some(t) => r matches Ok(McpResponse::Success { data: Payload::Artifacts(v) }) && artifacts_of(s.files(), t.id, v@),
            None => r matches Ok(resp) && reports(resp, Error::NoActiveTask),
        },
    }
}

fn list_artifacts(store: &Store, task_id: Option<i64>) -> (r: Result<McpResponse, String>)
    requires
        store.wf(),
    ensures
        artifacts_answer(*store, task_id, r),
{
    match store.get_task_artifacts(task_id) {
        Ok(v) => Ok(McpResponse::ok(Payload::Artifacts(v))),
        Err(e) => Ok(McpResponse::from_tt_error(e)),
    }
}

fn log_one(store: &mut Store, name: &str, file_path: &str, task_id: Option<i64>, now: &String) -> (r: Result<McpResponse, String>)
    requires
        old(store).wf(),
    ensures
        final(store).wf(),
        exists|res: Result<Artifact, Error>|
            #[trigger] log_artifact_outcome(*old(store), *final(store), name@, file_path@, task_id, *now, res)
                && (r matches Ok(resp) && answers_artifact(resp, res)),
{
    let res = store.log_artifact(name, file_path, task_id, now);
    match res {
        Ok(a) => Ok(McpResponse::ok(Payload::Artifact(a))),
        Err(e) => Ok(McpResponse::from_tt_error(e)),
    }
}

/// Tool `log_artifact`: record a file for a task.
pub struct LogArtifactHandler;

impl LogArtifactHandler {
    pub fn name(&self) -> (r: &'static str)
        ensures
            r@ == "log_artifact"@,
    {
        "log_artifact"
    }

    pub fn handle(&self, store: &mut Store, input: LogArtifactInput, now: &String) -> (r: Result<McpResponse, String>)
        requires
            old(store).wf(),
        ensures
            final(store).wf(),
            exists|res: Result<Artifact, Error>|
                #[trigger] log_artifact_outcome(*old(store), *final(store), input.name@, input.file_path@, input.task_id, *now, res)
                    && (r matches Ok(resp) && answers_artifact(resp, res)),
    {
        log_one(store, input.name.as_str(), input.file_path.as_str(), input.task_id, now)
    }
}

/// Tool `get_artifacts`: the artifacts of a task.
pub struct GetArtifactsHandler;

impl GetArtifactsHandler {
    pub fn name(&self) -> (r: &'static str)
        ensures
            r@ == "get_artifacts"@,
    {
        "get_artifacts"
    }

    pub fn handle(&self, store: &Store, input: GetArtifactsInput) -> (r: Result<McpResponse, String>)
        requires
            store.wf(),
        ensures
            artifacts_answer(*store, input.task_id, r),
    {
        list_artifacts(store, input.task_id)
    }
}

/// The answer of the `artifacts` tool to the lower-case action `w`.
pub open spec fn artifacts_tool_answer(s: Store, s2: Store, w: Seq<char>, input: ArtifactsInput, now: String, r: Result<McpResponse, String>) -> bool {
    if w == "log"@ {
        match input.name {
            None => fails_with(r, "name required for log action"@) && s2 == s,
            Some(name) => match input.file_path {
                None => fails_with(r, "file_path required for log action"@) && s2 == s,
                Some(file_path) => exists|res: Result<Artifact, Error>|
                    #[trigger] log_artifact_outcome(s, s2, name@, file_path@, input.id, now, res)
                        && (r matches Ok(resp) && answers_artifact(resp, res)),
            },
        }
    } else if w == "list"@ {
        s2 == s && artifacts_answer(s, input.id, r)
    } else {
        s2 == s && (r matches Ok(resp) && refuses(
            resp,
            "InvalidAction"@,
            "Invalid action: "@ + input.action@ + ". Use list or log"@,
        ))
    }
}

/// Tool `artifacts`: log an artifact, or list a task's artifacts.
pub struct ArtifactsHandler;

impl ArtifactsHandler {
    pub fn name(&self) -> (r: &'static str)
        ensures
            r@ == "artifacts"@,
    {
        "artifacts"
    }

    pub fn handle(&self, store: &mut Store, input: ArtifactsInput, now: &String) -> (r: Result<McpResponse, String>)
        requires
            old(store).wf(),
        ensures
            final(store).wf(),
            artifacts_tool_answer(*old(store), *final(store), lowercase(input.action@), input, *now, r),
    {
        let w = to_lowercase(input.action.as_str());
        if str_equals(w.as_str(), "log") {
            let name = match &input.name {
                Some(n) => n,
                None => return Err(String::from_str("name required for log action")),
            };
            let file_path = match &input.file_path {
                Some(f) => f,
                None => return Err(String::from_str("file_path required for log action")),
            };
            log_one(store, name.as_str(), file_path.as_str(), input.id, now)
        } else if str_equals(w.as_str(), "list") {
            list_artifacts(store, input.id)
        } else {
            let mut m = String::from_str("Invalid action: ");
            m.append(input.action.as_str());
            m.append(". Use list or log");
            Ok(McpResponse::error("InvalidAction", m.as_str()))
        }
    }
}

/// The answer to moving task `id` to the order `order`, or why no order
/// could be found.
pub open spec fn reorder_answer(s: Store, s2: Store, id: i64, order: Result<u64, Error>, now: String, r: Result<McpResponse, String>) -> bool {
    match order {
        Err(e) => s2 == s && (r matches Ok(resp) && reports(resp, e)),
        Ok(k) => exists|res: Result<(), Error>|
            #[trigger] set_task_order_outcome(s, s2, id, k, now, res) && match res {
                Ok(_) => responds(r, McpResponse::Success { data: Payload::Reordered { task_id: id, new_order: k } }),
                Err(e) => r matches Ok(resp) && reports(resp, e),
            },
    }
}

fn move_task(store: &mut Store, id: i64, order: Result<u64, Error>, now: &String) -> (r: Result<McpResponse, String>)
    requires
        old(store).wf(),
    ensures
        final(store).wf(),
        reorder_answer(*old(store), *final(store), id, order, *now, r),
{
    match order {
        Err(e) => Ok(McpResponse::from_tt_error(e)),
        Ok(k) => {
            let res = store.set_task_order(id, k, now);
            match res {
                Ok(_) => Ok(McpResponse::ok(Payload::Reordered { task_id: id, new_order: k })),
                Err(e) => Ok(McpResponse::from_tt_error(e)),
            }
        },
    }
}

/// Tool `reorder_task`: move a task in the manual order.
pub struct ReorderTaskHandler;

impl ReorderTaskHandler {
    pub fn name(&self) -> (r: &'static str)
        ensures
            r@ == "reorder_task"@,
    {
        "reorder_task"
    }

    /// `order` is the order key that the placement after `after_id` and
    /// before `before_id` among the other tasks gives, or why there is none.
    pub fn handle(&self, store: &mut Store, input: ReorderTaskInput, order: Result<u64, Error>, now: &String) -> (r: Result<McpResponse, String>)
        requires
            old(store).wf(),
        ensures
            final(store).wf(),
            reorder_answer(*old(store), *final(store), input.id, order, *now, r),
    {
        move_task(store, input.id, order, now)
    }
}

/// The subtask definitions as (title, description, definition of done).
pub open spec fn triples(subtasks: Seq<SubtaskDefinition>) -> Seq<(String, String, String)> {
    subtasks.map_values(|d: SubtaskDefinition| (d.title, d.description, d.dod))
}

/// Tool `split_task`: replace a task by subtasks.
pub struct SplitTaskHandler;

impl SplitTaskHandler {
    pub fn name(&self) -> (r: &'static str)
        ensures
            r@ == "split_task"@,
    {
        "split_task"
    }

    pub fn handle(&self, store: &mut Store, input: SplitTaskInput, now: &String) -> (r: Result<McpResponse, String>)
        requires
            old(store).wf(),
        ensures
            final(store).wf(),
            exists|res: Result<Vec<Task>, Error>|
                #[trigger] split_outcome(*old(store), *final(store), input.id, triples(input.subtasks@), *now, res)
                    && match res {
                    Ok(v) => responds(r, McpResponse::Success { data: Payload::Split { parent_id: input.id, subtasks: v } }),
                    Err(e) => r matches Ok(resp) && reports(resp, e),
                },
    {
        let ghost defs = input.subtasks@;
        let mut subtasks = input.subtasks;
        let mut rest: Vec<(String, String, String)> = Vec::new();
        while subtasks.len() > 0
            invariant
                triples(defs) == triples(subtasks@) + rest@,
            decreases subtasks@.len(),
        {
            let d = subtasks.pop().unwrap();
            rest.insert(0, (d.title, d.description, d.dod));
            proof {
                assert(triples(subtasks@.push(d)) =~= triples(subtasks@).push((d.title, d.description, d.dod)));
                assert(triples(subtasks@) + rest@ =~= triples(subtasks@.push(d)) + rest@.drop_first());
            }
        }
        assert(triples(defs) =~= rest@);
        let res = store.split_task(input.id, rest, now);
        match res {
            Ok(v) => Ok(McpResponse::ok(Payload::Split { parent_id: input.id, subtasks: v })),
            Err(e) => Ok(McpResponse::from_tt_error(e)),
        }
    }
}

/// `edges` after removing, one at a time, each edge from `task_id` to one
/// of `ids` that is there; missing edges are passed over.
pub open spec fn drop_edges(edges: Seq<Dependency>, task_id: i64, ids: Seq<i64>) -> Seq<Dependency>
    decreases ids.len(),
{
    if ids.len() == 0 {
        edges
    } else {
        let prev = drop_edges(edges, task_id, ids.drop_last());
        let d = Dependency { task_id: task_id, depends_on: ids.last() };
        if prev.contains(d) {
            without_edge(prev, d)
        } else {
            prev
        }
    }
}

/// The first step of `edit_task`: adding the prerequisites given, if any.
pub open spec fn deps_added(s: Store, s1: Store, id: i64, deps: Option<Vec<i64>>, r1: Result<(), Error>) -> bool {
    match deps {
        Some(d) if d@.len() > 0 => add_dependencies_outcome(s, s1, id, d@, r1),
        _ => s1 == s && r1 is Ok,
    }
}

/// The second step of `edit_task`: removing the prerequisites given, if
/// any; a removal that fails is passed over.
pub open spec fn deps_dropped(s1: Store, s2: Store, id: i64, deps: Option<Vec<i64>>) -> bool {
    match deps {
        Some(d) if d@.len() > 0 => same_but_edges(s1, s2) && s2.edges() == drop_edges(s1.edges(), id, d@),
        _ => s2 == s1,
    }
}

/// The third step of `edit_task`: moving the task to the order given, if
/// any, or failing with the reason why no order was found.
pub open spec fn reordered(s2: Store, s3: Store, id: i64, order: Option<Result<u64, Error>>, now: String, r3: Result<(), Error>) -> bool {
    match order {
        None => s3 == s2 && r3 is Ok,
        Some(Err(e)) => s3 == s2 && r3 == Err::<(), Error>(e),
        Some(Ok(k)) => set_task_order_outcome(s2, s3, id, k, now, r3),
    }
}

/// The status a word names for `edit_task`, in any case.
pub open spec fn status_of(w: Option<String>) -> Option<TaskStatus> {
    match w {
        Some(w) => status_of_word(lowercase(w@), true),
        None => None,
    }
}

/// The action a word names, in any case.
pub open spec fn action_of(a: Option<String>) -> Option<EditAction> {
    match a {
        Some(a) => action_from_name(lowercase(a@)),
        None => None,
    }
}

/// The last step of `edit_task`: reading status and action, then editing.
pub open spec fn edit_rest(s3: Store, s4: Store, input: EditTaskInput, now: String, r: Result<McpResponse, String>) -> bool {
    match input.status {
        Some(w) if status_of_word(lowercase(w@), true) is None => s4 == s3 && (r matches Ok(resp) && refuses(
            resp,
            "InvalidStatus"@,
            "Invalid status: "@ + w@,
        )),
        _ => match input.action {
            Some(a) if action_from_name(lowercase(a@)) is None => s4 == s3 && (r matches Ok(resp) && refuses(
                resp,
                "InvalidAction"@,
                "Invalid action: "@ + a@,
            )),
            _ => exists|res: Result<Task, Error>|
                #[trigger] edit_outcome(
                    s3,
                    s4,
                    input.id,
                    text_of(input.title),
                    text_of(input.description),
                    text_of(input.dod),
                    status_of(input.status),
                    action_of(input.action),
                    now,
                    res,
                ) && (r matches Ok(resp) && answers_task(resp, res)),
        },
    }
}

/// The answer of `edit_task`: the steps in turn, each failing step ending
/// the edit with its error; what earlier steps changed stays.
pub open spec fn edit_tool_answer(s: Store, s4: Store, input: EditTaskInput, order: Option<Result<u64, Error>>, now: String, r: Result<McpResponse, String>) -> bool {
    exists|s1: Store, r1: Result<(), Error>|
        #[trigger] deps_added(s, s1, input.id, input.depends_on, r1) && match r1 {
            Err(e) => s4 == s1 && (r matches Ok(resp) && reports(resp, e)),
            Ok(_) => exists|s2: Store|
                #[trigger] deps_dropped(s1, s2, input.id, input.remove_depends_on) && exists|s3: Store, r3: Result<(), Error>|
                    #[trigger] reordered(s2, s3, input.id, order, now, r3) && match r3 {
                        Err(e) => s4 == s3 && (r matches Ok(resp) && reports(resp, e)),
                        Ok(_) => edit_rest(s3, s4, input, now, r),
                    },
        }
}

fn str_opt(s: &Option<String>) -> (r: Option<&str>)
    ensures
        opt_view(r) == text_of(*s),
{
    match s {
        Some(t) => Some(t.as_str()),
        None => None,
    }
}

/// Tool `edit_task`: change fields, status or action of a task, its
/// prerequisites, or its place in the manual order.
pub struct EditTaskHandler;

impl EditTaskHandler {
    pub fn name(&self) -> (r: &'static str)
        ensures
            r@ == "edit_task"@,
    {
        "edit_task"
    }

    /// `order` is given when the input asks to move the task (after `after`,
    /// else before `before`): the order key that placement gives, or why
    /// there is none.
    pub fn handle(&self, store: &mut Store, input: EditTaskInput, order: Option<Result<u64, Error>>, now: &String) -> (r: Result<McpResponse, String>)
        requires
            old(store).wf(),
        ensures
            final(store).wf(),
            edit_tool_answer(*old(store), *final(store), input, order, *now, r),
    {
        let ghost s0 = *store;
        let r1 = add_step(store, input.id, &input.depends_on);
        let ghost s1 = *store;
        let ghost g1 = r1;
        if let Err(e) = r1 {
            return Ok(McpResponse::from_tt_error(e));
        }
        drop_step(store, input.id, &input.remove_depends_on);
        let ghost s2 = *store;
        let ghost ord = order;
        let r3 = order_step(store, input.id, order, now);
        let ghost s3 = *store;
        let ghost g3 = r3;
        if let Err(e) = r3 {
            return Ok(McpResponse::from_tt_error(e));
        }
        let r = rest_step(store, input, now);
        assert(deps_added(s0, s1, input.id, input.depends_on, g1));
        assert(deps_dropped(s1, s2, input.id, input.remove_depends_on));
        assert(reordered(s2, s3, input.id, ord, *now, g3));
        r
    }
}

fn add_step(store: &mut Store, id: i64, deps: &Option<Vec<i64>>) -> (r1: Result<(), Error>)
    requires
        old(store).wf(),
    ensures
        final(store).wf(),
        deps_added(*old(store), *final(store), id, *deps, r1),
{
    if let Some(d) = deps {
        if d.len() > 0 {
            return store.add_dependencies(id, d.clone());
        }
    }
    Ok(())
}

fn drop_step(store: &mut Store, id: i64, deps: &Option<Vec<i64>>)
    requires
        old(store).wf(),
    ensures
        final(store).wf(),
        deps_dropped(*old(store), *final(store), id, *deps),
{
    let ghost s1 = *store;
    if let Some(d) = deps {
        if d.len() > 0 {
            let mut i: usize = 0;
            while i < d.len()
                invariant
                    store.wf(),
                    i <= d@.len(),
                    same_but_edges(s1, *store),
                    store.edges() == drop_edges(s1.edges(), id, d@.take(i as int)),
                decreases d@.len() - i,
            {
                assert(d@.take(i + 1).drop_last() =~= d@.take(i as int));
                let _ = store.remove_dependency(id, d[i]);
                i = i + 1;
            }
            assert(d@.take(d@.len() as int) =~= d@);
        }
    }
}

fn order_step(store: &mut Store, id: i64, order: Option<Result<u64, Error>>, now: &String) -> (r3: Result<(), Error>)
    requires
        old(store).wf(),
    ensures
        final(store).wf(),
        reordered(*old(store), *final(store), id, order, *now, r3),
{
    match order {
        None => Ok(()),
        Some(Err(e)) => Err(e),
        Some(Ok(k)) => store.set_task_order(id, k, now),
    }
}

fn rest_step(store: &mut Store, input: EditTaskInput, now: &String) -> (r: Result<McpResponse, String>)
    requires
        old(store).wf(),
    ensures
        final(store).wf(),
        edit_rest(*old(store), *final(store), input, *now, r),
{
    let status_opt = match &input.status {
        Some(w) => match parse_edit_status(w.as_str()) {
            Ok(st) => Some(st),
            Err(_) => {
                let mut m = String::from_str("Invalid status: ");
                m.append(w.as_str());
                return Ok(McpResponse::error("InvalidStatus", m.as_str()));
            },
        },
        None => None,
    };
    let action_opt = match &input.action {
        Some(a) => {
            let l = to_lowercase(a.as_str());
            match EditAction::from_name(l.as_str()) {
                Ok(act) => Some(act),
                Err(_) => {
                    let mut m = String::from_str("Invalid action: ");
                    m.append(a.as_str());
                    return Ok(McpResponse::error("InvalidAction", m.as_str()));
                },
            }
        },
        None => None,
    };
    let title = str_opt(&input.title);
    let description = str_opt(&input.description);
    let dod = str_opt(&input.dod);
    let res = store.edit_task(input.id, title, description, dod, status_opt, action_opt, now);
    let resp = answer_task(res);
    Ok(resp)
}

/// The tools the MCP server offers.
#[derive(PartialEq, Eq, Structural, Clone, Copy, Debug)]
pub enum Tool {
    GetTask,
    ListTasks,
    CreateTask,
    EditTask,
    Focus,
    ArchiveTasks,
    SplitTask,
    AdvanceTask,
    Artifacts,
}

/// The name under which a tool is called.
pub open spec fn tool_name(t: Tool) -> Seq<char> {
    match t {
        Tool::GetTask => "get_task"@,
        Tool::ListTasks => "list_tasks"@,
        Tool::CreateTask => "create_task"@,
        Tool::EditTask => "edit_task"@,
        Tool::Focus => "focus"@,
        Tool::ArchiveTasks => "archive_tasks"@,
        Tool::SplitTask => "split_task"@,
        Tool::AdvanceTask => "advance_task"@,
        Tool::Artifacts => "artifacts"@,
    }
}

/// The tool called by a name, if any.
pub open spec fn tool_named(name: Seq<char>) -> Option<Tool> {
    if name == "get_task"@ {
        Some(Tool::GetTask)
    } else if name == "list_tasks"@ {
        Some(Tool::ListTasks)
    } else if name == "create_task"@ {
        Some(Tool::CreateTask)
    } else if name == "edit_task"@ {
        Some(Tool::EditTask)
    } else if name == "focus"@ {
        Some(Tool::Focus)
    } else if name == "archive_tasks"@ {
        Some(Tool::ArchiveTasks)
    } else if name == "split_task"@ {
        Some(Tool::SplitTask)
    } else if name == "advance_task"@ {
        Some(Tool::AdvanceTask)
    } else if name == "artifacts"@ {
        Some(Tool::Artifacts)
    } else {
        None
    }
}

/// What a tool does, as the server describes it.
pub open spec fn tool_description(t: Tool) -> Seq<char> {
    match t {
        Tool::GetTask => "Get full details of a task. Use id=N to get a specific task, or current=true to get the active task."@,
        Tool::ListTasks => "List all tasks in sorted order. By default, shows only tasks in the target subgraph. Use all=true to see all tasks. Use archived=true to see only archived tasks. Use active=true to filter to pending and in_progress tasks. Can filter by status and paginate with limit/offset."@,
        Tool::CreateTask => "Creates a new task. Use title/description/dod to define the task, and optionally specify after_id/before_id for positioning and depends_on for dependencies."@,
        Tool::EditTask => "Edit a task: change title/description/dod, set status, perform actions (complete/stop/cancel/block/unblock), add/remove dependencies (depends_on, remove_depends_on), or reorder (after, before)."@,
        Tool::Focus => "Manage focus task: set id to focus on a task, get to see current focus, clear to remove focus, next to auto-select lowest pending task, last to select most recent task."@,
        Tool::ArchiveTasks => "Archive all completed tasks. This hides them from the default task list. Returns the count of archived tasks."@,
        Tool::SplitTask => "Split a task into multiple subtasks. The original task is marked as completed and new subtasks are created with the same dependencies."@,
        Tool::AdvanceTask => "Complete the current task and start the next runnable task in one operation. Set dry_run=true to preview without executing. This validates DoD is present before completing."@,
        Tool::Artifacts => "Manage task artifacts: log to record a file as artifact, list to get artifacts for a task."@,
    }
}

impl Tool {
    /// The tool's name.
    pub fn name(&self) -> (r: &'static str)
        ensures
            r@ == tool_name(*self),
    {
        match self {
            Tool::GetTask => "get_task",
            Tool::ListTasks => "list_tasks",
            Tool::CreateTask => "create_task",
            Tool::EditTask => "edit_task",
            Tool::Focus => "focus",
            Tool::ArchiveTasks => "archive_tasks",
            Tool::SplitTask => "split_task",
            Tool::AdvanceTask => "advance_task",
            Tool::Artifacts => "artifacts",
        }
    }

    /// The tool's description.
    pub fn description(&self) -> (r: &'static str)
        ensures
            r@ == tool_description(*self),
    {
        match self {
            Tool::GetTask => "Get full details of a task. Use id=N to get a specific task, or current=true to get the active task.",
            Tool::ListTasks => "List all tasks in sorted order. By default, shows only tasks in the target subgraph. Use all=true to see all tasks. Use archived=true to see only archived tasks. Use active=true to filter to pending and in_progress tasks. Can filter by status and paginate with limit/offset.",
            Tool::CreateTask => "Creates a new task. Use title/description/dod to define the task, and optionally specify after_id/before_id for positioning and depends_on for dependencies.",
            Tool::EditTask => "Edit a task: change title/description/dod, set status, perform actions (complete/stop/cancel/block/unblock), add/remove dependencies (depends_on, remove_depends_on), or reorder (after, before).",
            Tool::Focus => "Manage focus task: set id to focus on a task, get to see current focus, clear to remove focus, next to auto-select lowest pending task, last to select most recent task.",
            Tool::ArchiveTasks => "Archive all completed tasks. This hides them from the default task list. Returns the count of archived tasks.",
            Tool::SplitTask => "Split a task into multiple subtasks. The original task is marked as completed and new subtasks are created with the same dependencies.",
            Tool::AdvanceTask => "Complete the current task and start the next runnable task in one operation. Set dry_run=true to preview without executing. This validates DoD is present before completing.",
            Tool::Artifacts => "Manage task artifacts: log to record a file as artifact, list to get artifacts for a task.",
        }
    }
}

/// Finds the tool called `name`.
pub fn find_tool(name: &str) -> (r: Option<Tool>)
    ensures
        r == tool_named(name@),
{
    if str_equals(name, "get_task") {
        Some(Tool::GetTask)
    } else if str_equals(name, "list_tasks") {
        Some(Tool::ListTasks)
    } else if str_equals(name, "create_task") {
        Some(Tool::CreateTask)
    } else if str_equals(name, "edit_task") {
        Some(Tool::EditTask)
    } else if str_equals(name, "focus") {
        Some(Tool::Focus)
    } else if str_equals(name, "archive_tasks") {
        Some(Tool::ArchiveTasks)
    } else if str_equals(name, "split_task") {
        Some(Tool::SplitTask)
    } else if str_equals(name, "advance_task") {
        Some(Tool::AdvanceTask)
    } else if str_equals(name, "artifacts") {
        Some(Tool::Artifacts)
    } else {
        None
    }
}

/// The tools the server registers, each once.
pub fn register_all_tools() -> (r: Vec<Tool>)
    ensures
        r@ == seq![
            Tool::GetTask,
            Tool::ListTasks,
            Tool::CreateTask,
            Tool::EditTask,
            Tool::Focus,
            Tool::ArchiveTasks,
            Tool::SplitTask,
            Tool::AdvanceTask,
            Tool::Artifacts,
        ],
{
    let mut v: Vec<Tool> = Vec::new();
    v.push(Tool::GetTask);
    v.push(Tool::ListTasks);
    v.push(Tool::CreateTask);
    v.push(Tool::EditTask);
    v.push(Tool::Focus);
    v.push(Tool::ArchiveTasks);
    v.push(Tool::SplitTask);
    v.push(Tool::AdvanceTask);
    v.push(Tool::Artifacts);
    v
}

/// The answer to a call of a tool that is not registered.
pub fn tool_not_found(name: &str) -> (r: McpResponse)
    ensures
        refuses(r, "ToolNotFound"@, "Tool not found: "@ + name@),
{
    let mut m = String::from_str("Tool not found: ");
    m.append(name);
    McpResponse::error("ToolNotFound", m.as_str())
}

} // verus!
