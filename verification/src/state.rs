//! The task status state machine: which transitions are allowed, and the
//! checks that guard starting, completing, stopping, blocking, unblocking and
//! cancelling a task.
use vstd::prelude::*;
use crate::error::Error;
use crate::models::{Task, TaskStatus};
use crate::text::{is_blank, is_blank_str};

verus! {

/// The name that `{:?}` gives a status.
pub open spec fn status_debug(s: TaskStatus) -> Seq<char> {
    match s {
        TaskStatus::Pending => "Pending"@,
        TaskStatus::InProgress => "InProgress"@,
        TaskStatus::Completed => "Completed"@,
        TaskStatus::Blocked => "Blocked"@,
        TaskStatus::Cancelled => "Cancelled"@,
    }
}

/// The name that `{:?}` gives a status.
pub fn status_debug_name(s: TaskStatus) -> (r: &'static str)
    ensures
        r@ == status_debug(s),
{
    match s {
        TaskStatus::Pending => "Pending",
        TaskStatus::InProgress => "InProgress",
        TaskStatus::Completed => "Completed",
        TaskStatus::Blocked => "Blocked",
        TaskStatus::Cancelled => "Cancelled",
    }
}

/// The allowed status transitions. Starting a task that is already in
/// progress is allowed too, so that starting is idempotent.
pub open spec fn transition_allowed(from: TaskStatus, to: TaskStatus) -> bool {
    match (from, to) {
        (TaskStatus::Pending, TaskStatus::InProgress) => true,
        (TaskStatus::InProgress, TaskStatus::Pending) => true,
        (TaskStatus::InProgress, TaskStatus::Completed) => true,
        (TaskStatus::Pending, TaskStatus::Blocked) => true,
        (TaskStatus::InProgress, TaskStatus::Blocked) => true,
        (TaskStatus::Blocked, TaskStatus::Pending) => true,
        (TaskStatus::Pending, TaskStatus::Cancelled) => true,
        (TaskStatus::InProgress, TaskStatus::Cancelled) => true,
        (TaskStatus::InProgress, TaskStatus::InProgress) => true,
        _ => false,
    }
}

/// The refused transitions that are answered "not pending": completing a
/// task that was never started, and starting or completing a blocked task.
pub open spec fn refused_not_pending(from: TaskStatus, to: TaskStatus) -> bool {
    ||| from == TaskStatus::Pending && to == TaskStatus::Completed
    ||| from == TaskStatus::Blocked && to == TaskStatus::InProgress
    ||| from == TaskStatus::Blocked && to == TaskStatus::Completed
}

/// The error with which a refused transition of task `id` is answered.
pub open spec fn transition_refusal(from: TaskStatus, to: TaskStatus, id: i64, e: Error) -> bool {
    if refused_not_pending(from, to) {
        e matches Error::TaskNotPending(x) && x == id
    } else if from == TaskStatus::Completed {
        e matches Error::NotSupported(m) && m@ == "Completed tasks cannot change status"@
    } else if from == TaskStatus::Cancelled {
        e matches Error::NotSupported(m) && m@ == "Cancelled tasks cannot change status"@
    } else {
        e matches Error::NotSupported(m) && m@ == "Cannot transition from "@ + status_debug(from)
            + " to "@ + status_debug(to)
    }
}

/// Checks a status transition of task `task_id`.
pub fn validate_transition(from: TaskStatus, to: TaskStatus, task_id: i64) -> (r: Result<(), Error>)
    ensures
        match r {
            Ok(_) => transition_allowed(from, to),
            Err(e) => !transition_allowed(from, to) && transition_refusal(from, to, task_id, e),
        },
{
    match (from, to) {
        (TaskStatus::Pending, TaskStatus::InProgress) => Ok(()),
        (TaskStatus::InProgress, TaskStatus::Pending) => Ok(()),
        (TaskStatus::InProgress, TaskStatus::Completed) => Ok(()),
        (TaskStatus::Pending, TaskStatus::Blocked) => Ok(()),
        (TaskStatus::InProgress, TaskStatus::Blocked) => Ok(()),
        (TaskStatus::Blocked, TaskStatus::Pending) => Ok(()),
        (TaskStatus::Pending, TaskStatus::Cancelled) => Ok(()),
        (TaskStatus::InProgress, TaskStatus::Cancelled) => Ok(()),
        (TaskStatus::InProgress, TaskStatus::InProgress) => Ok(()),
        (TaskStatus::Pending, TaskStatus::Completed) => Err(Error::TaskNotPending(task_id)),
        (TaskStatus::Blocked, TaskStatus::InProgress) => Err(Error::TaskNotPending(task_id)),
        (TaskStatus::Blocked, TaskStatus::Completed) => Err(Error::TaskNotPending(task_id)),
        (TaskStatus::Completed, _) => Err(
            Error::NotSupported(String::from_str("Completed tasks cannot change status")),
        ),
        (TaskStatus::Cancelled, _) => Err(
            Error::NotSupported(String::from_str("Cancelled tasks cannot change status")),
        ),
        (from, to) => {
            let mut m = String::from_str("Cannot transition from ");
            m.append(status_debug_name(from));
            m.append(" to ");
            m.append(status_debug_name(to));
            Err(Error::NotSupported(m))
        },
    }
}

/// The outcome of starting `task` while `active` is in progress (if any) and
/// `incomplete` lists its prerequisites that are not completed.
pub open spec fn start_check(task: Task, active: Option<Task>, incomplete: Seq<i64>, r: Result<(), Error>) -> bool {
    if task.status == TaskStatus::InProgress {
        r is Ok
    } else if task.status != TaskStatus::Pending {
        r matches Err(Error::TaskNotPending(x)) && x == task.id
    } else if active is Some {
        r matches Err(Error::AnotherTaskActive(i, t)) && i == active->0.id && t@ == active->0.title@
    } else if incomplete.len() > 0 {
        r matches Err(Error::UnmetDependencies(i, v)) && i == task.id && v@ == incomplete
    } else {
        r is Ok
    }
}

/// Checks that `task` may be started: it is pending (or already in
/// progress), no other task is in progress, and its prerequisites are done.
pub fn can_start_task(task: &Task, active_task: Option<&Task>, incomplete_deps: &[i64]) -> (r: Result<(), Error>)
    ensures
        start_check(
            *task,
            match active_task {
                Some(a) => Some(*a),
                None => None,
            },
            incomplete_deps@,
            r,
        ),
{
    if task.status == TaskStatus::InProgress {
        return Ok(());
    }
    if task.status != TaskStatus::Pending {
        return Err(Error::TaskNotPending(task.id));
    }
    if let Some(active) = active_task {
        return Err(Error::AnotherTaskActive(active.id, active.title.clone()));
    }
    if incomplete_deps.len() > 0 {
        return Err(Error::UnmetDependencies(task.id, vstd::slice::slice_to_vec(incomplete_deps)));
    }
    Ok(())
}

/// Checks that `task` may be completed: it is in progress and has a
/// definition of done that is not blank.
pub fn can_complete_task(task: &Task) -> (r: Result<(), Error>)
    ensures
        task.status != TaskStatus::InProgress ==> r matches Err(Error::NoActiveTask),
        task.status == TaskStatus::InProgress && (task.dod is None || is_blank(task.dod->0@))
            ==> (r matches Err(Error::NoDod(x)) && x == task.id),
        task.status == TaskStatus::InProgress && task.dod is Some && !is_blank(task.dod->0@)
            ==> r is Ok,
{
    if task.status != TaskStatus::InProgress {
        return Err(Error::NoActiveTask);
    }
    let blank = match &task.dod {
        Some(s) => is_blank_str(s.as_str()),
        None => true,
    };
    if blank {
        return Err(Error::NoDod(task.id));
    }
    Ok(())
}

/// Checks that `task` may be stopped: it is in progress.
pub fn can_stop_task(task: &Task) -> (r: Result<(), Error>)
    ensures
        task.status == TaskStatus::InProgress ==> r is Ok,
        task.status != TaskStatus::InProgress ==> r matches Err(Error::NoActiveTask),
{
    if task.status != TaskStatus::InProgress {
        return Err(Error::NoActiveTask);
    }
    Ok(())
}

/// The refusal of an action on a task whose status does not allow it.
fn status_refusal(prefix: &str, status: TaskStatus) -> (e: Error)
    ensures
        e matches Error::NotSupported(m) && m@ == prefix@ + status_debug(status),
{
    let mut m = String::from_str(prefix);
    m.append(status_debug_name(status));
    Error::NotSupported(m)
}

/// Checks that `task` may be blocked: it is pending or in progress.
pub fn can_block_task(task: &Task) -> (r: Result<(), Error>)
    ensures
        task.status == TaskStatus::Pending || task.status == TaskStatus::InProgress ==> r is Ok,
        !(task.status == TaskStatus::Pending || task.status == TaskStatus::InProgress) ==> (r matches Err(
            Error::NotSupported(m),
        ) && m@ == "Cannot block task with status "@ + status_debug(task.status)),
{
    if !task.status.can_block() {
        return Err(status_refusal("Cannot block task with status ", task.status));
    }
    Ok(())
}

/// Checks that `task` may be unblocked: it is blocked.
pub fn can_unblock_task(task: &Task) -> (r: Result<(), Error>)
    ensures
        task.status == TaskStatus::Blocked ==> r is Ok,
        task.status != TaskStatus::Blocked ==> (r matches Err(Error::NotSupported(m)) && m@
            == "Cannot unblock task with status "@ + status_debug(task.status)),
{
    if !task.status.can_unblock() {
        return Err(status_refusal("Cannot unblock task with status ", task.status));
    }
    Ok(())
}

/// Checks that `task` may be cancelled: it is pending, in progress or
/// blocked.
pub fn can_cancel_task(task: &Task) -> (r: Result<(), Error>)
    ensures
        task.status == TaskStatus::Pending || task.status == TaskStatus::InProgress || task.status
            == TaskStatus::Blocked ==> r is Ok,
        !(task.status == TaskStatus::Pending || task.status == TaskStatus::InProgress
            || task.status == TaskStatus::Blocked) ==> (r matches Err(Error::NotSupported(m)) && m@
            == "Cannot cancel task with status "@ + status_debug(task.status)),
{
    if !task.status.can_cancel() {
        return Err(status_refusal("Cannot cancel task with status ", task.status));
    }
    Ok(())
}

/// The status after a transition: the target status.
pub fn transition_status(_current: TaskStatus, target: TaskStatus) -> (r: TaskStatus)
    ensures
        r == target,
{
    target
}

} // verus!
