//! The data model: task status, tasks, dependency edges, artifacts.
//!
//! A task's manual order is a floating-point value outside this library; here
//! it is held as an *order key*, a `u64` whose integer order is the order of
//! the floating-point values it stands for (see `ordering`).
use vstd::prelude::*;
use crate::error::Error;
use crate::text::str_equals;

verus! {

/// Status of a task.
#[derive(PartialEq, Eq, Structural, Clone, Copy, Debug)]
pub enum TaskStatus {
    /// Waiting to be started.
    Pending,
    /// Currently being worked on.
    InProgress,
    /// Done.
    Completed,
    /// Blocked and cannot be started.
    Blocked,
    /// Abandoned.
    Cancelled,
}

/// The name under which a status is stored.
pub open spec fn status_name(s: TaskStatus) -> Seq<char> {
    match s {
        TaskStatus::Pending => "pending"@,
        TaskStatus::InProgress => "in_progress"@,
        TaskStatus::Completed => "completed"@,
        TaskStatus::Blocked => "blocked"@,
        TaskStatus::Cancelled => "cancelled"@,
    }
}

/// The status whose stored name is `s`, if any.
pub open spec fn status_from_name(s: Seq<char>) -> Option<TaskStatus> {
    if s == "pending"@ {
        Some(TaskStatus::Pending)
    } else if s == "in_progress"@ {
        Some(TaskStatus::InProgress)
    } else if s == "completed"@ {
        Some(TaskStatus::Completed)
    } else if s == "blocked"@ {
        Some(TaskStatus::Blocked)
    } else if s == "cancelled"@ {
        Some(TaskStatus::Cancelled)
    } else {
        None
    }
}

/// The character that shows a status in listings.
pub open spec fn status_char(s: TaskStatus) -> char {
    match s {
        TaskStatus::Pending => '○',
        TaskStatus::InProgress => '●',
        TaskStatus::Completed => '✓',
        TaskStatus::Blocked => '✗',
        TaskStatus::Cancelled => '✕',
    }
}

impl TaskStatus {
    /// Parses a stored status name.
    pub fn from_db(s: &str) -> (r: Result<TaskStatus, Error>)
        ensures
            match status_from_name(s@) {
                Some(st) => r == Ok::<TaskStatus, Error>(st),
                None => r matches Err(Error::InvalidStatus(m)) && m@ == s@,
            },
    {
        if str_equals(s, "pending") {
            Ok(TaskStatus::Pending)
        } else if str_equals(s, "in_progress") {
            Ok(TaskStatus::InProgress)
        } else if str_equals(s, "completed") {
            Ok(TaskStatus::Completed)
        } else if str_equals(s, "blocked") {
            Ok(TaskStatus::Blocked)
        } else if str_equals(s, "cancelled") {
            Ok(TaskStatus::Cancelled)
        } else {
            Err(Error::InvalidStatus(String::from_str(s)))
        }
    }

    /// The stored name of the status.
    pub fn to_db(&self) -> (r: &'static str)
        ensures
            r@ == status_name(*self),
    {
        match self {
            TaskStatus::Pending => "pending",
            TaskStatus::InProgress => "in_progress",
            TaskStatus::Completed => "completed",
            TaskStatus::Blocked => "blocked",
            TaskStatus::Cancelled => "cancelled",
        }
    }

    /// Whether a task in this status may be started.
    pub fn can_start(&self) -> (r: bool)
        ensures
            r == (*self == TaskStatus::Pending),
    {
        matches!(self, TaskStatus::Pending)
    }

    /// Whether a task in this status may be blocked.
    pub fn can_block(&self) -> (r: bool)
        ensures
            r == (*self == TaskStatus::Pending || *self == TaskStatus::InProgress),
    {
        matches!(self, TaskStatus::Pending | TaskStatus::InProgress)
    }

    /// Whether a task in this status may be unblocked.
    pub fn can_unblock(&self) -> (r: bool)
        ensures
            r == (*self == TaskStatus::Blocked),
    {
        matches!(self, TaskStatus::Blocked)
    }

    /// Whether a task in this status may be cancelled.
    pub fn can_cancel(&self) -> (r: bool)
        ensures
            r == (*self == TaskStatus::Pending || *self == TaskStatus::InProgress || *self
                == TaskStatus::Blocked),
    {
        matches!(self, TaskStatus::Pending | TaskStatus::InProgress | TaskStatus::Blocked)
    }

    /// The character that shows the status in listings.
    pub fn display_char(&self) -> (c: char)
        ensures
            c == status_char(*self),
    {
        match self {
            TaskStatus::Pending => '○',
            TaskStatus::InProgress => '●',
            TaskStatus::Completed => '✓',
            TaskStatus::Blocked => '✗',
            TaskStatus::Cancelled => '✕',
        }
    }
}

/// An action that `edit` may apply to a task.
#[derive(PartialEq, Eq, Structural, Clone, Copy, Debug)]
pub enum EditAction {
    Complete,
    Stop,
    Cancel,
    Block,
    Unblock,
}

/// The action whose name is `s`, if any.
pub open spec fn action_from_name(s: Seq<char>) -> Option<EditAction> {
    if s == "complete"@ {
        Some(EditAction::Complete)
    } else if s == "stop"@ {
        Some(EditAction::Stop)
    } else if s == "cancel"@ {
        Some(EditAction::Cancel)
    } else if s == "block"@ {
        Some(EditAction::Block)
    } else if s == "unblock"@ {
        Some(EditAction::Unblock)
    } else {
        None
    }
}

impl EditAction {
    /// Parses an action name.
    pub fn from_name(s: &str) -> (r: Result<EditAction, Error>)
        ensures
            match action_from_name(s@) {
                Some(a) => r == Ok::<EditAction, Error>(a),
                None => r matches Err(Error::InvalidArgument(m)) && m@ == "Invalid action: "@ + s@,
            },
    {
        if str_equals(s, "complete") {
            Ok(EditAction::Complete)
        } else if str_equals(s, "stop") {
            Ok(EditAction::Stop)
        } else if str_equals(s, "cancel") {
            Ok(EditAction::Cancel)
        } else if str_equals(s, "block") {
            Ok(EditAction::Block)
        } else if str_equals(s, "unblock") {
            Ok(EditAction::Unblock)
        } else {
            let mut m = String::from_str("Invalid action: ");
            m.append(s);
            Err(Error::InvalidArgument(m))
        }
    }
}

/// A task row.
#[derive(Debug)]
pub struct Task {
    pub id: i64,
    pub title: String,
    pub description: Option<String>,
    pub dod: Option<String>,
    pub status: TaskStatus,
    /// Order key of the task's manual order.
    pub manual_order: u64,
    pub created_at: String,
    pub started_at: Option<String>,
    pub completed_at: Option<String>,
    pub last_touched_at: String,
    /// Soft-delete (archive) flag.
    pub deleted: bool,
}

pub fn clone_opt_string(s: &Option<String>) -> (r: Option<String>)
    ensures
        r == *s,
{
    match s {
        Some(x) => Some(x.clone()),
        None => None,
    }
}

impl Clone for Task {
    fn clone(&self) -> (r: Self)
        ensures
            r == *self,
    {
        Task {
            id: self.id,
            title: self.title.clone(),
            description: clone_opt_string(&self.description),
            dod: clone_opt_string(&self.dod),
            status: self.status,
            manual_order: self.manual_order,
            created_at: self.created_at.clone(),
            started_at: clone_opt_string(&self.started_at),
            completed_at: clone_opt_string(&self.completed_at),
            last_touched_at: self.last_touched_at.clone(),
            deleted: self.deleted,
        }
    }
}

/// A dependency edge: `task_id` depends on `depends_on`.
#[derive(PartialEq, Eq, Structural, Clone, Copy, Debug)]
pub struct Dependency {
    pub task_id: i64,
    pub depends_on: i64,
}

/// A file linked to a task.
#[derive(Debug)]
pub struct Artifact {
    pub id: i64,
    pub task_id: i64,
    pub name: String,
    pub file_path: String,
    pub created_at: String,
}

impl Clone for Artifact {
    fn clone(&self) -> (r: Self)
        ensures
            r == *self,
    {
        Artifact {
            id: self.id,
            task_id: self.task_id,
            name: self.name.clone(),
            file_path: self.file_path.clone(),
            created_at: self.created_at.clone(),
        }
    }
}

/// A task with its prerequisites, dependents and artifacts.
#[derive(Debug)]
pub struct TaskDetail {
    pub task: Task,
    pub dependencies: Vec<Task>,
    pub dependents: Vec<Task>,
    pub artifacts: Vec<Artifact>,
}

} // verus!
