//! The tracker's error type, its stable error codes and its messages.
use vstd::prelude::*;
use crate::text::{decimal, id_list, int_to_string, render_id_list};

verus! {

/// Everything that can go wrong in the tracker.
#[derive(Debug)]
pub enum Error {
    /// No (live) task has this id.
    TaskNotFound(i64),
    /// The task is not pending.
    TaskNotPending(i64),
    /// Another task (id, title) is in progress.
    AnotherTaskActive(i64, String),
    /// No task is in progress.
    NoActiveTask,
    /// The task's prerequisites that are not completed.
    UnmetDependencies(i64, Vec<i64>),
    /// Adding the edge (from, to) would close the cycle given.
    CycleDetected(i64, i64, Vec<i64>),
    /// No focus task is set.
    NoTarget,
    /// Every task the focus needs is completed.
    TargetReached(i64),
    /// The task has no definition of done.
    NoDod(i64),
    /// A status name that is not known.
    InvalidStatus(String),
    /// Every remaining task of the focus is blocked.
    AllBlocked(Vec<i64>),
    /// A storage constraint was violated.
    Db(String),
    /// A file system error.
    Io(String),
    /// A JSON-RPC protocol error.
    JsonRpc(String),
    /// The operation is not supported in the current state.
    NotSupported(String),
    /// Two manual orders are too close for a midpoint.
    FloatPrecisionExhausted,
    /// An MCP protocol error.
    Mcp(String),
    /// An argument is not valid.
    InvalidArgument(String),
}

/// The stable code of each error, used by MCP clients: the name of its variant.
pub open spec fn error_code(e: Error) -> Seq<char> {
    match e {
        Error::TaskNotFound(_) => "TaskNotFound"@,
        Error::TaskNotPending(_) => "TaskNotPending"@,
        Error::AnotherTaskActive(_, _) => "AnotherTaskActive"@,
        Error::NoActiveTask => "NoActiveTask"@,
        Error::UnmetDependencies(_, _) => "UnmetDependencies"@,
        Error::CycleDetected(_, _, _) => "CycleDetected"@,
        Error::NoTarget => "NoTarget"@,
        Error::TargetReached(_) => "TargetReached"@,
        Error::NoDod(_) => "NoDod"@,
        Error::AllBlocked(_) => "AllBlocked"@,
        Error::InvalidStatus(_) => "InvalidStatus"@,
        Error::FloatPrecisionExhausted => "FloatPrecisionExhausted"@,
        Error::Db(_) => "Db"@,
        Error::Io(_) => "Io"@,
        Error::JsonRpc(_) => "JsonRpc"@,
        Error::NotSupported(_) => "NotSupported"@,
        Error::Mcp(_) => "Mcp"@,
        Error::InvalidArgument(_) => "InvalidArgument"@,
    }
}

/// The human-readable message of each error.
pub open spec fn error_message(e: Error) -> Seq<char> {
    match e {
        Error::TaskNotFound(id) => "Task #"@ + decimal(id as int) + " not found"@,
        Error::TaskNotPending(id) => "Task #"@ + decimal(id as int) + " is not pending, cannot start"@,
        Error::AnotherTaskActive(id, _) => "Task #"@ + decimal(id as int)
            + " is already in progress. Finish or stop it first."@,
        Error::NoActiveTask => "No task is currently in progress"@,
        Error::UnmetDependencies(id, deps) => "Cannot start #"@ + decimal(id as int)
            + ": dependencies not completed: "@ + id_list(deps@),
        Error::CycleDetected(from, to, path) => "Adding #"@ + decimal(from as int) + " -> #"@
            + decimal(to as int) + " would create a cycle: "@ + id_list(path@),
        Error::NoTarget => "No target set. Use `tt target <id>` first."@,
        Error::TargetReached(id) => "Target reached. All tasks for #"@ + decimal(id as int)
            + " are completed."@,
        Error::NoDod(id) => "Task #"@ + decimal(id as int)
            + " has no definition of done. Set one with `tt edit "@ + decimal(id as int)
            + " --dod`"@,
        Error::InvalidStatus(s) => "Invalid status: "@ + s@,
        Error::AllBlocked(ids) => "All remaining tasks are blocked: "@ + id_list(ids@),
        Error::Db(s) => "Database error: "@ + s@,
        Error::Io(s) => "IO error: "@ + s@,
        Error::JsonRpc(s) => "JSON-RPC error: "@ + s@,
        Error::NotSupported(s) => "Not supported: "@ + s@,
        Error::FloatPrecisionExhausted => "Float precision exhausted. Run `tt reindex` to reset ordering."@,
        Error::Mcp(s) => "MCP error: "@ + s@,
        Error::InvalidArgument(s) => "Invalid argument: "@ + s@,
    }
}

/// Maps an error to its stable code.
pub fn error_code_from_tt(e: &Error) -> (r: String)
    ensures
        r@ == error_code(*e),
{
    let s = match e {
        Error::TaskNotFound(_) => "TaskNotFound",
        Error::TaskNotPending(_) => "TaskNotPending",
        Error::AnotherTaskActive(_, _) => "AnotherTaskActive",
        Error::NoActiveTask => "NoActiveTask",
        Error::UnmetDependencies(_, _) => "UnmetDependencies",
        Error::CycleDetected(_, _, _) => "CycleDetected",
        Error::NoTarget => "NoTarget",
        Error::TargetReached(_) => "TargetReached",
        Error::NoDod(_) => "NoDod",
        Error::AllBlocked(_) => "AllBlocked",
        Error::InvalidStatus(_) => "InvalidStatus",
        Error::FloatPrecisionExhausted => "FloatPrecisionExhausted",
        Error::Db(_) => "Db",
        Error::Io(_) => "Io",
        Error::JsonRpc(_) => "JsonRpc",
        Error::NotSupported(_) => "NotSupported",
        Error::Mcp(_) => "Mcp",
        Error::InvalidArgument(_) => "InvalidArgument",
    };
    String::from_str(s)
}

fn concat2(a: &str, b: &str) -> (r: String)
    ensures
        r@ == a@ + b@,
{
    let mut r = String::from_str(a);
    r.append(b);
    r
}

fn concat3(a: &str, b: &str, c: &str) -> (r: String)
    ensures
        r@ == a@ + b@ + c@,
{
    let mut r = String::from_str(a);
    r.append(b);
    r.append(c);
    r
}

impl Error {
    /// The human-readable message of the error.
    pub fn message(&self) -> (r: String)
        ensures
            r@ == error_message(*self),
    {
        match self {
            Error::TaskNotFound(id) => {
                let d = int_to_string(*id);
                concat3("Task #", d.as_str(), " not found")
            },
            Error::TaskNotPending(id) => {
                let d = int_to_string(*id);
                concat3("Task #", d.as_str(), " is not pending, cannot start")
            },
            Error::AnotherTaskActive(id, _) => {
                let d = int_to_string(*id);
                concat3("Task #", d.as_str(), " is already in progress. Finish or stop it first.")
            },
            Error::NoActiveTask => String::from_str("No task is currently in progress"),
            Error::UnmetDependencies(id, deps) => {
                let d = int_to_string(*id);
                let mut r = concat3("Cannot start #", d.as_str(), ": dependencies not completed: ");
                let l = render_id_list(deps);
                r.append(l.as_str());
                r
            },
            Error::CycleDetected(from, to, path) => {
                let a = int_to_string(*from);
                let b = int_to_string(*to);
                let mut r = concat3("Adding #", a.as_str(), " -> #");
                r.append(b.as_str());
                r.append(" would create a cycle: ");
                let l = render_id_list(path);
                r.append(l.as_str());
                r
            },
            Error::NoTarget => String::from_str("No target set. Use `tt target <id>` first."),
            Error::TargetReached(id) => {
                let d = int_to_string(*id);
                concat3("Target reached. All tasks for #", d.as_str(), " are completed.")
            },
            Error::NoDod(id) => {
                let d = int_to_string(*id);
                let mut r = concat3(
                    "Task #",
                    d.as_str(),
                    " has no definition of done. Set one with `tt edit ",
                );
                r.append(d.as_str());
                r.append(" --dod`");
                r
            },
            Error::InvalidStatus(s) => concat2("Invalid status: ", s.as_str()),
            Error::AllBlocked(ids) => {
                let l = render_id_list(ids);
                concat2("All remaining tasks are blocked: ", l.as_str())
            },
            Error::Db(s) => concat2("Database error: ", s.as_str()),
            Error::Io(s) => concat2("IO error: ", s.as_str()),
            Error::JsonRpc(s) => concat2("JSON-RPC error: ", s.as_str()),
            Error::NotSupported(s) => concat2("Not supported: ", s.as_str()),
            Error::FloatPrecisionExhausted => String::from_str(
                "Float precision exhausted. Run `tt reindex` to reset ordering.",
            ),
            Error::Mcp(s) => concat2("MCP error: ", s.as_str()),
            Error::InvalidArgument(s) => concat2("Invalid argument: ", s.as_str()),
        }
    }
}

} // verus!
