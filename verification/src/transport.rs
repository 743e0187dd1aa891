//! The MCP wire rules: what a tool answers, how a tool's error maps to a
//! JSON-RPC error code, how a request line is read, which methods the server
//! answers, and a byte buffer that collects what the server writes.
use vstd::prelude::*;
use crate::error::{error_code, error_code_from_tt, error_message, Error};
use crate::models::{Artifact, Task, TaskDetail};
use crate::store::AdvanceResult;
use crate::text::{str_equals, trim, trimmed};

verus! {

/// What a tool hands back when it succeeds.
#[derive(Debug)]
pub enum Payload {
    /// One task.
    Task(Task),
    /// Several tasks, in full.
    Tasks(Vec<Task>),
    /// Several tasks, shown without description and definition of done.
    Summaries(Vec<Task>),
    /// A task with its prerequisites, dependents and artifacts.
    Detail(TaskDetail),
    /// The task in progress and its artifacts.
    Current { task: Task, artifacts: Vec<Artifact> },
    /// One artifact.
    Artifact(Artifact),
    /// Several artifacts.
    Artifacts(Vec<Artifact>),
    /// A plain message.
    Message(String),
    /// The focus was set to `target_id`; `title` is given when the tool chose
    /// the task itself.
    FocusSet { target_id: i64, title: Option<String> },
    /// What advancing completed and started.
    Advanced { result: AdvanceResult, dry_run: bool },
    /// How many tasks were archived.
    Archived(usize),
    /// The outcome of an operation on several tasks, with the number of
    /// successes and failures.
    Bulk { succeeded: usize, failed: usize, results: Vec<Result<Task, Error>> },
    /// Dependencies were added or removed; `single` when one id was given.
    Dependencies { message: String, task_id: i64, depends_on: Vec<i64>, single: bool },
    /// A task got a new manual order key.
    Reordered { task_id: i64, new_order: u64 },
    /// A task was split into the subtasks given.
    Split { parent_id: i64, subtasks: Vec<Task> },
}

/// A tool's answer: a payload, or an error code with its message.
#[derive(Debug)]
pub enum McpResponse {
    /// The tool succeeded.
    Success { data: Payload },
    /// The tool refused the request.
    Failure { error_code: String, message: String },
}

/// `resp` is the error response with this code and message.
pub open spec fn refuses(resp: McpResponse, code: Seq<char>, message: Seq<char>) -> bool {
    resp matches McpResponse::Failure { error_code, message: m } && error_code@ == code && m@ == message
}

/// `resp` reports the tracker error `e`.
pub open spec fn reports(resp: McpResponse, e: Error) -> bool {
    refuses(resp, error_code(e), error_message(e))
}

impl McpResponse {
    /// A success response.
    pub fn ok(data: Payload) -> (r: McpResponse)
        ensures
            r == (McpResponse::Success { data: data }),
    {
        McpResponse::Success { data }
    }

    /// An error response with the given code and message.
    pub fn error(code: &str, message: &str) -> (r: McpResponse)
        ensures
            refuses(r, code@, message@),
    {
        McpResponse::Failure { error_code: String::from_str(code), message: String::from_str(message) }
    }

    /// The error response that reports a tracker error.
    pub fn from_tt_error(e: Error) -> (r: McpResponse)
        ensures
            reports(r, e),
    {
        let error_code = error_code_from_tt(&e);
        let message = e.message();
        McpResponse::Failure { error_code, message }
    }
}

/// The JSON-RPC error code under which a tool error code is sent.
pub open spec fn jsonrpc_code(code: Seq<char>) -> int {
    if code == "TaskNotFound"@ {
        -32001
    } else if code == "TaskNotPending"@ {
        -32002
    } else if code == "AnotherTaskActive"@ {
        -32003
    } else if code == "NoActiveTask"@ {
        -32004
    } else if code == "UnmetDependencies"@ {
        -32005
    } else if code == "NoDod"@ {
        -32006
    } else if code == "NoTarget"@ {
        -32007
    } else if code == "TargetReached"@ {
        -32008
    } else if code == "AllBlocked"@ {
        -32009
    } else if code == "CycleDetected"@ {
        -32010
    } else if code == "InvalidStatus"@ {
        -32011
    } else {
        -32000
    }
}

/// Maps a tool error code to its JSON-RPC error code.
pub fn jsonrpc_error_code(code: &str) -> (r: i32)
    ensures
        r == jsonrpc_code(code@),
{
    if str_equals(code, "TaskNotFound") {
        -32001
    } else if str_equals(code, "TaskNotPending") {
        -32002
    } else if str_equals(code, "AnotherTaskActive") {
        -32003
    } else if str_equals(code, "NoActiveTask") {
        -32004
    } else if str_equals(code, "UnmetDependencies") {
        -32005
    } else if str_equals(code, "NoDod") {
        -32006
    } else if str_equals(code, "NoTarget") {
        -32007
    } else if str_equals(code, "TargetReached") {
        -32008
    } else if str_equals(code, "AllBlocked") {
        -32009
    } else if str_equals(code, "CycleDetected") {
        -32010
    } else if str_equals(code, "InvalidStatus") {
        -32011
    } else {
        -32000
    }
}

/// How a response travels: an error response becomes a JSON-RPC error with
/// the mapped code and the message; a success is sent as a result (`None`).
pub fn rpc_error_of(resp: &McpResponse) -> (r: Option<(i32, String)>)
    ensures
        match resp {
            McpResponse::Success { .. } => r is None,
            McpResponse::Failure { error_code, message } => r matches Some(p) && p.0 == jsonrpc_code(
                error_code@,
            ) && p.1@ == message@,
        },
{
    match resp {
        McpResponse::Success { .. } => None,
        McpResponse::Failure { error_code, message } => {
            let code = jsonrpc_error_code(error_code.as_str());
            Some((code, message.clone()))
        },
    }
}

/// Errors of the MCP layer; outside errors are held by their messages.
#[derive(Debug)]
pub enum McpError {
    /// An input or output error.
    Io(String),
    /// The request breaks the JSON-RPC protocol.
    JsonRpc(String),
    /// A message could not be read or written as JSON.
    Serialization(String),
    /// The client asked the server to stop.
    Shutdown,
    /// The database could not be used.
    Database(String),
}

/// The message of an MCP error.
pub open spec fn mcp_error_message(e: McpError) -> Seq<char> {
    match e {
        McpError::Io(m) => "IO error: "@ + m@,
        McpError::JsonRpc(m) => "JSON-RPC error: "@ + m@,
        McpError::Serialization(m) => "Serialization error: "@ + m@,
        McpError::Shutdown => "Shutdown requested"@,
        McpError::Database(m) => "Database error: "@ + m@,
    }
}

fn prefixed(prefix: &str, m: &String) -> (r: String)
    ensures
        r@ == prefix@ + m@,
{
    let mut r = String::from_str(prefix);
    r.append(m.as_str());
    r
}

impl McpError {
    /// The message of the error.
    pub fn message(&self) -> (r: String)
        ensures
            r@ == mcp_error_message(*self),
    {
        match self {
            McpError::Io(m) => prefixed("IO error: ", m),
            McpError::JsonRpc(m) => prefixed("JSON-RPC error: ", m),
            McpError::Serialization(m) => prefixed("Serialization error: ", m),
            McpError::Shutdown => String::from_str("Shutdown requested"),
            McpError::Database(m) => prefixed("Database error: ", m),
        }
    }

    /// A tracker error seen by the MCP layer: a protocol error with the
    /// tracker's message.
    pub fn from_tt(e: &Error) -> (r: McpError)
        ensures
            r matches McpError::JsonRpc(m) && m@ == error_message(*e),
    {
        McpError::JsonRpc(e.message())
    }

    /// An MCP error seen by the tracker.
    pub fn into_tt(&self) -> (r: Error)
        ensures
            r matches Error::Mcp(m) && m@ == mcp_error_message(*self),
    {
        Error::Mcp(self.message())
    }
}

/// The request text of a line read from the client: the line without white
/// space at either end, or `None` for a blank line.
pub fn request_text(line: &str) -> (r: Option<String>)
    ensures
        trimmed(line@).len() == 0 ==> r is None,
        trimmed(line@).len() > 0 ==> (r matches Some(t) && t@ == trimmed(line@)),
{
    let t = trim(line);
    if t.unicode_len() == 0 {
        None
    } else {
        Some(t)
    }
}

/// Accepts only requests that declare JSON-RPC version 2.0.
pub fn check_jsonrpc_version(version: &str) -> (r: Result<(), McpError>)
    ensures
        version@ == "2.0"@ ==> r is Ok,
        version@ != "2.0"@ ==> (r matches Err(McpError::JsonRpc(m)) && m@
            == "Invalid JSON-RPC version. Expected '2.0'"@),
{
    if str_equals(version, "2.0") {
        Ok(())
    } else {
        Err(McpError::JsonRpc(String::from_str("Invalid JSON-RPC version. Expected '2.0'")))
    }
}

/// What the server does with a request method.
#[derive(PartialEq, Eq, Structural, Clone, Copy, Debug)]
pub enum Route {
    /// Answer with the server's capabilities.
    Initialize,
    /// A notification: no answer.
    Initialized,
    /// Answer with the list of tools.
    ToolsList,
    /// Run a tool.
    ToolsCall,
    /// Stop after answering.
    Shutdown,
    /// Answer with a "method not found" error.
    Unknown,
}

/// The route of a method name.
pub open spec fn route_of(method: Seq<char>) -> Route {
    if method == "initialize"@ {
        Route::Initialize
    } else if method == "notifications/initialized"@ {
        Route::Initialized
    } else if method == "tools/list"@ {
        Route::ToolsList
    } else if method == "tools/call"@ {
        Route::ToolsCall
    } else if method == "shutdown"@ {
        Route::Shutdown
    } else {
        Route::Unknown
    }
}

/// Routes a request method.
pub fn route(method: &str) -> (r: Route)
    ensures
        r == route_of(method@),
{
    if str_equals(method, "initialize") {
        Route::Initialize
    } else if str_equals(method, "notifications/initialized") {
        Route::Initialized
    } else if str_equals(method, "tools/list") {
        Route::ToolsList
    } else if str_equals(method, "tools/call") {
        Route::ToolsCall
    } else if str_equals(method, "shutdown") {
        Route::Shutdown
    } else {
        Route::Unknown
    }
}

/// The JSON-RPC error for a method the server does not know.
pub fn method_not_found(method: &str) -> (r: (i32, String))
    ensures
        r.0 == -32601,
        r.1@ == "Method not found: "@ + method@,
{
    let mut m = String::from_str("Method not found: ");
    m.append(method);
    (-32601, m)
}

/// What the server answers to `shutdown`.
pub fn shutdown_response() -> (r: McpResponse)
    ensures
        r matches McpResponse::Success { data: Payload::Message(m) } && m@ == "Shutting down"@,
{
    McpResponse::ok(Payload::Message(String::from_str("Shutting down")))
}

} // verus!
