//! The command line's vocabulary: its commands, the words it accepts for a
//! status, how `split` reads its arguments, and where files live.
use vstd::prelude::*;
use crate::error::Error;
use crate::models::TaskStatus;
use crate::text::{lowercase, to_lowercase};

verus! {

/// The commands of the command line.
#[derive(Debug)]
#[allow(inconsistent_fields)]
pub enum Commands {
    /// Initialize a new project.
    Init,
    /// Add a new task.
    Add { title: String, description: String, dod: String, after: Option<i64>, before: Option<i64>, depends_on: Vec<i64> },
    /// Edit a task.
    Edit { id: i64, title: Option<String>, desc: Option<String>, dod: Option<String>, status: Option<String>, action: Option<String> },
    /// Show one or more tasks.
    Show { ids: Vec<i64> },
    /// List tasks.
    List { all: bool, archived: bool, status: Option<String>, limit: Option<usize>, offset: Option<usize> },
    /// Focus operations.
    Focus { action: FocusCommand },
    /// Show the next task.
    Next,
    /// Complete the current task and start the next.
    Advance { dry_run: bool },
    /// Show the task in progress.
    Current,
    /// Add or remove dependencies.
    Depend { id: i64, on_ids: Vec<i64>, remove: bool },
    /// Log an artifact for the task in progress.
    Log { name: String, file: String },
    /// List artifacts.
    Artifacts { task: Option<i64> },
    /// Move a task in the manual order.
    Reorder { id: i64, after: Option<i64>, before: Option<i64> },
    /// Renumber the manual orders.
    Reindex,
    /// Split a task into subtasks.
    Split { id: i64, parts: Vec<String> },
    /// Archive tasks.
    Archive { action: ArchiveCommand },
    /// Run the MCP server.
    Mcp,
    /// Install the MCP server into a coding tool.
    Install { tool: Option<InstallTool>, global: bool, local: bool },
    /// Write the data to a TOML file.
    Dump { file: String },
    /// Read the data back from a TOML file.
    Restore { file: String },
}

/// The coding tools the MCP server can be installed into.
#[derive(PartialEq, Eq, Structural, Clone, Copy, Debug)]
pub enum InstallTool {
    Kilo,
    Kimi,
}

/// Archive subcommands.
#[derive(PartialEq, Eq, Structural, Clone, Copy, Debug)]
pub enum ArchiveCommand {
    /// Archive every completed or cancelled task.
    All,
}

/// Focus subcommands.
#[derive(PartialEq, Eq, Structural, Clone, Copy, Debug)]
pub enum FocusCommand {
    /// Show the focus.
    Show,
    /// Set the focus to a task.
    SetTo { id: i64 },
    /// Clear the focus.
    Clear,
    /// Focus on the pending task lowest in manual order.
    Next,
    /// Focus on the task with the highest id.
    Last,
}

/// The status that a lower-case word names; `cancelled` only when
/// `with_cancelled`.
pub open spec fn status_of_word(w: Seq<char>, with_cancelled: bool) -> Option<TaskStatus> {
    if w == "pending"@ {
        Some(TaskStatus::Pending)
    } else if w == "in_progress"@ {
        Some(TaskStatus::InProgress)
    } else if w == "completed"@ {
        Some(TaskStatus::Completed)
    } else if w == "blocked"@ {
        Some(TaskStatus::Blocked)
    } else if with_cancelled && w == "cancelled"@ {
        Some(TaskStatus::Cancelled)
    } else {
        None
    }
}

/// The status that the lower-case word `w` names.
pub fn status_from_word(w: &str, with_cancelled: bool) -> (r: Option<TaskStatus>)
    ensures
        r == status_of_word(w@, with_cancelled),
{
    if crate::text::str_equals(w, "pending") {
        Some(TaskStatus::Pending)
    } else if crate::text::str_equals(w, "in_progress") {
        Some(TaskStatus::InProgress)
    } else if crate::text::str_equals(w, "completed") {
        Some(TaskStatus::Completed)
    } else if crate::text::str_equals(w, "blocked") {
        Some(TaskStatus::Blocked)
    } else if with_cancelled && crate::text::str_equals(w, "cancelled") {
        Some(TaskStatus::Cancelled)
    } else {
        None
    }
}

/// Reads a status filter (pending, in_progress, completed, blocked), in any
/// case; anything else is an `InvalidStatus` holding the word as given.
pub fn parse_status(s: &str) -> (r: Result<TaskStatus, Error>)
    ensures
        match status_of_word(lowercase(s@), false) {
            Some(st) => r == Ok::<TaskStatus, Error>(st),
            None => r matches Err(Error::InvalidStatus(m)) && m@ == s@,
        },
{
    let l = to_lowercase(s);
    match status_from_word(l.as_str(), false) {
        Some(st) => Ok(st),
        None => Err(Error::InvalidStatus(String::from_str(s))),
    }
}

/// Reads a status to set (pending, in_progress, completed, blocked,
/// cancelled), in any case; anything else is an `InvalidStatus` holding the
/// word as given.
pub fn parse_edit_status(s: &str) -> (r: Result<TaskStatus, Error>)
    ensures
        match status_of_word(lowercase(s@), true) {
            Some(st) => r == Ok::<TaskStatus, Error>(st),
            None => r matches Err(Error::InvalidStatus(m)) && m@ == s@,
        },
{
    let l = to_lowercase(s);
    match status_from_word(l.as_str(), true) {
        Some(st) => Ok(st),
        None => Err(Error::InvalidStatus(String::from_str(s))),
    }
}

/// Groups `split` arguments as (title, description, definition of done):
/// their number must be a positive multiple of three.
pub fn parse_split_parts(parts: &Vec<String>) -> (r: Result<Vec<(String, String, String)>, Error>)
    ensures
        parts@.len() % 3 != 0 ==> (r matches Err(Error::InvalidArgument(m)) && m@
            == "Arguments must be in groups of 3 (title, description, dod)"@),
        parts@.len() == 0 ==> (r matches Err(Error::InvalidArgument(m)) && m@
            == "At least one subtask definition is required"@),
        parts@.len() % 3 == 0 && parts@.len() > 0 ==> (r matches Ok(v) && v@.len() == parts@.len() / 3 && forall|i: int|
            0 <= i < v@.len() ==> (#[trigger] v@[i]).0 == parts@[3 * i] && v@[i].1 == parts@[3 * i + 1] && v@[i].2
                == parts@[3 * i + 2]),
{
    if parts.len() % 3 != 0 {
        return Err(Error::InvalidArgument(String::from_str("Arguments must be in groups of 3 (title, description, dod)")));
    }
    let n = parts.len() / 3;
    if n == 0 {
        return Err(Error::InvalidArgument(String::from_str("At least one subtask definition is required")));
    }
    let mut out: Vec<(String, String, String)> = Vec::new();
    let mut i: usize = 0;
    let mut k: usize = 0;
    assert(parts@.len() == 3 * n) by (nonlinear_arith)
        requires
            n == parts@.len() / 3,
            parts@.len() % 3 == 0,
    ;
    while i < n
        invariant
            parts@.len() == 3 * n,
            i <= n,
            k == 3 * i,
            out@.len() == i,
            forall|q: int| 0 <= q < i ==> (#[trigger] out@[q]).0 == parts@[3 * q] && out@[q].1 == parts@[3 * q + 1] && out@[q].2 == parts@[3 * q + 2],
        decreases n - i,
    {
        assert(k + 3 <= parts@.len()) by (nonlinear_arith)
            requires
                k == 3 * i,
                i < n,
                parts@.len() == 3 * n,
        ;
        let len = parts.len();
        assert(k + 3 <= len);
        let k1: usize = k + 1;
        let k2: usize = k + 2;
        out.push((parts[k].clone(), parts[k1].clone(), parts[k2].clone()));
        i = i + 1;
        k = k + 3;
    }
    Ok(out)
}

/// The project directory, relative to where the tracker runs.
pub fn get_tt_dir() -> (r: String)
    ensures
        r@ == ".tt"@,
{
    String::from_str(".tt")
}

/// The database file, relative to where the tracker runs.
pub fn get_db_path() -> (r: String)
    ensures
        r@ == ".tt/tt.db"@,
{
    String::from_str(".tt/tt.db")
}

/// The artifacts directory beside a database file found at `db_dir`.
pub fn get_artifacts_dir(db_dir: &str) -> (r: String)
    ensures
        r@ == db_dir@ + "/artifacts"@,
{
    let mut r = String::from_str(db_dir);
    r.append("/artifacts");
    r
}

/// The handler that runs a command.
#[derive(PartialEq, Eq, Structural, Clone, Copy, Debug)]
pub enum Handler {
    Init,
    Add,
    Edit,
    Show,
    List,
    FocusShow,
    FocusSet,
    FocusClear,
    FocusNext,
    FocusLast,
    Next,
    Advance,
    Current,
    Depend,
    Log,
    Artifacts,
    Reorder,
    Reindex,
    Split,
    ArchiveAll,
    Mcp,
    Install,
    Dump,
    Restore,
}

/// The handler of each command.
pub open spec fn handler_of(cmd: Commands) -> Handler {
    match cmd {
        Commands::Init => Handler::Init,
        Commands::Add { .. } => Handler::Add,
        Commands::Edit { .. } => Handler::Edit,
        Commands::Show { .. } => Handler::Show,
        Commands::List { .. } => Handler::List,
        Commands::Focus { action } => match action {
            FocusCommand::Show => Handler::FocusShow,
            FocusCommand::SetTo { .. } => Handler::FocusSet,
            FocusCommand::Clear => Handler::FocusClear,
            FocusCommand::Next => Handler::FocusNext,
            FocusCommand::Last => Handler::FocusLast,
        },
        Commands::Next => Handler::Next,
        Commands::Advance { .. } => Handler::Advance,
        Commands::Current => Handler::Current,
        Commands::Depend { .. } => Handler::Depend,
        Commands::Log { .. } => Handler::Log,
        Commands::Artifacts { .. } => Handler::Artifacts,
        Commands::Reorder { .. } => Handler::Reorder,
        Commands::Reindex => Handler::Reindex,
        Commands::Split { .. } => Handler::Split,
        Commands::Archive { action } => match action {
            ArchiveCommand::All => Handler::ArchiveAll,
        },
        Commands::Mcp => Handler::Mcp,
        Commands::Install { .. } => Handler::Install,
        Commands::Dump { .. } => Handler::Dump,
        Commands::Restore { .. } => Handler::Restore,
    }
}

/// Handlers other than `init`, `mcp` and `install` work on the project's
/// database, which must exist.
pub open spec fn needs_database(h: Handler) -> bool {
    !(h == Handler::Init || h == Handler::Mcp || h == Handler::Install)
}

impl Handler {
    /// Whether the handler works on the project's database.
    pub fn needs_database(&self) -> (r: bool)
        ensures
            r == needs_database(*self),
    {
        match self {
            Handler::Init | Handler::Mcp | Handler::Install => false,
            _ => true,
        }
    }
}

/// Routes a command to its handler.
pub fn dispatch(cmd: &Commands) -> (r: Handler)
    ensures
        r == handler_of(*cmd),
{
    match cmd {
        Commands::Init => Handler::Init,
        Commands::Add { .. } => Handler::Add,
        Commands::Edit { .. } => Handler::Edit,
        Commands::Show { .. } => Handler::Show,
        Commands::List { .. } => Handler::List,
        Commands::Focus { action } => match action {
            FocusCommand::Show => Handler::FocusShow,
            FocusCommand::SetTo { .. } => Handler::FocusSet,
            FocusCommand::Clear => Handler::FocusClear,
            FocusCommand::Next => Handler::FocusNext,
            FocusCommand::Last => Handler::FocusLast,
        },
        Commands::Next => Handler::Next,
        Commands::Advance { .. } => Handler::Advance,
        Commands::Current => Handler::Current,
        Commands::Depend { .. } => Handler::Depend,
        Commands::Log { .. } => Handler::Log,
        Commands::Artifacts { .. } => Handler::Artifacts,
        Commands::Reorder { .. } => Handler::Reorder,
        Commands::Reindex => Handler::Reindex,
        Commands::Split { .. } => Handler::Split,
        Commands::Archive { action } => match action {
            ArchiveCommand::All => Handler::ArchiveAll,
        },
        Commands::Mcp => Handler::Mcp,
        Commands::Install { .. } => Handler::Install,
        Commands::Dump { .. } => Handler::Dump,
        Commands::Restore { .. } => Handler::Restore,
    }
}

} // verus!
