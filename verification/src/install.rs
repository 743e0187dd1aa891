//! Installing the tracker as an MCP server into a coding tool: what to do
//! for the options given, and where each tool keeps its configuration.
use vstd::prelude::*;
use crate::cli::InstallTool;
use crate::error::Error;

verus! {

/// The MCP server entry of a tool that starts it as a process.
#[derive(Debug)]
pub struct StdioServer {
    pub command: String,
    pub args: Vec<String>,
    pub env: Vec<(String, String)>,
}

/// The MCP server entry of a tool that reaches it over HTTP.
#[derive(Debug)]
pub struct HttpServer {
    pub url: String,
    pub headers: Vec<(String, String)>,
}

/// What the install command does.
#[derive(PartialEq, Eq, Structural, Clone, Copy, Debug)]
pub enum InstallPlan {
    /// Print the tools and the usage.
    GenericInfo,
    /// Print how to install for this tool.
    ToolInfo(InstallTool),
    /// Write the configuration of this tool, globally (in the home
    /// directory) or locally.
    Install(InstallTool, bool),
}

/// Where a configuration file lives.
#[derive(Clone, Copy, Debug)]
pub enum ConfigLocation {
    /// This path under the home directory.
    Home(&'static str),
    /// This path under the current directory.
    Local(&'static str),
}

/// The path of the configuration file of `tool`: under the home directory
/// when `global`, else under the current directory.
pub open spec fn config_path(tool: InstallTool, global: bool) -> Seq<char> {
    match (tool, global) {
        (InstallTool::Kilo, true) => ".kilocode/cli/global/settings/mcp_settings.json"@,
        (InstallTool::Kilo, false) => ".kilocode/mcp.json"@,
        (InstallTool::Kimi, true) => ".kimi/mcp.json"@,
        (InstallTool::Kimi, false) => ".mcp.json"@,
    }
}

/// Decides what to do: with no tool, print the usage; with a tool and no
/// scope, print that tool's instructions; with a scope, install.
pub fn run(tool: Option<InstallTool>, global: bool, local: bool) -> (r: Result<InstallPlan, Error>)
    ensures
        match tool {
            None => r == Ok::<InstallPlan, Error>(InstallPlan::GenericInfo),
            Some(t) => if !global && !local {
                r == Ok::<InstallPlan, Error>(InstallPlan::ToolInfo(t))
            } else if global && local {
                r matches Err(Error::InvalidArgument(m)) && m@ == "Cannot specify both --global and --local"@
            } else {
                r == Ok::<InstallPlan, Error>(InstallPlan::Install(t, global))
            },
        },
{
    match tool {
        None => Ok(InstallPlan::GenericInfo),
        Some(t) => {
            if global || local {
                install_for_tool(t, global, local)
            } else {
                Ok(InstallPlan::ToolInfo(t))
            }
        },
    }
}

/// Installs for `tool` in one scope; both scopes at once are refused.
pub fn install_for_tool(tool: InstallTool, global: bool, local: bool) -> (r: Result<InstallPlan, Error>)
    ensures
        global && local ==> (r matches Err(Error::InvalidArgument(m)) && m@ == "Cannot specify both --global and --local"@),
        !(global && local) ==> r == Ok::<InstallPlan, Error>(InstallPlan::Install(tool, global)),
{
    if global && local {
        return Err(Error::InvalidArgument(String::from_str("Cannot specify both --global and --local")));
    }
    Ok(InstallPlan::Install(tool, global))
}

/// The configuration file of `tool`, global or local.
pub fn config_location(tool: InstallTool, global: bool) -> (r: ConfigLocation)
    ensures
        match r {
            ConfigLocation::Home(p) => global && p@ == config_path(tool, true),
            ConfigLocation::Local(p) => !global && p@ == config_path(tool, false),
        },
{
    match (tool, global) {
        (InstallTool::Kilo, true) => ConfigLocation::Home(".kilocode/cli/global/settings/mcp_settings.json"),
        (InstallTool::Kilo, false) => ConfigLocation::Local(".kilocode/mcp.json"),
        (InstallTool::Kimi, true) => ConfigLocation::Home(".kimi/mcp.json"),
        (InstallTool::Kimi, false) => ConfigLocation::Local(".mcp.json"),
    }
}

/// The name of `tool`, where its configuration lives, and how its own
/// command line adds a server.
pub fn tool_info(tool: InstallTool) -> (r: (&'static str, &'static str, &'static str))
    ensures
        tool == InstallTool::Kilo ==> r.0@ == "Kilo CLI"@
            && r.1@ == "~/.kilocode/cli/global/settings/mcp_settings.json or .kilocode/mcp.json"@
            && r.2@ == "N/A (edit config file manually)"@,
        tool == InstallTool::Kimi ==> r.0@ == "Kimi CLI"@ && r.1@ == "~/.kimi/mcp.json or .mcp.json"@
            && r.2@ == "kimi mcp add --transport stdio tt -- <path-to-tt> mcp"@,
{
    match tool {
        InstallTool::Kilo => (
            "Kilo CLI",
            "~/.kilocode/cli/global/settings/mcp_settings.json or .kilocode/mcp.json",
            "N/A (edit config file manually)",
        ),
        InstallTool::Kimi => (
            "Kimi CLI",
            "~/.kimi/mcp.json or .mcp.json",
            "kimi mcp add --transport stdio tt -- <path-to-tt> mcp",
        ),
    }
}

/// The server entry that runs `command` with the argument `mcp`.
pub fn tt_server(command: String) -> (r: StdioServer)
    ensures
        r.command == command,
        r.args@.len() == 1 && r.args@[0]@ == "mcp"@,
        r.env@.len() == 0,
{
    let mut args: Vec<String> = Vec::new();
    args.push(String::from_str("mcp"));
    StdioServer { command, args, env: Vec::new() }
}

/// Whether a `.gitignore` already lists `filename` on a line of its own
/// (white space around it ignored).
pub fn gitignore_lists(lines: &Vec<String>, filename: &str) -> (r: bool)
    ensures
        r == exists|i: int| 0 <= i < lines@.len() && crate::text::trimmed(#[trigger] lines@[i]@) == filename@,
{
    let mut i: usize = 0;
    while i < lines.len()
        invariant
            i <= lines@.len(),
            forall|j: int| 0 <= j < i ==> crate::text::trimmed(#[trigger] lines@[j]@) != filename@,
        decreases lines@.len() - i,
    {
        let t = crate::text::trim(lines[i].as_str());
        if crate::text::str_equals(t.as_str(), filename) {
            return true;
        }
        i = i + 1;
    }
    false
}

} // verus!
