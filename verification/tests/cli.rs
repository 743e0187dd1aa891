use tt::cli::{
    dispatch, get_artifacts_dir, get_db_path, get_tt_dir, parse_edit_status, parse_split_parts, parse_status,
    ArchiveCommand, Commands, FocusCommand, Handler,
};
use tt::error::Error;
use tt::install::{config_location, gitignore_lists, install_for_tool, run, tool_info, tt_server, ConfigLocation, InstallPlan};
use tt::cli::InstallTool;
use tt::models::TaskStatus;

#[test]
fn test_get_tt_dir() {
    assert_eq!(get_tt_dir(), ".tt");
}

#[test]
fn test_get_db_path() {
    assert_eq!(get_db_path(), ".tt/tt.db");
}

#[test]
fn test_mcp_command_exports() {
    assert_eq!(dispatch(&Commands::Mcp), Handler::Mcp);
}

#[test]
fn test_project_compiles() {}

#[test]
fn artifacts_live_beside_the_database() {
    assert_eq!(get_artifacts_dir("/home/me/project/.tt"), "/home/me/project/.tt/artifacts");
}

#[test]
fn commands_route_to_their_handlers() {
    assert_eq!(dispatch(&Commands::Init), Handler::Init);
    assert_eq!(dispatch(&Commands::Focus { action: FocusCommand::SetTo { id: 3 } }), Handler::FocusSet);
    assert_eq!(dispatch(&Commands::Focus { action: FocusCommand::Last }), Handler::FocusLast);
    assert_eq!(dispatch(&Commands::Archive { action: ArchiveCommand::All }), Handler::ArchiveAll);
    assert_eq!(dispatch(&Commands::Show { ids: vec![1] }), Handler::Show);
    assert_eq!(dispatch(&Commands::Reindex), Handler::Reindex);
    assert!(!Handler::Init.needs_database());
    assert!(!Handler::Install.needs_database());
    assert!(!Handler::Mcp.needs_database());
    assert!(Handler::Show.needs_database());
    assert!(Handler::Dump.needs_database());
}

#[test]
fn status_words_parse_in_any_case() {
    assert_eq!(parse_status("In_Progress").unwrap(), TaskStatus::InProgress);
    match parse_status("cancelled") {
        Err(Error::InvalidStatus(s)) => assert_eq!(s, "cancelled"),
        _ => panic!("listing has no cancelled filter"),
    }
    assert_eq!(parse_edit_status("CANCELLED").unwrap(), TaskStatus::Cancelled);
    assert!(parse_edit_status("done").is_err());
}

#[test]
fn split_parts_come_in_threes() {
    let parts: Vec<String> = ["a", "b", "c", "d", "e", "f"].iter().map(|s| s.to_string()).collect();
    let groups = parse_split_parts(&parts).unwrap();
    assert_eq!(groups.len(), 2);
    assert_eq!(groups[1], ("d".to_string(), "e".to_string(), "f".to_string()));
    match parse_split_parts(&parts[..4].to_vec()) {
        Err(Error::InvalidArgument(m)) => assert_eq!(m, "Arguments must be in groups of 3 (title, description, dod)"),
        _ => panic!("four parts"),
    }
    match parse_split_parts(&vec![]) {
        Err(Error::InvalidArgument(m)) => assert_eq!(m, "At least one subtask definition is required"),
        _ => panic!("no parts"),
    }
}

#[test]
fn install_options() {
    assert_eq!(run(None, false, false).unwrap(), InstallPlan::GenericInfo);
    assert_eq!(run(Some(InstallTool::Kimi), false, false).unwrap(), InstallPlan::ToolInfo(InstallTool::Kimi));
    assert_eq!(run(Some(InstallTool::Kimi), true, false).unwrap(), InstallPlan::Install(InstallTool::Kimi, true));
    match install_for_tool(InstallTool::Kilo, true, true) {
        Err(Error::InvalidArgument(m)) => assert_eq!(m, "Cannot specify both --global and --local"),
        _ => panic!("both scopes"),
    }
    assert!(matches!(config_location(InstallTool::Kimi, true), ConfigLocation::Home(".kimi/mcp.json")));
    assert!(matches!(config_location(InstallTool::Kilo, false), ConfigLocation::Local(".kilocode/mcp.json")));
    assert_eq!(tool_info(InstallTool::Kilo).0, "Kilo CLI");
}

#[test]
fn tt_server_runs_the_mcp_command() {
    let server = tt_server("/usr/bin/tt".to_string());
    assert_eq!(server.command, "/usr/bin/tt");
    assert_eq!(server.args, vec!["mcp".to_string()]);
    assert!(server.env.is_empty());
}

#[test]
fn gitignore_lines_are_compared_trimmed() {
    let lines: Vec<String> = vec!["target".to_string(), "  .tt  ".to_string()];
    assert!(gitignore_lists(&lines, ".tt"));
    assert!(!gitignore_lists(&lines, ".t"));
}
