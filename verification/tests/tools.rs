use tt::error::Error;
use tt::models::{Task, TaskStatus};
use tt::ordering::{bits_from_order_key, check_midpoint, order_key_from_bits, OrderPlacement};
use tt::store::Store;
use tt::tools::{
    find_tool, register_all_tools, tool_not_found, AdvanceInput, ArchiveTasksHandler, ArtifactsHandler, ArtifactsInput,
    BlockTaskHandler, ClearFocusHandler, CreateTaskHandler, CreateTaskInput, DependencyInput, EditTaskHandler,
    EditTaskInput, FocusHandler, FocusInput, GetArtifactsHandler, GetArtifactsInput, GetCurrentTaskHandler,
    GetTargetHandler, GetTaskHandler, GetTaskInput, GetTasksHandler, ListTasksHandler, ListTasksInput,
    LogArtifactHandler, LogArtifactInput, ManageDependencyHandler, ReorderTaskHandler, ReorderTaskInput,
    SetFocusHandler, SplitTaskHandler, SplitTaskInput, SubtaskDefinition, TaskIdInput, TaskIdsInput, Tool,
    AdvanceTaskHandler, UnblockTaskHandler,
};
use tt::transport::{McpResponse, Payload};

fn now() -> String {
    "2025-06-01 10:00:00".to_string()
}

fn key(order: f64) -> u64 {
    order_key_from_bits(order.to_bits())
}

fn value(key: u64) -> f64 {
    f64::from_bits(bits_from_order_key(key))
}

fn resolve(p: OrderPlacement) -> Result<u64, Error> {
    match p {
        OrderPlacement::First => Ok(key(10.0)),
        OrderPlacement::After(k) => Ok(key(value(k) + 10.0)),
        OrderPlacement::Before(k) => Ok(key(value(k) - 10.0)),
        OrderPlacement::Between(a, b) => check_midpoint(a, b, key((value(a) + value(b)) / 2.0)),
    }
}

fn create_input(title: &str, description: &str, dod: &str) -> CreateTaskInput {
    CreateTaskInput {
        title: Some(title.to_string()),
        description: Some(description.to_string()),
        dod: Some(dod.to_string()),
        after_id: None,
        before_id: None,
        depends_on: vec![],
    }
}

fn create(s: &mut Store, title: &str, description: &str, dod: &str) -> McpResponse {
    let order = s.new_task_placement(None, None).and_then(resolve);
    CreateTaskHandler.handle(s, create_input(title, description, dod), order, &now()).unwrap()
}

fn created_id(resp: McpResponse) -> i64 {
    match resp {
        McpResponse::Success { data: Payload::Task(t) } => t.id,
        _ => panic!("Expected Ok"),
    }
}

fn edit_input(id: i64) -> EditTaskInput {
    EditTaskInput {
        id,
        title: None,
        description: None,
        dod: None,
        status: None,
        action: None,
        depends_on: None,
        remove_depends_on: None,
        after: None,
        before: None,
    }
}

fn list_input() -> ListTasksInput {
    ListTasksInput { no_focus: false, archived: None, status: None, active: false, limit: None, offset: None, ids: None }
}

fn error_code(resp: &McpResponse) -> String {
    match resp {
        McpResponse::Failure { error_code, .. } => error_code.clone(),
        _ => panic!("Expected Error response"),
    }
}

fn task_of(resp: McpResponse) -> Task {
    match resp {
        McpResponse::Success { data: Payload::Task(t) } => t,
        other => panic!("Expected a task, got {:?}", other),
    }
}

#[test]
fn test_register_all_tools() {
    let registry = register_all_tools();
    assert_eq!(registry.len(), 9);
    assert!(registry.iter().any(|t| t.name() == "get_task"));
    assert!(registry.iter().any(|t| t.name() == "create_task"));
}

#[test]
fn test_get_tool_metadata() {
    let registry = register_all_tools();
    assert_eq!(registry.len(), 9);
    for tool in registry {
        assert!(!tool.name().is_empty());
        assert!(!tool.description().is_empty());
    }
}

#[test]
fn test_create_task_handler() {
    let mut s = Store::new();
    let t = task_of(create(&mut s, "Test Task", "A test task", "Test DoD"));
    assert_eq!(t.title, "Test Task");
    assert_eq!(t.description, Some("A test task".to_string()));
}

#[test]
fn test_get_task_handler() {
    let mut s = Store::new();
    let task_id = created_id(create(&mut s, "Test Task", "A test task", "Test DoD"));
    let result = GetTaskHandler.handle(&s, GetTaskInput { id: task_id }).unwrap();
    match result {
        McpResponse::Success { data: Payload::Detail(d) } => assert_eq!(d.task.id, task_id),
        _ => panic!("Expected Ok response"),
    }
}

#[test]
fn tools_test_get_task_not_found() {
    let s = Store::new();
    let result = GetTaskHandler.handle(&s, GetTaskInput { id: 999 }).unwrap();
    assert_eq!(error_code(&result), "TaskNotFound");
}

#[test]
fn test_edit_task_status_workflow() {
    let mut s = Store::new();
    let task_id = created_id(create(&mut s, "Test", "Test description", "DoD"));
    SetFocusHandler.handle(&mut s, TaskIdInput { id: task_id }).unwrap();
    let mut input = edit_input(task_id);
    input.status = Some("in_progress".to_string());
    let t = task_of(EditTaskHandler.handle(&mut s, input, None, &now()).unwrap());
    assert_eq!(t.status.to_db(), "in_progress");
    let mut input = edit_input(task_id);
    input.status = Some("completed".to_string());
    let t = task_of(EditTaskHandler.handle(&mut s, input, None, &now()).unwrap());
    assert_eq!(t.status.to_db(), "completed");
}

#[test]
fn tools_test_add_dependency() {
    let mut s = Store::new();
    let id1 = created_id(create(&mut s, "Task 1", "Task 1 description", "Task 1 DoD"));
    let id2 = created_id(create(&mut s, "Task 2", "Task 2 description", "Task 2 DoD"));
    let result = ManageDependencyHandler
        .handle(&mut s, DependencyInput { task_id: id2, depends_on: vec![id1], remove: false })
        .unwrap();
    match result {
        McpResponse::Success { data: Payload::Dependencies { message, .. } } => assert_eq!(message, "Dependency added"),
        _ => panic!("Expected Ok"),
    }
}

#[test]
fn tools_test_cycle_detection() {
    let mut s = Store::new();
    let id1 = created_id(create(&mut s, "Task 1", "Task 1 description", "Task 1 DoD"));
    let id2 = created_id(create(&mut s, "Task 2", "Task 2 description", "Task 2 DoD"));
    let id3 = created_id(create(&mut s, "Task 3", "Task 3 description", "Task 3 DoD"));
    ManageDependencyHandler.handle(&mut s, DependencyInput { task_id: id2, depends_on: vec![id1], remove: false }).unwrap();
    ManageDependencyHandler.handle(&mut s, DependencyInput { task_id: id3, depends_on: vec![id2], remove: false }).unwrap();
    let result = ManageDependencyHandler
        .handle(&mut s, DependencyInput { task_id: id1, depends_on: vec![id3], remove: false })
        .unwrap();
    assert_eq!(error_code(&result), "CycleDetected");
}

#[test]
fn test_list_tasks() {
    let mut s = Store::new();
    let id = created_id(create(&mut s, "Task 1", "Task 1 description", "Task 1 DoD"));
    SetFocusHandler.handle(&mut s, TaskIdInput { id }).unwrap();
    let result = ListTasksHandler.handle(&s, list_input()).unwrap();
    match result {
        McpResponse::Success { data: Payload::Summaries(tasks) } => {
            assert_eq!(tasks.len(), 1);
            assert_eq!(tasks[0].title, "Task 1");
            assert_eq!(tasks[0].status, TaskStatus::Pending);
        }
        _ => panic!("Expected Ok"),
    }
}

#[test]
fn test_no_active_task() {
    let s = Store::new();
    let result = GetCurrentTaskHandler.handle(&s).unwrap();
    assert_eq!(error_code(&result), "NoActiveTask");
}

#[test]
fn test_split_task_handler() {
    let mut s = Store::new();
    let parent_id = created_id(create(&mut s, "Parent Task", "Task to be split", "Original DoD"));
    let input = SplitTaskInput {
        id: parent_id,
        subtasks: vec![
            SubtaskDefinition { title: "Subtask 1".to_string(), description: "First subtask".to_string(), dod: "Subtask 1 DoD".to_string() },
            SubtaskDefinition { title: "Subtask 2".to_string(), description: "Second subtask".to_string(), dod: "Subtask 2 DoD".to_string() },
        ],
    };
    match SplitTaskHandler.handle(&mut s, input, &now()).unwrap() {
        McpResponse::Success { data: Payload::Split { parent_id: p, subtasks } } => {
            assert_eq!(subtasks.len(), 2);
            assert_eq!(p, parent_id);
            assert_eq!(subtasks[0].title, "Subtask 1");
        }
        _ => panic!("Expected Ok response for split_task"),
    }
}

#[test]
fn create_requires_title_description_and_dod() {
    let mut s = Store::new();
    let mut input = create_input("T", "D", "O");
    input.title = None;
    assert_eq!(CreateTaskHandler.handle(&mut s, input, Ok(key(10.0)), &now()).unwrap_err(), "title required");
    let mut input = create_input("T", "D", "O");
    input.description = None;
    assert_eq!(CreateTaskHandler.handle(&mut s, input, Ok(key(10.0)), &now()).unwrap_err(), "description required");
    let mut input = create_input("T", "D", "O");
    input.dod = None;
    assert_eq!(CreateTaskHandler.handle(&mut s, input, Ok(key(10.0)), &now()).unwrap_err(), "dod required");
    assert!(s.get_all_tasks().is_empty());
}

#[test]
fn create_reports_a_failed_placement() {
    let mut s = Store::new();
    let resp = CreateTaskHandler.handle(&mut s, create_input("T", "D", "O"), Err(Error::TaskNotFound(7)), &now()).unwrap();
    assert_eq!(error_code(&resp), "TaskNotFound");
    match resp {
        McpResponse::Failure { message, .. } => assert_eq!(message, "Task #7 not found"),
        _ => unreachable!(),
    }
}

#[test]
fn list_refuses_status_with_active_and_unknown_statuses() {
    let s = Store::new();
    let mut input = list_input();
    input.status = Some("pending".to_string());
    input.active = true;
    match ListTasksHandler.handle(&s, input).unwrap() {
        McpResponse::Failure { error_code, message } => {
            assert_eq!(error_code, "InvalidArgument");
            assert_eq!(message, "Cannot use both status and active parameters together. Use active=true to show pending and in_progress tasks.");
        }
        _ => panic!("status and active conflict"),
    }
    let mut input = list_input();
    input.status = Some("Done".to_string());
    match ListTasksHandler.handle(&s, input).unwrap() {
        McpResponse::Failure { error_code, message } => {
            assert_eq!(error_code, "InvalidStatus");
            assert_eq!(message, "Invalid status: Done");
        }
        _ => panic!("done is no status"),
    }
}

#[test]
fn list_filters_by_ids_and_status_in_any_case() {
    let mut s = Store::new();
    let a = created_id(create(&mut s, "A", "", "DoD"));
    let b = created_id(create(&mut s, "B", "", "DoD"));
    let mut input = list_input();
    input.ids = Some(vec![b]);
    match ListTasksHandler.handle(&s, input).unwrap() {
        McpResponse::Success { data: Payload::Summaries(v) } => assert_eq!(v.iter().map(|t| t.id).collect::<Vec<_>>(), vec![b]),
        _ => panic!("listing"),
    }
    BlockTaskHandler.handle(&mut s, None, Ok(a), &now()).unwrap();
    let mut input = list_input();
    input.status = Some("BLOCKED".to_string());
    match ListTasksHandler.handle(&s, input).unwrap() {
        McpResponse::Success { data: Payload::Summaries(v) } => assert_eq!(v.iter().map(|t| t.id).collect::<Vec<_>>(), vec![a]),
        _ => panic!("listing"),
    }
}

#[test]
fn focus_tool_actions() {
    let mut s = Store::new();
    let a = created_id(create(&mut s, "A", "", ""));
    let b = created_id(create(&mut s, "B", "", ""));
    let get = |s: &mut Store| FocusHandler.handle(s, FocusInput { action: "get".to_string(), id: None }).unwrap();
    match get(&mut s) {
        McpResponse::Success { data: Payload::Message(m) } => assert_eq!(m, "No focus set"),
        _ => panic!("no focus yet"),
    }
    match FocusHandler.handle(&mut s, FocusInput { action: "LAST".to_string(), id: None }).unwrap() {
        McpResponse::Success { data: Payload::FocusSet { target_id, title } } => {
            assert_eq!(target_id, b);
            assert_eq!(title, Some("B".to_string()));
        }
        _ => panic!("last"),
    }
    match FocusHandler.handle(&mut s, FocusInput { action: "next".to_string(), id: None }).unwrap() {
        McpResponse::Success { data: Payload::FocusSet { target_id, .. } } => assert_eq!(target_id, a),
        _ => panic!("next"),
    }
    assert_eq!(task_of(get(&mut s)).id, a);
    assert_eq!(
        FocusHandler.handle(&mut s, FocusInput { action: "set".to_string(), id: None }).unwrap_err(),
        "id required for set action"
    );
    match FocusHandler.handle(&mut s, FocusInput { action: "clear".to_string(), id: None }).unwrap() {
        McpResponse::Success { data: Payload::Message(m) } => assert_eq!(m, "Focus cleared"),
        _ => panic!("clear"),
    }
    assert!(s.target_id().is_none());
    match FocusHandler.handle(&mut s, FocusInput { action: "jump".to_string(), id: None }).unwrap() {
        McpResponse::Failure { error_code, message } => {
            assert_eq!(error_code, "InvalidAction");
            assert_eq!(message, "Invalid action: jump. Use set, get, clear, next, or last");
        }
        _ => panic!("jump"),
    }
}

#[test]
fn focus_next_and_last_on_an_empty_store() {
    let mut s = Store::new();
    match FocusHandler.handle(&mut s, FocusInput { action: "next".to_string(), id: None }).unwrap() {
        McpResponse::Success { data: Payload::Message(m) } => assert_eq!(m, "No pending tasks available"),
        _ => panic!("next"),
    }
    match FocusHandler.handle(&mut s, FocusInput { action: "last".to_string(), id: None }).unwrap() {
        McpResponse::Success { data: Payload::Message(m) } => assert_eq!(m, "No tasks available"),
        _ => panic!("last"),
    }
}

#[test]
fn target_and_clear_focus_tools() {
    let mut s = Store::new();
    match GetTargetHandler.handle(&s).unwrap() {
        McpResponse::Success { data: Payload::Message(m) } => assert_eq!(m, "No target set"),
        _ => panic!("no target"),
    }
    let a = created_id(create(&mut s, "A", "", ""));
    match SetFocusHandler.handle(&mut s, TaskIdInput { id: a }).unwrap() {
        McpResponse::Success { data: Payload::FocusSet { target_id, title } } => {
            assert_eq!(target_id, a);
            assert_eq!(title, None);
        }
        _ => panic!("set focus"),
    }
    assert_eq!(task_of(GetTargetHandler.handle(&s).unwrap()).id, a);
    assert_eq!(error_code(&SetFocusHandler.handle(&mut s, TaskIdInput { id: 77 }).unwrap()), "TaskNotFound");
    ClearFocusHandler.handle(&mut s).unwrap();
    assert!(s.target_id().is_none());
}

#[test]
fn block_and_unblock_tools_single_and_bulk() {
    let mut s = Store::new();
    let a = created_id(create(&mut s, "A", "", ""));
    let b = created_id(create(&mut s, "B", "", ""));
    match BlockTaskHandler.handle(&mut s, Some(vec![a, b, 99]), Err("unused".to_string()), &now()).unwrap() {
        McpResponse::Success { data: Payload::Bulk { succeeded, failed, results } } => {
            assert_eq!(succeeded, 2);
            assert_eq!(failed, 1);
            assert_eq!(results.len(), 3);
            assert!(matches!(results[2], Err(Error::TaskNotFound(99))));
        }
        _ => panic!("bulk block"),
    }
    let t = task_of(UnblockTaskHandler.handle(&mut s, Some(vec![a]), Err("unused".to_string()), &now()).unwrap());
    assert_eq!(t.status, TaskStatus::Pending);
    let t = task_of(UnblockTaskHandler.handle(&mut s, Some(vec![]), Ok(b), &now()).unwrap());
    assert_eq!(t.id, b);
    assert_eq!(
        BlockTaskHandler.handle(&mut s, None, Err("Invalid parameters: missing field `id`".to_string()), &now()).unwrap_err(),
        "Invalid parameters: missing field `id`"
    );
}

#[test]
fn manage_dependency_removes_and_reports_bulk_messages() {
    let mut s = Store::new();
    let a = created_id(create(&mut s, "A", "", ""));
    let b = created_id(create(&mut s, "B", "", ""));
    let c = created_id(create(&mut s, "C", "", ""));
    match ManageDependencyHandler.handle(&mut s, DependencyInput { task_id: c, depends_on: vec![a, b], remove: false }).unwrap() {
        McpResponse::Success { data: Payload::Dependencies { message, depends_on, single, .. } } => {
            assert_eq!(message, "Dependencies added");
            assert_eq!(depends_on, vec![a, b]);
            assert!(!single);
        }
        _ => panic!("add"),
    }
    match ManageDependencyHandler.handle(&mut s, DependencyInput { task_id: c, depends_on: vec![a], remove: true }).unwrap() {
        McpResponse::Success { data: Payload::Dependencies { message, single, .. } } => {
            assert_eq!(message, "Dependency removed");
            assert!(single);
        }
        _ => panic!("remove"),
    }
    assert_eq!(s.edge_rows().len(), 1);
    let resp = ManageDependencyHandler.handle(&mut s, DependencyInput { task_id: c, depends_on: vec![a], remove: true }).unwrap();
    assert_eq!(error_code(&resp), "NotSupported");
}

#[test]
fn artifact_tools() {
    let mut s = Store::new();
    let a = created_id(create(&mut s, "A", "", ""));
    let resp = LogArtifactHandler
        .handle(&mut s, LogArtifactInput { name: "plan".to_string(), file_path: "plan.md".to_string(), task_id: None }, &now())
        .unwrap();
    assert_eq!(error_code(&resp), "NoActiveTask");
    match LogArtifactHandler
        .handle(&mut s, LogArtifactInput { name: "plan".to_string(), file_path: "plan.md".to_string(), task_id: Some(a) }, &now())
        .unwrap()
    {
        McpResponse::Success { data: Payload::Artifact(art) } => {
            assert_eq!(art.task_id, a);
            assert_eq!(art.name, "plan");
        }
        _ => panic!("log"),
    }
    match GetArtifactsHandler.handle(&s, GetArtifactsInput { task_id: Some(a) }).unwrap() {
        McpResponse::Success { data: Payload::Artifacts(v) } => assert_eq!(v.len(), 1),
        _ => panic!("list"),
    }
    let input = ArtifactsInput { action: "Log".to_string(), id: Some(a), name: None, file_path: Some("x".to_string()) };
    assert_eq!(ArtifactsHandler.handle(&mut s, input, &now()).unwrap_err(), "name required for log action");
    let input = ArtifactsInput { action: "log".to_string(), id: Some(a), name: Some("x".to_string()), file_path: None };
    assert_eq!(ArtifactsHandler.handle(&mut s, input, &now()).unwrap_err(), "file_path required for log action");
    let input = ArtifactsInput { action: "list".to_string(), id: Some(a), name: None, file_path: None };
    match ArtifactsHandler.handle(&mut s, input, &now()).unwrap() {
        McpResponse::Success { data: Payload::Artifacts(v) } => assert_eq!(v.len(), 1),
        _ => panic!("list"),
    }
    let input = ArtifactsInput { action: "drop".to_string(), id: None, name: None, file_path: None };
    match ArtifactsHandler.handle(&mut s, input, &now()).unwrap() {
        McpResponse::Failure { error_code, message } => {
            assert_eq!(error_code, "InvalidAction");
            assert_eq!(message, "Invalid action: drop. Use list or log");
        }
        _ => panic!("drop"),
    }
}

#[test]
fn reorder_tool_sets_the_order_it_was_given() {
    let mut s = Store::new();
    let a = created_id(create(&mut s, "A", "", ""));
    let b = created_id(create(&mut s, "B", "", ""));
    let order = s.reorder_task(b, None, Some(a)).and_then(resolve);
    match ReorderTaskHandler.handle(&mut s, ReorderTaskInput { id: b, after_id: None, before_id: Some(a) }, order, &now()).unwrap() {
        McpResponse::Success { data: Payload::Reordered { task_id, new_order } } => {
            assert_eq!(task_id, b);
            assert_eq!(value(new_order), 0.0);
        }
        _ => panic!("reorder"),
    }
    assert_eq!(s.get_all_tasks()[0].id, b);
    let resp = ReorderTaskHandler
        .handle(&mut s, ReorderTaskInput { id: b, after_id: Some(5), before_id: None }, Err(Error::TaskNotFound(5)), &now())
        .unwrap();
    assert_eq!(error_code(&resp), "TaskNotFound");
}

#[test]
fn edit_tool_steps_and_refusals() {
    let mut s = Store::new();
    let a = created_id(create(&mut s, "A", "", ""));
    let b = created_id(create(&mut s, "B", "", ""));
    let mut input = edit_input(b);
    input.depends_on = Some(vec![a]);
    input.status = Some("bogus".to_string());
    match EditTaskHandler.handle(&mut s, input, None, &now()).unwrap() {
        McpResponse::Failure { error_code, message } => {
            assert_eq!(error_code, "InvalidStatus");
            assert_eq!(message, "Invalid status: bogus");
        }
        _ => panic!("bogus status"),
    }
    // The dependency added before the refusal stays.
    assert_eq!(s.edge_rows().len(), 1);
    let mut input = edit_input(b);
    input.action = Some("Fly".to_string());
    match EditTaskHandler.handle(&mut s, input, None, &now()).unwrap() {
        McpResponse::Failure { error_code, message } => {
            assert_eq!(error_code, "InvalidAction");
            assert_eq!(message, "Invalid action: Fly");
        }
        _ => panic!("fly"),
    }
    let mut input = edit_input(b);
    input.remove_depends_on = Some(vec![a, 42]);
    input.title = Some("B2".to_string());
    let t = task_of(EditTaskHandler.handle(&mut s, input, None, &now()).unwrap());
    assert_eq!(t.title, "B2");
    assert!(s.edge_rows().is_empty());
    let mut input = edit_input(a);
    input.action = Some("BLOCK".to_string());
    let t = task_of(EditTaskHandler.handle(&mut s, input, None, &now()).unwrap());
    assert_eq!(t.status, TaskStatus::Blocked);
    let mut input = edit_input(a);
    input.before = Some(99);
    let resp = EditTaskHandler.handle(&mut s, input, Some(Err(Error::TaskNotFound(99))), &now()).unwrap();
    assert_eq!(error_code(&resp), "TaskNotFound");
}

#[test]
fn advance_and_archive_tools() {
    let mut s = Store::new();
    let a = created_id(create(&mut s, "A", "", "DoD"));
    let b = created_id(create(&mut s, "B", "", "DoD"));
    s.start_task(a, &now()).unwrap();
    match AdvanceTaskHandler.handle(&mut s, AdvanceInput { dry_run: false }, &now()).unwrap() {
        McpResponse::Success { data: Payload::Advanced { result, dry_run } } => {
            assert!(!dry_run);
            assert_eq!(result.completed.map(|t| t.id), Some(a));
            assert_eq!(result.started.map(|t| t.id), Some(b));
        }
        _ => panic!("advance"),
    }
    match ArchiveTasksHandler.handle(&mut s, &now()).unwrap() {
        McpResponse::Success { data: Payload::Archived(n) } => assert_eq!(n, 1),
        _ => panic!("archive"),
    }
    match GetCurrentTaskHandler.handle(&s).unwrap() {
        McpResponse::Success { data: Payload::Current { task, artifacts } } => {
            assert_eq!(task.id, b);
            assert!(artifacts.is_empty());
        }
        _ => panic!("current"),
    }
}

#[test]
fn get_tasks_tool_includes_archived() {
    let mut s = Store::new();
    let a = created_id(create(&mut s, "A", "", "DoD"));
    s.start_task(a, &now()).unwrap();
    s.complete_task(&now()).unwrap();
    s.archive_completed(&now());
    match GetTasksHandler.handle(&s, TaskIdsInput { task_ids: vec![a, 5] }).unwrap() {
        McpResponse::Success { data: Payload::Tasks(v) } => {
            assert_eq!(v.len(), 1);
            assert!(v[0].deleted);
        }
        _ => panic!("get tasks"),
    }
}

#[test]
fn tools_are_found_by_name() {
    for tool in register_all_tools() {
        assert_eq!(find_tool(tool.name()), Some(tool));
    }
    assert_eq!(find_tool("get_current_task"), None);
    assert_eq!(find_tool("focus"), Some(Tool::Focus));
    match tool_not_found("nope") {
        McpResponse::Failure { error_code, message } => {
            assert_eq!(error_code, "ToolNotFound");
            assert_eq!(message, "Tool not found: nope");
        }
        _ => panic!("unknown tool"),
    }
}

#[test]
fn handler_names() {
    assert_eq!(GetCurrentTaskHandler.name(), "get_current_task");
    assert_eq!(GetTargetHandler.name(), "tt_get_target");
    assert_eq!(ClearFocusHandler.name(), "clear_focus");
    assert_eq!(SetFocusHandler.name(), "set_focus");
    assert_eq!(BlockTaskHandler.name(), "block_task");
    assert_eq!(UnblockTaskHandler.name(), "unblock_task");
    assert_eq!(ManageDependencyHandler.name(), "manage_dependency");
    assert_eq!(LogArtifactHandler.name(), "log_artifact");
    assert_eq!(GetArtifactsHandler.name(), "get_artifacts");
    assert_eq!(ReorderTaskHandler.name(), "reorder_task");
    assert_eq!(GetTasksHandler.name(), "get_tasks");
}
