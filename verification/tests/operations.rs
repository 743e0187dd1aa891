use tt::error::Error;
use tt::models::{EditAction, Task, TaskStatus};
use tt::ordering::{bits_from_order_key, check_midpoint, order_key_from_bits, OrderPlacement};
use tt::store::{RowFilter, Store};

fn now() -> String {
    "2025-06-01 10:00:00".to_string()
}

fn key(order: f64) -> u64 {
    order_key_from_bits(order.to_bits())
}

fn value(key: u64) -> f64 {
    f64::from_bits(bits_from_order_key(key))
}

/// The order key of a placement, computed in floating point.
fn resolve(p: OrderPlacement) -> Result<u64, Error> {
    match p {
        OrderPlacement::First => Ok(key(10.0)),
        OrderPlacement::After(k) => Ok(key(value(k) + 10.0)),
        OrderPlacement::Before(k) => Ok(key(value(k) - 10.0)),
        OrderPlacement::Between(a, b) => check_midpoint(a, b, key((value(a) + value(b)) / 2.0)),
    }
}

fn create_task(
    s: &mut Store,
    title: &str,
    description: &str,
    dod: &str,
    after: Option<i64>,
    before: Option<i64>,
    depends_on: Option<Vec<i64>>,
) -> Result<Task, Error> {
    let order = s.new_task_placement(after, before).and_then(resolve)?;
    s.create_task(title, description, dod, order, depends_on, &now())
}

fn reorder_task(s: &mut Store, id: i64, after: Option<i64>, before: Option<i64>) -> Result<f64, Error> {
    let order = s.reorder_task(id, after, before).and_then(resolve)?;
    s.set_task_order(id, order, &now())?;
    Ok(value(order))
}

fn reindex_tasks(s: &mut Store) -> Vec<(i64, f64)> {
    let plan = s.reindex_tasks();
    for (id, v) in &plan {
        s.set_task_order(*id, key(*v as f64), &now()).unwrap();
    }
    plan.into_iter().map(|(id, v)| (id, v as f64)).collect()
}

fn prerequisites(s: &Store, id: i64) -> Vec<i64> {
    s.edge_rows().iter().filter(|d| d.task_id == id).map(|d| d.depends_on).collect()
}

#[test]
fn operations_test_create_task() {
    let mut s = Store::new();
    let task = create_task(&mut s, "Test Task", "", "", None, None, None).unwrap();
    assert_eq!(task.title, "Test Task");
    assert_eq!(task.status, TaskStatus::Pending);
}

#[test]
fn test_create_task_with_order() {
    let mut s = Store::new();
    let task1 = create_task(&mut s, "Task 1", "", "", None, None, None).unwrap();
    let task2 = create_task(&mut s, "Task 2", "", "", Some(task1.id), None, None).unwrap();
    assert!(value(task2.manual_order) > value(task1.manual_order));
}

#[test]
fn test_edit_task() {
    let mut s = Store::new();
    let task = create_task(&mut s, "Old Title", "", "", None, None, None).unwrap();
    let updated = s.edit_task(task.id, Some("New Title"), Some("Desc"), Some("DoD"), None, None, &now()).unwrap();
    assert_eq!(updated.title, "New Title");
    assert_eq!(updated.description, Some("Desc".to_string()));
    assert_eq!(updated.dod, Some("DoD".to_string()));
}

#[test]
fn test_get_task_detail() {
    let mut s = Store::new();
    let task1 = create_task(&mut s, "Task 1", "", "", None, None, None).unwrap();
    let task2 = create_task(&mut s, "Task 2", "", "", None, None, None).unwrap();
    s.add_dependency(task2.id, task1.id).unwrap();
    let detail = s.get_task_detail(task2.id).unwrap();
    assert_eq!(detail.dependencies.len(), 1);
    assert_eq!(detail.dependents.len(), 0);
    let detail1 = s.get_task_detail(task1.id).unwrap();
    assert_eq!(detail1.dependents.len(), 1);
}

#[test]
fn test_start_task_workflow() {
    let mut s = Store::new();
    let task = create_task(&mut s, "Task", "", "DoD", None, None, None).unwrap();
    let started = s.start_task(task.id, &now()).unwrap();
    assert_eq!(started.status, TaskStatus::InProgress);
    let completed = s.complete_task(&now()).unwrap();
    assert_eq!(completed.status, TaskStatus::Completed);
}

#[test]
fn operations_test_cannot_complete_without_dod() {
    let mut s = Store::new();
    let task = create_task(&mut s, "Task", "", "", None, None, None).unwrap();
    s.start_task(task.id, &now()).unwrap();
    let result = s.complete_task(&now());
    assert!(matches!(result.unwrap_err(), Error::NoDod(_)));
}

#[test]
fn test_cannot_start_with_unmet_deps() {
    let mut s = Store::new();
    let task1 = create_task(&mut s, "Task 1", "", "", None, None, None).unwrap();
    let task2 = create_task(&mut s, "Task 2", "", "", None, None, None).unwrap();
    s.add_dependency(task2.id, task1.id).unwrap();
    let result = s.start_task(task2.id, &now());
    assert!(matches!(result.unwrap_err(), Error::UnmetDependencies(_, _)));
}

#[test]
fn operations_test_cycle_detection() {
    let mut s = Store::new();
    let task1 = create_task(&mut s, "Task 1", "", "", None, None, None).unwrap();
    let task2 = create_task(&mut s, "Task 2", "", "", None, None, None).unwrap();
    let task3 = create_task(&mut s, "Task 3", "", "", None, None, None).unwrap();
    s.add_dependency(task2.id, task1.id).unwrap();
    s.add_dependency(task3.id, task2.id).unwrap();
    let result = s.add_dependency(task1.id, task3.id);
    assert!(matches!(result.unwrap_err(), Error::CycleDetected(_, _, _)));
}

#[test]
fn test_target_operations() {
    let mut s = Store::new();
    let task = create_task(&mut s, "Target", "", "", None, None, None).unwrap();
    s.set_target(task.id).unwrap();
    let target = s.get_target();
    assert!(target.is_some());
    assert_eq!(target.unwrap().id, task.id);
    let next = s.get_next_task();
    assert!(next.is_ok());
    assert_eq!(next.unwrap().unwrap().id, task.id);
}

#[test]
fn test_target_reached() {
    let mut s = Store::new();
    let task = create_task(&mut s, "Target", "", "DoD", None, None, None).unwrap();
    s.set_target(task.id).unwrap();
    s.start_task(task.id, &now()).unwrap();
    s.complete_task(&now()).unwrap();
    let result = s.get_next_task();
    assert!(matches!(result.unwrap_err(), Error::TargetReached(_)));
}

#[test]
fn test_reorder_task() {
    let mut s = Store::new();
    let task1 = create_task(&mut s, "Task 1", "", "", None, None, None).unwrap();
    let task2 = create_task(&mut s, "Task 2", "", "", None, None, None).unwrap();
    let new_order = reorder_task(&mut s, task2.id, None, Some(task1.id)).unwrap();
    let updated = s.get_task(task2.id, false).unwrap();
    assert_eq!(value(updated.manual_order), new_order);
    assert!(value(updated.manual_order) < value(task1.manual_order));
}

#[test]
fn test_reindex_tasks() {
    let mut s = Store::new();
    create_task(&mut s, "Task 1", "", "", None, None, None).unwrap();
    create_task(&mut s, "Task 2", "", "", None, None, None).unwrap();
    let new_orders = reindex_tasks(&mut s);
    assert_eq!(new_orders.len(), 2);
    assert_eq!(new_orders[0].1, 10.0);
    assert_eq!(new_orders[1].1, 20.0);
}

#[test]
fn test_log_artifact() {
    let mut s = Store::new();
    let task = create_task(&mut s, "Task", "", "DoD", None, None, None).unwrap();
    s.start_task(task.id, &now()).unwrap();
    let artifact = s.log_artifact("research", ".tt/artifacts/1-research.md", None, &now()).unwrap();
    assert_eq!(artifact.name, "research");
    assert_eq!(artifact.file_path, ".tt/artifacts/1-research.md");
}

#[test]
fn test_log_artifact_no_active_task() {
    let mut s = Store::new();
    let result = s.log_artifact("research", ".tt/artifacts/1-research.md", None, &now());
    assert!(matches!(result.unwrap_err(), Error::NoActiveTask));
}

#[test]
fn test_list_tasks_orders_by_dependencies() {
    let mut s = Store::new();
    let task_c = create_task(&mut s, "C", "", "", None, None, None).unwrap();
    let task_b = create_task(&mut s, "B", "", "", None, None, None).unwrap();
    let task_a = create_task(&mut s, "A", "", "", None, None, None).unwrap();
    s.set_target(task_a.id).unwrap();
    s.add_dependency(task_a.id, task_b.id).unwrap();
    s.add_dependency(task_a.id, task_c.id).unwrap();
    let tasks = s.list_tasks(false, None, false, None, None, None);
    assert_eq!(tasks.len(), 3);
    let a_pos = tasks.iter().position(|t| t.id == task_a.id).unwrap();
    let b_pos = tasks.iter().position(|t| t.id == task_b.id).unwrap();
    let c_pos = tasks.iter().position(|t| t.id == task_c.id).unwrap();
    assert!(b_pos < a_pos, "B should come before A");
    assert!(c_pos < a_pos, "C should come before A");
}

#[test]
fn test_split_task() {
    let mut s = Store::new();
    let original = create_task(&mut s, "Original", "Desc", "DoD", None, None, None).unwrap();
    let dependent = create_task(&mut s, "Dependent", "", "", None, None, None).unwrap();
    s.add_dependency(dependent.id, original.id).unwrap();
    let subtasks = vec![
        ("Subtask 1".to_string(), "Desc 1".to_string(), "DoD 1".to_string()),
        ("Subtask 2".to_string(), "Desc 2".to_string(), "DoD 2".to_string()),
    ];
    let new_tasks = s.split_task(original.id, subtasks, &now()).unwrap();
    assert_eq!(new_tasks.len(), 2);
    assert!(s.get_task(original.id, false).is_none());
    let subtask1 = s.get_task(new_tasks[0].id, false).unwrap();
    let subtask2 = s.get_task(new_tasks[1].id, false).unwrap();
    assert_eq!(subtask1.title, "Subtask 1");
    assert_eq!(subtask2.title, "Subtask 2");
    let dep_ids = prerequisites(&s, dependent.id);
    assert_eq!(dep_ids.len(), 2);
    assert!(dep_ids.contains(&subtask1.id));
    assert!(dep_ids.contains(&subtask2.id));
}

#[test]
fn test_split_task_preserves_original_deps() {
    let mut s = Store::new();
    let prereq = create_task(&mut s, "Prereq", "", "", None, None, None).unwrap();
    let original = create_task(&mut s, "Original", "", "", None, None, None).unwrap();
    s.add_dependency(original.id, prereq.id).unwrap();
    let subtasks = vec![
        ("Subtask 1".to_string(), "".to_string(), "".to_string()),
        ("Subtask 2".to_string(), "".to_string(), "".to_string()),
    ];
    let new_tasks = s.split_task(original.id, subtasks, &now()).unwrap();
    for task in &new_tasks {
        let deps = prerequisites(&s, task.id);
        assert_eq!(deps.len(), 1);
        assert_eq!(deps[0], prereq.id);
    }
}

#[test]
fn test_advance_task_atomic() {
    let mut s = Store::new();
    let task1 = create_task(&mut s, "Task 1", "", "DoD", None, None, None).unwrap();
    let task2 = create_task(&mut s, "Task 2", "", "DoD", None, None, None).unwrap();
    s.start_task(task1.id, &now()).unwrap();
    let in_progress = s.select_tasks(RowFilter::Status(TaskStatus::InProgress));
    assert_eq!(in_progress.len(), 1);
    let result = s.advance_task(false, &now()).unwrap();
    assert!(result.completed.is_some());
    assert!(result.started.is_some());
    assert_eq!(result.completed.unwrap().id, task1.id);
    assert_eq!(result.started.unwrap().id, task2.id);
    let in_progress = s.select_tasks(RowFilter::Status(TaskStatus::InProgress));
    assert_eq!(in_progress.len(), 1);
    assert_eq!(in_progress[0].id, task2.id);
    let task1_updated = s.get_task(task1.id, false).unwrap();
    assert_eq!(task1_updated.status, TaskStatus::Completed);
}

#[test]
fn test_archive_completed() {
    let mut s = Store::new();
    let task1 = create_task(&mut s, "Task 1", "", "DoD", None, None, None).unwrap();
    let task2 = create_task(&mut s, "Task 2", "", "DoD", None, None, None).unwrap();
    let task3 = create_task(&mut s, "Task 3", "", "DoD", None, None, None).unwrap();
    s.start_task(task1.id, &now()).unwrap();
    s.complete_task(&now()).unwrap();
    s.start_task(task2.id, &now()).unwrap();
    s.complete_task(&now()).unwrap();
    assert_eq!(s.get_all_tasks().len(), 3);
    let count = s.archive_completed(&now());
    assert_eq!(count, 2);
    let remaining = s.get_all_tasks();
    assert_eq!(remaining.len(), 1);
    assert_eq!(remaining[0].id, task3.id);
    let archived = s.select_tasks(RowFilter::Archived);
    assert_eq!(archived.len(), 2);
}

#[test]
fn test_list_tasks_excludes_archived_by_default() {
    let mut s = Store::new();
    let task1 = create_task(&mut s, "Active", "", "DoD", None, None, None).unwrap();
    let task2 = create_task(&mut s, "Completed", "", "DoD", None, None, None).unwrap();
    s.start_task(task2.id, &now()).unwrap();
    s.complete_task(&now()).unwrap();
    s.archive_completed(&now());
    let tasks = s.list_tasks(true, None, false, None, None, None);
    assert_eq!(tasks.len(), 1);
    assert_eq!(tasks[0].id, task1.id);
    let archived = s.list_tasks(true, None, false, None, None, Some(true));
    assert_eq!(archived.len(), 1);
    assert_eq!(archived[0].id, task2.id);
}

#[test]
fn only_one_task_runs_at_a_time() {
    let mut s = Store::new();
    let t1 = create_task(&mut s, "One", "", "", None, None, None).unwrap();
    let t2 = create_task(&mut s, "Two", "", "", None, None, None).unwrap();
    s.start_task(t1.id, &now()).unwrap();
    match s.start_task(t2.id, &now()) {
        Err(Error::AnotherTaskActive(id, title)) => {
            assert_eq!(id, t1.id);
            assert_eq!(title, "One");
        }
        _ => panic!("the first task is still running"),
    }
}

#[test]
fn stop_returns_the_task_to_pending() {
    let mut s = Store::new();
    let t = create_task(&mut s, "One", "", "", None, None, None).unwrap();
    s.start_task(t.id, &now()).unwrap();
    let stopped = s.stop_task(&now()).unwrap();
    assert_eq!(stopped.status, TaskStatus::Pending);
    assert!(s.get_active_task().is_none());
    assert!(matches!(s.stop_task(&now()), Err(Error::NoActiveTask)));
}

#[test]
fn removing_a_dependency_undoes_adding_it() {
    let mut s = Store::new();
    let a = create_task(&mut s, "A", "", "", None, None, None).unwrap();
    let b = create_task(&mut s, "B", "", "", None, None, None).unwrap();
    s.add_dependency(b.id, a.id).unwrap();
    assert_eq!(prerequisites(&s, b.id), vec![a.id]);
    s.remove_dependency(b.id, a.id).unwrap();
    assert!(s.edge_rows().is_empty());
    match s.remove_dependency(b.id, a.id) {
        Err(Error::NotSupported(m)) => assert_eq!(m, "Dependency does not exist"),
        _ => panic!("the edge is gone"),
    }
}

#[test]
fn duplicate_and_dangling_dependencies_are_refused() {
    let mut s = Store::new();
    let a = create_task(&mut s, "A", "", "", None, None, None).unwrap();
    let b = create_task(&mut s, "B", "", "", None, None, None).unwrap();
    s.add_dependency(b.id, a.id).unwrap();
    assert!(matches!(s.add_dependency(b.id, a.id), Err(Error::Db(_))));
    assert!(matches!(s.add_dependency(b.id, 99), Err(Error::TaskNotFound(99))));
    assert!(matches!(s.add_dependency(b.id, b.id), Err(Error::CycleDetected(_, _, _))));
}

#[test]
fn block_and_unblock_cycle_back_to_pending() {
    let mut s = Store::new();
    let t = create_task(&mut s, "T", "", "", None, None, None).unwrap();
    assert_eq!(s.block_task(t.id, &now()).unwrap().status, TaskStatus::Blocked);
    assert!(s.block_task(t.id, &now()).is_err());
    assert_eq!(s.unblock_task(t.id, &now()).unwrap().status, TaskStatus::Pending);
    assert!(s.unblock_task(t.id, &now()).is_err());
}

#[test]
fn cancel_finishes_a_task() {
    let mut s = Store::new();
    let t = create_task(&mut s, "T", "", "", None, None, None).unwrap();
    assert_eq!(s.cancel_task(t.id, &now()).unwrap().status, TaskStatus::Cancelled);
    assert!(s.cancel_task(t.id, &now()).is_err());
    assert_eq!(s.archive_completed(&now()), 1);
}

#[test]
fn next_without_focus_is_the_lowest_runnable_task() {
    let mut s = Store::new();
    let a = create_task(&mut s, "A", "", "", None, None, None).unwrap();
    let b = create_task(&mut s, "B", "", "", None, None, None).unwrap();
    s.add_dependency(a.id, b.id).unwrap();
    assert_eq!(s.get_next_task().unwrap().map(|t| t.id), Some(b.id));
}

#[test]
fn status_counts_live_tasks() {
    let mut s = Store::new();
    let a = create_task(&mut s, "A", "", "DoD", None, None, None).unwrap();
    create_task(&mut s, "B", "", "", None, None, None).unwrap();
    let c = create_task(&mut s, "C", "", "", None, None, None).unwrap();
    s.start_task(a.id, &now()).unwrap();
    s.block_task(c.id, &now()).unwrap();
    let status = s.get_status();
    assert_eq!(status.summary.total, 3);
    assert_eq!(status.summary.pending, 1);
    assert_eq!(status.summary.in_progress, 1);
    assert_eq!(status.summary.blocked, 1);
    assert_eq!(status.current_task.map(|t| t.id), Some(a.id));
}

#[test]
fn placement_errors_reach_the_caller() {
    let mut s = Store::new();
    assert!(matches!(create_task(&mut s, "X", "", "", Some(42), None, None), Err(Error::TaskNotFound(42))));
    assert!(s.get_all_tasks().is_empty());
}

#[test]
fn get_tasks_skips_missing_ids() {
    let mut s = Store::new();
    let a = create_task(&mut s, "A", "", "", None, None, None).unwrap();
    let found = s.get_tasks(vec![99, a.id]);
    assert_eq!(found.len(), 1);
    assert_eq!(found[0].id, a.id);
}

#[test]
fn unfocused_listing_puts_prerequisites_first() {
    let mut s = Store::new();
    let a = create_task(&mut s, "A", "", "", None, None, None).unwrap();
    let b = create_task(&mut s, "B", "", "", None, None, None).unwrap();
    let c = create_task(&mut s, "C", "", "", None, None, None).unwrap();
    // A needs C although C comes last in manual order.
    s.add_dependency(a.id, c.id).unwrap();
    let ids: Vec<i64> = s.list_tasks(true, None, false, None, None, None).iter().map(|t| t.id).collect();
    assert_eq!(ids, vec![b.id, c.id, a.id]);
    let ids: Vec<i64> = s.list_tasks(false, None, false, Some(2), Some(1), None).iter().map(|t| t.id).collect();
    assert_eq!(ids, vec![c.id, a.id]);
}

#[test]
fn advance_starts_the_task_that_waited_on_the_one_it_completes() {
    let mut s = Store::new();
    let t1 = create_task(&mut s, "Task 1", "", "DoD", None, None, None).unwrap();
    let t2 = create_task(&mut s, "Task 2", "", "DoD", None, None, Some(vec![t1.id])).unwrap();
    s.start_task(t1.id, &now()).unwrap();
    let preview = s.advance_task(true, &now()).unwrap();
    assert_eq!(preview.completed.unwrap().id, t1.id);
    assert_eq!(preview.started.unwrap().id, t2.id);
    assert_eq!(s.get_task(t1.id, false).unwrap().status, TaskStatus::InProgress);
    let r = s.advance_task(false, &now()).unwrap();
    assert_eq!(r.completed.unwrap().id, t1.id);
    assert_eq!(r.started.unwrap().id, t2.id);
    assert_eq!(s.get_task(t2.id, false).unwrap().status, TaskStatus::InProgress);
}

#[test]
fn edit_complete_acts_only_on_the_task_in_progress() {
    let mut s = Store::new();
    let a = create_task(&mut s, "A", "", "DoD", None, None, None).unwrap();
    let b = create_task(&mut s, "B", "", "DoD", None, None, None).unwrap();
    s.start_task(b.id, &now()).unwrap();
    match s.edit_task(a.id, None, None, None, None, Some(EditAction::Complete), &now()) {
        Err(Error::AnotherTaskActive(id, title)) => {
            assert_eq!(id, b.id);
            assert_eq!(title, "B");
        }
        other => panic!("expected a refusal, got {other:?}"),
    }
    assert!(matches!(
        s.edit_task(a.id, None, None, None, None, Some(EditAction::Stop), &now()),
        Err(Error::AnotherTaskActive(_, _))
    ));
    assert_eq!(s.get_task(b.id, false).unwrap().status, TaskStatus::InProgress);
    assert_eq!(s.get_task(a.id, false).unwrap().status, TaskStatus::Pending);
    assert!(matches!(
        s.edit_task(99, None, None, None, None, Some(EditAction::Complete), &now()),
        Err(Error::TaskNotFound(99))
    ));
    let done = s.edit_task(b.id, None, None, None, None, Some(EditAction::Complete), &now()).unwrap();
    assert_eq!(done.status, TaskStatus::Completed);
    assert!(matches!(
        s.edit_task(a.id, None, None, None, None, Some(EditAction::Stop), &now()),
        Err(Error::NoActiveTask)
    ));
}
