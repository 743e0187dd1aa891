use tt::error::Error;
use tt::models::{Task, TaskStatus};
use tt::ordering::order_key_from_bits;
use tt::store::{RowFilter, Store};

fn now() -> String {
    "2025-06-01T10:00:00".to_string()
}

fn key(order: f64) -> u64 {
    order_key_from_bits(order.to_bits())
}

fn create_task(s: &mut Store, title: &str, description: &str, dod: &str, order: f64) -> Result<Task, Error> {
    s.create_task(title, description, dod, key(order), None, &now())
}

fn dependency_exists(s: &Store, task_id: i64, depends_on: i64) -> bool {
    s.edge_rows().iter().any(|d| d.task_id == task_id && d.depends_on == depends_on)
}

/// Completes a task through the workflow (it needs a definition of done).
fn finish(s: &mut Store, id: i64) {
    s.start_task(id, &now()).unwrap();
    s.complete_task(&now()).unwrap();
}

#[test]
fn tasks_test_create_task() {
    let mut s = Store::new();
    let task = create_task(&mut s, "Test Task", "", "", 10.0).unwrap();
    assert_eq!(task.title, "Test Task");
    assert_eq!(task.status, TaskStatus::Pending);
    assert_eq!(task.manual_order, key(10.0));
    assert!(task.id > 0);
}

#[test]
fn test_create_task_with_description() {
    let mut s = Store::new();
    let task = create_task(&mut s, "Test", "Description", "DoD", 10.0).unwrap();
    assert_eq!(task.description, Some("Description".to_string()));
    assert_eq!(task.dod, Some("DoD".to_string()));
}

#[test]
fn test_get_task() {
    let mut s = Store::new();
    let created = create_task(&mut s, "Test", "", "", 10.0).unwrap();
    let fetched = s.get_task(created.id, false);
    assert!(fetched.is_some());
    assert_eq!(fetched.unwrap().title, "Test");
}

#[test]
fn tasks_test_get_task_not_found() {
    let s = Store::new();
    assert!(s.get_task(999, false).is_none());
}

#[test]
fn test_get_all_tasks() {
    let mut s = Store::new();
    create_task(&mut s, "Task A", "", "", 20.0).unwrap();
    create_task(&mut s, "Task B", "", "", 10.0).unwrap();
    let tasks = s.get_all_tasks();
    assert_eq!(tasks.len(), 2);
    assert_eq!(tasks[0].title, "Task B");
    assert_eq!(tasks[1].title, "Task A");
}

#[test]
fn test_get_tasks_by_status() {
    let mut s = Store::new();
    let task = create_task(&mut s, "Test", "", "", 10.0).unwrap();
    s.start_task(task.id, &now()).unwrap();
    assert_eq!(s.select_tasks(RowFilter::Status(TaskStatus::InProgress)).len(), 1);
    assert_eq!(s.select_tasks(RowFilter::Status(TaskStatus::Pending)).len(), 0);
}

#[test]
fn test_get_active_task() {
    let mut s = Store::new();
    assert!(s.get_active_task().is_none());
    let task = create_task(&mut s, "Test", "", "", 10.0).unwrap();
    s.start_task(task.id, &now()).unwrap();
    let active = s.get_active_task();
    assert!(active.is_some());
    assert_eq!(active.unwrap().id, task.id);
}

#[test]
fn test_update_task_title() {
    let mut s = Store::new();
    let task = create_task(&mut s, "Old", "", "", 10.0).unwrap();
    s.edit_task(task.id, Some("New"), None, None, None, None, &now()).unwrap();
    assert_eq!(s.get_task(task.id, false).unwrap().title, "New");
}

#[test]
fn test_update_task_not_found() {
    let mut s = Store::new();
    let result = s.edit_task(999, Some("New"), None, None, None, None, &now());
    assert!(matches!(result.unwrap_err(), Error::TaskNotFound(999)));
}

#[test]
fn test_start_stop_complete_task() {
    let mut s = Store::new();
    let task = create_task(&mut s, "Test", "", "DoD", 10.0).unwrap();
    s.start_task(task.id, &now()).unwrap();
    let started = s.get_task(task.id, false).unwrap();
    assert_eq!(started.status, TaskStatus::InProgress);
    assert!(started.started_at.is_some());
    s.stop_task(&now()).unwrap();
    let stopped = s.get_task(task.id, false).unwrap();
    assert_eq!(stopped.status, TaskStatus::Pending);
    assert!(stopped.started_at.is_some());
    s.start_task(task.id, &now()).unwrap();
    s.complete_task(&now()).unwrap();
    let completed = s.get_task(task.id, false).unwrap();
    assert_eq!(completed.status, TaskStatus::Completed);
    assert!(completed.completed_at.is_some());
}

#[test]
fn test_block_unblock_task() {
    let mut s = Store::new();
    let task = create_task(&mut s, "Test", "", "", 10.0).unwrap();
    s.block_task(task.id, &now()).unwrap();
    assert_eq!(s.get_task(task.id, false).unwrap().status, TaskStatus::Blocked);
    s.unblock_task(task.id, &now()).unwrap();
    assert_eq!(s.get_task(task.id, false).unwrap().status, TaskStatus::Pending);
}

#[test]
fn test_update_task_order() {
    let mut s = Store::new();
    let task = create_task(&mut s, "Test", "", "", 10.0).unwrap();
    s.set_task_order(task.id, key(50.0), &now()).unwrap();
    assert_eq!(s.get_task(task.id, false).unwrap().manual_order, key(50.0));
}

#[test]
fn test_archive_completed_tasks() {
    let mut s = Store::new();
    let pending = create_task(&mut s, "Pending", "", "", 10.0).unwrap();
    let completed = create_task(&mut s, "Completed", "", "DoD", 20.0).unwrap();
    let another = create_task(&mut s, "Another", "", "DoD", 30.0).unwrap();
    finish(&mut s, completed.id);
    finish(&mut s, another.id);
    assert_eq!(s.get_all_tasks().len(), 3);
    s.archive_completed(&now());
    assert_eq!(s.select_tasks(RowFilter::Archived).len(), 2);
    let remaining = s.get_all_tasks();
    assert_eq!(remaining.len(), 1);
    assert_eq!(remaining[0].id, pending.id);
}

#[test]
fn test_get_archived_tasks() {
    let mut s = Store::new();
    let task = create_task(&mut s, "Test", "", "DoD", 10.0).unwrap();
    finish(&mut s, task.id);
    s.archive_completed(&now());
    let archived = s.select_tasks(RowFilter::Archived);
    assert_eq!(archived.len(), 1);
    assert_eq!(archived[0].id, task.id);
}

#[test]
fn test_get_task_by_id_includes_archived() {
    let mut s = Store::new();
    let task = create_task(&mut s, "Test", "", "DoD", 10.0).unwrap();
    finish(&mut s, task.id);
    s.archive_completed(&now());
    let found = s.get_task(task.id, true);
    assert!(found.is_some());
    assert_eq!(found.unwrap().id, task.id);
    assert!(s.get_task(task.id, false).is_none());
}

#[test]
fn dependencies_test_add_dependency() {
    let mut s = Store::new();
    let task1 = create_task(&mut s, "Task 1", "", "", 10.0).unwrap();
    let task2 = create_task(&mut s, "Task 2", "", "", 20.0).unwrap();
    s.add_dependency(task2.id, task1.id).unwrap();
    assert!(dependency_exists(&s, task2.id, task1.id));
}

#[test]
fn test_add_duplicate_dependency_fails() {
    let mut s = Store::new();
    let task1 = create_task(&mut s, "Task 1", "", "", 10.0).unwrap();
    let task2 = create_task(&mut s, "Task 2", "", "", 20.0).unwrap();
    s.add_dependency(task2.id, task1.id).unwrap();
    assert!(s.add_dependency(task2.id, task1.id).is_err());
}

#[test]
fn test_self_dependency_fails() {
    let mut s = Store::new();
    let task1 = create_task(&mut s, "Task 1", "", "", 10.0).unwrap();
    assert!(s.add_dependency(task1.id, task1.id).is_err());
}

#[test]
fn test_remove_dependency() {
    let mut s = Store::new();
    let task1 = create_task(&mut s, "Task 1", "", "", 10.0).unwrap();
    let task2 = create_task(&mut s, "Task 2", "", "", 20.0).unwrap();
    s.add_dependency(task2.id, task1.id).unwrap();
    s.remove_dependency(task2.id, task1.id).unwrap();
    assert!(!dependency_exists(&s, task2.id, task1.id));
}

#[test]
fn test_remove_nonexistent_dependency() {
    let mut s = Store::new();
    assert!(s.remove_dependency(1, 2).is_err());
}

#[test]
fn test_get_dependencies() {
    let mut s = Store::new();
    let task1 = create_task(&mut s, "Task 1", "", "", 10.0).unwrap();
    let task2 = create_task(&mut s, "Task 2", "", "", 20.0).unwrap();
    let task3 = create_task(&mut s, "Task 3", "", "", 30.0).unwrap();
    s.add_dependency(task3.id, task1.id).unwrap();
    s.add_dependency(task3.id, task2.id).unwrap();
    assert_eq!(s.get_task_detail(task3.id).unwrap().dependencies.len(), 2);
}

#[test]
fn test_get_dependents() {
    let mut s = Store::new();
    let task1 = create_task(&mut s, "Task 1", "", "", 10.0).unwrap();
    let task2 = create_task(&mut s, "Task 2", "", "", 20.0).unwrap();
    let task3 = create_task(&mut s, "Task 3", "", "", 30.0).unwrap();
    s.add_dependency(task2.id, task1.id).unwrap();
    s.add_dependency(task3.id, task1.id).unwrap();
    assert_eq!(s.get_task_detail(task1.id).unwrap().dependents.len(), 2);
}

#[test]
fn test_get_incomplete_dependencies() {
    let mut s = Store::new();
    let task1 = create_task(&mut s, "Task 1", "", "", 10.0).unwrap();
    let task2 = create_task(&mut s, "Task 2", "", "", 20.0).unwrap();
    let task3 = create_task(&mut s, "Task 3", "", "", 30.0).unwrap();
    s.add_dependency(task3.id, task1.id).unwrap();
    s.add_dependency(task3.id, task2.id).unwrap();
    let incomplete = s.get_incomplete_dependencies(task3.id);
    assert_eq!(incomplete.len(), 2);
    assert!(incomplete.contains(&task1.id));
    assert!(incomplete.contains(&task2.id));
}

#[test]
fn test_get_all_dependencies() {
    let mut s = Store::new();
    let task1 = create_task(&mut s, "Task 1", "", "", 10.0).unwrap();
    let task2 = create_task(&mut s, "Task 2", "", "", 20.0).unwrap();
    s.add_dependency(task2.id, task1.id).unwrap();
    let all = s.edge_rows();
    assert_eq!(all.len(), 1);
    assert_eq!(all[0].task_id, task2.id);
    assert_eq!(all[0].depends_on, task1.id);
}

#[test]
fn test_has_dependencies() {
    let mut s = Store::new();
    let task1 = create_task(&mut s, "Task 1", "", "", 10.0).unwrap();
    let task2 = create_task(&mut s, "Task 2", "", "", 20.0).unwrap();
    assert!(!s.edge_rows().iter().any(|d| d.task_id == task2.id));
    s.add_dependency(task2.id, task1.id).unwrap();
    assert!(s.edge_rows().iter().any(|d| d.task_id == task2.id));
}

#[test]
fn test_create_artifact() {
    let mut s = Store::new();
    let task = create_task(&mut s, "Test Task", "", "", 10.0).unwrap();
    let artifact = s.log_artifact("research", ".tt/artifacts/1-research.md", Some(task.id), &now()).unwrap();
    assert_eq!(artifact.task_id, task.id);
    assert_eq!(artifact.name, "research");
    assert_eq!(artifact.file_path, ".tt/artifacts/1-research.md");
    assert!(artifact.id > 0);
}

#[test]
fn test_get_artifacts_for_task() {
    let mut s = Store::new();
    let task1 = create_task(&mut s, "Task 1", "", "", 10.0).unwrap();
    let task2 = create_task(&mut s, "Task 2", "", "", 20.0).unwrap();
    s.log_artifact("research", ".tt/artifacts/1-research.md", Some(task1.id), &now()).unwrap();
    s.log_artifact("plan", ".tt/artifacts/1-plan.md", Some(task1.id), &now()).unwrap();
    s.log_artifact("research", ".tt/artifacts/2-research.md", Some(task2.id), &now()).unwrap();
    assert_eq!(s.get_artifacts_for_task(task1.id).len(), 2);
}

#[test]
fn rows_that_break_the_rules_are_refused() {
    let mut s = Store::new();
    let a = create_task(&mut s, "A", "", "", 10.0).unwrap();
    let b = create_task(&mut s, "B", "", "", 20.0).unwrap();
    let mut rows = vec![a.clone(), b.clone()];
    rows[0].status = TaskStatus::InProgress;
    rows[1].status = TaskStatus::InProgress;
    assert!(matches!(Store::from_rows(rows, vec![], vec![], None, 3, 1), Err(Error::Db(_))));
    let edge = tt::models::Dependency { task_id: a.id, depends_on: 7 };
    assert!(matches!(Store::from_rows(vec![a.clone(), b.clone()], vec![edge], vec![], None, 3, 1), Err(Error::Db(_))));
    let restored = Store::from_rows(vec![a, b], vec![], vec![], Some(2), 3, 1).unwrap();
    assert_eq!(restored.target_id(), Some(2));
    assert_eq!(restored.next_ids(), (3, 1));
}

#[test]
fn artifacts_need_an_existing_task() {
    let mut s = Store::new();
    match s.log_artifact("x", "y", Some(5), &now()) {
        Err(Error::Db(m)) => assert_eq!(m, "FOREIGN KEY constraint failed"),
        _ => panic!("no task 5"),
    }
}

#[test]
fn idle_reason_tells_completed_from_blocked() {
    let mut s = Store::new();
    assert_eq!(s.idle_reason(), tt::store::IdleReason::AllCompleted);
    let a = create_task(&mut s, "A", "", "DoD", 10.0).unwrap();
    assert_eq!(s.idle_reason(), tt::store::IdleReason::NextAvailable);
    s.block_task(a.id, &now()).unwrap();
    assert_eq!(s.idle_reason(), tt::store::IdleReason::AllBlocked);
    let b = create_task(&mut s, "B", "", "DoD", 20.0).unwrap();
    s.add_dependency(b.id, a.id).unwrap();
    assert_eq!(s.idle_reason(), tt::store::IdleReason::NoneRunnable);
}

#[test]
fn prerequisite_marks_name_each_prerequisite_with_its_status() {
    let mut s = Store::new();
    let a = create_task(&mut s, "A", "", "DoD", 10.0).unwrap();
    let b = create_task(&mut s, "B", "", "DoD", 20.0).unwrap();
    let c = create_task(&mut s, "C", "", "DoD", 30.0).unwrap();
    s.add_dependency(c.id, b.id).unwrap();
    s.add_dependency(c.id, a.id).unwrap();
    finish(&mut s, a.id);
    assert_eq!(
        s.prerequisite_marks(c.id),
        vec![(b.id, Some(TaskStatus::Pending)), (a.id, Some(TaskStatus::Completed))]
    );
    assert!(s.prerequisite_marks(a.id).is_empty());
}

#[test]
fn test_get_artifact() {
    let mut s = Store::new();
    let task = create_task(&mut s, "Test Task", "", "", 10.0).unwrap();
    let created = s.log_artifact("research", ".tt/artifacts/1-research.md", Some(task.id), &now()).unwrap();
    let fetched = s.get_artifact(created.id);
    assert!(fetched.is_some());
    assert_eq!(fetched.unwrap().name, "research");
}

#[test]
fn test_delete_artifact() {
    let mut s = Store::new();
    let task = create_task(&mut s, "Test Task", "", "", 10.0).unwrap();
    let artifact = s.log_artifact("research", ".tt/artifacts/1-research.md", Some(task.id), &now()).unwrap();
    s.delete_artifact(artifact.id).unwrap();
    let fetched = s.get_artifact(artifact.id);
    assert!(fetched.is_none());
}

#[test]
fn test_delete_nonexistent_artifact() {
    let mut s = Store::new();
    let result = s.delete_artifact(999);
    assert!(result.is_err());
    match result {
        Err(Error::NotSupported(m)) => assert_eq!(m, "Artifact not found"),
        _ => panic!("no artifact 999"),
    }
}

#[test]
fn deleting_an_artifact_keeps_the_others() {
    let mut s = Store::new();
    let task = create_task(&mut s, "T", "", "", 10.0).unwrap();
    let a = s.log_artifact("a", "a.md", Some(task.id), &now()).unwrap();
    let b = s.log_artifact("b", "b.md", Some(task.id), &now()).unwrap();
    let c = s.log_artifact("c", "c.md", Some(task.id), &now()).unwrap();
    s.delete_artifact(b.id).unwrap();
    let ids: Vec<i64> = s.artifact_rows().iter().map(|x| x.id).collect();
    assert_eq!(ids, vec![a.id, c.id]);
    assert_eq!(s.next_ids().1, c.id + 1);
}
