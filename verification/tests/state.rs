use tt::error::Error;
use tt::models::{Task, TaskStatus};
use tt::state::{
    can_block_task, can_cancel_task, can_complete_task, can_start_task, can_stop_task, can_unblock_task,
    transition_status, validate_transition,
};

fn make_task(id: i64, status: TaskStatus) -> Task {
    Task {
        id,
        title: format!("Task {id}"),
        description: None,
        dod: None,
        status,
        manual_order: 10,
        created_at: "2025-06-01T10:00:00".to_string(),
        started_at: None,
        completed_at: None,
        last_touched_at: "2025-06-01T10:00:00".to_string(),
        deleted: false,
    }
}

fn make_task_with_dod(id: i64, status: TaskStatus, dod: &str) -> Task {
    let mut task = make_task(id, status);
    task.dod = Some(dod.to_string());
    task
}

#[test]
fn test_valid_transitions() {
    assert!(validate_transition(TaskStatus::Pending, TaskStatus::InProgress, 1).is_ok());
    assert!(validate_transition(TaskStatus::InProgress, TaskStatus::Pending, 1).is_ok());
    assert!(validate_transition(TaskStatus::InProgress, TaskStatus::Completed, 1).is_ok());
    assert!(validate_transition(TaskStatus::Pending, TaskStatus::Blocked, 1).is_ok());
    assert!(validate_transition(TaskStatus::InProgress, TaskStatus::Blocked, 1).is_ok());
    assert!(validate_transition(TaskStatus::Blocked, TaskStatus::Pending, 1).is_ok());
}

#[test]
fn test_idempotent_start() {
    assert!(validate_transition(TaskStatus::InProgress, TaskStatus::InProgress, 1).is_ok());
}

#[test]
fn test_invalid_pending_to_completed() {
    let result = validate_transition(TaskStatus::Pending, TaskStatus::Completed, 5);
    assert!(result.is_err());
    assert!(matches!(result.unwrap_err(), Error::TaskNotPending(5)));
}

#[test]
fn test_invalid_blocked_to_in_progress() {
    let result = validate_transition(TaskStatus::Blocked, TaskStatus::InProgress, 7);
    assert!(result.is_err());
}

#[test]
fn test_invalid_completed_transitions() {
    let result = validate_transition(TaskStatus::Completed, TaskStatus::Pending, 1);
    assert!(result.is_err());
    assert!(matches!(result.unwrap_err(), Error::NotSupported(_)));
}

#[test]
fn test_valid_pending_to_cancelled() {
    assert!(validate_transition(TaskStatus::Pending, TaskStatus::Cancelled, 1).is_ok());
}

#[test]
fn test_valid_in_progress_to_cancelled() {
    assert!(validate_transition(TaskStatus::InProgress, TaskStatus::Cancelled, 1).is_ok());
}

#[test]
fn test_invalid_cancelled_transitions() {
    let result = validate_transition(TaskStatus::Cancelled, TaskStatus::Pending, 1);
    assert!(result.is_err());
    assert!(matches!(result.unwrap_err(), Error::NotSupported(_)));
}

#[test]
fn test_can_start_pending_task() {
    let task = make_task(1, TaskStatus::Pending);
    let result = can_start_task(&task, None, &[]);
    assert!(result.is_ok());
}

#[test]
fn test_can_start_already_in_progress() {
    let task = make_task(1, TaskStatus::InProgress);
    let result = can_start_task(&task, None, &[]);
    assert!(result.is_ok());
}

#[test]
fn test_cannot_start_blocked_task() {
    let task = make_task(1, TaskStatus::Blocked);
    let result = can_start_task(&task, None, &[]);
    assert!(result.is_err());
    assert!(matches!(result.unwrap_err(), Error::TaskNotPending(1)));
}

#[test]
fn test_cannot_start_with_active_task() {
    let task = make_task(1, TaskStatus::Pending);
    let active = make_task(2, TaskStatus::InProgress);
    let result = can_start_task(&task, Some(&active), &[]);
    assert!(result.is_err());
    assert!(matches!(result.unwrap_err(), Error::AnotherTaskActive(2, _)));
}

#[test]
fn test_cannot_start_with_unmet_dependencies() {
    let task = make_task(1, TaskStatus::Pending);
    let result = can_start_task(&task, None, &[5, 6]);
    assert!(result.is_err());
    match result.unwrap_err() {
        Error::UnmetDependencies(id, deps) => {
            assert_eq!(id, 1);
            assert_eq!(deps, vec![5, 6]);
        }
        _ => panic!("Expected UnmetDependencies error"),
    }
}

#[test]
fn test_can_complete_in_progress_with_dod() {
    let task = make_task_with_dod(1, TaskStatus::InProgress, "Definition of done");
    assert!(can_complete_task(&task).is_ok());
}

#[test]
fn test_cannot_complete_pending_task() {
    let task = make_task_with_dod(1, TaskStatus::Pending, "Definition of done");
    let result = can_complete_task(&task);
    assert!(result.is_err());
    assert!(matches!(result.unwrap_err(), Error::NoActiveTask));
}

#[test]
fn state_test_cannot_complete_without_dod() {
    let task = make_task(1, TaskStatus::InProgress);
    let result = can_complete_task(&task);
    assert!(result.is_err());
    assert!(matches!(result.unwrap_err(), Error::NoDod(1)));
}

#[test]
fn test_cannot_complete_with_empty_dod() {
    let task = make_task_with_dod(1, TaskStatus::InProgress, "   ");
    let result = can_complete_task(&task);
    assert!(result.is_err());
    assert!(matches!(result.unwrap_err(), Error::NoDod(1)));
}

#[test]
fn test_can_stop_in_progress_task() {
    let task = make_task(1, TaskStatus::InProgress);
    assert!(can_stop_task(&task).is_ok());
}

#[test]
fn test_cannot_stop_pending_task() {
    let task = make_task(1, TaskStatus::Pending);
    let result = can_stop_task(&task);
    assert!(result.is_err());
    assert!(matches!(result.unwrap_err(), Error::NoActiveTask));
}

#[test]
fn test_can_block_pending_task() {
    assert!(can_block_task(&make_task(1, TaskStatus::Pending)).is_ok());
}

#[test]
fn test_can_block_in_progress_task() {
    assert!(can_block_task(&make_task(1, TaskStatus::InProgress)).is_ok());
}

#[test]
fn test_cannot_block_blocked_task() {
    assert!(can_block_task(&make_task(1, TaskStatus::Blocked)).is_err());
}

#[test]
fn test_cannot_block_completed_task() {
    assert!(can_block_task(&make_task(1, TaskStatus::Completed)).is_err());
}

#[test]
fn test_can_unblock_blocked_task() {
    assert!(can_unblock_task(&make_task(1, TaskStatus::Blocked)).is_ok());
}

#[test]
fn test_cannot_unblock_pending_task() {
    assert!(can_unblock_task(&make_task(1, TaskStatus::Pending)).is_err());
}

#[test]
fn test_cannot_unblock_in_progress_task() {
    assert!(can_unblock_task(&make_task(1, TaskStatus::InProgress)).is_err());
}

#[test]
fn test_can_cancel_pending_task() {
    assert!(can_cancel_task(&make_task(1, TaskStatus::Pending)).is_ok());
}

#[test]
fn test_can_cancel_in_progress_task() {
    assert!(can_cancel_task(&make_task(1, TaskStatus::InProgress)).is_ok());
}

#[test]
fn test_can_cancel_blocked_task() {
    assert!(can_cancel_task(&make_task(1, TaskStatus::Blocked)).is_ok());
}

#[test]
fn test_cannot_cancel_completed_task() {
    assert!(can_cancel_task(&make_task(1, TaskStatus::Completed)).is_err());
}

#[test]
fn test_cannot_cancel_cancelled_task() {
    assert!(can_cancel_task(&make_task(1, TaskStatus::Cancelled)).is_err());
}

#[test]
fn refusal_messages_name_the_statuses() {
    match validate_transition(TaskStatus::Blocked, TaskStatus::Cancelled, 3) {
        Err(Error::NotSupported(m)) => assert_eq!(m, "Cannot transition from Blocked to Cancelled"),
        _ => panic!("blocked tasks cannot be cancelled directly"),
    }
    match validate_transition(TaskStatus::Completed, TaskStatus::Pending, 3) {
        Err(Error::NotSupported(m)) => assert_eq!(m, "Completed tasks cannot change status"),
        _ => panic!("completed is final"),
    }
    match can_block_task(&make_task(4, TaskStatus::Completed)) {
        Err(Error::NotSupported(m)) => assert_eq!(m, "Cannot block task with status Completed"),
        _ => panic!("completed tasks cannot be blocked"),
    }
}

#[test]
fn transition_status_gives_the_target() {
    assert_eq!(transition_status(TaskStatus::Pending, TaskStatus::Blocked), TaskStatus::Blocked);
}
