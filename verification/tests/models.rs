use tt::models::{EditAction, TaskStatus};

#[test]
fn test_task_status_from_db() {
    assert_eq!(TaskStatus::from_db("pending").unwrap(), TaskStatus::Pending);
    assert_eq!(TaskStatus::from_db("in_progress").unwrap(), TaskStatus::InProgress);
    assert_eq!(TaskStatus::from_db("completed").unwrap(), TaskStatus::Completed);
    assert_eq!(TaskStatus::from_db("blocked").unwrap(), TaskStatus::Blocked);
    assert!(TaskStatus::from_db("invalid").is_err());
}

#[test]
fn test_task_status_to_db() {
    assert_eq!(TaskStatus::Pending.to_db(), "pending");
    assert_eq!(TaskStatus::InProgress.to_db(), "in_progress");
    assert_eq!(TaskStatus::Completed.to_db(), "completed");
    assert_eq!(TaskStatus::Blocked.to_db(), "blocked");
}

#[test]
fn test_task_status_can_start() {
    assert!(TaskStatus::Pending.can_start());
    assert!(!TaskStatus::InProgress.can_start());
    assert!(!TaskStatus::Completed.can_start());
    assert!(!TaskStatus::Blocked.can_start());
}

#[test]
fn test_task_status_can_block() {
    assert!(TaskStatus::Pending.can_block());
    assert!(TaskStatus::InProgress.can_block());
    assert!(!TaskStatus::Completed.can_block());
    assert!(!TaskStatus::Blocked.can_block());
}

#[test]
fn test_task_status_can_unblock() {
    assert!(!TaskStatus::Pending.can_unblock());
    assert!(!TaskStatus::InProgress.can_unblock());
    assert!(!TaskStatus::Completed.can_unblock());
    assert!(TaskStatus::Blocked.can_unblock());
}

#[test]
fn test_task_status_display_char() {
    assert_eq!(TaskStatus::Pending.display_char(), '○');
    assert_eq!(TaskStatus::InProgress.display_char(), '●');
    assert_eq!(TaskStatus::Completed.display_char(), '✓');
    assert_eq!(TaskStatus::Blocked.display_char(), '✗');
}

#[test]
fn cancelled_status_round_trips() {
    assert_eq!(TaskStatus::Cancelled.to_db(), "cancelled");
    assert_eq!(TaskStatus::from_db("cancelled").unwrap(), TaskStatus::Cancelled);
    assert_eq!(TaskStatus::Cancelled.display_char(), '✕');
}

#[test]
fn every_status_round_trips_through_its_stored_name() {
    for s in [TaskStatus::Pending, TaskStatus::InProgress, TaskStatus::Completed, TaskStatus::Blocked, TaskStatus::Cancelled] {
        assert_eq!(TaskStatus::from_db(s.to_db()).unwrap(), s);
    }
}

#[test]
fn stored_status_names_are_case_sensitive() {
    assert!(TaskStatus::from_db("Pending").is_err());
}

#[test]
fn edit_actions_parse_by_name() {
    assert_eq!(EditAction::from_name("complete").unwrap(), EditAction::Complete);
    assert_eq!(EditAction::from_name("stop").unwrap(), EditAction::Stop);
    assert_eq!(EditAction::from_name("cancel").unwrap(), EditAction::Cancel);
    assert_eq!(EditAction::from_name("block").unwrap(), EditAction::Block);
    assert_eq!(EditAction::from_name("unblock").unwrap(), EditAction::Unblock);
    match EditAction::from_name("jump") {
        Err(e) => assert_eq!(e.message(), "Invalid argument: Invalid action: jump"),
        Ok(_) => panic!("jump is no action"),
    }
}
