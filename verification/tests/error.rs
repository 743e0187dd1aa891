use tt::error::{error_code_from_tt, Error};

#[test]
fn test_error_task_not_found() {
    let err = Error::TaskNotFound(42);
    assert_eq!(err.message(), "Task #42 not found");
}

#[test]
fn test_error_another_task_active() {
    let err = Error::AnotherTaskActive(5, "Write docs".to_string());
    assert_eq!(err.message(), "Task #5 is already in progress. Finish or stop it first.");
}

#[test]
fn test_error_cycle_detected() {
    let err = Error::CycleDetected(1, 3, vec![1, 2, 3, 1]);
    assert_eq!(err.message(), "Adding #1 -> #3 would create a cycle: [1, 2, 3, 1]");
}

#[test]
fn test_error_unmet_dependencies() {
    let err = Error::UnmetDependencies(10, vec![5, 6]);
    assert_eq!(err.message(), "Cannot start #10: dependencies not completed: [5, 6]");
}

#[test]
fn test_error_no_dod() {
    let err = Error::NoDod(7);
    assert_eq!(err.message(), "Task #7 has no definition of done. Set one with `tt edit 7 --dod`");
}

#[test]
fn test_error_float_precision_exhausted() {
    let err = Error::FloatPrecisionExhausted;
    assert_eq!(err.message(), "Float precision exhausted. Run `tt reindex` to reset ordering.");
}

#[test]
fn test_error_code_mapping() {
    assert_eq!(error_code_from_tt(&Error::TaskNotFound(42)), "TaskNotFound");
    assert_eq!(error_code_from_tt(&Error::NoActiveTask), "NoActiveTask");
}

#[test]
fn every_error_has_its_code_and_message() {
    let cases: Vec<(Error, &str, &str)> = vec![
        (Error::TaskNotPending(3), "TaskNotPending", "Task #3 is not pending, cannot start"),
        (Error::NoActiveTask, "NoActiveTask", "No task is currently in progress"),
        (Error::NoTarget, "NoTarget", "No target set. Use `tt target <id>` first."),
        (Error::TargetReached(9), "TargetReached", "Target reached. All tasks for #9 are completed."),
        (Error::InvalidStatus("done".to_string()), "InvalidStatus", "Invalid status: done"),
        (Error::AllBlocked(vec![4]), "AllBlocked", "All remaining tasks are blocked: [4]"),
        (Error::Db("x".to_string()), "Db", "Database error: x"),
        (Error::Io("y".to_string()), "Io", "IO error: y"),
        (Error::JsonRpc("z".to_string()), "JsonRpc", "JSON-RPC error: z"),
        (Error::NotSupported("w".to_string()), "NotSupported", "Not supported: w"),
        (Error::Mcp("v".to_string()), "Mcp", "MCP error: v"),
        (Error::InvalidArgument("u".to_string()), "InvalidArgument", "Invalid argument: u"),
        (Error::FloatPrecisionExhausted, "FloatPrecisionExhausted", "Float precision exhausted. Run `tt reindex` to reset ordering."),
        (Error::CycleDetected(2, 2, vec![2, 2]), "CycleDetected", "Adding #2 -> #2 would create a cycle: [2, 2]"),
        (Error::TaskNotFound(-1), "TaskNotFound", "Task #-1 not found"),
    ];
    for (e, code, message) in cases {
        assert_eq!(error_code_from_tt(&e), code);
        assert_eq!(e.message(), message);
    }
}

#[test]
fn empty_id_lists_render_as_brackets() {
    assert_eq!(Error::AllBlocked(vec![]).message(), "All remaining tasks are blocked: []");
}

#[test]
fn integers_render_as_std_renders_them() {
    for i in [0i64, 7, 10, -1, -10, 1234567890, i64::MAX, i64::MIN] {
        assert_eq!(tt::text::int_to_string(i), i.to_string());
    }
}
