use tt::models::{Dependency, Task, TaskStatus};
use tt::ordering::order_key_from_bits;
use tt::target::{all_remaining_blocked, compute_target_subgraph, find_next_task, get_blocked_tasks, is_target_reached};

fn make_task(id: i64, status: TaskStatus) -> Task {
    Task {
        id,
        title: format!("Task {id}"),
        description: None,
        dod: None,
        status,
        manual_order: order_key_from_bits((id as f64 * 10.0).to_bits()),
        created_at: "2025-06-01T10:00:00".to_string(),
        started_at: None,
        completed_at: None,
        last_touched_at: "2025-06-01T10:00:00".to_string(),
        deleted: false,
    }
}

fn dep(task_id: i64, depends_on: i64) -> Dependency {
    Dependency { task_id, depends_on }
}

#[test]
fn test_subgraph_empty() {
    let tasks = vec![];
    let deps = vec![];
    let result = compute_target_subgraph(1, &tasks, &deps);
    assert!(result.is_empty());
}

#[test]
fn test_subgraph_single_target_no_deps() {
    let tasks = vec![make_task(1, TaskStatus::Pending)];
    let deps = vec![];
    let result = compute_target_subgraph(1, &tasks, &deps);
    assert_eq!(result.len(), 1);
    assert_eq!(result[0].id, 1);
}

#[test]
fn test_subgraph_linear_chain() {
    let tasks = vec![
        make_task(4, TaskStatus::Pending),
        make_task(3, TaskStatus::Pending),
        make_task(2, TaskStatus::Pending),
        make_task(1, TaskStatus::Pending),
    ];
    let deps = vec![dep(4, 3), dep(3, 2), dep(2, 1)];
    let result = compute_target_subgraph(4, &tasks, &deps);
    assert_eq!(result.len(), 4);
    let ids: Vec<i64> = result.iter().map(|t| t.id).collect();
    assert!(ids.contains(&1));
    assert!(ids.contains(&2));
    assert!(ids.contains(&3));
    assert!(ids.contains(&4));
}

#[test]
fn test_subgraph_excludes_completed() {
    let tasks = vec![make_task(2, TaskStatus::Pending), make_task(1, TaskStatus::Completed)];
    let deps = vec![dep(2, 1)];
    let result = compute_target_subgraph(2, &tasks, &deps);
    assert_eq!(result.len(), 1);
    assert_eq!(result[0].id, 2);
}

#[test]
fn test_is_target_reached() {
    let tasks = vec![make_task(2, TaskStatus::Completed), make_task(1, TaskStatus::Completed)];
    let deps = vec![dep(2, 1)];
    assert!(is_target_reached(2, &tasks, &deps));
}

#[test]
fn test_is_target_not_reached() {
    let tasks = vec![make_task(2, TaskStatus::Pending), make_task(1, TaskStatus::Completed)];
    let deps = vec![dep(2, 1)];
    assert!(!is_target_reached(2, &tasks, &deps));
}

#[test]
fn test_find_next_task_simple() {
    let tasks = vec![make_task(2, TaskStatus::Pending), make_task(1, TaskStatus::Pending)];
    let deps = vec![dep(2, 1)];
    let next = find_next_task(2, &tasks, &deps);
    assert!(next.is_some());
    assert_eq!(next.unwrap().id, 1);
}

#[test]
fn test_find_next_task_no_ready() {
    let tasks = vec![make_task(2, TaskStatus::Pending), make_task(1, TaskStatus::Blocked)];
    let deps = vec![dep(2, 1)];
    let next = find_next_task(2, &tasks, &deps);
    assert!(next.is_none());
}

#[test]
fn test_find_next_task_target_reached() {
    let tasks = vec![make_task(2, TaskStatus::Completed), make_task(1, TaskStatus::Completed)];
    let deps = vec![dep(2, 1)];
    let next = find_next_task(2, &tasks, &deps);
    assert!(next.is_none());
}

#[test]
fn test_get_blocked_tasks() {
    let tasks = vec![
        make_task(3, TaskStatus::Blocked),
        make_task(2, TaskStatus::Pending),
        make_task(1, TaskStatus::Completed),
    ];
    let deps = vec![dep(3, 2), dep(2, 1)];
    let blocked = get_blocked_tasks(3, &tasks, &deps);
    assert_eq!(blocked.len(), 1);
    assert_eq!(blocked[0].id, 3);
}

#[test]
fn test_all_remaining_blocked() {
    let tasks = vec![make_task(2, TaskStatus::Blocked), make_task(1, TaskStatus::Blocked)];
    let deps = vec![dep(2, 1)];
    assert!(all_remaining_blocked(2, &tasks, &deps));
}

#[test]
fn test_not_all_blocked_pending_exists() {
    let tasks = vec![make_task(2, TaskStatus::Pending), make_task(1, TaskStatus::Pending)];
    let deps = vec![dep(2, 1)];
    assert!(!all_remaining_blocked(2, &tasks, &deps));
}

#[test]
fn test_not_all_blocked_target_reached() {
    let tasks = vec![make_task(2, TaskStatus::Completed), make_task(1, TaskStatus::Completed)];
    let deps = vec![dep(2, 1)];
    assert!(!all_remaining_blocked(2, &tasks, &deps));
}

#[test]
fn next_task_follows_manual_order_among_ready_tasks() {
    // Focus 3 needs 1 and 2, both ready; 2 is lower in manual order.
    let mut t1 = make_task(1, TaskStatus::Pending);
    t1.manual_order = order_key_from_bits(50.0f64.to_bits());
    let tasks = vec![make_task(3, TaskStatus::Pending), make_task(2, TaskStatus::Pending), t1];
    let deps = vec![dep(3, 1), dep(3, 2)];
    assert_eq!(find_next_task(3, &tasks, &deps).map(|t| t.id), Some(2));
}

#[test]
fn focus_itself_is_next_once_its_prerequisites_are_done() {
    let tasks = vec![make_task(2, TaskStatus::Pending), make_task(1, TaskStatus::Completed)];
    let deps = vec![dep(2, 1)];
    assert_eq!(find_next_task(2, &tasks, &deps).map(|t| t.id), Some(2));
}

#[test]
fn subgraph_and_blocked_tasks_come_in_walk_order() {
    // 1 depends on 2 and 3; 2 depends on 4. The walk keeps 1, then 3, 2, 4.
    let tasks = vec![
        make_task(1, TaskStatus::Pending),
        make_task(2, TaskStatus::Blocked),
        make_task(3, TaskStatus::Pending),
        make_task(4, TaskStatus::Blocked),
    ];
    let deps = vec![dep(1, 2), dep(1, 3), dep(2, 4)];
    let ids: Vec<i64> = compute_target_subgraph(1, &tasks, &deps).iter().map(|t| t.id).collect();
    assert_eq!(ids, vec![1, 3, 2, 4]);
    let blocked: Vec<i64> = get_blocked_tasks(1, &tasks, &deps).iter().map(|t| t.id).collect();
    assert_eq!(blocked, vec![2, 4]);
}

#[test]
fn membership_of_the_focus_subgraph() {
    let tasks = vec![make_task(1, TaskStatus::Pending), make_task(2, TaskStatus::Pending), make_task(3, TaskStatus::Pending)];
    let deps = vec![dep(1, 2)];
    assert!(tt::target::in_target_subgraph(1, &tasks, &deps, 2));
    assert!(!tt::target::in_target_subgraph(1, &tasks, &deps, 3));
}
