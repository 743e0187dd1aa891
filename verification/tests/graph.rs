use tt::chart::render_mermaid;
use tt::graph::{find_cycle_path, find_order_conflicts, topological_sort, transitive_dependencies, would_create_cycle};
use tt::models::{Dependency, Task, TaskStatus};
use tt::ordering::order_key_from_bits;

fn key(order: f64) -> u64 {
    order_key_from_bits(order.to_bits())
}

fn make_task(id: i64, order: f64) -> Task {
    Task {
        id,
        title: format!("Task {id}"),
        description: None,
        dod: None,
        status: TaskStatus::Pending,
        manual_order: key(order),
        created_at: "2025-06-01T10:00:00".to_string(),
        started_at: None,
        completed_at: None,
        last_touched_at: "2025-06-01T10:00:00".to_string(),
        deleted: false,
    }
}

fn dep(task_id: i64, depends_on: i64) -> Dependency {
    Dependency { task_id, depends_on }
}

#[test]
fn test_topological_sort_empty() {
    let result = topological_sort(vec![], &[]).unwrap();
    assert!(result.is_empty());
}

#[test]
fn test_topological_sort_linear_chain() {
    let tasks = vec![make_task(1, 10.0), make_task(2, 20.0), make_task(3, 30.0)];
    let deps = vec![dep(2, 1), dep(3, 2)];
    let result = topological_sort(tasks, &deps).unwrap();
    assert_eq!(result.len(), 3);
    assert_eq!(result[0].id, 1);
    assert_eq!(result[1].id, 2);
    assert_eq!(result[2].id, 3);
}

#[test]
fn test_topological_sort_diamond() {
    let tasks = vec![make_task(1, 10.0), make_task(2, 20.0), make_task(3, 30.0), make_task(4, 40.0)];
    let deps = vec![dep(2, 1), dep(3, 1), dep(4, 2), dep(4, 3)];
    let result = topological_sort(tasks, &deps).unwrap();
    assert_eq!(result.len(), 4);
    assert_eq!(result[0].id, 1);
    assert_eq!(result[3].id, 4);
}

#[test]
fn test_topological_sort_manual_order_tiebreak() {
    let tasks = vec![make_task(1, 30.0), make_task(2, 20.0)];
    let deps = vec![];
    let result = topological_sort(tasks, &deps).unwrap();
    assert_eq!(result[0].id, 2);
    assert_eq!(result[1].id, 1);
}

#[test]
fn test_cycle_detection_direct() {
    let deps = vec![dep(2, 1), dep(1, 2)];
    assert!(would_create_cycle(1, 2, &deps));
}

#[test]
fn test_cycle_detection_indirect() {
    let deps = vec![dep(2, 1), dep(3, 2), dep(1, 3)];
    assert!(would_create_cycle(1, 2, &deps));
}

#[test]
fn test_no_cycle() {
    let deps = vec![dep(2, 1), dep(3, 2)];
    assert!(!would_create_cycle(4, 5, &deps));
}

#[test]
fn test_would_create_cycle_new_edge() {
    let deps = vec![dep(2, 1), dep(3, 2)];
    assert!(!would_create_cycle(3, 1, &deps));
    assert!(would_create_cycle(1, 3, &deps));
}

#[test]
fn test_find_cycle_path() {
    let deps = vec![dep(1, 3), dep(2, 1), dep(3, 2)];
    let path = find_cycle_path(1, 3, &deps).unwrap();
    assert!(path.contains(&1));
    assert!(path.contains(&2));
    assert!(path.contains(&3));
    assert_eq!(path[0], 1);
    assert_eq!(path[path.len() - 1], 1);
}

#[test]
fn test_transitive_dependencies() {
    let deps = vec![dep(2, 1), dep(3, 2), dep(4, 3)];
    let result = transitive_dependencies(4, &deps);
    assert_eq!(result.len(), 3);
    assert!(result.contains(&1));
    assert!(result.contains(&2));
    assert!(result.contains(&3));
}

#[test]
fn test_order_conflict() {
    let tasks = vec![make_task(1, 30.0), make_task(2, 10.0)];
    let deps = vec![dep(2, 1)];
    let conflicts = find_order_conflicts(&tasks, &deps);
    assert_eq!(conflicts.len(), 1);
    assert_eq!(conflicts[0], (2, key(10.0), 1, key(30.0)));
}

#[test]
fn test_no_order_conflict() {
    let tasks = vec![make_task(1, 10.0), make_task(2, 30.0)];
    let deps = vec![dep(2, 1)];
    let conflicts = find_order_conflicts(&tasks, &deps);
    assert!(conflicts.is_empty());
}

#[test]
fn cycle_path_reads_from_to_and_back() {
    // 3 depends on 2, 2 depends on 1: 1 depending on 3 closes the cycle
    // [from, to, ..., from], each id depending on the next.
    let deps = vec![dep(2, 1), dep(3, 2)];
    assert_eq!(find_cycle_path(1, 3, &deps), Some(vec![1, 3, 2, 1]));
    assert_eq!(find_cycle_path(3, 1, &deps), None);
}

#[test]
fn self_edge_is_a_cycle() {
    assert!(would_create_cycle(5, 5, &[]));
}

#[test]
fn topological_sort_puts_prerequisites_first_even_against_manual_order() {
    // 1 comes last in manual order but 2 and 3 need it.
    let tasks = vec![make_task(1, 50.0), make_task(2, 10.0), make_task(3, 20.0)];
    let deps = vec![dep(2, 1), dep(3, 1)];
    let result: Vec<i64> = topological_sort(tasks, &deps).unwrap().iter().map(|t| t.id).collect();
    assert_eq!(result, vec![1, 2, 3]);
}

#[test]
fn topological_sort_reports_a_cycle() {
    let tasks = vec![make_task(1, 10.0), make_task(2, 20.0)];
    let deps = vec![dep(1, 2), dep(2, 1)];
    assert!(topological_sort(tasks, &deps).is_err());
}

#[test]
fn mermaid_chart_draws_prerequisite_arrows_and_escapes_titles() {
    let mut t = make_task(1, 10.0);
    t.title = "Say \"hi\"".to_string();
    let tasks = vec![t, make_task(2, 20.0)];
    let deps = vec![dep(2, 1)];
    assert_eq!(
        render_mermaid(&tasks, &deps),
        "flowchart TD\n    t1[\"Say \\\"hi\\\"\"]\n    t2[\"Task 2\"]\n    t1 --> t2\n"
    );
    assert_eq!(render_mermaid(&vec![], &vec![]), "flowchart TD\n");
}

#[test]
fn transitive_dependencies_come_in_depth_first_order() {
    // 1 depends on 2 and 3; 2 depends on 4. The walk pops 3 before 2.
    let deps = vec![dep(1, 2), dep(1, 3), dep(2, 4)];
    assert_eq!(transitive_dependencies(1, &deps), vec![3, 2, 4]);
}

#[test]
fn cycle_path_follows_the_first_path_the_search_finds() {
    // 3 can reach 1 through 2 or through 4; the search pops 4 first.
    let deps = vec![dep(3, 2), dep(3, 4), dep(2, 1), dep(4, 1)];
    assert_eq!(find_cycle_path(1, 3, &deps), Some(vec![1, 3, 4, 1]));
}
