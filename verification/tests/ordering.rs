use tt::error::Error;
use tt::models::{Task, TaskStatus};
use tt::ordering::{
    bits_from_order_key, calculate_manual_order, check_midpoint, order_key_from_bits, reindex_orders, OrderPlacement,
    ORDER_GAP,
};

const GAP: f64 = 10.0;

fn key(order: f64) -> u64 {
    order_key_from_bits(order.to_bits())
}

fn value(key: u64) -> f64 {
    f64::from_bits(bits_from_order_key(key))
}

/// The order value a placement stands for, computed in floating point.
fn resolve(p: OrderPlacement) -> Result<f64, Error> {
    match p {
        OrderPlacement::First => Ok(GAP),
        OrderPlacement::After(k) => Ok(value(k) + GAP),
        OrderPlacement::Before(k) => Ok(value(k) - GAP),
        OrderPlacement::Between(a, b) => {
            let mid = (value(a) + value(b)) / 2.0;
            check_midpoint(a, b, key(mid)).map(value)
        }
    }
}

fn order_of(tasks: &Vec<Task>, after: Option<i64>, before: Option<i64>) -> Result<f64, Error> {
    calculate_manual_order(tasks, after, before).and_then(resolve)
}

fn make_task(id: i64, order: f64) -> Task {
    Task {
        id,
        title: format!("Task {id}"),
        description: None,
        dod: None,
        status: TaskStatus::Pending,
        manual_order: key(order),
        created_at: "2025-06-01T10:00:00".to_string(),
        started_at: None,
        completed_at: None,
        last_touched_at: "2025-06-01T10:00:00".to_string(),
        deleted: false,
    }
}

#[test]
fn test_calculate_order_empty() {
    let tasks = vec![];
    let order = order_of(&tasks, None, None).unwrap();
    assert_eq!(order, ORDER_GAP as f64);
}

#[test]
fn test_calculate_order_append() {
    let tasks = vec![make_task(1, 10.0), make_task(2, 20.0)];
    assert_eq!(order_of(&tasks, None, None).unwrap(), 30.0);
}

#[test]
fn test_calculate_order_after() {
    let tasks = vec![make_task(1, 10.0)];
    assert_eq!(order_of(&tasks, Some(1), None).unwrap(), 20.0);
}

#[test]
fn test_calculate_order_before() {
    let tasks = vec![make_task(1, 30.0)];
    assert_eq!(order_of(&tasks, None, Some(1)).unwrap(), 20.0);
}

#[test]
fn test_calculate_order_between() {
    let tasks = vec![make_task(1, 10.0), make_task(2, 20.0)];
    assert_eq!(order_of(&tasks, Some(1), Some(2)).unwrap(), 15.0);
}

#[test]
fn test_calculate_order_between_multiple_gaps() {
    let tasks = vec![make_task(1, 10.0), make_task(2, 30.0)];
    assert_eq!(order_of(&tasks, Some(1), Some(2)).unwrap(), 20.0);
}

#[test]
fn test_calculate_order_task_not_found() {
    let tasks = vec![make_task(1, 10.0)];
    let result = order_of(&tasks, Some(999), None);
    assert!(result.is_err());
    assert!(matches!(result.unwrap_err(), Error::TaskNotFound(999)));
}

#[test]
fn test_calculate_order_invalid_range() {
    let tasks = vec![make_task(1, 30.0), make_task(2, 10.0)];
    let result = order_of(&tasks, Some(1), Some(2));
    assert!(result.is_err());
}

#[test]
fn test_float_precision_exhaustion() {
    let tasks = vec![make_task(1, 1.0), make_task(2, 1.0 + f64::EPSILON)];
    let result = order_of(&tasks, Some(1), Some(2));
    assert!(result.is_err());
    assert!(matches!(result.unwrap_err(), Error::FloatPrecisionExhausted));
}

#[test]
fn test_reindex_orders() {
    let tasks = vec![make_task(1, 5.5), make_task(2, 1.1), make_task(3, 10.0)];
    let reindexed = reindex_orders(&tasks);
    assert_eq!(reindexed.len(), 3);
    assert_eq!(reindexed[0], (2, 10));
    assert_eq!(reindexed[1], (1, 20));
    assert_eq!(reindexed[2], (3, 30));
}

#[test]
fn test_reindex_empty() {
    let tasks: Vec<Task> = vec![];
    let reindexed = reindex_orders(&tasks);
    assert!(reindexed.is_empty());
}

#[test]
fn order_keys_sort_as_the_floats_do() {
    let values = [-1.0e300, -20.0, -0.5, -0.0, 0.0, 1.0e-300, 0.5, 10.0, 15.0, 1.0e300];
    for w in values.windows(2) {
        assert!(key(w[0]) <= key(w[1]), "{} vs {}", w[0], w[1]);
    }
    assert!(key(-20.0) < key(-0.5));
    assert!(key(10.0) < key(15.0));
}

#[test]
fn order_keys_round_trip() {
    for v in [-3.25, 0.0, 10.0, 1.0e10] {
        assert_eq!(value(key(v)), v);
    }
}

#[test]
fn placements_carry_the_neighbours_keys() {
    let tasks = vec![make_task(1, 10.0), make_task(2, 20.0)];
    assert_eq!(calculate_manual_order(&tasks, None, None).unwrap(), OrderPlacement::After(key(20.0)));
    assert_eq!(calculate_manual_order(&vec![], None, None).unwrap(), OrderPlacement::First);
    assert_eq!(
        calculate_manual_order(&tasks, Some(1), Some(2)).unwrap(),
        OrderPlacement::Between(key(10.0), key(20.0))
    );
    match calculate_manual_order(&tasks, Some(2), Some(1)) {
        Err(Error::NotSupported(m)) => assert_eq!(m, "After task must have lower order than before task"),
        _ => panic!("2 is above 1"),
    }
}

#[test]
fn negative_orders_alone_place_one_gap_after_the_highest() {
    let tasks = vec![make_task(1, -20.0)];
    assert_eq!(calculate_manual_order(&tasks, None, None).unwrap(), OrderPlacement::After(key(-20.0)));
    assert_eq!(order_of(&tasks, None, None).unwrap(), -10.0);
}

#[test]
fn reindex_keeps_ties_in_their_order() {
    let tasks = vec![make_task(7, 3.0), make_task(4, 3.0), make_task(9, 1.0)];
    assert_eq!(reindex_orders(&tasks), vec![(9, 10), (7, 20), (4, 30)]);
}
