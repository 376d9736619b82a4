use task_tracker::task::{Priority, TaskManager};

fn rank(p: &Priority) -> u8 {
    match p {
        Priority::High => 0,
        Priority::Medium => 1,
        Priority::Low => 2,
    }
}

fn assert_sorted(m: &TaskManager) {
    let tasks = m.list_task();
    for w in tasks.windows(2) {
        let (a, b) = (&w[0], &w[1]);
        assert!(
            rank(&a.priority) < rank(&b.priority)
                || (rank(&a.priority) == rank(&b.priority) && a.id <= b.id),
            "collection out of order: id {} before id {}",
            a.id,
            b.id
        );
    }
}

#[test]
fn empty_state_listing() {
    let m = TaskManager::new();
    assert!(m.list_task().is_empty());
}

#[test]
fn id_monotonicity() {
    let mut m = TaskManager::new();
    m.add_task_at("first".to_string(), Priority::Low, "t1".to_string());
    m.add_task_at("second".to_string(), Priority::High, "t2".to_string());
    m.add_task_at("third".to_string(), Priority::Medium, "t3".to_string());
    let tasks = m.list_task();
    let first = tasks.iter().find(|t| t.description == "first").unwrap();
    let second = tasks.iter().find(|t| t.description == "second").unwrap();
    let third = tasks.iter().find(|t| t.description == "third").unwrap();
    assert_eq!(first.id, 1);
    assert_eq!(second.id, 2);
    assert_eq!(third.id, 3);
}

#[test]
fn ordering_invariant_after_each_add() {
    let mut m = TaskManager::new();
    let priorities = [
        Priority::Medium,
        Priority::Low,
        Priority::High,
        Priority::High,
        Priority::Low,
        Priority::Medium,
    ];
    for (i, p) in priorities.iter().enumerate() {
        m.add_task_at(format!("task {}", i), *p, "t".to_string());
        assert_sorted(&m);
    }
    let tasks = m.list_task();
    assert_eq!(tasks.len(), 6);
    let ids: Vec<u32> = tasks.iter().map(|t| t.id).collect();
    assert_eq!(ids, vec![3, 4, 1, 6, 2, 5]);
}

#[test]
fn mark_completed_found() {
    let mut m = TaskManager::new();
    m.add_task_at("a".to_string(), Priority::High, "t".to_string());
    m.add_task_at("b".to_string(), Priority::Low, "t".to_string());
    assert!(m.mark_task_completed(2));
    let tasks = m.list_task();
    let b = tasks.iter().find(|t| t.id == 2).unwrap();
    assert!(b.completed);
    let a = tasks.iter().find(|t| t.id == 1).unwrap();
    assert!(!a.completed);
}

#[test]
fn mark_completed_not_found_changes_nothing() {
    let mut m = TaskManager::new();
    m.add_task_at("a".to_string(), Priority::High, "t".to_string());
    let before = m.persist();
    assert!(!m.mark_task_completed(999));
    assert_eq!(m.persist(), before);
}

#[test]
fn completion_monotonicity() {
    let mut m = TaskManager::new();
    m.add_task_at("a".to_string(), Priority::High, "t".to_string());
    m.add_task_at("b".to_string(), Priority::High, "t".to_string());
    assert!(m.mark_task_completed(1));
    assert!(m.mark_task_completed(1));
    assert!(m.list_task()[0].completed);
    m.consume_task(Priority::High);
    m.add_task_at("c".to_string(), Priority::Low, "t".to_string());
    for id in [1u32, 2] {
        let t = m.list_task().iter().find(|t| t.id == id).unwrap();
        assert!(t.completed, "task {} lost its completion", id);
    }
}

#[test]
fn consume_selection() {
    let mut m = TaskManager::new();
    m.add_task_at("one".to_string(), Priority::High, "t".to_string());
    m.add_task_at("two".to_string(), Priority::High, "t".to_string());
    m.add_task_at("three".to_string(), Priority::High, "t".to_string());
    assert!(m.mark_task_completed(2));
    let first = m.consume_task(Priority::High);
    assert_eq!(first.as_deref(), Some("one"));
    assert!(m.list_task().iter().find(|t| t.id == 1).unwrap().completed);
    let second = m.consume_task(Priority::High);
    assert_eq!(second.as_deref(), Some("three"));
    assert!(m.list_task().iter().find(|t| t.id == 3).unwrap().completed);
}

#[test]
fn consume_none_available() {
    let mut m = TaskManager::new();
    m.add_task_at("a".to_string(), Priority::High, "t".to_string());
    assert!(m.consume_task(Priority::Medium).is_none());
    m.mark_task_completed(1);
    assert!(m.consume_task(Priority::High).is_none());
}

#[test]
fn add_task_stamps_with_clock() {
    let mut m = TaskManager::new();
    m.add_task("a".to_string(), Priority::Medium);
    let tasks = m.list_task();
    assert_eq!(tasks.len(), 1);
    assert_eq!(tasks[0].id, 1);
    assert_eq!(tasks[0].description, "a");
    assert_eq!(tasks[0].priority, Priority::Medium);
    assert!(!tasks[0].completed);
}
