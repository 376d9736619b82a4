use task_tracker::codec::RestoreOutcome;
use task_tracker::task::{Priority, TaskManager};

#[test]
fn persist_exact_document() {
    let mut m = TaskManager::new();
    m.add_task_at("a".to_string(), Priority::High, "t".to_string());
    assert_eq!(
        m.persist(),
        "[{\"id\":1,\"description\":\"a\",\"completed\":false,\"priority\":\"High\",\"creation_time\":\"t\"}]"
    );
}

#[test]
fn persist_empty_document() {
    let m = TaskManager::new();
    assert_eq!(m.persist(), "[]");
}

#[test]
fn round_trip_preserves_everything() {
    let mut m = TaskManager::new();
    m.add_task_at(
        "quotes \" and \\ backslash".to_string(),
        Priority::Low,
        "2024-01-01T00:00:00+00:00".to_string(),
    );
    m.add_task_at(
        "newline \n tab \t and unicode \u{00e9}\u{4e16}".to_string(),
        Priority::High,
        "2024-01-02T00:00:00+00:00".to_string(),
    );
    m.add_task_at("plain".to_string(), Priority::Medium, "t3".to_string());
    m.mark_task_completed(1);
    let saved = m.persist();
    let mut restored = TaskManager::new();
    assert_eq!(restored.restore(Some(&saved)), RestoreOutcome::Restored);
    let old = m.list_task();
    let new = restored.list_task();
    assert_eq!(old.len(), new.len());
    for (a, b) in old.iter().zip(new.iter()) {
        assert_eq!(a.id, b.id);
        assert_eq!(a.description, b.description);
        assert_eq!(a.completed, b.completed);
        assert_eq!(a.priority, b.priority);
        assert_eq!(a.creation_time, b.creation_time);
    }
}

#[test]
fn restore_absence_is_distinct_and_keeps_state() {
    let mut m = TaskManager::new();
    m.add_task_at("keep me".to_string(), Priority::High, "t".to_string());
    let before = m.persist();
    assert_eq!(m.restore(None), RestoreOutcome::NoSavedState);
    assert_eq!(m.persist(), before);
}

#[test]
fn restore_corruption_is_distinct_and_keeps_state() {
    let mut m = TaskManager::new();
    m.add_task_at("keep me".to_string(), Priority::High, "t".to_string());
    let before = m.persist();
    assert_eq!(m.restore(Some("this is not a document")), RestoreOutcome::ParseError);
    assert_eq!(m.persist(), before);
    assert_eq!(m.restore(Some("[{\"id\":1}]")), RestoreOutcome::ParseError);
    assert_eq!(m.persist(), before);
}

#[test]
fn restore_accepts_pretty_layout() {
    let text = "[\n  {\n    \"id\": 7,\n    \"description\": \"say \\\"hi\\\"\",\n    \"completed\": true,\n    \"priority\": \"Medium\",\n    \"creation_time\": \"2024-03-04T05:06:07.123456789Z\"\n  }\n]";
    let mut m = TaskManager::new();
    assert_eq!(m.restore(Some(text)), RestoreOutcome::Restored);
    let tasks = m.list_task();
    assert_eq!(tasks.len(), 1);
    assert_eq!(tasks[0].id, 7);
    assert_eq!(tasks[0].description, "say \"hi\"");
    assert!(tasks[0].completed);
    assert_eq!(tasks[0].priority, Priority::Medium);
    assert_eq!(tasks[0].creation_time, "2024-03-04T05:06:07.123456789Z");
}

#[test]
fn restore_accepts_empty_array_with_blanks() {
    let mut m = TaskManager::new();
    m.add_task_at("gone after restore".to_string(), Priority::Low, "t".to_string());
    assert_eq!(m.restore(Some(" [ ] ")), RestoreOutcome::Restored);
    assert!(m.list_task().is_empty());
}

#[test]
fn restore_rejects_trailing_text() {
    let mut m = TaskManager::new();
    assert_eq!(m.restore(Some("[]x")), RestoreOutcome::ParseError);
}

#[test]
fn restore_rejects_oversized_id() {
    let text = "[{\"id\":4294967296,\"description\":\"a\",\"completed\":false,\"priority\":\"High\",\"creation_time\":\"t\"}]";
    let mut m = TaskManager::new();
    assert_eq!(m.restore(Some(text)), RestoreOutcome::ParseError);
    let edge = "[{\"id\":4294967295,\"description\":\"a\",\"completed\":false,\"priority\":\"High\",\"creation_time\":\"t\"}]";
    assert_eq!(m.restore(Some(edge)), RestoreOutcome::Restored);
    assert_eq!(m.list_task()[0].id, u32::MAX);
}

#[test]
fn restore_rejects_unknown_priority_tag() {
    let text = "[{\"id\":1,\"description\":\"a\",\"completed\":false,\"priority\":\"Urgent\",\"creation_time\":\"t\"}]";
    let mut m = TaskManager::new();
    assert_eq!(m.restore(Some(text)), RestoreOutcome::ParseError);
}

#[test]
fn persisted_document_is_json_for_other_readers() {
    let mut m = TaskManager::new();
    m.add_task_at(
        "tricky \" \\ \n \u{0001} text".to_string(),
        Priority::Low,
        "2024-01-01T00:00:00+00:00".to_string(),
    );
    let saved = m.persist();
    let value: serde_json::Value = serde_json::from_str(&saved).expect("valid JSON");
    let record = &value.as_array().expect("array")[0];
    assert_eq!(record.get("id").unwrap().as_u64(), Some(1));
    assert_eq!(
        record.get("description").unwrap().as_str(),
        Some("tricky \" \\ \n \u{0001} text")
    );
    assert_eq!(record.get("completed").unwrap().as_bool(), Some(false));
    assert_eq!(record.get("priority").unwrap().as_str(), Some("Low"));
    assert_eq!(
        record.get("creation_time").unwrap().as_str(),
        Some("2024-01-01T00:00:00+00:00")
    );
}

#[test]
fn restore_reads_what_other_writers_emit() {
    let description = "control \u{0002} and quote \"";
    let escaped_desc = serde_json::to_string(description).expect("serializes");
    let escaped_time = serde_json::to_string("2023-12-31T23:59:59Z").expect("serializes");
    let text = format!(
        "[\n  {{\n    \"id\": 3,\n    \"description\": {},\n    \"completed\": true,\n    \"priority\": \"Low\",\n    \"creation_time\": {}\n  }}\n]",
        escaped_desc, escaped_time
    );
    let mut m = TaskManager::new();
    assert_eq!(m.restore(Some(&text)), RestoreOutcome::Restored);
    let tasks = m.list_task();
    assert_eq!(tasks.len(), 1);
    assert_eq!(tasks[0].id, 3);
    assert_eq!(tasks[0].description, "control \u{0002} and quote \"");
    assert!(tasks[0].completed);
    assert_eq!(tasks[0].priority, Priority::Low);
    assert_eq!(tasks[0].creation_time, "2023-12-31T23:59:59Z");
}
