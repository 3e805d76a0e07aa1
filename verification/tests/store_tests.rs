use task_store::store::TaskRow;
use task_store::time::Timestamp;
use task_store::{NewTag, Store, Tag, TaskError};

fn ts(year: u16, month: u8, day: u8, hour: u8, minute: u8, second: u8, milli: u16) -> Timestamp {
    Timestamp { year, month, day, hour, minute, second, milli }
}

fn new_tag(name: &str, color: &str) -> NewTag {
    NewTag { name: name.to_string(), color: color.to_string() }
}

#[test]
fn create_then_get_matches_inputs() {
    let mut s = Store::new();
    let due = ts(2025, 3, 1, 12, 0, 0, 0);
    let id = s
        .create_at(
            "write report".to_string(),
            Some(due),
            Some(vec![new_tag("work", "blue"), new_tag("urgent", "red")]),
            ts(2025, 2, 1, 9, 0, 0, 0),
        )
        .unwrap();
    let t = s.get_by_id(id).unwrap();
    assert_eq!(t.name, "write report");
    assert_eq!(t.due_date, Some(due));
    assert_eq!(t.created_at, ts(2025, 2, 1, 9, 0, 0, 0));
    assert!(!t.completed);
    assert!(t.completed_at.is_none());
    let tags = t.tags.expect("two tags were linked");
    let names: Vec<&str> = tags.iter().map(|g| g.name.as_str()).collect();
    assert_eq!(names, vec!["urgent", "work"]);
}

#[test]
fn create_duplicate_tag_names_link_once() {
    let mut s = Store::new();
    let id = s
        .create_at(
            "errands".to_string(),
            None,
            Some(vec![new_tag("home", "green"), new_tag("home", "yellow")]),
            ts(2025, 2, 1, 9, 0, 0, 0),
        )
        .unwrap();
    let t = s.get_by_id(id).unwrap();
    let tags = t.tags.expect("the shared name links once");
    assert_eq!(tags.len(), 1);
    assert_eq!(tags[0].name, "home");
    // The upsert keeps the color in sync with the last supplied one.
    assert_eq!(tags[0].color, "yellow");
}

#[test]
fn create_rejects_empty_name() {
    let mut s = Store::new();
    let r = s.create_at("".to_string(), None, None, ts(2025, 2, 1, 9, 0, 0, 0));
    assert!(matches!(r, Err(TaskError::ConstraintViolation)));
    assert!(s.list_all().is_empty());
}

#[test]
fn create_upsert_updates_existing_tag_color() {
    let mut s = Store::new();
    s.add_tag(new_tag("urgent", "red")).unwrap();
    s.create_at(
        "pay bills".to_string(),
        None,
        Some(vec![new_tag("urgent", "orange")]),
        ts(2025, 2, 1, 9, 0, 0, 0),
    )
    .unwrap();
    let tags = s.list_tags();
    assert_eq!(tags.len(), 1);
    assert_eq!(tags[0].color, "orange");
}

#[test]
fn get_by_id_unknown_is_not_found() {
    let s = Store::new();
    assert!(matches!(s.get_by_id(7), Err(TaskError::NotFound)));
}

#[test]
fn complete_stamps_first_time_only() {
    let mut s = Store::new();
    let id = s
        .create_at("t".to_string(), None, None, ts(2025, 2, 1, 9, 0, 0, 0))
        .unwrap();
    let first = ts(2025, 2, 2, 10, 0, 0, 0);
    let second = ts(2025, 2, 3, 11, 0, 0, 0);
    s.complete_at(id, first).unwrap();
    let after_first = s.get_by_id(id).unwrap().completed_at;
    assert_eq!(after_first, Some(first));
    // Completing again succeeds but keeps the original stamp.
    s.complete_at(id, second).unwrap();
    let after_second = s.get_by_id(id).unwrap().completed_at;
    assert_eq!(after_second, Some(first));
}

#[test]
fn complete_unknown_is_not_found() {
    let mut s = Store::new();
    let r = s.complete_at(9, ts(2025, 2, 2, 10, 0, 0, 0));
    assert!(matches!(r, Err(TaskError::NotFound)));
}

#[test]
fn completed_at_not_before_created_at() {
    let mut s = Store::new();
    let id = s
        .create_at("t".to_string(), None, None, ts(2025, 2, 1, 9, 0, 0, 0))
        .unwrap();
    s.complete_at(id, ts(2025, 2, 1, 9, 30, 0, 0)).unwrap();
    let t = s.get_by_id(id).unwrap();
    assert!(t.created_at.le(&t.completed_at.unwrap()));
}

#[test]
fn count_completed_counts() {
    let mut s = Store::new();
    let a = s.create_at("a".to_string(), None, None, ts(2025, 1, 1, 0, 0, 0, 0)).unwrap();
    let b = s.create_at("b".to_string(), None, None, ts(2025, 1, 1, 0, 0, 0, 0)).unwrap();
    s.create_at("c".to_string(), None, None, ts(2025, 1, 1, 0, 0, 0, 0)).unwrap();
    assert_eq!(s.count_completed(), 0);
    s.complete_at(a, ts(2025, 1, 2, 0, 0, 0, 0)).unwrap();
    s.complete_at(b, ts(2025, 1, 2, 0, 0, 0, 0)).unwrap();
    assert_eq!(s.count_completed(), 2);
    s.complete_at(a, ts(2025, 1, 3, 0, 0, 0, 0)).unwrap();
    assert_eq!(s.count_completed(), 2);
}

#[test]
fn update_name_refreshes_task() {
    let mut s = Store::new();
    let id = s
        .create_at("old".to_string(), None, None, ts(2025, 1, 1, 0, 0, 0, 0))
        .unwrap();
    let t = s.update_name(id, "new".to_string()).unwrap();
    assert_eq!(t.name, "new");
    assert_eq!(s.get_by_id(id).unwrap().name, "new");
    assert!(matches!(
        s.update_name(99, "x".to_string()),
        Err(TaskError::NotFound)
    ));
    assert!(matches!(
        s.update_name(id, "".to_string()),
        Err(TaskError::ConstraintViolation)
    ));
    assert_eq!(s.get_by_id(id).unwrap().name, "new");
}

#[test]
fn update_due_date_refreshes_task() {
    let mut s = Store::new();
    let id = s
        .create_at("t".to_string(), None, None, ts(2025, 1, 1, 0, 0, 0, 0))
        .unwrap();
    let due = ts(2025, 6, 1, 8, 0, 0, 0);
    let t = s.update_due_date(id, Some(due)).unwrap();
    assert_eq!(t.due_date, Some(due));
    let t2 = s.update_due_date(id, None).unwrap();
    assert!(t2.due_date.is_none());
    assert!(matches!(s.update_due_date(42, None), Err(TaskError::NotFound)));
}

#[test]
fn delete_removes_task_and_links() {
    let mut s = Store::new();
    let id = s
        .create_at(
            "t".to_string(),
            None,
            Some(vec![new_tag("a", "red"), new_tag("b", "blue")]),
            ts(2025, 1, 1, 0, 0, 0, 0),
        )
        .unwrap();
    let keep = s.create_at("keep".to_string(), None, None, ts(2025, 1, 1, 0, 0, 0, 0)).unwrap();
    let urgent = s.list_tags()[0].id;
    s.link(keep, urgent).unwrap();
    s.delete(id);
    assert!(matches!(s.get_by_id(id), Err(TaskError::NotFound)));
    // The tags themselves survive; only the deleted task's links go.
    assert_eq!(s.list_tags().len(), 2);
    assert_eq!(s.get_by_id(keep).unwrap().tags.unwrap().len(), 1);
    // Deleting an absent id is a silent no-op.
    s.delete(id);
    assert_eq!(s.list_all().len(), 1);
}

#[test]
fn add_tag_rejects_duplicate_name() {
    let mut s = Store::new();
    let t = s.add_tag(new_tag("urgent", "red")).unwrap();
    assert_eq!(t.name, "urgent");
    assert_eq!(t.color, "red");
    let r = s.add_tag(new_tag("urgent", "blue"));
    assert!(matches!(r, Err(TaskError::ConstraintViolation)));
    let tags = s.list_tags();
    assert_eq!(tags.len(), 1);
    assert_eq!(tags[0].color, "red");
}

#[test]
fn list_tags_sorted_by_name() {
    let mut s = Store::new();
    s.add_tag(new_tag("work", "blue")).unwrap();
    s.add_tag(new_tag("errand", "green")).unwrap();
    s.add_tag(new_tag("urgent", "red")).unwrap();
    let names: Vec<String> = s.list_tags().into_iter().map(|t| t.name).collect();
    assert_eq!(names, vec!["errand", "urgent", "work"]);
}

#[test]
fn remove_tag_cascades_links() {
    let mut s = Store::new();
    let id = s
        .create_at(
            "t".to_string(),
            None,
            Some(vec![new_tag("a", "red"), new_tag("b", "blue")]),
            ts(2025, 1, 1, 0, 0, 0, 0),
        )
        .unwrap();
    s.remove_tag(&"a".to_string()).unwrap();
    let tags = s.get_by_id(id).unwrap().tags.unwrap();
    assert_eq!(tags.len(), 1);
    assert_eq!(tags[0].name, "b");
    assert_eq!(s.list_tags().len(), 1);
    assert!(matches!(
        s.remove_tag(&"a".to_string()),
        Err(TaskError::NotFound)
    ));
}

#[test]
fn remove_last_tag_leaves_tags_absent() {
    let mut s = Store::new();
    let id = s
        .create_at(
            "t".to_string(),
            None,
            Some(vec![new_tag("only", "red")]),
            ts(2025, 1, 1, 0, 0, 0, 0),
        )
        .unwrap();
    s.remove_tag(&"only".to_string()).unwrap();
    assert!(s.get_by_id(id).unwrap().tags.is_none());
}

#[test]
fn link_is_idempotent() {
    let mut s = Store::new();
    let id = s.create_at("t".to_string(), None, None, ts(2025, 1, 1, 0, 0, 0, 0)).unwrap();
    let tag = s.add_tag(new_tag("urgent", "red")).unwrap();
    s.link(id, tag.id).unwrap();
    s.link(id, tag.id).unwrap();
    assert_eq!(s.get_by_id(id).unwrap().tags.unwrap().len(), 1);
}

#[test]
fn unlink_is_idempotent() {
    let mut s = Store::new();
    let id = s.create_at("t".to_string(), None, None, ts(2025, 1, 1, 0, 0, 0, 0)).unwrap();
    let tag = s.add_tag(new_tag("urgent", "red")).unwrap();
    s.link(id, tag.id).unwrap();
    s.unlink(id, tag.id).unwrap();
    assert!(s.get_by_id(id).unwrap().tags.is_none());
    s.unlink(id, tag.id).unwrap();
    assert!(s.get_by_id(id).unwrap().tags.is_none());
    // The tag itself survives unlinking.
    assert_eq!(s.list_tags().len(), 1);
}

#[test]
fn link_requires_existing_rows() {
    let mut s = Store::new();
    let id = s.create_at("t".to_string(), None, None, ts(2025, 1, 1, 0, 0, 0, 0)).unwrap();
    assert!(matches!(s.link(id, 5), Err(TaskError::ConstraintViolation)));
    assert!(matches!(s.link(77, 5), Err(TaskError::ConstraintViolation)));
}

#[test]
fn update_tag_color_by_id() {
    let mut s = Store::new();
    let tag = s.add_tag(new_tag("urgent", "red")).unwrap();
    s.update_tag_color(tag.id, "pink".to_string()).unwrap();
    assert_eq!(s.list_tags()[0].color, "pink");
    assert!(matches!(
        s.update_tag_color(99, "x".to_string()),
        Err(TaskError::NotFound)
    ));
}

#[test]
fn list_due_between_filters_window() {
    let mut s = Store::new();
    let lo = ts(2025, 5, 1, 0, 0, 0, 0);
    let hi = ts(2025, 5, 1, 23, 59, 59, 0);
    s.create_at("in".to_string(), Some(ts(2025, 5, 1, 12, 0, 0, 0)), None, ts(2025, 1, 1, 0, 0, 0, 0))
        .unwrap();
    s.create_at("early".to_string(), Some(ts(2025, 4, 30, 23, 59, 59, 999)), None, ts(2025, 1, 1, 0, 0, 0, 0))
        .unwrap();
    s.create_at("late".to_string(), Some(ts(2025, 5, 2, 0, 0, 0, 0)), None, ts(2025, 1, 1, 0, 0, 0, 0))
        .unwrap();
    s.create_at("none".to_string(), None, None, ts(2025, 1, 1, 0, 0, 0, 0)).unwrap();
    let due = s.list_due_between(&lo, &hi);
    assert_eq!(due.len(), 1);
    assert_eq!(due[0].name, "in");
}

#[test]
fn error_messages_are_flat() {
    assert_eq!(TaskError::NotFound.message(), "not found");
    assert_eq!(TaskError::ConstraintViolation.message(), "constraint violation");
    assert_eq!(TaskError::ClockUnavailable.message(), "clock unavailable");
}

#[test]
fn from_rows_accepts_intact_rows() {
    let tasks = vec![TaskRow {
        id: 1,
        name: "t".to_string(),
        due_date: None,
        created_at: ts(2025, 1, 1, 0, 0, 0, 0),
        completed: false,
        completed_at: None,
    }];
    let tags = vec![
        Tag { id: 2, name: "a".to_string(), color: "red".to_string() },
        Tag { id: 1, name: "b".to_string(), color: "blue".to_string() },
    ];
    let links = vec![(1, 2)];
    let s = task_store::Store::from_rows(tasks, tags, links, 2, 3).unwrap();
    let t = s.get_by_id(1).unwrap();
    assert_eq!(t.tags.unwrap()[0].name, "a");
}

#[test]
fn from_rows_rejects_corrupt_rows() {
    let row = |id: i64| TaskRow {
        id,
        name: "t".to_string(),
        due_date: None,
        created_at: ts(2025, 1, 1, 0, 0, 0, 0),
        completed: false,
        completed_at: None,
    };
    // Duplicate task ids.
    assert!(matches!(
        task_store::Store::from_rows(vec![row(1), row(1)], vec![], vec![], 2, 1),
        Err(TaskError::ConstraintViolation)
    ));
    // Task id at or above the counter.
    assert!(matches!(
        task_store::Store::from_rows(vec![row(5)], vec![], vec![], 2, 1),
        Err(TaskError::ConstraintViolation)
    ));
    // Empty task name.
    let mut bad = row(1);
    bad.name = String::new();
    assert!(matches!(
        task_store::Store::from_rows(vec![bad], vec![], vec![], 2, 1),
        Err(TaskError::ConstraintViolation)
    ));
    // Completion flag without a stamp.
    let mut bad = row(1);
    bad.completed = true;
    assert!(matches!(
        task_store::Store::from_rows(vec![bad], vec![], vec![], 2, 1),
        Err(TaskError::ConstraintViolation)
    ));
    // Tag table not sorted by name.
    let tags = vec![
        Tag { id: 1, name: "b".to_string(), color: "x".to_string() },
        Tag { id: 2, name: "a".to_string(), color: "x".to_string() },
    ];
    assert!(matches!(
        task_store::Store::from_rows(vec![], tags, vec![], 1, 3),
        Err(TaskError::ConstraintViolation)
    ));
    // Duplicate tag name.
    let tags = vec![
        Tag { id: 1, name: "a".to_string(), color: "x".to_string() },
        Tag { id: 2, name: "a".to_string(), color: "y".to_string() },
    ];
    assert!(matches!(
        task_store::Store::from_rows(vec![], tags, vec![], 1, 3),
        Err(TaskError::ConstraintViolation)
    ));
    // Dangling link.
    assert!(matches!(
        task_store::Store::from_rows(vec![row(1)], vec![], vec![(1, 9)], 2, 1),
        Err(TaskError::ConstraintViolation)
    ));
    // Duplicate link.
    let tags = vec![Tag { id: 1, name: "a".to_string(), color: "x".to_string() }];
    assert!(matches!(
        task_store::Store::from_rows(vec![row(1)], tags, vec![(1, 1), (1, 1)], 2, 2),
        Err(TaskError::ConstraintViolation)
    ));
}
