use chrono::{Datelike, TimeZone, Timelike};
use task_store::time::Timestamp;
use task_store::{NewTag, Store};

fn to_timestamp(u: chrono::DateTime<chrono::Utc>) -> Timestamp {
    Timestamp::from_parts(
        u.year() as i64,
        u.month() as i64,
        u.day() as i64,
        u.hour() as i64,
        u.minute() as i64,
        u.second() as i64,
        u.timestamp_subsec_millis().min(999) as i64,
    )
    .expect("chrono hands back a real in-range instant")
}

fn local_noon_utc(day: chrono::NaiveDate) -> Timestamp {
    let noon = day.and_hms_opt(12, 0, 0).unwrap();
    let local = chrono::Local
        .from_local_datetime(&noon)
        .single()
        .expect("noon exists in the local time zone");
    to_timestamp(local.with_timezone(&chrono::Utc))
}

#[test]
fn buy_milk_lists_once_incomplete_no_tags() {
    let mut s = Store::new();
    s.create("Buy milk".to_string(), None, None).unwrap();
    let all = s.list_all();
    assert_eq!(all.len(), 1);
    assert_eq!(all[0].name, "Buy milk");
    assert!(!all[0].completed);
    assert!(all[0].tags.is_none());
}

#[test]
fn linked_tag_appears_in_aggregated_task() {
    let mut s = Store::new();
    let task_id = s.create("call the bank".to_string(), None, None).unwrap();
    let urgent = s
        .add_tag(NewTag { name: "urgent".to_string(), color: "red".to_string() })
        .unwrap();
    s.link(task_id, urgent.id).unwrap();
    let t = s.get_by_id(task_id).unwrap();
    let tags = t.tags.expect("one tag is linked");
    assert_eq!(tags.len(), 1);
    assert_eq!(tags[0].name, "urgent");
    assert_eq!(tags[0].color, "red");
}

#[test]
fn completed_task_leaves_incomplete_listing() {
    let mut s = Store::new();
    let task_id = s.create("water plants".to_string(), None, None).unwrap();
    s.complete(task_id).unwrap();
    let all = s.list_all();
    assert_eq!(all.len(), 1);
    assert!(all[0].completed);
    assert!(all[0].completed_at.is_some());
    assert!(s.list_incomplete().is_empty());
}

#[test]
fn due_today_catches_noon_not_tomorrow() {
    let mut s = Store::new();
    let today = chrono::Local::now().date_naive();
    let tomorrow = today.succ_opt().unwrap();
    let today_id = s
        .create("due at noon".to_string(), Some(local_noon_utc(today)), None)
        .unwrap();
    s.create("due tomorrow".to_string(), Some(local_noon_utc(tomorrow)), None)
        .unwrap();
    let due = s.list_due_today().unwrap();
    assert_eq!(due.len(), 1);
    assert_eq!(due[0].id, today_id);
    assert_eq!(due[0].name, "due at noon");
}

#[test]
fn reset_empties_every_listing() {
    let mut s = Store::new();
    s.create(
        "t".to_string(),
        None,
        Some(vec![NewTag { name: "a".to_string(), color: "red".to_string() }]),
    )
    .unwrap();
    s.add_tag(NewTag { name: "b".to_string(), color: "blue".to_string() })
        .unwrap();
    s.reset();
    assert!(s.list_all().is_empty());
    assert!(s.list_tags().is_empty());
}

#[test]
fn clocked_create_stamps_a_plausible_instant() {
    let mut s = Store::new();
    let before = to_timestamp(chrono::Utc::now());
    let id = s.create("timed".to_string(), None, None).unwrap();
    let after = to_timestamp(chrono::Utc::now());
    let t = s.get_by_id(id).unwrap();
    assert!(before.le(&t.created_at));
    assert!(t.created_at.le(&after));
}
