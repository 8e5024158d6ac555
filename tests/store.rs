use phatik::database::{DatabaseApi, DbEvent, DbTag};
use phatik::error::StoreError;
use phatik::models::Event;
use phatik::order::text_less;

fn ready() -> DatabaseApi {
    let mut db = DatabaseApi::new_temporary();
    db.init_database().unwrap();
    db
}

fn tag(db: &mut DatabaseApi, text: &str) -> i64 {
    db.register_tag(DbTag { text: text.to_owned() }).unwrap()
}

fn event(message: &str, tags: Vec<i64>, epoch_seconds: i64) -> DbEvent {
    DbEvent { message: message.to_owned(), app: "app".to_owned(), tags, epoch_seconds }
}

fn messages(events: &[Event]) -> Vec<String> {
    events.iter().map(|e| e.message.clone()).collect()
}

#[test]
fn register_tag_twice_gives_same_id() {
    let mut db = ready();
    let first = tag(&mut db, "x");
    let second = tag(&mut db, "x");
    assert_eq!(first, second);
    let tags = db.all_tags().unwrap();
    assert_eq!(tags.iter().filter(|t| t.as_str() == "x").count(), 1);
    assert_eq!(tags, vec!["x".to_owned()]);
}

#[test]
fn tag_ids_start_at_one_and_follow_order() {
    let mut db = ready();
    assert_eq!(tag(&mut db, "a"), 1);
    assert_eq!(tag(&mut db, "b"), 2);
    assert_eq!(tag(&mut db, "a"), 1);
    assert_eq!(tag(&mut db, "c"), 3);
}

#[test]
fn all_tags_sorted() {
    let mut db = ready();
    tag(&mut db, "go");
    tag(&mut db, "build");
    tag(&mut db, "ab");
    assert_eq!(db.all_tags().unwrap(), vec!["ab".to_owned(), "build".to_owned(), "go".to_owned()]);
}

#[test]
fn all_tags_prefix_and_case_order() {
    let mut db = ready();
    tag(&mut db, "abc");
    tag(&mut db, "B");
    tag(&mut db, "ab");
    tag(&mut db, "a");
    assert_eq!(
        db.all_tags().unwrap(),
        vec!["B".to_owned(), "a".to_owned(), "ab".to_owned(), "abc".to_owned()]
    );
}

#[test]
fn all_tags_empty_registry() {
    let db = ready();
    assert!(db.all_tags().unwrap().is_empty());
}

#[test]
fn cursor_returns_events_after_start() {
    let mut db = ready();
    let t = tag(&mut db, "t");
    for i in 1..=5 {
        db.register_event(event(&format!("e{}", i), vec![t], 100 + i)).unwrap();
    }
    let (wm, events) = db.events_after_id(2, 10).unwrap();
    assert_eq!(wm, 5);
    assert_eq!(messages(&events), vec!["e3", "e4", "e5"]);
    let (wm, events) = db.events_after_id(5, 10).unwrap();
    assert_eq!(wm, 5);
    assert!(events.is_empty());
}

#[test]
fn cursor_limit_and_resume() {
    let mut db = ready();
    let t = tag(&mut db, "t");
    for i in 1..=5 {
        db.register_event(event(&format!("e{}", i), vec![t], 100 + i)).unwrap();
    }
    let (wm, events) = db.events_after_id(-1, 2).unwrap();
    assert_eq!(wm, 2);
    assert_eq!(messages(&events), vec!["e1", "e2"]);
    let (wm, events) = db.events_after_id(wm, 2).unwrap();
    assert_eq!(wm, 4);
    assert_eq!(messages(&events), vec!["e3", "e4"]);
    let (wm, events) = db.events_after_id(-1, 0).unwrap();
    assert_eq!(wm, -1);
    assert!(events.is_empty());
    let (wm, events) = db.events_after_id(-1, -1).unwrap();
    assert_eq!(wm, 5);
    assert_eq!(events.len(), 5);
}

#[test]
fn listing_orders_by_timestamp_then_id() {
    let mut db = ready();
    let t = tag(&mut db, "t");
    db.register_event(event("late", vec![t], 300)).unwrap();
    db.register_event(event("early", vec![t], 100)).unwrap();
    db.register_event(event("middle", vec![t], 200)).unwrap();
    db.register_event(event("early too", vec![t], 100)).unwrap();
    let (wm, events) = db.events_after_id(-1, 100).unwrap();
    assert_eq!(messages(&events), vec!["early", "early too", "middle", "late"]);
    assert_eq!(wm, 4);
    let (wm, events) = db.events_after_id(-1, 2).unwrap();
    assert_eq!(messages(&events), vec!["early", "early too"]);
    assert_eq!(wm, 4);
}

#[test]
fn untagged_event_not_listed() {
    let mut db = ready();
    let t = tag(&mut db, "t");
    db.register_event(event("bare", vec![], 100)).unwrap();
    db.register_event(event("tagged", vec![t], 200)).unwrap();
    let (wm, events) = db.events_after_id(-1, 100).unwrap();
    assert_eq!(messages(&events), vec!["tagged"]);
    assert_eq!(wm, 2);
}

#[test]
fn round_trip_event() {
    let mut db = ready();
    let build = tag(&mut db, "build");
    let js = tag(&mut db, "js");
    db.register_event(DbEvent {
        message: "Starting a build".to_owned(),
        app: "concourse".to_owned(),
        tags: vec![build, js],
        epoch_seconds: 1000,
    })
    .unwrap();
    let (wm, events) = db.events_after_id(-1, 100).unwrap();
    assert_eq!(wm, 1);
    assert_eq!(events.len(), 1);
    let e = &events[0];
    assert_eq!(e.message, "Starting a build");
    assert_eq!(e.app, "concourse");
    assert_eq!(e.epoch_seconds, 1000);
    let mut tags = e.tags.clone();
    tags.sort();
    assert_eq!(tags, vec!["build".to_owned(), "js".to_owned()]);
}

#[test]
fn tag_with_separator_kept_whole() {
    let mut db = ready();
    let t = tag(&mut db, "a;b");
    db.register_event(event("m", vec![t], 1)).unwrap();
    let (_, events) = db.events_after_id(-1, 100).unwrap();
    assert_eq!(events[0].tags, vec!["a;b".to_owned()]);
}

#[test]
fn failed_registration_leaves_no_event() {
    let mut db = ready();
    let t = tag(&mut db, "t");
    assert_eq!(db.register_event(event("dup", vec![t, t], 1)), Err(StoreError::DuplicateTag));
    assert_eq!(db.register_event(event("unknown", vec![t, 7], 1)), Err(StoreError::UnknownTag));
    assert_eq!(db.register_event(event("zero", vec![0], 1)), Err(StoreError::UnknownTag));
    let (wm, events) = db.events_after_id(-1, 100).unwrap();
    assert_eq!(wm, -1);
    assert!(events.is_empty());
    db.register_event(event("ok", vec![t], 2)).unwrap();
    let (wm, events) = db.events_after_id(-1, 100).unwrap();
    assert_eq!(wm, 1);
    assert_eq!(messages(&events), vec!["ok"]);
    assert_eq!(events[0].tags, vec!["t".to_owned()]);
}

#[test]
fn event_ids_increase() {
    let mut db = ready();
    let t = tag(&mut db, "t");
    let mut last = 0;
    for i in 0..4 {
        db.register_event(event("e", vec![t], 10 - i)).unwrap();
        let (wm, _) = db.events_after_id(last, 100).unwrap();
        assert!(wm > last);
        assert_eq!(wm, last + 1);
        last = wm;
    }
}

#[test]
fn tables_must_exist() {
    let mut db = DatabaseApi::new_temporary();
    assert_eq!(db.register_tag(DbTag { text: "x".to_owned() }), Err(StoreError::NoSuchTable));
    assert_eq!(db.register_event(event("e", vec![], 1)), Err(StoreError::NoSuchTable));
    assert!(matches!(db.events_after_id(-1, 10), Err(StoreError::NoSuchTable)));
    assert!(matches!(db.all_tags(), Err(StoreError::NoSuchTable)));
    assert_eq!(db.init_database(), Ok(()));
    assert_eq!(db.init_database(), Err(StoreError::TablesExist));
}

#[test]
fn db_tag_from_string() {
    let t: DbTag = "helm".to_owned().into();
    assert_eq!(t.text, "helm");
}

#[test]
fn fake_data_loads() {
    let mut db = ready();
    db.add_fake_data(1000).unwrap();
    assert_eq!(
        db.all_tags().unwrap(),
        vec!["automation", "build", "deploy", "go", "helm", "js"]
            .into_iter()
            .map(|s| s.to_owned())
            .collect::<Vec<_>>()
    );
    let (wm, events) = db.events_after_id(-1, 100).unwrap();
    assert_eq!(wm, 3);
    assert_eq!(messages(&events), vec!["Starting a build", "Deploying helm", "Toggling storage radiator"]);
    assert_eq!(events[0].tags, vec!["build".to_owned(), "js".to_owned(), "helm".to_owned()]);
    assert_eq!(events[2].epoch_seconds, 1002);
    assert_eq!(events[1].app, "git");
}

#[test]
fn fake_data_needs_tables() {
    let mut db = DatabaseApi::new_temporary();
    assert_eq!(db.add_fake_data(0), Err(StoreError::NoSuchTable));
}

#[test]
fn text_order() {
    assert!(text_less("ab", "abc"));
    assert!(!text_less("abc", "ab"));
    assert!(text_less("Z", "a"));
    assert!(!text_less("go", "go"));
    assert!(text_less("", "a"));
    assert!(text_less("build", "go"));
}
