use phatik::api::{handle_phatic_message, record_status};
use phatik::database::DatabaseApi;
use phatik::error::StoreError;
use phatik::models::{Event, EventList, ListOptions, PhaticMessage, TagList, TagListOptions};

fn ready() -> DatabaseApi {
    let mut db = DatabaseApi::new_temporary();
    db.init_database().unwrap();
    db
}

fn status(message: &str, tags: &[&str], epoch_seconds: i64) -> Event {
    Event {
        message: message.to_owned(),
        tags: tags.iter().map(|t| (*t).to_owned()).collect(),
        app: "concourse".to_owned(),
        epoch_seconds,
    }
}

#[test]
fn status_then_request_round_trip() {
    let mut db = ready();
    let reply = handle_phatic_message(PhaticMessage::Status(status("Starting a build", &["build", "js"], 1000)), &mut db).unwrap();
    assert!(reply.is_none());
    let reply = handle_phatic_message(PhaticMessage::Request(ListOptions { last_id: None, limit: None }), &mut db).unwrap();
    match reply {
        Some(PhaticMessage::StatusList(EventList { events, last_id })) => {
            assert_eq!(last_id, 1);
            assert_eq!(events.len(), 1);
            assert_eq!(events[0].message, "Starting a build");
            assert_eq!(events[0].tags, vec!["build".to_owned(), "js".to_owned()]);
            assert_eq!(events[0].epoch_seconds, 1000);
        }
        other => panic!("unexpected reply {:?}", other),
    }
}

#[test]
fn request_with_cursor_and_limit() {
    let mut db = ready();
    for i in 0..4 {
        record_status(&mut db, status(&format!("e{}", i + 1), &["t"], i)).unwrap();
    }
    let reply = handle_phatic_message(PhaticMessage::Request(ListOptions { last_id: Some(1), limit: Some(2) }), &mut db).unwrap();
    match reply {
        Some(PhaticMessage::StatusList(list)) => {
            assert_eq!(list.last_id, 3);
            let names: Vec<String> = list.events.iter().map(|e| e.message.clone()).collect();
            assert_eq!(names, vec!["e2", "e3"]);
        }
        other => panic!("unexpected reply {:?}", other),
    }
}

#[test]
fn tag_request_lists_sorted() {
    let mut db = ready();
    record_status(&mut db, status("m", &["go", "build", "ab"], 1)).unwrap();
    let reply = handle_phatic_message(PhaticMessage::TagRequest(TagListOptions { limit: Some(1) }), &mut db).unwrap();
    match reply {
        Some(PhaticMessage::TagList(TagList { tags })) => {
            assert_eq!(tags, vec!["ab".to_owned(), "build".to_owned(), "go".to_owned()]);
        }
        other => panic!("unexpected reply {:?}", other),
    }
}

#[test]
fn responses_pass_through() {
    let mut db = ready();
    let msg = PhaticMessage::TagList(TagList { tags: vec!["x".to_owned()] });
    match handle_phatic_message(msg, &mut db).unwrap() {
        Some(PhaticMessage::TagList(TagList { tags })) => assert_eq!(tags, vec!["x".to_owned()]),
        other => panic!("unexpected reply {:?}", other),
    }
    let msg = PhaticMessage::StatusList(EventList { events: vec![status("m", &["a"], 5)], last_id: 9 });
    match handle_phatic_message(msg, &mut db).unwrap() {
        Some(PhaticMessage::StatusList(list)) => {
            assert_eq!(list.last_id, 9);
            assert_eq!(list.events[0].message, "m");
        }
        other => panic!("unexpected reply {:?}", other),
    }
    assert!(db.all_tags().unwrap().is_empty());
}

#[test]
fn status_with_repeated_tag_refused_whole() {
    let mut db = ready();
    let r = handle_phatic_message(PhaticMessage::Status(status("m", &["new", "new"], 1)), &mut db);
    assert!(matches!(r, Err(StoreError::DuplicateTag)));
    assert!(db.all_tags().unwrap().is_empty());
    let (wm, events) = db.events_after_id(-1, 100).unwrap();
    assert_eq!(wm, -1);
    assert!(events.is_empty());
}

#[test]
fn status_reuses_known_tags() {
    let mut db = ready();
    record_status(&mut db, status("a", &["build"], 1)).unwrap();
    record_status(&mut db, status("b", &["js", "build"], 2)).unwrap();
    assert_eq!(db.all_tags().unwrap(), vec!["build".to_owned(), "js".to_owned()]);
    let (wm, events) = db.events_after_id(-1, 100).unwrap();
    assert_eq!(wm, 2);
    assert_eq!(events[1].tags, vec!["js".to_owned(), "build".to_owned()]);
}

#[test]
fn messages_need_tables() {
    let mut db = DatabaseApi::new_temporary();
    let r = handle_phatic_message(PhaticMessage::Request(ListOptions { last_id: None, limit: None }), &mut db);
    assert!(matches!(r, Err(StoreError::NoSuchTable)));
    let r = handle_phatic_message(PhaticMessage::TagRequest(TagListOptions { limit: None }), &mut db);
    assert!(matches!(r, Err(StoreError::NoSuchTable)));
    let r = handle_phatic_message(PhaticMessage::Status(status("m", &["a"], 1)), &mut db);
    assert!(matches!(r, Err(StoreError::NoSuchTable)));
}
