use phillos_core::offline::{is_truthy, offline_flag};
use phillos_core::records::{CalendarEvent, FsEntry};

#[test]
fn truthy_tokens_turn_flag_on() {
    assert!(is_truthy(b"1"));
    assert!(is_truthy(b"true"));
    assert!(is_truthy(b"on"));
    assert!(is_truthy(b"ON"));
    assert!(is_truthy(b" On \n"));
    assert!(is_truthy(b"\tTRUE\r\n"));
}

#[test]
fn other_contents_leave_flag_off() {
    assert!(!is_truthy(b"off"));
    assert!(!is_truthy(b"0"));
    assert!(!is_truthy(b""));
    assert!(!is_truthy(b"   "));
    assert!(!is_truthy(b"truth"));
    assert!(!is_truthy(b"on off"));
}

#[test]
fn first_readable_config_decides() {
    assert!(!offline_flag(Some(b"0".to_vec()), Some(b"true".to_vec())));
    assert!(offline_flag(Some(b"1".to_vec()), Some(b"0".to_vec())));
    assert!(offline_flag(None, Some(b"on".to_vec())));
    assert!(!offline_flag(None, Some(b"no".to_vec())));
    assert!(!offline_flag(None, None));
}

#[test]
fn calendar_event_is_new_on_zero_id() {
    let fresh = CalendarEvent {
        id: 0,
        title: "standup".to_string(),
        start: "2024-01-01T09:00".to_string(),
        end: "2024-01-01T09:15".to_string(),
        tasks: None,
    };
    assert!(fresh.is_new());
    let stored = CalendarEvent { id: 3, ..fresh };
    assert!(!stored.is_new());
}

#[test]
fn fs_entry_carries_listing_fields() {
    let e = FsEntry {
        name: "sub".to_string(),
        path: "/storage/sub".to_string(),
        is_dir: true,
    };
    assert!(e.is_dir);
    assert_eq!(e.name, "sub");
    assert_eq!(e.path, "/storage/sub");
}
