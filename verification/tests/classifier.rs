use file_update_monitor::EventKind;
use file_update_monitor::RawEvent;
use file_update_monitor::event::classify;

#[test]
fn classify_accepts_content_modification() {
    let event = RawEvent {
        kind: EventKind::ContentModified,
        paths: vec![Some("./data/a.txt".to_string())],
    };
    assert_eq!(classify(&event), Some("./data/a.txt".to_string()));
}

#[test]
fn classify_takes_first_path() {
    let event = RawEvent {
        kind: EventKind::ContentModified,
        paths: vec![Some("./data/a.txt".to_string()), Some("./data/b.txt".to_string())],
    };
    assert_eq!(classify(&event), Some("./data/a.txt".to_string()));
}

#[test]
fn classify_drops_other_kinds() {
    let kinds = vec![
        EventKind::Created,
        EventKind::MetadataModified,
        EventKind::Removed,
        EventKind::Renamed,
        EventKind::Accessed,
        EventKind::Other,
    ];
    for kind in kinds {
        let event = RawEvent { kind, paths: vec![Some("./data/a.txt".to_string())] };
        assert_eq!(classify(&event), None);
    }
}

#[test]
fn classify_drops_empty_path_list() {
    let event = RawEvent { kind: EventKind::ContentModified, paths: vec![] };
    assert_eq!(classify(&event), None);
}

#[test]
fn classify_drops_unrepresentable_path() {
    let event = RawEvent { kind: EventKind::ContentModified, paths: vec![None] };
    assert_eq!(classify(&event), None);
}
