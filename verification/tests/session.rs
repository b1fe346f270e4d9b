use file_update_monitor::EventKind;
use file_update_monitor::Monitor;
use file_update_monitor::Phase;
use file_update_monitor::RawEvent;

fn modification(path: &str) -> RawEvent {
    RawEvent { kind: EventKind::ContentModified, paths: vec![Some(path.to_string())] }
}

fn creation(path: &str) -> RawEvent {
    RawEvent { kind: EventKind::Created, paths: vec![Some(path.to_string())] }
}

#[test]
fn monitor_keeps_configuration() {
    let m = Monitor::new("./data", 200);
    assert_eq!(m.directory(), "./data");
    assert_eq!(m.interval_ms(), 200);
}

#[test]
fn session_walks_the_phases() {
    let m = Monitor::new("./data", 200);
    let mut s = m.session();
    assert_eq!(s.current_phase(), Phase::Idle);
    s.on_registered();
    assert_eq!(s.current_phase(), Phase::Watching);
    s.on_feed_ended();
    assert_eq!(s.current_phase(), Phase::Terminated);
}

#[test]
fn registration_failure_terminates_without_firing() {
    // Watching a non-existent directory: the registration error is fatal,
    // the session ends and nothing is ever handed out to fire.
    let m = Monitor::new("./no/such/directory", 200);
    let mut s = m.session();
    s.on_registration_failed();
    assert_eq!(s.current_phase(), Phase::Terminated);
    assert_eq!(s.next_deadline(), None);
    assert_eq!(s.error_count(), 0);
}

#[test]
fn classifier_gates_the_debouncer() {
    // A creation event and a content-modification event for the same path:
    // only the modification reaches the debouncer.
    let m = Monitor::new("./data", 200);
    let mut s = m.session();
    s.on_registered();
    s.on_raw_event(&creation("./data/a.txt"), 0);
    assert_eq!(s.next_deadline(), None);
    s.on_raw_event(&modification("./data/a.txt"), 10);
    assert_eq!(s.next_deadline(), Some(210));
    assert_eq!(s.on_tick(210), vec!["./data/a.txt".to_string()]);
    assert_eq!(s.next_deadline(), None);
}

#[test]
fn session_coalesces_burst_end_to_end() {
    // Watch with a 200 ms interval; modify ./data/a.txt at t = 0, 50, 120:
    // exactly one firing with that path, at t = 320.
    let m = Monitor::new("./data", 200);
    let mut s = m.session();
    s.on_registered();
    s.on_raw_event(&modification("./data/a.txt"), 0);
    s.on_raw_event(&modification("./data/a.txt"), 50);
    s.on_raw_event(&modification("./data/a.txt"), 120);
    assert_eq!(s.next_deadline(), Some(320));
    assert_eq!(s.on_tick(319), Vec::<String>::new());
    assert_eq!(s.on_tick(320), vec!["./data/a.txt".to_string()]);
    assert_eq!(s.on_tick(520), Vec::<String>::new());
}

#[test]
fn session_fires_distinct_keys_in_deadline_order() {
    // Modify a at t = 0 and b at t = 10 with a 100 ms interval: two
    // independent firings, at t = 100 and t = 110, in that relative order.
    let m = Monitor::new("./data", 100);
    let mut s = m.session();
    s.on_registered();
    s.on_raw_event(&modification("./data/a.txt"), 0);
    s.on_raw_event(&modification("./data/b.txt"), 10);
    assert_eq!(s.on_tick(100), vec!["./data/a.txt".to_string()]);
    assert_eq!(s.on_tick(110), vec!["./data/b.txt".to_string()]);
}

#[test]
fn provider_errors_are_absorbed_and_counted() {
    let m = Monitor::new("./data", 100);
    let mut s = m.session();
    s.on_registered();
    s.on_raw_event(&modification("./data/a.txt"), 0);
    s.on_provider_error();
    s.on_provider_error();
    assert_eq!(s.current_phase(), Phase::Watching);
    assert_eq!(s.error_count(), 2);
    // The pending deadline survived the per-event errors.
    assert_eq!(s.next_deadline(), Some(100));
}

#[test]
fn feed_end_cancels_pending_deadlines() {
    let m = Monitor::new("./data", 100);
    let mut s = m.session();
    s.on_registered();
    s.on_raw_event(&modification("./data/a.txt"), 0);
    s.on_feed_ended();
    assert_eq!(s.current_phase(), Phase::Terminated);
    assert_eq!(s.next_deadline(), None);
}

#[test]
fn zero_interval_is_degenerate_but_valid() {
    let m = Monitor::new("./data", 0);
    let mut s = m.session();
    s.on_registered();
    s.on_raw_event(&modification("./data/a.txt"), 42);
    assert_eq!(s.on_tick(42), vec!["./data/a.txt".to_string()]);
}
