use file_update_monitor::Debouncer;

#[test]
fn burst_coalesces_to_single_firing() {
    // Three modifications of one file at t = 0, 50, 120 with a 200 ms
    // interval: exactly one firing, due at t = 320.
    let mut d = Debouncer::new(200);
    d.put("./data/a.txt".to_string(), 0);
    d.put("./data/a.txt".to_string(), 50);
    d.put("./data/a.txt".to_string(), 120);
    assert_eq!(d.next_deadline(), Some(320));
    assert_eq!(d.fire(319), Vec::<String>::new());
    assert_eq!(d.fire(320), vec!["./data/a.txt".to_string()]);
    assert_eq!(d.fire(520), Vec::<String>::new());
}

#[test]
fn two_keys_fire_independently() {
    // a at t = 0 and b at t = 10 with a 100 ms interval: two firings, at
    // t = 100 and t = 110, in that relative order.
    let mut d = Debouncer::new(100);
    d.put("./data/a.txt".to_string(), 0);
    d.put("./data/b.txt".to_string(), 10);
    assert_eq!(d.next_deadline(), Some(100));
    assert_eq!(d.fire(100), vec!["./data/a.txt".to_string()]);
    assert_eq!(d.next_deadline(), Some(110));
    assert_eq!(d.fire(110), vec!["./data/b.txt".to_string()]);
    assert_eq!(d.next_deadline(), None);
}

#[test]
fn repeat_put_resets_timer() {
    // put(k) then immediately put(k) again: one firing, not two.
    let mut d = Debouncer::new(100);
    d.put("k".to_string(), 0);
    d.put("k".to_string(), 0);
    assert_eq!(d.fire(100), vec!["k".to_string()]);
    assert_eq!(d.fire(200), Vec::<String>::new());
}

#[test]
fn put_replaces_deadline() {
    let mut d = Debouncer::new(100);
    d.put("k".to_string(), 0);
    d.put("k".to_string(), 50);
    // The timer was reset: nothing is due at the first deadline.
    assert_eq!(d.next_deadline(), Some(150));
    assert_eq!(d.fire(100), Vec::<String>::new());
    assert_eq!(d.fire(150), vec!["k".to_string()]);
}

#[test]
fn zero_delay_fires_immediately() {
    // A zero interval means no coalescing window: each arrival is its own
    // window and fires at the next pass.
    let mut d = Debouncer::new(0);
    d.put("k".to_string(), 5);
    assert_eq!(d.fire(5), vec!["k".to_string()]);
    d.put("k".to_string(), 7);
    assert_eq!(d.fire(7), vec!["k".to_string()]);
}

#[test]
fn one_pass_fires_all_due_keys_once() {
    let mut d = Debouncer::new(10);
    d.put("a".to_string(), 0);
    d.put("b".to_string(), 3);
    let fired = d.fire(13);
    assert_eq!(fired.len(), 2);
    assert!(fired.contains(&"a".to_string()));
    assert!(fired.contains(&"b".to_string()));
    assert_eq!(d.fire(100), Vec::<String>::new());
}

#[test]
fn next_deadline_none_when_empty() {
    let d = Debouncer::new(100);
    assert_eq!(d.next_deadline(), None);
}

#[test]
fn shutdown_cancels_without_firing() {
    let mut d = Debouncer::new(100);
    d.put("a".to_string(), 0);
    d.put("b".to_string(), 0);
    d.shutdown();
    assert_eq!(d.next_deadline(), None);
    assert_eq!(d.fire(u64::MAX), Vec::<String>::new());
}
