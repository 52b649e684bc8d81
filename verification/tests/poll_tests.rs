use http::poll::{event_data, event_fd, event_slots, wait_timeout, CtlOutcome, Registry};

#[test]
fn registry_gives_back_what_was_registered() {
    let mut r: Registry<&str> = Registry::new();
    assert_eq!(r.len(), 0);
    r.insert(3, "listener");
    r.insert(7, "conn");
    assert_eq!(r.len(), 2);
    assert_eq!(r.get(3), Some(&"listener"));
    assert_eq!(r.remove(3), Some("listener"));
    assert_eq!(r.get(3), None);
    assert_eq!(r.remove(3), None);
    assert_eq!(r.get(7), Some(&"conn"));
    r.insert(7, "other");
    assert_eq!(r.len(), 1);
    assert_eq!(r.get(7), Some(&"other"));
}

#[test]
fn removal_after_epoll_ctl() {
    let mut r: Registry<u8> = Registry::new();
    r.insert(1, 10);
    r.insert(2, 20);
    r.insert(3, 30);
    assert_eq!(r.remove_after_ctl(1, CtlOutcome::Done), Ok(Some(10)));
    assert_eq!(r.remove_after_ctl(9, CtlOutcome::NotFound), Ok(None));
    assert_eq!(r.remove_after_ctl(2, CtlOutcome::NotFound), Ok(Some(20)));
    assert_eq!(r.remove_after_ctl(3, CtlOutcome::Failed), Err(()));
    assert_eq!(r.len(), 0);
}

#[test]
fn ready_events_keep_registered_descriptors_in_order() {
    let mut r: Registry<()> = Registry::new();
    r.insert(4, ());
    r.insert(6, ());
    let got = r.ready(&vec![(1, 6), (2, 5), (3, 4), (8, 6)]);
    assert_eq!(got, vec![(1, 6), (3, 4), (8, 6)]);
}

#[test]
fn conversions() {
    assert_eq!(event_data(17), 17u64);
    assert_eq!(event_fd(17), 17);
    assert_eq!(wait_timeout(None), -1);
    assert_eq!(wait_timeout(Some(250)), 250);
    assert_eq!(wait_timeout(Some(1u128 << 40)), i32::MAX);
    assert_eq!(event_slots(0), 1);
    assert_eq!(event_slots(1), 1);
    assert_eq!(event_slots(5), 5);
}
