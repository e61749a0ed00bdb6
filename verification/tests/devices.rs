use double_compresso::devices::{
    Devices, ScanEvent, CLEANUP_DELAY, CLEANUP_MARGIN, MAX_TIME, REMOVE_DISCOVERED_DEVICE_AFTER,
};

const SEC: u64 = 1_000_000_000;

fn lost(events: &[ScanEvent<&'static str>]) -> Vec<u64> {
    events
        .iter()
        .map(|e| match e {
            ScanEvent::Lost(a) => *a,
            ScanEvent::Found(..) => panic!("unexpected Found"),
        })
        .collect()
}

#[test]
fn cleanup_delay_is_fifteen_seconds_and_a_millisecond() {
    assert_eq!(REMOVE_DISCOVERED_DEVICE_AFTER, 15 * SEC);
    assert_eq!(CLEANUP_MARGIN, SEC / 1000);
    assert_eq!(CLEANUP_DELAY, 15 * SEC + SEC / 1000);
    assert_eq!(MAX_TIME, u64::MAX - CLEANUP_DELAY);
}

#[test]
fn touch_new_device_is_found() {
    let mut devices = Devices::new();
    let mut events = Vec::new();
    let next = devices.touch("dev-a", 0xa, 100, false, &mut events);
    assert_eq!(next, Some(100 + CLEANUP_DELAY));
    assert_eq!(events.len(), 1);
    assert!(matches!(events[0], ScanEvent::Found(0xa, "dev-a")));
}

#[test]
fn touch_known_device_moves_its_time_silently() {
    let mut devices = Devices::new();
    let mut events = Vec::new();
    devices.touch("a", 1, 10, false, &mut events);
    devices.touch("b", 2, 20, false, &mut events);
    let next = devices.touch("a", 1, 30, false, &mut events);
    assert_eq!(events.len(), 2);
    // the earliest device is now `b`, seen at 20
    assert_eq!(next, Some(20 + CLEANUP_DELAY));
    assert_eq!(devices.clean_stale_at(), Some(20 + CLEANUP_DELAY));
}

#[test]
fn touch_only_existing_skips_unknown_device() {
    let mut devices = Devices::new();
    let mut events: Vec<ScanEvent<&str>> = Vec::new();
    assert_eq!(devices.touch("x", 7, 5, true, &mut events), None);
    assert!(events.is_empty());
    assert_eq!(devices.clean_stale_at(), None);
    devices.touch("x", 7, 5, false, &mut events);
    assert_eq!(devices.touch("x", 7, 9, true, &mut events), Some(9 + CLEANUP_DELAY));
    assert_eq!(events.len(), 1);
}

#[test]
fn touch_same_time_shares_bucket() {
    let mut devices = Devices::new();
    let mut events = Vec::new();
    devices.touch("a", 1, 50, false, &mut events);
    devices.touch("b", 2, 50, false, &mut events);
    devices.touch("a", 1, 50, false, &mut events);
    assert_eq!(devices.clean_stale_at(), Some(50 + CLEANUP_DELAY));
    let mut lost_events = Vec::new();
    devices.clear_stale(50 + REMOVE_DISCOVERED_DEVICE_AFTER + 1, &mut lost_events);
    let mut l = lost(&lost_events);
    l.sort();
    assert_eq!(l, vec![1, 2]);
}

#[test]
fn clear_all_loses_every_device_in_address_order() {
    let mut devices = Devices::new();
    let mut events = Vec::new();
    devices.touch("c", 30, 1, false, &mut events);
    devices.touch("a", 10, 2, false, &mut events);
    devices.touch("b", 20, 3, false, &mut events);
    let mut lost_events = Vec::new();
    devices.clear_all(&mut lost_events);
    assert_eq!(lost(&lost_events), vec![10, 20, 30]);
    assert_eq!(devices.clean_stale_at(), None);
    // after clearing, a device is found again
    let mut again = Vec::new();
    devices.touch("a", 10, 4, false, &mut again);
    assert!(matches!(again[0], ScanEvent::Found(10, "a")));
}

#[test]
fn clear_stale_drops_old_devices_oldest_first() {
    let mut devices = Devices::new();
    let mut events = Vec::new();
    devices.touch("a", 5, SEC, false, &mut events);
    devices.touch("b", 4, 2 * SEC, false, &mut events);
    devices.touch("c", 3, 20 * SEC, false, &mut events);
    let mut lost_events = Vec::new();
    let next = devices.clear_stale(18 * SEC, &mut lost_events);
    assert_eq!(lost(&lost_events), vec![5, 4]);
    assert_eq!(next, Some(20 * SEC + CLEANUP_DELAY));
    assert!(next.unwrap() > 18 * SEC);
    // a device exactly REMOVE_DISCOVERED_DEVICE_AFTER old is still fresh
    let mut more = Vec::new();
    assert_eq!(devices.clear_stale(35 * SEC, &mut more), Some(20 * SEC + CLEANUP_DELAY));
    assert!(more.is_empty());
    assert_eq!(devices.clear_stale(35 * SEC + 1, &mut more), None);
    assert_eq!(lost(&more), vec![3]);
}

#[test]
fn clear_stale_early_in_time_keeps_everything() {
    let mut devices = Devices::new();
    let mut events = Vec::new();
    devices.touch("a", 1, 0, false, &mut events);
    let mut lost_events: Vec<ScanEvent<&str>> = Vec::new();
    assert_eq!(devices.clear_stale(SEC, &mut lost_events), Some(CLEANUP_DELAY));
    assert!(lost_events.is_empty());
}

#[test]
fn due_cleanup_drops_the_earliest_device() {
    let mut devices = Devices::new();
    let mut events = Vec::new();
    devices.touch("a", 1, 100, false, &mut events);
    let due = devices.touch("b", 2, 100 + SEC, false, &mut events).unwrap();
    assert_eq!(due, 100 + CLEANUP_DELAY);
    let mut lost_events = Vec::new();
    let next = devices.clear_stale(due, &mut lost_events);
    assert_eq!(lost(&lost_events), vec![1]);
    assert_eq!(next, Some(100 + SEC + CLEANUP_DELAY));
    assert!(next.unwrap() > due);
}

#[test]
fn touch_never_moves_cleanup_earlier() {
    let mut devices = Devices::new();
    let mut events = Vec::new();
    let mut last = 0;
    for (i, t) in [10u64, 20, 20, 35, 50].iter().enumerate() {
        let next = devices.touch("d", (i % 2) as u64, *t, false, &mut events).unwrap();
        assert!(next >= last);
        last = next;
    }
}

#[test]
fn touch_accepts_the_latest_time() {
    let mut devices = Devices::new();
    let mut events = Vec::new();
    assert_eq!(devices.touch("z", 9, MAX_TIME, false, &mut events), Some(u64::MAX));
}

#[test]
fn found_and_lost_alternate_per_address() {
    let mut devices = Devices::new();
    let mut history: Vec<ScanEvent<&str>> = Vec::new();
    devices.touch("a", 1, 0, false, &mut history);
    devices.touch("b", 2, SEC, false, &mut history);
    devices.touch("a", 1, 2 * SEC, false, &mut history);
    devices.clear_stale(17 * SEC, &mut history);
    devices.touch("b", 2, 18 * SEC, false, &mut history);
    devices.touch("c", 3, 18 * SEC, true, &mut history);
    devices.clear_all(&mut history);
    devices.touch("a", 1, 19 * SEC, false, &mut history);
    for addr in [1u64, 2, 3] {
        let kinds: Vec<bool> = history
            .iter()
            .filter_map(|e| match e {
                ScanEvent::Found(a, _) if *a == addr => Some(true),
                ScanEvent::Lost(a) if *a == addr => Some(false),
                _ => None,
            })
            .collect();
        for (i, found) in kinds.iter().enumerate() {
            assert_eq!(*found, i % 2 == 0, "address {}", addr);
        }
    }
    // `a` is listed and its last event is Found; `b` is not, its last is Lost
    assert_eq!(devices.clean_stale_at(), Some(19 * SEC + CLEANUP_DELAY));
    assert!(matches!(history.last(), Some(ScanEvent::Found(1, "a"))));
}

#[test]
fn reported_cleanup_times_never_decrease_over_a_trace() {
    let mut devices = Devices::new();
    let mut events: Vec<ScanEvent<&str>> = Vec::new();
    let mut reports = Vec::new();
    reports.extend(devices.touch("a", 1, SEC, false, &mut events));
    reports.extend(devices.touch("b", 2, 3 * SEC, false, &mut events));
    reports.extend(devices.touch("a", 1, 5 * SEC, false, &mut events));
    reports.extend(devices.clear_stale(16 * SEC + SEC / 2, &mut events));
    devices.clear_all(&mut events);
    reports.extend(devices.touch("c", 3, 20 * SEC, false, &mut events));
    reports.extend(devices.clear_stale(40 * SEC, &mut events));
    assert_eq!(reports.len(), 5);
    assert!(reports.windows(2).all(|w| w[0] <= w[1]), "{:?}", reports);
}
