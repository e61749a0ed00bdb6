use double_compresso::cleanup::ScheduledCleanup;

#[test]
fn schedule_replaces_only_for_a_new_time() {
    let mut c = ScheduledCleanup::new();
    assert_eq!(c.scheduled_at(), None);
    assert!(c.schedule(100));
    assert_eq!(c.scheduled_at(), Some(100));
    assert!(!c.schedule(100));
    assert!(c.schedule(150));
    assert_eq!(c.scheduled_at(), Some(150));
}

#[test]
fn fired_reschedules_or_clears() {
    let mut c = ScheduledCleanup::new();
    c.schedule(100);
    assert!(c.fired(Some(300)));
    assert_eq!(c.scheduled_at(), Some(300));
    assert!(!c.fired(None));
    assert_eq!(c.scheduled_at(), None);
    assert!(c.fired(Some(5)));
    assert_eq!(c.scheduled_at(), Some(5));
}
