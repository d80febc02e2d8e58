use keeper::event_map::EventMap;
use keeper::timespec::Timespec;
use keeper::tracker::Context;
use keeper::web::{get_result, is_on, state_of, GetResult};

#[test]
fn state_names() {
    assert_eq!(state_of("on"), Some(Context::On));
    assert_eq!(state_of("off"), Some(Context::Off));
    assert_eq!(state_of("ON"), None);
    assert_eq!(state_of(""), None);
    assert_eq!(state_of("toggle"), None);
    assert!(is_on(Context::On));
    assert!(!is_on(Context::Off));
}

#[test]
fn get_result_writes_moments_by_rfc3339() {
    let mut events = EventMap::new();
    events.insert(Timespec::new(1_717_282_800, 0), Context::Off);
    events.insert(Timespec::new(1_717_272_000, 0), Context::On);
    assert_eq!(
        get_result(Context::On, &events),
        Some(GetResult {
            switch: true,
            next_events: vec![
                ("2024-06-01T20:00:00Z".to_string(), true),
                ("2024-06-01T23:00:00Z".to_string(), false),
            ],
        })
    );
}

#[test]
fn get_result_without_events() {
    assert_eq!(
        get_result(Context::Off, &EventMap::new()),
        Some(GetResult { switch: false, next_events: vec![] })
    );
}

#[test]
fn get_result_at_the_epoch_and_before() {
    let mut events = EventMap::new();
    events.insert(Timespec::new(0, 999_999_999), Context::On);
    assert_eq!(
        get_result(Context::Off, &events).unwrap().next_events,
        vec![("1970-01-01T00:00:00Z".to_string(), true)]
    );
    events.insert(Timespec::new(-1, 0), Context::Off);
    assert_eq!(get_result(Context::Off, &events), None);
    assert!(Timespec::new(0, 0).is_printable());
    assert!(!Timespec::new(-1, 0).is_printable());
}

#[test]
fn get_result_refuses_a_moment_beyond_the_calendar() {
    let mut events = EventMap::new();
    events.insert(Timespec::new(1_717_272_000, 0), Context::On);
    events.insert(Timespec::new(253_402_300_800, 0), Context::Off);
    assert_eq!(get_result(Context::On, &events), None);
    let mut events = EventMap::new();
    events.insert(Timespec::new(253_402_300_799, 0), Context::Off);
    assert_eq!(
        get_result(Context::On, &events).unwrap().next_events,
        vec![("9999-12-31T23:59:59Z".to_string(), false)]
    );
}
