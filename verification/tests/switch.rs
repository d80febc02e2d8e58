use keeper::event_map::EventMap;
use keeper::serial::{Command, SerialClient};
use keeper::switch::Switch;
use keeper::timespec::Timespec;
use keeper::tracker::Context;

fn at(sec: i64) -> Timespec {
    Timespec::new(sec, 0)
}

#[test]
fn event_map_keeps_its_keys_in_order() {
    let mut m = EventMap::new();
    m.insert(at(30), Context::Off);
    m.insert(at(10), Context::On);
    m.insert(at(20), Context::Off);
    assert_eq!(m.len(), 3);
    assert_eq!(
        m.to_vec(),
        vec![(at(10), Context::On), (at(20), Context::Off), (at(30), Context::Off)]
    );
}

#[test]
fn event_map_insert_replaces_the_value_of_a_key() {
    let mut m = EventMap::new();
    m.insert(at(10), Context::On);
    m.insert(at(10), Context::Off);
    assert_eq!(m.len(), 1);
    assert_eq!(m.get(&at(10)), Some(Context::Off));
    assert_eq!(m.get(&at(11)), None);
    assert!(m.contains_key(&at(10)));
    assert!(!m.contains_key(&at(9)));
}

#[test]
fn event_map_orders_by_nanoseconds_within_a_second() {
    let mut m = EventMap::new();
    m.insert(Timespec::new(5, 2), Context::Off);
    m.insert(Timespec::new(5, 1), Context::On);
    assert_eq!(
        m.to_vec(),
        vec![(Timespec::new(5, 1), Context::On), (Timespec::new(5, 2), Context::Off)]
    );
}

#[test]
fn event_map_remove_through_drops_the_key_and_all_before() {
    let mut m = EventMap::new();
    for s in [10, 20, 30, 40] {
        m.insert(at(s), Context::On);
    }
    m.remove_through(&at(20));
    assert_eq!(m.to_vec(), vec![(at(30), Context::On), (at(40), Context::On)]);
    m.remove_through(&at(35));
    assert_eq!(m.to_vec(), vec![(at(40), Context::On)]);
    m.remove_through(&at(5));
    assert_eq!(m.len(), 1);
    m.remove_through(&at(40));
    assert_eq!(m.len(), 0);
    m.remove_through(&at(40));
    assert_eq!(m.len(), 0);
}

#[test]
fn event_map_duplicate_is_a_copy() {
    let mut m = EventMap::new();
    m.insert(at(1), Context::On);
    let copy = m.duplicate();
    m.insert(at(2), Context::Off);
    assert_eq!(copy.to_vec(), vec![(at(1), Context::On)]);
    assert_eq!(m.len(), 2);
}

#[test]
fn new_switch_is_off_cold_and_empty() {
    let s = Switch::new("lamp".to_string());
    assert_eq!(s.alias(), "lamp");
    assert_eq!(s.get_state(), Context::Off);
    assert!(!s.is_hot());
    assert_eq!(s.get_future_events().len(), 0);
}

#[test]
fn hint_pairs_an_off_with_the_on_before_it() {
    let mut s = Switch::new("lamp".to_string());
    s.hint(&at(100), &Context::On);
    assert_eq!(s.get_future_events().len(), 0);
    s.hint(&at(200), &Context::Off);
    assert_eq!(
        s.get_future_events().to_vec(),
        vec![(at(100), Context::On), (at(200), Context::Off)]
    );
}

#[test]
fn hint_every_inserted_pair_has_its_on_before_its_off() {
    let mut s = Switch::new("lamp".to_string());
    let hints = [
        (50, Context::Off),
        (100, Context::On),
        (90, Context::Off),
        (100, Context::Off),
        (150, Context::Off),
        (300, Context::On),
        (250, Context::Off),
        (400, Context::Off),
    ];
    for (sec, ctx) in hints {
        s.hint(&at(sec), &ctx);
    }
    let events = s.get_future_events().to_vec();
    assert_eq!(
        events,
        vec![
            (at(100), Context::On),
            (at(150), Context::Off),
            (at(300), Context::On),
            (at(400), Context::Off)
        ]
    );
}

#[test]
fn hint_drops_an_off_without_an_on() {
    let mut s = Switch::new("lamp".to_string());
    s.hint(&at(200), &Context::Off);
    assert_eq!(s.get_future_events().len(), 0);
}

#[test]
fn hint_drops_an_off_before_or_at_the_on() {
    let mut s = Switch::new("lamp".to_string());
    s.hint(&at(200), &Context::On);
    s.hint(&at(100), &Context::Off);
    s.hint(&at(200), &Context::Off);
    assert_eq!(s.get_future_events().len(), 0);
}

#[test]
fn hint_an_on_at_the_epoch_counts_as_none() {
    let mut s = Switch::new("lamp".to_string());
    s.hint(&at(0), &Context::On);
    s.hint(&at(100), &Context::Off);
    assert_eq!(s.get_future_events().len(), 0);
}

#[test]
fn kick_of_a_pending_event_sets_the_state_and_clears_through() {
    let mut serial = SerialClient::new();
    let mut s = Switch::new("lamp".to_string());
    s.hint(&at(100), &Context::On);
    s.hint(&at(200), &Context::Off);
    s.hint(&at(300), &Context::On);
    s.hint(&at(400), &Context::Off);
    s.kick(&at(200), &Context::Off, &mut serial);
    assert_eq!(s.get_state(), Context::Off);
    assert_eq!(
        s.get_future_events().to_vec(),
        vec![(at(300), Context::On), (at(400), Context::Off)]
    );
    s.kick(&at(300), &Context::On, &mut serial);
    assert_eq!(s.get_state(), Context::On);
    assert_eq!(s.get_future_events().to_vec(), vec![(at(400), Context::Off)]);
    // the switch is cold: nothing was told
    assert_eq!(serial.take_commands(), vec![]);
}

#[test]
fn kick_of_an_event_that_is_not_pending_changes_nothing() {
    let mut serial = SerialClient::new();
    let mut s = Switch::new("lamp".to_string());
    s.hint(&at(100), &Context::On);
    s.hint(&at(200), &Context::Off);
    s.make_hot(&mut serial);
    serial.take_commands();
    s.kick(&at(150), &Context::On, &mut serial);
    assert_eq!(s.get_state(), Context::Off);
    assert_eq!(s.get_future_events().len(), 2);
    assert_eq!(serial.take_commands(), vec![]);
}

#[test]
fn kick_of_a_hot_switch_tells_the_gateway() {
    let mut serial = SerialClient::new();
    let mut s = Switch::new("lamp".to_string());
    s.hint(&at(100), &Context::On);
    s.hint(&at(200), &Context::Off);
    s.make_hot(&mut serial);
    assert_eq!(serial.take_commands(), vec![Command::SwitchOff("lamp".to_string())]);
    s.kick(&at(100), &Context::On, &mut serial);
    assert_eq!(serial.take_commands(), vec![Command::SwitchOn("lamp".to_string())]);
    s.kick(&at(200), &Context::Off, &mut serial);
    assert_eq!(serial.take_commands(), vec![Command::SwitchOff("lamp".to_string())]);
    assert_eq!(s.get_future_events().len(), 0);
}

#[test]
fn make_hot_tells_the_current_state_once() {
    let mut serial = SerialClient::new();
    let mut s = Switch::new("fan".to_string());
    s.set_switch_state(Context::On, &mut serial);
    assert_eq!(serial.take_commands(), vec![]);
    s.make_hot(&mut serial);
    assert!(s.is_hot());
    assert_eq!(serial.take_commands(), vec![Command::SwitchOn("fan".to_string())]);
    s.dispatch_context(&mut serial);
    assert_eq!(serial.take_commands(), vec![Command::SwitchOn("fan".to_string())]);
}

#[test]
fn set_switch_state_keeps_the_pending_events() {
    let mut serial = SerialClient::new();
    let mut s = Switch::new("lamp".to_string());
    s.hint(&at(100), &Context::On);
    s.hint(&at(200), &Context::Off);
    s.make_hot(&mut serial);
    serial.take_commands();
    s.set_switch_state(Context::On, &mut serial);
    assert_eq!(s.get_state(), Context::On);
    assert_eq!(s.get_future_events().len(), 2);
    assert_eq!(serial.take_commands(), vec![Command::SwitchOn("lamp".to_string())]);
}
