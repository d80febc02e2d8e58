use keeper::rng::Rng;
use keeper::timespec::{Timespec, DAY, HORIZON};

#[test]
fn start_of_day_snaps_to_midnight() {
    let t = Timespec::new(1_717_268_400, 5);
    assert_eq!(t.start_of_day(), Timespec::new(1_717_200_000, 0));
}

#[test]
fn start_of_day_keeps_midnight() {
    let t = Timespec::new(1_717_200_000, 0);
    assert_eq!(t.start_of_day(), t);
}

#[test]
fn start_of_day_before_the_epoch_goes_down() {
    assert_eq!(Timespec::new(-1, 0).start_of_day(), Timespec::new(-DAY, 0));
    assert_eq!(Timespec::new(-DAY, 0).start_of_day(), Timespec::new(-DAY, 0));
    assert_eq!(Timespec::new(-DAY - 1, 999).start_of_day(), Timespec::new(-2 * DAY, 0));
}

#[test]
fn start_of_day_at_the_horizon() {
    let t = Timespec::new(HORIZON, 0);
    let d = t.start_of_day();
    assert_eq!(d.sec % DAY, 0);
    assert!(d.sec <= t.sec && t.sec < d.sec + DAY);
    let t = Timespec::new(-HORIZON, 0);
    let d = t.start_of_day();
    assert_eq!(d.sec.rem_euclid(DAY), 0);
    assert!(d.sec <= t.sec && t.sec < d.sec + DAY);
}

#[test]
fn moments_are_ordered_by_seconds_then_nanoseconds() {
    let a = Timespec::new(10, 500);
    let b = Timespec::new(10, 501);
    let c = Timespec::new(11, 0);
    assert!(a.is_before(&b));
    assert!(b.is_before(&c));
    assert!(!b.is_before(&a));
    assert!(!a.is_before(&a));
    assert!(a.is_not_after(&a));
    assert!(a.is_not_after(&b));
    assert!(!c.is_not_after(&b));
}

#[test]
fn far_future_is_after_everything() {
    let end = Timespec::far_future();
    assert!(Timespec::new(i64::MAX, 0).is_not_after(&end));
    assert!(Timespec::new(0, 0).is_before(&end));
    assert_eq!(Timespec::epoch(), Timespec::new(0, 0));
}

#[test]
fn add_nanos_carries_into_seconds() {
    let t = Timespec::new(100, 999_999_999);
    assert_eq!(t.add_nanos(1), Timespec::new(101, 0));
    assert_eq!(t.add_nanos(0), t);
    assert_eq!(Timespec::new(100, 0).add_nanos(2_500_000_000), Timespec::new(102, 500_000_000));
    assert_eq!(Timespec::new(100, 1).add_nanos(u64::MAX), Timespec::new(100 + 18_446_744_073, 709_551_616));
}

#[test]
fn add_seconds_moves_both_ways() {
    let t = Timespec::new(100, 7);
    assert_eq!(t.add_seconds(DAY), Timespec::new(100 + 86_400, 7));
    assert_eq!(t.add_seconds(-DAY), Timespec::new(100 - 86_400, 7));
}

#[test]
fn range_and_normal_checks() {
    assert!(Timespec::new(HORIZON, 0).is_in_range());
    assert!(!Timespec::new(HORIZON + 1, 0).is_in_range());
    assert!(!Timespec::new(-HORIZON - 1, 0).is_in_range());
    assert!(Timespec::new(0, 999_999_999).is_normal());
    assert!(!Timespec::new(0, 1_000_000_000).is_normal());
    assert!(!Timespec::new(0, -1).is_normal());
}

#[test]
fn generator_repeats_from_its_seed() {
    let mut a = Rng::seeded(42);
    let mut b = Rng::seeded(42);
    let first: Vec<u32> = (0..5).map(|_| a.next()).collect();
    let again: Vec<u32> = (0..5).map(|_| b.next()).collect();
    assert_eq!(first, again);
}

#[test]
fn generator_draws_the_upper_half_of_the_next_state() {
    let mut rng = Rng::seeded(0);
    // from state 0 the next state is the increment
    assert_eq!(rng.next(), (1442695040888963407u64 >> 32) as u32);
    let second = 1442695040888963407u64
        .wrapping_mul(6364136223846793005)
        .wrapping_add(1442695040888963407);
    assert_eq!(rng.next(), (second >> 32) as u32);
}
