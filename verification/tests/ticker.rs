use keeper::ticker::{NtpFetcher, Ticker};
use keeper::timespec::Timespec;

const SECOND: u64 = 1_000_000_000;

#[test]
fn fetcher_asks_at_once_and_again_after_the_interval() {
    let mut ntp = NtpFetcher::new(86_400);
    assert!(ntp.consider_poll_ntp(5 * SECOND));
    assert!(!ntp.consider_poll_ntp(6 * SECOND));
    // no answer came: a minute later the server is asked again
    assert!(ntp.consider_poll_ntp(65 * SECOND));
    assert!(!ntp.poll_finished(None, 66 * SECOND));
    assert!(!ntp.consider_poll_ntp(67 * SECOND));
    assert!(ntp.consider_poll_ntp(125 * SECOND));
}

#[test]
fn fetcher_retries_every_minute_until_the_first_answer() {
    let mut ntp = NtpFetcher::new(86_400);
    assert!(ntp.consider_poll_ntp(1 * SECOND));
    ntp.poll_finished(None, 2 * SECOND);
    assert!(!ntp.consider_poll_ntp(60 * SECOND));
    assert!(!ntp.consider_poll_ntp(61 * SECOND - 1));
    assert!(ntp.consider_poll_ntp(61 * SECOND));
}

#[test]
fn fetcher_polls_by_its_interval_once_it_has_an_answer() {
    let mut ntp = NtpFetcher::new(3_600);
    assert!(ntp.consider_poll_ntp(1 * SECOND));
    assert!(ntp.poll_finished(Some(Timespec::new(1_700_000_000, 0)), 2 * SECOND));
    assert!(!ntp.consider_poll_ntp(62 * SECOND));
    assert!(!ntp.consider_poll_ntp(3_600 * SECOND));
    assert!(ntp.consider_poll_ntp(3_601 * SECOND));
    assert!(!ntp.poll_finished(Some(Timespec::new(1_700_003_600, 0)), 3_602 * SECOND));
}

#[test]
fn fetcher_knows_no_time_before_the_first_answer() {
    let ntp = NtpFetcher::new(3_600);
    assert_eq!(ntp.get_timespec(10 * SECOND), None);
}

#[test]
fn fetcher_carries_the_answer_forward_by_the_monotonic_clock() {
    let mut ntp = NtpFetcher::new(3_600);
    ntp.consider_poll_ntp(1 * SECOND);
    ntp.poll_finished(Some(Timespec::new(1_700_000_000, 250_000_000)), 2 * SECOND);
    assert_eq!(ntp.get_timespec(2 * SECOND), Some(Timespec::new(1_700_000_000, 250_000_000)));
    assert_eq!(
        ntp.get_timespec(12 * SECOND + 800_000_000),
        Some(Timespec::new(1_700_000_011, 50_000_000))
    );
}

#[test]
fn fetcher_time_does_not_run_backwards_between_answers() {
    let mut ntp = NtpFetcher::new(3_600);
    ntp.consider_poll_ntp(1 * SECOND);
    ntp.poll_finished(Some(Timespec::new(1_700_000_000, 999_999_999)), 2 * SECOND);
    let mut last = ntp.get_timespec(2 * SECOND).unwrap();
    for now in [2 * SECOND + 1, 3 * SECOND, 3 * SECOND, 100 * SECOND + 7] {
        let next = ntp.get_timespec(now).unwrap();
        assert!(last.is_not_after(&next));
        last = next;
    }
}

#[test]
fn ticker_hands_out_its_event_each_tick() {
    let mut ticker = Ticker::new("pool.ntp.org", 10_000, 86_400, 'T');
    assert_eq!(ticker.server(), "pool.ntp.org");
    assert_eq!(ticker.tick_interval(), 10_000);
    assert!(ticker.is_running());
    let tick = ticker.tick(1 * SECOND);
    assert!(tick.poll);
    assert_eq!(tick.emit, Some(('T', None)));
    assert!(ticker.poll_finished(Some(Timespec::new(1_717_268_400, 0)), 2 * SECOND));
    let tick = ticker.tick(11 * SECOND);
    assert!(!tick.poll);
    assert_eq!(tick.emit, Some(('T', Some(Timespec::new(1_717_268_409, 0)))));
}

#[test]
fn ticker_is_silent_once_stopped() {
    let mut ticker = Ticker::new("pool.ntp.org", 1_000, 60, 1u8);
    ticker.tick(1 * SECOND);
    ticker.poll_finished(Some(Timespec::new(1_717_268_400, 0)), 2 * SECOND);
    ticker.stop_ticker();
    assert!(!ticker.is_running());
    let tick = ticker.tick(1_000 * SECOND);
    assert_eq!(tick.emit, None);
    assert!(!tick.poll);
    ticker.stop_ticker();
    assert!(!ticker.is_running());
    assert_eq!(ticker.tick(2_000 * SECOND).emit, None);
}

#[test]
fn ticker_clock_floor_is_the_latest_reading() {
    let mut ticker = Ticker::new("pool.ntp.org", 1_000, 60, 0u8);
    assert_eq!(ticker.clock_floor(), 0);
    ticker.tick(5 * SECOND);
    assert_eq!(ticker.clock_floor(), 5 * SECOND);
    ticker.poll_finished(Some(Timespec::new(1_717_268_400, 0)), 9 * SECOND);
    assert_eq!(ticker.clock_floor(), 9 * SECOND);
    let mut ntp = NtpFetcher::new(60);
    ntp.consider_poll_ntp(3);
    assert_eq!(ntp.clock_floor(), 3);
}

#[test]
fn ticker_asks_at_its_start_without_a_tick() {
    let mut ticker = Ticker::new("pool.ntp.org", 10_000, 86_400, 'T');
    assert!(ticker.consider_poll_ntp(1 * SECOND));
    assert!(!ticker.consider_poll_ntp(2 * SECOND));
    let tick = ticker.tick(11 * SECOND);
    assert!(!tick.poll);
    assert_eq!(tick.emit, Some(('T', None)));
    // still no answer a minute after the question: asked again
    assert!(ticker.tick(61 * SECOND).poll);
}
