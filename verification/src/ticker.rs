//! The clock of the supervisor: wall-clock time as a time server told it,
//! carried forward by the local monotonic clock.
//!
//! The ticker asks the time server at its start, and then once a minute
//! until the server answers; after that once in each poll interval. Each
//! tick hands out the event of the ticker and the moment, if a moment is
//! known.

use vstd::prelude::*;
use crate::timespec::{lemma_order_by_nanos, Timespec, BILLION};

verus! {

/// Seconds between two questions while the time server has never answered.
pub const RETRY_SECONDS: u64 = 60;

/// What the fetcher knows, as a mathematical value.
pub struct NtpView {
    /// The moment the time server told last, and the monotonic clock at that
    /// moment, in nanoseconds; zero while the server never answered.
    pub last_sync: (Timespec, u64),
    /// Seconds between two questions once the server has answered.
    pub poll: u64,
    /// The monotonic clock when the server was last asked; zero if never.
    pub last_poll: u64,
}

impl NtpView {
    /// The time server has answered at least once.
    pub open spec fn synced(self) -> bool {
        self.last_sync.1 != 0
    }

    /// Seconds to wait between two questions.
    pub open spec fn interval(self) -> u64 {
        if self.synced() {
            self.poll
        } else {
            RETRY_SECONDS
        }
    }

    /// At `now` on the monotonic clock the time server is to be asked: it
    /// was never asked, or the interval has passed since it was last asked.
    pub open spec fn must_poll(self, now: u64) -> bool {
        self.last_poll == 0 || (now - self.last_poll) / (BILLION as int) >= self.interval()
    }

    /// The fetcher after it was considered at `now` whether to ask.
    pub open spec fn considered(self, now: u64) -> NtpView {
        if self.must_poll(now) {
            NtpView { last_poll: now, ..self }
        } else {
            self
        }
    }

    /// The fetcher after a question came back at `now`, with the moment the
    /// server told or with nothing.
    pub open spec fn answered(self, answer: Option<Timespec>, now: u64) -> NtpView {
        match answer {
            Some(ts) => NtpView { last_sync: (ts, now), ..self },
            None => self,
        }
    }

    /// The wall-clock moment at `now` on the monotonic clock, in nanoseconds
    /// from the epoch, if the server has answered.
    pub open spec fn time_at(self, now: u64) -> Option<int> {
        if self.synced() {
            Some(self.last_sync.0.nanos() + (now - self.last_sync.1))
        } else {
            None
        }
    }

    /// The last answer of the server is a moment with normal nanoseconds
    /// within the horizon.
    pub open spec fn wf(self) -> bool {
        self.synced() ==> self.last_sync.0.in_range() && self.last_sync.0.normal()
    }
}

/// Keeps the last answer of the time server and decides when to ask again.
pub struct NtpFetcher {
    last_sync: (Timespec, u64),
    poll: u64,
    last_poll: u64,
}

impl View for NtpFetcher {
    type V = NtpView;

    closed spec fn view(&self) -> NtpView {
        NtpView {
            last_sync: self.last_sync,
            poll: self.poll,
            last_poll: self.last_poll,
        }
    }
}

impl NtpFetcher {
    /// A fetcher that never asked, for a server that is to be asked every
    /// `poll` seconds.
    pub fn new(poll: u64) -> (ntp: NtpFetcher)
        ensures
            ntp@ == (NtpView { last_sync: (Timespec::zero(), 0), poll, last_poll: 0 }),
            ntp@.wf(),
    {
        NtpFetcher { last_sync: (Timespec::epoch(), 0), poll, last_poll: 0 }
    }

    /// The latest reading of the monotonic clock that the fetcher has seen:
    /// no later call may come with an earlier one.
    pub fn clock_floor(&self) -> (floor: u64)
        ensures
            floor == (if self@.last_poll >= self@.last_sync.1 {
                self@.last_poll
            } else {
                self@.last_sync.1
            }),
    {
        if self.last_poll >= self.last_sync.1 {
            self.last_poll
        } else {
            self.last_sync.1
        }
    }

    /// Decides at `now` on the monotonic clock whether the time server is
    /// to be asked. If so, the server counts as asked at `now`.
    pub fn consider_poll_ntp(&mut self, now: u64) -> (ask: bool)
        requires
            old(self)@.last_poll <= now,
        ensures
            ask == old(self)@.must_poll(now),
            final(self)@ == old(self)@.considered(now),
    {
        let interval: u64 = if self.last_sync.1 == 0 {
            RETRY_SECONDS
        } else {
            self.poll
        };
        let ask = self.last_poll == 0 || (now - self.last_poll) / BILLION >= interval;
        if ask {
            self.last_poll = now;
        }
        ask
    }

    /// Takes in what came back for a question: at `now` on the monotonic
    /// clock the server told `answer`, or nothing. Returns whether this is
    /// the first answer ever, which whoever waits for time wants to be told.
    pub fn poll_finished(&mut self, answer: Option<Timespec>, now: u64) -> (first: bool)
        ensures
            final(self)@ == old(self)@.answered(answer, now),
            first == (answer is Some && !old(self)@.synced()),
    {
        match answer {
            Some(ts) => {
                let first = self.last_sync.1 == 0;
                self.last_sync = (ts, now);
                first
            },
            None => false,
        }
    }

    /// The wall-clock moment at `now` on the monotonic clock: what the
    /// server told last, moved on by the time that has passed since. Nothing
    /// while the server has never answered.
    pub fn get_timespec(&self, now: u64) -> (ts: Option<Timespec>)
        requires
            self@.wf(),
            self@.last_sync.1 <= now,
        ensures
            match self@.time_at(now) {
                Some(nanos) => ts matches Some(t) && t.normal() && t.nanos() == nanos,
                None => ts is None,
            },
    {
        if self.last_sync.1 == 0 {
            None
        } else {
            Some(self.last_sync.0.add_nanos(now - self.last_sync.1))
        }
    }
}

/// What the owner of the ticker has to do at a tick.
#[derive(Debug)]
pub struct Tick<C> {
    /// What to send to the receiver: the event, and the moment if known.
    /// Nothing once the ticker is stopped.
    pub emit: Option<(C, Option<Timespec>)>,
    /// Ask the time server now.
    pub poll: bool,
}

/// The ticker as a mathematical value.
pub struct TickerView<C> {
    pub ntp: NtpView,
    pub event: C,
    pub running: bool,
}

/// Hands out its event with the moment, once per tick, until it is stopped.
pub struct Ticker<C> {
    ntp: NtpFetcher,
    event: C,
    running: bool,
    server: String,
    tick_millis: u32,
}

impl<C> View for Ticker<C> {
    type V = TickerView<C>;

    closed spec fn view(&self) -> TickerView<C> {
        TickerView { ntp: self.ntp@, event: self.event, running: self.running }
    }
}

impl<C: Copy> Ticker<C> {
    /// A running ticker that hands out `event` every `tick_millis`
    /// milliseconds and asks `server` every `ntp_poll` seconds.
    pub fn new(server: &str, tick_millis: u32, ntp_poll: u64, event: C) -> (ticker: Ticker<C>)
        ensures
            ticker@ == (TickerView {
                ntp: NtpView { last_sync: (Timespec::zero(), 0), poll: ntp_poll, last_poll: 0 },
                event,
                running: true,
            }),
            ticker@.ntp.wf(),
            ticker.server_name() == server@,
            ticker.interval_millis() == tick_millis,
    {
        Ticker {
            ntp: NtpFetcher::new(ntp_poll),
            event,
            running: true,
            server: server.to_owned(),
            tick_millis,
        }
    }

    pub closed spec fn server_name(&self) -> Seq<char> {
        self.server@
    }

    pub closed spec fn interval_millis(&self) -> u32 {
        self.tick_millis
    }

    /// The time server to ask.
    pub fn server(&self) -> (name: &String)
        ensures
            name@ == self.server_name(),
    {
        &self.server
    }

    /// How long to sleep between two ticks, in milliseconds.
    pub fn tick_interval(&self) -> (millis: u32)
        ensures
            millis == self.interval_millis(),
    {
        self.tick_millis
    }

    pub fn is_running(&self) -> (running: bool)
        ensures
            running == self@.running,
    {
        self.running
    }

    /// The latest reading of the monotonic clock that the ticker has seen:
    /// no tick may come with an earlier one.
    pub fn clock_floor(&self) -> (floor: u64)
        ensures
            floor >= self@.ntp.last_poll,
            floor >= self@.ntp.last_sync.1,
            floor == self@.ntp.last_poll || floor == self@.ntp.last_sync.1,
    {
        self.ntp.clock_floor()
    }

    /// Decides at `now` on the monotonic clock whether the time server is
    /// to be asked, without a tick: for the start of the ticker.
    pub fn consider_poll_ntp(&mut self, now: u64) -> (ask: bool)
        requires
            old(self)@.ntp.last_poll <= now,
        ensures
            ask == old(self)@.ntp.must_poll(now),
            final(self)@ == (TickerView { ntp: old(self)@.ntp.considered(now), ..old(self)@ }),
            final(self).server_name() == old(self).server_name(),
            final(self).interval_millis() == old(self).interval_millis(),
    {
        self.ntp.consider_poll_ntp(now)
    }

    /// One tick at `now` on the monotonic clock. A stopped ticker hands out
    /// nothing and asks nothing. A running ticker decides whether to ask the
    /// time server, and hands out its event with the moment, if one is known.
    pub fn tick(&mut self, now: u64) -> (tick: Tick<C>)
        requires
            old(self)@.ntp.wf(),
            old(self)@.ntp.last_poll <= now,
            old(self)@.ntp.last_sync.1 <= now,
        ensures
            final(self).server_name() == old(self).server_name(),
            final(self).interval_millis() == old(self).interval_millis(),
            !old(self)@.running ==> final(self)@ == old(self)@ && tick.emit is None && !tick.poll,
            old(self)@.running ==> {
                &&& final(self)@ == (TickerView {
                    ntp: old(self)@.ntp.considered(now),
                    ..old(self)@
                })
                &&& tick.poll == old(self)@.ntp.must_poll(now)
                &&& tick.emit matches Some((event, moment))
                &&& event == old(self)@.event
                &&& match old(self)@.ntp.time_at(now) {
                    Some(nanos) => moment matches Some(t) && t.normal() && t.nanos() == nanos,
                    None => moment is None,
                }
            },
    {
        if !self.running {
            return Tick { emit: None, poll: false };
        }
        let poll = self.ntp.consider_poll_ntp(now);
        let moment = self.ntp.get_timespec(now);
        Tick { emit: Some((self.event, moment)), poll }
    }

    /// Takes in what the time server told, or that it told nothing.
    /// Returns whether this is its first answer ever.
    pub fn poll_finished(&mut self, answer: Option<Timespec>, now: u64) -> (first: bool)
        requires
            old(self)@.ntp.wf(),
            answer matches Some(ts) ==> ts.in_range() && ts.normal(),
        ensures
            final(self)@ == (TickerView {
                ntp: old(self)@.ntp.answered(answer, now),
                ..old(self)@
            }),
            final(self)@.ntp.wf(),
            first == (answer is Some && !old(self)@.ntp.synced()),
            final(self).server_name() == old(self).server_name(),
            final(self).interval_millis() == old(self).interval_millis(),
    {
        self.ntp.poll_finished(answer, now)
    }

    /// Stops the ticker. Stopping a stopped ticker changes nothing.
    pub fn stop_ticker(&mut self)
        ensures
            final(self)@ == (TickerView { running: false, ..old(self)@ }),
            final(self).server_name() == old(self).server_name(),
            final(self).interval_millis() == old(self).interval_millis(),
    {
        self.running = false;
    }
}

/// Between two answers of the time server, time does not run backwards: of
/// two ticks, the later one on the monotonic clock is handed the later moment,
/// or the same.
pub proof fn lemma_time_advances(ntp: NtpView, earlier: u64, later: u64, a: Timespec, b: Timespec)
    requires
        ntp.synced(),
        earlier <= later,
        a.normal(),
        b.normal(),
        ntp.time_at(earlier) == Some(a.nanos()),
        ntp.time_at(later) == Some(b.nanos()),
    ensures
        a.not_after(b),
{
    lemma_order_by_nanos(a, b);
}

} // verus!
