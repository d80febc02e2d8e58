//! The calendar of the supervisor: the daily events of every switch, and the
//! moments they were resolved to, in the order of the moments.

use vstd::prelude::*;
use crate::config::{DayInfo, Event};
use crate::rng::Rng;
use crate::serial::{CommandView, SerialClient};
use crate::switch::{Switch, SwitchView};
use crate::timespec::{Timespec, DAY};
use crate::tracker::Context;

verus! {

/// A daily event of one switch: each day it is resolved to a moment at which
/// the switch `handler` is asked for `context`.
#[derive(Debug, Clone, Copy, PartialEq, Eq)]
pub struct Registration {
    pub event: Event,
    pub handler: usize,
    pub context: Context,
}

/// A resolved event: at `at` the switch `handler` is asked for `context`.
#[derive(Debug, Clone, Copy, PartialEq, Eq)]
pub struct Entry {
    pub at: Timespec,
    pub handler: usize,
    pub context: Context,
}

/// The moments of `s` never fall from one entry to the next.
pub open spec fn in_order(s: Seq<Entry>) -> bool {
    forall|i: int, j: int| 0 <= i < j < s.len() ==> (#[trigger] s[i]).at.not_after((#[trigger] s[j]).at)
}

/// The index behind the last entry of `s` that is not after `t`: where an
/// entry at `t` is placed to come after all that are due no later.
pub open spec fn rank(s: Seq<Entry>, t: Timespec) -> int
    decreases s.len(),
{
    if s.len() == 0 {
        0
    } else if s.last().at.not_after(t) {
        s.len() as int
    } else {
        rank(s.drop_last(), t)
    }
}

/// `s` with `e` placed behind the entries that are not after it.
pub open spec fn place(s: Seq<Entry>, e: Entry) -> Seq<Entry> {
    s.insert(rank(s, e.at), e)
}

/// `s` with the entries of `batch` placed one after the other.
pub open spec fn placed(s: Seq<Entry>, batch: Seq<Entry>) -> Seq<Entry>
    decreases batch.len(),
{
    if batch.len() == 0 {
        s
    } else {
        place(placed(s, batch.drop_last()), batch.last())
    }
}

/// The entries of `batch` in the order of their moments; entries of one
/// moment keep their order.
pub open spec fn ordered(batch: Seq<Entry>) -> Seq<Entry> {
    placed(Seq::empty(), batch)
}

/// The entry that `r` resolves to on the day that starts at `day`.
pub open spec fn entry_of(r: Registration, day: Timespec, info: DayInfo, draw: u32) -> Entry {
    Entry { at: r.event.resolved(day, info, draw), handler: r.handler, context: r.context }
}

/// The entries that `specs` resolve to on the day that starts at `day`, one
/// for each, with one draw for each from the generator in state `state`.
pub open spec fn materialized(
    specs: Seq<Registration>,
    day: Timespec,
    info: DayInfo,
    state: u64,
) -> Seq<Entry> {
    Seq::new(
        specs.len(),
        |i: int| entry_of(specs[i], day, info, Rng::output(Rng::advanced(state, i as nat))),
    )
}

/// The switches as mathematical values.
pub open spec fn views(switches: Seq<Switch>) -> Seq<SwitchView> {
    switches.map_values(|s: Switch| s@)
}

/// Every entry of `batch` names one of `n` switches.
pub open spec fn entries_below(batch: Seq<Entry>, n: nat) -> bool {
    forall|i: int| 0 <= i < batch.len() ==> (#[trigger] batch[i]).handler < n
}

/// The switches after the entries of `batch` were announced in turn.
pub open spec fn hinted(switches: Seq<SwitchView>, batch: Seq<Entry>) -> Seq<SwitchView>
    decreases batch.len(),
{
    if batch.len() == 0 {
        switches
    } else {
        let before = hinted(switches, batch.drop_last());
        let e = batch.last();
        before.update(e.handler as int, before[e.handler as int].hint(e.at, e.context))
    }
}

/// The switches after the entries of `batch` came due in turn.
pub open spec fn kicked(switches: Seq<SwitchView>, batch: Seq<Entry>) -> Seq<SwitchView>
    decreases batch.len(),
{
    if batch.len() == 0 {
        switches
    } else {
        let before = kicked(switches, batch.drop_last());
        let e = batch.last();
        before.update(e.handler as int, before[e.handler as int].kick(e.at, e.context))
    }
}

/// What the gateway is told while the entries of `batch` come due in turn.
pub open spec fn kick_output(switches: Seq<SwitchView>, batch: Seq<Entry>) -> Seq<CommandView>
    decreases batch.len(),
{
    if batch.len() == 0 {
        Seq::empty()
    } else {
        let e = batch.last();
        kick_output(switches, batch.drop_last()) + kicked(
            switches,
            batch.drop_last(),
        )[e.handler as int].kick_commands(e.at, e.context)
    }
}

/// The calendar as a mathematical value.
pub struct ScheduleView {
    pub specs: Seq<Registration>,
    pub events: Seq<Entry>,
}

impl ScheduleView {
    /// Every daily event is valid and every handler is one of `n` switches.
    pub open spec fn fits(self, n: nat) -> bool {
        &&& forall|i: int|
            0 <= i < self.specs.len() ==> (#[trigger] self.specs[i]).event.valid()
                && self.specs[i].handler < n
        &&& entries_below(self.events, n)
    }
}

/// The daily events of all switches and their resolved moments.
pub struct Schedule {
    specs: Vec<Registration>,
    events: Vec<Entry>,
}

impl View for Schedule {
    type V = ScheduleView;

    closed spec fn view(&self) -> ScheduleView {
        ScheduleView { specs: self.specs@, events: self.events@ }
    }
}

impl Schedule {
    #[verifier::type_invariant]
    spec fn sorted(self) -> bool {
        in_order(self.events@)
    }

    pub fn new() -> (schedule: Schedule)
        ensures
            schedule@ == (ScheduleView { specs: Seq::empty(), events: Seq::empty() }),
    {
        Schedule { specs: Vec::new(), events: Vec::new() }
    }

    /// How many daily events are registered.
    pub fn registered(&self) -> (n: usize)
        ensures
            n == self@.specs.len(),
    {
        self.specs.len()
    }

    /// How many resolved events are waiting.
    pub fn pending(&self) -> (n: usize)
        ensures
            n == self@.events.len(),
            in_order(self@.events),
    {
        proof {
            use_type_invariant(self);
        }
        self.events.len()
    }

    /// The resolved events that are waiting, in the order of their moments.
    pub fn entries(&self) -> (list: Vec<Entry>)
        ensures
            list@ == self@.events,
            in_order(list@),
    {
        proof {
            use_type_invariant(self);
        }
        let mut list: Vec<Entry> = Vec::new();
        let mut i: usize = 0;
        while i < self.events.len()
            invariant
                i <= self.events@.len(),
                list@ == self.events@.take(i as int),
            decreases self.events@.len() - i,
        {
            list.push(self.events[i]);
            i += 1;
            assert(list@ =~= self.events@.take(i as int));
        }
        assert(list@ =~= self.events@);
        list
    }

    /// Resolves every registered event for the day that starts at `day`, and
    /// announces the resolved events to their switches in the order of their
    /// moments. The resolved events join the waiting ones.
    pub fn update_schedule(
        &mut self,
        day: &Timespec,
        info: &DayInfo,
        rng: &mut Rng,
        handlers: &mut Vec<Switch>,
    )
        requires
            old(self)@.fits(old(handlers)@.len()),
            day.within(2 * DAY),
            info.in_range(),
        ensures
            final(self)@.specs == old(self)@.specs,
            final(self)@.events == placed(
                old(self)@.events,
                ordered(materialized(old(self)@.specs, *day, *info, old(rng)@)),
            ),
            final(self)@.events.len() == old(self)@.events.len() + old(self)@.specs.len(),
            in_order(old(self)@.events),
            in_order(final(self)@.events),
            final(self)@.fits(old(handlers)@.len()),
            final(handlers)@.len() == old(handlers)@.len(),
            views(final(handlers)@) == hinted(
                views(old(handlers)@),
                ordered(materialized(old(self)@.specs, *day, *info, old(rng)@)),
            ),
            final(rng)@ == Rng::advanced(old(rng)@, old(self)@.specs.len()),
    {
        proof {
            use_type_invariant(&*self);
        }
        let ghost fresh = materialized(self@.specs, *day, *info, rng@);
        let ghost seed = rng@;
        let ghost count = handlers@.len();
        let n = self.specs.len();
        let mut batch: Vec<Entry> = Vec::new();
        let mut i: usize = 0;
        assert(fresh.take(0) =~= Seq::<Entry>::empty());
        while i < n
            invariant
                n == self.specs@.len(),
                self@.fits(count),
                day.within(2 * DAY),
                info.in_range(),
                fresh == materialized(self@.specs, *day, *info, seed),
                i <= n,
                rng@ == Rng::advanced(seed, i as nat),
                batch@ == ordered(fresh.take(i as int)),
                in_order(batch@),
                entries_below(fresh.take(i as int), count),
            decreases n - i,
        {
            let draw = rng.next();
            let r = self.specs[i];
            let e = Entry { at: r.event.resolve(day, info, draw), handler: r.handler, context: r.context };
            proof {
                assert(e == fresh[i as int]);
                assert(fresh.take(i + 1).drop_last() =~= fresh.take(i as int));
                assert(fresh.take(i + 1).last() == e);
                assert forall|k: int| 0 <= k < i + 1 implies (#[trigger] fresh.take(i + 1)[k]).handler
                    < count by {
                    if k < i {
                        assert(fresh.take(i as int)[k].handler < count);
                    }
                }
            }
            insert_in_order(&mut batch, e);
            i += 1;
        }
        assert(fresh.take(n as int) =~= fresh);
        let ghost sorted = ordered(fresh);
        let ghost start = self.events@;
        let ghost before = views(handlers@);
        proof {
            lemma_placed(Seq::empty(), fresh, count);
        }
        let mut events: Vec<Entry> = Vec::new();
        std::mem::swap(&mut self.events, &mut events);
        let mut j: usize = 0;
        assert(sorted.take(0) =~= Seq::<Entry>::empty());
        while j < batch.len()
            invariant
                batch@ == sorted,
                entries_below(sorted, count),
                entries_below(start, count),
                in_order(start),
                j <= batch@.len(),
                events@ == placed(start, sorted.take(j as int)),
                in_order(events@),
                handlers@.len() == count,
                views(handlers@) == hinted(before, sorted.take(j as int)),
            decreases batch@.len() - j,
        {
            let e = batch[j];
            proof {
                assert(sorted.take(j + 1).drop_last() =~= sorted.take(j as int));
                assert(sorted.take(j + 1).last() == e);
                assert(sorted[j as int].handler < count);
            }
            insert_in_order(&mut events, e);
            let ghost prior = handlers@;
            handlers[e.handler].hint(&e.at, &e.context);
            proof {
                assert(views(handlers@) =~= views(prior).update(
                    e.handler as int,
                    views(prior)[e.handler as int].hint(e.at, e.context),
                ));
            }
            j += 1;
        }
        proof {
            assert(sorted.take(batch@.len() as int) =~= sorted);
            lemma_placed(start, sorted, count);
        }
        self.events = events;
    }

    /// Fires every waiting event that is due at `now`, earliest first, and
    /// takes it off the calendar. Returns the moment of the earliest event
    /// that is still waiting, if there is one.
    pub fn kick_event(
        &mut self,
        now: &Timespec,
        handlers: &mut Vec<Switch>,
        serial: &mut SerialClient,
    ) -> (next: Option<Timespec>)
        requires
            old(self)@.fits(old(handlers)@.len()),
        ensures
            final(self)@.specs == old(self)@.specs,
            final(self)@.events == old(self)@.events.skip(rank(old(self)@.events, *now)),
            forall|i: int|
                0 <= i < rank(old(self)@.events, *now) ==> (#[trigger] old(self)@.events[i]).at.not_after(
                    *now,
                ),
            forall|i: int|
                0 <= i < final(self)@.events.len() ==> now.before((#[trigger] final(self)@.events[i]).at),
            in_order(old(self)@.events),
            in_order(final(self)@.events),
            final(self)@.fits(old(handlers)@.len()),
            final(handlers)@.len() == old(handlers)@.len(),
            views(final(handlers)@) == kicked(
                views(old(handlers)@),
                old(self)@.events.take(rank(old(self)@.events, *now)),
            ),
            final(serial)@ == old(serial)@ + kick_output(
                views(old(handlers)@),
                old(self)@.events.take(rank(old(self)@.events, *now)),
            ),
            next == (if final(self)@.events.len() > 0 {
                Some(final(self)@.events[0].at)
            } else {
                None
            }),
    {
        proof {
            use_type_invariant(&*self);
        }
        let ghost all = self.events@;
        let ghost before = views(handlers@);
        let ghost count = handlers@.len();
        let ghost sent = serial@;
        let mut i: usize = 0;
        assert(all.take(0) =~= Seq::<Entry>::empty());
        assert(sent + Seq::<CommandView>::empty() =~= sent);
        while i < self.events.len() && self.events[i].at.is_not_after(now)
            invariant
                self.events@ == all,
                entries_below(all, count),
                i <= all.len(),
                forall|k: int| 0 <= k < i ==> (#[trigger] all[k]).at.not_after(*now),
                handlers@.len() == count,
                views(handlers@) == kicked(before, all.take(i as int)),
                serial@ == sent + kick_output(before, all.take(i as int)),
            decreases all.len() - i,
        {
            let e = self.events[i];
            proof {
                assert(all.take(i + 1).drop_last() =~= all.take(i as int));
                assert(all.take(i + 1).last() == e);
                assert(all[i as int].handler < count);
            }
            let ghost prior = handlers@;
            let ghost told = serial@;
            handlers[e.handler].kick(&e.at, &e.context, serial);
            proof {
                assert(views(handlers@) =~= views(prior).update(
                    e.handler as int,
                    views(prior)[e.handler as int].kick(e.at, e.context),
                ));
                assert(serial@ =~= sent + kick_output(before, all.take(i + 1)));
            }
            i += 1;
        }
        proof {
            lemma_rank_parts(all, *now, i as int);
            lemma_rank(all, *now);
        }
        let mut rest: Vec<Entry> = Vec::new();
        let mut k: usize = i;
        while k < self.events.len()
            invariant
                self.events@ == all,
                i <= k <= all.len(),
                rest@ == all.subrange(i as int, k as int),
            decreases all.len() - k,
        {
            rest.push(self.events[k]);
            k += 1;
            assert(rest@ =~= all.subrange(i as int, k as int));
        }
        proof {
            assert(rest@ =~= all.skip(i as int));
            assert(in_order(rest@)) by {
                assert forall|a: int, b: int| 0 <= a < b < rest@.len() implies (
                #[trigger] rest@[a]).at.not_after((#[trigger] rest@[b]).at) by {
                    assert(all[a + i].at.not_after(all[b + i].at));
                }
            }
            assert forall|a: int| 0 <= a < rest@.len() implies (#[trigger] rest@[a]).handler
                < count && now.before(rest@[a].at) by {
                assert(all[a + i].handler < count);
            }
        }
        let next = if rest.len() > 0 {
            Some(rest[0].at)
        } else {
            None
        };
        self.events = rest;
        next
    }

    /// Registers a daily event. Registering the same event again makes it
    /// fire once more each day.
    pub fn add_event(&mut self, event: Event, handler: usize, context: Context)
        ensures
            final(self)@ == (ScheduleView {
                specs: old(self)@.specs.push(Registration { event, handler, context }),
                events: old(self)@.events,
            }),
    {
        proof {
            use_type_invariant(&*self);
        }
        let mut specs: Vec<Registration> = Vec::new();
        std::mem::swap(&mut self.specs, &mut specs);
        specs.push(Registration { event, handler, context });
        self.specs = specs;
    }
}

/// The rank of `t` is an index of `s` or its length; every entry from the rank
/// on lies after `t`, and the entry before the rank does not.
pub proof fn lemma_rank(s: Seq<Entry>, t: Timespec)
    ensures
        0 <= rank(s, t) <= s.len(),
        forall|i: int| rank(s, t) <= i < s.len() ==> t.before((#[trigger] s[i]).at),
        rank(s, t) > 0 ==> s[rank(s, t) - 1].at.not_after(t),
    decreases s.len(),
{
    if s.len() > 0 && !s.last().at.not_after(t) {
        let head = s.drop_last();
        lemma_rank(head, t);
        assert forall|i: int| rank(s, t) <= i < s.len() implies t.before((#[trigger] s[i]).at) by {
            if i < head.len() {
                assert(head[i] == s[i]);
            }
        }
        if rank(s, t) > 0 {
            assert(head[rank(s, t) - 1] == s[rank(s, t) - 1]);
        }
    }
}

/// In a sequence that is in order, the rank of `t` is the one index that
/// parts the entries that are not after `t` from those that are.
pub proof fn lemma_rank_parts(s: Seq<Entry>, t: Timespec, p: int)
    requires
        in_order(s),
        0 <= p <= s.len(),
        forall|i: int| 0 <= i < p ==> (#[trigger] s[i]).at.not_after(t),
        p < s.len() ==> t.before(s[p].at),
    ensures
        rank(s, t) == p,
    decreases s.len(),
{
    if s.len() > 0 {
        if s.last().at.not_after(t) {
            if p < s.len() {
                assert(s[p].at.not_after(s[s.len() - 1].at) || p == s.len() - 1);
            }
        } else {
            let head = s.drop_last();
            assert(in_order(head)) by {
                assert forall|i: int, j: int| 0 <= i < j < head.len() implies (
                #[trigger] head[i]).at.not_after((#[trigger] head[j]).at) by {
                    assert(s[i].at.not_after(s[j].at));
                }
            }
            if p == s.len() {
                assert(s[p - 1].at.not_after(t));
            }
            assert forall|i: int| 0 <= i < p implies (#[trigger] head[i]).at.not_after(t) by {
                assert(s[i].at.not_after(t));
            }
            lemma_rank_parts(head, t, p);
        }
    }
}

/// Placing an entry adds that entry and keeps the order.
pub proof fn lemma_place(s: Seq<Entry>, e: Entry)
    requires
        in_order(s),
    ensures
        in_order(place(s, e)),
        place(s, e).len() == s.len() + 1,
{
    let p = rank(s, e.at);
    lemma_rank(s, e.at);
    let r = place(s, e);
    assert forall|i: int, j: int| 0 <= i < j < r.len() implies (#[trigger] r[i]).at.not_after(
        (#[trigger] r[j]).at,
    ) by {
        if j < p {
            assert(s[i].at.not_after(s[j].at));
        } else if j == p {
            if i < p - 1 {
                assert(s[i].at.not_after(s[p - 1].at));
            }
        } else if i < p {
            assert(s[i].at.not_after(s[j - 1].at));
        } else if i == p {
            assert(e.at.before(s[j - 1].at));
        } else {
            assert(s[i - 1].at.not_after(s[j - 1].at));
        }
    }
}

/// Placing a batch adds as many entries as the batch has, keeps the order,
/// and adds no handler that the batch does not name.
pub proof fn lemma_placed(s: Seq<Entry>, batch: Seq<Entry>, n: nat)
    requires
        in_order(s),
        entries_below(s, n),
        entries_below(batch, n),
    ensures
        in_order(placed(s, batch)),
        placed(s, batch).len() == s.len() + batch.len(),
        entries_below(placed(s, batch), n),
    decreases batch.len(),
{
    if batch.len() > 0 {
        let head = batch.drop_last();
        let e = batch.last();
        assert(entries_below(head, n)) by {
            assert forall|i: int| 0 <= i < head.len() implies (#[trigger] head[i]).handler < n by {
                assert(batch[i].handler < n);
            }
        }
        lemma_placed(s, head, n);
        let mid = placed(s, head);
        lemma_place(mid, e);
        lemma_rank(mid, e.at);
        let p = rank(mid, e.at);
        let r = place(mid, e);
        assert(batch[batch.len() - 1].handler < n);
        assert forall|i: int| 0 <= i < r.len() implies (#[trigger] r[i]).handler < n by {
            if i < p {
                assert(mid[i].handler < n);
            } else if i > p {
                assert(mid[i - 1].handler < n);
            }
        }
    }
}

/// Announcing or firing entries neither adds nor removes a switch.
pub proof fn lemma_same_switches(switches: Seq<SwitchView>, batch: Seq<Entry>)
    requires
        entries_below(batch, switches.len()),
    ensures
        hinted(switches, batch).len() == switches.len(),
        kicked(switches, batch).len() == switches.len(),
    decreases batch.len(),
{
    if batch.len() > 0 {
        let head = batch.drop_last();
        assert(entries_below(head, switches.len())) by {
            assert forall|i: int| 0 <= i < head.len() implies (#[trigger] head[i]).handler
                < switches.len() by {
                assert(batch[i].handler < switches.len());
            }
        }
        assert(batch[batch.len() - 1].handler < switches.len());
        lemma_same_switches(switches, head);
    }
}

/// Places `e` in `list`, behind the entries that are not after it.
fn insert_in_order(list: &mut Vec<Entry>, e: Entry)
    requires
        in_order(old(list)@),
    ensures
        final(list)@ == place(old(list)@, e),
        in_order(final(list)@),
{
    let mut p: usize = list.len();
    assert(list@.take(p as int) =~= list@);
    while p > 0 && !list[p - 1].at.is_not_after(&e.at)
        invariant
            list@ == old(list)@,
            p <= list@.len(),
            rank(list@, e.at) == rank(list@.take(p as int), e.at),
        decreases p,
    {
        assert(list@.take(p as int).drop_last() =~= list@.take(p - 1));
        p -= 1;
    }
    proof {
        lemma_place(list@, e);
        if p > 0 {
            assert(list@.take(p as int).last() == list@[p - 1]);
        }
    }
    list.insert(p, e);
}

} // verus!
