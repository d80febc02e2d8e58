//! The supervisor: it owns the schedule, the switches and the queue of
//! gateway commands, and answers ticks and queries.
//!
//! The switches stand in a table in the order of their names, no name twice.
//! At the start the gateway is asked to connect and to register each circle;
//! a circle that is on or off by default has its relay asked for that state
//! there and then, and has no daily events.
//!
//! The supervisor keeps its calendar filled up to a window reference `W`, the
//! start of a UTC day. The first tick snaps `W` to the day of the tick and
//! fills two days; each later tick fills one more day when less than a day is
//! left. Until the first tick is through, the switches follow their events
//! silently, so that the events of today that are already past end in one
//! command for each switch.

use vstd::prelude::*;
use crate::config::{distinct, Circle, CircleSetting, Config, DayInfo, Device, Toggle};
use crate::event_map::EventMap;
use crate::order::{
    is_text_before, lemma_text_irreflexive, lemma_text_total, lemma_text_transitive, text_before,
};
use crate::rng::Rng;
use crate::schedule::{
    entries_below, hinted, in_order, kick_output, kicked, lemma_placed, lemma_rank,
    lemma_same_switches, materialized, ordered, placed, rank, views, Entry, Registration, Schedule,
    ScheduleView,
};
use crate::serial::{Command, CommandView, SerialClient};
use crate::switch::{Switch, SwitchView};
use crate::timespec::{Timespec, DAY, HORIZON};

verus! {

/// What a relay is asked to be.
#[derive(Eq, PartialEq, Debug, Copy, Clone, Structural)]
pub enum Context {
    Off,
    On,
}

/// What the supervisor is asked.
#[derive(Debug, PartialEq, Eq)]
pub enum Message {
    /// Time has passed; the moment, if it is known.
    Tick(Option<Timespec>),
    /// Stop.
    Teardown,
    /// Which switches are there?
    List,
    /// What is the switch of this name doing, and what is it going to do?
    Get(String),
    /// Set the switch of this name to this state.
    Switch(String, Context),
}

/// What the supervisor answers.
#[derive(Debug)]
pub enum Reply {
    /// Nothing to say.
    Nothing,
    /// The supervisor has stopped.
    Stopped,
    /// The names of the switches.
    List(Vec<String>),
    /// The state and the pending events of a switch, if there is such a switch.
    Status(Option<(Context, EventMap)>),
    /// The state that the switch is in now.
    State(Context),
}

/// No switch tells the gateway yet.
pub open spec fn all_cold(switches: Seq<SwitchView>) -> bool {
    forall|i: int| 0 <= i < switches.len() ==> !(#[trigger] switches[i]).hot
}

/// The switches, each of them hot.
pub open spec fn heated(switches: Seq<SwitchView>) -> Seq<SwitchView> {
    switches.map_values(|s: SwitchView| s.make_hot())
}

/// For each switch the command that sets its relay to its state.
pub open spec fn commands_of(switches: Seq<SwitchView>) -> Seq<CommandView> {
    switches.map_values(|s: SwitchView| s.command())
}

/// The index of the first switch named `alias`.
pub open spec fn lookup(switches: Seq<SwitchView>, alias: Seq<char>) -> Option<int>
    decreases switches.len(),
{
    if switches.len() == 0 {
        None
    } else {
        match lookup(switches.drop_last(), alias) {
            Some(i) => Some(i),
            None => if switches.last().alias == alias {
                Some(switches.len() - 1)
            } else {
                None
            },
        }
    }
}

/// The state a switch starts in.
pub open spec fn initial_state(default: CircleSetting) -> Context {
    match default {
        CircleSetting::On => Context::On,
        _ => Context::Off,
    }
}

/// The switch of a circle before the first tick.
pub open spec fn boot_switch(c: Circle) -> SwitchView {
    SwitchView::fresh(c.alias@).set_state(initial_state(c.default))
}

/// The names of the switches rise strictly from one switch to the next.
pub open spec fn ascending(switches: Seq<SwitchView>) -> bool {
    forall|i: int, j: int|
        0 <= i < j < switches.len() ==> text_before(
            (#[trigger] switches[i]).alias,
            (#[trigger] switches[j]).alias,
        )
}

/// One of the switches is named `alias`.
pub open spec fn has_alias(switches: Seq<SwitchView>, alias: Seq<char>) -> bool {
    exists|j: int| 0 <= j < switches.len() && (#[trigger] switches[j]).alias == alias
}

/// One of the circles is named `alias`.
pub open spec fn names(circles: Seq<Circle>, alias: Seq<char>) -> bool {
    exists|i: int| 0 <= i < circles.len() && (#[trigger] circles[i]).alias@ == alias
}

/// The index behind the last switch whose name comes before `alias`: the
/// place of a switch of that name in the table.
pub open spec fn slot(switches: Seq<SwitchView>, alias: Seq<char>) -> int
    decreases switches.len(),
{
    if switches.len() == 0 {
        0
    } else if text_before(switches.last().alias, alias) {
        switches.len() as int
    } else {
        slot(switches.drop_last(), alias)
    }
}

/// The table with the switch `s` at the place of its name.
pub open spec fn seated(switches: Seq<SwitchView>, s: SwitchView) -> Seq<SwitchView> {
    switches.insert(slot(switches, s.alias), s)
}

/// The table of the switches of the circles before the first tick, in the
/// order of their names.
pub open spec fn boot_switches(circles: Seq<Circle>) -> Seq<SwitchView>
    decreases circles.len(),
{
    if circles.len() == 0 {
        Seq::empty()
    } else {
        seated(boot_switches(circles.drop_last()), boot_switch(circles.last()))
    }
}

/// The place in `table` of the switch named `alias`.
pub open spec fn handler_of(table: Seq<SwitchView>, alias: Seq<char>) -> usize {
    match lookup(table, alias) {
        Some(i) => i as usize,
        None => 0,
    }
}

/// The daily events of the toggles of the switch `handler`: for each toggle
/// its start, which asks for `On`, then its end, which asks for `Off`.
pub open spec fn toggle_specs(toggles: Seq<Toggle>, handler: usize) -> Seq<Registration>
    decreases toggles.len(),
{
    if toggles.len() == 0 {
        Seq::empty()
    } else {
        toggle_specs(toggles.drop_last(), handler).push(
            Registration { event: toggles.last().start, handler, context: Context::On },
        ).push(Registration { event: toggles.last().end, handler, context: Context::Off })
    }
}

/// The daily events of a circle: those of its toggles, if it goes by them.
pub open spec fn circle_specs(c: Circle, handler: usize) -> Seq<Registration> {
    if c.default == CircleSetting::Schedule {
        toggle_specs(c.toggles@, handler)
    } else {
        Seq::empty()
    }
}

/// The daily events of all circles, in the order of the circles; the
/// handler of a circle is the place of its switch in `table`.
pub open spec fn boot_specs(circles: Seq<Circle>, table: Seq<SwitchView>) -> Seq<Registration>
    decreases circles.len(),
{
    if circles.len() == 0 {
        Seq::empty()
    } else {
        boot_specs(circles.drop_last(), table) + circle_specs(
            circles.last(),
            handler_of(table, circles.last().alias@),
        )
    }
}

/// The command that opens the gateway.
pub open spec fn connect_command(device: Device) -> CommandView {
    match device.serial_device {
        None => CommandView::ConnectStub,
        Some(d) => CommandView::ConnectDevice(d@),
    }
}

/// What the gateway is told of one circle at the start: it is registered,
/// and if it is on or off by default, its relay is asked for that state.
pub open spec fn circle_commands(c: Circle) -> Seq<CommandView> {
    match c.default {
        CircleSetting::On => seq![
            CommandView::RegisterCircle(c.alias@, c.mac),
            CommandView::SwitchOn(c.alias@),
        ],
        CircleSetting::Off => seq![
            CommandView::RegisterCircle(c.alias@, c.mac),
            CommandView::SwitchOff(c.alias@),
        ],
        CircleSetting::Schedule => seq![CommandView::RegisterCircle(c.alias@, c.mac)],
    }
}

/// What the gateway is told of the circles at the start, circle by circle.
pub open spec fn register_commands(circles: Seq<Circle>) -> Seq<CommandView>
    decreases circles.len(),
{
    if circles.len() == 0 {
        Seq::empty()
    } else {
        register_commands(circles.drop_last()) + circle_commands(circles.last())
    }
}

/// What the gateway is told when a configuration is loaded.
pub open spec fn boot_commands(config: Config) -> Seq<CommandView> {
    seq![connect_command(config.device)] + register_commands(config.circles@)
}

/// The supervisor as a mathematical value.
pub struct TrackerView {
    /// The commands issued and not yet taken over.
    pub serial: Seq<CommandView>,
    pub schedule: ScheduleView,
    /// The window reference: the calendar is filled up to this moment.
    pub schedule_ref: Timespec,
    /// No tick has been processed yet.
    pub initial: bool,
    /// The supervisor has not been torn down.
    pub running: bool,
    pub switches: Seq<SwitchView>,
    /// The state of the generator of jitter.
    pub rng: u64,
}

impl TrackerView {
    /// The supervisor is sound and its window is within the horizon.
    pub open spec fn wf(self) -> bool {
        &&& self.sound()
        &&& -HORIZON - DAY <= self.schedule_ref.sec <= HORIZON + 2 * DAY
    }

    /// The calendar is in order and names only switches that exist; the
    /// switches stand in the order of their names, no name twice; before the
    /// first tick no switch is hot.
    pub open spec fn sound(self) -> bool {
        &&& self.schedule.fits(self.switches.len())
        &&& in_order(self.schedule.events)
        &&& ascending(self.switches)
        &&& self.initial ==> all_cold(self.switches)
    }

    /// The day at the window reference can be filled in.
    pub open spec fn can_update(self) -> bool {
        -HORIZON - DAY <= self.schedule_ref.sec <= HORIZON + DAY
    }

    /// The events of the day at the window reference.
    pub open spec fn batch(self, info: DayInfo) -> Seq<Entry> {
        ordered(materialized(self.schedule.specs, self.schedule_ref, info, self.rng))
    }

    /// The supervisor after the day at the window reference was filled in:
    /// its events are on the calendar and announced, and the window reference
    /// is a day later.
    pub open spec fn update(self, info: DayInfo) -> TrackerView {
        TrackerView {
            schedule: ScheduleView {
                specs: self.schedule.specs,
                events: placed(self.schedule.events, self.batch(info)),
            },
            switches: hinted(self.switches, self.batch(info)),
            rng: Rng::advanced(self.rng, self.schedule.specs.len()),
            schedule_ref: self.schedule_ref.shifted(DAY as int),
            ..self
        }
    }

    /// At `t` a day or less is left to the window reference.
    pub open spec fn short(self, t: Timespec) -> bool {
        self.schedule_ref.shifted(-DAY).not_after(t)
    }

    /// How many days a tick at `t` fills in.
    pub open spec fn days_due(self, t: Timespec) -> nat {
        if !self.running {
            0
        } else if self.initial {
            2
        } else if self.short(t) {
            1
        } else {
            0
        }
    }

    /// The supervisor after a tick at `t` filled in the days that are due.
    pub open spec fn filled(self, t: Timespec, days: Seq<DayInfo>) -> TrackerView {
        if self.initial {
            (TrackerView { schedule_ref: t.day_start(), ..self }).update(days[0]).update(days[1])
        } else if self.short(t) {
            self.update(days[0])
        } else {
            self
        }
    }

    /// The events that fire at a tick at `t`: those on the calendar that are
    /// not after `t`.
    pub open spec fn fired(self, t: Timespec) -> Seq<Entry> {
        self.schedule.events.take(rank(self.schedule.events, t))
    }

    /// The supervisor after the events that are due at `t` fired.
    pub open spec fn kick(self, t: Timespec) -> TrackerView {
        TrackerView {
            schedule: ScheduleView {
                specs: self.schedule.specs,
                events: self.schedule.events.skip(rank(self.schedule.events, t)),
            },
            switches: kicked(self.switches, self.fired(t)),
            serial: self.serial + kick_output(self.switches, self.fired(t)),
            ..self
        }
    }

    /// The supervisor once every switch is hot and has told its state.
    pub open spec fn heat(self) -> TrackerView {
        TrackerView {
            initial: false,
            switches: heated(self.switches),
            serial: self.serial + commands_of(self.switches),
            ..self
        }
    }

    /// The supervisor after a tick at `t`, with `days` for the days due.
    pub open spec fn tick(self, t: Timespec, days: Seq<DayInfo>) -> TrackerView {
        if !self.running {
            self
        } else if self.initial {
            self.filled(t, days).kick(t).heat()
        } else {
            self.filled(t, days).kick(t)
        }
    }

    /// The supervisor after the switch named `alias` was set to `state`.
    /// A stopped supervisor stays as it is.
    pub open spec fn switch(self, alias: Seq<char>, state: Context) -> TrackerView {
        match lookup(self.switches, alias) {
            Some(i) => if self.running {
                TrackerView {
                    switches: self.switches.update(i, self.switches[i].set_state(state)),
                    serial: self.serial + self.switches[i].set_state(state).dispatch(),
                    ..self
                }
            } else {
                self
            },
            None => self,
        }
    }

    /// What is answered when the switch named `alias` is set to `state`: the
    /// state the switch is in then, and `Off` if there is no such switch.
    pub open spec fn switch_reply(self, alias: Seq<char>, state: Context) -> Context {
        match lookup(self.switches, alias) {
            Some(i) => self.switch(alias, state).switches[i].state,
            None => Context::Off,
        }
    }

    /// The state and the pending events of the switch named `alias`.
    pub open spec fn status(self, alias: Seq<char>) -> Option<(Context, Map<Timespec, Context>)> {
        match lookup(self.switches, alias) {
            Some(i) => Some((self.switches[i].state, self.switches[i].events)),
            None => None,
        }
    }

    /// The supervisor after it was told to stop.
    pub open spec fn teardown(self) -> TrackerView {
        if self.running {
            TrackerView { running: false, serial: self.serial.push(CommandView::Hangup), ..self }
        } else {
            self
        }
    }
}

/// The owner of the schedule, the switches and the queue of gateway commands.
pub struct TrackerInner {
    serial: SerialClient,
    schedule: Schedule,
    schedule_ref: Timespec,
    initial: bool,
    running: bool,
    switches: Vec<Switch>,
    rng: Rng,
}

impl View for TrackerInner {
    type V = TrackerView;

    closed spec fn view(&self) -> TrackerView {
        TrackerView {
            serial: self.serial@,
            schedule: self.schedule@,
            schedule_ref: self.schedule_ref,
            initial: self.initial,
            running: self.running,
            switches: views(self.switches@),
            rng: self.rng@,
        }
    }
}

/// Announcing or firing entries changes neither the name of a switch nor
/// whether it is hot.
pub proof fn lemma_identity_kept(switches: Seq<SwitchView>, batch: Seq<Entry>)
    requires
        entries_below(batch, switches.len()),
    ensures
        hinted(switches, batch).len() == switches.len(),
        kicked(switches, batch).len() == switches.len(),
        forall|i: int|
            0 <= i < switches.len() ==> (#[trigger] hinted(switches, batch)[i]).hot
                == switches[i].hot && hinted(switches, batch)[i].alias == switches[i].alias,
        forall|i: int|
            0 <= i < switches.len() ==> (#[trigger] kicked(switches, batch)[i]).hot
                == switches[i].hot && kicked(switches, batch)[i].alias == switches[i].alias,
    decreases batch.len(),
{
    lemma_same_switches(switches, batch);
    if batch.len() > 0 {
        let head = batch.drop_last();
        assert(entries_below(head, switches.len())) by {
            assert forall|i: int| 0 <= i < head.len() implies (#[trigger] head[i]).handler
                < switches.len() by {
                assert(batch[i].handler < switches.len());
            }
        }
        assert(batch[batch.len() - 1].handler < switches.len());
        lemma_same_switches(switches, head);
        lemma_identity_kept(switches, head);
    }
}

/// While no switch is hot, firing entries tells the gateway nothing.
pub proof fn lemma_cold_is_silent(switches: Seq<SwitchView>, batch: Seq<Entry>)
    requires
        all_cold(switches),
        entries_below(batch, switches.len()),
    ensures
        kick_output(switches, batch) == Seq::<CommandView>::empty(),
        all_cold(kicked(switches, batch)),
        all_cold(hinted(switches, batch)),
    decreases batch.len(),
{
    lemma_identity_kept(switches, batch);
    if batch.len() > 0 {
        let head = batch.drop_last();
        assert(entries_below(head, switches.len())) by {
            assert forall|i: int| 0 <= i < head.len() implies (#[trigger] head[i]).handler
                < switches.len() by {
                assert(batch[i].handler < switches.len());
            }
        }
        assert(batch[batch.len() - 1].handler < switches.len());
        lemma_cold_is_silent(switches, head);
        lemma_identity_kept(switches, head);
        assert(kick_output(switches, batch) =~= Seq::<CommandView>::empty());
    }
}

/// A name that is found among the first switches is found at the same place
/// among all of them.
pub proof fn lemma_lookup_prefix(switches: Seq<SwitchView>, alias: Seq<char>, k: int)
    requires
        0 <= k <= switches.len(),
        lookup(switches.take(k), alias) is Some,
    ensures
        lookup(switches, alias) == lookup(switches.take(k), alias),
    decreases switches.len() - k,
{
    if k < switches.len() {
        assert(switches.take(k + 1).drop_last() =~= switches.take(k));
        lemma_lookup_prefix(switches, alias, k + 1);
    } else {
        assert(switches.take(k) =~= switches);
    }
}

/// A name is found, if at all, at a switch of that name, and at no later one.
pub proof fn lemma_lookup(switches: Seq<SwitchView>, alias: Seq<char>)
    ensures
        lookup(switches, alias) matches Some(i) ==> 0 <= i < switches.len() && switches[i].alias
            == alias && forall|j: int| 0 <= j < i ==> (#[trigger] switches[j]).alias != alias,
        lookup(switches, alias) is None ==> forall|j: int|
            0 <= j < switches.len() ==> (#[trigger] switches[j]).alias != alias,
    decreases switches.len(),
{
    if switches.len() > 0 {
        let head = switches.drop_last();
        lemma_lookup(head, alias);
        match lookup(head, alias) {
            Some(i) => {
                assert(head[i] == switches[i]);
                assert forall|j: int| 0 <= j < i implies (#[trigger] switches[j]).alias != alias by {
                    assert(head[j] == switches[j]);
                }
            },
            None => {
                assert forall|j: int| 0 <= j < head.len() implies (#[trigger] switches[j]).alias
                    != alias by {
                    assert(head[j] == switches[j]);
                }
            },
        }
    }
}

/// The place of a name is an index of the table or its length; no switch
/// from that place on has a name that comes before it, and the switch before
/// that place has.
pub proof fn lemma_slot(switches: Seq<SwitchView>, alias: Seq<char>)
    ensures
        0 <= slot(switches, alias) <= switches.len(),
        forall|i: int|
            slot(switches, alias) <= i < switches.len() ==> !text_before(
                (#[trigger] switches[i]).alias,
                alias,
            ),
        slot(switches, alias) > 0 ==> text_before(switches[slot(switches, alias) - 1].alias, alias),
    decreases switches.len(),
{
    if switches.len() > 0 && !text_before(switches.last().alias, alias) {
        let head = switches.drop_last();
        lemma_slot(head, alias);
        assert forall|i: int| slot(switches, alias) <= i < switches.len() implies !text_before(
            (#[trigger] switches[i]).alias,
            alias,
        ) by {
            if i < head.len() {
                assert(head[i] == switches[i]);
            }
        }
        if slot(switches, alias) > 0 {
            assert(head[slot(switches, alias) - 1] == switches[slot(switches, alias) - 1]);
        }
    }
}

/// Seating a switch whose name is new keeps the table in the order of its
/// names, and adds that switch and no other.
pub proof fn lemma_seated(switches: Seq<SwitchView>, s: SwitchView)
    requires
        ascending(switches),
        !has_alias(switches, s.alias),
    ensures
        ascending(seated(switches, s)),
        seated(switches, s).len() == switches.len() + 1,
        forall|a: Seq<char>|
            has_alias(seated(switches, s), a) <==> has_alias(switches, a) || a == s.alias,
        all_cold(switches) && !s.hot ==> all_cold(seated(switches, s)),
{
    let p = slot(switches, s.alias);
    lemma_slot(switches, s.alias);
    let r = seated(switches, s);
    assert forall|i: int| 0 <= i < p implies text_before((#[trigger] switches[i]).alias, s.alias) by {
        if i < p - 1 {
            assert(text_before(switches[i].alias, switches[p - 1].alias));
            lemma_text_transitive(switches[i].alias, switches[p - 1].alias, s.alias);
        }
    }
    assert forall|i: int| p <= i < switches.len() implies text_before(
        s.alias,
        (#[trigger] switches[i]).alias,
    ) by {
        lemma_text_total(switches[i].alias, s.alias);
    }
    assert forall|i: int, j: int| 0 <= i < j < r.len() implies text_before(
        (#[trigger] r[i]).alias,
        (#[trigger] r[j]).alias,
    ) by {
        if j < p {
            assert(text_before(switches[i].alias, switches[j].alias));
        } else if j == p {
            assert(text_before(switches[i].alias, s.alias));
        } else if i < p {
            assert(text_before(switches[i].alias, switches[j - 1].alias));
        } else if i == p {
            assert(text_before(s.alias, switches[j - 1].alias));
        } else {
            assert(text_before(switches[i - 1].alias, switches[j - 1].alias));
        }
    }
    assert forall|a: Seq<char>| has_alias(r, a) <==> has_alias(switches, a) || a == s.alias by {
        if has_alias(r, a) {
            let j = choose|j: int| 0 <= j < r.len() && (#[trigger] r[j]).alias == a;
            if j < p {
                assert(switches[j].alias == a);
            } else if j > p {
                assert(switches[j - 1].alias == a);
            }
        }
        if has_alias(switches, a) {
            let j = choose|j: int| 0 <= j < switches.len() && (#[trigger] switches[j]).alias == a;
            if j < p {
                assert(r[j].alias == a);
            } else {
                assert(r[j + 1].alias == a);
            }
        }
        if a == s.alias {
            assert(r[p].alias == a);
        }
    }
    if all_cold(switches) && !s.hot {
        assert forall|i: int| 0 <= i < r.len() implies !(#[trigger] r[i]).hot by {
            if i < p {
                assert(!switches[i].hot);
            } else if i > p {
                assert(!switches[i - 1].hot);
            }
        }
    }
}

/// The table of circles with distinct names holds one cold switch for each
/// circle, under the circle's name, in the order of the names.
pub proof fn lemma_boot_switches(circles: Seq<Circle>)
    requires
        distinct(circles),
    ensures
        ascending(boot_switches(circles)),
        all_cold(boot_switches(circles)),
        boot_switches(circles).len() == circles.len(),
        forall|a: Seq<char>| has_alias(boot_switches(circles), a) <==> names(circles, a),
    decreases circles.len(),
{
    if circles.len() == 0 {
        assert forall|a: Seq<char>| has_alias(boot_switches(circles), a) <==> names(
            circles,
            a,
        ) by {}
    } else {
        let head = circles.drop_last();
        let last = circles.last();
        assert(distinct(head)) by {
            assert forall|i: int, j: int| 0 <= i < j < head.len() implies (#[trigger] head[i]).alias@
                != (#[trigger] head[j]).alias@ by {
                assert(circles[i].alias@ != circles[j].alias@);
            }
        }
        lemma_boot_switches(head);
        let table = boot_switches(head);
        assert(!has_alias(table, last.alias@)) by {
            if has_alias(table, last.alias@) {
                assert(names(head, last.alias@));
                let i = choose|i: int| 0 <= i < head.len() && (#[trigger] head[i]).alias@
                    == last.alias@;
                assert(circles[i].alias@ != circles[circles.len() - 1].alias@);
            }
        }
        lemma_seated(table, boot_switch(last));
        assert forall|a: Seq<char>| has_alias(boot_switches(circles), a) <==> names(
            circles,
            a,
        ) by {
            if names(circles, a) {
                let i = choose|i: int| 0 <= i < circles.len() && (#[trigger] circles[i]).alias@ == a;
                if i < head.len() {
                    assert(head[i].alias@ == a);
                }
            }
            if names(head, a) {
                let i = choose|i: int| 0 <= i < head.len() && (#[trigger] head[i]).alias@ == a;
                assert(circles[i].alias@ == a);
            }
            if a == last.alias@ {
                assert(circles[circles.len() - 1].alias@ == a);
            }
        }
    }
}

/// A table with the names of another, in the same places, is in the order
/// of its names if the other is.
pub proof fn lemma_ascending_kept(before: Seq<SwitchView>, after: Seq<SwitchView>)
    requires
        ascending(before),
        before.len() == after.len(),
        forall|i: int| 0 <= i < before.len() ==> (#[trigger] after[i]).alias == before[i].alias,
    ensures
        ascending(after),
{
    assert forall|i: int, j: int| 0 <= i < j < after.len() implies text_before(
        (#[trigger] after[i]).alias,
        (#[trigger] after[j]).alias,
    ) by {
        assert(text_before(before[i].alias, before[j].alias));
    }
}

/// In a table in the order of its names, a name is found at the one switch
/// that has it.
pub proof fn lemma_lookup_unique(switches: Seq<SwitchView>, alias: Seq<char>, k: int)
    requires
        ascending(switches),
        0 <= k < switches.len(),
        switches[k].alias == alias,
    ensures
        lookup(switches, alias) == Some(k),
{
    lemma_lookup(switches, alias);
    match lookup(switches, alias) {
        Some(i) => {
            if i < k {
                assert(text_before(switches[i].alias, switches[k].alias));
                lemma_text_irreflexive(alias);
            }
        },
        None => {},
    }
}

/// The daily events of valid circles whose switches are in the table are
/// valid, and each is handled by a switch of the table.
pub proof fn lemma_boot_specs(circles: Seq<Circle>, table: Seq<SwitchView>)
    requires
        forall|i: int| 0 <= i < circles.len() ==> (#[trigger] circles[i]).valid(),
        forall|i: int| 0 <= i < circles.len() ==> has_alias(table, (#[trigger] circles[i]).alias@),
        table.len() <= usize::MAX,
    ensures
        forall|k: int|
            0 <= k < boot_specs(circles, table).len() ==> (#[trigger] boot_specs(
                circles,
                table,
            )[k]).event.valid() && boot_specs(circles, table)[k].handler < table.len(),
    decreases circles.len(),
{
    if circles.len() > 0 {
        let head = circles.drop_last();
        assert forall|i: int| 0 <= i < head.len() implies (#[trigger] head[i]).valid()
            && has_alias(table, head[i].alias@) by {
            assert(circles[i].valid());
            assert(has_alias(table, circles[i].alias@));
        }
        lemma_boot_specs(head, table);
        let c = circles.last();
        assert(circles[circles.len() - 1].valid());
        assert(has_alias(table, circles[circles.len() - 1].alias@));
        lemma_lookup(table, c.alias@);
        lemma_toggle_specs(c.toggles@, handler_of(table, c.alias@));
    }
}

/// The daily events of valid toggles are valid and handled by `handler`.
pub proof fn lemma_toggle_specs(toggles: Seq<Toggle>, handler: usize)
    requires
        forall|i: int| 0 <= i < toggles.len() ==> (#[trigger] toggles[i]).valid(),
    ensures
        toggle_specs(toggles, handler).len() == 2 * toggles.len(),
        forall|k: int|
            0 <= k < toggle_specs(toggles, handler).len() ==> (#[trigger] toggle_specs(
                toggles,
                handler,
            )[k]).event.valid() && toggle_specs(toggles, handler)[k].handler == handler,
    decreases toggles.len(),
{
    if toggles.len() > 0 {
        let head = toggles.drop_last();
        assert forall|i: int| 0 <= i < head.len() implies (#[trigger] head[i]).valid() by {
            assert(toggles[i].valid());
        }
        assert(toggles[toggles.len() - 1].valid());
        lemma_toggle_specs(head, handler);
    }
}

/// Two rows of switches with the same names in the same places find a name
/// at the same place.
pub proof fn lemma_lookup_by_alias(a: Seq<SwitchView>, b: Seq<SwitchView>, alias: Seq<char>)
    requires
        a.len() == b.len(),
        forall|i: int| 0 <= i < a.len() ==> (#[trigger] a[i]).alias == b[i].alias,
    ensures
        lookup(a, alias) == lookup(b, alias),
    decreases a.len(),
{
    if a.len() > 0 {
        assert forall|i: int| 0 <= i < a.drop_last().len() implies (#[trigger] a.drop_last()[i]).alias
            == b.drop_last()[i].alias by {
            assert(a[i].alias == b[i].alias);
        }
        lemma_lookup_by_alias(a.drop_last(), b.drop_last(), alias);
        assert(a[a.len() - 1].alias == b[a.len() - 1].alias);
    }
}

/// Filling in a day keeps the supervisor sound, keeps its switches, and puts
/// one event on the calendar for each daily event.
pub proof fn lemma_update(s: TrackerView, info: DayInfo)
    requires
        s.sound(),
    ensures
        s.update(info).sound(),
        s.update(info).switches.len() == s.switches.len(),
        s.update(info).schedule.events.len() == s.schedule.events.len() + s.schedule.specs.len(),
        s.update(info).serial == s.serial,
{
    let fresh = materialized(s.schedule.specs, s.schedule_ref, info, s.rng);
    assert(entries_below(fresh, s.switches.len())) by {
        assert forall|i: int| 0 <= i < fresh.len() implies (#[trigger] fresh[i]).handler
            < s.switches.len() by {
            assert(s.schedule.specs[i].handler < s.switches.len());
        }
    }
    lemma_placed(Seq::empty(), fresh, s.switches.len());
    lemma_placed(s.schedule.events, ordered(fresh), s.switches.len());
    lemma_identity_kept(s.switches, ordered(fresh));
    lemma_ascending_kept(s.switches, hinted(s.switches, ordered(fresh)));
    if s.initial {
        lemma_cold_is_silent(s.switches, ordered(fresh));
    }
}

/// The entries that fire at a tick name switches that exist.
pub proof fn lemma_fired(s: TrackerView, t: Timespec)
    requires
        s.sound(),
    ensures
        entries_below(s.fired(t), s.switches.len()),
        s.kick(t).switches.len() == s.switches.len(),
        ascending(s.kick(t).switches),
{
    lemma_rank(s.schedule.events, t);
    assert forall|i: int| 0 <= i < s.fired(t).len() implies (#[trigger] s.fired(t)[i]).handler
        < s.switches.len() by {
        assert(s.schedule.events[i].handler < s.switches.len());
    }
    lemma_identity_kept(s.switches, s.fired(t));
    lemma_ascending_kept(s.switches, kicked(s.switches, s.fired(t)));
}

/// After the first tick, more than nothing and no more than two days are
/// left from the tick to the window reference.
pub proof fn lemma_window_after_first_tick(s: TrackerView, t: Timespec, days: Seq<DayInfo>)
    requires
        s.running,
        s.initial,
        t.in_range(),
        t.normal(),
    ensures
        !s.tick(t, days).initial,
        t.before(s.tick(t, days).schedule_ref),
        s.tick(t, days).schedule_ref.shifted(-2 * DAY).not_after(t),
{
}

/// A later tick keeps the window: if at the tick no more than two days are
/// left to the window reference, and the tick is less than a day beyond it,
/// then after the tick more than nothing and no more than two days are left.
pub proof fn lemma_window_maintained(s: TrackerView, t: Timespec, days: Seq<DayInfo>)
    requires
        s.running,
        !s.initial,
        s.wf(),
        s.schedule_ref.shifted(-2 * DAY).not_after(t),
        t.before(s.schedule_ref.shifted(DAY as int)),
    ensures
        !s.tick(t, days).initial,
        t.before(s.tick(t, days).schedule_ref),
        s.tick(t, days).schedule_ref.shifted(-2 * DAY).not_after(t),
{
}

/// The first tick tells the gateway one command for each switch, however
/// many events were already due: the state the switch is in after them. No
/// two switches have the same name, so that is one command for each name.
pub proof fn lemma_first_tick_one_command_each(s: TrackerView, t: Timespec, days: Seq<DayInfo>)
    requires
        s.sound(),
        s.running,
        s.initial,
    ensures
        s.tick(t, days).serial == s.serial + commands_of(s.tick(t, days).switches),
        s.tick(t, days).switches.len() == s.switches.len(),
        commands_of(s.tick(t, days).switches).len() == s.switches.len(),
        ascending(s.tick(t, days).switches),
{
    let start = TrackerView { schedule_ref: t.day_start(), ..s };
    lemma_update(start, days[0]);
    let once = start.update(days[0]);
    lemma_update(once, days[1]);
    let filled = once.update(days[1]);
    assert(filled == s.filled(t, days));
    lemma_fired(filled, t);
    lemma_cold_is_silent(filled.switches, filled.fired(t));
    let fired = filled.kick(t);
    assert(fired.serial =~= s.serial);
    assert(commands_of(heated(fired.switches)) =~= commands_of(fired.switches));
    lemma_ascending_kept(fired.switches, heated(fired.switches));
}

/// Filling in the same day twice puts each of its events on the calendar
/// twice, and a kick at the latest moment of all empties the calendar.
pub proof fn lemma_update_twice(s: TrackerView, w: Timespec, first: DayInfo, second: DayInfo)
    requires
        s.sound(),
    ensures
        ({
            let once = (TrackerView { schedule_ref: w, ..s }).update(first);
            let twice = (TrackerView { schedule_ref: w, ..once }).update(second);
            &&& once.schedule.events.len() == s.schedule.events.len() + s.schedule.specs.len()
            &&& twice.schedule.events.len() == s.schedule.events.len() + 2
                * s.schedule.specs.len()
            &&& twice.kick(Timespec::latest()).schedule.events.len() == 0
        }),
{
    let start = TrackerView { schedule_ref: w, ..s };
    lemma_update(start, first);
    let once = start.update(first);
    let again = TrackerView { schedule_ref: w, ..once };
    lemma_update(again, second);
    let twice = again.update(second);
    lemma_kick_at_latest(twice.schedule.events);
}

/// Every entry is due at the latest moment of all.
pub proof fn lemma_kick_at_latest(events: Seq<Entry>)
    ensures
        rank(events, Timespec::latest()) == events.len(),
        events.skip(rank(events, Timespec::latest())).len() == 0,
{
    if events.len() > 0 {
        assert(events.last().at.not_after(Timespec::latest()));
    }
}

/// While the supervisor runs, a switch that was set reports the state it was
/// set to, with its pending events as they were; a name that no switch has is
/// answered with `Off` and changes nothing.
pub proof fn lemma_switch_then_get(s: TrackerView, alias: Seq<char>, state: Context)
    requires
        s.running,
    ensures
        lookup(s.switches, alias) matches Some(i) ==> s.switch_reply(alias, state) == state
            && s.switch(alias, state).status(alias) == Some((state, s.switches[i].events))
            && s.status(alias) == Some((s.switches[i].state, s.switches[i].events)),
        lookup(s.switches, alias) is None ==> s.switch_reply(alias, state) == Context::Off
            && s.switch(alias, state) == s && s.switch(alias, state).status(alias) is None,
{
    lemma_lookup(s.switches, alias);
    match lookup(s.switches, alias) {
        Some(i) => {
            lemma_lookup_by_alias(s.switches, s.switch(alias, state).switches, alias);
        },
        None => {},
    }
}

/// Tells the gateway of the circles, one after the other.
fn tell_gateway(circles: &Vec<Circle>, serial: &mut SerialClient)
    ensures
        final(serial)@ == old(serial)@ + register_commands(circles@),
{
    let ghost sent = serial@;
    let mut ci: usize = 0;
    assert(circles@.take(0) =~= Seq::<Circle>::empty());
    assert(sent + register_commands(circles@.take(0)) =~= sent);
    while ci < circles.len()
        invariant
            ci <= circles@.len(),
            serial@ == sent + register_commands(circles@.take(ci as int)),
        decreases circles@.len() - ci,
    {
        let circle = &circles[ci];
        serial.register_circle(circle.alias.as_str(), circle.mac);
        match circle.default {
            CircleSetting::On => serial.switch_on(circle.alias.as_str()),
            CircleSetting::Off => serial.switch_off(circle.alias.as_str()),
            CircleSetting::Schedule => {},
        }
        proof {
            assert(circles@.take(ci + 1).drop_last() =~= circles@.take(ci as int));
            assert(circles@.take(ci + 1).last() == *circle);
            assert(serial@ =~= sent + register_commands(circles@.take(ci + 1)));
        }
        ci += 1;
    }
    assert(circles@.take(ci as int) =~= circles@);
}

/// The place in the table of a switch named `alias`.
fn seat(switches: &Vec<Switch>, alias: &str) -> (p: usize)
    ensures
        p == slot(views(switches@), alias@),
        p <= switches@.len(),
{
    let ghost all = views(switches@);
    let mut p: usize = switches.len();
    assert(all.take(p as int) =~= all);
    while p > 0 && !is_text_before(switches[p - 1].alias().as_str(), alias)
        invariant
            all == views(switches@),
            p <= switches@.len(),
            slot(all, alias@) == slot(all.take(p as int), alias@),
        decreases p,
    {
        assert(all.take(p as int).drop_last() =~= all.take(p - 1));
        assert(all.take(p as int).last() == all[p - 1]);
        p -= 1;
    }
    proof {
        if p > 0 {
            assert(all.take(p as int).last() == all[p - 1]);
        }
    }
    p
}

/// The table of the switches of the circles, each in the state it starts in.
fn seat_all(circles: &Vec<Circle>) -> (switches: Vec<Switch>)
    ensures
        views(switches@) == boot_switches(circles@),
{
    let mut switches: Vec<Switch> = Vec::new();
    let mut silent = SerialClient::new();
    let mut ci: usize = 0;
    assert(circles@.take(0) =~= Seq::<Circle>::empty());
    assert(views(switches@) =~= boot_switches(circles@.take(0)));
    while ci < circles.len()
        invariant
            ci <= circles@.len(),
            views(switches@) == boot_switches(circles@.take(ci as int)),
        decreases circles@.len() - ci,
    {
        let circle = &circles[ci];
        let mut switch = Switch::new(circle.alias.clone());
        match circle.default {
            CircleSetting::On => switch.set_switch_state(Context::On, &mut silent),
            _ => {},
        }
        assert(switch@ == boot_switch(*circle));
        let p = seat(&switches, circle.alias.as_str());
        let ghost prior = views(switches@);
        switches.insert(p, switch);
        proof {
            assert(circles@.take(ci + 1).drop_last() =~= circles@.take(ci as int));
            assert(circles@.take(ci + 1).last() == *circle);
            assert(views(switches@) =~= prior.insert(p as int, boot_switch(*circle)));
        }
        ci += 1;
    }
    assert(circles@.take(ci as int) =~= circles@);
    switches
}

/// The calendar with the daily events of the circles, circle by circle, each
/// handled by the switch of its circle in `switches`.
fn register_all(circles: &Vec<Circle>, switches: &Vec<Switch>) -> (schedule: Schedule)
    ensures
        schedule@ == (ScheduleView {
            specs: boot_specs(circles@, views(switches@)),
            events: Seq::empty(),
        }),
{
    let ghost table = views(switches@);
    let mut schedule = Schedule::new();
    let mut ci: usize = 0;
    assert(circles@.take(0) =~= Seq::<Circle>::empty());
    while ci < circles.len()
        invariant
            ci <= circles@.len(),
            table == views(switches@),
            schedule@ == (ScheduleView {
                specs: boot_specs(circles@.take(ci as int), table),
                events: Seq::empty(),
            }),
        decreases circles@.len() - ci,
    {
        let circle = &circles[ci];
        let ghost base = schedule@.specs;
        proof {
            assert(circles@.take(ci + 1).drop_last() =~= circles@.take(ci as int));
            assert(circles@.take(ci + 1).last() == *circle);
        }
        match circle.default {
            CircleSetting::Schedule => {
                let handler: usize = match find(switches, circle.alias.as_str()) {
                    Some(i) => i,
                    None => 0,
                };
                assert(handler == handler_of(table, circle.alias@));
                let m = circle.toggles.len();
                let mut k: usize = 0;
                assert(circle.toggles@.take(0) =~= Seq::<Toggle>::empty());
                assert(base + toggle_specs(circle.toggles@.take(0), handler) =~= base);
                while k < m
                    invariant
                        m == circle.toggles@.len(),
                        k <= m,
                        schedule@ == (ScheduleView {
                            specs: base + toggle_specs(circle.toggles@.take(k as int), handler),
                            events: Seq::empty(),
                        }),
                    decreases m - k,
                {
                    let toggle = &circle.toggles[k];
                    schedule.add_event(toggle.start, handler, Context::On);
                    schedule.add_event(toggle.end, handler, Context::Off);
                    proof {
                        assert(circle.toggles@.take(k + 1).drop_last() =~= circle.toggles@.take(
                            k as int,
                        ));
                        assert(circle.toggles@.take(k + 1).last() == circle.toggles@[k as int]);
                        assert(schedule@.specs =~= base + toggle_specs(
                            circle.toggles@.take(k + 1),
                            handler,
                        ));
                    }
                    k += 1;
                }
                assert(circle.toggles@.take(m as int) =~= circle.toggles@);
            },
            _ => {
                assert(schedule@.specs =~= base + circle_specs(
                    *circle,
                    handler_of(table, circle.alias@),
                ));
            },
        }
        ci += 1;
    }
    assert(circles@.take(ci as int) =~= circles@);
    schedule
}

/// The index of the first switch named `key`, if there is one.
fn find(switches: &Vec<Switch>, key: &str) -> (found: Option<usize>)
    ensures
        match found {
            Some(i) => lookup(views(switches@), key@) == Some(i as int) && i < switches@.len(),
            None => lookup(views(switches@), key@) is None,
        },
{
    let wanted: String = key.to_owned();
    let ghost all = views(switches@);
    let mut i: usize = 0;
    assert(all.take(0) =~= Seq::<SwitchView>::empty());
    while i < switches.len()
        invariant
            all == views(switches@),
            wanted@ == key@,
            i <= switches@.len(),
            lookup(all.take(i as int), key@) is None,
        decreases switches@.len() - i,
    {
        proof {
            assert(all.take(i + 1).drop_last() =~= all.take(i as int));
            assert(all.take(i + 1).last() == switches@[i as int]@);
        }
        if *switches[i].alias() == wanted {
            proof {
                lemma_lookup_prefix(all, key@, i + 1);
            }
            return Some(i);
        }
        i += 1;
    }
    assert(all.take(i as int) =~= all);
    None
}

/// Makes every switch hot; each tells the gateway its state.
fn heat_all(switches: &mut Vec<Switch>, serial: &mut SerialClient)
    ensures
        final(switches)@.len() == old(switches)@.len(),
        views(final(switches)@) == heated(views(old(switches)@)),
        final(serial)@ == old(serial)@ + commands_of(views(old(switches)@)),
{
    let ghost base = views(switches@);
    let ghost sent = serial@;
    let n = switches.len();
    let mut i: usize = 0;
    assert(heated(base.take(0)) + base.skip(0) =~= base);
    assert(sent + commands_of(base.take(0)) =~= sent);
    while i < n
        invariant
            n == base.len(),
            switches@.len() == n,
            i <= n,
            views(switches@) == heated(base.take(i as int)) + base.skip(i as int),
            serial@ == sent + commands_of(base.take(i as int)),
        decreases n - i,
    {
        let ghost prior = switches@;
        assert(views(prior)[i as int] == base[i as int]);
        switches[i].make_hot(serial);
        proof {
            assert(views(switches@) =~= views(prior).update(i as int, base[i as int].make_hot()));
            assert(views(switches@) =~= heated(base.take(i + 1)) + base.skip(i + 1));
            assert(serial@ =~= sent + commands_of(base.take(i + 1)));
        }
        i += 1;
    }
    assert(base.take(n as int) =~= base);
    assert(heated(base) + base.skip(n as int) =~= heated(base));
}

/// The names of the switches.
fn aliases(switches: &Vec<Switch>) -> (list: Vec<String>)
    ensures
        list@.len() == switches@.len(),
        forall|i: int| 0 <= i < list@.len() ==> (#[trigger] list@[i])@ == views(switches@)[i].alias,
{
    let mut list: Vec<String> = Vec::new();
    let mut i: usize = 0;
    while i < switches.len()
        invariant
            i <= switches@.len(),
            list@.len() == i,
            forall|k: int| 0 <= k < i ==> (#[trigger] list@[k])@ == views(switches@)[k].alias,
        decreases switches@.len() - i,
    {
        list.push(switches[i].alias().clone());
        i += 1;
    }
    list
}

impl TrackerInner {
    /// A supervisor for `config`, not yet ticked, with its jitter drawn from
    /// `seed`. The gateway is asked to connect and to register the circles,
    /// and to set the relay of each circle that is on or off by default; such
    /// a circle starts in that state and has no daily events. The switches
    /// stand in the order of their names.
    pub fn new(config: &Config, seed: u64) -> (tracker: TrackerInner)
        requires
            config.valid(),
            config.distinct(),
        ensures
            tracker@ == (TrackerView {
                serial: boot_commands(*config),
                schedule: ScheduleView {
                    specs: boot_specs(config.circles@, boot_switches(config.circles@)),
                    events: Seq::empty(),
                },
                schedule_ref: Timespec::zero(),
                initial: true,
                running: true,
                switches: boot_switches(config.circles@),
                rng: seed,
            }),
            tracker@.wf(),
    {
        let mut tracker = TrackerInner {
            serial: SerialClient::new(),
            schedule: Schedule::new(),
            schedule_ref: Timespec::epoch(),
            initial: true,
            running: true,
            switches: Vec::new(),
            rng: Rng::seeded(seed),
        };
        tracker.load_schedule(config);
        assert(tracker@.serial =~= boot_commands(*config));
        tracker
    }

    /// Starts over with `config`: the switches and the calendar are replaced,
    /// the gateway is told as at the start, and the next tick is a first tick.
    pub fn load_schedule(&mut self, config: &Config)
        requires
            config.valid(),
            config.distinct(),
        ensures
            final(self)@ == (TrackerView {
                serial: old(self)@.serial + boot_commands(*config),
                schedule: ScheduleView {
                    specs: boot_specs(config.circles@, boot_switches(config.circles@)),
                    events: Seq::empty(),
                },
                schedule_ref: Timespec::zero(),
                initial: true,
                switches: boot_switches(config.circles@),
                ..old(self)@
            }),
            final(self)@.wf(),
    {
        let ghost sent = self.serial@;
        let ghost circles = config.circles@;
        match &config.device.serial_device {
            None => self.serial.connect_stub(),
            Some(dev) => self.serial.connect_device(dev.as_str()),
        }
        tell_gateway(&config.circles, &mut self.serial);
        self.switches = seat_all(&config.circles);
        self.schedule = register_all(&config.circles, &self.switches);
        self.schedule_ref = Timespec::epoch();
        self.initial = true;
        proof {
            assert(self@.serial =~= sent + boot_commands(*config));
            let table = boot_switches(circles);
            lemma_boot_switches(circles);
            assert forall|i: int| 0 <= i < circles.len() implies has_alias(
                table,
                (#[trigger] circles[i]).alias@,
            ) by {
                assert(names(circles, circles[i].alias@));
            }
            assert(table.len() == config.circles.len());
            lemma_boot_specs(circles, table);
        }
    }

    /// The window reference: the calendar is filled up to this moment.
    pub fn window(&self) -> (w: Timespec)
        ensures
            w == self@.schedule_ref,
    {
        self.schedule_ref
    }

    /// No tick has been processed yet.
    pub fn is_initial(&self) -> (b: bool)
        ensures
            b == self@.initial,
    {
        self.initial
    }

    /// The supervisor has not been torn down.
    pub fn is_running(&self) -> (b: bool)
        ensures
            b == self@.running,
    {
        self.running
    }

    /// The calendar, to look at.
    pub fn schedule(&self) -> (s: &Schedule)
        ensures
            s@ == self@.schedule,
    {
        &self.schedule
    }

    /// Fills in the day at the window reference with what `info` says of
    /// it, and moves the window reference on by a day.
    pub fn update_schedule(&mut self, info: &DayInfo)
        requires
            old(self)@.wf(),
            old(self)@.can_update(),
            info.in_range(),
        ensures
            final(self)@ == old(self)@.update(*info),
            final(self)@.wf(),
            final(self)@.schedule.events.len() == old(self)@.schedule.events.len() + old(
                self,
            )@.schedule.specs.len(),
    {
        let day = self.schedule_ref;
        proof {
            lemma_update(self@, *info);
        }
        self.schedule.update_schedule(&day, info, &mut self.rng, &mut self.switches);
        self.schedule_ref = day.add_seconds(DAY);
    }

    /// At `t` a day or less is left to the window reference.
    pub fn window_is_short(&self, t: &Timespec) -> (short: bool)
        requires
            self@.wf(),
        ensures
            short == self@.short(*t),
    {
        self.schedule_ref.add_seconds(-DAY).is_not_after(t)
    }

    /// The days that a tick at `t` fills in, each by its start: what
    /// `process_tick` wants to be told about, in this order.
    pub fn days_due(&self, t: &Timespec) -> (days: Vec<Timespec>)
        requires
            self@.wf(),
            t.in_range(),
        ensures
            days@.len() == self@.days_due(*t),
            self@.running && self@.initial ==> days@[0] == t.day_start() && days@[1]
                == t.day_start().shifted(DAY as int),
            self@.running && !self@.initial && self@.short(*t) ==> days@[0] == self@.schedule_ref,
    {
        let mut days: Vec<Timespec> = Vec::new();
        if self.running {
            if self.initial {
                let today = t.start_of_day();
                days.push(today);
                days.push(today.add_seconds(DAY));
            } else if self.window_is_short(t) {
                days.push(self.schedule_ref);
            }
        }
        days
    }

    /// Processes a tick at `timestamp`: fills in the days that are due, fires
    /// the events that are due, and after the first tick makes the switches
    /// hot. `days` tells of the days that are due, as `days_due` lists them.
    /// The first tick leaves the window reference two days after the start of
    /// its day; a later tick moves it on by a day if a day or less is left.
    /// No event that is due stays on the calendar. The first tick tells the
    /// gateway one command for each switch, and no more.
    pub fn process_tick(&mut self, timestamp: Timespec, days: &Vec<DayInfo>)
        requires
            old(self)@.wf(),
            timestamp.in_range(),
            days@.len() >= old(self)@.days_due(timestamp),
            forall|i: int| 0 <= i < days@.len() ==> (#[trigger] days@[i]).in_range(),
        ensures
            final(self)@ == old(self)@.tick(timestamp, days@),
            final(self)@.wf(),
            old(self)@.running ==> !final(self)@.initial,
            old(self)@.running && old(self)@.initial ==> final(self)@.serial == old(self)@.serial
                + commands_of(final(self)@.switches),
            old(self)@.running && old(self)@.initial ==> final(self)@.schedule_ref
                == timestamp.day_start().shifted(2 * DAY),
            old(self)@.running && !old(self)@.initial ==> final(self)@.schedule_ref == (if old(
                self,
            )@.short(timestamp) {
                old(self)@.schedule_ref.shifted(DAY as int)
            } else {
                old(self)@.schedule_ref
            }),
            old(self)@.running ==> forall|i: int|
                0 <= i < final(self)@.schedule.events.len() ==> timestamp.before(
                    (#[trigger] final(self)@.schedule.events[i]).at,
                ),
    {
        if !self.running {
            return ;
        }
        proof {
            if self.initial {
                lemma_first_tick_one_command_each(self@, timestamp, days@);
            }
        }
        let mut next: usize = 0;
        if self.initial {
            self.schedule_ref = timestamp.start_of_day();
            self.update_schedule(&days[0]);
            self.update_schedule(&days[1]);
            next = 2;
        }
        if self.window_is_short(&timestamp) {
            assert(!old(self)@.initial);
            self.update_schedule(&days[next]);
        }
        assert(self@ == old(self)@.filled(timestamp, days@));
        let ghost filled = self@;
        proof {
            lemma_rank(filled.schedule.events, timestamp);
            assert(entries_below(filled.fired(timestamp), filled.switches.len())) by {
                assert forall|i: int| 0 <= i < filled.fired(timestamp).len() implies (
                #[trigger] filled.fired(timestamp)[i]).handler < filled.switches.len() by {
                    assert(filled.schedule.events[i].handler < filled.switches.len());
                }
            }
            lemma_identity_kept(filled.switches, filled.fired(timestamp));
        }
        self.schedule.kick_event(&timestamp, &mut self.switches, &mut self.serial);
        assert(self@ == filled.kick(timestamp));
        if self.initial {
            self.initial = false;
            heat_all(&mut self.switches, &mut self.serial);
        }
    }

    /// The names of the switches, each once, in their order.
    pub fn get_list(&self) -> (list: Vec<String>)
        requires
            self@.wf(),
        ensures
            list@.len() == self@.switches.len(),
            forall|i: int| 0 <= i < list@.len() ==> (#[trigger] list@[i])@ == self@.switches[i].alias,
            forall|i: int, j: int|
                0 <= i < j < list@.len() ==> text_before(
                    (#[trigger] list@[i])@,
                    (#[trigger] list@[j])@,
                ),
    {
        let list = aliases(&self.switches);
        proof {
            assert forall|i: int, j: int| 0 <= i < j < list@.len() implies text_before(
                (#[trigger] list@[i])@,
                (#[trigger] list@[j])@,
            ) by {
                assert(text_before(self@.switches[i].alias, self@.switches[j].alias));
            }
        }
        list
    }

    /// The first switch named `key`.
    pub fn get_switch(&self, key: &str) -> (switch: Option<&Switch>)
        ensures
            match lookup(self@.switches, key@) {
                Some(i) => switch matches Some(s) && s@ == self@.switches[i],
                None => switch is None,
            },
    {
        match find(&self.switches, key) {
            Some(i) => Some(&self.switches[i]),
            None => None,
        }
    }

    /// The state and the pending events of the switch named `alias`.
    pub fn status(&self, alias: &str) -> (status: Option<(Context, EventMap)>)
        ensures
            match self@.status(alias@) {
                Some((state, events)) => {
                    &&& status matches Some((s, e))
                    &&& s == state
                    &&& e@ == events
                },
                None => status is None,
            },
    {
        match self.get_switch(alias) {
            Some(switch) => Some((switch.get_state(), switch.get_future_events())),
            None => None,
        }
    }

    /// Sets the switch named `alias` to `state` and tells the gateway if the
    /// switch is hot; its pending events stay. A stopped supervisor sets
    /// nothing and tells nothing. Returns the state that the switch is in
    /// then, and `Off` if there is no such switch.
    pub fn switch(&mut self, alias: &str, state: Context) -> (now: Context)
        requires
            old(self)@.wf(),
        ensures
            final(self)@ == old(self)@.switch(alias@, state),
            now == old(self)@.switch_reply(alias@, state),
            final(self)@.wf(),
    {
        match find(&self.switches, alias) {
            Some(i) => {
                if self.running {
                    let ghost prior = self.switches@;
                    self.switches[i].set_switch_state(state, &mut self.serial);
                    proof {
                        assert(views(self.switches@) =~= views(prior).update(
                            i as int,
                            views(prior)[i as int].set_state(state),
                        ));
                        lemma_ascending_kept(views(prior), views(self.switches@));
                    }
                }
                self.switches[i].get_state()
            },
            None => Context::Off,
        }
    }

    /// Stops the supervisor: the gateway is told to hang up. From then on
    /// `handle` answers `Stopped`, and neither a message nor `process_tick`
    /// nor `switch` changes anything or tells the gateway anything.
    pub fn teardown(&mut self)
        ensures
            final(self)@ == old(self)@.teardown(),
            old(self)@.wf() ==> final(self)@.wf(),
    {
        if self.running {
            self.running = false;
            self.serial.hangup();
        }
    }

    /// Answers one message. A tick without a moment changes nothing. Once
    /// the supervisor is torn down, every message is answered with `Stopped`
    /// and changes nothing.
    pub fn handle(&mut self, message: Message, days: &Vec<DayInfo>) -> (reply: Reply)
        requires
            old(self)@.wf(),
            message matches Message::Tick(Some(t)) ==> t.in_range() && days@.len() >= old(
                self,
            )@.days_due(t) && forall|i: int| 0 <= i < days@.len() ==> (#[trigger] days@[i]).in_range(),
        ensures
            final(self)@.wf(),
            !old(self)@.running ==> final(self)@ == old(self)@ && reply is Stopped,
            old(self)@.running ==> match message {
                Message::Tick(Some(t)) => final(self)@ == old(self)@.tick(t, days@)
                    && reply is Nothing,
                Message::Tick(None) => final(self)@ == old(self)@ && reply is Nothing,
                Message::Teardown => final(self)@ == old(self)@.teardown() && reply is Stopped,
                Message::List => {
                    &&& final(self)@ == old(self)@
                    &&& reply matches Reply::List(list)
                    &&& list@.len() == old(self)@.switches.len()
                    &&& forall|i: int|
                        0 <= i < list@.len() ==> (#[trigger] list@[i])@ == old(
                            self,
                        )@.switches[i].alias
                    &&& forall|i: int, j: int|
                        0 <= i < j < list@.len() ==> text_before(
                            (#[trigger] list@[i])@,
                            (#[trigger] list@[j])@,
                        )
                },
                Message::Get(alias) => {
                    &&& final(self)@ == old(self)@
                    &&& reply matches Reply::Status(status)
                    &&& match old(self)@.status(alias@) {
                        Some((state, events)) => {
                            &&& status matches Some((s, e))
                            &&& s == state
                            &&& e@ == events
                        },
                        None => status is None,
                    }
                },
                Message::Switch(alias, state) => final(self)@ == old(self)@.switch(alias@, state)
                    && reply == Reply::State(old(self)@.switch_reply(alias@, state)),
            },
    {
        if !self.running {
            return Reply::Stopped;
        }
        match message {
            Message::Tick(Some(t)) => {
                self.process_tick(t, days);
                Reply::Nothing
            },
            Message::Tick(None) => Reply::Nothing,
            Message::Teardown => {
                self.teardown();
                Reply::Stopped
            },
            Message::List => Reply::List(self.get_list()),
            Message::Get(alias) => Reply::Status(self.status(alias.as_str())),
            Message::Switch(alias, state) => Reply::State(self.switch(alias.as_str(), state)),
        }
    }

    /// Hands over the commands issued since they were last taken.
    pub fn take_commands(&mut self) -> (commands: Vec<Command>)
        ensures
            commands@.map_values(|c: Command| c@) == old(self)@.serial,
            final(self)@ == (TrackerView { serial: Seq::empty(), ..old(self)@ }),
    {
        self.serial.take_commands()
    }
}

} // verus!
