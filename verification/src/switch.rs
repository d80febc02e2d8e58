//! One relay and the rules by which announced events are accepted and fired.
//!
//! Events are announced (`hint`) in the order of their moments. An `Off`
//! counts only when it follows the last announced `On`; such a pair is kept
//! until it fires (`kick`). A switch that is not yet hot follows its events
//! silently; a hot switch tells the gateway.

use vstd::prelude::*;
use crate::event_map::{later_than, EventMap};
use crate::serial::{CommandView, SerialClient};
use crate::timespec::Timespec;
use crate::tracker::Context;

verus! {

/// The state of a switch as a mathematical value.
pub struct SwitchView {
    pub alias: Seq<char>,
    pub last_on: Timespec,
    pub state: Context,
    pub events: Map<Timespec, Context>,
    pub hot: bool,
}

impl SwitchView {
    /// A switch that has seen nothing: off, silent, no events.
    pub open spec fn fresh(alias: Seq<char>) -> SwitchView {
        SwitchView {
            alias,
            last_on: Timespec::zero(),
            state: Context::Off,
            events: Map::empty(),
            hot: false,
        }
    }

    /// An `Off` at `ts` closes a pair: an `On` was announced, and before `ts`.
    pub open spec fn closes_pair(self, ts: Timespec) -> bool {
        self.last_on.before(ts) && self.last_on != Timespec::zero()
    }

    /// The switch after the announcement of `context` at `ts`.
    pub open spec fn hint(self, ts: Timespec, context: Context) -> SwitchView {
        match context {
            Context::On => SwitchView { last_on: ts, ..self },
            Context::Off => if self.closes_pair(ts) {
                SwitchView {
                    events: self.events.insert(self.last_on, Context::On).insert(
                        ts,
                        Context::Off,
                    ),
                    ..self
                }
            } else {
                self
            },
        }
    }

    /// The command that sets the relay to the current state.
    pub open spec fn command(self) -> CommandView {
        match self.state {
            Context::Off => CommandView::SwitchOff(self.alias),
            Context::On => CommandView::SwitchOn(self.alias),
        }
    }

    /// What the gateway is told when the state is dispatched.
    pub open spec fn dispatch(self) -> Seq<CommandView> {
        if self.hot {
            seq![self.command()]
        } else {
            Seq::empty()
        }
    }

    /// The switch with its state set to `state`.
    pub open spec fn set_state(self, state: Context) -> SwitchView {
        SwitchView { state, ..self }
    }

    /// An event at `ts` fires: it was accepted and is still pending.
    pub open spec fn fires(self, ts: Timespec) -> bool {
        self.events.contains_key(ts)
    }

    /// The switch after the event `context` at `ts` came due.
    pub open spec fn kick(self, ts: Timespec, context: Context) -> SwitchView {
        if self.fires(ts) {
            SwitchView {
                state: context,
                events: self.events.restrict(later_than(ts)),
                ..self
            }
        } else {
            self
        }
    }

    /// What the gateway is told when the event `context` at `ts` comes due.
    pub open spec fn kick_commands(self, ts: Timespec, context: Context) -> Seq<CommandView> {
        if self.fires(ts) {
            self.set_state(context).dispatch()
        } else {
            Seq::empty()
        }
    }

    /// The switch once it tells the gateway what it does.
    pub open spec fn make_hot(self) -> SwitchView {
        SwitchView { hot: true, ..self }
    }
}

/// A relay with its current state and its accepted, pending events.
pub struct Switch {
    alias: String,
    last_on: Timespec,
    state: Context,
    valid_events: EventMap,
    hot: bool,
}

impl View for Switch {
    type V = SwitchView;

    closed spec fn view(&self) -> SwitchView {
        SwitchView {
            alias: self.alias@,
            last_on: self.last_on,
            state: self.state,
            events: self.valid_events@,
            hot: self.hot,
        }
    }
}

impl Switch {
    pub fn new(alias: String) -> (switch: Switch)
        ensures
            switch@ == SwitchView::fresh(alias@),
    {
        Switch {
            alias,
            last_on: Timespec::epoch(),
            state: Context::Off,
            valid_events: EventMap::new(),
            hot: false,
        }
    }

    pub fn alias(&self) -> (alias: &String)
        ensures
            alias@ == self@.alias,
    {
        &self.alias
    }

    pub fn is_hot(&self) -> (hot: bool)
        ensures
            hot == self@.hot,
    {
        self.hot
    }

    pub fn get_state(&self) -> (state: Context)
        ensures
            state == self@.state,
    {
        self.state
    }

    pub fn get_future_events(&self) -> (events: EventMap)
        ensures
            events@ == self@.events,
    {
        self.valid_events.duplicate()
    }

    /// Sets the state and tells the gateway, if the switch is hot.
    pub fn set_switch_state(&mut self, state: Context, serial: &mut SerialClient)
        ensures
            final(self)@ == old(self)@.set_state(state),
            final(serial)@ == old(serial)@ + final(self)@.dispatch(),
    {
        self.state = state;
        self.dispatch_context(serial);
    }

    /// Tells the gateway the current state, if the switch is hot.
    pub fn dispatch_context(&self, serial: &mut SerialClient)
        ensures
            final(serial)@ == old(serial)@ + self@.dispatch(),
    {
        if self.hot {
            match self.state {
                Context::Off => serial.switch_off(self.alias.as_str()),
                Context::On => serial.switch_on(self.alias.as_str()),
            }
            assert(serial@ =~= old(serial)@ + self@.dispatch());
        } else {
            assert(serial@ =~= old(serial)@ + self@.dispatch());
        }
    }

    /// From now on the gateway is told; it learns the current state at once.
    pub fn make_hot(&mut self, serial: &mut SerialClient)
        ensures
            final(self)@ == old(self)@.make_hot(),
            final(serial)@ == old(serial)@.push(old(self)@.command()),
    {
        self.hot = true;
        self.dispatch_context(serial);
        assert(serial@ =~= old(serial)@.push(old(self)@.command()));
    }

    /// Announces the event `context` at `ts`. An `On` is remembered; an `Off`
    /// after the remembered `On` makes the two a pending pair; any other `Off`
    /// is dropped.
    pub fn hint(&mut self, ts: &Timespec, context: &Context)
        ensures
            final(self)@ == old(self)@.hint(*ts, *context),
    {
        match *context {
            Context::On => {
                self.last_on = *ts;
            },
            Context::Off => {
                let zero = Timespec::epoch();
                if self.last_on.is_before(ts) && self.last_on != zero {
                    self.valid_events.insert(self.last_on, Context::On);
                    self.valid_events.insert(*ts, Context::Off);
                }
            },
        }
    }

    /// Fires the event `context` at `ts` if it is pending: the state becomes
    /// `context`, the gateway is told if the switch is hot, and the events at
    /// `ts` and earlier are dropped. An event that is not pending changes
    /// nothing.
    pub fn kick(&mut self, ts: &Timespec, context: &Context, serial: &mut SerialClient)
        ensures
            final(self)@ == old(self)@.kick(*ts, *context),
            final(serial)@ == old(serial)@ + old(self)@.kick_commands(*ts, *context),
    {
        if self.valid_events.contains_key(ts) {
            self.set_switch_state(*context, serial);
            self.valid_events.remove_through(ts);
        } else {
            assert(serial@ =~= old(serial)@ + old(self)@.kick_commands(*ts, *context));
        }
    }
}

/// Whenever an announcement changes the pending events, it adds one pair: an
/// `On` at the remembered moment and an `Off` at the announced moment, and the
/// `On` lies strictly before the `Off`.
pub proof fn lemma_hint_pairs_are_ordered(s: SwitchView, ts: Timespec, context: Context)
    ensures
        s.hint(ts, context).events == s.events || (context == Context::Off && s.last_on.before(ts)
            && s.hint(ts, context).events == s.events.insert(s.last_on, Context::On).insert(
            ts,
            Context::Off,
        )),
{
}

/// After an event fired at `ts`, every pending event lies strictly after `ts`.
pub proof fn lemma_kick_clears_through(s: SwitchView, ts: Timespec, context: Context)
    requires
        s.fires(ts),
    ensures
        forall|k: Timespec| s.kick(ts, context).events.contains_key(k) ==> ts.before(k),
        !s.kick(ts, context).events.contains_key(ts),
{
}

/// After an event fired, the switch is in the state that the event asked for.
pub proof fn lemma_kick_sets_state(s: SwitchView, ts: Timespec, context: Context)
    requires
        s.fires(ts),
    ensures
        s.kick(ts, context).state == context,
{
}

} // verus!
