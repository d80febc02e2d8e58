//! What the supervisor says to the outside: states by name, and the status
//! of a switch with its moments in writing.

use vstd::prelude::*;
use crate::event_map::EventMap;
use crate::timespec::Timespec;
use crate::tracker::Context;

verus! {

/// The moment `ts` as the `time` crate writes it by RFC 3339, in UTC.
pub uninterp spec fn rfc3339_text(ts: Timespec) -> Seq<char>;

/// Writes a moment with `time::at_utc` and `Tm::rfc3339`. The first breaks
/// the moment down by the calendar; it fails for a year that does not fit
/// its fields, and on some machines for a moment before their calendar
/// begins, neither of which happens in the years 1970 to 9999. The second
/// prints the year, month, day, hour, minute and second and, for UTC, a `Z`.
/// What is written depends on the moment alone.
#[verifier::external_body]
fn rfc3339(ts: &Timespec) -> (text: String)
    requires
        ts.printable(),
    ensures
        text@ == rfc3339_text(*ts),
{
    format!("{}", time::at_utc(time::Timespec { sec: ts.sec, nsec: ts.nsec }).rfc3339())
}

/// The status of a switch, ready to be written down.
#[derive(Debug, PartialEq, Eq)]
pub struct GetResult {
    /// The relay is on.
    pub switch: bool,
    /// The pending events in the order of their moments: each moment in
    /// writing, and whether the relay is on from then.
    pub next_events: Vec<(String, bool)>,
}

/// The state that `name` names: `on` or `off`.
pub fn state_of(name: &str) -> (state: Option<Context>)
    ensures
        state == (if name@ == "off"@ {
            Some(Context::Off)
        } else if name@ == "on"@ {
            Some(Context::On)
        } else {
            None
        }),
{
    if name.to_owned() == "off".to_owned() {
        Some(Context::Off)
    } else if name.to_owned() == "on".to_owned() {
        Some(Context::On)
    } else {
        None
    }
}

/// The relay is asked to be on.
pub fn is_on(state: Context) -> (on: bool)
    ensures
        on == (state == Context::On),
{
    match state {
        Context::On => true,
        Context::Off => false,
    }
}

/// Every moment of `list` is printable.
pub open spec fn all_printable(list: Seq<(Timespec, Context)>) -> bool {
    forall|i: int| 0 <= i < list.len() ==> (#[trigger] list[i]).0.printable()
}

/// Puts the status of a switch in writing: whether it is on, and its pending
/// events in their order. Nothing is written if a moment is not printable:
/// the switch is there, but its status cannot be put in writing.
pub fn get_result(state: Context, events: &EventMap) -> (result: Option<GetResult>)
    ensures
        result is Some <==> all_printable(events.entries()),
        result matches Some(r) ==> {
            &&& r.switch == (state == Context::On)
            &&& r.next_events@.len() == events.entries().len()
            &&& forall|i: int|
                0 <= i < r.next_events@.len() ==> (#[trigger] r.next_events@[i]).0@
                    == rfc3339_text(events.entries()[i].0) && r.next_events@[i].1 == (
                events.entries()[i].1 == Context::On)
        },
{
    let list = events.to_vec();
    let mut next_events: Vec<(String, bool)> = Vec::new();
    let mut i: usize = 0;
    while i < list.len()
        invariant
            list@ == events.entries(),
            i <= list@.len(),
            next_events@.len() == i,
            forall|k: int| 0 <= k < i ==> (#[trigger] list@[k]).0.printable(),
            forall|k: int|
                0 <= k < i ==> (#[trigger] next_events@[k]).0@ == rfc3339_text(list@[k].0)
                    && next_events@[k].1 == (list@[k].1 == Context::On),
        decreases list@.len() - i,
    {
        let (ts, context) = list[i];
        if !ts.is_printable() {
            assert(!list@[i as int].0.printable());
            return None;
        }
        next_events.push((rfc3339(&ts), is_on(context)));
        i += 1;
    }
    Some(GetResult { switch: is_on(state), next_events })
}

} // verus!
