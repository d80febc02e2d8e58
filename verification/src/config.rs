//! The configuration of the supervisor: the gateway device, the position on
//! earth, and the circles with their daily toggles.

use vstd::prelude::*;
use vstd::string::StrSliceExecFns;
use crate::document::{lift, node_of, parse_toml, toml_document, Node};
use crate::timespec::{Timespec, DAY};

verus! {

/// A daily event, to be resolved into a moment for each day.
#[derive(Debug, Clone, Copy, PartialEq, Eq)]
pub enum Event {
    /// At the local time (hour, minute).
    Fixed(u8, u8),
    /// At a drawn second between two local times, the second one excluded.
    Fuzzy((u8, u8), (u8, u8)),
    /// Halfway between civil dawn and sunrise, give or take as many minutes.
    Sunrise(u16),
    /// Halfway between sunset and civil dusk, give or take as many minutes.
    Sunset(u16),
}

/// The twilight moments of one day at one place.
#[derive(Debug, Clone, Copy, PartialEq, Eq, Structural)]
pub struct Daylight {
    pub twilight_morning: Timespec,
    pub sunrise: Timespec,
    pub sunset: Timespec,
    pub twilight_evening: Timespec,
}

/// What resolving the events of one day needs to know of that day: how far
/// local time is ahead of UTC, in seconds, and the day's twilight moments.
#[derive(Debug, Clone, Copy, PartialEq, Eq, Structural)]
pub struct DayInfo {
    pub utc_offset: i32,
    pub daylight: Daylight,
}

impl DayInfo {
    /// The twilight moments are within the horizon of the day arithmetic.
    pub open spec fn in_range(self) -> bool {
        &&& self.daylight.twilight_morning.in_range()
        &&& self.daylight.sunrise.in_range()
        &&& self.daylight.sunset.in_range()
        &&& self.daylight.twilight_evening.in_range()
    }

    pub fn is_in_range(&self) -> (r: bool)
        ensures
            r == self.in_range(),
    {
        within_horizon(self.daylight.twilight_morning.sec) && within_horizon(
            self.daylight.sunrise.sec,
        ) && within_horizon(self.daylight.sunset.sec) && within_horizon(
            self.daylight.twilight_evening.sec,
        )
    }
}

fn within_horizon(sec: i64) -> (r: bool)
    ensures
        r == (-crate::timespec::HORIZON <= sec <= crate::timespec::HORIZON),
{
    -crate::timespec::HORIZON <= sec && sec <= crate::timespec::HORIZON
}

/// A pair of daily events: the relay is on from `start` to `end`.
#[derive(Debug, PartialEq, Eq)]
pub struct Toggle {
    pub alias: String,
    pub start: Event,
    pub end: Event,
}

/// What a circle does by default.
#[derive(Debug, Clone, Copy, PartialEq, Eq, Structural)]
pub enum CircleSetting {
    /// Off, whatever its toggles say.
    Off,
    /// On, whatever its toggles say.
    On,
    /// As its toggles say.
    Schedule,
}

/// A relay module: its name, its address, and what it does.
#[derive(Debug, PartialEq, Eq)]
pub struct Circle {
    pub alias: String,
    pub mac: u64,
    pub default: CircleSetting,
    pub toggles: Vec<Toggle>,
}

/// An angle in degrees, held as the bit pattern of a binary64 number. The
/// supervisor stores positions and hands them on; it never computes with them.
#[derive(Debug, Clone, Copy, PartialEq, Eq, Structural)]
pub struct Degrees {
    pub bits: u64,
}

/// Where the gateway is attached, where on earth the relays are, and which
/// server tells the time.
#[derive(Debug, PartialEq, Eq)]
pub struct Device {
    pub serial_device: Option<String>,
    pub latitude: Degrees,
    pub longitude: Degrees,
    pub ntp_server: String,
}

/// All that the supervisor is told at its start.
#[derive(Debug, PartialEq, Eq)]
pub struct Config {
    pub device: Device,
    pub circles: Vec<Circle>,
}

impl Toggle {
    pub open spec fn valid(self) -> bool {
        self.start.valid() && self.end.valid()
    }
}

impl Circle {
    /// Every toggle has valid events.
    pub open spec fn valid(self) -> bool {
        forall|i: int| 0 <= i < self.toggles@.len() ==> (#[trigger] self.toggles@[i]).valid()
    }

    pub fn is_valid(&self) -> (r: bool)
        ensures
            r == self.valid(),
    {
        let mut i: usize = 0;
        while i < self.toggles.len()
            invariant
                i <= self.toggles@.len(),
                forall|k: int| 0 <= k < i ==> (#[trigger] self.toggles@[k]).valid(),
            decreases self.toggles@.len() - i,
        {
            if !(self.toggles[i].start.is_valid() && self.toggles[i].end.is_valid()) {
                return false;
            }
            i += 1;
        }
        true
    }
}

/// No two of the circles have the same name.
pub open spec fn distinct(circles: Seq<Circle>) -> bool {
    forall|i: int, j: int|
        0 <= i < j < circles.len() ==> (#[trigger] circles[i]).alias@ != (#[trigger] circles[j]).alias@
}

impl Config {
    /// Every circle is valid.
    pub open spec fn valid(self) -> bool {
        forall|i: int| 0 <= i < self.circles@.len() ==> (#[trigger] self.circles@[i]).valid()
    }

    /// No two circles have the same name.
    pub open spec fn distinct(self) -> bool {
        distinct(self.circles@)
    }

    pub fn has_distinct_aliases(&self) -> (r: bool)
        ensures
            r == self.distinct(),
    {
        let mut j: usize = 0;
        while j < self.circles.len()
            invariant
                j <= self.circles@.len(),
                forall|a: int, b: int|
                    0 <= a < b < j ==> (#[trigger] self.circles@[a]).alias@ != (
                    #[trigger] self.circles@[b]).alias@,
            decreases self.circles@.len() - j,
        {
            let mut i: usize = 0;
            while i < j
                invariant
                    i <= j < self.circles@.len(),
                    forall|a: int|
                        0 <= a < i ==> (#[trigger] self.circles@[a]).alias@
                            != self.circles@[j as int].alias@,
                decreases j - i,
            {
                if self.circles[i].alias == self.circles[j].alias {
                    return false;
                }
                i += 1;
            }
            j += 1;
        }
        true
    }

    pub fn is_valid(&self) -> (r: bool)
        ensures
            r == self.valid(),
    {
        let mut i: usize = 0;
        while i < self.circles.len()
            invariant
                i <= self.circles@.len(),
                forall|k: int| 0 <= k < i ==> (#[trigger] self.circles@[k]).valid(),
            decreases self.circles@.len() - i,
        {
            if !self.circles[i].is_valid() {
                return false;
            }
            i += 1;
        }
        true
    }
}

/// Why a configuration is refused.
#[derive(Debug, PartialEq, Eq)]
pub enum Error {
    /// The configuration could not be read; the words of the failure.
    Io(String),
    /// The key of an event names no kind of event.
    MissingEventSpecifier(String),
    /// The value of an event does not fit its kind; what was expected.
    WrongEventSpecifier(String),
    /// The toggle of this name has no start.
    MissingStartEvent(String),
    /// The toggle of this name has no end.
    MissingEndEvent(String),
    /// A key of the circle of this name holds no toggle.
    ScheduleExpected(String),
    /// The circle of this name has no address in hex.
    InvalidMac(String),
    /// The circle of this name has no default of `off`, `on` or `schedule`.
    InvalidDefault(String),
    /// There is no section `config`.
    MissingConfig,
    /// The section `config` names no time server.
    MissingNTP,
    /// The section `config` lacks the latitude or the longitude.
    LocationMissing,
    /// The text is no TOML document.
    InvalidToml,
}

impl Error {
    /// What is wrong, in words: for `Io` the words of the failure, for
    /// everything else one sentence.
    pub fn description(&self) -> (text: String)
        ensures
            text@ == (match *self {
                Error::Io(words) => words@,
                _ => "Keeper configuration error"@,
            }),
    {
        match self {
            Error::Io(words) => words.clone(),
            _ => "Keeper configuration error".to_owned(),
        }
    }
}

/// An `Error` with its strings as sequences of characters.
pub enum ErrorView {
    Io(Seq<char>),
    MissingEventSpecifier(Seq<char>),
    WrongEventSpecifier(Seq<char>),
    MissingStartEvent(Seq<char>),
    MissingEndEvent(Seq<char>),
    ScheduleExpected(Seq<char>),
    InvalidMac(Seq<char>),
    InvalidDefault(Seq<char>),
    MissingConfig,
    MissingNTP,
    LocationMissing,
    InvalidToml,
}

impl View for Error {
    type V = ErrorView;

    open spec fn view(&self) -> ErrorView {
        match *self {
            Error::Io(s) => ErrorView::Io(s@),
            Error::MissingEventSpecifier(s) => ErrorView::MissingEventSpecifier(s@),
            Error::WrongEventSpecifier(s) => ErrorView::WrongEventSpecifier(s@),
            Error::MissingStartEvent(s) => ErrorView::MissingStartEvent(s@),
            Error::MissingEndEvent(s) => ErrorView::MissingEndEvent(s@),
            Error::ScheduleExpected(s) => ErrorView::ScheduleExpected(s@),
            Error::InvalidMac(s) => ErrorView::InvalidMac(s@),
            Error::InvalidDefault(s) => ErrorView::InvalidDefault(s@),
            Error::MissingConfig => ErrorView::MissingConfig,
            Error::MissingNTP => ErrorView::MissingNTP,
            Error::LocationMissing => ErrorView::LocationMissing,
            Error::InvalidToml => ErrorView::InvalidToml,
        }
    }
}

/// A `Toggle` with its name as a sequence of characters.
pub struct ToggleView {
    pub alias: Seq<char>,
    pub start: Event,
    pub end: Event,
}

impl View for Toggle {
    type V = ToggleView;

    open spec fn view(&self) -> ToggleView {
        ToggleView { alias: self.alias@, start: self.start, end: self.end }
    }
}

/// A `Circle` as a mathematical value.
pub struct CircleView {
    pub alias: Seq<char>,
    pub mac: u64,
    pub default: CircleSetting,
    pub toggles: Seq<ToggleView>,
}

impl View for Circle {
    type V = CircleView;

    open spec fn view(&self) -> CircleView {
        CircleView {
            alias: self.alias@,
            mac: self.mac,
            default: self.default,
            toggles: self.toggles@.map_values(|t: Toggle| t@),
        }
    }
}

/// A `Device` as a mathematical value.
pub struct DeviceView {
    pub serial_device: Option<Seq<char>>,
    pub latitude: Degrees,
    pub longitude: Degrees,
    pub ntp_server: Seq<char>,
}

impl View for Device {
    type V = DeviceView;

    open spec fn view(&self) -> DeviceView {
        DeviceView {
            serial_device: match self.serial_device {
                Some(d) => Some(d@),
                None => None,
            },
            latitude: self.latitude,
            longitude: self.longitude,
            ntp_server: self.ntp_server@,
        }
    }
}

/// A `Config` as a mathematical value.
pub struct ConfigView {
    pub device: DeviceView,
    pub circles: Seq<CircleView>,
}

impl View for Config {
    type V = ConfigView;

    open spec fn view(&self) -> ConfigView {
        ConfigView { device: self.device@, circles: self.circles@.map_values(|c: Circle| c@) }
    }
}

/// A result with what it holds as a mathematical value.
pub open spec fn views_of<T: View, E: View>(r: Result<T, E>) -> Result<T::V, E::V> {
    match r {
        Ok(t) => Ok(t@),
        Err(e) => Err(e@),
    }
}

/// The index behind the last underscore of `key`; zero if it has none.
pub open spec fn cut(key: Seq<char>) -> int
    decreases key.len(),
{
    if key.len() == 0 {
        0
    } else if key.last() == '_' {
        key.len() as int
    } else {
        cut(key.drop_last())
    }
}

/// The part of `key` behind its last underscore: the kind of an event.
pub open spec fn specifier(key: Seq<char>) -> Seq<char> {
    key.skip(cut(key))
}

/// The integers among `items`, in their order.
pub open spec fn integers(items: Seq<Node>) -> Seq<i64>
    decreases items.len(),
{
    if items.len() == 0 {
        Seq::empty()
    } else {
        match items.last() {
            Node::Integer(i) => integers(items.drop_last()).push(i),
            _ => integers(items.drop_last()),
        }
    }
}

/// The time of day that `node` spells: an array whose integers are an hour
/// and a minute.
pub open spec fn time_of(node: Node) -> Option<(u8, u8)> {
    match node {
        Node::Array(items) => {
            let found = integers(items@);
            if found.len() == 2 && 0 <= found[0] < 24 && 0 <= found[1] < 60 {
                Some((found[0] as u8, found[1] as u8))
            } else {
                None
            }
        },
        _ => None,
    }
}

/// The fuzzy event that `node` spells: an array of two times of day, the
/// first before the second.
pub open spec fn fuzzy_of(node: Node) -> Option<Event> {
    match node {
        Node::Array(items) => if items@.len() == 2 {
            match (time_of(items@[0]), time_of(items@[1])) {
                (Some(from), Some(to)) => if seconds_into_day(from) < seconds_into_day(to) {
                    Some(Event::Fuzzy(from, to))
                } else {
                    None
                },
                _ => None,
            }
        } else {
            None
        },
        _ => None,
    }
}

/// The event that the entry `key = node` of a toggle spells. The kind of the
/// event is the part of the key behind its last underscore.
pub open spec fn event_of(key: Seq<char>, node: Node) -> Result<Event, ErrorView> {
    let kind = specifier(key);
    if kind == "fixed"@ {
        match time_of(node) {
            Some((h, m)) => Ok(Event::Fixed(h, m)),
            None => Err(ErrorView::WrongEventSpecifier("fixed must hold a array of two integers"@)),
        }
    } else if kind == "fuzzy"@ {
        match fuzzy_of(node) {
            Some(e) => Ok(e),
            None => Err(
                ErrorView::WrongEventSpecifier(
                    "fuzzy must hold a array of two arrays of two integers"@,
                ),
            ),
        }
    } else if kind == "sunrise"@ {
        match node {
            Node::Integer(i) => Ok(Event::Sunrise(i as u16)),
            _ => Err(
                ErrorView::WrongEventSpecifier(
                    "sunrise must only hold one integer (variance in minutes)"@,
                ),
            ),
        }
    } else if kind == "sunset"@ {
        match node {
            Node::Integer(i) => Ok(Event::Sunset(i as u16)),
            _ => Err(
                ErrorView::WrongEventSpecifier(
                    "sunset must only hold one integer (variance in minutes)"@,
                ),
            ),
        }
    } else {
        Err(ErrorView::WrongEventSpecifier("unsupported specifier"@))
    }
}

/// The index of the first entry of `table` whose key begins with `prefix`.
pub open spec fn first_with_prefix(table: Seq<(String, Node)>, prefix: Seq<char>) -> Option<int>
    decreases table.len(),
{
    if table.len() == 0 {
        None
    } else {
        match first_with_prefix(table.drop_last(), prefix) {
            Some(i) => Some(i),
            None => if prefix.is_prefix_of(table.last().0@) {
                Some(table.len() - 1)
            } else {
                None
            },
        }
    }
}

/// The toggle `alias` that `table` spells: its start is the first entry whose
/// key begins with `start_`, its end the first whose key begins with `end_`.
pub open spec fn toggle_of(alias: Seq<char>, table: Seq<(String, Node)>) -> Result<
    ToggleView,
    ErrorView,
> {
    match first_with_prefix(table, "start_"@) {
        None => Err(ErrorView::MissingStartEvent(alias)),
        Some(i) => match event_of(table[i].0@, table[i].1) {
            Err(e) => Err(e),
            Ok(start) => match first_with_prefix(table, "end_"@) {
                None => Err(ErrorView::MissingEndEvent(alias)),
                Some(j) => match event_of(table[j].0@, table[j].1) {
                    Err(e) => Err(e),
                    Ok(end) => Ok(ToggleView { alias, start, end }),
                },
            },
        },
    }
}

/// The value of a hexadecimal digit.
pub open spec fn hex_digit(c: char) -> Option<int> {
    if '0' <= c <= '9' {
        Some(c as int - '0' as int)
    } else if 'a' <= c <= 'f' {
        Some(c as int - 'a' as int + 10)
    } else if 'A' <= c <= 'F' {
        Some(c as int - 'A' as int + 10)
    } else {
        None
    }
}

/// The number that `digits` spell in base 16, if all of them are digits.
pub open spec fn hex_value(digits: Seq<char>) -> Option<int>
    decreases digits.len(),
{
    if digits.len() == 0 {
        Some(0)
    } else {
        match (hex_value(digits.drop_last()), hex_digit(digits.last())) {
            (Some(v), Some(d)) => Some(16 * v + d),
            _ => None,
        }
    }
}

/// The address that `text` spells: one hexadecimal digit or more, after a
/// plus sign or without, with a value that fits 64 bits.
pub open spec fn mac_of_text(text: Seq<char>) -> Option<u64> {
    let digits = if text.len() > 0 && text[0] == '+' {
        text.skip(1)
    } else {
        text
    };
    if digits.len() == 0 {
        None
    } else {
        match hex_value(digits) {
            Some(v) => if v <= u64::MAX {
                Some(v as u64)
            } else {
                None
            },
            None => None,
        }
    }
}

/// The setting that `text` names.
pub open spec fn setting_of(text: Seq<char>) -> Option<CircleSetting> {
    if text == "off"@ {
        Some(CircleSetting::Off)
    } else if text == "on"@ {
        Some(CircleSetting::On)
    } else if text == "schedule"@ {
        Some(CircleSetting::Schedule)
    } else {
        None
    }
}

/// What was gathered of a circle from the entries of its table.
pub struct CircleParts {
    pub mac: Option<u64>,
    pub default: Option<CircleSetting>,
    pub toggles: Seq<ToggleView>,
}

/// What the entries of `table` tell of the circle `alias`, read in their
/// order: `mac` is its address, `default` its setting, and every other key
/// names a toggle, which has to be a table. The first entry that is refused
/// refuses the circle.
pub open spec fn circle_parts(alias: Seq<char>, table: Seq<(String, Node)>) -> Result<
    CircleParts,
    ErrorView,
>
    decreases table.len(),
{
    if table.len() == 0 {
        Ok(CircleParts { mac: None, default: None, toggles: Seq::empty() })
    } else {
        match circle_parts(alias, table.drop_last()) {
            Err(e) => Err(e),
            Ok(parts) => {
                let key = table.last().0@;
                let node = table.last().1;
                if key == "mac"@ {
                    Ok(
                        CircleParts {
                            mac: match node {
                                Node::Text(t) => mac_of_text(t@),
                                _ => None,
                            },
                            ..parts
                        },
                    )
                } else if key == "default"@ {
                    Ok(
                        CircleParts {
                            default: match node {
                                Node::Text(t) => setting_of(t@),
                                _ => None,
                            },
                            ..parts
                        },
                    )
                } else {
                    match node {
                        Node::Table(t) => match toggle_of(key, t@) {
                            Ok(toggle) => Ok(
                                CircleParts { toggles: parts.toggles.push(toggle), ..parts },
                            ),
                            Err(e) => Err(e),
                        },
                        _ => Err(ErrorView::ScheduleExpected(alias)),
                    }
                }
            },
        }
    }
}

/// The circle `alias` that `table` spells.
pub open spec fn circle_of(alias: Seq<char>, table: Seq<(String, Node)>) -> Result<
    CircleView,
    ErrorView,
> {
    match circle_parts(alias, table) {
        Err(e) => Err(e),
        Ok(parts) => match parts.mac {
            None => Err(ErrorView::InvalidMac(alias)),
            Some(mac) => match parts.default {
                None => Err(ErrorView::InvalidDefault(alias)),
                Some(default) => Ok(CircleView { alias, mac, default, toggles: parts.toggles }),
            },
        },
    }
}

/// The text of the last entry `key` of `table` that holds a text.
pub open spec fn text_at(table: Seq<(String, Node)>, key: Seq<char>) -> Option<Seq<char>>
    decreases table.len(),
{
    if table.len() == 0 {
        None
    } else {
        match table.last().1 {
            Node::Text(t) => if table.last().0@ == key {
                Some(t@)
            } else {
                text_at(table.drop_last(), key)
            },
            _ => text_at(table.drop_last(), key),
        }
    }
}

/// The float of the last entry `key` of `table` that holds a float.
pub open spec fn float_at(table: Seq<(String, Node)>, key: Seq<char>) -> Option<u64>
    decreases table.len(),
{
    if table.len() == 0 {
        None
    } else {
        match table.last().1 {
            Node::Float(bits) => if table.last().0@ == key {
                Some(bits)
            } else {
                float_at(table.drop_last(), key)
            },
            _ => float_at(table.drop_last(), key),
        }
    }
}

/// The device that the section `config` spells: `latitude` and `longitude`
/// are floats, `ntp` is a text, `device` is a text or is left out.
pub open spec fn device_of(table: Seq<(String, Node)>) -> Result<DeviceView, ErrorView> {
    match float_at(table, "latitude"@) {
        None => Err(ErrorView::LocationMissing),
        Some(latitude) => match float_at(table, "longitude"@) {
            None => Err(ErrorView::LocationMissing),
            Some(longitude) => match text_at(table, "ntp"@) {
                None => Err(ErrorView::MissingNTP),
                Some(ntp_server) => Ok(
                    DeviceView {
                        serial_device: text_at(table, "device"@),
                        latitude: Degrees { bits: latitude },
                        longitude: Degrees { bits: longitude },
                        ntp_server,
                    },
                ),
            },
        },
    }
}

/// What was gathered of a configuration from the sections of its document.
pub struct ConfigParts {
    pub device: Option<DeviceView>,
    pub circles: Seq<CircleView>,
}

/// What the entries of `document` tell, read in their order: the table
/// `config` is the device, every other table is a circle, and what is no
/// table is passed over. The first section that is refused refuses the
/// configuration.
pub open spec fn config_parts(document: Seq<(String, Node)>) -> Result<ConfigParts, ErrorView>
    decreases document.len(),
{
    if document.len() == 0 {
        Ok(ConfigParts { device: None, circles: Seq::empty() })
    } else {
        match config_parts(document.drop_last()) {
            Err(e) => Err(e),
            Ok(parts) => match document.last().1 {
                Node::Table(t) => if document.last().0@ == "config"@ {
                    match device_of(t@) {
                        Ok(device) => Ok(ConfigParts { device: Some(device), ..parts }),
                        Err(e) => Err(e),
                    }
                } else {
                    match circle_of(document.last().0@, t@) {
                        Ok(circle) => Ok(
                            ConfigParts { circles: parts.circles.push(circle), ..parts },
                        ),
                        Err(e) => Err(e),
                    }
                },
                _ => Ok(parts),
            },
        }
    }
}

/// The configuration that `document` spells.
pub open spec fn config_of(document: Seq<(String, Node)>) -> Result<ConfigView, ErrorView> {
    match config_parts(document) {
        Err(e) => Err(e),
        Ok(parts) => match parts.device {
            None => Err(ErrorView::MissingConfig),
            Some(device) => Ok(ConfigView { device, circles: parts.circles }),
        },
    }
}

/// The configuration that `text` spells as a TOML document.
pub open spec fn config_of_text(text: Seq<char>) -> Result<ConfigView, ErrorView> {
    match toml_document(text) {
        None => Err(ErrorView::InvalidToml),
        Some(value) => match node_of(value) {
            Node::Table(document) => config_of(document@),
            _ => Err(ErrorView::InvalidToml),
        },
    }
}

/// Two texts are the same.
fn same(a: &str, b: &str) -> (r: bool)
    ensures
        r == (a@ == b@),
{
    a.to_owned() == b.to_owned()
}

/// `key` begins with `prefix`.
fn begins_with(key: &str, prefix: &str) -> (r: bool)
    ensures
        r == prefix@.is_prefix_of(key@),
{
    let n = prefix.unicode_len();
    if key.unicode_len() < n {
        return false;
    }
    let head = key.substring_char(0, n);
    same(head, prefix)
}

/// The kind of event that `key` names, as a text of its own.
fn kind_of(key: &str) -> (kind: String)
    ensures
        kind@ == specifier(key@),
{
    let n = key.unicode_len();
    let mut p: usize = n;
    assert(key@.take(n as int) =~= key@);
    while p > 0 && key.get_char(p - 1) != '_'
        invariant
            n == key@.len(),
            p <= n,
            cut(key@) == cut(key@.take(p as int)),
        decreases p,
    {
        assert(key@.take(p as int).drop_last() =~= key@.take(p - 1));
        p -= 1;
    }
    proof {
        if p > 0 {
            assert(key@.take(p as int).last() == key@[p - 1]);
        }
        assert(key@.subrange(p as int, n as int) =~= key@.skip(p as int));
    }
    key.substring_char(p, n).to_owned()
}

/// The value of the hexadecimal digit `c`.
fn digit_of(c: char) -> (d: Option<u64>)
    ensures
        match hex_digit(c) {
            Some(v) => d == Some(v as u64) && v < 16,
            None => d is None,
        },
{
    let code: u32 = c as u32;
    if '0' <= c && c <= '9' {
        Some((code - '0' as u32) as u64)
    } else if 'a' <= c && c <= 'f' {
        Some((code - 'a' as u32 + 10) as u64)
    } else if 'A' <= c && c <= 'F' {
        Some((code - 'A' as u32 + 10) as u64)
    } else {
        None
    }
}

/// Digits that spell a number begin with digits that spell a number that is
/// no larger.
proof fn lemma_hex_grows(digits: Seq<char>, k: int)
    requires
        0 <= k <= digits.len(),
        hex_value(digits) is Some,
    ensures
        hex_value(digits.take(k)) is Some,
        0 <= hex_value(digits.take(k))->0 <= hex_value(digits)->0,
    decreases digits.len() - k,
{
    if k == digits.len() {
        assert(digits.take(k) =~= digits);
        lemma_hex_not_negative(digits);
    } else {
        lemma_hex_grows(digits, k + 1);
        assert(digits.take(k + 1).drop_last() =~= digits.take(k));
        lemma_hex_not_negative(digits.take(k));
    }
}

proof fn lemma_hex_not_negative(digits: Seq<char>)
    ensures
        hex_value(digits) matches Some(v) ==> v >= 0,
    decreases digits.len(),
{
    if digits.len() > 0 {
        lemma_hex_not_negative(digits.drop_last());
    }
}

/// Reads an address in hex.
pub fn parse_mac(text: &str) -> (mac: Option<u64>)
    ensures
        mac == mac_of_text(text@),
{
    let n = text.unicode_len();
    let start: usize = if n > 0 && text.get_char(0) == '+' {
        1
    } else {
        0
    };
    if start == n {
        return None;
    }
    let ghost digits = text@.skip(start as int);
    proof {
        if start == 0 {
            assert(digits =~= text@);
        }
    }
    let mut value: u64 = 0;
    let mut i: usize = start;
    assert(digits.take(0) =~= Seq::<char>::empty());
    while i < n
        invariant
            n == text@.len(),
            start <= i <= n,
            digits == text@.skip(start as int),
            digits.len() == n - start,
            mac_of_text(text@) == (match hex_value(digits) {
                Some(v) => if v <= u64::MAX {
                    Some(v as u64)
                } else {
                    None
                },
                None => None,
            }),
            hex_value(digits.take(i - start)) == Some(value as int),
        decreases n - i,
    {
        let c = text.get_char(i);
        proof {
            assert(digits.take(i - start + 1).drop_last() =~= digits.take(i - start));
            assert(digits.take(i - start + 1).last() == c);
        }
        match digit_of(c) {
            None => {
                proof {
                    assert(hex_value(digits.take(i - start + 1)) is None);
                    if hex_value(digits) is Some {
                        lemma_hex_grows(digits, i - start + 1);
                    }
                }
                return None;
            },
            Some(d) => {
                if value > (u64::MAX - d) / 16 {
                    proof {
                        assert(hex_value(digits.take(i - start + 1)) == Some(16 * value + d));
                        if hex_value(digits) is Some {
                            lemma_hex_grows(digits, i - start + 1);
                        }
                    }
                    return None;
                }
                value = value * 16 + d;
            },
        }
        i += 1;
    }
    assert(digits.take(n - start) =~= digits);
    Some(value)
}

impl CircleSetting {
    /// The setting that `setting_as_str` names: `off`, `on` or `schedule`.
    pub fn new(setting_as_str: &str) -> (setting: Option<CircleSetting>)
        ensures
            setting == setting_of(setting_as_str@),
    {
        if same(setting_as_str, "off") {
            Some(CircleSetting::Off)
        } else if same(setting_as_str, "on") {
            Some(CircleSetting::On)
        } else if same(setting_as_str, "schedule") {
            Some(CircleSetting::Schedule)
        } else {
            None
        }
    }
}

impl Event {
    /// Reads a time of day: an array that holds, besides what is no
    /// integer, an hour below 24 and a minute below 60.
    pub fn time_in_a_day(value: &Node) -> (time: Option<(u8, u8)>)
        ensures
            time == time_of(*value),
            time matches Some(t) ==> valid_time(t),
    {
        match value {
            Node::Array(items) => {
                let mut found: Vec<i64> = Vec::new();
                let mut i: usize = 0;
                assert(items@.take(0) =~= Seq::<Node>::empty());
                while i < items.len()
                    invariant
                        i <= items@.len(),
                        found@ == integers(items@.take(i as int)),
                    decreases items@.len() - i,
                {
                    proof {
                        assert(items@.take(i + 1).drop_last() =~= items@.take(i as int));
                        assert(items@.take(i + 1).last() == items@[i as int]);
                    }
                    match &items[i] {
                        Node::Integer(v) => {
                            found.push(*v);
                        },
                        _ => {},
                    }
                    i += 1;
                }
                assert(items@.take(i as int) =~= items@);
                if found.len() == 2 && 0 <= found[0] && found[0] < 24 && 0 <= found[1] && found[1]
                    < 60 {
                    Some((found[0] as u8, found[1] as u8))
                } else {
                    None
                }
            },
            _ => None,
        }
    }

    /// Reads a fuzzy window: an array of two times of day, the first before
    /// the second.
    fn fuzzy(value: &Node) -> (event: Option<Event>)
        ensures
            event == fuzzy_of(*value),
            event matches Some(e) ==> e.valid(),
    {
        match value {
            Node::Array(items) => {
                if items.len() != 2 {
                    return None;
                }
                match (Event::time_in_a_day(&items[0]), Event::time_in_a_day(&items[1])) {
                    (Some(from), Some(to)) => {
                        if from.0 < to.0 || (from.0 == to.0 && from.1 < to.1) {
                            Some(Event::Fuzzy(from, to))
                        } else {
                            None
                        }
                    },
                    _ => None,
                }
            },
            _ => None,
        }
    }

    /// Reads the event of the entry `key = value` of a toggle. The part of
    /// the key behind its last underscore says what kind of event it is:
    /// `fixed`, `fuzzy`, `sunrise` or `sunset`.
    pub fn new(key: &str, value: &Node) -> (event: Result<Event, Error>)
        ensures
            match event_of(key@, *value) {
                Ok(e) => event == Ok::<Event, Error>(e),
                Err(why) => event matches Err(e) && e@ == why,
            },
            event matches Ok(e) ==> e.valid(),
    {
        let kind = kind_of(key);
        if same(kind.as_str(), "fixed") {
            match Event::time_in_a_day(value) {
                Some((h, m)) => Ok(Event::Fixed(h, m)),
                None => Err(
                    Error::WrongEventSpecifier(
                        "fixed must hold a array of two integers".to_owned(),
                    ),
                ),
            }
        } else if same(kind.as_str(), "fuzzy") {
            match Event::fuzzy(value) {
                Some(e) => Ok(e),
                None => Err(
                    Error::WrongEventSpecifier(
                        "fuzzy must hold a array of two arrays of two integers".to_owned(),
                    ),
                ),
            }
        } else if same(kind.as_str(), "sunrise") {
            match value {
                Node::Integer(i) => Ok(Event::Sunrise(#[verifier::truncate] (*i as u16))),
                _ => Err(
                    Error::WrongEventSpecifier(
                        "sunrise must only hold one integer (variance in minutes)".to_owned(),
                    ),
                ),
            }
        } else if same(kind.as_str(), "sunset") {
            match value {
                Node::Integer(i) => Ok(Event::Sunset(#[verifier::truncate] (*i as u16))),
                _ => Err(
                    Error::WrongEventSpecifier(
                        "sunset must only hold one integer (variance in minutes)".to_owned(),
                    ),
                ),
            }
        } else {
            Err(Error::WrongEventSpecifier("unsupported specifier".to_owned()))
        }
    }
}

/// A prefix that is found among the first entries is found at the same place
/// among all of them.
proof fn lemma_first_with_prefix(table: Seq<(String, Node)>, prefix: Seq<char>, k: int)
    requires
        0 <= k <= table.len(),
        first_with_prefix(table.take(k), prefix) is Some,
    ensures
        first_with_prefix(table, prefix) == first_with_prefix(table.take(k), prefix),
    decreases table.len() - k,
{
    if k < table.len() {
        assert(table.take(k + 1).drop_last() =~= table.take(k));
        lemma_first_with_prefix(table, prefix, k + 1);
    } else {
        assert(table.take(k) =~= table);
    }
}

/// A circle that is refused after its first entries is refused for the same
/// reason after all of them.
proof fn lemma_circle_refused(alias: Seq<char>, table: Seq<(String, Node)>, k: int)
    requires
        0 <= k <= table.len(),
        circle_parts(alias, table.take(k)) is Err,
    ensures
        circle_parts(alias, table) == circle_parts(alias, table.take(k)),
    decreases table.len() - k,
{
    if k < table.len() {
        assert(table.take(k + 1).drop_last() =~= table.take(k));
        lemma_circle_refused(alias, table, k + 1);
    } else {
        assert(table.take(k) =~= table);
    }
}

/// A configuration that is refused after its first sections is refused for
/// the same reason after all of them.
proof fn lemma_config_refused(document: Seq<(String, Node)>, k: int)
    requires
        0 <= k <= document.len(),
        config_parts(document.take(k)) is Err,
    ensures
        config_parts(document) == config_parts(document.take(k)),
    decreases document.len() - k,
{
    if k < document.len() {
        assert(document.take(k + 1).drop_last() =~= document.take(k));
        lemma_config_refused(document, k + 1);
    } else {
        assert(document.take(k) =~= document);
    }
}

/// The index of the first entry whose key begins with `prefix`.
fn find_prefix(table: &Vec<(String, Node)>, prefix: &str) -> (found: Option<usize>)
    ensures
        match found {
            Some(i) => first_with_prefix(table@, prefix@) == Some(i as int) && i < table@.len(),
            None => first_with_prefix(table@, prefix@) is None,
        },
{
    let mut i: usize = 0;
    assert(table@.take(0) =~= Seq::<(String, Node)>::empty());
    while i < table.len()
        invariant
            i <= table@.len(),
            first_with_prefix(table@.take(i as int), prefix@) is None,
        decreases table@.len() - i,
    {
        proof {
            assert(table@.take(i + 1).drop_last() =~= table@.take(i as int));
            assert(table@.take(i + 1).last() == table@[i as int]);
        }
        if begins_with(table[i].0.as_str(), prefix) {
            proof {
                lemma_first_with_prefix(table@, prefix@, i + 1);
            }
            return Some(i);
        }
        i += 1;
    }
    assert(table@.take(i as int) =~= table@);
    None
}

impl Toggle {
    /// Reads the toggle `alias` from its table: the first key that begins
    /// with `start_` is its start, the first that begins with `end_` its end.
    pub fn new(alias: &str, table: &Vec<(String, Node)>) -> (toggle: Result<Toggle, Error>)
        ensures
            views_of(toggle) == toggle_of(alias@, table@),
            toggle matches Ok(t) ==> t.valid(),
    {
        let start = match find_prefix(table, "start_") {
            None => {
                return Err(Error::MissingStartEvent(alias.to_owned()));
            },
            Some(i) => match Event::new(table[i].0.as_str(), &table[i].1) {
                Err(e) => {
                    return Err(e);
                },
                Ok(start) => start,
            },
        };
        let end = match find_prefix(table, "end_") {
            None => {
                return Err(Error::MissingEndEvent(alias.to_owned()));
            },
            Some(j) => match Event::new(table[j].0.as_str(), &table[j].1) {
                Err(e) => {
                    return Err(e);
                },
                Ok(end) => end,
            },
        };
        Ok(Toggle { alias: alias.to_owned(), start, end })
    }
}

impl Circle {
    /// Reads the circle `alias` from its table: `mac` is its address in
    /// hex, `default` is `off`, `on` or `schedule`, and every other key names
    /// a toggle.
    pub fn new(alias: &str, table: &Vec<(String, Node)>) -> (circle: Result<Circle, Error>)
        ensures
            views_of(circle) == circle_of(alias@, table@),
            circle matches Ok(c) ==> c.valid(),
    {
        let mut mac: Option<u64> = None;
        let mut default: Option<CircleSetting> = None;
        let mut toggles: Vec<Toggle> = Vec::new();
        let mut i: usize = 0;
        assert(table@.take(0) =~= Seq::<(String, Node)>::empty());
        assert(toggles@.map_values(|t: Toggle| t@) =~= Seq::<ToggleView>::empty());
        while i < table.len()
            invariant
                i <= table@.len(),
                circle_parts(alias@, table@.take(i as int)) == Ok::<CircleParts, ErrorView>(
                    CircleParts { mac, default, toggles: toggles@.map_values(|t: Toggle| t@) },
                ),
                forall|k: int| 0 <= k < toggles@.len() ==> (#[trigger] toggles@[k]).valid(),
            decreases table@.len() - i,
        {
            proof {
                assert(table@.take(i + 1).drop_last() =~= table@.take(i as int));
                assert(table@.take(i + 1).last() == table@[i as int]);
            }
            let key = table[i].0.as_str();
            let node = &table[i].1;
            if same(key, "mac") {
                mac = match node {
                    Node::Text(t) => parse_mac(t.as_str()),
                    _ => None,
                };
            } else if same(key, "default") {
                default = match node {
                    Node::Text(t) => CircleSetting::new(t.as_str()),
                    _ => None,
                };
            } else {
                match node {
                    Node::Table(t) => match Toggle::new(key, t) {
                        Ok(toggle) => {
                            let ghost before = toggles@.map_values(|t: Toggle| t@);
                            toggles.push(toggle);
                            assert(toggles@.map_values(|t: Toggle| t@) =~= before.push(toggle@));
                        },
                        Err(e) => {
                            proof {
                                lemma_circle_refused(alias@, table@, i + 1);
                            }
                            return Err(e);
                        },
                    },
                    _ => {
                        proof {
                            lemma_circle_refused(alias@, table@, i + 1);
                        }
                        return Err(Error::ScheduleExpected(alias.to_owned()));
                    },
                }
            }
            i += 1;
        }
        assert(table@.take(i as int) =~= table@);
        match mac {
            None => Err(Error::InvalidMac(alias.to_owned())),
            Some(mac) => match default {
                None => Err(Error::InvalidDefault(alias.to_owned())),
                Some(default) => Ok(Circle { alias: alias.to_owned(), mac, default, toggles }),
            },
        }
    }
}

impl Device {
    /// Reads the device from the section `config`.
    pub fn new(table: &Vec<(String, Node)>) -> (device: Result<Device, Error>)
        ensures
            views_of(device) == device_of(table@),
    {
        let mut serial_device: Option<String> = None;
        let mut latitude: Option<u64> = None;
        let mut longitude: Option<u64> = None;
        let mut ntp: Option<String> = None;
        let mut i: usize = 0;
        assert(table@.take(0) =~= Seq::<(String, Node)>::empty());
        while i < table.len()
            invariant
                i <= table@.len(),
                latitude == float_at(table@.take(i as int), "latitude"@),
                longitude == float_at(table@.take(i as int), "longitude"@),
                match ntp {
                    Some(t) => text_at(table@.take(i as int), "ntp"@) == Some(t@),
                    None => text_at(table@.take(i as int), "ntp"@) is None,
                },
                match serial_device {
                    Some(t) => text_at(table@.take(i as int), "device"@) == Some(t@),
                    None => text_at(table@.take(i as int), "device"@) is None,
                },
            decreases table@.len() - i,
        {
            proof {
                assert(table@.take(i + 1).drop_last() =~= table@.take(i as int));
                assert(table@.take(i + 1).last() == table@[i as int]);
            }
            let key = table[i].0.as_str();
            match &table[i].1 {
                Node::Text(t) => {
                    if same(key, "device") {
                        serial_device = Some(t.clone());
                    }
                    if same(key, "ntp") {
                        ntp = Some(t.clone());
                    }
                },
                Node::Float(bits) => {
                    if same(key, "latitude") {
                        latitude = Some(*bits);
                    }
                    if same(key, "longitude") {
                        longitude = Some(*bits);
                    }
                },
                _ => {},
            }
            i += 1;
        }
        assert(table@.take(i as int) =~= table@);
        match latitude {
            None => Err(Error::LocationMissing),
            Some(latitude) => match longitude {
                None => Err(Error::LocationMissing),
                Some(longitude) => match ntp {
                    None => Err(Error::MissingNTP),
                    Some(ntp_server) => Ok(
                        Device {
                            serial_device,
                            latitude: Degrees { bits: latitude },
                            longitude: Degrees { bits: longitude },
                            ntp_server,
                        },
                    ),
                },
            },
        }
    }
}

impl Config {
    /// Reads the configuration from the top-level table of its document: the
    /// table `config` is the device, every other table is a circle.
    pub fn from_document(document: &Vec<(String, Node)>) -> (config: Result<Config, Error>)
        ensures
            views_of(config) == config_of(document@),
            config matches Ok(c) ==> c.valid(),
    {
        let mut device: Option<Device> = None;
        let mut circles: Vec<Circle> = Vec::new();
        let mut i: usize = 0;
        assert(document@.take(0) =~= Seq::<(String, Node)>::empty());
        assert(circles@.map_values(|c: Circle| c@) =~= Seq::<CircleView>::empty());
        while i < document.len()
            invariant
                i <= document@.len(),
                config_parts(document@.take(i as int)) == Ok::<ConfigParts, ErrorView>(
                    ConfigParts {
                        device: match device {
                            Some(d) => Some(d@),
                            None => None,
                        },
                        circles: circles@.map_values(|c: Circle| c@),
                    },
                ),
                forall|k: int| 0 <= k < circles@.len() ==> (#[trigger] circles@[k]).valid(),
            decreases document@.len() - i,
        {
            proof {
                assert(document@.take(i + 1).drop_last() =~= document@.take(i as int));
                assert(document@.take(i + 1).last() == document@[i as int]);
            }
            let key = document[i].0.as_str();
            match &document[i].1 {
                Node::Table(t) => {
                    if same(key, "config") {
                        match Device::new(t) {
                            Ok(d) => {
                                device = Some(d);
                            },
                            Err(e) => {
                                proof {
                                    lemma_config_refused(document@, i + 1);
                                }
                                return Err(e);
                            },
                        }
                    } else {
                        match Circle::new(key, t) {
                            Ok(c) => {
                                let ghost before = circles@.map_values(|c: Circle| c@);
                                circles.push(c);
                                assert(circles@.map_values(|c: Circle| c@) =~= before.push(c@));
                            },
                            Err(e) => {
                                proof {
                                    lemma_config_refused(document@, i + 1);
                                }
                                return Err(e);
                            },
                        }
                    }
                },
                _ => {},
            }
            i += 1;
        }
        assert(document@.take(i as int) =~= document@);
        match device {
            None => Err(Error::MissingConfig),
            Some(device) => Ok(Config { device, circles }),
        }
    }

    /// Reads the configuration from the text of a TOML document.
    pub fn new(text: &str) -> (config: Result<Config, Error>)
        ensures
            views_of(config) == config_of_text(text@),
            config matches Ok(c) ==> c.valid(),
    {
        match parse_toml(text) {
            None => Err(Error::InvalidToml),
            Some(value) => match lift(&value) {
                Node::Table(document) => Config::from_document(&document),
                _ => Err(Error::InvalidToml),
            },
        }
    }
}

/// A time of day is an hour below 24 and a minute below 60.
pub open spec fn valid_time(t: (u8, u8)) -> bool {
    t.0 < 24 && t.1 < 60
}

/// The seconds from local midnight to the time of day `t`.
pub open spec fn seconds_into_day(t: (u8, u8)) -> int {
    t.0 * 3600 + t.1 * 60
}

/// The moment halfway from `from` to `to`, in whole seconds, rounded towards
/// `from`.
pub open spec fn midpoint(from: int, to: int) -> int {
    if from <= to {
        from + (to - from) / 2
    } else {
        from - (from - to) / 2
    }
}

/// The jitter that `draw` stands for: a number of seconds between
/// `-60 * minutes` and `60 * minutes`, both included.
pub open spec fn jitter(minutes: u16, draw: u32) -> int {
    draw % ((120 * minutes + 1) as u32) - 60 * minutes
}

/// The whole second `sec` as a moment.
pub open spec fn at_second(sec: int) -> Timespec {
    Timespec { sec: sec as i64, nsec: 0 }
}

impl Event {
    /// The times of day are times of day, and a fuzzy window begins before
    /// it ends.
    pub open spec fn valid(self) -> bool {
        match self {
            Event::Fixed(h, m) => valid_time((h, m)),
            Event::Fuzzy(from, to) => valid_time(from) && valid_time(to) && seconds_into_day(from)
                < seconds_into_day(to),
            Event::Sunrise(_) => true,
            Event::Sunset(_) => true,
        }
    }

    /// The moment of this event on the day that starts at `day`.
    pub open spec fn resolved(self, day: Timespec, info: DayInfo, draw: u32) -> Timespec {
        match self {
            Event::Fixed(h, m) => at_second(day.sec + seconds_into_day((h, m)) - info.utc_offset),
            Event::Fuzzy(from, to) => at_second(
                day.sec + seconds_into_day(from) + draw % ((seconds_into_day(to)
                    - seconds_into_day(from)) as u32) - info.utc_offset,
            ),
            Event::Sunrise(minutes) => at_second(
                midpoint(
                    info.daylight.twilight_morning.sec as int,
                    info.daylight.sunrise.sec as int,
                ) + jitter(minutes, draw),
            ),
            Event::Sunset(minutes) => at_second(
                midpoint(info.daylight.sunset.sec as int, info.daylight.twilight_evening.sec as int)
                    + jitter(minutes, draw),
            ),
        }
    }

    pub fn is_valid(&self) -> (r: bool)
        ensures
            r == self.valid(),
    {
        match *self {
            Event::Fixed(h, m) => h < 24 && m < 60,
            Event::Fuzzy(from, to) => {
                from.0 < 24 && from.1 < 60 && to.0 < 24 && to.1 < 60 && (from.0 < to.0 || (from.0
                    == to.0 && from.1 < to.1))
            },
            Event::Sunrise(_) => true,
            Event::Sunset(_) => true,
        }
    }

    /// Resolves the event for the day that starts at `day`. A fixed event
    /// falls on its local time. A fuzzy event falls on a second of its
    /// window, picked by `draw`. A twilight event falls halfway through the
    /// twilight, moved by the jitter that `draw` picks.
    pub fn resolve(&self, day: &Timespec, info: &DayInfo, draw: u32) -> (ts: Timespec)
        requires
            self.valid(),
            day.within(2 * DAY),
            info.in_range(),
        ensures
            ts == self.resolved(*day, *info, draw),
            ts.nsec == 0,
    {
        match *self {
            Event::Fixed(h, m) => {
                let local: i64 = time_of_day(h, m);
                Timespec { sec: day.sec + local - info.utc_offset as i64, nsec: 0 }
            },
            Event::Fuzzy(from, to) => {
                let first: i64 = time_of_day(from.0, from.1);
                let end: i64 = time_of_day(to.0, to.1);
                let span: u32 = (end - first) as u32;
                let pick: i64 = (draw % span) as i64;
                Timespec { sec: day.sec + first + pick - info.utc_offset as i64, nsec: 0 }
            },
            Event::Sunrise(minutes) => {
                let base: i64 = halfway(
                    info.daylight.twilight_morning.sec,
                    info.daylight.sunrise.sec,
                );
                Timespec { sec: base + jitter_of(minutes, draw), nsec: 0 }
            },
            Event::Sunset(minutes) => {
                let base: i64 = halfway(
                    info.daylight.sunset.sec,
                    info.daylight.twilight_evening.sec,
                );
                Timespec { sec: base + jitter_of(minutes, draw), nsec: 0 }
            },
        }
    }
}

/// A fixed or fuzzy event falls within the local day: no earlier than local
/// midnight and less than a day after it. A twilight event falls within its
/// minutes of the middle of the twilight.
pub proof fn lemma_resolved_bounds(event: Event, day: Timespec, info: DayInfo, draw: u32)
    requires
        event.valid(),
        day.within(2 * DAY),
        info.in_range(),
    ensures
        event.resolved(day, info, draw).nsec == 0,
        event is Fixed || event is Fuzzy ==> day.sec - info.utc_offset <= event.resolved(
            day,
            info,
            draw,
        ).sec < day.sec - info.utc_offset + DAY,
        event matches Event::Sunrise(minutes) ==> {
            let middle = midpoint(
                info.daylight.twilight_morning.sec as int,
                info.daylight.sunrise.sec as int,
            );
            middle - 60 * minutes <= event.resolved(day, info, draw).sec <= middle + 60 * minutes
        },
        event matches Event::Sunset(minutes) ==> {
            let middle = midpoint(
                info.daylight.sunset.sec as int,
                info.daylight.twilight_evening.sec as int,
            );
            middle - 60 * minutes <= event.resolved(day, info, draw).sec <= middle + 60 * minutes
        },
{
}

fn time_of_day(h: u8, m: u8) -> (s: i64)
    ensures
        s == seconds_into_day((h, m)),
{
    h as i64 * 3600 + m as i64 * 60
}

fn halfway(from: i64, to: i64) -> (mid: i64)
    requires
        -crate::timespec::HORIZON <= from <= crate::timespec::HORIZON,
        -crate::timespec::HORIZON <= to <= crate::timespec::HORIZON,
    ensures
        mid == midpoint(from as int, to as int),
        -crate::timespec::HORIZON <= mid <= crate::timespec::HORIZON,
{
    if from <= to {
        from + (to - from) / 2
    } else {
        from - (from - to) / 2
    }
}

fn jitter_of(minutes: u16, draw: u32) -> (j: i64)
    ensures
        j == jitter(minutes, draw),
        -60 * minutes <= j <= 60 * minutes,
{
    let width: u32 = 120 * (minutes as u32) + 1;
    (draw % width) as i64 - 60 * (minutes as i64)
}

} // verus!
