use keeper::config::{
    parse_mac, Circle, CircleSetting, Config, DayInfo, Daylight, Degrees, Device, Error, Event,
    Toggle,
};
use keeper::document::Node;
use keeper::timespec::Timespec;

const DAY0: i64 = 1_717_200_000; // 2024-06-01T00:00:00Z

fn text(s: &str) -> Node {
    Node::Text(s.to_string())
}

fn time(h: i64, m: i64) -> Node {
    Node::Array(vec![Node::Integer(h), Node::Integer(m)])
}

fn entry(key: &str, node: Node) -> (String, Node) {
    (key.to_string(), node)
}

fn daylight() -> Daylight {
    Daylight {
        twilight_morning: Timespec::new(DAY0 + 2 * 3600 + 38 * 60 + 11, 0),
        sunrise: Timespec::new(DAY0 + 3 * 3600 + 24 * 60 + 30, 0),
        sunset: Timespec::new(DAY0 + 19 * 3600 + 50 * 60, 0),
        twilight_evening: Timespec::new(DAY0 + 20 * 3600 + 36 * 60 + 1, 0),
    }
}

fn utc() -> DayInfo {
    DayInfo { utc_offset: 0, daylight: daylight() }
}

const FULL: &str = r#"
[config]
device = "/dev/ttyUSB0"
latitude = 52.0
longitude = 5.0
ntp = "nl.pool.ntp.org"

[lamp]
mac = "000D6F0000B1B64B"
default = "schedule"

[lamp.evening]
start_sunset = 15
end_fixed = [23, 0]

[lamp.morning]
start_fuzzy = [[6, 0], [6, 30]]
end_sunrise = 0

[fan]
mac = "ff"
default = "off"
"#;

#[test]
fn parse_reads_a_whole_configuration() {
    let config = Config::new(FULL).unwrap();
    assert_eq!(
        config.device,
        Device {
            serial_device: Some("/dev/ttyUSB0".to_string()),
            latitude: Degrees { bits: 52.0f64.to_bits() },
            longitude: Degrees { bits: 5.0f64.to_bits() },
            ntp_server: "nl.pool.ntp.org".to_string(),
        }
    );
    assert_eq!(
        config.circles,
        vec![
            Circle {
                alias: "fan".to_string(),
                mac: 0xff,
                default: CircleSetting::Off,
                toggles: vec![],
            },
            Circle {
                alias: "lamp".to_string(),
                mac: 0x000D6F0000B1B64B,
                default: CircleSetting::Schedule,
                toggles: vec![
                    Toggle {
                        alias: "evening".to_string(),
                        start: Event::Sunset(15),
                        end: Event::Fixed(23, 0),
                    },
                    Toggle {
                        alias: "morning".to_string(),
                        start: Event::Fuzzy((6, 0), (6, 30)),
                        end: Event::Sunrise(0),
                    },
                ],
            },
        ]
    );
    assert!(config.is_valid());
}

#[test]
fn parse_without_device_uses_none() {
    let config =
        Config::new("[config]\nlatitude = 1.5\nlongitude = -2.5\nntp = \"a\"\n").unwrap();
    assert_eq!(config.device.serial_device, None);
    assert_eq!(config.device.latitude.bits, 1.5f64.to_bits());
    assert_eq!(config.device.longitude.bits, (-2.5f64).to_bits());
    assert_eq!(config.circles, vec![]);
}

#[test]
fn parse_refuses_what_is_no_toml() {
    assert_eq!(Config::new("[config\nlatitude = "), Err(Error::InvalidToml));
}

#[test]
fn parse_refuses_a_document_without_config() {
    assert_eq!(
        Config::new("[lamp]\nmac = \"1\"\ndefault = \"on\"\n"),
        Err(Error::MissingConfig)
    );
    assert_eq!(Config::new(""), Err(Error::MissingConfig));
}

#[test]
fn parse_passes_over_what_is_no_table() {
    let config = Config::new(
        "title = \"home\"\n[config]\nlatitude = 1.0\nlongitude = 2.0\nntp = \"a\"\n",
    )
    .unwrap();
    assert_eq!(config.circles, vec![]);
}

#[test]
fn device_needs_latitude_and_longitude() {
    assert_eq!(
        Config::new("[config]\nlongitude = 5.0\nntp = \"a\"\n"),
        Err(Error::LocationMissing)
    );
    assert_eq!(
        Config::new("[config]\nlatitude = 5.0\nntp = \"a\"\n"),
        Err(Error::LocationMissing)
    );
    // an integer is no float
    assert_eq!(
        Config::new("[config]\nlatitude = 52\nlongitude = 5.0\nntp = \"a\"\n"),
        Err(Error::LocationMissing)
    );
}

#[test]
fn device_needs_a_time_server() {
    assert_eq!(
        Config::new("[config]\nlatitude = 52.0\nlongitude = 5.0\n"),
        Err(Error::MissingNTP)
    );
    // the location is looked at first
    assert_eq!(Config::new("[config]\n"), Err(Error::LocationMissing));
}

#[test]
fn device_from_a_table_written_by_hand() {
    let table = vec![
        entry("latitude", Node::Float(7)),
        entry("longitude", Node::Float(9)),
        entry("ntp", text("time.example")),
        entry("device", Node::Integer(3)),
        entry("other", text("x")),
    ];
    assert_eq!(
        Device::new(&table),
        Ok(Device {
            serial_device: None,
            latitude: Degrees { bits: 7 },
            longitude: Degrees { bits: 9 },
            ntp_server: "time.example".to_string(),
        })
    );
}

#[test]
fn circle_needs_a_mac_in_hex() {
    let prefix = "[config]\nlatitude = 1.0\nlongitude = 2.0\nntp = \"a\"\n";
    assert_eq!(
        Config::new(&format!("{}[lamp]\ndefault = \"on\"\n", prefix)),
        Err(Error::InvalidMac("lamp".to_string()))
    );
    assert_eq!(
        Config::new(&format!("{}[lamp]\nmac = \"xyz\"\ndefault = \"on\"\n", prefix)),
        Err(Error::InvalidMac("lamp".to_string()))
    );
    assert_eq!(
        Config::new(&format!("{}[lamp]\nmac = 17\ndefault = \"on\"\n", prefix)),
        Err(Error::InvalidMac("lamp".to_string()))
    );
}

#[test]
fn circle_needs_a_default() {
    let prefix = "[config]\nlatitude = 1.0\nlongitude = 2.0\nntp = \"a\"\n";
    assert_eq!(
        Config::new(&format!("{}[lamp]\nmac = \"1\"\n", prefix)),
        Err(Error::InvalidDefault("lamp".to_string()))
    );
    assert_eq!(
        Config::new(&format!("{}[lamp]\nmac = \"1\"\ndefault = \"maybe\"\n", prefix)),
        Err(Error::InvalidDefault("lamp".to_string()))
    );
}

#[test]
fn circle_other_keys_must_be_toggles() {
    let table = vec![
        entry("default", text("schedule")),
        entry("mac", text("1")),
        entry("note", text("not a table")),
    ];
    assert_eq!(Circle::new("lamp", &table), Err(Error::ScheduleExpected("lamp".to_string())));
}

#[test]
fn circle_the_first_refused_entry_decides() {
    // the toggle is refused before the missing mac is noticed
    let table = vec![entry("evening", Node::Table(vec![entry("end_fixed", time(23, 0))]))];
    assert_eq!(Circle::new("lamp", &table), Err(Error::MissingStartEvent("evening".to_string())));
}

#[test]
fn toggle_needs_start_and_end() {
    assert_eq!(
        Toggle::new("evening", &vec![entry("end_fixed", time(23, 0))]),
        Err(Error::MissingStartEvent("evening".to_string()))
    );
    assert_eq!(
        Toggle::new("evening", &vec![entry("start_fixed", time(20, 0))]),
        Err(Error::MissingEndEvent("evening".to_string()))
    );
    assert_eq!(
        Toggle::new("evening", &vec![]),
        Err(Error::MissingStartEvent("evening".to_string()))
    );
}

#[test]
fn toggle_takes_the_first_start_and_the_first_end() {
    let table = vec![
        entry("end_fixed", time(23, 0)),
        entry("end_sunset", Node::Integer(5)),
        entry("start_fixed", time(20, 0)),
        entry("start_sunrise", Node::Integer(5)),
    ];
    assert_eq!(
        Toggle::new("evening", &table),
        Ok(Toggle {
            alias: "evening".to_string(),
            start: Event::Fixed(20, 0),
            end: Event::Fixed(23, 0),
        })
    );
}

#[test]
fn toggle_hands_on_why_an_event_is_refused() {
    let table = vec![entry("end_fixed", time(23, 0)), entry("start_fixed", time(24, 0))];
    assert_eq!(
        Toggle::new("evening", &table),
        Err(Error::WrongEventSpecifier("fixed must hold a array of two integers".to_string()))
    );
}

#[test]
fn event_kinds_by_the_end_of_the_key() {
    assert_eq!(Event::new("start_fixed", &time(20, 15)), Ok(Event::Fixed(20, 15)));
    assert_eq!(Event::new("end_of_day_fixed", &time(0, 0)), Ok(Event::Fixed(0, 0)));
    assert_eq!(Event::new("fixed", &time(23, 59)), Ok(Event::Fixed(23, 59)));
    assert_eq!(Event::new("start_sunrise", &Node::Integer(30)), Ok(Event::Sunrise(30)));
    assert_eq!(Event::new("end_sunset", &Node::Integer(0)), Ok(Event::Sunset(0)));
    assert_eq!(
        Event::new("start_fuzzy", &Node::Array(vec![time(6, 0), time(6, 30)])),
        Ok(Event::Fuzzy((6, 0), (6, 30)))
    );
}

#[test]
fn event_of_an_unknown_kind_is_refused() {
    let unsupported = Err(Error::WrongEventSpecifier("unsupported specifier".to_string()));
    assert_eq!(Event::new("start_noon", &time(12, 0)), unsupported);
    assert_eq!(Event::new("start_", &time(12, 0)), unsupported);
    assert_eq!(Event::new("", &time(12, 0)), unsupported);
    assert_eq!(Event::new("fixed_", &time(12, 0)), unsupported);
}

#[test]
fn event_fixed_needs_an_hour_and_a_minute() {
    let wrong =
        Err(Error::WrongEventSpecifier("fixed must hold a array of two integers".to_string()));
    assert_eq!(Event::new("start_fixed", &time(24, 0)), wrong);
    assert_eq!(Event::new("start_fixed", &time(-1, 0)), wrong);
    assert_eq!(Event::new("start_fixed", &time(12, 60)), wrong);
    assert_eq!(Event::new("start_fixed", &Node::Integer(12)), wrong);
    assert_eq!(Event::new("start_fixed", &Node::Array(vec![Node::Integer(12)])), wrong);
    assert_eq!(
        Event::new(
            "start_fixed",
            &Node::Array(vec![Node::Integer(1), Node::Integer(2), Node::Integer(3)])
        ),
        wrong
    );
}

#[test]
fn event_fuzzy_needs_a_window_that_begins_before_it_ends() {
    let wrong = Err(Error::WrongEventSpecifier(
        "fuzzy must hold a array of two arrays of two integers".to_string(),
    ));
    assert_eq!(Event::new("start_fuzzy", &Node::Array(vec![time(6, 30), time(6, 30)])), wrong);
    assert_eq!(Event::new("start_fuzzy", &Node::Array(vec![time(7, 0), time(6, 30)])), wrong);
    assert_eq!(Event::new("start_fuzzy", &Node::Array(vec![time(6, 0)])), wrong);
    assert_eq!(Event::new("start_fuzzy", &time(6, 0)), wrong);
    assert_eq!(Event::new("start_fuzzy", &Node::Array(vec![time(6, 0), time(25, 0)])), wrong);
}

#[test]
fn event_twilight_needs_an_integer() {
    assert_eq!(
        Event::new("start_sunrise", &text("5")),
        Err(Error::WrongEventSpecifier(
            "sunrise must only hold one integer (variance in minutes)".to_string()
        ))
    );
    assert_eq!(
        Event::new("start_sunset", &Node::Float(5)),
        Err(Error::WrongEventSpecifier(
            "sunset must only hold one integer (variance in minutes)".to_string()
        ))
    );
}

#[test]
fn event_twilight_minutes_keep_their_low_sixteen_bits() {
    assert_eq!(Event::new("start_sunrise", &Node::Integer(65_536 + 7)), Ok(Event::Sunrise(7)));
    assert_eq!(Event::new("start_sunset", &Node::Integer(-1)), Ok(Event::Sunset(65_535)));
}

#[test]
fn time_in_a_day_passes_over_what_is_no_integer() {
    let node = Node::Array(vec![Node::Integer(20), text("x"), Node::Integer(15)]);
    assert_eq!(Event::time_in_a_day(&node), Some((20, 15)));
    assert_eq!(Event::time_in_a_day(&Node::Array(vec![text("20"), Node::Integer(15)])), None);
    assert_eq!(Event::time_in_a_day(&text("20:15")), None);
}

#[test]
fn circle_setting_names() {
    assert_eq!(CircleSetting::new("off"), Some(CircleSetting::Off));
    assert_eq!(CircleSetting::new("on"), Some(CircleSetting::On));
    assert_eq!(CircleSetting::new("schedule"), Some(CircleSetting::Schedule));
    assert_eq!(CircleSetting::new("On"), None);
    assert_eq!(CircleSetting::new(""), None);
}

#[test]
fn parse_mac_reads_hex() {
    assert_eq!(parse_mac("0"), Some(0));
    assert_eq!(parse_mac("000D6F0000B1B64B"), Some(0x000D6F0000B1B64B));
    assert_eq!(parse_mac("abcDEF"), Some(0xABCDEF));
    assert_eq!(parse_mac("+1f"), Some(0x1f));
    assert_eq!(parse_mac("ffffffffffffffff"), Some(u64::MAX));
    assert_eq!(parse_mac("0000000000000000000001"), Some(1));
}

#[test]
fn parse_mac_refuses_what_is_no_hex_number() {
    assert_eq!(parse_mac(""), None);
    assert_eq!(parse_mac("+"), None);
    assert_eq!(parse_mac("-1"), None);
    assert_eq!(parse_mac("12g4"), None);
    assert_eq!(parse_mac("0x12"), None);
    assert_eq!(parse_mac(" 12"), None);
    assert_eq!(parse_mac("10000000000000000"), None);
    assert_eq!(parse_mac("1ffffffffffffffffz"), None);
}

#[test]
fn parse_mac_agrees_with_the_standard_library() {
    for s in ["7", "+7", "++7", "deadBEEF", "ffffffffffffffff", "10000000000000000", "é1", "1_0"] {
        assert_eq!(parse_mac(s), u64::from_str_radix(s, 16).ok(), "{}", s);
    }
}

#[test]
fn event_validity() {
    assert!(Event::Fixed(23, 59).is_valid());
    assert!(!Event::Fixed(24, 0).is_valid());
    assert!(!Event::Fixed(0, 60).is_valid());
    assert!(Event::Fuzzy((6, 0), (6, 1)).is_valid());
    assert!(!Event::Fuzzy((6, 0), (6, 0)).is_valid());
    assert!(!Event::Fuzzy((6, 1), (6, 0)).is_valid());
    assert!(Event::Sunrise(65_535).is_valid());
    assert!(Event::Sunset(0).is_valid());
}

#[test]
fn resolve_fixed_is_the_local_time_of_the_day() {
    let day = Timespec::new(DAY0, 0);
    assert_eq!(Event::Fixed(20, 15).resolve(&day, &utc(), 99), Timespec::new(DAY0 + 72_900, 0));
    let cest = DayInfo { utc_offset: 7_200, daylight: daylight() };
    assert_eq!(
        Event::Fixed(20, 15).resolve(&day, &cest, 0),
        Timespec::new(DAY0 + 72_900 - 7_200, 0)
    );
    let west = DayInfo { utc_offset: -18_000, daylight: daylight() };
    assert_eq!(
        Event::Fixed(0, 0).resolve(&day, &west, 0),
        Timespec::new(DAY0 + 18_000, 0)
    );
}

#[test]
fn resolve_fuzzy_picks_a_second_of_the_window() {
    let day = Timespec::new(DAY0, 0);
    let e = Event::Fuzzy((6, 0), (6, 30));
    assert_eq!(e.resolve(&day, &utc(), 0), Timespec::new(DAY0 + 21_600, 0));
    assert_eq!(e.resolve(&day, &utc(), 1_799), Timespec::new(DAY0 + 21_600 + 1_799, 0));
    assert_eq!(e.resolve(&day, &utc(), 1_800), Timespec::new(DAY0 + 21_600, 0));
    assert_eq!(e.resolve(&day, &utc(), 4_000_000_123), Timespec::new(DAY0 + 21_600 + 523, 0));
    for draw in [7u32, 1_000, 65_537, u32::MAX] {
        let ts = e.resolve(&day, &utc(), draw);
        assert!(DAY0 + 21_600 <= ts.sec && ts.sec < DAY0 + 23_400);
    }
}

#[test]
fn sunrise_without_jitter_is_the_middle_of_the_twilight() {
    let day = Timespec::new(DAY0, 0);
    let dl = daylight();
    let expected = dl.twilight_morning.sec + (dl.sunrise.sec - dl.twilight_morning.sec) / 2;
    assert_eq!(expected, DAY0 + 2 * 3600 + 38 * 60 + 11 + 1_389);
    for draw in [0u32, 1, 77, u32::MAX] {
        assert_eq!(Event::Sunrise(0).resolve(&day, &utc(), draw), Timespec::new(expected, 0));
    }
}

#[test]
fn resolve_sunset_is_the_middle_of_the_evening_twilight() {
    let day = Timespec::new(DAY0, 0);
    let dl = daylight();
    let expected = dl.sunset.sec + (dl.twilight_evening.sec - dl.sunset.sec) / 2;
    assert_eq!(expected, DAY0 + 19 * 3600 + 50 * 60 + 1_380);
    assert_eq!(Event::Sunset(0).resolve(&day, &utc(), 5), Timespec::new(expected, 0));
}

#[test]
fn resolve_twilight_jitter_stays_within_its_minutes() {
    let day = Timespec::new(DAY0, 0);
    let dl = daylight();
    let base = dl.twilight_morning.sec + (dl.sunrise.sec - dl.twilight_morning.sec) / 2;
    let e = Event::Sunrise(10);
    assert_eq!(e.resolve(&day, &utc(), 0), Timespec::new(base - 600, 0));
    assert_eq!(e.resolve(&day, &utc(), 600), Timespec::new(base, 0));
    assert_eq!(e.resolve(&day, &utc(), 1_200), Timespec::new(base + 600, 0));
    assert_eq!(e.resolve(&day, &utc(), 1_201), Timespec::new(base - 600, 0));
    for draw in [3u32, 12_345, 4_294_967_295] {
        let ts = e.resolve(&day, &utc(), draw);
        assert!(base - 600 <= ts.sec && ts.sec <= base + 600);
    }
}

#[test]
fn resolve_twilight_ignores_the_zone() {
    let day = Timespec::new(DAY0, 0);
    let east = DayInfo { utc_offset: 7_200, daylight: daylight() };
    assert_eq!(Event::Sunset(0).resolve(&day, &east, 0), Event::Sunset(0).resolve(&day, &utc(), 0));
}

#[test]
fn day_info_range() {
    assert!(utc().is_in_range());
    let mut far = utc();
    far.daylight.sunset = Timespec::new(i64::MAX, 0);
    assert!(!far.is_in_range());
}

#[test]
fn error_description() {
    assert_eq!(Error::Io("no such file".to_string()).description(), "no such file");
    assert_eq!(Error::MissingNTP.description(), "Keeper configuration error");
    assert_eq!(Error::InvalidMac("lamp".to_string()).description(), "Keeper configuration error");
    assert_eq!(
        Error::MissingEventSpecifier("start".to_string()).description(),
        "Keeper configuration error"
    );
}
