use tui_mcp::dev_tools::{age_since, dev_info, features_line, format_utc, stamp, Image, UnixTime};

fn at_second(secs: i64) -> UnixTime {
    UnixTime { secs, nanos: 0 }
}

/// chrono owns the calendar arithmetic; what is ours is the layout, so this
/// pins the field order, zero padding and suffix rather than re-testing that
/// leap years work.
#[test]
fn format_utc_lays_out_the_timestamp() {
    let at = |s: u64| format_utc(at_second(s as i64));

    assert_eq!(at(0), "1970-01-01 00:00:00 UTC");
    assert_eq!(at(1_000_000_000), "2001-09-09 01:46:40 UTC");
}

#[test]
fn age_since_formats_by_magnitude_and_clamps_the_future() {
    let t0 = at_second(1_000_000);
    let age = |secs: u64| age_since(t0, at_second(1_000_000 + secs as i64));

    assert_eq!(age(7), "7s");
    assert_eq!(age(252), "4m12s");
    assert_eq!(age(3723), "1h02m03s");
    // Seconds and minutes stay zero-padded so widths line up between calls.
    assert_eq!(age(3600), "1h00m00s");
    // A timestamp ahead of `now` must not panic on the subtraction.
    assert_eq!(age_since(at_second(1_000_000 + 60), t0), "0s");
}

#[test]
fn ages_count_whole_seconds() {
    let from = UnixTime { secs: 10, nanos: 900_000_000 };
    assert_eq!(age_since(from, UnixTime { secs: 12, nanos: 800_000_000 }), "1s");
    assert_eq!(age_since(from, UnixTime { secs: 12, nanos: 900_000_000 }), "2s");
    assert_eq!(
        age_since(at_second(i64::MIN), at_second(i64::MAX)),
        "5124095576030431h00m15s"
    );
}

#[test]
fn times_at_the_edges_of_the_calendar() {
    assert_eq!(format_utc(at_second(-1)), "1969-12-31 23:59:59 UTC");
    assert_eq!(format_utc(at_second(-8334601228800)), "-262143-01-01 00:00:00 UTC");
    assert_eq!(format_utc(at_second(8210266876799)), "+262142-12-31 23:59:59 UTC");
}

#[test]
fn stamps_hold_time_and_age() {
    assert_eq!(stamp(at_second(0), at_second(61)), "1970-01-01 00:00:00 UTC (1m01s ago)");
}

#[test]
fn features_that_are_on_are_listed() {
    assert_eq!(features_line(&[]), "<none>");
    assert_eq!(features_line(&[("dev-tools", false)]), "<none>");
    assert_eq!(features_line(&[("a", true), ("b", false), ("c", true)]), "a, c");
}

#[test]
fn the_image_is_reported() {
    let mut image = Image {
        version: "tui_mcp 0.1.0".to_string(),
        path: Ok("/bin/tui_mcp".to_string()),
        modified: Some(at_second(0)),
        started: at_second(5),
        features: vec![("dev-tools", true)],
        arch: "x86_64",
        os: "linux",
        env: "gnu",
        family: "unix",
        debug_assertions: true,
        protocol: "2025-06-18".to_string(),
    };
    assert_eq!(
        dev_info(&image, at_second(10)),
        "tui_mcp 0.1.0\n  executable:       /bin/tui_mcp\n  \
         binary mtime:     1970-01-01 00:00:00 UTC (10s ago)\n  \
         started:          1970-01-01 00:00:05 UTC (5s ago)\n  \
         features:         dev-tools\n  \
         target:           x86_64 linux (gnu)\n  \
         family:           unix\n  \
         debug_assertions: on\n  \
         protocol:         MCP 2025-06-18"
    );
    image.path = Err("gone".to_string());
    image.modified = None;
    image.debug_assertions = false;
    let text = dev_info(&image, at_second(10));
    assert!(text.contains("executable:       <unavailable: gone>\n"));
    assert!(text.contains("binary mtime:     <unavailable>\n"));
    assert!(text.contains("debug_assertions: off\n"));
}

#[test]
fn times_before_the_epoch_count_backwards() {
    let t = UnixTime::from_epoch(true, 1, 250_000_000);
    assert_eq!((t.secs, t.nanos), (-2, 750_000_000));
    assert_eq!(format_utc(t), "1969-12-31 23:59:58 UTC");
    let t = UnixTime::from_epoch(true, 3, 0);
    assert_eq!((t.secs, t.nanos), (-3, 0));
    let t = UnixTime::from_epoch(false, 3, 5);
    assert_eq!((t.secs, t.nanos), (3, 5));
    assert!(t.is_in_calendar());
    assert!(!at_second(8210266876800).is_in_calendar());
}
