use chronoscope::timeline::time::{filetime_to_datetime, further_apart, Timestamp};
use chronoscope::timeline::writer::{chronological, csv_header, csv_record, csv_records};
use chronoscope::timeline::{ArtifactSource, TimelineEvent};

fn at(secs: i64, nanos: u32) -> Timestamp {
    Timestamp::new(secs, nanos).expect("a calendar date")
}

fn event(secs: i64, nanos: u32, description: &str) -> TimelineEvent {
    TimelineEvent::new(
        at(secs, nanos),
        ArtifactSource::Mft,
        "kind",
        description.to_string(),
        "$MFT".to_string(),
    )
}

#[test]
fn sources_have_their_names() {
    assert_eq!(ArtifactSource::Lnk.as_str(), "lnk");
    assert_eq!(ArtifactSource::Prefetch.as_str(), "prefetch");
    assert_eq!(ArtifactSource::Evtx.as_str(), "evtx");
    assert_eq!(ArtifactSource::Mft.as_str(), "mft");
    assert_eq!(ArtifactSource::Registry.as_str(), "registry");
    assert_eq!(ArtifactSource::Amcache.as_str(), "amcache");
}

#[test]
fn builders_fill_an_event() {
    let e = event(5, 6, "text");
    assert_eq!(e.timestamp.timestamp(), 5);
    assert_eq!(e.timestamp.timestamp_subsec_nanos(), 6);
    assert_eq!(e.source, ArtifactSource::Mft);
    assert_eq!(e.event_type, "kind");
    assert_eq!(e.description, "text");
    assert_eq!(e.artifact_path, "$MFT");
    assert_eq!(e.target_path, None);
    assert!(e.extra.is_empty());

    let e = e
        .with_target("a.exe".to_string())
        .with_extra("key", serde_json::Value::from("value"))
        .with_number("number", 7)
        .with_flag("flag", true)
        .with_text("text", "t".to_string())
        .with_text_of("some", Some("s".to_string()))
        .with_text_of("none", None);
    assert_eq!(e.target_path.as_deref(), Some("a.exe"));
    assert_eq!(e.extra.len(), 5);
    assert_eq!(e.extra.get("key").and_then(|v| v.as_str()), Some("value"));
    assert_eq!(e.extra.get("number").and_then(|v| v.as_u64()), Some(7));
    assert_eq!(e.extra.get("flag").and_then(|v| v.as_bool()), Some(true));
    assert_eq!(e.extra.get("text").and_then(|v| v.as_str()), Some("t"));
    assert_eq!(e.extra.get("some").and_then(|v| v.as_str()), Some("s"));
    assert_eq!(e.extra.get("none"), None);
}

#[test]
fn last_extra_value_stands() {
    let e = event(0, 0, "")
        .with_number("a", 1)
        .with_number("b", 2)
        .with_number("a", 3);
    assert_eq!(e.extra.len(), 2);
    assert_eq!(e.extra.get("a").and_then(|v| v.as_u64()), Some(3));
    assert_eq!(e.extra.get("b").and_then(|v| v.as_u64()), Some(2));
}

#[test]
fn clone_says_the_same() {
    let e = event(1, 2, "d").with_target("t".to_string()).with_number("n", u64::MAX);
    let c = e.clone();
    assert_eq!(csv_record(&c), csv_record(&e));
    assert_eq!(c.extra, e.extra);
    assert_eq!(c.extra.get("n").and_then(|v| v.as_u64()), Some(u64::MAX));
}

#[test]
fn timestamps_have_the_range_of_the_calendar() {
    assert!(Timestamp::new(-8_334_601_228_800, 0).is_some());
    assert!(Timestamp::new(-8_334_601_228_801, 999_999_999).is_none());
    assert!(Timestamp::new(8_210_266_876_799, 999_999_999).is_some());
    assert!(Timestamp::new(8_210_266_876_800, 0).is_none());
    assert!(Timestamp::new(i64::MIN, 0).is_none());
    assert!(Timestamp::new(i64::MAX, 0).is_none());
}

#[test]
fn leap_seconds_end_a_minute() {
    assert!(Timestamp::new(59, 1_999_999_999).is_some());
    assert!(Timestamp::new(59, 2_000_000_000).is_none());
    assert!(Timestamp::new(58, 1_000_000_000).is_none());
    assert!(Timestamp::new(-1, 1_000_000_000).is_some());
    assert!(Timestamp::new(-2, 1_000_000_000).is_none());
}

#[test]
fn filetimes_are_exact() {
    assert!(filetime_to_datetime(0).is_none());
    assert!(filetime_to_datetime(1 << 63).is_none());
    assert!(filetime_to_datetime(u64::MAX).is_none());

    let first = filetime_to_datetime(1).expect("a moment");
    assert_eq!(first.timestamp(), -11_644_473_600);
    assert_eq!(first.timestamp_subsec_nanos(), 100);
    assert_eq!(first.to_rfc3339(), "1601-01-01T00:00:00.000000100+00:00");

    let before_1970 = filetime_to_datetime(116_444_735_999_999_999).expect("a moment");
    assert_eq!(before_1970.timestamp(), -1);
    assert_eq!(before_1970.timestamp_subsec_nanos(), 999_999_900);

    let epoch = filetime_to_datetime(116_444_736_000_000_000).expect("a moment");
    assert_eq!((epoch.timestamp(), epoch.timestamp_subsec_nanos()), (0, 0));

    let last = filetime_to_datetime(i64::MAX as u64).expect("a moment");
    assert_eq!(last.timestamp(), 910_692_730_085);
    assert_eq!(last.timestamp_subsec_nanos(), 477_580_700);
}

#[test]
fn later_filetimes_are_later_moments() {
    let ticks = [1u64, 2, 10_000_000, 116_444_735_999_999_999, 116_444_736_000_000_000, 1 << 62];
    for a in ticks {
        for b in ticks {
            let (x, y) = (filetime_to_datetime(a), filetime_to_datetime(b));
            let (x, y) = (x.expect("a moment"), y.expect("a moment"));
            assert_eq!(x.not_after(&y), a <= b);
        }
    }
}

#[test]
fn rfc3339_reads_back() {
    for (secs, nanos) in [
        (1_685_577_600, 0),
        (0, 1),
        (-1, 999_000_000),
        (-62_167_219_200, 0),
        (253_402_300_799, 999_999_999),
        (-11_644_473_600, 123_456_700),
    ] {
        let text = at(secs, nanos).to_rfc3339();
        let back = Timestamp::parse_from_rfc3339(&text).expect("a moment");
        assert_eq!((back.timestamp(), back.timestamp_subsec_nanos()), (secs, nanos));
    }
    assert_eq!(at(1_685_577_600, 0).to_rfc3339(), "2023-06-01T00:00:00+00:00");
}

#[test]
fn rfc3339_is_taken_to_utc() {
    let t = Timestamp::parse_from_rfc3339("2024-06-01T02:00:00.5+02:00").expect("a moment");
    assert_eq!(t.timestamp(), 1_717_200_000);
    assert_eq!(t.timestamp_subsec_nanos(), 500_000_000);
    assert!(Timestamp::parse_from_rfc3339("2024-06-01").is_none());
    assert!(Timestamp::parse_from_rfc3339("").is_none());
}

#[test]
fn years_of_more_digits_do_not_read_back() {
    let text = at(253_402_300_800, 0).to_rfc3339();
    assert_eq!(text, "+10000-01-01T00:00:00+00:00");
    assert!(Timestamp::parse_from_rfc3339(&text).is_none());
}

#[test]
fn the_present_is_after_this_test_was_written() {
    assert!(at(1_700_000_000, 0).not_after(&Timestamp::now()));
}

#[test]
fn distances_count_whole_seconds() {
    let a = at(1_000, 500_000_000);
    assert!(!further_apart(&a, &a, 60));
    assert!(!further_apart(&a, &at(1_061, 499_999_999), 60));
    assert!(further_apart(&a, &at(1_061, 500_000_000), 60));
    assert!(further_apart(&at(1_061, 500_000_000), &a, 60));
    assert!(!further_apart(&at(1_060, 500_000_000), &a, 60));
    assert!(further_apart(&a, &at(1_001, 500_000_000), 0));
    assert!(further_apart(&at(-8_334_601_228_800, 0), &at(8_210_266_876_799, 0), u32::MAX));
}

#[test]
fn order_is_chronological_and_stable() {
    let events = vec![
        event(5, 0, "a"),
        event(3, 9, "b"),
        event(5, 0, "c"),
        event(3, 1, "d"),
        event(-7, 0, "e"),
        event(5, 0, "f"),
    ];
    assert_eq!(chronological(&events), vec![4, 3, 1, 0, 2, 5]);
    assert_eq!(chronological(&[]), Vec::<usize>::new());
    assert_eq!(chronological(&events[0..1]), vec![0]);
}

#[test]
fn order_holds_every_event_once() {
    let events: Vec<TimelineEvent> =
        (0..500i64).map(|i| event((i * 7919) % 101, ((i * 31) % 13) as u32, "x")).collect();
    let order = chronological(&events);
    let mut seen = order.clone();
    seen.sort();
    assert_eq!(seen, (0..500).collect::<Vec<usize>>());
    for pair in order.windows(2) {
        let (a, b) = (&events[pair[0]].timestamp, &events[pair[1]].timestamp);
        assert!(a.not_after(b));
        assert!(!b.not_after(a) || pair[0] < pair[1]);
    }
}

#[test]
fn csv_records_are_header_and_sorted_events() {
    assert_eq!(
        csv_header(),
        ["Timestamp", "Source", "EventType", "Description", "ArtifactPath", "TargetPath"]
    );
    let events = vec![event(60, 0, "later").with_target("t".to_string()), event(0, 0, "first")];
    let records = csv_records(&events);
    assert_eq!(records.len(), 3);
    assert_eq!(records[0], csv_header());
    assert_eq!(
        records[1],
        ["1970-01-01T00:00:00+00:00", "mft", "kind", "first", "$MFT", ""]
    );
    assert_eq!(
        records[2],
        ["1970-01-01T00:01:00+00:00", "mft", "kind", "later", "$MFT", "t"]
    );
    assert_eq!(csv_records(&[]).len(), 1);
}
