use chrono::Duration;
use edl::chapters::{chapter_lines, select_entries, to_timestamp};
use edl::entry::Entry;
use edl::errors::Error;
use edl::parser::{parse, parse_duration, parse_with_layout, FrameRate, Layout};

fn micros(d: Duration) -> i64 {
    d.num_microseconds().unwrap()
}

fn record(index: &str, start: &str, end: &str, meta: &str) -> String {
    format!("{index}  001      V     C        {start} {end} {start} {end}  \r\n{meta}")
}

fn file(records: &[String]) -> String {
    let mut s = String::from("TITLE: Example Video\r\nFCM: NON-DROP FRAME\r\n\r\n");
    for r in records {
        s.push_str(r);
        s.push_str("\r\n\r\n");
    }
    s
}

#[test]
fn test_parse() {
    let data = &"
TITLE: Example Video\r
FCM: NON-DROP FRAME\r
\r
001  001      V     C        00:00:00:00 00:00:00:01 00:00:00:00 00:00:00:01  \r
 |C:ResolveColorBlue |M:Intro |D:1\r
\r
002  001      V     C        00:02:10:15 00:02:10:16 00:02:10:15 00:02:10:16  \r
 |C:ResolveColorBlue |M:Stuff |D:1\r
\r
003  001      V     C        00:03:03:54 00:03:03:55 00:02:10:15 00:02:10:16  \r
 |C:ResolveColorGreen |M:Don't export this! |D:1\r
\r
004  001      V     C        00:04:32:13 00:04:32:14 00:04:32:13 00:04:32:14  \r
 |C:ResolveColorBlue |M:Outro |D:1\r
\r
"[1..];

    let expected = vec![
        Entry {
            color: Some("ResolveColorBlue".into()),
            description: None,
            duration: micros(Duration::microseconds((1000000f32 / 60f32) as i64)),
            index: 1,
            name: Some("Intro".into()),
            timestamp: micros(Duration::milliseconds(0)),
        },
        Entry {
            color: Some("ResolveColorBlue".into()),
            description: None,
            duration: micros(Duration::microseconds((1000000f32 / 60f32) as i64)),
            index: 2,
            name: Some("Stuff".into()),
            timestamp: micros(
                Duration::microseconds((15f32 * 1000000f32 / 60f32) as i64)
                    + Duration::seconds(10)
                    + Duration::minutes(2),
            ),
        },
        Entry {
            color: Some("ResolveColorGreen".into()),
            description: None,
            duration: micros(Duration::microseconds((1000000f32 / 60f32) as i64)),
            index: 3,
            name: Some("Don't export this!".into()),
            timestamp: micros(
                Duration::microseconds((54f32 * 1000000f32 / 60f32) as i64)
                    + Duration::seconds(3)
                    + Duration::minutes(3),
            ),
        },
        Entry {
            color: Some("ResolveColorBlue".into()),
            description: None,
            duration: micros(Duration::microseconds((1000000f32 / 60f32) as i64)),
            index: 4,
            name: Some("Outro".into()),
            timestamp: micros(
                Duration::microseconds((13f32 * 1000000f32 / 60f32) as i64)
                    + Duration::seconds(32)
                    + Duration::minutes(4),
            ),
        },
    ];
    let entries = parse(data, FrameRate::whole(60)).unwrap();

    assert_eq!(entries.len(), expected.len());

    for (i, e) in entries.iter().enumerate() {
        assert_eq!(e.color, expected[i].color, "entry: {i}");
        assert_eq!(e.description, expected[i].description, "entry: {i}");
        assert_eq!(
            Duration::microseconds(e.duration).num_milliseconds(),
            Duration::microseconds(expected[i].duration).num_milliseconds(),
            "entry: {i}"
        );
        assert_eq!(e.index, expected[i].index, "entry: {i}");
        assert_eq!(e.name, expected[i].name, "entry: {i}");
        assert_eq!(e.timestamp, expected[i].timestamp, "entry: {i}");
    }
}

#[test]
fn two_blue_records_at_sixty_fps() {
    let data = file(&[
        record("001", "00:00:00:00", "00:00:00:01", " |C:ResolveColorBlue |M:Intro"),
        record("002", "00:02:10:15", "00:02:10:16", " |C:ResolveColorBlue |M:Stuff"),
    ]);
    let entries = parse(&data, FrameRate::whole(60)).unwrap();
    assert_eq!(entries.len(), 2);
    assert_eq!(entries[0].timestamp, 0);
    assert_eq!(entries[1].timestamp, 130_000_000 + 250_000);
    assert_eq!(entries[0].color.as_deref(), Some("ResolveColorBlue"));
    assert_eq!(entries[1].color.as_deref(), Some("ResolveColorBlue"));
    assert_eq!(entries[0].duration, 16_666);
    assert_eq!(entries[1].duration, 16_666);
}

#[test]
fn rate_frames_make_one_second() {
    assert_eq!(parse_duration("00:00:01:00", FrameRate::whole(60)).unwrap(), 1_000_000);
    assert_eq!(parse_duration("00:00:00:60", FrameRate::whole(60)).unwrap(), 1_000_000);
    assert_eq!(parse_duration("25", FrameRate::whole(25)).unwrap(), 1_000_000);
    assert_eq!(parse_duration("00:00:00:24", FrameRate::whole(24)).unwrap(), 1_000_000);
    assert_eq!(parse_duration("00:00:01:90", FrameRate::whole(60)).unwrap(), 2_500_000);
    assert_eq!(parse_duration("00:00:02:30", FrameRate::whole(60)).unwrap(), 2_500_000);
}

#[test]
fn timecode_components_and_rounding() {
    assert_eq!(parse_duration("0", FrameRate::whole(60)).unwrap(), 0);
    assert_eq!(parse_duration("00:00:00:00", FrameRate::whole(60)).unwrap(), 0);
    assert_eq!(parse_duration("1", FrameRate::whole(60)).unwrap(), 16_666);
    assert_eq!(parse_duration("2:1", FrameRate::whole(60)).unwrap(), 2_016_666);
    assert_eq!(parse_duration("3:2:1", FrameRate::whole(60)).unwrap(), 182_016_666);
    assert_eq!(parse_duration("01:02:03:13", FrameRate::whole(60)).unwrap(), 3_723_216_666);
    assert_eq!(parse_duration("1", FrameRate::whole(3)).unwrap(), 333_333);
}

#[test]
fn malformed_timecodes_fail() {
    match parse_duration("", FrameRate::whole(60)) {
        Err(Error::InvalidTimestamp(t)) => assert_eq!(t, "empty"),
        other => panic!("unexpected: {other:?}"),
    }
    match parse_duration("a:b", FrameRate::whole(60)) {
        Err(Error::InvalidTimestamp(t)) => assert_eq!(t, "a:b"),
        other => panic!("unexpected: {other:?}"),
    }
    assert!(matches!(parse_duration("1:2:3:4:5", FrameRate::whole(60)), Err(Error::InvalidTimestamp(_))));
    assert!(matches!(parse_duration("00:01:", FrameRate::whole(60)), Err(Error::InvalidTimestamp(_))));
    assert!(matches!(
        parse_duration("99999999999999999999:00:00:00", FrameRate::whole(60)),
        Err(Error::InvalidTimestamp(_))
    ));
    assert!(matches!(
        parse_duration("999999999999999999999999999999999999", FrameRate::whole(1)),
        Err(Error::InvalidTimestamp(_))
    ));
}

#[test]
fn too_few_fields_is_invalid_format() {
    let data = file(&[String::from("001  001  V  C  00:00:00:00\r\n |C:Blue |M:x")]);
    assert!(matches!(parse(&data, FrameRate::whole(60)), Err(Error::InvalidEntryFormat)));
    let ok = parse_with_layout(&data, FrameRate::whole(60), Layout::ExplicitDuration).unwrap();
    assert_eq!(ok[0].duration, 0);
    let short = file(&[String::from("001  001  V  C\r\n |C:Blue")]);
    assert!(matches!(
        parse_with_layout(&short, FrameRate::whole(60), Layout::ExplicitDuration),
        Err(Error::InvalidEntryFormat)
    ));
}

#[test]
fn record_without_two_lines_is_invalid_format() {
    let data = file(&[String::from(
        "001  001  V  C  00:00:00:00 00:00:00:01\r\n |M:x\r\n |C:Blue",
    )]);
    assert!(matches!(parse(&data, FrameRate::whole(60)), Err(Error::InvalidEntryFormat)));
    let one = file(&[String::from("001  001  V  C  00:00:00:00 00:00:00:01")]);
    assert!(matches!(parse(&one, FrameRate::whole(60)), Err(Error::InvalidEntryFormat)));
}

#[test]
fn bad_index_is_invalid_index_format() {
    let data = file(&[record("x01", "00:00:00:00", "00:00:00:01", " |M:x")]);
    assert!(matches!(parse(&data, FrameRate::whole(60)), Err(Error::InvalidIndexFormat)));
    let neg = file(&[record("-1", "00:00:00:00", "00:00:00:01", " |M:x")]);
    assert!(matches!(parse(&neg, FrameRate::whole(60)), Err(Error::InvalidIndexFormat)));
    let huge = file(&[record(
        "99999999999999999999999",
        "00:00:00:00",
        "00:00:00:01",
        " |M:x",
    )]);
    assert!(matches!(parse(&huge, FrameRate::whole(60)), Err(Error::InvalidIndexFormat)));
}

#[test]
fn bad_timecode_in_record_is_reported() {
    let data = file(&[record("001", "00:00:0x:00", "00:00:00:01", " |M:x")]);
    match parse(&data, FrameRate::whole(60)) {
        Err(Error::InvalidTimestamp(t)) => assert_eq!(t, "00:00:0x:00"),
        other => panic!("unexpected: {other:?}"),
    }
}

#[test]
fn first_error_in_file_order_wins() {
    let data = file(&[
        record("001", "00:00:00:00", "00:00:00:01", " |M:a"),
        record("x02", "00:00:00:00", "00:00:00:01", " |M:b"),
        String::from("003 too few"),
    ]);
    assert!(matches!(parse(&data, FrameRate::whole(60)), Err(Error::InvalidIndexFormat)));
}

#[test]
fn empty_or_header_only_has_no_entries() {
    assert!(matches!(parse("", FrameRate::whole(60)), Err(Error::NoEntries)));
    assert!(matches!(
        parse("TITLE: Example Video\r\nFCM: NON-DROP FRAME\r\n", FrameRate::whole(60)),
        Err(Error::NoEntries)
    ));
    assert!(matches!(
        parse("TITLE: Example Video\r\nFCM: NON-DROP FRAME\r\n\r\n", FrameRate::whole(60)),
        Err(Error::NoEntries)
    ));
}

#[test]
fn metadata_fields() {
    let data = file(&[
        record("001", "00:00:00:00", "00:00:00:01", " A note |C: Red |M:First |M:Second"),
        record("002", "00:00:00:00", "00:00:00:01", "|X:ignored"),
    ]);
    let entries = parse(&data, FrameRate::whole(60)).unwrap();
    assert_eq!(entries[0].description.as_deref(), Some("A note"));
    assert_eq!(entries[0].color.as_deref(), Some("Red"));
    assert_eq!(entries[0].name.as_deref(), Some("First"));
    assert_eq!(entries[1].description, None);
    assert_eq!(entries[1].color, None);
    assert_eq!(entries[1].name, None);
}

#[test]
fn negative_duration_when_end_precedes_start() {
    let data = file(&[record("001", "00:00:01:00", "00:00:00:00", " |M:x")]);
    let entries = parse(&data, FrameRate::whole(60)).unwrap();
    assert_eq!(entries[0].duration, -1_000_000);
}

#[test]
fn explicit_duration_layout() {
    let data = file(&[
        String::from("001  001  V  C  00:00:10:00\r\n |C:Blue |M:a |D:00:00:02:30"),
        String::from("002  001  V  C  00:00:20:00\r\n |C:Blue |M:b |D:zz"),
    ]);
    match parse_with_layout(&data, FrameRate::whole(60), Layout::ExplicitDuration) {
        Err(Error::InvalidTimestamp(t)) => assert_eq!(t, "zz"),
        other => panic!("unexpected: {other:?}"),
    }
    let good = file(&[String::from("001  001  V  C  00:00:10:00\r\n |C:Blue |M:a |D:00:00:02:30")]);
    let entries = parse_with_layout(&good, FrameRate::whole(60), Layout::ExplicitDuration).unwrap();
    assert_eq!(entries[0].timestamp, 10_000_000);
    assert_eq!(entries[0].duration, 2_500_000);
}

#[test]
fn shuffled_records_give_the_same_entries() {
    let a = record("001", "00:00:00:00", "00:00:00:01", " |C:Blue |M:Intro");
    let b = record("002", "00:02:10:15", "00:02:10:16", " |C:Blue |M:Stuff");
    let c = record("003", "00:03:03:54", "00:03:03:55", " |C:Green |M:Other");
    let first = parse(&file(&[a.clone(), b.clone(), c.clone()]), FrameRate::whole(60)).unwrap();
    let second = parse(&file(&[c, a, b]), FrameRate::whole(60)).unwrap();
    let first = select_entries(first, &None);
    let second = select_entries(second, &None);
    assert_eq!(first.len(), second.len());
    for (x, y) in first.iter().zip(second.iter()) {
        assert_eq!(x.index, y.index);
        assert_eq!(x.timestamp, y.timestamp);
        assert_eq!(x.duration, y.duration);
        assert_eq!(x.color, y.color);
        assert_eq!(x.name, y.name);
        assert_eq!(x.description, y.description);
    }
    assert_eq!(first.iter().map(|e| e.index).collect::<Vec<_>>(), vec![1, 2, 3]);
}

#[test]
fn color_filter_drops_uncolored_and_other_colors() {
    let data = file(&[
        record("003", "00:00:03:00", "00:00:03:01", " |C:Blue |M:c"),
        record("001", "00:00:01:00", "00:00:01:01", " |M:nocolor"),
        record("002", "00:00:02:00", "00:00:02:01", " |C:Green |M:b"),
        record("004", "00:00:04:00", "00:00:04:01", " |C:Blue |M:d"),
    ]);
    let entries = parse(&data, FrameRate::whole(60)).unwrap();
    let kept = select_entries(entries, &Some(vec![String::from("Blue")]));
    assert_eq!(kept.iter().map(|e| e.index).collect::<Vec<_>>(), vec![3, 4]);
    let entries = parse(&data, FrameRate::whole(60)).unwrap();
    let none = select_entries(entries, &Some(vec![]));
    assert!(none.is_empty());
    let entries = parse(&data, FrameRate::whole(60)).unwrap();
    let all = select_entries(entries, &None);
    assert_eq!(all.iter().map(|e| e.index).collect::<Vec<_>>(), vec![1, 2, 3, 4]);
}

#[test]
fn clock_reading_round_trips() {
    let d = parse_duration("01:02:03:59", FrameRate::whole(60)).unwrap();
    assert_eq!(to_timestamp(d, true), "01:02:03");
    assert_eq!(to_timestamp(d, false), "01:02:03");
    let d = parse_duration("00:04:32:13", FrameRate::whole(60)).unwrap();
    assert_eq!(to_timestamp(d, false), "04:32");
    assert_eq!(to_timestamp(d, true), "00:04:32");
    assert_eq!(to_timestamp(0, false), "00:00");
    let d = parse_duration("123:00:00:00", FrameRate::whole(30)).unwrap();
    assert_eq!(to_timestamp(d, false), "123:00:00");
}

#[test]
fn chapter_lines_show_names_and_hours() {
    let data = file(&[
        record("001", "00:00:00:00", "00:00:00:01", " |C:Blue |M:Intro"),
        record("002", "00:02:10:15", "00:02:10:16", " |C:Blue"),
    ]);
    let entries = parse(&data, FrameRate::whole(60)).unwrap();
    assert_eq!(chapter_lines(&entries), vec!["00:00 Intro", "02:10 -"]);
    let long = file(&[
        record("001", "00:00:00:00", "00:00:00:01", " |M:Intro"),
        record("002", "01:00:00:00", "01:00:00:01", " |M:Late"),
    ]);
    let entries = parse(&long, FrameRate::whole(60)).unwrap();
    assert_eq!(chapter_lines(&entries), vec!["00:00:00 Intro", "01:00:00 Late"]);
}

#[test]
fn error_messages() {
    assert_eq!(Error::NoEntries.message(), "No entries");
    assert_eq!(Error::InvalidEntryFormat.message(), "Invalid entry format");
    assert_eq!(Error::InvalidIndexFormat.message(), "Invalid index format");
    assert_eq!(
        Error::InvalidTimestamp(String::from("a:b")).message(),
        "Invalid timestamp: a:b"
    );
}

#[test]
fn fractional_frame_counts() {
    assert_eq!(parse_duration("00:00:00:1.5", FrameRate::whole(60)).unwrap(), 25_000);
    assert_eq!(parse_duration("0.1234567", FrameRate::whole(1)).unwrap(), 123_456);
    assert_eq!(parse_duration("00:00:01:30.25", FrameRate::whole(60)).unwrap(), 1_504_166);
    assert_eq!(parse_duration("1.", FrameRate::whole(60)).unwrap(), 16_666);
    assert_eq!(parse_duration(".5", FrameRate::whole(60)).unwrap(), 8_333);
    assert_eq!(parse_duration("1.5:00", FrameRate::whole(60)).unwrap(), 1_000_000);
    assert!(matches!(parse_duration("1.2.3", FrameRate::whole(60)), Err(Error::InvalidTimestamp(_))));
    assert!(matches!(parse_duration(".", FrameRate::whole(60)), Err(Error::InvalidTimestamp(_))));
    let data = file(&[record("001", "00:00:01:7.5", "00:00:01:15", " |M:x")]);
    let entries = parse(&data, FrameRate::whole(60)).unwrap();
    assert_eq!(entries[0].timestamp, 1_125_000);
    assert_eq!(entries[0].duration, 125_000);
}

#[test]
fn explicit_duration_layout_needs_whole_frames() {
    let data = file(&[String::from("001  001  V  C  00:00:10:00\r\n |M:a |D:00:00:00:1.5")]);
    match parse_with_layout(&data, FrameRate::whole(60), Layout::ExplicitDuration) {
        Err(Error::InvalidTimestamp(t)) => assert_eq!(t, "00:00:00:1.5"),
        other => panic!("unexpected: {other:?}"),
    }
    let start = file(&[String::from("001  001  V  C  00:00:10:0.5\r\n |M:a")]);
    assert!(matches!(
        parse_with_layout(&start, FrameRate::whole(60), Layout::ExplicitDuration),
        Err(Error::InvalidTimestamp(_))
    ));
}

#[test]
fn signed_and_fractional_parts() {
    let r = FrameRate::whole(60);
    assert_eq!(parse_duration("+1", r).unwrap(), 16_666);
    assert_eq!(parse_duration("+0:+1", r).unwrap(), 16_666);
    assert_eq!(parse_duration("0:1.5:00", r).unwrap(), 1_000_000);
    assert_eq!(parse_duration("1.9:0:0:0", r).unwrap(), 3_600_000_000);
    assert!(matches!(parse_duration("+", r), Err(Error::InvalidTimestamp(_))));
    assert!(matches!(parse_duration("++1", r), Err(Error::InvalidTimestamp(_))));
    assert!(matches!(parse_duration("1+", r), Err(Error::InvalidTimestamp(_))));
    assert!(matches!(parse_duration("--1", r), Err(Error::InvalidTimestamp(_))));
    assert!(matches!(parse_duration("+-1", r), Err(Error::InvalidTimestamp(_))));
}

#[test]
fn index_with_plus_sign() {
    let data = file(&[record("+7", "00:00:00:00", "00:00:00:01", " |M:x")]);
    let entries = parse(&data, FrameRate::whole(60)).unwrap();
    assert_eq!(entries[0].index, 7);
    let twice = file(&[record("++7", "00:00:00:00", "00:00:00:01", " |M:x")]);
    assert!(matches!(parse(&twice, FrameRate::whole(60)), Err(Error::InvalidIndexFormat)));
}

#[test]
fn non_integer_frame_rates() {
    let r = FrameRate { num: 2997, den: 100 };
    assert_eq!(parse_duration("00:00:00:29.97", r).unwrap(), 1_000_000);
    assert_eq!(parse_duration("00:00:00:1", r).unwrap(), 33_366);
    let ntsc = FrameRate { num: 30000, den: 1001 };
    assert_eq!(parse_duration("00:00:00:30", ntsc).unwrap(), 1_001_000);
    assert_eq!(parse_duration("00:00:01:00", ntsc).unwrap(), 1_000_000);
    let data = file(&[record("001", "00:00:00:15", "00:00:00:30", " |M:x")]);
    let entries = parse(&data, ntsc).unwrap();
    assert_eq!(entries[0].timestamp, 500_500);
    assert_eq!(entries[0].duration, 500_500);
}

#[test]
fn unicode_white_space_separates_fields() {
    let data = file(&[String::from(
        "001\u{a0}001\u{3000}V  C  00:00:00:00 00:00:00:01\r\n\u{2003}|M:\u{a0}Intro\u{3000}",
    )]);
    let entries = parse(&data, FrameRate::whole(60)).unwrap();
    assert_eq!(entries[0].index, 1);
    assert_eq!(entries[0].name.as_deref(), Some("Intro"));
    assert_eq!(entries[0].description, None);
}

#[test]
fn clock_drops_sub_seconds() {
    assert_eq!(to_timestamp(5_999_999, false), to_timestamp(5_000_000, false));
    assert_eq!(to_timestamp(3_600_999_999, true), "01:00:00");
}

#[test]
fn negative_components() {
    let r = FrameRate::whole(60);
    assert_eq!(parse_duration("-1", r).unwrap(), -16_666);
    assert_eq!(parse_duration("00:00:-1:00", r).unwrap(), -1_000_000);
    assert_eq!(parse_duration("-1:30", r).unwrap(), -500_000);
    assert_eq!(parse_duration("-0.5", r).unwrap(), -8_333);
    assert_eq!(parse_duration("-1.5:0", r).unwrap(), -1_000_000);
    assert_eq!(parse_duration("-00:00:00:00", r).unwrap(), 0);
    assert!(matches!(
        parse_duration("-9999999999:00:00:00", r),
        Err(Error::InvalidTimestamp(_))
    ));
    let data = file(&[record("001", "00:00:-1:00", "00:00:00:00", " |M:x")]);
    let entries = parse(&data, r).unwrap();
    assert_eq!(entries[0].timestamp, -1_000_000);
    assert_eq!(entries[0].duration, 1_000_000);
}

#[test]
fn frame_fractions_are_exact() {
    let odd = FrameRate { num: 20_000_002, den: 10_000_000 };
    assert_eq!(parse_duration("00:00:00:2.0000002", odd).unwrap(), 1_000_000);
    let r = FrameRate { num: 2997, den: 100 };
    assert_eq!(parse_duration("0.00002997", r).unwrap(), 1);
    assert_eq!(parse_duration("0.000029969", r).unwrap(), 0);
    assert_eq!(
        parse_duration("1.00000000000000000000000000000000000000001", FrameRate::whole(1)).unwrap(),
        1_000_000
    );
}

#[test]
fn empty_timecode_message() {
    let e = parse_duration("", FrameRate::whole(60)).unwrap_err();
    assert_eq!(e.message(), "Invalid timestamp: empty");
}
