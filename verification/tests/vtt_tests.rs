use subvtt::errors::Error;
use subvtt::timetypes::{TimePoint, TimeSpan};
use subvtt::vtt::{ErrorKind, VttFile};
use subvtt::SubtitleEntry;
use subvtt::SubtitleFileInterface;

fn span(start: i64, end: i64) -> TimeSpan {
    TimeSpan::new(TimePoint::from_msecs(start), TimePoint::from_msecs(end))
}

fn data_string(file: &VttFile) -> String {
    String::from_utf8(file.to_data().unwrap()).unwrap()
}

#[test]
fn create_vtt_test() {
    let lines = vec![
        (span(1500, 3700), "line1".to_string()),
        (span(4500, 8700), "line2".to_string()),
    ];
    let file = VttFile::create(lines).unwrap();

    // generate file
    let data_string = String::from_utf8(file.to_data().unwrap()).unwrap();
    let expected =
        "WEBVTT\n\n1\n00:00:01.500 --> 00:00:03.700\nline1\n\n2\n00:00:04.500 --> 00:00:08.700\nline2\n\n"
            .to_string();
    assert_eq!(data_string, expected);
}

#[test]
fn timestamp_formatting_exactness() {
    let file = VttFile::create(vec![
        (span(1500, 3700), "a".to_string()),
        (span(3661500, 3661500), "b".to_string()),
    ])
    .unwrap();
    let data = data_string(&file);
    assert!(data.contains("00:00:01.500 --> 00:00:03.700"));
    assert!(data.contains("01:01:01.500 --> 01:01:01.500"));
}

#[test]
fn timepoint_components() {
    let t = TimePoint::from_msecs(3_661_500);
    assert_eq!(t.hours(), 1);
    assert_eq!(t.mins_comp(), 1);
    assert_eq!(t.secs_comp(), 1);
    assert_eq!(t.msecs_comp(), 500);
    assert_eq!(t.msecs(), 3_661_500);

    // hours grow past two digits while the rest stay fixed-width
    let file = VttFile::create(vec![(
        span(360_000_000, 360_000_001),
        "x".to_string(),
    )])
    .unwrap();
    assert!(data_string(&file).contains("100:00:00.000 --> 100:00:00.001"));
}

#[test]
fn index_assignment_in_input_order() {
    let file = VttFile::create(vec![
        (span(9000, 9500), "c".to_string()),
        (span(0, 100), "a".to_string()),
        (span(5000, 6000), "b".to_string()),
    ])
    .unwrap();
    let expected = "WEBVTT\n\n1\n00:00:09.000 --> 00:00:09.500\nc\n\n2\n00:00:00.000 --> 00:00:00.100\na\n\n3\n00:00:05.000 --> 00:00:06.000\nb\n\n";
    assert_eq!(data_string(&file), expected);
}

#[test]
fn round_trip_create_serialize_parse() {
    let pairs = vec![
        (span(1500, 3700), "first line\nsecond line".to_string()),
        (span(4500, 8700), "single".to_string()),
    ];
    let file = VttFile::create(pairs).unwrap();
    let bytes = file.to_data().unwrap();
    let text = String::from_utf8(bytes).unwrap();
    let reparsed = VttFile::parse(&text).unwrap();
    let entries = reparsed.get_subtitle_entries().unwrap();
    assert_eq!(entries.len(), 2);
    assert_eq!(entries[0].timespan, span(1500, 3700));
    assert_eq!(entries[0].line, Some("first line\nsecond line".to_string()));
    assert_eq!(entries[1].timespan, span(4500, 8700));
    assert_eq!(entries[1].line, Some("single".to_string()));
}

#[test]
fn parse_serialize_parse_idempotent() {
    // single-digit hours and extra blank lines are tolerated on read,
    // and normalized on write
    let input = "WEBVTT\n\n\n7\n0:00:01.500 --> 0:00:03.700\nhello\nworld\n\n\n\n12\n00:01:00.000 --> 00:01:02.000\nbye\n\n   \n";
    let first = VttFile::parse(input).unwrap();
    let once = String::from_utf8(first.to_data().unwrap()).unwrap();
    let second = VttFile::parse(&once).unwrap();
    let e1 = first.get_subtitle_entries().unwrap();
    let e2 = second.get_subtitle_entries().unwrap();
    assert_eq!(e1, e2);
    assert_eq!(e1[0].timespan, span(1500, 3700));
    assert_eq!(e1[0].line, Some("hello\nworld".to_string()));
    assert_eq!(e1[1].timespan, span(60000, 62000));
    // the declared indices are kept verbatim
    assert!(once.contains("\n7\n"));
    assert!(once.contains("\n12\n"));
    let twice = String::from_utf8(second.to_data().unwrap()).unwrap();
    assert_eq!(once, twice);
}

#[test]
fn parse_without_header() {
    let input = "1\n00:00:00.000 --> 00:00:01.000\nplain\n";
    let file = VttFile::parse(input).unwrap();
    let entries = file.get_subtitle_entries().unwrap();
    assert_eq!(entries.len(), 1);
    assert_eq!(entries[0].timespan, span(0, 1000));
    assert_eq!(entries[0].line, Some("plain".to_string()));
}

#[test]
fn parse_empty_input() {
    let file = VttFile::parse("").unwrap();
    assert_eq!(file.get_subtitle_entries().unwrap().len(), 0);
    let header_only = VttFile::parse("WEBVTT\n\n").unwrap();
    assert_eq!(header_only.get_subtitle_entries().unwrap().len(), 0);
}

#[test]
fn parse_error_locality_line_seven() {
    // line 7 holds a malformed timestamp
    let input = "1\n00:00:00.000 --> 00:00:01.000\ntext a\ntext b\n\n2\n00:99 --> bogus\ntext c\n";
    let err = VttFile::parse(input).unwrap_err();
    match err.kind() {
        ErrorKind::ExpectedTimestampLine { line } => {
            assert_eq!(line, "00:99 --> bogus");
        }
        other => panic!("wrong error kind: {:?}", other),
    }
}

#[test]
fn parse_error_bad_index_line() {
    let input = "WEBVTT\n\nnot a number\n00:00:00.000 --> 00:00:01.000\ntext\n";
    let err = VttFile::parse(input).unwrap_err();
    assert_eq!(
        err,
        Error::ParsingError(ErrorKind::ExpectedIndexLine {
            line: "not a number".to_string()
        })
    );
}

#[test]
fn parse_error_missing_text_block() {
    let input = "1\n00:00:00.000 --> 00:00:01.000\n\n";
    let err = VttFile::parse(input).unwrap_err();
    assert_eq!(
        err,
        Error::ParsingError(ErrorKind::ErrorAtLine { line_num: 3 })
    );
}

#[test]
fn parse_error_inverted_interval() {
    let input = "1\n00:00:05.000 --> 00:00:01.000\ntext\n";
    let err = VttFile::parse(input).unwrap_err();
    assert!(matches!(
        err,
        Error::ParsingError(ErrorKind::ExpectedTimestampLine { .. })
    ));
}

#[test]
fn parse_error_overlong_index() {
    // twenty digits exceed the index type
    let input = "99999999999999999999\n00:00:00.000 --> 00:00:01.000\ntext\n";
    let err = VttFile::parse(input).unwrap_err();
    assert!(matches!(
        err,
        Error::ParsingError(ErrorKind::ExpectedIndexLine { .. })
    ));
}

#[test]
fn parse_accepts_leading_zeros_in_index() {
    let input = "007\n00:00:00.000 --> 00:00:01.000\ntext\n";
    let file = VttFile::parse(input).unwrap();
    assert!(data_string(&file).contains("\n7\n"));
}

#[test]
fn update_replaces_timing_and_keeps_text_when_absent() {
    let mut file = VttFile::create(vec![
        (span(1000, 2000), "keep me".to_string()),
        (span(3000, 4000), "replace me".to_string()),
    ])
    .unwrap();
    let entries = vec![
        SubtitleEntry::new(span(1100, 2100), None),
        SubtitleEntry::new(span(3300, 4300), Some("replaced".to_string())),
    ];
    file.update_subtitle_entries(&entries).unwrap();
    let expected = "WEBVTT\n\n1\n00:00:01.100 --> 00:00:02.100\nkeep me\n\n2\n00:00:03.300 --> 00:00:04.300\nreplaced\n\n";
    assert_eq!(data_string(&file), expected);
}

#[test]
fn update_splits_multiline_text() {
    let mut file = VttFile::create(vec![(span(0, 1000), "old".to_string())]).unwrap();
    let entries = vec![SubtitleEntry::new(
        span(0, 1000),
        Some("one\ntwo".to_string()),
    )];
    file.update_subtitle_entries(&entries).unwrap();
    let data = data_string(&file);
    assert_eq!(data, "WEBVTT\n\n1\n00:00:00.000 --> 00:00:01.000\none\ntwo\n\n");
    let entries_back = file.get_subtitle_entries().unwrap();
    assert_eq!(entries_back[0].line, Some("one\ntwo".to_string()));
}

#[test]
fn adapter_contract_moves_entries_between_files() {
    let source = VttFile::create(vec![
        (span(100, 200), "alpha".to_string()),
        (span(300, 400), "beta\ngamma".to_string()),
    ])
    .unwrap();
    let mut target = VttFile::create(vec![
        (span(0, 1), "x".to_string()),
        (span(2, 3), "y".to_string()),
    ])
    .unwrap();
    let entries = SubtitleFileInterface::get_subtitle_entries(&source).unwrap();
    SubtitleFileInterface::update_subtitle_entries(&mut target, &entries).unwrap();
    let moved = SubtitleFileInterface::to_data(&target).unwrap();
    assert_eq!(
        String::from_utf8(moved).unwrap(),
        "WEBVTT\n\n1\n00:00:00.100 --> 00:00:00.200\nalpha\n\n2\n00:00:00.300 --> 00:00:00.400\nbeta\ngamma\n\n"
    );
}

#[test]
fn entries_expose_parsed_timing_and_text() {
    let input = "WEBVTT\n\n1\n01:02:03.004 --> 02:03:04.005\nwords\n";
    let file = VttFile::parse(input).unwrap();
    let entries = file.get_subtitle_entries().unwrap();
    let start = 1 * 3_600_000 + 2 * 60_000 + 3 * 1_000 + 4;
    let end = 2 * 3_600_000 + 3 * 60_000 + 4 * 1_000 + 5;
    assert_eq!(entries[0].timespan, span(start, end));
    assert_eq!(entries[0].timespan.start().msecs(), start);
    assert_eq!(entries[0].timespan.end().msecs(), end);
}
