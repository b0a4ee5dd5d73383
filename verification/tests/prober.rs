use podspine::faststart::{needs_faststart, FaststartScan, HEADER_BYTES};
use podspine::prober::{as_text, keep_nonempty, parse_track, raw, read_probe, ProbeError, ProbedBook};
use podspine::ticks::{
    fmt_secs, parse_scaled, parse_seconds, parse_units, ratio_of, MAX_TICKS, TICKS_PER_MICRO, TICKS_PER_SEC,
};
use serde_json::Value;

const THREE_CHAPTERS: &str = r#"{
    "streams": [
        {"codec_type": "audio", "codec_name": "aac", "duration": "95.000000",
         "disposition": {"attached_pic": 0}},
        {"codec_type": "video", "codec_name": "mjpeg",
         "disposition": {"attached_pic": 1}}
    ],
    "chapters": [
        {"start_time": "0.000000", "end_time": "31.312000", "tags": {"title": "Introduction"}},
        {"start_time": "31.312000", "end_time": "33.600000", "tags": {"title": "Part 1"}},
        {"start_time": "33.600000", "end_time": "95.000000", "tags": {"title": "Chapter 1"}}
    ],
    "format": {"duration": "95.000000"}
}"#;

fn text(v: &Value, key: &str) -> Option<String> {
    v.get(key).and_then(Value::as_str).map(str::to_string)
}

fn list<'a>(v: &'a Value, key: &str) -> Vec<&'a Value> {
    v.get(key)
        .and_then(Value::as_array)
        .map(|a| a.iter().collect())
        .unwrap_or_default()
}

fn report(json: &str) -> raw::Probe {
    let v: Value = serde_json::from_str(json).unwrap();
    raw::Probe {
        streams: list(&v, "streams")
            .into_iter()
            .map(|s| raw::Stream {
                codec_type: text(s, "codec_type"),
                codec_name: text(s, "codec_name"),
                duration: text(s, "duration"),
                disposition: raw::Disposition {
                    attached_pic: s["disposition"]["attached_pic"].as_i64().unwrap_or(0) as i32,
                },
            })
            .collect(),
        chapters: list(&v, "chapters")
            .into_iter()
            .map(|c| raw::Chapter {
                start_time: text(c, "start_time"),
                end_time: text(c, "end_time"),
                tags: raw::Tags { title: text(&c["tags"], "title") },
            })
            .collect(),
        format: v.get("format").map(|f| raw::Format {
            duration: text(f, "duration"),
            tags: raw::FormatTags {
                track: text(&f["tags"], "track"),
                title: text(&f["tags"], "title"),
            },
        }),
    }
}

fn parse(json: &str) -> Result<ProbedBook, ProbeError> {
    read_probe(&report(json))
}

fn secs(ticks: i128) -> f64 {
    ticks as f64 / TICKS_PER_SEC as f64
}

#[test]
fn parses_chapters_duration_and_cover() {
    let book = parse(THREE_CHAPTERS).unwrap();
    assert_eq!(book.chapters.len(), 3);
    assert!(book.has_cover);
    assert_eq!(book.cover_codec.as_deref(), Some("mjpeg"));
    assert_eq!(book.audio_codec.as_deref(), Some("aac"));
    assert!((secs(book.duration) - 95.0).abs() < 1e-9);

    let c0 = &book.chapters[0];
    assert_eq!(c0.idx, 0);
    assert!((secs(c0.start) - 0.0).abs() < 1e-9);
    assert!((secs(c0.end) - 31.312).abs() < 1e-9);
    assert_eq!(c0.title.as_deref(), Some("Introduction"));

    assert!((secs(book.chapters[1].duration()) - 2.288).abs() < 1e-9);
}

#[test]
fn chapter_starts_are_monotonic() {
    let book = parse(THREE_CHAPTERS).unwrap();
    for w in book.chapters.windows(2) {
        assert!(w[0].start < w[1].start);
    }
}

#[test]
fn parses_track_and_title_tags() {
    let json = r#"{
        "streams": [{"codec_type": "audio", "disposition": {"attached_pic": 0}}],
        "chapters": [],
        "format": {"duration": "180.0", "tags": {"track": "3/12", "title": "The Third"}}
    }"#;
    let book = parse(json).unwrap();
    assert_eq!(book.track, Some(3));
    assert_eq!(book.title.as_deref(), Some("The Third"));
}

#[test]
fn track_parsing_handles_edge_cases() {
    assert_eq!(parse_track(Some("3")), Some(3));
    assert_eq!(parse_track(Some("03")), Some(3));
    assert_eq!(parse_track(Some("7/20")), Some(7));
    assert_eq!(parse_track(Some("")), None);
    assert_eq!(parse_track(Some("none")), None);
    assert_eq!(parse_track(None), None);
    assert_eq!(parse_track(Some("4294967296")), None);
}

#[test]
fn chapterless_file_is_ok_with_no_chapters() {
    let json = r#"{
        "streams": [{"codec_type": "audio", "codec_name": "aac", "duration": "600.0",
                     "disposition": {"attached_pic": 0}}],
        "chapters": [],
        "format": {"duration": "600.000000"}
    }"#;
    let book = parse(json).unwrap();
    assert!(book.chapters.is_empty());
    assert!(!book.has_cover);
    assert!((secs(book.duration) - 600.0).abs() < 1e-9);
}

#[test]
fn missing_title_becomes_none() {
    let json = r#"{
        "streams": [{"codec_type": "audio", "disposition": {"attached_pic": 0}}],
        "chapters": [{"start_time": "0.0", "end_time": "10.0", "tags": {}}],
        "format": {"duration": "10.0"}
    }"#;
    let book = parse(json).unwrap();
    assert_eq!(book.chapters[0].title, None);
}

#[test]
fn no_audio_stream_is_an_error() {
    let json = r#"{
        "streams": [{"codec_type": "video", "disposition": {"attached_pic": 1}}],
        "chapters": [],
        "format": {"duration": "10.0"}
    }"#;
    assert!(matches!(parse(json), Err(ProbeError::NoAudioStream)));
}

#[test]
fn duration_falls_back_to_stream_then_chapters() {
    let json = r#"{
        "streams": [{"codec_type": "audio", "duration": "123.5",
                     "disposition": {"attached_pic": 0}}],
        "chapters": [],
        "format": {}
    }"#;
    assert!((secs(parse(json).unwrap().duration) - 123.5).abs() < 1e-9);

    let json = r#"{
        "streams": [{"codec_type": "audio"}],
        "chapters": [{"start_time": "0", "end_time": "7.25"}]
    }"#;
    assert!((secs(parse(json).unwrap().duration) - 7.25).abs() < 1e-9);
}

#[test]
fn a_file_without_any_duration_is_an_error() {
    let json = r#"{"streams": [{"codec_type": "audio"}], "chapters": []}"#;
    assert!(matches!(parse(json), Err(ProbeError::DurationUnavailable)));
}

#[test]
fn unparseable_chapter_time_is_a_typed_error() {
    let json = r#"{
        "streams": [{"codec_type": "audio", "disposition": {"attached_pic": 0}}],
        "chapters": [{"start_time": "not-a-number", "end_time": "10.0", "tags": {}}],
        "format": {"duration": "10.0"}
    }"#;
    match parse(json) {
        Err(ProbeError::InvalidChapterTime { idx, field, value }) => {
            assert_eq!(idx, 0);
            assert_eq!(field, "start_time");
            assert_eq!(value, "not-a-number");
        }
        other => panic!("expected InvalidChapterTime, got {other:?}"),
    }
}

#[test]
fn empty_texts_count_as_none() {
    assert_eq!(keep_nonempty(&Some(String::new())), None);
    assert_eq!(keep_nonempty(&Some("x".to_string())).as_deref(), Some("x"));
    assert_eq!(as_text(&Some("x".to_string())), Some("x"));
    assert_eq!(as_text(&None), None);
}

#[test]
fn times_are_read_and_written_exactly() {
    let chars = |s: &str| s.chars().collect::<Vec<char>>();
    assert_eq!(parse_seconds(&chars("31.312000")), Some(31_312_000 * TICKS_PER_MICRO));
    assert_eq!(parse_seconds(&chars("-1")), Some(-TICKS_PER_SEC));
    assert_eq!(parse_seconds(&chars(".5")), Some(TICKS_PER_SEC / 2));
    assert_eq!(parse_seconds(&chars("")), None);
    assert_eq!(parse_seconds(&chars("1.2.3")), None);
    let count = |s: &str, unit: u64| parse_units(&chars(s), unit, u64::MAX as u128).map(|p| p.count);
    assert_eq!(count("0.25", 1000), Some(250));
    // Exponents, as a float is written.
    assert_eq!(parse_seconds(&chars("1.5e3")), Some(1500 * TICKS_PER_SEC));
    assert_eq!(parse_seconds(&chars("25E-2")), Some(TICKS_PER_SEC / 4));
    assert_eq!(parse_seconds(&chars("-.5e+1")), Some(-5 * TICKS_PER_SEC));
    assert_eq!(parse_seconds(&chars("0e99999999999999999999999999999999999999")), Some(0));
    assert_eq!(parse_seconds(&chars("7e-99999999999999999999999999999999999999")), Some(0));
    // A hundred thousand years, and a time beyond the longest that is told apart.
    assert_eq!(parse_seconds(&chars("3155760000000")), Some(3_155_760_000_000 * TICKS_PER_SEC));
    assert_eq!(parse_seconds(&chars("1e30")), Some(MAX_TICKS));
    assert_eq!(parse_seconds(&chars("-1e30")), Some(-MAX_TICKS));
    assert_eq!(fmt_secs(3_155_760_000_000 * TICKS_PER_SEC), "3155760000000.000000");
    assert_eq!(fmt_secs(i128::MIN).len(), 37);
    assert_eq!(count("123456e-4", 1), Some(12));
    assert_eq!(count("0.00000000000000000000000000012e28", 1000), Some(1200));
    assert_eq!(count("0.999999999999999999999999999999", 1), Some(0));
    assert_eq!(count("1e40", 1), Some(u64::MAX as u128));
    assert_eq!(count("99999999999999999999", 1), Some(u64::MAX as u128));
    for none in ["e5", "1e", "1e+", "1e1.5", "1e5e5", ".e1", "inf", "nan", "1 e5"] {
        assert_eq!(parse_seconds(&chars(none)), None, "{none}");
    }
    assert_eq!(fmt_secs(31_312_000 * TICKS_PER_MICRO), "31.312000");
    assert_eq!(fmt_secs(0), "0.000000");
    assert_eq!(fmt_secs(TICKS_PER_SEC + 1), "1.000000");
}

fn mp4_box(kind: &[u8; 4], payload: &[u8]) -> Vec<u8> {
    let size = (8 + payload.len()) as u32;
    let mut v = size.to_be_bytes().to_vec();
    v.extend_from_slice(kind);
    v.extend_from_slice(payload);
    v
}

/// Runs the scan as a reader of a file would: it asks for headers, and gets at most as many bytes
/// as there are.
fn scanned(data: &[u8]) -> bool {
    let mut scan = FaststartScan::new(data.len() as u64);
    while let Some(at) = scan.wants() {
        let from = at as usize;
        let to = (from + HEADER_BYTES).min(data.len());
        scan.feed(&data[from..to]);
    }
    scan.verdict()
}

fn slow(chunks: &[Vec<u8>]) -> bool {
    let bytes: Vec<u8> = chunks.iter().flatten().copied().collect();
    let r = needs_faststart(&bytes);
    assert_eq!(r, scanned(&bytes));
    r
}

#[test]
fn moov_before_mdat_is_faststart() {
    assert!(
        !slow(&[
            mp4_box(b"ftyp", b"M4A isom"),
            mp4_box(b"moov", &[0u8; 16]),
            mp4_box(b"mdat", &[0u8; 64]),
        ]),
        "moov-first mp4 is already faststart"
    );
}

#[test]
fn mdat_before_moov_needs_faststart() {
    assert!(
        slow(&[
            mp4_box(b"ftyp", b"M4A isom"),
            mp4_box(b"mdat", &[0u8; 64]),
            mp4_box(b"moov", &[0u8; 16]),
        ]),
        "mdat-first mp4 needs faststart"
    );
}

#[test]
fn mdat_first_without_ftyp_is_not_treated_as_mp4() {
    assert!(!slow(&[mp4_box(b"mdat", &[0u8; 32]), mp4_box(b"moov", &[0u8; 8])]));
}

#[test]
fn non_mp4_bytes_are_false() {
    assert!(!slow(&[b"ID3\x04\x00\x00\x00\x00\x00\x21rest-of-file".to_vec()]));
}

#[test]
fn short_or_missing_file_is_false() {
    assert!(!slow(&[vec![0u8, 1, 2]]));
    assert!(!slow(&[]));
}

#[test]
fn a_box_smaller_than_its_8_byte_header_is_malformed() {
    assert!(!slow(&[vec![0, 0, 0, 4, b'f', b't', b'y', b'p']]));
}

#[test]
fn a_box_size_overflowing_the_offset_terminates() {
    let mut bytes = mp4_box(b"ftyp", b"isom");
    bytes.extend_from_slice(&1u32.to_be_bytes());
    bytes.extend_from_slice(b"free");
    bytes.extend_from_slice(&u64::MAX.to_be_bytes());
    assert!(!slow(&[bytes]));
}

#[test]
fn a_crafted_64bit_largesize_box_does_not_overflow() {
    let mut bytes = 1u32.to_be_bytes().to_vec();
    bytes.extend_from_slice(b"free");
    bytes.extend_from_slice(&(u64::MAX - 4).to_be_bytes());
    assert!(!slow(&[bytes]));
}

#[test]
fn a_zero_size_box_does_not_loop() {
    let mut bytes = mp4_box(b"ftyp", b"isom");
    bytes.extend_from_slice(&0u32.to_be_bytes());
    bytes.extend_from_slice(b"free");
    bytes.extend_from_slice(&[0u8; 16]);
    assert!(!slow(&[bytes]));
}

#[test]
fn a_large_box_is_stepped_over() {
    let mut bytes = mp4_box(b"ftyp", b"isom");
    bytes.extend_from_slice(&1u32.to_be_bytes());
    bytes.extend_from_slice(b"free");
    bytes.extend_from_slice(&24u64.to_be_bytes());
    bytes.extend_from_slice(&[0u8; 8]);
    bytes.extend_from_slice(&mp4_box(b"mdat", &[0u8; 8]));
    assert!(slow(&[bytes]));
}

#[test]
fn a_ratio_is_computed_of_its_digits() {
    let scaled = |s: &str| parse_scaled(&s.chars().collect::<Vec<char>>()).unwrap();
    let ticks = |n: u64, num: &str, den: &str| ratio_of(n, scaled(num), scaled(den)) as i128;
    assert_eq!(ticks(1500, "1", "1000"), 3 * TICKS_PER_SEC / 2);
    assert_eq!(ticks(7, "1", "14112000000"), 1, "a large denominator");
    assert_eq!(ticks(2, "30000000000", "10000000000"), 6 * TICKS_PER_SEC);
    assert_eq!(ticks(1_000_000, "0.000000000001", "1"), TICKS_PER_SEC / 1_000_000);
    assert_eq!(ticks(5, "1e-20", "1e-20"), 5 * TICKS_PER_SEC);
    assert_eq!(ticks(3, "1e300", "1e299"), 30 * TICKS_PER_SEC);
    assert_eq!(ticks(0, "1e300", "1"), 0);
    assert_eq!(ticks(1, "1e300", "1"), MAX_TICKS);
    assert_eq!(ticks(1, "1", "1e300"), 0);
    assert_eq!(ticks(u64::MAX, "1", "3"), u64::MAX as i128 * TICKS_PER_SEC / 3);
}
