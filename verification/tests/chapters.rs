use podspine::chapters::{
    cue_exts, cue_index_ticks, cue_quoted, ffmeta_exts, parse_cue, parse_ffmeta, pick_sidecar, renumber,
    resolve, ChapterSource,
};
use podspine::prober::Chapter;
use podspine::ticks::TICKS_PER_SEC;

fn secs(n: i128) -> i128 {
    n * TICKS_PER_SEC
}

fn embedded() -> Vec<Chapter> {
    vec![Chapter {
        idx: 0,
        start: 0,
        end: secs(100),
        title: Some("Embedded".to_string()),
    }]
}

#[test]
fn cue_index_75_frames_per_second() {
    let t = cue_index_ticks("INDEX 01 01:00:37").unwrap() as f64 / TICKS_PER_SEC as f64;
    assert!((t - 60.4933333).abs() < 1e-6);
    assert_eq!(
        cue_index_ticks("INDEX 01 01:00:37"),
        Some(secs(60) + 37 * (TICKS_PER_SEC / 75))
    );
    assert_eq!(cue_index_ticks("INDEX 01 00:00:00"), Some(0));
}

#[test]
fn parse_cue_tracks_titles_and_ends() {
    let cue = r#"
TITLE "The Album"
FILE "book.m4b" WAVE
  TRACK 01 AUDIO
    TITLE "Chapter One"
    INDEX 01 00:00:00
  TRACK 02 AUDIO
    TITLE "Chapter Two"
    INDEX 01 30:00:00
"#;
    let ch = parse_cue(cue, secs(3600));
    assert_eq!(ch.len(), 2);
    assert_eq!(ch[0].idx, 0);
    assert_eq!(ch[0].start, 0);
    assert_eq!(ch[0].end, secs(1800), "ends where track 2 begins");
    assert_eq!(ch[0].title.as_deref(), Some("Chapter One"));
    assert_eq!(ch[1].start, secs(1800));
    assert_eq!(ch[1].end, secs(3600), "last chapter ends at duration");
    assert_eq!(ch[1].title.as_deref(), Some("Chapter Two"));
}

#[test]
fn parse_ffmeta_chapters_with_timebase() {
    let meta = ";FFMETADATA1\n\
         [CHAPTER]\nTIMEBASE=1/1000\nSTART=0\nEND=10000\ntitle=One\n\
         [CHAPTER]\nTIMEBASE=1/1000\nSTART=10000\nEND=25000\ntitle=Two\n";
    let ch = parse_ffmeta(meta);
    assert_eq!(ch.len(), 2);
    assert_eq!(ch[0].start, 0);
    assert_eq!(ch[0].end, secs(10));
    assert_eq!(ch[0].title.as_deref(), Some("One"));
    assert_eq!(ch[1].start, secs(10));
    assert_eq!(ch[1].end, secs(25));
}

const FFMETA: &str = ";FFMETADATA1\n[CHAPTER]\nTIMEBASE=1/1000\nSTART=0\nEND=5000\ntitle=A\n";

#[test]
fn resolve_prefers_cue_then_ffmeta_then_embedded() {
    let cue = "TRACK 01 AUDIO\n  TITLE \"C\"\n  INDEX 01 00:00:00\n";

    let r = resolve(None, None, embedded(), secs(100), false);
    assert_eq!(r.source, ChapterSource::Embedded);

    let r = resolve(None, Some(FFMETA), embedded(), secs(100), false);
    assert_eq!(r.source, ChapterSource::Ffmeta);

    let r = resolve(Some(cue), Some(FFMETA), embedded(), secs(100), false);
    assert_eq!(r.source, ChapterSource::Cue);
    assert_eq!(r.chapters.len(), 1);

    let r = resolve(Some(cue), Some(FFMETA), embedded(), secs(100), true);
    assert_eq!(r.source, ChapterSource::Embedded);
    assert_eq!(r.chapters[0].title.as_deref(), Some("Embedded"));
}

fn names(list: &[&str]) -> Vec<String> {
    list.iter().map(|s| s.to_string()).collect()
}

#[test]
fn opf_nfo_odm_are_never_chapter_sources() {
    let audio = "/lib/book.m4b";
    let siblings = names(&["book.m4b", "book.opf", "book.nfo", "book.odm"]);
    assert_eq!(pick_sidecar(audio, &siblings, &cue_exts()), None);
    assert_eq!(pick_sidecar(audio, &siblings, &ffmeta_exts()), None);
    let r = resolve(None, None, embedded(), secs(100), false);
    assert_eq!(r.source, ChapterSource::Embedded);
    assert_eq!(r.chapters.len(), 1);
    assert_eq!(r.chapters[0].title.as_deref(), Some("Embedded"));
    assert_eq!(r.chapters[0].end, secs(100));
}

#[test]
fn a_sidecar_is_picked_by_stem_and_extension_in_any_case() {
    let audio = "/b/book.m4b";
    for name in ["book.cue", "book.CUE", "book.Cue", "book.cUe"] {
        let siblings = names(&["book.m4b", "other.cue", "book", "cue", name]);
        assert_eq!(pick_sidecar(audio, &siblings, &cue_exts()), Some(4), "{name}");
        assert_eq!(pick_sidecar(audio, &siblings, &ffmeta_exts()), None, "{name}");
    }
    let siblings = names(&["Book.cue", "book.part.cue", "book.cue.bak"]);
    assert_eq!(pick_sidecar(audio, &siblings, &cue_exts()), None, "another stem or extension");
    assert_eq!(pick_sidecar("..", &names(&["x.cue"]), &cue_exts()), None, "no file name");
}

#[test]
fn sidecars_are_tried_in_order() {
    let audio = "/b/book.m4b";
    let siblings = names(&["book.FFMETADATA", "book.Ffmeta", "book.FFMETA", "book.ffmetadata"]);
    assert_eq!(pick_sidecar(audio, &siblings, &ffmeta_exts()), Some(2));
    let siblings = names(&["book.Cue", "book.CUE", "book.cue"]);
    assert_eq!(pick_sidecar(audio, &siblings, &cue_exts()), Some(2));
}

#[test]
fn a_timebase_may_have_large_and_small_numbers() {
    let block = |base: &str, start: i64, end: i64| {
        parse_ffmeta(&format!("[CHAPTER]\nTIMEBASE={base}\nSTART={start}\nEND={end}\n"))
    };
    let ch = block("1/14112000000", 14_112_000_000, 28_224_000_000);
    assert_eq!((ch[0].start, ch[0].end), (secs(1), secs(2)));
    let ch = block("0.0000000001/1", 10_000_000_000, 20_000_000_000);
    assert_eq!((ch[0].start, ch[0].end), (secs(1), secs(2)));
    let ch = block("1/1", -5, 5_000_000_000_000);
    assert_eq!((ch[0].start, ch[0].end), (secs(-5), secs(5_000_000_000_000)));
    let ch = block("-1/-2", 4, 8);
    assert_eq!((ch[0].start, ch[0].end), (secs(2), secs(4)));
}

#[test]
fn times_of_many_years_are_read() {
    assert_eq!(cue_index_ticks("INDEX 01 90000000:00:00"), Some(secs(5_400_000_000)));
    let ch = parse_cue("TRACK 01 AUDIO\nINDEX 01 90000000:00:00\n", secs(6_000_000_000));
    assert_eq!((ch[0].start, ch[0].end), (secs(5_400_000_000), secs(6_000_000_000)));
}

#[test]
fn a_dropped_block_leaves_no_title_behind() {
    let text = "[CHAPTER]\nSTART=0\ntitle=NoEnd\n[CHAPTER]\nSTART=1000\nEND=2000\n";
    let ch = parse_ffmeta(text);
    assert_eq!(ch.len(), 1);
    assert_eq!(ch[0].title, None);
    assert_eq!((ch[0].start, ch[0].end), (secs(1), secs(2)));
}

#[test]
fn parse_ffmeta_handles_sections_and_edge_keys() {
    let meta = ";FFMETADATA1\n\
        [CHAPTER]\nTIMEBASE=1/1000\nSTART=0\nEND=2000\ntitle=One\nARTIST=ignored\n\
        [CHAPTER]\nTIMEBASE=0/0\nSTART=2000\nEND=6000\ntitle=Two\n\
        [CHAPTER]\nSTART=6000\ntitle=NoEnd\n\
        [STREAM]\ncodec=aac\n";
    let ch = parse_ffmeta(meta);
    assert_eq!(ch.len(), 2, "the END-less chapter is dropped");
    assert_eq!(ch[0].end, secs(2));
    assert_eq!(ch[1].start, secs(2));
    assert_eq!(ch[1].end, secs(6));
}

#[test]
fn resolve_falls_through_an_empty_cue_to_ffmeta() {
    let r = resolve(
        Some("REM nothing usable here\n"),
        Some(FFMETA),
        embedded(),
        secs(100),
        false,
    );
    assert_eq!(r.source, ChapterSource::Ffmeta);
}

#[test]
fn a_quoted_title_is_taken_between_its_quotes() {
    assert_eq!(cue_quoted("TITLE \"A Book\"").as_deref(), Some("A Book"));
    assert_eq!(cue_quoted("TITLE"), None);
}

#[test]
fn malformed_indices_are_no_time() {
    assert_eq!(cue_index_ticks("INDEX 01 1:2"), None);
    assert_eq!(cue_index_ticks("INDEX 01 aa:00:00"), None);
    assert_eq!(cue_index_ticks("INDEX"), None);
}

#[test]
fn chapters_of_a_cue_follow_each_other_without_gaps() {
    let cue = "TRACK 01 AUDIO\nINDEX 01 00:00:00\nTRACK 02 AUDIO\nINDEX 01 01:00:00\nTRACK 03 AUDIO\nINDEX 01 02:30:00\n";
    let ch = parse_cue(cue, secs(200));
    assert_eq!(ch.len(), 3);
    for w in ch.windows(2) {
        assert_eq!(w[0].end, w[1].start);
    }
    assert_eq!(ch[2].end, secs(200));
}

#[test]
fn renumbering_counts_from_zero() {
    let ch = renumber(vec![
        Chapter { idx: 7, start: 0, end: 1, title: None },
        Chapter { idx: 3, start: 1, end: 2, title: Some("x".to_string()) },
    ]);
    assert_eq!(ch.iter().map(|c| c.idx).collect::<Vec<_>>(), vec![0, 1]);
    assert_eq!(ch[1].title.as_deref(), Some("x"));
}
