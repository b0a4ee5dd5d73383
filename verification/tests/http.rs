use podspine::config::{StorageMode, TranscodeMode};
use podspine::http::audio::{
    audio_position, book_is_regenerable, book_is_saver, book_is_transcoded, find_episode,
    resolve_audio_target, AudioFacts, RegenOp,
};
use podspine::http::cache::{after_removal, evict, next_victim, plan_eviction, CacheEntry};
use podspine::http::feeds::{feed_book, feed_xml};
use podspine::http::requests::{capability_request, change_request, feed_request, Refusal};
use podspine::http::{
    book_card, book_detail, canonical_under, etag, feed_key, image_mime, is_trusted, is_unchanged,
    mime_for, referer_path, same_origin, theme_cookie, theme_from_cookie, valid_feed_id, valid_slug,
    AppError,
};
use podspine::index::{hold_records, BookRow, EpisodeRow};
use podspine::metrics::ErrorKind;
use podspine::splitter::ChapterCut;
use podspine::ticks::TICKS_PER_SEC;
use podspine::ui::Theme;

fn book(storage: Option<StorageMode>, transcode: Option<TranscodeMode>) -> BookRow {
    BookRow {
        id: "b".into(),
        slug: "b".into(),
        feed_id: "cap".into(),
        title: "T".into(),
        author: None,
        cover_path: None,
        source_path: "/x".into(),
        source_mtime: 0,
        status: "ready".into(),
        storage_mode: storage,
        default_cover_url: None,
        force_embedded: false,
        transcode,
    }
}

fn episode(idx: i64, file_path: &str, source_path: &str) -> EpisodeRow {
    EpisodeRow {
        guid: format!("g{idx}"),
        book_id: "b".into(),
        idx,
        title: format!("Chapter {}", idx + 1),
        file_path: file_path.into(),
        source_path: source_path.into(),
        needs_faststart: false,
        byte_length: 1000,
        duration: 30 * TICKS_PER_SEC,
        start: 10 * TICKS_PER_SEC,
        pubdate_epoch: 1_700_000_000 + 60 * idx,
    }
}

#[test]
fn mime_by_extension() {
    assert_eq!(mime_for("/x/001.m4a"), "audio/mp4");
    assert_eq!(mime_for("/x/001.MP3"), "audio/mpeg");
    assert_eq!(mime_for("/x/001.flac"), "audio/flac");
    assert_eq!(mime_for("/x/001.ogg"), "audio/ogg");
    assert_eq!(mime_for("/x/001.opus"), "audio/ogg");
    assert_eq!(mime_for("/x/blob"), "audio/mp4");
}

#[test]
fn book_is_saver_follows_per_book_then_global() {
    let mk = |mode: Option<StorageMode>| book(mode, None);
    assert!(book_is_saver(
        &mk(Some(StorageMode::Saver)),
        StorageMode::Full
    ));
    assert!(!book_is_saver(
        &mk(Some(StorageMode::Full)),
        StorageMode::Saver
    ));
    assert!(book_is_saver(&mk(None), StorageMode::Saver));
    assert!(!book_is_saver(&mk(None), StorageMode::Full));
}

#[test]
fn a_transcoded_book_is_never_treated_as_regenerable() {
    let saver = Some(StorageMode::Saver);
    assert!(book_is_transcoded(&book(saver, Some(TranscodeMode::Aac))));
    assert!(book_is_transcoded(&book(saver, Some(TranscodeMode::Mp3))));
    assert!(!book_is_transcoded(&book(saver, Some(TranscodeMode::Off))));
    assert!(!book_is_transcoded(&book(saver, None)));
    assert!(book_is_saver(
        &book(saver, Some(TranscodeMode::Aac)),
        StorageMode::Full
    ));
    assert!(!book_is_regenerable(
        &book(saver, Some(TranscodeMode::Aac)),
        StorageMode::Saver,
        true
    ));
    assert!(book_is_regenerable(&book(saver, None), StorageMode::Full, true));
    assert!(!book_is_regenerable(&book(saver, None), StorageMode::Full, false));
}

#[test]
fn valid_slug_allow_list() {
    assert!(valid_slug("dracula"));
    assert!(valid_slug("dracula-2"));
    assert!(valid_slug("a1b2-c3"));
    for bad in [
        "",
        "..",
        "../etc/passwd",
        "a/b",
        "a\\b",
        "/abs",
        "C:",
        "Dracula",
        "a.b",
        "a b",
        "a%2e",
        "café",
    ] {
        assert!(!valid_slug(bad), "must reject {bad:?}");
    }
}

#[test]
fn valid_feed_id_allow_list() {
    assert!(valid_feed_id("Xk9mQ2vP7nR4tB1cY6wZ8a"));
    assert!(valid_feed_id("aA0-_zZ"));
    for bad in [
        "",
        "..",
        "../etc/passwd",
        "a/b",
        "a\\b",
        "a.b",
        "a b",
        "a%2e",
        "café",
        &"x".repeat(65),
    ] {
        assert!(!valid_feed_id(bad), "must reject {bad:?}");
    }
}

#[test]
fn referer_path_extracts_path_and_blocks_open_redirect() {
    assert_eq!(
        referer_path("http://192.168.1.5:8080/book/dracula").as_deref(),
        Some("/book/dracula")
    );
    assert_eq!(
        referer_path("https://podspine.example/subscribe/x?y=1").as_deref(),
        Some("/subscribe/x?y=1")
    );
    assert_eq!(referer_path("http://host").as_deref(), Some("/"));
    assert_eq!(referer_path("/book/x").as_deref(), Some("/book/x"));
    assert_eq!(referer_path("/a://b/c").as_deref(), Some("/a://b/c"));
    assert_eq!(referer_path("//a://b/c"), None);
    assert_eq!(referer_path("http://evil.com//evil.com/x"), None);
    assert_eq!(referer_path("//evil.com/x"), None);
    assert_eq!(referer_path("javascript:alert(1)"), None);
}

#[test]
fn same_origin_guard() {
    let base = "http://host:8087";
    assert!(same_origin(Some("same-origin"), None, base));
    assert!(same_origin(Some("none"), None, base));
    assert!(!same_origin(Some("cross-site"), None, base));
    assert!(same_origin(None, Some("http://host:8087"), base));
    assert!(!same_origin(None, Some("http://host:8087.evil.com"), base));
    assert!(!same_origin(None, Some("http://evil.com"), base));
    assert!(same_origin(
        None,
        Some("http://host:8087"),
        "http://host:8087/sub"
    ));
    assert!(same_origin(None, None, base));
}

#[test]
fn image_mime_by_extension() {
    assert_eq!(image_mime("/x/cover.jpg"), "image/jpeg");
    assert_eq!(image_mime("/x/cover.JPEG"), "image/jpeg");
    assert_eq!(image_mime("/x/cover.png"), "image/png");
    assert_eq!(image_mime("/x/cover.webp"), "image/webp");
    assert_eq!(image_mime("/x/blob"), "image/jpeg");
}

// ---- The cache ------------------------------------------------------------

fn entry(dir: &str, name: &str, len: u64, mtime: i64) -> CacheEntry {
    CacheEntry {
        dir: dir.to_string(),
        path: format!("{dir}/{name}"),
        is_file: true,
        len,
        mtime,
    }
}

fn left(entries: &Vec<CacheEntry>, gone: &[usize]) -> Vec<String> {
    (0..entries.len())
        .filter(|i| !gone.contains(i))
        .map(|i| entries[i].path.clone())
        .collect()
}

#[test]
fn evict_enforces_size_cap_and_skips_non_chapter_files() {
    let bk = "/data/books/b1";
    let mut entries: Vec<CacheEntry> = (1..=3)
        .map(|n| entry(bk, &format!("{n:03}.m4a"), 100, n))
        .collect();
    entries.push(entry(bk, "cover.jpg", 500, 0));
    let keep = format!("{bk}/003.m4a");

    let gone = evict(&entries, &vec![bk.to_string()], 10, Some(150), None, &keep);
    let rest = left(&entries, &gone);

    assert!(rest.contains(&keep), "the just-served file is kept");
    assert!(
        rest.contains(&format!("{bk}/cover.jpg")),
        "non-chapter files are untouched"
    );
    let chapters = rest.iter().filter(|p| p.ends_with(".m4a")).count();
    assert!(chapters <= 1, "size cap evicted older chapters");
    assert_eq!(gone, vec![0, 1], "oldest first");
}

#[test]
fn evict_drops_ttl_expired_chapters_except_keep() {
    let bk = "/data/books/b1";
    let entries = vec![
        entry(bk, "001.m4a", 100, 0),
        entry(bk, "002.m4a", 100, 0),
        entry(bk, "003.m4a", 100, 2_000_000_000),
    ];
    let keep = format!("{bk}/002.m4a");
    let gone = evict(&entries, &vec![bk.to_string()], 2_000_000_000, None, Some(1), &keep);
    assert_eq!(gone, vec![0], "expired goes, keep and the fresh one stay");
}

#[test]
fn evict_is_a_noop_without_a_cap_or_ttl() {
    let bk = "/data/books/b1";
    let entries = vec![entry(bk, "001.m4a", 100, 0)];
    let keep = format!("{bk}/001.m4a");
    let gone = evict(&entries, &vec![bk.to_string()], i64::MAX, None, None, &keep);
    assert!(gone.is_empty(), "nothing evicted when unbounded");
}

#[test]
fn evict_tolerates_a_missing_books_dir() {
    assert!(evict(&Vec::new(), &Vec::new(), 0, Some(1), None, "/no/such/keep").is_empty());
}

#[test]
fn evict_never_touches_non_regenerable_books() {
    let split = "/data/books/splitbook";
    let folder = "/data/books/mp3book";
    let entries = vec![
        entry(split, "001.m4a", 100, 1),
        entry(split, "002.m4a", 100, 2),
        entry(folder, "001.mp3", 100, 0),
        entry(folder, "002.mp3", 100, 0),
    ];
    let keep = format!("{split}/002.m4a");
    let gone = evict(&entries, &vec![split.to_string()], 10, Some(1), None, &keep);
    let rest = left(&entries, &gone);
    assert!(
        rest.contains(&format!("{folder}/001.mp3")) && rest.contains(&format!("{folder}/002.mp3")),
        "MP3-folder tracks are never evicted (they can't be regenerated)"
    );
    assert!(rest.contains(&keep));
    assert!(
        !rest.contains(&format!("{split}/001.m4a")),
        "regenerable chapters are still evicted under the cap"
    );
}

#[test]
fn a_file_that_cannot_be_deleted_is_passed_over() {
    let bk = "/data/books/b1";
    let entries = vec![
        entry(bk, "001.m4a", 100, 3),
        entry(bk, "002.m4a", 100, 1),
        entry(bk, "003.m4a", 100, 2),
    ];
    let plan = plan_eviction(&entries, &vec![bk.to_string()], 10, None, "");
    assert!(plan.expired.is_empty());
    assert_eq!(plan.order, vec![1, 2, 0]);
    assert_eq!(plan.total, 300);

    let first = next_victim(&entries, &plan.order, 0, plan.total, 250, "").unwrap();
    assert_eq!(plan.order[first], 1);
    // It could not be deleted, so the total stays and the next one is tried.
    let second = next_victim(&entries, &plan.order, first + 1, plan.total, 250, "").unwrap();
    assert_eq!(plan.order[second], 2);
    let total = after_removal(plan.total, 100);
    assert_eq!(next_victim(&entries, &plan.order, second + 1, total, 250, ""), None);
}

#[test]
fn a_directory_with_an_episodes_name_is_no_cached_chapter() {
    let bk = "/data/books/b1";
    let mut e = entry(bk, "001.m4a", 100, 0);
    e.is_file = false;
    assert!(evict(&vec![e], &vec![bk.to_string()], 10, Some(0), Some(0), "").is_empty());
}

// ---- Errors and requests --------------------------------------------------

#[test]
fn every_apperror_maps_to_its_status_and_never_leaks_a_body() {
    for (err, status, kind) in [
        (AppError::NotFound, 404, ErrorKind::NotFound),
        (AppError::Forbidden, 403, ErrorKind::Forbidden),
        (AppError::Internal, 500, ErrorKind::Internal),
    ] {
        assert_eq!(err.status(), status);
        assert_eq!(err.kind(), kind);
    }
}

#[test]
fn while_the_first_scan_runs_nothing_is_called_missing() {
    for id in ["", "..", "Xk9mQ2vP7nR4tB1cY6wZ8a"] {
        assert_eq!(capability_request(false, id), Err(Refusal::Scanning));
        assert_eq!(feed_request(false, id), Err(Refusal::Scanning));
    }
    assert_eq!(Refusal::Scanning.status(), 503);
    assert_eq!(capability_request(true, "abc"), Ok(()));
    assert_eq!(
        capability_request(true, "a/b"),
        Err(Refusal::Failed(AppError::NotFound))
    );
    assert_eq!(feed_request(true, "abc.xml"), Ok("abc".to_string()));
    assert_eq!(feed_request(true, "abc").unwrap_err().status(), 404);
}

#[test]
fn a_change_needs_the_right_origin_and_a_slug() {
    let base = "http://host";
    assert_eq!(change_request(Some("same-origin"), None, base, "b"), Ok(()));
    assert_eq!(
        change_request(Some("cross-site"), None, base, "b"),
        Err(AppError::Forbidden)
    );
    assert_eq!(
        change_request(None, None, base, "../b"),
        Err(AppError::NotFound)
    );
    assert_eq!(
        change_request(Some("cross-site"), None, base, "../b"),
        Err(AppError::Forbidden)
    );
    assert_eq!(Refusal::Failed(AppError::Forbidden).status(), 403);
    assert_eq!(Refusal::Failed(AppError::Internal).status(), 500);
}

#[test]
fn a_feed_is_asked_for_by_id_and_suffix() {
    assert_eq!(feed_key("abc.xml").as_deref(), Some("abc"));
    assert_eq!(feed_key("abc"), None);
    assert_eq!(feed_key(".xml"), None);
    assert_eq!(feed_key("a.b.xml"), None);
}

#[test]
fn themes_are_kept_in_a_cookie() {
    assert_eq!(theme_from_cookie(None), Theme::System);
    assert_eq!(theme_from_cookie(Some("a=b; theme=dark; c=d")), Theme::Dark);
    assert_eq!(theme_from_cookie(Some("theme=light")), Theme::Light);
    assert_eq!(theme_from_cookie(Some("theme=purple")), Theme::System);
    assert_eq!(theme_from_cookie(Some("mytheme=dark")), Theme::System);
    assert_eq!(
        theme_cookie("dark"),
        "theme=dark; Path=/; Max-Age=31536000; SameSite=Lax"
    );
    assert_eq!(theme_cookie("system"), "theme=; Path=/; Max-Age=0; SameSite=Lax");
}

#[test]
fn content_is_tagged_by_its_hash() {
    let tag = etag(b"abc");
    assert_eq!(tag, format!("\"{}\"", blake3::hash(b"abc").to_hex()));
    assert!(is_unchanged(Some(&tag), &tag));
    assert!(is_unchanged(Some("*"), &tag));
    assert!(is_unchanged(Some(&format!("\"x\", W/{tag}")), &tag));
    assert!(!is_unchanged(Some("\"x\""), &tag));
    assert!(!is_unchanged(None, &tag));
    assert_ne!(etag(b"abc"), etag(b"abd"));
}

#[test]
fn a_path_that_leads_out_of_its_root_is_not_found() {
    let inside = Some("/data/books/b/cover.jpg".to_string());
    let outside = Some("/etc/passwd".to_string());
    assert_eq!(canonical_under(&inside, "/data").unwrap(), "/data/books/b/cover.jpg");
    assert_eq!(canonical_under(&outside, "/data"), Err(AppError::NotFound));
    assert_eq!(canonical_under(&None, "/data"), Err(AppError::NotFound));
    assert_eq!(
        canonical_under(&Some("/database/x".to_string()), "/data"),
        Err(AppError::NotFound),
        "a name that merely begins the same is another directory"
    );
    assert!(is_trusted(&inside, "/data", "/lib"));
    assert!(is_trusted(&Some("/lib/b.m4b".to_string()), "/data", "/lib"));
    assert!(!is_trusted(&outside, "/data", "/lib"));
    assert!(!is_trusted(&None, "/data", "/lib"));
}

// ---- Pages ----------------------------------------------------------------

#[test]
fn pages_show_a_book_under_the_address_of_its_feed() {
    let mut b = book(None, None);
    b.cover_path = Some("/data/books/b/cover.jpg".into());
    let d = book_detail("http://h", b, 12);
    assert_eq!(d.feed_url, "http://h/feed/cap.xml");
    assert_eq!(d.subscribe_url, "http://h/subscribe/cap");
    assert_eq!(d.episode_count, 12);
    assert!(d.has_cover);
    let c = book_card(book(None, None));
    assert_eq!((c.slug.as_str(), c.feed_id.as_str(), c.has_cover), ("b", "cap", false));
}

// ---- Audio ----------------------------------------------------------------

fn facts() -> AudioFacts {
    AudioFacts {
        source: Some("/lib/b.m4b".into()),
        source_len: Some(1000),
        book_source_is_file: true,
        book_source: Some("/lib/b.m4b".into()),
        out_dir: Some("/data/books/b".into()),
    }
}

#[test]
fn a_request_for_audio_names_an_episode() {
    assert_eq!(audio_position("cap", 1), Some(0));
    assert_eq!(audio_position("cap", 0), None);
    assert_eq!(audio_position("../x", 1), None);
    let eps = vec![episode(3, "a", ""), episode(0, "b", "")];
    assert_eq!(find_episode(&eps, 0), Some(1));
    assert_eq!(find_episode(&eps, 1), None);
}

#[test]
fn a_whole_file_is_served_from_the_library() {
    let b = book(None, None);
    let ep = episode(0, "/lib/b.m4b", "/lib/b.m4b");
    let t = resolve_audio_target(&b, &ep, 0, StorageMode::Full, &facts(), "/data", "/lib").unwrap();
    assert_eq!(t.path, "/lib/b.m4b");
    assert!(t.regen.is_none());

    let mut grown = facts();
    grown.source_len = Some(1001);
    let r = resolve_audio_target(&b, &ep, 0, StorageMode::Full, &grown, "/data", "/lib");
    assert!(matches!(r, Err(AppError::NotFound)), "another size is refused");

    let mut escaped = facts();
    escaped.source = Some("/etc/passwd".into());
    let r = resolve_audio_target(&b, &ep, 0, StorageMode::Full, &escaped, "/data", "/lib");
    assert!(matches!(r, Err(AppError::NotFound)));
}

#[test]
fn a_chapter_is_made_again_only_in_saver_mode() {
    let ep = episode(1, "/data/books/b/002.m4a", "");
    let t = resolve_audio_target(
        &book(Some(StorageMode::Saver), None),
        &ep,
        1,
        StorageMode::Full,
        &facts(),
        "/data",
        "/lib",
    )
    .unwrap();
    assert_eq!(t.path, "/data/books/b/002.m4a");
    let regen = t.regen.unwrap();
    assert_eq!(regen.source, "/lib/b.m4b");
    assert_eq!(regen.out_dir, "/data/books/b");
    assert_eq!(regen.out_ext, "m4a");
    assert_eq!(
        regen.op,
        RegenOp::Chapter(ChapterCut {
            idx: 1,
            start: 10 * TICKS_PER_SEC,
            end: 40 * TICKS_PER_SEC,
        })
    );

    for b in [
        book(Some(StorageMode::Full), None),
        book(Some(StorageMode::Saver), Some(TranscodeMode::Aac)),
    ] {
        let t = resolve_audio_target(&b, &ep, 1, StorageMode::Saver, &facts(), "/data", "/lib");
        assert!(t.unwrap().regen.is_none());
    }
}

#[test]
fn a_remuxed_file_is_made_again_in_any_mode() {
    let mut ep = episode(0, "/data/books/b/001.m4b", "/lib/b.m4b");
    ep.needs_faststart = true;
    let b = book(Some(StorageMode::Full), None);
    let t = resolve_audio_target(&b, &ep, 0, StorageMode::Full, &facts(), "/data", "/lib").unwrap();
    assert_eq!(t.path, "/data/books/b/001.m4b");
    assert_eq!(
        t.regen.unwrap().op,
        RegenOp::Faststart { idx: 0, duration: 30 * TICKS_PER_SEC }
    );
}

#[test]
fn odd_extensions_and_missing_directories_are_not_found() {
    let b = book(None, None);
    let bad = episode(0, "/data/books/b/001.m 4a", "");
    let r = resolve_audio_target(&b, &bad, 0, StorageMode::Full, &facts(), "/data", "/lib");
    assert!(matches!(r, Err(AppError::NotFound)));
    let mut gone = facts();
    gone.out_dir = None;
    let ep = episode(0, "/data/books/b/001.m4a", "");
    let r = resolve_audio_target(&b, &ep, 0, StorageMode::Full, &gone, "/data", "/lib");
    assert!(matches!(r, Err(AppError::NotFound)));
}

// ---- Feeds ----------------------------------------------------------------

#[test]
fn a_feed_is_built_from_records() {
    let eps = vec![
        episode(0, "/data/books/b/001.m4a", ""),
        episode(1, "/data/books/b/002.mp3", ""),
    ];
    let f = feed_book(&book(None, None), &eps, "http://h", "cap", &None);
    assert_eq!(f.self_url, "http://h/feed/cap.xml");
    assert_eq!(f.cover_url, None);
    assert_eq!(f.episodes[1].audio_url, "http://h/audio/cap/2");
    assert_eq!(f.episodes[1].mime_type, "audio/mpeg");
    assert_eq!(f.episodes[1].guid, "g1");
    assert_eq!(f.episodes[1].pubdate_epoch, 1_700_000_060);

    let xml = feed_xml(&book(None, None), &eps, "http://h", "cap", &None).unwrap();
    assert!(xml.contains("http://h/audio/cap/1"));
    assert!(feed_xml(&book(None, None), &Vec::new(), "http://h", "cap", &None).is_err());
}

#[test]
fn a_cover_comes_from_the_book_then_its_settings_then_the_server() {
    let server = Some("http://server/c.png".to_string());
    let cover = |b: &BookRow| feed_book(b, &Vec::new(), "http://h", "cap", &server).cover_url;
    let mut b = book(None, None);
    assert_eq!(cover(&b).as_deref(), Some("http://server/c.png"));
    b.default_cover_url = Some("http://book/c.png".into());
    assert_eq!(cover(&b).as_deref(), Some("http://book/c.png"));
    b.cover_path = Some("/data/books/b/cover.jpg".into());
    assert_eq!(cover(&b).as_deref(), Some("http://h/cover/cap"));
}

#[test]
fn records_with_impossible_numbers_are_told_apart() {
    let at = |idx: i64, byte_length: i64| {
        let mut e = episode(idx, "/d/001.m4a", "");
        e.byte_length = byte_length;
        vec![e]
    };
    assert!(hold_records(&Vec::new()));
    assert!(hold_records(&at(0, 0)));
    assert!(!hold_records(&at(-1, 5)));
    assert!(!hold_records(&at(i64::MAX, 5)));
    assert!(!hold_records(&at(0, -5)));
}
