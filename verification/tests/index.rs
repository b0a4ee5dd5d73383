use base64::Engine;
use podspine::index::capability::{encode_id, generate, id_from_draw};
use podspine::index::{missing_columns, stale_rows, stored_book, BookRow, EpisodeRow};

fn book(id: &str, slug: &str, title: &str) -> BookRow {
    BookRow {
        id: id.to_string(),
        slug: slug.to_string(),
        feed_id: format!("cap-{id}"),
        title: title.to_string(),
        author: Some("Author".to_string()),
        cover_path: None,
        source_path: format!("/library/{id}.m4b"),
        source_mtime: 1_700_000_000,
        status: "ready".to_string(),
        storage_mode: None,
        default_cover_url: None,
        force_embedded: false,
        transcode: None,
    }
}

#[test]
fn generated_capability_ids_are_128_bit_url_safe_and_unique() {
    let id = generate().unwrap();
    assert!(
        id.chars()
            .all(|c| c.is_ascii_alphanumeric() || c == '-' || c == '_'),
        "not url-safe: {id}"
    );
    let bytes = base64::engine::general_purpose::URL_SAFE_NO_PAD
        .decode(&id)
        .unwrap();
    assert_eq!(bytes.len(), 16);
    assert_ne!(generate(), generate());
}

#[test]
fn an_id_is_the_base64_of_its_bytes() {
    assert_eq!(encode_id(&[0; 16]), "AAAAAAAAAAAAAAAAAAAAAA");
    assert_eq!(encode_id(&[0xff; 16]), "_____________________w");
    let bytes: [u8; 16] = [1, 2, 3, 4, 5, 6, 7, 8, 9, 10, 11, 12, 13, 14, 250, 251];
    assert_eq!(
        encode_id(&bytes),
        base64::engine::general_purpose::URL_SAFE_NO_PAD.encode(bytes)
    );
}

#[test]
fn an_id_is_owed_for_every_draw_and_only_then() {
    let bytes: [u8; 16] = [1, 2, 3, 4, 5, 6, 7, 8, 9, 10, 11, 12, 13, 14, 250, 251];
    assert_eq!(id_from_draw(Some(bytes)), Some("AQIDBAUGBwgJCgsMDQ76-w".to_string()));
    assert_eq!(id_from_draw(None), None);
}

#[test]
fn feed_id_survives_a_rescan() {
    let first = stored_book(None, book("b1", "a-book", "A Book"));
    assert_eq!(first.feed_id, "cap-b1");

    let mut rescan = book("b1", "a-book", "A Book v2");
    rescan.feed_id = "cap-DIFFERENT".to_string();
    let got = stored_book(Some(first.feed_id.clone()), rescan);
    assert_eq!(got.title, "A Book v2", "mutable fields update");
    assert_eq!(got.feed_id, "cap-b1", "capability is stable across rescans");
    assert_eq!(got.status, "ready");
}

fn episode(guid: &str, idx: i64) -> EpisodeRow {
    EpisodeRow {
        guid: guid.to_string(),
        book_id: "b1".to_string(),
        idx,
        title: format!("Chapter {idx}"),
        file_path: format!("/data/{idx}.m4a"),
        source_path: String::new(),
        needs_faststart: false,
        byte_length: 1,
        duration: 1,
        start: 0,
        pubdate_epoch: 0,
    }
}

#[test]
fn records_that_an_ingest_did_not_replace_are_stale() {
    let old = vec![episode("a", 0), episode("b", 1), episode("c", 2)];
    let new = vec![episode("b", 0), episode("d", 1)];
    assert_eq!(stale_rows(&old, &new), vec![0, 2]);
    assert!(stale_rows(&old, &old).is_empty(), "a repeated ingest drops nothing");
    assert!(stale_rows(&Vec::new(), &new).is_empty());
    assert_eq!(stale_rows(&old, &Vec::new()), vec![0, 1, 2]);
}

#[test]
fn only_the_columns_that_are_missing_are_added() {
    let names = |v: &[&str]| v.iter().map(|s| s.to_string()).collect::<Vec<_>>();
    let episode = names(&["guid", "idx", "start_sec"]);
    let book = names(&["id", "storage_mode", "default_cover_url", "force_embedded"]);
    let added = missing_columns(&episode, &book);
    assert_eq!(
        added,
        vec![
            "ALTER TABLE episode ADD COLUMN source_path TEXT NOT NULL DEFAULT ''",
            "ALTER TABLE episode ADD COLUMN needs_faststart INTEGER NOT NULL DEFAULT 0",
            "ALTER TABLE book ADD COLUMN transcode TEXT NOT NULL DEFAULT ''",
            "ALTER TABLE book ADD COLUMN created_at INTEGER NOT NULL DEFAULT 0",
        ]
    );
    let episode = names(&["start_sec", "source_path", "needs_faststart"]);
    let book = names(&[
        "storage_mode",
        "default_cover_url",
        "force_embedded",
        "transcode",
        "created_at",
    ]);
    assert!(missing_columns(&episode, &book).is_empty(), "up to date");
}
