use podspine::config::book_overrides::BookOverrides;
use podspine::config::{StorageMode, TranscodeMode};
use podspine::feed::{episode_guid, track_guid};
use podspine::http::feeds::feed_xml;
use podspine::index::{BookRow, EpisodeRow};
use podspine::prober::Chapter;
use podspine::scanner::folder::{
    folder_book_row, folder_episode_rows, folder_is_up_to_date, folder_mtime, ingest_folder,
    is_track, order_mp3_tracks, track_title, FoundTrack, Mp3Track, TrackProbe,
};
use podspine::scanner::identity::{
    assign_ids, duplicate_rows, orphans, owns_a_different_source, summarize, FoundSource,
    IndexedSource, Outcome,
};
use podspine::scanner::ingest::{
    book_row, chapter_specs, effective_settings, episode_rows, ingest_steps, is_episode_file,
    is_in_other_container, is_up_to_date, kept_cover, plan_ingest, vet_source,
    IngestPlan, IngestStep, ScanError, Settings,
};
use podspine::scanner::library::{
    classify_dir, nested_title, seeded_title, BookSource, DirEntry, DirKind, Walk,
};
use podspine::scanner::run::{dates_fit, standing, IngestRun, Record, Standing, StepOutcome};
use podspine::scanner::scan::{LibraryScan, SourceAction};
use podspine::scanner::watch::{Watch, WatchAction, WatchEvent};
use podspine::scanner::{
    assign_slug, cover_ext, dir_name, encoding_for, episode_ext, expected_transcode, file_stem,
    is_audio, is_drm, is_ignored_name, output_ext, slugify, watch_event_is_relevant,
    watch_path_is_relevant, ScanOptions, ScanSummary,
};
use podspine::single::single_feed;
use podspine::splitter::{Encoding, SplitEpisode};
use podspine::ticks::TICKS_PER_SEC;

fn secs(n: i128) -> i128 {
    n * TICKS_PER_SEC
}

// ---- Rules ----------------------------------------------------------------

#[test]
fn output_ext_by_codec() {
    assert_eq!(output_ext(Some("aac")), "m4a");
    assert_eq!(output_ext(Some("alac")), "m4a");
    assert_eq!(output_ext(Some("mp3")), "mp3");
    assert_eq!(output_ext(Some("flac")), "flac");
    assert_eq!(output_ext(Some("vorbis")), "ogg");
    assert_eq!(output_ext(Some("opus")), "opus");
    assert_eq!(output_ext(None), "m4a");
}

#[test]
fn transcoding_only_touches_non_podcast_safe_codecs() {
    let (off, aac, mp3) = (TranscodeMode::Off, TranscodeMode::Aac, TranscodeMode::Mp3);
    for codec in ["mp3", "aac", "flac", "vorbis", "opus", "alac"] {
        assert_eq!(encoding_for(Some(codec), off), Encoding::Copy, "{codec}");
    }
    assert_eq!(encoding_for(Some("mp3"), aac), Encoding::Copy);
    assert_eq!(encoding_for(Some("aac"), aac), Encoding::Copy);
    for codec in ["flac", "vorbis", "opus", "alac"] {
        assert_eq!(encoding_for(Some(codec), aac), Encoding::Aac, "{codec}");
        assert_eq!(encoding_for(Some(codec), mp3), Encoding::Mp3, "{codec}");
    }
    assert_eq!(encoding_for(None, aac), Encoding::Copy);
}

#[test]
fn episode_ext_follows_the_transcode_target() {
    assert_eq!(episode_ext(Some("flac"), Encoding::Copy), "flac");
    assert_eq!(episode_ext(Some("flac"), Encoding::Aac), "m4a");
    assert_eq!(episode_ext(Some("flac"), Encoding::Mp3), "mp3");
    assert_eq!(episode_ext(Some("vorbis"), Encoding::Aac), "m4a");
}

#[test]
fn expected_transcode_guards_a_toggle_without_probing() {
    assert_eq!(TranscodeMode::Off.label(), "off");
    assert_eq!(TranscodeMode::Aac.label(), "aac");
    assert_eq!(TranscodeMode::Mp3.label(), "mp3");
    let flac = "/lib/book.flac";
    let m4b = "/lib/book.m4b";
    let mp3 = "/lib/book.mp3";
    assert_eq!(
        expected_transcode(flac, TranscodeMode::Off),
        Some(TranscodeMode::Off)
    );
    assert_eq!(
        expected_transcode(m4b, TranscodeMode::Off),
        Some(TranscodeMode::Off)
    );
    assert_eq!(
        expected_transcode(flac, TranscodeMode::Aac),
        Some(TranscodeMode::Aac)
    );
    assert_eq!(
        expected_transcode("/lib/b.opus", TranscodeMode::Mp3),
        Some(TranscodeMode::Mp3)
    );
    assert_eq!(
        expected_transcode(mp3, TranscodeMode::Aac),
        Some(TranscodeMode::Off)
    );
    assert_eq!(expected_transcode(m4b, TranscodeMode::Aac), None);
}

#[test]
fn only_episode_files_and_their_temporaries_are_swept() {
    let swept = |name: &str| is_in_other_container(&format!("/data/books/b/{name}"), "m4a");
    assert!(swept("001.flac"));
    assert!(swept("002.flac"));
    assert!(swept("003.part.flac"));
    assert!(!swept("001.m4a"));
    assert!(!swept("001.M4A"));
    assert!(!swept("cover.jpg"));
    assert!(!swept("notes.txt"));
    assert!(!swept("NOTES"), "a file with no extension is not an episode");
}

#[test]
fn remove_stale_episode_copies_reclaims_numbered_files_but_keeps_cover() {
    assert!(is_episode_file("/data/books/b/001.m4a"));
    assert!(is_episode_file("/data/books/b/002.part.m4a"));
    assert!(!is_episode_file("/data/books/b/cover.jpg"));
    assert!(!is_episode_file("/data/books/b/cover_thumb.jpg"));
    assert!(!is_episode_file("/data/books/b/cover.part.jpg"));
}

#[test]
fn cover_ext_by_codec() {
    assert_eq!(cover_ext(Some("mjpeg")), "jpg");
    assert_eq!(cover_ext(Some("jpeg")), "jpg");
    assert_eq!(cover_ext(Some("png")), "png");
    assert_eq!(cover_ext(None), "jpg");
}

#[test]
fn assign_slug_disambiguates_collisions() {
    let mut seen: Vec<String> = Vec::new();
    let mut next = |base: &str| assign_slug(base, &mut seen, &Vec::new());
    assert_eq!(next("dracula"), "dracula");
    assert_eq!(next("dracula"), "dracula-2");
    assert_eq!(next("dracula"), "dracula-3");
    assert_eq!(next("other"), "other");
}

#[test]
fn slugify_cases() {
    assert_eq!(slugify("A Book - Title!"), "a-book-title");
    assert_eq!(slugify("  spaced  "), "spaced");
    assert_eq!(slugify("***"), "book");
}

#[test]
fn a_slug_keeps_letters_in_order_and_is_its_own_slug() {
    for name in ["A Book - Title!", "--Déjà  Vu-- 2", "***", "x__--__Y", "ümlaut"] {
        let slug = slugify(name);
        assert!(!slug.contains("--") && !slug.starts_with('-') && !slug.ends_with('-'), "{slug}");
        let kept: String = name
            .chars()
            .filter(char::is_ascii_alphanumeric)
            .map(|c| c.to_ascii_lowercase())
            .collect();
        let expected = if kept.is_empty() { "book".to_string() } else { kept };
        assert_eq!(slug.replace('-', ""), expected);
        assert_eq!(slugify(&slug), slug);
    }
    assert_eq!(slugify("--Déjà  Vu-- 2"), "d-j-vu-2");
}

#[test]
fn drm_input_is_skipped() {
    assert!(matches!(
        vet_source("/lib/audible.aax", true),
        Err(ScanError::UnsupportedDrm(p)) if p == "/lib/audible.aax"
    ));
    for path in ["a.AAX", "a.aaxc", "a.aa", "a.odm"] {
        assert!(is_drm(path));
        assert!(!is_audio(path));
    }
    assert!(vet_source("/lib/book.m4b", true).is_ok());
}

#[test]
fn missing_file_is_reported() {
    assert!(matches!(
        vet_source("/no/such/file.m4b", false),
        Err(ScanError::NotAFile(p)) if p == "/no/such/file.m4b"
    ));
}

#[test]
fn names_fall_back_to_book() {
    assert_eq!(file_stem("/lib/A Title.m4b"), "A Title");
    assert_eq!(file_stem("/"), "book");
    assert_eq!(dir_name("/lib/A Folder"), "A Folder");
    assert_eq!(dir_name("/"), "book");
}

#[test]
fn watch_filter_ignores_output_and_junk_keeps_real_changes() {
    let lib = "/lib";
    let data = "/lib/.podspine";
    assert!(!watch_path_is_relevant("/lib/.podspine/BookX/001.m4a", lib, data, None));
    assert!(!watch_path_is_relevant("/lib/Author/@eaDir/thumb.jpg", lib, data, None));
    assert!(!watch_path_is_relevant("/lib/.stfolder/x", lib, data, None));
    assert!(!watch_path_is_relevant("/lib/lost+found/y", lib, data, None));
    assert!(watch_path_is_relevant("/lib/Author/Title/book.m4b", lib, data, None));
    assert!(watch_path_is_relevant(
        "/home/u/.local/books/Author/Title/book.m4b",
        "/home/u/.local/books",
        "/data",
        None
    ));
    assert!(is_ignored_name(".git"));
    assert!(!is_ignored_name("git"));
}

#[test]
fn watch_filter_drops_reads_but_keeps_writes() {
    let paths = vec!["/lib/Author/Title/book.m4b".to_string()];
    assert!(!watch_event_is_relevant(true, &paths, "/lib", "/data", None));
    assert!(watch_event_is_relevant(false, &paths, "/lib", "/data", None));
    assert!(watch_event_is_relevant(false, &Vec::new(), "/lib", "/data", None));
}

#[test]
fn watch_filter_ignores_output_under_the_canonical_data_dir() {
    let raw = "/lib/.podspine";
    let canon = Some("/mnt/real/podspine");
    assert!(!watch_path_is_relevant(
        "/mnt/real/podspine/BookX/001.m4a",
        "/lib",
        raw,
        canon
    ));
    assert!(watch_path_is_relevant(
        "/lib/Author/Title/book.m4b",
        "/lib",
        raw,
        canon
    ));
}

// ---- The walk -------------------------------------------------------------

/// A file system: files by path, and links from a path to another.
struct Tree {
    files: Vec<String>,
    links: Vec<(String, String)>,
}

impl Tree {
    fn new(files: &[&str]) -> Tree {
        Tree {
            files: files.iter().map(|s| s.to_string()).collect(),
            links: Vec::new(),
        }
    }

    fn link(mut self, from: &str, to: &str) -> Tree {
        self.links.push((from.to_string(), to.to_string()));
        self
    }

    fn holds(&self, path: &str) -> bool {
        let below = format!("{path}/");
        self.files.iter().any(|f| f == path || f.starts_with(&below))
            || self.links.iter().any(|(f, _)| f.starts_with(&below))
    }

    fn found(&self, path: &str) -> Option<String> {
        let mut p = path.to_string();
        for _ in 0..40 {
            let hop = self.links.iter().find_map(|(from, to)| {
                if &p == from {
                    Some(to.clone())
                } else {
                    p.strip_prefix(&format!("{from}/")).map(|rest| format!("{to}/{rest}"))
                }
            });
            match hop {
                Some(next) => p = next,
                None => return self.holds(&p).then_some(p),
            }
        }
        None
    }

    fn list(&self, dir: &str) -> Vec<DirEntry> {
        let base = format!("{}/", self.found(dir).unwrap());
        let mut names: Vec<String> = Vec::new();
        let all = self.files.iter().chain(self.links.iter().map(|(f, _)| f));
        for path in all {
            if let Some(rest) = path.strip_prefix(&base) {
                let name = rest.split('/').next().unwrap().to_string();
                if !names.contains(&name) {
                    names.push(name);
                }
            }
        }
        names.reverse();
        names
            .into_iter()
            .map(|name| {
                let path = format!("{dir}/{name}");
                let found = self.found(&path);
                let is_file = found.as_ref().is_some_and(|f| self.files.contains(f));
                DirEntry {
                    is_file,
                    is_dir: found.is_some() && !is_file,
                    path,
                    found,
                }
            })
            .collect()
    }

    fn discover(&self, root: &str, data: &str) -> Vec<BookSource> {
        let data_root = self.found(data);
        let mut walk = Walk::new(root);
        while let Some((dir, depth)) = walk.next_dir() {
            let found = self.found(&dir);
            if walk.enter(&dir, depth, found.as_deref(), root, data_root.as_deref()) {
                walk.listed(&dir, depth, &self.list(&dir), root);
            }
        }
        walk.found
    }

    fn paths(&self) -> Vec<String> {
        self.discover("/r", "/r/data")
            .iter()
            .map(|s| match s {
                BookSource::File(p) => p.strip_prefix("/r/").unwrap_or(p).to_string(),
                BookSource::Mp3Folder(d) => format!("{}/", d.strip_prefix("/r/").unwrap_or(d)),
            })
            .collect()
    }
}

#[test]
fn books_come_out_in_the_order_of_their_paths() {
    let tree = Tree::new(&[
        "/lib/b.m4b",
        "/lib/a/z.m4b",
        "/lib/a/y.m4b",
        "/lib/a.m4b",
        "/lib/c/d/e/one.m4b",
        "/lib/c/d.x/two.mp3",
        "/lib/c/tracks/1.mp3",
        "/lib/c/tracks/2.mp3",
    ]);
    let found: Vec<String> = tree
        .discover("/lib", "/data")
        .iter()
        .map(|s| s.path().to_string())
        .collect();
    let mut sorted = found.clone();
    sorted.sort_by_key(|p| p.split('/').map(str::to_string).collect::<Vec<_>>());
    assert_eq!(found, sorted);
    assert_eq!(
        found,
        [
            "/lib/a/y.m4b",
            "/lib/a/z.m4b",
            "/lib/a.m4b",
            "/lib/b.m4b",
            "/lib/c/d/e/one.m4b",
            "/lib/c/d.x/two.mp3",
            "/lib/c/tracks",
        ]
    );
}

#[test]
fn discover_walks_author_title_libraries() {
    let t = Tree::new(&[
        "/r/Jules Verne/The Mysterious Island/Jules Verne - The Mysterious Island.m4b",
        "/r/Jules Verne/The Mysterious Island/metadata.json",
        "/r/Jules Verne/Journey to the Centre of the Earth/jttcote.m4b",
        "/r/Mary Shelley/Frankenstein/01.mp3",
        "/r/Mary Shelley/Frankenstein/02.mp3",
        "/r/Shelf/Homer/The Epic Cycle/The Odyssey/odyssey.m4b",
    ]);
    assert_eq!(
        t.paths(),
        vec![
            "Jules Verne/Journey to the Centre of the Earth/jttcote.m4b",
            "Jules Verne/The Mysterious Island/Jules Verne - The Mysterious Island.m4b",
            "Mary Shelley/Frankenstein/",
            "Shelf/Homer/The Epic Cycle/The Odyssey/odyssey.m4b",
        ]
    );
}

#[test]
fn a_nested_book_is_named_by_its_path_but_a_shallow_one_is_not() {
    let t = Tree::new(&[
        "/r/Top Book.m4b",
        "/r/a-folder-book/inner-name.m4b",
        "/r/Jules Verne/The Mysterious Island/ugly - - stem.m4b",
        "/r/tracks/01.mp3",
        "/r/tracks/02.mp3",
        "/r/Mary Shelley/Frankenstein/01.mp3",
        "/r/Mary Shelley/Frankenstein/02.mp3",
    ]);
    let names: Vec<String> = t
        .discover("/r", "/r/data")
        .iter()
        .map(|s| slugify(&s.base_name("/r")))
        .collect();
    assert_eq!(
        names,
        vec![
            "jules-verne-the-mysterious-island",
            "mary-shelley-frankenstein",
            "top-book",
            "inner-name",
            "tracks",
        ]
    );
}

#[test]
fn a_nested_book_is_titled_by_its_folder_not_its_filename() {
    let deep = BookSource::File("/r/Jules Verne/The Mysterious Island/x.m4b".to_string());
    assert_eq!(nested_title(&deep, "/r").as_deref(), Some("The Mysterious Island"));
    let shallow = BookSource::File("/r/Dracula/x.m4b".to_string());
    assert_eq!(nested_title(&shallow, "/r"), None);
    let folder = BookSource::Mp3Folder("/r/a/b".to_string());
    assert_eq!(nested_title(&folder, "/r"), None);
    assert_eq!(
        seeded_title(Some("Own".to_string()), &deep, "/r").as_deref(),
        Some("Own"),
        "an explicit title wins"
    );
    assert_eq!(
        seeded_title(None, &deep, "/r").as_deref(),
        Some("The Mysterious Island")
    );
}

#[test]
fn root_files_and_directories_keep_their_historical_order() {
    let t = Tree::new(&["/r/Dracula/a.m4b", "/r/Dracula.m4b", "/r/Alpha.m4b", "/r/Zulu/z.m4b"]);
    assert_eq!(
        t.paths(),
        vec!["Alpha.m4b", "Dracula/a.m4b", "Dracula.m4b", "Zulu/z.m4b"]
    );
}

#[test]
fn loose_mp3s_at_the_root_stay_separate_books() {
    let t = Tree::new(&["/r/one.mp3", "/r/two.mp3"]);
    assert_eq!(t.paths(), vec!["one.mp3", "two.mp3"]);
}

#[test]
fn the_first_level_with_audio_wins() {
    let t = Tree::new(&["/r/Author/loose.m4b", "/r/Author/Title/book.m4b"]);
    assert_eq!(t.paths(), vec!["Author/loose.m4b"]);
    let t = Tree::new(&["/r/T/CD1/1.mp3", "/r/T/CD1/2.mp3", "/r/T/CD2/1.mp3", "/r/T/CD2/2.mp3"]);
    assert_eq!(t.paths(), vec!["T/CD1/", "T/CD2/"]);
}

#[test]
fn links_that_leave_the_library_are_not_indexed() {
    let t = Tree::new(&["/r/in.m4b", "/out/book.m4b", "/out/dir/b.m4b"])
        .link("/r/escape.m4b", "/out/book.m4b")
        .link("/r/escape", "/out/dir");
    assert_eq!(t.paths(), vec!["in.m4b"]);
}

#[test]
fn a_link_pointing_within_the_library_is_still_followed() {
    let t = Tree::new(&["/r/shelf/book.m4b"]).link("/r/also.m4b", "/r/shelf/book.m4b");
    assert_eq!(t.paths(), vec!["also.m4b", "shelf/book.m4b"]);
}

#[test]
fn a_broken_link_is_skipped_rather_than_indexed() {
    let t = Tree::new(&["/r/in.m4b"]).link("/r/gone.m4b", "/r/nothing.m4b");
    assert_eq!(t.paths(), vec!["in.m4b"]);
}

#[test]
fn a_symlink_loop_terminates_and_indexes_each_book_once() {
    let t = Tree::new(&["/r/a/book/x.m4b"]).link("/r/a/loop", "/r/a");
    assert_eq!(t.paths(), vec!["a/book/x.m4b"]);
}

#[test]
fn the_walk_never_enters_the_data_dir() {
    let t = Tree::new(&["/r/data/books/x/001.m4a", "/r/book.m4b"]);
    assert_eq!(t.paths(), vec!["book.m4b"]);
}

#[test]
fn housekeeping_directories_are_skipped() {
    let t = Tree::new(&[
        "/r/.git/a.m4b",
        "/r/@eaDir/a.m4b",
        "/r/lost+found/a.m4b",
        "/r/book/a.m4b",
    ]);
    assert_eq!(t.paths(), vec!["book/a.m4b"]);
}

#[test]
fn the_walk_stops_at_the_depth_limit() {
    let t = Tree::new(&["/r/1/2/3/4/5/6/7/8/in.m4b", "/r/a/2/3/4/5/6/7/8/9/out.m4b"]);
    assert_eq!(t.paths(), vec!["1/2/3/4/5/6/7/8/in.m4b"]);
}

#[test]
fn a_lone_tier2_file_in_its_own_folder_is_a_book() {
    let t = Tree::new(&["/r/one/a.flac", "/r/two/a.flac", "/r/two/b.ogg", "/r/three/x.mp3"]);
    assert_eq!(t.paths(), vec!["one/a.flac", "three/x.mp3"]);
}

#[test]
fn a_drm_file_nested_in_the_tree_is_still_refused() {
    let t = Tree::new(&["/r/a/b/locked.aax", "/r/locked.aaxc"]);
    assert!(t.paths().is_empty());
}

#[test]
fn discover_finds_files_and_folders_sorted() {
    let t = Tree::new(&[
        "/r/b.m4b",
        "/r/a.mp3",
        "/r/notes.txt",
        "/r/folder/1.mp3",
        "/r/folder/2.mp3",
        "/r/single/only.m4a",
        "/r/single/extra.mp3",
    ]);
    assert_eq!(t.paths(), vec!["a.mp3", "b.m4b", "folder/", "single/only.m4a"]);
}

#[test]
fn a_folder_is_told_by_the_files_it_holds() {
    let file = |p: &str| DirEntry {
        path: p.to_string(),
        is_file: true,
        is_dir: false,
        found: Some(p.to_string()),
    };
    assert!(matches!(
        classify_dir(&vec![file("/d/a.m4b"), file("/d/b.mp3"), file("/d/c.m4a")]),
        DirKind::Files(v) if v == vec![0, 2]
    ));
    assert!(matches!(
        classify_dir(&vec![file("/d/a.mp3"), file("/d/b.mp3")]),
        DirKind::Tracks
    ));
    assert!(matches!(classify_dir(&vec![file("/d/a.txt")]), DirKind::Nothing));
}

// ---- Identity -------------------------------------------------------------

fn source(path: &str) -> FoundSource {
    FoundSource {
        source: BookSource::File(path.to_string()),
        found: Some(path.to_string()),
    }
}

fn indexed(id: &str, path: &str) -> IndexedSource {
    IndexedSource {
        id: id.to_string(),
        source_path: path.to_string(),
        found: Some(path.to_string()),
    }
}

#[test]
fn library_scan_disambiguates_same_named_books() {
    let sources = vec![source("/r/Dracula/x.m4b"), source("/r/x.m4b"), source("/r/y/x.m4b")];
    let ids = assign_ids(&sources, &Vec::new(), "/r");
    assert_eq!(ids, vec!["x", "x-2", "x-3"]);
}

#[test]
fn same_title_under_two_authors_does_not_collide() {
    let sources = vec![source("/r/A/Poems/x.m4b"), source("/r/B/Poems/x.m4b")];
    assert_eq!(assign_ids(&sources, &Vec::new(), "/r"), vec!["a-poems", "b-poems"]);
}

#[test]
fn a_new_file_cannot_take_a_live_books_slug() {
    let rows = vec![indexed("dracula", "/r/z/dracula.m4b")];
    let sources = vec![source("/r/a/dracula.m4b"), source("/r/z/dracula.m4b")];
    assert_eq!(assign_ids(&sources, &rows, "/r"), vec!["dracula-2", "dracula"]);
}

#[test]
fn a_source_keeps_one_id_across_consecutive_reconciles() {
    let sources = vec![source("/r/book.m4b")];
    let rows = vec![indexed("book-2", "/r/book.m4b")];
    assert_eq!(assign_ids(&sources, &rows, "/r"), vec!["book-2"]);
}

#[test]
fn a_book_whose_source_is_gone_still_owns_its_id() {
    let rows = vec![IndexedSource {
        id: "book".to_string(),
        source_path: "/r/old/book.m4b".to_string(),
        found: None,
    }];
    let sources = vec![source("/r/new/book.m4b")];
    assert_eq!(assign_ids(&sources, &rows, "/r"), vec!["book-2"]);
    assert!(owns_a_different_source(&rows[0], &sources[0]));
}

#[test]
fn duplicate_source_rows_collapse_to_one() {
    let some = |s: &str| Some(s.to_string());
    let found = vec![some("/r/a"), some("/r/b"), some("/r/a"), some("/r/a")];
    assert_eq!(duplicate_rows(&found), vec![2, 3], "the oldest stays");
}

#[test]
fn collapse_leaves_gone_sources_for_pruning() {
    assert!(duplicate_rows(&vec![None, None, Some("/r/a".to_string())]).is_empty());
}

#[test]
fn prune_orphans_removes_a_deleted_source_and_its_split_output() {
    assert_eq!(orphans(true, &vec![true, false, true, false]), vec![1, 3]);
}

#[test]
fn prune_orphans_empty_root_guard_preserves_the_index() {
    assert!(orphans(false, &vec![false, false]).is_empty());
}

#[test]
fn a_scan_is_summed_up_by_outcome() {
    assert_eq!(
        summarize(&vec![Outcome::Indexed, Outcome::Skipped, Outcome::Indexed, Outcome::Indexed], 2),
        ScanSummary { indexed: 3, skipped: 1, pruned: 2 }
    );
    assert_eq!(summarize(&Vec::new(), 0), ScanSummary::default());
}

#[test]
fn one_bad_book_does_not_stop_a_scan() {
    let sources = vec![source("/r/a/A Title/x.m4b"), source("/r/b.m4b"), source("/r/c.m4b")];
    let mut scan = LibraryScan::new(sources, &Vec::new(), "/r");
    assert_eq!(scan.ids, vec!["a-a-title", "b", "c"]);
    assert_eq!(scan.next_source(), Some(0));
    let (own, action) = scan.take_up(BookOverrides::default(), "/r");
    assert_eq!(own.title.as_deref(), Some("A Title"));
    assert_eq!(action, SourceAction::IngestFile);
    scan.report(action, false);

    let off = BookOverrides { disabled: Some(true), ..Default::default() };
    let (_, action) = scan.take_up(off, "/r");
    assert_eq!(action, SourceAction::Remove);
    scan.report(action, true);

    let (own, action) = scan.take_up(BookOverrides::default(), "/r");
    assert_eq!(own.title, None);
    scan.report(action, true);
    assert_eq!(scan.next_source(), None);
    assert_eq!(scan.summary(4), ScanSummary { indexed: 1, skipped: 2, pruned: 4 });
}

// ---- Ingest ---------------------------------------------------------------

fn chapters() -> Vec<Chapter> {
    vec![
        Chapter { idx: 0, start: 0, end: secs(10), title: Some("One".to_string()) },
        Chapter { idx: 1, start: secs(10), end: secs(30), title: None },
    ]
}

fn settings(storage: StorageMode) -> Settings {
    let opts = ScanOptions { storage, ..Default::default() };
    effective_settings(&opts, &BookOverrides::default(), "A Book")
}

fn plan(codec: &str, chapters: Vec<Chapter>, mode: TranscodeMode) -> IngestPlan {
    plan_ingest(Some(codec), secs(30), &chapters, mode, "A Book")
}

fn produced(paths: &[&str]) -> Vec<SplitEpisode> {
    paths
        .iter()
        .enumerate()
        .map(|(idx, p)| SplitEpisode {
            idx,
            path: p.to_string(),
            byte_length: 100 + idx as u64,
            duration: secs(10),
        })
        .collect()
}

fn ingested(
    p: &IngestPlan,
    s: &Settings,
    input: &str,
    paths: &[&str],
    mode: TranscodeMode,
    slow: bool,
) -> (BookRow, Vec<EpisodeRow>) {
    let book = book_row("b", "cap".to_string(), s, None, input, 1_700_000_000, p.enc, mode);
    let rows = episode_rows("b", 1_700_000_000, input, p, &produced(paths), slow);
    (book, rows)
}

#[test]
fn a_books_own_settings_come_first() {
    let own = BookOverrides {
        force_embedded_chapters: Some(true),
        storage_mode: Some(StorageMode::Saver),
        remux_non_faststart: Some(true),
        title: Some("Own".to_string()),
        author: Some("Me".to_string()),
        force_reingest: Some(true),
        ..Default::default()
    };
    let s = effective_settings(&ScanOptions::default(), &own, "File");
    assert!(s.force_embedded && s.remux_non_faststart && s.force_reingest);
    assert_eq!(s.storage, StorageMode::Saver);
    assert_eq!(s.title, "Own");
    assert_eq!(s.author.as_deref(), Some("Me"));
    let s = effective_settings(&ScanOptions::default(), &BookOverrides::default(), "File");
    assert_eq!(s.title, "File");
    assert!(!s.force_embedded && !s.remux_non_faststart && !s.force_reingest);
}

#[test]
fn chapterless_file_becomes_a_single_episode() {
    let (cuts, titles) = chapter_specs(&Vec::new(), secs(30), "A Book");
    assert_eq!(cuts.len(), 1);
    assert_eq!((cuts[0].idx, cuts[0].start, cuts[0].end), (0, 0, secs(30)));
    assert_eq!(titles, vec!["A Book"]);

    let p = plan("aac", Vec::new(), TranscodeMode::Off);
    assert!(p.serve_in_place && p.chapterless);
    assert_eq!(
        ingest_steps(&p, false, false, false, false),
        vec![
            IngestStep::MeasureSource,
            IngestStep::StoreBook,
            IngestStep::StoreEpisodes,
            IngestStep::DropStaleRows,
            IngestStep::SweepCopies,
        ]
    );
    let s = settings(StorageMode::Full);
    let (_, rows) = ingested(&p, &s, "/lib/b.m4b", &["/lib/b.m4b"], TranscodeMode::Off, false);
    assert_eq!(rows[0].source_path, "/lib/b.m4b");
    assert_eq!(rows[0].file_path, "/lib/b.m4b");
}

#[test]
fn a_chapter_without_a_title_is_numbered() {
    let (_, titles) = chapter_specs(&chapters(), secs(30), "A Book");
    assert_eq!(titles, vec!["One", "Chapter 2"]);
}

#[test]
fn saver_mode_records_real_sizes_and_starts_but_deletes_the_files() {
    let p = plan("aac", chapters(), TranscodeMode::Off);
    assert_eq!(
        ingest_steps(&p, true, false, false, true),
        vec![
            IngestStep::CreateDir,
            IngestStep::CutChapter(0),
            IngestStep::DeleteEpisode(0),
            IngestStep::CutChapter(1),
            IngestStep::DeleteEpisode(1),
            IngestStep::ExtractCover,
            IngestStep::StoreBook,
            IngestStep::StoreEpisodes,
            IngestStep::DropStaleRows,
            IngestStep::SweepOtherContainers,
        ]
    );
    let s = settings(StorageMode::Saver);
    let paths = ["/data/books/b/001.m4a", "/data/books/b/002.m4a"];
    let (_, rows) = ingested(&p, &s, "/lib/b.m4b", &paths, TranscodeMode::Off, false);
    assert_eq!(rows[1].start, secs(10));
    assert_eq!(rows[1].byte_length, 101);
    assert_eq!(rows[1].source_path, "");
    assert_eq!(rows[1].guid, episode_guid("b", 1, 1_700_000_000));
    assert_eq!(rows[1].pubdate_epoch, 1_700_000_000);
    assert_eq!(rows[0].pubdate_epoch, 1_700_000_000 - 60);
}

#[test]
fn a_transcoded_saver_book_keeps_its_episodes_on_disk() {
    let p = plan("flac", chapters(), TranscodeMode::Aac);
    assert_eq!(p.enc, Encoding::Aac);
    assert_eq!(p.out_ext, "m4a");
    let steps = ingest_steps(&p, true, false, false, false);
    assert_eq!(steps[0], IngestStep::SplitBook);
    assert!(!steps.iter().any(|s| matches!(s, IngestStep::DeleteEpisode(_))));
}

#[test]
fn chapterless_flac_transcodes_into_the_data_dir_instead_of_serving_in_place() {
    let p = plan("flac", Vec::new(), TranscodeMode::Mp3);
    assert!(!p.serve_in_place && p.chapterless);
    assert_eq!(p.out_ext, "mp3");
    let steps = ingest_steps(&p, false, false, false, false);
    assert_eq!(steps[0], IngestStep::TranscodeWhole);
    assert_eq!(*steps.last().unwrap(), IngestStep::SweepOtherContainers);
}

#[test]
fn non_faststart_single_file_is_flagged_and_optionally_remuxed() {
    let p = plan("aac", Vec::new(), TranscodeMode::Off);
    let remuxed = ingest_steps(&p, false, true, true, false);
    assert_eq!(
        &remuxed[..3],
        &[IngestStep::CreateDir, IngestStep::RemuxWhole, IngestStep::DeleteEpisode(0)]
    );
    assert_eq!(ingest_steps(&p, false, true, false, false)[0], IngestStep::MeasureSource);
    assert_eq!(ingest_steps(&p, false, false, true, false)[0], IngestStep::MeasureSource);
    let s = settings(StorageMode::Full);
    let (_, rows) = ingested(&p, &s, "/lib/b.m4b", &["/lib/b.m4b"], TranscodeMode::Off, true);
    assert!(rows[0].needs_faststart);
}

fn up_to_date(
    book: &BookRow,
    rows: &Vec<EpisodeRow>,
    present: bool,
    s: &Settings,
    mtime: i64,
    input: &str,
    mode: TranscodeMode,
) -> bool {
    is_up_to_date(book, rows, &vec![present; rows.len()], s, mtime, input, mode)
}

#[test]
fn scans_chapters_into_the_index_and_is_idempotent() {
    let p = plan("aac", chapters(), TranscodeMode::Off);
    let s = settings(StorageMode::Full);
    let input = "/lib/b.m4b";
    let paths = ["/data/books/b/001.m4a", "/data/books/b/002.m4a"];
    let (book, rows) = ingested(&p, &s, input, &paths, TranscodeMode::Off, false);
    let off = TranscodeMode::Off;
    let m = 1_700_000_000;
    assert!(up_to_date(&book, &rows, true, &s, m, input, off));
    assert!(!up_to_date(&book, &rows, false, &s, m, input, off), "files are gone");
    assert!(!up_to_date(&book, &rows, true, &s, m + 1, input, off), "source changed");
    assert!(!up_to_date(&book, &Vec::new(), true, &s, m, input, off), "no episodes");
    let saver = settings(StorageMode::Saver);
    assert!(!up_to_date(&book, &rows, true, &saver, m, input, off), "mode changed");

    let xml = feed_xml(&book, &rows, "http://h", "cap", &None).expect("a sound feed");
    assert_eq!(xml.matches("<item>").count(), 2);
}

#[test]
fn a_later_chapter_at_zero_matters_in_saver_mode_only() {
    let twice_zero = vec![
        Chapter { idx: 0, start: 0, end: secs(10), title: None },
        Chapter { idx: 1, start: 0, end: secs(30), title: None },
    ];
    let p = plan("aac", twice_zero, TranscodeMode::Off);
    let paths = ["/d/001.m4a", "/d/002.m4a"];
    let off = TranscodeMode::Off;
    for (mode, current) in [(StorageMode::Full, true), (StorageMode::Saver, false)] {
        let s = settings(mode);
        let (book, rows) = ingested(&p, &s, "/lib/b.m4b", &paths, off, false);
        assert_eq!(up_to_date(&book, &rows, true, &s, 1_700_000_000, "/lib/b.m4b", off), current);
        assert_eq!(book.status, "ready");
    }
}

#[test]
fn editing_sidecar_reingests_without_touching_audio() {
    let p = plan("aac", chapters(), TranscodeMode::Off);
    let s = settings(StorageMode::Full);
    let paths = ["/d/001.m4a", "/d/002.m4a"];
    let (book, rows) = ingested(&p, &s, "/lib/b.m4b", &paths, TranscodeMode::Off, false);
    let check = |s: &Settings| {
        up_to_date(&book, &rows, true, s, 1_700_000_000, "/lib/b.m4b", TranscodeMode::Off)
    };
    assert!(check(&s));
    let change = |f: fn(&mut Settings)| {
        let mut changed = settings(StorageMode::Full);
        f(&mut changed);
        changed
    };
    assert!(!check(&change(|s| s.title = "Other".to_string())));
    assert!(!check(&change(|s| s.author = Some("Someone".to_string()))));
    assert!(!check(&change(|s| s.cover_url = Some("http://c".to_string()))));
    assert!(!check(&change(|s| s.force_embedded = true)));
    assert!(!check(&change(|s| s.force_reingest = true)));
}

#[test]
fn saver_reingests_migrated_rows_with_zero_start_sec() {
    let p = plan("aac", chapters(), TranscodeMode::Off);
    let s = settings(StorageMode::Saver);
    let paths = ["/d/001.m4a", "/d/002.m4a"];
    let (book, mut rows) = ingested(&p, &s, "/lib/b.m4b", &paths, TranscodeMode::Off, false);
    let check = |rows: &Vec<EpisodeRow>| {
        up_to_date(&book, rows, false, &s, 1_700_000_000, "/lib/b.m4b", TranscodeMode::Off)
    };
    assert!(check(&rows), "saver files need not be on disk");
    rows[1].start = 0;
    assert!(!check(&rows));
}

#[test]
fn toggling_remux_flag_reingests_the_episode() {
    let p = plan("aac", Vec::new(), TranscodeMode::Off);
    let s = settings(StorageMode::Full);
    let (book, rows) =
        ingested(&p, &s, "/lib/b.m4b", &["/lib/b.m4b"], TranscodeMode::Off, true);
    let m = 1_700_000_000;
    assert!(up_to_date(&book, &rows, true, &s, m, "/lib/b.m4b", TranscodeMode::Off));
    let mut remux = settings(StorageMode::Full);
    remux.remux_non_faststart = true;
    assert!(!up_to_date(&book, &rows, true, &remux, m, "/lib/b.m4b", TranscodeMode::Off));
    let (book, rows) =
        ingested(&p, &remux, "/lib/b.m4b", &["/data/books/b/001.m4b"], TranscodeMode::Off, true);
    assert!(
        up_to_date(&book, &rows, false, &remux, m, "/lib/b.m4b", TranscodeMode::Off),
        "the remuxed copy is made on demand"
    );
}

#[test]
fn a_pre_transcode_row_is_not_reingested_but_a_stale_mode_is() {
    let p = plan("flac", chapters(), TranscodeMode::Off);
    let s = settings(StorageMode::Full);
    let paths = ["/d/001.flac", "/d/002.flac"];
    let (mut book, rows) = ingested(&p, &s, "/lib/b.flac", &paths, TranscodeMode::Off, false);
    let m = 1_700_000_000;
    book.transcode = None;
    assert!(up_to_date(&book, &rows, true, &s, m, "/lib/b.flac", TranscodeMode::Off));
    assert!(!up_to_date(&book, &rows, true, &s, m, "/lib/b.flac", TranscodeMode::Aac));
    book.transcode = Some(TranscodeMode::Aac);
    assert!(!up_to_date(&book, &rows, true, &s, m, "/lib/b.flac", TranscodeMode::Off));
    assert!(up_to_date(&book, &rows, true, &s, m, "/lib/b.flac", TranscodeMode::Aac));
}

#[test]
fn a_failed_cover_re_extraction_keeps_the_previous_cover() {
    let some = |s: &str| Some(s.to_string());
    assert_eq!(kept_cover(true, some("new"), some("old"), true), some("new"));
    assert_eq!(kept_cover(true, None, some("old"), true), some("old"));
    assert_eq!(kept_cover(true, None, some("old"), false), None);
    assert_eq!(kept_cover(false, None, some("old"), true), None);
}

#[test]
fn a_book_without_a_record_or_with_an_old_one_is_ingested() {
    let p = plan("aac", chapters(), TranscodeMode::Off);
    let s = settings(StorageMode::Full);
    let input = "/lib/b.m4b";
    let stand = |record: &Option<Record>, mtime: i64, thumb: bool| {
        standing(record, &s, mtime, input, TranscodeMode::Off, thumb)
    };
    assert_eq!(stand(&None, 1, true), Standing::Outdated);
    let (mut book, episodes) =
        ingested(&p, &s, input, &["/d/001.m4a", "/d/002.m4a"], TranscodeMode::Off, false);
    book.cover_path = Some("/d/cover.jpg".to_string());
    let record = Some(Record { book, episodes, present: vec![true, true] });
    let m = 1_700_000_000;
    assert_eq!(stand(&record, m, true), Standing::Current { thumbnail: false });
    assert_eq!(stand(&record, m, false), Standing::Current { thumbnail: true });
    assert_eq!(stand(&record, m + 1, true), Standing::Outdated);
}

fn episode(idx: usize) -> SplitEpisode {
    SplitEpisode {
        idx,
        path: format!("/d/{:03}.m4a", idx + 1),
        byte_length: 7,
        duration: secs(10),
    }
}

#[test]
fn an_ingest_goes_through_its_steps() {
    let p = plan("aac", chapters(), TranscodeMode::Off);
    let mut run = IngestRun::new(p, true, false, false, true);
    let mut steps = Vec::new();
    while let Some(step) = run.next_step() {
        steps.push(step);
        if step == IngestStep::StoreEpisodes || step == IngestStep::DropStaleRows {
            let rows = run.rows("b", 1_700_000_000, "/lib/b.m4b").unwrap();
            assert_eq!(rows.len(), 2);
            assert_eq!(rows[1].start, secs(10));
        } else {
            assert!(run.rows("b", 1_700_000_000, "/lib/b.m4b").is_none());
        }
        run.report(match step {
            IngestStep::CutChapter(i) => StepOutcome::Episode(episode(i)),
            IngestStep::ExtractCover => StepOutcome::Failed,
            _ => StepOutcome::Done,
        });
    }
    assert!(!run.failed, "a cover that cannot be had is no failure");
    assert_eq!(run.cover, None);
    assert_eq!(
        &steps[6..],
        &[
            IngestStep::StoreBook,
            IngestStep::StoreEpisodes,
            IngestStep::DropStaleRows,
            IngestStep::SweepOtherContainers,
        ]
    );
    assert_eq!(run.produced.len(), 2);
}

#[test]
fn a_failed_step_ends_the_ingest() {
    let begin = || IngestRun::new(plan("aac", chapters(), TranscodeMode::Off), false, false, false, false);
    let mut run = begin();
    assert_eq!(run.next_step(), Some(IngestStep::SplitBook));
    run.report(StepOutcome::Failed);
    assert!(run.failed);
    assert_eq!(run.next_step(), None);

    let mut short = begin();
    short.report(StepOutcome::Episodes(vec![episode(0)]));
    assert!(short.failed, "a chapter is missing");
    let mut mixed = begin();
    mixed.report(StepOutcome::Episodes(vec![episode(1), episode(0)]));
    assert!(mixed.failed, "out of order");
    let mut whole = begin();
    whole.report(StepOutcome::Episodes(vec![episode(0), episode(1)]));
    assert_eq!(whole.next_step(), Some(IngestStep::StoreBook));
}

#[test]
fn dates_that_cannot_be_recorded_are_told_apart() {
    assert!(dates_fit(0, 0));
    assert!(dates_fit(1_700_000_000, 1_000));
    assert!(!dates_fit(i64::MIN, 1));
    assert!(!dates_fit(0, usize::MAX));
}

// ---- Folders --------------------------------------------------------------

fn track(name: &str, number: Option<u32>, mtime: i64) -> Mp3Track {
    Mp3Track {
        path: format!("/r/f/{name}"),
        name: name.as_bytes().to_vec(),
        mtime,
        byte_length: 500,
        duration: secs(60),
        track: number,
        title: name.to_string(),
    }
}

#[test]
fn mp3_folder_serves_tracks_in_place_in_track_order() {
    let tracks = vec![
        track("c.mp3", Some(1), 100),
        track("a.mp3", Some(3), 200),
        track("b.mp3", Some(2), 300),
    ];
    assert_eq!(order_mp3_tracks(&tracks), vec![0, 2, 1]);
    let rows = folder_episode_rows("f", 300, &tracks);
    assert_eq!(
        rows.iter().map(|r| r.title.as_str()).collect::<Vec<_>>(),
        vec!["c.mp3", "b.mp3", "a.mp3"]
    );
    for (i, r) in rows.iter().enumerate() {
        assert_eq!(r.idx, i as i64);
        assert_eq!(r.file_path, r.source_path);
        assert_eq!(r.byte_length, 500);
        assert_eq!(r.start, 0);
    }
    assert_eq!(rows[1].guid, track_guid("f", b"b.mp3", 300));
    assert_eq!(rows[2].pubdate_epoch, 300);
}

#[test]
fn mp3_folder_falls_back_to_filename_order_on_missing_track() {
    let tracks = vec![
        track("B.mp3", Some(1), 0),
        track("a.mp3", None, 0),
        track("c.mp3", Some(2), 0),
    ];
    assert_eq!(order_mp3_tracks(&tracks), vec![1, 0, 2], "whatever the case");
    let twice = vec![track("z.mp3", Some(1), 0), track("y.mp3", Some(1), 0)];
    assert_eq!(order_mp3_tracks(&twice), vec![1, 0], "duplicate numbers");
}

#[test]
fn a_track_keeps_its_guid_when_another_goes() {
    let before = folder_episode_rows("f", 9, &vec![track("1.mp3", Some(1), 5), track("2.mp3", Some(2), 9)]);
    let after = folder_episode_rows("f", 9, &vec![track("2.mp3", Some(2), 9)]);
    assert_eq!(before[1].guid, after[0].guid);
    assert_ne!(before[0].guid, after[0].guid);
}

#[test]
fn mp3_folder_rescan_is_idempotent_and_stays_in_place() {
    let own = BookOverrides::default();
    let tracks = vec![track("1.mp3", Some(1), 5), track("2.mp3", Some(2), 9)];
    let times: Vec<i64> = tracks.iter().map(|t| t.mtime).collect();
    let mtime = folder_mtime(&times);
    assert_eq!(mtime, 9);
    assert_eq!(folder_mtime(&Vec::new()), 0);
    let book = folder_book_row("f", "cap".to_string(), &own, "/r/f", mtime);
    assert_eq!(book.title, "f");
    assert_eq!(book.storage_mode, None);
    assert_eq!(book.transcode, Some(TranscodeMode::Off));
    let mut rows = folder_episode_rows("f", mtime, &tracks);
    let check = |book: &BookRow, rows: &Vec<EpisodeRow>, present: bool, mtime: i64, own: &BookOverrides| {
        folder_is_up_to_date(book, rows, &vec![present; rows.len()], own, "/r/f", mtime)
    };
    assert!(check(&book, &rows, true, mtime, &own));
    assert!(!check(&book, &rows, false, mtime, &own));
    assert!(!check(&book, &rows, true, mtime + 1, &own));
    let titled = BookOverrides { title: Some("T".to_string()), ..Default::default() };
    assert!(!check(&book, &rows, true, mtime, &titled));
    let forced = BookOverrides { force_reingest: Some(true), ..Default::default() };
    assert!(!check(&book, &rows, true, mtime, &forced));
    rows[0].source_path = String::new();
    assert!(!check(&book, &rows, true, mtime, &own), "an old copy is taken up again");
}

#[test]
fn an_mp3_track_that_links_outside_the_library_is_dropped() {
    assert!(is_track("/r/f/1.MP3", true, Some("/r/f/1.MP3"), "/r"));
    assert!(!is_track("/r/f/1.mp3", true, Some("/out/1.mp3"), "/r"));
    assert!(!is_track("/r/f/1.mp3", true, None, "/r"));
    assert!(!is_track("/r/f/1.mp3", false, Some("/r/f/1.mp3"), "/r"));
    assert!(!is_track("/r/f/1.m4b", true, Some("/r/f/1.m4b"), "/r"));
    assert_eq!(track_title(Some("Tag".to_string()), "/r/f/1.mp3"), "Tag");
    assert_eq!(track_title(None, "/r/f/1.mp3"), "1");
}

fn found(name: &str, mtime: i64, number: Option<u32>) -> FoundTrack {
    FoundTrack {
        path: format!("/r/f/{name}"),
        name: name.as_bytes().to_vec(),
        mtime,
        byte_length: 9,
        probe: Some(TrackProbe { duration: secs(60), track: number, title: None }),
    }
}

#[test]
fn a_track_that_cannot_be_probed_is_passed_over() {
    let own = BookOverrides::default();
    let mut bad = found("bad.mp3", 50, None);
    bad.probe = None;
    let tracks = vec![found("b.mp3", 5, Some(2)), bad, found("a.mp3", 7, Some(1))];
    let made = ingest_folder("f", "cap".to_string(), &own, "/r/f", &tracks).unwrap();
    assert_eq!(made.book.source_mtime, 50, "the newest file counts, readable or not");
    assert_eq!(made.book.feed_id, "cap");
    let titles: Vec<&str> = made.episodes.iter().map(|e| e.title.as_str()).collect();
    assert_eq!(titles, vec!["a", "b"]);
}

#[test]
fn a_folder_without_readable_tracks_is_refused() {
    let own = BookOverrides::default();
    let mut bad = found("bad.mp3", 50, None);
    bad.probe = None;
    for tracks in [Vec::new(), vec![bad]] {
        let err = ingest_folder("f", "cap".to_string(), &own, "/r/f", &tracks).unwrap_err();
        assert!(matches!(err, ScanError::EmptyFolder(p) if p == "/r/f"));
    }
}

// ---- Watching -------------------------------------------------------------

fn run(events: &[WatchEvent]) -> Vec<WatchAction> {
    let mut w = Watch::start();
    let mut actions = vec![w.doing];
    for e in events {
        actions.push(w.step(*e));
    }
    actions
}

#[test]
fn watch_loop_fires_ready_even_when_the_db_cannot_open() {
    assert_eq!(
        run(&[WatchEvent::Failed, WatchEvent::Done]),
        vec![WatchAction::OpenIndex, WatchAction::SignalReady, WatchAction::Fail]
    );
}

#[test]
fn watch_loop_degrades_when_the_library_cannot_be_watched() {
    assert_eq!(
        run(&[WatchEvent::Done, WatchEvent::Failed, WatchEvent::Done, WatchEvent::Done]),
        vec![WatchAction::OpenIndex, WatchAction::StartWatch, WatchAction::Reconcile, WatchAction::SignalReady, WatchAction::Stop]
    );
}

#[test]
fn a_burst_of_changes_is_one_reconcile() {
    let (done, failed) = (WatchEvent::Done, WatchEvent::Failed);
    assert_eq!(
        run(&[done, done, done, done, done, done, done, failed, done]),
        vec![
            WatchAction::OpenIndex,
            WatchAction::StartWatch,
            WatchAction::Reconcile,
            WatchAction::SignalReady,
            WatchAction::WaitForChange,
            WatchAction::WaitForQuiet,
            WatchAction::WaitForQuiet,
            WatchAction::WaitForQuiet,
            WatchAction::Reconcile,
            WatchAction::WaitForChange,
        ]
    );
}

// ---- One file -------------------------------------------------------------

#[test]
fn a_single_file_makes_a_feed_of_its_own() {
    let eps = produced(&["/o/001.m4a", "/o/002.m4a"]);
    let titles = vec!["One".to_string(), "Two".to_string()];
    let f = single_feed("/in/My Book.m4b", "http://h:1//", 1_700_000_000, &eps, &titles);
    assert_eq!(f.id, "my-book");
    assert_eq!(f.title, "My Book");
    assert_eq!(f.self_url, "http://h:1/feed/my-book.xml");
    assert_eq!(f.episodes[1].audio_url, "http://h:1/audio/my-book/002.m4a");
    assert_eq!(f.episodes[1].title, "Two");
    assert_eq!(f.episodes[0].guid, episode_guid("my-book", 0, 1_700_000_000));
    podspine::feed::render_checked(&f).expect("a sound feed");
}
