//! Ingesting one audio file: whether it is needed, what is made of it in which
//! order, and what is put on record.

use vstd::prelude::*;
use vstd::string::StringExecFns;
use vstd::utf8::encode_utf8;
use crate::config::book_overrides::BookOverrides;
use crate::config::{StorageMode, TranscodeMode};
use crate::feed::{episode_guid, episode_material, pubdate, pubdate_epoch, pubdates_fit};
use crate::index::{are_records, BookRow, EpisodeRow, READY};
use crate::outside::blake3_hex;
use crate::paths::{extension, file_stem_of, has_no_slash, joined, lower_extension, path_extension, path_stem};
use crate::prober::Chapter;
use crate::scanner::{drm, encoding_for, encoding_of, episode_container, episode_ext, expected_transcode, is_drm, is_mp3, is_tier2, plays_everywhere, transcode_expected, ScanOptions};
use crate::splitter::{cover_name, episode_name, is_episode_stem, is_numbered, law_episode_file_tells_its_number, law_part_lies_beside, part_of, ChapterCut, Encoding, SplitEpisode};
use crate::text::{chars_of, clone_opt, dec, dec_string, ends_with, is_digit, lemma_padded_digits, lower, opt_eq, opt_str, opt_text, same_chars, str_eq, string_from, texts, to_lower, zero_pad};

verus! {

/// Why a book cannot be ingested.
#[derive(Debug)]
pub enum ScanError {
    /// The source is no file.
    NotAFile(String),
    /// The source is protected.
    UnsupportedDrm(String),
    /// A folder holds no audio that can be read.
    EmptyFolder(String),
}

/// Lets a source in, given whether it is a file: protected ones are refused.
pub fn vet_source(input: &str, is_file: bool) -> (r: Result<(), ScanError>)
    ensures
        if !is_file {
            r matches Err(ScanError::NotAFile(p)) && p@ == input@
        } else if drm(input@) {
            r matches Err(ScanError::UnsupportedDrm(p)) && p@ == input@
        } else {
            r is Ok
        },
{
    if !is_file {
        return Err(ScanError::NotAFile(input.to_owned()));
    }
    if is_drm(input) {
        return Err(ScanError::UnsupportedDrm(input.to_owned()));
    }
    Ok(())
}

// ---- Settings -------------------------------------------------------------

/// The settings that hold for one book.
#[derive(Debug)]
pub struct Settings {
    pub force_embedded: bool,
    pub remux_non_faststart: bool,
    pub storage: StorageMode,
    pub force_reingest: bool,
    pub title: String,
    pub author: Option<String>,
    pub cover_url: Option<String>,
}

/// Whether `s` holds for a book: its own settings, where it has them, else the server's. `name`
/// is its title if it has no other.
pub open spec fn is_effective(s: Settings, opts: ScanOptions, own: BookOverrides, name: Seq<char>) -> bool {
    &&& s.force_embedded == match own.force_embedded_chapters {
        Some(b) => b,
        None => opts.force_embedded,
    }
    &&& s.remux_non_faststart == match own.remux_non_faststart {
        Some(b) => b,
        None => opts.remux_non_faststart,
    }
    &&& s.storage == match own.storage_mode {
        Some(m) => m,
        None => opts.storage,
    }
    &&& s.force_reingest == (own.force_reingest == Some(true))
    &&& s.title@ == match own.title {
        Some(t) => t@,
        None => name,
    }
    &&& opt_text(s.author) == opt_text(own.author)
    &&& opt_text(s.cover_url) == opt_text(own.default_cover_url)
}

/// The settings that hold for a book.
pub fn effective_settings(opts: &ScanOptions, own: &BookOverrides, name: &str) -> (r: Settings)
    ensures
        is_effective(r, *opts, *own, name@),
        own.force_embedded_chapters is Some ==> Some(r.force_embedded) == own.force_embedded_chapters,
        own.force_embedded_chapters is None ==> r.force_embedded == opts.force_embedded,
        own.remux_non_faststart is Some ==> Some(r.remux_non_faststart) == own.remux_non_faststart,
        own.remux_non_faststart is None ==> r.remux_non_faststart == opts.remux_non_faststart,
        own.storage_mode is Some ==> Some(r.storage) == own.storage_mode,
        own.storage_mode is None ==> r.storage == opts.storage,
        r.force_reingest <==> own.force_reingest == Some(true),
        own.title is Some ==> r.title@ == own.title->0@,
        own.title is None ==> r.title@ == name@,
        opt_text(r.author) == opt_text(own.author),
        opt_text(r.cover_url) == opt_text(own.default_cover_url),
{
    Settings {
        force_embedded: match own.force_embedded_chapters {
            Some(b) => b,
            None => opts.force_embedded,
        },
        remux_non_faststart: match own.remux_non_faststart {
            Some(b) => b,
            None => opts.remux_non_faststart,
        },
        storage: match own.storage_mode {
            Some(m) => m,
            None => opts.storage,
        },
        force_reingest: match own.force_reingest {
            Some(b) => b,
            None => false,
        },
        title: match &own.title {
            Some(t) => t.clone(),
            None => name.to_owned(),
        },
        author: clone_opt(&own.author),
        cover_url: clone_opt(&own.default_cover_url),
    }
}

// ---- Whether it is needed -------------------------------------------------

/// Whether a record still says what the settings say. A change of a sidecar leaves the time of
/// the audio alone, so it must be looked for here.
pub open spec fn says_the_same(b: BookRow, s: Settings) -> bool {
    &&& b.title@ == s.title@
    &&& opt_text(b.author) == opt_text(s.author)
    &&& b.storage_mode == Some(s.storage)
    &&& opt_text(b.default_cover_url) == opt_text(s.cover_url)
    &&& b.force_embedded == s.force_embedded
}

/// Whether a chapter's start is on record: in saver mode a later chapter that starts at 0 comes
/// from a database that did not know starts, and could not be cut again.
pub open spec fn start_recorded(e: EpisodeRow, saver: bool) -> bool {
    !saver || e.idx <= 0 || e.start > 0
}

/// Whether a non-faststart file is served the way the setting asks for: remuxed or in place.
pub open spec fn served_as_set(e: EpisodeRow, remux: bool) -> bool {
    !e.needs_faststart || e.source_path@.len() == 0 || (e.file_path@ != e.source_path@) == remux
}

/// Whether the file of an episode may be missing, because it is made on demand.
pub open spec fn may_be_missing(e: EpisodeRow, saver: bool) -> bool {
    (saver && e.source_path@.len() == 0) || (e.source_path@.len() > 0 && e.file_path@ != e.source_path@)
}

/// Whether all is well with an episode; `present` says whether its file exists.
pub open spec fn episode_is_current(e: EpisodeRow, present: bool, s: Settings) -> bool {
    &&& start_recorded(e, s.storage == StorageMode::Saver)
    &&& served_as_set(e, s.remux_non_faststart)
    &&& may_be_missing(e, s.storage == StorageMode::Saver) || present
}

/// Whether a book's audio was treated as the setting asks for, as far as its extension tells. An
/// old record was copied.
pub open spec fn treated_as_set(b: BookRow, input: Seq<char>, mode: TranscodeMode) -> bool {
    let stored = match b.transcode {
        Some(m) => m,
        None => TranscodeMode::Off,
    };
    match transcode_expected(input, mode) {
        Some(m) => stored == m,
        None => true,
    }
}

/// Whether a book needs no ingest: its source is unchanged, and records and files are as the
/// settings ask for.
pub open spec fn is_current(
    b: BookRow,
    eps: Seq<EpisodeRow>,
    present: Seq<bool>,
    s: Settings,
    mtime: i64,
    input: Seq<char>,
    mode: TranscodeMode,
) -> bool {
    &&& b.source_mtime == mtime
    &&& !s.force_reingest
    &&& says_the_same(b, s)
    &&& treated_as_set(b, input, mode)
    &&& eps.len() > 0
    &&& forall|i: int| 0 <= i < eps.len() ==> episode_is_current(#[trigger] eps[i], present[i], s)
}

/// A book is ingested again as soon as something about it has changed: the time of its source, its
/// title, author, cover, storage mode or choice of chapters; if it is asked for; if it has no
/// episodes; if a file is gone that cannot be made again; if the start of a later chapter of a
/// book in saver mode is not known; or if a non-faststart file is not served the way it should be.
/// Otherwise it is left alone, as far as its audio was treated as the setting asks for.
pub proof fn law_changes_are_noticed(
    b: BookRow,
    eps: Seq<EpisodeRow>,
    present: Seq<bool>,
    s: Settings,
    mtime: i64,
    input: Seq<char>,
    mode: TranscodeMode,
)
    ensures
        is_current(b, eps, present, s, mtime, input, mode) <==> {
            &&& b.source_mtime == mtime
            &&& !s.force_reingest
            &&& b.title@ == s.title@
            &&& opt_text(b.author) == opt_text(s.author)
            &&& opt_text(b.default_cover_url) == opt_text(s.cover_url)
            &&& b.storage_mode == Some(s.storage)
            &&& b.force_embedded == s.force_embedded
            &&& treated_as_set(b, input, mode)
            &&& eps.len() > 0
            &&& forall|i: int|
                0 <= i < eps.len() ==> {
                    let e = #[trigger] eps[i];
                    let whole = e.source_path@.len() > 0;
                    let moved = e.file_path@ != e.source_path@;
                    &&& s.storage == StorageMode::Saver && e.idx > 0 ==> e.start > 0
                    &&& e.needs_faststart && whole ==> moved == s.remux_non_faststart
                    &&& !present[i] ==> (if whole {
                        moved
                    } else {
                        s.storage == StorageMode::Saver
                    })
                }
        },
{
    if is_current(b, eps, present, s, mtime, input, mode) {
        assert forall|i: int| 0 <= i < eps.len() implies {
            let e = #[trigger] eps[i];
            let whole = e.source_path@.len() > 0;
            let moved = e.file_path@ != e.source_path@;
            &&& s.storage == StorageMode::Saver && e.idx > 0 ==> e.start > 0
            &&& e.needs_faststart && whole ==> moved == s.remux_non_faststart
            &&& !present[i] ==> (if whole {
                moved
            } else {
                s.storage == StorageMode::Saver
            })
        } by {
            assert(episode_is_current(eps[i], present[i], s));
        }
    }
}

/// How a book's audio was treated counts as far as its extension tells: with re-encoding off,
/// audio that was re-encoded is out of date; with it on, Ogg, Opus and FLAC files that were not
/// re-encoded that way are, and MP3 files that were.
pub proof fn law_treatment_is_noticed(b: BookRow, input: Seq<char>, mode: TranscodeMode)
    ensures
        mode == TranscodeMode::Off ==> (treated_as_set(b, input, mode) <==> b.transcode is None || b.transcode == Some(
            TranscodeMode::Off,
        )),
        mode != TranscodeMode::Off && {
            ||| lower_extension(input) == Some("ogg"@)
            ||| lower_extension(input) == Some("oga"@)
            ||| lower_extension(input) == Some("opus"@)
            ||| lower_extension(input) == Some("flac"@)
        } ==> (treated_as_set(b, input, mode) <==> b.transcode == Some(mode)),
        mode != TranscodeMode::Off && lower_extension(input) == Some("mp3"@) ==> (treated_as_set(b, input, mode)
            <==> b.transcode is None || b.transcode == Some(TranscodeMode::Off)),
        mode != TranscodeMode::Off && {
            ||| lower_extension(input) == Some("m4a"@)
            ||| lower_extension(input) == Some("m4b"@)
        } ==> treated_as_set(b, input, mode),
{
    reveal_strlit("mp3");
    reveal_strlit("ogg");
    reveal_strlit("oga");
    reveal_strlit("opus");
    reveal_strlit("flac");
    reveal_strlit("m4a");
    reveal_strlit("m4b");
    assert("mp3"@[0] == 'm' && "mp3"@[1] == 'p');
    assert("m4a"@[0] == 'm' && "m4a"@[1] == '4');
    assert("m4b"@[0] == 'm' && "m4b"@[1] == '4');
    assert("ogg"@[0] == 'o' && "oga"@[0] == 'o' && "opus"@[0] == 'o' && "flac"@[0] == 'f');
}

/// Whether a book needs no ingest; `present` says of each episode whether its file exists.
pub fn is_up_to_date(
    b: &BookRow,
    eps: &Vec<EpisodeRow>,
    present: &Vec<bool>,
    s: &Settings,
    mtime: i64,
    input: &str,
    mode: TranscodeMode,
) -> (r: bool)
    requires
        eps.len() == present.len(),
    ensures
        r == is_current(*b, eps@, present@, *s, mtime, input@, mode),
{
    let stored = match b.transcode {
        Some(m) => m,
        None => TranscodeMode::Off,
    };
    let treated = match expected_transcode(input, mode) {
        Some(m) => stored == m,
        None => true,
    };
    let same_mode = match b.storage_mode {
        Some(m) => m == s.storage,
        None => false,
    };
    let same = str_eq(b.title.as_str(), s.title.as_str()) && opt_eq(&b.author, &s.author) && same_mode
        && opt_eq(&b.default_cover_url, &s.cover_url) && b.force_embedded == s.force_embedded;
    if b.source_mtime != mtime || s.force_reingest || !same || !treated || eps.len() == 0 {
        return false;
    }
    let saver = s.storage == StorageMode::Saver;
    let mut i: usize = 0;
    while i < eps.len()
        invariant
            i <= eps.len(),
            eps.len() == present.len(),
            saver == (s.storage == StorageMode::Saver),
            forall|j: int| 0 <= j < i ==> episode_is_current(#[trigger] eps@[j], present@[j], *s),
        decreases eps.len() - i,
    {
        let e = &eps[i];
        let whole = !e.source_path.as_str().is_empty();
        let moved = !str_eq(e.file_path.as_str(), e.source_path.as_str());
        let start_ok = !saver || e.idx <= 0 || e.start > 0;
        let serve_ok = !e.needs_faststart || !whole || moved == s.remux_non_faststart;
        let missing_ok = (saver && !whole) || (whole && moved);
        if !(start_ok && serve_ok && (missing_ok || present[i])) {
            assert(!episode_is_current(eps@[i as int], present@[i as int], *s));
            return false;
        }
        i = i + 1;
    }
    true
}

// ---- What is made ---------------------------------------------------------

/// The title of a chapter: its own, else its number.
pub open spec fn chapter_title(c: Chapter) -> Seq<char> {
    match c.title {
        Some(t) => t@,
        None => "Chapter "@ + dec((c.idx + 1) as nat),
    }
}

/// The cut of a chapter.
pub open spec fn cut_for(c: Chapter) -> ChapterCut {
    ChapterCut { idx: c.idx, start: c.start, end: c.end }
}

/// Whether every chapter has a number.
pub open spec fn chapters_fit(chapters: Seq<Chapter>) -> bool {
    forall|i: int| 0 <= i < chapters.len() ==> (#[trigger] chapters[i]).idx < usize::MAX
}

/// The cuts of a book: its chapters, or the whole file if it has none.
pub open spec fn cuts_of(chapters: Seq<Chapter>, duration: i128) -> Seq<ChapterCut> {
    if chapters.len() == 0 {
        seq![ChapterCut { idx: 0, start: 0, end: duration }]
    } else {
        chapters.map_values(|c: Chapter| cut_for(c))
    }
}

/// The titles of a book's episodes; a single one is called like the file.
pub open spec fn titles_of(chapters: Seq<Chapter>, name: Seq<char>) -> Seq<Seq<char>> {
    if chapters.len() == 0 {
        seq![name]
    } else {
        chapters.map_values(|c: Chapter| chapter_title(c))
    }
}

/// The cuts and the titles of a book's episodes.
pub fn chapter_specs(chapters: &Vec<Chapter>, duration: i128, name: &str) -> (r: (
    Vec<ChapterCut>,
    Vec<String>,
))
    requires
        chapters_fit(chapters@),
    ensures
        r.0@ == cuts_of(chapters@, duration),
        texts(r.1@) == titles_of(chapters@, name@),
        chapters@.len() == 0 ==> {
            &&& r.0@.len() == 1
            &&& r.0@[0].idx == 0
            &&& r.0@[0].start == 0
            &&& r.0@[0].end == duration
            &&& r.1@.len() == 1
            &&& r.1@[0]@ == name@
        },
        chapters@.len() > 0 ==> r.0@.len() == chapters@.len() && r.1@.len() == chapters@.len(),
        forall|i: int|
            0 <= i < chapters@.len() ==> {
                &&& (#[trigger] r.0@[i]).idx == chapters@[i].idx
                &&& r.0@[i].start == chapters@[i].start
                &&& r.0@[i].end == chapters@[i].end
            },
        forall|i: int|
            0 <= i < chapters@.len() ==> match chapters@[i].title {
                Some(t) => (#[trigger] r.1@[i])@ == t@,
                None => r.1@[i]@ == "Chapter "@ + dec((chapters@[i].idx + 1) as nat),
            },
{
    let mut cuts: Vec<ChapterCut> = Vec::new();
    let mut titles: Vec<String> = Vec::new();
    if chapters.len() == 0 {
        cuts.push(ChapterCut { idx: 0, start: 0, end: duration });
        titles.push(name.to_owned());
        assert(cuts@ =~= cuts_of(chapters@, duration));
        assert(texts(titles@) =~= titles_of(chapters@, name@));
        return (cuts, titles);
    }
    let mut i: usize = 0;
    while i < chapters.len()
        invariant
            i <= chapters.len(),
            chapters_fit(chapters@),
            cuts@.len() == i,
            titles@.len() == i,
            forall|j: int| 0 <= j < i ==> #[trigger] cuts@[j] == cut_for(chapters@[j]),
            forall|j: int| 0 <= j < i ==> (#[trigger] titles@[j])@ == chapter_title(chapters@[j]),
        decreases chapters.len() - i,
    {
        let c = &chapters[i];
        assert(chapters@[i as int].idx < usize::MAX);
        cuts.push(ChapterCut { idx: c.idx, start: c.start, end: c.end });
        let title = match &c.title {
            Some(t) => t.clone(),
            None => {
                let mut t = "Chapter ".to_owned();
                let n = dec_string((c.idx + 1) as u128);
                t.append(n.as_str());
                t
            },
        };
        titles.push(title);
        i = i + 1;
    }
    assert(cuts@ =~= cuts_of(chapters@, duration));
    assert(texts(titles@) =~= titles_of(chapters@, name@));
    (cuts, titles)
}

/// What is made of a file.
#[derive(Debug)]
pub struct IngestPlan {
    /// How its audio is made.
    pub enc: Encoding,
    /// Whether the episode is the file itself, served from the library.
    pub serve_in_place: bool,
    /// Whether there are no chapters.
    pub chapterless: bool,
    /// Extension of the episodes.
    pub out_ext: &'static str,
    /// Cuts.
    pub cuts: Vec<ChapterCut>,
    /// Titles, one for each cut.
    pub titles: Vec<String>,
}

/// Whether `p` is what is made of a file. One without chapters is served as it is, unless it is
/// re-encoded: then the audio exists in the data directory only.
pub open spec fn is_ingest_plan(
    p: IngestPlan,
    codec: Option<Seq<char>>,
    duration: i128,
    chapters: Seq<Chapter>,
    mode: TranscodeMode,
    name: Seq<char>,
) -> bool {
    &&& p.enc == encoding_of(codec, mode)
    &&& p.chapterless == (chapters.len() == 0)
    &&& p.serve_in_place == (chapters.len() == 0 && p.enc == Encoding::Copy)
    &&& p.out_ext@ == episode_container(codec, p.enc)
    &&& p.cuts@ == cuts_of(chapters, duration)
    &&& texts(p.titles@) == titles_of(chapters, name)
}

/// Decides what is made of a file with the audio codec `codec`.
pub fn plan_ingest(
    codec: Option<&str>,
    duration: i128,
    chapters: &Vec<Chapter>,
    mode: TranscodeMode,
    name: &str,
) -> (r: IngestPlan)
    requires
        chapters_fit(chapters@),
    ensures
        is_ingest_plan(r, opt_str(codec), duration, chapters@, mode, name@),
        chapters@.len() == 0 ==> {
            &&& r.cuts@.len() == 1
            &&& r.cuts@[0].idx == 0
            &&& r.cuts@[0].start == 0
            &&& r.cuts@[0].end == duration
            &&& r.titles@.len() == 1
            &&& r.titles@[0]@ == name@
            &&& r.serve_in_place == (r.enc == Encoding::Copy)
        },
        chapters@.len() > 0 ==> {
            &&& r.cuts@.len() == chapters@.len()
            &&& r.titles@.len() == chapters@.len()
            &&& !r.serve_in_place
        },
        forall|i: int|
            0 <= i < chapters@.len() ==> {
                &&& (#[trigger] r.cuts@[i]).idx == chapters@[i].idx
                &&& r.cuts@[i].start == chapters@[i].start
                &&& r.cuts@[i].end == chapters@[i].end
            },
        forall|i: int|
            0 <= i < chapters@.len() ==> match chapters@[i].title {
                Some(t) => (#[trigger] r.titles@[i])@ == t@,
                None => r.titles@[i]@ == "Chapter "@ + dec((chapters@[i].idx + 1) as nat),
            },
{
    let enc = encoding_for(codec, mode);
    let chapterless = chapters.len() == 0;
    let (cuts, titles) = chapter_specs(chapters, duration, name);
    IngestPlan {
        enc,
        serve_in_place: chapterless && enc == Encoding::Copy,
        chapterless,
        out_ext: episode_ext(codec, enc),
        cuts,
        titles,
    }
}

/// Every chapter of a book is cut as it stands: the plan has one cut for each, with the chapter's
/// number, start and end, and one title.
pub proof fn law_every_chapter_is_cut_as_it_stands(
    p: IngestPlan,
    codec: Option<Seq<char>>,
    duration: i128,
    chapters: Seq<Chapter>,
    mode: TranscodeMode,
    name: Seq<char>,
)
    requires
        is_ingest_plan(p, codec, duration, chapters, mode, name),
    ensures
        p.cuts@.len() == p.titles@.len(),
        chapters.len() > 0 ==> p.cuts@.len() == chapters.len(),
        forall|i: int|
            0 <= i < chapters.len() ==> {
                &&& (#[trigger] p.cuts@[i]).idx == chapters[i].idx
                &&& p.cuts@[i].start == chapters[i].start
                &&& p.cuts@[i].end == chapters[i].end
            },
        forall|i: int|
            0 <= i < chapters.len() && chapters[i].title is Some ==> (#[trigger] p.titles@[i])@
                == chapters[i].title->0@,
        chapters.len() == 0 ==> {
            &&& p.cuts@.len() == 1
            &&& p.cuts@[0].idx == 0
            &&& p.cuts@[0].start == 0
            &&& p.cuts@[0].end == duration
            &&& p.titles@[0]@ == name
        },
{
    assert(texts(p.titles@).len() == p.titles@.len());
    assert forall|i: int| 0 <= i < chapters.len() && chapters[i].title is Some implies (#[trigger] p.titles@[i])@
        == chapters[i].title->0@ by {
        assert(texts(p.titles@)[i] == p.titles@[i]@);
    }
    if chapters.len() == 0 {
        assert(texts(p.titles@)[0] == p.titles@[0]@);
    }
}

/// The lengths of the first `n` cuts, added up.
pub open spec fn total_length(cuts: Seq<ChapterCut>, n: nat) -> int
    decreases n,
{
    if n == 0 {
        0
    } else {
        total_length(cuts, (n - 1) as nat) + (cuts[n - 1].end - cuts[n - 1].start)
    }
}

proof fn lemma_total_length(cuts: Seq<ChapterCut>, n: nat)
    requires
        0 < n <= cuts.len(),
        forall|i: int, j: int|
            0 <= i && j == i + 1 && j < cuts.len() ==> (#[trigger] cuts[i]).end == (#[trigger] cuts[j]).start,
    ensures
        total_length(cuts, n) == cuts[n - 1].end - cuts[0].start,
    decreases n,
{
    if n > 1 {
        lemma_total_length(cuts, (n - 1) as nat);
        assert(cuts[n - 2].end == cuts[n - 1].start);
    } else {
        assert(total_length(cuts, 0) == 0);
    }
}

/// Where chapters do not overlap, neither do the cuts; and where each starts at the end of the one
/// before it, so do the cuts, whose lengths add up to the stretch from the first to the last. A
/// file without chapters is cut once, over its whole length.
pub proof fn law_cuts_cover_what_the_chapters_cover(
    p: IngestPlan,
    codec: Option<Seq<char>>,
    duration: i128,
    chapters: Seq<Chapter>,
    mode: TranscodeMode,
    name: Seq<char>,
)
    requires
        is_ingest_plan(p, codec, duration, chapters, mode, name),
    ensures
        (forall|i: int, j: int|
            0 <= i < j < chapters.len() ==> (#[trigger] chapters[i]).end <= (#[trigger] chapters[j]).start) ==> (
        forall|i: int, j: int|
            0 <= i < j < chapters.len() ==> (#[trigger] p.cuts@[i]).end <= (#[trigger] p.cuts@[j]).start),
        chapters.len() > 0 && (forall|i: int, j: int|
            0 <= i && j == i + 1 && j < chapters.len() ==> (#[trigger] chapters[i]).end == (
            #[trigger] chapters[j]).start) ==> total_length(p.cuts@, p.cuts@.len()) == chapters[chapters.len() - 1].end
            - chapters[0].start,
        chapters.len() == 0 ==> total_length(p.cuts@, p.cuts@.len()) == duration,
{
    law_every_chapter_is_cut_as_it_stands(p, codec, duration, chapters, mode, name);
    let cuts = p.cuts@;
    if chapters.len() == 0 {
        lemma_total_length(cuts, 1);
    } else if forall|i: int, j: int|
        0 <= i && j == i + 1 && j < chapters.len() ==> (#[trigger] chapters[i]).end == (#[trigger] chapters[j]).start {
        assert forall|i: int, j: int| 0 <= i && j == i + 1 && j < cuts.len() implies (#[trigger] cuts[i]).end == (
        #[trigger] cuts[j]).start by {
            assert(cuts[i].end == chapters[i].end && cuts[j].start == chapters[j].start);
        }
        lemma_total_length(cuts, cuts.len());
        assert(cuts[0].start == chapters[0].start);
        assert(cuts[chapters.len() - 1].end == chapters[chapters.len() - 1].end);
    }
    if forall|i: int, j: int|
        0 <= i < j < chapters.len() ==> (#[trigger] chapters[i]).end <= (#[trigger] chapters[j]).start {
        assert forall|i: int, j: int| 0 <= i < j < chapters.len() implies (#[trigger] cuts[i]).end <= (
        #[trigger] cuts[j]).start by {
            assert(cuts[i].end == chapters[i].end && cuts[j].start == chapters[j].start);
        }
    }
}

/// One step of an ingest. The first that fails ends it.
#[derive(Debug, Clone, Copy, PartialEq, Eq, Structural)]
pub enum IngestStep {
    /// Make the book's directory.
    CreateDir,
    /// Re-encode the whole file.
    TranscodeWhole,
    /// Remux the whole file.
    RemuxWhole,
    /// Measure the source, which is served as it is.
    MeasureSource,
    /// Cut one chapter.
    CutChapter(usize),
    /// Delete the file of an episode that was measured.
    DeleteEpisode(usize),
    /// Cut all chapters, and publish them as a whole.
    SplitBook,
    /// Extract the cover; a failure leaves the old one and ends nothing.
    ExtractCover,
    /// Put the book on record.
    StoreBook,
    /// Put the episodes on record.
    StoreEpisodes,
    /// Take the records of an earlier ingest off that this one did not replace.
    DropStaleRows,
    /// Delete copies of episodes that are served from the library now.
    SweepCopies,
    /// Delete episodes in containers that the book no longer uses.
    SweepOtherContainers,
}

/// Cutting and measuring the first `n` chapters, one after the other.
pub open spec fn measure_chapters(n: nat) -> Seq<IngestStep>
    decreases n,
{
    if n == 0 {
        Seq::empty()
    } else {
        measure_chapters((n - 1) as nat) + seq![
            IngestStep::CutChapter((n - 1) as usize),
            IngestStep::DeleteEpisode((n - 1) as usize),
        ]
    }
}

/// How the episodes come to be. `slow` says whether a file that is served as it is turned out to
/// be a non-faststart MP4.
pub open spec fn production(p: IngestPlan, saver: bool, slow: bool, remux: bool) -> Seq<IngestStep> {
    let transcoding = p.enc != Encoding::Copy;
    if p.chapterless && transcoding {
        seq![IngestStep::TranscodeWhole]
    } else if p.serve_in_place {
        if slow && remux {
            seq![IngestStep::CreateDir, IngestStep::RemuxWhole, IngestStep::DeleteEpisode(0)]
        } else {
            seq![IngestStep::MeasureSource]
        }
    } else if saver && !transcoding {
        seq![IngestStep::CreateDir] + measure_chapters(p.cuts@.len())
    } else {
        seq![IngestStep::SplitBook]
    }
}

/// All steps: the episodes, the cover, the records, and last of all the sweep. Until the records
/// are written, the old files are the ones that are served.
pub open spec fn steps_of(p: IngestPlan, saver: bool, slow: bool, remux: bool, has_cover: bool) -> Seq<
    IngestStep,
> {
    let cover = if has_cover {
        seq![IngestStep::ExtractCover]
    } else {
        Seq::empty()
    };
    let sweep = if p.serve_in_place {
        IngestStep::SweepCopies
    } else {
        IngestStep::SweepOtherContainers
    };
    production(p, saver, slow, remux) + cover + seq![
        IngestStep::StoreBook,
        IngestStep::StoreEpisodes,
        IngestStep::DropStaleRows,
        sweep,
    ]
}

/// Lists the steps of an ingest.
pub fn ingest_steps(p: &IngestPlan, saver: bool, slow: bool, remux: bool, has_cover: bool) -> (r: Vec<
    IngestStep,
>)
    ensures
        r@ == steps_of(*p, saver, slow, remux, has_cover),
{
    let transcoding = p.enc != Encoding::Copy;
    let mut v: Vec<IngestStep> = Vec::new();
    if p.chapterless && transcoding {
        v.push(IngestStep::TranscodeWhole);
    } else if p.serve_in_place {
        if slow && remux {
            v.push(IngestStep::CreateDir);
            v.push(IngestStep::RemuxWhole);
            v.push(IngestStep::DeleteEpisode(0));
        } else {
            v.push(IngestStep::MeasureSource);
        }
    } else if saver && !transcoding {
        v.push(IngestStep::CreateDir);
        let mut i: usize = 0;
        assert(v@ =~= seq![IngestStep::CreateDir] + measure_chapters(0));
        while i < p.cuts.len()
            invariant
                i <= p.cuts.len(),
                v@ == seq![IngestStep::CreateDir] + measure_chapters(i as nat),
            decreases p.cuts.len() - i,
        {
            v.push(IngestStep::CutChapter(i));
            v.push(IngestStep::DeleteEpisode(i));
            assert(v@ =~= seq![IngestStep::CreateDir] + measure_chapters((i + 1) as nat));
            i = i + 1;
        }
    } else {
        v.push(IngestStep::SplitBook);
    }
    assert(v@ =~= production(*p, saver, slow, remux));
    if has_cover {
        v.push(IngestStep::ExtractCover);
    }
    v.push(IngestStep::StoreBook);
    v.push(IngestStep::StoreEpisodes);
    v.push(IngestStep::DropStaleRows);
    if p.serve_in_place {
        v.push(IngestStep::SweepCopies);
    } else {
        v.push(IngestStep::SweepOtherContainers);
    }
    assert(v@ =~= steps_of(*p, saver, slow, remux, has_cover));
    v
}

/// How the episodes of a book come to be: a file without chapters is re-encoded, remuxed or served
/// as it is; the chapters of a book that is kept whole, or re-encoded, are cut at once; those of
/// one in saver mode are cut one after the other, and each is deleted before the next.
pub proof fn law_steps_suit_the_book(p: IngestPlan, saver: bool, slow: bool, remux: bool, has_cover: bool)
    requires
        p.serve_in_place == (p.chapterless && p.enc == Encoding::Copy),
        p.cuts@.len() <= usize::MAX,
    ensures
        ({
            let s = steps_of(p, saver, slow, remux, has_cover);
            let n = s.len();
            let more: int = if has_cover {
                5
            } else {
                4
            };
            &&& p.chapterless && p.enc != Encoding::Copy ==> n == 1 + more && s[0] == IngestStep::TranscodeWhole
            &&& p.chapterless && p.enc == Encoding::Copy && slow && remux ==> {
                &&& n == 3 + more
                &&& s[0] == IngestStep::CreateDir
                &&& s[1] == IngestStep::RemuxWhole
                &&& s[2] == IngestStep::DeleteEpisode(0)
            }
            &&& p.chapterless && p.enc == Encoding::Copy && !(slow && remux) ==> n == 1 + more && s[0]
                == IngestStep::MeasureSource
            &&& !p.chapterless && !(saver && p.enc == Encoding::Copy) ==> n == 1 + more && s[0]
                == IngestStep::SplitBook
            &&& !p.chapterless && saver && p.enc == Encoding::Copy ==> {
                &&& n == 1 + 2 * p.cuts@.len() + more
                &&& s[0] == IngestStep::CreateDir
                &&& forall|k: int|
                    0 <= k < p.cuts@.len() ==> #[trigger] s[2 * k + 1] == IngestStep::CutChapter(k as usize)
                        && s[2 * k + 2] == IngestStep::DeleteEpisode(k as usize)
            }
            &&& has_cover ==> s[n - 5] == IngestStep::ExtractCover
            &&& s[n - 4] == IngestStep::StoreBook
            &&& s[n - 3] == IngestStep::StoreEpisodes
            &&& s[n - 2] == IngestStep::DropStaleRows
            &&& s[n - 1] == if p.chapterless && p.enc == Encoding::Copy {
                IngestStep::SweepCopies
            } else {
                IngestStep::SweepOtherContainers
            }
        }),
{
    let s = steps_of(p, saver, slow, remux, has_cover);
    let made = production(p, saver, slow, remux);
    if !p.chapterless && saver && p.enc == Encoding::Copy {
        lemma_measuring_len(p.cuts@.len());
        let m = measure_chapters(p.cuts@.len());
        assert forall|k: int| 0 <= k < p.cuts@.len() implies #[trigger] s[2 * k + 1] == IngestStep::CutChapter(
            k as usize,
        ) && s[2 * k + 2] == IngestStep::DeleteEpisode(k as usize) by {
            lemma_measuring(p.cuts@.len(), k);
            assert(made[2 * k + 1] == m[2 * k]);
            assert(made[2 * k + 2] == m[2 * k + 1]);
            assert(s[2 * k + 1] == made[2 * k + 1] && s[2 * k + 2] == made[2 * k + 2]);
        }
    }
}

proof fn lemma_measuring_len(n: nat)
    ensures
        measure_chapters(n).len() == 2 * n,
    decreases n,
{
    if n > 0 {
        lemma_measuring_len((n - 1) as nat);
    }
}

/// Whether a step deletes files of an earlier ingest.
pub open spec fn is_sweep(step: IngestStep) -> bool {
    step == IngestStep::SweepCopies || step == IngestStep::SweepOtherContainers
}

proof fn lemma_no_sweep_while_measuring(n: nat, i: int)
    requires
        0 <= i < measure_chapters(n).len(),
    ensures
        !is_sweep(measure_chapters(n)[i]),
        measure_chapters(n)[i] != IngestStep::StoreEpisodes,
        measure_chapters(n)[i] != IngestStep::DropStaleRows,
    decreases n,
{
    if n > 0 {
        let front = measure_chapters((n - 1) as nat);
        if i < front.len() {
            lemma_no_sweep_while_measuring((n - 1) as nat, i);
            assert(measure_chapters(n)[i] == front[i]);
        }
    }
}

/// Files of an earlier ingest are deleted last, when the new episodes, and no others, are on
/// record: what a client is told of can be played at any time.
pub proof fn law_sweep_comes_last(
    p: IngestPlan,
    saver: bool,
    slow: bool,
    remux: bool,
    has_cover: bool,
    i: int,
)
    requires
        0 <= i < steps_of(p, saver, slow, remux, has_cover).len(),
    ensures
        ({
            let s = steps_of(p, saver, slow, remux, has_cover);
            &&& is_sweep(s[i]) <==> i == s.len() - 1
            &&& s[i] == IngestStep::DropStaleRows <==> i == s.len() - 2
            &&& s[i] == IngestStep::StoreEpisodes <==> i == s.len() - 3
        }),
{
    let s = steps_of(p, saver, slow, remux, has_cover);
    let made = production(p, saver, slow, remux);
    if i < made.len() {
        assert(s[i] == made[i]);
        if !p.chapterless || p.enc == Encoding::Copy {
            if !p.serve_in_place && saver && p.enc == Encoding::Copy {
                if i > 0 {
                    assert(made[i] == measure_chapters(p.cuts@.len())[i - 1]);
                    lemma_no_sweep_while_measuring(p.cuts@.len(), i - 1);
                }
            }
        }
    }
}

proof fn lemma_measuring(n: nat, k: int)
    requires
        0 <= k < n <= usize::MAX,
    ensures
        measure_chapters(n).len() == 2 * n,
        measure_chapters(n)[2 * k] == IngestStep::CutChapter(k as usize),
        measure_chapters(n)[2 * k + 1] == IngestStep::DeleteEpisode(k as usize),
    decreases n,
{
    reveal_with_fuel(measure_chapters, 2);
    if n > 1 {
        let m = (n - 1) as nat;
        lemma_measuring(m, if k < m { k } else { 0 });
    }
}

/// In saver mode each chapter is deleted before the next one is cut: no more than one lies on disk
/// at any time.
pub proof fn law_saver_holds_one_chapter(p: IngestPlan, slow: bool, remux: bool, has_cover: bool, k: int)
    requires
        p.enc == Encoding::Copy,
        !p.serve_in_place,
        0 <= k < p.cuts@.len(),
    ensures
        ({
            let s = steps_of(p, true, slow, remux, has_cover);
            &&& s.len() >= 2 * p.cuts@.len() + 1
            &&& s[2 * k + 1] == IngestStep::CutChapter(k as usize)
            &&& s[2 * k + 2] == IngestStep::DeleteEpisode(k as usize)
        }),
{
    assert(p.cuts@.len() == p.cuts.len());
    lemma_measuring(p.cuts@.len(), k);
    let made = production(p, true, slow, remux);
    assert(made[2 * k + 1] == measure_chapters(p.cuts@.len())[2 * k]);
    assert(made[2 * k + 2] == measure_chapters(p.cuts@.len())[2 * k + 1]);
}

/// A re-encoded book keeps its episodes, in saver mode too: a re-encode does not come out the same
/// twice, so it could not be made again.
pub proof fn law_transcoded_episodes_are_kept(
    p: IngestPlan,
    saver: bool,
    slow: bool,
    remux: bool,
    has_cover: bool,
    i: int,
)
    requires
        p.enc != Encoding::Copy,
        p.serve_in_place ==> p.enc == Encoding::Copy,
        0 <= i < steps_of(p, saver, slow, remux, has_cover).len(),
    ensures
        steps_of(p, saver, slow, remux, has_cover)[i] is DeleteEpisode == false,
{
}

/// Audio that plays everywhere is never re-encoded, whatever is switched on; nothing is while
/// re-encoding is off. A book that is re-encoded is never served from its source.
pub proof fn law_safe_audio_is_never_reencoded(
    p: IngestPlan,
    codec: Option<Seq<char>>,
    duration: i128,
    chapters: Seq<Chapter>,
    mode: TranscodeMode,
    name: Seq<char>,
)
    requires
        is_ingest_plan(p, codec, duration, chapters, mode, name),
    ensures
        plays_everywhere(codec) || mode == TranscodeMode::Off <==> p.enc == Encoding::Copy,
        p.enc != Encoding::Copy ==> !p.serve_in_place,
{
}

// ---- What is put on record ------------------------------------------------

/// The cover of a book: the one that was extracted; the one on record if extracting it again
/// failed and it still exists; none if the file has none.
pub open spec fn cover_kept(
    has_cover: bool,
    extracted: Option<Seq<char>>,
    previous: Option<Seq<char>>,
    previous_exists: bool,
) -> Option<Seq<char>> {
    if !has_cover {
        None
    } else if extracted is Some {
        extracted
    } else if previous_exists {
        previous
    } else {
        None
    }
}

/// The cover of a book.
pub fn kept_cover(
    has_cover: bool,
    extracted: Option<String>,
    previous: Option<String>,
    previous_exists: bool,
) -> (r: Option<String>)
    ensures
        opt_text(r) == cover_kept(has_cover, opt_text(extracted), opt_text(previous), previous_exists),
        !has_cover ==> r is None,
        has_cover && extracted is Some ==> opt_text(r) == opt_text(extracted),
        has_cover && extracted is None && previous_exists ==> opt_text(r) == opt_text(previous),
        has_cover && extracted is None && !previous_exists ==> r is None,
{
    if !has_cover {
        None
    } else if extracted.is_some() {
        extracted
    } else if previous_exists {
        previous
    } else {
        None
    }
}

/// What happened to a book's audio.
pub open spec fn treatment(enc: Encoding, mode: TranscodeMode) -> TranscodeMode {
    if enc != Encoding::Copy {
        mode
    } else {
        TranscodeMode::Off
    }
}

/// Whether `b` is the record of a book that was made of the file `input`.
pub open spec fn is_book_row(
    b: BookRow,
    id: Seq<char>,
    s: Settings,
    input: Seq<char>,
    mtime: i64,
    enc: Encoding,
    mode: TranscodeMode,
) -> bool {
    &&& b.id@ == id
    &&& b.slug@ == id
    &&& says_the_same(b, s)
    &&& b.source_path@ == input
    &&& b.source_mtime == mtime
    &&& b.status@ == READY@
    &&& b.transcode == Some(treatment(enc, mode))
}

/// The record of a book that was made of a file.
pub fn book_row(
    id: &str,
    feed_id: String,
    s: &Settings,
    cover_path: Option<String>,
    input: &str,
    mtime: i64,
    enc: Encoding,
    mode: TranscodeMode,
) -> (r: BookRow)
    ensures
        is_book_row(r, id@, *s, input@, mtime, enc, mode),
        r.id@ == id@,
        r.slug@ == id@,
        r.title@ == s.title@,
        opt_text(r.author) == opt_text(s.author),
        opt_text(r.default_cover_url) == opt_text(s.cover_url),
        r.storage_mode == Some(s.storage),
        r.force_embedded == s.force_embedded,
        r.source_path@ == input@,
        r.source_mtime == mtime,
        r.status@ == "ready"@,
        enc == Encoding::Copy ==> r.transcode == Some(TranscodeMode::Off),
        enc != Encoding::Copy ==> r.transcode == Some(mode),
        r.feed_id@ == feed_id@,
        opt_text(r.cover_path) == opt_text(cover_path),
{
    BookRow {
        id: id.to_owned(),
        slug: id.to_owned(),
        feed_id,
        title: s.title.clone(),
        author: clone_opt(&s.author),
        cover_path,
        source_path: input.to_owned(),
        source_mtime: mtime,
        status: READY.to_owned(),
        storage_mode: Some(s.storage),
        default_cover_url: clone_opt(&s.cover_url),
        force_embedded: s.force_embedded,
        transcode: Some(
            if enc != Encoding::Copy {
                mode
            } else {
                TranscodeMode::Off
            },
        ),
    }
}

/// Whether `e` is the record of the produced episode `ep`, one of `n`.
pub open spec fn is_episode_row(
    e: EpisodeRow,
    ep: SplitEpisode,
    cut: ChapterCut,
    title: Seq<char>,
    book_id: Seq<char>,
    mtime: int,
    source_path: Seq<char>,
    slow: bool,
    n: int,
) -> bool {
    &&& e.guid@ == blake3_hex(encode_utf8(episode_material(book_id, ep.idx as int, mtime)))
    &&& e.book_id@ == book_id
    &&& e.idx == ep.idx
    &&& e.title@ == title
    &&& e.file_path@ == ep.path@
    &&& e.source_path@ == source_path
    &&& e.needs_faststart == slow
    &&& e.byte_length == ep.byte_length
    &&& e.duration == ep.duration
    &&& e.start == cut.start
    &&& e.pubdate_epoch == pubdate(mtime, ep.idx as int, n)
}

/// Whether the produced episodes are those of a plan, with numbers that can be recorded.
pub open spec fn are_produced(produced: Seq<SplitEpisode>, p: IngestPlan, mtime: int) -> bool {
    &&& produced.len() == p.cuts@.len()
    &&& p.titles@.len() == p.cuts@.len()
    &&& pubdates_fit(mtime, p.cuts@.len() as int)
    &&& p.cuts@.len() <= i64::MAX
    &&& forall|i: int|
        0 <= i < produced.len() ==> (#[trigger] produced[i]).idx < p.cuts@.len() && produced[i].byte_length
            <= i64::MAX
}

/// Whether `e` is the record of the produced episode at `i`. One that is served as it is names
/// its source; a chapter does not.
pub open spec fn is_row_at(
    e: EpisodeRow,
    i: int,
    produced: Seq<SplitEpisode>,
    p: IngestPlan,
    id: Seq<char>,
    mtime: int,
    input: Seq<char>,
    slow: bool,
) -> bool {
    let source = if p.serve_in_place {
        input
    } else {
        Seq::empty()
    };
    is_episode_row(
        e,
        produced[i],
        p.cuts@[i],
        p.titles@[i]@,
        id,
        mtime,
        source,
        slow && p.serve_in_place,
        p.cuts@.len() as int,
    )
}

/// Whether `rows` are the records of the produced episodes.
pub open spec fn are_episode_rows(
    rows: Seq<EpisodeRow>,
    produced: Seq<SplitEpisode>,
    p: IngestPlan,
    id: Seq<char>,
    mtime: int,
    input: Seq<char>,
    slow: bool,
) -> bool {
    &&& rows.len() == produced.len()
    &&& forall|i: int|
        0 <= i < rows.len() ==> is_row_at(#[trigger] rows[i], i, produced, p, id, mtime, input, slow)
}

/// The records of the episodes that were produced.
pub fn episode_rows(
    id: &str,
    mtime: i64,
    input: &str,
    p: &IngestPlan,
    produced: &Vec<SplitEpisode>,
    slow: bool,
) -> (r: Vec<EpisodeRow>)
    requires
        are_produced(produced@, *p, mtime as int),
    ensures
        are_episode_rows(r@, produced@, *p, id@, mtime as int, input@, slow),
        are_records(r@),
        r@.len() == produced@.len(),
        forall|i: int|
            0 <= i < produced@.len() ==> {
                &&& (#[trigger] r@[i]).guid@ == blake3_hex(
                    encode_utf8(episode_material(id@, produced@[i].idx as int, mtime as int)),
                )
                &&& r@[i].book_id@ == id@
                &&& r@[i].idx == produced@[i].idx
                &&& r@[i].title@ == p.titles@[i]@
                &&& r@[i].file_path@ == produced@[i].path@
                &&& r@[i].byte_length == produced@[i].byte_length
                &&& r@[i].duration == produced@[i].duration
                &&& r@[i].start == p.cuts@[i].start
                &&& r@[i].pubdate_epoch == mtime - (p.cuts@.len() - 1 - produced@[i].idx) * 60
                &&& p.serve_in_place ==> r@[i].source_path@ == input@ && r@[i].needs_faststart == slow
                &&& !p.serve_in_place ==> r@[i].source_path@.len() == 0 && !r@[i].needs_faststart
            },
{
    let n: usize = p.cuts.len();
    let mut r: Vec<EpisodeRow> = Vec::new();
    let mut i: usize = 0;
    while i < produced.len()
        invariant
            i <= produced.len(),
            n == p.cuts@.len(),
            are_produced(produced@, *p, mtime as int),
            r@.len() == i,
            are_records(r@),
            forall|j: int|
                0 <= j < i ==> is_row_at(#[trigger] r@[j], j, produced@, *p, id@, mtime as int, input@, slow),
        decreases produced.len() - i,
    {
        let ep = &produced[i];
        assert(produced@[i as int].idx < n);
        r.push(
            EpisodeRow {
                guid: episode_guid(id, ep.idx, mtime),
                book_id: id.to_owned(),
                idx: ep.idx as i64,
                title: p.titles[i].clone(),
                file_path: ep.path.clone(),
                source_path: if p.serve_in_place {
                    input.to_owned()
                } else {
                    String::new()
                },
                needs_faststart: slow && p.serve_in_place,
                byte_length: ep.byte_length as i64,
                duration: ep.duration,
                start: p.cuts[i].start,
                pubdate_epoch: pubdate_epoch(mtime, ep.idx, n),
            },
        );
        i = i + 1;
    }
    assert forall|i: int| 0 <= i < produced@.len() implies is_row_at(
        #[trigger] r@[i],
        i,
        produced@,
        *p,
        id@,
        mtime as int,
        input@,
        slow,
    ) by {}
    r
}

/// The record of an episode keeps what was produced: its place, file, size and length; the title
/// and start of its chapter; its own date; and, only if it is served as it is, its source.
pub proof fn law_records_keep_what_was_produced(
    rows: Seq<EpisodeRow>,
    produced: Seq<SplitEpisode>,
    p: IngestPlan,
    id: Seq<char>,
    mtime: int,
    input: Seq<char>,
    slow: bool,
    i: int,
)
    requires
        are_episode_rows(rows, produced, p, id, mtime, input, slow),
        0 <= i < produced.len(),
    ensures
        rows.len() == produced.len(),
        rows[i].guid@ == blake3_hex(encode_utf8(episode_material(id, produced[i].idx as int, mtime))),
        rows[i].book_id@ == id,
        rows[i].idx == produced[i].idx,
        rows[i].title@ == p.titles@[i]@,
        rows[i].file_path@ == produced[i].path@,
        rows[i].byte_length == produced[i].byte_length,
        rows[i].duration == produced[i].duration,
        rows[i].start == p.cuts@[i].start,
        rows[i].pubdate_epoch == mtime - (p.cuts@.len() - 1 - produced[i].idx) * 60,
        p.serve_in_place ==> rows[i].source_path@ == input && rows[i].needs_faststart == slow,
        !p.serve_in_place ==> rows[i].source_path@.len() == 0 && !rows[i].needs_faststart,
{
    assert(is_row_at(rows[i], i, produced, p, id, mtime, input, slow));
}

/// A scan of what was just ingested does nothing: if the source is as it was, what is on record of
/// it is current. That is so unless the audio is not what the extension says or, in saver mode, a
/// later chapter starts at 0.
pub proof fn law_rescan_does_nothing(
    b: BookRow,
    rows: Seq<EpisodeRow>,
    present: Seq<bool>,
    produced: Seq<SplitEpisode>,
    p: IngestPlan,
    s: Settings,
    codec: Option<Seq<char>>,
    duration: i128,
    chapters: Seq<Chapter>,
    mode: TranscodeMode,
    name: Seq<char>,
    id: Seq<char>,
    input: Seq<char>,
    mtime: i64,
    slow: bool,
)
    requires
        is_ingest_plan(p, codec, duration, chapters, mode, name),
        is_book_row(b, id, s, input, mtime, p.enc, mode),
        are_produced(produced, p, mtime as int),
        are_episode_rows(rows, produced, p, id, mtime as int, input, slow),
        !s.force_reingest,
        input.len() > 0,
        is_tier2(input) && mode != TranscodeMode::Off ==> p.enc != Encoding::Copy,
        is_mp3(input) ==> p.enc == Encoding::Copy,
        p.serve_in_place ==> (produced[0].path@ != input) == (slow && s.remux_non_faststart),
        present.len() == rows.len(),
        forall|i: int|
            0 <= i < rows.len() ==> {
                ||| #[trigger] present[i]
                ||| s.storage == StorageMode::Saver && !p.chapterless && p.enc == Encoding::Copy
                ||| p.serve_in_place && slow && s.remux_non_faststart
            },
        s.storage == StorageMode::Saver ==> forall|i: int|
            0 <= i < rows.len() ==> (#[trigger] produced[i]).idx == 0 || p.cuts@[i].start > 0,
    ensures
        is_current(b, rows, present, s, mtime, input, mode),
{
    assert(rows.len() > 0);
    assert(treated_as_set(b, input, mode)) by {
        reveal_strlit("mp3");
        reveal_strlit("ogg");
        reveal_strlit("oga");
        reveal_strlit("opus");
        reveal_strlit("flac");
        assert("mp3"@[0] == 'm');
        assert("ogg"@[0] == 'o' && "oga"@[0] == 'o' && "opus"@[0] == 'o' && "flac"@[0] == 'f');
    }
    assert forall|i: int| 0 <= i < rows.len() implies episode_is_current(#[trigger] rows[i], present[i], s) by {
        assert(is_row_at(rows[i], i, produced, p, id, mtime as int, input, slow));
        assert(s.storage == StorageMode::Saver ==> produced[i].idx == 0 || p.cuts@[i].start > 0);
        if p.serve_in_place {
            assert(p.cuts@.len() == 1);
            assert(i == 0);
        }
    }
}

// ---- Sweeping -------------------------------------------------------------

/// The stem of an episode file, without the `.part` of one that is still being written.
pub open spec fn bare_stem(stem: Seq<char>) -> Seq<char> {
    if ".part"@.is_suffix_of(stem) {
        stem.take(stem.len() - ".part"@.len())
    } else {
        stem
    }
}

/// Whether a path is that of a produced episode, or of one that an interrupted run left behind.
pub open spec fn is_episode_path(path: Seq<char>) -> bool {
    file_stem_of(path) is Some && is_numbered(bare_stem(file_stem_of(path)->0))
}

/// Whether a path is that of a produced episode, finished or not.
pub fn is_episode_file(path: &str) -> (r: bool)
    ensures
        r == is_episode_path(path@),
{
    match path_stem(path) {
        Some(s) => {
            let v = chars_of(s.as_str());
            let part = chars_of(".part");
            if ends_with(&v, &part) {
                let bare = string_from(&v, 0, v.len() - part.len());
                assert(bare@ =~= v@.take(v@.len() - part@.len()));
                is_episode_stem(bare.as_str())
            } else {
                is_episode_stem(s.as_str())
            }
        },
        None => false,
    }
}


/// Whether a file is swept when a book's episodes are in the container `keep_ext`: an episode file
/// with another extension.
pub fn is_in_other_container(path: &str, keep_ext: &str) -> (r: bool)
    ensures
        r == (is_episode_path(path@) && extension(path@) is Some && lower(extension(path@)->0) != lower(
            keep_ext@,
        )),
{
    match path_extension(path) {
        Some(e) => {
            let a = to_lower(&e);
            let k = chars_of(keep_ext);
            let b = to_lower(&k);
            !same_chars(&a, &b) && is_episode_file(path)
        },
        None => false,
    }
}

/// Covers and thumbnails are never swept.
pub proof fn law_covers_are_never_swept(path: Seq<char>)
    requires
        file_stem_of(path) == Some("cover"@) || file_stem_of(path) == Some("cover_thumb"@) || file_stem_of(
            path,
        ) == Some("cover.part"@),
    ensures
        !is_episode_path(path),
{
    reveal_strlit("cover");
    reveal_strlit("cover_thumb");
    reveal_strlit("cover.part");
    reveal_strlit(".part");
    let s = file_stem_of(path)->0;
    assert(s.len() >= 5);
    if ".part"@.is_suffix_of(s) {
        assert(s[0] == 'c');
        let b = bare_stem(s);
        if b.len() == 3 {
            assert(s.len() == 8);
        }
    }
}

/// The files that an ingest makes are known as episodes when they are swept, finished or not, for
/// each of the first 999 chapters. The cover and the thumbnail are not.
pub proof fn law_sweeps_know_episode_files(dir: Seq<char>, idx: int, ext: Seq<char>)
    requires
        0 <= idx < 999,
        ext.len() > 0,
        has_no_slash(ext),
        !ext.contains('.'),
    ensures
        is_episode_path(joined(dir, episode_name(idx, ext))),
        is_episode_path(part_of(joined(dir, episode_name(idx, ext)))),
        !is_episode_path(joined(dir, cover_name(ext))),
        !is_episode_path(joined(dir, "cover_thumb.jpg"@)),
        extension(joined(dir, episode_name(idx, ext))) == Some(ext),
{
    reveal_strlit(".part");
    reveal_strlit("cover.");
    reveal_strlit("cover");
    reveal_strlit("cover_thumb.jpg");
    reveal_strlit("cover_thumb");
    reveal_strlit("jpg");
    let out = joined(dir, episode_name(idx, ext));
    let stem = file_stem_of(out)->0;
    law_episode_file_tells_its_number(dir, idx, ext);
    assert(!".part"@.is_suffix_of(stem));
    let n = (idx + 1) as nat;
    let own = zero_pad(dec(n), 3);
    lemma_padded_digits(n, 3);
    assert forall|j: int| 0 <= j < own.len() implies #[trigger] own[j] != '/' by {
        assert(is_digit(own[j]));
    }
    law_part_lies_beside(dir, own, ext);
    assert(stem == own);
    let part = own + ".part"@;
    assert(".part"@ =~= part.subrange(part.len() - 5, part.len() as int));
    assert(part.take(part.len() - 5) =~= own);
    assert("cover"@ + seq!['.'] + ext =~= cover_name(ext));
    assert(has_no_slash("cover"@));
    law_part_lies_beside(dir, "cover"@, ext);
    assert(file_stem_of(joined(dir, cover_name(ext))) == Some("cover"@));
    assert(!".part"@.is_suffix_of("cover"@)) by {
        if ".part"@.is_suffix_of("cover"@) {
            assert("cover"@.subrange(0, 5)[0] == '.');
        }
    }
    assert("cover_thumb.jpg"@ =~= "cover_thumb"@ + seq!['.'] + "jpg"@);
    assert(has_no_slash("cover_thumb"@) && has_no_slash("jpg"@));
    assert(!"jpg"@.contains('.'));
    law_part_lies_beside(dir, "cover_thumb"@, "jpg"@);
    let thumb = "cover_thumb"@;
    assert(!".part"@.is_suffix_of(thumb)) by {
        if ".part"@.is_suffix_of(thumb) {
            assert(thumb.subrange(6, 11)[0] == '.');
        }
    }
}

} // verus!
