//! Which file an episode is served from, and how it is made again if it is gone.
//!
//! - A whole file is served from the library if its size is still the one on
//!   record: a chapter that wrongly names a source has another size, and is
//!   refused.
//! - A whole file that was remuxed is served from a copy in the data directory,
//!   which a remux makes again.
//! - A chapter is served from the data directory, where a cut makes it again if
//!   the book is kept in saver mode and was not re-encoded: a re-encode does not
//!   come out the same twice.

use vstd::prelude::*;
use crate::config::{StorageMode, TranscodeMode};
use crate::http::{canonical_under, is_contained, valid_feed_id, AppError};
use crate::index::capability::is_feed_id;
use crate::index::{BookRow, EpisodeRow};
use crate::paths::{ext_lower, has_no_slash, is_under, join_path, joined, law_under_is_transitive, lower_extension};
use crate::prober::length;
use crate::splitter::{episode_file_name, episode_name, law_episode_file_tells_its_number, law_episode_files_stay_in_their_directory, law_every_chapter_has_its_own_file, ChapterCut};
use crate::text::{chars_of, lower, lower_char, opt_text, str_eq};

verus! {

/// Whether a book was re-encoded at ingest.
pub open spec fn is_transcoded(book: BookRow) -> bool {
    book.transcode is Some && book.transcode->0 != TranscodeMode::Off
}

/// Whether a book is kept in saver mode: by its own setting, else by the server's.
pub open spec fn is_saver(book: BookRow, server: StorageMode) -> bool {
    match book.storage_mode {
        Some(m) => m == StorageMode::Saver,
        None => server == StorageMode::Saver,
    }
}

/// Whether the chapters of a book can be made again when they are asked for. `source_is_file`
/// says whether its source is a single file.
pub open spec fn is_regenerable(book: BookRow, server: StorageMode, source_is_file: bool) -> bool {
    is_saver(book, server) && !is_transcoded(book) && source_is_file
}

/// Whether a book was re-encoded at ingest. Such a book is never made again on demand, and never
/// leaves the cache.
pub fn book_is_transcoded(book: &BookRow) -> (r: bool)
    ensures
        r == is_transcoded(*book),
{
    match book.transcode {
        Some(m) => m.is_on(),
        None => false,
    }
}

/// Whether a book is kept in saver mode.
pub fn book_is_saver(book: &BookRow, server: StorageMode) -> (r: bool)
    ensures
        r == is_saver(*book, server),
{
    match book.storage_mode {
        Some(m) => m == StorageMode::Saver,
        None => server == StorageMode::Saver,
    }
}

/// Whether the chapters of a book can be made again when they are asked for.
pub fn book_is_regenerable(book: &BookRow, server: StorageMode, source_is_file: bool) -> (r: bool)
    ensures
        r == is_regenerable(*book, server, source_is_file),
{
    book_is_saver(book, server) && !book_is_transcoded(book) && source_is_file
}

/// A book that was re-encoded is never made again, whatever its mode is.
pub proof fn law_transcoded_is_never_regenerable(book: BookRow, server: StorageMode, source_is_file: bool)
    requires
        is_transcoded(book),
    ensures
        !is_regenerable(book, server, source_is_file),
{
}

/// What is found on disk for an episode.
#[derive(Debug)]
pub struct AudioFacts {
    /// What the episode's source really is; `None` if it does not exist.
    pub source: Option<String>,
    /// Size of the episode's source.
    pub source_len: Option<i64>,
    /// Whether the book's source is a single file.
    pub book_source_is_file: bool,
    /// What the book's source really is; `None` if it does not exist.
    pub book_source: Option<String>,
    /// What the book's directory under the data directory really is; `None` if it does not exist.
    pub out_dir: Option<String>,
}

/// How a file is made again.
#[derive(Debug, Clone, Copy, PartialEq, Eq, Structural)]
pub enum RegenOp {
    /// By cutting one chapter.
    Chapter(ChapterCut),
    /// By remuxing the whole file.
    Faststart { idx: usize, duration: i128 },
}

/// What it takes to make a file again.
#[derive(Debug)]
pub struct Regen {
    /// What it is made from: a file under the library.
    pub source: String,
    /// Directory that it goes to.
    pub out_dir: String,
    /// Extension.
    pub out_ext: String,
    /// How.
    pub op: RegenOp,
}

/// The file that an episode is served from.
#[derive(Debug)]
pub struct AudioTarget {
    pub path: String,
    /// How it is made again if it does not exist; `None` if it cannot be.
    pub regen: Option<Regen>,
}

/// The position that a request asks for.
pub open spec fn asked_position(feed_id: Seq<char>, number: u32) -> Option<int> {
    if is_feed_id(feed_id) && number > 0 {
        Some(number - 1)
    } else {
        None
    }
}

/// The position that a request for episode `number` of the feed `feed_id` asks for; `None` if the
/// request is not to be looked up at all.
pub fn audio_position(feed_id: &str, number: u32) -> (r: Option<u32>)
    ensures
        match r {
            Some(i) => asked_position(feed_id@, number) == Some(i as int),
            None => asked_position(feed_id@, number) is None,
        },
{
    if !valid_feed_id(feed_id) || number == 0 {
        None
    } else {
        Some(number - 1)
    }
}

/// The first place of an episode with the position `idx`.
pub open spec fn episode_at(eps: Seq<EpisodeRow>, idx: int, from: int) -> Option<int>
    decreases eps.len() - from,
{
    if from < 0 || from >= eps.len() {
        None
    } else if eps[from].idx == idx {
        Some(from)
    } else {
        episode_at(eps, idx, from + 1)
    }
}

/// The place of the episode with the position `idx`.
pub fn find_episode(eps: &Vec<EpisodeRow>, idx: u32) -> (r: Option<usize>)
    ensures
        match r {
            Some(i) => episode_at(eps@, idx as int, 0) == Some(i as int) && i < eps.len(),
            None => episode_at(eps@, idx as int, 0) is None,
        },
{
    let mut i: usize = 0;
    while i < eps.len()
        invariant
            i <= eps.len(),
            episode_at(eps@, idx as int, 0) == episode_at(eps@, idx as int, i as int),
        decreases eps.len() - i,
    {
        if eps[i].idx == idx as i64 {
            return Some(i);
        }
        i = i + 1;
    }
    None
}

/// Whether an episode is served from its source.
pub open spec fn in_place(ep: EpisodeRow) -> bool {
    ep.source_path@.len() > 0 && ep.file_path@ == ep.source_path@
}

/// Whether an episode is served from a remuxed copy of its source.
pub open spec fn is_remuxed(ep: EpisodeRow) -> bool {
    ep.source_path@.len() > 0 && ep.file_path@ != ep.source_path@ && ep.needs_faststart
}

pub open spec fn is_alphanumeric(c: char) -> bool {
    ('a' <= c && c <= 'z') || ('A' <= c && c <= 'Z') || ('0' <= c && c <= '9')
}

/// The extension of an episode's file: letters and digits only, so that it cannot lead elsewhere.
pub open spec fn audio_extension(path: Seq<char>) -> Option<Seq<char>> {
    match lower_extension(path) {
        Some(e) => if e.len() > 0 && forall|i: int| 0 <= i < e.len() ==> is_alphanumeric(#[trigger] e[i]) {
            Some(e)
        } else {
            None
        },
        None => None,
    }
}

fn audio_ext(path: &str) -> (r: Option<String>)
    ensures
        opt_text(r) == audio_extension(path@),
{
    match ext_lower(path) {
        Some(e) => {
            let v = chars_of(e.as_str());
            if v.len() == 0 {
                return None;
            }
            let mut i: usize = 0;
            while i < v.len()
                invariant
                    i <= v.len(),
                    v@ == e@,
                    lower_extension(path@) == Some(e@),
                    forall|j: int| 0 <= j < i ==> is_alphanumeric(#[trigger] v@[j]),
                decreases v.len() - i,
            {
                let c = v[i];
                if !(('a' <= c && c <= 'z') || ('A' <= c && c <= 'Z') || ('0' <= c && c <= '9')) {
                    assert(!is_alphanumeric(v@[i as int]));
                    return None;
                }
                i = i + 1;
            }
            Some(e)
        },
        None => None,
    }
}

/// `n`, held within an `i128`.
pub open spec fn clamped(n: int) -> int {
    if n > i128::MAX {
        i128::MAX as int
    } else if n < i128::MIN {
        i128::MIN as int
    } else {
        n
    }
}

/// The cut that makes the chapter of a record again.
pub open spec fn cut_of(ep: EpisodeRow, idx: int) -> ChapterCut {
    ChapterCut { idx: idx as usize, start: ep.start, end: clamped(ep.start + ep.duration) as i128 }
}

/// Whether `t` is the file at `path` that can be made again from `source` by `op`.
pub open spec fn is_target(
    t: AudioTarget,
    out_dir: Seq<char>,
    ext: Seq<char>,
    idx: int,
    regen: Option<(Seq<char>, RegenOp)>,
) -> bool {
    &&& t.path@ == joined(out_dir, episode_name(idx, ext))
    &&& match regen {
        Some((source, op)) => {
            &&& t.regen matches Some(g)
            &&& g.source@ == source
            &&& g.out_dir@ == out_dir
            &&& g.out_ext@ == ext
            &&& g.op == op
        },
        None => t.regen is None,
    }
}

/// The answer to a request for the audio of `ep` at the position `idx`.
pub open spec fn is_audio_answer(
    r: Result<AudioTarget, AppError>,
    book: BookRow,
    ep: EpisodeRow,
    idx: int,
    server: StorageMode,
    facts: AudioFacts,
    data_dir: Seq<char>,
    library_dir: Seq<char>,
) -> bool {
    let refused = r == Err::<AudioTarget, AppError>(AppError::NotFound);
    let source = opt_text(facts.source);
    let book_source = opt_text(facts.book_source);
    let out_dir = opt_text(facts.out_dir);
    let ext = audio_extension(ep.file_path@);
    if in_place(ep) {
        if is_contained(source, library_dir) && facts.source_len == Some(ep.byte_length) {
            r matches Ok(t) && Some(t.path@) == source && t.regen is None
        } else {
            refused
        }
    } else if ext is None || !is_contained(out_dir, data_dir) {
        refused
    } else if is_remuxed(ep) {
        if is_contained(source, library_dir) {
            r matches Ok(t) && is_target(
                t,
                out_dir->0,
                ext->0,
                idx,
                Some((source->0, RegenOp::Faststart { idx: idx as usize, duration: ep.duration })),
            )
        } else {
            refused
        }
    } else if is_regenerable(book, server, facts.book_source_is_file) {
        if is_contained(book_source, library_dir) {
            r matches Ok(t) && is_target(
                t,
                out_dir->0,
                ext->0,
                idx,
                Some((book_source->0, RegenOp::Chapter(cut_of(ep, idx)))),
            )
        } else {
            refused
        }
    } else {
        r matches Ok(t) && is_target(t, out_dir->0, ext->0, idx, None)
    }
}

/// Finds the file that the episode `ep` of `book` is served from. No path comes from the request:
/// the name is made of the position and a checked extension, and everything that is opened or
/// handed to `ffmpeg` must lie under the data directory or the library.
pub fn resolve_audio_target(
    book: &BookRow,
    ep: &EpisodeRow,
    idx: u32,
    server: StorageMode,
    facts: &AudioFacts,
    data_dir: &str,
    library_dir: &str,
) -> (r: Result<AudioTarget, AppError>)
    requires
        idx < u32::MAX,
    ensures
        is_audio_answer(r, *book, *ep, idx as int, server, *facts, data_dir@, library_dir@),
        r is Err ==> r->Err_0 == AppError::NotFound,
        r matches Ok(t) ==> if ep.source_path@.len() > 0 && ep.file_path@ == ep.source_path@ {
            &&& facts.source is Some && t.path@ == facts.source->0@
            &&& facts.source_len == Some(ep.byte_length)
            &&& t.regen is None
        } else {
            &&& facts.out_dir is Some && lower_extension(ep.file_path@) is Some
            &&& t.path@ == joined(facts.out_dir->0@, episode_name(idx as int, lower_extension(ep.file_path@)->0))
            &&& t.regen is Some ==> t.regen->0.out_dir@ == facts.out_dir->0@ && t.regen->0.out_ext@
                == lower_extension(ep.file_path@)->0
        },
{
    let whole = !ep.source_path.as_str().is_empty();
    if whole && str_eq(ep.file_path.as_str(), ep.source_path.as_str()) {
        let path = match canonical_under(&facts.source, library_dir) {
            Ok(p) => p,
            Err(e) => {
                return Err(e);
            },
        };
        return match facts.source_len {
            Some(n) => if n == ep.byte_length {
                Ok(AudioTarget { path, regen: None })
            } else {
                Err(AppError::NotFound)
            },
            None => Err(AppError::NotFound),
        };
    }
    let out_ext = match audio_ext(ep.file_path.as_str()) {
        Some(e) => e,
        None => {
            return Err(AppError::NotFound);
        },
    };
    let out_dir = match canonical_under(&facts.out_dir, data_dir) {
        Ok(d) => d,
        Err(e) => {
            return Err(e);
        },
    };
    let at: usize = idx as usize;
    let name = episode_file_name(at, out_ext.as_str());
    let path = join_path(out_dir.as_str(), name.as_str());
    if whole && ep.needs_faststart {
        let source = match canonical_under(&facts.source, library_dir) {
            Ok(s) => s,
            Err(e) => {
                return Err(e);
            },
        };
        let op = RegenOp::Faststart { idx: at, duration: ep.duration };
        return Ok(AudioTarget { path, regen: Some(Regen { source, out_dir, out_ext, op }) });
    }
    if book_is_regenerable(book, server, facts.book_source_is_file) {
        let source = match canonical_under(&facts.book_source, library_dir) {
            Ok(s) => s,
            Err(e) => {
                return Err(e);
            },
        };
        let end: i128 = if ep.start > 0 && ep.duration > i128::MAX - ep.start {
            i128::MAX
        } else if ep.start < 0 && ep.duration < i128::MIN - ep.start {
            i128::MIN
        } else {
            ep.start + ep.duration
        };
        let op = RegenOp::Chapter(ChapterCut { idx: at, start: ep.start, end });
        return Ok(AudioTarget { path, regen: Some(Regen { source, out_dir, out_ext, op }) });
    }
    Ok(AudioTarget { path, regen: None })
}

/// A chapter that is made again is cut where it was cut at ingest: the record keeps its start and
/// its length, and the two give back its end.
pub proof fn law_regenerated_cut_is_the_ingest_cut(cut: ChapterCut, ep: EpisodeRow)
    requires
        cut.start < cut.end,
        cut.end - cut.start <= i128::MAX,
        ep.start == cut.start,
        ep.duration == length(cut.start as int, cut.end as int),
    ensures
        cut_of(ep, cut.idx as int) == cut,
{
}

/// An episode that is not served in place is served from the file of the position that was asked
/// for, in the book's directory, however the book is kept; and if that file can be made again, it
/// is made at that position, in that directory, of what the record says.
pub proof fn law_served_file_is_the_one_asked_for(
    r: Result<AudioTarget, AppError>,
    book: BookRow,
    ep: EpisodeRow,
    idx: int,
    server: StorageMode,
    facts: AudioFacts,
    data_dir: Seq<char>,
    library_dir: Seq<char>,
)
    requires
        0 <= idx < u32::MAX,
        is_audio_answer(r, book, ep, idx, server, facts, data_dir, library_dir),
        r is Ok,
    ensures
        ep.source_path@.len() > 0 && ep.file_path@ == ep.source_path@ ==> {
            &&& facts.source is Some && r->Ok_0.path@ == facts.source->0@
            &&& facts.source_len == Some(ep.byte_length)
            &&& r->Ok_0.regen is None
        },
        !(ep.source_path@.len() > 0 && ep.file_path@ == ep.source_path@) ==> {
            &&& facts.out_dir is Some
            &&& lower_extension(ep.file_path@) is Some
            &&& r->Ok_0.path@ == joined(
                facts.out_dir->0@,
                episode_name(idx, lower_extension(ep.file_path@)->0),
            )
        },
        r->Ok_0.regen matches Some(g) ==> {
            &&& facts.out_dir is Some && g.out_dir@ == facts.out_dir->0@
            &&& lower_extension(ep.file_path@) == Some(g.out_ext@)
            &&& match g.op {
                RegenOp::Chapter(c) => {
                    &&& facts.book_source is Some && g.source@ == facts.book_source->0@
                    &&& facts.book_source_is_file
                    &&& !(book.transcode is Some && book.transcode->0 != TranscodeMode::Off)
                    &&& c.idx == idx
                    &&& c.start == ep.start
                    &&& i128::MIN <= ep.start + ep.duration <= i128::MAX ==> c.end == ep.start + ep.duration
                },
                RegenOp::Faststart { idx: at, duration } => {
                    &&& facts.source is Some && g.source@ == facts.source->0@
                    &&& ep.needs_faststart
                    &&& at == idx
                    &&& duration == ep.duration
                },
            }
        },
{
    assert(idx as usize == idx);
}

/// Audio is served whenever it may be. A whole file is if it really lies in the library and has the
/// size on record. Any other episode is if its extension is made of letters and digits, its book's
/// directory really lies in the data directory, and what it would be made of again, if it can be,
/// really lies in the library.
pub proof fn law_audio_is_served_when_it_may_be(
    r: Result<AudioTarget, AppError>,
    book: BookRow,
    ep: EpisodeRow,
    idx: int,
    server: StorageMode,
    facts: AudioFacts,
    data_dir: Seq<char>,
    library_dir: Seq<char>,
)
    requires
        is_audio_answer(r, book, ep, idx, server, facts, data_dir, library_dir),
    ensures
        r is Err ==> r->Err_0 == AppError::NotFound,
        ep.source_path@.len() > 0 && ep.file_path@ == ep.source_path@ ==> (r is Ok <==> {
            &&& facts.source is Some && is_under(facts.source->0@, library_dir)
            &&& facts.source_len == Some(ep.byte_length)
        }),
        !(ep.source_path@.len() > 0 && ep.file_path@ == ep.source_path@) ==> (r is Ok <==> {
            let e = lower_extension(ep.file_path@);
            let saver = book.storage_mode == Some(StorageMode::Saver) || (book.storage_mode is None && server
                == StorageMode::Saver);
            let copied = book.transcode is None || book.transcode == Some(TranscodeMode::Off);
            &&& e is Some && e->0.len() > 0
            &&& forall|i: int|
                0 <= i < e->0.len() ==> ('a' <= #[trigger] e->0[i] && e->0[i] <= 'z') || ('A' <= e->0[i] && e->0[i]
                    <= 'Z') || ('0' <= e->0[i] && e->0[i] <= '9')
            &&& facts.out_dir is Some && is_under(facts.out_dir->0@, data_dir)
            &&& if ep.source_path@.len() > 0 && ep.needs_faststart {
                facts.source is Some && is_under(facts.source->0@, library_dir)
            } else {
                saver && copied && facts.book_source_is_file ==> facts.book_source is Some && is_under(
                    facts.book_source->0@,
                    library_dir,
                )
            }
        }),
{
    let e = lower_extension(ep.file_path@);
    if e is Some {
        assert((forall|i: int| 0 <= i < e->0.len() ==> is_alphanumeric(#[trigger] e->0[i])) <==> (forall|i: int|
            0 <= i < e->0.len() ==> ('a' <= #[trigger] e->0[i] && e->0[i] <= 'z') || ('A' <= e->0[i] && e->0[i]
                <= 'Z') || ('0' <= e->0[i] && e->0[i] <= '9'))) by {
            if forall|i: int| 0 <= i < e->0.len() ==> is_alphanumeric(#[trigger] e->0[i]) {
                assert forall|i: int| 0 <= i < e->0.len() implies ('a' <= #[trigger] e->0[i] && e->0[i] <= 'z') || (
                'A' <= e->0[i] && e->0[i] <= 'Z') || ('0' <= e->0[i] && e->0[i] <= '9') by {
                    assert(is_alphanumeric(e->0[i]));
                }
            }
        }
    }
}

/// A chapter that is missing is made again exactly if its book is kept in saver mode (by its own
/// setting, else by the server's), was not re-encoded, and has a single file as its source.
pub proof fn law_only_saver_books_are_made_again(
    r: Result<AudioTarget, AppError>,
    book: BookRow,
    ep: EpisodeRow,
    idx: int,
    server: StorageMode,
    facts: AudioFacts,
    data_dir: Seq<char>,
    library_dir: Seq<char>,
)
    requires
        is_audio_answer(r, book, ep, idx, server, facts, data_dir, library_dir),
        r is Ok,
        ep.source_path@.len() == 0,
    ensures
        r->Ok_0.regen is Some <==> {
            &&& book.storage_mode == Some(StorageMode::Saver) || (book.storage_mode is None && server
                == StorageMode::Saver)
            &&& book.transcode is None || book.transcode == Some(TranscodeMode::Off)
            &&& facts.book_source_is_file
        },
{
}

proof fn lemma_audio_extension(path: Seq<char>)
    requires
        audio_extension(path) is Some,
    ensures
        ({
            let e = audio_extension(path)->0;
            e.len() > 0 && has_no_slash(e) && !e.contains('.')
        }),
{
    let e = audio_extension(path)->0;
    assert forall|i: int| 0 <= i < e.len() implies #[trigger] e[i] != '/' && e[i] != '.' by {
        assert(is_alphanumeric(e[i]));
    }
}

/// Two positions of a book are never served from the same file of its directory.
pub proof fn law_positions_have_their_own_files(
    r: Result<AudioTarget, AppError>,
    ep: EpisodeRow,
    idx: int,
    other: Result<AudioTarget, AppError>,
    other_ep: EpisodeRow,
    other_idx: int,
    book: BookRow,
    server: StorageMode,
    facts: AudioFacts,
    data_dir: Seq<char>,
    library_dir: Seq<char>,
)
    requires
        0 <= idx,
        0 <= other_idx,
        idx != other_idx,
        is_audio_answer(r, book, ep, idx, server, facts, data_dir, library_dir),
        is_audio_answer(other, book, other_ep, other_idx, server, facts, data_dir, library_dir),
        r is Ok,
        other is Ok,
        !in_place(ep),
        !in_place(other_ep),
    ensures
        r->Ok_0.path@ != other->Ok_0.path@,
{
    lemma_audio_extension(ep.file_path@);
    lemma_audio_extension(other_ep.file_path@);
    law_every_chapter_has_its_own_file(
        opt_text(facts.out_dir)->0,
        idx,
        audio_extension(ep.file_path@)->0,
        other_idx,
        audio_extension(other_ep.file_path@)->0,
    );
}

/// An episode that was put into its book's directory at ingest is served from the path on record.
/// (Extensions are letters and digits, in lower case.)
pub proof fn law_ingested_file_is_served(
    r: Result<AudioTarget, AppError>,
    book: BookRow,
    ep: EpisodeRow,
    idx: int,
    ext: Seq<char>,
    server: StorageMode,
    facts: AudioFacts,
    data_dir: Seq<char>,
    library_dir: Seq<char>,
)
    requires
        0 <= idx,
        is_audio_answer(r, book, ep, idx, server, facts, data_dir, library_dir),
        r is Ok,
        !in_place(ep),
        ext.len() > 0,
        forall|i: int|
            0 <= i < ext.len() ==> is_alphanumeric(#[trigger] ext[i]) && !('A' <= ext[i] && ext[i] <= 'Z'),
        ep.file_path@ == joined(opt_text(facts.out_dir)->0, episode_name(idx, ext)),
    ensures
        r->Ok_0.path@ == ep.file_path@,
{
    let dir = opt_text(facts.out_dir)->0;
    assert forall|i: int| 0 <= i < ext.len() implies #[trigger] ext[i] != '/' && ext[i] != '.' by {
        assert(is_alphanumeric(ext[i]));
    }
    law_episode_file_tells_its_number(dir, idx, ext);
    assert(lower(ext) =~= ext) by {
        assert forall|i: int| 0 <= i < ext.len() implies lower_char(#[trigger] ext[i]) == ext[i] by {
            assert(is_alphanumeric(ext[i]));
        }
    }
}

/// The episode that is found is the first with the position that was asked for: the number of the
/// request, less one.
pub proof fn law_request_numbers_count_from_one(feed_id: Seq<char>, number: u32, eps: Seq<EpisodeRow>)
    requires
        is_feed_id(feed_id),
        number > 0,
    ensures
        asked_position(feed_id, number) == Some(number - 1),
        match episode_at(eps, number - 1, 0) {
            Some(i) => {
                &&& 0 <= i < eps.len()
                &&& eps[i].idx == number - 1
                &&& forall|j: int| 0 <= j < i ==> (#[trigger] eps[j]).idx != number - 1
            },
            None => forall|j: int| 0 <= j < eps.len() ==> (#[trigger] eps[j]).idx != number - 1,
        },
{
    lemma_episode_at(eps, number - 1, 0);
}

proof fn lemma_episode_at(eps: Seq<EpisodeRow>, idx: int, from: int)
    requires
        0 <= from <= eps.len(),
    ensures
        match episode_at(eps, idx, from) {
            Some(i) => {
                &&& from <= i < eps.len()
                &&& eps[i].idx == idx
                &&& forall|j: int| from <= j < i ==> (#[trigger] eps[j]).idx != idx
            },
            None => forall|j: int| from <= j < eps.len() ==> (#[trigger] eps[j]).idx != idx,
        },
    decreases eps.len() - from,
{
    if from < eps.len() && eps[from].idx != idx {
        lemma_episode_at(eps, idx, from + 1);
    }
}

/// Whatever is served lies under the library or the data directory. Whatever is made again comes
/// from under the library and goes to a directory under the data directory.
pub proof fn law_audio_stays_under_its_roots(
    r: Result<AudioTarget, AppError>,
    book: BookRow,
    ep: EpisodeRow,
    idx: int,
    server: StorageMode,
    facts: AudioFacts,
    data_dir: Seq<char>,
    library_dir: Seq<char>,
)
    requires
        0 <= idx,
        is_audio_answer(r, book, ep, idx, server, facts, data_dir, library_dir),
        r is Ok,
    ensures
        is_contained(Some(r->Ok_0.path@), library_dir) || is_contained(Some(r->Ok_0.path@), data_dir),
        r->Ok_0.regen is Some ==> is_contained(Some(r->Ok_0.regen->0.source@), library_dir)
            && is_contained(Some(r->Ok_0.regen->0.out_dir@), data_dir) && is_contained(
            Some(r->Ok_0.path@),
            data_dir,
        ),
{
    if !in_place(ep) {
        let ext = audio_extension(ep.file_path@)->0;
        let out_dir = opt_text(facts.out_dir)->0;
        assert(r->Ok_0.path@ == joined(out_dir, episode_name(idx, ext)));
        assert forall|i: int| 0 <= i < ext.len() implies #[trigger] ext[i] != '/' && ext[i] != '.' by {
            assert(is_alphanumeric(ext[i]));
        }
        law_episode_files_stay_in_their_directory(out_dir, idx, ext);
        law_under_is_transitive(r->Ok_0.path@, out_dir, data_dir);
    }
}

} // verus!
