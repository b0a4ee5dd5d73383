//! Ingesting a folder of MP3 tracks as one book: one episode for each file,
//! neither cut nor copied.

use vstd::prelude::*;
use crate::config::book_overrides::BookOverrides;
use crate::config::TranscodeMode;
use crate::feed::{pubdate, pubdate_epoch, pubdates_fit, track_guid, track_material};
use crate::http::is_contained;
use crate::index::{are_records, BookRow, EpisodeRow, READY};
use crate::outside::blake3_hex;
use crate::paths::{file_name, path_file_name, path_is_under};
use crate::scanner::ingest::ScanError;
use crate::scanner::{audio_kind, dir_name, file_stem, is_m4x, is_mp3, name_or_book, stem_or_book, AudioKind};
use crate::sorting::{before, by_number, by_text, ints, is_stable_order, keys_of, lemma_by_number_is_total, lemma_by_text_is_total, lemma_stable_order, order_by_number, order_by_text, positions, stable_order};
use crate::text::{clone_opt, lower, opt_eq, opt_str, opt_text, str_eq, text_le, to_lower};

verus! {

/// One track of a folder.
#[derive(Debug)]
pub struct Mp3Track {
    /// Its path in the library.
    pub path: String,
    /// The bytes of its file name, which need not be text.
    pub name: Vec<u8>,
    /// Its own modification time.
    pub mtime: i64,
    /// Its size in bytes.
    pub byte_length: u64,
    /// Its duration in ticks.
    pub duration: i128,
    /// Its track number, if it is tagged with one.
    pub track: Option<u32>,
    /// Its title.
    pub title: String,
}

/// Whether a file of a folder is one of its tracks: an MP3 that really lies in the library.
/// `found` is what its path really is, if it could be looked up.
pub fn is_track(path: &str, is_file: bool, found: Option<&str>, library_root: &str) -> (r: bool)
    ensures
        r == (is_file && is_mp3(path@) && is_contained(opt_str(found), library_root@)),
{
    proof {
        reveal_strlit("m4b");
        reveal_strlit("m4a");
        reveal_strlit("mp3");
        assert("m4b"@[1] == '4' && "m4a"@[1] == '4' && "mp3"@[1] == 'p');
        assert(is_mp3(path@) ==> !is_m4x(path@));
    }
    match found {
        Some(p) => is_file && audio_kind(path) == AudioKind::Mp3 && path_is_under(p, library_root),
        None => false,
    }
}

/// The title of a track: its tag, else its file's stem.
pub fn track_title(tag: Option<String>, path: &str) -> (r: String)
    ensures
        r@ == match tag {
            Some(t) => t@,
            None => stem_or_book(path@),
        },
{
    match tag {
        Some(t) => t,
        None => file_stem(path),
    }
}

/// The time of a folder: that of its newest track.
pub open spec fn newest(times: Seq<i64>) -> int
    decreases times.len(),
{
    if times.len() == 0 {
        0
    } else if times.len() == 1 {
        times[0] as int
    } else {
        let m = newest(times.drop_last());
        if times.last() > m {
            times.last() as int
        } else {
            m
        }
    }
}

/// The time of a folder is that of its newest track: none is later, and one has it.
pub proof fn law_folder_is_as_new_as_its_newest_track(times: Seq<i64>)
    requires
        times.len() > 0,
    ensures
        forall|i: int| 0 <= i < times.len() ==> (#[trigger] times[i]) <= newest(times),
        exists|i: int| 0 <= i < times.len() && (#[trigger] times[i]) == newest(times),
    decreases times.len(),
{
    if times.len() == 1 {
        assert(times[0] == newest(times));
    } else {
        let rest = times.drop_last();
        law_folder_is_as_new_as_its_newest_track(rest);
        let i = choose|i: int| 0 <= i < rest.len() && (#[trigger] rest[i]) == newest(rest);
        assert(times[i] == rest[i]);
        let k = if times.last() > newest(rest) {
            times.len() - 1
        } else {
            i
        };
        assert(times[k] == newest(times));
        assert forall|j: int| 0 <= j < times.len() implies (#[trigger] times[j]) <= newest(times) by {
            if j < rest.len() {
                assert(rest[j] == times[j]);
            }
        }
    }
}

/// The time of a folder: it moves when a track is replaced.
pub fn folder_mtime(times: &Vec<i64>) -> (r: i64)
    ensures
        r == newest(times@),
{
    if times.len() == 0 {
        return 0;
    }
    let mut best: i64 = times[0];
    let mut i: usize = 1;
    assert(times@.take(1).len() == 1);
    while i < times.len()
        invariant
            1 <= i <= times.len(),
            best == newest(times@.take(i as int)),
        decreases times.len() - i,
    {
        assert(times@.take(i + 1).drop_last() =~= times@.take(i as int));
        if times[i] > best {
            best = times[i];
        }
        i = i + 1;
    }
    assert(times@.take(i as int) =~= times@);
    best
}

// ---- Whether it is needed -------------------------------------------------

/// The title of a folder book: its own, else the folder's name.
pub open spec fn folder_title(own: BookOverrides, dir: Seq<char>) -> Seq<char> {
    match own.title {
        Some(t) => t@,
        None => name_or_book(dir),
    }
}

/// Whether a folder needs no ingest: nothing changed, and every episode is a file of the library
/// that is there.
pub open spec fn folder_is_current(
    b: BookRow,
    eps: Seq<EpisodeRow>,
    present: Seq<bool>,
    own: BookOverrides,
    dir: Seq<char>,
    mtime: i64,
) -> bool {
    &&& own.force_reingest != Some(true)
    &&& b.source_mtime == mtime
    &&& b.title@ == folder_title(own, dir)
    &&& opt_text(b.author) == opt_text(own.author)
    &&& opt_text(b.default_cover_url) == opt_text(own.default_cover_url)
    &&& eps.len() > 0
    &&& forall|i: int|
        0 <= i < eps.len() ==> (#[trigger] eps[i]).source_path@.len() > 0 && present[i]
}

/// A folder is ingested again as soon as something about it has changed: the time of its newest
/// track, its title, author or cover; if it is asked for; if it has no episodes, or one that was
/// not served from the library; or if a track is gone.
pub proof fn law_folder_changes_are_noticed(
    b: BookRow,
    eps: Seq<EpisodeRow>,
    present: Seq<bool>,
    own: BookOverrides,
    dir: Seq<char>,
    mtime: i64,
)
    ensures
        folder_is_current(b, eps, present, own, dir, mtime) <==> {
            &&& own.force_reingest != Some(true)
            &&& b.source_mtime == mtime
            &&& own.title is Some ==> b.title@ == own.title->0@
            &&& own.title is None ==> b.title@ == match file_name(dir) {
                Some(name) => name,
                None => "book"@,
            }
            &&& opt_text(b.author) == opt_text(own.author)
            &&& opt_text(b.default_cover_url) == opt_text(own.default_cover_url)
            &&& eps.len() > 0
            &&& forall|i: int| 0 <= i < eps.len() ==> (#[trigger] eps[i]).source_path@.len() > 0
            &&& forall|i: int| 0 <= i < eps.len() ==> present[i] || (#[trigger] eps[i]).source_path@.len() == 0
        },
{
}

/// The title of a folder book.
pub fn title_of_folder(own: &BookOverrides, dir: &str) -> (r: String)
    ensures
        r@ == folder_title(*own, dir@),
{
    match &own.title {
        Some(t) => t.clone(),
        None => dir_name(dir),
    }
}

/// Whether a folder needs no ingest; `present` says of each episode whether its source exists.
pub fn folder_is_up_to_date(
    b: &BookRow,
    eps: &Vec<EpisodeRow>,
    present: &Vec<bool>,
    own: &BookOverrides,
    dir: &str,
    mtime: i64,
) -> (r: bool)
    requires
        eps.len() == present.len(),
    ensures
        r == folder_is_current(*b, eps@, present@, *own, dir@, mtime),
{
    let forced = match own.force_reingest {
        Some(f) => f,
        None => false,
    };
    let title = title_of_folder(own, dir);
    if forced || b.source_mtime != mtime || !str_eq(b.title.as_str(), title.as_str()) || !opt_eq(
        &b.author,
        &own.author,
    ) || !opt_eq(&b.default_cover_url, &own.default_cover_url) || eps.len() == 0 {
        return false;
    }
    let mut i: usize = 0;
    while i < eps.len()
        invariant
            i <= eps.len(),
            eps.len() == present.len(),
            forall|j: int| 0 <= j < i ==> (#[trigger] eps@[j]).source_path@.len() > 0 && present@[j],
        decreases eps.len() - i,
    {
        if eps[i].source_path.as_str().is_empty() || !present[i] {
            assert(!(eps@[i as int].source_path@.len() > 0 && present@[i as int]));
            return false;
        }
        i = i + 1;
    }
    true
}

// ---- The order of the tracks ----------------------------------------------

/// Whether the track numbers order the tracks: each has one, and no two have the same.
pub open spec fn numbers_usable(tracks: Seq<Mp3Track>) -> bool {
    &&& forall|i: int| 0 <= i < tracks.len() ==> (#[trigger] tracks[i]).track is Some
    &&& forall|i: int, j: int|
        0 <= i < j < tracks.len() ==> (#[trigger] tracks[i]).track != (#[trigger] tracks[j]).track
}

/// The track numbers.
pub open spec fn track_numbers(tracks: Seq<Mp3Track>) -> Seq<int> {
    tracks.map_values(|t: Mp3Track| t.track->0 as int)
}

/// A file's name in lower case; empty if the path has none.
pub open spec fn lower_name(path: Seq<char>) -> Seq<char> {
    match file_name(path) {
        Some(n) => lower(n),
        None => Seq::empty(),
    }
}

/// The file names in lower case.
pub open spec fn lower_names(tracks: Seq<Mp3Track>) -> Seq<Seq<char>> {
    tracks.map_values(|t: Mp3Track| lower_name(t.path@))
}

/// The order of the tracks: by number if the numbers can be used, else by name whatever the case.
pub open spec fn track_order(tracks: Seq<Mp3Track>) -> Seq<int> {
    if numbers_usable(tracks) {
        stable_order(by_number(track_numbers(tracks)), tracks.len())
    } else {
        stable_order(by_text(lower_names(tracks)), tracks.len())
    }
}

fn has_usable_numbers(tracks: &Vec<Mp3Track>) -> (r: bool)
    ensures
        r == numbers_usable(tracks@),
{
    let mut i: usize = 0;
    while i < tracks.len()
        invariant
            i <= tracks.len(),
            forall|a: int| 0 <= a < i ==> (#[trigger] tracks@[a]).track is Some,
            forall|a: int, b: int|
                0 <= a < b < i ==> (#[trigger] tracks@[a]).track != (#[trigger] tracks@[b]).track,
        decreases tracks.len() - i,
    {
        let n: u32 = match tracks[i].track {
            Some(n) => n,
            None => {
                assert(tracks@[i as int].track is None);
                return false;
            },
        };
        let mut k: usize = 0;
        while k < i
            invariant
                k <= i < tracks.len(),
                tracks@[i as int].track == Some(n),
                forall|a: int| 0 <= a < i ==> (#[trigger] tracks@[a]).track is Some,
                forall|a: int| 0 <= a < k ==> (#[trigger] tracks@[a]).track != Some(n),
            decreases i - k,
        {
            let m: u32 = match tracks[k].track {
                Some(m) => m,
                None => 0,
            };
            if m == n {
                assert(tracks@[k as int].track == tracks@[i as int].track);
                return false;
            }
            k = k + 1;
        }
        i = i + 1;
    }
    true
}

/// Puts the tracks in order: by number if every track has one and no two have the same, else by
/// file name, whatever the case.
pub fn order_mp3_tracks(tracks: &Vec<Mp3Track>) -> (r: Vec<usize>)
    ensures
        positions(r@) == track_order(tracks@),
        r.len() == tracks.len(),
        forall|i: int| 0 <= i < r.len() ==> #[trigger] r[i] < tracks.len(),
{
    if has_usable_numbers(tracks) {
        let mut keys: Vec<i128> = Vec::new();
        let mut i: usize = 0;
        while i < tracks.len()
            invariant
                i <= tracks.len(),
                numbers_usable(tracks@),
                keys.len() == i,
                forall|a: int| 0 <= a < i ==> #[trigger] keys@[a] == tracks@[a].track->0,
            decreases tracks.len() - i,
        {
            assert(tracks@[i as int].track is Some);
            let n: i128 = match tracks[i].track {
                Some(n) => n as i128,
                None => 0,
            };
            keys.push(n);
            i = i + 1;
        }
        assert(ints(keys@) =~= track_numbers(tracks@));
        order_by_number(&keys)
    } else {
        let mut keys: Vec<Vec<char>> = Vec::new();
        let mut i: usize = 0;
        while i < tracks.len()
            invariant
                i <= tracks.len(),
                keys.len() == i,
                forall|a: int| 0 <= a < i ==> (#[trigger] keys@[a])@ == lower_name(tracks@[a].path@),
            decreases tracks.len() - i,
        {
            let key = match path_file_name(tracks[i].path.as_str()) {
                Some(n) => to_lower(&n),
                None => Vec::new(),
            };
            keys.push(key);
            i = i + 1;
        }
        assert(keys_of(keys@) =~= lower_names(tracks@));
        order_by_text(&keys)
    }
}

/// Every track of a folder becomes an episode, and none twice: the order leaves out no track.
pub proof fn law_order_keeps_every_track(tracks: Seq<Mp3Track>)
    ensures
        numbers_usable(tracks) ==> is_stable_order(
            by_number(track_numbers(tracks)),
            tracks.len(),
            track_order(tracks),
        ),
        !numbers_usable(tracks) ==> is_stable_order(
            by_text(lower_names(tracks)),
            tracks.len(),
            track_order(tracks),
        ),
{
    lemma_by_number_is_total(track_numbers(tracks));
    lemma_by_text_is_total(lower_names(tracks));
    lemma_stable_order(by_number(track_numbers(tracks)), tracks.len());
    lemma_stable_order(by_text(lower_names(tracks)), tracks.len());
}

/// The tracks play in the order of their numbers if each has one and no two have the same, and in
/// that of their file names, in lower case, if not.
pub proof fn law_tracks_play_in_order(tracks: Seq<Mp3Track>, i: int, j: int)
    requires
        0 <= i < j < tracks.len(),
    ensures
        ({
            let order = track_order(tracks);
            let usable = (forall|k: int| 0 <= k < tracks.len() ==> (#[trigger] tracks[k]).track is Some) && (forall|
                k: int,
                l: int,
            |
                0 <= k < l < tracks.len() ==> (#[trigger] tracks[k]).track != (#[trigger] tracks[l]).track);
            let (a, b) = (tracks[order[i]], tracks[order[j]]);
            &&& 0 <= order[i] < tracks.len() && 0 <= order[j] < tracks.len() && order[i] != order[j]
            &&& usable ==> a.track->0 < b.track->0
            &&& !usable && file_name(a.path@) is Some && file_name(b.path@) is Some ==> text_le(
                lower(file_name(a.path@)->0),
                lower(file_name(b.path@)->0),
            )
        }),
{
    law_order_keeps_every_track(tracks);
    let order = track_order(tracks);
    if numbers_usable(tracks) {
        assert(before(by_number(track_numbers(tracks)), order[i], order[j]));
        assert(order[i] != order[j]);
        let (x, y) = (order[i], order[j]);
        assert(tracks[x].track is Some && tracks[y].track is Some);
        if x < y {
            assert(tracks[x].track != tracks[y].track);
        } else {
            assert(tracks[y].track != tracks[x].track);
        }
    } else {
        assert(before(by_text(lower_names(tracks)), order[i], order[j]));
    }
}

// ---- What is put on record ------------------------------------------------

/// Whether `b` is the record of a folder book. It follows the server in how it is stored, which
/// makes no difference to it, and is never re-encoded.
pub open spec fn is_folder_row(
    b: BookRow,
    id: Seq<char>,
    own: BookOverrides,
    dir: Seq<char>,
    mtime: i64,
) -> bool {
    &&& b.id@ == id
    &&& b.slug@ == id
    &&& b.title@ == folder_title(own, dir)
    &&& opt_text(b.author) == opt_text(own.author)
    &&& b.cover_path is None
    &&& b.source_path@ == dir
    &&& b.source_mtime == mtime
    &&& b.status@ == READY@
    &&& b.storage_mode is None
    &&& opt_text(b.default_cover_url) == opt_text(own.default_cover_url)
    &&& !b.force_embedded
    &&& b.transcode == Some(TranscodeMode::Off)
}

/// The record of a folder book.
pub fn folder_book_row(
    id: &str,
    feed_id: String,
    own: &BookOverrides,
    dir: &str,
    mtime: i64,
) -> (r: BookRow)
    ensures
        is_folder_row(r, id@, *own, dir@, mtime),
        r.feed_id@ == feed_id@,
        r.id@ == id@,
        r.slug@ == id@,
        own.title is Some ==> r.title@ == own.title->0@,
        own.title is None ==> r.title@ == name_or_book(dir@),
        opt_text(r.author) == opt_text(own.author),
        opt_text(r.default_cover_url) == opt_text(own.default_cover_url),
        r.cover_path is None,
        r.source_path@ == dir@,
        r.source_mtime == mtime,
        r.status@ == "ready"@,
        r.storage_mode is None,
        !r.force_embedded,
        r.transcode == Some(TranscodeMode::Off),
{
    BookRow {
        id: id.to_owned(),
        slug: id.to_owned(),
        feed_id,
        title: title_of_folder(own, dir),
        author: clone_opt(&own.author),
        cover_path: None,
        source_path: dir.to_owned(),
        source_mtime: mtime,
        status: READY.to_owned(),
        storage_mode: None,
        default_cover_url: clone_opt(&own.default_cover_url),
        force_embedded: false,
        transcode: Some(TranscodeMode::Off),
    }
}

/// Whether `e` is the record of track `t`, the `idx`th of `n`: served from the library, and known
/// by its file, not by its position.
pub open spec fn is_track_row(
    e: EpisodeRow,
    t: Mp3Track,
    idx: int,
    n: int,
    book_id: Seq<char>,
    folder_time: int,
) -> bool {
    &&& e.guid@ == blake3_hex(track_material(book_id, t.name@, t.mtime as int))
    &&& e.book_id@ == book_id
    &&& e.idx == idx
    &&& e.title@ == t.title@
    &&& e.file_path@ == t.path@
    &&& e.source_path@ == t.path@
    &&& !e.needs_faststart
    &&& e.byte_length == t.byte_length
    &&& e.duration == t.duration
    &&& e.start == 0
    &&& e.pubdate_epoch == pubdate(folder_time, idx, n)
}

/// Whether `rows` are the records of a folder's tracks, in their order.
pub open spec fn are_track_rows(
    rows: Seq<EpisodeRow>,
    tracks: Seq<Mp3Track>,
    book_id: Seq<char>,
    folder_time: int,
) -> bool {
    &&& rows.len() == tracks.len()
    &&& forall|k: int|
        0 <= k < rows.len() ==> is_track_row(
            #[trigger] rows[k],
            tracks[track_order(tracks)[k]],
            k,
            tracks.len() as int,
            book_id,
            folder_time,
        )
}

/// The records of a folder's episodes, in the order of its tracks.
pub fn folder_episode_rows(id: &str, mtime: i64, tracks: &Vec<Mp3Track>) -> (r: Vec<EpisodeRow>)
    requires
        tracks.len() <= i64::MAX,
        pubdates_fit(mtime as int, tracks.len() as int),
        forall|i: int| 0 <= i < tracks.len() ==> (#[trigger] tracks@[i]).byte_length <= i64::MAX,
    ensures
        are_track_rows(r@, tracks@, id@, mtime as int),
        are_records(r@),
        r@.len() == tracks@.len(),
        forall|k: int|
            0 <= k < r@.len() ==> {
                let t = tracks@[track_order(tracks@)[k]];
                &&& (#[trigger] r@[k]).guid@ == blake3_hex(track_material(id@, t.name@, t.mtime as int))
                &&& r@[k].book_id@ == id@
                &&& r@[k].idx == k
                &&& r@[k].title@ == t.title@
                &&& r@[k].file_path@ == t.path@
                &&& r@[k].source_path@ == t.path@
                &&& !r@[k].needs_faststart
                &&& r@[k].byte_length == t.byte_length
                &&& r@[k].duration == t.duration
                &&& r@[k].start == 0
                &&& r@[k].pubdate_epoch == mtime - (tracks@.len() - 1 - k) * 60
            },
{
    let order = order_mp3_tracks(tracks);
    let n: usize = tracks.len();
    let mut r: Vec<EpisodeRow> = Vec::new();
    let mut k: usize = 0;
    while k < n
        invariant
            k <= n,
            n == tracks.len(),
            n <= i64::MAX,
            order.len() == n,
            positions(order@) == track_order(tracks@),
            forall|i: int| 0 <= i < order.len() ==> #[trigger] order[i] < n,
            pubdates_fit(mtime as int, n as int),
            forall|i: int| 0 <= i < tracks.len() ==> (#[trigger] tracks@[i]).byte_length <= i64::MAX,
            r@.len() == k,
            are_records(r@),
            forall|j: int|
                0 <= j < k ==> is_track_row(
                    #[trigger] r@[j],
                    tracks@[track_order(tracks@)[j]],
                    j,
                    n as int,
                    id@,
                    mtime as int,
                ),
        decreases n - k,
    {
        assert(order[k as int] < n);
        assert(positions(order@)[k as int] == order@[k as int]);
        let t = &tracks[order[k]];
        assert(tracks@[order@[k as int] as int].byte_length <= i64::MAX);
        r.push(
            EpisodeRow {
                guid: track_guid(id, t.name.as_slice(), t.mtime),
                book_id: id.to_owned(),
                idx: k as i64,
                title: t.title.clone(),
                file_path: t.path.clone(),
                source_path: t.path.clone(),
                needs_faststart: false,
                byte_length: t.byte_length as i64,
                duration: t.duration,
                start: 0,
                pubdate_epoch: pubdate_epoch(mtime, k, n),
            },
        );
        k = k + 1;
    }
    r
}

/// A track keeps its guid while its file stays as it is, whatever happens to the other tracks:
/// wherever it stands, and however new the folder is.
pub proof fn law_track_keeps_its_guid(
    a: EpisodeRow,
    b: EpisodeRow,
    s: Mp3Track,
    t: Mp3Track,
    i: int,
    j: int,
    m: int,
    n: int,
    book_id: Seq<char>,
    time_a: int,
    time_b: int,
)
    requires
        is_track_row(a, s, i, m, book_id, time_a),
        is_track_row(b, t, j, n, book_id, time_b),
        s.name@ == t.name@,
        s.mtime == t.mtime,
    ensures
        a.guid@ == b.guid@,
{
}

/// A scan of a folder that was just ingested does nothing: if its tracks are as they were, what is
/// on record of it is current.
pub proof fn law_folder_rescan_does_nothing(
    b: BookRow,
    rows: Seq<EpisodeRow>,
    present: Seq<bool>,
    tracks: Seq<Mp3Track>,
    own: BookOverrides,
    id: Seq<char>,
    dir: Seq<char>,
    mtime: i64,
)
    requires
        is_folder_row(b, id, own, dir, mtime),
        are_track_rows(rows, tracks, id, mtime as int),
        own.force_reingest != Some(true),
        tracks.len() > 0,
        forall|i: int| 0 <= i < tracks.len() ==> (#[trigger] tracks[i]).path@.len() > 0,
        present.len() == rows.len(),
        forall|i: int| 0 <= i < rows.len() ==> #[trigger] present[i],
    ensures
        folder_is_current(b, rows, present, own, dir, mtime),
{
    law_order_keeps_every_track(tracks);
    assert forall|k: int| 0 <= k < rows.len() implies (#[trigger] rows[k]).source_path@.len() > 0
        && present[k] by {
        assert(is_track_row(
            rows[k],
            tracks[track_order(tracks)[k]],
            k,
            tracks.len() as int,
            id,
            mtime as int,
        ));
        assert(0 <= track_order(tracks)[k] < tracks.len());
    }
}

// ---- The whole ingest -----------------------------------------------------

/// What a probe tells of a track.
#[derive(Debug)]
pub struct TrackProbe {
    /// Its duration in ticks.
    pub duration: i128,
    /// Its track number, if it is tagged with one.
    pub track: Option<u32>,
    /// Its title, if it is tagged with one.
    pub title: Option<String>,
}

/// A track that was found in a folder.
#[derive(Debug)]
pub struct FoundTrack {
    /// Its path in the library.
    pub path: String,
    /// The bytes of its file name, which need not be text.
    pub name: Vec<u8>,
    /// Its modification time.
    pub mtime: i64,
    /// Its size in bytes.
    pub byte_length: u64,
    /// What a probe tells of it; `None` if it could not be probed.
    pub probe: Option<TrackProbe>,
}

/// The times of the tracks that were found, those that could not be probed among them.
pub open spec fn times_of(found: Seq<FoundTrack>) -> Seq<i64> {
    found.map_values(|f: FoundTrack| f.mtime)
}

/// The places among the first `n` of the tracks that could be probed.
pub open spec fn probed_places(found: Seq<FoundTrack>, n: nat) -> Seq<int>
    decreases n,
{
    if n == 0 {
        Seq::empty()
    } else {
        let rest = probed_places(found, (n - 1) as nat);
        if found[n - 1].probe is Some {
            rest.push(n - 1)
        } else {
            rest
        }
    }
}

/// Whether `t` is what the probe made of the track `f`.
pub open spec fn is_read_from(t: Mp3Track, f: FoundTrack) -> bool {
    &&& f.probe is Some
    &&& t.path@ == f.path@
    &&& t.name@ == f.name@
    &&& t.mtime == f.mtime
    &&& t.byte_length == f.byte_length
    &&& t.duration == f.probe->0.duration
    &&& t.track == f.probe->0.track
    &&& t.title@ == match f.probe->0.title {
        Some(title) => title@,
        None => stem_or_book(f.path@),
    }
}

/// Whether `tracks` are the tracks of the folder: those that could be probed, as they were found.
pub open spec fn are_read(tracks: Seq<Mp3Track>, found: Seq<FoundTrack>) -> bool {
    let at = probed_places(found, found.len());
    &&& tracks.len() == at.len()
    &&& forall|i: int| 0 <= i < tracks.len() ==> is_read_from(#[trigger] tracks[i], found[at[i]])
}

/// Every episode of a folder is one of its files, as it was found: its path twice over, its size,
/// the length that the probe told, and its title or else its stem. It is dated by its place.
pub proof fn law_folder_episodes_are_its_files(
    rows: Seq<EpisodeRow>,
    tracks: Seq<Mp3Track>,
    found: Seq<FoundTrack>,
    id: Seq<char>,
    time: int,
    k: int,
)
    requires
        are_read(tracks, found),
        are_track_rows(rows, tracks, id, time),
        0 <= k < rows.len(),
    ensures
        exists|m: int|
            {
                let f = #[trigger] found[m];
                &&& 0 <= m < found.len()
                &&& f.probe is Some
                &&& rows[k].file_path@ == f.path@
                &&& rows[k].source_path@ == f.path@
                &&& rows[k].guid@ == blake3_hex(track_material(id, f.name@, f.mtime as int))
                &&& rows[k].byte_length == f.byte_length
                &&& rows[k].duration == f.probe->0.duration
                &&& f.probe->0.title is Some ==> rows[k].title@ == f.probe->0.title->0@
                &&& f.probe->0.title is None ==> rows[k].title@ == stem_or_book(f.path@)
            },
        rows[k].idx == k,
        rows[k].start == 0,
        !rows[k].needs_faststart,
        rows[k].book_id@ == id,
        rows[k].pubdate_epoch == time - (rows.len() - 1 - k) * 60,
{
    let order = track_order(tracks);
    law_order_keeps_every_track(tracks);
    assert(is_track_row(rows[k], tracks[order[k]], k, tracks.len() as int, id, time));
    assert(0 <= order[k] < tracks.len());
    let at = probed_places(found, found.len());
    lemma_probed_places(found, found.len());
    let m = at[order[k]];
    assert(is_read_from(tracks[order[k]], found[m]));
}

proof fn lemma_probed_places(found: Seq<FoundTrack>, n: nat)
    requires
        n <= found.len(),
    ensures
        forall|i: int| 0 <= i < probed_places(found, n).len() ==> 0 <= #[trigger] probed_places(found, n)[i] < n,
    decreases n,
{
    if n > 0 {
        lemma_probed_places(found, (n - 1) as nat);
        let rest = probed_places(found, (n - 1) as nat);
        let all = probed_places(found, n);
        assert forall|i: int| 0 <= i < all.len() implies 0 <= #[trigger] all[i] < n by {
            if i < rest.len() {
                assert(all[i] == rest[i]);
            }
        }
    }
}

/// What is put on record of a folder: the book, and its episodes.
#[derive(Debug)]
pub struct FolderBook {
    pub book: BookRow,
    pub episodes: Vec<EpisodeRow>,
}

/// Ingests a folder. A track that cannot be probed is passed over; a folder without any that can
/// is refused.
pub fn ingest_folder(
    id: &str,
    feed_id: String,
    own: &BookOverrides,
    dir: &str,
    found: &Vec<FoundTrack>,
) -> (r: Result<FolderBook, ScanError>)
    requires
        found.len() <= i64::MAX,
        pubdates_fit(newest(times_of(found@)), found.len() as int),
        forall|i: int| 0 <= i < found.len() ==> (#[trigger] found@[i]).byte_length <= i64::MAX,
    ensures
        ({
            let time = newest(times_of(found@));
            let readable = probed_places(found@, found@.len()).len() > 0;
            match r {
                Err(e) => !readable && (e matches ScanError::EmptyFolder(p) && p@ == dir@),
                Ok(f) => {
                    &&& readable
                    &&& is_folder_row(f.book, id@, *own, dir@, time as i64)
                    &&& f.book.feed_id@ == feed_id@
                    &&& exists|tracks: Seq<Mp3Track>| #[trigger]
                        are_read(tracks, found@) && are_track_rows(f.episodes@, tracks, id@, time)
                    &&& are_records(f.episodes@)
                },
            }
        }),
{
    let mut times: Vec<i64> = Vec::new();
    let mut tracks: Vec<Mp3Track> = Vec::new();
    let mut i: usize = 0;
    while i < found.len()
        invariant
            i <= found.len(),
            times@.len() == i,
            forall|j: int| 0 <= j < i ==> #[trigger] times@[j] == found@[j].mtime,
            forall|j: int| 0 <= j < found.len() ==> (#[trigger] found@[j]).byte_length <= i64::MAX,
            tracks@.len() == probed_places(found@, i as nat).len(),
            tracks@.len() <= i,
            forall|k: int|
                0 <= k < tracks@.len() ==> is_read_from(
                    #[trigger] tracks@[k],
                    found@[probed_places(found@, i as nat)[k]],
                ),
            forall|k: int| 0 <= k < tracks@.len() ==> (#[trigger] tracks@[k]).byte_length <= i64::MAX,
        decreases found.len() - i,
    {
        let f = &found[i];
        times.push(f.mtime);
        match &f.probe {
            Some(p) => {
                let ghost before = tracks@;
                tracks.push(
                    Mp3Track {
                        path: f.path.clone(),
                        name: copy_bytes(&f.name),
                        mtime: f.mtime,
                        byte_length: f.byte_length,
                        duration: p.duration,
                        track: p.track,
                        title: track_title(clone_opt(&p.title), f.path.as_str()),
                    },
                );
                proof {
                    let at = probed_places(found@, i as nat);
                    let now = probed_places(found@, (i + 1) as nat);
                    assert(found@[i as int].byte_length <= i64::MAX);
                    assert forall|k: int| 0 <= k < tracks@.len() implies is_read_from(
                        #[trigger] tracks@[k],
                        found@[now[k]],
                    ) && tracks@[k].byte_length <= i64::MAX by {
                        if k < before.len() {
                            assert(tracks@[k] == before[k]);
                            assert(now[k] == at[k]);
                        }
                    }
                }
            },
            None => {},
        }
        i = i + 1;
    }
    assert(times@ =~= times_of(found@));
    if tracks.len() == 0 {
        return Err(ScanError::EmptyFolder(dir.to_owned()));
    }
    let time = folder_mtime(&times);
    proof {
        lemma_fewer_dates_fit(time as int, tracks@.len() as int, found@.len() as int);
    }
    let book = folder_book_row(id, feed_id, own, dir, time);
    let episodes = folder_episode_rows(id, time, &tracks);
    assert(are_read(tracks@, found@));
    Ok(FolderBook { book, episodes })
}

proof fn lemma_fewer_dates_fit(anchor: int, few: int, many: int)
    requires
        0 <= few <= many,
        pubdates_fit(anchor, many),
    ensures
        pubdates_fit(anchor, few),
{
}

fn copy_bytes(v: &Vec<u8>) -> (r: Vec<u8>)
    ensures
        r@ == v@,
{
    let mut r: Vec<u8> = Vec::new();
    let mut i: usize = 0;
    while i < v.len()
        invariant
            i <= v.len(),
            r@ == v@.take(i as int),
        decreases v.len() - i,
    {
        r.push(v[i]);
        assert(r@ =~= v@.take(i + 1));
        i = i + 1;
    }
    assert(v@.take(i as int) =~= v@);
    r
}

} // verus!
