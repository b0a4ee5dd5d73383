//! From the records of a book to its feed.

use vstd::prelude::*;
use vstd::string::StringExecFns;
use crate::feed::selfcheck::{channel_faults, faults, SelfCheckError};
use crate::feed::{channel_xml, date_text, duration_text, head_of, is_sound, items_of, law_head_tells_of_its_book, law_items_tell_of_their_episodes, law_pubdates_increase_up_to_the_anchor, numbers_fit, pubdate, render_checked, FeedBook, FeedEpisode};
use crate::http::audio::asked_position;
use crate::http::{audio_mime, feed_url, mime_for};
use crate::index::capability::is_feed_id;
use crate::index::{are_records, is_record, BookRow, EpisodeRow};
use crate::outside::{FIRST_DATE, LAST_DATE};
use crate::scanner::folder::{are_track_rows, is_track_row, law_order_keeps_every_track, track_order, Mp3Track};
use crate::scanner::ingest::{are_episode_rows, are_produced, is_row_at, IngestPlan};
use crate::splitter::SplitEpisode;
use crate::text::{clone_opt, dec, dec_string, lemma_dec_injective, lemma_trim_is_not_empty, nat_of, opt_text, trim};

verus! {

/// The address of an episode's audio.
pub open spec fn audio_url(base: Seq<char>, feed_id: Seq<char>, idx: int) -> Seq<char> {
    base + "/audio/"@ + feed_id + "/"@ + dec((idx + 1) as nat)
}

/// The cover of a feed: the book's own, else the one set for the book, else the server's.
pub open spec fn cover_of(
    book: BookRow,
    base: Seq<char>,
    feed_id: Seq<char>,
    server_cover: Option<Seq<char>>,
) -> Option<Seq<char>> {
    if book.cover_path is Some {
        Some(base + "/cover/"@ + feed_id)
    } else if book.default_cover_url is Some {
        opt_text(book.default_cover_url)
    } else {
        server_cover
    }
}

/// Whether `f` is what the feed says of the episode `ep`: its recorded guid and date, its real
/// size, and an address that goes by the id of the feed.
pub open spec fn is_feed_episode(f: FeedEpisode, ep: EpisodeRow, base: Seq<char>, feed_id: Seq<char>) -> bool {
    &&& f.idx == ep.idx
    &&& f.guid@ == ep.guid@
    &&& f.pubdate_epoch == ep.pubdate_epoch
    &&& f.title@ == ep.title@
    &&& f.audio_url@ == audio_url(base, feed_id, ep.idx as int)
    &&& f.byte_length == ep.byte_length
    &&& f.duration == ep.duration
    &&& f.mime_type@ == audio_mime(ep.file_path@)
}

/// Whether `f` is what the feed says of `book`.
pub open spec fn is_feed_book(
    f: FeedBook,
    book: BookRow,
    episodes: Seq<EpisodeRow>,
    base: Seq<char>,
    feed_id: Seq<char>,
    server_cover: Option<Seq<char>>,
) -> bool {
    &&& f.id@ == book.id@
    &&& f.title@ == book.title@
    &&& opt_text(f.author) == opt_text(book.author)
    &&& f.description is None
    &&& opt_text(f.cover_url) == cover_of(book, base, feed_id, server_cover)
    &&& f.source_mtime == book.source_mtime
    &&& f.self_url@ == feed_url(base, feed_id)
    &&& f.episodes@.len() == episodes.len()
    &&& forall|i: int|
        0 <= i < episodes.len() ==> is_feed_episode(#[trigger] f.episodes@[i], episodes[i], base, feed_id)
}

fn feed_episode(ep: &EpisodeRow, base: &str, feed_id: &str) -> (r: FeedEpisode)
    requires
        is_record(*ep),
    ensures
        is_feed_episode(r, *ep, base@, feed_id@),
{
    let mut url = base.to_owned();
    url.append("/audio/");
    url.append(feed_id);
    url.append("/");
    let n = dec_string((ep.idx + 1) as u128);
    url.append(n.as_str());
    FeedEpisode {
        idx: ep.idx as usize,
        guid: ep.guid.clone(),
        pubdate_epoch: ep.pubdate_epoch,
        title: ep.title.clone(),
        audio_url: url,
        byte_length: ep.byte_length as u64,
        duration: ep.duration,
        mime_type: mime_for(ep.file_path.as_str()).to_owned(),
    }
}

/// What the feed says of a book, built from its records. Every address goes by `feed_id`, so that
/// the whole book is reached from the one id, and nothing can be guessed.
pub fn feed_book(
    book: &BookRow,
    episodes: &Vec<EpisodeRow>,
    base: &str,
    feed_id: &str,
    server_cover: &Option<String>,
) -> (r: FeedBook)
    requires
        are_records(episodes@),
    ensures
        is_feed_book(r, *book, episodes@, base@, feed_id@, opt_text(*server_cover)),
        numbers_fit(r),
        r.id@ == book.id@,
        r.title@ == book.title@,
        opt_text(r.author) == opt_text(book.author),
        r.description is None,
        r.source_mtime == book.source_mtime,
        r.self_url@ == base@ + "/feed/"@ + feed_id@ + ".xml"@,
        book.cover_path is Some ==> opt_text(r.cover_url) == Some(base@ + "/cover/"@ + feed_id@),
        book.cover_path is None && book.default_cover_url is Some ==> opt_text(r.cover_url) == opt_text(
            book.default_cover_url,
        ),
        book.cover_path is None && book.default_cover_url is None ==> opt_text(r.cover_url) == opt_text(
            *server_cover,
        ),
        r.episodes@.len() == episodes@.len(),
        forall|i: int|
            0 <= i < episodes@.len() ==> {
                &&& (#[trigger] r.episodes@[i]).idx == episodes@[i].idx
                &&& r.episodes@[i].guid@ == episodes@[i].guid@
                &&& r.episodes@[i].pubdate_epoch == episodes@[i].pubdate_epoch
                &&& r.episodes@[i].title@ == episodes@[i].title@
                &&& r.episodes@[i].audio_url@ == base@ + "/audio/"@ + feed_id@ + "/"@ + dec(
                    (episodes@[i].idx + 1) as nat,
                )
                &&& r.episodes@[i].byte_length == episodes@[i].byte_length
                &&& r.episodes@[i].duration == episodes@[i].duration
                &&& r.episodes@[i].mime_type@ == audio_mime(episodes@[i].file_path@)
            },
{
    let mut list: Vec<FeedEpisode> = Vec::new();
    let mut i: usize = 0;
    while i < episodes.len()
        invariant
            i <= episodes.len(),
            are_records(episodes@),
            list@.len() == i,
            forall|j: int|
                0 <= j < i ==> is_feed_episode(#[trigger] list@[j], episodes@[j], base@, feed_id@),
        decreases episodes.len() - i,
    {
        assert(is_record(episodes@[i as int]));
        list.push(feed_episode(&episodes[i], base, feed_id));
        i = i + 1;
    }
    let cover_url = if book.cover_path.is_some() {
        let mut u = base.to_owned();
        u.append("/cover/");
        u.append(feed_id);
        Some(u)
    } else if book.default_cover_url.is_some() {
        clone_opt(&book.default_cover_url)
    } else {
        clone_opt(server_cover)
    };
    let mut self_url = base.to_owned();
    self_url.append("/feed/");
    self_url.append(feed_id);
    self_url.append(".xml");
    let r = FeedBook {
        id: book.id.clone(),
        title: book.title.clone(),
        author: clone_opt(&book.author),
        description: None,
        cover_url,
        source_mtime: book.source_mtime,
        self_url,
        episodes: list,
    };
    proof {
        assert forall|j: int| 0 <= j < r.episodes@.len() implies (#[trigger] r.episodes@[j]).idx
            < usize::MAX by {
            assert(is_feed_episode(r.episodes@[j], episodes@[j], base@, feed_id@));
            assert(is_record(episodes@[j]));
        }
        assert forall|j: int| 0 <= j < episodes@.len() implies is_feed_episode(
            #[trigger] r.episodes@[j],
            episodes@[j],
            base@,
            feed_id@,
        ) by {}
    }
    r
}

/// The feed shows what is on record, from the index to the item: the title, guid, size, length and
/// date of each episode in its own place, and an address that ends in the episode's number.
pub proof fn law_feed_shows_what_is_on_record(
    f: FeedBook,
    book: BookRow,
    episodes: Seq<EpisodeRow>,
    base: Seq<char>,
    feed_id: Seq<char>,
    server_cover: Option<Seq<char>>,
    i: int,
)
    requires
        is_feed_book(f, book, episodes, base, feed_id, server_cover),
        are_records(episodes),
        0 <= i < episodes.len(),
    ensures
        items_of(f).len() == episodes.len(),
        ({
            let item = items_of(f)[i];
            &&& item.title == episodes[i].title@
            &&& item.guid is Some && item.guid->0.value == episodes[i].guid@
            &&& item.enclosure is Some
            &&& item.enclosure->0.url == base + "/audio/"@ + feed_id + "/"@ + dec((episodes[i].idx + 1) as nat)
            &&& nat_of(item.enclosure->0.length) == episodes[i].byte_length
            &&& item.enclosure->0.mime_type == audio_mime(episodes[i].file_path@)
            &&& item.itunes is Some && item.itunes->0.episode is Some
            &&& nat_of(item.itunes->0.episode->0) == episodes[i].idx + 1
            &&& item.itunes->0.duration == Some(duration_text(episodes[i].duration as int))
            &&& item.pub_date == Some(date_text(episodes[i].pubdate_epoch))
        }),
        head_of(f).title == book.title@,
        head_of(f).author == opt_text(book.author),
        head_of(f).link == base + "/feed/"@ + feed_id + ".xml"@,
        book.cover_path is Some ==> head_of(f).image == Some(base + "/cover/"@ + feed_id),
        book.cover_path is None && book.default_cover_url is Some ==> head_of(f).image == opt_text(
            book.default_cover_url,
        ),
        book.cover_path is None && book.default_cover_url is None ==> head_of(f).image == server_cover,
{
    assert(is_feed_episode(f.episodes@[i], episodes[i], base, feed_id));
    assert(is_record(episodes[i]));
    law_items_tell_of_their_episodes(f, i);
    law_head_tells_of_its_book(f);
}

/// The number in the address of an episode leads back to it: the position that a request for it
/// asks for is the episode's own.
pub proof fn law_addresses_lead_to_their_episodes(
    base: Seq<char>,
    feed_id: Seq<char>,
    idx: int,
    number: u32,
)
    requires
        is_feed_id(feed_id),
        0 <= idx,
        audio_url(base, feed_id, idx) == base + "/audio/"@ + feed_id + "/"@ + dec(number as nat),
    ensures
        asked_position(feed_id, number) == Some(idx),
{
    let front = base + "/audio/"@ + feed_id + "/"@;
    let a = dec((idx + 1) as nat);
    let b = dec(number as nat);
    assert(audio_url(base, feed_id, idx).skip(front.len() as int) =~= a);
    assert((front + b).skip(front.len() as int) =~= b);
    lemma_dec_injective((idx + 1) as nat, number as nat);
}

/// The feed of a book as XML, or what is wrong with it: a feed with faults is never served.
pub fn feed_xml(
    book: &BookRow,
    episodes: &Vec<EpisodeRow>,
    base: &str,
    feed_id: &str,
    server_cover: &Option<String>,
) -> (r: Result<String, Vec<SelfCheckError>>)
    requires
        are_records(episodes@),
    ensures
        exists|f: FeedBook| #[trigger]
            is_feed_book(f, *book, episodes@, base@, feed_id@, opt_text(*server_cover)) && match r {
                Ok(xml) => {
                    &&& channel_faults(items_of(f)).len() == 0
                    &&& xml@ == channel_xml(head_of(f), items_of(f))
                },
                Err(errors) => {
                    &&& faults(errors@) == channel_faults(items_of(f))
                    &&& errors@.len() > 0
                },
            } && (is_sound(f) ==> r is Ok),
{
    let f = feed_book(book, episodes, base, feed_id, server_cover);
    render_checked(&f)
}

proof fn lemma_address_is_no_blank(base: Seq<char>, feed_id: Seq<char>, idx: int)
    ensures
        trim(audio_url(base, feed_id, idx)).len() > 0,
{
    reveal_strlit("/audio/");
    let u = audio_url(base, feed_id, idx);
    assert(u[base.len() as int] == '/');
    lemma_trim_is_not_empty(u, base.len() as int);
}

/// Whether the dates of `n` episodes up to `mtime` can be written.
pub open spec fn dates_are_writable(mtime: int, n: int) -> bool {
    FIRST_DATE <= pubdate(mtime, 0, n) && mtime <= LAST_DATE
}

proof fn lemma_feed_is_sound(
    f: FeedBook,
    book: BookRow,
    rows: Seq<EpisodeRow>,
    mtime: int,
    base: Seq<char>,
    feed_id: Seq<char>,
    cover: Option<Seq<char>>,
)
    requires
        is_feed_book(f, book, rows, base, feed_id, cover),
        rows.len() > 0,
        dates_are_writable(mtime, rows.len() as int),
        forall|i: int|
            0 <= i < rows.len() ==> {
                &&& (#[trigger] rows[i]).idx == i
                &&& i < i64::MAX
                &&& rows[i].byte_length > 0
                &&& rows[i].pubdate_epoch == pubdate(mtime, i, rows.len() as int)
            },
    ensures
        is_sound(f),
{
    let n = rows.len() as int;
    let eps = f.episodes@;
    assert forall|i: int| 0 <= i < eps.len() implies {
        &&& FIRST_DATE <= (#[trigger] eps[i]).pubdate_epoch <= LAST_DATE
        &&& eps[i].byte_length > 0
        &&& trim(eps[i].audio_url@).len() > 0
        &&& eps[i].idx < i64::MAX
    } by {
        assert(is_feed_episode(eps[i], rows[i], base, feed_id));
        lemma_address_is_no_blank(base, feed_id, rows[i].idx as int);
        assert(rows[i].idx == i);
        if i > 0 {
            law_pubdates_increase_up_to_the_anchor(mtime, 0, i, n);
        } else if n > 1 {
            law_pubdates_increase_up_to_the_anchor(mtime, 0, n - 1, n);
        }
    }
    assert forall|i: int, j: int| 0 <= i < j < eps.len() implies (#[trigger] eps[i]).idx < (
    #[trigger] eps[j]).idx && eps[i].pubdate_epoch < eps[j].pubdate_epoch by {
        assert(is_feed_episode(eps[i], rows[i], base, feed_id));
        assert(is_feed_episode(eps[j], rows[j], base, feed_id));
        assert(rows[i].idx == i && rows[j].idx == j);
        law_pubdates_increase_up_to_the_anchor(mtime, i, j, n);
    }
}

/// What is ingested can be served: the feed of a book that was just put on record has no faults, as
/// long as every episode holds audio and the source's time is one that a date can be written of.
pub proof fn law_ingested_book_has_a_sound_feed(
    f: FeedBook,
    book: BookRow,
    rows: Seq<EpisodeRow>,
    produced: Seq<SplitEpisode>,
    p: IngestPlan,
    id: Seq<char>,
    mtime: int,
    input: Seq<char>,
    slow: bool,
    base: Seq<char>,
    feed_id: Seq<char>,
    cover: Option<Seq<char>>,
)
    requires
        are_produced(produced, p, mtime),
        are_episode_rows(rows, produced, p, id, mtime, input, slow),
        is_feed_book(f, book, rows, base, feed_id, cover),
        rows.len() > 0,
        dates_are_writable(mtime, rows.len() as int),
        forall|i: int|
            0 <= i < produced.len() ==> (#[trigger] produced[i]).idx == i && produced[i].byte_length > 0,
    ensures
        is_sound(f),
{
    assert forall|i: int| 0 <= i < rows.len() implies {
        &&& (#[trigger] rows[i]).idx == i
        &&& i < i64::MAX
        &&& rows[i].byte_length > 0
        &&& rows[i].pubdate_epoch == pubdate(mtime, i, rows.len() as int)
    } by {
        assert(is_row_at(rows[i], i, produced, p, id, mtime, input, slow));
        assert(produced[i].idx == i);
    }
    lemma_feed_is_sound(f, book, rows, mtime, base, feed_id, cover);
}

/// The same holds of a folder of tracks.
pub proof fn law_ingested_folder_has_a_sound_feed(
    f: FeedBook,
    book: BookRow,
    rows: Seq<EpisodeRow>,
    tracks: Seq<Mp3Track>,
    id: Seq<char>,
    mtime: int,
    base: Seq<char>,
    feed_id: Seq<char>,
    cover: Option<Seq<char>>,
)
    requires
        are_track_rows(rows, tracks, id, mtime),
        rows.len() <= i64::MAX,
        is_feed_book(f, book, rows, base, feed_id, cover),
        rows.len() > 0,
        dates_are_writable(mtime, rows.len() as int),
        forall|i: int| 0 <= i < tracks.len() ==> (#[trigger] tracks[i]).byte_length > 0,
    ensures
        is_sound(f),
{
    law_order_keeps_every_track(tracks);
    let order = track_order(tracks);
    assert forall|i: int| 0 <= i < rows.len() implies {
        &&& (#[trigger] rows[i]).idx == i
        &&& i < i64::MAX
        &&& rows[i].byte_length > 0
        &&& rows[i].pubdate_epoch == pubdate(mtime, i, rows.len() as int)
    } by {
        assert(is_track_row(rows[i], tracks[order[i]], i, tracks.len() as int, id, mtime));
        assert(0 <= order[i] < tracks.len());
        assert(tracks[order[i]].byte_length > 0);
    }
    lemma_feed_is_sound(f, book, rows, mtime, base, feed_id, cover);
}

} // verus!
