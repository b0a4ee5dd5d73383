//! One podcast RSS 2.0 channel per book.
//!
//! The rules that podcast apps live by:
//! - Dates follow the chapters: chapter 1 is the oldest, every episode lies in
//!   the past, and dates strictly increase with the chapter.
//! - Guids are stable: the hash of book, chapter and source time, so that they
//!   change only when the source does.
//! - Every item carries an episode number, a duration and an enclosure with the
//!   real size of its audio.
//!
//! [`selfcheck`] refuses to let a feed out that breaks them.

use vstd::prelude::*;
use vstd::string::StringExecFns;
use vstd::utf8::{char_is_scalar, char_u32_cast, encode_scalar, encode_utf8, encode_utf8_decode_utf8, has_width_1_encoding, is_scalar, last_continuation_byte, leading_byte_width_1, leading_byte_width_2, leading_byte_width_3, leading_byte_width_4, second_last_continuation_byte, third_last_continuation_byte};
use crate::outside::{blake3_hex, hash_hex, print_rss, rfc2822_epoch, rfc2822_text, rss_item, rss_xml, to_rss_item, write_date, FIRST_DATE, LAST_DATE};
use crate::feed::selfcheck::{channel_faults, check, dated, episode_of, epoch_of, faults, item_faults, items_faults, numbers, order_faults, SelfCheckError};
use crate::sorting::{by_number, lemma_sorted_stays, stable_order};
use crate::text::{all_digits, clone_opt, dec, dec_padded, dec_string, int_string, int_text, is_digit, lemma_dec_round_trip, lemma_int_text_injective, lemma_padded_digits, lemma_padded_value, lemma_trim_stays, lemma_zero_pad, nat_of, opt_text, signed_value, trim, unsigned_digits, zero_pad};
use crate::ticks::TICKS_PER_SEC;

pub mod selfcheck;

verus! {

/// The namespace of the podcast tags.
pub const PODCAST_NS: &'static str = "https://podcastindex.org/namespace/1.0";

/// Seconds between the dates of two episodes. Apps go by the order alone; the spacing keeps the
/// dates visibly distinct.
pub const PUBDATE_STEP_SECS: i64 = 60;

/// One episode of a feed.
#[derive(Debug)]
pub struct FeedEpisode {
    /// Chapter, from 0; the episode number is one more.
    pub idx: usize,
    /// The guid recorded at ingest. It is published as it stands, so that a client keeps the
    /// episode it already has.
    pub guid: String,
    /// The date recorded at ingest, as a Unix timestamp.
    pub pubdate_epoch: i64,
    /// Title.
    pub title: String,
    /// Address of the audio file.
    pub audio_url: String,
    /// Real size of the audio file in bytes.
    pub byte_length: u64,
    /// Duration in ticks.
    pub duration: i128,
    /// MIME type of the audio file.
    pub mime_type: String,
}

/// One book of a feed.
#[derive(Debug)]
pub struct FeedBook {
    /// Stable id.
    pub id: String,
    /// Title.
    pub title: String,
    /// Author, if known.
    pub author: Option<String>,
    /// Description, if there is one.
    pub description: Option<String>,
    /// Address of the cover, if there is one.
    pub cover_url: Option<String>,
    /// Modification time of the source. The feed reads it only as the date of a book without
    /// episodes.
    pub source_mtime: i64,
    /// The feed's own address.
    pub self_url: String,
    /// Episodes in chapter order.
    pub episodes: Vec<FeedEpisode>,
}

// ---- Guids ----------------------------------------------------------------

/// What the guid of a chapter is the hash of: `book:idx:mtime`.
pub open spec fn episode_material(book_id: Seq<char>, idx: int, mtime: int) -> Seq<char> {
    book_id + seq![':'] + int_text(idx) + seq![':'] + int_text(mtime)
}

/// What the guid of a folder track is the hash of: `book:name:mtime`, the name as raw bytes.
pub open spec fn track_material(book_id: Seq<char>, file_name: Seq<u8>, mtime: int) -> Seq<u8> {
    encode_utf8(book_id) + seq![0x3au8] + file_name + seq![0x3au8] + encode_utf8(int_text(mtime))
}

/// The guid of a chapter: `blake3(book:idx:mtime)` in hexadecimal.
///
/// A chapter is a range of one container, so its position is what it is. A track of a folder has
/// [`track_guid`].
pub fn episode_guid(book_id: &str, idx: usize, source_mtime: i64) -> (r: String)
    ensures
        r@ == blake3_hex(encode_utf8(episode_material(book_id@, idx as int, source_mtime as int))),
        r@ == blake3_hex(
            encode_utf8(
                book_id@ + seq![':'] + int_text(idx as int) + seq![':'] + int_text(source_mtime as int),
            ),
        ),
{
    let mut material = book_id.to_owned();
    material.push(':');
    let n = dec_string(idx as u128);
    material.append(n.as_str());
    material.push(':');
    let t = int_string(source_mtime);
    material.append(t.as_str());
    assert(material@ =~= episode_material(book_id@, idx as int, source_mtime as int));
    hash_hex(material.as_str().as_bytes())
}

fn append_bytes(v: &mut Vec<u8>, more: &[u8])
    ensures
        final(v)@ == old(v)@ + more@,
{
    let mut i: usize = 0;
    assert(old(v)@ + more@.take(0) =~= old(v)@);
    while i < more.len()
        invariant
            i <= more.len(),
            v@ == old(v)@ + more@.take(i as int),
        decreases more.len() - i,
    {
        v.push(more[i]);
        proof {
            assert(more@.take(i + 1) =~= more@.take(i as int).push(more@[i as int]));
        }
        i = i + 1;
    }
    assert(more@.take(more@.len() as int) =~= more@);
}

/// The guid of one track of a folder book: `blake3(book:name:mtime)` in hexadecimal.
///
/// A track is a file of its own, so its guid follows that file and not its position: taking one
/// track away renumbers those behind it. The name comes as raw bytes, because two names may
/// differ in bytes that no text can hold.
pub fn track_guid(book_id: &str, file_name: &[u8], mtime: i64) -> (r: String)
    ensures
        r@ == blake3_hex(track_material(book_id@, file_name@, mtime as int)),
        r@ == blake3_hex(
            encode_utf8(book_id@) + seq![0x3au8] + file_name@ + seq![0x3au8] + encode_utf8(int_text(mtime as int)),
        ),
{
    let mut v: Vec<u8> = Vec::new();
    append_bytes(&mut v, book_id.as_bytes());
    v.push(0x3a);
    append_bytes(&mut v, file_name);
    v.push(0x3a);
    let t = int_string(mtime);
    append_bytes(&mut v, t.as_str().as_bytes());
    assert(v@ =~= track_material(book_id@, file_name@, mtime as int));
    hash_hex(v.as_slice())
}

proof fn lemma_first_colon(a: Seq<char>, x: Seq<char>, b: Seq<char>, y: Seq<char>)
    requires
        a + seq![':'] + x == b + seq![':'] + y,
        !a.contains(':'),
        !b.contains(':'),
    ensures
        a == b,
        x == y,
{
    let s = a + seq![':'] + x;
    let t = b + seq![':'] + y;
    assert(s[a.len() as int] == ':');
    assert(t[b.len() as int] == ':');
    assert(a.len() == b.len()) by {
        if a.len() < b.len() {
            assert(t[a.len() as int] == b[a.len() as int]);
            assert(b.contains(':'));
        } else if b.len() < a.len() {
            assert(s[b.len() as int] == a[b.len() as int]);
            assert(a.contains(':'));
        }
    }
    assert(a =~= b) by {
        assert forall|i: int| 0 <= i < a.len() implies a[i] == b[i] by {
            assert(s[i] == a[i] && t[i] == b[i]);
        }
    }
    assert(x =~= y) by {
        assert(x.len() == s.len() - a.len() - 1);
        assert forall|i: int| 0 <= i < x.len() implies x[i] == y[i] by {
            assert(s[a.len() + 1 + i] == x[i] && t[b.len() + 1 + i] == y[i]);
        }
    }
}

/// A guid stands for one chapter of one source: what is hashed differs as soon as the book, the
/// chapter or the source's time differs. (No slug holds a `:`.)
pub proof fn law_episode_material_is_unique(
    book_a: Seq<char>,
    idx_a: int,
    mtime_a: int,
    book_b: Seq<char>,
    idx_b: int,
    mtime_b: int,
)
    requires
        !book_a.contains(':'),
        !book_b.contains(':'),
        episode_material(book_a, idx_a, mtime_a) == episode_material(book_b, idx_b, mtime_b),
    ensures
        book_a == book_b,
        idx_a == idx_b,
        mtime_a == mtime_b,
{
    let ra = int_text(idx_a) + seq![':'] + int_text(mtime_a);
    let rb = int_text(idx_b) + seq![':'] + int_text(mtime_b);
    assert(episode_material(book_a, idx_a, mtime_a) =~= book_a + seq![':'] + ra);
    assert(episode_material(book_b, idx_b, mtime_b) =~= book_b + seq![':'] + rb);
    lemma_first_colon(book_a, ra, book_b, rb);
    lemma_int_text_injective(idx_a, idx_b);
    lemma_int_text_injective(idx_b, idx_a);
    lemma_int_text_injective(mtime_a, mtime_b);
    lemma_first_colon(int_text(idx_a), int_text(mtime_a), int_text(idx_b), int_text(mtime_b));
}

proof fn lemma_scalar_has_no_colon(c: u32)
    requires
        is_scalar(c),
        c != 0x3a,
    ensures
        !encode_scalar(c).contains(0x3au8),
{
    if has_width_1_encoding(c) {
        assert(leading_byte_width_1(c) != 0x3a) by (bit_vector)
            requires
                c <= 0x7f,
                c != 0x3a,
        ;
    } else {
        assert(leading_byte_width_2(c) != 0x3a) by (bit_vector);
        assert(leading_byte_width_3(c) != 0x3a) by (bit_vector);
        assert(leading_byte_width_4(c) != 0x3a) by (bit_vector);
        assert(last_continuation_byte(c) != 0x3a) by (bit_vector);
        assert(second_last_continuation_byte(c) != 0x3a) by (bit_vector);
        assert(third_last_continuation_byte(c) != 0x3a) by (bit_vector);
    }
}

/// The byte of `:` stands only where a text holds a `:`.
proof fn lemma_bytes_have_no_colon(s: Seq<char>)
    requires
        !s.contains(':'),
    ensures
        !encode_utf8(s).contains(0x3au8),
    decreases s.len(),
{
    if s.len() > 0 {
        let c = s[0];
        let rest = s.drop_first();
        assert(c != ':');
        assert(c as u32 != 0x3a) by {
            char_u32_cast(c, c as u32);
        }
        char_is_scalar(c);
        lemma_scalar_has_no_colon(c as u32);
        assert(!rest.contains(':')) by {
            assert forall|i: int| 0 <= i < rest.len() implies rest[i] != ':' by {
                assert(rest[i] == s[i + 1]);
            }
        }
        lemma_bytes_have_no_colon(rest);
        let a = encode_scalar(c as u32);
        let b = encode_utf8(rest);
        assert forall|i: int| 0 <= i < (a + b).len() implies (a + b)[i] != 0x3au8 by {
            if i < a.len() {
                assert(a[i] != 0x3au8);
            } else {
                assert(b[i - a.len()] != 0x3au8);
            }
        }
    }
}

proof fn lemma_outer_colons(
    a: Seq<u8>,
    x: Seq<u8>,
    c: Seq<u8>,
    b: Seq<u8>,
    y: Seq<u8>,
    d: Seq<u8>,
)
    requires
        a + seq![0x3au8] + x + seq![0x3au8] + c == b + seq![0x3au8] + y + seq![0x3au8] + d,
        !a.contains(0x3au8),
        !b.contains(0x3au8),
        !c.contains(0x3au8),
        !d.contains(0x3au8),
    ensures
        a == b,
        x == y,
        c == d,
{
    let s = a + seq![0x3au8] + x + seq![0x3au8] + c;
    let t = b + seq![0x3au8] + y + seq![0x3au8] + d;
    assert(s[a.len() as int] == 0x3a && t[b.len() as int] == 0x3a);
    assert(s[s.len() - 1 - c.len()] == 0x3a && t[t.len() - 1 - d.len()] == 0x3a);
    assert(a.len() == b.len()) by {
        if a.len() < b.len() {
            assert(t[a.len() as int] == b[a.len() as int]);
        } else if b.len() < a.len() {
            assert(s[b.len() as int] == a[b.len() as int]);
        }
    }
    assert(c.len() == d.len()) by {
        if c.len() < d.len() {
            let k = d.len() - 1 - c.len();
            assert(t[t.len() - 1 - c.len()] == d[k]);
        } else if d.len() < c.len() {
            let k = c.len() - 1 - d.len();
            assert(s[s.len() - 1 - d.len()] == c[k]);
        }
    }
    assert(a =~= b) by {
        assert forall|i: int| 0 <= i < a.len() implies a[i] == b[i] by {
            assert(s[i] == a[i] && t[i] == b[i]);
        }
    }
    assert(x =~= y) by {
        assert forall|i: int| 0 <= i < x.len() implies x[i] == y[i] by {
            assert(s[a.len() + 1 + i] == x[i] && t[b.len() + 1 + i] == y[i]);
        }
    }
    assert(c =~= d) by {
        assert forall|i: int| 0 <= i < c.len() implies c[i] == d[i] by {
            assert(s[s.len() - c.len() + i] == c[i] && t[t.len() - d.len() + i] == d[i]);
        }
    }
}

/// The guid of a track stands for one file of one folder: what is hashed differs as soon as the
/// book, the name in any of its bytes, or the file's time differs. (No slug holds a `:`.)
pub proof fn law_track_material_is_unique(
    book_a: Seq<char>,
    name_a: Seq<u8>,
    mtime_a: int,
    book_b: Seq<char>,
    name_b: Seq<u8>,
    mtime_b: int,
)
    requires
        !book_a.contains(':'),
        !book_b.contains(':'),
        track_material(book_a, name_a, mtime_a) == track_material(book_b, name_b, mtime_b),
    ensures
        book_a == book_b,
        name_a == name_b,
        mtime_a == mtime_b,
{
    lemma_int_text_injective(mtime_a, mtime_b);
    lemma_int_text_injective(mtime_b, mtime_a);
    lemma_bytes_have_no_colon(book_a);
    lemma_bytes_have_no_colon(book_b);
    lemma_bytes_have_no_colon(int_text(mtime_a));
    lemma_bytes_have_no_colon(int_text(mtime_b));
    lemma_outer_colons(
        encode_utf8(book_a),
        name_a,
        encode_utf8(int_text(mtime_a)),
        encode_utf8(book_b),
        name_b,
        encode_utf8(int_text(mtime_b)),
    );
    encode_utf8_decode_utf8(book_a);
    encode_utf8_decode_utf8(book_b);
    encode_utf8_decode_utf8(int_text(mtime_a));
    encode_utf8_decode_utf8(int_text(mtime_b));
}

// ---- Durations and dates --------------------------------------------------

/// A duration in whole seconds, halves rounded up, and the largest `i64` if there are more; 0 if it
/// is not positive.
pub open spec fn whole_seconds(ticks: int) -> nat {
    let n = (ticks + TICKS_PER_SEC / 2) / (TICKS_PER_SEC as int);
    if ticks <= 0 {
        0
    } else if n > i64::MAX {
        i64::MAX as nat
    } else {
        n as nat
    }
}

/// A duration as `HH:MM:SS`.
pub open spec fn duration_text(ticks: int) -> Seq<char> {
    let s = whole_seconds(ticks);
    zero_pad(dec(s / 3600), 2) + seq![':'] + zero_pad(dec(s % 3600 / 60), 2) + seq![':'] + zero_pad(
        dec(s % 60),
        2,
    )
}

/// Formats a duration as `HH:MM:SS`.
pub fn format_itunes_duration(ticks: i128) -> (r: String)
    ensures
        r@ == duration_text(ticks as int),
{
    let total: u128 = if ticks > 0 {
        let n: u128 = ((ticks as u128) + 1_764_000_000) / 3_528_000_000;
        if n > i64::MAX as u128 {
            i64::MAX as u128
        } else {
            n
        }
    } else {
        0
    };
    let h = dec_padded(total / 3600, 2);
    let m = dec_padded(total % 3600 / 60, 2);
    let s = dec_padded(total % 60, 2);
    let mut r = h;
    r.push(':');
    r.append(m.as_str());
    r.push(':');
    r.append(s.as_str());
    assert(r@ =~= duration_text(ticks as int));
    r
}

/// A duration is shown as hours, minutes and seconds that add up to it: the whole seconds nearest
/// to it, a second being 3,528,000,000 ticks. Minutes and seconds stay below 60, each part has two
/// digits or more.
#[verifier::spinoff_prover]
pub proof fn law_shown_duration_adds_up(ticks: int)
    requires
        0 < ticks,
        ticks <= 3_528_000_000 * i64::MAX,
    ensures
        exists|h: Seq<char>, m: Seq<char>, s: Seq<char>|
            {
                &&& duration_text(ticks) == #[trigger] (h + seq![':'] + m + seq![':'] + s)
                &&& all_digits(h) && all_digits(m) && all_digits(s)
                &&& h.len() >= 2 && m.len() == 2 && s.len() == 2
                &&& nat_of(m) < 60 && nat_of(s) < 60
                &&& -1_764_000_000 <= (nat_of(h) * 3600 + nat_of(m) * 60 + nat_of(s)) * 3_528_000_000 - ticks
                    <= 1_764_000_000
            },
{
    let n = whole_seconds(ticks);
    let (a, b, c) = (n / 3600, n % 3600 / 60, n % 60);
    let h = zero_pad(dec(a), 2);
    let m = zero_pad(dec(b), 2);
    let s = zero_pad(dec(c), 2);
    lemma_padded_digits(a, 2);
    lemma_padded_digits(b, 2);
    lemma_padded_digits(c, 2);
    lemma_padded_value(dec(a), 2);
    lemma_padded_value(dec(b), 2);
    lemma_padded_value(dec(c), 2);
    lemma_dec_round_trip(a);
    lemma_dec_round_trip(b);
    lemma_dec_round_trip(c);
    lemma_zero_pad(dec(a), 2);
    lemma_zero_pad(dec(b), 2);
    lemma_zero_pad(dec(c), 2);
    lemma_two_digits(b);
    lemma_two_digits(c);
    assert(n == a * 3600 + b * 60 + c);
    assert(duration_text(ticks) == h + seq![':'] + m + seq![':'] + s);
}

proof fn lemma_two_digits(n: nat)
    requires
        n < 100,
    ensures
        dec(n).len() <= 2,
{
    reveal_with_fuel(dec, 2);
}

/// A duration that is not positive is shown as no time at all.
pub proof fn law_no_duration_is_shown_as_zero(ticks: int)
    requires
        ticks <= 0,
    ensures
        duration_text(ticks) == "00:00:00"@,
{
    reveal_strlit("00:00:00");
    reveal_with_fuel(zero_pad, 3);
    assert(duration_text(ticks) =~= "00:00:00"@);
}

/// The date of chapter `idx` of `n`: the last lies at `anchor`, those before it step back from it.
pub open spec fn pubdate(anchor: int, idx: int, n: int) -> int {
    anchor - (n - 1 - idx) * PUBDATE_STEP_SECS
}

/// Whether the dates of a book with `n` chapters anchored at `anchor` all fit an `i64`.
pub open spec fn pubdates_fit(anchor: int, n: int) -> bool {
    i64::MIN <= anchor - n * PUBDATE_STEP_SECS && n * PUBDATE_STEP_SECS <= i64::MAX
}

/// The date of chapter `idx` of `n`, as a Unix timestamp.
pub fn pubdate_epoch(anchor: i64, idx: usize, n: usize) -> (r: i64)
    requires
        idx < n,
        pubdates_fit(anchor as int, n as int),
    ensures
        r == pubdate(anchor as int, idx as int, n as int),
{
    let steps: usize = n - 1 - idx;
    anchor - (steps as i64) * PUBDATE_STEP_SECS
}

/// Dates strictly increase with the chapter, a minute from each to the next, none is later than the anchor, and the last chapter
/// lies at the anchor.
pub proof fn law_pubdates_increase_up_to_the_anchor(anchor: int, i: int, j: int, n: int)
    requires
        0 <= i < j < n,
    ensures
        pubdate(anchor, i, n) < pubdate(anchor, j, n) <= anchor,
        pubdate(anchor, n - 1, n) == anchor,
        pubdate(anchor, j, n) - pubdate(anchor, i, n) == (j - i) * 60,
{
}

/// The date that a feed shows for a Unix timestamp: none if it cannot be written under RFC 2822.
pub open spec fn date_text(epoch: i64) -> Seq<char> {
    if FIRST_DATE <= epoch <= LAST_DATE {
        rfc2822_text(epoch)
    } else {
        Seq::empty()
    }
}

/// Formats a Unix timestamp as an RFC 2822 date; empty if it cannot be.
pub fn format_rfc2822(epoch: i64) -> (r: String)
    ensures
        r@ == date_text(epoch),
        FIRST_DATE <= epoch <= LAST_DATE ==> rfc2822_epoch(r@) == Some(epoch),
        FIRST_DATE <= epoch <= LAST_DATE ==> r@ == rfc2822_text(epoch),
        !(FIRST_DATE <= epoch <= LAST_DATE) ==> r@.len() == 0,
{
    match write_date(epoch) {
        Some(s) => s,
        None => String::new(),
    }
}

// ---- The channel ----------------------------------------------------------

/// Where the audio of an item is.
#[derive(Debug, Clone)]
pub struct Enclosure {
    pub url: String,
    pub length: String,
    pub mime_type: String,
}

/// The identity of an item.
#[derive(Debug, Clone)]
pub struct Guid {
    pub value: String,
    pub permalink: bool,
}

/// The iTunes tags of an item.
#[derive(Debug, Clone)]
pub struct ItunesTags {
    pub episode: Option<String>,
    pub duration: Option<String>,
    pub image: Option<String>,
}

/// One item of a channel.
#[derive(Debug, Clone)]
pub struct FeedItem {
    pub title: String,
    pub pub_date: Option<String>,
    pub enclosure: Option<Enclosure>,
    pub guid: Option<Guid>,
    pub itunes: Option<ItunesTags>,
}

/// A channel without its items.
#[derive(Debug, Clone)]
pub struct ChannelHead {
    pub title: String,
    pub link: String,
    pub description: String,
    pub language: String,
    pub pub_date: String,
    pub last_build_date: String,
    pub author: Option<String>,
    pub image: Option<String>,
    pub summary: Option<String>,
    pub block: String,
    /// Prefixes and what they stand for.
    pub namespaces: Vec<(String, String)>,
}

/// A channel.
#[derive(Debug, Clone)]
pub struct Channel {
    pub head: ChannelHead,
    pub items: Vec<FeedItem>,
}

/// An enclosure, by its values.
pub struct EnclosureView {
    pub url: Seq<char>,
    pub length: Seq<char>,
    pub mime_type: Seq<char>,
}

/// A guid, by its values.
pub struct GuidView {
    pub value: Seq<char>,
    pub permalink: bool,
}

/// iTunes tags, by their values.
pub struct ItunesView {
    pub episode: Option<Seq<char>>,
    pub duration: Option<Seq<char>>,
    pub image: Option<Seq<char>>,
}

/// An item, by its values.
pub struct ItemView {
    pub title: Seq<char>,
    pub pub_date: Option<Seq<char>>,
    pub enclosure: Option<EnclosureView>,
    pub guid: Option<GuidView>,
    pub itunes: Option<ItunesView>,
}

/// A channel without its items, by its values.
#[verifier::ext_equal]
pub struct HeadView {
    pub title: Seq<char>,
    pub link: Seq<char>,
    pub description: Seq<char>,
    pub language: Seq<char>,
    pub pub_date: Seq<char>,
    pub last_build_date: Seq<char>,
    pub author: Option<Seq<char>>,
    pub image: Option<Seq<char>>,
    pub summary: Option<Seq<char>>,
    pub block: Seq<char>,
    pub namespaces: Seq<(Seq<char>, Seq<char>)>,
}

impl FeedItem {
    pub open spec fn view(self) -> ItemView {
        ItemView {
            title: self.title@,
            pub_date: opt_text(self.pub_date),
            enclosure: match self.enclosure {
                Some(e) => Some(
                    EnclosureView { url: e.url@, length: e.length@, mime_type: e.mime_type@ },
                ),
                None => None,
            },
            guid: match self.guid {
                Some(g) => Some(GuidView { value: g.value@, permalink: g.permalink }),
                None => None,
            },
            itunes: match self.itunes {
                Some(t) => Some(
                    ItunesView {
                        episode: opt_text(t.episode),
                        duration: opt_text(t.duration),
                        image: opt_text(t.image),
                    },
                ),
                None => None,
            },
        }
    }
}

impl ChannelHead {
    pub open spec fn view(self) -> HeadView {
        HeadView {
            title: self.title@,
            link: self.link@,
            description: self.description@,
            language: self.language@,
            pub_date: self.pub_date@,
            last_build_date: self.last_build_date@,
            author: opt_text(self.author),
            image: opt_text(self.image),
            summary: opt_text(self.summary),
            block: self.block@,
            namespaces: self.namespaces@.map_values(|p: (String, String)| (p.0@, p.1@)),
        }
    }
}

/// The values of items.
pub open spec fn item_views(items: Seq<FeedItem>) -> Seq<ItemView> {
    items.map_values(|i: FeedItem| i.view())
}

/// The item of an episode: its recorded guid and date as they stand, its real size, its number
/// and its duration.
pub open spec fn item_of(ep: FeedEpisode, cover: Option<Seq<char>>) -> ItemView {
    ItemView {
        title: ep.title@,
        pub_date: Some(date_text(ep.pubdate_epoch)),
        enclosure: Some(
            EnclosureView {
                url: ep.audio_url@,
                length: dec(ep.byte_length as nat),
                mime_type: ep.mime_type@,
            },
        ),
        guid: Some(GuidView { value: ep.guid@, permalink: false }),
        itunes: Some(
            ItunesView {
                episode: Some(dec((ep.idx + 1) as nat)),
                duration: Some(duration_text(ep.duration as int)),
                image: cover,
            },
        ),
    }
}

/// The items of a book, in chapter order.
pub open spec fn items_of(book: FeedBook) -> Seq<ItemView> {
    book.episodes@.map_values(|ep: FeedEpisode| item_of(ep, opt_text(book.cover_url)))
}

/// The newest date among the first `n` episodes; `otherwise` if there are none.
pub open spec fn newest(episodes: Seq<FeedEpisode>, n: nat, otherwise: i64) -> i64
    decreases n,
{
    if n == 0 {
        otherwise
    } else if n == 1 {
        episodes[0].pubdate_epoch
    } else {
        let rest = newest(episodes, (n - 1) as nat, otherwise);
        if episodes[n - 1].pubdate_epoch > rest {
            episodes[n - 1].pubdate_epoch
        } else {
            rest
        }
    }
}

/// The date of a channel: that of its newest episode, else the source's.
pub open spec fn channel_date(book: FeedBook) -> i64 {
    newest(book.episodes@, book.episodes@.len(), book.source_mtime)
}

/// The channel of a book, without its items. Feeds are private, so every one asks directories
/// not to list it.
pub open spec fn head_of(book: FeedBook) -> HeadView {
    HeadView {
        title: book.title@,
        link: book.self_url@,
        description: match book.description {
            Some(d) => d@,
            None => book.title@,
        },
        language: "en"@,
        pub_date: date_text(channel_date(book)),
        last_build_date: date_text(channel_date(book)),
        author: opt_text(book.author),
        image: opt_text(book.cover_url),
        summary: opt_text(book.description),
        block: "Yes"@,
        namespaces: seq![("podcast"@, PODCAST_NS@)],
    }
}

/// Whether every episode has a number.
pub open spec fn numbers_fit(book: FeedBook) -> bool {
    forall|i: int| 0 <= i < book.episodes@.len() ==> (#[trigger] book.episodes@[i]).idx < usize::MAX
}

/// Whether the dates of a built channel read back as those of the episodes that can be written.
pub open spec fn dates_read_back(items: Seq<ItemView>, episodes: Seq<FeedEpisode>) -> bool {
    forall|i: int|
        0 <= i < episodes.len() && FIRST_DATE <= (#[trigger] episodes[i]).pubdate_epoch <= LAST_DATE
            ==> rfc2822_epoch(items[i].pub_date->0) == Some(episodes[i].pubdate_epoch)
}

/// Whether an item tells of an episode what is on record of it, field by field.
pub open spec fn tells_of(item: FeedItem, ep: FeedEpisode, cover: Option<String>) -> bool {
    &&& item.title@ == ep.title@
    &&& item.guid is Some && item.guid->0.value@ == ep.guid@ && !item.guid->0.permalink
    &&& item.enclosure is Some
    &&& item.enclosure->0.url@ == ep.audio_url@
    &&& item.enclosure->0.length@ == dec(ep.byte_length as nat)
    &&& item.enclosure->0.mime_type@ == ep.mime_type@
    &&& item.itunes is Some
    &&& item.itunes->0.episode is Some && item.itunes->0.episode->0@ == dec((ep.idx + 1) as nat)
    &&& item.itunes->0.duration is Some && item.itunes->0.duration->0@ == duration_text(ep.duration as int)
    &&& opt_text(item.itunes->0.image) == opt_text(cover)
    &&& item.pub_date is Some && item.pub_date->0@ == date_text(ep.pubdate_epoch)
}

fn build_item(ep: &FeedEpisode, cover: &Option<String>) -> (r: FeedItem)
    requires
        ep.idx < usize::MAX,
    ensures
        r.view() == item_of(*ep, opt_text(*cover)),
        FIRST_DATE <= ep.pubdate_epoch <= LAST_DATE ==> rfc2822_epoch(r.view().pub_date->0) == Some(
            ep.pubdate_epoch,
        ),
        tells_of(r, *ep, *cover),
{
    FeedItem {
        title: ep.title.clone(),
        pub_date: Some(format_rfc2822(ep.pubdate_epoch)),
        enclosure: Some(
            Enclosure {
                url: ep.audio_url.clone(),
                length: dec_string(ep.byte_length as u128),
                mime_type: ep.mime_type.clone(),
            },
        ),
        guid: Some(Guid { value: ep.guid.clone(), permalink: false }),
        itunes: Some(
            ItunesTags {
                episode: Some(dec_string((ep.idx + 1) as u128)),
                duration: Some(format_itunes_duration(ep.duration)),
                image: clone_opt(cover),
            },
        ),
    }
}

fn newest_date(book: &FeedBook) -> (r: i64)
    ensures
        r == channel_date(*book),
{
    let mut best: i64 = book.source_mtime;
    let mut i: usize = 0;
    while i < book.episodes.len()
        invariant
            i <= book.episodes.len(),
            best == newest(book.episodes@, i as nat, book.source_mtime),
        decreases book.episodes.len() - i,
    {
        let e = book.episodes[i].pubdate_epoch;
        if i == 0 || e > best {
            best = e;
        }
        i = i + 1;
    }
    best
}

/// Builds the channel of a book: its items in chapter order, each with the guid and the date that
/// were recorded at ingest.
pub fn build_channel(book: &FeedBook) -> (r: Channel)
    requires
        numbers_fit(*book),
    ensures
        item_views(r.items@) == items_of(*book),
        r.head.view() == head_of(*book),
        dates_read_back(item_views(r.items@), book.episodes@),
        r.items@.len() == book.episodes@.len(),
        forall|i: int|
            0 <= i < book.episodes@.len() ==> {
                let ep = book.episodes@[i];
                &&& (#[trigger] r.items@[i]).title@ == ep.title@
                &&& r.items@[i].guid is Some
                &&& r.items@[i].guid->0.value@ == ep.guid@
                &&& !r.items@[i].guid->0.permalink
                &&& r.items@[i].enclosure is Some
                &&& r.items@[i].enclosure->0.url@ == ep.audio_url@
                &&& r.items@[i].enclosure->0.length@ == dec(ep.byte_length as nat)
                &&& r.items@[i].enclosure->0.mime_type@ == ep.mime_type@
                &&& r.items@[i].itunes is Some
                &&& r.items@[i].itunes->0.episode is Some
                &&& r.items@[i].itunes->0.episode->0@ == dec((ep.idx + 1) as nat)
                &&& r.items@[i].itunes->0.duration is Some
                &&& r.items@[i].itunes->0.duration->0@ == duration_text(ep.duration as int)
                &&& opt_text(r.items@[i].itunes->0.image) == opt_text(book.cover_url)
                &&& r.items@[i].pub_date is Some
                &&& r.items@[i].pub_date->0@ == date_text(ep.pubdate_epoch)
            },
        r.head.title@ == book.title@,
        r.head.link@ == book.self_url@,
        book.description is Some ==> r.head.description@ == book.description->0@,
        book.description is None ==> r.head.description@ == book.title@,
        r.head.language@ == "en"@,
        opt_text(r.head.author) == opt_text(book.author),
        opt_text(r.head.image) == opt_text(book.cover_url),
        opt_text(r.head.summary) == opt_text(book.description),
        r.head.block@ == "Yes"@,
        r.head.last_build_date@ == r.head.pub_date@,
{
    let mut items: Vec<FeedItem> = Vec::new();
    let mut i: usize = 0;
    while i < book.episodes.len()
        invariant
            i <= book.episodes.len(),
            numbers_fit(*book),
            items@.len() == i,
            forall|j: int|
                0 <= j < i ==> (#[trigger] items@[j]).view() == item_of(
                    book.episodes@[j],
                    opt_text(book.cover_url),
                ),
            forall|j: int|
                0 <= j < i ==> tells_of(#[trigger] items@[j], book.episodes@[j], book.cover_url),
            forall|j: int|
                0 <= j < i && FIRST_DATE <= (#[trigger] book.episodes@[j]).pubdate_epoch <= LAST_DATE
                    ==> rfc2822_epoch(items@[j].view().pub_date->0) == Some(book.episodes@[j].pubdate_epoch),
        decreases book.episodes.len() - i,
    {
        items.push(build_item(&book.episodes[i], &book.cover_url));
        i = i + 1;
    }
    assert(item_views(items@) =~= items_of(*book));
    let date = newest_date(book);
    let namespaces = vec![("podcast".to_owned(), PODCAST_NS.to_owned())];
    let head = ChannelHead {
        title: book.title.clone(),
        link: book.self_url.clone(),
        description: match &book.description {
            Some(d) => d.clone(),
            None => book.title.clone(),
        },
        language: "en".to_owned(),
        pub_date: format_rfc2822(date),
        last_build_date: format_rfc2822(date),
        author: clone_opt(&book.author),
        image: clone_opt(&book.cover_url),
        summary: clone_opt(&book.description),
        block: "Yes".to_owned(),
        namespaces,
    };
    assert(head.view().namespaces =~= seq![("podcast"@, PODCAST_NS@)]);
    Channel { head, items }
}

/// The item of each episode tells its title, guid, address, size, type, number and length, each in
/// its own place.
pub proof fn law_items_tell_of_their_episodes(book: FeedBook, i: int)
    requires
        0 <= i < book.episodes@.len(),
    ensures
        items_of(book).len() == book.episodes@.len(),
        ({
            let ep = book.episodes@[i];
            let item = items_of(book)[i];
            &&& item.title == ep.title@
            &&& item.guid is Some && item.guid->0.value == ep.guid@ && !item.guid->0.permalink
            &&& item.enclosure is Some
            &&& item.enclosure->0.url == ep.audio_url@
            &&& item.enclosure->0.mime_type == ep.mime_type@
            &&& all_digits(item.enclosure->0.length) && nat_of(item.enclosure->0.length) == ep.byte_length
            &&& item.itunes is Some && item.itunes->0.episode is Some
            &&& all_digits(item.itunes->0.episode->0) && nat_of(item.itunes->0.episode->0) == ep.idx + 1
            &&& item.itunes->0.duration == Some(duration_text(ep.duration as int))
            &&& item.itunes->0.image == opt_text(book.cover_url)
            &&& item.pub_date == Some(date_text(ep.pubdate_epoch))
        }),
{
    lemma_dec_round_trip(book.episodes@[i].byte_length as nat);
    lemma_dec_round_trip((book.episodes@[i].idx + 1) as nat);
}

/// A feed tells its book's title, author, description, cover and its own address; it is not to be
/// listed. Without a description it shows the title.
pub proof fn law_head_tells_of_its_book(book: FeedBook)
    ensures
        head_of(book).title == book.title@,
        head_of(book).link == book.self_url@,
        head_of(book).author == opt_text(book.author),
        head_of(book).image == opt_text(book.cover_url),
        head_of(book).summary == opt_text(book.description),
        book.description is Some ==> head_of(book).description == book.description->0@,
        book.description is None ==> head_of(book).description == book.title@,
        head_of(book).block == "Yes"@,
        head_of(book).language == "en"@,
        head_of(book).pub_date == head_of(book).last_build_date,
        head_of(book).namespaces == seq![("podcast"@, "https://podcastindex.org/namespace/1.0"@)],
{
}

proof fn lemma_newest(episodes: Seq<FeedEpisode>, n: nat, otherwise: i64)
    requires
        0 < n <= episodes.len(),
    ensures
        forall|i: int| 0 <= i < n ==> (#[trigger] episodes[i]).pubdate_epoch <= newest(episodes, n, otherwise),
        exists|i: int| 0 <= i < n && (#[trigger] episodes[i]).pubdate_epoch == newest(episodes, n, otherwise),
    decreases n,
{
    if n == 1 {
        assert(episodes[0].pubdate_epoch == newest(episodes, n, otherwise));
    } else {
        lemma_newest(episodes, (n - 1) as nat, otherwise);
        let rest = newest(episodes, (n - 1) as nat, otherwise);
        let i = choose|i: int| 0 <= i < n - 1 && (#[trigger] episodes[i]).pubdate_epoch == rest;
        let k = if episodes[n - 1].pubdate_epoch > rest {
            n - 1
        } else {
            i
        };
        assert(episodes[k].pubdate_epoch == newest(episodes, n, otherwise));
    }
}

/// A feed carries the date of its newest episode: none is later, and one has it. A feed without
/// episodes carries the time of its source.
pub proof fn law_feed_is_as_new_as_its_newest_episode(book: FeedBook)
    ensures
        book.episodes@.len() == 0 ==> head_of(book).pub_date == date_text(book.source_mtime),
        book.episodes@.len() > 0 ==> exists|i: int|
            {
                &&& 0 <= i < book.episodes@.len()
                &&& head_of(book).pub_date == date_text((#[trigger] book.episodes@[i]).pubdate_epoch)
                &&& forall|j: int|
                    0 <= j < book.episodes@.len() ==> (#[trigger] book.episodes@[j]).pubdate_epoch
                        <= book.episodes@[i].pubdate_epoch
            },
{
    let eps = book.episodes@;
    if eps.len() > 0 {
        lemma_newest(eps, eps.len(), book.source_mtime);
        let i = choose|i: int|
            0 <= i < eps.len() && (#[trigger] eps[i]).pubdate_epoch == newest(eps, eps.len(), book.source_mtime);
        assert(head_of(book).pub_date == date_text(eps[i].pubdate_epoch));
    }
}

/// The XML of a channel.
pub open spec fn channel_xml(head: HeadView, items: Seq<ItemView>) -> Seq<char> {
    rss_xml(head, items.map_values(|i: ItemView| rss_item(i)))
}

/// Prints a channel as XML.
pub fn to_xml(channel: Channel) -> (r: String)
    ensures
        r@ == channel_xml(channel.head.view(), item_views(channel.items@)),
        r@ == rss_xml(
            channel.head.view(),
            Seq::new(channel.items@.len(), |i: int| rss_item(channel.items@[i].view())),
        ),
{
    let Channel { head, items } = channel;
    let ghost want = item_views(items@).map_values(|i: ItemView| rss_item(i));
    let mut out: Vec<rss::Item> = Vec::new();
    for item in iter: items
        invariant
            iter.seq() == items@,
            out@ == want.take(iter.index() as int),
            want == item_views(items@).map_values(|i: ItemView| rss_item(i)),
    {
        let ghost k = iter.index() as int;
        out.push(to_rss_item(item));
        assert(want.take(k + 1) =~= want.take(k).push(want[k]));
    }
    assert(want.take(want.len() as int) =~= want);
    assert(want =~= Seq::new(items@.len(), |i: int| rss_item(items@[i].view())));
    print_rss(head, out)
}

/// Prints the feed of a book as XML.
pub fn render(book: &FeedBook) -> (r: String)
    requires
        numbers_fit(*book),
    ensures
        r@ == channel_xml(head_of(*book), items_of(*book)),
{
    to_xml(build_channel(book))
}

// ---- Serving only what is sound -------------------------------------------

/// Whether a book makes a feed that podcast apps play in order: it has episodes, each with audio
/// and an address, chapters and dates both increase, and the dates can be written.
pub open spec fn is_sound(book: FeedBook) -> bool {
    let eps = book.episodes@;
    &&& eps.len() > 0
    &&& forall|i: int|
        0 <= i < eps.len() ==> {
            &&& FIRST_DATE <= (#[trigger] eps[i]).pubdate_epoch <= LAST_DATE
            &&& eps[i].byte_length > 0
            &&& trim(eps[i].audio_url@).len() > 0
            &&& eps[i].idx < i64::MAX
        }
    &&& forall|i: int, j: int|
        0 <= i < j < eps.len() ==> (#[trigger] eps[i]).idx < (#[trigger] eps[j]).idx
            && eps[i].pubdate_epoch < eps[j].pubdate_epoch
}

proof fn lemma_dec_reads_back(n: nat)
    requires
        n <= i64::MAX,
    ensures
        trim(dec(n)) == dec(n),
        signed_value(dec(n)) == Some(n as int),
        dec(n).len() > 0,
{
    lemma_dec_round_trip(n);
    let d = dec(n);
    assert(is_digit(d[0]));
    assert(is_digit(d[d.len() - 1]));
    lemma_trim_stays(d);
    assert(unsigned_digits(d) == d);
}

proof fn lemma_duration_is_no_blank(ticks: int)
    ensures
        trim(duration_text(ticks)).len() > 0,
{
    let s = whole_seconds(ticks);
    let h = zero_pad(dec(s / 3600), 2);
    let m = zero_pad(dec(s % 3600 / 60), 2);
    let z = zero_pad(dec(s % 60), 2);
    lemma_padded_digits(s / 3600, 2);
    lemma_padded_digits(s % 60, 2);
    let d = duration_text(ticks);
    assert(d[0] == h[0] && is_digit(h[0]));
    assert(d.last() == z[z.len() - 1] && is_digit(z[z.len() - 1]));
    lemma_trim_stays(d);
}

proof fn lemma_sound_item(ep: FeedEpisode, cover: Option<Seq<char>>, idx: int)
    requires
        FIRST_DATE <= ep.pubdate_epoch <= LAST_DATE,
        ep.byte_length > 0,
        trim(ep.audio_url@).len() > 0,
        ep.idx < i64::MAX,
        rfc2822_epoch(item_of(ep, cover).pub_date->0) == Some(ep.pubdate_epoch),
    ensures
        item_faults(item_of(ep, cover), idx).len() == 0,
        episode_of(item_of(ep, cover)) == Some(ep.idx + 1),
        epoch_of(item_of(ep, cover)) == Some(ep.pubdate_epoch),
{
    let n = ep.byte_length as nat;
    lemma_dec_round_trip(n);
    let d = dec(n);
    assert(is_digit(d[0]));
    assert(is_digit(d[d.len() - 1]));
    lemma_trim_stays(d);
    assert(d != "0"@) by {
        reveal_strlit("0");
        if d == "0"@ {
            assert(d.drop_last() =~= Seq::empty());
            assert(d.last() == '0');
            assert(nat_of(d) == nat_of(Seq::<char>::empty()) * 10 + 0);
        }
    }
    lemma_dec_reads_back((ep.idx + 1) as nat);
    lemma_duration_is_no_blank(ep.duration as int);
}

proof fn lemma_sound_items(book: FeedBook, n: nat)
    requires
        is_sound(book),
        dates_read_back(items_of(book), book.episodes@),
        n <= book.episodes@.len(),
    ensures
        items_faults(items_of(book), n).len() == 0,
        dated(items_of(book), n).len() == n,
        forall|i: int|
            0 <= i < n ==> #[trigger] dated(items_of(book), n)[i] == (
                book.episodes@[i].idx + 1,
                book.episodes@[i].pubdate_epoch as int,
            ),
    decreases n,
{
    if n > 0 {
        lemma_sound_items(book, (n - 1) as nat);
        let ep = book.episodes@[n - 1];
        assert(items_of(book)[n - 1] == item_of(ep, opt_text(book.cover_url)));
        lemma_sound_item(ep, opt_text(book.cover_url), n - 1);
    }
}

proof fn lemma_no_order_faults(pairs: Seq<(int, int)>, order: Seq<int>, n: nat)
    requires
        n <= pairs.len(),
        order == Seq::new(pairs.len(), |i: int| i),
        forall|i: int, j: int| 0 <= i < j < pairs.len() ==> (#[trigger] pairs[i]).1 < (#[trigger] pairs[j]).1,
    ensures
        order_faults(pairs, order, n).len() == 0,
    decreases n,
{
    if n > 1 {
        lemma_no_order_faults(pairs, order, (n - 1) as nat);
        assert(pairs[n - 2].1 < pairs[n - 1].1);
    }
}

proof fn lemma_sound_channel(book: FeedBook)
    requires
        is_sound(book),
        dates_read_back(items_of(book), book.episodes@),
    ensures
        channel_faults(items_of(book)).len() == 0,
{
    let n = book.episodes@.len();
    let pairs = dated(items_of(book), n);
    lemma_sound_items(book, n);
    let le = by_number(numbers(pairs));
    assert forall|i: int, j: int| 0 <= i < j < n implies #[trigger] le(i, j) by {
        assert(pairs[i] == (book.episodes@[i].idx + 1, book.episodes@[i].pubdate_epoch as int));
        assert(pairs[j] == (book.episodes@[j].idx + 1, book.episodes@[j].pubdate_epoch as int));
        assert(book.episodes@[i].idx < book.episodes@[j].idx);
    }
    lemma_sorted_stays(le, n);
    assert forall|i: int, j: int| 0 <= i < j < n implies (#[trigger] pairs[i]).1 < (#[trigger] pairs[j]).1 by {
        assert(book.episodes@[i].pubdate_epoch < book.episodes@[j].pubdate_epoch);
    }
    lemma_no_order_faults(pairs, stable_order(le, n), n);
}

/// Builds, checks and prints the feed of a book. XML comes out only of a channel without faults;
/// a sound book always makes one.
pub fn render_checked(book: &FeedBook) -> (r: Result<String, Vec<SelfCheckError>>)
    requires
        numbers_fit(*book),
    ensures
        match r {
            Ok(xml) => {
                &&& channel_faults(items_of(*book)).len() == 0
                &&& xml@ == channel_xml(head_of(*book), items_of(*book))
            },
            Err(errors) => {
                &&& faults(errors@) == channel_faults(items_of(*book))
                &&& errors@.len() > 0
            },
        },
        is_sound(*book) ==> r is Ok,
{
    let channel = build_channel(book);
    proof {
        if is_sound(*book) {
            lemma_sound_channel(*book);
        }
    }
    match check(&channel) {
        Ok(_) => Ok(to_xml(channel)),
        Err(errors) => {
            assert(faults(errors@).len() == errors@.len());
            Err(errors)
        },
    }
}

} // verus!
