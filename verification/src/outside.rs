//! The calls into other crates, each with what is taken for granted of it.

use vstd::prelude::*;
use crate::feed::{ChannelHead, FeedItem, HeadView, ItemView};
use time::format_description::well_known::Rfc2822;
use time::OffsetDateTime;

verus! {

// ---- std ------------------------------------------------------------------

/// A text in quotes, with what cannot be shown escaped, as `Debug` for `str` writes it.
pub uninterp spec fn debug_text(s: Seq<char>) -> Seq<char>;

/// `Debug` for `str`, through `format!`. It depends on the text alone.
#[verifier::external_body]
pub(crate) fn quoted(s: &str) -> (r: String)
    ensures
        r@ == debug_text(s@),
{
    format!("{s:?}")
}

// ---- blake3 ---------------------------------------------------------------

/// What `blake3::hash` gives for some bytes, in hexadecimal.
pub uninterp spec fn blake3_hex(data: Seq<u8>) -> Seq<char>;

/// A hexadecimal digit, lower case.
pub open spec fn is_hex(c: char) -> bool {
    ('0' <= c && c <= '9') || ('a' <= c && c <= 'f')
}

/// `blake3::hash`, its result written out by `Hash::to_hex`. The hash depends on the bytes alone;
/// it comes out as 64 hexadecimal digits in lower case.
#[verifier::external_body]
pub(crate) fn hash_hex(data: &[u8]) -> (r: String)
    ensures
        r@ == blake3_hex(data@),
        r@.len() == 64,
        forall|i: int| 0 <= i < r@.len() ==> is_hex(#[trigger] r@[i]),
{
    blake3::hash(data).to_hex().to_string()
}

// ---- time -----------------------------------------------------------------

/// The date that `OffsetDateTime::format` writes for a Unix timestamp under RFC 2822.
pub uninterp spec fn rfc2822_text(epoch: i64) -> Seq<char>;

/// The Unix timestamp that `OffsetDateTime::parse` reads from a text under RFC 2822.
pub uninterp spec fn rfc2822_epoch(text: Seq<char>) -> Option<i64>;

/// 1900-01-01 00:00:00 UTC: no earlier date can be written under RFC 2822.
pub const FIRST_DATE: i64 = -2_208_988_800;

/// 9999-12-31 23:59:59 UTC: the last date with a year of four digits.
pub const LAST_DATE: i64 = 253_402_300_799;

/// `OffsetDateTime::from_unix_timestamp` and `OffsetDateTime::format` with `Rfc2822`: dates from
/// 1900 to 9999 are written, others are refused, and `OffsetDateTime::parse` reads the timestamp
/// back from what was written.
#[verifier::external_body]
pub(crate) fn write_date(epoch: i64) -> (r: Option<String>)
    ensures
        r is Some <==> FIRST_DATE <= epoch <= LAST_DATE,
        r is Some ==> r->0@ == rfc2822_text(epoch),
        r is Some ==> rfc2822_epoch(r->0@) == Some(epoch),
{
    OffsetDateTime::from_unix_timestamp(epoch).ok()?.format(&Rfc2822).ok()
}

/// `OffsetDateTime::parse` with `Rfc2822`, its result as a Unix timestamp; `None` where it refuses
/// the text.
#[verifier::external_body]
pub(crate) fn read_date(text: &str) -> (r: Option<i64>)
    ensures
        r == rfc2822_epoch(text@),
{
    OffsetDateTime::parse(text, &Rfc2822).ok().map(|d| d.unix_timestamp())
}

// ---- rss ------------------------------------------------------------------

/// An `rss::Item`, which the library builds and hands on.
#[verifier::external_type_specification]
#[verifier::external_body]
pub struct ExRssItem(rss::Item);

/// The `rss::Item` with the given fields.
pub uninterp spec fn rss_item(item: ItemView) -> rss::Item;

/// What `rss::Channel` prints with the given fields and items.
pub uninterp spec fn rss_xml(head: HeadView, items: Seq<rss::Item>) -> Seq<char>;

/// An `rss::Item` with the title, date, enclosure, guid and iTunes tags of `item`, and nothing
/// else. It depends on these alone.
#[verifier::external_body]
pub(crate) fn to_rss_item(item: FeedItem) -> (r: rss::Item)
    ensures
        r == rss_item(item.view()),
{
    let mut r = rss::Item::default();
    r.title = Some(item.title);
    r.pub_date = item.pub_date;
    r.enclosure = item.enclosure.map(|e| rss::Enclosure { url: e.url, length: e.length, mime_type: e.mime_type });
    r.guid = item.guid.map(|g| rss::Guid { value: g.value, permalink: g.permalink });
    r.itunes_ext = item.itunes.map(|t| rss::extension::itunes::ITunesItemExtension {
        episode: t.episode,
        duration: t.duration,
        image: t.image,
        ..Default::default()
    });
    r
}

/// What an `rss::Channel` with the fields of `head` and the items `items` prints: its `Display`.
/// It depends on these alone.
#[verifier::external_body]
pub(crate) fn print_rss(head: ChannelHead, items: Vec<rss::Item>) -> (r: String)
    ensures
        r@ == rss_xml(head.view(), items@),
{
    let mut c = rss::Channel { title: head.title, link: head.link, ..Default::default() };
    c.description = head.description;
    c.language = Some(head.language);
    c.pub_date = Some(head.pub_date);
    c.last_build_date = Some(head.last_build_date);
    c.itunes_ext = Some(rss::extension::itunes::ITunesChannelExtension {
        author: head.author,
        image: head.image,
        summary: head.summary,
        block: Some(head.block),
        ..Default::default()
    });
    c.namespaces = head.namespaces.into_iter().collect();
    c.items = items;
    c.to_string()
}

// ---- qrcode ---------------------------------------------------------------

/// The SVG that `QrCode` renders for some bytes at a least size in pixels; `None` where the bytes
/// do not fit a QR code.
pub uninterp spec fn qr_image(data: Seq<u8>, px: u32) -> Option<Seq<char>>;

/// `QrCode::new`, and its `render` to SVG with `min_dimensions` and a quiet zone. It depends on
/// the bytes and the size alone. The size is bounded, since the renderer adds up to 184 to it.
#[verifier::external_body]
pub(crate) fn qr_picture(data: &[u8], px: u32) -> (r: Option<String>)
    requires
        px <= 4_000_000_000,
    ensures
        crate::text::opt_text(r) == qr_image(data@, px),
{
    let code = qrcode::QrCode::new(data).ok()?;
    Some(code.render::<qrcode::render::svg::Color>().min_dimensions(px, px).quiet_zone(true).build())
}

// ---- getrandom and base64 -------------------------------------------------

/// `getrandom::fill` on sixteen bytes; `None` where the system has no randomness to give. Nothing
/// is known of the bytes.
#[verifier::external_body]
pub(crate) fn random_bytes() -> (r: Option<[u8; 16]>)
{
    let mut buf = [0u8; 16];
    getrandom::fill(&mut buf).ok()?;
    Some(buf)
}

/// A character of the URL-safe base64 alphabet.
pub open spec fn base64_char(n: int) -> char {
    if n < 26 {
        (0x41 + n) as u8 as char
    } else if n < 52 {
        (0x61 + n - 26) as u8 as char
    } else if n < 62 {
        (0x30 + n - 52) as u8 as char
    } else if n == 62 {
        '-'
    } else {
        '_'
    }
}

/// The byte at place `i`; 0 beyond the end.
pub open spec fn byte_or_zero(data: Seq<u8>, i: int) -> int {
    if i < data.len() {
        data[i] as int
    } else {
        0
    }
}

/// The number of six bits that character `i` stands for: three bytes make four of them.
pub open spec fn sextet(data: Seq<u8>, i: int) -> int {
    let g = i / 4 * 3;
    let bits = byte_or_zero(data, g) * 0x1_0000 + byte_or_zero(data, g + 1) * 0x100 + byte_or_zero(
        data,
        g + 2,
    );
    let k = i % 4;
    if k == 0 {
        bits / 0x4_0000
    } else if k == 1 {
        bits / 0x1000 % 64
    } else if k == 2 {
        bits / 64 % 64
    } else {
        bits % 64
    }
}

/// The URL-safe base64 text of some bytes, without padding.
pub open spec fn base64_text(data: Seq<u8>) -> Seq<char> {
    Seq::new((data.len() * 8 + 5) / 6, |i: int| base64_char(sextet(data, i)))
}

/// `Engine::encode` of base64's `URL_SAFE_NO_PAD`: six bits a character, the last filled up with
/// zeros, no padding.
#[verifier::external_body]
pub(crate) fn base64_url(data: &[u8; 16]) -> (r: String)
    ensures
        r@ == base64_text(data@),
{
    base64::Engine::encode(&base64::engine::general_purpose::URL_SAFE_NO_PAD, data)
}

} // verus!
