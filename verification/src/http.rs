//! What the server answers: which keys it accepts, which file an episode is
//! served from, what a feed says, and what leaves the cache.
//!
//! Pages are reached by slugs; feeds, audio and covers by ids that cannot be
//! guessed. A path never comes from a request: it comes from the index, and is
//! served only if it really lies under one of two trusted directories.

use vstd::prelude::*;
use vstd::string::StringExecFns;
use crate::index::capability::{is_feed_id, is_id_char};
use crate::index::BookRow;
use crate::metrics::ErrorKind;
use crate::outside::{blake3_hex, hash_hex, is_hex};
use crate::paths::{ext_lower, is_under, join_from, join_names, lower_extension, names, path_is_under};
use crate::text::{chars_are, chars_of, find_from, index_from, is_white, lemma_index_from, lemma_split_at_last, lemma_split_at_least_one, lemma_split_joined, lemma_trim_stays, opt_str, opt_text, slice_of, split, split_at_each, starts_with, str_eq, string_from, string_of, trim, trim_start, trimmed};
use crate::ui::{theme_name, theme_named, BookCard, BookDetail, Theme};

pub mod audio;
pub mod cache;
pub mod feeds;
pub mod requests;

verus! {

/// Requests that are worked on at once, before others wait.
pub const MAX_INFLIGHT_REQUESTS: usize = 512;

// ---- Errors ---------------------------------------------------------------

/// Why a request fails. Nothing of the cause is shown to the client.
#[derive(Debug, Clone, Copy, PartialEq, Eq, Structural)]
pub enum AppError {
    NotFound,
    Forbidden,
    Internal,
}

impl AppError {
    /// The status that the client gets.
    pub fn status(self) -> (r: u16)
        ensures
            r == match self {
                AppError::NotFound => 404u16,
                AppError::Forbidden => 403u16,
                AppError::Internal => 500u16,
            },
    {
        match self {
            AppError::NotFound => 404,
            AppError::Forbidden => 403,
            AppError::Internal => 500,
        }
    }

    /// What the failure is counted as.
    pub fn kind(self) -> (r: ErrorKind)
        ensures
            r == match self {
                AppError::NotFound => ErrorKind::NotFound,
                AppError::Forbidden => ErrorKind::Forbidden,
                AppError::Internal => ErrorKind::Internal,
            },
    {
        match self {
            AppError::NotFound => ErrorKind::NotFound,
            AppError::Forbidden => ErrorKind::Forbidden,
            AppError::Internal => ErrorKind::Internal,
        }
    }
}

// ---- Keys -----------------------------------------------------------------

/// Whether a character may stand in a slug.
pub open spec fn is_slug_char(c: char) -> bool {
    ('a' <= c && c <= 'z') || ('0' <= c && c <= '9') || c == '-'
}

/// Whether `s` can be a slug: not empty, and made of small letters, digits and `-`.
pub open spec fn is_slug(s: Seq<char>) -> bool {
    &&& s.len() > 0
    &&& forall|i: int| 0 <= i < s.len() ==> is_slug_char(#[trigger] s[i])
}

/// Whether a slug may be looked up. `..`, separators, dots and capitals are refused before they
/// reach the index or a disk.
pub fn valid_slug(slug: &str) -> (r: bool)
    ensures
        r == is_slug(slug@),
        r <==> slug@.len() > 0 && forall|i: int|
            0 <= i < slug@.len() ==> ('a' <= #[trigger] slug@[i] && slug@[i] <= 'z') || ('0' <= slug@[i] && slug@[i]
                <= '9') || slug@[i] == '-',
{
    let v = chars_of(slug);
    let mut i: usize = 0;
    while i < v.len()
        invariant
            i <= v.len(),
            v@ == slug@,
            forall|j: int| 0 <= j < i ==> is_slug_char(#[trigger] v@[j]),
        decreases v.len() - i,
    {
        let c = v[i];
        if !(('a' <= c && c <= 'z') || ('0' <= c && c <= '9') || c == '-') {
            assert(!is_slug_char(v@[i as int]));
            return false;
        }
        i = i + 1;
    }
    v.len() > 0
}

/// Whether the id of a feed may be looked up: not empty, at most 64 characters, all of the
/// URL-safe alphabet.
pub fn valid_feed_id(id: &str) -> (r: bool)
    ensures
        r == is_feed_id(id@),
        r <==> 0 < id@.len() <= 64 && forall|i: int|
            0 <= i < id@.len() ==> ('A' <= #[trigger] id@[i] && id@[i] <= 'Z') || ('a' <= id@[i] && id@[i] <= 'z') || (
            '0' <= id@[i] && id@[i] <= '9') || id@[i] == '-' || id@[i] == '_',
{
    let v = chars_of(id);
    if v.len() == 0 || v.len() > 64 {
        return false;
    }
    let mut i: usize = 0;
    while i < v.len()
        invariant
            i <= v.len(),
            v@ == id@,
            forall|j: int| 0 <= j < i ==> is_id_char(#[trigger] v@[j]),
        decreases v.len() - i,
    {
        let c = v[i];
        if !(('A' <= c && c <= 'Z') || ('a' <= c && c <= 'z') || ('0' <= c && c <= '9') || c == '-' || c
            == '_') {
            assert(!is_id_char(v@[i as int]));
            return false;
        }
        i = i + 1;
    }
    true
}

/// The id in the last part of a feed's address, `<id>.xml`.
pub open spec fn feed_key_of(id_xml: Seq<char>) -> Option<Seq<char>> {
    if ".xml"@.is_suffix_of(id_xml) && is_feed_id(id_xml.take(id_xml.len() - ".xml"@.len())) {
        Some(id_xml.take(id_xml.len() - ".xml"@.len()))
    } else {
        None
    }
}

/// The id in the last part of a feed's address, `<id>.xml`; `None` if it is none.
pub fn feed_key(id_xml: &str) -> (r: Option<String>)
    ensures
        opt_text(r) == feed_key_of(id_xml@),
{
    let v = chars_of(id_xml);
    let tail = chars_of(".xml");
    if !crate::text::ends_with(&v, &tail) {
        return None;
    }
    let id = string_from(&v, 0, v.len() - tail.len());
    assert(id@ =~= v@.take(v@.len() - tail@.len()));
    if valid_feed_id(id.as_str()) {
        Some(id)
    } else {
        None
    }
}

/// No key that is accepted holds a `/`, a `.` or a `\`: none can lead out of a directory.
pub proof fn law_keys_hold_no_separator(s: Seq<char>, i: int)
    requires
        is_slug(s) || is_feed_id(s),
        0 <= i < s.len(),
    ensures
        s[i] != '/',
        s[i] != '.',
        s[i] != '\\',
{
    assert(is_slug(s) ==> is_slug_char(s[i]));
    assert(is_feed_id(s) ==> is_id_char(s[i]));
}

/// A feed is asked for by its id with `.xml` behind it, and by nothing else.
pub proof fn law_feeds_are_asked_for_by_id(id: Seq<char>, asked: Seq<char>)
    ensures
        is_feed_id(id) ==> feed_key_of(id + ".xml"@) == Some(id),
        feed_key_of(asked) == Some(id) ==> asked == id + ".xml"@ && is_feed_id(id),
{
    reveal_strlit(".xml");
    let all = id + ".xml"@;
    assert(all.take(all.len() - 4) =~= id);
    assert(".xml"@ =~= all.subrange(all.len() - 4, all.len() as int));
    if feed_key_of(asked) == Some(id) {
        assert(asked =~= asked.take(asked.len() - 4) + asked.subrange(asked.len() - 4, asked.len() as int));
    }
}

// ---- Headers --------------------------------------------------------------

/// The scheme and host of an address: its first three pieces between `/`s.
pub open spec fn origin_of(url: Seq<char>) -> Seq<char> {
    let pieces = split(url, '/');
    join_names(
        if pieces.len() <= 3 {
            pieces
        } else {
            pieces.take(3)
        },
        "/"@,
    )
}

fn origin(url: &str) -> (r: String)
    ensures
        r@ == origin_of(url@),
{
    let v = chars_of(url);
    let mut pieces = split_at_each(&v, '/');
    let ghost all = names(pieces@);
    assert(all == split(url@, '/'));
    if pieces.len() > 3 {
        pieces.truncate(3);
        assert(names(pieces@) =~= all.take(3));
    }
    assert(names(pieces@).skip(0) =~= names(pieces@));
    join_from(&pieces, 0, "/")
}

/// Whether a request that changes something came from the server's own pages. Browsers tell by
/// `Sec-Fetch-Site`, older ones by `Origin`; other clients send neither and are let through.
pub open spec fn is_same_origin(
    fetch_site: Option<Seq<char>>,
    origin: Option<Seq<char>>,
    base_url: Seq<char>,
) -> bool {
    match fetch_site {
        Some(s) => s == "same-origin"@ || s == "none"@,
        None => match origin {
            Some(o) => o == origin_of(base_url),
            None => true,
        },
    }
}

/// The origin of an address is its scheme and its host, whatever stands behind them.
pub proof fn law_origin_is_scheme_and_host(scheme: Seq<char>, host: Seq<char>, rest: Seq<char>)
    requires
        !scheme.contains('/'),
        !host.contains('/'),
    ensures
        ({
            let front = scheme + seq!['/', '/'] + host;
            &&& origin_of(front) == front
            &&& origin_of(front + seq!['/'] + rest) == front
        }),
{
    let none = Seq::<char>::empty();
    let front = scheme + seq!['/', '/'] + host;
    lemma_split_at_last(scheme, scheme, '/');
    lemma_split_at_last(scheme, none, '/');
    lemma_split_at_last(scheme + seq!['/'] + none, host, '/');
    assert(scheme + seq!['/'] + none + seq!['/'] + host =~= front);
    let parts = seq![scheme, none, host];
    assert(split(front, '/') =~= parts);
    lemma_split_joined(front, rest, '/');
    lemma_split_at_least_one(rest, '/');
    assert((parts + split(rest, '/')).take(3) =~= parts);
    reveal_strlit("/");
    assert("/"@ =~= seq!['/']);
    reveal_with_fuel(join_names, 4);
    assert(parts.drop_last() =~= seq![scheme, none]);
    assert(parts.drop_last().drop_last() =~= seq![scheme]);
    assert(join_names(parts, "/"@) =~= front);
}

/// A browser that says where a request comes from is believed; one that only names an origin must
/// name the server's; a client that does neither is let through.
pub proof fn law_changes_come_from_own_pages(origin: Option<Seq<char>>, scheme: Seq<char>, host: Seq<char>)
    requires
        !scheme.contains('/'),
        !host.contains('/'),
    ensures
        ({
            let base = scheme + seq!['/', '/'] + host;
            &&& is_same_origin(Some("cross-site"@), origin, base) == false
            &&& is_same_origin(Some("same-site"@), origin, base) == false
            &&& is_same_origin(Some("same-origin"@), origin, base)
            &&& is_same_origin(Some("none"@), origin, base)
            &&& origin is Some ==> (is_same_origin(None, origin, base) <==> origin->0 == base)
            &&& is_same_origin(None, None, base)
        }),
{
    law_origin_is_scheme_and_host(scheme, host, Seq::empty());
    reveal_strlit("cross-site");
    reveal_strlit("same-site");
    reveal_strlit("same-origin");
    reveal_strlit("none");
    assert("cross-site"@.len() == 10 && "same-site"@.len() == 9 && "same-origin"@.len() == 11 && "none"@.len() == 4);
}

/// Whether a request that changes something came from the server's own pages.
pub fn same_origin(fetch_site: Option<&str>, request_origin: Option<&str>, base_url: &str) -> (r: bool)
    ensures
        r == is_same_origin(opt_str(fetch_site), opt_str(request_origin), base_url@),
{
    match fetch_site {
        Some(s) => str_eq(s, "same-origin") || str_eq(s, "none"),
        None => match request_origin {
            Some(o) => {
                let base = origin(base_url);
                str_eq(o, base.as_str())
            },
            None => true,
        },
    }
}

/// The value of the first cookie named `theme` among the pieces from `from` on.
pub open spec fn theme_cookie_in(pieces: Seq<Seq<char>>, from: int) -> Option<Seq<char>>
    decreases pieces.len() - from,
{
    if from < 0 || from >= pieces.len() {
        None
    } else if "theme="@.is_prefix_of(trim(pieces[from])) {
        Some(trim(pieces[from]).skip("theme="@.len() as int))
    } else {
        theme_cookie_in(pieces, from + 1)
    }
}

/// A theme that was set is found again, alone or behind another cookie.
pub proof fn law_theme_cookie_is_found_again(theme: Theme, other: Seq<char>)
    requires
        theme != Theme::System,
        !other.contains(';'),
        !"theme="@.is_prefix_of(trim(other)),
    ensures
        cookie_theme(Some("theme="@ + theme_name(theme)->0)) == theme,
        cookie_theme(Some(other + seq![';', ' '] + "theme="@ + theme_name(theme)->0)) == theme,
        cookie_theme(Some(other)) == Theme::System,
        cookie_theme(None) == Theme::System,
{
    reveal_strlit("theme=");
    reveal_strlit("light");
    reveal_strlit("dark");
    let name = theme_name(theme)->0;
    let own = "theme="@ + name;
    assert(name.len() >= 4);
    assert(own[0] == 't');
    assert(own.last() == name.last());
    assert(!own.contains(';')) by {
        if own.contains(';') {
            let i = choose|i: int| 0 <= i < own.len() && own[i] == ';';
            if i >= 6 {
                assert(own[i] == name[i - 6]);
            }
        }
    }
    lemma_trim_stays(own);
    lemma_split_at_last(own, own, ';');
    assert("theme="@ =~= own.subrange(0, 6));
    assert(own.skip(6) =~= name);
    crate::ui::law_theme_round_trip(theme);
    let second = seq![' '] + own;
    assert(!second.contains(';')) by {
        if second.contains(';') {
            let i = choose|i: int| 0 <= i < second.len() && second[i] == ';';
            assert(second[i] == own[i - 1]);
        }
    }
    lemma_split_at_last(other, other, ';');
    lemma_split_at_last(other, second, ';');
    let both = other + seq![';', ' '] + "theme="@ + name;
    assert(both =~= other + seq![';'] + second);
    assert(split(both, ';') =~= seq![other, second]);
    assert(is_white(' '));
    assert(second.drop_first() =~= own);
    assert(trim_start(second) == trim_start(own));
    assert(trim(second) == own);
    reveal_with_fuel(theme_cookie_in, 3);
}

/// The theme that a `Cookie` header asks for.
pub open spec fn cookie_theme(cookie: Option<Seq<char>>) -> Theme {
    match cookie {
        Some(c) => match theme_cookie_in(split(c, ';'), 0) {
            Some(v) => theme_named(v),
            None => Theme::System,
        },
        None => Theme::System,
    }
}

/// The theme that a `Cookie` header asks for; that of the operating system where there is none.
pub fn theme_from_cookie(cookie: Option<&str>) -> (r: Theme)
    ensures
        r == cookie_theme(opt_str(cookie)),
{
    match cookie {
        None => Theme::System,
        Some(c) => {
            let v = chars_of(c);
            let pieces = split_at_each(&v, ';');
            let ghost p = split(c@, ';');
            let key = chars_of("theme=");
            let mut i: usize = 0;
            while i < pieces.len()
                invariant
                    i <= pieces.len(),
                    opt_str(cookie) == Some(c@),
                    p == split(c@, ';'),
                    pieces@.map_values(|q: Vec<char>| q@) == p,
                    key@ == "theme="@,
                    theme_cookie_in(p, 0) == theme_cookie_in(p, i as int),
                decreases pieces.len() - i,
            {
                assert(p[i as int] == pieces@[i as int]@);
                let t = trimmed(&pieces[i]);
                if starts_with(&t, &key) {
                    let value = string_from(&t, key.len(), t.len());
                    assert(value@ =~= t@.skip(key@.len() as int));
                    return Theme::parse(value.as_str());
                }
                i = i + 1;
            }
            Theme::System
        },
    }
}

/// The `Set-Cookie` that keeps a theme for a year, or clears it.
pub open spec fn theme_cookie_text(theme: Theme) -> Seq<char> {
    match theme_name(theme) {
        Some(name) => "theme="@ + name + "; Path=/; Max-Age=31536000; SameSite=Lax"@,
        None => "theme=; Path=/; Max-Age=0; SameSite=Lax"@,
    }
}

/// The `Set-Cookie` for the choice `mode` of the theme picker.
pub fn theme_cookie(mode: &str) -> (r: String)
    ensures
        r@ == theme_cookie_text(theme_named(mode@)),
        mode@ == "light"@ || mode@ == "dark"@ ==> r@ == "theme="@ + mode@
            + "; Path=/; Max-Age=31536000; SameSite=Lax"@,
        mode@ != "light"@ && mode@ != "dark"@ ==> r@ == "theme=; Path=/; Max-Age=0; SameSite=Lax"@,
{
    proof {
        reveal_strlit("light");
        reveal_strlit("dark");
        assert("light"@.len() != "dark"@.len());
    }
    match Theme::parse(mode).cookie_value() {
        Some(name) => {
            let mut r = "theme=".to_owned();
            r.append(name);
            r.append("; Path=/; Max-Age=31536000; SameSite=Lax");
            r
        },
        None => "theme=; Path=/; Max-Age=0; SameSite=Lax".to_owned(),
    }
}

/// Whether `p` stands in `s` at place `at`.
pub open spec fn stands_at(s: Seq<char>, p: Seq<char>, at: int) -> bool {
    0 <= at && at + p.len() <= s.len() && s.subrange(at, at + p.len()) == p
}

/// The first place at or after `from` where `p` stands in `s`; -1 if there is none.
pub open spec fn find_text(s: Seq<char>, p: Seq<char>, from: int) -> int
    decreases s.len() - from + 1,
{
    if from < 0 || from > s.len() {
        -1
    } else if stands_at(s, p, from) {
        from
    } else {
        find_text(s, p, from + 1)
    }
}

/// The path in an address: the whole text if it is a path already, or has no `://`; else what
/// stands from the first `/` behind `://` on, `/` if there is none.
pub open spec fn path_in(url: Seq<char>) -> Seq<char> {
    let at = find_text(url, "://"@, 0);
    if at < 0 || url[0] == '/' {
        url
    } else {
        let rest = url.skip(at + "://"@.len());
        let slash = index_from(rest, '/', 0);
        if slash < rest.len() {
            rest.skip(slash)
        } else {
            "/"@
        }
    }
}

/// Whether a text is a path on this server: it begins with one `/`, not with two.
pub open spec fn is_local_path(p: Seq<char>) -> bool {
    p.len() > 0 && p[0] == '/' && (p.len() > 1 ==> p[1] != '/')
}

/// Where to go back to, by a `Referer` header: its path, if that is one on this server.
pub open spec fn way_back(referer: Seq<char>) -> Option<Seq<char>> {
    if is_local_path(path_in(referer)) {
        Some(path_in(referer))
    } else {
        None
    }
}

fn find_scheme_end(v: &Vec<char>) -> (r: Option<usize>)
    ensures
        match r {
            Some(i) => find_text(v@, "://"@, 0) == i && i + 3 <= v.len(),
            None => find_text(v@, "://"@, 0) < 0,
        },
{
    proof {
        reveal_strlit("://");
    }
    let mut i: usize = 0;
    while v.len() - i >= 3
        invariant
            i <= v.len(),
            "://"@ == seq![':', '/', '/'],
            find_text(v@, "://"@, 0) == find_text(v@, "://"@, i as int),
        decreases v.len() - i,
    {
        if v[i] == ':' && v[i + 1] == '/' && v[i + 2] == '/' {
            assert(v@.subrange(i as int, i + 3) =~= "://"@);
            return Some(i);
        }
        proof {
            if stands_at(v@, "://"@, i as int) {
                let t = v@.subrange(i as int, i + 3);
                assert(t[0] == ':' && t[1] == '/' && t[2] == '/');
            }
        }
        i = i + 1;
    }
    proof {
        lemma_find_text_at_end(v@, "://"@, i as int);
    }
    None
}

proof fn lemma_find_text_at_end(s: Seq<char>, p: Seq<char>, from: int)
    requires
        0 <= from,
        from + p.len() > s.len(),
    ensures
        find_text(s, p, from) < 0,
    decreases s.len() - from + 1,
{
    if from <= s.len() {
        lemma_find_text_at_end(s, p, from + 1);
    }
}

/// Where to go back to after a theme was chosen, by the `Referer` header; `None` if it gives no
/// path on this server.
pub fn referer_path(referer: &str) -> (r: Option<String>)
    ensures
        opt_text(r) == way_back(referer@),
{
    let v = chars_of(referer);
    let scheme_end = if v.len() > 0 && v[0] == '/' {
        None
    } else {
        find_scheme_end(&v)
    };
    let candidate: Vec<char> = match scheme_end {
        Some(at) => {
            let rest = slice_of(&v, at + 3, v.len());
            proof {
                reveal_strlit("://");
                assert(rest@ =~= v@.skip(at + 3));
            }
            let slash = find_from(&rest, '/', 0);
            if slash < rest.len() {
                let p = slice_of(&rest, slash, rest.len());
                assert(p@ =~= rest@.skip(slash as int));
                p
            } else {
                chars_of("/")
            }
        },
        None => slice_of(&v, 0, v.len()),
    };
    assert(v@.subrange(0, v@.len() as int) =~= v@);
    assert(candidate@ == path_in(referer@));
    if candidate.len() > 0 && candidate[0] == '/' && (candidate.len() == 1 || candidate[1] != '/') {
        Some(string_of(&candidate))
    } else {
        None
    }
}

/// A `Referer` never leads off this server: the way back is a path, and not one that a browser
/// would take for another host.
pub proof fn law_way_back_is_local(referer: Seq<char>)
    requires
        way_back(referer) is Some,
    ensures
        way_back(referer)->0[0] == '/',
        !"//"@.is_prefix_of(way_back(referer)->0),
{
    reveal_strlit("//");
    let p = way_back(referer)->0;
    if "//"@.is_prefix_of(p) {
        assert("//"@[1] == p.subrange(0, "//"@.len() as int)[1]);
    }
}

proof fn lemma_find_text(s: Seq<char>, p: Seq<char>, from: int, at: int)
    requires
        0 <= from <= at <= s.len(),
        stands_at(s, p, at),
        forall|i: int| from <= i < at ==> !#[trigger] stands_at(s, p, i),
    ensures
        find_text(s, p, from) == at,
    decreases at - from,
{
    if from < at {
        assert(!stands_at(s, p, from));
        lemma_find_text(s, p, from + 1, at);
    }
}

/// The way back to an address is its path; to one that is a host alone, the front page.
pub proof fn law_way_back_is_the_path_of_the_address(scheme: Seq<char>, host: Seq<char>, path: Seq<char>)
    requires
        scheme.len() > 0,
        !scheme.contains(':'),
        scheme[0] != '/',
        !host.contains('/'),
        path.len() > 0,
        path[0] == '/',
        path.len() > 1 ==> path[1] != '/',
    ensures
        way_back(scheme + "://"@ + host + path) == Some(path),
        way_back(scheme + "://"@ + host) == Some("/"@),
{
    reveal_strlit("://");
    reveal_strlit("/");
    let k = scheme.len() as int;
    let short = scheme + "://"@ + host;
    let full = scheme + "://"@ + host + path;
    assert(short.subrange(k, k + 3) =~= "://"@);
    assert(full.subrange(k, k + 3) =~= "://"@);
    assert forall|i: int| 0 <= i < k implies !#[trigger] stands_at(short, "://"@, i) by {
        if stands_at(short, "://"@, i) {
            assert(short.subrange(i, i + 3)[0] == ':');
            assert(scheme[i] == ':');
        }
    }
    assert forall|i: int| 0 <= i < k implies !#[trigger] stands_at(full, "://"@, i) by {
        if stands_at(full, "://"@, i) {
            assert(full.subrange(i, i + 3)[0] == ':');
            assert(scheme[i] == ':');
        }
    }
    lemma_find_text(short, "://"@, 0, k);
    lemma_find_text(full, "://"@, 0, k);
    assert(short.skip(k + 3) =~= host);
    assert(full.skip(k + 3) =~= host + path);
    lemma_index_from(host, '/', 0);
    let rest = host + path;
    lemma_index_from(rest, '/', 0);
    let slash = index_from(rest, '/', 0);
    assert(slash == host.len()) by {
        if slash < host.len() {
            assert(host[slash] == '/');
        } else if slash > host.len() {
            assert(rest[host.len() as int] == '/');
        }
    }
    assert(rest.skip(slash) =~= path);
    assert(short[0] == scheme[0] && full[0] == scheme[0]);
}

/// A referer that is a path on this server already is the way back, as it is.
pub proof fn law_a_path_is_its_own_way_back(referer: Seq<char>)
    requires
        is_local_path(referer),
    ensures
        way_back(referer) == Some(referer),
{
}

// ---- Pages ----------------------------------------------------------------

/// A book as it is shown in the grid.
pub fn book_card(book: BookRow) -> (r: BookCard)
    ensures
        r.slug@ == book.slug@,
        r.feed_id@ == book.feed_id@,
        r.title@ == book.title@,
        opt_text(r.author) == opt_text(book.author),
        r.has_cover == (book.cover_path is Some),
{
    let has_cover = book.cover_path.is_some();
    BookCard {
        slug: book.slug,
        feed_id: book.feed_id,
        title: book.title,
        author: book.author,
        has_cover,
    }
}

fn concat4(a: &str, b: &str, c: &str, d: &str) -> (r: String)
    ensures
        r@ == a@ + b@ + c@ + d@,
{
    let mut r = a.to_owned();
    r.append(b);
    r.append(c);
    r.append(d);
    r
}

/// The address of a feed.
pub open spec fn feed_url(base: Seq<char>, feed_id: Seq<char>) -> Seq<char> {
    base + "/feed/"@ + feed_id + ".xml"@
}

/// A book as it is shown on its own page. Its public addresses all go by the id of its feed.
pub fn book_detail(base_url: &str, book: BookRow, episode_count: usize) -> (r: BookDetail)
    ensures
        r.feed_url@ == feed_url(base_url@, book.feed_id@),
        r.feed_url@ == base_url@ + "/feed/"@ + book.feed_id@ + ".xml"@,
        r.subscribe_url@ == base_url@ + "/subscribe/"@ + book.feed_id@,
        r.slug@ == book.slug@,
        r.feed_id@ == book.feed_id@,
        r.title@ == book.title@,
        opt_text(r.author) == opt_text(book.author),
        r.has_cover == (book.cover_path is Some),
        r.episode_count == episode_count,
{
    let feed = concat4(base_url, "/feed/", book.feed_id.as_str(), ".xml");
    let mut subscribe = base_url.to_owned();
    subscribe.append("/subscribe/");
    subscribe.append(book.feed_id.as_str());
    let has_cover = book.cover_path.is_some();
    BookDetail {
        feed_url: feed,
        subscribe_url: subscribe,
        slug: book.slug,
        feed_id: book.feed_id,
        title: book.title,
        author: book.author,
        has_cover,
        episode_count,
    }
}

// ---- Files ----------------------------------------------------------------

/// Whether a path that was looked up really lies under `root`.
pub open spec fn is_contained(found: Option<Seq<char>>, root: Seq<char>) -> bool {
    found is Some && is_under(found->0, root)
}

/// The path that is served, given what it really is (`None` if it does not exist). One that leads
/// out of `root` is answered like one that does not exist.
pub fn canonical_under(found: &Option<String>, root: &str) -> (r: Result<String, AppError>)
    ensures
        match r {
            Ok(p) => is_contained(opt_text(*found), root@) && Some(p@) == opt_text(*found),
            Err(e) => !is_contained(opt_text(*found), root@) && e == AppError::NotFound,
        },
        r is Ok <==> found is Some && is_under(found->0@, root@),
        r matches Ok(p) ==> p@ == found->0@,
{
    match found {
        Some(p) => {
            if path_is_under(p.as_str(), root) {
                Ok(p.clone())
            } else {
                Err(AppError::NotFound)
            }
        },
        None => Err(AppError::NotFound),
    }
}

/// Whether a file may be opened for a client, given what its path really is: it lies under the
/// data directory or under the library.
pub fn is_trusted(found: &Option<String>, data_dir: &str, library_dir: &str) -> (r: bool)
    ensures
        r == (is_contained(opt_text(*found), data_dir@) || is_contained(opt_text(*found), library_dir@)),
{
    match found {
        Some(p) => path_is_under(p.as_str(), data_dir) || path_is_under(p.as_str(), library_dir),
        None => false,
    }
}

/// The extensions of audio files and pictures, told apart by their first letters.
proof fn lemma_extensions_differ()
    ensures
        "mp3"@[0] == 'm' && "mp3"@[1] == 'p' && "mp3"@[2] == '3',
        "flac"@[0] == 'f' && "flac"@[1] == 'l' && "flac"@[2] == 'a',
        "ogg"@[0] == 'o' && "ogg"@[1] == 'g' && "ogg"@[2] == 'g',
        "oga"@[0] == 'o' && "oga"@[1] == 'g' && "oga"@[2] == 'a',
        "opus"@[0] == 'o' && "opus"@[1] == 'p' && "opus"@[2] == 'u',
        "m4a"@[0] == 'm' && "m4a"@[1] == '4' && "m4a"@[2] == 'a',
        "m4b"@[0] == 'm' && "m4b"@[1] == '4' && "m4b"@[2] == 'b',
        "mp4"@[0] == 'm' && "mp4"@[1] == 'p' && "mp4"@[2] == '4',
        "png"@[0] == 'p' && "png"@[1] == 'n' && "png"@[2] == 'g',
        "webp"@[0] == 'w' && "webp"@[1] == 'e' && "webp"@[2] == 'b',
        "jpg"@[0] == 'j' && "jpg"@[1] == 'p' && "jpg"@[2] == 'g',
        "jpeg"@[0] == 'j' && "jpeg"@[1] == 'p' && "jpeg"@[2] == 'e',
{
    reveal_strlit("mp3");
    reveal_strlit("flac");
    reveal_strlit("ogg");
    reveal_strlit("oga");
    reveal_strlit("opus");
    reveal_strlit("m4a");
    reveal_strlit("m4b");
    reveal_strlit("mp4");
    reveal_strlit("png");
    reveal_strlit("webp");
    reveal_strlit("jpg");
    reveal_strlit("jpeg");
}

/// The MIME type of an audio file, by its extension.
pub open spec fn audio_mime(path: Seq<char>) -> Seq<char> {
    let e = lower_extension(path);
    if e == Some("mp3"@) {
        "audio/mpeg"@
    } else if e == Some("flac"@) {
        "audio/flac"@
    } else if e == Some("ogg"@) || e == Some("oga"@) || e == Some("opus"@) {
        "audio/ogg"@
    } else {
        "audio/mp4"@
    }
}

/// The MIME type of an audio file, by its extension.
pub fn mime_for(path: &str) -> (r: &'static str)
    ensures
        r@ == audio_mime(path@),
        lower_extension(path@) == Some("mp3"@) ==> r@ == "audio/mpeg"@,
        lower_extension(path@) == Some("flac"@) ==> r@ == "audio/flac"@,
        lower_extension(path@) == Some("ogg"@) ==> r@ == "audio/ogg"@,
        lower_extension(path@) == Some("oga"@) ==> r@ == "audio/ogg"@,
        lower_extension(path@) == Some("opus"@) ==> r@ == "audio/ogg"@,
        lower_extension(path@) == Some("m4a"@) ==> r@ == "audio/mp4"@,
        lower_extension(path@) == Some("m4b"@) ==> r@ == "audio/mp4"@,
        lower_extension(path@) == Some("mp4"@) ==> r@ == "audio/mp4"@,
{
    proof {
        lemma_extensions_differ();
    }
    match ext_lower(path) {
        Some(e) => {
            if str_eq(e.as_str(), "mp3") {
                "audio/mpeg"
            } else if str_eq(e.as_str(), "flac") {
                "audio/flac"
            } else if str_eq(e.as_str(), "ogg") || str_eq(e.as_str(), "oga") || str_eq(e.as_str(), "opus") {
                "audio/ogg"
            } else {
                "audio/mp4"
            }
        },
        None => "audio/mp4",
    }
}

/// The MIME type of a picture, by its extension.
pub open spec fn picture_mime(path: Seq<char>) -> Seq<char> {
    let e = lower_extension(path);
    if e == Some("png"@) {
        "image/png"@
    } else if e == Some("webp"@) {
        "image/webp"@
    } else {
        "image/jpeg"@
    }
}

/// The MIME type of a picture, by its extension.
pub fn image_mime(path: &str) -> (r: &'static str)
    ensures
        r@ == picture_mime(path@),
        lower_extension(path@) == Some("png"@) ==> r@ == "image/png"@,
        lower_extension(path@) == Some("webp"@) ==> r@ == "image/webp"@,
        lower_extension(path@) == Some("jpg"@) ==> r@ == "image/jpeg"@,
        lower_extension(path@) == Some("jpeg"@) ==> r@ == "image/jpeg"@,
{
    proof {
        lemma_extensions_differ();
    }
    match ext_lower(path) {
        Some(e) => {
            if str_eq(e.as_str(), "png") {
                "image/png"
            } else if str_eq(e.as_str(), "webp") {
                "image/webp"
            } else {
                "image/jpeg"
            }
        },
        None => "image/jpeg",
    }
}

/// The tag of some content: its hash, in quotes.
pub open spec fn etag_text(bytes: Seq<u8>) -> Seq<char> {
    seq!['"'] + blake3_hex(bytes) + seq!['"']
}

/// The tag of some content. It goes by the very bytes that are served. A client that sends it
/// back is told that nothing changed.
pub fn etag(bytes: &[u8]) -> (r: String)
    ensures
        r@ == etag_text(bytes@),
        r@ == seq!['"'] + blake3_hex(bytes@) + seq!['"'],
        names_tag(r@, r@),
{
    let mut r = String::new();
    r.push('"');
    let h = hash_hex(bytes);
    r.append(h.as_str());
    r.push('"');
    assert(r@ =~= etag_text(bytes@));
    proof {
        lemma_own_tag_matches(bytes@);
    }
    r
}

/// A tag without the marks that it is a weak one.
pub open spec fn without_weak(t: Seq<char>) -> Seq<char>
    decreases t.len(),
{
    if t.len() >= 2 && t[0] == 'W' && t[1] == '/' {
        without_weak(t.skip(2))
    } else {
        t
    }
}

/// Whether an `If-None-Match` header names the tag: it is `*`, or lists it.
pub open spec fn names_tag(header: Seq<char>, tag: Seq<char>) -> bool {
    ||| trim(header) == "*"@
    ||| exists|i: int|
        0 <= i < split(header, ',').len() && without_weak(trim(#[trigger] split(header, ',')[i])) == tag
}

fn strip_weak(t: &Vec<char>) -> (r: Vec<char>)
    ensures
        r@ == without_weak(t@),
{
    let mut i: usize = 0;
    assert(t@.skip(0) =~= t@);
    while i < t.len() && t.len() - i >= 2 && t[i] == 'W' && t[i + 1] == '/'
        invariant
            i <= t.len(),
            without_weak(t@) == without_weak(t@.skip(i as int)),
        decreases t.len() - i,
    {
        assert(t@.skip(i as int).skip(2) =~= t@.skip(i + 2));
        i = i + 2;
    }
    let r = slice_of(t, i, t.len());
    assert(r@ =~= t@.skip(i as int));
    r
}

/// Whether a client already has the content with this tag, by its `If-None-Match` header.
pub fn is_unchanged(header: Option<&str>, tag: &str) -> (r: bool)
    ensures
        r == (header is Some && names_tag(header->0@, tag@)),
{
    match header {
        None => false,
        Some(h) => {
            let v = chars_of(h);
            let t = trimmed(&v);
            if chars_are(&t, "*") {
                return true;
            }
            let pieces = split_at_each(&v, ',');
            let ghost p = split(h@, ',');
            let mut i: usize = 0;
            while i < pieces.len()
                invariant
                    i <= pieces.len(),
                    header is Some && header->0@ == h@,
                    v@ == h@,
                    p == split(h@, ','),
                    pieces@.map_values(|q: Vec<char>| q@) == p,
                    forall|j: int| 0 <= j < i ==> without_weak(trim(#[trigger] p[j])) != tag@,
                decreases pieces.len() - i,
            {
                assert(p[i as int] == pieces@[i as int]@);
                let piece = trimmed(&pieces[i]);
                let bare = strip_weak(&piece);
                if chars_are(&bare, tag) {
                    assert(without_weak(trim(split(h@, ',')[i as int])) == tag@);
                    return true;
                }
                i = i + 1;
            }
            false
        },
    }
}

/// Whether `t` stands in quotes, and holds neither a comma nor white space.
pub open spec fn is_tag(t: Seq<char>) -> bool {
    &&& t.len() >= 2 && t[0] == '"' && t.last() == '"'
    &&& forall|i: int| 0 <= i < t.len() ==> #[trigger] t[i] != ',' && !is_white(t[i])
}

/// Marks of weakness before a tag do not count, however many there are; nothing else is taken off.
pub proof fn law_marks_of_weakness_do_not_count(t: Seq<char>)
    ensures
        without_weak(seq!['W', '/'] + t) == without_weak(t),
        !seq!['W', '/'].is_prefix_of(t) ==> without_weak(t) == t,
{
    let w = seq!['W', '/'] + t;
    assert(w[0] == 'W' && w[1] == '/');
    assert(w.skip(2) =~= t);
    if t.len() >= 2 && t[0] == 'W' && t[1] == '/' {
        assert(t.subrange(0, 2) =~= seq!['W', '/']);
    }
}

/// A client that names another tag than the content's has old content; one that names the
/// content's, as a weak one, behind another, or by `*`, has it.
pub proof fn law_only_the_named_tag_matches(t: Seq<char>, u: Seq<char>)
    requires
        is_tag(t),
        is_tag(u),
    ensures
        names_tag(u, t) <==> u == t,
        names_tag(seq!['W', '/'] + t, t),
        names_tag(u + seq![',', ' '] + t, t),
        names_tag("*"@, t),
{
    reveal_strlit("*");
    assert(!u.contains(',')) by {
        if u.contains(',') {
            let i = choose|i: int| 0 <= i < u.len() && u[i] == ',';
            assert(u[i] != ',');
        }
    }
    assert(!is_white(u[0]) && !is_white(u[u.len() - 1]));
    assert(!is_white(t[0]) && !is_white(t[t.len() - 1]));
    lemma_trim_stays(u);
    lemma_trim_stays(t);
    lemma_split_at_last(u, u, ',');
    assert(split(u, ',')[0] == u);
    assert(without_weak(u) == u && without_weak(t) == t);
    assert(trim(u)[0] != "*"@[0]);
    let weak = seq!['W', '/'] + t;
    assert(!weak.contains(',')) by {
        if weak.contains(',') {
            let i = choose|i: int| 0 <= i < weak.len() && weak[i] == ',';
            assert(weak[i] == t[i - 2]);
        }
    }
    lemma_split_at_last(weak, weak, ',');
    assert(weak.last() == t.last());
    lemma_trim_stays(weak);
    assert(weak.skip(2) =~= t);
    assert(without_weak(trim(split(weak, ',')[0])) == t);
    let second = seq![' '] + t;
    assert(!second.contains(',')) by {
        if second.contains(',') {
            let i = choose|i: int| 0 <= i < second.len() && second[i] == ',';
            assert(second[i] == t[i - 1]);
        }
    }
    lemma_split_at_last(u, second, ',');
    let both = u + seq![',', ' '] + t;
    assert(both =~= u + seq![','] + second);
    assert(is_white(' '));
    assert(second.drop_first() =~= t);
    assert(trim_start(second) == trim_start(t));
    assert(split(both, ',')[1] == second);
    assert(without_weak(trim(split(both, ',')[1])) == t);
    assert("*"@.len() == 1);
    lemma_trim_stays("*"@);
}

proof fn lemma_own_tag_matches(bytes: Seq<u8>)
    requires
        forall|i: int| 0 <= i < blake3_hex(bytes).len() ==> is_hex(#[trigger] blake3_hex(bytes)[i]),
    ensures
        names_tag(etag_text(bytes), etag_text(bytes)),
{
    let t = etag_text(bytes);
    crate::text::lemma_index_from(t, ',', 0);
    let i = index_from(t, ',', 0);
    if i < t.len() {
        assert(t[i] == ',');
        assert(t[i] == blake3_hex(bytes)[i - 1]);
        assert(is_hex(blake3_hex(bytes)[i - 1]));
    }
    assert(split(t, ',') =~= seq![t.subrange(0, t.len() as int)]);
    assert(t.subrange(0, t.len() as int) =~= t);
    crate::text::lemma_trim_stays(t);
    assert(t[0] == '"');
    assert(without_weak(trim(split(t, ',')[0])) == t);
}

} // verus!
