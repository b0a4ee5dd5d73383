//! What the pages show: the theme, the links into podcast apps, QR codes, and
//! the style sheet.

use vstd::prelude::*;
use vstd::string::StringExecFns;
use crate::outside::{qr_image, qr_picture};
use crate::text::{chars_of, starts_with, str_eq, string_from};
use vstd::utf8::encode_utf8;

verus! {

/// One book in the grid of books.
#[derive(Debug)]
pub struct BookCard {
    /// Key of its page.
    pub slug: String,
    /// Key of its cover, which cannot be guessed.
    pub feed_id: String,
    /// Title.
    pub title: String,
    /// Author, if known.
    pub author: Option<String>,
    /// Whether it has a cover.
    pub has_cover: bool,
}

/// One book on its own page.
#[derive(Debug)]
pub struct BookDetail {
    /// Key of the page.
    pub slug: String,
    /// Key of its cover, which cannot be guessed.
    pub feed_id: String,
    /// Title.
    pub title: String,
    /// Author, if known.
    pub author: Option<String>,
    /// Whether it has a cover.
    pub has_cover: bool,
    /// Address of its feed.
    pub feed_url: String,
    /// Address of the page that helps to subscribe.
    pub subscribe_url: String,
    /// How many episodes it has.
    pub episode_count: usize,
}

/// The style sheet of every page. A theme overrides the custom properties; without one the page
/// follows the operating system. Contrast meets WCAG AA in both palettes.
pub const STYLE: &'static str = r#"
:root { color-scheme: light dark;
        --bg:#ffffff; --surface:#f4f4f5; --border:#d4d4d8; --text:#18181b;
        --muted:#52525b; --accent:#1d4ed8; --accent-text:#ffffff; --danger:#b91c1c; }
/* Explicit "Light" from the picker: pin the scheme so native controls don't follow
   a dark OS; the light palette above already applies. */
:root[data-theme="light"] { color-scheme: light; }
/* The dark palette lives in two selectors so it applies both for an explicit "Dark"
   choice and for the OS default when the visitor hasn't chosen (:not([data-theme])). */
:root[data-theme="dark"] { color-scheme: dark;
        --bg:#18181b; --surface:#27272a; --border:#3f3f46; --text:#f4f4f5;
        --muted:#a1a1aa; --accent:#60a5fa; --accent-text:#0b1120; --danger:#f87171; }
@media (prefers-color-scheme: dark) {
  :root:not([data-theme]) { --bg:#18181b; --surface:#27272a; --border:#3f3f46;
        --text:#f4f4f5; --muted:#a1a1aa; --accent:#60a5fa; --accent-text:#0b1120;
        --danger:#f87171; }
}
* { box-sizing:border-box; }
body { margin:0; font:16px/1.5 system-ui,-apple-system,Segoe UI,Roboto,sans-serif;
       color:var(--text); background:var(--bg); }
a { color:var(--accent); }
:focus-visible { outline:3px solid var(--accent); outline-offset:2px; border-radius:4px; }
header.site { padding:1rem 1.25rem; border-bottom:1px solid var(--border);
        display:flex; align-items:center; justify-content:space-between; gap:1rem; }
header.site h1 { margin:0; font-size:1.25rem; }
header.site a { text-decoration:none; color:var(--text); }
/* Theme picker: a no-JS segmented control (a form of submit buttons). The active
   theme is marked with aria-pressed, which also styles it. */
.themepicker { display:inline-flex; margin:0; border:1px solid var(--border);
        border-radius:6px; overflow:hidden; }
.themepicker button { font:inherit; font-size:.8rem; padding:.35rem .7rem; border:0;
        border-left:1px solid var(--border); background:var(--surface); color:var(--text);
        cursor:pointer; }
.themepicker button:first-child { border-left:0; }
.themepicker button[aria-pressed="true"] { background:var(--accent); color:var(--accent-text); }
main { max-width:960px; margin:0 auto; padding:1.5rem 1.25rem; }
.grid { list-style:none; margin:0; padding:0; display:grid; gap:1.25rem;
        grid-template-columns:repeat(auto-fill,minmax(150px,1fr)); }
.card a { display:block; text-decoration:none; color:var(--text); }
.cover, .placeholder { width:100%; aspect-ratio:1/1; border-radius:8px;
        border:1px solid var(--border); object-fit:cover; display:block; }
.placeholder { display:grid; place-items:center; background:var(--surface);
        font-size:2.5rem; font-weight:700; color:var(--muted); }
.card .title { display:block; margin-top:.5rem; font-weight:600; }
.card .author { display:block; color:var(--muted); font-size:.9rem; }
.empty { color:var(--muted); }
.detail { display:grid; gap:1.5rem; grid-template-columns:200px 1fr; align-items:start; }
@media (max-width:560px){ .detail{ grid-template-columns:1fr; } }
.detail .cover, .detail .placeholder { width:200px; }
.feedrow { display:flex; gap:.5rem; flex-wrap:wrap; margin:.5rem 0 0; }
.feedrow input { flex:1 1 260px; min-width:0; padding:.55rem .7rem;
        border:1px solid var(--border); border-radius:6px; font:inherit; color:var(--text); }
button.copy { padding:.55rem .9rem; border:0; border-radius:6px; font:inherit;
        font-weight:600; background:var(--accent); color:var(--accent-text); cursor:pointer; }
.qr { margin-top:1rem; width:180px; }
.qr svg { width:180px; height:180px; display:block; border:1px solid var(--border);
        border-radius:8px; background:#fff; }
.cta { display:inline-block; margin:.25rem 0 1rem; padding:.75rem 1.1rem; border-radius:8px;
        background:var(--accent); color:var(--accent-text); text-decoration:none; font-weight:600; }
.qrcap { margin:.4rem 0 0; color:var(--muted); font-size:.85rem; max-width:180px; }
.subscribe { max-width:640px; }
.subscribe .subcover { width:96px; margin-bottom:.25rem; }
.subscribe h1 { margin:.25rem 0; }
.lead { color:var(--muted); margin:.25rem 0 1.25rem; }
.applist { list-style:none; margin:1rem 0 0; padding:0; display:grid; gap:.6rem;
        grid-template-columns:repeat(auto-fill,minmax(210px,1fr)); }
.applist li { margin:0; }
.appbtn { display:block; width:100%; text-align:center; padding:.8rem 1rem; border-radius:8px;
        background:var(--accent); color:var(--accent-text); text-decoration:none; font-weight:600; }
.appbtn:hover { filter:brightness(1.08); }
.qrpanel { margin-top:1.25rem; border:1px solid var(--border); border-radius:8px;
        background:var(--surface); padding:.75rem 1rem 1rem; }
.qrpanel h2 { margin:0; font-size:1.05rem; }
.qrhint { color:var(--muted); font-size:.9rem; margin:.25rem 0 .75rem; }
.qraccordion { list-style:none; margin:0; padding:0; display:grid; gap:.5rem; }
.qraccordion li { margin:0; }
/* One collapsible section per app: a collapsed section shows no scannable code, so
   only the expanded app's QR is on screen — a phone camera can't lock onto a neighbour's. */
.qrapp { border:1px solid var(--border); border-radius:8px; background:var(--bg); padding:0 1rem; }
.qrapp summary { cursor:pointer; font-weight:600; padding:.75rem 0; }
.qrapp[open] { padding-bottom:1rem; }
.appqr { margin:.25rem 0 0; }
.appqr svg { width:180px; height:180px; display:block; background:#fff;
        border:1px solid var(--border); border-radius:6px; }
.qrapplink { margin:.6rem 0 0; }
.manual { margin-top:1.75rem; padding:1rem 1.25rem; background:var(--surface);
        border:1px solid var(--border); border-radius:8px; }
.manual h2 { margin-top:0; font-size:1.05rem; }
.manual .note { color:var(--muted); font-size:.85rem; margin:.5rem 0 0; }
.private { margin-top:1.5rem; padding:1rem 1.25rem; background:var(--surface);
        border:1px solid var(--border); border-radius:8px; }
.private h2 { margin-top:0; font-size:1.05rem; }
.private > p { margin:.25rem 0 1rem; color:var(--muted); }
.privrow { display:flex; gap:.6rem; align-items:center; flex-wrap:wrap; margin:.4rem 0; }
.privrow form { margin:0; }
.privrow .note { color:var(--muted); font-size:.85rem; }
button.regen { padding:.5rem .85rem; border:1px solid var(--danger); border-radius:6px;
        font:inherit; font-weight:600; background:transparent; color:var(--danger); cursor:pointer; }
button.regen:hover { background:var(--danger); color:#fff; }
.back { display:inline-block; margin-bottom:1rem; }
/* Detail/subscribe titles: the browser-default h1 (~2em) dominates on a phone and
   a long slug-title can overflow — cap the size and allow wrapping. */
.detail h1, .subscribe h1 { font-size:1.6rem; line-height:1.25; overflow-wrap:anywhere; margin:.25rem 0 .5rem; }
@media (max-width:480px){
  main { padding:1.25rem 1rem; }
  .detail h1, .subscribe h1 { font-size:1.35rem; }
  .grid { gap:1rem; grid-template-columns:repeat(auto-fill,minmax(130px,1fr)); }
}
"#;

/// The script that copies the address of a feed. Pages work without it.
pub const COPY_JS: &'static str = r#"
document.addEventListener('click', function (e) {
  var b = e.target.closest('button.copy'); if (!b) return;
  var input = document.getElementById(b.getAttribute('data-target')); if (!input) return;
  input.select();
  navigator.clipboard && navigator.clipboard.writeText(input.value).then(function () {
    var t = b.textContent; b.textContent = 'Copied'; setTimeout(function(){ b.textContent = t; }, 1500);
  });
});
"#;

// ---- Themes ---------------------------------------------------------------

/// The colours a visitor chose.
#[derive(Debug, Clone, Copy, PartialEq, Eq, Structural)]
pub enum Theme {
    /// Those of the operating system.
    System,
    Light,
    Dark,
}

impl Default for Theme {
    fn default() -> (r: Self)
        ensures
            r == Theme::System,
    {
        Theme::System
    }
}

/// The theme of a name; anything unknown follows the operating system.
pub open spec fn theme_named(value: Seq<char>) -> Theme {
    if value == "light"@ {
        Theme::Light
    } else if value == "dark"@ {
        Theme::Dark
    } else {
        Theme::System
    }
}

/// The name of a theme; none for that of the operating system.
pub open spec fn theme_name(theme: Theme) -> Option<Seq<char>> {
    match theme {
        Theme::System => None,
        Theme::Light => Some("light"@),
        Theme::Dark => Some("dark"@),
    }
}

impl Theme {
    /// The theme of a cookie, or of a choice in the picker.
    pub fn parse(value: &str) -> (r: Self)
        ensures
            r == theme_named(value@),
            r == Theme::Light <==> value@ == "light"@,
            r == Theme::Dark <==> value@ == "dark"@,
    {
        proof {
            reveal_strlit("light");
            reveal_strlit("dark");
            assert("light"@.len() != "dark"@.len());
        }
        if str_eq(value, "light") {
            Theme::Light
        } else if str_eq(value, "dark") {
            Theme::Dark
        } else {
            Theme::System
        }
    }

    /// The attribute that a page carries for this theme.
    pub fn attr(self) -> (r: Option<&'static str>)
        ensures
            crate::text::opt_str(r) == theme_name(self),
            self == Theme::System ==> r is None,
            self == Theme::Light ==> r is Some && r->0@ == "light"@,
            self == Theme::Dark ==> r is Some && r->0@ == "dark"@,
    {
        match self {
            Theme::System => None,
            Theme::Light => Some("light"),
            Theme::Dark => Some("dark"),
        }
    }

    /// The value of the cookie that keeps this theme; `None` clears the cookie.
    pub fn cookie_value(self) -> (r: Option<&'static str>)
        ensures
            crate::text::opt_str(r) == theme_name(self),
            self == Theme::System ==> r is None,
            self == Theme::Light ==> r is Some && r->0@ == "light"@,
            self == Theme::Dark ==> r is Some && r->0@ == "dark"@,
    {
        self.attr()
    }
}

/// A theme that is kept in a cookie is the theme that is read from it.
pub proof fn law_theme_round_trip(theme: Theme)
    ensures
        match theme_name(theme) {
            Some(name) => theme_named(name) == theme,
            None => theme == Theme::System,
        },
{
    reveal_strlit("light");
    reveal_strlit("dark");
    assert("light"@.len() != "dark"@.len());
}

// ---- Links into podcast apps ----------------------------------------------

/// A podcast app, and the link that subscribes it to a feed.
#[derive(Debug)]
pub struct AppLink {
    pub name: &'static str,
    pub url: String,
}

/// A URL without `http://` or `https://`.
pub open spec fn without_scheme(url: Seq<char>) -> Seq<char> {
    if "https://"@.is_prefix_of(url) {
        url.skip("https://"@.len() as int)
    } else if "http://"@.is_prefix_of(url) {
        url.skip("http://"@.len() as int)
    } else {
        url
    }
}

/// A URL without `http://` or `https://`.
pub fn strip_scheme(url: &str) -> (r: String)
    ensures
        r@ == without_scheme(url@),
{
    let v = chars_of(url);
    let https = chars_of("https://");
    let http = chars_of("http://");
    if starts_with(&v, &https) {
        let r = string_from(&v, https.len(), v.len());
        assert(r@ =~= v@.skip(https@.len() as int));
        r
    } else if starts_with(&v, &http) {
        let r = string_from(&v, http.len(), v.len());
        assert(r@ =~= v@.skip(http@.len() as int));
        r
    } else {
        let r = string_from(&v, 0, v.len());
        assert(r@ =~= v@);
        r
    }
}

/// The scheme of a web address is taken off, and nothing else.
pub proof fn law_only_the_scheme_is_taken_off(rest: Seq<char>, url: Seq<char>)
    ensures
        without_scheme("https://"@ + rest) == rest,
        without_scheme("http://"@ + rest) == rest,
        !"https://"@.is_prefix_of(url) && !"http://"@.is_prefix_of(url) ==> without_scheme(url) == url,
{
    reveal_strlit("https://");
    reveal_strlit("http://");
    let a = "https://"@ + rest;
    let b = "http://"@ + rest;
    assert("https://"@ =~= a.subrange(0, 8));
    assert(a.skip(8) =~= rest);
    assert("http://"@ =~= b.subrange(0, 7));
    assert(b.skip(7) =~= rest);
    assert(!"https://"@.is_prefix_of(b)) by {
        if "https://"@.is_prefix_of(b) {
            assert(b.subrange(0, 8)[4] == 's');
            assert(b[4] == ':');
        }
    }
}

/// Whether a byte stands for itself in a URL: a letter, a digit or one of `-._~`.
pub open spec fn is_unreserved(b: u8) -> bool {
    ||| 0x41 <= b <= 0x5a
    ||| 0x61 <= b <= 0x7a
    ||| 0x30 <= b <= 0x39
    ||| b == 0x2d
    ||| b == 0x2e
    ||| b == 0x5f
    ||| b == 0x7e
}

/// A hexadecimal digit, upper case.
pub open spec fn hex_digit(n: int) -> char {
    if n < 10 {
        (48 + n) as u8 as char
    } else {
        (55 + n) as u8 as char
    }
}

/// A byte in a URL: itself, or `%` and two hexadecimal digits.
pub open spec fn encoded_byte(b: u8) -> Seq<char> {
    if is_unreserved(b) {
        seq![b as char]
    } else {
        seq!['%', hex_digit(b as int / 16), hex_digit(b as int % 16)]
    }
}

/// Bytes in a URL.
pub open spec fn encoded(bytes: Seq<u8>) -> Seq<char>
    decreases bytes.len(),
{
    if bytes.len() == 0 {
        Seq::empty()
    } else {
        encoded(bytes.drop_last()) + encoded_byte(bytes.last())
    }
}

/// The value of a hexadecimal digit, upper case.
pub open spec fn hex_value(c: char) -> int {
    if '0' <= c && c <= '9' {
        c as int - 48
    } else {
        c as int - 55
    }
}

/// A letter, a digit or one of `-._~` stands for itself in a URL; any other byte stands there as a
/// `%` and the two digits that write it down in hexadecimal, in capitals.
pub proof fn law_bytes_are_encoded_in_hexadecimal(b: u8)
    ensures
        ({
            let c = b as char;
            let itself = ('A' <= c && c <= 'Z') || ('a' <= c && c <= 'z') || ('0' <= c && c <= '9') || c == '-' || c
                == '.' || c == '_' || c == '~';
            let e = encoded_byte(b);
            &&& itself ==> e == seq![c]
            &&& !itself ==> {
                &&& e.len() == 3 && e[0] == '%'
                &&& hex_value(e[1]) * 16 + hex_value(e[2]) == b
                &&& ('0' <= e[1] && e[1] <= '9') || ('A' <= e[1] && e[1] <= 'F')
                &&& ('0' <= e[2] && e[2] <= '9') || ('A' <= e[2] && e[2] <= 'F')
            }
        }),
{
}

/// What is encoded in parts is encoded as a whole.
pub proof fn law_encoding_goes_byte_by_byte(a: Seq<u8>, b: Seq<u8>)
    ensures
        encoded(a + b) == encoded(a) + encoded(b),
        forall|x: u8| #[trigger] encoded(seq![x]) == encoded_byte(x),
    decreases b.len(),
{
    assert forall|x: u8| #[trigger] encoded(seq![x]) == encoded_byte(x) by {
        reveal_with_fuel(encoded, 2);
        assert(seq![x].drop_last() =~= Seq::empty());
        assert(encoded(seq![x]) =~= encoded_byte(x));
    }
    if b.len() == 0 {
        assert(a + b =~= a);
        assert(encoded(a) + encoded(b) =~= encoded(a));
    } else {
        law_encoding_goes_byte_by_byte(a, b.drop_last());
        assert((a + b).drop_last() =~= a + b.drop_last());
        assert((a + b).last() == b.last());
        assert(encoded(a + b) =~= encoded(a) + encoded(b));
    }
}

fn hex_char(n: u8) -> (r: char)
    requires
        n < 16,
    ensures
        r == hex_digit(n as int),
{
    if n < 10 {
        (48 + n) as char
    } else {
        (55 + n) as char
    }
}

/// Encodes a text as RFC 3986 asks for inside a URL: what is not unreserved becomes `%XX`, byte
/// by byte.
pub fn percent_encode(s: &str) -> (r: String)
    ensures
        r@ == encoded(encode_utf8(s@)),
{
    let bytes = s.as_bytes();
    let mut out = String::new();
    let mut i: usize = 0;
    assert(out@ =~= encoded(bytes@.take(0)));
    while i < bytes.len()
        invariant
            i <= bytes.len(),
            out@ == encoded(bytes@.take(i as int)),
        decreases bytes.len() - i,
    {
        let b = bytes[i];
        let ghost before = out@;
        if (0x41 <= b && b <= 0x5a) || (0x61 <= b && b <= 0x7a) || (0x30 <= b && b <= 0x39) || b == 0x2d || b
            == 0x2e || b == 0x5f || b == 0x7e {
            out.push(b as char);
            assert(out@ =~= before + encoded_byte(b));
        } else {
            out.push('%');
            out.push(hex_char(b / 16));
            out.push(hex_char(b % 16));
            assert(out@ =~= before + encoded_byte(b));
        }
        proof {
            assert(bytes@.take(i + 1).drop_last() =~= bytes@.take(i as int));
            assert(bytes@.take(i + 1).last() == b);
        }
        i = i + 1;
    }
    assert(bytes@.take(bytes@.len() as int) =~= bytes@);
    out
}

/// Whether a character may stand in an encoded text.
pub open spec fn is_safe(c: char) -> bool {
    c == '%' || (c as u32) < 0x80 && is_unreserved(c as u8)
}

/// Nothing but letters, digits, `-._~` and `%` comes out of the encoding.
pub proof fn law_encoded_is_safe(bytes: Seq<u8>)
    ensures
        forall|i: int| 0 <= i < encoded(bytes).len() ==> is_safe(#[trigger] encoded(bytes)[i]),
    decreases bytes.len(),
{
    if bytes.len() > 0 {
        let front = encoded(bytes.drop_last());
        let back = encoded_byte(bytes.last());
        law_encoded_is_safe(bytes.drop_last());
        assert forall|i: int| 0 <= i < encoded(bytes).len() implies is_safe(#[trigger] encoded(bytes)[i]) by {
            if i < front.len() {
                assert(encoded(bytes)[i] == front[i]);
            } else {
                assert(encoded(bytes)[i] == back[i - front.len()]);
            }
        }
    }
}

proof fn lemma_encoded_byte_shape(b: u8)
    ensures
        encoded_byte(b).len() == 1 || encoded_byte(b).len() == 3,
        encoded_byte(b).len() == 1 ==> encoded_byte(b)[0] == b as char && b != 0x25,
        encoded_byte(b).len() == 3 ==> encoded_byte(b)[0] == '%' && encoded_byte(b)[1] != '%'
            && encoded_byte(b)[2] != '%',
{
}

proof fn lemma_hex_digit_injective(a: int, b: int)
    requires
        0 <= a < 16,
        0 <= b < 16,
        hex_digit(a) == hex_digit(b),
    ensures
        a == b,
{
    assert(hex_digit(a) as u32 == if a < 10 {
        48 + a
    } else {
        55 + a
    });
    assert(hex_digit(b) as u32 == if b < 10 {
        48 + b
    } else {
        55 + b
    });
}

/// What was encoded can be told from the outcome: two texts that are encoded alike are the same.
pub proof fn law_encoding_is_unambiguous(a: Seq<u8>, b: Seq<u8>)
    requires
        encoded(a) == encoded(b),
    ensures
        a == b,
    decreases a.len(),
{
    if a.len() == 0 {
        if b.len() > 0 {
            lemma_encoded_byte_shape(b.last());
            assert(encoded(b).len() > 0);
        }
        assert(a =~= b);
    } else if b.len() == 0 {
        lemma_encoded_byte_shape(a.last());
        assert(encoded(a).len() > 0);
    } else {
        let x = a.last();
        let y = b.last();
        let s = encoded(a);
        let fa = encoded(a.drop_last());
        let fb = encoded(b.drop_last());
        let ex = encoded_byte(x);
        let ey = encoded_byte(y);
        lemma_encoded_byte_shape(x);
        lemma_encoded_byte_shape(y);
        let n = s.len() as int;
        assert(s == fa + ex && s == fb + ey);
        lemma_single_is_no_escape(a);
        lemma_single_is_no_escape(b);
        assert(ex.len() == ey.len());
        assert(ex =~= ey) by {
            assert(ex =~= s.skip(n - ex.len()));
            assert(ey =~= s.skip(n - ey.len()));
        }
        assert(fa =~= fb) by {
            assert(fa =~= s.take(n - ex.len()));
            assert(fb =~= s.take(n - ey.len()));
        }
        law_encoding_is_unambiguous(a.drop_last(), b.drop_last());
        assert(x == y) by {
            if ex.len() == 1 {
                assert(x as char == y as char);
                assert((x as char) as u32 == x as u32);
                assert((y as char) as u32 == y as u32);
            } else {
                lemma_hex_digit_injective(x as int / 16, y as int / 16);
                lemma_hex_digit_injective(x as int % 16, y as int % 16);
            }
        }
        assert(a =~= a.drop_last().push(x));
        assert(b =~= b.drop_last().push(y));
    }
}

/// The last byte was escaped exactly if a `%` stands third from the end.
proof fn lemma_single_is_no_escape(a: Seq<u8>)
    requires
        a.len() > 0,
    ensures
        (encoded_byte(a.last()).len() == 3) == (encoded(a).len() >= 3 && encoded(a)[encoded(a).len() - 3]
            == '%'),
    decreases a.len(),
{
    let x = a.last();
    let front = encoded(a.drop_last());
    let s = encoded(a);
    let ex = encoded_byte(x);
    lemma_encoded_byte_shape(x);
    let n = s.len() as int;
    if ex.len() == 3 {
        assert(s[n - 3] == ex[0]);
    } else if n >= 3 {
        // The third from the end lies in `front`, as its last but one.
        let m = front.len() as int;
        assert(m == n - 1);
        assert(s[n - 3] == front[m - 2]);
        let r = a.drop_last();
        assert(r.len() > 0);
        let y = r.last();
        lemma_encoded_byte_shape(y);
        let ey = encoded_byte(y);
        let before = encoded(r.drop_last());
        if ey.len() == 3 {
            assert(front[m - 2] == ey[1]);
        } else {
            // Both of the last two bytes stand for themselves.
            assert(before.len() == m - 1);
            assert(front[m - 2] == before[m - 2]);
            let q = r.drop_last();
            assert(q.len() > 0);
            let ez = encoded_byte(q.last());
            lemma_encoded_byte_shape(q.last());
            assert(before[m - 2] == ez[ez.len() - 1]);
        }
    }
}

/// The apps and their links, in the order they are shown. Most apps take the feed's address
/// without its scheme; Overcast takes all of it, encoded.
pub open spec fn app_links(feed_url: Seq<char>) -> Seq<(Seq<char>, Seq<char>)> {
    let bare = without_scheme(feed_url);
    seq![
        ("Apple Podcasts"@, "podcast://"@ + bare),
        ("Overcast"@, "overcast://x-callback-url/add?url="@ + encoded(encode_utf8(feed_url))),
        ("Pocket Casts"@, "pktc://subscribe/"@ + bare),
        ("Castro"@, "castros://subscribe/"@ + bare),
        ("AntennaPod"@, "antennapod-subscribe://"@ + bare),
        ("Podcast Addict"@, "podcastaddict://"@ + bare),
    ]
}

/// The values of links.
pub open spec fn link_views(v: Seq<AppLink>) -> Seq<(Seq<char>, Seq<char>)> {
    v.map_values(|l: AppLink| (l.name@, l.url@))
}

fn link(name: &'static str, scheme: &str, rest: &str) -> (r: AppLink)
    ensures
        r.name@ == name@,
        r.url@ == scheme@ + rest@,
{
    let mut url = scheme.to_owned();
    url.append(rest);
    AppLink { name, url }
}

/// The links that subscribe podcast apps to the feed `feed_url`.
pub fn subscribe_links(feed_url: &str) -> (r: Vec<AppLink>)
    ensures
        link_views(r@) == app_links(feed_url@),
        r@.len() == 6,
        r@[0].name@ == "Apple Podcasts"@ && r@[0].url@ == "podcast://"@ + without_scheme(feed_url@),
        r@[2].name@ == "Pocket Casts"@ && r@[2].url@ == "pktc://subscribe/"@ + without_scheme(feed_url@),
        r@[3].name@ == "Castro"@ && r@[3].url@ == "castros://subscribe/"@ + without_scheme(feed_url@),
        r@[4].name@ == "AntennaPod"@ && r@[4].url@ == "antennapod-subscribe://"@ + without_scheme(feed_url@),
        r@[5].name@ == "Podcast Addict"@ && r@[5].url@ == "podcastaddict://"@ + without_scheme(feed_url@),
        r@[1].name@ == "Overcast"@ && r@[1].url@ == "overcast://x-callback-url/add?url="@ + encoded(
            encode_utf8(feed_url@),
        ),
{
    let bare = strip_scheme(feed_url);
    let full = percent_encode(feed_url);
    let r = vec![
        link("Apple Podcasts", "podcast://", bare.as_str()),
        link("Overcast", "overcast://x-callback-url/add?url=", full.as_str()),
        link("Pocket Casts", "pktc://subscribe/", bare.as_str()),
        link("Castro", "castros://subscribe/", bare.as_str()),
        link("AntennaPod", "antennapod-subscribe://", bare.as_str()),
        link("Podcast Addict", "podcastaddict://", bare.as_str()),
    ];
    assert(link_views(r@) =~= app_links(feed_url@));
    r
}

// ---- QR codes -------------------------------------------------------------

/// Pixels of a QR code on a page.
pub const QR_PX: u32 = 180;

/// The largest size of a QR code that can be asked for.
pub const QR_PX_MAX: u32 = 4_000_000_000;

/// The QR code of a text as SVG; empty if the text is too long for one.
pub open spec fn qr_text(data: Seq<char>, px: u32) -> Seq<char> {
    match qr_image(encode_utf8(data), px) {
        Some(svg) => svg,
        None => Seq::empty(),
    }
}

/// The QR code of a text as SVG, at least `px` pixels wide; empty if the text is too long for one.
pub fn qr_svg_sized(data: &str, px: u32) -> (r: String)
    requires
        px <= QR_PX_MAX,
    ensures
        r@ == qr_text(data@, px),
        qr_image(encode_utf8(data@), px) is Some ==> r@ == qr_image(encode_utf8(data@), px)->0,
        qr_image(encode_utf8(data@), px) is None ==> r@.len() == 0,
{
    match qr_picture(data.as_bytes(), px) {
        Some(svg) => svg,
        None => String::new(),
    }
}

/// The QR code of a text as SVG, in the size of the pages.
pub fn qr_svg(data: &str) -> (r: String)
    ensures
        r@ == qr_text(data@, QR_PX),
        qr_image(encode_utf8(data@), 180) is Some ==> r@ == qr_image(encode_utf8(data@), 180)->0,
        qr_image(encode_utf8(data@), 180) is None ==> r@.len() == 0,
{
    qr_svg_sized(data, QR_PX)
}

} // verus!
