//! Runtime configuration: command line and environment over a TOML file over
//! defaults.
//!
//! The library path is the only input that must be given. What is wrong with a
//! configuration is reported at startup, never in the middle of a request.

use vstd::prelude::*;
use vstd::string::StringExecFns;
use crate::outside::{debug_text, quoted};
use crate::text::{all_digits, chars_are, chars_of, clone_opt, dec, dec_string, is_digit, is_white, lemma_dec_round_trip, lemma_trim_stays, lower, lower_char, nat_of, opt_text, parse_unsigned, slice_of, str_eq, string_from, string_of, to_lower, trim, trimmed, unsigned_value};
use crate::ticks::{capped_units, decimal_units, is_decimal, is_negative, is_zero, law_digits_of_a_plain_number, law_first_digit_counts, lemma_nat_of_bound, lemma_nat_of_parts, lemma_plain_number, lemma_point_number, parse_units, pow10, unsigned_part};

pub mod book_overrides;

verus! {

pub const DEFAULT_BIND: &'static str = "0.0.0.0:8080";

pub const DEFAULT_DATA_DIR: &'static str = "./data";

/// Cap of the on-demand cache where none is set: 2 GiB.
pub const DEFAULT_CACHE_SIZE_BYTES: u64 = 2_147_483_648;

// ---- Modes ----------------------------------------------------------------

/// How the episodes of a chaptered book are produced and stored. Episodes that are whole files
/// are streamed from the library and are not concerned.
#[derive(Debug, Clone, Copy, PartialEq, Eq, Structural)]
pub enum StorageMode {
    /// Every chapter is split to disk at ingest.
    Full,
    /// Every chapter is split at ingest to learn its size, deleted, and made again on demand into
    /// a bounded cache.
    Saver,
}

impl StorageMode {
    /// The name of a mode: the spelling in TOML, on the command line and in the index.
    pub open spec fn name(self) -> Seq<char> {
        match self {
            StorageMode::Full => "full"@,
            StorageMode::Saver => "saver"@,
        }
    }

    /// The mode of a name.
    pub open spec fn named(name: Seq<char>) -> Option<StorageMode> {
        if name == "full"@ {
            Some(StorageMode::Full)
        } else if name == "saver"@ {
            Some(StorageMode::Saver)
        } else {
            None
        }
    }

    /// The name of this mode.
    pub fn label(self) -> (r: &'static str)
        ensures
            r@ == self.name(),
            self == StorageMode::Full ==> r@ == "full"@,
            self == StorageMode::Saver ==> r@ == "saver"@,
    {
        match self {
            StorageMode::Full => "full",
            StorageMode::Saver => "saver",
        }
    }

    /// The mode with the given name; `None` for anything else.
    pub fn from_label(label: &str) -> (r: Option<Self>)
        ensures
            r == StorageMode::named(label@),
            r == Some(StorageMode::Full) <==> label@ == "full"@,
            r == Some(StorageMode::Saver) <==> label@ == "saver"@,
    {
        proof {
            reveal_strlit("full");
            reveal_strlit("saver");
            assert("full"@.len() != "saver"@.len());
        }
        if str_eq(label, "full") {
            Some(StorageMode::Full)
        } else if str_eq(label, "saver") {
            Some(StorageMode::Saver)
        } else {
            None
        }
    }
}

impl Default for StorageMode {
    fn default() -> (r: Self)
        ensures
            r == StorageMode::Full,
    {
        StorageMode::Full
    }
}

/// Whether sources that podcast apps do not play are re-encoded, and to what. MP3 and AAC are
/// never re-encoded.
#[derive(Debug, Clone, Copy, PartialEq, Eq, Structural)]
pub enum TranscodeMode {
    /// Never: every source is stream-copied.
    Off,
    /// To AAC, 128 kbit/s.
    Aac,
    /// To MP3, 128 kbit/s.
    Mp3,
}

impl TranscodeMode {
    /// The name of a mode: the spelling in TOML, on the command line and in the index.
    pub open spec fn name(self) -> Seq<char> {
        match self {
            TranscodeMode::Off => "off"@,
            TranscodeMode::Aac => "aac"@,
            TranscodeMode::Mp3 => "mp3"@,
        }
    }

    /// The mode of a name.
    pub open spec fn named(name: Seq<char>) -> Option<TranscodeMode> {
        if name == "off"@ {
            Some(TranscodeMode::Off)
        } else if name == "aac"@ {
            Some(TranscodeMode::Aac)
        } else if name == "mp3"@ {
            Some(TranscodeMode::Mp3)
        } else {
            None
        }
    }

    /// Whether this mode re-encodes anything at all.
    pub fn is_on(self) -> (r: bool)
        ensures
            r == (self != TranscodeMode::Off),
    {
        match self {
            TranscodeMode::Off => false,
            _ => true,
        }
    }

    /// The name of this mode.
    pub fn label(self) -> (r: &'static str)
        ensures
            r@ == self.name(),
            self == TranscodeMode::Off ==> r@ == "off"@,
            self == TranscodeMode::Aac ==> r@ == "aac"@,
            self == TranscodeMode::Mp3 ==> r@ == "mp3"@,
    {
        match self {
            TranscodeMode::Off => "off",
            TranscodeMode::Aac => "aac",
            TranscodeMode::Mp3 => "mp3",
        }
    }

    /// The mode with the given name; `None` for anything else.
    pub fn from_label(label: &str) -> (r: Option<Self>)
        ensures
            r == TranscodeMode::named(label@),
            r == Some(TranscodeMode::Off) <==> label@ == "off"@,
            r == Some(TranscodeMode::Aac) <==> label@ == "aac"@,
            r == Some(TranscodeMode::Mp3) <==> label@ == "mp3"@,
    {
        proof {
            reveal_strlit("off");
            reveal_strlit("aac");
            reveal_strlit("mp3");
            assert("off"@[0] == 'o' && "aac"@[0] == 'a' && "mp3"@[0] == 'm');
        }
        if str_eq(label, "off") {
            Some(TranscodeMode::Off)
        } else if str_eq(label, "aac") {
            Some(TranscodeMode::Aac)
        } else if str_eq(label, "mp3") {
            Some(TranscodeMode::Mp3)
        } else {
            None
        }
    }
}

impl Default for TranscodeMode {
    fn default() -> (r: Self)
        ensures
            r == TranscodeMode::Off,
    {
        TranscodeMode::Off
    }
}

/// A mode that is written down by its name reads back as itself.
pub proof fn law_mode_names_round_trip(storage: StorageMode, transcode: TranscodeMode)
    ensures
        StorageMode::named(storage.name()) == Some(storage),
        TranscodeMode::named(transcode.name()) == Some(transcode),
{
    reveal_strlit("full");
    reveal_strlit("saver");
    reveal_strlit("off");
    reveal_strlit("aac");
    reveal_strlit("mp3");
    assert("full"@.len() != "saver"@.len());
    assert("off"@[0] == 'o' && "aac"@[0] == 'a' && "mp3"@[0] == 'm');
}

// ---- Addresses ------------------------------------------------------------

/// An IP address, as the number its bytes write down.
#[derive(Debug, Clone, Copy, PartialEq, Eq, Structural)]
pub enum Ip {
    V4(u32),
    V6(u128),
}

/// An address to listen on.
#[derive(Debug, Clone, Copy, PartialEq, Eq, Structural)]
pub struct BindAddr {
    pub ip: Ip,
    pub port: u16,
}

/// An IPv4 address in IPv6 spelling, `::ffff:a.b.c.d`, as the IPv4 address; any other as it is.
pub open spec fn folded(ip: Ip) -> Ip {
    match ip {
        Ip::V6(n) => if n / 0x1_0000_0000 == 0xffff {
            Ip::V4((n % 0x1_0000_0000) as u32)
        } else {
            ip
        },
        Ip::V4(_) => ip,
    }
}

/// Whether an address stands for every interface.
pub open spec fn is_wildcard(ip: Ip) -> bool {
    match ip {
        Ip::V4(n) => n == 0,
        Ip::V6(n) => n == 0,
    }
}

/// Whether two listeners would fight over a port: the port is the same, and the addresses are,
/// or one of them stands for every interface.
pub open spec fn collide(a: BindAddr, b: BindAddr) -> bool {
    a.port == b.port && (folded(a.ip) == folded(b.ip) || is_wildcard(folded(a.ip)) || is_wildcard(
        folded(b.ip),
    ))
}

/// Folds an IPv4 address in IPv6 spelling down to the IPv4 address.
pub fn canonical_ip(ip: Ip) -> (r: Ip)
    ensures
        r == folded(ip),
{
    match ip {
        Ip::V6(n) => {
            if n / 0x1_0000_0000 == 0xffff {
                Ip::V4((n % 0x1_0000_0000) as u32)
            } else {
                ip
            }
        },
        Ip::V4(_) => ip,
    }
}

fn stands_for_all(ip: Ip) -> (r: bool)
    ensures
        r == is_wildcard(ip),
{
    match ip {
        Ip::V4(n) => n == 0,
        Ip::V6(n) => n == 0,
    }
}

/// Whether two listeners would fight over a port.
pub fn binds_collide(a: BindAddr, b: BindAddr) -> (r: bool)
    ensures
        r == collide(a, b),
        a.port != b.port ==> !r,
        a == b ==> r,
        a.port == b.port && (a.ip == Ip::V4(0) || a.ip == Ip::V6(0) || b.ip == Ip::V4(0) || b.ip == Ip::V6(0)) ==> r,
        a.ip is V4 && b.ip is V4 && a.ip != b.ip && a.ip != Ip::V4(0) && b.ip != Ip::V4(0) ==> !r,
{
    let ip_a = canonical_ip(a.ip);
    let ip_b = canonical_ip(b.ip);
    a.port == b.port && (ip_a == ip_b || stands_for_all(ip_a) || stands_for_all(ip_b))
}

/// Whether two listeners fight does not depend on which comes first; different ports never do;
/// a listener always fights with itself; and the two spellings of an IPv4 address count as one.
pub proof fn law_collisions(a: BindAddr, b: BindAddr, v4: u32)
    ensures
        collide(a, b) == collide(b, a),
        a.port != b.port ==> !collide(a, b),
        collide(a, a),
        folded(Ip::V6((0xffff_0000_0000 + v4) as u128)) == Ip::V4(v4),
        folded(folded(a.ip)) == folded(a.ip),
{
    assert((0xffff_0000_0000 + v4) / 0x1_0000_0000 == 0xffff);
    assert((0xffff_0000_0000 + v4) % 0x1_0000_0000 == v4);
}

// ---- Sizes and durations --------------------------------------------------

pub open spec fn is_letter(c: char) -> bool {
    ('a' <= c && c <= 'z') || ('A' <= c && c <= 'Z')
}

/// The place of the first letter; `s.len()` if there is none.
pub open spec fn first_letter(s: Seq<char>, from: int) -> int
    decreases s.len() - from,
{
    if from < 0 || from >= s.len() {
        s.len() as int
    } else if is_letter(s[from]) {
        from
    } else {
        first_letter(s, from + 1)
    }
}

/// The number of a value such as `2gb`: what stands before its first letter.
pub open spec fn number_part(s: Seq<char>) -> Seq<char> {
    trim(s.take(first_letter(s, 0)))
}

/// The unit of a value such as `2gb`: what stands from its first letter on.
pub open spec fn unit_part(s: Seq<char>) -> Seq<char> {
    trim(s.skip(first_letter(s, 0)))
}

/// Splits a value such as `2gb` or `30d` into its number and its unit.
pub fn split_number_unit(t: &Vec<char>) -> (r: (Vec<char>, Vec<char>))
    ensures
        r.0@ == number_part(t@),
        r.1@ == unit_part(t@),
{
    let mut at: usize = 0;
    while at < t.len() && !(('a' <= t[at] && t[at] <= 'z') || ('A' <= t[at] && t[at] <= 'Z'))
        invariant
            at <= t.len(),
            first_letter(t@, 0) == first_letter(t@, at as int),
        decreases t.len() - at,
    {
        at = at + 1;
    }
    let a = slice_of(t, 0, at);
    let b = slice_of(t, at, t.len());
    assert(a@ =~= t@.take(at as int));
    assert(b@ =~= t@.skip(at as int));
    (trimmed(&a), trimmed(&b))
}

/// A value with no white space around it and letters in lower case.
pub open spec fn plain(s: Seq<char>) -> Seq<char> {
    lower(trim(s))
}

/// Whether a size says that there is no cap.
pub open spec fn says_unbounded(t: Seq<char>) -> bool {
    ||| t == ""@
    ||| t == "0"@
    ||| t == "off"@
    ||| t == "none"@
    ||| t == "unbounded"@
    ||| t == "unlimited"@
}

/// Bytes in a unit of size; units are powers of 1024.
pub open spec fn size_unit(u: Seq<char>) -> Option<u64> {
    if u == ""@ || u == "b"@ {
        Some(1)
    } else if u == "k"@ || u == "kb"@ || u == "kib"@ {
        Some(1024)
    } else if u == "m"@ || u == "mb"@ || u == "mib"@ {
        Some(1_048_576)
    } else if u == "g"@ || u == "gb"@ || u == "gib"@ {
        Some(1_073_741_824)
    } else if u == "t"@ || u == "tb"@ || u == "tib"@ {
        Some(1_099_511_627_776)
    } else {
        None
    }
}

/// The size that `s` gives: `Ok(None)` for no cap, else bytes; the reason where it is none.
pub open spec fn size_value(s: Seq<char>) -> Result<Option<nat>, Seq<char>> {
    let t = plain(s);
    let num = number_part(t);
    let unit = unit_part(t);
    if says_unbounded(t) {
        Ok(None)
    } else if !is_decimal(num) {
        Err("not a number: "@ + debug_text(num))
    } else if is_negative(num) {
        Err("not a positive size: "@ + debug_text(s))
    } else if size_unit(unit) is None {
        Err("unknown size unit "@ + debug_text(unit) + " (use B/KB/MB/GB/TB)"@)
    } else {
        let bytes = capped_units(unsigned_part(num), size_unit(unit)->0 as nat, u64::MAX as nat);
        if bytes > 0 {
            Ok(Some(bytes))
        } else if is_zero(num) {
            Ok(None)
        } else {
            Err("less than one byte: "@ + debug_text(s))
        }
    }
}

fn size_unit_of(u: &Vec<char>) -> (r: Option<u64>)
    ensures
        r == size_unit(u@),
{
    if chars_are(u, "") || chars_are(u, "b") {
        Some(1)
    } else if chars_are(u, "k") || chars_are(u, "kb") || chars_are(u, "kib") {
        Some(1024)
    } else if chars_are(u, "m") || chars_are(u, "mb") || chars_are(u, "mib") {
        Some(1_048_576)
    } else if chars_are(u, "g") || chars_are(u, "gb") || chars_are(u, "gib") {
        Some(1_073_741_824)
    } else if chars_are(u, "t") || chars_are(u, "tb") || chars_are(u, "tib") {
        Some(1_099_511_627_776)
    } else {
        None
    }
}

fn complaint(before: &str, what: &str, after: &str) -> (r: String)
    ensures
        r@ == before@ + debug_text(what@) + after@,
{
    let mut r = before.to_owned();
    let q = quoted(what);
    r.append(q.as_str());
    r.append(after);
    r
}

fn plain_of(s: &str) -> (r: Vec<char>)
    ensures
        r@ == plain(s@),
{
    let v = chars_of(s);
    let w = trimmed(&v);
    to_lower(&w)
}

/// Reads a size (`2GB`, `500mb`, `1048576`, `2 gib`) in bytes. Units are powers of 1024. `None`
/// means no cap: `0`, `off`, `none`, `unbounded`. A size that is not 0 but below one byte is a
/// mistake, and no way to say so.
pub fn parse_size(s: &str) -> (r: Result<Option<u64>, String>)
    ensures
        match r {
            Ok(Some(n)) => size_value(s@) == Ok::<Option<nat>, Seq<char>>(Some(n as nat)),
            Ok(None) => size_value(s@) == Ok::<Option<nat>, Seq<char>>(None),
            Err(reason) => size_value(s@) == Err::<Option<nat>, Seq<char>>(reason@),
        },
{
    let t = plain_of(s);
    if chars_are(&t, "") || chars_are(&t, "0") || chars_are(&t, "off") || chars_are(&t, "none") || chars_are(
        &t,
        "unbounded",
    ) || chars_are(&t, "unlimited") {
        return Ok(None);
    }
    let (num, unit) = split_number_unit(&t);
    proof {
        reveal_strlit("");
        assert(""@ =~= Seq::<char>::empty());
    }
    let mult = size_unit_of(&unit);
    match parse_units(&num, match mult {
        Some(m) => m,
        None => 1,
    }, u64::MAX as u128) {
        None => {
            let r = complaint("not a number: ", string_of(&num).as_str(), "");
            assert(r@ =~= "not a number: "@ + debug_text(num@));
            Err(r)
        },
        Some(p) => {
            let bytes: u64 = p.count as u64;
            if p.negative {
                let r = complaint("not a positive size: ", s, "");
                assert(r@ =~= "not a positive size: "@ + debug_text(s@));
                Err(r)
            } else if mult.is_none() {
                Err(
                    complaint(
                        "unknown size unit ",
                        string_of(&unit).as_str(),
                        " (use B/KB/MB/GB/TB)",
                    ),
                )
            } else if bytes > 0 {
                Ok(Some(bytes))
            } else if p.zero {
                Ok(None)
            } else {
                let r = complaint("less than one byte: ", s, "");
                assert(r@ =~= "less than one byte: "@ + debug_text(s@));
                Err(r)
            }
        },
    }
}

/// Whether a duration says that there is no limit.
pub open spec fn says_never(t: Seq<char>) -> bool {
    ||| t == ""@
    ||| t == "0"@
    ||| t == "off"@
    ||| t == "none"@
    ||| t == "never"@
}

/// Seconds in a unit of time.
pub open spec fn time_unit(u: Seq<char>) -> Option<u64> {
    if u == ""@ || u == "s"@ || u == "sec"@ || u == "secs"@ {
        Some(1)
    } else if u == "m"@ || u == "min"@ || u == "mins"@ {
        Some(60)
    } else if u == "h"@ || u == "hr"@ || u == "hrs"@ {
        Some(3600)
    } else if u == "d"@ || u == "day"@ || u == "days"@ {
        Some(86_400)
    } else if u == "w"@ || u == "week"@ || u == "weeks"@ {
        Some(604_800)
    } else {
        None
    }
}

/// The larger numbers of a `u64` are held at its largest.
pub open spec fn saturated(n: nat) -> nat {
    if n <= u64::MAX {
        n
    } else {
        u64::MAX as nat
    }
}

/// The duration that `s` gives: `Ok(None)` for no limit, else seconds; the reason where it is none.
pub open spec fn duration_value(s: Seq<char>) -> Result<Option<nat>, Seq<char>> {
    let t = plain(s);
    let num = number_part(t);
    let unit = unit_part(t);
    if says_never(t) {
        Ok(None)
    } else if unsigned_value(num, u64::MAX as nat) is None {
        Err("not a whole number: "@ + debug_text(num))
    } else if time_unit(unit) is None {
        Err("unknown duration unit "@ + debug_text(unit) + " (use s/m/h/d/w)"@)
    } else {
        let secs = saturated(unsigned_value(num, u64::MAX as nat)->0 * (time_unit(unit)->0 as nat));
        Ok(
            if secs == 0 {
                None
            } else {
                Some(secs)
            },
        )
    }
}

fn time_unit_of(u: &Vec<char>) -> (r: Option<u64>)
    ensures
        r == time_unit(u@),
{
    if chars_are(u, "") || chars_are(u, "s") || chars_are(u, "sec") || chars_are(u, "secs") {
        Some(1)
    } else if chars_are(u, "m") || chars_are(u, "min") || chars_are(u, "mins") {
        Some(60)
    } else if chars_are(u, "h") || chars_are(u, "hr") || chars_are(u, "hrs") {
        Some(3600)
    } else if chars_are(u, "d") || chars_are(u, "day") || chars_are(u, "days") {
        Some(86_400)
    } else if chars_are(u, "w") || chars_are(u, "week") || chars_are(u, "weeks") {
        Some(604_800)
    } else {
        None
    }
}

/// Reads a duration (`30d`, `12h`, `45m`, `90s`, `2w`) in seconds; a bare number is seconds.
/// `None` means no limit: `0`, `off`, `none` or `never`.
pub fn parse_duration(s: &str) -> (r: Result<Option<u64>, String>)
    ensures
        match r {
            Ok(Some(n)) => duration_value(s@) == Ok::<Option<nat>, Seq<char>>(Some(n as nat)),
            Ok(None) => duration_value(s@) == Ok::<Option<nat>, Seq<char>>(None),
            Err(reason) => duration_value(s@) == Err::<Option<nat>, Seq<char>>(reason@),
        },
{
    let t = plain_of(s);
    if chars_are(&t, "") || chars_are(&t, "0") || chars_are(&t, "off") || chars_are(&t, "none") || chars_are(
        &t,
        "never",
    ) {
        return Ok(None);
    }
    let (num, unit) = split_number_unit(&t);
    proof {
        reveal_strlit("");
        assert(""@ =~= Seq::<char>::empty());
    }
    match parse_unsigned(&num, u64::MAX) {
        None => {
            let r = complaint("not a whole number: ", string_of(&num).as_str(), "");
            assert(r@ =~= "not a whole number: "@ + debug_text(num@));
            Err(r)
        },
        Some(value) => {
            match time_unit_of(&unit) {
                None => Err(
                    complaint("unknown duration unit ", string_of(&unit).as_str(), " (use s/m/h/d/w)"),
                ),
                Some(m) => {
                    proof {
                        assert(0 <= (value as int) * (m as int) <= 0xffff_ffff_ffff_ffff * 604_800)
                            by (nonlinear_arith)
                            requires
                                0 <= value <= 0xffff_ffff_ffff_ffff,
                                0 <= m <= 604_800,
                        ;
                    }
                    let wide: u128 = (value as u128) * (m as u128);
                    let secs: u64 = if wide > u64::MAX as u128 {
                        u64::MAX
                    } else {
                        wide as u64
                    };
                    if secs == 0 {
                        Ok(None)
                    } else {
                        Ok(Some(secs))
                    }
                },
            }
        },
    }
}

// ---- The configuration ----------------------------------------------------

/// Inputs from the command line and the environment. All are optional: a value may come from the
/// file instead.
#[derive(Debug)]
pub struct Cli {
    pub library: Option<String>,
    pub data_dir: Option<String>,
    pub bind: Option<String>,
    pub base_url: Option<String>,
    pub default_cover_url: Option<String>,
    pub force_embedded_chapters: bool,
    pub remux_non_faststart: bool,
    pub storage_mode: Option<StorageMode>,
    pub transcode: Option<TranscodeMode>,
    pub cache_size: Option<String>,
    pub cache_ttl: Option<String>,
    pub metrics_bind: Option<String>,
    pub config: Option<String>,
}

impl Default for Cli {
    fn default() -> (r: Self)
        ensures
            r.library is None && r.data_dir is None && r.bind is None && r.base_url is None,
            r.default_cover_url is None && !r.force_embedded_chapters && !r.remux_non_faststart,
            r.storage_mode is None && r.transcode is None && r.cache_size is None,
            r.cache_ttl is None && r.metrics_bind is None && r.config is None,
    {
        Cli {
            library: None,
            data_dir: None,
            bind: None,
            base_url: None,
            default_cover_url: None,
            force_embedded_chapters: false,
            remux_non_faststart: false,
            storage_mode: None,
            transcode: None,
            cache_size: None,
            cache_ttl: None,
            metrics_bind: None,
            config: None,
        }
    }
}

/// Inputs from a TOML file.
#[derive(Debug)]
pub struct FileConfig {
    pub library: Option<String>,
    pub data_dir: Option<String>,
    pub bind: Option<String>,
    pub base_url: Option<String>,
    pub default_cover_url: Option<String>,
    pub force_embedded_chapters: Option<bool>,
    pub remux_non_faststart: Option<bool>,
    pub storage_mode: Option<StorageMode>,
    pub transcode: Option<TranscodeMode>,
    pub cache_size: Option<String>,
    pub cache_ttl: Option<String>,
    pub metrics_bind: Option<String>,
}

impl Default for FileConfig {
    fn default() -> (r: Self)
        ensures
            r.library is None && r.data_dir is None && r.bind is None && r.base_url is None,
            r.default_cover_url is None && r.force_embedded_chapters is None,
            r.remux_non_faststart is None && r.storage_mode is None && r.transcode is None,
            r.cache_size is None && r.cache_ttl is None && r.metrics_bind is None,
    {
        FileConfig {
            library: None,
            data_dir: None,
            bind: None,
            base_url: None,
            default_cover_url: None,
            force_embedded_chapters: None,
            remux_non_faststart: None,
            storage_mode: None,
            transcode: None,
            cache_size: None,
            cache_ttl: None,
            metrics_bind: None,
        }
    }
}

/// The resolved configuration.
#[derive(Debug)]
pub struct Config {
    /// Library root.
    pub library: String,
    /// Directory for the index and the produced episodes.
    pub data_dir: String,
    /// Address to listen on.
    pub bind: BindAddr,
    /// Address under which the server is reached, without a `/` at its end.
    pub base_url: String,
    /// Cover of books that have none.
    pub default_cover_url: Option<String>,
    /// Whether sidecars are ignored.
    pub force_embedded_chapters: bool,
    /// Whether a non-faststart whole-file MP4 is remuxed on demand.
    pub remux_non_faststart: bool,
    /// How chaptered books are stored.
    pub storage_mode: StorageMode,
    /// Whether, and to what, sources are re-encoded.
    pub transcode: TranscodeMode,
    /// Cap of the on-demand cache in bytes.
    pub cache_size_bytes: Option<u64>,
    /// How long a cached chapter is kept, in seconds.
    pub cache_ttl: Option<u64>,
    /// Address of the metrics listener.
    pub metrics_bind: Option<BindAddr>,
}

/// What is wrong with a configuration.
#[derive(Debug)]
pub enum ConfigError {
    /// No library path was given.
    MissingLibrary,
    /// The library path does not exist.
    LibraryNotFound(String),
    /// The library path is no directory.
    LibraryNotDir(String),
    /// The address to listen on is none.
    BadBind { value: String },
    /// The address of the metrics listener is none.
    BadMetricsBind { value: String },
    /// The metrics listener would fight with the server over a port.
    MetricsBindConflict { metrics: BindAddr, bind: BindAddr },
    /// The data directory could not be made.
    DataDir { path: String, reason: String },
    /// The cache size is none.
    BadCacheSize { value: String, reason: String },
    /// The cache lifetime is none.
    BadCacheTtl { value: String, reason: String },
}

/// What a server that starts does next.
#[derive(Debug)]
pub enum StartUp {
    /// It gives up.
    Refuse(ConfigError),
    /// It makes this directory, if it is not there.
    MakeDataDir(String),
    /// It goes on.
    Ready,
}

/// What the command line says, or else the file.
pub open spec fn layered<T>(cli: Option<T>, file: Option<T>) -> Option<T> {
    if cli is Some {
        cli
    } else {
        file
    }
}

/// The address text to listen on.
pub open spec fn bind_value(cli: Cli, file: FileConfig) -> Seq<char> {
    match layered(opt_text(cli.bind), opt_text(file.bind)) {
        Some(s) => s,
        None => DEFAULT_BIND@,
    }
}

/// The address text of the metrics listener.
pub open spec fn metrics_value(cli: Cli, file: FileConfig) -> Option<Seq<char>> {
    layered(opt_text(cli.metrics_bind), opt_text(file.metrics_bind))
}

/// `s` without the `/`s at its end.
pub open spec fn trim_slashes(s: Seq<char>) -> Seq<char>
    decreases s.len(),
{
    if s.len() > 0 && s.last() == '/' {
        trim_slashes(s.drop_last())
    } else {
        s
    }
}

/// The address under which the server is reached.
pub open spec fn base_url_value(cli: Cli, file: FileConfig, bind: BindAddr) -> Seq<char> {
    trim_slashes(
        match layered(opt_text(cli.base_url), opt_text(file.base_url)) {
            Some(s) => s,
            None => "http://localhost:"@ + dec(bind.port as nat),
        },
    )
}

/// The cap of the cache, and what is wrong with it.
pub open spec fn cache_size_value(cli: Cli, file: FileConfig) -> Result<Option<nat>, Seq<char>> {
    match layered(opt_text(cli.cache_size), opt_text(file.cache_size)) {
        Some(s) => size_value(s),
        None => Ok(Some(DEFAULT_CACHE_SIZE_BYTES as nat)),
    }
}

/// The lifetime of cached chapters, and what is wrong with it.
pub open spec fn cache_ttl_value(cli: Cli, file: FileConfig) -> Result<Option<nat>, Seq<char>> {
    match layered(opt_text(cli.cache_ttl), opt_text(file.cache_ttl)) {
        Some(s) => duration_value(s),
        None => Ok(None),
    }
}

/// An optional number, as a natural one.
pub open spec fn opt_nat(o: Option<u64>) -> Option<nat> {
    match o {
        Some(n) => Some(n as nat),
        None => None,
    }
}

/// Whether `c` is what command line, file and defaults make together.
pub open spec fn is_resolution(
    c: Config,
    cli: Cli,
    file: FileConfig,
    bind: BindAddr,
    metrics: Option<BindAddr>,
) -> bool {
    &&& Some(c.library@) == layered(opt_text(cli.library), opt_text(file.library))
    &&& c.data_dir@ == match layered(opt_text(cli.data_dir), opt_text(file.data_dir)) {
        Some(s) => s,
        None => DEFAULT_DATA_DIR@,
    }
    &&& c.bind == bind
    &&& c.base_url@ == base_url_value(cli, file, bind)
    &&& opt_text(c.default_cover_url) == layered(
        opt_text(cli.default_cover_url),
        opt_text(file.default_cover_url),
    )
    &&& c.force_embedded_chapters == (cli.force_embedded_chapters || file.force_embedded_chapters == Some(
        true,
    ))
    &&& c.remux_non_faststart == (cli.remux_non_faststart || file.remux_non_faststart == Some(true))
    &&& c.storage_mode == match layered(cli.storage_mode, file.storage_mode) {
        Some(m) => m,
        None => StorageMode::Full,
    }
    &&& c.transcode == match layered(cli.transcode, file.transcode) {
        Some(m) => m,
        None => TranscodeMode::Off,
    }
    &&& cache_size_value(cli, file) == Ok::<Option<nat>, Seq<char>>(opt_nat(c.cache_size_bytes))
    &&& cache_ttl_value(cli, file) == Ok::<Option<nat>, Seq<char>>(opt_nat(c.cache_ttl))
    &&& c.metrics_bind == if metrics_value(cli, file) is Some {
        metrics
    } else {
        None
    }
}

fn first_of(a: &Option<String>, b: &Option<String>) -> (r: Option<String>)
    ensures
        opt_text(r) == layered(opt_text(*a), opt_text(*b)),
{
    if a.is_some() {
        clone_opt(a)
    } else {
        clone_opt(b)
    }
}

/// `s` without the `/`s at its end.
pub fn without_slashes(s: &str) -> (r: String)
    ensures
        r@ == trim_slashes(s@),
{
    let v = chars_of(s);
    let mut k: usize = v.len();
    assert(v@.take(v@.len() as int) =~= v@);
    while k > 0 && v[k - 1] == '/'
        invariant
            k <= v.len(),
            trim_slashes(v@) == trim_slashes(v@.take(k as int)),
        decreases k,
    {
        assert(v@.take(k as int).drop_last() =~= v@.take(k - 1));
        k = k - 1;
    }
    let r = string_from(&v, 0, k);
    assert(r@ =~= v@.take(k as int));
    r
}

impl Config {
    /// The address text to listen on.
    pub fn bind_text(cli: &Cli, file: &FileConfig) -> (r: String)
        ensures
            r@ == bind_value(*cli, *file),
    {
        match first_of(&cli.bind, &file.bind) {
            Some(s) => s,
            None => DEFAULT_BIND.to_owned(),
        }
    }

    /// The address text of the metrics listener; `None` if there is to be none.
    pub fn metrics_bind_text(cli: &Cli, file: &FileConfig) -> (r: Option<String>)
        ensures
            opt_text(r) == metrics_value(*cli, *file),
    {
        first_of(&cli.metrics_bind, &file.metrics_bind)
    }

    /// Merges the command line over the file over defaults. `bind` and `metrics` are the addresses
    /// that [`Config::bind_text`] and [`Config::metrics_bind_text`] write down; `None` where such
    /// a text is no address.
    pub fn resolve(
        cli: &Cli,
        file: &FileConfig,
        bind: Option<BindAddr>,
        metrics: Option<BindAddr>,
    ) -> (r: Result<Self, ConfigError>)
        ensures
            ({
                let library = layered(opt_text(cli.library), opt_text(file.library));
                let size = cache_size_value(*cli, *file);
                let ttl = cache_ttl_value(*cli, *file);
                let metrics_text = metrics_value(*cli, *file);
                if library is None {
                    r == Err::<Config, ConfigError>(ConfigError::MissingLibrary)
                } else if bind is None {
                    r matches Err(ConfigError::BadBind { value }) && value@ == bind_value(*cli, *file)
                } else if size is Err {
                    r matches Err(ConfigError::BadCacheSize { value, reason }) && Some(value@) == layered(
                        opt_text(cli.cache_size),
                        opt_text(file.cache_size),
                    ) && size == Err::<Option<nat>, Seq<char>>(reason@)
                } else if ttl is Err {
                    r matches Err(ConfigError::BadCacheTtl { value, reason }) && Some(value@) == layered(
                        opt_text(cli.cache_ttl),
                        opt_text(file.cache_ttl),
                    ) && ttl == Err::<Option<nat>, Seq<char>>(reason@)
                } else if metrics_text is Some && metrics is None {
                    r matches Err(ConfigError::BadMetricsBind { value }) && Some(value@) == metrics_text
                } else {
                    r matches Ok(c) && is_resolution(c, *cli, *file, bind->0, metrics)
                }
            }),
    {
        let library = match first_of(&cli.library, &file.library) {
            Some(l) => l,
            None => {
                return Err(ConfigError::MissingLibrary);
            },
        };
        let data_dir = match first_of(&cli.data_dir, &file.data_dir) {
            Some(d) => d,
            None => DEFAULT_DATA_DIR.to_owned(),
        };
        let bind = match bind {
            Some(b) => b,
            None => {
                return Err(ConfigError::BadBind { value: Config::bind_text(cli, file) });
            },
        };
        let base = match first_of(&cli.base_url, &file.base_url) {
            Some(u) => u,
            None => {
                let mut u = "http://localhost:".to_owned();
                let p = dec_string(bind.port as u128);
                u.append(p.as_str());
                u
            },
        };
        let base_url = without_slashes(base.as_str());
        let default_cover_url = first_of(&cli.default_cover_url, &file.default_cover_url);
        let force_embedded_chapters = cli.force_embedded_chapters || (match file.force_embedded_chapters {
            Some(b) => b,
            None => false,
        });
        let remux_non_faststart = cli.remux_non_faststart || (match file.remux_non_faststart {
            Some(b) => b,
            None => false,
        });
        let storage_mode = match (cli.storage_mode, file.storage_mode) {
            (Some(m), _) => m,
            (None, Some(m)) => m,
            (None, None) => StorageMode::default(),
        };
        let transcode = match (cli.transcode, file.transcode) {
            (Some(m), _) => m,
            (None, Some(m)) => m,
            (None, None) => TranscodeMode::default(),
        };
        let cache_size_bytes = match first_of(&cli.cache_size, &file.cache_size) {
            Some(s) => match parse_size(s.as_str()) {
                Ok(n) => n,
                Err(reason) => {
                    return Err(ConfigError::BadCacheSize { value: s, reason });
                },
            },
            None => Some(DEFAULT_CACHE_SIZE_BYTES),
        };
        let cache_ttl = match first_of(&cli.cache_ttl, &file.cache_ttl) {
            Some(s) => match parse_duration(s.as_str()) {
                Ok(n) => n,
                Err(reason) => {
                    return Err(ConfigError::BadCacheTtl { value: s, reason });
                },
            },
            None => None,
        };
        let metrics_bind = match Config::metrics_bind_text(cli, file) {
            Some(value) => match metrics {
                Some(m) => Some(m),
                None => {
                    return Err(ConfigError::BadMetricsBind { value });
                },
            },
            None => None,
        };
        Ok(
            Config {
                library,
                data_dir,
                bind,
                base_url,
                default_cover_url,
                force_embedded_chapters,
                remux_non_faststart,
                storage_mode,
                transcode,
                cache_size_bytes,
                cache_ttl,
                metrics_bind,
            },
        )
    }

    /// Whether the library is a directory, and the metrics listener, if there is one, does not
    /// fight with the server.
    pub open spec fn is_servable(self, library_exists: bool, library_is_dir: bool) -> bool {
        library_exists && library_is_dir && !(self.metrics_bind is Some && collide(
            self.metrics_bind->0,
            self.bind,
        ))
    }

    /// Whether `e` is the first thing that is wrong with a configuration that is not servable.
    pub open spec fn is_fault(self, e: ConfigError, library_exists: bool, library_is_dir: bool) -> bool {
        if !library_exists {
            e matches ConfigError::LibraryNotFound(p) && p@ == self.library@
        } else if !library_is_dir {
            e matches ConfigError::LibraryNotDir(p) && p@ == self.library@
        } else {
            &&& !self.is_servable(library_exists, library_is_dir)
            &&& e matches ConfigError::MetricsBindConflict { metrics, bind }
            &&& Some(metrics) == self.metrics_bind
            &&& bind == self.bind
        }
    }

    /// Whether `e` says that the data directory could not be made, and why.
    pub open spec fn is_data_dir_fault(self, e: ConfigError, why: Seq<char>) -> bool {
        e matches ConfigError::DataDir { path, reason } && path@ == self.data_dir@ && reason@ == why
    }

    /// Checks a configuration, given whether the library path exists and whether it is a
    /// directory. A metrics listener that would fight with the server is caught here, not by an
    /// "address in use" later on.
    pub fn validate(&self, library_exists: bool, library_is_dir: bool) -> (r: Result<(), ConfigError>)
        ensures
            match r {
                Ok(_) => self.is_servable(library_exists, library_is_dir),
                Err(e) => self.is_fault(e, library_exists, library_is_dir),
            },
            !library_exists ==> (r matches Err(ConfigError::LibraryNotFound(p)) && p@ == self.library@),
            library_exists && !library_is_dir ==> (r matches Err(ConfigError::LibraryNotDir(p)) && p@
                == self.library@),
            library_exists && library_is_dir && (self.metrics_bind is None || self.metrics_bind->0.port
                != self.bind.port) ==> r is Ok,
            library_exists && library_is_dir && self.metrics_bind == Some(self.bind) ==> (r matches Err(
                ConfigError::MetricsBindConflict { metrics, bind },
            ) && metrics == self.bind && bind == self.bind),
    {
        if !library_exists {
            return Err(ConfigError::LibraryNotFound(self.library.clone()));
        }
        if !library_is_dir {
            return Err(ConfigError::LibraryNotDir(self.library.clone()));
        }
        if let Some(metrics) = self.metrics_bind {
            if binds_collide(metrics, self.bind) {
                return Err(ConfigError::MetricsBindConflict { metrics, bind: self.bind });
            }
        }
        Ok(())
    }

    /// Checks the data directory, given how making it went: it is there now, or it could not be
    /// made.
    pub fn data_dir_ready(&self, made: Result<(), String>) -> (r: Result<(), ConfigError>)
        ensures
            match made {
                Ok(_) => r is Ok,
                Err(why) => r matches Err(e) && self.is_data_dir_fault(e, why@),
            },
    {
        match made {
            Ok(_) => Ok(()),
            Err(reason) => Err(ConfigError::DataDir { path: self.data_dir.clone(), reason }),
        }
    }

    /// What a server that starts does next. `made` is how making the data directory went, `None`
    /// before it was tried: it is made only when everything else was found right.
    pub fn start_up(
        &self,
        library_exists: bool,
        library_is_dir: bool,
        made: Option<Result<(), String>>,
    ) -> (r: StartUp)
        ensures
            if !self.is_servable(library_exists, library_is_dir) {
                r matches StartUp::Refuse(e) && self.is_fault(e, library_exists, library_is_dir)
            } else {
                match made {
                    None => r matches StartUp::MakeDataDir(p) && p@ == self.data_dir@,
                    Some(Ok(_)) => r is Ready,
                    Some(Err(why)) => r matches StartUp::Refuse(e) && self.is_data_dir_fault(e, why@),
                }
            },
    {
        if let Err(e) = self.validate(library_exists, library_is_dir) {
            return StartUp::Refuse(e);
        }
        match made {
            None => StartUp::MakeDataDir(self.data_dir.clone()),
            Some(m) => match self.data_dir_ready(m) {
                Ok(_) => StartUp::Ready,
                Err(e) => StartUp::Refuse(e),
            },
        }
    }
}

// ---- What holds of it -----------------------------------------------------

/// Whether `u` is a word in small letters, or nothing.
pub open spec fn is_small_word(u: Seq<char>) -> bool {
    forall|i: int| 0 <= i < u.len() ==> 'a' <= #[trigger] u[i] && u[i] <= 'z'
}

proof fn lemma_first_letter(s: Seq<char>, from: int, to: int)
    requires
        0 <= from <= to <= s.len(),
        forall|i: int| from <= i < to ==> !is_letter(#[trigger] s[i]),
        to < s.len() ==> is_letter(s[to]),
    ensures
        first_letter(s, from) == to,
    decreases to - from,
{
    if from < to {
        assert(!is_letter(s[from]));
        lemma_first_letter(s, from + 1, to);
    }
}

proof fn lemma_amount(number: Seq<char>, unit: Seq<char>)
    requires
        number.len() > 0,
        forall|i: int| 0 <= i < number.len() ==> is_digit(#[trigger] number[i]) || number[i] == '.',
        is_small_word(unit),
    ensures
        plain(number + unit) == number + unit,
        number_part(number + unit) == number,
        unit_part(number + unit) == unit,
{
    let t = number + unit;
    let k = number.len() as int;
    assert forall|i: int| 0 <= i < t.len() implies !is_white(#[trigger] t[i]) && lower_char(t[i]) == t[i] by {
        if i < k {
            assert(t[i] == number[i]);
        } else {
            assert(t[i] == unit[i - k]);
        }
    }
    assert(!is_white(t[0]) && !is_white(t[t.len() - 1]));
    lemma_trim_stays(t);
    assert(lower(t) =~= t);
    assert forall|i: int| 0 <= i < k implies !is_letter(#[trigger] t[i]) by {
        assert(t[i] == number[i]);
    }
    if unit.len() > 0 {
        assert(t[k] == unit[0]);
    }
    lemma_first_letter(t, 0, k);
    assert(t.take(k) =~= number);
    assert(t.skip(k) =~= unit);
    assert(!is_white(t[0]) && !is_white(t[k - 1]));
    assert(number[0] == t[0] && number.last() == t[k - 1]);
    lemma_trim_stays(number);
    if unit.len() > 0 {
        assert(unit[0] == t[k] && unit.last() == t[t.len() - 1]);
    }
    lemma_trim_stays(unit);
}

proof fn lemma_amount_is_no_word(number: Seq<char>, unit: Seq<char>)
    requires
        number.len() > 0,
        is_digit(number[0]),
        number.len() + unit.len() > 1 || number[0] != '0',
    ensures
        !says_unbounded(number + unit),
        !says_never(number + unit),
{
    let t = number + unit;
    assert(t[0] == number[0]);
    reveal_strlit("0");
    reveal_strlit("off");
    reveal_strlit("none");
    reveal_strlit("unbounded");
    reveal_strlit("unlimited");
    reveal_strlit("never");
    reveal_strlit("");
    assert("0"@.len() == 1 && "0"@[0] == '0');
    assert("off"@.len() == 3 && "off"@[0] == 'o');
    assert("none"@.len() == 4 && "none"@[0] == 'n');
    assert("unbounded"@.len() == 9 && "unbounded"@[0] == 'u');
    assert("unlimited"@.len() == 9 && "unlimited"@[0] == 'u');
    assert("never"@.len() == 5 && "never"@[0] == 'n');
    assert(""@.len() == 0);
}

/// The words for units, letter by letter.
proof fn lemma_unit_words()
    ensures
        ""@.len() == 0,
        "b"@.len() == 1 && "b"@[0] == 'b',
        "d"@.len() == 1 && "d"@[0] == 'd',
        "day"@.len() == 3 && "day"@[0] == 'd' && "day"@[1] == 'a' && "day"@[2] == 'y',
        "days"@.len() == 4 && "days"@[0] == 'd' && "days"@[1] == 'a' && "days"@[2] == 'y'
            && "days"@[3] == 's',
        "g"@.len() == 1 && "g"@[0] == 'g',
        "gb"@.len() == 2 && "gb"@[0] == 'g' && "gb"@[1] == 'b',
        "gib"@.len() == 3 && "gib"@[0] == 'g' && "gib"@[1] == 'i' && "gib"@[2] == 'b',
        "h"@.len() == 1 && "h"@[0] == 'h',
        "hr"@.len() == 2 && "hr"@[0] == 'h' && "hr"@[1] == 'r',
        "hrs"@.len() == 3 && "hrs"@[0] == 'h' && "hrs"@[1] == 'r' && "hrs"@[2] == 's',
        "k"@.len() == 1 && "k"@[0] == 'k',
        "kb"@.len() == 2 && "kb"@[0] == 'k' && "kb"@[1] == 'b',
        "kib"@.len() == 3 && "kib"@[0] == 'k' && "kib"@[1] == 'i' && "kib"@[2] == 'b',
        "m"@.len() == 1 && "m"@[0] == 'm',
        "mb"@.len() == 2 && "mb"@[0] == 'm' && "mb"@[1] == 'b',
        "mib"@.len() == 3 && "mib"@[0] == 'm' && "mib"@[1] == 'i' && "mib"@[2] == 'b',
        "min"@.len() == 3 && "min"@[0] == 'm' && "min"@[1] == 'i' && "min"@[2] == 'n',
        "mins"@.len() == 4 && "mins"@[0] == 'm' && "mins"@[1] == 'i' && "mins"@[2] == 'n'
            && "mins"@[3] == 's',
        "s"@.len() == 1 && "s"@[0] == 's',
        "sec"@.len() == 3 && "sec"@[0] == 's' && "sec"@[1] == 'e' && "sec"@[2] == 'c',
        "secs"@.len() == 4 && "secs"@[0] == 's' && "secs"@[1] == 'e' && "secs"@[2] == 'c'
            && "secs"@[3] == 's',
        "t"@.len() == 1 && "t"@[0] == 't',
        "tb"@.len() == 2 && "tb"@[0] == 't' && "tb"@[1] == 'b',
        "tib"@.len() == 3 && "tib"@[0] == 't' && "tib"@[1] == 'i' && "tib"@[2] == 'b',
        "w"@.len() == 1 && "w"@[0] == 'w',
        "week"@.len() == 4 && "week"@[0] == 'w' && "week"@[1] == 'e' && "week"@[2] == 'e'
            && "week"@[3] == 'k',
        "weeks"@.len() == 5 && "weeks"@[0] == 'w' && "weeks"@[1] == 'e' && "weeks"@[2] == 'e'
            && "weeks"@[3] == 'k' && "weeks"@[4] == 's',
{
    reveal_strlit("");
    reveal_strlit("b");
    reveal_strlit("d");
    reveal_strlit("day");
    reveal_strlit("days");
    reveal_strlit("g");
    reveal_strlit("gb");
    reveal_strlit("gib");
    reveal_strlit("h");
    reveal_strlit("hr");
    reveal_strlit("hrs");
    reveal_strlit("k");
    reveal_strlit("kb");
    reveal_strlit("kib");
    reveal_strlit("m");
    reveal_strlit("mb");
    reveal_strlit("mib");
    reveal_strlit("min");
    reveal_strlit("mins");
    reveal_strlit("s");
    reveal_strlit("sec");
    reveal_strlit("secs");
    reveal_strlit("t");
    reveal_strlit("tb");
    reveal_strlit("tib");
    reveal_strlit("w");
    reveal_strlit("week");
    reveal_strlit("weeks");
}

/// Sizes count in powers of 1024, whatever the unit is called: a kilobyte is 1024 bytes, and each
/// larger unit 1024 of the one before it.
pub proof fn law_sizes_count_in_powers_of_1024(n: nat, unit: Seq<char>)
    requires
        n > 0,
    ensures
        (unit == ""@ || unit == "b"@)
            && n <= u64::MAX ==> size_value(dec(n) + unit) == Ok::<Option<nat>, Seq<char>>(
            Some(n),
        ),
        (unit == "k"@ || unit == "kb"@ || unit == "kib"@)
            && n * 1024 <= u64::MAX ==> size_value(dec(n) + unit) == Ok::<Option<nat>, Seq<char>>(
            Some((n * 1024) as nat),
        ),
        (unit == "m"@ || unit == "mb"@ || unit == "mib"@)
            && n * 1024 * 1024 <= u64::MAX ==> size_value(dec(n) + unit) == Ok::<Option<nat>, Seq<char>>(
            Some((n * 1024 * 1024) as nat),
        ),
        (unit == "g"@ || unit == "gb"@ || unit == "gib"@)
            && n * 1024 * 1024 * 1024 <= u64::MAX ==> size_value(dec(n) + unit) == Ok::<Option<nat>, Seq<char>>(
            Some((n * 1024 * 1024 * 1024) as nat),
        ),
        (unit == "t"@ || unit == "tb"@ || unit == "tib"@)
            && n * 1024 * 1024 * 1024 * 1024 <= u64::MAX ==> size_value(dec(n) + unit) == Ok::<Option<nat>, Seq<char>>(
            Some((n * 1024 * 1024 * 1024 * 1024) as nat),
        ),
{
    lemma_unit_words();
    if unit == ""@ || unit == "b"@ {
        assert(is_small_word(unit));
        assert(size_unit(unit) == Some(1u64));
        lemma_whole_size(n, unit, 1);
    }
    if unit == "k"@ || unit == "kb"@ || unit == "kib"@ {
        assert(is_small_word(unit));
        assert(size_unit(unit) == Some(1024u64));
        lemma_whole_size(n, unit, 1024);
    }
    if unit == "m"@ || unit == "mb"@ || unit == "mib"@ {
        assert(is_small_word(unit));
        assert(size_unit(unit) == Some(1_048_576u64));
        lemma_whole_size(n, unit, 1_048_576);
    }
    if unit == "g"@ || unit == "gb"@ || unit == "gib"@ {
        assert(is_small_word(unit));
        assert(size_unit(unit) == Some(1_073_741_824u64));
        lemma_whole_size(n, unit, 1_073_741_824);
    }
    if unit == "t"@ || unit == "tb"@ || unit == "tib"@ {
        assert(is_small_word(unit));
        assert(size_unit(unit) == Some(1_099_511_627_776u64));
        lemma_whole_size(n, unit, 1_099_511_627_776);
    }
}

proof fn lemma_whole_size(n: nat, unit: Seq<char>, u: u64)
    requires
        n > 0,
        is_small_word(unit),
        size_unit(unit) == Some(u),
        u > 0,
    ensures
        n * (u as nat) <= u64::MAX ==> size_value(dec(n) + unit) == Ok::<Option<nat>, Seq<char>>(Some(n * (u as nat))),
{
    let d = dec(n);
    lemma_dec_round_trip(n);
    assert(is_digit(d[0]));
    lemma_amount(d, unit);
    law_first_digit_counts(n);
    lemma_amount_is_no_word(d, unit);
    lemma_plain_number(d);
    assert(decimal_units(d, u as nat) == n * (u as nat));
    assert(n * (u as nat) > 0) by (nonlinear_arith)
        requires
            n > 0,
            u > 0,
    ;
}

/// A size may have a fraction: it is rounded down to whole bytes.
pub proof fn law_fractions_of_sizes_are_rounded_down(n: nat, f: Seq<char>)
    requires
        n > 0,
        all_digits(f),
        (n + 1) * 1_099_511_627_776 <= u64::MAX,
    ensures
        ({
            let p = pow10(f.len());
            let x = n * p + nat_of(f);
            let num = dec(n) + seq!['.'] + f;
            &&& size_value(num + "gb"@) matches Ok(Some(b)) && b * p <= x * 1_073_741_824 < (b + 1) * p
            &&& size_value(num + "mb"@) matches Ok(Some(b)) && b * p <= x * 1_048_576 < (b + 1) * p
            &&& size_value(num + "kb"@) matches Ok(Some(b)) && b * p <= x * 1024 < (b + 1) * p
        }),
{
    lemma_unit_words();
    let d = dec(n);
    let num = d + seq!['.'] + f;
    lemma_dec_round_trip(n);
    assert(is_digit(d[0]));
    assert(num[0] == d[0]);
    assert forall|i: int| 0 <= i < num.len() implies is_digit(#[trigger] num[i]) || num[i] == '.' by {
        if i < d.len() {
            assert(is_digit(d[i]));
        } else if i > d.len() {
            assert(num[i] == f[i - d.len() - 1]);
            assert(is_digit(f[i - d.len() - 1]));
        }
    }
    lemma_point_number(d, f);
    lemma_nat_of_parts(d, f);
    lemma_nat_of_bound(f);
    lemma_fraction_of_size(num, "gb"@, n, f, 1_073_741_824);
    lemma_fraction_of_size(num, "mb"@, n, f, 1_048_576);
    lemma_fraction_of_size(num, "kb"@, n, f, 1024);
}

proof fn lemma_fraction_of_size(num: Seq<char>, unit: Seq<char>, n: nat, f: Seq<char>, u: u64)
    requires
        n > 0,
        num.len() > 1,
        is_digit(num[0]),
        forall|i: int| 0 <= i < num.len() ==> is_digit(#[trigger] num[i]) || num[i] == '.',
        is_small_word(unit),
        size_unit(unit) == Some(u),
        0 < u <= 1_073_741_824,
        is_decimal(num),
        unsigned_part(num) == num,
        nat_of(f) < pow10(f.len()),
        (n + 1) * 1_099_511_627_776 <= u64::MAX,
        decimal_units(num, u as nat) == (n * pow10(f.len()) + nat_of(f)) * (u as nat) / pow10(f.len()),
    ensures
        ({
            let p = pow10(f.len());
            size_value(num + unit) matches Ok(Some(b)) && b * p <= (n * p + nat_of(f)) * u < (b + 1) * p
        }),
{
    let p = pow10(f.len());
    let x = n * p + nat_of(f);
    let w = u as nat;
    lemma_amount(num, unit);
    lemma_amount_is_no_word(num, unit);
    let b = x * w / p;
    assert(b * p <= x * w && x * w < (b + 1) * p) by (nonlinear_arith)
        requires
            b == x * w / p,
            p > 0,
            x * w >= 0,
    ;
    assert(x * w < (n + 1) * w * p) by (nonlinear_arith)
        requires
            x == n * p + nat_of(f),
            nat_of(f) < p,
            w > 0,
    ;
    assert(x * w >= n * w * p) by (nonlinear_arith)
        requires
            x >= n * p,
            w > 0,
    ;
    assert(b < (n + 1) * w) by (nonlinear_arith)
        requires
            b * p <= x * w,
            x * w < (n + 1) * w * p,
            p > 0,
    ;
    assert(b > 0) by (nonlinear_arith)
        requires
            x * w < (b + 1) * p,
            x * w >= n * w * p,
            n * w >= 1,
            p > 0,
            b >= 0,
    {
        assert(n * w * p >= p);
    }
    assert((n + 1) * w <= (n + 1) * 1_099_511_627_776) by (nonlinear_arith)
        requires
            w <= 1_099_511_627_776,
            n >= 0,
    ;
}

/// A size below 0, or in a unit that nobody knows, is refused; so is a duration in such a unit, and
/// one whose number is too large. The reason quotes what was refused.
pub proof fn law_some_amounts_are_refused(n: nat, unit: Seq<char>)
    requires
        n > 0,
        is_small_word(unit),
    ensures
        size_unit(unit) is None ==> size_value(dec(n) + unit) == Err::<Option<nat>, Seq<char>>(
            "unknown size unit "@ + debug_text(unit) + " (use B/KB/MB/GB/TB)"@,
        ),
        time_unit(unit) is None ==> duration_value(dec(n) + unit) is Err,
        time_unit(unit) is None && n <= u64::MAX ==> duration_value(dec(n) + unit) == Err::<Option<nat>, Seq<char>>(
            "unknown duration unit "@ + debug_text(unit) + " (use s/m/h/d/w)"@,
        ),
        n > u64::MAX ==> duration_value(dec(n) + unit) == Err::<Option<nat>, Seq<char>>(
            "not a whole number: "@ + debug_text(dec(n)),
        ),
        size_value(seq!['-'] + dec(n)) == Err::<Option<nat>, Seq<char>>(
            "not a positive size: "@ + debug_text(seq!['-'] + dec(n)),
        ),
{
    let d = dec(n);
    lemma_dec_round_trip(n);
    assert(is_digit(d[0]));
    lemma_amount(d, unit);
    law_first_digit_counts(n);
    lemma_amount_is_no_word(d, unit);
    let m = seq!['-'] + d;
    assert(m[0] == '-' && m.last() == d.last());
    assert(is_digit(d[d.len() - 1]));
    assert forall|i: int| 0 <= i < m.len() implies lower_char(#[trigger] m[i]) == m[i] && !is_letter(m[i]) by {
        if i > 0 {
            assert(m[i] == d[i - 1]);
            assert(is_digit(d[i - 1]));
        }
    }
    lemma_trim_stays(m);
    assert(lower(m) =~= m);
    lemma_first_letter(m, 0, m.len() as int);
    assert(m.take(m.len() as int) =~= m);
    assert(m.drop_first() =~= d);
    lemma_plain_number(d);
    reveal_strlit("0");
    reveal_strlit("off");
    reveal_strlit("none");
    reveal_strlit("unbounded");
    reveal_strlit("unlimited");
    reveal_strlit("");
    assert("0"@[0] == '0');
    assert("off"@[0] == 'o');
    assert("none"@[0] == 'n');
    assert("unbounded"@[0] == 'u');
    assert("unlimited"@[0] == 'u');
    assert(""@.len() == 0);
    assert(!says_unbounded(m));
    assert(!is_decimal(m) || !is_zero(m)) by {
        law_digits_of_a_plain_number(d);
    }
}

/// A word that names no amount is refused, for want of a number.
pub proof fn law_words_are_no_amounts(s: Seq<char>)
    requires
        s.len() > 0,
        is_small_word(s),
    ensures
        !(s == "off"@ || s == "none"@ || s == "unbounded"@ || s == "unlimited"@) ==> size_value(s) == Err::<
            Option<nat>,
            Seq<char>,
        >("not a number: "@ + debug_text(Seq::empty())),
        !(s == "off"@ || s == "none"@ || s == "never"@) ==> duration_value(s) == Err::<Option<nat>, Seq<char>>(
            "not a whole number: "@ + debug_text(Seq::empty()),
        ),
{
    assert forall|i: int| 0 <= i < s.len() implies !is_white(#[trigger] s[i]) && lower_char(s[i]) == s[i] by {}
    assert('a' <= s[0] && s[0] <= 'z');
    assert('a' <= s[s.len() - 1] && s[s.len() - 1] <= 'z');
    lemma_trim_stays(s);
    assert(lower(s) =~= s);
    lemma_first_letter(s, 0, 0);
    assert(s.take(0) =~= Seq::empty());
    lemma_trim_stays(Seq::empty());
    assert(number_part(s) =~= Seq::<char>::empty());
    reveal_strlit("");
    reveal_strlit("0");
    assert("0"@[0] == '0');
}

/// A size that says that there is no limit gives none, in any case and with white space round it;
/// so does a size of 0, whatever its unit is.
pub proof fn law_some_sizes_are_no_limit(s: Seq<char>)
    ensures
        ({
            let t = lower(trim(s));
            t == ""@ || t == "0"@ || t == "off"@ || t == "none"@ || t == "unbounded"@ || t == "unlimited"@
        }) ==> size_value(s) == Ok::<Option<nat>, Seq<char>>(None),
        ({
            let t = lower(trim(s));
            t == ""@ || t == "0"@ || t == "off"@ || t == "none"@ || t == "never"@
        }) ==> duration_value(s) == Ok::<Option<nat>, Seq<char>>(None),
{
}

/// Case, and white space round it, make no difference to what a size or a duration says.
pub proof fn law_amounts_read_alike_in_any_case(a: Seq<char>, b: Seq<char>)
    requires
        lower(trim(a)) == lower(trim(b)),
    ensures
        size_value(a) is Ok ==> size_value(b) == size_value(a),
        duration_value(b) == duration_value(a),
{
}

/// Durations count in seconds: a minute is 60 of them, an hour 60 minutes, a day 24 hours, a week
/// 7 days.
pub proof fn law_durations_count_in_seconds(n: nat, unit: Seq<char>)
    requires
        0 < n <= u64::MAX,
    ensures
        (unit == ""@ || unit == "s"@ || unit == "sec"@ || unit == "secs"@)
            && n <= u64::MAX ==> duration_value(dec(n) + unit) == Ok::<Option<nat>, Seq<char>>(
            Some(n),
        ),
        (unit == "m"@ || unit == "min"@ || unit == "mins"@)
            && n * 60 <= u64::MAX ==> duration_value(dec(n) + unit) == Ok::<Option<nat>, Seq<char>>(
            Some((n * 60) as nat),
        ),
        (unit == "h"@ || unit == "hr"@ || unit == "hrs"@)
            && n * 60 * 60 <= u64::MAX ==> duration_value(dec(n) + unit) == Ok::<Option<nat>, Seq<char>>(
            Some((n * 60 * 60) as nat),
        ),
        (unit == "d"@ || unit == "day"@ || unit == "days"@)
            && n * 24 * 60 * 60 <= u64::MAX ==> duration_value(dec(n) + unit) == Ok::<Option<nat>, Seq<char>>(
            Some((n * 24 * 60 * 60) as nat),
        ),
        (unit == "w"@ || unit == "week"@ || unit == "weeks"@)
            && n * 7 * 24 * 60 * 60 <= u64::MAX ==> duration_value(dec(n) + unit) == Ok::<Option<nat>, Seq<char>>(
            Some((n * 7 * 24 * 60 * 60) as nat),
        ),
{
    lemma_unit_words();
    if unit == ""@ || unit == "s"@ || unit == "sec"@ || unit == "secs"@ {
        assert(is_small_word(unit));
        assert(time_unit(unit) == Some(1u64));
        lemma_whole_duration(n, unit, 1);
    }
    if unit == "m"@ || unit == "min"@ || unit == "mins"@ {
        assert(is_small_word(unit));
        assert(time_unit(unit) == Some(60u64));
        lemma_whole_duration(n, unit, 60);
    }
    if unit == "h"@ || unit == "hr"@ || unit == "hrs"@ {
        assert(is_small_word(unit));
        assert(time_unit(unit) == Some(3600u64));
        lemma_whole_duration(n, unit, 3600);
    }
    if unit == "d"@ || unit == "day"@ || unit == "days"@ {
        assert(is_small_word(unit));
        assert(time_unit(unit) == Some(86_400u64));
        lemma_whole_duration(n, unit, 86_400);
    }
    if unit == "w"@ || unit == "week"@ || unit == "weeks"@ {
        assert(is_small_word(unit));
        assert(time_unit(unit) == Some(604_800u64));
        lemma_whole_duration(n, unit, 604_800);
    }
}

proof fn lemma_whole_duration(n: nat, unit: Seq<char>, u: u64)
    requires
        0 < n <= u64::MAX,
        is_small_word(unit),
        time_unit(unit) == Some(u),
        u > 0,
    ensures
        n * (u as nat) <= u64::MAX ==> duration_value(dec(n) + unit) == Ok::<Option<nat>, Seq<char>>(
            Some(n * (u as nat)),
        ),
{
    let d = dec(n);
    lemma_dec_round_trip(n);
    assert(is_digit(d[0]));
    lemma_amount(d, unit);
    law_first_digit_counts(n);
    lemma_amount_is_no_word(d, unit);
    assert(crate::text::unsigned_digits(d) == d);
    assert(unsigned_value(d, u64::MAX as nat) == Some(n));
    assert(n * (u as nat) > 0) by (nonlinear_arith)
        requires
            n > 0,
            u > 0,
    ;
}

/// A setting on the command line wins over the one in the file, and that over what holds where
/// nothing is set.
pub proof fn law_settings_are_layered(
    c: Config,
    cli: Cli,
    file: FileConfig,
    bind: BindAddr,
    metrics: Option<BindAddr>,
)
    requires
        is_resolution(c, cli, file, bind, metrics),
    ensures
        cli.library is Some ==> c.library@ == cli.library->0@,
        cli.library is None ==> file.library is Some && c.library@ == file.library->0@,
        cli.data_dir is Some ==> c.data_dir@ == cli.data_dir->0@,
        cli.data_dir is None && file.data_dir is Some ==> c.data_dir@ == file.data_dir->0@,
        cli.data_dir is None && file.data_dir is None ==> c.data_dir@ == "./data"@,
        cli.default_cover_url is Some ==> opt_text(c.default_cover_url) == opt_text(cli.default_cover_url),
        cli.default_cover_url is None ==> opt_text(c.default_cover_url) == opt_text(file.default_cover_url),
        cli.storage_mode is Some ==> Some(c.storage_mode) == cli.storage_mode,
        cli.storage_mode is None && file.storage_mode is Some ==> Some(c.storage_mode) == file.storage_mode,
        cli.storage_mode is None && file.storage_mode is None ==> c.storage_mode == StorageMode::Full,
        cli.transcode is Some ==> Some(c.transcode) == cli.transcode,
        cli.transcode is None && file.transcode is Some ==> Some(c.transcode) == file.transcode,
        cli.transcode is None && file.transcode is None ==> c.transcode == TranscodeMode::Off,
        c.force_embedded_chapters <==> cli.force_embedded_chapters || file.force_embedded_chapters == Some(true),
        c.remux_non_faststart <==> cli.remux_non_faststart || file.remux_non_faststart == Some(true),
        cli.cache_size is Some ==> size_value(cli.cache_size->0@) == Ok::<Option<nat>, Seq<char>>(
            opt_nat(c.cache_size_bytes),
        ),
        cli.cache_size is None && file.cache_size is Some ==> size_value(file.cache_size->0@) == Ok::<
            Option<nat>,
            Seq<char>,
        >(opt_nat(c.cache_size_bytes)),
        cli.cache_size is None && file.cache_size is None ==> c.cache_size_bytes == Some(2_147_483_648u64),
        cli.cache_ttl is Some ==> duration_value(cli.cache_ttl->0@) == Ok::<Option<nat>, Seq<char>>(
            opt_nat(c.cache_ttl),
        ),
        cli.cache_ttl is None && file.cache_ttl is Some ==> duration_value(file.cache_ttl->0@) == Ok::<
            Option<nat>,
            Seq<char>,
        >(opt_nat(c.cache_ttl)),
        cli.cache_ttl is None && file.cache_ttl is None ==> c.cache_ttl is None,
        c.bind == bind,
        cli.metrics_bind is Some || file.metrics_bind is Some ==> c.metrics_bind == metrics,
        cli.metrics_bind is None && file.metrics_bind is None ==> c.metrics_bind is None,
        cli.base_url is Some ==> c.base_url@ == trim_slashes(cli.base_url->0@),
        cli.base_url is None && file.base_url is Some ==> c.base_url@ == trim_slashes(file.base_url->0@),
        cli.base_url is None && file.base_url is None ==> c.base_url@ == trim_slashes(
            "http://localhost:"@ + dec(bind.port as nat),
        ),
{
}

/// The address that is listened on is that of the command line, else that of the file, else all
/// interfaces on port 8080.
pub proof fn law_bind_address_is_layered(cli: Cli, file: FileConfig)
    ensures
        cli.bind is Some ==> bind_value(cli, file) == cli.bind->0@,
        cli.bind is None && file.bind is Some ==> bind_value(cli, file) == file.bind->0@,
        cli.bind is None && file.bind is None ==> bind_value(cli, file) == "0.0.0.0:8080"@,
        cli.metrics_bind is Some ==> metrics_value(cli, file) == Some(cli.metrics_bind->0@),
        cli.metrics_bind is None ==> metrics_value(cli, file) == opt_text(file.metrics_bind),
{
}

/// What comes of an address has no `/` at its end, and nothing but `/`s was taken off.
pub proof fn law_only_slashes_are_taken_off(s: Seq<char>)
    ensures
        trim_slashes(s).len() > 0 ==> trim_slashes(s).last() != '/',
        trim_slashes(s).is_prefix_of(s),
        forall|i: int| trim_slashes(s).len() <= i < s.len() ==> #[trigger] s[i] == '/',
    decreases s.len(),
{
    if s.len() > 0 && s.last() == '/' {
        let t = s.drop_last();
        law_only_slashes_are_taken_off(t);
        assert forall|i: int| trim_slashes(s).len() <= i < s.len() implies #[trigger] s[i] == '/' by {
            if i < t.len() {
                assert(t[i] == s[i]);
            }
        }
        assert(trim_slashes(s) =~= s.subrange(0, trim_slashes(s).len() as int)) by {
            assert(trim_slashes(t) == t.subrange(0, trim_slashes(t).len() as int));
        }
    } else {
        assert(s =~= s.subrange(0, s.len() as int));
    }
}

} // verus!
