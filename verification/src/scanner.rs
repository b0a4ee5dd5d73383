//! The rules of ingest: what is audio and what is refused, what a book is
//! called, how its audio is stored, and which changes matter.

use vstd::prelude::*;
use vstd::string::StringExecFns;
use crate::config::{StorageMode, TranscodeMode};
use crate::http::{is_slug, is_slug_char};
use crate::paths::{components, ext_lower, file_name, file_stem_of, is_plain_name, is_under, join_from, join_names, joined, law_joined_lies_inside, law_under_is_transitive, lower_extension, names, names_start_with, path_components, path_file_name, path_is_under, path_stem};
use crate::splitter::Encoding;
use crate::text::{chars_are, chars_of, dec, dec_string, holds_text, is_digit, lemma_dec_injective, lemma_dec_round_trip, lower, lower_char, opt_str, slice_of, str_eq, string_of, texts, to_lower};

pub mod folder;
pub mod identity;
pub mod ingest;
pub mod library;
pub mod run;
pub mod scan;
pub mod watch;

verus! {

/// The server's settings for ingest. A book's own settings come before them.
#[derive(Debug, Clone, Copy, PartialEq, Eq, Structural)]
pub struct ScanOptions {
    /// Ignore sidecar chapters.
    pub force_embedded: bool,
    /// How chaptered books are stored.
    pub storage: StorageMode,
    /// Remux a non-faststart whole-file MP4.
    pub remux_non_faststart: bool,
    /// Whether, and to what, sources are re-encoded.
    pub transcode: TranscodeMode,
}

impl Default for ScanOptions {
    fn default() -> (r: Self)
        ensures
            r == (ScanOptions {
                force_embedded: false,
                storage: StorageMode::Full,
                remux_non_faststart: false,
                transcode: TranscodeMode::Off,
            }),
    {
        ScanOptions {
            force_embedded: false,
            storage: StorageMode::Full,
            remux_non_faststart: false,
            transcode: TranscodeMode::Off,
        }
    }
}

/// What a scan of the library did.
#[derive(Debug, Clone, Copy, PartialEq, Eq, Structural)]
pub struct ScanSummary {
    /// Books that were indexed.
    pub indexed: usize,
    /// Sources that were passed over.
    pub skipped: usize,
    /// Books that were taken out because their source is gone.
    pub pruned: usize,
}

impl Default for ScanSummary {
    fn default() -> (r: Self)
        ensures
            r == (ScanSummary { indexed: 0, skipped: 0, pruned: 0 }),
    {
        ScanSummary { indexed: 0, skipped: 0, pruned: 0 }
    }
}

// ---- Kinds of files -------------------------------------------------------

/// Whether a file is protected, by its extension. Such files are refused.
pub open spec fn drm(path: Seq<char>) -> bool {
    let e = lower_extension(path);
    e == Some("aax"@) || e == Some("aaxc"@) || e == Some("aa"@) || e == Some("odm"@)
}

/// Whether a file holds one book: `.m4b` or `.m4a`.
pub open spec fn is_m4x(path: Seq<char>) -> bool {
    let e = lower_extension(path);
    e == Some("m4b"@) || e == Some("m4a"@)
}

/// Whether a file is an MP3.
pub open spec fn is_mp3(path: Seq<char>) -> bool {
    lower_extension(path) == Some("mp3"@)
}

/// Whether a file is Ogg, Opus or FLAC.
pub open spec fn is_tier2(path: Seq<char>) -> bool {
    let e = lower_extension(path);
    e == Some("ogg"@) || e == Some("oga"@) || e == Some("opus"@) || e == Some("flac"@)
}

/// Whether a file is audio that can be ingested.
pub open spec fn audio(path: Seq<char>) -> bool {
    is_m4x(path) || is_mp3(path) || is_tier2(path)
}

/// Extensions and codecs, told apart by their first letters.
proof fn lemma_words_differ()
    ensures
        "m4b"@[0] == 'm' && "m4b"@[1] == '4' && "m4b"@[2] == 'b',
        "m4a"@[0] == 'm' && "m4a"@[1] == '4' && "m4a"@[2] == 'a',
        "mp3"@[0] == 'm' && "mp3"@[1] == 'p' && "mp3"@[2] == '3',
        "ogg"@[0] == 'o' && "ogg"@[1] == 'g' && "ogg"@[2] == 'g',
        "oga"@[0] == 'o' && "oga"@[1] == 'g' && "oga"@[2] == 'a',
        "opus"@[0] == 'o' && "opus"@[1] == 'p' && "opus"@[2] == 'u',
        "flac"@[0] == 'f' && "flac"@[1] == 'l' && "flac"@[2] == 'a',
        "vorbis"@[0] == 'v' && "vorbis"@[1] == 'o' && "vorbis"@[2] == 'r',
        "aac"@[0] == 'a' && "aac"@[1] == 'a' && "aac"@[2] == 'c',
{
    reveal_strlit("m4b");
    reveal_strlit("m4a");
    reveal_strlit("mp3");
    reveal_strlit("ogg");
    reveal_strlit("oga");
    reveal_strlit("opus");
    reveal_strlit("flac");
    reveal_strlit("vorbis");
    reveal_strlit("aac");
}

/// Whether a file is protected: such files are refused, and never worked around.
pub fn is_drm(path: &str) -> (r: bool)
    ensures
        r == drm(path@),
        r <==> {
            ||| lower_extension(path@) == Some("aax"@)
            ||| lower_extension(path@) == Some("aaxc"@)
            ||| lower_extension(path@) == Some("aa"@)
            ||| lower_extension(path@) == Some("odm"@)
        },
{
    match ext_lower(path) {
        Some(e) => str_eq(e.as_str(), "aax") || str_eq(e.as_str(), "aaxc") || str_eq(e.as_str(), "aa")
            || str_eq(e.as_str(), "odm"),
        None => false,
    }
}

/// What a file is to the scanner.
#[derive(Debug, Clone, Copy, PartialEq, Eq, Structural)]
pub enum AudioKind {
    M4x,
    Mp3,
    Tier2,
    Other,
}

/// What a path is to the scanner.
pub open spec fn kind_of(path: Seq<char>) -> AudioKind {
    if is_m4x(path) {
        AudioKind::M4x
    } else if is_mp3(path) {
        AudioKind::Mp3
    } else if is_tier2(path) {
        AudioKind::Tier2
    } else {
        AudioKind::Other
    }
}

/// What a path is to the scanner.
pub fn audio_kind(path: &str) -> (r: AudioKind)
    ensures
        r == kind_of(path@),
        lower_extension(path@) == Some("m4b"@) ==> r == AudioKind::M4x,
        lower_extension(path@) == Some("m4a"@) ==> r == AudioKind::M4x,
        lower_extension(path@) == Some("mp3"@) ==> r == AudioKind::Mp3,
        lower_extension(path@) == Some("ogg"@) ==> r == AudioKind::Tier2,
        lower_extension(path@) == Some("oga"@) ==> r == AudioKind::Tier2,
        lower_extension(path@) == Some("opus"@) ==> r == AudioKind::Tier2,
        lower_extension(path@) == Some("flac"@) ==> r == AudioKind::Tier2,
        lower_extension(path@) is None ==> r == AudioKind::Other,
{
    proof {
        lemma_words_differ();
    }
    match ext_lower(path) {
        Some(e) => {
            if str_eq(e.as_str(), "m4b") || str_eq(e.as_str(), "m4a") {
                AudioKind::M4x
            } else if str_eq(e.as_str(), "mp3") {
                AudioKind::Mp3
            } else if str_eq(e.as_str(), "ogg") || str_eq(e.as_str(), "oga") || str_eq(e.as_str(), "opus")
                || str_eq(e.as_str(), "flac") {
                AudioKind::Tier2
            } else {
                AudioKind::Other
            }
        },
        None => AudioKind::Other,
    }
}

/// Whether a file is audio that can be ingested.
pub fn is_audio(path: &str) -> (r: bool)
    ensures
        r == audio(path@),
        r <==> {
            ||| lower_extension(path@) == Some("m4b"@)
            ||| lower_extension(path@) == Some("m4a"@)
            ||| lower_extension(path@) == Some("mp3"@)
            ||| lower_extension(path@) == Some("ogg"@)
            ||| lower_extension(path@) == Some("oga"@)
            ||| lower_extension(path@) == Some("opus"@)
            ||| lower_extension(path@) == Some("flac"@)
        },
{
    audio_kind(path) != AudioKind::Other
}

/// No protected file is ever taken for audio.
pub proof fn law_drm_is_never_audio(path: Seq<char>)
    requires
        drm(path),
    ensures
        !audio(path),
{
    reveal_strlit("aax");
    reveal_strlit("aaxc");
    reveal_strlit("aa");
    reveal_strlit("odm");
    reveal_strlit("m4b");
    reveal_strlit("m4a");
    reveal_strlit("mp3");
    reveal_strlit("ogg");
    reveal_strlit("oga");
    reveal_strlit("opus");
    reveal_strlit("flac");
    assert("aax"@[0] == 'a' && "aaxc"@[0] == 'a' && "aa"@[0] == 'a');
    assert("odm"@[0] == 'o' && "odm"@[1] == 'd' && "odm"@.len() == 3);
    assert("m4b"@[0] == 'm' && "m4a"@[0] == 'm' && "mp3"@[0] == 'm' && "flac"@[0] == 'f');
    assert("ogg"@[0] == 'o' && "ogg"@[1] == 'g' && "oga"@[0] == 'o' && "oga"@[1] == 'g');
    assert("opus"@[0] == 'o' && "opus"@.len() == 4);
}

// ---- Codecs ---------------------------------------------------------------

/// The container that a codec is copied into; each has its own.
pub open spec fn container_of(codec: Option<Seq<char>>) -> Seq<char> {
    if codec == Some("mp3"@) {
        "mp3"@
    } else if codec == Some("flac"@) {
        "flac"@
    } else if codec == Some("vorbis"@) {
        "ogg"@
    } else if codec == Some("opus"@) {
        "opus"@
    } else {
        "m4a"@
    }
}

/// The extension of the container that a codec is copied into.
pub fn output_ext(codec: Option<&str>) -> (r: &'static str)
    ensures
        r@ == container_of(opt_str(codec)),
        opt_str(codec) == Some("mp3"@) ==> r@ == "mp3"@,
        opt_str(codec) == Some("flac"@) ==> r@ == "flac"@,
        opt_str(codec) == Some("vorbis"@) ==> r@ == "ogg"@,
        opt_str(codec) == Some("opus"@) ==> r@ == "opus"@,
        opt_str(codec) == Some("aac"@) ==> r@ == "m4a"@,
        codec is None ==> r@ == "m4a"@,
{
    proof {
        lemma_words_differ();
    }
    match codec {
        Some(c) => {
            if str_eq(c, "mp3") {
                "mp3"
            } else if str_eq(c, "flac") {
                "flac"
            } else if str_eq(c, "vorbis") {
                "ogg"
            } else if str_eq(c, "opus") {
                "opus"
            } else {
                "m4a"
            }
        },
        None => "m4a",
    }
}

/// Whether every podcast app plays a codec. One that is not known counts as such: a guess would
/// cost a re-encode of a file that probably plays.
pub open spec fn plays_everywhere(codec: Option<Seq<char>>) -> bool {
    codec is None || codec == Some("mp3"@) || codec == Some("aac"@)
}

/// Whether every podcast app plays a codec.
pub fn is_podcast_safe(codec: Option<&str>) -> (r: bool)
    ensures
        r == plays_everywhere(opt_str(codec)),
        r <==> codec is None || opt_str(codec) == Some("mp3"@) || opt_str(codec) == Some("aac"@),
{
    match codec {
        Some(c) => str_eq(c, "mp3") || str_eq(c, "aac"),
        None => true,
    }
}

/// How a book's episodes are made: re-encoded only if that is switched on and the codec does not
/// play everywhere.
pub open spec fn encoding_of(codec: Option<Seq<char>>, mode: TranscodeMode) -> Encoding {
    if plays_everywhere(codec) {
        Encoding::Copy
    } else {
        match mode {
            TranscodeMode::Off => Encoding::Copy,
            TranscodeMode::Aac => Encoding::Aac,
            TranscodeMode::Mp3 => Encoding::Mp3,
        }
    }
}

/// How a book's episodes are made.
pub fn encoding_for(codec: Option<&str>, mode: TranscodeMode) -> (r: Encoding)
    ensures
        r == encoding_of(opt_str(codec), mode),
        mode == TranscodeMode::Off ==> r == Encoding::Copy,
        codec is None || opt_str(codec) == Some("mp3"@) || opt_str(codec) == Some("aac"@) ==> r == Encoding::Copy,
        codec is Some && opt_str(codec) != Some("mp3"@) && opt_str(codec) != Some("aac"@) ==> {
            &&& mode == TranscodeMode::Aac ==> r == Encoding::Aac
            &&& mode == TranscodeMode::Mp3 ==> r == Encoding::Mp3
        },
{
    if is_podcast_safe(codec) {
        return Encoding::Copy;
    }
    match mode {
        TranscodeMode::Off => Encoding::Copy,
        TranscodeMode::Aac => Encoding::Aac,
        TranscodeMode::Mp3 => Encoding::Mp3,
    }
}

/// The container of an episode: that of the target for a re-encode, else that of the codec.
pub open spec fn episode_container(codec: Option<Seq<char>>, enc: Encoding) -> Seq<char> {
    match enc {
        Encoding::Copy => container_of(codec),
        Encoding::Aac => "m4a"@,
        Encoding::Mp3 => "mp3"@,
    }
}

/// The extension of an episode.
pub fn episode_ext(codec: Option<&str>, enc: Encoding) -> (r: &'static str)
    ensures
        r@ == episode_container(opt_str(codec), enc),
        enc == Encoding::Aac ==> r@ == "m4a"@,
        enc == Encoding::Mp3 ==> r@ == "mp3"@,
        enc == Encoding::Copy ==> {
            &&& opt_str(codec) == Some("mp3"@) ==> r@ == "mp3"@
            &&& opt_str(codec) == Some("flac"@) ==> r@ == "flac"@
            &&& opt_str(codec) == Some("vorbis"@) ==> r@ == "ogg"@
            &&& opt_str(codec) == Some("opus"@) ==> r@ == "opus"@
            &&& opt_str(codec) == Some("aac"@) || codec is None ==> r@ == "m4a"@
        },
{
    match enc {
        Encoding::Copy => output_ext(codec),
        Encoding::Aac => "m4a",
        Encoding::Mp3 => "mp3",
    }
}

/// An episode that plays everywhere, or that nobody asked to re-encode, is copied, whatever the
/// mode is; any other is encoded as the mode asks for, and gets the container of that codec.
pub proof fn law_encoding_suits_codec_and_mode(codec: Option<Seq<char>>, mode: TranscodeMode)
    ensures
        encoding_of(codec, mode) == Encoding::Copy <==> {
            ||| mode == TranscodeMode::Off
            ||| codec is None
            ||| codec == Some("mp3"@)
            ||| codec == Some("aac"@)
        },
        encoding_of(codec, mode) == Encoding::Aac ==> mode == TranscodeMode::Aac && episode_container(
            codec,
            encoding_of(codec, mode),
        ) == "m4a"@,
        encoding_of(codec, mode) == Encoding::Mp3 ==> mode == TranscodeMode::Mp3 && episode_container(
            codec,
            encoding_of(codec, mode),
        ) == "mp3"@,
        codec == Some("mp3"@) ==> episode_container(codec, Encoding::Copy) == "mp3"@,
        codec == Some("flac"@) ==> episode_container(codec, Encoding::Copy) == "flac"@,
        codec == Some("vorbis"@) ==> episode_container(codec, Encoding::Copy) == "ogg"@,
        codec == Some("opus"@) ==> episode_container(codec, Encoding::Copy) == "opus"@,
        codec == Some("aac"@) ==> episode_container(codec, Encoding::Copy) == "m4a"@,
{
    lemma_words_differ();
}

/// What a file is to the scanner goes by its extension, in any case.
pub proof fn law_kinds_go_by_extension(path: Seq<char>)
    ensures
        kind_of(path) == AudioKind::M4x <==> lower_extension(path) == Some("m4b"@) || lower_extension(path) == Some(
            "m4a"@,
        ),
        kind_of(path) == AudioKind::Mp3 <==> lower_extension(path) == Some("mp3"@),
        kind_of(path) == AudioKind::Tier2 <==> {
            ||| lower_extension(path) == Some("ogg"@)
            ||| lower_extension(path) == Some("oga"@)
            ||| lower_extension(path) == Some("opus"@)
            ||| lower_extension(path) == Some("flac"@)
        },
        audio(path) <==> kind_of(path) != AudioKind::Other,
        drm(path) <==> {
            ||| lower_extension(path) == Some("aax"@)
            ||| lower_extension(path) == Some("aaxc"@)
            ||| lower_extension(path) == Some("aa"@)
            ||| lower_extension(path) == Some("odm"@)
        },
{
    lemma_words_differ();
}

/// What a file that is indexed already should have been re-encoded to, judged by its extension.
/// `None` if only a probe could tell: an `.m4b` holds AAC or ALAC.
pub open spec fn transcode_expected(path: Seq<char>, mode: TranscodeMode) -> Option<TranscodeMode> {
    if mode == TranscodeMode::Off {
        Some(TranscodeMode::Off)
    } else if is_tier2(path) {
        Some(mode)
    } else if is_mp3(path) {
        Some(TranscodeMode::Off)
    } else {
        None
    }
}

/// What a file that is indexed already should have been re-encoded to, judged by its extension.
pub fn expected_transcode(path: &str, mode: TranscodeMode) -> (r: Option<TranscodeMode>)
    ensures
        r == transcode_expected(path@, mode),
{
    if !mode.is_on() {
        return Some(TranscodeMode::Off);
    }
    proof {
        reveal_strlit("m4b");
        reveal_strlit("m4a");
        reveal_strlit("mp3");
        reveal_strlit("ogg");
        reveal_strlit("oga");
        reveal_strlit("opus");
        reveal_strlit("flac");
        assert("m4b"@[0] == 'm' && "m4a"@[0] == 'm' && "mp3"@[0] == 'm');
        assert("m4b"@[1] == '4' && "m4a"@[1] == '4' && "mp3"@[1] == 'p');
        assert("ogg"@[0] == 'o' && "oga"@[0] == 'o' && "opus"@[0] == 'o' && "flac"@[0] == 'f');
    }
    match audio_kind(path) {
        AudioKind::Tier2 => Some(mode),
        AudioKind::Mp3 => Some(TranscodeMode::Off),
        _ => None,
    }
}

/// The extension of a cover, by its codec.
pub fn cover_ext(codec: Option<&str>) -> (r: &'static str)
    ensures
        r@ == if opt_str(codec) == Some("png"@) {
            "png"@
        } else {
            "jpg"@
        },
{
    match codec {
        Some(c) => if str_eq(c, "png") {
            "png"
        } else {
            "jpg"
        },
        None => "jpg",
    }
}

// ---- Names ----------------------------------------------------------------

/// The stem of a path's file name; `book` if it has none.
pub open spec fn stem_or_book(path: Seq<char>) -> Seq<char> {
    match file_stem_of(path) {
        Some(s) => s,
        None => "book"@,
    }
}

/// The stem of a path's file name; `book` if it has none.
pub fn file_stem(path: &str) -> (r: String)
    ensures
        r@ == stem_or_book(path@),
        file_stem_of(path@) is Some ==> r@ == file_stem_of(path@)->0,
        file_stem_of(path@) is None ==> r@ == "book"@,
{
    match path_stem(path) {
        Some(s) => s,
        None => "book".to_owned(),
    }
}

/// The name that a path ends in; `book` if it has none.
pub open spec fn name_or_book(path: Seq<char>) -> Seq<char> {
    match file_name(path) {
        Some(s) => s,
        None => "book"@,
    }
}

/// The name of a directory; `book` if it has none.
pub fn dir_name(dir: &str) -> (r: String)
    ensures
        r@ == name_or_book(dir@),
        file_name(dir@) is Some ==> r@ == file_name(dir@)->0,
        file_name(dir@) is None ==> r@ == "book"@,
{
    match path_file_name(dir) {
        Some(n) => string_of(&n),
        None => "book".to_owned(),
    }
}

pub open spec fn is_alnum(c: char) -> bool {
    ('a' <= c && c <= 'z') || ('A' <= c && c <= 'Z') || ('0' <= c && c <= '9')
}

/// The first place at or after `from` with a letter or digit (or without one); `s.len()` if none.
pub open spec fn alnum_from(s: Seq<char>, want: bool, from: int) -> int
    decreases s.len() - from,
{
    if from < 0 || from >= s.len() {
        s.len() as int
    } else if is_alnum(s[from]) == want {
        from
    } else {
        alnum_from(s, want, from + 1)
    }
}

proof fn lemma_alnum_from(s: Seq<char>, want: bool, from: int)
    requires
        0 <= from <= s.len(),
    ensures
        from <= alnum_from(s, want, from) <= s.len(),
        alnum_from(s, want, from) < s.len() ==> is_alnum(s[alnum_from(s, want, from)]) == want,
        forall|i: int| from <= i < alnum_from(s, want, from) ==> is_alnum(#[trigger] s[i]) != want,
    decreases s.len() - from,
{
    if from < s.len() && is_alnum(s[from]) != want {
        lemma_alnum_from(s, want, from + 1);
    }
}

/// The runs of ASCII letters and digits in `s` from `from` on, in lower case.
pub open spec fn runs_from(s: Seq<char>, from: int) -> Seq<Seq<char>>
    decreases s.len() - from,
    when 0 <= from <= s.len()
    via runs_from_decreases
{
    let i = alnum_from(s, true, from);
    if i >= s.len() {
        Seq::empty()
    } else {
        let j = alnum_from(s, false, i);
        seq![lower(s.subrange(i, j))] + runs_from(s, j)
    }
}

#[via_fn]
proof fn runs_from_decreases(s: Seq<char>, from: int) {
    lemma_alnum_from(s, true, from);
    let i = alnum_from(s, true, from);
    if i < s.len() {
        lemma_alnum_from(s, false, i);
    }
}

/// The slug of a name: its runs of letters and digits, in lower case, with `-` between them;
/// `book` if there are none.
pub open spec fn slug_of(s: Seq<char>) -> Seq<char> {
    let runs = runs_from(s, 0);
    if runs.len() == 0 {
        "book"@
    } else {
        join_names(runs, "-"@)
    }
}

fn find_alnum(v: &Vec<char>, want: bool, from: usize) -> (r: usize)
    requires
        from <= v.len(),
    ensures
        r == alnum_from(v@, want, from as int),
        from <= r <= v.len(),
{
    let mut k: usize = from;
    while k < v.len()
        invariant
            from <= k <= v.len(),
            alnum_from(v@, want, from as int) == alnum_from(v@, want, k as int),
        decreases v.len() - k,
    {
        let c = v[k];
        if (('a' <= c && c <= 'z') || ('A' <= c && c <= 'Z') || ('0' <= c && c <= '9')) == want {
            return k;
        }
        k = k + 1;
    }
    k
}

/// Makes the slug of a name: lower-case letters and digits, `-` for each run of anything else.
pub fn slugify(s: &str) -> (r: String)
    ensures
        r@ == slug_of(s@),
{
    let v = chars_of(s);
    let ghost all = runs_from(v@, 0);
    let mut runs: Vec<Vec<char>> = Vec::new();
    let mut from: usize = 0;
    assert(names(runs@) + runs_from(v@, 0) =~= all);
    loop
        invariant_except_break
            from <= v.len(),
            names(runs@) + runs_from(v@, from as int) == all,
        ensures
            names(runs@) == all,
        decreases v.len() - from,
    {
        let i = find_alnum(&v, true, from);
        if i >= v.len() {
            assert(names(runs@) + Seq::<Seq<char>>::empty() =~= names(runs@));
            break;
        }
        let j = find_alnum(&v, false, i);
        proof {
            lemma_alnum_from(v@, false, i as int);
        }
        let word = slice_of(&v, i, j);
        let ghost was = names(runs@);
        runs.push(to_lower(&word));
        proof {
            let run = lower(v@.subrange(i as int, j as int));
            assert(names(runs@) =~= was.push(run));
            assert(was + (seq![run] + runs_from(v@, j as int)) =~= was.push(run) + runs_from(v@, j as int));
            assert(j > i) by {
                lemma_alnum_from(v@, true, from as int);
                assert(is_alnum(v@[i as int]));
            }
        }
        from = j;
    }
    if runs.len() == 0 {
        assert(all.len() == 0);
        "book".to_owned()
    } else {
        assert(all.len() == runs@.len());
        assert(names(runs@).skip(0) =~= names(runs@));
        join_from(&runs, 0, "-")
    }
}

/// Whether a text is not empty and made of small letters and digits.
spec fn is_run(w: Seq<char>) -> bool {
    w.len() > 0 && forall|i: int| 0 <= i < w.len() ==> is_slug_char(#[trigger] w[i]) && w[i] != '-'
}

proof fn lemma_runs(s: Seq<char>, from: int)
    requires
        0 <= from <= s.len(),
    ensures
        forall|k: int| 0 <= k < runs_from(s, from).len() ==> is_run(#[trigger] runs_from(s, from)[k]),
    decreases s.len() - from,
{
    lemma_alnum_from(s, true, from);
    let i = alnum_from(s, true, from);
    if i < s.len() {
        lemma_alnum_from(s, false, i);
        let j = alnum_from(s, false, i);
        let w = lower(s.subrange(i, j));
        assert(j > i) by {
            assert(is_alnum(s[i]));
        }
        lemma_runs(s, j);
        assert forall|m: int| 0 <= m < w.len() implies is_slug_char(#[trigger] w[m]) && w[m] != '-' by {
            assert(w[m] == lower_char(s[i + m]));
            assert(is_alnum(s[i + m]));
        }
        let rest = runs_from(s, j);
        assert forall|k: int| 0 <= k < runs_from(s, from).len() implies is_run(
            #[trigger] runs_from(s, from)[k],
        ) by {
            if k > 0 {
                assert(runs_from(s, from)[k] == rest[k - 1]);
            }
        }
    }
}

proof fn lemma_joined_runs(runs: Seq<Seq<char>>)
    requires
        runs.len() > 0,
        forall|k: int| 0 <= k < runs.len() ==> is_run(#[trigger] runs[k]),
    ensures
        is_slug(join_names(runs, "-"@)),
        join_names(runs, "-"@)[0] != '-',
        join_names(runs, "-"@).last() != '-',
        !doubles_dash(join_names(runs, "-"@)),
    decreases runs.len(),
{
    reveal_strlit("-");
    let w = runs.last();
    assert(is_run(w));
    if runs.len() == 1 {
        assert(is_run(runs[0]));
        let s = join_names(runs, "-"@);
        assert(s == runs[0]);
        assert forall|i: int| 0 <= i < s.len() implies is_slug_char(#[trigger] s[i]) by {}
        assert(s[0] != '-');
        assert(s[s.len() - 1] != '-');
        assert forall|i: int| 0 <= i < s.len() - 1 implies !(#[trigger] s[i] == '-' && s[i + 1] == '-') by {
            assert(s[i] == runs[0][i]);
        }
    } else {
        let front = runs.drop_last();
        assert forall|k: int| 0 <= k < front.len() implies is_run(#[trigger] front[k]) by {
            assert(front[k] == runs[k]);
        }
        lemma_joined_runs(front);
        let a = join_names(front, "-"@);
        let s = join_names(runs, "-"@);
        assert(s == a + "-"@ + w);
        assert forall|i: int| 0 <= i < s.len() implies is_slug_char(#[trigger] s[i]) by {
            if i < a.len() {
                assert(s[i] == a[i]);
            } else if i == a.len() {
                assert(s[i] == '-');
            } else {
                assert(s[i] == w[i - a.len() - 1]);
            }
        }
        assert(s[0] == a[0]);
        assert(s[s.len() - 1] == w[w.len() - 1]);
        assert forall|i: int| 0 <= i < s.len() - 1 implies !(#[trigger] s[i] == '-' && s[i + 1] == '-') by {
            let k = a.len() as int;
            if i < k - 1 {
                assert(s[i] == a[i] && s[i + 1] == a[i + 1]);
                assert(!(a[i] == '-' && a[i + 1] == '-'));
            } else if i == k - 1 {
                assert(s[i] == a[k - 1]);
            } else if i == k {
                assert(s[i + 1] == w[0]);
            } else {
                assert(s[i] == w[i - k - 1]);
            }
        }
    }
}

/// Whether two dashes stand side by side in `s`.
pub open spec fn doubles_dash(s: Seq<char>) -> bool {
    exists|i: int| 0 <= i < s.len() - 1 && #[trigger] s[i] == '-' && s[i + 1] == '-'
}

/// The letters and digits of `s`, in order.
pub open spec fn alnums(s: Seq<char>) -> Seq<char>
    decreases s.len(),
{
    if s.len() == 0 {
        Seq::empty()
    } else if is_alnum(s.last()) {
        alnums(s.drop_last()).push(s.last())
    } else {
        alnums(s.drop_last())
    }
}

/// `s` without its dashes.
pub open spec fn undashed(s: Seq<char>) -> Seq<char>
    decreases s.len(),
{
    if s.len() == 0 {
        Seq::empty()
    } else if s.last() != '-' {
        undashed(s.drop_last()).push(s.last())
    } else {
        undashed(s.drop_last())
    }
}

/// The texts of `runs`, one behind the other.
spec fn flat(runs: Seq<Seq<char>>) -> Seq<char>
    decreases runs.len(),
{
    if runs.len() == 0 {
        Seq::empty()
    } else {
        flat(runs.drop_last()) + runs.last()
    }
}

proof fn lemma_undashed_slug(s: Seq<char>)
    requires
        forall|i: int| 0 <= i < s.len() ==> is_slug_char(#[trigger] s[i]),
    ensures
        undashed(s) == alnums(s),
    decreases s.len(),
{
    if s.len() > 0 {
        let t = s.drop_last();
        assert forall|i: int| 0 <= i < t.len() implies is_slug_char(#[trigger] t[i]) by {
            assert(is_slug_char(s[i]));
        }
        lemma_undashed_slug(t);
        assert(is_slug_char(s[s.len() - 1]));
    }
}

proof fn lemma_alnums_of_sum(a: Seq<char>, b: Seq<char>)
    ensures
        alnums(a + b) == alnums(a) + alnums(b),
    decreases b.len(),
{
    if b.len() == 0 {
        assert(a + b =~= a);
        assert(alnums(a) + alnums(b) =~= alnums(a));
    } else {
        lemma_alnums_of_sum(a, b.drop_last());
        assert((a + b).drop_last() =~= a + b.drop_last());
        assert((a + b).last() == b.last());
        assert(alnums(a + b) =~= alnums(a) + alnums(b));
    }
}

proof fn lemma_alnums_all_or_none(s: Seq<char>)
    ensures
        (forall|i: int| 0 <= i < s.len() ==> is_alnum(#[trigger] s[i])) ==> alnums(s) == s,
        (forall|i: int| 0 <= i < s.len() ==> !is_alnum(#[trigger] s[i])) ==> alnums(s).len() == 0,
    decreases s.len(),
{
    if s.len() > 0 {
        let t = s.drop_last();
        lemma_alnums_all_or_none(t);
        assert(s[s.len() - 1] == s.last());
        if forall|i: int| 0 <= i < s.len() ==> is_alnum(#[trigger] s[i]) {
            assert forall|i: int| 0 <= i < t.len() implies is_alnum(#[trigger] t[i]) by {
                assert(is_alnum(s[i]));
            }
            assert(alnums(s) =~= s);
        }
        if forall|i: int| 0 <= i < s.len() ==> !is_alnum(#[trigger] s[i]) {
            assert forall|i: int| 0 <= i < t.len() implies !is_alnum(#[trigger] t[i]) by {
                assert(!is_alnum(s[i]));
            }
        }
    }
}

proof fn lemma_alnums_of_joined(runs: Seq<Seq<char>>)
    requires
        forall|k: int| 0 <= k < runs.len() ==> is_run(#[trigger] runs[k]),
    ensures
        alnums(join_names(runs, "-"@)) == flat(runs),
    decreases runs.len(),
{
    reveal_strlit("-");
    if runs.len() > 0 {
        let w = runs.last();
        assert(w == runs[runs.len() - 1]);
        assert(is_run(w));
        lemma_alnums_all_or_none(w);
        let front = runs.drop_last();
        assert forall|k: int| 0 <= k < front.len() implies is_run(#[trigger] front[k]) by {
            assert(front[k] == runs[k]);
        }
        lemma_alnums_of_joined(front);
        if runs.len() == 1 {
            assert(flat(front) =~= Seq::empty());
            assert(flat(runs) =~= w);
        } else {
            let a = join_names(front, "-"@);
            lemma_alnums_all_or_none("-"@);
            lemma_alnums_of_sum(a, "-"@);
            lemma_alnums_of_sum(a + "-"@, w);
            assert(alnums(a) + alnums("-"@) =~= alnums(a));
        }
    }
}

proof fn lemma_flat_front(w: Seq<char>, rest: Seq<Seq<char>>)
    ensures
        flat(seq![w] + rest) == w + flat(rest),
    decreases rest.len(),
{
    let all = seq![w] + rest;
    if rest.len() == 0 {
        assert(all.drop_last() =~= Seq::empty());
        assert(all.last() == w);
        reveal_with_fuel(flat, 2);
        assert(flat(all) =~= w + flat(rest));
    } else {
        lemma_flat_front(w, rest.drop_last());
        assert(all.drop_last() =~= seq![w] + rest.drop_last());
        assert(all.last() == rest.last());
        assert(flat(all) =~= w + flat(rest));
    }
}

proof fn lemma_flat_runs(s: Seq<char>, from: int)
    requires
        0 <= from <= s.len(),
    ensures
        flat(runs_from(s, from)) == lower(alnums(s.skip(from))),
    decreases s.len() - from,
{
    lemma_alnum_from(s, true, from);
    let i = alnum_from(s, true, from);
    let gap = s.subrange(from, i);
    lemma_alnums_all_or_none(gap);
    assert forall|k: int| 0 <= k < gap.len() implies !is_alnum(#[trigger] gap[k]) by {
        assert(is_alnum(s[from + k]) != true);
    }
    if i >= s.len() {
        assert(gap =~= s.skip(from));
        assert(lower(alnums(s.skip(from))) =~= Seq::empty());
    } else {
        lemma_alnum_from(s, false, i);
        let j = alnum_from(s, false, i);
        let w = s.subrange(i, j);
        assert(j > i) by {
            assert(is_alnum(s[i]));
        }
        lemma_alnums_all_or_none(w);
        assert forall|k: int| 0 <= k < w.len() implies is_alnum(#[trigger] w[k]) by {
            assert(is_alnum(s[i + k]) != false);
        }
        lemma_flat_runs(s, j);
        lemma_flat_front(lower(w), runs_from(s, j));
        let rest = s.skip(j);
        assert(s.skip(from) =~= gap + (w + rest));
        lemma_alnums_of_sum(w, rest);
        lemma_alnums_of_sum(gap, w + rest);
        assert(alnums(s.skip(from)) =~= w + alnums(rest));
        assert(lower(w + alnums(rest)) =~= lower(w) + lower(alnums(rest)));
    }
}

proof fn lemma_join_front(runs: Seq<Seq<char>>)
    requires
        runs.len() > 1,
    ensures
        join_names(runs, "-"@) == runs[0] + "-"@ + join_names(runs.skip(1), "-"@),
    decreases runs.len(),
{
    let rest = runs.skip(1);
    let front = runs.drop_last();
    assert(runs.last() == rest.last());
    if runs.len() == 2 {
        assert(front =~= seq![runs[0]]);
        assert(rest =~= seq![runs[1]]);
        reveal_with_fuel(join_names, 2);
    } else {
        lemma_join_front(front);
        assert(front.skip(1) =~= rest.drop_last());
        let tail = join_names(rest.drop_last(), "-"@);
        assert((runs[0] + "-"@ + tail) + "-"@ + rest.last() =~= runs[0] + "-"@ + (tail + "-"@ + rest.last()));
    }
}

/// What was joined from runs parts into them again.
proof fn lemma_runs_of_joined(pre: Seq<char>, runs: Seq<Seq<char>>)
    requires
        runs.len() > 0,
        forall|k: int| 0 <= k < runs.len() ==> is_run(#[trigger] runs[k]),
    ensures
        runs_from(pre + join_names(runs, "-"@), pre.len() as int) == runs,
    decreases runs.len(),
{
    reveal_strlit("-");
    let w = runs[0];
    assert(is_run(w));
    let s = pre + join_names(runs, "-"@);
    let from = pre.len() as int;
    let end = from + w.len();
    let rest = runs.skip(1);
    if runs.len() > 1 {
        lemma_join_front(runs);
    }
    assert(end <= s.len());
    assert forall|k: int| 0 <= k < w.len() implies s[from + k] == #[trigger] w[k] by {}
    assert(is_alnum(s[from])) by {
        assert(s[from + 0] == w[0]);
    }
    assert(alnum_from(s, true, from) == from);
    lemma_alnum_from(s, false, from);
    let j = alnum_from(s, false, from);
    assert(j == end) by {
        if j < end {
            assert(s[from + (j - from)] == w[j - from]);
            assert(is_slug_char(w[j - from]));
        }
        if j > end {
            assert(s[end] == '-');
            assert(is_alnum(s[end]) != false);
        }
    }
    assert(lower(s.subrange(from, end)) =~= w) by {
        assert forall|k: int| 0 <= k < w.len() implies lower(s.subrange(from, end))[k] == w[k] by {
            assert(s[from + k] == w[k]);
            assert(is_slug_char(w[k]));
        }
    }
    if runs.len() == 1 {
        assert(end == s.len());
        assert(alnum_from(s, true, end) == s.len());
        assert(runs_from(s, end) =~= Seq::empty());
        assert(runs_from(s, from) =~= runs);
    } else {
        assert forall|k: int| 0 <= k < rest.len() implies is_run(#[trigger] rest[k]) by {
            assert(rest[k] == runs[k + 1]);
        }
        let longer = pre + w + "-"@;
        lemma_runs_of_joined(longer, rest);
        assert(longer + join_names(rest, "-"@) =~= s);
        assert(s[end] == '-');
        assert(alnum_from(s, true, end) == alnum_from(s, true, end + 1));
        assert(runs_from(s, end) == runs_from(s, end + 1));
        assert(runs_from(s, from) =~= seq![w] + rest);
        assert(seq![w] + rest =~= runs);
    }
}

proof fn lemma_book_is_a_run()
    ensures
        is_run("book"@),
{
    reveal_strlit("book");
    let b = "book"@;
    assert(b.len() == 4 && b[0] == 'b' && b[1] == 'o' && b[2] == 'o' && b[3] == 'k');
    assert forall|i: int| 0 <= i < b.len() implies is_slug_char(#[trigger] b[i]) && b[i] != '-' by {
        assert(i == 0 || i == 1 || i == 2 || i == 3);
    }
}

/// The runs of a slug.
spec fn slug_runs(name: Seq<char>) -> Seq<Seq<char>> {
    if runs_from(name, 0).len() > 0 {
        runs_from(name, 0)
    } else {
        seq!["book"@]
    }
}

proof fn lemma_slug_runs(name: Seq<char>)
    ensures
        slug_runs(name).len() > 0,
        forall|k: int| 0 <= k < slug_runs(name).len() ==> is_run(#[trigger] slug_runs(name)[k]),
        slug_of(name) == join_names(slug_runs(name), "-"@),
{
    lemma_runs(name, 0);
    lemma_book_is_a_run();
}

/// Whatever a book is called, its slug is one that the server accepts, and `-` stands inside it
/// only, never twice in a row.
pub proof fn law_slugs_are_valid(name: Seq<char>)
    ensures
        is_slug(slug_of(name)),
        slug_of(name)[0] != '-',
        slug_of(name).last() != '-',
        !doubles_dash(slug_of(name)),
{
    lemma_slug_runs(name);
    lemma_joined_runs(slug_runs(name));
}

/// A slug keeps every letter and digit of the name, in order and in lower case; without any, it is
/// `book`.
pub proof fn law_slugs_keep_letters_and_digits(name: Seq<char>)
    ensures
        undashed(slug_of(name)) == if alnums(name).len() > 0 {
            lower(alnums(name))
        } else {
            "book"@
        },
{
    lemma_slug_runs(name);
    lemma_joined_runs(slug_runs(name));
    lemma_undashed_slug(slug_of(name));
    lemma_alnums_of_joined(slug_runs(name));
    lemma_flat_runs(name, 0);
    assert(name.skip(0) =~= name);
    lemma_runs(name, 0);
    let runs = runs_from(name, 0);
    if runs.len() > 0 {
        assert(is_run(runs[runs.len() - 1]));
        assert(flat(runs).len() > 0);
    } else {
        assert(flat(runs).len() == 0);
        assert(seq!["book"@].drop_last() =~= Seq::<Seq<char>>::empty());
        assert(flat(seq!["book"@]) =~= "book"@) by {
            reveal_with_fuel(flat, 2);
        }
    }
    assert(lower(alnums(name)).len() == alnums(name).len());
}

/// A slug is its own slug.
pub proof fn law_a_slug_is_its_own_slug(name: Seq<char>)
    ensures
        slug_of(slug_of(name)) == slug_of(name),
{
    lemma_slug_runs(name);
    lemma_runs_of_joined(Seq::empty(), slug_runs(name));
    assert(Seq::<char>::empty() + slug_of(name) =~= slug_of(name));
}

// ---- Identity -------------------------------------------------------------

/// The slugs that are tried for a book, `n` from 1: `base`, `base-2`, `base-3`, ...
pub open spec fn slug_choice(base: Seq<char>, n: nat) -> Seq<char> {
    if n <= 1 {
        base
    } else {
        base + seq!['-'] + dec(n)
    }
}

/// Whether choice `n` is taken: in this scan already, or by an indexed book with another source.
pub open spec fn is_taken(base: Seq<char>, n: nat, seen: Seq<Seq<char>>, held: Seq<Seq<char>>) -> bool {
    seen.contains(slug_choice(base, n)) || held.contains(slug_choice(base, n))
}

/// Whether choice `n` is the first that is free.
pub open spec fn is_first_free(base: Seq<char>, n: nat, seen: Seq<Seq<char>>, held: Seq<Seq<char>>) -> bool {
    &&& n >= 1
    &&& !is_taken(base, n, seen, held)
    &&& forall|k: nat| 1 <= k < n ==> #[trigger] is_taken(base, k, seen, held)
}

proof fn lemma_choices_differ(base: Seq<char>, a: nat, b: nat)
    requires
        1 <= a,
        1 <= b,
        slug_choice(base, a) == slug_choice(base, b),
    ensures
        a == b,
{
    lemma_dec_round_trip(a);
    lemma_dec_round_trip(b);
    let x = slug_choice(base, a);
    let y = slug_choice(base, b);
    if a == 1 && b > 1 {
        assert(y.len() > x.len());
    } else if b == 1 && a > 1 {
        assert(x.len() > y.len());
    } else if a > 1 && b > 1 {
        let n = base.len() as int + 1;
        assert(x.skip(n) =~= dec(a));
        assert(y.skip(n) =~= dec(b));
        lemma_dec_injective(a, b);
    }
}

/// The first `n` choices.
spec fn choices(base: Seq<char>, n: nat) -> Seq<Seq<char>> {
    Seq::new(n, |i: int| slug_choice(base, (i + 1) as nat))
}

/// If the first `n` choices are all taken, at least `n` slugs are.
proof fn lemma_taken_bound(base: Seq<char>, n: nat, seen: Seq<Seq<char>>, held: Seq<Seq<char>>)
    requires
        forall|k: nat| 1 <= k <= n ==> #[trigger] is_taken(base, k, seen, held),
    ensures
        n <= seen.len() + held.len(),
{
    let c = choices(base, n);
    let all = seen + held;
    assert(c.no_duplicates()) by {
        assert forall|i: int, j: int| 0 <= i < c.len() && 0 <= j < c.len() && i != j implies c[i] != c[j] by {
            if c[i] == c[j] {
                lemma_choices_differ(base, (i + 1) as nat, (j + 1) as nat);
            }
        }
    }
    c.unique_seq_to_set();
    assert(c.to_set().subset_of(all.to_set())) by {
        assert forall|x: Seq<char>| c.to_set().contains(x) implies all.to_set().contains(x) by {
            let i = choose|i: int| 0 <= i < c.len() && c[i] == x;
            assert(is_taken(base, (i + 1) as nat, seen, held));
            if seen.contains(x) {
                let k = choose|k: int| 0 <= k < seen.len() && seen[k] == x;
                assert(all[k] == x);
            } else {
                let k = choose|k: int| 0 <= k < held.len() && held[k] == x;
                assert(all[seen.len() + k] == x);
            }
        }
    }
    all.lemma_cardinality_of_set();
    vstd::set_lib::lemma_len_subset(c.to_set(), all.to_set());
}

/// Chooses the slug of a new book, which becomes its id: the first free one. `seen` are the slugs
/// of this scan, which the choice joins; `held` are the ids of indexed books with another source.
/// An id that is held is never given away, since the book's feed would go with it; nor is it
/// used up, since the book that holds it may still come.
pub fn assign_slug(base: &str, seen: &mut Vec<String>, held: &Vec<String>) -> (r: String)
    requires
        old(seen).len() + held.len() < u64::MAX,
    ensures
        exists|n: nat| #[trigger]
            is_first_free(base@, n, texts(old(seen)@), texts(held@)) && r@ == slug_choice(base@, n),
        texts(final(seen)@) == texts(old(seen)@).push(r@),
        !texts(old(seen)@).contains(r@),
        !texts(held@).contains(r@),
{
    let ghost seen_before = texts(seen@);
    let ghost held_texts = texts(held@);
    let mut n: u64 = 1;
    loop
        invariant
            n >= 1,
            seen_before == texts(old(seen)@),
            texts(seen@) == seen_before,
            seen@.len() == old(seen)@.len(),
            held_texts == texts(held@),
            old(seen)@.len() + held@.len() < u64::MAX,
            n <= old(seen)@.len() + held@.len() + 1,
            forall|k: nat| 1 <= k < n ==> #[trigger] is_taken(base@, k, seen_before, held_texts),
        decreases old(seen)@.len() + held@.len() + 1 - n,
    {
        let candidate = if n == 1 {
            base.to_owned()
        } else {
            let mut c = base.to_owned();
            c.push('-');
            let d = dec_string(n as u128);
            c.append(d.as_str());
            assert(c@ =~= base@ + seq!['-'] + dec(n as nat));
            c
        };
        assert(candidate@ == slug_choice(base@, n as nat));
        if !holds_text(seen, candidate.as_str()) && !holds_text(held, candidate.as_str()) {
            let ghost was = seen@;
            seen.push(candidate.clone());
            assert(texts(seen@) =~= texts(was).push(candidate@));
            assert(is_first_free(base@, n as nat, seen_before, held_texts));
            return candidate;
        }
        proof {
            assert(is_taken(base@, n as nat, seen_before, held_texts));
            assert forall|k: nat| 1 <= k <= n as nat implies #[trigger] is_taken(
                base@,
                k,
                seen_before,
                held_texts,
            ) by {}
            lemma_taken_bound(base@, n as nat, seen_before, held_texts);
        }
        n = n + 1;
    }
}

/// Two books never share a slug, and none takes the slug of an indexed book with another source:
/// what is chosen is in neither list. There is only one such choice.
pub proof fn law_assigned_slug_is_free(
    base: Seq<char>,
    m: nat,
    n: nat,
    seen: Seq<Seq<char>>,
    held: Seq<Seq<char>>,
)
    requires
        is_first_free(base, m, seen, held),
        is_first_free(base, n, seen, held),
    ensures
        !seen.contains(slug_choice(base, n)),
        !held.contains(slug_choice(base, n)),
        m == n,
{
    if m < n {
        assert(is_taken(base, m, seen, held));
    } else if n < m {
        assert(is_taken(base, n, seen, held));
    }
}

/// A slug that got a number is still one that the server accepts.
pub proof fn law_numbered_slug_is_valid(base: Seq<char>, n: nat)
    requires
        is_slug(base),
    ensures
        is_slug(slug_choice(base, n)),
{
    if n > 1 {
        lemma_dec_round_trip(n);
        let s = slug_choice(base, n);
        assert forall|i: int| 0 <= i < s.len() implies is_slug_char(#[trigger] s[i]) by {
            if i < base.len() {
                assert(s[i] == base[i]);
            } else if i > base.len() {
                assert(s[i] == dec(n)[i - base.len() - 1]);
                assert(is_digit(dec(n)[i - base.len() - 1]));
            }
        }
    }
}

// ---- Changes that matter --------------------------------------------------

/// Whether a name is one that no scan looks at: hidden, or one of the caches that network
/// storage leaves behind.
pub open spec fn is_ignored(name: Seq<char>) -> bool {
    (name.len() > 0 && name[0] == '.') || name == "@eaDir"@ || name == "lost+found"@
}

/// Whether a name is one that no scan looks at.
pub fn is_ignored_name(name: &str) -> (r: bool)
    ensures
        r == is_ignored(name@),
        r <==> (name@.len() > 0 && name@[0] == '.') || name@ == "@eaDir"@ || name@ == "lost+found"@,
{
    let v = chars_of(name);
    (v.len() > 0 && v[0] == '.') || str_eq(name, "@eaDir") || str_eq(name, "lost+found")
}

/// Whether a directory is one that no scan enters.
pub fn is_ignored_dir(dir: &str) -> (r: bool)
    ensures
        r == (file_name(dir@) is Some && is_ignored(file_name(dir@)->0)),
{
    match path_file_name(dir) {
        Some(n) => {
            let s = string_of(&n);
            is_ignored_name(s.as_str())
        },
        None => false,
    }
}

/// Whether a component of a path is a name, and not `/`, `.` or `..`.
pub open spec fn is_normal(c: Seq<char>) -> bool {
    c != "/"@ && c != "."@ && c != ".."@
}

/// The components of `path` below `root`; all of them if it is not below.
pub open spec fn below(path: Seq<char>, root: Seq<char>) -> Seq<Seq<char>> {
    if is_under(path, root) {
        components(path).skip(components(root).len() as int)
    } else {
        components(path)
    }
}

/// Whether a changed path is one of the library's, and not something that no scan looks at:
/// neither output of the server's own, nor below a directory that is ignored.
pub open spec fn matters(
    path: Seq<char>,
    library_root: Seq<char>,
    data_dir: Seq<char>,
    data_really: Option<Seq<char>>,
) -> bool {
    &&& !is_under(path, data_dir)
    &&& data_really is Some ==> !is_under(path, data_really->0)
    &&& forall|i: int|
        0 <= i < below(path, library_root).len() && is_normal(#[trigger] below(path, library_root)[i])
            ==> !is_ignored(below(path, library_root)[i])
}

/// A change of a file in the library matters, unless the file is the server's own or hidden; so
/// does one in a directory of the library, unless that is hidden.
pub proof fn law_changes_in_the_library_matter(
    root: Seq<char>,
    dir: Seq<char>,
    name: Seq<char>,
    data_dir: Seq<char>,
    data_really: Option<Seq<char>>,
)
    requires
        is_plain_name(dir) && dir != ".."@,
        is_plain_name(name) && name != ".."@,
    ensures
        ({
            let file = joined(root, name);
            let deep = joined(joined(root, dir), name);
            let own_file = is_under(file, data_dir) || (data_really is Some && is_under(file, data_really->0));
            let own_deep = is_under(deep, data_dir) || (data_really is Some && is_under(deep, data_really->0));
            let hidden = name[0] == '.' || name == "@eaDir"@ || name == "lost+found"@;
            let hidden_dir = dir[0] == '.' || dir == "@eaDir"@ || dir == "lost+found"@;
            &&& matters(file, root, data_dir, data_really) <==> !own_file && !hidden
            &&& matters(deep, root, data_dir, data_really) <==> !own_deep && !hidden && !hidden_dir
        }),
{
    let file = joined(root, name);
    let deep = joined(joined(root, dir), name);
    law_joined_lies_inside(root, name);
    law_joined_lies_inside(root, dir);
    law_joined_lies_inside(joined(root, dir), name);
    law_under_is_transitive(deep, joined(root, dir), root);
    assert(below(file, root) =~= seq![name]);
    assert(below(deep, root) =~= seq![dir, name]);
    reveal_strlit("/");
    assert(name != "/"@ && dir != "/"@) by {
        assert("/"@[0] == '/');
    }
    assert(is_normal(name) && is_normal(dir));
    assert(below(file, root)[0] == name);
    assert(below(deep, root)[0] == dir && below(deep, root)[1] == name);
}

/// Whether a changed path is one of the library's. `data_really` is what the data directory really
/// is, where it could be looked up.
pub fn watch_path_is_relevant(
    path: &str,
    library_root: &str,
    data_dir: &str,
    data_really: Option<&str>,
) -> (r: bool)
    ensures
        r == matters(path@, library_root@, data_dir@, opt_str(data_really)),
{
    if path_is_under(path, data_dir) {
        return false;
    }
    if let Some(d) = data_really {
        if path_is_under(path, d) {
            return false;
        }
    }
    let c = path_components(path);
    let root = path_components(library_root);
    let start: usize = if names_start_with(&c, &root) {
        root.len()
    } else {
        0
    };
    let ghost rel = below(path@, library_root@);
    assert(rel =~= names(c@).skip(start as int));
    let mut i: usize = start;
    while i < c.len()
        invariant
            start <= i <= c.len(),
            rel == below(path@, library_root@),
            rel == names(c@).skip(start as int),
            forall|j: int| 0 <= j < i - start && is_normal(#[trigger] rel[j]) ==> !is_ignored(rel[j]),
        decreases c.len() - i,
    {
        assert(rel[i - start] == c@[i as int]@);
        let name = &c[i];
        let normal = !chars_are(name, "/") && !chars_are(name, ".") && !chars_are(name, "..");
        if normal {
            let s = string_of(name);
            if is_ignored_name(s.as_str()) {
                assert(is_normal(below(path@, library_root@)[i - start]));
                return false;
            }
        }
        i = i + 1;
    }
    true
}

/// Whether an event of the file system calls for a scan: not if it is a mere read; yes if it names
/// no path; else if one of its paths matters.
pub fn watch_event_is_relevant(
    is_read: bool,
    paths: &Vec<String>,
    library_root: &str,
    data_dir: &str,
    data_really: Option<&str>,
) -> (r: bool)
    ensures
        r == (!is_read && (paths@.len() == 0 || exists|i: int|
            0 <= i < paths@.len() && matters(
                (#[trigger] paths@[i])@,
                library_root@,
                data_dir@,
                opt_str(data_really),
            ))),
{
    if is_read {
        return false;
    }
    if paths.len() == 0 {
        return true;
    }
    let mut i: usize = 0;
    while i < paths.len()
        invariant
            i <= paths.len(),
            !is_read,
            paths.len() > 0,
            forall|j: int|
                0 <= j < i ==> !matters(
                    (#[trigger] paths@[j])@,
                    library_root@,
                    data_dir@,
                    opt_str(data_really),
                ),
        decreases paths.len() - i,
    {
        if watch_path_is_relevant(paths[i].as_str(), library_root, data_dir, data_really) {
            return true;
        }
        i = i + 1;
    }
    false
}

/// What the server writes itself never calls for a scan: a scan cannot set itself off again.
pub proof fn law_own_output_does_not_matter(
    path: Seq<char>,
    library_root: Seq<char>,
    data_dir: Seq<char>,
    data_really: Option<Seq<char>>,
)
    requires
        is_under(path, data_dir) || (data_really is Some && is_under(path, data_really->0)),
    ensures
        !matters(path, library_root, data_dir, data_really),
{
}

/// The slug of a book is its base if that is free; else the base with a `-` and the first number
/// behind it, from 2 on, that is free.
pub proof fn law_taken_slugs_are_numbered_from_two(
    base: Seq<char>,
    n: nat,
    seen: Seq<Seq<char>>,
    held: Seq<Seq<char>>,
)
    requires
        is_first_free(base, n, seen, held),
    ensures
        !seen.contains(base) && !held.contains(base) ==> slug_choice(base, n) == base,
        seen.contains(base) || held.contains(base) ==> {
            &&& n >= 2
            &&& slug_choice(base, n) == base + seq!['-'] + dec(n)
            &&& !seen.contains(base + seq!['-'] + dec(n)) && !held.contains(base + seq!['-'] + dec(n))
            &&& forall|k: nat|
                2 <= k < n ==> seen.contains(base + seq!['-'] + #[trigger] dec(k)) || held.contains(
                    base + seq!['-'] + dec(k),
                )
        },
{
    if !seen.contains(base) && !held.contains(base) {
        if n > 1 {
            assert(is_taken(base, 1, seen, held));
        }
    } else {
        assert(is_taken(base, 1, seen, held));
        assert forall|k: nat| 2 <= k < n implies seen.contains(base + seq!['-'] + #[trigger] dec(k)) || held.contains(
            base + seq!['-'] + dec(k),
        ) by {
            assert(is_taken(base, k, seen, held));
        }
    }
}

} // verus!
