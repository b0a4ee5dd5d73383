//! Cutting one audiobook file into per-chapter episodes: what `ffmpeg` is asked
//! to do, and what is done with its output.
//!
//! - `-ss` stands before `-i` (a fast seek by the index) and the duration is
//!   `-t <end - start>`. Never `-to`: together with `-ss` before `-i` it would
//!   yield a file about twice too long.
//! - The size of an episode is that of the file that was written.
//! - Every episode is written beside its place and moved there when it is
//!   complete; a book of several chapters is published all at once or not at all.

use vstd::prelude::*;
use vstd::string::StringExecFns;
use crate::paths::{components, extension, extension_of, file_name, file_stem_of, has_no_slash, is_plain_name, is_under, join_path, joined, law_joined_lies_inside, lemma_dotted_name, lower_extension, names, path_extension, path_stem, path_text, stem_of, text_of_path};
use crate::prober::{length, time_between};
use crate::text::{all_digits, chars_of, dec, dec_padded, is_digit, lemma_dec_round_trip, lemma_padded_digits, lemma_padded_value, lemma_zero_pad, nat_of, str_eq, string_of, texts, zero_pad};
use crate::ticks::{fmt_secs, law_written_seconds_read_back, seconds_text, seconds_value, MAX_TICKS};

verus! {

/// Seconds a stream copy may take before it counts as hung.
pub const FFMPEG_TIMEOUT: u64 = 300;

/// Seconds a re-encode may take before it counts as hung: it is bounded by the processor, and a
/// whole book is one run.
pub const TRANSCODE_TIMEOUT: u64 = 7200;

/// Longest edge of a cover thumbnail in pixels.
pub const COVER_THUMB_PX: u32 = 400;

/// How the audio of an episode is made from its source.
#[derive(Debug, Clone, Copy, PartialEq, Eq, Structural)]
pub enum Encoding {
    /// Stream copy.
    Copy,
    /// Re-encode to AAC, 128 kbit/s.
    Aac,
    /// Re-encode to MP3, 128 kbit/s.
    Mp3,
}

impl Default for Encoding {
    fn default() -> (r: Self)
        ensures
            r == Encoding::Copy,
    {
        Encoding::Copy
    }
}

/// Appends an argument.
fn arg(v: &mut Vec<String>, s: &str)
    ensures
        texts(final(v)@) == texts(old(v)@).push(s@),
{
    let ghost before = v@;
    v.push(s.to_owned());
    assert(texts(v@) =~= texts(before).push(s@));
}

/// The arguments that pick the codec.
pub open spec fn codec_choice(enc: Encoding) -> Seq<Seq<char>> {
    match enc {
        Encoding::Copy => seq!["-c"@, "copy"@],
        Encoding::Aac => seq!["-c:a"@, "aac"@, "-b:a"@, "128k"@],
        Encoding::Mp3 => seq!["-c:a"@, "libmp3lame"@, "-b:a"@, "128k"@, "-write_xing"@, "1"@],
    }
}

impl Encoding {
    /// Seconds one run with this encoding may take.
    pub fn timeout(self) -> (r: u64)
        ensures
            r == if self == Encoding::Copy {
                FFMPEG_TIMEOUT
            } else {
                TRANSCODE_TIMEOUT
            },
            self == Encoding::Copy ==> r == 300,
            self != Encoding::Copy ==> r == 7200,
    {
        match self {
            Encoding::Copy => FFMPEG_TIMEOUT,
            _ => TRANSCODE_TIMEOUT,
        }
    }

    /// The arguments that pick the codec. `-write_xing` keeps the header by which players know
    /// the duration of an MP3.
    pub fn codec_args(self) -> (r: Vec<String>)
        ensures
            texts(r@) == codec_choice(self),
            self == Encoding::Copy ==> texts(r@) == seq!["-c"@, "copy"@],
            self == Encoding::Aac ==> texts(r@) == seq!["-c:a"@, "aac"@, "-b:a"@, "128k"@],
            self == Encoding::Mp3 ==> texts(r@) == seq![
                "-c:a"@,
                "libmp3lame"@,
                "-b:a"@,
                "128k"@,
                "-write_xing"@,
                "1"@,
            ],
    {
        let mut v: Vec<String> = Vec::new();
        assert(texts(v@) =~= Seq::empty());
        match self {
            Encoding::Copy => {
                arg(&mut v, "-c");
                arg(&mut v, "copy");
            },
            Encoding::Aac => {
                arg(&mut v, "-c:a");
                arg(&mut v, "aac");
                arg(&mut v, "-b:a");
                arg(&mut v, "128k");
            },
            Encoding::Mp3 => {
                arg(&mut v, "-c:a");
                arg(&mut v, "libmp3lame");
                arg(&mut v, "-b:a");
                arg(&mut v, "128k");
                arg(&mut v, "-write_xing");
                arg(&mut v, "1");
            },
        }
        assert(texts(v@) =~= codec_choice(self));
        v
    }
}

/// A chapter to cut.
#[derive(Debug, Clone, Copy, PartialEq, Eq, Structural)]
pub struct ChapterCut {
    /// Position, from 0; the episode number is one more.
    pub idx: usize,
    /// Start, in ticks.
    pub start: i128,
    /// End, in ticks.
    pub end: i128,
}

impl ChapterCut {
    /// The length of the cut in ticks; 0 if there is nothing to cut.
    pub fn duration(&self) -> (r: i128)
        ensures
            r == length(self.start as int, self.end as int),
            self.end <= self.start ==> r == 0,
            self.start < self.end && self.end - self.start <= i128::MAX ==> r == self.end - self.start,
    {
        time_between(self.start, self.end)
    }
}

/// One produced episode file.
#[derive(Debug)]
pub struct SplitEpisode {
    /// Position of its chapter, from 0.
    pub idx: usize,
    /// Path of the file.
    pub path: String,
    /// Real size of the file in bytes.
    pub byte_length: u64,
    /// Duration in ticks.
    pub duration: i128,
}

/// Why a chapter could not be cut. `stderr` is for logs, never for clients.
#[derive(Debug)]
pub enum SplitError {
    /// `ffmpeg` could not be started.
    Spawn(String),
    /// The chapter ends where it begins, or before.
    EmptyChapter { idx: usize },
    /// `ffmpeg` failed.
    Ffmpeg { idx: usize, code: Option<i32>, stderr: String },
    /// `ffmpeg` took too long and was killed.
    TimedOut { idx: usize },
    /// `ffmpeg` wrote nothing.
    OutputMissing { idx: usize, path: String },
    /// The finished file could not be moved into place.
    Publish { idx: usize, path: String, source: String },
    /// The output directory could not be made.
    CreateDir { path: String, source: String },
    /// The size of the output could not be read.
    Metadata { path: String, source: String },
}

/// Why a cover could not be extracted. A book without a cover is no error.
#[derive(Debug)]
pub enum CoverError {
    /// `ffmpeg` could not be started.
    Spawn(String),
    /// `ffmpeg` failed.
    Ffmpeg { code: Option<i32>, stderr: String },
    /// `ffmpeg` took too long and was killed.
    TimedOut,
    /// `ffmpeg` wrote nothing.
    OutputMissing { path: String },
    /// The output directory could not be made.
    CreateDir { path: String, source: String },
}

/// How a run of `ffmpeg` went wrong.
#[derive(Debug)]
pub enum RunError {
    /// It could not be started.
    Spawn(String),
    /// It failed.
    Failed { code: Option<i32>, stderr: String },
    /// It took too long and was killed.
    TimedOut,
}

impl RunError {
    /// This failure, as that of cutting chapter `idx`.
    pub fn of_chapter(self, idx: usize) -> (r: SplitError)
        ensures
            r == match self {
                RunError::Spawn(e) => SplitError::Spawn(e),
                RunError::Failed { code, stderr } => SplitError::Ffmpeg { idx, code, stderr },
                RunError::TimedOut => SplitError::TimedOut { idx },
            },
    {
        match self {
            RunError::Spawn(e) => SplitError::Spawn(e),
            RunError::Failed { code, stderr } => SplitError::Ffmpeg { idx, code, stderr },
            RunError::TimedOut => SplitError::TimedOut { idx },
        }
    }

    /// This failure, as that of extracting a cover.
    pub fn of_cover(self) -> (r: CoverError)
        ensures
            r == match self {
                RunError::Spawn(e) => CoverError::Spawn(e),
                RunError::Failed { code, stderr } => CoverError::Ffmpeg { code, stderr },
                RunError::TimedOut => CoverError::TimedOut,
            },
    {
        match self {
            RunError::Spawn(e) => CoverError::Spawn(e),
            RunError::Failed { code, stderr } => CoverError::Ffmpeg { code, stderr },
            RunError::TimedOut => CoverError::TimedOut,
        }
    }
}

// ---- File names -----------------------------------------------------------

/// The name of an episode file: the episode number in three digits or more.
pub open spec fn episode_name(idx: int, ext: Seq<char>) -> Seq<char> {
    zero_pad(dec((idx + 1) as nat), 3) + seq!['.'] + ext
}

/// The name of the file of chapter `idx`: `001.m4a` for the first.
pub fn episode_file_name(idx: usize, ext: &str) -> (r: String)
    requires
        idx < usize::MAX,
    ensures
        r@ == episode_name(idx as int, ext@),
{
    let mut r = dec_padded((idx + 1) as u128, 3);
    r.push('.');
    r.append(ext);
    assert(r@ =~= episode_name(idx as int, ext@));
    r
}

/// Whether a file stem is that of an episode: three digits.
pub open spec fn is_numbered(stem: Seq<char>) -> bool {
    stem.len() == 3 && all_digits(stem)
}

/// Whether a file stem is that of an episode, and not of something else in a book's directory.
pub fn is_episode_stem(stem: &str) -> (r: bool)
    ensures
        r == is_numbered(stem@),
{
    let v = chars_of(stem);
    if v.len() != 3 {
        return false;
    }
    let a = v[0];
    let b = v[1];
    let c = v[2];
    let r = '0' <= a && a <= '9' && '0' <= b && b <= '9' && '0' <= c && c <= '9';
    proof {
        if r {
            assert forall|i: int| 0 <= i < 3 implies is_digit(#[trigger] v@[i]) by {
                assert(i == 0 || i == 1 || i == 2);
            }
        } else {
            assert(!is_digit(v@[0]) || !is_digit(v@[1]) || !is_digit(v@[2]));
        }
    }
    r
}

/// The name of the file that an episode is written to before it is moved into place. The
/// extension stays, since it tells `ffmpeg` which container to write.
pub open spec fn part_name(stem: Seq<char>, ext: Option<Seq<char>>) -> Seq<char> {
    match ext {
        Some(e) => if e.len() > 0 {
            stem + ".part."@ + e
        } else {
            stem + ".part"@
        },
        None => stem + ".part"@,
    }
}

/// The path that the episode `out` is written to before it is moved into place: `001.part.m4a`
/// for `001.m4a`.
pub open spec fn part_of(out: Seq<char>) -> Seq<char> {
    let stem = match file_stem_of(out) {
        Some(s) => s,
        None => "episode"@,
    };
    let dir = if file_name(out) is Some {
        components(out).drop_last()
    } else {
        components(out)
    };
    path_text(dir.push(part_name(stem, extension(out))))
}

/// The path that an episode is written to before it is moved into place.
pub fn part_path(out: &str) -> (r: String)
    ensures
        r@ == part_of(out@),
{
    let stem = path_stem(out);
    let named = stem.is_some();
    let mut name = match stem {
        Some(s) => s,
        None => "episode".to_owned(),
    };
    let ghost stem_text = name@;
    match path_extension(out) {
        Some(e) => {
            if e.len() > 0 {
                name.append(".part.");
                let ext = string_of(&e);
                name.append(ext.as_str());
            } else {
                name.append(".part");
            }
        },
        None => {
            name.append(".part");
        },
    }
    assert(name@ =~= part_name(stem_text, extension(out@)));
    let mut c = crate::paths::path_components(out);
    let ghost all = names(c@);
    if named {
        assert(c@.len() > 0);
        let _ = c.pop();
        assert(names(c@) =~= all.drop_last());
    }
    let ghost dir = names(c@);
    c.push(chars_of(name.as_str()));
    assert(names(c@) =~= dir.push(name@));
    text_of_path(&c)
}

/// Whether a path names a container of the MP4 family.
pub open spec fn mp4_family(path: Seq<char>) -> bool {
    let e = lower_extension(path);
    e == Some("m4a"@) || e == Some("m4b"@) || e == Some("mp4"@)
}

/// Whether a path names a container of the MP4 family, which `+faststart` applies to.
pub fn is_mp4_family(path: &str) -> (r: bool)
    ensures
        r == mp4_family(path@),
{
    match crate::paths::ext_lower(path) {
        Some(e) => str_eq(e.as_str(), "m4a") || str_eq(e.as_str(), "m4b") || str_eq(e.as_str(), "mp4"),
        None => false,
    }
}

/// The file of each of the first 999 chapters is recognised as an episode.
pub proof fn law_episode_names_are_numbered(idx: int, ext: Seq<char>)
    requires
        0 <= idx < 999,
    ensures
        is_numbered(episode_name(idx, ext).take(3)),
        episode_name(idx, ext).skip(3) == seq!['.'] + ext,
{
    let n = (idx + 1) as nat;
    reveal_with_fuel(dec, 4);
    lemma_padded_digits(n, 3);
    lemma_zero_pad(dec(n), 3);
    assert(dec(n).len() <= 3);
    assert(episode_name(idx, ext).take(3) =~= zero_pad(dec(n), 3));
    assert(episode_name(idx, ext).skip(3) =~= seq!['.'] + ext);
}

/// A name of a stem and an extension stands in a path as one component, and parts into the two.
pub proof fn lemma_name_parts(stem: Seq<char>, ext: Seq<char>)
    requires
        stem.len() > 0,
        has_no_slash(stem),
        ext.len() > 0,
        has_no_slash(ext),
        !ext.contains('.'),
    ensures
        is_plain_name(stem + seq!['.'] + ext),
        stem + seq!['.'] + ext != ".."@,
        stem + seq!['.'] + ext != "/"@,
        stem_of(stem + seq!['.'] + ext) == stem,
        extension_of(stem + seq!['.'] + ext) == Some(ext),
{
    reveal_strlit("/");
    reveal_strlit("..");
    reveal_strlit(".");
    let name = stem + seq!['.'] + ext;
    let dot = stem.len() as int;
    lemma_dotted_name(stem, ext);
    assert(has_no_slash(name)) by {
        assert forall|j: int| 0 <= j < name.len() implies #[trigger] name[j] != '/' by {
            if j < dot {
                assert(name[j] == stem[j]);
            } else if j > dot {
                assert(name[j] == ext[j - dot - 1]);
            }
        }
    }
    assert(name.last() == ext.last());
    assert(ext.contains(ext.last()));
}

/// A file is written beside its place: in the same directory, under another name that has the
/// same extension, so that the move into place never leaves the directory.
pub proof fn law_part_lies_beside(dir: Seq<char>, stem: Seq<char>, ext: Seq<char>)
    requires
        stem.len() > 0,
        has_no_slash(stem),
        ext.len() > 0,
        has_no_slash(ext),
        !ext.contains('.'),
    ensures
        ({
            let name = stem + seq!['.'] + ext;
            let out = joined(dir, name);
            let part = part_of(out);
            &&& components(out) == components(dir).push(name)
            &&& components(part) == components(dir).push(stem + ".part."@ + ext)
            &&& part != out
            &&& file_stem_of(out) == Some(stem)
            &&& file_stem_of(part) == Some(stem + ".part"@)
            &&& extension(out) == Some(ext)
            &&& extension(part) == Some(ext)
        }),
{
    reveal_strlit(".part");
    reveal_strlit(".part.");
    let name = stem + seq!['.'] + ext;
    let out = joined(dir, name);
    lemma_name_parts(stem, ext);
    law_joined_lies_inside(dir, name);
    let part_stem = stem + ".part"@;
    assert forall|j: int| 0 <= j < part_stem.len() implies #[trigger] part_stem[j] != '/' by {
        if j < stem.len() {
            assert(part_stem[j] == stem[j]);
        }
    }
    lemma_name_parts(part_stem, ext);
    let part = stem + ".part."@ + ext;
    assert(part =~= part_stem + seq!['.'] + ext);
    law_joined_lies_inside(dir, part);
    assert(components(out).drop_last() =~= components(dir));
    assert(part_of(out) == joined(dir, part));
    assert(components(out).last() == name);
    assert(components(joined(dir, part)).last() == part);
    assert(part.len() != name.len());
}

/// An episode file that is still being written is not taken for one that is complete.
pub proof fn law_part_is_no_episode(stem: Seq<char>)
    ensures
        !is_numbered(stem + ".part"@),
{
    reveal_strlit(".part");
}

/// The file of an episode, and the one that it is written to first, lie in the directory that they
/// are made for. The former is recognised as an episode for each of the first 999 chapters, the
/// latter never is.
pub proof fn law_episode_files_stay_in_their_directory(dir: Seq<char>, idx: int, ext: Seq<char>)
    requires
        0 <= idx,
        ext.len() > 0,
        has_no_slash(ext),
        !ext.contains('.'),
    ensures
        ({
            let out = joined(dir, episode_name(idx, ext));
            let part = part_of(out);
            &&& is_under(out, dir)
            &&& is_under(part, dir)
            &&& part != out
            &&& idx < 999 ==> is_numbered(file_stem_of(out)->0)
            &&& file_stem_of(part) is Some
            &&& !is_numbered(file_stem_of(part)->0)
        }),
{
    let stem = zero_pad(dec((idx + 1) as nat), 3);
    lemma_padded_digits((idx + 1) as nat, 3);
    assert forall|j: int| 0 <= j < stem.len() implies #[trigger] stem[j] != '/' by {
        assert(is_digit(stem[j]));
    }
    law_part_lies_beside(dir, stem, ext);
    law_part_is_no_episode(stem);
    if idx < 999 {
        law_episode_names_are_numbered(idx, ext);
        lemma_zero_pad(dec((idx + 1) as nat), 3);
        reveal_with_fuel(dec, 4);
        assert(episode_name(idx, ext).take(3) =~= stem);
    }
    let out = joined(dir, episode_name(idx, ext));
    let n = components(dir).len() as int;
    assert(components(dir) =~= components(out).subrange(0, n));
    assert(components(dir) =~= components(part_of(out)).subrange(0, n));
}

/// The file of a chapter tells which one it is: its stem is the chapter's number, counted from 1,
/// in digits, three of them for the first 999; its extension is the one it was made with.
pub proof fn law_episode_file_tells_its_number(dir: Seq<char>, idx: int, ext: Seq<char>)
    requires
        0 <= idx,
        ext.len() > 0,
        has_no_slash(ext),
        !ext.contains('.'),
    ensures
        ({
            let out = joined(dir, episode_name(idx, ext));
            &&& file_stem_of(out) matches Some(stem)
            &&& all_digits(stem)
            &&& nat_of(stem) == idx + 1
            &&& stem.len() >= 3
            &&& idx < 999 ==> stem.len() == 3
            &&& extension(out) == Some(ext)
        }),
{
    let n = (idx + 1) as nat;
    let stem = zero_pad(dec(n), 3);
    lemma_padded_digits(n, 3);
    lemma_padded_value(dec(n), 3);
    lemma_dec_round_trip(n);
    lemma_zero_pad(dec(n), 3);
    assert forall|j: int| 0 <= j < stem.len() implies #[trigger] stem[j] != '/' by {
        assert(is_digit(stem[j]));
    }
    law_part_lies_beside(dir, stem, ext);
    if idx < 999 {
        reveal_with_fuel(dec, 4);
        assert(dec(n).len() <= 3);
    }
}

/// No two chapters share a file, whatever their extensions are.
pub proof fn law_every_chapter_has_its_own_file(dir: Seq<char>, i: int, ext_i: Seq<char>, j: int, ext_j: Seq<char>)
    requires
        0 <= i,
        0 <= j,
        i != j,
        ext_i.len() > 0 && has_no_slash(ext_i) && !ext_i.contains('.'),
        ext_j.len() > 0 && has_no_slash(ext_j) && !ext_j.contains('.'),
    ensures
        joined(dir, episode_name(i, ext_i)) != joined(dir, episode_name(j, ext_j)),
{
    law_episode_file_tells_its_number(dir, i, ext_i);
    law_episode_file_tells_its_number(dir, j, ext_j);
}

// ---- Arguments ------------------------------------------------------------

/// How every command line begins.
pub open spec fn quiet() -> Seq<Seq<char>> {
    seq!["-nostdin"@, "-y"@, "-loglevel"@, "error"@]
}

fn quiet_args() -> (r: Vec<String>)
    ensures
        texts(r@) == quiet(),
{
    let mut v: Vec<String> = Vec::new();
    assert(texts(v@) =~= Seq::empty());
    arg(&mut v, "-nostdin");
    arg(&mut v, "-y");
    arg(&mut v, "-loglevel");
    arg(&mut v, "error");
    assert(texts(v@) =~= quiet());
    v
}

/// The arguments of a cover extraction: the first picture, one frame, copied.
pub open spec fn cover_args(input: Seq<char>, output: Seq<char>) -> Seq<Seq<char>> {
    quiet() + seq![
        "-i"@,
        input,
        "-map"@,
        "0:v:0"@,
        "-frames:v"@,
        "1"@,
        "-c"@,
        "copy"@,
        output,
    ]
}

/// The arguments that copy the cover of `input` to `output`.
pub fn build_cover_args(input: &str, output: &str) -> (r: Vec<String>)
    ensures
        texts(r@) == cover_args(input@, output@),
        texts(r@) == seq![
            "-nostdin"@,
            "-y"@,
            "-loglevel"@,
            "error"@,
            "-i"@,
            input@,
            "-map"@,
            "0:v:0"@,
            "-frames:v"@,
            "1"@,
            "-c"@,
            "copy"@,
            output@,
        ],
{
    let mut v = quiet_args();
    arg(&mut v, "-i");
    arg(&mut v, input);
    arg(&mut v, "-map");
    arg(&mut v, "0:v:0");
    arg(&mut v, "-frames:v");
    arg(&mut v, "1");
    arg(&mut v, "-c");
    arg(&mut v, "copy");
    arg(&mut v, output);
    assert(texts(v@) =~= cover_args(input@, output@));
    v
}

/// The filter that scales a picture down to [`COVER_THUMB_PX`] on its longest edge, and never up.
pub const THUMB_FILTER: &'static str =
    "scale=w='min(400,iw)':h='min(400,ih)':force_original_aspect_ratio=decrease";

/// The arguments of a thumbnail: one frame, scaled, as JPEG.
pub open spec fn cover_thumb_args(input: Seq<char>, output: Seq<char>) -> Seq<Seq<char>> {
    quiet() + seq![
        "-i"@,
        input,
        "-frames:v"@,
        "1"@,
        "-vf"@,
        THUMB_FILTER@,
        "-c:v"@,
        "mjpeg"@,
        "-q:v"@,
        "4"@,
        output,
    ]
}

/// The arguments that scale the cover `input` down to the thumbnail `output`.
pub fn build_cover_thumb_args(input: &str, output: &str) -> (r: Vec<String>)
    ensures
        texts(r@) == cover_thumb_args(input@, output@),
        texts(r@) == seq![
            "-nostdin"@,
            "-y"@,
            "-loglevel"@,
            "error"@,
            "-i"@,
            input@,
            "-frames:v"@,
            "1"@,
            "-vf"@,
            "scale=w='min(400,iw)':h='min(400,ih)':force_original_aspect_ratio=decrease"@,
            "-c:v"@,
            "mjpeg"@,
            "-q:v"@,
            "4"@,
            output@,
        ],
{
    let mut v = quiet_args();
    arg(&mut v, "-i");
    arg(&mut v, input);
    arg(&mut v, "-frames:v");
    arg(&mut v, "1");
    arg(&mut v, "-vf");
    arg(&mut v, THUMB_FILTER);
    arg(&mut v, "-c:v");
    arg(&mut v, "mjpeg");
    arg(&mut v, "-q:v");
    arg(&mut v, "4");
    arg(&mut v, output);
    assert(texts(v@) =~= cover_thumb_args(input@, output@));
    v
}

/// The arguments of a faststart remux: the whole file, audio only, copied.
pub open spec fn remux_args(input: Seq<char>, output: Seq<char>) -> Seq<Seq<char>> {
    quiet() + seq![
        "-i"@,
        input,
        "-map"@,
        "0:a:0"@,
        "-map_chapters"@,
        "-1"@,
        "-c"@,
        "copy"@,
        "-movflags"@,
        "+faststart"@,
        output,
    ]
}

/// The arguments that remux the whole file `input` to the faststart file `output`.
pub fn build_remux_args(input: &str, output: &str) -> (r: Vec<String>)
    ensures
        texts(r@) == remux_args(input@, output@),
        texts(r@) == seq![
            "-nostdin"@,
            "-y"@,
            "-loglevel"@,
            "error"@,
            "-i"@,
            input@,
            "-map"@,
            "0:a:0"@,
            "-map_chapters"@,
            "-1"@,
            "-c"@,
            "copy"@,
            "-movflags"@,
            "+faststart"@,
            output@,
        ],
{
    let mut v = quiet_args();
    arg(&mut v, "-i");
    arg(&mut v, input);
    arg(&mut v, "-map");
    arg(&mut v, "0:a:0");
    arg(&mut v, "-map_chapters");
    arg(&mut v, "-1");
    arg(&mut v, "-c");
    arg(&mut v, "copy");
    arg(&mut v, "-movflags");
    arg(&mut v, "+faststart");
    arg(&mut v, output);
    assert(texts(v@) =~= remux_args(input@, output@));
    v
}

/// Where to start reading: nothing for a whole file.
pub open spec fn seek_args(range: Option<(int, int)>) -> Seq<Seq<char>> {
    match range {
        Some((start, _)) => seq!["-ss"@, seconds_text(start)],
        None => Seq::empty(),
    }
}

/// How long to read: nothing for a whole file.
pub open spec fn span_args(range: Option<(int, int)>) -> Seq<Seq<char>> {
    match range {
        Some((start, end)) => seq!["-t"@, seconds_text(length(start, end))],
        None => Seq::empty(),
    }
}

/// The arguments of one episode.
pub open spec fn encode_args(
    input: Seq<char>,
    output: Seq<char>,
    range: Option<(int, int)>,
    enc: Encoding,
) -> Seq<Seq<char>> {
    let front = if mp4_family(output) {
        seq!["-movflags"@, "+faststart"@]
    } else {
        Seq::empty()
    };
    quiet() + seek_args(range) + seq!["-i"@, input] + span_args(range) + seq![
        "-map"@,
        "0:a:0"@,
        "-map_chapters"@,
        "-1"@,
    ] + codec_choice(enc) + front + seq![output]
}

/// A range of ticks.
pub open spec fn span_of(range: Option<(i128, i128)>) -> Option<(int, int)> {
    match range {
        Some(p) => Some((p.0 as int, p.1 as int)),
        None => None,
    }
}

/// The arguments that make one episode: the cut from `start` to `end` ticks, or the whole file
/// if `range` is `None`. `+faststart` goes to MP4 containers only, which alone know it.
pub fn build_encode_args(
    input: &str,
    output: &str,
    range: Option<(i128, i128)>,
    enc: Encoding,
) -> (r: Vec<String>)
    ensures
        texts(r@) == encode_args(input@, output@, span_of(range), enc),
{
    let mut v = quiet_args();
    if let Some((start, _)) = range {
        arg(&mut v, "-ss");
        let s = fmt_secs(start);
        arg(&mut v, s.as_str());
    }
    assert(texts(v@) =~= quiet() + seek_args(span_of(range)));
    arg(&mut v, "-i");
    arg(&mut v, input);
    assert(texts(v@) =~= quiet() + seek_args(span_of(range)) + seq!["-i"@, input@]);
    let ghost to_input = texts(v@);
    if let Some((start, end)) = range {
        let cut = ChapterCut { idx: 0, start, end };
        arg(&mut v, "-t");
        let s = fmt_secs(cut.duration());
        arg(&mut v, s.as_str());
    }
    assert(texts(v@) =~= to_input + span_args(span_of(range)));
    let ghost to_span = texts(v@);
    arg(&mut v, "-map");
    arg(&mut v, "0:a:0");
    arg(&mut v, "-map_chapters");
    arg(&mut v, "-1");
    assert(texts(v@) =~= to_span + seq!["-map"@, "0:a:0"@, "-map_chapters"@, "-1"@]);
    let ghost to_map = texts(v@);
    let codec = enc.codec_args();
    append_args(&mut v, &codec);
    let ghost to_codec = texts(v@);
    if is_mp4_family(output) {
        arg(&mut v, "-movflags");
        arg(&mut v, "+faststart");
        assert(texts(v@) =~= to_codec + seq!["-movflags"@, "+faststart"@]);
    } else {
        assert(to_codec =~= to_codec + Seq::<Seq<char>>::empty());
    }
    let ghost to_front = texts(v@);
    arg(&mut v, output);
    assert(texts(v@) =~= to_front + seq![output@]);
    v
}

fn append_args(v: &mut Vec<String>, more: &Vec<String>)
    ensures
        texts(final(v)@) == texts(old(v)@) + texts(more@),
{
    let ghost before = texts(v@);
    let mut i: usize = 0;
    assert(before + texts(more@).take(0) =~= before);
    while i < more.len()
        invariant
            i <= more.len(),
            texts(v@) == before + texts(more@).take(i as int),
        decreases more.len() - i,
    {
        arg(v, more[i].as_str());
        proof {
            assert(texts(more@).take(i + 1) =~= texts(more@).take(i as int).push(more@[i as int]@));
        }
        i = i + 1;
    }
    assert(texts(more@).take(more@.len() as int) =~= texts(more@));
}

proof fn lemma_option_words()
    ensures
        "-to"@ != "-nostdin"@,
        "-to"@ != "-y"@,
        "-to"@ != "-loglevel"@,
        "-to"@ != "error"@,
        "-to"@ != "-ss"@,
        "-to"@ != "-i"@,
        "-to"@ != "-t"@,
        "-to"@ != "-map"@,
        "-to"@ != "0:a:0"@,
        "-to"@ != "-map_chapters"@,
        "-to"@ != "-1"@,
        "-to"@ != "-c"@,
        "-to"@ != "copy"@,
        "-to"@ != "-c:a"@,
        "-to"@ != "aac"@,
        "-to"@ != "-b:a"@,
        "-to"@ != "128k"@,
        "-to"@ != "libmp3lame"@,
        "-to"@ != "-write_xing"@,
        "-to"@ != "1"@,
        "-to"@ != "-movflags"@,
        "-to"@ != "+faststart"@,
{
    reveal_strlit("-to");
    reveal_strlit("-nostdin");
    reveal_strlit("-y");
    reveal_strlit("-loglevel");
    reveal_strlit("error");
    reveal_strlit("-ss");
    reveal_strlit("-i");
    reveal_strlit("-t");
    reveal_strlit("-map");
    reveal_strlit("0:a:0");
    reveal_strlit("-map_chapters");
    reveal_strlit("-1");
    reveal_strlit("-c");
    reveal_strlit("copy");
    reveal_strlit("-c:a");
    reveal_strlit("aac");
    reveal_strlit("-b:a");
    reveal_strlit("128k");
    reveal_strlit("libmp3lame");
    reveal_strlit("-write_xing");
    reveal_strlit("1");
    reveal_strlit("-movflags");
    reveal_strlit("+faststart");
    assert("-to"@.len() == 3 && "-to"@[0] == '-' && "-to"@[1] == 't');
    assert("-ss"@[1] == 's');
    assert("aac"@[0] == 'a');
}

proof fn lemma_seconds_are_no_option(ticks: int)
    requires
        ticks >= 0,
    ensures
        seconds_text(ticks) != "-to"@,
{
    reveal_strlit("-to");
    let m = crate::ticks::micros(ticks);
    lemma_dec_round_trip(m / 1_000_000);
    assert(seconds_text(ticks)[0] == dec(m / 1_000_000)[0]);
    assert(is_digit(dec(m / 1_000_000)[0]));
    assert("-to"@[0] == '-');
}

/// A cut seeks before it reads and gives a duration: `-ss` comes first, then `-i`, then `-t`; the
/// input follows `-i` and the output comes last. `-to` is never used: no argument but the two
/// paths can spell it.
pub proof fn law_cut_arguments(
    input: Seq<char>,
    output: Seq<char>,
    start: int,
    end: int,
    enc: Encoding,
    i: int,
)
    requires
        start >= 0,
        0 <= i < encode_args(input, output, Some((start, end)), enc).len(),
    ensures
        ({
            let a = encode_args(input, output, Some((start, end)), enc);
            &&& a[4] == "-ss"@ && a[5] == seconds_text(start)
            &&& a[6] == "-i"@ && a[7] == input
            &&& a[8] == "-t"@ && a[9] == seconds_text(length(start, end))
            &&& a.last() == output
            &&& a[i] == "-to"@ ==> i == 7 || i == a.len() - 1
        }),
{
    lemma_option_words();
    lemma_seconds_are_no_option(start);
    lemma_seconds_are_no_option(length(start, end));
}

/// A cut reads the chapter and nothing else: `-ss` stands for its start, and `-t` for its length,
/// each to the nearest microsecond, which is 3,528 ticks.
pub proof fn law_cut_covers_the_chapter(
    input: Seq<char>,
    output: Seq<char>,
    start: int,
    end: int,
    enc: Encoding,
)
    requires
        0 <= start < end <= MAX_TICKS - 3_528,
    ensures
        ({
            let a = encode_args(input, output, Some((start, end)), enc);
            &&& a[5] == seconds_text(start)
            &&& a[9] == seconds_text(end - start)
            &&& seconds_value(a[5]) matches Some(from) && -1_764 <= from - start <= 1_764
            &&& seconds_value(a[9]) matches Some(span) && -1_764 <= span - (end - start) <= 1_764
        }),
{
    law_cut_arguments(input, output, start, end, enc, 5);
    law_written_seconds_read_back(start);
    law_written_seconds_read_back(end - start);
}

/// What is made holds the first audio stream and no chapter marks, in the codec that was asked
/// for. The index is moved to the front of MP4 containers, and of no others.
pub proof fn law_encode_arguments(
    input: Seq<char>,
    output: Seq<char>,
    range: Option<(int, int)>,
    enc: Encoding,
)
    ensures
        ({
            let a = encode_args(input, output, range, enc);
            let m: int = if range is Some {
                10
            } else {
                6
            };
            let e = lower_extension(output);
            let mp4 = e == Some("m4a"@) || e == Some("m4b"@) || e == Some("mp4"@);
            let codec: int = match enc {
                Encoding::Copy => 2,
                Encoding::Aac => 4,
                Encoding::Mp3 => 6,
            };
            &&& a[0] == "-nostdin"@ && a[1] == "-y"@ && a[2] == "-loglevel"@ && a[3] == "error"@
            &&& a[m] == "-map"@ && a[m + 1] == "0:a:0"@ && a[m + 2] == "-map_chapters"@ && a[m + 3] == "-1"@
            &&& enc == Encoding::Copy ==> a[m + 4] == "-c"@ && a[m + 5] == "copy"@
            &&& enc == Encoding::Aac ==> a[m + 4] == "-c:a"@ && a[m + 5] == "aac"@ && a[m + 6] == "-b:a"@ && a[m + 7]
                == "128k"@
            &&& enc == Encoding::Mp3 ==> a[m + 4] == "-c:a"@ && a[m + 5] == "libmp3lame"@ && a[m + 6] == "-b:a"@
                && a[m + 7] == "128k"@ && a[m + 8] == "-write_xing"@ && a[m + 9] == "1"@
            &&& mp4 ==> a.len() == m + 4 + codec + 3 && a[m + 4 + codec] == "-movflags"@ && a[m + 5 + codec]
                == "+faststart"@
            &&& !mp4 ==> a.len() == m + 4 + codec + 1
            &&& a.last() == output
        }),
{
}

proof fn lemma_seek_words()
    ensures
        "-ss"@ != "-nostdin"@ && "-t"@ != "-nostdin"@,
        "-ss"@ != "-y"@ && "-t"@ != "-y"@,
        "-ss"@ != "-loglevel"@ && "-t"@ != "-loglevel"@,
        "-ss"@ != "error"@ && "-t"@ != "error"@,
        "-ss"@ != "-i"@ && "-t"@ != "-i"@,
        "-ss"@ != "-map"@ && "-t"@ != "-map"@,
        "-ss"@ != "0:a:0"@ && "-t"@ != "0:a:0"@,
        "-ss"@ != "-map_chapters"@ && "-t"@ != "-map_chapters"@,
        "-ss"@ != "-1"@ && "-t"@ != "-1"@,
        "-ss"@ != "-c"@ && "-t"@ != "-c"@,
        "-ss"@ != "copy"@ && "-t"@ != "copy"@,
        "-ss"@ != "-c:a"@ && "-t"@ != "-c:a"@,
        "-ss"@ != "aac"@ && "-t"@ != "aac"@,
        "-ss"@ != "-b:a"@ && "-t"@ != "-b:a"@,
        "-ss"@ != "128k"@ && "-t"@ != "128k"@,
        "-ss"@ != "libmp3lame"@ && "-t"@ != "libmp3lame"@,
        "-ss"@ != "-write_xing"@ && "-t"@ != "-write_xing"@,
        "-ss"@ != "1"@ && "-t"@ != "1"@,
        "-ss"@ != "-movflags"@ && "-t"@ != "-movflags"@,
        "-ss"@ != "+faststart"@ && "-t"@ != "+faststart"@,
{
    reveal_strlit("-ss");
    reveal_strlit("-t");
    reveal_strlit("-nostdin");
    reveal_strlit("-y");
    reveal_strlit("-loglevel");
    reveal_strlit("error");
    reveal_strlit("-i");
    reveal_strlit("-map");
    reveal_strlit("0:a:0");
    reveal_strlit("-map_chapters");
    reveal_strlit("-1");
    reveal_strlit("-c");
    reveal_strlit("copy");
    reveal_strlit("-c:a");
    reveal_strlit("aac");
    reveal_strlit("-b:a");
    reveal_strlit("128k");
    reveal_strlit("libmp3lame");
    reveal_strlit("-write_xing");
    reveal_strlit("1");
    reveal_strlit("-movflags");
    reveal_strlit("+faststart");
    assert("1"@.len() == 1);
    assert("-ss"@[1] == 's');
    assert("-t"@[1] == 't');
    assert("-y"@[1] == 'y');
    assert("-i"@[1] == 'i');
    assert("-1"@[1] == '1');
    assert("-c"@[1] == 'c');
    assert("aac"@[0] == 'a');
}

/// A whole file is made without `-ss` and `-t`, so that a duration that was probed too short cuts
/// nothing off.
pub proof fn law_whole_file_arguments(input: Seq<char>, output: Seq<char>, enc: Encoding, i: int)
    requires
        0 <= i < encode_args(input, output, None, enc).len(),
    ensures
        ({
            let a = encode_args(input, output, None, enc);
            &&& a[4] == "-i"@ && a[5] == input
            &&& a.last() == output
            &&& a[i] == "-ss"@ || a[i] == "-t"@ ==> i == 5 || i == a.len() - 1
        }),
{
    lemma_seek_words();
}

// ---- Producing and publishing ---------------------------------------------

/// One run of `ffmpeg`, and where its output goes.
#[derive(Debug)]
pub struct Job {
    /// Place of the finished episode.
    pub out: String,
    /// Where it is written first.
    pub part: String,
    /// Arguments.
    pub args: Vec<String>,
    /// Seconds it may take.
    pub timeout: u64,
}

/// Whether `job` makes chapter `idx` in `out_dir` from `input`: written beside its place, never
/// over it.
pub open spec fn is_job(
    job: Job,
    input: Seq<char>,
    out_dir: Seq<char>,
    idx: int,
    range: Option<(int, int)>,
    ext: Seq<char>,
    enc: Encoding,
) -> bool {
    &&& job.out@ == joined(out_dir, episode_name(idx, ext))
    &&& job.part@ == part_of(job.out@)
    &&& texts(job.args@) == encode_args(input, job.part@, range, enc)
    &&& job.timeout == if enc == Encoding::Copy {
        FFMPEG_TIMEOUT
    } else {
        TRANSCODE_TIMEOUT
    }
}

fn job_for(
    input: &str,
    out_dir: &str,
    idx: usize,
    range: Option<(i128, i128)>,
    ext: &str,
    enc: Encoding,
) -> (r: Job)
    requires
        idx < usize::MAX,
    ensures
        is_job(r, input@, out_dir@, idx as int, span_of(range), ext@, enc),
{
    let name = episode_file_name(idx, ext);
    let out = join_path(out_dir, name.as_str());
    let part = part_path(out.as_str());
    let args = build_encode_args(input, part.as_str(), range, enc);
    Job { out, part, args, timeout: enc.timeout() }
}

/// The run that cuts one chapter. A chapter that ends where it begins, or before, is refused
/// before anything runs.
pub fn chapter_job(
    input: &str,
    out_dir: &str,
    ch: &ChapterCut,
    ext: &str,
    enc: Encoding,
) -> (r: Result<Job, SplitError>)
    requires
        ch.idx < usize::MAX,
    ensures
        if ch.end <= ch.start {
            r == Err::<Job, SplitError>(SplitError::EmptyChapter { idx: ch.idx })
        } else {
            r matches Ok(job) && is_job(
                job,
                input@,
                out_dir@,
                ch.idx as int,
                Some((ch.start as int, ch.end as int)),
                ext@,
                enc,
            )
        },
        r matches Ok(job) ==> {
            &&& ch.start < ch.end
            &&& job.out@ == joined(out_dir@, episode_name(ch.idx as int, ext@))
            &&& job.part@ == part_of(job.out@)
            &&& texts(job.args@) == encode_args(input@, job.part@, Some((ch.start as int, ch.end as int)), enc)
            &&& enc == Encoding::Copy ==> job.timeout == 300
            &&& enc != Encoding::Copy ==> job.timeout == 7200
        },
{
    if ch.end <= ch.start {
        return Err(SplitError::EmptyChapter { idx: ch.idx });
    }
    Ok(job_for(input, out_dir, ch.idx, Some((ch.start, ch.end)), ext, enc))
}

/// The run that re-encodes a whole file into the episode `idx`.
pub fn whole_job(input: &str, out_dir: &str, idx: usize, ext: &str, enc: Encoding) -> (r: Job)
    requires
        idx < usize::MAX,
    ensures
        is_job(r, input@, out_dir@, idx as int, None, ext@, enc),
        r.out@ == joined(out_dir@, episode_name(idx as int, ext@)),
        r.part@ == part_of(r.out@),
        texts(r.args@) == encode_args(input@, r.part@, None, enc),
        enc == Encoding::Copy ==> r.timeout == 300,
        enc != Encoding::Copy ==> r.timeout == 7200,
{
    job_for(input, out_dir, idx, None, ext, enc)
}

/// The run that remuxes a whole file into the cached episode `idx`: written beside its place like
/// any other episode, so that nobody is served half of it.
pub fn remux_job(input: &str, out_dir: &str, idx: usize, ext: &str) -> (r: Job)
    requires
        idx < usize::MAX,
    ensures
        r.out@ == joined(out_dir@, episode_name(idx as int, ext@)),
        r.part@ == part_of(r.out@),
        texts(r.args@) == remux_args(input@, r.part@),
        r.timeout == FFMPEG_TIMEOUT,
{
    let name = episode_file_name(idx, ext);
    let out = join_path(out_dir, name.as_str());
    let part = part_path(out.as_str());
    let args = build_remux_args(input, part.as_str());
    Job { out, part, args, timeout: FFMPEG_TIMEOUT }
}

/// The file name of a cover.
pub open spec fn cover_name(ext: Seq<char>) -> Seq<char> {
    "cover."@ + ext
}

/// The file name of a thumbnail.
pub const THUMB_NAME: &'static str = "cover_thumb.jpg";

/// The run that takes the cover out of `input`, as an image with the extension `ext` in `out_dir`.
/// A run that fails leaves the cover that is there.
pub fn cover_job(input: &str, out_dir: &str, ext: &str) -> (r: Job)
    ensures
        r.out@ == joined(out_dir@, cover_name(ext@)),
        r.out@ == joined(out_dir@, "cover."@ + ext@),
        r.part@ == part_of(r.out@),
        texts(r.args@) == cover_args(input@, r.part@),
        r.timeout == FFMPEG_TIMEOUT,
{
    let mut name = "cover.".to_owned();
    name.append(ext);
    let out = join_path(out_dir, name.as_str());
    let part = part_path(out.as_str());
    let args = build_cover_args(input, part.as_str());
    Job { out, part, args, timeout: FFMPEG_TIMEOUT }
}

/// The place of the thumbnail of a book's cover.
pub fn cover_thumb_path(book_dir: &str) -> (r: String)
    ensures
        r@ == joined(book_dir@, THUMB_NAME@),
        r@ == joined(book_dir@, "cover_thumb.jpg"@),
{
    join_path(book_dir, THUMB_NAME)
}

/// The run that scales the cover `cover` down to the thumbnail in `out_dir`.
pub fn thumb_job(cover: &str, out_dir: &str) -> (r: Job)
    ensures
        r.out@ == joined(out_dir@, THUMB_NAME@),
        r.part@ == part_of(r.out@),
        texts(r.args@) == cover_thumb_args(cover@, r.part@),
        r.timeout == FFMPEG_TIMEOUT,
{
    let out = cover_thumb_path(out_dir);
    let part = part_path(out.as_str());
    let args = build_cover_thumb_args(cover, part.as_str());
    Job { out, part, args, timeout: FFMPEG_TIMEOUT }
}

/// Takes the image of a run that succeeded: an empty file counts as none.
pub fn accept_image(out: String, byte_length: u64) -> (r: Result<String, CoverError>)
    ensures
        r == if byte_length == 0 {
            Err::<String, CoverError>(CoverError::OutputMissing { path: out })
        } else {
            Ok::<String, CoverError>(out)
        },
{
    if byte_length == 0 {
        Err(CoverError::OutputMissing { path: out })
    } else {
        Ok(out)
    }
}

/// Takes the output of a run that succeeded: an empty file counts as none.
pub fn accept_output(idx: usize, out: String, byte_length: u64, duration: i128) -> (r: Result<
    SplitEpisode,
    SplitError,
>)
    ensures
        r == if byte_length == 0 {
            Err::<SplitEpisode, SplitError>(SplitError::OutputMissing { idx, path: out })
        } else {
            Ok::<SplitEpisode, SplitError>(SplitEpisode { idx, path: out, byte_length, duration })
        },
{
    if byte_length == 0 {
        Err(SplitError::OutputMissing { idx, path: out })
    } else {
        Ok(SplitEpisode { idx, path: out, byte_length, duration })
    }
}

/// Why a book was not published.
#[derive(Debug, Clone, Copy, PartialEq, Eq, Structural)]
pub enum SplitFault {
    /// This chapter could not be produced.
    NotProduced(usize),
    /// A directory stands where this chapter belongs.
    Blocked(usize),
    /// This part could not be moved into its place.
    NotMoved(usize),
}

/// What is to be done with the parts of a book.
#[derive(Debug)]
pub enum PartAction {
    /// Move this part into its place.
    Move(usize),
    /// Delete these parts, and give up.
    GiveUp { fault: SplitFault, remove: Vec<usize> },
    /// Nothing: all are in their places.
    Finish,
}

/// The parts of a book on the way to their places.
#[derive(Debug, Clone, Copy, PartialEq, Eq, Structural)]
pub struct Publication {
    /// How many parts there are.
    pub parts: usize,
    /// How many are in their places.
    pub moved: usize,
}

/// The first place at or after `from` where `flags` holds `want`; `flags.len()` if there is none.
pub open spec fn first_flag(flags: Seq<bool>, want: bool, from: int) -> int
    decreases flags.len() - from,
{
    if from < 0 || from >= flags.len() {
        flags.len() as int
    } else if flags[from] == want {
        from
    } else {
        first_flag(flags, want, from + 1)
    }
}

/// The places among the first `n` where `flags` holds.
pub open spec fn flagged(flags: Seq<bool>, n: nat) -> Seq<usize>
    decreases n,
{
    if n == 0 {
        Seq::empty()
    } else if flags[n - 1] {
        flagged(flags, (n - 1) as nat).push((n - 1) as usize)
    } else {
        flagged(flags, (n - 1) as nat)
    }
}

/// The places from `at` to `n`.
pub open spec fn places(at: int, n: int) -> Seq<usize> {
    Seq::new((n - at) as nat, |i: int| (at + i) as usize)
}

fn find_flag(flags: &Vec<bool>, want: bool) -> (r: usize)
    ensures
        r == first_flag(flags@, want, 0),
        r <= flags.len(),
        forall|i: int| 0 <= i < r ==> flags@[i] != want,
        r < flags.len() ==> flags@[r as int] == want,
{
    let mut i: usize = 0;
    while i < flags.len() && flags[i] != want
        invariant
            i <= flags.len(),
            first_flag(flags@, want, 0) == first_flag(flags@, want, i as int),
            forall|j: int| 0 <= j < i ==> flags@[j] != want,
        decreases flags.len() - i,
    {
        i = i + 1;
    }
    i
}

fn list_flagged(flags: &Vec<bool>) -> (r: Vec<usize>)
    ensures
        r@ == flagged(flags@, flags@.len()),
{
    let mut r: Vec<usize> = Vec::new();
    let mut i: usize = 0;
    while i < flags.len()
        invariant
            i <= flags.len(),
            r@ == flagged(flags@, i as nat),
        decreases flags.len() - i,
    {
        if flags[i] {
            r.push(i);
        }
        i = i + 1;
    }
    r
}

/// The parts `at..n`: those that are deleted when moving part `at` into place failed.
fn unpublished(at: usize, n: usize) -> (r: Vec<usize>)
    requires
        at <= n,
    ensures
        r@ == places(at as int, n as int),
{
    let mut r: Vec<usize> = Vec::new();
    let mut i: usize = at;
    while i < n
        invariant
            at <= i <= n,
            r@ == places(at as int, i as int),
        decreases n - i,
    {
        r.push(i);
        assert(r@ =~= places(at as int, i + 1));
        i = i + 1;
    }
    r
}

impl Publication {
    /// Begins when every chapter was tried: `produced` says which chapters have a part, `blocked`
    /// at which places a directory stands. A book is published as a whole or not at all:
    /// otherwise a chapter's new bytes would stand under the size that is on record for its old
    /// ones.
    pub fn begin(produced: &Vec<bool>, blocked: &Vec<bool>) -> (r: (Publication, PartAction))
        requires
            produced.len() == blocked.len(),
        ensures
            r.0 == (Publication { parts: produced@.len() as usize, moved: 0 }),
            ({
                let failed = first_flag(produced@, false, 0);
                let stopped = first_flag(blocked@, true, 0);
                if failed < produced@.len() {
                    r.1 matches PartAction::GiveUp { fault, remove } && fault
                        == SplitFault::NotProduced(failed as usize) && remove@ == flagged(
                        produced@,
                        produced@.len(),
                    )
                } else if stopped < blocked@.len() {
                    r.1 matches PartAction::GiveUp { fault, remove } && fault == SplitFault::Blocked(
                        stopped as usize,
                    ) && remove@ == places(0, produced@.len() as int)
                } else if produced@.len() == 0 {
                    r.1 == PartAction::Finish
                } else {
                    r.1 == PartAction::Move(0)
                }
            }),
            r.1 matches PartAction::GiveUp { fault: SplitFault::NotProduced(k), remove } ==> {
                &&& k < produced@.len() && !produced@[k as int]
                &&& forall|i: int| 0 <= i < k ==> #[trigger] produced@[i]
                &&& forall|i: int| 0 <= i < remove@.len() ==> produced@[#[trigger] remove@[i] as int]
            },
            r.1 matches PartAction::GiveUp { fault: SplitFault::Blocked(k), remove } ==> {
                &&& k < blocked@.len() && blocked@[k as int]
                &&& forall|i: int| 0 <= i < k ==> !#[trigger] blocked@[i]
                &&& forall|i: int| 0 <= i < produced@.len() ==> #[trigger] produced@[i]
                &&& remove@.len() == produced@.len()
                &&& forall|i: int| 0 <= i < remove@.len() ==> #[trigger] remove@[i] == i
            },
            r.1 matches PartAction::GiveUp { fault, remove } ==> !(fault is NotMoved),
            !(r.1 is GiveUp) ==> (forall|i: int| 0 <= i < produced@.len() ==> #[trigger] produced@[i]) && (
            forall|i: int| 0 <= i < blocked@.len() ==> !#[trigger] blocked@[i]),
    {
        let n: usize = produced.len();
        let begun = Publication { parts: n, moved: 0 };
        let failed = find_flag(produced, false);
        if failed < n {
            let fault = SplitFault::NotProduced(failed);
            proof {
                lemma_flagged_only(produced@, produced@.len());
            }
            return (begun, PartAction::GiveUp { fault, remove: list_flagged(produced) });
        }
        let stopped = find_flag(blocked, true);
        if stopped < n {
            let fault = SplitFault::Blocked(stopped);
            return (begun, PartAction::GiveUp { fault, remove: unpublished(0, n) });
        }
        if n == 0 {
            (begun, PartAction::Finish)
        } else {
            (begun, PartAction::Move(0))
        }
    }

    /// Goes on, given whether the part at hand was moved. What was moved before cannot be taken
    /// back; the parts that were not are deleted.
    pub fn step(&mut self, ok: bool) -> (r: PartAction)
        requires
            old(self).moved < old(self).parts,
        ensures
            final(self).parts == old(self).parts,
            final(self).moved == if ok {
                old(self).moved + 1
            } else {
                old(self).moved as int
            },
            if !ok {
                r matches PartAction::GiveUp { fault, remove } && fault == SplitFault::NotMoved(
                    old(self).moved,
                ) && remove@ == places(old(self).moved as int, old(self).parts as int) && remove@.len()
                    == old(self).parts - old(self).moved && forall|i: int|
                    0 <= i < remove@.len() ==> #[trigger] remove@[i] == old(self).moved + i
            } else if final(self).moved == old(self).parts {
                r == PartAction::Finish
            } else {
                r == PartAction::Move(final(self).moved)
            },
    {
        if !ok {
            let fault = SplitFault::NotMoved(self.moved);
            return PartAction::GiveUp { fault, remove: unpublished(self.moved, self.parts) };
        }
        self.moved = self.moved + 1;
        if self.moved == self.parts {
            PartAction::Finish
        } else {
            PartAction::Move(self.moved)
        }
    }
}

proof fn lemma_flagged_only(flags: Seq<bool>, n: nat)
    requires
        n <= flags.len(),
        flags.len() <= usize::MAX,
    ensures
        forall|i: int|
            0 <= i < flagged(flags, n).len() ==> (#[trigger] flagged(flags, n)[i]) < n && flags[flagged(
                flags,
                n,
            )[i] as int],
    decreases n,
{
    if n > 0 {
        lemma_flagged_only(flags, (n - 1) as nat);
        let rest = flagged(flags, (n - 1) as nat);
        let all = flagged(flags, n);
        assert forall|i: int| 0 <= i < all.len() implies (#[trigger] all[i]) < n && flags[all[i] as int] by {
            if i < rest.len() {
                assert(all[i] == rest[i]);
            }
        }
    }
}

proof fn lemma_flagged_holds(flags: Seq<bool>, n: nat, i: int)
    requires
        n <= flags.len(),
        flags.len() <= usize::MAX,
        0 <= i < n,
        flags[i],
    ensures
        flagged(flags, n).contains(i as usize),
    decreases n,
{
    let rest = flagged(flags, (n - 1) as nat);
    if i == n - 1 {
        assert(flagged(flags, n)[rest.len() as int] == i as usize);
    } else {
        lemma_flagged_holds(flags, (n - 1) as nat, i);
        let k = choose|k: int| 0 <= k < rest.len() && rest[k] == i as usize;
        assert(flagged(flags, n)[k] == i as usize);
    }
}

proof fn lemma_places_hold(at: int, n: int, i: int)
    requires
        0 <= at <= i < n <= usize::MAX,
    ensures
        places(at, n).contains(i as usize),
{
    assert(places(at, n)[i - at] == i as usize);
}

/// No part stays behind, whatever goes wrong: a part that was produced is deleted where a chapter
/// failed or a place is taken, and where the move of part `at` fails, each part was moved before
/// or is deleted.
pub proof fn law_no_part_is_left_behind(produced: Seq<bool>, at: int, i: int)
    requires
        produced.len() <= usize::MAX,
        0 <= at <= produced.len(),
        0 <= i < produced.len(),
        produced[i],
    ensures
        flagged(produced, produced.len()).contains(i as usize),
        places(0, produced.len() as int).contains(i as usize),
        i < at || places(at, produced.len() as int).contains(i as usize),
{
    lemma_flagged_holds(produced, produced.len(), i);
    lemma_places_hold(0, produced.len() as int, i);
    if at <= i {
        lemma_places_hold(at, produced.len() as int, i);
    }
}

// ---- How many at once -----------------------------------------------------

/// How many runs of `ffmpeg` go at once: as many as there are processors; four if that is not
/// known.
pub fn ffmpeg_parallelism(processors: Option<usize>) -> (r: usize)
    ensures
        r == match processors {
            Some(n) => n,
            None => 4,
        },
{
    match processors {
        Some(n) => n,
        None => 4,
    }
}

/// How many workers cut a book of `chapters` chapters: no more than may run, nor than there are
/// chapters.
pub fn split_workers(parallelism: usize, chapters: usize) -> (r: usize)
    ensures
        r == if parallelism <= chapters {
            parallelism
        } else {
            chapters
        },
{
    if parallelism <= chapters {
        parallelism
    } else {
        chapters
    }
}

/// Permits to run `ffmpeg`.
#[derive(Debug, Clone, Copy, PartialEq, Eq, Structural)]
pub struct Permits {
    /// How many there are.
    pub total: usize,
    /// How many of them are free.
    pub free: usize,
}

impl Permits {
    /// Whether no more are free than there are.
    pub open spec fn is_sound(self) -> bool {
        self.free <= self.total
    }

    /// As many permits as `total`, all of them free.
    pub fn new(total: usize) -> (r: Permits)
        ensures
            r == (Permits { total, free: total }),
            r.is_sound(),
    {
        Permits { total, free: total }
    }

    /// Takes a permit, if one is free.
    pub fn take(&mut self) -> (r: bool)
        requires
            old(self).is_sound(),
        ensures
            final(self).is_sound(),
            final(self).total == old(self).total,
            r == (old(self).free > 0),
            final(self).free == if r {
                old(self).free - 1
            } else {
                old(self).free as int
            },
    {
        if self.free == 0 {
            return false;
        }
        self.free = self.free - 1;
        true
    }

    /// Gives a permit back that was taken.
    pub fn give_back(&mut self)
        requires
            old(self).free < old(self).total,
        ensures
            final(self).is_sound(),
            final(self).total == old(self).total,
            final(self).free == old(self).free + 1,
    {
        self.free = self.free + 1;
    }
}

} // verus!
