//! From a probe's report to what the library knows of an audiobook file.
//!
//! A readable file without chapter markers is no error: it is a [`ProbedBook`]
//! with no chapters. A file without an audio stream, a chapter whose time is no
//! decimal number, and a file whose duration nothing tells are errors.

use vstd::prelude::*;
use crate::text::{chars_of, clone_opt, is_digit, nat_of, opt_text, parse_unsigned, slice_of, str_eq, trim, trimmed};
use crate::text::{all_digits, dec, is_white, lemma_dec_round_trip, lemma_trim_stays, opt_str, unsigned_digits};
use crate::ticks::{parse_seconds, seconds_value};

pub mod raw;

verus! {

/// One chapter of a book.
#[derive(Debug)]
pub struct Chapter {
    /// Position in the book, from 0.
    pub idx: usize,
    /// Start, in ticks.
    pub start: i128,
    /// End, in ticks.
    pub end: i128,
    /// Title, if the chapter has one.
    pub title: Option<String>,
}

impl Chapter {
    /// The length of the chapter in ticks: from start to end, never below 0.
    pub fn duration(&self) -> (r: i128)
        ensures
            r == length(self.start as int, self.end as int),
            self.end <= self.start ==> r == 0,
            self.start < self.end && self.end - self.start <= i128::MAX ==> r == self.end - self.start,
    {
        time_between(self.start, self.end)
    }
}

/// The time from `start` to `end`: 0 if it would be negative, the largest `i128` if it would be
/// more.
pub open spec fn length(start: int, end: int) -> int {
    if end <= start {
        0
    } else if end - start > i128::MAX {
        i128::MAX as int
    } else {
        end - start
    }
}

/// The time from `start` to `end`.
pub(crate) fn time_between(start: i128, end: i128) -> (r: i128)
    ensures
        r == length(start as int, end as int),
{
    if end <= start {
        0
    } else if start < 0 && end > i128::MAX + start {
        i128::MAX
    } else {
        end - start
    }
}

/// What is known of one audiobook file.
#[derive(Debug)]
pub struct ProbedBook {
    /// Total duration in ticks.
    pub duration: i128,
    /// Codec of the first audio stream, which picks the container of its episodes.
    pub audio_codec: Option<String>,
    /// Whether the file carries a cover.
    pub has_cover: bool,
    /// Codec of the cover, which picks its file extension.
    pub cover_codec: Option<String>,
    /// Track number of the file: the leading integer of `3` or `3/12`.
    pub track: Option<u32>,
    /// Title of the file, if it has one that is not empty.
    pub title: Option<String>,
    /// Chapters in file order; none for a file without markers.
    pub chapters: Vec<Chapter>,
}

/// Why a report describes no audiobook.
#[derive(Debug)]
pub enum ProbeError {
    /// A chapter carried a `start_time` or `end_time` that is no decimal number.
    InvalidChapterTime {
        /// Position of the chapter, from 0.
        idx: usize,
        /// Which field it was.
        field: &'static str,
        /// What stood there.
        value: String,
    },
    /// The file has no audio stream.
    NoAudioStream,
    /// Neither the container, the audio stream nor a chapter tells a duration.
    DurationUnavailable,
}

/// The first place at or after `from` whose item meets `p`; `s.len()` if none does.
pub open spec fn first_where<T>(s: Seq<T>, p: spec_fn(T) -> bool, from: int) -> int
    decreases s.len() - from,
{
    if from < 0 || from >= s.len() {
        s.len() as int
    } else if p(s[from]) {
        from
    } else {
        first_where(s, p, from + 1)
    }
}

pub open spec fn is_audio_stream(s: raw::Stream) -> bool {
    opt_text(s.codec_type) == Some("audio"@)
}

pub open spec fn is_cover_stream(s: raw::Stream) -> bool {
    opt_text(s.codec_type) == Some("video"@) && s.disposition.attached_pic == 1
}

/// The place of the first audio stream.
pub open spec fn audio_at(p: raw::Probe) -> int {
    first_where(p.streams@, |s: raw::Stream| is_audio_stream(s), 0)
}

/// The place of the first cover.
pub open spec fn cover_at(p: raw::Probe) -> int {
    first_where(p.streams@, |s: raw::Stream| is_cover_stream(s), 0)
}

/// The text of a chapter's time; a missing one is the empty text.
pub open spec fn time_text(t: Option<String>) -> Seq<char> {
    match t {
        Some(s) => s@,
        None => Seq::empty(),
    }
}

/// What is wrong with the times of a chapter: the first field that is no decimal number.
pub open spec fn time_fault(c: raw::Chapter) -> Option<(Seq<char>, Seq<char>)> {
    if seconds_value(time_text(c.start_time)) is None {
        Some(("start_time"@, time_text(c.start_time)))
    } else if seconds_value(time_text(c.end_time)) is None {
        Some(("end_time"@, time_text(c.end_time)))
    } else {
        None
    }
}

/// The place of the first chapter with a fault.
pub open spec fn faulty_at(p: raw::Probe) -> int {
    first_where(p.chapters@, |c: raw::Chapter| time_fault(c) is Some, 0)
}

/// A text that is not empty.
pub open spec fn nonempty(t: Option<Seq<char>>) -> Option<Seq<char>> {
    match t {
        Some(s) => if s.len() > 0 {
            Some(s)
        } else {
            None
        },
        None => None,
    }
}

/// Whether `c` is what the library makes of the chapter `r` at place `i`.
pub open spec fn is_chapter_of(c: Chapter, r: raw::Chapter, i: int) -> bool {
    &&& c.idx == i
    &&& seconds_value(time_text(r.start_time)) == Some(c.start as int)
    &&& seconds_value(time_text(r.end_time)) == Some(c.end as int)
    &&& opt_text(c.title) == nonempty(opt_text(r.tags.title))
}

/// The time that an optional decimal number of seconds gives.
pub open spec fn opt_seconds(t: Option<String>) -> Option<int> {
    match t {
        Some(s) => seconds_value(s@),
        None => None,
    }
}

/// The duration of the file: the container's, else that of the audio stream `audio`, else the
/// end of the last chapter.
pub open spec fn duration_of(p: raw::Probe, audio: raw::Stream) -> Option<int> {
    let of_format = match p.format {
        Some(f) => opt_seconds(f.duration),
        None => None,
    };
    if of_format is Some {
        of_format
    } else if opt_seconds(audio.duration) is Some {
        opt_seconds(audio.duration)
    } else if p.chapters@.len() > 0 {
        seconds_value(time_text(p.chapters@.last().end_time))
    } else {
        None
    }
}

/// Whether `b` is what a report without fault describes.
pub open spec fn is_book_of(b: ProbedBook, p: raw::Probe) -> bool {
    let audio = p.streams@[audio_at(p)];
    let cover = cover_at(p);
    &&& duration_of(p, audio) == Some(b.duration as int)
    &&& opt_text(b.audio_codec) == opt_text(audio.codec_name)
    &&& b.has_cover == (cover < p.streams@.len())
    &&& opt_text(b.cover_codec) == if cover < p.streams@.len() {
        opt_text(p.streams@[cover].codec_name)
    } else {
        None
    }
    &&& b.track == match p.format {
        Some(f) => track_value(opt_text(f.tags.track)),
        None => None,
    }
    &&& opt_text(b.title) == match p.format {
        Some(f) => nonempty(opt_text(f.tags.title)),
        None => None,
    }
    &&& b.chapters@.len() == p.chapters@.len()
    &&& forall|i: int| 0 <= i < p.chapters@.len() ==> is_chapter_of(#[trigger] b.chapters@[i], p.chapters@[i], i)
}

/// Reads a report.
///
/// The duration is the container's; where that is missing or no number, the audio stream's; and
/// then the end of the last chapter.
pub fn read_probe(p: &raw::Probe) -> (r: Result<ProbedBook, ProbeError>)
    ensures
        match r {
            Err(ProbeError::NoAudioStream) => audio_at(*p) >= p.streams@.len(),
            Err(ProbeError::InvalidChapterTime { idx, field, value }) => {
                &&& audio_at(*p) < p.streams@.len()
                &&& idx == faulty_at(*p)
                &&& idx < p.chapters@.len()
                &&& time_fault(p.chapters@[idx as int]) == Some((field@, value@))
            },
            Err(ProbeError::DurationUnavailable) => {
                &&& audio_at(*p) < p.streams@.len()
                &&& faulty_at(*p) >= p.chapters@.len()
                &&& duration_of(*p, p.streams@[audio_at(*p)]) is None
            },
            Ok(b) => {
                &&& audio_at(*p) < p.streams@.len()
                &&& faulty_at(*p) >= p.chapters@.len()
                &&& is_book_of(b, *p)
            },
        },
{
    let audio = find_stream(&p.streams, false);
    if audio >= p.streams.len() {
        return Err(ProbeError::NoAudioStream);
    }
    let audio_stream = &p.streams[audio];
    let cover = find_stream(&p.streams, true);
    let has_cover = cover < p.streams.len();
    let cover_codec = if has_cover {
        clone_opt(&p.streams[cover].codec_name)
    } else {
        None
    };

    let mut chapters: Vec<Chapter> = Vec::new();
    let mut idx: usize = 0;
    let ghost bad = |c: raw::Chapter| time_fault(c) is Some;
    while idx < p.chapters.len()
        invariant
            idx <= p.chapters.len(),
            audio_at(*p) < p.streams@.len(),
            bad == (|c: raw::Chapter| time_fault(c) is Some),
            faulty_at(*p) == first_where(p.chapters@, bad, idx as int),
            chapters@.len() == idx,
            forall|i: int| 0 <= i < idx ==> is_chapter_of(#[trigger] chapters@[i], p.chapters@[i], i),
        decreases p.chapters.len() - idx,
    {
        let c = &p.chapters[idx];
        let start = match parse_time(&c.start_time) {
            Ok(t) => t,
            Err(value) => {
                return Err(ProbeError::InvalidChapterTime { idx, field: "start_time", value });
            },
        };
        let end = match parse_time(&c.end_time) {
            Ok(t) => t,
            Err(value) => {
                return Err(ProbeError::InvalidChapterTime { idx, field: "end_time", value });
            },
        };
        chapters.push(Chapter { idx, start, end, title: keep_nonempty(&c.tags.title) });
        idx = idx + 1;
    }

    let of_format = match &p.format {
        Some(f) => opt_time(&f.duration),
        None => None,
    };
    let of_stream = opt_time(&audio_stream.duration);
    let duration: i128 = if of_format.is_some() {
        of_format.unwrap()
    } else if of_stream.is_some() {
        of_stream.unwrap()
    } else if chapters.len() > 0 {
        assert(is_chapter_of(chapters@[chapters@.len() - 1], p.chapters@[chapters@.len() - 1], chapters@.len() - 1));
        chapters[chapters.len() - 1].end
    } else {
        return Err(ProbeError::DurationUnavailable);
    };
    let (track, title) = match &p.format {
        Some(f) => (parse_track(as_text(&f.tags.track)), keep_nonempty(&f.tags.title)),
        None => (None, None),
    };
    Ok(
        ProbedBook {
            duration,
            audio_codec: clone_opt(&audio_stream.codec_name),
            has_cover,
            cover_codec,
            track,
            title,
            chapters,
        },
    )
}

/// The text of an optional string.
pub fn as_text(o: &Option<String>) -> (r: Option<&str>)
    ensures
        opt_str(r) == opt_text(*o),
{
    match o {
        Some(s) => Some(s.as_str()),
        None => None,
    }
}

/// The first cover, or else the first audio stream.
fn find_stream(streams: &Vec<raw::Stream>, cover: bool) -> (r: usize)
    ensures
        cover ==> r == first_where(streams@, |s: raw::Stream| is_cover_stream(s), 0),
        !cover ==> r == first_where(streams@, |s: raw::Stream| is_audio_stream(s), 0),
{
    let ghost wanted = if cover {
        |s: raw::Stream| is_cover_stream(s)
    } else {
        |s: raw::Stream| is_audio_stream(s)
    };
    let mut i: usize = 0;
    while i < streams.len()
        invariant
            i <= streams.len(),
            wanted == if cover {
                |s: raw::Stream| is_cover_stream(s)
            } else {
                |s: raw::Stream| is_audio_stream(s)
            },
            first_where(streams@, wanted, 0) == first_where(streams@, wanted, i as int),
        decreases streams.len() - i,
    {
        let s = &streams[i];
        let kind = match &s.codec_type {
            Some(t) => if cover {
                str_eq(t.as_str(), "video") && s.disposition.attached_pic == 1
            } else {
                str_eq(t.as_str(), "audio")
            },
            None => false,
        };
        if kind {
            return i;
        }
        i = i + 1;
    }
    i
}

/// A copy of a text that is not empty.
pub fn keep_nonempty(o: &Option<String>) -> (r: Option<String>)
    ensures
        opt_text(r) == nonempty(opt_text(*o)),
{
    match o {
        Some(s) => if s.as_str().is_empty() {
            None
        } else {
            Some(s.clone())
        },
        None => None,
    }
}

/// The track number that a tag gives: the leading integer of `3`, `03` or `3/12`.
pub open spec fn track_value(tag: Option<Seq<char>>) -> Option<u32> {
    match tag {
        Some(t) => {
            let d = leading_digits(trim(t));
            if d.len() > 0 && nat_of(d) <= u32::MAX {
                Some(nat_of(d) as u32)
            } else {
                None
            }
        },
        None => None,
    }
}

/// The digits that `s` begins with.
pub open spec fn leading_digits(s: Seq<char>) -> Seq<char>
    decreases s.len(),
{
    if s.len() > 0 && is_digit(s[0]) {
        seq![s[0]] + leading_digits(s.drop_first())
    } else {
        Seq::empty()
    }
}

/// The leading digits are the longest beginning that is all digits.
pub proof fn lemma_leading_digits(s: Seq<char>)
    ensures
        leading_digits(s).is_prefix_of(s),
        all_digits(leading_digits(s)),
        leading_digits(s).len() < s.len() ==> !is_digit(s[leading_digits(s).len() as int]),
    decreases s.len(),
{
    if s.len() > 0 && is_digit(s[0]) {
        let rest = s.drop_first();
        lemma_leading_digits(rest);
        let d = leading_digits(s);
        assert(d =~= s.subrange(0, d.len() as int)) by {
            assert forall|i: int| 0 <= i < d.len() implies d[i] == s[i] by {
                if i > 0 {
                    assert(d[i] == leading_digits(rest)[i - 1]);
                    assert(rest[i - 1] == s[i]);
                }
            }
        }
        assert forall|i: int| 0 <= i < d.len() implies is_digit(#[trigger] d[i]) by {
            if i > 0 {
                assert(d[i] == leading_digits(rest)[i - 1]);
            }
        }
        if d.len() < s.len() {
            assert(s[d.len() as int] == rest[leading_digits(rest).len() as int]);
        }
    }
}

/// Reads a track tag.
pub fn parse_track(tag: Option<&str>) -> (r: Option<u32>)
    ensures
        r == track_value(opt_str(tag)),
        tag is None ==> r is None,
{
    match tag {
        None => None,
        Some(t) => {
            let v = chars_of(t);
            let s = trimmed(&v);
            let mut k: usize = 0;
            while k < s.len() && '0' <= s[k] && s[k] <= '9'
                invariant
                    k <= s.len(),
                    forall|i: int| 0 <= i < k ==> is_digit(#[trigger] s@[i]),
                decreases s.len() - k,
            {
                k = k + 1;
            }
            let d = slice_of(&s, 0, k);
            proof {
                lemma_leading_digits(s@);
                let l = leading_digits(s@);
                assert(l.len() == k) by {
                    if l.len() < k {
                        assert(is_digit(s@[l.len() as int]));
                    } else if l.len() > k {
                        assert(l[k as int] == s@[k as int]);
                        assert(is_digit(l[k as int]));
                    }
                }
                assert(d@ =~= l);
                if d@.len() > 0 {
                    assert(is_digit(d@[0]));
                    assert(d@[0] != '+');
                }
                assert(unsigned_digits(d@) == d@);
            }
            match parse_unsigned(&d, u32::MAX as u64) {
                Some(n) => Some(n as u32),
                None => None,
            }
        },
    }
}

/// Reads a chapter's time; hands back the text if it is no decimal number.
fn parse_time(t: &Option<String>) -> (r: Result<i128, String>)
    ensures
        match r {
            Ok(n) => seconds_value(time_text(*t)) == Some(n as int),
            Err(s) => seconds_value(time_text(*t)) is None && s@ == time_text(*t),
        },
{
    let text = match t {
        Some(s) => s.clone(),
        None => String::new(),
    };
    let v = chars_of(text.as_str());
    match parse_seconds(&v) {
        Some(n) => Ok(n),
        None => Err(text),
    }
}

fn opt_time(t: &Option<String>) -> (r: Option<i128>)
    ensures
        match r {
            Some(n) => opt_seconds(*t) == Some(n as int),
            None => opt_seconds(*t) is None,
        },
{
    match t {
        Some(s) => {
            let v = chars_of(s.as_str());
            parse_seconds(&v)
        },
        None => None,
    }
}

// ---- What holds of it -----------------------------------------------------

proof fn lemma_first_where<T>(s: Seq<T>, p: spec_fn(T) -> bool, from: int)
    requires
        0 <= from <= s.len(),
    ensures
        from <= first_where(s, p, from) <= s.len(),
        first_where(s, p, from) < s.len() ==> p(s[first_where(s, p, from)]),
        forall|i: int| from <= i < first_where(s, p, from) ==> !p(#[trigger] s[i]),
    decreases s.len() - from,
{
    if from < s.len() && !p(s[from]) {
        lemma_first_where(s, p, from + 1);
    }
}

/// A book has the codec of its first audio stream, and the length that the container tells, else
/// that stream, else the end of the last chapter. Its title and track are the container's tags.
pub proof fn law_probed_book_is_its_first_audio_stream(b: ProbedBook, p: raw::Probe, a: int)
    requires
        is_book_of(b, p),
        0 <= a < p.streams@.len(),
        opt_text(p.streams@[a].codec_type) == Some("audio"@),
        forall|i: int| 0 <= i < a ==> opt_text((#[trigger] p.streams@[i]).codec_type) != Some("audio"@),
    ensures
        opt_text(b.audio_codec) == opt_text(p.streams@[a].codec_name),
        ({
            let told = p.format is Some && p.format->0.duration is Some && seconds_value(
                p.format->0.duration->0@,
            ) is Some;
            let own = p.streams@[a].duration is Some && seconds_value(p.streams@[a].duration->0@) is Some;
            &&& told ==> seconds_value(p.format->0.duration->0@) == Some(b.duration as int)
            &&& !told && own ==> seconds_value(p.streams@[a].duration->0@) == Some(b.duration as int)
            &&& !told && !own ==> p.chapters@.len() > 0 && p.chapters@.last().end_time is Some ==> seconds_value(
                p.chapters@.last().end_time->0@,
            ) == Some(b.duration as int)
        }),
        p.format is Some && p.format->0.tags.title is Some && p.format->0.tags.title->0@.len() > 0 ==> b.title is Some
            && b.title->0@ == p.format->0.tags.title->0@,
        p.format is None || p.format->0.tags.title is None ==> b.title is None,
        p.format is Some ==> b.track == track_value(opt_text(p.format->0.tags.track)),
        p.format is None ==> b.track is None,
{
    let f = |s: raw::Stream| is_audio_stream(s);
    lemma_first_where(p.streams@, f, 0);
    let k = audio_at(p);
    if k < a {
        assert(f(p.streams@[k]));
        assert(is_audio_stream(p.streams@[k]));
    } else if a < k {
        assert(!f(p.streams@[a]));
        assert(is_audio_stream(p.streams@[a]));
    }
}

/// A book has a cover exactly if a video stream is attached to it as a picture; the first of them
/// is the cover.
pub proof fn law_cover_is_an_attached_picture(b: ProbedBook, p: raw::Probe)
    requires
        is_book_of(b, p),
    ensures
        b.has_cover <==> exists|i: int|
            {
                &&& 0 <= i < p.streams@.len()
                &&& opt_text((#[trigger] p.streams@[i]).codec_type) == Some("video"@)
                &&& p.streams@[i].disposition.attached_pic == 1
            },
        !b.has_cover ==> b.cover_codec is None,
        forall|a: int|
            {
                &&& 0 <= a < p.streams@.len()
                &&& opt_text((#[trigger] p.streams@[a]).codec_type) == Some("video"@)
                &&& p.streams@[a].disposition.attached_pic == 1
                &&& forall|i: int|
                    0 <= i < a ==> opt_text((#[trigger] p.streams@[i]).codec_type) != Some("video"@)
                        || p.streams@[i].disposition.attached_pic != 1
            } ==> opt_text(b.cover_codec) == opt_text(p.streams@[a].codec_name),
{
    let f = |s: raw::Stream| is_cover_stream(s);
    lemma_first_where(p.streams@, f, 0);
    let k = cover_at(p);
    if k < p.streams@.len() {
        assert(f(p.streams@[k]));
        assert(is_cover_stream(p.streams@[k]));
    }
    assert forall|i: int| 0 <= i < k implies !is_cover_stream(#[trigger] p.streams@[i]) by {
        assert(!f(p.streams@[i]));
    }
    assert forall|a: int|
        {
            &&& 0 <= a < p.streams@.len()
            &&& opt_text((#[trigger] p.streams@[a]).codec_type) == Some("video"@)
            &&& p.streams@[a].disposition.attached_pic == 1
            &&& forall|i: int|
                0 <= i < a ==> opt_text((#[trigger] p.streams@[i]).codec_type) != Some("video"@)
                    || p.streams@[i].disposition.attached_pic != 1
        } implies opt_text(b.cover_codec) == opt_text(p.streams@[a].codec_name) by {
        assert(is_cover_stream(p.streams@[a]));
        if k < a {
            assert(is_cover_stream(p.streams@[k]));
        }
    }
}

/// Every marker of a file is a chapter, in the same place, from its own start to its own end; a
/// title that is not empty is kept.
pub proof fn law_markers_are_chapters(b: ProbedBook, p: raw::Probe, i: int)
    requires
        is_book_of(b, p),
        0 <= i < p.chapters@.len(),
    ensures
        b.chapters@.len() == p.chapters@.len(),
        b.chapters@[i].idx == i,
        p.chapters@[i].start_time is Some ==> seconds_value(p.chapters@[i].start_time->0@) == Some(
            b.chapters@[i].start as int,
        ),
        p.chapters@[i].end_time is Some ==> seconds_value(p.chapters@[i].end_time->0@) == Some(
            b.chapters@[i].end as int,
        ),
        p.chapters@[i].tags.title is Some && p.chapters@[i].tags.title->0@.len() > 0 ==> b.chapters@[i].title is Some
            && b.chapters@[i].title->0@ == p.chapters@[i].tags.title->0@,
        p.chapters@[i].tags.title is None || p.chapters@[i].tags.title->0@.len() == 0 ==> b.chapters@[i].title is None,
{
    assert(is_chapter_of(b.chapters@[i], p.chapters@[i], i));
}

/// The marker that is refused is the first with a time that cannot be read.
pub proof fn law_first_unreadable_marker_is_refused(p: raw::Probe, i: int)
    requires
        0 <= i < p.chapters@.len(),
    ensures
        i < faulty_at(p) ==> seconds_value(time_text(p.chapters@[i].start_time)) is Some && seconds_value(
            time_text(p.chapters@[i].end_time),
        ) is Some,
        i == faulty_at(p) ==> seconds_value(time_text(p.chapters@[i].start_time)) is None || seconds_value(
            time_text(p.chapters@[i].end_time),
        ) is None,
{
    let f = |c: raw::Chapter| time_fault(c) is Some;
    lemma_first_where(p.chapters@, f, 0);
    if i < faulty_at(p) {
        assert(!f(p.chapters@[i]));
    } else if i == faulty_at(p) {
        assert(f(p.chapters@[i]));
    }
}

proof fn lemma_digits_in_front(d: Seq<char>, rest: Seq<char>)
    requires
        all_digits(d),
        rest.len() > 0 ==> !is_digit(rest[0]),
    ensures
        leading_digits(d + rest) == d,
    decreases d.len(),
{
    if d.len() == 0 {
        assert(d + rest =~= rest);
    } else {
        assert(is_digit(d[0]));
        let t = d.drop_first();
        assert forall|i: int| 0 <= i < t.len() implies is_digit(#[trigger] t[i]) by {
            assert(is_digit(d[i + 1]));
        }
        lemma_digits_in_front(t, rest);
        assert((d + rest).drop_first() =~= t + rest);
        assert(seq![d[0]] + t =~= d);
    }
}

/// A track tag is read as the number that it begins with: `3`, or `3/12`.
pub proof fn law_track_number_leads_its_tag(n: nat, rest: Seq<char>)
    requires
        n <= u32::MAX,
        rest.len() > 0 ==> !is_digit(rest[0]) && !is_white(rest.last()),
    ensures
        track_value(Some(dec(n) + rest)) == Some(n as u32),
{
    let t = dec(n) + rest;
    lemma_dec_round_trip(n);
    assert(is_digit(dec(n)[0]));
    assert(is_digit(dec(n)[dec(n).len() - 1]));
    assert(t[0] == dec(n)[0]);
    if rest.len() > 0 {
        assert(t.last() == rest.last());
    } else {
        assert(t.last() == dec(n)[dec(n).len() - 1]);
    }
    lemma_trim_stays(t);
    lemma_digits_in_front(dec(n), rest);
}

/// A tag that does not begin with a digit gives no track number.
pub proof fn law_other_track_tags_are_no_number(t: Seq<char>)
    requires
        trim(t).len() > 0 ==> !is_digit(trim(t)[0]),
    ensures
        track_value(Some(t)) is None,
{
}

} // verus!
