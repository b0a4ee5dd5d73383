//! Where a book's chapters come from.
//!
//! A sidecar beside the audio file wins over embedded chapters. In order of
//! priority: a `.cue` sheet (`INDEX 01 mm:ss:ff`, 75 frames a second), an
//! `.ffmeta`/`.ffmetadata` file (`[CHAPTER]` blocks with `TIMEBASE`, `START`,
//! `END` and `title`), then the embedded markers. Nothing else (`.opf`, `.nfo`,
//! `.odm`) is a chapter source. An override can force the embedded chapters.

use vstd::prelude::*;
use crate::paths::{after_last, extension_of, file_stem_of, lemma_dotted_name, path_stem, stem_of};
use crate::prober::{keep_nonempty, nonempty, Chapter};
use crate::sorting::{by_number, ints, lemma_by_number_is_total, lemma_stable_order, order_by_number, positions, stable_order};
use crate::text::{all_digits, chars_are, chars_of, clone_opt, cut_once, dec, index_from, is_digit, is_white, is_white_char, law_lines_end_at_line_ends, law_lines_follow_each_other, lemma_dec_round_trip, lemma_index_from, lemma_split_at_last, lemma_trim_stays, lines, lines_of, lower, lower_char, nat_of, opt_text, parse_signed, signed_value, slice_of, split, split_at_each, split_once, starts_with, string_from, string_of, texts, to_lower, trim, trimmed};
use crate::ticks::{law_digits_are_seconds, law_ratio_of_whole_numbers, law_whole_numbers_are_scaled_by_one, magnitude, parse_scaled, parse_seconds, ratio_of, ratio_ticks, scaled_number, seconds_value, MAX_TICKS, Scaled, ScaledView};
use vstd::string::StringExecFns;

verus! {

/// Where the chapters of a book came from.
#[derive(Debug, Clone, Copy, PartialEq, Eq, Structural)]
pub enum ChapterSource {
    /// Embedded markers.
    Embedded,
    /// A `.cue` sidecar.
    Cue,
    /// An `.ffmeta`/`.ffmetadata` sidecar.
    Ffmeta,
}

/// The chapters of a book, and where they came from.
#[derive(Debug)]
pub struct Resolved {
    /// Which source won.
    pub source: ChapterSource,
    /// Chapters in order, numbered from 0.
    pub chapters: Vec<Chapter>,
}

// ---- Cue sheets -----------------------------------------------------------

/// Frames in a second of a cue sheet.
pub const CUE_FRAMES: i128 = 75;

/// The place of the first white space at or after `from`; `s.len()` if there is none.
pub open spec fn white_from(s: Seq<char>, from: int) -> int
    decreases s.len() - from,
{
    if from < 0 || from >= s.len() {
        s.len() as int
    } else if is_white(s[from]) {
        from
    } else {
        white_from(s, from + 1)
    }
}

/// The place of the first character at or after `from` that is no white space.
pub open spec fn word_from(s: Seq<char>, from: int) -> int
    decreases s.len() - from,
{
    if from < 0 || from >= s.len() {
        s.len() as int
    } else if !is_white(s[from]) {
        from
    } else {
        word_from(s, from + 1)
    }
}

fn find_white(v: &Vec<char>, from: usize) -> (r: usize)
    requires
        from <= v.len(),
    ensures
        r == white_from(v@, from as int),
        from <= r <= v.len(),
{
    let mut k: usize = from;
    while k < v.len() && !is_white_char(v[k])
        invariant
            from <= k <= v.len(),
            white_from(v@, from as int) == white_from(v@, k as int),
        decreases v.len() - k,
    {
        k = k + 1;
    }
    k
}

fn find_word(v: &Vec<char>, from: usize) -> (r: usize)
    requires
        from <= v.len(),
    ensures
        r == word_from(v@, from as int),
        from <= r <= v.len(),
{
    let mut k: usize = from;
    while k < v.len() && is_white_char(v[k])
        invariant
            from <= k <= v.len(),
            word_from(v@, from as int) == word_from(v@, k as int),
        decreases v.len() - k,
    {
        k = k + 1;
    }
    k
}

/// `s` without the quotes around it, if it stands in quotes.
pub open spec fn unquoted(s: Seq<char>) -> Seq<char> {
    if s.len() >= 2 && s[0] == '"' && s.last() == '"' {
        s.subrange(1, s.len() - 1)
    } else {
        s
    }
}

/// The argument of a cue line such as `TITLE "Chapter One"`: what stands behind its first white
/// space, without quotes. `None` for a line of one word.
pub open spec fn cue_argument(line: Seq<char>) -> Option<Seq<char>> {
    let i = white_from(line, 0);
    if i >= line.len() {
        None
    } else {
        Some(unquoted(trim(line.skip(i + 1))))
    }
}

fn cue_argument_of(line: &Vec<char>) -> (r: Option<String>)
    ensures
        opt_text(r) == cue_argument(line@),
{
    let i = find_white(line, 0);
    if i >= line.len() {
        return None;
    }
    let tail = slice_of(line, i + 1, line.len());
    assert(tail@ =~= line@.skip(i + 1));
    let rest = trimmed(&tail);
    let n: usize = rest.len();
    if n >= 2 && rest[0] == '"' && rest[n - 1] == '"' {
        Some(string_from(&rest, 1, n - 1))
    } else {
        Some(string_of(&rest))
    }
}

/// The quoted (or bare) argument of a `TITLE` or `PERFORMER` line.
pub fn cue_quoted(line: &str) -> (r: Option<String>)
    ensures
        opt_text(r) == cue_argument(line@),
{
    let v = chars_of(line);
    cue_argument_of(&v)
}

/// The third word of a line; `None` if there are fewer.
pub open spec fn third_word(s: Seq<char>) -> Option<Seq<char>> {
    let a = word_from(s, 0);
    let b = word_from(s, white_from(s, a));
    let c = word_from(s, white_from(s, b));
    if c >= s.len() {
        None
    } else {
        Some(s.subrange(c, white_from(s, c)))
    }
}

/// `a / b`, rounded towards 0.
pub open spec fn toward_zero(a: int, b: int) -> int {
    if a < 0 {
        -((-a) / b)
    } else {
        a / b
    }
}

/// A time, held within the longest one either way.
pub open spec fn held(t: int) -> int {
    if t > MAX_TICKS {
        MAX_TICKS as int
    } else if t < -MAX_TICKS {
        -MAX_TICKS as int
    } else {
        t
    }
}

/// The time that `mm:ss:ff` gives, in ticks: minutes, seconds, and frames of which a second has 75.
pub open spec fn cue_time(s: Seq<char>) -> Option<int> {
    let parts = split(s, ':');
    if parts.len() < 3 {
        None
    } else {
        match (seconds_value(parts[0]), seconds_value(parts[1]), seconds_value(parts[2])) {
            (Some(m), Some(s), Some(f)) => {
                Some(held(m * 60 + s + toward_zero(f, CUE_FRAMES as int)))
            },
            _ => None,
        }
    }
}

/// The time that an `INDEX 01 mm:ss:ff` line gives.
pub open spec fn cue_index(line: Seq<char>) -> Option<int> {
    match third_word(line) {
        Some(w) => cue_time(w),
        None => None,
    }
}

fn cue_time_of(v: &Vec<char>) -> (r: Option<i128>)
    ensures
        match r {
            Some(t) => cue_time(v@) == Some(t as int),
            None => cue_time(v@) is None,
        },
{
    let parts = split_at_each(v, ':');
    let ghost p = split(v@, ':');
    if parts.len() < 3 {
        return None;
    }
    assert(p[0] == parts@[0]@ && p[1] == parts@[1]@ && p[2] == parts@[2]@);
    match (parse_seconds(&parts[0]), parse_seconds(&parts[1]), parse_seconds(&parts[2])) {
        (Some(m), Some(s), Some(f)) => {
            let frames: i128 = if f < 0 {
                -((-f) / CUE_FRAMES)
            } else {
                f / CUE_FRAMES
            };
            let t: i128 = m * 60 + s + frames;
            if t > MAX_TICKS {
                Some(MAX_TICKS)
            } else if t < -MAX_TICKS {
                Some(-MAX_TICKS)
            } else {
                Some(t)
            }
        },
        _ => None,
    }
}

fn cue_index_of(line: &Vec<char>) -> (r: Option<i128>)
    ensures
        match r {
            Some(t) => cue_index(line@) == Some(t as int),
            None => cue_index(line@) is None,
        },
{
    let a = find_word(line, 0);
    let a2 = find_white(line, a);
    let b = find_word(line, a2);
    let b2 = find_white(line, b);
    let c = find_word(line, b2);
    if c >= line.len() {
        return None;
    }
    let end = find_white(line, c);
    let word = slice_of(line, c, end);
    cue_time_of(&word)
}

/// Reads the time of an `INDEX 01 mm:ss:ff` line, in ticks.
pub fn cue_index_ticks(line: &str) -> (r: Option<i128>)
    ensures
        match r {
            Some(t) => cue_index(line@) == Some(t as int),
            None => cue_index(line@) is None,
        },
{
    let v = chars_of(line);
    cue_index_of(&v)
}

proof fn lemma_digits_have_no(d: Seq<char>, c: char)
    requires
        all_digits(d),
        !is_digit(c),
    ensures
        !d.contains(c),
{
    if d.contains(c) {
        let i = choose|i: int| 0 <= i < d.len() && d[i] == c;
        assert(is_digit(d[i]));
    }
}

/// The time that the digits `m:s:f` give: minutes, seconds and 75ths of a second, a second being
/// 3,528,000,000 ticks and a 75th of it 47,040,000. Longer times than the longest are held there.
pub proof fn law_cue_times_count_all_fields(m: Seq<char>, s: Seq<char>, f: Seq<char>)
    requires
        m.len() > 0 && all_digits(m),
        s.len() > 0 && all_digits(s),
        f.len() > 0 && all_digits(f),
        nat_of(f) * 3_528_000_000 <= MAX_TICKS,
    ensures
        ({
            let t = ((nat_of(m) * 60 + nat_of(s)) * 75 + nat_of(f)) * 47_040_000;
            let text = m + seq![':'] + s + seq![':'] + f;
            &&& t <= MAX_TICKS ==> cue_time(text) == Some(t as int)
            &&& t > MAX_TICKS ==> cue_time(text) == Some(MAX_TICKS as int)
        }),
{
    let text = m + seq![':'] + s + seq![':'] + f;
    lemma_digits_have_no(m, ':');
    lemma_digits_have_no(s, ':');
    lemma_digits_have_no(f, ':');
    lemma_split_at_last(m, m, ':');
    lemma_split_at_last(m, s, ':');
    lemma_split_at_last(m + seq![':'] + s, f, ':');
    let parts = split(text, ':');
    assert(parts =~= seq![m, s, f]);
    law_digits_are_seconds(m);
    law_digits_are_seconds(s);
    law_digits_are_seconds(f);
    let x = nat_of(f) as int;
    assert(toward_zero(x * 3_528_000_000, 75) == x * 47_040_000);
}

/// One more minute, second or frame makes a cue time longer by 60 seconds, by a second, by a 75th
/// of a second.
pub proof fn law_cue_times_grow_with_each_field(m: nat, s: nat, f: nat)
    requires
        (((m + 1) * 60 + s + 1) * 75 + f + 1) * 47_040_000 <= MAX_TICKS,
        (f + 1) * 3_528_000_000 <= MAX_TICKS,
    ensures
        ({
            let sep = seq![':'];
            let t = cue_time(dec(m) + sep + dec(s) + sep + dec(f));
            &&& t == Some((((m * 60 + s) * 75 + f) * 47_040_000) as int)
            &&& cue_time(dec(m + 1) + sep + dec(s) + sep + dec(f)) == Some(t->0 + 60 * 3_528_000_000)
            &&& cue_time(dec(m) + sep + dec(s + 1) + sep + dec(f)) == Some(t->0 + 3_528_000_000)
            &&& cue_time(dec(m) + sep + dec(s) + sep + dec(f + 1)) == Some(t->0 + 47_040_000)
        }),
{
    lemma_dec_round_trip(m);
    lemma_dec_round_trip(s);
    lemma_dec_round_trip(f);
    lemma_dec_round_trip(m + 1);
    lemma_dec_round_trip(s + 1);
    lemma_dec_round_trip(f + 1);
    law_cue_times_count_all_fields(dec(m), dec(s), dec(f));
    law_cue_times_count_all_fields(dec(m + 1), dec(s), dec(f));
    law_cue_times_count_all_fields(dec(m), dec(s + 1), dec(f));
    law_cue_times_count_all_fields(dec(m), dec(s), dec(f + 1));
}

/// Whether `s` is a word: not empty, and without white space.
pub open spec fn is_word(s: Seq<char>) -> bool {
    s.len() > 0 && forall|i: int| 0 <= i < s.len() ==> !is_white(#[trigger] s[i])
}

proof fn lemma_white_from(s: Seq<char>, from: int, to: int)
    requires
        0 <= from <= to <= s.len(),
        forall|i: int| from <= i < to ==> !is_white(#[trigger] s[i]),
        to < s.len() ==> is_white(s[to]),
    ensures
        white_from(s, from) == to,
    decreases to - from,
{
    if from < to {
        assert(!is_white(s[from]));
        lemma_white_from(s, from + 1, to);
    }
}

/// The time of an index line is that of its third word, whatever the first two are.
pub proof fn law_index_lines_give_their_third_word(a: Seq<char>, b: Seq<char>, w: Seq<char>)
    requires
        is_word(a),
        is_word(b),
        is_word(w),
    ensures
        cue_index(a + seq![' '] + b + seq![' '] + w) == cue_time(w),
{
    let s = a + seq![' '] + b + seq![' '] + w;
    let i = a.len() as int;
    let j = i + 1 + b.len();
    assert(is_white(' '));
    assert forall|k: int| 0 <= k < i implies !is_white(#[trigger] s[k]) by {
        assert(s[k] == a[k]);
    }
    assert forall|k: int| i < k < j implies !is_white(#[trigger] s[k]) by {
        assert(s[k] == b[k - i - 1]);
    }
    assert forall|k: int| j < k < s.len() implies !is_white(#[trigger] s[k]) by {
        assert(s[k] == w[k - j - 1]);
    }
    assert(s[i] == ' ' && s[j] == ' ');
    assert(!is_white(s[0]) && !is_white(s[i + 1]) && !is_white(s[j + 1]));
    lemma_white_from(s, 0, i);
    lemma_white_from(s, i + 1, j);
    lemma_white_from(s, j + 1, s.len() as int);
    assert(word_from(s, 0) == 0);
    assert(word_from(s, i) == word_from(s, i + 1));
    assert(word_from(s, i + 1) == i + 1);
    assert(word_from(s, j) == word_from(s, j + 1));
    assert(word_from(s, j + 1) == j + 1);
    assert(s.subrange(j + 1, s.len() as int) =~= w);
}

/// A track of a cue sheet, as far as it was read.
pub struct CueTrack {
    pub start: Option<i128>,
    pub title: Option<String>,
}

/// A track, by its values.
pub struct TrackView {
    pub start: Option<int>,
    pub title: Option<Seq<char>>,
}

impl CueTrack {
    pub open spec fn view(self) -> TrackView {
        TrackView {
            start: match self.start {
                Some(t) => Some(t as int),
                None => None,
            },
            title: opt_text(self.title),
        }
    }
}

/// The tracks read so far, after one more line: a `TRACK` line opens a track; `TITLE` and
/// `INDEX 01` lines speak of the track that is open; anything else is passed over.
pub open spec fn cue_step(tracks: Seq<TrackView>, line: Seq<char>) -> Seq<TrackView> {
    let t = trim(line);
    if "track "@.is_prefix_of(lower(t)) {
        tracks.push(TrackView { start: None, title: None })
    } else if tracks.len() == 0 {
        tracks
    } else if "title "@.is_prefix_of(lower(t)) {
        tracks.drop_last().push(TrackView { start: tracks.last().start, title: cue_argument(t) })
    } else if "index 01 "@.is_prefix_of(lower(t)) && cue_index(t) is Some {
        tracks.drop_last().push(TrackView { start: cue_index(t), title: tracks.last().title })
    } else {
        tracks
    }
}

/// The tracks that the first `n` lines describe.
pub open spec fn cue_tracks(lines: Seq<Seq<char>>, n: nat) -> Seq<TrackView>
    decreases n,
{
    if n == 0 {
        Seq::empty()
    } else {
        cue_step(cue_tracks(lines, (n - 1) as nat), lines[n - 1])
    }
}

/// A line made of `word` in capitals and something behind it is that line, whatever its case: it
/// keeps its ends, and its lower case begins with the word's.
proof fn lemma_keyword_line(word: Seq<char>, low: Seq<char>, rest: Seq<char>)
    requires
        word.len() > 0,
        !is_white(word[0]),
        lower(word) == low,
        rest.len() > 0,
        !is_white(rest.last()),
    ensures
        trim(word + rest) == word + rest,
        low.is_prefix_of(lower(word + rest)),
        lower(word + rest)[0] == low[0],
        low.len() > 1 ==> lower(word + rest)[1] == low[1],
{
    let t = word + rest;
    assert(t[0] == word[0] && t.last() == rest.last());
    lemma_trim_stays(t);
    assert(lower(t).subrange(0, low.len() as int) =~= low);
    assert(lower(t)[0] == low[0]);
}

/// A `TRACK` line opens a track of which nothing is known yet, and leaves the others as they are.
pub proof fn law_track_line_opens_a_track(tracks: Seq<TrackView>, rest: Seq<char>)
    requires
        rest.len() > 0,
        !is_white(rest.last()),
    ensures
        cue_step(tracks, "TRACK "@ + rest) == tracks.push(TrackView { start: None, title: None }),
{
    reveal_strlit("TRACK ");
    reveal_strlit("track ");
    assert(lower("TRACK "@) =~= "track "@);
    lemma_keyword_line("TRACK "@, "track "@, rest);
}

/// An `INDEX 01` line gives the track that is open its start, and changes nothing else.
pub proof fn law_index_line_sets_the_start(tracks: Seq<TrackView>, w: Seq<char>)
    requires
        tracks.len() > 0,
        is_word(w),
        cue_time(w) is Some,
    ensures
        ({
            let now = cue_step(tracks, "INDEX 01 "@ + w);
            &&& now.len() == tracks.len()
            &&& now.last().start == cue_time(w)
            &&& now.last().title == tracks.last().title
            &&& now.drop_last() == tracks.drop_last()
        }),
{
    reveal_strlit("INDEX 01 ");
    reveal_strlit("index 01 ");
    reveal_strlit("track ");
    reveal_strlit("title ");
    reveal_strlit("INDEX");
    reveal_strlit("01");
    assert(lower("INDEX 01 "@) =~= "index 01 "@);
    assert(!is_white(w[w.len() - 1]));
    lemma_keyword_line("INDEX 01 "@, "index 01 "@, w);
    let line = "INDEX 01 "@ + w;
    assert("track "@[0] == 't' && "title "@[0] == 't' && lower(line)[0] == 'i');
    assert(!"track "@.is_prefix_of(lower(line))) by {
        if "track "@.is_prefix_of(lower(line)) {
            assert(lower(line).subrange(0, 6)[0] == 't');
        }
    }
    assert(!"title "@.is_prefix_of(lower(line))) by {
        if "title "@.is_prefix_of(lower(line)) {
            assert(lower(line).subrange(0, 6)[0] == 't');
        }
    }
    assert(line =~= "INDEX"@ + seq![' '] + "01"@ + seq![' '] + w);
    assert(is_word("INDEX"@));
    assert(is_word("01"@));
    law_index_lines_give_their_third_word("INDEX"@, "01"@, w);
    let now = cue_step(tracks, line);
    assert(now.drop_last() =~= tracks.drop_last());
}

/// A `TITLE` line gives the track that is open the title that it holds in quotes, and changes
/// nothing else.
pub proof fn law_title_line_sets_the_title(tracks: Seq<TrackView>, title: Seq<char>)
    requires
        tracks.len() > 0,
    ensures
        ({
            let now = cue_step(tracks, "TITLE "@ + seq!['"'] + title + seq!['"']);
            &&& now.len() == tracks.len()
            &&& now.last().title == Some(title)
            &&& now.last().start == tracks.last().start
            &&& now.drop_last() == tracks.drop_last()
        }),
{
    reveal_strlit("TITLE ");
    reveal_strlit("title ");
    reveal_strlit("track ");
    assert(lower("TITLE "@) =~= "title "@);
    let quoted = seq!['"'] + title + seq!['"'];
    let line = "TITLE "@ + seq!['"'] + title + seq!['"'];
    assert(line =~= "TITLE "@ + quoted);
    assert(quoted.last() == '"' && quoted[0] == '"');
    lemma_keyword_line("TITLE "@, "title "@, quoted);
    assert("track "@[1] == 'r' && lower(line)[1] == 'i');
    assert(!"track "@.is_prefix_of(lower(line))) by {
        if "track "@.is_prefix_of(lower(line)) {
            assert(lower(line).subrange(0, 6)[1] == 'r');
        }
    }
    assert forall|k: int| 0 <= k < 5 implies !is_white(#[trigger] line[k]) by {
        assert(line[k] == "TITLE "@[k]);
    }
    assert(line[5] == ' ');
    lemma_white_from(line, 0, 5);
    assert(line.skip(6) =~= quoted);
    lemma_trim_stays(quoted);
    assert(quoted.subrange(1, quoted.len() - 1) =~= title);
    assert(cue_argument(line) == Some(title));
    let now = cue_step(tracks, line);
    assert(now.drop_last() =~= tracks.drop_last());
}

/// A title may also go without quotes.
pub proof fn law_bare_titles_are_taken_as_they_are(tracks: Seq<TrackView>, title: Seq<char>)
    requires
        tracks.len() > 0,
        title.len() > 0,
        title[0] != '"',
        !is_white(title[0]) && !is_white(title.last()),
    ensures
        cue_step(tracks, "TITLE "@ + title).last().title == Some(title),
        cue_step(tracks, "TITLE "@ + title).last().start == tracks.last().start,
{
    reveal_strlit("TITLE ");
    reveal_strlit("title ");
    reveal_strlit("track ");
    assert(lower("TITLE "@) =~= "title "@);
    let line = "TITLE "@ + title;
    lemma_keyword_line("TITLE "@, "title "@, title);
    assert("track "@[1] == 'r' && lower(line)[1] == 'i');
    assert(!"track "@.is_prefix_of(lower(line))) by {
        if "track "@.is_prefix_of(lower(line)) {
            assert(lower(line).subrange(0, 6)[1] == 'r');
        }
    }
    assert forall|k: int| 0 <= k < 5 implies !is_white(#[trigger] line[k]) by {
        assert(line[k] == "TITLE "@[k]);
    }
    assert(line[5] == ' ');
    lemma_white_from(line, 0, 5);
    assert(line.skip(6) =~= title);
    lemma_trim_stays(title);
}

/// The tracks that have a start, in the order of the sheet.
pub open spec fn cue_started(tracks: Seq<TrackView>) -> Seq<TrackView>
    decreases tracks.len(),
{
    if tracks.len() == 0 {
        Seq::empty()
    } else if tracks.last().start is Some {
        cue_started(tracks.drop_last()).push(tracks.last())
    } else {
        cue_started(tracks.drop_last())
    }
}

proof fn lemma_tracks_of_front(a: Seq<Seq<char>>, b: Seq<Seq<char>>, n: nat)
    requires
        n <= a.len(),
    ensures
        cue_tracks(a + b, n) == cue_tracks(a, n),
    decreases n,
{
    if n > 0 {
        lemma_tracks_of_front(a, b, (n - 1) as nat);
        assert((a + b)[n - 1] == a[n - 1]);
    }
}

proof fn lemma_has_no_line_end(s: Seq<char>)
    requires
        forall|i: int| 0 <= i < s.len() ==> #[trigger] s[i] != '\n',
    ensures
        !s.contains('\n'),
{
    if s.contains('\n') {
        let i = choose|i: int| 0 <= i < s.len() && s[i] == '\n';
        assert(s[i] != '\n');
    }
}

/// A track at the end of a cue sheet, of a `TRACK`, a `TITLE` and an `INDEX 01` line, adds a chapter
/// with that title at that time to those that the sheet describes before it.
pub proof fn law_a_track_adds_a_chapter(x: Seq<char>, title: Seq<char>, w: Seq<char>)
    requires
        !title.contains('\n'),
        is_word(w),
        cue_time(w) is Some,
    ensures
        ({
            let track = "TRACK 01 AUDIO"@;
            let named = "TITLE "@ + seq!['"'] + title + seq!['"'];
            let index = "INDEX 01 "@ + w;
            cue_sheet(x + seq!['\n'] + track + seq!['\n'] + named + seq!['\n'] + index) == cue_sheet(
                x + seq!['\n'],
            ).push(TrackView { start: cue_time(w), title: Some(title) })
        }),
{
    reveal_strlit("TRACK 01 AUDIO");
    reveal_strlit("TRACK ");
    reveal_strlit("01 AUDIO");
    reveal_strlit("TITLE ");
    reveal_strlit("INDEX 01 ");
    let end = seq!['\n'];
    let track = "TRACK 01 AUDIO"@;
    let named = "TITLE "@ + seq!['"'] + title + seq!['"'];
    let index = "INDEX 01 "@ + w;
    let text = x + end + track + end + named + end + index;
    let tail = named + end + index;
    let block = track + end + tail;
    lemma_has_no_line_end(track);
    assert forall|i: int| 0 <= i < named.len() implies #[trigger] named[i] != '\n' by {
        if 7 <= i < named.len() - 1 {
            assert(named[i] == title[i - 7]);
            if named[i] == '\n' {
                assert(title.contains('\n'));
            }
        }
    }
    lemma_has_no_line_end(named);
    assert forall|i: int| 0 <= i < index.len() implies #[trigger] index[i] != '\n' by {
        if i >= 9 {
            assert(index[i] == w[i - 9]);
            assert(!is_white(w[i - 9]));
        }
    }
    lemma_has_no_line_end(index);
    assert(track.last() == 'O' && named.last() == '"');
    law_lines_end_at_line_ends(index, index);
    law_lines_end_at_line_ends(named, index);
    law_lines_end_at_line_ends(track, tail);
    assert(text =~= x + end + block);
    law_lines_follow_each_other(x, block);
    let front = lines(x + end);
    let more = seq![track, named, index];
    assert(lines(block) =~= more);
    let all = lines(text);
    assert(all =~= front + more);
    let n = front.len();
    lemma_tracks_of_front(front, more, n);
    let before = cue_tracks(front, n);
    assert(track =~= "TRACK "@ + "01 AUDIO"@);
    assert("01 AUDIO"@.last() == 'O');
    law_track_line_opens_a_track(before, "01 AUDIO"@);
    let opened = before.push(TrackView { start: None, title: None });
    let k = n as int;
    assert(all[k] == track && all[k + 1] == named && all[k + 2] == index);
    assert(cue_tracks(all, n + 1) == opened);
    law_title_line_sets_the_title(opened, title);
    let titled = cue_tracks(all, n + 2);
    assert(titled == cue_step(opened, named));
    law_index_line_sets_the_start(titled, w);
    let done = cue_tracks(all, n + 3);
    assert(done == cue_step(titled, index));
    assert(opened.drop_last() =~= before);
    assert(done.drop_last() == before);
    let last = done.last();
    assert(last.start == cue_time(w) && last.title == Some(title));
    assert(last == (TrackView { start: cue_time(w), title: Some(title) }));
    assert(all.len() == n + 3);
    assert(cue_started(done) == cue_started(before).push(last));
}

/// The tracks of a cue sheet that have an `INDEX 01`.
pub open spec fn cue_sheet(text: Seq<char>) -> Seq<TrackView> {
    let l = lines(text);
    cue_started(cue_tracks(l, l.len()))
}

/// The starts of tracks.
pub open spec fn starts(tracks: Seq<TrackView>) -> Seq<int> {
    tracks.map_values(|t: TrackView| t.start->0)
}

/// The larger of two numbers.
pub open spec fn max_of(a: int, b: int) -> int {
    if a >= b {
        a
    } else {
        b
    }
}

/// Whether `c` is the chapter at place `i` of the book that `tracks` describe: the tracks in
/// order of their starts, each ending where the next begins, the last at `duration`.
pub open spec fn is_cue_chapter(c: Chapter, tracks: Seq<TrackView>, duration: int, i: int) -> bool {
    let order = stable_order(by_number(starts(tracks)), tracks.len());
    let s = starts(tracks);
    &&& c.idx == i
    &&& c.start == s[order[i]]
    &&& c.end == if i + 1 < tracks.len() {
        s[order[i + 1]]
    } else {
        max_of(duration, s[order[i]])
    }
    &&& opt_text(c.title) == nonempty(tracks[order[i]].title)
}

/// Whether `chapters` are those of the cue sheet `text` for audio of length `duration`.
pub open spec fn are_cue_chapters(chapters: Seq<Chapter>, text: Seq<char>, duration: int) -> bool {
    let tracks = cue_sheet(text);
    &&& chapters.len() == tracks.len()
    &&& forall|i: int|
        0 <= i < chapters.len() ==> is_cue_chapter(#[trigger] chapters[i], tracks, duration, i)
}

/// The values of tracks.
pub open spec fn track_views(v: Seq<CueTrack>) -> Seq<TrackView> {
    v.map_values(|t: CueTrack| t.view())
}

fn read_cue_tracks(text: &str) -> (tracks: Vec<CueTrack>)
    ensures
        track_views(tracks@) == cue_tracks(lines(text@), lines(text@).len()),
{
    let v = chars_of(text);
    let all = lines_of(&v);
    let ghost l = lines(text@);
    let track_word = chars_of("track ");
    let title_word = chars_of("title ");
    let index_word = chars_of("index 01 ");
    let mut tracks: Vec<CueTrack> = Vec::new();
    let mut i: usize = 0;
    assert(track_views(tracks@) =~= cue_tracks(l, 0));
    while i < all.len()
        invariant
            i <= all.len(),
            l == lines(text@),
            all@.map_values(|p: Vec<char>| p@) == l,
            track_word@ == "track "@,
            title_word@ == "title "@,
            index_word@ == "index 01 "@,
            track_views(tracks@) == cue_tracks(l, i as nat),
        decreases all.len() - i,
    {
        assert(l[i as int] == all@[i as int]@);
        let ghost before = track_views(tracks@);
        let t = trimmed(&all[i]);
        let low = to_lower(&t);
        if starts_with(&low, &track_word) {
            tracks.push(CueTrack { start: None, title: None });
            assert(track_views(tracks@) =~= before.push(TrackView { start: None, title: None }));
        } else if tracks.len() > 0 {
            if starts_with(&low, &title_word) {
                let cur = tracks.pop().unwrap();
                assert(before.last() == cur.view());
                assert(track_views(tracks@) =~= before.drop_last());
                let new = CueTrack { start: cur.start, title: cue_argument_of(&t) };
                tracks.push(new);
                assert(track_views(tracks@) =~= before.drop_last().push(new.view()));
            } else if starts_with(&low, &index_word) {
                match cue_index_of(&t) {
                    Some(s) => {
                        let cur = tracks.pop().unwrap();
                        assert(before.last() == cur.view());
                        assert(track_views(tracks@) =~= before.drop_last());
                        let new = CueTrack { start: Some(s), title: cur.title };
                        tracks.push(new);
                        assert(track_views(tracks@) =~= before.drop_last().push(new.view()));
                    },
                    None => {},
                }
            }
        }
        i = i + 1;
    }
    tracks
}

fn keep_started(tracks: &Vec<CueTrack>) -> (r: Vec<CueTrack>)
    ensures
        track_views(r@) == cue_started(track_views(tracks@)),
        forall|i: int| 0 <= i < r@.len() ==> (#[trigger] r@[i]).start is Some,
{
    let ghost all = track_views(tracks@);
    let mut r: Vec<CueTrack> = Vec::new();
    let mut i: usize = 0;
    assert(track_views(r@) =~= cue_started(all.take(0)));
    while i < tracks.len()
        invariant
            i <= tracks.len(),
            all == track_views(tracks@),
            track_views(r@) == cue_started(all.take(i as int)),
            forall|i: int| 0 <= i < r@.len() ==> (#[trigger] r@[i]).start is Some,
        decreases tracks.len() - i,
    {
        let ghost before = track_views(r@);
        let t = &tracks[i];
        proof {
            assert(all.take(i + 1).drop_last() =~= all.take(i as int));
            assert(all.take(i + 1).last() == t.view());
        }
        if t.start.is_some() {
            let new = CueTrack { start: t.start, title: clone_opt(&t.title) };
            r.push(new);
            assert(track_views(r@) =~= before.push(t.view()));
        }
        i = i + 1;
    }
    assert(all.take(all.len() as int) =~= all);
    r
}

/// Reads a cue sheet. Each `TRACK` with an `INDEX 01` becomes a chapter, which ends where the
/// next begins; the last ends at `duration`.
pub fn parse_cue(text: &str, duration: i128) -> (r: Vec<Chapter>)
    ensures
        are_cue_chapters(r@, text@, duration as int),
{
    let tracks = read_cue_tracks(text);
    let kept = keep_started(&tracks);
    let ghost sheet = cue_sheet(text@);
    assert(track_views(kept@) == sheet);
    let mut keys: Vec<i128> = Vec::new();
    let mut i: usize = 0;
    while i < kept.len()
        invariant
            i <= kept.len(),
            keys@.len() == i,
            forall|j: int| 0 <= j < kept@.len() ==> (#[trigger] kept@[j]).start is Some,
            forall|j: int| 0 <= j < i ==> #[trigger] keys@[j] == kept@[j].start->0,
        decreases kept.len() - i,
    {
        keys.push(kept[i].start.unwrap());
        i = i + 1;
    }
    proof {
        assert forall|j: int| 0 <= j < kept@.len() implies #[trigger] ints(keys@)[j] == starts(sheet)[j] by {
            assert(sheet[j] == kept@[j].view());
        }
        assert(ints(keys@) =~= starts(sheet));
    }
    let order = order_by_number(&keys);
    let ghost o = stable_order(by_number(starts(sheet)), sheet.len());
    assert(positions(order@) == o);
    let n: usize = kept.len();
    let mut r: Vec<Chapter> = Vec::new();
    let mut k: usize = 0;
    while k < n
        invariant
            k <= n,
            n == kept.len(),
            n == order.len(),
            n == keys.len(),
            n == sheet.len(),
            track_views(kept@) == sheet,
            ints(keys@) == starts(sheet),
            positions(order@) == stable_order(by_number(starts(sheet)), sheet.len()),
            forall|i: int| 0 <= i < order.len() ==> #[trigger] order[i] < keys.len(),
            r@.len() == k,
            forall|i: int|
                0 <= i < r@.len() ==> is_cue_chapter(#[trigger] r@[i], sheet, duration as int, i),
        decreases n - k,
    {
        let at = order[k];
        let start = keys[at];
        proof {
            assert(positions(order@)[k as int] == at);
            assert(ints(keys@)[at as int] == start);
            assert(sheet[at as int] == kept@[at as int].view());
        }
        let end = if k + 1 < n {
            let next = order[k + 1];
            proof {
                assert(positions(order@)[k + 1] == next);
                assert(ints(keys@)[next as int] == keys@[next as int]);
            }
            keys[next]
        } else if duration >= start {
            duration
        } else {
            start
        };
        let c = Chapter { idx: k, start, end, title: keep_nonempty(&kept[at].title) };
        assert(is_cue_chapter(c, sheet, duration as int, k as int));
        r.push(c);
        k = k + 1;
    }
    r
}

/// The chapters of a cue sheet follow each other: each begins where the one before it ends, none
/// ends before it begins, and none but the last reaches beyond the others.
pub proof fn law_cue_chapters_follow_each_other(chapters: Seq<Chapter>, text: Seq<char>, duration: int)
    requires
        are_cue_chapters(chapters, text, duration),
    ensures
        forall|i: int| 0 <= i < chapters.len() ==> (#[trigger] chapters[i]).start <= chapters[i].end,
        forall|i: int, j: int|
            0 <= i < chapters.len() && j == i + 1 && j < chapters.len() ==> (#[trigger] chapters[i]).end
                == (#[trigger] chapters[j]).start,
        chapters.len() > 0 ==> chapters.last().end >= duration,
{
    let tracks = cue_sheet(text);
    let le = by_number(starts(tracks));
    let order = stable_order(le, tracks.len());
    lemma_by_number_is_total(starts(tracks));
    lemma_stable_order(le, tracks.len());
    assert forall|i: int| 0 <= i < chapters.len() implies (#[trigger] chapters[i]).start <= chapters[i].end by {
        assert(is_cue_chapter(chapters[i], tracks, duration, i));
        if i + 1 < chapters.len() {
            assert(crate::sorting::before(le, order[i], order[i + 1]));
        }
    }
    assert forall|i: int, j: int|
        0 <= i < chapters.len() && j == i + 1 && j < chapters.len() implies (#[trigger] chapters[i]).end
        == (#[trigger] chapters[j]).start by {
        assert(is_cue_chapter(chapters[i], tracks, duration, i));
        assert(is_cue_chapter(chapters[j], tracks, duration, j));
    }
    if chapters.len() > 0 {
        assert(is_cue_chapter(chapters[chapters.len() - 1], tracks, duration, chapters.len() - 1));
    }
}

/// Every chapter of a cue sheet is one of its tracks: it has that track's start and title, and
/// carries its own place.
pub proof fn law_cue_chapters_are_its_tracks(chapters: Seq<Chapter>, text: Seq<char>, duration: int, i: int)
    requires
        are_cue_chapters(chapters, text, duration),
        0 <= i < chapters.len(),
    ensures
        chapters.len() == cue_sheet(text).len(),
        chapters[i].idx == i,
        exists|k: int|
            {
                &&& 0 <= k < cue_sheet(text).len()
                &&& (#[trigger] cue_sheet(text)[k]).start == Some(chapters[i].start as int)
                &&& opt_text(chapters[i].title) == nonempty(cue_sheet(text)[k].title)
            },
{
    let tracks = cue_sheet(text);
    let le = by_number(starts(tracks));
    let order = stable_order(le, tracks.len());
    lemma_by_number_is_total(starts(tracks));
    lemma_stable_order(le, tracks.len());
    let l = lines(text);
    lemma_started(cue_tracks(l, l.len()));
    assert(is_cue_chapter(chapters[i], tracks, duration, i));
    let k = order[i];
    assert(0 <= k < tracks.len());
    assert(tracks[k].start is Some);
    assert(starts(tracks)[k] == tracks[k].start->0);
}

/// Every track of a cue sheet that has a start is a chapter that begins there.
pub proof fn law_cue_tracks_are_chapters(chapters: Seq<Chapter>, text: Seq<char>, duration: int, k: int)
    requires
        are_cue_chapters(chapters, text, duration),
        0 <= k < cue_sheet(text).len(),
    ensures
        exists|i: int| 0 <= i < chapters.len() && (#[trigger] chapters[i]).start == cue_sheet(text)[k].start->0,
{
    let tracks = cue_sheet(text);
    let le = by_number(starts(tracks));
    let order = stable_order(le, tracks.len());
    lemma_by_number_is_total(starts(tracks));
    lemma_stable_order(le, tracks.len());
    assert(order.contains(k));
    let i = choose|i: int| 0 <= i < order.len() && order[i] == k;
    assert(is_cue_chapter(chapters[i], tracks, duration, i));
}

/// The last chapter of a cue sheet ends where the audio does, unless it only begins later.
pub proof fn law_last_cue_chapter_ends_with_the_audio(chapters: Seq<Chapter>, text: Seq<char>, duration: int)
    requires
        are_cue_chapters(chapters, text, duration),
        chapters.len() > 0,
    ensures
        duration >= chapters.last().start ==> chapters.last().end == duration,
        duration < chapters.last().start ==> chapters.last().end == chapters.last().start,
{
    assert(is_cue_chapter(chapters[chapters.len() - 1], cue_sheet(text), duration, chapters.len() - 1));
}

proof fn lemma_started(tracks: Seq<TrackView>)
    ensures
        forall|i: int| 0 <= i < cue_started(tracks).len() ==> (#[trigger] cue_started(tracks)[i]).start is Some,
    decreases tracks.len(),
{
    if tracks.len() > 0 {
        lemma_started(tracks.drop_last());
        let rest = cue_started(tracks.drop_last());
        let all = cue_started(tracks);
        assert forall|i: int| 0 <= i < all.len() implies (#[trigger] all[i]).start is Some by {
            if i < rest.len() {
                assert(all[i] == rest[i]);
            }
        }
    }
}

// ---- ffmpeg metadata ------------------------------------------------------

/// `n` steps of `num/den` seconds each, in ticks: rounded towards 0, and held within the longest
/// time.
pub open spec fn scaled(n: int, num: ScaledView, den: ScaledView) -> int {
    let t = ratio_ticks(magnitude(n) as nat, num, den) as int;
    if ((n < 0) != num.negative) != den.negative {
        -t
    } else {
        t
    }
}

fn scale(n: i64, num: Scaled, den: Scaled) -> (r: i128)
    requires
        num.is_sound(),
        den.is_sound(),
        den.size > 0,
    ensures
        r == scaled(n as int, num@, den@),
{
    let big: i128 = n as i128;
    let size: u64 = if big < 0 {
        (-big) as u64
    } else {
        n as u64
    };
    let t: i128 = ratio_of(size, num, den) as i128;
    if ((n < 0) != num.negative) != den.negative {
        -t
    } else {
        t
    }
}

/// The timebase of a block that gives none: a thousandth of a second.
pub open spec fn default_timebase() -> (ScaledView, ScaledView) {
    (
        ScaledView { size: 1, negative: false, shift: 0 },
        ScaledView { size: 1000, negative: false, shift: 0 },
    )
}

/// A chapter, by its values.
pub struct ChapterView {
    pub start: int,
    pub end: int,
    pub title: Option<Seq<char>>,
}

/// The values of chapters.
pub open spec fn chapter_views(v: Seq<Chapter>) -> Seq<ChapterView> {
    v.map_values(
        |c: Chapter| ChapterView { start: c.start as int, end: c.end as int, title: opt_text(c.title) },
    )
}

/// Whether each chapter carries its place in the list.
pub open spec fn numbered(v: Seq<Chapter>) -> bool {
    forall|i: int| 0 <= i < v.len() ==> (#[trigger] v[i]).idx == i
}

/// How far a metadata file was read.
pub struct MetaView {
    pub chapters: Seq<ChapterView>,
    /// Whether a `[CHAPTER]` block is open.
    pub open: bool,
    /// The timebase of the block, as `num/den`.
    pub num: ScaledView,
    pub den: ScaledView,
    pub start: Option<int>,
    pub end: Option<int>,
    pub title: Option<Seq<char>>,
}

/// At the beginning of a file: nothing read, no block open.
pub open spec fn meta_begin() -> MetaView {
    MetaView {
        chapters: Seq::empty(),
        open: false,
        num: default_timebase().0,
        den: default_timebase().1,
        start: None,
        end: None,
        title: None,
    }
}

/// The end of a block: a chapter if it told both its start and its end, nothing otherwise. What
/// the block told goes with it.
pub open spec fn meta_close(m: MetaView) -> MetaView {
    let ended = MetaView { start: None, end: None, title: None, ..m };
    match (m.start, m.end) {
        (Some(s), Some(e)) => MetaView {
            chapters: m.chapters.push(
                ChapterView {
                    start: scaled(s, m.num, m.den),
                    end: scaled(e, m.num, m.den),
                    title: nonempty(m.title),
                },
            ),
            ..ended
        },
        _ => ended,
    }
}

/// The timebase that `num/den` gives, if both are decimal numbers and `den` is not 0.
pub open spec fn timebase_value(s: Seq<char>) -> Option<(ScaledView, ScaledView)> {
    match split_once(s, '/') {
        Some((n, d)) => match (scaled_number(n), scaled_number(d)) {
            (Some(a), Some(b)) => if b.size != 0 {
                Some((a, b))
            } else {
                None
            },
            _ => None,
        },
        None => None,
    }
}

/// A `key=value` line inside a block.
pub open spec fn meta_entry(m: MetaView, key: Seq<char>, val: Seq<char>) -> MetaView {
    if key == "timebase"@ {
        match timebase_value(val) {
            Some((num, den)) => MetaView { num, den, ..m },
            None => m,
        }
    } else if key == "start"@ {
        MetaView { start: signed_value(val), ..m }
    } else if key == "end"@ {
        MetaView { end: signed_value(val), ..m }
    } else if key == "title"@ {
        MetaView { title: Some(val), ..m }
    } else {
        m
    }
}

/// How far the file was read after one more line. `[CHAPTER]` closes the block that is open and
/// opens one with a timebase of 1/1000; any other section closes it; other lines count inside a
/// block only.
pub open spec fn meta_step(m: MetaView, line: Seq<char>) -> MetaView {
    let t = trim(line);
    if lower(t) == "[chapter]"@ {
        let c = if m.open {
            meta_close(m)
        } else {
            m
        };
        MetaView { open: true, num: default_timebase().0, den: default_timebase().1, ..c }
    } else if t.len() > 0 && t[0] == '[' {
        if m.open {
            MetaView { open: false, ..meta_close(m) }
        } else {
            m
        }
    } else if !m.open {
        m
    } else {
        match split_once(t, '=') {
            Some((key, val)) => meta_entry(m, lower(trim(key)), trim(val)),
            None => m,
        }
    }
}

/// How far the file was read after its first `n` lines.
pub open spec fn meta_read(lines: Seq<Seq<char>>, n: nat) -> MetaView
    decreases n,
{
    if n == 0 {
        meta_begin()
    } else {
        meta_step(meta_read(lines, (n - 1) as nat), lines[n - 1])
    }
}

/// The chapters that a metadata file describes.
pub open spec fn meta_chapters(text: Seq<char>) -> Seq<ChapterView> {
    let l = lines(text);
    let m = meta_read(l, l.len());
    if m.open {
        meta_close(m).chapters
    } else {
        m.chapters
    }
}

proof fn lemma_closed_is_empty(lines: Seq<Seq<char>>, n: nat)
    requires
        n <= lines.len(),
    ensures
        ({
            let m = meta_read(lines, n);
            !m.open ==> m.start is None && m.end is None && m.title is None
        }),
    decreases n,
{
    if n > 0 {
        lemma_closed_is_empty(lines, (n - 1) as nat);
    }
}

/// A block tells of itself alone: where one begins, nothing that was told before it counts.
pub proof fn law_blocks_begin_empty(lines: Seq<Seq<char>>, n: nat)
    requires
        0 < n <= lines.len(),
        lower(trim(lines[n - 1])) == "[chapter]"@,
    ensures
        ({
            let m = meta_read(lines, n);
            &&& m.open
            &&& (m.num, m.den) == default_timebase()
            &&& m.start is None && m.end is None && m.title is None
        }),
{
    lemma_closed_is_empty(lines, (n - 1) as nat);
}

/// Steps of `num/den` seconds, both whole numbers, are read as such: `n` of them make `n * num / den`
/// seconds of 3,528,000,000 ticks each, rounded towards 0; a negative count is a time before 0.
pub proof fn law_timebase_scales_times(num: nat, den: nat, n: nat)
    requires
        num < 1_000_000_000_000_000_000,
        0 < den < 1_000_000_000_000_000_000,
        n * num * 3_528_000_000 <= MAX_TICKS,
    ensures
        timebase_value(dec(num) + seq!['/'] + dec(den)) matches Some((a, b)) && {
            &&& scaled(n as int, a, b) == n * num * 3_528_000_000 / den
            &&& scaled(-(n as int), a, b) == -(n * num * 3_528_000_000 / den)
        },
{
    let s = dec(num) + seq!['/'] + dec(den);
    lemma_dec_round_trip(num);
    lemma_dec_round_trip(den);
    lemma_digits_have_no(dec(num), '/');
    lemma_index_from(s, '/', 0);
    let at = dec(num).len() as int;
    assert(index_from(s, '/', 0) == at) by {
        let i = index_from(s, '/', 0);
        if i < at {
            assert(s[i] == dec(num)[i]);
        } else if i > at {
            assert(s[at] == '/');
        }
    }
    assert(s.take(at) =~= dec(num));
    assert(s.skip(at + 1) =~= dec(den));
    law_whole_numbers_are_scaled_by_one(num);
    law_whole_numbers_are_scaled_by_one(den);
    let a = scaled_number(dec(num))->0;
    let b = scaled_number(dec(den))->0;
    law_ratio_of_whole_numbers(n, num, den);
    assert(timebase_value(s) == Some((a, b)));
    let t = ratio_ticks(n, a, b);
    assert(magnitude(n as int) == n && magnitude(-(n as int)) == n);
    assert(scaled(n as int, a, b) == t);
    if n == 0 {
        assert(0 * num == 0) by (nonlinear_arith);
        assert(t == 0) by (nonlinear_arith)
            requires
                t == 0nat * 3_528_000_000nat / den,
                den > 0,
        ;
    }
    assert(scaled(-(n as int), a, b) == -t);
}

/// Where no timebase is given, times are in thousandths of a second: 3,528,000 ticks each.
pub proof fn law_default_timebase_is_milliseconds(n: nat)
    requires
        n * 3_528_000_000 <= MAX_TICKS,
    ensures
        scaled(n as int, default_timebase().0, default_timebase().1) == n * 3_528_000,
        scaled(-(n as int), default_timebase().0, default_timebase().1) == -(n * 3_528_000),
{
    law_ratio_of_whole_numbers(n, 1, 1000);
}

/// A block that told its start and its end is a chapter between the two, in the block's own
/// timebase, with its title if that is not empty; a block that lacks either is none. Chapters that
/// were read before stay.
pub proof fn law_a_block_is_a_chapter(m: MetaView)
    ensures
        m.start is Some && m.end is Some ==> {
            let now = meta_close(m).chapters;
            &&& now.len() == m.chapters.len() + 1
            &&& now.last().start == scaled(m.start->0, m.num, m.den)
            &&& now.last().end == scaled(m.end->0, m.num, m.den)
            &&& m.title is Some && m.title->0.len() > 0 ==> now.last().title == m.title
            &&& m.title is None || m.title->0.len() == 0 ==> now.last().title is None
            &&& now.drop_last() == m.chapters
        },
        m.start is None || m.end is None ==> meta_close(m).chapters == m.chapters,
{
    if m.start is Some && m.end is Some {
        assert(meta_close(m).chapters.drop_last() =~= m.chapters);
    }
}

/// A line `key=value` inside a block, key and value without white space at their ends, is read as
/// that key and that value.
proof fn lemma_entry_line(m: MetaView, key: Seq<char>, low: Seq<char>, val: Seq<char>)
    requires
        m.open,
        key.len() > 0,
        key[0] != '[',
        !key.contains('='),
        !is_white(key[0]) && !is_white(key.last()),
        val.len() > 0,
        !is_white(val[0]) && !is_white(val.last()),
        lower(key) == low,
    ensures
        meta_step(m, key + seq!['='] + val) == meta_entry(m, low, val),
{
    let line = key + seq!['='] + val;
    assert(line[0] == key[0] && line.last() == val.last());
    lemma_trim_stays(line);
    lemma_trim_stays(key);
    lemma_trim_stays(val);
    reveal_strlit("[chapter]");
    assert(lower(line)[0] == lower_char(key[0]));
    assert("[chapter]"@[0] == '[');
    assert(lower(line) != "[chapter]"@);
    lemma_index_from(line, '=', 0);
    let at = key.len() as int;
    assert(index_from(line, '=', 0) == at) by {
        let i = index_from(line, '=', 0);
        if i < at {
            assert(line[i] == key[i]);
        } else if i > at {
            assert(line[at] == '=');
        }
    }
    assert(line.take(at) =~= key);
    assert(line.skip(at + 1) =~= val);
}

/// Inside a block, `START` and `END` give the chapter's start and end, `title` its title, and
/// `TIMEBASE` the length of a step; each leaves the rest of the block as it is.
pub proof fn law_block_lines_tell_of_the_chapter(m: MetaView, n: nat, num: nat, den: nat, title: Seq<char>)
    requires
        m.open,
        n <= i64::MAX,
        title.len() > 0,
        !is_white(title[0]) && !is_white(title.last()),
    ensures
        meta_step(m, "START="@ + dec(n)) == (MetaView { start: Some(n as int), ..m }),
        meta_step(m, "END="@ + dec(n)) == (MetaView { end: Some(n as int), ..m }),
        meta_step(m, "title="@ + title) == (MetaView { title: Some(title), ..m }),
        ({
            let base = dec(num) + seq!['/'] + dec(den);
            timebase_value(base) matches Some((a, b)) ==> meta_step(m, "TIMEBASE="@ + base) == (MetaView {
                num: a,
                den: b,
                ..m
            })
        }),
{
    reveal_strlit("START=");
    reveal_strlit("START");
    reveal_strlit("start");
    reveal_strlit("END=");
    reveal_strlit("END");
    reveal_strlit("end");
    reveal_strlit("title=");
    reveal_strlit("title");
    reveal_strlit("TIMEBASE=");
    reveal_strlit("TIMEBASE");
    reveal_strlit("timebase");
    assert("start"@.len() == 5 && "end"@.len() == 3 && "title"@.len() == 5 && "timebase"@.len() == 8);
    assert("start"@[0] == 's' && "title"@[0] == 't');
    lemma_dec_round_trip(n);
    let d = dec(n);
    assert(is_digit(d[0]) && is_digit(d[d.len() - 1]));
    assert(crate::text::unsigned_digits(d) == d);
    assert(signed_value(d) == Some(n as int));
    assert(lower("START"@) =~= "start"@);
    assert(lower("END"@) =~= "end"@);
    assert(lower("title"@) =~= "title"@);
    assert(lower("TIMEBASE"@) =~= "timebase"@);
    lemma_entry_line(m, "START"@, "start"@, d);
    lemma_entry_line(m, "END"@, "end"@, d);
    lemma_entry_line(m, "title"@, "title"@, title);
    assert("START="@ + d =~= "START"@ + seq!['='] + d);
    assert("END="@ + d =~= "END"@ + seq!['='] + d);
    assert("title="@ + title =~= "title"@ + seq!['='] + title);
    let base = dec(num) + seq!['/'] + dec(den);
    lemma_dec_round_trip(num);
    lemma_dec_round_trip(den);
    assert(is_digit(dec(num)[0]) && is_digit(dec(den)[dec(den).len() - 1]));
    assert(base[0] == dec(num)[0] && base.last() == dec(den)[dec(den).len() - 1]);
    lemma_entry_line(m, "TIMEBASE"@, "timebase"@, base);
    assert("TIMEBASE="@ + base =~= "TIMEBASE"@ + seq!['='] + base);
}

proof fn lemma_read_of_front(a: Seq<Seq<char>>, b: Seq<Seq<char>>, n: nat)
    requires
        n <= a.len(),
    ensures
        meta_read(a + b, n) == meta_read(a, n),
    decreases n,
{
    if n > 0 {
        lemma_read_of_front(a, b, (n - 1) as nat);
        assert((a + b)[n - 1] == a[n - 1]);
    }
}

/// A block at the end of a metadata file adds a chapter, from its start to its end in its own
/// timebase and under its title, to those that the file describes before it.
pub proof fn law_a_block_adds_a_chapter(
    x: Seq<char>,
    num: nat,
    den: nat,
    start: nat,
    end: nat,
    title: Seq<char>,
)
    requires
        num < 1_000_000_000_000_000_000,
        0 < den < 1_000_000_000_000_000_000,
        start <= i64::MAX,
        end <= i64::MAX,
        start * num * 3_528_000_000 <= MAX_TICKS,
        end * num * 3_528_000_000 <= MAX_TICKS,
        title.len() > 0,
        !title.contains('\n'),
        !is_white(title[0]) && !is_white(title.last()),
    ensures
        ({
            let nl = seq!['\n'];
            let base = dec(num) + seq!['/'] + dec(den);
            let block = "[CHAPTER]"@ + nl + "TIMEBASE="@ + base + nl + "START="@ + dec(start) + nl + "END="@ + dec(end)
                + nl + "title="@ + title;
            meta_chapters(x + nl + block) == meta_chapters(x + nl).push(
                ChapterView {
                    start: (start * num * 3_528_000_000 / den) as int,
                    end: (end * num * 3_528_000_000 / den) as int,
                    title: Some(title),
                },
            )
        }),
{
    let nl = seq!['\n'];
    let base = dec(num) + seq!['/'] + dec(den);
    let l0 = "[CHAPTER]"@;
    let l1 = "TIMEBASE="@ + base;
    let l2 = "START="@ + dec(start);
    let l3 = "END="@ + dec(end);
    let l4 = "title="@ + title;
    let block = l0 + nl + "TIMEBASE="@ + base + nl + "START="@ + dec(start) + nl + "END="@ + dec(end) + nl + "title="@
        + title;
    lemma_block_lines(num, den, start, end, title);
    let t3 = l3 + nl + l4;
    let t2 = l2 + nl + t3;
    let t1 = l1 + nl + t2;
    assert(block =~= l0 + nl + t1);
    law_lines_end_at_line_ends(l4, l4);
    law_lines_end_at_line_ends(l3, l4);
    law_lines_end_at_line_ends(l2, t3);
    law_lines_end_at_line_ends(l1, t2);
    law_lines_end_at_line_ends(l0, t1);
    law_lines_follow_each_other(x, block);
    let front = lines(x + nl);
    let more = seq![l0, l1, l2, l3, l4];
    assert(lines(block) =~= more);
    let all = lines(x + nl + block);
    assert(all =~= front + more);
    let n = front.len();
    lemma_read_of_front(front, more, n);
    let before = meta_read(front, n);
    lemma_closed_is_empty(front, n);
    let k = n as int;
    assert(all[k] == l0 && all[k + 1] == l1 && all[k + 2] == l2 && all[k + 3] == l3 && all[k + 4] == l4);
    let m0 = meta_read(all, n + 1);
    assert(m0 == meta_step(before, l0));
    let kept = meta_chapters(x + nl);
    assert(m0.open && m0.chapters == kept && m0.title is None && m0.start is None && m0.end is None);
    law_timebase_scales_times(num, den, start);
    law_timebase_scales_times(num, den, end);
    let (a, b) = timebase_value(base)->0;
    law_block_lines_tell_of_the_chapter(m0, start, num, den, title);
    let m1 = meta_read(all, n + 2);
    assert(m1 == (MetaView { num: a, den: b, ..m0 }));
    law_block_lines_tell_of_the_chapter(m1, start, num, den, title);
    let m2 = meta_read(all, n + 3);
    assert(m2 == (MetaView { start: Some(start as int), ..m1 }));
    law_block_lines_tell_of_the_chapter(m2, end, num, den, title);
    let m3 = meta_read(all, n + 4);
    assert(m3 == (MetaView { end: Some(end as int), ..m2 }));
    law_block_lines_tell_of_the_chapter(m3, end, num, den, title);
    let m4 = meta_read(all, n + 5);
    assert(m4 == (MetaView { title: Some(title), ..m3 }));
    assert(all.len() == n + 5);
    assert(m4.open);
}

/// The lines of a block hold no line end, and none ends in a `\r`; the first opens a block.
proof fn lemma_block_lines(num: nat, den: nat, start: nat, end: nat, title: Seq<char>)
    requires
        title.len() > 0,
        !title.contains('\n'),
        !is_white(title.last()),
    ensures
        !"[CHAPTER]"@.contains('\n') && "[CHAPTER]"@.last() == ']',
        "[CHAPTER]"@.len() > 0,
        trim("[CHAPTER]"@) == "[CHAPTER]"@,
        lower("[CHAPTER]"@) == "[chapter]"@,
        ({
            let l1 = "TIMEBASE="@ + (dec(num) + seq!['/'] + dec(den));
            let l2 = "START="@ + dec(start);
            let l3 = "END="@ + dec(end);
            let l4 = "title="@ + title;
            &&& !l1.contains('\n') && l1.len() > 0 && l1.last() != '\r'
            &&& !l2.contains('\n') && l2.len() > 0 && l2.last() != '\r'
            &&& !l3.contains('\n') && l3.len() > 0 && l3.last() != '\r'
            &&& !l4.contains('\n') && l4.len() > 0
        }),
{
    reveal_strlit("[CHAPTER]");
    reveal_strlit("[chapter]");
    reveal_strlit("TIMEBASE=");
    reveal_strlit("START=");
    reveal_strlit("END=");
    reveal_strlit("title=");
    lemma_has_no_line_end("[CHAPTER]"@);
    assert(lower("[CHAPTER]"@) =~= "[chapter]"@);
    lemma_trim_stays("[CHAPTER]"@);
    lemma_dec_round_trip(num);
    lemma_dec_round_trip(den);
    lemma_dec_round_trip(start);
    lemma_dec_round_trip(end);
    let base = dec(num) + seq!['/'] + dec(den);
    assert forall|i: int| 0 <= i < base.len() implies #[trigger] base[i] != '\n' by {
        if i < dec(num).len() {
            assert(is_digit(dec(num)[i]));
        } else if i > dec(num).len() {
            assert(base[i] == dec(den)[i - dec(num).len() - 1]);
            assert(is_digit(dec(den)[i - dec(num).len() - 1]));
        }
    }
    assert(is_digit(dec(den)[dec(den).len() - 1]));
    assert(base.last() == dec(den)[dec(den).len() - 1]);
    lemma_line_of("TIMEBASE="@, base);
    assert forall|i: int| 0 <= i < dec(start).len() implies #[trigger] dec(start)[i] != '\n' by {
        assert(is_digit(dec(start)[i]));
    }
    assert(is_digit(dec(start)[dec(start).len() - 1]));
    lemma_line_of("START="@, dec(start));
    assert forall|i: int| 0 <= i < dec(end).len() implies #[trigger] dec(end)[i] != '\n' by {
        assert(is_digit(dec(end)[i]));
    }
    assert(is_digit(dec(end)[dec(end).len() - 1]));
    lemma_line_of("END="@, dec(end));
    assert forall|i: int| 0 <= i < title.len() implies #[trigger] title[i] != '\n' by {
        if title[i] == '\n' {
            assert(title.contains('\n'));
        }
    }
    lemma_line_of("title="@, title);
}

proof fn lemma_line_of(key: Seq<char>, val: Seq<char>)
    requires
        val.len() > 0,
        forall|i: int| 0 <= i < key.len() ==> #[trigger] key[i] != '\n',
        forall|i: int| 0 <= i < val.len() ==> #[trigger] val[i] != '\n',
    ensures
        !(key + val).contains('\n'),
        (key + val).len() > 0,
        (key + val).last() == val.last(),
{
    let s = key + val;
    assert forall|i: int| 0 <= i < s.len() implies #[trigger] s[i] != '\n' by {
        if i < key.len() {
            assert(s[i] == key[i]);
        } else {
            assert(s[i] == val[i - key.len()]);
        }
    }
    lemma_has_no_line_end(s);
}

fn one() -> (r: Scaled)
    ensures
        r@ == default_timebase().0,
        r.is_sound(),
{
    Scaled { size: 1, negative: false, shift: 0 }
}

fn thousand() -> (r: Scaled)
    ensures
        r@ == default_timebase().1,
        r.is_sound(),
        r.size > 0,
{
    Scaled { size: 1000, negative: false, shift: 0 }
}

struct MetaReader {
    chapters: Vec<Chapter>,
    open: bool,
    num: Scaled,
    den: Scaled,
    start: Option<i64>,
    end: Option<i64>,
    title: Option<String>,
}

spec fn opt_int(o: Option<i64>) -> Option<int> {
    match o {
        Some(n) => Some(n as int),
        None => None,
    }
}

impl MetaReader {
    spec fn view(self) -> MetaView {
        MetaView {
            chapters: chapter_views(self.chapters@),
            open: self.open,
            num: self.num@,
            den: self.den@,
            start: opt_int(self.start),
            end: opt_int(self.end),
            title: opt_text(self.title),
        }
    }

    spec fn wf(self) -> bool {
        numbered(self.chapters@) && self.num.is_sound() && self.den.is_sound() && self.den.size > 0
    }

    fn close(&mut self)
        requires
            old(self).wf(),
        ensures
            final(self).wf(),
            final(self).view() == meta_close(old(self).view()),
    {
        let start = self.start.take();
        let end = self.end.take();
        let title = self.title.take();
        match (start, end) {
            (Some(s), Some(e)) => {
                let ghost before = self.chapters@;
                let a = scale(s, self.num, self.den);
                let b = scale(e, self.num, self.den);
                let idx = self.chapters.len();
                let c = Chapter { idx, start: a, end: b, title: keep_nonempty(&title) };
                let ghost cv = ChapterView { start: a as int, end: b as int, title: opt_text(c.title) };
                self.chapters.push(c);
                assert(chapter_views(self.chapters@) =~= chapter_views(before).push(cv));
            },
            _ => {},
        }
    }

    fn entry(&mut self, key: &Vec<char>, val: &Vec<char>)
        requires
            old(self).wf(),
        ensures
            final(self).wf(),
            final(self).view() == meta_entry(old(self).view(), key@, val@),
    {
        proof {
            reveal_strlit("timebase");
            reveal_strlit("start");
            reveal_strlit("end");
            reveal_strlit("title");
        }
        if chars_are(key, "timebase") {
            match cut_once(val, '/') {
                Some((n, d)) => {
                    match (parse_scaled(&n), parse_scaled(&d)) {
                        (Some(a), Some(b)) => {
                            if b.size != 0 {
                                self.num = a;
                                self.den = b;
                            }
                        },
                        _ => {},
                    }
                },
                None => {},
            }
        } else if chars_are(key, "start") {
            self.start = parse_signed(val);
        } else if chars_are(key, "end") {
            self.end = parse_signed(val);
        } else if chars_are(key, "title") {
            self.title = Some(string_of(val));
        }
    }

    fn line(&mut self, line: &Vec<char>)
        requires
            old(self).wf(),
        ensures
            final(self).wf(),
            final(self).view() == meta_step(old(self).view(), line@),
    {
        let t = trimmed(line);
        let low = to_lower(&t);
        if chars_are(&low, "[chapter]") {
            if self.open {
                self.close();
            }
            self.open = true;
            self.num = one();
            self.den = thousand();
        } else if t.len() > 0 && t[0] == '[' {
            if self.open {
                self.close();
                self.open = false;
            }
        } else if self.open {
            match cut_once(&t, '=') {
                Some((key, val)) => {
                    let k = trimmed(&key);
                    let kl = to_lower(&k);
                    let v = trimmed(&val);
                    self.entry(&kl, &v);
                },
                None => {},
            }
        }
    }
}

/// Reads the `[CHAPTER]` blocks of an ffmpeg metadata file. `TIMEBASE=num/den` scales `START` and
/// `END` to seconds; a block that lacks either is dropped.
pub fn parse_ffmeta(text: &str) -> (r: Vec<Chapter>)
    ensures
        chapter_views(r@) == meta_chapters(text@),
        numbered(r@),
{
    let v = chars_of(text);
    let all = lines_of(&v);
    let ghost l = lines(text@);
    let mut m = MetaReader {
        chapters: Vec::new(),
        open: false,
        num: one(),
        den: thousand(),
        start: None,
        end: None,
        title: None,
    };
    assert(m.view().chapters =~= Seq::empty());
    let mut i: usize = 0;
    while i < all.len()
        invariant
            i <= all.len(),
            l == lines(text@),
            all@.map_values(|p: Vec<char>| p@) == l,
            m.wf(),
            m.view() == meta_read(l, i as nat),
        decreases all.len() - i,
    {
        assert(l[i as int] == all@[i as int]@);
        m.line(&all[i]);
        i = i + 1;
    }
    if m.open {
        m.close();
    }
    m.chapters
}

// ---- Choosing a source ----------------------------------------------------

/// Numbers chapters by their place.
pub fn renumber(chapters: Vec<Chapter>) -> (r: Vec<Chapter>)
    ensures
        chapter_views(r@) == chapter_views(chapters@),
        numbered(r@),
{
    let mut r: Vec<Chapter> = Vec::new();
    let mut i: usize = 0;
    while i < chapters.len()
        invariant
            i <= chapters.len(),
            r@.len() == i,
            numbered(r@),
            chapter_views(r@) =~= chapter_views(chapters@).take(i as int),
        decreases chapters.len() - i,
    {
        let c = &chapters[i];
        let ghost before = chapter_views(r@);
        r.push(Chapter { idx: i, start: c.start, end: c.end, title: clone_opt(&c.title) });
        proof {
            assert(chapter_views(r@) =~= before.push(chapter_views(chapters@)[i as int]));
            assert(chapter_views(chapters@).take(i + 1) =~= chapter_views(chapters@).take(i as int).push(
                chapter_views(chapters@)[i as int],
            ));
        }
        i = i + 1;
    }
    assert(chapter_views(chapters@).take(chapters@.len() as int) =~= chapter_views(chapters@));
    r
}

/// Whether a cue sheet is there and describes at least one chapter.
pub open spec fn cue_usable(cue: Option<Seq<char>>) -> bool {
    cue is Some && cue_sheet(cue->0).len() > 0
}

/// Whether a metadata file is there and describes at least one chapter.
pub open spec fn ffmeta_usable(ffmeta: Option<Seq<char>>) -> bool {
    ffmeta is Some && meta_chapters(ffmeta->0).len() > 0
}

/// Which source wins.
pub open spec fn source_of(cue: Option<Seq<char>>, ffmeta: Option<Seq<char>>, force_embedded: bool) -> ChapterSource {
    if force_embedded {
        ChapterSource::Embedded
    } else if cue_usable(cue) {
        ChapterSource::Cue
    } else if ffmeta_usable(ffmeta) {
        ChapterSource::Ffmeta
    } else {
        ChapterSource::Embedded
    }
}

/// Chooses the chapters of a book, given the texts of its sidecars where there are any. A sidecar
/// counts only if it describes at least one chapter. The last chapter of a cue sheet ends at
/// `duration`.
pub fn resolve(
    cue: Option<&str>,
    ffmeta: Option<&str>,
    embedded: Vec<Chapter>,
    duration: i128,
    force_embedded: bool,
) -> (r: Resolved)
    ensures
        r.source == source_of(crate::text::opt_str(cue), crate::text::opt_str(ffmeta), force_embedded),
        match r.source {
            ChapterSource::Cue => are_cue_chapters(r.chapters@, cue->0@, duration as int),
            ChapterSource::Ffmeta => chapter_views(r.chapters@) == meta_chapters(ffmeta->0@),
            ChapterSource::Embedded => chapter_views(r.chapters@) == chapter_views(embedded@),
        },
        numbered(r.chapters@),
        force_embedded ==> r.source == ChapterSource::Embedded,
        r.source == ChapterSource::Embedded ==> r.chapters@.len() == embedded@.len() && forall|i: int|
            0 <= i < embedded@.len() ==> {
                &&& (#[trigger] r.chapters@[i]).idx == i
                &&& r.chapters@[i].start == embedded@[i].start
                &&& r.chapters@[i].end == embedded@[i].end
                &&& opt_text(r.chapters@[i].title) == opt_text(embedded@[i].title)
            },
{
    if !force_embedded {
        if let Some(text) = cue {
            let chapters = parse_cue(text, duration);
            if chapters.len() > 0 {
                proof {
                    assert forall|i: int| 0 <= i < chapters@.len() implies (#[trigger] chapters@[i]).idx == i by {
                        assert(is_cue_chapter(chapters@[i], cue_sheet(text@), duration as int, i));
                    }
                }
                return Resolved { source: ChapterSource::Cue, chapters };
            }
        }
        if let Some(text) = ffmeta {
            let chapters = parse_ffmeta(text);
            assert(chapter_views(chapters@).len() == chapters@.len());
            if chapters.len() > 0 {
                return Resolved { source: ChapterSource::Ffmeta, chapters };
            }
        }
    }
    let chapters = renumber(embedded);
    proof {
        assert(chapter_views(chapters@).len() == chapters@.len());
        assert(chapter_views(embedded@).len() == embedded@.len());
        assert forall|i: int| 0 <= i < embedded@.len() implies {
            &&& (#[trigger] chapters@[i]).idx == i
            &&& chapters@[i].start == embedded@[i].start
            &&& chapters@[i].end == embedded@[i].end
            &&& opt_text(chapters@[i].title) == opt_text(embedded@[i].title)
        } by {
            assert(chapter_views(chapters@)[i] == chapter_views(embedded@)[i]);
        }
    }
    Resolved { source: ChapterSource::Embedded, chapters }
}

/// A cue sheet wins over a metadata file, and both over embedded chapters, if they describe any
/// chapters at all; embedded chapters win if that is asked for, or nothing else is there.
pub proof fn law_sidecars_win_in_order(cue: Option<Seq<char>>, ffmeta: Option<Seq<char>>, force_embedded: bool)
    ensures
        ({
            let by_cue = cue is Some && cue_sheet(cue->0).len() > 0;
            let by_meta = ffmeta is Some && meta_chapters(ffmeta->0).len() > 0;
            let r = source_of(cue, ffmeta, force_embedded);
            &&& r == ChapterSource::Cue <==> !force_embedded && by_cue
            &&& r == ChapterSource::Ffmeta <==> !force_embedded && !by_cue && by_meta
            &&& r == ChapterSource::Embedded <==> force_embedded || (!by_cue && !by_meta)
        }),
{
}

// ---- Finding a sidecar ----------------------------------------------------

/// The extensions of cue sheets.
pub open spec fn cue_extensions() -> Seq<Seq<char>> {
    seq!["cue"@]
}

/// The extensions of metadata files.
pub open spec fn ffmeta_extensions() -> Seq<Seq<char>> {
    seq!["ffmeta"@, "ffmetadata"@]
}

/// The extensions of cue sheets.
pub fn cue_exts() -> (r: Vec<String>)
    ensures
        texts(r@) == cue_extensions(),
        texts(r@) == seq!["cue"@],
{
    let r = vec!["cue".to_owned()];
    assert(texts(r@) =~= cue_extensions());
    r
}

/// The extensions of metadata files, in the order they are tried.
pub fn ffmeta_exts() -> (r: Vec<String>)
    ensures
        texts(r@) == ffmeta_extensions(),
        texts(r@) == seq!["ffmeta"@, "ffmetadata"@],
{
    let r = vec!["ffmeta".to_owned(), "ffmetadata".to_owned()];
    assert(texts(r@) =~= ffmeta_extensions());
    r
}

/// Whether the file `name` is a sidecar of the one with the stem `stem`: it has the same stem, and
/// the extension `ext` in whatever case.
pub open spec fn is_sidecar(name: Seq<char>, stem: Seq<char>, ext: Seq<char>) -> bool {
    &&& stem_of(name) == stem
    &&& extension_of(name) matches Some(e) && lower(e) == ext
}

/// Whether no small letter stands in `s`.
pub open spec fn is_capital(s: Seq<char>) -> bool {
    forall|i: int| 0 <= i < s.len() ==> !('a' <= #[trigger] s[i] && s[i] <= 'z')
}

/// How the extension of `name` is spelled: as `ext` is (0), in capitals (1), or mixed (2).
pub open spec fn spelling(name: Seq<char>, ext: Seq<char>) -> int {
    let e = extension_of(name)->0;
    if e == ext {
        0
    } else if is_capital(e) {
        1
    } else {
        2
    }
}

/// Whether the sibling at `j` is the sidecar that is read, with the extension at `k`: no sibling
/// has an extension that comes before it, and of those that share it, none is spelled more plainly
/// and none that is spelled as plainly stands before it.
pub open spec fn is_picked(
    j: int,
    k: int,
    stem: Seq<char>,
    siblings: Seq<Seq<char>>,
    exts: Seq<Seq<char>>,
) -> bool {
    &&& 0 <= j < siblings.len()
    &&& 0 <= k < exts.len()
    &&& is_sidecar(siblings[j], stem, exts[k])
    &&& has_none_before(k, stem, siblings, exts)
    &&& forall|i: int|
        0 <= i < siblings.len() && is_sidecar(#[trigger] siblings[i], stem, exts[k]) ==> {
            ||| spelling(siblings[j], exts[k]) < spelling(siblings[i], exts[k])
            ||| spelling(siblings[j], exts[k]) == spelling(siblings[i], exts[k]) && j <= i
        }
}

/// Whether no sibling is a sidecar with one of the first `k` extensions.
pub open spec fn has_none_before(
    k: int,
    stem: Seq<char>,
    siblings: Seq<Seq<char>>,
    exts: Seq<Seq<char>>,
) -> bool {
    forall|i: int, m: int|
        0 <= i < siblings.len() && 0 <= m < k ==> !is_sidecar(#[trigger] siblings[i], stem, #[trigger] exts[m])
}

/// Whether the sibling at `j` is the sidecar that is read.
pub open spec fn is_pick(j: int, stem: Seq<char>, siblings: Seq<Seq<char>>, exts: Seq<Seq<char>>) -> bool {
    exists|k: int| is_picked(j, k, stem, siblings, exts)
}

/// How the extension of `name` is spelled, if it is a sidecar; `None` if it is none.
fn sidecar_spelling(name: &str, stem: &str, ext: &str) -> (r: Option<u8>)
    ensures
        match r {
            Some(n) => is_sidecar(name@, stem@, ext@) && n == spelling(name@, ext@),
            None => !is_sidecar(name@, stem@, ext@),
        },
{
    let v = chars_of(name);
    let i = after_last(&v, '.');
    if i <= 1 {
        return None;
    }
    let s = slice_of(&v, 0, i - 1);
    let e = slice_of(&v, i, v.len());
    proof {
        assert(s@ =~= v@.take(i - 1));
        assert(e@ =~= v@.skip(i as int));
    }
    let low = to_lower(&e);
    if !chars_are(&s, stem) || !chars_are(&low, ext) {
        return None;
    }
    if chars_are(&e, ext) {
        return Some(0);
    }
    let mut k: usize = 0;
    while k < e.len()
        invariant
            k <= e.len(),
            forall|j: int| 0 <= j < k ==> !('a' <= #[trigger] e@[j] && e@[j] <= 'z'),
            e@ != ext@,
            extension_of(name@) == Some(e@),
            is_sidecar(name@, stem@, ext@),
        decreases e.len() - k,
    {
        let c = e[k];
        if 'a' <= c && c <= 'z' {
            assert(!is_capital(e@)) by {
                assert('a' <= e@[k as int] && e@[k as int] <= 'z');
            }
            return Some(2);
        }
        k = k + 1;
    }
    Some(1)
}

/// Picks the sidecar of the file `audio` among the names of the files beside it. The extensions
/// are tried in order, each in whatever case; of several spellings of one, that of `exts` comes
/// first, then capitals. `None` exactly where no file is a sidecar.
pub fn pick_sidecar(audio: &str, siblings: &Vec<String>, exts: &Vec<String>) -> (r: Option<usize>)
    ensures
        match file_stem_of(audio@) {
            Some(stem) => match r {
                Some(j) => is_pick(j as int, stem, texts(siblings@), texts(exts@)),
                None => has_none_before(exts@.len() as int, stem, texts(siblings@), texts(exts@)),
            },
            None => r is None,
        },
{
    let stem = match path_stem(audio) {
        Some(s) => s,
        None => {
            return None;
        },
    };
    let ghost names = texts(siblings@);
    let ghost all = texts(exts@);
    let mut k: usize = 0;
    while k < exts.len()
        invariant
            k <= exts.len(),
            names == texts(siblings@),
            all == texts(exts@),
            file_stem_of(audio@) == Some(stem@),
            has_none_before(k as int, stem@, names, all),
        decreases exts.len() - k,
    {
        let ext = exts[k].as_str();
        let mut best: Option<(usize, u8)> = None;
        let mut j: usize = 0;
        assert(all[k as int] == ext@);
        while j < siblings.len()
            invariant
                j <= siblings.len(),
                names == texts(siblings@),
                match best {
                    Some((b, n)) => {
                        &&& b < j
                        &&& is_sidecar(names[b as int], stem@, ext@)
                        &&& n == spelling(names[b as int], ext@)
                        &&& forall|i: int|
                            0 <= i < j && is_sidecar(#[trigger] names[i], stem@, ext@) ==> {
                                ||| n < spelling(names[i], ext@)
                                ||| n == spelling(names[i], ext@) && b <= i
                            }
                    },
                    None => forall|i: int| 0 <= i < j ==> !is_sidecar(#[trigger] names[i], stem@, ext@),
                },
            decreases siblings.len() - j,
        {
            assert(names[j as int] == siblings@[j as int]@);
            match sidecar_spelling(siblings[j].as_str(), stem.as_str(), ext) {
                Some(n) => {
                    let better = match best {
                        Some((_, m)) => n < m,
                        None => true,
                    };
                    if better {
                        best = Some((j, n));
                    }
                },
                None => {},
            }
            j = j + 1;
        }
        match best {
            Some((b, _)) => {
                assert(is_picked(b as int, k as int, stem@, names, all));
                assert(is_pick(b as int, stem@, names, all));
                return Some(b);
            },
            None => {},
        }
        k = k + 1;
    }
    None
}

/// A file that only describes a book or lists its parts is no chapter source: whatever it is
/// called, it is never picked.
pub proof fn law_manifests_are_no_chapter_source(name: Seq<char>, stem: Seq<char>, k: int)
    requires
        extension_of(name) is Some,
        lower(extension_of(name)->0) == "opf"@ || lower(extension_of(name)->0) == "nfo"@ || lower(
            extension_of(name)->0,
        ) == "odm"@,
    ensures
        0 <= k < cue_extensions().len() ==> !is_sidecar(name, stem, cue_extensions()[k]),
        0 <= k < ffmeta_extensions().len() ==> !is_sidecar(name, stem, ffmeta_extensions()[k]),
{
    reveal_strlit("opf");
    reveal_strlit("nfo");
    reveal_strlit("odm");
    reveal_strlit("cue");
    reveal_strlit("ffmeta");
    reveal_strlit("ffmetadata");
    assert("cue"@[0] == 'c' && "opf"@[0] == 'o' && "nfo"@[0] == 'n' && "odm"@[0] == 'o');
}

/// However its extension is spelled, a sidecar that stands beside the audio is found.
pub proof fn law_a_sidecar_is_found_in_any_case(
    name: Seq<char>,
    stem: Seq<char>,
    siblings: Seq<Seq<char>>,
    exts: Seq<Seq<char>>,
    k: int,
)
    requires
        siblings.contains(name),
        0 <= k < exts.len(),
        is_sidecar(name, stem, exts[k]),
    ensures
        !has_none_before(exts.len() as int, stem, siblings, exts),
{
    let j = choose|j: int| 0 <= j < siblings.len() && siblings[j] == name;
    assert(is_sidecar(siblings[j], stem, exts[k]));
}

/// A sidecar has the stem of the audio and the extension that is looked for, in whatever case.
pub proof fn law_sidecars_share_the_stem(stem: Seq<char>, e: Seq<char>, wanted: Seq<char>, ext: Seq<char>)
    requires
        stem.len() > 0,
        !e.contains('.'),
    ensures
        is_sidecar(stem + seq!['.'] + e, wanted, ext) <==> stem == wanted && lower(e) == ext,
{
    lemma_dotted_name(stem, e);
}

/// Of the sidecars of a file the one with the extension that is tried first is read; and of those
/// with that extension the one that spells it as it stands, then one in capitals.
pub proof fn law_plain_sidecars_come_first(
    j: int,
    k: int,
    stem: Seq<char>,
    siblings: Seq<Seq<char>>,
    exts: Seq<Seq<char>>,
    i: int,
    m: int,
)
    requires
        is_picked(j, k, stem, siblings, exts),
        0 <= i < siblings.len(),
        0 <= m < exts.len(),
        is_sidecar(siblings[i], stem, exts[m]),
    ensures
        k <= m,
        m == k && extension_of(siblings[i]) == Some(exts[k]) ==> extension_of(siblings[j]) == Some(exts[k]),
        m == k && extension_of(siblings[i]) == Some(exts[k]) && extension_of(siblings[j]) == Some(exts[k]) ==> j <= i,
        m == k && is_capital(extension_of(siblings[i])->0) ==> extension_of(siblings[j]) == Some(exts[k])
            || is_capital(extension_of(siblings[j])->0),
{
    if m < k {
        assert(!is_sidecar(siblings[i], stem, exts[m]));
    }
}

} // verus!
