//! The ingest of one file as it goes on: what is done next, given how the last
//! step went.
//!
//! A step that fails ends the ingest, with one exception: a cover that cannot be
//! extracted is no reason to lose a book.

use vstd::prelude::*;
use crate::config::TranscodeMode;
use crate::feed::pubdates_fit;
use crate::index::{are_records, guids, law_index_holds_this_ingest_alone, put_down, taken_off, BookRow, EpisodeRow};
use crate::scanner::ingest::{are_episode_rows, are_produced, episode_rows, ingest_steps, is_current, is_row_at, is_up_to_date, measure_chapters, production, steps_of, IngestPlan, IngestStep, Settings};
use crate::splitter::{Encoding, SplitEpisode};
use crate::text::opt_text;

verus! {

// ---- Whether there is anything to do --------------------------------------

/// How a book stands before its source is probed.
#[derive(Debug, Clone, Copy, PartialEq, Eq, Structural)]
pub enum Standing {
    /// What is on record is current; a thumbnail may still have to be made from its cover.
    Current { thumbnail: bool },
    /// The book is to be ingested.
    Outdated,
}

/// What is on record under the id of a book.
#[derive(Debug)]
pub struct Record {
    pub book: BookRow,
    pub episodes: Vec<EpisodeRow>,
    /// Whether the file of each episode exists.
    pub present: Vec<bool>,
}

/// How a book stands.
pub open spec fn standing_of(
    record: Option<Record>,
    s: Settings,
    mtime: i64,
    input: Seq<char>,
    mode: TranscodeMode,
    has_thumbnail: bool,
) -> Standing {
    match record {
        Some(r) => if is_current(r.book, r.episodes@, r.present@, s, mtime, input, mode) {
            Standing::Current { thumbnail: r.book.cover_path is Some && !has_thumbnail }
        } else {
            Standing::Outdated
        },
        None => Standing::Outdated,
    }
}

/// Decides how a book stands.
pub fn standing(
    record: &Option<Record>,
    s: &Settings,
    mtime: i64,
    input: &str,
    mode: TranscodeMode,
    has_thumbnail: bool,
) -> (r: Standing)
    requires
        record matches Some(c) ==> c.episodes@.len() == c.present@.len(),
    ensures
        r == standing_of(*record, *s, mtime, input@, mode, has_thumbnail),
        record is None ==> r == Standing::Outdated,
        record matches Some(c) ==> {
            let current = is_current(c.book, c.episodes@, c.present@, *s, mtime, input@, mode);
            &&& !current ==> r == Standing::Outdated
            &&& current && c.book.cover_path is Some && !has_thumbnail ==> r == Standing::Current { thumbnail: true }
            &&& current && (c.book.cover_path is None || has_thumbnail) ==> r == Standing::Current { thumbnail: false }
        },
{
    match record {
        Some(r) => {
            if is_up_to_date(&r.book, &r.episodes, &r.present, s, mtime, input, mode) {
                Standing::Current { thumbnail: r.book.cover_path.is_some() && !has_thumbnail }
            } else {
                Standing::Outdated
            }
        },
        None => Standing::Outdated,
    }
}

// ---- The steps ------------------------------------------------------------

/// How a step went.
#[derive(Debug)]
pub enum StepOutcome {
    /// It was done.
    Done,
    /// It made this episode.
    Episode(SplitEpisode),
    /// It made these episodes.
    Episodes(Vec<SplitEpisode>),
    /// It made this cover.
    Cover(String),
    /// It failed.
    Failed,
}

/// An ingest that goes on.
#[derive(Debug)]
pub struct IngestRun {
    pub plan: IngestPlan,
    /// Whether the book is kept in saver mode.
    pub saver: bool,
    /// Whether the source is a non-faststart MP4 that is served as it is.
    pub slow: bool,
    /// Whether such a source is remuxed.
    pub remux: bool,
    /// Whether the source has a cover.
    pub has_cover: bool,
    /// All steps.
    pub steps: Vec<IngestStep>,
    /// How many of them are behind.
    pub at: usize,
    /// The episodes that were made, in order.
    pub produced: Vec<SplitEpisode>,
    /// The cover that was extracted.
    pub cover: Option<String>,
    /// Whether a step failed.
    pub failed: bool,
}

/// How many episodes a step makes, in a book of `n`.
pub open spec fn made_by(step: IngestStep, n: nat) -> nat {
    match step {
        IngestStep::TranscodeWhole => 1,
        IngestStep::RemuxWhole => 1,
        IngestStep::MeasureSource => 1,
        IngestStep::CutChapter(_) => 1,
        IngestStep::SplitBook => n,
        _ => 0,
    }
}

/// How many episodes the first `k` steps make.
pub open spec fn made_before(steps: Seq<IngestStep>, k: nat, n: nat) -> nat
    decreases k,
{
    if k == 0 {
        0
    } else {
        made_before(steps, (k - 1) as nat, n) + made_by(steps[k - 1], n)
    }
}

/// Whether `eps` are the episodes from position `from` on, with sizes that can be recorded.
pub open spec fn follow(eps: Seq<SplitEpisode>, from: int) -> bool {
    forall|i: int|
        0 <= i < eps.len() ==> (#[trigger] eps[i]).idx == from + i && eps[i].byte_length <= i64::MAX
}

/// Whether a plan has a title for each cut, at least one cut, and just one if the file is taken
/// whole.
pub open spec fn is_whole(p: IngestPlan) -> bool {
    &&& p.titles@.len() == p.cuts@.len()
    &&& 0 < p.cuts@.len() <= i64::MAX
    &&& p.chapterless ==> p.cuts@.len() == 1
    &&& p.serve_in_place == (p.chapterless && p.enc == Encoding::Copy)
}

/// The episodes that a step made, if `o` is the outcome of `step` and they come next.
pub open spec fn yielded(
    step: IngestStep,
    o: StepOutcome,
    n: nat,
    from: int,
) -> Option<Seq<SplitEpisode>> {
    match o {
        StepOutcome::Failed => if step == IngestStep::ExtractCover {
            Some(Seq::empty())
        } else {
            None
        },
        StepOutcome::Cover(_) => if step == IngestStep::ExtractCover {
            Some(Seq::empty())
        } else {
            None
        },
        StepOutcome::Done => if made_by(step, n) == 0 {
            Some(Seq::empty())
        } else {
            None
        },
        StepOutcome::Episode(e) => if made_by(step, n) == 1 && step != IngestStep::SplitBook && follow(
            seq![e],
            from,
        ) {
            Some(seq![e])
        } else {
            None
        },
        StepOutcome::Episodes(v) => if step == IngestStep::SplitBook && v@.len() == n && follow(v@, from) {
            Some(v@)
        } else {
            None
        },
    }
}

/// Whether a step is one of those that bring the episodes on record in line with the run.
pub open spec fn puts_down(step: Option<IngestStep>) -> bool {
    step == Some(IngestStep::StoreEpisodes) || step == Some(IngestStep::DropStaleRows)
}

impl IngestRun {
    /// Whether the run is one that began with its plan and went on step by step.
    pub open spec fn is_sound(self) -> bool {
        &&& is_whole(self.plan)
        &&& self.steps@ == steps_of(self.plan, self.saver, self.slow, self.remux, self.has_cover)
        &&& self.at <= self.steps@.len()
        &&& self.produced@.len() == made_before(self.steps@, self.at as nat, self.plan.cuts@.len())
        &&& follow(self.produced@, 0)
    }

    /// The step that is to be done.
    pub open spec fn step(self) -> Option<IngestStep> {
        if self.failed || self.at >= self.steps@.len() {
            None
        } else {
            Some(self.steps@[self.at as int])
        }
    }

    /// Begins an ingest.
    pub fn new(plan: IngestPlan, saver: bool, slow: bool, remux: bool, has_cover: bool) -> (r: IngestRun)
        requires
            is_whole(plan),
        ensures
            r.is_sound(),
            r.plan == plan,
            r.saver == saver && r.slow == slow && r.remux == remux && r.has_cover == has_cover,
            r.at == 0,
            r.produced@.len() == 0,
            r.cover is None,
            !r.failed,
    {
        let steps = ingest_steps(&plan, saver, slow, remux, has_cover);
        IngestRun {
            plan,
            saver,
            slow,
            remux,
            has_cover,
            steps,
            at: 0,
            produced: Vec::new(),
            cover: None,
            failed: false,
        }
    }

    /// What is to be done next; `None` if the ingest is over.
    pub fn next_step(&self) -> (r: Option<IngestStep>)
        requires
            self.is_sound(),
        ensures
            r == self.step(),
    {
        if self.failed || self.at >= self.steps.len() {
            None
        } else {
            Some(self.steps[self.at])
        }
    }

    /// Goes on, given how the step went. An outcome that does not belong to the step, or episodes
    /// out of order, count as a failure.
    pub fn report(&mut self, o: StepOutcome)
        requires
            old(self).is_sound(),
            old(self).step() is Some,
        ensures
            final(self).is_sound(),
            final(self).plan == old(self).plan,
            final(self).saver == old(self).saver && final(self).slow == old(self).slow,
            final(self).remux == old(self).remux && final(self).has_cover == old(self).has_cover,
            final(self).steps == old(self).steps,
            ({
                let made = yielded(
                    old(self).step()->0,
                    o,
                    old(self).plan.cuts@.len(),
                    old(self).produced@.len() as int,
                );
                &&& final(self).failed == (made is None)
                &&& made is None ==> final(self).at == old(self).at && final(self).produced@
                    == old(self).produced@ && final(self).cover == old(self).cover
                &&& made is Some ==> final(self).at == old(self).at + 1 && final(self).produced@
                    == old(self).produced@ + made->0
                &&& made is Some ==> opt_text(final(self).cover) == match o {
                    StepOutcome::Cover(c) => Some(c@),
                    _ => opt_text(old(self).cover),
                }
            }),
            o is Failed ==> final(self).produced@ == old(self).produced@,
            o is Failed && old(self).step() == Some(IngestStep::ExtractCover) ==> !final(self).failed,
            o is Failed && old(self).step() != Some(IngestStep::ExtractCover) ==> final(self).failed,
            o matches StepOutcome::Episode(e) ==> !final(self).failed ==> e.idx == old(self).produced@.len()
                && final(self).produced@ == old(self).produced@.push(e),
            o matches StepOutcome::Episodes(v) ==> !final(self).failed ==> old(self).step() == Some(
                IngestStep::SplitBook,
            ) && v@.len() == old(self).plan.cuts@.len() && final(self).produced@ == old(self).produced@ + v@,
            o is Done && !final(self).failed ==> final(self).produced@ == old(self).produced@,
            final(self).at == old(self).at + if final(self).failed {
                0int
            } else {
                1int
            },
            o is Done ==> (!final(self).failed <==> match old(self).step()->0 {
                IngestStep::TranscodeWhole
                | IngestStep::RemuxWhole
                | IngestStep::MeasureSource
                | IngestStep::CutChapter(_)
                | IngestStep::SplitBook => false,
                _ => true,
            }),
            o matches StepOutcome::Cover(c) ==> if old(self).step() == Some(IngestStep::ExtractCover) {
                !final(self).failed && opt_text(final(self).cover) == Some(c@) && final(self).produced@
                    == old(self).produced@
            } else {
                final(self).failed
            },
            !(o is Cover) ==> opt_text(final(self).cover) == opt_text(old(self).cover),
            o matches StepOutcome::Episode(e) ==> (!final(self).failed <==> e.idx == old(self).produced@.len()
                && e.byte_length <= i64::MAX && match old(self).step()->0 {
                IngestStep::TranscodeWhole
                | IngestStep::RemuxWhole
                | IngestStep::MeasureSource
                | IngestStep::CutChapter(_) => true,
                _ => false,
            }),
            o matches StepOutcome::Episodes(v) ==> (!final(self).failed <==> old(self).step() == Some(
                IngestStep::SplitBook,
            ) && v@.len() == old(self).plan.cuts@.len() && forall|i: int|
                0 <= i < v@.len() ==> (#[trigger] v@[i]).idx == old(self).produced@.len() + i
                    && v@[i].byte_length <= i64::MAX),
    {
        let n: usize = self.plan.cuts.len();
        assert(self.at < self.steps.len());
        let step = self.steps[self.at];
        let ghost was = *self;
        let from: usize = self.produced.len();
        match o {
            StepOutcome::Failed => {
                match step {
                    IngestStep::ExtractCover => {
                        self.at = self.at + 1;
                        assert(self.produced@ =~= was.produced@ + Seq::<SplitEpisode>::empty());
                    },
                    _ => {
                        self.failed = true;
                    },
                }
            },
            StepOutcome::Cover(c) => {
                match step {
                    IngestStep::ExtractCover => {
                        self.cover = Some(c);
                        self.at = self.at + 1;
                        assert(self.produced@ =~= was.produced@ + Seq::<SplitEpisode>::empty());
                    },
                    _ => {
                        self.failed = true;
                    },
                }
            },
            StepOutcome::Done => {
                let silent = match step {
                    IngestStep::TranscodeWhole => false,
                    IngestStep::RemuxWhole => false,
                    IngestStep::MeasureSource => false,
                    IngestStep::CutChapter(_) => false,
                    IngestStep::SplitBook => false,
                    _ => true,
                };
                if silent {
                    self.at = self.at + 1;
                    assert(self.produced@ =~= was.produced@ + Seq::<SplitEpisode>::empty());
                } else {
                    self.failed = true;
                }
            },
            StepOutcome::Episode(e) => {
                let single = match step {
                    IngestStep::TranscodeWhole => true,
                    IngestStep::RemuxWhole => true,
                    IngestStep::MeasureSource => true,
                    IngestStep::CutChapter(_) => true,
                    _ => false,
                };
                let fits = e.idx == from && e.byte_length <= i64::MAX as u64;
                proof {
                    let one = seq![e];
                    assert(one[0] == e);
                    assert(follow(one, from as int) == fits);
                }
                if single && fits {
                    self.produced.push(e);
                    self.at = self.at + 1;
                    assert(self.produced@ =~= was.produced@ + seq![e]);
                } else {
                    self.failed = true;
                }
            },
            StepOutcome::Episodes(v) => {
                let whole = match step {
                    IngestStep::SplitBook => true,
                    _ => false,
                };
                if whole && v.len() == n && in_order(&v, from) {
                    let ghost made = v@;
                    let mut v = v;
                    self.produced.append(&mut v);
                    self.at = self.at + 1;
                    assert(self.produced@ =~= was.produced@ + made);
                } else {
                    self.failed = true;
                }
            },
        }
        proof {
            if !self.failed {
                assert forall|i: int| 0 <= i < self.produced@.len() implies (#[trigger] self.produced@[i]).idx
                    == i && self.produced@[i].byte_length <= i64::MAX by {
                    let k = was.produced@.len() as int;
                    if i < k {
                        assert(self.produced@[i] == was.produced@[i]);
                    } else {
                        let made = yielded(step, o, n as nat, k)->0;
                        assert(self.produced@[i] == made[i - k]);
                        assert(made[i - k].idx == k + (i - k));
                    }
                }
            }
        }
    }

    /// The records of the episodes, when the run has come to put them down, or to take others off;
    /// `None` at other times, or if their dates lie beyond what can be recorded.
    pub fn rows(&self, id: &str, mtime: i64, input: &str) -> (r: Option<Vec<EpisodeRow>>)
        requires
            self.is_sound(),
        ensures
            r is Some <==> puts_down(self.step()) && pubdates_fit(
                mtime as int,
                self.plan.cuts@.len() as int,
            ),
            r is Some ==> are_episode_rows(
                r->0@,
                self.produced@,
                self.plan,
                id@,
                mtime as int,
                input@,
                self.slow,
            ) && are_records(r->0@),
    {
        let here = match self.next_step() {
            Some(IngestStep::StoreEpisodes) => true,
            Some(IngestStep::DropStaleRows) => true,
            _ => false,
        };
        if !here || !dates_fit(mtime, self.plan.cuts.len()) {
            return None;
        }
        proof {
            lemma_all_is_made(*self);
            assert forall|i: int| 0 <= i < self.produced@.len() implies (#[trigger] self.produced@[i]).idx
                < self.plan.cuts@.len() by {
                assert(self.produced@[i].idx == i);
            }
            assert(are_produced(self.produced@, self.plan, mtime as int));
        }
        Some(episode_rows(id, mtime, input, &self.plan, &self.produced, self.slow))
    }
}

fn in_order(v: &Vec<SplitEpisode>, from: usize) -> (r: bool)
    ensures
        r == follow(v@, from as int),
{
    let mut i: usize = 0;
    while i < v.len()
        invariant
            i <= v.len(),
            forall|j: int|
                0 <= j < i ==> (#[trigger] v@[j]).idx == from + j && v@[j].byte_length <= i64::MAX,
        decreases v.len() - i,
    {
        if v[i].idx < from || v[i].idx - from != i || v[i].byte_length > i64::MAX as u64 {
            assert(!(v@[i as int].idx == from + i && v@[i as int].byte_length <= i64::MAX));
            return false;
        }
        i = i + 1;
    }
    true
}

/// Whether the dates of a book with `n` episodes can be recorded.
pub fn dates_fit(anchor: i64, n: usize) -> (r: bool)
    ensures
        r == pubdates_fit(anchor as int, n as int),
{
    let span: i128 = (n as i128) * 60;
    span <= i64::MAX as i128 && anchor as i128 - span >= i64::MIN as i128
}

// ---- What holds of it -----------------------------------------------------

proof fn lemma_made_step(steps: Seq<IngestStep>, k: nat, n: nat)
    ensures
        made_before(steps, k + 1, n) == made_before(steps, k, n) + made_by(steps[k as int], n),
{
}

proof fn lemma_made_agree(a: Seq<IngestStep>, b: Seq<IngestStep>, k: nat, n: nat)
    requires
        k <= a.len(),
        k <= b.len(),
        a.take(k as int) == b.take(k as int),
    ensures
        made_before(a, k, n) == made_before(b, k, n),
    decreases k,
{
    if k > 0 {
        assert(a.take(k - 1) =~= a.take(k as int).take(k - 1));
        assert(b.take(k - 1) =~= b.take(k as int).take(k - 1));
        lemma_made_agree(a, b, (k - 1) as nat, n);
        assert(a[k - 1] == a.take(k as int)[k - 1]);
        assert(b[k - 1] == b.take(k as int)[k - 1]);
    }
}

proof fn lemma_measured(m: nat, n: nat)
    ensures
        measure_chapters(m).len() == 2 * m,
        made_before(measure_chapters(m), 2 * m, n) == m,
    decreases m,
{
    if m > 0 {
        lemma_measured((m - 1) as nat, n);
        let s = measure_chapters(m);
        let front = measure_chapters((m - 1) as nat);
        let k = (2 * (m - 1)) as nat;
        assert(s.take(k as int) =~= front.take(k as int));
        lemma_made_agree(s, front, k, n);
        lemma_made_step(s, k, n);
        lemma_made_step(s, k + 1, n);
        assert(s[k as int] is CutChapter);
        assert(s[k as int + 1] is DeleteEpisode);
    }
}

/// The steps of the production make every episode of the plan.
proof fn lemma_production_makes_all(p: IngestPlan, saver: bool, slow: bool, remux: bool)
    requires
        is_whole(p),
    ensures
        ({
            let s = production(p, saver, slow, remux);
            made_before(s, s.len(), p.cuts@.len()) == p.cuts@.len()
        }),
{
    let s = production(p, saver, slow, remux);
    let n = p.cuts@.len();
    if !(p.chapterless && p.enc != Encoding::Copy) && !p.serve_in_place && saver && p.enc == Encoding::Copy {
        lemma_measured(n, n);
        let m = measure_chapters(n);
        lemma_made_after_first(m, IngestStep::CreateDir, (2 * n) as nat, n);
    } else {
        reveal_with_fuel(made_before, 4);
    }
}

proof fn lemma_made_after_first(m: Seq<IngestStep>, first: IngestStep, k: nat, n: nat)
    requires
        made_by(first, n) == 0,
        k <= m.len(),
    ensures
        made_before(seq![first] + m, k + 1, n) == made_before(m, k, n),
    decreases k,
{
    let s = seq![first] + m;
    lemma_made_step(s, k, n);
    if k > 0 {
        lemma_made_after_first(m, first, (k - 1) as nat, n);
        assert(s[k as int] == m[k - 1]);
    } else {
        assert(s[0] == first);
        assert(made_before(s, 0, n) == 0);
    }
}

/// What stands behind the production makes no episodes.
proof fn lemma_made_from(p: IngestPlan, saver: bool, slow: bool, remux: bool, has_cover: bool, k: nat)
    requires
        is_whole(p),
        production(p, saver, slow, remux).len() <= k <= steps_of(p, saver, slow, remux, has_cover).len(),
    ensures
        made_before(steps_of(p, saver, slow, remux, has_cover), k, p.cuts@.len()) == p.cuts@.len(),
    decreases k,
{
    let s = steps_of(p, saver, slow, remux, has_cover);
    let made = production(p, saver, slow, remux);
    let n = p.cuts@.len();
    if k == made.len() {
        assert(s.take(k as int) =~= made.take(k as int));
        lemma_made_agree(s, made, k, n);
        lemma_production_makes_all(p, saver, slow, remux);
    } else {
        lemma_made_from(p, saver, slow, remux, has_cover, (k - 1) as nat);
        assert(made_by(s[k - 1], n) == 0);
    }
}

proof fn lemma_not_stored_while_measuring(m: nat, i: int)
    requires
        0 <= i < measure_chapters(m).len(),
    ensures
        measure_chapters(m)[i] is CutChapter || measure_chapters(m)[i] is DeleteEpisode,
    decreases m,
{
    if m > 0 {
        let front = measure_chapters((m - 1) as nat);
        if i < front.len() {
            lemma_not_stored_while_measuring((m - 1) as nat, i);
            assert(measure_chapters(m)[i] == front[i]);
        }
    }
}

proof fn lemma_production_stores_nothing(p: IngestPlan, saver: bool, slow: bool, remux: bool, i: int)
    requires
        0 <= i < production(p, saver, slow, remux).len(),
    ensures
        ({
            let step = production(p, saver, slow, remux)[i];
            step != IngestStep::StoreBook && !puts_down(Some(step))
        }),
{
    let s = production(p, saver, slow, remux);
    if !(p.chapterless && p.enc != Encoding::Copy) && !p.serve_in_place && saver && p.enc == Encoding::Copy {
        if i > 0 {
            assert(s[i] == measure_chapters(p.cuts@.len())[i - 1]);
            lemma_not_stored_while_measuring(p.cuts@.len(), i - 1);
        }
    }
}

proof fn lemma_all_is_made(run: IngestRun)
    requires
        run.is_sound(),
        run.step() == Some(IngestStep::StoreBook) || puts_down(run.step()),
    ensures
        run.produced@.len() == run.plan.cuts@.len(),
{
    let made = production(run.plan, run.saver, run.slow, run.remux);
    if run.at < made.len() {
        assert(run.steps@[run.at as int] == made[run.at as int]);
        lemma_production_stores_nothing(run.plan, run.saver, run.slow, run.remux, run.at as int);
    }
    lemma_made_from(run.plan, run.saver, run.slow, run.remux, run.has_cover, run.at as nat);
}

/// Nothing is put on record, or taken off, before every episode was made: an ingest that fails
/// half-way leaves what was on record as it was.
pub proof fn law_records_follow_the_episodes(run: IngestRun)
    requires
        run.is_sound(),
        run.step() == Some(IngestStep::StoreBook) || puts_down(run.step()),
    ensures
        run.produced@.len() == run.plan.cuts@.len(),
        follow(run.produced@, 0),
{
    lemma_all_is_made(run);
}

/// When the records of a run are put down and the stale ones are off, the index holds one record
/// for each chapter of the plan, at positions 0, 1, 2 and so on, and nothing else of the book. That
/// is so unless two of the new guids are the same, which the hash behind them makes out of reach.
pub proof fn law_index_holds_the_chapters(
    run: IngestRun,
    before: Map<Seq<char>, EpisodeRow>,
    old: Seq<EpisodeRow>,
    rows: Seq<EpisodeRow>,
    gone: Seq<usize>,
    id: Seq<char>,
    mtime: int,
    input: Seq<char>,
)
    requires
        run.is_sound(),
        puts_down(run.step()),
        are_episode_rows(rows, run.produced@, run.plan, id, mtime, input, run.slow),
        forall|g: Seq<char>| #[trigger] before.dom().contains(g) <==> guids(old).contains(g),
        forall|k: usize| #[trigger]
            gone.contains(k) <==> k < old.len() && !guids(rows).contains(old[k as int].guid@),
        old.len() <= usize::MAX,
        guids(rows).no_duplicates(),
    ensures
        ({
            let after = taken_off(put_down(before, rows, rows.len()), old, gone, gone.len());
            &&& rows.len() == run.plan.cuts@.len()
            &&& forall|i: int|
                0 <= i < rows.len() ==> after.dom().contains((#[trigger] rows[i]).guid@) && after[rows[i].guid@]
                    == rows[i] && rows[i].idx == i
            &&& forall|g: Seq<char>| #[trigger]
                after.dom().contains(g) ==> 0 <= after[g].idx < rows.len() && rows[after[g].idx as int]
                    == after[g]
        }),
{
    lemma_all_is_made(run);
    law_index_holds_this_ingest_alone(before, old, rows, gone);
    let after = taken_off(put_down(before, rows, rows.len()), old, gone, gone.len());
    assert forall|i: int| 0 <= i < rows.len() implies after.dom().contains((#[trigger] rows[i]).guid@)
        && after[rows[i].guid@] == rows[i] && rows[i].idx == i by {
        assert(is_row_at(rows[i], i, run.produced@, run.plan, id, mtime, input, run.slow));
        assert(run.produced@[i].idx == i);
        assert(guids(rows)[i] == rows[i].guid@);
        assert(guids(rows).contains(rows[i].guid@));
    }
    assert forall|g: Seq<char>| #[trigger] after.dom().contains(g) implies 0 <= after[g].idx < rows.len()
        && rows[after[g].idx as int] == after[g] by {
        let i = choose|i: int| 0 <= i < rows.len() && rows[i] == after[g];
        assert(rows[i].idx == i);
    }
}

} // verus!
