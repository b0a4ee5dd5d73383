//! The scan of a library as it goes on: one source after the other, and none of
//! them can stop it.

use vstd::prelude::*;
use crate::config::book_overrides::BookOverrides;
use crate::scanner::identity::{assign_ids, count_of, is_id_at, summarize, FoundSource, IndexedSource, Outcome};
use crate::scanner::library::{seeded_title, title_by_folder, BookSource};
use crate::scanner::ScanSummary;
use crate::text::{opt_text, texts};

verus! {

/// What is to be done with a source.
#[derive(Debug, Clone, Copy, PartialEq, Eq, Structural)]
pub enum SourceAction {
    /// Its book is switched off: take its record out, if there is one.
    Remove,
    /// Ingest the file.
    IngestFile,
    /// Ingest the folder.
    IngestFolder,
}

/// A scan that goes on.
#[derive(Debug)]
pub struct LibraryScan {
    /// The sources, in the order they were found.
    pub sources: Vec<FoundSource>,
    /// The id of each.
    pub ids: Vec<String>,
    /// How each that is behind came out.
    pub outcomes: Vec<Outcome>,
}

/// Whether the overrides `a` are `b` with the title `title`.
pub open spec fn is_titled(a: BookOverrides, b: BookOverrides, title: Option<Seq<char>>) -> bool {
    &&& a.force_embedded_chapters == b.force_embedded_chapters
    &&& a.storage_mode == b.storage_mode
    &&& a.remux_non_faststart == b.remux_non_faststart
    &&& opt_text(a.default_cover_url) == opt_text(b.default_cover_url)
    &&& a.disabled == b.disabled
    &&& opt_text(a.title) == title
    &&& opt_text(a.author) == opt_text(b.author)
    &&& a.force_reingest == b.force_reingest
    &&& a.globals == b.globals
}

/// What is to be done with a source whose book has the overrides `own`.
pub open spec fn action_for(own: BookOverrides, source: BookSource) -> SourceAction {
    if own.disabled == Some(true) {
        SourceAction::Remove
    } else {
        match source {
            BookSource::File(_) => SourceAction::IngestFile,
            BookSource::Mp3Folder(_) => SourceAction::IngestFolder,
        }
    }
}

/// How a source came out: it counts as indexed if it was ingested and that went well.
pub open spec fn outcome_of(action: SourceAction, ok: bool) -> Outcome {
    if ok && action != SourceAction::Remove {
        Outcome::Indexed
    } else {
        Outcome::Skipped
    }
}

impl LibraryScan {
    /// Whether every source has an id, and no more are behind than there are.
    pub open spec fn is_sound(self) -> bool {
        &&& self.ids@.len() == self.sources@.len()
        &&& self.outcomes@.len() <= self.sources@.len()
    }

    /// The place of the source that comes next.
    pub open spec fn at(self) -> int {
        self.outcomes@.len() as int
    }

    /// Begins a scan: every source is given its id. `rows` is what is on record.
    pub fn new(sources: Vec<FoundSource>, rows: &Vec<IndexedSource>, root: &str) -> (r: LibraryScan)
        requires
            sources.len() + rows.len() < u64::MAX,
        ensures
            r.is_sound(),
            r.sources == sources,
            r.outcomes@.len() == 0,
            forall|i: int|
                0 <= i < sources@.len() ==> is_id_at(
                    (#[trigger] texts(r.ids@)[i]),
                    i,
                    texts(r.ids@).take(i),
                    sources@,
                    rows@,
                    root@,
                ),
    {
        let ids = assign_ids(&sources, rows, root);
        LibraryScan { sources, ids, outcomes: Vec::new() }
    }

    /// The place of the source that comes next; `None` if all are behind.
    pub fn next_source(&self) -> (r: Option<usize>)
        requires
            self.is_sound(),
        ensures
            match r {
                Some(i) => i == self.at() && i < self.sources@.len(),
                None => self.at() == self.sources@.len(),
            },
    {
        if self.outcomes.len() < self.sources.len() {
            Some(self.outcomes.len())
        } else {
            None
        }
    }

    /// Takes the next source up, given the overrides of its book: a title that is not set may come
    /// from the folder, and a book that is switched off is not ingested.
    pub fn take_up(&self, own: BookOverrides, root: &str) -> (r: (BookOverrides, SourceAction))
        requires
            self.is_sound(),
            self.at() < self.sources@.len(),
        ensures
            is_titled(
                r.0,
                own,
                if own.title is Some {
                    opt_text(own.title)
                } else {
                    title_by_folder(self.sources@[self.at()].source@, root@)
                },
            ),
            r.1 == action_for(own, self.sources@[self.at()].source),
            own.disabled == Some(true) ==> r.1 == SourceAction::Remove,
            own.disabled != Some(true) && self.sources@[self.at()].source is File ==> r.1 == SourceAction::IngestFile,
            own.disabled != Some(true) && self.sources@[self.at()].source is Mp3Folder ==> r.1
                == SourceAction::IngestFolder,
            own.title is Some ==> opt_text(r.0.title) == opt_text(own.title),
            own.title is None ==> opt_text(r.0.title) == title_by_folder(self.sources@[self.at()].source@, root@),
            r.0.force_embedded_chapters == own.force_embedded_chapters,
            r.0.storage_mode == own.storage_mode,
            r.0.remux_non_faststart == own.remux_non_faststart,
            opt_text(r.0.default_cover_url) == opt_text(own.default_cover_url),
            opt_text(r.0.author) == opt_text(own.author),
            r.0.disabled == own.disabled,
            r.0.force_reingest == own.force_reingest,
    {
        let source = &self.sources[self.outcomes.len()].source;
        let action = match own.disabled {
            Some(true) => SourceAction::Remove,
            _ => match source {
                BookSource::File(_) => SourceAction::IngestFile,
                BookSource::Mp3Folder(_) => SourceAction::IngestFolder,
            },
        };
        let titled = BookOverrides {
            force_embedded_chapters: own.force_embedded_chapters,
            storage_mode: own.storage_mode,
            remux_non_faststart: own.remux_non_faststart,
            default_cover_url: own.default_cover_url,
            disabled: own.disabled,
            title: seeded_title(own.title, source, root),
            author: own.author,
            force_reingest: own.force_reingest,
            globals: own.globals,
        };
        (titled, action)
    }

    /// Goes on to the next source, whether this one went well or not.
    pub fn report(&mut self, action: SourceAction, ok: bool)
        requires
            old(self).is_sound(),
            old(self).at() < old(self).sources@.len(),
        ensures
            final(self).is_sound(),
            final(self).sources == old(self).sources,
            final(self).ids == old(self).ids,
            final(self).outcomes@ == old(self).outcomes@.push(outcome_of(action, ok)),
            final(self).outcomes@.last() == Outcome::Indexed <==> ok && action != SourceAction::Remove,
    {
        let outcome = match action {
            SourceAction::Remove => Outcome::Skipped,
            _ => if ok {
                Outcome::Indexed
            } else {
                Outcome::Skipped
            },
        };
        self.outcomes.push(outcome);
    }

    /// Sums the scan up, with the number of books that were taken out because their source is
    /// gone. When all sources are behind, each was counted once.
    pub fn summary(&self, pruned: usize) -> (r: ScanSummary)
        requires
            self.is_sound(),
        ensures
            r.indexed == count_of(self.outcomes@, Outcome::Indexed, self.outcomes@.len()),
            r.skipped == count_of(self.outcomes@, Outcome::Skipped, self.outcomes@.len()),
            r.indexed + r.skipped == self.at(),
            r.pruned == pruned,
    {
        summarize(&self.outcomes, pruned)
    }
}

} // verus!
