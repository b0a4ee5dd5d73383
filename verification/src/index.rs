//! What the index keeps of a book and its episodes, and how a new record goes
//! over an old one.
//!
//! Every feed is reached by a random id that cannot be guessed. It stays when a
//! book is scanned again, and changes only when the owner asks for it.

use vstd::prelude::*;
use crate::config::{StorageMode, TranscodeMode};
use crate::text::{holds_text, opt_text, str_eq, texts};

pub mod capability;

verus! {

/// The status of a book that can be served.
pub const READY: &'static str = "ready";

/// One audiobook.
#[derive(Debug)]
pub struct BookRow {
    /// Stable id.
    pub id: String,
    /// Key of its page.
    pub slug: String,
    /// Key of its feed, audio and cover, which cannot be guessed.
    pub feed_id: String,
    /// Title.
    pub title: String,
    /// Author, if known.
    pub author: Option<String>,
    /// Path of its cover, if one was extracted.
    pub cover_path: Option<String>,
    /// Path of its source.
    pub source_path: String,
    /// Modification time of its source.
    pub source_mtime: i64,
    /// How far it has come: [`READY`] once it is ingested.
    pub status: String,
    /// How it is stored; `None` follows the server.
    pub storage_mode: Option<StorageMode>,
    /// Cover of its feed if it has none of its own.
    pub default_cover_url: Option<String>,
    /// Whether its sidecar chapters were ignored.
    pub force_embedded: bool,
    /// What its audio was re-encoded to; `None` is an old record, which was copied.
    pub transcode: Option<TranscodeMode>,
}

/// One episode.
#[derive(Debug)]
pub struct EpisodeRow {
    /// Stable guid.
    pub guid: String,
    /// Id of its book.
    pub book_id: String,
    /// Position, from 0.
    pub idx: i64,
    /// Title.
    pub title: String,
    /// Path of the audio file that is served.
    pub file_path: String,
    /// Empty for a chapter that was cut out of a file. Otherwise the episode is a whole file, and
    /// this is its source: served from there if `file_path` is the same, from a remuxed copy if
    /// not.
    pub source_path: String,
    /// Whether the source is a non-faststart MP4.
    pub needs_faststart: bool,
    /// Real size of the audio file in bytes.
    pub byte_length: i64,
    /// Duration in ticks.
    pub duration: i128,
    /// Start of the chapter in its source, in ticks.
    pub start: i128,
    /// Date, as a Unix timestamp.
    pub pubdate_epoch: i64,
}

/// Whether the numbers of a record make sense: a position and a size that are not negative.
pub open spec fn is_record(ep: EpisodeRow) -> bool {
    0 <= ep.idx < i64::MAX && ep.idx < usize::MAX && 0 <= ep.byte_length
}

/// Whether all records do.
pub open spec fn are_records(eps: Seq<EpisodeRow>) -> bool {
    forall|i: int| 0 <= i < eps.len() ==> is_record(#[trigger] eps[i])
}

/// Whether the numbers of all records make sense. What an ingest puts on record always does.
pub fn hold_records(eps: &Vec<EpisodeRow>) -> (r: bool)
    ensures
        r == are_records(eps@),
        r ==> forall|i: int| 0 <= i < eps@.len() ==> (#[trigger] eps@[i]).idx >= 0 && eps@[i].byte_length >= 0,
        (forall|i: int|
            0 <= i < eps@.len() ==> 0 <= (#[trigger] eps@[i]).idx < u32::MAX && eps@[i].byte_length >= 0) ==> r,
{
    let mut i: usize = 0;
    while i < eps.len()
        invariant
            i <= eps.len(),
            forall|j: int| 0 <= j < i ==> is_record(#[trigger] eps@[j]),
        decreases eps.len() - i,
    {
        let e = &eps[i];
        if e.idx < 0 || e.idx == i64::MAX || e.idx as u64 >= usize::MAX as u64 || e.byte_length < 0 {
            assert(!is_record(eps@[i as int]));
            assert(!(0 <= eps@[i as int].idx < u32::MAX && eps@[i as int].byte_length >= 0));
            return false;
        }
        assert(is_record(eps@[i as int]));
        i = i + 1;
    }
    assert forall|j: int| 0 <= j < eps@.len() implies (#[trigger] eps@[j]).idx >= 0 && eps@[j].byte_length >= 0 by {
        assert(is_record(eps@[j]));
    }
    true
}

/// One audiobook, by its values.
pub struct BookView {
    pub id: Seq<char>,
    pub slug: Seq<char>,
    pub feed_id: Seq<char>,
    pub title: Seq<char>,
    pub author: Option<Seq<char>>,
    pub cover_path: Option<Seq<char>>,
    pub source_path: Seq<char>,
    pub source_mtime: int,
    pub status: Seq<char>,
    pub storage_mode: Option<StorageMode>,
    pub default_cover_url: Option<Seq<char>>,
    pub force_embedded: bool,
    pub transcode: Option<TranscodeMode>,
}

impl View for BookRow {
    type V = BookView;

    open spec fn view(&self) -> BookView {
        BookView {
            id: self.id@,
            slug: self.slug@,
            feed_id: self.feed_id@,
            title: self.title@,
            author: opt_text(self.author),
            cover_path: opt_text(self.cover_path),
            source_path: self.source_path@,
            source_mtime: self.source_mtime as int,
            status: self.status@,
            storage_mode: self.storage_mode,
            default_cover_url: opt_text(self.default_cover_url),
            force_embedded: self.force_embedded,
            transcode: self.transcode,
        }
    }
}

/// What is kept when `new` is stored, where the feed has the id `feed_id` already.
pub open spec fn kept_over(feed_id: Option<Seq<char>>, new: BookView) -> BookView {
    match feed_id {
        Some(id) => BookView { feed_id: id, ..new },
        None => new,
    }
}

/// The record that is kept when a book is stored: what is new goes over what was there, but the
/// id of the feed stays. A scan brings a fresh one that it does not know to be taken already.
pub fn stored_book(kept_feed_id: Option<String>, new: BookRow) -> (r: BookRow)
    ensures
        r@ == kept_over(opt_text(kept_feed_id), new@),
        kept_feed_id is Some ==> r.feed_id@ == kept_feed_id->0@,
        kept_feed_id is None ==> r.feed_id@ == new.feed_id@,
        r.id@ == new.id@,
        r.slug@ == new.slug@,
        r.title@ == new.title@,
        opt_text(r.author) == opt_text(new.author),
        opt_text(r.cover_path) == opt_text(new.cover_path),
        r.source_path@ == new.source_path@,
        r.source_mtime == new.source_mtime,
        r.status@ == new.status@,
        r.storage_mode == new.storage_mode,
        opt_text(r.default_cover_url) == opt_text(new.default_cover_url),
        r.force_embedded == new.force_embedded,
        r.transcode == new.transcode,
{
    let feed_id = match kept_feed_id {
        Some(id) => id,
        None => new.feed_id,
    };
    BookRow {
        id: new.id,
        slug: new.slug,
        feed_id,
        title: new.title,
        author: new.author,
        cover_path: new.cover_path,
        source_path: new.source_path,
        source_mtime: new.source_mtime,
        status: new.status,
        storage_mode: new.storage_mode,
        default_cover_url: new.default_cover_url,
        force_embedded: new.force_embedded,
        transcode: new.transcode,
    }
}

/// All books on record, by id, after `new` was stored.
pub open spec fn stored_in(books: Map<Seq<char>, BookView>, new: BookView) -> Map<Seq<char>, BookView> {
    let feed_id = if books.dom().contains(new.id) {
        Some(books[new.id].feed_id)
    } else {
        None
    };
    books.insert(new.id, kept_over(feed_id, new))
}

/// Storing a book puts down what is new of it, under the feed id that it has, and leaves all other
/// books as they are. Storing it once more changes nothing.
pub proof fn law_storing_touches_one_book(books: Map<Seq<char>, BookView>, new: BookView)
    ensures
        ({
            let after = stored_in(books, new);
            &&& after.dom() == books.dom().insert(new.id)
            &&& after[new.id] == (BookView { feed_id: after[new.id].feed_id, ..new })
            &&& after[new.id].feed_id == if books.dom().contains(new.id) {
                books[new.id].feed_id
            } else {
                new.feed_id
            }
            &&& forall|id: Seq<char>|
                id != new.id && books.dom().contains(id) ==> #[trigger] after[id] == books[id]
            &&& stored_in(after, new) == after
        }),
{
    let after = stored_in(books, new);
    assert(stored_in(after, new) =~= after);
}

/// However often a book is stored again, its feed keeps the id it was given first.
pub proof fn law_feed_id_survives_rescans(
    books: Map<Seq<char>, BookView>,
    first: BookView,
    second: BookView,
)
    requires
        first.id == second.id,
    ensures
        ({
            let a = stored_in(books, first);
            let b = stored_in(a, second);
            &&& b[second.id].feed_id == a[first.id].feed_id
            &&& books.dom().contains(first.id) ==> b[second.id].feed_id == books[first.id].feed_id
        }),
{
}

// ---- The episodes of a book -----------------------------------------------

/// The guids of records.
pub open spec fn guids(rows: Seq<EpisodeRow>) -> Seq<Seq<char>> {
    rows.map_values(|e: EpisodeRow| e.guid@)
}

fn holds_guid(rows: &Vec<EpisodeRow>, guid: &str) -> (r: bool)
    ensures
        r == guids(rows@).contains(guid@),
{
    let mut i: usize = 0;
    while i < rows.len()
        invariant
            i <= rows.len(),
            forall|j: int| 0 <= j < i ==> #[trigger] guids(rows@)[j] != guid@,
        decreases rows.len() - i,
    {
        assert(guids(rows@)[i as int] == rows@[i as int].guid@);
        if str_eq(rows[i].guid.as_str(), guid) {
            return true;
        }
        i = i + 1;
    }
    false
}

/// The records that go when `new` are the episodes of a book and `old` are on record: the places of
/// those whose guid none of the new ones has, in order. A guid speaks of the source as it was, so
/// an earlier ingest leaves records behind that no new one goes over.
pub fn stale_rows(old: &Vec<EpisodeRow>, new: &Vec<EpisodeRow>) -> (r: Vec<usize>)
    ensures
        forall|k: usize| #[trigger]
            r@.contains(k) <==> k < old.len() && !guids(new@).contains(old@[k as int].guid@),
        forall|i: int, j: int| 0 <= i < j < r.len() ==> r@[i] < r@[j],
{
    let mut r: Vec<usize> = Vec::new();
    let mut i: usize = 0;
    while i < old.len()
        invariant
            i <= old.len(),
            forall|k: usize| #[trigger]
                r@.contains(k) <==> k < i && !guids(new@).contains(old@[k as int].guid@),
            forall|a: int, b: int| 0 <= a < b < r.len() ==> r@[a] < r@[b],
        decreases old.len() - i,
    {
        let ghost before = r@;
        if !holds_guid(new, old[i].guid.as_str()) {
            r.push(i);
            proof {
                assert forall|k: usize| #[trigger] r@.contains(k) <==> before.contains(k) || k == i by {
                    if before.contains(k) {
                        let a = choose|a: int| 0 <= a < before.len() && before[a] == k;
                        assert(r@[a] == k);
                    }
                    if k == i {
                        assert(r@[before.len() as int] == i);
                    }
                    if r@.contains(k) {
                        let a = choose|a: int| 0 <= a < r@.len() && r@[a] == k;
                        if a < before.len() {
                            assert(before[a] == k);
                        }
                    }
                }
                assert forall|a: int| 0 <= a < before.len() implies #[trigger] before[a] < i by {
                    assert(before.contains(before[a]));
                }
            }
        }
        i = i + 1;
    }
    r
}

/// What is on record, by guid, after the first `n` of `new` were put down.
pub open spec fn put_down(
    before: Map<Seq<char>, EpisodeRow>,
    new: Seq<EpisodeRow>,
    n: nat,
) -> Map<Seq<char>, EpisodeRow>
    decreases n,
{
    if n == 0 {
        before
    } else {
        put_down(before, new, (n - 1) as nat).insert(new[n - 1].guid@, new[n - 1])
    }
}

/// What is on record after the first `n` of the records at the places `gone` were taken off.
pub open spec fn taken_off(
    before: Map<Seq<char>, EpisodeRow>,
    old: Seq<EpisodeRow>,
    gone: Seq<usize>,
    n: nat,
) -> Map<Seq<char>, EpisodeRow>
    decreases n,
{
    if n == 0 {
        before
    } else {
        taken_off(before, old, gone, (n - 1) as nat).remove(old[gone[n - 1] as int].guid@)
    }
}

proof fn lemma_put_down(before: Map<Seq<char>, EpisodeRow>, new: Seq<EpisodeRow>, n: nat)
    requires
        n <= new.len(),
    ensures
        forall|g: Seq<char>| #[trigger]
            put_down(before, new, n).dom().contains(g) <==> before.dom().contains(g) || guids(
                new.take(n as int),
            ).contains(g),
        forall|i: int|
            0 <= i < n ==> new.contains(put_down(before, new, n)[#[trigger] guids(new)[i]]),
        guids(new).no_duplicates() ==> forall|i: int|
            0 <= i < n ==> put_down(before, new, n)[#[trigger] guids(new)[i]] == new[i],
    decreases n,
{
    if n > 0 {
        let m = (n - 1) as nat;
        lemma_put_down(before, new, m);
        let was = put_down(before, new, m);
        let now = put_down(before, new, n);
        let a = guids(new.take(m as int));
        let b = guids(new.take(n as int));
        assert(b =~= a.push(new[m as int].guid@));
        assert forall|g: Seq<char>| #[trigger] now.dom().contains(g) <==> before.dom().contains(g) || b.contains(
            g,
        ) by {
            assert(was.dom().contains(g) <==> before.dom().contains(g) || a.contains(g));
            if a.contains(g) {
                let k = choose|k: int| 0 <= k < a.len() && a[k] == g;
                assert(b[k] == g);
            }
            if b.contains(g) {
                let k = choose|k: int| 0 <= k < b.len() && b[k] == g;
                if k < a.len() {
                    assert(a[k] == g);
                }
            }
            assert(b[m as int] == new[m as int].guid@);
        }
        assert(new.contains(new[m as int]));
        if guids(new).no_duplicates() {
            assert forall|i: int| 0 <= i < n implies now[#[trigger] guids(new)[i]] == new[i] by {
                if i < m {
                    assert(guids(new)[i] != guids(new)[m as int]);
                    assert(was[guids(new)[i]] == new[i]);
                }
            }
        }
    } else {
        assert(guids(new.take(0)) =~= Seq::empty());
    }
}

proof fn lemma_taken_off(
    before: Map<Seq<char>, EpisodeRow>,
    old: Seq<EpisodeRow>,
    gone: Seq<usize>,
    n: nat,
    g: Seq<char>,
)
    requires
        n <= gone.len(),
    ensures
        taken_off(before, old, gone, n).dom().contains(g) <==> before.dom().contains(g) && forall|i: int|
            0 <= i < n ==> old[#[trigger] gone[i] as int].guid@ != g,
        taken_off(before, old, gone, n).dom().contains(g) ==> taken_off(before, old, gone, n)[g]
            == before[g],
    decreases n,
{
    if n > 0 {
        lemma_taken_off(before, old, gone, (n - 1) as nat, g);
    }
}

/// After an ingest the index holds its episodes and no others, whatever was on record of the book
/// before: the new records are put down, and those that are stale go.
pub proof fn law_index_holds_this_ingest_alone(
    before: Map<Seq<char>, EpisodeRow>,
    old: Seq<EpisodeRow>,
    new: Seq<EpisodeRow>,
    gone: Seq<usize>,
)
    requires
        forall|g: Seq<char>| #[trigger] before.dom().contains(g) <==> guids(old).contains(g),
        forall|k: usize| #[trigger]
            gone.contains(k) <==> k < old.len() && !guids(new).contains(old[k as int].guid@),
        old.len() <= usize::MAX,
    ensures
        ({
            let after = taken_off(put_down(before, new, new.len()), old, gone, gone.len());
            &&& forall|g: Seq<char>| #[trigger] after.dom().contains(g) <==> guids(new).contains(g)
            &&& forall|g: Seq<char>| #[trigger]
                after.dom().contains(g) ==> new.contains(after[g]) && after[g].guid@ == g
            &&& guids(new).no_duplicates() ==> forall|i: int|
                0 <= i < new.len() ==> #[trigger] after[new[i].guid@] == new[i]
        }),
{
    let stored = put_down(before, new, new.len());
    let after = taken_off(stored, old, gone, gone.len());
    lemma_put_down(before, new, new.len());
    lemma_put_down_keeps_guids(before, new, new.len());
    assert(new.take(new.len() as int) =~= new);
    assert forall|g: Seq<char>| #[trigger] after.dom().contains(g) <==> guids(new).contains(g) by {
        lemma_taken_off(stored, old, gone, gone.len(), g);
        if guids(new).contains(g) {
            assert forall|i: int| 0 <= i < gone.len() implies old[#[trigger] gone[i] as int].guid@ != g by {
                assert(gone.contains(gone[i]));
            }
        } else if stored.dom().contains(g) {
            assert(before.dom().contains(g));
            let k = choose|k: int| 0 <= k < guids(old).len() && guids(old)[k] == g;
            assert(old[k].guid@ == g);
            assert(gone.contains(k as usize));
            let i = choose|i: int| 0 <= i < gone.len() && gone[i] == k as usize;
            assert(old[gone[i] as int].guid@ == g);
        }
    }
    assert forall|g: Seq<char>| #[trigger] after.dom().contains(g) implies new.contains(after[g])
        && after[g].guid@ == g by {
        lemma_taken_off(stored, old, gone, gone.len(), g);
        let k = choose|k: int| 0 <= k < guids(new).len() && guids(new)[k] == g;
        assert(new.contains(stored[guids(new)[k]]));
    }
    if guids(new).no_duplicates() {
        assert forall|i: int| 0 <= i < new.len() implies #[trigger] after[new[i].guid@] == new[i] by {
            let g = guids(new)[i];
            assert(guids(new).contains(g));
            assert(after.dom().contains(g));
            lemma_taken_off(stored, old, gone, gone.len(), g);
        }
    }
}

proof fn lemma_put_down_keeps_guids(before: Map<Seq<char>, EpisodeRow>, new: Seq<EpisodeRow>, n: nat)
    requires
        n <= new.len(),
    ensures
        forall|i: int|
            0 <= i < n ==> put_down(before, new, n)[#[trigger] guids(new)[i]].guid@ == guids(new)[i],
    decreases n,
{
    if n > 0 {
        lemma_put_down_keeps_guids(before, new, (n - 1) as nat);
    }
}

// ---- The tables -----------------------------------------------------------

/// What a row holds in a column: 0, the empty text, nothing, or something else.
pub enum Cell {
    Zero,
    Blank,
    Null,
    Other(int),
}

/// A column that an older database may lack: how it is added, and what the rows hold in it then.
pub struct Addition {
    pub of_episode: bool,
    pub column: Seq<char>,
    pub statement: Seq<char>,
    pub fill: Cell,
}

/// The columns that an older database may lack.
pub open spec fn additions() -> Seq<Addition> {
    seq![
        Addition {
            of_episode: true,
            column: "start_sec"@,
            statement: "ALTER TABLE episode ADD COLUMN start_sec REAL NOT NULL DEFAULT 0"@,
            fill: Cell::Zero,
        },
        Addition {
            of_episode: true,
            column: "source_path"@,
            statement: "ALTER TABLE episode ADD COLUMN source_path TEXT NOT NULL DEFAULT ''"@,
            fill: Cell::Blank,
        },
        Addition {
            of_episode: true,
            column: "needs_faststart"@,
            statement: "ALTER TABLE episode ADD COLUMN needs_faststart INTEGER NOT NULL DEFAULT 0"@,
            fill: Cell::Zero,
        },
        Addition {
            of_episode: false,
            column: "storage_mode"@,
            statement: "ALTER TABLE book ADD COLUMN storage_mode TEXT NOT NULL DEFAULT ''"@,
            fill: Cell::Blank,
        },
        Addition {
            of_episode: false,
            column: "default_cover_url"@,
            statement: "ALTER TABLE book ADD COLUMN default_cover_url TEXT"@,
            fill: Cell::Null,
        },
        Addition {
            of_episode: false,
            column: "force_embedded"@,
            statement: "ALTER TABLE book ADD COLUMN force_embedded INTEGER NOT NULL DEFAULT 0"@,
            fill: Cell::Zero,
        },
        Addition {
            of_episode: false,
            column: "transcode"@,
            statement: "ALTER TABLE book ADD COLUMN transcode TEXT NOT NULL DEFAULT ''"@,
            fill: Cell::Blank,
        },
        Addition {
            of_episode: false,
            column: "created_at"@,
            statement: "ALTER TABLE book ADD COLUMN created_at INTEGER NOT NULL DEFAULT 0"@,
            fill: Cell::Zero,
        },
    ]
}

/// Whether a column is among those that its table has.
pub open spec fn is_there(a: Addition, episode_columns: Seq<Seq<char>>, book_columns: Seq<Seq<char>>) -> bool {
    if a.of_episode {
        episode_columns.contains(a.column)
    } else {
        book_columns.contains(a.column)
    }
}

/// The statements that bring the columns which are missing among the first `n`.
pub open spec fn migration(
    episode_columns: Seq<Seq<char>>,
    book_columns: Seq<Seq<char>>,
    n: nat,
) -> Seq<Seq<char>>
    decreases n,
{
    if n == 0 {
        Seq::empty()
    } else {
        let rest = migration(episode_columns, book_columns, (n - 1) as nat);
        if is_there(additions()[n - 1], episode_columns, book_columns) {
            rest
        } else {
            rest.push(additions()[n - 1].statement)
        }
    }
}

fn add_missing(out: &mut Vec<String>, columns: &Vec<String>, column: &str, statement: &str)
    ensures
        texts(final(out)@) == if texts(columns@).contains(column@) {
            texts(old(out)@)
        } else {
            texts(old(out)@).push(statement@)
        },
{
    if !holds_text(columns, column) {
        let ghost before = out@;
        out.push(statement.to_owned());
        assert(texts(out@) =~= texts(before).push(statement@));
    }
}

/// The statements that bring an older database up to date, given the columns its tables have.
/// Columns are added only: rows, and the ids of feeds with them, stay as they are.
pub fn missing_columns(episode_columns: &Vec<String>, book_columns: &Vec<String>) -> (r: Vec<String>)
    ensures
        texts(r@) == migration(texts(episode_columns@), texts(book_columns@), additions().len()),
{
    let mut out: Vec<String> = Vec::new();
    assert(texts(out@) =~= Seq::empty());
    proof {
        reveal_with_fuel(migration, 9);
    }
    add_missing(
        &mut out,
        episode_columns,
        "start_sec",
        "ALTER TABLE episode ADD COLUMN start_sec REAL NOT NULL DEFAULT 0",
    );
    add_missing(
        &mut out,
        episode_columns,
        "source_path",
        "ALTER TABLE episode ADD COLUMN source_path TEXT NOT NULL DEFAULT ''",
    );
    add_missing(
        &mut out,
        episode_columns,
        "needs_faststart",
        "ALTER TABLE episode ADD COLUMN needs_faststart INTEGER NOT NULL DEFAULT 0",
    );
    add_missing(
        &mut out,
        book_columns,
        "storage_mode",
        "ALTER TABLE book ADD COLUMN storage_mode TEXT NOT NULL DEFAULT ''",
    );
    add_missing(
        &mut out,
        book_columns,
        "default_cover_url",
        "ALTER TABLE book ADD COLUMN default_cover_url TEXT",
    );
    add_missing(
        &mut out,
        book_columns,
        "force_embedded",
        "ALTER TABLE book ADD COLUMN force_embedded INTEGER NOT NULL DEFAULT 0",
    );
    add_missing(
        &mut out,
        book_columns,
        "transcode",
        "ALTER TABLE book ADD COLUMN transcode TEXT NOT NULL DEFAULT ''",
    );
    add_missing(
        &mut out,
        book_columns,
        "created_at",
        "ALTER TABLE book ADD COLUMN created_at INTEGER NOT NULL DEFAULT 0",
    );
    out
}

/// A table: its columns, and its rows by some key.
pub struct TableView {
    pub columns: Set<Seq<char>>,
    pub rows: Map<int, Map<Seq<char>, Cell>>,
}

/// The two tables.
pub struct DatabaseView {
    pub episode: TableView,
    pub book: TableView,
}

/// A table with one more column, which holds `fill` in every row that is there.
pub open spec fn with_column(t: TableView, column: Seq<char>, fill: Cell) -> TableView {
    TableView {
        columns: t.columns.insert(column),
        rows: t.rows.map_values(|row: Map<Seq<char>, Cell>| row.insert(column, fill)),
    }
}

/// A database after a column was added.
pub open spec fn with_addition(db: DatabaseView, a: Addition) -> DatabaseView {
    if a.of_episode {
        DatabaseView { episode: with_column(db.episode, a.column, a.fill), ..db }
    } else {
        DatabaseView { book: with_column(db.book, a.column, a.fill), ..db }
    }
}

/// The place of the addition, at or after `from`, that a statement makes.
pub open spec fn addition_at(statement: Seq<char>, from: int) -> int
    decreases additions().len() - from,
{
    if from < 0 || from >= additions().len() || additions()[from].statement == statement {
        from
    } else {
        addition_at(statement, from + 1)
    }
}

/// A database after the first `n` of `statements` were run.
pub open spec fn after_statements(db: DatabaseView, statements: Seq<Seq<char>>, n: nat) -> DatabaseView
    decreases n,
{
    if n == 0 {
        db
    } else {
        with_addition(
            after_statements(db, statements, (n - 1) as nat),
            additions()[addition_at(statements[n - 1], 0)],
        )
    }
}

/// Whether every row of a table holds something in each of its columns, and in no other.
pub open spec fn is_table(t: TableView) -> bool {
    forall|k: int| #[trigger] t.rows.dom().contains(k) ==> t.rows[k].dom() == t.columns
}

/// Whether `columns` lists the columns of a table.
pub open spec fn lists(columns: Seq<Seq<char>>, t: TableView) -> bool {
    forall|c: Seq<char>| #[trigger] columns.contains(c) <==> t.columns.contains(c)
}

/// The table that a column belongs to.
pub open spec fn table_of(db: DatabaseView, of_episode: bool) -> TableView {
    if of_episode {
        db.episode
    } else {
        db.book
    }
}

/// Whether nothing of `before` was lost in `after`: the same rows, every column that was there, and
/// what the rows held in them.
pub open spec fn keeps_all(before: TableView, after: TableView) -> bool {
    &&& after.rows.dom() == before.rows.dom()
    &&& before.columns.subset_of(after.columns)
    &&& forall|k: int, c: Seq<char>|
        #![trigger after.rows[k][c]]
        before.rows.dom().contains(k) && before.columns.contains(c) ==> after.rows[k][c] == before.rows[k][c]
}

/// Whether a column that was missing is there, and holds its fill in every row.
pub open spec fn is_filled(a: Addition, t: TableView) -> bool {
    &&& t.columns.contains(a.column)
    &&& forall|k: int| #[trigger] t.rows.dom().contains(k) ==> t.rows[k][a.column] == a.fill
}

/// A database after those of the first `n` additions were made that are missing.
spec fn migrated(
    db: DatabaseView,
    episode_columns: Seq<Seq<char>>,
    book_columns: Seq<Seq<char>>,
    n: nat,
) -> DatabaseView
    decreases n,
{
    if n == 0 {
        db
    } else {
        let before = migrated(db, episode_columns, book_columns, (n - 1) as nat);
        if is_there(additions()[n - 1], episode_columns, book_columns) {
            before
        } else {
            with_addition(before, additions()[n - 1])
        }
    }
}

proof fn lemma_additions_differ(i: int, j: int)
    requires
        0 <= i < j < additions().len(),
    ensures
        additions()[i].statement != additions()[j].statement,
        additions()[i].of_episode == additions()[j].of_episode ==> additions()[i].column
            != additions()[j].column,
{
    reveal_strlit("start_sec");
    reveal_strlit("source_path");
    reveal_strlit("needs_faststart");
    reveal_strlit("storage_mode");
    reveal_strlit("default_cover_url");
    reveal_strlit("force_embedded");
    reveal_strlit("transcode");
    reveal_strlit("created_at");
    reveal_strlit("ALTER TABLE episode ADD COLUMN start_sec REAL NOT NULL DEFAULT 0");
    reveal_strlit("ALTER TABLE episode ADD COLUMN source_path TEXT NOT NULL DEFAULT ''");
    reveal_strlit("ALTER TABLE episode ADD COLUMN needs_faststart INTEGER NOT NULL DEFAULT 0");
    reveal_strlit("ALTER TABLE book ADD COLUMN storage_mode TEXT NOT NULL DEFAULT ''");
    reveal_strlit("ALTER TABLE book ADD COLUMN default_cover_url TEXT");
    reveal_strlit("ALTER TABLE book ADD COLUMN force_embedded INTEGER NOT NULL DEFAULT 0");
    reveal_strlit("ALTER TABLE book ADD COLUMN transcode TEXT NOT NULL DEFAULT ''");
    reveal_strlit("ALTER TABLE book ADD COLUMN created_at INTEGER NOT NULL DEFAULT 0");
    let c = additions();
    assert(c[0].column.len() == 9 && c[1].column.len() == 11 && c[2].column.len() == 15);
    assert(c[3].column.len() == 12 && c[4].column.len() == 17 && c[5].column.len() == 14);
    assert(c[6].column.len() == 9 && c[7].column.len() == 10);
    assert(c[0].statement.len() == 64);
    assert(c[1].statement.len() == 67);
    assert(c[2].statement.len() == 73);
    assert(c[3].statement.len() == 65);
    assert(c[4].statement.len() == 50);
    assert(c[5].statement.len() == 69);
    assert(c[6].statement.len() == 62);
    assert(c[7].statement.len() == 65);
    assert(c[3].statement[28] == 's' && c[7].statement[28] == 'c');
}

proof fn lemma_addition_at(i: int, from: int)
    requires
        0 <= from <= i < additions().len(),
    ensures
        addition_at(additions()[i].statement, from) == i,
    decreases i - from,
{
    if from < i {
        lemma_additions_differ(from, i);
        lemma_addition_at(i, from + 1);
    }
}

proof fn lemma_statements_migrate(
    db: DatabaseView,
    episode_columns: Seq<Seq<char>>,
    book_columns: Seq<Seq<char>>,
    n: nat,
    more: Seq<Seq<char>>,
)
    requires
        n <= additions().len(),
    ensures
        ({
            let m = migration(episode_columns, book_columns, n);
            after_statements(db, m + more, m.len()) == migrated(db, episode_columns, book_columns, n)
        }),
    decreases n,
{
    if n > 0 {
        let k = (n - 1) as nat;
        let m = migration(episode_columns, book_columns, n);
        let before = migration(episode_columns, book_columns, k);
        let a = additions()[k as int];
        if is_there(a, episode_columns, book_columns) {
            lemma_statements_migrate(db, episode_columns, book_columns, k, more);
        } else {
            lemma_statements_migrate(db, episode_columns, book_columns, k, seq![a.statement] + more);
            assert(m + more =~= before + (seq![a.statement] + more));
            assert((m + more)[m.len() - 1] == a.statement);
            lemma_addition_at(k as int, 0);
        }
    }
}

proof fn lemma_migrated(
    db: DatabaseView,
    episode_columns: Seq<Seq<char>>,
    book_columns: Seq<Seq<char>>,
    n: nat,
    of_episode: bool,
)
    requires
        n <= additions().len(),
        is_table(table_of(db, of_episode)),
        lists(episode_columns, db.episode),
        lists(book_columns, db.book),
    ensures
        ({
            let before = table_of(db, of_episode);
            let after = table_of(migrated(db, episode_columns, book_columns, n), of_episode);
            &&& is_table(after)
            &&& keeps_all(before, after)
            &&& forall|i: int|
                0 <= i < n && (#[trigger] additions()[i]).of_episode == of_episode ==> {
                    &&& after.columns.contains(additions()[i].column)
                    &&& !is_there(additions()[i], episode_columns, book_columns) ==> is_filled(
                        additions()[i],
                        after,
                    )
                }
        }),
    decreases n,
{
    let before = table_of(db, of_episode);
    let after = table_of(migrated(db, episode_columns, book_columns, n), of_episode);
    if n > 0 {
        let m = (n - 1) as nat;
        lemma_migrated(db, episode_columns, book_columns, m, of_episode);
        let mid = table_of(migrated(db, episode_columns, book_columns, m), of_episode);
        let a = additions()[m as int];
        let missing = !is_there(a, episode_columns, book_columns);
        if missing && a.of_episode == of_episode {
            assert(after == with_column(mid, a.column, a.fill));
            assert(!before.columns.contains(a.column));
            assert(after.rows.dom() =~= mid.rows.dom());
            assert forall|k: int| #[trigger] after.rows.dom().contains(k) implies after.rows[k].dom()
                == after.columns by {
                assert(mid.rows.dom().contains(k));
                assert(after.rows[k] == mid.rows[k].insert(a.column, a.fill));
                assert(after.rows[k].dom() =~= after.columns);
            }
            assert forall|k: int, c: Seq<char>|
                #![trigger after.rows[k][c]]
                before.rows.dom().contains(k) && before.columns.contains(c) implies after.rows[k][c]
                == before.rows[k][c] by {
                assert(mid.rows.dom().contains(k));
                assert(mid.rows[k][c] == before.rows[k][c]);
                assert(after.rows[k] == mid.rows[k].insert(a.column, a.fill));
            }
            assert forall|i: int| 0 <= i < n && (#[trigger] additions()[i]).of_episode == of_episode implies {
                &&& after.columns.contains(additions()[i].column)
                &&& !is_there(additions()[i], episode_columns, book_columns) ==> is_filled(
                    additions()[i],
                    after,
                )
            } by {
                let b = additions()[i];
                if i < m {
                    lemma_additions_differ(i, m as int);
                    assert(mid.columns.contains(b.column));
                    if !is_there(b, episode_columns, book_columns) {
                        assert(is_filled(b, mid));
                    }
                }
                if !is_there(b, episode_columns, book_columns) {
                    assert forall|k: int| #[trigger] after.rows.dom().contains(k) implies after.rows[k][b.column]
                        == b.fill by {
                        assert(mid.rows.dom().contains(k));
                        assert(after.rows[k] == mid.rows[k].insert(a.column, a.fill));
                    }
                }
            }
        } else {
            assert(after == mid);
            if a.of_episode == of_episode {
                assert(before.columns.contains(a.column));
            }
        }
    }
}

/// Once the statements were run, every column is there. No row was added or lost, and what was
/// there is as it was; a column that was missing holds its fill. There is nothing to be done then:
/// bringing a database up to date twice is the same as once.
pub proof fn law_migration_completes(
    db: DatabaseView,
    episode_columns: Seq<Seq<char>>,
    book_columns: Seq<Seq<char>>,
    later_episode: Seq<Seq<char>>,
    later_book: Seq<Seq<char>>,
)
    requires
        is_table(db.episode),
        is_table(db.book),
        lists(episode_columns, db.episode),
        lists(book_columns, db.book),
        ({
            let m = migration(episode_columns, book_columns, additions().len());
            let after = after_statements(db, m, m.len());
            lists(later_episode, after.episode) && lists(later_book, after.book)
        }),
    ensures
        ({
            let m = migration(episode_columns, book_columns, additions().len());
            let after = after_statements(db, m, m.len());
            &&& is_table(after.episode) && is_table(after.book)
            &&& keeps_all(db.episode, after.episode) && keeps_all(db.book, after.book)
            &&& forall|i: int|
                0 <= i < additions().len() ==> {
                    let a = #[trigger] additions()[i];
                    &&& table_of(after, a.of_episode).columns.contains(a.column)
                    &&& !is_there(a, episode_columns, book_columns) ==> is_filled(
                        a,
                        table_of(after, a.of_episode),
                    )
                }
            &&& migration(later_episode, later_book, additions().len()).len() == 0
        }),
{
    let n = additions().len();
    let m = migration(episode_columns, book_columns, n);
    let after = after_statements(db, m, m.len());
    lemma_statements_migrate(db, episode_columns, book_columns, n, Seq::empty());
    assert(m + Seq::<Seq<char>>::empty() =~= m);
    lemma_migrated(db, episode_columns, book_columns, n, true);
    lemma_migrated(db, episode_columns, book_columns, n, false);
    assert forall|i: int| 0 <= i < additions().len() implies is_there(
        #[trigger] additions()[i],
        later_episode,
        later_book,
    ) by {
        let a = additions()[i];
        assert(table_of(after, a.of_episode).columns.contains(a.column));
    }
    law_migration_is_idempotent(later_episode, later_book, n);
}

/// A database that has every column needs nothing.
pub proof fn law_migration_is_idempotent(episode_columns: Seq<Seq<char>>, book_columns: Seq<Seq<char>>, n: nat)
    requires
        n <= additions().len(),
        forall|i: int|
            0 <= i < additions().len() ==> is_there(#[trigger] additions()[i], episode_columns, book_columns),
    ensures
        migration(episode_columns, book_columns, n).len() == 0,
    decreases n,
{
    if n > 0 {
        law_migration_is_idempotent(episode_columns, book_columns, (n - 1) as nat);
        assert(is_there(additions()[n - 1], episode_columns, book_columns));
    }
}

/// A statement of the migration adds the column that it is meant for, to the table that lacks it.
#[verifier::spinoff_prover]
pub proof fn law_statements_add_their_columns(i: int)
    requires
        0 <= i < additions().len(),
    ensures
        ({
            let a = additions()[i];
            let front = if a.of_episode {
                "ALTER TABLE episode ADD COLUMN "@
            } else {
                "ALTER TABLE book ADD COLUMN "@
            };
            &&& (front + a.column).is_prefix_of(a.statement)
            &&& a.statement.len() > (front + a.column).len() && a.statement[(front + a.column).len() as int] == ' '
        }),
{
    reveal_strlit("ALTER TABLE episode ADD COLUMN ");
    reveal_strlit("ALTER TABLE book ADD COLUMN ");
    let a = additions()[i];
    let front = if a.of_episode {
        "ALTER TABLE episode ADD COLUMN "@
    } else {
        "ALTER TABLE book ADD COLUMN "@
    };
    if i == 0 {
        reveal_strlit("ALTER TABLE episode ADD COLUMN start_sec REAL NOT NULL DEFAULT 0");
        reveal_strlit("start_sec");
        assert(a.statement =~= front + a.column + a.statement.skip((front + a.column).len() as int));
        assert(a.statement[(front + a.column).len() as int] == ' ');
    }
    if i == 1 {
        reveal_strlit("ALTER TABLE episode ADD COLUMN source_path TEXT NOT NULL DEFAULT ''");
        reveal_strlit("source_path");
        assert(a.statement =~= front + a.column + a.statement.skip((front + a.column).len() as int));
        assert(a.statement[(front + a.column).len() as int] == ' ');
    }
    if i == 2 {
        reveal_strlit("ALTER TABLE episode ADD COLUMN needs_faststart INTEGER NOT NULL DEFAULT 0");
        reveal_strlit("needs_faststart");
        assert(a.statement =~= front + a.column + a.statement.skip((front + a.column).len() as int));
        assert(a.statement[(front + a.column).len() as int] == ' ');
    }
    if i == 3 {
        reveal_strlit("ALTER TABLE book ADD COLUMN storage_mode TEXT NOT NULL DEFAULT ''");
        reveal_strlit("storage_mode");
        assert(a.statement =~= front + a.column + a.statement.skip((front + a.column).len() as int));
        assert(a.statement[(front + a.column).len() as int] == ' ');
    }
    if i == 4 {
        reveal_strlit("ALTER TABLE book ADD COLUMN default_cover_url TEXT");
        reveal_strlit("default_cover_url");
        assert(a.statement =~= front + a.column + a.statement.skip((front + a.column).len() as int));
        assert(a.statement[(front + a.column).len() as int] == ' ');
    }
    if i == 5 {
        reveal_strlit("ALTER TABLE book ADD COLUMN force_embedded INTEGER NOT NULL DEFAULT 0");
        reveal_strlit("force_embedded");
        assert(a.statement =~= front + a.column + a.statement.skip((front + a.column).len() as int));
        assert(a.statement[(front + a.column).len() as int] == ' ');
    }
    if i == 6 {
        reveal_strlit("ALTER TABLE book ADD COLUMN transcode TEXT NOT NULL DEFAULT ''");
        reveal_strlit("transcode");
        assert(a.statement =~= front + a.column + a.statement.skip((front + a.column).len() as int));
        assert(a.statement[(front + a.column).len() as int] == ' ');
    }
    if i == 7 {
        reveal_strlit("ALTER TABLE book ADD COLUMN created_at INTEGER NOT NULL DEFAULT 0");
        reveal_strlit("created_at");
        assert(a.statement =~= front + a.column + a.statement.skip((front + a.column).len() as int));
        assert(a.statement[(front + a.column).len() as int] == ' ');
    }
    assert(front + a.column =~= a.statement.subrange(0, (front + a.column).len() as int));
}

} // verus!
