//! Walking a library: which files and folders of it are books, and what they
//! are called.
//!
//! The walk itself does not touch the file system. It says which directory to
//! look at next, and is told what is in it.

use vstd::prelude::*;
use crate::http::is_contained;
use crate::paths::{components, file_name, has_no_slash, is_plain_name, is_under, join_from, join_names, joined, law_joined_lies_inside, names, names_start_with, parent_parts, path_components, path_file_name, path_is_under, path_parent};
use crate::scanner::{audio, audio_kind, dir_name, drm, file_stem, is_drm, is_ignored, is_ignored_dir, is_normal, kind_of, law_drm_is_never_audio, name_or_book, stem_or_book, AudioKind};
use crate::sorting::{before, by_text, keys_of, lemma_by_text_is_total, lemma_stable_order, order_by_text, positions, stable_order};
use crate::splitter::lemma_name_parts;
use crate::text::{chars_are, holds_text, lemma_text_le_total, opt_str, opt_text, string_of, text_le, texts};

verus! {

/// A book that was found.
#[derive(Debug)]
pub enum BookSource {
    /// One audio file.
    File(String),
    /// A folder of MP3 tracks.
    Mp3Folder(String),
}

/// A book that was found, by its path.
pub enum SourceView {
    File(Seq<char>),
    Mp3Folder(Seq<char>),
}

impl View for BookSource {
    type V = SourceView;

    open spec fn view(&self) -> SourceView {
        match self {
            BookSource::File(p) => SourceView::File(p@),
            BookSource::Mp3Folder(d) => SourceView::Mp3Folder(d@),
        }
    }
}

impl SourceView {
    /// The path of the file or the folder.
    pub open spec fn path(self) -> Seq<char> {
        match self {
            SourceView::File(p) => p,
            SourceView::Mp3Folder(d) => d,
        }
    }
}

// ---- Names ----------------------------------------------------------------

/// The names from the library to a folder that lies deeper than one level, joined; `None` for one
/// that does not.
pub open spec fn nested_name(dir: Option<Seq<Seq<char>>>, root: Seq<char>) -> Option<Seq<char>> {
    match dir {
        Some(d) => {
            let r = components(root);
            if r.is_prefix_of(d) && d.len() - r.len() > 1 {
                Some(join_names(d.skip(r.len() as int), " - "@))
            } else {
                None
            }
        },
        None => None,
    }
}

/// The directory that names a book: that of a file, or the folder itself.
pub open spec fn naming_dir(source: SourceView) -> Option<Seq<Seq<char>>> {
    match source {
        SourceView::File(p) => parent_parts(p),
        SourceView::Mp3Folder(d) => Some(components(d)),
    }
}

/// The name that a book's slug is made of.
pub open spec fn base_name_of(source: SourceView, root: Seq<char>) -> Seq<char> {
    match nested_name(naming_dir(source), root) {
        Some(n) => n,
        None => match source {
            SourceView::File(p) => stem_or_book(p),
            SourceView::Mp3Folder(d) => name_or_book(d),
        },
    }
}

/// The title of a book by the folder it lies in, for a file that lies deeper than one level.
pub open spec fn title_by_folder(source: SourceView, root: Seq<char>) -> Option<Seq<char>> {
    match source {
        SourceView::File(p) => match parent_parts(p) {
            Some(d) => if nested_name(Some(d), root) is Some && is_normal(d.last()) {
                Some(d.last())
            } else {
                None
            },
            None => None,
        },
        SourceView::Mp3Folder(_) => None,
    }
}

/// The names from `root` to the folder `dir`, joined with ` - `, if it lies deeper than one level.
pub fn nested_prefix(dir: &Vec<Vec<char>>, root: &str) -> (r: Option<String>)
    ensures
        opt_text(r) == nested_name(Some(names(dir@)), root@),
{
    let base = path_components(root);
    if names_start_with(dir, &base) && dir.len() - base.len() > 1 {
        Some(join_from(dir, base.len(), " - "))
    } else {
        None
    }
}

impl BookSource {
    /// The path of the file or the folder.
    pub fn path(&self) -> (r: &str)
        ensures
            r@ == self@.path(),
    {
        match self {
            BookSource::File(p) => p.as_str(),
            BookSource::Mp3Folder(d) => d.as_str(),
        }
    }

    /// The name that the slug is made of. A book that lies in the library, or directly in a folder
    /// of it, goes by its own name. One that lies deeper goes by the folders down to it, so that
    /// two of the same title by two authors do not meet.
    pub fn base_name(&self, root: &str) -> (r: String)
        ensures
            r@ == base_name_of(self@, root@),
    {
        match self {
            BookSource::File(p) => {
                if let Some(d) = path_parent(p.as_str()) {
                    if let Some(n) = nested_prefix(&d, root) {
                        return n;
                    }
                }
                file_stem(p.as_str())
            },
            BookSource::Mp3Folder(d) => {
                let c = path_components(d.as_str());
                match nested_prefix(&c, root) {
                    Some(n) => n,
                    None => dir_name(d.as_str()),
                }
            },
        }
    }
}

/// The title of a file that lies deeper than one level: the name of its folder.
pub fn nested_title(source: &BookSource, root: &str) -> (r: Option<String>)
    ensures
        opt_text(r) == title_by_folder(source@, root@),
{
    match source {
        BookSource::File(p) => match path_parent(p.as_str()) {
            Some(mut d) => {
                let ghost all = names(d@);
                if nested_prefix(&d, root).is_none() {
                    return None;
                }
                let last = match d.pop() {
                    Some(l) => l,
                    None => {
                        return None;
                    },
                };
                assert(all.last() == last@);
                if chars_are(&last, "/") || chars_are(&last, ".") || chars_are(&last, "..") {
                    None
                } else {
                    Some(string_of(&last))
                }
            },
            None => None,
        },
        BookSource::Mp3Folder(_) => None,
    }
}

/// The title that a book's own settings give it, else that of its folder.
pub fn seeded_title(own: Option<String>, source: &BookSource, root: &str) -> (r: Option<String>)
    ensures
        opt_text(r) == if own is Some {
            opt_text(own)
        } else {
            title_by_folder(source@, root@)
        },
{
    match own {
        Some(t) => Some(t),
        None => nested_title(source, root),
    }
}

/// A book in the library itself, or directly in a folder of it, goes by the name it always had,
/// and keeps its title: its id, and with it its feed, does not change.
pub proof fn law_shallow_books_keep_their_name(source: SourceView, root: Seq<char>)
    requires
        naming_dir(source) matches Some(d) ==> d.len() <= components(root).len() + 1,
    ensures
        base_name_of(source, root) == match source {
            SourceView::File(p) => stem_or_book(p),
            SourceView::Mp3Folder(d) => name_or_book(d),
        },
        title_by_folder(source, root) is None,
{
}

// ---- What a directory holds -----------------------------------------------

/// An entry of a directory.
#[derive(Debug)]
pub struct DirEntry {
    /// Its path.
    pub path: String,
    /// Whether it is a file, if need be behind a link.
    pub is_file: bool,
    /// Whether it is a directory, if need be behind a link.
    pub is_dir: bool,
    /// What its path really is; `None` if that could not be looked up.
    pub found: Option<String>,
}

/// An entry of a directory, with texts for its paths.
pub struct EntryView {
    pub path: Seq<char>,
    pub is_file: bool,
    pub is_dir: bool,
    pub found: Option<Seq<char>>,
}

impl View for DirEntry {
    type V = EntryView;

    open spec fn view(&self) -> EntryView {
        EntryView {
            path: self.path@,
            is_file: self.is_file,
            is_dir: self.is_dir,
            found: opt_text(self.found),
        }
    }
}

/// The entries of a list.
pub open spec fn entry_views(v: Seq<DirEntry>) -> Seq<EntryView> {
    v.map_values(|e: DirEntry| e@)
}

/// The books of a list.
pub open spec fn source_views(v: Seq<BookSource>) -> Seq<SourceView> {
    v.map_values(|s: BookSource| s@)
}

/// The name of an entry.
pub open spec fn entry_name(e: EntryView) -> Seq<char> {
    match file_name(e.path) {
        Some(n) => n,
        None => Seq::empty(),
    }
}

/// The names of the entries.
pub open spec fn entry_names(entries: Seq<EntryView>) -> Seq<Seq<char>> {
    entries.map_values(|e: EntryView| entry_name(e))
}

/// The entries in the order of their names.
pub open spec fn in_order(entries: Seq<EntryView>) -> Seq<EntryView> {
    stable_order(by_text(entry_names(entries)), entries.len()).map_values(|i: int| entries[i])
}

/// Puts the entries of a directory in the order of their names.
pub fn sort_entries(entries: &Vec<DirEntry>) -> (r: Vec<DirEntry>)
    ensures
        entry_views(r@) == in_order(entry_views(entries@)),
{
    let mut keys: Vec<Vec<char>> = Vec::new();
    let mut i: usize = 0;
    while i < entries.len()
        invariant
            i <= entries.len(),
            keys.len() == i,
            forall|a: int| 0 <= a < i ==> (#[trigger] keys@[a])@ == entry_name(entries@[a]@),
        decreases entries.len() - i,
    {
        let key = match path_file_name(entries[i].path.as_str()) {
            Some(n) => n,
            None => Vec::new(),
        };
        keys.push(key);
        i = i + 1;
    }
    assert(keys_of(keys@) =~= entry_names(entry_views(entries@)));
    let order = order_by_text(&keys);
    let mut r: Vec<DirEntry> = Vec::new();
    let mut k: usize = 0;
    while k < order.len()
        invariant
            k <= order.len(),
            order.len() == entries.len(),
            forall|a: int| 0 <= a < order.len() ==> #[trigger] order[a] < entries.len(),
            r.len() == k,
            forall|a: int| 0 <= a < k ==> (#[trigger] r@[a])@ == entries@[order@[a] as int]@,
        decreases order.len() - k,
    {
        assert(order[k as int] < entries.len());
        let e = &entries[order[k]];
        let found = match &e.found {
            Some(f) => Some(f.clone()),
            None => None,
        };
        r.push(DirEntry { path: e.path.clone(), is_file: e.is_file, is_dir: e.is_dir, found });
        k = k + 1;
    }
    proof {
        let want = in_order(entry_views(entries@));
        assert forall|a: int| 0 <= a < r.len() implies entry_views(r@)[a] == #[trigger] want[a] by {
            assert(positions(order@)[a] == order@[a]);
            assert(r@[a]@ == entries@[order@[a] as int]@);
        }
        assert(entry_views(r@) =~= want);
    }
    r
}

/// Whether no two entries have the same name.
pub open spec fn names_differ(entries: Seq<EntryView>) -> bool {
    forall|i: int, j: int|
        0 <= i < j < entries.len() ==> entry_name(#[trigger] entries[i]) != entry_name(#[trigger] entries[j])
}

/// Whether each of `a` is also one of `b`.
pub open spec fn all_among(a: Seq<EntryView>, b: Seq<EntryView>) -> bool {
    forall|i: int| 0 <= i < a.len() ==> b.contains(#[trigger] a[i])
}

proof fn lemma_in_order(entries: Seq<EntryView>)
    requires
        names_differ(entries),
    ensures
        in_order(entries).len() == entries.len(),
        all_among(in_order(entries), entries),
        all_among(entries, in_order(entries)),
        forall|i: int, j: int|
            0 <= i < j < entries.len() ==> text_le(
                entry_name(#[trigger] in_order(entries)[i]),
                entry_name(#[trigger] in_order(entries)[j]),
            ),
        names_differ(in_order(entries)),
{
    let keys = entry_names(entries);
    let le = by_text(keys);
    let n = entries.len();
    lemma_by_text_is_total(keys);
    lemma_stable_order(le, n);
    let order = stable_order(le, n);
    let s = in_order(entries);
    assert(s.len() == n);
    assert forall|i: int| 0 <= i < s.len() implies entries.contains(#[trigger] s[i]) by {
        assert(0 <= order[i] < n);
        assert(s[i] == entries[order[i]]);
    }
    assert forall|x: int| 0 <= x < n implies s.contains(#[trigger] entries[x]) by {
        assert(order.contains(x));
        let k = choose|k: int| 0 <= k < order.len() && order[k] == x;
        assert(s[k] == entries[x]);
    }
    assert forall|i: int, j: int| 0 <= i < j < n implies text_le(
        entry_name(#[trigger] s[i]),
        entry_name(#[trigger] s[j]),
    ) && entry_name(s[i]) != entry_name(s[j]) by {
        let a = order[i];
        let b = order[j];
        assert(0 <= a < n && 0 <= b < n);
        assert(crate::sorting::before(le, a, b));
        assert(keys[a] == entry_name(s[i]) && keys[b] == entry_name(s[j]));
        assert(a != b) by {
            if a == b {
                assert(le(a, b) && le(b, a) ==> a < b);
            }
        }
        assert(s[i] == entries[a] && s[j] == entries[b]);
        if a < b {
            assert(entry_name(entries[a]) != entry_name(entries[b]));
        } else {
            assert(entry_name(entries[b]) != entry_name(entries[a]));
        }
    }
}

/// If two lists agree before `i`, the entry of the first at `i` is not before that of the second.
proof fn lemma_no_earlier(s: Seq<EntryView>, t: Seq<EntryView>, i: int)
    requires
        0 <= i < s.len(),
        s.len() == t.len(),
        s.take(i) == t.take(i),
        all_among(s, t),
        names_differ(s),
        forall|a: int, b: int|
            0 <= a < b < t.len() ==> text_le(entry_name(#[trigger] t[a]), entry_name(#[trigger] t[b])),
    ensures
        text_le(entry_name(t[i]), entry_name(s[i])),
{
    assert(t.contains(s[i]));
    let j = choose|j: int| 0 <= j < t.len() && t[j] == s[i];
    if j < i {
        assert(t.take(i)[j] == t[j]);
        assert(s.take(i)[j] == s[j]);
        assert(entry_name(s[j]) != entry_name(s[i]));
    } else if j > i {
        assert(text_le(entry_name(t[i]), entry_name(t[j])));
    } else {
        lemma_text_le_total(entry_name(t[i]), entry_name(s[i]));
    }
}

proof fn lemma_same_front(s: Seq<EntryView>, t: Seq<EntryView>, n: int)
    requires
        0 <= n <= s.len(),
        s.len() == t.len(),
        all_among(s, t),
        all_among(t, s),
        names_differ(s),
        names_differ(t),
        forall|a: int, b: int|
            0 <= a < b < s.len() ==> text_le(entry_name(#[trigger] s[a]), entry_name(#[trigger] s[b])),
        forall|a: int, b: int|
            0 <= a < b < t.len() ==> text_le(entry_name(#[trigger] t[a]), entry_name(#[trigger] t[b])),
    ensures
        s.take(n) == t.take(n),
    decreases n,
{
    if n > 0 {
        let i = n - 1;
        lemma_same_front(s, t, i);
        lemma_no_earlier(s, t, i);
        lemma_no_earlier(t, s, i);
        lemma_text_le_total(entry_name(s[i]), entry_name(t[i]));
        assert(t.contains(s[i]));
        let j = choose|j: int| 0 <= j < t.len() && t[j] == s[i];
        assert(j == i) by {
            if j < i {
                assert(entry_name(t[j]) != entry_name(t[i]));
            } else if j > i {
                assert(entry_name(t[i]) != entry_name(t[j]));
            }
        }
        assert(s.take(n) =~= s.take(i).push(s[i]));
        assert(t.take(n) =~= t.take(i).push(t[i]));
    } else {
        assert(s.take(0) =~= t.take(0));
    }
}

/// The order in which the file system lists a directory does not matter: the same entries come out
/// in the same order, so that the same books get the same ids in every scan.
pub proof fn law_listing_order_does_not_matter(a: Seq<EntryView>, b: Seq<EntryView>)
    requires
        a.len() == b.len(),
        names_differ(a),
        names_differ(b),
        all_among(a, b),
        all_among(b, a),
    ensures
        in_order(a) == in_order(b),
{
    lemma_in_order(a);
    lemma_in_order(b);
    let s = in_order(a);
    let t = in_order(b);
    assert(all_among(s, t)) by {
        assert forall|i: int| 0 <= i < s.len() implies t.contains(#[trigger] s[i]) by {
            assert(a.contains(s[i]));
            let x = choose|x: int| 0 <= x < a.len() && a[x] == s[i];
            assert(b.contains(a[x]));
            let y = choose|y: int| 0 <= y < b.len() && b[y] == a[x];
            assert(t.contains(b[y]));
        }
    }
    assert(all_among(t, s)) by {
        assert forall|i: int| 0 <= i < t.len() implies s.contains(#[trigger] t[i]) by {
            assert(b.contains(t[i]));
            let x = choose|x: int| 0 <= x < b.len() && b[x] == t[i];
            assert(a.contains(b[x]));
            let y = choose|y: int| 0 <= y < a.len() && a[y] == b[x];
            assert(s.contains(a[y]));
        }
    }
    lemma_same_front(s, t, s.len() as int);
    assert(s.take(s.len() as int) =~= s);
    assert(t.take(t.len() as int) =~= t);
}

/// The positions below `n` of the files of one kind.
pub open spec fn of_kind(entries: Seq<EntryView>, kind: AudioKind, n: nat) -> Seq<int>
    decreases n,
{
    if n == 0 {
        Seq::empty()
    } else {
        let before = of_kind(entries, kind, (n - 1) as nat);
        let e = entries[n - 1];
        if e.is_file && kind_of(e.path) == kind {
            before.push(n - 1)
        } else {
            before
        }
    }
}

/// What a folder is, by the files that it holds itself.
#[derive(Debug)]
pub enum DirKind {
    /// Each of the files at these positions is a book.
    Files(Vec<usize>),
    /// Its MP3s are the tracks of one book.
    Tracks,
    /// It holds no book.
    Nothing,
}

/// What a folder is. Each `.m4b` or `.m4a` is a book. Without one, a single MP3 is a book, and
/// several are the tracks of one. Without those, a single file of another kind is a book.
pub open spec fn is_kind_of_dir(r: DirKind, entries: Seq<EntryView>) -> bool {
    let n = entries.len();
    let m4x = of_kind(entries, AudioKind::M4x, n);
    let mp3 = of_kind(entries, AudioKind::Mp3, n);
    let tier2 = of_kind(entries, AudioKind::Tier2, n);
    if m4x.len() > 0 {
        r matches DirKind::Files(v) && positions(v@) == m4x
    } else if mp3.len() == 1 {
        r matches DirKind::Files(v) && positions(v@) == mp3
    } else if mp3.len() > 1 {
        r is Tracks
    } else if tier2.len() == 1 {
        r matches DirKind::Files(v) && positions(v@) == tier2
    } else {
        r is Nothing
    }
}

fn files_of_kind(entries: &Vec<DirEntry>, kind: AudioKind) -> (r: Vec<usize>)
    ensures
        positions(r@) == of_kind(entry_views(entries@), kind, entries@.len()),
        forall|k: int| 0 <= k < r@.len() ==> #[trigger] r@[k] < entries@.len(),
{
    let mut r: Vec<usize> = Vec::new();
    let mut i: usize = 0;
    assert(positions(r@) =~= Seq::<int>::empty());
    while i < entries.len()
        invariant
            i <= entries.len(),
            positions(r@) == of_kind(entry_views(entries@), kind, i as nat),
            forall|k: int| 0 <= k < r@.len() ==> #[trigger] r@[k] < i,
        decreases entries.len() - i,
    {
        assert(entry_views(entries@)[i as int] == entries@[i as int]@);
        if entries[i].is_file && audio_kind(entries[i].path.as_str()) == kind {
            let ghost was = r@;
            r.push(i);
            assert(positions(r@) =~= positions(was).push(i as int));
        }
        i = i + 1;
    }
    r
}

/// Decides what a folder is. Several files that are neither MP3 nor `.m4b` or `.m4a` are nothing:
/// only MP3s are read as tracks.
pub fn classify_dir(entries: &Vec<DirEntry>) -> (r: DirKind)
    ensures
        is_kind_of_dir(r, entry_views(entries@)),
        r matches DirKind::Files(v) ==> forall|k: int|
            0 <= k < v@.len() ==> #[trigger] v@[k] < entries@.len(),
{
    let m4x = files_of_kind(entries, AudioKind::M4x);
    let mp3 = files_of_kind(entries, AudioKind::Mp3);
    let tier2 = files_of_kind(entries, AudioKind::Tier2);
    assert(m4x@.len() == positions(m4x@).len());
    assert(mp3@.len() == positions(mp3@).len());
    assert(tier2@.len() == positions(tier2@).len());
    if m4x.len() > 0 {
        DirKind::Files(m4x)
    } else if mp3.len() == 1 {
        DirKind::Files(mp3)
    } else if mp3.len() > 1 {
        DirKind::Tracks
    } else if tier2.len() == 1 {
        DirKind::Files(tier2)
    } else {
        DirKind::Nothing
    }
}

// ---- The walk -------------------------------------------------------------

/// How far below the library the walk goes.
pub const MAX_LIBRARY_DEPTH: usize = 8;

/// What is still to be taken up.
#[derive(Debug)]
pub enum WalkItem {
    /// A book, to be handed out.
    Book(BookSource),
    /// A directory, to be looked at; the library itself has depth 0.
    Dir(String, usize),
}

/// What is still to be taken up.
pub enum ItemView {
    Book(SourceView),
    Dir(Seq<char>, nat),
}

impl View for WalkItem {
    type V = ItemView;

    open spec fn view(&self) -> ItemView {
        match self {
            WalkItem::Book(s) => ItemView::Book(s@),
            WalkItem::Dir(d, n) => ItemView::Dir(d@, *n as nat),
        }
    }
}

/// The items of a list.
pub open spec fn item_views(v: Seq<WalkItem>) -> Seq<ItemView> {
    v.map_values(|i: WalkItem| i@)
}

/// The files at `at` that really lie in the library, as books.
pub open spec fn inside_files(entries: Seq<EntryView>, at: Seq<int>, root: Seq<char>) -> Seq<ItemView>
    decreases at.len(),
{
    if at.len() == 0 {
        Seq::empty()
    } else {
        let before = inside_files(entries, at.drop_last(), root);
        let e = entries[at.last()];
        if is_contained(e.found, root) {
            before.push(ItemView::Book(SourceView::File(e.path)))
        } else {
            before
        }
    }
}

/// The books that a folder `dir` of the library is or holds itself.
pub open spec fn books_in(dir: Seq<char>, entries: Seq<EntryView>, root: Seq<char>) -> Seq<ItemView> {
    let n = entries.len();
    let m4x = of_kind(entries, AudioKind::M4x, n);
    let mp3 = of_kind(entries, AudioKind::Mp3, n);
    let tier2 = of_kind(entries, AudioKind::Tier2, n);
    if m4x.len() > 0 {
        inside_files(entries, m4x, root)
    } else if mp3.len() == 1 {
        inside_files(entries, mp3, root)
    } else if mp3.len() > 1 {
        seq![ItemView::Book(SourceView::Mp3Folder(dir))]
    } else if tier2.len() == 1 {
        inside_files(entries, tier2, root)
    } else {
        Seq::empty()
    }
}

/// What comes of one entry of a directory that is no book itself: a file is a book only in the
/// library itself; a directory is looked at, unless it is ignored.
pub open spec fn item_of(e: EntryView, depth: nat, root: Seq<char>) -> Option<ItemView> {
    if e.is_file {
        if depth == 0 && !drm(e.path) && audio(e.path) && is_contained(e.found, root) {
            Some(ItemView::Book(SourceView::File(e.path)))
        } else {
            None
        }
    } else if e.is_dir && !(file_name(e.path) is Some && is_ignored(file_name(e.path)->0)) {
        Some(ItemView::Dir(e.path, depth + 1))
    } else {
        None
    }
}

/// What comes of the first `n` entries of a directory that is no book itself.
pub open spec fn items_of(entries: Seq<EntryView>, n: nat, depth: nat, root: Seq<char>) -> Seq<ItemView>
    decreases n,
{
    if n == 0 {
        Seq::empty()
    } else {
        let before = items_of(entries, (n - 1) as nat, depth, root);
        match item_of(entries[n - 1], depth, root) {
            Some(i) => before.push(i),
            None => before,
        }
    }
}

/// What comes of a directory with the given entries: below the library, the first level that holds
/// books is where the walk ends; else every entry, in the order of their names.
pub open spec fn yield_of(
    dir: Seq<char>,
    depth: nat,
    entries: Seq<EntryView>,
    root: Seq<char>,
) -> Seq<ItemView> {
    let sorted = in_order(entries);
    let books = books_in(dir, sorted, root);
    if depth > 0 && books.len() > 0 {
        books
    } else {
        items_of(sorted, sorted.len(), depth, root)
    }
}

/// A walk through a library.
#[derive(Debug)]
pub struct Walk {
    /// What is still to be taken up, the next one last.
    pub pending: Vec<WalkItem>,
    /// The directories that were entered, by what they really are.
    pub visited: Vec<String>,
    /// The books that were found, in order.
    pub found: Vec<BookSource>,
}

/// The state after the books at the end of `pending` were handed out.
pub open spec fn handed_out(pending: Seq<ItemView>, found: Seq<SourceView>) -> (
    Seq<ItemView>,
    Seq<SourceView>,
)
    decreases pending.len(),
{
    if pending.len() > 0 {
        match pending.last() {
            ItemView::Book(s) => handed_out(pending.drop_last(), found.push(s)),
            ItemView::Dir(_, _) => (pending, found),
        }
    } else {
        (pending, found)
    }
}

/// What a directory really is, for a walk: the library is taken as it is called if that cannot be
/// looked up.
pub open spec fn really(dir: Seq<char>, depth: nat, found: Option<Seq<char>>) -> Option<Seq<char>> {
    if depth == 0 && found is None {
        Some(dir)
    } else {
        found
    }
}

/// Whether a directory is entered: not too deep, really in the library, no output of the server's
/// own, and not for a second time.
pub open spec fn is_entered(
    dir: Seq<char>,
    depth: nat,
    found: Option<Seq<char>>,
    root: Seq<char>,
    data_root: Option<Seq<char>>,
    visited: Seq<Seq<char>>,
) -> bool {
    let place = really(dir, depth, found);
    &&& depth <= MAX_LIBRARY_DEPTH
    &&& place is Some
    &&& depth > 0 ==> is_under(place->0, root)
    &&& data_root is Some ==> !is_under(place->0, data_root->0)
    &&& !visited.contains(place->0)
}

impl Walk {
    /// A walk that starts at the library.
    pub fn new(library: &str) -> (r: Walk)
        ensures
            r@ == (WalkView {
                pending: seq![ItemView::Dir(library@, 0)],
                visited: Seq::empty(),
                found: Seq::empty(),
            }),
    {
        let mut pending: Vec<WalkItem> = Vec::new();
        pending.push(WalkItem::Dir(library.to_owned(), 0));
        assert(item_views(pending@) =~= seq![ItemView::Dir(library@, 0)]);
        let r = Walk { pending, visited: Vec::new(), found: Vec::new() };
        assert(r@.visited =~= Seq::empty());
        assert(r@.found =~= Seq::empty());
        r
    }

    /// The next directory to look at, with its depth; `None` at the end. The books before it are
    /// handed out.
    pub fn next_dir(&mut self) -> (r: Option<(String, usize)>)
        ensures
            final(self).visited == old(self).visited,
            ({
                let (pending, found) = handed_out(
                    item_views(old(self).pending@),
                    source_views(old(self).found@),
                );
                &&& source_views(final(self).found@) == found
                &&& match r {
                    Some(d) => pending == item_views(final(self).pending@).push(
                        ItemView::Dir(d.0@, d.1 as nat),
                    ),
                    None => pending.len() == 0 && final(self).pending@.len() == 0,
                }
            }),
    {
        let ghost end = handed_out(item_views(self.pending@), source_views(self.found@));
        loop
            invariant
                self.visited == old(self).visited,
                end == handed_out(item_views(old(self).pending@), source_views(old(self).found@)),
                end == handed_out(item_views(self.pending@), source_views(self.found@)),
            decreases self.pending@.len(),
        {
            let ghost pending = item_views(self.pending@);
            let ghost found = source_views(self.found@);
            match self.pending.pop() {
                Some(item) => {
                    assert(pending.last() == item@);
                    assert(pending.drop_last() =~= item_views(self.pending@));
                    match item {
                        WalkItem::Book(s) => {
                            let ghost v = s@;
                            self.found.push(s);
                            assert(source_views(self.found@) =~= found.push(v));
                        },
                        WalkItem::Dir(d, n) => {
                            assert(pending =~= item_views(self.pending@).push(
                                ItemView::Dir(d@, n as nat),
                            ));
                            return Some((d, n));
                        },
                    }
                },
                None => {
                    return None;
                },
            }
        }
    }

    /// Whether to enter a directory; if so it counts as visited. `found` is what it really is, if
    /// that could be looked up; `data_root` is what the data directory really is.
    pub fn enter(
        &mut self,
        dir: &str,
        depth: usize,
        found: Option<&str>,
        root: &str,
        data_root: Option<&str>,
    ) -> (r: bool)
        ensures
            r == is_entered(
                dir@,
                depth as nat,
                opt_str(found),
                root@,
                opt_str(data_root),
                texts(old(self).visited@),
            ),
            r <==> {
                let place = if depth == 0 && found is None {
                    Some(dir@)
                } else {
                    opt_str(found)
                };
                &&& depth <= 8
                &&& place is Some
                &&& depth > 0 ==> is_under(place->0, root@)
                &&& data_root is Some ==> !is_under(place->0, data_root->0@)
                &&& !texts(old(self).visited@).contains(place->0)
            },
            final(self).pending == old(self).pending,
            final(self).found == old(self).found,
            texts(final(self).visited@) == if r {
                texts(old(self).visited@).push(really(dir@, depth as nat, opt_str(found))->0)
            } else {
                texts(old(self).visited@)
            },
    {
        if depth > MAX_LIBRARY_DEPTH {
            return false;
        }
        let place = match found {
            Some(f) => f,
            None => if depth == 0 {
                dir
            } else {
                return false;
            },
        };
        if depth > 0 && !path_is_under(place, root) {
            return false;
        }
        if let Some(d) = data_root {
            if path_is_under(place, d) {
                return false;
            }
        }
        if holds_text(&self.visited, place) {
            return false;
        }
        let ghost was = self.visited@;
        self.visited.push(place.to_owned());
        assert(texts(self.visited@) =~= texts(was).push(place@));
        true
    }

    /// Takes up what a directory that was entered holds.
    pub fn listed(&mut self, dir: &str, depth: usize, entries: &Vec<DirEntry>, root: &str)
        requires
            depth <= MAX_LIBRARY_DEPTH,
        ensures
            final(self).visited == old(self).visited,
            final(self).found == old(self).found,
            item_views(final(self).pending@) == item_views(old(self).pending@) + yield_of(
                dir@,
                depth as nat,
                entry_views(entries@),
                root@,
            ).reverse(),
    {
        let mut items = yielded(dir, depth, entries, root);
        let ghost all = item_views(items@);
        let ghost was = item_views(self.pending@);
        assert(was + (all.skip(all.len() as int)).reverse() =~= was);
        while items.len() > 0
            invariant
                self.visited == old(self).visited,
                self.found == old(self).found,
                items@.len() <= all.len(),
                item_views(items@) == all.take(items@.len() as int),
                item_views(self.pending@) == was + all.skip(items@.len() as int).reverse(),
            decreases items@.len(),
        {
            let ghost n = items@.len() as int;
            let ghost before = item_views(self.pending@);
            let ghost front = item_views(items@);
            match items.pop() {
                Some(item) => {
                    let ghost v = item@;
                    self.pending.push(item);
                    proof {
                        assert(front.last() == v);
                        assert(v == all[n - 1]);
                        assert(item_views(items@) =~= all.take(n - 1));
                        assert(item_views(self.pending@) =~= before.push(v));
                        assert(before.push(v) =~= was + all.skip(n - 1).reverse());
                    }
                },
                None => {},
            }
        }
        assert(all.skip(0) =~= all);
    }
}

fn files_as_books(entries: &Vec<DirEntry>, at: &Vec<usize>, root: &str) -> (r: Vec<WalkItem>)
    requires
        forall|k: int| 0 <= k < at@.len() ==> #[trigger] at@[k] < entries@.len(),
    ensures
        item_views(r@) == inside_files(entry_views(entries@), positions(at@), root@),
{
    let mut r: Vec<WalkItem> = Vec::new();
    let mut k: usize = 0;
    assert(item_views(r@) =~= Seq::<ItemView>::empty());
    assert(positions(at@).take(0).len() == 0);
    while k < at.len()
        invariant
            k <= at.len(),
            forall|j: int| 0 <= j < at@.len() ==> #[trigger] at@[j] < entries@.len(),
            item_views(r@) == inside_files(entry_views(entries@), positions(at@).take(k as int), root@),
        decreases at.len() - k,
    {
        assert(at@[k as int] < entries@.len());
        let e = &entries[at[k]];
        proof {
            let t = positions(at@).take(k + 1);
            assert(t.drop_last() =~= positions(at@).take(k as int));
            assert(t.last() == at@[k as int]);
            assert(entry_views(entries@)[at@[k as int] as int] == e@);
        }
        let inside = match &e.found {
            Some(f) => path_is_under(f.as_str(), root),
            None => false,
        };
        if inside {
            let ghost was = r@;
            r.push(WalkItem::Book(BookSource::File(e.path.clone())));
            assert(item_views(r@) =~= item_views(was).push(ItemView::Book(SourceView::File(e.path@))));
        }
        k = k + 1;
    }
    assert(positions(at@).take(k as int) =~= positions(at@));
    r
}

fn books_of(dir: &str, entries: &Vec<DirEntry>, root: &str) -> (r: Vec<WalkItem>)
    ensures
        item_views(r@) == books_in(dir@, entry_views(entries@), root@),
{
    match classify_dir(entries) {
        DirKind::Files(at) => files_as_books(entries, &at, root),
        DirKind::Tracks => {
            let mut r: Vec<WalkItem> = Vec::new();
            r.push(WalkItem::Book(BookSource::Mp3Folder(dir.to_owned())));
            assert(item_views(r@) =~= seq![ItemView::Book(SourceView::Mp3Folder(dir@))]);
            r
        },
        DirKind::Nothing => {
            let r: Vec<WalkItem> = Vec::new();
            assert(item_views(r@) =~= Seq::<ItemView>::empty());
            r
        },
    }
}

/// What comes of a directory with the given entries.
fn yielded(dir: &str, depth: usize, entries: &Vec<DirEntry>, root: &str) -> (r: Vec<WalkItem>)
    requires
        depth <= MAX_LIBRARY_DEPTH,
    ensures
        item_views(r@) == yield_of(dir@, depth as nat, entry_views(entries@), root@),
{
    let sorted = sort_entries(entries);
    let ghost views = entry_views(sorted@);
    if depth > 0 {
        let books = books_of(dir, &sorted, root);
        assert(item_views(books@).len() == books@.len());
        if books.len() > 0 {
            return books;
        }
    }
    let mut r: Vec<WalkItem> = Vec::new();
    let mut i: usize = 0;
    assert(item_views(r@) =~= Seq::<ItemView>::empty());
    while i < sorted.len()
        invariant
            i <= sorted.len(),
            depth <= MAX_LIBRARY_DEPTH,
            views == entry_views(sorted@),
            item_views(r@) == items_of(views, i as nat, depth as nat, root@),
        decreases sorted.len() - i,
    {
        let e = &sorted[i];
        assert(views[i as int] == e@);
        let ghost was = item_views(r@);
        if e.is_file {
            let inside = match &e.found {
                Some(f) => path_is_under(f.as_str(), root),
                None => false,
            };
            if depth == 0 && !is_drm(e.path.as_str()) && audio_kind(e.path.as_str()) != AudioKind::Other
                && inside {
                r.push(WalkItem::Book(BookSource::File(e.path.clone())));
                assert(item_views(r@) =~= was.push(ItemView::Book(SourceView::File(e.path@))));
            }
        } else if e.is_dir && !is_ignored_dir(e.path.as_str()) {
            r.push(WalkItem::Dir(e.path.clone(), depth + 1));
            assert(item_views(r@) =~= was.push(ItemView::Dir(e.path@, (depth + 1) as nat)));
        }
        i = i + 1;
    }
    assert(views.len() == sorted@.len());
    r
}

// ---- Laws of the walk -----------------------------------------------------

/// Whether a file may be a book: audio, not protected, and really in the library.
pub open spec fn may_be_book(e: EntryView, root: Seq<char>) -> bool {
    e.is_file && audio(e.path) && !drm(e.path) && is_contained(e.found, root)
}

/// Whether an item is right for a directory: a file of it that may be a book, the directory itself
/// with its tracks, or a directory one level deeper.
pub open spec fn is_right_item(
    i: ItemView,
    dir: Seq<char>,
    depth: nat,
    entries: Seq<EntryView>,
    root: Seq<char>,
) -> bool {
    match i {
        ItemView::Book(SourceView::File(p)) => exists|k: int|
            0 <= k < entries.len() && (#[trigger] entries[k]).path == p && may_be_book(entries[k], root),
        ItemView::Book(SourceView::Mp3Folder(d)) => depth > 0 && d == dir,
        ItemView::Dir(d, n) => n == depth + 1 && exists|k: int|
            0 <= k < entries.len() && (#[trigger] entries[k]).path == d && entries[k].is_dir
                && !entries[k].is_file && !(file_name(d) is Some && is_ignored(file_name(d)->0)),
    }
}

proof fn lemma_of_kind(entries: Seq<EntryView>, kind: AudioKind, n: nat)
    requires
        n <= entries.len(),
    ensures
        forall|j: int|
            0 <= j < of_kind(entries, kind, n).len() ==> {
                let i = #[trigger] of_kind(entries, kind, n)[j];
                0 <= i < n && entries[i].is_file && kind_of(entries[i].path) == kind
            },
    decreases n,
{
    if n > 0 {
        lemma_of_kind(entries, kind, (n - 1) as nat);
    }
}

proof fn lemma_inside_files(
    dir: Seq<char>,
    depth: nat,
    entries: Seq<EntryView>,
    at: Seq<int>,
    root: Seq<char>,
)
    requires
        forall|j: int|
            0 <= j < at.len() ==> {
                let i = #[trigger] at[j];
                0 <= i < entries.len() && entries[i].is_file && kind_of(entries[i].path) != AudioKind::Other
            },
    ensures
        forall|j: int|
            0 <= j < inside_files(entries, at, root).len() ==> {
                &&& is_right_item(#[trigger] inside_files(entries, at, root)[j], dir, depth, entries, root)
                &&& inside_files(entries, at, root)[j] is Book
            },
    decreases at.len(),
{
    if at.len() > 0 {
        let front = at.drop_last();
        assert forall|j: int| 0 <= j < front.len() implies {
            let i = #[trigger] front[j];
            0 <= i < entries.len() && entries[i].is_file && kind_of(entries[i].path) != AudioKind::Other
        } by {
            assert(front[j] == at[j]);
        }
        lemma_inside_files(dir, depth, entries, front, root);
        let i = at[at.len() - 1];
        let e = entries[i];
        assert(audio(e.path));
        if drm(e.path) {
            law_drm_is_never_audio(e.path);
        }
        let before = inside_files(entries, front, root);
        let all = inside_files(entries, at, root);
        assert forall|j: int| 0 <= j < all.len() implies is_right_item(
            #[trigger] all[j],
            dir,
            depth,
            entries,
            root,
        ) && all[j] is Book by {
            if j < before.len() {
                assert(all[j] == before[j]);
            } else {
                assert(entries[i].path == e.path);
            }
        }
    }
}

proof fn lemma_books_in(dir: Seq<char>, depth: nat, entries: Seq<EntryView>, root: Seq<char>)
    requires
        depth > 0,
    ensures
        forall|j: int|
            0 <= j < books_in(dir, entries, root).len() ==> {
                &&& is_right_item(#[trigger] books_in(dir, entries, root)[j], dir, depth, entries, root)
                &&& books_in(dir, entries, root)[j] is Book
            },
{
    let n = entries.len();
    lemma_of_kind(entries, AudioKind::M4x, n);
    lemma_of_kind(entries, AudioKind::Mp3, n);
    lemma_of_kind(entries, AudioKind::Tier2, n);
    lemma_inside_files(dir, depth, entries, of_kind(entries, AudioKind::M4x, n), root);
    lemma_inside_files(dir, depth, entries, of_kind(entries, AudioKind::Mp3, n), root);
    lemma_inside_files(dir, depth, entries, of_kind(entries, AudioKind::Tier2, n), root);
}

proof fn lemma_items_of(dir: Seq<char>, entries: Seq<EntryView>, n: nat, depth: nat, root: Seq<char>)
    requires
        n <= entries.len(),
    ensures
        forall|j: int|
            0 <= j < items_of(entries, n, depth, root).len() ==> is_right_item(
                #[trigger] items_of(entries, n, depth, root)[j],
                dir,
                depth,
                entries,
                root,
            ),
    decreases n,
{
    if n > 0 {
        lemma_items_of(dir, entries, (n - 1) as nat, depth, root);
        let before = items_of(entries, (n - 1) as nat, depth, root);
        let all = items_of(entries, n, depth, root);
        let e = entries[n - 1];
        assert forall|j: int| 0 <= j < all.len() implies is_right_item(
            #[trigger] all[j],
            dir,
            depth,
            entries,
            root,
        ) by {
            if j < before.len() {
                assert(all[j] == before[j]);
            } else {
                assert(entries[n - 1].path == e.path);
            }
        }
    }
}

proof fn lemma_sorted_are_entries(entries: Seq<EntryView>)
    ensures
        all_among(in_order(entries), entries),
{
    let keys = entry_names(entries);
    lemma_by_text_is_total(keys);
    lemma_stable_order(by_text(keys), entries.len());
    let order = stable_order(by_text(keys), entries.len());
    assert forall|i: int| 0 <= i < in_order(entries).len() implies entries.contains(
        #[trigger] in_order(entries)[i],
    ) by {
        assert(0 <= order[i] < entries.len());
        assert(in_order(entries)[i] == entries[order[i]]);
    }
}

/// The walk never leaves the library, and never takes up a protected file: every file that comes
/// out of a directory is audio of it that really lies in the library, and every directory is one of
/// it, one level deeper.
pub proof fn law_walk_stays_inside(
    dir: Seq<char>,
    depth: nat,
    entries: Seq<EntryView>,
    root: Seq<char>,
    j: int,
)
    requires
        0 <= j < yield_of(dir, depth, entries, root).len(),
    ensures
        is_right_item(yield_of(dir, depth, entries, root)[j], dir, depth, entries, root),
{
    let sorted = in_order(entries);
    lemma_sorted_are_entries(entries);
    if depth > 0 {
        lemma_books_in(dir, depth, sorted, root);
    }
    lemma_items_of(dir, sorted, sorted.len(), depth, root);
    let i = yield_of(dir, depth, entries, root)[j];
    assert(is_right_item(i, dir, depth, sorted, root));
    match i {
        ItemView::Book(SourceView::File(p)) => {
            let k = choose|k: int|
                0 <= k < sorted.len() && (#[trigger] sorted[k]).path == p && may_be_book(sorted[k], root);
            assert(entries.contains(sorted[k]));
            let m = choose|m: int| 0 <= m < entries.len() && entries[m] == sorted[k];
            assert(entries[m].path == p && may_be_book(entries[m], root));
        },
        ItemView::Dir(d, n) => {
            let k = choose|k: int|
                0 <= k < sorted.len() && (#[trigger] sorted[k]).path == d && sorted[k].is_dir
                    && !sorted[k].is_file;
            assert(entries.contains(sorted[k]));
            let m = choose|m: int| 0 <= m < entries.len() && entries[m] == sorted[k];
            assert(entries[m].path == d && entries[m].is_dir && !entries[m].is_file);
        },
        _ => {},
    }
}

/// Below the library the walk ends at the first level that holds books: no directory inside one is
/// looked at.
pub proof fn law_first_level_with_books_wins(
    dir: Seq<char>,
    depth: nat,
    entries: Seq<EntryView>,
    root: Seq<char>,
    j: int,
)
    requires
        depth > 0,
        books_in(dir, in_order(entries), root).len() > 0,
        0 <= j < yield_of(dir, depth, entries, root).len(),
    ensures
        yield_of(dir, depth, entries, root)[j] is Book,
{
    lemma_books_in(dir, depth, in_order(entries), root);
}

/// No directory is entered twice, whatever links lead to it, nor one that the server writes to.
pub proof fn law_no_directory_is_entered_again(
    dir: Seq<char>,
    depth: nat,
    found: Option<Seq<char>>,
    root: Seq<char>,
    data_root: Option<Seq<char>>,
    visited: Seq<Seq<char>>,
)
    requires
        found is Some,
        visited.contains(found->0) || (data_root is Some && is_under(found->0, data_root->0)),
    ensures
        !is_entered(dir, depth, found, root, data_root, visited),
{
}

// ---- A whole walk ---------------------------------------------------------

/// What a walk meets: the library, what the data directory really is, what the directories really
/// are (where that can be looked up), and what they hold (where that can be read).
pub struct TreeView {
    pub root: Seq<char>,
    pub data_root: Option<Seq<char>>,
    pub places: Map<Seq<char>, Seq<char>>,
    pub listings: Map<Seq<char>, Seq<EntryView>>,
}

impl TreeView {
    /// What a directory really is.
    pub open spec fn place(self, dir: Seq<char>) -> Option<Seq<char>> {
        if self.places.dom().contains(dir) {
            Some(self.places[dir])
        } else {
            None
        }
    }

    /// What comes of a directory.
    pub open spec fn yields(self, dir: Seq<char>, depth: nat) -> Seq<ItemView> {
        if self.listings.dom().contains(dir) {
            yield_of(dir, depth, self.listings[dir], self.root)
        } else {
            Seq::empty()
        }
    }
}

/// A walk, by its values.
pub struct WalkView {
    pub pending: Seq<ItemView>,
    pub visited: Seq<Seq<char>>,
    pub found: Seq<SourceView>,
}

impl View for Walk {
    type V = WalkView;

    open spec fn view(&self) -> WalkView {
        WalkView {
            pending: item_views(self.pending@),
            visited: texts(self.visited@),
            found: source_views(self.found@),
        }
    }
}

/// A walk after its next item was taken up: a book is handed out, a directory that is entered
/// leaves what comes of it in its place.
pub open spec fn taken_up(w: WalkView, t: TreeView) -> WalkView {
    if w.pending.len() == 0 {
        w
    } else {
        let rest = w.pending.drop_last();
        match w.pending.last() {
            ItemView::Book(s) => WalkView { pending: rest, visited: w.visited, found: w.found.push(s) },
            ItemView::Dir(d, n) => if is_entered(d, n, t.place(d), t.root, t.data_root, w.visited) {
                WalkView {
                    pending: rest + t.yields(d, n).reverse(),
                    visited: w.visited.push(really(d, n, t.place(d))->0),
                    found: w.found,
                }
            } else {
                WalkView { pending: rest, visited: w.visited, found: w.found }
            },
        }
    }
}

/// A walk after `n` items were taken up.
pub open spec fn walked(w: WalkView, t: TreeView, n: nat) -> WalkView
    decreases n,
{
    if n == 0 {
        w
    } else {
        taken_up(walked(w, t, (n - 1) as nat), t)
    }
}

proof fn lemma_walked_from(w: WalkView, t: TreeView, n: nat)
    ensures
        walked(w, t, n + 1) == walked(taken_up(w, t), t, n),
    decreases n,
{
    if n > 0 {
        lemma_walked_from(w, t, (n - 1) as nat);
        assert(walked(w, t, n + 1) == taken_up(walked(w, t, n), t));
    } else {
        assert(walked(w, t, 1) == taken_up(walked(w, t, 0), t));
    }
}

/// The books before the next directory are handed out one after the other, in the order they are
/// taken up.
pub proof fn law_books_are_handed_out_in_turn(w: WalkView, t: TreeView)
    ensures
        ({
            let (pending, found) = handed_out(w.pending, w.found);
            &&& pending.len() <= w.pending.len()
            &&& walked(w, t, (w.pending.len() - pending.len()) as nat) == (WalkView {
                pending,
                visited: w.visited,
                found,
            })
        }),
    decreases w.pending.len(),
{
    let (pending, found) = handed_out(w.pending, w.found);
    if w.pending.len() > 0 {
        match w.pending.last() {
            ItemView::Book(s) => {
                let next = taken_up(w, t);
                law_books_are_handed_out_in_turn(next, t);
                lemma_walked_from(w, t, (next.pending.len() - pending.len()) as nat);
            },
            ItemView::Dir(_, _) => {},
        }
    }
}

/// What comes of a directory comes out in the order of its entries: as long as the items that are
/// taken up first, and what comes of them, are not used up, those beneath them wait untouched.
pub proof fn law_yields_come_out_in_order(
    beneath: Seq<ItemView>,
    first: WalkView,
    t: TreeView,
    n: nat,
)
    requires
        forall|m: nat| m < n ==> (#[trigger] walked(first, t, m)).pending.len() > 0,
    ensures
        ({
            let all = WalkView { pending: beneath + first.pending, visited: first.visited, found: first.found };
            let alone = walked(first, t, n);
            walked(all, t, n) == (WalkView {
                pending: beneath + alone.pending,
                visited: alone.visited,
                found: alone.found,
            })
        }),
    decreases n,
{
    let all = WalkView { pending: beneath + first.pending, visited: first.visited, found: first.found };
    if n > 0 {
        let m = (n - 1) as nat;
        law_yields_come_out_in_order(beneath, first, t, m);
        let a = walked(first, t, m);
        let b = walked(all, t, m);
        assert(a.pending.len() > 0);
        assert(b.pending.drop_last() =~= beneath + a.pending.drop_last());
        assert(b.pending.last() == a.pending.last());
        match a.pending.last() {
            ItemView::Dir(d, k) => {
                let y = t.yields(d, k).reverse();
                assert((beneath + a.pending.drop_last()) + y =~= beneath + (a.pending.drop_last() + y));
            },
            ItemView::Book(_) => {},
        }
    }
}

/// Over a whole walk no directory is listed twice, whatever links lead to it: those that were
/// entered are all different, and stay entered.
pub proof fn law_no_directory_is_walked_twice(w: WalkView, t: TreeView, n: nat)
    requires
        w.visited.no_duplicates(),
    ensures
        walked(w, t, n).visited.no_duplicates(),
        w.visited.is_prefix_of(walked(w, t, n).visited),
    decreases n,
{
    if n > 0 {
        let m = (n - 1) as nat;
        law_no_directory_is_walked_twice(w, t, m);
        let a = walked(w, t, m);
        let b = walked(w, t, n);
        if b.visited != a.visited {
            let place = b.visited.last();
            assert(b.visited =~= a.visited.push(place));
            assert(!a.visited.contains(place));
            assert forall|i: int, j: int| 0 <= i < b.visited.len() && 0 <= j < b.visited.len() && i
                != j implies b.visited[i] != b.visited[j] by {
                if i < a.visited.len() && j < a.visited.len() {
                    assert(a.visited[i] != a.visited[j]);
                } else if i < a.visited.len() {
                    assert(a.visited.contains(a.visited[i]));
                } else {
                    assert(a.visited.contains(a.visited[j]));
                }
            }
            assert(w.visited =~= b.visited.subrange(0, w.visited.len() as int));
        }
    } else {
        assert(w.visited =~= w.visited.subrange(0, w.visited.len() as int));
    }
}

/// Books that were found stay found, in their order, as a walk goes on.
pub proof fn law_found_books_stay(w: WalkView, t: TreeView, n: nat)
    ensures
        w.found.is_prefix_of(walked(w, t, n).found),
    decreases n,
{
    if n > 0 {
        law_found_books_stay(w, t, (n - 1) as nat);
        assert(w.found =~= walked(w, t, n).found.subrange(0, w.found.len() as int));
    } else {
        assert(w.found =~= w.found.subrange(0, w.found.len() as int));
    }
}

// ---- The order of the books -----------------------------------------------

/// Whether one path stands before another: where they first differ, its component is the lesser.
pub open spec fn comes_before(a: Seq<Seq<char>>, b: Seq<Seq<char>>) -> bool {
    exists|k: int| parts_at(a, b, k)
}

/// Whether `a` and `b` agree before place `k`, and `a` has the lesser component there.
pub open spec fn parts_at(a: Seq<Seq<char>>, b: Seq<Seq<char>>, k: int) -> bool {
    &&& 0 <= k < a.len()
    &&& k < b.len()
    &&& a.take(k) == b.take(k)
    &&& a[k] != b[k]
    &&& text_le(a[k], b[k])
}

/// Whether the path `a` stands before the path `b`.
pub open spec fn path_before(a: Seq<char>, b: Seq<char>) -> bool {
    comes_before(components(a), components(b))
}

/// The path of a source.
pub open spec fn source_path(s: SourceView) -> Seq<char> {
    match s {
        SourceView::File(p) => p,
        SourceView::Mp3Folder(p) => p,
    }
}

/// The path of an item.
pub open spec fn item_path(i: ItemView) -> Seq<char> {
    match i {
        ItemView::Book(s) => source_path(s),
        ItemView::Dir(d, _) => d,
    }
}

/// Whether the listings are those of a file system: what a directory holds lies in it, one name
/// each.
pub open spec fn is_tree(t: TreeView) -> bool {
    forall|d: Seq<char>| #[trigger] t.listings.dom().contains(d) ==> is_listing(d, t.listings[d])
}

/// Whether `entries` can be what the directory `dir` holds.
pub open spec fn is_listing(dir: Seq<char>, entries: Seq<EntryView>) -> bool {
    &&& names_differ(entries)
    &&& forall|i: int|
        0 <= i < entries.len() ==> components((#[trigger] entries[i]).path) == components(dir).push(
            entry_name(entries[i]),
        )
}

/// Whether the books that were found stand in the order of their paths, and before all that is
/// still to be taken up, which does so too.
pub open spec fn is_in_line(w: WalkView) -> bool {
    &&& forall|i: int, j: int|
        0 <= i < j < w.found.len() ==> path_before(
            source_path(#[trigger] w.found[i]),
            source_path(#[trigger] w.found[j]),
        )
    &&& forall|i: int, j: int|
        0 <= i < j < w.pending.len() ==> path_before(
            item_path(#[trigger] w.pending[j]),
            item_path(#[trigger] w.pending[i]),
        )
    &&& forall|i: int, j: int|
        0 <= i < w.found.len() && 0 <= j < w.pending.len() ==> path_before(
            source_path(#[trigger] w.found[i]),
            item_path(#[trigger] w.pending[j]),
        )
}

/// Whether items stand in the order of their paths.
spec fn are_in_line(items: Seq<ItemView>) -> bool {
    forall|i: int, j: int|
        0 <= i < j < items.len() ==> path_before(
            item_path(#[trigger] items[i]),
            item_path(#[trigger] items[j]),
        )
}

/// Whether each item has the path of one of the first `n` entries.
spec fn come_from(items: Seq<ItemView>, entries: Seq<EntryView>, n: int) -> bool {
    forall|j: int| 0 <= j < items.len() ==> comes_from(#[trigger] items[j], entries, n)
}

spec fn comes_from(item: ItemView, entries: Seq<EntryView>, n: int) -> bool {
    exists|i: int| 0 <= i < n && item_path(item) == (#[trigger] entries[i]).path
}

/// Whether entries stand in the order of their paths.
spec fn entries_in_line(entries: Seq<EntryView>) -> bool {
    forall|i: int, j: int|
        0 <= i < j < entries.len() ==> path_before((#[trigger] entries[i]).path, (#[trigger] entries[j]).path)
}

proof fn lemma_deeper_stays_behind(a: Seq<Seq<char>>, d: Seq<Seq<char>>, y: Seq<Seq<char>>)
    requires
        comes_before(a, d),
        d.is_prefix_of(y),
    ensures
        comes_before(a, y),
{
    let k = choose|k: int| parts_at(a, d, k);
    assert(d == y.subrange(0, d.len() as int));
    assert(d[k] == y[k]);
    assert(d.take(k) =~= y.take(k));
    assert(parts_at(a, y, k));
}

proof fn lemma_deeper_stays_ahead(d: Seq<Seq<char>>, y: Seq<Seq<char>>, b: Seq<Seq<char>>)
    requires
        comes_before(d, b),
        d.is_prefix_of(y),
    ensures
        comes_before(y, b),
{
    let k = choose|k: int| parts_at(d, b, k);
    assert(d == y.subrange(0, d.len() as int));
    assert(d[k] == y[k]);
    assert(d.take(k) =~= y.take(k));
    assert(parts_at(y, b, k));
}

proof fn lemma_sorted_listing(dir: Seq<char>, entries: Seq<EntryView>)
    requires
        is_listing(dir, entries),
    ensures
        is_listing(dir, in_order(entries)),
        entries_in_line(in_order(entries)),
{
    lemma_in_order(entries);
    let s = in_order(entries);
    let d = components(dir);
    assert forall|i: int| 0 <= i < s.len() implies components((#[trigger] s[i]).path) == d.push(
        entry_name(s[i]),
    ) by {
        assert(entries.contains(s[i]));
        let m = choose|m: int| 0 <= m < entries.len() && entries[m] == s[i];
        assert(components(entries[m].path) == d.push(entry_name(entries[m])));
    }
    assert forall|i: int, j: int| 0 <= i < j < s.len() implies path_before(
        (#[trigger] s[i]).path,
        (#[trigger] s[j]).path,
    ) by {
        let a = components(s[i].path);
        let b = components(s[j].path);
        let k = d.len() as int;
        assert(a.take(k) =~= d);
        assert(b.take(k) =~= d);
        assert(text_le(entry_name(s[i]), entry_name(s[j])));
        assert(parts_at(a, b, k));
    }
}

proof fn lemma_pushed_in_line(items: Seq<ItemView>, item: ItemView, entries: Seq<EntryView>, n: int, m: int)
    requires
        entries_in_line(entries),
        are_in_line(items),
        come_from(items, entries, n),
        0 <= n <= m < entries.len(),
        item_path(item) == entries[m].path,
    ensures
        are_in_line(items.push(item)),
        come_from(items.push(item), entries, m + 1),
{
    let all = items.push(item);
    assert forall|j: int| 0 <= j < all.len() implies comes_from(#[trigger] all[j], entries, m + 1) by {
        if j < items.len() {
            assert(all[j] == items[j]);
            let i = choose|i: int| 0 <= i < n && item_path(items[j]) == (#[trigger] entries[i]).path;
            assert(item_path(all[j]) == entries[i].path);
        } else {
            assert(item_path(all[j]) == entries[m].path);
        }
    }
    assert forall|i: int, j: int| 0 <= i < j < all.len() implies path_before(
        item_path(#[trigger] all[i]),
        item_path(#[trigger] all[j]),
    ) by {
        if j < items.len() {
            assert(all[i] == items[i] && all[j] == items[j]);
        } else {
            assert(all[i] == items[i]);
            let e = choose|e: int| 0 <= e < n && item_path(items[i]) == (#[trigger] entries[e]).path;
            assert(path_before(entries[e].path, entries[m].path));
        }
    }
}

proof fn lemma_items_in_line(entries: Seq<EntryView>, n: nat, depth: nat, root: Seq<char>)
    requires
        entries_in_line(entries),
        n <= entries.len(),
    ensures
        are_in_line(items_of(entries, n, depth, root)),
        come_from(items_of(entries, n, depth, root), entries, n as int),
    decreases n,
{
    if n > 0 {
        let m = (n - 1) as nat;
        lemma_items_in_line(entries, m, depth, root);
        let before = items_of(entries, m, depth, root);
        match item_of(entries[m as int], depth, root) {
            Some(i) => {
                lemma_pushed_in_line(before, i, entries, m as int, m as int);
            },
            None => {
                assert forall|j: int| 0 <= j < before.len() implies comes_from(
                    #[trigger] before[j],
                    entries,
                    n as int,
                ) by {
                    let i = choose|i: int|
                        0 <= i < m && item_path(before[j]) == (#[trigger] entries[i]).path;
                    assert(item_path(before[j]) == entries[i].path);
                }
            },
        }
    }
}

proof fn lemma_of_kind_ascends(entries: Seq<EntryView>, kind: AudioKind, n: nat)
    requires
        n <= entries.len(),
    ensures
        forall|i: int, j: int|
            0 <= i < j < of_kind(entries, kind, n).len() ==> #[trigger] of_kind(entries, kind, n)[i]
                < #[trigger] of_kind(entries, kind, n)[j],
    decreases n,
{
    if n > 0 {
        lemma_of_kind_ascends(entries, kind, (n - 1) as nat);
        lemma_of_kind(entries, kind, (n - 1) as nat);
    }
}

proof fn lemma_files_in_line(entries: Seq<EntryView>, at: Seq<int>, root: Seq<char>)
    requires
        entries_in_line(entries),
        forall|j: int| 0 <= j < at.len() ==> 0 <= #[trigger] at[j] < entries.len(),
        forall|i: int, j: int| 0 <= i < j < at.len() ==> #[trigger] at[i] < #[trigger] at[j],
    ensures
        are_in_line(inside_files(entries, at, root)),
        come_from(inside_files(entries, at, root), entries, if at.len() > 0 {
            at.last() + 1
        } else {
            0
        }),
    decreases at.len(),
{
    if at.len() > 0 {
        let front = at.drop_last();
        assert forall|j: int| 0 <= j < front.len() implies 0 <= #[trigger] front[j] < entries.len() by {
            assert(front[j] == at[j]);
        }
        assert forall|i: int, j: int| 0 <= i < j < front.len() implies #[trigger] front[i] < #[trigger] front[j] by {
            assert(front[i] == at[i] && front[j] == at[j]);
        }
        lemma_files_in_line(entries, front, root);
        let before = inside_files(entries, front, root);
        let m = at[at.len() - 1];
        let n = if front.len() > 0 {
            front.last() + 1
        } else {
            0
        };
        if front.len() > 0 {
            assert(at[at.len() - 2] == front.last());
            assert(at[at.len() - 2] < at[at.len() - 1]);
        }
        let e = entries[m];
        lemma_pushed_in_line(before, ItemView::Book(SourceView::File(e.path)), entries, n, m);
        if !is_contained(e.found, root) {
            assert forall|j: int| 0 <= j < before.len() implies comes_from(#[trigger] before[j], entries, m + 1) by {
                let i = choose|i: int| 0 <= i < n && item_path(before[j]) == (#[trigger] entries[i]).path;
                assert(item_path(before[j]) == entries[i].path);
            }
        }
    }
}

proof fn lemma_yield_in_line(dir: Seq<char>, depth: nat, entries: Seq<EntryView>, root: Seq<char>)
    requires
        is_listing(dir, entries),
    ensures
        are_in_line(yield_of(dir, depth, entries, root)),
        forall|j: int|
            0 <= j < yield_of(dir, depth, entries, root).len() ==> components(dir).is_prefix_of(
                components(item_path(#[trigger] yield_of(dir, depth, entries, root)[j])),
            ),
{
    let s = in_order(entries);
    let n = s.len();
    let d = components(dir);
    lemma_sorted_listing(dir, entries);
    lemma_items_in_line(s, n, depth, root);
    lemma_of_kind(s, AudioKind::M4x, n);
    lemma_of_kind(s, AudioKind::Mp3, n);
    lemma_of_kind(s, AudioKind::Tier2, n);
    lemma_of_kind_ascends(s, AudioKind::M4x, n);
    lemma_of_kind_ascends(s, AudioKind::Mp3, n);
    lemma_of_kind_ascends(s, AudioKind::Tier2, n);
    lemma_files_in_line(s, of_kind(s, AudioKind::M4x, n), root);
    lemma_files_in_line(s, of_kind(s, AudioKind::Mp3, n), root);
    lemma_files_in_line(s, of_kind(s, AudioKind::Tier2, n), root);
    let y = yield_of(dir, depth, entries, root);
    assert forall|j: int| 0 <= j < y.len() implies d.is_prefix_of(components(item_path(#[trigger] y[j]))) by {
        if y[j] == ItemView::Book(SourceView::Mp3Folder(dir)) {
            assert(d =~= d.subrange(0, d.len() as int));
        } else {
            let i = choose|i: int| 0 <= i < n && item_path(y[j]) == (#[trigger] s[i]).path;
            assert(0 <= i < n && item_path(y[j]) == s[i].path);
            assert(components(s[i].path) == d.push(entry_name(s[i])));
            assert(d =~= d.push(entry_name(s[i])).subrange(0, d.len() as int));
        }
    }
}

proof fn lemma_stays_in_line(w: WalkView, t: TreeView)
    requires
        is_tree(t),
        is_in_line(w),
    ensures
        is_in_line(taken_up(w, t)),
{
    if w.pending.len() > 0 {
        let top = w.pending.len() - 1;
        let rest = w.pending.drop_last();
        assert(w.pending.last() == w.pending[top]);
        let next = taken_up(w, t);
        match w.pending.last() {
            ItemView::Book(s) => {
                assert forall|i: int, j: int| 0 <= i < j < next.found.len() implies path_before(
                    source_path(#[trigger] next.found[i]),
                    source_path(#[trigger] next.found[j]),
                ) by {
                    if j == w.found.len() {
                        assert(path_before(source_path(w.found[i]), item_path(w.pending[top])));
                    } else {
                        assert(next.found[i] == w.found[i] && next.found[j] == w.found[j]);
                    }
                }
                assert forall|i: int, j: int|
                    0 <= i < next.found.len() && 0 <= j < next.pending.len() implies path_before(
                    source_path(#[trigger] next.found[i]),
                    item_path(#[trigger] next.pending[j]),
                ) by {
                    assert(next.pending[j] == w.pending[j]);
                    if i < w.found.len() {
                        assert(next.found[i] == w.found[i]);
                    } else {
                        assert(path_before(item_path(w.pending[top]), item_path(w.pending[j])));
                    }
                }
            },
            ItemView::Dir(d, n) => {
                let y = if is_entered(d, n, t.place(d), t.root, t.data_root, w.visited) {
                    t.yields(d, n)
                } else {
                    Seq::empty()
                };
                if t.listings.dom().contains(d) {
                    assert(is_listing(d, t.listings[d]));
                    lemma_yield_in_line(d, n, t.listings[d], t.root);
                }
                assert(next.pending =~= rest + y.reverse());
                let k = rest.len() as int;
                let last = y.len() - 1;
                assert forall|i: int, j: int| 0 <= i < j < next.pending.len() implies path_before(
                    item_path(#[trigger] next.pending[j]),
                    item_path(#[trigger] next.pending[i]),
                ) by {
                    if j < k {
                        assert(next.pending[i] == w.pending[i] && next.pending[j] == w.pending[j]);
                    } else if i < k {
                        assert(next.pending[i] == w.pending[i]);
                        assert(next.pending[j] == y[last - (j - k)]);
                        assert(path_before(item_path(w.pending[top]), item_path(w.pending[i])));
                        lemma_deeper_stays_ahead(
                            components(d),
                            components(item_path(y[last - (j - k)])),
                            components(item_path(w.pending[i])),
                        );
                    } else {
                        assert(next.pending[i] == y[last - (i - k)]);
                        assert(next.pending[j] == y[last - (j - k)]);
                    }
                }
                assert forall|i: int, j: int|
                    0 <= i < next.found.len() && 0 <= j < next.pending.len() implies path_before(
                    source_path(#[trigger] next.found[i]),
                    item_path(#[trigger] next.pending[j]),
                ) by {
                    assert(next.found[i] == w.found[i]);
                    if j < k {
                        assert(next.pending[j] == w.pending[j]);
                    } else {
                        assert(next.pending[j] == y[last - (j - k)]);
                        assert(path_before(source_path(w.found[i]), item_path(w.pending[top])));
                        lemma_deeper_stays_behind(
                            components(source_path(w.found[i])),
                            components(d),
                            components(item_path(y[last - (j - k)])),
                        );
                    }
                }
            },
        }
    }
}

/// The order of paths is strict: no path stands before itself, nor two before each other.
pub proof fn law_path_order_is_strict(a: Seq<char>, b: Seq<char>)
    requires
        path_before(a, b),
    ensures
        a != b,
        !path_before(b, a),
{
    let x = components(a);
    let y = components(b);
    let k = choose|k: int| parts_at(x, y, k);
    lemma_text_le_total(x[k], y[k]);
    if path_before(b, a) {
        let m = choose|m: int| parts_at(y, x, m);
        if k < m {
            assert(x.take(m)[k] == x[k] && y.take(m)[k] == y[k]);
        } else if m < k {
            assert(x.take(k)[m] == x[m] && y.take(k)[m] == y[m]);
        }
    }
}

/// The books of a library come out in the order of their paths, each path once: at any time of a
/// walk, every book that was found stands before those found after it, and before all that is
/// still to come.
pub proof fn law_books_come_out_by_path(library: Seq<char>, t: TreeView, n: nat)
    requires
        is_tree(t),
    ensures
        is_in_line(
            walked(
                WalkView {
                    pending: seq![ItemView::Dir(library, 0)],
                    visited: Seq::empty(),
                    found: Seq::empty(),
                },
                t,
                n,
            ),
        ),
    decreases n,
{
    if n > 0 {
        law_books_come_out_by_path(library, t, (n - 1) as nat);
        let start = WalkView {
            pending: seq![ItemView::Dir(library, 0)],
            visited: Seq::empty(),
            found: Seq::empty(),
        };
        lemma_stays_in_line(walked(start, t, (n - 1) as nat), t);
    }
}

// ---- Nothing is passed over -----------------------------------------------

proof fn lemma_entries_are_sorted(entries: Seq<EntryView>)
    ensures
        all_among(entries, in_order(entries)),
        in_order(entries).len() == entries.len(),
{
    let le = by_text(entry_names(entries));
    let order = stable_order(le, entries.len());
    lemma_by_text_is_total(entry_names(entries));
    lemma_stable_order(le, entries.len());
    let sorted = in_order(entries);
    assert forall|i: int| 0 <= i < entries.len() implies sorted.contains(#[trigger] entries[i]) by {
        assert(order.contains(i));
        let k = choose|k: int| 0 <= k < order.len() && order[k] == i;
        assert(sorted[k] == entries[i]);
    }
}

proof fn lemma_of_kind_is_complete(entries: Seq<EntryView>, kind: AudioKind, n: nat, i: int)
    requires
        0 <= i < n <= entries.len(),
        entries[i].is_file,
        kind_of(entries[i].path) == kind,
    ensures
        of_kind(entries, kind, n).contains(i),
    decreases n,
{
    let rest = of_kind(entries, kind, (n - 1) as nat);
    let all = of_kind(entries, kind, n);
    if i == n - 1 {
        assert(all[rest.len() as int] == i);
    } else {
        lemma_of_kind_is_complete(entries, kind, (n - 1) as nat, i);
        let k = choose|k: int| 0 <= k < rest.len() && rest[k] == i;
        assert(all[k] == i);
    }
}

proof fn lemma_none_of_kind(entries: Seq<EntryView>, kind: AudioKind, n: nat)
    requires
        n <= entries.len(),
        forall|i: int| 0 <= i < n ==> !((#[trigger] entries[i]).is_file && kind_of(entries[i].path) == kind),
    ensures
        of_kind(entries, kind, n).len() == 0,
    decreases n,
{
    if n > 0 {
        lemma_none_of_kind(entries, kind, (n - 1) as nat);
        assert(!(entries[n - 1].is_file && kind_of(entries[n - 1].path) == kind));
    }
}

proof fn lemma_inside_files_is_complete(entries: Seq<EntryView>, at: Seq<int>, root: Seq<char>, i: int)
    requires
        at.contains(i),
        is_contained(entries[i].found, root),
    ensures
        inside_files(entries, at, root).contains(ItemView::Book(SourceView::File(entries[i].path))),
    decreases at.len(),
{
    let b = ItemView::Book(SourceView::File(entries[i].path));
    let rest = inside_files(entries, at.drop_last(), root);
    let all = inside_files(entries, at, root);
    let k = choose|k: int| 0 <= k < at.len() && at[k] == i;
    if k == at.len() - 1 {
        assert(all[rest.len() as int] == b);
    } else {
        assert(at.drop_last()[k] == i);
        lemma_inside_files_is_complete(entries, at.drop_last(), root, i);
        let j = choose|j: int| 0 <= j < rest.len() && rest[j] == b;
        assert(all[j] == b);
    }
}

proof fn lemma_items_are_complete(entries: Seq<EntryView>, n: nat, depth: nat, root: Seq<char>, i: int)
    requires
        0 <= i < n <= entries.len(),
        item_of(entries[i], depth, root) is Some,
    ensures
        items_of(entries, n, depth, root).contains(item_of(entries[i], depth, root)->0),
    decreases n,
{
    let x = item_of(entries[i], depth, root)->0;
    let rest = items_of(entries, (n - 1) as nat, depth, root);
    let all = items_of(entries, n, depth, root);
    if i == n - 1 {
        assert(all[rest.len() as int] == x);
    } else {
        lemma_items_are_complete(entries, (n - 1) as nat, depth, root, i);
        let j = choose|j: int| 0 <= j < rest.len() && rest[j] == x;
        assert(all[j] == x);
    }
}

/// Every audio file at the top of the library is a book, and every directory there is entered
/// next, unless it is one that no scan looks at. Protected files, and files that really lie
/// elsewhere, are not books.
pub proof fn law_top_level_is_taken_whole(dir: Seq<char>, entries: Seq<EntryView>, root: Seq<char>, k: int)
    requires
        0 <= k < entries.len(),
    ensures
        ({
            let e = entries[k];
            let items = yield_of(dir, 0, entries, root);
            let hidden = file_name(e.path) is Some && is_ignored(file_name(e.path)->0);
            &&& e.is_file && kind_of(e.path) != AudioKind::Other && !drm(e.path) && e.found is Some && is_under(
                e.found->0,
                root,
            ) ==> items.contains(ItemView::Book(SourceView::File(e.path)))
            &&& e.is_dir && !e.is_file && !hidden ==> items.contains(ItemView::Dir(e.path, 1))
        }),
{
    let e = entries[k];
    let sorted = in_order(entries);
    lemma_entries_are_sorted(entries);
    assert(sorted.contains(entries[k]));
    let i = choose|i: int| 0 <= i < sorted.len() && sorted[i] == e;
    if item_of(e, 0, root) is Some {
        lemma_items_are_complete(sorted, sorted.len(), 0, root, i);
    }
}

/// In a folder with `.m4b` or `.m4a` files each of them that really lies in the library is a book,
/// and nothing below the folder is looked at.
pub proof fn law_every_m4b_of_a_folder_is_a_book(
    dir: Seq<char>,
    depth: nat,
    entries: Seq<EntryView>,
    root: Seq<char>,
    k: int,
)
    requires
        depth > 0,
        0 <= k < entries.len(),
        entries[k].is_file,
        kind_of(entries[k].path) == AudioKind::M4x,
        entries[k].found is Some && is_under(entries[k].found->0, root),
    ensures
        yield_of(dir, depth, entries, root).contains(ItemView::Book(SourceView::File(entries[k].path))),
        forall|j: int|
            0 <= j < yield_of(dir, depth, entries, root).len() ==> (#[trigger] yield_of(
                dir,
                depth,
                entries,
                root,
            )[j]) is Book,
{
    let sorted = in_order(entries);
    lemma_entries_are_sorted(entries);
    assert(sorted.contains(entries[k]));
    let i = choose|i: int| 0 <= i < sorted.len() && sorted[i] == entries[k];
    lemma_of_kind_is_complete(sorted, AudioKind::M4x, sorted.len(), i);
    let m4x = of_kind(sorted, AudioKind::M4x, sorted.len());
    assert(m4x.len() > 0);
    lemma_inside_files_is_complete(sorted, m4x, root, i);
    let books = books_in(dir, sorted, root);
    assert(books.contains(ItemView::Book(SourceView::File(entries[k].path))));
    assert(books.len() > 0);
    lemma_books_in(dir, depth, sorted, root);
}

proof fn lemma_no_files_of_kind(entries: Seq<EntryView>, kind: AudioKind)
    requires
        forall|i: int|
            0 <= i < entries.len() ==> !((#[trigger] entries[i]).is_file && kind_of(entries[i].path) == kind),
    ensures
        of_kind(in_order(entries), kind, in_order(entries).len()).len() == 0,
{
    let sorted = in_order(entries);
    lemma_sorted_are_entries(entries);
    assert forall|i: int| 0 <= i < sorted.len() implies !((#[trigger] sorted[i]).is_file && kind_of(sorted[i].path)
        == kind) by {
        assert(entries.contains(sorted[i]));
        let k = choose|k: int| 0 <= k < entries.len() && entries[k] == sorted[i];
        assert(!(entries[k].is_file && kind_of(entries[k].path) == kind));
    }
    lemma_none_of_kind(sorted, kind, sorted.len());
}

/// A folder with two MP3 files or more, and no `.m4b` or `.m4a`, is one book: the folder itself.
pub proof fn law_folder_of_tracks_is_one_book(
    dir: Seq<char>,
    depth: nat,
    entries: Seq<EntryView>,
    root: Seq<char>,
    k: int,
    l: int,
)
    requires
        depth > 0,
        forall|i: int|
            0 <= i < entries.len() ==> !((#[trigger] entries[i]).is_file && kind_of(entries[i].path)
                == AudioKind::M4x),
        0 <= k < entries.len(),
        0 <= l < entries.len(),
        entries[k] != entries[l],
        entries[k].is_file && kind_of(entries[k].path) == AudioKind::Mp3,
        entries[l].is_file && kind_of(entries[l].path) == AudioKind::Mp3,
    ensures
        yield_of(dir, depth, entries, root) == seq![ItemView::Book(SourceView::Mp3Folder(dir))],
{
    let sorted = in_order(entries);
    lemma_entries_are_sorted(entries);
    lemma_no_files_of_kind(entries, AudioKind::M4x);
    assert(sorted.contains(entries[k]) && sorted.contains(entries[l]));
    let a = choose|i: int| 0 <= i < sorted.len() && sorted[i] == entries[k];
    let b = choose|i: int| 0 <= i < sorted.len() && sorted[i] == entries[l];
    lemma_of_kind_is_complete(sorted, AudioKind::Mp3, sorted.len(), a);
    lemma_of_kind_is_complete(sorted, AudioKind::Mp3, sorted.len(), b);
    let mp3 = of_kind(sorted, AudioKind::Mp3, sorted.len());
    let x = choose|x: int| 0 <= x < mp3.len() && mp3[x] == a;
    let y = choose|y: int| 0 <= y < mp3.len() && mp3[y] == b;
    assert(x != y);
    assert(mp3.len() > 1);
}

proof fn lemma_only_one(entries: Seq<EntryView>, kind: AudioKind, n: nat, i: int)
    requires
        0 <= i < n <= entries.len(),
        entries[i].is_file && kind_of(entries[i].path) == kind,
        forall|j: int|
            0 <= j < n && j != i ==> !((#[trigger] entries[j]).is_file && kind_of(entries[j].path) == kind),
    ensures
        of_kind(entries, kind, n) == seq![i],
    decreases n,
{
    if i == n - 1 {
        lemma_none_of_kind(entries, kind, (n - 1) as nat);
    } else {
        lemma_only_one(entries, kind, (n - 1) as nat, i);
        assert(!(entries[n - 1].is_file && kind_of(entries[n - 1].path) == kind));
    }
    assert(of_kind(entries, kind, n) =~= seq![i]);
}

proof fn lemma_only_file(entries: Seq<EntryView>, kind: AudioKind, root: Seq<char>, k: int)
    requires
        0 <= k < entries.len(),
        entries[k].is_file && kind_of(entries[k].path) == kind,
        forall|j: int|
            0 <= j < entries.len() && j != k ==> !((#[trigger] entries[j]).is_file && kind_of(entries[j].path) == kind),
        is_contained(entries[k].found, root),
    ensures
        ({
            let sorted = in_order(entries);
            let at = of_kind(sorted, kind, sorted.len());
            at.len() == 1 && inside_files(sorted, at, root) == seq![ItemView::Book(SourceView::File(entries[k].path))]
        }),
{
    let le = by_text(entry_names(entries));
    let order = stable_order(le, entries.len());
    lemma_by_text_is_total(entry_names(entries));
    lemma_stable_order(le, entries.len());
    let sorted = in_order(entries);
    assert(order.contains(k));
    let i = choose|i: int| 0 <= i < order.len() && order[i] == k;
    assert(sorted[i] == entries[k]);
    assert forall|j: int| 0 <= j < sorted.len() && j != i implies !((#[trigger] sorted[j]).is_file && kind_of(
        sorted[j].path,
    ) == kind) by {
        assert(sorted[j] == entries[order[j]]);
        if j < i {
            assert(before(le, order[j], order[i]));
        } else {
            assert(before(le, order[i], order[j]));
        }
        assert(order[j] != k);
    }
    lemma_only_one(sorted, kind, sorted.len(), i);
    let at = of_kind(sorted, kind, sorted.len());
    reveal_with_fuel(inside_files, 2);
    assert(at.drop_last() =~= Seq::empty());
    assert(at.last() == i);
    assert(inside_files(sorted, at, root) =~= seq![ItemView::Book(SourceView::File(entries[k].path))]);
}

/// The only MP3 file of a folder without `.m4b` and `.m4a` is a book; so is the only Ogg, Opus or
/// FLAC file of a folder without any of these and without MP3 files.
pub proof fn law_only_audio_file_of_a_folder_is_a_book(
    dir: Seq<char>,
    depth: nat,
    entries: Seq<EntryView>,
    root: Seq<char>,
    k: int,
)
    requires
        depth > 0,
        0 <= k < entries.len(),
        entries[k].is_file,
        kind_of(entries[k].path) == AudioKind::Mp3 || kind_of(entries[k].path) == AudioKind::Tier2,
        entries[k].found is Some && is_under(entries[k].found->0, root),
        forall|j: int|
            0 <= j < entries.len() && j != k && (#[trigger] entries[j]).is_file ==> kind_of(entries[j].path)
                == AudioKind::Other,
    ensures
        yield_of(dir, depth, entries, root) == seq![ItemView::Book(SourceView::File(entries[k].path))],
{
    let kind = kind_of(entries[k].path);
    lemma_no_files_of_kind(entries, AudioKind::M4x);
    lemma_only_file(entries, kind, root, k);
    if kind == AudioKind::Tier2 {
        lemma_no_files_of_kind(entries, AudioKind::Mp3);
    }
}

/// A folder without audio is no book: each of its directories is entered next, a level deeper,
/// unless it is one that no scan looks at.
pub proof fn law_folders_without_audio_are_searched(
    dir: Seq<char>,
    depth: nat,
    entries: Seq<EntryView>,
    root: Seq<char>,
    k: int,
)
    requires
        depth > 0,
        0 <= k < entries.len(),
        forall|j: int|
            0 <= j < entries.len() && (#[trigger] entries[j]).is_file ==> kind_of(entries[j].path) == AudioKind::Other,
        entries[k].is_dir && !entries[k].is_file,
        !(file_name(entries[k].path) is Some && is_ignored(file_name(entries[k].path)->0)),
    ensures
        yield_of(dir, depth, entries, root).contains(ItemView::Dir(entries[k].path, depth + 1)),
{
    let sorted = in_order(entries);
    lemma_entries_are_sorted(entries);
    lemma_no_files_of_kind(entries, AudioKind::M4x);
    lemma_no_files_of_kind(entries, AudioKind::Mp3);
    lemma_no_files_of_kind(entries, AudioKind::Tier2);
    assert(sorted.contains(entries[k]));
    let i = choose|i: int| 0 <= i < sorted.len() && sorted[i] == entries[k];
    lemma_items_are_complete(sorted, sorted.len(), depth, root, i);
}

/// No directory that a scan passes over is entered: none whose name starts with a dot, and none of
/// those in which a system keeps things of its own. Each is entered one level deeper.
pub proof fn law_hidden_directories_are_passed_over(
    dir: Seq<char>,
    depth: nat,
    entries: Seq<EntryView>,
    root: Seq<char>,
    d: Seq<char>,
    level: nat,
)
    requires
        yield_of(dir, depth, entries, root).contains(ItemView::Dir(d, level)),
    ensures
        level == depth + 1,
        file_name(d) matches Some(name) ==> {
            &&& name.len() > 0 ==> name[0] != '.'
            &&& name != "@eaDir"@
            &&& name != "lost+found"@
        },
{
    let items = yield_of(dir, depth, entries, root);
    let j = choose|j: int| 0 <= j < items.len() && items[j] == ItemView::Dir(d, level);
    law_walk_stays_inside(dir, depth, entries, root, j);
}

/// A book that lies two folders deep is named after both, from the outer to the inner; a file there
/// takes its title from the inner one. One that lies right in the library, or one folder deep, is
/// named after itself.
pub proof fn law_nested_books_are_named_by_their_folders(
    root: Seq<char>,
    a: Seq<char>,
    b: Seq<char>,
    stem: Seq<char>,
    ext: Seq<char>,
)
    requires
        is_plain_name(a) && a != ".."@,
        is_plain_name(b) && b != ".."@,
        stem.len() > 0,
        has_no_slash(stem),
        ext.len() > 0,
        has_no_slash(ext),
        !ext.contains('.'),
    ensures
        ({
            let name = stem + seq!['.'] + ext;
            let outer = joined(root, a);
            let inner = joined(outer, b);
            &&& base_name_of(SourceView::File(joined(inner, name)), root) == a + " - "@ + b
            &&& base_name_of(SourceView::Mp3Folder(inner), root) == a + " - "@ + b
            &&& title_by_folder(SourceView::File(joined(inner, name)), root) == Some(b)
            &&& base_name_of(SourceView::File(joined(outer, name)), root) == stem
            &&& base_name_of(SourceView::File(joined(root, name)), root) == stem
            &&& base_name_of(SourceView::Mp3Folder(outer), root) == a
            &&& title_by_folder(SourceView::File(joined(outer, name)), root) is None
        }),
{
    let name = stem + seq!['.'] + ext;
    let outer = joined(root, a);
    let inner = joined(outer, b);
    lemma_name_parts(stem, ext);
    law_joined_lies_inside(root, a);
    law_joined_lies_inside(outer, b);
    law_joined_lies_inside(inner, name);
    law_joined_lies_inside(outer, name);
    law_joined_lies_inside(root, name);
    reveal_strlit("/");
    reveal_strlit(".");
    assert("/"@.len() == 1 && "/"@[0] == '/' && "."@.len() == 1);
    assert(a[0] != '/' && b[0] != '/' && name[0] == stem[0] && stem[0] != '/');
    let r = components(root);
    assert(components(inner) == r.push(a).push(b));
    assert(components(joined(inner, name)).last() == name);
    assert(components(joined(inner, name)).drop_last() =~= components(inner));
    assert(components(joined(outer, name)).drop_last() =~= components(outer));
    assert(components(joined(root, name)).drop_last() =~= r);
    assert(components(joined(outer, name)).last() == name && components(joined(root, name)).last() == name);
    assert(r =~= components(inner).subrange(0, r.len() as int));
    assert(components(inner).skip(r.len() as int) =~= seq![a, b]);
    reveal_with_fuel(join_names, 3);
    assert(seq![a, b].drop_last() =~= seq![a]);
    assert(join_names(seq![a, b], " - "@) =~= a + " - "@ + b);
    assert(components(inner).last() == b);
    assert(components(outer).last() == a);
}

} // verus!
