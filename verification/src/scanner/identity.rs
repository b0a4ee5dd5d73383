//! Which id each book of a library has, and which records of the index go.
//!
//! A book's feed goes with its id. So a book that is indexed keeps its id, and
//! no book ever gets the id of another.

use vstd::prelude::*;
use crate::scanner::library::{base_name_of, BookSource};
use crate::scanner::{assign_slug, is_first_free, slug_choice, slug_of, slugify, ScanSummary};
use crate::sorting::positions;
use crate::text::{opt_eq, opt_text, str_eq, texts};

verus! {

/// A source that was found, with what its path really is, if that could be looked up.
#[derive(Debug)]
pub struct FoundSource {
    pub source: BookSource,
    pub found: Option<String>,
}

/// What the index knows of a book: its id, its source, and what that really is now, if it still
/// exists.
#[derive(Debug)]
pub struct IndexedSource {
    pub id: String,
    pub source_path: String,
    pub found: Option<String>,
}

/// Whether an indexed book has another source than `s`: by what the two really are, else by name.
/// That the source of the book is gone does not free its id.
pub open spec fn has_other_source(row: IndexedSource, s: FoundSource) -> bool {
    if row.found is Some && s.found is Some {
        opt_text(row.found) != opt_text(s.found)
    } else {
        row.source_path@ != s.source@.path()
    }
}

/// Whether an indexed book has another source.
pub fn owns_a_different_source(row: &IndexedSource, s: &FoundSource) -> (r: bool)
    ensures
        r == has_other_source(*row, *s),
        row.found is Some && s.found is Some ==> (r <==> row.found->0@ != s.found->0@),
        row.found is None || s.found is None ==> (r <==> row.source_path@ != s.source@.path()),
{
    if row.found.is_some() && s.found.is_some() {
        !opt_eq(&row.found, &s.found)
    } else {
        !str_eq(row.source_path.as_str(), s.source.path())
    }
}

/// The ids of those of the first `n` books that have another source than `s`.
pub open spec fn held_against(rows: Seq<IndexedSource>, s: FoundSource, n: nat) -> Seq<Seq<char>>
    decreases n,
{
    if n == 0 {
        Seq::empty()
    } else {
        let before = held_against(rows, s, (n - 1) as nat);
        if has_other_source(rows[n - 1], s) {
            before.push(rows[n - 1].id@)
        } else {
            before
        }
    }
}

fn ids_held(rows: &Vec<IndexedSource>, s: &FoundSource) -> (r: Vec<String>)
    ensures
        texts(r@) == held_against(rows@, *s, rows@.len()),
        r@.len() <= rows@.len(),
{
    let mut r: Vec<String> = Vec::new();
    let mut i: usize = 0;
    assert(texts(r@) =~= Seq::<Seq<char>>::empty());
    while i < rows.len()
        invariant
            i <= rows.len(),
            r@.len() <= i,
            texts(r@) == held_against(rows@, *s, i as nat),
        decreases rows.len() - i,
    {
        if owns_a_different_source(&rows[i], s) {
            let ghost was = r@;
            r.push(rows[i].id.clone());
            assert(texts(r@) =~= texts(was).push(rows@[i as int].id@));
        }
        i = i + 1;
    }
    r
}

/// The id under which a source is indexed: that of the last of the first `n` books with its path.
pub open spec fn indexed_id(rows: Seq<IndexedSource>, s: FoundSource, n: nat) -> Option<Seq<char>>
    decreases n,
{
    if n == 0 || s.found is None {
        None
    } else if Some(rows[n - 1].source_path@) == opt_text(s.found) {
        Some(rows[n - 1].id@)
    } else {
        indexed_id(rows, s, (n - 1) as nat)
    }
}

fn id_in_index(rows: &Vec<IndexedSource>, s: &FoundSource) -> (r: Option<String>)
    ensures
        opt_text(r) == indexed_id(rows@, *s, rows@.len()),
{
    match &s.found {
        Some(f) => {
            let mut i: usize = rows.len();
            while i > 0
                invariant
                    i <= rows.len(),
                    s.found == Some(*f),
                    indexed_id(rows@, *s, rows@.len()) == indexed_id(rows@, *s, i as nat),
                decreases i,
            {
                if str_eq(rows[i - 1].source_path.as_str(), f.as_str()) {
                    return Some(rows[i - 1].id.clone());
                }
                i = i - 1;
            }
            None
        },
        None => None,
    }
}

/// Whether `id` is the id of source `i`, given those of the sources before it: the one that it is
/// indexed under, else the first slug of its name that is free.
pub open spec fn is_id_at(
    id: Seq<char>,
    i: int,
    before: Seq<Seq<char>>,
    sources: Seq<FoundSource>,
    rows: Seq<IndexedSource>,
    root: Seq<char>,
) -> bool {
    let s = sources[i];
    match indexed_id(rows, s, rows.len()) {
        Some(known) => id == known,
        None => exists|n: nat| #[trigger]
            is_first_free(
                slug_of(base_name_of(s.source@, root)),
                n,
                before,
                held_against(rows, s, rows.len()),
            ) && id == slug_choice(slug_of(base_name_of(s.source@, root)), n),
    }
}

/// Gives each source its id, in order.
pub fn assign_ids(sources: &Vec<FoundSource>, rows: &Vec<IndexedSource>, root: &str) -> (r: Vec<String>)
    requires
        sources.len() + rows.len() < u64::MAX,
    ensures
        r@.len() == sources@.len(),
        forall|i: int|
            0 <= i < r@.len() ==> is_id_at(
                (#[trigger] texts(r@)[i]),
                i,
                texts(r@).take(i),
                sources@,
                rows@,
                root@,
            ),
{
    let mut r: Vec<String> = Vec::new();
    let mut k: usize = 0;
    while k < sources.len()
        invariant
            k <= sources.len(),
            sources.len() + rows.len() < u64::MAX,
            r@.len() == k,
            forall|i: int|
                0 <= i < k ==> is_id_at(
                    (#[trigger] texts(r@)[i]),
                    i,
                    texts(r@).take(i),
                    sources@,
                    rows@,
                    root@,
                ),
        decreases sources.len() - k,
    {
        let s = &sources[k];
        let ghost before = texts(r@);
        match id_in_index(rows, s) {
            Some(id) => {
                r.push(id);
            },
            None => {
                let held = ids_held(rows, s);
                let name = s.source.base_name(root);
                let base = slugify(name.as_str());
                let _ = assign_slug(base.as_str(), &mut r, &held);
            },
        }
        proof {
            assert(texts(r@) =~= before.push(texts(r@)[k as int]));
            assert forall|i: int| 0 <= i < k + 1 implies is_id_at(
                (#[trigger] texts(r@)[i]),
                i,
                texts(r@).take(i),
                sources@,
                rows@,
                root@,
            ) by {
                assert(texts(r@).take(i) =~= before.take(i));
                if i < k {
                    assert(texts(r@)[i] == before[i]);
                } else {
                    assert(before.take(i) =~= before);
                }
            }
        }
        k = k + 1;
    }
    r
}

proof fn lemma_held(rows: Seq<IndexedSource>, s: FoundSource, n: nat, k: int)
    requires
        0 <= k < n <= rows.len(),
        has_other_source(rows[k], s),
    ensures
        held_against(rows, s, n).contains(rows[k].id@),
    decreases n,
{
    let before = held_against(rows, s, (n - 1) as nat);
    if k < n - 1 {
        lemma_held(rows, s, (n - 1) as nat, k);
        let j = choose|j: int| 0 <= j < before.len() && before[j] == rows[k].id@;
        assert(held_against(rows, s, n)[j] == rows[k].id@);
    } else {
        assert(held_against(rows, s, n).last() == rows[k].id@);
    }
}

proof fn lemma_indexed(rows: Seq<IndexedSource>, s: FoundSource, n: nat)
    requires
        n <= rows.len(),
        indexed_id(rows, s, n) is Some,
    ensures
        exists|k: int|
            0 <= k < n && (#[trigger] rows[k]).id@ == indexed_id(rows, s, n)->0 && Some(rows[k].source_path@)
                == opt_text(s.found),
    decreases n,
{
    if Some(rows[n - 1].source_path@) == opt_text(s.found) {
        assert(rows[n - 1].id@ == indexed_id(rows, s, n)->0);
    } else {
        lemma_indexed(rows, s, (n - 1) as nat);
    }
}

/// Whether what the index says of sources is as a file system can be: each id once, and the path of
/// an indexed source that was found again is what it really is.
pub open spec fn are_sane(rows: Seq<IndexedSource>, sources: Seq<FoundSource>) -> bool {
    &&& forall|i: int, j: int|
        0 <= i < j < rows.len() ==> (#[trigger] rows[i]).id@ != (#[trigger] rows[j]).id@
    &&& forall|k: int, i: int|
        #![trigger rows[k], sources[i]]
        0 <= k < rows.len() && 0 <= i < sources.len() && Some(rows[k].source_path@) == opt_text(
            sources[i].found,
        ) ==> opt_text(rows[k].found) == opt_text(sources[i].found)
}

/// No book gets the id of an indexed book with another source: a subscriber never gets another
/// audiobook under the address that they have.
pub proof fn law_no_id_is_taken_over(
    ids: Seq<Seq<char>>,
    sources: Seq<FoundSource>,
    rows: Seq<IndexedSource>,
    root: Seq<char>,
    i: int,
    k: int,
)
    requires
        are_sane(rows, sources),
        0 <= i < sources.len(),
        ids.len() == sources.len(),
        is_id_at(ids[i], i, ids.take(i), sources, rows, root),
        0 <= k < rows.len(),
        has_other_source(rows[k], sources[i]),
    ensures
        ids[i] != rows[k].id@,
{
    let s = sources[i];
    match indexed_id(rows, s, rows.len()) {
        Some(known) => {
            lemma_indexed(rows, s, rows.len());
            let j = choose|j: int|
                0 <= j < rows.len() && (#[trigger] rows[j]).id@ == known && Some(rows[j].source_path@)
                    == opt_text(s.found);
            assert(opt_text(rows[j].found) == opt_text(sources[i].found));
            assert(j != k);
            if j < k {
                assert(rows[j].id@ != rows[k].id@);
            } else {
                assert(rows[k].id@ != rows[j].id@);
            }
        },
        None => {
            lemma_held(rows, s, rows.len(), k);
        },
    }
}

/// Two books of a library never have the same id.
pub proof fn law_ids_are_distinct(
    ids: Seq<Seq<char>>,
    sources: Seq<FoundSource>,
    rows: Seq<IndexedSource>,
    root: Seq<char>,
    i: int,
    j: int,
)
    requires
        are_sane(rows, sources),
        0 <= i < j < sources.len(),
        ids.len() == sources.len(),
        is_id_at(ids[i], i, ids.take(i), sources, rows, root),
        is_id_at(ids[j], j, ids.take(j), sources, rows, root),
        sources[i].found is Some,
        sources[j].found is Some,
        opt_text(sources[i].found) != opt_text(sources[j].found),
    ensures
        ids[i] != ids[j],
{
    let s = sources[i];
    let t = sources[j];
    match indexed_id(rows, t, rows.len()) {
        Some(known) => {
            lemma_indexed(rows, t, rows.len());
            let k = choose|k: int|
                0 <= k < rows.len() && (#[trigger] rows[k]).id@ == known && Some(rows[k].source_path@)
                    == opt_text(t.found);
            assert(opt_text(rows[k].found) == opt_text(sources[j].found));
            assert(has_other_source(rows[k], s));
            law_no_id_is_taken_over(ids, sources, rows, root, i, k);
        },
        None => {
            assert(ids.take(j)[i] == ids[i]);
            assert(ids.take(j).contains(ids[i]));
        },
    }
}

/// A source that is indexed keeps its id in every scan, whatever its name would give.
pub proof fn law_indexed_book_keeps_its_id(
    id: Seq<char>,
    i: int,
    before: Seq<Seq<char>>,
    sources: Seq<FoundSource>,
    rows: Seq<IndexedSource>,
    root: Seq<char>,
    k: int,
)
    requires
        0 <= i < sources.len(),
        0 <= k < rows.len(),
        is_id_at(id, i, before, sources, rows, root),
        sources[i].found is Some,
        Some(rows[k].source_path@) == opt_text(sources[i].found),
        forall|m: int|
            0 <= m < rows.len() && m != k ==> (#[trigger] rows[m]).source_path@ != rows[k].source_path@,
    ensures
        id == rows[k].id@,
{
    lemma_indexed_at(rows, sources[i], rows.len(), k);
}

proof fn lemma_indexed_at(rows: Seq<IndexedSource>, s: FoundSource, n: nat, k: int)
    requires
        0 <= k < n <= rows.len(),
        s.found is Some,
        Some(rows[k].source_path@) == opt_text(s.found),
        forall|m: int|
            0 <= m < rows.len() && m != k ==> (#[trigger] rows[m]).source_path@ != rows[k].source_path@,
    ensures
        indexed_id(rows, s, n) == Some(rows[k].id@),
    decreases n,
{
    if k < n - 1 {
        assert(rows[n - 1].source_path@ != rows[k].source_path@);
        lemma_indexed_at(rows, s, (n - 1) as nat, k);
    }
}

// ---- Records that go ------------------------------------------------------

/// Whether the book at `i` has a source that a book before it has already.
pub open spec fn is_duplicate(found: Seq<Option<String>>, i: int) -> bool {
    opt_text(found[i]) is Some && exists|j: int|
        0 <= j < i && opt_text(#[trigger] found[j]) == opt_text(found[i])
}

/// The positions below `n` of books whose source a book before them has already.
pub open spec fn duplicates(found: Seq<Option<String>>, n: nat) -> Seq<int>
    decreases n,
{
    if n == 0 {
        Seq::empty()
    } else {
        let before = duplicates(found, (n - 1) as nat);
        if is_duplicate(found, n - 1) {
            before.push(n - 1)
        } else {
            before
        }
    }
}

fn has_earlier(found: &Vec<Option<String>>, i: usize) -> (r: bool)
    requires
        i < found.len(),
    ensures
        r == is_duplicate(found@, i as int),
{
    if found[i].is_none() {
        return false;
    }
    let mut j: usize = 0;
    while j < i
        invariant
            j <= i < found.len(),
            opt_text(found@[i as int]) is Some,
            forall|k: int| 0 <= k < j ==> opt_text(#[trigger] found@[k]) != opt_text(found@[i as int]),
        decreases i - j,
    {
        if opt_eq(&found[j], &found[i]) {
            return true;
        }
        j = j + 1;
    }
    false
}

/// The books that go because one before them has the same source. `found` are the sources of all
/// indexed books, oldest first: the oldest stays, since its feed is the one that was subscribed to.
/// A source that is gone is no one's duplicate.
pub fn duplicate_rows(found: &Vec<Option<String>>) -> (r: Vec<usize>)
    ensures
        positions(r@) == duplicates(found@, found@.len()),
{
    let mut r: Vec<usize> = Vec::new();
    let mut i: usize = 0;
    assert(positions(r@) =~= Seq::<int>::empty());
    while i < found.len()
        invariant
            i <= found.len(),
            positions(r@) == duplicates(found@, i as nat),
        decreases found.len() - i,
    {
        if has_earlier(found, i) {
            let ghost was = r@;
            r.push(i);
            assert(positions(r@) =~= positions(was).push(i as int));
        }
        i = i + 1;
    }
    r
}

proof fn lemma_duplicates(found: Seq<Option<String>>, n: nat, i: int)
    requires
        n <= found.len(),
    ensures
        duplicates(found, n).contains(i) <==> 0 <= i < n && is_duplicate(found, i),
    decreases n,
{
    if n > 0 {
        lemma_duplicates(found, (n - 1) as nat, i);
        let before = duplicates(found, (n - 1) as nat);
        let all = duplicates(found, n);
        if before.contains(i) {
            let k = choose|k: int| 0 <= k < before.len() && before[k] == i;
            assert(all[k] == i);
        }
        if i == n - 1 && is_duplicate(found, i) {
            assert(all.last() == i);
        }
        if all.contains(i) && !before.contains(i) {
            let k = choose|k: int| 0 <= k < all.len() && all[k] == i;
            if k < before.len() {
                assert(before[k] == i);
            }
        }
    }
}

/// A book goes as a duplicate exactly if its source is there and an older book has the same.
pub proof fn law_duplicates_have_an_older_twin(found: Seq<Option<String>>, i: int)
    requires
        0 <= i < found.len(),
    ensures
        duplicates(found, found.len()).contains(i) <==> found[i] is Some && exists|j: int|
            0 <= j < i && (#[trigger] found[j]) is Some && found[j]->0@ == found[i]->0@,
{
    lemma_duplicates(found, found.len(), i);
    if is_duplicate(found, i) {
        let j = choose|j: int| 0 <= j < i && opt_text(#[trigger] found[j]) == opt_text(found[i]);
        assert(found[j] is Some && found[j]->0@ == found[i]->0@);
    }
    if found[i] is Some && exists|j: int|
        0 <= j < i && (#[trigger] found[j]) is Some && found[j]->0@ == found[i]->0@ {
        let j = choose|j: int| 0 <= j < i && (#[trigger] found[j]) is Some && found[j]->0@ == found[i]->0@;
        assert(opt_text(found[j]) == opt_text(found[i]));
    }
}

/// The position of the first book with the source of the book at `i`.
pub open spec fn first_with(found: Seq<Option<String>>, i: int, from: int) -> int
    decreases i - from,
{
    if from >= i || opt_text(found[from]) == opt_text(found[i]) {
        from
    } else {
        first_with(found, i, from + 1)
    }
}

proof fn lemma_first_with(found: Seq<Option<String>>, i: int, from: int)
    requires
        0 <= from <= i < found.len(),
    ensures
        from <= first_with(found, i, from) <= i,
        opt_text(found[first_with(found, i, from)]) == opt_text(found[i]),
        forall|k: int|
            from <= k < first_with(found, i, from) ==> opt_text(#[trigger] found[k]) != opt_text(found[i]),
    decreases i - from,
{
    if from < i && opt_text(found[from]) != opt_text(found[i]) {
        lemma_first_with(found, i, from + 1);
    }
}

/// One source, one book: of the books with one source exactly one stays, and that is the oldest. A
/// library that is not there, with every source gone, loses nothing.
pub proof fn law_one_book_for_each_source(found: Seq<Option<String>>, i: int, j: int)
    requires
        0 <= i < found.len(),
        0 <= j < found.len(),
        opt_text(found[i]) == opt_text(found[j]),
    ensures
        opt_text(found[i]) is None ==> !duplicates(found, found.len()).contains(i),
        opt_text(found[i]) is Some ==> (duplicates(found, found.len()).contains(i) <==> first_with(found, i, 0)
            != i),
        opt_text(found[i]) is Some && !duplicates(found, found.len()).contains(i) && !duplicates(
            found,
            found.len(),
        ).contains(j) ==> i == j,
{
    lemma_duplicates(found, found.len(), i);
    lemma_duplicates(found, found.len(), j);
    lemma_first_with(found, i, 0);
    if is_duplicate(found, i) {
        let k = choose|k: int| 0 <= k < i && opt_text(#[trigger] found[k]) == opt_text(found[i]);
        if first_with(found, i, 0) == i {
            assert(opt_text(found[k]) != opt_text(found[i]));
        }
    }
    if first_with(found, i, 0) < i {
        assert(opt_text(found[first_with(found, i, 0)]) == opt_text(found[i]));
    }
    if i < j {
        assert(opt_text(found[i]) == opt_text(found[j]));
    } else if j < i {
        assert(opt_text(found[j]) == opt_text(found[i]));
    }
}

/// The positions below `n` of books whose source is gone.
pub open spec fn gone(exists_now: Seq<bool>, n: nat) -> Seq<int>
    decreases n,
{
    if n == 0 {
        Seq::empty()
    } else {
        let before = gone(exists_now, (n - 1) as nat);
        if exists_now[n - 1] {
            before
        } else {
            before.push(n - 1)
        }
    }
}

/// The books that go because their source is gone. If the library itself is empty or cannot be
/// read, none go: it may just not be mounted, and the whole index would be lost.
pub fn orphans(root_has_entries: bool, exists_now: &Vec<bool>) -> (r: Vec<usize>)
    ensures
        positions(r@) == if root_has_entries {
            gone(exists_now@, exists_now@.len())
        } else {
            Seq::empty()
        },
        !root_has_entries ==> r@.len() == 0,
{
    let mut r: Vec<usize> = Vec::new();
    assert(positions(r@) =~= Seq::<int>::empty());
    if !root_has_entries {
        return r;
    }
    let mut i: usize = 0;
    while i < exists_now.len()
        invariant
            i <= exists_now.len(),
            positions(r@) == gone(exists_now@, i as nat),
        decreases exists_now.len() - i,
    {
        if !exists_now[i] {
            let ghost was = r@;
            r.push(i);
            assert(positions(r@) =~= positions(was).push(i as int));
        }
        i = i + 1;
    }
    r
}

/// A book whose source is there is never taken out.
pub proof fn law_present_books_stay(exists_now: Seq<bool>, n: nat, i: int)
    requires
        n <= exists_now.len(),
    ensures
        gone(exists_now, n).contains(i) <==> 0 <= i < n && !exists_now[i],
    decreases n,
{
    if n > 0 {
        law_present_books_stay(exists_now, (n - 1) as nat, i);
        let before = gone(exists_now, (n - 1) as nat);
        let all = gone(exists_now, n);
        if before.contains(i) {
            let k = choose|k: int| 0 <= k < before.len() && before[k] == i;
            assert(all[k] == i);
        }
        if i == n - 1 && !exists_now[i] {
            assert(all.last() == i);
        }
        if all.contains(i) && !before.contains(i) {
            let k = choose|k: int| 0 <= k < all.len() && all[k] == i;
            if k < before.len() {
                assert(before[k] == i);
            }
        }
    }
}

// ---- Counting -------------------------------------------------------------

/// What became of a source.
#[derive(Debug, Clone, Copy, PartialEq, Eq, Structural)]
pub enum Outcome {
    /// It was indexed, or was up to date.
    Indexed,
    /// It failed, or is switched off.
    Skipped,
}

/// How many of the first `n` outcomes are `o`.
pub open spec fn count_of(outcomes: Seq<Outcome>, o: Outcome, n: nat) -> nat
    decreases n,
{
    if n == 0 {
        0
    } else {
        let before = count_of(outcomes, o, (n - 1) as nat);
        if outcomes[n - 1] == o {
            before + 1
        } else {
            before
        }
    }
}

proof fn lemma_later_outcomes_do_not_count(outcomes: Seq<Outcome>, last: Outcome, o: Outcome, n: nat)
    requires
        n <= outcomes.len(),
    ensures
        count_of(outcomes.push(last), o, n) == count_of(outcomes, o, n),
    decreases n,
{
    if n > 0 {
        lemma_later_outcomes_do_not_count(outcomes, last, o, (n - 1) as nat);
    }
}

/// Every outcome is counted under its own kind, once: with no outcome nothing is counted, and one
/// more raises the count of its own kind by one and no other.
pub proof fn law_every_outcome_counts_once(outcomes: Seq<Outcome>, last: Outcome, o: Outcome)
    ensures
        count_of(Seq::empty(), o, 0) == 0,
        last == o ==> count_of(outcomes.push(last), o, outcomes.len() + 1) == count_of(
            outcomes,
            o,
            outcomes.len(),
        ) + 1,
        last != o ==> count_of(outcomes.push(last), o, outcomes.len() + 1) == count_of(
            outcomes,
            o,
            outcomes.len(),
        ),
{
    lemma_later_outcomes_do_not_count(outcomes, last, o, outcomes.len());
}

/// Sums up a scan. One that fails does not keep the others from being scanned.
pub fn summarize(outcomes: &Vec<Outcome>, pruned: usize) -> (r: ScanSummary)
    ensures
        r.indexed == count_of(outcomes@, Outcome::Indexed, outcomes@.len()),
        r.skipped == count_of(outcomes@, Outcome::Skipped, outcomes@.len()),
        r.indexed + r.skipped == outcomes@.len(),
        r.pruned == pruned,
{
    let mut indexed: usize = 0;
    let mut skipped: usize = 0;
    let mut i: usize = 0;
    while i < outcomes.len()
        invariant
            i <= outcomes.len(),
            indexed == count_of(outcomes@, Outcome::Indexed, i as nat),
            skipped == count_of(outcomes@, Outcome::Skipped, i as nat),
            indexed + skipped == i,
        decreases outcomes.len() - i,
    {
        if outcomes[i] == Outcome::Indexed {
            indexed = indexed + 1;
        } else {
            skipped = skipped + 1;
        }
        i = i + 1;
    }
    ScanSummary { indexed, skipped, pruned }
}

} // verus!
