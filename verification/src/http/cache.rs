//! What leaves the cache of chapters that were made on demand.
//!
//! Only files that can be made again leave it, and never the one that was just
//! served. Those that are too old go first; then, if there is still too much,
//! the oldest go until there is not.

use vstd::prelude::*;
use crate::paths::{file_stem_of, has_no_slash, joined, path_stem};
use crate::sorting::{before, by_number, ints, lemma_by_number_is_total, lemma_stable_order, order_by_number, positions, stable_order};
use crate::splitter::{episode_name, is_episode_stem, is_numbered, law_episode_file_tells_its_number};
use crate::text::{holds_text, str_eq, texts};

verus! {

/// Nanoseconds in a second.
pub const NANOS: i128 = 1_000_000_000;

/// One entry of a book's directory.
#[derive(Debug)]
pub struct CacheEntry {
    /// The book's directory.
    pub dir: String,
    /// Path of the entry.
    pub path: String,
    /// Whether it is a file.
    pub is_file: bool,
    /// Size in bytes.
    pub len: u64,
    /// Modification time, in nanoseconds since 1970.
    pub mtime: i64,
}

/// Whether an entry may leave the cache at all: a chapter file of a book that can be made again.
pub open spec fn is_candidate(e: CacheEntry, regenerable: Seq<Seq<char>>) -> bool {
    &&& regenerable.contains(e.dir@)
    &&& e.is_file
    &&& file_stem_of(e.path@) is Some
    &&& is_numbered(file_stem_of(e.path@)->0)
}

/// Whether an entry is older than `ttl` seconds at the time `now`.
pub open spec fn is_expired(e: CacheEntry, now: int, ttl: Option<u64>, keep: Seq<char>) -> bool {
    ttl is Some && e.path@ != keep && now - e.mtime > ttl->0 * NANOS
}

/// The places among the first `n` that are candidates, and too old (or not).
pub open spec fn sorted_out(
    entries: Seq<CacheEntry>,
    regenerable: Seq<Seq<char>>,
    now: int,
    ttl: Option<u64>,
    keep: Seq<char>,
    old: bool,
    n: nat,
) -> Seq<int>
    decreases n,
{
    if n == 0 {
        Seq::empty()
    } else {
        let rest = sorted_out(entries, regenerable, now, ttl, keep, old, (n - 1) as nat);
        if is_candidate(entries[n - 1], regenerable) && is_expired(entries[n - 1], now, ttl, keep) == old {
            rest.push(n - 1)
        } else {
            rest
        }
    }
}

/// The size of the entries at the given places.
pub open spec fn size_of_all(entries: Seq<CacheEntry>, at: Seq<int>) -> nat
    decreases at.len(),
{
    if at.len() == 0 {
        0
    } else {
        size_of_all(entries, at.drop_last()) + entries[at.last()].len as nat
    }
}

/// The times of the entries at the given places.
pub open spec fn times(entries: Seq<CacheEntry>, at: Seq<int>) -> Seq<int> {
    at.map_values(|i: int| entries[i].mtime as int)
}

/// The entries at the given places, oldest first.
pub open spec fn oldest_first(entries: Seq<CacheEntry>, at: Seq<int>) -> Seq<int> {
    stable_order(by_number(times(entries, at)), at.len()).map_values(|k: int| at[k])
}

/// The first at or after `from` that is not the file to keep; `order.len()` if there is none.
pub open spec fn next_in(entries: Seq<CacheEntry>, order: Seq<int>, from: int, keep: Seq<char>) -> int
    decreases order.len() - from,
{
    if from < 0 || from >= order.len() {
        order.len() as int
    } else if entries[order[from]].path@ != keep {
        from
    } else {
        next_in(entries, order, from + 1, keep)
    }
}

/// What is left of `total` when `len` is taken away.
pub open spec fn minus(total: nat, len: nat) -> nat {
    if len <= total {
        (total - len) as nat
    } else {
        0
    }
}

/// The entries that leave, from `from` on, until no more than `cap` is left of `total`.
pub open spec fn leaving(
    entries: Seq<CacheEntry>,
    order: Seq<int>,
    from: int,
    total: nat,
    cap: nat,
    keep: Seq<char>,
) -> Seq<int>
    decreases order.len() - from,
    when 0 <= from <= order.len()
    via leaving_decreases
{
    let k = next_in(entries, order, from, keep);
    if total <= cap || k >= order.len() {
        Seq::empty()
    } else {
        seq![order[k]] + leaving(
            entries,
            order,
            k + 1,
            minus(total, entries[order[k]].len as nat),
            cap,
            keep,
        )
    }
}

#[via_fn]
proof fn leaving_decreases(
    entries: Seq<CacheEntry>,
    order: Seq<int>,
    from: int,
    total: nat,
    cap: nat,
    keep: Seq<char>,
) {
    lemma_next_in(entries, order, from, keep);
}

proof fn lemma_next_in(entries: Seq<CacheEntry>, order: Seq<int>, from: int, keep: Seq<char>)
    requires
        0 <= from <= order.len(),
    ensures
        from <= next_in(entries, order, from, keep) <= order.len(),
        next_in(entries, order, from, keep) < order.len() ==> entries[order[next_in(
            entries,
            order,
            from,
            keep,
        )]].path@ != keep,
        forall|i: int|
            from <= i < next_in(entries, order, from, keep) ==> entries[#[trigger] order[i]].path@ == keep,
    decreases order.len() - from,
{
    if from < order.len() && entries[order[from]].path@ == keep {
        lemma_next_in(entries, order, from + 1, keep);
    }
}

/// What is to leave the cache.
#[derive(Debug)]
pub struct EvictionPlan {
    /// Places of the entries that are too old.
    pub expired: Vec<usize>,
    /// Places of the others, oldest first.
    pub order: Vec<usize>,
    /// Size of the others.
    pub total: u128,
}

/// Whether `p` sorts `entries` out: the candidates that are too old; the other candidates, oldest
/// first; and the size of those.
pub open spec fn is_plan(
    p: EvictionPlan,
    entries: Seq<CacheEntry>,
    regenerable: Seq<Seq<char>>,
    now: int,
    ttl: Option<u64>,
    keep: Seq<char>,
) -> bool {
    let n = entries.len();
    let fresh = sorted_out(entries, regenerable, now, ttl, keep, false, n);
    &&& positions(p.expired@) == sorted_out(entries, regenerable, now, ttl, keep, true, n)
    &&& positions(p.order@) == oldest_first(entries, fresh)
    &&& p.total == size_of_all(entries, fresh)
    &&& forall|i: int| 0 <= i < p.order@.len() ==> #[trigger] p.order@[i] < n
    &&& forall|i: int| 0 <= i < p.expired@.len() ==> #[trigger] p.expired@[i] < n
}

fn candidate(e: &CacheEntry, regenerable: &Vec<String>) -> (r: bool)
    ensures
        r == is_candidate(*e, texts(regenerable@)),
{
    if !e.is_file || !holds_text(regenerable, e.dir.as_str()) {
        return false;
    }
    match path_stem(e.path.as_str()) {
        Some(s) => is_episode_stem(s.as_str()),
        None => false,
    }
}

fn expired(e: &CacheEntry, now: i64, ttl: Option<u64>, keep: &str) -> (r: bool)
    ensures
        r == is_expired(*e, now as int, ttl, keep@),
{
    match ttl {
        Some(t) => {
            proof {
                assert(0 <= (t as int) * 1_000_000_000 <= 0xffff_ffff_ffff_ffff * 1_000_000_000) by (nonlinear_arith)
                    requires
                        0 <= t <= 0xffff_ffff_ffff_ffff,
                ;
            }
            let age: i128 = now as i128 - e.mtime as i128;
            !str_eq(e.path.as_str(), keep) && age > (t as i128) * NANOS
        },
        None => false,
    }
}

proof fn lemma_size_bound(entries: Seq<CacheEntry>, at: Seq<int>)
    ensures
        size_of_all(entries, at) <= at.len() * 0xffff_ffff_ffff_ffff,
    decreases at.len(),
{
    if at.len() > 0 {
        lemma_size_bound(entries, at.drop_last());
    }
}

/// Sorts the entries of the cache out. `regenerable` are the directories of the books that can be
/// made again, `keep` is the file that was just served.
pub fn plan_eviction(
    entries: &Vec<CacheEntry>,
    regenerable: &Vec<String>,
    now: i64,
    ttl: Option<u64>,
    keep: &str,
) -> (r: EvictionPlan)
    ensures
        is_plan(r, entries@, texts(regenerable@), now as int, ttl, keep@),
{
    let ghost re = texts(regenerable@);
    let mut gone: Vec<usize> = Vec::new();
    let mut fresh: Vec<usize> = Vec::new();
    let mut keys: Vec<i128> = Vec::new();
    let mut total: u128 = 0;
    let mut i: usize = 0;
    assert(positions(gone@) =~= Seq::empty());
    assert(positions(fresh@) =~= Seq::empty());
    while i < entries.len()
        invariant
            i <= entries.len(),
            re == texts(regenerable@),
            positions(gone@) == sorted_out(entries@, re, now as int, ttl, keep@, true, i as nat),
            positions(fresh@) == sorted_out(entries@, re, now as int, ttl, keep@, false, i as nat),
            fresh@.len() == keys@.len(),
            fresh@.len() <= i,
            total == size_of_all(entries@, positions(fresh@)),
            forall|j: int| 0 <= j < gone@.len() ==> #[trigger] gone@[j] < i,
            forall|j: int| 0 <= j < fresh@.len() ==> #[trigger] fresh@[j] < i,
            forall|j: int| 0 <= j < fresh@.len() ==> #[trigger] keys@[j] == entries@[fresh@[j] as int].mtime,
        decreases entries.len() - i,
    {
        let e = &entries[i];
        if candidate(e, regenerable) {
            if expired(e, now, ttl, keep) {
                let ghost was = positions(gone@);
                gone.push(i);
                assert(positions(gone@) =~= was.push(i as int));
            } else {
                let ghost was = positions(fresh@);
                proof {
                    lemma_size_bound(entries@, was);
                    assert(was.len() * 0xffff_ffff_ffff_ffff <= 0xffff_ffff_ffff_ffff * 0xffff_ffff_ffff_ffff)
                        by (nonlinear_arith)
                        requires
                            was.len() <= 0xffff_ffff_ffff_ffff,
                    ;
                }
                total = total + e.len as u128;
                fresh.push(i);
                keys.push(e.mtime as i128);
                assert(positions(fresh@) =~= was.push(i as int));
                assert(positions(fresh@).drop_last() =~= was);
            }
        }
        i = i + 1;
    }
    let by_age = order_by_number(&keys);
    let ghost at = positions(fresh@);
    assert(ints(keys@) =~= times(entries@, at));
    let mut order: Vec<usize> = Vec::new();
    let mut k: usize = 0;
    while k < by_age.len()
        invariant
            k <= by_age.len(),
            by_age.len() == fresh.len(),
            by_age.len() == keys.len(),
            order@.len() == k,
            forall|j: int| 0 <= j < by_age.len() ==> #[trigger] by_age[j] < keys.len(),
            forall|j: int| 0 <= j < fresh@.len() ==> #[trigger] fresh@[j] < entries@.len(),
            forall|j: int| 0 <= j < k ==> #[trigger] order@[j] == fresh@[by_age@[j] as int],
            forall|j: int| 0 <= j < k ==> #[trigger] order@[j] < entries@.len(),
        decreases by_age.len() - k,
    {
        order.push(fresh[by_age[k]]);
        k = k + 1;
    }
    proof {
        let ranks = stable_order(by_number(times(entries@, at)), at.len());
        assert(positions(by_age@) == ranks);
        assert forall|j: int| 0 <= j < order@.len() implies positions(order@)[j] == oldest_first(
            entries@,
            at,
        )[j] by {
            assert(ranks[j] == by_age@[j]);
            assert(order@[j] == fresh@[by_age@[j] as int]);
            assert(at[by_age@[j] as int] == fresh@[by_age@[j] as int]);
        }
        assert(positions(order@) =~= oldest_first(entries@, at));
    }
    EvictionPlan { expired: gone, order, total }
}

/// The next entry that leaves, as its place in `order`: none once no more than `cap` is left of
/// `total`, or nothing but the file to keep.
pub fn next_victim(
    entries: &Vec<CacheEntry>,
    order: &Vec<usize>,
    from: usize,
    total: u128,
    cap: u64,
    keep: &str,
) -> (r: Option<usize>)
    requires
        from <= order.len(),
        forall|i: int| 0 <= i < order@.len() ==> #[trigger] order@[i] < entries@.len(),
    ensures
        match r {
            Some(k) => total > cap && k == next_in(entries@, positions(order@), from as int, keep@) && from
                <= k < order.len(),
            None => total <= cap || next_in(entries@, positions(order@), from as int, keep@) >= order.len(),
        },
{
    if total <= cap as u128 {
        return None;
    }
    let mut k: usize = from;
    while k < order.len()
        invariant
            from <= k <= order.len(),
            total > cap,
            forall|i: int| 0 <= i < order@.len() ==> #[trigger] order@[i] < entries@.len(),
            next_in(entries@, positions(order@), from as int, keep@) == next_in(
                entries@,
                positions(order@),
                k as int,
                keep@,
            ),
        decreases order.len() - k,
    {
        assert(positions(order@)[k as int] == order@[k as int]);
        if !str_eq(entries[order[k]].path.as_str(), keep) {
            return Some(k);
        }
        k = k + 1;
    }
    None
}

/// What is left of `total` when a file of `len` bytes has gone.
pub fn after_removal(total: u128, len: u64) -> (r: u128)
    ensures
        r == minus(total as nat, len as nat),
        len <= total ==> r == total - len,
        len > total ==> r == 0,
{
    total.saturating_sub(len as u128)
}

/// The entries that leave the cache.
pub open spec fn evicted(
    entries: Seq<CacheEntry>,
    regenerable: Seq<Seq<char>>,
    now: int,
    cap: Option<u64>,
    ttl: Option<u64>,
    keep: Seq<char>,
) -> Seq<int> {
    let n = entries.len();
    let fresh = sorted_out(entries, regenerable, now, ttl, keep, false, n);
    let old = sorted_out(entries, regenerable, now, ttl, keep, true, n);
    match cap {
        Some(c) => old + leaving(
            entries,
            oldest_first(entries, fresh),
            0,
            size_of_all(entries, fresh),
            c as nat,
            keep,
        ),
        None => old,
    }
}

/// The places of the entries that leave the cache, in the order they do, if every one of them can
/// be deleted.
pub fn evict(
    entries: &Vec<CacheEntry>,
    regenerable: &Vec<String>,
    now: i64,
    cap: Option<u64>,
    ttl: Option<u64>,
    keep: &str,
) -> (r: Vec<usize>)
    ensures
        positions(r@) == evicted(entries@, texts(regenerable@), now as int, cap, ttl, keep@),
        forall|i: int| 0 <= i < r@.len() ==> #[trigger] r@[i] < entries@.len(),
{
    let plan = plan_eviction(entries, regenerable, now, ttl, keep);
    let ghost order = positions(plan.order@);
    let mut out = plan.expired;
    let ghost old = positions(out@);
    let mut total = plan.total;
    let mut from: usize = 0;
    match cap {
        None => {},
        Some(c) => {
            let ghost all = old + leaving(entries@, order, 0, total as nat, c as nat, keep@);
            loop
                invariant_except_break
                    from <= plan.order.len(),
                    order == positions(plan.order@),
                    forall|i: int| 0 <= i < plan.order@.len() ==> #[trigger] plan.order@[i] < entries@.len(),
                    forall|i: int| 0 <= i < out@.len() ==> #[trigger] out@[i] < entries@.len(),
                    all == positions(out@) + leaving(
                        entries@,
                        order,
                        from as int,
                        total as nat,
                        c as nat,
                        keep@,
                    ),
                ensures
                    all == positions(out@),
                    forall|i: int| 0 <= i < out@.len() ==> #[trigger] out@[i] < entries@.len(),
                decreases plan.order.len() - from,
            {
                match next_victim(entries, &plan.order, from, total, c, keep) {
                    None => {
                        proof {
                            assert(leaving(entries@, order, from as int, total as nat, c as nat, keep@)
                                =~= Seq::empty());
                            assert(all =~= positions(out@));
                        }
                        break;
                    },
                    Some(k) => {
                        let victim = plan.order[k];
                        let ghost was = positions(out@);
                        let ghost rest = leaving(
                            entries@,
                            order,
                            k + 1,
                            minus(total as nat, entries@[victim as int].len as nat),
                            c as nat,
                            keep@,
                        );
                        assert(order[k as int] == victim);
                        out.push(victim);
                        assert(positions(out@) =~= was.push(victim as int));
                        assert(was + (seq![victim as int] + rest) =~= positions(out@) + rest);
                        total = after_removal(total, entries[victim].len);
                        from = k + 1;
                    },
                }
            }
        },
    }
    out
}

// ---- What holds of it -----------------------------------------------------

proof fn lemma_sorted_out(
    entries: Seq<CacheEntry>,
    regenerable: Seq<Seq<char>>,
    now: int,
    ttl: Option<u64>,
    keep: Seq<char>,
    old: bool,
    n: nat,
)
    requires
        n <= entries.len(),
    ensures
        ({
            let s = sorted_out(entries, regenerable, now, ttl, keep, old, n);
            forall|i: int|
                0 <= i < s.len() ==> {
                    &&& 0 <= #[trigger] s[i] < n
                    &&& is_candidate(entries[s[i]], regenerable)
                    &&& is_expired(entries[s[i]], now, ttl, keep) == old
                }
        }),
    decreases n,
{
    if n > 0 {
        lemma_sorted_out(entries, regenerable, now, ttl, keep, old, (n - 1) as nat);
        let rest = sorted_out(entries, regenerable, now, ttl, keep, old, (n - 1) as nat);
        let s = sorted_out(entries, regenerable, now, ttl, keep, old, n);
        assert forall|i: int| 0 <= i < s.len() implies {
            &&& 0 <= #[trigger] s[i] < n
            &&& is_candidate(entries[s[i]], regenerable)
            &&& is_expired(entries[s[i]], now, ttl, keep) == old
        } by {
            if i < rest.len() {
                assert(s[i] == rest[i]);
            } else {
                assert(s[i] == n - 1);
            }
        }
    }
}

proof fn lemma_oldest_first(entries: Seq<CacheEntry>, at: Seq<int>)
    ensures
        ({
            let o = oldest_first(entries, at);
            &&& o.len() == at.len()
            &&& forall|i: int| 0 <= i < o.len() ==> at.contains(#[trigger] o[i])
            &&& forall|i: int, j: int|
                0 <= i < j < o.len() ==> entries[#[trigger] o[i]].mtime <= entries[#[trigger] o[j]].mtime
        }),
{
    let le = by_number(times(entries, at));
    let ranks = stable_order(le, at.len());
    lemma_by_number_is_total(times(entries, at));
    lemma_stable_order(le, at.len());
    let o = oldest_first(entries, at);
    assert forall|i: int| 0 <= i < o.len() implies at.contains(#[trigger] o[i]) by {
        assert(o[i] == at[ranks[i]]);
    }
    assert forall|i: int, j: int| 0 <= i < j < o.len() implies entries[#[trigger] o[i]].mtime
        <= entries[#[trigger] o[j]].mtime by {
        assert(before(le, ranks[i], ranks[j]));
        assert(o[i] == at[ranks[i]] && o[j] == at[ranks[j]]);
    }
}

proof fn lemma_leaving(
    entries: Seq<CacheEntry>,
    order: Seq<int>,
    from: int,
    total: nat,
    cap: nat,
    keep: Seq<char>,
)
    requires
        0 <= from <= order.len(),
    ensures
        ({
            let l = leaving(entries, order, from, total, cap, keep);
            &&& forall|i: int| 0 <= i < l.len() ==> order.contains(#[trigger] l[i])
            &&& forall|i: int| 0 <= i < l.len() ==> entries[#[trigger] l[i]].path@ != keep
            &&& minus(total, size_of_all(entries, l)) <= cap || (forall|k: int|
                from <= k < order.len() ==> entries[#[trigger] order[k]].path@ == keep || l.contains(
                    order[k],
                ))
        }),
    decreases order.len() - from,
{
    let k = next_in(entries, order, from, keep);
    lemma_next_in(entries, order, from, keep);
    let l = leaving(entries, order, from, total, cap, keep);
    if total <= cap || k >= order.len() {
        assert(size_of_all(entries, l) == 0);
    } else {
        let left = minus(total, entries[order[k]].len as nat);
        let rest = leaving(entries, order, k + 1, left, cap, keep);
        lemma_leaving(entries, order, k + 1, left, cap, keep);
        assert(l == seq![order[k]] + rest);
        lemma_size_of_front(entries, order[k], rest);
        assert forall|i: int| 0 <= i < l.len() implies order.contains(#[trigger] l[i]) && entries[l[i]].path@
            != keep by {
            if i > 0 {
                assert(l[i] == rest[i - 1]);
            }
        }
        if minus(total, size_of_all(entries, l)) > cap {
            assert forall|j: int| from <= j < order.len() implies entries[#[trigger] order[j]].path@ == keep
                || l.contains(order[j]) by {
                if j == k {
                    assert(l[0] == order[k]);
                } else if j > k {
                    if rest.contains(order[j]) {
                        let m = choose|m: int| 0 <= m < rest.len() && rest[m] == order[j];
                        assert(l[m + 1] == order[j]);
                    }
                }
            }
        }
    }
}

proof fn lemma_size_of_front(entries: Seq<CacheEntry>, first: int, rest: Seq<int>)
    ensures
        size_of_all(entries, seq![first] + rest) == entries[first].len as nat + size_of_all(entries, rest),
    decreases rest.len(),
{
    let all = seq![first] + rest;
    if rest.len() == 0 {
        reveal_with_fuel(size_of_all, 2);
        assert(all.drop_last() =~= Seq::empty());
        assert(all.last() == first);
    } else {
        lemma_size_of_front(entries, first, rest.drop_last());
        assert(all.drop_last() =~= seq![first] + rest.drop_last());
        assert(all.last() == rest.last());
    }
}

/// Nothing leaves the cache but chapter files of books that can be made again, and never the file
/// that was just served.
pub proof fn law_evicted_can_be_made_again(
    entries: Seq<CacheEntry>,
    regenerable: Seq<Seq<char>>,
    now: int,
    cap: Option<u64>,
    ttl: Option<u64>,
    keep: Seq<char>,
    i: int,
)
    requires
        0 <= i < evicted(entries, regenerable, now, cap, ttl, keep).len(),
    ensures
        ({
            let e = entries[evicted(entries, regenerable, now, cap, ttl, keep)[i]];
            &&& is_candidate(e, regenerable)
            &&& regenerable.contains(e.dir@)
            &&& e.is_file
            &&& file_stem_of(e.path@) is Some
            &&& is_numbered(file_stem_of(e.path@)->0)
            &&& e.path@ != keep
        }),
{
    let n = entries.len();
    let fresh = sorted_out(entries, regenerable, now, ttl, keep, false, n);
    let old = sorted_out(entries, regenerable, now, ttl, keep, true, n);
    lemma_sorted_out(entries, regenerable, now, ttl, keep, false, n);
    lemma_sorted_out(entries, regenerable, now, ttl, keep, true, n);
    let all = evicted(entries, regenerable, now, cap, ttl, keep);
    if i < old.len() {
        assert(all[i] == old[i]);
    } else {
        let order = oldest_first(entries, fresh);
        lemma_oldest_first(entries, fresh);
        let l = leaving(entries, order, 0, size_of_all(entries, fresh), cap->0 as nat, keep);
        lemma_leaving(entries, order, 0, size_of_all(entries, fresh), cap->0 as nat, keep);
        assert(all[i] == l[i - old.len()]);
        assert(order.contains(l[i - old.len()]));
        let k = choose|k: int| 0 <= k < order.len() && order[k] == l[i - old.len()];
        assert(fresh.contains(order[k]));
    }
}

proof fn lemma_sorted_out_is_complete(
    entries: Seq<CacheEntry>,
    regenerable: Seq<Seq<char>>,
    now: int,
    ttl: Option<u64>,
    keep: Seq<char>,
    old: bool,
    n: nat,
    i: int,
)
    requires
        0 <= i < n <= entries.len(),
        is_candidate(entries[i], regenerable),
        is_expired(entries[i], now, ttl, keep) == old,
    ensures
        sorted_out(entries, regenerable, now, ttl, keep, old, n).contains(i),
    decreases n,
{
    let rest = sorted_out(entries, regenerable, now, ttl, keep, old, (n - 1) as nat);
    let s = sorted_out(entries, regenerable, now, ttl, keep, old, n);
    if i == n - 1 {
        assert(s[rest.len() as int] == i);
    } else {
        lemma_sorted_out_is_complete(entries, regenerable, now, ttl, keep, old, (n - 1) as nat, i);
        let k = choose|k: int| 0 <= k < rest.len() && rest[k] == i;
        assert(s[k] == i);
    }
}

/// With a limit of age and no cap, a chapter file of a book that can be made again leaves if and
/// only if it is not the file that was just served and more than `ttl` seconds have gone by since
/// it was written. Times are in nanoseconds. No other entry leaves.
pub proof fn law_age_limit_is_in_seconds(
    entries: Seq<CacheEntry>,
    regenerable: Seq<Seq<char>>,
    now: int,
    ttl: u64,
    keep: Seq<char>,
    i: int,
)
    requires
        0 <= i < entries.len(),
    ensures
        evicted(entries, regenerable, now, None, Some(ttl), keep).contains(i) <==> {
            &&& regenerable.contains(entries[i].dir@)
            &&& entries[i].is_file
            &&& file_stem_of(entries[i].path@) is Some
            &&& is_numbered(file_stem_of(entries[i].path@)->0)
            &&& entries[i].path@ != keep
            &&& entries[i].mtime + ttl * 1_000_000_000 < now
        },
{
    let n = entries.len();
    lemma_sorted_out(entries, regenerable, now, Some(ttl), keep, true, n);
    let s = sorted_out(entries, regenerable, now, Some(ttl), keep, true, n);
    if s.contains(i) {
        let k = choose|k: int| 0 <= k < s.len() && s[k] == i;
        assert(is_candidate(entries[s[k]], regenerable));
    }
    if is_candidate(entries[i], regenerable) && is_expired(entries[i], now, Some(ttl), keep) {
        lemma_sorted_out_is_complete(entries, regenerable, now, Some(ttl), keep, true, n, i);
    }
}

/// What is too old leaves under any cap; and what is younger than the limit of age leaves only
/// where a cap is set.
pub proof fn law_age_limit_holds_under_a_cap(
    entries: Seq<CacheEntry>,
    regenerable: Seq<Seq<char>>,
    now: int,
    cap: Option<u64>,
    ttl: Option<u64>,
    keep: Seq<char>,
    i: int,
)
    requires
        0 <= i < entries.len(),
    ensures
        ttl is Some && evicted(entries, regenerable, now, None, ttl, keep).contains(i) ==> evicted(
            entries,
            regenerable,
            now,
            cap,
            ttl,
            keep,
        ).contains(i),
        cap is None && (ttl is None || entries[i].mtime + ttl->0 * 1_000_000_000 >= now) ==> !evicted(
            entries,
            regenerable,
            now,
            cap,
            ttl,
            keep,
        ).contains(i),
{
    let n = entries.len();
    let old = sorted_out(entries, regenerable, now, ttl, keep, true, n);
    let all = evicted(entries, regenerable, now, cap, ttl, keep);
    lemma_sorted_out(entries, regenerable, now, ttl, keep, true, n);
    if old.contains(i) {
        let k = choose|k: int| 0 <= k < old.len() && old[k] == i;
        assert(all[k] == i);
        assert(is_candidate(entries[old[k]], regenerable));
    }
}

/// Without a cap and without a limit of age nothing leaves.
pub proof fn law_unbounded_cache_keeps_all(
    entries: Seq<CacheEntry>,
    regenerable: Seq<Seq<char>>,
    now: int,
    keep: Seq<char>,
)
    ensures
        evicted(entries, regenerable, now, None, None, keep).len() == 0,
{
    lemma_sorted_out(entries, regenerable, now, None, keep, true, entries.len());
    let s = sorted_out(entries, regenerable, now, None, keep, true, entries.len());
    if s.len() > 0 {
        assert(0 <= s[0]);
    }
}

/// When a cap is set, what is left of the candidates is within it, unless nothing but the file
/// that was just served is left.
pub proof fn law_cap_is_met(
    entries: Seq<CacheEntry>,
    regenerable: Seq<Seq<char>>,
    now: int,
    cap: u64,
    ttl: Option<u64>,
    keep: Seq<char>,
)
    ensures
        ({
            let fresh = sorted_out(entries, regenerable, now, ttl, keep, false, entries.len());
            let order = oldest_first(entries, fresh);
            let l = leaving(entries, order, 0, size_of_all(entries, fresh), cap as nat, keep);
            ||| minus(size_of_all(entries, fresh), size_of_all(entries, l)) <= cap
            ||| forall|k: int|
                0 <= k < order.len() ==> entries[#[trigger] order[k]].path@ == keep || l.contains(order[k])
        }),
{
    let fresh = sorted_out(entries, regenerable, now, ttl, keep, false, entries.len());
    let order = oldest_first(entries, fresh);
    lemma_leaving(entries, order, 0, size_of_all(entries, fresh), cap as nat, keep);
}

/// What leaves for want of space leaves oldest first.
pub proof fn law_oldest_leaves_first(entries: Seq<CacheEntry>, at: Seq<int>, i: int, j: int)
    requires
        0 <= i < j < at.len(),
    ensures
        entries[oldest_first(entries, at)[i]].mtime <= entries[oldest_first(entries, at)[j]].mtime,
{
    lemma_oldest_first(entries, at);
}

/// The size of the first `n` entries that `f` holds of.
pub open spec fn size_where(entries: Seq<CacheEntry>, f: spec_fn(int) -> bool, n: nat) -> nat
    decreases n,
{
    if n == 0 {
        0
    } else if f(n - 1) {
        size_where(entries, f, (n - 1) as nat) + entries[n - 1].len as nat
    } else {
        size_where(entries, f, (n - 1) as nat)
    }
}

proof fn lemma_size_of_both(
    entries: Seq<CacheEntry>,
    f: spec_fn(int) -> bool,
    g: spec_fn(int) -> bool,
    h: spec_fn(int) -> bool,
    n: nat,
)
    requires
        forall|k: int| 0 <= k < n ==> (#[trigger] f(k) <==> g(k) || h(k)),
        forall|k: int| 0 <= k < n ==> !(#[trigger] g(k) && h(k)),
    ensures
        size_where(entries, f, n) == size_where(entries, g, n) + size_where(entries, h, n),
    decreases n,
{
    if n > 0 {
        lemma_size_of_both(entries, f, g, h, (n - 1) as nat);
        assert(f(n - 1) <==> g(n - 1) || h(n - 1));
        assert(!(g(n - 1) && h(n - 1)));
    }
}

proof fn lemma_size_of_one(entries: Seq<CacheEntry>, x: int, n: nat)
    requires
        0 <= x,
    ensures
        size_where(entries, |k: int| k == x, n) == if x < n {
            entries[x].len as nat
        } else {
            0
        },
    decreases n,
{
    if n > 0 {
        lemma_size_of_one(entries, x, (n - 1) as nat);
    }
}

proof fn lemma_size_of_none(entries: Seq<CacheEntry>, f: spec_fn(int) -> bool, n: nat)
    requires
        forall|k: int| 0 <= k < n ==> !#[trigger] f(k),
    ensures
        size_where(entries, f, n) == 0,
    decreases n,
{
    if n > 0 {
        lemma_size_of_none(entries, f, (n - 1) as nat);
        assert(!f(n - 1));
    }
}

/// Whether no place is listed twice.
pub open spec fn are_distinct(at: Seq<int>) -> bool {
    forall|i: int, j: int| 0 <= i < j < at.len() ==> #[trigger] at[i] != #[trigger] at[j]
}

proof fn lemma_size_of_all(entries: Seq<CacheEntry>, at: Seq<int>, n: nat)
    requires
        are_distinct(at),
        forall|i: int| 0 <= i < at.len() ==> 0 <= #[trigger] at[i] < n,
    ensures
        size_of_all(entries, at) == size_where(entries, |k: int| at.contains(k), n),
    decreases at.len(),
{
    let f = |k: int| at.contains(k);
    if at.len() == 0 {
        lemma_size_of_none(entries, f, n);
    } else {
        let rest = at.drop_last();
        let x = at.last();
        let g = |k: int| rest.contains(k);
        let h = |k: int| k == x;
        assert forall|i: int| 0 <= i < rest.len() implies 0 <= #[trigger] rest[i] < n by {
            assert(rest[i] == at[i]);
        }
        assert forall|i: int, j: int| 0 <= i < j < rest.len() implies #[trigger] rest[i] != #[trigger] rest[j] by {
            assert(at[i] != at[j]);
        }
        lemma_size_of_all(entries, rest, n);
        lemma_size_of_one(entries, x, n);
        assert forall|k: int| 0 <= k < n implies (#[trigger] f(k) <==> g(k) || h(k)) by {
            if at.contains(k) && k != x {
                let i = choose|i: int| 0 <= i < at.len() && at[i] == k;
                assert(rest[i] == k);
            }
            if rest.contains(k) {
                let i = choose|i: int| 0 <= i < rest.len() && rest[i] == k;
                assert(at[i] == k);
            }
            if k == x {
                assert(at[at.len() - 1] == k);
            }
        }
        assert forall|k: int| 0 <= k < n implies !(#[trigger] g(k) && h(k)) by {
            if rest.contains(k) && k == x {
                let i = choose|i: int| 0 <= i < rest.len() && rest[i] == k;
                assert(at[i] != at[at.len() - 1]);
            }
        }
        lemma_size_of_both(entries, f, g, h, n);
    }
}

proof fn lemma_sorted_out_ascends(
    entries: Seq<CacheEntry>,
    regenerable: Seq<Seq<char>>,
    now: int,
    ttl: Option<u64>,
    keep: Seq<char>,
    old: bool,
    n: nat,
)
    requires
        n <= entries.len(),
    ensures
        are_distinct(sorted_out(entries, regenerable, now, ttl, keep, old, n)),
    decreases n,
{
    if n > 0 {
        lemma_sorted_out_ascends(entries, regenerable, now, ttl, keep, old, (n - 1) as nat);
        lemma_sorted_out(entries, regenerable, now, ttl, keep, old, (n - 1) as nat);
        let rest = sorted_out(entries, regenerable, now, ttl, keep, old, (n - 1) as nat);
        let s = sorted_out(entries, regenerable, now, ttl, keep, old, n);
        assert forall|i: int, j: int| 0 <= i < j < s.len() implies #[trigger] s[i] != #[trigger] s[j] by {
            assert(s[i] == rest[i]);
            if j < rest.len() {
                assert(s[j] == rest[j]);
            }
        }
    }
}

proof fn lemma_oldest_first_is_distinct(entries: Seq<CacheEntry>, at: Seq<int>)
    requires
        are_distinct(at),
    ensures
        are_distinct(oldest_first(entries, at)),
        forall|k: int| at.contains(k) ==> #[trigger] oldest_first(entries, at).contains(k),
{
    let le = by_number(times(entries, at));
    let ranks = stable_order(le, at.len());
    lemma_by_number_is_total(times(entries, at));
    lemma_stable_order(le, at.len());
    let o = oldest_first(entries, at);
    assert forall|i: int, j: int| 0 <= i < j < o.len() implies #[trigger] o[i] != #[trigger] o[j] by {
        assert(before(le, ranks[i], ranks[j]));
        assert(o[i] == at[ranks[i]] && o[j] == at[ranks[j]]);
        if ranks[i] < ranks[j] {
            assert(at[ranks[i]] != at[ranks[j]]);
        } else {
            assert(ranks[j] < ranks[i]);
            assert(at[ranks[j]] != at[ranks[i]]);
        }
    }
    assert forall|k: int| at.contains(k) implies #[trigger] o.contains(k) by {
        let x = choose|x: int| 0 <= x < at.len() && at[x] == k;
        assert(ranks.contains(x));
        let i = choose|i: int| 0 <= i < ranks.len() && ranks[i] == x;
        assert(o[i] == k);
    }
}

/// What leaves, leaves in order, each once: what stands before something that leaves does so too,
/// unless it is the file to keep; and before the last of them left there was too much.
proof fn lemma_leaving_in_order(
    entries: Seq<CacheEntry>,
    order: Seq<int>,
    from: int,
    total: nat,
    cap: nat,
    keep: Seq<char>,
)
    requires
        0 <= from <= order.len(),
        are_distinct(order),
    ensures
        ({
            let l = leaving(entries, order, from, total, cap, keep);
            &&& are_distinct(l)
            &&& forall|i: int|
                0 <= i < l.len() ==> exists|k: int| from <= k < order.len() && #[trigger] order[k] == #[trigger] l[i]
            &&& forall|a: int, b: int|
                from <= a < b < order.len() && l.contains(#[trigger] order[b]) && entries[#[trigger] order[a]].path@
                    != keep ==> l.contains(order[a])
            &&& l.len() > 0 ==> minus(total, size_of_all(entries, l.drop_last())) > cap
        }),
    decreases order.len() - from,
{
    let k = next_in(entries, order, from, keep);
    lemma_next_in(entries, order, from, keep);
    lemma_leaving(entries, order, from, total, cap, keep);
    let l = leaving(entries, order, from, total, cap, keep);
    if total <= cap || k >= order.len() {
    } else {
        let left = minus(total, entries[order[k]].len as nat);
        let rest = leaving(entries, order, k + 1, left, cap, keep);
        lemma_leaving_in_order(entries, order, k + 1, left, cap, keep);
        assert(l == seq![order[k]] + rest);
        assert forall|i: int| 0 <= i < l.len() implies exists|m: int|
            from <= m < order.len() && #[trigger] order[m] == #[trigger] l[i] by {
            if i == 0 {
                assert(order[k] == l[0]);
            } else {
                assert(l[i] == rest[i - 1]);
                let m = choose|m: int| k + 1 <= m < order.len() && #[trigger] order[m] == rest[i - 1];
                assert(order[m] == l[i]);
            }
        }
        assert forall|i: int, j: int| 0 <= i < j < l.len() implies #[trigger] l[i] != #[trigger] l[j] by {
            assert(l[j] == rest[j - 1]);
            let m = choose|m: int| k + 1 <= m < order.len() && #[trigger] order[m] == rest[j - 1];
            if i == 0 {
                assert(order[k] != order[m]);
            } else {
                assert(l[i] == rest[i - 1]);
            }
        }
        assert forall|a: int, b: int|
            from <= a < b < order.len() && l.contains(#[trigger] order[b]) && entries[#[trigger] order[a]].path@
                != keep implies l.contains(order[a]) by {
            assert(a >= k);
            if a == k {
                assert(l[0] == order[a]);
            } else {
                let i = choose|i: int| 0 <= i < l.len() && l[i] == order[b];
                assert(i > 0) by {
                    if i == 0 {
                        assert(order[k] != order[b]);
                    }
                }
                assert(rest[i - 1] == order[b]);
                assert(rest.contains(order[b]));
                assert(rest.contains(order[a]));
                let m = choose|m: int| 0 <= m < rest.len() && rest[m] == order[a];
                assert(l[m + 1] == order[a]);
            }
        }
        if rest.len() == 0 {
            assert(l.drop_last() =~= Seq::empty());
            assert(size_of_all(entries, l.drop_last()) == 0);
        } else {
            assert(l.drop_last() =~= seq![order[k]] + rest.drop_last());
            lemma_size_of_front(entries, order[k], rest.drop_last());
        }
    }
}

/// Whether the entry at `k` is a chapter file of a book that can be made again.
pub open spec fn can_go(entries: Seq<CacheEntry>, regenerable: Seq<Seq<char>>, k: int) -> bool {
    &&& regenerable.contains(entries[k].dir@)
    &&& entries[k].is_file
    &&& file_stem_of(entries[k].path@) is Some
    &&& is_numbered(file_stem_of(entries[k].path@)->0)
}

proof fn lemma_parts_of_cache(
    entries: Seq<CacheEntry>,
    regenerable: Seq<Seq<char>>,
    now: int,
    cap: u64,
    ttl: Option<u64>,
    keep: Seq<char>,
)
    ensures
        ({
            let n = entries.len();
            let fresh = sorted_out(entries, regenerable, now, ttl, keep, false, n);
            let order = oldest_first(entries, fresh);
            let l = leaving(entries, order, 0, size_of_all(entries, fresh), cap as nat, keep);
            let gone = evicted(entries, regenerable, now, Some(cap), ttl, keep);
            &&& are_distinct(order)
            &&& are_distinct(l)
            &&& forall|k: int| 0 <= k < n ==> (#[trigger] order.contains(k) <==> fresh.contains(k))
            &&& forall|k: int| #[trigger] l.contains(k) ==> fresh.contains(k) && gone.contains(k) && 0 <= k < n
            &&& forall|k: int|
                0 <= k < n && can_go(entries, regenerable, k) && !#[trigger] gone.contains(k) ==> fresh.contains(k)
                    && !l.contains(k)
            &&& forall|k: int|
                #[trigger] fresh.contains(k) ==> 0 <= k < n && can_go(entries, regenerable, k) && (gone.contains(k)
                    ==> l.contains(k))
            &&& size_where(entries, |k: int| can_go(entries, regenerable, k) && !gone.contains(k), n) + size_of_all(
                entries,
                l,
            ) == size_of_all(entries, fresh)
        }),
{
    let n = entries.len();
    let fresh = sorted_out(entries, regenerable, now, ttl, keep, false, n);
    let old = sorted_out(entries, regenerable, now, ttl, keep, true, n);
    let order = oldest_first(entries, fresh);
    let total = size_of_all(entries, fresh);
    let l = leaving(entries, order, 0, total, cap as nat, keep);
    let gone = evicted(entries, regenerable, now, Some(cap), ttl, keep);
    lemma_sorted_out(entries, regenerable, now, ttl, keep, false, n);
    lemma_sorted_out(entries, regenerable, now, ttl, keep, true, n);
    lemma_sorted_out_ascends(entries, regenerable, now, ttl, keep, false, n);
    lemma_oldest_first(entries, fresh);
    lemma_oldest_first_is_distinct(entries, fresh);
    lemma_leaving(entries, order, 0, total, cap as nat, keep);
    lemma_leaving_in_order(entries, order, 0, total, cap as nat, keep);
    assert(gone == old + l);
    assert forall|k: int| 0 <= k < n implies (#[trigger] order.contains(k) <==> fresh.contains(k)) by {
        if order.contains(k) {
            let i = choose|i: int| 0 <= i < order.len() && order[i] == k;
            assert(fresh.contains(order[i]));
        }
    }
    assert forall|k: int| #[trigger] fresh.contains(k) implies 0 <= k < n && is_candidate(entries[k], regenerable)
        && !is_expired(entries[k], now, ttl, keep) by {
        let i = choose|i: int| 0 <= i < fresh.len() && fresh[i] == k;
        assert(is_candidate(entries[fresh[i]], regenerable));
    }
    assert forall|k: int| #[trigger] old.contains(k) implies is_expired(entries[k], now, ttl, keep) by {
        let i = choose|i: int| 0 <= i < old.len() && old[i] == k;
        assert(is_candidate(entries[old[i]], regenerable));
    }
    assert forall|k: int| #[trigger] l.contains(k) implies fresh.contains(k) && gone.contains(k) && 0 <= k < n by {
        let i = choose|i: int| 0 <= i < l.len() && l[i] == k;
        assert(order.contains(l[i]));
        let m = choose|m: int| 0 <= m < order.len() && order[m] == k;
        assert(fresh.contains(order[m]));
        assert(gone[old.len() + i] == k);
    }
    assert forall|k: int| #[trigger] fresh.contains(k) && gone.contains(k) implies l.contains(k) by {
        let i = choose|i: int| 0 <= i < gone.len() && gone[i] == k;
        if i < old.len() {
            assert(old[i] == k);
            assert(old.contains(k));
        } else {
            assert(l[i - old.len()] == k);
        }
    }
    assert forall|k: int|
        0 <= k < n && can_go(entries, regenerable, k) && !#[trigger] gone.contains(k) implies fresh.contains(k)
        && !l.contains(k) by {
        assert(is_candidate(entries[k], regenerable));
        if is_expired(entries[k], now, ttl, keep) {
            lemma_sorted_out_is_complete(entries, regenerable, now, ttl, keep, true, n, k);
            let i = choose|i: int| 0 <= i < old.len() && old[i] == k;
            assert(gone[i] == k);
        } else {
            lemma_sorted_out_is_complete(entries, regenerable, now, ttl, keep, false, n, k);
        }
    }
    let f = |k: int| fresh.contains(k);
    let g = |k: int| can_go(entries, regenerable, k) && !gone.contains(k);
    let h = |k: int| l.contains(k);
    assert forall|k: int| 0 <= k < n implies (#[trigger] f(k) <==> g(k) || h(k)) by {}
    assert forall|k: int| 0 <= k < n implies !(#[trigger] g(k) && h(k)) by {}
    lemma_size_of_both(entries, f, g, h, n);
    assert forall|i: int| 0 <= i < l.len() implies 0 <= #[trigger] l[i] < n by {
        assert(l.contains(l[i]));
    }
    lemma_size_of_all(entries, fresh, n);
    lemma_size_of_all(entries, l, n);
}

/// With a cap of so many bytes, the chapter files that stay take up no more than that, or all that
/// stay are the file that was just served; and what leaves last has to: with it there would be too
/// much. What is too old has left before.
pub proof fn law_what_stays_is_within_the_cap(
    entries: Seq<CacheEntry>,
    regenerable: Seq<Seq<char>>,
    now: int,
    cap: u64,
    ttl: Option<u64>,
    keep: Seq<char>,
)
    ensures
        ({
            let gone = evicted(entries, regenerable, now, Some(cap), ttl, keep);
            let stays = |k: int| can_go(entries, regenerable, k) && !gone.contains(k);
            let n = entries.len();
            let left = size_where(entries, stays, n);
            &&& left <= cap || forall|k: int|
                0 <= k < n && can_go(entries, regenerable, k) && !#[trigger] gone.contains(k) ==> entries[k].path@
                    == keep
            &&& gone.len() > 0 && (ttl is None || entries[gone.last()].mtime + ttl->0 * 1_000_000_000 >= now) ==> left
                + entries[gone.last()].len > cap
        }),
{
    let n = entries.len();
    let fresh = sorted_out(entries, regenerable, now, ttl, keep, false, n);
    let old = sorted_out(entries, regenerable, now, ttl, keep, true, n);
    let order = oldest_first(entries, fresh);
    let total = size_of_all(entries, fresh);
    let l = leaving(entries, order, 0, total, cap as nat, keep);
    let gone = evicted(entries, regenerable, now, Some(cap), ttl, keep);
    let stays = |k: int| can_go(entries, regenerable, k) && !gone.contains(k);
    lemma_parts_of_cache(entries, regenerable, now, cap, ttl, keep);
    lemma_leaving(entries, order, 0, total, cap as nat, keep);
    lemma_leaving_in_order(entries, order, 0, total, cap as nat, keep);
    lemma_sorted_out(entries, regenerable, now, ttl, keep, true, n);
    let left = size_where(entries, stays, n);
    assert(left + size_of_all(entries, l) == total);
    if left > cap {
        assert forall|k: int|
            0 <= k < n && can_go(entries, regenerable, k) && !#[trigger] gone.contains(k) implies entries[k].path@
            == keep by {
            assert(order.contains(k));
            let i = choose|i: int| 0 <= i < order.len() && order[i] == k;
            assert(entries[order[i]].path@ == keep || l.contains(order[i]));
        }
    }
    if gone.len() > 0 && (ttl is None || entries[gone.last()].mtime + ttl->0 * 1_000_000_000 >= now) {
        assert(gone == old + l);
        if l.len() == 0 {
            assert(gone.last() == old[old.len() - 1]);
            assert(is_expired(entries[old[old.len() - 1]], now, ttl, keep));
        } else {
            assert(gone.last() == l.last());
            assert(size_of_all(entries, l) == size_of_all(entries, l.drop_last()) + entries[l.last()].len as nat);
        }
    }
}

/// For want of space the older file leaves before the newer one: where the newer has to leave, so
/// does every older one that may.
pub proof fn law_newer_files_outlive_older_ones(
    entries: Seq<CacheEntry>,
    regenerable: Seq<Seq<char>>,
    now: int,
    cap: u64,
    ttl: Option<u64>,
    keep: Seq<char>,
    older: int,
    newer: int,
)
    requires
        0 <= older < entries.len(),
        0 <= newer < entries.len(),
        can_go(entries, regenerable, older),
        entries[older].path@ != keep,
        entries[older].mtime < entries[newer].mtime,
        evicted(entries, regenerable, now, Some(cap), ttl, keep).contains(newer),
    ensures
        evicted(entries, regenerable, now, Some(cap), ttl, keep).contains(older),
{
    let n = entries.len();
    let fresh = sorted_out(entries, regenerable, now, ttl, keep, false, n);
    let old = sorted_out(entries, regenerable, now, ttl, keep, true, n);
    let order = oldest_first(entries, fresh);
    let total = size_of_all(entries, fresh);
    let l = leaving(entries, order, 0, total, cap as nat, keep);
    let gone = evicted(entries, regenerable, now, Some(cap), ttl, keep);
    lemma_parts_of_cache(entries, regenerable, now, cap, ttl, keep);
    lemma_leaving_in_order(entries, order, 0, total, cap as nat, keep);
    lemma_oldest_first(entries, fresh);
    lemma_sorted_out(entries, regenerable, now, ttl, keep, true, n);
    if !gone.contains(older) {
        assert(fresh.contains(older));
        assert(is_candidate(entries[older], regenerable));
        assert(!is_expired(entries[older], now, ttl, keep)) by {
            if is_expired(entries[older], now, ttl, keep) {
                lemma_sorted_out_is_complete(entries, regenerable, now, ttl, keep, true, n, older);
                let i = choose|i: int| 0 <= i < old.len() && old[i] == older;
                assert(gone[i] == older);
            }
        }
        let g = choose|g: int| 0 <= g < gone.len() && gone[g] == newer;
        if g < old.len() {
            assert(old[g] == newer);
            assert(is_expired(entries[old[g]], now, ttl, keep));
        } else {
            assert(l[g - old.len()] == newer);
            assert(l.contains(newer));
            assert(order.contains(older) && order.contains(newer));
            let a = choose|a: int| 0 <= a < order.len() && order[a] == older;
            let b = choose|b: int| 0 <= b < order.len() && order[b] == newer;
            if b < a {
                assert(entries[order[b]].mtime <= entries[order[a]].mtime);
            }
            assert(l.contains(order[a]));
        }
    }
}

/// Every chapter that the server makes in the directory of a book that can be made again may leave
/// the cache, for each of the first 999.
pub proof fn law_made_chapters_can_go(
    e: CacheEntry,
    regenerable: Seq<Seq<char>>,
    idx: int,
    ext: Seq<char>,
)
    requires
        0 <= idx < 999,
        ext.len() > 0,
        has_no_slash(ext),
        !ext.contains('.'),
        regenerable.contains(e.dir@),
        e.is_file,
        e.path@ == joined(e.dir@, episode_name(idx, ext)),
    ensures
        is_candidate(e, regenerable),
{
    law_episode_file_tells_its_number(e.dir@, idx, ext);
}

} // verus!
