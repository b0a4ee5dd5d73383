//! Stable sorting, as the order in which the positions of a list come out.

use vstd::prelude::*;
use crate::text::{chars_le, lemma_text_le_total, lemma_text_le_transitive, text_le};

verus! {

/// How many of the leading entries of `order` come before position `x`, or tie with it.
pub open spec fn place(le: spec_fn(int, int) -> bool, order: Seq<int>, x: int) -> int
    decreases order.len(),
{
    if order.len() == 0 || !le(order[0], x) {
        0
    } else {
        1 + place(le, order.drop_first(), x)
    }
}

/// The positions `0..n` in ascending order; those that tie stay in the order they had.
pub open spec fn stable_order(le: spec_fn(int, int) -> bool, n: nat) -> Seq<int>
    decreases n,
{
    if n == 0 {
        Seq::empty()
    } else {
        let x = (n - 1) as int;
        let rest = stable_order(le, (n - 1) as nat);
        rest.insert(place(le, rest, x), x)
    }
}

/// A comparison of positions that puts any two of them in an order.
pub open spec fn is_total_preorder(le: spec_fn(int, int) -> bool) -> bool {
    &&& forall|a: int, b: int| #[trigger] le(a, b) || le(b, a)
    &&& forall|a: int, b: int, c: int| #[trigger] le(a, b) && #[trigger] le(b, c) ==> le(a, c)
}

/// Whether position `a` must come out before position `b`.
pub open spec fn before(le: spec_fn(int, int) -> bool, a: int, b: int) -> bool {
    le(a, b) && (le(b, a) ==> a < b)
}

/// Whether `order` lists each of the positions `0..n` once, each before those it must precede.
pub open spec fn is_stable_order(le: spec_fn(int, int) -> bool, n: nat, order: Seq<int>) -> bool {
    &&& order.len() == n
    &&& forall|i: int| 0 <= i < n ==> 0 <= #[trigger] order[i] < n
    &&& forall|i: int, j: int| 0 <= i < j < n ==> before(le, #[trigger] order[i], #[trigger] order[j])
    &&& forall|x: int| 0 <= x < n ==> order.contains(x)
}

proof fn lemma_place(le: spec_fn(int, int) -> bool, order: Seq<int>, x: int)
    ensures
        0 <= place(le, order, x) <= order.len(),
        forall|i: int| 0 <= i < place(le, order, x) ==> le(#[trigger] order[i], x),
        place(le, order, x) < order.len() ==> !le(order[place(le, order, x)], x),
    decreases order.len(),
{
    if order.len() > 0 && le(order[0], x) {
        let rest = order.drop_first();
        lemma_place(le, rest, x);
        assert forall|i: int| 0 <= i < place(le, order, x) implies le(#[trigger] order[i], x) by {
            if i > 0 {
                assert(rest[i - 1] == order[i]);
            }
        }
        if place(le, order, x) < order.len() {
            assert(order[place(le, order, x)] == rest[place(le, rest, x)]);
        }
    }
}

/// A stable sort puts every position in its place: all of them come out, each once, in
/// ascending order, and those that tie in the order they had.
pub proof fn lemma_stable_order(le: spec_fn(int, int) -> bool, n: nat)
    requires
        is_total_preorder(le),
    ensures
        is_stable_order(le, n, stable_order(le, n)),
    decreases n,
{
    if n > 0 {
        let m = (n - 1) as nat;
        let x = m as int;
        lemma_stable_order(le, m);
        let rest = stable_order(le, m);
        let p = place(le, rest, x);
        lemma_place(le, rest, x);
        let order = stable_order(le, n);
        assert forall|i: int, j: int| 0 <= i < j < n implies before(
            le,
            #[trigger] order[i],
            #[trigger] order[j],
        ) by {
            let ri = if i < p {
                i
            } else {
                i - 1
            };
            let rj = if j < p {
                j
            } else {
                j - 1
            };
            if i != p {
                assert(order[i] == rest[ri]);
            }
            if j != p {
                assert(order[j] == rest[rj]);
            }
            if i == p {
                // x comes before rest[j - 1], because rest[p] is greater than x.
                assert(!le(rest[p], x));
                assert(le(x, rest[p]));
                if rj > p {
                    assert(before(le, rest[p], rest[rj]));
                }
                assert(le(x, rest[rj]));
                assert(!le(rest[rj], x)) by {
                    if le(rest[rj], x) {
                        assert(le(rest[p], rest[rj]));
                        assert(le(rest[p], x));
                    }
                }
            } else if j == p {
                assert(le(rest[ri], x));
            } else {
                assert(before(le, rest[ri], rest[rj]));
            }
        }
        assert forall|y: int| 0 <= y < n implies order.contains(y) by {
            if y == x {
                assert(order[p] == x);
            } else {
                assert(rest.contains(y));
                let k = choose|k: int| 0 <= k < rest.len() && rest[k] == y;
                if k < p {
                    assert(order[k] == y);
                } else {
                    assert(order[k + 1] == y);
                }
            }
        }
        assert forall|i: int| 0 <= i < n implies 0 <= #[trigger] order[i] < n by {
            if i < p {
                assert(order[i] == rest[i]);
            } else if i > p {
                assert(order[i] == rest[i - 1]);
            }
        }
    }
}

proof fn lemma_place_at_end(le: spec_fn(int, int) -> bool, order: Seq<int>, x: int)
    requires
        forall|i: int| 0 <= i < order.len() ==> le(#[trigger] order[i], x),
    ensures
        place(le, order, x) == order.len(),
    decreases order.len(),
{
    if order.len() > 0 {
        let rest = order.drop_first();
        assert forall|i: int| 0 <= i < rest.len() implies le(#[trigger] rest[i], x) by {
            assert(rest[i] == order[i + 1]);
        }
        lemma_place_at_end(le, rest, x);
    }
}

/// What is sorted already stays as it is.
pub proof fn lemma_sorted_stays(le: spec_fn(int, int) -> bool, n: nat)
    requires
        forall|i: int, j: int| 0 <= i < j < n ==> #[trigger] le(i, j),
    ensures
        stable_order(le, n) == Seq::new(n, |i: int| i),
    decreases n,
{
    if n > 0 {
        let m = (n - 1) as nat;
        lemma_sorted_stays(le, m);
        let rest = stable_order(le, m);
        lemma_place_at_end(le, rest, m as int);
        assert(stable_order(le, n) =~= Seq::new(n, |i: int| i));
    } else {
        assert(stable_order(le, n) =~= Seq::new(n, |i: int| i));
    }
}

/// The comparison of positions by number.
pub open spec fn by_number(keys: Seq<int>) -> spec_fn(int, int) -> bool {
    |a: int, b: int| keys[a] <= keys[b]
}

/// The comparison of positions by text.
pub open spec fn by_text(keys: Seq<Seq<char>>) -> spec_fn(int, int) -> bool {
    |a: int, b: int| text_le(keys[a], keys[b])
}

/// Numbers put any two positions in an order.
pub proof fn lemma_by_number_is_total(keys: Seq<int>)
    ensures
        is_total_preorder(by_number(keys)),
{
}

/// Texts put any two positions in an order.
pub proof fn lemma_by_text_is_total(keys: Seq<Seq<char>>)
    ensures
        is_total_preorder(by_text(keys)),
{
    let le = by_text(keys);
    assert forall|a: int, b: int| #[trigger] le(a, b) || le(b, a) by {
        lemma_text_le_total(keys[a], keys[b]);
    }
    assert forall|a: int, b: int, c: int| #[trigger] le(a, b) && #[trigger] le(b, c) implies le(a, c) by {
        lemma_text_le_transitive(keys[a], keys[b], keys[c]);
    }
}

/// The numbers of a list, as integers.
pub open spec fn ints(keys: Seq<i128>) -> Seq<int> {
    keys.map_values(|k: i128| k as int)
}

/// The positions that a list of indices names.
pub open spec fn positions(v: Seq<usize>) -> Seq<int> {
    v.map_values(|i: usize| i as int)
}

/// The positions of `keys` in ascending order of the numbers, ties in the order they had.
pub fn order_by_number(keys: &Vec<i128>) -> (r: Vec<usize>)
    ensures
        positions(r@) == stable_order(by_number(ints(keys@)), keys@.len()),
        r.len() == keys.len(),
        forall|i: int| 0 <= i < r.len() ==> #[trigger] r[i] < keys.len(),
{
    let ghost le = by_number(ints(keys@));
    let mut r: Vec<usize> = Vec::new();
    let mut x: usize = 0;
    while x < keys.len()
        invariant
            x <= keys.len(),
            le == by_number(ints(keys@)),
            positions(r@) == stable_order(le, x as nat),
            r.len() == x,
            forall|i: int| 0 <= i < r.len() ==> #[trigger] r[i] < x,
        decreases keys.len() - x,
    {
        let mut p: usize = 0;
        proof {
            assert(positions(r@).skip(0) =~= positions(r@));
        }
        while p < r.len() && keys[r[p]] <= keys[x]
            invariant
                p <= r.len(),
                r.len() == x,
                x < keys.len(),
                le == by_number(ints(keys@)),
                forall|i: int| 0 <= i < r.len() ==> #[trigger] r[i] < x,
                place(le, positions(r@), x as int) == p + place(le, positions(r@).skip(p as int), x as int),
            decreases r.len() - p,
        {
            proof {
                assert(positions(r@).skip(p as int).drop_first() =~= positions(r@).skip(p + 1));
                assert(positions(r@).skip(p as int)[0] == r@[p as int]);
            }
            p = p + 1;
        }
        proof {
            if p < r.len() {
                assert(positions(r@).skip(p as int)[0] == r@[p as int]);
            }
        }
        let ghost old = r@;
        r.insert(p, x);
        assert(positions(r@) =~= positions(old).insert(p as int, x as int));
        x = x + 1;
    }
    r
}

/// The texts of a list of character lists.
pub open spec fn keys_of(keys: Seq<Vec<char>>) -> Seq<Seq<char>> {
    keys.map_values(|k: Vec<char>| k@)
}

/// The positions of `keys` in ascending order of the texts, ties in the order they had.
pub fn order_by_text(keys: &Vec<Vec<char>>) -> (r: Vec<usize>)
    ensures
        positions(r@) == stable_order(by_text(keys_of(keys@)), keys@.len()),
        r.len() == keys.len(),
        forall|i: int| 0 <= i < r.len() ==> #[trigger] r[i] < keys.len(),
{
    let ghost le = by_text(keys_of(keys@));
    let mut r: Vec<usize> = Vec::new();
    let mut x: usize = 0;
    while x < keys.len()
        invariant
            x <= keys.len(),
            le == by_text(keys_of(keys@)),
            positions(r@) == stable_order(le, x as nat),
            r.len() == x,
            forall|i: int| 0 <= i < r.len() ==> #[trigger] r[i] < x,
        decreases keys.len() - x,
    {
        let mut p: usize = 0;
        proof {
            assert(positions(r@).skip(0) =~= positions(r@));
        }
        while p < r.len() && chars_le(&keys[r[p]], &keys[x])
            invariant
                p <= r.len(),
                r.len() == x,
                x < keys.len(),
                le == by_text(keys_of(keys@)),
                forall|i: int| 0 <= i < r.len() ==> #[trigger] r[i] < x,
                place(le, positions(r@), x as int) == p + place(le, positions(r@).skip(p as int), x as int),
            decreases r.len() - p,
        {
            proof {
                assert(positions(r@).skip(p as int).drop_first() =~= positions(r@).skip(p + 1));
                assert(positions(r@).skip(p as int)[0] == r@[p as int]);
            }
            p = p + 1;
        }
        proof {
            if p < r.len() {
                assert(positions(r@).skip(p as int)[0] == r@[p as int]);
            }
        }
        let ghost old = r@;
        r.insert(p, x);
        assert(positions(r@) =~= positions(old).insert(p as int, x as int));
        x = x + 1;
    }
    r
}

} // verus!
