//! Checks a channel before it is served.
//!
//! It guards against what makes podcast apps misbehave: episodes out of order,
//! an enclosure without a length, a missing episode number or duration. Dates
//! are read back from the channel, so that the check of their order is genuine.

use vstd::prelude::*;
use crate::feed::{item_views, Channel, FeedItem, ItemView};
use crate::outside::{read_date, rfc2822_epoch};
use crate::sorting::{before, by_number, ints, lemma_by_number_is_total, lemma_stable_order, order_by_number, positions, stable_order};
use crate::text::{chars_are, chars_of, parse_signed, signed_value, trim, trimmed};

verus! {

/// Why a feed may not be served. `idx` is the place of an item, from 0; `episode` is an episode
/// number.
#[derive(Debug)]
pub enum SelfCheckError {
    /// The channel has no items.
    NoItems,
    /// An item has no enclosure.
    MissingEnclosure { idx: usize },
    /// The length of an enclosure is empty or zero.
    MissingEnclosureLength { idx: usize },
    /// The address of an enclosure is empty.
    MissingEnclosureUrl { idx: usize },
    /// An item has no episode number.
    MissingItunesEpisode { idx: usize },
    /// An item has no duration.
    MissingItunesDuration { idx: usize },
    /// An item has no date, or one that is no RFC 2822 date.
    BadPubDate { idx: usize, value: String },
    /// An episode is not dated later than the one before it.
    NonMonotonicPubDates { episode: i64 },
}

/// A channel that passed.
#[derive(Debug, Clone, PartialEq, Eq)]
pub struct SelfCheckReport {
    /// How many items were looked at.
    pub items_checked: usize,
}

/// A fault of a channel, by its values.
pub enum Fault {
    NoItems,
    MissingEnclosure { idx: int },
    MissingEnclosureLength { idx: int },
    MissingEnclosureUrl { idx: int },
    MissingItunesEpisode { idx: int },
    MissingItunesDuration { idx: int },
    BadPubDate { idx: int, value: Seq<char> },
    NonMonotonicPubDates { episode: int },
}

impl SelfCheckError {
    pub open spec fn view(self) -> Fault {
        match self {
            SelfCheckError::NoItems => Fault::NoItems,
            SelfCheckError::MissingEnclosure { idx } => Fault::MissingEnclosure { idx: idx as int },
            SelfCheckError::MissingEnclosureLength { idx } => Fault::MissingEnclosureLength {
                idx: idx as int,
            },
            SelfCheckError::MissingEnclosureUrl { idx } => Fault::MissingEnclosureUrl {
                idx: idx as int,
            },
            SelfCheckError::MissingItunesEpisode { idx } => Fault::MissingItunesEpisode {
                idx: idx as int,
            },
            SelfCheckError::MissingItunesDuration { idx } => Fault::MissingItunesDuration {
                idx: idx as int,
            },
            SelfCheckError::BadPubDate { idx, value } => Fault::BadPubDate {
                idx: idx as int,
                value: value@,
            },
            SelfCheckError::NonMonotonicPubDates { episode } => Fault::NonMonotonicPubDates {
                episode: episode as int,
            },
        }
    }
}

/// The values of a list of errors.
pub open spec fn faults(v: Seq<SelfCheckError>) -> Seq<Fault> {
    v.map_values(|e: SelfCheckError| e.view())
}

/// The faults of an item's enclosure.
pub open spec fn enclosure_faults(item: ItemView, idx: int) -> Seq<Fault> {
    match item.enclosure {
        None => seq![Fault::MissingEnclosure { idx }],
        Some(e) => {
            let length = if trim(e.length).len() == 0 || trim(e.length) == "0"@ {
                seq![Fault::MissingEnclosureLength { idx }]
            } else {
                Seq::empty()
            };
            let url = if trim(e.url).len() == 0 {
                seq![Fault::MissingEnclosureUrl { idx }]
            } else {
                Seq::empty()
            };
            length + url
        },
    }
}

/// The episode number of an item.
pub open spec fn episode_of(item: ItemView) -> Option<int> {
    match item.itunes {
        Some(t) => match t.episode {
            Some(s) => signed_value(trim(s)),
            None => None,
        },
        None => None,
    }
}

/// Whether an item tells its duration.
pub open spec fn has_duration(item: ItemView) -> bool {
    match item.itunes {
        Some(t) => match t.duration {
            Some(s) => trim(s).len() > 0,
            None => false,
        },
        None => false,
    }
}

/// The date of an item.
pub open spec fn epoch_of(item: ItemView) -> Option<i64> {
    match item.pub_date {
        Some(s) => rfc2822_epoch(s),
        None => None,
    }
}

/// The text of an item's date; empty if there is none.
pub open spec fn date_value(item: ItemView) -> Seq<char> {
    match item.pub_date {
        Some(s) => s,
        None => Seq::empty(),
    }
}

/// The faults of the tags of an item.
pub open spec fn tag_faults(item: ItemView, idx: int) -> Seq<Fault> {
    let episode = if episode_of(item) is None {
        seq![Fault::MissingItunesEpisode { idx }]
    } else {
        Seq::empty()
    };
    let duration = if !has_duration(item) {
        seq![Fault::MissingItunesDuration { idx }]
    } else {
        Seq::empty()
    };
    let date = if epoch_of(item) is None {
        seq![Fault::BadPubDate { idx, value: date_value(item) }]
    } else {
        Seq::empty()
    };
    episode + duration + date
}

/// The faults of one item.
pub open spec fn item_faults(item: ItemView, idx: int) -> Seq<Fault> {
    enclosure_faults(item, idx) + tag_faults(item, idx)
}

/// The faults of the first `n` items, one item after the other.
pub open spec fn items_faults(items: Seq<ItemView>, n: nat) -> Seq<Fault>
    decreases n,
{
    if n == 0 {
        Seq::empty()
    } else {
        items_faults(items, (n - 1) as nat) + item_faults(items[n - 1], n - 1)
    }
}

/// The episode number and the date of those of the first `n` items that have both.
pub open spec fn dated(items: Seq<ItemView>, n: nat) -> Seq<(int, int)>
    decreases n,
{
    if n == 0 {
        Seq::empty()
    } else {
        let rest = dated(items, (n - 1) as nat);
        match (episode_of(items[n - 1]), epoch_of(items[n - 1])) {
            (Some(ep), Some(at)) => rest.push((ep, at as int)),
            _ => rest,
        }
    }
}

/// The episode numbers of dated items.
pub open spec fn numbers(pairs: Seq<(int, int)>) -> Seq<int> {
    pairs.map_values(|p: (int, int)| p.0)
}

/// The episodes among the first `n` that are not dated later than the one before them.
pub open spec fn order_faults(pairs: Seq<(int, int)>, order: Seq<int>, n: nat) -> Seq<Fault>
    decreases n,
{
    if n <= 1 {
        Seq::empty()
    } else {
        let rest = order_faults(pairs, order, (n - 1) as nat);
        if pairs[order[n - 1]].1 <= pairs[order[n - 2]].1 {
            rest.push(Fault::NonMonotonicPubDates { episode: pairs[order[n - 1]].0 })
        } else {
            rest
        }
    }
}

/// All faults of a channel: those of its items, then those of the order of its dates, going by
/// episode number.
pub open spec fn channel_faults(items: Seq<ItemView>) -> Seq<Fault> {
    if items.len() == 0 {
        seq![Fault::NoItems]
    } else {
        let pairs = dated(items, items.len());
        let order = stable_order(by_number(numbers(pairs)), pairs.len());
        items_faults(items, items.len()) + order_faults(pairs, order, pairs.len())
    }
}

fn push_fault(errors: &mut Vec<SelfCheckError>, e: SelfCheckError)
    ensures
        faults(final(errors)@) == faults(old(errors)@) + seq![e.view()],
{
    let ghost before = errors@;
    errors.push(e);
    assert(faults(errors@) =~= faults(before) + seq![e.view()]);
}

fn check_enclosure(item: &FeedItem, idx: usize, errors: &mut Vec<SelfCheckError>)
    ensures
        faults(final(errors)@) == faults(old(errors)@) + enclosure_faults(item.view(), idx as int),
{
    let ghost before = faults(errors@);
    match &item.enclosure {
        None => {
            push_fault(errors, SelfCheckError::MissingEnclosure { idx });
        },
        Some(e) => {
            let l = chars_of(e.length.as_str());
            let length = trimmed(&l);
            let u = chars_of(e.url.as_str());
            let url = trimmed(&u);
            if length.len() == 0 || chars_are(&length, "0") {
                push_fault(errors, SelfCheckError::MissingEnclosureLength { idx });
            }
            if url.len() == 0 {
                push_fault(errors, SelfCheckError::MissingEnclosureUrl { idx });
            }
            assert(faults(errors@) =~= before + enclosure_faults(item.view(), idx as int));
        },
    }
}

fn read_episode(item: &FeedItem) -> (r: Option<i64>)
    ensures
        match r {
            Some(n) => episode_of(item.view()) == Some(n as int),
            None => episode_of(item.view()) is None,
        },
{
    match &item.itunes {
        Some(t) => match &t.episode {
            Some(s) => {
                let v = chars_of(s.as_str());
                let w = trimmed(&v);
                parse_signed(&w)
            },
            None => None,
        },
        None => None,
    }
}

fn tells_duration(item: &FeedItem) -> (r: bool)
    ensures
        r == has_duration(item.view()),
{
    match &item.itunes {
        Some(t) => match &t.duration {
            Some(s) => {
                let v = chars_of(s.as_str());
                let w = trimmed(&v);
                w.len() > 0
            },
            None => false,
        },
        None => false,
    }
}

fn check_tags(
    item: &FeedItem,
    idx: usize,
    errors: &mut Vec<SelfCheckError>,
) -> (r: Option<(i64, i64)>)
    ensures
        faults(final(errors)@) == faults(old(errors)@) + tag_faults(item.view(), idx as int),
        match r {
            Some(p) => episode_of(item.view()) == Some(p.0 as int) && epoch_of(item.view()) == Some(p.1),
            None => episode_of(item.view()) is None || epoch_of(item.view()) is None,
        },
{
    let ghost before = faults(errors@);
    let episode = read_episode(item);
    if episode.is_none() {
        push_fault(errors, SelfCheckError::MissingItunesEpisode { idx });
    }
    if !tells_duration(item) {
        push_fault(errors, SelfCheckError::MissingItunesDuration { idx });
    }
    let epoch = match &item.pub_date {
        Some(s) => read_date(s.as_str()),
        None => None,
    };
    if epoch.is_none() {
        let value = match &item.pub_date {
            Some(s) => s.clone(),
            None => String::new(),
        };
        push_fault(errors, SelfCheckError::BadPubDate { idx, value });
    }
    assert(faults(errors@) =~= before + tag_faults(item.view(), idx as int));
    match (episode, epoch) {
        (Some(n), Some(at)) => Some((n, at)),
        _ => None,
    }
}

spec fn pair_views(v: Seq<(i64, i64)>) -> Seq<(int, int)> {
    v.map_values(|p: (i64, i64)| (p.0 as int, p.1 as int))
}

fn check_order(pairs: &Vec<(i64, i64)>, errors: &mut Vec<SelfCheckError>)
    ensures
        faults(final(errors)@) == faults(old(errors)@) + order_faults(
            pair_views(pairs@),
            stable_order(by_number(numbers(pair_views(pairs@))), pairs@.len()),
            pairs@.len(),
        ),
{
    let ghost views = pair_views(pairs@);
    let mut keys: Vec<i128> = Vec::new();
    let mut i: usize = 0;
    while i < pairs.len()
        invariant
            i <= pairs.len(),
            keys@.len() == i,
            forall|j: int| 0 <= j < i ==> #[trigger] keys@[j] == pairs@[j].0,
        decreases pairs.len() - i,
    {
        keys.push(pairs[i].0 as i128);
        i = i + 1;
    }
    assert(ints(keys@) =~= numbers(views));
    let order = order_by_number(&keys);
    let ghost o = stable_order(by_number(numbers(views)), pairs@.len());
    let ghost before = faults(errors@);
    let mut k: usize = 1;
    assert(before + order_faults(views, o, 1) =~= before);
    if pairs.len() == 0 {
        assert(before + order_faults(views, o, 0) =~= before);
        return ;
    }
    while k < order.len()
        invariant
            1 <= k <= order.len(),
            order.len() == pairs.len(),
            keys.len() == pairs.len(),
            views == pair_views(pairs@),
            positions(order@) == o,
            forall|i: int| 0 <= i < order.len() ==> #[trigger] order[i] < keys.len(),
            faults(errors@) == before + order_faults(views, o, k as nat),
        decreases order.len() - k,
    {
        let a = order[k - 1];
        let b = order[k];
        proof {
            assert(o[k - 1] == a && o[k as int] == b);
            assert(views[a as int] == (pairs@[a as int].0 as int, pairs@[a as int].1 as int));
            assert(views[b as int] == (pairs@[b as int].0 as int, pairs@[b as int].1 as int));
        }
        if pairs[b].1 <= pairs[a].1 {
            let ghost now = faults(errors@);
            push_fault(errors, SelfCheckError::NonMonotonicPubDates { episode: pairs[b].0 });
            assert(faults(errors@) =~= before + order_faults(views, o, (k + 1) as nat));
        }
        k = k + 1;
    }
}

/// Checks a channel. It passes if every item has what it needs and dates strictly increase with
/// the episode; otherwise all faults are handed back.
pub fn check(channel: &Channel) -> (r: Result<SelfCheckReport, Vec<SelfCheckError>>)
    ensures
        match r {
            Ok(report) => {
                &&& channel_faults(item_views(channel.items@)).len() == 0
                &&& report.items_checked == channel.items@.len()
            },
            Err(errors) => {
                &&& faults(errors@) == channel_faults(item_views(channel.items@))
                &&& errors@.len() > 0
            },
        },
{
    let ghost views = item_views(channel.items@);
    let mut errors: Vec<SelfCheckError> = Vec::new();
    assert(faults(errors@) =~= Seq::empty());
    if channel.items.len() == 0 {
        push_fault(&mut errors, SelfCheckError::NoItems);
        assert(faults(errors@) =~= seq![Fault::NoItems]);
        assert(faults(errors@).len() == errors@.len());
        return Err(errors);
    }
    let mut pairs: Vec<(i64, i64)> = Vec::new();
    assert(pair_views(pairs@) =~= Seq::empty());
    let mut idx: usize = 0;
    while idx < channel.items.len()
        invariant
            idx <= channel.items.len(),
            views == item_views(channel.items@),
            faults(errors@) == items_faults(views, idx as nat),
            pair_views(pairs@) == dated(views, idx as nat),
        decreases channel.items.len() - idx,
    {
        let item = &channel.items[idx];
        assert(views[idx as int] == item.view());
        let ghost f0 = faults(errors@);
        let ghost p0 = pairs@;
        check_enclosure(item, idx, &mut errors);
        let pair = check_tags(item, idx, &mut errors);
        assert(faults(errors@) =~= f0 + item_faults(item.view(), idx as int));
        if let Some(p) = pair {
            pairs.push(p);
            assert(pair_views(pairs@) =~= pair_views(p0).push((p.0 as int, p.1 as int)));
        }
        idx = idx + 1;
    }
    check_order(&pairs, &mut errors);
    assert(faults(errors@) == channel_faults(views));
    assert(faults(errors@).len() == errors@.len());
    if errors.len() == 0 {
        Ok(SelfCheckReport { items_checked: channel.items.len() })
    } else {
        Err(errors)
    }
}

// ---- What holds of it -----------------------------------------------------

proof fn lemma_either(a: Seq<Fault>, b: Seq<Fault>)
    ensures
        forall|x: Fault| #[trigger] (a + b).contains(x) <==> a.contains(x) || b.contains(x),
{
    assert forall|x: Fault| #[trigger] (a + b).contains(x) <==> a.contains(x) || b.contains(x) by {
        if a.contains(x) {
            let i = choose|i: int| 0 <= i < a.len() && a[i] == x;
            assert((a + b)[i] == x);
        }
        if b.contains(x) {
            let i = choose|i: int| 0 <= i < b.len() && b[i] == x;
            assert((a + b)[a.len() + i] == x);
        }
        if (a + b).contains(x) {
            let i = choose|i: int| 0 <= i < (a + b).len() && (a + b)[i] == x;
            if i >= a.len() {
                assert(b[i - a.len()] == x);
            }
        }
    }
}

proof fn lemma_one(f: Fault)
    ensures
        forall|x: Fault| #[trigger] seq![f].contains(x) <==> x == f,
{
    assert(seq![f][0] == f);
}

/// Every fault of an item is named, and none that it does not have: no enclosure, or one without a
/// size or an address; no episode number, no duration, no date that can be read.
pub proof fn law_faults_are_named(item: ItemView, idx: int)
    ensures
        ({
            let found = item_faults(item, idx);
            let e = item.enclosure;
            let number = item.itunes is Some && item.itunes->0.episode is Some && signed_value(
                trim(item.itunes->0.episode->0),
            ) is Some;
            let length = item.itunes is Some && item.itunes->0.duration is Some && trim(
                item.itunes->0.duration->0,
            ).len() > 0;
            let date = item.pub_date is Some && rfc2822_epoch(item.pub_date->0) is Some;
            let shown = if item.pub_date is Some {
                item.pub_date->0
            } else {
                Seq::empty()
            };
            &&& found.contains(Fault::MissingEnclosure { idx }) <==> e is None
            &&& found.contains(Fault::MissingEnclosureLength { idx }) <==> e is Some && (trim(e->0.length).len() == 0
                || trim(e->0.length) == "0"@)
            &&& found.contains(Fault::MissingEnclosureUrl { idx }) <==> e is Some && trim(e->0.url).len() == 0
            &&& found.contains(Fault::MissingItunesEpisode { idx }) <==> !number
            &&& found.contains(Fault::MissingItunesDuration { idx }) <==> !length
            &&& found.contains(Fault::BadPubDate { idx, value: shown }) <==> !date
        }),
{
    let none = Seq::<Fault>::empty();
    lemma_one(Fault::MissingEnclosure { idx });
    lemma_one(Fault::MissingEnclosureLength { idx });
    lemma_one(Fault::MissingEnclosureUrl { idx });
    lemma_one(Fault::MissingItunesEpisode { idx });
    lemma_one(Fault::MissingItunesDuration { idx });
    lemma_one(Fault::BadPubDate { idx, value: date_value(item) });
    if item.enclosure is Some {
        let e = item.enclosure->0;
        let length = if trim(e.length).len() == 0 || trim(e.length) == "0"@ {
            seq![Fault::MissingEnclosureLength { idx }]
        } else {
            none
        };
        let url = if trim(e.url).len() == 0 {
            seq![Fault::MissingEnclosureUrl { idx }]
        } else {
            none
        };
        lemma_either(length, url);
    }
    let episode = if episode_of(item) is None {
        seq![Fault::MissingItunesEpisode { idx }]
    } else {
        none
    };
    let duration = if !has_duration(item) {
        seq![Fault::MissingItunesDuration { idx }]
    } else {
        none
    };
    let date = if epoch_of(item) is None {
        seq![Fault::BadPubDate { idx, value: date_value(item) }]
    } else {
        none
    };
    lemma_either(episode, duration);
    lemma_either(episode + duration, date);
    lemma_either(enclosure_faults(item, idx), tag_faults(item, idx));
}

proof fn lemma_no_item_faults(items: Seq<ItemView>, n: nat, i: int)
    requires
        items_faults(items, n).len() == 0,
        0 <= i < n <= items.len(),
    ensures
        item_faults(items[i], i).len() == 0,
    decreases n,
{
    if i < n - 1 {
        lemma_no_item_faults(items, (n - 1) as nat, i);
    }
}

proof fn lemma_all_dated(items: Seq<ItemView>, n: nat)
    requires
        n <= items.len(),
        forall|i: int| 0 <= i < n ==> episode_of(#[trigger] items[i]) is Some && epoch_of(items[i]) is Some,
    ensures
        dated(items, n).len() == n,
        forall|i: int|
            0 <= i < n ==> #[trigger] dated(items, n)[i] == (episode_of(items[i])->0, epoch_of(items[i])->0 as int),
    decreases n,
{
    if n > 0 {
        lemma_all_dated(items, (n - 1) as nat);
        let rest = dated(items, (n - 1) as nat);
        assert(episode_of(items[n - 1]) is Some);
        assert(dated(items, n) == rest.push((episode_of(items[n - 1])->0, epoch_of(items[n - 1])->0 as int)));
    }
}

proof fn lemma_in_order(pairs: Seq<(int, int)>, order: Seq<int>, n: nat, a: int, b: int)
    requires
        order_faults(pairs, order, n).len() == 0,
        0 <= a < b < n,
    ensures
        pairs[order[a]].1 < pairs[order[b]].1,
    decreases n,
{
    let rest = order_faults(pairs, order, (n - 1) as nat);
    assert(rest.len() == 0);
    if b < n - 1 {
        lemma_in_order(pairs, order, (n - 1) as nat, a, b);
    } else if a < n - 2 {
        lemma_in_order(pairs, order, (n - 1) as nat, a, n - 2);
    }
}

/// A feed without faults has items, each with an address, a size that is not 0, a number, a
/// duration and a date; and whatever order they stand in, the item with the higher number has the
/// later date. So podcast apps play them in the order of the book.
pub proof fn law_feed_without_faults_plays_in_order(items: Seq<ItemView>)
    requires
        channel_faults(items).len() == 0,
    ensures
        items.len() > 0,
        forall|i: int|
            0 <= i < items.len() ==> {
                let item = #[trigger] items[i];
                &&& item.enclosure is Some
                &&& trim(item.enclosure->0.url).len() > 0
                &&& trim(item.enclosure->0.length).len() > 0 && trim(item.enclosure->0.length) != "0"@
                &&& item.itunes is Some && item.itunes->0.episode is Some && item.itunes->0.duration is Some
                &&& signed_value(trim(item.itunes->0.episode->0)) is Some
                &&& trim(item.itunes->0.duration->0).len() > 0
                &&& item.pub_date is Some && rfc2822_epoch(item.pub_date->0) is Some
            },
        forall|i: int, j: int|
            0 <= i < items.len() && 0 <= j < items.len() && signed_value(
                trim((#[trigger] items[i]).itunes->0.episode->0),
            )->0 < signed_value(trim((#[trigger] items[j]).itunes->0.episode->0))->0 ==> rfc2822_epoch(
                items[i].pub_date->0,
            )->0 < rfc2822_epoch(items[j].pub_date->0)->0,
{
    let n = items.len();
    let pairs = dated(items, n);
    let le = by_number(numbers(pairs));
    let order = stable_order(le, pairs.len());
    let of_order = order_faults(pairs, order, pairs.len());
    assert(channel_faults(items).len() == items_faults(items, n).len() + of_order.len());
    assert forall|i: int| 0 <= i < items.len() implies episode_of(#[trigger] items[i]) is Some && epoch_of(
        items[i],
    ) is Some && has_duration(items[i]) && enclosure_faults(items[i], i).len() == 0 by {
        lemma_no_item_faults(items, n, i);
        assert(enclosure_faults(items[i], i).len() + tag_faults(items[i], i).len() == 0);
    }
    lemma_all_dated(items, n);
    lemma_by_number_is_total(numbers(pairs));
    lemma_stable_order(le, pairs.len());
    assert forall|i: int, j: int|
        0 <= i < items.len() && 0 <= j < items.len() && episode_of(#[trigger] items[i])->0 < episode_of(
            #[trigger] items[j],
        )->0 implies epoch_of(items[i])->0 < epoch_of(items[j])->0 by {
        assert(order.contains(i) && order.contains(j));
        let a = choose|a: int| 0 <= a < order.len() && order[a] == i;
        let b = choose|b: int| 0 <= b < order.len() && order[b] == j;
        assert(pairs[i].0 == episode_of(items[i])->0 && pairs[j].0 == episode_of(items[j])->0);
        if b < a {
            assert(before(le, order[b], order[a]));
        }
        lemma_in_order(pairs, order, pairs.len(), a, b);
    }
    assert forall|i: int, j: int|
        0 <= i < items.len() && 0 <= j < items.len() && signed_value(
            trim((#[trigger] items[i]).itunes->0.episode->0),
        )->0 < signed_value(trim((#[trigger] items[j]).itunes->0.episode->0))->0 implies rfc2822_epoch(
        items[i].pub_date->0,
    )->0 < rfc2822_epoch(items[j].pub_date->0)->0 by {
        assert(episode_of(items[i]) is Some && episode_of(items[j]) is Some);
    }
}

} // verus!
