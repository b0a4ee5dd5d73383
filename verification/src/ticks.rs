//! Time, counted in ticks.
//!
//! A tick is 1/3,528,000,000 of a second. That is the longest unit in which a
//! microsecond, a CD frame (1/75 s) and one sample at 44.1 kHz or 48 kHz all
//! last a whole number of ticks, so the times that probes and sidecars write
//! down are held exactly. They are counted up to [`MAX_TICKS`] either way, some
//! 9e18 years; a time beyond that is held there.

use vstd::prelude::*;
use crate::text::{all_digits, dec, dec_padded, dec_string, digit_char, digit_value, find_from, index_from, is_digit, lemma_dec_round_trip, lemma_index_from, lemma_padded_digits, lemma_padded_value, lemma_zero_pad, nat_of, slice_of, zero_pad};
use vstd::string::StringExecFns;

verus! {

/// Ticks in a second.
pub const TICKS_PER_SEC: i128 = 3_528_000_000;

/// Ticks in a microsecond.
pub const TICKS_PER_MICRO: i128 = 3_528;

/// The longest time that is told apart from longer ones, in ticks.
pub const MAX_TICKS: i128 = 1_000_000_000_000_000_000_000_000_000_000_000_000;

/// Exponents are read up to here, either way.
pub const MAX_EXPONENT: u128 = 1_000_000_000_000_000_000_000_000_000_000;

/// Ten to the `k`.
pub open spec fn pow10(k: nat) -> nat
    decreases k,
{
    if k == 0 {
        1
    } else {
        10 * pow10((k - 1) as nat)
    }
}

/// `s` without its sign.
pub open spec fn unsigned_part(s: Seq<char>) -> Seq<char> {
    if s.len() > 0 && (s[0] == '+' || s[0] == '-') {
        s.drop_first()
    } else {
        s
    }
}

/// The digits of a decimal number before its point.
pub open spec fn whole_digits(s: Seq<char>) -> Seq<char> {
    s.take(index_from(s, '.', 0))
}

/// The digits of a decimal number behind its point.
pub open spec fn fraction_digits(s: Seq<char>) -> Seq<char> {
    let i = index_from(s, '.', 0);
    if i < s.len() {
        s.skip(i + 1)
    } else {
        Seq::empty()
    }
}

/// Where the exponent of a number begins; its length if it has none.
pub open spec fn exponent_at(s: Seq<char>) -> int {
    let small = index_from(s, 'e', 0);
    let large = index_from(s, 'E', 0);
    if small < large {
        small
    } else {
        large
    }
}

/// A number without its exponent.
pub open spec fn mantissa(s: Seq<char>) -> Seq<char> {
    s.take(exponent_at(s))
}

/// Whether `s` has no exponent, or one that is a whole number with an optional sign.
pub open spec fn is_scaled(s: Seq<char>) -> bool {
    let at = exponent_at(s);
    at < s.len() ==> {
        let e = unsigned_part(s.skip(at + 1));
        e.len() > 0 && all_digits(e)
    }
}

/// The power of ten that a number is scaled by, up to the limit.
pub open spec fn exponent(s: Seq<char>) -> int {
    let at = exponent_at(s);
    if at < s.len() {
        let e = s.skip(at + 1);
        let n = at_most(nat_of(unsigned_part(e)), MAX_EXPONENT as nat) as int;
        if e.len() > 0 && e[0] == '-' {
            -n
        } else {
            n
        }
    } else {
        0
    }
}

/// All digits of a number, before and behind its point.
pub open spec fn digits_of(m: Seq<char>) -> Seq<char> {
    whole_digits(m) + fraction_digits(m)
}

/// Whether `s` is a decimal number: an optional sign, digits, and an optional point with more
/// digits behind it, at least one digit in all; then, at will, `e` or `E` and a power of ten.
pub open spec fn is_decimal(s: Seq<char>) -> bool {
    let u = unsigned_part(s);
    &&& digits_of(mantissa(u)).len() > 0
    &&& all_digits(digits_of(mantissa(u)))
    &&& is_scaled(u)
}

/// How many `unit`s the number with the digits `d`, moved by `shift` places, makes, rounded down.
pub open spec fn units_of(d: Seq<char>, shift: int, unit: nat) -> nat {
    if shift >= 0 {
        nat_of(d) * unit * pow10(shift as nat)
    } else {
        nat_of(d) * unit / pow10((-shift) as nat)
    }
}

/// How many places the point behind the digits of the decimal number `u` is to be moved.
pub open spec fn shift_of(u: Seq<char>) -> int {
    exponent(u) - fraction_digits(mantissa(u)).len()
}

/// How many `unit`s the decimal number `u` (without sign) makes, rounded down.
pub open spec fn decimal_units(u: Seq<char>, unit: nat) -> nat {
    units_of(digits_of(mantissa(u)), shift_of(u), unit)
}

/// `n`, or `cap` if it is larger.
pub open spec fn at_most(n: nat, cap: nat) -> nat {
    if n <= cap {
        n
    } else {
        cap
    }
}

/// The number that the digits `v[i..j]` write down, or `cap` if it is larger.
/// `None` if one of them is not a digit.
fn capped_number(v: &Vec<char>, i: usize, j: usize, cap: u128) -> (r: Option<u128>)
    requires
        i <= j <= v.len(),
        cap <= 10 * MAX_TICKS,
    ensures
        r is Some <==> all_digits(v@.subrange(i as int, j as int)),
        r is Some ==> r->0 == at_most(nat_of(v@.subrange(i as int, j as int)), cap as nat),
{
    let mut n: u128 = 0;
    let mut k: usize = i;
    while k < j
        invariant
            i <= k <= j <= v.len(),
            cap <= 10 * MAX_TICKS,
            n <= cap,
            all_digits(v@.subrange(i as int, k as int)),
            n == at_most(nat_of(v@.subrange(i as int, k as int)), cap as nat),
        decreases j - k,
    {
        let c = v[k];
        let ghost d = v@.subrange(i as int, k as int);
        let ghost e = v@.subrange(i as int, k + 1);
        proof {
            assert(e.drop_last() =~= d);
            assert(e.last() == c);
            assert(v@.subrange(i as int, j as int)[k - i] == c);
        }
        if !('0' <= c && c <= '9') {
            assert(!is_digit(v@.subrange(i as int, j as int)[k - i]));
            return None;
        }
        let x: u128 = (c as u32 - 48) as u128;
        let next: u128 = n * 10 + x;
        proof {
            assert(nat_of(e) == nat_of(d) * 10 + digit_value(c));
            assert forall|m: int| 0 <= m < e.len() implies is_digit(#[trigger] e[m]) by {
                if m < d.len() {
                    assert(d[m] == e[m]);
                }
            }
        }
        if next > cap {
            n = cap;
        } else {
            n = next;
        }
        k = k + 1;
    }
    Some(n)
}

proof fn lemma_pow10_positive(k: nat)
    ensures
        pow10(k) >= 1,
    decreases k,
{
    if k > 0 {
        lemma_pow10_positive((k - 1) as nat);
    }
}

proof fn lemma_pow10_grows(a: nat, b: nat)
    requires
        a <= b,
    ensures
        pow10(a) <= pow10(b),
    decreases b - a,
{
    if a < b {
        lemma_pow10_grows(a, (b - 1) as nat);
        lemma_pow10_positive((b - 1) as nat);
    }
}

pub proof fn lemma_nat_of_bound(s: Seq<char>)
    requires
        all_digits(s),
    ensures
        nat_of(s) < pow10(s.len()),
    decreases s.len(),
{
    if s.len() > 0 {
        assert(is_digit(s.last()));
        let t = s.drop_last();
        assert forall|i: int| 0 <= i < t.len() implies is_digit(#[trigger] t[i]) by {
            assert(is_digit(s[i]));
        }
        lemma_nat_of_bound(t);
    }
}

pub proof fn lemma_nat_of_parts(a: Seq<char>, b: Seq<char>)
    ensures
        nat_of(a + b) == nat_of(a) * pow10(b.len()) + nat_of(b),
    decreases b.len(),
{
    if b.len() == 0 {
        assert(a + b =~= a);
        assert(nat_of(a) * 1 == nat_of(a));
    } else {
        let t = b.drop_last();
        lemma_nat_of_parts(a, t);
        assert((a + b).drop_last() =~= a + t);
        assert((a + b).last() == b.last());
        assert(pow10(b.len()) == 10 * pow10(t.len()));
        assert(nat_of(a) * (10 * pow10(t.len())) == 10 * (nat_of(a) * pow10(t.len()))) by (nonlinear_arith);
    }
}

proof fn lemma_all_digits_of_part(s: Seq<char>, i: int, j: int)
    requires
        all_digits(s),
        0 <= i <= j <= s.len(),
    ensures
        all_digits(s.subrange(i, j)),
{
    assert forall|k: int| 0 <= k < j - i implies is_digit(#[trigger] s.subrange(i, j)[k]) by {
        assert(is_digit(s[i + k]));
    }
}

/// One more digit to the left: the count of the new fraction from that of the old one.
proof fn lemma_fraction_step(c: char, rest: Seq<char>, unit: nat)
    requires
        is_digit(c),
    ensures
        nat_of(seq![c] + rest) * unit / pow10(rest.len() + 1) == (digit_value(c) * unit + nat_of(rest) * unit
            / pow10(rest.len())) / 10,
{
    let m = rest.len();
    let p = pow10(m);
    let x = digit_value(c);
    let n = nat_of(rest);
    lemma_pow10_positive(m);
    lemma_nat_of_parts(seq![c], rest);
    assert(seq![c].drop_last() =~= Seq::empty());
    assert(nat_of(seq![c]) == x) by {
        reveal_with_fuel(nat_of, 2);
    }
    assert((x * p + n) * unit == n * unit + (x * unit) * p) by (nonlinear_arith);
    vstd::arithmetic::div_mod::lemma_hoist_over_denominator((n * unit) as int, (x * unit) as int, p);
    assert((x * p + n) * unit >= 0) by (nonlinear_arith)
        requires
            x >= 0,
            p >= 0,
            n >= 0,
            unit >= 0,
    ;
    vstd::arithmetic::div_mod::lemma_div_denominator(((x * p + n) * unit) as int, p as int, 10);
    assert(p * 10 == pow10(m + 1));
}

/// Moves the digits `d` by `places` to the left and counts the `unit`s, up to `cap`.
fn count_left(d: &Vec<char>, places: u128, unit: u64, cap: u128) -> (r: u128)
    requires
        all_digits(d@),
        unit > 0,
        cap <= MAX_TICKS,
    ensures
        r == at_most(nat_of(d@) * (unit as nat) * pow10(places as nat), cap as nat),
{
    let ghost all = nat_of(d@);
    assert(d@.subrange(0, d@.len() as int) =~= d@);
    let n: u128 = match capped_number(d, 0, d.len(), cap + 1) {
        Some(n) => n,
        None => 0,
    };
    if n == 0 {
        proof {
            assert(all == 0);
            assert(0 * (unit as nat) == 0) by (nonlinear_arith);
            assert(0 * pow10(places as nat) == 0) by (nonlinear_arith);
        }
        return 0;
    }
    let ghost base = all * (unit as nat);
    proof {
        lemma_pow10_positive(places as nat);
        assert(base * pow10(places as nat) >= base) by (nonlinear_arith)
            requires
                pow10(places as nat) >= 1,
                base >= 0,
        ;
        lemma_beyond(all, n as nat, unit as nat, cap as nat);
    }
    if n > cap / (unit as u128) {
        return cap;
    }
    proof {
        lemma_within(n as nat, unit as nat, cap as nat);
    }
    let mut t: u128 = n * (unit as u128);
    let mut k: u128 = 0;
    assert(base * pow10(0) == base) by (nonlinear_arith)
        requires
            pow10(0) == 1,
    ;
    while k < places && t <= cap
        invariant
            k <= places,
            cap <= MAX_TICKS,
            t == base * pow10(k as nat),
        decreases places - k,
    {
        proof {
            assert(base * (10 * pow10(k as nat)) == 10 * (base * pow10(k as nat))) by (nonlinear_arith);
        }
        t = t * 10;
        k = k + 1;
    }
    proof {
        lemma_pow10_grows(k as nat, places as nat);
        assert(base * pow10(k as nat) <= base * pow10(places as nat)) by (nonlinear_arith)
            requires
                base >= 0,
                pow10(k as nat) <= pow10(places as nat),
        ;
    }
    if t > cap {
        cap
    } else {
        t
    }
}

/// A number that was read up to just above `cap`, and is more than `cap` holds `unit`s.
proof fn lemma_beyond(all: nat, n: nat, unit: nat, cap: nat)
    requires
        n == at_most(all, cap + 1),
        unit >= 1,
    ensures
        n > cap / unit ==> all * unit > cap,
        n <= cap / unit ==> n == all,
{
    if n > cap / unit {
        assert(n * unit > cap) by (nonlinear_arith)
            requires
                n > cap / unit,
                unit >= 1,
        ;
        assert(all * unit >= n * unit) by (nonlinear_arith)
            requires
                all >= n,
                unit >= 1,
        ;
    } else {
        assert(cap / unit <= cap) by (nonlinear_arith)
            requires
                unit >= 1,
                cap >= 0,
        ;
    }
}

proof fn lemma_within(n: nat, unit: nat, cap: nat)
    requires
        n <= cap / unit,
        unit >= 1,
    ensures
        n * unit <= cap,
{
    assert(n * unit <= cap) by (nonlinear_arith)
        requires
            n <= cap / unit,
            unit >= 1,
    ;
}

/// Counts the `unit`s that the digits from `lo` on make as a fraction.
fn count_fraction(d: &Vec<char>, lo: usize, unit: u64) -> (c: u128)
    requires
        all_digits(d@),
        unit > 0,
        lo <= d.len(),
    ensures
        c <= unit,
        c == nat_of(d@.skip(lo as int)) * (unit as nat) / pow10((d@.len() - lo) as nat),
{
    let ghost len = d@.len();
    let mut c: u128 = 0;
    let mut i: usize = d.len();
    proof {
        assert(d@.skip(i as int) =~= Seq::empty());
        assert(0 * (unit as nat) == 0);
    }
    while i > lo
        invariant
            lo <= i <= d.len(),
            len == d@.len(),
            all_digits(d@),
            unit > 0,
            c <= unit,
            c == nat_of(d@.skip(i as int)) * (unit as nat) / pow10((len - i) as nat),
        decreases i,
    {
        let ch = d[i - 1];
        let ghost rest = d@.skip(i as int);
        let x: u128 = (ch as u32 - 48) as u128;
        proof {
            assert(is_digit(d@[i - 1]));
            assert(d@.skip(i - 1) =~= seq![ch] + rest);
            lemma_fraction_step(ch, rest, unit as nat);
            assert(0 <= (x as int) * (unit as int) <= 9 * (unit as int)) by (nonlinear_arith)
                requires
                    0 <= x <= 9,
                    0 <= unit,
            ;
        }
        c = (x * (unit as u128) + c) / 10;
        i = i - 1;
    }
    c
}

/// Counts the `unit`s of the fraction that the digits `d` make with zeros before them, `places` in
/// all.
fn count_small(d: &Vec<char>, places: u128, unit: u64) -> (c: u128)
    requires
        all_digits(d@),
        unit > 0,
        d.len() <= places,
    ensures
        c <= unit,
        c == nat_of(d@) * (unit as nat) / pow10(places as nat),
{
    let ghost all = nat_of(d@);
    let mut c: u128 = count_fraction(d, 0, unit);
    let ghost len = d@.len();
    let mut z: u128 = d.len() as u128;
    proof {
        assert(d@.skip(0) =~= d@);
    }
    while z < places && c > 0
        invariant
            len <= z <= places,
            c <= unit,
            unit > 0,
            all == nat_of(d@),
            c == all * (unit as nat) / pow10(z as nat),
        decreases places - z,
    {
        proof {
            lemma_pow10_positive(z as nat);
            assert(all * (unit as nat) >= 0) by (nonlinear_arith)
                requires
                    all >= 0,
                    unit >= 0,
            ;
            vstd::arithmetic::div_mod::lemma_div_denominator(
                (all * (unit as nat)) as int,
                pow10(z as nat) as int,
                10,
            );
        }
        c = c / 10;
        z = z + 1;
    }
    proof {
        if z < places {
            lemma_pow10_grows(z as nat, places as nat);
            lemma_pow10_positive(z as nat);
            let x = all * (unit as nat);
            let p = pow10(z as nat);
            let q = pow10(places as nat);
            assert(x < p) by (nonlinear_arith)
                requires
                    x / p == 0,
                    p >= 1,
                    x >= 0,
            ;
            assert(x / q == 0) by (nonlinear_arith)
                requires
                    0 <= x < q,
            ;
        }
    }
    c
}

/// Moves the digits `d` by `places` to the right and counts the `unit`s, up to `cap`.
fn count_right(d: &Vec<char>, places: u128, unit: u64, cap: u128) -> (r: u128)
    requires
        all_digits(d@),
        unit > 0,
        cap <= MAX_TICKS,
    ensures
        r == at_most(nat_of(d@) * (unit as nat) / pow10(places as nat), cap as nat),
{
    if places >= d.len() as u128 {
        let c = count_small(d, places, unit);
        return if c > cap {
            cap
        } else {
            c
        };
    }
    let lo: usize = d.len() - places as usize;
    let c = count_fraction(d, lo, unit);
    let ghost w = d@.subrange(0, lo as int);
    let ghost f = d@.skip(lo as int);
    proof {
        assert(w + f =~= d@);
        lemma_nat_of_parts(w, f);
        lemma_pow10_positive(f.len());
        lemma_all_digits_of_part(d@, 0, lo as int);
        let p = pow10(f.len());
        let a = nat_of(w);
        let b = nat_of(f);
        assert((a * p + b) * (unit as nat) == b * (unit as nat) + (a * (unit as nat)) * p)
            by (nonlinear_arith);
        vstd::arithmetic::div_mod::lemma_hoist_over_denominator(
            (b * (unit as nat)) as int,
            (a * (unit as nat)) as int,
            p,
        );
    }
    let whole: u128 = match capped_number(d, 0, lo, cap + 1) {
        Some(n) => n,
        None => 0,
    };
    proof {
        lemma_beyond(nat_of(w), whole as nat, unit as nat, cap as nat);
    }
    if whole > cap / (unit as u128) {
        return cap;
    }
    proof {
        lemma_within(whole as nat, unit as nat, cap as nat);
    }
    let total: u128 = whole * (unit as u128) + c;
    if total > cap {
        cap
    } else {
        total
    }
}

/// How many `unit`s the decimal number `u` (without sign) makes, rounded down; `cap` if there are
/// more.
pub open spec fn capped_units(u: Seq<char>, unit: nat, cap: nat) -> nat {
    at_most(decimal_units(u, unit), cap)
}

/// Whether the decimal number `s` is 0.
pub open spec fn is_zero(s: Seq<char>) -> bool {
    nat_of(digits_of(mantissa(unsigned_part(s)))) == 0
}

/// Whether `s` is a number below 0.
pub open spec fn is_negative(s: Seq<char>) -> bool {
    s.len() > 0 && s[0] == '-' && !is_zero(s)
}

/// A decimal number that was read: how many units it makes without its sign, and how it compares
/// to 0.
pub struct Units {
    pub count: u128,
    pub zero: bool,
    pub negative: bool,
}

/// Reads the power of ten of the number `u`; `None` if it is none.
fn read_exponent(u: &Vec<char>, at: usize) -> (r: Option<i128>)
    requires
        at == exponent_at(u@),
        at <= u.len(),
    ensures
        r is Some <==> is_scaled(u@),
        r matches Some(e) ==> e == exponent(u@) && -(MAX_EXPONENT as int) <= e <= MAX_EXPONENT,
{
    if at >= u.len() {
        return Some(0);
    }
    let tail = slice_of(u, at + 1, u.len());
    assert(tail@ =~= u@.skip(at + 1));
    let from: usize = if tail.len() > 0 && (tail[0] == '+' || tail[0] == '-') {
        1
    } else {
        0
    };
    assert(tail@.subrange(from as int, tail@.len() as int) =~= unsigned_part(tail@));
    if from == tail.len() {
        return None;
    }
    match capped_number(&tail, from, tail.len(), MAX_EXPONENT) {
        Some(n) => Some(
            if tail[0] == '-' {
                -(n as i128)
            } else {
                n as i128
            },
        ),
        None => None,
    }
}

/// Takes the digits of the number `m`, and how many of them stand behind its point.
fn take_digits(m: &Vec<char>) -> (r: (Vec<char>, usize))
    ensures
        r.0@ == digits_of(m@),
        r.1 == fraction_digits(m@).len(),
        r.1 <= r.0@.len(),
{
    let point = find_from(m, '.', 0);
    let mut d = slice_of(m, 0, point);
    assert(d@ =~= whole_digits(m@));
    if point >= m.len() {
        assert(d@ =~= digits_of(m@));
        return (d, 0);
    }
    let mut f = slice_of(m, point + 1, m.len());
    assert(f@ =~= fraction_digits(m@));
    let n = f.len();
    d.append(&mut f);
    assert(d@ =~= digits_of(m@));
    (d, n)
}

/// A decimal number, taken apart.
struct Parts {
    /// Its digits.
    digits: Vec<char>,
    /// How many places the point behind them is to be moved.
    shift: i128,
}

/// Takes a decimal number apart. `None` if it is none.
fn take_apart(v: &Vec<char>) -> (r: Option<Parts>)
    ensures
        r is Some <==> is_decimal(v@),
        r matches Some(p) ==> {
            &&& p.digits@ == digits_of(mantissa(unsigned_part(v@)))
            &&& all_digits(p.digits@)
            &&& p.digits@.len() > 0
            &&& p.shift == shift_of(unsigned_part(v@))
            &&& -(2 * MAX_EXPONENT) <= p.shift <= MAX_EXPONENT
        },
{
    let start: usize = if v.len() > 0 && (v[0] == '+' || v[0] == '-') {
        1
    } else {
        0
    };
    let u = slice_of(v, start, v.len());
    assert(u@ =~= unsigned_part(v@));
    let small = find_from(&u, 'e', 0);
    let large = find_from(&u, 'E', 0);
    let at: usize = if small < large {
        small
    } else {
        large
    };
    let m = slice_of(&u, 0, at);
    assert(m@ =~= mantissa(u@));
    let (digits, fraction) = take_digits(&m);
    assert(digits@.subrange(0, digits@.len() as int) =~= digits@);
    if digits.len() == 0 || capped_number(&digits, 0, digits.len(), 1).is_none() {
        return None;
    }
    match read_exponent(&u, at) {
        Some(e) => Some(Parts { digits, shift: e - fraction as i128 }),
        None => None,
    }
}

/// Reads a decimal number as a count of `unit`s, up to `cap`. `None` if it is none.
pub fn parse_units(v: &Vec<char>, unit: u64, cap: u128) -> (r: Option<Units>)
    requires
        unit > 0,
        cap <= MAX_TICKS,
    ensures
        match r {
            Some(p) => is_decimal(v@) && p.count == capped_units(
                unsigned_part(v@),
                unit as nat,
                cap as nat,
            ) && p.zero == is_zero(v@) && p.negative == is_negative(v@),
            None => !is_decimal(v@),
        },
{
    let p = match take_apart(v) {
        Some(p) => p,
        None => {
            return None;
        },
    };
    let d = &p.digits;
    assert(d@.subrange(0, d@.len() as int) =~= d@);
    let first = match capped_number(d, 0, d.len(), 1) {
        Some(n) => n,
        None => 0,
    };
    let count = if p.shift >= 0 {
        count_left(d, p.shift as u128, unit, cap)
    } else {
        count_right(d, (-p.shift) as u128, unit, cap)
    };
    Some(Units { count, zero: first == 0, negative: first > 0 && v[0] == '-' })
}

/// The time that the decimal number of seconds `s` gives, in ticks.
pub open spec fn seconds_value(s: Seq<char>) -> Option<int> {
    let n = capped_units(unsigned_part(s), TICKS_PER_SEC as nat, MAX_TICKS as nat);
    if is_decimal(s) {
        if s[0] == '-' {
            Some(-(n as int))
        } else {
            Some(n as int)
        }
    } else {
        None
    }
}

/// Reads a decimal number of seconds, in ticks.
pub fn parse_seconds(v: &Vec<char>) -> (r: Option<i128>)
    ensures
        match r {
            Some(n) => seconds_value(v@) == Some(n as int) && -MAX_TICKS <= n <= MAX_TICKS,
            None => seconds_value(v@) is None,
        },
{
    match parse_units(v, 3_528_000_000, MAX_TICKS as u128) {
        Some(p) => {
            if v[0] == '-' {
                Some(-(p.count as i128))
            } else {
                Some(p.count as i128)
            }
        },
        None => None,
    }
}

// ---- Ratios ---------------------------------------------------------------

/// Digits of a number that count in a ratio, from its first that is not 0 on.
pub const RATIO_DIGITS: usize = 18;

/// The digits of `d` that count.
pub open spec fn leading(d: Seq<char>) -> Seq<char> {
    let z = zeros_before(d);
    if d.len() - z <= RATIO_DIGITS {
        d.skip(z)
    } else {
        d.subrange(z, z + RATIO_DIGITS)
    }
}

/// How many zeros stand before all other digits.
pub open spec fn zeros_before(d: Seq<char>) -> int
    decreases d.len(),
{
    if d.len() == 0 || d[0] != '0' {
        0
    } else {
        1 + zeros_before(d.drop_first())
    }
}

/// A number as `size` times a power of ten, for a ratio.
#[derive(Debug, Clone, Copy)]
pub struct Scaled {
    pub size: u64,
    pub negative: bool,
    pub shift: i128,
}

/// A number as `size` times a power of ten, for a ratio.
pub struct ScaledView {
    pub size: nat,
    pub negative: bool,
    pub shift: int,
}

/// The number that `s` writes down, for a ratio; `None` if it is none.
pub open spec fn scaled_number(s: Seq<char>) -> Option<ScaledView> {
    let u = unsigned_part(s);
    let d = digits_of(mantissa(u));
    if is_decimal(s) {
        Some(
            ScaledView {
                size: nat_of(leading(d)),
                negative: s[0] == '-',
                shift: shift_of(u) + (d.len() - zeros_before(d) - leading(d).len()),
            },
        )
    } else {
        None
    }
}

impl View for Scaled {
    type V = ScaledView;

    open spec fn view(&self) -> ScaledView {
        ScaledView { size: self.size as nat, negative: self.negative, shift: self.shift as int }
    }
}

impl Scaled {
    /// Whether the size and the power are within what a ratio is computed of.
    pub open spec fn is_sound(self) -> bool {
        self.size < 1_000_000_000_000_000_000 && -(3 * MAX_EXPONENT) <= self.shift <= 3 * MAX_EXPONENT
    }
}

proof fn lemma_zeros_before(d: Seq<char>)
    ensures
        0 <= zeros_before(d) <= d.len(),
    decreases d.len(),
{
    if d.len() > 0 && d[0] == '0' {
        lemma_zeros_before(d.drop_first());
    }
}

/// Reads a decimal number for a ratio. `None` if it is none.
pub fn parse_scaled(v: &Vec<char>) -> (r: Option<Scaled>)
    ensures
        match r {
            Some(n) => scaled_number(v@) == Some(n@) && n.is_sound(),
            None => scaled_number(v@) is None,
        },
{
    let p = match take_apart(v) {
        Some(p) => p,
        None => {
            return None;
        },
    };
    let d = &p.digits;
    let mut z: usize = 0;
    assert(d@.skip(0) =~= d@);
    while z < d.len() && d[z] == '0'
        invariant
            z <= d.len(),
            zeros_before(d@) == z + zeros_before(d@.skip(z as int)),
        decreases d.len() - z,
    {
        proof {
            assert(d@.skip(z as int)[0] == d@[z as int]);
            assert(d@.skip(z as int).drop_first() =~= d@.skip(z + 1));
        }
        z = z + 1;
    }
    proof {
        if z < d.len() {
            assert(d@.skip(z as int)[0] == d@[z as int]);
        }
    }
    let end: usize = if d.len() - z <= RATIO_DIGITS {
        d.len()
    } else {
        z + RATIO_DIGITS
    };
    proof {
        assert(d@.subrange(z as int, end as int) =~= leading(d@));
        lemma_all_digits_of_part(d@, z as int, end as int);
        lemma_nat_of_bound(leading(d@));
        lemma_pow10_grows(leading(d@).len(), 18);
        reveal_with_fuel(pow10, 19);
        assert(pow10(18) == 1_000_000_000_000_000_000);
    }
    let size = match capped_number(d, z, end, 1_000_000_000_000_000_000) {
        Some(n) => n as u64,
        None => 0,
    };
    let dropped: i128 = (d.len() - end) as i128;
    Some(Scaled { size, negative: v[0] == '-', shift: p.shift + dropped })
}

/// `n` times `num/den` seconds, in ticks, without its sign: rounded down, and held within the
/// longest time.
pub open spec fn ratio_ticks(n: nat, num: ScaledView, den: ScaledView) -> nat {
    let a = n * num.size * (TICKS_PER_SEC as nat);
    let shift = num.shift - den.shift;
    let t = if shift >= 0 {
        a * pow10(shift as nat) / den.size
    } else {
        a / (den.size * pow10((-shift) as nat))
    };
    at_most(t, MAX_TICKS as nat)
}

/// How many whole seconds make more than the longest time.
const MAX_SECS: u128 = 283_446_712_018_140_589_569_160_997;

proof fn lemma_max_secs()
    ensures
        MAX_SECS * TICKS_PER_SEC <= MAX_TICKS,
        (MAX_SECS + 1) * TICKS_PER_SEC > MAX_TICKS,
{
}

/// The ticks of `x * 10^places / d` seconds, up to the longest time.
fn ratio_left(x: u128, d: u64, places: u128) -> (r: u128)
    requires
        d > 0,
        d < 1_000_000_000_000_000_000,
        x > 0,
    ensures
        r == at_most(
            (x as nat) * (TICKS_PER_SEC as nat) * pow10(places as nat) / (d as nat),
            MAX_TICKS as nat,
        ),
{
    let big: u128 = d as u128;
    let mut q: u128 = x / big;
    let mut r: u128 = x % big;
    let mut k: u128 = 0;
    proof {
        lemma_max_secs();
        assert(x == q * big + r && r < big) by (nonlinear_arith)
            requires
                q == x / big,
                r == x % big,
                big > 0,
        ;
        assert((x as nat) * pow10(0) == x) by (nonlinear_arith)
            requires
                pow10(0) == 1,
        ;
    }
    while k < places && q <= MAX_SECS
        invariant
            k <= places,
            big == d,
            0 < big < 1_000_000_000_000_000_000,
            r < big,
            (x as nat) * pow10(k as nat) == (q as nat) * (big as nat) + (r as nat),
        decreases places - k,
    {
        let more: u128 = r * 10 / big;
        let rest: u128 = r * 10 % big;
        proof {
            let p = pow10(k as nat);
            let xx = x as nat;
            assert(xx * (10 * p) == 10 * (xx * p)) by (nonlinear_arith);
            assert(r * 10 == more * big + rest && rest < big && more < 10) by (nonlinear_arith)
                requires
                    more == (r * 10) as int / (big as int),
                    rest == (r * 10) as int % (big as int),
                    0 <= r < big,
            ;
            assert((q * 10 + more) * big == 10 * (q * big) + more * big) by (nonlinear_arith);
        }
        q = q * 10 + more;
        r = rest;
        k = k + 1;
    }
    proof {
        lemma_ratio_left(x as nat, d as nat, places as nat, k as nat, q as nat, r as nat);
    }
    if q > MAX_SECS {
        return MAX_TICKS as u128;
    }
    let t: u128 = q * 3_528_000_000 + r * 3_528_000_000 / big;
    if t > MAX_TICKS as u128 {
        MAX_TICKS as u128
    } else {
        t
    }
}

proof fn lemma_ratio_left(x: nat, d: nat, places: nat, k: nat, q: nat, r: nat)
    requires
        0 < d,
        k <= places,
        r < d,
        x * pow10(k) == q * d + r,
    ensures
        ({
            let ticks = TICKS_PER_SEC as nat;
            let t = x * ticks * pow10(places) / d;
            &&& t >= q * ticks
            &&& k == places ==> t == q * ticks + r * ticks / d
        }),
{
    let ticks = TICKS_PER_SEC as nat;
    let p = pow10(k);
    lemma_pow10_grows(k, places);
    assert(x * ticks * p == (q * ticks) * d + r * ticks) by (nonlinear_arith)
        requires
            x * p == q * d + r,
    ;
    assert(r * ticks >= 0) by (nonlinear_arith)
        requires
            r >= 0,
            ticks >= 0,
    ;
    vstd::arithmetic::div_mod::lemma_hoist_over_denominator((r * ticks) as int, (q * ticks) as int, d);
    assert((r * ticks) / d >= 0) by (nonlinear_arith)
        requires
            r * ticks >= 0,
            d > 0,
    ;
    let whole = x * ticks;
    assert(whole * p <= whole * pow10(places)) by (nonlinear_arith)
        requires
            p <= pow10(places),
            whole >= 0,
    ;
    vstd::arithmetic::div_mod::lemma_div_is_ordered(
        (whole * p) as int,
        (whole * pow10(places)) as int,
        d as int,
    );
}

/// The ticks of `x / (d * 10^places)` seconds, up to the longest time.
fn ratio_right(x: u128, d: u64, places: u128) -> (r: u128)
    requires
        0 < d < 1_000_000_000_000_000_000,
    ensures
        r == at_most(
            (x as nat) * (TICKS_PER_SEC as nat) / ((d as nat) * pow10(places as nat)),
            MAX_TICKS as nat,
        ),
{
    let big: u128 = d as u128;
    let mut q: u128 = x / big;
    let rest: u128 = x % big;
    let ghost ticks = TICKS_PER_SEC as nat;
    let ghost all = (x as nat) * ticks;
    proof {
        lemma_max_secs();
        assert(x == q * big + rest && rest < big) by (nonlinear_arith)
            requires
                q == x / big,
                rest == x % big,
                big > 0,
        ;
    }
    let mut c: u128 = rest * 3_528_000_000 / big;
    proof {
        lemma_ratio_right_start(x as nat, d as nat, q as nat, rest as nat);
    }
    let mut k: u128 = 0;
    assert(all / (d as nat) / 1 == all / (d as nat)) by (nonlinear_arith);
    while k < places && (q > 0 || c > 0)
        invariant
            k <= places,
            ticks == 3_528_000_000,
            d > 0,
            c < ticks,
            (q as nat) * ticks + (c as nat) == all / (d as nat) / pow10(k as nat),
        decreases places - k,
    {
        let digit: u128 = q % 10;
        proof {
            let y = all / (d as nat);
            lemma_pow10_positive(k as nat);
            assert(y >= 0) by (nonlinear_arith)
                requires
                    y == all / (d as nat),
                    d > 0,
                    all >= 0,
            ;
            vstd::arithmetic::div_mod::lemma_div_denominator(y as int, pow10(k as nat) as int, 10);
            let hi = (q / 10) as nat;
            assert(q == hi * 10 + digit);
            assert((q as nat) * ticks + (c as nat) == (hi * ticks) * 10 + ((digit as nat) * ticks + (c as nat)))
                by (nonlinear_arith)
                requires
                    q == hi * 10 + digit,
            ;
        }
        c = (digit * 3_528_000_000 + c) / 10;
        q = q / 10;
        k = k + 1;
    }
    proof {
        let y = all / (d as nat);
        lemma_pow10_positive(k as nat);
        lemma_pow10_positive(places as nat);
        if k < places {
            assert(y / pow10(k as nat) == 0);
            lemma_pow10_grows(k as nat, places as nat);
            lemma_stays_zero(y, pow10(k as nat), pow10(places as nat));
        }
        vstd::arithmetic::div_mod::lemma_div_denominator(all as int, d as int, pow10(places as nat) as int);
        if q > MAX_SECS {
            assert((q as nat) * ticks > MAX_TICKS) by (nonlinear_arith)
                requires
                    q >= MAX_SECS + 1,
                    (MAX_SECS + 1) * ticks > MAX_TICKS,
                    ticks >= 1,
            ;
        }
    }
    if q > MAX_SECS {
        return MAX_TICKS as u128;
    }
    let t: u128 = q * 3_528_000_000 + c;
    if t > MAX_TICKS as u128 {
        MAX_TICKS as u128
    } else {
        t
    }
}

proof fn lemma_ratio_right_start(x: nat, d: nat, q: nat, r: nat)
    requires
        d > 0,
        x == q * d + r,
        r < d,
    ensures
        x * (TICKS_PER_SEC as nat) / d == q * (TICKS_PER_SEC as nat) + r * (TICKS_PER_SEC as nat) / d,
        r * (TICKS_PER_SEC as nat) / d < TICKS_PER_SEC as nat,
{
    let ticks = TICKS_PER_SEC as nat;
    assert(x * ticks == r * ticks + (q * ticks) * d) by (nonlinear_arith)
        requires
            x == q * d + r,
    ;
    vstd::arithmetic::div_mod::lemma_hoist_over_denominator((r * ticks) as int, (q * ticks) as int, d);
    assert(r * ticks / d < ticks) by (nonlinear_arith)
        requires
            0 <= r < d,
            ticks > 0,
    ;
}

proof fn lemma_stays_zero(y: nat, p: nat, q: nat)
    requires
        1 <= p <= q,
        y / p == 0,
    ensures
        y / q == 0,
{
    assert(y < p) by (nonlinear_arith)
        requires
            y / p == 0,
            p >= 1,
            y >= 0,
    ;
    assert(y / q == 0) by (nonlinear_arith)
        requires
            0 <= y < q,
    ;
}

/// Computes `n` times `num/den` seconds, in ticks, without its sign.
pub fn ratio_of(n: u64, num: Scaled, den: Scaled) -> (r: u128)
    requires
        num.is_sound(),
        den.is_sound(),
        den.size > 0,
    ensures
        r == ratio_ticks(n as nat, num@, den@),
        r <= MAX_TICKS,
{
    proof {
        assert(0 <= (n as int) * (num.size as int) <= 0xffff_ffff_ffff_ffff * 1_000_000_000_000_000_000)
            by (nonlinear_arith)
            requires
                0 <= n <= 0xffff_ffff_ffff_ffff,
                0 <= num.size <= 1_000_000_000_000_000_000,
        ;
    }
    let x: u128 = (n as u128) * (num.size as u128);
    let shift: i128 = num.shift - den.shift;
    if shift < 0 {
        return ratio_right(x, den.size, (-shift) as u128);
    }
    if x == 0 {
        proof {
            assert(0 * pow10(shift as nat) == 0) by (nonlinear_arith);
            assert(0nat / (den.size as nat) == 0) by (nonlinear_arith)
                requires
                    den.size > 0,
            ;
        }
        return 0;
    }
    ratio_left(x, den.size, shift as u128)
}

/// The length of a number, without its sign.
pub open spec fn magnitude(n: int) -> int {
    if n < 0 {
        -n
    } else {
        n
    }
}

/// A time in whole microseconds, halves rounded up.
pub open spec fn micros(ticks: int) -> nat {
    ((magnitude(ticks) + TICKS_PER_MICRO / 2) / (TICKS_PER_MICRO as int)) as nat
}

/// A time as seconds with six decimals: `30.000000`.
pub open spec fn seconds_text(ticks: int) -> Seq<char> {
    let m = micros(ticks);
    let text = dec(m / 1_000_000) + seq!['.'] + zero_pad(dec(m % 1_000_000), 6);
    if ticks < 0 {
        seq!['-'] + text
    } else {
        text
    }
}

/// Formats a time as seconds with six decimals.
pub fn fmt_secs(ticks: i128) -> (r: String)
    ensures
        r@ == seconds_text(ticks as int),
{
    let size: u128 = if ticks < 0 {
        (-(ticks + 1)) as u128 + 1
    } else {
        ticks as u128
    };
    let m: u128 = (size + 1764) / 3528;
    let mut r = String::new();
    if ticks < 0 {
        r.push('-');
    }
    let whole = dec_string(m / 1_000_000);
    r.append(whole.as_str());
    r.push('.');
    let frac = dec_padded(m % 1_000_000, 6);
    r.append(frac.as_str());
    assert(r@ =~= seconds_text(ticks as int));
    r
}

// ---- What holds of it -----------------------------------------------------

proof fn lemma_is_absent(s: Seq<char>, c: char)
    requires
        !s.contains(c),
    ensures
        index_from(s, c, 0) == s.len(),
{
    lemma_index_from(s, c, 0);
}

pub proof fn lemma_point_number(w: Seq<char>, f: Seq<char>)
    requires
        w.len() > 0,
        all_digits(w),
        all_digits(f),
    ensures
        ({
            let s = w + seq!['.'] + f;
            &&& is_decimal(s)
            &&& unsigned_part(s) == s
            &&& forall|unit: nat| #[trigger]
                decimal_units(s, unit) == nat_of(w + f) * unit / pow10(f.len())
        }),
{
    let s = w + seq!['.'] + f;
    assert(is_digit(w[0]));
    assert(s[0] == w[0]);
    assert forall|c: char| c != '.' && !is_digit(c) implies !#[trigger] s.contains(c) by {
        if s.contains(c) {
            let i = choose|i: int| 0 <= i < s.len() && s[i] == c;
            if i < w.len() {
                assert(is_digit(w[i]));
            } else if i > w.len() {
                assert(s[i] == f[i - w.len() - 1]);
                assert(is_digit(f[i - w.len() - 1]));
            }
        }
    }
    assert(!s.contains('e') && !s.contains('E'));
    lemma_is_absent(s, 'e');
    lemma_is_absent(s, 'E');
    assert(s.take(s.len() as int) =~= s);
    lemma_index_from(s, '.', 0);
    let at = index_from(s, '.', 0);
    assert(at == w.len()) by {
        if at < w.len() {
            assert(is_digit(w[at]));
        } else if at > w.len() {
            assert(s[w.len() as int] == '.');
        }
    }
    assert(s.take(at) =~= w);
    assert(s.skip(at + 1) =~= f);
    let d = w + f;
    assert(digits_of(s) == d);
    assert forall|i: int| 0 <= i < d.len() implies is_digit(#[trigger] d[i]) by {
        if i < w.len() {
            assert(is_digit(w[i]));
        } else {
            assert(is_digit(f[i - w.len()]));
        }
    }
    assert forall|unit: nat| #[trigger] decimal_units(s, unit) == nat_of(d) * unit / pow10(f.len()) by {
        if f.len() == 0 {
            let x = nat_of(d) * unit;
            assert(x * 1 == x && x / 1 == x) by (nonlinear_arith);
        }
    }
}

pub proof fn lemma_plain_number(w: Seq<char>)
    requires
        w.len() > 0,
        all_digits(w),
    ensures
        is_decimal(w),
        unsigned_part(w) == w,
        forall|unit: nat| #[trigger] decimal_units(w, unit) == nat_of(w) * unit,
{
    assert(is_digit(w[0]));
    assert forall|c: char| !is_digit(c) implies !#[trigger] w.contains(c) by {
        if w.contains(c) {
            let i = choose|i: int| 0 <= i < w.len() && w[i] == c;
            assert(is_digit(w[i]));
        }
    }
    assert(!w.contains('e') && !w.contains('E') && !w.contains('.'));
    lemma_is_absent(w, 'e');
    lemma_is_absent(w, 'E');
    lemma_is_absent(w, '.');
    assert(w.take(w.len() as int) =~= w);
    assert(digits_of(w) =~= w);
    assert forall|unit: nat| #[trigger] decimal_units(w, unit) == nat_of(w) * unit by {
        let x = nat_of(w) * unit;
        assert(x * 1 == x) by (nonlinear_arith);
    }
}

/// The digits of a number that is nothing but digits are the number.
pub proof fn law_digits_of_a_plain_number(w: Seq<char>)
    requires
        w.len() > 0,
        all_digits(w),
    ensures
        digits_of(mantissa(w)) == w,
{
    assert forall|c: char| !is_digit(c) implies !#[trigger] w.contains(c) by {
        if w.contains(c) {
            let i = choose|i: int| 0 <= i < w.len() && w[i] == c;
            assert(is_digit(w[i]));
        }
    }
    assert(!w.contains('e') && !w.contains('E') && !w.contains('.'));
    lemma_is_absent(w, 'e');
    lemma_is_absent(w, 'E');
    lemma_is_absent(w, '.');
    assert(w.take(w.len() as int) =~= w);
    assert(digits_of(mantissa(w)) =~= w);
}

/// Digits alone are whole seconds: 3,528,000,000 ticks each, up to the longest time.
pub proof fn law_digits_are_seconds(d: Seq<char>)
    requires
        d.len() > 0,
        all_digits(d),
    ensures
        nat_of(d) * 3_528_000_000 <= MAX_TICKS ==> seconds_value(d) == Some((nat_of(d) * 3_528_000_000) as int),
        nat_of(d) * 3_528_000_000 > MAX_TICKS ==> seconds_value(d) == Some(MAX_TICKS as int),
{
    lemma_plain_number(d);
    assert(is_digit(d[0]));
    assert(decimal_units(d, 3_528_000_000nat) == nat_of(d) * 3_528_000_000);
}

/// A whole number of seconds is read as that many times 3,528,000,000 ticks, up to the longest
/// time.
pub proof fn law_whole_seconds_are_read(n: nat)
    ensures
        n * 3_528_000_000 <= MAX_TICKS ==> seconds_value(dec(n)) == Some((n * 3_528_000_000) as int),
        n * 3_528_000_000 > MAX_TICKS ==> seconds_value(dec(n)) == Some(MAX_TICKS as int),
{
    lemma_dec_round_trip(n);
    law_digits_are_seconds(dec(n));
}

/// A number of seconds with a fraction is read as the ticks that it makes, rounded down: at `t`
/// ticks, `f` being `k` digits, `n` and `f` together lie from `t` to `t + 1` ticks, both taken
/// 10^k times. A `-` in front of it turns the time round, a `+` changes nothing.
pub proof fn law_fractions_of_seconds_are_read(n: nat, f: Seq<char>)
    requires
        all_digits(f),
        (n * pow10(f.len()) + nat_of(f)) * 3_528_000_000 <= MAX_TICKS * pow10(f.len()),
    ensures
        ({
            let s = dec(n) + seq!['.'] + f;
            &&& seconds_value(s) matches Some(t)
            &&& t * pow10(f.len()) <= (n * pow10(f.len()) + nat_of(f)) * 3_528_000_000
            &&& (n * pow10(f.len()) + nat_of(f)) * 3_528_000_000 < (t + 1) * pow10(f.len())
            &&& seconds_value(seq!['-'] + s) == Some(-t)
            &&& seconds_value(seq!['+'] + s) == Some(t)
        }),
{
    let w = dec(n);
    let s = w + seq!['.'] + f;
    lemma_dec_round_trip(n);
    lemma_point_number(w, f);
    lemma_nat_of_parts(w, f);
    assert(is_digit(w[0]));
    let p = pow10(f.len());
    lemma_pow10_positive(f.len());
    let x = nat_of(w + f) * 3_528_000_000nat;
    assert(decimal_units(s, 3_528_000_000nat) == x / p);
    let t = x / p;
    assert(t * p <= x && x < (t + 1) * p) by (nonlinear_arith)
        requires
            t == x / p,
            p >= 1,
            x >= 0,
    ;
    assert(t <= MAX_TICKS) by (nonlinear_arith)
        requires
            t * p <= x,
            x <= MAX_TICKS * p,
            p >= 1,
    ;
    assert((seq!['-'] + s).drop_first() =~= s);
    assert((seq!['+'] + s).drop_first() =~= s);
}

/// A power of ten behind a number multiplies it.
pub proof fn law_exponents_multiply(n: nat, k: nat)
    requires
        k <= MAX_EXPONENT,
        n * 3_528_000_000 * pow10(k) <= MAX_TICKS,
    ensures
        seconds_value(dec(n) + seq!['e'] + dec(k)) == Some((n * 3_528_000_000 * pow10(k)) as int),
{
    let w = dec(n);
    let e = dec(k);
    let s = w + seq!['e'] + e;
    lemma_dec_round_trip(n);
    lemma_dec_round_trip(k);
    assert(is_digit(w[0]) && is_digit(e[0]));
    assert(s[0] == w[0]);
    assert forall|c: char| c != 'e' && !is_digit(c) implies !#[trigger] s.contains(c) by {
        if s.contains(c) {
            let i = choose|i: int| 0 <= i < s.len() && s[i] == c;
            if i < w.len() {
                assert(is_digit(w[i]));
            } else if i > w.len() {
                assert(s[i] == e[i - w.len() - 1]);
                assert(is_digit(e[i - w.len() - 1]));
            }
        }
    }
    assert(!s.contains('E'));
    lemma_is_absent(s, 'E');
    lemma_index_from(s, 'e', 0);
    let at = index_from(s, 'e', 0);
    assert(at == w.len()) by {
        if at < w.len() {
            assert(is_digit(w[at]));
        } else if at > w.len() {
            assert(s[w.len() as int] == 'e');
        }
    }
    assert(s.take(at) =~= w);
    assert(s.skip(at + 1) =~= e);
    assert forall|c: char| !is_digit(c) implies !#[trigger] w.contains(c) by {
        if w.contains(c) {
            let i = choose|i: int| 0 <= i < w.len() && w[i] == c;
            assert(is_digit(w[i]));
        }
    }
    assert(!w.contains('.'));
    lemma_is_absent(w, '.');
    assert(w.take(w.len() as int) =~= w);
    assert(digits_of(w) =~= w);
    assert(exponent(s) == k);
    assert(decimal_units(s, 3_528_000_000nat) == n * 3_528_000_000nat * pow10(k));
}

proof fn lemma_dec_len(n: nat, w: nat)
    requires
        w >= 1,
        n < pow10(w),
    ensures
        dec(n).len() <= w,
    decreases w,
{
    if n >= 10 {
        if w == 1 {
            reveal_with_fuel(pow10, 2);
        } else {
            lemma_dec_len(n / 10, (w - 1) as nat);
        }
    }
}

/// A time that is written as seconds with six decimals reads back as the nearest whole
/// microsecond, which is 3,528 ticks: no more than half of that away. Times of whole microseconds
/// read back as they are.
pub proof fn law_written_seconds_read_back(ticks: int)
    requires
        -MAX_TICKS + 3_528 <= ticks <= MAX_TICKS - 3_528,
    ensures
        seconds_value(seconds_text(ticks)) matches Some(t) && {
            &&& -1_764 <= t - ticks <= 1_764
            &&& ticks % 3_528 == 0 ==> t == ticks
        },
{
    let m = micros(ticks);
    let f = zero_pad(dec(m % 1_000_000), 6);
    let n = m / 1_000_000;
    reveal_with_fuel(pow10, 7);
    assert(pow10(6) == 1_000_000);
    lemma_padded_digits(m % 1_000_000, 6);
    lemma_padded_value(dec(m % 1_000_000), 6);
    lemma_dec_round_trip(m % 1_000_000);
    lemma_dec_len(m % 1_000_000, 6);
    lemma_zero_pad(dec(m % 1_000_000), 6);
    assert(f.len() == 6);
    let x = n * 1_000_000 + m % 1_000_000;
    assert(x == m);
    law_fractions_of_seconds_are_read(n, f);
    let s = dec(n) + seq!['.'] + f;
    let t = seconds_value(s)->0;
    assert(t == m * 3_528);
    assert(seconds_text(ticks) == if ticks < 0 {
        seq!['-'] + s
    } else {
        s
    });
}

/// No number but 0 is written with a 0 in front.
pub proof fn law_first_digit_counts(n: nat)
    requires
        n > 0,
    ensures
        dec(n)[0] != '0',
    decreases n,
{
    lemma_dec_round_trip(n);
    if n >= 10 {
        law_first_digit_counts(n / 10);
        lemma_dec_round_trip(n / 10);
        assert(dec(n)[0] == dec(n / 10)[0]);
    } else {
        assert(digit_value(digit_char(n)) == n);
        assert(digit_value('0') == 0);
    }
}

/// A whole number of up to 18 digits stands in a ratio as it is.
pub proof fn law_whole_numbers_are_scaled_by_one(n: nat)
    requires
        n < 1_000_000_000_000_000_000,
    ensures
        scaled_number(dec(n)) == Some(ScaledView { size: n, negative: false, shift: 0 }),
{
    let d = dec(n);
    lemma_dec_round_trip(n);
    lemma_plain_number(d);
    assert(is_digit(d[0]));
    reveal_with_fuel(pow10, 19);
    assert(pow10(18) == 1_000_000_000_000_000_000);
    lemma_dec_len(n, 18);
    assert forall|c: char| !is_digit(c) implies !#[trigger] d.contains(c) by {
        if d.contains(c) {
            let i = choose|i: int| 0 <= i < d.len() && d[i] == c;
            assert(is_digit(d[i]));
        }
    }
    assert(!d.contains('e') && !d.contains('E') && !d.contains('.'));
    lemma_is_absent(d, 'e');
    lemma_is_absent(d, 'E');
    lemma_is_absent(d, '.');
    assert(d.take(d.len() as int) =~= d);
    assert(digits_of(mantissa(d)) =~= d);
    if n > 0 {
        law_first_digit_counts(n);
        assert(zeros_before(d) == 0);
        assert(d.skip(0) =~= d);
    } else {
        assert(d[0] == '0') by {
            assert(d =~= seq![digit_char(0)]);
        }
        reveal_with_fuel(zeros_before, 2);
        assert(d.drop_first() =~= Seq::empty());
        assert(zeros_before(d) == 1);
        assert(d.skip(1) =~= Seq::empty());
    }
}

/// A ratio of whole numbers is taken as it is: `n` times `num/den` seconds, in ticks, rounded down.
pub proof fn law_ratio_of_whole_numbers(n: nat, num: nat, den: nat)
    requires
        den > 0,
        n * num * 3_528_000_000 <= MAX_TICKS,
    ensures
        ratio_ticks(
            n,
            ScaledView { size: num, negative: false, shift: 0 },
            ScaledView { size: den, negative: false, shift: 0 },
        ) == n * num * 3_528_000_000 / den,
{
    let a = n * num * 3_528_000_000nat;
    assert(pow10(0) == 1);
    assert(a * 1 == a) by (nonlinear_arith);
    assert(a / den <= a) by (nonlinear_arith)
        requires
            den > 0,
            a >= 0,
    ;
}

/// A number with a fraction, of up to 18 digits in all, stands in a ratio as its digits, moved by as
/// many places as there are behind the point.
pub proof fn law_fractions_are_scaled_by_their_places(n: nat, f: Seq<char>)
    requires
        n > 0,
        all_digits(f),
        dec(n).len() + f.len() <= 18,
    ensures
        scaled_number(dec(n) + seq!['.'] + f) == Some(
            ScaledView { size: n * pow10(f.len()) + nat_of(f), negative: false, shift: -(f.len() as int) },
        ),
        scaled_number(seq!['-'] + dec(n) + seq!['.'] + f) == Some(
            ScaledView { size: n * pow10(f.len()) + nat_of(f), negative: true, shift: -(f.len() as int) },
        ),
{
    let w = dec(n);
    let s = w + seq!['.'] + f;
    let d = w + f;
    lemma_dec_round_trip(n);
    lemma_point_number(w, f);
    lemma_nat_of_parts(w, f);
    law_first_digit_counts(n);
    assert(is_digit(w[0]));
    assert(s[0] == w[0] && d[0] == w[0]);
    lemma_point_parts(w, f);
    assert(zeros_before(d) == 0);
    assert(d.skip(0) =~= d);
    assert(leading(d) == d);
    let m = seq!['-'] + w + seq!['.'] + f;
    assert(m.drop_first() =~= s);
    assert(m[0] == '-');
}

proof fn lemma_point_parts(w: Seq<char>, f: Seq<char>)
    requires
        w.len() > 0,
        all_digits(w),
        all_digits(f),
    ensures
        ({
            let s = w + seq!['.'] + f;
            digits_of(mantissa(s)) == w + f && shift_of(s) == -(f.len() as int)
        }),
{
    let s = w + seq!['.'] + f;
    assert forall|c: char| c != '.' && !is_digit(c) implies !#[trigger] s.contains(c) by {
        if s.contains(c) {
            let i = choose|i: int| 0 <= i < s.len() && s[i] == c;
            if i < w.len() {
                assert(is_digit(w[i]));
            } else if i > w.len() {
                assert(s[i] == f[i - w.len() - 1]);
                assert(is_digit(f[i - w.len() - 1]));
            }
        }
    }
    assert(!s.contains('e') && !s.contains('E'));
    lemma_is_absent(s, 'e');
    lemma_is_absent(s, 'E');
    assert(s.take(s.len() as int) =~= s);
    lemma_index_from(s, '.', 0);
    let at = index_from(s, '.', 0);
    assert(at == w.len()) by {
        if at < w.len() {
            assert(is_digit(w[at]));
        } else if at > w.len() {
            assert(s[w.len() as int] == '.');
        }
    }
    assert(s.take(at) =~= w);
    assert(s.skip(at + 1) =~= f);
}

/// The places that the two numbers of a ratio are moved by count against each other: `n` steps of
/// `a/b` seconds, `a` moved by `i` places and `b` by `j`, are `n * a * 10^i / (b * 10^j)` seconds.
pub proof fn law_places_of_a_ratio_count(n: nat, a: nat, i: int, b: nat, j: int)
    requires
        b > 0,
        i >= j ==> n * a * 3_528_000_000 * pow10((i - j) as nat) / b <= MAX_TICKS,
        i < j ==> n * a * 3_528_000_000 / (b * pow10((j - i) as nat)) <= MAX_TICKS,
    ensures
        ({
            let t = ratio_ticks(
                n,
                ScaledView { size: a, negative: false, shift: i },
                ScaledView { size: b, negative: false, shift: j },
            );
            &&& i >= j ==> t == n * a * 3_528_000_000 * pow10((i - j) as nat) / b
            &&& i < j ==> t == n * a * 3_528_000_000 / (b * pow10((j - i) as nat))
        }),
{
}

} // verus!
