//! Text as a sequence of characters: the splitting, trimming, matching and
//! number formatting that the rest of the library is written in.

use vstd::prelude::*;
use vstd::string::StringExecFns;

verus! {

/// `String::push`: appends one character.
pub assume_specification[ String::push ](s: &mut String, c: char)
    ensures
        final(s)@ == old(s)@.push(c),
;

/// The text of an optional string.
pub open spec fn opt_text(o: Option<String>) -> Option<Seq<char>> {
    match o {
        Some(s) => Some(s@),
        None => None,
    }
}

/// The text of an optional string slice.
pub open spec fn opt_str(o: Option<&str>) -> Option<Seq<char>> {
    match o {
        Some(s) => Some(s@),
        None => None,
    }
}

/// The texts of a list of strings.
pub open spec fn texts(v: Seq<String>) -> Seq<Seq<char>> {
    v.map_values(|s: String| s@)
}

// ---- Conversions ----------------------------------------------------------

/// The characters of `s`.
pub fn chars_of(s: &str) -> (v: Vec<char>)
    ensures
        v@ == s@,
{
    let mut v: Vec<char> = Vec::new();
    for c in iter: s.chars()
        invariant
            v@ == s@.take(iter.index() as int),
            iter.seq() == s@,
    {
        v.push(c);
        proof {
            assert(s@.take(iter.index() as int + 1) =~= s@.take(iter.index() as int).push(c));
        }
    }
    assert(s@.take(s@.len() as int) =~= s@);
    v
}

/// The string made of `v[i..j]`.
pub fn string_from(v: &Vec<char>, i: usize, j: usize) -> (s: String)
    requires
        i <= j <= v.len(),
    ensures
        s@ == v@.subrange(i as int, j as int),
{
    let mut s = String::new();
    let mut k: usize = i;
    while k < j
        invariant
            i <= k <= j <= v.len(),
            s@ == v@.subrange(i as int, k as int),
        decreases j - k,
    {
        s.push(v[k]);
        proof {
            assert(v@.subrange(i as int, k + 1) =~= v@.subrange(i as int, k as int).push(v@[k as int]));
        }
        k = k + 1;
    }
    s
}

/// The string made of all of `v`.
pub fn string_of(v: &Vec<char>) -> (s: String)
    ensures
        s@ == v@,
{
    let s = string_from(v, 0, v.len());
    assert(v@.subrange(0, v@.len() as int) =~= v@);
    s
}

/// The characters `v[i..j]`.
pub fn slice_of(v: &Vec<char>, i: usize, j: usize) -> (r: Vec<char>)
    requires
        i <= j <= v.len(),
    ensures
        r@ == v@.subrange(i as int, j as int),
{
    let mut r: Vec<char> = Vec::new();
    let mut k: usize = i;
    while k < j
        invariant
            i <= k <= j <= v.len(),
            r@ == v@.subrange(i as int, k as int),
        decreases j - k,
    {
        r.push(v[k]);
        proof {
            assert(v@.subrange(i as int, k + 1) =~= v@.subrange(i as int, k as int).push(v@[k as int]));
        }
        k = k + 1;
    }
    r
}

/// A copy of an optional string.
pub fn clone_opt(o: &Option<String>) -> (r: Option<String>)
    ensures
        opt_text(r) == opt_text(*o),
{
    match o {
        Some(s) => Some(s.clone()),
        None => None,
    }
}

/// Whether `a` and `b` are the same text.
pub fn str_eq(a: &str, b: &str) -> (r: bool)
    ensures
        r == (a@ == b@),
{
    a.to_owned() == b.to_owned()
}

/// Whether `a` and `b` are both absent, or the same text.
pub fn opt_eq(a: &Option<String>, b: &Option<String>) -> (r: bool)
    ensures
        r == (opt_text(*a) == opt_text(*b)),
{
    match (a, b) {
        (Some(x), Some(y)) => str_eq(x.as_str(), y.as_str()),
        (None, None) => true,
        _ => false,
    }
}

// ---- ASCII case -----------------------------------------------------------

/// One character, ASCII letters in lower case.
pub open spec fn lower_char(c: char) -> char {
    if 'A' <= c && c <= 'Z' {
        ((c as u8) + 32) as u8 as char
    } else {
        c
    }
}

/// `s` with ASCII letters in lower case.
pub open spec fn lower(s: Seq<char>) -> Seq<char> {
    s.map_values(|c: char| lower_char(c))
}

pub fn to_lower_char(c: char) -> (r: char)
    ensures
        r == lower_char(c),
{
    if 'A' <= c && c <= 'Z' {
        ((c as u8) + 32) as char
    } else {
        c
    }
}

/// `v` with ASCII letters in lower case.
pub fn to_lower(v: &Vec<char>) -> (r: Vec<char>)
    ensures
        r@ == lower(v@),
{
    let mut r: Vec<char> = Vec::new();
    let mut k: usize = 0;
    while k < v.len()
        invariant
            k <= v.len(),
            r@ == lower(v@.take(k as int)),
        decreases v.len() - k,
    {
        r.push(to_lower_char(v[k]));
        proof {
            assert(lower(v@.take(k + 1)) =~= lower(v@.take(k as int)).push(lower_char(v@[k as int])));
        }
        k = k + 1;
    }
    assert(v@.take(v@.len() as int) =~= v@);
    r
}

// ---- Matching -------------------------------------------------------------

/// Whether `v` begins with `p`.
pub fn starts_with(v: &Vec<char>, p: &Vec<char>) -> (r: bool)
    ensures
        r == p@.is_prefix_of(v@),
{
    if p.len() > v.len() {
        return false;
    }
    let mut k: usize = 0;
    while k < p.len()
        invariant
            k <= p.len() <= v.len(),
            v@.take(k as int) == p@.take(k as int),
        decreases p.len() - k,
    {
        if v[k] != p[k] {
            assert(v@.take(p@.len() as int)[k as int] != p@[k as int]);
            return false;
        }
        proof {
            assert(v@.take(k + 1) =~= v@.take(k as int).push(v@[k as int]));
            assert(p@.take(k + 1) =~= p@.take(k as int).push(p@[k as int]));
        }
        k = k + 1;
    }
    assert(p@.take(p@.len() as int) =~= p@);
    assert(v@.take(p@.len() as int) =~= v@.subrange(0, p@.len() as int));
    true
}

/// Whether `v` ends with `p`.
pub fn ends_with(v: &Vec<char>, p: &Vec<char>) -> (r: bool)
    ensures
        r == p@.is_suffix_of(v@),
{
    if p.len() > v.len() {
        return false;
    }
    let tail = slice_of(v, v.len() - p.len(), v.len());
    let same = same_chars(&tail, p);
    same
}

/// Whether `a` and `b` hold the same characters.
pub fn same_chars(a: &Vec<char>, b: &Vec<char>) -> (r: bool)
    ensures
        r == (a@ == b@),
{
    if a.len() != b.len() {
        return false;
    }
    let r = starts_with(a, b);
    assert(a@.subrange(0, a@.len() as int) =~= a@);
    r
}

/// Whether `v` is the text `s`.
pub fn chars_are(v: &Vec<char>, s: &str) -> (r: bool)
    ensures
        r == (v@ == s@),
{
    let w = chars_of(s);
    same_chars(v, &w)
}

/// Whether `list` holds the text `s`.
pub fn holds_text(list: &Vec<String>, s: &str) -> (r: bool)
    ensures
        r == texts(list@).contains(s@),
{
    let mut k: usize = 0;
    while k < list.len()
        invariant
            k <= list.len(),
            forall|i: int| 0 <= i < k ==> #[trigger] texts(list@)[i] != s@,
        decreases list.len() - k,
    {
        if str_eq(list[k].as_str(), s) {
            assert(texts(list@)[k as int] == s@);
            return true;
        }
        k = k + 1;
    }
    false
}

// ---- Order ----------------------------------------------------------------

/// Whether `a` comes before `b`, or is `b`, in the order of their characters.
pub open spec fn text_le(a: Seq<char>, b: Seq<char>) -> bool
    decreases a.len(),
{
    if a.len() == 0 {
        true
    } else if b.len() == 0 {
        false
    } else if a[0] != b[0] {
        a[0] < b[0]
    } else {
        text_le(a.drop_first(), b.drop_first())
    }
}

/// The order of texts is total: one of two comes first, and both only if they are the same.
pub proof fn lemma_text_le_total(a: Seq<char>, b: Seq<char>)
    ensures
        text_le(a, b) || text_le(b, a),
        text_le(a, b) && text_le(b, a) <==> a == b,
    decreases a.len(),
{
    if a.len() > 0 && b.len() > 0 && a[0] == b[0] {
        lemma_text_le_total(a.drop_first(), b.drop_first());
        assert(a =~= seq![a[0]] + a.drop_first());
        assert(b =~= seq![b[0]] + b.drop_first());
    } else if a.len() == 0 && b.len() == 0 {
        assert(a =~= b);
    }
}

/// The order of texts is transitive.
pub proof fn lemma_text_le_transitive(a: Seq<char>, b: Seq<char>, c: Seq<char>)
    requires
        text_le(a, b),
        text_le(b, c),
    ensures
        text_le(a, c),
    decreases a.len(),
{
    if a.len() > 0 && b.len() > 0 && c.len() > 0 && a[0] == b[0] && b[0] == c[0] {
        lemma_text_le_transitive(a.drop_first(), b.drop_first(), c.drop_first());
    }
}

/// Whether `a` comes before `b`, or is `b`, in the order of their characters.
pub fn chars_le(a: &Vec<char>, b: &Vec<char>) -> (r: bool)
    ensures
        r == text_le(a@, b@),
{
    let mut k: usize = 0;
    proof {
        assert(a@.skip(0) =~= a@);
        assert(b@.skip(0) =~= b@);
    }
    while k < a.len() && k < b.len() && a[k] == b[k]
        invariant
            k <= a.len(),
            k <= b.len(),
            text_le(a@, b@) == text_le(a@.skip(k as int), b@.skip(k as int)),
        decreases a.len() - k,
    {
        proof {
            assert(a@.skip(k as int).drop_first() =~= a@.skip(k + 1));
            assert(b@.skip(k as int).drop_first() =~= b@.skip(k + 1));
        }
        k = k + 1;
    }
    if k == a.len() {
        true
    } else if k == b.len() {
        false
    } else {
        a[k] < b[k]
    }
}

// ---- White space ----------------------------------------------------------

/// The characters with the Unicode property `White_Space`.
pub open spec fn is_white(c: char) -> bool {
    let n = c as u32;
    ||| 0x9 <= n <= 0xd
    ||| n == 0x20
    ||| n == 0x85
    ||| n == 0xa0
    ||| n == 0x1680
    ||| 0x2000 <= n <= 0x200a
    ||| n == 0x2028
    ||| n == 0x2029
    ||| n == 0x202f
    ||| n == 0x205f
    ||| n == 0x3000
}

pub fn is_white_char(c: char) -> (r: bool)
    ensures
        r == is_white(c),
{
    let n: u32 = c as u32;
    (0x9 <= n && n <= 0xd) || n == 0x20 || n == 0x85 || n == 0xa0 || n == 0x1680 || (0x2000 <= n && n
        <= 0x200a) || n == 0x2028 || n == 0x2029 || n == 0x202f || n == 0x205f || n == 0x3000
}

/// `s` without its leading white space.
pub open spec fn trim_start(s: Seq<char>) -> Seq<char>
    decreases s.len(),
{
    if s.len() > 0 && is_white(s[0]) {
        trim_start(s.drop_first())
    } else {
        s
    }
}

/// `s` without its trailing white space.
pub open spec fn trim_end(s: Seq<char>) -> Seq<char>
    decreases s.len(),
{
    if s.len() > 0 && is_white(s.last()) {
        trim_end(s.drop_last())
    } else {
        s
    }
}

/// `s` without white space at either end.
pub open spec fn trim(s: Seq<char>) -> Seq<char> {
    trim_end(trim_start(s))
}

/// A text without white space at its ends stays as it is.
pub proof fn lemma_trim_stays(s: Seq<char>)
    requires
        s.len() > 0 ==> !is_white(s[0]) && !is_white(s.last()),
    ensures
        trim(s) == s,
{
}

proof fn lemma_trim_end_keeps(s: Seq<char>, i: int)
    requires
        0 <= i < s.len(),
        !is_white(s[i]),
    ensures
        trim_end(s).len() > i,
    decreases s.len(),
{
    if is_white(s.last()) {
        assert(s.drop_last()[i] == s[i]);
        lemma_trim_end_keeps(s.drop_last(), i);
    }
}

/// A text that is not all white space is not empty without it.
pub proof fn lemma_trim_is_not_empty(s: Seq<char>, i: int)
    requires
        0 <= i < s.len(),
        !is_white(s[i]),
    ensures
        trim(s).len() > 0,
    decreases s.len(),
{
    if is_white(s[0]) {
        assert(s.drop_first()[i - 1] == s[i]);
        lemma_trim_is_not_empty(s.drop_first(), i - 1);
        assert(trim(s) == trim(s.drop_first()));
    } else {
        lemma_trim_end_keeps(s, i);
    }
}

/// `v` without white space at either end.
pub fn trimmed(v: &Vec<char>) -> (r: Vec<char>)
    ensures
        r@ == trim(v@),
{
    let mut i: usize = 0;
    assert(v@.skip(0) =~= v@);
    while i < v.len() && is_white_char(v[i])
        invariant
            i <= v.len(),
            trim_start(v@.skip(i as int)) == trim_start(v@),
        decreases v.len() - i,
    {
        proof {
            assert(v@.skip(i as int).drop_first() =~= v@.skip(i + 1));
        }
        i = i + 1;
    }
    let mut j: usize = v.len();
    assert(v@.subrange(i as int, j as int) =~= v@.skip(i as int));
    while j > i && is_white_char(v[j - 1])
        invariant
            i <= j <= v.len(),
            trim_end(v@.subrange(i as int, j as int)) == trim(v@),
        decreases j,
    {
        proof {
            assert(v@.subrange(i as int, j as int).drop_last() =~= v@.subrange(i as int, j - 1));
        }
        j = j - 1;
    }
    slice_of(v, i, j)
}

// ---- Splitting ------------------------------------------------------------

/// The first place at or after `from` where `c` stands in `s`; `s.len()` if none.
pub open spec fn index_from(s: Seq<char>, c: char, from: int) -> int
    decreases s.len() - from,
{
    if from < 0 || from >= s.len() {
        s.len() as int
    } else if s[from] == c {
        from
    } else {
        index_from(s, c, from + 1)
    }
}

/// What `index_from` finds is the first `c`.
pub proof fn lemma_index_from(s: Seq<char>, c: char, from: int)
    requires
        0 <= from <= s.len(),
    ensures
        from <= index_from(s, c, from) <= s.len(),
        index_from(s, c, from) < s.len() ==> s[index_from(s, c, from)] == c,
        forall|i: int| from <= i < index_from(s, c, from) ==> s[i] != c,
    decreases s.len() - from,
{
    if from < s.len() && s[from] != c {
        lemma_index_from(s, c, from + 1);
    }
}

/// The pieces of `s`, from `from` on, between the places where `c` stands.
pub open spec fn split_from(s: Seq<char>, c: char, from: int) -> Seq<Seq<char>>
    decreases s.len() - from,
    when 0 <= from <= s.len()
    via split_from_decreases
{
    let i = index_from(s, c, from);
    if i >= s.len() {
        seq![s.subrange(from, s.len() as int)]
    } else {
        seq![s.subrange(from, i)] + split_from(s, c, i + 1)
    }
}

#[via_fn]
proof fn split_from_decreases(s: Seq<char>, c: char, from: int) {
    lemma_index_from(s, c, from);
}

/// The pieces of `s` between the places where `c` stands: one more than there are such places.
pub open spec fn split(s: Seq<char>, c: char) -> Seq<Seq<char>> {
    split_from(s, c, 0)
}

proof fn lemma_index_before(a: Seq<char>, b: Seq<char>, c: char, from: int)
    requires
        0 <= from <= a.len(),
    ensures
        index_from(a + seq![c] + b, c, from) == index_from(a, c, from),
    decreases a.len() - from,
{
    let s = a + seq![c] + b;
    if from < a.len() {
        assert(s[from] == a[from]);
        if a[from] != c {
            lemma_index_before(a, b, c, from + 1);
        }
    } else {
        assert(s[from] == c);
    }
}

proof fn lemma_split_from_at_last(a: Seq<char>, b: Seq<char>, c: char, from: int)
    requires
        0 <= from <= a.len(),
        !b.contains(c),
    ensures
        split_from(a + seq![c] + b, c, from) == split_from(a, c, from).push(b),
    decreases a.len() - from,
{
    let s = a + seq![c] + b;
    lemma_index_before(a, b, c, from);
    lemma_index_from(a, c, from);
    let i = index_from(a, c, from);
    if i < a.len() {
        lemma_split_from_at_last(a, b, c, i + 1);
        assert(s.subrange(from, i) =~= a.subrange(from, i));
    } else {
        let k = (a.len() + 1) as int;
        lemma_index_from(s, c, k);
        assert(index_from(s, c, k) == s.len()) by {
            let j = index_from(s, c, k);
            if j < s.len() {
                assert(s[j] == b[j - k]);
            }
        }
        assert(s.subrange(from, i) =~= a.subrange(from, a.len() as int));
        assert(s.subrange(k, s.len() as int) =~= b);
        assert(split_from(s, c, k) =~= seq![b]);
    }
    assert(split_from(s, c, from) =~= split_from(a, c, from).push(b));
}

/// There is always a piece.
pub proof fn lemma_split_at_least_one(s: Seq<char>, c: char)
    ensures
        split(s, c).len() >= 1,
{
    lemma_index_from(s, c, 0);
}

/// A text without a `c` is one piece; a `c` and more text behind it make one more piece.
pub proof fn lemma_split_at_last(a: Seq<char>, b: Seq<char>, c: char)
    requires
        !b.contains(c),
    ensures
        split(b, c) == seq![b],
        split(a + seq![c] + b, c) == split(a, c).push(b),
{
    lemma_index_from(b, c, 0);
    assert(b.subrange(0, b.len() as int) =~= b);
    assert(split(b, c) =~= seq![b]);
    lemma_split_from_at_last(a, b, c, 0);
}

proof fn lemma_index_behind(p: Seq<char>, b: Seq<char>, c: char, from: int)
    requires
        0 <= from <= b.len(),
    ensures
        index_from(p + b, c, p.len() + from) == p.len() + index_from(b, c, from),
    decreases b.len() - from,
{
    if from < b.len() {
        assert((p + b)[p.len() + from] == b[from]);
        if b[from] != c {
            lemma_index_behind(p, b, c, from + 1);
        }
    }
}

proof fn lemma_split_behind(p: Seq<char>, b: Seq<char>, c: char, from: int)
    requires
        0 <= from <= b.len(),
    ensures
        split_from(p + b, c, p.len() + from) == split_from(b, c, from),
    decreases b.len() - from,
{
    let s = p + b;
    let n = p.len() as int;
    lemma_index_behind(p, b, c, from);
    lemma_index_from(b, c, from);
    let i = index_from(b, c, from);
    if i < b.len() {
        lemma_split_behind(p, b, c, i + 1);
        assert(s.subrange(n + from, n + i) =~= b.subrange(from, i));
    } else {
        assert(s.subrange(n + from, s.len() as int) =~= b.subrange(from, b.len() as int));
    }
}

proof fn lemma_split_from_joined(a: Seq<char>, b: Seq<char>, c: char, from: int)
    requires
        0 <= from <= a.len(),
    ensures
        split_from(a + seq![c] + b, c, from) == split_from(a, c, from) + split(b, c),
    decreases a.len() - from,
{
    let s = a + seq![c] + b;
    lemma_index_before(a, b, c, from);
    lemma_index_from(a, c, from);
    let i = index_from(a, c, from);
    if i < a.len() {
        lemma_split_from_joined(a, b, c, i + 1);
        assert(s.subrange(from, i) =~= a.subrange(from, i));
    } else {
        lemma_split_behind(a + seq![c], b, c, 0);
        assert(s.subrange(from, i) =~= a.subrange(from, a.len() as int));
    }
    assert(split_from(s, c, from) =~= split_from(a, c, from) + split(b, c));
}

/// The pieces of two texts with a `c` between them are those of the one, then those of the other.
pub proof fn lemma_split_joined(a: Seq<char>, b: Seq<char>, c: char)
    ensures
        split(a + seq![c] + b, c) == split(a, c) + split(b, c),
{
    lemma_split_from_joined(a, b, c, 0);
}

/// What stands before and after the first `c` in `s`.
pub open spec fn split_once(s: Seq<char>, c: char) -> Option<(Seq<char>, Seq<char>)> {
    let i = index_from(s, c, 0);
    if i >= s.len() {
        None
    } else {
        Some((s.take(i), s.skip(i + 1)))
    }
}

pub fn find_from(v: &Vec<char>, c: char, from: usize) -> (r: usize)
    requires
        from <= v.len(),
    ensures
        r == index_from(v@, c, from as int),
        from <= r <= v.len(),
{
    let mut k: usize = from;
    while k < v.len() && v[k] != c
        invariant
            from <= k <= v.len(),
            index_from(v@, c, from as int) == index_from(v@, c, k as int),
        decreases v.len() - k,
    {
        k = k + 1;
    }
    k
}

/// The pieces of `v` between the places where `c` stands.
pub fn split_at_each(v: &Vec<char>, c: char) -> (r: Vec<Vec<char>>)
    ensures
        r@.map_values(|p: Vec<char>| p@) == split(v@, c),
        r.len() >= 1,
{
    let mut r: Vec<Vec<char>> = Vec::new();
    let mut from: usize = 0;
    loop
        invariant_except_break
            from <= v.len(),
            r@.map_values(|p: Vec<char>| p@) + split_from(v@, c, from as int) == split(v@, c),
        ensures
            r@.map_values(|p: Vec<char>| p@) == split(v@, c),
            r.len() >= 1,
        decreases v.len() - from,
    {
        let i = find_from(v, c, from);
        let ghost before = r@.map_values(|p: Vec<char>| p@);
        let piece = slice_of(v, from, i);
        r.push(piece);
        assert(r@.map_values(|p: Vec<char>| p@) =~= before.push(piece@));
        if i >= v.len() {
            assert(split_from(v@, c, from as int) =~= seq![piece@]);
            assert(before + seq![piece@] =~= before.push(piece@));
            break;
        }
        assert(before + (seq![piece@] + split_from(v@, c, i + 1)) =~= before.push(piece@) + split_from(
            v@,
            c,
            i + 1,
        ));
        from = i + 1;
    }
    r
}

/// What stands before and after the first `c` in `v`.
pub fn cut_once(v: &Vec<char>, c: char) -> (r: Option<(Vec<char>, Vec<char>)>)
    ensures
        match r {
            Some(p) => split_once(v@, c) == Some((p.0@, p.1@)),
            None => split_once(v@, c) is None,
        },
{
    let i = find_from(v, c, 0);
    if i >= v.len() {
        None
    } else {
        let a = slice_of(v, 0, i);
        let b = slice_of(v, i + 1, v.len());
        assert(a@ =~= v@.take(i as int));
        assert(b@ =~= v@.skip(i + 1));
        Some((a, b))
    }
}

/// A line without the carriage return that a `\r\n` ending leaves behind.
pub open spec fn strip_cr(s: Seq<char>) -> Seq<char> {
    if s.len() > 0 && s.last() == '\r' {
        s.drop_last()
    } else {
        s
    }
}

/// The lines of `s` from `from` on. A line ends at `\n` or `\r\n`; the last may go without.
pub open spec fn lines_from(s: Seq<char>, from: int) -> Seq<Seq<char>>
    decreases s.len() - from,
    when 0 <= from <= s.len()
    via lines_from_decreases
{
    let i = index_from(s, '\n', from);
    if from >= s.len() {
        Seq::empty()
    } else if i >= s.len() {
        seq![s.subrange(from, s.len() as int)]
    } else {
        seq![strip_cr(s.subrange(from, i))] + lines_from(s, i + 1)
    }
}

#[via_fn]
proof fn lines_from_decreases(s: Seq<char>, from: int) {
    lemma_index_from(s, '\n', from);
}

/// The lines of `s`.
pub open spec fn lines(s: Seq<char>) -> Seq<Seq<char>> {
    lines_from(s, 0)
}

/// The lines of `v`.
pub fn lines_of(v: &Vec<char>) -> (r: Vec<Vec<char>>)
    ensures
        r@.map_values(|p: Vec<char>| p@) == lines(v@),
{
    let mut r: Vec<Vec<char>> = Vec::new();
    let mut from: usize = 0;
    assert(r@.map_values(|p: Vec<char>| p@) + lines(v@) =~= lines(v@));
    while from < v.len()
        invariant
            from <= v.len(),
            r@.map_values(|p: Vec<char>| p@) + lines_from(v@, from as int) == lines(v@),
        decreases v.len() - from,
    {
        let i = find_from(v, '\n', from);
        let ghost before = r@.map_values(|p: Vec<char>| p@);
        let mut end: usize = i;
        if i < v.len() && i > from && v[i - 1] == '\r' {
            end = i - 1;
        }
        let piece = slice_of(v, from, end);
        r.push(piece);
        assert(r@.map_values(|p: Vec<char>| p@) =~= before.push(piece@));
        proof {
            if i < v.len() {
                let whole = v@.subrange(from as int, i as int);
                assert(piece@ =~= strip_cr(whole)) by {
                    assert(whole.len() > 0 ==> whole.last() == v@[i - 1]);
                }
                assert(before + (seq![piece@] + lines_from(v@, i + 1)) =~= before.push(piece@) + lines_from(
                    v@,
                    i + 1,
                ));
            } else {
                assert(lines_from(v@, from as int) =~= seq![piece@]);
                assert(before + seq![piece@] =~= before.push(piece@) + lines_from(v@, v@.len() as int));
            }
        }
        from = if i < v.len() {
            i + 1
        } else {
            i
        };
    }
    assert(r@.map_values(|p: Vec<char>| p@) + Seq::<Seq<char>>::empty() =~= r@.map_values(
        |p: Vec<char>| p@,
    ));
    r
}

// ---- Decimal numbers ------------------------------------------------------

pub open spec fn is_digit(c: char) -> bool {
    '0' <= c && c <= '9'
}

/// The value of a digit character.
pub open spec fn digit_value(c: char) -> nat {
    ((c as u32) - 48) as nat
}

pub open spec fn all_digits(s: Seq<char>) -> bool {
    forall|i: int| 0 <= i < s.len() ==> is_digit(#[trigger] s[i])
}

/// The number that a run of digits writes down.
pub open spec fn nat_of(s: Seq<char>) -> nat
    decreases s.len(),
{
    if s.len() == 0 {
        0
    } else {
        nat_of(s.drop_last()) * 10 + digit_value(s.last())
    }
}

/// The digits after an optional `+`.
pub open spec fn unsigned_digits(s: Seq<char>) -> Seq<char> {
    if s.len() > 0 && s[0] == '+' {
        s.drop_first()
    } else {
        s
    }
}

/// The unsigned number that `s` writes down: digits, a leading `+` allowed, at most `max`.
pub open spec fn unsigned_value(s: Seq<char>, max: nat) -> Option<nat> {
    let d = unsigned_digits(s);
    if d.len() > 0 && all_digits(d) && nat_of(d) <= max {
        Some(nat_of(d))
    } else {
        None
    }
}

/// The number that `s` writes down as an `i64`: digits, a leading `+` or `-` allowed.
pub open spec fn signed_value(s: Seq<char>) -> Option<int> {
    if s.len() > 0 && s[0] == '-' {
        let d = s.drop_first();
        if d.len() > 0 && all_digits(d) && nat_of(d) <= 0x8000_0000_0000_0000 {
            Some(-(nat_of(d) as int))
        } else {
            None
        }
    } else {
        match unsigned_value(s, i64::MAX as nat) {
            Some(n) => Some(n as int),
            None => None,
        }
    }
}

proof fn lemma_nat_of_prefix(s: Seq<char>, k: int)
    requires
        0 <= k <= s.len(),
        all_digits(s),
    ensures
        nat_of(s.take(k)) <= nat_of(s),
    decreases s.len(),
{
    if k < s.len() {
        lemma_nat_of_prefix(s.drop_last(), k);
        assert(s.drop_last().take(k) =~= s.take(k));
    } else {
        assert(s.take(k) =~= s);
    }
}

/// The value of the digits `v[i..]`, if there are any, all are digits and it is at most `max`.
fn digits_value(v: &Vec<char>, i: usize, max: u64) -> (r: Option<u64>)
    requires
        i <= v.len(),
    ensures
        ({
            let d = v@.skip(i as int);
            if d.len() > 0 && all_digits(d) && nat_of(d) <= max {
                r is Some && r->0 == nat_of(d)
            } else {
                r is None
            }
        }),
{
    let ghost d = v@.skip(i as int);
    if i >= v.len() {
        return None;
    }
    let mut n: u64 = 0;
    let mut k: usize = i;
    while k < v.len()
        invariant
            i <= k <= v.len(),
            d == v@.skip(i as int),
            n == nat_of(d.take(k - i)),
            n <= max,
            all_digits(d.take(k - i)),
        decreases v.len() - k,
    {
        let c = v[k];
        proof {
            assert(d[k - i] == c);
            assert(d.take(k - i + 1).drop_last() =~= d.take(k - i));
            assert(d.take(k - i + 1).last() == c);
        }
        if !('0' <= c && c <= '9') {
            assert(!is_digit(d[k - i]));
            return None;
        }
        let x: u64 = (c as u32 - 48) as u64;
        let next: u128 = (n as u128) * 10 + (x as u128);
        if next > max as u128 {
            proof {
                if all_digits(d) {
                    lemma_nat_of_prefix(d, k - i + 1);
                }
            }
            return None;
        }
        n = next as u64;
        proof {
            assert forall|j: int| 0 <= j < k - i + 1 implies is_digit(#[trigger] d.take(k - i + 1)[j]) by {
                if j < k - i {
                    assert(d.take(k - i)[j] == d[j]);
                }
            }
        }
        k = k + 1;
    }
    assert(d.take(d.len() as int) =~= d);
    Some(n)
}

/// Reads an unsigned number of at most `max`.
pub fn parse_unsigned(v: &Vec<char>, max: u64) -> (r: Option<u64>)
    ensures
        match r {
            Some(n) => unsigned_value(v@, max as nat) == Some(n as nat),
            None => unsigned_value(v@, max as nat) is None,
        },
{
    if v.len() > 0 && v[0] == '+' {
        assert(v@.skip(1) =~= v@.drop_first());
        digits_value(v, 1, max)
    } else {
        assert(v@.skip(0) =~= v@);
        digits_value(v, 0, max)
    }
}

/// Reads an `i64`.
pub fn parse_signed(v: &Vec<char>) -> (r: Option<i64>)
    ensures
        match r {
            Some(n) => signed_value(v@) == Some(n as int),
            None => signed_value(v@) is None,
        },
{
    if v.len() > 0 && v[0] == '-' {
        assert(v@.skip(1) =~= v@.drop_first());
        match digits_value(v, 1, 0x8000_0000_0000_0000) {
            Some(n) => {
                if n == 0x8000_0000_0000_0000 {
                    Some(i64::MIN)
                } else {
                    Some(-(n as i64))
                }
            },
            None => None,
        }
    } else {
        match parse_unsigned(v, i64::MAX as u64) {
            Some(n) => Some(n as i64),
            None => None,
        }
    }
}

/// The character for a digit.
pub open spec fn digit_char(d: nat) -> char {
    (48 + d) as u8 as char
}

/// `n` written in decimal.
pub open spec fn dec(n: nat) -> Seq<char>
    decreases n,
{
    if n < 10 {
        seq![digit_char(n)]
    } else {
        dec(n / 10).push(digit_char(n % 10))
    }
}

/// `s` with zeros before it up to the width `w`.
pub open spec fn zero_pad(s: Seq<char>, w: nat) -> Seq<char>
    decreases w - s.len(),
{
    if s.len() >= w {
        s
    } else {
        zero_pad(seq!['0'] + s, w)
    }
}

/// Writing a number and reading it back gives the number.
pub proof fn lemma_dec_round_trip(n: nat)
    ensures
        dec(n).len() >= 1,
        all_digits(dec(n)),
        nat_of(dec(n)) == n,
    decreases n,
{
    if n < 10 {
        assert(dec(n).drop_last() =~= Seq::empty());
        assert(nat_of(dec(n)) == nat_of(Seq::<char>::empty()) * 10 + digit_value(digit_char(n)));
    } else {
        lemma_dec_round_trip(n / 10);
        assert(dec(n).drop_last() =~= dec(n / 10));
        assert(digit_value(digit_char(n % 10)) == n % 10);
    }
}

/// Two numbers that are written alike are the same number.
pub proof fn lemma_dec_injective(a: nat, b: nat)
    requires
        dec(a) == dec(b),
    ensures
        a == b,
{
    lemma_dec_round_trip(a);
    lemma_dec_round_trip(b);
}

/// Padding puts zeros before the text and nothing else.
pub proof fn lemma_zero_pad(s: Seq<char>, w: nat)
    ensures
        s.is_suffix_of(zero_pad(s, w)),
        forall|i: int|
            0 <= i < zero_pad(s, w).len() - s.len() ==> #[trigger] zero_pad(s, w)[i] == '0',
        zero_pad(s, w).len() == if s.len() >= w {
            s.len()
        } else {
            w
        },
    decreases w - s.len(),
{
    if s.len() < w {
        let t = seq!['0'] + s;
        lemma_zero_pad(t, w);
        let p = zero_pad(s, w);
        assert(p == zero_pad(t, w));
        assert(s =~= p.subrange(p.len() - s.len(), p.len() as int)) by {
            assert forall|i: int| 0 <= i < s.len() implies s[i] == p[p.len() - s.len() + i] by {
                assert(t[i + 1] == s[i]);
                assert(p.subrange(p.len() - t.len(), p.len() as int)[i + 1] == t[i + 1]);
            }
        }
        assert forall|i: int| 0 <= i < p.len() - s.len() implies #[trigger] p[i] == '0' by {
            if i == p.len() - t.len() {
                assert(p.subrange(p.len() - t.len(), p.len() as int)[0] == t[0]);
            }
        }
    } else {
        assert(s =~= s.subrange(0, s.len() as int));
    }
}

/// A padded number is all digits.
pub proof fn lemma_padded_digits(n: nat, w: nat)
    ensures
        all_digits(zero_pad(dec(n), w)),
        zero_pad(dec(n), w).len() >= 1,
{
    lemma_dec_round_trip(n);
    lemma_zero_pad(dec(n), w);
    let p = zero_pad(dec(n), w);
    assert forall|i: int| 0 <= i < p.len() implies is_digit(#[trigger] p[i]) by {
        let k = p.len() - dec(n).len();
        if i >= k {
            assert(p.subrange(k, p.len() as int)[i - k] == dec(n)[i - k]);
            assert(is_digit(dec(n)[i - k]));
        }
    }
}

/// Zeros before a number leave it what it is.
pub proof fn lemma_padded_value(s: Seq<char>, w: nat)
    ensures
        nat_of(zero_pad(s, w)) == nat_of(s),
    decreases w - s.len(),
{
    if s.len() < w {
        lemma_zero_in_front(s);
        lemma_padded_value(seq!['0'] + s, w);
    }
}

proof fn lemma_zero_in_front(s: Seq<char>)
    ensures
        nat_of(seq!['0'] + s) == nat_of(s),
    decreases s.len(),
{
    let t = seq!['0'] + s;
    if s.len() == 0 {
        reveal_with_fuel(nat_of, 2);
        assert(t.drop_last() =~= Seq::empty());
        assert(t.last() == '0');
    } else {
        lemma_zero_in_front(s.drop_last());
        assert(t.drop_last() =~= seq!['0'] + s.drop_last());
        assert(t.last() == s.last());
    }
}

/// No number is written with anything but digits.
pub proof fn lemma_dec_holds_digits_only(n: nat, c: char)
    requires
        !is_digit(c),
    ensures
        !dec(n).contains(c),
{
    lemma_dec_round_trip(n);
    let d = dec(n);
    if d.contains(c) {
        let i = choose|i: int| 0 <= i < d.len() && d[i] == c;
        assert(is_digit(d[i]));
    }
}

/// `n` written in decimal.
pub fn dec_chars(n: u128) -> (r: Vec<char>)
    ensures
        r@ == dec(n as nat),
    decreases n,
{
    let d: u8 = 48 + (n % 10) as u8;
    if n < 10 {
        let r: Vec<char> = vec![d as char];
        assert(r@ =~= dec(n as nat));
        r
    } else {
        let mut r = dec_chars(n / 10);
        r.push(d as char);
        r
    }
}

/// `n` written in decimal.
pub fn dec_string(n: u128) -> (r: String)
    ensures
        r@ == dec(n as nat),
{
    let v = dec_chars(n);
    string_of(&v)
}

/// `n` written in decimal, with zeros before it up to the width `w`.
pub fn dec_padded(n: u128, w: usize) -> (r: String)
    ensures
        r@ == zero_pad(dec(n as nat), w as nat),
{
    let mut v = dec_chars(n);
    while v.len() < w
        invariant
            zero_pad(v@, w as nat) == zero_pad(dec(n as nat), w as nat),
        decreases w - v.len(),
    {
        let ghost before = v@;
        v.insert(0, '0');
        assert(v@ =~= seq!['0'] + before);
    }
    string_of(&v)
}

/// A number written in decimal, with a `-` before it if it is negative.
pub open spec fn int_text(n: int) -> Seq<char> {
    if n < 0 {
        seq!['-'] + dec((-n) as nat)
    } else {
        dec(n as nat)
    }
}

/// A number written in decimal, with a `-` before it if it is negative.
pub fn int_string(n: i64) -> (r: String)
    ensures
        r@ == int_text(n as int),
{
    let big: i128 = n as i128;
    if n < 0 {
        let mut r = String::new();
        r.push('-');
        let d = dec_string((-big) as u128);
        r.append(d.as_str());
        assert(r@ =~= seq!['-'] + dec((-(n as int)) as nat));
        r
    } else {
        dec_string(n as u128)
    }
}

/// Two numbers that are written alike are the same number, and none is written with a `:`.
pub proof fn lemma_int_text_injective(a: int, b: int)
    ensures
        int_text(a) == int_text(b) ==> a == b,
        !int_text(a).contains(':'),
{
    let x = if a < 0 {
        (-a) as nat
    } else {
        a as nat
    };
    let y = if b < 0 {
        (-b) as nat
    } else {
        b as nat
    };
    lemma_dec_round_trip(x);
    lemma_dec_round_trip(y);
    assert(is_digit(dec(x)[0]));
    assert(is_digit(dec(y)[0]));
    if int_text(a) == int_text(b) {
        if a < 0 {
            assert(int_text(a)[0] == '-');
            assert(b < 0);
            assert(int_text(a).drop_first() =~= dec(x));
            assert(int_text(b).drop_first() =~= dec(y));
        } else if b < 0 {
            assert(int_text(b)[0] == '-');
        }
    }
    if int_text(a).contains(':') {
        let i = choose|i: int| 0 <= i < int_text(a).len() && int_text(a)[i] == ':';
        if a < 0 {
            assert(i > 0);
            assert(int_text(a)[i] == dec(x)[i - 1]);
            assert(is_digit(dec(x)[i - 1]));
        } else {
            assert(is_digit(dec(x)[i]));
        }
    }
}

// ---- What holds of it -----------------------------------------------------

/// The capitals `A` to `Z` turn into the small letters 32 places behind them; all other characters
/// stay.
pub proof fn law_capitals_turn_small(c: char)
    ensures
        'A' <= c && c <= 'Z' ==> lower_char(c) as u32 == c as u32 + 32,
        !('A' <= c && c <= 'Z') ==> lower_char(c) == c,
{
}

/// Texts are ordered by the first character in which they differ, and a text comes before what
/// begins with it.
pub proof fn law_first_difference_decides(p: Seq<char>, c: char, d: char, x: Seq<char>, y: Seq<char>)
    requires
        c < d,
    ensures
        text_le(p + seq![c] + x, p + seq![d] + y),
        !text_le(p + seq![d] + y, p + seq![c] + x),
        text_le(p, p + x),
    decreases p.len(),
{
    let a = p + seq![c] + x;
    let b = p + seq![d] + y;
    if p.len() == 0 {
        assert(a[0] == c && b[0] == d);
    } else {
        let q = p.drop_first();
        law_first_difference_decides(q, c, d, x, y);
        assert(a.drop_first() =~= q + seq![c] + x);
        assert(b.drop_first() =~= q + seq![d] + y);
        assert((p + x).drop_first() =~= q + x);
        assert(a[0] == p[0] && b[0] == p[0] && (p + x)[0] == p[0]);
    }
}

/// Whether all of `s` is white space.
pub open spec fn all_white(s: Seq<char>) -> bool {
    forall|i: int| 0 <= i < s.len() ==> is_white(#[trigger] s[i])
}

proof fn lemma_trim_start_skips(pre: Seq<char>, m: Seq<char>)
    requires
        all_white(pre),
        m.len() > 0 ==> !is_white(m[0]),
    ensures
        trim_start(pre + m) == m,
    decreases pre.len(),
{
    if pre.len() == 0 {
        assert(pre + m =~= m);
    } else {
        let q = pre.drop_first();
        assert(is_white(pre[0]));
        assert forall|i: int| 0 <= i < q.len() implies is_white(#[trigger] q[i]) by {
            assert(is_white(pre[i + 1]));
        }
        lemma_trim_start_skips(q, m);
        assert((pre + m).drop_first() =~= q + m);
    }
}

proof fn lemma_trim_end_skips(m: Seq<char>, post: Seq<char>)
    requires
        all_white(post),
        m.len() > 0 ==> !is_white(m.last()),
    ensures
        trim_end(m + post) == m,
    decreases post.len(),
{
    if post.len() == 0 {
        assert(m + post =~= m);
    } else {
        let q = post.drop_last();
        assert(is_white(post[post.len() - 1]));
        assert forall|i: int| 0 <= i < q.len() implies is_white(#[trigger] q[i]) by {
            assert(is_white(post[i]));
        }
        lemma_trim_end_skips(m, q);
        assert((m + post).drop_last() =~= m + q);
        assert((m + post).last() == post.last());
    }
}

/// White space round a text is taken off, on both sides, and nothing of the text is.
pub proof fn law_white_ends_are_taken_off(pre: Seq<char>, m: Seq<char>, post: Seq<char>)
    requires
        all_white(pre),
        all_white(post),
        m.len() > 0,
        !is_white(m[0]),
        !is_white(m.last()),
    ensures
        trim(pre + m + post) == m,
        trim(pre) == Seq::<char>::empty(),
{
    let t = m + post;
    assert(t[0] == m[0]);
    lemma_trim_start_skips(pre, t);
    assert(pre + m + post =~= pre + t);
    lemma_trim_end_skips(m, post);
    lemma_trim_start_skips(pre, Seq::empty());
    assert(pre + Seq::<char>::empty() =~= pre);
}

/// Blanks, tabs and line ends are white space; letters, digits and marks of ASCII are not.
pub proof fn law_white_space_of_ascii(c: char)
    ensures
        c == ' ' || c == '\t' || c == '\n' || c == '\r' ==> is_white(c),
        '!' <= c && c <= '~' ==> !is_white(c),
{
}

proof fn lemma_lines_behind(p: Seq<char>, b: Seq<char>, from: int)
    requires
        0 <= from <= b.len(),
    ensures
        lines_from(p + b, p.len() + from) == lines_from(b, from),
    decreases b.len() - from,
{
    let s = p + b;
    let n = p.len() as int;
    lemma_index_behind(p, b, '\n', from);
    lemma_index_from(b, '\n', from);
    let i = index_from(b, '\n', from);
    if from < b.len() {
        if i < b.len() {
            lemma_lines_behind(p, b, i + 1);
            assert(s.subrange(n + from, n + i) =~= b.subrange(from, i));
        } else {
            assert(s.subrange(n + from, s.len() as int) =~= b.subrange(from, b.len() as int));
        }
    }
}

/// A text is as many lines as a line end divides it into: the line before it, with no `\r` left at
/// its end, then the lines behind it. A text without one is a single line; an empty one is none.
pub proof fn law_lines_end_at_line_ends(a: Seq<char>, b: Seq<char>)
    requires
        !a.contains('\n'),
    ensures
        lines(Seq::empty()) == Seq::<Seq<char>>::empty(),
        a.len() > 0 ==> lines(a) == seq![a],
        lines(a + seq!['\n'] + b) == seq![
            if a.len() > 0 && a.last() == '\r' {
                a.drop_last()
            } else {
                a
            },
        ] + lines(b),
{
    let s = a + seq!['\n'] + b;
    lemma_index_before(a, b, '\n', 0);
    lemma_index_from(a, '\n', 0);
    assert(index_from(a, '\n', 0) == a.len());
    assert(s.subrange(0, a.len() as int) =~= a);
    assert(a.subrange(0, a.len() as int) =~= a);
    lemma_lines_behind(a + seq!['\n'], b, 0);
}

proof fn lemma_lines_of_both(x: Seq<char>, b: Seq<char>, from: int)
    requires
        0 <= from <= x.len(),
    ensures
        lines_from(x + seq!['\n'] + b, from) == lines_from(x + seq!['\n'], from) + lines(b),
    decreases x.len() - from,
{
    let s = x + seq!['\n'] + b;
    let t = x + seq!['\n'];
    let none = Seq::<char>::empty();
    lemma_index_before(x, b, '\n', from);
    lemma_index_before(x, none, '\n', from);
    assert(x + seq!['\n'] + none =~= t);
    lemma_index_from(x, '\n', from);
    let i = index_from(x, '\n', from);
    assert(s.subrange(from, i) =~= t.subrange(from, i));
    if i < x.len() {
        lemma_lines_of_both(x, b, i + 1);
    } else {
        lemma_lines_behind(t, b, 0);
        assert(s =~= t + b);
        assert(lines_from(t, t.len() as int) =~= Seq::empty());
    }
    assert(lines_from(s, from) =~= lines_from(t, from) + lines(b));
}

/// The lines of a text that ends a line, and of what follows it, are those of the one and then
/// those of the other.
pub proof fn law_lines_follow_each_other(x: Seq<char>, b: Seq<char>)
    ensures
        lines(x + seq!['\n'] + b) == lines(x + seq!['\n']) + lines(b),
{
    lemma_lines_of_both(x, b, 0);
}

/// A whole number that is written down reads back as itself, with its sign.
pub proof fn law_whole_numbers_read_back(n: int)
    requires
        i64::MIN <= n <= i64::MAX,
    ensures
        signed_value(int_text(n)) == Some(n),
        n >= 0 ==> unsigned_value(int_text(n), u64::MAX as nat) == Some(n as nat),
        n >= 0 ==> signed_value(seq!['+'] + int_text(n)) == Some(n),
{
    let m = if n < 0 {
        (-n) as nat
    } else {
        n as nat
    };
    let d = dec(m);
    lemma_dec_round_trip(m);
    assert(is_digit(d[0]));
    assert((seq!['-'] + d).drop_first() =~= d);
    assert((seq!['+'] + d).drop_first() =~= d);
}

} // verus!
