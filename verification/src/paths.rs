//! Paths as text: components parted by `/`, read without touching a disk.

use vstd::prelude::*;
use vstd::string::StringExecFns;
use crate::text::{chars_are, chars_of, index_from, lemma_index_from, lemma_split_at_last, lemma_split_at_least_one, lemma_split_joined, lower, same_chars, split, split_at_each, split_from, string_from, string_of, to_lower};

verus! {

/// Whether the piece at place `i` of a path split at `/` is a component: empty pieces are not,
/// nor is `.` behind the first place.
pub open spec fn is_component(pieces: Seq<Seq<char>>, i: int) -> bool {
    pieces[i].len() > 0 && (pieces[i] == "."@ ==> i == 0)
}

/// The components among the first `n` pieces.
pub open spec fn components_of(pieces: Seq<Seq<char>>, n: nat) -> Seq<Seq<char>>
    decreases n,
{
    if n == 0 {
        Seq::empty()
    } else {
        let rest = components_of(pieces, (n - 1) as nat);
        if is_component(pieces, n - 1) {
            rest.push(pieces[n - 1])
        } else {
            rest
        }
    }
}

/// The components of a path. An absolute path has the component `/` before all others.
pub open spec fn components(path: Seq<char>) -> Seq<Seq<char>> {
    let pieces = split(path, '/');
    let named = components_of(pieces, pieces.len());
    if path.len() > 0 && path[0] == '/' {
        seq!["/"@] + named
    } else {
        named
    }
}

/// The texts of a list of character lists.
pub open spec fn names(v: Seq<Vec<char>>) -> Seq<Seq<char>> {
    v.map_values(|p: Vec<char>| p@)
}

/// The components of a path.
pub fn path_components(path: &str) -> (r: Vec<Vec<char>>)
    ensures
        names(r@) == components(path@),
{
    let v = chars_of(path);
    let pieces = split_at_each(&v, '/');
    let mut r: Vec<Vec<char>> = Vec::new();
    let rooted = v.len() > 0 && v[0] == '/';
    let ghost head: Seq<Seq<char>> = if rooted {
        seq!["/"@]
    } else {
        Seq::empty()
    };
    if rooted {
        r.push(chars_of("/"));
    }
    assert(names(r@) =~= head);
    let mut i: usize = 0;
    assert(head + components_of(names(pieces@), 0) =~= head);
    while i < pieces.len()
        invariant
            i <= pieces.len(),
            names(pieces@) == split(v@, '/'),
            names(r@) == head + components_of(names(pieces@), i as nat),
        decreases pieces.len() - i,
    {
        let ghost before = r@;
        let p = &pieces[i];
        assert(names(pieces@)[i as int] == p@);
        if p.len() > 0 && (i == 0 || !chars_are(p, ".")) {
            r.push(crate::text::slice_of(p, 0, p.len()));
            assert(p@.subrange(0, p@.len() as int) =~= p@);
            assert(names(r@) =~= names(before).push(p@));
            assert(head + components_of(names(pieces@), i as nat).push(p@) =~= (head + components_of(
                names(pieces@),
                i as nat,
            )).push(p@));
        }
        i = i + 1;
    }
    assert(head + components_of(names(pieces@), pieces@.len()) =~= components(path@));
    r
}

/// The name a path ends in: its last component, unless that is `/`, `.` or `..`.
pub open spec fn file_name(path: Seq<char>) -> Option<Seq<char>> {
    let c = components(path);
    if c.len() > 0 && c.last() != "/"@ && c.last() != "."@ && c.last() != ".."@ {
        Some(c.last())
    } else {
        None
    }
}

/// The name a path ends in.
pub fn path_file_name(path: &str) -> (r: Option<Vec<char>>)
    ensures
        match r {
            Some(n) => file_name(path@) == Some(n@),
            None => file_name(path@) is None,
        },
{
    let mut c = path_components(path);
    if c.len() == 0 {
        return None;
    }
    let ghost all = names(c@);
    let last = c.pop().unwrap();
    assert(all.last() == last@);
    if chars_are(&last, "/") || chars_are(&last, ".") || chars_are(&last, "..") {
        None
    } else {
        Some(last)
    }
}

/// The last place of `c` in `s`; -1 if there is none.
pub open spec fn last_index(s: Seq<char>, c: char) -> int
    decreases s.len(),
{
    if s.len() == 0 {
        -1
    } else if s.last() == c {
        s.len() - 1
    } else {
        last_index(s.drop_last(), c)
    }
}

/// `last_index` lies within the text.
pub proof fn lemma_last_index(s: Seq<char>, c: char)
    ensures
        -1 <= last_index(s, c) < s.len(),
        last_index(s, c) >= 0 ==> s[last_index(s, c)] == c,
        forall|i: int| last_index(s, c) < i < s.len() ==> s[i] != c,
    decreases s.len(),
{
    if s.len() > 0 && s.last() != c {
        lemma_last_index(s.drop_last(), c);
        assert forall|i: int| last_index(s, c) < i < s.len() implies s[i] != c by {
            if i < s.len() - 1 {
                assert(s.drop_last()[i] == s[i]);
            }
        }
    }
}

/// What stands before the last `.` of a file name; all of it if there is no `.` but a leading one.
pub open spec fn stem_of(name: Seq<char>) -> Seq<char> {
    let i = last_index(name, '.');
    if i > 0 {
        name.take(i)
    } else {
        name
    }
}

/// What stands behind the last `.` of a file name, if there is one that does not lead it.
pub open spec fn extension_of(name: Seq<char>) -> Option<Seq<char>> {
    let i = last_index(name, '.');
    if i > 0 {
        Some(name.skip(i + 1))
    } else {
        None
    }
}

/// A name that was put together from a stem and an extension parts into them again.
pub proof fn lemma_dotted_name(stem: Seq<char>, ext: Seq<char>)
    requires
        stem.len() > 0,
        !ext.contains('.'),
    ensures
        stem_of(stem + seq!['.'] + ext) == stem,
        extension_of(stem + seq!['.'] + ext) == Some(ext),
{
    let name = stem + seq!['.'] + ext;
    let dot = stem.len() as int;
    lemma_last_index(name, '.');
    let i = last_index(name, '.');
    assert(name[dot] == '.');
    assert(i == dot) by {
        if i > dot {
            assert(name[i] == ext[i - dot - 1]);
        }
    }
    assert(name.take(i) =~= stem);
    assert(name.skip(i + 1) =~= ext);
}

/// One past the last place of `c` in `v`; 0 if there is none.
pub fn after_last(v: &Vec<char>, c: char) -> (r: usize)
    ensures
        r == last_index(v@, c) + 1,
        r <= v.len(),
{
    let mut k: usize = v.len();
    assert(v@.take(v@.len() as int) =~= v@);
    while k > 0 && v[k - 1] != c
        invariant
            k <= v.len(),
            last_index(v@, c) == last_index(v@.take(k as int), c),
        decreases k,
    {
        proof {
            assert(v@.take(k as int).drop_last() =~= v@.take(k - 1));
        }
        k = k - 1;
    }
    k
}

/// The stem of a path's file name.
pub open spec fn file_stem_of(path: Seq<char>) -> Option<Seq<char>> {
    match file_name(path) {
        Some(n) => Some(stem_of(n)),
        None => None,
    }
}

/// The extension of a path's file name.
pub open spec fn extension(path: Seq<char>) -> Option<Seq<char>> {
    match file_name(path) {
        Some(n) => extension_of(n),
        None => None,
    }
}

/// The extension of a path's file name, in lower case.
pub open spec fn lower_extension(path: Seq<char>) -> Option<Seq<char>> {
    match extension(path) {
        Some(e) => Some(lower(e)),
        None => None,
    }
}

pub fn path_stem(path: &str) -> (r: Option<String>)
    ensures
        crate::text::opt_text(r) == file_stem_of(path@),
{
    match path_file_name(path) {
        Some(n) => {
            let i = after_last(&n, '.');
            if i > 1 {
                let s = string_from(&n, 0, i - 1);
                assert(s@ =~= n@.take(i - 1));
                Some(s)
            } else {
                Some(string_of(&n))
            }
        },
        None => None,
    }
}

pub fn path_extension(path: &str) -> (r: Option<Vec<char>>)
    ensures
        match r {
            Some(e) => extension(path@) == Some(e@),
            None => extension(path@) is None,
        },
{
    match path_file_name(path) {
        Some(n) => {
            let i = after_last(&n, '.');
            if i > 1 {
                let e = crate::text::slice_of(&n, i, n.len());
                assert(e@ =~= n@.skip(i as int));
                Some(e)
            } else {
                None
            }
        },
        None => None,
    }
}

/// The extension of a path's file name, in lower case.
pub fn ext_lower(path: &str) -> (r: Option<String>)
    ensures
        crate::text::opt_text(r) == lower_extension(path@),
{
    match path_extension(path) {
        Some(e) => {
            let l = to_lower(&e);
            Some(string_of(&l))
        },
        None => None,
    }
}

/// Whether the components of `base` begin those of `path`.
pub open spec fn is_under(path: Seq<char>, base: Seq<char>) -> bool {
    components(base).is_prefix_of(components(path))
}

/// Whether one list of names begins the other.
pub fn names_start_with(a: &Vec<Vec<char>>, b: &Vec<Vec<char>>) -> (r: bool)
    ensures
        r == names(b@).is_prefix_of(names(a@)),
{
    if b.len() > a.len() {
        return false;
    }
    let mut k: usize = 0;
    while k < b.len()
        invariant
            k <= b.len() <= a.len(),
            forall|i: int| 0 <= i < k ==> #[trigger] names(a@)[i] == names(b@)[i],
        decreases b.len() - k,
    {
        if !same_chars(&a[k], &b[k]) {
            assert(names(a@)[k as int] != names(b@)[k as int]);
            assert(names(a@).subrange(0, b@.len() as int)[k as int] != names(b@)[k as int]);
            return false;
        }
        assert(names(a@)[k as int] == names(b@)[k as int]);
        k = k + 1;
    }
    assert(names(b@) =~= names(a@).subrange(0, b@.len() as int));
    true
}

/// Whether `path` is `base`, or lies below it.
pub fn path_is_under(path: &str, base: &str) -> (r: bool)
    ensures
        r == is_under(path@, base@),
{
    let a = path_components(path);
    let b = path_components(base);
    names_start_with(&a, &b)
}

/// The texts of `parts`, with `sep` between any two.
pub open spec fn join_names(parts: Seq<Seq<char>>, sep: Seq<char>) -> Seq<char>
    decreases parts.len(),
{
    if parts.len() == 0 {
        Seq::empty()
    } else if parts.len() == 1 {
        parts[0]
    } else {
        join_names(parts.drop_last(), sep) + sep + parts.last()
    }
}

/// The texts `parts[from..]`, with `sep` between any two.
pub fn join_from(parts: &Vec<Vec<char>>, from: usize, sep: &str) -> (r: String)
    requires
        from <= parts.len(),
    ensures
        r@ == join_names(names(parts@).skip(from as int), sep@),
{
    let mut r = String::new();
    let ghost all = names(parts@).skip(from as int);
    let mut i: usize = from;
    assert(r@ =~= join_names(all.take(0), sep@));
    while i < parts.len()
        invariant
            from <= i <= parts.len(),
            all == names(parts@).skip(from as int),
            r@ == join_names(all.take(i - from), sep@),
        decreases parts.len() - i,
    {
        if i > from {
            r.append(sep);
        }
        let p = string_of(&parts[i]);
        r.append(p.as_str());
        proof {
            let now = all.take(i - from + 1);
            assert(all[i - from] == parts@[i as int]@);
            assert(now.drop_last() =~= all.take(i - from));
            assert(now.last() == parts@[i as int]@);
            if i == from {
                assert(r@ =~= parts@[i as int]@);
            }
        }
        i = i + 1;
    }
    assert(all.take(all.len() as int) =~= all);
    r
}

/// The text of a path with the given components.
pub open spec fn path_text(parts: Seq<Seq<char>>) -> Seq<char> {
    if parts.len() > 0 && parts[0] == "/"@ {
        seq!['/'] + join_names(parts.skip(1), "/"@)
    } else {
        join_names(parts, "/"@)
    }
}

/// The text of a path with the given components.
pub fn text_of_path(parts: &Vec<Vec<char>>) -> (r: String)
    ensures
        r@ == path_text(names(parts@)),
{
    if parts.len() > 0 && chars_are(&parts[0], "/") {
        let mut r = String::new();
        r.push('/');
        let rest = join_from(parts, 1, "/");
        r.append(rest.as_str());
        assert(names(parts@)[0] == parts@[0]@);
        assert(r@ =~= seq!['/'] + join_names(names(parts@).skip(1), "/"@));
        r
    } else {
        assert(names(parts@).skip(0) =~= names(parts@));
        if parts.len() > 0 {
            assert(names(parts@)[0] == parts@[0]@);
        }
        join_from(parts, 0, "/")
    }
}

/// The components of the directory that a path lies in; `None` for a root or an empty path.
pub open spec fn parent_parts(path: Seq<char>) -> Option<Seq<Seq<char>>> {
    let c = components(path);
    if c.len() == 0 || c.last() == "/"@ {
        None
    } else {
        Some(c.drop_last())
    }
}

/// The components of the directory that a path lies in.
pub fn path_parent(path: &str) -> (r: Option<Vec<Vec<char>>>)
    ensures
        match r {
            Some(p) => parent_parts(path@) == Some(names(p@)),
            None => parent_parts(path@) is None,
        },
{
    let mut c = path_components(path);
    if c.len() == 0 {
        return None;
    }
    let ghost all = names(c@);
    let last = c.pop().unwrap();
    assert(all.last() == last@);
    if chars_are(&last, "/") {
        None
    } else {
        assert(names(c@) =~= all.drop_last());
        Some(c)
    }
}

/// The path of `name` inside the directory `dir`.
pub open spec fn joined(dir: Seq<char>, name: Seq<char>) -> Seq<char> {
    path_text(components(dir).push(name))
}

/// The path of `name` inside the directory `dir`.
pub fn join_path(dir: &str, name: &str) -> (r: String)
    ensures
        r@ == joined(dir@, name@),
{
    let mut c = path_components(dir);
    let ghost before = names(c@);
    c.push(chars_of(name));
    assert(names(c@) =~= before.push(name@));
    text_of_path(&c)
}

// ---- Reading back what was written ----------------------------------------

/// Whether no `/` stands in `s`.
pub open spec fn has_no_slash(s: Seq<char>) -> bool {
    forall|i: int| 0 <= i < s.len() ==> #[trigger] s[i] != '/'
}

/// Whether `name` can stand in a path as one component.
pub open spec fn is_plain_name(name: Seq<char>) -> bool {
    name.len() > 0 && name != "."@ && has_no_slash(name)
}

/// Whether `part` can stand at the place `i` of a path.
pub open spec fn is_part(part: Seq<char>, i: int) -> bool {
    ||| i == 0 && part == "/"@
    ||| part.len() > 0 && has_no_slash(part) && (part == "."@ ==> i == 0)
}

/// Whether `parts` can be the components of a path.
pub open spec fn are_parts(parts: Seq<Seq<char>>) -> bool {
    forall|i: int| 0 <= i < parts.len() ==> is_part(#[trigger] parts[i], i)
}

proof fn lemma_pieces_have_no_slash(s: Seq<char>, from: int, k: int)
    requires
        0 <= from <= s.len(),
        0 <= k < split_from(s, '/', from).len(),
    ensures
        has_no_slash(split_from(s, '/', from)[k]),
    decreases s.len() - from,
{
    lemma_index_from(s, '/', from);
    let i = index_from(s, '/', from);
    if i >= s.len() {
        assert forall|j: int| 0 <= j < s.len() - from implies #[trigger] s.subrange(from, s.len() as int)[j]
            != '/' by {
            assert(s[from + j] != '/');
        }
    } else if k == 0 {
        assert forall|j: int| 0 <= j < i - from implies #[trigger] s.subrange(from, i)[j] != '/' by {
            assert(s[from + j] != '/');
        }
    } else {
        lemma_pieces_have_no_slash(s, i + 1, k - 1);
        assert(split_from(s, '/', from)[k] == split_from(s, '/', i + 1)[k - 1]);
    }
}

proof fn lemma_components_of(pieces: Seq<Seq<char>>, n: nat, rooted: bool)
    requires
        n <= pieces.len(),
        forall|i: int| 0 <= i < pieces.len() ==> has_no_slash(#[trigger] pieces[i]),
        rooted ==> pieces.len() > 0 && pieces[0].len() == 0,
    ensures
        forall|i: int|
            0 <= i < components_of(pieces, n).len() ==> {
                let part = #[trigger] components_of(pieces, n)[i];
                part.len() > 0 && has_no_slash(part) && (part == "."@ ==> i == 0 && !rooted)
            },
        components_of(pieces, n).len() <= n,
    decreases n,
{
    if n > 0 {
        lemma_components_of(pieces, (n - 1) as nat, rooted);
    }
}

/// The components of a path can stand in one.
pub proof fn lemma_components_are_parts(path: Seq<char>)
    ensures
        are_parts(components(path)),
{
    let pieces = split(path, '/');
    assert forall|k: int| 0 <= k < pieces.len() implies has_no_slash(#[trigger] pieces[k]) by {
        lemma_pieces_have_no_slash(path, 0, k);
    }
    let rooted = path.len() > 0 && path[0] == '/';
    if rooted {
        assert(index_from(path, '/', 0) == 0);
        assert(pieces[0] =~= path.subrange(0, 0));
    }
    let named = components_of(pieces, pieces.len());
    lemma_components_of(pieces, pieces.len(), rooted);
    let all = components(path);
    assert forall|i: int| 0 <= i < all.len() implies is_part(#[trigger] all[i], i) by {
        if rooted {
            if i > 0 {
                assert(all[i] == named[i - 1]);
            }
        } else {
            assert(all[i] == named[i]);
        }
    }
}

proof fn lemma_index_in_front(a: Seq<char>, b: Seq<char>, from: int)
    requires
        0 <= from <= a.len(),
    ensures
        index_from(a + seq!['/'] + b, '/', from) == index_from(a, '/', from),
    decreases a.len() - from,
{
    let s = a + seq!['/'] + b;
    if from < a.len() {
        assert(s[from] == a[from]);
        if a[from] != '/' {
            lemma_index_in_front(a, b, from + 1);
        }
    } else {
        assert(s[from] == '/');
    }
}

proof fn lemma_split_behind(a: Seq<char>, b: Seq<char>, from: int)
    requires
        0 <= from <= a.len(),
        has_no_slash(b),
    ensures
        split_from(a + seq!['/'] + b, '/', from) == split_from(a, '/', from).push(b),
    decreases a.len() - from,
{
    let s = a + seq!['/'] + b;
    lemma_index_in_front(a, b, from);
    lemma_index_from(a, '/', from);
    let i = index_from(a, '/', from);
    if i < a.len() {
        lemma_split_behind(a, b, i + 1);
        assert(s.subrange(from, i) =~= a.subrange(from, i));
        assert(split_from(s, '/', from) =~= split_from(a, '/', from).push(b));
    } else {
        let k = (a.len() + 1) as int;
        lemma_index_from(s, '/', k);
        assert(index_from(s, '/', k) == s.len()) by {
            let j = index_from(s, '/', k);
            if j < s.len() {
                assert(s[j] == b[j - k]);
            }
        }
        assert(s.subrange(from, i) =~= a.subrange(from, a.len() as int));
        assert(s.subrange(k, s.len() as int) =~= b);
        assert(split_from(s, '/', k) =~= seq![b]);
        assert(split_from(s, '/', from) =~= split_from(a, '/', from).push(b));
    }
}

proof fn lemma_split_of_joined(parts: Seq<Seq<char>>)
    requires
        parts.len() > 0,
        forall|i: int| 0 <= i < parts.len() ==> has_no_slash(#[trigger] parts[i]),
    ensures
        split(join_names(parts, "/"@), '/') == parts,
    decreases parts.len(),
{
    reveal_strlit("/");
    assert("/"@ =~= seq!['/']);
    if parts.len() == 1 {
        let b = parts[0];
        lemma_index_from(b, '/', 0);
        assert(b.subrange(0, b.len() as int) =~= b);
        assert(split(b, '/') =~= parts);
    } else {
        let front = parts.drop_last();
        assert forall|i: int| 0 <= i < front.len() implies has_no_slash(#[trigger] front[i]) by {
            assert(front[i] == parts[i]);
        }
        lemma_split_of_joined(front);
        assert(has_no_slash(parts[parts.len() - 1]));
        lemma_split_behind(join_names(front, "/"@), parts.last(), 0);
        assert(split(join_names(parts, "/"@), '/') =~= parts);
    }
}

proof fn lemma_all_components(pieces: Seq<Seq<char>>, from: int, n: nat)
    requires
        0 <= from <= n <= pieces.len(),
        forall|i: int| 0 <= i < from ==> (#[trigger] pieces[i]).len() == 0,
        forall|i: int| from <= i < pieces.len() ==> is_component(pieces, i),
    ensures
        components_of(pieces, n) == pieces.subrange(from, n as int),
    decreases n,
{
    if n > from {
        assert(is_component(pieces, n - 1));
        lemma_all_components(pieces, from, (n - 1) as nat);
        assert(components_of(pieces, n) =~= pieces.subrange(from, n as int));
    } else {
        lemma_no_components(pieces, n);
        assert(components_of(pieces, n) =~= pieces.subrange(from, n as int));
    }
}

proof fn lemma_no_components(pieces: Seq<Seq<char>>, n: nat)
    requires
        n <= pieces.len(),
        forall|i: int| 0 <= i < n ==> (#[trigger] pieces[i]).len() == 0,
    ensures
        components_of(pieces, n).len() == 0,
    decreases n,
{
    if n > 0 {
        lemma_no_components(pieces, (n - 1) as nat);
        assert(pieces[n - 1].len() == 0);
    }
}

/// The components of a path that was written from components are those components.
pub proof fn lemma_components_of_text(parts: Seq<Seq<char>>)
    requires
        are_parts(parts),
    ensures
        components(path_text(parts)) == parts,
{
    reveal_strlit("/");
    reveal_strlit(".");
    assert("/"@ =~= seq!['/']);
    let text = path_text(parts);
    if parts.len() == 0 {
        assert(text.len() == 0);
        lemma_index_from(text, '/', 0);
        let pieces = split(text, '/');
        assert(pieces =~= seq![text.subrange(0, 0)]);
        lemma_no_components(pieces, 1);
        assert(components(text) =~= parts);
    } else if parts[0] == "/"@ {
        let rest = parts.skip(1);
        assert(text[0] == '/');
        assert(index_from(text, '/', 0) == 0);
        assert forall|i: int| 0 <= i < rest.len() implies has_no_slash(#[trigger] rest[i]) && rest[i].len() > 0
            && rest[i] != "."@ by {
            assert(is_part(parts[i + 1], i + 1));
        }
        let tail = join_names(rest, "/"@);
        let pieces = split(text, '/');
        lemma_split_of_rooted(tail);
        if rest.len() == 0 {
            assert(tail.len() == 0);
            lemma_index_from(tail, '/', 0);
            assert(split(tail, '/') =~= seq![tail.subrange(0, 0)]);
            assert(pieces.len() == 2);
            assert(pieces[1] =~= tail.subrange(0, 0));
            lemma_no_components(pieces, 2);
        } else {
            lemma_split_of_joined(rest);
            assert forall|i: int| 1 <= i < pieces.len() implies is_component(pieces, i) by {
                assert(pieces[i] == rest[i - 1]);
            }
            lemma_all_components(pieces, 1, pieces.len());
            assert(pieces.subrange(1, pieces.len() as int) =~= rest);
        }
        assert(components(text) =~= parts);
    } else {
        assert forall|i: int| 0 <= i < parts.len() implies has_no_slash(#[trigger] parts[i]) by {
            assert(is_part(parts[i], i));
        }
        lemma_split_of_joined(parts);
        let pieces = split(text, '/');
        assert forall|i: int| 0 <= i < pieces.len() implies is_component(pieces, i) by {
            assert(is_part(parts[i], i));
        }
        lemma_all_components(pieces, 0, pieces.len());
        assert(pieces.subrange(0, pieces.len() as int) =~= parts);
        assert(is_part(parts[0], 0));
        lemma_front_of_joined(parts);
        assert(text.len() > 0 && text[0] != '/');
        assert(components(text) =~= parts);
    }
}

proof fn lemma_front_of_joined(parts: Seq<Seq<char>>)
    requires
        parts.len() > 0,
        parts[0].len() > 0,
    ensures
        join_names(parts, "/"@).len() > 0,
        join_names(parts, "/"@)[0] == parts[0][0],
    decreases parts.len(),
{
    if parts.len() > 1 {
        assert(parts.drop_last()[0] == parts[0]);
        lemma_front_of_joined(parts.drop_last());
    }
}

proof fn lemma_split_of_rooted(tail: Seq<char>)
    ensures
        split(seq!['/'] + tail, '/') == seq![Seq::<char>::empty()] + split(tail, '/'),
{
    let s = seq!['/'] + tail;
    assert(s[0] == '/');
    assert(index_from(s, '/', 0) == 0);
    assert(s.subrange(0, 0) =~= Seq::empty());
    lemma_split_shifted(tail, 0);
}

proof fn lemma_split_shifted(tail: Seq<char>, from: int)
    requires
        0 <= from <= tail.len(),
    ensures
        split_from(seq!['/'] + tail, '/', from + 1) == split_from(tail, '/', from),
    decreases tail.len() - from,
{
    let s = seq!['/'] + tail;
    lemma_index_shifted(tail, from);
    lemma_index_from(tail, '/', from);
    let i = index_from(tail, '/', from);
    if i < tail.len() {
        lemma_split_shifted(tail, i + 1);
        assert(s.subrange(from + 1, i + 1) =~= tail.subrange(from, i));
    } else {
        assert(s.subrange(from + 1, s.len() as int) =~= tail.subrange(from, tail.len() as int));
    }
}

proof fn lemma_index_shifted(tail: Seq<char>, from: int)
    requires
        0 <= from <= tail.len(),
    ensures
        index_from(seq!['/'] + tail, '/', from + 1) == index_from(tail, '/', from) + 1,
    decreases tail.len() - from,
{
    let s = seq!['/'] + tail;
    if from < tail.len() {
        assert(s[from + 1] == tail[from]);
        if tail[from] != '/' {
            lemma_index_shifted(tail, from + 1);
        }
    }
}

/// What is put into a directory lies in it: the path has the directory's components, and the name
/// behind them.
pub proof fn law_joined_lies_inside(dir: Seq<char>, name: Seq<char>)
    requires
        is_plain_name(name),
    ensures
        components(joined(dir, name)) == components(dir).push(name),
        is_under(joined(dir, name), dir),
{
    lemma_components_are_parts(dir);
    let parts = components(dir).push(name);
    assert forall|i: int| 0 <= i < parts.len() implies is_part(#[trigger] parts[i], i) by {
        if i < components(dir).len() {
            assert(is_part(components(dir)[i], i));
        }
    }
    lemma_components_of_text(parts);
    assert(components(dir) =~= parts.subrange(0, components(dir).len() as int));
}

/// What lies in a directory does not lie in its neighbour, even if the name of the one begins with
/// that of the other; and a directory does not lie in what it holds.
pub proof fn law_neighbours_are_apart(dir: Seq<char>, a: Seq<char>, b: Seq<char>, name: Seq<char>)
    requires
        is_plain_name(a),
        is_plain_name(b),
        is_plain_name(name),
        a != b,
    ensures
        !is_under(joined(dir, a), joined(dir, b)),
        !is_under(joined(joined(dir, a), name), joined(dir, b)),
        !is_under(dir, joined(dir, a)),
        is_under(dir, dir),
{
    law_joined_lies_inside(dir, a);
    law_joined_lies_inside(dir, b);
    law_joined_lies_inside(joined(dir, a), name);
    let n = components(dir).len() as int;
    let (pa, pb, pn) = (
        components(joined(dir, a)),
        components(joined(dir, b)),
        components(joined(joined(dir, a), name)),
    );
    assert(pa[n] == a && pb[n] == b && pn[n] == a);
    if is_under(joined(dir, a), joined(dir, b)) {
        assert(pa.subrange(0, n + 1)[n] == a);
    }
    if is_under(joined(joined(dir, a), name), joined(dir, b)) {
        assert(pn.subrange(0, n + 1)[n] == a);
    }
    assert(components(dir).subrange(0, n) =~= components(dir));
}

/// What lies under a directory lies under whatever that directory lies under.
pub proof fn law_under_is_transitive(path: Seq<char>, dir: Seq<char>, root: Seq<char>)
    requires
        is_under(path, dir),
        is_under(dir, root),
    ensures
        is_under(path, root),
{
    let (p, d, r) = (components(path), components(dir), components(root));
    assert(r =~= p.subrange(0, r.len() as int)) by {
        assert(d == p.subrange(0, d.len() as int));
        assert(r == d.subrange(0, r.len() as int));
    }
}

proof fn lemma_components_of_front(a: Seq<Seq<char>>, b: Seq<Seq<char>>, n: nat)
    requires
        n <= a.len(),
    ensures
        components_of(a + b, n) == components_of(a, n),
    decreases n,
{
    if n > 0 {
        lemma_components_of_front(a, b, (n - 1) as nat);
        assert((a + b)[n - 1] == a[n - 1]);
    }
}

proof fn lemma_one_more_piece(a: Seq<Seq<char>>, p: Seq<char>)
    requires
        a.len() > 0,
    ensures
        components_of(a + seq![p], a.len() + 1) == if p.len() > 0 && p != "."@ {
            components_of(a, a.len()).push(p)
        } else {
            components_of(a, a.len())
        },
{
    lemma_components_of_front(a, seq![p], a.len());
    assert((a + seq![p])[a.len() as int] == p);
}

/// A path is its components, however it is spelled: a `/` at its end, two of them in a row and a
/// `.` between them make no difference.
pub proof fn law_spellings_of_a_path_are_one(dir: Seq<char>, name: Seq<char>)
    requires
        dir.len() > 0,
        is_plain_name(name),
    ensures
        components(dir + seq!['/'] + name) == components(dir).push(name),
        components(dir + seq!['/', '/'] + name) == components(dir).push(name),
        components(dir + seq!['/', '.', '/'] + name) == components(dir).push(name),
        components(dir + seq!['/']) == components(dir),
{
    reveal_strlit(".");
    let none = Seq::<char>::empty();
    let dot = seq!['.'];
    assert(dot =~= "."@);
    let a = split(dir, '/');
    lemma_split_at_least_one(dir, '/');
    assert(!name.contains('/')) by {
        if name.contains('/') {
            let i = choose|i: int| 0 <= i < name.len() && name[i] == '/';
            assert(name[i] != '/');
        }
    }
    lemma_split_at_last(dir, name, '/');
    lemma_split_at_last(dir, none, '/');
    lemma_split_at_last(dir, dot, '/');
    let ended = dir + seq!['/'] + none;
    let dotted = dir + seq!['/'] + dot;
    lemma_split_at_last(ended, name, '/');
    lemma_split_at_last(dotted, name, '/');
    lemma_one_more_piece(a, name);
    lemma_one_more_piece(a, none);
    lemma_one_more_piece(a, dot);
    lemma_one_more_piece(a + seq![none], name);
    lemma_one_more_piece(a + seq![dot], name);
    assert(a.push(name) =~= a + seq![name]);
    assert(a.push(none) =~= a + seq![none]);
    assert(a.push(dot) =~= a + seq![dot]);
    assert((a + seq![none]).push(name) =~= a + seq![none] + seq![name]);
    assert((a + seq![dot]).push(name) =~= a + seq![dot] + seq![name]);
    let one = dir + seq!['/'] + name;
    let two = dir + seq!['/', '/'] + name;
    let three = dir + seq!['/', '.', '/'] + name;
    assert(two =~= ended + seq!['/'] + name);
    assert(three =~= dotted + seq!['/'] + name);
    assert(dir + seq!['/'] =~= ended);
    assert(one[0] == dir[0] && two[0] == dir[0] && three[0] == dir[0] && ended[0] == dir[0]);
    let named = components_of(a, a.len());
    if dir[0] == '/' {
        assert(seq!["/"@] + named.push(name) =~= (seq!["/"@] + named).push(name));
    }
}

/// What is put into a directory has that directory as its parent, and its name as its file name. A
/// name that begins with a dot and has no other has no extension.
pub proof fn law_a_path_ends_in_its_name(dir: Seq<char>, name: Seq<char>)
    requires
        is_plain_name(name),
        name != ".."@,
    ensures
        parent_parts(joined(dir, name)) == Some(components(dir)),
        file_name(joined(dir, name)) == Some(name),
        name[0] == '.' && !name.drop_first().contains('.') ==> extension(joined(dir, name)) is None && file_stem_of(
            joined(dir, name),
        ) == Some(name),
        !name.contains('.') ==> extension(joined(dir, name)) is None && file_stem_of(joined(dir, name)) == Some(name),
{
    law_joined_lies_inside(dir, name);
    reveal_strlit("/");
    let c = components(joined(dir, name));
    assert(c.last() == name);
    assert(c.drop_last() =~= components(dir));
    assert("/"@[0] == '/');
    assert(name[0] != '/');
    lemma_last_index(name, '.');
    let i = last_index(name, '.');
    if i > 0 {
        assert(name[i] == '.');
        assert(name.contains('.'));
        assert(name.drop_first()[i - 1] == '.');
        assert(name.drop_first().contains('.'));
    }
}

/// A path is written with one `/` between its components: what is put into a directory is the
/// directory's path, a `/` and the name; into the root, a `/` and the name; into no directory at
/// all, the name.
pub proof fn law_paths_are_written_plainly(dir: Seq<char>, name: Seq<char>)
    requires
        name.len() > 0,
        name != "/"@,
    ensures
        path_text(components(dir)) == dir && dir.len() > 0 && dir != "/"@ ==> joined(dir, name) == dir + seq!['/']
            + name,
        joined("/"@, name) == seq!['/'] + name,
        joined(Seq::empty(), name) == name,
{
    reveal_strlit("/");
    assert("/"@ =~= seq!['/']);
    let none = Seq::<char>::empty();
    lemma_split_at_last(none, none, '/');
    lemma_split_joined(none, none, '/');
    assert(none + seq!['/'] + none =~= "/"@);
    assert(split("/"@, '/') =~= seq![none, none]);
    reveal_with_fuel(components_of, 3);
    assert(components("/"@) =~= seq!["/"@]);
    assert(components(none) =~= Seq::empty());
    assert(seq!["/"@].push(name).skip(1) =~= seq![name]);
    assert(Seq::<Seq<char>>::empty().push(name) =~= seq![name]);
    assert(seq![name][0] == name);
    if path_text(components(dir)) == dir && dir.len() > 0 && dir != "/"@ {
        let c = components(dir);
        if c.len() > 0 && c[0] == "/"@ {
            let rest = c.skip(1);
            if rest.len() == 0 {
                assert(join_names(rest, "/"@) =~= Seq::empty());
                assert(dir =~= "/"@);
            }
            assert(c.push(name).skip(1) =~= rest.push(name));
            assert(rest.push(name).drop_last() =~= rest);
            assert(joined(dir, name) =~= dir + seq!['/'] + name);
        } else {
            assert(c.len() > 0) by {
                if c.len() == 0 {
                    assert(join_names(c, "/"@) =~= Seq::empty());
                }
            }
            assert(c.push(name).drop_last() =~= c);
            assert(c.push(name)[0] == c[0]);
            assert(joined(dir, name) =~= dir + seq!['/'] + name);
        }
    }
}

} // verus!
