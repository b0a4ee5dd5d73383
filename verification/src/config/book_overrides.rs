//! Settings of one book, from a `.podspine.toml` beside or inside it.
//!
//! They come before the command line, the environment and the server's file.
//! For a single-file book the sidecar stands beside the audio
//! (`Author - Title.podspine.toml`); for a folder, or a lone file in a folder of
//! its own, it is `.podspine.toml` inside the folder. The library root has none:
//! every top-level book shares it.

use vstd::prelude::*;
use vstd::string::StringExecFns;
use crate::config::StorageMode;
use crate::paths::{components, file_name, has_no_slash, joined, law_joined_lies_inside, names, parent_parts, path_components, path_file_name, path_parent, path_text, stem_of, text_of_path};
use crate::splitter::lemma_name_parts;
use crate::text::{chars_of, holds_text, string_of, texts};

verus! {

/// The overrides of one book. What is not set falls back to the server's configuration.
#[derive(Debug)]
pub struct BookOverrides {
    /// Ignore sidecar chapters of this book.
    pub force_embedded_chapters: Option<bool>,
    /// How this book is stored.
    pub storage_mode: Option<StorageMode>,
    /// Remux this book if it is a non-faststart whole-file MP4.
    pub remux_non_faststart: Option<bool>,
    /// Cover of this book if it has none.
    pub default_cover_url: Option<String>,
    /// Leave this book out altogether.
    pub disabled: Option<bool>,
    /// Title of this book.
    pub title: Option<String>,
    /// Author of this book.
    pub author: Option<String>,
    /// Ingest this book again on every scan.
    pub force_reingest: Option<bool>,
    /// Keys that were given although they make sense for the whole server only.
    pub globals: GlobalKeys,
}

/// Which keys of the server's configuration a sidecar holds. They are ignored.
#[derive(Debug, Clone, Copy, PartialEq, Eq, Structural)]
pub struct GlobalKeys {
    pub library: bool,
    pub data_dir: bool,
    pub bind: bool,
    pub base_url: bool,
    pub config: bool,
    pub cache_size: bool,
    pub cache_ttl: bool,
}

impl Default for GlobalKeys {
    fn default() -> (r: Self)
        ensures
            r == (GlobalKeys {
                library: false,
                data_dir: false,
                bind: false,
                base_url: false,
                config: false,
                cache_size: false,
                cache_ttl: false,
            }),
    {
        GlobalKeys {
            library: false,
            data_dir: false,
            bind: false,
            base_url: false,
            config: false,
            cache_size: false,
            cache_ttl: false,
        }
    }
}

impl Default for BookOverrides {
    fn default() -> (r: Self)
        ensures
            r.force_embedded_chapters is None && r.storage_mode is None && r.remux_non_faststart is None,
            r.default_cover_url is None && r.disabled is None && r.title is None && r.author is None,
            r.force_reingest is None,
            r.globals == (GlobalKeys {
                library: false,
                data_dir: false,
                bind: false,
                base_url: false,
                config: false,
                cache_size: false,
                cache_ttl: false,
            }),
    {
        BookOverrides {
            force_embedded_chapters: None,
            storage_mode: None,
            remux_non_faststart: None,
            default_cover_url: None,
            disabled: None,
            title: None,
            author: None,
            force_reingest: None,
            globals: GlobalKeys::default(),
        }
    }
}

/// The name, if the key is there.
pub open spec fn key_if(present: bool, name: Seq<char>) -> Seq<Seq<char>> {
    if present {
        seq![name]
    } else {
        Seq::empty()
    }
}

/// The keys of the server's configuration that a sidecar holds, in a fixed order.
pub open spec fn ignored_keys(g: GlobalKeys) -> Seq<Seq<char>> {
    key_if(g.library, "library"@) + key_if(g.data_dir, "data_dir"@) + key_if(g.bind, "bind"@) + key_if(
        g.base_url,
        "base_url"@,
    ) + key_if(g.config, "config"@) + key_if(g.cache_size, "cache_size"@) + key_if(
        g.cache_ttl,
        "cache_ttl"@,
    )
}

fn push_if(v: &mut Vec<&'static str>, present: bool, name: &'static str)
    ensures
        str_views(final(v)@) == str_views(old(v)@) + key_if(present, name@),
{
    let ghost before = v@;
    if present {
        v.push(name);
    }
    assert(str_views(v@) =~= str_views(before) + key_if(present, name@));
}

/// The texts of string slices.
pub open spec fn str_views(v: Seq<&'static str>) -> Seq<Seq<char>> {
    v.map_values(|s: &'static str| s@)
}

impl BookOverrides {
    /// The keys of the server's configuration that the sidecar holds, for a warning that they did
    /// nothing.
    pub fn ignored_global_keys(&self) -> (r: Vec<&'static str>)
        ensures
            str_views(r@) == ignored_keys(self.globals),
    {
        let mut v: Vec<&'static str> = Vec::new();
        assert(str_views(v@) =~= Seq::empty());
        push_if(&mut v, self.globals.library, "library");
        push_if(&mut v, self.globals.data_dir, "data_dir");
        push_if(&mut v, self.globals.bind, "bind");
        push_if(&mut v, self.globals.base_url, "base_url");
        push_if(&mut v, self.globals.config, "config");
        push_if(&mut v, self.globals.cache_size, "cache_size");
        push_if(&mut v, self.globals.cache_ttl, "cache_ttl");
        assert(str_views(v@) =~= ignored_keys(self.globals));
        v
    }
}

/// The places a sidecar may stand, in the order they are tried. Inside a folder book; beside a
/// single-file book, then in its folder unless that is the library root.
pub open spec fn sidecar_places(
    source: Seq<char>,
    source_is_dir: bool,
    library_root: Seq<char>,
) -> Seq<Seq<char>> {
    if source_is_dir {
        seq![path_text(components(source).push(".podspine.toml"@))]
    } else {
        let beside = match (file_name(source), parent_parts(source)) {
            (Some(name), Some(dir)) => seq![
                path_text(dir.push(stem_of(name) + ".podspine.toml"@)),
            ],
            _ => Seq::empty(),
        };
        let inside = match parent_parts(source) {
            Some(dir) => if dir != components(library_root) {
                seq![path_text(dir.push(".podspine.toml"@))]
            } else {
                Seq::empty()
            },
            None => Seq::empty(),
        };
        beside + inside
    }
}

/// The first of `places` that is among `files`.
pub open spec fn first_present(places: Seq<Seq<char>>, files: Seq<Seq<char>>, from: int) -> Option<Seq<char>>
    decreases places.len() - from,
{
    if from < 0 || from >= places.len() {
        None
    } else if files.contains(places[from]) {
        Some(places[from])
    } else {
        first_present(places, files, from + 1)
    }
}

fn within(dir: &Vec<Vec<char>>, name: String) -> (r: String)
    ensures
        r@ == path_text(names(dir@).push(name@)),
{
    let mut parts: Vec<Vec<char>> = Vec::new();
    let mut i: usize = 0;
    while i < dir.len()
        invariant
            i <= dir.len(),
            names(parts@) =~= names(dir@).take(i as int),
        decreases dir.len() - i,
    {
        let ghost before = names(parts@);
        let p = &dir[i];
        parts.push(crate::text::slice_of(p, 0, p.len()));
        proof {
            assert(p@.subrange(0, p@.len() as int) =~= p@);
            assert(names(parts@) =~= before.push(p@));
            assert(names(dir@).take(i + 1) =~= names(dir@).take(i as int).push(p@));
        }
        i = i + 1;
    }
    let ghost before = names(parts@);
    parts.push(chars_of(name.as_str()));
    assert(names(parts@) =~= names(dir@).push(name@)) by {
        assert(names(dir@).take(dir@.len() as int) =~= names(dir@));
        assert(names(parts@) =~= before.push(name@));
    }
    text_of_path(&parts)
}

fn same_names(a: &Vec<Vec<char>>, b: &Vec<Vec<char>>) -> (r: bool)
    ensures
        r == (names(a@) == names(b@)),
{
    if a.len() != b.len() {
        assert(names(a@).len() != names(b@).len());
        return false;
    }
    let r = crate::paths::names_start_with(a, b);
    assert(names(a@).subrange(0, a@.len() as int) =~= names(a@));
    r
}

/// The places the sidecar of the book `source` may stand, in the order they are tried.
pub fn sidecar_candidates(source: &str, source_is_dir: bool, library_root: &str) -> (r: Vec<String>)
    ensures
        texts(r@) == sidecar_places(source@, source_is_dir, library_root@),
{
    let mut r: Vec<String> = Vec::new();
    assert(texts(r@) =~= Seq::empty());
    if source_is_dir {
        let c = path_components(source);
        r.push(within(&c, ".podspine.toml".to_owned()));
        assert(texts(r@) =~= sidecar_places(source@, source_is_dir, library_root@));
        return r;
    }
    match path_parent(source) {
        Some(dir) => {
            match path_file_name(source) {
                Some(name) => {
                    let i = crate::paths::after_last(&name, '.');
                    let mut file = if i > 1 {
                        let s = crate::text::string_from(&name, 0, i - 1);
                        assert(s@ =~= name@.take(i - 1));
                        s
                    } else {
                        string_of(&name)
                    };
                    file.append(".podspine.toml");
                    r.push(within(&dir, file));
                },
                None => {},
            }
            let ghost beside = texts(r@);
            let root = path_components(library_root);
            if !same_names(&dir, &root) {
                r.push(within(&dir, ".podspine.toml".to_owned()));
            }
            assert(texts(r@) =~= sidecar_places(source@, source_is_dir, library_root@));
        },
        None => {
            assert(texts(r@) =~= sidecar_places(source@, source_is_dir, library_root@));
        },
    }
    r
}

/// The sidecar of the book `source`, a file or a folder, where `files` are the files that exist
/// among [`sidecar_candidates`]; `None` if there is none.
pub fn sidecar_path(
    source: &str,
    source_is_dir: bool,
    library_root: &str,
    files: &Vec<String>,
) -> (r: Option<String>)
    ensures
        crate::text::opt_text(r) == first_present(
            sidecar_places(source@, source_is_dir, library_root@),
            texts(files@),
            0,
        ),
{
    let places = sidecar_candidates(source, source_is_dir, library_root);
    let ghost p = sidecar_places(source@, source_is_dir, library_root@);
    let mut i: usize = 0;
    while i < places.len()
        invariant
            i <= places.len(),
            p == sidecar_places(source@, source_is_dir, library_root@),
            texts(places@) == p,
            first_present(p, texts(files@), 0) == first_present(p, texts(files@), i as int),
        decreases places.len() - i,
    {
        assert(p[i as int] == places@[i as int]@);
        if holds_text(files, places[i].as_str()) {
            return Some(places[i].clone());
        }
        i = i + 1;
    }
    None
}

/// No sidecar in the library root speaks for a top-level book: only one that bears its name does.
pub proof fn law_root_sidecar_covers_no_top_level_book(source: Seq<char>, library_root: Seq<char>)
    requires
        parent_parts(source) == Some(components(library_root)),
        file_name(source) is Some,
    ensures
        sidecar_places(source, false, library_root) == seq![
            path_text(components(library_root).push(stem_of(file_name(source)->0) + ".podspine.toml"@)),
        ],
{
    assert(sidecar_places(source, false, library_root) =~= seq![
        path_text(components(library_root).push(stem_of(file_name(source)->0) + ".podspine.toml"@)),
    ]);
}

/// The sidecar of a folder book lies in the folder. That of a file lies beside it under the file's
/// own stem; failing that, one in the file's folder counts, unless the folder is the library root.
pub proof fn law_sidecars_lie_with_their_books(dir: Seq<char>, stem: Seq<char>, ext: Seq<char>, root: Seq<char>)
    requires
        stem.len() > 0,
        has_no_slash(stem),
        ext.len() > 0,
        has_no_slash(ext),
        !ext.contains('.'),
    ensures
        sidecar_places(dir, true, root) == seq![joined(dir, ".podspine.toml"@)],
        ({
            let places = sidecar_places(joined(dir, stem + seq!['.'] + ext), false, root);
            &&& places[0] == joined(dir, stem + ".podspine.toml"@)
            &&& components(dir) != components(root) ==> places.len() == 2 && places[1] == joined(
                dir,
                ".podspine.toml"@,
            )
            &&& components(dir) == components(root) ==> places.len() == 1
        }),
{
    let name = stem + seq!['.'] + ext;
    lemma_name_parts(stem, ext);
    law_joined_lies_inside(dir, name);
    let source = joined(dir, name);
    reveal_strlit("/");
    reveal_strlit(".");
    assert(components(source).last() == name);
    assert(name.len() >= 2);
    assert("/"@.len() == 1 && "."@.len() == 1);
    assert(components(source).drop_last() =~= components(dir));
    assert(file_name(source) == Some(name));
    assert(parent_parts(source) == Some(components(dir)));
}

/// The sidecar that counts is the first, in the order they are tried, that exists.
pub proof fn law_first_sidecar_counts(places: Seq<Seq<char>>, files: Seq<Seq<char>>, from: int)
    requires
        0 <= from <= places.len(),
    ensures
        match first_present(places, files, from) {
            Some(p) => exists|k: int|
                {
                    &&& from <= k < places.len()
                    &&& (#[trigger] places[k]) == p
                    &&& files.contains(p)
                    &&& forall|j: int| from <= j < k ==> !files.contains(#[trigger] places[j])
                },
            None => forall|j: int| from <= j < places.len() ==> !files.contains(#[trigger] places[j]),
        },
    decreases places.len() - from,
{
    if from < places.len() {
        if files.contains(places[from]) {
            assert(places[from] == first_present(places, files, from)->0);
        } else {
            law_first_sidecar_counts(places, files, from + 1);
            if first_present(places, files, from) is Some {
                let p = first_present(places, files, from)->0;
                let k = choose|k: int|
                    {
                        &&& from + 1 <= k < places.len()
                        &&& (#[trigger] places[k]) == p
                        &&& files.contains(p)
                        &&& forall|j: int| from + 1 <= j < k ==> !files.contains(#[trigger] places[j])
                    };
                assert(places[k] == p);
                assert forall|j: int| from <= j < k implies !files.contains(#[trigger] places[j]) by {}
            } else {
                assert forall|j: int| from <= j < places.len() implies !files.contains(#[trigger] places[j]) by {}
            }
        }
    }
}

/// A key of the server's configuration is warned of exactly if the sidecar holds it.
pub proof fn law_ignored_keys_are_those_that_are_there(g: GlobalKeys)
    ensures
        ignored_keys(g).contains("library"@) <==> g.library,
        ignored_keys(g).contains("data_dir"@) <==> g.data_dir,
        ignored_keys(g).contains("bind"@) <==> g.bind,
        ignored_keys(g).contains("base_url"@) <==> g.base_url,
        ignored_keys(g).contains("config"@) <==> g.config,
        ignored_keys(g).contains("cache_size"@) <==> g.cache_size,
        ignored_keys(g).contains("cache_ttl"@) <==> g.cache_ttl,
{
    reveal_strlit("library");
    reveal_strlit("data_dir");
    reveal_strlit("bind");
    reveal_strlit("base_url");
    reveal_strlit("config");
    reveal_strlit("cache_size");
    reveal_strlit("cache_ttl");
    assert("library"@.len() == 7 && "bind"@.len() == 4 && "config"@.len() == 6);
    assert("data_dir"@.len() == 8 && "data_dir"@[0] == 'd');
    assert("base_url"@.len() == 8 && "base_url"@[0] == 'b');
    assert("cache_size"@.len() == 10 && "cache_ttl"@.len() == 9);
    let a = key_if(g.library, "library"@);
    let b = key_if(g.data_dir, "data_dir"@);
    let c = key_if(g.bind, "bind"@);
    let d = key_if(g.base_url, "base_url"@);
    let e = key_if(g.config, "config"@);
    let f = key_if(g.cache_size, "cache_size"@);
    let h = key_if(g.cache_ttl, "cache_ttl"@);
    lemma_holds_either(a + b + c + d + e + f, h);
    lemma_holds_either(a + b + c + d + e, f);
    lemma_holds_either(a + b + c + d, e);
    lemma_holds_either(a + b + c, d);
    lemma_holds_either(a + b, c);
    lemma_holds_either(a, b);
    lemma_holds_key(g.library, "library"@);
    lemma_holds_key(g.data_dir, "data_dir"@);
    lemma_holds_key(g.bind, "bind"@);
    lemma_holds_key(g.base_url, "base_url"@);
    lemma_holds_key(g.config, "config"@);
    lemma_holds_key(g.cache_size, "cache_size"@);
    lemma_holds_key(g.cache_ttl, "cache_ttl"@);
}

proof fn lemma_holds_either(a: Seq<Seq<char>>, b: Seq<Seq<char>>)
    ensures
        forall|x: Seq<char>| #[trigger] (a + b).contains(x) <==> a.contains(x) || b.contains(x),
{
    assert forall|x: Seq<char>| #[trigger] (a + b).contains(x) <==> a.contains(x) || b.contains(x) by {
        if a.contains(x) {
            let i = choose|i: int| 0 <= i < a.len() && a[i] == x;
            assert((a + b)[i] == x);
        }
        if b.contains(x) {
            let i = choose|i: int| 0 <= i < b.len() && b[i] == x;
            assert((a + b)[a.len() + i] == x);
        }
        if (a + b).contains(x) {
            let i = choose|i: int| 0 <= i < (a + b).len() && (a + b)[i] == x;
            if i >= a.len() {
                assert(b[i - a.len()] == x);
            }
        }
    }
}

proof fn lemma_holds_key(present: bool, name: Seq<char>)
    ensures
        forall|x: Seq<char>| #[trigger] key_if(present, name).contains(x) <==> present && x == name,
{
    assert forall|x: Seq<char>| #[trigger] key_if(present, name).contains(x) <==> present && x == name by {
        if present && x == name {
            assert(key_if(present, name)[0] == name);
        }
    }
}

} // verus!
