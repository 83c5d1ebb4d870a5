//! Where the sources of a plugin lie: the plugin itself, its string tables and
//! its curves.
//!
//! A folder is scanned for exactly one plugin; a file is taken as it is. The
//! sources next to it are looked for in an order of preference.
use crate::error::Error;
use crate::order::{join_text, joined};
use crate::text::{
    chars_of, concat, eq_nocase, list_contains, contains_text, lowercase, str_eq, str_eq_nocase,
    string_of, texts, to_lower,
};
use crate::wildcard::{chars_hold, holds_part};
use vstd::prelude::*;

verus! {

/// What a folder holds.
#[derive(Debug)]
pub struct Listing {
    pub folder: String,
    /// The names of what lies in the folder.
    pub names: Vec<String>,
    /// The files below the folder that were found, by their paths within it.
    pub files: Vec<String>,
    /// The folders below the folder that were found, by their paths within it.
    pub folders: Vec<String>,
}

/// Where string tables were found.
#[derive(Debug)]
pub enum StringsSrc {
    /// A folder with the string tables.
    Loose(String),
    /// An archive with the string tables.
    Ba2(String),
}

/// Where curves were found.
#[derive(Debug)]
pub enum CurvesSrc {
    /// A folder below which the curves lie.
    LooseBase(String),
    /// An archive with the curves.
    Ba2(String),
}

/// The sources of a plugin.
#[derive(Debug)]
pub struct ResolvedSources {
    pub esm: String,
    pub strings: Option<StringsSrc>,
    pub curves: Option<CurvesSrc>,
    /// The name of the plugin without its extension.
    pub loose_prefix: String,
    pub locale: String,
}

/// A source as mathematics: whether it is an archive, and where it lies.
pub ghost struct Source {
    pub archive: bool,
    pub path: Seq<char>,
}

impl View for StringsSrc {
    type V = Source;

    open spec fn view(&self) -> Source {
        match self {
            StringsSrc::Loose(p) => Source { archive: false, path: p@ },
            StringsSrc::Ba2(p) => Source { archive: true, path: p@ },
        }
    }
}

impl View for CurvesSrc {
    type V = Source;

    open spec fn view(&self) -> Source {
        match self {
            CurvesSrc::LooseBase(p) => Source { archive: false, path: p@ },
            CurvesSrc::Ba2(p) => Source { archive: true, path: p@ },
        }
    }
}

// ── Paths ──────────────────────────────────────────────────────────────────
/// The path of `name` in a folder.
pub open spec fn inside(folder: Seq<char>, name: Seq<char>) -> Seq<char> {
    if folder.len() == 0 {
        name
    } else if folder.last() == '/' {
        folder + name
    } else {
        folder + "/"@ + name
    }
}

/// The path of `name` in a folder.
pub fn path_inside(folder: &str, name: &str) -> (r: String)
    ensures
        r@ == inside(folder@, name@),
{
    let v = chars_of(folder);
    if v.len() == 0 {
        name.to_owned()
    } else if v[v.len() - 1] == '/' {
        concat(folder, name)
    } else {
        concat(&concat(folder, "/"), name)
    }
}

/// The position after the last `c`, or zero.
pub open spec fn after_last(s: Seq<char>, c: char) -> int
    decreases s.len(),
{
    if s.len() == 0 {
        0
    } else if s.last() == c {
        s.len() as int
    } else {
        after_last(s.drop_last(), c)
    }
}

/// The position after the last `c`, or zero.
fn find_after_last(v: &Vec<char>, c: char) -> (i: usize)
    ensures
        i == after_last(v@, c),
        i <= v.len(),
{
    let mut i: usize = v.len();
    assert(v@.take(i as int) =~= v@);
    while i > 0 && v[i - 1] != c
        invariant
            i <= v.len(),
            after_last(v@, c) == after_last(v@.take(i as int), c),
        decreases i,
    {
        assert(v@.take(i as int).last() == v@[i - 1]);
        assert(v@.take(i as int).drop_last() =~= v@.take(i - 1));
        i -= 1;
    }
    assert(i > 0 ==> v@.take(i as int).last() == v@[i - 1]);
    i
}

/// A path without what at its end stands for the same place: slashes, and
/// dots behind one.
pub open spec fn tidied(path: Seq<char>) -> Seq<char>
    decreases path.len(),
{
    if path.len() > 0 && (path.last() == '/' || (path.last() == '.' && path.len() > 1
        && path[path.len() - 2] == '/')) {
        tidied(path.drop_last())
    } else {
        path
    }
}

/// Takes from the end of a path what stands for the same place.
fn tidy(v: &mut Vec<char>)
    ensures
        final(v)@ == tidied(old(v)@),
{
    while v.len() > 0 && (v[v.len() - 1] == '/' || (v[v.len() - 1] == '.' && v.len() > 1
        && v[v.len() - 2] == '/'))
        invariant
            tidied(v@) == tidied(old(v)@),
        decreases v.len(),
    {
        let ghost before = v@;
        v.pop();
        assert(v@ =~= before.drop_last());
    }
}

/// The last part of a path.
pub open spec fn base_name(path: Seq<char>) -> Seq<char> {
    tidied(path).skip(after_last(tidied(path), '/'))
}

/// A name before its extension and the extension, which stands behind the last
/// dot unless that is the first character.
pub open spec fn split_extension(name: Seq<char>) -> (Seq<char>, Option<Seq<char>>) {
    let i = after_last(name, '.');
    if i <= 1 {
        (name, None)
    } else {
        (name.take(i - 1), Some(name.skip(i)))
    }
}

/// The name of a plugin without its extension; a path without a name stands
/// for a plugin of the name `game`.
pub open spec fn stem(path: Seq<char>) -> Seq<char> {
    let name = base_name(path);
    if name.len() == 0 || name == "."@ || name == ".."@ {
        "game"@
    } else {
        split_extension(name).0
    }
}

/// The name of a plugin without its extension.
pub fn file_stem(path: &str) -> (r: String)
    ensures
        r@ == stem(path@),
{
    let mut v = chars_of(path);
    tidy(&mut v);
    let at: usize = find_after_last(&v, '/');
    let name = string_of(&v, at, v.len());
    assert(name@ =~= base_name(path@));
    if at == v.len() || str_eq(&name, ".") || str_eq(&name, "..") {
        return "game".to_owned();
    }
    let n = chars_of(&name);
    let dot: usize = find_after_last(&n, '.');
    if dot <= 1 {
        name
    } else {
        let r = string_of(&n, 0, dot - 1);
        assert(r@ =~= name@.take(dot - 1));
        r
    }
}

// ── Plugins ────────────────────────────────────────────────────────────────
/// Whether a name is that of a plugin.
pub open spec fn is_plugin(name: Seq<char>) -> bool {
    split_extension(name).1 matches Some(e) && eq_nocase(e, "esm"@)
}

/// Whether a name is that of a plugin.
fn names_plugin(name: &str) -> (r: bool)
    ensures
        r == is_plugin(name@),
{
    let v = chars_of(name);
    let dot: usize = find_after_last(&v, '.');
    if dot <= 1 {
        return false;
    }
    let e = string_of(&v, dot, v.len());
    assert(e@ =~= name@.skip(dot as int));
    str_eq_nocase(&e, "esm")
}

/// The plugins among the first `n` names, in order.
pub open spec fn plugins(names: Seq<Seq<char>>, n: nat) -> Seq<Seq<char>>
    decreases n,
{
    if n == 0 || n > names.len() {
        Seq::empty()
    } else if is_plugin(names[n - 1]) {
        joined(plugins(names, (n - 1) as nat), names[n - 1])
    } else {
        plugins(names, (n - 1) as nat)
    }
}

/// The one plugin in a folder.
pub fn find_single_esm(dir: &Listing) -> (r: Result<String, Error>)
    ensures
        ({
            let list = plugins(texts(dir.names@), dir.names@.len());
            match r {
                Ok(path) => list.len() == 1 && path@ == inside(dir.folder@, list[0]),
                Err(e) => if list.len() == 0 {
                    e matches Error::NoPlugin(f) && f@ == dir.folder@
                } else {
                    list.len() > 1 && (e matches Error::SeveralPlugins { folder, names } && folder@
                        == dir.folder@ && texts(names@) == list)
                },
            }
        }),
{
    let mut found: Vec<String> = Vec::new();
    assert(texts(found@) =~= Seq::<Seq<char>>::empty());
    let mut i: usize = 0;
    while i < dir.names.len()
        invariant
            i <= dir.names.len(),
            texts(found@) == plugins(texts(dir.names@), i as nat),
        decreases dir.names.len() - i,
    {
        assert(texts(dir.names@)[i as int] == dir.names@[i as int]@);
        if names_plugin(&dir.names[i]) {
            join_text(&mut found, &dir.names[i]);
        }
        i += 1;
    }
    assert(texts(found@).len() == found.len());
    if found.len() == 1 {
        assert(texts(found@)[0] == found@[0]@);
        Ok(path_inside(&dir.folder, &found[0]))
    } else if found.len() == 0 {
        Err(Error::NoPlugin(dir.folder.as_str().to_owned()))
    } else {
        Err(Error::SeveralPlugins { folder: dir.folder.as_str().to_owned(), names: found })
    }
}

// ── Archives ───────────────────────────────────────────────────────────────
/// Whether a name, in lower case, is that of an archive and holds `keyword`.
pub open spec fn is_archive(name: Seq<char>, keyword: Seq<char>) -> bool {
    let low = lowercase(name);
    low.len() >= 4 && low.skip(low.len() - 4) == ".ba2"@ && holds_part(low, keyword)
}

/// Whether a name is that of an archive and holds `keyword`.
fn names_archive(name: &str, keyword: &str) -> (r: bool)
    ensures
        r == is_archive(name@, keyword@),
{
    let low = to_lower(name);
    let v = chars_of(&low);
    if v.len() < 4 {
        return false;
    }
    let end = string_of(&v, v.len() - 4, v.len());
    assert(end@ =~= low@.skip(low@.len() - 4));
    str_eq(&end, ".ba2") && chars_hold(&v, &chars_of(keyword))
}

/// The archives among the first `n` names that hold `keyword`, in order.
pub open spec fn archives(names: Seq<Seq<char>>, keyword: Seq<char>, n: nat) -> Seq<Seq<char>>
    decreases n,
{
    if n == 0 || n > names.len() {
        Seq::empty()
    } else if is_archive(names[n - 1], keyword) {
        joined(archives(names, keyword, (n - 1) as nat), names[n - 1])
    } else {
        archives(names, keyword, (n - 1) as nat)
    }
}

/// The first archive of a folder whose name holds `keyword`.
pub open spec fn archive_in(dir: Listing, keyword: Seq<char>) -> Option<Seq<char>> {
    let list = archives(texts(dir.names@), keyword, dir.names@.len());
    if list.len() > 0 {
        Some(inside(dir.folder@, list[0]))
    } else {
        None
    }
}

/// The first archive of a folder whose name holds `keyword`.
pub fn find_ba2_containing(dir: &Listing, keyword: &str) -> (r: Option<String>)
    ensures
        crate::schema::opt_text(r) == archive_in(*dir, keyword@),
{
    let mut list: Vec<String> = Vec::new();
    assert(texts(list@) =~= Seq::<Seq<char>>::empty());
    let mut i: usize = 0;
    while i < dir.names.len()
        invariant
            i <= dir.names.len(),
            texts(list@) == archives(texts(dir.names@), keyword@, i as nat),
        decreases dir.names.len() - i,
    {
        assert(texts(dir.names@)[i as int] == dir.names@[i as int]@);
        if names_archive(&dir.names[i], keyword) {
            join_text(&mut list, &dir.names[i]);
        }
        i += 1;
    }
    assert(texts(list@).len() == list.len());
    if list.len() > 0 {
        assert(texts(list@)[0] == list@[0]@);
        Some(path_inside(&dir.folder, &list[0]))
    } else {
        None
    }
}

// ── Sources ────────────────────────────────────────────────────────────────
/// The name of a string table.
pub open spec fn table_name(stem: Seq<char>, locale: Seq<char>) -> Seq<char> {
    stem + "_"@ + locale + ".strings"@
}

/// Where the string tables of a plugin lie: in `strings`, or in its folder, or
/// in an archive with `localization` in its name.
pub open spec fn strings_in(dir: Listing, stem: Seq<char>, locale: Seq<char>) -> Option<Source> {
    let name = table_name(stem, locale);
    if contains_text(dir.files@, inside("strings"@, name)) {
        Some(Source { archive: false, path: inside(dir.folder@, "strings"@) })
    } else if contains_text(dir.files@, name) {
        Some(Source { archive: false, path: dir.folder@ })
    } else {
        match archive_in(dir, "localization"@) {
            Some(path) => Some(Source { archive: true, path }),
            None => None,
        }
    }
}

/// Where the string tables of a plugin lie.
pub fn find_strings(dir: &Listing, stem: &str, locale: &str) -> (r: Option<StringsSrc>)
    ensures
        match r {
            Some(s) => strings_in(*dir, stem@, locale@) == Some(s@),
            None => strings_in(*dir, stem@, locale@) is None,
        },
{
    let name = concat(&concat(&concat(stem, "_"), locale), ".strings");
    if list_contains(&dir.files, &path_inside("strings", &name)) {
        return Some(StringsSrc::Loose(path_inside(&dir.folder, "strings")));
    }
    if list_contains(&dir.files, &name) {
        return Some(StringsSrc::Loose(dir.folder.as_str().to_owned()));
    }
    match find_ba2_containing(dir, "localization") {
        Some(path) => Some(StringsSrc::Ba2(path)),
        None => None,
    }
}

/// Where the curves of a plugin lie: below `misc`, or below its folder, or in
/// an archive with `startup` in its name.
pub open spec fn curves_in(dir: Listing) -> Option<Source> {
    if contains_text(dir.folders@, "misc/curvetables/json"@) {
        Some(Source { archive: false, path: inside(dir.folder@, "misc"@) })
    } else if contains_text(dir.folders@, "curvetables/json"@) {
        Some(Source { archive: false, path: dir.folder@ })
    } else {
        match archive_in(dir, "startup"@) {
            Some(path) => Some(Source { archive: true, path }),
            None => None,
        }
    }
}

/// Where the curves of a plugin lie.
pub fn find_curves(dir: &Listing) -> (r: Option<CurvesSrc>)
    ensures
        match r {
            Some(s) => curves_in(*dir) == Some(s@),
            None => curves_in(*dir) is None,
        },
{
    if list_contains(&dir.folders, "misc/curvetables/json") {
        return Some(CurvesSrc::LooseBase(path_inside(&dir.folder, "misc")));
    }
    if list_contains(&dir.folders, "curvetables/json") {
        return Some(CurvesSrc::LooseBase(dir.folder.as_str().to_owned()));
    }
    match find_ba2_containing(dir, "startup") {
        Some(path) => Some(CurvesSrc::Ba2(path)),
        None => None,
    }
}

/// The sources of a plugin. A folder, whose contents `dir` gives, must hold
/// exactly one plugin. A file is taken as it is, and `dir` gives the contents
/// of the folder that it lies in.
pub fn resolve_sources(input: &str, is_folder: bool, dir: &Listing, locale: &str) -> (r: Result<
    ResolvedSources,
    Error,
>)
    ensures
        ({
            let list = plugins(texts(dir.names@), dir.names@.len());
            match r {
                Ok(s) => {
                    &&& is_folder ==> list.len() == 1
                    &&& s.esm@ == if is_folder {
                        inside(dir.folder@, list[0])
                    } else {
                        input@
                    }
                    &&& s.loose_prefix@ == stem(s.esm@)
                    &&& s.locale@ == locale@
                    &&& match s.strings {
                        Some(src) => strings_in(*dir, s.loose_prefix@, locale@) == Some(src@),
                        None => strings_in(*dir, s.loose_prefix@, locale@) is None,
                    }
                    &&& match s.curves {
                        Some(src) => curves_in(*dir) == Some(src@),
                        None => curves_in(*dir) is None,
                    }
                },
                Err(e) => is_folder && if list.len() == 0 {
                    e matches Error::NoPlugin(f) && f@ == dir.folder@
                } else {
                    list.len() > 1 && (e matches Error::SeveralPlugins { folder, names } && folder@
                        == dir.folder@ && texts(names@) == list)
                },
            }
        }),
{
    let esm: String = if is_folder {
        match find_single_esm(dir) {
            Ok(path) => path,
            Err(e) => {
                return Err(e);
            },
        }
    } else {
        input.to_owned()
    };
    let loose_prefix = file_stem(&esm);
    let strings = find_strings(dir, &loose_prefix, locale);
    let curves = find_curves(dir);
    Ok(ResolvedSources { esm, strings, curves, loose_prefix, locale: locale.to_owned() })
}

} // verus!
