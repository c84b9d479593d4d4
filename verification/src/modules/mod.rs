//! Resolving a module declaration to the file that holds its body.
//!
//! Rust's containment tree spans files, and the mapping between the two is a
//! convention: `mod net;` inside `src/lib.rs` means `src/net.rs` or `src/net/mod.rs`,
//! while the same line inside `src/client.rs` means `src/client/net.rs`. Paths here are
//! `/`-separated text; which candidate exists on disk is asked at the edge.

pub mod listing;
pub mod files;
pub mod python;

use vstd::prelude::*;
use crate::text::push_str;
use crate::text::chars_of;

verus! {

/// The position of the last `c` in `s`, or `-1`.
pub open spec fn last_of(s: Seq<char>, c: char) -> int
    decreases s.len(),
{
    if s.len() == 0 {
        -1
    } else if s.last() == c {
        s.len() - 1
    } else {
        last_of(s.drop_last(), c)
    }
}

/// The directory part of a path: everything before its last `/`, `/` itself for a file
/// at the root, empty for a bare name.
pub open spec fn parent_of(path: Seq<char>) -> Seq<char> {
    let k = last_of(path, '/');
    if k < 0 {
        Seq::empty()
    } else if k == 0 {
        seq!['/']
    } else {
        path.take(k)
    }
}

/// The last component of a path.
pub open spec fn file_name_of(path: Seq<char>) -> Seq<char> {
    path.skip(last_of(path, '/') + 1)
}

/// A file name without its extension: up to its last `.`, unless that dot opens the
/// name.
pub open spec fn stem_of(name: Seq<char>) -> Seq<char> {
    let d = last_of(name, '.');
    if d <= 0 {
        name
    } else {
        name.take(d)
    }
}

/// `dir` joined with `part`.
pub open spec fn joined_path(dir: Seq<char>, part: Seq<char>) -> Seq<char> {
    if dir.len() == 0 {
        part
    } else if dir.last() == '/' {
        dir + part
    } else {
        dir + seq!['/'] + part
    }
}

/// `dir` joined with each of `parts` in turn.
pub open spec fn joined_all(dir: Seq<char>, parts: Seq<Seq<char>>) -> Seq<char>
    decreases parts.len(),
{
    if parts.len() == 0 {
        dir
    } else {
        joined_all(joined_path(dir, parts[0]), parts.drop_first())
    }
}

/// Whether a file is "mod-rs": a crate root or a `mod.rs`, which own their directory.
pub open spec fn owns_directory(path: Seq<char>, is_crate_root: bool) -> bool {
    is_crate_root || (file_name_of(path).len() > 0 && stem_of(file_name_of(path)) == "mod"@)
}

/// Where a file's child modules are looked for: a crate root or a `mod.rs` owns its own
/// directory; any other file owns a subdirectory named after it.
pub open spec fn module_directory_of(path: Seq<char>, is_crate_root: bool) -> Seq<char> {
    if owns_directory(path, is_crate_root) || file_name_of(path).len() == 0 {
        parent_of(path)
    } else {
        joined_path(parent_of(path), stem_of(file_name_of(path)))
    }
}

/// The position of the last `c` in `s`, or `None`.
pub(crate) fn find_last(s: &Vec<char>, c: char) -> (r: Option<usize>)
    ensures
        match r {
            Some(k) => k as int == last_of(s@, c) && k < s@.len(),
            None => last_of(s@, c) == -1,
        },
{
    let mut i: usize = s.len();
    assert(s@.take(i as int) =~= s@);
    while i > 0
        invariant
            i <= s@.len(),
            last_of(s@, c) == last_of(s@.take(i as int), c),
        decreases i,
    {
        let ghost t = s@.take(i as int);
        proof {
            assert(t.last() == s@[i - 1]);
            assert(t.drop_last() =~= s@.take(i - 1));
        }
        if s[i - 1] == c {
            return Some(i - 1);
        }
        i = i - 1;
    }
    None
}

/// `s[from..to]` as a string.
fn text_of(s: &Vec<char>, from: usize, to: usize) -> (r: String)
    requires
        from <= to <= s@.len(),
    ensures
        r@ == s@.subrange(from as int, to as int),
{
    crate::text::string_of_range(s.as_slice(), from, to)
}

/// The directory part of a path.
pub fn parent(path: &str) -> (r: String)
    ensures
        r@ == parent_of(path@),
{
    let s = chars_of(path);
    match find_last(&s, '/') {
        None => String::new(),
        Some(0) => {
            proof {
                reveal_strlit("/");
            }
            "/".to_string()
        },
        Some(k) => {
            assert(s@.subrange(0, k as int) =~= s@.take(k as int));
            text_of(&s, 0, k)
        },
    }
}

/// The last component of a path.
pub fn file_name(path: &str) -> (r: String)
    ensures
        r@ == file_name_of(path@),
{
    let s = chars_of(path);
    assert(s@.len() == s.len());
    let from = match find_last(&s, '/') {
        None => 0,
        Some(k) => k + 1,
    };
    assert(s@.subrange(from as int, s@.len() as int) =~= s@.skip(from as int));
    text_of(&s, from, s.len())
}

/// A file name without its extension.
pub fn stem(name: &str) -> (r: String)
    ensures
        r@ == stem_of(name@),
{
    let s = chars_of(name);
    match find_last(&s, '.') {
        Some(d) => {
            if d == 0 {
                return name.to_string();
            }
            assert(s@.subrange(0, d as int) =~= s@.take(d as int));
            text_of(&s, 0, d)
        },
        None => name.to_string(),
    }
}

/// `dir` joined with `part`.
pub fn join(dir: &str, part: &str) -> (r: String)
    ensures
        r@ == joined_path(dir@, part@),
{
    let d = chars_of(dir);
    if d.len() == 0 {
        return part.to_string();
    }
    let mut s = dir.to_string();
    if d[d.len() - 1] != '/' {
        proof {
            reveal_strlit("/");
        }
        push_str(&mut s, "/");
    }
    push_str(&mut s, part);
    s
}

/// Whether `file` is a crate root — the entry point of a build target.
pub fn is_crate_root(file: &str) -> (r: bool)
    ensures
        r == (file_name_of(file@) == "lib.rs"@ || file_name_of(file@) == "main.rs"@ || file_name_of(file@) == "build.rs"@),
{
    let name = file_name(file);
    crate::text::str_eq(name.as_str(), "lib.rs") || crate::text::str_eq(name.as_str(), "main.rs")
        || crate::text::str_eq(name.as_str(), "build.rs")
}

/// Where a file's child modules are looked for.
pub fn module_directory(file: &str, is_crate_root: bool) -> (r: String)
    ensures
        r@ == module_directory_of(file@, is_crate_root),
{
    let up = parent(file);
    let name = file_name(file);
    if name.as_str().unicode_len() == 0 {
        return up;
    }
    let own = stem(name.as_str());
    if is_crate_root || crate::text::str_eq(own.as_str(), "mod") {
        return up;
    }
    join(up.as_str(), own.as_str())
}

/// Where a `#[path = "…"]` on a module declaration is resolved from: the declaring
/// file's own directory at the top level of a file; inside inline `mod { … }` blocks,
/// that directory plus — for a file that does not own its directory — the file's own
/// name, plus one directory per enclosing block.
pub open spec fn path_attribute_directory_of(path: Seq<char>, is_crate_root: bool, inline_path: Seq<Seq<char>>) -> Seq<char> {
    if inline_path.len() == 0 {
        parent_of(path)
    } else {
        joined_all(
            if owns_directory(path, is_crate_root) || file_name_of(path).len() == 0 {
                parent_of(path)
            } else {
                joined_path(parent_of(path), stem_of(file_name_of(path)))
            },
            inline_path,
        )
    }
}

/// `dir` joined with each of `parts` in turn.
fn join_all(dir: String, parts: &Vec<String>) -> (r: String)
    ensures
        r@ == joined_all(dir@, crate::query::texts(parts@)),
{
    let mut d = dir;
    let mut i: usize = 0;
    let ghost ps = crate::query::texts(parts@);
    assert(ps.skip(0) =~= ps);
    while i < parts.len()
        invariant
            i <= parts@.len(),
            ps == crate::query::texts(parts@),
            joined_all(d@, ps.skip(i as int)) == joined_all(dir@, ps),
        decreases parts.len() - i,
    {
        proof {
            assert(ps.skip(i as int)[0] == parts@[i as int]@);
            assert(ps.skip(i as int).drop_first() =~= ps.skip(i + 1));
        }
        d = join(d.as_str(), parts[i].as_str());
        i = i + 1;
    }
    assert(ps.skip(parts@.len() as int) =~= Seq::<Seq<char>>::empty());
    d
}

/// `text` without the `"` characters at either end.
pub open spec fn unquoted(text: Seq<char>) -> Seq<char>
    decreases text.len(),
{
    if text.len() > 0 && text[0] == '"' {
        unquoted(text.drop_first())
    } else if text.len() > 0 && text.last() == '"' {
        unquoted(text.drop_last())
    } else {
        text
    }
}

/// `text` without the `"` characters at either end.
fn trim_quotes(text: &str) -> (r: String)
    ensures
        r@ == unquoted(text@),
{
    let s = chars_of(text);
    let mut from: usize = 0;
    let mut to: usize = s.len();
    assert(s@.subrange(0, s@.len() as int) =~= s@);
    while from < to && s[from] == '"'
        invariant
            from <= to <= s@.len(),
            to == s@.len(),
            unquoted(s@) == unquoted(s@.subrange(from as int, to as int)),
        decreases to - from,
    {
        assert(s@.subrange(from as int, to as int).drop_first() =~= s@.subrange(from + 1, to as int));
        from = from + 1;
    }
    while from < to && s[to - 1] == '"'
        invariant
            from <= to <= s@.len(),
            unquoted(s@) == unquoted(s@.subrange(from as int, to as int)),
            from == to || s@[from as int] != '"',
        decreases to - from,
    {
        let ghost t = s@.subrange(from as int, to as int);
        assert(t.drop_last() =~= s@.subrange(from as int, to - 1));
        assert(t[0] == s@[from as int]);
        to = to - 1;
    }
    proof {
        let ghost t = s@.subrange(from as int, to as int);
        if t.len() > 0 {
            assert(t[0] == s@[from as int]);
            assert(t.last() == s@[to - 1]);
        }
    }
    text_of(&s, from, to)
}

/// The files a `mod <name>;` declared in `file`, nested under `inline_path` inline
/// modules, may live in, in the order they are tried: the `#[path]` target alone when
/// one is written, else `<dir>/<name>.rs` then `<dir>/<name>/mod.rs`.
pub open spec fn candidates_of(
    path: Seq<char>,
    is_crate_root: bool,
    inline_path: Seq<Seq<char>>,
    name: Seq<char>,
    path_attribute: Option<Seq<char>>,
) -> Seq<Seq<char>> {
    match path_attribute {
        Some(relative) => seq![joined_path(path_attribute_directory_of(path, is_crate_root, inline_path), unquoted(relative))],
        None => {
            let dir = joined_all(module_directory_of(path, is_crate_root), inline_path);
            seq![joined_path(dir, name + ".rs"@), joined_path(joined_path(dir, name), "mod.rs"@)]
        },
    }
}

/// The files a module declaration's body may live in, in the order they are tried.
pub fn module_candidates(
    file: &str,
    is_crate_root: bool,
    inline_path: &Vec<String>,
    name: &str,
    path_attribute: Option<&str>,
) -> (r: Vec<String>)
    ensures
        crate::query::texts(r@) == candidates_of(
            file@,
            is_crate_root,
            crate::query::texts(inline_path@),
            name@,
            match path_attribute {
                Some(a) => Some(a@),
                None => None,
            },
        ),
{
    let mut out: Vec<String> = Vec::new();
    match path_attribute {
        Some(relative) => {
            let up = parent(file);
            let anchor = if inline_path.len() == 0 {
                up
            } else {
                let fname = file_name(file);
                let own = stem(fname.as_str());
                let base = if is_crate_root || fname.as_str().unicode_len() == 0 || crate::text::str_eq(own.as_str(), "mod") {
                    up
                } else {
                    join(up.as_str(), own.as_str())
                };
                join_all(base, inline_path)
            };
            let target = trim_quotes(relative);
            out.push(join(anchor.as_str(), target.as_str()));
            assert(crate::query::texts(out@) =~= candidates_of(file@, is_crate_root, crate::query::texts(inline_path@), name@, Some(relative@)));
        },
        None => {
            let dir = join_all(module_directory(file, is_crate_root), inline_path);
            let mut flat = name.to_string();
            push_str(&mut flat, ".rs");
            out.push(join(dir.as_str(), flat.as_str()));
            let nested = join(dir.as_str(), name);
            out.push(join(nested.as_str(), "mod.rs"));
            assert(crate::query::texts(out@) =~= candidates_of(file@, is_crate_root, crate::query::texts(inline_path@), name@, None));
        },
    }
    out
}

/// Where a module declaration's body was found.
#[derive(Clone, Debug, PartialEq, Eq)]
pub enum ModuleSource {
    /// The body is written inline, so there is no file to visit.
    Inline,
    /// The body lives in this file.
    File(String),
    /// No file could be found for the declaration: a normal outcome, not an error; the
    /// module stays in the tree, marked so its contents read as unavailable.
    Missing {
        /// The paths that were tried, for the explanatory message.
        candidates: Vec<String>,
    },
}

/// Settle a declaration from its candidates and which of them is a file: the first
/// that is, else every candidate tried.
pub fn settle(candidates: Vec<String>, is_file: &Vec<bool>) -> (r: ModuleSource)
    requires
        is_file@.len() == candidates@.len(),
    ensures
        match r {
            ModuleSource::File(f) => exists|k: int| 0 <= k < candidates@.len() && is_file@[k] && f@ == candidates@[k]@
                && forall|j: int| 0 <= j < k ==> !is_file@[j],
            ModuleSource::Missing { candidates: tried } => crate::query::texts(tried@) == crate::query::texts(candidates@)
                && forall|j: int| 0 <= j < is_file@.len() ==> !is_file@[j],
            ModuleSource::Inline => false,
        },
{
    let mut i: usize = 0;
    while i < candidates.len()
        invariant
            i <= candidates@.len(),
            is_file@.len() == candidates@.len(),
            forall|j: int| 0 <= j < i ==> !is_file@[j],
        decreases candidates.len() - i,
    {
        if is_file[i] {
            return ModuleSource::File(candidates[i].clone());
        }
        i = i + 1;
    }
    ModuleSource::Missing { candidates }
}

} // verus!
