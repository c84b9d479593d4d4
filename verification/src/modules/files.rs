//! Walking a source tree whose modules are its files and directories.
//!
//! Rust declares its module tree, so its walk follows declarations. Python, TypeScript,
//! Swift and Kotlin declare nothing of the kind: their files *are* modules and their
//! directories *are* namespaces, so the walk goes the other way and the directory tree
//! is the source of truth.
//!
//! Python has its own walk because `__init__.py` carries a rule nothing else shares.
//! Everywhere else a directory holding source is a namespace and one holding none is
//! not. One convention is honoured where a language has it: a file named `index` (or
//! whatever the caller names) *is* its directory's module rather than a module beside
//! it. A language without the convention passes none and every file is its own module.

use vstd::prelude::*;
use crate::discover::scan::is_skipped;
use crate::discover::scan::skipped;
use crate::modules::listing::DirListing;
use crate::modules::listing::names_of;
use crate::modules::listing::strs_of;
use crate::modules::find_last;
use crate::modules::join;
use crate::modules::joined_path;
use crate::modules::last_of;
use crate::modules::stem;
use crate::modules::stem_of;
use crate::text::chars_of;
use crate::text::push_str;

verus! {

/// How deep a source tree may nest before the walk gives up: far beyond any real
/// namespace, a guard against a symlink cycle rather than a policy.
pub const MAX_DEPTH: usize = 16;

/// One module found in the tree.
#[derive(Debug, Clone, PartialEq, Eq)]
pub struct FileModule {
    /// The file it points at: its own text, or — for a directory with no index file —
    /// the first file beneath it, so the row has somewhere to open.
    pub file: String,
    /// Its namespace path below the root, outermost first. Empty for the root's own
    /// index file, whose contents belong to the package node itself.
    pub segments: Vec<String>,
    /// Whether `file`'s contents *are* this module's contents: false for a directory
    /// standing in for a namespace, whose file has a module of its own.
    pub extract: bool,
}

/// A module as plain values: its file, its segments and whether it is extracted.
pub open spec fn module_view(m: FileModule) -> (Seq<char>, Seq<Seq<char>>, bool) {
    (m.file@, names_of(m.segments@), m.extract)
}

/// Each module as plain values.
pub open spec fn modules_view(v: Seq<FileModule>) -> Seq<(Seq<char>, Seq<Seq<char>>, bool)> {
    v.map_values(|m: FileModule| module_view(m))
}

/// A file name's extension: what follows its last `.`, unless that dot opens the name.
pub open spec fn extension_of(name: Seq<char>) -> Option<Seq<char>> {
    let d = last_of(name, '.');
    if d <= 0 {
        None
    } else {
        Some(name.skip(d + 1))
    }
}

/// A character with ASCII upper case folded to lower case.
pub open spec fn fold_ascii(c: char) -> u32 {
    if 65 <= (c as u32) <= 90 {
        (c as u32 + 32) as u32
    } else {
        c as u32
    }
}

/// Whether two strings are equal once ASCII case is ignored.
pub open spec fn same_ignoring_case(a: Seq<char>, b: Seq<char>) -> bool {
    &&& a.len() == b.len()
    &&& forall|i: int| 0 <= i < a.len() ==> fold_ascii(#[trigger] a[i]) == fold_ascii(b[i])
}

/// Whether a file name carries one of the extensions, compared without regard to
/// ASCII case.
pub open spec fn is_source(name: Seq<char>, exts: Seq<Seq<char>>) -> bool {
    match extension_of(name) {
        Some(e) => exists|k: int| 0 <= k < exts.len() && same_ignoring_case(e, #[trigger] exts[k]),
        None => false,
    }
}

/// `name` with the extension `ext`.
pub open spec fn with_extension(name: Seq<char>, ext: Seq<char>) -> Seq<char> {
    name + "."@ + ext
}

/// The first of `name.ext`, over `exts` in order, that is among `files`.
pub open spec fn index_with(files: Seq<Seq<char>>, name: Seq<char>, exts: Seq<Seq<char>>) -> Option<Seq<char>>
    decreases exts.len(),
{
    if exts.len() == 0 {
        None
    } else if files.contains(with_extension(name, exts[0])) {
        Some(with_extension(name, exts[0]))
    } else {
        index_with(files, name, exts.drop_first())
    }
}

/// The file that *is* a directory's module: for the first index name that has one,
/// its first extension present among `files`.
pub open spec fn index_in(files: Seq<Seq<char>>, names: Seq<Seq<char>>, exts: Seq<Seq<char>>) -> Option<Seq<char>>
    decreases names.len(),
{
    if names.len() == 0 {
        None
    } else {
        match index_with(files, names[0], exts) {
            Some(f) => Some(f),
            None => index_in(files, names.drop_first(), exts),
        }
    }
}

/// The first source file among `files`.
pub open spec fn first_source_file(files: Seq<Seq<char>>, exts: Seq<Seq<char>>) -> Option<Seq<char>>
    decreases files.len(),
{
    if files.len() == 0 {
        None
    } else if is_source(files[0], exts) {
        Some(files[0])
    } else {
        first_source_file(files.drop_first(), exts)
    }
}

/// The first source file at or beneath the directory `l` at `path`, `depth` levels
/// below the root: its own first source file, else the first found beneath its
/// subdirectories in order, skipped ones aside.
pub open spec fn first_source_of(l: DirListing, path: Seq<char>, exts: Seq<Seq<char>>, depth: int) -> Option<Seq<char>>
    decreases l, 1int, 0int,
{
    if depth >= MAX_DEPTH {
        None
    } else {
        match first_source_file(names_of(l.files@), exts) {
            Some(f) => Some(joined_path(path, f)),
            None => first_source_below(l, path, exts, depth, 0),
        }
    }
}

/// The first source file beneath `l`'s subdirectories from the `i`-th on.
pub open spec fn first_source_below(l: DirListing, path: Seq<char>, exts: Seq<Seq<char>>, depth: int, i: int) -> Option<Seq<char>>
    decreases l, 0int, l.dirs@.len() - i,
{
    if i < 0 || i >= l.dirs@.len() {
        None
    } else {
        let c = l.dirs@[i];
        let here = if is_skipped(c.name@, names_of(c.files@)) {
            None
        } else {
            proof {
                assert(decreases_to!(l => l.dirs@[i]));
            }
            first_source_of(c, joined_path(path, c.name@), exts, depth + 1)
        };
        match here {
            Some(f) => Some(f),
            None => first_source_below(l, path, exts, depth, i + 1),
        }
    }
}

/// The modules of a directory's own source files, its index file aside.
pub open spec fn own_modules(
    files: Seq<Seq<char>>,
    index: Option<Seq<char>>,
    path: Seq<char>,
    segs: Seq<Seq<char>>,
    exts: Seq<Seq<char>>,
) -> Seq<(Seq<char>, Seq<Seq<char>>, bool)>
    decreases files.len(),
{
    if files.len() == 0 {
        Seq::empty()
    } else {
        let f = files.last();
        let rest = own_modules(files.drop_last(), index, path, segs, exts);
        if is_source(f, exts) && index != Some(f) {
            rest.push((joined_path(path, f), segs.push(stem_of(f)), true))
        } else {
            rest
        }
    }
}

/// The modules inside the directory `l` at `path`, whose namespace path is `segs`:
/// its own source files, then each subdirectory that holds source anywhere beneath it,
/// followed at once by that subdirectory's own modules.
pub open spec fn descend_view(
    l: DirListing,
    path: Seq<char>,
    segs: Seq<Seq<char>>,
    depth: int,
    exts: Seq<Seq<char>>,
    names: Seq<Seq<char>>,
) -> Seq<(Seq<char>, Seq<Seq<char>>, bool)>
    decreases l, 1int, 0int,
{
    if depth >= MAX_DEPTH {
        Seq::empty()
    } else {
        own_modules(names_of(l.files@), index_in(names_of(l.files@), names, exts), path, segs, exts)
            + children_view(l, path, segs, depth, exts, names, 0)
    }
}

/// The modules for `l`'s subdirectories from the `i`-th on: for each that is not
/// skipped and holds source, the namespace itself — its index file, or else its first
/// source file marked as not extracted — and then everything inside it.
pub open spec fn children_view(
    l: DirListing,
    path: Seq<char>,
    segs: Seq<Seq<char>>,
    depth: int,
    exts: Seq<Seq<char>>,
    names: Seq<Seq<char>>,
    i: int,
) -> Seq<(Seq<char>, Seq<Seq<char>>, bool)>
    decreases l, 0int, l.dirs@.len() - i,
{
    if i < 0 || i >= l.dirs@.len() {
        Seq::empty()
    } else {
        let c = l.dirs@[i];
        let rest = children_view(l, path, segs, depth, exts, names, i + 1);
        let cp = joined_path(path, c.name@);
        if is_skipped(c.name@, names_of(c.files@)) {
            rest
        } else {
            match first_source_of(c, cp, exts, depth) {
                None => rest,
                Some(anchor) => {
                    let p = segs.push(c.name@);
                    let entry = match index_in(names_of(c.files@), names, exts) {
                        Some(ix) => (joined_path(cp, ix), p, true),
                        None => (anchor, p, false),
                    };
                    proof {
                        assert(decreases_to!(l => l.dirs@[i]));
                    }
                    seq![entry] + descend_view(c, cp, p, depth + 1, exts, names) + rest
                },
            }
        }
    }
}

/// Every module of the tree `l` rooted at `path`: the root's own index file, with no
/// segments, then everything inside it.
pub open spec fn walk_view(
    l: DirListing,
    path: Seq<char>,
    exts: Seq<Seq<char>>,
    names: Seq<Seq<char>>,
) -> Seq<(Seq<char>, Seq<Seq<char>>, bool)> {
    let top = match index_in(names_of(l.files@), names, exts) {
        Some(ix) => seq![(joined_path(path, ix), Seq::<Seq<char>>::empty(), true)],
        None => Seq::empty(),
    };
    top + descend_view(l, path, Seq::empty(), 0, exts, names)
}

/// The text of an optional string.
pub open spec fn opt_view(o: Option<String>) -> Option<Seq<char>> {
    match o {
        Some(s) => Some(s@),
        None => None,
    }
}

/// `c` with ASCII upper case folded to lower case, as a code point.
fn fold(c: char) -> (r: u32)
    ensures
        r == fold_ascii(c),
{
    let n = c as u32;
    if 65 <= n && n <= 90 {
        n + 32
    } else {
        n
    }
}

/// Whether `a` and `b` are equal once ASCII case is ignored.
fn same_text_ignoring_case(a: &Vec<char>, b: &Vec<char>) -> (r: bool)
    ensures
        r == same_ignoring_case(a@, b@),
{
    if a.len() != b.len() {
        return false;
    }
    let mut i: usize = 0;
    while i < a.len()
        invariant
            a@.len() == b@.len(),
            i <= a@.len(),
            forall|j: int| 0 <= j < i ==> fold_ascii(#[trigger] a@[j]) == fold_ascii(b@[j]),
        decreases a.len() - i,
    {
        if fold(a[i]) != fold(b[i]) {
            return false;
        }
        i = i + 1;
    }
    true
}

/// The extension of a file name.
pub(crate) fn extension(name: &Vec<char>) -> (r: Option<Vec<char>>)
    ensures
        match r {
            Some(e) => extension_of(name@) == Some(e@),
            None => extension_of(name@) is None,
        },
{
    match find_last(name, '.') {
        Some(d) => {
            if d == 0 {
                return None;
            }
            let n = name.len();
            assert(d < n);
            let e = crate::id::slice_range(name, d + 1, n);
            assert(e@ =~= name@.skip(d + 1));
            Some(e)
        },
        None => None,
    }
}

/// Whether a file name carries one of `exts`, without regard to ASCII case.
pub fn is_source_name(name: &str, exts: &[&str]) -> (r: bool)
    ensures
        r == is_source(name@, strs_of(exts@)),
{
    let n = chars_of(name);
    match extension(&n) {
        None => false,
        Some(e) => {
            let ghost es = strs_of(exts@);
            let mut k: usize = 0;
            while k < exts.len()
                invariant
                    k <= exts@.len(),
                    es == strs_of(exts@),
                    extension_of(name@) == Some(e@),
                    forall|j: int| 0 <= j < k ==> !same_ignoring_case(e@, #[trigger] es[j]),
                decreases exts.len() - k,
            {
                let x = chars_of(exts[k]);
                if same_text_ignoring_case(&e, &x) {
                    assert(es[k as int] == x@);
                    return true;
                }
                k = k + 1;
            }
            false
        },
    }
}

/// The file that *is* `dir`'s module, by the caller's naming convention.
fn index_file(dir: &DirListing, exts: &[&str], names: &[&str]) -> (r: Option<String>)
    ensures
        opt_view(r) == index_in(names_of(dir.files@), strs_of(names@), strs_of(exts@)),
{
    let ghost fs = names_of(dir.files@);
    let ghost ns = strs_of(names@);
    let ghost es = strs_of(exts@);
    let mut i: usize = 0;
    assert(ns.skip(0) =~= ns);
    while i < names.len()
        invariant
            i <= names@.len(),
            fs == names_of(dir.files@),
            ns == strs_of(names@),
            es == strs_of(exts@),
            index_in(fs, ns, es) == index_in(fs, ns.skip(i as int), es),
        decreases names.len() - i,
    {
        assert(ns.skip(i as int)[0] == ns[i as int]);
        assert(ns.skip(i as int).drop_first() =~= ns.skip(i + 1));
        let mut j: usize = 0;
        assert(es.skip(0) =~= es);
        while j < exts.len()
            invariant
                i < names@.len(),
                j <= exts@.len(),
                fs == names_of(dir.files@),
                ns == strs_of(names@),
                es == strs_of(exts@),
                index_in(fs, ns, es) == index_in(fs, ns.skip(i as int), es),
                index_with(fs, ns[i as int], es) == index_with(fs, ns[i as int], es.skip(j as int)),
            decreases exts.len() - j,
        {
            assert(es.skip(j as int)[0] == es[j as int]);
            assert(es.skip(j as int).drop_first() =~= es.skip(j + 1));
            let mut candidate = names[i].to_string();
            proof {
                reveal_strlit(".");
            }
            push_str(&mut candidate, ".");
            push_str(&mut candidate, exts[j]);
            assert(candidate@ == with_extension(ns[i as int], es[j as int]));
            if dir.has_file(candidate.as_str()) {
                assert(index_with(fs, ns[i as int], es.skip(j as int)) == Some(candidate@));
                assert(index_in(fs, ns.skip(i as int), es) == Some(candidate@));
                return Some(candidate);
            }
            j = j + 1;
        }
        assert(es.skip(j as int).len() == 0);
        i = i + 1;
    }
    assert(ns.skip(i as int).len() == 0);
    None
}

/// The first source file at or beneath `dir`, which sits at `path`, `depth` levels
/// below the root.
fn first_source(dir: &DirListing, path: &str, exts: &[&str], depth: usize) -> (r: Option<String>)
    ensures
        opt_view(r) == first_source_of(*dir, path@, strs_of(exts@), depth as int),
    decreases dir,
{
    if depth >= MAX_DEPTH {
        return None;
    }
    let ghost fs = names_of(dir.files@);
    let ghost es = strs_of(exts@);
    let mut i: usize = 0;
    assert(fs.skip(0) =~= fs);
    while i < dir.files.len()
        invariant
            i <= dir.files@.len(),
            depth < MAX_DEPTH,
            fs == names_of(dir.files@),
            es == strs_of(exts@),
            first_source_file(fs, es) == first_source_file(fs.skip(i as int), es),
        decreases dir.files.len() - i,
    {
        assert(fs.skip(i as int)[0] == fs[i as int]);
        assert(fs.skip(i as int).drop_first() =~= fs.skip(i + 1));
        if is_source_name(dir.files[i].as_str(), exts) {
            assert(fs[i as int] == dir.files@[i as int]@);
            assert(first_source_file(fs.skip(i as int), es) == Some(fs[i as int]));
            let r = join(path, dir.files[i].as_str());
            assert(first_source_of(*dir, path@, es, depth as int) == Some(joined_path(path@, fs[i as int])));
            return Some(r);
        }
        i = i + 1;
    }
    assert(fs.skip(i as int).len() == 0);
    let mut k: usize = 0;
    while k < dir.dirs.len()
        invariant
            k <= dir.dirs@.len(),
            depth < MAX_DEPTH,
            first_source_file(names_of(dir.files@), strs_of(exts@)) is None,
            first_source_of(*dir, path@, strs_of(exts@), depth as int)
                == first_source_below(*dir, path@, strs_of(exts@), depth as int, k as int),
        decreases dir.dirs.len() - k,
    {
        let c = &dir.dirs[k];
        if !skipped(c) {
            let cp = join(path, c.name.as_str());
            assert(decreases_to!(*dir => dir.dirs@[k as int]));
            match first_source(c, cp.as_str(), exts, depth + 1) {
                Some(f) => {
                    return Some(f);
                },
                None => {},
            }
        }
        k = k + 1;
    }
    None
}

/// `segs` with `name` appended.
pub(crate) fn extended(segs: &Vec<String>, name: &str) -> (r: Vec<String>)
    ensures
        names_of(r@) == names_of(segs@).push(name@),
{
    let mut r: Vec<String> = Vec::new();
    let mut i: usize = 0;
    while i < segs.len()
        invariant
            i <= segs@.len(),
            names_of(r@) =~= names_of(segs@).take(i as int),
        decreases segs.len() - i,
    {
        let s = segs[i].clone();
        assert(s == segs@[i as int]);
        let ghost old_r = r@;
        r.push(s);
        assert(r@ =~= old_r.push(s));
        assert(names_of(r@) =~= names_of(old_r).push(s@));
        assert(names_of(r@) =~= names_of(segs@).take(i + 1));
        i = i + 1;
    }
    assert(names_of(segs@).take(i as int) =~= names_of(segs@));
    r.push(name.to_string());
    assert(names_of(r@) =~= names_of(segs@).push(name@));
    r
}

/// Append the modules inside `dir`, which sits at `path` with namespace path `segs`.
fn descend(
    dir: &DirListing,
    path: &str,
    segs: &Vec<String>,
    depth: usize,
    exts: &[&str],
    names: &[&str],
    out: &mut Vec<FileModule>,
)
    ensures
        modules_view(final(out)@) == modules_view(old(out)@)
            + descend_view(*dir, path@, names_of(segs@), depth as int, strs_of(exts@), strs_of(names@)),
    decreases dir,
{
    let ghost start = modules_view(out@);
    if depth >= MAX_DEPTH {
        assert(start + Seq::<(Seq<char>, Seq<Seq<char>>, bool)>::empty() =~= start);
        return;
    }
    let ghost fs = names_of(dir.files@);
    let ghost es = strs_of(exts@);
    let ghost ss = names_of(segs@);
    let index = index_file(dir, exts, names);
    let mut i: usize = 0;
    assert(fs.take(0) =~= Seq::<Seq<char>>::empty());
    assert(start + Seq::<(Seq<char>, Seq<Seq<char>>, bool)>::empty() =~= start);
    while i < dir.files.len()
        invariant
            i <= dir.files@.len(),
            fs == names_of(dir.files@),
            es == strs_of(exts@),
            ss == names_of(segs@),
            opt_view(index) == index_in(fs, strs_of(names@), es),
            modules_view(out@) == start + own_modules(fs.take(i as int), opt_view(index), path@, ss, es),
        decreases dir.files.len() - i,
    {
        let f = &dir.files[i];
        let ghost before = modules_view(out@);
        proof {
            assert(fs.take(i + 1).drop_last() =~= fs.take(i as int));
            assert(fs.take(i + 1).last() == f@);
        }
        let is_index = match &index {
            Some(ix) => crate::text::str_eq(ix.as_str(), f.as_str()),
            None => false,
        };
        if is_source_name(f.as_str(), exts) && !is_index {
            let m = FileModule { file: join(path, f.as_str()), segments: extended(segs, stem(f.as_str()).as_str()), extract: true };
            out.push(m);
            assert(modules_view(out@) =~= before.push(module_view(m)));
            assert(start + own_modules(fs.take(i + 1), opt_view(index), path@, ss, es)
                =~= (start + own_modules(fs.take(i as int), opt_view(index), path@, ss, es)).push(module_view(m)));
        }
        i = i + 1;
    }
    assert(fs.take(i as int) =~= fs);
    let ghost own = modules_view(out@);
    let mut k: usize = 0;
    assert(own + children_view(*dir, path@, ss, depth as int, es, strs_of(names@), 0)
        == start + descend_view(*dir, path@, ss, depth as int, es, strs_of(names@)));
    while k < dir.dirs.len()
        invariant
            k <= dir.dirs@.len(),
            depth < MAX_DEPTH,
            es == strs_of(exts@),
            ss == names_of(segs@),
            modules_view(out@) + children_view(*dir, path@, ss, depth as int, es, strs_of(names@), k as int)
                == start + descend_view(*dir, path@, ss, depth as int, es, strs_of(names@)),
        decreases dir.dirs.len() - k,
    {
        let c = &dir.dirs[k];
        let ghost cur = modules_view(out@);
        let ghost rest = children_view(*dir, path@, ss, depth as int, es, strs_of(names@), k + 1);
        if !skipped(c) {
            let cp = join(path, c.name.as_str());
            match first_source(c, cp.as_str(), exts, depth) {
                None => {},
                Some(anchor) => {
                    let p = extended(segs, c.name.as_str());
                    let entry = match index_file(c, exts, names) {
                        Some(ix) => FileModule { file: join(cp.as_str(), ix.as_str()), segments: extended(segs, c.name.as_str()), extract: true },
                        None => FileModule { file: anchor, segments: extended(segs, c.name.as_str()), extract: false },
                    };
                    out.push(entry);
                    assert(modules_view(out@) =~= cur.push(module_view(entry)));
                    let ghost mid = modules_view(out@);
                    assert(decreases_to!(*dir => dir.dirs@[k as int]));
                    descend(c, cp.as_str(), &p, depth + 1, exts, names, out);
                    let ghost d = descend_view(*c, cp@, names_of(p@), depth + 1, es, strs_of(names@));
                    assert(cur + (seq![module_view(entry)] + d + rest) =~= (mid + d) + rest);
                },
            }
        }
        k = k + 1;
    }
    assert(children_view(*dir, path@, ss, depth as int, es, strs_of(names@), k as int) =~= Seq::<(Seq<char>, Seq<Seq<char>>, bool)>::empty());
    assert(modules_view(out@) + Seq::<(Seq<char>, Seq<Seq<char>>, bool)>::empty() =~= modules_view(out@));
}

/// Every module under `directory`, whose tree is `listing`, parents strictly before
/// children: the caller creates a node per module and each one needs its parent to
/// exist already.
pub fn walk(directory: &str, listing: &DirListing, extensions: &[&str], index_names: &[&str]) -> (r: Vec<FileModule>)
    ensures
        modules_view(r@) == walk_view(*listing, directory@, strs_of(extensions@), strs_of(index_names@)),
{
    let mut out: Vec<FileModule> = Vec::new();
    match index_file(listing, extensions, index_names) {
        Some(ix) => {
            let m = FileModule { file: join(directory, ix.as_str()), segments: Vec::new(), extract: true };
            out.push(m);
            assert(names_of(m.segments@) =~= Seq::<Seq<char>>::empty());
        },
        None => {},
    }
    let ghost top = modules_view(out@);
    let none: Vec<String> = Vec::new();
    assert(names_of(none@) =~= Seq::<Seq<char>>::empty());
    descend(listing, directory, &none, 0, extensions, index_names, &mut out);
    proof {
        let t = match index_in(names_of(listing.files@), strs_of(index_names@), strs_of(extensions@)) {
            Some(ix) => seq![(joined_path(directory@, ix), Seq::<Seq<char>>::empty(), true)],
            None => Seq::empty(),
        };
        assert(top =~= t);
    }
    out
}

// --- parents before children ------------------------------------------------------------

/// Whether every module of `s` lies strictly below the namespace `segs`.
pub open spec fn all_below(s: Seq<(Seq<char>, Seq<Seq<char>>, bool)>, segs: Seq<Seq<char>>) -> bool {
    forall|j: int| 0 <= j < s.len() ==> (#[trigger] s[j]).1.len() > segs.len() && s[j].1.take(segs.len() as int) == segs
}

/// Whether every module of `s` more than one level below `segs` has its parent — the
/// module whose path is its own less the last segment — somewhere before it in `s`.
pub open spec fn parents_first_below(s: Seq<(Seq<char>, Seq<Seq<char>>, bool)>, segs: Seq<Seq<char>>) -> bool {
    forall|j: int| 0 <= j < s.len() && (#[trigger] s[j]).1.len() > segs.len() + 1
        ==> exists|i: int| 0 <= i < j && s[i].1 == s[j].1.drop_last()
}

proof fn lemma_own_below(
    files: Seq<Seq<char>>,
    index: Option<Seq<char>>,
    path: Seq<char>,
    segs: Seq<Seq<char>>,
    exts: Seq<Seq<char>>,
)
    ensures
        all_below(own_modules(files, index, path, segs, exts), segs),
        forall|j: int| 0 <= j < own_modules(files, index, path, segs, exts).len()
            ==> (#[trigger] own_modules(files, index, path, segs, exts)[j]).1.len() == segs.len() + 1,
    decreases files.len(),
{
    if files.len() > 0 {
        lemma_own_below(files.drop_last(), index, path, segs, exts);
        let f = files.last();
        assert(segs.push(stem_of(f)).take(segs.len() as int) =~= segs);
    }
}

proof fn lemma_descend_below(
    l: DirListing,
    path: Seq<char>,
    segs: Seq<Seq<char>>,
    depth: int,
    exts: Seq<Seq<char>>,
    names: Seq<Seq<char>>,
)
    ensures
        all_below(descend_view(l, path, segs, depth, exts, names), segs),
        parents_first_below(descend_view(l, path, segs, depth, exts, names), segs),
    decreases l, 1int, 0int,
{
    if depth < MAX_DEPTH {
        let own = own_modules(names_of(l.files@), index_in(names_of(l.files@), names, exts), path, segs, exts);
        let ch = children_view(l, path, segs, depth, exts, names, 0);
        lemma_own_below(names_of(l.files@), index_in(names_of(l.files@), names, exts), path, segs, exts);
        lemma_children_below(l, path, segs, depth, exts, names, 0);
        let s = own + ch;
        assert forall|j: int| 0 <= j < s.len() && (#[trigger] s[j]).1.len() > segs.len() + 1
            implies exists|i: int| 0 <= i < j && s[i].1 == s[j].1.drop_last() by {
            let jj = j - own.len();
            assert(s[j] == ch[jj]);
            let i0 = choose|i: int| 0 <= i < jj && ch[i].1 == ch[jj].1.drop_last();
            assert(s[own.len() + i0] == ch[i0]);
        }
    }
}

proof fn lemma_children_below(
    l: DirListing,
    path: Seq<char>,
    segs: Seq<Seq<char>>,
    depth: int,
    exts: Seq<Seq<char>>,
    names: Seq<Seq<char>>,
    i: int,
)
    ensures
        all_below(children_view(l, path, segs, depth, exts, names, i), segs),
        parents_first_below(children_view(l, path, segs, depth, exts, names, i), segs),
    decreases l, 0int, l.dirs@.len() - i,
{
    if 0 <= i < l.dirs@.len() {
        let c = l.dirs@[i];
        let rest = children_view(l, path, segs, depth, exts, names, i + 1);
        lemma_children_below(l, path, segs, depth, exts, names, i + 1);
        let cp = joined_path(path, c.name@);
        if !is_skipped(c.name@, names_of(c.files@)) {
            match first_source_of(c, cp, exts, depth) {
                None => {},
                Some(anchor) => {
                    let p = segs.push(c.name@);
                    let entry = match index_in(names_of(c.files@), names, exts) {
                        Some(ix) => (joined_path(cp, ix), p, true),
                        None => (anchor, p, false),
                    };
                    assert(decreases_to!(l => l.dirs@[i]));
                    let d = descend_view(c, cp, p, depth + 1, exts, names);
                    lemma_descend_below(c, cp, p, depth + 1, exts, names);
                    let s = seq![entry] + d + rest;
                    assert(s == children_view(l, path, segs, depth, exts, names, i));
                    assert(p.take(segs.len() as int) =~= segs);
                    assert(p.drop_last() =~= segs);
                    assert forall|j: int| 0 <= j < s.len()
                        implies (#[trigger] s[j]).1.len() > segs.len() && s[j].1.take(segs.len() as int) == segs by {
                        if 1 <= j < 1 + d.len() {
                            let x = d[j - 1].1;
                            assert(s[j] == d[j - 1]);
                            assert(x.take(p.len() as int) == p);
                            assert(x.take(segs.len() as int) =~= x.take(p.len() as int).take(segs.len() as int));
                        } else if j >= 1 + d.len() {
                            assert(s[j] == rest[j - 1 - d.len()]);
                        }
                    }
                    assert forall|j: int| 0 <= j < s.len() && (#[trigger] s[j]).1.len() > segs.len() + 1
                        implies exists|k: int| 0 <= k < j && s[k].1 == s[j].1.drop_last() by {
                        if 1 <= j < 1 + d.len() {
                            let x = d[j - 1].1;
                            assert(s[j] == d[j - 1]);
                            if x.len() > p.len() + 1 {
                                let jd = j - 1;
                                let k0 = choose|k: int| 0 <= k < jd && d[k].1 == d[jd].1.drop_last();
                                assert(s[1 + k0] == d[k0]);
                            } else {
                                assert(x.take(p.len() as int) == p);
                                assert(x.drop_last() =~= x.take(p.len() as int));
                                assert(s[0] == entry);
                            }
                        } else if j >= 1 + d.len() {
                            let jj = j - 1 - d.len();
                            assert(s[j] == rest[jj]);
                            let k0 = choose|k: int| 0 <= k < jj && rest[k].1 == rest[jj].1.drop_last();
                            assert(s[1 + d.len() + k0] == rest[k0]);
                        }
                    }
                },
            }
        }
    }
}

/// Parents strictly before children: in a walk, every module below the top level has
/// the module of its enclosing namespace somewhere before it, so a caller creating one
/// node per module always finds the parent already there.
pub proof fn lemma_walk_parents_first(
    listing: DirListing,
    path: Seq<char>,
    exts: Seq<Seq<char>>,
    names: Seq<Seq<char>>,
)
    ensures
        forall|j: int| 0 <= j < walk_view(listing, path, exts, names).len()
            && (#[trigger] walk_view(listing, path, exts, names)[j]).1.len() > 1
            ==> exists|i: int| 0 <= i < j
                && walk_view(listing, path, exts, names)[i].1 == walk_view(listing, path, exts, names)[j].1.drop_last(),
{
    let w = walk_view(listing, path, exts, names);
    let top = match index_in(names_of(listing.files@), names, exts) {
        Some(ix) => seq![(joined_path(path, ix), Seq::<Seq<char>>::empty(), true)],
        None => Seq::empty(),
    };
    let d = descend_view(listing, path, Seq::empty(), 0, exts, names);
    lemma_descend_below(listing, path, Seq::empty(), 0, exts, names);
    assert(w == top + d);
    assert forall|j: int| 0 <= j < w.len() && (#[trigger] w[j]).1.len() > 1
        implies exists|i: int| 0 <= i < j && w[i].1 == w[j].1.drop_last() by {
        if j < top.len() {
            assert(w[j] == top[j]);
        } else {
            let jj = j - top.len();
            assert(w[j] == d[jj]);
            let k0 = choose|k: int| 0 <= k < jj && d[k].1 == d[jj].1.drop_last();
            assert(w[top.len() + k0] == d[k0]);
        }
    }
}

} // verus!
