//! Walking a Python package's modules over its directory tree.
//!
//! Rust's module tree is *declared*, so its walk follows declarations. Python declares
//! nothing: its modules *are* files and its packages *are* directories, so the walk goes
//! the other way round.
//!
//! One rule carries almost all of it: **`__init__.py` is what makes a directory a
//! package**. A root that has one is a package and is descended into; a root that does
//! not holds loose modules, and the walk stops there. That single test keeps `tests/`,
//! `docs/` and a stray virtual environment out of a flat-layout project without a list
//! of names to maintain.

use vstd::prelude::*;
use crate::discover::scan::is_skipped;
use crate::discover::scan::skipped;
use crate::modules::files::extension_of;
use crate::modules::files::MAX_DEPTH;
use crate::modules::listing::DirListing;
use crate::modules::listing::names_of;
use crate::modules::join;
use crate::modules::joined_path;
use crate::modules::stem;
use crate::modules::stem_of;
use crate::text::chars_of;
use crate::modules::files::extension;
use crate::modules::files::extended;

verus! {

/// One module found in the package.
#[derive(Debug, Clone, PartialEq, Eq)]
pub struct PyModule {
    /// The file holding its text.
    pub file: String,
    /// Its import path below the package root, outermost first. Empty for the
    /// package's own `__init__.py`, which attaches its contents to the package node.
    pub segments: Vec<String>,
}

/// A module as plain values: its file and its import path.
pub open spec fn py_view(m: PyModule) -> (Seq<char>, Seq<Seq<char>>) {
    (m.file@, names_of(m.segments@))
}

/// Each module as plain values.
pub open spec fn py_views(v: Seq<PyModule>) -> Seq<(Seq<char>, Seq<Seq<char>>)> {
    v.map_values(|m: PyModule| py_view(m))
}

/// Whether a directory is a package: it holds an `__init__.py`.
pub open spec fn is_package_dir(c: DirListing) -> bool {
    names_of(c.files@).contains("__init__.py"@)
}

/// Whether a file is a module of its own: a `.py` other than `__init__.py`. A stub
/// (`.pyi`) declares the same API as the module beside it, so it is not one.
pub open spec fn is_py_module(name: Seq<char>) -> bool {
    extension_of(name) == Some("py"@) && name != "__init__.py"@
}

/// Whether `n` names one of `l`'s subdirectories that is a package and is not skipped:
/// such a package shadows a module of the same name, as it does at import time.
pub open spec fn shadows(l: DirListing, n: Seq<char>) -> bool {
    exists|k: int| 0 <= k < l.dirs@.len()
        && !is_skipped((#[trigger] l.dirs@[k]).name@, names_of(l.dirs@[k].files@))
        && is_package_dir(l.dirs@[k])
        && l.dirs@[k].name@ == n
}

/// Whether a directory holds an importable module directly: a `.py` file, or a
/// subdirectory that is a package.
pub open spec fn holds_modules(c: DirListing) -> bool {
    ||| exists|k: int| 0 <= k < c.files@.len() && extension_of((#[trigger] c.files@[k])@) == Some("py"@)
    ||| exists|k: int| 0 <= k < c.dirs@.len() && is_package_dir(#[trigger] c.dirs@[k])
}

/// The modules among `files` of the directory `l` at `path`, under `segs`, in order;
/// when `shadowing`, those a same-named package in `l` shadows are left out.
pub open spec fn py_modules_in(
    files: Seq<Seq<char>>,
    l: DirListing,
    path: Seq<char>,
    segs: Seq<Seq<char>>,
    shadowing: bool,
) -> Seq<(Seq<char>, Seq<Seq<char>>)>
    decreases files.len(),
{
    if files.len() == 0 {
        Seq::empty()
    } else {
        let f = files.last();
        let rest = py_modules_in(files.drop_last(), l, path, segs, shadowing);
        if is_py_module(f) && !(shadowing && shadows(l, stem_of(f))) {
            rest.push((joined_path(path, f), segs.push(stem_of(f))))
        } else {
            rest
        }
    }
}

/// The modules inside the package `l` at `path`, whose import path is `segs`: its own
/// modules, then each subdirectory that is a package or holds modules.
pub open spec fn py_descend_view(
    l: DirListing,
    path: Seq<char>,
    segs: Seq<Seq<char>>,
    depth: int,
) -> Seq<(Seq<char>, Seq<Seq<char>>)>
    decreases l, 1int, 0int,
{
    if depth >= MAX_DEPTH {
        Seq::empty()
    } else {
        py_modules_in(names_of(l.files@), l, path, segs, true) + py_children(l, path, segs, depth, 0)
    }
}

/// The modules for `l`'s subdirectories from the `i`-th on. A package contributes its
/// `__init__.py` and then its contents; a namespace package (no `__init__.py`, but
/// modules inside) contributes no module of its own, only its contents.
pub open spec fn py_children(
    l: DirListing,
    path: Seq<char>,
    segs: Seq<Seq<char>>,
    depth: int,
    i: int,
) -> Seq<(Seq<char>, Seq<Seq<char>>)>
    decreases l, 0int, l.dirs@.len() - i,
{
    if i < 0 || i >= l.dirs@.len() {
        Seq::empty()
    } else {
        let c = l.dirs@[i];
        let rest = py_children(l, path, segs, depth, i + 1);
        if is_skipped(c.name@, names_of(c.files@)) || (!is_package_dir(c) && !holds_modules(c)) {
            rest
        } else {
            let p = segs.push(c.name@);
            let cp = joined_path(path, c.name@);
            let head = if is_package_dir(c) {
                seq![(joined_path(cp, "__init__.py"@), p)]
            } else {
                Seq::empty()
            };
            proof {
                assert(decreases_to!(l => l.dirs@[i]));
            }
            head + py_descend_view(c, cp, p, depth + 1) + rest
        }
    }
}

/// Every module of the package rooted at `path` with tree `l`: its own `__init__.py`
/// with no segments and then everything inside it; or, for a root with no
/// `__init__.py`, only the loose modules directly in it.
pub open spec fn py_walk_view(l: DirListing, path: Seq<char>) -> Seq<(Seq<char>, Seq<Seq<char>>)> {
    if is_package_dir(l) {
        seq![(joined_path(path, "__init__.py"@), Seq::<Seq<char>>::empty())] + py_descend_view(l, path, Seq::empty(), 0)
    } else {
        py_modules_in(names_of(l.files@), l, path, Seq::empty(), false)
    }
}

/// Whether a file name's extension is exactly `py`.
fn is_py_file(name: &str) -> (r: bool)
    ensures
        r == (extension_of(name@) == Some("py"@)),
{
    let n = chars_of(name);
    match extension(&n) {
        None => false,
        Some(e) => {
            let py = chars_of("py");
            crate::text::chars_eq(e.as_slice(), py.as_slice())
        },
    }
}

/// Whether a file is a module of its own.
fn is_module_file(name: &str) -> (r: bool)
    ensures
        r == is_py_module(name@),
{
    is_py_file(name) && !crate::text::str_eq(name, "__init__.py")
}

/// Whether `dir` is a package.
fn is_package(dir: &DirListing) -> (r: bool)
    ensures
        r == is_package_dir(*dir),
{
    dir.has_file("__init__.py")
}

/// Whether `dir` holds an importable module directly.
fn holds(dir: &DirListing) -> (r: bool)
    ensures
        r == holds_modules(*dir),
{
    let mut i: usize = 0;
    while i < dir.files.len()
        invariant
            i <= dir.files@.len(),
            forall|k: int| 0 <= k < i ==> extension_of((#[trigger] dir.files@[k])@) != Some("py"@),
        decreases dir.files.len() - i,
    {
        if is_py_file(dir.files[i].as_str()) {
            return true;
        }
        i = i + 1;
    }
    let mut k: usize = 0;
    while k < dir.dirs.len()
        invariant
            k <= dir.dirs@.len(),
            forall|j: int| 0 <= j < dir.files@.len() ==> extension_of((#[trigger] dir.files@[j])@) != Some("py"@),
            forall|j: int| 0 <= j < k ==> !is_package_dir(#[trigger] dir.dirs@[j]),
        decreases dir.dirs.len() - k,
    {
        if is_package(&dir.dirs[k]) {
            return true;
        }
        k = k + 1;
    }
    false
}

/// Whether a package among `dir`'s subdirectories is named `n`.
fn is_shadowed(dir: &DirListing, n: &str) -> (r: bool)
    ensures
        r == shadows(*dir, n@),
{
    let mut k: usize = 0;
    while k < dir.dirs.len()
        invariant
            k <= dir.dirs@.len(),
            forall|j: int| 0 <= j < k ==> !(!is_skipped((#[trigger] dir.dirs@[j]).name@, names_of(dir.dirs@[j].files@))
                && is_package_dir(dir.dirs@[j]) && dir.dirs@[j].name@ == n@),
        decreases dir.dirs.len() - k,
    {
        let c = &dir.dirs[k];
        if !skipped(c) && is_package(c) && crate::text::str_eq(c.name.as_str(), n) {
            return true;
        }
        k = k + 1;
    }
    false
}

/// Append the modules among `dir`'s own files, under `segs`.
fn modules_in(dir: &DirListing, path: &str, segs: &Vec<String>, shadowing: bool, out: &mut Vec<PyModule>)
    ensures
        py_views(final(out)@) == py_views(old(out)@) + py_modules_in(names_of(dir.files@), *dir, path@, names_of(segs@), shadowing),
{
    let ghost start = py_views(out@);
    let ghost fs = names_of(dir.files@);
    let ghost ss = names_of(segs@);
    let mut i: usize = 0;
    assert(fs.take(0) =~= Seq::<Seq<char>>::empty());
    assert(start + Seq::<(Seq<char>, Seq<Seq<char>>)>::empty() =~= start);
    while i < dir.files.len()
        invariant
            i <= dir.files@.len(),
            fs == names_of(dir.files@),
            ss == names_of(segs@),
            py_views(out@) == start + py_modules_in(fs.take(i as int), *dir, path@, ss, shadowing),
        decreases dir.files.len() - i,
    {
        let f = &dir.files[i];
        let ghost before = py_views(out@);
        proof {
            assert(fs.take(i + 1).drop_last() =~= fs.take(i as int));
            assert(fs.take(i + 1).last() == f@);
        }
        if is_module_file(f.as_str()) {
            let st = stem(f.as_str());
            let hidden = shadowing && is_shadowed(dir, st.as_str());
            if !hidden {
                let m = PyModule { file: join(path, f.as_str()), segments: extended(segs, st.as_str()) };
                out.push(m);
                assert(py_views(out@) =~= before.push(py_view(m)));
                assert(start + py_modules_in(fs.take(i + 1), *dir, path@, ss, shadowing)
                    =~= (start + py_modules_in(fs.take(i as int), *dir, path@, ss, shadowing)).push(py_view(m)));
            }
        }
        i = i + 1;
    }
    assert(fs.take(i as int) =~= fs);
}

/// Append the modules inside the package `dir`, which sits at `path` with import path
/// `segs`.
fn descend(dir: &DirListing, path: &str, segs: &Vec<String>, depth: usize, out: &mut Vec<PyModule>)
    ensures
        py_views(final(out)@) == py_views(old(out)@) + py_descend_view(*dir, path@, names_of(segs@), depth as int),
    decreases dir,
{
    let ghost start = py_views(out@);
    if depth >= MAX_DEPTH {
        assert(start + Seq::<(Seq<char>, Seq<Seq<char>>)>::empty() =~= start);
        return;
    }
    let ghost ss = names_of(segs@);
    modules_in(dir, path, segs, true, out);
    let mut k: usize = 0;
    assert(py_views(out@) + py_children(*dir, path@, ss, depth as int, 0)
        == start + py_descend_view(*dir, path@, ss, depth as int));
    while k < dir.dirs.len()
        invariant
            k <= dir.dirs@.len(),
            depth < MAX_DEPTH,
            ss == names_of(segs@),
            py_views(out@) + py_children(*dir, path@, ss, depth as int, k as int)
                == start + py_descend_view(*dir, path@, ss, depth as int),
        decreases dir.dirs.len() - k,
    {
        let c = &dir.dirs[k];
        let ghost cur = py_views(out@);
        let ghost rest = py_children(*dir, path@, ss, depth as int, k + 1);
        if !skipped(c) {
            let package = is_package(c);
            if package || holds(c) {
                let p = extended(segs, c.name.as_str());
                let cp = join(path, c.name.as_str());
                let ghost head = if package {
                    seq![(joined_path(cp@, "__init__.py"@), names_of(p@))]
                } else {
                    Seq::<(Seq<char>, Seq<Seq<char>>)>::empty()
                };
                if package {
                    proof {
                        reveal_strlit("__init__.py");
                    }
                    let m = PyModule { file: join(cp.as_str(), "__init__.py"), segments: extended(segs, c.name.as_str()) };
                    out.push(m);
                    assert(py_views(out@) =~= cur + head);
                } else {
                    assert(py_views(out@) =~= cur + head);
                }
                let ghost mid = py_views(out@);
                assert(decreases_to!(*dir => dir.dirs@[k as int]));
                descend(c, cp.as_str(), &p, depth + 1, out);
                let ghost d = py_descend_view(*c, cp@, names_of(p@), depth + 1);
                assert(cur + (head + d + rest) =~= (mid + d) + rest);
            }
        }
        k = k + 1;
    }
    assert(py_children(*dir, path@, ss, depth as int, k as int) =~= Seq::<(Seq<char>, Seq<Seq<char>>)>::empty());
    assert(py_views(out@) + Seq::<(Seq<char>, Seq<Seq<char>>)>::empty() =~= py_views(out@));
}

/// Every module in the package rooted at `directory`, whose tree is `listing`.
/// Modules come in sorted order as the listing gives them, and no module comes before
/// its parent package.
pub fn walk(directory: &str, listing: &DirListing) -> (r: Vec<PyModule>)
    ensures
        py_views(r@) == py_walk_view(*listing, directory@),
{
    let mut out: Vec<PyModule> = Vec::new();
    let none: Vec<String> = Vec::new();
    assert(names_of(none@) =~= Seq::<Seq<char>>::empty());
    if is_package(listing) {
        proof {
            reveal_strlit("__init__.py");
        }
        let m = PyModule { file: join(directory, "__init__.py"), segments: Vec::new() };
        out.push(m);
        assert(names_of(m.segments@) =~= Seq::<Seq<char>>::empty());
        let ghost top = py_views(out@);
        assert(top =~= seq![(joined_path(directory@, "__init__.py"@), Seq::<Seq<char>>::empty())]);
        descend(listing, directory, &none, 0, &mut out);
    } else {
        assert(py_views(out@) =~= Seq::<(Seq<char>, Seq<Seq<char>>)>::empty());
        modules_in(listing, directory, &none, false, &mut out);
        assert(py_views(out@) =~= py_modules_in(names_of(listing.files@), *listing, directory@, Seq::empty(), false));
    }
    out
}

// --- no module before its package -----------------------------------------------------

/// Whether no two subdirectories of any directory in the tree share a name, as on any
/// real filesystem.
pub open spec fn distinct_dirs(l: DirListing) -> bool
    decreases l, 1int, 0int,
{
    &&& forall|a: int, b: int| 0 <= a < b < l.dirs@.len() ==> (#[trigger] l.dirs@[a]).name@ != (#[trigger] l.dirs@[b]).name@
    &&& distinct_from(l, 0)
}

/// Whether the subdirectories of `l` from the `k`-th on satisfy [`distinct_dirs`].
pub open spec fn distinct_from(l: DirListing, k: int) -> bool
    decreases l, 0int, l.dirs@.len() - k,
{
    if k < 0 || k >= l.dirs@.len() {
        true
    } else {
        proof {
            assert(decreases_to!(l => l.dirs@[k]));
        }
        distinct_dirs(l.dirs@[k]) && distinct_from(l, k + 1)
    }
}

/// Whether every module of `s` lies strictly below `segs`.
pub open spec fn py_below(s: Seq<(Seq<char>, Seq<Seq<char>>)>, segs: Seq<Seq<char>>) -> bool {
    forall|j: int| 0 <= j < s.len() ==> (#[trigger] s[j]).1.len() > segs.len() && s[j].1.take(segs.len() as int) == segs
}

/// Whether no module of `s` comes before the module of its enclosing package.
pub open spec fn py_ordered(s: Seq<(Seq<char>, Seq<Seq<char>>)>) -> bool {
    forall|x: int, y: int| 0 <= x < s.len() && 0 <= y < s.len() && s[y].1.len() > 0
        && (#[trigger] s[x]).1 == (#[trigger] s[y]).1.drop_last() ==> x < y
}

/// Whether no module of `s` lies under one of `l`'s first `i` subdirectories.
pub open spec fn py_clear_of(s: Seq<(Seq<char>, Seq<Seq<char>>)>, l: DirListing, segs: Seq<Seq<char>>, i: int) -> bool {
    forall|j: int, k: int| 0 <= j < s.len() && 0 <= k < i ==> (#[trigger] s[j]).1[segs.len() as int] != (#[trigger] l.dirs@[k]).name@
}

proof fn lemma_modules_in_below(
    files: Seq<Seq<char>>,
    l: DirListing,
    path: Seq<char>,
    segs: Seq<Seq<char>>,
    shadowing: bool,
)
    ensures
        py_below(py_modules_in(files, l, path, segs, shadowing), segs),
        forall|j: int| 0 <= j < py_modules_in(files, l, path, segs, shadowing).len()
            ==> (#[trigger] py_modules_in(files, l, path, segs, shadowing)[j]).1.drop_last() == segs,
    decreases files.len(),
{
    if files.len() > 0 {
        lemma_modules_in_below(files.drop_last(), l, path, segs, shadowing);
        let f = files.last();
        assert(segs.push(stem_of(f)).take(segs.len() as int) =~= segs);
        assert(segs.push(stem_of(f)).drop_last() =~= segs);
    }
}

proof fn lemma_descend_ordered(l: DirListing, path: Seq<char>, segs: Seq<Seq<char>>, depth: int)
    requires
        distinct_dirs(l),
    ensures
        py_below(py_descend_view(l, path, segs, depth), segs),
        py_ordered(py_descend_view(l, path, segs, depth)),
    decreases l, 1int, 0int,
{
    if depth < MAX_DEPTH {
        let own = py_modules_in(names_of(l.files@), l, path, segs, true);
        let ch = py_children(l, path, segs, depth, 0);
        lemma_modules_in_below(names_of(l.files@), l, path, segs, true);
        lemma_children_ordered(l, path, segs, depth, 0);
        let s = own + ch;
        assert forall|j: int| 0 <= j < s.len()
            implies (#[trigger] s[j]).1.len() > segs.len() && s[j].1.take(segs.len() as int) == segs by {
            if j < own.len() {
                assert(s[j] == own[j]);
            } else {
                assert(s[j] == ch[j - own.len()]);
            }
        }
        assert forall|x: int, y: int| 0 <= x < s.len() && 0 <= y < s.len() && s[y].1.len() > 0
            && (#[trigger] s[x]).1 == (#[trigger] s[y]).1.drop_last() implies x < y by {
            if y < own.len() {
                assert(s[y] == own[y]);
                if x < own.len() {
                    assert(s[x] == own[x]);
                } else {
                    assert(s[x] == ch[x - own.len()]);
                }
            } else if x >= own.len() {
                assert(s[x] == ch[x - own.len()]);
                assert(s[y] == ch[y - own.len()]);
            }
        }
    }
}

proof fn lemma_children_ordered(l: DirListing, path: Seq<char>, segs: Seq<Seq<char>>, depth: int, i: int)
    requires
        distinct_dirs(l),
        0 <= i,
    ensures
        py_below(py_children(l, path, segs, depth, i), segs),
        py_ordered(py_children(l, path, segs, depth, i)),
        py_clear_of(py_children(l, path, segs, depth, i), l, segs, i),
    decreases l, 0int, l.dirs@.len() - i,
{
    if i < l.dirs@.len() {
        let c = l.dirs@[i];
        let rest = py_children(l, path, segs, depth, i + 1);
        lemma_children_ordered(l, path, segs, depth, i + 1);
        if !(is_skipped(c.name@, names_of(c.files@)) || (!is_package_dir(c) && !holds_modules(c))) {
            let p = segs.push(c.name@);
            let cp = joined_path(path, c.name@);
            let head = if is_package_dir(c) {
                seq![(joined_path(cp, "__init__.py"@), p)]
            } else {
                Seq::<(Seq<char>, Seq<Seq<char>>)>::empty()
            };
            assert(decreases_to!(l => l.dirs@[i]));
            lemma_distinct_child(l, 0, i);
            let d = py_descend_view(c, cp, p, depth + 1);
            lemma_descend_ordered(c, cp, p, depth + 1);
            let s = head + d + rest;
            assert(s == py_children(l, path, segs, depth, i));
            assert(p.take(segs.len() as int) =~= segs);
            assert(p.drop_last() =~= segs);
            assert(p[segs.len() as int] == c.name@);
            // Where each part's modules sit: the package itself, below it, or under a
            // later sibling.
            assert forall|j: int| 0 <= j < head.len() + d.len()
                implies (#[trigger] s[j]).1.len() > segs.len() && s[j].1.take(segs.len() as int) == segs
                    && s[j].1[segs.len() as int] == c.name@ by {
                if j < head.len() {
                    assert(s[j] == head[j]);
                } else {
                    let x = d[j - head.len()].1;
                    assert(s[j] == d[j - head.len()]);
                    assert(x.take(p.len() as int) == p);
                    assert(x.take(segs.len() as int) =~= x.take(p.len() as int).take(segs.len() as int));
                    assert(x[segs.len() as int] == x.take(p.len() as int)[segs.len() as int]);
                }
            }
            assert forall|j: int| head.len() + d.len() <= j < s.len()
                implies (#[trigger] s[j]).1.len() > segs.len() && s[j].1.take(segs.len() as int) == segs
                    && s[j].1[segs.len() as int] != c.name@ by {
                assert(s[j] == rest[j - head.len() - d.len()]);
            }
            assert forall|j: int| 0 <= j < s.len()
                implies (#[trigger] s[j]).1.len() > segs.len() && s[j].1.take(segs.len() as int) == segs by {
                if j < head.len() + d.len() {
                    assert(s[j].1.len() > segs.len());
                } else {
                    assert(s[j].1.len() > segs.len());
                }
            }
            assert forall|j: int, k: int| 0 <= j < s.len() && 0 <= k < i
                implies (#[trigger] s[j]).1[segs.len() as int] != (#[trigger] l.dirs@[k]).name@ by {
                if j < head.len() + d.len() {
                    assert(s[j].1[segs.len() as int] == c.name@);
                    assert(l.dirs@[k].name@ != l.dirs@[i].name@);
                } else {
                    assert(s[j] == rest[j - head.len() - d.len()]);
                }
            }
            assert forall|x: int, y: int| 0 <= x < s.len() && 0 <= y < s.len() && s[y].1.len() > 0
                && (#[trigger] s[x]).1 == (#[trigger] s[y]).1.drop_last() implies x < y by {
                let sy = s[y].1;
                let sx = s[x].1;
                if sy.len() == segs.len() + 1 {
                    assert(sy.drop_last() =~= sy.take(segs.len() as int));
                    assert(sx.len() > segs.len());
                } else {
                    assert(sy.drop_last()[segs.len() as int] == sy[segs.len() as int]);
                    if y < head.len() {
                        assert(s[y] == head[y]);
                    } else if y < head.len() + d.len() {
                        let yd = y - head.len();
                        assert(s[y] == d[yd]);
                        if x >= head.len() + d.len() {
                            assert(sx[segs.len() as int] != c.name@);
                        } else if x >= head.len() {
                            assert(s[x] == d[x - head.len()]);
                        }
                    } else {
                        assert(s[y] == rest[y - head.len() - d.len()]);
                        if x < head.len() + d.len() {
                            assert(sx[segs.len() as int] == c.name@);
                            assert(sy[segs.len() as int] != c.name@);
                        } else {
                            assert(s[x] == rest[x - head.len() - d.len()]);
                        }
                    }
                }
            }
        } else {
            assert forall|j: int, k: int| 0 <= j < rest.len() && 0 <= k < i
                implies (#[trigger] rest[j]).1[segs.len() as int] != (#[trigger] l.dirs@[k]).name@ by {
                assert(k < i + 1);
            }
        }
    }
}

/// Every subdirectory of a tree with distinct names has distinct names itself.
proof fn lemma_distinct_child(l: DirListing, k: int, i: int)
    requires
        0 <= k <= i < l.dirs@.len(),
        distinct_from(l, k),
    ensures
        distinct_dirs(l.dirs@[i]),
    decreases i - k,
{
    if k < i {
        lemma_distinct_child(l, k + 1, i);
    }
}

/// No module comes before its parent package: in a walk of a tree whose directories have
/// distinct names, whenever one module's path is another's less its last segment, the
/// first comes earlier. A namespace package contributes no module, so its contents have
/// no parent module to follow.
pub proof fn lemma_walk_parents_first(listing: DirListing, path: Seq<char>)
    requires
        distinct_dirs(listing),
    ensures
        forall|x: int, y: int| 0 <= x < py_walk_view(listing, path).len() && 0 <= y < py_walk_view(listing, path).len()
            && py_walk_view(listing, path)[y].1.len() > 0
            && (#[trigger] py_walk_view(listing, path)[x]).1 == (#[trigger] py_walk_view(listing, path)[y]).1.drop_last()
            ==> x < y,
{
    let w = py_walk_view(listing, path);
    if is_package_dir(listing) {
        let top = seq![(joined_path(path, "__init__.py"@), Seq::<Seq<char>>::empty())];
        let d = py_descend_view(listing, path, Seq::empty(), 0);
        lemma_descend_ordered(listing, path, Seq::empty(), 0);
        assert(w == top + d);
        assert forall|x: int, y: int| 0 <= x < w.len() && 0 <= y < w.len() && w[y].1.len() > 0
            && (#[trigger] w[x]).1 == (#[trigger] w[y]).1.drop_last() implies x < y by {
            if y == 0 {
                assert(w[0].1.len() == 0);
            } else if x > 0 {
                assert(w[x] == d[x - 1]);
                assert(w[y] == d[y - 1]);
            }
        }
    } else {
        lemma_modules_in_below(names_of(listing.files@), listing, path, Seq::empty(), false);
        assert forall|x: int, y: int| 0 <= x < w.len() && 0 <= y < w.len() && w[y].1.len() > 0
            && (#[trigger] w[x]).1 == (#[trigger] w[y]).1.drop_last() implies x < y by {
            assert(w[y].1.drop_last() == Seq::<Seq<char>>::empty());
            assert(w[x].1.len() > 0);
        }
    }
}

} // verus!
