//! What marks a Python project, and which importable packages it exposes.
//!
//! A project is marked by a project file, never by loose `.py`: `pyproject.toml`,
//! `setup.py` and `setup.cfg` each say "this directory is a distribution", while Python
//! scattered through build scripts and notebooks says nothing. A package's name comes from
//! the directory holding its `__init__.py`, since the seam path is an import path and the
//! manifest names the distribution instead. The directory walk happens at the edge; the
//! decisions about each directory it reads are here.

use vstd::prelude::*;
use crate::discover::scan::is_skipped;
use crate::discover::scan::skipped;
use crate::modules::listing::DirListing;
use crate::modules::listing::names_of;
use crate::text::has_suffix;

verus! {

/// The file marking a directory holding `files` as a distribution, by precedence.
pub open spec fn project_file_of(files: Seq<Seq<char>>) -> Option<Seq<char>> {
    if files.contains("pyproject.toml"@) {
        Some("pyproject.toml"@)
    } else if files.contains("setup.py"@) {
        Some("setup.py"@)
    } else if files.contains("setup.cfg"@) {
        Some("setup.cfg"@)
    } else {
        None
    }
}

/// The project file that marks `dir` as a distribution, if it has one.
pub fn project_file(dir: &DirListing) -> (r: Option<&'static str>)
    ensures
        match r {
            Some(name) => project_file_of(names_of(dir.files@)) == Some(name@),
            None => project_file_of(names_of(dir.files@)) is None,
        },
{
    proof {
        reveal_strlit("pyproject.toml");
        reveal_strlit("setup.py");
        reveal_strlit("setup.cfg");
    }
    if dir.has_file("pyproject.toml") {
        Some("pyproject.toml")
    } else if dir.has_file("setup.py") {
        Some("setup.py")
    } else if dir.has_file("setup.cfg") {
        Some("setup.cfg")
    } else {
        None
    }
}

/// Directory names that conventionally sit beside a package without being one.
pub open spec fn support_names() -> Seq<Seq<char>> {
    seq![
        "tests"@, "test"@, "docs"@, "doc"@, "examples"@, "example"@, "scripts"@,
        "benchmarks"@, "migrations"@,
    ]
}

/// The directories that conventionally sit beside a package are all known as support:
/// tests, docs, examples, scripts, benchmarks and migrations.
pub proof fn lemma_support_directories_are_known()
    ensures
        support_names().contains("tests"@),
        support_names().contains("test"@),
        support_names().contains("docs"@),
        support_names().contains("doc"@),
        support_names().contains("examples"@),
        support_names().contains("example"@),
        support_names().contains("scripts"@),
        support_names().contains("benchmarks"@),
        support_names().contains("migrations"@),
{
    assert(support_names()[0] == "tests"@);
    assert(support_names()[1] == "test"@);
    assert(support_names()[2] == "docs"@);
    assert(support_names()[3] == "doc"@);
    assert(support_names()[4] == "examples"@);
    assert(support_names()[5] == "example"@);
    assert(support_names()[6] == "scripts"@);
    assert(support_names()[7] == "benchmarks"@);
    assert(support_names()[8] == "migrations"@);
}

/// Whether a directory name is one that conventionally sits beside a package.
pub fn is_support(name: &str) -> (r: bool)
    ensures
        r == support_names().contains(name@),
{
    let names = vec!["tests", "test", "docs", "doc", "examples", "example", "scripts", "benchmarks", "migrations"];
    proof {
        reveal_strlit("tests");
        reveal_strlit("test");
        reveal_strlit("docs");
        reveal_strlit("doc");
        reveal_strlit("examples");
        reveal_strlit("example");
        reveal_strlit("scripts");
        reveal_strlit("benchmarks");
        reveal_strlit("migrations");
        assert(names@.map_values(|s: &str| s@) =~= support_names());
    }
    let mut i: usize = 0;
    while i < names.len()
        invariant
            i <= names@.len(),
            names@.map_values(|s: &str| s@) == support_names(),
            forall|j: int| 0 <= j < i ==> support_names()[j] != name@,
        decreases names.len() - i,
    {
        if crate::text::str_eq(names[i], name) {
            assert(support_names()[i as int] == name@);
            return true;
        }
        i = i + 1;
    }
    proof {
        if support_names().contains(name@) {
            let j = choose|j: int| 0 <= j < support_names().len() && support_names()[j] == name@;
        }
    }
    false
}

/// Whether `d` is an importable package: entered by the walk, holding `__init__.py`, and,
/// when `filter_support` is set, not one of the directories that sit beside a package.
pub open spec fn is_package_dir(d: DirListing, filter_support: bool) -> bool {
    &&& !is_skipped(d.name@, names_of(d.files@))
    &&& !(filter_support && support_names().contains(d.name@))
    &&& names_of(d.files@).contains("__init__.py"@)
}

/// The names of the package directories among `dirs`, in their order.
pub open spec fn package_names(dirs: Seq<DirListing>, filter_support: bool) -> Seq<Seq<char>> {
    dirs.filter(|d: DirListing| is_package_dir(d, filter_support)).map_values(|d: DirListing| d.name@)
}

/// The names of the package directories among `dirs`, in their order.
pub fn package_dirs(dirs: &Vec<DirListing>, filter_support: bool) -> (r: Vec<String>)
    ensures
        names_of(r@) == package_names(dirs@, filter_support),
{
    proof {
        reveal_strlit("__init__.py");
    }
    let ghost pred = |d: DirListing| is_package_dir(d, filter_support);
    let mut out: Vec<String> = Vec::new();
    let mut i: usize = 0;
    while i < dirs.len()
        invariant
            i <= dirs@.len(),
            pred == (|d: DirListing| is_package_dir(d, filter_support)),
            names_of(out@) == dirs@.take(i as int).filter(pred).map_values(|d: DirListing| d.name@),
        decreases dirs.len() - i,
    {
        let d = &dirs[i];
        let keep = !skipped(d) && !(filter_support && is_support(d.name.as_str())) && d.has_file("__init__.py");
        proof {
            let pre = dirs@.take(i as int);
            assert(dirs@.take(i + 1) =~= pre.push(dirs@[i as int]));
            pre.lemma_filter_push(dirs@[i as int], pred);
        }
        if keep {
            let ghost before = out@;
            out.push(d.name.clone());
            proof {
                assert(names_of(out@) =~= names_of(before).push(d.name@));
            }
        }
        i = i + 1;
    }
    assert(dirs@.take(dirs@.len() as int) =~= dirs@);
    out
}

/// In a flat layout a `tests` or `docs` directory is never an importable package,
/// whatever it holds.
pub proof fn lemma_flat_layout_passes_over_tests_and_docs(dirs: Seq<DirListing>)
    ensures
        !package_names(dirs, true).contains("tests"@),
        !package_names(dirs, true).contains("docs"@),
{
    lemma_support_directories_are_known();
    let pred = |d: DirListing| is_package_dir(d, true);
    let kept = dirs.filter(pred);
    broadcast use vstd::seq_lib::group_filter_ensures;
    assert forall|k: int| 0 <= k < package_names(dirs, true).len() implies
        package_names(dirs, true)[k] != "tests"@ && package_names(dirs, true)[k] != "docs"@ by {
        assert(package_names(dirs, true)[k] == kept[k].name@);
        assert(pred(kept[k]));
    }
}

/// Whether `name` is a Python module file: it ends in `.py` after a stem.
pub open spec fn is_module_file(name: Seq<char>) -> bool {
    name.len() > 3 && has_suffix(name, ".py"@)
}

/// Whether `files` holds at least one Python module.
pub fn holds_modules(files: &Vec<String>) -> (r: bool)
    ensures
        r == exists|k: int| 0 <= k < files@.len() && is_module_file(#[trigger] files@[k]@),
{
    let mut i: usize = 0;
    while i < files.len()
        invariant
            i <= files@.len(),
            forall|k: int| 0 <= k < i ==> !is_module_file(#[trigger] files@[k]@),
        decreases files.len() - i,
    {
        let name = files[i].as_str();
        if crate::text::str_ends_with(name, ".py") && name.unicode_len() > 3 {
            assert(is_module_file(files@[i as int]@));
            return true;
        }
        i = i + 1;
    }
    false
}

/// The first subdirectory of `dirs` named `src`.
pub open spec fn src_dir(dirs: Seq<DirListing>) -> Option<int> {
    if exists|k: int| 0 <= k < dirs.len() && #[trigger] dirs[k].name@ == "src"@ {
        Some(choose|k: int| 0 <= k < dirs.len() && #[trigger] dirs[k].name@ == "src"@
            && forall|j: int| 0 <= j < k ==> dirs[j].name@ != "src"@)
    } else {
        None
    }
}

/// The importable packages a project directory exposes, as paths below it, in
/// precedence order: the packages of a `src/` layout when it has any; else the package
/// directories beside the project file, support directories passed over; else, when
/// modules sit loose beside the project file, the project directory itself (the empty
/// path); else none.
pub open spec fn importable_roots_of(project: DirListing) -> Seq<Seq<char>> {
    let from_src = match src_dir(project.dirs@) {
        Some(k) => package_names(project.dirs@[k].dirs@, false),
        None => Seq::empty(),
    };
    let flat = package_names(project.dirs@, true);
    if from_src.len() > 0 {
        from_src.map_values(|n: Seq<char>| "src/"@ + n)
    } else if flat.len() > 0 {
        flat
    } else if exists|k: int| 0 <= k < project.files@.len() && is_module_file(#[trigger] project.files@[k]@) {
        seq![Seq::<char>::empty()]
    } else {
        Seq::empty()
    }
}

/// The importable packages a project directory exposes; see [`importable_roots_of`].
pub fn importable_roots(project: &DirListing) -> (r: Vec<String>)
    ensures
        names_of(r@) == importable_roots_of(*project),
{
    proof {
        reveal_strlit("src");
        reveal_strlit("src/");
    }
    let mut s: usize = 0;
    let mut found: Option<usize> = None;
    while s < project.dirs.len()
        invariant
            s <= project.dirs@.len(),
            found is None ==> forall|j: int| 0 <= j < s ==> project.dirs@[j].name@ != "src"@,
            found matches Some(k) ==> k < project.dirs@.len() && project.dirs@[k as int].name@ == "src"@
                && forall|j: int| 0 <= j < k ==> project.dirs@[j].name@ != "src"@,
        decreases project.dirs.len() - s,
    {
        if found.is_none() && crate::text::str_eq(project.dirs[s].name.as_str(), "src") {
            found = Some(s);
        }
        s = s + 1;
    }
    proof {
        match found {
            Some(k) => {
                assert(project.dirs@[k as int].name@ == "src"@);
                let c = choose|c: int| 0 <= c < project.dirs@.len() && #[trigger] project.dirs@[c].name@ == "src"@
                    && forall|j: int| 0 <= j < c ==> project.dirs@[j].name@ != "src"@;
                if c < k {
                    assert(project.dirs@[c].name@ != "src"@);
                }
                if k < c {
                    assert(project.dirs@[k as int].name@ != "src"@);
                }
                assert(src_dir(project.dirs@) == Some(k as int));
            },
            None => {
                assert(src_dir(project.dirs@) is None);
            },
        }
    }
    match found {
        Some(k) => {
            let packages = package_dirs(&project.dirs[k].dirs, false);
            if packages.len() > 0 {
                let mut out: Vec<String> = Vec::new();
                let mut i: usize = 0;
                while i < packages.len()
                    invariant
                        i <= packages@.len(),
                        names_of(out@) == names_of(packages@).take(i as int).map_values(|n: Seq<char>| "src/"@ + n),
                    decreases packages.len() - i,
                {
                    let mut path = String::from_str("src/");
                    crate::text::push_str(&mut path, packages[i].as_str());
                    let ghost before = out@;
                    out.push(path);
                    proof {
                        assert(names_of(packages@).take(i + 1) =~= names_of(packages@).take(i as int).push(packages@[i as int]@));
                        assert(names_of(out@) =~= names_of(before).push("src/"@ + packages@[i as int]@));
                        assert(names_of(packages@).take(i + 1).map_values(|n: Seq<char>| "src/"@ + n)
                            =~= names_of(packages@).take(i as int).map_values(|n: Seq<char>| "src/"@ + n).push("src/"@ + packages@[i as int]@));
                    }
                    i = i + 1;
                }
                assert(names_of(packages@).take(packages@.len() as int) =~= names_of(packages@));
                return out;
            }
        },
        None => {},
    }
    let packages = package_dirs(&project.dirs, true);
    if packages.len() > 0 {
        return packages;
    }
    if holds_modules(&project.files) {
        let out = vec![String::new()];
        assert(names_of(out@) =~= seq![Seq::<char>::empty()]);
        return out;
    }
    let out: Vec<String> = Vec::new();
    assert(names_of(out@) =~= Seq::<Seq<char>>::empty());
    out
}

} // verus!
