//! Which directories a walk never enters.
//!
//! Build output, dependency caches and virtual environments all contain real source that
//! is nonetheless not *this* repository's. Indexing it would bury the packages the reader
//! asked about under thousands of nodes they did not.

use vstd::prelude::*;
use crate::modules::listing::DirListing;
use crate::modules::listing::names_of;
use crate::text::has_prefix;
use crate::text::has_suffix;

verus! {

/// Directory names that never hold a package worth indexing.
pub open spec fn skipped_names() -> Seq<Seq<char>> {
    seq!["target"@, "node_modules"@, "__pycache__"@, "site-packages"@, "dist"@, "build"@, "vendor"@]
}

/// Whether a directory with this name, holding these files, is never descended into:
/// hidden, an `.egg-info`, a known cache or output name, or a virtual environment
/// (whatever its name, a `pyvenv.cfg` is what makes it one).
pub open spec fn is_skipped(name: Seq<char>, files: Seq<Seq<char>>) -> bool {
    ||| has_prefix(name, "."@)
    ||| has_suffix(name, ".egg-info"@)
    ||| skipped_names().contains(name)
    ||| files.contains("pyvenv.cfg"@)
}

/// The names of [`skipped_names`], in order.
fn skipped_list() -> (r: Vec<&'static str>)
    ensures
        r@.map_values(|s: &'static str| s@) == skipped_names(),
{
    let r = vec!["target", "node_modules", "__pycache__", "site-packages", "dist", "build", "vendor"];
    proof {
        reveal_strlit("target");
        reveal_strlit("node_modules");
        reveal_strlit("__pycache__");
        reveal_strlit("site-packages");
        reveal_strlit("dist");
        reveal_strlit("build");
        reveal_strlit("vendor");
        assert(r@.map_values(|s: &'static str| s@) =~= skipped_names());
    }
    r
}

/// Whether the walk should never enter `dir`.
pub fn skipped(dir: &DirListing) -> (r: bool)
    ensures
        r == is_skipped(dir.name@, names_of(dir.files@)),
{
    proof {
        reveal_strlit(".");
        reveal_strlit(".egg-info");
        reveal_strlit("pyvenv.cfg");
    }
    if crate::text::str_starts_with(dir.name.as_str(), ".") {
        return true;
    }
    if crate::text::str_ends_with(dir.name.as_str(), ".egg-info") {
        return true;
    }
    let names = skipped_list();
    let ghost view = names@.map_values(|s: &'static str| s@);
    let mut i: usize = 0;
    while i < names.len()
        invariant
            i <= names@.len(),
            view == names@.map_values(|s: &'static str| s@),
            view == skipped_names(),
            forall|j: int| 0 <= j < i ==> view[j] != dir.name@,
        decreases names.len() - i,
    {
        if crate::text::str_eq(names[i], dir.name.as_str()) {
            assert(view[i as int] == dir.name@);
            return true;
        }
        i = i + 1;
    }
    dir.has_file("pyvenv.cfg")
}

} // verus!
