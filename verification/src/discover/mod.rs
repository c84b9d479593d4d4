//! Finding packages: the ecosystems recognized, what each reads, and the patterns that
//! name workspace members. Listing directories and reading manifests happens at the
//! edge; what is decided about them is here.

pub mod glob;
pub mod scan;
pub mod python;

use vstd::prelude::*;

verus! {

/// Which ecosystem's rules apply to a discovered package.
#[derive(Debug, Clone, Copy, PartialEq, Eq, Structural, Hash)]
#[non_exhaustive]
pub enum PackageKind {
    /// A Cargo package: walked by following `mod` declarations from its crate roots.
    Cargo,
    /// A Python package: walked over the filesystem, because Python modules *are* files.
    Python,
    /// A Node package, marked by `package.json`: TypeScript and JavaScript.
    Node,
    /// A Swift package, marked by `Package.swift`.
    Swift,
    /// A Gradle module, marked by `build.gradle.kts` or `build.gradle`: Kotlin.
    Gradle,
}

/// The file extensions a package kind's file walk reads.
pub open spec fn extensions_of(kind: PackageKind) -> Seq<Seq<char>> {
    match kind {
        PackageKind::Cargo => Seq::empty(),
        PackageKind::Python => Seq::empty(),
        PackageKind::Node => seq!["ts"@, "tsx"@, "mts"@, "cts"@, "js"@, "jsx"@, "mjs"@, "cjs"@],
        PackageKind::Swift => seq!["swift"@],
        PackageKind::Gradle => seq!["kt"@, "kts"@],
    }
}

/// The file stems that stand for their directory in a package kind's file walk.
pub open spec fn index_names_of(kind: PackageKind) -> Seq<Seq<char>> {
    match kind {
        PackageKind::Node => seq!["index"@],
        _ => Seq::empty(),
    }
}

/// The view of a list of string slices.
pub open spec fn strs_view(v: Seq<&'static str>) -> Seq<Seq<char>> {
    v.map_values(|s: &'static str| s@)
}

impl PackageKind {
    /// The file extensions this kind's file walk reads. Empty for Cargo, which declares
    /// its tree, and for Python, which has a walk of its own.
    pub fn extensions(self) -> (r: Vec<&'static str>)
        ensures
            strs_view(r@) == extensions_of(self),
    {
        let r = match self {
            PackageKind::Cargo => Vec::new(),
            PackageKind::Python => Vec::new(),
            PackageKind::Node => vec!["ts", "tsx", "mts", "cts", "js", "jsx", "mjs", "cjs"],
            PackageKind::Swift => vec!["swift"],
            PackageKind::Gradle => vec!["kt", "kts"],
        };
        assert(strs_view(r@) =~= extensions_of(self));
        r
    }

    /// The file stems that stand for their directory: only Node has the convention.
    pub fn index_names(self) -> (r: Vec<&'static str>)
        ensures
            strs_view(r@) == index_names_of(self),
    {
        let r = match self {
            PackageKind::Node => vec!["index"],
            _ => Vec::new(),
        };
        assert(strs_view(r@) =~= index_names_of(self));
        r
    }
}

/// One package found under a directory.
#[derive(Debug, Clone, PartialEq, Eq)]
pub struct Discovered {
    /// The name its root node takes.
    pub name: String,
    /// The directory its sources are walked from.
    pub root: String,
    /// The file the root node points at, so the row has somewhere to open.
    pub anchor: String,
    /// Which ecosystem's walk applies.
    pub kind: PackageKind,
}

/// How far discovery is allowed to look.
#[derive(Debug, Clone, Copy, PartialEq, Eq, Structural)]
pub struct DiscoveryOptions {
    /// How many directory levels below the root the scan may descend.
    pub max_depth: usize,
    /// Stop after this many packages.
    pub max_packages: usize,
    /// Stop after visiting this many directories.
    pub max_directories: usize,
}

impl Default for DiscoveryOptions {
    /// Three levels reaches `rust/api/` and `packages/group/one/`; the directory cap is
    /// generous enough for any real repository and low enough that a pathological tree
    /// cannot stall a picker.
    fn default() -> (r: Self)
        ensures
            r.max_depth == 3,
            r.max_packages == 512,
            r.max_directories == 8192,
    {
        DiscoveryOptions { max_depth: 3, max_packages: 512, max_directories: 8192 }
    }
}

/// Directory names that say where sources are rather than what they are called.
pub open spec fn generic_roots() -> Seq<Seq<char>> {
    seq!["src"@, "kotlin"@, "java"@, "main"@, "Sources"@, "lib"@]
}

/// What to call a package whose source root's directory is named `source` inside a
/// package directory named `package`: the source root's own name where it has a
/// meaningful one, else the package directory's.
pub fn name_of(source: Option<&str>, package: Option<&str>) -> (r: String)
    ensures
        r@ == match source {
            Some(s) if !generic_roots().contains(s@) => s@,
            _ => match package {
                Some(p) => p@,
                None => Seq::<char>::empty(),
            },
        },
{
    let generic = vec!["src", "kotlin", "java", "main", "Sources", "lib"];
    assert(strs_view(generic@) =~= generic_roots());
    match source {
        Some(s) => {
            let mut i: usize = 0;
            let mut hit = false;
            while i < generic.len()
                invariant
                    i <= generic@.len(),
                    strs_view(generic@) == generic_roots(),
                    hit == exists|j: int| 0 <= j < i && generic@[j]@ == s@,
                decreases generic.len() - i,
            {
                if crate::text::str_eq(generic[i], s) {
                    hit = true;
                }
                i = i + 1;
            }
            proof {
                if generic_roots().contains(s@) {
                    let j = choose|j: int| 0 <= j < generic_roots().len() && generic_roots()[j] == s@;
                    assert(strs_view(generic@)[j] == generic@[j]@);
                }
                if hit {
                    let j = choose|j: int| 0 <= j < generic@.len() && generic@[j]@ == s@;
                    assert(strs_view(generic@)[j] == s@);
                }
            }
            if !hit {
                return s.to_string();
            }
        },
        None => {},
    }
    match package {
        Some(p) => p.to_string(),
        None => String::new(),
    }
}

// --- manifests ------------------------------------------------------------------------

/// The `[package] name` a Cargo manifest's text declares, as
/// `dependable_core::parse_package_name` reads it: `None` when the text is not TOML or
/// declares no package name.
pub uninterp spec fn package_name_in(manifest: Seq<char>) -> Option<Seq<char>>;

/// The `[workspace]` a Cargo manifest's text declares, as
/// `dependable_core::parse_workspace` reads it: its `members`, `default-members` and
/// `exclude` patterns as written, or `None` when the text is not TOML or has no
/// workspace table.
pub uninterp spec fn workspace_in(manifest: Seq<char>) -> Option<(Seq<Seq<char>>, Seq<Seq<char>>, Seq<Seq<char>>)>;

/// `dependable_core::parse_package_name`: the package name a manifest declares. It
/// parses the text alone, so the answer is a function of the text; which TOML it
/// accepts is not stated.
#[verifier::external_body]
fn parse_package_name(manifest: &str) -> (r: Option<String>)
    ensures
        match r {
            Some(n) => package_name_in(manifest@) == Some(n@),
            None => package_name_in(manifest@) is None,
        },
{
    dependable_core::parse_package_name(manifest)
}

/// `dependable_core::parse_workspace`: the workspace a manifest declares, as its
/// member, default-member and exclude patterns. It parses the text alone; which TOML
/// it accepts is not stated.
#[verifier::external_body]
fn parse_workspace(manifest: &str) -> (r: Option<(Vec<String>, Vec<String>, Vec<String>)>)
    ensures
        match r {
            Some(w) => workspace_in(manifest@) == Some((crate::config::predicate::names(w.0@),
                crate::config::predicate::names(w.1@), crate::config::predicate::names(w.2@))),
            None => workspace_in(manifest@) is None,
        },
{
    match dependable_core::parse_workspace(manifest) {
        Some(w) => Some((w.members, w.default_members, w.exclude)),
        None => None,
    }
}

/// What one manifest says of its directory.
#[derive(Debug, Clone, PartialEq, Eq)]
pub enum ManifestReading {
    /// A package, under this name.
    Package(String),
    /// A workspace with no package of its own: its member, default-member and exclude
    /// patterns, as written.
    Workspace {
        /// `members`.
        members: Vec<String>,
        /// `default-members`.
        default_members: Vec<String>,
        /// `exclude`.
        exclude: Vec<String>,
    },
    /// Neither.
    Neither,
}

/// Read a Cargo manifest: a package when it names one, else a workspace when it
/// declares one, else neither. A manifest that is both reads as its package, whose
/// workspace the caller then also walks.
pub fn read_manifest(manifest: &str) -> (r: ManifestReading)
    ensures
        match r {
            ManifestReading::Package(n) => package_name_in(manifest@) == Some(n@),
            ManifestReading::Workspace { members, default_members, exclude } => package_name_in(manifest@) is None
                && workspace_in(manifest@) == Some((crate::config::predicate::names(members@),
                    crate::config::predicate::names(default_members@), crate::config::predicate::names(exclude@))),
            ManifestReading::Neither => package_name_in(manifest@) is None && workspace_in(manifest@) is None,
        },
{
    match parse_package_name(manifest) {
        Some(n) => ManifestReading::Package(n),
        None => match parse_workspace(manifest) {
            Some((members, default_members, exclude)) => ManifestReading::Workspace { members, default_members, exclude },
            None => ManifestReading::Neither,
        },
    }
}

/// The workspace a manifest declares, whether or not it names a package too.
pub fn workspace_of(manifest: &str) -> (r: Option<(Vec<String>, Vec<String>, Vec<String>)>)
    ensures
        match r {
            Some(w) => workspace_in(manifest@) == Some((crate::config::predicate::names(w.0@),
                crate::config::predicate::names(w.1@), crate::config::predicate::names(w.2@))),
            None => workspace_in(manifest@) is None,
        },
{
    parse_workspace(manifest)
}

/// The Cargo package a directory holds, given its manifest's text: named as the
/// manifest says, rooted at the directory, anchored at the manifest.
pub fn cargo_package(dir: &str, manifest_path: &str, manifest: &str) -> (r: Option<Discovered>)
    ensures
        match r {
            Some(d) => package_name_in(manifest@) == Some(d.name@) && d.root@ == dir@
                && d.anchor@ == manifest_path@ && d.kind == PackageKind::Cargo,
            None => package_name_in(manifest@) is None,
        },
{
    match parse_package_name(manifest) {
        Some(name) => Some(Discovered {
            name,
            root: crate::text::string_of(crate::text::chars_of(dir).as_slice()),
            anchor: crate::text::string_of(crate::text::chars_of(manifest_path).as_slice()),
            kind: PackageKind::Cargo,
        }),
        None => None,
    }
}

// --- putting the ecosystems together ----------------------------------------------------

/// The packages of `found` whose root no earlier one took, in order.
pub open spec fn first_per_root(found: Seq<Discovered>) -> Seq<Discovered>
    decreases found.len(),
{
    if found.len() == 0 {
        Seq::empty()
    } else {
        let earlier = first_per_root(found.drop_last());
        if exists|i: int| 0 <= i < found.len() - 1 && (#[trigger] found[i]).root@ == found.last().root@ {
            earlier
        } else {
            earlier.push(found.last())
        }
    }
}

/// What discovery reports from the Cargo packages and then the Python packages it
/// found: each root once, as the first package found there, Cargo first, at most
/// `max_packages` of them.
pub open spec fn discovered_spec(cargo: Seq<Discovered>, python: Seq<Discovered>, max_packages: int) -> Seq<Discovered> {
    let all = first_per_root(cargo + python);
    if all.len() <= max_packages { all } else { all.take(max_packages) }
}

/// Whether some package of `kept` is rooted at `root`.
fn root_taken(kept: &Vec<Discovered>, root: &str) -> (r: bool)
    ensures
        r == exists|i: int| 0 <= i < kept@.len() && (#[trigger] kept@[i]).root@ == root@,
{
    let mut i: usize = 0;
    while i < kept.len()
        invariant
            i <= kept@.len(),
            forall|j: int| 0 <= j < i ==> (#[trigger] kept@[j]).root@ != root@,
        decreases kept.len() - i,
    {
        if crate::text::str_eq(kept[i].root.as_str(), root) {
            return true;
        }
        i = i + 1;
    }
    false
}

/// Each root's first package keeps its root, so the roots of the packages kept are
/// those of the packages seen.
proof fn lemma_first_roots(found: Seq<Discovered>, root: Seq<char>)
    ensures
        (exists|i: int| 0 <= i < first_per_root(found).len() && (#[trigger] first_per_root(found)[i]).root@ == root)
            == (exists|i: int| 0 <= i < found.len() && (#[trigger] found[i]).root@ == root),
    decreases found.len(),
{
    if found.len() > 0 {
        let earlier = first_per_root(found.drop_last());
        lemma_first_roots(found.drop_last(), root);
        lemma_first_roots(found.drop_last(), found.last().root@);
        if exists|i: int| 0 <= i < found.len() && (#[trigger] found[i]).root@ == root {
            let i = choose|i: int| 0 <= i < found.len() && (#[trigger] found[i]).root@ == root;
            if i < found.len() - 1 {
                assert(found.drop_last()[i] == found[i]);
                let k = choose|k: int| 0 <= k < earlier.len() && (#[trigger] earlier[k]).root@ == root;
                assert(first_per_root(found)[k] == earlier[k]);
            } else if exists|j: int| 0 <= j < found.len() - 1 && (#[trigger] found[j]).root@ == found.last().root@ {
                let j = choose|j: int| 0 <= j < found.len() - 1 && (#[trigger] found[j]).root@ == found.last().root@;
                assert(found.drop_last()[j] == found[j]);
                let k = choose|k: int| 0 <= k < earlier.len() && (#[trigger] earlier[k]).root@ == found.last().root@;
                assert(first_per_root(found)[k] == earlier[k]);
            } else {
                assert(first_per_root(found)[earlier.len() as int] == found.last());
            }
        }
        if exists|i: int| 0 <= i < first_per_root(found).len() && (#[trigger] first_per_root(found)[i]).root@ == root {
            let i = choose|i: int| 0 <= i < first_per_root(found).len() && (#[trigger] first_per_root(found)[i]).root@ == root;
            if i < earlier.len() {
                assert(first_per_root(found)[i] == earlier[i]);
                let j = choose|j: int| 0 <= j < found.drop_last().len() && (#[trigger] found.drop_last()[j]).root@ == root;
                assert(found[j] == found.drop_last()[j]);
            } else {
                assert(found[found.len() - 1].root@ == root);
            }
        }
    }
}

/// No two packages `first_per_root` keeps share a root.
pub proof fn lemma_roots_distinct(found: Seq<Discovered>)
    ensures
        forall|i: int, j: int| 0 <= i < j < first_per_root(found).len()
            ==> (#[trigger] first_per_root(found)[i]).root@ != (#[trigger] first_per_root(found)[j]).root@,
    decreases found.len(),
{
    if found.len() > 0 {
        lemma_roots_distinct(found.drop_last());
        lemma_first_roots(found.drop_last(), found.last().root@);
        let earlier = first_per_root(found.drop_last());
        assert forall|i: int, j: int| 0 <= i < j < first_per_root(found).len()
            implies (#[trigger] first_per_root(found)[i]).root@ != (#[trigger] first_per_root(found)[j]).root@ by {
            if j < earlier.len() {
                assert(first_per_root(found)[i] == earlier[i] && first_per_root(found)[j] == earlier[j]);
            } else {
                assert(first_per_root(found)[i] == earlier[i]);
                if earlier[i].root@ == found.last().root@ {
                    let j2 = choose|j2: int| 0 <= j2 < found.drop_last().len() && (#[trigger] found.drop_last()[j2]).root@ == found.last().root@;
                    assert(found[j2] == found.drop_last()[j2]);
                }
            }
        }
    }
}

/// Put together what the Cargo and Python walks found: each root once, as the first
/// package found there, Cargo's first, at most `options.max_packages` in all.
pub fn discover_in(cargo: Vec<Discovered>, python: Vec<Discovered>, options: DiscoveryOptions) -> (r: Vec<Discovered>)
    ensures
        r@ == discovered_spec(cargo@, python@, options.max_packages as int),
        r@.len() <= options.max_packages,
        forall|i: int, j: int| 0 <= i < j < r@.len() ==> (#[trigger] r@[i]).root@ != (#[trigger] r@[j]).root@,
{
    let ghost all = cargo@ + python@;
    let mut found = cargo;
    let mut rest = python;
    found.append(&mut rest);
    assert(found@ == all);
    let mut kept: Vec<Discovered> = Vec::new();
    let mut i: usize = 0;
    assert(all.take(0) =~= Seq::<Discovered>::empty());
    while i < found.len()
        invariant
            i <= found@.len(),
            found@ == all,
            kept@ == first_per_root(all.take(i as int)),
        decreases found.len() - i,
    {
        let ghost pre = all.take(i as int);
        assert(all.take(i + 1).drop_last() =~= pre);
        assert(all.take(i + 1).last() == all[i as int]);
        proof {
            lemma_first_roots(pre, all[i as int].root@);
            assert(forall|j: int| 0 <= j < pre.len() ==> #[trigger] pre[j] == all.take(i + 1)[j]);
        }
        if !root_taken(&kept, found[i].root.as_str()) {
            kept.push(found[i].duplicate());
        }
        i = i + 1;
    }
    assert(all.take(found@.len() as int) =~= all);
    proof {
        lemma_roots_distinct(all);
    }
    kept.truncate(options.max_packages);
    kept
}

impl Discovered {
    /// A copy of this package, field for field.
    pub fn duplicate(&self) -> (r: Self)
        ensures
            r == *self,
    {
        Discovered { name: self.name.clone(), root: self.root.clone(), anchor: self.anchor.clone(), kind: self.kind }
    }
}

} // verus!
