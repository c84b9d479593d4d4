use karet_seam::discover::scan::skipped;
use karet_seam::modules::files;
use karet_seam::modules::listing::DirListing;
use karet_seam::modules::python;

/// The listing a directory holding exactly `files` (relative paths) reads as, every
/// level sorted by name as a directory read sorts it.
fn tree(files: &[&str]) -> DirListing {
    build("root", files.iter().map(|f| f.to_string()).collect())
}

fn build(name: &str, paths: Vec<String>) -> DirListing {
    let mut own: Vec<String> = Vec::new();
    let mut children: Vec<(String, Vec<String>)> = Vec::new();
    for path in paths {
        match path.split_once('/') {
            None => own.push(path),
            Some((dir, rest)) => match children.iter_mut().find(|(n, _)| n == dir) {
                Some((_, below)) => below.push(rest.to_string()),
                None => children.push((dir.to_string(), vec![rest.to_string()])),
            },
        }
    }
    own.sort();
    children.sort_by(|a, b| a.0.cmp(&b.0));
    let dirs = children.into_iter().map(|(n, below)| build(&n, below)).collect();
    DirListing::new(name.to_string(), own, dirs)
}

/// The file walk's result as `segments:extract` strings, in order.
fn walked(listing: &DirListing, extensions: &[&str], index_names: &[&str]) -> Vec<String> {
    files::walk("/root", listing, extensions, index_names)
        .into_iter()
        .map(|module| {
            format!(
                "{}:{}",
                module.segments.join("/"),
                if module.extract { "own" } else { "dir" }
            )
        })
        .collect()
}

/// The import paths the Python walk found, in the order it found them.
fn paths(listing: &DirListing) -> Vec<String> {
    python::walk("/root", listing)
        .into_iter()
        .map(|module| module.segments.join("."))
        .collect()
}

// --- the file walk --------------------------------------------------------------------

#[test]
fn every_source_file_becomes_a_module_and_every_directory_a_namespace() {
    let dir = tree(&["a.ts", "sub/b.ts", "sub/deep/c.ts"]);
    assert_eq!(
        walked(&dir, &["ts"], &[]),
        [
            "a:own",
            "sub:dir",
            "sub/b:own",
            "sub/deep:dir",
            "sub/deep/c:own"
        ]
    );
}

#[test]
fn an_index_file_is_its_directory_rather_than_a_module_beside_it() {
    let dir = tree(&["index.ts", "sub/index.ts", "sub/b.ts"]);
    // The root's own index has no segments: its contents are the package's.
    assert_eq!(
        walked(&dir, &["ts"], &["index"]),
        [":own", "sub:own", "sub/b:own"]
    );
}

#[test]
fn without_the_convention_an_index_file_is_an_ordinary_module() {
    let dir = tree(&["index.ts"]);
    assert_eq!(walked(&dir, &["ts"], &[]), ["index:own"]);
}

#[test]
fn a_directory_holding_no_source_is_not_a_namespace() {
    let dir = tree(&["a.ts", "assets/logo.png", "empty/nested/other.png"]);
    assert_eq!(walked(&dir, &["ts"], &[]), ["a:own"]);
}

#[test]
fn a_directory_whose_source_is_further_down_is_still_a_namespace() {
    let dir = tree(&["outer/inner/a.ts"]);
    assert_eq!(
        walked(&dir, &["ts"], &[]),
        ["outer:dir", "outer/inner:dir", "outer/inner/a:own"]
    );
}

#[test]
fn several_extensions_are_read_as_one_tree() {
    let dir = tree(&["a.ts", "b.tsx", "c.js", "d.md"]);
    assert_eq!(
        walked(&dir, &["ts", "tsx", "js"], &[]),
        ["a:own", "b:own", "c:own"]
    );
}

#[test]
fn build_output_and_dependency_caches_are_never_walked() {
    let dir = tree(&[
        "a.ts",
        "node_modules/dep/index.ts",
        "dist/a.js",
        ".git/x.ts",
    ]);
    assert_eq!(walked(&dir, &["ts", "js"], &[]), ["a:own"]);
}

#[test]
fn parents_always_come_before_their_children() {
    let dir = tree(&["z/deep/a.ts", "b.ts"]);
    // The caller creates a node per module and each needs its parent to exist.
    let order = walked(&dir, &["ts"], &[]);
    let at = |needle: &str| order.iter().position(|entry| entry == needle);
    assert!(at("z:dir") < at("z/deep:dir"));
    assert!(at("z/deep:dir") < at("z/deep/a:own"));
}

#[test]
fn a_missing_directory_walks_to_nothing_rather_than_failing() {
    // A directory that cannot be read lists as holding nothing.
    let missing = DirListing::new("absent".to_string(), Vec::new(), Vec::new());
    assert!(files::walk("/nope/absent", &missing, &["ts"], &[]).is_empty());
}

#[test]
fn a_namespace_points_at_the_first_file_beneath_it_and_is_not_extracted() {
    let dir = tree(&["sub/x/b.ts", "sub/a.ts"]);
    let found = files::walk("/root", &dir, &["ts"], &[]);
    assert_eq!(found[0].file, "/root/sub/a.ts");
    assert!(!found[0].extract);
    assert_eq!(found[1].file, "/root/sub/a.ts");
    assert!(found[1].extract);
}

#[test]
fn extensions_are_compared_without_regard_to_case() {
    let dir = tree(&["A.TS", "b.Ts", "c.tsx"]);
    assert_eq!(walked(&dir, &["ts"], &[]), ["A:own", "b:own"]);
    assert!(files::is_source_name("x.TS", &["ts"]));
    assert!(!files::is_source_name(".ts", &["ts"]));
    assert!(!files::is_source_name("ts", &["ts"]));
}

#[test]
fn an_index_file_is_found_by_the_first_name_then_the_first_extension() {
    let dir = tree(&["main.js", "main.ts", "index.ts"]);
    let found = files::walk("/root", &dir, &["ts", "js"], &["main", "index"]);
    assert_eq!(found[0].file, "/root/main.ts");
    assert!(found[0].segments.is_empty());
}

#[test]
fn a_walk_stops_sixteen_levels_down() {
    let deep = "a/b/c/d/e/f/g/h/i/j/k/l/m/n/o/p/q/leaf.ts";
    let dir = tree(&[deep]);
    let order = walked(&dir, &["ts"], &[]);
    // The file sits seventeen directories down, past where the search for a source
    // file gives up, so no directory on the way counts as holding any.
    assert!(order.is_empty());
    let shallow = tree(&["a/b/leaf.ts"]);
    assert_eq!(walked(&shallow, &["ts"], &[]), ["a:dir", "a/b:dir", "a/b/leaf:own"]);
}

// --- which directories are never entered ------------------------------------------------

#[test]
fn hidden_cache_and_environment_directories_are_skipped() {
    let named = |name: &str, files: &[&str]| {
        DirListing::new(
            name.to_string(),
            files.iter().map(|f| f.to_string()).collect(),
            Vec::new(),
        )
    };
    assert!(skipped(&named(".git", &[])));
    assert!(skipped(&named("target", &[])));
    assert!(skipped(&named("node_modules", &[])));
    assert!(skipped(&named("demo.egg-info", &[])));
    assert!(skipped(&named("env", &["pyvenv.cfg"])));
    assert!(!skipped(&named("src", &["lib.rs"])));
    assert!(!skipped(&named("targets", &[])));
}

// --- the Python walk --------------------------------------------------------------------

#[test]
fn the_packages_own_init_carries_no_segments() {
    let dir = tree(&["__init__.py", "model.py"]);
    let found = python::walk("/root", &dir);
    // An empty path is what attaches its contents to the package node itself, rather
    // than to a child module named `__init__`.
    assert_eq!(found.first().map(|m| m.segments.len()), Some(0));
    assert_eq!(
        found.first().map(|m| m.file.clone()),
        Some("/root/__init__.py".to_string())
    );
}

#[test]
fn modules_appear_by_import_path() {
    let dir = tree(&[
        "__init__.py",
        "model.py",
        "net/__init__.py",
        "net/client.py",
    ]);
    assert_eq!(paths(&dir), ["", "model", "net", "net.client"]);
}

#[test]
fn parents_are_always_emitted_before_their_children() {
    // A contract the caller depends on: it creates a node per module, and each needs
    // its parent to exist already.
    let dir = tree(&[
        "__init__.py",
        "a/__init__.py",
        "a/b/__init__.py",
        "a/b/c/__init__.py",
        "a/b/c/deep.py",
    ]);
    let found = paths(&dir);
    for (index, path) in found.iter().enumerate() {
        let Some((parent, _)) = path.rsplit_once('.') else {
            continue;
        };
        let at = found.iter().position(|p| p == parent);
        assert!(
            at.is_some_and(|at| at < index),
            "{path} precedes its parent"
        );
    }
}

#[test]
fn a_directory_shadows_a_module_of_the_same_name() {
    // What `import bar` actually reaches.
    let dir = tree(&["__init__.py", "bar.py", "bar/__init__.py", "bar/inner.py"]);
    assert_eq!(paths(&dir), ["", "bar", "bar.inner"]);
}

#[test]
fn a_namespace_package_contributes_its_modules_but_no_node() {
    // No `__init__.py`, so nothing to attach a node to — but the modules beneath it are
    // importable and dropping them would deny they exist.
    let dir = tree(&["__init__.py", "space/thing.py"]);
    assert_eq!(paths(&dir), ["", "space.thing"]);
}

#[test]
fn a_root_without_an_init_takes_its_loose_modules_and_stops() {
    let dir = tree(&["tool.py", "helper.py", "tests/test_tool.py", "docs/conf.py"]);
    // No descent, so the tests and the docs never arrive.
    assert_eq!(paths(&dir), ["helper", "tool"]);
}

#[test]
fn a_stub_is_not_a_second_copy_of_its_module() {
    let dir = tree(&["__init__.py", "model.py", "model.pyi"]);
    assert_eq!(paths(&dir), ["", "model"]);
}

#[test]
fn caches_and_environments_are_never_walked() {
    let dir = tree(&[
        "__init__.py",
        "real.py",
        "__pycache__/real.cpython-312.pyc",
        ".venv/lib/thing.py",
    ]);
    assert_eq!(paths(&dir), ["", "real"]);
}

#[test]
fn a_dunder_main_is_a_module_like_any_other() {
    // A real entry point, and where a package's boundary seams live.
    let dir = tree(&["__init__.py", "__main__.py"]);
    assert_eq!(paths(&dir), ["", "__main__"]);
}

#[test]
fn an_unreadable_directory_yields_nothing_rather_than_panicking() {
    let unreadable = DirListing::new("here".to_string(), Vec::new(), Vec::new());
    assert!(python::walk("/definitely/not/here", &unreadable).is_empty());
}

#[test]
fn modules_are_listed_in_a_stable_sorted_order() {
    let dir = tree(&["__init__.py", "zeta.py", "alpha.py", "mid.py"]);
    assert_eq!(paths(&dir), ["", "alpha", "mid", "zeta"]);
}

#[test]
fn a_directory_with_nothing_importable_is_not_entered() {
    let dir = tree(&["__init__.py", "data/table.csv", "empty/inner/x.py"]);
    // `empty` holds no module directly and no package, so its deeper file is not
    // importable from here.
    assert_eq!(paths(&dir), [""]);
}

#[test]
fn a_module_file_is_found_by_its_joined_path() {
    let dir = tree(&["__init__.py", "net/__init__.py", "net/client.py"]);
    let found = python::walk("/root/", &dir);
    let files: Vec<String> = found.into_iter().map(|m| m.file).collect();
    assert_eq!(
        files,
        [
            "/root/__init__.py",
            "/root/net/__init__.py",
            "/root/net/client.py"
        ]
    );
}
