use karet_seam::discover::python::holds_modules;
use karet_seam::discover::python::importable_roots;
use karet_seam::discover::python::project_file;
use karet_seam::modules::listing::DirListing;
use karet_seam::discover::cargo_package;
use karet_seam::discover::discover_in;
use karet_seam::discover::read_manifest;
use karet_seam::discover::Discovered;
use karet_seam::discover::DiscoveryOptions;
use karet_seam::discover::ManifestReading;
use karet_seam::discover::PackageKind;

fn package(name: &str, root: &str, kind: PackageKind) -> Discovered {
    Discovered { name: name.to_owned(), root: root.to_owned(), anchor: format!("{root}/anchor"), kind }
}

#[test]
fn a_manifest_reads_as_its_package_its_workspace_or_neither() {
    assert_eq!(
        read_manifest("[package]\nname = \"widgets\"\n"),
        ManifestReading::Package("widgets".to_owned())
    );
    assert_eq!(
        read_manifest("[workspace]\nmembers = [\"crates/*\"]\nexclude = [\"crates/old\"]\n"),
        ManifestReading::Workspace {
            members: vec!["crates/*".to_owned()],
            default_members: Vec::new(),
            exclude: vec!["crates/old".to_owned()],
        }
    );
    assert_eq!(read_manifest("not toml ["), ManifestReading::Neither);
}

#[test]
fn a_cargo_package_is_rooted_at_its_directory_and_anchored_at_its_manifest() {
    let found = cargo_package("repo/app", "repo/app/Cargo.toml", "[package]\nname = \"app\"\n");
    assert_eq!(
        found,
        Some(Discovered {
            name: "app".to_owned(),
            root: "repo/app".to_owned(),
            anchor: "repo/app/Cargo.toml".to_owned(),
            kind: PackageKind::Cargo,
        })
    );
    assert_eq!(cargo_package("repo", "repo/Cargo.toml", "[workspace]\n"), None);
}

#[test]
fn each_root_is_reported_once_cargo_first_and_within_the_cap() {
    let cargo = vec![package("a", "r/a", PackageKind::Cargo), package("b", "r/b", PackageKind::Cargo)];
    let python = vec![package("a-py", "r/a", PackageKind::Python), package("c", "r/c", PackageKind::Python)];
    let options = DiscoveryOptions { max_depth: 3, max_packages: 512, max_directories: 8192 };
    let found = discover_in(cargo.clone(), python.clone(), options);
    let names: Vec<&str> = found.iter().map(|d| d.name.as_str()).collect();
    assert_eq!(names, ["a", "b", "c"]);
    let capped = discover_in(cargo, python, DiscoveryOptions { max_packages: 2, ..options });
    assert_eq!(capped.len(), 2);
}

fn dir(name: &str, files: &[&str], dirs: Vec<DirListing>) -> DirListing {
    DirListing::new(name.to_owned(), files.iter().map(|f| (*f).to_owned()).collect(), dirs)
}

#[test]
fn a_project_file_marks_a_distribution_by_precedence() {
    assert_eq!(project_file(&dir("p", &["setup.cfg", "setup.py"], Vec::new())), Some("setup.py"));
    assert_eq!(project_file(&dir("p", &["pyproject.toml", "setup.py"], Vec::new())), Some("pyproject.toml"));
    assert_eq!(project_file(&dir("p", &["main.py"], Vec::new())), None);
}

#[test]
fn a_src_layout_wins_and_keeps_its_support_named_packages() {
    let src = dir("src", &[], vec![dir("tests", &["__init__.py"], Vec::new()), dir("app", &["__init__.py"], Vec::new())]);
    let project = dir("p", &["pyproject.toml"], vec![src, dir("other", &["__init__.py"], Vec::new())]);
    assert_eq!(importable_roots(&project), vec!["src/tests".to_owned(), "src/app".to_owned()]);
}

#[test]
fn a_flat_layout_passes_over_support_and_skipped_directories() {
    let project = dir(
        "p",
        &["setup.py"],
        vec![
            dir("docs", &["__init__.py"], Vec::new()),
            dir("__pycache__", &["__init__.py"], Vec::new()),
            dir("pkg", &["__init__.py"], Vec::new()),
            dir("data", &["x.txt"], Vec::new()),
        ],
    );
    assert_eq!(importable_roots(&project), vec!["pkg".to_owned()]);
}

#[test]
fn loose_modules_root_the_project_at_itself_and_nothing_roots_nothing() {
    let loose = dir("p", &["setup.py", "tool.py"], vec![dir("src", &[], Vec::new())]);
    assert_eq!(importable_roots(&loose), vec![String::new()]);
    let dotfile = dir("p", &["pyproject.toml", ".py"], Vec::new());
    assert!(importable_roots(&dotfile).is_empty());
    assert!(holds_modules(&vec!["a.py".to_owned()]));
    assert!(!holds_modules(&vec![".py".to_owned(), "readme.md".to_owned()]));
}
