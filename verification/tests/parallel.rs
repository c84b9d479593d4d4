use karet_seam::contribution::FileStamp;
use karet_seam::discover::Discovered;
use karet_seam::discover::PackageKind;
use karet_seam::id::SeamPath;
use karet_seam::lang::python;
use karet_seam::model::NodeKind;
use karet_seam::parallel::extract_isolated;
use karet_seam::parallel::root_segments;
use karet_seam::parallel::FileUnit;
use karet_treesitter::ParserPool;

fn package(name: &str) -> Discovered {
    Discovered {
        name: name.to_owned(),
        root: format!("/repo/{name}"),
        anchor: format!("/repo/{name}/Cargo.toml"),
        kind: PackageKind::Cargo,
    }
}

#[test]
fn a_colliding_root_name_takes_the_next_free_ordinal() {
    let segments = root_segments(&vec![package("app"), package("app"), package("lib"), package("app")]);
    let written: Vec<String> = segments.iter().map(|s| s.to_text()).collect();
    assert_eq!(written, ["app", "app#2", "lib", "app#3"]);
}

#[test]
fn a_file_contributes_its_nodes_addressed_by_position() {
    let Some(language) = python::language_id() else {
        return;
    };
    let unit = FileUnit {
        file: "pkg/mod.py".to_owned(),
        owner: "pkg::mod".parse::<SeamPath>().unwrap_or_default(),
        owner_kind: NodeKind::Module,
        language,
        crate_root: false,
        depth: 1,
    };
    let stamp = FileStamp { modified_nanos: 7, len: 42 };
    let mut pool = ParserPool::new();
    let Some(contribution) = extract_isolated(
        &unit,
        stamp,
        "class Widget:\n    def render(self):\n        pass\n",
        &mut pool,
    ) else {
        panic!("a Python file extracts");
    };
    assert_eq!(contribution.file, "pkg/mod.py");
    assert_eq!(contribution.depth, 1);
    assert_eq!(contribution.nodes.len(), 2);
    assert_eq!(contribution.nodes[0].name, "Widget");
    assert_eq!(contribution.nodes[0].parent, None);
    assert_eq!(contribution.nodes[1].name, "render");
    assert_eq!(contribution.nodes[1].parent, Some(0));
    assert_eq!(
        contribution.path_of(1).map(|p| p.to_text()).as_deref(),
        Some("pkg::mod::Widget::render")
    );
}
