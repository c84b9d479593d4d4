use karet_seam::contribution::FileContribution;
use karet_seam::contribution::FileStamp;
use karet_seam::id::SeamPath;
use karet_seam::index::SeamIndex;
use karet_seam::parallel::assemble_package;
use karet_seam::parallel::replay_order;
use karet_seam::parallel::child_units;
use karet_seam::parallel::claim_file;
use karet_seam::parallel::record_missing;
use karet_seam::parallel::FileUnit;
use karet_seam::contribution::CachedModule;
use karet_seam::contribution::CachedNode;
use karet_seam::coord::Range;
use karet_seam::coord::Span;
use karet_seam::id::SeamSegment;
use karet_seam::modules::ModuleSource;
use karet_seam::model::NodeKind;

fn contribution(file: &str, depth: u32) -> FileContribution {
    FileContribution {
        file: file.to_owned(),
        stamp: FileStamp { modified_nanos: 0, len: 0 },
        owner: SeamPath::new(Vec::new()),
        depth,
        crate_root: false,
        nodes: Vec::new(),
        external_modules: Vec::new(),
        ownership: Vec::new(),
        unresolved: Vec::new(),
    }
}

fn order(done: Vec<FileContribution>) -> Vec<(u32, String)> {
    replay_order(done).into_iter().map(|c| (c.depth, c.file)).collect()
}

#[test]
fn replay_order_is_depth_then_file_whatever_the_finishing_order() {
    let one = vec![contribution("src/b.rs", 1), contribution("src/lib.rs", 0), contribution("src/a.rs", 1)];
    let two = vec![contribution("src/a.rs", 1), contribution("src/b.rs", 1), contribution("src/lib.rs", 0)];
    let expected = vec![
        (0, "src/lib.rs".to_owned()),
        (1, "src/a.rs".to_owned()),
        (1, "src/b.rs".to_owned()),
    ];
    assert_eq!(order(one), expected);
    assert_eq!(order(two), expected);
}

#[test]
fn a_file_cap_that_cut_the_walk_short_is_recorded() {
    let mut index = SeamIndex::new();
    let replayed = assemble_package(&mut index, vec![contribution("src/lib.rs", 0)], Some(7));
    assert_eq!(replayed.len(), 1);
    assert_eq!(index.truncated_after(), Some(7));
    let mut whole = SeamIndex::new();
    assemble_package(&mut whole, Vec::new(), None);
    assert_eq!(whole.truncated_after(), None);
}

fn module_node(name: &str) -> CachedNode {
    CachedNode {
        segment: SeamSegment::new(name.to_owned()),
        parent: None,
        kind: NodeKind::Module,
        name: name.to_owned(),
        detail: None,
        range: Range::default(),
        span: Span::default(),
        selection: Range::default(),
        header: Range::default(),
        facets: Vec::new(),
        visibility: None,
        provisional: false,
    }
}

fn declaring(modules: &[&str]) -> FileContribution {
    let mut c = contribution("src/lib.rs", 0);
    c.owner = "pkg".parse().unwrap_or_else(|_| SeamPath::new(Vec::new()));
    for (i, name) in modules.iter().enumerate() {
        c.nodes.push(module_node(name));
        c.external_modules.push(CachedModule {
            node: i as u32,
            name: (*name).to_owned(),
            inline_path: Vec::new(),
            path_attribute: None,
        });
    }
    c
}

#[test]
fn a_declared_module_file_is_walked_once_one_hop_deeper() {
    let Some(language) = karet_treesitter::language_id_from_injection_name("rust") else {
        return;
    };
    let unit = FileUnit {
        file: "src/lib.rs".to_owned(),
        owner: "pkg".parse().unwrap_or_else(|_| SeamPath::new(Vec::new())),
        owner_kind: NodeKind::Package,
        language,
        crate_root: true,
        depth: 0,
    };
    let c = declaring(&["a", "b", "c"]);
    let sources = vec![
        ModuleSource::File("src/a.rs".to_owned()),
        ModuleSource::Inline,
        ModuleSource::File("src/a.rs".to_owned()),
    ];
    let mut seen = Vec::new();
    let units = child_units(&unit, &c, &sources, &mut seen);
    assert_eq!(units.len(), 1);
    assert_eq!(units[0].file, "src/a.rs");
    assert_eq!(units[0].depth, 1);
    assert_eq!(units[0].owner.to_text(), "pkg::a");
    assert_eq!(seen, vec!["src/a.rs".to_owned()]);
}

#[test]
fn the_file_budget_refuses_once_spent() {
    let mut used = 0usize;
    assert!(claim_file(&mut used, 2));
    assert!(claim_file(&mut used, 2));
    assert!(!claim_file(&mut used, 2));
    assert_eq!(used, 3);
}

#[test]
fn a_module_with_no_file_is_recorded_and_marked_when_replayed() {
    let mut c = declaring(&["gone", "here"]);
    let sources = vec![
        ModuleSource::Missing { candidates: vec!["src/gone.rs".to_owned(), "src/gone/mod.rs".to_owned()] },
        ModuleSource::File("src/here.rs".to_owned()),
    ];
    record_missing(&mut c, &sources);
    assert_eq!(c.unresolved.len(), 1);
    assert_eq!(c.unresolved[0].0, 0);
    assert_eq!(c.unresolved[0].1.len(), 2);
    let mut index = SeamIndex::new();
    index.intern("pkg".parse().unwrap_or_else(|_| SeamPath::new(Vec::new())));
    assemble_package(&mut index, vec![c], None);
    assert_eq!(index.unresolved_modules().len(), 1);
    assert_eq!(index.unresolved_modules()[0].1, vec!["src/gone.rs".to_owned(), "src/gone/mod.rs".to_owned()]);
}
