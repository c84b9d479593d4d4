use karet_seam::modules::file_name;
use karet_seam::modules::is_crate_root;
use karet_seam::modules::join;
use karet_seam::modules::module_directory;
use karet_seam::modules::parent;
use karet_seam::modules::stem;

#[test]
fn crate_roots_are_recognized_by_name() {
    assert!(is_crate_root("src/lib.rs"));
    assert!(is_crate_root("src/main.rs"));
    assert!(is_crate_root("build.rs"));
    assert!(!is_crate_root("src/model.rs"));
}

#[test]
fn a_crate_root_owns_its_own_directory() {
    assert_eq!(module_directory("src/lib.rs", true), "src");
}

#[test]
fn a_mod_file_owns_its_own_directory() {
    assert_eq!(module_directory("src/net/mod.rs", false), "src/net");
}

#[test]
fn any_other_file_owns_a_subdirectory_named_after_it() {
    assert_eq!(module_directory("src/client.rs", false), "src/client");
}

#[test]
fn path_pieces_read_from_the_last_separator() {
    assert_eq!(parent("src/net/mod.rs"), "src/net");
    assert_eq!(parent("/lib.rs"), "/");
    assert_eq!(parent("lib.rs"), "");
    assert_eq!(file_name("src/net/mod.rs"), "mod.rs");
    assert_eq!(stem("mod.rs"), "mod");
    assert_eq!(stem(".hidden"), ".hidden");
    assert_eq!(join("src", "net.rs"), "src/net.rs");
    assert_eq!(join("src/", "net.rs"), "src/net.rs");
    assert_eq!(join("", "net.rs"), "net.rs");
}

use karet_seam::modules::module_candidates;
use karet_seam::modules::settle;
use karet_seam::modules::ModuleSource;

#[test]
fn a_declaration_in_a_crate_root_looks_beside_it_then_in_a_directory() {
    let candidates = module_candidates("src/lib.rs", true, &Vec::new(), "net", None);
    assert_eq!(candidates, ["src/net.rs", "src/net/mod.rs"]);
}

#[test]
fn a_declaration_in_an_ordinary_file_looks_in_its_own_subdirectory() {
    let candidates = module_candidates("src/client.rs", false, &Vec::new(), "net", None);
    assert_eq!(candidates, ["src/client/net.rs", "src/client/net/mod.rs"]);
}

#[test]
fn an_inline_block_deepens_the_search() {
    let candidates = module_candidates("src/lib.rs", true, &vec!["outer".to_owned()], "inner", None);
    assert_eq!(candidates, ["src/outer/inner.rs", "src/outer/inner/mod.rs"]);
}

#[test]
fn a_path_attribute_is_the_only_candidate_and_anchors_to_the_file() {
    assert_eq!(
        module_candidates("src/lib.rs", true, &Vec::new(), "net", Some("\"elsewhere.rs\"")),
        ["src/elsewhere.rs"]
    );
    assert_eq!(
        module_candidates("src/convert.rs", false, &Vec::new(), "tests", Some("\"convert_tests.rs\"")),
        ["src/convert_tests.rs"]
    );
    assert_eq!(
        module_candidates("src/convert.rs", false, &vec!["inner".to_owned()], "tests", Some("\"t.rs\"")),
        ["src/convert/inner/t.rs"]
    );
}

#[test]
fn the_first_existing_candidate_wins() {
    let candidates = vec!["src/net.rs".to_owned(), "src/net/mod.rs".to_owned()];
    assert_eq!(
        settle(candidates.clone(), &vec![true, true]),
        ModuleSource::File("src/net.rs".to_owned())
    );
    assert_eq!(
        settle(candidates.clone(), &vec![false, true]),
        ModuleSource::File("src/net/mod.rs".to_owned())
    );
    assert_eq!(
        settle(candidates.clone(), &vec![false, false]),
        ModuleSource::Missing { candidates }
    );
}
