use karet_seam::lang::kotlin_subtype_table;
use karet_seam::lang::line_opening_body;
use karet_seam::lang::python::visibility_of;
use karet_seam::lang::rust::base_name;
use karet_seam::lang::rust::is_visibility_bearing;
use karet_seam::lang::rust::subtype_for;
use karet_seam::lang::swift;
use karet_seam::lang::kotlin;
use karet_seam::lang::swift_subtype_table;
use karet_seam::lang::typescript_subtype_table;
use karet_seam::lang::rust_subtype_table;
use karet_seam::lang::python_subtype_table;
use karet_seam::model::Lens;
use karet_seam::model::FacetSubtype;
use karet_seam::model::Visibility;

#[test]
fn a_body_on_its_own_line_leaves_that_line_out_of_the_head() {
    assert_eq!(line_opening_body("fn f()\n{}", 0, 7), Some(6));
    assert_eq!(line_opening_body("fn f() {}", 0, 7), None);
    assert_eq!(line_opening_body("{}", 0, 0), None);
}

#[test]
fn a_python_body_a_line_below_its_colon_is_cut_at_the_colons_line() {
    let text = "def f():\n    pass\n";
    assert_eq!(line_opening_body(text, 0, 13), Some(8));
    // An offset inside a character is no boundary to cut at.
    assert_eq!(line_opening_body("é\n x", 1, 3), None);
}

#[test]
fn a_plain_name_is_its_own_base() {
    assert_eq!(base_name("Widget").as_deref(), Some("Widget"));
}

#[test]
fn references_pointers_and_lifetimes_are_looked_through() {
    for text in [
        "&Widget",
        "&mut Widget",
        "&'a Widget",
        "&'a mut Widget",
        "*const Widget",
        "*mut Widget",
        "& & Widget",
    ] {
        assert_eq!(base_name(text).as_deref(), Some("Widget"), "{text}");
    }
}

#[test]
fn generics_and_qualification_are_dropped() {
    assert_eq!(base_name("Widget<T>").as_deref(), Some("Widget"));
    assert_eq!(base_name("crate::a::Widget").as_deref(), Some("Widget"));
    assert_eq!(base_name("crate::a::Widget<T, U>").as_deref(), Some("Widget"));
    assert_eq!(base_name("self::Widget").as_deref(), Some("Widget"));
}

#[test]
fn a_type_with_no_single_name_at_its_head_has_no_owner() {
    for text in [
        "(A, B)",
        "[Widget; 4]",
        "dyn Render",
        "impl Render",
        "fn(u8) -> u8",
        "Self",
        "_",
        "",
    ] {
        assert_eq!(base_name(text), None, "{text}");
    }
}

#[test]
fn a_declaration_outside_every_directive_is_ungated() {
    assert_eq!(swift::open_condition("struct S {}\n", 11), None);
}

#[test]
fn the_innermost_open_directive_is_the_one_that_gates() {
    let text = "#if os(iOS)\n#if DEBUG\nstruct S {}\n#endif\n#endif\n";
    let at = text.find("struct").unwrap_or(0);
    assert_eq!(swift::open_condition(text, at).as_deref(), Some("DEBUG"));
}

#[test]
fn a_closed_directive_gates_nothing_after_it() {
    let text = "#if DEBUG\nstruct A {}\n#endif\nstruct B {}\n";
    let at = text.find("struct B").unwrap_or(0);
    assert_eq!(swift::open_condition(text, at), None);
}

#[test]
fn an_else_branch_reads_as_the_negation_of_its_condition() {
    let text = "#if DEBUG\n#else\nstruct S {}\n#endif\n";
    let at = text.find("struct").unwrap_or(0);
    assert_eq!(swift::open_condition(text, at).as_deref(), Some("!(DEBUG)"));
}

#[test]
fn an_elseif_replaces_the_condition_it_follows() {
    let text = "#if os(iOS)\n#elseif os(macOS)\nstruct S {}\n#endif\n";
    let at = text.find("struct").unwrap_or(0);
    assert_eq!(swift::open_condition(text, at).as_deref(), Some("os(macOS)"));
    assert_eq!(swift::open_condition(text, text.len() + 1), None);
}

#[test]
fn a_base_name_looks_through_generics_and_qualification() {
    assert_eq!(swift::base_name("Widget").as_deref(), Some("Widget"));
    assert_eq!(swift::base_name("Array<Int>").as_deref(), Some("Array"));
    assert_eq!(swift::base_name("Module.Widget").as_deref(), Some("Widget"));
    assert_eq!(swift::base_name("Self"), None);
    assert_eq!(swift::base_name("[Int]"), None);
    assert_eq!(swift::base_name(""), None);
}

#[test]
fn a_kotlin_base_name_drops_nullability_generics_and_package() {
    assert_eq!(kotlin::base_name("Widget?").as_deref(), Some("Widget"));
    assert_eq!(kotlin::base_name("List<Int>").as_deref(), Some("List"));
    assert_eq!(kotlin::base_name("com.acme.Widget").as_deref(), Some("Widget"));
    assert_eq!(kotlin::base_name("(Int) -> Unit"), None);
}

#[test]
fn python_visibility_is_read_from_the_name() {
    assert_eq!(visibility_of("public"), Visibility::Public);
    assert_eq!(visibility_of("_private"), Visibility::Private);
    assert_eq!(visibility_of("__init__"), Visibility::Public);
    assert_eq!(visibility_of("__mangled"), Visibility::Private);
}

#[test]
fn each_visibility_level_names_its_api_subtype() {
    assert_eq!(subtype_for(Visibility::Public).0, "pub");
    assert_eq!(subtype_for(Visibility::Crate).0, "crate");
    assert_eq!(subtype_for(Visibility::Super).0, "super");
    assert_eq!(subtype_for(Visibility::Restricted).0, "in");
    assert_eq!(subtype_for(Visibility::Private).0, "private");
    assert!(is_visibility_bearing("struct_item"));
    assert!(!is_visibility_bearing("impl_item"));
}

fn no_duplicates(table: Vec<(Lens, FacetSubtype)>) {
    let mut seen: Vec<(&str, &str)> = table
        .iter()
        .map(|(lens, subtype)| (lens.name(), subtype.0))
        .collect();
    let count = seen.len();
    seen.sort_unstable();
    seen.dedup();
    assert_eq!(seen.len(), count);
}

#[test]
fn tests_every_declared_subtype_has_a_lens_and_no_duplicates() {
    no_duplicates(kotlin_subtype_table());
}

#[test]
fn every_declared_subtype_has_a_lens_and_no_duplicates() {
    no_duplicates(kotlin_subtype_table());
    no_duplicates(swift_subtype_table());
    no_duplicates(typescript_subtype_table());
}

#[test]
fn rust_and_python_subtype_tables_hold_no_duplicates_either() {
    no_duplicates(rust_subtype_table());
    no_duplicates(python_subtype_table());
}
