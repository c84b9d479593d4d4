//! The `variation` lens for Rust: what changes shape before compiling.

use vstd::prelude::*;
use crate::lang::Attribute;
use crate::lang::AttrView;
use crate::lang::FacetContext;
use crate::lang::FacetView;
use crate::lang::attr_view;
use crate::lang::attr_views;
use crate::lang::bare;
use crate::lang::detailed;
use crate::lang::emit;
use crate::lang::facet_views;
use crate::lang::one_site;
use crate::lang::plain_facets;
use crate::lang::span_range;
use crate::model::Facet;
use crate::model::Lens;
use crate::syntax::ParsedNode;
use crate::syntax::child_text;
use crate::syntax::child_text_of;
use crate::text::contains_seq;
use crate::text::has_prefix;
use crate::text::str_contains;
use crate::text::str_eq;
use crate::text::str_starts_with;

verus! {

/// Attributes the compiler itself defines; any other attribute is an attribute macro.
pub open spec fn builtin_attributes() -> Seq<Seq<char>> {
    seq![
        "cfg"@, "cfg_attr"@, "derive"@, "doc"@, "allow"@, "warn"@, "deny"@, "forbid"@,
        "must_use"@, "inline"@, "repr"@, "non_exhaustive"@, "deprecated"@, "test"@, "ignore"@,
        "should_panic"@, "no_mangle"@, "export_name"@, "link"@, "link_name"@, "used"@, "path"@,
        "macro_export"@, "macro_use"@, "track_caller"@, "cold"@, "unsafe"@,
    ]
}

/// Every attribute the compiler itself defines is known as built in.
pub proof fn lemma_compiler_attributes_are_builtin()
    ensures
        forall|name: Seq<char>| #![trigger builtin_attributes().contains(name)]
            seq![
                "cfg"@, "cfg_attr"@, "derive"@, "doc"@, "allow"@, "warn"@, "deny"@, "forbid"@,
                "must_use"@, "inline"@, "repr"@, "non_exhaustive"@, "deprecated"@, "test"@, "ignore"@,
                "should_panic"@, "no_mangle"@, "export_name"@, "link"@, "link_name"@, "used"@, "path"@,
                "macro_export"@, "macro_use"@, "track_caller"@, "cold"@, "unsafe"@,
            ].contains(name) ==> builtin_attributes().contains(name),
{
    let compiler = seq![
        "cfg"@, "cfg_attr"@, "derive"@, "doc"@, "allow"@, "warn"@, "deny"@, "forbid"@,
        "must_use"@, "inline"@, "repr"@, "non_exhaustive"@, "deprecated"@, "test"@, "ignore"@,
        "should_panic"@, "no_mangle"@, "export_name"@, "link"@, "link_name"@, "used"@, "path"@,
        "macro_export"@, "macro_use"@, "track_caller"@, "cold"@, "unsafe"@,
    ];
    assert forall|name: Seq<char>| compiler.contains(name) implies builtin_attributes().contains(name) by {
        let i = choose|i: int| 0 <= i < compiler.len() && compiler[i] == name;
        assert(builtin_attributes()[i] == compiler[i]);
    }
}

/// The arguments of an attribute, or nothing.
pub open spec fn args_of(a: AttrView) -> Seq<char> {
    match a.1 {
        Some(x) => x,
        None => Seq::empty(),
    }
}

/// What one attribute says about variation, at its site: a `cfg` gate (and, when it
/// names a feature, a feature gate before it), a `cfg_attr`, a `derive`, or an
/// attribute macro named by itself.
pub open spec fn attribute_facet_spec(a: AttrView) -> Seq<FacetView> {
    let site = seq![a.2];
    if a.0 == "cfg"@ {
        (if contains_seq(args_of(a), "feature"@) {
            seq![(Lens::Variation, "feature"@, Some(args_of(a)), site)]
        } else {
            Seq::empty()
        }) + seq![(Lens::Variation, "cfg"@, Some(args_of(a)), site)]
    } else if a.0 == "cfg_attr"@ {
        seq![(Lens::Variation, "cfg-attr"@, Some(args_of(a)), site)]
    } else if a.0 == "derive"@ {
        seq![(Lens::Variation, "derive"@, Some(args_of(a)), site)]
    } else if !builtin_attributes().contains(a.0) {
        seq![(Lens::Variation, "attr-macro"@, Some(a.0), site)]
    } else {
        Seq::empty()
    }
}

/// An attribute the compiler defines is never taken for an attribute macro: `allow`,
/// `warn`, `deny`, `forbid`, `inline`, `repr`, `must_use`, `doc` and the rest yield no
/// `attr-macro` facet.
pub proof fn lemma_compiler_attributes_are_not_macros(a: AttrView)
    requires
        seq![
            "cfg"@, "cfg_attr"@, "derive"@, "doc"@, "allow"@, "warn"@, "deny"@, "forbid"@,
            "must_use"@, "inline"@, "repr"@, "non_exhaustive"@, "deprecated"@, "test"@, "ignore"@,
            "should_panic"@, "no_mangle"@, "export_name"@, "link"@, "link_name"@, "used"@, "path"@,
            "macro_export"@, "macro_use"@, "track_caller"@, "cold"@, "unsafe"@,
        ].contains(a.0),
    ensures
        forall|i: int| 0 <= i < attribute_facet_spec(a).len() ==> (#[trigger] attribute_facet_spec(a)[i]).1 != "attr-macro"@,
{
    reveal_strlit("attr-macro");
    reveal_strlit("feature");
    reveal_strlit("cfg");
    reveal_strlit("cfg-attr");
    reveal_strlit("derive");
    lemma_compiler_attributes_are_builtin();
    assert(builtin_attributes().contains(a.0));
    assert("attr-macro"@.len() == 10);
    assert("feature"@[0] != "attr-macro"@[0]);
    assert("cfg"@.len() != "attr-macro"@.len());
    assert("cfg-attr"@.len() != "attr-macro"@.len());
    assert("derive"@.len() != "attr-macro"@.len());
}

/// What the attributes say about variation, in order.
pub open spec fn attributes_spec(attrs: Seq<AttrView>) -> Seq<FacetView>
    decreases attrs.len(),
{
    if attrs.len() == 0 {
        Seq::empty()
    } else {
        attributes_spec(attrs.drop_last()) + attribute_facet_spec(attrs.last())
    }
}

/// The attributes that make a function a procedural-macro entry point.
pub open spec fn proc_macro_names() -> Seq<Seq<char>> {
    seq!["proc_macro"@, "proc_macro_derive"@, "proc_macro_attribute"@]
}

/// The first attribute among `attrs` naming a procedural-macro entry point.
pub open spec fn first_proc_macro(attrs: Seq<AttrView>) -> Option<Seq<char>>
    decreases attrs.len(),
{
    if attrs.len() == 0 {
        None
    } else if proc_macro_names().contains(attrs[0].0) {
        Some(attrs[0].0)
    } else {
        first_proc_macro(attrs.drop_first())
    }
}

/// An entity's variation: what its attributes say, a `macro_rules!` definition, and a
/// function wearing a procedural-macro attribute.
pub open spec fn variation_spec(node: ParsedNode, attrs: Seq<AttrView>) -> Seq<FacetView> {
    attributes_spec(attrs)
        + (if node.kind@ == "macro_definition"@ {
            seq![bare(Lens::Variation, "macro-def"@), bare(Lens::Variation, "macro-rules"@)]
        } else {
            Seq::empty()
        })
        + (if node.kind@ == "function_item"@ {
            match first_proc_macro(attrs) {
                Some(n) => seq![detailed(Lens::Variation, "proc-macro"@, n), bare(Lens::Variation, "macro-def"@)],
                None => Seq::empty(),
            }
        } else {
            Seq::empty()
        })
}

/// Whether `name` is a built-in attribute.
fn is_builtin(name: &str) -> (r: bool)
    ensures
        r == builtin_attributes().contains(name@),
{
    let names = vec![
        "cfg", "cfg_attr", "derive", "doc", "allow", "warn", "deny", "forbid",
        "must_use", "inline", "repr", "non_exhaustive", "deprecated", "test", "ignore",
        "should_panic", "no_mangle", "export_name", "link", "link_name", "used", "path",
        "macro_export", "macro_use", "track_caller", "cold", "unsafe",
    ];
    assert(names@.map_values(|k: &str| k@) =~= builtin_attributes());
    let mut i: usize = 0;
    while i < names.len()
        invariant
            i <= names@.len(),
            names@.map_values(|k: &str| k@) == builtin_attributes(),
            forall|j: int| 0 <= j < i ==> names@[j]@ != name@,
        decreases names.len() - i,
    {
        if str_eq(names[i], name) {
            assert(builtin_attributes()[i as int] == name@);
            return true;
        }
        i = i + 1;
    }
    assert forall|j: int| 0 <= j < builtin_attributes().len() implies builtin_attributes()[j] != name@ by {
        assert(builtin_attributes()[j] == names@[j]@);
    }
    false
}

/// Push what one attribute says about variation.
fn attribute_facets(a: &Attribute, out: &mut Vec<Facet>)
    requires
        plain_facets(old(out)@),
    ensures
        plain_facets(final(out)@),
        facet_views(final(out)@) == facet_views(old(out)@) + attribute_facet_spec(attr_view(*a)),
{
    proof {
        reveal_strlit("feature");
    }
    let ghost before = facet_views(out@);
    let args = a.args().to_string();
    assert(args@ == args_of(attr_view(*a)));
    let name = a.name.as_str();
    if str_eq(name, "cfg") {
        if str_contains(args.as_str(), "feature") {
            emit(out, Lens::Variation, "feature", Some(args.clone()), one_site(a.range));
        }
        emit(out, Lens::Variation, "cfg", Some(args), one_site(a.range));
    } else if str_eq(name, "cfg_attr") {
        emit(out, Lens::Variation, "cfg-attr", Some(args), one_site(a.range));
    } else if str_eq(name, "derive") {
        emit(out, Lens::Variation, "derive", Some(args), one_site(a.range));
    } else if !is_builtin(name) {
        emit(out, Lens::Variation, "attr-macro", Some(a.name.clone()), one_site(a.range));
    }
    assert(facet_views(out@) =~= before + attribute_facet_spec(attr_view(*a)));
}

/// The first attribute naming a procedural-macro entry point.
fn proc_macro_name(attributes: &[Attribute]) -> (r: Option<String>)
    ensures
        match r {
            Some(n) => first_proc_macro(attr_views(attributes@)) == Some(n@),
            None => first_proc_macro(attr_views(attributes@)) is None,
        },
{
    let ghost attrs = attr_views(attributes@);
    let mut k: usize = 0;
    assert(attrs.skip(0) =~= attrs);
    while k < attributes.len()
        invariant
            k <= attributes@.len(),
            attrs == attr_views(attributes@),
            first_proc_macro(attrs) == first_proc_macro(attrs.skip(k as int)),
        decreases attributes.len() - k,
    {
        let n = attributes[k].name.as_str();
        assert(attrs.skip(k as int)[0] == attrs[k as int]);
        assert(attrs.skip(k as int).drop_first() =~= attrs.skip(k + 1));
        if str_eq(n, "proc_macro") || str_eq(n, "proc_macro_derive") || str_eq(n, "proc_macro_attribute") {
            assert(proc_macro_names()[0] == "proc_macro"@);
            assert(proc_macro_names()[1] == "proc_macro_derive"@);
            assert(proc_macro_names()[2] == "proc_macro_attribute"@);
            assert(proc_macro_names().contains(n@));
            return Some(attributes[k].name.clone());
        }
        assert(!proc_macro_names().contains(n@)) by {
            if proc_macro_names().contains(n@) {
                let j = choose|j: int| 0 <= j < proc_macro_names().len() && proc_macro_names()[j] == n@;
                assert(j == 0 || j == 1 || j == 2);
            }
        }
        k = k + 1;
    }
    assert(attrs.skip(k as int).len() == 0);
    None
}

/// Push an entity's variation.
pub fn facets(node: &ParsedNode, ctx: &FacetContext, out: &mut Vec<Facet>)
    requires
        plain_facets(old(out)@),
    ensures
        plain_facets(final(out)@),
        facet_views(final(out)@) == facet_views(old(out)@) + variation_spec(*node, attr_views(ctx.attributes@)),
{
    let ghost before = facet_views(out@);
    let ghost attrs = attr_views(ctx.attributes@);
    let mut i: usize = 0;
    assert(attrs.take(0) =~= Seq::<AttrView>::empty());
    assert(before + Seq::<FacetView>::empty() =~= before);
    while i < ctx.attributes.len()
        invariant
            i <= ctx.attributes@.len(),
            attrs == attr_views(ctx.attributes@),
            plain_facets(out@),
            facet_views(out@) == before + attributes_spec(attrs.take(i as int)),
        decreases ctx.attributes.len() - i,
    {
        let ghost mid = facet_views(out@);
        attribute_facets(&ctx.attributes[i], out);
        proof {
            assert(attrs.take(i + 1).drop_last() =~= attrs.take(i as int));
            assert(attrs.take(i + 1).last() == attr_view(ctx.attributes@[i as int]));
        }
        assert(facet_views(out@) =~= before + attributes_spec(attrs.take(i + 1)));
        i = i + 1;
    }
    assert(attrs.take(i as int) =~= attrs);
    let ghost mid = facet_views(out@);
    if str_eq(node.kind.as_str(), "macro_definition") {
        emit(out, Lens::Variation, "macro-def", None, Vec::new());
        emit(out, Lens::Variation, "macro-rules", None, Vec::new());
    }
    let ghost md: Seq<FacetView> = if node.kind@ == "macro_definition"@ {
        seq![bare(Lens::Variation, "macro-def"@), bare(Lens::Variation, "macro-rules"@)]
    } else {
        Seq::empty()
    };
    assert(facet_views(out@) =~= mid + md);
    let ghost mid2 = facet_views(out@);
    if str_eq(node.kind.as_str(), "function_item") {
        match proc_macro_name(ctx.attributes) {
            Some(name) => {
                emit(out, Lens::Variation, "proc-macro", Some(name), Vec::new());
                emit(out, Lens::Variation, "macro-def", None, Vec::new());
            },
            None => {},
        }
    }
    assert(facet_views(out@) =~= before + variation_spec(*node, attrs));
}

/// A macro invocation, as a site on the enclosing entity: an `include!`-family
/// invocation pulling in generated source, or a call of any other macro, named.
pub open spec fn variation_interior_spec(node: ParsedNode, s: Seq<char>) -> Seq<FacetView> {
    if node.kind@ == "macro_invocation"@ {
        match child_text_of(node, "macro"@, s) {
            Some(n) => seq![(
                Lens::Variation,
                if has_prefix(n, "include"@) { "include"@ } else { "macro-call"@ },
                Some(n),
                seq![span_range(s, node.start as int, node.end as int)],
            )],
            None => Seq::empty(),
        }
    } else {
        Seq::empty()
    }
}

/// Push a macro invocation's site.
pub fn interior_facets(node: &ParsedNode, ctx: &FacetContext, out: &mut Vec<Facet>)
    requires
        ctx.source.wf(),
        plain_facets(old(out)@),
    ensures
        plain_facets(final(out)@),
        facet_views(final(out)@) == facet_views(old(out)@) + variation_interior_spec(*node, ctx.source.text()),
{
    proof {
        reveal_strlit("macro");
    }
    let ghost before = facet_views(out@);
    if !str_eq(node.kind.as_str(), "macro_invocation") {
        assert(before + Seq::<FacetView>::empty() =~= before);
        return;
    }
    match child_text(node, "macro", ctx.source) {
        Some(n) => {
            let site = one_site(ctx.range(node.start, node.end));
            if str_starts_with(n.as_str(), "include") {
                emit(out, Lens::Variation, "include", Some(n), site);
            } else {
                emit(out, Lens::Variation, "macro-call", Some(n), site);
            }
            assert(facet_views(out@) =~= before + variation_interior_spec(*node, ctx.source.text()));
        },
        None => {
            assert(before + Seq::<FacetView>::empty() =~= before);
        },
    }
}

} // verus!
