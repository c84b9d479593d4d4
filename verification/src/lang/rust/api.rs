//! The `api` lens for Rust: what is visible from outside.

use vstd::prelude::*;
use crate::lang::FacetContext;
use crate::lang::FacetView;
use crate::lang::emit;
use crate::lang::one_site;
use crate::lang::facet_views;
use crate::lang::joined_words;
use crate::lang::plain_facets;
use crate::lang::span_range;
use crate::lang::words_joined;
use crate::lang::rust::declared_visibility;
use crate::lang::rust::declared_visibility_of;
use crate::lang::rust::subtype_for;
use crate::model::Facet;
use crate::model::Lens;
use crate::model::Visibility;
use crate::syntax::ParsedNode;
use crate::syntax::child_of_kind;
use crate::syntax::child_text;
use crate::syntax::child_text_of;
use crate::syntax::first_of_kind;
use crate::syntax::node_text;
use crate::syntax::node_text_of;
use crate::text::str_eq;

verus! {

/// The `api` subtype naming a visibility level.
pub open spec fn visibility_subtype(v: Visibility) -> Seq<char> {
    match v {
        Visibility::Public => "pub"@,
        Visibility::Crate => "crate"@,
        Visibility::Super => "super"@,
        Visibility::Restricted => "in"@,
        Visibility::Private => "private"@,
    }
}

/// An entity's `api` facet: its declared level, with the modifier as written for
/// detail. None for a construct that cannot carry a level, nor for a `use`, which is
/// reported on the module performing it instead.
pub open spec fn api_spec(node: ParsedNode, s: Seq<char>) -> Seq<FacetView> {
    match declared_visibility_of(node) {
        None => Seq::empty(),
        Some(v) => if node.kind@ == "use_declaration"@ {
            Seq::empty()
        } else {
            let detail = match first_of_kind(node.children@, "visibility_modifier"@) {
                Some(m) => node_text_of(m, s),
                None => None,
            };
            seq![(Lens::Api, visibility_subtype(v), detail, Seq::empty())]
        },
    }
}

/// Push an entity's `api` facet.
pub fn facets(node: &ParsedNode, ctx: &FacetContext, out: &mut Vec<Facet>)
    requires
        ctx.source.wf(),
        plain_facets(old(out)@),
    ensures
        plain_facets(final(out)@),
        facet_views(final(out)@) == facet_views(old(out)@) + api_spec(*node, ctx.source.text()),
{
    let ghost before = facet_views(out@);
    let visibility = match declared_visibility(node) {
        Some(v) => v,
        None => {
            assert(before + Seq::<FacetView>::empty() =~= before);
            return;
        },
    };
    if str_eq(node.kind.as_str(), "use_declaration") {
        assert(before + Seq::<FacetView>::empty() =~= before);
        return;
    }
    let detail = match child_of_kind(node, "visibility_modifier") {
        Some(m) => node_text(m, ctx.source),
        None => None,
    };
    let subtype = subtype_for(visibility);
    emit(out, Lens::Api, subtype.0, detail, Vec::new());
    assert(facet_views(out@) =~= before + api_spec(*node, ctx.source.text()));
}

/// The re-export a `pub use` performs, as a site on the module performing it: its
/// argument, words joined by single spaces. A private `use` is an import and widens
/// nothing.
pub open spec fn reexport_spec(node: ParsedNode, s: Seq<char>) -> Seq<FacetView> {
    if node.kind@ == "use_declaration"@ && declared_visibility_of(node) != Some(Visibility::Private) {
        match child_text_of(node, "argument"@, s) {
            Some(a) => seq![(Lens::Api, "reexport"@, Some(joined_words(a)), seq![span_range(s, node.start as int, node.end as int)])],
            None => Seq::empty(),
        }
    } else {
        Seq::empty()
    }
}

/// Push the re-export a `pub use` performs.
pub fn interior_facets(node: &ParsedNode, ctx: &FacetContext, out: &mut Vec<Facet>)
    requires
        ctx.source.wf(),
        plain_facets(old(out)@),
    ensures
        plain_facets(final(out)@),
        facet_views(final(out)@) == facet_views(old(out)@) + reexport_spec(*node, ctx.source.text()),
{
    proof {
        reveal_strlit("argument");
    }
    let ghost before = facet_views(out@);
    if !str_eq(node.kind.as_str(), "use_declaration") {
        assert(before + Seq::<FacetView>::empty() =~= before);
        return;
    }
    match declared_visibility(node) {
        Some(Visibility::Private) => {
            assert(before + Seq::<FacetView>::empty() =~= before);
            return;
        },
        _ => {},
    }
    match child_text(node, "argument", ctx.source) {
        Some(a) => {
            let detail = words_joined(a.as_str());
            let site = ctx.range(node.start, node.end);
            emit(out, Lens::Api, "reexport", Some(detail), one_site(site));
            assert(facet_views(out@) =~= before + reexport_spec(*node, ctx.source.text()));
        },
        None => {
            assert(before + Seq::<FacetView>::empty() =~= before);
        },
    }
}

} // verus!
