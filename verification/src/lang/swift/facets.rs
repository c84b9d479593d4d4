//! The five lenses for Swift.

use vstd::prelude::*;
use crate::config::predicate::trim;
use crate::coord::Range;
use crate::lang::FacetContext;
use crate::lang::FacetView;
use crate::lang::bare;
use crate::lang::cut;
use crate::lang::cut_at;
use crate::lang::detailed;
use crate::lang::emit;
use crate::lang::facet_views;
use crate::lang::one_site;
use crate::lang::plain_facets;
use crate::lang::span_range;
use crate::lang::kotlin::last_word;
use crate::lang::kotlin::last_word_of;
use crate::lang::kotlin::modifier;
use crate::lang::kotlin::modifier_of;
use crate::lang::kotlin::facets::strip_ats;
use crate::lang::kotlin::facets::strip_prefixes;
use crate::lang::kotlin::facets::without_ats;
use crate::lang::kotlin::facets::without_imports;
use crate::lang::swift::conformances;
use crate::lang::swift::conformances_of;
use crate::lang::swift::extended_of;
use crate::lang::swift::is_extension;
use crate::lang::swift::keyword;
use crate::lang::swift::open_condition_in;
use crate::lang::swift::open_condition_of;
use crate::model::Facet;
use crate::model::Lens;
use crate::model::NodeKind;
use crate::syntax::ParsedNode;
use crate::syntax::child_of_kind;
use crate::syntax::child_text;
use crate::syntax::first_of_kind;
use crate::syntax::node_text;
use crate::syntax::node_text_of;
use crate::text::chars_of;
use crate::text::contains_seq;
use crate::text::has_prefix;
use crate::text::push_str;
use crate::text::str_contains;
use crate::text::str_eq;
use crate::text::str_starts_with;
use crate::text::string_of;

verus! {

// --- attributes -----------------------------------------------------------------------

/// An attribute's name: without its `@`, up to its arguments or a space.
pub open spec fn attribute_name(t: Seq<char>) -> Seq<char> {
    cut_at(strip_ats(t), seq!['(', ' '])
}

/// The names and sites of the attributes among `cs`, in order.
pub open spec fn attributes_in(cs: Seq<ParsedNode>, s: Seq<char>) -> Seq<(Seq<char>, Range)>
    decreases cs.len(),
{
    if cs.len() == 0 {
        Seq::empty()
    } else {
        attributes_in(cs.drop_last(), s) + if cs.last().kind@ == "attribute"@ {
            match node_text_of(cs.last(), s) {
                Some(t) => seq![(attribute_name(t), span_range(s, cs.last().start as int, cs.last().end as int))],
                None => Seq::empty(),
            }
        } else {
            Seq::empty()
        }
    }
}

/// Every attribute on a declaration, without its `@` or its arguments.
pub open spec fn attributes_of(node: ParsedNode, s: Seq<char>) -> Seq<(Seq<char>, Range)> {
    match first_of_kind(node.children@, "modifiers"@) {
        Some(m) => attributes_in(m.children@, s),
        None => Seq::empty(),
    }
}

/// Every attribute on a declaration.
fn attributes(node: &ParsedNode, ctx: &FacetContext) -> (r: Vec<(String, Range)>)
    requires
        ctx.source.wf(),
    ensures
        r@.map_values(|a: (String, Range)| (a.0@, a.1)) == attributes_of(*node, ctx.source.text()),
{
    let mut out: Vec<(String, Range)> = Vec::new();
    let m = match child_of_kind(node, "modifiers") {
        Some(m) => m,
        None => {
            assert(out@.map_values(|a: (String, Range)| (a.0@, a.1)) =~= Seq::<(Seq<char>, Range)>::empty());
            return out;
        },
    };
    let ghost cs = m.children@;
    let ghost s = ctx.source.text();
    let mut i: usize = 0;
    assert(out@.map_values(|a: (String, Range)| (a.0@, a.1)) =~= attributes_in(cs.take(0), s));
    while i < m.children.len()
        invariant
            i <= cs.len(),
            cs == m.children@,
            s == ctx.source.text(),
            ctx.source.wf(),
            out@.map_values(|a: (String, Range)| (a.0@, a.1)) == attributes_in(cs.take(i as int), s),
        decreases m.children.len() - i,
    {
        let c = &m.children[i];
        let ghost before = out@;
        assert(cs.take(i + 1).drop_last() =~= cs.take(i as int));
        assert(cs.take(i + 1).last() == *c);
        if str_eq(c.kind.as_str(), "attribute") {
            match node_text(c, ctx.source) {
                Some(t) => {
                    let stops = vec!['(', ' '];
                    assert(stops@ =~= seq!['(', ' ']);
                    let name = string_of(cut(&without_ats(&chars_of(t.as_str())), stops.as_slice()).as_slice());
                    let entry = (name, ctx.range(c.start, c.end));
                    out.push(entry);
                    assert(out@.map_values(|a: (String, Range)| (a.0@, a.1))
                        =~= before.map_values(|a: (String, Range)| (a.0@, a.1)).push((entry.0@, entry.1)));
                },
                None => {},
            }
        }
        i = i + 1;
    }
    assert(cs.take(i as int) =~= cs);
    out
}

/// The boundary subtype an attribute marks, if the boundary lens claims it.
pub open spec fn boundary_kind(name: Seq<char>) -> Option<Seq<char>> {
    if name == "_cdecl"@ {
        Some("c-entry"@)
    } else if name == "objc"@ {
        Some("objc"@)
    } else if name == "_silgen_name"@ {
        Some("silgen-name"@)
    } else if name == "main"@ {
        Some("entry-point"@)
    } else {
        None
    }
}

/// The variation subtype an attribute not claimed by the boundary lens marks.
pub open spec fn variation_kind(name: Seq<char>) -> Seq<char> {
    if name == "available"@ {
        "availability"@
    } else if name == "propertyWrapper"@ {
        "property-wrapper"@
    } else {
        "attribute"@
    }
}

/// The facets the attributes among `ans` contribute to a lens: to boundary those it
/// claims, to variation the others; each as `@name` at its site.
pub open spec fn attribute_facets(ans: Seq<(Seq<char>, Range)>, boundary: bool) -> Seq<FacetView>
    decreases ans.len(),
{
    if ans.len() == 0 {
        Seq::empty()
    } else {
        let a = ans.last();
        attribute_facets(ans.drop_last(), boundary) + match boundary_kind(a.0) {
            Some(k) => if boundary {
                seq![(Lens::Boundary, k, Some("@"@ + a.0), seq![a.1])]
            } else {
                Seq::empty()
            },
            None => if boundary {
                Seq::empty()
            } else {
                seq![(Lens::Variation, variation_kind(a.0), Some("@"@ + a.0), seq![a.1])]
            },
        }
    }
}

/// Push the facets [`attribute_facets`] describes.
fn push_attributes(ans: &Vec<(String, Range)>, boundary: bool, out: &mut Vec<Facet>)
    requires
        plain_facets(old(out)@),
    ensures
        plain_facets(final(out)@),
        facet_views(final(out)@) == facet_views(old(out)@)
            + attribute_facets(ans@.map_values(|a: (String, Range)| (a.0@, a.1)), boundary),
{
    proof {
        reveal_strlit("@");
    }
    let ghost before = facet_views(out@);
    let ghost v = ans@.map_values(|a: (String, Range)| (a.0@, a.1));
    let mut i: usize = 0;
    assert(v.take(0) =~= Seq::<(Seq<char>, Range)>::empty());
    assert(before + Seq::<FacetView>::empty() =~= before);
    while i < ans.len()
        invariant
            i <= ans@.len(),
            v == ans@.map_values(|a: (String, Range)| (a.0@, a.1)),
            plain_facets(out@),
            facet_views(out@) == before + attribute_facets(v.take(i as int), boundary),
        decreases ans.len() - i,
    {
        assert(v.take(i + 1).drop_last() =~= v.take(i as int));
        assert(v.take(i + 1).last() == (ans@[i as int].0@, ans@[i as int].1));
        let name = ans[i].0.as_str();
        let mut d = "@".to_string();
        push_str(&mut d, name);
        let c = str_eq(name, "_cdecl");
        let o = str_eq(name, "objc");
        let g = str_eq(name, "_silgen_name");
        let m = str_eq(name, "main");
        if boundary {
            if c {
                emit(out, Lens::Boundary, "c-entry", Some(d), one_site(ans[i].1));
            } else if o {
                emit(out, Lens::Boundary, "objc", Some(d), one_site(ans[i].1));
            } else if g {
                emit(out, Lens::Boundary, "silgen-name", Some(d), one_site(ans[i].1));
            } else if m {
                emit(out, Lens::Boundary, "entry-point", Some(d), one_site(ans[i].1));
            }
        } else if !(c || o || g || m) {
            if str_eq(name, "available") {
                emit(out, Lens::Variation, "availability", Some(d), one_site(ans[i].1));
            } else if str_eq(name, "propertyWrapper") {
                emit(out, Lens::Variation, "property-wrapper", Some(d), one_site(ans[i].1));
            } else {
                emit(out, Lens::Variation, "attribute", Some(d), one_site(ans[i].1));
            }
        }
        assert(facet_views(out@) =~= before + attribute_facets(v.take(i + 1), boundary));
        i = i + 1;
    }
    assert(v.take(i as int) =~= v);
}

// --- the lenses ---------------------------------------------------------------------

/// What is visible from outside: the declared level, and `internal (default)` for an
/// unmarked declaration, so a reader sees that it was never widened.
pub open spec fn api_spec(node: ParsedNode, s: Seq<char>) -> Seq<FacetView> {
    match modifier_of(node, s, "visibility_modifier"@) {
        Some(t) => if t == "open"@ {
            seq![detailed(Lens::Api, "open"@, "open"@)]
        } else if t == "public"@ {
            seq![detailed(Lens::Api, "public"@, "public"@)]
        } else if t == "fileprivate"@ {
            seq![detailed(Lens::Api, "fileprivate"@, "fileprivate"@)]
        } else if t == "private"@ {
            seq![detailed(Lens::Api, "private"@, "private"@)]
        } else {
            seq![detailed(Lens::Api, "internal"@, "internal (default)"@)]
        },
        None => seq![detailed(Lens::Api, "internal"@, "internal (default)"@)],
    }
}

/// A declaration's text up to its body.
pub open spec fn header_of(node: ParsedNode, s: Seq<char>) -> Seq<char> {
    cut_at(match node_text_of(node, s) {
        Some(t) => t,
        None => Seq::empty(),
    }, seq!['{'])
}

/// One facet per conformance, with the protocol as its detail.
pub open spec fn conformance_facets(ps: Seq<Seq<char>>) -> Seq<FacetView> {
    ps.map_values(|p: Seq<char>| detailed(Lens::Substitution, "conformance"@, p))
}

/// What behaviour can be swapped: a protocol, an associated type, a requirement, an
/// extension (with the type it extends); each conformance; `override`; a method written
/// in an extension, a default a conformer may replace; and `some`/`any` types in the
/// header.
pub open spec fn substitution_spec(node: ParsedNode, s: Seq<char>, container: Option<NodeKind>) -> Seq<FacetView> {
    kind_substitution(node, s) + conformance_facets(conformances_of(node, s)) + further_substitution(node, s, container)
}

/// The substitution point a declaration's own kind makes it.
pub open spec fn kind_substitution(node: ParsedNode, s: Seq<char>) -> Seq<FacetView> {
    let k = node.kind@;
    if k == "protocol_declaration"@ {
        seq![bare(Lens::Substitution, "protocol"@)]
    } else if k == "associatedtype_declaration"@ {
        seq![bare(Lens::Substitution, "assoc-type"@)]
    } else if k == "protocol_function_declaration"@ {
        seq![bare(Lens::Substitution, "requirement"@)]
    } else if is_extension(node, s) {
        seq![detailed(Lens::Substitution, "extension"@, extended_of(node, s))]
    } else {
        Seq::empty()
    }
}

/// `override`, a default in an extension, and `some`/`any` types in the header.
pub open spec fn further_substitution(node: ParsedNode, s: Seq<char>, container: Option<NodeKind>) -> Seq<FacetView> {
    let header = header_of(node, s);
    (if modifier_of(node, s, "member_modifier"@) == Some("override"@) {
        seq![bare(Lens::Substitution, "override"@)]
    } else {
        Seq::empty()
    }) + (if node.kind@ == "function_declaration"@ && container == Some(NodeKind::Implementation) {
        seq![detailed(Lens::Substitution, "protocol-default"@, "in an extension"@)]
    } else {
        Seq::empty()
    }) + (if contains_seq(header, "some "@) {
        seq![bare(Lens::Substitution, "opaque-type"@)]
    } else {
        Seq::empty()
    }) + if contains_seq(header, "any "@) {
        seq![bare(Lens::Substitution, "existential"@)]
    } else {
        Seq::empty()
    }
}

/// What changes shape before compiling: the `#if` open around it, then its attributes
/// that the boundary lens does not claim.
pub open spec fn variation_spec(node: ParsedNode, s: Seq<char>) -> Seq<FacetView> {
    (match open_condition_of(s, node.start as int) {
        Some(c) => seq![detailed(Lens::Variation, "compilation-condition"@, c)],
        None => Seq::empty(),
    }) + attribute_facets(attributes_of(node, s), false)
}

/// What crosses the package line: `@_cdecl`, `@objc`, `@_silgen_name`, `@main`.
pub open spec fn boundary_spec(node: ParsedNode, s: Seq<char>) -> Seq<FacetView> {
    attribute_facets(attributes_of(node, s), true)
}

/// Whether any of `cs` is of `kind`.
pub open spec fn has_child_kind(cs: Seq<ParsedNode>, kind: Seq<char>) -> bool {
    first_of_kind(cs, kind) is Some
}

/// Where substitution is dangerous: `async`, `throws`, an unsafe pointer type, and an
/// `@unchecked` conformance, read from the header.
pub open spec fn hazard_spec(node: ParsedNode, s: Seq<char>) -> Seq<FacetView> {
    let header = header_of(node, s);
    (if contains_seq(header, " async"@) {
        seq![bare(Lens::Hazard, "async"@)]
    } else {
        Seq::empty()
    }) + (if has_child_kind(node.children@, "throws"@) {
        seq![bare(Lens::Hazard, "throwing"@)]
    } else {
        Seq::empty()
    }) + (if contains_seq(header, "Unsafe"@) {
        seq![detailed(Lens::Hazard, "unsafe-pointer"@, "unsafe pointer type"@)]
    } else {
        Seq::empty()
    }) + if contains_seq(header, "@unchecked"@) {
        seq![detailed(Lens::Hazard, "unchecked"@, "@unchecked Sendable"@)]
    } else {
        Seq::empty()
    }
}

/// Every facet an entity carries, lens by lens.
pub open spec fn entity_spec(node: ParsedNode, s: Seq<char>, container: Option<NodeKind>) -> Seq<FacetView> {
    api_spec(node, s) + substitution_spec(node, s, container) + variation_spec(node, s) + boundary_spec(node, s) + hazard_spec(node, s)
}

/// Push an entity's `api` facet.
fn api(node: &ParsedNode, ctx: &FacetContext, out: &mut Vec<Facet>)
    requires
        ctx.source.wf(),
        plain_facets(old(out)@),
    ensures
        plain_facets(final(out)@),
        facet_views(final(out)@) == facet_views(old(out)@) + api_spec(*node, ctx.source.text()),
{
    let ghost before = facet_views(out@);
    match modifier(node, ctx, "visibility_modifier") {
        Some(t) => if str_eq(t.as_str(), "open") {
            emit(out, Lens::Api, "open", Some("open".to_string()), Vec::new());
        } else if str_eq(t.as_str(), "public") {
            emit(out, Lens::Api, "public", Some("public".to_string()), Vec::new());
        } else if str_eq(t.as_str(), "fileprivate") {
            emit(out, Lens::Api, "fileprivate", Some("fileprivate".to_string()), Vec::new());
        } else if str_eq(t.as_str(), "private") {
            emit(out, Lens::Api, "private", Some("private".to_string()), Vec::new());
        } else {
            emit(out, Lens::Api, "internal", Some("internal (default)".to_string()), Vec::new());
        },
        None => {
            emit(out, Lens::Api, "internal", Some("internal (default)".to_string()), Vec::new());
        },
    }
    assert(facet_views(out@) =~= before + api_spec(*node, ctx.source.text()));
}

/// A declaration's text up to its body.
fn header(node: &ParsedNode, ctx: &FacetContext) -> (r: String)
    requires
        ctx.source.wf(),
    ensures
        r@ == header_of(*node, ctx.source.text()),
{
    let text = match node_text(node, ctx.source) {
        Some(t) => t,
        None => String::new(),
    };
    let stops = vec!['{'];
    assert(stops@ =~= seq!['{']);
    string_of(cut(&chars_of(text.as_str()), stops.as_slice()).as_slice())
}

/// Push the substitution point the declaration's kind makes it.
fn by_kind(node: &ParsedNode, ctx: &FacetContext, out: &mut Vec<Facet>)
    requires
        ctx.source.wf(),
        plain_facets(old(out)@),
    ensures
        plain_facets(final(out)@),
        facet_views(final(out)@) == facet_views(old(out)@) + kind_substitution(*node, ctx.source.text()),
{
    proof {
        reveal_strlit("name");
    }
    let ghost before = facet_views(out@);
    let k = node.kind.as_str();
    if str_eq(k, "protocol_declaration") {
        emit(out, Lens::Substitution, "protocol", None, Vec::new());
    } else if str_eq(k, "associatedtype_declaration") {
        emit(out, Lens::Substitution, "assoc-type", None, Vec::new());
    } else if str_eq(k, "protocol_function_declaration") {
        emit(out, Lens::Substitution, "requirement", None, Vec::new());
    } else if str_eq(k, "class_declaration") && str_eq(keyword(node, ctx).as_str(), "extension") {
        let detail = match child_text(node, "name", ctx.source) {
            Some(t) => string_of(crate::lang::trimmed(&chars_of(t.as_str())).as_slice()),
            None => String::new(),
        };
        emit(out, Lens::Substitution, "extension", Some(detail), Vec::new());
    }
    assert(facet_views(out@) =~= before + kind_substitution(*node, ctx.source.text()));
}

/// Push one facet per conformance.
fn by_conformance(node: &ParsedNode, ctx: &FacetContext, out: &mut Vec<Facet>)
    requires
        ctx.source.wf(),
        plain_facets(old(out)@),
    ensures
        plain_facets(final(out)@),
        facet_views(final(out)@) == facet_views(old(out)@) + conformance_facets(conformances_of(*node, ctx.source.text())),
{
    let ghost m1 = facet_views(out@);
    let conf = conformances(node, ctx);
    let ghost cv = conf@.map_values(|t: String| t@);
    let mut i: usize = 0;
    assert(conformance_facets(cv.take(0)) =~= Seq::<FacetView>::empty());
    assert(m1 + Seq::<FacetView>::empty() =~= m1);
    while i < conf.len()
        invariant
            i <= conf@.len(),
            cv == conf@.map_values(|t: String| t@),
            plain_facets(out@),
            facet_views(out@) == m1 + conformance_facets(cv.take(i as int)),
        decreases conf.len() - i,
    {
        assert(cv[i as int] == conf@[i as int]@);
        emit(out, Lens::Substitution, "conformance", Some(conf[i].clone()), Vec::new());
        assert(conformance_facets(cv.take(i + 1)) =~= conformance_facets(cv.take(i as int)).push(detailed(Lens::Substitution, "conformance"@, cv[i as int])));
        assert(facet_views(out@) =~= m1 + conformance_facets(cv.take(i + 1)));
        i = i + 1;
    }
    assert(cv.take(i as int) =~= cv);
}

/// Push `override`, a default in an extension, and `some`/`any` types.
fn further(node: &ParsedNode, ctx: &FacetContext, out: &mut Vec<Facet>)
    requires
        ctx.source.wf(),
        plain_facets(old(out)@),
    ensures
        plain_facets(final(out)@),
        facet_views(final(out)@) == facet_views(old(out)@) + further_substitution(*node, ctx.source.text(), ctx.container),
{
    let ghost before = facet_views(out@);
    match modifier(node, ctx, "member_modifier") {
        Some(t) => if str_eq(t.as_str(), "override") {
            emit(out, Lens::Substitution, "override", None, Vec::new());
        },
        None => {},
    }
    if str_eq(node.kind.as_str(), "function_declaration") && ctx.container == Some(NodeKind::Implementation) {
        emit(out, Lens::Substitution, "protocol-default", Some("in an extension".to_string()), Vec::new());
    }
    let h = header(node, ctx);
    if str_contains(h.as_str(), "some ") {
        emit(out, Lens::Substitution, "opaque-type", None, Vec::new());
    }
    if str_contains(h.as_str(), "any ") {
        emit(out, Lens::Substitution, "existential", None, Vec::new());
    }
    assert(facet_views(out@) =~= before + further_substitution(*node, ctx.source.text(), ctx.container));
}

/// Push what behaviour can be swapped.
fn substitution(node: &ParsedNode, ctx: &FacetContext, out: &mut Vec<Facet>)
    requires
        ctx.source.wf(),
        plain_facets(old(out)@),
    ensures
        plain_facets(final(out)@),
        facet_views(final(out)@) == facet_views(old(out)@) + substitution_spec(*node, ctx.source.text(), ctx.container),
{
    let ghost before = facet_views(out@);
    by_kind(node, ctx, out);
    by_conformance(node, ctx, out);
    further(node, ctx, out);
    assert(facet_views(out@) =~= before + substitution_spec(*node, ctx.source.text(), ctx.container));
}

/// Push what changes shape before compiling.
fn variation(node: &ParsedNode, ctx: &FacetContext, out: &mut Vec<Facet>)
    requires
        ctx.source.wf(),
        plain_facets(old(out)@),
    ensures
        plain_facets(final(out)@),
        facet_views(final(out)@) == facet_views(old(out)@) + variation_spec(*node, ctx.source.text()),
{
    let ghost before = facet_views(out@);
    match open_condition_in(ctx.source, node.start) {
        Some(c) => emit(out, Lens::Variation, "compilation-condition", Some(c), Vec::new()),
        None => {},
    }
    let ans = attributes(node, ctx);
    push_attributes(&ans, false, out);
    assert(facet_views(out@) =~= before + variation_spec(*node, ctx.source.text()));
}

/// Push what crosses the package line.
fn boundary(node: &ParsedNode, ctx: &FacetContext, out: &mut Vec<Facet>)
    requires
        ctx.source.wf(),
        plain_facets(old(out)@),
    ensures
        plain_facets(final(out)@),
        facet_views(final(out)@) == facet_views(old(out)@) + boundary_spec(*node, ctx.source.text()),
{
    let ans = attributes(node, ctx);
    push_attributes(&ans, true, out);
}

/// Push where substitution is dangerous.
fn hazard(node: &ParsedNode, ctx: &FacetContext, out: &mut Vec<Facet>)
    requires
        ctx.source.wf(),
        plain_facets(old(out)@),
    ensures
        plain_facets(final(out)@),
        facet_views(final(out)@) == facet_views(old(out)@) + hazard_spec(*node, ctx.source.text()),
{
    let ghost before = facet_views(out@);
    let h = header(node, ctx);
    if str_contains(h.as_str(), " async") {
        emit(out, Lens::Hazard, "async", None, Vec::new());
    }
    if child_of_kind(node, "throws").is_some() {
        emit(out, Lens::Hazard, "throwing", None, Vec::new());
    }
    if str_contains(h.as_str(), "Unsafe") {
        emit(out, Lens::Hazard, "unsafe-pointer", Some("unsafe pointer type".to_string()), Vec::new());
    }
    if str_contains(h.as_str(), "@unchecked") {
        emit(out, Lens::Hazard, "unchecked", Some("@unchecked Sendable".to_string()), Vec::new());
    }
    assert(facet_views(out@) =~= before + hazard_spec(*node, ctx.source.text()));
}

/// Push every facet an entity carries.
pub fn entity_facets(node: &ParsedNode, ctx: &FacetContext, out: &mut Vec<Facet>)
    requires
        ctx.source.wf(),
        plain_facets(old(out)@),
    ensures
        plain_facets(final(out)@),
        facet_views(final(out)@) == facet_views(old(out)@) + entity_spec(*node, ctx.source.text(), ctx.container),
{
    let ghost before = facet_views(out@);
    api(node, ctx, out);
    substitution(node, ctx, out);
    variation(node, ctx, out);
    boundary(node, ctx, out);
    hazard(node, ctx, out);
    assert(facet_views(out@) =~= before + entity_spec(*node, ctx.source.text(), ctx.container));
}

/// A non-entity's facets, as sites on the entity around it: an `await`, a `try!` or an
/// `as!` (which trade a handled failure for a crash), and an import of another module,
/// named by the last word after `import`.
pub open spec fn interior_spec(node: ParsedNode, s: Seq<char>) -> Seq<FacetView> {
    let text = match node_text_of(node, s) {
        Some(t) => t,
        None => Seq::empty(),
    };
    let site = seq![span_range(s, node.start as int, node.end as int)];
    let k = node.kind@;
    if k == "await_expression"@ {
        seq![(Lens::Hazard, "await"@, None, site)]
    } else if k == "try_expression"@ && has_prefix(text, "try!"@) {
        seq![(Lens::Hazard, "forced"@, Some("try!"@), site)]
    } else if k == "as_expression"@ && contains_seq(text, "as!"@) {
        seq![(Lens::Hazard, "forced"@, Some("as!"@), site)]
    } else if k == "import_declaration"@ {
        seq![(Lens::Boundary, "module-import"@, Some(last_word(strip_prefixes(text, "import"@))), site)]
    } else {
        Seq::empty()
    }
}

/// Push a non-entity's facets.
pub fn interior_facets(node: &ParsedNode, ctx: &FacetContext, out: &mut Vec<Facet>)
    requires
        ctx.source.wf(),
        plain_facets(old(out)@),
    ensures
        plain_facets(final(out)@),
        facet_views(final(out)@) == facet_views(old(out)@) + interior_spec(*node, ctx.source.text()),
{
    let ghost before = facet_views(out@);
    let text = match node_text(node, ctx.source) {
        Some(t) => t,
        None => String::new(),
    };
    let k = node.kind.as_str();
    let site = one_site(ctx.range(node.start, node.end));
    if str_eq(k, "await_expression") {
        emit(out, Lens::Hazard, "await", None, site);
    } else if str_eq(k, "try_expression") && str_starts_with(text.as_str(), "try!") {
        emit(out, Lens::Hazard, "forced", Some("try!".to_string()), site);
    } else if str_eq(k, "as_expression") && str_contains(text.as_str(), "as!") {
        emit(out, Lens::Hazard, "forced", Some("as!".to_string()), site);
    } else if str_eq(k, "import_declaration") {
        let module = last_word_of(&without_imports(&chars_of(text.as_str())));
        emit(out, Lens::Boundary, "module-import", Some(module), site);
    }
    assert(facet_views(out@) =~= before + interior_spec(*node, ctx.source.text()));
}

} // verus!
