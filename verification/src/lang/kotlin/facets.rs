//! The five lenses for Kotlin.

use vstd::prelude::*;
use crate::config::predicate::trim;
use crate::coord::Range;
use crate::lang::FacetContext;
use crate::lang::FacetView;
use crate::lang::bare;
use crate::lang::cut;
use crate::lang::cut_at;
use crate::lang::detailed;
use crate::lang::emit;
use crate::lang::facet_views;
use crate::lang::one_site;
use crate::lang::plain_facets;
use crate::lang::span_range;
use crate::lang::trimmed;
use crate::lang::kotlin::keyword;
use crate::lang::kotlin::keyword_spec;
use crate::lang::kotlin::modifier;
use crate::lang::kotlin::modifier_of;
use crate::lang::kotlin::modifiers;
use crate::lang::kotlin::modifiers_of;
use crate::lang::kotlin::receiver;
use crate::lang::kotlin::receiver_spec;
use crate::lang::rust::contains_text;
use crate::model::Facet;
use crate::model::Lens;
use crate::model::NodeKind;
use crate::syntax::ParsedNode;
use crate::syntax::child_of_kind;
use crate::syntax::child_text;
use crate::syntax::child_text_of;
use crate::syntax::first_of_kind;
use crate::syntax::node_text;
use crate::syntax::node_text_of;
use crate::text::chars_of;
use crate::text::contains_seq;
use crate::text::has_prefix;
use crate::text::has_suffix;
use crate::text::push_str;
use crate::text::str_contains;
use crate::text::str_ends_with;
use crate::text::str_eq;
use crate::text::string_of;

verus! {

// --- annotations ----------------------------------------------------------------------

/// `t` without its leading `@`s.
pub open spec fn strip_ats(t: Seq<char>) -> Seq<char>
    decreases t.len(),
{
    if t.len() > 0 && t[0] == '@' {
        strip_ats(t.drop_first())
    } else {
        t
    }
}

/// An annotation's name: without its `@`, up to its arguments, a space or a `:`.
pub open spec fn annotation_name(t: Seq<char>) -> Seq<char> {
    cut_at(strip_ats(t), seq!['(', ' ', ':'])
}

/// The names and sites of the annotations among `cs`, in order.
pub open spec fn annotations_in(cs: Seq<ParsedNode>, s: Seq<char>) -> Seq<(Seq<char>, Range)>
    decreases cs.len(),
{
    if cs.len() == 0 {
        Seq::empty()
    } else {
        annotations_in(cs.drop_last(), s) + if cs.last().kind@ == "annotation"@ {
            match node_text_of(cs.last(), s) {
                Some(t) => seq![(annotation_name(t), span_range(s, cs.last().start as int, cs.last().end as int))],
                None => Seq::empty(),
            }
        } else {
            Seq::empty()
        }
    }
}

/// Every annotation on a declaration, without its `@` or its arguments.
pub open spec fn annotations_of(node: ParsedNode, s: Seq<char>) -> Seq<(Seq<char>, Range)> {
    match first_of_kind(node.children@, "modifiers"@) {
        Some(m) => annotations_in(m.children@, s),
        None => Seq::empty(),
    }
}

/// The annotations the boundary lens claims, so they are not counted as variation too.
pub open spec fn boundary_annotations() -> Seq<Seq<char>> {
    seq!["JvmStatic"@, "JvmField"@, "JvmName"@, "JvmOverloads"@]
}

/// `t` without its leading `@`s.
pub(crate) fn without_ats(t: &Vec<char>) -> (r: Vec<char>)
    ensures
        r@ == strip_ats(t@),
{
    let mut i: usize = 0;
    assert(t@.skip(0) =~= t@);
    while i < t.len() && t[i] == '@'
        invariant
            i <= t@.len(),
            strip_ats(t@) == strip_ats(t@.skip(i as int)),
        decreases t.len() - i,
    {
        assert(t@.skip(i as int).drop_first() =~= t@.skip(i + 1));
        i = i + 1;
    }
    let r = crate::id::slice_range(t, i, t.len());
    assert(r@ =~= t@.skip(i as int));
    r
}

/// Every annotation on a declaration.
fn annotations(node: &ParsedNode, ctx: &FacetContext) -> (r: Vec<(String, Range)>)
    requires
        ctx.source.wf(),
    ensures
        r@.map_values(|a: (String, Range)| (a.0@, a.1)) == annotations_of(*node, ctx.source.text()),
{
    let mut out: Vec<(String, Range)> = Vec::new();
    let m = match child_of_kind(node, "modifiers") {
        Some(m) => m,
        None => {
            assert(out@.map_values(|a: (String, Range)| (a.0@, a.1)) =~= Seq::<(Seq<char>, Range)>::empty());
            return out;
        },
    };
    let ghost cs = m.children@;
    let ghost s = ctx.source.text();
    let mut i: usize = 0;
    assert(out@.map_values(|a: (String, Range)| (a.0@, a.1)) =~= annotations_in(cs.take(0), s));
    while i < m.children.len()
        invariant
            i <= cs.len(),
            cs == m.children@,
            s == ctx.source.text(),
            ctx.source.wf(),
            out@.map_values(|a: (String, Range)| (a.0@, a.1)) == annotations_in(cs.take(i as int), s),
        decreases m.children.len() - i,
    {
        let c = &m.children[i];
        let ghost before = out@;
        assert(cs.take(i + 1).drop_last() =~= cs.take(i as int));
        assert(cs.take(i + 1).last() == *c);
        if str_eq(c.kind.as_str(), "annotation") {
            match node_text(c, ctx.source) {
                Some(t) => {
                    let stops = vec!['(', ' ', ':'];
                    assert(stops@ =~= seq!['(', ' ', ':']);
                    let name = string_of(cut(&without_ats(&chars_of(t.as_str())), stops.as_slice()).as_slice());
                    let entry = (name, ctx.range(c.start, c.end));
                    out.push(entry);
                    assert(out@.map_values(|a: (String, Range)| (a.0@, a.1))
                        =~= before.map_values(|a: (String, Range)| (a.0@, a.1)).push((entry.0@, entry.1)));
                },
                None => {},
            }
        }
        i = i + 1;
    }
    assert(cs.take(i as int) =~= cs);
    out
}

/// Whether `name` is claimed by the boundary lens.
fn is_boundary_annotation(name: &str) -> (r: bool)
    ensures
        r == boundary_annotations().contains(name@),
{
    let r = str_eq(name, "JvmStatic") || str_eq(name, "JvmField") || str_eq(name, "JvmName") || str_eq(name, "JvmOverloads");
    proof {
        let b = boundary_annotations();
        if r {
            if name@ == "JvmStatic"@ { assert(b[0] == name@); }
            if name@ == "JvmField"@ { assert(b[1] == name@); }
            if name@ == "JvmName"@ { assert(b[2] == name@); }
            if name@ == "JvmOverloads"@ { assert(b[3] == name@); }
        } else if b.contains(name@) {
            let j = choose|j: int| 0 <= j < b.len() && b[j] == name@;
            assert(j == 0 || j == 1 || j == 2 || j == 3);
        }
    }
    r
}

/// The facets the annotations among `ans` contribute: for those the boundary lens claims
/// when `boundary`, for the others when not, `subtype` with `@name` at its site.
pub open spec fn annotation_facets(ans: Seq<(Seq<char>, Range)>, lens: Lens, subtype: Seq<char>, boundary: bool) -> Seq<FacetView>
    decreases ans.len(),
{
    if ans.len() == 0 {
        Seq::empty()
    } else {
        annotation_facets(ans.drop_last(), lens, subtype, boundary)
            + if boundary_annotations().contains(ans.last().0) == boundary {
                seq![(lens, subtype, Some("@"@ + ans.last().0), seq![ans.last().1])]
            } else {
                Seq::empty()
            }
    }
}

/// Push the facets [`annotation_facets`] describes.
fn push_annotations(ans: &Vec<(String, Range)>, lens: Lens, subtype: &'static str, boundary: bool, out: &mut Vec<Facet>)
    requires
        plain_facets(old(out)@),
    ensures
        plain_facets(final(out)@),
        facet_views(final(out)@) == facet_views(old(out)@)
            + annotation_facets(ans@.map_values(|a: (String, Range)| (a.0@, a.1)), lens, subtype@, boundary),
{
    proof {
        reveal_strlit("@");
    }
    let ghost before = facet_views(out@);
    let ghost v = ans@.map_values(|a: (String, Range)| (a.0@, a.1));
    let mut i: usize = 0;
    assert(v.take(0) =~= Seq::<(Seq<char>, Range)>::empty());
    assert(before + Seq::<FacetView>::empty() =~= before);
    while i < ans.len()
        invariant
            i <= ans@.len(),
            v == ans@.map_values(|a: (String, Range)| (a.0@, a.1)),
            plain_facets(out@),
            facet_views(out@) == before + annotation_facets(v.take(i as int), lens, subtype@, boundary),
        decreases ans.len() - i,
    {
        let ghost mid = facet_views(out@);
        assert(v.take(i + 1).drop_last() =~= v.take(i as int));
        assert(v.take(i + 1).last() == (ans@[i as int].0@, ans@[i as int].1));
        if is_boundary_annotation(ans[i].0.as_str()) == boundary {
            let mut d = "@".to_string();
            push_str(&mut d, ans[i].0.as_str());
            emit(out, lens, subtype, Some(d), one_site(ans[i].1));
        }
        assert(facet_views(out@) =~= before + annotation_facets(v.take(i + 1), lens, subtype@, boundary));
        i = i + 1;
    }
    assert(v.take(i as int) =~= v);
}

// --- the lenses ---------------------------------------------------------------------

/// What is visible from outside: the declared level, and `public (default)` for an
/// unmarked declaration — the opposite of Rust's default, worth saying.
pub open spec fn api_spec(node: ParsedNode, s: Seq<char>) -> Seq<FacetView> {
    match modifier_of(node, s, "visibility_modifier"@) {
        Some(t) => if t == "private"@ {
            seq![detailed(Lens::Api, "private"@, "private"@)]
        } else if t == "protected"@ {
            seq![detailed(Lens::Api, "protected"@, "protected"@)]
        } else if t == "internal"@ {
            seq![detailed(Lens::Api, "internal"@, "internal"@)]
        } else {
            seq![detailed(Lens::Api, "public"@, "public (default)"@)]
        },
        None => seq![detailed(Lens::Api, "public"@, "public (default)"@)],
    }
}

/// `abstract` and `open` among the inheritance modifiers, in order.
pub open spec fn inheritance_facets(ms: Seq<Seq<char>>) -> Seq<FacetView>
    decreases ms.len(),
{
    if ms.len() == 0 {
        Seq::empty()
    } else {
        inheritance_facets(ms.drop_last()) + if ms.last() == "abstract"@ {
            seq![bare(Lens::Substitution, "abstract"@)]
        } else if ms.last() == "open"@ {
            seq![bare(Lens::Substitution, "open"@)]
        } else {
            Seq::empty()
        }
    }
}

/// The first of `cs` that holds an `explicit_delegation`, that delegation.
pub open spec fn first_delegation(cs: Seq<ParsedNode>) -> Option<ParsedNode>
    decreases cs.len(),
{
    if cs.len() == 0 {
        None
    } else {
        match first_of_kind(cs[0].children@, "explicit_delegation"@) {
            Some(d) => Some(d),
            None => first_delegation(cs.drop_first()),
        }
    }
}

/// The declaration's own substitution points: an interface, an object, `abstract` and
/// `open` (a decision, since everything else is final), `sealed`, `override`.
pub open spec fn declared_substitution(node: ParsedNode, s: Seq<char>) -> Seq<FacetView> {
    (if node.kind@ == "class_declaration"@ && keyword_spec(node, s) == "interface"@ {
        seq![bare(Lens::Substitution, "interface"@)]
    } else {
        Seq::empty()
    }) + (if node.kind@ == "object_declaration"@ {
        seq![detailed(Lens::Substitution, "object"@, "single instance"@)]
    } else {
        Seq::empty()
    }) + inheritance_facets(modifiers_of(node, s, "inheritance_modifier"@))
        + (if modifiers_of(node, s, "class_modifier"@).contains("sealed"@) {
        seq![bare(Lens::Substitution, "sealed"@)]
    } else {
        Seq::empty()
    }) + if modifiers_of(node, s, "member_modifier"@).contains("override"@) {
        seq![bare(Lens::Substitution, "override"@)]
    } else {
        Seq::empty()
    }
}

/// Behaviour borrowed from elsewhere: an extension's receiver, and an implementation
/// handed on with `by`.
pub open spec fn borrowed_substitution(node: ParsedNode, s: Seq<char>) -> Seq<FacetView> {
    (match receiver_spec(node, s) {
        Some(r) => seq![detailed(Lens::Substitution, "extension"@, r)],
        None => Seq::empty(),
    }) + match first_of_kind(node.children@, "delegation_specifiers"@) {
        Some(sp) => match first_delegation(sp.children@) {
            Some(d) => seq![detailed(Lens::Substitution, "delegation"@, match node_text_of(d, s) {
                Some(t) => t,
                None => Seq::empty(),
            })],
            None => Seq::empty(),
        },
        None => Seq::empty(),
    }
}

/// What behaviour can be swapped.
pub open spec fn substitution_spec(node: ParsedNode, s: Seq<char>) -> Seq<FacetView> {
    declared_substitution(node, s) + borrowed_substitution(node, s)
}

/// What changes shape before compiling: annotations (those the boundary lens does not
/// claim), `expect`/`actual`, `inline`, and a `reified` type parameter.
pub open spec fn variation_spec(node: ParsedNode, s: Seq<char>) -> Seq<FacetView> {
    annotation_facets(annotations_of(node, s), Lens::Variation, "annotation"@, false)
        + (match modifier_of(node, s, "platform_modifier"@) {
        Some(p) => seq![detailed(Lens::Variation, "expect-actual"@, p)],
        None => Seq::empty(),
    }) + (if modifiers_of(node, s, "function_modifier"@).contains("inline"@) {
        seq![bare(Lens::Variation, "inline"@)]
    } else {
        Seq::empty()
    }) + match first_of_kind(node.children@, "type_parameters"@) {
        Some(p) => match node_text_of(p, s) {
            Some(t) => if contains_seq(t, "reified"@) { seq![bare(Lens::Variation, "reified"@)] } else { Seq::empty() },
            None => Seq::empty(),
        },
        None => Seq::empty(),
    }
}

/// What crosses the package line: an `external` function, the JVM-shaping annotations,
/// and a top-level `main`.
pub open spec fn boundary_spec(node: ParsedNode, s: Seq<char>, container: Option<NodeKind>) -> Seq<FacetView> {
    (if modifiers_of(node, s, "function_modifier"@).contains("external"@) {
        seq![detailed(Lens::Boundary, "external-fn"@, "implemented in native code"@)]
    } else {
        Seq::empty()
    }) + annotation_facets(annotations_of(node, s), Lens::Boundary, "jvm-surface"@, true)
        + if node.kind@ == "function_declaration"@ && child_text_of(node, "name"@, s) == Some("main"@)
        && (container == Some(NodeKind::Package) || container == Some(NodeKind::Module)) {
        seq![bare(Lens::Boundary, "entry-point"@)]
    } else {
        Seq::empty()
    }
}

/// Whether an annotation named `Volatile` is among `ans`.
pub open spec fn has_volatile(ans: Seq<(Seq<char>, Range)>) -> bool {
    exists|i: int| 0 <= i < ans.len() && (#[trigger] ans[i]).0 == "Volatile"@
}

/// Where substitution is dangerous: `suspend`, `lateinit`, `@Volatile`.
pub open spec fn hazard_spec(node: ParsedNode, s: Seq<char>) -> Seq<FacetView> {
    (if modifiers_of(node, s, "function_modifier"@).contains("suspend"@) {
        seq![bare(Lens::Hazard, "suspend"@)]
    } else {
        Seq::empty()
    }) + (if modifiers_of(node, s, "member_modifier"@).contains("lateinit"@) {
        seq![detailed(Lens::Hazard, "lateinit"@, "initialization is not checked"@)]
    } else {
        Seq::empty()
    }) + if has_volatile(annotations_of(node, s)) {
        seq![bare(Lens::Hazard, "volatile"@)]
    } else {
        Seq::empty()
    }
}

/// Every facet an entity carries, lens by lens.
pub open spec fn entity_spec(node: ParsedNode, s: Seq<char>, container: Option<NodeKind>) -> Seq<FacetView> {
    api_spec(node, s) + substitution_spec(node, s) + variation_spec(node, s) + boundary_spec(node, s, container) + hazard_spec(node, s)
}

/// Whether `names` holds `name`.
fn holds(names: &Vec<String>, name: &str) -> (r: bool)
    ensures
        r == names@.map_values(|t: String| t@).contains(name@),
{
    contains_text(names, name)
}

/// Push an entity's `api` facet.
fn api(node: &ParsedNode, ctx: &FacetContext, out: &mut Vec<Facet>)
    requires
        ctx.source.wf(),
        plain_facets(old(out)@),
    ensures
        plain_facets(final(out)@),
        facet_views(final(out)@) == facet_views(old(out)@) + api_spec(*node, ctx.source.text()),
{
    let ghost before = facet_views(out@);
    match modifier(node, ctx, "visibility_modifier") {
        Some(t) => if str_eq(t.as_str(), "private") {
            emit(out, Lens::Api, "private", Some("private".to_string()), Vec::new());
        } else if str_eq(t.as_str(), "protected") {
            emit(out, Lens::Api, "protected", Some("protected".to_string()), Vec::new());
        } else if str_eq(t.as_str(), "internal") {
            emit(out, Lens::Api, "internal", Some("internal".to_string()), Vec::new());
        } else {
            emit(out, Lens::Api, "public", Some("public (default)".to_string()), Vec::new());
        },
        None => {
            emit(out, Lens::Api, "public", Some("public (default)".to_string()), Vec::new());
        },
    }
    assert(facet_views(out@) =~= before + api_spec(*node, ctx.source.text()));
}

/// Push `abstract` and `open` among the inheritance modifiers.
fn inheritance(ms: &Vec<String>, out: &mut Vec<Facet>)
    requires
        plain_facets(old(out)@),
    ensures
        plain_facets(final(out)@),
        facet_views(final(out)@) == facet_views(old(out)@) + inheritance_facets(ms@.map_values(|t: String| t@)),
{
    let ghost before = facet_views(out@);
    let ghost v = ms@.map_values(|t: String| t@);
    let mut i: usize = 0;
    assert(v.take(0) =~= Seq::<Seq<char>>::empty());
    assert(before + Seq::<FacetView>::empty() =~= before);
    while i < ms.len()
        invariant
            i <= ms@.len(),
            v == ms@.map_values(|t: String| t@),
            plain_facets(out@),
            facet_views(out@) == before + inheritance_facets(v.take(i as int)),
        decreases ms.len() - i,
    {
        assert(v.take(i + 1).drop_last() =~= v.take(i as int));
        assert(v.take(i + 1).last() == ms@[i as int]@);
        if str_eq(ms[i].as_str(), "abstract") {
            emit(out, Lens::Substitution, "abstract", None, Vec::new());
        } else if str_eq(ms[i].as_str(), "open") {
            emit(out, Lens::Substitution, "open", None, Vec::new());
        }
        assert(facet_views(out@) =~= before + inheritance_facets(v.take(i + 1)));
        i = i + 1;
    }
    assert(v.take(i as int) =~= v);
}

/// The first child of `sp` holding an `explicit_delegation`, that delegation.
fn delegation_in<'a>(sp: &'a ParsedNode) -> (r: Option<&'a ParsedNode>)
    ensures
        match r {
            Some(d) => first_delegation(sp.children@) == Some(*d),
            None => first_delegation(sp.children@) is None,
        },
{
    let ghost cs = sp.children@;
    let mut i: usize = 0;
    assert(cs.skip(0) =~= cs);
    while i < sp.children.len()
        invariant
            i <= cs.len(),
            cs == sp.children@,
            first_delegation(cs) == first_delegation(cs.skip(i as int)),
        decreases sp.children.len() - i,
    {
        assert(cs.skip(i as int)[0] == cs[i as int]);
        assert(cs.skip(i as int).drop_first() =~= cs.skip(i + 1));
        match child_of_kind(&sp.children[i], "explicit_delegation") {
            Some(d) => return Some(d),
            None => {},
        }
        i = i + 1;
    }
    assert(cs.skip(i as int).len() == 0);
    None
}

/// Push the declaration's own substitution points.
fn declared(node: &ParsedNode, ctx: &FacetContext, out: &mut Vec<Facet>)
    requires
        ctx.source.wf(),
        plain_facets(old(out)@),
    ensures
        plain_facets(final(out)@),
        facet_views(final(out)@) == facet_views(old(out)@) + declared_substitution(*node, ctx.source.text()),
{
    let ghost before = facet_views(out@);
    let ghost s = ctx.source.text();
    if str_eq(node.kind.as_str(), "class_declaration") && str_eq(keyword(node, ctx).as_str(), "interface") {
        emit(out, Lens::Substitution, "interface", None, Vec::new());
    }
    if str_eq(node.kind.as_str(), "object_declaration") {
        emit(out, Lens::Substitution, "object", Some("single instance".to_string()), Vec::new());
    }
    let ghost m3 = facet_views(out@);
    let inh = modifiers(node, ctx, "inheritance_modifier");
    inheritance(&inh, out);
    let ghost m4 = facet_views(out@);
    if holds(&modifiers(node, ctx, "class_modifier"), "sealed") {
        emit(out, Lens::Substitution, "sealed", None, Vec::new());
    }
    if holds(&modifiers(node, ctx, "member_modifier"), "override") {
        emit(out, Lens::Substitution, "override", None, Vec::new());
    }
    assert(facet_views(out@) =~= before + declared_substitution(*node, s));
}

/// Push the behaviour borrowed from elsewhere.
fn borrowed(node: &ParsedNode, ctx: &FacetContext, out: &mut Vec<Facet>)
    requires
        ctx.source.wf(),
        plain_facets(old(out)@),
    ensures
        plain_facets(final(out)@),
        facet_views(final(out)@) == facet_views(old(out)@) + borrowed_substitution(*node, ctx.source.text()),
{
    let ghost before = facet_views(out@);
    match receiver(node, ctx) {
        Some(r) => emit(out, Lens::Substitution, "extension", Some(r), Vec::new()),
        None => {},
    }
    match child_of_kind(node, "delegation_specifiers") {
        Some(sp) => match delegation_in(sp) {
            Some(d) => {
                let detail = match node_text(d, ctx.source) {
                    Some(t) => t,
                    None => String::new(),
                };
                emit(out, Lens::Substitution, "delegation", Some(detail), Vec::new());
            },
            None => {},
        },
        None => {},
    }
    assert(facet_views(out@) =~= before + borrowed_substitution(*node, ctx.source.text()));
}

/// Push what behaviour can be swapped.
fn substitution(node: &ParsedNode, ctx: &FacetContext, out: &mut Vec<Facet>)
    requires
        ctx.source.wf(),
        plain_facets(old(out)@),
    ensures
        plain_facets(final(out)@),
        facet_views(final(out)@) == facet_views(old(out)@) + substitution_spec(*node, ctx.source.text()),
{
    let ghost before = facet_views(out@);
    declared(node, ctx, out);
    borrowed(node, ctx, out);
    assert(facet_views(out@) =~= before + substitution_spec(*node, ctx.source.text()));
}

/// Push what changes shape before compiling.
fn variation(node: &ParsedNode, ctx: &FacetContext, out: &mut Vec<Facet>)
    requires
        ctx.source.wf(),
        plain_facets(old(out)@),
    ensures
        plain_facets(final(out)@),
        facet_views(final(out)@) == facet_views(old(out)@) + variation_spec(*node, ctx.source.text()),
{
    let ghost before = facet_views(out@);
    let ghost s = ctx.source.text();
    let ans = annotations(node, ctx);
    push_annotations(&ans, Lens::Variation, "annotation", false, out);
    match modifier(node, ctx, "platform_modifier") {
        Some(p) => emit(out, Lens::Variation, "expect-actual", Some(p), Vec::new()),
        None => {},
    }
    if holds(&modifiers(node, ctx, "function_modifier"), "inline") {
        emit(out, Lens::Variation, "inline", None, Vec::new());
    }
    match child_of_kind(node, "type_parameters") {
        Some(p) => match node_text(p, ctx.source) {
            Some(t) => {
                if str_contains(t.as_str(), "reified") {
                    emit(out, Lens::Variation, "reified", None, Vec::new());
                }
            },
            None => {},
        },
        None => {},
    }
    assert(facet_views(out@) =~= before + variation_spec(*node, s));
}

/// Push what crosses the package line.
fn boundary(node: &ParsedNode, ctx: &FacetContext, out: &mut Vec<Facet>)
    requires
        ctx.source.wf(),
        plain_facets(old(out)@),
    ensures
        plain_facets(final(out)@),
        facet_views(final(out)@) == facet_views(old(out)@) + boundary_spec(*node, ctx.source.text(), ctx.container),
{
    proof {
        reveal_strlit("name");
        reveal_strlit("main");
    }
    let ghost before = facet_views(out@);
    let ghost s = ctx.source.text();
    if holds(&modifiers(node, ctx, "function_modifier"), "external") {
        emit(out, Lens::Boundary, "external-fn", Some("implemented in native code".to_string()), Vec::new());
    }
    let ans = annotations(node, ctx);
    push_annotations(&ans, Lens::Boundary, "jvm-surface", true, out);
    let main = str_eq(node.kind.as_str(), "function_declaration") && match child_text(node, "name", ctx.source) {
        Some(n) => str_eq(n.as_str(), "main"),
        None => false,
    };
    let top = match ctx.container {
        Some(NodeKind::Package) | Some(NodeKind::Module) => true,
        _ => false,
    };
    if main && top {
        emit(out, Lens::Boundary, "entry-point", None, Vec::new());
    }
    assert(facet_views(out@) =~= before + boundary_spec(*node, s, ctx.container));
}

/// Push where substitution is dangerous.
fn hazard(node: &ParsedNode, ctx: &FacetContext, out: &mut Vec<Facet>)
    requires
        ctx.source.wf(),
        plain_facets(old(out)@),
    ensures
        plain_facets(final(out)@),
        facet_views(final(out)@) == facet_views(old(out)@) + hazard_spec(*node, ctx.source.text()),
{
    let ghost before = facet_views(out@);
    let ghost s = ctx.source.text();
    if holds(&modifiers(node, ctx, "function_modifier"), "suspend") {
        emit(out, Lens::Hazard, "suspend", None, Vec::new());
    }
    if holds(&modifiers(node, ctx, "member_modifier"), "lateinit") {
        emit(out, Lens::Hazard, "lateinit", Some("initialization is not checked".to_string()), Vec::new());
    }
    let ans = annotations(node, ctx);
    let ghost v = ans@.map_values(|a: (String, Range)| (a.0@, a.1));
    let mut i: usize = 0;
    let mut volatile = false;
    while i < ans.len()
        invariant
            i <= ans@.len(),
            v == ans@.map_values(|a: (String, Range)| (a.0@, a.1)),
            volatile == exists|j: int| 0 <= j < i && (#[trigger] v[j]).0 == "Volatile"@,
        decreases ans.len() - i,
    {
        assert(v[i as int].0 == ans@[i as int].0@);
        if str_eq(ans[i].0.as_str(), "Volatile") {
            volatile = true;
        }
        i = i + 1;
    }
    if volatile {
        emit(out, Lens::Hazard, "volatile", None, Vec::new());
    }
    assert(facet_views(out@) =~= before + hazard_spec(*node, s));
}

/// Push every facet an entity carries.
pub fn entity_facets(node: &ParsedNode, ctx: &FacetContext, out: &mut Vec<Facet>)
    requires
        ctx.source.wf(),
        plain_facets(old(out)@),
    ensures
        plain_facets(final(out)@),
        facet_views(final(out)@) == facet_views(old(out)@) + entity_spec(*node, ctx.source.text(), ctx.container),
{
    let ghost before = facet_views(out@);
    api(node, ctx, out);
    substitution(node, ctx, out);
    variation(node, ctx, out);
    boundary(node, ctx, out);
    hazard(node, ctx, out);
    assert(facet_views(out@) =~= before + entity_spec(*node, ctx.source.text(), ctx.container));
}

/// `t` without every leading copy of `p`.
pub open spec fn strip_prefixes(t: Seq<char>, p: Seq<char>) -> Seq<char>
    decreases t.len(),
{
    if p.len() > 0 && has_prefix(t, p) {
        strip_prefixes(t.skip(p.len() as int), p)
    } else {
        t
    }
}

/// A non-entity's facets, as sites on the entity around it: a `!!`, which trades a null
/// check for a crash, and an import of another package.
pub open spec fn interior_spec(node: ParsedNode, s: Seq<char>) -> Seq<FacetView> {
    let text = match node_text_of(node, s) {
        Some(t) => t,
        None => Seq::empty(),
    };
    let site = seq![span_range(s, node.start as int, node.end as int)];
    if node.kind@ == "unary_expression"@ && has_suffix(text, "!!"@) {
        seq![(Lens::Hazard, "forced"@, Some("!!"@), site)]
    } else if node.kind@ == "import"@ {
        seq![(Lens::Boundary, "external-import"@, Some(trim(strip_prefixes(text, "import"@))), site)]
    } else {
        Seq::empty()
    }
}

/// `t` without every leading `import`.
pub(crate) fn without_imports(t: &Vec<char>) -> (r: Vec<char>)
    ensures
        r@ == strip_prefixes(t@, "import"@),
{
    proof {
        reveal_strlit("import");
    }
    let p = chars_of("import");
    assert(p@.len() == 6);
    let mut i: usize = 0;
    assert(t@.skip(0) =~= t@);
    while t.len() - i >= p.len() && crate::text::starts_at(t.as_slice(), i, p.as_slice())
        invariant
            i <= t@.len(),
            p@ == "import"@,
            p@.len() == 6,
            strip_prefixes(t@, "import"@) == strip_prefixes(t@.skip(i as int), "import"@),
        decreases t.len() - i,
    {
        assert(t@.skip(i as int).take(p@.len() as int) =~= t@.subrange(i as int, i + p@.len()));
        assert(t@.skip(i as int).skip(p@.len() as int) =~= t@.skip(i + p@.len()));
        i = i + p.len();
    }
    if t.len() - i >= p.len() {
        assert(t@.skip(i as int).take(p@.len() as int) =~= t@.subrange(i as int, i + p@.len()));
    }
    let r = crate::id::slice_range(t, i, t.len());
    assert(r@ =~= t@.skip(i as int));
    r
}

/// Push a non-entity's facets.
pub fn interior_facets(node: &ParsedNode, ctx: &FacetContext, out: &mut Vec<Facet>)
    requires
        ctx.source.wf(),
        plain_facets(old(out)@),
    ensures
        plain_facets(final(out)@),
        facet_views(final(out)@) == facet_views(old(out)@) + interior_spec(*node, ctx.source.text()),
{
    proof {
        reveal_strlit("!!");
    }
    let ghost before = facet_views(out@);
    let text = match node_text(node, ctx.source) {
        Some(t) => t,
        None => String::new(),
    };
    if str_eq(node.kind.as_str(), "unary_expression") && str_ends_with(text.as_str(), "!!") {
        emit(out, Lens::Hazard, "forced", Some("!!".to_string()), one_site(ctx.range(node.start, node.end)));
    } else if str_eq(node.kind.as_str(), "import") {
        let package = string_of(trimmed(&without_imports(&chars_of(text.as_str()))).as_slice());
        emit(out, Lens::Boundary, "external-import", Some(package), one_site(ctx.range(node.start, node.end)));
    }
    assert(facet_views(out@) =~= before + interior_spec(*node, ctx.source.text()));
}

} // verus!
