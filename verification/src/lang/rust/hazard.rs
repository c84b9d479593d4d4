//! The `hazard` lens for Rust: where substitution is dangerous.
//!
//! Only what the grammar decides outright is reported — `unsafe`, `async`, await points
//! and the auto-trait bounds. Lock acquisitions and task spawns are not syntactically
//! decidable (`.lock()` is a method name anyone may use), and a lens that sometimes lies
//! would make absence of evidence and evidence of absence indistinguishable.

use vstd::prelude::*;
use crate::coord::Range;
use crate::lang::FacetContext;
use crate::lang::FacetView;
use crate::lang::detailed;
use crate::lang::emit;
use crate::lang::one_site;
use crate::lang::facet_views;
use crate::lang::plain_facets;
use crate::lang::span_range;
use crate::lang::rust::has_modifier;
use crate::lang::rust::has_modifier_of;
use crate::model::Facet;
use crate::model::Lens;
use crate::syntax::ParsedNode;
use crate::syntax::has_child_kind;
use crate::syntax::has_kind;
use crate::syntax::node_text;
use crate::syntax::node_text_of;
use crate::text::str_eq;

verus! {

/// A grammar kind with each `_` made a space, as a detail reads it.
pub open spec fn spaced(k: Seq<char>) -> Seq<char> {
    k.map_values(|c: char| if c == '_' { ' ' } else { c })
}

/// Whether a child fills its parent's `body` field.
pub open spec fn is_body(c: ParsedNode) -> bool {
    c.field matches Some(f) && f@ == "body"@
}

/// Where the type name `word` is written on a declaration, in pre-order, bodies aside:
/// a bound written inside a nested body belongs to that body, not to this declaration.
pub open spec fn marker_sites(n: ParsedNode, s: Seq<char>, word: Seq<char>) -> Seq<Range>
    decreases n, 1int, 0int,
{
    marker_from(n, s, word, 0)
}

/// [`marker_sites`] over `n`'s children from the `i`-th on.
pub open spec fn marker_from(n: ParsedNode, s: Seq<char>, word: Seq<char>, i: int) -> Seq<Range>
    decreases n, 0int, n.children@.len() - i,
{
    if i < 0 || i >= n.children@.len() {
        Seq::empty()
    } else {
        let c = n.children@[i];
        if is_body(c) {
            marker_from(n, s, word, i + 1)
        } else {
            proof {
                assert(decreases_to!(n => n.children@[i]));
            }
            (if c.kind@ == "type_identifier"@ && node_text_of(c, s) == Some(word) {
                seq![span_range(s, c.start as int, c.end as int)]
            } else {
                Seq::empty()
            }) + marker_sites(c, s, word) + marker_from(n, s, word, i + 1)
        }
    }
}

/// The `Send` and `Sync` bounds written on a declaration.
pub open spec fn auto_trait_spec(node: ParsedNode, s: Seq<char>) -> Seq<FacetView> {
    let send = marker_sites(node, s, "Send"@);
    let sync = marker_sites(node, s, "Sync"@);
    (if send.len() > 0 { seq![(Lens::Hazard, "send-bound"@, None, send)] } else { Seq::empty() })
        + (if sync.len() > 0 { seq![(Lens::Hazard, "sync-bound"@, None, sync)] } else { Seq::empty() })
}

/// An entity's hazards: an `unsafe` or `async` function, an `unsafe` trait, impl or
/// extern block, and its auto-trait bounds.
pub open spec fn hazard_spec(node: ParsedNode, s: Seq<char>) -> Seq<FacetView> {
    let k = node.kind@;
    (if has_modifier_of(node, "unsafe"@) { seq![detailed(Lens::Hazard, "unsafe"@, "unsafe fn"@)] } else { Seq::empty() })
        + (if has_modifier_of(node, "async"@) { seq![detailed(Lens::Hazard, "async"@, "async fn"@)] } else { Seq::empty() })
        + (if (k == "trait_item"@ || k == "impl_item"@ || k == "foreign_mod_item"@) && has_kind(node, "unsafe"@) {
            seq![detailed(Lens::Hazard, "unsafe"@, spaced(k))]
        } else {
            Seq::empty()
        })
        + auto_trait_spec(node, s)
}

/// An `unsafe` trait, impl or extern block is a hazard: a trait, impl or foreign-module
/// declaration with an `unsafe` token among its children yields a hazard facet of
/// subtype `unsafe` whose detail names the kind of declaration.
pub proof fn lemma_unsafe_declaration_is_a_hazard(node: ParsedNode, s: Seq<char>)
    requires
        node.kind@ == "trait_item"@ || node.kind@ == "impl_item"@ || node.kind@ == "foreign_mod_item"@,
        exists|i: int| 0 <= i < node.children@.len() && (#[trigger] node.children@[i]).kind@ == "unsafe"@,
    ensures
        exists|j: int| 0 <= j < hazard_spec(node, s).len() && {
            let f = #[trigger] hazard_spec(node, s)[j];
            &&& f.0 == Lens::Hazard
            &&& f.1 == "unsafe"@
            &&& f.2 == Some(spaced(node.kind@))
        },
{
    let k = node.kind@;
    let a: Seq<FacetView> = if has_modifier_of(node, "unsafe"@) { seq![detailed(Lens::Hazard, "unsafe"@, "unsafe fn"@)] } else { Seq::empty() };
    let b: Seq<FacetView> = if has_modifier_of(node, "async"@) { seq![detailed(Lens::Hazard, "async"@, "async fn"@)] } else { Seq::empty() };
    let c: Seq<FacetView> = seq![detailed(Lens::Hazard, "unsafe"@, spaced(k))];
    assert(has_kind(node, "unsafe"@));
    assert(hazard_spec(node, s) == a + b + c + auto_trait_spec(node, s));
    let j: int = (a.len() + b.len()) as int;
    assert(hazard_spec(node, s)[j] == c[0]);
}

/// `k` with each `_` made a space.
fn spaced_kind(k: &str) -> (r: String)
    ensures
        r@ == spaced(k@),
{
    let v = crate::text::chars_of(k);
    let mut out: Vec<char> = Vec::new();
    let mut i: usize = 0;
    while i < v.len()
        invariant
            i <= v@.len(),
            v@ == k@,
            out@ == v@.take(i as int).map_values(|c: char| if c == '_' { ' ' } else { c }),
        decreases v.len() - i,
    {
        let c = v[i];
        out.push(if c == '_' { ' ' } else { c });
        assert(v@.take(i + 1) =~= v@.take(i as int).push(c));
        assert(out@ =~= v@.take(i + 1).map_values(|c: char| if c == '_' { ' ' } else { c }));
        i = i + 1;
    }
    assert(v@.take(i as int) =~= v@);
    crate::text::string_of(out.as_slice())
}

/// Append where `word` is written on `n`, bodies aside.
fn collect_markers(n: &ParsedNode, ctx: &FacetContext, word: &str, out: &mut Vec<Range>)
    requires
        ctx.source.wf(),
    ensures
        final(out)@ == old(out)@ + marker_sites(*n, ctx.source.text(), word@),
    decreases n,
{
    proof {
        reveal_strlit("body");
    }
    let ghost s = ctx.source.text();
    let ghost start = out@;
    let mut i: usize = 0;
    assert(start + marker_from(*n, s, word@, 0) == start + marker_sites(*n, s, word@));
    while i < n.children.len()
        invariant
            i <= n.children@.len(),
            ctx.source.wf(),
            s == ctx.source.text(),
            out@ + marker_from(*n, s, word@, i as int) == start + marker_sites(*n, s, word@),
        decreases n.children.len() - i,
    {
        let c = &n.children[i];
        let ghost cur = out@;
        let ghost rest = marker_from(*n, s, word@, i + 1);
        let body = match &c.field {
            Some(f) => str_eq(f.as_str(), "body"),
            None => false,
        };
        if !body {
            let hit = str_eq(c.kind.as_str(), "type_identifier") && match node_text(c, ctx.source) {
                Some(t) => str_eq(t.as_str(), word),
                None => false,
            };
            let ghost own: Seq<Range> = if c.kind@ == "type_identifier"@ && node_text_of(*c, s) == Some(word@) {
                seq![span_range(s, c.start as int, c.end as int)]
            } else {
                Seq::empty()
            };
            if hit {
                out.push(ctx.range(c.start, c.end));
            }
            assert(out@ =~= cur + own);
            let ghost mid = out@;
            assert(decreases_to!(*n => n.children@[i as int]));
            collect_markers(c, ctx, word, out);
            assert(cur + (own + marker_sites(*c, s, word@) + rest) =~= (mid + marker_sites(*c, s, word@)) + rest);
        }
        i = i + 1;
    }
    assert(marker_from(*n, s, word@, i as int) =~= Seq::<Range>::empty());
    assert(out@ + Seq::<Range>::empty() =~= out@);
}

/// Push an entity's hazards.
pub fn facets(node: &ParsedNode, ctx: &FacetContext, out: &mut Vec<Facet>)
    requires
        ctx.source.wf(),
        plain_facets(old(out)@),
    ensures
        plain_facets(final(out)@),
        facet_views(final(out)@) == facet_views(old(out)@) + hazard_spec(*node, ctx.source.text()),
{
    proof {
        reveal_strlit("unsafe fn");
        reveal_strlit("async fn");
        reveal_strlit("Send");
        reveal_strlit("Sync");
    }
    let ghost s = ctx.source.text();
    let ghost before = facet_views(out@);
    let ghost k = node.kind@;
    let ghost a: Seq<FacetView> = if has_modifier_of(*node, "unsafe"@) { seq![detailed(Lens::Hazard, "unsafe"@, "unsafe fn"@)] } else { Seq::empty() };
    let ghost b: Seq<FacetView> = if has_modifier_of(*node, "async"@) { seq![detailed(Lens::Hazard, "async"@, "async fn"@)] } else { Seq::empty() };
    let ghost c: Seq<FacetView> = if (k == "trait_item"@ || k == "impl_item"@ || k == "foreign_mod_item"@) && has_kind(*node, "unsafe"@) {
        seq![detailed(Lens::Hazard, "unsafe"@, spaced(k))]
    } else {
        Seq::empty()
    };
    if has_modifier(node, "unsafe") {
        emit(out, Lens::Hazard, "unsafe", Some("unsafe fn".to_string()), Vec::new());
    }
    assert(facet_views(out@) =~= before + a);
    if has_modifier(node, "async") {
        emit(out, Lens::Hazard, "async", Some("async fn".to_string()), Vec::new());
    }
    assert(facet_views(out@) =~= before + a + b);
    let kind = node.kind.as_str();
    if (str_eq(kind, "trait_item") || str_eq(kind, "impl_item") || str_eq(kind, "foreign_mod_item")) && has_child_kind(node, "unsafe") {
        emit(out, Lens::Hazard, "unsafe", Some(spaced_kind(kind)), Vec::new());
    }
    assert(facet_views(out@) =~= before + a + b + c);
    let ghost mid = facet_views(out@);
    let mut send: Vec<Range> = Vec::new();
    collect_markers(node, ctx, "Send", &mut send);
    let mut sync: Vec<Range> = Vec::new();
    collect_markers(node, ctx, "Sync", &mut sync);
    assert(send@ =~= marker_sites(*node, s, "Send"@));
    assert(sync@ =~= marker_sites(*node, s, "Sync"@));
    let has_send = send.len() > 0;
    if has_send {
        emit(out, Lens::Hazard, "send-bound", None, send);
    }
    if sync.len() > 0 {
        emit(out, Lens::Hazard, "sync-bound", None, sync);
    }
    assert(facet_views(out@) =~= mid + auto_trait_spec(*node, s));
}

/// A non-entity's hazards, as sites on the enclosing entity: an `unsafe` block or an
/// await point.
pub open spec fn hazard_interior_spec(node: ParsedNode, s: Seq<char>) -> Seq<FacetView> {
    let site = seq![span_range(s, node.start as int, node.end as int)];
    if node.kind@ == "unsafe_block"@ {
        seq![(Lens::Hazard, "unsafe"@, Some("unsafe block"@), site)]
    } else if node.kind@ == "await_expression"@ {
        seq![(Lens::Hazard, "await"@, Some(match node_text_of(node, s) { Some(t) => t, None => ".await"@ }), site)]
    } else {
        Seq::empty()
    }
}

/// Push a non-entity's hazards.
pub fn interior_facets(node: &ParsedNode, ctx: &FacetContext, out: &mut Vec<Facet>)
    requires
        ctx.source.wf(),
        plain_facets(old(out)@),
    ensures
        plain_facets(final(out)@),
        facet_views(final(out)@) == facet_views(old(out)@) + hazard_interior_spec(*node, ctx.source.text()),
{
    proof {
        reveal_strlit("unsafe block");
        reveal_strlit(".await");
    }
    let ghost before = facet_views(out@);
    if str_eq(node.kind.as_str(), "unsafe_block") {
        emit(out, Lens::Hazard, "unsafe", Some("unsafe block".to_string()), one_site(ctx.range(node.start, node.end)));
        assert(facet_views(out@) =~= before + hazard_interior_spec(*node, ctx.source.text()));
    } else if str_eq(node.kind.as_str(), "await_expression") {
        let detail = match node_text(node, ctx.source) {
            Some(t) => t,
            None => ".await".to_string(),
        };
        emit(out, Lens::Hazard, "await", Some(detail), one_site(ctx.range(node.start, node.end)));
        assert(facet_views(out@) =~= before + hazard_interior_spec(*node, ctx.source.text()));
    } else {
        assert(before + Seq::<FacetView>::empty() =~= before);
    }
}

} // verus!
