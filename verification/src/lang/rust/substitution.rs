//! The `substitution` lens for Rust: what behaviour can be swapped.

use vstd::prelude::*;
use crate::config::predicate::trim;
use crate::coord::Range;
use crate::lang::FacetContext;
use crate::lang::FacetView;
use crate::lang::bare;
use crate::lang::comma_joined;
use crate::lang::cut;
use crate::lang::cut_at;
use crate::lang::emit;
use crate::lang::facet_views;
use crate::lang::join_bases;
use crate::lang::one_site;
use crate::lang::plain_facets;
use crate::lang::span_range;
use crate::lang::trimmed;
use crate::lang::rust::after_last_pair;
use crate::lang::rust::type_parameter_names;
use crate::lang::rust::type_parameters_of;
use crate::model::Facet;
use crate::model::Lens;
use crate::model::NodeKind;
use crate::query::texts;
use crate::syntax::ParsedNode;
use crate::syntax::child_of_kind;
use crate::syntax::child_text;
use crate::syntax::child_text_of;
use crate::syntax::first_of_kind;
use crate::syntax::node_text;
use crate::syntax::node_text_of;
use crate::text::chars_of;
use crate::text::push_str;
use crate::text::str_eq;
use crate::text::string_of;

verus! {

/// A trait definition: the contract itself, its supertraits as detail.
pub open spec fn trait_spec(node: ParsedNode, s: Seq<char>) -> FacetView {
    (Lens::Substitution, "trait"@, match child_text_of(node, "bounds"@, s) {
        Some(b) => Some("supertraits"@ + b),
        None => None,
    }, Seq::empty())
}

/// An implementation binding a contract to a type: a blanket one when its self type
/// *is* one of its own type parameters (`impl<T: Display> MyTrait for T`); the trait as
/// detail, or `inherent`.
pub open spec fn impl_facet_spec(node: ParsedNode, s: Seq<char>) -> FacetView {
    let t = match child_text_of(node, "type"@, s) {
        Some(x) => x,
        None => Seq::empty(),
    };
    let sub = if type_parameters_of(node, s).contains(t) { "blanket-impl"@ } else { "impl"@ };
    (Lens::Substitution, sub, Some(match child_text_of(node, "trait"@, s) {
        Some(b) => b,
        None => "inherent"@,
    }), Seq::empty())
}

/// `t` without its leading colons.
pub open spec fn strip_colons(t: Seq<char>) -> Seq<char>
    decreases t.len(),
{
    if t.len() > 0 && t[0] == ':' {
        strip_colons(t.drop_first())
    } else {
        t
    }
}

/// The text a `trait_bounds` node states: without its leading `:` and surrounding
/// whitespace.
pub open spec fn bound_text(c: ParsedNode, s: Seq<char>) -> Seq<char> {
    trim(strip_colons(match node_text_of(c, s) {
        Some(x) => x,
        None => Seq::empty(),
    }))
}

/// Every non-empty `trait_bounds` beneath `n`, in pre-order, with where it is written.
pub open spec fn bounds_under(n: ParsedNode, s: Seq<char>) -> Seq<(Seq<char>, Range)>
    decreases n, 1int, 0int,
{
    bounds_from(n, s, 0)
}

/// [`bounds_under`] over `n`'s children from the `i`-th on.
pub open spec fn bounds_from(n: ParsedNode, s: Seq<char>, i: int) -> Seq<(Seq<char>, Range)>
    decreases n, 0int, n.children@.len() - i,
{
    if i < 0 || i >= n.children@.len() {
        Seq::empty()
    } else {
        let c = n.children@[i];
        let own = if c.kind@ == "trait_bounds"@ && bound_text(c, s).len() > 0 {
            seq![(bound_text(c, s), span_range(s, c.start as int, c.end as int))]
        } else {
            Seq::empty()
        };
        proof {
            assert(decreases_to!(n => n.children@[i]));
        }
        own + bounds_under(c, s) + bounds_from(n, s, i + 1)
    }
}

/// The declaration kinds whose generic bounds are substitution points.
pub open spec fn bound_kinds() -> Seq<Seq<char>> {
    seq![
        "function_item"@, "function_signature_item"@, "struct_item"@, "enum_item"@, "union_item"@,
        "trait_item"@, "impl_item"@, "type_item"@,
    ]
}

/// The bounds written in a declaration's type parameters and its `where` clause.
pub open spec fn declared_bounds(node: ParsedNode, s: Seq<char>) -> Seq<(Seq<char>, Range)> {
    (match first_of_kind(node.children@, "type_parameters"@) {
        Some(p) => bounds_under(p, s),
        None => Seq::empty(),
    }) + (match first_of_kind(node.children@, "where_clause"@) {
        Some(w) => bounds_under(w, s),
        None => Seq::empty(),
    })
}

/// A generic bound anywhere on the declaration names the behaviour a caller may supply:
/// one facet, every bound's text as detail and its position as a site.
pub open spec fn bound_spec(node: ParsedNode, s: Seq<char>) -> Seq<FacetView> {
    if !bound_kinds().contains(node.kind@) {
        Seq::empty()
    } else {
        let bs = declared_bounds(node, s);
        if bs.len() == 0 {
            Seq::empty()
        } else {
            seq![(
                Lens::Substitution,
                "generic-bound"@,
                Some(comma_joined(bs.map_values(|b: (Seq<char>, Range)| b.0))),
                bs.map_values(|b: (Seq<char>, Range)| b.1),
            )]
        }
    }
}

/// An entity's substitution points.
pub open spec fn substitution_spec(node: ParsedNode, s: Seq<char>, container: Option<NodeKind>) -> Seq<FacetView> {
    let k = node.kind@;
    (if k == "trait_item"@ {
        seq![trait_spec(node, s)]
    } else if k == "impl_item"@ {
        seq![impl_facet_spec(node, s)]
    } else if k == "function_item"@ && container == Some(NodeKind::Interface) {
        seq![bare(Lens::Substitution, "default-method"@)]
    } else if k == "associated_type"@ {
        seq![bare(Lens::Substitution, "assoc-type"@)]
    } else {
        Seq::empty()
    }) + bound_spec(node, s)
}

/// `t` without its leading colons.
fn without_colons(t: &Vec<char>) -> (r: Vec<char>)
    ensures
        r@ == strip_colons(t@),
{
    let mut i: usize = 0;
    assert(t@.skip(0) =~= t@);
    while i < t.len() && t[i] == ':'
        invariant
            i <= t@.len(),
            strip_colons(t@) == strip_colons(t@.skip(i as int)),
        decreases t.len() - i,
    {
        assert(t@.skip(i as int).drop_first() =~= t@.skip(i + 1));
        i = i + 1;
    }
    let r = crate::id::slice_range(t, i, t.len());
    assert(r@ =~= t@.skip(i as int));
    r
}

/// Append every non-empty `trait_bounds` beneath `n`.
fn collect_bounds(n: &ParsedNode, ctx: &FacetContext, texts_out: &mut Vec<String>, sites: &mut Vec<Range>)
    requires
        ctx.source.wf(),
        old(texts_out)@.len() == old(sites)@.len(),
    ensures
        final(texts_out)@.len() == final(sites)@.len(),
        texts(final(texts_out)@) == texts(old(texts_out)@) + bounds_under(*n, ctx.source.text()).map_values(|b: (Seq<char>, Range)| b.0),
        final(sites)@ == old(sites)@ + bounds_under(*n, ctx.source.text()).map_values(|b: (Seq<char>, Range)| b.1),
    decreases n,
{
    let ghost s = ctx.source.text();
    let ghost t0 = texts(texts_out@);
    let ghost s0 = sites@;
    let mut i: usize = 0;
    assert(bounds_from(*n, s, 0) == bounds_under(*n, s));
    assert(t0 + bounds_from(*n, s, 0).map_values(|b: (Seq<char>, Range)| b.0) == t0 + bounds_under(*n, s).map_values(|b: (Seq<char>, Range)| b.0));
    while i < n.children.len()
        invariant
            i <= n.children@.len(),
            ctx.source.wf(),
            s == ctx.source.text(),
            texts_out@.len() == sites@.len(),
            texts(texts_out@) + bounds_from(*n, s, i as int).map_values(|b: (Seq<char>, Range)| b.0)
                == t0 + bounds_under(*n, s).map_values(|b: (Seq<char>, Range)| b.0),
            sites@ + bounds_from(*n, s, i as int).map_values(|b: (Seq<char>, Range)| b.1)
                == s0 + bounds_under(*n, s).map_values(|b: (Seq<char>, Range)| b.1),
        decreases n.children.len() - i,
    {
        let c = &n.children[i];
        let ghost ct = texts(texts_out@);
        let ghost cs = sites@;
        let ghost rest = bounds_from(*n, s, i + 1);
        let ghost own: Seq<(Seq<char>, Range)> = if c.kind@ == "trait_bounds"@ && bound_text(*c, s).len() > 0 {
            seq![(bound_text(*c, s), span_range(s, c.start as int, c.end as int))]
        } else {
            Seq::empty()
        };
        if str_eq(c.kind.as_str(), "trait_bounds") {
            let raw = match node_text(c, ctx.source) {
                Some(x) => chars_of(x.as_str()),
                None => Vec::new(),
            };
            let text = trimmed(&without_colons(&raw));
            if text.len() > 0 {
                let ghost bt = texts_out@;
                texts_out.push(string_of(text.as_slice()));
                assert(texts(texts_out@) =~= texts(bt).push(text@));
                sites.push(ctx.range(c.start, c.end));
            }
        }
        assert(texts(texts_out@) =~= ct + own.map_values(|b: (Seq<char>, Range)| b.0));
        assert(sites@ =~= cs + own.map_values(|b: (Seq<char>, Range)| b.1));
        let ghost mt = texts(texts_out@);
        let ghost ms = sites@;
        assert(decreases_to!(*n => n.children@[i as int]));
        collect_bounds(c, ctx, texts_out, sites);
        let ghost below = bounds_under(*c, s);
        assert((own + below + rest).map_values(|b: (Seq<char>, Range)| b.0)
            =~= own.map_values(|b: (Seq<char>, Range)| b.0) + below.map_values(|b: (Seq<char>, Range)| b.0) + rest.map_values(|b: (Seq<char>, Range)| b.0));
        assert((own + below + rest).map_values(|b: (Seq<char>, Range)| b.1)
            =~= own.map_values(|b: (Seq<char>, Range)| b.1) + below.map_values(|b: (Seq<char>, Range)| b.1) + rest.map_values(|b: (Seq<char>, Range)| b.1));
        assert(bounds_from(*n, s, i as int) == own + below + rest);
        assert(ct + (own + below + rest).map_values(|b: (Seq<char>, Range)| b.0)
            =~= texts(texts_out@) + rest.map_values(|b: (Seq<char>, Range)| b.0));
        assert(cs + (own + below + rest).map_values(|b: (Seq<char>, Range)| b.1)
            =~= sites@ + rest.map_values(|b: (Seq<char>, Range)| b.1));
        i = i + 1;
    }
    assert(bounds_from(*n, s, i as int).map_values(|b: (Seq<char>, Range)| b.0) =~= Seq::<Seq<char>>::empty());
    assert(bounds_from(*n, s, i as int).map_values(|b: (Seq<char>, Range)| b.1) =~= Seq::<Range>::empty());
    assert(texts(texts_out@) + Seq::<Seq<char>>::empty() =~= texts(texts_out@));
    assert(sites@ + Seq::<Range>::empty() =~= sites@);
}

/// Whether `kind` is one whose generic bounds count.
fn is_bound_kind(kind: &str) -> (r: bool)
    ensures
        r == bound_kinds().contains(kind@),
{
    let kinds = vec![
        "function_item", "function_signature_item", "struct_item", "enum_item", "union_item",
        "trait_item", "impl_item", "type_item",
    ];
    assert(kinds@.map_values(|k: &str| k@) =~= bound_kinds());
    let mut i: usize = 0;
    while i < kinds.len()
        invariant
            i <= kinds@.len(),
            kinds@.map_values(|k: &str| k@) == bound_kinds(),
            forall|j: int| 0 <= j < i ==> kinds@[j]@ != kind@,
        decreases kinds.len() - i,
    {
        if str_eq(kinds[i], kind) {
            assert(bound_kinds()[i as int] == kind@);
            return true;
        }
        i = i + 1;
    }
    assert forall|j: int| 0 <= j < bound_kinds().len() implies bound_kinds()[j] != kind@ by {
        assert(bound_kinds()[j] == kinds@[j]@);
    }
    false
}

/// Push the generic-bound facet of a declaration, when it has bounds.
fn bound_facets(node: &ParsedNode, ctx: &FacetContext, out: &mut Vec<Facet>)
    requires
        ctx.source.wf(),
        plain_facets(old(out)@),
    ensures
        plain_facets(final(out)@),
        facet_views(final(out)@) == facet_views(old(out)@) + bound_spec(*node, ctx.source.text()),
{
    let ghost before = facet_views(out@);
    let ghost s = ctx.source.text();
    if !is_bound_kind(node.kind.as_str()) {
        assert(before + Seq::<FacetView>::empty() =~= before);
        return;
    }
    let mut names: Vec<String> = Vec::new();
    let mut sites: Vec<Range> = Vec::new();
    assert(texts(names@) =~= Seq::<Seq<char>>::empty());
    match child_of_kind(node, "type_parameters") {
        Some(p) => collect_bounds(p, ctx, &mut names, &mut sites),
        None => {},
    }
    match child_of_kind(node, "where_clause") {
        Some(w) => collect_bounds(w, ctx, &mut names, &mut sites),
        None => {},
    }
    let ghost bs = declared_bounds(*node, s);
    assert(texts(names@) =~= bs.map_values(|b: (Seq<char>, Range)| b.0));
    assert(sites@ =~= bs.map_values(|b: (Seq<char>, Range)| b.1));
    if names.len() == 0 {
        assert(before + Seq::<FacetView>::empty() =~= before);
        return;
    }
    let detail = join_bases(&names);
    emit(out, Lens::Substitution, "generic-bound", Some(detail), sites);
    assert(facet_views(out@) =~= before + bound_spec(*node, s));
}

/// Push an entity's substitution points.
pub fn facets(node: &ParsedNode, ctx: &FacetContext, out: &mut Vec<Facet>)
    requires
        ctx.source.wf(),
        plain_facets(old(out)@),
    ensures
        plain_facets(final(out)@),
        facet_views(final(out)@) == facet_views(old(out)@) + substitution_spec(*node, ctx.source.text(), ctx.container),
{
    proof {
        reveal_strlit("bounds");
        reveal_strlit("supertraits");
        reveal_strlit("type");
        reveal_strlit("trait");
        reveal_strlit("inherent");
    }
    let ghost before = facet_views(out@);
    let ghost s = ctx.source.text();
    let k = node.kind.as_str();
    if str_eq(k, "trait_item") {
        let detail = match child_text(node, "bounds", ctx.source) {
            Some(b) => {
                let mut d = "supertraits".to_string();
                push_str(&mut d, b.as_str());
                Some(d)
            },
            None => None,
        };
        emit(out, Lens::Substitution, "trait", detail, Vec::new());
    } else if str_eq(k, "impl_item") {
        let parameters = type_parameter_names(node, ctx);
        let self_type = match child_text(node, "type", ctx.source) {
            Some(t) => t,
            None => String::new(),
        };
        let blanket = crate::lang::rust::contains_text(&parameters, self_type.as_str());
        let detail = match child_text(node, "trait", ctx.source) {
            Some(b) => b,
            None => "inherent".to_string(),
        };
        if blanket {
            emit(out, Lens::Substitution, "blanket-impl", Some(detail), Vec::new());
        } else {
            emit(out, Lens::Substitution, "impl", Some(detail), Vec::new());
        }
    } else if str_eq(k, "function_item") && ctx.container == Some(NodeKind::Interface) {
        emit(out, Lens::Substitution, "default-method", None, Vec::new());
    } else if str_eq(k, "associated_type") {
        emit(out, Lens::Substitution, "assoc-type", None, Vec::new());
    }
    let ghost own: Seq<FacetView> = if k@ == "trait_item"@ {
        seq![trait_spec(*node, s)]
    } else if k@ == "impl_item"@ {
        seq![impl_facet_spec(*node, s)]
    } else if k@ == "function_item"@ && ctx.container == Some(NodeKind::Interface) {
        seq![bare(Lens::Substitution, "default-method"@)]
    } else if k@ == "associated_type"@ {
        seq![bare(Lens::Substitution, "assoc-type"@)]
    } else {
        Seq::empty()
    };
    assert(facet_views(out@) =~= before + own);
    bound_facets(node, ctx, out);
    assert(facet_views(out@) =~= before + substitution_spec(*node, s, ctx.container));
}

/// Whether a `dyn` type names one of the closure traits: its trait, cut at the first
/// `<` or `(`, after its last `::`, trimmed, is `Fn`, `FnMut` or `FnOnce`.
pub open spec fn closure_trait(node: ParsedNode, s: Seq<char>) -> bool {
    match child_text_of(node, "trait"@, s) {
        Some(t) => {
            let head = trim(after_last_pair(cut_at(t, seq!['<', '('])));
            head == "Fn"@ || head == "FnMut"@ || head == "FnOnce"@
        },
        None => false,
    }
}

/// A non-entity's substitution points, as sites on the enclosing entity: a `dyn` type
/// (a boxed closure when it names a closure trait), an `impl Trait`, a function pointer.
pub open spec fn substitution_interior_spec(node: ParsedNode, s: Seq<char>) -> Seq<FacetView> {
    let site = seq![span_range(s, node.start as int, node.end as int)];
    let text_or = |d: Seq<char>| match node_text_of(node, s) {
        Some(t) => t,
        None => d,
    };
    if node.kind@ == "dynamic_type"@ {
        seq![(Lens::Substitution, if closure_trait(node, s) { "boxed-closure"@ } else { "dyn"@ }, Some(text_or("dyn"@)), site)]
    } else if node.kind@ == "abstract_type"@ {
        seq![(Lens::Substitution, "impl-trait"@, Some(text_or("impl Trait"@)), site)]
    } else if node.kind@ == "function_type"@ {
        seq![(Lens::Substitution, "fn-ptr"@, Some(text_or("fn"@)), site)]
    } else {
        Seq::empty()
    }
}

/// Whether a `dyn` type names one of the closure traits.
fn is_closure_trait(node: &ParsedNode, ctx: &FacetContext) -> (r: bool)
    requires
        ctx.source.wf(),
    ensures
        r == closure_trait(*node, ctx.source.text()),
{
    proof {
        reveal_strlit("trait");
        reveal_strlit("Fn");
        reveal_strlit("FnMut");
        reveal_strlit("FnOnce");
    }
    match child_text(node, "trait", ctx.source) {
        Some(t) => {
            let v = chars_of(t.as_str());
            let stops = vec!['<', '('];
            assert(stops@ =~= seq!['<', '(']);
            let head = trimmed(&crate::lang::rust::after_pair_of(&cut(&v, stops.as_slice())));
            let h = string_of(head.as_slice());
            str_eq(h.as_str(), "Fn") || str_eq(h.as_str(), "FnMut") || str_eq(h.as_str(), "FnOnce")
        },
        None => false,
    }
}

/// The text `node` spans, or `fallback`.
fn text_or(node: &ParsedNode, ctx: &FacetContext, fallback: &str) -> (r: String)
    requires
        ctx.source.wf(),
    ensures
        r@ == match node_text_of(*node, ctx.source.text()) {
            Some(t) => t,
            None => fallback@,
        },
{
    match node_text(node, ctx.source) {
        Some(t) => t,
        None => fallback.to_string(),
    }
}

/// Push a non-entity's substitution points.
pub fn interior_facets(node: &ParsedNode, ctx: &FacetContext, out: &mut Vec<Facet>)
    requires
        ctx.source.wf(),
        plain_facets(old(out)@),
    ensures
        plain_facets(final(out)@),
        facet_views(final(out)@) == facet_views(old(out)@) + substitution_interior_spec(*node, ctx.source.text()),
{
    let ghost before = facet_views(out@);
    let ghost s = ctx.source.text();
    let k = node.kind.as_str();
    if str_eq(k, "dynamic_type") {
        let detail = text_or(node, ctx, "dyn");
        if is_closure_trait(node, ctx) {
            emit(out, Lens::Substitution, "boxed-closure", Some(detail), one_site(ctx.range(node.start, node.end)));
        } else {
            emit(out, Lens::Substitution, "dyn", Some(detail), one_site(ctx.range(node.start, node.end)));
        }
        assert(facet_views(out@) =~= before + substitution_interior_spec(*node, s));
    } else if str_eq(k, "abstract_type") {
        let detail = text_or(node, ctx, "impl Trait");
        emit(out, Lens::Substitution, "impl-trait", Some(detail), one_site(ctx.range(node.start, node.end)));
        assert(facet_views(out@) =~= before + substitution_interior_spec(*node, s));
    } else if str_eq(k, "function_type") {
        let detail = text_or(node, ctx, "fn");
        emit(out, Lens::Substitution, "fn-ptr", Some(detail), one_site(ctx.range(node.start, node.end)));
        assert(facet_views(out@) =~= before + substitution_interior_spec(*node, s));
    } else {
        assert(before + Seq::<FacetView>::empty() =~= before);
    }
}

} // verus!
