//! The `boundary` lens for Rust: what crosses the package line.

use vstd::prelude::*;
use crate::lang::Attribute;
use crate::lang::AttrView;
use crate::lang::FacetContext;
use crate::lang::FacetView;
use crate::lang::attr_view;
use crate::lang::attr_views;
use crate::lang::detailed;
use crate::lang::emit;
use crate::lang::facet_views;
use crate::lang::one_site;
use crate::lang::plain_facets;
use crate::lang::rust::abi_of;
use crate::model::Facet;
use crate::model::Lens;
use crate::model::NodeKind;
use crate::syntax::ParsedNode;
use crate::syntax::child_text;
use crate::syntax::child_text_of;
use crate::syntax::first_of_kind;
use crate::syntax::node_text;
use crate::syntax::node_text_of;
use crate::text::str_eq;

verus! {

/// The facets the attributes named `name` contribute: `subtype` at each one's site, its
/// arguments as detail.
pub open spec fn named_attribute_spec(attrs: Seq<AttrView>, name: Seq<char>, subtype: Seq<char>) -> Seq<FacetView>
    decreases attrs.len(),
{
    if attrs.len() == 0 {
        Seq::empty()
    } else {
        named_attribute_spec(attrs.drop_last(), name, subtype) + if attrs.last().0 == name {
            seq![(Lens::Boundary, subtype, attrs.last().1, seq![attrs.last().2])]
        } else {
            Seq::empty()
        }
    }
}

/// What the attributes say about symbols crossing the boundary: `no_mangle`,
/// `export_name`, `link` and `link_name`, in that order.
pub open spec fn boundary_attributes_spec(attrs: Seq<AttrView>) -> Seq<FacetView> {
    named_attribute_spec(attrs, "no_mangle"@, "no-mangle"@)
        + named_attribute_spec(attrs, "export_name"@, "export-name"@)
        + named_attribute_spec(attrs, "link"@, "link"@)
        + named_attribute_spec(attrs, "link_name"@, "link-name"@)
}

/// The children of every `function_modifiers` among `cs`, in order.
pub open spec fn modifier_children(cs: Seq<ParsedNode>) -> Seq<ParsedNode>
    decreases cs.len(),
{
    if cs.len() == 0 {
        Seq::empty()
    } else {
        (if cs[0].kind@ == "function_modifiers"@ { cs[0].children@ } else { Seq::empty() }) + modifier_children(cs.drop_first())
    }
}

/// The ABI a function's modifiers declare: the text of the first `extern_modifier`
/// among them.
pub open spec fn foreign_abi_of(node: ParsedNode, s: Seq<char>) -> Option<Seq<char>> {
    match first_of_kind(modifier_children(node.children@), "extern_modifier"@) {
        Some(m) => node_text_of(m, s),
        None => None,
    }
}

/// Whether a function is a binary target's entry point: only a top-level `fn main`;
/// a `main` method on a type is an ordinary member.
pub open spec fn entry_point(node: ParsedNode, s: Seq<char>, container: Option<NodeKind>) -> bool {
    child_text_of(node, "name"@, s) == Some("main"@) && (container is None || container == Some(NodeKind::Package))
}

/// An entity's boundary crossings: what its attributes say; an `extern` block with its
/// ABI; a function with a foreign ABI, or declared inside an `extern` block; an entry
/// point.
pub open spec fn boundary_spec(node: ParsedNode, s: Seq<char>, container: Option<NodeKind>, attrs: Seq<AttrView>) -> Seq<FacetView> {
    let k = node.kind@;
    boundary_attributes_spec(attrs) + if k == "foreign_mod_item"@ {
        seq![detailed(Lens::Boundary, "extern-block"@, abi_of(node, s))]
    } else if k == "function_item"@ || k == "function_signature_item"@ {
        (match foreign_abi_of(node, s) {
            Some(a) => seq![detailed(Lens::Boundary, "extern-fn"@, a)],
            None => if container == Some(NodeKind::ForeignBlock) {
                seq![detailed(Lens::Boundary, "extern-fn"@, "foreign declaration"@)]
            } else {
                Seq::empty()
            },
        }) + if entry_point(node, s, container) {
            seq![detailed(Lens::Boundary, "entry-point"@, "main"@)]
        } else {
            Seq::empty()
        }
    } else {
        Seq::empty()
    }
}

/// Push what the attributes named `name` contribute.
fn named_attributes(attributes: &[Attribute], name: &str, subtype: &'static str, out: &mut Vec<Facet>)
    requires
        plain_facets(old(out)@),
    ensures
        plain_facets(final(out)@),
        facet_views(final(out)@) == facet_views(old(out)@) + named_attribute_spec(attr_views(attributes@), name@, subtype@),
{
    let ghost before = facet_views(out@);
    let ghost attrs = attr_views(attributes@);
    let mut i: usize = 0;
    assert(attrs.take(0) =~= Seq::<AttrView>::empty());
    assert(before + Seq::<FacetView>::empty() =~= before);
    while i < attributes.len()
        invariant
            i <= attributes@.len(),
            attrs == attr_views(attributes@),
            plain_facets(out@),
            facet_views(out@) == before + named_attribute_spec(attrs.take(i as int), name@, subtype@),
        decreases attributes.len() - i,
    {
        let a = &attributes[i];
        let ghost mid = facet_views(out@);
        proof {
            assert(attrs.take(i + 1).drop_last() =~= attrs.take(i as int));
            assert(attrs.take(i + 1).last() == attr_view(*a));
        }
        if str_eq(a.name.as_str(), name) {
            let args = match &a.arguments {
                Some(x) => Some(x.clone()),
                None => None,
            };
            emit(out, Lens::Boundary, subtype, args, one_site(a.range));
        }
        assert(facet_views(out@) =~= before + named_attribute_spec(attrs.take(i + 1), name@, subtype@));
        i = i + 1;
    }
    assert(attrs.take(i as int) =~= attrs);
}

/// The ABI a function's modifiers declare.
fn foreign_abi(node: &ParsedNode, ctx: &FacetContext) -> (r: Option<String>)
    requires
        ctx.source.wf(),
    ensures
        match r {
            Some(a) => foreign_abi_of(*node, ctx.source.text()) == Some(a@),
            None => foreign_abi_of(*node, ctx.source.text()) is None,
        },
{
    let ghost cs = node.children@;
    let mut i: usize = 0;
    assert(cs.skip(0) =~= cs);
    while i < node.children.len()
        invariant
            i <= cs.len(),
            cs == node.children@,
            ctx.source.wf(),
            first_of_kind(modifier_children(cs), "extern_modifier"@) == first_of_kind(modifier_children(cs.skip(i as int)), "extern_modifier"@),
        decreases node.children.len() - i,
    {
        let c = &node.children[i];
        let ghost here: Seq<ParsedNode> = if c.kind@ == "function_modifiers"@ { c.children@ } else { Seq::empty() };
        assert(cs.skip(i as int)[0] == *c);
        assert(cs.skip(i as int).drop_first() =~= cs.skip(i + 1));
        assert(modifier_children(cs.skip(i as int)) == here + modifier_children(cs.skip(i + 1)));
        if str_eq(c.kind.as_str(), "function_modifiers") {
            match crate::syntax::child_of_kind(c, "extern_modifier") {
                Some(m) => {
                    proof {
                        lemma_first_of_kind_concat(here, modifier_children(cs.skip(i + 1)), "extern_modifier"@);
                    }
                    return node_text(m, ctx.source);
                },
                None => {
                    proof {
                        lemma_first_of_kind_concat(here, modifier_children(cs.skip(i + 1)), "extern_modifier"@);
                    }
                },
            }
        } else {
            assert(here + modifier_children(cs.skip(i + 1)) =~= modifier_children(cs.skip(i + 1)));
        }
        i = i + 1;
    }
    assert(cs.skip(i as int) =~= Seq::<ParsedNode>::empty());
    None
}

/// The first node of a kind in two sequences one after the other is the first in the
/// first sequence, if any is there, else the first in the second.
proof fn lemma_first_of_kind_concat(a: Seq<ParsedNode>, b: Seq<ParsedNode>, kind: Seq<char>)
    ensures
        first_of_kind(a + b, kind) == match first_of_kind(a, kind) {
            Some(x) => Some(x),
            None => first_of_kind(b, kind),
        },
    decreases a.len(),
{
    if a.len() > 0 {
        assert((a + b)[0] == a[0]);
        assert((a + b).drop_first() =~= a.drop_first() + b);
        lemma_first_of_kind_concat(a.drop_first(), b, kind);
    } else {
        assert(a + b =~= b);
    }
}

/// Push an entity's boundary crossings.
pub fn facets(node: &ParsedNode, ctx: &FacetContext, out: &mut Vec<Facet>)
    requires
        ctx.source.wf(),
        plain_facets(old(out)@),
    ensures
        plain_facets(final(out)@),
        facet_views(final(out)@) == facet_views(old(out)@)
            + boundary_spec(*node, ctx.source.text(), ctx.container, attr_views(ctx.attributes@)),
{
    proof {
        reveal_strlit("name");
        reveal_strlit("main");
        reveal_strlit("foreign declaration");
    }
    let ghost before = facet_views(out@);
    let ghost s = ctx.source.text();
    let ghost attrs = attr_views(ctx.attributes@);
    named_attributes(ctx.attributes, "no_mangle", "no-mangle", out);
    named_attributes(ctx.attributes, "export_name", "export-name", out);
    named_attributes(ctx.attributes, "link", "link", out);
    named_attributes(ctx.attributes, "link_name", "link-name", out);
    assert(facet_views(out@) =~= before + boundary_attributes_spec(attrs));
    let ghost mid = facet_views(out@);
    let k = node.kind.as_str();
    if str_eq(k, "foreign_mod_item") {
        let a = crate::lang::rust::abi(node, ctx);
        emit(out, Lens::Boundary, "extern-block", Some(a), Vec::new());
    } else if str_eq(k, "function_item") || str_eq(k, "function_signature_item") {
        match foreign_abi(node, ctx) {
            Some(a) => {
                emit(out, Lens::Boundary, "extern-fn", Some(a), Vec::new());
            },
            None => {
                if ctx.container == Some(NodeKind::ForeignBlock) {
                    emit(out, Lens::Boundary, "extern-fn", Some("foreign declaration".to_string()), Vec::new());
                }
            },
        }
        let main = match child_text(node, "name", ctx.source) {
            Some(n) => str_eq(n.as_str(), "main"),
            None => false,
        };
        let top = match ctx.container {
            None => true,
            Some(NodeKind::Package) => true,
            _ => false,
        };
        if main && top {
            emit(out, Lens::Boundary, "entry-point", Some("main".to_string()), Vec::new());
        }
    }
    assert(facet_views(out@) =~= before + boundary_spec(*node, s, ctx.container, attrs));
}

} // verus!
