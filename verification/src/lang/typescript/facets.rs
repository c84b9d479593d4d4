//! The five lenses for TypeScript and JavaScript.

use vstd::prelude::*;
use crate::config::predicate::trim;
use crate::lang::FacetContext;
use crate::lang::FacetView;
use crate::lang::bare;
use crate::lang::cut;
use crate::lang::cut_at;
use crate::lang::detailed;
use crate::lang::emit;
use crate::lang::facet_views;
use crate::lang::one_site;
use crate::lang::plain_facets;
use crate::lang::span_range;
use crate::lang::trimmed;
use crate::lang::typescript::accessibility;
use crate::lang::typescript::accessibility_of;
use crate::lang::typescript::in_type;
use crate::lang::typescript::preceded_by;
use crate::lang::typescript::preceded_spec;
use crate::model::Facet;
use crate::model::Lens;
use crate::model::NodeKind;
use crate::syntax::ParsedNode;
use crate::syntax::child_by_field;
use crate::syntax::child_of_kind;
use crate::syntax::child_text;
use crate::syntax::child_text_of;
use crate::syntax::field_child;
use crate::syntax::first_of_kind;
use crate::syntax::node_text;
use crate::syntax::node_text_of;
use crate::text::chars_of;
use crate::text::contains_seq;
use crate::text::has_prefix;
use crate::text::has_suffix;
use crate::text::push_str;
use crate::text::str_contains;
use crate::text::str_ends_with;
use crate::text::str_eq;
use crate::text::str_starts_with;
use crate::text::string_of;

verus! {

/// A node's text, or nothing when its span cannot be read.
pub open spec fn text_or_empty(node: ParsedNode, s: Seq<char>) -> Seq<char> {
    match node_text_of(node, s) {
        Some(t) => t,
        None => Seq::empty(),
    }
}

/// A node's text, or nothing.
fn text_of(node: &ParsedNode, ctx: &FacetContext) -> (r: String)
    requires
        ctx.source.wf(),
    ensures
        r@ == text_or_empty(*node, ctx.source.text()),
{
    match node_text(node, ctx.source) {
        Some(t) => t,
        None => String::new(),
    }
}

// --- api ----------------------------------------------------------------------------

/// What is visible from outside: a `private` or `protected` modifier, else a `#` name;
/// and, for what is not a member of a type, whether it is a default export, an export
/// or local to its module, and whether it is `declare`d.
pub open spec fn api_spec(node: ParsedNode, s: Seq<char>, container: Option<NodeKind>) -> Seq<FacetView> {
    (match accessibility_of(node, s) {
        Some(m) => if m == "private"@ {
            seq![detailed(Lens::Api, "private"@, "private"@)]
        } else if m == "protected"@ {
            seq![detailed(Lens::Api, "protected"@, "protected"@)]
        } else {
            Seq::empty()
        },
        None => match child_text_of(node, "name"@, s) {
            Some(n) => if has_prefix(n, "#"@) {
                seq![detailed(Lens::Api, "private"@, "# sigil \u{2014} enforced at run time"@)]
            } else {
                Seq::empty()
            },
            None => Seq::empty(),
        },
    }) + if in_type(container) {
        Seq::empty()
    } else {
        (if preceded_spec(node, s, "default"@, "default"@) {
            seq![detailed(Lens::Api, "default-export"@, "export default"@)]
        } else if preceded_spec(node, s, "export"@, "default"@) {
            seq![detailed(Lens::Api, "export"@, "export"@)]
        } else {
            seq![detailed(Lens::Api, "module-local"@, "not exported"@)]
        }) + if preceded_spec(node, s, "declare"@, "declare"@) {
            seq![detailed(Lens::Api, "ambient"@, "declare"@)]
        } else {
            Seq::empty()
        }
    }
}

/// Push an entity's `api` facets.
fn api(node: &ParsedNode, ctx: &FacetContext, out: &mut Vec<Facet>)
    requires
        ctx.source.wf(),
        plain_facets(old(out)@),
    ensures
        plain_facets(final(out)@),
        facet_views(final(out)@) == facet_views(old(out)@) + api_spec(*node, ctx.source.text(), ctx.container),
{
    proof {
        reveal_strlit("name");
    }
    let ghost before = facet_views(out@);
    match accessibility(node, ctx) {
        Some(m) => if str_eq(m.as_str(), "private") {
            emit(out, Lens::Api, "private", Some("private".to_string()), Vec::new());
        } else if str_eq(m.as_str(), "protected") {
            emit(out, Lens::Api, "protected", Some("protected".to_string()), Vec::new());
        },
        None => match child_text(node, "name", ctx.source) {
            Some(n) => if str_starts_with(n.as_str(), "#") {
                emit(out, Lens::Api, "private", Some("# sigil \u{2014} enforced at run time".to_string()), Vec::new());
            },
            None => {},
        },
    }
    let member = match ctx.container {
        Some(NodeKind::Type) | Some(NodeKind::Interface) | Some(NodeKind::Implementation) => true,
        _ => false,
    };
    if !member {
        if preceded_by(node, ctx, "default", "default") {
            emit(out, Lens::Api, "default-export", Some("export default".to_string()), Vec::new());
        } else if preceded_by(node, ctx, "export", "default") {
            emit(out, Lens::Api, "export", Some("export".to_string()), Vec::new());
        } else {
            emit(out, Lens::Api, "module-local", Some("not exported".to_string()), Vec::new());
        }
        if preceded_by(node, ctx, "declare", "declare") {
            emit(out, Lens::Api, "ambient", Some("declare".to_string()), Vec::new());
        }
    }
    assert(facet_views(out@) =~= before + api_spec(*node, ctx.source.text(), ctx.container));
}

// --- substitution ---------------------------------------------------------------------

/// The substitution point a declaration's own kind makes it.
pub open spec fn kind_substitution(node: ParsedNode) -> Seq<FacetView> {
    let k = node.kind@;
    if k == "interface_declaration"@ {
        seq![bare(Lens::Substitution, "interface"@)]
    } else if k == "abstract_class_declaration"@ {
        seq![detailed(Lens::Substitution, "abstract"@, "abstract class"@)]
    } else if k == "abstract_method_signature"@ {
        seq![detailed(Lens::Substitution, "abstract"@, "abstract member"@)]
    } else if k == "method_signature"@ || k == "function_signature"@ || k == "property_signature"@ {
        seq![bare(Lens::Substitution, "signature"@)]
    } else {
        Seq::empty()
    }
}

/// One facet per `implements` and `extends` clause among `cs`, with its text.
pub open spec fn heritage_facets(cs: Seq<ParsedNode>, s: Seq<char>) -> Seq<FacetView>
    decreases cs.len(),
{
    if cs.len() == 0 {
        Seq::empty()
    } else {
        heritage_facets(cs.drop_last(), s) + if cs.last().kind@ == "implements_clause"@ {
            seq![detailed(Lens::Substitution, "implements"@, text_or_empty(cs.last(), s))]
        } else if cs.last().kind@ == "extends_clause"@ {
            seq![detailed(Lens::Substitution, "extends"@, text_or_empty(cs.last(), s))]
        } else {
            Seq::empty()
        }
    }
}

/// A declaration's type annotation, as written.
pub open spec fn annotation_of(node: ParsedNode, s: Seq<char>) -> Option<Seq<char>> {
    match first_of_kind(node.children@, "type_annotation"@) {
        Some(a) => node_text_of(a, s),
        None => None,
    }
}

/// A declaration's type annotation.
fn annotation(node: &ParsedNode, ctx: &FacetContext) -> (r: Option<String>)
    requires
        ctx.source.wf(),
    ensures
        match r {
            Some(t) => annotation_of(*node, ctx.source.text()) == Some(t@),
            None => annotation_of(*node, ctx.source.text()) is None,
        },
{
    match child_of_kind(node, "type_annotation") {
        Some(a) => node_text(a, ctx.source),
        None => None,
    }
}

/// Type parameters bounded with `extends`, an optional member (`name?`), and a
/// function-typed annotation.
pub open spec fn further_substitution(node: ParsedNode, s: Seq<char>) -> Seq<FacetView> {
    (match first_of_kind(node.children@, "type_parameters"@) {
        Some(p) => match node_text_of(p, s) {
            Some(t) => if contains_seq(t, "extends"@) {
                seq![detailed(Lens::Substitution, "generic-bound"@, t)]
            } else {
                Seq::empty()
            },
            None => Seq::empty(),
        },
        None => Seq::empty(),
    }) + (match (node_text_of(node, s), child_text_of(node, "name"@, s)) {
        (Some(all), Some(n)) => if has_prefix(all, n.push('?')) {
            seq![bare(Lens::Substitution, "optional"@)]
        } else {
            Seq::empty()
        },
        _ => Seq::empty(),
    }) + match annotation_of(node, s) {
        Some(t) => if contains_seq(t, "=>"@) || contains_seq(t, "Function"@) {
            seq![bare(Lens::Substitution, "callable"@)]
        } else {
            Seq::empty()
        },
        None => Seq::empty(),
    }
}

/// What behaviour can be swapped.
pub open spec fn substitution_spec(node: ParsedNode, s: Seq<char>) -> Seq<FacetView> {
    kind_substitution(node) + (match first_of_kind(node.children@, "class_heritage"@) {
        Some(h) => heritage_facets(h.children@, s),
        None => Seq::empty(),
    }) + further_substitution(node, s)
}

/// Push the heritage clauses' facets.
fn heritage(node: &ParsedNode, ctx: &FacetContext, out: &mut Vec<Facet>)
    requires
        ctx.source.wf(),
        plain_facets(old(out)@),
    ensures
        plain_facets(final(out)@),
        facet_views(final(out)@) == facet_views(old(out)@) + match first_of_kind(node.children@, "class_heritage"@) {
            Some(h) => heritage_facets(h.children@, ctx.source.text()),
            None => Seq::<FacetView>::empty(),
        },
{
    let ghost before = facet_views(out@);
    let h = match child_of_kind(node, "class_heritage") {
        Some(h) => h,
        None => {
            assert(facet_views(out@) =~= before + Seq::<FacetView>::empty());
            return;
        },
    };
    let ghost cs = h.children@;
    let ghost s = ctx.source.text();
    let mut i: usize = 0;
    assert(heritage_facets(cs.take(0), s) =~= Seq::<FacetView>::empty());
    assert(before + Seq::<FacetView>::empty() =~= before);
    while i < h.children.len()
        invariant
            i <= cs.len(),
            cs == h.children@,
            s == ctx.source.text(),
            ctx.source.wf(),
            plain_facets(out@),
            facet_views(out@) == before + heritage_facets(cs.take(i as int), s),
        decreases h.children.len() - i,
    {
        let c = &h.children[i];
        assert(cs.take(i + 1).drop_last() =~= cs.take(i as int));
        assert(cs.take(i + 1).last() == *c);
        if str_eq(c.kind.as_str(), "implements_clause") {
            emit(out, Lens::Substitution, "implements", Some(text_of(c, ctx)), Vec::new());
        } else if str_eq(c.kind.as_str(), "extends_clause") {
            emit(out, Lens::Substitution, "extends", Some(text_of(c, ctx)), Vec::new());
        }
        assert(facet_views(out@) =~= before + heritage_facets(cs.take(i + 1), s));
        i = i + 1;
    }
    assert(cs.take(i as int) =~= cs);
}

/// Push bounds, optional members and callable annotations.
fn further(node: &ParsedNode, ctx: &FacetContext, out: &mut Vec<Facet>)
    requires
        ctx.source.wf(),
        plain_facets(old(out)@),
    ensures
        plain_facets(final(out)@),
        facet_views(final(out)@) == facet_views(old(out)@) + further_substitution(*node, ctx.source.text()),
{
    proof {
        reveal_strlit("name");
    }
    let ghost before = facet_views(out@);
    match child_of_kind(node, "type_parameters") {
        Some(p) => match node_text(p, ctx.source) {
            Some(t) => if str_contains(t.as_str(), "extends") {
                emit(out, Lens::Substitution, "generic-bound", Some(t), Vec::new());
            },
            None => {},
        },
        None => {},
    }
    match (node_text(node, ctx.source), child_text(node, "name", ctx.source)) {
        (Some(all), Some(n)) => {
            let mut want = n.clone();
            crate::text::push_char(&mut want, '?');
            if str_starts_with(all.as_str(), want.as_str()) {
                emit(out, Lens::Substitution, "optional", None, Vec::new());
            }
        },
        _ => {},
    }
    match annotation(node, ctx) {
        Some(t) => if str_contains(t.as_str(), "=>") || str_contains(t.as_str(), "Function") {
            emit(out, Lens::Substitution, "callable", None, Vec::new());
        },
        None => {},
    }
    assert(facet_views(out@) =~= before + further_substitution(*node, ctx.source.text()));
}

/// Push what behaviour can be swapped.
pub fn substitution(node: &ParsedNode, ctx: &FacetContext, out: &mut Vec<Facet>)
    requires
        ctx.source.wf(),
        plain_facets(old(out)@),
    ensures
        plain_facets(final(out)@),
        facet_views(final(out)@) == facet_views(old(out)@) + substitution_spec(*node, ctx.source.text()),
{
    let ghost before = facet_views(out@);
    let k = node.kind.as_str();
    if str_eq(k, "interface_declaration") {
        emit(out, Lens::Substitution, "interface", None, Vec::new());
    } else if str_eq(k, "abstract_class_declaration") {
        emit(out, Lens::Substitution, "abstract", Some("abstract class".to_string()), Vec::new());
    } else if str_eq(k, "abstract_method_signature") {
        emit(out, Lens::Substitution, "abstract", Some("abstract member".to_string()), Vec::new());
    } else if str_eq(k, "method_signature") || str_eq(k, "function_signature") || str_eq(k, "property_signature") {
        emit(out, Lens::Substitution, "signature", None, Vec::new());
    }
    heritage(node, ctx, out);
    further(node, ctx, out);
    assert(facet_views(out@) =~= before + substitution_spec(*node, ctx.source.text()));
}

// --- variation, boundary, hazard -------------------------------------------------------

/// A decorator's name: its text up to its arguments, trimmed; `@?` when its text cannot
/// be read.
pub open spec fn decorator_name(d: ParsedNode, s: Seq<char>) -> Seq<char> {
    trim(cut_at(match node_text_of(d, s) {
        Some(t) => t,
        None => "@?"@,
    }, seq!['(']))
}

/// One facet per decorator among `cs`, named, at its site.
pub open spec fn decorator_facets(cs: Seq<ParsedNode>, s: Seq<char>) -> Seq<FacetView>
    decreases cs.len(),
{
    if cs.len() == 0 {
        Seq::empty()
    } else {
        decorator_facets(cs.drop_last(), s) + if cs.last().kind@ == "decorator"@ {
            seq![(Lens::Variation, "decorator"@, Some(decorator_name(cs.last(), s)), seq![span_range(s, cs.last().start as int, cs.last().end as int)])]
        } else {
            Seq::empty()
        }
    }
}

/// What changes shape before compiling: decorators, and a conditional type in the
/// annotation.
pub open spec fn variation_spec(node: ParsedNode, s: Seq<char>) -> Seq<FacetView> {
    decorator_facets(node.children@, s) + match annotation_of(node, s) {
        Some(t) => if contains_seq(t, seq!['?']) && contains_seq(t, "extends"@) {
            seq![bare(Lens::Variation, "conditional-type"@)]
        } else {
            Seq::empty()
        },
        None => Seq::empty(),
    }
}

/// What crosses the package line: an ambient module declared by a quoted name.
pub open spec fn boundary_spec(node: ParsedNode, s: Seq<char>) -> Seq<FacetView> {
    if node.kind@ == "module"@ && match child_text_of(node, "name"@, s) {
        Some(n) => has_prefix(n, seq!['"']) || has_prefix(n, seq!['\'']),
        None => false,
    } {
        seq![bare(Lens::Boundary, "ambient-module"@)]
    } else {
        Seq::empty()
    }
}

/// Where substitution is dangerous: an `async` declaration.
pub open spec fn hazard_spec(node: ParsedNode, s: Seq<char>) -> Seq<FacetView> {
    if preceded_spec(node, s, "async"@, "async"@) || has_prefix(text_or_empty(node, s), "async "@) {
        seq![bare(Lens::Hazard, "async"@)]
    } else {
        Seq::empty()
    }
}

/// Every facet an entity carries, lens by lens.
pub open spec fn entity_spec(node: ParsedNode, s: Seq<char>, container: Option<NodeKind>) -> Seq<FacetView> {
    api_spec(node, s, container) + substitution_spec(node, s) + variation_spec(node, s) + boundary_spec(node, s) + hazard_spec(node, s)
}

/// Push what changes shape before compiling.
fn variation(node: &ParsedNode, ctx: &FacetContext, out: &mut Vec<Facet>)
    requires
        ctx.source.wf(),
        plain_facets(old(out)@),
    ensures
        plain_facets(final(out)@),
        facet_views(final(out)@) == facet_views(old(out)@) + variation_spec(*node, ctx.source.text()),
{
    proof {
        reveal_strlit("@?");
    }
    let ghost before = facet_views(out@);
    let ghost cs = node.children@;
    let ghost s = ctx.source.text();
    let mut i: usize = 0;
    assert(decorator_facets(cs.take(0), s) =~= Seq::<FacetView>::empty());
    assert(before + Seq::<FacetView>::empty() =~= before);
    while i < node.children.len()
        invariant
            i <= cs.len(),
            cs == node.children@,
            s == ctx.source.text(),
            ctx.source.wf(),
            plain_facets(out@),
            facet_views(out@) == before + decorator_facets(cs.take(i as int), s),
        decreases node.children.len() - i,
    {
        let c = &node.children[i];
        assert(cs.take(i + 1).drop_last() =~= cs.take(i as int));
        assert(cs.take(i + 1).last() == *c);
        if str_eq(c.kind.as_str(), "decorator") {
            let text = match node_text(c, ctx.source) {
                Some(t) => t,
                None => "@?".to_string(),
            };
            let stops = vec!['('];
            assert(stops@ =~= seq!['(']);
            let name = string_of(trimmed(&cut(&chars_of(text.as_str()), stops.as_slice())).as_slice());
            emit(out, Lens::Variation, "decorator", Some(name), one_site(ctx.range(c.start, c.end)));
        }
        assert(facet_views(out@) =~= before + decorator_facets(cs.take(i + 1), s));
        i = i + 1;
    }
    assert(cs.take(i as int) =~= cs);
    let ghost mid = facet_views(out@);
    match annotation(node, ctx) {
        Some(t) => if str_contains(t.as_str(), "?") && str_contains(t.as_str(), "extends") {
            proof {
                reveal_strlit("?");
            }
            emit(out, Lens::Variation, "conditional-type", None, Vec::new());
        },
        None => {},
    }
    proof {
        reveal_strlit("?");
        assert("?"@ =~= seq!['?']);
    }
    assert(facet_views(out@) =~= before + variation_spec(*node, s));
}

/// Push what crosses the package line.
fn boundary(node: &ParsedNode, ctx: &FacetContext, out: &mut Vec<Facet>)
    requires
        ctx.source.wf(),
        plain_facets(old(out)@),
    ensures
        plain_facets(final(out)@),
        facet_views(final(out)@) == facet_views(old(out)@) + boundary_spec(*node, ctx.source.text()),
{
    proof {
        reveal_strlit("name");
        reveal_strlit("\"");
        reveal_strlit("'");
        assert("\""@ =~= seq!['"']);
        assert("'"@ =~= seq!['\'']);
    }
    let ghost before = facet_views(out@);
    let quoted = str_eq(node.kind.as_str(), "module") && match child_text(node, "name", ctx.source) {
        Some(n) => str_starts_with(n.as_str(), "\"") || str_starts_with(n.as_str(), "'"),
        None => false,
    };
    if quoted {
        emit(out, Lens::Boundary, "ambient-module", None, Vec::new());
    }
    assert(facet_views(out@) =~= before + boundary_spec(*node, ctx.source.text()));
}

/// Push where substitution is dangerous.
fn hazard(node: &ParsedNode, ctx: &FacetContext, out: &mut Vec<Facet>)
    requires
        ctx.source.wf(),
        plain_facets(old(out)@),
    ensures
        plain_facets(final(out)@),
        facet_views(final(out)@) == facet_views(old(out)@) + hazard_spec(*node, ctx.source.text()),
{
    let ghost before = facet_views(out@);
    if preceded_by(node, ctx, "async", "async") || str_starts_with(text_of(node, ctx).as_str(), "async ") {
        emit(out, Lens::Hazard, "async", None, Vec::new());
    }
    assert(facet_views(out@) =~= before + hazard_spec(*node, ctx.source.text()));
}

/// Push every facet an entity carries.
pub fn entity_facets(node: &ParsedNode, ctx: &FacetContext, out: &mut Vec<Facet>)
    requires
        ctx.source.wf(),
        plain_facets(old(out)@),
    ensures
        plain_facets(final(out)@),
        facet_views(final(out)@) == facet_views(old(out)@) + entity_spec(*node, ctx.source.text(), ctx.container),
{
    let ghost before = facet_views(out@);
    api(node, ctx, out);
    substitution(node, ctx, out);
    variation(node, ctx, out);
    boundary(node, ctx, out);
    hazard(node, ctx, out);
    assert(facet_views(out@) =~= before + entity_spec(*node, ctx.source.text(), ctx.container));
}

// --- what non-entities contribute ------------------------------------------------------

/// Whether `c` is a quote mark a module specifier may be written in.
pub open spec fn is_quote(c: char) -> bool {
    c == '"' || c == '\'' || c == '`'
}

/// `t` without its leading quote marks.
pub open spec fn unquote_start(t: Seq<char>) -> Seq<char>
    decreases t.len(),
{
    if t.len() > 0 && is_quote(t[0]) {
        unquote_start(t.drop_first())
    } else {
        t
    }
}

/// `t` without its trailing quote marks.
pub open spec fn unquote_end(t: Seq<char>) -> Seq<char>
    decreases t.len(),
{
    if t.len() > 0 && is_quote(t.last()) {
        unquote_end(t.drop_last())
    } else {
        t
    }
}

/// A module specifier without the quotes around it.
pub open spec fn unquoted(t: Seq<char>) -> Seq<char> {
    unquote_end(unquote_start(t))
}

/// A module specifier without the quotes around it.
fn unquote(t: &str) -> (r: String)
    ensures
        r@ == unquoted(t@),
{
    let v = chars_of(t);
    let mut i: usize = 0;
    assert(v@.skip(0) =~= v@);
    while i < v.len() && (v[i] == '"' || v[i] == '\'' || v[i] == '`')
        invariant
            i <= v@.len(),
            unquote_start(v@) == unquote_start(v@.skip(i as int)),
        decreases v.len() - i,
    {
        assert(v@.skip(i as int).drop_first() =~= v@.skip(i + 1));
        i = i + 1;
    }
    let mut e: usize = v.len();
    assert(v@.skip(i as int) =~= v@.subrange(i as int, e as int));
    while e > i && (v[e - 1] == '"' || v[e - 1] == '\'' || v[e - 1] == '`')
        invariant
            i <= e <= v@.len(),
            unquoted(v@) == unquote_end(v@.subrange(i as int, e as int)),
        decreases e,
    {
        assert(v@.subrange(i as int, e as int).drop_last() =~= v@.subrange(i as int, e - 1));
        e = e - 1;
    }
    if e > i {
        assert(v@.subrange(i as int, e as int).last() == v@[e - 1]);
    }
    let r = crate::id::slice_range(&v, i, e);
    string_of(r.as_slice())
}

/// What a call contributes: a dynamic `import()` and an `eval` or `Function`.
pub open spec fn call_spec(node: ParsedNode, s: Seq<char>) -> Seq<FacetView> {
    let site = seq![span_range(s, node.start as int, node.end as int)];
    match field_child(node.children@, "function"@) {
        Some(f) => match node_text_of(f, s) {
            Some(callee) => if callee == "import"@ {
                seq![(Lens::Variation, "dynamic-import"@, None, site)]
            } else if callee == "eval"@ || callee == "Function"@ {
                seq![(Lens::Hazard, "runtime-eval"@, Some(callee), site)]
            } else {
                Seq::empty()
            },
            None => Seq::empty(),
        },
        None => Seq::empty(),
    }
}

/// What an import or re-export contributes: the package it reads from, unless the
/// specifier is relative or absolute.
pub open spec fn import_spec(node: ParsedNode, s: Seq<char>) -> Seq<FacetView> {
    match field_child(node.children@, "source"@) {
        Some(f) => match node_text_of(f, s) {
            Some(source) => {
                let specifier = unquoted(source);
                if has_prefix(specifier, seq!['.']) || has_prefix(specifier, seq!['/']) {
                    Seq::empty()
                } else {
                    seq![(Lens::Boundary, "external-import"@, Some(specifier), seq![span_range(s, node.start as int, node.end as int)])]
                }
            },
            None => Seq::empty(),
        },
        None => Seq::empty(),
    }
}

/// A non-entity's facets, as sites on the entity around it: an `await`; a non-null
/// assertion; a cast to `any`; a comment silencing the checker; a dynamic import or
/// run-time evaluation; an import of another package; `globalThis`; and `process`.
pub open spec fn interior_spec(node: ParsedNode, s: Seq<char>) -> Seq<FacetView> {
    let text = text_or_empty(node, s);
    let site = seq![span_range(s, node.start as int, node.end as int)];
    let k = node.kind@;
    if k == "await_expression"@ {
        seq![(Lens::Hazard, "await"@, None, site)]
    } else if k == "non_null_expression"@ {
        seq![(Lens::Hazard, "non-null"@, None, site)]
    } else if (k == "as_expression"@ || k == "type_assertion"@) && has_suffix(text, "any"@) {
        seq![(Lens::Hazard, "any-cast"@, Some("as any"@), site)]
    } else if k == "comment"@ && (contains_seq(text, "@ts-ignore"@) || contains_seq(text, "@ts-expect-error"@)) {
        seq![(Lens::Hazard, "suppressed"@, Some(trim(text)), site)]
    } else if k == "call_expression"@ {
        call_spec(node, s)
    } else if k == "import_statement"@ || k == "export_statement"@ {
        import_spec(node, s)
    } else if k == "member_expression"@ && has_prefix(text, "globalThis"@) {
        seq![(Lens::Boundary, "global"@, None, site)]
    } else if k == "identifier"@ && text == "process"@ {
        seq![(Lens::Variation, "environment-branch"@, Some("process.env"@), site)]
    } else {
        Seq::empty()
    }
}

/// Push what a call contributes.
fn call_facets(node: &ParsedNode, ctx: &FacetContext, out: &mut Vec<Facet>)
    requires
        ctx.source.wf(),
        plain_facets(old(out)@),
    ensures
        plain_facets(final(out)@),
        facet_views(final(out)@) == facet_views(old(out)@) + call_spec(*node, ctx.source.text()),
{
    proof {
        reveal_strlit("function");
    }
    let ghost before = facet_views(out@);
    let callee = match child_by_field(node, "function") {
        Some(f) => match node_text(f, ctx.source) {
            Some(c) => c,
            None => {
                assert(facet_views(out@) =~= before + call_spec(*node, ctx.source.text()));
                return;
            },
        },
        None => {
            assert(facet_views(out@) =~= before + call_spec(*node, ctx.source.text()));
            return;
        },
    };
    let site = one_site(ctx.range(node.start, node.end));
    if str_eq(callee.as_str(), "import") {
        emit(out, Lens::Variation, "dynamic-import", None, site);
    } else if str_eq(callee.as_str(), "eval") || str_eq(callee.as_str(), "Function") {
        emit(out, Lens::Hazard, "runtime-eval", Some(callee), site);
    }
    assert(facet_views(out@) =~= before + call_spec(*node, ctx.source.text()));
}

/// Push what an import contributes.
fn import_facets(node: &ParsedNode, ctx: &FacetContext, out: &mut Vec<Facet>)
    requires
        ctx.source.wf(),
        plain_facets(old(out)@),
    ensures
        plain_facets(final(out)@),
        facet_views(final(out)@) == facet_views(old(out)@) + import_spec(*node, ctx.source.text()),
{
    proof {
        reveal_strlit("source");
        reveal_strlit(".");
        reveal_strlit("/");
        assert("."@ =~= seq!['.']);
        assert("/"@ =~= seq!['/']);
    }
    let ghost before = facet_views(out@);
    let source = match child_by_field(node, "source") {
        Some(f) => match node_text(f, ctx.source) {
            Some(c) => c,
            None => {
                assert(facet_views(out@) =~= before + import_spec(*node, ctx.source.text()));
                return;
            },
        },
        None => {
            assert(facet_views(out@) =~= before + import_spec(*node, ctx.source.text()));
            return;
        },
    };
    let specifier = unquote(source.as_str());
    if !(str_starts_with(specifier.as_str(), ".") || str_starts_with(specifier.as_str(), "/")) {
        emit(out, Lens::Boundary, "external-import", Some(specifier), one_site(ctx.range(node.start, node.end)));
    }
    assert(facet_views(out@) =~= before + import_spec(*node, ctx.source.text()));
}

/// Push a non-entity's facets.
pub fn interior_facets(node: &ParsedNode, ctx: &FacetContext, out: &mut Vec<Facet>)
    requires
        ctx.source.wf(),
        plain_facets(old(out)@),
    ensures
        plain_facets(final(out)@),
        facet_views(final(out)@) == facet_views(old(out)@) + interior_spec(*node, ctx.source.text()),
{
    let ghost before = facet_views(out@);
    let text = text_of(node, ctx);
    let k = node.kind.as_str();
    if str_eq(k, "await_expression") {
        emit(out, Lens::Hazard, "await", None, one_site(ctx.range(node.start, node.end)));
    } else if str_eq(k, "non_null_expression") {
        emit(out, Lens::Hazard, "non-null", None, one_site(ctx.range(node.start, node.end)));
    } else if (str_eq(k, "as_expression") || str_eq(k, "type_assertion")) && str_ends_with(text.as_str(), "any") {
        emit(out, Lens::Hazard, "any-cast", Some("as any".to_string()), one_site(ctx.range(node.start, node.end)));
    } else if str_eq(k, "comment") && (str_contains(text.as_str(), "@ts-ignore") || str_contains(text.as_str(), "@ts-expect-error")) {
        let detail = string_of(trimmed(&chars_of(text.as_str())).as_slice());
        emit(out, Lens::Hazard, "suppressed", Some(detail), one_site(ctx.range(node.start, node.end)));
    } else if str_eq(k, "call_expression") {
        call_facets(node, ctx, out);
    } else if str_eq(k, "import_statement") || str_eq(k, "export_statement") {
        import_facets(node, ctx, out);
    } else if str_eq(k, "member_expression") && str_starts_with(text.as_str(), "globalThis") {
        emit(out, Lens::Boundary, "global", None, one_site(ctx.range(node.start, node.end)));
    } else if str_eq(k, "identifier") && str_eq(text.as_str(), "process") {
        emit(out, Lens::Variation, "environment-branch", Some("process.env".to_string()), one_site(ctx.range(node.start, node.end)));
    }
    assert(facet_views(out@) =~= before + interior_spec(*node, ctx.source.text()));
}

} // verus!
