//! The Kotlin mapping.
//!
//! Kotlin's version of "written away from what it belongs to" is not a block but a single
//! declaration: `fun Widget.render()` is a member of `Widget` written at the top level of
//! whatever file its author chose, so ownership applies to the member itself.
//!
//! Three shapes of the grammar drive the rest. **One node kind carries `class`,
//! `interface`, `enum class` and `data class`**, the keyword an anonymous token, so it is
//! read from the text between the modifiers and the name. **A receiver and a return type
//! are the same node kind**: what separates them is that the receiver is written before
//! the name. **A companion object is transparent**: it is not classified, so its members
//! attach to the class directly.

pub mod facets;

use vstd::prelude::*;
use crate::config::predicate::trim;
use crate::lang::after_last;
use crate::lang::after_last_char;
use crate::lang::cut;
use crate::lang::cut_at;
use crate::lang::identifier;
use crate::lang::is_identifier;
use crate::lang::trimmed;
use crate::text::chars_of;
use crate::text::string_of;
use crate::config::predicate::trim_end;
use crate::contribution::Owner;
use crate::coord::Range;
use crate::lang::Classified;
use crate::lang::ClassifiedView;
use crate::lang::FacetContext;
use crate::lang::span_range;
use crate::model::NodeKind;
use crate::model::Visibility;
use crate::syntax::ParsedNode;
use crate::syntax::child_by_field;
use crate::syntax::child_of_kind;
use crate::syntax::child_text;
use crate::syntax::child_text_of;
use crate::syntax::field_child;
use crate::syntax::first_of_kind;
use crate::syntax::node_text;
use crate::syntax::node_text_of;
use crate::syntax::text_slice;
use crate::text::str_eq;
use crate::text::unicode_whitespace;
use crate::text::is_whitespace;
use karet_treesitter::LanguageId;

verus! {

/// The bare type name a Kotlin type expression is about: generic arguments,
/// nullability and package qualification dropped. `None` when the head is not one
/// identifier.
pub open spec fn base_name_of(text: Seq<char>) -> Option<Seq<char>> {
    let head = trim(after_last(cut_at(trim(text), seq!['<', ' ', '?']), '.'));
    if is_identifier(head) {
        Some(head)
    } else {
        None
    }
}

/// The bare type name a Kotlin type expression is about, or `None` when it is not about
/// one nameable type.
pub fn base_name(text: &str) -> (r: Option<String>)
    ensures
        match r {
            Some(h) => base_name_of(text@) == Some(h@),
            None => base_name_of(text@) is None,
        },
{
    let chars = chars_of(text);
    let head = trimmed(&after_last_char(&cut(&trimmed(&chars), &['<', ' ', '?']), '.'));
    if identifier(&head) {
        Some(string_of(head.as_slice()))
    } else {
        None
    }
}

/// The grammar id for Kotlin, when the grammar is compiled in.
pub fn language_id() -> (r: Option<LanguageId>)
    ensures
        r == crate::lang::injection_grammar("kotlin"@),
{
    crate::lang::grammar_named("kotlin")
}

/// Whether a node of this kind introduces a new scope for paths.
pub fn is_container(kind: &str) -> (r: bool)
    ensures
        r == (kind@ == "source_file"@ || kind@ == "class_declaration"@ || kind@ == "object_declaration"@),
{
    str_eq(kind, "source_file") || str_eq(kind, "class_declaration") || str_eq(kind, "object_declaration")
}

// --- modifiers ----------------------------------------------------------------------

/// The texts of the children of `kind` among `cs`, in order.
pub open spec fn texts_of_kind(cs: Seq<ParsedNode>, s: Seq<char>, kind: Seq<char>) -> Seq<Seq<char>>
    decreases cs.len(),
{
    if cs.len() == 0 {
        Seq::empty()
    } else {
        texts_of_kind(cs.drop_last(), s, kind) + if cs.last().kind@ == kind {
            match node_text_of(cs.last(), s) {
                Some(t) => seq![t],
                None => Seq::empty(),
            }
        } else {
            Seq::empty()
        }
    }
}

/// The text of a declaration's first modifier of `kind`.
pub open spec fn modifier_of(node: ParsedNode, s: Seq<char>, kind: Seq<char>) -> Option<Seq<char>> {
    match first_of_kind(node.children@, "modifiers"@) {
        Some(m) => match first_of_kind(m.children@, kind) {
            Some(c) => node_text_of(c, s),
            None => None,
        },
        None => None,
    }
}

/// The texts of every modifier of `kind` a declaration carries.
pub open spec fn modifiers_of(node: ParsedNode, s: Seq<char>, kind: Seq<char>) -> Seq<Seq<char>> {
    match first_of_kind(node.children@, "modifiers"@) {
        Some(m) => texts_of_kind(m.children@, s, kind),
        None => Seq::empty(),
    }
}

/// The text of a declaration's first modifier of `kind`.
pub fn modifier(node: &ParsedNode, ctx: &FacetContext, kind: &str) -> (r: Option<String>)
    requires
        ctx.source.wf(),
    ensures
        match r {
            Some(t) => modifier_of(*node, ctx.source.text(), kind@) == Some(t@),
            None => modifier_of(*node, ctx.source.text(), kind@) is None,
        },
{
    match child_of_kind(node, "modifiers") {
        Some(m) => match child_of_kind(m, kind) {
            Some(c) => node_text(c, ctx.source),
            None => None,
        },
        None => None,
    }
}

/// The texts of the children of `kind` among `node`'s children.
pub fn child_texts(node: &ParsedNode, ctx: &FacetContext, kind: &str) -> (r: Vec<String>)
    requires
        ctx.source.wf(),
    ensures
        r@.map_values(|t: String| t@) == texts_of_kind(node.children@, ctx.source.text(), kind@),
{
    let ghost cs = node.children@;
    let ghost s = ctx.source.text();
    let mut out: Vec<String> = Vec::new();
    let mut i: usize = 0;
    assert(out@.map_values(|t: String| t@) =~= texts_of_kind(cs.take(0), s, kind@));
    while i < node.children.len()
        invariant
            i <= cs.len(),
            cs == node.children@,
            s == ctx.source.text(),
            ctx.source.wf(),
            out@.map_values(|t: String| t@) == texts_of_kind(cs.take(i as int), s, kind@),
        decreases node.children.len() - i,
    {
        let c = &node.children[i];
        let ghost before = out@;
        assert(cs.take(i + 1).drop_last() =~= cs.take(i as int));
        assert(cs.take(i + 1).last() == *c);
        if str_eq(c.kind.as_str(), kind) {
            match node_text(c, ctx.source) {
                Some(t) => {
                    out.push(t);
                    assert(out@.map_values(|t: String| t@) =~= before.map_values(|t: String| t@).push(out@.last()@));
                },
                None => {},
            }
        }
        i = i + 1;
    }
    assert(cs.take(i as int) =~= cs);
    out
}

/// The texts of every modifier of `kind` a declaration carries.
pub fn modifiers(node: &ParsedNode, ctx: &FacetContext, kind: &str) -> (r: Vec<String>)
    requires
        ctx.source.wf(),
    ensures
        r@.map_values(|t: String| t@) == modifiers_of(*node, ctx.source.text(), kind@),
{
    match child_of_kind(node, "modifiers") {
        Some(m) => child_texts(m, ctx, kind),
        None => {
            let r: Vec<String> = Vec::new();
            assert(r@.map_values(|t: String| t@) =~= Seq::<Seq<char>>::empty());
            r
        },
    }
}

/// Kotlin's declared visibility. The default is `public`, the opposite of Rust's: an
/// unmarked declaration is part of the module's surface.
pub open spec fn visibility_spec(node: ParsedNode, s: Seq<char>) -> Visibility {
    match modifier_of(node, s, "visibility_modifier"@) {
        Some(t) => if t == "private"@ {
            Visibility::Private
        } else if t == "protected"@ {
            Visibility::Super
        } else if t == "internal"@ {
            Visibility::Crate
        } else {
            Visibility::Public
        },
        None => Visibility::Public,
    }
}

/// Kotlin's declared visibility.
pub fn visibility_of(node: &ParsedNode, ctx: &FacetContext) -> (r: Visibility)
    requires
        ctx.source.wf(),
    ensures
        r == visibility_spec(*node, ctx.source.text()),
{
    match modifier(node, ctx, "visibility_modifier") {
        Some(t) => if str_eq(t.as_str(), "private") {
            Visibility::Private
        } else if str_eq(t.as_str(), "protected") {
            Visibility::Super
        } else if str_eq(t.as_str(), "internal") {
            Visibility::Crate
        } else {
            Visibility::Public
        },
        None => Visibility::Public,
    }
}

// --- keyword and receiver -------------------------------------------------------------

/// The last run of non-whitespace at the end of `t`.
pub open spec fn trailing_word(t: Seq<char>) -> Seq<char>
    decreases t.len(),
{
    if t.len() == 0 || unicode_whitespace(t.last()) {
        Seq::empty()
    } else {
        trailing_word(t.drop_last()).push(t.last())
    }
}

/// The last whitespace-separated word of `b`, or nothing.
pub open spec fn last_word(b: Seq<char>) -> Seq<char> {
    trailing_word(trim_end(b))
}

/// The keyword introducing a declaration — `class`, `interface`, `object`, `enum`: the
/// last word between its modifiers (or its start) and its name (or its end).
pub open spec fn keyword_spec(node: ParsedNode, s: Seq<char>) -> Seq<char> {
    let from = match first_of_kind(node.children@, "modifiers"@) {
        Some(m) => m.end as int,
        None => node.start as int,
    };
    let to = match field_child(node.children@, "name"@) {
        Some(n) => n.start as int,
        None => node.end as int,
    };
    match text_slice(s, from, if to > from { to } else { from }) {
        Some(b) => last_word(b),
        None => Seq::empty(),
    }
}

/// The last whitespace-separated word of `v`.
pub(crate) fn last_word_of(v: &Vec<char>) -> (r: String)
    ensures
        r@ == last_word(v@),
{
    let e = crate::config::predicate::trim_end_to(v, 0, v.len());
    assert(v@.subrange(0, v@.len() as int) =~= v@);
    let ghost t = v@.subrange(0, e as int);
    let mut b: usize = e;
    assert(t.subrange(b as int, t.len() as int) =~= Seq::<char>::empty());
    assert(t.take(b as int) =~= t);
    while b > 0 && !is_whitespace(v[b - 1])
        invariant
            b <= e <= v@.len(),
            t == v@.subrange(0, e as int),
            trailing_word(t) == trailing_word(t.take(b as int)) + t.subrange(b as int, t.len() as int),
        decreases b,
    {
        let ghost u = t.take(b as int);
        assert(u.last() == v@[b - 1]);
        assert(u.drop_last() =~= t.take(b - 1));
        assert(trailing_word(t.take(b - 1)) + t.subrange(b - 1, t.len() as int)
            =~= trailing_word(t.take(b - 1)).push(v@[b - 1]) + t.subrange(b as int, t.len() as int));
        b = b - 1;
    }
    if b > 0 {
        assert(t.take(b as int).last() == v@[b - 1]);
    } else {
        assert(t.take(0) =~= Seq::<char>::empty());
    }
    let r = crate::id::slice_range(v, b, e);
    assert(r@ =~= t.subrange(b as int, t.len() as int));
    assert(trailing_word(t.take(b as int)) =~= Seq::<char>::empty());
    string_of(r.as_slice())
}

/// The keyword introducing a declaration.
pub fn keyword(node: &ParsedNode, ctx: &FacetContext) -> (r: String)
    requires
        ctx.source.wf(),
    ensures
        r@ == keyword_spec(*node, ctx.source.text()),
{
    proof {
        reveal_strlit("name");
    }
    let from = match child_of_kind(node, "modifiers") {
        Some(m) => m.end,
        None => node.start,
    };
    let to = match child_by_field(node, "name") {
        Some(n) => n.start,
        None => node.end,
    };
    let upto = if to > from { to } else { from };
    match ctx.source.slice(from, upto) {
        Some(b) => last_word_of(&chars_of(b.as_str())),
        None => String::new(),
    }
}

/// The first `user_type` among `cs` written before byte `anchor`.
pub open spec fn type_before(cs: Seq<ParsedNode>, anchor: int) -> Option<ParsedNode>
    decreases cs.len(),
{
    if cs.len() == 0 {
        None
    } else if cs[0].kind@ == "user_type"@ && (cs[0].start as int) < anchor {
        Some(cs[0])
    } else {
        type_before(cs.drop_first(), anchor)
    }
}

/// The receiver of an extension function or property: a `user_type` written before the
/// declaration's name (or, for a property, its `variable_declaration`) — a return type
/// is the same kind of node written after.
pub open spec fn receiver_spec(node: ParsedNode, s: Seq<char>) -> Option<Seq<char>> {
    if !(node.kind@ == "function_declaration"@ || node.kind@ == "property_declaration"@) {
        None
    } else {
        let anchor = match field_child(node.children@, "name"@) {
            Some(n) => Some(n.start as int),
            None => match first_of_kind(node.children@, "variable_declaration"@) {
                Some(v) => Some(v.start as int),
                None => None,
            },
        };
        match anchor {
            Some(a) => match type_before(node.children@, a) {
                Some(c) => node_text_of(c, s),
                None => None,
            },
            None => None,
        }
    }
}

/// The receiver type of an extension declaration, when this node is one.
pub fn receiver(node: &ParsedNode, ctx: &FacetContext) -> (r: Option<String>)
    requires
        ctx.source.wf(),
    ensures
        match r {
            Some(t) => receiver_spec(*node, ctx.source.text()) == Some(t@),
            None => receiver_spec(*node, ctx.source.text()) is None,
        },
{
    proof {
        reveal_strlit("name");
    }
    if !(str_eq(node.kind.as_str(), "function_declaration") || str_eq(node.kind.as_str(), "property_declaration")) {
        return None;
    }
    let anchor = match child_by_field(node, "name") {
        Some(n) => n.start,
        None => match child_of_kind(node, "variable_declaration") {
            Some(v) => v.start,
            None => return None,
        },
    };
    let ghost cs = node.children@;
    assert(receiver_spec(*node, ctx.source.text()) == match type_before(cs, anchor as int) {
        Some(c) => node_text_of(c, ctx.source.text()),
        None => None,
    });
    let mut i: usize = 0;
    assert(cs.skip(0) =~= cs);
    while i < node.children.len()
        invariant
            i <= cs.len(),
            cs == node.children@,
            ctx.source.wf(),
            receiver_spec(*node, ctx.source.text()) == match type_before(cs, anchor as int) {
                Some(c) => node_text_of(c, ctx.source.text()),
                None => None,
            },
            type_before(cs, anchor as int) == type_before(cs.skip(i as int), anchor as int),
        decreases node.children.len() - i,
    {
        let c = &node.children[i];
        assert(cs.skip(i as int)[0] == *c);
        assert(cs.skip(i as int).drop_first() =~= cs.skip(i + 1));
        if str_eq(c.kind.as_str(), "user_type") && c.start < anchor {
            return node_text(c, ctx.source);
        }
        i = i + 1;
    }
    assert(cs.skip(i as int).len() == 0);
    None
}

/// Where an extension declaration belongs: under its receiver's bare type.
pub open spec fn owners_spec(node: ParsedNode, s: Seq<char>) -> Seq<crate::lang::rust::OwnerView> {
    match receiver_spec(node, s) {
        Some(r) => match base_name_of(r) {
            Some(b) => seq![(b, None, false)],
            None => Seq::empty(),
        },
        None => Seq::empty(),
    }
}

/// Where an extension declaration belongs.
pub fn owners(node: &ParsedNode, ctx: &FacetContext) -> (r: Vec<Owner>)
    requires
        ctx.source.wf(),
    ensures
        r@.map_values(|o: Owner| crate::lang::rust::owner_view(o)) == owners_spec(*node, ctx.source.text()),
{
    let mut out: Vec<Owner> = Vec::new();
    match receiver(node, ctx) {
        Some(r) => match base_name(r.as_str()) {
            Some(b) => {
                out.push(Owner::nested(b));
            },
            None => {},
        },
        None => {},
    }
    assert(out@.map_values(|o: Owner| crate::lang::rust::owner_view(o)) =~= owners_spec(*node, ctx.source.text()));
    out
}

// --- classification -------------------------------------------------------------------

/// An entity named `name`, selected at `selection`, with the declaration's visibility.
pub open spec fn built(node: ParsedNode, s: Seq<char>, kind: NodeKind, name: Seq<char>, selection: Range) -> ClassifiedView {
    (kind, name, name, None, selection, Some(visibility_spec(node, s)))
}

/// An entity named by the trimmed text of its `field`.
pub open spec fn field_named(node: ParsedNode, s: Seq<char>, field: Seq<char>, kind: NodeKind) -> Option<ClassifiedView> {
    match child_text_of(node, field, s) {
        Some(n) => Some(built(node, s, kind, trim(n), match field_child(node.children@, field) {
            Some(c) => span_range(s, c.start as int, c.end as int),
            None => span_range(s, node.start as int, node.end as int),
        })),
        None => None,
    }
}

/// An entity named by its first bare `identifier` child.
pub open spec fn identifier_named(node: ParsedNode, s: Seq<char>, kind: NodeKind) -> Option<ClassifiedView> {
    match first_of_kind(node.children@, "identifier"@) {
        Some(i) => match node_text_of(i, s) {
            Some(n) => Some(built(node, s, kind, n, span_range(s, i.start as int, i.end as int))),
            None => None,
        },
        None => None,
    }
}

/// A property, named inside its `variable_declaration`, with the property's own
/// visibility: it carries the modifiers.
pub open spec fn binding_named(node: ParsedNode, s: Seq<char>, kind: NodeKind) -> Option<ClassifiedView> {
    match first_of_kind(node.children@, "variable_declaration"@) {
        Some(d) => match identifier_named(d, s, kind) {
            Some(c) => Some((c.0, c.1, c.2, c.3, c.4, Some(visibility_spec(node, s)))),
            None => None,
        },
        None => None,
    }
}

/// What a node is, if it is an entity at all: a class, interface or object; a type
/// alias; a function (a member inside a type, or as an extension); a property (a member
/// inside a type or as an extension, a constant at file level, nothing in a body); a
/// primary-constructor property; an enum entry.
pub open spec fn classify_spec(node: ParsedNode, s: Seq<char>, container: Option<NodeKind>) -> Option<ClassifiedView> {
    let member_of_type = container == Some(NodeKind::Type) || container == Some(NodeKind::Interface)
        || container == Some(NodeKind::Implementation);
    let k = node.kind@;
    if k == "class_declaration"@ && keyword_spec(node, s) == "interface"@ {
        field_named(node, s, "name"@, NodeKind::Interface)
    } else if k == "class_declaration"@ || k == "object_declaration"@ {
        field_named(node, s, "name"@, NodeKind::Type)
    } else if k == "type_alias"@ {
        field_named(node, s, "type"@, NodeKind::Type)
    } else if k == "function_declaration"@ {
        field_named(node, s, "name"@, if member_of_type || receiver_spec(node, s) is Some { NodeKind::Member } else { NodeKind::Function })
    } else if k == "property_declaration"@ {
        if member_of_type || receiver_spec(node, s) is Some {
            binding_named(node, s, NodeKind::Member)
        } else if container == Some(NodeKind::Package) || container == Some(NodeKind::Module) {
            binding_named(node, s, NodeKind::Constant)
        } else {
            None
        }
    } else if k == "class_parameter"@ && member_of_type {
        identifier_named(node, s, NodeKind::Member)
    } else if k == "enum_entry"@ {
        identifier_named(node, s, NodeKind::Member)
    } else {
        None
    }
}

/// An entity named by the trimmed text of its `field`.
fn by_field(node: &ParsedNode, ctx: &FacetContext, field: &str, kind: NodeKind) -> (r: Option<Classified>)
    requires
        ctx.source.wf(),
    ensures
        match r {
            Some(c) => field_named(*node, ctx.source.text(), field@, kind) == Some(crate::lang::classified_view(c)),
            None => field_named(*node, ctx.source.text(), field@, kind) is None,
        },
{
    let raw = match child_text(node, field, ctx.source) {
        Some(n) => n,
        None => return None,
    };
    let name = string_of(trimmed(&chars_of(raw.as_str())).as_slice());
    let selection = match child_by_field(node, field) {
        Some(c) => ctx.range(c.start, c.end),
        None => ctx.range(node.start, node.end),
    };
    let segment = name.clone();
    Some(Classified { kind, name, segment, detail: None, selection, visibility: Some(visibility_of(node, ctx)) })
}

/// An entity named by its first bare `identifier` child.
fn by_identifier(node: &ParsedNode, ctx: &FacetContext, kind: NodeKind) -> (r: Option<Classified>)
    requires
        ctx.source.wf(),
    ensures
        match r {
            Some(c) => identifier_named(*node, ctx.source.text(), kind) == Some(crate::lang::classified_view(c)),
            None => identifier_named(*node, ctx.source.text(), kind) is None,
        },
{
    let i = match child_of_kind(node, "identifier") {
        Some(i) => i,
        None => return None,
    };
    let name = match node_text(i, ctx.source) {
        Some(n) => n,
        None => return None,
    };
    let segment = name.clone();
    Some(Classified { kind, name, segment, detail: None, selection: ctx.range(i.start, i.end), visibility: Some(visibility_of(node, ctx)) })
}

/// A property, named inside its `variable_declaration`.
fn by_binding(node: &ParsedNode, ctx: &FacetContext, kind: NodeKind) -> (r: Option<Classified>)
    requires
        ctx.source.wf(),
    ensures
        match r {
            Some(c) => binding_named(*node, ctx.source.text(), kind) == Some(crate::lang::classified_view(c)),
            None => binding_named(*node, ctx.source.text(), kind) is None,
        },
{
    let d = match child_of_kind(node, "variable_declaration") {
        Some(d) => d,
        None => return None,
    };
    match by_identifier(d, ctx, kind) {
        Some(c) => Some(Classified { visibility: Some(visibility_of(node, ctx)), ..c }),
        None => None,
    }
}

/// Map one node onto an addressable entity, or `None` when it is not one.
pub fn classify(node: &ParsedNode, ctx: &FacetContext) -> (r: Option<Classified>)
    requires
        ctx.source.wf(),
    ensures
        match r {
            Some(c) => classify_spec(*node, ctx.source.text(), ctx.container) == Some(crate::lang::classified_view(c)),
            None => classify_spec(*node, ctx.source.text(), ctx.container) is None,
        },
{
    let member_of_type = match ctx.container {
        Some(NodeKind::Type) | Some(NodeKind::Interface) | Some(NodeKind::Implementation) => true,
        _ => false,
    };
    let k = node.kind.as_str();
    if str_eq(k, "class_declaration") && str_eq(keyword(node, ctx).as_str(), "interface") {
        by_field(node, ctx, "name", NodeKind::Interface)
    } else if str_eq(k, "class_declaration") || str_eq(k, "object_declaration") {
        by_field(node, ctx, "name", NodeKind::Type)
    } else if str_eq(k, "type_alias") {
        by_field(node, ctx, "type", NodeKind::Type)
    } else if str_eq(k, "function_declaration") {
        let kind = if member_of_type || receiver(node, ctx).is_some() { NodeKind::Member } else { NodeKind::Function };
        by_field(node, ctx, "name", kind)
    } else if str_eq(k, "property_declaration") {
        if member_of_type || receiver(node, ctx).is_some() {
            by_binding(node, ctx, NodeKind::Member)
        } else {
            match ctx.container {
                Some(NodeKind::Package) | Some(NodeKind::Module) => by_binding(node, ctx, NodeKind::Constant),
                _ => None,
            }
        }
    } else if str_eq(k, "class_parameter") && member_of_type {
        by_identifier(node, ctx, NodeKind::Member)
    } else if str_eq(k, "enum_entry") {
        by_identifier(node, ctx, NodeKind::Member)
    } else {
        None
    }
}

} // verus!
