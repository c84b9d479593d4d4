//! The TypeScript and JavaScript mapping.
//!
//! One grammar family serves `.js`, `.ts` and `.tsx`. A class, an interface, an enum
//! and a namespace each open a scope; a module-level `const` bound to a function is a
//! function; and `Widget.prototype.render = …` — a member written away from the
//! constructor it belongs to — names its owner, so it is moved under it. What is
//! exported is read from the keywords written before a declaration, since `export` and
//! `default` wrap it rather than sit inside it.

pub mod facets;

use vstd::prelude::*;
use crate::config::predicate::trim_end;
use crate::contribution::Owner;
use crate::coord::Range;
use crate::lang::Classified;
use crate::lang::ClassifiedView;
use crate::lang::FacetContext;
use crate::lang::span_range;
use crate::lang::kotlin::trailing_word;
use crate::lang::rust::OwnerView;
use crate::lang::rust::owner_view;
use crate::model::NodeKind;
use crate::model::Visibility;
use crate::syntax::ParsedNode;
use crate::syntax::child_by_field;
use crate::syntax::child_of_kind;
use crate::syntax::child_text;
use crate::syntax::child_text_of;
use crate::syntax::field_child;
use crate::syntax::first_of_kind;
use crate::syntax::node_text;
use crate::syntax::node_text_of;
use crate::syntax::text_slice;
use crate::text::chars_of;
use crate::text::chars_eq;
use crate::text::is_whitespace;
use crate::text::str_eq;
use crate::text::string_of;
use crate::text::unicode_whitespace;
use karet_treesitter::LanguageId;

verus! {

/// The grammar ids this mapping serves: JavaScript, TypeScript and TSX, those compiled in.
pub open spec fn serves(language: LanguageId) -> bool {
    crate::lang::injection_grammar("javascript"@) == Some(language)
        || crate::lang::injection_grammar("typescript"@) == Some(language)
        || crate::lang::injection_grammar("tsx"@) == Some(language)
}

/// Whether `language` is one of the grammars this mapping serves.
pub fn serves_language(language: LanguageId) -> (r: bool)
    ensures
        r == serves(language),
{
    let js = crate::lang::grammar_named("javascript");
    let ts = crate::lang::grammar_named("typescript");
    let tsx = crate::lang::grammar_named("tsx");
    let hit = |g: Option<LanguageId>| -> (b: bool)
        ensures
            b == (g == Some(language)),
    {
        match g {
            Some(id) => crate::lang::same_grammar(id, language),
            None => false,
        }
    };
    hit(js) || hit(ts) || hit(tsx)
}

/// Whether a node of this kind introduces a new scope for paths.
pub fn is_container(kind: &str) -> (r: bool)
    ensures
        r == (kind@ == "program"@ || kind@ == "class_declaration"@ || kind@ == "abstract_class_declaration"@
            || kind@ == "interface_declaration"@ || kind@ == "enum_declaration"@ || kind@ == "internal_module"@
            || kind@ == "module"@),
{
    str_eq(kind, "program") || str_eq(kind, "class_declaration") || str_eq(kind, "abstract_class_declaration")
        || str_eq(kind, "interface_declaration") || str_eq(kind, "enum_declaration") || str_eq(kind, "internal_module")
        || str_eq(kind, "module")
}

// --- keywords written before a declaration ---------------------------------------------

/// The modifiers that may stand between `export` and a declaration.
pub open spec fn is_modifier_word(w: Seq<char>) -> bool {
    w == "async"@ || w == "abstract"@ || w == "declare"@ || w == "static"@ || w == "readonly"@
}

/// Whether the words at the end of `rest` (trimmed), read backwards over at most `n`
/// of them and past modifiers only, reach `a` or `b`.
pub open spec fn reaches_keyword(rest: Seq<char>, a: Seq<char>, b: Seq<char>, n: nat) -> bool
    decreases n,
{
    if n == 0 {
        false
    } else {
        let last = trailing_word(rest);
        if last.len() == 0 {
            false
        } else if last == a || last == b {
            true
        } else if !is_modifier_word(last) {
            false
        } else {
            reaches_keyword(trim_end(rest.take(rest.len() - last.len())), a, b, (n - 1) as nat)
        }
    }
}

/// Whether `node` is preceded, across at most four words of which all but the last
/// are modifiers, by the keyword `a` or `b`; `false` when the text before it cannot be
/// read.
pub open spec fn preceded_spec(node: ParsedNode, s: Seq<char>, a: Seq<char>, b: Seq<char>) -> bool {
    match text_slice(s, 0, node.start as int) {
        Some(before) => reaches_keyword(trim_end(before), a, b, 4),
        None => false,
    }
}

/// Trimming twice trims no more than once.
proof fn lemma_trim_end_idempotent(x: Seq<char>)
    ensures
        trim_end(trim_end(x)) == trim_end(x),
    decreases x.len(),
{
    if x.len() > 0 && unicode_whitespace(x.last()) {
        lemma_trim_end_idempotent(x.drop_last());
    }
}

/// Whether `v[from..to]` equals `w`.
fn span_is(v: &Vec<char>, from: usize, to: usize, w: &str) -> (r: bool)
    requires
        from <= to <= v@.len(),
    ensures
        r == (v@.subrange(from as int, to as int) == w@),
{
    let part = crate::id::slice_range(v, from, to);
    let wc = chars_of(w);
    chars_eq(part.as_slice(), wc.as_slice())
}

/// Whether `v[from..to]` is one of the modifier words.
fn span_is_modifier(v: &Vec<char>, from: usize, to: usize) -> (r: bool)
    requires
        from <= to <= v@.len(),
    ensures
        r == is_modifier_word(v@.subrange(from as int, to as int)),
{
    span_is(v, from, to, "async") || span_is(v, from, to, "abstract") || span_is(v, from, to, "declare")
        || span_is(v, from, to, "static") || span_is(v, from, to, "readonly")
}

/// Whether `node` is preceded by the keyword `a` or `b`.
pub fn preceded_by(node: &ParsedNode, ctx: &FacetContext, a: &str, b: &str) -> (r: bool)
    requires
        ctx.source.wf(),
    ensures
        r == preceded_spec(*node, ctx.source.text(), a@, b@),
{
    let before = match ctx.source.slice(0, node.start) {
        Some(t) => t,
        None => return false,
    };
    let v = chars_of(before.as_str());
    let mut e = crate::config::predicate::trim_end_to(&v, 0, v.len());
    assert(v@.subrange(0, v@.len() as int) =~= v@);
    assert(v@.subrange(0, e as int) =~= v@.take(e as int));
    proof {
        lemma_trim_end_idempotent(v@);
    }
    let mut n: usize = 4;
    while n > 0
        invariant
            e <= v@.len(),
            n <= 4,
            v@.take(e as int) == trim_end(v@.take(e as int)),
            reaches_keyword(trim_end(v@), a@, b@, 4) == reaches_keyword(v@.take(e as int), a@, b@, n as nat),
            preceded_spec(*node, ctx.source.text(), a@, b@) == reaches_keyword(trim_end(v@), a@, b@, 4),
        decreases n,
    {
        let ghost rest = v@.take(e as int);
        let mut s: usize = e;
        assert(rest.subrange(s as int, rest.len() as int) =~= Seq::<char>::empty());
        assert(rest.take(s as int) =~= rest);
        while s > 0 && !is_whitespace(v[s - 1])
            invariant
                s <= e <= v@.len(),
                rest == v@.take(e as int),
                trailing_word(rest) == trailing_word(rest.take(s as int)) + rest.subrange(s as int, rest.len() as int),
            decreases s,
        {
            let ghost u = rest.take(s as int);
            assert(u.last() == v@[s - 1]);
            assert(u.drop_last() =~= rest.take(s - 1));
            assert(trailing_word(rest.take(s - 1)) + rest.subrange(s - 1, rest.len() as int)
                =~= trailing_word(rest.take(s - 1)).push(v@[s - 1]) + rest.subrange(s as int, rest.len() as int));
            s = s - 1;
        }
        if s > 0 {
            assert(rest.take(s as int).last() == v@[s - 1]);
        } else {
            assert(rest.take(0) =~= Seq::<char>::empty());
        }
        assert(trailing_word(rest.take(s as int)) =~= Seq::<char>::empty());
        assert(trailing_word(rest) =~= v@.subrange(s as int, e as int));
        assert(trailing_word(rest).len() == e - s);
        if s == e {
            assert(!reaches_keyword(rest, a@, b@, n as nat));
            return false;
        }
        if span_is(&v, s, e, a) || span_is(&v, s, e, b) {
            return true;
        }
        if !span_is_modifier(&v, s, e) {
            assert(trailing_word(rest) != a@ && trailing_word(rest) != b@);
            assert(!is_modifier_word(trailing_word(rest)));
            assert(!reaches_keyword(rest, a@, b@, n as nat));
            return false;
        }
        let e2 = crate::config::predicate::trim_end_to(&v, 0, s);
        proof {
            assert(rest.take(rest.len() - (e - s)) =~= v@.subrange(0, s as int));
            assert(v@.subrange(0, e2 as int) =~= v@.take(e2 as int));
            assert(v@.subrange(0, s as int) =~= v@.take(s as int));
            lemma_trim_end_idempotent(v@.take(s as int));
        }
        e = e2;
        n = n - 1;
    }
    false
}

/// Whether `node` carries `export` or `default` before it.
pub open spec fn exported_spec(node: ParsedNode, s: Seq<char>) -> bool {
    preceded_spec(node, s, "export"@, "default"@)
}

// --- visibility ---------------------------------------------------------------------

/// The text of a declaration's accessibility modifier (`private`, `protected`,
/// `public`), if it has one.
pub open spec fn accessibility_of(node: ParsedNode, s: Seq<char>) -> Option<Seq<char>> {
    match first_of_kind(node.children@, "accessibility_modifier"@) {
        Some(m) => node_text_of(m, s),
        None => None,
    }
}

/// The text of a declaration's accessibility modifier.
pub fn accessibility(node: &ParsedNode, ctx: &FacetContext) -> (r: Option<String>)
    requires
        ctx.source.wf(),
    ensures
        match r {
            Some(t) => accessibility_of(*node, ctx.source.text()) == Some(t@),
            None => accessibility_of(*node, ctx.source.text()) is None,
        },
{
    match child_of_kind(node, "accessibility_modifier") {
        Some(m) => node_text(m, ctx.source),
        None => None,
    }
}

/// Whether `container` is a type-like scope, whose members are reachable wherever it is.
pub open spec fn in_type(container: Option<NodeKind>) -> bool {
    container == Some(NodeKind::Type) || container == Some(NodeKind::Interface) || container == Some(NodeKind::Implementation)
}

/// A declaration's visibility: a `#` name is private at run time; an accessibility
/// modifier says `private`, `protected` or public; a member of a type is public; and
/// anything else is public exactly when it is exported.
pub open spec fn visibility_spec(node: ParsedNode, s: Seq<char>, container: Option<NodeKind>, name: Seq<char>) -> Visibility {
    if name.len() > 0 && name[0] == '#' {
        Visibility::Private
    } else if accessibility_of(node, s) is Some {
        let m = accessibility_of(node, s)->0;
        if m == "private"@ {
            Visibility::Private
        } else if m == "protected"@ {
            Visibility::Super
        } else {
            Visibility::Public
        }
    } else if in_type(container) {
        Visibility::Public
    } else if exported_spec(node, s) {
        Visibility::Public
    } else {
        Visibility::Private
    }
}

/// A declaration's visibility.
pub fn visibility_of(node: &ParsedNode, ctx: &FacetContext, name: &str) -> (r: Visibility)
    requires
        ctx.source.wf(),
    ensures
        r == visibility_spec(*node, ctx.source.text(), ctx.container, name@),
{
    let nc = chars_of(name);
    if nc.len() > 0 && nc[0] == '#' {
        return Visibility::Private;
    }
    match accessibility(node, ctx) {
        Some(m) => {
            if str_eq(m.as_str(), "private") {
                Visibility::Private
            } else if str_eq(m.as_str(), "protected") {
                Visibility::Super
            } else {
                Visibility::Public
            }
        },
        None => {
            let member = match ctx.container {
                Some(NodeKind::Type) | Some(NodeKind::Interface) | Some(NodeKind::Implementation) => true,
                _ => false,
            };
            if member || preceded_by(node, ctx, "export", "default") {
                Visibility::Public
            } else {
                Visibility::Private
            }
        },
    }
}

// --- prototype assignments ------------------------------------------------------------

/// For `Owner.prototype.member = …`, the owner's name and the member's; otherwise
/// `None`.
pub open spec fn prototype_spec(node: ParsedNode, s: Seq<char>) -> Option<(Seq<char>, Seq<char>)> {
    if node.kind@ != "assignment_expression"@ {
        None
    } else {
        match field_child(node.children@, "left"@) {
            Some(left) => if left.kind@ != "member_expression"@ {
                None
            } else {
                match (child_text_of(left, "property"@, s), field_child(left.children@, "object"@)) {
                    (Some(member), Some(object)) => if object.kind@ != "member_expression"@
                        || child_text_of(object, "property"@, s) != Some("prototype"@) {
                        None
                    } else {
                        match field_child(object.children@, "object"@) {
                            Some(owner) => if owner.kind@ != "identifier"@ {
                                None
                            } else {
                                match node_text_of(owner, s) {
                                    Some(o) => Some((o, member)),
                                    None => None,
                                }
                            },
                            None => None,
                        }
                    },
                    _ => None,
                }
            },
            None => None,
        }
    }
}

/// For `Owner.prototype.member = …`, the owner's name and the member's.
pub fn prototype_target(node: &ParsedNode, ctx: &FacetContext) -> (r: Option<(String, String)>)
    requires
        ctx.source.wf(),
    ensures
        match r {
            Some(p) => prototype_spec(*node, ctx.source.text()) == Some((p.0@, p.1@)),
            None => prototype_spec(*node, ctx.source.text()) is None,
        },
{
    proof {
        reveal_strlit("left");
        reveal_strlit("property");
        reveal_strlit("object");
    }
    if !str_eq(node.kind.as_str(), "assignment_expression") {
        return None;
    }
    let left = match child_by_field(node, "left") {
        Some(l) => l,
        None => return None,
    };
    if !str_eq(left.kind.as_str(), "member_expression") {
        return None;
    }
    let member = match child_text(left, "property", ctx.source) {
        Some(m) => m,
        None => return None,
    };
    let object = match child_by_field(left, "object") {
        Some(o) => o,
        None => return None,
    };
    if !str_eq(object.kind.as_str(), "member_expression") {
        return None;
    }
    match child_text(object, "property", ctx.source) {
        Some(p) => if !str_eq(p.as_str(), "prototype") {
            return None;
        },
        None => return None,
    }
    let owner = match child_by_field(object, "object") {
        Some(o) => o,
        None => return None,
    };
    if !str_eq(owner.kind.as_str(), "identifier") {
        return None;
    }
    match node_text(owner, ctx.source) {
        Some(o) => Some((o, member)),
        None => None,
    }
}

/// Where a prototype assignment belongs: under the constructor it names.
pub open spec fn owners_spec(node: ParsedNode, s: Seq<char>) -> Seq<OwnerView> {
    match prototype_spec(node, s) {
        Some(p) => seq![(p.0, None, false)],
        None => Seq::empty(),
    }
}

/// Where a prototype assignment belongs.
pub fn owners(node: &ParsedNode, ctx: &FacetContext) -> (r: Vec<Owner>)
    requires
        ctx.source.wf(),
    ensures
        r@.map_values(|o: Owner| owner_view(o)) == owners_spec(*node, ctx.source.text()),
{
    let mut out: Vec<Owner> = Vec::new();
    match prototype_target(node, ctx) {
        Some((owner, _)) => out.push(Owner::nested(owner)),
        None => {},
    }
    assert(out@.map_values(|o: Owner| owner_view(o)) =~= owners_spec(*node, ctx.source.text()));
    out
}

// --- classification -------------------------------------------------------------------

/// `name` without its leading `#`s: a private field's segment.
pub open spec fn segment_for(name: Seq<char>) -> Seq<char>
    decreases name.len(),
{
    if name.len() > 0 && name[0] == '#' {
        segment_for(name.drop_first())
    } else {
        name
    }
}

/// `name` without its leading `#`s.
fn segment_of(name: &str) -> (r: String)
    ensures
        r@ == segment_for(name@),
{
    let v = chars_of(name);
    let mut i: usize = 0;
    assert(v@.skip(0) =~= v@);
    while i < v.len() && v[i] == '#'
        invariant
            i <= v@.len(),
            segment_for(v@) == segment_for(v@.skip(i as int)),
        decreases v.len() - i,
    {
        assert(v@.skip(i as int).drop_first() =~= v@.skip(i + 1));
        i = i + 1;
    }
    let r = crate::id::slice_range(&v, i, v.len());
    assert(r@ =~= v@.skip(i as int));
    string_of(r.as_slice())
}

/// An entity named `name`, selected at `selection`.
pub open spec fn built(node: ParsedNode, s: Seq<char>, container: Option<NodeKind>, kind: NodeKind, name: Seq<char>, selection: Range) -> ClassifiedView {
    (kind, name, segment_for(name), None, selection, Some(visibility_spec(node, s, container, name)))
}

/// An entity named by the text of its `name` field.
pub open spec fn named_spec(node: ParsedNode, s: Seq<char>, container: Option<NodeKind>, kind: NodeKind) -> Option<ClassifiedView> {
    match child_text_of(node, "name"@, s) {
        Some(n) => Some(built(node, s, container, kind, n, match field_child(node.children@, "name"@) {
            Some(c) => span_range(s, c.start as int, c.end as int),
            None => span_range(s, node.start as int, node.end as int),
        })),
        None => None,
    }
}

/// What a module-level binding is: a function when it is bound to one, else a constant.
pub open spec fn declarator_kind(node: ParsedNode) -> NodeKind {
    match field_child(node.children@, "value"@) {
        Some(v) => if v.kind@ == "arrow_function"@ || v.kind@ == "function_expression"@ || v.kind@ == "generator_function"@ {
            NodeKind::Function
        } else {
            NodeKind::Constant
        },
        None => NodeKind::Constant,
    }
}

/// A prototype assignment as the member it adds: named by the member, selected at
/// the assignment's left side, public.
pub open spec fn prototype_member_spec(node: ParsedNode, s: Seq<char>) -> Option<ClassifiedView> {
    match (prototype_spec(node, s), field_child(node.children@, "left"@)) {
        (Some(p), Some(left)) => Some((NodeKind::Member, p.1, p.1, None, span_range(s, left.start as int, left.end as int), Some(Visibility::Public))),
        _ => None,
    }
}

/// What a node is, if it is an entity at all: an abstract class or interface is a
/// contract; a class, type alias or enum a type; a namespace a module; a function
/// (declared or signed) a function; a method, field, signature or enum entry a member,
/// as is a bare property name inside a type; a module-level binding a function or a
/// constant; and a prototype assignment the member it adds.
pub open spec fn classify_spec(node: ParsedNode, s: Seq<char>, container: Option<NodeKind>) -> Option<ClassifiedView> {
    let k = node.kind@;
    if k == "abstract_class_declaration"@ || k == "interface_declaration"@ {
        named_spec(node, s, container, NodeKind::Interface)
    } else if k == "class_declaration"@ || k == "type_alias_declaration"@ || k == "enum_declaration"@ {
        named_spec(node, s, container, NodeKind::Type)
    } else if k == "internal_module"@ || k == "module"@ {
        named_spec(node, s, container, NodeKind::Module)
    } else if k == "function_declaration"@ || k == "generator_function_declaration"@ || k == "function_signature"@ {
        named_spec(node, s, container, NodeKind::Function)
    } else if k == "method_definition"@ || k == "method_signature"@ || k == "abstract_method_signature"@
        || k == "public_field_definition"@ || k == "property_signature"@ || k == "enum_assignment"@ {
        named_spec(node, s, container, NodeKind::Member)
    } else if k == "property_identifier"@ && (node.field matches Some(f) && f@ == "name"@) && container == Some(NodeKind::Type) {
        match node_text_of(node, s) {
            Some(n) => Some(built(node, s, container, NodeKind::Member, n, span_range(s, node.start as int, node.end as int))),
            None => None,
        }
    } else if k == "variable_declarator"@ {
        if container == Some(NodeKind::Module) || container == Some(NodeKind::Package) {
            named_spec(node, s, container, declarator_kind(node))
        } else {
            None
        }
    } else if k == "assignment_expression"@ && prototype_spec(node, s) is Some {
        prototype_member_spec(node, s)
    } else {
        None
    }
}

/// An entity named `name`, selected at `selection`.
fn build(node: &ParsedNode, ctx: &FacetContext, kind: NodeKind, name: String, selection: Range) -> (r: Classified)
    requires
        ctx.source.wf(),
    ensures
        crate::lang::classified_view(r) == built(*node, ctx.source.text(), ctx.container, kind, name@, selection),
{
    let segment = segment_of(name.as_str());
    let visibility = visibility_of(node, ctx, name.as_str());
    Classified { kind, name, segment, detail: None, selection, visibility: Some(visibility) }
}

/// An entity named by the text of its `name` field.
fn named(node: &ParsedNode, ctx: &FacetContext, kind: NodeKind) -> (r: Option<Classified>)
    requires
        ctx.source.wf(),
    ensures
        match r {
            Some(c) => named_spec(*node, ctx.source.text(), ctx.container, kind) == Some(crate::lang::classified_view(c)),
            None => named_spec(*node, ctx.source.text(), ctx.container, kind) is None,
        },
{
    proof {
        reveal_strlit("name");
    }
    let name = match child_text(node, "name", ctx.source) {
        Some(n) => n,
        None => return None,
    };
    let selection = match child_by_field(node, "name") {
        Some(c) => ctx.range(c.start, c.end),
        None => ctx.range(node.start, node.end),
    };
    Some(build(node, ctx, kind, name, selection))
}

/// What a module-level binding is.
fn binding_kind(node: &ParsedNode) -> (r: NodeKind)
    ensures
        r == declarator_kind(*node),
{
    proof {
        reveal_strlit("value");
    }
    match child_by_field(node, "value") {
        Some(v) => if str_eq(v.kind.as_str(), "arrow_function") || str_eq(v.kind.as_str(), "function_expression")
            || str_eq(v.kind.as_str(), "generator_function") {
            NodeKind::Function
        } else {
            NodeKind::Constant
        },
        None => NodeKind::Constant,
    }
}

/// Map one node onto an addressable entity, or `None` when it is not one.
pub fn classify(node: &ParsedNode, ctx: &FacetContext) -> (r: Option<Classified>)
    requires
        ctx.source.wf(),
    ensures
        match r {
            Some(c) => classify_spec(*node, ctx.source.text(), ctx.container) == Some(crate::lang::classified_view(c)),
            None => classify_spec(*node, ctx.source.text(), ctx.container) is None,
        },
{
    proof {
        reveal_strlit("name");
        reveal_strlit("left");
    }
    let k = node.kind.as_str();
    if str_eq(k, "abstract_class_declaration") || str_eq(k, "interface_declaration") {
        named(node, ctx, NodeKind::Interface)
    } else if str_eq(k, "class_declaration") || str_eq(k, "type_alias_declaration") || str_eq(k, "enum_declaration") {
        named(node, ctx, NodeKind::Type)
    } else if str_eq(k, "internal_module") || str_eq(k, "module") {
        named(node, ctx, NodeKind::Module)
    } else if str_eq(k, "function_declaration") || str_eq(k, "generator_function_declaration") || str_eq(k, "function_signature") {
        named(node, ctx, NodeKind::Function)
    } else if str_eq(k, "method_definition") || str_eq(k, "method_signature") || str_eq(k, "abstract_method_signature")
        || str_eq(k, "public_field_definition") || str_eq(k, "property_signature") || str_eq(k, "enum_assignment") {
        named(node, ctx, NodeKind::Member)
    } else if str_eq(k, "property_identifier") && ctx.container == Some(NodeKind::Type) && match &node.field {
        Some(f) => str_eq(f.as_str(), "name"),
        None => false,
    } {
        match node_text(node, ctx.source) {
            Some(n) => Some(build(node, ctx, NodeKind::Member, n, ctx.range(node.start, node.end))),
            None => None,
        }
    } else if str_eq(k, "variable_declarator") {
        match ctx.container {
            Some(NodeKind::Module) | Some(NodeKind::Package) => named(node, ctx, binding_kind(node)),
            _ => None,
        }
    } else if str_eq(k, "assignment_expression") {
        match prototype_target(node, ctx) {
            Some((_, member)) => match child_by_field(node, "left") {
                Some(left) => {
                    let segment = member.clone();
                    Some(Classified { kind: NodeKind::Member, name: member, segment, detail: None,
                        selection: ctx.range(left.start, left.end), visibility: Some(Visibility::Public) })
                },
                None => None,
            },
            None => None,
        }
    } else {
        None
    }
}

} // verus!
