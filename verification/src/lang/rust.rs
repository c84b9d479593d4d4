//! The Rust mapping: constructs to universal kinds, and constructs to lens facets.
//!
//! Attributes are **siblings** of the item they decorate, not children — `#[cfg(unix)]`
//! parses as an `attribute_item` followed by a `function_item` — so pairing them is the
//! extractor's job and they arrive here already resolved on the context.
//!
//! Sub-item constructs — an `unsafe` block, an await point, a `dyn` type in a signature —
//! are not entities and never become nodes. They are reported as interior facets and
//! attributed to the nearest enclosing entity as *sites*, which keeps containment a tree.
//!
//! An `impl` can be written anywhere in a crate, so the index moves its members under
//! the type it binds them to. That needs the bare name of the self type, read shallowly:
//! references and pointers are looked through, generic arguments and qualification are
//! dropped, and anything without one name at its head is refused rather than guessed.

pub mod api;
pub mod boundary;
pub mod hazard;
pub mod substitution;
pub mod variation;

use vstd::prelude::*;
use crate::config::predicate::skip_ws;
use crate::config::predicate::skip_ws_at;
use crate::config::predicate::trim;
use crate::config::predicate::first_index;
use crate::lang::Attribute;
use crate::lang::AttrView;
use crate::lang::attr_view;
use crate::lang::attr_views;
use crate::contribution::Owner;
use crate::modules::last_of;
use crate::modules::find_last;
use crate::config::predicate::from;
use crate::id::slice_range;
use crate::lang::begins;
use crate::lang::cut;
use crate::lang::skip_then_ws;
use crate::lang::cut_at;
use crate::lang::identifier;
use crate::lang::is_identifier;
use crate::lang::trimmed;
use crate::model::FacetSubtype;
use crate::model::Visibility;
use crate::model::NodeKind;
use crate::coord::Range;
use crate::lang::Classified;
use crate::lang::ClassifiedView;
use crate::lang::FacetContext;
use crate::lang::FacetView;
use crate::lang::facet_views;
use crate::lang::plain_facets;
use crate::model::Facet;
use crate::model::Lens;
use crate::lang::classified_view;
use crate::lang::joined_words;
use crate::lang::span_range;
use crate::lang::words_joined;
use crate::syntax::ParsedNode;
use crate::syntax::child_by_field;
use crate::syntax::child_of_kind;
use crate::syntax::child_text;
use crate::syntax::child_text_of;
use crate::syntax::field_child;
use crate::syntax::first_of_kind;
use crate::syntax::has_kind;
use crate::syntax::node_text;
use crate::syntax::node_text_of;
use crate::text::push_str;
use crate::text::str_eq;
use karet_treesitter::LanguageId;
use crate::text::chars_eq;
use crate::text::chars_of;
use crate::text::has_prefix;
use crate::text::is_whitespace;
use crate::text::starts_at;
use crate::text::string_of;
use crate::text::unicode_whitespace;

verus! {

/// Whether `t` is a suffix of `s`.
pub open spec fn is_suffix(t: Seq<char>, s: Seq<char>) -> bool {
    t.len() <= s.len() && s.skip(s.len() - t.len()) == t
}

/// The position of the first whitespace character in `s`, or `-1`.
pub open spec fn first_ws(s: Seq<char>) -> int
    decreases s.len(),
{
    if s.len() == 0 {
        -1
    } else if unicode_whitespace(s[0]) {
        0
    } else {
        let k = first_ws(s.drop_first());
        if k < 0 {
            -1
        } else {
            k + 1
        }
    }
}

/// `s` without a leading `&`, `*const` or `*mut` and the whitespace after it.
pub open spec fn after_pointer(s: Seq<char>) -> Seq<char> {
    if has_prefix(s, seq!['&']) {
        skip_ws(s.skip(1))
    } else if has_prefix(s, seq!['*', 'c', 'o', 'n', 's', 't']) {
        skip_ws(s.skip(6))
    } else if has_prefix(s, seq!['*', 'm', 'u', 't']) {
        skip_ws(s.skip(4))
    } else {
        s
    }
}

/// `s` without a leading lifetime and the whitespace after it; a lifetime with nothing
/// after it leaves nothing.
pub open spec fn after_lifetime(s: Seq<char>) -> Seq<char> {
    if s.len() > 0 && s[0] == '\'' {
        let after = s.drop_first();
        let w = first_ws(after);
        if w < 0 {
            Seq::empty()
        } else {
            skip_ws(after.skip(w + 1))
        }
    } else {
        s
    }
}

/// `s` without a leading `mut ` and the whitespace after it.
pub open spec fn after_mut(s: Seq<char>) -> Seq<char> {
    if has_prefix(s, seq!['m', 'u', 't', ' ']) {
        skip_ws(s.skip(4))
    } else {
        s
    }
}

/// One round of looking through a reference or pointer.
pub open spec fn peel_step(s: Seq<char>) -> Seq<char> {
    after_mut(after_lifetime(after_pointer(s)))
}

proof fn lemma_skip_suffix(s: Seq<char>, n: int)
    requires
        0 <= n <= s.len(),
    ensures
        is_suffix(s.skip(n), s),
{
    assert(s.skip(s.len() - s.skip(n).len()) =~= s.skip(n));
}

proof fn lemma_suffix_trans(a: Seq<char>, b: Seq<char>, c: Seq<char>)
    requires
        is_suffix(a, b),
        is_suffix(b, c),
    ensures
        is_suffix(a, c),
{
    assert(c.skip(c.len() - a.len()) =~= c.skip(c.len() - b.len()).skip(b.len() - a.len()));
}

proof fn lemma_skip_ws_suffix(s: Seq<char>)
    ensures
        is_suffix(skip_ws(s), s),
    decreases s.len(),
{
    if s.len() > 0 && unicode_whitespace(s[0]) {
        lemma_skip_ws_suffix(s.drop_first());
        lemma_skip_suffix(s, 1);
        assert(s.drop_first() =~= s.skip(1));
        lemma_suffix_trans(skip_ws(s.drop_first()), s.drop_first(), s);
    } else {
        lemma_skip_suffix(s, 0);
        assert(s.skip(0) =~= s);
    }
}

proof fn lemma_first_ws(s: Seq<char>)
    ensures
        first_ws(s) < s.len(),
        first_ws(s) >= 0 ==> unicode_whitespace(s[first_ws(s)]),
        forall|i: int| 0 <= i < s.len() && (first_ws(s) < 0 || i < first_ws(s)) ==> !unicode_whitespace(#[trigger] s[i]),
    decreases s.len(),
{
    if s.len() > 0 && !unicode_whitespace(s[0]) {
        lemma_first_ws(s.drop_first());
        assert forall|i: int| 0 <= i < s.len() && (first_ws(s) < 0 || i < first_ws(s)) implies !unicode_whitespace(#[trigger] s[i]) by {
            if i > 0 {
                assert(s[i] == s.drop_first()[i - 1]);
            }
        }
    }
}

proof fn lemma_skip_then_ws(s: Seq<char>, n: int)
    requires
        0 <= n <= s.len(),
    ensures
        is_suffix(skip_ws(s.skip(n)), s),
{
    lemma_skip_suffix(s, n);
    lemma_skip_ws_suffix(s.skip(n));
    lemma_suffix_trans(skip_ws(s.skip(n)), s.skip(n), s);
}

pub proof fn lemma_peel_suffix(s: Seq<char>)
    ensures
        is_suffix(peel_step(s), s),
{
    let a = after_pointer(s);
    if has_prefix(s, seq!['&']) {
        lemma_skip_then_ws(s, 1);
    } else if has_prefix(s, seq!['*', 'c', 'o', 'n', 's', 't']) {
        lemma_skip_then_ws(s, 6);
    } else if has_prefix(s, seq!['*', 'm', 'u', 't']) {
        lemma_skip_then_ws(s, 4);
    } else {
        lemma_skip_suffix(s, 0);
        assert(s.skip(0) =~= s);
    }
    let b = after_lifetime(a);
    if a.len() > 0 && a[0] == '\'' {
        let after = a.drop_first();
        lemma_first_ws(after);
        let w = first_ws(after);
        if w < 0 {
            lemma_skip_suffix(a, a.len() as int);
            assert(a.skip(a.len() as int) =~= Seq::<char>::empty());
        } else {
            lemma_skip_then_ws(a, w + 2);
            assert(after.skip(w + 1) =~= a.skip(w + 2));
        }
    } else {
        lemma_skip_suffix(a, 0);
        assert(a.skip(0) =~= a);
    }
    lemma_suffix_trans(b, a, s);
    if has_prefix(b, seq!['m', 'u', 't', ' ']) {
        lemma_skip_then_ws(b, 4);
    } else {
        lemma_skip_suffix(b, 0);
        assert(b.skip(0) =~= b);
    }
    lemma_suffix_trans(peel_step(s), b, s);
}

/// `s` with every leading reference, pointer, lifetime and `mut` looked through.
pub open spec fn peeled(s: Seq<char>) -> Seq<char>
    decreases s.len(),
{
    if peel_step(s) == s {
        s
    } else {
        proof {
            lemma_peel_suffix(s);
            if peel_step(s).len() == s.len() {
                assert(s.skip(0) =~= s);
            }
        }
        peeled(peel_step(s))
    }
}

/// The position of the last `::` in `s`, or `-1`.
pub open spec fn last_pair(s: Seq<char>) -> int
    decreases s.len(),
{
    if s.len() < 2 {
        -1
    } else if s[s.len() - 2] == ':' && s[s.len() - 1] == ':' {
        s.len() - 2
    } else {
        last_pair(s.drop_last())
    }
}

/// What follows the last `::` in `s`, or all of `s`.
pub open spec fn after_last_pair(s: Seq<char>) -> Seq<char> {
    if last_pair(s) < 0 {
        s
    } else {
        s.skip(last_pair(s) + 2)
    }
}

/// The bare type name a Rust type expression is about: references, pointers and
/// lifetimes looked through, generic arguments and path qualification dropped. `None`
/// when the head is not one identifier, or is `Self` or `_`.
pub open spec fn base_name_of(text: Seq<char>) -> Option<Seq<char>> {
    let rest = peeled(trim(text));
    let head = trim(after_last_pair(trim(cut_at(rest, seq!['<']))));
    if is_identifier(head) && head != seq!['S', 'e', 'l', 'f'] && head != seq!['_'] {
        Some(head)
    } else {
        None
    }
}

/// One round of looking through a reference or pointer.
fn peel_once(v: &Vec<char>) -> (r: Vec<char>)
    ensures
        r@ == peel_step(v@),
{
    let amp = vec!['&'];
    let cst = vec!['*', 'c', 'o', 'n', 's', 't'];
    let mt = vec!['*', 'm', 'u', 't'];
    let mut_sp = vec!['m', 'u', 't', ' '];
    assert(amp@ =~= seq!['&']);
    assert(cst@ =~= seq!['*', 'c', 'o', 'n', 's', 't']);
    assert(mt@ =~= seq!['*', 'm', 'u', 't']);
    assert(mut_sp@ =~= seq!['m', 'u', 't', ' ']);
    assert(v@.subrange(0, v@.len() as int) =~= v@);
    let a = if begins(v, &amp) {
        skip_then_ws(v, 1)
    } else if begins(v, &cst) {
        skip_then_ws(v, 6)
    } else if begins(v, &mt) {
        skip_then_ws(v, 4)
    } else {
        slice_range(v, 0, v.len())
    };
    assert(a@ == after_pointer(v@));
    let b = if a.len() > 0 && a[0] == '\'' {
        let mut i: usize = 1;
        let ghost after = a@.drop_first();
        proof {
            lemma_first_ws(after);
        }
        while i < a.len() && !is_whitespace(a[i])
            invariant
                1 <= i <= a@.len(),
                after == a@.drop_first(),
                forall|k: int| 1 <= k < i ==> !unicode_whitespace(#[trigger] a@[k]),
            decreases a.len() - i,
        {
            i = i + 1;
        }
        proof {
            assert forall|k: int| 0 <= k < i - 1 implies !unicode_whitespace(#[trigger] after[k]) by {
                assert(after[k] == a@[k + 1]);
            }
            if i < a@.len() {
                assert(after[i - 1] == a@[i as int]);
            }
        }
        if i == a.len() {
            assert(first_ws(after) < 0) by {
                if first_ws(after) >= 0 {
                    assert(after[first_ws(after)] == a@[first_ws(after) + 1]);
                }
            }
            Vec::new()
        } else {
            assert(first_ws(after) == i - 1) by {
                if first_ws(after) >= 0 && first_ws(after) < i - 1 {
                    assert(after[first_ws(after)] == a@[first_ws(after) + 1]);
                }
            }
            assert(after.skip(i as int) =~= a@.skip(i + 1));
            skip_then_ws(&a, i + 1)
        }
    } else {
        slice_range(&a, 0, a.len())
    };
    assert(a@.subrange(0, a@.len() as int) =~= a@);
    assert(b@ == after_lifetime(a@));
    if begins(&b, &mut_sp) {
        skip_then_ws(&b, 4)
    } else {
        assert(b@.subrange(0, b@.len() as int) =~= b@);
        slice_range(&b, 0, b.len())
    }
}

/// What follows the last `::` in `v`.
pub(crate) fn after_pair_of(v: &Vec<char>) -> (r: Vec<char>)
    ensures
        r@ == after_last_pair(v@),
{
    let mut i: usize = v.len();
    assert(v@.take(i as int) =~= v@);
    while i >= 2
        invariant
            i <= v@.len(),
            last_pair(v@) == last_pair(v@.take(i as int)),
        decreases i,
    {
        let ghost t = v@.take(i as int);
        assert(t[t.len() - 2] == v@[i - 2] && t[t.len() - 1] == v@[i - 1]);
        if v[i - 2] == ':' && v[i - 1] == ':' {
            return slice_range(v, i, v.len());
        }
        assert(t.drop_last() =~= v@.take(i - 1));
        i = i - 1;
    }
    slice_range(v, 0, v.len())
}

/// The bare type name a Rust type expression is about, or `None` when it is not about
/// one nameable type.
pub fn base_name(text: &str) -> (r: Option<String>)
    ensures
        match r {
            Some(h) => base_name_of(text@) == Some(h@),
            None => base_name_of(text@) is None,
        },
{
    let chars = chars_of(text);
    let mut rest = trimmed(&chars);
    loop
        invariant
            peeled(rest@) == peeled(trim(text@)),
        ensures
            peeled(rest@) == peeled(trim(text@)),
            peel_step(rest@) == rest@,
        decreases rest@.len(),
    {
        let next = peel_once(&rest);
        if chars_eq(next.as_slice(), rest.as_slice()) {
            break;
        }
        proof {
            lemma_peel_suffix(rest@);
            if next@.len() == rest@.len() {
                assert(rest@.skip(0) =~= rest@);
            }
        }
        rest = next;
    }
    assert(peeled(rest@) == rest@);
    let lt = vec!['<'];
    let self_word = vec!['S', 'e', 'l', 'f'];
    let blank = vec!['_'];
    assert(lt@ =~= seq!['<']);
    assert(self_word@ =~= seq!['S', 'e', 'l', 'f']);
    assert(blank@ =~= seq!['_']);
    let head = trimmed(&after_pair_of(&trimmed(&cut(&rest, lt.as_slice()))));
    assert(head@ == trim(after_last_pair(trim(cut_at(peeled(trim(text@)), seq!['<'])))));
    if identifier(&head) && !chars_eq(head.as_slice(), self_word.as_slice()) && !chars_eq(head.as_slice(), blank.as_slice()) {
        Some(string_of(head.as_slice()))
    } else {
        None
    }
}

/// The `api` subtype naming a declared visibility level.
pub fn subtype_for(visibility: Visibility) -> (r: FacetSubtype)
    ensures
        r.0@ == match visibility {
            Visibility::Public => "pub"@,
            Visibility::Crate => "crate"@,
            Visibility::Super => "super"@,
            Visibility::Restricted => "in"@,
            Visibility::Private => "private"@,
        },
{
    match visibility {
        Visibility::Public => FacetSubtype("pub"),
        Visibility::Crate => FacetSubtype("crate"),
        Visibility::Super => FacetSubtype("super"),
        Visibility::Restricted => FacetSubtype("in"),
        Visibility::Private => FacetSubtype("private"),
    }
}

/// Whether a construct of this grammar kind can carry a visibility modifier at all.
pub fn is_visibility_bearing(kind: &str) -> (r: bool)
    ensures
        r == visibility_bearing_kinds().contains(kind@),
{
    let kinds = visibility_bearing_list();
    let mut i: usize = 0;
    while i < kinds.len()
        invariant
            i <= kinds@.len(),
            kinds@.map_values(|k: &str| k@) == visibility_bearing_kinds(),
            forall|j: int| 0 <= j < i ==> kinds@[j]@ != kind@,
        decreases kinds.len() - i,
    {
        if crate::text::str_eq(kinds[i], kind) {
            assert(visibility_bearing_kinds()[i as int] == kind@);
            return true;
        }
        i = i + 1;
    }
    assert forall|j: int| 0 <= j < visibility_bearing_kinds().len() implies visibility_bearing_kinds()[j] != kind@ by {
        assert(visibility_bearing_kinds()[j] == kinds@[j]@);
    }
    false
}

/// The grammar kinds that can carry a visibility modifier.
pub open spec fn visibility_bearing_kinds() -> Seq<Seq<char>> {
    seq![
        "mod_item"@, "struct_item"@, "enum_item"@, "union_item"@, "type_item"@,
        "trait_item"@, "function_item"@, "function_signature_item"@, "const_item"@,
        "static_item"@, "field_declaration"@, "use_declaration"@, "foreign_mod_item"@,
        "macro_definition"@,
    ]
}

fn visibility_bearing_list() -> (r: Vec<&'static str>)
    ensures
        r@.map_values(|k: &str| k@) == visibility_bearing_kinds(),
{
    let r = vec![
        "mod_item", "struct_item", "enum_item", "union_item", "type_item",
        "trait_item", "function_item", "function_signature_item", "const_item",
        "static_item", "field_declaration", "use_declaration", "foreign_mod_item",
        "macro_definition",
    ];
    assert(r@.map_values(|k: &str| k@) =~= visibility_bearing_kinds());
    r
}

// --- the grammar --------------------------------------------------------------------

/// The grammar id for Rust, when the grammar is compiled in.
pub fn language_id() -> (r: Option<LanguageId>)
    ensures
        r == crate::lang::injection_grammar("rust"@),
{
    crate::lang::grammar_named("rust")
}

/// The grammar kinds that open a new scope for paths.
pub open spec fn container_kinds() -> Seq<Seq<char>> {
    seq![
        "source_file"@, "mod_item"@, "trait_item"@, "impl_item"@, "foreign_mod_item"@,
        "struct_item"@, "enum_item"@, "union_item"@,
    ]
}

/// Whether a node of this kind introduces a new scope for path purposes: a
/// `declaration_list` is a body, not a scope; the item around it is.
pub fn is_container(kind: &str) -> (r: bool)
    ensures
        r == container_kinds().contains(kind@),
{
    let kinds = vec![
        "source_file", "mod_item", "trait_item", "impl_item", "foreign_mod_item",
        "struct_item", "enum_item", "union_item",
    ];
    assert(kinds@.map_values(|k: &str| k@) =~= container_kinds());
    let mut i: usize = 0;
    while i < kinds.len()
        invariant
            i <= kinds@.len(),
            kinds@.map_values(|k: &str| k@) == container_kinds(),
            forall|j: int| 0 <= j < i ==> kinds@[j]@ != kind@,
        decreases kinds.len() - i,
    {
        if str_eq(kinds[i], kind) {
            assert(container_kinds()[i as int] == kind@);
            return true;
        }
        i = i + 1;
    }
    assert forall|j: int| 0 <= j < container_kinds().len() implies container_kinds()[j] != kind@ by {
        assert(container_kinds()[j] == kinds@[j]@);
    }
    false
}

// --- visibility ---------------------------------------------------------------------

/// The grammar kinds that name a visibility restriction inside `pub(…)`.
pub open spec fn restriction_kinds() -> Seq<Seq<char>> {
    seq!["crate"@, "super"@, "self"@, "scoped_identifier"@, "identifier"@]
}

/// The kind of the first of `children` that names a restriction.
pub open spec fn restriction_of(children: Seq<ParsedNode>) -> Option<Seq<char>>
    decreases children.len(),
{
    if children.len() == 0 {
        None
    } else if restriction_kinds().contains(children[0].kind@) {
        Some(children[0].kind@)
    } else {
        restriction_of(children.drop_first())
    }
}

/// A node's declared visibility: `None` for a construct that cannot carry one; private
/// with no modifier, which is a fact rather than an absence; public for a bare `pub`;
/// otherwise the level its restriction names (`self` being private, a path restricted).
pub open spec fn declared_visibility_of(node: ParsedNode) -> Option<Visibility> {
    if !visibility_bearing_kinds().contains(node.kind@) {
        None
    } else {
        match first_of_kind(node.children@, "visibility_modifier"@) {
            None => Some(Visibility::Private),
            Some(m) => Some(
                match restriction_of(m.children@) {
                    None => Visibility::Public,
                    Some(k) => if k == "crate"@ {
                        Visibility::Crate
                    } else if k == "super"@ {
                        Visibility::Super
                    } else if k == "self"@ {
                        Visibility::Private
                    } else {
                        Visibility::Restricted
                    },
                },
            ),
        }
    }
}

/// Whether `kind` names a visibility restriction.
fn is_restriction(kind: &str) -> (r: bool)
    ensures
        r == restriction_kinds().contains(kind@),
{
    let kinds = vec!["crate", "super", "self", "scoped_identifier", "identifier"];
    assert(kinds@.map_values(|k: &str| k@) =~= restriction_kinds());
    let mut i: usize = 0;
    while i < kinds.len()
        invariant
            i <= kinds@.len(),
            kinds@.map_values(|k: &str| k@) == restriction_kinds(),
            forall|j: int| 0 <= j < i ==> kinds@[j]@ != kind@,
        decreases kinds.len() - i,
    {
        if str_eq(kinds[i], kind) {
            assert(restriction_kinds()[i as int] == kind@);
            return true;
        }
        i = i + 1;
    }
    assert forall|j: int| 0 <= j < restriction_kinds().len() implies restriction_kinds()[j] != kind@ by {
        assert(restriction_kinds()[j] == kinds@[j]@);
    }
    false
}

/// A node's declared visibility.
pub fn declared_visibility(node: &ParsedNode) -> (r: Option<Visibility>)
    ensures
        r == declared_visibility_of(*node),
{
    if !is_visibility_bearing(node.kind.as_str()) {
        return None;
    }
    let modifier = match child_of_kind(node, "visibility_modifier") {
        Some(m) => m,
        None => return Some(Visibility::Private),
    };
    let mut i: usize = 0;
    assert(modifier.children@.skip(0) =~= modifier.children@);
    while i < modifier.children.len()
        invariant
            i <= modifier.children@.len(),
            visibility_bearing_kinds().contains(node.kind@),
            first_of_kind(node.children@, "visibility_modifier"@) == Some(*modifier),
            restriction_of(modifier.children@) == restriction_of(modifier.children@.skip(i as int)),
        decreases modifier.children.len() - i,
    {
        let c = &modifier.children[i];
        assert(modifier.children@.skip(i as int)[0] == modifier.children@[i as int]);
        assert(modifier.children@.skip(i as int).drop_first() =~= modifier.children@.skip(i + 1));
        if is_restriction(c.kind.as_str()) {
            let k = c.kind.as_str();
            let v = if str_eq(k, "crate") {
                Visibility::Crate
            } else if str_eq(k, "super") {
                Visibility::Super
            } else if str_eq(k, "self") {
                Visibility::Private
            } else {
                Visibility::Restricted
            };
            return Some(v);
        }
        i = i + 1;
    }
    Some(Visibility::Public)
}

// --- classification -----------------------------------------------------------------

/// A function is a free function at module level and a member anywhere else it can be
/// written: in a trait, an `impl` or an `extern` block.
pub open spec fn function_kind_of(container: Option<NodeKind>) -> NodeKind {
    match container {
        Some(NodeKind::Interface) | Some(NodeKind::Implementation) | Some(NodeKind::ForeignBlock) => NodeKind::Member,
        _ => NodeKind::Function,
    }
}

/// Where navigating to a named construct lands: its name, else the whole construct.
pub open spec fn name_selection(node: ParsedNode, s: Seq<char>) -> Range {
    match field_child(node.children@, "name"@) {
        Some(c) => span_range(s, c.start as int, c.end as int),
        None => span_range(s, node.start as int, node.end as int),
    }
}

/// A construct of `kind` named by its `name` field, or `None` when it has no readable
/// name.
pub open spec fn named_view(node: ParsedNode, s: Seq<char>, kind: NodeKind) -> Option<ClassifiedView> {
    match child_text_of(node, "name"@, s) {
        Some(n) => Some((kind, n, n, None, name_selection(node, s), declared_visibility_of(node))),
        None => None,
    }
}

/// An `impl` block's self type, its words joined by single spaces; `?` when unreadable.
pub open spec fn impl_self_type(node: ParsedNode, s: Seq<char>) -> Seq<char> {
    joined_words(
        match child_text_of(node, "type"@, s) {
            Some(t) => t,
            None => "?"@,
        },
    )
}

/// The trait an `impl` block implements, its words joined by single spaces.
pub open spec fn impl_trait(node: ParsedNode, s: Seq<char>) -> Option<Seq<char>> {
    match child_text_of(node, "trait"@, s) {
        Some(t) => Some(joined_words(t)),
        None => None,
    }
}

/// Where navigating to an `impl` block lands: its trait, else its self type, else the
/// whole block.
pub open spec fn impl_selection(node: ParsedNode, s: Seq<char>) -> Range {
    match field_child(node.children@, "trait"@) {
        Some(c) => span_range(s, c.start as int, c.end as int),
        None => match field_child(node.children@, "type"@) {
            Some(c) => span_range(s, c.start as int, c.end as int),
            None => span_range(s, node.start as int, node.end as int),
        },
    }
}

/// An `impl` block, which has no name of its own: the segment names what the block
/// binds — `{impl Display for Widget}` — because that stays stable across edits, and
/// generic parameters are left out so adding a bound is not a rename.
pub open spec fn impl_view(node: ParsedNode, s: Seq<char>) -> ClassifiedView {
    let t = impl_self_type(node, s);
    match impl_trait(node, s) {
        Some(b) => (
            NodeKind::Implementation,
            "impl "@ + b + " for "@ + t,
            "{impl "@ + b + " for "@ + t + "}"@,
            Some(b),
            impl_selection(node, s),
            declared_visibility_of(node),
        ),
        None => (
            NodeKind::Implementation,
            "impl "@ + t,
            "{impl "@ + t + "}"@,
            None,
            impl_selection(node, s),
            declared_visibility_of(node),
        ),
    }
}

/// The ABI an `extern` block names: its `extern_modifier`'s text, else `extern`.
pub open spec fn abi_of(node: ParsedNode, s: Seq<char>) -> Seq<char> {
    match first_of_kind(node.children@, "extern_modifier"@) {
        Some(m) => match node_text_of(m, s) {
            Some(t) => t,
            None => "extern"@,
        },
        None => "extern"@,
    }
}

/// An `extern` block, which also has no name of its own.
pub open spec fn foreign_view(node: ParsedNode, s: Seq<char>) -> ClassifiedView {
    let a = abi_of(node, s);
    (NodeKind::ForeignBlock, a, "{"@ + a + "}"@, Some(a), span_range(s, node.start as int, node.end as int), declared_visibility_of(node))
}

/// What a node is, if it is an entity at all.
pub open spec fn classify_spec(node: ParsedNode, s: Seq<char>, container: Option<NodeKind>) -> Option<ClassifiedView> {
    let k = node.kind@;
    if k == "mod_item"@ {
        named_view(node, s, NodeKind::Module)
    } else if k == "struct_item"@ || k == "enum_item"@ || k == "union_item"@ {
        named_view(node, s, NodeKind::Type)
    } else if k == "type_item"@ {
        named_view(node, s, if container == Some(NodeKind::Implementation) { NodeKind::Member } else { NodeKind::Type })
    } else if k == "trait_item"@ {
        named_view(node, s, NodeKind::Interface)
    } else if k == "impl_item"@ {
        Some(impl_view(node, s))
    } else if k == "function_item"@ || k == "function_signature_item"@ {
        named_view(node, s, function_kind_of(container))
    } else if k == "field_declaration"@ || k == "enum_variant"@ || k == "associated_type"@ {
        named_view(node, s, NodeKind::Member)
    } else if k == "const_item"@ || k == "static_item"@ {
        named_view(node, s, NodeKind::Constant)
    } else if k == "macro_definition"@ {
        named_view(node, s, NodeKind::MacroDef)
    } else if k == "foreign_mod_item"@ {
        Some(foreign_view(node, s))
    } else {
        None
    }
}

/// The kind a function takes in `container`.
fn function_kind(container: Option<NodeKind>) -> (r: NodeKind)
    ensures
        r == function_kind_of(container),
{
    match container {
        Some(NodeKind::Interface) | Some(NodeKind::Implementation) | Some(NodeKind::ForeignBlock) => NodeKind::Member,
        _ => NodeKind::Function,
    }
}

/// A construct of `kind` named by its `name` field.
fn named(node: &ParsedNode, ctx: &FacetContext, kind: NodeKind) -> (r: Option<Classified>)
    requires
        ctx.source.wf(),
    ensures
        match r {
            Some(c) => named_view(*node, ctx.source.text(), kind) == Some(classified_view(c)),
            None => named_view(*node, ctx.source.text(), kind) is None,
        },
{
    proof {
        reveal_strlit("name");
    }
    let name = match child_text(node, "name", ctx.source) {
        Some(n) => n,
        None => return None,
    };
    let selection = match child_by_field(node, "name") {
        Some(c) => ctx.range(c.start, c.end),
        None => ctx.range(node.start, node.end),
    };
    let segment = name.clone();
    Some(Classified { kind, name, segment, detail: None, selection, visibility: declared_visibility(node) })
}

/// `parts` concatenated.
fn concat(parts: &[&str]) -> (r: String)
    ensures
        r@ == parts@.map_values(|p: &str| p@).fold_left(Seq::<char>::empty(), |acc: Seq<char>, p: Seq<char>| acc + p),
{
    let mut out = String::new();
    let ghost ps = parts@.map_values(|p: &str| p@);
    let mut i: usize = 0;
    assert(ps.take(0) =~= Seq::<Seq<char>>::empty());
    while i < parts.len()
        invariant
            i <= parts@.len(),
            ps == parts@.map_values(|p: &str| p@),
            out@ == ps.take(i as int).fold_left(Seq::<char>::empty(), |acc: Seq<char>, p: Seq<char>| acc + p),
        decreases parts.len() - i,
    {
        push_str(&mut out, parts[i]);
        proof {
            assert(ps.take(i + 1).drop_last() =~= ps.take(i as int));
        }
        i = i + 1;
    }
    assert(ps.take(i as int) =~= ps);
    out
}

/// Describe an `impl` block.
fn classify_impl(node: &ParsedNode, ctx: &FacetContext) -> (r: Classified)
    requires
        ctx.source.wf(),
    ensures
        classified_view(r) == impl_view(*node, ctx.source.text()),
{
    proof {
        reveal_strlit("type");
        reveal_strlit("trait");
        reveal_strlit("?");
        reveal_strlit("impl ");
        reveal_strlit(" for ");
        reveal_strlit("{impl ");
        reveal_strlit("}");
    }
    let raw_type = match child_text(node, "type", ctx.source) {
        Some(t) => t,
        None => "?".to_string(),
    };
    let self_type = words_joined(raw_type.as_str());
    let trait_name = match child_text(node, "trait", ctx.source) {
        Some(t) => Some(words_joined(t.as_str())),
        None => None,
    };
    let selection = match child_by_field(node, "trait") {
        Some(c) => ctx.range(c.start, c.end),
        None => match child_by_field(node, "type") {
            Some(c) => ctx.range(c.start, c.end),
            None => ctx.range(node.start, node.end),
        },
    };
    let visibility = declared_visibility(node);
    match trait_name {
        Some(b) => {
            let name = concat(&["impl ", b.as_str(), " for ", self_type.as_str()]);
            let segment = concat(&["{impl ", b.as_str(), " for ", self_type.as_str(), "}"]);
            proof {
                let ps = seq!["impl "@, b@, " for "@, self_type@];
                assert(ps.take(4).drop_last().drop_last().drop_last().drop_last() =~= Seq::<Seq<char>>::empty());
            }
            assert(name@ =~= "impl "@ + b@ + " for "@ + self_type@) by {
                reveal_with_fuel(Seq::fold_left, 5);
            }
            assert(segment@ =~= "{impl "@ + b@ + " for "@ + self_type@ + "}"@) by {
                reveal_with_fuel(Seq::fold_left, 6);
            }
            Classified { kind: NodeKind::Implementation, name, segment, detail: Some(b), selection, visibility }
        },
        None => {
            let name = concat(&["impl ", self_type.as_str()]);
            let segment = concat(&["{impl ", self_type.as_str(), "}"]);
            assert(name@ =~= "impl "@ + self_type@) by {
                reveal_with_fuel(Seq::fold_left, 3);
            }
            assert(segment@ =~= "{impl "@ + self_type@ + "}"@) by {
                reveal_with_fuel(Seq::fold_left, 4);
            }
            Classified { kind: NodeKind::Implementation, name, segment, detail: None, selection, visibility }
        },
    }
}

/// The ABI an `extern` block or function modifier names.
pub(crate) fn abi(node: &ParsedNode, ctx: &FacetContext) -> (r: String)
    requires
        ctx.source.wf(),
    ensures
        r@ == abi_of(*node, ctx.source.text()),
{
    proof {
        reveal_strlit("extern");
    }
    match child_of_kind(node, "extern_modifier") {
        Some(m) => match node_text(m, ctx.source) {
            Some(t) => t,
            None => "extern".to_string(),
        },
        None => "extern".to_string(),
    }
}

/// Describe an `extern` block.
fn classify_foreign(node: &ParsedNode, ctx: &FacetContext) -> (r: Classified)
    requires
        ctx.source.wf(),
    ensures
        classified_view(r) == foreign_view(*node, ctx.source.text()),
{
    proof {
        reveal_strlit("{");
        reveal_strlit("}");
    }
    let a = abi(node, ctx);
    let segment = concat(&["{", a.as_str(), "}"]);
    assert(segment@ =~= "{"@ + a@ + "}"@) by {
        reveal_with_fuel(Seq::fold_left, 4);
    }
    let detail = a.clone();
    Classified {
        kind: NodeKind::ForeignBlock,
        name: a,
        segment,
        detail: Some(detail),
        selection: ctx.range(node.start, node.end),
        visibility: declared_visibility(node),
    }
}

/// Map one node onto an addressable entity, or `None` when it is not one.
pub fn classify(node: &ParsedNode, ctx: &FacetContext) -> (r: Option<Classified>)
    requires
        ctx.source.wf(),
    ensures
        match r {
            Some(c) => classify_spec(*node, ctx.source.text(), ctx.container) == Some(classified_view(c)),
            None => classify_spec(*node, ctx.source.text(), ctx.container) is None,
        },
{
    let k = node.kind.as_str();
    if str_eq(k, "mod_item") {
        named(node, ctx, NodeKind::Module)
    } else if str_eq(k, "struct_item") || str_eq(k, "enum_item") || str_eq(k, "union_item") {
        named(node, ctx, NodeKind::Type)
    } else if str_eq(k, "type_item") {
        let kind = match ctx.container {
            Some(NodeKind::Implementation) => NodeKind::Member,
            _ => NodeKind::Type,
        };
        named(node, ctx, kind)
    } else if str_eq(k, "trait_item") {
        named(node, ctx, NodeKind::Interface)
    } else if str_eq(k, "impl_item") {
        Some(classify_impl(node, ctx))
    } else if str_eq(k, "function_item") || str_eq(k, "function_signature_item") {
        named(node, ctx, function_kind(ctx.container))
    } else if str_eq(k, "field_declaration") || str_eq(k, "enum_variant") || str_eq(k, "associated_type") {
        named(node, ctx, NodeKind::Member)
    } else if str_eq(k, "const_item") || str_eq(k, "static_item") {
        named(node, ctx, NodeKind::Constant)
    } else if str_eq(k, "macro_definition") {
        named(node, ctx, NodeKind::MacroDef)
    } else if str_eq(k, "foreign_mod_item") {
        Some(classify_foreign(node, ctx))
    } else {
        None
    }
}

/// The name of a module whose body lives in another file: `mod net { … }` carries its
/// body, `mod net;` does not, and that missing body is the whole signal.
pub open spec fn external_module_of(node: ParsedNode, s: Seq<char>) -> Option<Seq<char>> {
    if node.kind@ == "mod_item"@ && field_child(node.children@, "body"@) is None {
        child_text_of(node, "name"@, s)
    } else {
        None
    }
}

/// The name of a module declared here whose body lives in another file.
pub fn external_module(node: &ParsedNode, ctx: &FacetContext) -> (r: Option<String>)
    requires
        ctx.source.wf(),
    ensures
        match r {
            Some(n) => external_module_of(*node, ctx.source.text()) == Some(n@),
            None => external_module_of(*node, ctx.source.text()) is None,
        },
{
    proof {
        reveal_strlit("body");
        reveal_strlit("name");
    }
    if !str_eq(node.kind.as_str(), "mod_item") {
        return None;
    }
    match child_by_field(node, "body") {
        Some(_) => None,
        None => child_text(node, "name", ctx.source),
    }
}

// --- type parameters and modifiers -------------------------------------------------------

/// The name a type parameter declares, read from its `name` field, else its `left`.
pub open spec fn parameter_name(c: ParsedNode, s: Seq<char>) -> Option<Seq<char>> {
    if c.kind@ == "type_parameter"@ || c.kind@ == "constrained_type_parameter"@ {
        match child_text_of(c, "name"@, s) {
            Some(n) => Some(n),
            None => child_text_of(c, "left"@, s),
        }
    } else {
        None
    }
}

/// The names the type parameters among `cs` declare, in order.
pub open spec fn parameter_names(cs: Seq<ParsedNode>, s: Seq<char>) -> Seq<Seq<char>>
    decreases cs.len(),
{
    if cs.len() == 0 {
        Seq::empty()
    } else {
        parameter_names(cs.drop_last(), s) + match parameter_name(cs.last(), s) {
            Some(n) => seq![n],
            None => Seq::empty(),
        }
    }
}

/// The type parameter names a node declares, for blanket-impl detection.
pub open spec fn type_parameters_of(node: ParsedNode, s: Seq<char>) -> Seq<Seq<char>> {
    match first_of_kind(node.children@, "type_parameters"@) {
        Some(p) => parameter_names(p.children@, s),
        None => Seq::empty(),
    }
}

/// The type parameter names a node declares.
pub fn type_parameter_names(node: &ParsedNode, ctx: &FacetContext) -> (r: Vec<String>)
    requires
        ctx.source.wf(),
    ensures
        r@.map_values(|n: String| n@) == type_parameters_of(*node, ctx.source.text()),
{
    proof {
        reveal_strlit("name");
        reveal_strlit("left");
    }
    let mut out: Vec<String> = Vec::new();
    let parameters = match child_of_kind(node, "type_parameters") {
        Some(p) => p,
        None => {
            assert(out@.map_values(|n: String| n@) =~= Seq::<Seq<char>>::empty());
            return out;
        },
    };
    let ghost cs = parameters.children@;
    let ghost s = ctx.source.text();
    let mut i: usize = 0;
    assert(out@.map_values(|n: String| n@) =~= parameter_names(cs.take(0), s));
    while i < parameters.children.len()
        invariant
            i <= cs.len(),
            cs == parameters.children@,
            s == ctx.source.text(),
            ctx.source.wf(),
            out@.map_values(|n: String| n@) == parameter_names(cs.take(i as int), s),
        decreases parameters.children.len() - i,
    {
        let c = &parameters.children[i];
        let ghost before = out@;
        assert(cs.take(i + 1).drop_last() =~= cs.take(i as int));
        assert(cs.take(i + 1).last() == *c);
        if str_eq(c.kind.as_str(), "type_parameter") || str_eq(c.kind.as_str(), "constrained_type_parameter") {
            let n = match child_text(c, "name", ctx.source) {
                Some(n) => Some(n),
                None => child_text(c, "left", ctx.source),
            };
            match n {
                Some(n) => {
                    out.push(n);
                    assert(out@.map_values(|n: String| n@) =~= before.map_values(|n: String| n@).push(n@));
                },
                None => {},
            }
        }
        i = i + 1;
    }
    assert(cs.take(i as int) =~= cs);
    out
}

/// Whether a node carries a modifier token such as `unsafe`, `async` or `const` in its
/// `function_modifiers`.
pub open spec fn has_modifier_of(node: ParsedNode, modifier: Seq<char>) -> bool {
    exists|i: int| 0 <= i < node.children@.len()
        && (#[trigger] node.children@[i]).kind@ == "function_modifiers"@
        && has_kind(node.children@[i], modifier)
}

/// Whether a node carries a modifier token.
pub fn has_modifier(node: &ParsedNode, modifier: &str) -> (r: bool)
    ensures
        r == has_modifier_of(*node, modifier@),
{
    let mut i: usize = 0;
    while i < node.children.len()
        invariant
            i <= node.children@.len(),
            forall|j: int| 0 <= j < i ==> !((#[trigger] node.children@[j]).kind@ == "function_modifiers"@
                && has_kind(node.children@[j], modifier@)),
        decreases node.children.len() - i,
    {
        let c = &node.children[i];
        if str_eq(c.kind.as_str(), "function_modifiers") && crate::syntax::has_child_kind(c, modifier) {
            return true;
        }
        i = i + 1;
    }
    false
}

// --- attributes ---------------------------------------------------------------------

/// The text inside an attribute's brackets: after its first `[`, before its last `]`.
pub open spec fn bracketed(t: Seq<char>) -> Option<Seq<char>> {
    let a = first_index(t, '[');
    let b = last_of(t, ']');
    if 0 <= a && a < b {
        Some(t.subrange(a + 1, b))
    } else {
        None
    }
}

/// An attribute written as `name`, `name(args)` or `name = value`: its name, and its
/// arguments without the enclosing parentheses, or its value as written.
pub open spec fn split_attribute(x: Seq<char>) -> (Seq<char>, Option<Seq<char>>) {
    let x = trim(x);
    let head = cut_at(x, seq!['(', '=']);
    let name = trim(head);
    if head.len() == x.len() {
        (name, None)
    } else {
        let rest = x.skip(head.len() as int);
        if rest[0] == '(' {
            let body = rest.drop_first();
            (name, Some(trim(if body.len() > 0 && body.last() == ')' { body.drop_last() } else { body })))
        } else {
            (name, Some(trim(rest.drop_first())))
        }
    }
}

/// The attribute written inside the brackets, looking through an `unsafe(…)` wrapper:
/// `#[unsafe(no_mangle)]` is `no_mangle`.
pub open spec fn attribute_parts(inner: Seq<char>) -> (Seq<char>, Option<Seq<char>>) {
    let (n, a) = split_attribute(inner);
    match a {
        Some(x) => if n == "unsafe"@ {
            split_attribute(x)
        } else {
            (n, a)
        },
        None => (n, a),
    }
}

/// What an `attribute_item` says, or `None` for any other node.
pub open spec fn decoration_spec(node: ParsedNode, s: Seq<char>) -> Option<AttrView> {
    if node.kind@ == "attribute_item"@ {
        match node_text_of(node, s) {
            Some(t) => match bracketed(t) {
                Some(inner) => {
                    let (n, a) = attribute_parts(inner);
                    Some((n, a, span_range(s, node.start as int, node.end as int)))
                },
                None => None,
            },
            None => None,
        }
    } else {
        None
    }
}

/// The position of the first `c` in `v`.
fn find_first(v: &Vec<char>, c: char) -> (r: Option<usize>)
    ensures
        match r {
            Some(k) => k as int == first_index(v@, c),
            None => first_index(v@, c) < 0,
        },
{
    let mut k: usize = 0;
    while k < v.len() && v[k] != c
        invariant
            k <= v@.len(),
            forall|j: int| 0 <= j < k ==> v@[j] != c,
        decreases v.len() - k,
    {
        k = k + 1;
    }
    proof {
        crate::lang::swift::lemma_first_index(v@, c);
    }
    if k == v.len() {
        None
    } else {
        Some(k)
    }
}

/// An attribute's name and arguments.
fn split_attr(x: &Vec<char>) -> (r: (String, Option<String>))
    ensures
        (r.0@, match r.1 { Some(a) => Some(a@), None => None }) == split_attribute(x@),
{
    let x = trimmed(x);
    let stops = vec!['(', '='];
    assert(stops@ =~= seq!['(', '=']);
    let head = cut(&x, stops.as_slice());
    let name = string_of(trimmed(&head).as_slice());
    proof {
        crate::lang::lemma_cut_prefix(x@, seq!['(', '=']);
    }
    if head.len() == x.len() {
        return (name, None);
    }
    let rest = slice_range(&x, head.len(), x.len());
    assert(rest@ =~= x@.skip(head@.len() as int));
    if rest[0] == '(' {
        let body = slice_range(&rest, 1, rest.len());
        assert(body@ =~= rest@.drop_first());
        let inner = if body.len() > 0 && body[body.len() - 1] == ')' {
            let b = slice_range(&body, 0, body.len() - 1);
            assert(b@ =~= body@.drop_last());
            b
        } else {
            body
        };
        (name, Some(string_of(trimmed(&inner).as_slice())))
    } else {
        let value = slice_range(&rest, 1, rest.len());
        assert(value@ =~= rest@.drop_first());
        (name, Some(string_of(trimmed(&value).as_slice())))
    }
}

/// The attribute an `attribute_item` carries, or `None` for any other node.
pub fn decoration(node: &ParsedNode, ctx: &FacetContext) -> (r: Option<Attribute>)
    requires
        ctx.source.wf(),
    ensures
        match r {
            Some(a) => decoration_spec(*node, ctx.source.text()) == Some(attr_view(a)),
            None => decoration_spec(*node, ctx.source.text()) is None,
        },
{
    if !str_eq(node.kind.as_str(), "attribute_item") {
        return None;
    }
    let t = match node_text(node, ctx.source) {
        Some(t) => chars_of(t.as_str()),
        None => return None,
    };
    let a = match find_first(&t, '[') {
        Some(a) => a,
        None => return None,
    };
    let b = match find_last(&t, ']') {
        Some(b) => b,
        None => return None,
    };
    if a >= b {
        return None;
    }
    let inner = slice_range(&t, a + 1, b);
    let (n, args) = split_attr(&inner);
    proof {
        reveal_strlit("unsafe");
    }
    let range = ctx.range(node.start, node.end);
    match args {
        Some(x) => {
            if str_eq(n.as_str(), "unsafe") {
                let (n2, a2) = split_attr(&chars_of(x.as_str()));
                Some(Attribute { name: n2, arguments: a2, range })
            } else {
                Some(Attribute { name: n, arguments: Some(x), range })
            }
        },
        None => Some(Attribute { name: n, arguments: None, range }),
    }
}

// --- where an impl block's members belong ---------------------------------------------

/// An owner as plain values: the type's name, the new display name and segment, and
/// whether the node's own level dissolves.
pub type OwnerView = (Seq<char>, Option<(Seq<char>, Seq<char>)>, bool);

/// What `o` holds.
pub open spec fn owner_view(o: Owner) -> OwnerView {
    (o.base@, match o.rename { Some(r) => Some((r.0@, r.1@)), None => None }, o.dissolve)
}

/// Whether a `cfg` or `cfg_attr` decides that the construct exists.
pub open spec fn gated_by(attrs: Seq<AttrView>) -> bool {
    exists|i: int| 0 <= i < attrs.len() && ((#[trigger] attrs[i]).0 == "cfg"@ || attrs[i].0 == "cfg_attr"@)
}

/// Where an `impl` block belongs, most specific first. **The self type**, because an
/// `impl` binds behaviour to a type — unless it is one of the block's own type
/// parameters: a trait impl stays a level under it renamed `impl Trait`, and an
/// inherent block dissolves into it unless a `cfg` gates it. Then **the trait**, when it
/// has one, the block renamed `impl for SelfType`. Any other node has none.
pub open spec fn owners_spec(node: ParsedNode, s: Seq<char>, attrs: Seq<AttrView>) -> Seq<OwnerView> {
    if node.kind@ != "impl_item"@ {
        Seq::empty()
    } else {
        let t = joined_words(match child_text_of(node, "type"@, s) { Some(x) => x, None => Seq::empty() });
        let bound = match child_text_of(node, "trait"@, s) {
            Some(x) => if joined_words(x).len() > 0 { Some(joined_words(x)) } else { None },
            None => None,
        };
        let first = match base_name_of(t) {
            Some(b) => if type_parameters_of(node, s).contains(b) {
                Seq::empty()
            } else {
                seq![
                    match bound {
                        Some(bd) => (b, Some(("impl "@ + bd, "{impl "@ + bd + "}"@)), false),
                        None => (b, None, !gated_by(attrs)),
                    },
                ]
            },
            None => Seq::empty(),
        };
        let second = match bound {
            Some(bd) => match base_name_of(bd) {
                Some(b2) => seq![(b2, Some(("impl for "@ + t, "{impl for "@ + t + "}"@)), false)],
                None => Seq::empty(),
            },
            None => Seq::empty(),
        };
        first + second
    }
}

/// Whether `name` is among `names`.
pub(crate) fn contains_text(names: &Vec<String>, name: &str) -> (r: bool)
    ensures
        r == names@.map_values(|n: String| n@).contains(name@),
{
    let ghost vs = names@.map_values(|n: String| n@);
    let mut i: usize = 0;
    while i < names.len()
        invariant
            i <= names@.len(),
            vs == names@.map_values(|n: String| n@),
            forall|j: int| 0 <= j < i ==> vs[j] != name@,
        decreases names.len() - i,
    {
        if str_eq(names[i].as_str(), name) {
            assert(vs[i as int] == name@);
            return true;
        }
        i = i + 1;
    }
    false
}

/// Whether a `cfg` decides that the construct exists.
fn gated(ctx: &FacetContext) -> (r: bool)
    ensures
        r == gated_by(attr_views(ctx.attributes@)),
{
    let ghost views = attr_views(ctx.attributes@);
    let mut i: usize = 0;
    while i < ctx.attributes.len()
        invariant
            i <= ctx.attributes@.len(),
            views == attr_views(ctx.attributes@),
            forall|j: int| 0 <= j < i ==> !((#[trigger] views[j]).0 == "cfg"@ || views[j].0 == "cfg_attr"@),
        decreases ctx.attributes.len() - i,
    {
        let n = ctx.attributes[i].name.as_str();
        assert(views[i as int].0 == n@);
        if str_eq(n, "cfg") || str_eq(n, "cfg_attr") {
            return true;
        }
        i = i + 1;
    }
    false
}

/// The owner candidates for one `impl_item`, most specific first.
pub fn owners(node: &ParsedNode, ctx: &FacetContext) -> (r: Vec<Owner>)
    requires
        ctx.source.wf(),
    ensures
        r@.map_values(|o: Owner| owner_view(o)) == owners_spec(*node, ctx.source.text(), attr_views(ctx.attributes@)),
{
    proof {
        reveal_strlit("type");
        reveal_strlit("trait");
        reveal_strlit("impl ");
        reveal_strlit("{impl ");
        reveal_strlit("}");
        reveal_strlit("impl for ");
        reveal_strlit("{impl for ");
        reveal_strlit("");
    }
    let mut out: Vec<Owner> = Vec::new();
    if !str_eq(node.kind.as_str(), "impl_item") {
        assert(out@.map_values(|o: Owner| owner_view(o)) =~= Seq::<OwnerView>::empty());
        return out;
    }
    let raw_type = match child_text(node, "type", ctx.source) {
        Some(t) => t,
        None => String::new(),
    };
    let self_type = words_joined(raw_type.as_str());
    let bound = match child_text(node, "trait", ctx.source) {
        Some(x) => {
            let j = words_joined(x.as_str());
            if j.as_str().unicode_len() > 0 {
                Some(j)
            } else {
                None
            }
        },
        None => None,
    };
    let parameters = type_parameter_names(node, ctx);
    let ghost s = ctx.source.text();
    let ghost t = self_type@;
    let ghost bound_view = match &bound { Some(b) => Some(b@), None => None };
    let ghost first: Seq<OwnerView> = match base_name_of(t) {
        Some(b) => if type_parameters_of(*node, s).contains(b) {
            Seq::empty()
        } else {
            seq![
                match bound_view {
                    Some(bd) => (b, Some(("impl "@ + bd, "{impl "@ + bd + "}"@)), false),
                    None => (b, None, !gated_by(attr_views(ctx.attributes@))),
                },
            ]
        },
        None => Seq::empty(),
    };
    match base_name(self_type.as_str()) {
        Some(b) => {
            if !contains_text(&parameters, b.as_str()) {
                let o = match &bound {
                    Some(bd) => {
                        let display = concat(&["impl ", bd.as_str()]);
                        let segment = concat(&["{impl ", bd.as_str(), "}"]);
                        assert(display@ =~= "impl "@ + bd@) by {
                            reveal_with_fuel(Seq::fold_left, 3);
                        }
                        assert(segment@ =~= "{impl "@ + bd@ + "}"@) by {
                            reveal_with_fuel(Seq::fold_left, 4);
                        }
                        Owner::nested(b).renamed(display, segment)
                    },
                    None => {
                        if !gated(ctx) {
                            Owner::dissolved(b)
                        } else {
                            Owner::nested(b)
                        }
                    },
                };
                out.push(o);
            }
        },
        None => {},
    }
    assert(out@.map_values(|o: Owner| owner_view(o)) =~= first);
    match &bound {
        Some(bd) => {
            match base_name(bd.as_str()) {
                Some(b2) => {
                    let display = concat(&["impl for ", self_type.as_str()]);
                    let segment = concat(&["{impl for ", self_type.as_str(), "}"]);
                    assert(display@ =~= "impl for "@ + t) by {
                        reveal_with_fuel(Seq::fold_left, 3);
                    }
                    assert(segment@ =~= "{impl for "@ + t + "}"@) by {
                        reveal_with_fuel(Seq::fold_left, 4);
                    }
                    let ghost before = out@;
                    let o = Owner::nested(b2).renamed(display, segment);
                    out.push(o);
                    assert(out@.map_values(|o: Owner| owner_view(o)) =~= before.map_values(|o: Owner| owner_view(o)).push(owner_view(o)));
                },
                None => {},
            }
        },
        None => {},
    }
    out
}

// --- the lenses together ----------------------------------------------------------------

/// Every facet an entity carries, lens by lens: api, substitution, variation, boundary,
/// hazard.
pub open spec fn entity_spec(node: ParsedNode, s: Seq<char>, container: Option<NodeKind>, attrs: Seq<AttrView>) -> Seq<FacetView> {
    api::api_spec(node, s)
        + substitution::substitution_spec(node, s, container)
        + variation::variation_spec(node, attrs)
        + boundary::boundary_spec(node, s, container, attrs)
        + hazard::hazard_spec(node, s)
}

/// Push every facet an entity carries.
pub fn entity_facets(node: &ParsedNode, ctx: &FacetContext, out: &mut Vec<Facet>)
    requires
        ctx.source.wf(),
        plain_facets(old(out)@),
    ensures
        plain_facets(final(out)@),
        facet_views(final(out)@) == facet_views(old(out)@)
            + entity_spec(*node, ctx.source.text(), ctx.container, attr_views(ctx.attributes@)),
{
    let ghost before = facet_views(out@);
    api::facets(node, ctx, out);
    substitution::facets(node, ctx, out);
    variation::facets(node, ctx, out);
    boundary::facets(node, ctx, out);
    hazard::facets(node, ctx, out);
    assert(facet_views(out@) =~= before + entity_spec(*node, ctx.source.text(), ctx.container, attr_views(ctx.attributes@)));
}

/// Every facet a non-entity contributes to the entity around it: substitution sites,
/// macro invocations, hazards, re-exports.
pub open spec fn interior_spec(node: ParsedNode, s: Seq<char>) -> Seq<FacetView> {
    substitution::substitution_interior_spec(node, s)
        + variation::variation_interior_spec(node, s)
        + hazard::hazard_interior_spec(node, s)
        + api::reexport_spec(node, s)
}

/// Push every facet a non-entity contributes.
pub fn interior_facets(node: &ParsedNode, ctx: &FacetContext, out: &mut Vec<Facet>)
    requires
        ctx.source.wf(),
        plain_facets(old(out)@),
    ensures
        plain_facets(final(out)@),
        facet_views(final(out)@) == facet_views(old(out)@) + interior_spec(*node, ctx.source.text()),
{
    let ghost before = facet_views(out@);
    substitution::interior_facets(node, ctx, out);
    variation::interior_facets(node, ctx, out);
    hazard::interior_facets(node, ctx, out);
    api::interior_facets(node, ctx, out);
    assert(facet_views(out@) =~= before + interior_spec(*node, ctx.source.text()));
}

/// Every facet subtype the Rust mapping can emit.
pub fn subtypes() -> (r: Vec<(Lens, FacetSubtype)>)
    ensures
        crate::lang::table_view(r@) == crate::lang::rust_subtypes(),
{
    crate::lang::rust_subtype_table()
}

/// The edge kinds a Rust language server can resolve.
pub fn semantic_capabilities() -> (r: Vec<crate::edge::EdgeKind>)
    ensures
        r@ == seq![crate::edge::EdgeKind::Implements, crate::edge::EdgeKind::OverridesDefault, crate::edge::EdgeKind::ReExports],
{
    let r = vec![crate::edge::EdgeKind::Implements, crate::edge::EdgeKind::OverridesDefault, crate::edge::EdgeKind::ReExports];
    assert(r@ =~= seq![crate::edge::EdgeKind::Implements, crate::edge::EdgeKind::OverridesDefault, crate::edge::EdgeKind::ReExports]);
    r
}

} // verus!
