//! What each language mapping can say: the facet subtypes it emits, and the small
//! text rules it applies to declarations.

use vstd::prelude::*;
use crate::config::predicate::skip_ws;
use crate::config::predicate::skip_ws_at;
use crate::config::predicate::trim;
use crate::text::has_prefix;
use crate::text::starts_at;
use crate::config::predicate::trim_end_to;
use crate::config::predicate::from;
use crate::id::slice_range;
use crate::model::FacetSubtype;
use crate::model::Facet;
use crate::query::texts;
use crate::text::push_str;
use crate::model::Lens;
use crate::modules::last_of;
use crate::text::unicode_alphabetic;
use crate::text::unicode_alphanumeric;
use crate::text::is_alphabetic;
use crate::text::is_alphanumeric;
use crate::text::is_whitespace;
use crate::text::unicode_whitespace;
use crate::text::byte_at;
use crate::text::byte_offsets;
use crate::text::char_at_byte;
use crate::text::chars_of;
use crate::text::lemma_byte_at_strict;
use crate::text::position_at_byte;
use crate::syntax::Source;
use crate::syntax::ParsedNode;
use crate::syntax::field_child;
use crate::syntax::line_col_of;
use crate::syntax::child_by_field;
use crate::coord::Range;
use crate::model::NodeKind;
use crate::model::Visibility;
use karet_treesitter::LanguageId;

pub mod rust;
pub mod swift;
pub mod kotlin;
pub mod python;
pub mod typescript;

verus! {

// --- what a language makes of a node ------------------------------------------------

/// What a language made of one syntax node.
#[derive(Debug)]
pub struct Classified {
    /// Which universal kind the construct maps onto.
    pub kind: NodeKind,
    /// The display name shown in the spine.
    pub name: String,
    /// The path segment naming it; the same as `name` unless the construct is anonymous.
    pub segment: String,
    /// A short signature or descriptor for the facet pane.
    pub detail: Option<String>,
    /// The range to reveal when navigating here — the name, not the whole body.
    pub selection: Range,
    /// The declared visibility, when the language expresses one.
    pub visibility: Option<Visibility>,
}

/// One decoration attached to the construct being classified: a Rust attribute, a
/// Python decorator. Decorations are siblings of what they decorate, so the walk pairs
/// them up rather than the language.
#[derive(Debug)]
pub struct Attribute {
    /// The decoration's name — `cfg`, `app.route`.
    pub name: String,
    /// The raw argument text, without the enclosing delimiters.
    pub arguments: Option<String>,
    /// Where the decoration is written.
    pub range: Range,
}

impl Attribute {
    /// The arguments, or an empty string when there are none.
    pub fn args(&self) -> (r: &str)
        ensures
            r@ == match self.arguments {
                Some(a) => a@,
                None => Seq::<char>::empty(),
            },
    {
        match &self.arguments {
            Some(a) => a.as_str(),
            None => {
                proof {
                    reveal_strlit("");
                }
                ""
            },
        }
    }
}

/// Everything a language needs to classify one node beyond the node itself.
pub struct FacetContext<'a> {
    /// The source the tree was parsed from.
    pub source: &'a Source,
    /// The decorations paired with this node.
    pub attributes: &'a [Attribute],
    /// The kind of the nearest enclosing entity, when there is one.
    pub container: Option<NodeKind>,
}

impl<'a> FacetContext<'a> {
    /// The line/column range of the bytes from `start` to `end`.
    pub fn range(&self, start: usize, end: usize) -> (r: Range)
        requires
            self.source.wf(),
        ensures
            r.start == line_col_of(self.source.text(), start as int),
            r.end == line_col_of(self.source.text(), end as int),
    {
        self.source.range(start, end)
    }

    /// The first decoration with this name.
    pub fn attribute(&self, name: &str) -> (r: Option<&'a Attribute>)
        ensures
            match r {
                Some(a) => exists|k: int| 0 <= k < self.attributes@.len() && self.attributes@[k] == *a
                    && a.name@ == name@
                    && forall|j: int| 0 <= j < k ==> (#[trigger] self.attributes@[j]).name@ != name@,
                None => forall|j: int| 0 <= j < self.attributes@.len() ==> (#[trigger] self.attributes@[j]).name@ != name@,
            },
    {
        let mut i: usize = 0;
        while i < self.attributes.len()
            invariant
                i <= self.attributes@.len(),
                forall|j: int| 0 <= j < i ==> (#[trigger] self.attributes@[j]).name@ != name@,
            decreases self.attributes.len() - i,
        {
            if crate::text::str_eq(self.attributes[i].name.as_str(), name) {
                return Some(&self.attributes[i]);
            }
            i = i + 1;
        }
        None
    }
}

/// The first of `attributes` named `name`.
pub fn attribute_named<'a>(attributes: &'a [Attribute], name: &str) -> (r: Option<&'a Attribute>)
    ensures
        match r {
            Some(a) => exists|k: int| 0 <= k < attributes@.len() && attributes@[k] == *a
                && a.name@ == name@
                && forall|j: int| 0 <= j < k ==> (#[trigger] attributes@[j]).name@ != name@,
            None => forall|j: int| 0 <= j < attributes@.len() ==> (#[trigger] attributes@[j]).name@ != name@,
        },
{
    let mut i: usize = 0;
    while i < attributes.len()
        invariant
            i <= attributes@.len(),
            forall|j: int| 0 <= j < i ==> (#[trigger] attributes@[j]).name@ != name@,
        decreases attributes.len() - i,
    {
        if crate::text::str_eq(attributes[i].name.as_str(), name) {
            return Some(&attributes[i]);
        }
        i = i + 1;
    }
    None
}

/// The byte extent of a construct's head: from its start to the end of the line above
/// its `body`, or to the body itself when the body shares the signature's line; the
/// whole construct when it has no body that starts after it does.
pub open spec fn head_extent(node: ParsedNode, s: Seq<char>) -> (int, int) {
    match field_child(node.children@, "body"@) {
        Some(b) => if b.start > node.start {
            match line_opening_body_of(s, node.start as int, b.start as int) {
                Some(e) => (node.start as int, e),
                None => (node.start as int, b.start as int),
            }
        } else {
            (node.start as int, node.end as int)
        },
        None => (node.start as int, node.end as int),
    }
}

/// The declaration head of `node`: everything from its start up to the body it opens,
/// or the whole construct when it opens none. A body that opens a line of its own cuts
/// at the end of the line above, because grammars disagree about where a body begins
/// and readers do not.
pub fn header_before_body(node: &ParsedNode, ctx: &FacetContext) -> (r: Range)
    requires
        ctx.source.wf(),
    ensures
        r.start == line_col_of(ctx.source.text(), head_extent(*node, ctx.source.text()).0),
        r.end == line_col_of(ctx.source.text(), head_extent(*node, ctx.source.text()).1),
{
    proof {
        reveal_strlit("body");
    }
    match child_by_field(node, "body") {
        Some(b) => {
            if b.start > node.start {
                let end = match ctx.source.opening_line_end(node.start, b.start) {
                    Some(e) => e,
                    None => b.start,
                };
                ctx.range(node.start, end)
            } else {
                ctx.range(node.start, node.end)
            }
        },
        None => ctx.range(node.start, node.end),
    }
}

/// The language mappings this crate holds.
#[derive(Clone, Copy, Debug, PartialEq, Eq, Structural)]
pub enum Mapping {
    /// The Rust mapping.
    Rust,
    /// The Python mapping.
    Python,
    /// The Kotlin mapping.
    Kotlin,
    /// The Swift mapping.
    Swift,
    /// The TypeScript and JavaScript mapping.
    TypeScript,
}

/// The grammar that answers to `name` in the table of grammars this build compiled in,
/// as `karet_treesitter::language_id_from_injection_name` looks it up.
pub uninterp spec fn injection_grammar(name: Seq<char>) -> Option<LanguageId>;

/// `karet_treesitter::language_id_from_injection_name`: the grammar that answers to
/// `name`. It looks `name` up in a fixed table, so the answer is a function of `name`
/// alone; which grammars the table holds depends on what was compiled in, so nothing
/// more is claimed of it.
#[verifier::external_body]
pub(crate) fn grammar_named(name: &str) -> (r: Option<LanguageId>)
    ensures
        r == injection_grammar(name@),
{
    karet_treesitter::language_id_from_injection_name(name)
}

/// `LanguageId`'s `==`: the two ids name the same grammar.
#[verifier::external_body]
pub(crate) fn same_grammar(a: LanguageId, b: LanguageId) -> (r: bool)
    ensures
        r == (a == b),
{
    a == b
}

/// The mapping whose grammar `language` is: the first of Rust, Python, Kotlin, Swift and TypeScript (with JavaScript and TSX) whose
/// grammar this build holds under that id.
pub open spec fn mapping_for(language: LanguageId) -> Option<Mapping> {
    if injection_grammar("rust"@) == Some(language) {
        Some(Mapping::Rust)
    } else if injection_grammar("python"@) == Some(language) {
        Some(Mapping::Python)
    } else if injection_grammar("kotlin"@) == Some(language) {
        Some(Mapping::Kotlin)
    } else if injection_grammar("swift"@) == Some(language) {
        Some(Mapping::Swift)
    } else if typescript::serves(language) {
        Some(Mapping::TypeScript)
    } else {
        None
    }
}

/// The mapping for a grammar, or `None` when the language has none: its files are then
/// simply not indexed.
pub fn for_language(language: LanguageId) -> (r: Option<Mapping>)
    ensures
        r == mapping_for(language),
{
    match rust::language_id() {
        Some(r) => {
            if same_grammar(r, language) {
                return Some(Mapping::Rust);
            }
        },
        None => {},
    }
    match python::language_id() {
        Some(p) => {
            if same_grammar(p, language) {
                return Some(Mapping::Python);
            }
        },
        None => {},
    }
    match kotlin::language_id() {
        Some(k) => {
            if same_grammar(k, language) {
                return Some(Mapping::Kotlin);
            }
        },
        None => {},
    }
    match swift::language_id() {
        Some(w) => {
            if same_grammar(w, language) {
                return Some(Mapping::Swift);
            }
        },
        None => {},
    }
    if typescript::serves_language(language) {
        return Some(Mapping::TypeScript);
    }
    None
}

/// What a mapping reads a decoration as.
pub open spec fn decoration_of(m: Mapping, node: ParsedNode, s: Seq<char>) -> Option<AttrView> {
    match m {
        Mapping::Rust => rust::decoration_spec(node, s),
        Mapping::Python => python::decoration_spec(node, s),
        Mapping::Kotlin => None,
        Mapping::Swift => None,
        Mapping::TypeScript => None,
    }
}

/// What a mapping classifies a node as.
pub open spec fn classify_of(m: Mapping, node: ParsedNode, s: Seq<char>, container: Option<NodeKind>) -> Option<ClassifiedView> {
    match m {
        Mapping::Rust => rust::classify_spec(node, s, container),
        Mapping::Python => python::classify_spec(node, s, container),
        Mapping::Kotlin => kotlin::classify_spec(node, s, container),
        Mapping::Swift => swift::classify_spec(node, s, container),
        Mapping::TypeScript => typescript::classify_spec(node, s, container),
    }
}

/// The facets a mapping gives an entity.
pub open spec fn entity_facets_of(m: Mapping, node: ParsedNode, s: Seq<char>, container: Option<NodeKind>, attrs: Seq<AttrView>) -> Seq<FacetView> {
    match m {
        Mapping::Rust => rust::entity_spec(node, s, container, attrs),
        Mapping::Python => python::entity_spec(node, s, attrs, container),
        Mapping::Kotlin => kotlin::facets::entity_spec(node, s, container),
        Mapping::Swift => swift::facets::entity_spec(node, s, container),
        Mapping::TypeScript => typescript::facets::entity_spec(node, s, container),
    }
}

/// The facets a mapping has a non-entity contribute to the entity around it.
pub open spec fn interior_facets_of(m: Mapping, node: ParsedNode, s: Seq<char>) -> Seq<FacetView> {
    match m {
        Mapping::Rust => rust::interior_spec(node, s),
        Mapping::Python => python::interior_spec(node, s),
        Mapping::Kotlin => kotlin::facets::interior_spec(node, s),
        Mapping::Swift => swift::facets::interior_spec(node, s),
        Mapping::TypeScript => typescript::facets::interior_spec(node, s),
    }
}

/// The module a mapping says is declared here with its body in another file. Python's
/// modules never span files.
pub open spec fn external_module_of(m: Mapping, node: ParsedNode, s: Seq<char>) -> Option<Seq<char>> {
    match m {
        Mapping::Rust => rust::external_module_of(node, s),
        Mapping::Python => None,
        Mapping::Kotlin => None,
        Mapping::Swift => None,
        Mapping::TypeScript => None,
    }
}

/// Where a mapping says a node really belongs. Python names no owners: what a
/// construct belongs to is where it is written.
pub open spec fn owners_of(m: Mapping, node: ParsedNode, s: Seq<char>, attrs: Seq<AttrView>) -> Seq<rust::OwnerView> {
    match m {
        Mapping::Rust => rust::owners_spec(node, s, attrs),
        Mapping::Python => Seq::empty(),
        Mapping::Kotlin => kotlin::owners_spec(node, s),
        Mapping::Swift => swift::owners_spec(node, s),
        Mapping::TypeScript => typescript::owners_spec(node, s),
    }
}

impl Mapping {
    /// Read `node` as a decoration applying to the sibling that follows it.
    pub fn decoration(self, node: &ParsedNode, ctx: &FacetContext) -> (r: Option<Attribute>)
        requires
            ctx.source.wf(),
        ensures
            match r {
                Some(a) => decoration_of(self, *node, ctx.source.text()) == Some(attr_view(a)),
                None => decoration_of(self, *node, ctx.source.text()) is None,
            },
    {
        match self {
            Mapping::Rust => rust::decoration(node, ctx),
            Mapping::Python => python::decoration(node, ctx),
            Mapping::Kotlin => None,
            Mapping::Swift => None,
            Mapping::TypeScript => None,
        }
    }

    /// Map `node` onto a universal kind, or `None` when it is not an entity.
    pub fn classify(self, node: &ParsedNode, ctx: &FacetContext) -> (r: Option<Classified>)
        requires
            ctx.source.wf(),
        ensures
            match r {
                Some(c) => classify_of(self, *node, ctx.source.text(), ctx.container) == Some(classified_view(c)),
                None => classify_of(self, *node, ctx.source.text(), ctx.container) is None,
            },
    {
        match self {
            Mapping::Rust => rust::classify(node, ctx),
            Mapping::Python => python::classify(node, ctx),
            Mapping::Kotlin => kotlin::classify(node, ctx),
            Mapping::Swift => swift::classify(node, ctx),
            Mapping::TypeScript => typescript::classify(node, ctx),
        }
    }

    /// Push the facets an entity carries.
    pub fn entity_facets(self, node: &ParsedNode, ctx: &FacetContext, out: &mut Vec<Facet>)
        requires
            ctx.source.wf(),
            plain_facets(old(out)@),
        ensures
            plain_facets(final(out)@),
            facet_views(final(out)@) == facet_views(old(out)@)
                + entity_facets_of(self, *node, ctx.source.text(), ctx.container, attr_views(ctx.attributes@)),
    {
        match self {
            Mapping::Rust => rust::entity_facets(node, ctx, out),
            Mapping::Python => python::entity_facets(node, ctx, out),
            Mapping::Kotlin => kotlin::facets::entity_facets(node, ctx, out),
            Mapping::Swift => swift::facets::entity_facets(node, ctx, out),
            Mapping::TypeScript => typescript::facets::entity_facets(node, ctx, out),
        }
    }

    /// Push the facets a non-entity contributes to the entity around it.
    pub fn interior_facets(self, node: &ParsedNode, ctx: &FacetContext, out: &mut Vec<Facet>)
        requires
            ctx.source.wf(),
            plain_facets(old(out)@),
        ensures
            plain_facets(final(out)@),
            facet_views(final(out)@) == facet_views(old(out)@) + interior_facets_of(self, *node, ctx.source.text()),
    {
        match self {
            Mapping::Rust => rust::interior_facets(node, ctx, out),
            Mapping::Python => python::interior_facets(node, ctx, out),
            Mapping::Kotlin => kotlin::facets::interior_facets(node, ctx, out),
            Mapping::Swift => swift::facets::interior_facets(node, ctx, out),
            Mapping::TypeScript => typescript::facets::interior_facets(node, ctx, out),
        }
    }

    /// The module declared by `node` whose body lives in another file.
    pub fn external_module(self, node: &ParsedNode, ctx: &FacetContext) -> (r: Option<String>)
        requires
            ctx.source.wf(),
        ensures
            match r {
                Some(n) => external_module_of(self, *node, ctx.source.text()) == Some(n@),
                None => external_module_of(self, *node, ctx.source.text()) is None,
            },
    {
        match self {
            Mapping::Rust => rust::external_module(node, ctx),
            Mapping::Python => None,
            Mapping::Kotlin => None,
            Mapping::Swift => None,
            Mapping::TypeScript => None,
        }
    }

    /// Where `node` really belongs, most specific candidate first.
    pub fn ownership(self, node: &ParsedNode, ctx: &FacetContext) -> (r: Vec<crate::contribution::Owner>)
        requires
            ctx.source.wf(),
        ensures
            r@.map_values(|o: crate::contribution::Owner| rust::owner_view(o))
                == owners_of(self, *node, ctx.source.text(), attr_views(ctx.attributes@)),
    {
        match self {
            Mapping::Rust => rust::owners(node, ctx),
            Mapping::Python => {
                let r: Vec<crate::contribution::Owner> = Vec::new();
                assert(r@.map_values(|o: crate::contribution::Owner| rust::owner_view(o)) =~= Seq::<rust::OwnerView>::empty());
                r
            },
            Mapping::Kotlin => kotlin::owners(node, ctx),
            Mapping::Swift => swift::owners(node, ctx),
            Mapping::TypeScript => typescript::owners(node, ctx),
        }
    }

    /// Every facet subtype the mapping can emit, for query-term suggestions.
    pub fn subtypes(self) -> (r: Vec<(Lens, FacetSubtype)>)
        ensures
            table_view(r@) == match self {
                Mapping::Rust => rust_subtypes(),
                Mapping::Python => python_subtypes(),
                Mapping::Kotlin => kotlin_subtypes(),
                Mapping::Swift => swift_subtypes(),
                Mapping::TypeScript => typescript_subtypes(),
            },
    {
        match self {
            Mapping::Rust => rust::subtypes(),
            Mapping::Python => python::subtypes(),
            Mapping::Kotlin => kotlin_subtype_table(),
            Mapping::Swift => swift_subtype_table(),
            Mapping::TypeScript => typescript_subtype_table(),
        }
    }
}

// --- facets and classifications as values ------------------------------------------

/// A facet's lens, subtype, detail and sites.
pub type FacetView = (Lens, Seq<char>, Option<Seq<char>>, Seq<Range>);

/// What `f` holds, when it carries no effective reach.
pub open spec fn facet_view(f: Facet) -> FacetView {
    (f.lens, f.subtype.0@, match f.detail { Some(d) => Some(d@), None => None }, f.sites@)
}

/// What each of `fs` holds.
pub open spec fn facet_views(fs: Seq<Facet>) -> Seq<FacetView> {
    fs.map_values(|f: Facet| facet_view(f))
}

/// Whether none of `fs` carries an effective reach.
pub open spec fn plain_facets(fs: Seq<Facet>) -> bool {
    forall|i: int| 0 <= i < fs.len() ==> (#[trigger] fs[i]).effective is None
}

/// The range from byte `a` to byte `b` of `s`.
pub open spec fn span_range(s: Seq<char>, a: int, b: int) -> Range {
    Range { start: line_col_of(s, a), end: line_col_of(s, b) }
}

/// A facet with no detail and no sites.
pub open spec fn bare(lens: Lens, subtype: Seq<char>) -> FacetView {
    (lens, subtype, None, Seq::empty())
}

/// A facet with a detail and no sites.
pub open spec fn detailed(lens: Lens, subtype: Seq<char>, detail: Seq<char>) -> FacetView {
    (lens, subtype, Some(detail), Seq::empty())
}

/// Push a facet onto `out`.
pub(crate) fn emit(out: &mut Vec<Facet>, lens: Lens, subtype: &'static str, detail: Option<String>, sites: Vec<Range>)
    requires
        plain_facets(old(out)@),
    ensures
        plain_facets(final(out)@),
        facet_views(final(out)@) == facet_views(old(out)@).push(
            (lens, subtype@, match detail { Some(d) => Some(d@), None => None }, sites@),
        ),
{
    let f = Facet::new(lens, FacetSubtype(subtype));
    let f = match detail {
        Some(d) => f.with_detail(d),
        None => f,
    };
    let f = f.with_sites(sites);
    let ghost before = out@;
    out.push(f);
    assert(facet_views(out@) =~= facet_views(before).push(facet_view(f)));
}

/// The sites list holding just `r`.
pub(crate) fn one_site(r: Range) -> (v: Vec<Range>)
    ensures
        v@ == seq![r],
{
    let v = vec![r];
    assert(v@ =~= seq![r]);
    v
}

/// A decoration's name, arguments and range.
pub type AttrView = (Seq<char>, Option<Seq<char>>, Range);

/// What `a` holds.
pub open spec fn attr_view(a: Attribute) -> AttrView {
    (a.name@, match a.arguments { Some(x) => Some(x@), None => None }, a.range)
}

/// What each of `attrs` holds.
pub open spec fn attr_views(attrs: Seq<Attribute>) -> Seq<AttrView> {
    attrs.map_values(|a: Attribute| attr_view(a))
}

/// A classification's kind, name, segment, detail, selection and visibility.
pub type ClassifiedView = (NodeKind, Seq<char>, Seq<char>, Option<Seq<char>>, Range, Option<Visibility>);

/// What `c` holds.
pub open spec fn classified_view(c: Classified) -> ClassifiedView {
    (c.kind, c.name@, c.segment@, match c.detail { Some(d) => Some(d@), None => None }, c.selection, c.visibility)
}

/// `bases` joined with `, `.
pub open spec fn comma_joined(bases: Seq<Seq<char>>) -> Seq<char>
    decreases bases.len(),
{
    if bases.len() == 0 {
        Seq::empty()
    } else if bases.len() == 1 {
        bases[0]
    } else {
        bases[0] + ", "@ + comma_joined(bases.drop_first())
    }
}


/// `bases` joined with `, `.
pub(crate) fn join_bases(bases: &Vec<String>) -> (r: String)
    ensures
        r@ == comma_joined(texts(bases@)),
{
    let mut out = String::new();
    let n = bases.len();
    if n == 0 {
        return out;
    }
    let mut i: usize = n - 1;
    push_str(&mut out, bases[i].as_str());
    assert(texts(bases@).skip(i as int) =~= seq![bases@[i as int]@]);
    assert(out@ == comma_joined(texts(bases@).skip(i as int)));
    while i > 0
        invariant
            i < n == bases@.len(),
            out@ == comma_joined(texts(bases@).skip(i as int)),
        decreases i,
    {
        i = i - 1;
        let mut next = String::new();
        push_str(&mut next, bases[i].as_str());
        proof {
            reveal_strlit(", ");
        }
        push_str(&mut next, ", ");
        push_str(&mut next, out.as_str());
        proof {
            let t = texts(bases@).skip(i as int);
            assert(t[0] == bases@[i as int]@);
            assert(t.drop_first() =~= texts(bases@).skip(i + 1));
        }
        out = next;
    }
    assert(texts(bases@).skip(0) =~= texts(bases@));
    out
}

// --- words ----------------------------------------------------------------------------

/// The words of `s` from here on, each run of whitespace between two words made one
/// space: `pending` when a space is owed before the next word, `started` once a word
/// has been written.
pub open spec fn squeezed(s: Seq<char>, pending: bool, started: bool) -> Seq<char>
    decreases s.len(),
{
    if s.len() == 0 {
        Seq::empty()
    } else if unicode_whitespace(s[0]) {
        squeezed(s.drop_first(), started, started)
    } else {
        (if pending { seq![' '] } else { Seq::<char>::empty() }) + seq![s[0]] + squeezed(s.drop_first(), false, true)
    }
}

/// The words of `s` joined by single spaces: whitespace runs between words become one
/// space and none is kept at either end.
pub open spec fn joined_words(s: Seq<char>) -> Seq<char> {
    squeezed(s, false, false)
}

/// The words of `text` joined by single spaces.
pub fn words_joined(text: &str) -> (r: String)
    ensures
        r@ == joined_words(text@),
{
    let v = chars_of(text);
    let mut out: Vec<char> = Vec::new();
    let mut pending = false;
    let mut started = false;
    let mut i: usize = 0;
    assert(v@.skip(0) =~= v@);
    assert(out@ + squeezed(v@, false, false) =~= joined_words(text@));
    while i < v.len()
        invariant
            i <= v@.len(),
            v@ == text@,
            out@ + squeezed(v@.skip(i as int), pending, started) == joined_words(text@),
        decreases v.len() - i,
    {
        let c = v[i];
        let ghost rest = v@.skip(i as int);
        proof {
            assert(rest[0] == c);
            assert(rest.drop_first() =~= v@.skip(i + 1));
        }
        if is_whitespace(c) {
            pending = started;
        } else {
            let ghost before = out@;
            if pending {
                out.push(' ');
            }
            out.push(c);
            assert(out@ + squeezed(v@.skip(i + 1), false, true)
                =~= before + ((if pending { seq![' '] } else { Seq::<char>::empty() }) + seq![c] + squeezed(v@.skip(i + 1), false, true)));
            pending = false;
            started = true;
        }
        i = i + 1;
    }
    assert(v@.skip(i as int) =~= Seq::<char>::empty());
    assert(out@ + Seq::<char>::empty() =~= out@);
    crate::text::string_of(out.as_slice())
}

// --- declaration heads --------------------------------------------------------------

/// Whether every character of `s` is whitespace.
pub open spec fn all_whitespace(s: Seq<char>) -> bool {
    forall|i: int| 0 <= i < s.len() ==> unicode_whitespace(#[trigger] s[i])
}

/// Where a declaration head ends when its body opens a line of its own: the byte offset
/// of the line ending just above the body. Offsets are bytes of `text`; `None` when
/// either is not a character boundary, when `start` follows `body`, when the body
/// shares a line with the signature or sits on the construct's first line, or when
/// something other than whitespace precedes it on its line.
pub open spec fn line_opening_body_of(text: Seq<char>, start: int, body: int) -> Option<int> {
    match (char_at_byte(text, start), char_at_byte(text, body)) {
        (Some(a), Some(b)) => if a <= b {
            let k = last_of(text.subrange(a, b), '\n');
            if k < 0 {
                None
            } else if !all_whitespace(text.subrange(a + k + 1, b)) {
                None
            } else if byte_at(text, a + k) > start {
                Some(byte_at(text, a + k))
            } else {
                None
            }
        } else {
            None
        },
        _ => None,
    }
}

/// The end of the line above `body`, when `body` opens a line of its own.
///
/// Grammars disagree about where a body begins and readers do not: Rust's body is the
/// `{` closing the signature's line, Python's the first statement a line below the `:`.
/// So a body with nothing but whitespace before it on its line cuts the head at the end
/// of the line above instead.
pub fn line_opening_body(text: &str, start: usize, body: usize) -> (r: Option<usize>)
    requires
        text@.len() < usize::MAX / 4,
    ensures
        match r {
            Some(n) => line_opening_body_of(text@, start as int, body as int) == Some(n as int),
            None => line_opening_body_of(text@, start as int, body as int) is None,
        },
{
    let src = Source::new(text);
    src.opening_line_end(start, body)
}

// --- type-name heads ------------------------------------------------------------------

/// Whether `head` is one bare identifier: a letter or `_`, then letters, digits and `_`.
pub open spec fn is_identifier(head: Seq<char>) -> bool {
    &&& head.len() > 0
    &&& unicode_alphabetic(head[0]) || head[0] == '_'
    &&& forall|i: int| 1 <= i < head.len() ==> unicode_alphanumeric(#[trigger] head[i]) || head[i] == '_'
}

/// `s` up to its first character that is one of `stops`, or all of it.
pub open spec fn cut_at(s: Seq<char>, stops: Seq<char>) -> Seq<char>
    decreases s.len(),
{
    if s.len() == 0 || stops.contains(s[0]) {
        Seq::empty()
    } else {
        seq![s[0]] + cut_at(s.drop_first(), stops)
    }
}

/// What [`cut_at`] keeps is a prefix of `s`, ending where a stop character begins.
pub proof fn lemma_cut_prefix(s: Seq<char>, stops: Seq<char>)
    ensures
        cut_at(s, stops).len() <= s.len(),
        cut_at(s, stops) == s.take(cut_at(s, stops).len() as int),
        cut_at(s, stops).len() < s.len() ==> stops.contains(s[cut_at(s, stops).len() as int]),
    decreases s.len(),
{
    if s.len() > 0 && !stops.contains(s[0]) {
        lemma_cut_prefix(s.drop_first(), stops);
        let c = cut_at(s.drop_first(), stops);
        assert(cut_at(s, stops) == seq![s[0]] + c);
        assert(seq![s[0]] + s.drop_first().take(c.len() as int) =~= s.take(c.len() as int + 1));
    } else {
        assert(s.take(0) =~= Seq::<char>::empty());
    }
}

/// What follows the last `c` in `s`, or all of `s` when it holds none.
pub open spec fn after_last(s: Seq<char>, c: char) -> Seq<char> {
    s.skip(last_of(s, c) + 1)
}

/// `v` without whitespace at either end.
pub fn trimmed(v: &Vec<char>) -> (r: Vec<char>)
    ensures
        r@ == trim(v@),
{
    let s = skip_ws_at(v, 0);
    assert(from(v@, 0) =~= v@);
    let e = trim_end_to(v, s, v.len());
    slice_range(v, s, e)
}

/// `v` up to its first character that is one of `stops`.
pub fn cut(v: &Vec<char>, stops: &[char]) -> (r: Vec<char>)
    ensures
        r@ == cut_at(v@, stops@),
{
    let mut i: usize = 0;
    assert(v@.skip(0) =~= v@);
    assert(v@.subrange(0, 0) + cut_at(v@, stops@) =~= cut_at(v@, stops@));
    while i < v.len()
        invariant
            i <= v@.len(),
            cut_at(v@, stops@) == v@.subrange(0, i as int) + cut_at(v@.skip(i as int), stops@),
            forall|k: int| 0 <= k < i ==> !stops@.contains(#[trigger] v@[k]),
        decreases v.len() - i,
    {
        let c = v[i];
        let mut stop = false;
        let mut j: usize = 0;
        while j < stops.len()
            invariant
                j <= stops@.len(),
                stop == exists|k: int| 0 <= k < j && stops@[k] == c,
            decreases stops.len() - j,
        {
            if stops[j] == c {
                stop = true;
            }
            j = j + 1;
        }
        assert(stop == stops@.contains(c));
        assert(v@.skip(i as int)[0] == c);
        if stop {
            assert(cut_at(v@.skip(i as int), stops@) =~= Seq::<char>::empty());
            assert(v@.subrange(0, i as int) + Seq::<char>::empty() =~= v@.subrange(0, i as int));
            return slice_range(v, 0, i);
        }
        assert(v@.skip(i as int).drop_first() =~= v@.skip(i + 1));
        assert(v@.subrange(0, i as int) + seq![c] =~= v@.subrange(0, i + 1));
        i = i + 1;
    }
    assert(v@.skip(i as int) =~= Seq::<char>::empty());
    assert(v@.subrange(0, i as int) =~= v@);
    slice_range(v, 0, v.len())
}

/// What follows the last `c` in `v`.
pub fn after_last_char(v: &Vec<char>, c: char) -> (r: Vec<char>)
    ensures
        r@ == after_last(v@, c),
{
    let mut i: usize = v.len();
    assert(v@.take(i as int) =~= v@);
    while i > 0
        invariant
            i <= v@.len(),
            last_of(v@, c) == last_of(v@.take(i as int), c),
        decreases i,
    {
        let ghost t = v@.take(i as int);
        assert(t.last() == v@[i - 1]);
        assert(t.drop_last() =~= v@.take(i - 1));
        if v[i - 1] == c {
            return slice_range(v, i, v.len());
        }
        i = i - 1;
    }
    assert(v@.skip(0) =~= v@);
    slice_range(v, 0, v.len())
}

/// `v` from position `n` on, past any whitespace there.
pub fn skip_then_ws(v: &Vec<char>, n: usize) -> (r: Vec<char>)
    requires
        n <= v@.len(),
    ensures
        r@ == skip_ws(v@.skip(n as int)),
{
    let p = skip_ws_at(v, n);
    assert(from(v@, n as int) =~= v@.skip(n as int));
    slice_range(v, p, v.len())
}

/// Whether `v` begins with `prefix`.
pub fn begins(v: &Vec<char>, prefix: &Vec<char>) -> (r: bool)
    ensures
        r == has_prefix(v@, prefix@),
{
    let r = starts_at(v.as_slice(), 0, prefix.as_slice());
    assert(v@.subrange(0, v@.len() as int) =~= v@);
    r
}

/// Whether `v` is one bare identifier.
pub fn identifier(v: &Vec<char>) -> (r: bool)
    ensures
        r == is_identifier(v@),
{
    if v.len() == 0 {
        return false;
    }
    if !(is_alphabetic(v[0]) || v[0] == '_') {
        return false;
    }
    let mut i: usize = 1;
    while i < v.len()
        invariant
            1 <= i <= v@.len(),
            forall|k: int| 1 <= k < i ==> unicode_alphanumeric(#[trigger] v@[k]) || v@[k] == '_',
        decreases v.len() - i,
    {
        if !(is_alphanumeric(v[i]) || v[i] == '_') {
            return false;
        }
        i = i + 1;
    }
    true
}

/// A subtype table read as lens and subtype text.
pub open spec fn table_view(t: Seq<(Lens, FacetSubtype)>) -> Seq<(Lens, Seq<char>)> {
    t.map_values(|e: (Lens, FacetSubtype)| (e.0, e.1.0@))
}

/// Every facet subtype the Rust mapping can emit.
pub open spec fn rust_subtypes() -> Seq<(Lens, Seq<char>)> {
    seq![
        (Lens::Api, "pub"@),
        (Lens::Api, "crate"@),
        (Lens::Api, "super"@),
        (Lens::Api, "in"@),
        (Lens::Api, "private"@),
        (Lens::Api, "reexport"@),
        (Lens::Substitution, "trait"@),
        (Lens::Substitution, "impl"@),
        (Lens::Substitution, "blanket-impl"@),
        (Lens::Substitution, "default-method"@),
        (Lens::Substitution, "dyn"@),
        (Lens::Substitution, "impl-trait"@),
        (Lens::Substitution, "generic-bound"@),
        (Lens::Substitution, "assoc-type"@),
        (Lens::Substitution, "fn-ptr"@),
        (Lens::Substitution, "boxed-closure"@),
        (Lens::Variation, "cfg"@),
        (Lens::Variation, "cfg-attr"@),
        (Lens::Variation, "feature"@),
        (Lens::Variation, "macro-def"@),
        (Lens::Variation, "macro-rules"@),
        (Lens::Variation, "proc-macro"@),
        (Lens::Variation, "macro-call"@),
        (Lens::Variation, "derive"@),
        (Lens::Variation, "attr-macro"@),
        (Lens::Variation, "build-script"@),
        (Lens::Variation, "include"@),
        (Lens::Boundary, "extern-block"@),
        (Lens::Boundary, "extern-fn"@),
        (Lens::Boundary, "no-mangle"@),
        (Lens::Boundary, "export-name"@),
        (Lens::Boundary, "link"@),
        (Lens::Boundary, "link-name"@),
        (Lens::Boundary, "entry-point"@),
        (Lens::Boundary, "external-crate-use"@),
        (Lens::Hazard, "unsafe"@),
        (Lens::Hazard, "async"@),
        (Lens::Hazard, "await"@),
        (Lens::Hazard, "send-bound"@),
        (Lens::Hazard, "sync-bound"@),
    ]
}

/// Every facet subtype the Rust mapping can emit, in declaration order.
pub fn rust_subtype_table() -> (r: Vec<(Lens, FacetSubtype)>)
    ensures
        table_view(r@) == rust_subtypes(),
{
    let r = vec![
        (Lens::Api, FacetSubtype("pub")),
        (Lens::Api, FacetSubtype("crate")),
        (Lens::Api, FacetSubtype("super")),
        (Lens::Api, FacetSubtype("in")),
        (Lens::Api, FacetSubtype("private")),
        (Lens::Api, FacetSubtype("reexport")),
        (Lens::Substitution, FacetSubtype("trait")),
        (Lens::Substitution, FacetSubtype("impl")),
        (Lens::Substitution, FacetSubtype("blanket-impl")),
        (Lens::Substitution, FacetSubtype("default-method")),
        (Lens::Substitution, FacetSubtype("dyn")),
        (Lens::Substitution, FacetSubtype("impl-trait")),
        (Lens::Substitution, FacetSubtype("generic-bound")),
        (Lens::Substitution, FacetSubtype("assoc-type")),
        (Lens::Substitution, FacetSubtype("fn-ptr")),
        (Lens::Substitution, FacetSubtype("boxed-closure")),
        (Lens::Variation, FacetSubtype("cfg")),
        (Lens::Variation, FacetSubtype("cfg-attr")),
        (Lens::Variation, FacetSubtype("feature")),
        (Lens::Variation, FacetSubtype("macro-def")),
        (Lens::Variation, FacetSubtype("macro-rules")),
        (Lens::Variation, FacetSubtype("proc-macro")),
        (Lens::Variation, FacetSubtype("macro-call")),
        (Lens::Variation, FacetSubtype("derive")),
        (Lens::Variation, FacetSubtype("attr-macro")),
        (Lens::Variation, FacetSubtype("build-script")),
        (Lens::Variation, FacetSubtype("include")),
        (Lens::Boundary, FacetSubtype("extern-block")),
        (Lens::Boundary, FacetSubtype("extern-fn")),
        (Lens::Boundary, FacetSubtype("no-mangle")),
        (Lens::Boundary, FacetSubtype("export-name")),
        (Lens::Boundary, FacetSubtype("link")),
        (Lens::Boundary, FacetSubtype("link-name")),
        (Lens::Boundary, FacetSubtype("entry-point")),
        (Lens::Boundary, FacetSubtype("external-crate-use")),
        (Lens::Hazard, FacetSubtype("unsafe")),
        (Lens::Hazard, FacetSubtype("async")),
        (Lens::Hazard, FacetSubtype("await")),
        (Lens::Hazard, FacetSubtype("send-bound")),
        (Lens::Hazard, FacetSubtype("sync-bound")),
    ];
    assert(table_view(r@) =~= rust_subtypes());
    r
}

/// Every facet subtype the Python mapping can emit.
pub open spec fn python_subtypes() -> Seq<(Lens, Seq<char>)> {
    seq![
        (Lens::Api, "public"@),
        (Lens::Api, "private"@),
        (Lens::Api, "dunder"@),
        (Lens::Api, "all-export"@),
        (Lens::Api, "reexport"@),
        (Lens::Substitution, "protocol"@),
        (Lens::Substitution, "abstract"@),
        (Lens::Substitution, "subclass"@),
        (Lens::Substitution, "default-method"@),
        (Lens::Substitution, "callable"@),
        (Lens::Substitution, "overload"@),
        (Lens::Variation, "type-checking"@),
        (Lens::Variation, "platform-branch"@),
        (Lens::Variation, "decorator"@),
        (Lens::Variation, "conditional-import"@),
        (Lens::Boundary, "foreign-binding"@),
        (Lens::Boundary, "external-import"@),
        (Lens::Boundary, "entry-point"@),
        (Lens::Hazard, "async"@),
        (Lens::Hazard, "await"@),
        (Lens::Hazard, "global"@),
        (Lens::Hazard, "nonlocal"@),
    ]
}

/// Every facet subtype the Python mapping can emit, in declaration order.
pub fn python_subtype_table() -> (r: Vec<(Lens, FacetSubtype)>)
    ensures
        table_view(r@) == python_subtypes(),
{
    let r = vec![
        (Lens::Api, FacetSubtype("public")),
        (Lens::Api, FacetSubtype("private")),
        (Lens::Api, FacetSubtype("dunder")),
        (Lens::Api, FacetSubtype("all-export")),
        (Lens::Api, FacetSubtype("reexport")),
        (Lens::Substitution, FacetSubtype("protocol")),
        (Lens::Substitution, FacetSubtype("abstract")),
        (Lens::Substitution, FacetSubtype("subclass")),
        (Lens::Substitution, FacetSubtype("default-method")),
        (Lens::Substitution, FacetSubtype("callable")),
        (Lens::Substitution, FacetSubtype("overload")),
        (Lens::Variation, FacetSubtype("type-checking")),
        (Lens::Variation, FacetSubtype("platform-branch")),
        (Lens::Variation, FacetSubtype("decorator")),
        (Lens::Variation, FacetSubtype("conditional-import")),
        (Lens::Boundary, FacetSubtype("foreign-binding")),
        (Lens::Boundary, FacetSubtype("external-import")),
        (Lens::Boundary, FacetSubtype("entry-point")),
        (Lens::Hazard, FacetSubtype("async")),
        (Lens::Hazard, FacetSubtype("await")),
        (Lens::Hazard, FacetSubtype("global")),
        (Lens::Hazard, FacetSubtype("nonlocal")),
    ];
    assert(table_view(r@) =~= python_subtypes());
    r
}

/// Every facet subtype the TypeScript and JavaScript mapping can emit.
pub open spec fn typescript_subtypes() -> Seq<(Lens, Seq<char>)> {
    seq![
        (Lens::Api, "export"@),
        (Lens::Api, "default-export"@),
        (Lens::Api, "module-local"@),
        (Lens::Api, "private"@),
        (Lens::Api, "protected"@),
        (Lens::Api, "ambient"@),
        (Lens::Substitution, "interface"@),
        (Lens::Substitution, "abstract"@),
        (Lens::Substitution, "implements"@),
        (Lens::Substitution, "extends"@),
        (Lens::Substitution, "signature"@),
        (Lens::Substitution, "optional"@),
        (Lens::Substitution, "callable"@),
        (Lens::Substitution, "generic-bound"@),
        (Lens::Variation, "decorator"@),
        (Lens::Variation, "conditional-type"@),
        (Lens::Variation, "dynamic-import"@),
        (Lens::Variation, "environment-branch"@),
        (Lens::Boundary, "external-import"@),
        (Lens::Boundary, "ambient-module"@),
        (Lens::Boundary, "global"@),
        (Lens::Hazard, "async"@),
        (Lens::Hazard, "await"@),
        (Lens::Hazard, "any-cast"@),
        (Lens::Hazard, "non-null"@),
        (Lens::Hazard, "suppressed"@),
        (Lens::Hazard, "runtime-eval"@),
    ]
}

/// Every facet subtype the TypeScript and JavaScript mapping can emit, in declaration order.
pub fn typescript_subtype_table() -> (r: Vec<(Lens, FacetSubtype)>)
    ensures
        table_view(r@) == typescript_subtypes(),
{
    let r = vec![
        (Lens::Api, FacetSubtype("export")),
        (Lens::Api, FacetSubtype("default-export")),
        (Lens::Api, FacetSubtype("module-local")),
        (Lens::Api, FacetSubtype("private")),
        (Lens::Api, FacetSubtype("protected")),
        (Lens::Api, FacetSubtype("ambient")),
        (Lens::Substitution, FacetSubtype("interface")),
        (Lens::Substitution, FacetSubtype("abstract")),
        (Lens::Substitution, FacetSubtype("implements")),
        (Lens::Substitution, FacetSubtype("extends")),
        (Lens::Substitution, FacetSubtype("signature")),
        (Lens::Substitution, FacetSubtype("optional")),
        (Lens::Substitution, FacetSubtype("callable")),
        (Lens::Substitution, FacetSubtype("generic-bound")),
        (Lens::Variation, FacetSubtype("decorator")),
        (Lens::Variation, FacetSubtype("conditional-type")),
        (Lens::Variation, FacetSubtype("dynamic-import")),
        (Lens::Variation, FacetSubtype("environment-branch")),
        (Lens::Boundary, FacetSubtype("external-import")),
        (Lens::Boundary, FacetSubtype("ambient-module")),
        (Lens::Boundary, FacetSubtype("global")),
        (Lens::Hazard, FacetSubtype("async")),
        (Lens::Hazard, FacetSubtype("await")),
        (Lens::Hazard, FacetSubtype("any-cast")),
        (Lens::Hazard, FacetSubtype("non-null")),
        (Lens::Hazard, FacetSubtype("suppressed")),
        (Lens::Hazard, FacetSubtype("runtime-eval")),
    ];
    assert(table_view(r@) =~= typescript_subtypes());
    r
}

/// Every facet subtype the Swift mapping can emit.
pub open spec fn swift_subtypes() -> Seq<(Lens, Seq<char>)> {
    seq![
        (Lens::Api, "open"@),
        (Lens::Api, "public"@),
        (Lens::Api, "internal"@),
        (Lens::Api, "fileprivate"@),
        (Lens::Api, "private"@),
        (Lens::Substitution, "protocol"@),
        (Lens::Substitution, "extension"@),
        (Lens::Substitution, "conformance"@),
        (Lens::Substitution, "assoc-type"@),
        (Lens::Substitution, "opaque-type"@),
        (Lens::Substitution, "existential"@),
        (Lens::Substitution, "protocol-default"@),
        (Lens::Substitution, "requirement"@),
        (Lens::Substitution, "override"@),
        (Lens::Variation, "compilation-condition"@),
        (Lens::Variation, "availability"@),
        (Lens::Variation, "property-wrapper"@),
        (Lens::Variation, "attribute"@),
        (Lens::Boundary, "c-entry"@),
        (Lens::Boundary, "objc"@),
        (Lens::Boundary, "silgen-name"@),
        (Lens::Boundary, "entry-point"@),
        (Lens::Boundary, "module-import"@),
        (Lens::Hazard, "async"@),
        (Lens::Hazard, "await"@),
        (Lens::Hazard, "throwing"@),
        (Lens::Hazard, "forced"@),
        (Lens::Hazard, "unsafe-pointer"@),
        (Lens::Hazard, "unchecked"@),
    ]
}

/// Every facet subtype the Swift mapping can emit, in declaration order.
pub fn swift_subtype_table() -> (r: Vec<(Lens, FacetSubtype)>)
    ensures
        table_view(r@) == swift_subtypes(),
{
    let r = vec![
        (Lens::Api, FacetSubtype("open")),
        (Lens::Api, FacetSubtype("public")),
        (Lens::Api, FacetSubtype("internal")),
        (Lens::Api, FacetSubtype("fileprivate")),
        (Lens::Api, FacetSubtype("private")),
        (Lens::Substitution, FacetSubtype("protocol")),
        (Lens::Substitution, FacetSubtype("extension")),
        (Lens::Substitution, FacetSubtype("conformance")),
        (Lens::Substitution, FacetSubtype("assoc-type")),
        (Lens::Substitution, FacetSubtype("opaque-type")),
        (Lens::Substitution, FacetSubtype("existential")),
        (Lens::Substitution, FacetSubtype("protocol-default")),
        (Lens::Substitution, FacetSubtype("requirement")),
        (Lens::Substitution, FacetSubtype("override")),
        (Lens::Variation, FacetSubtype("compilation-condition")),
        (Lens::Variation, FacetSubtype("availability")),
        (Lens::Variation, FacetSubtype("property-wrapper")),
        (Lens::Variation, FacetSubtype("attribute")),
        (Lens::Boundary, FacetSubtype("c-entry")),
        (Lens::Boundary, FacetSubtype("objc")),
        (Lens::Boundary, FacetSubtype("silgen-name")),
        (Lens::Boundary, FacetSubtype("entry-point")),
        (Lens::Boundary, FacetSubtype("module-import")),
        (Lens::Hazard, FacetSubtype("async")),
        (Lens::Hazard, FacetSubtype("await")),
        (Lens::Hazard, FacetSubtype("throwing")),
        (Lens::Hazard, FacetSubtype("forced")),
        (Lens::Hazard, FacetSubtype("unsafe-pointer")),
        (Lens::Hazard, FacetSubtype("unchecked")),
    ];
    assert(table_view(r@) =~= swift_subtypes());
    r
}

/// Every facet subtype the Kotlin mapping can emit.
pub open spec fn kotlin_subtypes() -> Seq<(Lens, Seq<char>)> {
    seq![
        (Lens::Api, "public"@),
        (Lens::Api, "internal"@),
        (Lens::Api, "protected"@),
        (Lens::Api, "private"@),
        (Lens::Substitution, "interface"@),
        (Lens::Substitution, "abstract"@),
        (Lens::Substitution, "open"@),
        (Lens::Substitution, "sealed"@),
        (Lens::Substitution, "override"@),
        (Lens::Substitution, "delegation"@),
        (Lens::Substitution, "object"@),
        (Lens::Substitution, "extension"@),
        (Lens::Variation, "annotation"@),
        (Lens::Variation, "expect-actual"@),
        (Lens::Variation, "inline"@),
        (Lens::Variation, "reified"@),
        (Lens::Boundary, "external-fn"@),
        (Lens::Boundary, "jvm-surface"@),
        (Lens::Boundary, "entry-point"@),
        (Lens::Boundary, "external-import"@),
        (Lens::Hazard, "suspend"@),
        (Lens::Hazard, "forced"@),
        (Lens::Hazard, "lateinit"@),
        (Lens::Hazard, "volatile"@),
    ]
}

/// Every facet subtype the Kotlin mapping can emit, in declaration order.
pub fn kotlin_subtype_table() -> (r: Vec<(Lens, FacetSubtype)>)
    ensures
        table_view(r@) == kotlin_subtypes(),
{
    let r = vec![
        (Lens::Api, FacetSubtype("public")),
        (Lens::Api, FacetSubtype("internal")),
        (Lens::Api, FacetSubtype("protected")),
        (Lens::Api, FacetSubtype("private")),
        (Lens::Substitution, FacetSubtype("interface")),
        (Lens::Substitution, FacetSubtype("abstract")),
        (Lens::Substitution, FacetSubtype("open")),
        (Lens::Substitution, FacetSubtype("sealed")),
        (Lens::Substitution, FacetSubtype("override")),
        (Lens::Substitution, FacetSubtype("delegation")),
        (Lens::Substitution, FacetSubtype("object")),
        (Lens::Substitution, FacetSubtype("extension")),
        (Lens::Variation, FacetSubtype("annotation")),
        (Lens::Variation, FacetSubtype("expect-actual")),
        (Lens::Variation, FacetSubtype("inline")),
        (Lens::Variation, FacetSubtype("reified")),
        (Lens::Boundary, FacetSubtype("external-fn")),
        (Lens::Boundary, FacetSubtype("jvm-surface")),
        (Lens::Boundary, FacetSubtype("entry-point")),
        (Lens::Boundary, FacetSubtype("external-import")),
        (Lens::Hazard, FacetSubtype("suspend")),
        (Lens::Hazard, FacetSubtype("forced")),
        (Lens::Hazard, FacetSubtype("lateinit")),
        (Lens::Hazard, FacetSubtype("volatile")),
    ];
    assert(table_view(r@) =~= kotlin_subtypes());
    r
}

} // verus!
