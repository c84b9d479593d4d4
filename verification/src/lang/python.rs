//! The Python mapping: which constructs become entities, and what each lens sees.
//!
//! Python shares almost nothing with Rust structurally — no visibility keyword, no
//! `cfg`, no module-per-file rule — and the lens vocabulary survives it unchanged. Where
//! Rust states a fact Python states a convention, and the mapping says so: a leading
//! underscore is privacy by agreement, so it maps to private with the convention named
//! in the facet's detail.

use vstd::prelude::*;
use crate::config::predicate::first_index;
use crate::config::predicate::trim;
use crate::coord::Range;
use crate::id::slice_range;
use crate::lang::after_last;
use crate::lang::after_last_char;
use crate::lang::cut;
use crate::lang::cut_at;
use crate::lang::trimmed;
use crate::lang::Attribute;
use crate::lang::AttrView;
use crate::lang::attr_view;
use crate::lang::attr_views;
use crate::lang::FacetView;
use crate::lang::facet_view;
use crate::lang::facet_views;
use crate::lang::plain_facets;
use crate::lang::span_range;
use crate::lang::bare;
use crate::lang::detailed;
use crate::lang::emit;
use crate::lang::comma_joined;
use crate::lang::join_bases;
use crate::lang::ClassifiedView;
use crate::lang::classified_view;
use crate::lang::Classified;
use crate::lang::FacetContext;
use crate::model::Facet;
use crate::model::FacetSubtype;
use crate::model::Lens;
use crate::model::NodeKind;
use crate::model::Visibility;
use crate::query::texts;
use crate::syntax::child_by_field;
use crate::syntax::child_text;
use crate::syntax::child_text_of;
use crate::syntax::field_child;
use crate::syntax::first_of_kind;
use crate::syntax::has_child_kind;
use crate::syntax::has_kind;
use crate::syntax::line_col_of;
use crate::syntax::text_slice;
use crate::syntax::ParsedNode;
use crate::text::chars_of;
use crate::text::contains_seq;
use crate::text::has_prefix;
use crate::text::has_suffix;
use crate::text::push_str;
use crate::text::str_contains;
use crate::text::str_ends_with;
use crate::text::str_eq;
use crate::text::str_starts_with;
use crate::text::string_of;
use crate::text::unicode_alphabetic;
use crate::text::unicode_alphanumeric;
use crate::text::is_alphabetic;
use crate::text::is_alphanumeric;

verus! {

/// The visibility Python's naming convention gives `name`: a dunder is public protocol
/// despite its underscores, any other leading underscore asks callers to stay out, and
/// everything else is public.
pub open spec fn visibility_of_name(name: Seq<char>) -> Visibility {
    if has_prefix(name, seq!['_', '_']) && has_suffix(name, seq!['_', '_']) {
        Visibility::Public
    } else if has_prefix(name, seq!['_']) {
        Visibility::Private
    } else {
        Visibility::Public
    }
}

/// Python's visibility for `name`, which is a convention rather than a rule.
pub fn visibility_of(name: &str) -> (r: Visibility)
    ensures
        r == visibility_of_name(name@),
{
    proof {
        reveal_strlit("__");
        reveal_strlit("_");
        assert("__"@ =~= seq!['_', '_']);
        assert("_"@ =~= seq!['_']);
    }
    if str_starts_with(name, "__") && str_ends_with(name, "__") {
        return Visibility::Public;
    }
    if str_starts_with(name, "_") {
        return Visibility::Private;
    }
    Visibility::Public
}

/// The grammar id for Python, when the grammar is compiled in.
pub fn language_id() -> (r: Option<karet_treesitter::LanguageId>)
    ensures
        r == crate::lang::injection_grammar("python"@),
{
    crate::lang::grammar_named("python")
}

/// Whether a node of this kind can contain entities.
pub fn is_container(kind: &str) -> (r: bool)
    ensures
        r == (kind@ == "module"@ || kind@ == "class_definition"@ || kind@ == "function_definition"@),
{
    str_eq(kind, "module") || str_eq(kind, "class_definition") || str_eq(kind, "function_definition")
}

// --- facets as values -----------------------------------------------------------------

// --- api ------------------------------------------------------------------------------

/// The `api` facet a name's shape implies.
pub open spec fn api_spec(name: Seq<char>) -> Seq<FacetView> {
    if name.len() == 0 {
        Seq::empty()
    } else if has_prefix(name, seq!['_', '_']) && has_suffix(name, seq!['_', '_']) {
        seq![detailed(Lens::Api, "dunder"@, "special method — public protocol"@)]
    } else if has_prefix(name, seq!['_']) {
        seq![detailed(Lens::Api, "private"@, "leading underscore — private by convention, not enforced"@)]
    } else {
        seq![bare(Lens::Api, "public"@)]
    }
}

fn api_facets(name: &str, out: &mut Vec<Facet>)
    requires
        plain_facets(old(out)@),
    ensures
        plain_facets(final(out)@),
        facet_views(final(out)@) == facet_views(old(out)@) + api_spec(name@),
{
    let ghost before = facet_views(out@);
    proof {
        reveal_strlit("__");
        reveal_strlit("_");
        assert("__"@ =~= seq!['_', '_']);
        assert("_"@ =~= seq!['_']);
    }
    if name.unicode_len() == 0 {
        assert(before + Seq::<FacetView>::empty() =~= before);
        return;
    }
    if str_starts_with(name, "__") && str_ends_with(name, "__") {
        emit(out, Lens::Api, "dunder", Some("special method — public protocol".to_string()), Vec::new());
    } else if str_starts_with(name, "_") {
        emit(out, Lens::Api, "private", Some("leading underscore — private by convention, not enforced".to_string()), Vec::new());
    } else {
        emit(out, Lens::Api, "public", None, Vec::new());
    }
    assert(facet_views(out@) =~= before + api_spec(name@));
}

// --- decorators -----------------------------------------------------------------------

/// The facets one decorator contributes: a variation facet at its site, and a
/// substitution facet when it is `abstractmethod`, `abstractproperty` or `overload`
/// (read after its last `.`).
pub open spec fn decorator_one(a: AttrView) -> Seq<FacetView> {
    let base = seq![(Lens::Variation, "decorator"@, Some(a.0), seq![a.2])];
    let last = after_last(a.0, '.');
    if last == "abstractmethod"@ || last == "abstractproperty"@ {
        base.push(detailed(Lens::Substitution, "abstract"@, a.0))
    } else if last == "overload"@ {
        base.push(bare(Lens::Substitution, "overload"@))
    } else {
        base
    }
}

/// The facets every decorator contributes, in order.
pub open spec fn decorator_spec(attrs: Seq<AttrView>) -> Seq<FacetView>
    decreases attrs.len(),
{
    if attrs.len() == 0 {
        Seq::empty()
    } else {
        decorator_spec(attrs.drop_last()) + decorator_one(attrs.last())
    }
}

fn decorator_facets(attributes: &[Attribute], out: &mut Vec<Facet>)
    requires
        plain_facets(old(out)@),
    ensures
        plain_facets(final(out)@),
        facet_views(final(out)@) == facet_views(old(out)@) + decorator_spec(attr_views(attributes@)),
{
    let ghost before = facet_views(out@);
    let mut i: usize = 0;
    assert(attr_views(attributes@).take(0) =~= Seq::<AttrView>::empty());
    assert(before + Seq::<FacetView>::empty() =~= before);
    while i < attributes.len()
        invariant
            i <= attributes@.len(),
            plain_facets(out@),
            facet_views(out@) == before + decorator_spec(attr_views(attributes@).take(i as int)),
        decreases attributes.len() - i,
    {
        let a = &attributes[i];
        let ghost mid = facet_views(out@);
        let sites = vec![a.range];
        assert(sites@ =~= seq![a.range]);
        emit(out, Lens::Variation, "decorator", Some(a.name.clone()), sites);
        let ghost mid2 = facet_views(out@);
        let name_chars = chars_of(a.name.as_str());
        let last = after_last_char(&name_chars, '.');
        let last_s = string_of(last.as_slice());
        proof {
            reveal_strlit("abstractmethod");
            reveal_strlit("abstractproperty");
            reveal_strlit("overload");
        }
        let ghost av = attr_view(attributes@[i as int]);
        assert(av.0 == a.name@ && av.2 == a.range);
        assert(mid2 == mid + seq![(Lens::Variation, "decorator"@, Some(av.0), seq![av.2])]);
        if str_eq(last_s.as_str(), "abstractmethod") || str_eq(last_s.as_str(), "abstractproperty") {
            emit(out, Lens::Substitution, "abstract", Some(a.name.clone()), Vec::new());
            assert(facet_views(out@) =~= mid2.push(detailed(Lens::Substitution, "abstract"@, av.0)));
        } else if str_eq(last_s.as_str(), "overload") {
            emit(out, Lens::Substitution, "overload", None, Vec::new());
            assert(facet_views(out@) =~= mid2.push(bare(Lens::Substitution, "overload"@)));
        }
        proof {
            let t = attr_views(attributes@).take(i + 1);
            assert(t.drop_last() =~= attr_views(attributes@).take(i as int));
            assert(t.last() == attr_view(attributes@[i as int]));
            assert(facet_views(out@) =~= mid + decorator_one(attr_view(attributes@[i as int])));
        }
        i = i + 1;
    }
    assert(attr_views(attributes@).take(i as int) =~= attr_views(attributes@));
}

// --- classes --------------------------------------------------------------------------

/// `s` without its leading and trailing `(` and `)`.
pub open spec fn strip_parens(s: Seq<char>) -> Seq<char> {
    strip_tail_parens(strip_lead_parens(s))
}

/// `s` without its leading `(` and `)`.
pub open spec fn strip_lead_parens(s: Seq<char>) -> Seq<char>
    decreases s.len(),
{
    if s.len() > 0 && (s[0] == '(' || s[0] == ')') {
        strip_lead_parens(s.drop_first())
    } else {
        s
    }
}

/// `s` without its trailing `(` and `)`.
pub open spec fn strip_tail_parens(s: Seq<char>) -> Seq<char>
    decreases s.len(),
{
    if s.len() > 0 && (s.last() == '(' || s.last() == ')') {
        strip_tail_parens(s.drop_last())
    } else {
        s
    }
}

/// `s` split at every `sep`, as `str::split` does.
pub open spec fn pieces(s: Seq<char>, sep: char) -> Seq<Seq<char>>
    decreases s.len(),
{
    let k = first_index(s, sep);
    if k < 0 || k >= s.len() {
        seq![s]
    } else {
        seq![s.take(k)] + pieces(s.skip(k + 1), sep)
    }
}

/// Each of `ps` trimmed, the empty ones dropped.
pub open spec fn nonblank_trimmed(ps: Seq<Seq<char>>) -> Seq<Seq<char>>
    decreases ps.len(),
{
    if ps.len() == 0 {
        Seq::empty()
    } else {
        let t = trim(ps[0]);
        (if t.len() > 0 { seq![t] } else { Seq::empty() }) + nonblank_trimmed(ps.drop_first())
    }
}

/// The base classes a class declares, as written between its parentheses.
pub open spec fn superclasses_spec(node: ParsedNode, s: Seq<char>) -> Seq<Seq<char>> {
    match child_text_of(node, "superclasses"@, s) {
        Some(t) => nonblank_trimmed(pieces(strip_parens(t), ',')),
        None => Seq::empty(),
    }
}

/// The bases that make a class a contract rather than a concrete type.
pub open spec fn contract_bases() -> Seq<Seq<char>> {
    seq!["Protocol"@, "ABC"@, "ABCMeta"@, "abc.ABC"@, "typing.Protocol"@]
}

/// Whether a class derives from a contract base.
pub open spec fn is_contract_spec(node: ParsedNode, s: Seq<char>) -> bool {
    exists|i: int| 0 <= i < superclasses_spec(node, s).len() && contract_bases().contains(#[trigger] superclasses_spec(node, s)[i])
}

/// The facets of a class: a protocol, an abstract base, and in any case a subclass,
/// each detailed with the bases; nothing for a class with no bases.
pub open spec fn class_spec(node: ParsedNode, s: Seq<char>) -> Seq<FacetView> {
    let bases = superclasses_spec(node, s);
    let detail = comma_joined(bases);
    if bases.len() == 0 {
        Seq::empty()
    } else {
        let p = if exists|i: int| 0 <= i < bases.len() && has_suffix(#[trigger] bases[i], "Protocol"@) {
            seq![detailed(Lens::Substitution, "protocol"@, detail)]
        } else {
            Seq::empty()
        };
        let a = if exists|i: int| 0 <= i < bases.len() && (has_suffix(#[trigger] bases[i], "ABC"@) || has_suffix(bases[i], "ABCMeta"@)) {
            seq![detailed(Lens::Substitution, "abstract"@, detail)]
        } else {
            Seq::empty()
        };
        p + a + seq![detailed(Lens::Substitution, "subclass"@, detail)]
    }
}

/// `v` split at `sep`, each piece trimmed, the empty ones dropped.
fn split_trimmed(v: &Vec<char>, sep: char) -> (r: Vec<String>)
    ensures
        texts(r@) == nonblank_trimmed(pieces(v@, sep)),
{
    let mut out: Vec<String> = Vec::new();
    let mut p: usize = 0;
    assert(v@.skip(0) =~= v@);
    assert(texts(out@) + nonblank_trimmed(pieces(v@, sep)) =~= nonblank_trimmed(pieces(v@, sep)));
    loop
        invariant_except_break
            nonblank_trimmed(pieces(v@, sep)) == texts(out@) + nonblank_trimmed(pieces(v@.skip(p as int), sep)),
        invariant
            p <= v@.len(),
        ensures
            texts(out@) == nonblank_trimmed(pieces(v@, sep)),
        decreases v@.len() - p,
    {
        let ghost rest = v@.skip(p as int);
        let mut k = p;
        while k < v.len() && v[k] != sep
            invariant
                p <= k <= v@.len(),
                forall|j: int| p <= j < k ==> v@[j] != sep,
            decreases v.len() - k,
        {
            k = k + 1;
        }
        proof {
            crate::lang::swift::lemma_first_index(rest, sep);
            assert forall|j: int| 0 <= j < k - p implies rest[j] != sep by {
                assert(rest[j] == v@[p + j]);
            }
            if k < v@.len() {
                assert(rest[k - p] == sep);
                assert(first_index(rest, sep) == k - p);
            } else {
                assert(first_index(rest, sep) < 0);
            }
        }
        let piece = trimmed(&slice_range(v, p, k));
        let ghost before = texts(out@);
        if piece.len() > 0 {
            out.push(string_of(piece.as_slice()));
        }
        proof {
            let pc = v@.subrange(p as int, k as int);
            assert(piece@ == trim(pc));
            if k < v@.len() {
                assert(rest.take(k - p) =~= pc);
                assert(rest.skip(k - p + 1) =~= v@.skip(k + 1));
                let ps = pieces(rest, sep);
                assert(ps == seq![pc] + pieces(v@.skip(k + 1), sep));
                assert(ps[0] == pc);
                assert(ps.drop_first() =~= pieces(v@.skip(k + 1), sep));
                if piece.len() > 0 {
                    assert(texts(out@) =~= before.push(piece@));
                    assert(texts(out@) + nonblank_trimmed(pieces(v@.skip(k + 1), sep))
                        =~= before + (seq![trim(pc)] + nonblank_trimmed(pieces(v@.skip(k + 1), sep))));
                } else {
                    assert(texts(out@) =~= before);
                    assert(Seq::<Seq<char>>::empty() + nonblank_trimmed(pieces(v@.skip(k + 1), sep))
                        =~= nonblank_trimmed(pieces(v@.skip(k + 1), sep)));
                }
            } else {
                assert(rest =~= pc);
                let ps = pieces(rest, sep);
                assert(ps == seq![rest]);
                assert(ps[0] == pc);
                assert(ps.drop_first() =~= Seq::<Seq<char>>::empty());
                assert(nonblank_trimmed(Seq::<Seq<char>>::empty()) =~= Seq::<Seq<char>>::empty());
                if piece.len() > 0 {
                    assert(texts(out@) =~= before.push(piece@));
                    assert(nonblank_trimmed(ps) =~= seq![trim(pc)]);
                } else {
                    assert(texts(out@) =~= before);
                    assert(nonblank_trimmed(ps) =~= Seq::<Seq<char>>::empty());
                }
                assert(texts(out@) =~= before + nonblank_trimmed(ps));
            }
        }
        if k >= v.len() {
            break;
        }
        p = k + 1;
    }
    out
}

/// The base classes a class declares.
fn superclasses(node: &ParsedNode, ctx: &FacetContext) -> (r: Vec<String>)
    requires
        ctx.source.wf(),
    ensures
        texts(r@) == superclasses_spec(*node, ctx.source.text()),
{
    proof {
        reveal_strlit("superclasses");
    }
    match child_text(node, "superclasses", ctx.source) {
        Some(t) => {
            let v = chars_of(t.as_str());
            let mut a: usize = 0;
            assert(v@.skip(0) =~= v@);
            while a < v.len() && (v[a] == '(' || v[a] == ')')
                invariant
                    a <= v@.len(),
                    strip_lead_parens(v@) == strip_lead_parens(v@.skip(a as int)),
                decreases v.len() - a,
            {
                assert(v@.skip(a as int).drop_first() =~= v@.skip(a + 1));
                a = a + 1;
            }
            let inner = slice_range(&v, a, v.len());
            assert(inner@ =~= v@.skip(a as int));
            let mut b: usize = inner.len();
            assert(inner@.take(b as int) =~= inner@);
            while b > 0 && (inner[b - 1] == '(' || inner[b - 1] == ')')
                invariant
                    b <= inner@.len(),
                    strip_tail_parens(inner@) == strip_tail_parens(inner@.take(b as int)),
                decreases b,
            {
                assert(inner@.take(b as int).drop_last() =~= inner@.take(b - 1));
                b = b - 1;
            }
            let core = slice_range(&inner, 0, b);
            assert(core@ =~= inner@.take(b as int));
            assert(core@ == strip_parens(t@));
            split_trimmed(&core, ',')
        },
        None => Vec::new(),
    }
}

/// Whether a class derives from a contract base.
pub fn is_contract(node: &ParsedNode, ctx: &FacetContext) -> (r: bool)
    requires
        ctx.source.wf(),
    ensures
        r == is_contract_spec(*node, ctx.source.text()),
{
    let bases = superclasses(node, ctx);
    let contracts = vec!["Protocol", "ABC", "ABCMeta", "abc.ABC", "typing.Protocol"];
    assert(contracts@.map_values(|c: &str| c@) =~= contract_bases());
    let mut i: usize = 0;
    while i < bases.len()
        invariant
            i <= bases@.len(),
            texts(bases@) == superclasses_spec(*node, ctx.source.text()),
            contracts@.map_values(|c: &str| c@) == contract_bases(),
            forall|j: int| 0 <= j < i ==> !contract_bases().contains(#[trigger] superclasses_spec(*node, ctx.source.text())[j]),
        decreases bases.len() - i,
    {
        let mut j: usize = 0;
        while j < contracts.len()
            invariant
                j <= contracts@.len(),
                i < bases@.len(),
                texts(bases@) == superclasses_spec(*node, ctx.source.text()),
                contracts@.map_values(|c: &str| c@) == contract_bases(),
                forall|q: int| 0 <= q < j ==> contracts@[q]@ != bases@[i as int]@,
            decreases contracts.len() - j,
        {
            if str_eq(bases[i].as_str(), contracts[j]) {
                proof {
                    assert(texts(bases@)[i as int] == bases@[i as int]@);
                    assert(contract_bases()[j as int] == contracts@[j as int]@);
                    assert(contract_bases().contains(superclasses_spec(*node, ctx.source.text())[i as int]));
                }
                return true;
            }
            j = j + 1;
        }
        proof {
            assert(texts(bases@)[i as int] == bases@[i as int]@);
            assert forall|q: int| 0 <= q < contract_bases().len() implies contract_bases()[q] != superclasses_spec(*node, ctx.source.text())[i as int] by {
                assert(contract_bases()[q] == contracts@[q]@);
            }
        }
        i = i + 1;
    }
    false
}


fn class_facets(node: &ParsedNode, ctx: &FacetContext, out: &mut Vec<Facet>)
    requires
        ctx.source.wf(),
        plain_facets(old(out)@),
    ensures
        plain_facets(final(out)@),
        facet_views(final(out)@) == facet_views(old(out)@) + class_spec(*node, ctx.source.text()),
{
    let ghost s = ctx.source.text();
    let ghost before = facet_views(out@);
    let bases = superclasses(node, ctx);
    if bases.len() == 0 {
        assert(before + Seq::<FacetView>::empty() =~= before);
        return;
    }
    let detail = join_bases(&bases);
    let ghost bs = texts(bases@);
    proof {
        reveal_strlit("Protocol");
        reveal_strlit("ABC");
        reveal_strlit("ABCMeta");
    }
    let mut protocol = false;
    let mut abstract_base = false;
    let mut i: usize = 0;
    while i < bases.len()
        invariant
            i <= bases@.len(),
            bs == texts(bases@),
            protocol == exists|j: int| 0 <= j < i && has_suffix(#[trigger] bs[j], "Protocol"@),
            abstract_base == exists|j: int| 0 <= j < i && (has_suffix(#[trigger] bs[j], "ABC"@) || has_suffix(bs[j], "ABCMeta"@)),
        decreases bases.len() - i,
    {
        assert(bs[i as int] == bases@[i as int]@);
        if str_ends_with(bases[i].as_str(), "Protocol") {
            protocol = true;
        }
        if str_ends_with(bases[i].as_str(), "ABC") || str_ends_with(bases[i].as_str(), "ABCMeta") {
            abstract_base = true;
        }
        i = i + 1;
    }
    if protocol {
        emit(out, Lens::Substitution, "protocol", Some(detail.clone()), Vec::new());
    }
    let ghost after_p = facet_views(out@);
    if abstract_base {
        emit(out, Lens::Substitution, "abstract", Some(detail.clone()), Vec::new());
    }
    let ghost after_a = facet_views(out@);
    emit(out, Lens::Substitution, "subclass", Some(detail), Vec::new());
    proof {
        let p = if protocol { seq![detailed(Lens::Substitution, "protocol"@, comma_joined(bs))] } else { Seq::<FacetView>::empty() };
        let a = if abstract_base { seq![detailed(Lens::Substitution, "abstract"@, comma_joined(bs))] } else { Seq::<FacetView>::empty() };
        assert(after_p =~= before + p);
        assert(after_a =~= before + p + a);
        assert(facet_views(out@) =~= before + (p + a + seq![detailed(Lens::Substitution, "subclass"@, comma_joined(bs))]));
    }
}

// --- functions ------------------------------------------------------------------------

/// Whether a body is more than a placeholder: something other than `...` or `pass`.
pub open spec fn has_real_body_spec(node: ParsedNode, s: Seq<char>) -> bool {
    match child_text_of(node, "body"@, s) {
        Some(b) => {
            let t = trim(b);
            t != "..."@ && t != "pass"@ && t.len() > 0
        },
        None => false,
    }
}

/// Whether a parameter is typed `Callable…`.
pub open spec fn callable_parameter(p: ParsedNode, s: Seq<char>) -> bool {
    &&& p.kind@ == "typed_parameter"@
    &&& child_text_of(p, "type"@, s) matches Some(a) && has_prefix(crate::config::predicate::skip_ws(a), "Callable"@)
}

/// The sites of the `Callable`-typed parameters among `ps`.
pub open spec fn callable_sites(ps: Seq<ParsedNode>, s: Seq<char>) -> Seq<Range>
    decreases ps.len(),
{
    if ps.len() == 0 {
        Seq::empty()
    } else {
        callable_sites(ps.drop_last(), s) + if callable_parameter(ps.last(), s) {
            seq![span_range(s, ps.last().start as int, ps.last().end as int)]
        } else {
            Seq::empty()
        }
    }
}

/// A behaviour slot for the `Callable`-typed parameters, when there are any.
pub open spec fn callable_spec(node: ParsedNode, s: Seq<char>) -> Seq<FacetView> {
    match first_of_kind(node.children@, "parameters"@) {
        Some(ps) => {
            let sites = callable_sites(ps.children@, s);
            if sites.len() > 0 {
                seq![(Lens::Substitution, "callable"@, None, sites)]
            } else {
                Seq::empty()
            }
        },
        None => Seq::empty(),
    }
}

/// The facets of a function: `async def`, a default in a contract class, a top-level
/// `main`, and its `Callable` parameters.
pub open spec fn function_spec(node: ParsedNode, s: Seq<char>, container: Option<NodeKind>, name: Seq<char>) -> Seq<FacetView> {
    let a = if has_kind(node, "async"@) { seq![detailed(Lens::Hazard, "async"@, "async def"@)] } else { Seq::empty() };
    let d = if container == Some(NodeKind::Interface) && has_real_body_spec(node, s) {
        seq![bare(Lens::Substitution, "default-method"@)]
    } else {
        Seq::empty()
    };
    let e = if name == "main"@ && container is None { seq![detailed(Lens::Boundary, "entry-point"@, "main"@)] } else { Seq::empty() };
    a + d + e + callable_spec(node, s)
}

fn has_real_body(node: &ParsedNode, ctx: &FacetContext) -> (r: bool)
    requires
        ctx.source.wf(),
    ensures
        r == has_real_body_spec(*node, ctx.source.text()),
{
    proof {
        reveal_strlit("body");
        reveal_strlit("...");
        reveal_strlit("pass");
    }
    match child_text(node, "body", ctx.source) {
        Some(b) => {
            let t = trimmed(&chars_of(b.as_str()));
            let dots = vec!['.', '.', '.'];
            let pass = vec!['p', 'a', 's', 's'];
            assert(dots@ =~= "..."@);
            assert(pass@ =~= "pass"@);
            !crate::text::chars_eq(t.as_slice(), dots.as_slice()) && !crate::text::chars_eq(t.as_slice(), pass.as_slice()) && t.len() > 0
        },
        None => false,
    }
}

fn callable_parameters(node: &ParsedNode, ctx: &FacetContext, out: &mut Vec<Facet>)
    requires
        ctx.source.wf(),
        plain_facets(old(out)@),
    ensures
        plain_facets(final(out)@),
        facet_views(final(out)@) == facet_views(old(out)@) + callable_spec(*node, ctx.source.text()),
{
    let ghost s = ctx.source.text();
    let ghost before = facet_views(out@);
    proof {
        reveal_strlit("parameters");
        reveal_strlit("typed_parameter");
        reveal_strlit("type");
        reveal_strlit("Callable");
    }
    let mut k: usize = 0;
    assert(node.children@.skip(0) =~= node.children@);
    while k < node.children.len() && !str_eq(node.children[k].kind.as_str(), "parameters")
        invariant
            k <= node.children@.len(),
            first_of_kind(node.children@, "parameters"@) == first_of_kind(node.children@.skip(k as int), "parameters"@),
        decreases node.children.len() - k,
    {
        assert(node.children@.skip(k as int)[0] == node.children@[k as int]);
        assert(node.children@.skip(k as int).drop_first() =~= node.children@.skip(k + 1));
        k = k + 1;
    }
    if k == node.children.len() {
        assert(node.children@.skip(k as int) =~= Seq::<ParsedNode>::empty());
        assert(before + Seq::<FacetView>::empty() =~= before);
        return;
    }
    assert(node.children@.skip(k as int)[0] == node.children@[k as int]);
    let params = &node.children[k];
    let mut sites: Vec<Range> = Vec::new();
    let mut i: usize = 0;
    while i < params.children.len()
        invariant
            i <= params.children@.len(),
            ctx.source.wf(),
            s == ctx.source.text(),
            sites@ == callable_sites(params.children@.take(i as int), s),
        decreases params.children.len() - i,
    {
        let p = &params.children[i];
        proof {
            let t = params.children@.take(i + 1);
            assert(t.drop_last() =~= params.children@.take(i as int));
            assert(t.last() == *p);
        }
        if str_eq(p.kind.as_str(), "typed_parameter") {
            match child_text(p, "type", ctx.source) {
                Some(a) => {
                    let ac = chars_of(a.as_str());
                    let at = crate::config::predicate::skip_ws_at(&ac, 0);
                    assert(crate::config::predicate::from(ac@, 0) =~= ac@);
                    let callable = vec!['C', 'a', 'l', 'l', 'a', 'b', 'l', 'e'];
                    proof {
                        reveal_strlit("Callable");
                    }
                    assert(callable@ =~= "Callable"@);
                    let hit = crate::text::starts_at(ac.as_slice(), at, callable.as_slice());
                    if hit {
                        sites.push(ctx.range(p.start, p.end));
                    }
                },
                None => {},
            }
        }
        i = i + 1;
        proof {
            assert(sites@ =~= callable_sites(params.children@.take(i as int), s));
        }
    }
    assert(params.children@.take(i as int) =~= params.children@);
    if sites.len() > 0 {
        emit(out, Lens::Substitution, "callable", None, sites);
    } else {
        assert(before + Seq::<FacetView>::empty() =~= before);
    }
}

fn function_facets(node: &ParsedNode, ctx: &FacetContext, name: &str, out: &mut Vec<Facet>)
    requires
        ctx.source.wf(),
        plain_facets(old(out)@),
    ensures
        plain_facets(final(out)@),
        facet_views(final(out)@) == facet_views(old(out)@) + function_spec(*node, ctx.source.text(), ctx.container, name@),
{
    let ghost s = ctx.source.text();
    let ghost before = facet_views(out@);
    proof {
        reveal_strlit("async");
        reveal_strlit("main");
    }
    if has_child_kind(node, "async") {
        emit(out, Lens::Hazard, "async", Some("async def".to_string()), Vec::new());
    }
    let ghost after_a = facet_views(out@);
    if ctx.container == Some(NodeKind::Interface) && has_real_body(node, ctx) {
        emit(out, Lens::Substitution, "default-method", None, Vec::new());
    }
    let ghost after_d = facet_views(out@);
    if str_eq(name, "main") && ctx.container.is_none() {
        emit(out, Lens::Boundary, "entry-point", Some("main".to_string()), Vec::new());
    }
    let ghost after_e = facet_views(out@);
    callable_parameters(node, ctx, out);
    proof {
        let a = if has_kind(*node, "async"@) { seq![detailed(Lens::Hazard, "async"@, "async def"@)] } else { Seq::<FacetView>::empty() };
        let d = if ctx.container == Some(NodeKind::Interface) && has_real_body_spec(*node, s) {
            seq![bare(Lens::Substitution, "default-method"@)]
        } else {
            Seq::<FacetView>::empty()
        };
        let e = if name@ == "main"@ && ctx.container is None { seq![detailed(Lens::Boundary, "entry-point"@, "main"@)] } else { Seq::<FacetView>::empty() };
        assert(after_a =~= before + a);
        assert(after_d =~= before + a + d);
        assert(after_e =~= before + a + d + e);
        assert(facet_views(out@) =~= before + (a + d + e + callable_spec(*node, s)));
    }
}

// --- entities -------------------------------------------------------------------------

/// The name an entity is read under: its `name` field, else its `left` field.
pub open spec fn entity_name(node: ParsedNode, s: Seq<char>) -> Seq<char> {
    match child_text_of(node, "name"@, s) {
        Some(n) => n,
        None => match child_text_of(node, "left"@, s) {
            Some(l) => l,
            None => Seq::empty(),
        },
    }
}

/// The facets of an addressable entity: the `api` facet its name implies, its
/// decorators, then what its construct adds — a class's bases, a function's shape, or
/// the surface an `__all__` declares.
pub open spec fn entity_spec(node: ParsedNode, s: Seq<char>, attrs: Seq<AttrView>, container: Option<NodeKind>) -> Seq<FacetView> {
    let name = entity_name(node, s);
    let own = if node.kind@ == "class_definition"@ {
        class_spec(node, s)
    } else if node.kind@ == "function_definition"@ {
        function_spec(node, s, container, name)
    } else if node.kind@ == "assignment"@ && name == "__all__"@ {
        seq![detailed(Lens::Api, "all-export"@, match child_text_of(node, "right"@, s) {
            Some(r) => r,
            None => Seq::empty(),
        })]
    } else {
        Seq::empty()
    };
    api_spec(name) + decorator_spec(attrs) + own
}

/// Facets for an addressable entity, appended to `out`.
pub fn entity_facets(node: &ParsedNode, ctx: &FacetContext, out: &mut Vec<Facet>)
    requires
        ctx.source.wf(),
        plain_facets(old(out)@),
    ensures
        plain_facets(final(out)@),
        facet_views(final(out)@) == facet_views(old(out)@)
            + entity_spec(*node, ctx.source.text(), attr_views(ctx.attributes@), ctx.container),
{
    let ghost s = ctx.source.text();
    let ghost before = facet_views(out@);
    proof {
        reveal_strlit("name");
        reveal_strlit("left");
        reveal_strlit("right");
        reveal_strlit("__all__");
    }
    let name = match child_text(node, "name", ctx.source) {
        Some(n) => n,
        None => match child_text(node, "left", ctx.source) {
            Some(l) => l,
            None => String::new(),
        },
    };
    api_facets(name.as_str(), out);
    let ghost after_api = facet_views(out@);
    decorator_facets(ctx.attributes, out);
    let ghost after_dec = facet_views(out@);
    if str_eq(node.kind.as_str(), "class_definition") {
        class_facets(node, ctx, out);
    } else if str_eq(node.kind.as_str(), "function_definition") {
        function_facets(node, ctx, name.as_str(), out);
    } else if str_eq(node.kind.as_str(), "assignment") && str_eq(name.as_str(), "__all__") {
        let right = match child_text(node, "right", ctx.source) {
            Some(r) => r,
            None => String::new(),
        };
        emit(out, Lens::Api, "all-export", Some(right), Vec::new());
    } else {
        assert(after_dec + Seq::<FacetView>::empty() =~= after_dec);
    }
    proof {
        assert(after_api == before + api_spec(name@));
        assert(facet_views(out@) =~= before + entity_spec(*node, s, attr_views(ctx.attributes@), ctx.container));
    }
}

// --- interior facets ------------------------------------------------------------------

/// A conditional whose predicate decides what the module contains: a `TYPE_CHECKING`
/// branch, and a branch on the platform.
pub open spec fn branch_spec(node: ParsedNode, s: Seq<char>) -> Seq<FacetView> {
    match child_text_of(node, "condition"@, s) {
        Some(c) => {
            let site = seq![span_range(s, node.start as int, node.end as int)];
            (if contains_seq(c, "TYPE_CHECKING"@) {
                seq![(Lens::Variation, "type-checking"@, Some(c), site)]
            } else {
                Seq::empty()
            }) + (if contains_seq(c, "sys.platform"@) || contains_seq(c, "os.name"@) {
                seq![(Lens::Variation, "platform-branch"@, Some(c), site)]
            } else {
                Seq::empty()
            })
        },
        None => Seq::empty(),
    }
}

/// The modules whose use is a foreign-function boundary.
pub open spec fn foreign_modules() -> Seq<Seq<char>> {
    seq!["ctypes"@, "cffi"@, "_ctypes"@]
}

/// The module an import names: its `module_name` field, else its `name` field.
pub open spec fn imported_module(node: ParsedNode, s: Seq<char>) -> Seq<char> {
    match child_text_of(node, "module_name"@, s) {
        Some(m) => m,
        None => match child_text_of(node, "name"@, s) {
            Some(n) => n,
            None => Seq::empty(),
        },
    }
}

/// An import that binds a foreign library, and one that names something outside the
/// package — anything but a relative import.
pub open spec fn import_spec(node: ParsedNode, s: Seq<char>) -> Seq<FacetView> {
    let module = imported_module(node, s);
    let site = seq![span_range(s, node.start as int, node.end as int)];
    if module.len() == 0 {
        Seq::empty()
    } else {
        (if foreign_modules().contains(cut_at(module, seq!['.'])) {
            seq![(Lens::Boundary, "foreign-binding"@, Some(module), site)]
        } else {
            Seq::empty()
        }) + (if !has_prefix(module, seq!['.']) {
            seq![(Lens::Boundary, "external-import"@, Some(module), site)]
        } else {
            Seq::empty()
        })
    }
}

/// The facets a non-entity node contributes to the entity around it.
pub open spec fn interior_spec(node: ParsedNode, s: Seq<char>) -> Seq<FacetView> {
    let site = seq![span_range(s, node.start as int, node.end as int)];
    if node.kind@ == "await"@ {
        seq![(Lens::Hazard, "await"@, Some(match text_slice(s, node.start as int, node.end as int) {
            Some(t) => t,
            None => "await"@,
        }), site)]
    } else if node.kind@ == "global_statement"@ {
        seq![(Lens::Hazard, "global"@, None, site)]
    } else if node.kind@ == "nonlocal_statement"@ {
        seq![(Lens::Hazard, "nonlocal"@, None, site)]
    } else if node.kind@ == "if_statement"@ {
        branch_spec(node, s)
    } else if node.kind@ == "import_statement"@ || node.kind@ == "import_from_statement"@ {
        import_spec(node, s)
    } else {
        Seq::empty()
    }
}

fn branch_facets(node: &ParsedNode, ctx: &FacetContext, out: &mut Vec<Facet>)
    requires
        ctx.source.wf(),
        plain_facets(old(out)@),
    ensures
        plain_facets(final(out)@),
        facet_views(final(out)@) == facet_views(old(out)@) + branch_spec(*node, ctx.source.text()),
{
    let ghost s = ctx.source.text();
    let ghost before = facet_views(out@);
    proof {
        reveal_strlit("condition");
    }
    let c = match child_text(node, "condition", ctx.source) {
        Some(c) => c,
        None => {
            assert(before + Seq::<FacetView>::empty() =~= before);
            return;
        },
    };
    let site = ctx.range(node.start, node.end);
    if str_contains(c.as_str(), "TYPE_CHECKING") {
        let sites = vec![site];
        assert(sites@ =~= seq![site]);
        emit(out, Lens::Variation, "type-checking", Some(c.clone()), sites);
    }
    let ghost mid = facet_views(out@);
    if str_contains(c.as_str(), "sys.platform") || str_contains(c.as_str(), "os.name") {
        let sites = vec![site];
        assert(sites@ =~= seq![site]);
        emit(out, Lens::Variation, "platform-branch", Some(c.clone()), sites);
    }
    proof {
        let t = if contains_seq(c@, "TYPE_CHECKING"@) {
            seq![(Lens::Variation, "type-checking"@, Some(c@), seq![site])]
        } else {
            Seq::<FacetView>::empty()
        };
        assert(mid =~= before + t);
        assert(facet_views(out@) =~= before + branch_spec(*node, s));
    }
}

fn import_facets(node: &ParsedNode, ctx: &FacetContext, out: &mut Vec<Facet>)
    requires
        ctx.source.wf(),
        plain_facets(old(out)@),
    ensures
        plain_facets(final(out)@),
        facet_views(final(out)@) == facet_views(old(out)@) + import_spec(*node, ctx.source.text()),
{
    let ghost s = ctx.source.text();
    let ghost before = facet_views(out@);
    proof {
        reveal_strlit("module_name");
        reveal_strlit("name");
    }
    let module = match child_text(node, "module_name", ctx.source) {
        Some(m) => m,
        None => match child_text(node, "name", ctx.source) {
            Some(n) => n,
            None => String::new(),
        },
    };
    let chars = chars_of(module.as_str());
    if chars.len() == 0 {
        assert(before + Seq::<FacetView>::empty() =~= before);
        return;
    }
    let site = ctx.range(node.start, node.end);
    let root = string_of(cut(&chars, &['.']).as_slice());
    proof {
        assert(['.']@ =~= seq!['.']);
        reveal_strlit("ctypes");
        reveal_strlit("cffi");
        reveal_strlit("_ctypes");
    }
    let foreign = str_eq(root.as_str(), "ctypes") || str_eq(root.as_str(), "cffi") || str_eq(root.as_str(), "_ctypes");
    assert(foreign == foreign_modules().contains(cut_at(module@, seq!['.']))) by {
        if foreign_modules().contains(cut_at(module@, seq!['.'])) {
            let k = choose|k: int| 0 <= k < foreign_modules().len() && foreign_modules()[k] == cut_at(module@, seq!['.']);
            assert(k == 0 || k == 1 || k == 2);
        }
    }
    if foreign {
        let sites = vec![site];
        assert(sites@ =~= seq![site]);
        emit(out, Lens::Boundary, "foreign-binding", Some(module.clone()), sites);
    }
    let ghost mid = facet_views(out@);
    let relative = chars[0] == '.';
    assert(module@.subrange(0, 1) =~= seq![chars@[0]]);
    assert(relative == has_prefix(module@, seq!['.']));
    if !relative {
        let sites = vec![site];
        assert(sites@ =~= seq![site]);
        emit(out, Lens::Boundary, "external-import", Some(module.clone()), sites);
    }
    proof {
        let f = if foreign { seq![(Lens::Boundary, "foreign-binding"@, Some(module@), seq![site])] } else { Seq::<FacetView>::empty() };
        assert(mid =~= before + f);
        assert(facet_views(out@) =~= before + import_spec(*node, s));
    }
}

/// Facets contributed by a non-entity node, appended to `out`; the walk attributes them
/// to the enclosing entity.
pub fn interior_facets(node: &ParsedNode, ctx: &FacetContext, out: &mut Vec<Facet>)
    requires
        ctx.source.wf(),
        plain_facets(old(out)@),
    ensures
        plain_facets(final(out)@),
        facet_views(final(out)@) == facet_views(old(out)@) + interior_spec(*node, ctx.source.text()),
{
    let ghost s = ctx.source.text();
    let ghost before = facet_views(out@);
    let kind = node.kind.as_str();
    if str_eq(kind, "await") {
        let site = ctx.range(node.start, node.end);
        let sites = vec![site];
        assert(sites@ =~= seq![site]);
        let text = match ctx.source.slice(node.start, node.end) {
            Some(t) => t,
            None => "await".to_string(),
        };
        emit(out, Lens::Hazard, "await", Some(text), sites);
    } else if str_eq(kind, "global_statement") {
        let site = ctx.range(node.start, node.end);
        let sites = vec![site];
        assert(sites@ =~= seq![site]);
        emit(out, Lens::Hazard, "global", None, sites);
    } else if str_eq(kind, "nonlocal_statement") {
        let site = ctx.range(node.start, node.end);
        let sites = vec![site];
        assert(sites@ =~= seq![site]);
        emit(out, Lens::Hazard, "nonlocal", None, sites);
    } else if str_eq(kind, "if_statement") {
        branch_facets(node, ctx, out);
    } else if str_eq(kind, "import_statement") || str_eq(kind, "import_from_statement") {
        import_facets(node, ctx, out);
    } else {
        assert(before + Seq::<FacetView>::empty() =~= before);
    }
}

// --- classification -------------------------------------------------------------------

/// Where navigating to an entity lands: its `name` field, else its `left` field, else
/// the whole construct.
pub open spec fn selection_spec(node: ParsedNode, s: Seq<char>) -> Range {
    match field_child(node.children@, "name"@) {
        Some(c) => span_range(s, c.start as int, c.end as int),
        None => match field_child(node.children@, "left"@) {
            Some(c) => span_range(s, c.start as int, c.end as int),
            None => span_range(s, node.start as int, node.end as int),
        },
    }
}

/// An entity of `kind` named `name`, with the visibility its name implies.
pub open spec fn entity_view(node: ParsedNode, s: Seq<char>, kind: NodeKind, name: Seq<char>) -> ClassifiedView {
    (kind, name, name, None, selection_spec(node, s), Some(visibility_of_name(name)))
}

/// `s` in upper case, as `str::to_uppercase` maps it.
pub uninterp spec fn uppercase_of(s: Seq<char>) -> Seq<char>;

/// `str::to_uppercase`.
#[verifier::external_body]
fn uppercase(s: &str) -> (r: String)
    ensures
        r@ == uppercase_of(s@),
{
    s.to_uppercase()
}

/// Whether every character of `name` is a letter, a digit or `_`.
pub open spec fn ident_chars(name: Seq<char>) -> bool {
    forall|i: int| 0 <= i < name.len() ==> unicode_alphanumeric(#[trigger] name[i]) || name[i] == '_'
}

/// Whether some character of `name` is a letter.
pub open spec fn any_alphabetic(name: Seq<char>) -> bool {
    exists|i: int| 0 <= i < name.len() && unicode_alphabetic(#[trigger] name[i])
}

/// What a node is, if it is an entity at all: a class (a contract when it derives from
/// one), a function (a member inside a class), or a binding — a member inside a class,
/// and at module level a constant when it is `__all__` or written in capitals.
pub open spec fn classify_spec(node: ParsedNode, s: Seq<char>, container: Option<NodeKind>) -> Option<ClassifiedView> {
    let member_scope = container == Some(NodeKind::Type) || container == Some(NodeKind::Interface);
    if node.kind@ == "class_definition"@ {
        match child_text_of(node, "name"@, s) {
            Some(name) => Some(entity_view(node, s, if is_contract_spec(node, s) { NodeKind::Interface } else { NodeKind::Type }, name)),
            None => None,
        }
    } else if node.kind@ == "function_definition"@ {
        match child_text_of(node, "name"@, s) {
            Some(name) => Some(entity_view(node, s, if member_scope { NodeKind::Member } else { NodeKind::Function }, name)),
            None => None,
        }
    } else if node.kind@ == "assignment"@ {
        match child_text_of(node, "left"@, s) {
            Some(name) => if !ident_chars(name) {
                None
            } else if member_scope {
                Some(entity_view(node, s, NodeKind::Member, name))
            } else if name == "__all__"@ {
                Some(entity_view(node, s, NodeKind::Constant, name))
            } else if uppercase_of(name) == name && any_alphabetic(name) {
                Some(entity_view(node, s, NodeKind::Constant, name))
            } else {
                None
            },
            None => None,
        }
    } else {
        None
    }
}

/// Build the classification of an entity named `name`.
fn classified(node: &ParsedNode, ctx: &FacetContext, kind: NodeKind, name: String) -> (r: Classified)
    requires
        ctx.source.wf(),
    ensures
        classified_view(r) == entity_view(*node, ctx.source.text(), kind, name@),
{
    proof {
        reveal_strlit("name");
        reveal_strlit("left");
    }
    let selection = match child_by_field(node, "name") {
        Some(c) => ctx.range(c.start, c.end),
        None => match child_by_field(node, "left") {
            Some(c) => ctx.range(c.start, c.end),
            None => ctx.range(node.start, node.end),
        },
    };
    let visibility = visibility_of(name.as_str());
    let segment = name.clone();
    Classified { kind, name, segment, detail: None, selection, visibility: Some(visibility) }
}

/// Whether every character of `v` is a letter, a digit or `_`, and whether some is a
/// letter.
fn scan_name(v: &Vec<char>) -> (r: (bool, bool))
    ensures
        r.0 == ident_chars(v@),
        r.1 == any_alphabetic(v@),
{
    let mut all = true;
    let mut any = false;
    let mut i: usize = 0;
    while i < v.len()
        invariant
            i <= v@.len(),
            all == forall|j: int| 0 <= j < i ==> unicode_alphanumeric(#[trigger] v@[j]) || v@[j] == '_',
            any == exists|j: int| 0 <= j < i && unicode_alphabetic(#[trigger] v@[j]),
        decreases v.len() - i,
    {
        if !(is_alphanumeric(v[i]) || v[i] == '_') {
            all = false;
        }
        if is_alphabetic(v[i]) {
            any = true;
        }
        i = i + 1;
    }
    (all, any)
}

/// What a node is, if it is an entity at all.
pub fn classify(node: &ParsedNode, ctx: &FacetContext) -> (r: Option<Classified>)
    requires
        ctx.source.wf(),
    ensures
        match r {
            Some(c) => classify_spec(*node, ctx.source.text(), ctx.container) == Some(classified_view(c)),
            None => classify_spec(*node, ctx.source.text(), ctx.container) is None,
        },
{
    proof {
        reveal_strlit("name");
        reveal_strlit("left");
        reveal_strlit("__all__");
    }
    let member_scope = ctx.container == Some(NodeKind::Type) || ctx.container == Some(NodeKind::Interface);
    let kind = node.kind.as_str();
    if str_eq(kind, "class_definition") {
        match child_text(node, "name", ctx.source) {
            Some(name) => {
                let k = if is_contract(node, ctx) { NodeKind::Interface } else { NodeKind::Type };
                Some(classified(node, ctx, k, name))
            },
            None => None,
        }
    } else if str_eq(kind, "function_definition") {
        match child_text(node, "name", ctx.source) {
            Some(name) => {
                let k = if member_scope { NodeKind::Member } else { NodeKind::Function };
                Some(classified(node, ctx, k, name))
            },
            None => None,
        }
    } else if str_eq(kind, "assignment") {
        match child_text(node, "left", ctx.source) {
            Some(name) => {
                let (plain, lettered) = scan_name(&chars_of(name.as_str()));
                if !plain {
                    None
                } else if member_scope {
                    Some(classified(node, ctx, NodeKind::Member, name))
                } else if str_eq(name.as_str(), "__all__") {
                    Some(classified(node, ctx, NodeKind::Constant, name))
                } else {
                    let upper = uppercase(name.as_str());
                    if str_eq(upper.as_str(), name.as_str()) && lettered {
                        Some(classified(node, ctx, NodeKind::Constant, name))
                    } else {
                        None
                    }
                }
            },
            None => None,
        }
    } else {
        None
    }
}

// --- decorations ----------------------------------------------------------------------

/// `s` without its leading `@`s.
pub open spec fn strip_at(s: Seq<char>) -> Seq<char>
    decreases s.len(),
{
    if s.len() > 0 && s[0] == '@' {
        strip_at(s.drop_first())
    } else {
        s
    }
}

/// `s` without its trailing `)`s.
pub open spec fn strip_close(s: Seq<char>) -> Seq<char>
    decreases s.len(),
{
    if s.len() > 0 && s.last() == ')' {
        strip_close(s.drop_last())
    } else {
        s
    }
}

/// What a `decorator` node says: the name up to its call, and what it was called with.
pub open spec fn decoration_spec(node: ParsedNode, s: Seq<char>) -> Option<AttrView> {
    if node.kind@ != "decorator"@ {
        None
    } else {
        match text_slice(s, node.start as int, node.end as int) {
            Some(raw) => {
                let t = trim(strip_at(raw));
                let k = first_index(t, '(');
                let range = span_range(s, node.start as int, node.end as int);
                if k >= 0 {
                    Some((trim(t.take(k)), Some(trim(strip_close(t.skip(k + 1)))), range))
                } else {
                    Some((t, None, range))
                }
            },
            None => None,
        }
    }
}

/// The decoration a `decorator` node carries, or `None` for any other node.
pub fn decoration(node: &ParsedNode, ctx: &FacetContext) -> (r: Option<Attribute>)
    requires
        ctx.source.wf(),
    ensures
        match r {
            Some(a) => decoration_spec(*node, ctx.source.text()) == Some(attr_view(a)),
            None => decoration_spec(*node, ctx.source.text()) is None,
        },
{
    if !str_eq(node.kind.as_str(), "decorator") {
        return None;
    }
    let raw = match ctx.source.slice(node.start, node.end) {
        Some(t) => chars_of(t.as_str()),
        None => return None,
    };
    let mut a: usize = 0;
    assert(raw@.skip(0) =~= raw@);
    while a < raw.len() && raw[a] == '@'
        invariant
            a <= raw@.len(),
            strip_at(raw@) == strip_at(raw@.skip(a as int)),
        decreases raw.len() - a,
    {
        assert(raw@.skip(a as int).drop_first() =~= raw@.skip(a + 1));
        a = a + 1;
    }
    let t = trimmed(&slice_range(&raw, a, raw.len()));
    assert(raw@.subrange(a as int, raw@.len() as int) =~= raw@.skip(a as int));
    let range = ctx.range(node.start, node.end);
    let mut k: usize = 0;
    while k < t.len() && t[k] != '('
        invariant
            k <= t@.len(),
            forall|j: int| 0 <= j < k ==> t@[j] != '(',
        decreases t.len() - k,
    {
        k = k + 1;
    }
    proof {
        crate::lang::swift::lemma_first_index(t@, '(');
    }
    if k == t.len() {
        assert(first_index(t@, '(') < 0);
        return Some(Attribute { name: string_of(t.as_slice()), arguments: None, range });
    }
    assert(first_index(t@, '(') == k);
    let head = trimmed(&slice_range(&t, 0, k));
    assert(t@.subrange(0, k as int) =~= t@.take(k as int));
    let rest = slice_range(&t, k + 1, t.len());
    assert(rest@ =~= t@.skip(k + 1));
    let mut b: usize = rest.len();
    assert(rest@.take(b as int) =~= rest@);
    while b > 0 && rest[b - 1] == ')'
        invariant
            b <= rest@.len(),
            strip_close(rest@) == strip_close(rest@.take(b as int)),
        decreases b,
    {
        assert(rest@.take(b as int).drop_last() =~= rest@.take(b - 1));
        b = b - 1;
    }
    let args = trimmed(&slice_range(&rest, 0, b));
    assert(rest@.subrange(0, b as int) =~= rest@.take(b as int));
    Some(Attribute { name: string_of(head.as_slice()), arguments: Some(string_of(args.as_slice())), range })
}

/// Every facet subtype the Python mapping can emit.
pub fn subtypes() -> (r: Vec<(Lens, FacetSubtype)>)
    ensures
        crate::lang::table_view(r@) == crate::lang::python_subtypes(),
{
    crate::lang::python_subtype_table()
}

/// The edge kinds Python resolves semantically: none yet, so edges stay unresolved and
/// the view degrades rather than failing.
pub fn semantic_capabilities() -> (r: Vec<crate::edge::EdgeKind>)
    ensures
        r@.len() == 0,
{
    Vec::new()
}

} // verus!
