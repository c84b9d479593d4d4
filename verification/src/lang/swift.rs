//! Swift text rules: the type an `extension` is about, and which `#if` condition is open
//! at a declaration.
//!
//! `#if` and `#endif` are flat siblings in the grammar, so nothing in the tree relates a
//! declaration to the directives around it; counting the directive lines above it is
//! what makes the relation answerable.

pub mod facets;

use vstd::prelude::*;
use crate::config::predicate::trim;
use crate::lang::after_last;
use crate::lang::after_last_char;
use crate::lang::cut;
use crate::lang::cut_at;
use crate::lang::identifier;
use crate::lang::is_identifier;
use crate::lang::trimmed;
use crate::text::chars_eq;
use crate::text::chars_of;
use crate::text::string_of;
use crate::text::push_str;
use crate::text::byte_offsets;
use crate::text::position_at_byte;
use crate::text::char_at_byte;
use crate::text::has_prefix;
use crate::config::predicate::skip_ws;
use crate::config::predicate::first_index;
use crate::id::slice_range;
use crate::lang::begins;
use crate::lang::skip_then_ws;
use crate::contribution::Owner;
use crate::coord::Range;
use crate::lang::Classified;
use crate::lang::ClassifiedView;
use crate::lang::FacetContext;
use crate::lang::span_range;
use crate::lang::kotlin::modifier;
use crate::lang::kotlin::modifier_of;
use crate::lang::kotlin::texts_of_kind;
use crate::lang::kotlin::child_texts;
use crate::lang::rust::OwnerView;
use crate::lang::rust::owner_view;
use crate::model::NodeKind;
use crate::model::Visibility;
use crate::syntax::ParsedNode;
use crate::syntax::child_by_field;
use crate::syntax::child_of_kind;
use crate::syntax::child_text;
use crate::syntax::child_text_of;
use crate::syntax::field_child;
use crate::syntax::first_of_kind;
use crate::syntax::node_text;
use crate::syntax::node_text_of;
use crate::syntax::text_slice;
use crate::text::str_eq;
use crate::text::unicode_whitespace;
use crate::text::is_whitespace;
use karet_treesitter::LanguageId;

verus! {

/// The bare type name a Swift type expression is about: generic arguments and module
/// qualification dropped. `None` when the head is not one identifier, or is `Self`.
pub open spec fn base_name_of(text: Seq<char>) -> Option<Seq<char>> {
    let head = trim(after_last(cut_at(trim(text), seq!['<', ' ']), '.'));
    if is_identifier(head) && head != seq!['S', 'e', 'l', 'f'] {
        Some(head)
    } else {
        None
    }
}

/// The bare type name a Swift type expression is about, or `None` when it is not about
/// one nameable type.
pub fn base_name(text: &str) -> (r: Option<String>)
    ensures
        match r {
            Some(h) => base_name_of(text@) == Some(h@),
            None => base_name_of(text@) is None,
        },
{
    let chars = chars_of(text);
    let head = trimmed(&after_last_char(&cut(&trimmed(&chars), &['<', ' ']), '.'));
    if identifier(&head) && !chars_eq(head.as_slice(), &['S', 'e', 'l', 'f']) {
        Some(string_of(head.as_slice()))
    } else {
        None
    }
}

/// The lines of `s` as `str::lines` yields them: split at each `\n`, a `\r` just
/// before it dropped, and no empty line after a final line ending.
pub open spec fn lines_of(s: Seq<char>) -> Seq<Seq<char>>
    decreases s.len(),
{
    if s.len() == 0 {
        Seq::empty()
    } else {
        let k = first_index(s, '\n');
        if k < 0 {
            seq![s]
        } else {
            proof {
                lemma_first_index(s, '\n');
            }
            let line = s.take(k);
            let line = if line.len() > 0 && line.last() == '\r' { line.drop_last() } else { line };
            seq![line] + lines_of(s.skip(k + 1))
        }
    }
}

pub proof fn lemma_first_index(s: Seq<char>, c: char)
    ensures
        -1 <= first_index(s, c) < s.len(),
        first_index(s, c) >= 0 ==> s[first_index(s, c)] == c,
        forall|j: int| 0 <= j < s.len() && (first_index(s, c) < 0 || j < first_index(s, c)) ==> #[trigger] s[j] != c,
    decreases s.len(),
{
    if s.len() > 0 && s[0] != c {
        lemma_first_index(s.drop_first(), c);
        assert forall|j: int| 0 <= j < s.len() && (first_index(s, c) < 0 || j < first_index(s, c)) implies #[trigger] s[j] != c by {
            if j > 0 {
                assert(s[j] == s.drop_first()[j - 1]);
            }
        }
    }
}

/// The open conditions after one more line: `#if` opens one, `#endif` closes the
/// innermost, `#elseif` replaces it, and `#else` replaces it with its negation.
pub open spec fn directive_step(open: Seq<Seq<char>>, line: Seq<char>) -> Seq<Seq<char>> {
    let t = skip_ws(line);
    let closed = if open.len() > 0 { open.drop_last() } else { open };
    if has_prefix(t, seq!['#', 'i', 'f']) {
        open.push(trim(t.skip(3)))
    } else if has_prefix(t, seq!['#', 'e', 'n', 'd', 'i', 'f']) {
        closed
    } else if has_prefix(t, seq!['#', 'e', 'l', 's', 'e', 'i', 'f']) {
        closed.push(trim(t.skip(7)))
    } else if has_prefix(t, seq!['#', 'e', 'l', 's', 'e']) {
        let previous = if open.len() > 0 { open.last() } else { Seq::empty() };
        closed.push(seq!['!', '('] + previous + seq![')'])
    } else {
        open
    }
}

/// The open conditions after reading `lines` in order.
pub open spec fn directives_after(open: Seq<Seq<char>>, lines: Seq<Seq<char>>) -> Seq<Seq<char>>
    decreases lines.len(),
{
    if lines.len() == 0 {
        open
    } else {
        directives_after(directive_step(open, lines[0]), lines.drop_first())
    }
}

/// The innermost compilation condition still open at byte `at` of `text`; `None` when
/// none is, or when `at` is past the text or inside a character.
pub open spec fn open_condition_of(text: Seq<char>, at: int) -> Option<Seq<char>> {
    match char_at_byte(text, at) {
        None => None,
        Some(i) => {
            let open = directives_after(Seq::empty(), lines_of(text.take(i)));
            if open.len() > 0 {
                Some(open.last())
            } else {
                None
            }
        },
    }
}

/// The views of a stack of strings.
pub open spec fn views(v: Seq<String>) -> Seq<Seq<char>> {
    v.map_values(|x: String| x@)
}

/// Apply one line to the stack of open conditions.
fn apply_directive(open: &mut Vec<String>, line: &Vec<char>)
    ensures
        views(final(open)@) == directive_step(views(old(open)@), line@),
{
    let t = skip_then_ws(line, 0);
    assert(line@.skip(0) =~= line@);
    let kw_if = vec!['#', 'i', 'f'];
    let kw_endif = vec!['#', 'e', 'n', 'd', 'i', 'f'];
    let kw_elseif = vec!['#', 'e', 'l', 's', 'e', 'i', 'f'];
    let kw_else = vec!['#', 'e', 'l', 's', 'e'];
    assert(kw_if@ =~= seq!['#', 'i', 'f']);
    assert(kw_endif@ =~= seq!['#', 'e', 'n', 'd', 'i', 'f']);
    assert(kw_elseif@ =~= seq!['#', 'e', 'l', 's', 'e', 'i', 'f']);
    assert(kw_else@ =~= seq!['#', 'e', 'l', 's', 'e']);
    let ghost before = views(open@);
    if begins(&t, &kw_if) {
        let c = trimmed(&slice_range(&t, 3, t.len()));
        assert(t@.subrange(3, t@.len() as int) =~= t@.skip(3));
        open.push(string_of(c.as_slice()));
        assert(views(open@) =~= before.push(c@));
    } else if begins(&t, &kw_endif) {
        if open.len() > 0 {
            open.pop();
            assert(views(open@) =~= before.drop_last());
        }
    } else if begins(&t, &kw_elseif) {
        if open.len() > 0 {
            open.pop();
            assert(views(open@) =~= before.drop_last());
        }
        let ghost mid = views(open@);
        let c = trimmed(&slice_range(&t, 7, t.len()));
        assert(t@.subrange(7, t@.len() as int) =~= t@.skip(7));
        open.push(string_of(c.as_slice()));
        assert(views(open@) =~= mid.push(c@));
    } else if begins(&t, &kw_else) {
        let previous = match open.pop() {
            Some(p) => {
                assert(views(open@) =~= before.drop_last());
                p
            },
            None => String::new(),
        };
        let ghost mid = views(open@);
        let mut negated = String::new();
        proof {
            reveal_strlit("!(");
            reveal_strlit(")");
        }
        push_str(&mut negated, "!(");
        push_str(&mut negated, previous.as_str());
        push_str(&mut negated, ")");
        assert(negated@ =~= seq!['!', '('] + previous@ + seq![')']);
        open.push(negated);
        assert(views(open@) =~= mid.push(seq!['!', '('] + previous@ + seq![')']));
    }
}

/// The innermost compilation condition still open at byte `at` of `text`.
///
/// `#if` and `#endif` are flat siblings in the grammar, so this counts the directive
/// lines above `at`; that is exact for any file the compiler accepts, since unbalanced
/// directives do not compile.
pub fn open_condition(text: &str, at: usize) -> (r: Option<String>)
    requires
        text@.len() < usize::MAX / 4,
    ensures
        match r {
            Some(c) => open_condition_of(text@, at as int) == Some(c@),
            None => open_condition_of(text@, at as int) is None,
        },
{
    let src = crate::syntax::Source::new(text);
    open_condition_in(&src, at)
}

/// The innermost compilation condition still open at byte `at` of a parsed file.
pub fn open_condition_in(src: &crate::syntax::Source, at: usize) -> (r: Option<String>)
    requires
        src.wf(),
    ensures
        match r {
            Some(c) => open_condition_of(src.text(), at as int) == Some(c@),
            None => open_condition_of(src.text(), at as int) is None,
        },
{
    let chars = src.chars();
    let bytes = src.offsets();
    let end = match position_at_byte(chars, bytes, at) {
        Some(i) => i,
        None => return None,
    };
    let ghost prefix = chars@.take(end as int);
    let mut open: Vec<String> = Vec::new();
    let mut p: usize = 0;
    assert(prefix.subrange(0, end as int) =~= prefix);
    assert(views(open@) =~= Seq::<Seq<char>>::empty());
    while p < end
        invariant
            p <= end <= chars@.len(),
            prefix == chars@.take(end as int),
            directives_after(Seq::empty(), lines_of(prefix))
                == directives_after(views(open@), lines_of(chars@.subrange(p as int, end as int))),
        decreases end - p,
    {
        let ghost rest = chars@.subrange(p as int, end as int);
        let mut k = p;
        while k < end && chars[k] != '\n'
            invariant
                p <= k <= end <= chars@.len(),
                forall|j: int| p <= j < k ==> chars@[j] != '\n',
            decreases end - k,
        {
            k = k + 1;
        }
        proof {
            lemma_first_index(rest, '\n');
            if k < end {
                assert(rest[k - p] == '\n');
            }
            assert forall|j: int| 0 <= j < k - p implies rest[j] != '\n' by {
                assert(rest[j] == chars@[p + j]);
            }
        }
        let line = if k < end && k > p && chars[k - 1] == '\r' {
            slice_range(&chars, p, k - 1)
        } else {
            slice_range(&chars, p, k)
        };
        proof {
            if k < end {
                assert(first_index(rest, '\n') == k - p);
                assert(rest.take(k - p) =~= chars@.subrange(p as int, k as int));
                if k > p {
                    assert(rest.take(k - p).last() == chars@[k - 1]);
                    assert(rest.take(k - p).drop_last() =~= chars@.subrange(p as int, k - 1));
                }
                assert(rest.skip(k - p + 1) =~= chars@.subrange(k + 1, end as int));
            } else {
                assert(first_index(rest, '\n') < 0);
                assert(rest =~= chars@.subrange(p as int, k as int));
                assert(lines_of(rest) == seq![rest]);
            }
        }
        let ghost line_v = line@;
        let ghost before = views(open@);
        apply_directive(&mut open, &line);
        proof {
            if k < end {
                assert(lines_of(rest) == seq![line_v] + lines_of(chars@.subrange(k + 1, end as int)));
                assert((seq![line_v] + lines_of(chars@.subrange(k + 1, end as int))).drop_first()
                    =~= lines_of(chars@.subrange(k + 1, end as int)));
            } else {
                assert(seq![line_v].drop_first() =~= Seq::<Seq<char>>::empty());
                assert(chars@.subrange(end as int, end as int) =~= Seq::<char>::empty());
            }
        }
        p = if k < end { k + 1 } else { end };
    }
    assert(chars@.subrange(p as int, end as int) =~= Seq::<char>::empty());
    let ghost fin = views(open@);
    match open.pop() {
        Some(c) => {
            assert(fin.last() == c@);
            Some(c)
        },
        None => None,
    }
}


// --- the mapping ---------------------------------------------------------------------

/// The grammar id for Swift, when the grammar is compiled in.
pub fn language_id() -> (r: Option<LanguageId>)
    ensures
        r == crate::lang::injection_grammar("swift"@),
{
    crate::lang::grammar_named("swift")
}

/// Whether a node of this kind introduces a new scope for paths.
pub fn is_container(kind: &str) -> (r: bool)
    ensures
        r == (kind@ == "source_file"@ || kind@ == "class_declaration"@ || kind@ == "protocol_declaration"@),
{
    str_eq(kind, "source_file") || str_eq(kind, "class_declaration") || str_eq(kind, "protocol_declaration")
}

/// Swift's declared visibility. The default is `internal` — visible throughout the
/// module and no further — so an unmarked declaration is crate-visible; `open` and
/// `public` are equally reachable.
pub open spec fn visibility_spec(node: ParsedNode, s: Seq<char>) -> Visibility {
    match modifier_of(node, s, "visibility_modifier"@) {
        Some(t) => if t == "open"@ || t == "public"@ {
            Visibility::Public
        } else if t == "private"@ {
            Visibility::Private
        } else if t == "fileprivate"@ {
            Visibility::Restricted
        } else {
            Visibility::Crate
        },
        None => Visibility::Crate,
    }
}

/// Swift's declared visibility.
pub fn visibility_of(node: &ParsedNode, ctx: &FacetContext) -> (r: Visibility)
    requires
        ctx.source.wf(),
    ensures
        r == visibility_spec(*node, ctx.source.text()),
{
    match modifier(node, ctx, "visibility_modifier") {
        Some(t) => if str_eq(t.as_str(), "open") || str_eq(t.as_str(), "public") {
            Visibility::Public
        } else if str_eq(t.as_str(), "private") {
            Visibility::Private
        } else if str_eq(t.as_str(), "fileprivate") {
            Visibility::Restricted
        } else {
            Visibility::Crate
        },
        None => Visibility::Crate,
    }
}

/// The run of non-whitespace at the start of `t`.
pub open spec fn leading_word(t: Seq<char>) -> Seq<char>
    decreases t.len(),
{
    if t.len() == 0 || unicode_whitespace(t[0]) {
        Seq::empty()
    } else {
        seq![t[0]] + leading_word(t.drop_first())
    }
}

/// The keyword introducing a declaration — `struct`, `class`, `enum`, `extension`,
/// `actor`: the first word between its modifiers (or its start) and its name (or its
/// end). The token itself is anonymous, so it is read from the text.
pub open spec fn keyword_spec(node: ParsedNode, s: Seq<char>) -> Seq<char> {
    let from = match first_of_kind(node.children@, "modifiers"@) {
        Some(m) => m.end as int,
        None => node.start as int,
    };
    let to = match field_child(node.children@, "name"@) {
        Some(n) => n.start as int,
        None => node.end as int,
    };
    match text_slice(s, from, if to > from { to } else { from }) {
        Some(b) => leading_word(skip_ws(b)),
        None => Seq::empty(),
    }
}

/// The first whitespace-separated word of `v`.
fn first_word_of(v: &Vec<char>) -> (r: String)
    ensures
        r@ == leading_word(skip_ws(v@)),
{
    let t = skip_then_ws(v, 0);
    assert(v@.skip(0) =~= v@);
    let mut e: usize = 0;
    assert(t@.skip(0) =~= t@);
    while e < t.len() && !is_whitespace(t[e])
        invariant
            e <= t@.len(),
            leading_word(t@) == t@.take(e as int) + leading_word(t@.skip(e as int)),
        decreases t.len() - e,
    {
        assert(t@.skip(e as int)[0] == t@[e as int]);
        assert(t@.skip(e as int).drop_first() =~= t@.skip(e + 1));
        assert(t@.take(e + 1) =~= t@.take(e as int).push(t@[e as int]));
        assert(t@.take(e as int) + leading_word(t@.skip(e as int))
            =~= t@.take(e + 1) + leading_word(t@.skip(e + 1)));
        e = e + 1;
    }
    if e < t.len() {
        assert(t@.skip(e as int)[0] == t@[e as int]);
    }
    assert(leading_word(t@.skip(e as int)) =~= Seq::<char>::empty());
    let r = slice_range(&t, 0, e);
    assert(r@ =~= t@.take(e as int));
    string_of(r.as_slice())
}

/// The keyword introducing a declaration.
pub fn keyword(node: &ParsedNode, ctx: &FacetContext) -> (r: String)
    requires
        ctx.source.wf(),
    ensures
        r@ == keyword_spec(*node, ctx.source.text()),
{
    proof {
        reveal_strlit("name");
    }
    let from = match child_of_kind(node, "modifiers") {
        Some(m) => m.end,
        None => node.start,
    };
    let to = match child_by_field(node, "name") {
        Some(n) => n.start,
        None => node.end,
    };
    let upto = if to > from { to } else { from };
    match ctx.source.slice(from, upto) {
        Some(b) => first_word_of(&chars_of(b.as_str())),
        None => String::new(),
    }
}

/// Whether `node` is an `extension`: a declaration of the shared kind whose keyword is
/// `extension`.
pub open spec fn is_extension(node: ParsedNode, s: Seq<char>) -> bool {
    node.kind@ == "class_declaration"@ && keyword_spec(node, s) == "extension"@
}

/// The protocols a declaration says it conforms to, as written and trimmed.
pub open spec fn conformances_of(node: ParsedNode, s: Seq<char>) -> Seq<Seq<char>> {
    texts_of_kind(node.children@, s, "inheritance_specifier"@).map_values(|t: Seq<char>| trim(t))
}

/// The protocols a declaration says it conforms to.
pub fn conformances(node: &ParsedNode, ctx: &FacetContext) -> (r: Vec<String>)
    requires
        ctx.source.wf(),
    ensures
        r@.map_values(|t: String| t@) == conformances_of(*node, ctx.source.text()),
{
    let raw = child_texts(node, ctx, "inheritance_specifier");
    let ghost rv = raw@.map_values(|t: String| t@);
    let mut out: Vec<String> = Vec::new();
    let mut i: usize = 0;
    while i < raw.len()
        invariant
            i <= raw@.len(),
            rv == raw@.map_values(|t: String| t@),
            out@.map_values(|t: String| t@) == rv.take(i as int).map_values(|t: Seq<char>| trim(t)),
        decreases raw.len() - i,
    {
        let ghost before = out@;
        assert(rv[i as int] == raw@[i as int]@);
        out.push(string_of(trimmed(&chars_of(raw[i].as_str())).as_slice()));
        assert(rv.take(i + 1) =~= rv.take(i as int).push(rv[i as int]));
        assert(out@.map_values(|t: String| t@) =~= before.map_values(|t: String| t@).push(trim(rv[i as int])));
        assert(out@.map_values(|t: String| t@) =~= rv.take(i + 1).map_values(|t: Seq<char>| trim(t)));
        i = i + 1;
    }
    assert(rv.take(i as int) =~= rv);
    out
}

/// The type an `extension` extends, as written and trimmed; empty when it names none.
pub open spec fn extended_of(node: ParsedNode, s: Seq<char>) -> Seq<char> {
    match child_text_of(node, "name"@, s) {
        Some(t) => trim(t),
        None => Seq::empty(),
    }
}

/// Where an `extension`'s members belong, most specific first: under the extended
/// type — nested and renamed `extension P` when it binds a protocol `P`, else
/// dissolved into it unless a `#if` is open around it — then under the first protocol
/// it conforms to, renamed `extension for X`.
pub open spec fn owners_spec(node: ParsedNode, s: Seq<char>) -> Seq<OwnerView> {
    if !is_extension(node, s) {
        Seq::empty()
    } else {
        let extended = extended_of(node, s);
        let conf = conformances_of(node, s);
        (match base_name_of(extended) {
            Some(b) => if conf.len() > 0 {
                seq![(b, Some(("extension "@ + conf[0], "{extension "@ + conf[0] + "}"@)), false)]
            } else if open_condition_of(s, node.start as int) is None {
                seq![(b, None, true)]
            } else {
                seq![(b, None, false)]
            },
            None => Seq::empty(),
        }) + if conf.len() > 0 {
            match base_name_of(conf[0]) {
                Some(pb) => seq![(pb, Some(("extension for "@ + extended, "{extension for "@ + extended + "}"@)), false)],
                None => Seq::empty(),
            }
        } else {
            Seq::empty()
        }
    }
}

/// `a` followed by `b`, as a new string.
fn joined(a: &str, b: &str) -> (r: String)
    ensures
        r@ == a@ + b@,
{
    let mut out = String::new();
    push_str(&mut out, a);
    push_str(&mut out, b);
    assert(out@ =~= a@ + b@);
    out
}

/// `a`, `b` and `c`, as a new string.
fn joined3(a: &str, b: &str, c: &str) -> (r: String)
    ensures
        r@ == a@ + b@ + c@,
{
    let mut out = joined(a, b);
    push_str(&mut out, c);
    out
}

/// The type an `extension` extends.
fn extended(node: &ParsedNode, ctx: &FacetContext) -> (r: String)
    requires
        ctx.source.wf(),
    ensures
        r@ == extended_of(*node, ctx.source.text()),
{
    match child_text(node, "name", ctx.source) {
        Some(t) => string_of(trimmed(&chars_of(t.as_str())).as_slice()),
        None => String::new(),
    }
}

/// Where an `extension`'s members belong.
pub fn owners(node: &ParsedNode, ctx: &FacetContext) -> (r: Vec<Owner>)
    requires
        ctx.source.wf(),
    ensures
        r@.map_values(|o: Owner| owner_view(o)) == owners_spec(*node, ctx.source.text()),
{
    let mut out: Vec<Owner> = Vec::new();
    proof {
        reveal_strlit("extension ");
        reveal_strlit("{extension ");
        reveal_strlit("}");
        reveal_strlit("extension for ");
        reveal_strlit("{extension for ");
    }
    if !(str_eq(node.kind.as_str(), "class_declaration") && str_eq(keyword(node, ctx).as_str(), "extension")) {
        assert(out@.map_values(|o: Owner| owner_view(o)) =~= owners_spec(*node, ctx.source.text()));
        return out;
    }
    let ext = extended(node, ctx);
    let conf = conformances(node, ctx);
    let ghost cv = conf@.map_values(|t: String| t@);
    let ghost first_part: Seq<OwnerView> = Seq::empty();
    match base_name(ext.as_str()) {
        Some(b) => {
            if conf.len() > 0 {
                assert(cv[0] == conf@[0]@);
                let o = Owner::nested(b).renamed(joined("extension ", conf[0].as_str()), joined3("{extension ", conf[0].as_str(), "}"));
                out.push(o);
            } else if open_condition_in(ctx.source, node.start).is_none() {
                out.push(Owner::dissolved(b));
            } else {
                out.push(Owner::nested(b));
            }
        },
        None => {},
    }
    let ghost mid = out@.map_values(|o: Owner| owner_view(o));
    if conf.len() > 0 {
        assert(cv[0] == conf@[0]@);
        match base_name(conf[0].as_str()) {
            Some(pb) => {
                let o = Owner::nested(pb).renamed(joined("extension for ", ext.as_str()), joined3("{extension for ", ext.as_str(), "}"));
                out.push(o);
                assert(out@.map_values(|o: Owner| owner_view(o)) =~= mid.push(owner_view(o)));
            },
            None => {},
        }
    }
    assert(out@.map_values(|o: Owner| owner_view(o)) =~= owners_spec(*node, ctx.source.text()));
    out
}

// --- classification -------------------------------------------------------------------

/// An entity named `name`, selected at `selection`, with the declaration's visibility.
pub open spec fn built(node: ParsedNode, s: Seq<char>, kind: NodeKind, name: Seq<char>, selection: Range) -> ClassifiedView {
    (kind, name, name, None, selection, Some(visibility_spec(node, s)))
}

/// Where a declaration is selected: its name, or the whole node when it has none.
pub open spec fn name_selection(node: ParsedNode, s: Seq<char>) -> Range {
    match field_child(node.children@, "name"@) {
        Some(c) => span_range(s, c.start as int, c.end as int),
        None => span_range(s, node.start as int, node.end as int),
    }
}

/// An entity named by the trimmed text of its `name` field.
pub open spec fn named_spec(node: ParsedNode, s: Seq<char>, kind: NodeKind) -> Option<ClassifiedView> {
    match child_text_of(node, "name"@, s) {
        Some(n) => Some(built(node, s, kind, trim(n), name_selection(node, s))),
        None => None,
    }
}

/// An `extension`, which has no name of its own: `extension P for X` when it binds a
/// protocol `P` to `X`, else `extension X`, written `{…}` as a segment, with the
/// protocol as its detail. An extension naming no type reads as `?`.
pub open spec fn extension_spec(node: ParsedNode, s: Seq<char>) -> ClassifiedView {
    let extended = match child_text_of(node, "name"@, s) {
        Some(t) => trim(t),
        None => "?"@,
    };
    let conf = conformances_of(node, s);
    let name = if conf.len() > 0 {
        "extension "@ + conf[0] + " for "@ + extended
    } else {
        "extension "@ + extended
    };
    (NodeKind::Implementation, name, "{"@ + name + "}"@, if conf.len() > 0 { Some(conf[0]) } else { None },
        name_selection(node, s), Some(visibility_spec(node, s)))
}

/// What a node is, if it is an entity at all: a protocol; an extension; a struct,
/// class, enum or actor, or a type alias; an associated type or protocol requirement;
/// a function (a member inside a type); a property (a member inside a type, a constant
/// at file level, nothing in a body); `init`, `deinit` and `subscript`, named by their
/// keyword; and each name of an enum `case`, told apart from a method's name by the
/// member frame already open around it.
pub open spec fn classify_spec(node: ParsedNode, s: Seq<char>, container: Option<NodeKind>) -> Option<ClassifiedView> {
    let member_of_type = container == Some(NodeKind::Type) || container == Some(NodeKind::Interface)
        || container == Some(NodeKind::Implementation);
    let k = node.kind@;
    if k == "protocol_declaration"@ {
        named_spec(node, s, NodeKind::Interface)
    } else if is_extension(node, s) {
        Some(extension_spec(node, s))
    } else if k == "class_declaration"@ || k == "typealias_declaration"@ {
        named_spec(node, s, NodeKind::Type)
    } else if k == "associatedtype_declaration"@ || k == "protocol_function_declaration"@ {
        named_spec(node, s, NodeKind::Member)
    } else if k == "function_declaration"@ {
        named_spec(node, s, if member_of_type { NodeKind::Member } else { NodeKind::Function })
    } else if k == "property_declaration"@ && member_of_type {
        named_spec(node, s, NodeKind::Member)
    } else if k == "property_declaration"@ && (container == Some(NodeKind::Package) || container == Some(NodeKind::Module)) {
        named_spec(node, s, NodeKind::Constant)
    } else if k == "init_declaration"@ {
        Some(built(node, s, NodeKind::Member, "init"@, span_range(s, node.start as int, node.end as int)))
    } else if k == "deinit_declaration"@ {
        Some(built(node, s, NodeKind::Member, "deinit"@, span_range(s, node.start as int, node.end as int)))
    } else if k == "subscript_declaration"@ {
        Some(built(node, s, NodeKind::Member, "subscript"@, span_range(s, node.start as int, node.end as int)))
    } else if k == "simple_identifier"@ && (node.field matches Some(f) && f@ == "name"@) && container == Some(NodeKind::Type) {
        match node_text_of(node, s) {
            Some(n) => Some(built(node, s, NodeKind::Member, n, span_range(s, node.start as int, node.end as int))),
            None => None,
        }
    } else {
        None
    }
}

/// An entity named `name`, selected at `selection`.
fn build(node: &ParsedNode, ctx: &FacetContext, kind: NodeKind, name: String, selection: Range) -> (r: Classified)
    requires
        ctx.source.wf(),
    ensures
        crate::lang::classified_view(r) == built(*node, ctx.source.text(), kind, name@, selection),
{
    let segment = name.clone();
    Classified { kind, name, segment, detail: None, selection, visibility: Some(visibility_of(node, ctx)) }
}

/// Where a declaration is selected.
fn selection_of(node: &ParsedNode, ctx: &FacetContext) -> (r: Range)
    requires
        ctx.source.wf(),
    ensures
        r == name_selection(*node, ctx.source.text()),
{
    proof {
        reveal_strlit("name");
    }
    match child_by_field(node, "name") {
        Some(c) => ctx.range(c.start, c.end),
        None => ctx.range(node.start, node.end),
    }
}

/// An entity named by the trimmed text of its `name` field.
fn named(node: &ParsedNode, ctx: &FacetContext, kind: NodeKind) -> (r: Option<Classified>)
    requires
        ctx.source.wf(),
    ensures
        match r {
            Some(c) => named_spec(*node, ctx.source.text(), kind) == Some(crate::lang::classified_view(c)),
            None => named_spec(*node, ctx.source.text(), kind) is None,
        },
{
    let raw = match child_text(node, "name", ctx.source) {
        Some(n) => n,
        None => return None,
    };
    let name = string_of(trimmed(&chars_of(raw.as_str())).as_slice());
    let selection = selection_of(node, ctx);
    Some(build(node, ctx, kind, name, selection))
}

/// Describe an `extension`.
fn classify_extension(node: &ParsedNode, ctx: &FacetContext) -> (r: Classified)
    requires
        ctx.source.wf(),
    ensures
        crate::lang::classified_view(r) == extension_spec(*node, ctx.source.text()),
{
    proof {
        reveal_strlit("?");
        reveal_strlit("extension ");
        reveal_strlit(" for ");
        reveal_strlit("{");
        reveal_strlit("}");
    }
    let ext = match child_text(node, "name", ctx.source) {
        Some(t) => string_of(trimmed(&chars_of(t.as_str())).as_slice()),
        None => "?".to_string(),
    };
    let conf = conformances(node, ctx);
    let ghost cv = conf@.map_values(|t: String| t@);
    let (name, detail) = if conf.len() > 0 {
        assert(cv[0] == conf@[0]@);
        let mut n = joined3("extension ", conf[0].as_str(), " for ");
        push_str(&mut n, ext.as_str());
        (n, Some(conf[0].clone()))
    } else {
        (joined("extension ", ext.as_str()), None)
    };
    let segment = joined3("{", name.as_str(), "}");
    Classified { kind: NodeKind::Implementation, name, segment, detail, selection: selection_of(node, ctx), visibility: Some(visibility_of(node, ctx)) }
}

/// Map one node onto an addressable entity, or `None` when it is not one.
pub fn classify(node: &ParsedNode, ctx: &FacetContext) -> (r: Option<Classified>)
    requires
        ctx.source.wf(),
    ensures
        match r {
            Some(c) => classify_spec(*node, ctx.source.text(), ctx.container) == Some(crate::lang::classified_view(c)),
            None => classify_spec(*node, ctx.source.text(), ctx.container) is None,
        },
{
    proof {
        reveal_strlit("init");
        reveal_strlit("deinit");
        reveal_strlit("subscript");
        reveal_strlit("name");
    }
    let member_of_type = match ctx.container {
        Some(NodeKind::Type) | Some(NodeKind::Interface) | Some(NodeKind::Implementation) => true,
        _ => false,
    };
    let k = node.kind.as_str();
    if str_eq(k, "protocol_declaration") {
        named(node, ctx, NodeKind::Interface)
    } else if str_eq(k, "class_declaration") && str_eq(keyword(node, ctx).as_str(), "extension") {
        Some(classify_extension(node, ctx))
    } else if str_eq(k, "class_declaration") || str_eq(k, "typealias_declaration") {
        named(node, ctx, NodeKind::Type)
    } else if str_eq(k, "associatedtype_declaration") || str_eq(k, "protocol_function_declaration") {
        named(node, ctx, NodeKind::Member)
    } else if str_eq(k, "function_declaration") {
        named(node, ctx, if member_of_type { NodeKind::Member } else { NodeKind::Function })
    } else if str_eq(k, "property_declaration") && member_of_type {
        named(node, ctx, NodeKind::Member)
    } else if str_eq(k, "property_declaration") && (ctx.container == Some(NodeKind::Package) || ctx.container == Some(NodeKind::Module)) {
        named(node, ctx, NodeKind::Constant)
    } else if str_eq(k, "init_declaration") {
        Some(build(node, ctx, NodeKind::Member, "init".to_string(), ctx.range(node.start, node.end)))
    } else if str_eq(k, "deinit_declaration") {
        Some(build(node, ctx, NodeKind::Member, "deinit".to_string(), ctx.range(node.start, node.end)))
    } else if str_eq(k, "subscript_declaration") {
        Some(build(node, ctx, NodeKind::Member, "subscript".to_string(), ctx.range(node.start, node.end)))
    } else if str_eq(k, "simple_identifier") && ctx.container == Some(NodeKind::Type) && match &node.field {
        Some(f) => str_eq(f.as_str(), "name"),
        None => false,
    } {
        match node_text(node, ctx.source) {
            Some(n) => Some(build(node, ctx, NodeKind::Member, n, ctx.range(node.start, node.end))),
            None => None,
        }
    } else {
        None
    }
}

} // verus!
