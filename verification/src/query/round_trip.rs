//! What a query's text form gives back.
//!
//! Any state the filter can narrow to is a query, and a query is written down as text
//! that reads back as the same query. This module proves that for every query written
//! without quotation marks, `in:` and `pivot:` paths among them: rendering it and
//! parsing the result gives back the same terms, each with its negation, in the same
//! order, under the same `config:` directive. Byte spans are positions in whichever
//! text a term was read from, so they are not part of what comes back.

use vstd::prelude::*;
use crate::config::predicate::first_index;
use crate::query::KindView;
use crate::query::QueryView;
use crate::query::TermView;
use crate::query::parse::lens_named;
use crate::query::parse::kind_named;
use crate::query::parse::query_of;
use crate::query::parse::read_tokens;
use crate::query::parse::term_of;
use crate::query::parse::token_end;
use crate::query::parse::tokens_from;
use crate::query::parse::visibility_named;
use crate::query::render_kind;
use crate::query::render_query;
use crate::query::render_term;
use crate::query::render_terms;
use crate::text::ascii_whitespace;
use crate::text::has_prefix;

verus! {

/// A term's negation and kind: what it means, apart from where it was written.
pub open spec fn meaning(terms: Seq<TermView>) -> Seq<(bool, KindView)> {
    terms.map_values(|t: TermView| (t.0, t.1))
}

/// Whether `w` holds neither whitespace nor a quotation mark.
pub open spec fn clean(w: Seq<char>) -> bool {
    forall|i: int| 0 <= i < w.len() ==> !ascii_whitespace(#[trigger] w[i]) && w[i] != '"'
}

/// `ws` joined by single spaces.
pub open spec fn spaced(ws: Seq<Seq<char>>) -> Seq<char>
    decreases ws.len(),
{
    if ws.len() == 0 {
        Seq::empty()
    } else if ws.len() == 1 {
        ws[0]
    } else {
        ws[0] + seq![' '] + spaced(ws.drop_first())
    }
}

/// Whether a term reads back from its written form: a clean, non-empty word, led by `!`
/// exactly when negated, whose remainder is not a `config:` directive and parses to the
/// term's kind.
pub open spec fn good_term(t: TermView) -> bool {
    let w = render_term(t);
    let body = if t.0 { w.drop_first() } else { w };
    &&& w.len() > 0
    &&& clean(w)
    &&& (w[0] == '!') == t.0
    &&& body.len() > 0
    &&& !has_prefix(body, "config:"@)
    &&& term_of(body, (0, 0)) == Ok::<KindView, crate::query::ErrorView>(t.1)
}

// --- the words a query is written as ----------------------------------------------------

proof fn lemma_render_terms(ts: Seq<TermView>)
    ensures
        render_terms(ts, true) == spaced(ts.map_values(|t: TermView| render_term(t))),
        ts.len() > 0 ==> render_terms(ts, false) == seq![' '] + spaced(ts.map_values(|t: TermView| render_term(t))),
        ts.len() == 0 ==> render_terms(ts, false) == Seq::<char>::empty(),
    decreases ts.len(),
{
    reveal_strlit(" ");
    let ws = ts.map_values(|t: TermView| render_term(t));
    if ts.len() > 0 {
        lemma_render_terms(ts.drop_first());
        assert(ts.drop_first().map_values(|t: TermView| render_term(t)) =~= ws.drop_first());
        if ts.len() == 1 {
            assert(render_terms(ts.drop_first(), false) =~= Seq::<char>::empty());
            assert(render_terms(ts, true) =~= ws[0]);
        } else {
            assert(render_terms(ts, true) =~= ws[0] + render_terms(ts.drop_first(), false));
            assert(spaced(ws) =~= ws[0] + seq![' '] + spaced(ws.drop_first()));
        }
    }
}

/// The words a query is written as: its `config:` directive, then its terms.
pub open spec fn words(q: QueryView) -> Seq<Seq<char>> {
    let ts = q.0.map_values(|t: TermView| render_term(t));
    match q.1 {
        Some(c) => seq!["config:"@ + c] + ts,
        None => ts,
    }
}

proof fn lemma_render_query(q: QueryView)
    ensures
        render_query(q) == spaced(words(q)),
{
    lemma_render_terms(q.0);
    let ts = q.0.map_values(|t: TermView| render_term(t));
    match q.1 {
        Some(c) => {
            let ws = words(q);
            assert(ws.drop_first() =~= ts);
            if ts.len() == 0 {
                assert(render_query(q) =~= "config:"@ + c);
            } else {
                assert(render_query(q) =~= ("config:"@ + c) + seq![' '] + spaced(ts));
            }
        },
        None => {},
    }
}

// --- reading spaced words back ----------------------------------------------------------

proof fn lemma_token_end_clean(s: Seq<char>, j: int, e: int)
    requires
        0 <= j <= e <= s.len(),
        forall|m: int| j <= m < e ==> !ascii_whitespace(#[trigger] s[m]) && s[m] != '"',
        e == s.len() || ascii_whitespace(s[e]),
    ensures
        token_end(s, j, false) == e,
    decreases e - j,
{
    if j < e {
        lemma_token_end_clean(s, j + 1, e);
    }
}

/// The tokens of text written as clean words joined by single spaces are those words.
proof fn lemma_tokens_spaced(s: Seq<char>, i: int, ws: Seq<Seq<char>>)
    requires
        0 <= i <= s.len(),
        s.subrange(i, s.len() as int) == spaced(ws),
        forall|k: int| 0 <= k < ws.len() ==> (#[trigger] ws[k]).len() > 0 && clean(ws[k]),
    ensures
        tokens_from(s, i).len() == ws.len(),
        forall|k: int| 0 <= k < ws.len() ==> i <= (#[trigger] tokens_from(s, i)[k]).0 < tokens_from(s, i)[k].1 <= s.len()
            && s.subrange(tokens_from(s, i)[k].0, tokens_from(s, i)[k].1) == ws[k],
    decreases ws.len(),
{
    if ws.len() == 0 {
        assert(s.subrange(i, s.len() as int).len() == 0);
        assert(i == s.len());
    } else {
        let w = ws[0];
        let e = i + w.len();
        let rest = ws.drop_first();
        if ws.len() == 1 {
            assert(spaced(ws) == w);
        } else {
            assert(spaced(ws) == w + seq![' '] + spaced(rest));
        }
        assert(e <= s.len());
        assert forall|m: int| i <= m < e implies !ascii_whitespace(#[trigger] s[m]) && s[m] != '"' by {
            assert(s[m] == s.subrange(i, s.len() as int)[m - i]);
            assert(s.subrange(i, s.len() as int)[m - i] == w[m - i]);
        }
        if ws.len() > 1 {
            assert(s[e] == s.subrange(i, s.len() as int)[e - i]);
            assert(s.subrange(i, s.len() as int)[e - i] == ' ');
        } else {
            assert(s.subrange(i, s.len() as int).len() == w.len());
        }
        lemma_token_end_clean(s, i + 1, e);
        assert(s.subrange(i, e) =~= w) by {
            assert forall|m: int| 0 <= m < w.len() implies s.subrange(i, e)[m] == w[m] by {
                assert(s.subrange(i, e)[m] == s.subrange(i, s.len() as int)[m]);
            }
        }
        if ws.len() == 1 {
            assert(tokens_from(s, e) =~= Seq::<(int, int)>::empty());
            assert(tokens_from(s, i) =~= seq![(i, e)]);
        } else {
            assert(s.subrange(e + 1, s.len() as int) =~= spaced(rest)) by {
                assert(s.subrange(e + 1, s.len() as int) =~= s.subrange(i, s.len() as int).subrange(w.len() as int + 1, s.len() - i));
            }
            assert forall|k: int| 0 <= k < rest.len() implies (#[trigger] rest[k]).len() > 0 && clean(rest[k]) by {
                assert(rest[k] == ws[k + 1]);
            }
            lemma_tokens_spaced(s, e + 1, rest);
            assert(tokens_from(s, e) == tokens_from(s, e + 1));
            let ts = tokens_from(s, i);
            assert(ts =~= seq![(i, e)] + tokens_from(s, e + 1));
            assert forall|k: int| 0 <= k < ws.len() implies i <= (#[trigger] ts[k]).0 < ts[k].1 <= s.len()
                && s.subrange(ts[k].0, ts[k].1) == ws[k] by {
                if k > 0 {
                    assert(ts[k] == tokens_from(s, e + 1)[k - 1]);
                    assert(ws[k] == rest[k - 1]);
                }
            }
        }
    }
}

/// `term_of` answers the same kind wherever a term was written.
proof fn lemma_term_span(body: Seq<char>, a: (int, int), b: (int, int))
    ensures
        term_of(body, a) is Ok <==> term_of(body, b) is Ok,
        term_of(body, a) is Ok ==> term_of(body, a) == term_of(body, b),
{
}

/// Reading back the written terms, from the `k`-th token on, adds them in order.
proof fn lemma_read_words(
    s: Seq<char>,
    toks: Seq<(int, int)>,
    k: int,
    off: int,
    acc: Seq<TermView>,
    cfg: Option<(Seq<char>, int)>,
    ts: Seq<TermView>,
)
    requires
        0 <= off <= k <= toks.len(),
        toks.len() == off + ts.len(),
        forall|j: int| 0 <= j < ts.len() ==> good_term(#[trigger] ts[j]),
        forall|j: int| 0 <= j < ts.len() ==> s.subrange((#[trigger] toks[off + j]).0, toks[off + j].1) == render_term(ts[j]),
    ensures
        read_tokens(s, toks, k, acc, cfg) matches Ok(r)
            && meaning(r.0) == meaning(acc) + meaning(ts.skip(k - off))
            && r.1 == match cfg { Some(c) => Some(c.0), None => None },
    decreases toks.len() - k,
{
    if k == toks.len() {
        assert(ts.skip(k - off) =~= Seq::<TermView>::empty());
        assert(meaning(acc) + meaning(ts.skip(k - off)) =~= meaning(acc));
    } else {
        let j = k - off;
        let t = ts[j];
        assert(good_term(t));
        let w = s.subrange(toks[k].0, toks[k].1);
        assert(toks[off + j] == toks[k]);
        assert(w == render_term(t));
        let negated = w.len() > 0 && w[0] == '!';
        let body = if negated { w.drop_first() } else { w };
        let ba = crate::text::byte_at(s, toks[k].0);
        let be = crate::text::byte_at(s, toks[k].1);
        let bs = if negated { ba + 1 } else { ba };
        lemma_term_span(body, (0, 0), (bs, be));
        let next = acc.push((negated, t.1, (ba, be)));
        lemma_read_words(s, toks, k + 1, off, next, cfg, ts);
        assert(meaning(next) =~= meaning(acc).push((t.0, t.1)));
        assert(ts.skip(j) =~= seq![t] + ts.skip(j + 1));
        assert(meaning(ts.skip(j)) =~= seq![(t.0, t.1)] + meaning(ts.skip(j + 1)));
        assert(meaning(acc) + meaning(ts.skip(j)) =~= meaning(next) + meaning(ts.skip(j + 1)));
    }
}

// --- what parsing produces ----------------------------------------------------------------

proof fn lemma_token_end_plain(s: Seq<char>, j: int)
    requires
        0 <= j <= s.len(),
        !s.contains('"'),
    ensures
        j <= token_end(s, j, false) <= s.len(),
        forall|m: int| j <= m < token_end(s, j, false) ==> !ascii_whitespace(#[trigger] s[m]),
    decreases s.len() - j,
{
    if j < s.len() {
        assert(s[j] != '"');
        if !ascii_whitespace(s[j]) {
            lemma_token_end_plain(s, j + 1);
        }
    }
}

/// The tokens of text without quotation marks are clean, non-empty runs.
proof fn lemma_tokens_plain(s: Seq<char>, i: int)
    requires
        0 <= i,
        !s.contains('"'),
    ensures
        forall|k: int| 0 <= k < tokens_from(s, i).len() ==> 0 <= (#[trigger] tokens_from(s, i)[k]).0 < tokens_from(s, i)[k].1 <= s.len()
            && clean(s.subrange(tokens_from(s, i)[k].0, tokens_from(s, i)[k].1)),
    decreases s.len() - i,
{
    if i < s.len() {
        if ascii_whitespace(s[i]) {
            lemma_tokens_plain(s, i + 1);
            assert(tokens_from(s, i) == tokens_from(s, i + 1));
        } else {
            assert(s[i] != '"');
            lemma_token_end_plain(s, i + 1);
            let e = token_end(s, i + 1, false);
            lemma_tokens_plain(s, e);
            let ts = tokens_from(s, i);
            assert(e > i && e <= s.len());
            assert(ts == seq![(i, e)] + tokens_from(s, e));
            assert forall|k: int| 0 <= k < ts.len() implies 0 <= (#[trigger] ts[k]).0 < ts[k].1 <= s.len()
                && clean(s.subrange(ts[k].0, ts[k].1)) by {
                if k == 0 {
                    assert forall|m: int| 0 <= m < e - i implies !ascii_whitespace(#[trigger] s.subrange(i, e)[m]) && s.subrange(i, e)[m] != '"' by {
                        assert(s.subrange(i, e)[m] == s[i + m]);
                        if m > 0 {
                            assert(!ascii_whitespace(s[i + m]));
                        }
                        assert(s[i + m] != '"');
                    }
                } else {
                    assert(ts[k] == tokens_from(s, e)[k - 1]);
                }
            }
        }
    }
}

/// A term read from clean text without `in:` or `pivot:` is written back as exactly the
/// text it was read from.
proof fn lemma_renders_as_read(body: Seq<char>, span: (int, int))
    requires
        clean(body),
        term_of(body, span) matches Ok(k) && !(k is In) && !(k is Pivot),
    ensures
        term_of(body, span) matches Ok(k) && render_kind(k) == body,
{
    reveal_strlit("lens:");
    reveal_strlit("lens");
    reveal_strlit("vis:");
    reveal_strlit("vis");
    reveal_strlit("kind:");
    reveal_strlit("kind");
    reveal_strlit("cfg:");
    reveal_strlit("cfg");
    reveal_strlit(":");
    if body.len() > 0 && body[0] == '"' {
        assert(false);
    } else {
        let c = first_index(body, ':');
        crate::lang::swift::lemma_first_index(body, ':');
        if c >= 0 {
            let prefix = body.take(c);
            let value = body.skip(c + 1);
            assert(body =~= prefix + seq![':'] + value);
            assert("lens:"@ =~= "lens"@ + seq![':']);
            assert("vis:"@ =~= "vis"@ + seq![':']);
            assert("kind:"@ =~= "kind"@ + seq![':']);
            assert("cfg:"@ =~= "cfg"@ + seq![':']);
            assert(":"@ =~= seq![':']);
        }
    }
}

/// A character that may stand in a word: neither whitespace nor a quotation mark.
pub open spec fn word_char(c: char) -> bool {
    !ascii_whitespace(c) && c != '"'
}

/// An `in:` term read from clean text is written as a clean word, led by `in:`, that
/// reads back as the same term: its path written out parses to the same segments.
#[verifier::rlimit(40)]
proof fn lemma_in_rereads(body: Seq<char>, span: (int, int))
    requires
        clean(body),
        term_of(body, span) matches Ok(k) && k is In,
    ensures
        term_of(body, span) matches Ok(k) && {
            let w = render_kind(k);
            &&& w.len() > 0
            &&& clean(w)
            &&& w[0] == 'i'
            &&& !has_prefix(w, "config:"@)
            &&& term_of(w, (0, 0)) == Ok::<KindView, crate::query::ErrorView>(k)
        },
{
    reveal_strlit("lens");
    reveal_strlit("vis");
    reveal_strlit("kind");
    reveal_strlit("in");
    reveal_strlit("in:");
    reveal_strlit("config:");
    let c = first_index(body, ':');
    crate::lang::swift::lemma_first_index(body, ':');
    let prefix = body.take(c);
    let value = body.skip(c + 1);
    assert(prefix == "in"@);
    let p = crate::id::path_of(value)->Ok_0;
    assert(term_of(body, span) == Ok::<KindView, crate::query::ErrorView>(KindView::In(p)));
    let ok = |ch: char| word_char(ch);
    assert(crate::id::all_chars(value, ok)) by {
        assert forall|i: int| 0 <= i < value.len() implies ok(#[trigger] value[i]) by {
            assert(value[i] == body[i + c + 1]);
        }
    }
    assert forall|ch: char| crate::num::is_digit(ch) implies #[trigger] ok(ch) by {}
    crate::id::lemma_parsed_path_chars(value, ok);
    crate::id::lemma_parsed_path_round_trip(value);
    let r = crate::id::render_path(p);
    let w = "in:"@ + r;
    assert(w == render_kind(KindView::In(p)));
    assert(r.len() > 0) by {
        if r.len() == 0 {
            assert(crate::id::blank(r));
        }
    }
    assert(clean(w)) by {
        assert forall|i: int| 0 <= i < w.len() implies !ascii_whitespace(#[trigger] w[i]) && w[i] != '"' by {
            if i >= 3 {
                assert(w[i] == r[i - 3]);
                assert(ok(r[i - 3]));
            }
        }
    }
    crate::lang::swift::lemma_first_index(w, ':');
    assert(first_index(w, ':') == 2) by {
        assert(w[0] == 'i' && w[1] == 'n' && w[2] == ':');
        assert(w.drop_first().drop_first().drop_first().len() >= 0);
        assert(w.drop_first()[0] == 'n');
        assert(w.drop_first().drop_first()[0] == ':');
    }
    assert(w.take(2) =~= "in"@);
    assert(w.skip(3) =~= r);
    assert(!has_prefix(w, "config:"@)) by {
        if has_prefix(w, "config:"@) {
            assert(w.subrange(0, 7)[0] == w[0]);
        }
    }
}

/// A `pivot:` term read from clean text is written as a clean word, led by `pivot:`,
/// that reads back as the same term: the edge kind by its name, the path written out.
#[verifier::rlimit(40)]
proof fn lemma_pivot_rereads(body: Seq<char>, span: (int, int))
    requires
        clean(body),
        term_of(body, span) matches Ok(k) && k is Pivot,
    ensures
        term_of(body, span) matches Ok(k) && {
            let w = render_kind(k);
            &&& w.len() > 0
            &&& clean(w)
            &&& w[0] == 'p'
            &&& !has_prefix(w, "config:"@)
            &&& term_of(w, (0, 0)) == Ok::<KindView, crate::query::ErrorView>(k)
        },
{
    reveal_strlit("lens");
    reveal_strlit("vis");
    reveal_strlit("kind");
    reveal_strlit("in");
    reveal_strlit("cfg");
    reveal_strlit("pivot");
    reveal_strlit("pivot:");
    reveal_strlit(":");
    reveal_strlit("config:");
    let c = first_index(body, ':');
    crate::lang::swift::lemma_first_index(body, ':');
    let prefix = body.take(c);
    let value = body.skip(c + 1);
    assert(prefix == "pivot"@);
    let c2 = first_index(value, ':');
    crate::lang::swift::lemma_first_index(value, ':');
    let edge_name = value.take(c2);
    let target = value.skip(c2 + 1);
    let e = crate::query::parse::edge_named(edge_name)->Some_0;
    assert(e.spec_name() == edge_name);
    let p = crate::id::path_of(target)->Ok_0;
    assert(term_of(body, span) == Ok::<KindView, crate::query::ErrorView>(KindView::Pivot(e, p)));
    let ok = |ch: char| word_char(ch);
    assert(crate::id::all_chars(target, ok)) by {
        assert forall|i: int| 0 <= i < target.len() implies ok(#[trigger] target[i]) by {
            assert(target[i] == value[i + c2 + 1]);
            assert(value[i + c2 + 1] == body[i + c2 + 1 + c + 1]);
        }
    }
    assert forall|ch: char| crate::num::is_digit(ch) implies #[trigger] ok(ch) by {}
    crate::id::lemma_parsed_path_chars(target, ok);
    crate::id::lemma_parsed_path_round_trip(target);
    let r = crate::id::render_path(p);
    assert(r.len() > 0) by {
        if r.len() == 0 {
            assert(crate::id::blank(r));
        }
    }
    let name = e.spec_name();
    let value2 = name + ":"@ + r;
    let w = "pivot:"@ + value2;
    assert(w =~= render_kind(KindView::Pivot(e, p)));
    assert forall|i: int| 0 <= i < name.len() implies #[trigger] name[i] != ':' && word_char(name[i]) by {
        assert(name[i] == value[i]);
        assert(value[i] == body[i + c + 1]);
    }
    assert(clean(w)) by {
        assert forall|i: int| 0 <= i < w.len() implies !ascii_whitespace(#[trigger] w[i]) && w[i] != '"' by {
            if i >= 6 {
                assert(w[i] == value2[i - 6]);
                if i - 6 < name.len() {
                    assert(value2[i - 6] == name[i - 6]);
                } else if i - 6 > name.len() {
                    assert(value2[i - 6] == r[i - 6 - name.len() - 1]);
                    assert(ok(r[i - 6 - name.len() - 1]));
                }
            }
        }
    }
    crate::lang::swift::lemma_first_index(w, ':');
    assert(first_index(w, ':') == 5) by {
        assert forall|j: int| 0 <= j < 5 implies w[j] != ':' by {}
        assert(w[5] == ':');
        if first_index(w, ':') < 5 {
            assert(w[first_index(w, ':')] != ':');
        }
    }
    assert(w.take(5) =~= "pivot"@);
    assert(w.skip(6) =~= value2);
    crate::lang::swift::lemma_first_index(value2, ':');
    assert(first_index(value2, ':') == name.len() as int) by {
        assert(value2[name.len() as int] == ':');
        if first_index(value2, ':') < name.len() {
            assert(value2[first_index(value2, ':')] == name[first_index(value2, ':')]);
        }
    }
    assert(value2.take(name.len() as int) =~= name);
    assert(value2.skip(name.len() as int + 1) =~= r);
    let e2 = crate::query::parse::edge_named(name)->Some_0;
    crate::edge::EdgeKind::lemma_names_distinct(e, e2);
    assert(!has_prefix(w, "config:"@)) by {
        if has_prefix(w, "config:"@) {
            assert(w.subrange(0, 7)[0] == w[0]);
        }
    }
}

/// Whether a `config:` name reads back from its written form.
pub open spec fn good_config(c: Seq<char>) -> bool {
    c.len() > 0 && clean("config:"@ + c)
}

/// Reading parsed text, from the `k`-th token on, adds only terms that read back from
/// their written form, each written as exactly the token it came from.
proof fn lemma_read_good(
    s: Seq<char>,
    toks: Seq<(int, int)>,
    k: int,
    acc: Seq<TermView>,
    cfg: Option<(Seq<char>, int)>,
)
    requires
        0 <= k,
        forall|j: int| 0 <= j < toks.len() ==> 0 <= (#[trigger] toks[j]).0 < toks[j].1 <= s.len() && clean(s.subrange(toks[j].0, toks[j].1)),
        read_tokens(s, toks, k, acc, cfg) is Ok,
    ensures
        read_tokens(s, toks, k, acc, cfg) matches Ok(q)
            && acc.len() <= q.0.len()
            && q.0.take(acc.len() as int) == acc
            && (forall|i: int| acc.len() <= i < q.0.len() ==> good_term(#[trigger] q.0[i]))
            && (cfg matches Some(c) ==> q.1 == Some(c.0))
            && (cfg is None && q.1 is Some ==> good_config(q.1->0)),
    decreases toks.len() - k,
{
    reveal_strlit("config:");
    if k >= toks.len() {
        assert(acc.take(acc.len() as int) =~= acc);
    } else {
        let a = toks[k].0;
        let e = toks[k].1;
        let t = s.subrange(a, e);
        assert(clean(t));
        let negated = t.len() > 0 && t[0] == '!';
        let body = if negated { t.drop_first() } else { t };
        let ba = crate::text::byte_at(s, a);
        let be = crate::text::byte_at(s, e);
        let bs = if negated { ba + 1 } else { ba };
        assert(clean(body)) by {
            if negated {
                assert forall|m: int| 0 <= m < body.len() implies !ascii_whitespace(#[trigger] body[m]) && body[m] != '"' by {
                    assert(body[m] == t[m + 1]);
                }
            }
        }
        if body.len() == 0 {
        } else if has_prefix(body, "config:"@) {
            let name = body.skip(7);
            lemma_read_good(s, toks, k + 1, acc, Some((name, bs)));
            if cfg is None && !negated {
                assert(body =~= "config:"@ + name) by {
                    assert(body.subrange(0, 7) == "config:"@);
                }
            }
        } else {
            let kind = match term_of(body, (bs, be)) {
                Ok(kk) => kk,
                Err(_) => KindView::Name(Seq::empty()),
            };
            let next = acc.push((negated, kind, (ba, be)));
            lemma_read_good(s, toks, k + 1, next, cfg);
            let q = match read_tokens(s, toks, k, acc, cfg) {
                Ok(q) => q,
                Err(_) => (Seq::empty(), None),
            };
            assert(q.0.take(next.len() as int) == next);
            assert(q.0[acc.len() as int] == next[acc.len() as int]);
            let term = (negated, kind, (ba, be));
            if kind is In || kind is Pivot {
                if kind is In {
                    lemma_in_rereads(body, (bs, be));
                } else {
                    lemma_pivot_rereads(body, (bs, be));
                }
                let w = render_kind(kind);
                reveal_strlit("!");
                assert("!"@ =~= seq!['!']);
                let rt = render_term(term);
                if negated {
                    assert(rt =~= seq!['!'] + w);
                    assert(rt.drop_first() =~= w);
                    assert(clean(rt)) by {
                        assert forall|m: int| 0 <= m < rt.len() implies !ascii_whitespace(#[trigger] rt[m]) && rt[m] != '"' by {
                            if m > 0 {
                                assert(rt[m] == w[m - 1]);
                            }
                        }
                    }
                } else {
                    assert(rt == w);
                }
            } else {
                lemma_renders_as_read(body, (bs, be));
                lemma_term_span(body, (bs, be), (0, 0));
                assert(render_term(term) =~= t) by {
                    if negated {
                        reveal_strlit("!");
                        assert(t =~= seq!['!'] + body);
                        assert("!"@ =~= seq!['!']);
                    }
                }
            }
            assert(good_term(term));
            assert(q.0.take(acc.len() as int) =~= next.take(acc.len() as int));
            assert(next.take(acc.len() as int) =~= acc);
        }
    }
}

/// Writing a query out and reading it back gives the same query: the same terms, each
/// with its negation, in the same order, under the same `config:` directive.
///
/// Proved for every query written without quotation marks; an `in:` or `pivot:` path
/// may come back written differently (an ordinal's leading zeros dropped), but it reads
/// as the same path.
pub proof fn lemma_query_round_trip(text: Seq<char>)
    requires
        !text.contains('"'),
        query_of(text) is Ok,
    ensures
        query_of(text) matches Ok(q)
            && query_of(render_query(q)) matches Ok(r)
            && meaning(r.0) == meaning(q.0)
            && r.1 == q.1,
{
    reveal_strlit("config:");
    let toks = tokens_from(text, 0);
    lemma_tokens_plain(text, 0);
    lemma_read_good(text, toks, 0, Seq::empty(), None);
    let q = match query_of(text) {
        Ok(q) => q,
        Err(_) => (Seq::empty(), None),
    };
    assert(q.0.take(0) =~= Seq::<TermView>::empty());
    let out = render_query(q);
    lemma_render_query(q);
    let ws = words(q);
    let rendered = q.0.map_values(|t: TermView| render_term(t));
    let off: int = if q.1 is Some { 1 } else { 0 };
    assert forall|k: int| 0 <= k < ws.len() implies (#[trigger] ws[k]).len() > 0 && clean(ws[k]) by {
        if k >= off {
            assert(ws[k] == rendered[k - off]);
            assert(good_term(q.0[k - off]));
        } else {
            assert(ws[k] == "config:"@ + q.1->0);
        }
    }
    assert(out.subrange(0, out.len() as int) =~= out);
    lemma_tokens_spaced(out, 0, ws);
    let toks2 = tokens_from(out, 0);
    assert forall|j: int| 0 <= j < q.0.len() implies out.subrange((#[trigger] toks2[off + j]).0, toks2[off + j].1) == render_term(q.0[j]) by {
        assert(ws[off + j] == rendered[j]);
    }
    assert forall|j: int| 0 <= j < q.0.len() implies good_term(#[trigger] q.0[j]) by {}
    match q.1 {
        Some(c) => {
            // The directive comes first and is read as one.
            let w0 = out.subrange(toks2[0].0, toks2[0].1);
            assert(w0 == "config:"@ + c);
            assert(w0[0] == 'c');
            assert(has_prefix(w0, "config:"@)) by {
                assert(w0.subrange(0, 7) =~= "config:"@);
            }
            assert(w0.skip(7) =~= c);
            let bs = crate::text::byte_at(out, toks2[0].0);
            lemma_read_words(out, toks2, 1, 1, Seq::empty(), Some((c, bs)), q.0);
            assert(q.0.skip(0) =~= q.0);
        },
        None => {
            lemma_read_words(out, toks2, 0, 0, Seq::empty(), None, q.0);
            assert(q.0.skip(0) =~= q.0);
        },
    }
    assert(meaning(Seq::<TermView>::empty()) + meaning(q.0) =~= meaning(q.0));
}

} // verus!
