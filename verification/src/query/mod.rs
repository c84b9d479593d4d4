//! A predicate language over the index, shared verbatim by the filter box and the
//! programmatic surface.
//!
//! Whitespace-separated terms, implicitly conjoined. `!` negates a term. A bare word
//! fuzzy-matches the node name; a `"quoted phrase"` matches a literal substring. There
//! is deliberately no `or` and no grouping.
//!
//! | Form | Matches |
//! |---|---|
//! | `lens:<name>` | nodes carrying any facet of that lens |
//! | `<lens>:<subtype>` | nodes carrying that specific facet |
//! | `vis:<level>` | effective visibility at least that reachable |
//! | `kind:<kind>` | a universal node kind |
//! | `in:<path>` | subtree containment |
//! | `cfg:<text>` | gated by a matching variation predicate |
//! | `config:<name>` | evaluate under a named configuration |
//! | `pivot:<edge>:<node>` | the result set of following an edge |
//!
//! An unknown term is a parse error carrying the byte range that produced it and the
//! closest valid names; nothing is silently ignored.

pub mod parse;
pub mod eval;
pub mod round_trip;

use vstd::prelude::*;
use core::ops::Range;
use crate::edge::EdgeKind;
use crate::id::SeamPath;
use crate::id::SegmentView;
use crate::id::render_path;
use crate::model::Lens;
use crate::model::NodeKind;
use crate::model::Visibility;
use crate::text::push_str;

verus! {

/// What a single term matches.
#[derive(Debug, Clone, PartialEq, Eq)]
pub enum TermKind {
    /// Any facet of a lens.
    Lens(Lens),
    /// One specific facet subtype within a lens.
    Facet {
        /// The lens it belongs to.
        lens: Lens,
        /// The subtype name.
        subtype: String,
    },
    /// Effective visibility at least this reachable.
    Visibility(Visibility),
    /// A universal node kind.
    Kind(NodeKind),
    /// Containment beneath a path.
    In(SeamPath),
    /// A variation predicate whose text contains this.
    Cfg(String),
    /// The result set of following an edge from a node.
    Pivot {
        /// Which relation to follow.
        edge: EdgeKind,
        /// The node to follow it from, as a path.
        target: SeamPath,
    },
    /// A fuzzy match on the node name.
    Name(String),
    /// A literal substring of the node name.
    Phrase(String),
}

/// The value a [`TermKind`] carries.
pub enum KindView {
    /// See [`TermKind::Lens`].
    Lens(Lens),
    /// See [`TermKind::Facet`].
    Facet(Lens, Seq<char>),
    /// See [`TermKind::Visibility`].
    Visibility(Visibility),
    /// See [`TermKind::Kind`].
    Kind(NodeKind),
    /// See [`TermKind::In`].
    In(Seq<SegmentView>),
    /// See [`TermKind::Cfg`].
    Cfg(Seq<char>),
    /// See [`TermKind::Pivot`].
    Pivot(EdgeKind, Seq<SegmentView>),
    /// See [`TermKind::Name`].
    Name(Seq<char>),
    /// See [`TermKind::Phrase`].
    Phrase(Seq<char>),
}

impl View for TermKind {
    type V = KindView;

    open spec fn view(&self) -> KindView {
        match self {
            TermKind::Lens(l) => KindView::Lens(*l),
            TermKind::Facet { lens, subtype } => KindView::Facet(*lens, subtype@),
            TermKind::Visibility(v) => KindView::Visibility(*v),
            TermKind::Kind(k) => KindView::Kind(*k),
            TermKind::In(p) => KindView::In(p@),
            TermKind::Cfg(t) => KindView::Cfg(t@),
            TermKind::Pivot { edge, target } => KindView::Pivot(*edge, target@),
            TermKind::Name(n) => KindView::Name(n@),
            TermKind::Phrase(p) => KindView::Phrase(p@),
        }
    }
}

/// One term of a query, with where it came from.
#[derive(Debug, PartialEq, Eq)]
pub struct Term {
    /// Whether the term is negated.
    pub negated: bool,
    /// What it matches.
    pub kind: TermKind,
    /// The byte range in the source text that produced it.
    pub span: Range<usize>,
}

/// The value a [`Term`] carries: negation, kind, and byte span.
pub type TermView = (bool, KindView, (int, int));

impl View for Term {
    type V = TermView;

    open spec fn view(&self) -> TermView {
        (self.negated, self.kind@, (self.span.start as int, self.span.end as int))
    }
}

/// A parsed query: conjoined terms plus the configuration to evaluate them under.
#[derive(Debug, PartialEq, Eq)]
pub struct Query {
    /// The terms, in the order written.
    pub terms: Vec<Term>,
    /// The configuration named by a `config:` directive, when one was given.
    pub configuration: Option<String>,
}

/// The value a [`Query`] carries.
pub type QueryView = (Seq<TermView>, Option<Seq<char>>);

/// The view of a list of terms.
pub open spec fn terms_view(terms: Seq<Term>) -> Seq<TermView> {
    terms.map_values(|t: Term| t@)
}

/// The view of an optional string.
pub open spec fn opt_view(s: Option<String>) -> Option<Seq<char>> {
    match s {
        Some(t) => Some(t@),
        None => None,
    }
}

impl View for Query {
    type V = QueryView;

    open spec fn view(&self) -> QueryView {
        (terms_view(self.terms@), opt_view(self.configuration))
    }
}

impl Default for Query {
    fn default() -> (r: Self)
        ensures
            r.terms@.len() == 0,
            r.configuration is None,
    {
        Query { terms: Vec::new(), configuration: None }
    }
}

/// How a term kind is written.
pub open spec fn render_kind(k: KindView) -> Seq<char> {
    match k {
        KindView::Lens(l) => "lens:"@ + l.spec_name(),
        KindView::Facet(l, s) => l.spec_name() + ":"@ + s,
        KindView::Visibility(v) => "vis:"@ + v.spec_name(),
        KindView::Kind(n) => "kind:"@ + n.spec_name(),
        KindView::In(p) => "in:"@ + render_path(p),
        KindView::Cfg(t) => "cfg:"@ + t,
        KindView::Pivot(e, p) => "pivot:"@ + e.spec_name() + ":"@ + render_path(p),
        KindView::Name(n) => n,
        KindView::Phrase(p) => "\""@ + p + "\""@,
    }
}

/// How a term is written: `!` when negated, then its kind.
pub open spec fn render_term(t: TermView) -> Seq<char> {
    if t.0 {
        "!"@ + render_kind(t.1)
    } else {
        render_kind(t.1)
    }
}

/// The terms written one after another, each preceded by a space unless it opens the
/// text.
pub open spec fn render_terms(terms: Seq<TermView>, first: bool) -> Seq<char>
    decreases terms.len(),
{
    if terms.len() == 0 {
        Seq::empty()
    } else {
        (if first { Seq::empty() } else { " "@ }) + render_term(terms[0]) + render_terms(terms.drop_first(), false)
    }
}

/// How a query is written: its `config:` directive first, then its terms.
pub open spec fn render_query(q: QueryView) -> Seq<char> {
    match q.1 {
        Some(c) => "config:"@ + c + render_terms(q.0, false),
        None => render_terms(q.0, true),
    }
}

impl TermKind {
    /// The term kind as written.
    pub fn to_text(&self) -> (r: String)
        ensures
            r@ == render_kind(self@),
    {
        let mut s = String::new();
        match self {
            TermKind::Lens(l) => {
                push_str(&mut s, "lens:");
                push_str(&mut s, l.name());
            },
            TermKind::Facet { lens, subtype } => {
                push_str(&mut s, lens.name());
                push_str(&mut s, ":");
                push_str(&mut s, subtype.as_str());
            },
            TermKind::Visibility(v) => {
                push_str(&mut s, "vis:");
                push_str(&mut s, v.name());
            },
            TermKind::Kind(k) => {
                push_str(&mut s, "kind:");
                push_str(&mut s, k.name());
            },
            TermKind::In(p) => {
                push_str(&mut s, "in:");
                let t = p.to_text();
                push_str(&mut s, t.as_str());
            },
            TermKind::Cfg(t) => {
                push_str(&mut s, "cfg:");
                push_str(&mut s, t.as_str());
            },
            TermKind::Pivot { edge, target } => {
                push_str(&mut s, "pivot:");
                push_str(&mut s, edge.name());
                push_str(&mut s, ":");
                let t = target.to_text();
                push_str(&mut s, t.as_str());
            },
            TermKind::Name(n) => {
                push_str(&mut s, n.as_str());
            },
            TermKind::Phrase(p) => {
                push_str(&mut s, "\"");
                push_str(&mut s, p.as_str());
                push_str(&mut s, "\"");
            },
        }
        assert(s@ =~= render_kind(self@));
        s
    }
}

impl Term {
    /// The term as written.
    pub fn to_text(&self) -> (r: String)
        ensures
            r@ == render_term(self@),
    {
        let mut s = String::new();
        if self.negated {
            push_str(&mut s, "!");
        }
        let k = self.kind.to_text();
        push_str(&mut s, k.as_str());
        assert(s@ =~= render_term(self@));
        s
    }
}

impl Query {
    /// Whether the query constrains anything at all.
    pub fn is_empty(&self) -> (r: bool)
        ensures
            r == (self.terms@.len() == 0 && self.configuration is None),
    {
        self.terms.len() == 0 && self.configuration.is_none()
    }

    /// The subtree this query is rooted at: the path of its first non-negated `in:`
    /// term, if it has one.
    pub fn root(&self) -> (r: Option<&SeamPath>)
        ensures
            match r {
                Some(p) => exists|i: int| 0 <= i < self.terms@.len() && !self.terms@[i].negated
                    && self.terms@[i].kind == TermKind::In(*p)
                    && forall|j: int| 0 <= j < i ==> !(!(#[trigger] self.terms@[j]).negated && self.terms@[j].kind is In),
                None => forall|j: int| 0 <= j < self.terms@.len() ==> !(!(#[trigger] self.terms@[j]).negated && self.terms@[j].kind is In),
            },
    {
        let mut i: usize = 0;
        while i < self.terms.len()
            invariant
                i <= self.terms@.len(),
                forall|j: int| 0 <= j < i ==> !(!(#[trigger] self.terms@[j]).negated && self.terms@[j].kind is In),
            decreases self.terms.len() - i,
        {
            let term = &self.terms[i];
            if !term.negated {
                match &term.kind {
                    TermKind::In(path) => {
                        return Some(path);
                    },
                    _ => {},
                }
            }
            i = i + 1;
        }
        None
    }

    /// The lenses this query filters on: those of its non-negated `lens:` and
    /// `<lens>:<subtype>` terms, in order.
    pub fn lenses(&self) -> (r: Vec<Lens>)
        ensures
            r@ == self.terms@.filter(|t: Term| !t.negated && (t.kind is Lens || t.kind is Facet)).map_values(
                |t: Term| lens_of(t.kind),
            ),
    {
        let ghost pred = |t: Term| !t.negated && (t.kind is Lens || t.kind is Facet);
        let ghost f = |t: Term| lens_of(t.kind);
        let mut out: Vec<Lens> = Vec::new();
        let mut i: usize = 0;
        while i < self.terms.len()
            invariant
                i <= self.terms@.len(),
                pred == (|t: Term| !t.negated && (t.kind is Lens || t.kind is Facet)),
                f == (|t: Term| lens_of(t.kind)),
                out@ == self.terms@.subrange(0, i as int).filter(pred).map_values(f),
            decreases self.terms.len() - i,
        {
            proof {
                let pre = self.terms@.subrange(0, i as int);
                assert(self.terms@.subrange(0, i + 1) =~= pre.push(self.terms@[i as int]));
                pre.lemma_filter_push(self.terms@[i as int], pred);
            }
            let term = &self.terms[i];
            if !term.negated {
                match &term.kind {
                    TermKind::Lens(l) => {
                        let ghost o0 = out@;
                        out.push(*l);
                        assert(out@ =~= self.terms@.subrange(0, i + 1).filter(pred).map_values(f));
                    },
                    TermKind::Facet { lens, .. } => {
                        out.push(*lens);
                        assert(out@ =~= self.terms@.subrange(0, i + 1).filter(pred).map_values(f));
                    },
                    _ => {},
                }
            }
            i = i + 1;
        }
        assert(self.terms@.subrange(0, self.terms@.len() as int) =~= self.terms@);
        out
    }

    /// The query as written, so UI state round-trips through a string.
    pub fn to_text(&self) -> (r: String)
        ensures
            r@ == render_query(self@),
    {
        let mut s = String::new();
        let mut first = true;
        match &self.configuration {
            Some(c) => {
                push_str(&mut s, "config:");
                push_str(&mut s, c.as_str());
                first = false;
            },
            None => {},
        }
        let ghost head = s@;
        let ghost tv = terms_view(self.terms@);
        let ghost first0 = first;
        let mut i: usize = 0;
        assert(tv.skip(0) =~= tv);
        while i < self.terms.len()
            invariant
                i <= self.terms@.len(),
                tv == terms_view(self.terms@),
                first == (first0 && i == 0),
                s@ + render_terms(tv.skip(i as int), first) == head + render_terms(tv, first0),
            decreases self.terms.len() - i,
        {
            proof {
                let rest = tv.skip(i as int);
                assert(rest[0] == self.terms@[i as int]@);
                assert(rest.drop_first() =~= tv.skip(i + 1));
            }
            if !first {
                push_str(&mut s, " ");
            }
            let t = self.terms[i].to_text();
            push_str(&mut s, t.as_str());
            first = false;
            i = i + 1;
        }
        assert(tv.skip(tv.len() as int) =~= Seq::<TermView>::empty());
        assert(s@ =~= head + render_terms(tv, first0));
        s
    }
}

/// The lens a `lens:` or `<lens>:<subtype>` term names.
pub open spec fn lens_of(k: TermKind) -> Lens {
    match k {
        TermKind::Lens(l) => l,
        TermKind::Facet { lens, .. } => lens,
        _ => Lens::Api,
    }
}

/// A positioned parse failure, with the closest valid alternatives.
#[derive(Debug, PartialEq, Eq)]
pub struct QueryError {
    /// What went wrong, phrased for the reader.
    pub message: String,
    /// The byte range of the offending text, for a caret under the filter box.
    pub span: Range<usize>,
    /// The nearest valid names, when the failure was an unrecognized one.
    pub suggestions: Vec<String>,
}

/// The values a [`QueryError`] carries: message, byte span, suggestions.
pub type ErrorView = (Seq<char>, (int, int), Seq<Seq<char>>);

/// The view of a list of strings.
pub open spec fn texts(v: Seq<String>) -> Seq<Seq<char>> {
    v.map_values(|s: String| s@)
}

impl View for QueryError {
    type V = ErrorView;

    open spec fn view(&self) -> ErrorView {
        (self.message@, (self.span.start as int, self.span.end as int), texts(self.suggestions@))
    }
}

/// `parts` joined with `", "`.
pub open spec fn joined(parts: Seq<Seq<char>>) -> Seq<char>
    decreases parts.len(),
{
    if parts.len() == 0 {
        Seq::empty()
    } else if parts.len() == 1 {
        parts[0]
    } else {
        parts[0] + ", "@ + joined(parts.drop_first())
    }
}

impl QueryError {
    /// A failure at `span` with no suggestions.
    pub fn new(message: String, span: Range<usize>) -> (r: Self)
        ensures
            r.message == message,
            r.span == span,
            r.suggestions@.len() == 0,
    {
        QueryError { message, span, suggestions: Vec::new() }
    }

    /// This failure with alternatives attached.
    pub fn with_suggestions(self, suggestions: Vec<String>) -> (r: Self)
        ensures
            r == (QueryError { suggestions: suggestions, ..self }),
    {
        QueryError { suggestions, ..self }
    }

    /// The message plus its suggestions, as one line for a terminal.
    pub fn describe(&self) -> (r: String)
        ensures
            r@ == if self.suggestions@.len() == 0 {
                self.message@
            } else {
                self.message@ + " (did you mean "@ + joined(texts(self.suggestions@)) + "?)"@
            },
    {
        let mut s = self.message.clone();
        if self.suggestions.len() == 0 {
            return s;
        }
        push_str(&mut s, " (did you mean ");
        let ghost parts = texts(self.suggestions@);
        let ghost head = s@;
        let mut i: usize = 0;
        while i < self.suggestions.len()
            invariant
                1 <= self.suggestions@.len(),
                i <= self.suggestions@.len(),
                parts == texts(self.suggestions@),
                i == 0 ==> s@ == head,
                i > 0 ==> s@ + (if i < parts.len() { ", "@ + joined(parts.skip(i as int)) } else { Seq::<char>::empty() }) == head + joined(parts),
            decreases self.suggestions.len() - i,
        {
            proof {
                lemma_joined_skip(parts, i as int);
            }
            if i > 0 {
                push_str(&mut s, ", ");
            }
            push_str(&mut s, self.suggestions[i].as_str());
            i = i + 1;
        }
        push_str(&mut s, "?)");
        s
    }
}

proof fn lemma_joined_skip(parts: Seq<Seq<char>>, i: int)
    requires
        0 <= i < parts.len(),
    ensures
        joined(parts.skip(i)) == if i + 1 < parts.len() {
            parts[i] + ", "@ + joined(parts.skip(i + 1))
        } else {
            parts[i]
        },
{
    let rest = parts.skip(i);
    assert(rest[0] == parts[i]);
    assert(rest.drop_first() =~= parts.skip(i + 1));
}

} // verus!
