//! Evaluating a query against an index.
//!
//! Evaluation reads the index and returns a node set, never mutating anything. A bare
//! word ranks node names fuzzily, which is a whole-set operation done by an outside
//! matcher: evaluation stops at such a term, hands over the names to rank, and resumes
//! with the ranking.

use vstd::prelude::*;
use crate::edge::Edge;
use crate::edge::EdgeKind;
use crate::edge::Endpoint;
use crate::id::SeamId;
use crate::id::SegmentView;
use crate::id::id_for;
use crate::id::segments_under;
use crate::index::IndexView;
use crate::index::SeamIndex;
use crate::index::preorder;
use crate::model::ConfigMembership;
use crate::model::Lens;
use crate::model::Node;
use crate::model::first_effective;
use crate::model::facets_of_lens;
use crate::query::KindView;
use crate::query::Query;
use crate::query::TermKind;
use crate::query::TermView;
use crate::query::terms_view;
use crate::query::opt_view;
use crate::text::contains_seq;

verus! {

/// The node set a query selects, plus the configuration it asked for.
#[derive(Debug, Clone, PartialEq, Eq)]
pub struct QueryResult {
    /// The matching nodes, in the index's traversal order.
    pub nodes: Vec<SeamId>,
    /// The configuration the query asked to be evaluated under, if it named one.
    pub configuration: Option<String>,
}

impl QueryResult {
    /// How many nodes matched.
    pub fn len(&self) -> (r: usize)
        ensures
            r == self.nodes@.len(),
    {
        self.nodes.len()
    }

    /// Whether nothing matched.
    pub fn is_empty(&self) -> (r: bool)
        ensures
            r == (self.nodes@.len() == 0),
    {
        self.nodes.len() == 0
    }
}

/// Whether `edge` relates `source` to `other` under `kind`, in either direction.
pub open spec fn pivot_hit(e: Edge, kind: EdgeKind, source: SeamId, other: SeamId) -> bool {
    e.kind == kind && ((e.from == source && e.to == Endpoint::Resolved(other)) || (e.to == Endpoint::Resolved(source)
        && e.from == other))
}

/// Whether node `n` matches a term that needs only the node itself.
pub open spec fn simple_hit(v: IndexView, n: Node, kind: KindView) -> bool {
    match kind {
        KindView::Lens(l) => exists|i: int| 0 <= i < n.facets@.len() && n.facets@[i].lens == l,
        KindView::Facet(l, st) => exists|i: int| 0 <= i < n.facets@.len() && n.facets@[i].lens == l && n.facets@[i].subtype.0@ == st,
        KindView::Visibility(level) => match (match first_effective(n.facets@) {
            Some(reach) => Some(reach),
            None => n.visibility,
        }) {
            Some(actual) => actual.spec_rank() >= level.spec_rank(),
            None => false,
        },
        KindView::Kind(k) => n.kind == k,
        KindView::In(p) => n.id.0 < v.paths.len() && segments_under(v.paths[n.id.0 as int], p),
        KindView::Cfg(t) => (n.membership != ConfigMembership::Active && facets_of_lens(n.facets@, Lens::Variation).len() > 0)
            || exists|i: int| 0 <= i < n.facets@.len() && n.facets@[i].lens == Lens::Variation && n.facets@[i].detail is Some
                && contains_seq(n.facets@[i].detail->0@, t),
        _ => false,
    }
}

/// Whether candidate `id` matches a term, before negation, for every term but a
/// non-empty bare word.
pub open spec fn term_hit(v: IndexView, kind: KindView, id: SeamId) -> bool {
    match kind {
        KindView::Pivot(edge, target) => exists|k: int|
            0 <= k < v.paths.len() && v.paths[k] == target && exists|i: int|
                0 <= i < v.edges.len() && pivot_hit(v.edges[i], edge, SeamId(id_for(k)), id),
        KindView::Phrase(p) => v.nodes.contains_key(id) && contains_seq(v.nodes[id].name@, p),
        KindView::Name(pattern) => pattern.len() == 0,
        _ => v.nodes.contains_key(id) && simple_hit(v, v.nodes[id], kind),
    }
}

/// Whether a term is a non-empty bare word, which needs a fuzzy ranking.
pub open spec fn needs_ranking(t: TermView) -> bool {
    t.1 matches KindView::Name(p) && p.len() > 0
}

/// The candidates a term keeps: those whose match differs from its negation.
pub open spec fn kept_by(v: IndexView, t: TermView, cs: Seq<SeamId>) -> Seq<SeamId> {
    cs.filter(|id: SeamId| term_hit(v, t.1, id) != t.0)
}

/// The candidates left after each of `terms` in turn.
pub open spec fn applied(v: IndexView, cs: Seq<SeamId>, terms: Seq<TermView>) -> Seq<SeamId>
    decreases terms.len(),
{
    if terms.len() == 0 {
        cs
    } else {
        applied(v, kept_by(v, terms[0], cs), terms.drop_first())
    }
}

/// The candidates a bare-word term keeps, given the positions the ranking matched.
pub open spec fn kept_by_rank(cs: Seq<SeamId>, ranked: Seq<usize>, negated: bool) -> Seq<SeamId> {
    cs.filter(|id: SeamId| (exists|p: int| 0 <= p < ranked.len() && ranked[p] < cs.len() && cs[ranked[p] as int] == id) != negated)
}

/// Every root's subtree, parents first, one after another.
pub open spec fn walked(v: IndexView, roots: Seq<SeamId>) -> Seq<SeamId>
    decreases roots.len(),
{
    if roots.len() == 0 {
        Seq::empty()
    } else {
        preorder(v.nodes, roots[0], v.nodes.dom().len()) + walked(v, roots.drop_first())
    }
}

/// Whether `ids` strictly ascend.
pub open spec fn ids_ascending(ids: Seq<SeamId>) -> bool {
    forall|i: int, j: int| 0 <= i < j < ids.len() ==> (#[trigger] ids[i]).0 < (#[trigger] ids[j]).0
}

/// The ids no walk reaches, in ascending order.
pub open spec fn unwalked(v: IndexView, seen: Seq<SeamId>) -> Seq<SeamId> {
    choose|r: Seq<SeamId>| ids_ascending(r) && forall|id: SeamId| r.contains(id) <==> (v.nodes.contains_key(id) && !seen.contains(id))
}

/// Where evaluation starts: every root's subtree, then — when that misses some node —
/// every node no root reaches, in id order.
pub open spec fn starting_set(v: IndexView) -> Seq<SeamId> {
    let w = walked(v, v.roots);
    if w.len() < v.nodes.dom().len() {
        w + unwalked(v, w)
    } else {
        w
    }
}

proof fn lemma_ids_ascending_unique(a: Seq<SeamId>, b: Seq<SeamId>)
    requires
        ids_ascending(a),
        ids_ascending(b),
        forall|x: SeamId| a.contains(x) <==> b.contains(x),
    ensures
        a == b,
    decreases a.len(),
{
    if a.len() == 0 {
        if b.len() > 0 {
            assert(b.contains(b[0]));
        }
        assert(a =~= b);
    } else {
        assert(a.contains(a[0]));
        assert(b.contains(b[0]));
        assert(a[0] == b[0]) by {
            let ja = choose|j: int| 0 <= j < a.len() && a[j] == b[0];
            let jb = choose|j: int| 0 <= j < b.len() && b[j] == a[0];
            if a[0] != b[0] {
                assert(ja > 0 && jb > 0);
                assert(a[0].0 < a[ja].0);
                assert(b[0].0 < b[jb].0);
            }
        }
        let a1 = a.drop_first();
        let b1 = b.drop_first();
        assert forall|x: SeamId| a1.contains(x) <==> b1.contains(x) by {
            if a1.contains(x) {
                let j = choose|j: int| 0 <= j < a1.len() && a1[j] == x;
                assert(a[j + 1] == x);
                assert(a.contains(x));
                assert(a[0].0 < x.0);
                let k = choose|k: int| 0 <= k < b.len() && b[k] == x;
                assert(k > 0);
                assert(b1[k - 1] == x);
            }
            if b1.contains(x) {
                let j = choose|j: int| 0 <= j < b1.len() && b1[j] == x;
                assert(b[j + 1] == x);
                assert(b.contains(x));
                assert(b[0].0 < x.0);
                let k = choose|k: int| 0 <= k < a.len() && a[k] == x;
                assert(k > 0);
                assert(a1[k - 1] == x);
            }
        }
        assert(ids_ascending(a1)) by {
            assert forall|i: int, j: int| 0 <= i < j < a1.len() implies (#[trigger] a1[i]).0 < (#[trigger] a1[j]).0 by {
                assert(a1[i] == a[i + 1] && a1[j] == a[j + 1]);
            }
        }
        assert(ids_ascending(b1)) by {
            assert forall|i: int, j: int| 0 <= i < j < b1.len() implies (#[trigger] b1[i]).0 < (#[trigger] b1[j]).0 by {
                assert(b1[i] == b[i + 1] && b1[j] == b[j + 1]);
            }
        }
        lemma_ids_ascending_unique(a1, b1);
        assert(a =~= seq![a[0]] + a1);
        assert(b =~= seq![b[0]] + b1);
    }
}

/// A query evaluation in progress: the candidates still standing and the next term.
pub struct Evaluation {
    candidates: Vec<SeamId>,
    next: usize,
}

/// What an evaluation needs next.
pub enum EvalStep {
    /// Every term is applied; this is the result.
    Finished(QueryResult),
    /// A bare word needs ranking: rank `names` (one per remaining candidate, in
    /// candidate order, empty for an id the index does not hold) against `pattern`, and
    /// hand back the positions that matched.
    Rank {
        /// The bare word.
        pattern: String,
        /// The candidates' names.
        names: Vec<String>,
    },
}

impl Evaluation {
    /// The candidates still standing.
    pub closed spec fn standing(&self) -> Seq<SeamId> {
        self.candidates@
    }

    /// How many terms have been applied.
    pub closed spec fn done(&self) -> nat {
        self.next as nat
    }

    /// Start evaluating against `index`: every node, roots' subtrees first and parents
    /// before children, so results are stable.
    pub fn begin(index: &SeamIndex) -> (r: Self)
        requires
            index.wf(),
        ensures
            r.standing() == starting_set(index@),
            r.done() == 0,
    {
        let ghost v = index@;
        let roots = index.roots();
        let mut out: Vec<SeamId> = Vec::new();
        let mut i: usize = 0;
        assert(roots@.skip(0) =~= roots@);
        assert(out@ + walked(index@, roots@) =~= walked(index@, roots@));
        while i < roots.len()
            invariant
                index.wf(),
                roots@ == index@.roots,
                i <= roots@.len(),
                out@ + walked(index@, roots@.skip(i as int)) == walked(index@, roots@),
            decreases roots.len() - i,
        {
            proof {
                assert(roots@.skip(i as int)[0] == roots@[i as int]);
                assert(roots@.skip(i as int).drop_first() =~= roots@.skip(i + 1));
            }
            let sub = index.subtree(roots[i]);
            let ghost o0 = out@;
            let mut j: usize = 0;
            while j < sub.len()
                invariant
                    j <= sub@.len(),
                    out@ == o0 + sub@.take(j as int),
                decreases sub.len() - j,
            {
                out.push(sub[j]);
                assert(o0 + sub@.take(j + 1) =~= (o0 + sub@.take(j as int)).push(sub@[j as int]));
                j = j + 1;
            }
            assert(sub@.take(sub@.len() as int) =~= sub@);
            i = i + 1;
        }
        assert(roots@.skip(roots@.len() as int) =~= Seq::<SeamId>::empty());
        assert(out@ + Seq::<SeamId>::empty() =~= out@);
        let ghost w = out@;
        if out.len() < index.len() {
            let nodes = index.nodes();
            let mut orphans: Vec<SeamId> = Vec::new();
            let mut k: usize = 0;
            while k < nodes.len()
                invariant
                    index.wf(),
                    k <= nodes@.len(),
                    w == out@,
                    forall|x: int| 0 <= x < nodes@.len() ==> index@.nodes.contains_key(#[trigger] nodes@[x].id),
                    forall|id: SeamId| index@.nodes.contains_key(id) ==> exists|x: int| 0 <= x < nodes@.len() && #[trigger] nodes@[x].id == id,
                    nodes@.len() == index@.nodes.dom().len(),
                    forall|x: int| 0 <= x < orphans@.len() ==> index@.nodes.contains_key(#[trigger] orphans@[x]) && !w.contains(orphans@[x]),
                    forall|x: int| 0 <= x < k && !w.contains(#[trigger] nodes@[x].id) ==> orphans@.contains(nodes@[x].id),
                    orphans@.no_duplicates(),
                decreases nodes.len() - k,
            {
                let id = nodes[k].id;
                if !crate::index::ids_contain(out.as_slice(), id) && !crate::index::ids_contain(orphans.as_slice(), id) {
                    let ghost o0 = orphans@;
                    orphans.push(id);
                    proof {
                        assert(orphans@.no_duplicates()) by {
                            assert forall|x: int, y: int| 0 <= x < orphans@.len() && 0 <= y < orphans@.len() && x != y implies orphans@[x] != orphans@[y] by {
                                if x == o0.len() {
                                    assert(!o0.contains(id));
                                    assert(orphans@[y] == o0[y]);
                                } else if y == o0.len() {
                                    assert(!o0.contains(id));
                                    assert(orphans@[x] == o0[x]);
                                } else {
                                    assert(orphans@[x] == o0[x] && orphans@[y] == o0[y]);
                                }
                            }
                        }
                        assert forall|x: int| 0 <= x < k + 1 && !w.contains(#[trigger] nodes@[x].id) implies orphans@.contains(nodes@[x].id) by {
                            if x < k {
                                if !o0.contains(nodes@[x].id) {
                                }
                                let y = choose|y: int| 0 <= y < o0.len() && o0[y] == nodes@[x].id;
                                assert(orphans@[y] == nodes@[x].id);
                            } else {
                                assert(orphans@[o0.len() as int] == nodes@[x].id);
                            }
                        }
                    }
                }
                k = k + 1;
            }
            let sorted = crate::index::sort_ids(orphans);
            proof {
                assert forall|id: SeamId| orphans@.contains(id) <==> (index@.nodes.contains_key(id) && !w.contains(id)) by {
                    if orphans@.contains(id) {
                        let x = choose|x: int| 0 <= x < orphans@.len() && orphans@[x] == id;
                    }
                    if index@.nodes.contains_key(id) && !w.contains(id) {
                        let x = choose|x: int| 0 <= x < nodes@.len() && nodes@[x].id == id;
                    }
                }
                lemma_sorted_orphans(orphans@, sorted@, index@, w);
            }
            let mut s: usize = 0;
            while s < sorted.len()
                invariant
                    s <= sorted@.len(),
                    out@ == w + sorted@.take(s as int),
                decreases sorted.len() - s,
            {
                out.push(sorted[s]);
                assert(w + sorted@.take(s + 1) =~= (w + sorted@.take(s as int)).push(sorted@[s as int]));
                s = s + 1;
            }
            assert(sorted@.take(sorted@.len() as int) =~= sorted@);
        }
        Evaluation { candidates: out, next: 0 }
    }
}

proof fn lemma_no_repeat(orphans: Seq<SeamId>, sorted: Seq<SeamId>, i: int, j: int)
    requires
        orphans.no_duplicates(),
        sorted.to_multiset() == orphans.to_multiset(),
        0 <= i < j < sorted.len(),
    ensures
        sorted[i] != sorted[j],
{
    broadcast use vstd::seq_lib::group_to_multiset_ensures;
    if sorted[i] != sorted[j] {
        return;
    }
    let x = sorted[i];
    sorted.to_multiset_ensures();
    let rest = sorted.remove(j);
    rest.to_multiset_ensures();
    assert(rest[i] == x);
    assert(rest.contains(x));
    assert(rest.to_multiset().count(x) > 0);
    assert(sorted.to_multiset().count(x) >= 2);
    orphans.lemma_multiset_has_no_duplicates();
    assert(orphans.to_multiset().count(x) <= 1);
}

proof fn lemma_sorted_orphans(orphans: Seq<SeamId>, sorted: Seq<SeamId>, v: IndexView, w: Seq<SeamId>)
    requires
        orphans.no_duplicates(),
        sorted.to_multiset() == orphans.to_multiset(),
        forall|i: int, j: int| 0 <= i < j < sorted.len() ==> (#[trigger] sorted[i]).0 <= (#[trigger] sorted[j]).0,
        forall|id: SeamId| orphans.contains(id) <==> (v.nodes.contains_key(id) && !w.contains(id)),
    ensures
        sorted == unwalked(v, w),
{
    broadcast use vstd::seq_lib::group_to_multiset_ensures;
    orphans.to_multiset_ensures();
    sorted.to_multiset_ensures();
    assert forall|id: SeamId| sorted.contains(id) <==> (v.nodes.contains_key(id) && !w.contains(id)) by {
        if sorted.contains(id) {
            assert(sorted.to_multiset().count(id) > 0);
        }
        if orphans.contains(id) {
            assert(orphans.to_multiset().count(id) > 0);
        }
    }
    assert forall|i: int, j: int| 0 <= i < j < sorted.len() implies (#[trigger] sorted[i]).0 < (#[trigger] sorted[j]).0 by {
        lemma_no_repeat(orphans, sorted, i, j);
        if sorted[i].0 == sorted[j].0 {
            assert(sorted[i] == sorted[j]);
        }
    }
    let r = unwalked(v, w);
    assert(ids_ascending(sorted));
    assert(exists|q: Seq<SeamId>| ids_ascending(q) && forall|id: SeamId| q.contains(id) <==> (v.nodes.contains_key(id) && !w.contains(id)));
    lemma_ids_ascending_unique(sorted, r);
}

/// The names ranking sees: each candidate's node name, empty for an id the index does
/// not hold.
pub open spec fn names_of(v: IndexView, cs: Seq<SeamId>) -> Seq<Seq<char>> {
    cs.map_values(|id: SeamId| if v.nodes.contains_key(id) { v.nodes[id].name@ } else { Seq::<char>::empty() })
}

/// Whether node `n` matches a term that needs only the node itself.
fn simple_match(index: &SeamIndex, n: &Node, kind: &TermKind) -> (r: bool)
    requires
        index.wf(),
    ensures
        r == simple_hit(index@, *n, kind@),
{
    match kind {
        TermKind::Lens(l) => n.has_lens(*l),
        TermKind::Facet { lens, subtype } => n.has_subtype(*lens, subtype.as_str()),
        TermKind::Visibility(level) => match n.effective_visibility() {
            Some(actual) => actual.rank() >= level.rank(),
            None => false,
        },
        TermKind::Kind(k) => n.kind == *k,
        TermKind::In(path) => match index.path(n.id) {
            Some(actual) => actual.is_under(path),
            None => false,
        },
        TermKind::Cfg(text) => {
            let needle = crate::text::chars_of(text.as_str());
            let mut gated = false;
            let mut mentions = false;
            let mut i: usize = 0;
            proof {
                let pred = |f: crate::model::Facet| f.lens == Lens::Variation;
                assert(n.facets@.subrange(0, 0) =~= Seq::<crate::model::Facet>::empty());
                assert(n.facets@.subrange(0, 0).filter(pred) =~= Seq::<crate::model::Facet>::empty()) by {
                    reveal(Seq::filter);
                }
            }
            while i < n.facets.len()
                invariant
                    i <= n.facets@.len(),
                    needle@ == text@,
                    gated == (facets_of_lens(n.facets@.subrange(0, i as int), Lens::Variation).len() > 0),
                    mentions == exists|j: int| 0 <= j < i && n.facets@[j].lens == Lens::Variation && n.facets@[j].detail is Some
                        && contains_seq(n.facets@[j].detail->0@, text@),
                decreases n.facets.len() - i,
            {
                let facet = &n.facets[i];
                proof {
                    let pre = n.facets@.subrange(0, i as int);
                    assert(n.facets@.subrange(0, i + 1) =~= pre.push(n.facets@[i as int]));
                    pre.lemma_filter_push(n.facets@[i as int], |f: crate::model::Facet| f.lens == Lens::Variation);
                }
                if facet.lens == Lens::Variation {
                    gated = true;
                    match &facet.detail {
                        Some(detail) => {
                            let hay = crate::text::chars_of(detail.as_str());
                            if crate::text::chars_contain(hay.as_slice(), needle.as_slice()) {
                                mentions = true;
                            }
                        },
                        None => {},
                    }
                }
                i = i + 1;
            }
            assert(n.facets@.subrange(0, n.facets@.len() as int) =~= n.facets@);
            (n.membership != ConfigMembership::Active && gated) || mentions
        },
        _ => false,
    }
}

/// The ids on the other end of `edge` from `source`, in either direction.
fn pivot_hits(index: &SeamIndex, edge: EdgeKind, source: SeamId) -> (r: Vec<SeamId>)
    ensures
        forall|id: SeamId| r@.contains(id) <==> exists|i: int| 0 <= i < index@.edges.len() && pivot_hit(index@.edges[i], edge, source, id),
{
    let edges = index.edges().all();
    let mut out: Vec<SeamId> = Vec::new();
    let mut i: usize = 0;
    while i < edges.len()
        invariant
            i <= edges@.len(),
            edges@ == index@.edges,
            forall|id: SeamId| out@.contains(id) <==> exists|x: int| 0 <= x < i && pivot_hit(edges@[x], edge, source, id),
        decreases edges.len() - i,
    {
        let e = &edges[i];
        let ghost o0 = out@;
        if e.kind == edge {
            if e.from == source {
                match &e.to {
                    Endpoint::Resolved(t) => {
                        out.push(*t);
                    },
                    _ => {},
                }
            }
            match &e.to {
                Endpoint::Resolved(t) => {
                    if *t == source {
                        out.push(e.from);
                    }
                },
                _ => {},
            }
        }
        proof {
            assert forall|id: SeamId| out@.contains(id) <==> exists|x: int| 0 <= x < i + 1 && pivot_hit(edges@[x], edge, source, id) by {
                if o0.contains(id) {
                    let y = choose|y: int| 0 <= y < o0.len() && o0[y] == id;
                    assert(out@[y] == id);
                }
                if out@.contains(id) && !o0.contains(id) {
                    let y = choose|y: int| 0 <= y < out@.len() && out@[y] == id;
                    if y < o0.len() {
                        assert(o0[y] == id);
                    }
                    assert(pivot_hit(edges@[i as int], edge, source, id));
                }
                if exists|x: int| 0 <= x < i + 1 && pivot_hit(edges@[x], edge, source, id) {
                    let x = choose|x: int| 0 <= x < i + 1 && pivot_hit(edges@[x], edge, source, id);
                    if x == i {
                        if e.from == source && e.to == Endpoint::Resolved(id) {
                            assert(out@[o0.len() as int] == id);
                        } else {
                            assert(out@[out@.len() - 1] == id);
                        }
                    } else {
                        let y = choose|y: int| 0 <= y < o0.len() && o0[y] == id;
                        assert(out@[y] == id);
                    }
                }
            }
        }
        i = i + 1;
    }
    out
}

/// The candidates a term keeps.
fn apply_term(index: &SeamIndex, candidates: &Vec<SeamId>, negated: bool, kind: &TermKind) -> (r: Vec<SeamId>)
    requires
        index.wf(),
        !(kind@ matches KindView::Name(p) && p.len() > 0),
    ensures
        r@ == kept_by(index@, (negated, kind@, (0, 0)), candidates@),
{
    let ghost t: TermView = (negated, kind@, (0, 0));
    let ghost pred = |id: SeamId| term_hit(index@, t.1, id) != t.0;
    let pivot: Option<Vec<SeamId>> = match kind {
        TermKind::Pivot { edge, target } => match index.resolve(target) {
            Some(source) => Some(pivot_hits(index, *edge, source)),
            None => Some(Vec::new()),
        },
        _ => None,
    };
    proof {
        index.lemma_paths_distinct();
    }
    let mut out: Vec<SeamId> = Vec::new();
    let mut i: usize = 0;
    while i < candidates.len()
        invariant
            i <= candidates@.len(),
            index.wf(),
            pred == (|id: SeamId| term_hit(index@, t.1, id) != t.0),
            t == (negated, kind@, (0int, 0int)),
            !(kind@ matches KindView::Name(p) && p.len() > 0),
            crate::index::paths_distinct(index@.paths),
            kind is Pivot <==> pivot is Some,
            pivot matches Some(hits) ==> forall|id: SeamId| hits@.contains(id) <==> term_hit(index@, kind@, id),
            out@ == candidates@.subrange(0, i as int).filter(pred),
        decreases candidates.len() - i,
    {
        proof {
            let pre = candidates@.subrange(0, i as int);
            assert(candidates@.subrange(0, i + 1) =~= pre.push(candidates@[i as int]));
            pre.lemma_filter_push(candidates@[i as int], pred);
        }
        let id = candidates[i];
        let hit = match &pivot {
            Some(hits) => crate::index::ids_contain(hits.as_slice(), id),
            None => match kind {
                TermKind::Name(_) => true,
                TermKind::Phrase(phrase) => match index.node(id) {
                    Some(n) => {
                        let hay = crate::text::chars_of(n.name.as_str());
                        let needle = crate::text::chars_of(phrase.as_str());
                        crate::text::chars_contain(hay.as_slice(), needle.as_slice())
                    },
                    None => false,
                },
                _ => match index.node(id) {
                    Some(n) => simple_match(index, n, kind),
                    None => false,
                },
            },
        };
        if hit != negated {
            out.push(id);
        }
        i = i + 1;
    }
    assert(candidates@.subrange(0, candidates@.len() as int) =~= candidates@);
    out
}

proof fn lemma_pivot_hits(v: IndexView, edge: EdgeKind, target: Seq<SegmentView>, source: SeamId, id: SeamId)
    requires
        crate::index::paths_distinct(v.paths),
        exists|k: int| 0 <= k < v.paths.len() && v.paths[k] == target && source.0 == id_for(k),
    ensures
        term_hit(v, KindView::Pivot(edge, target), id) <==> exists|i: int| 0 <= i < v.edges.len() && pivot_hit(v.edges[i], edge, source, id),
{
    let k0 = choose|k: int| 0 <= k < v.paths.len() && v.paths[k] == target && source.0 == id_for(k);
    assert(SeamId(id_for(k0)) == source);
    if term_hit(v, KindView::Pivot(edge, target), id) {
        let k = choose|k: int| 0 <= k < v.paths.len() && v.paths[k] == target && exists|i: int|
            0 <= i < v.edges.len() && pivot_hit(v.edges[i], edge, SeamId(id_for(k)), id);
        assert(k == k0);
    }
}

proof fn lemma_applied_snoc(v: IndexView, cs: Seq<SeamId>, terms: Seq<TermView>, t: TermView)
    ensures
        applied(v, cs, terms.push(t)) == kept_by(v, t, applied(v, cs, terms)),
    decreases terms.len(),
{
    if terms.len() == 0 {
        assert(terms.push(t).drop_first() =~= Seq::<TermView>::empty());
        assert(terms.push(t)[0] == t);
        assert(applied(v, cs, terms.push(t)) == applied(v, kept_by(v, t, cs), Seq::<TermView>::empty()));
    } else {
        assert(terms.push(t).drop_first() =~= terms.drop_first().push(t));
        assert(terms.push(t)[0] == terms[0]);
        lemma_applied_snoc(v, kept_by(v, terms[0], cs), terms.drop_first(), t);
    }
}

/// Whether `kept_by` ignores the span a term came from.
proof fn lemma_kept_by_span(v: IndexView, a: TermView, b: TermView, cs: Seq<SeamId>)
    requires
        a.0 == b.0,
        a.1 == b.1,
    ensures
        kept_by(v, a, cs) == kept_by(v, b, cs),
{
    assert((|id: SeamId| term_hit(v, a.1, id) != a.0) =~= (|id: SeamId| term_hit(v, b.1, id) != b.0));
}

impl Evaluation {
    /// Apply terms from the next one on, stopping at a bare word that needs ranking or
    /// at the end.
    pub fn advance(&mut self, query: &Query, index: &SeamIndex) -> (r: EvalStep)
        requires
            index.wf(),
            old(self).done() <= query.terms@.len(),
        ensures
            old(self).done() <= final(self).done() <= query.terms@.len(),
            forall|x: int| old(self).done() <= x < final(self).done() ==> !needs_ranking(#[trigger] terms_view(query.terms@)[x]),
            final(self).standing() == applied(index@, old(self).standing(), terms_view(query.terms@).subrange(old(self).done() as int, final(self).done() as int)),
            final(self).done() < query.terms@.len() ==> needs_ranking(terms_view(query.terms@)[final(self).done() as int]),
            final(self).done() < query.terms@.len() ==> (r matches EvalStep::Rank { pattern, names } && KindView::Name(pattern@) == terms_view(query.terms@)[final(self).done() as int].1
                && crate::query::texts(names@) == names_of(index@, final(self).standing())),
            final(self).done() == query.terms@.len() ==> (r matches EvalStep::Finished(res) && res.nodes@ == final(self).standing()
                && opt_view(res.configuration) == opt_view(query.configuration)),
    {
        let ghost tv = terms_view(query.terms@);
        let ghost start = self.next as int;
        let ghost cs0 = self.candidates@;
        assert(tv.subrange(start, start) =~= Seq::<TermView>::empty());
        while self.next < query.terms.len()
            invariant
                index.wf(),
                tv == terms_view(query.terms@),
                start == old(self).done(),
                cs0 == old(self).standing(),
                start <= self.next <= query.terms@.len(),
                forall|x: int| start <= x < self.next ==> !needs_ranking(#[trigger] tv[x]),
                self.candidates@ == applied(index@, cs0, tv.subrange(start, self.next as int)),
            decreases query.terms.len() - self.next,
        {
            let term = &query.terms[self.next];
            let pending = match &term.kind {
                TermKind::Name(pattern) => pattern.as_str().unicode_len() > 0,
                _ => false,
            };
            if pending {
                let pattern = match &term.kind {
                    TermKind::Name(pattern) => pattern.clone(),
                    _ => String::new(),
                };
                let mut names: Vec<String> = Vec::new();
                let mut i: usize = 0;
                let ghost n0 = self.next;
                let ghost c0 = self.candidates@;
                while i < self.candidates.len()
                    invariant
                        index.wf(),
                        self.next == n0,
                        self.candidates@ == c0,
                        i <= self.candidates@.len(),
                        crate::query::texts(names@) == names_of(index@, self.candidates@.take(i as int)),
                    decreases self.candidates.len() - i,
                {
                    let name = match index.node(self.candidates[i]) {
                        Some(n) => n.name.clone(),
                        None => String::new(),
                    };
                    let ghost n0 = names@;
                    names.push(name);
                    assert(crate::query::texts(names@) =~= crate::query::texts(n0).push(name@));
                    assert(names_of(index@, self.candidates@.take(i + 1)) =~= names_of(index@, self.candidates@.take(i as int)).push(name@));
                    i = i + 1;
                }
                assert(self.candidates@.take(self.candidates@.len() as int) =~= self.candidates@);
                proof {
                    assert(tv[self.next as int] == query.terms@[self.next as int]@);
                }
                assert(start <= self.next);
                assert(self.next < query.terms@.len());
                return EvalStep::Rank { pattern, names };
            }
            proof {
                assert(tv[self.next as int] == query.terms@[self.next as int]@);
            }
            let kept = apply_term(index, &self.candidates, term.negated, &term.kind);
            proof {
                assert(tv.len() == query.terms@.len());
                let t = tv[self.next as int];
                lemma_kept_by_span(index@, (term.negated, term.kind@, (0, 0)), t, self.candidates@);
                lemma_applied_snoc(index@, cs0, tv.subrange(start, self.next as int), t);
                assert(tv.subrange(start, self.next + 1) =~= tv.subrange(start, self.next as int).push(t));
            }
            self.candidates = kept;
            self.next = self.next + 1;
        }
        let configuration = match &query.configuration {
            Some(c) => Some(c.clone()),
            None => None,
        };
        let mut nodes: Vec<SeamId> = Vec::new();
        let mut i: usize = 0;
        while i < self.candidates.len()
            invariant
                i <= self.candidates@.len(),
                nodes@ == self.candidates@.take(i as int),
            decreases self.candidates.len() - i,
        {
            nodes.push(self.candidates[i]);
            assert(self.candidates@.take(i + 1) =~= self.candidates@.take(i as int).push(self.candidates@[i as int]));
            i = i + 1;
        }
        assert(self.candidates@.take(self.candidates@.len() as int) =~= self.candidates@);
        EvalStep::Finished(QueryResult { nodes, configuration })
    }

    /// Apply the pending bare word, given the positions (into the names last handed
    /// out) that its ranking matched; positions past the end are ignored.
    pub fn supply_ranking(&mut self, query: &Query, ranked: &[usize])
        requires
            old(self).done() < query.terms@.len(),
            needs_ranking(terms_view(query.terms@)[old(self).done() as int]),
        ensures
            final(self).done() == old(self).done() + 1,
            final(self).standing() == kept_by_rank(old(self).standing(), ranked@, terms_view(query.terms@)[old(self).done() as int].0),
    {
        let cur = self.next;
        let total = query.terms.len();
        assert(cur < total);
        let negated = query.terms[cur].negated;
        let ghost cs = self.candidates@;
        let ghost pred = |id: SeamId| (exists|p: int| 0 <= p < ranked@.len() && ranked@[p] < cs.len() && cs[ranked@[p] as int] == id) != negated;
        let mut kept: Vec<SeamId> = Vec::new();
        let mut i: usize = 0;
        while i < self.candidates.len()
            invariant
                i <= cs.len(),
                cs == self.candidates@,
                pred == (|id: SeamId| (exists|p: int| 0 <= p < ranked@.len() && ranked@[p] < cs.len() && cs[ranked@[p] as int] == id) != negated),
                kept@ == cs.subrange(0, i as int).filter(pred),
            decreases self.candidates.len() - i,
        {
            proof {
                let pre = cs.subrange(0, i as int);
                assert(cs.subrange(0, i + 1) =~= pre.push(cs[i as int]));
                pre.lemma_filter_push(cs[i as int], pred);
            }
            let id = self.candidates[i];
            let mut hit = false;
            let mut p: usize = 0;
            while p < ranked.len()
                invariant
                    p <= ranked@.len(),
                    cs == self.candidates@,
                    hit == exists|q: int| 0 <= q < p && ranked@[q] < cs.len() && cs[ranked@[q] as int] == id,
                decreases ranked.len() - p,
            {
                let at = ranked[p];
                if at < self.candidates.len() && self.candidates[at] == id {
                    hit = true;
                }
                p = p + 1;
            }
            if hit != negated {
                kept.push(id);
            }
            i = i + 1;
        }
        assert(cs.subrange(0, cs.len() as int) =~= cs);
        proof {
            assert(terms_view(query.terms@)[cur as int] == query.terms@[cur as int]@);
        }
        self.candidates = kept;
        self.next = cur + 1;
    }
}

/// Evaluate `query` against `index`, when it holds no bare word that needs ranking.
///
/// An empty query selects every node. `None` when a bare word is present: ranking is
/// an outside matcher's job, and [`Evaluation`] is the way through such a query.
pub fn evaluate(query: &Query, index: &SeamIndex) -> (r: Option<QueryResult>)
    requires
        index.wf(),
    ensures
        (forall|x: int| 0 <= x < query.terms@.len() ==> !needs_ranking(#[trigger] terms_view(query.terms@)[x])) ==> (r matches Some(res)
            && res.nodes@ == applied(index@, starting_set(index@), terms_view(query.terms@))
            && opt_view(res.configuration) == opt_view(query.configuration)),
        (exists|x: int| 0 <= x < query.terms@.len() && needs_ranking(#[trigger] terms_view(query.terms@)[x])) ==> r is None,
{
    let mut evaluation = Evaluation::begin(index);
    let step = evaluation.advance(query, index);
    proof {
        assert(terms_view(query.terms@).subrange(0, query.terms@.len() as int) =~= terms_view(query.terms@));
    }
    match step {
        EvalStep::Finished(result) => Some(result),
        EvalStep::Rank { .. } => None,
    }
}

/// Terms are implicitly conjoined: applying `a` then `b` is applying them one after
/// another, each narrowing what the last left.
pub proof fn lemma_terms_conjoin(v: IndexView, cs: Seq<SeamId>, a: Seq<TermView>, b: Seq<TermView>)
    ensures
        applied(v, cs, a + b) == applied(v, applied(v, cs, a), b),
    decreases a.len(),
{
    if a.len() == 0 {
        assert(a + b =~= b);
    } else {
        assert((a + b).drop_first() =~= a.drop_first() + b);
        assert((a + b)[0] == a[0]);
        lemma_terms_conjoin(v, kept_by(v, a[0], cs), a.drop_first(), b);
    }
}

/// A node survives a list of terms exactly when it was a candidate and every term keeps
/// it: the filter is an intersection, and the order of the terms does not matter to
/// which nodes survive.
pub proof fn lemma_survivors_pass_every_term(v: IndexView, cs: Seq<SeamId>, terms: Seq<TermView>, id: SeamId)
    ensures
        applied(v, cs, terms).contains(id) <==> (cs.contains(id) && forall|x: int| 0 <= x < terms.len() ==> (term_hit(v, (#[trigger] terms[x]).1, id) != terms[x].0)),
    decreases terms.len(),
{
    if terms.len() > 0 {
        let t = terms[0];
        let rest = terms.drop_first();
        lemma_survivors_pass_every_term(v, kept_by(v, t, cs), rest, id);
        let f = |i: SeamId| term_hit(v, t.1, i) != t.0;
        assert(kept_by(v, t, cs) == cs.filter(f));
        broadcast use vstd::seq_lib::group_filter_ensures;
        if cs.contains(id) && f(id) {
            let k = choose|k: int| 0 <= k < cs.len() && cs[k] == id;
            cs.lemma_filter_contains(f, k);
        }
        if cs.filter(f).contains(id) {
            cs.lemma_filter_contains_rev(f, id);
            let k = choose|k: int| 0 <= k < cs.filter(f).len() && cs.filter(f)[k] == id;
            assert(f(cs.filter(f)[k]));
        }
        assert forall|x: int| 1 <= x < terms.len() implies #[trigger] terms[x] == rest[x - 1] by {}
        if (cs.contains(id) && forall|x: int| 0 <= x < terms.len() ==> (term_hit(v, (#[trigger] terms[x]).1, id) != terms[x].0)) {
            assert(f(id));
            assert forall|x: int| 0 <= x < rest.len() implies (term_hit(v, (#[trigger] rest[x]).1, id) != rest[x].0) by {
                assert(rest[x] == terms[x + 1]);
            }
        }
        if applied(v, cs, terms).contains(id) {
            assert forall|x: int| 0 <= x < terms.len() implies (term_hit(v, (#[trigger] terms[x]).1, id) != terms[x].0) by {
                if x > 0 {
                    assert(terms[x] == rest[x - 1]);
                }
            }
        }
    }
}

/// A `cfg:` term matches a held node whenever one of its variation facets has a detail
/// in which the term's text occurs, wherever it occurs: `cfg:unix` finds the node
/// gated by `all(unix, not(test))` as surely as the one gated by `unix`.
pub proof fn lemma_cfg_term_finds_its_text_anywhere(v: IndexView, id: SeamId, t: Seq<char>, i: int, at: int)
    requires
        v.nodes.contains_key(id),
        0 <= i < v.nodes[id].facets@.len(),
        v.nodes[id].facets@[i].lens == Lens::Variation,
        v.nodes[id].facets@[i].detail is Some,
        0 <= at,
        at + t.len() <= v.nodes[id].facets@[i].detail->0@.len(),
        v.nodes[id].facets@[i].detail->0@.subrange(at, at + t.len()) == t,
    ensures
        term_hit(v, KindView::Cfg(t), id),
        simple_hit(v, v.nodes[id], KindView::Cfg(t)),
{
    assert(crate::text::occurs_at(v.nodes[id].facets@[i].detail->0@, t, at));
}

/// Filters agreeing on every element of `s` keep the same elements.
proof fn lemma_filter_agree<A>(s: Seq<A>, p: spec_fn(A) -> bool, q: spec_fn(A) -> bool)
    requires
        forall|i: int| 0 <= i < s.len() ==> p(#[trigger] s[i]) == q(s[i]),
    ensures
        s.filter(p) == s.filter(q),
    decreases s.len(),
{
    if s.len() == 0 {
        assert(s.filter(p) =~= Seq::<A>::empty()) by {
            s.lemma_filter_len(p);
        }
        assert(s.filter(q) =~= Seq::<A>::empty()) by {
            s.lemma_filter_len(q);
        }
    } else {
        let init = s.drop_last();
        assert forall|i: int| 0 <= i < init.len() implies p(#[trigger] init[i]) == q(init[i]) by {
            assert(init[i] == s[i]);
        }
        lemma_filter_agree(init, p, q);
        assert(init.push(s.last()) =~= s);
        init.lemma_filter_push(s.last(), p);
        init.lemma_filter_push(s.last(), q);
        assert(p(s[s.len() - 1]) == q(s[s.len() - 1]));
    }
}

/// Filtering twice is filtering once by both.
proof fn lemma_filter_twice<A>(s: Seq<A>, p: spec_fn(A) -> bool, q: spec_fn(A) -> bool)
    ensures
        s.filter(p).filter(q) == s.filter(|x: A| p(x) && q(x)),
    decreases s.len(),
{
    let both = |x: A| p(x) && q(x);
    if s.len() == 0 {
        s.lemma_filter_len(p);
        s.lemma_filter_len(both);
        assert(s.filter(p) =~= Seq::<A>::empty());
        s.filter(p).lemma_filter_len(q);
        assert(s.filter(p).filter(q) =~= Seq::<A>::empty());
        assert(s.filter(both) =~= Seq::<A>::empty());
    } else {
        let init = s.drop_last();
        let x = s.last();
        lemma_filter_twice(init, p, q);
        assert(init.push(x) =~= s);
        init.lemma_filter_push(x, p);
        init.lemma_filter_push(x, both);
        if p(x) {
            init.filter(p).lemma_filter_push(x, q);
        }
    }
}

/// Whether `id` passes every one of `terms`.
pub open spec fn passes(v: IndexView, terms: Seq<TermView>, id: SeamId) -> bool {
    forall|x: int| 0 <= x < terms.len() ==> term_hit(v, (#[trigger] terms[x]).1, id) != terms[x].0
}

/// Applying terms in turn keeps, in their order, the candidates that pass them all.
pub proof fn lemma_applied_is_a_filter(v: IndexView, cs: Seq<SeamId>, terms: Seq<TermView>)
    ensures
        applied(v, cs, terms) == cs.filter(|id: SeamId| passes(v, terms, id)),
    decreases terms.len(),
{
    let all = |id: SeamId| passes(v, terms, id);
    if terms.len() == 0 {
        lemma_filter_agree(cs, all, |id: SeamId| true);
        assert(cs.filter(|id: SeamId| true) =~= cs) by {
            lemma_filter_all(cs);
        }
    } else {
        let t = terms[0];
        let rest = terms.drop_first();
        let first = |id: SeamId| term_hit(v, t.1, id) != t.0;
        let later = |id: SeamId| passes(v, rest, id);
        lemma_applied_is_a_filter(v, kept_by(v, t, cs), rest);
        assert(kept_by(v, t, cs) == cs.filter(first));
        lemma_filter_twice(cs, first, later);
        assert forall|i: int| 0 <= i < cs.len() implies (|x: SeamId| first(x) && later(x))(#[trigger] cs[i]) == all(cs[i]) by {
            let id = cs[i];
            assert forall|x: int| 0 <= x < rest.len() implies #[trigger] rest[x] == terms[x + 1] by {}
            if first(id) && later(id) {
                assert forall|x: int| 0 <= x < terms.len() implies term_hit(v, (#[trigger] terms[x]).1, id) != terms[x].0 by {
                    if x > 0 {
                        assert(terms[x] == rest[x - 1]);
                    }
                }
            }
            if all(id) {
                assert(term_hit(v, terms[0].1, id) != terms[0].0);
                assert forall|x: int| 0 <= x < rest.len() implies term_hit(v, (#[trigger] rest[x]).1, id) != rest[x].0 by {
                    assert(rest[x] == terms[x + 1]);
                }
            }
        }
        lemma_filter_agree(cs, |x: SeamId| first(x) && later(x), all);
    }
}

proof fn lemma_filter_all(s: Seq<SeamId>)
    ensures
        s.filter(|id: SeamId| true) == s,
    decreases s.len(),
{
    if s.len() == 0 {
        s.lemma_filter_len(|id: SeamId| true);
        assert(s.filter(|id: SeamId| true) =~= s);
    } else {
        let init = s.drop_last();
        lemma_filter_all(init);
        assert(init.push(s.last()) =~= s);
        init.lemma_filter_push(s.last(), |id: SeamId| true);
    }
}

/// Terms are conjoined as a filter: evaluating the terms of `a` followed by those of
/// `b` keeps, in order, what evaluating `a` keeps that evaluating `b` keeps too.
pub proof fn lemma_terms_filter(v: IndexView, cs: Seq<SeamId>, a: Seq<TermView>, b: Seq<TermView>)
    ensures
        applied(v, cs, a + b) == applied(v, cs, a).filter(|id: SeamId| applied(v, cs, b).contains(id)),
{
    let pa = |id: SeamId| passes(v, a, id);
    let pb = |id: SeamId| passes(v, b, id);
    let pab = |id: SeamId| passes(v, a + b, id);
    let inb = |id: SeamId| applied(v, cs, b).contains(id);
    lemma_applied_is_a_filter(v, cs, a + b);
    lemma_applied_is_a_filter(v, cs, a);
    lemma_applied_is_a_filter(v, cs, b);
    lemma_filter_twice(cs, pa, inb);
    assert forall|i: int| 0 <= i < cs.len() implies pab(#[trigger] cs[i]) == (|x: SeamId| pa(x) && inb(x))(cs[i]) by {
        let id = cs[i];
        if pb(id) {
            cs.lemma_filter_contains(pb, i);
        }
        if cs.filter(pb).contains(id) {
            let k = choose|k: int| 0 <= k < cs.filter(pb).len() && cs.filter(pb)[k] == id;
            cs.filter_lemma(pb);
            assert(pb(cs.filter(pb)[k]));
        }
        assert forall|x: int| 0 <= x < (a + b).len() implies #[trigger] (a + b)[x] == if x < a.len() { a[x] } else { b[x - a.len()] } by {}
        if pab(id) {
            assert forall|x: int| 0 <= x < a.len() implies term_hit(v, (#[trigger] a[x]).1, id) != a[x].0 by {
                assert((a + b)[x] == a[x]);
            }
            assert forall|x: int| 0 <= x < b.len() implies term_hit(v, (#[trigger] b[x]).1, id) != b[x].0 by {
                assert((a + b)[x + a.len()] == b[x]);
            }
        }
        if pa(id) && pb(id) {
            assert forall|x: int| 0 <= x < (a + b).len() implies term_hit(v, (#[trigger] (a + b)[x]).1, id) != (a + b)[x].0 by {
                if x < a.len() {
                    assert((a + b)[x] == a[x]);
                } else {
                    assert((a + b)[x] == b[x - a.len()]);
                }
            }
        }
    }
    lemma_filter_agree(cs, pab, |x: SeamId| pa(x) && inb(x));
}

/// A negated term keeps, in order, every candidate the plain term does not.
pub proof fn lemma_negated_term_is_the_rest(v: IndexView, cs: Seq<SeamId>, kind: KindView, span: (int, int))
    ensures
        applied(v, cs, seq![(true, kind, span)]) == cs.filter(|id: SeamId| !applied(v, cs, seq![(false, kind, span)]).contains(id)),
{
    let plain = seq![(false, kind, span)];
    let negated = seq![(true, kind, span)];
    let pp = |id: SeamId| passes(v, plain, id);
    let pn = |id: SeamId| passes(v, negated, id);
    let out = |id: SeamId| !applied(v, cs, plain).contains(id);
    lemma_applied_is_a_filter(v, cs, plain);
    lemma_applied_is_a_filter(v, cs, negated);
    assert forall|i: int| 0 <= i < cs.len() implies pn(#[trigger] cs[i]) == out(cs[i]) by {
        let id = cs[i];
        assert(pp(id) == (term_hit(v, kind, id) != false)) by {
            if term_hit(v, kind, id) != false {
                assert forall|x: int| 0 <= x < plain.len() implies term_hit(v, (#[trigger] plain[x]).1, id) != plain[x].0 by {}
            }
        }
        assert(pn(id) == (term_hit(v, kind, id) != true)) by {
            if term_hit(v, kind, id) != true {
                assert forall|x: int| 0 <= x < negated.len() implies term_hit(v, (#[trigger] negated[x]).1, id) != negated[x].0 by {}
            }
        }
        if pp(id) {
            cs.lemma_filter_contains(pp, i);
        }
        if cs.filter(pp).contains(id) {
            let k = choose|k: int| 0 <= k < cs.filter(pp).len() && cs.filter(pp)[k] == id;
            cs.filter_lemma(pp);
            assert(pp(cs.filter(pp)[k]));
        }
    }
    lemma_filter_agree(cs, pn, out);
}

/// Negating a term keeps exactly the candidates the plain term removes.
pub proof fn lemma_negation_complements(v: IndexView, kind: KindView, span: (int, int), cs: Seq<SeamId>, id: SeamId)
    requires
        cs.contains(id),
    ensures
        kept_by(v, (true, kind, span), cs).contains(id) <==> !kept_by(v, (false, kind, span), cs).contains(id),
{
    let pos = |i: SeamId| term_hit(v, kind, i) != false;
    let neg = |i: SeamId| term_hit(v, kind, i) != true;
    assert(kept_by(v, (false, kind, span), cs) == cs.filter(pos));
    assert(kept_by(v, (true, kind, span), cs) == cs.filter(neg));
    broadcast use vstd::seq_lib::group_filter_ensures;
    let k = choose|k: int| 0 <= k < cs.len() && cs[k] == id;
    if pos(id) {
        cs.lemma_filter_contains(pos, k);
    } else {
        cs.lemma_filter_contains(neg, k);
    }
    if cs.filter(pos).contains(id) {
        let j = choose|j: int| 0 <= j < cs.filter(pos).len() && cs.filter(pos)[j] == id;
        assert(pos(cs.filter(pos)[j]));
    }
    if cs.filter(neg).contains(id) {
        let j = choose|j: int| 0 <= j < cs.filter(neg).len() && cs.filter(neg)[j] == id;
        assert(neg(cs.filter(neg)[j]));
    }
}

} // verus!
