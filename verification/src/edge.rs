//! Non-containment relations, stored and queried apart from the tree.
//!
//! Containment is a tree; everything else is an edge. An endpoint has three states and
//! all of them are normal: pointing outside the package is not a failure, and not yet
//! knowing is not a failure either.

use vstd::prelude::*;
use crate::coord::Range;
use crate::id::SeamId;
use crate::id::Remap;
use crate::text::str_eq;

verus! {

/// The kind of relation an edge expresses.
#[derive(Clone, Copy, Debug, PartialEq, Eq, Structural, Hash, PartialOrd, Ord)]
#[non_exhaustive]
pub enum EdgeKind {
    /// An implementation binds a contract to a type.
    Implements,
    /// A member replaces a default supplied by its contract.
    OverridesDefault,
    /// A site where the concrete callee is chosen at run time.
    DynDispatchSite,
    /// A declaration republished under another path.
    ReExports,
    /// A node whose presence depends on a variation predicate.
    GatedBy,
    /// A macro invocation and what it expands into.
    ExpandsTo,
}

/// Every edge kind, in the order [`EdgeKind::all`] lists them.
pub open spec fn all_edge_kinds() -> Seq<EdgeKind> {
    seq![
        EdgeKind::Implements,
        EdgeKind::OverridesDefault,
        EdgeKind::DynDispatchSite,
        EdgeKind::ReExports,
        EdgeKind::GatedBy,
        EdgeKind::ExpandsTo,
    ]
}

impl EdgeKind {
    /// The stable query name.
    pub open spec fn spec_name(self) -> Seq<char> {
        match self {
            EdgeKind::Implements => "implements"@,
            EdgeKind::OverridesDefault => "overrides-default"@,
            EdgeKind::DynDispatchSite => "dyn-dispatch-site"@,
            EdgeKind::ReExports => "re-exports"@,
            EdgeKind::GatedBy => "gated-by"@,
            EdgeKind::ExpandsTo => "expands-to"@,
        }
    }

    /// No two EdgeKind share a name, so a name names at most one.
    pub proof fn lemma_names_distinct(a: Self, b: Self)
        ensures
            a.spec_name() == b.spec_name() ==> a == b,
    {
        reveal_strlit("implements");
        reveal_strlit("overrides-default");
        reveal_strlit("dyn-dispatch-site");
        reveal_strlit("re-exports");
        reveal_strlit("gated-by");
        reveal_strlit("expands-to");
        if a.spec_name() == b.spec_name() && a != b {
            assert(a.spec_name().len() == b.spec_name().len());
            assert(a.spec_name()[0] == b.spec_name()[0]);
            assert(a.spec_name()[1] == b.spec_name()[1]);
            assert(a.spec_name()[2] == b.spec_name()[2]);
        }
    }

    /// Position in [`all_edge_kinds`].
    pub open spec fn spec_position(self) -> int {
        match self {
            EdgeKind::Implements => 0,
            EdgeKind::OverridesDefault => 1,
            EdgeKind::DynDispatchSite => 2,
            EdgeKind::ReExports => 3,
            EdgeKind::GatedBy => 4,
            EdgeKind::ExpandsTo => 5,
        }
    }

    /// The stable name, as written in a query (`pivot:implements:…`).
    pub fn name(self) -> (r: &'static str)
        ensures
            r@ == self.spec_name(),
    {
        match self {
            EdgeKind::Implements => "implements",
            EdgeKind::OverridesDefault => "overrides-default",
            EdgeKind::DynDispatchSite => "dyn-dispatch-site",
            EdgeKind::ReExports => "re-exports",
            EdgeKind::GatedBy => "gated-by",
            EdgeKind::ExpandsTo => "expands-to",
        }
    }

    /// Every kind, for query-term suggestions and the facet pane's grouping.
    pub fn all() -> (r: Vec<EdgeKind>)
        ensures
            r@ == all_edge_kinds(),
    {
        let r = vec![
            EdgeKind::Implements,
            EdgeKind::OverridesDefault,
            EdgeKind::DynDispatchSite,
            EdgeKind::ReExports,
            EdgeKind::GatedBy,
            EdgeKind::ExpandsTo,
        ];
        assert(r@ =~= all_edge_kinds());
        r
    }

    /// Resolve a kind from its query name, case-sensitively.
    pub fn from_name(name: &str) -> (r: Option<EdgeKind>)
        ensures
            match r {
                Some(kind) => kind.spec_name() == name@,
                None => forall|kind: EdgeKind| kind.spec_name() != name@,
            },
            forall|k: EdgeKind| #[trigger] k.spec_name() == name@ ==> r == Some(k),
    {
        let all = EdgeKind::all();
        let mut i: usize = 0;
        while i < all.len()
            invariant
                all@ == all_edge_kinds(),
                i <= all@.len(),
                forall|j: int| 0 <= j < i ==> all_edge_kinds()[j].spec_name() != name@,
            decreases all.len() - i,
        {
            let kind = all[i];
            if str_eq(kind.name(), name) {
                proof {
                    assert forall|k: EdgeKind| #[trigger] k.spec_name() == name@ implies Some(kind) == Some(k) by {
                        EdgeKind::lemma_names_distinct(k, kind);
                    }
                }
                return Some(kind);
            }
            i = i + 1;
        }
        assert forall|kind: EdgeKind| kind.spec_name() != name@ by {
            assert(all_edge_kinds()[kind.spec_position()] == kind);
        }
        None
    }
}

/// Edge-kind names are pairwise distinct, so every kind's name resolves back to it.
pub proof fn lemma_edge_kind_names_distinct(a: EdgeKind, b: EdgeKind)
    ensures
        a.spec_name() == b.spec_name() ==> a == b,
{
    reveal_strlit("implements");
    reveal_strlit("overrides-default");
    reveal_strlit("dyn-dispatch-site");
    reveal_strlit("re-exports");
    reveal_strlit("gated-by");
    reveal_strlit("expands-to");
    if a != b && a.spec_name() == b.spec_name() {
        assert(a.spec_name().len() == b.spec_name().len());
        assert(a.spec_name()[0] == b.spec_name()[0]);
        assert(a.spec_name()[1] == b.spec_name()[1]);
    }
}

/// What an edge points at.
#[derive(Clone, Debug, PartialEq, Eq)]
pub enum Endpoint {
    /// A node in this package's tree.
    Resolved(SeamId),
    /// Something outside this package, known only by how it is written.
    External {
        /// The path as written at the use site.
        display: String,
    },
    /// Not resolved — either not yet, or not ever. A normal state, not an error.
    Unresolved {
        /// Whatever the structural tier could recover, usually the written name.
        hint: Option<String>,
        /// Whether resolution is still possible with better information.
        resolvable: bool,
    },
}

impl Endpoint {
    /// The node this points at, when it points inside the package.
    pub open spec fn spec_resolved(self) -> Option<SeamId> {
        match self {
            Endpoint::Resolved(id) => Some(id),
            _ => None,
        }
    }

    /// The node this points at, when it points inside the package.
    pub fn resolved(&self) -> (r: Option<SeamId>)
        ensures
            r == self.spec_resolved(),
    {
        match self {
            Endpoint::Resolved(id) => Some(*id),
            _ => None,
        }
    }

    /// The text to show for this endpoint.
    pub fn display_hint(&self) -> (r: Option<&str>)
        ensures
            match self {
                Endpoint::Resolved(_) => r is None,
                Endpoint::External { display } => r matches Some(t) && t@ == display@,
                Endpoint::Unresolved { hint, .. } => match hint {
                    Some(h) => r matches Some(t) && t@ == h@,
                    None => r is None,
                },
            },
    {
        match self {
            Endpoint::Resolved(_) => None,
            Endpoint::External { display } => Some(display.as_str()),
            Endpoint::Unresolved { hint, .. } => match hint {
                Some(h) => Some(h.as_str()),
                None => None,
            },
        }
    }

    /// The state's stable name, for serialized output and the facet pane.
    pub fn state(&self) -> (r: &'static str)
        ensures
            r@ == match self {
                Endpoint::Resolved(_) => "resolved"@,
                Endpoint::External { .. } => "external"@,
                Endpoint::Unresolved { .. } => "unresolved"@,
            },
    {
        match self {
            Endpoint::Resolved(_) => "resolved",
            Endpoint::External { .. } => "external",
            Endpoint::Unresolved { .. } => "unresolved",
        }
    }

    /// A copy of this endpoint.
    pub fn duplicate(&self) -> (r: Self)
        ensures
            r == *self,
    {
        match self {
            Endpoint::Resolved(id) => Endpoint::Resolved(*id),
            Endpoint::External { display } => Endpoint::External { display: display.clone() },
            Endpoint::Unresolved { hint, resolvable } => Endpoint::Unresolved {
                hint: match hint {
                    Some(h) => Some(h.clone()),
                    None => None,
                },
                resolvable: *resolvable,
            },
        }
    }
}

/// One typed relation between a node and something else.
#[derive(Clone, Debug, PartialEq, Eq)]
pub struct Edge {
    /// Which relation this is.
    pub kind: EdgeKind,
    /// The node the relation starts at. Always resolved — it is in this tree.
    pub from: SeamId,
    /// What it points at.
    pub to: Endpoint,
    /// Where in `from`'s source the relation is written, when it is a specific site.
    pub site: Option<Range>,
}

impl Edge {
    /// A copy of this edge.
    pub fn duplicate(&self) -> (r: Self)
        ensures
            r == *self,
    {
        Edge { kind: self.kind, from: self.from, to: self.to.duplicate(), site: self.site }
    }
}

/// Whether `e` leaves `node`.
pub open spec fn leaves(e: Edge, node: SeamId) -> bool {
    e.from == node
}

/// Whether `e` arrives at `node` from inside the package.
pub open spec fn arrives(e: Edge, node: SeamId) -> bool {
    e.to.spec_resolved() == Some(node)
}

/// Whether `e` is at `node`'s end — arriving at it or leaving it — and of `kind` when
/// one is given.
pub open spec fn selects(e: Edge, node: SeamId, arriving: bool, kind: Option<EdgeKind>) -> bool {
    &&& if arriving { arrives(e, node) } else { leaves(e, node) }
    &&& kind matches Some(k) ==> e.kind == k
}

/// Edges, kept apart from the node arena so the tree stays a tree and an edge whose
/// target is unresolved still has somewhere to live. Lookups from either end list edges
/// in insertion order.
#[derive(Debug, Default, Clone)]
pub struct EdgeStore {
    edges: Vec<Edge>,
}

impl View for EdgeStore {
    type V = Seq<Edge>;

    closed spec fn view(&self) -> Seq<Edge> {
        self.edges@
    }
}

impl EdgeStore {
    /// An empty store.
    pub fn new() -> (r: Self)
        ensures
            r@ == Seq::<Edge>::empty(),
    {
        EdgeStore { edges: Vec::new() }
    }

    /// Record an edge.
    pub fn insert(&mut self, edge: Edge)
        ensures
            final(self)@ == old(self)@.push(edge),
    {
        self.edges.push(edge);
    }

    /// Every edge, in insertion order.
    pub fn all(&self) -> (r: &[Edge])
        ensures
            r@ == self@,
    {
        self.edges.as_slice()
    }

    /// Take every edge, consuming the store.
    pub fn into_all(self) -> (r: Vec<Edge>)
        ensures
            r@ == self@,
    {
        self.edges
    }

    /// How many edges are stored.
    pub fn len(&self) -> (r: usize)
        ensures
            r == self@.len(),
    {
        self.edges.len()
    }

    /// Whether the store holds no edges.
    pub fn is_empty(&self) -> (r: bool)
        ensures
            r == (self@.len() == 0),
    {
        self.edges.len() == 0
    }

    /// The edges satisfying a selector, in order: 0 leaving, 1 arriving.
    fn select(&self, node: SeamId, arriving: bool, kind: Option<EdgeKind>) -> (r: Vec<Edge>)
        ensures
            r@ == self@.filter(|e: Edge| selects(e, node, arriving, kind)),
    {
        let ghost pred = |e: Edge| selects(e, node, arriving, kind);
        let mut out: Vec<Edge> = Vec::new();
        let mut i: usize = 0;
        while i < self.edges.len()
            invariant
                i <= self.edges@.len(),
                out@ == self.edges@.subrange(0, i as int).filter(pred),
                pred == (|e: Edge| selects(e, node, arriving, kind)),
            decreases self.edges.len() - i,
        {
            let e = &self.edges[i];
            proof {
                let pre = self.edges@.subrange(0, i as int);
                assert(self.edges@.subrange(0, i + 1) =~= pre.push(self.edges@[i as int]));
                pre.lemma_filter_push(self.edges@[i as int], pred);
            }
            let end_ok = if arriving {
                match e.to.resolved() {
                    Some(t) => t == node,
                    None => false,
                }
            } else {
                e.from == node
            };
            let kind_ok = match kind {
                Some(k) => e.kind == k,
                None => true,
            };
            if end_ok && kind_ok {
                out.push(e.duplicate());
            }
            i = i + 1;
        }
        assert(self.edges@.subrange(0, self.edges@.len() as int) =~= self.edges@);
        out
    }

    /// Edges leaving `node`.
    pub fn from(&self, node: SeamId) -> (r: Vec<Edge>)
        ensures
            r@ == self@.filter(|e: Edge| selects(e, node, false, None)),
    {
        self.select(node, false, None)
    }

    /// Edges arriving at `node` from elsewhere in this package. This is how a trait finds
    /// its implementors: they point at it, not the reverse.
    pub fn to(&self, node: SeamId) -> (r: Vec<Edge>)
        ensures
            r@ == self@.filter(|e: Edge| selects(e, node, true, None)),
    {
        self.select(node, true, None)
    }

    /// Edges leaving `node` that are of one kind.
    pub fn from_of_kind(&self, node: SeamId, kind: EdgeKind) -> (r: Vec<Edge>)
        ensures
            r@ == self@.filter(|e: Edge| selects(e, node, false, Some(kind))),
    {
        self.select(node, false, Some(kind))
    }

    /// Edges arriving at `node` that are of one kind.
    pub fn to_of_kind(&self, node: SeamId, kind: EdgeKind) -> (r: Vec<Edge>)
        ensures
            r@ == self@.filter(|e: Edge| selects(e, node, true, Some(kind))),
    {
        self.select(node, true, Some(kind))
    }

    /// Drop every edge leaving `node`, for an incremental re-index of its file.
    pub fn remove_from(&mut self, node: SeamId)
        ensures
            final(self)@ == old(self)@.filter(|e: Edge| !leaves(e, node)),
    {
        let ghost pred = |e: Edge| !leaves(e, node);
        let mut kept: Vec<Edge> = Vec::new();
        let mut i: usize = 0;
        while i < self.edges.len()
            invariant
                i <= self.edges@.len(),
                kept@ == self.edges@.subrange(0, i as int).filter(pred),
                pred == (|e: Edge| !leaves(e, node)),
            decreases self.edges.len() - i,
        {
            proof {
                let pre = self.edges@.subrange(0, i as int);
                assert(self.edges@.subrange(0, i + 1) =~= pre.push(self.edges@[i as int]));
                pre.lemma_filter_push(self.edges@[i as int], pred);
            }
            if self.edges[i].from != node {
                kept.push(self.edges[i].duplicate());
            }
            i = i + 1;
        }
        assert(self.edges@.subrange(0, self.edges@.len() as int) =~= self.edges@);
        self.edges = kept;
    }

    /// Drop every edge leaving any of `nodes`.
    pub fn remove_from_any(&mut self, nodes: &[SeamId])
        ensures
            final(self)@ == old(self)@.filter(|e: Edge| !nodes@.contains(e.from)),
    {
        let ghost pred = |e: Edge| !nodes@.contains(e.from);
        let mut kept: Vec<Edge> = Vec::new();
        let mut i: usize = 0;
        while i < self.edges.len()
            invariant
                i <= self.edges@.len(),
                kept@ == self.edges@.subrange(0, i as int).filter(pred),
                pred == (|e: Edge| !nodes@.contains(e.from)),
            decreases self.edges.len() - i,
        {
            proof {
                let pre = self.edges@.subrange(0, i as int);
                assert(self.edges@.subrange(0, i + 1) =~= pre.push(self.edges@[i as int]));
                pre.lemma_filter_push(self.edges@[i as int], pred);
            }
            if !crate::index::ids_contain(nodes, self.edges[i].from) {
                kept.push(self.edges[i].duplicate());
            }
            i = i + 1;
        }
        assert(self.edges@.subrange(0, self.edges@.len() as int) =~= self.edges@);
        self.edges = kept;
    }

    /// Point every endpoint at wherever its node moved to.
    ///
    /// Regrouping changes ids, and an edge left naming the old one would point at a node
    /// that no longer exists.
    pub fn remap(&mut self, remap: &Remap)
        ensures
            final(self)@.len() == old(self)@.len(),
            forall|i: int| 0 <= i < old(self)@.len() ==> #[trigger] final(self)@[i] == remapped_edge(old(self)@[i], remap@),
    {
        let mut out: Vec<Edge> = Vec::new();
        let mut i: usize = 0;
        while i < self.edges.len()
            invariant
                i <= self.edges@.len(),
                out@.len() == i,
                forall|j: int| 0 <= j < i ==> #[trigger] out@[j] == remapped_edge(self.edges@[j], remap@),
            decreases self.edges.len() - i,
        {
            let e = &self.edges[i];
            let from = remap.apply(e.from);
            let to = match &e.to {
                Endpoint::Resolved(t) => Endpoint::Resolved(remap.apply(*t)),
                other => other.duplicate(),
            };
            out.push(Edge { kind: e.kind, from, to, site: e.site });
            i = i + 1;
        }
        self.edges = out;
    }
}

/// `e` with both ends moved through `remap`.
pub open spec fn remapped_edge(e: Edge, remap: Map<SeamId, SeamId>) -> Edge {
    Edge {
        kind: e.kind,
        from: crate::id::moved(remap, e.from),
        to: match e.to {
            Endpoint::Resolved(t) => Endpoint::Resolved(crate::id::moved(remap, t)),
            other => other,
        },
        site: e.site,
    }
}

} // verus!
