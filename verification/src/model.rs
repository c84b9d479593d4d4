//! The neutral seam model: lenses, node kinds, facets, and the nodes that carry them.
//!
//! Every type here is language-neutral. A language contributes a mapping into this
//! vocabulary and never extends it; the five lenses in particular are a closed set.

use vstd::prelude::*;
use crate::text::str_eq;
use crate::coord::Range;
use crate::coord::Span;
use crate::id::SeamId;
use crate::rollup::Rollups;

verus! {

/// One of the five seam classes. This set is closed.
#[derive(Clone, Copy, Debug, PartialEq, Eq, Structural, Hash, PartialOrd, Ord)]
pub enum Lens {
    /// What is visible from outside?
    Api,
    /// What behavior can be swapped?
    Substitution,
    /// What changes shape before compiling?
    Variation,
    /// What crosses the package line?
    Boundary,
    /// Where is substitution dangerous?
    Hazard,
}

/// Every lens, in display order. Indexing this array by [`Lens::index`] round-trips.
pub const LENSES: [Lens; 5] = [
    Lens::Api,
    Lens::Substitution,
    Lens::Variation,
    Lens::Boundary,
    Lens::Hazard,
];

/// The lens at display position `i`.
pub open spec fn lens_at(i: int) -> Lens {
    if i == 0 {
        Lens::Api
    } else if i == 1 {
        Lens::Substitution
    } else if i == 2 {
        Lens::Variation
    } else if i == 3 {
        Lens::Boundary
    } else {
        Lens::Hazard
    }
}

impl Lens {
    /// The lens's stable query name.
    pub open spec fn spec_name(self) -> Seq<char> {
        match self {
            Lens::Api => "api"@,
            Lens::Substitution => "substitution"@,
            Lens::Variation => "variation"@,
            Lens::Boundary => "boundary"@,
            Lens::Hazard => "hazard"@,
        }
    }

    /// No two Lens share a name, so a name names at most one.
    pub proof fn lemma_names_distinct(a: Self, b: Self)
        ensures
            a.spec_name() == b.spec_name() ==> a == b,
    {
        reveal_strlit("api");
        reveal_strlit("substitution");
        reveal_strlit("variation");
        reveal_strlit("boundary");
        reveal_strlit("hazard");
        if a.spec_name() == b.spec_name() && a != b {
            assert(a.spec_name().len() == b.spec_name().len());
            assert(a.spec_name()[0] == b.spec_name()[0]);
            assert(a.spec_name()[1] == b.spec_name()[1]);
            assert(a.spec_name()[2] == b.spec_name()[2]);
        }
    }

    /// The lens's position in [`LENSES`].
    pub open spec fn spec_index(self) -> nat {
        match self {
            Lens::Api => 0,
            Lens::Substitution => 1,
            Lens::Variation => 2,
            Lens::Boundary => 3,
            Lens::Hazard => 4,
        }
    }

    /// The lens's stable name, as written in a query (`lens:substitution`).
    pub fn name(self) -> (r: &'static str)
        ensures
            r@ == self.spec_name(),
    {
        match self {
            Lens::Api => "api",
            Lens::Substitution => "substitution",
            Lens::Variation => "variation",
            Lens::Boundary => "boundary",
            Lens::Hazard => "hazard",
        }
    }

    /// The question this lens answers, for the legend and the facet pane.
    pub fn question(self) -> (r: &'static str)
        ensures
            r@ == match self {
                Lens::Api => "What is visible from outside?"@,
                Lens::Substitution => "What behavior can be swapped?"@,
                Lens::Variation => "What changes shape before compiling?"@,
                Lens::Boundary => "What crosses the package line?"@,
                Lens::Hazard => "Where is substitution dangerous?"@,
            },
    {
        match self {
            Lens::Api => "What is visible from outside?",
            Lens::Substitution => "What behavior can be swapped?",
            Lens::Variation => "What changes shape before compiling?",
            Lens::Boundary => "What crosses the package line?",
            Lens::Hazard => "Where is substitution dangerous?",
        }
    }

    /// Resolve a lens from its query name, case-sensitively.
    pub fn from_name(name: &str) -> (r: Option<Lens>)
        ensures
            match r {
                Some(lens) => lens.spec_name() == name@,
                None => forall|lens: Lens| lens.spec_name() != name@,
            },
            forall|k: Lens| #[trigger] k.spec_name() == name@ ==> r == Some(k),
    {
        let mut i: usize = 0;
        while i < 5
            invariant
                i <= 5,
                forall|j: int| 0 <= j < i ==> lens_at(j).spec_name() != name@,
            decreases 5 - i,
        {
            let lens = LENSES[i];
            assert(lens == lens_at(i as int));
            if str_eq(lens.name(), name) {
                proof {
                    assert forall|k: Lens| #[trigger] k.spec_name() == name@ implies Some(lens) == Some(k) by {
                        Lens::lemma_names_distinct(k, lens);
                    }
                }
                return Some(lens);
            }
            i = i + 1;
        }
        assert forall|lens: Lens| lens.spec_name() != name@ by {
            assert(lens == lens_at(lens.spec_index() as int));
        }
        None
    }

    /// This lens's position in [`LENSES`], for indexing per-lens arrays.
    pub fn index(self) -> (r: usize)
        ensures
            r == self.spec_index(),
            r < 5,
            lens_at(r as int) == self,
    {
        match self {
            Lens::Api => 0,
            Lens::Substitution => 1,
            Lens::Variation => 2,
            Lens::Boundary => 3,
            Lens::Hazard => 4,
        }
    }
}

/// Lens names are pairwise distinct, so a name read back resolves to the lens that
/// wrote it.
pub proof fn lemma_lens_names_distinct(a: Lens, b: Lens)
    ensures
        a.spec_name() == b.spec_name() ==> a == b,
{
    reveal_strlit("api");
    reveal_strlit("substitution");
    reveal_strlit("variation");
    reveal_strlit("boundary");
    reveal_strlit("hazard");
    if a != b {
        assert(a.spec_name().len() != b.spec_name().len() || a.spec_name()[0] != b.spec_name()[0]);
    }
}


/// The universal node kinds every language maps onto.
#[derive(Clone, Copy, Debug, PartialEq, Eq, Structural, Hash, PartialOrd, Ord)]
#[non_exhaustive]
pub enum NodeKind {
    /// A package or crate: the root of a containment tree.
    Package,
    /// A module or namespace.
    Module,
    /// A concrete data type.
    Type,
    /// An abstract contract.
    Interface,
    /// A binding of a contract to a type, or a bare inherent block.
    Implementation,
    /// A free function.
    Function,
    /// An item belonging to a type or implementation.
    Member,
    /// A constant or static.
    Constant,
    /// A macro definition.
    MacroDef,
    /// A foreign-interface block.
    ForeignBlock,
    /// Anything the language could not map onto a kind above.
    Other,
}

/// Every node kind, in the order [`NodeKind::all`] lists them.
pub open spec fn all_kinds() -> Seq<NodeKind> {
    seq![
        NodeKind::Package,
        NodeKind::Module,
        NodeKind::Type,
        NodeKind::Interface,
        NodeKind::Implementation,
        NodeKind::Function,
        NodeKind::Member,
        NodeKind::Constant,
        NodeKind::MacroDef,
        NodeKind::ForeignBlock,
        NodeKind::Other,
    ]
}

impl NodeKind {
    /// The kind's stable query name.
    pub open spec fn spec_name(self) -> Seq<char> {
        match self {
            NodeKind::Package => "package"@,
            NodeKind::Module => "module"@,
            NodeKind::Type => "type"@,
            NodeKind::Interface => "interface"@,
            NodeKind::Implementation => "implementation"@,
            NodeKind::Function => "function"@,
            NodeKind::Member => "member"@,
            NodeKind::Constant => "constant"@,
            NodeKind::MacroDef => "macro-def"@,
            NodeKind::ForeignBlock => "foreign-block"@,
            NodeKind::Other => "other"@,
        }
    }

    /// No two NodeKind share a name, so a name names at most one.
    pub proof fn lemma_names_distinct(a: Self, b: Self)
        ensures
            a.spec_name() == b.spec_name() ==> a == b,
    {
        reveal_strlit("package");
        reveal_strlit("module");
        reveal_strlit("type");
        reveal_strlit("interface");
        reveal_strlit("implementation");
        reveal_strlit("function");
        reveal_strlit("member");
        reveal_strlit("constant");
        reveal_strlit("macro-def");
        reveal_strlit("foreign-block");
        reveal_strlit("other");
        if a.spec_name() == b.spec_name() && a != b {
            assert(a.spec_name().len() == b.spec_name().len());
            assert(a.spec_name()[0] == b.spec_name()[0]);
            assert(a.spec_name()[1] == b.spec_name()[1]);
            assert(a.spec_name()[2] == b.spec_name()[2]);
        }
    }

    /// The kind's stable name, as written in a query (`kind:interface`).
    pub fn name(self) -> (r: &'static str)
        ensures
            r@ == self.spec_name(),
    {
        match self {
            NodeKind::Package => "package",
            NodeKind::Module => "module",
            NodeKind::Type => "type",
            NodeKind::Interface => "interface",
            NodeKind::Implementation => "implementation",
            NodeKind::Function => "function",
            NodeKind::Member => "member",
            NodeKind::Constant => "constant",
            NodeKind::MacroDef => "macro-def",
            NodeKind::ForeignBlock => "foreign-block",
            NodeKind::Other => "other",
        }
    }

    /// Every kind, for query-term suggestions and legends.
    pub fn all() -> (r: Vec<NodeKind>)
        ensures
            r@ == all_kinds(),
    {
        let r = vec![
            NodeKind::Package,
            NodeKind::Module,
            NodeKind::Type,
            NodeKind::Interface,
            NodeKind::Implementation,
            NodeKind::Function,
            NodeKind::Member,
            NodeKind::Constant,
            NodeKind::MacroDef,
            NodeKind::ForeignBlock,
            NodeKind::Other,
        ];
        assert(r@ =~= all_kinds());
        r
    }

    /// Resolve a kind from its query name, case-sensitively.
    pub fn from_name(name: &str) -> (r: Option<NodeKind>)
        ensures
            match r {
                Some(kind) => kind.spec_name() == name@,
                None => forall|kind: NodeKind| kind.spec_name() != name@,
            },
            forall|k: NodeKind| #[trigger] k.spec_name() == name@ ==> r == Some(k),
    {
        let all = NodeKind::all();
        let mut i: usize = 0;
        while i < all.len()
            invariant
                all@ == all_kinds(),
                i <= all@.len(),
                forall|j: int| 0 <= j < i ==> all_kinds()[j].spec_name() != name@,
            decreases all.len() - i,
        {
            let kind = all[i];
            if str_eq(kind.name(), name) {
                proof {
                    assert forall|k: NodeKind| #[trigger] k.spec_name() == name@ implies Some(kind) == Some(k) by {
                        NodeKind::lemma_names_distinct(k, kind);
                    }
                }
                return Some(kind);
            }
            i = i + 1;
        }
        assert forall|kind: NodeKind| kind.spec_name() != name@ by {
            assert(all_kinds().contains(kind)) by {
                match kind {
                    NodeKind::Package => assert(all_kinds()[0] == kind),
                    NodeKind::Module => assert(all_kinds()[1] == kind),
                    NodeKind::Type => assert(all_kinds()[2] == kind),
                    NodeKind::Interface => assert(all_kinds()[3] == kind),
                    NodeKind::Implementation => assert(all_kinds()[4] == kind),
                    NodeKind::Function => assert(all_kinds()[5] == kind),
                    NodeKind::Member => assert(all_kinds()[6] == kind),
                    NodeKind::Constant => assert(all_kinds()[7] == kind),
                    NodeKind::MacroDef => assert(all_kinds()[8] == kind),
                    NodeKind::ForeignBlock => assert(all_kinds()[9] == kind),
                    NodeKind::Other => assert(all_kinds()[10] == kind),
                }
            }
        }
        None
    }
}

/// Node-kind names are pairwise distinct, so every kind's name resolves back to it.
pub proof fn lemma_kind_names_distinct(a: NodeKind, b: NodeKind)
    ensures
        a.spec_name() == b.spec_name() ==> a == b,
{
    reveal_strlit("package");
    reveal_strlit("module");
    reveal_strlit("type");
    reveal_strlit("interface");
    reveal_strlit("implementation");
    reveal_strlit("function");
    reveal_strlit("member");
    reveal_strlit("constant");
    reveal_strlit("macro-def");
    reveal_strlit("foreign-block");
    reveal_strlit("other");
    if a != b && a.spec_name() == b.spec_name() {
        assert(a.spec_name().len() == b.spec_name().len());
        assert(a.spec_name()[0] == b.spec_name()[0]);
        assert(a.spec_name()[1] == b.spec_name()[1]);
    }
}

/// How far a node is visible, ordered from least to most reachable.
#[derive(Clone, Copy, Debug, PartialEq, Eq, Structural, Hash, PartialOrd, Ord)]
#[non_exhaustive]
pub enum Visibility {
    /// Visible only within its own module.
    Private,
    /// Visible to the parent module.
    Super,
    /// Visible within an explicitly named subtree.
    Restricted,
    /// Visible throughout the package.
    Crate,
    /// Visible outside the package.
    Public,
}

/// Every visibility level, least reachable first.
pub open spec fn all_visibilities() -> Seq<Visibility> {
    seq![
        Visibility::Private,
        Visibility::Super,
        Visibility::Restricted,
        Visibility::Crate,
        Visibility::Public,
    ]
}

impl Visibility {
    /// Position in the reachability order, least reachable first.
    pub open spec fn spec_rank(self) -> nat {
        match self {
            Visibility::Private => 0,
            Visibility::Super => 1,
            Visibility::Restricted => 2,
            Visibility::Crate => 3,
            Visibility::Public => 4,
        }
    }

    /// The level's stable query name.
    pub open spec fn spec_name(self) -> Seq<char> {
        match self {
            Visibility::Private => "private"@,
            Visibility::Super => "super"@,
            Visibility::Restricted => "restricted"@,
            Visibility::Crate => "crate"@,
            Visibility::Public => "public"@,
        }
    }

    /// Position in the reachability order, least reachable first.
    pub fn rank(self) -> (r: u8)
        ensures
            r == self.spec_rank(),
    {
        match self {
            Visibility::Private => 0,
            Visibility::Super => 1,
            Visibility::Restricted => 2,
            Visibility::Crate => 3,
            Visibility::Public => 4,
        }
    }

    /// Whether this level is at least as reachable as `other`.
    pub fn at_least(self, other: Visibility) -> (r: bool)
        ensures
            r == (self.spec_rank() >= other.spec_rank()),
    {
        self.rank() >= other.rank()
    }

    /// The stable name, as written in a query (`vis:crate`).
    pub fn name(self) -> (r: &'static str)
        ensures
            r@ == self.spec_name(),
    {
        match self {
            Visibility::Private => "private",
            Visibility::Super => "super",
            Visibility::Restricted => "restricted",
            Visibility::Crate => "crate",
            Visibility::Public => "public",
        }
    }

    /// Every level, least reachable first.
    pub fn all() -> (r: Vec<Visibility>)
        ensures
            r@ == all_visibilities(),
    {
        let r = vec![
            Visibility::Private,
            Visibility::Super,
            Visibility::Restricted,
            Visibility::Crate,
            Visibility::Public,
        ];
        assert(r@ =~= all_visibilities());
        r
    }

    /// Resolve a level from its query name, case-sensitively.
    pub fn from_name(name: &str) -> (r: Option<Visibility>)
        ensures
            match r {
                Some(vis) => vis.spec_name() == name@,
                None => forall|vis: Visibility| vis.spec_name() != name@,
            },
    {
        let all = Visibility::all();
        let mut i: usize = 0;
        while i < all.len()
            invariant
                all@ == all_visibilities(),
                i <= all@.len(),
                forall|j: int| 0 <= j < i ==> all_visibilities()[j].spec_name() != name@,
            decreases all.len() - i,
        {
            let vis = all[i];
            if str_eq(vis.name(), name) {
                return Some(vis);
            }
            i = i + 1;
        }
        assert forall|vis: Visibility| vis.spec_name() != name@ by {
            assert(all_visibilities()[vis.spec_rank() as int] == vis);
        }
        None
    }
}

/// Visibility names are pairwise distinct.
pub proof fn lemma_visibility_names_distinct(a: Visibility, b: Visibility)
    ensures
        a.spec_name() == b.spec_name() ==> a == b,
{
    reveal_strlit("private");
    reveal_strlit("super");
    reveal_strlit("restricted");
    reveal_strlit("crate");
    reveal_strlit("public");
    if a != b && a.spec_name() == b.spec_name() {
        assert(a.spec_name().len() == b.spec_name().len());
        assert(a.spec_name()[0] == b.spec_name()[0]);
    }
}

/// A facet's subtype within its lens — `dyn`, `unsafe`, `cfg`, and so on. Lens
/// membership is fixed; subtypes are open, and a language names its own.
#[derive(Clone, Copy, Debug, PartialEq, Eq, Hash, PartialOrd, Ord)]
pub struct FacetSubtype(pub &'static str);

impl FacetSubtype {
    /// The subtype's name, as written in a query (`substitution:dyn`).
    pub fn name(self) -> (r: &'static str)
        ensures
            r == self.0,
    {
        self.0
    }
}

/// How far a node is actually reachable once re-exports are accounted for.
#[derive(Clone, Debug, PartialEq, Eq)]
pub struct Effective {
    /// The reach after following re-export chains.
    pub reach: Visibility,
    /// The re-export that produced that reach, when one did.
    pub via: Option<SeamId>,
    /// The path the node is reachable at from outside, when it differs from its own.
    pub public_path: Option<String>,
}

/// A seam property attached to a node. Every facet belongs to exactly one lens, and a
/// facet is present or absent: there is no severity and no score.
#[derive(Clone, Debug, PartialEq, Eq)]
pub struct Facet {
    /// Which lens this facet belongs to.
    pub lens: Lens,
    /// The subtype within that lens.
    pub subtype: FacetSubtype,
    /// Supporting text — the `cfg` predicate, the linked symbol name, the trait bound.
    pub detail: Option<String>,
    /// Sub-item occurrences inside this node, when the facet describes several.
    pub sites: Vec<Range>,
    /// Effective reach, on `api` facets only.
    pub effective: Option<Effective>,
}

impl Facet {
    /// How many occurrences this facet stands for.
    pub open spec fn spec_occurrences(self) -> nat {
        if self.sites@.len() == 0 {
            1
        } else {
            self.sites@.len()
        }
    }

    /// A bare facet with no detail and no sites.
    pub fn new(lens: Lens, subtype: FacetSubtype) -> (r: Self)
        ensures
            r.lens == lens,
            r.subtype == subtype,
            r.detail is None,
            r.sites@.len() == 0,
            r.effective is None,
    {
        Facet { lens, subtype, detail: None, sites: Vec::new(), effective: None }
    }

    /// This facet with supporting text attached.
    pub fn with_detail(self, detail: String) -> (r: Self)
        ensures
            r == (Facet { detail: Some(detail), ..self }),
    {
        Facet { detail: Some(detail), ..self }
    }

    /// This facet with sub-item occurrence sites attached.
    pub fn with_sites(self, sites: Vec<Range>) -> (r: Self)
        ensures
            r == (Facet { sites: sites, ..self }),
    {
        Facet { sites, ..self }
    }

    /// This facet with an effective-reach modifier attached.
    pub fn with_effective(self, effective: Effective) -> (r: Self)
        ensures
            r == (Facet { effective: Some(effective), ..self }),
    {
        Facet { effective: Some(effective), ..self }
    }

    /// How many occurrences this facet stands for: its site count, or `1` when it
    /// describes the node itself.
    pub fn occurrences(&self) -> (r: usize)
        ensures
            r == self.spec_occurrences(),
    {
        if self.sites.len() == 0 {
            1
        } else {
            self.sites.len()
        }
    }
}

/// Whether a node is part of the tree under the active configuration: in, out, or
/// gated by something this index cannot decide.
#[derive(Clone, Copy, Debug, PartialEq, Eq, Structural, Hash)]
pub enum ConfigMembership {
    /// Compiled under the active configuration.
    Active,
    /// Excluded by the active configuration; rendered present-but-inactive.
    Inactive,
    /// Gated by a predicate this index cannot evaluate.
    Indeterminate,
}

impl Default for ConfigMembership {
    fn default() -> (r: Self)
        ensures
            r == ConfigMembership::Active,
    {
        ConfigMembership::Active
    }
}

impl ConfigMembership {
    /// The stable name, for the header and for serialized output.
    pub fn name(self) -> (r: &'static str)
        ensures
            r@ == match self {
                ConfigMembership::Active => "active"@,
                ConfigMembership::Inactive => "inactive"@,
                ConfigMembership::Indeterminate => "indeterminate"@,
            },
    {
        match self {
            ConfigMembership::Active => "active",
            ConfigMembership::Inactive => "inactive",
            ConfigMembership::Indeterminate => "indeterminate",
        }
    }
}

/// An index-local handle for a source file.
#[derive(Clone, Copy, Debug, PartialEq, Eq, Structural, Hash, PartialOrd, Ord)]
pub struct FileId(pub u32);

/// Where a node lives in the source. Neither coordinate takes part in identity.
#[derive(Clone, Copy, Debug, Default, PartialEq, Eq)]
pub struct SeamLocation {
    /// Which file, resolved through the index's file table.
    pub file: FileId,
    /// The node's full extent, for navigation.
    pub range: Range,
    /// The node's byte extent, for splicing.
    pub span: Span,
    /// The range to reveal when jumping here — usually just the name.
    pub selection: Range,
    /// The declaration head: everything up to the body the construct opens.
    pub header: Range,
}

impl Default for FileId {
    fn default() -> (r: Self)
        ensures
            r.0 == 0,
    {
        FileId(0)
    }
}

/// One node in the containment tree. It has exactly one parent and never points
/// sideways; other relations are edges.
#[derive(Clone, Debug, PartialEq)]
pub struct Node {
    /// This node's interned identity.
    pub id: SeamId,
    /// Which universal kind it maps onto.
    pub kind: NodeKind,
    /// The display name, without path or disambiguator.
    pub name: String,
    /// A short signature or descriptor, when the language offers one.
    pub detail: Option<String>,
    /// Where it lives in the source.
    pub location: SeamLocation,
    /// Its parent, or `None` at a tree root.
    pub parent: Option<SeamId>,
    /// Its children, in source order.
    pub children: Vec<SeamId>,
    /// The seam properties it carries.
    pub facets: Vec<Facet>,
    /// Its declared visibility, when the language expresses one.
    pub visibility: Option<Visibility>,
    /// Per-lens counts over this node's whole subtree, under the active configuration.
    pub rollups: Rollups,
    /// Whether the active configuration includes it.
    pub membership: ConfigMembership,
    /// Whether the subtree this node came from failed to parse cleanly.
    pub provisional: bool,
}

/// The facets of `facets` that belong to `lens`, in order.
pub open spec fn facets_of_lens(facets: Seq<Facet>, lens: Lens) -> Seq<Facet> {
    facets.filter(|f: Facet| f.lens == lens)
}

/// The first effective reach recorded on an `api` facet, if any.
pub open spec fn first_effective(facets: Seq<Facet>) -> Option<Visibility>
    decreases facets.len(),
{
    if facets.len() == 0 {
        None
    } else if facets[0].lens == Lens::Api && facets[0].effective is Some {
        Some(facets[0].effective->0.reach)
    } else {
        first_effective(facets.drop_first())
    }
}

impl Node {
    /// Every facet belonging to `lens`, in order.
    pub fn facets_for(&self, lens: Lens) -> (r: Vec<Facet>)
        ensures
            same_facets(r@, facets_of_lens(self.facets@, lens)),
    {
        let mut out: Vec<Facet> = Vec::new();
        let mut i: usize = 0;
        while i < self.facets.len()
            invariant
                i <= self.facets@.len(),
                same_facets(out@, facets_of_lens(self.facets@.subrange(0, i as int), lens)),
            decreases self.facets.len() - i,
        {
            let facet = &self.facets[i];
            proof {
                let prefix = self.facets@.subrange(0, i as int);
                assert(self.facets@.subrange(0, i + 1) =~= prefix.push(self.facets@[i as int]));
                prefix.lemma_filter_push(self.facets@[i as int], |f: Facet| f.lens == lens);
            }
            if facet.lens == lens {
                out.push(copy_facet(facet));
            }
            i = i + 1;
        }
        assert(self.facets@.subrange(0, self.facets@.len() as int) =~= self.facets@);
        out
    }

    /// Whether the node carries any facet of `lens`.
    pub fn has_lens(&self, lens: Lens) -> (r: bool)
        ensures
            r == exists|i: int| 0 <= i < self.facets@.len() && self.facets@[i].lens == lens,
    {
        let mut i: usize = 0;
        while i < self.facets.len()
            invariant
                i <= self.facets@.len(),
                forall|j: int| 0 <= j < i ==> self.facets@[j].lens != lens,
            decreases self.facets.len() - i,
        {
            if self.facets[i].lens == lens {
                return true;
            }
            i = i + 1;
        }
        false
    }

    /// Whether the node carries a facet with this exact subtype within `lens`.
    pub fn has_subtype(&self, lens: Lens, subtype: &str) -> (r: bool)
        ensures
            r == exists|i: int|
                0 <= i < self.facets@.len() && self.facets@[i].lens == lens
                    && self.facets@[i].subtype.0@ == subtype@,
    {
        let mut i: usize = 0;
        while i < self.facets.len()
            invariant
                i <= self.facets@.len(),
                forall|j: int|
                    0 <= j < i ==> !(self.facets@[j].lens == lens && self.facets@[j].subtype.0@
                        == subtype@),
            decreases self.facets.len() - i,
        {
            if self.facets[i].lens == lens && str_eq(self.facets[i].subtype.name(), subtype) {
                return true;
            }
            i = i + 1;
        }
        false
    }

    /// The node's effective reach, falling back to its declared visibility.
    pub fn effective_visibility(&self) -> (r: Option<Visibility>)
        ensures
            r == match first_effective(self.facets@) {
                Some(reach) => Some(reach),
                None => self.visibility,
            },
    {
        let mut i: usize = 0;
        assert(self.facets@.subrange(0, self.facets@.len() as int) =~= self.facets@);
        while i < self.facets.len()
            invariant
                i <= self.facets@.len(),
                first_effective(self.facets@) == first_effective(self.facets@.subrange(i as int, self.facets@.len() as int)),
            decreases self.facets.len() - i,
        {
            let facet = &self.facets[i];
            proof {
                let rest = self.facets@.subrange(i as int, self.facets@.len() as int);
                assert(rest.drop_first() =~= self.facets@.subrange(i + 1, self.facets@.len() as int));
            }
            if facet.lens == Lens::Api {
                if let Some(effective) = &facet.effective {
                    return Some(effective.reach);
                }
            }
            i = i + 1;
        }
        self.visibility
    }
}

/// Whether two facets hold the same values, field for field.
pub open spec fn same_facet(a: Facet, b: Facet) -> bool {
    &&& a.lens == b.lens
    &&& a.subtype == b.subtype
    &&& a.detail == b.detail
    &&& a.sites@ == b.sites@
    &&& a.effective == b.effective
}

/// Whether two facet lists hold the same facets in the same order.
pub open spec fn same_facets(a: Seq<Facet>, b: Seq<Facet>) -> bool {
    a.len() == b.len() && forall|i: int| 0 <= i < a.len() ==> same_facet(#[trigger] a[i], b[i])
}

/// A copy of `facet`, field for field.
pub fn copy_facet(facet: &Facet) -> (r: Facet)
    ensures
        same_facet(r, *facet),
{
    let detail = match &facet.detail {
        Some(d) => Some(d.clone()),
        None => None,
    };
    let effective = match &facet.effective {
        Some(e) => Some(Effective {
            reach: e.reach,
            via: e.via,
            public_path: match &e.public_path {
                Some(p) => Some(p.clone()),
                None => None,
            },
        }),
        None => None,
    };
    let mut sites: Vec<Range> = Vec::new();
    let mut i: usize = 0;
    while i < facet.sites.len()
        invariant
            i <= facet.sites@.len(),
            sites@ == facet.sites@.subrange(0, i as int),
        decreases facet.sites.len() - i,
    {
        sites.push(facet.sites[i]);
        i = i + 1;
        assert(sites@ =~= facet.sites@.subrange(0, i as int));
    }
    assert(sites@ =~= facet.sites@);
    Facet { lens: facet.lens, subtype: facet.subtype, detail, sites, effective }
}

} // verus!
