//! What one file contributed to an index, in a form that outlives the process.
//!
//! A file that has not changed since it was last read has nothing new to say, so what it
//! said before is kept and replayed instead of parsed again. Everything here is addressed
//! by path or by position within the contribution, never by an index-local id: a
//! [`SeamId`](crate::id::SeamId) means nothing to a different index.

use vstd::prelude::*;
use crate::coord::Range;
use crate::coord::Span;
use crate::id::SeamPath;
use crate::id::SeamSegment;
use crate::id::SegmentView;
use crate::model::Facet;
use crate::model::NodeKind;
use crate::model::Visibility;

verus! {

/// What a file looked like when it was read: modification time and length, compared for
/// equality. The platform's metadata is read at the edge; this is the plain record.
#[derive(Clone, Copy, Debug, PartialEq, Eq, Structural)]
pub struct FileStamp {
    /// Modification time, as nanoseconds since the Unix epoch.
    pub modified_nanos: u128,
    /// Length in bytes.
    pub len: u64,
}

/// Where a node's semantic owner lives, when that is not where it was written.
///
/// A Rust `impl`, a Swift extension or a TypeScript prototype assignment is written
/// beside a type that may live in another file; the owner names that type, and the
/// package layer moves the node under it once every file is in.
#[derive(Clone, Debug, PartialEq, Eq)]
pub struct Owner {
    /// The name of the type the node belongs under.
    pub base: String,
    /// The display name and path segment the node takes once moved, when it changes.
    pub rename: Option<(String, String)>,
    /// Whether the node's own level disappears, its children moving up into the owner.
    pub dissolve: bool,
}

impl Owner {
    /// Move the node under `base`, keeping its own name.
    pub fn nested(base: String) -> (r: Self)
        ensures
            r.base == base,
            r.rename is None,
            !r.dissolve,
    {
        Owner { base, rename: None, dissolve: false }
    }

    /// Dissolve the node into `base`: its children move, the node itself goes.
    pub fn dissolved(base: String) -> (r: Self)
        ensures
            r.base == base,
            r.rename is None,
            r.dissolve,
    {
        Owner { base, rename: None, dissolve: true }
    }

    /// This owner, with the node renamed to `display` under path segment `segment`.
    pub fn renamed(self, display: String, segment: String) -> (r: Self)
        ensures
            r.base == self.base,
            r.rename == Some((display, segment)),
            r.dissolve == self.dissolve,
    {
        Owner { rename: Some((display, segment)), ..self }
    }
}

/// One node as a file produced it, addressed by position within its contribution.
#[derive(Clone, Debug, PartialEq)]
pub struct CachedNode {
    /// The one segment this node adds to its parent's path.
    pub segment: SeamSegment,
    /// The position of this node's parent within the same contribution, or `None` when
    /// its parent is the node the whole file hangs from.
    pub parent: Option<u32>,
    /// The universal kind.
    pub kind: NodeKind,
    /// The display name.
    pub name: String,
    /// A short signature or descriptor.
    pub detail: Option<String>,
    /// The node's full extent.
    pub range: Range,
    /// The same extent in bytes.
    pub span: Span,
    /// The range to reveal when navigating here.
    pub selection: Range,
    /// The declaration head.
    pub header: Range,
    /// The seam properties it carries, with semantic-tier reach stripped.
    pub facets: Vec<Facet>,
    /// The declared visibility.
    pub visibility: Option<Visibility>,
    /// Whether it came from a subtree that failed to parse cleanly.
    pub provisional: bool,
}

/// A module declaration whose body lives in another file.
#[derive(Clone, Debug, PartialEq, Eq)]
pub struct CachedModule {
    /// The position, within the same contribution, of the module node awaiting contents.
    pub node: u32,
    /// The declared module name.
    pub name: String,
    /// The inline modules enclosing the declaration, outermost first.
    pub inline_path: Vec<String>,
    /// The `#[path = "…"]` override, when one is written.
    pub path_attribute: Option<String>,
}

/// Everything one file said, keyed by what it said it about.
#[derive(Clone, Debug, PartialEq)]
pub struct FileContribution {
    /// The file this came from.
    pub file: String,
    /// What it looked like when it was read.
    pub stamp: FileStamp,
    /// The node this file's contents hang from.
    pub owner: SeamPath,
    /// How many module hops from a package's entry point this file sits.
    pub depth: u32,
    /// Whether this file is a crate entry point.
    pub crate_root: bool,
    /// Every node the file produced, parents before children.
    pub nodes: Vec<CachedNode>,
    /// Module declarations whose bodies live elsewhere.
    pub external_modules: Vec<CachedModule>,
    /// Nodes whose semantic owner is named elsewhere, with the candidates to try.
    pub ownership: Vec<(u32, Vec<Owner>)>,
    /// Modules whose body could not be found, with the paths that were tried.
    pub unresolved: Vec<(u32, Vec<String>)>,
}

/// The segments from the file's owner down to the node at `index`, when every parent
/// link on the way points strictly upward.
pub open spec fn chain_of(nodes: Seq<CachedNode>, index: int) -> Option<Seq<SegmentView>>
    decreases index,
{
    if !(0 <= index < nodes.len()) {
        None
    } else {
        match nodes[index].parent {
            None => Some(seq![nodes[index].segment@]),
            Some(p) => if p >= index {
                None
            } else {
                match chain_of(nodes, p as int) {
                    Some(above) => Some(above.push(nodes[index].segment@)),
                    None => None,
                }
            },
        }
    }
}

/// The segments leading to `index`, copied out in order from the top.
fn chain_segments(nodes: &Vec<CachedNode>, index: u32) -> (r: Option<Vec<SeamSegment>>)
    ensures
        match chain_of(nodes@, index as int) {
            Some(s) => r matches Some(v) && v@.map_values(|g: SeamSegment| g@) == s,
            None => r is None,
        },
    decreases index,
{
    let i = index as usize;
    if i >= nodes.len() {
        return None;
    }
    match nodes[i].parent {
        None => {
            let mut v: Vec<SeamSegment> = Vec::new();
            v.push(nodes[i].segment.duplicate());
            assert(v@.map_values(|g: SeamSegment| g@) =~= seq![nodes@[index as int].segment@]);
            Some(v)
        },
        Some(p) => {
            if p >= index {
                return None;
            }
            match chain_segments(nodes, p) {
                Some(mut v) => {
                    let ghost before = v@;
                    v.push(nodes[i].segment.duplicate());
                    assert(v@.map_values(|g: SeamSegment| g@) =~= before.map_values(
                        |g: SeamSegment| g@,
                    ).push(nodes@[index as int].segment@));
                    Some(v)
                },
                None => None,
            }
        },
    }
}

impl FileStamp {
    /// Whether two stamps describe the same file state.
    pub fn same_as(&self, other: &FileStamp) -> (r: bool)
        ensures
            r == (*self == *other),
    {
        self.modified_nanos == other.modified_nanos && self.len == other.len
    }
}

impl FileContribution {
    /// Whether this contribution still describes the file on disk.
    pub fn matches(&self, stamp: FileStamp) -> (r: bool)
        ensures
            r == (self.stamp == stamp),
    {
        self.stamp.same_as(&stamp)
    }

    /// The full path of the node at `index`, rebuilt from the segments above it.
    ///
    /// `None` when `index` is out of range or a parent link does not point strictly
    /// upward — the writer never produces one, and refusing to follow it costs nothing.
    pub fn path_of(&self, index: u32) -> (r: Option<SeamPath>)
        ensures
            match chain_of(self.nodes@, index as int) {
                Some(s) => r matches Some(p) && p@ == self.owner@ + s,
                None => r is None,
            },
    {
        let segments = match chain_segments(&self.nodes, index) {
            Some(v) => v,
            None => return None,
        };
        let ghost want = segments@.map_values(|g: SeamSegment| g@);
        let mut path = self.owner.duplicate();
        let mut i: usize = 0;
        while i < segments.len()
            invariant
                i <= segments@.len(),
                want == segments@.map_values(|g: SeamSegment| g@),
                path@ == self.owner@ + want.take(i as int),
            decreases segments.len() - i,
        {
            path = path.child(segments[i].duplicate());
            assert(want.take(i + 1) =~= want.take(i as int).push(want[i as int]));
            assert(self.owner@ + want.take(i + 1) =~= (self.owner@ + want.take(i as int)).push(
                want[i as int],
            ));
            i = i + 1;
        }
        assert(want.take(segments@.len() as int) =~= want);
        Some(path)
    }
}

/// A copy of `facet` without the parts that are not a fact about one file: effective
/// reach is resolved across the whole index and carries an index-local id.
pub fn structural_facet(facet: &Facet) -> (r: Facet)
    ensures
        r.lens == facet.lens,
        r.subtype == facet.subtype,
        r.detail == facet.detail,
        r.sites@ == facet.sites@,
        r.effective is None,
{
    let detail = match &facet.detail {
        Some(d) => Some(d.clone()),
        None => None,
    };
    let mut sites = Vec::new();
    let mut i: usize = 0;
    while i < facet.sites.len()
        invariant
            i <= facet.sites@.len(),
            sites@ == facet.sites@.take(i as int),
        decreases facet.sites.len() - i,
    {
        sites.push(facet.sites[i]);
        assert(facet.sites@.take(i + 1) =~= facet.sites@.take(i as int).push(facet.sites@[i as int]));
        i = i + 1;
    }
    assert(facet.sites@.take(facet.sites@.len() as int) =~= facet.sites@);
    Facet { lens: facet.lens, subtype: facet.subtype, detail, sites, effective: None }
}

} // verus!
