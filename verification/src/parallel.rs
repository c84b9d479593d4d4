//! The pieces of a parallel build that are facts about one package or one file.
//!
//! A build extracts each file into a scratch index of its own — nothing is shared, so
//! nothing is locked — and records what the file produced as a [`FileContribution`]
//! addressed by position, which the package's index replays later in a fixed order. The
//! thread pool, the filesystem walk and the cache live at the edge; what is decided here
//! is which root segment each package takes, and what one file contributes.

use vstd::prelude::*;
use karet_treesitter::LanguageId;
use karet_treesitter::ParserPool;
use crate::contribution::CachedModule;
use crate::contribution::CachedNode;
use crate::contribution::FileContribution;
use crate::contribution::FileStamp;
use crate::contribution::Owner;
use crate::contribution::structural_facet;
use crate::coord::Range;
use crate::coord::Span;
use crate::discover::Discovered;
use crate::extract::extract_file;
use crate::id::SeamId;
use crate::modules::ModuleSource;
use crate::id::SeamPath;
use crate::id::SeamSegment;
use crate::id::SegmentView;
use crate::index::SeamIndex;
use crate::index::IndexView;
use crate::model::ConfigMembership;
use crate::model::Facet;
use crate::model::FileId;
use crate::model::Node;
use crate::model::NodeKind;
use crate::model::SeamLocation;
use crate::rollup::Rollups;
use crate::syntax::ParsedNode;
use crate::lang::ClassifiedView;

verus! {

/// One file waiting to be read, and where its contents hang.
pub struct FileUnit {
    /// The file.
    pub file: String,
    /// The path of the node its contents hang from.
    pub owner: SeamPath,
    /// That node's kind, which decides how top-level constructs read.
    pub owner_kind: NodeKind,
    /// The grammar it is parsed with.
    pub language: LanguageId,
    /// Whether it is a crate entry point.
    pub crate_root: bool,
    /// How many module hops from the package's entry point it sits.
    pub depth: u32,
}

// --- root segments ----------------------------------------------------------------------

/// The first ordinal from `n` on whose numbered segment is not yet claimed, or `-1`.
pub open spec fn free_from(claimed: Seq<SegmentView>, name: Seq<char>, n: int) -> int
    decreases u32::MAX + 1 - n,
{
    if n > u32::MAX || n < 0 {
        -1
    } else if !claimed.contains((name, n as u32)) {
        n
    } else {
        free_from(claimed, name, n + 1)
    }
}

/// The segment a package named `name` takes, given those already claimed: its plain name
/// when free, else its name with the first free ordinal from `2`.
pub open spec fn segment_choice(claimed: Seq<SegmentView>, name: Seq<char>) -> SegmentView {
    if !claimed.contains((name, 0u32)) {
        (name, 0u32)
    } else if free_from(claimed, name, 2) >= 0 {
        (name, free_from(claimed, name, 2) as u32)
    } else {
        (name, 0u32)
    }
}

/// The segment each of `names` takes, in order, each seeing the ones chosen before it.
pub open spec fn segments_for(names: Seq<Seq<char>>) -> Seq<SegmentView>
    decreases names.len(),
{
    if names.len() == 0 {
        Seq::empty()
    } else {
        let before = segments_for(names.drop_last());
        before.push(segment_choice(before, names.last()))
    }
}

proof fn lemma_segments_for_len(names: Seq<Seq<char>>)
    ensures
        segments_for(names).len() == names.len(),
    decreases names.len(),
{
    if names.len() > 0 {
        lemma_segments_for_len(names.drop_last());
    }
}

/// Whether `segment` is among `claimed`.
fn claims(claimed: &Vec<SeamSegment>, name: &String, ordinal: u32) -> (r: bool)
    ensures
        r == claimed@.map_values(|g: SeamSegment| g@).contains((name@, ordinal)),
{
    let ghost view = claimed@.map_values(|g: SeamSegment| g@);
    let mut i: usize = 0;
    while i < claimed.len()
        invariant
            i <= claimed@.len(),
            view == claimed@.map_values(|g: SeamSegment| g@),
            forall|j: int| 0 <= j < i ==> view[j] != (name@, ordinal),
        decreases claimed.len() - i,
    {
        assert(view[i as int] == claimed@[i as int]@);
        if crate::text::str_eq(claimed[i].name.as_str(), name.as_str()) && claimed[i].ordinal == ordinal {
            return true;
        }
        i = i + 1;
    }
    false
}

/// A distinct root segment per package, in discovery order.
///
/// Two ecosystems can name packages alike, and identity is the path, so without this
/// the second would intern onto the first and silently overwrite it. The disambiguator
/// is the path model's own ordinal (`myapp#2`), so the result still reads back as a path.
pub fn root_segments(packages: &Vec<Discovered>) -> (r: Vec<SeamSegment>)
    ensures
        r@.map_values(|g: SeamSegment| g@) == segments_for(packages@.map_values(|p: Discovered| p.name@)),
{
    let ghost names = packages@.map_values(|p: Discovered| p.name@);
    let mut out: Vec<SeamSegment> = Vec::new();
    let mut i: usize = 0;
    while i < packages.len()
        invariant
            i <= packages@.len(),
            names == packages@.map_values(|p: Discovered| p.name@),
            out@.map_values(|g: SeamSegment| g@) == segments_for(names.take(i as int)),
        decreases packages.len() - i,
    {
        let name = &packages[i].name;
        let ghost claimed = out@.map_values(|g: SeamSegment| g@);
        proof {
            assert(names.take(i + 1).drop_last() =~= names.take(i as int));
            assert(names.take(i + 1).last() == name@);
        }
        let chosen = if !claims(&out, name, 0) {
            SeamSegment::new(name.clone())
        } else {
            let mut n: u64 = 2;
            let mut found: Option<u32> = None;
            loop
                invariant_except_break
                    found is None,
                invariant
                    2 <= n <= 4294967296,
                    claimed == out@.map_values(|g: SeamSegment| g@),
                    free_from(claimed, name@, 2) == free_from(claimed, name@, n as int),
                ensures
                    match found {
                        Some(k) => free_from(claimed, name@, 2) == k,
                        None => free_from(claimed, name@, 2) == -1,
                    },
                decreases 4294967296 - n,
            {
                if n > 4294967295 {
                    break;
                }
                if !claims(&out, name, n as u32) {
                    found = Some(n as u32);
                    break;
                }
                n = n + 1;
            }
            match found {
                Some(k) => SeamSegment::numbered(name.clone(), k),
                None => SeamSegment::new(name.clone()),
            }
        };
        assert(chosen@ == segment_choice(claimed, name@));
        let ghost before = out@;
        out.push(chosen);
        proof {
            assert(out@.map_values(|g: SeamSegment| g@) =~= claimed.push(chosen@));
        }
        i = i + 1;
    }
    assert(names.take(i as int) =~= names);
    out
}

// --- one file ---------------------------------------------------------------------------

/// A stand-in for the node a file hangs from: the id and kind extraction reads of its
/// parent, and nothing else.
pub fn stand_in(id: SeamId, kind: NodeKind) -> (r: Node)
    ensures
        r.id == id,
        r.kind == kind,
        r.name@.len() == 0,
        r.detail is None,
        r.parent is None,
        r.children@.len() == 0,
        r.facets@.len() == 0,
        r.visibility is None,
        r.membership == ConfigMembership::Active,
        !r.provisional,
{
    Node {
        id,
        kind,
        name: String::new(),
        detail: None,
        location: SeamLocation {
            file: FileId(0),
            range: Range::origin(),
            span: Span::origin(),
            selection: Range::origin(),
            header: Range::origin(),
        },
        parent: None,
        children: Vec::new(),
        facets: Vec::new(),
        visibility: None,
        rollups: Rollups::new(),
        membership: ConfigMembership::Active,
        provisional: false,
    }
}

/// Add a package's root node under `segment`, pointing at the package's anchor file.
pub fn add_package_node(index: &mut SeamIndex, package: &Discovered, segment: SeamSegment) -> (r: SeamId)
    requires
        old(index).wf(),
    ensures
        final(index).wf(),
        final(index)@.nodes.contains_key(r),
        final(index)@.nodes[r].kind == NodeKind::Package,
        final(index)@.nodes[r].name@ == package.name@,
        final(index)@.nodes[r].parent is None,
        final(index)@.roots.contains(r),
{
    let ghost seg = segment@;
    let mut segments: Vec<SeamSegment> = Vec::new();
    segments.push(segment);
    let id = index.intern(SeamPath::new(segments));
    let file = index.intern_file(package.anchor.as_str());
    let node = Node {
        id,
        kind: NodeKind::Package,
        name: package.name.clone(),
        detail: None,
        location: SeamLocation {
            file,
            range: Range::origin(),
            span: Span::origin(),
            selection: Range::origin(),
            header: Range::origin(),
        },
        parent: None,
        children: Vec::new(),
        facets: Vec::new(),
        visibility: None,
        rollups: Rollups::new(),
        membership: ConfigMembership::Active,
        provisional: false,
    };
    let ghost before = index@.roots;
    index.insert(node);
    proof {
        if !before.contains(id) {
            assert(index@.roots[before.len() as int] == id);
        }
    }
    id
}

/// The last position of `id` in `added` that a `u32` can hold.
pub open spec fn last_position(added: Seq<SeamId>, id: SeamId) -> Option<u32>
    decreases added.len(),
{
    if added.len() == 0 {
        None
    } else if added.last() == id && added.len() - 1 <= u32::MAX {
        Some((added.len() - 1) as u32)
    } else {
        last_position(added.drop_last(), id)
    }
}

/// A position found for `id` lies within `added`; one is found wherever `id` occurs and
/// every position fits a `u32`.
proof fn lemma_last_position(added: Seq<SeamId>, id: SeamId)
    ensures
        last_position(added, id) matches Some(n) ==> n < added.len() && added[n as int] == id,
        added.contains(id) && added.len() <= u32::MAX + 1 ==> last_position(added, id) is Some,
    decreases added.len(),
{
    if added.len() > 0 {
        lemma_last_position(added.drop_last(), id);
        if added.contains(id) && added.last() != id {
            let x = choose|x: int| 0 <= x < added.len() && added[x] == id;
            assert(added.drop_last()[x] == id);
        }
    }
}

/// The last position of `id` in `added` that a `u32` can hold.
fn position_of(added: &Vec<SeamId>, id: SeamId) -> (r: Option<u32>)
    ensures
        r == last_position(added@, id),
{
    let mut i: usize = added.len();
    assert(added@.take(i as int) =~= added@);
    while i > 0
        invariant
            i <= added@.len(),
            last_position(added@, id) == last_position(added@.take(i as int), id),
        decreases i,
    {
        let ghost t = added@.take(i as int);
        assert(t.drop_last() =~= added@.take(i - 1));
        assert(t.last() == added@[i - 1]);
        if added[i - 1] == id && i - 1 <= 4294967295 {
            return Some((i - 1) as u32);
        }
        i = i - 1;
    }
    None
}

/// Copies of `facets` without what is not a fact about one file.
fn structural_facets(facets: &Vec<Facet>) -> (r: Vec<Facet>)
    ensures
        r@.len() == facets@.len(),
        forall|i: int| 0 <= i < r@.len() ==> (#[trigger] r@[i]).effective is None && r@[i].lens == facets@[i].lens
            && r@[i].subtype == facets@[i].subtype && r@[i].sites@ == facets@[i].sites@,
{
    let mut out: Vec<Facet> = Vec::new();
    let mut i: usize = 0;
    while i < facets.len()
        invariant
            i <= facets@.len(),
            out@.len() == i,
            forall|j: int| 0 <= j < i ==> (#[trigger] out@[j]).effective is None && out@[j].lens == facets@[j].lens
                && out@[j].subtype == facets@[j].subtype && out@[j].sites@ == facets@[j].sites@,
        decreases facets.len() - i,
    {
        out.push(structural_facet(&facets[i]));
        i = i + 1;
    }
    out
}

/// Extract one file into a scratch index of its own, and record what it produced: every
/// node it added, addressed by position so the tree is stored as offsets rather than a
/// path per node, with reach resolved across the whole index stripped from its facets.
///
/// `None` when the file's language has no mapping or no tree could be produced. Which
/// declared modules are missing is for the caller to settle, since only it can ask which
/// candidate file exists.
/// Whether cached node `c` at position `k` is what one of `ents` from `k` on adds.
pub open spec fn matched_from(c: CachedNode, ents: Seq<crate::extract::EntityView>, k: int) -> bool {
    exists|j: int| k <= j < ents.len() && #[trigger] cached_entity(c, ents[j])
}

/// The entities extracting `text` as `unit`'s language yields beneath its owner.
pub open spec fn isolated_entities(unit: FileUnit, text: Seq<char>) -> Seq<crate::extract::EntityView> {
    crate::extract::entities_under(
        crate::lang::mapping_for(unit.language)->0,
        crate::syntax::parsed_tree(unit.language, text)->0,
        text,
        unit.owner_kind,
    )
}

/// Whether cached node `c` is what entity `e` adds: its kind, name, detail, selection
/// and visibility as classified, its span the syntax node's bytes, provisional when
/// that part of the parse failed.
pub open spec fn cached_entity(c: CachedNode, e: crate::extract::EntityView) -> bool {
    &&& c.kind == e.1.0
    &&& c.name@ == e.1.1
    &&& (match c.detail { Some(d) => Some(d@), None => None::<Seq<char>> }) == e.1.3
    &&& c.selection == e.1.4
    &&& c.visibility == e.1.5
    &&& c.span == crate::coord::Span { start: crate::coord::BytePos(e.0.start), end: crate::coord::BytePos(e.0.end) }
    &&& c.provisional == e.0.has_error
}

pub fn extract_isolated(unit: &FileUnit, stamp: FileStamp, text: &str, pool: &mut ParserPool) -> (r: Option<FileContribution>)
    requires
        text@.len() < usize::MAX / 4,
    ensures
        r is Some == (crate::lang::mapping_for(unit.language) is Some
            && crate::syntax::parsed_tree(unit.language, text@) is Some),
        r matches Some(c) ==> {
            &&& c.file@ == unit.file@
            &&& c.stamp == stamp
            &&& c.owner@ == unit.owner@
            &&& c.depth == unit.depth
            &&& c.crate_root == unit.crate_root
            &&& c.unresolved@.len() == 0
            &&& forall|k: int| 0 <= k < c.nodes@.len() ==> forall|j: int| 0 <= j < (#[trigger] c.nodes@[k]).facets@.len()
                ==> (#[trigger] c.nodes@[k].facets@[j]).effective is None
            &&& forall|k: int| 0 <= k < c.nodes@.len() ==> ((#[trigger] c.nodes@[k]).parent matches Some(p) ==> p < c.nodes@.len())
            &&& forall|k: int| 0 <= k < c.external_modules@.len() ==> (#[trigger] c.external_modules@[k]).node < c.nodes@.len()
            &&& forall|k: int| 0 <= k < c.ownership@.len() ==> (#[trigger] c.ownership@[k]).0 < c.nodes@.len()
            &&& c.nodes@.len() == isolated_entities(*unit, text@).len()
            &&& forall|k: int| 0 <= k < c.nodes@.len() ==> matched_from(#[trigger] c.nodes@[k], isolated_entities(*unit, text@), k)
        },
{
    let mut scratch = SeamIndex::new();
    let owner = scratch.intern(unit.owner.duplicate());
    scratch.insert(stand_in(owner, unit.owner_kind));
    let file = scratch.intern_file(unit.file.as_str());
    let ghost before_extract = scratch@;
    assert(crate::extract::root_kind(before_extract, owner) == unit.owner_kind);
    let outcome = match extract_file(&mut scratch, pool, owner, file, unit.language, text) {
        Ok(o) => o,
        Err(_) => return None,
    };
    let ghost ents = isolated_entities(*unit, text@);
    assert(crate::extract::holds_entities(scratch@, outcome.added@, ents, owner));
    let mut nodes: Vec<CachedNode> = Vec::new();
    let mut i: usize = 0;
    while i < outcome.added.len()
        invariant
            i <= outcome.added@.len(),
            scratch.wf(),
            nodes@.len() == i,
            forall|k: int| 0 <= k < outcome.added@.len() ==> scratch@.nodes.contains_key(#[trigger] outcome.added@[k]),
            forall|k: int| 0 <= k < outcome.added@.len() ==> (#[trigger] outcome.added@[k]).0 < scratch@.paths.len(),
            forall|k: int| 0 <= k < nodes@.len() ==> forall|j: int| 0 <= j < (#[trigger] nodes@[k]).facets@.len()
                ==> (#[trigger] nodes@[k].facets@[j]).effective is None,
            forall|k: int| 0 <= k < nodes@.len() ==> ((#[trigger] nodes@[k]).parent matches Some(p) ==> p < outcome.added@.len()),
            crate::extract::holds_entities(scratch@, outcome.added@, ents, owner),
            ents.len() == outcome.added@.len(),
            forall|k: int| 0 <= k < nodes@.len() ==> matched_from(#[trigger] nodes@[k], ents, k),
        decreases outcome.added.len() - i,
    {
        proof {
            assert(scratch@.nodes.contains_key(outcome.added@[i as int]));
            assert(outcome.added@[i as int].0 < scratch@.paths.len());
        }
        let id = outcome.added[i];
        match (scratch.path(id), scratch.node(id)) {
            (Some(path), Some(node)) => {
                let segs = path.segments();
                let segment = if segs.len() > 0 {
                    segs[segs.len() - 1].duplicate()
                } else {
                    SeamSegment::new(String::new())
                };
                let parent = match node.parent {
                    Some(p) => position_of(&outcome.added, p),
                    None => None,
                };
                proof {
                    if node.parent is Some {
                        lemma_last_position(outcome.added@, node.parent->0);
                    }
                }
                let facets = structural_facets(&node.facets);
                let cached = CachedNode {
                    segment,
                    parent,
                    kind: node.kind,
                    name: node.name.clone(),
                    detail: match &node.detail {
                        Some(d) => Some(d.clone()),
                        None => None,
                    },
                    range: node.location.range,
                    span: node.location.span,
                    selection: node.location.selection,
                    header: node.location.header,
                    facets,
                    visibility: node.visibility,
                    provisional: node.provisional,
                };
                let ghost nodes_before = nodes@;
                nodes.push(cached);
                proof {
                    crate::extract::lemma_last_use_exists(outcome.added@, i as int);
                    let w = choose|w: int| i <= w < outcome.added@.len() && outcome.added@[w] == outcome.added@[i as int]
                        && #[trigger] crate::extract::last_use(outcome.added@, w);
                    assert(outcome.added@[w] == id);
                    assert(*node == scratch@.nodes[id]);
                    assert(crate::extract::entity_node(scratch@.nodes[outcome.added@[w]], ents[w]));
                    assert(cached_entity(nodes@[i as int], ents[w]));
                    assert(matched_from(nodes@[i as int], ents, i as int));
                    assert forall|k: int| 0 <= k < nodes@.len() implies matched_from(#[trigger] nodes@[k], ents, k) by {
                        if k < i {
                            assert(nodes@[k] == nodes_before[k]);
                        }
                    }
                }
            },
            _ => {},
        }
        i = i + 1;
    }
    // Each declaration and each ownership claim is addressed by its node's position
    // among the nodes the file added.
    let mut external_modules: Vec<CachedModule> = Vec::new();
    let mut k: usize = 0;
    while k < outcome.external_modules.len()
        invariant
            k <= outcome.external_modules@.len(),
            nodes@.len() == outcome.added@.len(),
            forall|m: int| 0 <= m < external_modules@.len() ==> (#[trigger] external_modules@[m]).node < nodes@.len(),
        decreases outcome.external_modules.len() - k,
    {
        let declaration = &outcome.external_modules[k];
        proof {
            lemma_last_position(outcome.added@, declaration.id);
        }
        match position_of(&outcome.added, declaration.id) {
            Some(node) => {
                external_modules.push(CachedModule {
                    node,
                    name: declaration.name.clone(),
                    inline_path: declaration.inline_path.clone(),
                    path_attribute: match &declaration.path_attribute {
                        Some(p) => Some(p.clone()),
                        None => None,
                    },
                });
            },
            None => {},
        }
        k = k + 1;
    }
    let mut ownership: Vec<(u32, Vec<Owner>)> = Vec::new();
    let mut k: usize = 0;
    while k < outcome.ownership.len()
        invariant
            k <= outcome.ownership@.len(),
            nodes@.len() == outcome.added@.len(),
            forall|m: int| 0 <= m < ownership@.len() ==> (#[trigger] ownership@[m]).0 < nodes@.len(),
        decreases outcome.ownership.len() - k,
    {
        let (id, owners) = &outcome.ownership[k];
        proof {
            lemma_last_position(outcome.added@, *id);
        }
        match position_of(&outcome.added, *id) {
            Some(node) => {
                ownership.push((node, owners.clone()));
            },
            None => {},
        }
        k = k + 1;
    }
    Some(FileContribution {
        file: unit.file.clone(),
        stamp,
        owner: unit.owner.duplicate(),
        depth: unit.depth,
        crate_root: unit.crate_root,
        nodes,
        external_modules,
        ownership,
        unresolved: Vec::new(),
    })
}

// --- assembling a package ---------------------------------------------------------

/// Whether `a` is replayed before `b`: shallower first, then by file name. A declared
/// module's file is always deeper than the file declaring it, so every parent goes in
/// before the child that needs it, and the order is the module tree's rather than the
/// order the files happened to finish in.
pub open spec fn replay_before(a: FileContribution, b: FileContribution) -> bool {
    a.depth < b.depth || (a.depth == b.depth && crate::query::parse::lex_lt(a.file@, b.file@))
}

/// Whether no contribution of `s` comes after one that should be replayed after it.
pub open spec fn in_replay_order(s: Seq<FileContribution>) -> bool {
    forall|i: int, j: int| 0 <= i < j < s.len() ==> !replay_before(#[trigger] s[j], #[trigger] s[i])
}

/// Replaying before is transitive.
proof fn lemma_replay_before_trans(a: FileContribution, b: FileContribution, c: FileContribution)
    requires
        replay_before(a, b),
        replay_before(b, c),
    ensures
        replay_before(a, c),
{
    if a.depth == b.depth && b.depth == c.depth {
        crate::query::parse::lemma_lex_trans(a.file@, b.file@, c.file@);
    }
}

/// Whether `a` is replayed before `b`.
fn replays_before(a: &FileContribution, b: &FileContribution) -> (r: bool)
    ensures
        r == replay_before(*a, *b),
{
    if a.depth != b.depth {
        a.depth < b.depth
    } else {
        crate::query::parse::text_lt(&crate::text::chars_of(a.file.as_str()), &crate::text::chars_of(b.file.as_str()))
    }
}

/// The contributions in replay order: every one kept, none added, sorted stably by
/// depth and then file name.
pub fn replay_order(contributions: Vec<FileContribution>) -> (r: Vec<FileContribution>)
    ensures
        in_replay_order(r@),
        r@.to_multiset() == contributions@.to_multiset(),
{
    let ghost all = contributions@;
    let mut rest = contributions;
    let mut out: Vec<FileContribution> = Vec::new();
    proof {
        assert(out@.to_multiset().add(rest@.to_multiset()) =~= all.to_multiset()) by {
            vstd::seq_lib::to_multiset_len(out@);
            assert(out@.to_multiset() =~= vstd::multiset::Multiset::empty());
        }
    }
    while rest.len() > 0
        invariant
            in_replay_order(out@),
            out@.to_multiset().add(rest@.to_multiset()) == all.to_multiset(),
        decreases rest.len(),
    {
        let ghost before_rest = rest@;
        let c = rest.pop().unwrap();
        proof {
            assert(before_rest =~= rest@.push(c));
            vstd::seq_lib::to_multiset_build(rest@, c);
        }
        let mut k: usize = 0;
        while k < out.len() && !replays_before(&c, &out[k])
            invariant
                k <= out@.len(),
                forall|i: int| 0 <= i < k ==> !replay_before(c, #[trigger] out@[i]),
            decreases out.len() - k,
        {
            k = k + 1;
        }
        let ghost before_out = out@;
        out.insert(k, c);
        proof {
            vstd::seq_lib::to_multiset_insert(before_out, k as int, c);
            assert(out@ == before_out.insert(k as int, c));
            assert forall|i: int, j: int| 0 <= i < j < out@.len() implies !replay_before(#[trigger] out@[j], #[trigger] out@[i]) by {
                if j < k {
                    assert(out@[j] == before_out[j] && out@[i] == before_out[i]);
                } else if j == k {
                    assert(out@[i] == before_out[i]);
                } else if i == k {
                    assert(out@[j] == before_out[j - 1]);
                    assert(replay_before(c, before_out[k as int]));
                    if replay_before(before_out[j - 1], c) {
                        lemma_replay_before_trans(before_out[j - 1], c, before_out[k as int]);
                        if j - 1 > k {
                            assert(!replay_before(before_out[j - 1], before_out[k as int]));
                        } else {
                            assert(j - 1 == k);
                            crate::query::parse::lemma_lex_irreflexive(before_out[k as int].file@);
                        }
                    }
                } else if i < k {
                    assert(out@[j] == before_out[j - 1] && out@[i] == before_out[i]);
                } else {
                    assert(out@[j] == before_out[j - 1] && out@[i] == before_out[i - 1]);
                }
            }
            assert(out@.to_multiset().add(rest@.to_multiset()) =~= all.to_multiset());
        }
    }
    proof {
        vstd::seq_lib::to_multiset_len(rest@);
        assert(rest@.to_multiset() =~= vstd::multiset::Multiset::empty());
        assert(out@.to_multiset().add(rest@.to_multiset()) =~= out@.to_multiset());
    }
    out
}

/// Whether no two contributions of `s` share a depth and a file name.
pub open spec fn keys_distinct(s: Seq<FileContribution>) -> bool {
    forall|i: int, j: int| 0 <= i < s.len() && 0 <= j < s.len() && i != j
        ==> !((#[trigger] s[i]).depth == (#[trigger] s[j]).depth && s[i].file@ == s[j].file@)
}

/// Replay order is canonical: two orderings of the same contributions, no two sharing
/// a depth and a file, are the same sequence. So the order a package's files are
/// replayed in, and with it every id they get, does not depend on the order the files
/// finished in.
pub proof fn lemma_replay_order_canonical(a: Seq<FileContribution>, b: Seq<FileContribution>)
    requires
        in_replay_order(a),
        in_replay_order(b),
        a.to_multiset() == b.to_multiset(),
        keys_distinct(a),
    ensures
        a == b,
    decreases a.len(),
{
    vstd::seq_lib::to_multiset_len(a);
    vstd::seq_lib::to_multiset_len(b);
    if a.len() == 0 {
        assert(a =~= b);
    } else {
        let x = a[0];
        let y = b[0];
        vstd::seq_lib::to_multiset_contains(a, y);
        vstd::seq_lib::to_multiset_contains(b, y);
        vstd::seq_lib::to_multiset_contains(a, x);
        vstd::seq_lib::to_multiset_contains(b, x);
        assert(b.contains(y));
        assert(a.contains(x));
        let i = choose|i: int| 0 <= i < a.len() && a[i] == y;
        let j = choose|j: int| 0 <= j < b.len() && b[j] == x;
        if i > 0 {
            assert(!replay_before(a[i], a[0]));
        }
        if j > 0 {
            assert(!replay_before(b[j], b[0]));
        }
        crate::query::parse::lemma_lex_total(x.file@, y.file@);
        if x != y {
            crate::query::parse::lemma_lex_irreflexive(x.file@);
            assert(x.depth == y.depth && x.file@ == y.file@);
            assert(i != 0);
        }
        assert(x == y);
        vstd::seq_lib::to_multiset_remove(a, 0);
        vstd::seq_lib::to_multiset_remove(b, 0);
        assert(a.remove(0) =~= a.drop_first());
        assert(b.remove(0) =~= b.drop_first());
        let a1 = a.drop_first();
        let b1 = b.drop_first();
        assert forall|p: int, q: int| 0 <= p < q < a1.len() implies !replay_before(#[trigger] a1[q], #[trigger] a1[p]) by {
            assert(a1[q] == a[q + 1] && a1[p] == a[p + 1]);
        }
        assert forall|p: int, q: int| 0 <= p < q < b1.len() implies !replay_before(#[trigger] b1[q], #[trigger] b1[p]) by {
            assert(b1[q] == b[q + 1] && b1[p] == b[p + 1]);
        }
        assert forall|p: int, q: int| 0 <= p < a1.len() && 0 <= q < a1.len() && p != q
            implies !((#[trigger] a1[p]).depth == (#[trigger] a1[q]).depth && a1[p].file@ == a1[q].file@) by {
            assert(a1[q] == a[q + 1] && a1[p] == a[p + 1]);
        }
        lemma_replay_order_canonical(a1, b1);
        assert(a =~= seq![x] + a1);
        assert(b =~= seq![y] + b1);
    }
}

/// Put a package's files into its index: each contribution replayed in replay order,
/// so ids do not depend on the order the files finished in; then every ownership hint
/// they carried resolved against the whole package at once; then the file cap, when
/// one cut the walk short, recorded; then the counts recomputed. Returns the
/// contributions in the order they were replayed.
/// Ownership claims as values.
pub open spec fn claims_view(s: Seq<(SeamId, Vec<Owner>)>) -> Seq<(SeamId, Seq<Owner>)> {
    s.map_values(|e: (SeamId, Vec<Owner>)| (e.0, e.1@))
}

/// `lists` one after another.
pub open spec fn joined(lists: Seq<Seq<(SeamId, Seq<Owner>)>>) -> Seq<(SeamId, Seq<Owner>)>
    decreases lists.len(),
{
    if lists.len() == 0 {
        Seq::empty()
    } else {
        joined(lists.drop_last()) + lists.last()
    }
}

/// Whether `after` is `before` with contribution `c` replayed, handing back `hints`:
/// nothing changes when `before` does not hold the owner's path; otherwise each node is
/// held under its path, carried from the cache beneath its parent, the file recorded,
/// and the ownership claims translated to ids.
pub open spec fn replayed_step(before: IndexView, after: IndexView, c: FileContribution, hints: Seq<(SeamId, Seq<Owner>)>) -> bool {
    if !before.paths.contains(c.owner@) {
        after == before && hints.len() == 0
    } else {
        &&& before.paths.is_prefix_of(after.paths)
        &&& after.files.contains(c.file@)
        &&& forall|j: int| 0 <= j < c.nodes@.len() ==> #[trigger] after.paths.contains(
            crate::index::replay_path(c.owner@, c.nodes@, j),
        )
        &&& after.paths.len() <= u32::MAX + 1 ==> forall|j: int|
            0 <= j < c.nodes@.len() && #[trigger] crate::index::last_at_path(c.owner@, c.nodes@, j) ==> exists|k: int|
                0 <= k < after.paths.len() && after.paths[k] == crate::index::replay_path(c.owner@, c.nodes@, j)
                    && after.nodes.contains_key(SeamId(k as u32)) && exists|f: int|
                        0 <= f < after.files.len() && after.files[f] == c.file@
                            && crate::index::replayed(after.nodes[SeamId(k as u32)], c.nodes@[j], FileId(crate::id::id_for(f)))
                    && crate::index::hangs_as_replayed(after.paths, after.nodes[SeamId(k as u32)], c.owner@, c.nodes@, j)
        &&& hints == crate::index::translated_hints(after.paths, c.owner@, c.nodes@, c.ownership@)
        &&& exists|f: int| 0 <= f < after.files.len() && after.files[f] == c.file@
            && after.attribution == match crate::index::path_grammar(c.file@) {
                Some(l) => before.attribution.insert(FileId(crate::id::id_for(f)), (crate::index::id_of_path(before.paths, c.owner@), l)),
                None => before.attribution,
            }
        &&& after.unresolved == before.unresolved
            + crate::index::translated_marks(after.paths, c.owner@, c.nodes@, c.unresolved@)
    }
}

/// Whether `states` and `hints` trace replaying `cs` in order from `before`, one step each.
pub open spec fn replay_trace(before: IndexView, cs: Seq<FileContribution>, states: Seq<IndexView>, hints: Seq<Seq<(SeamId, Seq<Owner>)>>) -> bool {
    &&& states.len() == cs.len() + 1
    &&& hints.len() == cs.len()
    &&& states[0] == before
    &&& forall|i: int| 0 <= i < cs.len() ==> #[trigger] replayed_step(states[i], states[i + 1], cs[i], hints[i])
}

/// `v` with the walk recorded as cut short after `truncated` files, when it was.
pub open spec fn marked(v: IndexView, truncated: Option<usize>) -> IndexView {
    match truncated {
        Some(n) => IndexView { truncated: Some(n), ..v },
        None => v,
    }
}

/// Whether `after` is `before` with `cs` replayed in order, the ownership claims they
/// hand back regrouped in that order, the cap recorded, and the rollups recomputed.
pub open spec fn assembled(before: IndexView, after: IndexView, cs: Seq<FileContribution>, truncated: Option<usize>) -> bool {
    exists|states: Seq<IndexView>, hints: Seq<Seq<(SeamId, Seq<Owner>)>>, own: Seq<(SeamId, Vec<Owner>)>,
        grouped: IndexView, rstates: Seq<IndexView>, rqueues: Seq<Seq<SeamId>>|
        #![trigger replay_trace(before, cs, states, hints), crate::regroup::regroup_trace(states.last(), grouped, own, rstates, rqueues)]
        replay_trace(before, cs, states, hints)
            && claims_view(own) == joined(hints)
            && crate::regroup::regroup_trace(states.last(), grouped, own, rstates, rqueues)
            && crate::index::rollups_only(after, marked(grouped, truncated))
}

pub fn assemble_package(index: &mut SeamIndex, contributions: Vec<FileContribution>, truncated: Option<usize>) -> (r: Vec<FileContribution>)
    requires
        old(index).wf(),
    ensures
        final(index).wf(),
        in_replay_order(r@),
        r@.to_multiset() == contributions@.to_multiset(),
        truncated matches Some(n) ==> final(index)@.truncated == Some(n),
        assembled(old(index)@, final(index)@, r@, truncated),
{
    let ordered = replay_order(contributions);
    let mut ownership: Vec<(SeamId, Vec<Owner>)> = Vec::new();
    let ghost mut states: Seq<IndexView> = seq![index@];
    let ghost mut hint_lists: Seq<Seq<(SeamId, Seq<Owner>)>> = Seq::empty();
    let mut i: usize = 0;
    while i < ordered.len()
        invariant
            index.wf(),
            i <= ordered@.len(),
            replay_trace(old(index)@, ordered@.take(i as int), states, hint_lists),
            states.last() == index@,
            claims_view(ownership@) == joined(hint_lists),
        decreases ordered.len() - i,
    {
        let ghost before = index@;
        let ghost own_before = ownership@;
        let ghost step_hints: Seq<(SeamId, Seq<Owner>)>;
        match index.replay(&ordered[i]) {
            Some(hints) => {
                let mut hints = hints;
                proof {
                    step_hints = claims_view(hints@);
                }
                ownership.append(&mut hints);
                proof {
                    assert(claims_view(ownership@) =~= claims_view(own_before) + step_hints);
                }
            },
            None => {
                proof {
                    step_hints = Seq::empty();
                    assert(claims_view(ownership@) =~= claims_view(own_before) + step_hints);
                }
            },
        }
        proof {
            assert(replayed_step(before, index@, ordered@[i as int], step_hints));
            let old_states = states;
            let old_lists = hint_lists;
            states = states.push(index@);
            hint_lists = hint_lists.push(step_hints);
            assert(hint_lists.drop_last() =~= old_lists);
            assert(ordered@.take(i + 1) =~= ordered@.take(i as int).push(ordered@[i as int]));
            assert forall|j: int| 0 <= j < i + 1 implies #[trigger] replayed_step(states[j], states[j + 1], ordered@.take(i + 1)[j], hint_lists[j]) by {
                if j < i {
                    assert(states[j] == old_states[j]);
                    assert(states[j + 1] == old_states[j + 1]);
                    assert(hint_lists[j] == old_lists[j]);
                    assert(ordered@.take(i + 1)[j] == ordered@.take(i as int)[j]);
                }
            }
        }
        i = i + 1;
    }
    assert(ordered@.take(ordered@.len() as int) =~= ordered@);
    let ghost replayed = index@;
    let ghost own = ownership@;
    crate::regroup::apply(index, ownership);
    let ghost grouped = index@;
    match truncated {
        Some(scanned) => index.mark_truncated(scanned),
        None => {},
    }
    assert(index@ == marked(grouped, truncated));
    index.recompute_rollups();
    proof {
        let (rs, rq) = choose|rs: Seq<IndexView>, rq: Seq<Seq<SeamId>>|
            #[trigger] crate::regroup::regroup_trace(replayed, grouped, own, rs, rq);
        assert(replay_trace(old(index)@, ordered@, states, hint_lists));
        assert(crate::regroup::regroup_trace(states.last(), grouped, own, rs, rq));
        assert(assembled(old(index)@, index@, ordered@, truncated));
    }
    ordered
}

// --- walking on from a file ------------------------------------------------------------

/// What a file unit holds, as values.
pub type UnitView = (Seq<char>, Seq<SegmentView>, NodeKind, LanguageId, bool, u32);

/// What `u` holds.
pub open spec fn unit_view(u: FileUnit) -> UnitView {
    (u.file@, u.owner@, u.owner_kind, u.language, u.crate_root, u.depth)
}

/// The unit a declaration resolved as `source` leads to, when the walk has seen
/// `seen`: its file, hanging from the declaring module's node, one hop deeper, parsed
/// with the grammar its file type names. `None` when it resolved to no file, the walk
/// has seen that file, the module node has no path, or no grammar is compiled in for it.
pub open spec fn child_of(unit: FileUnit, c: FileContribution, source: ModuleSource, k: int, seen: Seq<Seq<char>>) -> Option<UnitView> {
    match source {
        ModuleSource::File(f) => if seen.contains(f@) {
            None
        } else {
            match (crate::contribution::chain_of(c.nodes@, c.external_modules@[k].node as int), crate::index::path_grammar(f@)) {
                (Some(s), Some(l)) => Some((f@, c.owner@ + s, NodeKind::Module, l, false, crate::extract::bumped(unit.depth))),
                _ => None,
            }
        },
        _ => None,
    }
}

/// The units the first `n` declarations lead to, in order, and the files seen after.
pub open spec fn children_from(unit: FileUnit, c: FileContribution, sources: Seq<ModuleSource>, seen: Seq<Seq<char>>, n: int) -> (Seq<UnitView>, Seq<Seq<char>>)
    decreases n,
{
    if n <= 0 {
        (Seq::empty(), seen)
    } else {
        let (units, now) = children_from(unit, c, sources, seen, n - 1);
        match child_of(unit, c, sources[n - 1], n - 1, now) {
            Some(v) => (units.push(v), now.push(v.0)),
            None => (units, now),
        }
    }
}

/// The files a read file leads the walk to: for each module it declares elsewhere,
/// paired with how that declaration resolved (`sources`, one per declaration, as the
/// caller found them on disk), the unit [`child_of`] says, each file taken once over the
/// whole walk. `seen` gains every file a unit is made for.
pub fn child_units(unit: &FileUnit, c: &FileContribution, sources: &Vec<ModuleSource>, seen: &mut Vec<String>) -> (r: Vec<FileUnit>)
    ensures
        ({
            let n = if c.external_modules@.len() < sources@.len() { c.external_modules@.len() as int } else { sources@.len() as int };
            let (units, now) = children_from(*unit, *c, sources@, crate::config::predicate::names(old(seen)@), n);
            &&& r@.map_values(|u: FileUnit| unit_view(u)) == units
            &&& crate::config::predicate::names(final(seen)@) == now
        }),
{
    let ghost start = crate::config::predicate::names(seen@);
    let n = if c.external_modules.len() < sources.len() { c.external_modules.len() } else { sources.len() };
    let mut out: Vec<FileUnit> = Vec::new();
    let mut k: usize = 0;
    assert(out@.map_values(|u: FileUnit| unit_view(u)) =~= Seq::<UnitView>::empty());
    while k < n
        invariant
            k <= n,
            n <= c.external_modules@.len(),
            n <= sources@.len(),
            children_from(*unit, *c, sources@, start, k as int) == (out@.map_values(|u: FileUnit| unit_view(u)), crate::config::predicate::names(seen@)),
        decreases n - k,
    {
        let ghost before_units = out@.map_values(|u: FileUnit| unit_view(u));
        let ghost before_seen = crate::config::predicate::names(seen@);
        match &sources[k] {
            ModuleSource::File(f) => {
                if !crate::config::predicate::holds_name(seen, f.as_str()) {
                    match c.path_of(c.external_modules[k].node) {
                        Some(owner) => match crate::index::language_for_path(f.as_str()) {
                            Some(language) => {
                                let child = FileUnit {
                                    file: f.clone(),
                                    owner,
                                    owner_kind: NodeKind::Module,
                                    language,
                                    crate_root: false,
                                    depth: unit.depth.saturating_add(1),
                                };
                                assert(child.depth == crate::extract::bumped(unit.depth));
                                seen.push(f.clone());
                                out.push(child);
                                assert(out@.map_values(|u: FileUnit| unit_view(u)) =~= before_units.push(unit_view(child)));
                                assert(crate::config::predicate::names(seen@) =~= before_seen.push(f@));
                            },
                            None => {},
                        },
                        None => {},
                    }
                }
            },
            _ => {},
        }
        k = k + 1;
    }
    out
}

/// Claim one file from a walk's budget of `max_files`: the count of claims always goes
/// up (held at `usize::MAX`), and the claim is granted while fewer than `max_files`
/// went before it — once refused, the walk is cut short at the cap.
pub fn claim_file(used: &mut usize, max_files: usize) -> (granted: bool)
    ensures
        granted == (*old(used) < max_files),
        *final(used) == if *old(used) == usize::MAX { usize::MAX } else { (*old(used) + 1) as usize },
{
    let granted = *used < max_files;
    *used = used.saturating_add(1);
    granted
}

/// The unresolved-module records the first `n` declarations make: for each that
/// resolved to no file, its module node's position and the paths that were tried.
pub open spec fn missing_from(modules: Seq<CachedModule>, sources: Seq<ModuleSource>, n: int) -> Seq<(u32, Seq<Seq<char>>)>
    decreases n,
{
    if n <= 0 {
        Seq::empty()
    } else {
        missing_from(modules, sources, n - 1) + match sources[n - 1] {
            ModuleSource::Missing { candidates } => seq![(modules[n - 1].node, crate::config::predicate::names(candidates@))],
            _ => Seq::empty(),
        }
    }
}

/// Record in `c` which of its declared modules resolved to no file — `sources` holds how
/// each declaration resolved, in order — so the index can show them as unavailable
/// rather than empty. What else `c` holds is left as it was.
pub fn record_missing(c: &mut FileContribution, sources: &Vec<ModuleSource>)
    ensures
        ({
            let n = if old(c).external_modules@.len() < sources@.len() { old(c).external_modules@.len() as int } else { sources@.len() as int };
            final(c).unresolved@.map_values(|e: (u32, Vec<String>)| (e.0, crate::config::predicate::names(e.1@)))
                == missing_from(old(c).external_modules@, sources@, n)
        }),
        final(c).file == old(c).file,
        final(c).owner == old(c).owner,
        final(c).depth == old(c).depth,
        final(c).nodes == old(c).nodes,
        final(c).external_modules == old(c).external_modules,
        final(c).ownership == old(c).ownership,
{
    let n = if c.external_modules.len() < sources.len() { c.external_modules.len() } else { sources.len() };
    let mut out: Vec<(u32, Vec<String>)> = Vec::new();
    let mut k: usize = 0;
    assert(out@.map_values(|e: (u32, Vec<String>)| (e.0, crate::config::predicate::names(e.1@))) =~= Seq::<(u32, Seq<Seq<char>>)>::empty());
    while k < n
        invariant
            k <= n,
            n <= c.external_modules@.len(),
            n <= sources@.len(),
            out@.map_values(|e: (u32, Vec<String>)| (e.0, crate::config::predicate::names(e.1@)))
                == missing_from(c.external_modules@, sources@, k as int),
        decreases n - k,
    {
        let ghost before = out@.map_values(|e: (u32, Vec<String>)| (e.0, crate::config::predicate::names(e.1@)));
        match &sources[k] {
            ModuleSource::Missing { candidates } => {
                let entry = (c.external_modules[k].node, crate::index::copy_strings(candidates));
                out.push(entry);
                assert(crate::config::predicate::names(entry.1@) == crate::config::predicate::names(candidates@));
                assert(out@.map_values(|e: (u32, Vec<String>)| (e.0, crate::config::predicate::names(e.1@)))
                    =~= before.push((c.external_modules@[k as int].node, crate::config::predicate::names(candidates@))));
            },
            _ => {},
        }
        k = k + 1;
    }
    c.unresolved = out;
}

} // verus!
