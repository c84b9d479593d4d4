//! Driving a parse into index nodes.
//!
//! The walk is pre-order, so it keeps its own containment stack and pairs decorations
//! with the sibling they decorate. Three things are settled here rather than in a
//! language mapping, because none is decidable from one node: a node's path and the
//! ordinal that tells it from an identically named sibling, which decoration belongs to
//! which construct, and which entity an interior fact (an `await`, an `import`) belongs
//! to.

use vstd::prelude::*;
use karet_treesitter::LanguageId;
use karet_treesitter::ParserPool;
use crate::contribution::Owner;
use crate::coord::BytePos;
use crate::coord::Span;
use crate::id::SeamId;
use crate::id::SeamPath;
use crate::id::SeamSegment;
use crate::index::IndexView;
use crate::index::SeamIndex;
use crate::lang::Attribute;
use crate::lang::ClassifiedView;
use crate::lang::FacetContext;
use crate::lang::header_before_body;
use crate::lang::for_language;
use crate::lang::Mapping;
use crate::model::ConfigMembership;
use crate::model::Facet;
use crate::model::FileId;
use crate::model::Node;
use crate::model::NodeKind;
use crate::model::SeamLocation;
use crate::rollup::Rollups;
use crate::syntax::ParsedNode;
use crate::syntax::Source;
use crate::syntax::parse_to_nodes;

verus! {

/// Errors extracting a file into the index.
#[derive(Debug, Clone, Copy, PartialEq, Eq, Structural)]
pub enum ExtractError {
    /// The grammar for this language is not compiled in.
    NoGrammar,
    /// The language has no seam mapping, so its files are not indexed.
    NoMapping,
    /// The parser could not produce a tree at all.
    ParseFailed,
}

/// A module declaration whose body lives in another file.
#[derive(Debug)]
pub struct ExternalModule {
    /// The module node already added to the index, awaiting its contents.
    pub id: SeamId,
    /// The declared module name.
    pub name: String,
    /// The inline modules enclosing the declaration, outermost first.
    pub inline_path: Vec<String>,
    /// The `#[path = "…"]` override, when one is written.
    pub path_attribute: Option<String>,
}

/// What one file's extraction produced.
#[derive(Debug)]
pub struct ExtractOutcome {
    /// Every node added, in source order.
    pub added: Vec<SeamId>,
    /// Module declarations whose bodies live elsewhere.
    pub external_modules: Vec<ExternalModule>,
    /// Nodes whose semantic owner is named elsewhere, with the candidates to try.
    pub ownership: Vec<(SeamId, Vec<Owner>)>,
}

/// One entry on the containment stack.
struct Frame {
    depth: u16,
    pos: Ghost<int>,
    id: SeamId,
    kind: NodeKind,
    name: String,
    path: SeamPath,
}

/// Walk state: the mapping reading the tree, the containment stack, decorations
/// awaiting their construct, how often each name has been used under each parent, the
/// nodes added so far, and what was found to live or belong elsewhere.
struct Walk {
    mapping: Mapping,
    stack: Vec<Frame>,
    pending: Vec<(u16, Attribute)>,
    ordinals: Vec<(SeamId, String, u32)>,
    added: Vec<SeamId>,
    external_modules: Vec<ExternalModule>,
    ownership: Vec<(SeamId, Vec<Owner>)>,
    log: Ghost<Seq<EntityView>>,
}

/// Whether `after` is `before` with nodes and paths only added: every path keeps its
/// id, every node stays, and nothing else changes.
pub open spec fn grows(before: IndexView, after: IndexView) -> bool {
    &&& before.paths.len() <= after.paths.len()
    &&& after.paths.take(before.paths.len() as int) == before.paths
    &&& forall|k: SeamId| before.nodes.contains_key(k) ==> #[trigger] after.nodes.contains_key(k)
    &&& after.roots == before.roots
    &&& after.files == before.files
    &&& after.attribution == before.attribution
    &&& after.edges == before.edges
    &&& after.unresolved == before.unresolved
    &&& after.truncated == before.truncated
}

/// A frame of the containment stack as classification sees it: the depth it opened at,
/// the kind of its entity, and that entity's position among those added (`-1` for the
/// parent's own frame).
pub type FrameView = (u16, NodeKind, int);

/// An entity the walk adds: the syntax node, its classification, and the position of
/// the entity it hangs beneath (`-1` for the parent).
pub type EntityView = (ParsedNode, ClassifiedView, int);

/// A depth one deeper, held at `u16::MAX`.
pub open spec fn below(depth: u16) -> u16 {
    if depth == u16::MAX {
        depth
    } else {
        (depth + 1) as u16
    }
}

/// `frames` with every frame opened at `depth` or deeper closed; the bottom frame, the
/// parent's, always stays.
pub open spec fn unwound(frames: Seq<FrameView>, depth: u16) -> Seq<FrameView>
    decreases frames.len(),
{
    if frames.len() > 1 && frames.last().0 >= depth {
        unwound(frames.drop_last(), depth)
    } else {
        frames
    }
}

/// Visiting one named node at `depth` with `frames` open, `count` entities added so
/// far: the entity it adds, the frames open afterwards, and whether the walk goes on
/// into it. A decoration adds nothing and is not entered; a construct the mapping
/// classifies, beneath the kind of the innermost open frame, is added beneath that
/// frame's entity and opens a frame of its own.
pub open spec fn visit_spec(m: Mapping, node: ParsedNode, depth: u16, text: Seq<char>, frames: Seq<FrameView>, count: int)
    -> (Seq<EntityView>, Seq<FrameView>, bool)
{
    let fr = unwound(frames, depth);
    if crate::lang::decoration_of(m, node, text) is Some {
        (Seq::empty(), fr, false)
    } else {
        match crate::lang::classify_of(m, node, text, Some(fr.last().1)) {
            Some(c) => (seq![(node, c, fr.last().2)], fr.push((depth, c.0, count)), true),
            None => (Seq::empty(), fr, true),
        }
    }
}

/// The entities a pre-order walk of `node` at `depth` adds, in order, with each syntax
/// node beside its classification, and the frames open afterwards.
pub open spec fn walk_spec(m: Mapping, node: ParsedNode, depth: u16, text: Seq<char>, frames: Seq<FrameView>, count: int)
    -> (Seq<EntityView>, Seq<FrameView>)
    decreases node, node.children@.len() + 1,
{
    if node.named {
        let v = visit_spec(m, node, depth, text, frames, count);
        if !v.2 {
            (v.0, v.1)
        } else {
            let rest = walk_children(m, node, node.children@.len() as int, below(depth), text, v.1, count + v.0.len());
            (v.0 + rest.0, rest.1)
        }
    } else {
        walk_children(m, node, node.children@.len() as int, below(depth), text, frames, count)
    }
}

/// The walk of the first `n` children of `node`, one after another.
pub open spec fn walk_children(m: Mapping, node: ParsedNode, n: int, depth: u16, text: Seq<char>, frames: Seq<FrameView>, count: int)
    -> (Seq<EntityView>, Seq<FrameView>)
    decreases node, n,
{
    if n <= 0 || n > node.children@.len() {
        (Seq::empty(), frames)
    } else {
        let before = walk_children(m, node, n - 1, depth, text, frames, count);
        proof {
            assert(decreases_to!(node => node.children@[n - 1]));
        }
        let child = walk_spec(m, node.children@[n - 1], depth, text, before.1, count + before.0.len());
        (before.0 + child.0, child.1)
    }
}

/// The kind the root frame takes: the parent's own, or a module's when the index does
/// not hold the parent.
pub open spec fn root_kind(v: IndexView, parent: SeamId) -> NodeKind {
    if v.nodes.contains_key(parent) {
        v.nodes[parent].kind
    } else {
        NodeKind::Module
    }
}

/// The entities extracting `root` adds beneath a parent of kind `kind`, in order.
pub open spec fn entities_under(m: Mapping, root: ParsedNode, text: Seq<char>, kind: NodeKind) -> Seq<EntityView> {
    walk_spec(m, root, 0, text, seq![(0u16, kind, -1int)], 0).0
}

/// The entities extracting `root` adds beneath `parent` in `v`, in order.
pub open spec fn entities_of(m: Mapping, root: ParsedNode, text: Seq<char>, v: IndexView, parent: SeamId) -> Seq<EntityView> {
    entities_under(m, root, text, root_kind(v, parent))
}

/// Some position from `i` on holds the last use of the id at `i`.
pub proof fn lemma_last_use_exists(ids: Seq<SeamId>, i: int)
    requires
        0 <= i < ids.len(),
    ensures
        exists|j: int| i <= j < ids.len() && ids[j] == ids[i] && #[trigger] last_use(ids, j),
    decreases ids.len() - i,
{
    if !last_use(ids, i) {
        let j = choose|j: int| i < j < ids.len() && ids[j] == ids[i];
        lemma_last_use_exists(ids, j);
        let k = choose|k: int| j <= k < ids.len() && ids[k] == ids[j] && #[trigger] last_use(ids, k);
        assert(i <= k < ids.len() && ids[k] == ids[i] && last_use(ids, k));
    }
}

/// Whether node `n` is what entity `e` adds: its kind, name, detail, selection and
/// visibility as classified, its span the syntax node's bytes, provisional when that
/// part of the parse failed.
pub open spec fn entity_node(n: Node, e: EntityView) -> bool {
    &&& n.kind == e.1.0
    &&& n.name@ == e.1.1
    &&& (match n.detail { Some(d) => Some(d@), None => None::<Seq<char>> }) == e.1.3
    &&& n.location.selection == e.1.4
    &&& n.visibility == e.1.5
    &&& n.location.span == Span { start: BytePos(e.0.start), end: BytePos(e.0.end) }
    &&& n.provisional == e.0.has_error
}

/// Whether position `i` is the last use of its id in `ids`.
pub open spec fn last_use(ids: Seq<SeamId>, i: int) -> bool {
    forall|j: int| i < j < ids.len() ==> ids[j] != ids[i]
}

/// Whether `v` holds, under each id in `ids`, the entity of `ents` last added under it,
/// hanging beneath the node its entity hangs beneath: `parent`, or the id added for that
/// entity.
pub open spec fn holds_entities(v: IndexView, ids: Seq<SeamId>, ents: Seq<EntityView>, parent: SeamId) -> bool {
    &&& ids.len() == ents.len()
    &&& forall|i: int| 0 <= i < ids.len() && #[trigger] last_use(ids, i) ==> {
        &&& entity_node(v.nodes[ids[i]], ents[i])
        &&& -1 <= ents[i].2 < i
        &&& v.nodes[ids[i]].parent == Some(if ents[i].2 < 0 { parent } else { ids[ents[i].2] })
    }
}

spec fn frames_of(stack: Seq<Frame>) -> Seq<FrameView> {
    stack.map_values(|f: Frame| (f.depth, f.kind, f.pos@))
}

proof fn lemma_grows_trans(a: IndexView, b: IndexView, c: IndexView)
    requires
        grows(a, b),
        grows(b, c),
    ensures
        grows(a, c),
{
    assert(c.paths.take(a.paths.len() as int) =~= c.paths.take(b.paths.len() as int).take(a.paths.len() as int));
}

proof fn lemma_grows_refl(a: IndexView)
    ensures
        grows(a, a),
{
    assert(a.paths.take(a.paths.len() as int) =~= a.paths);
}

/// The walk's standing facts: the stack bottoms out at the parent, and every other
/// frame, like every node added, is in the index.
spec fn walk_ok(w: Walk, v: IndexView, parent: SeamId) -> bool {
    &&& w.stack@.len() >= 1
    &&& w.stack@[0].id == parent
    &&& w.mapping == Mapping::Python ==> w.external_modules@.len() == 0 && w.ownership@.len() == 0
    &&& forall|i: int| 1 <= i < w.stack@.len() ==> v.nodes.contains_key(#[trigger] w.stack@[i].id)
    &&& forall|i: int| 0 <= i < w.added@.len() ==> v.nodes.contains_key(#[trigger] w.added@[i])
    &&& forall|i: int| 0 <= i < w.added@.len() ==> (#[trigger] w.added@[i]).0 < v.paths.len()
    &&& forall|i: int| 0 <= i < w.ownership@.len() ==> w.added@.contains((#[trigger] w.ownership@[i]).0)
    &&& forall|i: int| 0 <= i < w.external_modules@.len() ==> w.added@.contains((#[trigger] w.external_modules@[i]).id)
    &&& forall|i: int| 1 <= i < w.stack@.len() ==> w.added@.contains((#[trigger] w.stack@[i]).id)
    &&& forall|i: int| 0 <= i < w.added@.len() ==> hangs_under(v, #[trigger] w.added@[i], parent, w.added@)
    &&& w.stack@[0].pos@ == -1
    &&& forall|i: int| 1 <= i < w.stack@.len() ==> 0 <= (#[trigger] w.stack@[i]).pos@ < w.added@.len()
        && w.added@[w.stack@[i].pos@] == w.stack@[i].id
}

/// Whether node `id` of `v` hangs under `parent` or under one of `added`.
pub open spec fn hangs_under(v: IndexView, id: SeamId, parent: SeamId, added: Seq<SeamId>) -> bool {
    v.nodes[id].parent matches Some(p) && (p == parent || added.contains(p))
}

proof fn lemma_walk_ok_grows(w: Walk, a: IndexView, b: IndexView, parent: SeamId)
    requires
        walk_ok(w, a, parent),
        grows(a, b),
        forall|i: int| 0 <= i < w.added@.len() ==> hangs_under(b, #[trigger] w.added@[i], parent, w.added@),
    ensures
        walk_ok(w, b, parent),
{
    assert forall|i: int| 1 <= i < w.stack@.len() implies b.nodes.contains_key(#[trigger] w.stack@[i].id) by {
        assert(a.nodes.contains_key(w.stack@[i].id));
    }
    assert forall|i: int| 0 <= i < w.added@.len() implies b.nodes.contains_key(#[trigger] w.added@[i]) by {
        assert(a.nodes.contains_key(w.added@[i]));
    }
    assert forall|i: int| 0 <= i < w.added@.len() implies (#[trigger] w.added@[i]).0 < b.paths.len() by {
        assert(w.added@[i].0 < a.paths.len());
    }
}

/// Take every pending decoration queued at `depth`, in the order queued.
fn take_pending(pending: &mut Vec<(u16, Attribute)>, depth: u16) -> (r: Vec<Attribute>)
    ensures
        r@ == old(pending)@.filter(|e: (u16, Attribute)| e.0 == depth).map_values(|e: (u16, Attribute)| e.1),
        final(pending)@ == old(pending)@.filter(|e: (u16, Attribute)| e.0 != depth),
{
    let ghost all = pending@;
    let n = pending.len();
    let mut taken: Vec<Attribute> = Vec::new();
    let mut kept: Vec<(u16, Attribute)> = Vec::new();
    let mut rest: Vec<(u16, Attribute)> = Vec::new();
    std::mem::swap(&mut rest, pending);
    assert(rest@ =~= all.subrange(0, all.len() as int));
    let mut i: usize = 0;
    assert(all.take(0) =~= Seq::<(u16, Attribute)>::empty());
    while rest.len() > 0
        invariant
            i + rest@.len() == all.len(),
            all.len() == n,
            rest@ == all.subrange(i as int, all.len() as int),
            taken@ == all.take(i as int).filter(|e: (u16, Attribute)| e.0 == depth).map_values(|e: (u16, Attribute)| e.1),
            kept@ == all.take(i as int).filter(|e: (u16, Attribute)| e.0 != depth),
        decreases rest.len(),
    {
        let e = rest.remove(0);
        proof {
            assert(e == all[i as int]);
            assert(all.take(i + 1) =~= all.take(i as int).push(all[i as int]));
            all.take(i as int).lemma_filter_push(all[i as int], |e: (u16, Attribute)| e.0 == depth);
            all.take(i as int).lemma_filter_push(all[i as int], |e: (u16, Attribute)| e.0 != depth);
            assert(rest@ =~= all.subrange(i + 1, all.len() as int));
        }
        if e.0 == depth {
            taken.push(e.1);
        } else {
            kept.push(e);
        }
        i = i + 1;
        proof {
            assert(taken@ =~= all.take(i as int).filter(|e: (u16, Attribute)| e.0 == depth).map_values(|e: (u16, Attribute)| e.1));
        }
    }
    assert(all.take(i as int) =~= all);
    *pending = kept;
    taken
}

/// The position of the first entry from `i` on that counts `name` under `parent`.
pub open spec fn ordinal_slot(ords: Seq<(SeamId, String, u32)>, parent: SeamId, name: Seq<char>, i: int) -> Option<int>
    decreases ords.len() - i,
{
    if i >= ords.len() {
        None
    } else if ords[i].0 == parent && ords[i].1@ == name {
        Some(i)
    } else {
        ordinal_slot(ords, parent, name, i + 1)
    }
}

/// A count raised by one, held at `u32::MAX`.
pub open spec fn bumped(n: u32) -> u32 {
    if n == u32::MAX {
        u32::MAX
    } else {
        (n + 1) as u32
    }
}

/// Disambiguate a segment against its siblings under `parent`: the first use of a name
/// keeps it bare; later ones take a 1-based ordinal, so two identical `impl` blocks stay
/// apart.
fn next_segment(ordinals: &mut Vec<(SeamId, String, u32)>, parent: SeamId, name: String) -> (r: SeamSegment)
    ensures
        match ordinal_slot(old(ordinals)@, parent, name@, 0) {
            Some(j) => {
                let c = bumped(old(ordinals)@[j].2);
                &&& final(ordinals)@.len() == old(ordinals)@.len()
                &&& forall|t: int| 0 <= t < old(ordinals)@.len() && t != j ==> #[trigger] final(ordinals)@[t] == old(ordinals)@[t]
                &&& final(ordinals)@[j].0 == parent
                &&& final(ordinals)@[j].1@ == name@
                &&& final(ordinals)@[j].2 == c
                &&& r@ == (name@, if c == 1 { 0u32 } else { c })
            },
            None => {
                &&& final(ordinals)@.len() == old(ordinals)@.len() + 1
                &&& forall|t: int| 0 <= t < old(ordinals)@.len() ==> #[trigger] final(ordinals)@[t] == old(ordinals)@[t]
                &&& final(ordinals)@.last().0 == parent
                &&& final(ordinals)@.last().1@ == name@
                &&& final(ordinals)@.last().2 == 1
                &&& r@ == (name@, 0u32)
            },
        },
{
    let mut i: usize = 0;
    while i < ordinals.len()
        invariant
            i <= ordinals@.len(),
            ordinals@ == old(ordinals)@,
            ordinal_slot(old(ordinals)@, parent, name@, 0) == ordinal_slot(old(ordinals)@, parent, name@, i as int),
        decreases ordinals.len() - i,
    {
        if ordinals[i].0 == parent && crate::text::str_eq(ordinals[i].1.as_str(), name.as_str()) {
            let count = ordinals[i].2.saturating_add(1);
            assert(count == bumped(old(ordinals)@[i as int].2));
            let entry = (parent, name.clone(), count);
            ordinals.set(i, entry);
            if count == 1 {
                return SeamSegment::new(name);
            }
            return SeamSegment::numbered(name, count);
        }
        i = i + 1;
    }
    ordinals.push((parent, name.clone(), 1));
    SeamSegment::new(name)
}

/// The inline modules enclosing the current position, outermost first: frame 0 is the
/// file's own module, which is not inline, and every module frame above it was opened by
/// a `mod … { … }` in this file.
fn inline_module_path(stack: &Vec<Frame>) -> (r: Vec<String>)
    requires
        stack@.len() >= 1,
    ensures
        r@.map_values(|n: String| n@) == stack@.skip(1).filter(|f: Frame| f.kind == NodeKind::Module).map_values(|f: Frame| f.name@),
{
    let mut out: Vec<String> = Vec::new();
    let ghost all = stack@.skip(1);
    let mut i: usize = 1;
    assert(all.take(0) =~= Seq::<Frame>::empty());
    assert(out@.map_values(|n: String| n@) =~= all.take(0).filter(|f: Frame| f.kind == NodeKind::Module).map_values(|f: Frame| f.name@));
    while i < stack.len()
        invariant
            1 <= i <= stack@.len(),
            all == stack@.skip(1),
            out@.map_values(|n: String| n@) == all.take(i - 1).filter(|f: Frame| f.kind == NodeKind::Module).map_values(|f: Frame| f.name@),
        decreases stack.len() - i,
    {
        let ghost before = out@;
        proof {
            assert(all.take(i as int) =~= all.take(i - 1).push(stack@[i as int]));
            all.take(i - 1).lemma_filter_push(stack@[i as int], |f: Frame| f.kind == NodeKind::Module);
        }
        if stack[i].kind == NodeKind::Module {
            out.push(stack[i].name.clone());
            assert(out@.map_values(|n: String| n@) =~= before.map_values(|n: String| n@).push(stack@[i as int].name@));
        }
        i = i + 1;
    }
    assert(all.take(i - 1) =~= all);
    out
}

/// Visit one named node: unwind the stack to its level, queue it if it is a decoration,
/// add it if it is an entity, or attribute its facets to the entity around it. Returns
/// whether to descend into it.
#[verifier::rlimit(60)]
fn visit(
    node: &ParsedNode,
    depth: u16,
    index: &mut SeamIndex,
    w: &mut Walk,
    parent: SeamId,
    file: FileId,
    src: &Source,
) -> (descend: bool)
    requires
        old(index).wf(),
        src.wf(),
        walk_ok(*old(w), old(index)@, parent),
        holds_entities(old(index)@, old(w).added@, old(w).log@, parent),
    ensures
        final(index).wf(),
        grows(old(index)@, final(index)@),
        walk_ok(*final(w), final(index)@, parent),
        final(w).mapping == old(w).mapping,
        holds_entities(final(index)@, final(w).added@, final(w).log@, parent),
        ({
            let v = visit_spec(old(w).mapping, *node, depth, src.text(), frames_of(old(w).stack@), old(w).log@.len() as int);
            &&& final(w).log@ == old(w).log@ + v.0
            &&& frames_of(final(w).stack@) == v.1
            &&& descend == v.2
        }),
{
    proof {
        lemma_grows_refl(index@);
    }
    // Everything at this node's depth or deeper is finished.
    while w.stack.len() > 1 && w.stack[w.stack.len() - 1].depth >= depth
        invariant
            walk_ok(*w, index@, parent),
            w.mapping == old(w).mapping,
            w.added@ == old(w).added@,
            w.log@ == old(w).log@,
            index@ == old(index)@,
            unwound(frames_of(w.stack@), depth) == unwound(frames_of(old(w).stack@), depth),
        decreases w.stack.len(),
    {
        let ghost before = frames_of(w.stack@);
        w.stack.pop();
        proof {
            assert(frames_of(w.stack@) =~= before.drop_last());
        }
    }
    let ghost fr = frames_of(w.stack@);
    let ghost vs = visit_spec(w.mapping, *node, depth, src.text(), frames_of(old(w).stack@), old(w).log@.len() as int);
    proof {
        assert(unwound(fr, depth) == fr);
        assert(fr.len() >= 1);
        assert(fr.last().1 == w.stack@[w.stack@.len() - 1].kind);
    }
    let container = Some(w.stack[w.stack.len() - 1].kind);
    let none: Vec<Attribute> = Vec::new();
    let bare = FacetContext { source: src, attributes: none.as_slice(), container };
    let mapping = w.mapping;
    match mapping.decoration(node, &bare) {
        Some(attribute) => {
            w.pending.push((depth, attribute));
            assert(vs.0 =~= Seq::<EntityView>::empty());
            assert(w.log@ =~= old(w).log@ + vs.0);
            return false;
        },
        None => {},
    }
    // Decorations bind to the construct that follows them, whatever it turns out to be:
    // leaving them queued would let one on a discarded construct leak onto the next.
    let attributes = take_pending(&mut w.pending, depth);
    let ctx = FacetContext { source: src, attributes: attributes.as_slice(), container };
    match mapping.classify(node, &ctx) {
        Some(classified) => {
            let ghost cv = crate::lang::classified_view(classified);
            let ghost log_before = w.log@;
            let ghost held_before = index@;
            let mut facets: Vec<Facet> = Vec::new();
            mapping.entity_facets(node, &ctx, &mut facets);
            let external = mapping.external_module(node, &ctx);
            let owners = mapping.ownership(node, &ctx);
            assert(owners@.map_values(|o: Owner| crate::lang::rust::owner_view(o)).len() == owners@.len());
            let inline_path = inline_module_path(&w.stack);
            let top = w.stack.len() - 1;
            let parent_id = w.stack[top].id;
            let parent_path = w.stack[top].path.duplicate();
            let header = header_before_body(node, &bare);
            let segment = next_segment(&mut w.ordinals, parent_id, classified.segment);
            let path = parent_path.child(segment);
            let ghost before = index@;
            let id = index.intern(path.duplicate());
            let kind = classified.kind;
            let classified_name = classified.name.clone();
            index.insert(Node {
                id,
                kind,
                name: classified.name,
                detail: classified.detail,
                location: SeamLocation {
                    file,
                    range: src.range(node.start, node.end),
                    span: Span { start: BytePos(node.start), end: BytePos(node.end) },
                    selection: classified.selection,
                    header,
                },
                parent: Some(parent_id),
                children: Vec::new(),
                facets,
                visibility: classified.visibility,
                rollups: Rollups::new(),
                membership: ConfigMembership::Active,
                provisional: node.has_error,
            });
            proof {
                assert(index@.paths.take(before.paths.len() as int) =~= before.paths);
                assert(top == 0 ==> parent_id == parent);
                assert(top > 0 ==> w.added@.contains(w.stack@[top as int].id));
                assert forall|j: int| 0 <= j < w.added@.len() implies hangs_under(index@, #[trigger] w.added@[j], parent, w.added@) by {
                    let k = w.added@[j];
                    if k != id {
                        assert(before.nodes.contains_key(k));
                        assert(index@.nodes[k].parent == before.nodes[k].parent);
                        assert(hangs_under(before, k, parent, w.added@));
                    }
                }
                lemma_walk_ok_grows(*w, before, index@, parent);
            }
            let ghost added_before = w.added@;
            w.added.push(id);
            proof {
                let up = w.stack@[top as int].pos@;
                w.log@ = w.log@.push((*node, cv, up));
                assert(index@.nodes[id].kind == cv.0);
                assert(entity_node(index@.nodes[id], (*node, cv, up)));
                assert(index@.nodes[id].parent == Some(parent_id));
                assert(up < 0 ==> top == 0);
                assert(up >= 0 ==> w.added@[up] == parent_id);
                assert forall|i: int| 0 <= i < w.added@.len() && #[trigger] last_use(w.added@, i)
                    implies entity_node(index@.nodes[w.added@[i]], w.log@[i]) && -1 <= w.log@[i].2 < i
                        && index@.nodes[w.added@[i]].parent == Some(if w.log@[i].2 < 0 { parent } else { w.added@[w.log@[i].2] }) by {
                    if i < added_before.len() {
                        assert(w.added@[i] == added_before[i]);
                        assert(w.added@[added_before.len() as int] == id);
                        assert(added_before[i] != id);
                        assert forall|j: int| i < j < added_before.len() implies added_before[j] != added_before[i] by {
                            assert(w.added@[j] == added_before[j]);
                        }
                        assert(last_use(added_before, i));
                        assert(entity_node(held_before.nodes[added_before[i]], log_before[i]));
                        assert(w.log@[i] == log_before[i]);
                        assert(held_before.nodes.contains_key(added_before[i]));
                        let pi = log_before[i].2;
                        if pi >= 0 {
                            assert(w.added@[pi] == added_before[pi]);
                        }
                    }
                }
                assert(holds_entities(index@, w.added@, w.log@, parent));
                let kc = choose|k: int| 0 <= k < index@.paths.len() && index@.paths[k] == path@ && id.0 == crate::id::id_for(k);
                assert(id.0 < index@.paths.len());
                assert(w.added@[added_before.len() as int] == id);
                assert forall|i: int| 0 <= i < w.added@.len() implies (#[trigger] w.added@[i]).0 < index@.paths.len() by {
                    if i < added_before.len() {
                        assert(w.added@[i] == added_before[i]);
                    }
                }
                assert(w.added@.contains(id));
                assert forall|j: int| 0 <= j < w.added@.len() implies hangs_under(index@, #[trigger] w.added@[j], parent, w.added@) by {
                    if j < added_before.len() {
                        assert(w.added@[j] == added_before[j]);
                        assert(hangs_under(index@, added_before[j], parent, added_before));
                        let p = index@.nodes[added_before[j]].parent->0;
                        if p != parent {
                            let x = choose|x: int| 0 <= x < added_before.len() && added_before[x] == p;
                            assert(w.added@[x] == p);
                        }
                    } else {
                        assert(w.added@[j] == id);
                        if parent_id != parent {
                            let x = choose|x: int| 0 <= x < added_before.len() && added_before[x] == parent_id;
                            assert(w.added@[x] == parent_id);
                        }
                    }
                }
                assert forall|j: int| 1 <= j < w.stack@.len() implies w.added@.contains((#[trigger] w.stack@[j]).id) by {
                    let x = choose|x: int| 0 <= x < added_before.len() && added_before[x] == w.stack@[j].id;
                    assert(w.added@[x] == added_before[x]);
                }
                assert forall|i: int| 0 <= i < w.ownership@.len() implies w.added@.contains((#[trigger] w.ownership@[i]).0) by {
                    assert(added_before.contains(w.ownership@[i].0));
                    let x = choose|x: int| 0 <= x < added_before.len() && added_before[x] == w.ownership@[i].0;
                    assert(w.added@[x] == added_before[x]);
                }
                assert forall|i: int| 0 <= i < w.external_modules@.len() implies w.added@.contains((#[trigger] w.external_modules@[i]).id) by {
                    assert(added_before.contains(w.external_modules@[i].id));
                    let x = choose|x: int| 0 <= x < added_before.len() && added_before[x] == w.external_modules@[i].id;
                    assert(w.added@[x] == added_before[x]);
                }
            }
            if owners.len() > 0 {
                w.ownership.push((id, owners));
            }
            match external {
                Some(name) => {
                    let path_attribute = match crate::lang::attribute_named(attributes.as_slice(), "path") {
                        Some(a) => match &a.arguments {
                            Some(x) => Some(x.clone()),
                            None => None,
                        },
                        None => None,
                    };
                    w.external_modules.push(ExternalModule { id, name, inline_path, path_attribute });
                },
                None => {},
            }
            let name = classified_name;
            let ghost stack_before = w.stack@;
            w.stack.push(Frame { depth, pos: Ghost(added_before.len() as int), id, kind, name, path });
            proof {
                assert(frames_of(w.stack@) =~= frames_of(stack_before).push((depth, kind, added_before.len() as int)));
                assert(frames_of(stack_before) == fr);
                assert(vs.0 == seq![(*node, cv, fr.last().2)]);
                assert(added_before.len() == old(w).log@.len());
                assert(w.log@ =~= old(w).log@ + vs.0);
            }
        },
        None => {
            assert(vs.0 =~= Seq::<EntityView>::empty());
            assert(w.log@ =~= old(w).log@ + vs.0);
            let mut facets: Vec<Facet> = Vec::new();
            mapping.interior_facets(node, &ctx, &mut facets);
            if facets.len() > 0 {
                let ghost before = index@;
                let top = w.stack[w.stack.len() - 1].id;
                index.merge_facets(top, &facets);
                proof {
                    assert forall|i: int| 0 <= i < w.added@.len() && #[trigger] last_use(w.added@, i)
                        implies entity_node(index@.nodes[w.added@[i]], w.log@[i]) by {
                        assert(before.nodes.contains_key(w.added@[i]));
                        assert(entity_node(before.nodes[w.added@[i]], w.log@[i]));
                    }
                    assert(index@.paths.take(before.paths.len() as int) =~= before.paths);
                    assert forall|j: int| 0 <= j < w.added@.len() implies hangs_under(index@, #[trigger] w.added@[j], parent, w.added@) by {
                        let k = w.added@[j];
                        assert(before.nodes.contains_key(k));
                        assert(index@.nodes[k].parent == before.nodes[k].parent);
                        assert(hangs_under(before, k, parent, w.added@));
                    }
                    lemma_walk_ok_grows(*w, before, index@, parent);
                }
            }
        },
    }
    true
}

/// Walk `node` and everything under it in pre-order, visiting the named nodes; `depth`
/// is `node`'s distance below the root.
fn walk_node(
    node: &ParsedNode,
    depth: u16,
    index: &mut SeamIndex,
    w: &mut Walk,
    parent: SeamId,
    file: FileId,
    src: &Source,
)
    requires
        old(index).wf(),
        src.wf(),
        walk_ok(*old(w), old(index)@, parent),
        holds_entities(old(index)@, old(w).added@, old(w).log@, parent),
    ensures
        final(index).wf(),
        grows(old(index)@, final(index)@),
        walk_ok(*final(w), final(index)@, parent),
        final(w).mapping == old(w).mapping,
        holds_entities(final(index)@, final(w).added@, final(w).log@, parent),
        ({
            let v = walk_spec(old(w).mapping, *node, depth, src.text(), frames_of(old(w).stack@), old(w).log@.len() as int);
            &&& final(w).log@ == old(w).log@ + v.0
            &&& frames_of(final(w).stack@) == v.1
        }),
    decreases node,
{
    proof {
        lemma_grows_refl(index@);
    }
    let ghost log0 = w.log@;
    let ghost fr0 = frames_of(w.stack@);
    let ghost text = src.text();
    if node.named {
        let descend = visit(node, depth, index, w, parent, file, src);
        if !descend {
            return;
        }
    }
    let ghost log1 = w.log@;
    let ghost fr1 = frames_of(w.stack@);
    assert(node.named ==> log1 == log0 + visit_spec(w.mapping, *node, depth, text, fr0, log0.len() as int).0 && fr1 == visit_spec(w.mapping, *node, depth, text, fr0, log0.len() as int).1);
    assert(!node.named ==> log1 == log0 && fr1 == fr0);
    let ghost start = index@;
    proof {
        lemma_grows_refl(start);
    }
    let below = depth.saturating_add(1);
    let mut i: usize = 0;
    assert(log1 + walk_children(w.mapping, *node, 0, below, text, fr1, log1.len() as int).0 =~= log1);
    while i < node.children.len()
        invariant
            i <= node.children@.len(),
            index.wf(),
            src.wf(),
            grows(start, index@),
            walk_ok(*w, index@, parent),
            w.mapping == old(w).mapping,
            holds_entities(index@, w.added@, w.log@, parent),
            below == crate::extract::below(depth),
            w.log@ == log1 + walk_children(w.mapping, *node, i as int, below, text, fr1, log1.len() as int).0,
            frames_of(w.stack@) == walk_children(w.mapping, *node, i as int, below, text, fr1, log1.len() as int).1,
            text == src.text(),
        decreases node.children.len() - i,
    {
        let ghost before = index@;
        assert(decreases_to!(*node => node.children@[i as int]));
        walk_node(&node.children[i], below, index, w, parent, file, src);
        proof {
            lemma_grows_trans(start, before, index@);
            let prev = walk_children(w.mapping, *node, i as int, below, text, fr1, log1.len() as int);
            assert(walk_children(w.mapping, *node, i + 1, below, text, fr1, log1.len() as int).0
                == prev.0 + walk_spec(w.mapping, node.children@[i as int], below, text, prev.1, log1.len() + prev.0.len() as int).0);
            assert(w.log@ =~= log1 + walk_children(w.mapping, *node, i + 1, below, text, fr1, log1.len() as int).0);
        }
        i = i + 1;
    }

    proof {
        lemma_grows_trans(old(index)@, start, index@);
        let rest = walk_children(w.mapping, *node, node.children@.len() as int, below, text, fr1, log1.len() as int);
        if node.named {
            let v = visit_spec(w.mapping, *node, depth, text, fr0, log0.len() as int);
            assert(w.log@ =~= log0 + (v.0 + rest.0));
        } else {
            assert(w.log@ =~= log0 + rest.0);
        }
    }
}

/// Extract every entity of a parsed file into `index`, nested under `parent`.
///
/// Every path keeps its id and every node already held stays. The nodes added are the
/// entities [`walk_spec`] finds in `root`, in order: each named construct the mapping
/// classifies beneath the kind of the innermost entity still open, decorations and
/// what lies under them passed over. Each is held with its classified kind, name,
/// detail, selection and visibility, beneath the node added for the entity it was found
/// in, or beneath `parent` at the top. A construct from a damaged part of the parse is
/// still extracted, marked provisional.
pub fn extract_parsed(
    index: &mut SeamIndex,
    mapping: Mapping,
    root: &ParsedNode,
    parent: SeamId,
    file: FileId,
    src: &Source,
) -> (r: ExtractOutcome)
    requires
        old(index).wf(),
        src.wf(),
    ensures
        final(index).wf(),
        grows(old(index)@, final(index)@),
        forall|i: int| 0 <= i < r.added@.len() ==> final(index)@.nodes.contains_key(#[trigger] r.added@[i]),
        forall|i: int| 0 <= i < r.added@.len() ==> (#[trigger] r.added@[i]).0 < final(index)@.paths.len(),
        forall|i: int| 0 <= i < r.ownership@.len() ==> r.added@.contains((#[trigger] r.ownership@[i]).0),
        forall|i: int| 0 <= i < r.external_modules@.len() ==> r.added@.contains((#[trigger] r.external_modules@[i]).id),
        forall|i: int| 0 <= i < r.added@.len() ==> hangs_under(final(index)@, #[trigger] r.added@[i], parent, r.added@),
        holds_entities(final(index)@, r.added@, entities_of(mapping, *root, src.text(), old(index)@, parent), parent),
        mapping == Mapping::Python ==> r.external_modules@.len() == 0 && r.ownership@.len() == 0,
{
    let parent_path = match index.path(parent) {
        Some(p) => p.duplicate(),
        None => SeamPath::new(Vec::new()),
    };
    // The root frame takes the real parent's kind, so a top-level construct is read as
    // what it is beneath that parent.
    let parent_kind = match index.node(parent) {
        Some(n) => n.kind,
        None => NodeKind::Module,
    };
    let mut stack: Vec<Frame> = Vec::new();
    stack.push(Frame { depth: 0, pos: Ghost(-1int), id: parent, kind: parent_kind, name: String::new(), path: parent_path });
    let mut w = Walk {
        mapping,
        stack,
        pending: Vec::new(),
        ordinals: Vec::new(),
        added: Vec::new(),
        external_modules: Vec::new(),
        ownership: Vec::new(),
        log: Ghost(Seq::empty()),
    };
    proof {
        assert(frames_of(w.stack@) =~= seq![(0u16, root_kind(index@, parent), -1int)]);
        assert(holds_entities(index@, w.added@, w.log@, parent));
    }
    walk_node(root, 0, index, &mut w, parent, file, src);
    assert(w.log@ =~= entities_of(mapping, *root, src.text(), old(index)@, parent));
    proof {
        assert(holds_entities(index@, w.added@, entities_of(mapping, *root, src.text(), old(index)@, parent), parent));
    }
    ExtractOutcome { added: w.added, external_modules: w.external_modules, ownership: w.ownership }
}

/// Whether `after` is `before` with the entities of `text`, parsed as `language`,
/// extracted beneath `parent` as `o` reports: the index only grows; each node added is
/// held under a path of its own, and is the entity the walk of the parsed tree yields
/// at its position (the last one, where an id is reused), beneath the node added for
/// the entity it was found in or beneath `parent`; every ownership claim and module
/// declaration names an added node.
pub open spec fn extracted(
    before: IndexView,
    after: IndexView,
    parent: SeamId,
    language: LanguageId,
    text: Seq<char>,
    o: ExtractOutcome,
) -> bool {
    &&& grows(before, after)
    &&& forall|i: int| 0 <= i < o.added@.len() ==> after.nodes.contains_key(#[trigger] o.added@[i])
    &&& forall|i: int| 0 <= i < o.added@.len() ==> (#[trigger] o.added@[i]).0 < after.paths.len()
    &&& forall|i: int| 0 <= i < o.ownership@.len() ==> o.added@.contains((#[trigger] o.ownership@[i]).0)
    &&& forall|i: int| 0 <= i < o.external_modules@.len() ==> o.added@.contains((#[trigger] o.external_modules@[i]).id)
    &&& forall|i: int| 0 <= i < o.added@.len() ==> hangs_under(after, #[trigger] o.added@[i], parent, o.added@)
    &&& holds_entities(after, o.added@, entities_of(
        crate::lang::mapping_for(language)->0,
        crate::syntax::parsed_tree(language, text)->0,
        text,
        before,
        parent,
    ), parent)
}

/// Extract every entity in `text` into `index`, nested under `parent`.
///
/// `NoMapping` when the language has no seam mapping, `ParseFailed` when no tree could be
/// produced; the index is then untouched. On success the index grows as
/// [`extract_parsed`] says.
pub fn extract_file(
    index: &mut SeamIndex,
    pool: &mut ParserPool,
    parent: SeamId,
    file: FileId,
    language: LanguageId,
    text: &str,
) -> (r: Result<ExtractOutcome, ExtractError>)
    requires
        old(index).wf(),
        text@.len() < usize::MAX / 4,
    ensures
        final(index).wf(),
        grows(old(index)@, final(index)@),
        match r {
            Ok(o) => extracted(old(index)@, final(index)@, parent, language, text@, o),
            Err(_) => final(index)@ == old(index)@,
        },
        (r matches Err(ExtractError::NoMapping)) == (crate::lang::mapping_for(language) is None),
        (r matches Err(ExtractError::ParseFailed)) == (crate::lang::mapping_for(language) is Some
            && crate::syntax::parsed_tree(language, text@) is None),
        r is Ok == (crate::lang::mapping_for(language) is Some && crate::syntax::parsed_tree(language, text@) is Some),
{
    proof {
        lemma_grows_refl(index@);
    }
    let mapping = match for_language(language) {
        Some(m) => m,
        None => return Err(ExtractError::NoMapping),
    };
    let root = match parse_to_nodes(pool, language, text) {
        Some(root) => root,
        None => return Err(ExtractError::ParseFailed),
    };
    let src = Source::new(text);
    Ok(extract_parsed(index, mapping, &root, parent, file, &src))
}

} // verus!
