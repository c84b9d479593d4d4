//! The seam index: the containment arena, the file table, and the edge store.
//!
//! Nodes live in an arena keyed by their interned id. Containment is held twice, as
//! each node's parent and as its parent's ordered child list; every operation here says
//! what it does to both.

use vstd::prelude::*;
use crate::edge::Edge;
use crate::edge::EdgeStore;
use crate::id::SeamId;
use crate::id::SeamInterner;
use crate::id::SeamPath;
use crate::id::SegmentView;
use crate::id::id_for;
use crate::model::FileId;
use crate::model::Facet;
use crate::model::Node;

verus! {

#[verifier::external_type_specification]
#[verifier::external_body]
pub struct ExLanguageId(karet_treesitter::LanguageId);

/// Whether no two nodes of `nodes` share an id.
pub open spec fn ids_unique(nodes: Seq<Node>) -> bool {
    forall|i: int, j: int|
        0 <= i < nodes.len() && 0 <= j < nodes.len() && i != j ==> nodes[i].id != nodes[j].id
}

/// Whether some node of `nodes` has id `id`.
pub open spec fn holds(nodes: Seq<Node>, id: SeamId) -> bool {
    exists|k: int| 0 <= k < nodes.len() && nodes[k].id == id
}

/// The arena read as a map from id to node.
pub open spec fn node_map(nodes: Seq<Node>) -> Map<SeamId, Node> {
    Map::new(
        |id: SeamId| holds(nodes, id),
        |id: SeamId| nodes[choose|k: int| 0 <= k < nodes.len() && nodes[k].id == id],
    )
}

/// Whether no path occurs twice: each path has exactly one id.
pub open spec fn paths_distinct(paths: Seq<Seq<SegmentView>>) -> bool {
    forall|i: int, j: int|
        0 <= i < paths.len() && 0 <= j < paths.len() && i != j ==> paths[i] != paths[j]
}

/// The attribution recorded first for `file` in a newest-first list.
pub open spec fn first_attribution(
    entries: Seq<(FileId, SeamId, karet_treesitter::LanguageId)>,
    file: FileId,
) -> Option<(SeamId, karet_treesitter::LanguageId)>
    decreases entries.len(),
{
    if entries.len() == 0 {
        None
    } else if entries[0].0 == file {
        Some((entries[0].1, entries[0].2))
    } else {
        first_attribution(entries.drop_first(), file)
    }
}

/// Everything a [`SeamIndex`] holds, as mathematical values.
pub struct IndexView {
    /// Every interned path; an id is the position of its path.
    pub paths: Seq<Seq<SegmentView>>,
    /// The nodes, by id.
    pub nodes: Map<SeamId, Node>,
    /// The tree roots, in the order they arrived.
    pub roots: Seq<SeamId>,
    /// The file table; a file handle is a position in it.
    pub files: Seq<Seq<char>>,
    /// Which node owns each file, and which grammar parsed it.
    pub attribution: Map<FileId, (SeamId, karet_treesitter::LanguageId)>,
    /// The non-containment edges, in insertion order.
    pub edges: Seq<Edge>,
    /// Modules whose body could not be found, with the paths that were tried.
    pub unresolved: Seq<(SeamId, Seq<Seq<char>>)>,
    /// How many files were scanned before indexing stopped early, if it did.
    pub truncated: Option<usize>,
}

/// A package's containment tree, its non-containment edges, and the files behind them.
#[derive(Debug, Clone)]
pub struct SeamIndex {
    interner: SeamInterner,
    nodes: Vec<Node>,
    roots: Vec<SeamId>,
    files: Vec<String>,
    attribution: Vec<(FileId, SeamId, karet_treesitter::LanguageId)>,
    edges: EdgeStore,
    unresolved: Vec<(SeamId, Vec<String>)>,
    truncated: Option<usize>,
}

/// The view of a list of strings.
pub open spec fn strings_view(v: Seq<String>) -> Seq<Seq<char>> {
    v.map_values(|s: String| s@)
}

/// The view of the unresolved-module list.
pub open spec fn unresolved_view(v: Seq<(SeamId, Vec<String>)>) -> Seq<(SeamId, Seq<Seq<char>>)> {
    v.map_values(|e: (SeamId, Vec<String>)| (e.0, strings_view(e.1@)))
}

impl View for SeamIndex {
    type V = IndexView;

    closed spec fn view(&self) -> IndexView {
        IndexView {
            paths: self.interner@,
            nodes: node_map(self.nodes@),
            roots: self.roots@,
            files: strings_view(self.files@),
            attribution: Map::new(
                |f: FileId| first_attribution(self.attribution@, f) is Some,
                |f: FileId| first_attribution(self.attribution@, f)->0,
            ),
            edges: self.edges@,
            unresolved: unresolved_view(self.unresolved@),
            truncated: self.truncated,
        }
    }
}

/// Whether `after` is `before` with nothing but its child list changed.
pub open spec fn same_but_children(after: Node, before: Node) -> bool {
    &&& after.id == before.id
    &&& after.kind == before.kind
    &&& after.name == before.name
    &&& after.detail == before.detail
    &&& after.location == before.location
    &&& after.parent == before.parent
    &&& after.facets == before.facets
    &&& after.visibility == before.visibility
    &&& after.rollups == before.rollups
    &&& after.membership == before.membership
    &&& after.provisional == before.provisional
}


/// Whether `after` is `before` with only its facets changed.
pub open spec fn same_but_facets(after: Node, before: Node) -> bool {
    &&& after.id == before.id
    &&& after.kind == before.kind
    &&& after.name == before.name
    &&& after.detail == before.detail
    &&& after.location == before.location
    &&& after.parent == before.parent
    &&& after.children == before.children
    &&& after.visibility == before.visibility
    &&& after.rollups == before.rollups
    &&& after.membership == before.membership
    &&& after.provisional == before.provisional
}

/// A facet's lens, subtype, detail, sites and effective reach.
pub type FacetFull = (crate::model::Lens, Seq<char>, Option<Seq<char>>, Seq<crate::coord::Range>, Option<crate::model::Effective>);

/// Everything `f` holds.
pub open spec fn full_view(f: Facet) -> FacetFull {
    (f.lens, f.subtype.0@, match f.detail { Some(d) => Some(d@), None => None }, f.sites@, f.effective)
}

/// Everything each of `fs` holds.
pub open spec fn full_views(fs: Seq<Facet>) -> Seq<FacetFull> {
    fs.map_values(|f: Facet| full_view(f))
}

/// The position of the first of `fs` with this lens and subtype, or `-1`.
pub open spec fn first_same(fs: Seq<FacetFull>, lens: crate::model::Lens, subtype: Seq<char>) -> int
    decreases fs.len(),
{
    if fs.len() == 0 {
        -1
    } else if fs[0].0 == lens && fs[0].1 == subtype {
        0
    } else if first_same(fs.drop_first(), lens, subtype) < 0 {
        -1
    } else {
        1 + first_same(fs.drop_first(), lens, subtype)
    }
}

/// `fs` with `f` merged in: its sites join the first facet of the same lens and subtype,
/// or it is appended when there is none.
pub open spec fn merge_one(fs: Seq<FacetFull>, f: FacetFull) -> Seq<FacetFull> {
    let k = first_same(fs, f.0, f.1);
    if k >= 0 {
        fs.update(k, (fs[k].0, fs[k].1, fs[k].2, fs[k].3 + f.3, fs[k].4))
    } else {
        fs.push(f)
    }
}

/// `fs` with each of `incoming` merged in, in order.
pub open spec fn merged(fs: Seq<FacetFull>, incoming: Seq<FacetFull>) -> Seq<FacetFull>
    decreases incoming.len(),
{
    if incoming.len() == 0 {
        fs
    } else {
        merge_one(merged(fs, incoming.drop_last()), incoming.last())
    }
}

proof fn lemma_first_same(fs: Seq<FacetFull>, lens: crate::model::Lens, subtype: Seq<char>)
    ensures
        -1 <= first_same(fs, lens, subtype) < fs.len(),
        first_same(fs, lens, subtype) >= 0 ==> fs[first_same(fs, lens, subtype)].0 == lens && fs[first_same(fs, lens, subtype)].1 == subtype,
        forall|j: int| 0 <= j < fs.len() && (first_same(fs, lens, subtype) < 0 || j < first_same(fs, lens, subtype))
            ==> !((#[trigger] fs[j]).0 == lens && fs[j].1 == subtype),
    decreases fs.len(),
{
    if fs.len() > 0 && !(fs[0].0 == lens && fs[0].1 == subtype) {
        lemma_first_same(fs.drop_first(), lens, subtype);
        assert forall|j: int| 0 <= j < fs.len() && (first_same(fs, lens, subtype) < 0 || j < first_same(fs, lens, subtype))
            implies !((#[trigger] fs[j]).0 == lens && fs[j].1 == subtype) by {
            if j > 0 {
                assert(fs[j] == fs.drop_first()[j - 1]);
            }
        }
    }
}

/// Whether `after` is `before` with `child` appended to its children, unless already
/// there.
pub open spec fn child_appended(after: Node, before: Node, child: SeamId) -> bool {
    &&& same_but_children(after, before)
    &&& after.children@ == if before.children@.contains(child) {
        before.children@
    } else {
        before.children@.push(child)
    }
}

/// Whether `after` is `before` with `node` inserted: placed under its id and linked into
/// its parent's child list when that parent is present.
pub open spec fn linked(after: Map<SeamId, Node>, before: Map<SeamId, Node>, node: Node) -> bool {
    &&& after.dom() == before.dom().insert(node.id)
    &&& after[node.id] == node
    &&& forall|k: SeamId|
        #![trigger after[k]]
        before.contains_key(k) && k != node.id ==> if node.parent == Some(k) {
            child_appended(after[k], before[k], node.id)
        } else {
            after[k] == before[k]
        }
}

proof fn lemma_at(nodes: Seq<Node>, k: int)
    requires
        ids_unique(nodes),
        0 <= k < nodes.len(),
    ensures
        node_map(nodes).contains_key(nodes[k].id),
        node_map(nodes)[nodes[k].id] == nodes[k],
{
    let id = nodes[k].id;
    assert(holds(nodes, id));
    let c = choose|c: int| 0 <= c < nodes.len() && nodes[c].id == id;
    assert(c == k);
}

proof fn lemma_push(nodes: Seq<Node>, n: Node)
    requires
        ids_unique(nodes),
        !node_map(nodes).contains_key(n.id),
    ensures
        ids_unique(nodes.push(n)),
        node_map(nodes.push(n)) == node_map(nodes).insert(n.id, n),
{
    let s = nodes.push(n);
    assert forall|i: int, j: int|
        0 <= i < s.len() && 0 <= j < s.len() && i != j implies s[i].id != s[j].id by {
        if i == nodes.len() {
            assert(!holds(nodes, n.id));
            assert(s[j] == nodes[j]);
        } else if j == nodes.len() {
            assert(!holds(nodes, n.id));
            assert(s[i] == nodes[i]);
        } else {
            assert(s[i] == nodes[i] && s[j] == nodes[j]);
        }
    }
    let want = node_map(nodes).insert(n.id, n);
    assert forall|id: SeamId| node_map(s).contains_key(id) <==> want.contains_key(id) by {
        if holds(s, id) {
            let k = choose|k: int| 0 <= k < s.len() && s[k].id == id;
            if k < nodes.len() {
                assert(s[k] == nodes[k]);
                assert(holds(nodes, id));
            }
        }
        if holds(nodes, id) {
            let k = choose|k: int| 0 <= k < nodes.len() && nodes[k].id == id;
            assert(s[k] == nodes[k]);
            assert(holds(s, id));
        }
        if id == n.id {
            assert(s[nodes.len() as int] == n);
            assert(holds(s, id));
        }
    }
    assert forall|id: SeamId| node_map(s).contains_key(id) implies node_map(s)[id] == want[id] by {
        let k = choose|k: int| 0 <= k < s.len() && s[k].id == id;
        lemma_at(s, k);
        if k < nodes.len() {
            assert(s[k] == nodes[k]);
            lemma_at(nodes, k);
        }
    }
    assert(node_map(s) =~= want);
}

proof fn lemma_remove(nodes: Seq<Node>, k: int)
    requires
        ids_unique(nodes),
        0 <= k < nodes.len(),
    ensures
        ids_unique(nodes.remove(k)),
        node_map(nodes.remove(k)) == node_map(nodes).remove(nodes[k].id),
{
    let s = nodes.remove(k);
    let gone = nodes[k].id;
    assert forall|i: int| 0 <= i < s.len() implies #[trigger] s[i] == nodes[if i < k { i } else { i + 1 }] by {}
    assert forall|i: int, j: int|
        0 <= i < s.len() && 0 <= j < s.len() && i != j implies s[i].id != s[j].id by {
        assert(s[i] == nodes[if i < k { i } else { i + 1 }]);
        assert(s[j] == nodes[if j < k { j } else { j + 1 }]);
    }
    let want = node_map(nodes).remove(gone);
    assert forall|id: SeamId| node_map(s).contains_key(id) <==> want.contains_key(id) by {
        if holds(s, id) {
            let c = choose|c: int| 0 <= c < s.len() && s[c].id == id;
            let o = if c < k { c } else { c + 1 };
            assert(s[c] == nodes[o]);
            assert(holds(nodes, id));
            assert(o != k);
        }
        if holds(nodes, id) && id != gone {
            let c = choose|c: int| 0 <= c < nodes.len() && nodes[c].id == id;
            assert(c != k);
            let o = if c < k { c } else { c - 1 };
            assert(s[o] == nodes[c]);
            assert(holds(s, id));
        }
    }
    assert forall|id: SeamId| node_map(s).contains_key(id) implies node_map(s)[id] == want[id] by {
        let c = choose|c: int| 0 <= c < s.len() && s[c].id == id;
        let o = if c < k { c } else { c + 1 };
        assert(s[c] == nodes[o]);
        lemma_at(s, c);
        lemma_at(nodes, o);
    }
    assert(node_map(s) =~= want);
}

/// Whether `id` occurs in `ids`.
pub fn ids_contain(ids: &[SeamId], id: SeamId) -> (r: bool)
    ensures
        r == ids@.contains(id),
{
    let mut i: usize = 0;
    while i < ids.len()
        invariant
            i <= ids@.len(),
            forall|j: int| 0 <= j < i ==> ids@[j] != id,
        decreases ids.len() - i,
    {
        if ids[i] == id {
            assert(ids@[i as int] == id);
            return true;
        }
        i = i + 1;
    }
    false
}

impl SeamIndex {
    /// The index's own consistency: one node per id, one id per path.
    pub closed spec fn wf(&self) -> bool {
        &&& ids_unique(self.nodes@)
        &&& paths_distinct(self.interner@)
    }

    /// An index that holds a node holds at least one.
    pub proof fn lemma_held_counts(&self)
        requires
            self.wf(),
        ensures
            forall|r: SeamId| self@.nodes.contains_key(r) ==> self@.nodes.dom().len() > 0,
    {
        self.lemma_len();
        assert forall|r: SeamId| self@.nodes.contains_key(r) implies self@.nodes.dom().len() > 0 by {
            if self@.nodes.dom().len() == 0 {
                self@.nodes.dom().lemma_len0_is_empty();
                assert(self@.nodes.dom().contains(r));
            }
        }
    }

    /// One id per path: no path is interned twice.
    pub proof fn lemma_paths_distinct(&self)
        requires
            self.wf(),
        ensures
            paths_distinct(self@.paths),
    {
    }

    /// An index holding nothing.
    pub fn new() -> (r: Self)
        ensures
            r.wf(),
            r@.paths.len() == 0,
            r@.nodes == Map::<SeamId, Node>::empty(),
            r@.roots.len() == 0,
            r@.files.len() == 0,
            r@.attribution == Map::<FileId, (SeamId, karet_treesitter::LanguageId)>::empty(),
            r@.edges.len() == 0,
            r@.unresolved.len() == 0,
            r@.truncated is None,
    {
        let r = SeamIndex {
            interner: SeamInterner::new(),
            nodes: Vec::new(),
            roots: Vec::new(),
            files: Vec::new(),
            attribution: Vec::new(),
            edges: EdgeStore::new(),
            unresolved: Vec::new(),
            truncated: None,
        };
        assert(r@.nodes =~= Map::<SeamId, Node>::empty());
        assert(r@.attribution =~= Map::<FileId, (SeamId, karet_treesitter::LanguageId)>::empty());
        r
    }

    // --- the arena -----------------------------------------------------------

    /// The arena position of `id`.
    fn find(&self, id: SeamId) -> (r: Option<usize>)
        ensures
            match r {
                Some(k) => k < self.nodes@.len() && self.nodes@[k as int].id == id,
                None => !holds(self.nodes@, id),
            },
    {
        let mut i: usize = 0;
        while i < self.nodes.len()
            invariant
                i <= self.nodes@.len(),
                forall|j: int| 0 <= j < i ==> self.nodes@[j].id != id,
            decreases self.nodes.len() - i,
        {
            if self.nodes[i].id == id {
                return Some(i);
            }
            i = i + 1;
        }
        None
    }

    /// Remove the node behind `id` from the arena and hand it over.
    fn take(&mut self, id: SeamId) -> (r: Option<Node>)
        requires
            ids_unique(old(self).nodes@),
        ensures
            ids_unique(final(self).nodes@),
            node_map(final(self).nodes@) == node_map(old(self).nodes@).remove(id),
            match r {
                Some(n) => node_map(old(self).nodes@).contains_key(id) && n == node_map(
                    old(self).nodes@,
                )[id],
                None => !node_map(old(self).nodes@).contains_key(id) && final(self).nodes == old(self).nodes,
            },
            final(self).interner == old(self).interner,
            final(self).roots == old(self).roots,
            final(self).files == old(self).files,
            final(self).attribution == old(self).attribution,
            final(self).edges == old(self).edges,
            final(self).unresolved == old(self).unresolved,
            final(self).truncated == old(self).truncated,
    {
        match self.find(id) {
            Some(k) => {
                proof {
                    lemma_at(self.nodes@, k as int);
                    lemma_remove(self.nodes@, k as int);
                }
                let n = self.nodes.remove(k);
                Some(n)
            },
            None => {
                assert(node_map(self.nodes@).remove(id) =~= node_map(self.nodes@));
                None
            },
        }
    }

    /// Place `node` in the arena under its id, replacing whatever was there.
    fn put(&mut self, node: Node)
        requires
            ids_unique(old(self).nodes@),
        ensures
            ids_unique(final(self).nodes@),
            node_map(final(self).nodes@) == node_map(old(self).nodes@).insert(node.id, node),
            final(self).interner == old(self).interner,
            final(self).roots == old(self).roots,
            final(self).files == old(self).files,
            final(self).attribution == old(self).attribution,
            final(self).edges == old(self).edges,
            final(self).unresolved == old(self).unresolved,
            final(self).truncated == old(self).truncated,
    {
        let _ = self.take(node.id);
        let ghost before = node_map(self.nodes@);
        proof {
            lemma_push(self.nodes@, node);
        }
        self.nodes.push(node);
        assert(before.insert(node.id, node) =~= node_map(old(self).nodes@).insert(node.id, node));
    }

    // --- identity -------------------------------------------------------------

    /// The id for `path`, assigning one if this is the first time it is seen.
    pub fn intern(&mut self, path: SeamPath) -> (r: SeamId)
        requires
            old(self).wf(),
        ensures
            final(self).wf(),
            old(self)@.paths.contains(path@) ==> final(self)@.paths == old(self)@.paths,
            !old(self)@.paths.contains(path@) ==> final(self)@.paths == old(self)@.paths.push(path@),
            exists|k: int| 0 <= k < final(self)@.paths.len() && final(self)@.paths[k] == path@ && r.0 == id_for(k),
            r == id_of_path(final(self)@.paths, path@),
            final(self)@.nodes == old(self)@.nodes,
            final(self)@.roots == old(self)@.roots,
            final(self)@.files == old(self)@.files,
            final(self)@.attribution == old(self)@.attribution,
            final(self)@.edges == old(self)@.edges,
            final(self)@.unresolved == old(self)@.unresolved,
            final(self)@.truncated == old(self)@.truncated,
    {
        let ghost before = self.interner@;
        let r = self.interner.intern(path);
        proof {
            if !before.contains(path@) {
                let after = self.interner@;
                assert forall|i: int, j: int|
                    0 <= i < after.len() && 0 <= j < after.len() && i != j implies after[i] != after[j] by {
                    if i == before.len() {
                        assert(after[j] == before[j]);
                    } else if j == before.len() {
                        assert(after[i] == before[i]);
                    } else {
                        assert(after[i] == before[i] && after[j] == before[j]);
                    }
                }
                assert(after[before.len() as int] == path@);
            }
        }
        proof {
            self.lemma_paths_distinct();
            let kk = choose|k: int| 0 <= k < self@.paths.len() && self@.paths[k] == path@ && r.0 == id_for(k);
            lemma_id_of_path(self@.paths, path@, kk);
        }
        r
    }

    /// The id already assigned to `path`, without assigning a new one.
    pub fn resolve(&self, path: &SeamPath) -> (r: Option<SeamId>)
        ensures
            match r {
                Some(id) => exists|k: int|
                    0 <= k < self@.paths.len() && self@.paths[k] == path@ && id.0 == id_for(k),
                None => !self@.paths.contains(path@),
            },
    {
        self.interner.lookup(path)
    }

    /// The path behind `id`.
    pub fn path(&self, id: SeamId) -> (r: Option<&SeamPath>)
        ensures
            match r {
                Some(p) => id.0 < self@.paths.len() && p@ == self@.paths[id.0 as int],
                None => id.0 >= self@.paths.len(),
            },
    {
        self.interner.path(id)
    }

    // --- files ----------------------------------------------------------------

    /// The handle for `path`, registering it if it is new.
    ///
    /// A handle is the file's position in the table; past `u32::MAX` files it is held
    /// at `u32::MAX` rather than wrapping.
    pub fn intern_file(&mut self, path: &str) -> (r: FileId)
        requires
            old(self).wf(),
        ensures
            final(self).wf(),
            old(self)@.files.contains(path@) ==> final(self)@.files == old(self)@.files,
            !old(self)@.files.contains(path@) ==> final(self)@.files == old(self)@.files.push(path@),
            exists|k: int| 0 <= k < final(self)@.files.len() && final(self)@.files[k] == path@ && r.0 == id_for(k),
            final(self)@.paths == old(self)@.paths,
            final(self)@.nodes == old(self)@.nodes,
            final(self)@.roots == old(self)@.roots,
            final(self)@.attribution == old(self)@.attribution,
            final(self)@.edges == old(self)@.edges,
            final(self)@.unresolved == old(self)@.unresolved,
            final(self)@.truncated == old(self)@.truncated,
    {
        match self.file_id(path) {
            Some(id) => {
                assert(self@.files.contains(path@));
                id
            },
            None => {
                let len = self.files.len();
                let id = if len <= 4294967295 { FileId(len as u32) } else { FileId(4294967295) };
                let ghost before = self.files@;
                self.files.push(path.to_string());
                assert(strings_view(self.files@) =~= strings_view(before).push(path@));
                assert(strings_view(self.files@)[len as int] == path@);
                assert(self@.files.len() == len + 1);
                assert(id.0 == id_for(len as int));
                assert(exists|k: int| 0 <= k < self@.files.len() && self@.files[k] == path@ && id.0 == id_for(k));
                id
            },
        }
    }

    /// The handle already assigned to `path`, without assigning one.
    pub fn file_id(&self, path: &str) -> (r: Option<FileId>)
        ensures
            match r {
                Some(id) => exists|k: int|
                    0 <= k < self@.files.len() && self@.files[k] == path@ && id.0 == id_for(k),
                None => !self@.files.contains(path@),
            },
    {
        let mut i: usize = 0;
        while i < self.files.len()
            invariant
                i <= self.files@.len(),
                forall|j: int| 0 <= j < i ==> self@.files[j] != path@,
            decreases self.files.len() - i,
        {
            if crate::text::str_eq(self.files[i].as_str(), path) {
                let id = if i <= 4294967295 { FileId(i as u32) } else { FileId(4294967295) };
                assert(self@.files[i as int] == path@);
                assert(self@.files.len() == self.files@.len());
                assert(id.0 == id_for(i as int));
                assert(exists|k: int| 0 <= k < self@.files.len() && self@.files[k] == path@ && id.0 == id_for(k));
                return Some(id);
            }
            i = i + 1;
        }
        None
    }

    /// The path behind a file handle.
    pub fn file_path(&self, file: FileId) -> (r: Option<&str>)
        ensures
            match r {
                Some(p) => file.0 < self@.files.len() && p@ == self@.files[file.0 as int],
                None => file.0 >= self@.files.len(),
            },
    {
        let i = file.0 as usize;
        if i < self.files.len() {
            Some(self.files[i].as_str())
        } else {
            None
        }
    }

    /// Every indexed file, in registration order.
    pub fn files(&self) -> (r: &[String])
        ensures
            strings_view(r@) == self@.files,
    {
        self.files.as_slice()
    }

    /// Record which node owns `file`, and which grammar parsed it, replacing any earlier
    /// record for that file.
    pub fn attribute_file(&mut self, file: FileId, owner: SeamId, language: karet_treesitter::LanguageId)
        requires
            old(self).wf(),
        ensures
            final(self).wf(),
            final(self)@ == (IndexView { attribution: old(self)@.attribution.insert(file, (owner, language)), ..old(self)@ }),
    {
        let ghost before = self.attribution@;
        self.attribution.insert(0, (file, owner, language));
        proof {
            assert(self.attribution@.drop_first() =~= before);
            assert(self@.attribution =~= old(self)@.attribution.insert(file, (owner, language)));
        }
    }

    /// The node and grammar recorded for `file`, if it was indexed.
    pub fn file_attribution(&self, file: FileId) -> (r: Option<(SeamId, karet_treesitter::LanguageId)>)
        ensures
            r == (if self@.attribution.contains_key(file) {
                Some(self@.attribution[file])
            } else {
                None::<(SeamId, karet_treesitter::LanguageId)>
            }),
    {
        let mut i: usize = 0;
        assert(self.attribution@.subrange(0, self.attribution@.len() as int) =~= self.attribution@);
        while i < self.attribution.len()
            invariant
                i <= self.attribution@.len(),
                first_attribution(self.attribution@, file) == first_attribution(
                    self.attribution@.subrange(i as int, self.attribution@.len() as int),
                    file,
                ),
            decreases self.attribution.len() - i,
        {
            let ghost rest = self.attribution@.subrange(i as int, self.attribution@.len() as int);
            assert(rest.drop_first() =~= self.attribution@.subrange(i + 1, self.attribution@.len() as int));
            assert(rest[0] == self.attribution@[i as int]);
            if self.attribution[i].0 == file {
                return Some((self.attribution[i].1, self.attribution[i].2));
            }
            i = i + 1;
        }
        None
    }

    // --- nodes ----------------------------------------------------------------

    /// Add a node, linking it to its parent and recording it as a root when it has none.
    ///
    /// A node already held under the same id is replaced. A node whose parent is not in
    /// the index yet is still accepted, and links to nothing: the caller is splicing a
    /// subtree whose root attaches later.
    pub fn insert(&mut self, node: Node)
        requires
            old(self).wf(),
        ensures
            final(self).wf(),
            linked(final(self)@.nodes, old(self)@.nodes, node),
            final(self)@.roots == if node.parent is None && !old(self)@.roots.contains(node.id) {
                old(self)@.roots.push(node.id)
            } else {
                old(self)@.roots
            },
            final(self)@.paths == old(self)@.paths,
            final(self)@.files == old(self)@.files,
            final(self)@.attribution == old(self)@.attribution,
            final(self)@.edges == old(self)@.edges,
            final(self)@.unresolved == old(self)@.unresolved,
            final(self)@.truncated == old(self)@.truncated,
    {
        let id = node.id;
        let ghost before = node_map(self.nodes@);
        match node.parent {
            Some(p) => {
                match self.find(p) {
                    Some(k) => {
                        proof { lemma_at(self.nodes@, k as int); }
                        if !ids_contain(self.nodes[k].children.as_slice(), id) {
                            let mut parent = self.take(p).unwrap();
                            parent.children.push(id);
                            self.put(parent);
                        }
                    },
                    None => {},
                }
            },
            None => {
                if !ids_contain(self.roots.as_slice(), id) {
                    self.roots.push(id);
                }
            },
        }
        let ghost mid = node_map(self.nodes@);
        self.put(node);
        proof {
            let after = node_map(self.nodes@);
            assert(after.dom() =~= before.dom().insert(id));
            assert forall|k: SeamId| #![trigger after[k]]
                before.contains_key(k) && k != id implies if node.parent == Some(k) {
                    child_appended(after[k], before[k], id)
                } else {
                    after[k] == before[k]
                } by {
                assert(after[k] == mid[k]);
            }
        }
    }

    /// The node behind `id`.
    pub fn node(&self, id: SeamId) -> (r: Option<&Node>)
        requires
            self.wf(),
        ensures
            match r {
                Some(n) => self@.nodes.contains_key(id) && *n == self@.nodes[id],
                None => !self@.nodes.contains_key(id),
            },
    {
        match self.find(id) {
            Some(k) => {
                proof { lemma_at(self.nodes@, k as int); }
                Some(&self.nodes[k])
            },
            None => None,
        }
    }

    /// Set the configuration membership of the node behind `id`, if there is one.
    pub fn set_membership(&mut self, id: SeamId, membership: crate::model::ConfigMembership)
        requires
            old(self).wf(),
        ensures
            final(self).wf(),
            final(self)@ == (IndexView {
                nodes: if old(self)@.nodes.contains_key(id) {
                    old(self)@.nodes.insert(id, Node { membership: membership, ..old(self)@.nodes[id] })
                } else {
                    old(self)@.nodes
                },
                ..old(self)@
            }),
    {
        match self.take(id) {
            Some(mut n) => {
                n.membership = membership;
                self.put(n);
                assert(node_map(self.nodes@) =~= node_map(old(self).nodes@).insert(id, Node { membership: membership, ..node_map(old(self).nodes@)[id] }));
            },
            None => {
                assert(node_map(self.nodes@) =~= node_map(old(self).nodes@));
            },
        }
    }


    /// Merge `facets` into the node behind `id`, if there is one: each joins its sites to
    /// the first facet of the same lens and subtype, or is appended when there is none.
    /// A function with three `unsafe` blocks thus carries one facet with three sites.
    pub fn merge_facets(&mut self, id: SeamId, facets: &Vec<Facet>)
        requires
            old(self).wf(),
        ensures
            final(self).wf(),
            final(self)@.nodes.dom() == old(self)@.nodes.dom(),
            forall|k: SeamId| #![trigger final(self)@.nodes[k]]
                old(self)@.nodes.contains_key(k) && k != id ==> final(self)@.nodes[k] == old(self)@.nodes[k],
            old(self)@.nodes.contains_key(id) ==> same_but_facets(final(self)@.nodes[id], old(self)@.nodes[id])
                && full_views(final(self)@.nodes[id].facets@) == merged(full_views(old(self)@.nodes[id].facets@), full_views(facets@)),
            final(self)@.paths == old(self)@.paths,
            final(self)@.roots == old(self)@.roots,
            final(self)@.files == old(self)@.files,
            final(self)@.attribution == old(self)@.attribution,
            final(self)@.edges == old(self)@.edges,
            final(self)@.unresolved == old(self)@.unresolved,
            final(self)@.truncated == old(self)@.truncated,
    {
        match self.take(id) {
            Some(mut n) => {
                let ghost original = n;
                let mut i: usize = 0;
                while i < facets.len()
                    invariant
                        i <= facets@.len(),
                        same_but_facets(n, original),
                        full_views(n.facets@) == merged(full_views(original.facets@), full_views(facets@).take(i as int)),
                    decreases facets.len() - i,
                {
                    let f = &facets[i];
                    let ghost fs = full_views(n.facets@);
                    let mut k: usize = 0;
                    while k < n.facets.len() && !(n.facets[k].lens == f.lens && crate::text::str_eq(n.facets[k].subtype.0, f.subtype.0))
                        invariant
                            k <= n.facets@.len(),
                            fs == full_views(n.facets@),
                            forall|j: int| 0 <= j < k ==> !((#[trigger] fs[j]).0 == f.lens && fs[j].1 == f.subtype.0@),
                        decreases n.facets.len() - k,
                    {
                        k = k + 1;
                    }
                    proof {
                        lemma_first_same(fs, f.lens, f.subtype.0@);
                        let t = full_views(facets@).take(i + 1);
                        assert(t.drop_last() =~= full_views(facets@).take(i as int));
                        assert(t.last() == full_view(*f));
                    }
                    if k < n.facets.len() {
                        assert(fs[k as int] == full_view(n.facets@[k as int]));
                        assert(first_same(fs, f.lens, f.subtype.0@) == k);
                        let ghost old_facets = n.facets@;
                        let ghost e0 = n.facets@[k as int];
                        let mut e = n.facets.remove(k);
                        let mut j: usize = 0;
                        let ghost base = e.sites@;
                        while j < f.sites.len()
                            invariant
                                j <= f.sites@.len(),
                                e.sites@ == base + f.sites@.take(j as int),
                                base == e0.sites@,
                                e.lens == e0.lens,
                                e.subtype == e0.subtype,
                                e.detail == e0.detail,
                                e.effective == e0.effective,
                            decreases f.sites.len() - j,
                        {
                            e.sites.push(f.sites[j]);
                            j = j + 1;
                            assert(e.sites@ =~= base + f.sites@.take(j as int));
                        }
                        assert(f.sites@.take(j as int) =~= f.sites@);
                        let ghost before_insert = n.facets@;
                        n.facets.insert(k, e);
                        proof {
                            assert(n.facets@ =~= old_facets.update(k as int, e));
                            assert(full_view(e) == (fs[k as int].0, fs[k as int].1, fs[k as int].2, fs[k as int].3 + full_view(*f).3, fs[k as int].4));
                            assert(full_views(n.facets@) =~= merge_one(fs, full_view(*f)));
                        }
                    } else {
                        assert(first_same(fs, f.lens, f.subtype.0@) < 0);
                        let c = crate::index::copy_facet_full(f);
                        n.facets.push(c);
                        assert(full_views(n.facets@) =~= merge_one(fs, full_view(*f)));
                    }
                    i = i + 1;
                }
                assert(full_views(facets@).take(i as int) =~= full_views(facets@));
                self.put(n);
                proof {
                    let after = node_map(self.nodes@);
                    let before = node_map(old(self).nodes@);
                    assert(after.dom() =~= before.dom());
                }
            },
            None => {
                assert(node_map(self.nodes@) =~= node_map(old(self).nodes@));
            },
        }
    }

    /// Every node, in unspecified order.
    pub fn nodes(&self) -> (r: &[Node])
        requires
            self.wf(),
        ensures
            forall|k: int| 0 <= k < r@.len() ==> self@.nodes.contains_key(#[trigger] r@[k].id) && self@.nodes[r@[k].id] == r@[k],
            forall|id: SeamId| self@.nodes.contains_key(id) ==> exists|k: int| 0 <= k < r@.len() && #[trigger] r@[k].id == id,
            r@.len() == self@.nodes.dom().len(),
    {
        proof {
            assert forall|k: int| 0 <= k < self.nodes@.len() implies self@.nodes.contains_key(#[trigger] self.nodes@[k].id) && self@.nodes[self.nodes@[k].id] == self.nodes@[k] by {
                lemma_at(self.nodes@, k);
            }
            self.lemma_len();
        }
        self.nodes.as_slice()
    }

    proof fn lemma_len(&self)
        requires
            self.wf(),
        ensures
            self.nodes@.len() == self@.nodes.dom().len(),
    {
        let ids = self.nodes@.map_values(|n: Node| n.id);
        assert(ids.no_duplicates()) by {
            assert forall|i: int, j: int| 0 <= i < ids.len() && 0 <= j < ids.len() && i != j implies ids[i] != ids[j] by {
                assert(ids[i] == self.nodes@[i].id && ids[j] == self.nodes@[j].id);
            }
        }
        ids.unique_seq_to_set();
        assert forall|id: SeamId| ids.to_set().contains(id) <==> self@.nodes.dom().contains(id) by {
            if ids.to_set().contains(id) {
                let k = choose|k: int| 0 <= k < ids.len() && ids[k] == id;
                assert(self.nodes@[k].id == id);
                assert(holds(self.nodes@, id));
            }
            if holds(self.nodes@, id) {
                let k = choose|k: int| 0 <= k < self.nodes@.len() && self.nodes@[k].id == id;
                assert(ids[k] == id);
                assert(ids.contains(id));
            }
        }
        assert(ids.to_set() =~= self@.nodes.dom());
    }

    /// How many nodes the index holds.
    pub fn len(&self) -> (r: usize)
        requires
            self.wf(),
        ensures
            r == self@.nodes.dom().len(),
    {
        proof { self.lemma_len(); }
        self.nodes.len()
    }

    /// Whether the index holds no nodes.
    pub fn is_empty(&self) -> (r: bool)
        requires
            self.wf(),
        ensures
            r == (self@.nodes.dom().len() == 0),
    {
        proof { self.lemma_len(); }
        self.nodes.len() == 0
    }

    /// The tree roots, one per indexed package, in the order they arrived.
    pub fn roots(&self) -> (r: &[SeamId])
        ensures
            r@ == self@.roots,
    {
        self.roots.as_slice()
    }

    /// A node's children, in source order; nothing for an id the index does not hold.
    pub fn children(&self, id: SeamId) -> (r: Vec<SeamId>)
        requires
            self.wf(),
        ensures
            r@ == if self@.nodes.contains_key(id) { self@.nodes[id].children@ } else { Seq::<SeamId>::empty() },
    {
        match self.find(id) {
            Some(k) => {
                proof { lemma_at(self.nodes@, k as int); }
                let mut out: Vec<SeamId> = Vec::new();
                let children = &self.nodes[k].children;
                let mut i: usize = 0;
                while i < children.len()
                    invariant
                        i <= children@.len(),
                        out@ == children@.take(i as int),
                    decreases children.len() - i,
                {
                    out.push(children[i]);
                    assert(children@.take(i + 1) =~= children@.take(i as int).push(children@[i as int]));
                    i = i + 1;
                }
                assert(children@.take(children@.len() as int) =~= children@);
                out
            },
            None => Vec::new(),
        }
    }

    // --- edges ----------------------------------------------------------------

    /// The non-containment edges.
    pub fn edges(&self) -> (r: &EdgeStore)
        ensures
            r@ == self@.edges,
    {
        &self.edges
    }

    /// Add a non-containment edge.
    pub fn add_edge(&mut self, edge: Edge)
        requires
            old(self).wf(),
        ensures
            final(self).wf(),
            final(self)@ == (IndexView { edges: old(self)@.edges.push(edge), ..old(self)@ }),
    {
        self.edges.insert(edge);
    }

    // --- unresolved modules ---------------------------------------------------

    /// Record that a module's body could not be found, keeping what was tried.
    ///
    /// The node stays in the tree: removing it would say the package has no such module,
    /// when what happened is that its text could not be located.
    pub fn mark_module_unresolved(&mut self, id: SeamId, candidates: Vec<String>)
        requires
            old(self).wf(),
        ensures
            final(self).wf(),
            final(self)@ == (IndexView {
                unresolved: old(self)@.unresolved.push((id, strings_view(candidates@))),
                ..old(self)@
            }),
    {
        let ghost before = self.unresolved@;
        self.unresolved.push((id, candidates));
        assert(unresolved_view(self.unresolved@) =~= unresolved_view(before).push((id, strings_view(candidates@))));
    }

    /// Every module whose body could not be found, with the paths that were tried.
    pub fn unresolved_modules(&self) -> (r: &[(SeamId, Vec<String>)])
        ensures
            unresolved_view(r@) == self@.unresolved,
    {
        self.unresolved.as_slice()
    }

    // --- truncation -----------------------------------------------------------

    /// Record that indexing stopped early after `scanned` files.
    pub fn mark_truncated(&mut self, scanned: usize)
        requires
            old(self).wf(),
        ensures
            final(self).wf(),
            final(self)@ == (IndexView { truncated: Some(scanned), ..old(self)@ }),
    {
        self.truncated = Some(scanned);
    }

    /// How many files were scanned before indexing was cut short, if it was.
    pub fn truncated_after(&self) -> (r: Option<usize>)
        ensures
            r == self@.truncated,
    {
        self.truncated
    }

    // --- traversal ------------------------------------------------------------

    fn collect_subtree(&self, id: SeamId, fuel: usize, out: &mut Vec<SeamId>)
        requires
            ids_unique(self.nodes@),
        ensures
            final(out)@ == old(out)@ + preorder(node_map(self.nodes@), id, fuel as nat),
        decreases fuel,
    {
        if fuel == 0 {
            assert(old(out)@ + Seq::<SeamId>::empty() =~= old(out)@);
            return;
        }
        let ghost m = node_map(self.nodes@);
        match self.find(id) {
            None => {
                assert(!m.contains_key(id));
                assert(old(out)@ + Seq::<SeamId>::empty() =~= old(out)@);
            },
            Some(k) => {
                proof { lemma_at(self.nodes@, k as int); }
                out.push(id);
                let children = &self.nodes[k].children;
                let ghost cs = children@;
                assert(cs == m[id].children@);
                let mut i: usize = 0;
                assert(cs.take(0) =~= Seq::<SeamId>::empty());
                assert(out@ =~= old(out)@ + seq![id] + preorder_all(m, cs.take(0), (fuel - 1) as nat));
                while i < children.len()
                    invariant
                        i <= cs.len(),
                        cs == children@,
                        m == node_map(self.nodes@),
                        ids_unique(self.nodes@),
                        fuel > 0,
                        out@ == old(out)@ + seq![id] + preorder_all(m, cs.take(i as int), (fuel - 1) as nat),
                    decreases children.len() - i,
                {
                    let ghost before = out@;
                    self.collect_subtree(children[i], fuel - 1, out);
                    proof {
                        let t = cs.take(i + 1);
                        lemma_preorder_all_snoc(m, t, (fuel - 1) as nat);
                        assert(t.drop_last() =~= cs.take(i as int));
                        assert(t.last() == cs[i as int]);
                        assert(out@ =~= old(out)@ + seq![id] + preorder_all(m, t, (fuel - 1) as nat));
                    }
                    i = i + 1;
                }
                assert(cs.take(cs.len() as int) =~= cs);
                assert(out@ =~= old(out)@ + preorder(m, id, fuel as nat));
            },
        }
    }

    /// `id` and everything beneath it, parents before children, children in order.
    ///
    /// The walk descends at most as many levels as the index holds nodes, which a tree
    /// never exceeds; a corrupted structure with a cycle ends there instead of looping.
    pub fn subtree(&self, id: SeamId) -> (r: Vec<SeamId>)
        requires
            self.wf(),
        ensures
            r@ == preorder(self@.nodes, id, self@.nodes.dom().len()),
    {
        proof { self.lemma_len(); }
        let mut out: Vec<SeamId> = Vec::new();
        self.collect_subtree(id, self.nodes.len(), &mut out);
        assert(out@ =~= preorder(self@.nodes, id, self@.nodes.dom().len()));
        out
    }

    /// A node's ancestors, nearest first.
    ///
    /// A parent link to an id the index does not hold is reported and ends the walk. The
    /// walk takes at most one step more than the index holds nodes.
    pub fn ancestors(&self, id: SeamId) -> (r: Vec<SeamId>)
        requires
            self.wf(),
        ensures
            r@ == ancestry(self@.nodes, id, self@.nodes.dom().len() + 1),
    {
        proof { self.lemma_len(); }
        let ghost m = self@.nodes;
        let ghost total: nat = self@.nodes.dom().len() + 1;
        let mut out: Vec<SeamId> = Vec::new();
        let mut current = id;
        let mut fuel: usize = self.nodes.len();
        let mut more = true;
        assert(out@ + ancestry(m, current, (fuel + 1) as nat) =~= ancestry(m, id, total));
        while more
            invariant
                m == node_map(self.nodes@),
                ids_unique(self.nodes@),
                fuel <= self.nodes@.len(),
                more ==> out@ + ancestry(m, current, (fuel + 1) as nat) == ancestry(m, id, total),
                !more ==> out@ == ancestry(m, id, total),
            decreases fuel + (if more { 1int } else { 0int }),
        {
            match self.find(current) {
                None => {
                    assert(out@ + ancestry(m, current, (fuel + 1) as nat) =~= out@);
                    more = false;
                },
                Some(k) => {
                    proof { lemma_at(self.nodes@, k as int); }
                    match self.nodes[k].parent {
                        None => {
                            assert(out@ + ancestry(m, current, (fuel + 1) as nat) =~= out@);
                            more = false;
                        },
                        Some(p) => {
                            let ghost before = out@;
                            out.push(p);
                            assert(before + ancestry(m, current, (fuel + 1) as nat) =~= out@ + ancestry(m, p, fuel as nat));
                            if fuel == 0 {
                                assert(out@ + ancestry(m, p, 0) =~= out@);
                                more = false;
                            } else {
                                current = p;
                                fuel = fuel - 1;
                            }
                        },
                    }
                },
            }
        }
        out
    }
}

/// The ids of `id`'s subtree in pre-order, descending at most `fuel` levels.
pub open spec fn preorder(nodes: Map<SeamId, Node>, id: SeamId, fuel: nat) -> Seq<SeamId>
    decreases fuel, 0nat,
{
    if fuel == 0 || !nodes.contains_key(id) {
        Seq::empty()
    } else {
        seq![id] + preorder_all(nodes, nodes[id].children@, (fuel - 1) as nat)
    }
}

/// The pre-order walks of each of `ids`, one after another.
pub open spec fn preorder_all(nodes: Map<SeamId, Node>, ids: Seq<SeamId>, fuel: nat) -> Seq<SeamId>
    decreases fuel, ids.len() + 1,
{
    if ids.len() == 0 {
        Seq::empty()
    } else {
        preorder(nodes, ids[0], fuel) + preorder_all(nodes, ids.drop_first(), fuel)
    }
}

/// `id`'s parent, its parent's parent, and so on, for at most `fuel` steps.
pub open spec fn ancestry(nodes: Map<SeamId, Node>, id: SeamId, fuel: nat) -> Seq<SeamId>
    decreases fuel,
{
    if fuel == 0 || !nodes.contains_key(id) {
        Seq::empty()
    } else {
        match nodes[id].parent {
            None => Seq::empty(),
            Some(p) => seq![p] + ancestry(nodes, p, (fuel - 1) as nat),
        }
    }
}

proof fn lemma_preorder_all_snoc(nodes: Map<SeamId, Node>, s: Seq<SeamId>, fuel: nat)
    requires
        s.len() > 0,
    ensures
        preorder_all(nodes, s, fuel) == preorder_all(nodes, s.drop_last(), fuel) + preorder(nodes, s.last(), fuel),
    decreases s.len(),
{
    if s.len() == 1 {
        assert(s.drop_first().len() == 0);
        assert(s.drop_last().len() == 0);
        assert(preorder_all(nodes, s.drop_first(), fuel) == Seq::<SeamId>::empty());
        assert(preorder_all(nodes, s.drop_last(), fuel) == Seq::<SeamId>::empty());
        assert(preorder_all(nodes, s, fuel) =~= preorder(nodes, s[0], fuel));
    } else {
        lemma_preorder_all_snoc(nodes, s.drop_first(), fuel);
        assert(s.drop_first().drop_last() =~= s.drop_last().drop_first());
        assert(s.drop_last()[0] == s[0]);
        assert(s.drop_first().last() == s.last());
        assert(preorder_all(nodes, s, fuel) =~= preorder(nodes, s[0], fuel) + preorder_all(nodes, s.drop_first(), fuel));
        assert(preorder_all(nodes, s.drop_last(), fuel) =~= preorder(nodes, s[0], fuel) + preorder_all(nodes, s.drop_last().drop_first(), fuel));
    }
}

proof fn lemma_update(nodes: Seq<Node>, j: int, n: Node)
    requires
        ids_unique(nodes),
        0 <= j < nodes.len(),
        n.id == nodes[j].id,
    ensures
        ids_unique(nodes.update(j, n)),
        node_map(nodes.update(j, n)) == node_map(nodes).insert(n.id, n),
{
    let s = nodes.update(j, n);
    assert forall|a: int, b: int|
        0 <= a < s.len() && 0 <= b < s.len() && a != b implies s[a].id != s[b].id by {
        assert(s[a].id == nodes[a].id && s[b].id == nodes[b].id);
    }
    let want = node_map(nodes).insert(n.id, n);
    assert forall|id: SeamId| node_map(s).contains_key(id) <==> want.contains_key(id) by {
        if holds(s, id) {
            let k = choose|k: int| 0 <= k < s.len() && s[k].id == id;
            assert(nodes[k].id == id);
            assert(holds(nodes, id));
        }
        if holds(nodes, id) {
            let k = choose|k: int| 0 <= k < nodes.len() && nodes[k].id == id;
            assert(s[k].id == id);
            assert(holds(s, id));
        }
    }
    assert forall|id: SeamId| node_map(s).contains_key(id) implies node_map(s)[id] == want[id] by {
        let k = choose|k: int| 0 <= k < s.len() && s[k].id == id;
        lemma_at(s, k);
        if k != j {
            lemma_at(nodes, k);
        }
    }
    assert(node_map(s) =~= want);
}

/// `ids` without any of `gone`.
pub open spec fn without(ids: Seq<SeamId>, gone: Seq<SeamId>) -> Seq<SeamId> {
    ids.filter(|c: SeamId| !gone.contains(c))
}

/// The copy of `ids` without any of `gone`, in order.
pub fn ids_without(ids: &[SeamId], gone: &[SeamId]) -> (r: Vec<SeamId>)
    ensures
        r@ == without(ids@, gone@),
{
    let ghost pred = |c: SeamId| !gone@.contains(c);
    let mut out: Vec<SeamId> = Vec::new();
    let mut i: usize = 0;
    while i < ids.len()
        invariant
            i <= ids@.len(),
            out@ == ids@.subrange(0, i as int).filter(pred),
            pred == (|c: SeamId| !gone@.contains(c)),
        decreases ids.len() - i,
    {
        proof {
            let pre = ids@.subrange(0, i as int);
            assert(ids@.subrange(0, i + 1) =~= pre.push(ids@[i as int]));
            pre.lemma_filter_push(ids@[i as int], pred);
        }
        if !ids_contain(gone, ids[i]) {
            out.push(ids[i]);
        }
        i = i + 1;
    }
    assert(ids@.subrange(0, ids@.len() as int) =~= ids@);
    out
}

/// Whether `after` is `before` with `gone` dropped from the arena and from every
/// surviving child list.
pub open spec fn dropped(after: Map<SeamId, Node>, before: Map<SeamId, Node>, gone: Seq<SeamId>) -> bool {
    &&& forall|k: SeamId| after.contains_key(k) <==> before.contains_key(k) && !gone.contains(k)
    &&& forall|k: SeamId| #![trigger after[k]] after.contains_key(k) ==> same_but_children(after[k], before[k])
        && after[k].children@ == without(before[k].children@, gone)
}

/// The ids `remove_nodes_in_file` removes: every node of `root`'s subtree located in
/// `file`, other than `root` itself.
pub open spec fn doomed_in_file(m: Map<SeamId, Node>, root: SeamId, file: FileId) -> Seq<SeamId> {
    preorder(m, root, m.dom().len()).filter(located_below(m, root, file))
}

/// Whether an id names a node of `m` located in `file`, other than `root`.
pub open spec fn located_below(m: Map<SeamId, Node>, root: SeamId, file: FileId) -> spec_fn(SeamId) -> bool {
    |id: SeamId| id != root && m.contains_key(id) && m[id].location.file == file
}

impl SeamIndex {
    /// Drop `gone` from the arena, leaving child lists as they are.
    fn drop_arena(&mut self, gone: &[SeamId])
        requires
            old(self).wf(),
        ensures
            final(self).wf(),
            forall|k: SeamId| #[trigger] final(self)@.nodes.contains_key(k) <==> old(self)@.nodes.contains_key(k) && !gone@.contains(k),
            forall|k: SeamId| #[trigger] final(self)@.nodes.contains_key(k) ==> final(self)@.nodes[k] == old(self)@.nodes[k],
            final(self)@.edges == old(self)@.edges,
            final(self)@.paths == old(self)@.paths,
            final(self)@.roots == old(self)@.roots,
            final(self)@.files == old(self)@.files,
            final(self)@.attribution == old(self)@.attribution,
            final(self)@.unresolved == old(self)@.unresolved,
            final(self)@.truncated == old(self)@.truncated,
    {
        let ghost m0 = node_map(self.nodes@);
        let mut i: usize = 0;
        while i < gone.len()
            invariant
                i <= gone@.len(),
                ids_unique(self.nodes@),
                paths_distinct(self.interner@),
                forall|k: SeamId| #[trigger] node_map(self.nodes@).contains_key(k) <==> m0.contains_key(k) && !gone@.take(i as int).contains(k),
                forall|k: SeamId| #[trigger] node_map(self.nodes@).contains_key(k) ==> node_map(self.nodes@)[k] == m0[k],
                self.interner == old(self).interner,
                self.roots == old(self).roots,
                self.files == old(self).files,
                self.attribution == old(self).attribution,
                self.edges == old(self).edges,
                self.unresolved == old(self).unresolved,
                self.truncated == old(self).truncated,
            decreases gone.len() - i,
        {
            let _ = self.take(gone[i]);
            proof {
                let t0 = gone@.take(i as int);
                let t1 = gone@.take(i + 1);
                assert(t1 =~= t0.push(gone@[i as int]));
                assert forall|k: SeamId| t1.contains(k) <==> t0.contains(k) || k == gone@[i as int] by {
                    if t1.contains(k) {
                        let x = choose|x: int| 0 <= x < t1.len() && #[trigger] t1[x] == k;
                        if x < i {
                            assert(t0[x] == k);
                        }
                    }
                    if t0.contains(k) {
                        let x = choose|x: int| 0 <= x < t0.len() && #[trigger] t0[x] == k;
                        assert(t1[x] == k);
                    }
                    if k == gone@[i as int] {
                        assert(t1[i as int] == k);
                    }
                }
            }
            i = i + 1;
        }
        assert(gone@.take(gone@.len() as int) =~= gone@);
    }

    /// Remove `gone` from every child list.
    fn unlink_all(&mut self, gone: &[SeamId])
        requires
            old(self).wf(),
        ensures
            final(self).wf(),
            final(self)@.nodes.dom() == old(self)@.nodes.dom(),
            forall|k: SeamId| #![trigger final(self)@.nodes[k]] final(self)@.nodes.contains_key(k) ==> same_but_children(final(self)@.nodes[k], old(self)@.nodes[k])
                && final(self)@.nodes[k].children@ == without(old(self)@.nodes[k].children@, gone@),
            final(self)@.edges == old(self)@.edges,
            final(self)@.paths == old(self)@.paths,
            final(self)@.roots == old(self)@.roots,
            final(self)@.files == old(self)@.files,
            final(self)@.attribution == old(self)@.attribution,
            final(self)@.unresolved == old(self)@.unresolved,
            final(self)@.truncated == old(self)@.truncated,
    {
        let ghost m0 = node_map(self.nodes@);
        let ghost m1 = node_map(self.nodes@);
        assert(forall|k: SeamId| #[trigger] m1.contains_key(k) ==> m1[k] == m0[k]);
        let mut j: usize = 0;
        while j < self.nodes.len()
            invariant
                j <= self.nodes@.len(),
                ids_unique(self.nodes@),
                paths_distinct(self.interner@),
                node_map(self.nodes@).dom() == m1.dom(),
                forall|k: SeamId| #[trigger] m1.contains_key(k) ==> m1[k] == m0[k],
                forall|x: int| 0 <= x < self.nodes@.len() ==> m1.contains_key(#[trigger] self.nodes@[x].id),
                forall|x: int| 0 <= x < self.nodes@.len() ==> same_but_children(#[trigger] self.nodes@[x], m1[self.nodes@[x].id]),
                forall|x: int| 0 <= x < self.nodes@.len() ==> (#[trigger] self.nodes@[x]).children@ == if x < j {
                    without(m1[self.nodes@[x].id].children@, gone@)
                } else {
                    m1[self.nodes@[x].id].children@
                },
                self.interner == old(self).interner,
                self.roots == old(self).roots,
                self.files == old(self).files,
                self.attribution == old(self).attribution,
                self.edges == old(self).edges,
                self.unresolved == old(self).unresolved,
                self.truncated == old(self).truncated,
            decreases self.nodes.len() - j,
        {
            let ghost s0 = self.nodes@;
            let kept = ids_without(self.nodes[j].children.as_slice(), gone);
            let mut n = self.nodes.remove(j);
            n.children = kept;
            self.nodes.insert(j, n);
            proof {
                assert(self.nodes@ =~= s0.update(j as int, n));
                lemma_update(s0, j as int, n);
                assert(node_map(self.nodes@).dom() =~= m1.dom());
                assert forall|x: int| 0 <= x < self.nodes@.len() implies (#[trigger] self.nodes@[x]).children@ == if x < j + 1 {
                    without(m1[self.nodes@[x].id].children@, gone@)
                } else {
                    m1[self.nodes@[x].id].children@
                } by {
                    if x != j {
                        assert(self.nodes@[x] == s0[x]);
                    }
                }
            }
            j = j + 1;
        }
        proof {
            let fin = node_map(self.nodes@);
            assert forall|k: SeamId| #![trigger fin[k]] fin.contains_key(k) implies same_but_children(fin[k], m0[k])
                && fin[k].children@ == without(m0[k].children@, gone@) by {
                let x = choose|x: int| 0 <= x < self.nodes@.len() && self.nodes@[x].id == k;
                lemma_at(self.nodes@, x);
            }
        }
    }

    /// Drop `gone` from the arena, from every child list and from the edge store.
    fn drop_nodes(&mut self, gone: &[SeamId])
        requires
            old(self).wf(),
        ensures
            final(self).wf(),
            dropped(final(self)@.nodes, old(self)@.nodes, gone@),
            final(self)@.edges == old(self)@.edges.filter(|e: Edge| !gone@.contains(e.from)),
            final(self)@.paths == old(self)@.paths,
            final(self)@.roots == old(self)@.roots,
            final(self)@.files == old(self)@.files,
            final(self)@.attribution == old(self)@.attribution,
            final(self)@.unresolved == old(self)@.unresolved,
            final(self)@.truncated == old(self)@.truncated,
    {
        self.drop_arena(gone);
        self.unlink_all(gone);
        self.edges.remove_from_any(gone);
    }
}

impl SeamIndex {
    /// Keep only the unresolved-module records whose node is not among `gone`.
    fn retain_unresolved(&mut self, gone: &[SeamId])
        requires
            old(self).wf(),
        ensures
            final(self).wf(),
            final(self)@ == (IndexView {
                unresolved: old(self)@.unresolved.filter(|e: (SeamId, Seq<Seq<char>>)| !gone@.contains(e.0)),
                ..old(self)@
            }),
    {
        let ghost pred = |e: (SeamId, Seq<Seq<char>>)| !gone@.contains(e.0);
        let ghost orig = unresolved_view(self.unresolved@);
        let total = self.unresolved.len();
        let mut kept: Vec<(SeamId, Vec<String>)> = Vec::new();
        let mut consumed: usize = 0;
        while self.unresolved.len() > 0
            invariant
                consumed <= orig.len(),
                orig.len() == total,
                unresolved_view(self.unresolved@) == orig.subrange(consumed as int, orig.len() as int),
                unresolved_view(kept@) == orig.subrange(0, consumed as int).filter(pred),
                pred == (|e: (SeamId, Seq<Seq<char>>)| !gone@.contains(e.0)),
                ids_unique(self.nodes@),
                paths_distinct(self.interner@),
                self.interner == old(self).interner,
                self.nodes == old(self).nodes,
                self.roots == old(self).roots,
                self.files == old(self).files,
                self.attribution == old(self).attribution,
                self.edges == old(self).edges,
                self.truncated == old(self).truncated,
            decreases self.unresolved.len(),
        {
            let ghost rest = self.unresolved@;
            let e = self.unresolved.remove(0);
            proof {
                assert(unresolved_view(rest).len() == rest.len());
                assert(rest.len() > 0);
                assert(consumed < orig.len());
                assert(orig[consumed as int] == unresolved_view(rest)[0]);
                assert forall|x: int| 0 <= x < self.unresolved@.len() implies #[trigger] unresolved_view(self.unresolved@)[x] == orig[consumed + 1 + x] by {
                    assert(self.unresolved@[x] == rest[x + 1]);
                    assert(unresolved_view(rest)[x + 1] == orig.subrange(consumed as int, orig.len() as int)[x + 1]);
                }
                assert(unresolved_view(self.unresolved@) =~= orig.subrange(consumed + 1, orig.len() as int));
                let pre = orig.subrange(0, consumed as int);
                assert(orig.subrange(0, consumed + 1) =~= pre.push(orig[consumed as int]));
                pre.lemma_filter_push(orig[consumed as int], pred);
            }
            if !ids_contain(gone, e.0) {
                let ghost k0 = kept@;
                kept.push(e);
                assert(unresolved_view(kept@) =~= unresolved_view(k0).push((e.0, strings_view(e.1@))));
            }
            consumed = consumed + 1;
        }
        assert(orig.subrange(0, orig.len() as int) =~= orig);
        self.unresolved = kept;
    }

    /// Remove every node located in `file` that sits under `root` (`root` itself
    /// excepted), detaching them from their parents and dropping the edges they own.
    pub fn remove_nodes_in_file(&mut self, file: FileId, root: SeamId)
        requires
            old(self).wf(),
        ensures
            final(self).wf(),
            dropped(final(self)@.nodes, old(self)@.nodes, doomed_in_file(old(self)@.nodes, root, file)),
            final(self)@.edges == old(self)@.edges.filter(
                |e: Edge| !doomed_in_file(old(self)@.nodes, root, file).contains(e.from),
            ),
            final(self)@.roots == without(old(self)@.roots, doomed_in_file(old(self)@.nodes, root, file)),
            final(self)@.unresolved == old(self)@.unresolved.filter(
                |e: (SeamId, Seq<Seq<char>>)| !doomed_in_file(old(self)@.nodes, root, file).contains(e.0),
            ),
            final(self)@.paths == old(self)@.paths,
            final(self)@.files == old(self)@.files,
            final(self)@.attribution == old(self)@.attribution,
            final(self)@.truncated == old(self)@.truncated,
    {
        let ghost m = self@.nodes;
        let ghost pred = located_below(m, root, file);
        let sub = self.subtree(root);
        let mut doomed: Vec<SeamId> = Vec::new();
        let mut i: usize = 0;
        while i < sub.len()
            invariant
                i <= sub@.len(),
                self.wf(),
                m == self@.nodes,
                doomed@ == sub@.subrange(0, i as int).filter(pred),
                pred == located_below(m, root, file),
            decreases sub.len() - i,
        {
            proof {
                let pre = sub@.subrange(0, i as int);
                assert(sub@.subrange(0, i + 1) =~= pre.push(sub@[i as int]));
                pre.lemma_filter_push(sub@[i as int], pred);
            }
            let id = sub[i];
            if id != root {
                match self.node(id) {
                    Some(n) => {
                        if n.location.file == file {
                            doomed.push(id);
                        }
                    },
                    None => {},
                }
            }
            i = i + 1;
        }
        assert(sub@.subrange(0, sub@.len() as int) =~= sub@);
        assert(sub@ == preorder(m, root, m.dom().len()));
        assert(doomed@ == doomed_in_file(m, root, file));
        self.drop_nodes(doomed.as_slice());
        let roots = ids_without(self.roots.as_slice(), doomed.as_slice());
        self.roots = roots;
        self.retain_unresolved(doomed.as_slice());
    }

    /// Detach `id` from the tree, dropping it and everything under it.
    ///
    /// The nodes go from the arena, their ids from every remaining child list, and the
    /// edges they own from the edge store; `id` itself leaves the roots and the
    /// unresolved-module records.
    pub fn discard(&mut self, id: SeamId)
        requires
            old(self).wf(),
        ensures
            final(self).wf(),
            dropped(final(self)@.nodes, old(self)@.nodes, discarded(old(self)@.nodes, id)),
            final(self)@.edges == old(self)@.edges.filter(
                |e: Edge| !preorder(old(self)@.nodes, id, old(self)@.nodes.dom().len()).contains(e.from),
            ),
            final(self)@.roots == without(old(self)@.roots, seq![id]),
            final(self)@.unresolved == old(self)@.unresolved.filter(
                |e: (SeamId, Seq<Seq<char>>)| !seq![id].contains(e.0),
            ),
            final(self)@.paths == old(self)@.paths,
            final(self)@.files == old(self)@.files,
            final(self)@.attribution == old(self)@.attribution,
            final(self)@.truncated == old(self)@.truncated,
    {
        let sub = self.subtree(id);
        let mut lone: Vec<SeamId> = Vec::new();
        lone.push(id);
        if sub.len() == 0 {
            self.unlink_all(lone.as_slice());
            proof {
                old(self).lemma_len();
                let m = old(self)@.nodes;
                if m.contains_key(id) && m.dom().len() == 0 {
                    m.dom().lemma_len0_is_empty();
                    assert(m.dom().contains(id));
                }
                assert(!m.contains_key(id));
                assert(sub@ == preorder(m, id, m.dom().len()));
                let p = |e: Edge| !preorder(m, id, m.dom().len()).contains(e.from);
                lemma_filter_keeps_all(old(self)@.edges, p);
            }
        } else {
            self.drop_nodes(sub.as_slice());
        }
        let roots = ids_without(self.roots.as_slice(), lone.as_slice());
        self.roots = roots;
        self.retain_unresolved(lone.as_slice());
        assert(lone@ =~= seq![id]);
    }
}

/// What `discard(id)` removes: `id`'s subtree, or `id` alone when the index does not
/// hold it (so that stale child links to it go too).
pub open spec fn discarded(m: Map<SeamId, Node>, id: SeamId) -> Seq<SeamId> {
    let sub = preorder(m, id, m.dom().len());
    if sub.len() == 0 {
        seq![id]
    } else {
        sub
    }
}

proof fn lemma_filter_keeps_all<A>(s: Seq<A>, p: spec_fn(A) -> bool)
    requires
        forall|i: int| 0 <= i < s.len() ==> p(s[i]),
    ensures
        s.filter(p) == s,
    decreases s.len(),
{
    if s.len() == 0 {
        reveal(Seq::filter);
        assert(s.filter(p) =~= s);
    } else {
        let d = s.drop_last();
        lemma_filter_keeps_all(d, p);
        d.lemma_filter_push(s.last(), p);
        assert(d.push(s.last()) =~= s);
    }
}

/// Whether `id` has a non-empty interned path whose last segment is named `name`.
pub open spec fn named_child(paths: Seq<Seq<SegmentView>>, name: Seq<char>) -> spec_fn(SeamId) -> bool {
    |c: SeamId| c.0 < paths.len() && paths[c.0 as int].len() > 0 && paths[c.0 as int].last().0 == name
}

/// The ordinals already worn by `parent`'s children named `name`.
pub open spec fn taken_ordinals(v: IndexView, parent: SeamId, name: Seq<char>) -> Seq<u32> {
    let kids = if v.nodes.contains_key(parent) { v.nodes[parent].children@ } else { Seq::<SeamId>::empty() };
    kids.filter(named_child(v.paths, name)).map_values(|c: SeamId| v.paths[c.0 as int].last().1)
}

/// Whether `n` is the ordinal a new sibling takes beside `taken`: none (`0`) when the
/// name is unused, else the least ordinal from `2` not in use, held at `u32::MAX`.
pub open spec fn is_free_ordinal(taken: Seq<u32>, n: u32) -> bool {
    if taken.len() == 0 {
        n == 0
    } else {
        &&& 2 <= n
        &&& forall|m: u32| 2 <= m < n ==> taken.contains(m)
        &&& (n == u32::MAX || !taken.contains(n))
    }
}

/// Whether `n` occurs in `v`.
fn u32s_contain(v: &Vec<u32>, n: u32) -> (r: bool)
    ensures
        r == v@.contains(n),
{
    let mut i: usize = 0;
    while i < v.len()
        invariant
            i <= v@.len(),
            forall|j: int| 0 <= j < i ==> v@[j] != n,
        decreases v.len() - i,
    {
        if v[i] == n {
            assert(v@[i as int] == n);
            return true;
        }
        i = i + 1;
    }
    false
}

impl SeamIndex {
    /// The segment `name` should take as a child of `parent`: the first occurrence keeps
    /// its bare name, later ones the least free ordinal from `2`.
    ///
    /// Asked of the tree rather than of a counter, because a node arriving here was
    /// written somewhere else and there is no sibling walk to have counted it.
    fn free_child_segment(&self, parent: SeamId, name: String) -> (r: crate::id::SeamSegment)
        requires
            self.wf(),
        ensures
            r@.0 == name@,
            is_free_ordinal(taken_ordinals(self@, parent, name@), r@.1),
    {
        let kids = self.children(parent);
        let ghost pred = named_child(self@.paths, name@);
        let ghost f = |c: SeamId| self@.paths[c.0 as int].last().1;
        let mut taken: Vec<u32> = Vec::new();
        let mut i: usize = 0;
        while i < kids.len()
            invariant
                i <= kids@.len(),
                self.wf(),
                pred == named_child(self@.paths, name@),
                f == (|c: SeamId| self@.paths[c.0 as int].last().1),
                taken@ == kids@.subrange(0, i as int).filter(pred).map_values(f),
            decreases kids.len() - i,
        {
            proof {
                let pre = kids@.subrange(0, i as int);
                assert(kids@.subrange(0, i + 1) =~= pre.push(kids@[i as int]));
                pre.lemma_filter_push(kids@[i as int], pred);
            }
            match self.path(kids[i]) {
                Some(p) => {
                    let n = p.len();
                    if n > 0 {
                        let last = &p.segments()[n - 1];
                        if crate::text::str_eq(last.name.as_str(), name.as_str()) {
                            let ghost t0 = taken@;
                            taken.push(last.ordinal);
                            proof {
                                let pre = kids@.subrange(0, i as int);
                                assert(p@.last() == p@[n - 1]);
                                assert(taken@ =~= pre.filter(pred).push(kids@[i as int]).map_values(f));
                            }
                        }
                    }
                },
                None => {},
            }
            i = i + 1;
        }
        assert(kids@.subrange(0, kids@.len() as int) =~= kids@);
        assert(taken@ == taken_ordinals(self@, parent, name@));
        if taken.len() == 0 {
            return crate::id::SeamSegment::new(name);
        }
        let mut n: u32 = 2;
        while n < 4294967295 && u32s_contain(&taken, n)
            invariant
                2 <= n,
                forall|m: u32| 2 <= m < n ==> taken@.contains(m),
            decreases 4294967295 - n,
        {
            n = n + 1;
        }
        crate::id::SeamSegment::numbered(name, n)
    }
}

/// The order children are kept in: by file handle, then by byte offset; an id the
/// index does not hold sorts last.
pub open spec fn child_key(m: Map<SeamId, Node>, c: SeamId) -> (int, int) {
    if m.contains_key(c) {
        (m[c].location.file.0 as int, m[c].location.span.start.0 as int)
    } else {
        (u32::MAX as int, usize::MAX as int)
    }
}

/// Whether key `a` sorts no later than key `b`.
pub open spec fn key_le(a: (int, int), b: (int, int)) -> bool {
    a.0 < b.0 || (a.0 == b.0 && a.1 <= b.1)
}

/// Whether `ids` is in child order under `m`.
pub open spec fn in_child_order(m: Map<SeamId, Node>, ids: Seq<SeamId>) -> bool {
    forall|i: int, j: int| 0 <= i < j < ids.len() ==> key_le(child_key(m, #[trigger] ids[i]), child_key(m, #[trigger] ids[j]))
}

/// `ids` with each one moved through `remap`.
pub open spec fn moved_all(ids: Seq<SeamId>, remap: Map<SeamId, SeamId>) -> Seq<SeamId> {
    ids.map_values(|c: SeamId| crate::id::moved(remap, c))
}

/// Each of `ids`, moved through `remap`.
pub fn map_ids(ids: &[SeamId], remap: &crate::id::Remap) -> (r: Vec<SeamId>)
    ensures
        r@ == moved_all(ids@, remap@),
{
    let mut out: Vec<SeamId> = Vec::new();
    let mut i: usize = 0;
    while i < ids.len()
        invariant
            i <= ids@.len(),
            out@ == moved_all(ids@.take(i as int), remap@),
        decreases ids.len() - i,
    {
        out.push(remap.apply(ids[i]));
        assert(moved_all(ids@.take(i + 1), remap@) =~= moved_all(ids@.take(i as int), remap@).push(crate::id::moved(remap@, ids@[i as int])));
        i = i + 1;
    }
    assert(ids@.take(ids@.len() as int) =~= ids@);
    out
}

/// The attribution list with every owner moved through `remap`.
pub open spec fn moved_attribution(
    entries: Seq<(FileId, SeamId, karet_treesitter::LanguageId)>,
    remap: Map<SeamId, SeamId>,
) -> Seq<(FileId, SeamId, karet_treesitter::LanguageId)> {
    entries.map_values(|e: (FileId, SeamId, karet_treesitter::LanguageId)| (e.0, crate::id::moved(remap, e.1), e.2))
}

proof fn lemma_first_attribution_moved(
    entries: Seq<(FileId, SeamId, karet_treesitter::LanguageId)>,
    remap: Map<SeamId, SeamId>,
    f: FileId,
)
    ensures
        first_attribution(moved_attribution(entries, remap), f) == match first_attribution(entries, f) {
            Some(a) => Some((crate::id::moved(remap, a.0), a.1)),
            None => None,
        },
    decreases entries.len(),
{
    if entries.len() > 0 {
        assert(moved_attribution(entries, remap).drop_first() =~= moved_attribution(entries.drop_first(), remap));
        lemma_first_attribution_moved(entries.drop_first(), remap, f);
    }
}

impl SeamIndex {
    /// The key a child sorts by.
    fn key_of(&self, c: SeamId) -> (r: (u32, usize))
        requires
            self.wf(),
        ensures
            r.0 as int == child_key(self@.nodes, c).0,
            r.1 as int == child_key(self@.nodes, c).1,
    {
        match self.node(c) {
            Some(n) => (n.location.file.0, n.location.span.start.0),
            None => (4294967295, usize::MAX),
        }
    }

    /// Put a node's children back into order after one arrived from elsewhere: by
    /// file, then by byte offset. Files have no order between them, so the handle's own
    /// registration order stands in — arbitrary, but stable. Ties keep their order.
    fn sort_children(&mut self, parent: SeamId)
        requires
            old(self).wf(),
        ensures
            final(self).wf(),
            final(self)@.nodes.dom() == old(self)@.nodes.dom(),
            forall|k: SeamId| #![trigger final(self)@.nodes[k]] final(self)@.nodes.contains_key(k) && k != parent ==> final(self)@.nodes[k] == old(self)@.nodes[k],
            old(self)@.nodes.contains_key(parent) ==> same_but_children(final(self)@.nodes[parent], old(self)@.nodes[parent])
                && final(self)@.nodes[parent].children@.to_multiset() == old(self)@.nodes[parent].children@.to_multiset()
                && in_child_order(old(self)@.nodes, final(self)@.nodes[parent].children@),
            final(self)@.paths == old(self)@.paths,
            final(self)@.roots == old(self)@.roots,
            final(self)@.files == old(self)@.files,
            final(self)@.attribution == old(self)@.attribution,
            final(self)@.edges == old(self)@.edges,
            final(self)@.unresolved == old(self)@.unresolved,
            final(self)@.truncated == old(self)@.truncated,
    {
        broadcast use vstd::seq_lib::group_to_multiset_ensures;
        let ghost m = self@.nodes;
        if self.find(parent).is_none() {
            return;
        }
        let mut rest = self.children(parent);
        let ghost start = rest@;
        let mut out: Vec<SeamId> = Vec::new();
        while rest.len() > 0
            invariant
                self.wf(),
                self@ == old(self)@,
                m == self@.nodes,
                m.contains_key(parent),
                start == m[parent].children@,
                out@.to_multiset().add(rest@.to_multiset()) == start.to_multiset(),
                in_child_order(m, out@),
                forall|i: int, j: int| 0 <= i < out@.len() && 0 <= j < rest@.len() ==> key_le(child_key(m, #[trigger] out@[i]), child_key(m, #[trigger] rest@[j])),
            decreases rest.len(),
        {
            let mut best: usize = 0;
            let mut best_key = self.key_of(rest[0]);
            let mut k: usize = 1;
            while k < rest.len()
                invariant
                    self.wf(),
                    m == self@.nodes,
                    1 <= k <= rest@.len(),
                    best < rest@.len(),
                    best_key.0 as int == child_key(m, rest@[best as int]).0,
                    best_key.1 as int == child_key(m, rest@[best as int]).1,
                    forall|j: int| 0 <= j < k ==> key_le(child_key(m, rest@[best as int]), child_key(m, #[trigger] rest@[j])),
                decreases rest.len() - k,
            {
                let key = self.key_of(rest[k]);
                if key.0 < best_key.0 || (key.0 == best_key.0 && key.1 < best_key.1) {
                    best = k;
                    best_key = key;
                }
                k = k + 1;
            }
            let ghost r0 = rest@;
            let ghost o0 = out@;
            let c = rest.remove(best);
            out.push(c);
            proof {
                assert(rest@ == r0.remove(best as int));
                assert forall|j: int| 0 <= j < rest@.len() implies #[trigger] rest@[j] == r0[if j < best { j } else { j + 1 }] by {}
                o0.to_multiset_ensures();
                r0.to_multiset_ensures();
                assert(out@ == o0.push(c));
                assert(c == r0[best as int]);
                assert(out@.to_multiset() == o0.to_multiset().insert(c));
                assert(rest@.to_multiset() == r0.to_multiset().remove(c));
                assert(r0.to_multiset().count(c) > 0) by {
                    assert(r0[best as int] == c);
                    assert(r0.contains(c));
                }
                assert(out@.to_multiset().add(rest@.to_multiset()) =~= o0.to_multiset().add(r0.to_multiset()));
                assert forall|i: int, j: int| 0 <= i < j < out@.len() implies key_le(child_key(m, #[trigger] out@[i]), child_key(m, #[trigger] out@[j])) by {
                    if j == o0.len() {
                        assert(out@[j] == r0[best as int]);
                        assert(out@[i] == o0[i]);
                    } else {
                        assert(out@[i] == o0[i] && out@[j] == o0[j]);
                    }
                }
                assert forall|i: int, j: int| 0 <= i < out@.len() && 0 <= j < rest@.len() implies key_le(child_key(m, #[trigger] out@[i]), child_key(m, #[trigger] rest@[j])) by {
                    let oj = if j < best { j } else { j + 1 };
                    assert(rest@[j] == r0[oj]);
                    if i == o0.len() {
                        assert(out@[i] == r0[best as int]);
                    } else {
                        assert(out@[i] == o0[i]);
                    }
                }
            }
        }
        assert(rest@.to_multiset() =~= vstd::multiset::Multiset::<SeamId>::empty());
        assert(out@.to_multiset() =~= start.to_multiset());
        let mut node = self.take(parent).unwrap();
        node.children = out;
        self.put(node);
        proof {
            let fin = node_map(self.nodes@);
            assert(fin.dom() =~= m.dom());
        }
    }

    /// Point everything that names a node by id at wherever it moved to: child lists,
    /// roots, file owners, unresolved-module records and both ends of every edge.
    fn remap_references(&mut self, remap: &crate::id::Remap)
        requires
            old(self).wf(),
        ensures
            final(self).wf(),
            final(self)@.nodes.dom() == old(self)@.nodes.dom(),
            forall|k: SeamId| #![trigger final(self)@.nodes[k]] final(self)@.nodes.contains_key(k) ==> same_but_children(final(self)@.nodes[k], old(self)@.nodes[k])
                && final(self)@.nodes[k].children@ == moved_all(old(self)@.nodes[k].children@, remap@),
            final(self)@.roots == moved_all(old(self)@.roots, remap@),
            final(self)@.attribution.dom() == old(self)@.attribution.dom(),
            forall|f: FileId| #[trigger] final(self)@.attribution.contains_key(f) ==> final(self)@.attribution[f] == (
                crate::id::moved(remap@, old(self)@.attribution[f].0),
                old(self)@.attribution[f].1,
            ),
            final(self)@.unresolved == old(self)@.unresolved.map_values(
                |e: (SeamId, Seq<Seq<char>>)| (crate::id::moved(remap@, e.0), e.1),
            ),
            final(self)@.edges.len() == old(self)@.edges.len(),
            forall|i: int| 0 <= i < old(self)@.edges.len() ==> #[trigger] final(self)@.edges[i] == crate::edge::remapped_edge(old(self)@.edges[i], remap@),
            final(self)@.paths == old(self)@.paths,
            final(self)@.files == old(self)@.files,
            final(self)@.truncated == old(self)@.truncated,
    {
        // Child lists, in place.
        let ghost m1 = node_map(self.nodes@);
        proof {
            assert forall|x: int| 0 <= x < self.nodes@.len() implies m1.contains_key(#[trigger] self.nodes@[x].id) by {
                lemma_at(self.nodes@, x);
            }
        }
        let mut j: usize = 0;
        while j < self.nodes.len()
            invariant
                j <= self.nodes@.len(),
                ids_unique(self.nodes@),
                paths_distinct(self.interner@),
                node_map(self.nodes@).dom() == m1.dom(),
                forall|x: int| 0 <= x < self.nodes@.len() ==> m1.contains_key(#[trigger] self.nodes@[x].id),
                forall|x: int| 0 <= x < self.nodes@.len() ==> same_but_children(#[trigger] self.nodes@[x], m1[self.nodes@[x].id]),
                forall|x: int| 0 <= x < self.nodes@.len() ==> (#[trigger] self.nodes@[x]).children@ == if x < j {
                    moved_all(m1[self.nodes@[x].id].children@, remap@)
                } else {
                    m1[self.nodes@[x].id].children@
                },
                self.interner == old(self).interner,
                self.roots == old(self).roots,
                self.files == old(self).files,
                self.attribution == old(self).attribution,
                self.edges == old(self).edges,
                self.unresolved == old(self).unresolved,
                self.truncated == old(self).truncated,
                m1 == node_map(old(self).nodes@),
            decreases self.nodes.len() - j,
        {
            let ghost s0 = self.nodes@;
            let kept = map_ids(self.nodes[j].children.as_slice(), remap);
            let mut n = self.nodes.remove(j);
            n.children = kept;
            self.nodes.insert(j, n);
            proof {
                assert(self.nodes@ =~= s0.update(j as int, n));
                lemma_update(s0, j as int, n);
                assert(node_map(self.nodes@).dom() =~= m1.dom());
                assert forall|x: int| 0 <= x < self.nodes@.len() implies (#[trigger] self.nodes@[x]).children@ == if x < j + 1 {
                    moved_all(m1[self.nodes@[x].id].children@, remap@)
                } else {
                    m1[self.nodes@[x].id].children@
                } by {
                    if x != j {
                        assert(self.nodes@[x] == s0[x]);
                    }
                }
            }
            j = j + 1;
        }
        proof {
            let fin = node_map(self.nodes@);
            assert forall|k: SeamId| #![trigger fin[k]] fin.contains_key(k) implies same_but_children(fin[k], m1[k])
                && fin[k].children@ == moved_all(m1[k].children@, remap@) by {
                let x = choose|x: int| 0 <= x < self.nodes@.len() && self.nodes@[x].id == k;
                lemma_at(self.nodes@, x);
            }
        }
        // Roots.
        let roots = map_ids(self.roots.as_slice(), remap);
        self.roots = roots;
        // File owners.
        let mut attribution: Vec<(FileId, SeamId, karet_treesitter::LanguageId)> = Vec::new();
        let mut a: usize = 0;
        while a < self.attribution.len()
            invariant
                a <= self.attribution@.len(),
                attribution@ == moved_attribution(self.attribution@.take(a as int), remap@),
            decreases self.attribution.len() - a,
        {
            let e = self.attribution[a];
            attribution.push((e.0, remap.apply(e.1), e.2));
            assert(moved_attribution(self.attribution@.take(a + 1), remap@) =~= moved_attribution(self.attribution@.take(a as int), remap@).push((e.0, crate::id::moved(remap@, e.1), e.2)));
            a = a + 1;
        }
        assert(self.attribution@.take(self.attribution@.len() as int) =~= self.attribution@);
        let ghost before_attr = self.attribution@;
        self.attribution = attribution;
        proof {
            assert forall|f: FileId| #[trigger] first_attribution(self.attribution@, f) == match first_attribution(before_attr, f) {
                Some(x) => Some((crate::id::moved(remap@, x.0), x.1)),
                None => None,
            } by {
                lemma_first_attribution_moved(before_attr, remap@, f);
            }
            assert(self@.attribution.dom() =~= old(self)@.attribution.dom());
        }
        // Unresolved-module records.
        let ghost uf = |e: (SeamId, Seq<Seq<char>>)| (crate::id::moved(remap@, e.0), e.1);
        let ghost orig = unresolved_view(self.unresolved@);
        let total = self.unresolved.len();
        let mut fixed: Vec<(SeamId, Vec<String>)> = Vec::new();
        let mut consumed: usize = 0;
        let ghost nodes_now = self.nodes;
        let ghost roots_now = self.roots;
        let ghost attr_now = self.attribution;
        while self.unresolved.len() > 0
            invariant
                ids_unique(self.nodes@),
                paths_distinct(self.interner@),
                self.nodes == nodes_now,
                self.roots == roots_now,
                self.attribution == attr_now,
                self.interner == old(self).interner,
                self.files == old(self).files,
                self.edges == old(self).edges,
                self.truncated == old(self).truncated,
                consumed <= orig.len(),
                orig.len() == total,
                unresolved_view(self.unresolved@) == orig.subrange(consumed as int, orig.len() as int),
                unresolved_view(fixed@) == orig.subrange(0, consumed as int).map_values(uf),
                uf == (|e: (SeamId, Seq<Seq<char>>)| (crate::id::moved(remap@, e.0), e.1)),
            decreases self.unresolved.len(),
        {
            let ghost rest = self.unresolved@;
            let e = self.unresolved.remove(0);
            proof {
                assert(unresolved_view(rest).len() == rest.len());
                assert(consumed < orig.len());
                assert(orig[consumed as int] == unresolved_view(rest)[0]);
                assert forall|x: int| 0 <= x < self.unresolved@.len() implies #[trigger] unresolved_view(self.unresolved@)[x] == orig[consumed + 1 + x] by {
                    assert(self.unresolved@[x] == rest[x + 1]);
                    assert(unresolved_view(rest)[x + 1] == orig.subrange(consumed as int, orig.len() as int)[x + 1]);
                }
                assert(unresolved_view(self.unresolved@) =~= orig.subrange(consumed + 1, orig.len() as int));
            }
            let ghost f0 = fixed@;
            let id = remap.apply(e.0);
            proof {
                assert(e == rest[0]);
                assert(orig[consumed as int] == (e.0, strings_view(e.1@)));
                assert(orig.subrange(0, consumed + 1) =~= orig.subrange(0, consumed as int).push(orig[consumed as int]));
                assert(orig.subrange(0, consumed + 1).map_values(uf) =~= orig.subrange(0, consumed as int).map_values(uf).push(uf(orig[consumed as int])));
            }
            fixed.push((id, e.1));
            assert(unresolved_view(fixed@) =~= unresolved_view(f0).push((id, strings_view(e.1@))));
            assert(unresolved_view(fixed@) =~= orig.subrange(0, consumed + 1).map_values(uf));
            consumed = consumed + 1;
        }
        assert(orig.subrange(0, orig.len() as int) =~= orig);
        self.unresolved = fixed;
        // Edges.
        self.edges.remap(remap);
    }
}

/// The part of `p` below its first `n` segments, or nothing when `p` is shorter.
pub open spec fn below(p: Seq<SegmentView>, n: int) -> Seq<SegmentView> {
    if n <= p.len() {
        p.skip(n)
    } else {
        Seq::empty()
    }
}

/// The name a relocated node takes: the renamed segment when one is given, else its
/// own last segment's name.
pub open spec fn chosen_name(v: IndexView, id: SeamId, rename: Option<(String, String)>) -> Seq<char> {
    match rename {
        Some(pair) => pair.1@,
        None => v.paths[id.0 as int].last().0,
    }
}

/// The ordinal a new sibling takes beside `taken`, as [`is_free_ordinal`] fixes it.
pub open spec fn free_ordinal(taken: Seq<u32>) -> u32 {
    choose|n: u32| is_free_ordinal(taken, n)
}

/// At most one ordinal is free beside `taken`.
pub proof fn lemma_free_ordinal_unique(taken: Seq<u32>, a: u32, b: u32)
    requires
        is_free_ordinal(taken, a),
        is_free_ordinal(taken, b),
    ensures
        a == b,
{
    if taken.len() > 0 && a != b {
        if a < b {
            assert(taken.contains(a));
        } else {
            assert(taken.contains(b));
        }
    }
}

/// The path `id` would take under `parent`: `parent`'s path and a segment of the
/// chosen name with the ordinal free among `parent`'s children of that name.
pub open spec fn move_target(v: IndexView, id: SeamId, parent: SeamId, rename: Option<(String, String)>) -> Seq<SegmentView> {
    let name = chosen_name(v, id, rename);
    v.paths[parent.0 as int].push((name, free_ordinal(taken_ordinals(v, parent, name))))
}

/// Whether a move of `id` under `parent` would not leave a tree, or would go nowhere:
/// onto itself, from or onto a node the index does not hold, into its own subtree,
/// with no name to move under, to the path it already has, or onto a path a node
/// outside its subtree already holds.
pub open spec fn move_refused(v: IndexView, id: SeamId, parent: SeamId, rename: Option<(String, String)>) -> bool {
    let sub = preorder(v.nodes, id, v.nodes.dom().len());
    ||| id == parent
    ||| !v.nodes.contains_key(parent)
    ||| !v.nodes.contains_key(id)
    ||| sub.contains(parent)
    ||| id.0 >= v.paths.len()
    ||| parent.0 >= v.paths.len()
    ||| (rename is None && v.paths[id.0 as int].len() == 0)
    ||| move_target(v, id, parent, rename) == v.paths[id.0 as int]
    ||| exists|k: int|
        0 <= k < v.paths.len() && #[trigger] v.paths[k] == move_target(v, id, parent, rename)
            && v.nodes.contains_key(SeamId(id_for(k))) && !sub.contains(SeamId(id_for(k)))
}

/// Whether the paths `fin` holds for the ids `remap` assigns are those of a move of
/// `id`'s subtree under `parent`: the new root is `parent`'s path plus a free segment
/// of the chosen name, and every other node keeps its segments below the old root.
pub open spec fn moved_paths(
    before: IndexView,
    fin: IndexView,
    remap: Map<SeamId, SeamId>,
    id: SeamId,
    parent: SeamId,
    rename: Option<(String, String)>,
) -> bool {
    exists|seg: SegmentView|
        #![trigger before.paths[parent.0 as int].push(seg)]
        seg.0 == chosen_name(before, id, rename) && is_free_ordinal(taken_ordinals(before, parent, seg.0), seg.1)
            && forall|o: SeamId| #[trigger] remap.contains_key(o) ==> o.0 < before.paths.len() && exists|k: int|
                0 <= k < fin.paths.len() && fin.paths[k] == before.paths[parent.0 as int].push(seg) + below(
                    before.paths[o.0 as int],
                    before.paths[id.0 as int].len() as int,
                ) && remap[o].0 == id_for(k)
}

/// Copies of `segs`.
fn copy_segments(segs: &[crate::id::SeamSegment], from: usize) -> (r: Vec<crate::id::SeamSegment>)
    ensures
        r@.map_values(|g: crate::id::SeamSegment| g@) == if from <= segs@.len() {
            segs@.map_values(|g: crate::id::SeamSegment| g@).skip(from as int)
        } else {
            Seq::<SegmentView>::empty()
        },
{
    let mut out: Vec<crate::id::SeamSegment> = Vec::new();
    if from > segs.len() {
        assert(out@.map_values(|g: crate::id::SeamSegment| g@) =~= Seq::<SegmentView>::empty());
        return out;
    }
    let ghost all = segs@.map_values(|g: crate::id::SeamSegment| g@);
    let mut i: usize = from;
    while i < segs.len()
        invariant
            from <= i <= segs@.len(),
            all == segs@.map_values(|g: crate::id::SeamSegment| g@),
            out@.map_values(|g: crate::id::SeamSegment| g@) == all.subrange(from as int, i as int),
        decreases segs.len() - i,
    {
        let ghost o0 = out@;
        out.push(segs[i].duplicate());
        assert(out@.map_values(|g: crate::id::SeamSegment| g@) =~= o0.map_values(|g: crate::id::SeamSegment| g@).push(all[i as int]));
        assert(all.subrange(from as int, i + 1) =~= all.subrange(from as int, i as int).push(all[i as int]));
        i = i + 1;
    }
    assert(all.subrange(from as int, all.len() as int) =~= all.skip(from as int));
    out
}

impl SeamIndex {
    /// Move `id` and everything under it to sit beneath `parent`, optionally renaming it
    /// (a display name and a path segment).
    ///
    /// Identity is position, so moving a node changes its path and therefore its id,
    /// and every descendant's with it. The remap that produced is returned, and every
    /// reference held in the index — child lists, roots, file owners, unresolved
    /// records, edges — is moved through it.
    ///
    /// Refuses, returning an empty remap and leaving the index as it was, a move that
    /// would not leave a tree: onto itself, into its own subtree, onto a parent the
    /// index does not hold, to the path it already has, or onto a path a node outside
    /// the subtree already occupies.
    pub fn relocate(&mut self, id: SeamId, parent: SeamId, rename: Option<(String, String)>) -> (r: crate::id::Remap)
        requires
            old(self).wf(),
        ensures
            final(self).wf(),
            (r@ == Map::<SeamId, SeamId>::empty()) == move_refused(old(self)@, id, parent, rename),
            r@ == Map::<SeamId, SeamId>::empty() ==> final(self)@ == old(self)@,
            r@ != Map::<SeamId, SeamId>::empty() ==> {
                &&& r@.contains_key(id)
                &&& forall|o: SeamId| #[trigger] r@.contains_key(o) ==> preorder(old(self)@.nodes, id, old(self)@.nodes.dom().len()).contains(o)
                &&& moved_paths(old(self)@, final(self)@, r@, id, parent, rename)
                &&& final(self)@.roots == moved_all(without(old(self)@.roots, seq![id]), r@)
                &&& final(self)@.edges.len() == old(self)@.edges.len()
                &&& forall|i: int| 0 <= i < old(self)@.edges.len() ==> #[trigger] final(self)@.edges[i] == crate::edge::remapped_edge(old(self)@.edges[i], r@)
                &&& final(self)@.files == old(self)@.files
                &&& final(self)@.truncated == old(self)@.truncated
            },
    {
        let empty = crate::id::Remap::new();
        if id == parent || self.find(parent).is_none() || self.find(id).is_none() {
            return empty;
        }
        proof { self.lemma_len(); }
        let sub = self.subtree(id);
        let ghost m0 = self@.nodes;
        let ghost v0 = self@;
        proof {
            assert(m0.contains_key(id));
            if m0.dom().len() == 0 {
                m0.dom().lemma_len0_is_empty();
                assert(m0.dom().contains(id));
            }
            assert(sub@[0] == id);
        }
        if sub.len() == 0 || ids_contain(sub.as_slice(), parent) {
            return empty;
        }
        let old_root = match self.path(id) {
            Some(p) => p.duplicate(),
            None => return empty,
        };
        let parent_path = match self.path(parent) {
            Some(p) => p.duplicate(),
            None => return empty,
        };
        let root_len = old_root.len();
        let name: String = match &rename {
            Some(pair) => pair.1.clone(),
            None => {
                if root_len == 0 {
                    return empty;
                }
                let segs = old_root.segments();
                proof {
                    assert(segs@.map_values(|g: crate::id::SeamSegment| g@)[root_len - 1] == segs@[root_len - 1]@);
                    assert(old_root@.last() == old_root@[root_len - 1]);
                }
                segs[root_len - 1].name.clone()
            },
        };
        let seg = self.free_child_segment(parent, name);
        let ghost segv = seg@;
        proof {
            if rename is None {
                assert(old_root@.last() == old_root@[root_len - 1]);
            }
            assert(name@ == chosen_name(v0, id, rename));
            let t = taken_ordinals(v0, parent, name@);
            assert(is_free_ordinal(t, free_ordinal(t)));
            lemma_free_ordinal_unique(t, segv.1, free_ordinal(t));
        }
        let new_root = parent_path.child(seg);
        proof {
            assert(new_root@ == move_target(v0, id, parent, rename));
        }
        if new_root.same_as(&old_root) {
            return empty;
        }
        match self.resolve(&new_root) {
            Some(held) => {
                if self.find(held).is_some() && !ids_contain(sub.as_slice(), held) {
                    proof {
                        let k = choose|k: int| 0 <= k < v0.paths.len() && v0.paths[k] == new_root@ && held.0 == id_for(k);
                        assert(SeamId(id_for(k)) == held);
                    }
                    return empty;
                }
                proof {
                    self.lemma_paths_distinct();
                    let k0 = choose|k: int| 0 <= k < v0.paths.len() && v0.paths[k] == new_root@ && held.0 == id_for(k);
                    assert forall|k: int| 0 <= k < v0.paths.len() && #[trigger] v0.paths[k] == move_target(v0, id, parent, rename)
                        implies !(v0.nodes.contains_key(SeamId(id_for(k))) && !sub@.contains(SeamId(id_for(k)))) by {
                        assert(k == k0);
                        assert(SeamId(id_for(k)) == held);
                    }
                }
            },
            None => {
                proof {
                    assert forall|k: int| 0 <= k < v0.paths.len() && #[trigger] v0.paths[k] == move_target(v0, id, parent, rename)
                        implies false by {
                        assert(v0.paths.contains(new_root@));
                    }
                }
            },
        }
        proof {
            assert(!move_refused(v0, id, parent, rename));
        }
        // The new id of every node in the subtree: its segments below the old root,
        // under the new root. A node whose id had no path when the move began keeps
        // its id.
        let start_len = self.interner.len();
        let mut remap = crate::id::Remap::new();
        let mut i: usize = 0;
        while i < sub.len()
            invariant
                i <= sub@.len(),
                self.wf(),
                start_len == v0.paths.len(),
                v0.paths.len() <= self@.paths.len(),
                forall|k: int| 0 <= k < v0.paths.len() ==> #[trigger] self@.paths[k] == v0.paths[k],
                self@.nodes == v0.nodes,
                self@.roots == v0.roots,
                self@.files == v0.files,
                self@.attribution == v0.attribution,
                self@.edges == v0.edges,
                self@.unresolved == v0.unresolved,
                self@.truncated == v0.truncated,
                sub@ == preorder(v0.nodes, id, v0.nodes.dom().len()),
                new_root@ == v0.paths[parent.0 as int].push(segv),
                root_len == v0.paths[id.0 as int].len(),
                sub@[0] == id,
                id.0 < v0.paths.len(),
                i > 0 ==> remap@.contains_key(id),
                forall|o: SeamId| #[trigger] remap@.contains_key(o) ==> sub@.contains(o) && o.0 < v0.paths.len() && exists|k: int|
                    0 <= k < self@.paths.len() && self@.paths[k] == new_root@ + below(v0.paths[o.0 as int], root_len as int) && remap@[o].0 == id_for(k),
            decreases sub.len() - i,
        {
            let old = sub[i];
            if (old.0 as usize) < start_len {
                let p = self.path(old).unwrap();
                let mut segments = copy_segments(new_root.segments(), 0);
                let mut rest = copy_segments(p.segments(), root_len);
                let ghost a0 = segments@;
                let ghost b0 = rest@;
                segments.append(&mut rest);
                proof {
                    assert(p@ == v0.paths[old.0 as int]);
                    assert(new_root@.skip(0) =~= new_root@);
                    assert(segments@ == a0 + b0);
                    assert((a0 + b0).map_values(|g: crate::id::SeamSegment| g@) =~= a0.map_values(|g: crate::id::SeamSegment| g@) + b0.map_values(|g: crate::id::SeamSegment| g@));
                }
                let ghost paths_before = self@.paths;
                let nid = self.intern(SeamPath::new(segments));
                proof {
                    assert forall|k: int| 0 <= k < v0.paths.len() implies #[trigger] self@.paths[k] == v0.paths[k] by {
                        assert(paths_before[k] == v0.paths[k]);
                        if !paths_before.contains(new_root@ + below(v0.paths[old.0 as int], root_len as int)) {
                            assert(self@.paths[k] == paths_before.push(new_root@ + below(v0.paths[old.0 as int], root_len as int))[k]);
                        }
                    }
                    assert forall|o: SeamId| #[trigger] remap@.contains_key(o) implies exists|k: int|
                        0 <= k < self@.paths.len() && self@.paths[k] == new_root@ + below(v0.paths[o.0 as int], root_len as int) && remap@[o].0 == id_for(k) by {
                        let k = choose|k: int| 0 <= k < paths_before.len() && paths_before[k] == new_root@ + below(v0.paths[o.0 as int], root_len as int) && remap@[o].0 == id_for(k);
                        if !paths_before.contains(new_root@ + below(v0.paths[old.0 as int], root_len as int)) {
                            assert(self@.paths[k] == paths_before.push(new_root@ + below(v0.paths[old.0 as int], root_len as int))[k]);
                        }
                    }
                    assert(sub@.contains(old)) by {
                        assert(sub@[i as int] == old);
                    }
                }
                remap.insert(old, nid);
            }
            i = i + 1;
        }
        let ghost v1 = self@;
        proof {
            assert(remap@.contains_key(id));
            assert(name@ == chosen_name(v0, id, rename));
            assert(forall|o: SeamId| #[trigger] remap@.contains_key(o) ==> o.0 < v0.paths.len() && exists|k: int|
                0 <= k < v1.paths.len() && v1.paths[k] == v0.paths[parent.0 as int].push(segv) + below(v0.paths[o.0 as int], v0.paths[id.0 as int].len() as int) && remap@[o].0 == id_for(k));
            assert(moved_paths(v0, v1, remap@, id, parent, rename));
        }
        // Every node of the subtree, re-keyed under its new id.
        let old_parent = match self.node(id) {
            Some(n) => n.parent,
            None => None,
        };
        let mut j: usize = 0;
        while j < sub.len()
            invariant
                j <= sub@.len(),
                self.wf(),
                self@.paths == v1.paths,
                self@.roots == v1.roots,
                self@.files == v1.files,
                self@.attribution == v1.attribution,
                self@.edges == v1.edges,
                self@.unresolved == v1.unresolved,
                self@.truncated == v1.truncated,
            decreases sub.len() - j,
        {
            let old = sub[j];
            match self.take(old) {
                Some(mut node) => {
                    node.id = remap.apply(old);
                    node.parent = if old == id {
                        Some(parent)
                    } else {
                        match node.parent {
                            Some(up) => Some(remap.apply(up)),
                            None => None,
                        }
                    };
                    node.children = map_ids(node.children.as_slice(), &remap);
                    if old == id {
                        match &rename {
                            Some(pair) => {
                                node.name = pair.0.clone();
                            },
                            None => {},
                        }
                    }
                    self.put(node);
                },
                None => {},
            }
            j = j + 1;
        }
        // Unlinked from where it was, linked where it is now.
        match old_parent {
            Some(up) => {
                match self.take(up) {
                    Some(mut previous) => {
                        let mut lone: Vec<SeamId> = Vec::new();
                        lone.push(id);
                        previous.children = ids_without(previous.children.as_slice(), lone.as_slice());
                        self.put(previous);
                    },
                    None => {},
                }
            },
            None => {},
        }
        let mut lone: Vec<SeamId> = Vec::new();
        lone.push(id);
        let roots = ids_without(self.roots.as_slice(), lone.as_slice());
        self.roots = roots;
        let moved = remap.apply(id);
        match self.take(parent) {
            Some(mut target) => {
                if !ids_contain(target.children.as_slice(), moved) {
                    target.children.push(moved);
                }
                self.put(target);
            },
            None => {},
        }
        self.sort_children(parent);
        let ghost v2 = self@;
        self.remap_references(&remap);
        proof {
            assert(lone@ =~= seq![id]);
            assert(v2.roots == without(v0.roots, seq![id]));
            assert(self@.paths == v1.paths);
            assert(remap@.dom().contains(id));
            assert(remap@ != Map::<SeamId, SeamId>::empty());
            assert forall|o: SeamId| #[trigger] remap@.contains_key(o) implies preorder(old(self)@.nodes, id, old(self)@.nodes.dom().len()).contains(o) by {}
        }
        remap
    }
}

/// A facet's occurrence count as a rollup adds it: held at `u32::MAX`.
pub open spec fn clamped(n: nat) -> int {
    if n > u32::MAX {
        u32::MAX as int
    } else {
        n as int
    }
}

/// `acc` after adding `f`'s occurrences, when `f` belongs to lens position `i`.
pub open spec fn lens_add(acc: int, f: Facet, i: int) -> int {
    if f.lens.spec_index() == i {
        crate::rollup::saturating(acc, clamped(f.spec_occurrences()))
    } else {
        acc
    }
}

/// The count for lens position `i` after adding each of `facets` to `acc`.
pub open spec fn own_fold(facets: Seq<Facet>, i: int, acc: int) -> int
    decreases facets.len(),
{
    if facets.len() == 0 {
        acc
    } else {
        own_fold(facets.drop_first(), i, lens_add(acc, facets[0], i))
    }
}

/// The count for lens position `i` after adding each held child's rollup to `acc`.
pub open spec fn kids_fold(m: Map<SeamId, Node>, kids: Seq<SeamId>, i: int, acc: int) -> int
    decreases kids.len(),
{
    if kids.len() == 0 {
        acc
    } else {
        kids_fold(
            m,
            kids.drop_first(),
            i,
            if m.contains_key(kids[0]) {
                crate::rollup::saturating(acc, m[kids[0]].rollups.count(i) as int)
            } else {
                acc
            },
        )
    }
}

/// A node's rollup for lens position `i`: its own facet occurrences (none when the
/// configuration excludes it), then each held child's rollup, every sum held at
/// `u32::MAX`.
pub open spec fn rollup_of(m: Map<SeamId, Node>, id: SeamId, i: int) -> int {
    if !m.contains_key(id) {
        0
    } else {
        kids_fold(
            m,
            m[id].children@,
            i,
            if m[id].membership == crate::model::ConfigMembership::Inactive {
                0
            } else {
                own_fold(m[id].facets@, i, 0)
            },
        )
    }
}

/// Whether `after` is `before` with nothing but its rollups changed.
pub open spec fn same_but_rollups(after: Node, before: Node) -> bool {
    &&& after.id == before.id
    &&& after.kind == before.kind
    &&& after.name == before.name
    &&& after.detail == before.detail
    &&& after.location == before.location
    &&& after.parent == before.parent
    &&& after.children == before.children
    &&& after.facets == before.facets
    &&& after.visibility == before.visibility
    &&& after.membership == before.membership
    &&& after.provisional == before.provisional
}

/// Whether `m` holds `id` with each lens count what its own facets and its children's
/// counts give.
pub open spec fn rollup_settled(m: Map<SeamId, Node>, id: SeamId) -> bool {
    &&& m.contains_key(id)
    &&& forall|i: int| 0 <= i < 5 ==> #[trigger] m[id].rollups.count(i) as int == rollup_of(m, id, i)
}

/// `id` and its children: the nodes `id`'s counts are read from.
pub open spec fn rollup_inputs(m: Map<SeamId, Node>, id: SeamId) -> Seq<SeamId> {
    seq![id] + m[id].children@
}

/// Whether `id`'s counts can be settled at all: it is held, and not its own child.
pub open spec fn settles(m: Map<SeamId, Node>, id: SeamId) -> bool {
    m.contains_key(id) && !m[id].children@.contains(id)
}

/// Whether none of `inputs` occurs in `region`.
pub open spec fn apart(region: Seq<SeamId>, inputs: Seq<SeamId>) -> bool {
    forall|x: SeamId| #[trigger] inputs.contains(x) ==> !region.contains(x)
}

/// Whether no walk from one of `ids` after position `j` and before `upto` reaches what
/// `ids[j]`'s counts are read from.
pub open spec fn apart_until(v: IndexView, ids: Seq<SeamId>, j: int, upto: int) -> bool {
    forall|t: int| j < t < upto ==> apart(preorder(v.nodes, #[trigger] ids[t], v.nodes.dom().len()), rollup_inputs(v.nodes, ids[j]))
}

/// `id`'s ancestors, nearest first, as the index records them.
pub open spec fn spine(v: IndexView, id: SeamId) -> Seq<SeamId> {
    ancestry(v.nodes, id, v.nodes.dom().len() + 1)
}

/// A settled count stays settled while neither it nor any of its inputs' counts change.
proof fn lemma_settled_frame(a: IndexView, b: IndexView, v0: IndexView, id: SeamId)
    requires
        rollups_only(a, v0),
        rollups_only(b, v0),
        rollup_settled(a.nodes, id),
        forall|x: SeamId| #[trigger] rollup_inputs(v0.nodes, id).contains(x) && a.nodes.contains_key(x) ==> b.nodes[x].rollups == a.nodes[x].rollups,
    ensures
        rollup_settled(b.nodes, id),
{
    assert(same_but_rollups(a.nodes[id], v0.nodes[id]));
    assert(same_but_rollups(b.nodes[id], v0.nodes[id]));
    assert(rollup_inputs(v0.nodes, id)[0] == id);
    let kids = v0.nodes[id].children@;
    assert forall|k: SeamId| #[trigger] kids.contains(k) implies (a.nodes.contains_key(k) <==> b.nodes.contains_key(k))
        && (a.nodes.contains_key(k) ==> a.nodes[k].rollups == b.nodes[k].rollups) by {
        let x = choose|x: int| 0 <= x < kids.len() && kids[x] == k;
        assert(rollup_inputs(v0.nodes, id)[x + 1] == k);
        assert(rollup_inputs(v0.nodes, id).contains(k));
        assert(a.nodes.dom().contains(k) == v0.nodes.dom().contains(k));
        assert(b.nodes.dom().contains(k) == v0.nodes.dom().contains(k));
    }
    assert(rollup_inputs(v0.nodes, id).contains(id));
    assert(b.nodes.contains_key(id));
    assert forall|i: int| 0 <= i < 5 implies #[trigger] b.nodes[id].rollups.count(i) as int == rollup_of(b.nodes, id, i) by {
        assert(a.nodes[id].rollups.count(i) as int == rollup_of(a.nodes, id, i));
        lemma_kids_fold_frame(a.nodes, b.nodes, kids, i, if v0.nodes[id].membership == crate::model::ConfigMembership::Inactive { 0 } else { own_fold(v0.nodes[id].facets@, i, 0) });
    }
}

/// An ancestry reads nothing but ids and parents.
proof fn lemma_ancestry_frame(a: Map<SeamId, Node>, b: Map<SeamId, Node>, id: SeamId, fuel: nat)
    requires
        a.dom() == b.dom(),
        forall|k: SeamId| #[trigger] a.contains_key(k) ==> a[k].parent == b[k].parent,
    ensures
        ancestry(a, id, fuel) == ancestry(b, id, fuel),
    decreases fuel,
{
    if fuel > 0 && a.contains_key(id) {
        match a[id].parent {
            Some(p) => lemma_ancestry_frame(a, b, p, (fuel - 1) as nat),
            None => {},
        }
    }
}

/// Two views that differ in rollups alone have the same child lists.
pub proof fn lemma_rollups_only_shape(after: IndexView, before: IndexView)
    requires
        rollups_only(after, before),
    ensures
        same_shape(after.nodes, before.nodes),
{
    assert forall|k: SeamId| #[trigger] after.nodes.contains_key(k) implies after.nodes[k].children == before.nodes[k].children by {
        assert(same_but_rollups(after.nodes[k], before.nodes[k]));
    }
}

/// Whether `after` differs from `before` in rollups alone.
pub open spec fn rollups_only(after: IndexView, before: IndexView) -> bool {
    &&& after.nodes.dom() == before.nodes.dom()
    &&& forall|k: SeamId| #![trigger after.nodes[k]] after.nodes.contains_key(k) ==> same_but_rollups(after.nodes[k], before.nodes[k])
    &&& after.paths == before.paths
    &&& after.roots == before.roots
    &&& after.files == before.files
    &&& after.attribution == before.attribution
    &&& after.edges == before.edges
    &&& after.unresolved == before.unresolved
    &&& after.truncated == before.truncated
}

impl SeamIndex {
    /// One node's own facet counts merged with its children's current rollups.
    ///
    /// A node the configuration excludes contributes nothing of its own. An
    /// indeterminate one does contribute: excluding it would assert an absence the
    /// index has not established.
    fn own_and_children_rollups(&self, id: SeamId) -> (r: crate::rollup::Rollups)
        requires
            self.wf(),
        ensures
            forall|i: int| 0 <= i < 5 ==> #[trigger] r.count(i) as int == rollup_of(self@.nodes, id, i),
    {
        let mut rollups = crate::rollup::Rollups::new();
        let k = match self.find(id) {
            Some(k) => k,
            None => return rollups,
        };
        proof { lemma_at(self.nodes@, k as int); }
        let node = &self.nodes[k];
        let ghost m = self@.nodes;
        let ghost own_base: int = 0;
        if node.membership != crate::model::ConfigMembership::Inactive {
            let mut j: usize = 0;
            assert(node.facets@.skip(0) =~= node.facets@);
            while j < node.facets.len()
                invariant
                    j <= node.facets@.len(),
                    forall|i: int| 0 <= i < 5 ==> #[trigger] own_fold(node.facets@, i, 0) == own_fold(node.facets@.skip(j as int), i, rollups.count(i) as int),
                decreases node.facets.len() - j,
            {
                let facet = &node.facets[j];
                let n = facet.occurrences();
                let count: u32 = if n > 4294967295 { 4294967295 } else { n as u32 };
                let ghost before = rollups;
                rollups.add(facet.lens, count);
                proof {
                    let rest = node.facets@.skip(j as int);
                    assert(rest[0] == node.facets@[j as int]);
                    assert(rest.drop_first() =~= node.facets@.skip(j + 1));
                    assert forall|i: int| 0 <= i < 5 implies #[trigger] own_fold(node.facets@, i, 0) == own_fold(node.facets@.skip(j + 1), i, rollups.count(i) as int) by {
                        assert(rollups.count(i) as int == lens_add(before.count(i) as int, node.facets@[j as int], i));
                    }
                }
                j = j + 1;
            }
            assert(forall|i: int| 0 <= i < 5 ==> #[trigger] own_fold(node.facets@, i, 0) == rollups.count(i) as int);
        }
        let kids = &node.children;
        let mut c: usize = 0;
        assert(kids@.skip(0) =~= kids@);
        while c < kids.len()
            invariant
                self.wf(),
                m == self@.nodes,
                m.contains_key(id),
                kids@ == m[id].children@,
                c <= kids@.len(),
                forall|i: int| 0 <= i < 5 ==> #[trigger] rollup_of(m, id, i) == kids_fold(m, kids@.skip(c as int), i, rollups.count(i) as int),
            decreases kids.len() - c,
        {
            let ghost before = rollups;
            let ghost rest = kids@.skip(c as int);
            assert(rest[0] == kids@[c as int]);
            assert(rest.drop_first() =~= kids@.skip(c + 1));
            match self.node(kids[c]) {
                Some(child) => {
                    rollups.merge(child.rollups);
                },
                None => {},
            }
            c = c + 1;
        }
        rollups
    }

    /// Recompute rollups over `id`'s subtree, children first, descending at most
    /// `fuel` levels.
    fn recompute_subtree(&mut self, id: SeamId, fuel: usize)
        requires
            old(self).wf(),
        ensures
            final(self).wf(),
            rollups_only(final(self)@, old(self)@),
            fuel > 0 && old(self)@.nodes.contains_key(id) && !old(self)@.nodes[id].children@.contains(id) ==> forall|i: int|
                0 <= i < 5 ==> #[trigger] final(self)@.nodes[id].rollups.count(i) as int == rollup_of(final(self)@.nodes, id, i),
            forall|k: SeamId| #![trigger final(self)@.nodes[k]] final(self)@.nodes.contains_key(k) && !preorder(old(self)@.nodes, id, fuel as nat).contains(k)
                ==> final(self)@.nodes[k].rollups == old(self)@.nodes[k].rollups,
        decreases fuel,
    {
        if fuel == 0 {
            return;
        }
        let ghost v0 = self@;
        let kids = self.children(id);
        let ghost fuel1 = (fuel - 1) as nat;
        let mut c: usize = 0;
        proof {
            assert(kids@.take(0) =~= Seq::<SeamId>::empty());
        }
        while c < kids.len()
            invariant
                self.wf(),
                fuel > 0,
                fuel1 == (fuel - 1) as nat,
                c <= kids@.len(),
                kids@ == (if v0.nodes.contains_key(id) { v0.nodes[id].children@ } else { Seq::<SeamId>::empty() }),
                v0 == old(self)@,
                rollups_only(self@, old(self)@),
                forall|k: SeamId| #![trigger self@.nodes[k]] self@.nodes.contains_key(k) && !preorder_all(v0.nodes, kids@.take(c as int), fuel1).contains(k)
                    ==> self@.nodes[k].rollups == v0.nodes[k].rollups,
            decreases kids.len() - c,
        {
            let ghost cur = self@;
            self.recompute_subtree(kids[c], fuel - 1);
            proof {
                lemma_rollups_only_shape(cur, v0);
                lemma_preorder_shape(cur.nodes, v0.nodes, kids@[c as int], fuel1);
                lemma_preorder_all_take(v0.nodes, kids@, c as int, fuel1);
                assert forall|k: SeamId| #![trigger self@.nodes[k]] self@.nodes.contains_key(k) && !preorder_all(v0.nodes, kids@.take(c + 1), fuel1).contains(k)
                    implies self@.nodes[k].rollups == v0.nodes[k].rollups by {
                    let whole = preorder_all(v0.nodes, kids@.take(c as int), fuel1) + preorder(v0.nodes, kids@[c as int], fuel1);
                    if preorder_all(v0.nodes, kids@.take(c as int), fuel1).contains(k) {
                        let x = choose|x: int| 0 <= x < preorder_all(v0.nodes, kids@.take(c as int), fuel1).len() && preorder_all(v0.nodes, kids@.take(c as int), fuel1)[x] == k;
                        assert(whole[x] == k);
                    }
                    if preorder(v0.nodes, kids@[c as int], fuel1).contains(k) {
                        let x = choose|x: int| 0 <= x < preorder(v0.nodes, kids@[c as int], fuel1).len() && preorder(v0.nodes, kids@[c as int], fuel1)[x] == k;
                        assert(whole[preorder_all(v0.nodes, kids@.take(c as int), fuel1).len() + x] == k);
                    }
                    assert(cur.nodes.contains_key(k));
                }
            }
            c = c + 1;
        }
        proof {
            assert(kids@.take(kids@.len() as int) =~= kids@);
            assert forall|k: SeamId| #![trigger self@.nodes[k]] self@.nodes.contains_key(k) && k != id && !preorder(v0.nodes, id, fuel as nat).contains(k)
                implies self@.nodes[k].rollups == v0.nodes[k].rollups by {
                if v0.nodes.contains_key(id) {
                    let tail = preorder_all(v0.nodes, kids@, fuel1);
                    assert(preorder(v0.nodes, id, fuel as nat) == seq![id] + tail);
                    if tail.contains(k) {
                        let x = choose|x: int| 0 <= x < tail.len() && tail[x] == k;
                        assert((seq![id] + tail)[x + 1] == k);
                    }
                } else {
                    assert(preorder_all(v0.nodes, kids@, fuel1) =~= Seq::<SeamId>::empty());
                }
            }
            if v0.nodes.contains_key(id) {
                assert(preorder(v0.nodes, id, fuel as nat)[0] == id);
            }
        }
        let ghost mid = self@.nodes;
        let merged = self.own_and_children_rollups(id);
        match self.take(id) {
            Some(mut node) => {
                node.rollups = merged;
                self.put(node);
                proof {
                    let fin = self@.nodes;
                    assert(fin.dom() =~= mid.dom());
                    assert(fin.dom() =~= old(self)@.nodes.dom());
                    assert forall|k: SeamId| #![trigger fin[k]] fin.contains_key(k) implies same_but_rollups(fin[k], old(self)@.nodes[k]) by {
                        assert(same_but_rollups(mid[k], old(self)@.nodes[k]));
                    }
                    if !old(self)@.nodes[id].children@.contains(id) {
                        let kids_now = mid[id].children@;
                        assert(fin[id].children@ == kids_now);
                        assert forall|i: int| 0 <= i < 5 implies #[trigger] fin[id].rollups.count(i) as int == rollup_of(fin, id, i) by {
                            lemma_kids_fold_frame(mid, fin, kids_now, i, if mid[id].membership == crate::model::ConfigMembership::Inactive { 0 } else { own_fold(mid[id].facets@, i, 0) });
                        }
                    }
                }
            },
            None => {},
        }
    }

    /// Recompute every node's per-lens subtree counts, root by root.
    ///
    /// Each root whose counts can settle ends settled, unless a later root's walk
    /// reaches it or one of its children and changes what it was read from.
    pub fn recompute_rollups(&mut self)
        requires
            old(self).wf(),
        ensures
            final(self).wf(),
            rollups_only(final(self)@, old(self)@),
            forall|j: int| #![trigger old(self)@.roots[j]]
                0 <= j < old(self)@.roots.len() && settles(old(self)@.nodes, old(self)@.roots[j])
                    && apart_until(old(self)@, old(self)@.roots, j, old(self)@.roots.len() as int)
                    ==> rollup_settled(final(self)@.nodes, old(self)@.roots[j]),
    {
        proof { self.lemma_len(); }
        let ghost v0 = self@;
        let fuel = self.nodes.len();
        let roots = map_ids(self.roots.as_slice(), &crate::id::Remap::new());
        proof {
            assert(roots@ =~= v0.roots);
            assert forall|r: SeamId| v0.nodes.contains_key(r) implies fuel > 0 by {
                if v0.nodes.dom().len() == 0 {
                    v0.nodes.dom().lemma_len0_is_empty();
                    assert(v0.nodes.dom().contains(r));
                }
            }
        }
        let mut i: usize = 0;
        while i < roots.len()
            invariant
                self.wf(),
                v0 == old(self)@,
                forall|r: SeamId| v0.nodes.contains_key(r) ==> fuel > 0,
                roots@ == v0.roots,
                fuel == v0.nodes.dom().len(),
                i <= roots@.len(),
                rollups_only(self@, old(self)@),
                forall|j: int| #![trigger v0.roots[j]]
                    0 <= j < i && settles(v0.nodes, v0.roots[j]) && apart_until(v0, v0.roots, j, i as int)
                        ==> rollup_settled(self@.nodes, v0.roots[j]),
            decreases roots.len() - i,
        {
            let ghost cur = self@;
            self.recompute_subtree(roots[i], fuel);
            proof {
                lemma_rollups_only_shape(cur, v0);
                lemma_preorder_shape(cur.nodes, v0.nodes, v0.roots[i as int], fuel as nat);
                assert forall|j: int| #![trigger v0.roots[j]]
                    0 <= j < i + 1 && settles(v0.nodes, v0.roots[j]) && apart_until(v0, v0.roots, j, i + 1)
                        implies rollup_settled(self@.nodes, v0.roots[j]) by {
                    if j < i {
                        assert(apart_until(v0, v0.roots, j, i as int));
                        let region = preorder(v0.nodes, v0.roots[i as int], v0.nodes.dom().len());
                        assert(apart(region, rollup_inputs(v0.nodes, v0.roots[j])));
                        lemma_settled_frame(cur, self@, v0, v0.roots[j]);
                    } else {
                        let r = v0.roots[j];
                        assert(same_but_rollups(cur.nodes[r], v0.nodes[r]));
                    }
                }
            }
            i = i + 1;
        }
    }

    /// Recompute rollups for `id`'s subtree, then refresh every ancestor: the
    /// incremental path, where re-indexing one file changes one subtree and only the
    /// spine above it needs revisiting.
    pub fn recompute_rollups_from(&mut self, id: SeamId)
        requires
            old(self).wf(),
        ensures
            final(self).wf(),
            rollups_only(final(self)@, old(self)@),
            settles(old(self)@.nodes, id) && apart(spine(old(self)@, id), rollup_inputs(old(self)@.nodes, id))
                ==> rollup_settled(final(self)@.nodes, id),
            forall|j: int| #![trigger spine(old(self)@, id)[j]]
                0 <= j < spine(old(self)@, id).len() && settles(old(self)@.nodes, spine(old(self)@, id)[j])
                    && apart(spine(old(self)@, id).skip(j + 1), rollup_inputs(old(self)@.nodes, spine(old(self)@, id)[j]))
                    ==> rollup_settled(final(self)@.nodes, spine(old(self)@, id)[j]),
    {
        proof { self.lemma_len(); }
        let ghost v0 = self@;
        let fuel = self.nodes.len();
        proof {
            if v0.nodes.contains_key(id) && v0.nodes.dom().len() == 0 {
                v0.nodes.dom().lemma_len0_is_empty();
                assert(v0.nodes.dom().contains(id));
            }
        }
        self.recompute_subtree(id, fuel);
        let ancestors = self.ancestors(id);
        proof {
            assert forall|k: SeamId| #[trigger] self@.nodes.contains_key(k) implies self@.nodes[k].parent == v0.nodes[k].parent by {
                assert(same_but_rollups(self@.nodes[k], v0.nodes[k]));
            }
            lemma_ancestry_frame(self@.nodes, v0.nodes, id, v0.nodes.dom().len() + 1);
            assert(ancestors@ == spine(v0, id));
        }
        let ghost anc = ancestors@;
        let mut i: usize = 0;
        while i < ancestors.len()
            invariant
                self.wf(),
                v0 == old(self)@,
                anc == ancestors@,
                anc == spine(v0, id),
                i <= anc.len(),
                rollups_only(self@, old(self)@),
                settles(v0.nodes, id) && apart(anc.take(i as int), rollup_inputs(v0.nodes, id)) ==> rollup_settled(self@.nodes, id),
                forall|j: int| #![trigger anc[j]]
                    0 <= j < i && settles(v0.nodes, anc[j]) && apart(anc.subrange(j + 1, i as int), rollup_inputs(v0.nodes, anc[j]))
                        ==> rollup_settled(self@.nodes, anc[j]),
            decreases ancestors.len() - i,
        {
            let ghost cur = self@;
            let a = ancestors[i];
            let merged = self.own_and_children_rollups(a);
            let ghost mid = self@.nodes;
            match self.take(a) {
                Some(mut node) => {
                    node.rollups = merged;
                    self.put(node);
                    proof {
                        let fin = self@.nodes;
                        assert(fin.dom() =~= mid.dom());
                        assert(fin.dom() =~= old(self)@.nodes.dom());
                        assert forall|k: SeamId| #![trigger fin[k]] fin.contains_key(k) implies same_but_rollups(fin[k], old(self)@.nodes[k]) by {
                            assert(same_but_rollups(mid[k], old(self)@.nodes[k]));
                        }
                        if !v0.nodes[a].children@.contains(a) {
                            assert(same_but_rollups(mid[a], v0.nodes[a]));
                            let kids_now = mid[a].children@;
                            assert forall|t: int| 0 <= t < 5 implies #[trigger] fin[a].rollups.count(t) as int == rollup_of(fin, a, t) by {
                                lemma_kids_fold_frame(mid, fin, kids_now, t, if mid[a].membership == crate::model::ConfigMembership::Inactive { 0 } else { own_fold(mid[a].facets@, t, 0) });
                            }
                        }
                    }
                },
                None => {},
            }
            proof {
                assert forall|x: SeamId| cur.nodes.contains_key(x) && x != a implies #[trigger] self@.nodes[x].rollups == cur.nodes[x].rollups by {}
                if settles(v0.nodes, id) && apart(anc.take(i + 1), rollup_inputs(v0.nodes, id)) {
                    assert(anc.take(i + 1)[i as int] == a);
                    assert(anc.take(i + 1).contains(a));
                    assert forall|x: SeamId| #[trigger] anc.take(i as int).contains(x) implies anc.take(i + 1).contains(x) by {
                        let y = choose|y: int| 0 <= y < i && #[trigger] anc.take(i as int)[y] == x;
                        assert(anc.take(i + 1)[y] == x);
                    }
                    assert(!rollup_inputs(v0.nodes, id).contains(a));
                    lemma_settled_frame(cur, self@, v0, id);
                }
                assert forall|j: int| #![trigger anc[j]]
                    0 <= j < i + 1 && settles(v0.nodes, anc[j]) && apart(anc.subrange(j + 1, i + 1), rollup_inputs(v0.nodes, anc[j]))
                        implies rollup_settled(self@.nodes, anc[j]) by {
                    if j < i {
                        assert(anc.subrange(j + 1, i + 1)[i - j - 1] == a);
                        assert(anc.subrange(j + 1, i + 1).contains(a));
                        assert forall|x: SeamId| #[trigger] anc.subrange(j + 1, i as int).contains(x) implies anc.subrange(j + 1, i + 1).contains(x) by {
                            let y = choose|y: int| 0 <= y < i - j - 1 && #[trigger] anc.subrange(j + 1, i as int)[y] == x;
                            assert(anc.subrange(j + 1, i + 1)[y] == x);
                        }
                        assert(!rollup_inputs(v0.nodes, anc[j]).contains(a));
                        lemma_settled_frame(cur, self@, v0, anc[j]);
                    } else {
                        assert(anc[j] == a);
                        assert(same_but_rollups(cur.nodes[a], v0.nodes[a]));
                    }
                }
            }
            i = i + 1;
        }
        proof {
            assert(anc.take(anc.len() as int) =~= anc);
            assert forall|j: int| 0 <= j < anc.len() implies #[trigger] anc.subrange(j + 1, anc.len() as int) == anc.skip(j + 1) by {
                assert(anc.subrange(j + 1, anc.len() as int) =~= anc.skip(j + 1));
            }
        }
    }
}

proof fn lemma_kids_fold_frame(a: Map<SeamId, Node>, b: Map<SeamId, Node>, kids: Seq<SeamId>, i: int, acc: int)
    requires
        forall|k: SeamId| #[trigger] kids.contains(k) ==> (a.contains_key(k) <==> b.contains_key(k)) && (a.contains_key(k) ==> a[k].rollups == b[k].rollups),
    ensures
        kids_fold(a, kids, i, acc) == kids_fold(b, kids, i, acc),
    decreases kids.len(),
{
    if kids.len() > 0 {
        assert(kids.contains(kids[0]));
        assert forall|k: SeamId| #[trigger] kids.drop_first().contains(k) implies kids.contains(k) by {
            let x = choose|x: int| 0 <= x < kids.drop_first().len() && kids.drop_first()[x] == k;
            assert(kids[x + 1] == k);
        }
        lemma_kids_fold_frame(a, b, kids.drop_first(), i, if a.contains_key(kids[0]) {
            crate::rollup::saturating(acc, a[kids[0]].rollups.count(i) as int)
        } else {
            acc
        });
    }
}

/// Whether `a` is `b` carried into another index: everything but its id, its links
/// and its file handle kept.
pub open spec fn carried(a: Node, b: Node) -> bool {
    &&& a.kind == b.kind
    &&& a.name == b.name
    &&& a.detail == b.detail
    &&& a.location.range == b.location.range
    &&& a.location.span == b.location.span
    &&& a.location.selection == b.location.selection
    &&& a.location.header == b.location.header
    &&& a.facets == b.facets
    &&& a.visibility == b.visibility
    &&& a.rollups == b.rollups
    &&& a.membership == b.membership
    &&& a.provisional == b.provisional
}

/// `ids` in ascending order of id.
pub fn sort_ids(ids: Vec<SeamId>) -> (r: Vec<SeamId>)
    ensures
        r@.to_multiset() == ids@.to_multiset(),
        forall|i: int, j: int| 0 <= i < j < r@.len() ==> (#[trigger] r@[i]).0 <= (#[trigger] r@[j]).0,
{
    broadcast use vstd::seq_lib::group_to_multiset_ensures;
    let mut rest = ids;
    let ghost start = rest@;
    let mut out: Vec<SeamId> = Vec::new();
    while rest.len() > 0
        invariant
            out@.to_multiset().add(rest@.to_multiset()) == start.to_multiset(),
            forall|i: int, j: int| 0 <= i < j < out@.len() ==> (#[trigger] out@[i]).0 <= (#[trigger] out@[j]).0,
            forall|i: int, j: int| 0 <= i < out@.len() && 0 <= j < rest@.len() ==> (#[trigger] out@[i]).0 <= (#[trigger] rest@[j]).0,
        decreases rest.len(),
    {
        let mut best: usize = 0;
        let mut k: usize = 1;
        while k < rest.len()
            invariant
                1 <= k <= rest@.len(),
                best < rest@.len(),
                forall|j: int| 0 <= j < k ==> rest@[best as int].0 <= (#[trigger] rest@[j]).0,
            decreases rest.len() - k,
        {
            if rest[k].0 < rest[best].0 {
                best = k;
            }
            k = k + 1;
        }
        let ghost r0 = rest@;
        let ghost o0 = out@;
        let c = rest.remove(best);
        out.push(c);
        proof {
            o0.to_multiset_ensures();
            r0.to_multiset_ensures();
            assert(out@ == o0.push(c));
            assert(r0.to_multiset().count(c) > 0) by {
                assert(r0[best as int] == c);
                assert(r0.contains(c));
            }
            assert(out@.to_multiset().add(rest@.to_multiset()) =~= o0.to_multiset().add(r0.to_multiset()));
            assert forall|j: int| 0 <= j < rest@.len() implies #[trigger] rest@[j] == r0[if j < best { j } else { j + 1 }] by {}
            assert forall|i: int, j: int| 0 <= i < j < out@.len() implies (#[trigger] out@[i]).0 <= (#[trigger] out@[j]).0 by {
                if j == o0.len() {
                    assert(out@[i] == o0[i]);
                } else {
                    assert(out@[i] == o0[i] && out@[j] == o0[j]);
                }
            }
            assert forall|i: int, j: int| 0 <= i < out@.len() && 0 <= j < rest@.len() implies (#[trigger] out@[i]).0 <= (#[trigger] rest@[j]).0 by {
                let oj = if j < best { j } else { j + 1 };
                assert(rest@[j] == r0[oj]);
                if i < o0.len() {
                    assert(out@[i] == o0[i]);
                }
            }
        }
    }
    assert(rest@.to_multiset() =~= vstd::multiset::Multiset::<SeamId>::empty());
    out
}

impl SeamIndex {
    /// The order another index's nodes are absorbed in: each root's subtree, parents
    /// before children, then every node no root reaches, in id order. Each id once.
    fn absorb_order(&self) -> (r: Vec<SeamId>)
        requires
            self.wf(),
        ensures
            forall|o: SeamId| #[trigger] self@.nodes.contains_key(o) ==> r@.contains(o),
    {
        let mut order: Vec<SeamId> = Vec::new();
        let mut i: usize = 0;
        while i < self.roots.len()
            invariant
                self.wf(),
            decreases self.roots.len() - i,
        {
            let sub = self.subtree(self.roots[i]);
            let mut j: usize = 0;
            while j < sub.len()
                invariant
                    j <= sub@.len(),
                decreases sub.len() - j,
            {
                if !ids_contain(order.as_slice(), sub[j]) {
                    order.push(sub[j]);
                }
                j = j + 1;
            }
            i = i + 1;
        }
        let mut orphans: Vec<SeamId> = Vec::new();
        let mut k: usize = 0;
        while k < self.nodes.len()
            invariant
                self.wf(),
                k <= self.nodes@.len(),
                forall|x: int| 0 <= x < k ==> order@.contains(#[trigger] self.nodes@[x].id) || orphans@.contains(self.nodes@[x].id),
            decreases self.nodes.len() - k,
        {
            let id = self.nodes[k].id;
            let ghost o0 = orphans@;
            if !ids_contain(order.as_slice(), id) {
                orphans.push(id);
                assert(orphans@[o0.len() as int] == id);
            }
            proof {
                assert forall|x: int| 0 <= x < k + 1 implies order@.contains(#[trigger] self.nodes@[x].id) || orphans@.contains(self.nodes@[x].id) by {
                    if x < k && !order@.contains(self.nodes@[x].id) {
                        assert(o0.contains(self.nodes@[x].id));
                        let y = choose|y: int| 0 <= y < o0.len() && #[trigger] o0[y] == self.nodes@[x].id;
                        assert(orphans@[y] == o0[y]);
                    }
                }
            }
            k = k + 1;
        }
        let sorted = sort_ids(orphans);
        let ghost before = order@;
        let mut s: usize = 0;
        while s < sorted.len()
            invariant
                s <= sorted@.len(),
                order@ == before + sorted@.take(s as int),
            decreases sorted.len() - s,
        {
            order.push(sorted[s]);
            assert(before + sorted@.take(s + 1) =~= (before + sorted@.take(s as int)).push(sorted@[s as int]));
            s = s + 1;
        }
        proof {
            assert(sorted@.take(sorted@.len() as int) =~= sorted@);
            assert forall|o: SeamId| #[trigger] self@.nodes.contains_key(o) implies order@.contains(o) by {
                let x = choose|x: int| 0 <= x < self.nodes@.len() && self.nodes@[x].id == o;
                if before.contains(o) {
                    let y = choose|y: int| 0 <= y < before.len() && before[y] == o;
                    assert(order@[y] == o);
                } else {
                    assert(orphans@.contains(o));
                    orphans@.to_multiset_ensures();
                    sorted@.to_multiset_ensures();
                    assert(orphans@.to_multiset().count(o) > 0);
                    assert(sorted@.to_multiset().count(o) > 0);
                    assert(sorted@.contains(o));
                    let y = choose|y: int| 0 <= y < sorted@.len() && sorted@[y] == o;
                    assert(order@[before.len() + y] == o);
                }
            }
        }
        order
    }
}

/// The larger of two counts.
pub open spec fn larger(a: usize, b: usize) -> usize {
    if a >= b {
        a
    } else {
        b
    }
}

/// Whether node `a`, held in an index with `paths`, keeps the parent that `b` had in
/// `w`: when `a` has a parent, `b` had one too, and `a`'s parent holds that same path.
pub open spec fn parent_carried(paths: Seq<Seq<SegmentView>>, a: Node, w: IndexView, b: Node) -> bool {
    a.parent matches Some(q) ==> {
        &&& b.parent matches Some(p)
        &&& p.0 < w.paths.len()
        &&& q.0 < paths.len()
        &&& paths[q.0 as int] == w.paths[p.0 as int]
    }
}

/// Whether every node of `other` that has a path sits, in `fin`, under the id of that
/// same path, carried over intact, any parent it keeps being the node of its old
/// parent's path.
pub open spec fn absorbed(fin: IndexView, other: IndexView) -> bool {
    forall|o: SeamId|
        #[trigger] other.nodes.contains_key(o) && o.0 < other.paths.len() ==> exists|k: int|
            0 <= k < fin.paths.len() && fin.paths[k] == other.paths[o.0 as int] && fin.nodes.contains_key(SeamId(k as u32))
                && carried(fin.nodes[SeamId(k as u32)], other.nodes[o])
                && parent_carried(fin.paths, fin.nodes[SeamId(k as u32)], other, other.nodes[o])
}

/// Whether node `o` of `w` comes across when `w` is absorbed: it is held and has a path.
pub open spec fn came_across(w: IndexView, o: SeamId) -> bool {
    w.nodes.contains_key(o) && o.0 < w.paths.len()
}

/// Whether an edge of `w` comes across: it leaves a node that does, and, when it points
/// at a node, that node does too.
pub open spec fn edge_comes_across(w: IndexView, e: Edge) -> bool {
    came_across(w, e.from) && (e.to matches crate::edge::Endpoint::Resolved(t) ==> came_across(w, t))
}

/// An edge of `w` as it arrives in an index holding `paths`: each node it names by the
/// id that index gives the node's path.
pub open spec fn arrived_edge(paths: Seq<Seq<SegmentView>>, w: IndexView, e: Edge) -> Edge {
    Edge {
        kind: e.kind,
        from: id_of_path(paths, w.paths[e.from.0 as int]),
        to: match e.to {
            crate::edge::Endpoint::Resolved(t) => crate::edge::Endpoint::Resolved(id_of_path(paths, w.paths[t.0 as int])),
            other => other,
        },
        site: e.site,
    }
}

/// The edges of `es` that come across from `w`, in order, as they arrive.
pub open spec fn arrived_edges(paths: Seq<Seq<SegmentView>>, w: IndexView, es: Seq<Edge>) -> Seq<Edge>
    decreases es.len(),
{
    if es.len() == 0 {
        Seq::empty()
    } else {
        arrived_edges(paths, w, es.drop_last()) + if edge_comes_across(w, es.last()) {
            seq![arrived_edge(paths, w, es.last())]
        } else {
            Seq::empty()
        }
    }
}

/// The nodes of `w` that come across when it is absorbed.
pub open spec fn coming(w: IndexView) -> Set<SeamId> {
    Set::new(|o: SeamId| came_across(w, o))
}

/// Merging per-package indexes counts as indexing them together: when the index held
/// none of the other's paths and every node it held has a path, absorbing the other —
/// as `merge` states it, each arriving node under the id of its path and nothing else
/// added — leaves exactly as many nodes as the two held between them, counting the
/// other's nodes that have a path.
pub proof fn lemma_merge_counts(before: IndexView, after: IndexView, other: IndexView)
    requires
        before.nodes.dom().finite(),
        other.nodes.dom().finite(),
        paths_distinct(after.paths),
        paths_distinct(other.paths),
        after.paths.len() <= u32::MAX + 1,
        before.paths.is_prefix_of(after.paths),
        absorbed(after, other),
        forall|k: SeamId| #[trigger] after.nodes.contains_key(k) <==> (before.nodes.contains_key(k) || exists|o: SeamId|
            #[trigger] came_across(other, o) && k == id_of_path(after.paths, other.paths[o.0 as int])),
        forall|k: SeamId| #[trigger] before.nodes.contains_key(k) ==> k.0 < before.paths.len(),
        forall|o: SeamId| #[trigger] came_across(other, o) ==> !before.paths.contains(other.paths[o.0 as int]),
    ensures
        after.nodes.dom().len() == before.nodes.dom().len() + coming(other).len(),
{
    let c = coming(other);
    let f = |o: SeamId| id_of_path(after.paths, other.paths[o.0 as int]);
    let a = before.nodes.dom();
    assert(c.subset_of(other.nodes.dom()));
    vstd::set_lib::lemma_len_subset(c, other.nodes.dom());
    let sm = c.map(f);
    assert forall|o: SeamId| #[trigger] c.contains(o) implies exists|k: int|
        0 <= k < after.paths.len() && after.paths[k] == other.paths[o.0 as int] && f(o) == SeamId(id_for(k)) by {
        assert(other.nodes.contains_key(o) && o.0 < other.paths.len());
        let k = choose|k: int| 0 <= k < after.paths.len() && after.paths[k] == other.paths[o.0 as int]
            && after.nodes.contains_key(SeamId(k as u32)) && carried(after.nodes[SeamId(k as u32)], other.nodes[o])
            && parent_carried(after.paths, after.nodes[SeamId(k as u32)], other, other.nodes[o]);
        lemma_id_of_path(after.paths, other.paths[o.0 as int], k);
    }
    assert(vstd::relations::injective_on(f, c)) by {
        assert forall|x: SeamId, y: SeamId| c.contains(x) && c.contains(y) && #[trigger] f(x) == #[trigger] f(y) implies x == y by {
            let kx = choose|k: int| 0 <= k < after.paths.len() && after.paths[k] == other.paths[x.0 as int] && f(x) == SeamId(id_for(k));
            let ky = choose|k: int| 0 <= k < after.paths.len() && after.paths[k] == other.paths[y.0 as int] && f(y) == SeamId(id_for(k));
            assert(kx == ky);
            if x.0 != y.0 {
                assert(other.paths[x.0 as int] != other.paths[y.0 as int]);
            }
        }
    }
    vstd::set_lib::lemma_map_size(c, sm, f);
    assert(after.nodes.dom() =~= a + sm) by {
        assert forall|k: SeamId| after.nodes.dom().contains(k) implies (a + sm).contains(k) by {
            if !a.contains(k) {
                let o = choose|o: SeamId| #[trigger] came_across(other, o) && k == id_of_path(after.paths, other.paths[o.0 as int]);
                assert(c.contains(o));
            }
        }
        assert forall|k: SeamId| (a + sm).contains(k) implies after.nodes.dom().contains(k) by {
            if sm.contains(k) {
                let o = choose|o: SeamId| c.contains(o) && f(o) == k;
                assert(came_across(other, o));
            }
        }
    }
    assert(a.disjoint(sm)) by {
        assert forall|k: SeamId| !(a.contains(k) && sm.contains(k)) by {
            if a.contains(k) && sm.contains(k) {
                let o = choose|o: SeamId| c.contains(o) && f(o) == k;
                let kk = choose|j: int| 0 <= j < after.paths.len() && after.paths[j] == other.paths[o.0 as int] && f(o) == SeamId(id_for(j));
                assert(k.0 as int == kk);
                assert(kk < before.paths.len());
                assert(after.paths[kk] == before.paths[kk]);
                assert(before.paths.contains(other.paths[o.0 as int]));
            }
        }
    }
    vstd::set_lib::lemma_set_disjoint_lens(a, sm);
}

/// Whether node `k` of `v` survives absorbing `w`: it has a path, and `w` holds no
/// node under that path to take its place.
pub open spec fn survives(v: IndexView, w: IndexView, k: SeamId) -> bool {
    &&& v.nodes.contains_key(k)
    &&& k.0 < v.paths.len()
    &&& !w.paths.contains(v.paths[k.0 as int])
}

/// Whether `after` is `before`, children apart, with its children only added to.
pub open spec fn kept(after: Node, before: Node) -> bool {
    &&& same_but_children(after, before)
    &&& before.children@.is_prefix_of(after.children@)
}

impl SeamIndex {
    /// Absorb another index, re-assigning its ids into this one's numbering.
    ///
    /// Identity is the path, so absorbing is re-interning: a node keeps the path it had
    /// and gets whatever id this index holds for that path. Nodes go in roots-first,
    /// parents before children, so a parent is re-keyed before the child that names it;
    /// nodes no root reaches follow in id order rather than being dropped. Files,
    /// file owners, unresolved-module records and edges follow their nodes; an edge
    /// whose ends were not carried over is dropped.
    ///
    /// While ids stay below `u32::MAX`, every node of `other` arrives under its path, any
    /// parent it keeps is the node of its old parent's path, and the index then holds
    /// exactly the nodes it held and one node per arriving path.
    pub fn merge(&mut self, other: SeamIndex)
        requires
            old(self).wf(),
            other.wf(),
        ensures
            final(self).wf(),
            final(self)@.paths.len() <= u32::MAX + 1 ==> absorbed(final(self)@, other@),
            final(self)@.paths.len() <= u32::MAX + 1 ==> forall|k: SeamId| #[trigger] final(self)@.nodes.contains_key(k)
                <==> (old(self)@.nodes.contains_key(k) || exists|o: SeamId|
                    #[trigger] came_across(other@, o) && k == id_of_path(final(self)@.paths, other@.paths[o.0 as int])),
            final(self)@.paths.len() <= u32::MAX + 1 ==> forall|k: SeamId| #[trigger] survives(old(self)@, other@, k)
                ==> final(self)@.nodes.contains_key(k) && kept(final(self)@.nodes[k], old(self)@.nodes[k]),
            old(self)@.paths.is_prefix_of(final(self)@.paths),
            old(self)@.files.is_prefix_of(final(self)@.files),
            forall|f: int| 0 <= f < other@.files.len() && f <= u32::MAX ==> final(self)@.files.contains(#[trigger] other@.files[f]),
            final(self)@.truncated == match other@.truncated {
                None => old(self)@.truncated,
                Some(scanned) => Some(larger(
                    match old(self)@.truncated {
                        Some(t) => t,
                        None => 0usize,
                    },
                    scanned,
                )),
            },
            old(self)@.roots.is_prefix_of(final(self)@.roots),
            old(self)@.edges.is_prefix_of(final(self)@.edges),
            final(self)@.paths.len() <= u32::MAX + 1
                ==> final(self)@.edges == old(self)@.edges + arrived_edges(final(self)@.paths, other@, other@.edges),
            old(self)@.unresolved.is_prefix_of(final(self)@.unresolved),
    {
        let ghost v0 = self@;
        let ghost w0 = other@;
        let mut other = other;
        let order = other.absorb_order();
        // Files first, so every node's handle can be translated.
        let mut file_map: Vec<FileId> = Vec::new();
        let mut f: usize = 0;
        while f < other.files.len() && f <= 4294967295
            invariant
                self.wf(),
                other.wf(),
                other@ == w0,
                f <= other@.files.len(),
                v0.attribution == self@.attribution,
                file_map@.len() == f,
                v0.paths == self@.paths,
                v0.nodes == self@.nodes,
                v0.roots == self@.roots,
                v0.edges == self@.edges,
                v0.unresolved == self@.unresolved,
                v0.truncated == self@.truncated,
                v0.files.is_prefix_of(self@.files),
                forall|g: int| 0 <= g < f ==> self@.files.contains(#[trigger] w0.files[g]),
            decreases other.files.len() - f,
        {
            let ghost files_before = self@.files;
            let nid = self.intern_file(other.files[f].as_str());
            file_map.push(nid);
            proof {
                assert(other@.files[f as int] == other.files@[f as int]@);
                assert forall|g: int| 0 <= g < f + 1 implies self@.files.contains(#[trigger] w0.files[g]) by {
                    if g < f {
                        let x = choose|x: int| 0 <= x < files_before.len() && files_before[x] == w0.files[g];
                        if !files_before.contains(w0.files[f as int]) {
                            assert(self@.files[x] == files_before.push(w0.files[f as int])[x]);
                        }
                        assert(self@.files[x] == w0.files[g]);
                    }
                }
                if !files_before.contains(w0.files[f as int]) {
                    assert(v0.files.is_prefix_of(files_before.push(w0.files[f as int])));
                }
            }
            f = f + 1;
        }
        proof {
            assert forall|g: int| 0 <= g < w0.files.len() && g <= u32::MAX implies self@.files.contains(#[trigger] w0.files[g]) by {
                assert(g < f);
            }
        }
        let ghost v1 = self@;
        // Nodes, in absorb order.
        let mut remap = crate::id::Remap::new();
        let mut i: usize = 0;
        while i < order.len()
            invariant
                self.wf(),
                other.wf(),
                i <= order@.len(),
                forall|o: SeamId| #[trigger] w0.nodes.contains_key(o) ==> order@.contains(o),
                other@.paths == w0.paths,
                forall|o: SeamId| #[trigger] other@.nodes.contains_key(o) <==> w0.nodes.contains_key(o) && !order@.take(i as int).contains(o),
                forall|o: SeamId| #[trigger] other@.nodes.contains_key(o) ==> other@.nodes[o] == w0.nodes[o],
                v1.paths.is_prefix_of(self@.paths),
                v1.files == self@.files,
                v1.roots.is_prefix_of(self@.roots),
                v1.edges == self@.edges,
                v1.unresolved == self@.unresolved,
                v1.truncated == self@.truncated,
                v1.attribution == self@.attribution,
                other@.truncated == w0.truncated,
                other@.edges == w0.edges,
                v1.paths == v0.paths,
                v1.nodes == v0.nodes,
                forall|o: SeamId| #[trigger] remap@.contains_key(o) <==> (came_across(w0, o) && order@.take(i as int).contains(o)),
                forall|k: SeamId| #[trigger] self@.nodes.contains_key(k) <==> (v0.nodes.contains_key(k)
                    || exists|o: SeamId| #[trigger] remap@.contains_key(o) && remap@[o] == k),
                forall|o: SeamId| #[trigger] remap@.contains_key(o) ==> exists|k: int|
                    0 <= k < self@.paths.len() && self@.paths[k] == w0.paths[o.0 as int] && remap@[o] == SeamId(id_for(k)),
                self@.paths.len() <= u32::MAX + 1 ==> forall|k: SeamId| #[trigger] survives(v0, w0, k)
                    ==> self@.nodes.contains_key(k) && kept(self@.nodes[k], v0.nodes[k]),
                self@.paths.len() <= u32::MAX + 1 ==> forall|o: SeamId|
                    #[trigger] w0.nodes.contains_key(o) && o.0 < w0.paths.len() && order@.take(i as int).contains(o) ==> exists|k: int|
                        0 <= k < self@.paths.len() && self@.paths[k] == w0.paths[o.0 as int] && self@.nodes.contains_key(SeamId(k as u32))
                            && carried(self@.nodes[SeamId(k as u32)], w0.nodes[o])
                            && parent_carried(self@.paths, self@.nodes[SeamId(k as u32)], w0, w0.nodes[o]),
            decreases order.len() - i,
        {
            let old = order[i];
            let ghost before = self@;
            let ghost t0 = order@.take(i as int);
            let ghost t1 = order@.take(i + 1);
            let ghost other_before = other@;
            proof {
                assert(t1 =~= t0.push(old));
                assert forall|o: SeamId| t1.contains(o) <==> t0.contains(o) || o == old by {
                    if t1.contains(o) {
                        let x = choose|x: int| 0 <= x < t1.len() && #[trigger] t1[x] == o;
                        if x < i {
                            assert(t0[x] == o);
                        }
                    }
                    if t0.contains(o) {
                        let x = choose|x: int| 0 <= x < t0.len() && #[trigger] t0[x] == o;
                        assert(t1[x] == o);
                    }
                    if o == old {
                        assert(t1[i as int] == o);
                    }
                }
            }
            match other.take(old) {
                Some(mut node) => {
                    let ghost taken = node;
                    assert(other_before.nodes.contains_key(old));
                    assert(taken == w0.nodes[old]);
                    match other.path(old) {
                        Some(p) => {
                            let id = self.intern(p.duplicate());
                            let ghost after_intern = self@;
                            let ghost r0 = remap@;
                            remap.insert(old, id);
                            node.id = id;
                            node.parent = match node.parent {
                                Some(up) => remap.get(up),
                                None => None,
                            };
                            node.children = Vec::new();
                            let fi = node.location.file.0 as usize;
                            if fi < file_map.len() {
                                node.location.file = file_map[fi];
                            }
                            let ghost placed = node;
                            assert(carried(placed, taken));
                            self.insert(node);
                            proof {
                                assert(!t0.contains(old));
                                assert(!r0.contains_key(old));
                                assert forall|k: SeamId| #[trigger] self@.nodes.contains_key(k) <==> (v0.nodes.contains_key(k)
                                    || exists|o: SeamId| #[trigger] remap@.contains_key(o) && remap@[o] == k) by {
                                    if self@.nodes.contains_key(k) && !v0.nodes.contains_key(k) {
                                        if k == id {
                                            assert(remap@.contains_key(old) && remap@[old] == k);
                                        } else {
                                            assert(before.nodes.contains_key(k));
                                            let o = choose|o: SeamId| #[trigger] r0.contains_key(o) && r0[o] == k;
                                            assert(o != old);
                                            assert(remap@.contains_key(o) && remap@[o] == k);
                                        }
                                    }
                                    if exists|o: SeamId| #[trigger] remap@.contains_key(o) && remap@[o] == k {
                                        let o = choose|o: SeamId| #[trigger] remap@.contains_key(o) && remap@[o] == k;
                                        if o != old {
                                            assert(r0.contains_key(o) && r0[o] == k);
                                            assert(before.nodes.contains_key(k));
                                        }
                                    }
                                    if v0.nodes.contains_key(k) {
                                        assert(before.nodes.contains_key(k));
                                    }
                                }
                            }
                            proof {
                                assert forall|o: SeamId| #[trigger] remap@.contains_key(o) implies exists|k: int|
                                    0 <= k < self@.paths.len() && self@.paths[k] == w0.paths[o.0 as int] && remap@[o] == SeamId(id_for(k)) by {
                                    if o == old {
                                        let kc = choose|k: int| 0 <= k < after_intern.paths.len() && after_intern.paths[k] == w0.paths[old.0 as int] && id.0 == id_for(k);
                                        assert(self@.paths[kc] == w0.paths[o.0 as int]);
                                    } else {
                                        assert(r0.contains_key(o));
                                        let kb = choose|k: int| 0 <= k < before.paths.len() && before.paths[k] == w0.paths[o.0 as int] && r0[o] == SeamId(id_for(k));
                                        assert(before.paths.is_prefix_of(after_intern.paths));
                                        assert(after_intern.paths[kb] == before.paths[kb]);
                                        assert(self@.paths[kb] == w0.paths[o.0 as int]);
                                    }
                                }
                            }
                            proof {
                                assert(v1.roots.is_prefix_of(self@.roots));
                                if self@.paths.len() <= u32::MAX + 1 {
                                    let kc = choose|k: int| 0 <= k < after_intern.paths.len() && after_intern.paths[k] == w0.paths[old.0 as int] && id.0 == id_for(k);
                                    assert(id == SeamId(kc as u32));
                                    assert forall|k: SeamId| #[trigger] survives(v0, w0, k)
                                        implies self@.nodes.contains_key(k) && kept(self@.nodes[k], v0.nodes[k]) by {
                                        assert(before.paths.len() <= u32::MAX + 1);
                                        assert(before.nodes.contains_key(k) && kept(before.nodes[k], v0.nodes[k]));
                                        assert(v0.paths.is_prefix_of(after_intern.paths));
                                        assert(after_intern.paths[k.0 as int] == v0.paths[k.0 as int]);
                                        if k == id {
                                            assert(kc == k.0);
                                            assert(w0.paths.contains(w0.paths[old.0 as int]));
                                        }
                                        assert(after_intern.nodes == before.nodes);
                                        let now = self@.nodes[k];
                                        let was = before.nodes[k];
                                        assert(now == was || child_appended(now, was, id));
                                        if now != was {
                                            assert(was.children@.is_prefix_of(now.children@));
                                        }
                                        assert(v0.nodes[k].children@.is_prefix_of(now.children@));
                                    }
                                    assert forall|o: SeamId|
                                        #[trigger] w0.nodes.contains_key(o) && o.0 < w0.paths.len() && t1.contains(o) implies exists|k: int|
                                            0 <= k < self@.paths.len() && self@.paths[k] == w0.paths[o.0 as int] && self@.nodes.contains_key(SeamId(k as u32))
                                                && carried(self@.nodes[SeamId(k as u32)], w0.nodes[o])
                                                && parent_carried(self@.paths, self@.nodes[SeamId(k as u32)], w0, w0.nodes[o]) by {
                                        if o == old {
                                            assert(self@.nodes[id] == placed);
                                            assert(self@.paths[kc] == w0.paths[o.0 as int]);
                                            if placed.parent is Some {
                                                let up = taken.parent->0;
                                                assert(remap@.contains_key(up));
                                                let kq = choose|k: int| 0 <= k < self@.paths.len() && self@.paths[k] == w0.paths[up.0 as int] && remap@[up] == SeamId(id_for(k));
                                                assert(placed.parent == Some(SeamId(id_for(kq))));
                                            }
                                            assert(parent_carried(self@.paths, placed, w0, taken));
                                            assert(0 <= kc < self@.paths.len() && self@.paths[kc] == w0.paths[o.0 as int] && self@.nodes.contains_key(SeamId(kc as u32))
                                                && carried(self@.nodes[SeamId(kc as u32)], w0.nodes[o])
                                                && parent_carried(self@.paths, self@.nodes[SeamId(kc as u32)], w0, w0.nodes[o]));
                                        } else {
                                            assert(t0.contains(o));
                                            assert(before.paths.len() <= u32::MAX + 1);
                                            let ko = choose|k: int| 0 <= k < before.paths.len() && before.paths[k] == w0.paths[o.0 as int] && before.nodes.contains_key(SeamId(k as u32))
                                                && carried(before.nodes[SeamId(k as u32)], w0.nodes[o])
                                                && parent_carried(before.paths, before.nodes[SeamId(k as u32)], w0, w0.nodes[o]);
                                            assert(after_intern.paths[ko] == before.paths[ko]);
                                            assert(w0.paths[o.0 as int] != w0.paths[old.0 as int]);
                                            assert(ko != kc);
                                            let kid = SeamId(ko as u32);
                                            assert(kid != id);
                                            assert(after_intern.nodes == before.nodes);
                                            assert(after_intern.nodes.contains_key(kid));
                                            assert(self@.nodes.contains_key(kid));
                                            let now = self@.nodes[kid];
                                            assert(now == after_intern.nodes[kid] || child_appended(now, after_intern.nodes[kid], id));
                                            assert(carried(now, w0.nodes[o]));
                                            assert(self@.paths[ko] == w0.paths[o.0 as int]);
                                            assert(now.parent == before.nodes[kid].parent);
                                            if now.parent is Some {
                                                let q = now.parent->0;
                                                assert(before.paths.is_prefix_of(self@.paths));
                                                assert(self@.paths[q.0 as int] == before.paths[q.0 as int]);
                                            }
                                            assert(0 <= ko < self@.paths.len() && self@.paths[ko] == w0.paths[o.0 as int] && self@.nodes.contains_key(SeamId(ko as u32))
                                                && carried(self@.nodes[SeamId(ko as u32)], w0.nodes[o])
                                                && parent_carried(self@.paths, self@.nodes[SeamId(ko as u32)], w0, w0.nodes[o]));
                                        }
                                    }
                                }
                            }
                        },
                        None => {
                            proof {
                                assert forall|o: SeamId| #[trigger] w0.nodes.contains_key(o) && o.0 < w0.paths.len() && t1.contains(o) implies t0.contains(o) by {
                                    if o == old {
                                        assert(old.0 >= w0.paths.len());
                                    }
                                }
                            }
                        },
                    }
                },
                None => {
                    proof {
                        assert forall|o: SeamId| #[trigger] w0.nodes.contains_key(o) && o.0 < w0.paths.len() && t1.contains(o) implies t0.contains(o) by {
                            if o == old && !t0.contains(o) {
                                assert(other@.nodes.contains_key(o));
                            }
                        }
                    }
                },
            }
            proof {
                assert forall|o: SeamId| #[trigger] other@.nodes.contains_key(o) <==> w0.nodes.contains_key(o) && !t1.contains(o) by {
                    if o == old {
                        assert(!other@.nodes.contains_key(o));
                    } else {
                        assert(other@.nodes.contains_key(o) == other_before.nodes.contains_key(o));
                    }
                }
                assert forall|o: SeamId| #[trigger] other@.nodes.contains_key(o) implies other@.nodes[o] == w0.nodes[o] by {
                    assert(other@.nodes[o] == other_before.nodes[o]);
                }
            }
            i = i + 1;
            assert(order@.take(i as int) == t1);
        }
        proof {
            assert(order@.take(order@.len() as int) =~= order@);
        }
        let ghost v2 = self@;
        let ghost rm = remap@;
        proof {
            self.lemma_paths_distinct();
            assert forall|o: SeamId| #[trigger] rm.contains_key(o) <==> came_across(w0, o) by {
                if came_across(w0, o) {
                    assert(order@.contains(o));
                }
            }
            assert forall|o: SeamId| v2.paths.len() <= u32::MAX + 1 && #[trigger] rm.contains_key(o)
                implies rm[o] == id_of_path(v2.paths, w0.paths[o.0 as int]) by {
                let k = choose|k: int| 0 <= k < v2.paths.len() && v2.paths[k] == w0.paths[o.0 as int] && rm[o] == SeamId(id_for(k));
                lemma_id_of_path(v2.paths, w0.paths[o.0 as int], k);
            }
            assert(v2.edges == v0.edges);
            assert forall|k: SeamId| v2.paths.len() <= u32::MAX + 1 implies (#[trigger] v2.nodes.contains_key(k) <==> (v0.nodes.contains_key(k)
                || exists|o: SeamId| #[trigger] came_across(w0, o) && k == id_of_path(v2.paths, w0.paths[o.0 as int]))) by {
                if v2.nodes.contains_key(k) && !v0.nodes.contains_key(k) {
                    let o = choose|o: SeamId| #[trigger] rm.contains_key(o) && rm[o] == k;
                    assert(came_across(w0, o));
                }
                if exists|o: SeamId| #[trigger] came_across(w0, o) && k == id_of_path(v2.paths, w0.paths[o.0 as int]) {
                    let o = choose|o: SeamId| #[trigger] came_across(w0, o) && k == id_of_path(v2.paths, w0.paths[o.0 as int]);
                    assert(rm.contains_key(o));
                }
            }
        }
        // File owners: the record each file shows, where both ends came across.
        let mut a: usize = 0;
        while a < other.attribution.len()
            invariant
                self.wf(),
                self@.paths == v2.paths,
                self@.nodes == v2.nodes,
                self@.files == v2.files,
                self@.roots == v2.roots,
                self@.edges == v2.edges,
                self@.unresolved == v2.unresolved,
                self@.truncated == v2.truncated,
                other@.truncated == w0.truncated,
                other@.edges == w0.edges,
            decreases other.attribution.len() - a,
        {
            let entry = other.attribution[a];
            let mut first = true;
            let mut b: usize = 0;
            while b < a
                invariant
                    b <= a,
                    a < other.attribution@.len(),
                decreases a - b,
            {
                if other.attribution[b].0 == entry.0 {
                    first = false;
                }
                b = b + 1;
            }
            let fi = entry.0.0 as usize;
            if first && fi < file_map.len() {
                match remap.get(entry.1) {
                    Some(owner) => {
                        self.attribute_file(file_map[fi], owner, entry.2);
                    },
                    None => {},
                }
            }
            a = a + 1;
        }
        // Unresolved-module records, for the nodes that came across.
        while other.unresolved.len() > 0
            invariant
                self.wf(),
                self@.paths == v2.paths,
                self@.files == v2.files,
                self@.roots == v2.roots,
                self@.edges == v2.edges,
                self@.truncated == v2.truncated,
                self@.nodes == v2.nodes,
                other@.truncated == w0.truncated,
                other@.edges == w0.edges,
                v2.unresolved.is_prefix_of(self@.unresolved),
            decreases other.unresolved.len(),
        {
            let (id, candidates) = other.unresolved.remove(0);
            match remap.get(id) {
                Some(moved) => {
                    self.mark_module_unresolved(moved, candidates);
                },
                None => {},
            }
        }
        // Edges whose ends came across.
        let mut e: usize = 0;
        while e < other.edges.len()
            invariant
                self.wf(),
                self@.paths == v2.paths,
                self@.files == v2.files,
                self@.roots == v2.roots,
                self@.truncated == v2.truncated,
                self@.nodes == v2.nodes,
                other@.truncated == w0.truncated,
                other@.edges == w0.edges,
                v2.unresolved.is_prefix_of(self@.unresolved),
                v2.edges.is_prefix_of(self@.edges),
                e <= other.edges@.len(),
                other.edges@ == w0.edges,
                remap@ == rm,
                forall|o: SeamId| #[trigger] rm.contains_key(o) <==> came_across(w0, o),
                forall|o: SeamId| v2.paths.len() <= u32::MAX + 1 && #[trigger] rm.contains_key(o)
                    ==> rm[o] == id_of_path(v2.paths, w0.paths[o.0 as int]),
                v2.paths.len() <= u32::MAX + 1 ==> self@.edges == v2.edges + arrived_edges(v2.paths, w0, w0.edges.take(e as int)),
            decreases other.edges@.len() - e,
        {
            let ghost before = self@.edges;
            proof {
                assert(w0.edges.take(e + 1).drop_last() =~= w0.edges.take(e as int));
                assert(w0.edges.take(e + 1).last() == w0.edges[e as int]);
            }
            let edge = other.edges.all()[e].duplicate();
            match remap.get(edge.from) {
                Some(from) => {
                    let to = match &edge.to {
                        crate::edge::Endpoint::Resolved(target) => match remap.get(*target) {
                            Some(t) => Some(crate::edge::Endpoint::Resolved(t)),
                            None => None,
                        },
                        other_end => Some(other_end.duplicate()),
                    };
                    match to {
                        Some(to) => {
                            self.add_edge(crate::edge::Edge { kind: edge.kind, from, to, site: edge.site });
                        },
                        None => {},
                    }
                },
                None => {},
            }
            proof {
                if v2.paths.len() <= u32::MAX + 1 {
                    assert(self@.edges =~= v2.edges + arrived_edges(v2.paths, w0, w0.edges.take(e + 1)));
                }
            }
            e = e + 1;
        }
        proof {
            assert(w0.edges.take(w0.edges.len() as int) =~= w0.edges);
        }
        match other.truncated {
            Some(scanned) => {
                let held = match self.truncated {
                    Some(t) => t,
                    None => 0,
                };
                self.truncated = Some(if held >= scanned { held } else { scanned });
            },
            None => {},
        }
    }
}

/// The grammar the file type of `path` names, in the table of grammars this build
/// compiled in, as `karet_treesitter::language_id_from_path` looks it up.
pub uninterp spec fn path_grammar(path: Seq<char>) -> Option<karet_treesitter::LanguageId>;

/// `karet_treesitter::language_id_from_path`: the grammar assigned to `path`. It reads
/// nothing but the path's name and fixed tables, so the answer is a function of the
/// path alone; which grammar that is, is not claimed.
#[verifier::external_body]
pub(crate) fn language_for_path(path: &str) -> (r: Option<karet_treesitter::LanguageId>)
    ensures
        r == path_grammar(path@),
{
    karet_treesitter::language_id_from_path(std::path::Path::new(path))
}


/// A copy of `facet` holding the same values.
pub fn copy_facet_full(facet: &Facet) -> (r: Facet)
    ensures
        full_view(r) == full_view(*facet),
{
    let r = crate::model::copy_facet(facet);
    assert(r.detail == facet.detail);
    r
}

/// Copies of `facets`, field for field.
pub fn copy_facets(facets: &Vec<Facet>) -> (r: Vec<Facet>)
    ensures
        crate::model::same_facets(r@, facets@),
{
    let mut out: Vec<Facet> = Vec::new();
    let mut i: usize = 0;
    while i < facets.len()
        invariant
            i <= facets@.len(),
            out@.len() == i,
            forall|j: int| 0 <= j < i ==> crate::model::same_facet(#[trigger] out@[j], facets@[j]),
        decreases facets.len() - i,
    {
        out.push(crate::model::copy_facet(&facets[i]));
        i = i + 1;
    }
    out
}

/// Copies of `strings`.
pub fn copy_strings(strings: &Vec<String>) -> (r: Vec<String>)
    ensures
        strings_view(r@) == strings_view(strings@),
{
    let mut out: Vec<String> = Vec::new();
    let mut i: usize = 0;
    while i < strings.len()
        invariant
            i <= strings@.len(),
            strings_view(out@) == strings_view(strings@.take(i as int)),
        decreases strings.len() - i,
    {
        out.push(strings[i].clone());
        assert(strings_view(strings@.take(i + 1)) =~= strings_view(strings@.take(i as int)).push(strings@[i as int]@));
        assert(strings_view(out@) =~= strings_view(strings@.take(i + 1)));
        i = i + 1;
    }
    assert(strings@.take(strings@.len() as int) =~= strings@);
    out
}

/// Copies of `owners`.
fn copy_owners(owners: &Vec<crate::contribution::Owner>) -> (r: Vec<crate::contribution::Owner>)
    ensures
        r@ == owners@,
{
    let mut out: Vec<crate::contribution::Owner> = Vec::new();
    let mut i: usize = 0;
    while i < owners.len()
        invariant
            i <= owners@.len(),
            out@ == owners@.take(i as int),
        decreases owners.len() - i,
    {
        let o = &owners[i];
        let rename = match &o.rename {
            Some(pair) => Some((pair.0.clone(), pair.1.clone())),
            None => None,
        };
        out.push(crate::contribution::Owner { base: o.base.clone(), rename, dissolve: o.dissolve });
        assert(owners@.take(i + 1) =~= owners@.take(i as int).push(owners@[i as int]));
        i = i + 1;
    }
    assert(owners@.take(owners@.len() as int) =~= owners@);
    out
}

/// The path replay gives the node at position `j` of a contribution: its parent's
/// path plus its own segment, where a parent that does not come earlier stands for
/// the empty path, and no parent at all for the file's owner.
pub open spec fn replay_path(owner: Seq<SegmentView>, nodes: Seq<crate::contribution::CachedNode>, j: int) -> Seq<SegmentView>
    decreases j,
{
    if !(0 <= j < nodes.len()) {
        Seq::empty()
    } else {
        match nodes[j].parent {
            None => owner.push(nodes[j].segment@),
            Some(p) => if (p as int) < j {
                replay_path(owner, nodes, p as int).push(nodes[j].segment@)
            } else {
                seq![nodes[j].segment@]
            },
        }
    }
}

/// Whether `n` is the node replay builds from `c`'s cached node at position `j`.
pub open spec fn replayed(n: Node, c: crate::contribution::CachedNode, file: FileId) -> bool {
    &&& n.kind == c.kind
    &&& n.name == c.name
    &&& n.detail == c.detail
    &&& n.location.file == file
    &&& n.location.range == c.range
    &&& n.location.span == c.span
    &&& n.location.selection == c.selection
    &&& n.location.header == c.header
    &&& crate::model::same_facets(n.facets@, c.facets@)
    &&& n.visibility == c.visibility
    &&& n.membership == crate::model::ConfigMembership::Active
    &&& n.provisional == c.provisional
}

/// The path of the node a replayed node hangs from: the file's owner, or the path of
/// the earlier node its parent position names.
pub open spec fn replay_parent_path(owner: Seq<SegmentView>, nodes: Seq<crate::contribution::CachedNode>, j: int) -> Seq<SegmentView> {
    match nodes[j].parent {
        None => owner,
        Some(p) => if (p as int) < j {
            replay_path(owner, nodes, p as int)
        } else {
            Seq::empty()
        },
    }
}

/// Whether `n`, replayed from position `j`, hangs from the node `paths` holds under its
/// parent's path, wherever that parent is the owner or an earlier node.
pub open spec fn hangs_as_replayed(paths: Seq<Seq<SegmentView>>, n: Node, owner: Seq<SegmentView>, nodes: Seq<crate::contribution::CachedNode>, j: int) -> bool {
    (nodes[j].parent is None || (nodes[j].parent->0 as int) < j)
        ==> n.parent == Some(id_of_path(paths, replay_parent_path(owner, nodes, j)))
}

/// The id `paths` gives `p`: the position it is held at.
pub open spec fn id_of_path(paths: Seq<Seq<SegmentView>>, p: Seq<SegmentView>) -> SeamId {
    SeamId(id_for(choose|k: int| 0 <= k < paths.len() && paths[k] == p))
}

/// A file's ownership hints with each node position turned into the id of the path
/// replay gives that node; positions past the file's nodes are dropped.
pub open spec fn translated_hints(
    paths: Seq<Seq<SegmentView>>,
    owner: Seq<SegmentView>,
    nodes: Seq<crate::contribution::CachedNode>,
    hints: Seq<(u32, Vec<crate::contribution::Owner>)>,
) -> Seq<(SeamId, Seq<crate::contribution::Owner>)>
    decreases hints.len(),
{
    if hints.len() == 0 {
        Seq::empty()
    } else {
        translated_hints(paths, owner, nodes, hints.drop_last()) + if (hints.last().0 as int) < nodes.len() {
            seq![(id_of_path(paths, replay_path(owner, nodes, hints.last().0 as int)), hints.last().1@)]
        } else {
            Seq::empty()
        }
    }
}

/// A file's unresolved-module records with each node position turned into the id of the
/// path replay gives that node; positions past the file's nodes are dropped.
pub open spec fn translated_marks(
    paths: Seq<Seq<SegmentView>>,
    owner: Seq<SegmentView>,
    nodes: Seq<crate::contribution::CachedNode>,
    marks: Seq<(u32, Vec<String>)>,
) -> Seq<(SeamId, Seq<Seq<char>>)>
    decreases marks.len(),
{
    if marks.len() == 0 {
        Seq::empty()
    } else {
        translated_marks(paths, owner, nodes, marks.drop_last()) + if (marks.last().0 as int) < nodes.len() {
            seq![(id_of_path(paths, replay_path(owner, nodes, marks.last().0 as int)), strings_view(marks.last().1@))]
        } else {
            Seq::empty()
        }
    }
}

/// Interning never lets two paths share an id while there are no more paths than ids:
/// distinct paths an index holds get distinct ids.
pub proof fn lemma_interned_ids_distinct(paths: Seq<Seq<SegmentView>>, p: Seq<SegmentView>, q: Seq<SegmentView>)
    requires
        paths_distinct(paths),
        paths.len() <= u32::MAX + 1,
        paths.contains(p),
        paths.contains(q),
        p != q,
    ensures
        id_of_path(paths, p) != id_of_path(paths, q),
{
    let a = choose|k: int| 0 <= k < paths.len() && paths[k] == p;
    let b = choose|k: int| 0 <= k < paths.len() && paths[k] == q;
    lemma_id_of_path(paths, p, a);
    lemma_id_of_path(paths, q, b);
}

/// The id `paths` gives a path it holds is the one at its position.
proof fn lemma_id_of_path(paths: Seq<Seq<SegmentView>>, p: Seq<SegmentView>, k: int)
    requires
        paths_distinct(paths),
        0 <= k < paths.len(),
        paths[k] == p,
    ensures
        id_of_path(paths, p) == SeamId(id_for(k)),
{
    let c = choose|c: int| 0 <= c < paths.len() && paths[c] == p;
    assert(c == k);
}

/// Whether no node after position `j` replays to the same path.
pub open spec fn last_at_path(owner: Seq<SegmentView>, nodes: Seq<crate::contribution::CachedNode>, j: int) -> bool {
    forall|j2: int| j < j2 < nodes.len() ==> replay_path(owner, nodes, j2) != replay_path(owner, nodes, j)
}

impl SeamIndex {
    /// Re-insert everything a file contributed, without re-reading it.
    ///
    /// Paths are rebuilt as the list is walked: a node stores one segment and the
    /// position of its parent, and parents come first. Returns the file's ownership
    /// hints, translated to live ids, for the package layer to resolve once every file
    /// is in; `None`, with the index untouched, when the node this file hangs from is
    /// not in the index.
    pub fn replay(&mut self, contribution: &crate::contribution::FileContribution) -> (r: Option<Vec<(SeamId, Vec<crate::contribution::Owner>)>>)
        requires
            old(self).wf(),
        ensures
            final(self).wf(),
            r is None <==> !old(self)@.paths.contains(contribution.owner@),
            r is None ==> final(self)@ == old(self)@,
            r is Some ==> {
                &&& old(self)@.paths.is_prefix_of(final(self)@.paths)
                &&& final(self)@.files.contains(contribution.file@)
                &&& forall|j: int| 0 <= j < contribution.nodes@.len() ==> #[trigger] final(self)@.paths.contains(
                    replay_path(contribution.owner@, contribution.nodes@, j),
                )
                &&& final(self)@.paths.len() <= u32::MAX + 1 ==> forall|j: int|
                    0 <= j < contribution.nodes@.len() && #[trigger] last_at_path(contribution.owner@, contribution.nodes@, j) ==> exists|k: int|
                        0 <= k < final(self)@.paths.len() && final(self)@.paths[k] == replay_path(contribution.owner@, contribution.nodes@, j)
                            && final(self)@.nodes.contains_key(SeamId(k as u32)) && exists|f: int|
                                0 <= f < final(self)@.files.len() && final(self)@.files[f] == contribution.file@
                                    && replayed(final(self)@.nodes[SeamId(k as u32)], contribution.nodes@[j], FileId(id_for(f)))
                            && hangs_as_replayed(final(self)@.paths, final(self)@.nodes[SeamId(k as u32)], contribution.owner@, contribution.nodes@, j)
            },
            r matches Some(hints) ==> hints@.map_values(|e: (SeamId, Vec<crate::contribution::Owner>)| (e.0, e.1@))
                == translated_hints(final(self)@.paths, contribution.owner@, contribution.nodes@, contribution.ownership@),
            r is Some ==> exists|f: int| 0 <= f < final(self)@.files.len() && final(self)@.files[f] == contribution.file@
                && final(self)@.attribution == match path_grammar(contribution.file@) {
                    Some(l) => old(self)@.attribution.insert(FileId(id_for(f)), (id_of_path(old(self)@.paths, contribution.owner@), l)),
                    None => old(self)@.attribution,
                },
            r is Some ==> final(self)@.unresolved == old(self)@.unresolved
                + translated_marks(final(self)@.paths, contribution.owner@, contribution.nodes@, contribution.unresolved@),
    {
        let owner = match self.resolve(&contribution.owner) {
            Some(id) => id,
            None => return None,
        };
        let file = self.intern_file(contribution.file.as_str());
        let ghost fk = choose|k: int| 0 <= k < self@.files.len() && self@.files[k] == contribution.file@ && file.0 == id_for(k);
        proof {
            old(self).lemma_paths_distinct();
            let ok = choose|k: int| 0 <= k < old(self)@.paths.len() && old(self)@.paths[k] == contribution.owner@ && owner.0 == id_for(k);
            lemma_id_of_path(old(self)@.paths, contribution.owner@, ok);
        }
        match language_for_path(contribution.file.as_str()) {
            Some(language) => {
                self.attribute_file(file, owner, language);
            },
            None => {},
        }
        let ghost v0 = self@;
        let ghost cn = contribution.nodes@;
        let ghost ow = contribution.owner@;
        let mut resolved: Vec<SeamPath> = Vec::new();
        let mut j: usize = 0;
        while j < contribution.nodes.len()
            invariant
                self.wf(),
                j <= cn.len(),
                cn == contribution.nodes@,
                ow == contribution.owner@,
                resolved@.len() == j,
                forall|x: int| 0 <= x < j ==> (#[trigger] resolved@[x])@ == replay_path(ow, cn, x),
                forall|x: int| 0 <= x < j ==> self@.paths.contains(#[trigger] replay_path(ow, cn, x)),
                v0.paths.is_prefix_of(self@.paths),
                self@.files == v0.files,
                self@.attribution == v0.attribution,
                self@.unresolved == old(self)@.unresolved,
                0 <= fk < v0.files.len() && v0.files[fk] == contribution.file@ && file.0 == id_for(fk),
                self@.paths.len() <= u32::MAX + 1 ==> forall|x: int|
                    0 <= x < j && #[trigger] last_at_path(ow, cn.take(j as int), x) ==> exists|k: int|
                        0 <= k < self@.paths.len() && self@.paths[k] == replay_path(ow, cn, x)
                            && self@.nodes.contains_key(SeamId(k as u32))
                            && replayed(self@.nodes[SeamId(k as u32)], cn[x], file)
                            && hangs_as_replayed(self@.paths, self@.nodes[SeamId(k as u32)], ow, cn, x),
                self@.paths.contains(ow),
            decreases contribution.nodes.len() - j,
        {
            let cached = &contribution.nodes[j];
            let parent_path = match cached.parent {
                Some(index) => {
                    if (index as usize) < resolved.len() {
                        resolved[index as usize].duplicate()
                    } else {
                        let e = SeamPath::new(Vec::new());
                        assert(e@ =~= Seq::<SegmentView>::empty());
                        e
                    }
                },
                None => contribution.owner.duplicate(),
            };
            let path = parent_path.child(cached.segment.duplicate());
            proof {
                assert(path@ == replay_path(ow, cn, j as int)) by {
                    if cached.parent is Some {
                        let p = cached.parent->0;
                        if (p as int) >= j {
                            assert(path@ =~= seq![cached.segment@]);
                        }
                    }
                }
            }
            let ghost before = self@;
            proof { self.lemma_paths_distinct(); }
            let id = self.intern(path.duplicate());
            let ghost after_intern = self@;
            let parent = self.resolve(&parent_path);
            proof {
                self.lemma_paths_distinct();
                let oc = choose|k: int| 0 <= k < before.paths.len() && before.paths[k] == ow;
                assert(after_intern.paths[oc] == ow);
                if cached.parent is None || (cached.parent->0 as int) < j {
                    assert(parent_path@ == replay_parent_path(ow, cn, j as int));
                    assert(after_intern.paths.contains(parent_path@)) by {
                        if cached.parent is Some {
                            let pp = cached.parent->0 as int;
                            assert(before.paths.contains(replay_path(ow, cn, pp)));
                            let y = choose|y: int| 0 <= y < before.paths.len() && before.paths[y] == replay_path(ow, cn, pp);
                            assert(after_intern.paths[y] == before.paths[y]);
                        }
                    }
                    let pk = choose|k: int| 0 <= k < after_intern.paths.len() && after_intern.paths[k] == parent_path@ && (parent->0).0 == id_for(k);
                    lemma_id_of_path(after_intern.paths, parent_path@, pk);
                }
            }
            let detail = match &cached.detail {
                Some(d) => Some(d.clone()),
                None => None,
            };
            let node = Node {
                id,
                kind: cached.kind,
                name: cached.name.clone(),
                detail,
                location: crate::model::SeamLocation {
                    file,
                    range: cached.range,
                    span: cached.span,
                    selection: cached.selection,
                    header: cached.header,
                },
                parent,
                children: Vec::new(),
                facets: copy_facets(&cached.facets),
                visibility: cached.visibility,
                rollups: crate::rollup::Rollups::new(),
                membership: crate::model::ConfigMembership::Active,
                provisional: cached.provisional,
            };
            let ghost placed = node;
            self.insert(node);
            resolved.push(path);
            proof {
                assert(self@.paths == after_intern.paths);
                assert forall|x: int| 0 <= x < j + 1 implies self@.paths.contains(#[trigger] replay_path(ow, cn, x)) by {
                    if x < j {
                        let y = choose|y: int| 0 <= y < before.paths.len() && before.paths[y] == replay_path(ow, cn, x);
                        assert(after_intern.paths[y] == before.paths[y]);
                    } else {
                        let kc = choose|k: int| 0 <= k < after_intern.paths.len() && after_intern.paths[k] == path@ && id.0 == id_for(k);
                        assert(self@.paths[kc] == replay_path(ow, cn, x));
                    }
                }
                if self@.paths.len() <= u32::MAX + 1 {
                    let kc = choose|k: int| 0 <= k < after_intern.paths.len() && after_intern.paths[k] == path@ && id.0 == id_for(k);
                    assert(id == SeamId(kc as u32));
                    assert forall|x: int|
                        0 <= x < j + 1 && #[trigger] last_at_path(ow, cn.take(j + 1), x) implies exists|k: int|
                            0 <= k < self@.paths.len() && self@.paths[k] == replay_path(ow, cn, x)
                                && self@.nodes.contains_key(SeamId(k as u32))
                                && replayed(self@.nodes[SeamId(k as u32)], cn[x], file)
                                && hangs_as_replayed(self@.paths, self@.nodes[SeamId(k as u32)], ow, cn, x) by {
                        if x == j {
                            assert(self@.nodes[id] == placed);
                            assert(placed.parent == parent);
                            assert(hangs_as_replayed(self@.paths, placed, ow, cn, x));
                            assert(0 <= kc < self@.paths.len() && self@.paths[kc] == replay_path(ow, cn, x)
                                && self@.nodes.contains_key(SeamId(kc as u32))
                                && replayed(self@.nodes[SeamId(kc as u32)], cn[x], file)
                                && hangs_as_replayed(self@.paths, self@.nodes[SeamId(kc as u32)], ow, cn, x));
                        } else {
                            assert(cn.take(j + 1)[j as int] == cn[j as int]);
                            assert forall|j2: int| x < j2 < cn.take(j as int).len() implies replay_path(ow, cn.take(j as int), j2) != replay_path(ow, cn.take(j as int), x) by {
                                lemma_replay_path_prefix(ow, cn, j as int, j2);
                                lemma_replay_path_prefix(ow, cn, j as int, x);
                                lemma_replay_path_prefix(ow, cn, j + 1, j2);
                                lemma_replay_path_prefix(ow, cn, j + 1, x);
                                assert(replay_path(ow, cn.take(j + 1), j2) != replay_path(ow, cn.take(j + 1), x));
                            }
                            assert(last_at_path(ow, cn.take(j as int), x));
                            assert(before.paths.len() <= u32::MAX + 1);
                            let ko = choose|k: int| 0 <= k < before.paths.len() && before.paths[k] == replay_path(ow, cn, x)
                                && before.nodes.contains_key(SeamId(k as u32))
                                && replayed(before.nodes[SeamId(k as u32)], cn[x], file)
                                && hangs_as_replayed(before.paths, before.nodes[SeamId(k as u32)], ow, cn, x);
                            lemma_replay_path_prefix(ow, cn, j + 1, j as int);
                            lemma_replay_path_prefix(ow, cn, j + 1, x);
                            assert(replay_path(ow, cn, j as int) != replay_path(ow, cn, x));
                            assert(after_intern.paths[ko] == before.paths[ko]);
                            assert(ko != kc);
                            let kid = SeamId(ko as u32);
                            assert(kid != id);
                            assert(after_intern.nodes.contains_key(kid));
                            let now = self@.nodes[kid];
                            assert(now == after_intern.nodes[kid] || child_appended(now, after_intern.nodes[kid], id));
                            assert(0 <= ko < self@.paths.len() && self@.paths[ko] == replay_path(ow, cn, x)
                                && self@.nodes.contains_key(SeamId(ko as u32))
                                && replayed(self@.nodes[SeamId(ko as u32)], cn[x], file));
                            if cn[x].parent is None || (cn[x].parent->0 as int) < x {
                                let pp = replay_parent_path(ow, cn, x);
                                assert(before.paths.contains(pp)) by {
                                    if cn[x].parent is Some {
                                        assert(before.paths.contains(replay_path(ow, cn, cn[x].parent->0 as int)));
                                    }
                                }
                                let y = choose|y: int| 0 <= y < before.paths.len() && before.paths[y] == pp;
                                lemma_id_of_path(before.paths, pp, y);
                                assert(self@.paths[y] == before.paths[y]);
                                lemma_id_of_path(self@.paths, pp, y);
                                assert(now.parent == before.nodes[kid].parent);
                            }
                            assert(hangs_as_replayed(self@.paths, self@.nodes[SeamId(ko as u32)], ow, cn, x));
                        }
                    }
                }
            }
            j = j + 1;
        }
        let ghost v1 = self@;
        proof {
            assert(cn.take(cn.len() as int) =~= cn);
        }
        let ghost um = contribution.unresolved@;
        let ghost om = contribution.ownership@;
        proof {
            assert(um.take(0) =~= Seq::<(u32, Vec<String>)>::empty());
            assert(v1.unresolved + Seq::<(SeamId, Seq<Seq<char>>)>::empty() =~= v1.unresolved);
        }
        let mut u: usize = 0;
        while u < contribution.unresolved.len()
            invariant
                self.wf(),
                self@.paths == v1.paths,
                self@.nodes == v1.nodes,
                self@.files == v1.files,
                self@.attribution == v1.attribution,
                um == contribution.unresolved@,
                u <= um.len(),
                cn == contribution.nodes@,
                ow == contribution.owner@,
                resolved@.len() == cn.len(),
                forall|x: int| 0 <= x < cn.len() ==> (#[trigger] resolved@[x])@ == replay_path(ow, cn, x),
                forall|x: int| 0 <= x < cn.len() ==> self@.paths.contains(#[trigger] replay_path(ow, cn, x)),
                self@.unresolved == v1.unresolved + translated_marks(v1.paths, ow, cn, um.take(u as int)),
            decreases contribution.unresolved.len() - u,
        {
            proof {
                assert(um.take(u + 1).drop_last() =~= um.take(u as int));
                assert(um.take(u + 1).last() == um[u as int]);
            }
            let index = contribution.unresolved[u].0 as usize;
            if index < resolved.len() {
                match self.resolve(&resolved[index]) {
                    Some(id) => {
                        proof {
                            self.lemma_paths_distinct();
                            let k = choose|k: int| 0 <= k < self@.paths.len() && self@.paths[k] == resolved@[index as int]@ && id.0 == id_for(k);
                            lemma_id_of_path(self@.paths, replay_path(ow, cn, index as int), k);
                        }
                        let ghost before = self@.unresolved;
                        self.mark_module_unresolved(id, copy_strings(&contribution.unresolved[u].1));
                        assert(self@.unresolved =~= v1.unresolved + translated_marks(v1.paths, ow, cn, um.take(u + 1)));
                    },
                    None => {
                        assert(self@.paths.contains(replay_path(ow, cn, index as int)));
                    },
                }
            } else {
                assert(translated_marks(v1.paths, ow, cn, um.take(u + 1)) =~= translated_marks(v1.paths, ow, cn, um.take(u as int)));
            }
            u = u + 1;
        }
        proof {
            assert(um.take(um.len() as int) =~= um);
            assert(om.take(0) =~= Seq::<(u32, Vec<crate::contribution::Owner>)>::empty());
        }
        let mut hints: Vec<(SeamId, Vec<crate::contribution::Owner>)> = Vec::new();
        let mut h: usize = 0;
        while h < contribution.ownership.len()
            invariant
                self.wf(),
                self@.paths == v1.paths,
                om == contribution.ownership@,
                h <= om.len(),
                cn == contribution.nodes@,
                ow == contribution.owner@,
                resolved@.len() == cn.len(),
                forall|x: int| 0 <= x < cn.len() ==> (#[trigger] resolved@[x])@ == replay_path(ow, cn, x),
                forall|x: int| 0 <= x < cn.len() ==> self@.paths.contains(#[trigger] replay_path(ow, cn, x)),
                hints@.map_values(|e: (SeamId, Vec<crate::contribution::Owner>)| (e.0, e.1@))
                    == translated_hints(v1.paths, ow, cn, om.take(h as int)),
            decreases contribution.ownership.len() - h,
        {
            proof {
                assert(om.take(h + 1).drop_last() =~= om.take(h as int));
                assert(om.take(h + 1).last() == om[h as int]);
            }
            let index = contribution.ownership[h].0 as usize;
            if index < resolved.len() {
                match self.resolve(&resolved[index]) {
                    Some(id) => {
                        proof {
                            self.lemma_paths_distinct();
                            let k = choose|k: int| 0 <= k < self@.paths.len() && self@.paths[k] == resolved@[index as int]@ && id.0 == id_for(k);
                            lemma_id_of_path(self@.paths, replay_path(ow, cn, index as int), k);
                        }
                        let ghost before = hints@;
                        hints.push((id, copy_owners(&contribution.ownership[h].1)));
                        assert(hints@.map_values(|e: (SeamId, Vec<crate::contribution::Owner>)| (e.0, e.1@))
                            =~= before.map_values(|e: (SeamId, Vec<crate::contribution::Owner>)| (e.0, e.1@)).push(
                                (id_of_path(v1.paths, replay_path(ow, cn, index as int)), om[h as int].1@)));
                    },
                    None => {
                        assert(self@.paths.contains(replay_path(ow, cn, index as int)));
                    },
                }
            } else {
                assert(translated_hints(v1.paths, ow, cn, om.take(h + 1)) =~= translated_hints(v1.paths, ow, cn, om.take(h as int)));
            }
            h = h + 1;
        }
        proof {
            assert(om.take(om.len() as int) =~= om);
        }
        proof {
            assert(self@.files[fk] == contribution.file@);
        }
        Some(hints)
    }
}

proof fn lemma_replay_path_prefix(owner: Seq<SegmentView>, nodes: Seq<crate::contribution::CachedNode>, n: int, j: int)
    requires
        0 <= j < n <= nodes.len(),
    ensures
        replay_path(owner, nodes.take(n), j) == replay_path(owner, nodes, j),
    decreases j,
{
    assert(nodes.take(n)[j] == nodes[j]);
    match nodes[j].parent {
        None => {},
        Some(p) => {
            if (p as int) < j {
                lemma_replay_path_prefix(owner, nodes, n, p as int);
            }
        },
    }
}

/// How many ancestors `id` has in `m`.
pub open spec fn depth_of(m: Map<SeamId, Node>, id: SeamId) -> nat {
    ancestry(m, id, m.dom().len() + 1).len()
}

/// Whether `id` names a node of `m` located in `file` that sits no deeper than any
/// other such node.
pub open spec fn shallowest_in(m: Map<SeamId, Node>, file: FileId, id: SeamId) -> bool {
    &&& m.contains_key(id)
    &&& m[id].location.file == file
    &&& forall|k: SeamId| #[trigger] m.contains_key(k) && m[k].location.file == file ==> depth_of(m, id) <= depth_of(m, k)
}

impl SeamIndex {
    /// The node that owns `file`: the parent of the shallowest node located in it, since
    /// everything else in the file hangs from that one. Among equally shallow nodes
    /// the choice is unspecified.
    pub fn owner_of_file(&self, file: FileId) -> (r: Option<SeamId>)
        requires
            self.wf(),
        ensures
            match r {
                Some(p) => exists|id: SeamId| #[trigger] shallowest_in(self@.nodes, file, id) && self@.nodes[id].parent == Some(p),
                None => (forall|k: SeamId| #[trigger] self@.nodes.contains_key(k) ==> self@.nodes[k].location.file != file)
                    || exists|id: SeamId| #[trigger] shallowest_in(self@.nodes, file, id) && self@.nodes[id].parent is None,
            },
    {
        let ghost m = self@.nodes;
        let mut best: Option<usize> = None;
        let mut best_depth: usize = 0;
        let mut k: usize = 0;
        while k < self.nodes.len()
            invariant
                self.wf(),
                m == self@.nodes,
                k <= self.nodes@.len(),
                match best {
                    Some(b) => b < k && self.nodes@[b as int].location.file == file && best_depth == depth_of(m, self.nodes@[b as int].id)
                        && forall|x: int| 0 <= x < k && self.nodes@[x].location.file == file ==> best_depth <= depth_of(m, #[trigger] self.nodes@[x].id),
                    None => forall|x: int| 0 <= x < k ==> (#[trigger] self.nodes@[x]).location.file != file,
                },
            decreases self.nodes.len() - k,
        {
            if self.nodes[k].location.file == file {
                let depth = self.ancestors(self.nodes[k].id).len();
                proof { lemma_at(self.nodes@, k as int); }
                match best {
                    Some(b) => {
                        if depth < best_depth {
                            best = Some(k);
                            best_depth = depth;
                        }
                    },
                    None => {
                        best = Some(k);
                        best_depth = depth;
                    },
                }
            }
            k = k + 1;
        }
        match best {
            Some(b) => {
                proof {
                    let id = self.nodes@[b as int].id;
                    lemma_at(self.nodes@, b as int);
                    assert forall|q: SeamId| #[trigger] m.contains_key(q) && m[q].location.file == file implies depth_of(m, id) <= depth_of(m, q) by {
                        let x = choose|x: int| 0 <= x < self.nodes@.len() && self.nodes@[x].id == q;
                        lemma_at(self.nodes@, x);
                    }
                    assert(shallowest_in(m, file, id));
                }
                self.nodes[b].parent
            },
            None => {
                proof {
                    assert forall|q: SeamId| #[trigger] m.contains_key(q) implies m[q].location.file != file by {
                        let x = choose|x: int| 0 <= x < self.nodes@.len() && self.nodes@[x].id == q;
                        lemma_at(self.nodes@, x);
                    }
                }
                None
            },
        }
    }
}

/// Whether two arenas hold the same ids with the same child lists.
pub open spec fn same_shape(a: Map<SeamId, Node>, b: Map<SeamId, Node>) -> bool {
    &&& a.dom() == b.dom()
    &&& forall|k: SeamId| #[trigger] a.contains_key(k) ==> a[k].children == b[k].children
}

/// A walk reads nothing but ids and child lists.
pub proof fn lemma_preorder_shape(a: Map<SeamId, Node>, b: Map<SeamId, Node>, id: SeamId, fuel: nat)
    requires
        same_shape(a, b),
    ensures
        preorder(a, id, fuel) == preorder(b, id, fuel),
    decreases fuel, 0nat,
{
    if fuel > 0 && a.contains_key(id) {
        assert(a[id].children == b[id].children);
        lemma_preorder_all_shape(a, b, a[id].children@, (fuel - 1) as nat);
    }
}

/// A walk over several ids reads nothing but ids and child lists.
pub proof fn lemma_preorder_all_shape(a: Map<SeamId, Node>, b: Map<SeamId, Node>, ids: Seq<SeamId>, fuel: nat)
    requires
        same_shape(a, b),
    ensures
        preorder_all(a, ids, fuel) == preorder_all(b, ids, fuel),
    decreases fuel, ids.len() + 1,
{
    if ids.len() > 0 {
        lemma_preorder_shape(a, b, ids[0], fuel);
        lemma_preorder_all_shape(a, b, ids.drop_first(), fuel);
    }
}

/// The walk over the first `c + 1` ids is the walk over the first `c`, then the next.
pub proof fn lemma_preorder_all_take(nodes: Map<SeamId, Node>, ids: Seq<SeamId>, c: int, fuel: nat)
    requires
        0 <= c < ids.len(),
    ensures
        preorder_all(nodes, ids.take(c + 1), fuel) == preorder_all(nodes, ids.take(c), fuel) + preorder(nodes, ids[c], fuel),
{
    let t = ids.take(c + 1);
    lemma_preorder_all_snoc(nodes, t, fuel);
    assert(t.drop_last() =~= ids.take(c));
}

} // verus!
