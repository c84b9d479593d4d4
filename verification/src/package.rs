//! Indexing a package, and re-indexing one file of it after an edit.
//!
//! Reading the package from disk and walking its files in parallel happens at the edge;
//! what is decided about the index is here. An edit re-indexes only its own file: the
//! file's nodes under the package root are removed and rebuilt from the new text, and
//! the rest of the index is left as it was.

use vstd::prelude::*;
use karet_treesitter::LanguageId;
use karet_treesitter::ParserPool;
use crate::extract::ExtractError;
use crate::extract::ExtractOutcome;
use crate::extract::extract_file;
use crate::extract::extracted;
use crate::id::SeamId;
use crate::id::id_for;
use crate::index::IndexView;
use crate::index::SeamIndex;
use crate::index::ancestry;
use crate::index::doomed_in_file;
use crate::index::dropped;
use crate::index::path_grammar;
use crate::index::rollups_only;
use crate::index::shallowest_in;
use crate::index::without;
use crate::edge::Edge;
use crate::model::FileId;
use crate::regroup::regroup_trace;

verus! {

/// Errors indexing a package.
#[derive(Debug, Clone, PartialEq, Eq)]
#[non_exhaustive]
pub enum PackageError {
    /// No `Cargo.toml` was found at the given root.
    NoManifest(String),
    /// The manifest exists but declares no package (a virtual workspace root).
    VirtualManifest(String),
    /// No crate root could be found, so there is nothing to index.
    NoCrateRoot(String),
    /// Nothing indexable was found anywhere under the given directory.
    NothingToIndex(String),
    /// Every candidate crate root failed to extract.
    Extract(ExtractError),
}

/// How much of a package to index.
#[derive(Debug, Clone, Copy, PartialEq, Eq, Structural)]
pub struct IndexOptions {
    /// Stop after this many files, marking the index truncated.
    pub max_files: usize,
}

impl Default for IndexOptions {
    /// Far above any real package, so the cap is a runaway guard rather than a policy.
    fn default() -> (r: Self)
        ensures
            r.max_files == 20_000,
    {
        IndexOptions { max_files: 20_000 }
    }
}

/// The root of the tree `id` hangs in: the last of its ancestors, or `id` itself.
pub open spec fn package_root_of(v: IndexView, id: SeamId) -> SeamId {
    let up = ancestry(v.nodes, id, v.nodes.dom().len() + 1);
    if up.len() > 0 {
        up.last()
    } else {
        id
    }
}

/// Whether `fid` is a handle `v` gives the file named `file`.
pub open spec fn file_at(v: IndexView, fid: FileId, file: Seq<char>) -> bool {
    exists|k: int| 0 <= k < v.files.len() && v.files[k] == file && fid.0 == id_for(k)
}

/// Whether `owner` and `language` are what re-indexing `fid`, named `file`, builds
/// under: the owner and grammar recorded for it, or, with no record, the parent of a
/// shallowest node located in the file and the grammar the file's name selects.
pub open spec fn rebuild_target(v: IndexView, fid: FileId, file: Seq<char>, owner: SeamId, language: LanguageId) -> bool {
    if v.attribution.contains_key(fid) {
        v.attribution[fid] == (owner, language)
    } else {
        &&& exists|id: SeamId| #[trigger] shallowest_in(v.nodes, fid, id) && v.nodes[id].parent == Some(owner)
        &&& path_grammar(file) == Some(language)
    }
}

/// Whether `fid` has nothing to hang rebuilt nodes from: no record, and either no node
/// located in it or a shallowest one without a parent.
pub open spec fn no_owner(v: IndexView, fid: FileId) -> bool {
    &&& !v.attribution.contains_key(fid)
    &&& (forall|k: SeamId| #[trigger] v.nodes.contains_key(k) ==> v.nodes[k].location.file != fid)
        || exists|id: SeamId| #[trigger] shallowest_in(v.nodes, fid, id) && v.nodes[id].parent is None
}

/// Whether `after` is `before` with every node located in `fid` below `root` removed,
/// with the edges and unresolved records they own.
pub open spec fn cleared(before: IndexView, after: IndexView, fid: FileId, root: SeamId) -> bool {
    let doomed = doomed_in_file(before.nodes, root, fid);
    &&& dropped(after.nodes, before.nodes, doomed)
    &&& after.edges == before.edges.filter(|e: Edge| !doomed.contains(e.from))
    &&& after.roots == without(before.roots, doomed)
    &&& after.unresolved == before.unresolved.filter(|e: (SeamId, Seq<Seq<char>>)| !doomed.contains(e.0))
    &&& after.paths == before.paths
    &&& after.files == before.files
    &&& after.attribution == before.attribution
    &&& after.truncated == before.truncated
}

/// Whether `after` is `before` with file `fid` rebuilt from `text` under `owner`: the
/// file's old nodes below the package root are removed; then, when the text parses
/// with a mapping, the entities it yields are extracted under `owner`, regrouped by
/// their ownership claims, and the rollups recomputed; otherwise the index is left
/// with the removal alone and `r` says why.
pub open spec fn rebuilt(
    before: IndexView,
    after: IndexView,
    fid: FileId,
    owner: SeamId,
    language: LanguageId,
    text: Seq<char>,
    r: Result<(), ExtractError>,
) -> bool {
    &&& (r is Ok) == (crate::lang::mapping_for(language) is Some && crate::syntax::parsed_tree(language, text) is Some)
    &&& (r == Err::<(), ExtractError>(ExtractError::NoMapping)) == (crate::lang::mapping_for(language) is None)
    &&& exists|mid: IndexView| #[trigger] cleared(before, mid, fid, package_root_of(before, owner)) && match r {
        Ok(_) => exists|o: ExtractOutcome, grown: IndexView, moved: IndexView, states: Seq<IndexView>, queues: Seq<Seq<SeamId>>|
            #[trigger] regroup_trace(grown, moved, o.ownership@, states, queues)
                && extracted(mid, grown, owner, language, text, o)
                && rollups_only(after, moved),
        Err(_) => after == mid,
    }
}

/// Re-index one file in place after an edit, replacing the nodes it contributed.
///
/// The file is looked up, not registered: a file the index never held has nothing to
/// rebuild (`NoMapping`). Its nodes are rebuilt under the owner recorded for it, or,
/// without a record, under the parent of its shallowest node with the grammar its name
/// selects (`NoMapping` when there is no such parent, `NoGrammar` when there is no such
/// grammar); the index is then untouched. Otherwise the file's old nodes are removed
/// from the whole package, since regrouping may have moved them anywhere in it, and the
/// new text is extracted, regrouped and rolled up from the package root.
pub fn reindex_file(index: &mut SeamIndex, pool: &mut ParserPool, file: &str, text: &str) -> (r: Result<(), ExtractError>)
    requires
        old(index).wf(),
        text@.len() < usize::MAX / 4,
    ensures
        final(index).wf(),
        !old(index)@.files.contains(file@) ==> r == Err::<(), ExtractError>(ExtractError::NoMapping) && final(index)@ == old(index)@,
        old(index)@.files.contains(file@) ==> exists|fid: FileId| #[trigger] file_at(old(index)@, fid, file@) && {
            ||| no_owner(old(index)@, fid) && r == Err::<(), ExtractError>(ExtractError::NoMapping) && final(index)@ == old(index)@
            ||| !old(index)@.attribution.contains_key(fid) && path_grammar(file@) is None
                && r == Err::<(), ExtractError>(ExtractError::NoGrammar) && final(index)@ == old(index)@
            ||| exists|owner: SeamId, language: LanguageId| #[trigger] rebuild_target(old(index)@, fid, file@, owner, language)
                && rebuilt(old(index)@, final(index)@, fid, owner, language, text@, r)
        },
{
    let ghost v0 = index@;
    let fid = match index.file_id(file) {
        Some(f) => f,
        None => return Err(ExtractError::NoMapping),
    };
    assert(file_at(v0, fid, file@));
    let (owner, language) = match index.file_attribution(fid) {
        Some(recorded) => recorded,
        None => {
            let owner = match index.owner_of_file(fid) {
                Some(o) => o,
                None => return Err(ExtractError::NoMapping),
            };
            let language = match crate::index::language_for_path(file) {
                Some(l) => l,
                None => return Err(ExtractError::NoGrammar),
            };
            (owner, language)
        },
    };
    assert(rebuild_target(v0, fid, file@, owner, language));
    let up = index.ancestors(owner);
    let root = if up.len() > 0 {
        up[up.len() - 1]
    } else {
        owner
    };
    assert(root == package_root_of(v0, owner));
    index.remove_nodes_in_file(fid, root);
    let ghost mid = index@;
    assert(cleared(v0, mid, fid, root));
    let outcome = match extract_file(index, pool, owner, fid, language, text) {
        Ok(o) => o,
        Err(e) => {
            assert(rebuilt(v0, index@, fid, owner, language, text@, Err(e)));
            return Err(e);
        },
    };
    let ghost grown = index@;
    let ghost og = outcome;
    crate::regroup::apply(index, outcome.ownership);
    let ghost moved = index@;
    index.recompute_rollups_from(root);
    proof {
        let (states, queues) = choose|states: Seq<IndexView>, queues: Seq<Seq<SeamId>>|
            #[trigger] regroup_trace(grown, moved, og.ownership@, states, queues);
        assert(regroup_trace(grown, moved, og.ownership@, states, queues));
        assert(extracted(mid, grown, owner, language, text@, og));
        assert(rollups_only(index@, moved));
        assert(rebuilt(v0, index@, fid, owner, language, text@, Ok(())));
    }
    Ok(())
}

} // verus!
