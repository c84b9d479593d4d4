//! Moving nodes to where they semantically belong.
//!
//! A Rust `impl` is written beside the type it binds behaviour to — possibly in another
//! module — so a containment tree built from syntax alone lists `struct Widget` and
//! `impl Widget` as siblings. Once every file is in, each node that named owner
//! candidates is moved under the first of them the package declares: nested under it,
//! perhaps renamed, or dissolved into it with its members moving up in source order.
//! A candidate that names no single type or contract here is passed over rather than
//! guessed at; when none resolves the node stays where it was written.

use vstd::prelude::*;
use crate::contribution::Owner;
use crate::id::SeamId;
use crate::index::IndexView;
use crate::index::SeamIndex;
use crate::index::discarded;
use crate::index::move_refused;
use crate::index::moved_all;
use crate::index::moved_paths;
use crate::index::preorder;
use crate::index::without;
use crate::model::NodeKind;

verus! {

/// Whether `id` is a type or a contract named `name`.
pub open spec fn names_type(v: IndexView, id: SeamId, name: Seq<char>) -> bool {
    &&& v.nodes.contains_key(id)
    &&& v.nodes[id].name@ == name
    &&& (v.nodes[id].kind == NodeKind::Type || v.nodes[id].kind == NodeKind::Interface)
}

/// Whether exactly one node — `id` — is a type or contract named `name`.
pub open spec fn sole_type(v: IndexView, id: SeamId, name: Seq<char>) -> bool {
    names_type(v, id, name) && forall|o: SeamId| names_type(v, o, name) ==> o == id
}

/// The one type or contract named `name`, or `None` when there is none or more than one.
pub fn sole_type_named(index: &SeamIndex, name: &str) -> (r: Option<SeamId>)
    requires
        index.wf(),
    ensures
        match r {
            Some(id) => sole_type(index@, id, name@),
            None => forall|id: SeamId| !sole_type(index@, id, name@),
        },
{
    let nodes = index.nodes();
    let mut found: Option<SeamId> = None;
    let mut i: usize = 0;
    while i < nodes.len()
        invariant
            i <= nodes@.len(),
            index.wf(),
            forall|k: int| 0 <= k < nodes@.len() ==> index@.nodes.contains_key(#[trigger] nodes@[k].id) && index@.nodes[nodes@[k].id] == nodes@[k],
            forall|id: SeamId| index@.nodes.contains_key(id) ==> exists|k: int| 0 <= k < nodes@.len() && #[trigger] nodes@[k].id == id,
            match found {
                Some(f) => names_type(index@, f, name@) && exists|k: int| 0 <= k < i && #[trigger] nodes@[k].id == f
                    && forall|j: int| 0 <= j < i && names_type(index@, #[trigger] nodes@[j].id, name@) ==> nodes@[j].id == f,
                None => forall|j: int| 0 <= j < i ==> !names_type(index@, #[trigger] nodes@[j].id, name@),
            },
        decreases nodes.len() - i,
    {
        let n = &nodes[i];
        let hit = (n.kind == NodeKind::Type || n.kind == NodeKind::Interface) && crate::text::str_eq(n.name.as_str(), name);
        assert(index@.nodes[nodes@[i as int].id] == nodes@[i as int]);
        if hit {
            match found {
                Some(f) => {
                    if f != n.id {
                        proof {
                            assert(names_type(index@, n.id, name@));
                            assert(!sole_type(index@, f, name@));
                            assert forall|id: SeamId| !sole_type(index@, id, name@) by {
                                if sole_type(index@, id, name@) {
                                    assert(f == id);
                                    assert(n.id == id);
                                }
                            }
                        }
                        return None;
                    }
                },
                None => {
                    found = Some(n.id);
                },
            }
        }
        i = i + 1;
    }
    match found {
        Some(f) => {
            assert forall|o: SeamId| names_type(index@, o, name@) implies o == f by {
                let k = choose|k: int| 0 <= k < nodes@.len() && #[trigger] nodes@[k].id == o;
            }
        },
        None => {
            assert forall|id: SeamId| !sole_type(index@, id, name@) by {
                if sole_type(index@, id, name@) {
                    let k = choose|k: int| 0 <= k < nodes@.len() && #[trigger] nodes@[k].id == id;
                }
            }
        },
    }
    found
}

/// Carry the queued ids from position `from` on through a move recorded in `remap`.
fn follow(queue: &mut Vec<SeamId>, from: usize, remap: &crate::id::Remap)
    ensures
        final(queue)@.len() == old(queue)@.len(),
        forall|j: int| 0 <= j < old(queue)@.len() ==> #[trigger] final(queue)@[j] == if j < from {
            old(queue)@[j]
        } else {
            crate::id::moved(remap@, old(queue)@[j])
        },
{
    let mut j: usize = from;
    while j < queue.len()
        invariant
            from <= j,
            queue@.len() == old(queue)@.len(),
            forall|t: int| 0 <= t < old(queue)@.len() ==> #[trigger] queue@[t] == if t < from || t >= j {
                old(queue)@[t]
            } else {
                crate::id::moved(remap@, old(queue)@[t])
            },
        decreases queue.len() - j,
    {
        let moved = remap.apply(queue[j]);
        queue.set(j, moved);
        j = j + 1;
    }
}

/// Whether candidate `o` takes `id` in `v`: its base names exactly one type or contract,
/// and the move there is one the index makes (for a dissolving candidate, that the type
/// is not `id` itself).
pub open spec fn takes(v: IndexView, id: SeamId, o: Owner) -> bool {
    exists|t: SeamId| #[trigger] sole_type(v, t, o.base@) && if o.dissolve {
        t != id
    } else {
        !move_refused(v, id, t, o.rename)
    }
}

/// The position, from `from` on, of the first of `owners` that takes `id` in `v`.
pub open spec fn first_taker(v: IndexView, id: SeamId, owners: Seq<Owner>, from: int) -> Option<int>
    decreases owners.len() - from,
{
    if from < 0 || from >= owners.len() {
        None
    } else if takes(v, id, owners[from]) {
        Some(from)
    } else {
        first_taker(v, id, owners, from + 1)
    }
}

/// Whether `after` is `before` with `id`'s subtree moved under `parent` (renamed as
/// `rename` says), each moved id carried through `remap`.
pub open spec fn relocated(
    before: IndexView,
    after: IndexView,
    remap: Map<SeamId, SeamId>,
    id: SeamId,
    parent: SeamId,
    rename: Option<(String, String)>,
) -> bool {
    &&& remap.contains_key(id)
    &&& forall|o: SeamId| #[trigger] remap.contains_key(o) ==> preorder(before.nodes, id, before.nodes.dom().len()).contains(o)
    &&& moved_paths(before, after, remap, id, parent, rename)
    &&& after.roots == moved_all(without(before.roots, seq![id]), remap)
    &&& after.edges.len() == before.edges.len()
    &&& forall|i: int| 0 <= i < before.edges.len() ==> #[trigger] after.edges[i] == crate::edge::remapped_edge(before.edges[i], remap)
    &&& after.files == before.files
    &&& after.truncated == before.truncated
}

/// One step of regrouping: the queued id at position `i` of `q0` is placed by its
/// candidates `owners`. When none takes it, nothing changes. When the first that takes
/// it nests it, its subtree moves under that type and the ids queued after it follow the
/// move. When it dissolves, the node is left only while it still holds a child that
/// could not move. The queue up to `i` never changes.
pub open spec fn placed(
    before: IndexView,
    after: IndexView,
    q0: Seq<SeamId>,
    q1: Seq<SeamId>,
    i: int,
    owners: Seq<Owner>,
) -> bool {
    let id = q0[i];
    &&& q1.len() == q0.len()
    &&& forall|j: int| 0 <= j <= i ==> #[trigger] q1[j] == q0[j]
    &&& match first_taker(before, id, owners, 0) {
        None => after == before && q1 == q0,
        Some(k) => if owners[k].dissolve {
            &&& after.nodes.contains_key(id) ==> after.nodes[id].children@.len() > 0
            &&& after.files == before.files
            &&& after.truncated == before.truncated
        } else {
            exists|t: SeamId, m: Map<SeamId, SeamId>|
                #[trigger] relocated(before, after, m, id, t, owners[k].rename)
                    && sole_type(before, t, owners[k].base@)
                    && forall|j: int| i < j < q0.len() ==> #[trigger] q1[j] == crate::id::moved(m, q0[j])
        },
    }
}

/// Whether `states` and `queues` trace a regrouping of `before` into `after` by
/// `ownership`, one step per entry, in order.
pub open spec fn regroup_trace(
    before: IndexView,
    after: IndexView,
    ownership: Seq<(SeamId, Vec<Owner>)>,
    states: Seq<IndexView>,
    queues: Seq<Seq<SeamId>>,
) -> bool {
    let n = ownership.len();
    &&& states.len() == n + 1
    &&& queues.len() == n + 1
    &&& states[0] == before
    &&& states[n as int] == after
    &&& queues[0] == ownership.map_values(|p: (SeamId, Vec<Owner>)| p.0)
    &&& forall|i: int| 0 <= i < n ==> #[trigger] placed(states[i], states[i + 1], queues[i], queues[i + 1], i, ownership[i].1@)
}

/// Place the queued id at position `i` by its candidates `owners`: the first candidate
/// that takes it wins. Nesting moves its subtree under the type; dissolving moves its
/// children up into the type in order and drops it once empty.
fn settle(index: &mut SeamIndex, owners: &Vec<Owner>, queue: &mut Vec<SeamId>, i: usize)
    requires
        old(index).wf(),
        i < old(queue)@.len(),
    ensures
        final(index).wf(),
        placed(old(index)@, final(index)@, old(queue)@, final(queue)@, i as int, owners@),
{
    let id = queue[i];
    let len = queue.len();
    let next = i + 1;
    let ghost v0 = index@;
    let ghost q0 = queue@;
    let ghost mut gt: SeamId = id;
    let ghost mut gm: Map<SeamId, SeamId> = Map::empty();
    let mut k: usize = 0;
    let mut settled = false;
    while k < owners.len() && !settled
        invariant
            k <= owners@.len(),
            v0 == old(index)@,
            q0 == old(queue)@,
            id == q0[i as int],
            next == i + 1,
            i < q0.len(),
            index.wf(),
            queue@.len() == q0.len(),
            forall|j: int| 0 <= j <= i ==> #[trigger] queue@[j] == q0[j],
            !settled ==> index@ == v0 && queue@ == q0 && first_taker(v0, id, owners@, 0) == first_taker(v0, id, owners@, k as int),
            settled ==> k > 0 && first_taker(v0, id, owners@, 0) == Some((k - 1) as int),
            settled && owners@[k - 1].dissolve ==> (index@.nodes.contains_key(id) ==> index@.nodes[id].children@.len() > 0)
                && index@.files == v0.files && index@.truncated == v0.truncated,
            settled && !owners@[k - 1].dissolve ==> relocated(v0, index@, gm, id, gt, owners@[k - 1].rename)
                && sole_type(v0, gt, owners@[k - 1].base@)
                && forall|j: int| i < j < q0.len() ==> #[trigger] queue@[j] == crate::id::moved(gm, q0[j]),
        decreases owners.len() - k,
    {
        let owner = &owners[k];
        proof {
            reveal_with_fuel(first_taker, 2);
        }
        match sole_type_named(index, owner.base.as_str()) {
            Some(target) => {
                if owner.dissolve {
                    if target != id {
                        assert(takes(v0, id, owners@[k as int]));
                        let children = index.children(id);
                        let mut c: usize = 0;
                        while c < children.len()
                            invariant
                                c <= children@.len(),
                                next == i + 1,
                                i < q0.len(),
                                queue@.len() == q0.len(),
                                forall|j: int| 0 <= j <= i ==> #[trigger] queue@[j] == q0[j],
                                index.wf(),
                                index@.files == v0.files,
                                index@.truncated == v0.truncated,
                            decreases children.len() - c,
                        {
                            let remap = index.relocate(children[c], target, None);
                            follow(queue, next, &remap);
                            c = c + 1;
                        }
                        if index.children(id).len() == 0 {
                            let ghost pre = index@;
                            index.discard(id);
                            proof {
                                assert(discarded(pre.nodes, id)[0] == id);
                                assert(discarded(pre.nodes, id).contains(id));
                            }
                        }
                        settled = true;
                    } else {
                        assert(!takes(v0, id, owners@[k as int]));
                    }
                } else {
                    let rename = match &owner.rename {
                        Some((display, segment)) => Some((display.clone(), segment.clone())),
                        None => None,
                    };
                    assert(rename == owner.rename);
                    let remap = index.relocate(id, target, rename);
                    if !remap.is_empty() {
                        assert(takes(v0, id, owners@[k as int]));
                        proof {
                            gt = target;
                            gm = remap@;
                        }
                        follow(queue, next, &remap);
                        settled = true;
                    } else {
                        assert(!takes(v0, id, owners@[k as int])) by {
                            if takes(v0, id, owners@[k as int]) {
                                let t = choose|t: SeamId| #[trigger] sole_type(v0, t, owners@[k as int].base@) && !move_refused(v0, id, t, owners@[k as int].rename);
                                assert(names_type(v0, t, owner.base@));
                            }
                        }
                    }
                }
            },
            None => {
                assert(!takes(v0, id, owners@[k as int]));
            },
        }
        k = k + 1;
    }
    proof {
        if !settled {
            assert(first_taker(v0, id, owners@, k as int) is None);
        } else if !owners@[k - 1].dissolve {
            assert(relocated(v0, index@, gm, id, gt, owners@[k - 1].rename));
        }
    }
}

/// Move each node that named owner candidates under the first candidate that takes it:
/// the sole type or contract of that name, where the move is one the index makes. It is
/// dissolved into it (its children moving up in order, the emptied node then dropped),
/// or nested under it with its new name; a node that no candidate takes stays where it
/// was written. Later queued ids follow every move made before them.
pub fn apply(index: &mut SeamIndex, ownership: Vec<(SeamId, Vec<Owner>)>)
    requires
        old(index).wf(),
    ensures
        final(index).wf(),
        exists|states: Seq<IndexView>, queues: Seq<Seq<SeamId>>|
            #[trigger] regroup_trace(old(index)@, final(index)@, ownership@, states, queues),
{
    let mut queue: Vec<SeamId> = Vec::new();
    let mut q: usize = 0;
    while q < ownership.len()
        invariant
            q <= ownership@.len(),
            queue@ == ownership@.take(q as int).map_values(|p: (SeamId, Vec<Owner>)| p.0),
        decreases ownership.len() - q,
    {
        queue.push(ownership[q].0);
        q = q + 1;
        assert(ownership@.take(q as int).map_values(|p: (SeamId, Vec<Owner>)| p.0) =~= ownership@.take(q - 1).map_values(|p: (SeamId, Vec<Owner>)| p.0).push(ownership@[q - 1].0));
    }
    assert(ownership@.take(ownership@.len() as int) =~= ownership@);
    let ghost mut states: Seq<IndexView> = seq![index@];
    let ghost mut queues: Seq<Seq<SeamId>> = seq![queue@];
    let mut i: usize = 0;
    while i < ownership.len()
        invariant
            i <= ownership@.len(),
            queue@.len() == ownership@.len(),
            index.wf(),
            states.len() == i + 1,
            queues.len() == i + 1,
            states[0] == old(index)@,
            states[i as int] == index@,
            queues[0] == ownership@.map_values(|p: (SeamId, Vec<Owner>)| p.0),
            queues[i as int] == queue@,
            forall|j: int| 0 <= j < i ==> #[trigger] placed(states[j], states[j + 1], queues[j], queues[j + 1], j, ownership@[j].1@),
        decreases ownership.len() - i,
    {
        settle(index, &ownership[i].1, &mut queue, i);
        proof {
            states = states.push(index@);
            queues = queues.push(queue@);
        }
        i = i + 1;
    }
    assert(regroup_trace(old(index)@, index@, ownership@, states, queues));
}

} // verus!
