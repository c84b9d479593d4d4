//! Configurations: the named build-time variation a tree is read under.
//!
//! A package is a family of trees indexed by feature set and build target. Exactly one
//! configuration is active at a time, it is always named, and everything derived from
//! it is attributed to that name.

pub mod predicate;

use vstd::prelude::*;
use crate::text::chars_of;
use crate::text::push_char;
use crate::text::str_eq;
use crate::text::string_of;
use predicate::CfgEnv;
use predicate::names;
use predicate::Truth;
use predicate::kleene_all;
use predicate::truth_of;
use predicate::predicate_of;
use crate::index::SeamIndex;
use crate::index::IndexView;
use crate::id::SeamId;
use crate::model::ConfigMembership;
use crate::model::Facet;
use crate::model::Lens;
use crate::index::preorder;
use crate::index::preorder_all;
use crate::index::same_shape;
use crate::index::lemma_preorder_shape;
use crate::index::lemma_preorder_all_take;

verus! {

/// What is known about the machine a configuration is evaluated on.
#[derive(Debug, Clone, PartialEq, Eq)]
pub struct Host {
    /// The operating system, as `std::env::consts::OS` names it.
    pub os: String,
    /// The architecture, as `std::env::consts::ARCH` names it.
    pub arch: String,
    /// Whether the host is a Unix.
    pub unix: bool,
    /// Whether the host is Windows.
    pub windows: bool,
}

/// A named set of build-time choices to evaluate a package under.
#[derive(Debug, Clone, PartialEq, Eq)]
pub struct Configuration {
    /// The display name, shown in the header and used by `config:` in a query.
    pub name: String,
    /// What is known about the compilation environment.
    pub env: CfgEnv,
    /// The build target this configuration builds, when it names one.
    pub target: Option<String>,
    /// Whether the manifest was available when this configuration was derived.
    pub manifest_known: bool,
}

/// The name used when no manifest could be read.
pub const UNCONFIGURED: &'static str = "unconfigured";

/// The flags the index can decide; anything else stays unknown.
pub open spec fn decidable_flags() -> Seq<Seq<char>> {
    seq!["unix"@, "windows"@, "test"@, "doc"@, "doctest"@, "debug_assertions"@]
}

/// The host triple: architecture, a dash, operating system.
pub open spec fn triple_of(host: Host) -> Seq<char> {
    host.arch@ + seq!['-'] + host.os@
}

/// Append `tail` to `s`.
fn push_str(s: &mut String, tail: &str)
    ensures
        final(s)@ == old(s)@ + tail@,
{
    let cs = chars_of(tail);
    let ghost base = s@;
    let mut i: usize = 0;
    while i < cs.len()
        invariant
            i <= cs@.len(),
            cs@ == tail@,
            s@ == base + cs@.subrange(0, i as int),
        decreases cs.len() - i,
    {
        push_char(s, cs[i]);
        i = i + 1;
        assert(s@ =~= base + cs@.subrange(0, i as int));
    }
    assert(cs@.subrange(0, cs@.len() as int) =~= cs@);
}

/// The host target triple, which is part of a configuration's name so the reader can
/// see which host they are seeing.
pub fn host_triple(host: &Host) -> (r: String)
    ensures
        r@ == triple_of(*host),
{
    let mut s = String::new();
    push_str(&mut s, host.arch.as_str());
    push_char(&mut s, '-');
    push_str(&mut s, host.os.as_str());
    assert(s@ =~= triple_of(*host));
    s
}

/// Whether `env` holds exactly what is known about `host`: its Unix/Windows flag, its
/// `target_os`, `target_arch` and `target_family`, and the decidable flags and those keys
/// marked fully enumerated — plus `feature` when `features_known`.
pub open spec fn describes_host(env: CfgEnv, host: Host, features_known: bool) -> bool {
    &&& names(env.flags@) == (if host.unix { seq!["unix"@] } else { Seq::<Seq<char>>::empty() }) + (if host.windows {
        seq!["windows"@]
    } else {
        Seq::<Seq<char>>::empty()
    })
    &&& predicate::lookup_key(env.key_values@, "target_os"@) == Some(host.os@)
    &&& predicate::lookup_key(env.key_values@, "target_arch"@) == Some(host.arch@)
    &&& predicate::lookup_key(env.key_values@, "target_family"@) == Some(if host.unix { "unix"@ } else { "windows"@ })
    &&& forall|x: Seq<char>| #![trigger names(env.closed_keys@).contains(x)] names(env.closed_keys@).contains(x) <==> (x == "target_os"@ || x == "target_arch"@
        || x == "target_family"@ || decidable_flags().contains(x) || (features_known && x == "feature"@))
}

/// What is known about the host, with the standard keys marked fully enumerated.
pub fn host_env(host: &Host) -> (r: CfgEnv)
    ensures
        r.features@.len() == 0,
        describes_host(r, *host, false),
{
    let mut flags: Vec<String> = Vec::new();
    if host.unix {
        flags.push(string_of(chars_of("unix").as_slice()));
    }
    if host.windows {
        flags.push(string_of(chars_of("windows").as_slice()));
    }
    let family = if host.unix { "unix" } else { "windows" };
    let known = vec![
        string_of(chars_of("unix").as_slice()),
        string_of(chars_of("windows").as_slice()),
        string_of(chars_of("test").as_slice()),
        string_of(chars_of("doc").as_slice()),
        string_of(chars_of("doctest").as_slice()),
        string_of(chars_of("debug_assertions").as_slice()),
    ];
    assert(names(known@) =~= decidable_flags());
    proof {
        reveal_strlit("target_os");
        reveal_strlit("target_arch");
        reveal_strlit("target_family");
        reveal_strlit("feature");
    }
    let e0 = CfgEnv::new();
    let e1 = e0.with_key("target_os", host.os.as_str());
    let e2 = e1.with_key("target_arch", host.arch.as_str());
    let e3 = e2.with_key("target_family", family);
    let e4 = e3.with_flags(flags);
    let env = e4.with_known_flags(known);
    proof {
        assert("target_os"@[7] != "target_arch"@[7]);
        assert("target_os"@.len() != "target_family"@.len());
        assert("target_arch"@.len() != "target_family"@.len());
        assert(predicate::lookup_key(e2.key_values@, "target_os"@) == Some(host.os@));
        assert(predicate::lookup_key(e3.key_values@, "target_os"@) == Some(host.os@));
        assert(predicate::lookup_key(e3.key_values@, "target_arch"@) == Some(host.arch@));
        assert forall|x: Seq<char>| names(env.closed_keys@).contains(x) <==> (x == "target_os"@ || x == "target_arch"@
            || x == "target_family"@ || decidable_flags().contains(x)) by {
            assert(names(env.closed_keys@).contains(x) <==> (names(e4.closed_keys@).contains(x) || names(known@).contains(x)));
            assert(names(e4.closed_keys@).contains(x) <==> (names(e3.closed_keys@).contains(x) || names(e4.flags@).contains(x)));
            if names(e4.flags@).contains(x) {
                assert(x == "unix"@ || x == "windows"@);
                assert(decidable_flags()[0] == "unix"@);
                assert(decidable_flags()[1] == "windows"@);
                assert(decidable_flags().contains(x));
            }
            assert(names(e3.closed_keys@).contains(x) <==> (names(e2.closed_keys@).contains(x) || x == "target_family"@));
            assert(names(e2.closed_keys@).contains(x) <==> (names(e1.closed_keys@).contains(x) || x == "target_arch"@));
            assert(names(e1.closed_keys@).contains(x) <==> (names(e0.closed_keys@).contains(x) || x == "target_os"@));
            assert(names(e0.closed_keys@).len() == 0);
        }
    }
    proof {
        assert(names(env.flags@) =~= (if host.unix { seq!["unix"@] } else { Seq::<Seq<char>>::empty() }) + (
        if host.windows {
            seq!["windows"@]
        } else {
            Seq::<Seq<char>>::empty()
        }));
    }
    env
}

impl Configuration {
    /// A configuration that knows only the host, for a package with no readable manifest.
    /// Its name says so rather than borrowing `default` for choices nobody resolved.
    pub fn unconfigured(host: &Host) -> (r: Self)
        ensures
            r.name@ == "unconfigured"@ + " @ "@ + triple_of(*host),
            r.env.features@.len() == 0,
            describes_host(r.env, *host, false),
            r.target is None,
            !r.manifest_known,
    {
        let mut name = String::new();
        push_str(&mut name, UNCONFIGURED);
        push_str(&mut name, " @ ");
        let triple = host_triple(host);
        push_str(&mut name, triple.as_str());
        let env = host_env(host);
        Configuration { name, env, target: None, manifest_known: false }
    }

    /// A named configuration over an explicit feature set.
    pub fn named(name: &str, host: &Host, features: Vec<String>) -> (r: Self)
        ensures
            r.name@ == name@ + " @ "@ + triple_of(*host),
            r.env.features@ == features@,
            describes_host(r.env, *host, true),
            r.target is None,
            r.manifest_known,
    {
        let mut full = String::new();
        push_str(&mut full, name);
        push_str(&mut full, " @ ");
        let triple = host_triple(host);
        push_str(&mut full, triple.as_str());
        let base = host_env(host);
        let env = base.with_features(features);
        proof {
            assert forall|x: Seq<char>| names(env.closed_keys@).contains(x) <==> (x == "target_os"@ || x == "target_arch"@
                || x == "target_family"@ || decidable_flags().contains(x) || x == "feature"@) by {
                assert(names(env.closed_keys@).contains(x) <==> (names(base.closed_keys@).contains(x) || x == "feature"@));
                assert(names(base.closed_keys@).contains(x) <==> (x == "target_os"@ || x == "target_arch"@
                    || x == "target_family"@ || decidable_flags().contains(x)));
            }
        }
        Configuration { name: full, env, target: None, manifest_known: true }
    }

    /// This configuration built for a named target, which decides `test` and friends.
    pub fn for_target(self, target: &str) -> (r: Self)
        ensures
            r.name == self.name,
            r.manifest_known == self.manifest_known,
            r.env.features == self.env.features,
            r.env.key_values == self.env.key_values,
            r.env.closed_keys == self.env.closed_keys,
            r.target matches Some(t) && t@ == target@,
            forall|x: Seq<char>| #![trigger names(r.env.flags@).contains(x)] names(r.env.flags@).contains(x) <==> (names(self.env.flags@).contains(x) || (x
                == "test"@ && (target@ == "test"@ || target@ == "bench"@))),
    {
        let mut env = self.env;
        if str_eq(target, "test") || str_eq(target, "bench") {
            let mut flags = env.flags;
            predicate::add_name(&mut flags, "test");
            env = CfgEnv { flags, ..env };
        }
        Configuration { name: self.name, env, target: Some(string_of(chars_of(target).as_slice())), manifest_known: self.manifest_known }
    }

    /// Whether the `variation` lens can claim completeness under this configuration.
    pub fn variation_is_complete(&self) -> (r: bool)
        ensures
            r == self.manifest_known,
    {
        self.manifest_known
    }
}

/// Whether `f` is a `cfg` gate: a variation facet of subtype `cfg` carrying its
/// predicate text.
pub open spec fn is_gate(f: Facet) -> bool {
    f.lens == Lens::Variation && f.subtype.0@ == "cfg"@ && f.detail is Some
}

/// What one gate's text says under `env`: its predicate's truth, or unknown when the
/// text is not a predicate this parser reads — unreadable is not false.
pub open spec fn gate_truth(env: CfgEnv, text: Seq<char>) -> Truth {
    match predicate_of(text) {
        Ok(p) => truth_of(env, p),
        Err(_) => Truth::Unknown,
    }
}

/// The verdicts of a node's gates, in order.
pub open spec fn gate_verdicts(env: CfgEnv, facets: Seq<Facet>) -> Seq<Truth> {
    facets.filter(|f: Facet| is_gate(f)).map_values(|f: Facet| gate_truth(env, f.detail->0@))
}

/// A node's membership: what it inherits when its own gates all hold, inactive when one
/// fails, indeterminate when none fails but one cannot be decided. An inactive ancestor
/// settles everything beneath it, and a node the index does not hold keeps what it
/// inherits.
pub open spec fn membership_of(v: IndexView, id: SeamId, inherited: ConfigMembership, env: CfgEnv) -> ConfigMembership {
    if inherited == ConfigMembership::Inactive {
        ConfigMembership::Inactive
    } else if !v.nodes.contains_key(id) {
        inherited
    } else {
        match kleene_all(gate_verdicts(env, v.nodes[id].facets@)) {
            Truth::True => inherited,
            Truth::False => ConfigMembership::Inactive,
            Truth::Unknown => ConfigMembership::Indeterminate,
        }
    }
}

/// Whether `after` differs from `before` in memberships and rollups alone.
pub open spec fn memberships_only(after: IndexView, before: IndexView) -> bool {
    &&& after.nodes.dom() == before.nodes.dom()
    &&& forall|k: SeamId| #![trigger after.nodes[k]] after.nodes.contains_key(k) ==> {
        let a = after.nodes[k];
        let b = before.nodes[k];
        &&& a.id == b.id
        &&& a.kind == b.kind
        &&& a.name == b.name
        &&& a.detail == b.detail
        &&& a.location == b.location
        &&& a.parent == b.parent
        &&& a.children == b.children
        &&& a.facets == b.facets
        &&& a.visibility == b.visibility
        &&& a.provisional == b.provisional
    }
    &&& after.paths == before.paths
    &&& after.roots == before.roots
    &&& after.files == before.files
    &&& after.attribution == before.attribution
    &&& after.edges == before.edges
    &&& after.unresolved == before.unresolved
    &&& after.truncated == before.truncated
}

/// Combine a node's own gates with what it inherits from its ancestors.
pub fn resolve_membership(index: &SeamIndex, id: SeamId, inherited: ConfigMembership, configuration: &Configuration) -> (r: ConfigMembership)
    requires
        index.wf(),
    ensures
        r == membership_of(index@, id, inherited, configuration.env),
{
    if inherited == ConfigMembership::Inactive {
        return ConfigMembership::Inactive;
    }
    let node = match index.node(id) {
        Some(n) => n,
        None => return inherited,
    };
    let ghost env = configuration.env;
    let ghost pred = |f: Facet| is_gate(f);
    let ghost verdict = |f: Facet| gate_truth(env, f.detail->0@);
    let mut verdicts: Vec<Truth> = Vec::new();
    let mut i: usize = 0;
    while i < node.facets.len()
        invariant
            i <= node.facets@.len(),
            pred == (|f: Facet| is_gate(f)),
            verdict == (|f: Facet| gate_truth(env, f.detail->0@)),
            env == configuration.env,
            verdicts@ == node.facets@.subrange(0, i as int).filter(pred).map_values(verdict),
        decreases node.facets.len() - i,
    {
        proof {
            let pre = node.facets@.subrange(0, i as int);
            assert(node.facets@.subrange(0, i + 1) =~= pre.push(node.facets@[i as int]));
            pre.lemma_filter_push(node.facets@[i as int], pred);
        }
        let facet = &node.facets[i];
        if facet.lens == Lens::Variation && str_eq(facet.subtype.0, "cfg") {
            match &facet.detail {
                Some(text) => {
                    let truth = match predicate::parse(text.as_str()) {
                        Ok(parsed) => configuration.env.eval(&parsed),
                        Err(_) => Truth::Unknown,
                    };
                    let ghost v0 = verdicts@;
                    verdicts.push(truth);
                    proof {
                        let pre = node.facets@.subrange(0, i as int);
                        assert(pred(node.facets@[i as int]));
                        assert(verdicts@ =~= pre.filter(pred).push(node.facets@[i as int]).map_values(verdict));
                    }
                },
                None => {},
            }
        }
        i = i + 1;
    }
    proof {
        assert(node.facets@.subrange(0, node.facets@.len() as int) =~= node.facets@);
        assert(verdicts@ == gate_verdicts(env, node.facets@));
    }
    match Truth::all(verdicts.as_slice()) {
        Truth::True => inherited,
        Truth::False => ConfigMembership::Inactive,
        Truth::Unknown => ConfigMembership::Indeterminate,
    }
}

/// Settle `id`, then its children under what it settled to, descending at most `fuel`
/// levels.
fn apply_subtree(index: &mut SeamIndex, id: SeamId, inherited: ConfigMembership, configuration: &Configuration, fuel: usize)
    requires
        old(index).wf(),
    ensures
        final(index).wf(),
        memberships_only(final(index)@, old(index)@),
        forall|k: SeamId| #![trigger final(index)@.nodes[k]] final(index)@.nodes.contains_key(k) && !preorder(old(index)@.nodes, id, fuel as nat).contains(k)
            ==> final(index)@.nodes[k].membership == old(index)@.nodes[k].membership,
        fuel > 0 && old(index)@.nodes.contains_key(id) && !preorder_all(
            old(index)@.nodes,
            old(index)@.nodes[id].children@,
            (fuel - 1) as nat,
        ).contains(id) ==> final(index)@.nodes[id].membership == membership_of(old(index)@, id, inherited, configuration.env),
    decreases fuel,
{
    if fuel == 0 {
        return;
    }
    let ghost v0 = index@;
    let membership = resolve_membership(index, id, inherited, configuration);
    index.set_membership(id, membership);
    let ghost mid = index@;
    proof {
        assert(mid.nodes.dom() =~= v0.nodes.dom());
        assert forall|k: SeamId| #![trigger mid.nodes[k]] mid.nodes.contains_key(k) implies {
            let a = mid.nodes[k];
            let b = v0.nodes[k];
            &&& a.id == b.id
            &&& a.kind == b.kind
            &&& a.name == b.name
            &&& a.detail == b.detail
            &&& a.location == b.location
            &&& a.parent == b.parent
            &&& a.children == b.children
            &&& a.facets == b.facets
            &&& a.visibility == b.visibility
            &&& a.provisional == b.provisional
        } by {
            if k == id {
            }
        }
        assert(memberships_only(mid, v0));
    }
    let kids = index.children(id);
    let ghost fuel1 = (fuel - 1) as nat;
    let mut c: usize = 0;
    proof {
        assert(kids@.take(0) =~= Seq::<SeamId>::empty());
    }
    while c < kids.len()
        invariant
            index.wf(),
            fuel > 0,
            fuel1 == (fuel - 1) as nat,
            c <= kids@.len(),
            kids@ == (if v0.nodes.contains_key(id) { v0.nodes[id].children@ } else { Seq::<SeamId>::empty() }),
            memberships_only(mid, v0),
            memberships_only(index@, v0),
            forall|k: SeamId| #![trigger index@.nodes[k]] index@.nodes.contains_key(k) && !preorder_all(v0.nodes, kids@.take(c as int), fuel1).contains(k)
                ==> index@.nodes[k].membership == mid.nodes[k].membership,
        decreases kids.len() - c,
    {
        let ghost cur = index@;
        apply_subtree(index, kids[c], membership, configuration, fuel - 1);
        proof {
            assert(same_shape(cur.nodes, v0.nodes)) by {
                assert forall|k: SeamId| #[trigger] cur.nodes.contains_key(k) implies cur.nodes[k].children == v0.nodes[k].children by {
                    assert(cur.nodes[k].children == v0.nodes[k].children);
                }
            }
            lemma_preorder_shape(cur.nodes, v0.nodes, kids@[c as int], fuel1);
            lemma_preorder_all_take(v0.nodes, kids@, c as int, fuel1);
            assert forall|k: SeamId| #![trigger index@.nodes[k]] index@.nodes.contains_key(k) && !preorder_all(v0.nodes, kids@.take(c + 1), fuel1).contains(k)
                implies index@.nodes[k].membership == mid.nodes[k].membership by {
                let whole = preorder_all(v0.nodes, kids@.take(c as int), fuel1) + preorder(v0.nodes, kids@[c as int], fuel1);
                if preorder_all(v0.nodes, kids@.take(c as int), fuel1).contains(k) {
                    let x = choose|x: int| 0 <= x < preorder_all(v0.nodes, kids@.take(c as int), fuel1).len() && preorder_all(v0.nodes, kids@.take(c as int), fuel1)[x] == k;
                    assert(whole[x] == k);
                }
                if preorder(v0.nodes, kids@[c as int], fuel1).contains(k) {
                    let x = choose|x: int| 0 <= x < preorder(v0.nodes, kids@[c as int], fuel1).len() && preorder(v0.nodes, kids@[c as int], fuel1)[x] == k;
                    assert(whole[preorder_all(v0.nodes, kids@.take(c as int), fuel1).len() + x] == k);
                }
            }
        }
        c = c + 1;
    }
    proof {
        assert(kids@.take(kids@.len() as int) =~= kids@);
        assert forall|k: SeamId| #![trigger index@.nodes[k]] index@.nodes.contains_key(k) && !preorder(v0.nodes, id, fuel as nat).contains(k)
            implies index@.nodes[k].membership == v0.nodes[k].membership by {
            if v0.nodes.contains_key(id) {
                let tail = preorder_all(v0.nodes, kids@, fuel1);
                assert(preorder(v0.nodes, id, fuel as nat) == seq![id] + tail);
                if tail.contains(k) {
                    let x = choose|x: int| 0 <= x < tail.len() && tail[x] == k;
                    assert((seq![id] + tail)[x + 1] == k);
                }
                if k == id {
                    assert((seq![id] + tail)[0] == k);
                }
            } else {
                assert(kids@.len() == 0);
                assert(preorder_all(v0.nodes, kids@, fuel1) =~= Seq::<SeamId>::empty());
            }
        }
    }
}

/// Whether `id` is held and not inside its own subtree, so that settling it is not
/// overwritten by settling its descendants.
pub open spec fn settles_once(v: IndexView, id: SeamId) -> bool {
    &&& v.nodes.contains_key(id)
    &&& !preorder_all(v.nodes, v.nodes[id].children@, (v.nodes.dom().len() - 1) as nat).contains(id)
}

/// Whether no walk from one of `ids` after position `j` and before `upto` reaches
/// `ids[j]`.
pub open spec fn unreached_until(v: IndexView, ids: Seq<SeamId>, j: int, upto: int) -> bool {
    forall|t: int| j < t < upto ==> !preorder(v.nodes, #[trigger] ids[t], v.nodes.dom().len()).contains(ids[j])
}

/// Evaluate every node's gates under `configuration`, then recompute rollups.
///
/// Membership is three-valued and inherited: a node inside an inactive module is itself
/// inactive, and a node whose own gate is undecidable is indeterminate unless an
/// ancestor already settled it as inactive. Nothing is removed. Each root ends with the
/// membership its own gates give it, and with settled counts, unless a later root's
/// walk reaches it.
pub fn apply(index: &mut SeamIndex, configuration: &Configuration)
    requires
        old(index).wf(),
    ensures
        final(index).wf(),
        memberships_only(final(index)@, old(index)@),
        forall|j: int| #![trigger old(index)@.roots[j]]
            0 <= j < old(index)@.roots.len() && settles_once(old(index)@, old(index)@.roots[j])
                && unreached_until(old(index)@, old(index)@.roots, j, old(index)@.roots.len() as int)
                ==> final(index)@.nodes[old(index)@.roots[j]].membership
                    == membership_of(old(index)@, old(index)@.roots[j], ConfigMembership::Active, configuration.env),
        forall|j: int| #![trigger old(index)@.roots[j]]
            0 <= j < old(index)@.roots.len() && crate::index::settles(old(index)@.nodes, old(index)@.roots[j])
                && crate::index::apart_until(old(index)@, old(index)@.roots, j, old(index)@.roots.len() as int)
                ==> crate::index::rollup_settled(final(index)@.nodes, old(index)@.roots[j]),
{
    let ghost v0 = index@;
    let roots = crate::index::map_ids(index.roots(), &crate::id::Remap::new());
    let fuel = index.len();
    proof {
        assert(roots@ =~= v0.roots);
        index.lemma_held_counts();
    }
    let mut i: usize = 0;
    while i < roots.len()
        invariant
            index.wf(),
            v0 == old(index)@,
            forall|r: SeamId| v0.nodes.contains_key(r) ==> fuel > 0,
            roots@ == v0.roots,
            fuel == v0.nodes.dom().len(),
            i <= roots@.len(),
            memberships_only(index@, old(index)@),
            forall|j: int| #![trigger v0.roots[j]]
                0 <= j < i && settles_once(v0, v0.roots[j]) && unreached_until(v0, v0.roots, j, i as int)
                    ==> index@.nodes[v0.roots[j]].membership == membership_of(v0, v0.roots[j], ConfigMembership::Active, configuration.env),
        decreases roots.len() - i,
    {
        let ghost cur = index@;
        apply_subtree(index, roots[i], ConfigMembership::Active, configuration, fuel);
        proof {
            assert(same_shape(cur.nodes, v0.nodes)) by {
                assert forall|k: SeamId| #[trigger] cur.nodes.contains_key(k) implies cur.nodes[k].children == v0.nodes[k].children by {
                    assert(cur.nodes[k].children == v0.nodes[k].children);
                }
            }
            lemma_preorder_shape(cur.nodes, v0.nodes, v0.roots[i as int], fuel as nat);
            assert forall|j: int| #![trigger v0.roots[j]]
                0 <= j < i + 1 && settles_once(v0, v0.roots[j]) && unreached_until(v0, v0.roots, j, i + 1)
                    implies index@.nodes[v0.roots[j]].membership == membership_of(v0, v0.roots[j], ConfigMembership::Active, configuration.env) by {
                let r = v0.roots[j];
                if j < i {
                    assert(unreached_until(v0, v0.roots, j, i as int));
                    assert(!preorder(v0.nodes, v0.roots[i as int], v0.nodes.dom().len()).contains(r));
                    assert(index@.nodes.contains_key(r));
                } else {
                    assert(cur.nodes[r].children == v0.nodes[r].children);
                    crate::index::lemma_preorder_all_shape(cur.nodes, v0.nodes, v0.nodes[r].children@, (fuel - 1) as nat);
                    assert(cur.nodes[r].facets == v0.nodes[r].facets);
                    assert(membership_of(cur, r, ConfigMembership::Active, configuration.env)
                        == membership_of(v0, r, ConfigMembership::Active, configuration.env));
                }
            }
        }
        i = i + 1;
    }
    let ghost mid = index@;
    index.recompute_rollups();
    proof {
        assert(same_shape(mid.nodes, v0.nodes)) by {
            assert forall|k: SeamId| #[trigger] mid.nodes.contains_key(k) implies mid.nodes[k].children == v0.nodes[k].children by {
                assert(mid.nodes[k].children == v0.nodes[k].children);
            }
        }
        assert forall|j: int| #![trigger v0.roots[j]]
            0 <= j < v0.roots.len() && crate::index::settles(v0.nodes, v0.roots[j])
                && crate::index::apart_until(v0, v0.roots, j, v0.roots.len() as int)
                implies crate::index::rollup_settled(index@.nodes, v0.roots[j]) by {
            let r = v0.roots[j];
            assert(mid.nodes[r].children == v0.nodes[r].children);
            assert(crate::index::rollup_inputs(mid.nodes, r) == crate::index::rollup_inputs(v0.nodes, r));
            assert forall|t: int| j < t < mid.roots.len() implies crate::index::apart(preorder(mid.nodes, #[trigger] mid.roots[t], mid.nodes.dom().len()), crate::index::rollup_inputs(mid.nodes, mid.roots[j])) by {
                lemma_preorder_shape(mid.nodes, v0.nodes, v0.roots[t], v0.nodes.dom().len());
                assert(crate::index::apart(preorder(v0.nodes, v0.roots[t], v0.nodes.dom().len()), crate::index::rollup_inputs(v0.nodes, v0.roots[j])));
            }
            assert(crate::index::apart_until(mid, mid.roots, j, mid.roots.len() as int));
        }
        assert forall|k: SeamId| #[trigger] index@.nodes.contains_key(k) implies index@.nodes[k].membership == mid.nodes[k].membership by {
            assert(crate::index::same_but_rollups(index@.nodes[k], mid.nodes[k]));
        }
    }
}

/// An excluded ancestor excludes everything beneath it, whatever its own gates say.
pub proof fn lemma_exclusion_is_inherited(v: IndexView, id: SeamId, env: CfgEnv)
    ensures
        membership_of(v, id, ConfigMembership::Inactive, env) == ConfigMembership::Inactive,
{
}

/// A gate that cannot be decided makes a node indeterminate, never inactive, unless
/// another of its gates fails or an ancestor is already inactive.
pub proof fn lemma_undecidable_is_not_excluded(v: IndexView, id: SeamId, inherited: ConfigMembership, env: CfgEnv)
    requires
        inherited != ConfigMembership::Inactive,
        v.nodes.contains_key(id),
        !gate_verdicts(env, v.nodes[id].facets@).contains(Truth::False),
        gate_verdicts(env, v.nodes[id].facets@).contains(Truth::Unknown),
    ensures
        membership_of(v, id, inherited, env) == ConfigMembership::Indeterminate,
{
}

/// A gate that decidably fails excludes its node: a held node that is not already
/// excluded, one of whose gates evaluates to false, is inactive.
pub proof fn lemma_failing_gate_excludes(v: IndexView, id: SeamId, inherited: ConfigMembership, env: CfgEnv)
    requires
        inherited != ConfigMembership::Inactive,
        v.nodes.contains_key(id),
        gate_verdicts(env, v.nodes[id].facets@).contains(Truth::False),
    ensures
        membership_of(v, id, inherited, env) == ConfigMembership::Inactive,
{
}

/// A node whose gates all hold keeps exactly what it inherits.
pub proof fn lemma_holding_gates_inherit(v: IndexView, id: SeamId, inherited: ConfigMembership, env: CfgEnv)
    requires
        v.nodes.contains_key(id),
        !gate_verdicts(env, v.nodes[id].facets@).contains(Truth::False),
        !gate_verdicts(env, v.nodes[id].facets@).contains(Truth::Unknown),
    ensures
        membership_of(v, id, inherited, env) == inherited,
{
}

} // verus!
