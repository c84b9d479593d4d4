//! Parsing and evaluating `cfg` predicates, with a third answer.
//!
//! A predicate is not simply true or false here. A key this index knows nothing about is
//! neither, and collapsing it into "false" would quietly delete code from the view while
//! claiming completeness. So evaluation is three-valued, and the unknown answer
//! propagates through `all`/`any`/`not` by Kleene logic.

use vstd::prelude::*;
use crate::text::chars_of;
use crate::text::is_alphanumeric;
use crate::text::is_whitespace;
use crate::text::string_of_range;
use crate::text::unicode_alphanumeric;
use crate::text::unicode_whitespace;

verus! {

/// Errors parsing a `cfg` predicate.
#[derive(Debug, Clone, PartialEq, Eq)]
pub enum CfgError {
    /// The predicate text was empty.
    Empty,
    /// A `(` was opened and never closed.
    Unclosed,
    /// Text remained after a complete predicate.
    Trailing(String),
    /// A malformed term.
    Malformed(String),
}

/// The value a [`CfgError`] carries, for contracts.
pub enum CfgErrorView {
    /// See [`CfgError::Empty`].
    Empty,
    /// See [`CfgError::Unclosed`].
    Unclosed,
    /// See [`CfgError::Trailing`].
    Trailing(Seq<char>),
    /// See [`CfgError::Malformed`].
    Malformed(Seq<char>),
}

impl CfgError {
    /// The value this error carries.
    pub open spec fn spec_view(self) -> CfgErrorView {
        match self {
            CfgError::Empty => CfgErrorView::Empty,
            CfgError::Unclosed => CfgErrorView::Unclosed,
            CfgError::Trailing(s) => CfgErrorView::Trailing(s@),
            CfgError::Malformed(s) => CfgErrorView::Malformed(s@),
        }
    }
}

/// A parsed `cfg` predicate.
#[derive(Debug, PartialEq, Eq)]
pub enum CfgPredicate {
    /// `all(…)` — every operand must hold.
    All(Vec<CfgPredicate>),
    /// `any(…)` — at least one operand must hold.
    Any(Vec<CfgPredicate>),
    /// `not(…)` — the operand must not hold.
    Not(Box<CfgPredicate>),
    /// A bare flag such as `unix`, `test`, or `doc`.
    Flag(String),
    /// A `key = "value"` pair such as `feature = "view"`.
    KeyValue {
        /// The configuration key.
        key: String,
        /// The value, with quotes stripped.
        value: String,
    },
}

/// What a [`CfgPredicate`] is, as a value.
pub enum PredView {
    /// See [`CfgPredicate::All`].
    All(Seq<PredView>),
    /// See [`CfgPredicate::Any`].
    Any(Seq<PredView>),
    /// See [`CfgPredicate::Not`].
    Not(Box<PredView>),
    /// See [`CfgPredicate::Flag`].
    Flag(Seq<char>),
    /// See [`CfgPredicate::KeyValue`].
    KeyValue(Seq<char>, Seq<char>),
}

/// The views of `ops[i..]`.
pub open spec fn views_from(ops: Vec<CfgPredicate>, i: nat) -> Seq<PredView>
    decreases ops, ops@.len() - i, 0nat,
    via views_from_decreases
{
    if i < ops@.len() {
        seq![pred_view(ops@[i as int])] + views_from(ops, i + 1)
    } else {
        Seq::empty()
    }
}

#[via_fn]
proof fn views_from_decreases(ops: Vec<CfgPredicate>, i: nat) {
    if i < ops@.len() {
        assert(decreases_to!(ops => ops@[i as int])) by {
            broadcast use vstd::std_specs::vec::axiom_vec_index_decreases;
            assert(decreases_to!(ops => ops[i as int]));
        }
    }
}

/// What `p` is, as a value.
pub open spec fn pred_view(p: CfgPredicate) -> PredView
    decreases p, 0nat, 1nat,
{
    match p {
        CfgPredicate::All(ops) => PredView::All(views_from(ops, 0)),
        CfgPredicate::Any(ops) => PredView::Any(views_from(ops, 0)),
        CfgPredicate::Not(op) => PredView::Not(Box::new(pred_view(*op))),
        CfgPredicate::Flag(name) => PredView::Flag(name@),
        CfgPredicate::KeyValue { key, value } => PredView::KeyValue(key@, value@),
    }
}


/// A three-valued truth, because "I do not know" is a distinct and useful answer.
#[derive(Debug, Clone, Copy, PartialEq, Eq, Structural, Hash)]
pub enum Truth {
    /// The predicate holds.
    True,
    /// The predicate does not hold.
    False,
    /// The predicate could not be decided from what this index knows.
    Unknown,
}

/// Kleene negation.
pub open spec fn kleene_not(t: Truth) -> Truth {
    match t {
        Truth::True => Truth::False,
        Truth::False => Truth::True,
        Truth::Unknown => Truth::Unknown,
    }
}

/// Kleene conjunction: false if any operand is, else unknown if any is, else true.
pub open spec fn kleene_all(s: Seq<Truth>) -> Truth {
    if s.contains(Truth::False) {
        Truth::False
    } else if s.contains(Truth::Unknown) {
        Truth::Unknown
    } else {
        Truth::True
    }
}

/// Kleene disjunction: true if any operand is, else unknown if any is, else false.
pub open spec fn kleene_any(s: Seq<Truth>) -> Truth {
    if s.contains(Truth::True) {
        Truth::True
    } else if s.contains(Truth::Unknown) {
        Truth::Unknown
    } else {
        Truth::False
    }
}

impl Truth {
    /// Kleene negation: unknown stays unknown.
    ///
    /// Named `negate` rather than `not` so it is never mistaken for `std::ops::Not`, whose
    /// two-valued contract this deliberately does not satisfy.
    pub fn negate(self) -> (r: Self)
        ensures
            r == kleene_not(self),
    {
        match self {
            Truth::True => Truth::False,
            Truth::False => Truth::True,
            Truth::Unknown => Truth::Unknown,
        }
    }

    /// Kleene conjunction over a sequence. One false operand settles it, even if others
    /// are unknown.
    pub fn all(values: &[Truth]) -> (r: Self)
        ensures
            r == kleene_all(values@),
    {
        let mut result = Truth::True;
        let mut i: usize = 0;
        while i < values.len()
            invariant
                i <= values@.len(),
                !values@.subrange(0, i as int).contains(Truth::False),
                result == (if values@.subrange(0, i as int).contains(Truth::Unknown) {
                    Truth::Unknown
                } else {
                    Truth::True
                }),
            decreases values.len() - i,
        {
            let ghost pre = values@.subrange(0, i as int);
            assert(values@.subrange(0, i + 1) =~= pre.push(values@[i as int]));
            match values[i] {
                Truth::False => {
                    assert(values@[i as int] == Truth::False);
                    return Truth::False;
                },
                Truth::Unknown => {
                    assert(values@.subrange(0, i + 1)[i as int] == Truth::Unknown);
                    result = Truth::Unknown;
                },
                Truth::True => {},
            }
            i = i + 1;
        }
        assert(values@.subrange(0, values@.len() as int) =~= values@);
        result
    }

    /// Kleene disjunction over a sequence. One true operand settles it.
    pub fn any(values: &[Truth]) -> (r: Self)
        ensures
            r == kleene_any(values@),
    {
        let mut result = Truth::False;
        let mut i: usize = 0;
        while i < values.len()
            invariant
                i <= values@.len(),
                !values@.subrange(0, i as int).contains(Truth::True),
                result == (if values@.subrange(0, i as int).contains(Truth::Unknown) {
                    Truth::Unknown
                } else {
                    Truth::False
                }),
            decreases values.len() - i,
        {
            let ghost pre = values@.subrange(0, i as int);
            assert(values@.subrange(0, i + 1) =~= pre.push(values@[i as int]));
            match values[i] {
                Truth::True => {
                    assert(values@[i as int] == Truth::True);
                    return Truth::True;
                },
                Truth::Unknown => {
                    assert(values@.subrange(0, i + 1)[i as int] == Truth::Unknown);
                    result = Truth::Unknown;
                },
                Truth::False => {},
            }
            i = i + 1;
        }
        assert(values@.subrange(0, values@.len() as int) =~= values@);
        result
    }
}

/// Negation undoes itself.
pub proof fn lemma_negate_involutive(t: Truth)
    ensures
        kleene_not(kleene_not(t)) == t,
{
}

/// De Morgan, three-valued: negating a conjunction is the disjunction of the negations.
pub proof fn lemma_de_morgan(s: Seq<Truth>)
    ensures
        kleene_not(kleene_all(s)) == kleene_any(s.map_values(|t: Truth| kleene_not(t))),
        kleene_not(kleene_any(s)) == kleene_all(s.map_values(|t: Truth| kleene_not(t))),
{
    let n = s.map_values(|t: Truth| kleene_not(t));
    assert forall|t: Truth| s.contains(t) <==> n.contains(kleene_not(t)) by {
        if s.contains(t) {
            let i = choose|i: int| 0 <= i < s.len() && s[i] == t;
            assert(n[i] == kleene_not(t));
        }
        if n.contains(kleene_not(t)) {
            let i = choose|i: int| 0 <= i < n.len() && n[i] == kleene_not(t);
            assert(kleene_not(s[i]) == kleene_not(t));
        }
    }
    assert(s.contains(Truth::True) <==> n.contains(Truth::False));
    assert(s.contains(Truth::False) <==> n.contains(Truth::True));
    assert(s.contains(Truth::Unknown) <==> n.contains(Truth::Unknown));
}

/// A single false operand closes a conjunction whatever else is uncertain, and a single
/// true operand opens a disjunction; the empty conjunction holds and the empty
/// disjunction does not.
pub proof fn lemma_kleene_settles(s: Seq<Truth>)
    ensures
        s.contains(Truth::False) ==> kleene_all(s) == Truth::False,
        s.contains(Truth::True) ==> kleene_any(s) == Truth::True,
        kleene_all(Seq::<Truth>::empty()) == Truth::True,
        kleene_any(Seq::<Truth>::empty()) == Truth::False,
        (forall|i: int| 0 <= i < s.len() ==> #[trigger] s[i] == Truth::True) ==> kleene_all(s) == Truth::True,
{
    assert(!Seq::<Truth>::empty().contains(Truth::False));
    assert(!Seq::<Truth>::empty().contains(Truth::True));
    assert(!Seq::<Truth>::empty().contains(Truth::Unknown));
}

/// The names a list of strings holds.
pub open spec fn names(v: Seq<String>) -> Seq<Seq<char>> {
    v.map_values(|s: String| s@)
}

/// The value recorded for `key` by the first entry naming it.
pub open spec fn lookup_key(entries: Seq<(String, String)>, key: Seq<char>) -> Option<Seq<char>>
    decreases entries.len(),
{
    if entries.len() == 0 {
        None
    } else if entries[0].0@ == key {
        Some(entries[0].1@)
    } else {
        lookup_key(entries.drop_first(), key)
    }
}

/// What is known about the compilation environment.
///
/// Anything absent from all three collections evaluates to [`Truth::Unknown`] rather than
/// false, which is what keeps an unrecognized `cfg` key from silently hiding code.
#[derive(Debug, Clone, Default, PartialEq, Eq)]
pub struct CfgEnv {
    /// Enabled Cargo features.
    pub features: Vec<String>,
    /// Bare flags that hold, such as `unix` or `test`.
    pub flags: Vec<String>,
    /// Keys whose value is known, such as `target_os`; the first entry for a key counts.
    pub key_values: Vec<(String, String)>,
    /// Keys that are known to be fully enumerated, so an unlisted value is genuinely
    /// false rather than unknown.
    pub closed_keys: Vec<String>,
}

/// What `p` evaluates to in `env`.
pub open spec fn truth_of(env: CfgEnv, p: PredView) -> Truth
    decreases p,
{
    match p {
        PredView::All(ops) => kleene_all(truths_of(env, ops)),
        PredView::Any(ops) => kleene_any(truths_of(env, ops)),
        PredView::Not(op) => kleene_not(truth_of(env, *op)),
        PredView::Flag(name) => if names(env.flags@).contains(name) {
            Truth::True
        } else if names(env.closed_keys@).contains(name) {
            Truth::False
        } else {
            Truth::Unknown
        },
        PredView::KeyValue(key, value) => if key == "feature"@ {
            if names(env.features@).contains(value) {
                Truth::True
            } else if names(env.closed_keys@).contains("feature"@) {
                Truth::False
            } else {
                Truth::Unknown
            }
        } else {
            match lookup_key(env.key_values@, key) {
                Some(known) => if known == value { Truth::True } else { Truth::False },
                None => if names(env.closed_keys@).contains(key) {
                    Truth::False
                } else {
                    Truth::Unknown
                },
            }
        },
    }
}

/// What each of `ops` evaluates to in `env`.
pub open spec fn truths_of(env: CfgEnv, ops: Seq<PredView>) -> Seq<Truth>
    decreases ops,
{
    if ops.len() == 0 {
        Seq::empty()
    } else {
        seq![truth_of(env, ops[0])] + truths_of(env, ops.subrange(1, ops.len() as int))
    }
}


/// Whether no `all()` or `any()` anywhere in `p` is empty: an empty conjunction holds
/// and an empty disjunction fails whatever the environment knows.
pub open spec fn no_empty_junction(p: PredView) -> bool
    decreases p,
{
    match p {
        PredView::All(ops) => ops.len() > 0 && forall|i: int| 0 <= i < ops.len() ==> no_empty_junction(#[trigger] ops[i]),
        PredView::Any(ops) => ops.len() > 0 && forall|i: int| 0 <= i < ops.len() ==> no_empty_junction(#[trigger] ops[i]),
        PredView::Not(op) => no_empty_junction(*op),
        _ => true,
    }
}

/// Whether `env` knows nothing: no feature, flag or key set, none enumerated.
pub open spec fn knows_nothing(env: CfgEnv) -> bool {
    &&& env.features@.len() == 0
    &&& env.flags@.len() == 0
    &&& env.key_values@.len() == 0
    &&& env.closed_keys@.len() == 0
}

/// An environment that knows nothing decides nothing: every predicate evaluates to
/// unknown, except through an empty `all()` (which holds) or `any()` (which fails).
pub proof fn lemma_knowing_nothing_decides_nothing(env: CfgEnv, p: PredView)
    requires
        knows_nothing(env),
        no_empty_junction(p),
    ensures
        truth_of(env, p) == Truth::Unknown,
    decreases p,
{
    match p {
        PredView::All(ops) => {
            lemma_all_unknown(env, ops);
        },
        PredView::Any(ops) => {
            lemma_all_unknown(env, ops);
        },
        PredView::Not(op) => {
            lemma_knowing_nothing_decides_nothing(env, *op);
        },
        PredView::Flag(name) => {
            assert(!names(env.flags@).contains(name));
            assert(!names(env.closed_keys@).contains(name));
        },
        PredView::KeyValue(key, value) => {
            assert(!names(env.features@).contains(value));
            assert(!names(env.closed_keys@).contains(key));
            assert(!names(env.closed_keys@).contains("feature"@));
        },
    }
}

/// Whether truth `a` is `b` or leaves it open.
pub open spec fn refines(a: Truth, b: Truth) -> bool {
    a == Truth::Unknown || a == b
}

/// Kleene conjunction and disjunction only settle further as their operands do.
proof fn lemma_junction_refines(a: Seq<Truth>, b: Seq<Truth>)
    requires
        a.len() == b.len(),
        forall|i: int| 0 <= i < a.len() ==> refines(#[trigger] a[i], b[i]),
    ensures
        refines(kleene_all(a), kleene_all(b)),
        refines(kleene_any(a), kleene_any(b)),
{
    if a.contains(Truth::False) {
        let i = choose|i: int| 0 <= i < a.len() && a[i] == Truth::False;
        assert(refines(a[i], b[i]));
        assert(b.contains(Truth::False));
    }
    if a.contains(Truth::True) {
        let i = choose|i: int| 0 <= i < a.len() && a[i] == Truth::True;
        assert(refines(a[i], b[i]));
        assert(b.contains(Truth::True));
    }
    if !a.contains(Truth::Unknown) {
        assert forall|i: int| 0 <= i < b.len() implies b[i] == a[i] by {
            assert(refines(a[i], b[i]));
            if a[i] == Truth::Unknown {
                assert(a.contains(Truth::Unknown));
            }
        }
        assert(a =~= b);
    }
}

/// An environment that knows nothing decides only what every environment decides: where
/// it settles a predicate, through an empty `all()` or `any()` somewhere inside it,
/// every other environment settles it the same way; everywhere else it leaves it
/// unknown.
pub proof fn lemma_knowing_nothing_decides_only_what_all_decide(empty: CfgEnv, env: CfgEnv, p: PredView)
    requires
        knows_nothing(empty),
    ensures
        refines(truth_of(empty, p), truth_of(env, p)),
    decreases p,
{
    match p {
        PredView::All(ops) => {
            lemma_operands_refine(empty, env, ops);
            lemma_truths_of(empty, ops);
            lemma_truths_of(env, ops);
            lemma_junction_refines(truths_of(empty, ops), truths_of(env, ops));
        },
        PredView::Any(ops) => {
            lemma_operands_refine(empty, env, ops);
            lemma_truths_of(empty, ops);
            lemma_truths_of(env, ops);
            lemma_junction_refines(truths_of(empty, ops), truths_of(env, ops));
        },
        PredView::Not(op) => {
            lemma_knowing_nothing_decides_only_what_all_decide(empty, env, *op);
        },
        PredView::Flag(name) => {
            assert(!names(empty.flags@).contains(name));
            assert(!names(empty.closed_keys@).contains(name));
        },
        PredView::KeyValue(key, value) => {
            assert(!names(empty.features@).contains(value));
            assert(!names(empty.closed_keys@).contains(key));
            assert(!names(empty.closed_keys@).contains("feature"@));
        },
    }
}

/// Each operand evaluates, where nothing is known, to a refinement of what it evaluates
/// to in `env`.
proof fn lemma_operands_refine(empty: CfgEnv, env: CfgEnv, ops: Seq<PredView>)
    requires
        knows_nothing(empty),
    ensures
        truths_of(empty, ops).len() == truths_of(env, ops).len(),
        forall|i: int| 0 <= i < ops.len() ==> refines(#[trigger] truths_of(empty, ops)[i], truths_of(env, ops)[i]),
    decreases ops,
{
    lemma_truths_of(empty, ops);
    lemma_truths_of(env, ops);
    assert forall|i: int| 0 <= i < ops.len() implies refines(#[trigger] truths_of(empty, ops)[i], truths_of(env, ops)[i]) by {
        lemma_knowing_nothing_decides_only_what_all_decide(empty, env, ops[i]);
    }
}

/// Each operand of a nonempty junction that knows nothing is unknown, and so is the
/// first.
proof fn lemma_all_unknown(env: CfgEnv, ops: Seq<PredView>)
    requires
        knows_nothing(env),
        ops.len() > 0,
        forall|i: int| 0 <= i < ops.len() ==> no_empty_junction(#[trigger] ops[i]),
    ensures
        truths_of(env, ops).contains(Truth::Unknown),
        !truths_of(env, ops).contains(Truth::True),
        !truths_of(env, ops).contains(Truth::False),
    decreases ops,
{
    lemma_knowing_nothing_decides_nothing(env, ops[0]);
    let t = truths_of(env, ops);
    assert(t[0] == Truth::Unknown);
    let rest = ops.subrange(1, ops.len() as int);
    if rest.len() > 0 {
        assert forall|i: int| 0 <= i < rest.len() implies no_empty_junction(#[trigger] rest[i]) by {
            assert(rest[i] == ops[i + 1]);
        }
        lemma_all_unknown(env, rest);
    } else {
        assert(truths_of(env, rest) =~= Seq::<Truth>::empty());
    }
    let tr = truths_of(env, rest);
    assert(t =~= seq![Truth::Unknown] + tr);
    assert(!t.contains(Truth::True)) by {
        if t.contains(Truth::True) {
            let i = choose|i: int| 0 <= i < t.len() && t[i] == Truth::True;
            if i > 0 {
                assert(tr[i - 1] == Truth::True);
            }
        }
    }
    assert(!t.contains(Truth::False)) by {
        if t.contains(Truth::False) {
            let i = choose|i: int| 0 <= i < t.len() && t[i] == Truth::False;
            if i > 0 {
                assert(tr[i - 1] == Truth::False);
            }
        }
    }
}

/// Evaluation is compositional: negation, conjunction and disjunction are Kleene's, a
/// flag holds when set, fails when enumerated and unset, and is unknown otherwise; a
/// key other than `feature` holds when set to the value, fails when set to another or
/// enumerated and unset, and is unknown otherwise.
pub proof fn lemma_eval_is_kleene(env: CfgEnv, p: PredView)
    ensures
        p matches PredView::Not(op) ==> truth_of(env, p) == kleene_not(truth_of(env, *op)),
        p matches PredView::All(ops) ==> truth_of(env, p) == kleene_all(truths_of(env, ops)),
        p matches PredView::Any(ops) ==> truth_of(env, p) == kleene_any(truths_of(env, ops)),
        p matches PredView::Flag(n) ==> truth_of(env, p) == if names(env.flags@).contains(n) {
            Truth::True
        } else if names(env.closed_keys@).contains(n) {
            Truth::False
        } else {
            Truth::Unknown
        },
        p matches PredView::KeyValue(k, v) ==> (k != "feature"@ ==> truth_of(env, p) == match lookup_key(env.key_values@, k) {
            Some(w) => if w == v { Truth::True } else { Truth::False },
            None => if names(env.closed_keys@).contains(k) { Truth::False } else { Truth::Unknown },
        }),
{
}

proof fn lemma_views_from(ops: Vec<CfgPredicate>, i: nat)
    requires
        i <= ops@.len(),
    ensures
        views_from(ops, i).len() == ops@.len() - i,
        forall|k: int| 0 <= k < ops@.len() - i ==> #[trigger] views_from(ops, i)[k] == pred_view(ops@[i + k]),
    decreases ops@.len() - i,
{
    if i < ops@.len() {
        lemma_views_from(ops, i + 1);
        assert forall|k: int| 0 <= k < ops@.len() - i implies #[trigger] views_from(ops, i)[k] == pred_view(ops@[i + k]) by {
            if k > 0 {
                assert(views_from(ops, i)[k] == views_from(ops, i + 1)[k - 1]);
            }
        }
    }
}

proof fn lemma_truths_of(env: CfgEnv, ops: Seq<PredView>)
    ensures
        truths_of(env, ops).len() == ops.len(),
        forall|k: int| 0 <= k < ops.len() ==> #[trigger] truths_of(env, ops)[k] == truth_of(env, ops[k]),
    decreases ops.len(),
{
    if ops.len() > 0 {
        let rest = ops.subrange(1, ops.len() as int);
        lemma_truths_of(env, rest);
        assert forall|k: int| 0 <= k < ops.len() implies #[trigger] truths_of(env, ops)[k] == truth_of(env, ops[k]) by {
            if k > 0 {
                assert(truths_of(env, ops)[k] == truths_of(env, rest)[k - 1]);
                assert(rest[k - 1] == ops[k]);
            }
        }
    }
}

/// Whether `list` holds a string equal to `name`.
pub fn holds_name(list: &Vec<String>, name: &str) -> (r: bool)
    ensures
        r == names(list@).contains(name@),
{
    let mut i: usize = 0;
    while i < list.len()
        invariant
            i <= list@.len(),
            forall|j: int| 0 <= j < i ==> list@[j]@ != name@,
        decreases list.len() - i,
    {
        if crate::text::str_eq(list[i].as_str(), name) {
            assert(names(list@)[i as int] == name@);
            return true;
        }
        i = i + 1;
    }
    assert forall|j: int| 0 <= j < names(list@).len() implies names(list@)[j] != name@ by {
        assert(names(list@)[j] == list@[j]@);
    }
    false
}

proof fn lemma_contains_push(s: Seq<Seq<char>>, a: Seq<char>)
    ensures
        forall|x: Seq<char>| s.push(a).contains(x) <==> (s.contains(x) || x == a),
{
    assert forall|x: Seq<char>| s.push(a).contains(x) <==> (s.contains(x) || x == a) by {
        if s.push(a).contains(x) {
            let i = choose|i: int| 0 <= i < s.push(a).len() && s.push(a)[i] == x;
            if i < s.len() {
                assert(s[i] == x);
            }
        }
        if s.contains(x) {
            let i = choose|i: int| 0 <= i < s.len() && s[i] == x;
            assert(s.push(a)[i] == x);
        }
        if x == a {
            assert(s.push(a)[s.len() as int] == x);
        }
    }
}

/// `list` with `name` added unless it already holds it.
pub fn add_name(list: &mut Vec<String>, name: &str)
    ensures
        forall|x: Seq<char>| #![trigger names(final(list)@).contains(x)] names(final(list)@).contains(x) <==> (names(old(list)@).contains(x) || x == name@),
{
    if !holds_name(list, name) {
        let ghost before = list@;
        list.push(crate::text::string_of(crate::text::chars_of(name).as_slice()));
        assert(names(list@) =~= names(before).push(name@));
        proof {
            lemma_contains_push(names(before), name@);
        }
    }
}

/// The entry for `key`, if any.
fn find_key(entries: &Vec<(String, String)>, key: &str) -> (r: Option<usize>)
    ensures
        match r {
            Some(i) => i < entries@.len() && entries@[i as int].0@ == key@ && forall|j: int|
                0 <= j < i ==> entries@[j].0@ != key@,
            None => forall|j: int| 0 <= j < entries@.len() ==> entries@[j].0@ != key@,
        },
{
    let mut i: usize = 0;
    while i < entries.len()
        invariant
            i <= entries@.len(),
            forall|j: int| 0 <= j < i ==> entries@[j].0@ != key@,
        decreases entries.len() - i,
    {
        if crate::text::str_eq(entries[i].0.as_str(), key) {
            return Some(i);
        }
        i = i + 1;
    }
    None
}

proof fn lemma_lookup_key(entries: Seq<(String, String)>, key: Seq<char>)
    ensures
        (forall|j: int| 0 <= j < entries.len() ==> entries[j].0@ != key) ==> lookup_key(entries, key) is None,
        forall|i: int|
            0 <= i < entries.len() && entries[i].0@ == key && (forall|j: int| 0 <= j < i ==> entries[j].0@ != key)
                ==> lookup_key(entries, key) == Some(entries[i].1@),
    decreases entries.len(),
{
    if entries.len() > 0 {
        lemma_lookup_key(entries.drop_first(), key);
        assert forall|i: int|
            0 <= i < entries.len() && entries[i].0@ == key && (forall|j: int| 0 <= j < i ==> entries[j].0@ != key)
            implies lookup_key(entries, key) == Some(entries[i].1@) by {
            if i > 0 {
                assert(entries.drop_first()[i - 1] == entries[i]);
                assert forall|j: int| 0 <= j < i - 1 implies entries.drop_first()[j].0@ != key by {
                    assert(entries.drop_first()[j] == entries[j + 1]);
                }
            }
        }
        if forall|j: int| 0 <= j < entries.len() ==> entries[j].0@ != key {
            assert forall|j: int| 0 <= j < entries.drop_first().len() implies entries.drop_first()[j].0@ != key by {
                assert(entries.drop_first()[j] == entries[j + 1]);
            }
        }
    }
}

impl CfgEnv {
    /// An environment that knows nothing: every flag, feature and key is unknown, so only
    /// a predicate that holds or fails whatever they are (`all()`, `any()`) is decided.
    pub fn new() -> (r: Self)
        ensures
            r.features@.len() == 0,
            r.flags@.len() == 0,
            r.key_values@.len() == 0,
            r.closed_keys@.len() == 0,
    {
        CfgEnv { features: Vec::new(), flags: Vec::new(), key_values: Vec::new(), closed_keys: Vec::new() }
    }

    /// Enable a set of Cargo features, and mark `feature` as fully enumerated.
    pub fn with_features(self, features: Vec<String>) -> (r: Self)
        ensures
            r.features@ == features@,
            r.flags == self.flags,
            r.key_values == self.key_values,
            forall|x: Seq<char>| #![trigger names(r.closed_keys@).contains(x)] names(r.closed_keys@).contains(x) <==> (names(self.closed_keys@).contains(x) || x == "feature"@),
    {
        let mut closed_keys = self.closed_keys;
        add_name(&mut closed_keys, "feature");
        CfgEnv { features, flags: self.flags, key_values: self.key_values, closed_keys }
    }

    /// Set the flags that hold, and mark them enumerated.
    pub fn with_flags(self, flags: Vec<String>) -> (r: Self)
        ensures
            r.features == self.features,
            r.flags == flags,
            r.key_values == self.key_values,
            forall|x: Seq<char>| #![trigger names(r.closed_keys@).contains(x)] names(r.closed_keys@).contains(x) <==> (names(self.closed_keys@).contains(x) || names(flags@).contains(x)),
    {
        let ghost start = self.closed_keys@;
        let mut closed_keys = self.closed_keys;
        let mut i: usize = 0;
        while i < flags.len()
            invariant
                i <= flags@.len(),
                forall|x: Seq<char>| #![trigger names(closed_keys@).contains(x)] names(closed_keys@).contains(x) <==> (names(start).contains(x) || names(flags@.take(i as int)).contains(x)),
            decreases flags.len() - i,
        {
            add_name(&mut closed_keys, flags[i].as_str());
            proof {
                assert(names(flags@.take(i + 1)) =~= names(flags@.take(i as int)).push(flags@[i as int]@));
                lemma_contains_push(names(flags@.take(i as int)), flags@[i as int]@);
            }
            i = i + 1;
        }
        assert(flags@.take(i as int) =~= flags@);
        CfgEnv { features: self.features, flags, key_values: self.key_values, closed_keys }
    }

    /// Set a known key, marking that key enumerated.
    pub fn with_key(self, key: &str, value: &str) -> (r: Self)
        ensures
            r.features == self.features,
            r.flags == self.flags,
            lookup_key(r.key_values@, key@) == Some(value@),
            forall|k: Seq<char>| k != key@ ==> lookup_key(r.key_values@, k) == lookup_key(self.key_values@, k),
            forall|x: Seq<char>| #![trigger names(r.closed_keys@).contains(x)] names(r.closed_keys@).contains(x) <==> (names(self.closed_keys@).contains(x) || x == key@),
    {
        let mut key_values = self.key_values;
        let entry = (crate::text::string_of(chars_of(key).as_slice()), crate::text::string_of(chars_of(value).as_slice()));
        let ghost before = key_values@;
        match find_key(&key_values, key) {
            Some(i) => {
                key_values.set(i, entry);
                proof {
                    lemma_lookup_key(key_values@, key@);
                    assert(forall|j: int| 0 <= j < i ==> key_values@[j] == before[j]);
                    assert(key_values@[i as int] == entry);
                    assert forall|k: Seq<char>| k != key@ implies lookup_key(key_values@, k) == lookup_key(before, k) by {
                        lemma_lookup_agree(before, key_values@, k, i as int);
                    }
                }
            },
            None => {
                key_values.push(entry);
                proof {
                    lemma_lookup_key(key_values@, key@);
                    assert(key_values@[before.len() as int] == entry);
                    assert(forall|j: int| 0 <= j < before.len() ==> key_values@[j] == before[j]);
                    assert forall|k: Seq<char>| k != key@ implies lookup_key(key_values@, k) == lookup_key(before, k) by {
                        lemma_lookup_push(before, entry, k);
                    }
                }
            },
        }
        let mut closed_keys = self.closed_keys;
        add_name(&mut closed_keys, key);
        CfgEnv { features: self.features, flags: self.flags, key_values, closed_keys }
    }

    /// Mark bare flags as known-absent rather than merely unlisted.
    pub fn with_known_flags(self, keys: Vec<String>) -> (r: Self)
        ensures
            r.features == self.features,
            r.flags == self.flags,
            r.key_values == self.key_values,
            forall|x: Seq<char>| #![trigger names(r.closed_keys@).contains(x)] names(r.closed_keys@).contains(x) <==> (names(self.closed_keys@).contains(x) || names(keys@).contains(x)),
    {
        let mut closed_keys = self.closed_keys;
        let ghost start = closed_keys@;
        let mut i: usize = 0;
        while i < keys.len()
            invariant
                i <= keys@.len(),
                forall|x: Seq<char>| #![trigger names(closed_keys@).contains(x)] names(closed_keys@).contains(x) <==> (names(start).contains(x)
                    || names(keys@.subrange(0, i as int)).contains(x)),
            decreases keys.len() - i,
        {
            let ghost mid = closed_keys@;
            add_name(&mut closed_keys, keys[i].as_str());
            proof {
                assert forall|x: Seq<char>| names(closed_keys@).contains(x) <==> (names(mid).contains(x) || x == keys@[i as int]@) by {}
                assert(names(keys@.subrange(0, i + 1)) =~= names(keys@.subrange(0, i as int)).push(keys@[i as int]@));
                lemma_contains_push(names(keys@.subrange(0, i as int)), keys@[i as int]@);
                assert forall|x: Seq<char>| names(closed_keys@).contains(x) <==> (names(start).contains(x)
                    || names(keys@.subrange(0, i + 1)).contains(x)) by {
                    assert(names(closed_keys@).contains(x) <==> (names(mid).contains(x) || x == keys@[i as int]@));
                    assert(names(mid).contains(x) <==> (names(start).contains(x) || names(keys@.subrange(0, i as int)).contains(x)));
                    assert(names(keys@.subrange(0, i as int)).push(keys@[i as int]@).contains(x)
                        <==> (names(keys@.subrange(0, i as int)).contains(x) || x == keys@[i as int]@));
                }
            }
            i = i + 1;
        }
        assert(keys@.subrange(0, keys@.len() as int) =~= keys@);
        CfgEnv { features: self.features, flags: self.flags, key_values: self.key_values, closed_keys }
    }

    /// Evaluate a predicate against this environment.
    pub fn eval(&self, predicate: &CfgPredicate) -> (r: Truth)
        ensures
            r == truth_of(*self, pred_view(*predicate)),
        decreases predicate,
    {
        match predicate {
            CfgPredicate::All(operands) => {
                let values = self.eval_each(operands);
                Truth::all(values.as_slice())
            },
            CfgPredicate::Any(operands) => {
                let values = self.eval_each(operands);
                Truth::any(values.as_slice())
            },
            CfgPredicate::Not(operand) => self.eval(operand).negate(),
            CfgPredicate::Flag(name) => {
                if holds_name(&self.flags, name.as_str()) {
                    Truth::True
                } else if holds_name(&self.closed_keys, name.as_str()) {
                    Truth::False
                } else {
                    Truth::Unknown
                }
            },
            CfgPredicate::KeyValue { key, value } => {
                if crate::text::str_eq(key.as_str(), "feature") {
                    return if holds_name(&self.features, value.as_str()) {
                        Truth::True
                    } else if holds_name(&self.closed_keys, "feature") {
                        Truth::False
                    } else {
                        Truth::Unknown
                    };
                }
                proof {
                    lemma_lookup_key(self.key_values@, key@);
                }
                match find_key(&self.key_values, key.as_str()) {
                    Some(i) => {
                        if self.key_values[i].1 == *value {
                            Truth::True
                        } else {
                            Truth::False
                        }
                    },
                    None => {
                        if holds_name(&self.closed_keys, key.as_str()) {
                            Truth::False
                        } else {
                            Truth::Unknown
                        }
                    },
                }
            },
        }
    }

    /// What each operand evaluates to.
    fn eval_each(&self, operands: &Vec<CfgPredicate>) -> (r: Vec<Truth>)
        ensures
            r@ == truths_of(*self, views_from(*operands, 0)),
        decreases operands, 1nat,
    {
        proof {
            lemma_views_from(*operands, 0);
            lemma_truths_of(*self, views_from(*operands, 0));
        }
        let mut out: Vec<Truth> = Vec::new();
        let mut i: usize = 0;
        while i < operands.len()
            invariant
                i <= operands@.len(),
                views_from(*operands, 0).len() == operands@.len(),
                forall|k: int| 0 <= k < operands@.len() ==> #[trigger] views_from(*operands, 0)[k] == pred_view(operands@[k]),
                truths_of(*self, views_from(*operands, 0)).len() == operands@.len(),
                forall|k: int| 0 <= k < operands@.len() ==> #[trigger] truths_of(*self, views_from(*operands, 0))[k]
                    == truth_of(*self, views_from(*operands, 0)[k]),
                out@ == truths_of(*self, views_from(*operands, 0)).subrange(0, i as int),
            decreases operands.len() - i,
        {
            proof {
                broadcast use vstd::std_specs::vec::axiom_vec_index_decreases;
                assert(decreases_to!(*operands => operands[i as int]));
            }
            let t = self.eval(&operands[i]);
            out.push(t);
            i = i + 1;
            assert(out@ =~= truths_of(*self, views_from(*operands, 0)).subrange(0, i as int));
        }
        assert(truths_of(*self, views_from(*operands, 0)).subrange(0, i as int) =~= truths_of(*self, views_from(*operands, 0)));
        out
    }
}

proof fn lemma_lookup_agree(a: Seq<(String, String)>, b: Seq<(String, String)>, k: Seq<char>, i: int)
    requires
        a.len() == b.len(),
        0 <= i < a.len(),
        a[i].0@ == b[i].0@,
        a[i].0@ != k,
        forall|j: int| 0 <= j < a.len() && j != i ==> a[j] == b[j],
    ensures
        lookup_key(a, k) == lookup_key(b, k),
    decreases a.len(),
{
    if a.len() > 0 {
        if i == 0 {
            assert(a.drop_first() =~= b.drop_first());
        } else {
            assert forall|j: int| 0 <= j < a.drop_first().len() && j != i - 1 implies a.drop_first()[j] == b.drop_first()[j] by {
                assert(a.drop_first()[j] == a[j + 1]);
                assert(b.drop_first()[j] == b[j + 1]);
            }
            assert(a.drop_first()[i - 1] == a[i]);
            assert(b.drop_first()[i - 1] == b[i]);
            lemma_lookup_agree(a.drop_first(), b.drop_first(), k, i - 1);
        }
    }
}

proof fn lemma_lookup_push(a: Seq<(String, String)>, e: (String, String), k: Seq<char>)
    requires
        e.0@ != k,
    ensures
        lookup_key(a.push(e), k) == lookup_key(a, k),
    decreases a.len(),
{
    if a.len() == 0 {
        assert(a.push(e).drop_first() =~= Seq::<(String, String)>::empty());
        assert(a.push(e)[0] == e);
        assert(lookup_key(a.push(e).drop_first(), k) is None);
    } else {
        assert(a.push(e).drop_first() =~= a.drop_first().push(e));
        assert(a.push(e)[0] == a[0]);
        lemma_lookup_push(a.drop_first(), e, k);
    }
}


// --- parsing ------------------------------------------------------------------------

/// `s` without its leading whitespace.
pub open spec fn skip_ws(s: Seq<char>) -> Seq<char>
    decreases s.len(),
{
    if s.len() > 0 && unicode_whitespace(s[0]) {
        skip_ws(s.drop_first())
    } else {
        s
    }
}

/// `s` without its trailing whitespace.
pub open spec fn trim_end(s: Seq<char>) -> Seq<char>
    decreases s.len(),
{
    if s.len() > 0 && unicode_whitespace(s.last()) {
        trim_end(s.drop_last())
    } else {
        s
    }
}

/// `s` without whitespace at either end.
pub open spec fn trim(s: Seq<char>) -> Seq<char> {
    trim_end(skip_ws(s))
}

/// Whether `c` may appear in a `cfg` name.
pub open spec fn ident_char(c: char) -> bool {
    unicode_alphanumeric(c) || c == '_'
}

/// How many name characters `s` starts with.
pub open spec fn name_len(s: Seq<char>) -> nat
    decreases s.len(),
{
    if s.len() > 0 && ident_char(s[0]) {
        1 + name_len(s.drop_first())
    } else {
        0
    }
}

/// At most the first sixteen characters of `s`, for quoting in an error.
pub open spec fn first16(s: Seq<char>) -> Seq<char> {
    s.subrange(0, if s.len() < 16 { s.len() as int } else { 16 })
}

/// The position of the first `c` in `s`, or `-1`.
pub open spec fn first_index(s: Seq<char>, c: char) -> int
    decreases s.len(),
{
    if s.len() == 0 {
        -1
    } else if s[0] == c {
        0
    } else if first_index(s.drop_first(), c) < 0 {
        -1
    } else {
        1 + first_index(s.drop_first(), c)
    }
}

pub proof fn lemma_skip_ws(s: Seq<char>)
    ensures
        skip_ws(s).len() <= s.len(),
        skip_ws(s) == s.subrange(s.len() - skip_ws(s).len(), s.len() as int),
    decreases s.len(),
{
    if s.len() > 0 && unicode_whitespace(s[0]) {
        lemma_skip_ws(s.drop_first());
        assert(s.drop_first().subrange(s.drop_first().len() - skip_ws(s).len(), s.drop_first().len() as int)
            =~= s.subrange(s.len() - skip_ws(s).len(), s.len() as int));
    } else {
        assert(s.subrange(0, s.len() as int) =~= s);
    }
}

pub proof fn lemma_name_len(s: Seq<char>)
    ensures
        name_len(s) <= s.len(),
    decreases s.len(),
{
    if s.len() > 0 && ident_char(s[0]) {
        lemma_name_len(s.drop_first());
    }
}

/// What the text `s0` starts with as one term, and what follows it.
pub open spec fn term_of(s0: Seq<char>) -> Result<(PredView, Seq<char>), CfgErrorView>
    decreases s0.len(), 1nat,
{
    let s = skip_ws(s0);
    let n = name_len(s);
    proof {
        lemma_skip_ws(s0);
        lemma_name_len(s);
    }
    if n == 0 {
        Err(CfgErrorView::Malformed(first16(s)))
    } else {
        let name = s.subrange(0, n as int);
        let rest = skip_ws(s.subrange(n as int, s.len() as int));
        proof {
            lemma_skip_ws(s.subrange(n as int, s.len() as int));
        }
        if rest.len() > 0 && rest[0] == '(' {
            match operands_of(rest.drop_first()) {
                Err(e) => Err(e),
                Ok((ops, after)) => if name == "all"@ {
                    Ok((PredView::All(ops), after))
                } else if name == "any"@ {
                    Ok((PredView::Any(ops), after))
                } else if name == "not"@ {
                    if ops.len() == 0 {
                        Err(CfgErrorView::Malformed("not()"@))
                    } else {
                        Ok((PredView::Not(Box::new(ops[0])), after))
                    }
                } else {
                    Err(CfgErrorView::Malformed(name))
                },
            }
        } else if rest.len() > 0 && rest[0] == '=' {
            let after_eq = skip_ws(rest.drop_first());
            if !(after_eq.len() > 0 && after_eq[0] == '"') {
                Err(CfgErrorView::Malformed(first16(after_eq)))
            } else {
                let inner = after_eq.drop_first();
                let close = first_index(inner, '"');
                if close < 0 {
                    Err(CfgErrorView::Malformed(first16(after_eq)))
                } else {
                    Ok((PredView::KeyValue(name, inner.subrange(0, close)), inner.subrange(close + 1, inner.len() as int)))
                }
            }
        } else {
            Ok((PredView::Flag(name), rest))
        }
    }
}

/// The operands `s` lists up to its closing `)`, and what follows that.
pub open spec fn operands_of(s: Seq<char>) -> Result<(Seq<PredView>, Seq<char>), CfgErrorView>
    decreases s.len(), 2nat,
{
    let rest = skip_ws(s);
    proof {
        lemma_skip_ws(s);
    }
    if rest.len() > 0 && rest[0] == ')' {
        Ok((Seq::empty(), rest.drop_first()))
    } else if rest.len() == 0 {
        Err(CfgErrorView::Unclosed)
    } else {
        match term_of(rest) {
            Err(e) => Err(e),
            Ok((op, remainder)) => {
                let r2 = skip_ws(remainder);
                let r3 = if r2.len() > 0 && r2[0] == ',' { skip_ws(r2.drop_first()) } else { r2 };
                if r3.len() < rest.len() {
                    match operands_of(r3) {
                        Err(e) => Err(e),
                        Ok((ops, after)) => Ok((seq![op] + ops, after)),
                    }
                } else {
                    Err(CfgErrorView::Unclosed)
                }
            },
        }
    }
}

/// What `cfg(…)`'s inner text parses to.
pub open spec fn predicate_of(text: Seq<char>) -> Result<PredView, CfgErrorView> {
    let t = trim(text);
    if t.len() == 0 {
        Err(CfgErrorView::Empty)
    } else {
        match term_of(t) {
            Err(e) => Err(e),
            Ok((p, rest)) => if trim(rest).len() > 0 {
                Err(CfgErrorView::Trailing(trim(rest)))
            } else {
                Ok(p)
            },
        }
    }
}


/// The suffix of `chars` from `pos`.
pub open spec fn from(chars: Seq<char>, pos: int) -> Seq<char> {
    chars.subrange(pos, chars.len() as int)
}

/// The first position at or after `pos` that is not whitespace.
pub(crate) fn skip_ws_at(chars: &Vec<char>, pos: usize) -> (r: usize)
    requires
        pos <= chars@.len(),
    ensures
        pos <= r <= chars@.len(),
        from(chars@, r as int) == skip_ws(from(chars@, pos as int)),
{
    let mut i = pos;
    while i < chars.len() && is_whitespace(chars[i])
        invariant
            pos <= i <= chars@.len(),
            skip_ws(from(chars@, pos as int)) == skip_ws(from(chars@, i as int)),
        decreases chars.len() - i,
    {
        assert(from(chars@, i as int).drop_first() =~= from(chars@, i + 1));
        assert(from(chars@, i as int)[0] == chars@[i as int]);
        i = i + 1;
    }
    proof {
        if i < chars@.len() {
            assert(from(chars@, i as int)[0] == chars@[i as int]);
        }
    }
    i
}

/// The end of the name starting at `pos`.
fn name_end_at(chars: &Vec<char>, pos: usize) -> (r: usize)
    requires
        pos <= chars@.len(),
    ensures
        pos <= r <= chars@.len(),
        r - pos == name_len(from(chars@, pos as int)),
{
    let mut i = pos;
    while i < chars.len() && (is_alphanumeric(chars[i]) || chars[i] == '_')
        invariant
            pos <= i <= chars@.len(),
            name_len(from(chars@, pos as int)) == (i - pos) + name_len(from(chars@, i as int)),
        decreases chars.len() - i,
    {
        assert(from(chars@, i as int).drop_first() =~= from(chars@, i + 1));
        assert(from(chars@, i as int)[0] == chars@[i as int]);
        i = i + 1;
    }
    proof {
        if i < chars@.len() {
            assert(from(chars@, i as int)[0] == chars@[i as int]);
        }
    }
    i
}

/// The first `"` at or after `pos`.
fn quote_at(chars: &Vec<char>, pos: usize) -> (r: Option<usize>)
    requires
        pos <= chars@.len(),
    ensures
        match r {
            Some(j) => pos <= j < chars@.len() && j - pos == first_index(from(chars@, pos as int), '"'),
            None => first_index(from(chars@, pos as int), '"') < 0,
        },
{
    let mut i = pos;
    while i < chars.len()
        invariant
            pos <= i <= chars@.len(),
            first_index(from(chars@, pos as int), '"') == if first_index(from(chars@, i as int), '"') < 0 {
                -1
            } else {
                (i - pos) + first_index(from(chars@, i as int), '"')
            },
        decreases chars.len() - i,
    {
        assert(from(chars@, i as int).drop_first() =~= from(chars@, i + 1));
        assert(from(chars@, i as int)[0] == chars@[i as int]);
        if chars[i] == '"' {
            return Some(i);
        }
        i = i + 1;
    }
    None
}

/// The end of `chars[from_pos..to]` once trailing whitespace is dropped.
pub(crate) fn trim_end_to(chars: &Vec<char>, from_pos: usize, to: usize) -> (r: usize)
    requires
        from_pos <= to <= chars@.len(),
    ensures
        from_pos <= r <= to,
        chars@.subrange(from_pos as int, r as int) == trim_end(chars@.subrange(from_pos as int, to as int)),
{
    let mut e = to;
    while e > from_pos && is_whitespace(chars[e - 1])
        invariant
            from_pos <= e <= to <= chars@.len(),
            trim_end(chars@.subrange(from_pos as int, to as int)) == trim_end(chars@.subrange(from_pos as int, e as int)),
        decreases e,
    {
        assert(chars@.subrange(from_pos as int, e as int).drop_last() =~= chars@.subrange(from_pos as int, e - 1));
        assert(chars@.subrange(from_pos as int, e as int).last() == chars@[e - 1]);
        e = e - 1;
    }
    proof {
        if e > from_pos {
            assert(chars@.subrange(from_pos as int, e as int).last() == chars@[e - 1]);
        }
    }
    e
}

/// At most the first sixteen characters from `pos`, as a string.
fn quote16(chars: &Vec<char>, pos: usize) -> (r: String)
    requires
        pos <= chars@.len(),
    ensures
        r@ == first16(from(chars@, pos as int)),
{
    let end = if chars.len() - pos < 16 { chars.len() } else { pos + 16 };
    let r = string_of_range(chars.as_slice(), pos, end);
    assert(r@ =~= first16(from(chars@, pos as int)));
    r
}

/// Whether `chars[a..b]` spells `word`.
fn spells(chars: &Vec<char>, a: usize, b: usize, word: &str) -> (r: bool)
    requires
        a <= b <= chars@.len(),
    ensures
        r == (chars@.subrange(a as int, b as int) == word@),
{
    let w = chars_of(word);
    if w.len() != b - a {
        return false;
    }
    let mut i: usize = 0;
    while i < w.len()
        invariant
            w@ == word@,
            w@.len() == b - a,
            a <= b <= chars@.len(),
            i <= w@.len(),
            forall|j: int| 0 <= j < i ==> chars@[a + j] == w@[j],
        decreases w.len() - i,
    {
        if chars[a + i] != w[i] {
            assert(chars@.subrange(a as int, b as int)[i as int] != w@[i as int]);
            return false;
        }
        i = i + 1;
    }
    assert(chars@.subrange(a as int, b as int) =~= w@);
    true
}

/// Parse one term starting at `pos`, returning it and where the rest begins.
fn parse_term(chars: &Vec<char>, pos: usize) -> (r: Result<(CfgPredicate, usize), CfgError>)
    requires
        pos <= chars@.len(),
    ensures
        match r {
            Ok((p, q)) => pos <= q <= chars@.len() && term_of(from(chars@, pos as int)) == Ok::<(PredView, Seq<char>), CfgErrorView>(
                (pred_view(p), from(chars@, q as int)),
            ),
            Err(e) => term_of(from(chars@, pos as int)) == Err::<(PredView, Seq<char>), CfgErrorView>(e.spec_view()),
        },
    decreases chars@.len() - pos, 1nat,
{
    let n = chars.len();
    let start = skip_ws_at(chars, pos);
    let name_end = name_end_at(chars, start);
    proof {
        assert(from(chars@, start as int).subrange(0, (name_end - start) as int) =~= chars@.subrange(start as int, name_end as int));
        assert(from(chars@, start as int).subrange((name_end - start) as int, from(chars@, start as int).len() as int)
            =~= from(chars@, name_end as int));
    }
    if name_end == start {
        return Err(CfgError::Malformed(quote16(chars, start)));
    }
    let rest = skip_ws_at(chars, name_end);
    if rest < n && chars[rest] == '(' {
        proof {
            assert(from(chars@, rest as int).drop_first() =~= from(chars@, rest + 1));
            assert(from(chars@, rest as int)[0] == chars@[rest as int]);
        }
        let (mut operands, after) = match parse_operands(chars, rest + 1) {
            Err(e) => {
                return Err(e);
            },
            Ok(pair) => pair,
        };
        proof {
            lemma_views_from(operands, 0);
        }
        if spells(chars, start, name_end, "all") {
            return Ok((CfgPredicate::All(operands), after));
        } else if spells(chars, start, name_end, "any") {
            return Ok((CfgPredicate::Any(operands), after));
        } else if spells(chars, start, name_end, "not") {
            if operands.len() == 0 {
                let m = crate::text::string_of(chars_of("not()").as_slice());
                return Err(CfgError::Malformed(m));
            }
            let first = operands.remove(0);
            return Ok((CfgPredicate::Not(Box::new(first)), after));
        } else {
            return Err(CfgError::Malformed(string_of_range(chars.as_slice(), start, name_end)));
        }
    }
    if rest < n && chars[rest] == '=' {
        proof {
            assert(from(chars@, rest as int).drop_first() =~= from(chars@, rest + 1));
            assert(from(chars@, rest as int)[0] == chars@[rest as int]);
        }
        let after_eq = skip_ws_at(chars, rest + 1);
        if !(after_eq < n && chars[after_eq] == '"') {
            proof {
                if after_eq < n {
                    assert(from(chars@, after_eq as int)[0] == chars@[after_eq as int]);
                }
            }
            return Err(CfgError::Malformed(quote16(chars, after_eq)));
        }
        proof {
            assert(from(chars@, after_eq as int).drop_first() =~= from(chars@, after_eq + 1));
            assert(from(chars@, after_eq as int)[0] == chars@[after_eq as int]);
        }
        let close = match quote_at(chars, after_eq + 1) {
            None => {
                return Err(CfgError::Malformed(quote16(chars, after_eq)));
            },
            Some(c) => c,
        };
        let key = string_of_range(chars.as_slice(), start, name_end);
        let value = string_of_range(chars.as_slice(), after_eq + 1, close);
        proof {
            let inner = from(chars@, after_eq + 1);
            assert(inner.subrange(0, close - (after_eq + 1)) =~= chars@.subrange(after_eq + 1, close as int));
            assert(inner.subrange(close - (after_eq + 1) + 1, inner.len() as int) =~= from(chars@, close + 1));
        }
        return Ok((CfgPredicate::KeyValue { key, value }, close + 1));
    }
    proof {
        if rest < n {
            assert(from(chars@, rest as int)[0] == chars@[rest as int]);
        }
    }
    Ok((CfgPredicate::Flag(string_of_range(chars.as_slice(), start, name_end)), rest))
}

/// Parse a comma-separated operand list up to the matching `)`.
fn parse_operands(chars: &Vec<char>, pos: usize) -> (r: Result<(Vec<CfgPredicate>, usize), CfgError>)
    requires
        pos <= chars@.len(),
    ensures
        match r {
            Ok((ops, q)) => pos <= q <= chars@.len() && operands_of(from(chars@, pos as int)) == Ok::<(Seq<PredView>, Seq<char>), CfgErrorView>(
                (views_from(ops, 0), from(chars@, q as int)),
            ),
            Err(e) => operands_of(from(chars@, pos as int)) == Err::<(Seq<PredView>, Seq<char>), CfgErrorView>(e.spec_view()),
        },
    decreases chars@.len() - pos, 2nat,
{
    let n = chars.len();
    let rest = skip_ws_at(chars, pos);
    if rest < n && chars[rest] == ')' {
        proof {
            assert(from(chars@, rest as int).drop_first() =~= from(chars@, rest + 1));
            assert(from(chars@, rest as int)[0] == chars@[rest as int]);
        }
        let empty: Vec<CfgPredicate> = Vec::new();
        assert(views_from(empty, 0) =~= Seq::<PredView>::empty());
        return Ok((empty, rest + 1));
    }
    if rest == n {
        assert(from(chars@, rest as int).len() == 0);
        return Err(CfgError::Unclosed);
    }
    proof {
        assert(from(chars@, rest as int)[0] == chars@[rest as int]);
    }
    let (operand, remainder) = match parse_term(chars, rest) {
        Err(e) => {
            return Err(e);
        },
        Ok(pair) => pair,
    };
    let r2 = skip_ws_at(chars, remainder);
    let r3 = if r2 < n && chars[r2] == ',' {
        proof {
            assert(from(chars@, r2 as int).drop_first() =~= from(chars@, r2 + 1));
            assert(from(chars@, r2 as int)[0] == chars@[r2 as int]);
        }
        skip_ws_at(chars, r2 + 1)
    } else {
        proof {
            if r2 < n {
                assert(from(chars@, r2 as int)[0] == chars@[r2 as int]);
            }
        }
        r2
    };
    if r3 <= rest {
        return Err(CfgError::Unclosed);
    }
    let (tail, after) = match parse_operands(chars, r3) {
        Err(e) => {
            return Err(e);
        },
        Ok(pair) => pair,
    };
    let ghost op_view = pred_view(operand);
    let mut ops: Vec<CfgPredicate> = Vec::new();
    ops.push(operand);
    let mut tail = tail;
    let ghost tail_view = views_from(tail, 0);
    proof {
        lemma_views_from(tail, 0);
    }
    ops.append(&mut tail);
    proof {
        lemma_views_from(ops, 0);
        assert(views_from(ops, 0) =~= seq![op_view] + tail_view);
    }
    Ok((ops, after))
}

/// Parse a `cfg` predicate from the text inside `cfg(…)`.
pub fn parse(text: &str) -> (r: Result<CfgPredicate, CfgError>)
    ensures
        match r {
            Ok(p) => predicate_of(text@) == Ok::<PredView, CfgErrorView>(pred_view(p)),
            Err(e) => predicate_of(text@) == Err::<PredView, CfgErrorView>(e.spec_view()),
        },
{
    let all = chars_of(text);
    let a = skip_ws_at(&all, 0);
    let b = trim_end_to(&all, a, all.len());
    assert(from(all@, 0) =~= all@);
    assert(from(all@, a as int) =~= all@.subrange(a as int, all@.len() as int));
    let trimmed = crate::id::slice_range(&all, a, b);
    if trimmed.len() == 0 {
        return Err(CfgError::Empty);
    }
    assert(from(trimmed@, 0) =~= trimmed@);
    let (predicate, rest) = match parse_term(&trimmed, 0) {
        Err(e) => {
            return Err(e);
        },
        Ok(pair) => pair,
    };
    let rs = skip_ws_at(&trimmed, rest);
    let re = trim_end_to(&trimmed, rs, trimmed.len());
    proof {
        assert(from(trimmed@, rs as int) =~= trimmed@.subrange(rs as int, trimmed@.len() as int));
    }
    if re > rs {
        return Err(CfgError::Trailing(string_of_range(trimmed.as_slice(), rs, re)));
    }
    Ok(predicate)
}

} // verus!
