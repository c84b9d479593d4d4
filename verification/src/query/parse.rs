//! Turning query text into terms, with positioned failures.

use vstd::prelude::*;
use crate::text::utf8_width;
use crate::text::byte_at;
use crate::text::byte_offsets;
use crate::text::lemma_byte_at_bound;
use crate::text::ascii_whitespace;
use crate::text::has_prefix;
use crate::text::contains_seq;
use crate::text::chars_of;
use crate::text::chars_eq;
use crate::text::chars_contain;
use crate::text::starts_at;
use crate::config::predicate::first_index;
use crate::edge::EdgeKind;
use crate::edge::all_edge_kinds;
use crate::id::SeamPath;
use crate::id::path_of;
use crate::id::describe_path_error;
use crate::model::Lens;
use crate::model::NodeKind;
use crate::model::Visibility;
use crate::model::all_kinds;
use crate::model::all_visibilities;
use crate::query::KindView;
use crate::query::ErrorView;
use crate::query::TermKind;
use crate::query::QueryError;
use crate::query::QueryView;
use crate::query::TermView;

verus! {


/// Where the token starting at `i` ends: at the first ASCII whitespace outside quotes.
pub open spec fn token_end(s: Seq<char>, i: int, quoted: bool) -> int
    decreases s.len() - i,
{
    if i >= s.len() {
        s.len() as int
    } else if s[i] == '"' {
        token_end(s, i + 1, !quoted)
    } else if ascii_whitespace(s[i]) && !quoted {
        i
    } else {
        token_end(s, i + 1, quoted)
    }
}

proof fn lemma_token_end(s: Seq<char>, i: int, quoted: bool)
    requires
        0 <= i <= s.len(),
    ensures
        i <= token_end(s, i, quoted) <= s.len(),
    decreases s.len() - i,
{
    if i < s.len() {
        lemma_token_end(s, i + 1, !quoted);
        lemma_token_end(s, i + 1, quoted);
    }
}

/// The character spans of the tokens from position `i` on: runs separated by ASCII
/// whitespace, where whitespace inside a quoted phrase does not separate.
pub open spec fn tokens_from(s: Seq<char>, i: int) -> Seq<(int, int)>
    decreases s.len() - i,
{
    if i < 0 || i >= s.len() {
        Seq::empty()
    } else if ascii_whitespace(s[i]) {
        tokens_from(s, i + 1)
    } else {
        let e = if s[i] == '"' { token_end(s, i + 1, true) } else { token_end(s, i + 1, false) };
        if e <= i || e > s.len() {
            Seq::empty()
        } else {
            seq![(i, e)] + tokens_from(s, e)
        }
    }
}

/// Whether `c` ends a token: ASCII whitespace outside a quoted phrase.
fn stops_token(c: char, quoted: bool) -> (r: bool)
    ensures
        r == (ascii_whitespace(c) && !quoted),
{
    crate::text::is_ascii_whitespace(c) && !quoted
}

/// The tokens of a character sequence, as character spans.
fn tokenize(s: &Vec<char>) -> (r: Vec<(usize, usize)>)
    ensures
        r@.len() == tokens_from(s@, 0).len(),
        forall|k: int| 0 <= k < r@.len() ==> (#[trigger] r@[k]).0 as int == tokens_from(s@, 0)[k].0
            && r@[k].1 as int == tokens_from(s@, 0)[k].1,
        forall|k: int| 0 <= k < r@.len() ==> (#[trigger] r@[k]).0 < r@[k].1 <= s@.len(),
{
    let mut out: Vec<(usize, usize)> = Vec::new();
    let mut i: usize = 0;
    while i < s.len()
        invariant
            i <= s@.len(),
            out@.len() + tokens_from(s@, i as int).len() == tokens_from(s@, 0).len(),
            forall|k: int| 0 <= k < out@.len() ==> (#[trigger] out@[k]).0 as int == tokens_from(s@, 0)[k].0
                && out@[k].1 as int == tokens_from(s@, 0)[k].1,
            forall|k: int| 0 <= k < tokens_from(s@, i as int).len() ==> tokens_from(s@, 0)[out@.len() + k] == #[trigger] tokens_from(s@, i as int)[k],
            forall|k: int| 0 <= k < out@.len() ==> (#[trigger] out@[k]).0 < out@[k].1 <= s@.len(),
        decreases s.len() - i,
    {
        if crate::text::is_ascii_whitespace(s[i]) {
            i = i + 1;
            continue;
        }
        let start = i;
        let mut quoted = false;
        let ghost l0 = out@.len();
        let ghost ts0 = tokens_from(s@, start as int);
        let ghost all = tokens_from(s@, 0);
        assert(forall|k: int| 0 <= k < ts0.len() ==> all[l0 + k] == #[trigger] ts0[k]);
        assert(l0 + ts0.len() == all.len());
        proof {
            lemma_token_end(s@, i + 1, true);
            lemma_token_end(s@, i + 1, false);
        }
        let ghost want = if s@[i as int] == '"' { token_end(s@, i + 1, true) } else { token_end(s@, i + 1, false) };
        while i < s.len() && !stops_token(s[i], quoted)
            invariant
                start <= i <= s@.len(),
                start < s@.len(),
                want == if s@[start as int] == '"' { token_end(s@, start + 1, true) } else { token_end(s@, start + 1, false) },
                i == start || token_end(s@, i as int, quoted) == want,
                i == start ==> !quoted && !ascii_whitespace(s@[start as int]),
            decreases s.len() - i,
        {
            if s[i] == '"' {
                quoted = !quoted;
            }
            i = i + 1;
        }
        proof {
            assert(ts0 == seq![(start as int, want)] + tokens_from(s@, want));
            assert(i as int == want);
            assert(ts0[0] == (start as int, i as int));
            assert(all[l0 as int] == ts0[0]);
        }
        out.push((start, i));
        proof {
            assert forall|k: int| 0 <= k < out@.len() implies (#[trigger] out@[k]).0 as int == all[k].0 && out@[k].1 as int == all[k].1 by {
                if k == l0 {
                    assert(out@[k] == (start, i));
                }
            }
            assert forall|k: int| 0 <= k < tokens_from(s@, i as int).len() implies all[out@.len() + k] == #[trigger] tokens_from(s@, i as int)[k] by {
                assert(all[l0 + (k + 1)] == ts0[k + 1]);
                assert(ts0[k + 1] == tokens_from(s@, i as int)[k]);
            }
        }
    }
    out
}

/// What `str::to_lowercase` makes of `s`.
pub uninterp spec fn lowercase_of(s: Seq<char>) -> Seq<char>;

/// `s` lowercased, by `str::to_lowercase`.
#[verifier::external_body]
fn lowercase(s: &str) -> (r: String)
    ensures
        r@ == lowercase_of(s@),
{
    s.to_lowercase()
}

/// Whether `a` sorts strictly before `b`: code point by code point, a proper prefix
/// first. This is the order `String`'s comparison gives, since UTF-8 preserves it.
pub open spec fn lex_lt(a: Seq<char>, b: Seq<char>) -> bool
    decreases a.len(),
{
    if b.len() == 0 {
        false
    } else if a.len() == 0 {
        true
    } else if a[0] != b[0] {
        a[0] < b[0]
    } else {
        lex_lt(a.drop_first(), b.drop_first())
    }
}

/// Whether `a` sorts strictly before `b`.
pub fn text_lt(a: &Vec<char>, b: &Vec<char>) -> (r: bool)
    ensures
        r == lex_lt(a@, b@),
{
    let mut i: usize = 0;
    assert(a@.skip(0) =~= a@);
    assert(b@.skip(0) =~= b@);
    while i < a.len() && i < b.len()
        invariant
            i <= a@.len(),
            i <= b@.len(),
            a@.subrange(0, i as int) == b@.subrange(0, i as int),
            lex_lt(a@, b@) == lex_lt(a@.skip(i as int), b@.skip(i as int)),
        decreases a.len() - i,
    {
        proof {
            assert(a@.skip(i as int)[0] == a@[i as int]);
            assert(b@.skip(i as int)[0] == b@[i as int]);
            assert(a@.skip(i as int).drop_first() =~= a@.skip(i + 1));
            assert(b@.skip(i as int).drop_first() =~= b@.skip(i + 1));
        }
        if a[i] != b[i] {
            return a[i] < b[i];
        }
        assert(a@.subrange(0, i + 1) =~= a@.subrange(0, i as int).push(a@[i as int]));
        assert(b@.subrange(0, i + 1) =~= b@.subrange(0, i as int).push(b@[i as int]));
        i = i + 1;
    }
    i < b.len()
}

/// Levenshtein distance: the fewest single-character insertions, deletions and
/// substitutions turning `a` into `b`.
pub open spec fn lev(a: Seq<char>, b: Seq<char>) -> nat
    decreases a.len() + b.len(),
{
    if a.len() == 0 {
        b.len()
    } else if b.len() == 0 {
        a.len()
    } else {
        let sub = lev(a.drop_last(), b.drop_last()) + if a.last() == b.last() { 0nat } else { 1nat };
        let del = lev(a.drop_last(), b) + 1;
        let ins = lev(a, b.drop_last()) + 1;
        if sub <= del && sub <= ins {
            sub
        } else if del <= ins {
            del
        } else {
            ins
        }
    }
}

proof fn lemma_lev_bound(a: Seq<char>, b: Seq<char>)
    ensures
        lev(a, b) <= a.len() + b.len(),
    decreases a.len() + b.len(),
{
    if a.len() > 0 && b.len() > 0 {
        lemma_lev_bound(a.drop_last(), b);
    }
}

/// Levenshtein distance, for ranking near-miss names.
fn edit_distance(a: &Vec<char>, b: &Vec<char>) -> (r: usize)
    requires
        a@.len() + b@.len() < usize::MAX,
    ensures
        r == lev(a@, b@),
{
    let n = b.len();
    let mut previous: Vec<usize> = Vec::new();
    let mut j: usize = 0;
    while j <= n
        invariant
            j <= n + 1,
            n == b@.len(),
            n < usize::MAX,
            previous@.len() == j,
            forall|x: int| 0 <= x < j ==> #[trigger] previous@[x] == lev(a@.take(0), b@.take(x)),
        decreases n + 1 - j,
    {
        proof {
            assert(a@.take(0).len() == 0);
        }
        previous.push(j);
        j = j + 1;
    }
    let mut i: usize = 0;
    while i < a.len()
        invariant
            i <= a@.len(),
            n == b@.len(),
            a@.len() + b@.len() < usize::MAX,
            previous@.len() == n + 1,
            forall|x: int| 0 <= x <= n ==> #[trigger] previous@[x] == lev(a@.take(i as int), b@.take(x)),
        decreases a.len() - i,
    {
        let mut current: Vec<usize> = Vec::new();
        proof {
            assert(a@.take(i + 1).len() == i + 1);
            assert(b@.take(0).len() == 0);
        }
        current.push(i + 1);
        let mut k: usize = 0;
        while k < n
            invariant
                i < a@.len(),
                k <= n,
                n == b@.len(),
                a@.len() + b@.len() < usize::MAX,
                previous@.len() == n + 1,
                forall|x: int| 0 <= x <= n ==> #[trigger] previous@[x] == lev(a@.take(i as int), b@.take(x)),
                current@.len() == k + 1,
                forall|x: int| 0 <= x <= k ==> #[trigger] current@[x] == lev(a@.take(i + 1), b@.take(x)),
            decreases n - k,
        {
            let ghost ai = a@.take(i + 1);
            let ghost bk = b@.take(k + 1);
            proof {
                assert(ai.drop_last() =~= a@.take(i as int));
                assert(bk.drop_last() =~= b@.take(k as int));
                assert(ai.last() == a@[i as int]);
                assert(bk.last() == b@[k as int]);
                lemma_lev_bound(a@.take(i as int), b@.take(k as int));
                lemma_lev_bound(a@.take(i as int), bk);
                lemma_lev_bound(ai, b@.take(k as int));
            }
            let cost: usize = if a[i] == b[k] { 0 } else { 1 };
            let sub = previous[k] + cost;
            let del = previous[k + 1] + 1;
            let ins = current[k] + 1;
            let best = if sub <= del && sub <= ins {
                sub
            } else if del <= ins {
                del
            } else {
                ins
            };
            current.push(best);
            k = k + 1;
        }
        previous = current;
        i = i + 1;
    }
    proof {
        assert(a@.take(a@.len() as int) =~= a@);
        assert(b@.take(n as int) =~= b@);
    }
    previous[n]
}

/// How near `candidate` is to `value`, both lowercased: `0` for the same text, `1`
/// when one begins the other, `2` when one contains the other, else `3` plus their
/// edit distance (held at `usize::MAX` for texts too long to measure in memory).
pub open spec fn nearness(lowered: Seq<char>, candidate: Seq<char>) -> nat {
    if candidate == lowered {
        0
    } else if has_prefix(candidate, lowered) || has_prefix(lowered, candidate) {
        1
    } else if contains_seq(candidate, lowered) || contains_seq(lowered, candidate) {
        2
    } else if lowered.len() >= usize::MAX / 4 || candidate.len() >= usize::MAX / 4 {
        usize::MAX as nat
    } else {
        3 + lev(lowered, candidate)
    }
}

/// Whether scored candidate `a` ranks ahead of `b`: nearer first, then by name.
pub open spec fn ranks_ahead(a: (nat, Seq<char>), b: (nat, Seq<char>)) -> bool {
    a.0 < b.0 || (a.0 == b.0 && lex_lt(a.1, b.1))
}

/// The position of the first best-ranked entry of `rem` from `i` on, `best` so far.
pub open spec fn best_from(rem: Seq<(nat, Seq<char>)>, i: int, best: int) -> int
    decreases rem.len() - i,
{
    if i >= rem.len() {
        best
    } else if ranks_ahead(rem[i], rem[best]) {
        best_from(rem, i + 1, i)
    } else {
        best_from(rem, i + 1, best)
    }
}

/// Up to `n` names from `rem`, best-ranked first; among equals, the earlier one.
pub open spec fn pick(rem: Seq<(nat, Seq<char>)>, n: nat) -> Seq<Seq<char>>
    decreases n,
{
    if n == 0 || rem.len() == 0 {
        Seq::empty()
    } else {
        let k = best_from(rem, 1, 0);
        seq![rem[k].1] + pick(rem.remove(k), (n - 1) as nat)
    }
}

/// The candidates nearest to `value`, best first, at most three, none scoring past
/// six: prefix and substring hits before edit distance, ties broken by name.
pub open spec fn closest_to(value: Seq<char>, candidates: Seq<Seq<char>>) -> Seq<Seq<char>> {
    let lowered = lowercase_of(value);
    let scored = candidates.map_values(|c: Seq<char>| (nearness(lowered, lowercase_of(c)), c));
    pick(scored.filter(|p: (nat, Seq<char>)| p.0 <= 6), 3)
}

proof fn lemma_best_from_range(rem: Seq<(nat, Seq<char>)>, i: int, best: int)
    requires
        0 <= best < rem.len(),
        best < i,
    ensures
        0 <= best_from(rem, i, best) < rem.len(),
    decreases rem.len() - i,
{
    if i < rem.len() {
        if ranks_ahead(rem[i], rem[best]) {
            lemma_best_from_range(rem, i + 1, i);
        } else {
            lemma_best_from_range(rem, i + 1, best);
        }
    }
}

/// The nearness score of `candidate` against an already lowercased `lowered`.
fn score(lowered: &Vec<char>, candidate: &str) -> (r: usize)
    ensures
        r as nat == nearness(lowered@, lowercase_of(candidate@)),
{
    let lower_s = lowercase(candidate);
    let lower = chars_of(lower_s.as_str());
    if chars_eq(lower.as_slice(), lowered.as_slice()) {
        return 0;
    }
    if starts_at(lower.as_slice(), 0, lowered.as_slice()) || starts_at(lowered.as_slice(), 0, lower.as_slice()) {
        proof {
            assert(lower@.skip(0) =~= lower@);
            assert(lowered@.skip(0) =~= lowered@);
        }
        return 1;
    }
    proof {
        assert(lower@.skip(0) =~= lower@);
        assert(lowered@.skip(0) =~= lowered@);
    }
    if chars_contain(lower.as_slice(), lowered.as_slice()) || chars_contain(lowered.as_slice(), lower.as_slice()) {
        return 2;
    }
    if lowered.len() >= usize::MAX / 4 || lower.len() >= usize::MAX / 4 {
        return usize::MAX;
    }
    proof { lemma_lev_bound(lowered@, lower@); }
    3 + edit_distance(lowered, &lower)
}

/// The view of a list of scored candidates.
pub open spec fn scored_view(v: Seq<(usize, String)>) -> Seq<(nat, Seq<char>)> {
    v.map_values(|p: (usize, String)| (p.0 as nat, p.1@))
}

/// Whether the scored candidate `a` ranks ahead of `b`.
fn ahead(a: &(usize, String), b: &(usize, String)) -> (r: bool)
    ensures
        r == ranks_ahead((a.0 as nat, a.1@), (b.0 as nat, b.1@)),
{
    if a.0 != b.0 {
        return a.0 < b.0;
    }
    let x = chars_of(a.1.as_str());
    let y = chars_of(b.1.as_str());
    text_lt(&x, &y)
}

/// The candidates nearest to `value`, best first, at most three.
///
/// Prefix and substring hits come first because they are what a typo usually produces;
/// otherwise edit distance decides, and beyond a distance of three the suggestion is
/// noise rather than help.
pub fn closest(value: &str, candidates: &Vec<String>) -> (r: Vec<String>)
    ensures
        crate::query::texts(r@) == closest_to(value@, crate::query::texts(candidates@)),
{
    let lowered_text = lowercase(value);
    let lowered = chars_of(lowered_text.as_str());
    let ghost cs = crate::query::texts(candidates@);
    let ghost f = |c: Seq<char>| (nearness(lowercase_of(value@), lowercase_of(c)), c);
    let ghost p = |q: (nat, Seq<char>)| q.0 <= 6;
    let mut rem: Vec<(usize, String)> = Vec::new();
    let mut i: usize = 0;
    while i < candidates.len()
        invariant
            i <= candidates@.len(),
            cs == crate::query::texts(candidates@),
            lowered@ == lowercase_of(value@),
            f == (|c: Seq<char>| (nearness(lowercase_of(value@), lowercase_of(c)), c)),
            p == (|q: (nat, Seq<char>)| q.0 <= 6),
            scored_view(rem@) == cs.take(i as int).map_values(f).filter(p),
        decreases candidates.len() - i,
    {
        let sc = score(&lowered, candidates[i].as_str());
        proof {
            let pre = cs.take(i as int).map_values(f);
            assert(cs.take(i + 1).map_values(f) =~= pre.push(f(cs[i as int])));
            pre.lemma_filter_push(f(cs[i as int]), p);
            assert(cs[i as int] == candidates@[i as int]@);
        }
        if sc <= 6 {
            let ghost r0 = rem@;
            rem.push((sc, candidates[i].clone()));
            assert(scored_view(rem@) =~= scored_view(r0).push((sc as nat, candidates@[i as int]@)));
        }
        i = i + 1;
    }
    assert(cs.take(cs.len() as int) =~= cs);
    let ghost whole = scored_view(rem@);
    let mut out: Vec<String> = Vec::new();
    let mut n: usize = 0;
    while n < 3 && rem.len() > 0
        invariant
            n <= 3,
            crate::query::texts(out@) + pick(scored_view(rem@), (3 - n) as nat) == pick(whole, 3),
        decreases rem.len(),
    {
        let ghost rv = scored_view(rem@);
        let mut best: usize = 0;
        let mut k: usize = 1;
        while k < rem.len()
            invariant
                1 <= k <= rem@.len(),
                best < k,
                rv == scored_view(rem@),
                best_from(rv, k as int, best as int) == best_from(rv, 1, 0),
            decreases rem.len() - k,
        {
            if ahead(&rem[k], &rem[best]) {
                best = k;
            }
            k = k + 1;
        }
        proof {
            lemma_best_from_range(rv, 1, 0);
            assert(rv.remove(best as int) =~= scored_view(rem@.remove(best as int)));
        }
        let (_, name) = rem.remove(best);
        let ghost o0 = crate::query::texts(out@);
        out.push(name);
        proof {
            assert(crate::query::texts(out@) =~= o0.push(rv[best as int].1));
            assert(pick(rv, (3 - n) as nat) == seq![rv[best as int].1] + pick(rv.remove(best as int), (3 - n - 1) as nat));
            assert(crate::query::texts(out@) + pick(scored_view(rem@), (3 - (n + 1)) as nat) =~= o0 + pick(rv, (3 - n) as nat));
        }
        n = n + 1;
    }
    proof {
        assert(pick(scored_view(rem@), (3 - n) as nat) =~= Seq::<Seq<char>>::empty());
        assert(crate::query::texts(out@) + Seq::<Seq<char>>::empty() =~= crate::query::texts(out@));
    }
    out
}

pub proof fn lemma_lex_irreflexive(a: Seq<char>)
    ensures
        !lex_lt(a, a),
    decreases a.len(),
{
    if a.len() > 0 {
        lemma_lex_irreflexive(a.drop_first());
    }
}

pub proof fn lemma_lex_asymmetric(a: Seq<char>, b: Seq<char>)
    ensures
        !(lex_lt(a, b) && lex_lt(b, a)),
    decreases a.len(),
{
    if a.len() > 0 && b.len() > 0 && a[0] == b[0] {
        lemma_lex_asymmetric(a.drop_first(), b.drop_first());
    }
}

pub proof fn lemma_lex_total(a: Seq<char>, b: Seq<char>)
    ensures
        a == b || lex_lt(a, b) || lex_lt(b, a),
    decreases a.len(),
{
    if a.len() > 0 && b.len() > 0 && a[0] == b[0] {
        lemma_lex_total(a.drop_first(), b.drop_first());
        if a.drop_first() == b.drop_first() {
            assert(a =~= seq![a[0]] + a.drop_first());
            assert(b =~= seq![b[0]] + b.drop_first());
        }
    } else if a.len() == 0 && b.len() == 0 {
        assert(a =~= b);
    }
}

/// Whether `r` is in strictly ascending order.
pub open spec fn ascending(r: Seq<Seq<char>>) -> bool {
    forall|i: int, j: int| 0 <= i < j < r.len() ==> lex_lt(#[trigger] r[i], #[trigger] r[j])
}

proof fn lemma_ascending_unique(a: Seq<Seq<char>>, b: Seq<Seq<char>>)
    requires
        ascending(a),
        ascending(b),
        forall|x: Seq<char>| a.contains(x) <==> b.contains(x),
    ensures
        a == b,
    decreases a.len(),
{
    if a.len() == 0 {
        if b.len() > 0 {
            assert(b.contains(b[0]));
        }
        assert(a =~= b);
    } else {
        assert(a.contains(a[0]));
        assert(b.len() > 0);
        assert(b.contains(b[0]));
        assert(a[0] == b[0]) by {
            let ja = choose|j: int| 0 <= j < a.len() && a[j] == b[0];
            let jb = choose|j: int| 0 <= j < b.len() && b[j] == a[0];
            if a[0] != b[0] {
                assert(ja > 0 && jb > 0);
                assert(lex_lt(a[0], a[ja]));
                assert(lex_lt(b[0], b[jb]));
                lemma_lex_asymmetric(a[0], b[0]);
            }
        }
        let a1 = a.drop_first();
        let b1 = b.drop_first();
        assert forall|x: Seq<char>| a1.contains(x) <==> b1.contains(x) by {
            if a1.contains(x) {
                let j = choose|j: int| 0 <= j < a1.len() && a1[j] == x;
                assert(a[j + 1] == x);
                assert(a.contains(x));
                assert(lex_lt(a[0], a[j + 1]));
                lemma_lex_irreflexive(x);
                assert(x != a[0]);
                let k = choose|k: int| 0 <= k < b.len() && b[k] == x;
                assert(k > 0);
                assert(b1[k - 1] == x);
            }
            if b1.contains(x) {
                let j = choose|j: int| 0 <= j < b1.len() && b1[j] == x;
                assert(b[j + 1] == x);
                assert(b.contains(x));
                assert(lex_lt(b[0], b[j + 1]));
                lemma_lex_irreflexive(x);
                assert(x != b[0]);
                let k = choose|k: int| 0 <= k < a.len() && a[k] == x;
                assert(k > 0);
                assert(a1[k - 1] == x);
            }
        }
        assert(ascending(a1)) by {
            assert forall|i: int, j: int| 0 <= i < j < a1.len() implies lex_lt(#[trigger] a1[i], #[trigger] a1[j]) by {
                assert(a1[i] == a[i + 1] && a1[j] == a[j + 1]);
            }
        }
        assert(ascending(b1)) by {
            assert forall|i: int, j: int| 0 <= i < j < b1.len() implies lex_lt(#[trigger] b1[i], #[trigger] b1[j]) by {
                assert(b1[i] == b[i + 1] && b1[j] == b[j + 1]);
            }
        }
        lemma_ascending_unique(a1, b1);
        assert(a =~= seq![a[0]] + a1);
        assert(b =~= seq![b[0]] + b1);
    }
}

/// Every subtype name any registered language emits under `lens`, duplicates kept.
pub open spec fn subtype_pool(lens: crate::model::Lens) -> Seq<Seq<char>> {
    (crate::lang::rust_subtypes() + crate::lang::python_subtypes() + crate::lang::typescript_subtypes()
        + crate::lang::swift_subtypes()).filter(under_lens(lens)).map_values(entry_name())
}

/// Whether a table entry belongs to `lens`.
pub open spec fn under_lens(lens: crate::model::Lens) -> spec_fn((crate::model::Lens, Seq<char>)) -> bool {
    |e: (crate::model::Lens, Seq<char>)| e.0 == lens
}

/// A table entry's subtype name.
pub open spec fn entry_name() -> spec_fn((crate::model::Lens, Seq<char>)) -> Seq<char> {
    |e: (crate::model::Lens, Seq<char>)| e.1
}

/// The subtype names valid under `lens`: each name any registered language emits,
/// once, in ascending order.
pub open spec fn known_for(lens: crate::model::Lens) -> Seq<Seq<char>> {
    choose|r: Seq<Seq<char>>| ascending(r) && forall|x: Seq<char>| r.contains(x) <==> subtype_pool(lens).contains(x)
}

/// Every facet subtype *any* registered language can emit under `lens`, sorted and
/// without repeats — unioned across languages, since a Python `substitution:protocol`
/// is as valid a term as a Rust `substitution:dyn`.
pub fn known_subtypes(lens: crate::model::Lens) -> (r: Vec<String>)
    ensures
        crate::query::texts(r@) == known_for(lens),
{
    let mut table = crate::lang::rust_subtype_table();
    let mut more = crate::lang::python_subtype_table();
    table.append(&mut more);
    let mut more = crate::lang::typescript_subtype_table();
    table.append(&mut more);
    let mut more = crate::lang::swift_subtype_table();
    table.append(&mut more);
    let ghost tv = crate::lang::rust_subtypes() + crate::lang::python_subtypes() + crate::lang::typescript_subtypes()
        + crate::lang::swift_subtypes();
    assert(crate::lang::table_view(table@) =~= tv);
    let ghost pred = under_lens(lens);
    let ghost name = entry_name();
    let mut pool: Vec<Vec<char>> = Vec::new();
    let mut i: usize = 0;
    while i < table.len()
        invariant
            i <= table@.len(),
            tv == crate::lang::table_view(table@),
            pred == under_lens(lens),
            name == entry_name(),
            vviews(pool@) == tv.take(i as int).filter(pred).map_values(name),
        decreases table.len() - i,
    {
        proof {
            let pre = tv.take(i as int);
            assert(tv.take(i + 1) =~= pre.push(tv[i as int]));
            pre.lemma_filter_push(tv[i as int], pred);
        }
        if table[i].0 == lens {
            let ghost p0 = pool@;
            pool.push(chars_of(table[i].1.0));
            assert(vviews(pool@) =~= vviews(p0).push(tv[i as int].1));
        }
        i = i + 1;
    }
    assert(tv.take(tv.len() as int) =~= tv);
    let ghost want = subtype_pool(lens);
    assert(vviews(pool@) == want);
    // Repeatedly take the least remaining name, dropping its repeats.
    let mut out: Vec<String> = Vec::new();
    let ghost mut outv: Seq<Seq<char>> = Seq::empty();
    while pool.len() > 0
        invariant
            outv == crate::query::texts(out@),
            ascending(outv),
            forall|x: Seq<char>| want.contains(x) <==> (outv.contains(x) || vviews(pool@).contains(x)),
            forall|i: int, j: int| 0 <= i < outv.len() && 0 <= j < pool@.len() ==> lex_lt(#[trigger] outv[i], #[trigger] pool@[j]@),
        decreases pool.len(),
    {
        let mut best: usize = 0;
        let mut k: usize = 1;
        proof { lemma_lex_irreflexive(pool@[0]@); }
        while k < pool.len()
            invariant
                1 <= k <= pool@.len(),
                best < pool@.len(),
                forall|j: int| 0 <= j < k ==> !lex_lt(#[trigger] pool@[j]@, pool@[best as int]@),
            decreases pool.len() - k,
        {
            if text_lt(&pool[k], &pool[best]) {
                proof {
                    assert forall|j: int| 0 <= j < k + 1 implies !lex_lt(#[trigger] pool@[j]@, pool@[k as int]@) by {
                        if j < k {
                            lemma_lex_asymmetric(pool@[j]@, pool@[best as int]@);
                            lemma_lex_total(pool@[j]@, pool@[best as int]@);
                            if lex_lt(pool@[j]@, pool@[k as int]@) {
                                lemma_lex_trans(pool@[j]@, pool@[k as int]@, pool@[best as int]@);
                            }
                        } else {
                            lemma_lex_irreflexive(pool@[k as int]@);
                        }
                    }
                }
                best = k;
            }
            k = k + 1;
        }
        let least = string_from(&pool[best]);
        let ghost m = pool@[best as int]@;
        // Drop every copy of the least name.
        let ghost before = pool@;
        let mut kept: Vec<Vec<char>> = Vec::new();
        let mut j: usize = 0;
        while j < pool.len()
            invariant
                j <= pool@.len(),
                pool@ == before,
                best < pool@.len(),
                m == before[best as int]@,
                kept@.len() <= j,
                j > best ==> kept@.len() < j,
                forall|x: int| 0 <= x < kept@.len() ==> (#[trigger] kept@[x])@ != m && vviews(before).contains(kept@[x]@),
                forall|x: int| 0 <= x < j && before[x]@ != m ==> vviews(kept@).contains(#[trigger] before[x]@),
            decreases pool.len() - j,
        {
            if !chars_eq(pool[j].as_slice(), pool[best].as_slice()) {
                let ghost k0 = kept@;
                kept.push(copy_chars(&pool[j]));
                proof {
                    assert(kept@[k0.len() as int]@ == before[j as int]@);
                    assert(vviews(before)[j as int] == before[j as int]@);
                    assert(vviews(before).contains(before[j as int]@));
                    assert forall|x: int| 0 <= x < j + 1 && before[x]@ != m implies vviews(kept@).contains(#[trigger] before[x]@) by {
                        if x < j {
                            let y = choose|y: int| 0 <= y < k0.len() && #[trigger] vviews(k0)[y] == before[x]@;
                            assert(vviews(kept@)[y] == before[x]@);
                        } else {
                            assert(vviews(kept@)[k0.len() as int] == before[x]@);
                        }
                    }
                }
            }
            j = j + 1;
        }
        proof {
            let pv = vviews(before);
            let kv = vviews(kept@);
            assert forall|i: int| 0 <= i < outv.len() implies lex_lt(#[trigger] outv[i], m) by {
                assert(lex_lt(outv[i], before[best as int]@));
            }
            assert forall|x: int| 0 <= x < kept@.len() implies lex_lt(m, #[trigger] kept@[x]@) by {
                let y = choose|y: int| 0 <= y < pv.len() && pv[y] == kept@[x]@;
                assert(!lex_lt(before[y]@, m));
                lemma_lex_total(m, kept@[x]@);
            }
        }
        out.push(least);
        proof {
            let pv = vviews(before);
            let kv = vviews(kept@);
            let o0 = outv;
            outv = outv.push(m);
            assert(outv == crate::query::texts(out@));
            assert forall|i: int, j: int| 0 <= i < j < outv.len() implies lex_lt(#[trigger] outv[i], #[trigger] outv[j]) by {
                if j == o0.len() {
                    assert(outv[i] == o0[i]);
                } else {
                    assert(outv[i] == o0[i] && outv[j] == o0[j]);
                }
            }
            assert forall|x: Seq<char>| want.contains(x) <==> (outv.contains(x) || kv.contains(x)) by {
                if pv.contains(x) {
                    let y = choose|y: int| 0 <= y < pv.len() && pv[y] == x;
                    if x == m {
                        assert(outv[o0.len() as int] == x);
                    } else {
                        assert(before[y]@ == x);
                    }
                }
                if o0.contains(x) {
                    let y = choose|y: int| 0 <= y < o0.len() && o0[y] == x;
                    assert(outv[y] == x);
                }
                if outv.contains(x) {
                    let y = choose|y: int| 0 <= y < outv.len() && outv[y] == x;
                    if y < o0.len() {
                        assert(o0[y] == x);
                    } else {
                        assert(pv[best as int] == x);
                    }
                }
                if kv.contains(x) {
                    let y = choose|y: int| 0 <= y < kv.len() && kv[y] == x;
                    assert(kept@[y]@ == x);
                }
            }
            assert forall|i: int, j: int| 0 <= i < outv.len() && 0 <= j < kept@.len() implies lex_lt(#[trigger] outv[i], #[trigger] kept@[j]@) by {
                if i < o0.len() {
                    let y = choose|y: int| 0 <= y < pv.len() && pv[y] == kept@[j]@;
                    assert(outv[i] == o0[i]);
                    assert(lex_lt(o0[i], before[y]@));
                } else {
                    assert(outv[i] == m);
                }
            }
        }
        pool = kept;
    }
    proof {
        assert(vviews(pool@) =~= Seq::<Seq<char>>::empty());
        let r = known_for(lens);
        assert(ascending(outv) && forall|x: Seq<char>| outv.contains(x) <==> subtype_pool(lens).contains(x));
        assert(ascending(r) && forall|x: Seq<char>| r.contains(x) <==> subtype_pool(lens).contains(x));
        lemma_ascending_unique(outv, r);
    }
    out
}

pub proof fn lemma_lex_trans(a: Seq<char>, b: Seq<char>, c: Seq<char>)
    requires
        lex_lt(a, b),
        lex_lt(b, c),
    ensures
        lex_lt(a, c),
    decreases a.len(),
{
    if a.len() > 0 && b.len() > 0 && c.len() > 0 && a[0] == b[0] && b[0] == c[0] {
        lemma_lex_trans(a.drop_first(), b.drop_first(), c.drop_first());
    }
}

/// The views of a list of character vectors.
pub open spec fn vviews(v: Seq<Vec<char>>) -> Seq<Seq<char>> {
    v.map_values(|x: Vec<char>| x@)
}

/// A copy of `chars`.
fn copy_chars(chars: &Vec<char>) -> (r: Vec<char>)
    ensures
        r@ == chars@,
{
    let mut out: Vec<char> = Vec::new();
    let mut i: usize = 0;
    while i < chars.len()
        invariant
            i <= chars@.len(),
            out@ == chars@.take(i as int),
        decreases chars.len() - i,
    {
        out.push(chars[i]);
        assert(chars@.take(i + 1) =~= chars@.take(i as int).push(chars@[i as int]));
        i = i + 1;
    }
    assert(chars@.take(chars@.len() as int) =~= chars@);
    out
}

/// A string holding `chars`.
fn string_from(chars: &Vec<char>) -> (r: String)
    ensures
        r@ == chars@,
{
    crate::text::string_of(chars.as_slice())
}

/// The lens named `v`, if any.
pub open spec fn lens_named(v: Seq<char>) -> Option<Lens> {
    if exists|l: Lens| l.spec_name() == v {
        Some(choose|l: Lens| l.spec_name() == v)
    } else {
        None
    }
}

/// The visibility level named `v`, if any.
pub open spec fn visibility_named(v: Seq<char>) -> Option<Visibility> {
    if exists|l: Visibility| l.spec_name() == v {
        Some(choose|l: Visibility| l.spec_name() == v)
    } else {
        None
    }
}

/// The node kind named `v`, if any.
pub open spec fn kind_named(v: Seq<char>) -> Option<NodeKind> {
    if exists|l: NodeKind| l.spec_name() == v {
        Some(choose|l: NodeKind| l.spec_name() == v)
    } else {
        None
    }
}

/// The edge kind named `v`, if any.
pub open spec fn edge_named(v: Seq<char>) -> Option<EdgeKind> {
    if exists|l: EdgeKind| l.spec_name() == v {
        Some(choose|l: EdgeKind| l.spec_name() == v)
    } else {
        None
    }
}

/// The lens names, in lens order.
pub open spec fn lens_names() -> Seq<Seq<char>> {
    seq!["api"@, "substitution"@, "variation"@, "boundary"@, "hazard"@]
}

/// Every prefix a term may start with, for suggestions.
pub open spec fn term_prefixes() -> Seq<Seq<char>> {
    seq!["lens"@, "vis"@, "kind"@, "in"@, "cfg"@, "config"@, "pivot"@] + lens_names()
}

/// A failure with no suggestions.
pub open spec fn failure(message: Seq<char>, span: (int, int)) -> ErrorView {
    (message, span, Seq::empty())
}

/// An "unknown X" failure carrying the nearest valid names.
pub open spec fn unknown_name(what: Seq<char>, value: Seq<char>, span: (int, int), candidates: Seq<Seq<char>>) -> ErrorView {
    ("unknown "@ + what + " `"@ + value + "`"@, span, closest_to(value, candidates))
}

/// What `pivot:<edge>:<path>` means, given the text after `pivot:`.
pub open spec fn pivot_of(value: Seq<char>, span: (int, int)) -> Result<KindView, ErrorView> {
    let c = first_index(value, ':');
    if c < 0 {
        Err(failure("`pivot:` needs an edge kind and a node path, as `pivot:<edge>:<path>`"@, span))
    } else {
        let edge_name = value.take(c);
        let target = value.skip(c + 1);
        match edge_named(edge_name) {
            None => Err(unknown_name("edge kind"@, edge_name, span, all_edge_kinds().map_values(|k: EdgeKind| k.spec_name()))),
            Some(edge) => match path_of(target) {
                Ok(p) => Ok(KindView::Pivot(edge, p)),
                Err(e) => Err(failure("`pivot:` needs a node path ("@ + describe_path_error(e) + ")"@, span)),
            },
        }
    }
}

/// What one term other than `config:` means, given its text without any `!`.
pub open spec fn term_of(body: Seq<char>, span: (int, int)) -> Result<KindView, ErrorView> {
    if body.len() > 0 && body[0] == '"' {
        let phrase = body.drop_first();
        Ok(KindView::Phrase(if phrase.len() > 0 && phrase.last() == '"' { phrase.drop_last() } else { phrase }))
    } else {
        let c = first_index(body, ':');
        if c < 0 {
            Ok(KindView::Name(body))
        } else {
            let prefix = body.take(c);
            let value = body.skip(c + 1);
            if value.len() == 0 {
                Err(failure("`"@ + prefix + ":` needs a value"@, span))
            } else if prefix == "lens"@ {
                match lens_named(value) {
                    Some(l) => Ok(KindView::Lens(l)),
                    None => Err(unknown_name("lens"@, value, span, lens_names())),
                }
            } else if prefix == "vis"@ {
                match visibility_named(value) {
                    Some(v) => Ok(KindView::Visibility(v)),
                    None => Err(unknown_name("visibility level"@, value, span, all_visibilities().map_values(|v: Visibility| v.spec_name()))),
                }
            } else if prefix == "kind"@ {
                match kind_named(value) {
                    Some(k) => Ok(KindView::Kind(k)),
                    None => Err(unknown_name("node kind"@, value, span, all_kinds().map_values(|k: NodeKind| k.spec_name()))),
                }
            } else if prefix == "in"@ {
                match path_of(value) {
                    Ok(p) => Ok(KindView::In(p)),
                    Err(e) => Err(failure("`in:` needs a node path ("@ + describe_path_error(e) + ")"@, span)),
                }
            } else if prefix == "cfg"@ {
                Ok(KindView::Cfg(value))
            } else if prefix == "pivot"@ {
                pivot_of(value, span)
            } else {
                match lens_named(prefix) {
                    Some(l) => {
                        let known = known_for(l);
                        if known.len() > 0 && !known.contains(value) {
                            Err(unknown_name(l.spec_name() + " facet"@, value, span, known))
                        } else {
                            Ok(KindView::Facet(l, value))
                        }
                    },
                    None => Err(unknown_name("term"@, prefix, span, term_prefixes())),
                }
            }
        }
    }
}

/// The position of the first `c` in `s` at or after `from`.
fn find_char(s: &Vec<char>, c: char) -> (r: Option<usize>)
    ensures
        match r {
            Some(i) => i as int == first_index(s@, c) && i < s@.len(),
            None => first_index(s@, c) < 0,
        },
{
    let mut i: usize = 0;
    while i < s.len()
        invariant
            i <= s@.len(),
            forall|j: int| 0 <= j < i ==> s@[j] != c,
        decreases s.len() - i,
    {
        if s[i] == c {
            proof { lemma_first_index_at(s@, c, i as int); }
            return Some(i);
        }
        i = i + 1;
    }
    proof { lemma_first_index_none(s@, c); }
    None
}

proof fn lemma_first_index_at(s: Seq<char>, c: char, i: int)
    requires
        0 <= i < s.len(),
        s[i] == c,
        forall|j: int| 0 <= j < i ==> s[j] != c,
    ensures
        first_index(s, c) == i,
    decreases i,
{
    if i > 0 {
        lemma_first_index_at(s.drop_first(), c, i - 1);
    }
}

proof fn lemma_first_index_none(s: Seq<char>, c: char)
    requires
        forall|j: int| 0 <= j < s.len() ==> s[j] != c,
    ensures
        first_index(s, c) < 0,
    decreases s.len(),
{
    if s.len() > 0 {
        lemma_first_index_none(s.drop_first(), c);
    }
}

/// A string holding `a` then `b` then `c`.
fn concat3(a: &str, b: &str, c: &str) -> (r: String)
    ensures
        r@ == a@ + b@ + c@,
{
    let mut s = String::new();
    crate::text::push_str(&mut s, a);
    crate::text::push_str(&mut s, b);
    crate::text::push_str(&mut s, c);
    assert(s@ =~= a@ + b@ + c@);
    s
}

/// A failure at `span` with no suggestions.
fn fail(message: String, span: (usize, usize)) -> (r: QueryError)
    ensures
        r@ == failure(message@, (span.0 as int, span.1 as int)),
{
    let e = QueryError::new(message, span.0..span.1);
    assert(crate::query::texts(e.suggestions@) =~= Seq::<Seq<char>>::empty());
    e
}

/// An "unrecognized X" failure carrying the nearest valid names.
fn unknown(what: &str, value: &str, span: (usize, usize), candidates: &Vec<String>) -> (r: QueryError)
    ensures
        r@ == unknown_name(what@, value@, (span.0 as int, span.1 as int), crate::query::texts(candidates@)),
{
    let mut message = String::new();
    crate::text::push_str(&mut message, "unknown ");
    crate::text::push_str(&mut message, what);
    crate::text::push_str(&mut message, " `");
    crate::text::push_str(&mut message, value);
    crate::text::push_str(&mut message, "`");
    assert(message@ =~= "unknown "@ + what@ + " `"@ + value@ + "`"@);
    QueryError::new(message, span.0..span.1).with_suggestions(closest(value, candidates))
}

/// Owned copies of `names`.
fn owned_names(names: &Vec<&'static str>) -> (r: Vec<String>)
    ensures
        crate::query::texts(r@) == names@.map_values(|s: &'static str| s@),
{
    let mut out: Vec<String> = Vec::new();
    let mut i: usize = 0;
    while i < names.len()
        invariant
            i <= names@.len(),
            crate::query::texts(out@) == names@.take(i as int).map_values(|s: &'static str| s@),
        decreases names.len() - i,
    {
        let ghost o0 = out@;
        out.push(names[i].to_string());
        assert(crate::query::texts(out@) =~= crate::query::texts(o0).push(names@[i as int]@));
        assert(names@.take(i + 1).map_values(|s: &'static str| s@) =~= names@.take(i as int).map_values(|s: &'static str| s@).push(names@[i as int]@));
        i = i + 1;
    }
    assert(names@.take(names@.len() as int) =~= names@);
    out
}

/// Parse `pivot:<edge>:<node path>`, given the text after `pivot:`.
fn parse_pivot(value: &Vec<char>, span: (usize, usize)) -> (r: Result<TermKind, QueryError>)
    ensures
        match r {
            Ok(k) => pivot_of(value@, (span.0 as int, span.1 as int)) == Ok::<KindView, ErrorView>(k@),
            Err(e) => pivot_of(value@, (span.0 as int, span.1 as int)) == Err::<KindView, ErrorView>(e@),
        },
{
    let c = match find_char(value, ':') {
        Some(c) => c,
        None => {
            return Err(fail("`pivot:` needs an edge kind and a node path, as `pivot:<edge>:<path>`".to_string(), span));
        },
    };
    let n = value.len();
    let edge_name = crate::text::string_of_range(value.as_slice(), 0, c);
    let target = crate::text::string_of_range(value.as_slice(), c + 1, n);
    assert(value@.subrange(0, c as int) =~= value@.take(c as int));
    assert(value@.subrange(c + 1, value@.len() as int) =~= value@.skip(c + 1));
    let edge = match EdgeKind::from_name(edge_name.as_str()) {
        Some(edge) => {
            proof {
                assert forall|k: EdgeKind| k.spec_name() == edge_name@ implies k == edge by {
                    crate::edge::lemma_edge_kind_names_distinct(k, edge);
                }
            }
            edge
        },
        None => {
            let kinds = EdgeKind::all();
            let mut names: Vec<String> = Vec::new();
            let mut i: usize = 0;
            while i < kinds.len()
                invariant
                    i <= kinds@.len(),
                    crate::query::texts(names@) == kinds@.take(i as int).map_values(|k: EdgeKind| k.spec_name()),
                decreases kinds.len() - i,
            {
                let ghost n0 = names@;
                names.push(kinds[i].name().to_string());
                assert(crate::query::texts(names@) =~= crate::query::texts(n0).push(kinds@[i as int].spec_name()));
                assert(kinds@.take(i + 1).map_values(|k: EdgeKind| k.spec_name()) =~= kinds@.take(i as int).map_values(|k: EdgeKind| k.spec_name()).push(kinds@[i as int].spec_name()));
                i = i + 1;
            }
            assert(kinds@.take(kinds@.len() as int) =~= kinds@);
            return Err(unknown("edge kind", edge_name.as_str(), span, &names));
        },
    };
    match SeamPath::parse(target.as_str()) {
        Ok(path) => Ok(TermKind::Pivot { edge, target: path }),
        Err(error) => {
            let described = error.describe();
            Err(fail(concat3("`pivot:` needs a node path (", described.as_str(), ")"), span))
        },
    }
}

/// The names of `items`, in order, as owned strings.
fn visibility_names() -> (r: Vec<String>)
    ensures
        crate::query::texts(r@) == all_visibilities().map_values(|v: Visibility| v.spec_name()),
{
    let all = Visibility::all();
    let mut names: Vec<String> = Vec::new();
    let mut i: usize = 0;
    while i < all.len()
        invariant
            i <= all@.len(),
            all@ == all_visibilities(),
            crate::query::texts(names@) == all@.take(i as int).map_values(|v: Visibility| v.spec_name()),
        decreases all.len() - i,
    {
        let ghost n0 = names@;
        names.push(all[i].name().to_string());
        assert(crate::query::texts(names@) =~= crate::query::texts(n0).push(all@[i as int].spec_name()));
        assert(all@.take(i + 1).map_values(|v: Visibility| v.spec_name()) =~= all@.take(i as int).map_values(|v: Visibility| v.spec_name()).push(all@[i as int].spec_name()));
        i = i + 1;
    }
    assert(all@.take(all@.len() as int) =~= all@);
    names
}

/// The node kind names, in order, as owned strings.
fn kind_names() -> (r: Vec<String>)
    ensures
        crate::query::texts(r@) == all_kinds().map_values(|k: NodeKind| k.spec_name()),
{
    let all = NodeKind::all();
    let mut names: Vec<String> = Vec::new();
    let mut i: usize = 0;
    while i < all.len()
        invariant
            i <= all@.len(),
            all@ == all_kinds(),
            crate::query::texts(names@) == all@.take(i as int).map_values(|k: NodeKind| k.spec_name()),
        decreases all.len() - i,
    {
        let ghost n0 = names@;
        names.push(all[i].name().to_string());
        assert(crate::query::texts(names@) =~= crate::query::texts(n0).push(all@[i as int].spec_name()));
        assert(all@.take(i + 1).map_values(|k: NodeKind| k.spec_name()) =~= all@.take(i as int).map_values(|k: NodeKind| k.spec_name()).push(all@[i as int].spec_name()));
        i = i + 1;
    }
    assert(all@.take(all@.len() as int) =~= all@);
    names
}

/// Whether `names` holds `value`.
fn names_contain(names: &Vec<String>, value: &str) -> (r: bool)
    ensures
        r == crate::query::texts(names@).contains(value@),
{
    let mut i: usize = 0;
    while i < names.len()
        invariant
            i <= names@.len(),
            forall|j: int| 0 <= j < i ==> names@[j]@ != value@,
        decreases names.len() - i,
    {
        if crate::text::str_eq(names[i].as_str(), value) {
            assert(crate::query::texts(names@)[i as int] == value@);
            return true;
        }
        i = i + 1;
    }
    assert forall|j: int| 0 <= j < crate::query::texts(names@).len() implies crate::query::texts(names@)[j] != value@ by {
        assert(crate::query::texts(names@)[j] == names@[j]@);
    }
    false
}

/// Parse one term other than `config:`, given its text without any `!`.
fn parse_term(body: &Vec<char>, span: (usize, usize)) -> (r: Result<TermKind, QueryError>)
    ensures
        match r {
            Ok(k) => term_of(body@, (span.0 as int, span.1 as int)) == Ok::<KindView, ErrorView>(k@),
            Err(e) => term_of(body@, (span.0 as int, span.1 as int)) == Err::<KindView, ErrorView>(e@),
        },
{
    let n = body.len();
    if n > 0 && body[0] == '"' {
        let end = if n > 1 && body[n - 1] == '"' { n - 1 } else { n };
        let phrase = crate::text::string_of_range(body.as_slice(), 1, end);
        proof {
            let p = body@.drop_first();
            if n > 1 && body@[n - 1] == '"' {
                assert(p.last() == body@[n - 1]);
                assert(body@.subrange(1, end as int) =~= p.drop_last());
            } else {
                assert(body@.subrange(1, end as int) =~= p);
            }
        }
        return Ok(TermKind::Phrase(phrase));
    }
    let c = match find_char(body, ':') {
        Some(c) => c,
        None => {
            assert(body@.subrange(0, n as int) =~= body@);
            return Ok(TermKind::Name(crate::text::string_of(body.as_slice())));
        },
    };
    let prefix = crate::text::string_of_range(body.as_slice(), 0, c);
    let value_chars = crate::query::parse::copy_from(body, c + 1);
    let value = crate::text::string_of(value_chars.as_slice());
    assert(body@.subrange(0, c as int) =~= body@.take(c as int));
    assert(value@ == body@.skip(c + 1));
    if value_chars.len() == 0 {
        return Err(fail(concat3("`", prefix.as_str(), ":` needs a value"), span));
    }
    if crate::text::str_eq(prefix.as_str(), "lens") {
        match Lens::from_name(value.as_str()) {
            Some(l) => {
                proof {
                    assert forall|k: Lens| k.spec_name() == value@ implies k == l by {
                        crate::model::lemma_lens_names_distinct(k, l);
                    }
                }
                return Ok(TermKind::Lens(l));
            },
            None => {
                let names = vec!["api", "substitution", "variation", "boundary", "hazard"];
                let owned = owned_names(&names);
                assert(names@.map_values(|s: &'static str| s@) =~= lens_names());
                return Err(unknown("lens", value.as_str(), span, &owned));
            },
        }
    }
    if crate::text::str_eq(prefix.as_str(), "vis") {
        match Visibility::from_name(value.as_str()) {
            Some(v) => {
                proof {
                    assert forall|k: Visibility| k.spec_name() == value@ implies k == v by {
                        crate::model::lemma_visibility_names_distinct(k, v);
                    }
                }
                return Ok(TermKind::Visibility(v));
            },
            None => {
                let names = visibility_names();
                return Err(unknown("visibility level", value.as_str(), span, &names));
            },
        }
    }
    if crate::text::str_eq(prefix.as_str(), "kind") {
        match NodeKind::from_name(value.as_str()) {
            Some(k) => {
                proof {
                    assert forall|q: NodeKind| q.spec_name() == value@ implies q == k by {
                        crate::model::lemma_kind_names_distinct(q, k);
                    }
                }
                return Ok(TermKind::Kind(k));
            },
            None => {
                let names = kind_names();
                return Err(unknown("node kind", value.as_str(), span, &names));
            },
        }
    }
    if crate::text::str_eq(prefix.as_str(), "in") {
        match SeamPath::parse(value.as_str()) {
            Ok(path) => {
                return Ok(TermKind::In(path));
            },
            Err(error) => {
                let described = error.describe();
                return Err(fail(concat3("`in:` needs a node path (", described.as_str(), ")"), span));
            },
        }
    }
    if crate::text::str_eq(prefix.as_str(), "cfg") {
        return Ok(TermKind::Cfg(value));
    }
    if crate::text::str_eq(prefix.as_str(), "pivot") {
        return parse_pivot(&value_chars, span);
    }
    match Lens::from_name(prefix.as_str()) {
        Some(l) => {
            proof {
                assert forall|k: Lens| k.spec_name() == prefix@ implies k == l by {
                    crate::model::lemma_lens_names_distinct(k, l);
                }
            }
            let known = known_subtypes(l);
            if known.len() > 0 && !names_contain(&known, value.as_str()) {
                let mut what = String::new();
                crate::text::push_str(&mut what, l.name());
                crate::text::push_str(&mut what, " facet");
                return Err(unknown(what.as_str(), value.as_str(), span, &known));
            }
            Ok(TermKind::Facet { lens: l, subtype: value })
        },
        None => {
            let names = vec!["lens", "vis", "kind", "in", "cfg", "config", "pivot", "api", "substitution", "variation", "boundary", "hazard"];
            let owned = owned_names(&names);
            assert(names@.map_values(|s: &'static str| s@) =~= term_prefixes());
            Err(unknown("term", prefix.as_str(), span, &owned))
        },
    }
}

/// A copy of `chars` from position `from` on.
fn copy_from(chars: &Vec<char>, from: usize) -> (r: Vec<char>)
    requires
        from <= chars@.len(),
    ensures
        r@ == chars@.skip(from as int),
{
    let mut out: Vec<char> = Vec::new();
    let mut i: usize = from;
    while i < chars.len()
        invariant
            from <= i <= chars@.len(),
            out@ == chars@.subrange(from as int, i as int),
        decreases chars.len() - i,
    {
        out.push(chars[i]);
        assert(chars@.subrange(from as int, i + 1) =~= chars@.subrange(from as int, i as int).push(chars@[i as int]));
        i = i + 1;
    }
    assert(chars@.subrange(from as int, chars@.len() as int) =~= chars@.skip(from as int));
    out
}

/// What the tokens of `s` from the `k`-th on say, given the terms read so far and the
/// `config:` directive seen so far (its name and the byte it started at).
pub open spec fn read_tokens(
    s: Seq<char>,
    toks: Seq<(int, int)>,
    k: int,
    terms: Seq<TermView>,
    config: Option<(Seq<char>, int)>,
) -> Result<QueryView, ErrorView>
    decreases toks.len() - k,
{
    if k < 0 || k >= toks.len() {
        Ok((terms, match config { Some(c) => Some(c.0), None => None }))
    } else {
        let a = toks[k].0;
        let e = toks[k].1;
        let t = s.subrange(a, e);
        let ba = byte_at(s, a);
        let be = byte_at(s, e);
        let negated = t.len() > 0 && t[0] == '!';
        let body = if negated { t.drop_first() } else { t };
        let bs = if negated { ba + 1 } else { ba };
        if body.len() == 0 {
            Err(failure("`!` needs a term to negate"@, (ba, be)))
        } else if has_prefix(body, "config:"@) {
            let name = body.skip(7);
            if negated {
                Err(failure("`config:` selects which configuration to evaluate under, so it cannot be negated"@, (ba, be)))
            } else if config is Some {
                let first = match config { Some(c) => c.1, None => 0 };
                Err(failure("only one `config:` may be given; the first is at byte "@ + crate::num::decimal(first as nat), (bs, be)))
            } else if name.len() == 0 {
                Err(failure("`config:` needs a configuration name"@, (bs, be)))
            } else {
                read_tokens(s, toks, k + 1, terms, Some((name, bs)))
            }
        } else {
            match term_of(body, (bs, be)) {
                Err(err) => Err(err),
                Ok(kind) => read_tokens(s, toks, k + 1, terms.push((negated, kind, (ba, be))), config),
            }
        }
    }
}

/// What query text says: its terms, or the first failure, positioned in bytes.
pub open spec fn query_of(text: Seq<char>) -> Result<QueryView, ErrorView> {
    read_tokens(text, tokens_from(text, 0), 0, Seq::empty(), None)
}

/// Parse query text into a [`Query`].
///
/// Fails, with the byte range that produced it, on an unrecognized term, an
/// unparseable value, or a misused `config:` directive. Text of more than a quarter of
/// the address space in characters is out of reach.
pub fn parse(text: &str) -> (r: Result<crate::query::Query, QueryError>)
    requires
        text@.len() < usize::MAX / 4,
    ensures
        match r {
            Ok(q) => query_of(text@) == Ok::<QueryView, ErrorView>(q@),
            Err(e) => query_of(text@) == Err::<QueryView, ErrorView>(e@),
        },
{
    let s = chars_of(text);
    let bytes = byte_offsets(&s);
    let toks = tokenize(&s);
    let ghost all = tokens_from(s@, 0);
    let mut query = crate::query::Query { terms: Vec::new(), configuration: None };
    let mut config_start: Option<usize> = None;
    let mut k: usize = 0;
    assert(crate::query::terms_view(query.terms@) =~= Seq::<TermView>::empty());
    while k < toks.len()
        invariant
            k <= toks@.len(),
            s@.len() < usize::MAX / 4,
            toks@.len() == all.len(),
            all == tokens_from(s@, 0),
            s@ == text@,
            bytes@.len() == s@.len() + 1,
            forall|j: int| 0 <= j <= s@.len() ==> #[trigger] bytes@[j] as int == byte_at(s@, j),
            forall|x: int| 0 <= x < toks@.len() ==> (#[trigger] toks@[x]).0 as int == all[x].0 && toks@[x].1 as int == all[x].1,
            forall|x: int| 0 <= x < toks@.len() ==> (#[trigger] toks@[x]).0 < toks@[x].1 <= s@.len(),
            query_of(text@) == read_tokens(s@, all, k as int, crate::query::terms_view(query.terms@), match config_start {
                Some(b) => Some((query.configuration->0@, b as int)),
                None => None::<(Seq<char>, int)>,
            }),
            config_start is Some <==> query.configuration is Some,
        decreases toks.len() - k,
    {
        let (a, e) = toks[k];
        proof {
            lemma_byte_at_bound(s@, a as int);
        }
        let ba = bytes[a];
        let be = bytes[e];
        let negated = s[a] == '!';
        let from = if negated { a + 1 } else { a };
        let bs = if negated { ba + 1 } else { ba };
        proof {
            let t = s@.subrange(a as int, e as int);
            assert(t[0] == s@[a as int]);
            if negated {
                assert(t.drop_first() =~= s@.subrange(a + 1, e as int));
            }
        }
        let body = crate::query::parse::slice_chars(&s, from, e);
        if body.len() == 0 {
            return Err(fail("`!` needs a term to negate".to_string(), (ba, be)));
        }
        let config_chars = chars_of("config:");
        if starts_at(body.as_slice(), 0, config_chars.as_slice()) {
            proof {
                assert(body@.subrange(0, body@.len() as int) =~= body@);
            }
            if negated {
                return Err(fail("`config:` selects which configuration to evaluate under, so it cannot be negated".to_string(), (ba, be)));
            }
            match config_start {
                Some(previous) => {
                    let mut message = String::new();
                    crate::text::push_str(&mut message, "only one `config:` may be given; the first is at byte ");
                    crate::num::push_usize(&mut message, previous);
                    return Err(fail(message, (bs, be)));
                },
                None => {},
            }
            proof {
                reveal_strlit("config:");
            }
            let name_chars = copy_from(&body, 7);
            if name_chars.len() == 0 {
                return Err(fail("`config:` needs a configuration name".to_string(), (bs, be)));
            }
            query.configuration = Some(crate::text::string_of(name_chars.as_slice()));
            config_start = Some(bs);
        } else {
            proof {
                assert(body@.subrange(0, body@.len() as int) =~= body@);
            }
            let kind = match parse_term(&body, (bs, be)) {
                Ok(kind) => kind,
                Err(err) => {
                    return Err(err);
                },
            };
            let ghost t0 = crate::query::terms_view(query.terms@);
            query.terms.push(crate::query::Term { negated, kind, span: ba..be });
            assert(crate::query::terms_view(query.terms@) =~= t0.push((negated, kind@, (ba as int, be as int))));
        }
        k = k + 1;
    }
    Ok(query)
}

/// A copy of `chars[from..to]`.
fn slice_chars(chars: &Vec<char>, from: usize, to: usize) -> (r: Vec<char>)
    requires
        from <= to <= chars@.len(),
    ensures
        r@ == chars@.subrange(from as int, to as int),
{
    let mut out: Vec<char> = Vec::new();
    let mut i: usize = from;
    while i < to
        invariant
            from <= i <= to,
            to <= chars@.len(),
            out@ == chars@.subrange(from as int, i as int),
        decreases to - i,
    {
        out.push(chars[i]);
        assert(chars@.subrange(from as int, i + 1) =~= chars@.subrange(from as int, i as int).push(chars@[i as int]));
        i = i + 1;
    }
    out
}

} // verus!
