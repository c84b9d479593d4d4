//! Matching one component of a Cargo `members`/`exclude` pattern.
//!
//! Cargo member patterns are `crates/*`, `libs/**`, and literals. `*` consumes any run
//! of characters within a component and `?` exactly one; character classes (`[a-z]`)
//! and alternation (`{a,b}`) are not supported, and a pattern using them matches only
//! its literal text — which no real directory name is — rather than something wrong.

use vstd::prelude::*;

verus! {

/// Whether `pattern` matches `name`: `*` any run of characters, `?` any one character,
/// anything else itself.
pub open spec fn glob(pattern: Seq<char>, name: Seq<char>) -> bool
    decreases pattern.len() + name.len(),
{
    if pattern.len() == 0 {
        name.len() == 0
    } else if pattern[0] == '*' {
        glob(pattern.drop_first(), name) || (name.len() > 0 && glob(pattern, name.drop_first()))
    } else if name.len() == 0 {
        false
    } else if pattern[0] == '?' || pattern[0] == name[0] {
        glob(pattern.drop_first(), name.drop_first())
    } else {
        false
    }
}

/// Whether the rest of `pattern` from `i` matches the rest of `name` from `j`.
pub open spec fn rest(pattern: Seq<char>, name: Seq<char>, i: int, j: int) -> bool {
    glob(pattern.skip(i), name.skip(j))
}

/// Whether the component `pattern[i..i + m]` holds no `*` and matches `name[j..j + m]`
/// character for character.
pub open spec fn literal_run(pattern: Seq<char>, name: Seq<char>, i: int, j: int, m: int) -> bool {
    &&& 0 <= m
    &&& 0 <= i && i + m <= pattern.len()
    &&& 0 <= j && j + m <= name.len()
    &&& forall|x: int| i <= x < i + m ==> #[trigger] pattern[x] != '*' && (pattern[x] == '?' || pattern[x] == name[j + (x - i)])
}

proof fn lemma_rest_unfold(pattern: Seq<char>, name: Seq<char>, i: int, j: int)
    requires
        0 <= i <= pattern.len(),
        0 <= j <= name.len(),
    ensures
        rest(pattern, name, i, j) == if i == pattern.len() {
            j == name.len()
        } else if pattern[i] == '*' {
            rest(pattern, name, i + 1, j) || (j < name.len() && rest(pattern, name, i, j + 1))
        } else if j == name.len() {
            false
        } else if pattern[i] == '?' || pattern[i] == name[j] {
            rest(pattern, name, i + 1, j + 1)
        } else {
            false
        },
{
    let p = pattern.skip(i);
    let n = name.skip(j);
    if i < pattern.len() {
        assert(p[0] == pattern[i]);
        assert(p.drop_first() =~= pattern.skip(i + 1));
    }
    if j < name.len() {
        assert(n[0] == name[j]);
        assert(n.drop_first() =~= name.skip(j + 1));
    }
}

/// A star can always swallow more: if the rest matches after skipping some of the
/// name, it matches without skipping.
proof fn lemma_star_absorbs(pattern: Seq<char>, name: Seq<char>, i: int, j: int, k: int)
    requires
        0 <= i < pattern.len(),
        pattern[i] == '*',
        0 <= j <= k <= name.len(),
        rest(pattern, name, i, k),
    ensures
        rest(pattern, name, i, j),
    decreases k - j,
{
    if j < k {
        lemma_star_absorbs(pattern, name, i, j + 1, k);
        lemma_rest_unfold(pattern, name, i, j);
    }
}

/// A star matches only if what follows it matches somewhere at or after `j`.
proof fn lemma_star_splits(pattern: Seq<char>, name: Seq<char>, i: int, j: int) -> (t: int)
    requires
        0 <= i < pattern.len(),
        pattern[i] == '*',
        0 <= j <= name.len(),
        rest(pattern, name, i, j),
    ensures
        j <= t <= name.len(),
        rest(pattern, name, i + 1, t),
    decreases name.len() - j,
{
    lemma_rest_unfold(pattern, name, i, j);
    if rest(pattern, name, i + 1, j) {
        j
    } else {
        lemma_star_splits(pattern, name, i, j + 1)
    }
}

/// A star-free run is matched character for character, so it moves both positions on
/// by its length.
proof fn lemma_run_forward(pattern: Seq<char>, name: Seq<char>, i: int, j: int, m: int)
    requires
        0 <= m,
        0 <= i && i + m <= pattern.len(),
        0 <= j <= name.len(),
        forall|x: int| i <= x < i + m ==> #[trigger] pattern[x] != '*',
        rest(pattern, name, i, j),
    ensures
        j + m <= name.len(),
        rest(pattern, name, i + m, j + m),
    decreases m,
{
    if m > 0 {
        lemma_rest_unfold(pattern, name, i, j);
        assert(pattern[i] != '*');
        lemma_run_forward(pattern, name, i + 1, j + 1, m - 1);
    }
}

/// A run that matched character for character leaves the match to what follows it.
proof fn lemma_run_back(pattern: Seq<char>, name: Seq<char>, i: int, j: int, m: int)
    requires
        literal_run(pattern, name, i, j, m),
    ensures
        rest(pattern, name, i, j) == rest(pattern, name, i + m, j + m),
    decreases m,
{
    if m > 0 {
        lemma_rest_unfold(pattern, name, i, j);
        assert(pattern[i] != '*' && (pattern[i] == '?' || pattern[i] == name[j]));
        lemma_run_back(pattern, name, i + 1, j + 1, m - 1);
    }
}

/// Whether everything from `i` on is a star.
pub open spec fn all_stars(pattern: Seq<char>, i: int) -> bool {
    forall|k: int| i <= k < pattern.len() ==> pattern[k] == '*'
}

proof fn lemma_stars_match_empty(pattern: Seq<char>, name: Seq<char>, i: int)
    requires
        0 <= i <= pattern.len(),
    ensures
        rest(pattern, name, i, name.len() as int) == all_stars(pattern, i),
    decreases pattern.len() - i,
{
    lemma_rest_unfold(pattern, name, i, name.len() as int);
    if i < pattern.len() {
        lemma_stars_match_empty(pattern, name, i + 1);
    }
}

/// Whether one glob component matches one path component.
///
/// `*` consumes any run of characters *within* the component and `?` exactly one, so
/// neither ever crosses a `/`. When the run a star took turns out too short, the match
/// resumes from that star with one more character consumed; only the latest star needs
/// revisiting.
pub fn matches(pattern: &str, name: &str) -> (r: bool)
    ensures
        r == glob(pattern@, name@),
{
    let pat = crate::text::chars_of(pattern);
    let nam = crate::text::chars_of(name);
    let ghost pv = pat@;
    let ghost nv = nam@;
    let mut p: usize = 0;
    let mut n: usize = 0;
    // Where to resume if the current star turns out to have consumed too little.
    let mut star: Option<(usize, usize)> = None;
    proof {
        assert(pv.skip(0) =~= pv);
        assert(nv.skip(0) =~= nv);
    }
    while n < nam.len()
        invariant
            pv == pat@,
            nv == nam@,
            pv == pattern@,
            nv == name@,
            p <= pv.len(),
            n <= nv.len(),
            match star {
                None => glob(pv, nv) == rest(pv, nv, p as int, n as int),
                Some((sp, sn)) => {
                    &&& sp < p
                    &&& pv[sp as int] == '*'
                    &&& sn <= nv.len()
                    &&& literal_run(pv, nv, sp + 1, sn as int, p - sp - 1)
                    &&& n == sn + (p - sp - 1)
                    &&& glob(pv, nv) == (rest(pv, nv, p as int, n as int) || (sn < nv.len() && rest(pv, nv, sp as int, sn + 1)))
                },
            },
        decreases (match star { Some((sp, sn)) => (nv.len() - sn) as int, None => (nv.len() + 1) as int }), pv.len() - p + nv.len() - n,
    {
        let here = if p < pat.len() { Some(pat[p]) } else { None };
        proof {
            lemma_rest_unfold(pv, nv, p as int, n as int);
            if p < pv.len() {
                assert(here == Some(pv[p as int]));
            } else {
                assert(here is None);
            }
        }
        match here {
            Some('*') => {
                proof {
                    match star {
                        Some((sp, sn)) => {
                            // The earlier star's other choices are covered by this one.
                            if rest(pv, nv, sp as int, sn + 1) {
                                let t = lemma_star_splits(pv, nv, sp as int, sn + 1);
                                let m = p - sp - 1;
                                lemma_run_forward(pv, nv, sp + 1, t, m);
                                lemma_star_absorbs(pv, nv, p as int, n as int, t + m);
                            }
                        },
                        None => {},
                    }
                    assert(literal_run(pv, nv, p + 1, n as int, 0));
                }
                star = Some((p, n));
                p = p + 1;
            },
            Some(c) => {
                assert(c == pv[p as int] && c != '*');
                if c == '?' || c == nam[n] {
                    proof {
                        match star {
                            Some((sp, sn)) => {
                                assert(literal_run(pv, nv, sp + 1, sn as int, p + 1 - sp - 1)) by {
                                    assert forall|x: int| sp + 1 <= x < p + 1 implies #[trigger] pv[x] != '*' && (pv[x] == '?' || pv[x] == nv[sn + (x - (sp + 1))]) by {
                                        if x == p {
                                            assert(sn + (x - (sp + 1)) == n);
                                        }
                                    }
                                }
                            },
                            None => {
                                assert(pv[p as int] == '?' || pv[p as int] == nv[n as int]);
                                assert(rest(pv, nv, p as int, n as int) == rest(pv, nv, p + 1, n + 1));
                            },
                        }
                    }
                    p = p + 1;
                    n = n + 1;
                } else {
                    match star {
                        Some((sp, sn)) => {
                            proof {
                                lemma_rest_unfold(pv, nv, sp as int, sn + 1);
                                assert(literal_run(pv, nv, sp + 1, sn + 1, 0));
                            }
                            p = sp + 1;
                            n = sn + 1;
                            star = Some((sp, sn + 1));
                            proof {
                                if sn + 1 >= nv.len() {
                                }
                            }
                        },
                        None => {
                            assert(!(pv[p as int] == '?' || pv[p as int] == nv[n as int]));
                            assert(!rest(pv, nv, p as int, n as int));
                            return false;
                        },
                    }
                }
            },
            None => {
                match star {
                    Some((sp, sn)) => {
                        proof {
                            lemma_rest_unfold(pv, nv, sp as int, sn + 1);
                            assert(literal_run(pv, nv, sp + 1, sn + 1, 0));
                        }
                        p = sp + 1;
                        n = sn + 1;
                        star = Some((sp, sn + 1));
                    },
                    None => {
                        return false;
                    },
                }
            },
        }
    }
    let tail_ok = stars_from(&pat, p);
    proof {
        lemma_stars_match_empty(pv, nv, p as int);
        match star {
            Some((sp, sn)) => {
                if sn < nv.len() {
                    lemma_star_gone(pv, nv, sp as int, sn as int, p as int);
                }
            },
            None => {},
        }
    }
    tail_ok
}

/// Whether every character of `pattern` from `p` on is a star.
fn stars_from(pattern: &Vec<char>, p: usize) -> (r: bool)
    requires
        p <= pattern@.len(),
    ensures
        r == all_stars(pattern@, p as int),
{
    let mut k: usize = p;
    while k < pattern.len()
        invariant
            p <= k <= pattern@.len(),
            forall|x: int| p <= x < k ==> pattern@[x] == '*',
        decreases pattern.len() - k,
    {
        if pattern[k] != '*' {
            return false;
        }
        k = k + 1;
    }
    true
}

/// Once the name is used up, a star whose following run consumed all of it cannot be
/// revisited with one more character: the run no longer fits.
proof fn lemma_star_gone(pattern: Seq<char>, name: Seq<char>, sp: int, sn: int, p: int)
    requires
        0 <= sp < p <= pattern.len(),
        pattern[sp] == '*',
        0 <= sn < name.len(),
        literal_run(pattern, name, sp + 1, sn, p - sp - 1),
        sn + (p - sp - 1) == name.len(),
    ensures
        !rest(pattern, name, sp, sn + 1),
{
    if rest(pattern, name, sp, sn + 1) {
        let t = lemma_star_splits(pattern, name, sp, sn + 1);
        lemma_run_forward(pattern, name, sp + 1, t, p - sp - 1);
    }
}

} // verus!
