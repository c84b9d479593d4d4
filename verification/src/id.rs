//! Seam identity: the semantic path that names a node, and the interned handle the index
//! uses in its place.
//!
//! Identity is derived from where a node sits in the containment hierarchy, never from
//! where it sits in a file, so view state survives editing. Anonymous constructs are
//! written as a braced segment describing them, `{impl Display for Widget}`; siblings that
//! still collide get a `#n` ordinal. Separators inside braces belong to the segment.

use vstd::prelude::*;
use crate::num::decimal;
use crate::num::parse_u32;
use crate::num::push_decimal;
use crate::num::u32_of;
use crate::num::lemma_u32_round_trip;
use crate::num::lemma_decimal_value;
use crate::num::is_digit;
use crate::text::chars_of;
use crate::text::is_whitespace;
use crate::text::push_char;
use crate::text::string_of_range;
use crate::text::unicode_whitespace;

verus! {

/// What a segment is: its name and its ordinal (`0` when it needs none).
pub type SegmentView = (Seq<char>, u32);

/// Errors parsing a [`SeamPath`] from its textual form.
#[derive(Debug, Clone, PartialEq, Eq)]
pub enum SeamPathError {
    /// The whole path was empty or blank.
    Empty,
    /// A segment between two separators was empty, as in `a::::b`.
    EmptySegment(usize),
    /// A braced segment was opened but never closed.
    UnbalancedBrace(usize),
    /// The text after `#` was not a positive integer.
    InvalidOrdinal {
        /// The offending text.
        ordinal: String,
        /// Which segment carried it.
        position: usize,
    },
}

/// The value a [`SeamPathError`] carries, for contracts.
pub enum PathErrorView {
    /// See [`SeamPathError::Empty`].
    Empty,
    /// See [`SeamPathError::EmptySegment`].
    EmptySegment(nat),
    /// See [`SeamPathError::UnbalancedBrace`].
    UnbalancedBrace(nat),
    /// See [`SeamPathError::InvalidOrdinal`].
    InvalidOrdinal(Seq<char>, nat),
}

/// The text a [`SeamPathError`] describes itself with.
pub open spec fn describe_path_error(e: PathErrorView) -> Seq<char> {
    match e {
        PathErrorView::Empty => "a seam path needs at least one segment"@,
        PathErrorView::EmptySegment(p) => "empty path segment at position "@ + decimal(p),
        PathErrorView::UnbalancedBrace(p) => "unbalanced `{` in segment at position "@ + decimal(p),
        PathErrorView::InvalidOrdinal(_, p) => "invalid disambiguating ordinal in segment at position "@ + decimal(p),
    }
}

impl SeamPathError {
    /// The value this error carries.
    pub open spec fn spec_view(self) -> PathErrorView {
        match self {
            SeamPathError::Empty => PathErrorView::Empty,
            SeamPathError::EmptySegment(p) => PathErrorView::EmptySegment(p as nat),
            SeamPathError::UnbalancedBrace(p) => PathErrorView::UnbalancedBrace(p as nat),
            SeamPathError::InvalidOrdinal { ordinal, position } => PathErrorView::InvalidOrdinal(
                ordinal@,
                position as nat,
            ),
        }
    }

    /// A human-readable description of the failure.
    pub fn describe(&self) -> (r: String)
        ensures
            r@ == describe_path_error(self.spec_view()),
    {
        let mut s = String::new();
        let text = match self {
            SeamPathError::Empty => "a seam path needs at least one segment",
            SeamPathError::EmptySegment(_) => "empty path segment at position ",
            SeamPathError::UnbalancedBrace(_) => "unbalanced `{` in segment at position ",
            SeamPathError::InvalidOrdinal { .. } => "invalid disambiguating ordinal in segment at position ",
        };
        crate::text::push_str(&mut s, text);
        match self {
            SeamPathError::EmptySegment(p) => crate::num::push_usize(&mut s, *p),
            SeamPathError::UnbalancedBrace(p) => crate::num::push_usize(&mut s, *p),
            SeamPathError::InvalidOrdinal { position, .. } => crate::num::push_usize(&mut s, *position),
            SeamPathError::Empty => {},
        }
        assert(s@ =~= describe_path_error(self.spec_view()));
        s
    }
}

/// One segment of a [`SeamPath`]: a name plus its disambiguating ordinal.
#[derive(Clone, Debug, PartialEq, Eq, Hash, PartialOrd, Ord)]
pub struct SeamSegment {
    /// The segment text, without any `#n` suffix. Braced for anonymous constructs.
    pub name: String,
    /// `0` when the segment is unique among its siblings; otherwise the 1-based
    /// occurrence, rendered as a `#n` suffix.
    pub ordinal: u32,
}

impl View for SeamSegment {
    type V = SegmentView;

    open spec fn view(&self) -> SegmentView {
        (self.name@, self.ordinal)
    }
}

/// How a segment is written: its name, then `#n` when it carries an ordinal.
pub open spec fn render_segment(s: SegmentView) -> Seq<char> {
    if s.1 > 0 {
        s.0 + seq!['#'] + decimal(s.1 as nat)
    } else {
        s.0
    }
}

impl SeamSegment {
    /// A segment that needs no disambiguation.
    pub fn new(name: String) -> (r: Self)
        ensures
            r@ == (name@, 0u32),
    {
        SeamSegment { name, ordinal: 0 }
    }

    /// A segment carrying the given 1-based occurrence ordinal.
    pub fn numbered(name: String, ordinal: u32) -> (r: Self)
        ensures
            r@ == (name@, ordinal),
    {
        SeamSegment { name, ordinal }
    }

    /// Whether this segment names an anonymous construct, written `{…}`.
    pub fn is_anonymous(&self) -> (r: bool)
        ensures
            r == (self.name@.len() > 0 && self.name@[0] == '{' && self.name@.last() == '}'),
    {
        let cs = chars_of(self.name.as_str());
        cs.len() > 0 && cs[0] == '{' && cs[cs.len() - 1] == '}'
    }

    /// A copy of this segment.
    pub fn duplicate(&self) -> (r: Self)
        ensures
            r@ == self@,
    {
        SeamSegment { name: self.name.clone(), ordinal: self.ordinal }
    }

    /// Whether two segments hold the same name and ordinal.
    pub fn same_as(&self, other: &SeamSegment) -> (r: bool)
        ensures
            r == (self@ == other@),
    {
        self.ordinal == other.ordinal && self.name == other.name
    }

    /// The segment as written, with its `#n` suffix when it has one.
    pub fn to_text(&self) -> (r: String)
        ensures
            r@ == render_segment(self@),
    {
        let mut s = self.name.clone();
        if self.ordinal > 0 {
            push_char(&mut s, '#');
            push_decimal(&mut s, self.ordinal);
        }
        s
    }
}


/// The semantic path naming one node: its segments, outermost first.
#[derive(Clone, Debug, Default, PartialEq, Eq, Hash, PartialOrd, Ord)]
pub struct SeamPath {
    segments: Vec<SeamSegment>,
}

impl View for SeamPath {
    type V = Seq<SegmentView>;

    closed spec fn view(&self) -> Seq<SegmentView> {
        self.segments@.map_values(|s: SeamSegment| s@)
    }
}

/// How a path is written: its segments joined by `::`.
pub open spec fn render_path(segs: Seq<SegmentView>) -> Seq<char>
    decreases segs.len(),
{
    if segs.len() == 0 {
        Seq::empty()
    } else if segs.len() == 1 {
        render_segment(segs[0])
    } else {
        render_segment(segs[0]) + seq![':', ':'] + render_path(segs.drop_first())
    }
}

/// Whether `segs` begins with every segment of `prefix`.
pub open spec fn segments_under(segs: Seq<SegmentView>, prefix: Seq<SegmentView>) -> bool {
    segs.len() >= prefix.len() && segs.subrange(0, prefix.len() as int) == prefix
}

impl SeamPath {
    /// Build a path from its segments, outermost first.
    pub fn new(segments: Vec<SeamSegment>) -> (r: Self)
        ensures
            r@ == segments@.map_values(|s: SeamSegment| s@),
    {
        SeamPath { segments }
    }

    /// The path's segments, outermost first.
    pub fn segments(&self) -> (r: &[SeamSegment])
        ensures
            r@.map_values(|s: SeamSegment| s@) == self@,
    {
        self.segments.as_slice()
    }

    /// How many segments the path has.
    pub fn len(&self) -> (r: usize)
        ensures
            r == self@.len(),
    {
        self.segments.len()
    }

    /// Whether the path has no segments.
    pub fn is_empty(&self) -> (r: bool)
        ensures
            r == (self@.len() == 0),
    {
        self.segments.len() == 0
    }

    /// The outermost segment's name — the package, by construction.
    pub fn package(&self) -> (r: Option<&str>)
        ensures
            match r {
                Some(name) => self@.len() > 0 && name@ == self@[0].0,
                None => self@.len() == 0,
            },
    {
        if self.segments.len() == 0 {
            None
        } else {
            Some(self.segments[0].name.as_str())
        }
    }

    /// The innermost segment's name: what this path actually identifies.
    pub fn leaf(&self) -> (r: Option<&str>)
        ensures
            match r {
                Some(name) => self@.len() > 0 && name@ == self@.last().0,
                None => self@.len() == 0,
            },
    {
        if self.segments.len() == 0 {
            None
        } else {
            Some(self.segments[self.segments.len() - 1].name.as_str())
        }
    }

    /// A copy of this path.
    pub fn duplicate(&self) -> (r: Self)
        ensures
            r@ == self@,
    {
        let mut segments: Vec<SeamSegment> = Vec::new();
        let mut i: usize = 0;
        while i < self.segments.len()
            invariant
                i <= self.segments@.len(),
                segments@.map_values(|s: SeamSegment| s@) == self@.subrange(0, i as int),
            decreases self.segments.len() - i,
        {
            let seg = self.segments[i].duplicate();
            let ghost before = segments@;
            segments.push(seg);
            proof {
                assert(self@[i as int] == self.segments@[i as int]@);
                assert(segments@ == before.push(seg));
                assert(segments@.map_values(|s: SeamSegment| s@) =~= before.map_values(|s: SeamSegment| s@).push(seg@));
            }
            i = i + 1;
            assert(segments@.map_values(|s: SeamSegment| s@) =~= self@.subrange(0, i as int));
        }
        assert(self@.subrange(0, self@.len() as int) =~= self@);
        SeamPath { segments }
    }

    /// The first `n` segments of this path.
    pub fn prefix(&self, n: usize) -> (r: Self)
        requires
            n <= self@.len(),
        ensures
            r@ == self@.subrange(0, n as int),
    {
        let mut segments: Vec<SeamSegment> = Vec::new();
        let mut i: usize = 0;
        while i < n
            invariant
                n <= self.segments@.len(),
                i <= n,
                segments@.map_values(|s: SeamSegment| s@) == self@.subrange(0, i as int),
            decreases n - i,
        {
            let seg = self.segments[i].duplicate();
            let ghost before = segments@;
            segments.push(seg);
            proof {
                assert(self@[i as int] == self.segments@[i as int]@);
                assert(segments@ == before.push(seg));
                assert(segments@.map_values(|s: SeamSegment| s@) =~= before.map_values(|s: SeamSegment| s@).push(seg@));
            }
            i = i + 1;
            assert(segments@.map_values(|s: SeamSegment| s@) =~= self@.subrange(0, i as int));
        }
        SeamPath { segments }
    }

    /// The path of this node's parent, or `None` at the root.
    pub fn parent(&self) -> (r: Option<Self>)
        ensures
            match r {
                Some(p) => self@.len() > 1 && p@ == self@.drop_last(),
                None => self@.len() <= 1,
            },
    {
        if self.segments.len() <= 1 {
            return None;
        }
        let p = self.prefix(self.segments.len() - 1);
        assert(p@ =~= self@.drop_last());
        Some(p)
    }

    /// This path with `segment` appended.
    pub fn child(&self, segment: SeamSegment) -> (r: Self)
        ensures
            r@ == self@.push(segment@),
    {
        let mut p = self.duplicate();
        p.segments.push(segment);
        assert(p@ =~= self@.push(segment@));
        p
    }

    /// Whether `self` is `other` or lies underneath it: prefix matching on whole
    /// segments, the containment test behind the query language's `in:` term.
    pub fn is_under(&self, other: &Self) -> (r: bool)
        ensures
            r == segments_under(self@, other@),
    {
        if self.segments.len() < other.segments.len() {
            return false;
        }
        let mut i: usize = 0;
        while i < other.segments.len()
            invariant
                other@.len() <= self@.len(),
                i <= other@.len(),
                forall|j: int| 0 <= j < i ==> self@[j] == other@[j],
            decreases other.segments.len() - i,
        {
            if !self.segments[i].same_as(&other.segments[i]) {
                assert(self@.subrange(0, other@.len() as int)[i as int] == self@[i as int]);
                return false;
            }
            i = i + 1;
        }
        assert(self@.subrange(0, other@.len() as int) =~= other@);
        true
    }

    /// Whether two paths hold the same segments.
    pub fn same_as(&self, other: &Self) -> (r: bool)
        ensures
            r == (self@ == other@),
    {
        if self.segments.len() != other.segments.len() {
            return false;
        }
        let r = self.is_under(other);
        assert(self@.subrange(0, other@.len() as int) =~= self@);
        r
    }

    /// The path as written: segments joined by `::`.
    pub fn to_text(&self) -> (r: String)
        ensures
            r@ == render_path(self@),
    {
        let n = self.segments.len();
        let mut out = String::new();
        if n == 0 {
            return out;
        }
        let mut i = n;
        // Built back to front, matching how the rendering nests.
        let mut acc = self.segments[n - 1].to_text();
        assert(acc@ == render_path(self@.subrange(n - 1, n as int))) by {
            assert(self@.subrange(n - 1, n as int).len() == 1);
        }
        i = n - 1;
        while i > 0
            invariant
                n == self@.len(),
                0 <= i < n,
                acc@ == render_path(self@.subrange(i as int, n as int)),
            decreases i,
        {
            let mut s = self.segments[i - 1].to_text();
            push_char(&mut s, ':');
            push_char(&mut s, ':');
            let rest = acc;
            let rest_chars = chars_of(rest.as_str());
            let mut k: usize = 0;
            let ghost base = s@;
            while k < rest_chars.len()
                invariant
                    k <= rest_chars@.len(),
                    s@ == base + rest_chars@.subrange(0, k as int),
                decreases rest_chars.len() - k,
            {
                push_char(&mut s, rest_chars[k]);
                k = k + 1;
                assert(s@ =~= base + rest_chars@.subrange(0, k as int));
            }
            proof {
                let tail = self@.subrange(i - 1, n as int);
                assert(tail.drop_first() =~= self@.subrange(i as int, n as int));
                assert(tail[0] == self@[i - 1]);
                assert(rest_chars@.subrange(0, rest_chars@.len() as int) =~= rest_chars@);
                assert(s@ =~= render_segment(tail[0]) + seq![':', ':'] + render_path(tail.drop_first()));
            }
            acc = s;
            i = i - 1;
        }
        assert(self@.subrange(0, n as int) =~= self@);
        out = acc;
        out
    }
}

// --- parsing ------------------------------------------------------------------------

/// `parts` with `c` put in front of its first part.
pub open spec fn prepend(c: char, parts: Seq<Seq<char>>) -> Seq<Seq<char>> {
    parts.update(0, seq![c] + parts[0])
}

/// The brace depth after reading `c` at depth `depth`; a stray `}` never goes below zero.
pub open spec fn next_depth(c: char, depth: nat) -> nat {
    if c == '{' {
        depth + 1
    } else if c == '}' {
        if depth == 0 { 0 } else { (depth - 1) as nat }
    } else {
        depth
    }
}

/// Split `s`, read from brace depth `depth`, on every `::` at depth zero. Returns the
/// parts in order and the depth reached at the end.
pub open spec fn split_from(s: Seq<char>, depth: nat) -> (Seq<Seq<char>>, nat)
    decreases s.len(),
{
    if s.len() == 0 {
        (seq![Seq::<char>::empty()], depth)
    } else if s[0] == ':' && depth == 0 && s.len() >= 2 && s[1] == ':' {
        let r = split_from(s.subrange(2, s.len() as int), 0);
        (seq![Seq::<char>::empty()] + r.0, r.1)
    } else {
        let r = split_from(s.drop_first(), next_depth(s[0], depth));
        (prepend(s[0], r.0), r.1)
    }
}

proof fn lemma_split_nonempty(s: Seq<char>, depth: nat)
    ensures
        split_from(s, depth).0.len() >= 1,
    decreases s.len(),
{
    if s.len() == 0 {
    } else if s[0] == ':' && depth == 0 && s.len() >= 2 && s[1] == ':' {
        lemma_split_nonempty(s.subrange(2, s.len() as int), 0);
    } else {
        lemma_split_nonempty(s.drop_first(), next_depth(s[0], depth));
    }
}

/// The index of the last `c` in `s`, or `-1`.
pub open spec fn last_index(s: Seq<char>, c: char) -> int
    decreases s.len(),
{
    if s.len() == 0 {
        -1
    } else if s.last() == c {
        s.len() - 1
    } else {
        last_index(s.drop_last(), c)
    }
}

/// What one raw segment parses to: an optional `#n` ordinal, recognised only after the
/// last `}` so a type named inside braces cannot be mistaken for one.
pub open spec fn segment_of(raw: Seq<char>, position: nat) -> Result<SegmentView, PathErrorView> {
    let closing = last_index(raw, '}') + 1;
    let hash = last_index(raw, '#');
    if hash < closing {
        Ok((raw, 0u32))
    } else {
        let ordinal = raw.subrange(hash + 1, raw.len() as int);
        match u32_of(ordinal) {
            Some(n) => if n > 0 {
                if hash == 0 {
                    Err(PathErrorView::EmptySegment(position))
                } else {
                    Ok((raw.subrange(0, hash), n))
                }
            } else {
                Err(PathErrorView::InvalidOrdinal(ordinal, position))
            },
            None => Err(PathErrorView::InvalidOrdinal(ordinal, position)),
        }
    }
}

/// The segments `parts` parse to, the first standing at `position`.
pub open spec fn segments_of(parts: Seq<Seq<char>>, position: nat) -> Result<Seq<SegmentView>, PathErrorView>
    decreases parts.len(),
{
    if parts.len() == 0 {
        Ok(Seq::empty())
    } else if parts[0].len() == 0 {
        Err(PathErrorView::EmptySegment(position))
    } else {
        match segment_of(parts[0], position) {
            Err(e) => Err(e),
            Ok(s) => match segments_of(parts.drop_first(), position + 1) {
                Err(e) => Err(e),
                Ok(rest) => Ok(seq![s] + rest),
            },
        }
    }
}

/// Whether every character of `s` is whitespace.
pub open spec fn blank(s: Seq<char>) -> bool {
    forall|i: int| 0 <= i < s.len() ==> unicode_whitespace(#[trigger] s[i])
}

/// What a path's text parses to.
pub open spec fn path_of(text: Seq<char>) -> Result<Seq<SegmentView>, PathErrorView> {
    if blank(text) {
        Err(PathErrorView::Empty)
    } else {
        let (parts, depth) = split_from(text, 0);
        if depth != 0 {
            Err(PathErrorView::UnbalancedBrace((parts.len() - 1) as nat))
        } else {
            segments_of(parts, 0)
        }
    }
}

/// Split `chars` on `::` at brace depth zero, returning the parts and the final depth.
fn split_segments(chars: &Vec<char>) -> (r: (Vec<Vec<char>>, usize))
    ensures
        r.0@.map_values(|v: Vec<char>| v@) == split_from(chars@, 0).0,
        r.1 == split_from(chars@, 0).1,
{
    let n = chars.len();
    let mut parts: Vec<Vec<char>> = Vec::new();
    let mut current: Vec<char> = Vec::new();
    let mut depth: usize = 0;
    let mut i: usize = 0;
    proof {
        lemma_split_nonempty(chars@, 0);
        assert(chars@.subrange(0, n as int) =~= chars@);
        let t = split_from(chars@, 0);
        assert(seq![current@ + t.0[0]] + t.0.drop_first() =~= t.0);
    }
    while i < n
        invariant
            n == chars@.len(),
            i <= n,
            depth <= i,
            ({
                let t = split_from(chars@.subrange(i as int, n as int), depth as nat);
                &&& t.0.len() >= 1
                &&& split_from(chars@, 0).1 == t.1
                &&& split_from(chars@, 0).0 == parts@.map_values(|v: Vec<char>| v@) + seq![current@ + t.0[0]]
                    + t.0.drop_first()
            }),
        decreases n - i,
    {
        let c = chars[i];
        let ghost rest = chars@.subrange(i as int, n as int);
        let ghost before = parts@.map_values(|v: Vec<char>| v@);
        let ghost cur = current@;
        if c == ':' && depth == 0 && i + 1 < n && chars[i + 1] == ':' {
            proof {
                assert(rest.subrange(2, rest.len() as int) =~= chars@.subrange(i + 2, n as int));
                lemma_split_nonempty(chars@.subrange(i + 2, n as int), 0);
            }
            parts.push(current);
            current = Vec::new();
            i = i + 2;
            proof {
                let t2 = split_from(chars@.subrange(i as int, n as int), 0);
                assert(parts@.map_values(|v: Vec<char>| v@) =~= before.push(cur));
                assert(seq![Seq::<char>::empty()] + t2.0 == split_from(rest, 0).0);
                assert((seq![Seq::<char>::empty()] + t2.0)[0] == Seq::<char>::empty());
                assert((seq![Seq::<char>::empty()] + t2.0).drop_first() =~= t2.0);
                assert(cur + Seq::<char>::empty() =~= cur);
                assert(before + seq![cur] + seq![current@ + t2.0[0]] + t2.0.drop_first()
                    =~= before.push(cur) + seq![current@ + t2.0[0]] + t2.0.drop_first());
                assert(seq![current@ + t2.0[0]] + t2.0.drop_first() =~= t2.0);
            }
            depth = 0;
        } else {
            let next: usize = if c == '{' {
                depth + 1
            } else if c == '}' {
                if depth == 0 { 0 } else { depth - 1 }
            } else {
                depth
            };
            proof {
                assert(rest.drop_first() =~= chars@.subrange(i + 1, n as int));
                lemma_split_nonempty(chars@.subrange(i + 1, n as int), next as nat);
            }
            current.push(c);
            i = i + 1;
            proof {
                let t2 = split_from(chars@.subrange(i as int, n as int), next as nat);
                assert(split_from(rest, depth as nat).0 == prepend(c, t2.0));
                assert(current@ =~= cur.push(c));
                assert(cur + prepend(c, t2.0)[0] =~= current@ + t2.0[0]);
                assert(prepend(c, t2.0).drop_first() =~= t2.0.drop_first());
            }
            depth = next;
        }
    }
    proof {
        let t = split_from(chars@.subrange(n as int, n as int), depth as nat);
        assert(chars@.subrange(n as int, n as int) =~= Seq::<char>::empty());
        assert(current@ + Seq::<char>::empty() =~= current@);
    }
    let ghost before = parts@.map_values(|v: Vec<char>| v@);
    parts.push(current);
    assert(parts@.map_values(|v: Vec<char>| v@) =~= before.push(current@));
    assert(split_from(chars@, 0).0 =~= before.push(current@));
    (parts, depth)
}


/// The position of the last `c` in `chars`.
fn last_position(chars: &[char], c: char) -> (r: Option<usize>)
    ensures
        match r {
            Some(i) => i == last_index(chars@, c) && i < chars@.len(),
            None => last_index(chars@, c) == -1,
        },
{
    let mut i = chars.len();
    assert(chars@.subrange(0, i as int) =~= chars@);
    while i > 0
        invariant
            i <= chars@.len(),
            last_index(chars@, c) == last_index(chars@.subrange(0, i as int), c),
        decreases i,
    {
        let ghost pre = chars@.subrange(0, i as int);
        if chars[i - 1] == c {
            assert(pre.last() == c);
            return Some(i - 1);
        }
        assert(pre.drop_last() =~= chars@.subrange(0, i - 1));
        i = i - 1;
    }
    None
}

/// Whether every character of `chars` is whitespace.
fn all_blank(chars: &[char]) -> (r: bool)
    ensures
        r == blank(chars@),
{
    let mut i: usize = 0;
    while i < chars.len()
        invariant
            i <= chars@.len(),
            forall|j: int| 0 <= j < i ==> unicode_whitespace(#[trigger] chars@[j]),
        decreases chars.len() - i,
    {
        if !is_whitespace(chars[i]) {
            return false;
        }
        i = i + 1;
    }
    true
}

/// Peel an optional `#n` ordinal off one raw segment.
fn parse_segment(raw: &Vec<char>, position: usize) -> (r: Result<SeamSegment, SeamPathError>)
    ensures
        match r {
            Ok(seg) => segment_of(raw@, position as nat) == Ok::<SegmentView, PathErrorView>(seg@),
            Err(e) => segment_of(raw@, position as nat) == Err::<SegmentView, PathErrorView>(e.spec_view()),
        },
{
    let n = raw.len();
    let closing: usize = match last_position(raw.as_slice(), '}') {
        Some(i) => {
            assert(i < n);
            i + 1
        },
        None => 0,
    };
    let hash = match last_position(raw.as_slice(), '#') {
        Some(h) if h >= closing => h,
        _ => {
            let name = string_of_range(raw.as_slice(), 0, raw.len());
            assert(raw@.subrange(0, raw@.len() as int) =~= raw@);
            return Ok(SeamSegment::new(name));
        },
    };
    assert(hash < n);
    let ordinal_chars = slice_range(raw, hash + 1, raw.len());
    let parsed = parse_u32(ordinal_chars.as_slice());
    match parsed {
        Some(n) if n > 0 => {
            if hash == 0 {
                Err(SeamPathError::EmptySegment(position))
            } else {
                Ok(SeamSegment::numbered(string_of_range(raw.as_slice(), 0, hash), n))
            }
        },
        _ => Err(SeamPathError::InvalidOrdinal {
            ordinal: string_of_range(raw.as_slice(), hash + 1, raw.len()),
            position,
        }),
    }
}

/// A vector holding `v[from..to]`.
pub fn slice_range(v: &Vec<char>, from: usize, to: usize) -> (r: Vec<char>)
    requires
        from <= to <= v@.len(),
    ensures
        r@ == v@.subrange(from as int, to as int),
{
    let mut r: Vec<char> = Vec::new();
    let mut i = from;
    while i < to
        invariant
            from <= i <= to <= v@.len(),
            r@ == v@.subrange(from as int, i as int),
        decreases to - i,
    {
        r.push(v[i]);
        i = i + 1;
        assert(r@ =~= v@.subrange(from as int, i as int));
    }
    r
}

impl SeamPath {
    /// Parse a path from its textual form.
    pub fn parse(text: &str) -> (r: Result<SeamPath, SeamPathError>)
        ensures
            match r {
                Ok(p) => path_of(text@) == Ok::<Seq<SegmentView>, PathErrorView>(p@),
                Err(e) => path_of(text@) == Err::<Seq<SegmentView>, PathErrorView>(e.spec_view()),
            },
    {
        let chars = chars_of(text);
        if all_blank(chars.as_slice()) {
            return Err(SeamPathError::Empty);
        }
        let (parts, depth) = split_segments(&chars);
        let ghost views = parts@.map_values(|v: Vec<char>| v@);
        proof {
            lemma_split_nonempty(chars@, 0);
        }
        if depth != 0 {
            return Err(SeamPathError::UnbalancedBrace(parts.len() - 1));
        }
        let mut segments: Vec<SeamSegment> = Vec::new();
        let mut i: usize = 0;
        proof {
            assert(views.subrange(0, views.len() as int) =~= views);
            assert(segments@.map_values(|s: SeamSegment| s@) =~= Seq::<SegmentView>::empty());
            match segments_of(views, 0) {
                Ok(rest) => {
                    assert(Seq::<SegmentView>::empty() + rest =~= rest);
                },
                Err(e) => {},
            }
        }
        while i < parts.len()
            invariant
                i <= parts@.len(),
                views == parts@.map_values(|v: Vec<char>| v@),
                views == split_from(chars@, 0).0,
                chars@ == text@,
                !blank(text@),
                split_from(text@, 0).1 == 0,
                segments_of(views, 0) == match segments_of(views.subrange(i as int, views.len() as int), i as nat) {
                    Ok(rest) => Ok::<Seq<SegmentView>, PathErrorView>(segments@.map_values(|s: SeamSegment| s@) + rest),
                    Err(e) => Err::<Seq<SegmentView>, PathErrorView>(e),
                },
            decreases parts.len() - i,
        {
            let ghost tail = views.subrange(i as int, views.len() as int);
            assert(tail[0] == parts@[i as int]@);
            assert(tail.drop_first() =~= views.subrange(i + 1, views.len() as int));
            if parts[i].len() == 0 {
                return Err(SeamPathError::EmptySegment(i));
            }
            let seg = parse_segment(&parts[i], i);
            match seg {
                Err(e) => {
                    return Err(e);
                },
                Ok(seg) => {
                    let ghost before = segments@;
                    segments.push(seg);
                    proof {
                        assert(segments@.map_values(|s: SeamSegment| s@) =~= before.map_values(|s: SeamSegment| s@).push(seg@));
                        let rest_spec = segments_of(views.subrange(i + 1, views.len() as int), (i + 1) as nat);
                        match rest_spec {
                            Ok(rest) => {
                                assert(before.map_values(|s: SeamSegment| s@) + (seq![seg@] + rest)
                                    =~= segments@.map_values(|s: SeamSegment| s@) + rest);
                            },
                            Err(e) => {},
                        }
                    }
                },
            }
            i = i + 1;
        }
        proof {
            assert(views.subrange(i as int, views.len() as int) =~= Seq::<Seq<char>>::empty());
            assert(segments@.map_values(|s: SeamSegment| s@) + Seq::<SegmentView>::empty()
                =~= segments@.map_values(|s: SeamSegment| s@));
        }
        Ok(SeamPath { segments })
    }
}

impl core::str::FromStr for SeamPath {
    type Err = SeamPathError;

    fn from_str(text: &str) -> Result<SeamPath, SeamPathError> {
        SeamPath::parse(text)
    }
}

// --- the round trip ------------------------------------------------------------------

/// Whether reading `s` from brace depth `depth` never meets a `:` at depth zero.
pub open spec fn no_top_colon(s: Seq<char>, depth: nat) -> bool
    decreases s.len(),
{
    s.len() == 0 || (!(s[0] == ':' && depth == 0) && no_top_colon(s.drop_first(), next_depth(s[0], depth)))
}

/// The brace depth reached after reading `s` from depth `depth`.
pub open spec fn end_depth(s: Seq<char>, depth: nat) -> nat
    decreases s.len(),
{
    if s.len() == 0 {
        depth
    } else {
        end_depth(s.drop_first(), next_depth(s[0], depth))
    }
}

/// A segment that its own written form reads back as: a non-blank name whose braces
/// balance and which has no `:` outside them, and — when it carries no ordinal — no `#`
/// after its last `}` that would read as one.
pub open spec fn well_formed_segment(s: SegmentView) -> bool {
    &&& s.0.len() > 0
    &&& !blank(s.0)
    &&& no_top_colon(s.0, 0)
    &&& end_depth(s.0, 0) == 0
    &&& (s.1 == 0 ==> last_index(s.0, '#') < last_index(s.0, '}') + 1)
}

/// `parts` with `a` put in front of its first part.
pub open spec fn prepend_all(a: Seq<char>, parts: Seq<Seq<char>>) -> Seq<Seq<char>> {
    parts.update(0, a + parts[0])
}

proof fn lemma_split_prefix(a: Seq<char>, b: Seq<char>, d: nat)
    requires
        no_top_colon(a, d),
    ensures
        split_from(a + b, d).0 == prepend_all(a, split_from(b, end_depth(a, d)).0),
        split_from(a + b, d).1 == split_from(b, end_depth(a, d)).1,
    decreases a.len(),
{
    lemma_split_nonempty(b, end_depth(a, d));
    if a.len() == 0 {
        assert(a + b =~= b);
        let parts = split_from(b, d).0;
        assert(prepend_all(a, parts) =~= parts);
    } else {
        let a2 = a.drop_first();
        let d2 = next_depth(a[0], d);
        assert((a + b).drop_first() =~= a2 + b);
        assert((a + b)[0] == a[0]);
        lemma_split_prefix(a2, b, d2);
        lemma_split_nonempty(a2 + b, d2);
        let x = split_from(b, end_depth(a2, d2)).0;
        assert(prepend(a[0], prepend_all(a2, x)) =~= prepend_all(a, x)) by {
            assert(seq![a[0]] + (a2 + x[0]) =~= a + x[0]);
        }
    }
}

proof fn lemma_scan_concat(a: Seq<char>, b: Seq<char>, d: nat)
    ensures
        no_top_colon(a + b, d) == (no_top_colon(a, d) && no_top_colon(b, end_depth(a, d))),
        end_depth(a + b, d) == end_depth(b, end_depth(a, d)),
    decreases a.len(),
{
    if a.len() == 0 {
        assert(a + b =~= b);
    } else {
        assert((a + b).drop_first() =~= a.drop_first() + b);
        assert((a + b)[0] == a[0]);
        lemma_scan_concat(a.drop_first(), b, next_depth(a[0], d));
    }
}

/// Whether `c` means nothing to the splitter.
pub open spec fn plain_char(c: char) -> bool {
    c != ':' && c != '{' && c != '}'
}

proof fn lemma_scan_plain(b: Seq<char>, d: nat)
    requires
        forall|i: int| 0 <= i < b.len() ==> plain_char(#[trigger] b[i]),
    ensures
        no_top_colon(b, d),
        end_depth(b, d) == d,
    decreases b.len(),
{
    if b.len() > 0 {
        assert forall|i: int| 0 <= i < b.drop_first().len() implies plain_char(#[trigger] b.drop_first()[i]) by {
            assert(b.drop_first()[i] == b[i + 1]);
        }
        assert(plain_char(b[0]));
        lemma_scan_plain(b.drop_first(), d);
    }
}

proof fn lemma_last_index_bound(s: Seq<char>, c: char)
    ensures
        -1 <= last_index(s, c) < s.len(),
        last_index(s, c) >= 0 ==> s[last_index(s, c)] == c,
    decreases s.len(),
{
    if s.len() > 0 && s.last() != c {
        lemma_last_index_bound(s.drop_last(), c);
    }
}

proof fn lemma_last_index_skip(a: Seq<char>, b: Seq<char>, c: char)
    requires
        forall|i: int| 0 <= i < b.len() ==> #[trigger] b[i] != c,
    ensures
        last_index(a + b, c) == last_index(a, c),
    decreases b.len(),
{
    if b.len() == 0 {
        assert(a + b =~= a);
    } else {
        assert((a + b).drop_last() =~= a + b.drop_last());
        assert((a + b).last() == b.last());
        assert(b[b.len() - 1] != c);
        assert forall|i: int| 0 <= i < b.drop_last().len() implies #[trigger] b.drop_last()[i] != c by {
            assert(b.drop_last()[i] == b[i]);
        }
        lemma_last_index_skip(a, b.drop_last(), c);
    }
}

proof fn lemma_decimal_plain(n: nat)
    ensures
        forall|i: int| 0 <= i < decimal(n).len() ==> {
            let c = #[trigger] decimal(n)[i];
            plain_char(c) && c != '#' && c != '}'
        },
{
    lemma_decimal_value(n);
    assert forall|i: int| 0 <= i < decimal(n).len() implies {
        let c = #[trigger] decimal(n)[i];
        plain_char(c) && c != '#' && c != '}'
    } by {
        assert(is_digit(decimal(n)[i]));
    }
}

proof fn lemma_segment_scan(s: SegmentView)
    requires
        well_formed_segment(s),
    ensures
        no_top_colon(render_segment(s), 0),
        end_depth(render_segment(s), 0) == 0,
        render_segment(s).len() > 0,
        segment_of(render_segment(s), 0) == Ok::<SegmentView, PathErrorView>(s),
        forall|pos: nat| segment_of(render_segment(s), pos) == Ok::<SegmentView, PathErrorView>(s),
{
    if s.1 > 0 {
        let dec = decimal(s.1 as nat);
        let tail = seq!['#'] + dec;
        lemma_decimal_plain(s.1 as nat);
        assert forall|i: int| 0 <= i < tail.len() implies plain_char(#[trigger] tail[i]) by {
            if i > 0 {
                assert(tail[i] == dec[i - 1]);
            }
        }
        lemma_scan_plain(tail, 0);
        assert(s.0 + seq!['#'] + dec =~= s.0 + tail);
        lemma_scan_concat(s.0, tail, 0);
        let raw = render_segment(s);
        assert forall|i: int| 0 <= i < tail.len() implies #[trigger] tail[i] != '}' by {
            if i > 0 {
                assert(tail[i] == dec[i - 1]);
            }
        }
        lemma_last_index_skip(s.0, tail, '}');
        assert forall|i: int| 0 <= i < dec.len() implies #[trigger] dec[i] != '#' by {}
        lemma_last_index_skip(s.0.push('#'), dec, '#');
        assert(s.0.push('#') + dec =~= raw);
        assert(last_index(s.0.push('#'), '#') == s.0.len()) by {
            assert(s.0.push('#').last() == '#');
        }
        lemma_last_index_bound(s.0, '}');
        assert(raw.subrange(s.0.len() as int + 1, raw.len() as int) =~= dec);
        assert(raw.subrange(0, s.0.len() as int) =~= s.0);
        lemma_u32_round_trip(s.1);
    }
}

proof fn lemma_render_splits(p: Seq<SegmentView>)
    requires
        p.len() > 0,
        forall|i: int| 0 <= i < p.len() ==> well_formed_segment(#[trigger] p[i]),
    ensures
        split_from(render_path(p), 0).0 == p.map_values(|s: SegmentView| render_segment(s)),
        split_from(render_path(p), 0).1 == 0,
    decreases p.len(),
{
    let r0 = render_segment(p[0]);
    lemma_segment_scan(p[0]);
    if p.len() == 1 {
        assert(render_path(p) =~= r0 + Seq::<char>::empty());
        lemma_split_prefix(r0, Seq::<char>::empty(), 0);
        assert(prepend_all(r0, seq![Seq::<char>::empty()]) =~= p.map_values(|s: SegmentView| render_segment(s)));
    } else {
        let rest = p.drop_first();
        assert forall|i: int| 0 <= i < rest.len() implies well_formed_segment(#[trigger] rest[i]) by {
            assert(rest[i] == p[i + 1]);
        }
        lemma_render_splits(rest);
        let tail = seq![':', ':'] + render_path(rest);
        assert(render_path(p) =~= r0 + tail);
        lemma_split_prefix(r0, tail, 0);
        assert(tail.subrange(2, tail.len() as int) =~= render_path(rest));
        let inner = split_from(render_path(rest), 0).0;
        assert(split_from(tail, 0).0 == seq![Seq::<char>::empty()] + inner);
        assert(prepend_all(r0, seq![Seq::<char>::empty()] + inner) =~= p.map_values(|s: SegmentView| render_segment(s))) by {
            assert(r0 + Seq::<char>::empty() =~= r0);
        }
    }
}

proof fn lemma_segments_read_back(p: Seq<SegmentView>, pos: nat)
    requires
        forall|i: int| 0 <= i < p.len() ==> well_formed_segment(#[trigger] p[i]),
    ensures
        segments_of(p.map_values(|s: SegmentView| render_segment(s)), pos) == Ok::<Seq<SegmentView>, PathErrorView>(p),
    decreases p.len(),
{
    let parts = p.map_values(|s: SegmentView| render_segment(s));
    if p.len() == 0 {
        assert(p =~= Seq::<SegmentView>::empty());
    } else {
        lemma_segment_scan(p[0]);
        let rest = p.drop_first();
        assert forall|i: int| 0 <= i < rest.len() implies well_formed_segment(#[trigger] rest[i]) by {
            assert(rest[i] == p[i + 1]);
        }
        lemma_segments_read_back(rest, pos + 1);
        assert(parts.drop_first() =~= rest.map_values(|s: SegmentView| render_segment(s)));
        assert(seq![p[0]] + rest =~= p);
    }
}

/// Every path of well-formed segments reads back from its written form unchanged: the
/// text a path renders to is a faithful name for it.
pub proof fn lemma_path_round_trip(p: Seq<SegmentView>)
    requires
        p.len() > 0,
        forall|i: int| 0 <= i < p.len() ==> well_formed_segment(#[trigger] p[i]),
    ensures
        path_of(render_path(p)) == Ok::<Seq<SegmentView>, PathErrorView>(p),
{
    lemma_render_splits(p);
    lemma_segments_read_back(p, 0);
    assert(!blank(render_path(p))) by {
        let name = p[0].0;
        assert(well_formed_segment(p[0]));
        let k = choose|k: int| 0 <= k < name.len() && !unicode_whitespace(#[trigger] name[k]);
        lemma_render_starts(p);
        assert(render_path(p)[k] == name[k]);
    }
}

proof fn lemma_render_starts(p: Seq<SegmentView>)
    requires
        p.len() > 0,
    ensures
        render_path(p).len() >= p[0].0.len(),
        forall|k: int| 0 <= k < p[0].0.len() ==> #[trigger] render_path(p)[k] == p[0].0[k],
{
    let r0 = render_segment(p[0]);
    assert(r0.len() >= p[0].0.len());
    assert(forall|k: int| 0 <= k < p[0].0.len() ==> #[trigger] r0[k] == p[0].0[k]);
    if p.len() > 1 {
        assert(render_path(p) == r0 + seq![':', ':'] + render_path(p.drop_first()));
    }
}

// --- parsed paths read back ------------------------------------------------------------

/// Whether `a`, read from brace depth `d`, holds no `::` at depth zero.
pub open spec fn pairless(a: Seq<char>, d: nat) -> bool
    decreases a.len(),
{
    a.len() == 0 || (!(a[0] == ':' && d == 0 && a.len() >= 2 && a[1] == ':') && pairless(a.drop_first(), next_depth(a[0], d)))
}

/// Whether `a`, read from brace depth `d`, holds no `::` at depth zero and does not end
/// in a `:` at depth zero, so a `::` written after it is read as the separator.
pub open spec fn clean(a: Seq<char>, d: nat) -> bool
    decreases a.len(),
{
    a.len() == 0 || (!(a[0] == ':' && d == 0 && (a.len() == 1 || a[1] == ':')) && clean(a.drop_first(), next_depth(a[0], d)))
}

proof fn lemma_split_prefix_clean(a: Seq<char>, b: Seq<char>, d: nat)
    requires
        clean(a, d) || (pairless(a, d) && b.len() == 0),
    ensures
        split_from(a + b, d).0 == prepend_all(a, split_from(b, end_depth(a, d)).0),
        split_from(a + b, d).1 == split_from(b, end_depth(a, d)).1,
    decreases a.len(),
{
    lemma_split_nonempty(b, end_depth(a, d));
    if a.len() == 0 {
        assert(a + b =~= b);
        let parts = split_from(b, d).0;
        assert(prepend_all(a, parts) =~= parts);
    } else {
        let a2 = a.drop_first();
        let d2 = next_depth(a[0], d);
        assert((a + b).drop_first() =~= a2 + b);
        assert((a + b)[0] == a[0]);
        if a.len() >= 2 {
            assert((a + b)[1] == a[1]);
        } else if b.len() > 0 {
            assert((a + b)[1] == b[0]);
        }
        lemma_split_prefix_clean(a2, b, d2);
        lemma_split_nonempty(a2 + b, d2);
        let x = split_from(b, end_depth(a2, d2)).0;
        assert(prepend(a[0], prepend_all(a2, x)) =~= prepend_all(a, x)) by {
            assert(seq![a[0]] + (a2 + x[0]) =~= a + x[0]);
        }
    }
}

/// The depth a part of a split starts from.
pub open spec fn part_start(i: int, d: nat) -> nat {
    if i == 0 {
        d
    } else {
        0
    }
}

proof fn lemma_split_parts(s: Seq<char>, d: nat)
    ensures
        ({
            let (parts, dd) = split_from(s, d);
            &&& parts.len() >= 1
            &&& forall|i: int| 0 <= i < parts.len() - 1 ==> clean(#[trigger] parts[i], part_start(i, d))
                && end_depth(parts[i], part_start(i, d)) == 0
            &&& pairless(parts.last(), part_start(parts.len() - 1, d))
            &&& end_depth(parts.last(), part_start(parts.len() - 1, d)) == dd
            &&& parts[0].len() == 0 ==> (s.len() == 0 || (d == 0 && s.len() >= 2 && s[0] == ':' && s[1] == ':'))
            &&& parts[0].len() > 0 ==> s.len() > 0 && parts[0][0] == s[0]
            &&& parts.len() == 1 ==> parts[0] == s
        }),
    decreases s.len(),
{
    if s.len() == 0 {
    } else if s[0] == ':' && d == 0 && s.len() >= 2 && s[1] == ':' {
        let t = s.subrange(2, s.len() as int);
        lemma_split_parts(t, 0);
        let r = split_from(t, 0);
        let parts = split_from(s, d).0;
        assert(parts == seq![Seq::<char>::empty()] + r.0);
        assert forall|i: int| 0 <= i < parts.len() - 1 implies clean(#[trigger] parts[i], part_start(i, d))
            && end_depth(parts[i], part_start(i, d)) == 0 by {
            if i > 0 {
                assert(parts[i] == r.0[i - 1]);
                assert(part_start(i - 1, 0) == 0);
            }
        }
        assert(parts.last() == r.0.last());
    } else {
        let u = s.drop_first();
        let nd = next_depth(s[0], d);
        lemma_split_parts(u, nd);
        let r = split_from(u, nd);
        let x = r.0[0];
        let parts = split_from(s, d).0;
        assert(parts == prepend(s[0], r.0));
        let a = seq![s[0]] + x;
        assert(parts[0] == a);
        assert(a.drop_first() =~= x);
        if s[0] == ':' && d == 0 {
            if x.len() == 0 {
                assert(u.len() == 0);
                assert(r.0.len() == 1);
            } else {
                assert(x[0] == s[1]);
                assert(a[1] == s[1]);
            }
        }
        assert(end_depth(a, d) == end_depth(x, nd));
        assert forall|i: int| 0 <= i < parts.len() - 1 implies clean(#[trigger] parts[i], part_start(i, d))
            && end_depth(parts[i], part_start(i, d)) == 0 by {
            if i > 0 {
                assert(parts[i] == r.0[i]);
            } else {
                assert(clean(x, part_start(0, nd)));
            }
        }
        if parts.len() == 1 {
            assert(r.0.len() == 1);
            assert(x == u);
            assert(a =~= s);
        }
    }
}

/// The digits-and-`#` tail of a segment's written form means nothing to the splitter.
proof fn lemma_plain_clean(b: Seq<char>, d: nat)
    requires
        forall|i: int| 0 <= i < b.len() ==> plain_char(#[trigger] b[i]),
    ensures
        clean(b, d),
        pairless(b, d),
        end_depth(b, d) == d,
    decreases b.len(),
{
    if b.len() > 0 {
        assert forall|i: int| 0 <= i < b.drop_first().len() implies plain_char(#[trigger] b.drop_first()[i]) by {
            assert(b.drop_first()[i] == b[i + 1]);
        }
        assert(plain_char(b[0]));
        lemma_plain_clean(b.drop_first(), d);
    }
}

proof fn lemma_clean_concat(a: Seq<char>, b: Seq<char>, d: nat)
    requires
        b.len() > 0,
        b[0] != ':',
    ensures
        clean(a + b, d) == (pairless(a, d) && clean(b, end_depth(a, d))),
        pairless(a + b, d) == (pairless(a, d) && pairless(b, end_depth(a, d))),
        end_depth(a + b, d) == end_depth(b, end_depth(a, d)),
    decreases a.len(),
{
    if a.len() == 0 {
        assert(a + b =~= b);
    } else {
        assert((a + b).drop_first() =~= a.drop_first() + b);
        assert((a + b)[0] == a[0]);
        if a.len() >= 2 {
            assert((a + b)[1] == a[1]);
        } else {
            assert((a + b)[1] == b[0]);
        }
        lemma_clean_concat(a.drop_first(), b, next_depth(a[0], d));
    }
}

/// A raw part that parsed to `s` has a written form that reads back as `s`, splits the
/// way the part did, and ends at the depth the part did.
proof fn lemma_part_rereads(raw: Seq<char>, pos: nat, s: SegmentView)
    requires
        raw.len() > 0,
        segment_of(raw, pos) == Ok::<SegmentView, PathErrorView>(s),
    ensures
        render_segment(s).len() > 0,
        end_depth(render_segment(s), 0) == end_depth(raw, 0),
        clean(render_segment(s), 0) == clean(raw, 0),
        pairless(render_segment(s), 0) == pairless(raw, 0),
        forall|q: nat| segment_of(render_segment(s), q) == Ok::<SegmentView, PathErrorView>(s),
        s.1 == 0 ==> render_segment(s) == raw,
{
    let closing = last_index(raw, '}') + 1;
    let hash = last_index(raw, '#');
    if hash < closing {
        assert(s == (raw, 0u32));
    } else {
        lemma_last_index_bound(raw, '#');
        lemma_last_index_bound(raw, '}');
        let ordinal = raw.subrange(hash + 1, raw.len() as int);
        let n = s.1;
        let name = raw.subrange(0, hash);
        assert(s == (name, n));
        assert(hash != 0);
        let t_raw = seq!['#'] + ordinal;
        assert(raw =~= name + t_raw);
        assert forall|i: int| 0 <= i < t_raw.len() implies plain_char(#[trigger] t_raw[i]) by {
            if i > 0 {
                assert(t_raw[i] == ordinal[i - 1]);
                if !(ordinal.len() > 0 && ordinal[0] == '+' && i == 1) {
                    let digits = if ordinal.len() > 0 && ordinal[0] == '+' { ordinal.drop_first() } else { ordinal };
                    if ordinal.len() > 0 && ordinal[0] == '+' {
                        assert(ordinal[i - 1] == digits[i - 2]);
                        assert(is_digit(digits[i - 2]));
                    } else {
                        assert(is_digit(digits[i - 1]));
                    }
                }
            }
        }
        lemma_plain_clean(t_raw, end_depth(name, 0));
        lemma_clean_concat(name, t_raw, 0);
        let dec = decimal(n as nat);
        let tail = seq!['#'] + dec;
        lemma_decimal_plain(n as nat);
        assert forall|i: int| 0 <= i < tail.len() implies plain_char(#[trigger] tail[i]) by {
            if i > 0 {
                assert(tail[i] == dec[i - 1]);
            }
        }
        lemma_plain_clean(tail, end_depth(name, 0));
        let rendered = render_segment(s);
        assert(rendered =~= name + tail);
        lemma_clean_concat(name, tail, 0);
        assert forall|i: int| 0 <= i < tail.len() implies #[trigger] tail[i] != '}' by {
            if i > 0 {
                assert(tail[i] == dec[i - 1]);
            }
        }
        lemma_last_index_skip(name, tail, '}');
        assert forall|i: int| 0 <= i < dec.len() implies #[trigger] dec[i] != '#' by {}
        lemma_last_index_skip(name.push('#'), dec, '#');
        assert(name.push('#') + dec =~= rendered);
        assert(last_index(name.push('#'), '#') == name.len()) by {
            assert(name.push('#').last() == '#');
        }
        lemma_last_index_bound(name, '}');
        assert(rendered.subrange(name.len() as int + 1, rendered.len() as int) =~= dec);
        assert(rendered.subrange(0, name.len() as int) =~= name);
        lemma_u32_round_trip(n);
    }
}

proof fn lemma_segments_of_parts(parts: Seq<Seq<char>>, pos: nat, p: Seq<SegmentView>)
    requires
        segments_of(parts, pos) == Ok::<Seq<SegmentView>, PathErrorView>(p),
    ensures
        p.len() == parts.len(),
        forall|i: int| 0 <= i < parts.len() ==> (#[trigger] parts[i]).len() > 0
            && segment_of(parts[i], (pos + i) as nat) == Ok::<SegmentView, PathErrorView>(p[i]),
    decreases parts.len(),
{
    if parts.len() > 0 {
        let rest = segments_of(parts.drop_first(), pos + 1)->Ok_0;
        lemma_segments_of_parts(parts.drop_first(), pos + 1, rest);
        assert(p == seq![segment_of(parts[0], pos)->Ok_0] + rest);
        assert forall|i: int| 0 <= i < parts.len() implies (#[trigger] parts[i]).len() > 0
            && segment_of(parts[i], (pos + i) as nat) == Ok::<SegmentView, PathErrorView>(p[i]) by {
            if i > 0 {
                assert(parts[i] == parts.drop_first()[i - 1]);
                assert(p[i] == rest[i - 1]);
                assert((pos + 1 + (i - 1)) as nat == (pos + i) as nat);
            }
        }
    }
}

proof fn lemma_render_splits_read(p: Seq<SegmentView>)
    requires
        p.len() > 0,
        forall|i: int| 0 <= i < p.len() - 1 ==> clean(render_segment(#[trigger] p[i]), 0),
        pairless(render_segment(p.last()), 0),
        forall|i: int| 0 <= i < p.len() ==> end_depth(render_segment(#[trigger] p[i]), 0) == 0,
    ensures
        split_from(render_path(p), 0).0 == p.map_values(|s: SegmentView| render_segment(s)),
        split_from(render_path(p), 0).1 == 0,
    decreases p.len(),
{
    let r0 = render_segment(p[0]);
    if p.len() == 1 {
        assert(render_path(p) =~= r0 + Seq::<char>::empty());
        lemma_split_prefix_clean(r0, Seq::<char>::empty(), 0);
        assert(prepend_all(r0, seq![Seq::<char>::empty()]) =~= p.map_values(|s: SegmentView| render_segment(s)));
    } else {
        let rest = p.drop_first();
        assert forall|i: int| 0 <= i < rest.len() - 1 implies clean(render_segment(#[trigger] rest[i]), 0) by {
            assert(rest[i] == p[i + 1]);
        }
        assert forall|i: int| 0 <= i < rest.len() implies end_depth(render_segment(#[trigger] rest[i]), 0) == 0 by {
            assert(rest[i] == p[i + 1]);
        }
        assert(rest.last() == p.last());
        lemma_render_splits_read(rest);
        let tail = seq![':', ':'] + render_path(rest);
        assert(render_path(p) =~= r0 + tail);
        assert(clean(r0, 0));
        lemma_split_prefix_clean(r0, tail, 0);
        assert(tail.subrange(2, tail.len() as int) =~= render_path(rest));
        let inner = split_from(render_path(rest), 0).0;
        assert(split_from(tail, 0).0 == seq![Seq::<char>::empty()] + inner);
        assert(prepend_all(r0, seq![Seq::<char>::empty()] + inner) =~= p.map_values(|s: SegmentView| render_segment(s))) by {
            assert(r0 + Seq::<char>::empty() =~= r0);
        }
    }
}

proof fn lemma_segments_reread(p: Seq<SegmentView>, pos: nat)
    requires
        forall|i: int| 0 <= i < p.len() ==> render_segment(#[trigger] p[i]).len() > 0
            && forall|q: nat| segment_of(render_segment(p[i]), q) == Ok::<SegmentView, PathErrorView>(p[i]),
    ensures
        segments_of(p.map_values(|s: SegmentView| render_segment(s)), pos) == Ok::<Seq<SegmentView>, PathErrorView>(p),
    decreases p.len(),
{
    let parts = p.map_values(|s: SegmentView| render_segment(s));
    if p.len() == 0 {
        assert(p =~= Seq::<SegmentView>::empty());
    } else {
        let rest = p.drop_first();
        assert forall|i: int| 0 <= i < rest.len() implies render_segment(#[trigger] rest[i]).len() > 0
            && forall|q: nat| segment_of(render_segment(rest[i]), q) == Ok::<SegmentView, PathErrorView>(rest[i]) by {
            assert(rest[i] == p[i + 1]);
        }
        lemma_segments_reread(rest, pos + 1);
        assert(parts.drop_first() =~= rest.map_values(|s: SegmentView| render_segment(s)));
        assert(render_segment(p[0]).len() > 0);
        assert(segment_of(parts[0], pos) == Ok::<SegmentView, PathErrorView>(p[0]));
        assert(seq![p[0]] + rest =~= p);
    }
}

/// Every path that parses survives being written out and parsed again: the text a
/// parsed path renders to reads back as the same segments.
pub proof fn lemma_parsed_path_round_trip(text: Seq<char>)
    requires
        path_of(text) is Ok,
    ensures
        path_of(render_path(path_of(text)->Ok_0)) == path_of(text),
{
    let p = path_of(text)->Ok_0;
    let (parts, dd) = split_from(text, 0);
    lemma_split_parts(text, 0);
    lemma_segments_of_parts(parts, 0, p);
    assert forall|i: int| 0 <= i < p.len() implies render_segment(#[trigger] p[i]).len() > 0
        && forall|q: nat| segment_of(render_segment(p[i]), q) == Ok::<SegmentView, PathErrorView>(p[i]) by {
        assert(parts[i].len() > 0);
        lemma_part_rereads(parts[i], i as nat, p[i]);
    }
    assert forall|i: int| 0 <= i < p.len() - 1 implies clean(render_segment(#[trigger] p[i]), 0) by {
        assert(part_start(i, 0) == 0);
        assert(clean(parts[i], 0));
        lemma_part_rereads(parts[i], i as nat, p[i]);
    }
    assert forall|i: int| 0 <= i < p.len() implies end_depth(render_segment(#[trigger] p[i]), 0) == 0 by {
        assert(part_start(i, 0) == 0);
        lemma_part_rereads(parts[i], i as nat, p[i]);
        if i < p.len() - 1 {
            assert(end_depth(parts[i], 0) == 0);
        } else {
            assert(parts.last() == parts[i]);
        }
    }
    let last = p.len() - 1;
    lemma_part_rereads(parts[last], last as nat, p[last]);
    assert(parts.last() == parts[last]);
    assert(pairless(render_segment(p.last()), 0));
    lemma_render_splits_read(p);
    lemma_segments_reread(p, 0);
    let rendered = render_path(p);
    assert(!blank(rendered)) by {
        reveal(unicode_whitespace);
        let r0 = render_segment(p[0]);
        if p.len() > 1 {
            assert(rendered == r0 + seq![':', ':'] + render_path(p.drop_first()));
            assert(rendered[r0.len() as int] == ':');
        } else if p[0].1 > 0 {
            assert(rendered == r0);
            assert(r0[p[0].0.len() as int] == '#');
        } else {
            assert(rendered == r0);
            lemma_part_rereads(parts[0], 0, p[0]);
            assert(r0 == parts[0]);
            assert(parts[0] == text);
        }
    }
}

/// Whether `ok` holds of every character of `s`.
pub open spec fn all_chars(s: Seq<char>, ok: spec_fn(char) -> bool) -> bool {
    forall|i: int| 0 <= i < s.len() ==> ok(#[trigger] s[i])
}

proof fn lemma_split_chars(s: Seq<char>, d: nat, ok: spec_fn(char) -> bool)
    requires
        all_chars(s, ok),
    ensures
        forall|i: int| 0 <= i < split_from(s, d).0.len() ==> all_chars(#[trigger] split_from(s, d).0[i], ok),
    decreases s.len(),
{
    if s.len() == 0 {
        assert(all_chars(Seq::<char>::empty(), ok));
    } else if s[0] == ':' && d == 0 && s.len() >= 2 && s[1] == ':' {
        let t = s.subrange(2, s.len() as int);
        assert forall|i: int| 0 <= i < t.len() implies ok(#[trigger] t[i]) by {
            assert(t[i] == s[i + 2]);
        }
        lemma_split_chars(t, 0, ok);
        let r = split_from(t, 0).0;
        let parts = split_from(s, d).0;
        assert forall|i: int| 0 <= i < parts.len() implies all_chars(#[trigger] parts[i], ok) by {
            if i > 0 {
                assert(parts[i] == r[i - 1]);
            } else {
                assert(parts[0] =~= Seq::<char>::empty());
            }
        }
    } else {
        let u = s.drop_first();
        assert forall|i: int| 0 <= i < u.len() implies ok(#[trigger] u[i]) by {
            assert(u[i] == s[i + 1]);
        }
        let nd = next_depth(s[0], d);
        lemma_split_chars(u, nd, ok);
        lemma_split_nonempty(u, nd);
        let r = split_from(u, nd).0;
        let parts = split_from(s, d).0;
        assert forall|i: int| 0 <= i < parts.len() implies all_chars(#[trigger] parts[i], ok) by {
            if i > 0 {
                assert(parts[i] == r[i]);
            } else {
                let a = parts[0];
                assert(a == seq![s[0]] + r[0]);
                assert(all_chars(r[0], ok));
                assert forall|j: int| 0 <= j < a.len() implies ok(#[trigger] a[j]) by {
                    if j > 0 {
                        assert(a[j] == r[0][j - 1]);
                    }
                }
            }
        }
    }
}

/// Writing out a path that parsed from text whose characters all satisfy `ok` uses only
/// such characters, `:`, `#` and digits.
pub proof fn lemma_parsed_path_chars(text: Seq<char>, ok: spec_fn(char) -> bool)
    requires
        path_of(text) is Ok,
        all_chars(text, ok),
        ok(':'),
        ok('#'),
        forall|c: char| is_digit(c) ==> #[trigger] ok(c),
    ensures
        all_chars(render_path(path_of(text)->Ok_0), ok),
{
    let p = path_of(text)->Ok_0;
    let parts = split_from(text, 0).0;
    lemma_split_chars(text, 0, ok);
    lemma_segments_of_parts(parts, 0, p);
    assert forall|i: int| 0 <= i < p.len() implies all_chars(render_segment(#[trigger] p[i]), ok) by {
        let raw = parts[i];
        assert(all_chars(raw, ok));
        let closing = last_index(raw, '}') + 1;
        let hash = last_index(raw, '#');
        if hash >= closing {
            lemma_last_index_bound(raw, '#');
            lemma_last_index_bound(raw, '}');
            let name = raw.subrange(0, hash);
            let n = p[i].1;
            assert(p[i].0 == name);
            let dec = decimal(n as nat);
            lemma_decimal_value(n as nat);
            let r = render_segment(p[i]);
            assert(r == name + seq!['#'] + dec);
            assert forall|j: int| 0 <= j < r.len() implies ok(#[trigger] r[j]) by {
                if j < name.len() {
                    assert(r[j] == name[j]);
                    assert(name[j] == raw[j]);
                } else if j == name.len() {
                    assert(r[j] == '#');
                } else {
                    assert(r[j] == dec[j - name.len() - 1]);
                    assert(is_digit(dec[j - name.len() - 1]));
                }
            }
        }
    }
    lemma_render_chars(p, ok);
}

proof fn lemma_render_chars(p: Seq<SegmentView>, ok: spec_fn(char) -> bool)
    requires
        ok(':'),
        forall|i: int| 0 <= i < p.len() ==> all_chars(render_segment(#[trigger] p[i]), ok),
    ensures
        all_chars(render_path(p), ok),
    decreases p.len(),
{
    if p.len() == 0 {
        assert(all_chars(Seq::<char>::empty(), ok));
    } else if p.len() > 1 {
        let rest = p.drop_first();
        assert forall|i: int| 0 <= i < rest.len() implies all_chars(render_segment(#[trigger] rest[i]), ok) by {
            assert(rest[i] == p[i + 1]);
        }
        lemma_render_chars(rest, ok);
        let r0 = render_segment(p[0]);
        let out = render_path(p);
        assert(out == r0 + seq![':', ':'] + render_path(rest));
        assert(all_chars(r0, ok));
        assert forall|j: int| 0 <= j < out.len() implies ok(#[trigger] out[j]) by {
            if j < r0.len() {
                assert(out[j] == r0[j]);
            } else if j >= r0.len() + 2 {
                assert(out[j] == render_path(rest)[j - r0.len() - 2]);
            }
        }
    }
}

/// An interned handle for a [`SeamPath`].
#[derive(Clone, Copy, Debug, PartialEq, Eq, Structural, Hash, PartialOrd, Ord)]
pub struct SeamId(pub u32);

/// The two-way map between [`SeamPath`]s and [`SeamId`]s. Ids are handed out in
/// first-seen order and are never reused; an id is the position of its path.
#[derive(Debug, Default, Clone)]
pub struct SeamInterner {
    paths: Vec<SeamPath>,
}

impl View for SeamInterner {
    type V = Seq<Seq<SegmentView>>;

    closed spec fn view(&self) -> Seq<Seq<SegmentView>> {
        self.paths@.map_values(|p: SeamPath| p@)
    }
}

/// The id naming position `k`: the position itself, held at `u32::MAX`.
pub open spec fn id_for(k: int) -> u32 {
    if k <= u32::MAX {
        k as u32
    } else {
        u32::MAX
    }
}

impl SeamInterner {
    /// Whether no path is held twice, so each path has exactly one id.
    pub open spec fn wf(&self) -> bool {
        forall|i: int, j: int| 0 <= i < self@.len() && 0 <= j < self@.len() && i != j ==> self@[i] != self@[j]
    }

    /// An interner holding nothing.
    pub fn new() -> (r: Self)
        ensures
            r@ == Seq::<Seq<SegmentView>>::empty(),
            r.wf(),
    {
        let r = SeamInterner { paths: Vec::new() };
        assert(r@ =~= Seq::<Seq<SegmentView>>::empty());
        r
    }

    /// The id already assigned to `path`, without interning a new one.
    pub fn lookup(&self, path: &SeamPath) -> (r: Option<SeamId>)
        ensures
            match r {
                Some(id) => exists|k: int|
                    0 <= k < self@.len() && self@[k] == path@ && id.0 == id_for(k),
                None => !self@.contains(path@),
            },
    {
        let mut i: usize = 0;
        while i < self.paths.len()
            invariant
                i <= self@.len(),
                forall|j: int| 0 <= j < i ==> self@[j] != path@,
            decreases self.paths.len() - i,
        {
            if self.paths[i].same_as(path) {
                let id = if i <= 4294967295 { SeamId(i as u32) } else { SeamId(4294967295) };
                assert(0 <= i < self@.len() && self@[i as int] == path@ && id.0 == id_for(i as int));
                return Some(id);
            }
            i = i + 1;
        }
        None
    }

    /// The id for `path`, assigning a fresh one the first time it is seen.
    ///
    /// A fresh id is the position the path takes; past `u32::MAX` positions the id
    /// saturates rather than panicking.
    pub fn intern(&mut self, path: SeamPath) -> (r: SeamId)
        requires
            old(self).wf(),
        ensures
            final(self).wf(),
            old(self)@.contains(path@) ==> final(self)@ == old(self)@ && exists|k: int|
                0 <= k < old(self)@.len() && old(self)@[k] == path@ && r.0 == id_for(k),
            old(self)@.contains(path@) ==> forall|k: int| 0 <= k < old(self)@.len() && old(self)@[k] == path@ ==> r.0 == id_for(k),
            !old(self)@.contains(path@) ==> final(self)@ == old(self)@.push(path@) && r.0 == id_for(
                old(self)@.len() as int,
            ),
    {
        match self.lookup(&path) {
            Some(id) => {
                proof {
                    let k = choose|k: int| 0 <= k < self@.len() && self@[k] == path@ && id.0 == id_for(k);
                    assert(self@.contains(path@));
                }
                return id;
            },
            None => {},
        }
        let len = self.paths.len();
        let id = if len <= 4294967295 { SeamId(len as u32) } else { SeamId(4294967295) };
        let ghost before = self@;
        self.paths.push(path);
        assert(self@ =~= before.push(path@));
        id
    }

    /// The path behind `id`, or `None` if it came from a different interner.
    pub fn path(&self, id: SeamId) -> (r: Option<&SeamPath>)
        ensures
            match r {
                Some(p) => id.0 < self@.len() && p@ == self@[id.0 as int],
                None => id.0 >= self@.len(),
            },
    {
        let i = id.0 as usize;
        if i < self.paths.len() {
            Some(&self.paths[i])
        } else {
            None
        }
    }

    /// How many distinct paths have been interned.
    pub fn len(&self) -> (r: usize)
        ensures
            r == self@.len(),
    {
        self.paths.len()
    }

    /// Whether nothing has been interned yet.
    pub fn is_empty(&self) -> (r: bool)
        ensures
            r == (self@.len() == 0),
    {
        self.paths.len() == 0
    }
}


/// The ids of a well-formed interner name paths one to one: two positions below
/// `u32::MAX + 1` share an id exactly when they hold the same path, so interning a path
/// again gives back the id it was given, and distinct paths never share one.
pub proof fn lemma_interned_one_to_one(i: &SeamInterner, k1: int, k2: int)
    requires
        i.wf(),
        0 <= k1 < i@.len(),
        0 <= k2 < i@.len(),
        k1 <= u32::MAX,
        k2 <= u32::MAX,
    ensures
        (id_for(k1) == id_for(k2)) == (i@[k1] == i@[k2]),
{
}

/// Where `id` moved to under `remap`, or `id` itself when it did not move.
pub open spec fn moved(remap: Map<SeamId, SeamId>, id: SeamId) -> SeamId {
    if remap.contains_key(id) {
        remap[id]
    } else {
        id
    }
}

/// A record of which ids moved where, as one relocation produces it.
#[derive(Debug, Clone, Default)]
pub struct Remap {
    pairs: Vec<(SeamId, SeamId)>,
}

/// The first target recorded for `id`.
pub open spec fn first_target(pairs: Seq<(SeamId, SeamId)>, id: SeamId) -> Option<SeamId>
    decreases pairs.len(),
{
    if pairs.len() == 0 {
        None
    } else if pairs[0].0 == id {
        Some(pairs[0].1)
    } else {
        first_target(pairs.drop_first(), id)
    }
}

impl View for Remap {
    type V = Map<SeamId, SeamId>;

    closed spec fn view(&self) -> Map<SeamId, SeamId> {
        Map::new(
            |id: SeamId| first_target(self.pairs@, id) is Some,
            |id: SeamId| first_target(self.pairs@, id)->0,
        )
    }
}

impl Remap {
    /// A remap that moves nothing.
    pub fn new() -> (r: Self)
        ensures
            r@ == Map::<SeamId, SeamId>::empty(),
    {
        let r = Remap { pairs: Vec::new() };
        assert(r@ =~= Map::<SeamId, SeamId>::empty());
        r
    }

    /// Record that `from` moved to `to`, replacing any earlier record for `from`.
    pub fn insert(&mut self, from: SeamId, to: SeamId)
        ensures
            final(self)@ == old(self)@.insert(from, to),
    {
        let ghost old_pairs = self.pairs@;
        self.pairs.insert(0, (from, to));
        proof {
            assert(self.pairs@.drop_first() =~= old_pairs);
            assert(self@ =~= old(self)@.insert(from, to));
        }
    }

    /// Where `id` moved to, if it did.
    pub fn get(&self, id: SeamId) -> (r: Option<SeamId>)
        ensures
            r == (if self@.contains_key(id) { Some(self@[id]) } else { None::<SeamId> }),
    {
        let mut i: usize = 0;
        assert(self.pairs@.subrange(0, self.pairs@.len() as int) =~= self.pairs@);
        while i < self.pairs.len()
            invariant
                i <= self.pairs@.len(),
                first_target(self.pairs@, id) == first_target(self.pairs@.subrange(i as int, self.pairs@.len() as int), id),
            decreases self.pairs.len() - i,
        {
            let ghost rest = self.pairs@.subrange(i as int, self.pairs@.len() as int);
            assert(rest.drop_first() =~= self.pairs@.subrange(i + 1, self.pairs@.len() as int));
            assert(rest[0] == self.pairs@[i as int]);
            if self.pairs[i].0 == id {
                return Some(self.pairs[i].1);
            }
            i = i + 1;
        }
        None
    }

    /// Where `id` is now: its target if it moved, itself if not.
    pub fn apply(&self, id: SeamId) -> (r: SeamId)
        ensures
            r == moved(self@, id),
    {
        match self.get(id) {
            Some(t) => t,
            None => id,
        }
    }

    /// Whether nothing moved.
    pub fn is_empty(&self) -> (r: bool)
        ensures
            r == (self@ == Map::<SeamId, SeamId>::empty()),
    {
        if self.pairs.len() == 0 {
            assert(self@ =~= Map::<SeamId, SeamId>::empty());
            true
        } else {
            assert(self@.contains_key(self.pairs@[0].0));
            assert(!Map::<SeamId, SeamId>::empty().contains_key(self.pairs@[0].0));
            false
        }
    }
}

} // verus!
