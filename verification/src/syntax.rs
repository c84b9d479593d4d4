//! A parsed file as plain values, and the text arithmetic that reading it needs.
//!
//! tree-sitter lends out its nodes only for the length of one visit, so a parse is
//! copied out once into [`ParsedNode`]s — kind, field, byte span, whether the node is
//! named, whether anything under it failed to parse, and its children in source order —
//! and everything downstream reads those. Spans are byte offsets into the parsed text;
//! reading one back goes through [`Source`], which answers `None` for a span that does
//! not fall on character boundaries of that text, exactly as `str::get` does.

use vstd::prelude::*;
use karet_treesitter::LanguageId;
use karet_treesitter::ParserPool;
use karet_treesitter::SyntaxTree;
use karet_treesitter::WalkControl;
use karet_treesitter::WalkNode;
use crate::coord::LineCol;
use crate::coord::Range;
use crate::modules::last_of;
use crate::text::byte_at;
use crate::text::byte_offsets;
use crate::text::char_at_byte;
use crate::text::chars_of;
use crate::text::position_at_byte;
use crate::text::string_of_range;
use crate::text::str_eq;
use crate::text::is_whitespace;
use crate::text::unicode_whitespace;
use crate::lang::all_whitespace;
use crate::lang::line_opening_body_of;

verus! {

#[verifier::external_type_specification]
#[verifier::external_body]
pub struct ExParserPool(ParserPool);

#[verifier::external_type_specification]
#[verifier::external_body]
pub struct ExSyntaxTree(SyntaxTree);

#[verifier::external_type_specification]
#[verifier::external_body]
pub struct ExWalkNode<'tree>(WalkNode<'tree>);

/// One node of a parsed file.
#[derive(Debug)]
pub struct ParsedNode {
    /// The grammar's name for the construct, such as `function_definition`.
    pub kind: String,
    /// The field this node fills in its parent (`name`, `body`, …), when the grammar
    /// names one.
    pub field: Option<String>,
    /// First byte.
    pub start: usize,
    /// One past the last byte.
    pub end: usize,
    /// Whether this is a named node rather than an anonymous token such as `async`.
    pub named: bool,
    /// Whether this node or anything under it failed to parse.
    pub has_error: bool,
    /// Every direct child, named and anonymous, in source order.
    pub children: Vec<ParsedNode>,
}

/// What `SyntaxTree::parse` gives for `text` as `language`, copied out as plain values:
/// `None` when the grammar is not compiled in. The parser runs with no timeout and no
/// cancellation, so the tree is a function of the language and the text alone.
pub uninterp spec fn parsed_tree(language: LanguageId, text: Seq<char>) -> Option<ParsedNode>;

/// `SyntaxTree::parse`: `text` parsed as `language` with a parser drawn from `pool`, and
/// the tree copied out node for node. The contract claims only that the answer is
/// [`parsed_tree`] of the language and the text: which tree tree-sitter builds is not
/// stated, nor that the copy's spans nest.
#[verifier::external_body]
fn parse_text(pool: &mut ParserPool, language: LanguageId, text: &str) -> (r: Option<ParsedNode>)
    ensures
        r == parsed_tree(language, text@),
{
    match SyntaxTree::parse(pool, language, text) {
        Ok(tree) => copy_tree(&tree),
        Err(_) => None,
    }
}

/// A node visited by `SyntaxTree::walk`, copied out field for field with its whole
/// subtree through `WalkNode`'s accessors; the conversion behind [`parse_text`].
#[verifier::external_body]
fn copy_node(node: &WalkNode<'_>) -> (r: ParsedNode) {
    ParsedNode {
        kind: node.kind().to_owned(),
        field: node.field_name().map(str::to_owned),
        start: node.span().start.0,
        end: node.span().end.0,
        named: node.is_named(),
        has_error: node.has_error(),
        children: node.children().map(|child| copy_node(&child)).collect(),
    }
}

/// `SyntaxTree::walk` stopped at the first node it visits, which is the root, copied out
/// with everything under it; the conversion behind [`parse_text`].
#[verifier::external_body]
fn copy_tree(tree: &SyntaxTree) -> (r: Option<ParsedNode>) {
    let mut root = None;
    tree.walk(|node| {
        root = Some(copy_node(node));
        WalkControl::Stop
    });
    root
}

/// `text` parsed as `language`, as plain values; `None` when the grammar is missing or
/// no tree could be produced.
pub fn parse_to_nodes(pool: &mut ParserPool, language: LanguageId, text: &str) -> (r: Option<ParsedNode>)
    ensures
        r == parsed_tree(language, text@),
{
    parse_text(pool, language, text)
}

// --- reading spans ------------------------------------------------------------------

/// `s` from byte `start` to byte `end`, as `str::get` slices it: `None` unless both are
/// character boundaries of `s` and `start` comes first.
pub open spec fn text_slice(s: Seq<char>, start: int, end: int) -> Option<Seq<char>> {
    match (char_at_byte(s, start), char_at_byte(s, end)) {
        (Some(a), Some(b)) => if a <= b {
            Some(s.subrange(a, b))
        } else {
            None
        },
        _ => None,
    }
}

/// The first character position at or after `k` whose byte offset is at least `pos`,
/// or the end of `s`.
pub open spec fn first_at_or_after(s: Seq<char>, pos: int, k: int) -> int
    decreases s.len() - k,
{
    if k >= s.len() || byte_at(s, k) >= pos {
        k
    } else {
        first_at_or_after(s, pos, k + 1)
    }
}

/// How many times `c` occurs in `s`.
pub open spec fn count_of(s: Seq<char>, c: char) -> nat
    decreases s.len(),
{
    if s.len() == 0 {
        0
    } else {
        count_of(s.drop_last(), c) + if s.last() == c { 1nat } else { 0nat }
    }
}

/// `n`, held at `u32::MAX`.
pub open spec fn clamp32(n: int) -> u32 {
    if n > u32::MAX {
        u32::MAX
    } else {
        n as u32
    }
}

/// The zero-based line of byte `pos` and its column counted in characters, as
/// `karet_core::LineIndex::line_col` gives them: the line is the number of line feeds
/// before `pos`; the column is the characters from the line's start to `pos`, or `0`
/// when `pos` is not a character boundary of `s`.
pub open spec fn line_col_of(s: Seq<char>, pos: int) -> LineCol {
    let before = s.take(first_at_or_after(s, pos, 0));
    let line_start = last_of(before, '\n') + 1;
    let col = match char_at_byte(s, pos) {
        Some(i) => i - line_start,
        None => 0,
    };
    LineCol { line: clamp32(count_of(before, '\n') as int), col: clamp32(col) }
}

/// A source text held for reading spans.
pub struct Source {
    chars: Vec<char>,
    bytes: Vec<usize>,
}

impl Source {
    /// The text.
    pub closed spec fn text(&self) -> Seq<char> {
        self.chars@
    }

    /// Whether the byte table matches the text.
    pub closed spec fn wf(&self) -> bool {
        &&& self.bytes@.len() == self.chars@.len() + 1
        &&& forall|j: int| 0 <= j <= self.chars@.len() ==> #[trigger] self.bytes@[j] as int == byte_at(self.chars@, j)
    }

    /// `text`, ready for reading spans. Its length in characters must leave room for its
    /// byte offsets in a `usize`.
    pub fn new(text: &str) -> (r: Self)
        requires
            text@.len() < usize::MAX / 4,
        ensures
            r.wf(),
            r.text() == text@,
    {
        let chars = chars_of(text);
        let bytes = byte_offsets(&chars);
        Source { chars, bytes }
    }

    /// The text's characters.
    pub fn chars(&self) -> (r: &Vec<char>)
        ensures
            r@ == self.text(),
    {
        &self.chars
    }

    /// The byte offset of every character position, the end included.
    pub fn offsets(&self) -> (r: &Vec<usize>)
        requires
            self.wf(),
        ensures
            r@.len() == self.text().len() + 1,
            forall|j: int| 0 <= j <= self.text().len() ==> #[trigger] r@[j] as int == byte_at(self.text(), j),
    {
        &self.bytes
    }

    /// The text from byte `start` to byte `end`, when both are character boundaries.
    pub fn slice(&self, start: usize, end: usize) -> (r: Option<String>)
        requires
            self.wf(),
        ensures
            match r {
                Some(t) => text_slice(self.text(), start as int, end as int) == Some(t@),
                None => text_slice(self.text(), start as int, end as int) is None,
            },
    {
        let a = match position_at_byte(&self.chars, &self.bytes, start) {
            Some(a) => a,
            None => return None,
        };
        let b = match position_at_byte(&self.chars, &self.bytes, end) {
            Some(b) => b,
            None => return None,
        };
        if a > b {
            return None;
        }
        Some(string_of_range(self.chars.as_slice(), a, b))
    }

    /// The line and character column of byte `pos`.
    pub fn line_col(&self, pos: usize) -> (r: LineCol)
        requires
            self.wf(),
        ensures
            r == line_col_of(self.text(), pos as int),
    {
        let ghost s = self.chars@;
        let mut k: usize = 0;
        while k < self.chars.len() && self.bytes[k] < pos
            invariant
                k <= s.len(),
                self.wf(),
                s == self.chars@,
                first_at_or_after(s, pos as int, 0) == first_at_or_after(s, pos as int, k as int),
            decreases self.chars.len() - k,
        {
            k = k + 1;
        }
        assert(first_at_or_after(s, pos as int, k as int) == k);
        let mut line: usize = 0;
        let mut last: Option<usize> = None;
        let mut i: usize = 0;
        while i < k
            invariant
                i <= k <= s.len(),
                s == self.chars@,
                line as int == count_of(s.take(i as int), '\n'),
                line <= i,
                match last {
                    Some(j) => j < i && last_of(s.take(i as int), '\n') == j,
                    None => last_of(s.take(i as int), '\n') == -1,
                },
            decreases k - i,
        {
            assert(s.take(i + 1).drop_last() =~= s.take(i as int));
            assert(s.take(i + 1).last() == s[i as int]);
            if self.chars[i] == '\n' {
                line = line + 1;
                last = Some(i);
            }
            i = i + 1;
        }
        let line_start: usize = match last {
            Some(j) => j + 1,
            None => 0,
        };
        let col: usize = match position_at_byte(&self.chars, &self.bytes, pos) {
            Some(at) => {
                proof {
                    lemma_first_at_boundary(s, pos as int, at as int, 0);
                }
                at - line_start
            },
            None => 0,
        };
        let l32: u32 = if line > 4294967295 { 4294967295 } else { line as u32 };
        let c32: u32 = if col > 4294967295 { 4294967295 } else { col as u32 };
        LineCol { line: l32, col: c32 }
    }

    /// The end of the line above byte `body`, when `body` opens a line of its own; see
    /// [`crate::lang::line_opening_body`].
    pub fn opening_line_end(&self, start: usize, body: usize) -> (r: Option<usize>)
        requires
            self.wf(),
        ensures
            match r {
                Some(n) => line_opening_body_of(self.text(), start as int, body as int) == Some(n as int),
                None => line_opening_body_of(self.text(), start as int, body as int) is None,
            },
    {
        let chars = &self.chars;
        let bytes = &self.bytes;
        let a = match position_at_byte(chars, bytes, start) {
            Some(a) => a,
            None => return None,
        };
        let b = match position_at_byte(chars, bytes, body) {
            Some(b) => b,
            None => return None,
        };
        if a > b {
            return None;
        }
        let ghost seg = chars@.subrange(a as int, b as int);
        let mut i: usize = b;
        assert(seg.take((i - a) as int) =~= seg);
        let mut newline: Option<usize> = None;
        loop
            invariant_except_break
                newline is None,
            invariant
                a <= i <= b <= chars@.len(),
                seg == chars@.subrange(a as int, b as int),
                last_of(seg, '\n') == last_of(seg.take(i - a), '\n'),
            ensures
                match newline {
                    Some(n) => a <= n < b && last_of(seg, '\n') == n - a,
                    None => last_of(seg, '\n') < 0,
                },
            decreases i,
        {
            if i == a {
                assert(seg.take(0) =~= Seq::<char>::empty());
                break;
            }
            let ghost t = seg.take(i - a);
            assert(t.last() == chars@[i - 1]);
            assert(t.drop_last() =~= seg.take(i - 1 - a));
            if chars[i - 1] == '\n' {
                newline = Some(i - 1);
                break;
            }
            i = i - 1;
        }
        let n = match newline {
            Some(n) => n,
            None => return None,
        };
        let mut j: usize = n + 1;
        while j < b
            invariant
                n < j <= b <= chars@.len(),
                a <= n,
                seg == chars@.subrange(a as int, b as int),
                last_of(seg, '\n') == n - a,
                chars@ == self.text(),
                char_at_byte(self.text(), start as int) == Some(a as int),
                char_at_byte(self.text(), body as int) == Some(b as int),
                forall|x: int| n + 1 <= x < j ==> unicode_whitespace(#[trigger] chars@[x]),
            decreases b - j,
        {
            if !is_whitespace(chars[j]) {
                assert(chars@.subrange(n + 1, b as int)[j - n - 1] == chars@[j as int]);
                assert(!all_whitespace(chars@.subrange(n + 1, b as int)));
                assert(a + last_of(seg, '\n') + 1 == n + 1);
                return None;
            }
            j = j + 1;
        }
        assert forall|x: int| 0 <= x < chars@.subrange(n + 1, b as int).len()
            implies unicode_whitespace(#[trigger] chars@.subrange(n + 1, b as int)[x]) by {
            assert(chars@.subrange(n + 1, b as int)[x] == chars@[n + 1 + x]);
        }
        if bytes[n] > start {
            Some(bytes[n])
        } else {
            None
        }
    }

    /// The line/column range from byte `start` to byte `end`.
    pub fn range(&self, start: usize, end: usize) -> (r: Range)
        requires
            self.wf(),
        ensures
            r.start == line_col_of(self.text(), start as int),
            r.end == line_col_of(self.text(), end as int),
    {
        Range { start: self.line_col(start), end: self.line_col(end) }
    }
}

/// From `k` on, the first position not before a boundary at character `i` is `i`.
proof fn lemma_first_at_boundary(s: Seq<char>, pos: int, i: int, k: int)
    requires
        0 <= k <= i <= s.len(),
        byte_at(s, i) == pos,
    ensures
        first_at_or_after(s, pos, k) == i,
    decreases i - k,
{
    if k < i {
        crate::text::lemma_byte_at_strict(s, k, i);
        lemma_first_at_boundary(s, pos, i, k + 1);
    }
}

// --- reading nodes ------------------------------------------------------------------

/// The first of `children` of `kind`.
pub open spec fn first_of_kind(children: Seq<ParsedNode>, kind: Seq<char>) -> Option<ParsedNode>
    decreases children.len(),
{
    if children.len() == 0 {
        None
    } else if children[0].kind@ == kind {
        Some(children[0])
    } else {
        first_of_kind(children.drop_first(), kind)
    }
}

/// The first direct child of `node` of `kind`.
pub fn child_of_kind<'a>(node: &'a ParsedNode, kind: &str) -> (r: Option<&'a ParsedNode>)
    ensures
        match r {
            Some(c) => first_of_kind(node.children@, kind@) == Some(*c),
            None => first_of_kind(node.children@, kind@) is None,
        },
{
    let mut i: usize = 0;
    assert(node.children@.skip(0) =~= node.children@);
    while i < node.children.len()
        invariant
            i <= node.children@.len(),
            first_of_kind(node.children@, kind@) == first_of_kind(node.children@.skip(i as int), kind@),
        decreases node.children.len() - i,
    {
        assert(node.children@.skip(i as int)[0] == node.children@[i as int]);
        assert(node.children@.skip(i as int).drop_first() =~= node.children@.skip(i + 1));
        if str_eq(node.children[i].kind.as_str(), kind) {
            return Some(&node.children[i]);
        }
        i = i + 1;
    }
    None
}

/// The text `node` spans.
pub open spec fn node_text_of(node: ParsedNode, s: Seq<char>) -> Option<Seq<char>> {
    text_slice(s, node.start as int, node.end as int)
}

/// The text `node` spans, when its bytes fall on character boundaries.
pub fn node_text(node: &ParsedNode, src: &Source) -> (r: Option<String>)
    requires
        src.wf(),
    ensures
        match r {
            Some(t) => node_text_of(*node, src.text()) == Some(t@),
            None => node_text_of(*node, src.text()) is None,
        },
{
    src.slice(node.start, node.end)
}

/// The first of `children` filling `field`.
pub open spec fn field_child(children: Seq<ParsedNode>, field: Seq<char>) -> Option<ParsedNode>
    decreases children.len(),
{
    if children.len() == 0 {
        None
    } else if children[0].field matches Some(f) && f@ == field {
        Some(children[0])
    } else {
        field_child(children.drop_first(), field)
    }
}

/// The text of the first child of `node` filling `field`.
pub open spec fn child_text_of(node: ParsedNode, field: Seq<char>, s: Seq<char>) -> Option<Seq<char>> {
    match field_child(node.children@, field) {
        Some(c) => text_slice(s, c.start as int, c.end as int),
        None => None,
    }
}

/// Whether some direct child of `node` is of `kind`.
pub open spec fn has_kind(node: ParsedNode, kind: Seq<char>) -> bool {
    exists|i: int| 0 <= i < node.children@.len() && (#[trigger] node.children@[i]).kind@ == kind
}

/// The first child of `node` filling `field`.
pub fn child_by_field<'a>(node: &'a ParsedNode, field: &str) -> (r: Option<&'a ParsedNode>)
    ensures
        match r {
            Some(c) => field_child(node.children@, field@) == Some(*c),
            None => field_child(node.children@, field@) is None,
        },
{
    let mut i: usize = 0;
    assert(node.children@.skip(0) =~= node.children@);
    while i < node.children.len()
        invariant
            i <= node.children@.len(),
            field_child(node.children@, field@) == field_child(node.children@.skip(i as int), field@),
        decreases node.children.len() - i,
    {
        let c = &node.children[i];
        assert(node.children@.skip(i as int)[0] == node.children@[i as int]);
        assert(node.children@.skip(i as int).drop_first() =~= node.children@.skip(i + 1));
        match &c.field {
            Some(f) => {
                if str_eq(f.as_str(), field) {
                    return Some(c);
                }
            },
            None => {},
        }
        i = i + 1;
    }
    None
}

/// The text of the first child of `node` filling `field`.
pub fn child_text(node: &ParsedNode, field: &str, src: &Source) -> (r: Option<String>)
    requires
        src.wf(),
    ensures
        match r {
            Some(t) => child_text_of(*node, field@, src.text()) == Some(t@),
            None => child_text_of(*node, field@, src.text()) is None,
        },
{
    match child_by_field(node, field) {
        Some(c) => src.slice(c.start, c.end),
        None => None,
    }
}

/// Whether some direct child of `node` is of `kind`.
pub fn has_child_kind(node: &ParsedNode, kind: &str) -> (r: bool)
    ensures
        r == has_kind(*node, kind@),
{
    let mut i: usize = 0;
    while i < node.children.len()
        invariant
            i <= node.children@.len(),
            forall|j: int| 0 <= j < i ==> (#[trigger] node.children@[j]).kind@ != kind@,
        decreases node.children.len() - i,
    {
        if str_eq(node.children[i].kind.as_str(), kind) {
            return true;
        }
        i = i + 1;
    }
    false
}

} // verus!
