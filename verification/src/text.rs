//! Character-level helpers shared by every parser in the crate.
//!
//! Parsing here works on the character sequence a string views as, so every contract
//! can speak of `s@`. White space is a short fixed list and is stated in full; the
//! classes whose definition is a large Unicode table are named rather than restated.

use vstd::prelude::*;

verus! {

/// Whether `c` has the Unicode `White_Space` property: the twenty-five code points
/// that `char::is_whitespace` accepts.
#[verifier::opaque]
pub open spec fn unicode_whitespace(c: char) -> bool {
    let n = c as u32;
    ||| 0x9 <= n <= 0xD
    ||| n == 0x20
    ||| n == 0x85
    ||| n == 0xA0
    ||| n == 0x1680
    ||| 0x2000 <= n <= 0x200A
    ||| n == 0x2028
    ||| n == 0x2029
    ||| n == 0x202F
    ||| n == 0x205F
    ||| n == 0x3000
}

/// Whether `c` is alphabetic or numeric, as `char::is_alphanumeric` reports.
pub uninterp spec fn unicode_alphanumeric(c: char) -> bool;

/// Whether `c` is alphabetic, as `char::is_alphabetic` reports.
pub uninterp spec fn unicode_alphabetic(c: char) -> bool;

/// Whether `c` is white space in the Unicode sense, as `char::is_whitespace` decides.
pub fn is_whitespace(c: char) -> (r: bool)
    ensures
        r == unicode_whitespace(c),
{
    proof {
        reveal(unicode_whitespace);
    }
    let n = c as u32;
    (0x9 <= n && n <= 0xD) || n == 0x20 || n == 0x85 || n == 0xA0 || n == 0x1680
        || (0x2000 <= n && n <= 0x200A) || n == 0x2028 || n == 0x2029 || n == 0x202F
        || n == 0x205F || n == 0x3000
}

/// `char::is_alphanumeric`: whether `c` is alphabetic or numeric in Unicode.
#[verifier::external_body]
pub fn is_alphanumeric(c: char) -> (r: bool)
    ensures
        r == unicode_alphanumeric(c),
{
    c.is_alphanumeric()
}

/// `char::is_alphabetic`: the Unicode `Alphabetic` property of `c`.
#[verifier::external_body]
pub fn is_alphabetic(c: char) -> (r: bool)
    ensures
        r == unicode_alphabetic(c),
{
    c.is_alphabetic()
}

/// `String::push`: appends one character.
#[verifier::external_body]
pub fn push_char(s: &mut String, c: char)
    ensures
        final(s)@ == old(s)@.push(c),
{
    s.push(c);
}

/// How many bytes `c` takes in UTF-8.
pub open spec fn utf8_width(c: char) -> int {
    if (c as u32) < 0x80 {
        1
    } else if (c as u32) < 0x800 {
        2
    } else if (c as u32) < 0x10000 {
        3
    } else {
        4
    }
}

/// The byte offset of character position `i` of `s`.
pub open spec fn byte_at(s: Seq<char>, i: int) -> int
    decreases i,
{
    if i <= 0 || i > s.len() {
        0
    } else {
        byte_at(s, i - 1) + utf8_width(s[i - 1])
    }
}

/// How many bytes `c` takes in UTF-8.
pub fn width_of(c: char) -> (r: usize)
    ensures
        r as int == utf8_width(c),
{
    let n = c as u32;
    if n < 0x80 {
        1
    } else if n < 0x800 {
        2
    } else if n < 0x10000 {
        3
    } else {
        4
    }
}

pub proof fn lemma_byte_at_bound(s: Seq<char>, i: int)
    requires
        0 <= i <= s.len(),
    ensures
        i <= byte_at(s, i) <= 4 * i,
    decreases i,
{
    if i > 0 {
        lemma_byte_at_bound(s, i - 1);
    }
}

/// Character positions map to strictly increasing byte offsets.
pub proof fn lemma_byte_at_strict(s: Seq<char>, i: int, j: int)
    requires
        0 <= i < j <= s.len(),
    ensures
        byte_at(s, i) < byte_at(s, j),
    decreases j - i,
{
    if j - 1 > i {
        lemma_byte_at_strict(s, i, j - 1);
    }
}

/// The character position whose byte offset is `b`, when `b` is a character boundary.
pub open spec fn char_at_byte(s: Seq<char>, b: int) -> Option<int> {
    if exists|i: int| 0 <= i <= s.len() && byte_at(s, i) == b {
        Some(choose|i: int| 0 <= i <= s.len() && byte_at(s, i) == b)
    } else {
        None
    }
}

/// The byte offset of every character position of `s`, its end included.
pub fn byte_offsets(s: &Vec<char>) -> (bytes: Vec<usize>)
    requires
        s@.len() < usize::MAX / 4,
    ensures
        bytes@.len() == s@.len() + 1,
        forall|j: int| 0 <= j <= s@.len() ==> #[trigger] bytes@[j] as int == byte_at(s@, j),
{
    let mut bytes: Vec<usize> = Vec::new();
    bytes.push(0);
    let mut i: usize = 0;
    while i < s.len()
        invariant
            i <= s@.len(),
            s@.len() < usize::MAX / 4,
            bytes@.len() == i + 1,
            forall|j: int| 0 <= j <= i ==> #[trigger] bytes@[j] as int == byte_at(s@, j),
        decreases s.len() - i,
    {
        proof {
            lemma_byte_at_bound(s@, i as int);
            lemma_byte_at_bound(s@, i + 1);
        }
        let next = bytes[i] + width_of(s[i]);
        bytes.push(next);
        i = i + 1;
    }
    bytes
}

/// The character position at byte offset `b` of `s`, when `b` is a character boundary.
pub fn position_at_byte(s: &Vec<char>, bytes: &Vec<usize>, b: usize) -> (r: Option<usize>)
    requires
        bytes@.len() == s@.len() + 1,
        forall|j: int| 0 <= j <= s@.len() ==> #[trigger] bytes@[j] as int == byte_at(s@, j),
    ensures
        match r {
            Some(i) => char_at_byte(s@, b as int) == Some(i as int) && i <= s@.len(),
            None => char_at_byte(s@, b as int) is None,
        },
{
    let mut i: usize = 0;
    while i < bytes.len()
        invariant
            i <= bytes@.len(),
            bytes@.len() == s@.len() + 1,
            forall|j: int| 0 <= j <= s@.len() ==> #[trigger] bytes@[j] as int == byte_at(s@, j),
            forall|j: int| 0 <= j < i ==> byte_at(s@, j) != b,
        decreases bytes.len() - i,
    {
        if bytes[i] == b {
            proof {
                assert(byte_at(s@, i as int) == b);
                let c = choose|k: int| 0 <= k <= s@.len() && byte_at(s@, k) == b;
                if c < i {
                    lemma_byte_at_strict(s@, c, i as int);
                } else if c > i {
                    lemma_byte_at_strict(s@, i as int, c);
                }
            }
            return Some(i);
        }
        i = i + 1;
    }
    proof {
        assert forall|j: int| 0 <= j <= s@.len() implies byte_at(s@, j) != b by {
            assert(bytes@[j] as int == byte_at(s@, j));
        }
    }
    None
}

/// ASCII whitespace as `u8::is_ascii_whitespace` defines it: space, tab, line feed,
/// form feed and carriage return.
pub open spec fn ascii_whitespace(c: char) -> bool {
    c == ' ' || c == '\t' || c == '\n' || c == '\x0C' || c == '\r'
}

/// Whether `c` is ASCII whitespace.
pub fn is_ascii_whitespace(c: char) -> (r: bool)
    ensures
        r == ascii_whitespace(c),
{
    c == ' ' || c == '\t' || c == '\n' || c == '\x0C' || c == '\r'
}

/// The characters of `s`, in order.
pub fn chars_of(s: &str) -> (v: Vec<char>)
    ensures
        v@ == s@,
{
    let n = s.unicode_len();
    let mut v: Vec<char> = Vec::new();
    let mut i: usize = 0;
    while i < n
        invariant
            n == s@.len(),
            i <= n,
            v@ == s@.subrange(0, i as int),
        decreases n - i,
    {
        let c = s.get_char(i);
        v.push(c);
        i = i + 1;
        assert(v@ =~= s@.subrange(0, i as int));
    }
    assert(v@ =~= s@);
    v
}

/// A string holding `chars[from..to]`.
pub fn string_of_range(chars: &[char], from: usize, to: usize) -> (s: String)
    requires
        from <= to <= chars@.len(),
    ensures
        s@ == chars@.subrange(from as int, to as int),
{
    let mut s = String::new();
    let mut i = from;
    while i < to
        invariant
            from <= i <= to <= chars@.len(),
            s@ == chars@.subrange(from as int, i as int),
        decreases to - i,
    {
        push_char(&mut s, chars[i]);
        i = i + 1;
        assert(s@ =~= chars@.subrange(from as int, i as int));
    }
    s
}

/// A string holding exactly `chars`.
pub fn string_of(chars: &[char]) -> (s: String)
    ensures
        s@ == chars@,
{
    let s = string_of_range(chars, 0, chars.len());
    assert(chars@.subrange(0, chars@.len() as int) =~= chars@);
    s
}

/// Whether two character sequences are equal.
pub fn chars_eq(a: &[char], b: &[char]) -> (r: bool)
    ensures
        r == (a@ == b@),
{
    if a.len() != b.len() {
        return false;
    }
    let mut i: usize = 0;
    while i < a.len()
        invariant
            a@.len() == b@.len(),
            i <= a@.len(),
            forall|j: int| 0 <= j < i ==> a@[j] == b@[j],
        decreases a.len() - i,
    {
        if a[i] != b[i] {
            return false;
        }
        i = i + 1;
    }
    assert(a@ =~= b@);
    true
}

/// Whether two strings hold the same characters.
pub fn str_eq(a: &str, b: &str) -> (r: bool)
    ensures
        r == (a@ == b@),
{
    let x = chars_of(a);
    let y = chars_of(b);
    chars_eq(x.as_slice(), y.as_slice())
}

/// Whether `s` begins with `prefix`.
pub open spec fn has_prefix(s: Seq<char>, prefix: Seq<char>) -> bool {
    prefix.len() <= s.len() && s.subrange(0, prefix.len() as int) == prefix
}

/// Whether `s` ends with `suffix`.
pub open spec fn has_suffix(s: Seq<char>, suffix: Seq<char>) -> bool {
    suffix.len() <= s.len() && s.subrange(s.len() - suffix.len(), s.len() as int) == suffix
}

/// Whether `chars[at..]` begins with `prefix`.
pub fn starts_at(chars: &[char], at: usize, prefix: &[char]) -> (r: bool)
    requires
        at <= chars@.len(),
    ensures
        r == has_prefix(chars@.subrange(at as int, chars@.len() as int), prefix@),
{
    if prefix.len() > chars.len() - at {
        return false;
    }
    let mut i: usize = 0;
    while i < prefix.len()
        invariant
            at + prefix@.len() <= chars@.len(),
            chars@.len() <= usize::MAX,
            i <= prefix@.len(),
            forall|j: int| 0 <= j < i ==> chars@[at + j] == prefix@[j],
        decreases prefix.len() - i,
    {
        if chars[at + i] != prefix[i] {
            assert(chars@.subrange(at as int, chars@.len() as int).subrange(0, prefix@.len() as int)[i as int]
                == chars@[at + i]);
            return false;
        }
        i = i + 1;
    }
    assert(chars@.subrange(at as int, chars@.len() as int).subrange(0, prefix@.len() as int) =~= prefix@);
    true
}

/// Whether `s` begins with `prefix`.
pub fn str_starts_with(s: &str, prefix: &str) -> (r: bool)
    ensures
        r == has_prefix(s@, prefix@),
{
    let c = chars_of(s);
    let p = chars_of(prefix);
    let r = starts_at(c.as_slice(), 0, p.as_slice());
    assert(c@.subrange(0, c@.len() as int) =~= c@);
    r
}

/// Whether `s` ends with `suffix`.
pub fn str_ends_with(s: &str, suffix: &str) -> (r: bool)
    ensures
        r == has_suffix(s@, suffix@),
{
    let c = chars_of(s);
    let p = chars_of(suffix);
    if p.len() > c.len() {
        return false;
    }
    let at = c.len() - p.len();
    let r = starts_at(c.as_slice(), at, p.as_slice());
    assert(c@.subrange(at as int, c@.len() as int).subrange(0, p@.len() as int)
        =~= c@.subrange(at as int, c@.len() as int));
    r
}

/// Whether `needle` occurs in `s` starting at position `i`.
pub open spec fn occurs_at(s: Seq<char>, needle: Seq<char>, i: int) -> bool {
    0 <= i && i + needle.len() <= s.len() && s.subrange(i, i + needle.len()) == needle
}

/// Whether `needle` occurs anywhere in `s`.
pub open spec fn contains_seq(s: Seq<char>, needle: Seq<char>) -> bool {
    exists|i: int| occurs_at(s, needle, i)
}

/// Whether `needle` occurs in `haystack`.
pub fn chars_contain(haystack: &[char], needle: &[char]) -> (r: bool)
    ensures
        r == contains_seq(haystack@, needle@),
{
    if needle.len() > haystack.len() {
        assert forall|i: int| !occurs_at(haystack@, needle@, i) by {}
        return false;
    }
    let last = haystack.len() - needle.len();
    let mut i: usize = 0;
    while i <= last
        invariant
            last + needle@.len() == haystack@.len(),
            i <= last + 1,
            forall|j: int| 0 <= j < i ==> !occurs_at(haystack@, needle@, j),
        decreases last + 1 - i,
    {
        if starts_at(haystack, i, needle) {
            assert(haystack@.subrange(i as int, haystack@.len() as int).subrange(0, needle@.len() as int)
                =~= haystack@.subrange(i as int, i + needle@.len()));
            assert(occurs_at(haystack@, needle@, i as int));
            return true;
        }
        assert(haystack@.subrange(i as int, haystack@.len() as int).subrange(0, needle@.len() as int)
            =~= haystack@.subrange(i as int, i + needle@.len()));
        if i == last {
            assert forall|j: int| !occurs_at(haystack@, needle@, j) by {
                if 0 <= j <= i {
                }
            }
            return false;
        }
        i = i + 1;
    }
    assert forall|j: int| !occurs_at(haystack@, needle@, j) by {
        if 0 <= j < i {
        }
    }
    false
}

/// Whether `needle` occurs in `s`.
pub fn str_contains(s: &str, needle: &str) -> (r: bool)
    ensures
        r == contains_seq(s@, needle@),
{
    let c = chars_of(s);
    let n = chars_of(needle);
    chars_contain(c.as_slice(), n.as_slice())
}

/// Append `tail` to `s`.
pub fn push_str(s: &mut String, tail: &str)
    ensures
        final(s)@ == old(s)@ + tail@,
{
    let cs = chars_of(tail);
    let mut i: usize = 0;
    while i < cs.len()
        invariant
            i <= cs@.len(),
            cs@ == tail@,
            s@ == old(s)@ + cs@.subrange(0, i as int),
        decreases cs.len() - i,
    {
        push_char(s, cs[i]);
        i = i + 1;
        assert(s@ =~= old(s)@ + cs@.subrange(0, i as int));
    }
    assert(cs@.subrange(0, cs@.len() as int) =~= cs@);
}

} // verus!
