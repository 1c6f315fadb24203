//! Character classes and the scanning primitives that the command parser is
//! built from, each stated over `Seq<char>`.

use vstd::prelude::*;

verus! {

broadcast use vstd::string::group_string_axioms;

/// The classes of characters that the parser looks for.
#[derive(Clone, Copy)]
pub enum CharClass {
    /// Characters with the Unicode `White_Space` property.
    Space,
    /// Every character that is not in `Space`.
    NonSpace,
    /// Carriage return and line feed.
    LineBreak,
    /// Line feed.
    LineFeed,
}

/// The Unicode `White_Space` property: U+0009..U+000D, U+0020, U+0085,
/// U+00A0, U+1680, U+2000..U+200A, U+2028, U+2029, U+202F, U+205F, U+3000.
pub open spec fn is_white_space(c: char) -> bool {
    let n = c as u32;
    ||| 0x9 <= n <= 0xd
    ||| n == 0x20
    ||| n == 0x85
    ||| n == 0xa0
    ||| n == 0x1680
    ||| 0x2000 <= n <= 0x200a
    ||| n == 0x2028
    ||| n == 0x2029
    ||| n == 0x202f
    ||| n == 0x205f
    ||| n == 0x3000
}

/// An ASCII letter, an ASCII digit or `_`.
pub open spec fn is_word_char(c: char) -> bool {
    let n = c as u32;
    ||| 0x30 <= n <= 0x39
    ||| 0x41 <= n <= 0x5a
    ||| 0x61 <= n <= 0x7a
    ||| n == 0x5f
}

/// Law: letters, digits and `_` are not white space, so a word made of
/// them is never split.
pub proof fn law_word_chars_are_not_white_space(c: char)
    requires
        is_word_char(c),
    ensures
        !is_white_space(c),
{
}

/// Law: space, tab, line feed, carriage return, the no-break space and the
/// ideographic space are white space.
pub proof fn law_common_white_space()
    ensures
        is_white_space(' '),
        is_white_space('\t'),
        is_white_space('\n'),
        is_white_space('\r'),
        is_white_space('\u{a0}'),
        is_white_space('\u{3000}'),
{
}

pub open spec fn in_class(c: char, class: CharClass) -> bool {
    match class {
        CharClass::Space => is_white_space(c),
        CharClass::NonSpace => !is_white_space(c),
        CharClass::LineBreak => c == '\r' || c == '\n',
        CharClass::LineFeed => c == '\n',
    }
}

/// Index of the first character of `s` in `class`, or `s.len()` when there is none.
pub open spec fn first_in(s: Seq<char>, class: CharClass) -> nat
    decreases s.len(),
{
    if s.len() == 0 {
        0
    } else if in_class(s[0], class) {
        0
    } else {
        1 + first_in(s.drop_first(), class)
    }
}

/// Length of what is left of `s` once every trailing character in `class` is removed.
pub open spec fn strip_end(s: Seq<char>, class: CharClass) -> nat
    decreases s.len(),
{
    if s.len() == 0 {
        0
    } else if in_class(s.last(), class) {
        strip_end(s.drop_last(), class)
    } else {
        s.len()
    }
}

/// `s` without leading white space (`str::trim_start`).
pub open spec fn trim_start(s: Seq<char>) -> Seq<char> {
    s.skip(first_in(s, CharClass::NonSpace) as int)
}

/// `s` without trailing white space (`str::trim_end`).
pub open spec fn trim_end(s: Seq<char>) -> Seq<char> {
    s.take(strip_end(s, CharClass::Space) as int)
}

/// `s` without leading and trailing white space (`str::trim`).
pub open spec fn trim(s: Seq<char>) -> Seq<char> {
    trim_end(trim_start(s))
}

/// `s` without its trailing carriage returns and line feeds.
pub open spec fn strip_line_ending(s: Seq<char>) -> Seq<char> {
    s.take(strip_end(s, CharClass::LineBreak) as int)
}

/// Whether some character of `s` is white space.
pub open spec fn has_white_space(s: Seq<char>) -> bool {
    exists|i: int| 0 <= i < s.len() && is_white_space(#[trigger] s[i])
}

pub proof fn lemma_first_in_props(s: Seq<char>, class: CharClass)
    ensures
        first_in(s, class) <= s.len(),
        forall|j: int| 0 <= j < first_in(s, class) ==> !in_class(#[trigger] s[j], class),
        first_in(s, class) < s.len() ==> in_class(s[first_in(s, class) as int], class),
    decreases s.len(),
{
    if s.len() > 0 && !in_class(s[0], class) {
        lemma_first_in_props(s.drop_first(), class);
        assert forall|j: int| 0 <= j < first_in(s, class) implies !in_class(#[trigger] s[j], class) by {
            if j > 0 {
                assert(s[j] == s.drop_first()[j - 1]);
            }
        }
    }
}

pub proof fn lemma_first_in_is(s: Seq<char>, class: CharClass, i: int)
    requires
        0 <= i <= s.len(),
        forall|j: int| 0 <= j < i ==> !in_class(#[trigger] s[j], class),
        i == s.len() || in_class(s[i], class),
    ensures
        first_in(s, class) == i,
    decreases i,
{
    if i > 0 {
        assert(!in_class(s[0], class));
        let t = s.drop_first();
        assert forall|j: int| 0 <= j < i - 1 implies !in_class(#[trigger] t[j], class) by {
            assert(t[j] == s[j + 1]);
        }
        if i < s.len() {
            assert(t[i - 1] == s[i]);
        }
        lemma_first_in_is(t, class, i - 1);
    }
}

pub proof fn lemma_strip_end_props(s: Seq<char>, class: CharClass)
    ensures
        strip_end(s, class) <= s.len(),
        forall|j: int| strip_end(s, class) <= j < s.len() ==> in_class(#[trigger] s[j], class),
        strip_end(s, class) > 0 ==> !in_class(s[strip_end(s, class) - 1], class),
    decreases s.len(),
{
    if s.len() > 0 && in_class(s.last(), class) {
        let t = s.drop_last();
        lemma_strip_end_props(t, class);
        assert forall|j: int| strip_end(s, class) <= j < s.len() implies in_class(#[trigger] s[j], class) by {
            if j < s.len() - 1 {
                assert(s[j] == t[j]);
            }
        }
        if strip_end(s, class) > 0 {
            assert(s[strip_end(s, class) - 1] == t[strip_end(t, class) - 1]);
        }
    }
}

pub proof fn lemma_strip_end_is(s: Seq<char>, class: CharClass, k: int)
    requires
        0 <= k <= s.len(),
        forall|j: int| k <= j < s.len() ==> in_class(#[trigger] s[j], class),
        k == 0 || !in_class(s[k - 1], class),
    ensures
        strip_end(s, class) == k,
    decreases s.len() - k,
{
    if k < s.len() {
        assert(in_class(s[s.len() - 1], class));
        let t = s.drop_last();
        assert forall|j: int| k <= j < t.len() implies in_class(#[trigger] t[j], class) by {
            assert(t[j] == s[j]);
        }
        if k > 0 {
            assert(t[k - 1] == s[k - 1]);
        }
        lemma_strip_end_is(t, class, k);
    }
}

/// Whether `c` has the Unicode `White_Space` property (as `char::is_whitespace`).
pub fn is_whitespace(c: char) -> (b: bool)
    ensures
        b == is_white_space(c),
{
    let n = c as u32;
    (0x9 <= n && n <= 0xd) || n == 0x20 || n == 0x85 || n == 0xa0 || n == 0x1680 || (0x2000 <= n
        && n <= 0x200a) || n == 0x2028 || n == 0x2029 || n == 0x202f || n == 0x205f || n == 0x3000
}

pub fn char_in_class(c: char, class: CharClass) -> (b: bool)
    ensures
        b == in_class(c, class),
{
    match class {
        CharClass::Space => is_whitespace(c),
        CharClass::NonSpace => !is_whitespace(c),
        CharClass::LineBreak => c == '\r' || c == '\n',
        CharClass::LineFeed => c == '\n',
    }
}

/// Whether `s` is the text `literal`.
pub fn text_is(s: &str, literal: &str) -> (b: bool)
    ensures
        b == (s@ == literal@),
{
    String::from_str(s) == String::from_str(literal)
}

/// Copies the characters of `s` into a vector, in order.
pub fn chars_of(s: &str) -> (v: Vec<char>)
    ensures
        v@ == s@,
{
    let mut v: Vec<char> = Vec::new();
    for c in it: s.chars()
        invariant
            v@ == it.history(),
    {
        v.push(c);
    }
    assert(v@ =~= s@);
    v
}

/// Index of the first character in `class` within `v[lo..hi]`, or `hi`.
pub fn find_in(v: &Vec<char>, lo: usize, hi: usize, class: CharClass) -> (r: usize)
    requires
        lo <= hi <= v@.len(),
    ensures
        r == lo + first_in(v@.subrange(lo as int, hi as int), class),
        lo <= r <= hi,
{
    let ghost s = v@.subrange(lo as int, hi as int);
    let mut i = lo;
    while i < hi
        invariant
            lo <= i <= hi <= v@.len(),
            s == v@.subrange(lo as int, hi as int),
            forall|j: int| 0 <= j < i - lo ==> !in_class(#[trigger] s[j], class),
        decreases hi - i,
    {
        if char_in_class(v[i], class) {
            proof {
                assert(s[i - lo] == v@[i as int]);
                lemma_first_in_is(s, class, i - lo);
            }
            return i;
        }
        assert(s[i - lo] == v@[i as int]);
        i = i + 1;
    }
    proof {
        lemma_first_in_is(s, class, i - lo);
    }
    i
}

/// End of `v[lo..hi]` once its trailing characters in `class` are removed.
pub fn strip_end_in(v: &Vec<char>, lo: usize, hi: usize, class: CharClass) -> (r: usize)
    requires
        lo <= hi <= v@.len(),
    ensures
        r == lo + strip_end(v@.subrange(lo as int, hi as int), class),
        lo <= r <= hi,
{
    let ghost s = v@.subrange(lo as int, hi as int);
    let mut k = hi;
    while k > lo
        invariant
            lo <= k <= hi <= v@.len(),
            s == v@.subrange(lo as int, hi as int),
            forall|j: int| k - lo <= j < s.len() ==> in_class(#[trigger] s[j], class),
        decreases k - lo,
    {
        if !char_in_class(v[k - 1], class) {
            proof {
                assert(s[k - 1 - lo] == v@[k - 1]);
                lemma_strip_end_is(s, class, k - lo);
            }
            return k;
        }
        assert(s[k - 1 - lo] == v@[k - 1]);
        k = k - 1;
    }
    proof {
        lemma_strip_end_is(s, class, 0);
    }
    k
}

/// Whether `v[lo..hi]` holds exactly the characters of `text`.
pub fn range_equals(v: &Vec<char>, lo: usize, hi: usize, text: &str) -> (b: bool)
    requires
        lo <= hi <= v@.len(),
    ensures
        b == (v@.subrange(lo as int, hi as int) == text@),
{
    let t = chars_of(text);
    if hi - lo != t.len() {
        return false;
    }
    let mut i: usize = 0;
    while i < t.len()
        invariant
            lo <= hi <= v@.len(),
            hi - lo == t@.len(),
            t@ == text@,
            0 <= i <= t@.len(),
            forall|j: int| 0 <= j < i ==> v@[lo + j] == #[trigger] t@[j],
        decreases t@.len() - i,
    {
        if v[lo + i] != t[i] {
            assert(v@.subrange(lo as int, hi as int)[i as int] != t@[i as int]);
            return false;
        }
        i = i + 1;
    }
    assert(v@.subrange(lo as int, hi as int) =~= t@);
    true
}

} // verus!
