//! Character-level helpers: the Unicode properties that std computes from its
//! tables, and UTF-8 byte lengths of character sequences.

use vstd::prelude::*;
use vstd::utf8::*;

verus! {

/// The Unicode `White_Space` property of a character, as `char::is_whitespace` reports it.
pub uninterp spec fn is_white_space(c: char) -> bool;

/// The Unicode `Alphabetic` property of a character, as `char::is_alphabetic` reports it.
pub uninterp spec fn is_alphabetic(c: char) -> bool;

/// The full Unicode lowercase mapping of a string, as `str::to_lowercase` computes it.
pub uninterp spec fn lowercase(s: Seq<char>) -> Seq<char>;

/// An ASCII letter `A`-`Z` lowercased; any other character kept.
pub open spec fn ascii_lowercase(c: char) -> char {
    if 'A' <= c && c <= 'Z' {
        ((c as u32) + 32) as char
    } else {
        c
    }
}

/// Calls `char::is_whitespace`.
///
/// The result is the `White_Space` property of `c`, named `is_white_space`.
/// For ASCII characters the property holds exactly of the space and of the
/// control characters from tab to carriage return (U+0009..=U+000D), as the
/// Unicode character database lists them; for other characters the table is
/// left unstated.
#[verifier::external_body]
pub(crate) fn char_is_whitespace(c: char) -> (r: bool)
    ensures
        r == is_white_space(c),
        c <= '\x7f' ==> (r <==> (c == ' ' || ('\t' <= c && c <= '\r'))),
{
    c.is_whitespace()
}

/// Calls `char::is_alphabetic`.
///
/// The result is the `Alphabetic` property of `c`, named `is_alphabetic`.
/// For ASCII characters the property holds exactly of the letters `A`-`Z`
/// and `a`-`z`; for other characters the table is left unstated.
#[verifier::external_body]
pub(crate) fn char_is_alphabetic(c: char) -> (r: bool)
    ensures
        r == is_alphabetic(c),
        c <= '\x7f' ==> (r <==> (('a' <= c && c <= 'z') || ('A' <= c && c <= 'Z'))),
{
    c.is_alphabetic()
}

/// Calls `str::to_lowercase`.
///
/// The result is the lowercase mapping of the whole of `s`, named `lowercase`.
/// Text made of ASCII characters only is lowercased letter by letter, `A`-`Z`
/// to `a`-`z`, other characters kept; beyond ASCII the mapping (Unicode
/// tables, the context rule for a final sigma) is left unstated.
#[verifier::external_body]
pub(crate) fn str_to_lowercase(s: &str) -> (r: String)
    ensures
        r@ == lowercase(s@),
        (forall|i: int| 0 <= i < s@.len() ==> s@[i] <= '\x7f') ==> r@ == s@.map_values(
            |c: char| ascii_lowercase(c),
        ),
{
    s.to_lowercase()
}

/// The characters of `s`, in order.
pub fn chars_of(s: &str) -> (v: Vec<char>)
    ensures
        v@ == s@,
{
    let mut v: Vec<char> = Vec::new();
    for c in it: s.chars()
        invariant
            v@ == it.seq().take(it.index() as int),
            it.seq() == s@,
    {
        v.push(c);
    }
    v
}

/// Whether the characters of `w` are exactly those of the literal `lit`.
pub fn word_is(w: &Vec<char>, lit: &str) -> (r: bool)
    ensures
        r == (w@ == lit@),
{
    let n = lit.unicode_len();
    if w.len() != n {
        return false;
    }
    let mut i: usize = 0;
    while i < n
        invariant
            i <= n,
            n == lit@.len(),
            w@.len() == n,
            forall|j: int| 0 <= j < i ==> w@[j] == lit@[j],
        decreases n - i,
    {
        if w[i] != lit.get_char(i) {
            return false;
        }
        i = i + 1;
    }
    assert(w@ =~= lit@);
    true
}

/// Number of bytes in the UTF-8 encoding of a character sequence: the
/// byte length of a `str` holding it.
pub open spec fn utf8_len(s: Seq<char>) -> nat {
    encode_utf8(s).len()
}

/// Number of bytes in the UTF-8 encoding of one character.
pub open spec fn utf8_width(c: char) -> nat {
    if (c as u32) < 0x80 {
        1
    } else if (c as u32) < 0x800 {
        2
    } else if (c as u32) < 0x10000 {
        3
    } else {
        4
    }
}

/// Appending a character adds its width to the UTF-8 length.
pub proof fn lemma_utf8_len_push(s: Seq<char>, c: char)
    ensures
        utf8_len(s.push(c)) == utf8_len(s) + utf8_width(c),
    decreases s.len(),
{
    broadcast use char_is_scalar;
    if s.len() == 0 {
        assert(s.push(c).drop_first() =~= Seq::<char>::empty());
        assert(encode_utf8(Seq::<char>::empty()) =~= Seq::<u8>::empty());
    } else {
        assert(s.push(c).drop_first() =~= s.drop_first().push(c));
        lemma_utf8_len_push(s.drop_first(), c);
    }
    assert(is_scalar(c as u32));
}

/// The UTF-8 length of `s[a..c]` is at least that of `s[a..b]` for `b <= c`.
pub proof fn lemma_utf8_len_monotone(s: Seq<char>, a: int, b: int, c: int)
    requires
        0 <= a <= b <= c <= s.len(),
    ensures
        utf8_len(s.subrange(a, b)) <= utf8_len(s.subrange(a, c)),
    decreases c - b,
{
    if b < c {
        lemma_utf8_len_monotone(s, a, b, c - 1);
        assert(s.subrange(a, c) =~= s.subrange(a, c - 1).push(s[c - 1]));
        lemma_utf8_len_push(s.subrange(a, c - 1), s[c - 1]);
    }
}

/// Number of bytes in the UTF-8 encoding of `c` (as `char::len_utf8`).
pub fn utf8_width_of(c: char) -> (w: usize)
    ensures
        w == utf8_width(c),
        1 <= w <= 4,
{
    let u = c as u32;
    if u < 0x80 {
        1
    } else if u < 0x800 {
        2
    } else if u < 0x10000 {
        3
    } else {
        4
    }
}

/// Whether `chars[from..to]` takes more than `limit` bytes in UTF-8.
/// Reads at most `limit + 1` characters.
pub fn utf8_len_exceeds(chars: &Vec<char>, from: usize, to: usize, limit: usize) -> (r: bool)
    requires
        from <= to <= chars@.len(),
    ensures
        r == (utf8_len(chars@.subrange(from as int, to as int)) > limit),
{
    let mut sum: usize = 0;
    let mut k: usize = from;
    assert(chars@.subrange(from as int, from as int) =~= Seq::<char>::empty());
    assert(encode_utf8(Seq::<char>::empty()) =~= Seq::<u8>::empty());
    while k < to
        invariant
            from <= k <= to <= chars@.len(),
            sum <= limit,
            sum == utf8_len(chars@.subrange(from as int, k as int)),
        decreases to - k,
    {
        let w = utf8_width_of(chars[k]);
        proof {
            assert(chars@.subrange(from as int, k + 1) =~= chars@.subrange(
                from as int,
                k as int,
            ).push(chars@[k as int]));
            lemma_utf8_len_push(chars@.subrange(from as int, k as int), chars@[k as int]);
        }
        if w > limit - sum {
            proof {
                lemma_utf8_len_monotone(chars@, from as int, k + 1, to as int);
            }
            return true;
        }
        sum = sum + w;
        k = k + 1;
    }
    false
}

} // verus!
