//! Removal of trailing forward markers written in parentheses, such as
//! `hello (fwd)` or `你好世界 (轉寄)`, together with surrounding whitespace.

use vstd::prelude::*;
use vstd::utf8::{encode_scalar, encode_utf8};
use crate::parsers::fields::prefixes::{is_forward_word, is_fwd_prefix};
use crate::text::{
    char_is_whitespace, chars_of, is_white_space, lowercase, str_to_lowercase, utf8_len,
    utf8_len_exceeds,
};

verus! {

/// State of the right-to-left scan of `trim_trailing_fwd`; positions are
/// character indices.
pub struct TrimState {
    /// A `)` has been seen and its `(` not yet.
    pub in_parentheses: bool,
    /// Whitespace seen now still belongs to the trimmed tail.
    pub trim_end: bool,
    /// The end of the kept text has been found: no more markers are removed.
    pub end_found: bool,
    pub text_start: usize,
    pub text_end: usize,
    /// Position of the last `)` that opened a parenthesized group.
    pub fwd_end: usize,
}

/// The scan state before any character of an `n`-character text is read.
pub open spec fn trim_init(n: nat) -> TrimState {
    TrimState {
        in_parentheses: false,
        trim_end: true,
        end_found: false,
        text_start: 0,
        text_end: n as usize,
        fwd_end: 0,
    }
}

/// `s[pos]` is the `(` of a group `(w)` that ends at `s[fwd_end]` and holds
/// a forward marker: more than one byte between the brackets, and a forward
/// word once lowercased.
pub open spec fn is_parenthesized_fwd(s: Seq<char>, pos: int, fwd_end: int) -> bool {
    &&& utf8_len(s.subrange(pos, fwd_end)) > 2
    &&& is_forward_word(lowercase(s.subrange(pos + 1, fwd_end)))
}

/// One step of the right-to-left scan, reading `s[pos]`.
pub open spec fn trim_step(s: Seq<char>, st: TrimState, pos: int) -> TrimState {
    let c = s[pos];
    if c == '(' && !st.end_found {
        if st.in_parentheses && is_parenthesized_fwd(s, pos, st.fwd_end as int) {
            TrimState { in_parentheses: false, trim_end: true, text_end: pos as usize, ..st }
        } else {
            TrimState {
                in_parentheses: false,
                end_found: true,
                trim_end: false,
                text_start: pos as usize,
                ..st
            }
        }
    } else if c == ')' && !st.end_found {
        if !st.in_parentheses {
            TrimState {
                in_parentheses: true,
                fwd_end: pos as usize,
                trim_end: false,
                text_start: pos as usize,
                ..st
            }
        } else {
            TrimState { end_found: true, trim_end: false, text_start: pos as usize, ..st }
        }
    } else if is_white_space(c) {
        if st.trim_end {
            TrimState { text_end: pos as usize, ..st }
        } else {
            st
        }
    } else {
        TrimState {
            end_found: st.end_found || !st.in_parentheses,
            trim_end: false,
            text_start: pos as usize,
            ..st
        }
    }
}

/// The scan state once `s[k..]` has been read, from its end down to `s[k]`.
pub open spec fn trim_scan(s: Seq<char>, k: nat) -> TrimState
    decreases s.len() - k,
{
    if k >= s.len() {
        trim_init(s.len())
    } else {
        trim_step(s, trim_scan(s, k + 1), k as int)
    }
}

/// The part of `s` that `trim_trailing_fwd` keeps: `s[a..b]` for `(a, b)`.
pub open spec fn trim_span(s: Seq<char>) -> (int, int) {
    let st = trim_scan(s, 0);
    if st.text_end >= st.text_start {
        (st.text_start as int, st.text_end as int)
    } else {
        (0, 0)
    }
}

/// What holds of the scan state once `s[k..]` has been read.
pub open spec fn trim_inv(s: Seq<char>, st: TrimState, k: int) -> bool {
    &&& 0 <= k <= s.len()
    &&& st.in_parentheses ==> k <= st.fwd_end < s.len()
    // Whitespace still being trimmed reaches down to `k`.
    &&& st.trim_end ==> st.text_end == k
    // Otherwise the kept text ends on a character that is not whitespace.
    &&& !st.trim_end ==> k < st.text_end <= s.len() && !is_white_space(s[st.text_end - 1])
    // The kept text starts on a character that is not whitespace, unless
    // nothing has been kept yet.
    &&& (k <= st.text_start < s.len() && !is_white_space(s[st.text_start as int]))
        || (st.trim_end && st.text_start == 0)
}

/// Reads `chars[pos]`, the next character leftwards.
fn trim_char(text: &str, chars: &Vec<char>, st: &mut TrimState, pos: usize)
    requires
        chars@ == text@,
        pos < chars@.len(),
        trim_inv(chars@, *old(st), pos + 1),
    ensures
        *final(st) == trim_step(chars@, *old(st), pos as int),
        trim_inv(chars@, *final(st), pos as int),
{
    let ch = chars[pos];
    let is_space = char_is_whitespace(ch);
    if ch == '(' && !st.end_found {
        if st.in_parentheses {
            st.in_parentheses = false;
            let fwd_end = st.fwd_end;
            if utf8_len_exceeds(chars, pos, fwd_end, 2) {
                let inner = str_to_lowercase(text.substring_char(pos + 1, fwd_end));
                let word = chars_of(inner.as_str());
                if is_fwd_prefix(&word) {
                    st.text_end = pos;
                    st.trim_end = true;
                    return;
                }
            }
        }
        st.end_found = true;
    } else if ch == ')' && !st.end_found {
        if !st.in_parentheses {
            st.in_parentheses = true;
            st.fwd_end = pos;
        } else {
            st.end_found = true;
        }
    } else if is_space {
        if st.trim_end {
            st.text_end = pos;
        }
        return;
    } else {
        if !st.in_parentheses && !st.end_found {
            st.end_found = true;
        }
    }
    if st.trim_end {
        st.trim_end = false;
    }
    st.text_start = pos;
}

/// The kept span of `text`, as character indices.
fn trim_fwd_span(text: &str, chars: &Vec<char>) -> (r: (usize, usize))
    requires
        chars@ == text@,
    ensures
        r.0 == trim_span(text@).0,
        r.1 == trim_span(text@).1,
        r.0 <= r.1 <= text@.len(),
        r.0 < r.1 ==> !is_white_space(text@[r.0 as int]) && !is_white_space(text@[r.1 - 1]),
{
    let n = chars.len();
    let mut st = TrimState {
        in_parentheses: false,
        trim_end: true,
        end_found: false,
        text_start: 0,
        text_end: n,
        fwd_end: 0,
    };
    let mut k = n;
    while k > 0
        invariant
            chars@ == text@,
            n == chars@.len(),
            k <= n,
            st == trim_scan(chars@, k as nat),
            trim_inv(chars@, st, k as int),
        decreases k,
    {
        let pos = k - 1;
        trim_char(text, chars, &mut st, pos);
        k = pos;
    }
    if st.text_end >= st.text_start {
        (st.text_start, st.text_end)
    } else {
        (0, 0)
    }
}

/// Removes trailing forward markers in parentheses, such as `(fwd)` or
/// `(wg)`, and the whitespace around the text that is kept.
///
/// Markers are removed from the end only: `"hello (wg) (fwd) (fwd)"` gives
/// `"hello"`, while `"(fwd)hello(fwd)"` gives `"(fwd)hello"`.
pub fn trim_trailing_fwd(text: &str) -> (r: &str)
    ensures
        0 <= trim_span(text@).0 <= trim_span(text@).1 <= text@.len(),
        r@ == text@.subrange(trim_span(text@).0, trim_span(text@).1),
        r@.len() > 0 ==> !is_white_space(r@[0]) && !is_white_space(r@.last()),
{
    let chars = chars_of(text);
    let (start, end) = trim_fwd_span(text, &chars);
    text.substring_char(start, end)
}

/// Reading a text without parentheses from the right: the state says which
/// tail is whitespace and where the kept text starts and ends.
proof fn lemma_trim_scan_no_parentheses(s: Seq<char>, k: nat)
    requires
        k <= s.len() <= usize::MAX,
        forall|i: int| 0 <= i < s.len() ==> s[i] != '(' && s[i] != ')',
    ensures
        !trim_scan(s, k).in_parentheses,
        trim_scan(s, k).trim_end ==> {
            &&& trim_scan(s, k).text_end == k
            &&& trim_scan(s, k).text_start == 0
            &&& forall|j: int| k <= j < s.len() ==> is_white_space(s[j])
        },
        !trim_scan(s, k).trim_end ==> {
            let st = trim_scan(s, k);
            &&& k <= st.text_start < st.text_end <= s.len()
            &&& !is_white_space(s[st.text_start as int])
            &&& !is_white_space(s[st.text_end - 1])
            &&& forall|j: int| k <= j < st.text_start ==> is_white_space(s[j])
            &&& forall|j: int| st.text_end <= j < s.len() ==> is_white_space(s[j])
        },
    decreases s.len() - k,
{
    if k < s.len() {
        lemma_trim_scan_no_parentheses(s, k + 1);
    }
}

/// Without parentheses there is no `(fwd)` marker to remove:
/// `trim_trailing_fwd` keeps the text between the first and the last
/// character that is not whitespace, and nothing if there is none.
pub proof fn lemma_trim_without_parentheses(s: Seq<char>)
    requires
        s.len() <= usize::MAX,
        forall|i: int| 0 <= i < s.len() ==> s[i] != '(' && s[i] != ')',
    ensures
        ({
            let (a, b) = trim_span(s);
            &&& 0 <= a <= b <= s.len()
            &&& forall|i: int| 0 <= i < a ==> is_white_space(s[i])
            &&& forall|i: int| b <= i < s.len() ==> is_white_space(s[i])
            &&& a < b ==> !is_white_space(s[a]) && !is_white_space(s[b - 1])
            &&& a == b ==> a == 0
        }),
{
    lemma_trim_scan_no_parentheses(s, 0);
}

/// What holds of the right-to-left scan state whatever the characters:
/// while trimming, `text_end` is the scan position; otherwise it lies to
/// the right of it, and an open group ends before it.
pub open spec fn trim_shape(s: Seq<char>, st: TrimState, k: int) -> bool {
    &&& 0 <= k <= s.len()
    &&& st.trim_end ==> st.text_end == k && !st.in_parentheses && !st.end_found
    &&& !st.trim_end ==> k <= st.text_start < st.text_end <= s.len()
    &&& st.in_parentheses ==> k <= st.fwd_end < st.text_end
}

proof fn lemma_trim_shape(s: Seq<char>, k: nat)
    requires
        k <= s.len() <= usize::MAX,
    ensures
        trim_shape(s, trim_scan(s, k), k as int),
    decreases s.len() - k,
{
    if k < s.len() {
        lemma_trim_shape(s, k + 1);
    }
}

/// The kept span lies within the text.
pub proof fn lemma_trim_span_bounds(s: Seq<char>)
    requires
        s.len() <= usize::MAX,
    ensures
        0 <= trim_span(s).0 <= trim_span(s).1 <= s.len(),
{
    lemma_trim_shape(s, 0);
}

/// Once the scan has passed position `k`, `text_end` and `text_start` either
/// keep the value they had there or take one left of `k`.
proof fn lemma_trim_bounds_settle(s: Seq<char>, k2: nat, k: nat)
    requires
        k2 <= k <= s.len() <= usize::MAX,
    ensures
        trim_scan(s, k2).text_end == trim_scan(s, k).text_end || trim_scan(s, k2).text_end < k,
        trim_scan(s, k2).text_start == trim_scan(s, k).text_start || trim_scan(s, k2).text_start
            < k,
    decreases k - k2,
{
    if k2 < k {
        lemma_trim_bounds_settle(s, k2 + 1, k);
    }
}

/// The scan of `s[a..b]` and that of `s` from `b` leftwards agree, up to the
/// shift by `a`, on all that decides what is kept.
pub open spec fn trim_sim(rs: TrimState, ss: TrimState, a: int, b: int) -> bool {
    &&& rs.in_parentheses == ss.in_parentheses
    &&& rs.trim_end == ss.trim_end
    &&& rs.end_found == ss.end_found
    &&& rs.text_end == b - a
    &&& ss.in_parentheses ==> rs.fwd_end + a == ss.fwd_end
    &&& if ss.trim_end {
        rs.text_start == 0
    } else {
        rs.text_start + a == ss.text_start
    }
}

/// Where the scan of `s` keeps `text_end == b` from `b` down to `a`, the scan
/// of `s[a..b]` makes the same decisions.
proof fn lemma_trim_sim(s: Seq<char>, a: int, b: int, k: int)
    requires
        0 <= a <= k <= b <= s.len() <= usize::MAX,
        forall|j: int| a <= j <= b ==> #[trigger] trim_scan(s, j as nat).text_end == b,
    ensures
        trim_sim(trim_scan(s.subrange(a, b), (k - a) as nat), trim_scan(s, k as nat), a, b),
    decreases b - k,
{
    let r = s.subrange(a, b);
    lemma_trim_shape(s, k as nat);
    if k < b {
        lemma_trim_sim(s, a, b, k + 1);
        lemma_trim_shape(s, (k + 1) as nat);
        let ss = trim_scan(s, (k + 1) as nat);
        let rs = trim_scan(r, (k + 1 - a) as nat);
        assert(trim_scan(s, (k + 1) as nat).text_end == b);
        assert(trim_scan(s, k as nat).text_end == b);
        assert(r[k - a] == s[k]);
        assert(trim_scan(r, (k - a) as nat) == trim_step(r, rs, k - a));
        if ss.in_parentheses {
            assert(r.subrange(k - a, rs.fwd_end as int) =~= s.subrange(k, ss.fwd_end as int));
            assert(r.subrange(k - a + 1, rs.fwd_end as int) =~= s.subrange(
                k + 1,
                ss.fwd_end as int,
            ));
        }
    }
}

/// Removing trailing `(fwd)` markers a second time changes nothing: what
/// `trim_trailing_fwd` keeps, it keeps whole.
pub proof fn lemma_trim_idempotent(s: Seq<char>)
    requires
        s.len() <= usize::MAX,
    ensures
        ({
            let (a, b) = trim_span(s);
            trim_span(s.subrange(a, b)) == (0int, b - a)
        }),
{
    lemma_trim_shape(s, 0);
    let st = trim_scan(s, 0);
    let (a, b) = trim_span(s);
    let r = s.subrange(a, b);
    if a < b {
        assert forall|j: int| a <= j <= b implies #[trigger] trim_scan(s, j as nat).text_end
            == b by {
            lemma_trim_bounds_settle(s, 0, j as nat);
            lemma_trim_bounds_settle(s, 0, b as nat);
        }
        lemma_trim_bounds_settle(s, 0, a as nat);
        lemma_trim_sim(s, a, b, a);
        lemma_trim_shape(s, a as nat);
    } else {
        assert(r.len() == 0);
    }
}

/// Whitespace other than brackets, read from the right, only moves the end
/// of the trimmed tail.
proof fn lemma_trim_scan_spaces(s: Seq<char>, k: nat, j: nat)
    requires
        k <= j <= s.len() <= usize::MAX,
        forall|i: int| k <= i < j ==> is_white_space(s[i]) && s[i] != '(' && s[i] != ')',
    ensures
        trim_scan(s, k) == (if trim_scan(s, j).trim_end {
            TrimState { text_end: k as usize, ..trim_scan(s, j) }
        } else {
            trim_scan(s, j)
        }),
    decreases j - k,
{
    if k < j {
        lemma_trim_scan_spaces(s, k + 1, j);
        assert(is_white_space(s[k as int]) && s[k as int] != '(' && s[k as int] != ')');
    }
}

/// The scan of `s` from its end down to `k + j` and that of `s[j..]` from
/// its end down to `k` agree, up to the shift by `j`.
pub open spec fn trim_sim_suffix(ss: TrimState, rs: TrimState, j: int) -> bool {
    &&& ss.in_parentheses == rs.in_parentheses
    &&& ss.trim_end == rs.trim_end
    &&& ss.end_found == rs.end_found
    &&& ss.text_end == rs.text_end + j
    &&& ss.in_parentheses ==> ss.fwd_end == rs.fwd_end + j
    &&& ss.text_start == rs.text_start + j || (ss.text_start == 0 && rs.text_start == 0)
}

proof fn lemma_trim_sim_suffix(s: Seq<char>, j: int, k: int)
    requires
        0 <= j <= s.len() <= usize::MAX,
        0 <= k <= s.len() - j,
    ensures
        trim_sim_suffix(
            trim_scan(s, (k + j) as nat),
            trim_scan(s.subrange(j, s.len() as int), k as nat),
            j,
        ),
    decreases s.len() - j - k,
{
    let r = s.subrange(j, s.len() as int);
    if k < s.len() - j {
        lemma_trim_sim_suffix(s, j, k + 1);
        lemma_trim_shape(r, (k + 1) as nat);
        let rs = trim_scan(r, (k + 1) as nat);
        assert(r[k] == s[k + j]);
        if rs.in_parentheses {
            assert(r.subrange(k, rs.fwd_end as int) =~= s.subrange(k + j, rs.fwd_end + j));
            assert(r.subrange(k + 1, rs.fwd_end as int) =~= s.subrange(
                k + j + 1,
                rs.fwd_end + j,
            ));
        }
    }
}

/// Leading whitespace does not change what `trim_trailing_fwd` keeps.
pub proof fn lemma_trim_skips_leading_whitespace(s: Seq<char>, j: int)
    requires
        0 <= j <= s.len() <= usize::MAX,
        forall|i: int| 0 <= i < j ==> is_white_space(s[i]) && s[i] != '(' && s[i] != ')',
    ensures
        ({
            let r = s.subrange(j, s.len() as int);
            s.subrange(trim_span(s).0, trim_span(s).1) == r.subrange(trim_span(r).0, trim_span(r).1)
        }),
{
    let r = s.subrange(j, s.len() as int);
    lemma_trim_sim_suffix(s, j, 0);
    lemma_trim_shape(r, 0);
    lemma_trim_shape(s, j as nat);
    lemma_trim_scan_spaces(s, 0, j as nat);
    lemma_trim_span_bounds(s);
    lemma_trim_span_bounds(r);
    let (a, b) = trim_span(r);
    if a < b {
        assert(s.subrange(a + j, b + j) =~= r.subrange(a, b));
    } else {
        assert(s.subrange(trim_span(s).0, trim_span(s).1).len() == 0);
    }
}

/// The scan of `t`, whose first `m` characters are `s`, from position `m`
/// leftwards, and that of `s`, started afresh, agree.
pub open spec fn trim_sim_prefix(ts: TrimState, ss: TrimState) -> bool {
    &&& ts.in_parentheses == ss.in_parentheses
    &&& ts.trim_end == ss.trim_end
    &&& ts.end_found == ss.end_found
    &&& ts.text_end == ss.text_end
    &&& ts.in_parentheses ==> ts.fwd_end == ss.fwd_end
    &&& ts.text_start == ss.text_start || (ss.trim_end && ss.text_start == 0)
}

proof fn lemma_trim_sim_prefix(t: Seq<char>, s: Seq<char>, k: int)
    requires
        s.len() <= t.len() <= usize::MAX,
        t.subrange(0, s.len() as int) == s,
        0 <= k <= s.len(),
        trim_sim_prefix(trim_scan(t, s.len()), trim_init(s.len())),
    ensures
        trim_sim_prefix(trim_scan(t, k as nat), trim_scan(s, k as nat)),
    decreases s.len() - k,
{
    if k < s.len() {
        lemma_trim_sim_prefix(t, s, k + 1);
        lemma_trim_shape(s, (k + 1) as nat);
        let ss = trim_scan(s, (k + 1) as nat);
        assert(t[k] == s[k]);
        if ss.in_parentheses {
            assert(t.subrange(k, ss.fwd_end as int) =~= s.subrange(k, ss.fwd_end as int));
            assert(t.subrange(k + 1, ss.fwd_end as int) =~= s.subrange(
                k + 1,
                ss.fwd_end as int,
            ));
        }
    }
}

/// Inside a parenthesized group without brackets, read from the right, the
/// group stays open and nothing is decided.
proof fn lemma_trim_scan_group(t: Seq<char>, q: nat, k: nat)
    requires
        q < k < t.len() <= usize::MAX,
        t[t.len() - 1] == ')',
        forall|i: int| q < i < t.len() - 1 ==> t[i] != '(' && t[i] != ')',
    ensures
        trim_scan(t, k).in_parentheses,
        !trim_scan(t, k).trim_end,
        !trim_scan(t, k).end_found,
        trim_scan(t, k).fwd_end == t.len() - 1,
        trim_scan(t, k).text_end == t.len(),
    decreases t.len() - k,
{
    if k + 1 < t.len() {
        lemma_trim_scan_group(t, q, k + 1);
        assert(t[k as int] != '(' && t[k as int] != ')');
    } else {
        assert(trim_scan(t, t.len()) == trim_init(t.len()));
    }
}

/// Appending whitespace and a forward marker in parentheses, such as
/// ` (fwd)` or `(WG)`, does not change what `trim_trailing_fwd` keeps: the
/// marker `w` has no brackets, takes at least two bytes and is a forward word
/// once lowercased.
pub proof fn lemma_trim_ignores_appended_fwd(s: Seq<char>, sp: Seq<char>, w: Seq<char>)
    requires
        s.len() + sp.len() + w.len() + 2 <= usize::MAX,
        forall|i: int| 0 <= i < sp.len() ==> is_white_space(sp[i]) && sp[i] != '(' && sp[i] != ')',
        forall|i: int| 0 <= i < w.len() ==> w[i] != '(' && w[i] != ')',
        utf8_len(w) >= 2,
        is_forward_word(lowercase(w)),
    ensures
        trim_span(s + sp + seq!['('] + w + seq![')']) == trim_span(s),
{
    let t = s + sp + seq!['('] + w + seq![')'];
    let n = t.len();
    let m = s.len();
    let q = m + sp.len();
    assert(t[n - 1] == ')');
    assert forall|i: int| q < i < n - 1 implies t[i] != '(' && t[i] != ')' by {
        assert(t[i] == w[i - q - 1]);
    }
    lemma_trim_scan_group(t, q, (q + 1) as nat);
    assert(t[q as int] == '(');
    let g = seq!['('] + w;
    assert(t.subrange(q as int, n - 1) =~= g);
    assert(t.subrange(q + 1int, n - 1) =~= w);
    assert(g.drop_first() =~= w);
    assert(g[0] == '(');
    assert(utf8_len(g) == 1 + utf8_len(w)) by {
        assert(encode_utf8(g) == encode_scalar(g[0] as u32) + encode_utf8(g.drop_first()));
    }
    assert(trim_scan(t, q).text_end == q && trim_scan(t, q).trim_end);
    assert forall|i: int| m <= i < q implies is_white_space(t[i]) && t[i] != '(' && t[i] != ')' by {
        assert(t[i] == sp[i - m]);
    }
    lemma_trim_scan_spaces(t, m, q);
    assert(t.subrange(0, m as int) =~= s);
    lemma_trim_sim_prefix(t, s, 0);
    lemma_trim_shape(s, 0);
    lemma_trim_shape(t, 0);
}

/// Index of the last `(` in `s[..e]`, or -1.
pub open spec fn last_open(s: Seq<char>, e: int) -> int
    decreases e,
{
    if e <= 0 {
        -1
    } else if s[e - 1] == '(' {
        e - 1
    } else {
        last_open(s, e - 1)
    }
}

/// Where the forward group `(w)` that ends `s[..e]` starts, or -1 if `s[..e]`
/// does not end in one: `w` holds no brackets, takes at least two bytes and
/// is a forward word once lowercased.
pub open spec fn fwd_group_start(s: Seq<char>, e: int) -> int {
    let j = last_open(s, e - 1);
    if 1 <= e <= s.len() && s[e - 1] == ')' && 0 <= j < e - 1 && (forall|i: int|
        j < i < e - 1 ==> s[i] != ')') && utf8_len(s.subrange(j + 1, e - 1)) >= 2
        && is_forward_word(lowercase(s.subrange(j + 1, e - 1))) {
        j
    } else {
        -1
    }
}

/// Whitespace other than a bracket.
pub open spec fn is_blank(c: char) -> bool {
    is_white_space(c) && c != '(' && c != ')'
}

/// Where the text kept of `s[..e]` ends: the longest tail made of whitespace
/// and forward groups is cut off.
pub open spec fn kept_end(s: Seq<char>, e: int) -> int
    decreases e,
{
    if e <= 0 || e > s.len() {
        0
    } else if is_blank(s[e - 1]) {
        kept_end(s, e - 1)
    } else if fwd_group_start(s, e) >= 0 {
        kept_end(s, fwd_group_start(s, e))
    } else {
        e
    }
}

/// The first position in `s[i..b]` that is not whitespace, or `b`.
pub open spec fn first_non_white(s: Seq<char>, i: int, b: int) -> int
    decreases b - i,
{
    if i >= b {
        b
    } else if !is_white_space(s[i]) {
        i
    } else {
        first_non_white(s, i + 1, b)
    }
}

/// The scan, from the right, is still in the trimmed tail at `e`.
pub open spec fn trim_clean(st: TrimState, e: int) -> bool {
    &&& st.trim_end
    &&& st.text_end == e
    &&& !st.in_parentheses
    &&& !st.end_found
}

proof fn lemma_last_open(s: Seq<char>, j: int, e: int)
    requires
        0 <= j < e <= s.len(),
        s[j] == '(',
        forall|i: int| j < i < e ==> s[i] != '(',
    ensures
        last_open(s, e) == j,
    decreases e,
{
    if e - 1 > j {
        lemma_last_open(s, j, e - 1);
    }
}

proof fn lemma_first_non_white_range(s: Seq<char>, i: int, b: int)
    requires
        i <= b,
    ensures
        i <= first_non_white(s, i, b) <= b,
    decreases b - i,
{
    if i < b {
        lemma_first_non_white_range(s, i + 1, b);
    }
}

/// The UTF-8 length of `s[j..e]` is that of `s[j]` and of `s[j + 1..e]`.
proof fn lemma_utf8_len_first(s: Seq<char>, j: int, e: int)
    requires
        0 <= j < e <= s.len(),
        s[j] == '(',
    ensures
        utf8_len(s.subrange(j, e)) == 1 + utf8_len(s.subrange(j + 1, e)),
{
    let g = s.subrange(j, e);
    assert(g.drop_first() =~= s.subrange(j + 1, e));
    assert(encode_utf8(g) == encode_scalar(g[0] as u32) + encode_utf8(g.drop_first()));
}

/// Inside a group `(...)` ending at `e - 1`, read from the right after a
/// clean tail, the group stays open.
proof fn lemma_trim_group_walk(s: Seq<char>, j: int, e: int, k: int)
    requires
        0 <= j < k < e <= s.len() <= usize::MAX,
        s[e - 1] == ')',
        forall|i: int| j < i < e - 1 ==> s[i] != '(' && s[i] != ')',
        trim_clean(trim_scan(s, e as nat), e),
    ensures
        trim_scan(s, k as nat).in_parentheses,
        !trim_scan(s, k as nat).trim_end,
        !trim_scan(s, k as nat).end_found,
        trim_scan(s, k as nat).fwd_end == e - 1,
        trim_scan(s, k as nat).text_end == e,
    decreases e - k,
{
    if k + 1 < e {
        lemma_trim_group_walk(s, j, e, k + 1);
        assert(s[k] != '(' && s[k] != ')');
    }
}

/// From a clean tail at `e`, the scan is clean again where the tail of
/// whitespace and forward groups ends.
proof fn lemma_trim_tail(s: Seq<char>, e: int)
    requires
        0 <= e <= s.len() <= usize::MAX,
        trim_clean(trim_scan(s, e as nat), e),
    ensures
        0 <= kept_end(s, e) <= e,
        trim_clean(trim_scan(s, kept_end(s, e) as nat), kept_end(s, e)),
    decreases e,
{
    if e > 0 {
        if is_blank(s[e - 1]) {
            lemma_trim_tail(s, e - 1);
        } else if fwd_group_start(s, e) >= 0 {
            let j = fwd_group_start(s, e);
            let lo = last_open(s, e - 1);
            assert(j == lo);
            assert forall|i: int| j < i < e - 1 implies s[i] != '(' && s[i] != ')' by {
                lemma_last_open_none(s, e - 1, i);
            }
            lemma_trim_group_walk(s, j, e, j + 1);
            lemma_last_open_is_open(s, e - 1);
            lemma_utf8_len_first(s, j, e - 1);
            lemma_trim_tail(s, j);
        }
    }
}

proof fn lemma_last_open_none(s: Seq<char>, e: int, i: int)
    requires
        last_open(s, e) < i < e,
    ensures
        s[i] != '(',
    decreases e,
{
    if e - 1 > i {
        lemma_last_open_none(s, e - 1, i);
    }
}

proof fn lemma_last_open_is_open(s: Seq<char>, e: int)
    requires
        last_open(s, e) >= 0,
    ensures
        s[last_open(s, e)] == '(',
        last_open(s, e) < e,
    decreases e,
{
    if e > 0 && s[e - 1] != '(' {
        lemma_last_open_is_open(s, e - 1);
    }
}

/// Left of a kept end `b`, the scan keeps `b` and starts the kept text at
/// the first character that is not whitespace; an open group is the one
/// ending at `b - 1`, holding no bracket.
proof fn lemma_trim_lead(s: Seq<char>, b: int, k: int)
    requires
        1 <= b <= s.len() <= usize::MAX,
        0 <= k < b,
        !is_white_space('('),
        !is_white_space(')'),
        trim_clean(trim_scan(s, b as nat), b),
        !is_blank(s[b - 1]),
        fwd_group_start(s, b) < 0,
    ensures
        ({
            let st = trim_scan(s, k as nat);
            &&& !st.trim_end
            &&& st.text_end == b
            &&& st.text_start == first_non_white(s, k, b)
            &&& st.in_parentheses || st.end_found
            &&& st.in_parentheses && !st.end_found ==> {
                &&& st.fwd_end == b - 1
                &&& s[b - 1] == ')'
                &&& forall|i: int| k <= i < b - 1 ==> s[i] != '(' && s[i] != ')'
            }
        }),
    decreases b - k,
{
    let c = s[k];
    if k + 1 < b {
        lemma_trim_lead(s, b, k + 1);
        let prev = trim_scan(s, (k + 1) as nat);
        if c == '(' && !prev.end_found && prev.in_parentheses {
            lemma_last_open(s, k, b - 1);
            lemma_utf8_len_first(s, k, b - 1);
            assert(!is_parenthesized_fwd(s, k, b - 1));
        }
        if is_white_space(c) {
            assert(first_non_white(s, k, b) == first_non_white(s, k + 1, b));
        }
    }
}

/// What `trim_trailing_fwd` keeps, said directly: the longest tail of
/// whitespace and forward groups `(w)` is cut off, what remains does not end
/// in one, and leading whitespace is dropped. (The brackets are not
/// whitespace, as `char_is_whitespace` states.)
pub proof fn lemma_trim_kept_text(s: Seq<char>)
    requires
        s.len() <= usize::MAX,
        !is_white_space('('),
        !is_white_space(')'),
    ensures
        ({
            let b = kept_end(s, s.len() as int);
            let a = first_non_white(s, 0, b);
            &&& 0 <= a <= b <= s.len()
            &&& b > 0 ==> !is_blank(s[b - 1]) && fwd_group_start(s, b) < 0
            &&& s.subrange(trim_span(s).0, trim_span(s).1) == s.subrange(a, b)
        }),
{
    let n = s.len() as int;
    assert(trim_scan(s, s.len()) == trim_init(s.len()));
    lemma_trim_tail(s, n);
    let b = kept_end(s, n);
    lemma_kept_end_stops(s, n);
    lemma_first_non_white_range(s, 0, b);
    lemma_trim_span_bounds(s);
    if b > 0 {
        lemma_trim_lead(s, b, 0);
    } else {
        lemma_trim_shape(s, 0);
        lemma_trim_bounds_settle(s, 0, 0);
        assert(s.subrange(trim_span(s).0, trim_span(s).1).len() == 0);
    }
}

/// Where the kept text ends, it does not end in whitespace or a forward
/// group.
proof fn lemma_kept_end_stops(s: Seq<char>, e: int)
    requires
        0 <= e <= s.len(),
    ensures
        kept_end(s, e) > 0 ==> !is_blank(s[kept_end(s, e) - 1]) && fwd_group_start(
            s,
            kept_end(s, e),
        ) < 0,
    decreases e,
{
    if e > 0 {
        if is_blank(s[e - 1]) {
            lemma_kept_end_stops(s, e - 1);
        } else if fwd_group_start(s, e) >= 0 {
            lemma_kept_end_stops(s, fwd_group_start(s, e));
        }
    }
}

} // verus!
