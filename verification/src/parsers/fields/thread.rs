//! The thread name of a subject line: the subject with its reply and forward
//! markers (`Re:`, `Fwd[2]:`, `AW:`, `[fwd: ...]`, a mailing-list tag such as
//! `[PATCH]`, a trailing `(fwd)`) removed.

use vstd::prelude::*;
use vstd::utf8::encode_utf8;
use crate::parsers::fields::prefixes::{
    is_forward_word, is_fwd_prefix, is_generic_prefix, is_generic_word, is_known_prefix,
    is_known_word, is_re_prefix, is_reply_word,
};
use crate::parsers::fields::trailing::{
    lemma_trim_without_parentheses, lemma_trim_idempotent, lemma_trim_skips_leading_whitespace, lemma_trim_span_bounds, trim_span,
};
pub use crate::parsers::fields::trailing::trim_trailing_fwd;
use crate::text::{
    char_is_whitespace, chars_of, is_white_space, lemma_utf8_len_monotone, lowercase,
    str_to_lowercase, utf8_len, utf8_len_exceeds,
};

verus! {

/// Longest marker, in bytes, that a subject may open with.
pub const MAX_PREFIX_LEN: usize = 40;

/// The end of `t[ts..e]` once trailing whitespace is removed, as `str::trim_end` does.
pub open spec fn trim_end_index(t: Seq<char>, ts: int, e: int) -> int
    decreases e - ts,
{
    if e <= ts {
        ts
    } else if is_white_space(t[e - 1]) {
        trim_end_index(t, ts, e - 1)
    } else {
        e
    }
}

/// `t[sep..]` starts with `://`, as a URL scheme ends.
pub open spec fn starts_url_scheme(t: Seq<char>, sep: int) -> bool {
    &&& sep + 3 <= t.len()
    &&& t[sep] == ':'
    &&& t[sep + 1] == '/'
    &&& t[sep + 2] == '/'
}

/// The token `t[ts..te]`, ended by the separator at `t[sep]` (a `:` or a
/// `[`), is a marker: a known one once lowercased; or, written right before
/// the separator and not opening a URL, a short alphabetic word; or, with
/// whitespace up to the separator, a known marker of at most
/// `MAX_PREFIX_LEN` bytes made of all that stands before the separator
/// (such as `podaj dalej`).
pub open spec fn is_prefix_at(t: Seq<char>, ts: int, te: int, sep: int) -> bool {
    let word = lowercase(t.subrange(ts, te));
    if is_known_word(word) {
        true
    } else if te == sep {
        !starts_url_scheme(t, sep) && is_generic_word(word)
    } else {
        let span_end = trim_end_index(t, ts, sep);
        &&& utf8_len(t.subrange(ts, span_end)) <= MAX_PREFIX_LEN
        &&& is_known_word(lowercase(t.subrange(ts, span_end)))
    }
}

/// State of the left-to-right scan of `thread_name`; positions are
/// character indices.
pub struct ScanState {
    /// Start of the current (or last) token.
    pub token_start: usize,
    /// End of the current token; 0 while it is not known.
    pub token_end: usize,
    /// Where the text after the last accepted marker starts.
    pub thread_name_start: usize,
    /// Span of the text of the last `[fwd: ...]` blob.
    pub fwd_start: usize,
    pub fwd_end: usize,
    /// Just after the last `[...]` blob that follows no marker.
    pub last_blob_end: usize,
    pub in_blob: bool,
    /// In a blob whose content is not a forward (no more markers are read in it).
    pub in_blob_ignore: bool,
    /// A marker has been read and its `:` not yet.
    pub seen_header: bool,
    /// The current blob has opened with a forward marker.
    pub seen_blob_header: bool,
    pub token_found: bool,
    /// The scan has ended before the end of the text.
    pub stopped: bool,
}

/// The scan state before any character is read.
pub open spec fn scan_init() -> ScanState {
    ScanState {
        token_start: 0,
        token_end: 0,
        thread_name_start: 0,
        fwd_start: 0,
        fwd_end: 0,
        last_blob_end: 0,
        in_blob: false,
        in_blob_ignore: false,
        seen_header: false,
        seen_blob_header: false,
        token_found: false,
        stopped: false,
    }
}

/// `token_end`, or `i` where it is not known yet.
pub open spec fn token_end_at(st: ScanState, i: int) -> usize {
    if st.token_end == 0 {
        i as usize
    } else {
        st.token_end
    }
}

/// One step of the scan, reading `t[i]`.
pub open spec fn scan_step(t: Seq<char>, st: ScanState, i: int) -> ScanState {
    let c = t[i];
    if c == '[' {
        if !st.in_blob {
            if st.token_found {
                let te = token_end_at(st, i);
                if is_prefix_at(t, st.token_start as int, te as int, i) {
                    ScanState {
                        token_end: te,
                        seen_header: true,
                        token_found: false,
                        in_blob: true,
                        ..st
                    }
                } else {
                    ScanState { token_end: te, stopped: true, ..st }
                }
            } else {
                ScanState { token_found: false, in_blob: true, ..st }
            }
        } else {
            ScanState { stopped: true, ..st }
        }
    } else if c == ']' && st.in_blob {
        ScanState {
            fwd_start: if st.seen_blob_header && st.token_found {
                st.token_start
            } else {
                st.fwd_start
            },
            fwd_end: if st.seen_blob_header && st.token_found {
                i as usize
            } else {
                st.fwd_end
            },
            last_blob_end: if !st.seen_header {
                (i + 1) as usize
            } else {
                st.last_blob_end
            },
            in_blob: false,
            token_found: false,
            seen_blob_header: false,
            in_blob_ignore: false,
            ..st
        }
    } else if c == ':' && !st.in_blob {
        if st.seen_header == st.token_found {
            ScanState { stopped: true, ..st }
        } else if !st.seen_header {
            let te = token_end_at(st, i);
            if is_prefix_at(t, st.token_start as int, te as int, i) {
                ScanState {
                    token_end: te,
                    thread_name_start: (i + 1) as usize,
                    token_found: false,
                    ..st
                }
            } else {
                ScanState { token_end: te, stopped: true, ..st }
            }
        } else {
            ScanState {
                seen_header: false,
                thread_name_start: (i + 1) as usize,
                token_found: false,
                ..st
            }
        }
    } else if c == ':' && st.in_blob && !st.in_blob_ignore {
        let te = token_end_at(st, i);
        let word = lowercase(t.subrange(st.token_start as int, te as int));
        if is_forward_word(word) {
            ScanState { token_end: te, token_found: false, seen_blob_header: true, ..st }
        } else if st.seen_blob_header && is_reply_word(word) {
            ScanState { token_end: te, token_found: false, ..st }
        } else {
            ScanState { token_end: te, in_blob_ignore: true, ..st }
        }
    } else if is_white_space(c) {
        ScanState { token_end: token_end_at(st, i), ..st }
    } else if !st.token_found {
        ScanState { token_start: i as usize, token_end: 0, token_found: true, ..st }
    } else if !st.in_blob && utf8_len(t.subrange(st.token_start as int, i)) > MAX_PREFIX_LEN {
        ScanState { stopped: true, ..st }
    } else {
        st
    }
}

/// The scan state once `t[..k]` has been read; it stays as it is once stopped.
pub open spec fn scan(t: Seq<char>, k: nat) -> ScanState
    decreases k,
{
    if k == 0 {
        scan_init()
    } else {
        let st = scan(t, (k - 1) as nat);
        if st.stopped {
            st
        } else {
            scan_step(t, st, k - 1)
        }
    }
}

/// `inner` shifted by `base`.
pub open spec fn shift(base: int, inner: (int, int)) -> (int, int) {
    (base + inner.0, base + inner.1)
}

/// The thread name of `t` is `t[a..b]` for `(a, b)`: the text after the
/// last `[...]` blob that ends the markers, else the text of a
/// `[fwd: ...]` blob, else the text after the last marker; each with
/// trailing `(fwd)` markers and surrounding whitespace removed, and the
/// first two only where that leaves something.
pub open spec fn thread_name_span(t: Seq<char>) -> (int, int) {
    pick_span(t, scan(t, t.len()))
}

/// The choice of `thread_name_span` made from the final scan state `st`.
pub open spec fn pick_span(t: Seq<char>, st: ScanState) -> (int, int) {
    let n = t.len() as int;
    let name_start = st.thread_name_start as int;
    let fwd_start = st.fwd_start as int;
    let fwd_end = st.fwd_end as int;
    let blob_end = st.last_blob_end as int;
    let after_blob = trim_span(t.subrange(blob_end, n));
    let in_fwd_blob = trim_span(t.subrange(fwd_start, fwd_end));
    if (blob_end > name_start || (fwd_start > 0 && blob_end > fwd_start && fwd_start > name_start))
        && after_blob.0 < after_blob.1 {
        shift(blob_end, after_blob)
    } else if fwd_start > 0 && name_start < fwd_start && in_fwd_blob.0 < in_fwd_blob.1 {
        shift(fwd_start, in_fwd_blob)
    } else {
        shift(name_start, trim_span(t.subrange(name_start, n)))
    }
}

/// What holds of the scan state once `i` characters have been read.
pub open spec fn scan_inv(t: Seq<char>, st: ScanState, i: int) -> bool {
    &&& 0 <= i <= t.len() <= usize::MAX
    &&& st.token_start <= i
    &&& st.token_found ==> st.token_start < i
    &&& st.token_end == 0 || (st.token_start <= st.token_end && st.token_end <= i)
    &&& st.thread_name_start <= i
    &&& st.last_blob_end <= i
    &&& st.fwd_start <= st.fwd_end <= i
}

/// Once stopped, the scan state no longer changes.
proof fn lemma_scan_stopped(t: Seq<char>, i: nat, k: nat)
    requires
        i <= k,
        scan(t, i).stopped,
    ensures
        scan(t, k) == scan(t, i),
    decreases k - i,
{
    if i < k {
        lemma_scan_stopped(t, i, (k - 1) as nat);
    }
}

/// End of `chars[ts..e]` without its trailing whitespace.
fn trim_end_of(chars: &Vec<char>, ts: usize, e: usize) -> (r: usize)
    requires
        ts <= e <= chars@.len(),
    ensures
        r == trim_end_index(chars@, ts as int, e as int),
        ts <= r <= e,
{
    let mut k = e;
    while k > ts
        invariant
            ts <= k <= e <= chars@.len(),
            trim_end_index(chars@, ts as int, e as int) == trim_end_index(
                chars@,
                ts as int,
                k as int,
            ),
        decreases k,
    {
        if !char_is_whitespace(chars[k - 1]) {
            return k;
        }
        k = k - 1;
    }
    k
}

/// Whether `chars[sep..]` starts with `://`.
fn starts_with_scheme(chars: &Vec<char>, sep: usize) -> (r: bool)
    requires
        sep <= chars@.len(),
    ensures
        r == starts_url_scheme(chars@, sep as int),
{
    chars.len() - sep >= 3 && chars[sep] == ':' && chars[sep + 1] == '/' && chars[sep + 2] == '/'
}

/// The characters of `text[from..to]`, lowercased.
fn lowercase_chars(text: &str, from: usize, to: usize) -> (w: Vec<char>)
    requires
        from <= to <= text@.len(),
    ensures
        w@ == lowercase(text@.subrange(from as int, to as int)),
{
    let lower = str_to_lowercase(text.substring_char(from, to));
    chars_of(lower.as_str())
}

/// Whether the token `text[token_start..token_end]`, ended by the separator
/// at `separator`, is a marker.
fn is_prefix(
    text: &str,
    chars: &Vec<char>,
    token_start: usize,
    token_end: usize,
    separator: usize,
) -> (r: bool)
    requires
        chars@ == text@,
        token_start <= token_end <= separator <= chars@.len(),
    ensures
        r == is_prefix_at(chars@, token_start as int, token_end as int, separator as int),
{
    let word = lowercase_chars(text, token_start, token_end);
    if is_known_prefix(&word) {
        return true;
    }
    if token_end == separator {
        !starts_with_scheme(chars, separator) && is_generic_prefix(&word)
    } else {
        let span_end = trim_end_of(chars, token_start, separator);
        !utf8_len_exceeds(chars, token_start, span_end, MAX_PREFIX_LEN) && is_known_prefix(
            &lowercase_chars(text, token_start, span_end),
        )
    }
}

/// Reads `chars[pos]`.
fn scan_char(text: &str, chars: &Vec<char>, st: &mut ScanState, pos: usize)
    requires
        chars@ == text@,
        pos < chars@.len(),
        scan_inv(chars@, *old(st), pos as int),
    ensures
        *final(st) == scan_step(chars@, *old(st), pos as int),
        scan_inv(chars@, *final(st), pos + 1),
{
    let ch = chars[pos];
    if ch == '[' {
        if !st.in_blob {
            if st.token_found {
                if st.token_end == 0 {
                    st.token_end = pos;
                }
                if is_prefix(text, chars, st.token_start, st.token_end, pos) {
                    st.seen_header = true;
                } else {
                    st.stopped = true;
                    return;
                }
            }
            st.token_found = false;
            st.in_blob = true;
        } else {
            st.stopped = true;
        }
    } else if ch == ']' && st.in_blob {
        if st.seen_blob_header && st.token_found {
            st.fwd_start = st.token_start;
            st.fwd_end = pos;
        }
        if !st.seen_header {
            st.last_blob_end = pos + 1;
        }
        st.in_blob = false;
        st.token_found = false;
        st.seen_blob_header = false;
        st.in_blob_ignore = false;
    } else if ch == ':' && !st.in_blob {
        if (st.seen_header && st.token_found) || (!st.seen_header && !st.token_found) {
            st.stopped = true;
            return;
        } else if !st.seen_header {
            if st.token_end == 0 {
                st.token_end = pos;
            }
            if !is_prefix(text, chars, st.token_start, st.token_end, pos) {
                st.stopped = true;
                return;
            }
        } else {
            st.seen_header = false;
        }
        st.thread_name_start = pos + 1;
        st.token_found = false;
    } else if ch == ':' && st.in_blob && !st.in_blob_ignore {
        if st.token_end == 0 {
            st.token_end = pos;
        }
        let word = lowercase_chars(text, st.token_start, st.token_end);
        if is_fwd_prefix(&word) {
            st.token_found = false;
            st.seen_blob_header = true;
        } else if st.seen_blob_header && is_re_prefix(&word) {
            st.token_found = false;
        } else {
            st.in_blob_ignore = true;
        }
    } else if char_is_whitespace(ch) {
        if st.token_end == 0 {
            st.token_end = pos;
        }
    } else {
        if !st.token_found {
            st.token_start = pos;
            st.token_end = 0;
            st.token_found = true;
        } else if !st.in_blob && utf8_len_exceeds(chars, st.token_start, pos, MAX_PREFIX_LEN) {
            st.stopped = true;
        }
    }
}

/// The thread name of a subject line: the subject without its reply and
/// forward markers, mailing-list tags and trailing `(fwd)` markers, and
/// without surrounding whitespace.
///
/// `"Re: [PATCH] Fwd: deprecate UNIVERSAL->import"` gives
/// `"deprecate UNIVERSAL->import"`, `"[fwd: hello world]"` gives
/// `"hello world"`, and `"meeting: hello"` stays as it is.
pub fn thread_name(text: &str) -> (r: &str)
    ensures
        0 <= thread_name_span(text@).0 <= thread_name_span(text@).1 <= text@.len(),
        r@ == text@.subrange(thread_name_span(text@).0, thread_name_span(text@).1),
        r@.len() > 0 ==> !is_white_space(r@[0]) && !is_white_space(r@.last()),
{
    let chars = chars_of(text);
    let n = chars.len();
    let mut st = ScanState {
        token_start: 0,
        token_end: 0,
        thread_name_start: 0,
        fwd_start: 0,
        fwd_end: 0,
        last_blob_end: 0,
        in_blob: false,
        in_blob_ignore: false,
        seen_header: false,
        seen_blob_header: false,
        token_found: false,
        stopped: false,
    };
    let mut i: usize = 0;
    while i < n && !st.stopped
        invariant
            chars@ == text@,
            n == chars@.len(),
            i <= n,
            st == scan(chars@, i as nat),
            scan_inv(chars@, st, i as int),
        decreases n - i,
    {
        scan_char(text, &chars, &mut st, i);
        i = i + 1;
    }
    proof {
        if st.stopped {
            lemma_scan_stopped(chars@, i as nat, n as nat);
        }
    }
    let ghost t = text@;
    let ghost span = thread_name_span(t);

    if st.last_blob_end > st.thread_name_start || (st.fwd_start > 0 && st.last_blob_end
        > st.fwd_start && st.fwd_start > st.thread_name_start) {
        let tail = text.substring_char(st.last_blob_end, n);
        let result = trim_trailing_fwd(tail);
        if !result.is_empty() {
            assert(result@ =~= t.subrange(span.0, span.1));
            return result;
        }
    }
    if st.fwd_start > 0 && st.thread_name_start < st.fwd_start {
        let blob = text.substring_char(st.fwd_start, st.fwd_end);
        let result = trim_trailing_fwd(blob);
        if !result.is_empty() {
            assert(result@ =~= t.subrange(span.0, span.1));
            return result;
        }
    }
    let rest = text.substring_char(st.thread_name_start, n);
    let result = trim_trailing_fwd(rest);
    assert(result@ =~= t.subrange(span.0, span.1));
    result
}

/// While no `[` and no `:` is read outside a blob, no marker is accepted
/// and no blob seen.
proof fn lemma_scan_without_separators(t: Seq<char>, k0: nat, k: nat)
    requires
        k0 <= k <= t.len(),
        !scan(t, k0).in_blob,
        forall|i: int| k0 <= i < k ==> t[i] != '[' && t[i] != ':',
    ensures
        scan(t, k).thread_name_start == scan(t, k0).thread_name_start,
        scan(t, k).fwd_start == scan(t, k0).fwd_start,
        scan(t, k).last_blob_end == scan(t, k0).last_blob_end,
        !scan(t, k).in_blob,
    decreases k - k0,
{
    if k0 < k {
        lemma_scan_without_separators(t, k0, (k - 1) as nat);
    }
}

/// A subject without `[` and without `:` holds no marker: its thread name
/// is what `trim_trailing_fwd` keeps of the whole subject.
pub proof fn lemma_subject_without_separators(t: Seq<char>)
    requires
        forall|i: int| 0 <= i < t.len() ==> t[i] != '[' && t[i] != ':',
    ensures
        thread_name_span(t) == trim_span(t),
{
    lemma_scan_without_separators(t, 0, t.len());
    assert(t.subrange(0, t.len() as int) =~= t);
}

/// The scan positions stay within the text read so far.
proof fn lemma_scan_inv(t: Seq<char>, k: nat)
    requires
        k <= t.len() <= usize::MAX,
    ensures
        scan_inv(t, scan(t, k), k as int),
    decreases k,
{
    if k > 0 {
        lemma_scan_inv(t, (k - 1) as nat);
    }
}

/// What `trim_trailing_fwd` keeps of `t[base..end]`, as a span of `t`, is
/// kept whole by it.
proof fn lemma_window_trimmed(t: Seq<char>, base: int, end: int)
    requires
        0 <= base <= end <= t.len() <= usize::MAX,
    ensures
        ({
            let span = shift(base, trim_span(t.subrange(base, end)));
            &&& 0 <= span.0 <= span.1 <= t.len()
            &&& trim_span(t.subrange(span.0, span.1)) == (0int, span.1 - span.0)
        }),
{
    let w = t.subrange(base, end);
    lemma_trim_span_bounds(w);
    lemma_trim_idempotent(w);
    let (x, y) = trim_span(w);
    assert(t.subrange(base + x, base + y) =~= w.subrange(x, y));
}

/// The thread name holds no trailing `(fwd)` marker and no surrounding
/// whitespace: `trim_trailing_fwd` keeps it whole.
pub proof fn lemma_thread_name_trimmed(t: Seq<char>)
    requires
        t.len() <= usize::MAX,
    ensures
        ({
            let (a, b) = thread_name_span(t);
            &&& 0 <= a <= b <= t.len()
            &&& trim_span(t.subrange(a, b)) == (0int, b - a)
        }),
{
    lemma_scan_inv(t, t.len());
    let st = scan(t, t.len());
    let n = t.len() as int;
    lemma_window_trimmed(t, st.last_blob_end as int, n);
    lemma_window_trimmed(t, st.fwd_start as int, st.fwd_end as int);
    lemma_window_trimmed(t, st.thread_name_start as int, n);
}

/// A run of markers as it opens a subject line: for each pair, its
/// whitespace, then its word and a colon.
pub open spec fn marker_chain(chunks: Seq<(Seq<char>, Seq<char>)>) -> Seq<char>
    decreases chunks.len(),
{
    if chunks.len() == 0 {
        Seq::empty()
    } else {
        let (space, word) = chunks.last();
        marker_chain(chunks.drop_last()) + space + word + seq![':']
    }
}

/// `space` is whitespace (which `[` and `:` are not) and `word` a known reply
/// or forward marker once lowercased, of at most `MAX_PREFIX_LEN` bytes,
/// without whitespace, `[` or `:`.
pub open spec fn is_marker_chunk(space: Seq<char>, word: Seq<char>) -> bool {
    &&& forall|i: int|
        0 <= i < space.len() ==> is_white_space(space[i]) && space[i] != '[' && space[i] != ':'
    &&& word.len() > 0
    &&& forall|i: int|
        0 <= i < word.len() ==> word[i] != '[' && word[i] != ':' && !is_white_space(word[i])
    &&& utf8_len(word) <= MAX_PREFIX_LEN
    &&& is_known_word(lowercase(word))
}

/// The scan is between markers: the thread name would start at `start`, and
/// no token, blob or stop is pending.
pub open spec fn scan_ready(st: ScanState, start: int) -> bool {
    &&& !st.token_found
    &&& !st.seen_header
    &&& !st.in_blob
    &&& !st.in_blob_ignore
    &&& !st.seen_blob_header
    &&& !st.stopped
    &&& st.thread_name_start == start
    &&& st.fwd_start == 0
    &&& st.fwd_end == 0
    &&& st.last_blob_end == 0
}

/// Whitespace read between markers changes nothing that matters.
proof fn lemma_scan_spaces(t: Seq<char>, p: nat, k: nat, start: int)
    requires
        p <= k <= t.len(),
        scan_ready(scan(t, p), start),
        forall|i: int| p <= i < k ==> is_white_space(t[i]) && t[i] != '[' && t[i] != ':',
    ensures
        scan_ready(scan(t, k), start),
    decreases k - p,
{
    if p < k {
        lemma_scan_spaces(t, p, (k - 1) as nat, start);
        assert(is_white_space(t[k - 1]) && t[k - 1] != '[' && t[k - 1] != ':');
    }
}

/// The characters of a marker word, read between markers, form one token.
proof fn lemma_scan_word(t: Seq<char>, q: nat, k: nat, start: int)
    requires
        q < k <= t.len() <= usize::MAX,
        scan_ready(scan(t, q), start),
        forall|i: int| q <= i < k ==> t[i] != '[' && t[i] != ':' && !is_white_space(t[i]),
        utf8_len(t.subrange(q as int, k as int)) <= MAX_PREFIX_LEN,
    ensures
        scan(t, k) == (ScanState {
            token_start: q as usize,
            token_end: 0,
            token_found: true,
            ..scan(t, q)
        }),
    decreases k - q,
{
    let c = t[k - 1];
    assert(c != '[' && c != ':' && !is_white_space(c));
    if q + 1 < k {
        lemma_utf8_len_monotone(t, q as int, k - 1, k as int);
        lemma_scan_word(t, q, (k - 1) as nat, start);
    }
}

/// Whitespace, a marker word and its colon, read between markers, leave the
/// scan between markers, with the thread name starting after the colon.
proof fn lemma_scan_chunk(t: Seq<char>, p: nat, space: Seq<char>, word: Seq<char>, start: int)
    requires
        p + space.len() + word.len() + 1 <= t.len() <= usize::MAX,
        t.subrange(p as int, (p + space.len() + word.len() + 1) as int) == space + word + seq![':'],
        scan_ready(scan(t, p), start),
        is_marker_chunk(space, word),
    ensures
        scan_ready(
            scan(t, p + space.len() + word.len() + 1),
            (p + space.len() + word.len() + 1) as int,
        ),
{
    let q = p + space.len();
    let r = q + word.len();
    let chunk = space + word + seq![':'];
    assert forall|i: int| p <= i < q implies is_white_space(t[i]) && t[i] != '[' && t[i] != ':' by {
        assert(t[i] == chunk[i - p]);
    }
    lemma_scan_spaces(t, p, q as nat, start);
    assert forall|i: int| q <= i < r implies t[i] != '[' && t[i] != ':' && !is_white_space(
        t[i],
    ) by {
        assert(t[i] == chunk[i - p]);
    }
    assert forall|i: int| 0 <= i < word.len() implies t.subrange(q as int, r as int)[i]
        == word[i] by {
        assert(t[q + i] == chunk[space.len() + i]);
    }
    assert(t.subrange(q as int, r as int) =~= word);
    lemma_scan_word(t, q as nat, r as nat, start);
    assert(t[r as int] == chunk[r - p]);
}

/// Reading a run of markers from the start of the text leaves the scan
/// between markers, with the thread name starting after the run.
proof fn lemma_scan_chain(t: Seq<char>, chunks: Seq<(Seq<char>, Seq<char>)>)
    requires
        marker_chain(chunks).len() <= t.len() <= usize::MAX,
        t.subrange(0, marker_chain(chunks).len() as int) == marker_chain(chunks),
        forall|i: int| 0 <= i < chunks.len() ==> is_marker_chunk(#[trigger] chunks[i].0, chunks[i].1),
    ensures
        scan_ready(scan(t, marker_chain(chunks).len()), marker_chain(chunks).len() as int),
    decreases chunks.len(),
{
    if chunks.len() > 0 {
        let rest = chunks.drop_last();
        let (space, word) = chunks.last();
        let p = marker_chain(rest).len();
        assert(marker_chain(chunks) == marker_chain(rest) + space + word + seq![':']);
        assert(t.subrange(0, p as int) =~= marker_chain(rest));
        assert forall|i: int| 0 <= i < rest.len() implies is_marker_chunk(
            #[trigger] rest[i].0,
            rest[i].1,
        ) by {
            assert(rest[i] == chunks[i]);
        }
        lemma_scan_chain(t, rest);
        assert(is_marker_chunk(chunks[chunks.len() - 1].0, chunks[chunks.len() - 1].1));
        assert(t.subrange(p as int, (p + space.len() + word.len() + 1) as int) =~= space + word + seq![
            ':',
        ]) by {
            assert forall|i: int| 0 <= i < space.len() + word.len() + 1 implies t.subrange(
                p as int,
                (p + space.len() + word.len() + 1) as int,
            )[i] == (space + word + seq![':'])[i] by {
                assert(t[p + i] == marker_chain(chunks)[p + i]);
            }
        }
        lemma_scan_chunk(t, p, space, word, p as int);
    }
}

/// A subject that opens with a run of known reply and forward markers, each
/// after optional whitespace and followed by a colon (`Re: AW: Fwd: ...`),
/// followed by text without `[` and `:`, has for thread name that text
/// without trailing `(fwd)` markers and surrounding whitespace.
pub proof fn lemma_marker_chain_removed(chunks: Seq<(Seq<char>, Seq<char>)>, x: Seq<char>)
    requires
        forall|i: int| 0 <= i < chunks.len() ==> is_marker_chunk(#[trigger] chunks[i].0, chunks[i].1),
        forall|i: int| 0 <= i < x.len() ==> x[i] != '[' && x[i] != ':',
        marker_chain(chunks).len() + x.len() <= usize::MAX,
    ensures
        thread_name_span(marker_chain(chunks) + x) == shift(
            marker_chain(chunks).len() as int,
            trim_span(x),
        ),
{
    let c = marker_chain(chunks);
    let t = c + x;
    assert(t.subrange(0, c.len() as int) =~= c);
    lemma_scan_chain(t, chunks);
    assert forall|i: int| c.len() <= i < t.len() implies t[i] != '[' && t[i] != ':' by {
        assert(t[i] == x[i - c.len()]);
    }
    lemma_scan_without_separators(t, c.len(), t.len());
    assert(t.subrange(c.len() as int, t.len() as int) =~= x);
}

/// `trim_end_index` commutes with a shift of the text.
proof fn lemma_trim_end_index_shift(t: Seq<char>, y: Seq<char>, off: int, ts: int, e: int)
    requires
        0 <= off,
        off + y.len() == t.len(),
        t.subrange(off, t.len() as int) == y,
        0 <= ts <= e <= y.len(),
    ensures
        trim_end_index(t, ts + off, e + off) == trim_end_index(y, ts, e) + off,
    decreases e - ts,
{
    if e > ts {
        assert(t[e - 1 + off] == y[e - 1]);
        lemma_trim_end_index_shift(t, y, off, ts, e - 1);
    }
}

/// Whether a token is a marker does not depend on what stands before the
/// text it is read in.
proof fn lemma_is_prefix_at_shift(t: Seq<char>, y: Seq<char>, off: int, ts: int, te: int, sep: int)
    requires
        0 <= off,
        off + y.len() == t.len(),
        t.subrange(off, t.len() as int) == y,
        0 <= ts <= te <= sep < y.len(),
    ensures
        is_prefix_at(t, ts + off, te + off, sep + off) == is_prefix_at(y, ts, te, sep),
{
    assert(t.subrange(ts + off, te + off) =~= y.subrange(ts, te));
    lemma_trim_end_index_shift(t, y, off, ts, sep);
    let k = trim_end_index(y, ts, sep);
    lemma_trim_end_index_ranges(y, ts, sep);
    assert(t.subrange(ts + off, k + off) =~= y.subrange(ts, k));
    assert(t[sep + off] == y[sep]);
    if sep + 3 <= y.len() {
        assert(t[sep + off + 1] == y[sep + 1]);
        assert(t[sep + off + 2] == y[sep + 2]);
    }
}

proof fn lemma_trim_end_index_ranges(y: Seq<char>, ts: int, e: int)
    requires
        ts <= e,
    ensures
        ts <= trim_end_index(y, ts, e) <= e,
    decreases e - ts,
{
    if e > ts {
        lemma_trim_end_index_ranges(y, ts, e - 1);
    }
}

/// The scan is between tokens: no token, marker, blob or stop pending.
pub open spec fn scan_between(st: ScanState) -> bool {
    &&& !st.token_found
    &&& !st.seen_header
    &&& !st.in_blob
    &&& !st.in_blob_ignore
    &&& !st.seen_blob_header
    &&& !st.stopped
}

/// The scan is at rest: between tokens, and no forward blob seen.
pub open spec fn scan_at_rest(st: ScanState) -> bool {
    &&& !st.token_found
    &&& !st.seen_header
    &&& !st.in_blob
    &&& !st.in_blob_ignore
    &&& !st.seen_blob_header
    &&& !st.stopped
    &&& st.fwd_start == 0
    &&& st.fwd_end == 0
}

/// The scan of `t` past its first `off` characters, started from the state
/// `p`, and the scan of `t[off..]` (holding no `[`) started afresh agree, up
/// to the shift by `off`.
pub open spec fn scan_sim(ss: ScanState, fs: ScanState, p: ScanState, off: int) -> bool {
    &&& ss.token_found == fs.token_found
    &&& ss.stopped == fs.stopped
    &&& !ss.seen_header && !fs.seen_header
    &&& !ss.in_blob && !fs.in_blob
    &&& !ss.in_blob_ignore && !fs.in_blob_ignore
    &&& !ss.seen_blob_header && !fs.seen_blob_header
    &&& ss.fwd_start == p.fwd_start && fs.fwd_start == 0
    &&& ss.fwd_end == p.fwd_end && fs.fwd_end == 0
    &&& ss.last_blob_end == p.last_blob_end && fs.last_blob_end == 0
    &&& ss.thread_name_start == (if fs.thread_name_start == 0 {
        p.thread_name_start as int
    } else {
        fs.thread_name_start + off
    })
    &&& fs.token_found ==> {
        &&& ss.token_start == fs.token_start + off
        &&& (ss.token_end == 0 <==> fs.token_end == 0)
        &&& fs.token_end != 0 ==> ss.token_end == fs.token_end + off
    }
}

proof fn lemma_scan_sim(t: Seq<char>, y: Seq<char>, off: nat, k: nat)
    requires
        t.len() <= usize::MAX,
        off + y.len() == t.len(),
        t.subrange(off as int, t.len() as int) == y,
        scan_between(scan(t, off)),
        forall|i: int| 0 <= i < y.len() ==> y[i] != '[',
        k <= y.len(),
    ensures
        scan_sim(scan(t, off + k), scan(y, k), scan(t, off), off as int),
    decreases k,
{
    if k > 0 {
        lemma_scan_sim(t, y, off, (k - 1) as nat);
        lemma_scan_inv(y, (k - 1) as nat);
        let ss = scan(t, (off + k - 1) as nat);
        let fs = scan(y, (k - 1) as nat);
        let pos = k - 1;
        assert(t[pos + off] == y[pos]);
        assert(scan(t, off + k) == (if ss.stopped {
            ss
        } else {
            scan_step(t, ss, pos + off)
        }));
        if !fs.stopped && fs.token_found {
            let te = token_end_at(fs, pos);
            if y[pos] == ':' {
                lemma_is_prefix_at_shift(t, y, off as int, fs.token_start as int, te as int, pos);
            }
            assert(t.subrange(fs.token_start + off, pos + off) =~= y.subrange(
                fs.token_start as int,
                pos,
            ));
        }
    } else {
        assert(t.subrange(off as int, t.len() as int) == y);
    }
}

/// The thread name of a text whose first `off` characters leave the scan at
/// rest, when the rest holds no `[`: that of the rest, shifted, once the rest
/// has accepted a marker; otherwise chosen as the state at rest says.
proof fn lemma_span_after_rest(t: Seq<char>, y: Seq<char>, off: nat)
    requires
        t.len() <= usize::MAX,
        off + y.len() == t.len(),
        t.subrange(off as int, t.len() as int) == y,
        scan_between(scan(t, off)),
        forall|i: int| 0 <= i < y.len() ==> y[i] != '[',
    ensures
        ({
            let p = scan(t, off);
            let fs = scan(y, y.len());
            &&& fs.thread_name_start != 0 && p.last_blob_end <= off && p.fwd_end <= off
                ==> thread_name_span(t) == shift(off as int, thread_name_span(y))
            &&& fs.thread_name_start == 0 ==> thread_name_span(t) == pick_span(t, p)
        }),
{
    lemma_scan_inv(t, off);
    lemma_scan_sim(t, y, off, y.len());
    lemma_scan_inv(y, y.len());
    let fs = scan(y, y.len());
    if fs.thread_name_start != 0 {
        assert(t.subrange(fs.thread_name_start + off, t.len() as int) =~= y.subrange(
            fs.thread_name_start as int,
            y.len() as int,
        ));
    }
}

/// While only whitespace other than `[` and `:` has been read from the start,
/// the scan is at rest and no marker or blob has been seen.
proof fn lemma_scan_leading_spaces(t: Seq<char>, k: nat)
    requires
        k <= t.len(),
        forall|i: int| 0 <= i < k ==> is_white_space(t[i]) && t[i] != '[' && t[i] != ':',
    ensures
        scan_at_rest(scan(t, k)),
        scan(t, k).thread_name_start == 0,
        scan(t, k).last_blob_end == 0,
    decreases k,
{
    if k > 0 {
        lemma_scan_leading_spaces(t, (k - 1) as nat);
        assert(is_white_space(t[k - 1]) && t[k - 1] != '[' && t[k - 1] != ':');
    }
}

/// Leading whitespace (other than brackets) does not change the thread name
/// of a subject without `[`.
pub proof fn lemma_leading_whitespace_ignored(sp: Seq<char>, y: Seq<char>)
    requires
        sp.len() + y.len() <= usize::MAX,
        forall|i: int|
            0 <= i < sp.len() ==> is_white_space(sp[i]) && sp[i] != '[' && sp[i] != ':' && sp[i]
                != '(' && sp[i] != ')',
        forall|i: int| 0 <= i < y.len() ==> y[i] != '[',
    ensures
        thread_name_of(sp + y) == thread_name_of(y),
{
    let t = sp + y;
    let off = sp.len();
    assert(t.subrange(off as int, t.len() as int) =~= y);
    lemma_scan_leading_spaces(t, off);
    lemma_span_after_rest(t, y, off);
    lemma_scan_sim(t, y, off, y.len());
    lemma_thread_name_span_bounds(y);
    let fs = scan(y, y.len());
    if fs.thread_name_start == 0 {
        assert(t.subrange(0, t.len() as int) =~= t);
        assert(y.subrange(0, y.len() as int) =~= y);
        assert(pick_span(t, scan(t, off)) == shift(0, trim_span(t.subrange(0, t.len() as int))));
        assert(thread_name_span(t) == trim_span(t));
        assert(pick_span(y, fs) == shift(0, trim_span(y.subrange(0, y.len() as int))));
        assert(thread_name_span(y) == trim_span(y));
        lemma_trim_skips_leading_whitespace(t, off as int);
    } else {
        let (a, b) = thread_name_span(y);
        assert(t.subrange(a + off, b + off) =~= y.subrange(a, b));
    }
}

/// The thread name of `t`, as text.
pub open spec fn thread_name_of(t: Seq<char>) -> Seq<char> {
    t.subrange(thread_name_span(t).0, thread_name_span(t).1)
}

/// The span of the thread name lies within the text.
pub proof fn lemma_thread_name_span_bounds(t: Seq<char>)
    requires
        t.len() <= usize::MAX,
    ensures
        0 <= thread_name_span(t).0 <= thread_name_span(t).1 <= t.len(),
{
    lemma_thread_name_trimmed(t);
}

/// While the characters of a word without whitespace, `[` or `:` are read
/// from the start of the text, they form one token, until more than
/// `MAX_PREFIX_LEN` bytes stand before the character read.
proof fn lemma_scan_marker(t: Seq<char>, m: Seq<char>, k: nat)
    requires
        1 <= k <= m.len() <= t.len() <= usize::MAX,
        m == t.subrange(0, m.len() as int),
        forall|i: int| 0 <= i < m.len() ==> m[i] != '[' && m[i] != ':' && !is_white_space(m[i]),
    ensures
        scan(t, k) == (ScanState {
            token_found: true,
            stopped: k >= 2 && utf8_len(t.subrange(0, k - 1)) > MAX_PREFIX_LEN,
            ..scan_init()
        }),
    decreases k,
{
    let c = t[k - 1];
    assert(c == m[k - 1]);
    assert(c != '[' && c != ':' && !is_white_space(c));
    if k > 1 {
        lemma_scan_marker(t, m, (k - 1) as nat);
        if k > 2 {
            lemma_utf8_len_monotone(t, 0, k - 2, k - 1);
        }
    } else {
        assert(scan(t, 0) == scan_init());
    }
}

/// The marker `p`, followed by a colon and the text `y`, is taken for a
/// marker: at most `MAX_PREFIX_LEN` bytes stand before its last character,
/// and it is a known reply or forward marker once lowercased, or one to four
/// alphabetic characters where `y` does not open with `//`.
pub open spec fn marker_accepted(p: Seq<char>, y: Seq<char>) -> bool {
    &&& utf8_len(p.drop_last()) <= MAX_PREFIX_LEN
    &&& is_known_word(lowercase(p)) || (is_generic_word(lowercase(p)) && !(y.len() >= 2 && y[0]
        == '/' && y[1] == '/'))
}

/// A word without whitespace, `[` or `:`, a colon, then text `y` without
/// `[`: where the word is taken for a marker, the thread name is that of
/// `y`; otherwise the subject holds no marker and only trailing `(fwd)`
/// markers and surrounding whitespace are removed.
pub proof fn lemma_marker_then_text(p: Seq<char>, y: Seq<char>)
    requires
        p.len() > 0,
        p.len() + 1 + y.len() <= usize::MAX,
        forall|i: int| 0 <= i < p.len() ==> p[i] != '[' && p[i] != ':' && !is_white_space(p[i]),
        forall|i: int| 0 <= i < y.len() ==> y[i] != '[',
    ensures
        thread_name_span(p + seq![':'] + y) == (if marker_accepted(p, y) {
            shift(p.len() + 1int, thread_name_span(y))
        } else {
            trim_span(p + seq![':'] + y)
        }),
{
    let t = p + seq![':'] + y;
    let k = p.len();
    let n = t.len();
    assert(p =~= t.subrange(0, k as int));
    assert(t.subrange(0, n as int) =~= t);
    lemma_scan_marker(t, p, k);
    assert(t.subrange(0, k - 1) =~= p.drop_last());
    if k == 1 {
        assert(p.drop_last() =~= Seq::<char>::empty());
        assert(encode_utf8(Seq::<char>::empty()) =~= Seq::<u8>::empty());
    }
    assert(t[k as int] == ':');
    if k + 3 <= n {
        assert(t[k + 1int] == y[0] && t[k + 2int] == y[1]);
    }
    assert(t.subrange(0, k as int) =~= p);
    let st = scan(t, (k + 1) as nat);
    if st.stopped {
        lemma_scan_stopped(t, (k + 1) as nat, n);
    } else {
        let off = (k + 1) as nat;
        assert(t.subrange(off as int, n as int) =~= y);
        assert forall|i: int| 0 <= i < y.len() implies y[i] != '[' by {}
        lemma_span_after_rest(t, y, off);
        lemma_scan_sim(t, y, off, y.len());
        assert(y.subrange(0, y.len() as int) =~= y);
    }
}

/// A marker, a colon, whitespace (other than brackets) and text `s` without
/// `[`, as in `"Re: hello"`: where the word is taken for a marker, the thread
/// name is that of `s`; otherwise what `trim_trailing_fwd` keeps of the whole
/// subject.
pub proof fn lemma_marker_then_spaced_text(p: Seq<char>, sp: Seq<char>, s: Seq<char>)
    requires
        p.len() > 0,
        p.len() + 1 + sp.len() + s.len() <= usize::MAX,
        forall|i: int| 0 <= i < p.len() ==> p[i] != '[' && p[i] != ':' && !is_white_space(p[i]),
        forall|i: int|
            0 <= i < sp.len() ==> is_white_space(sp[i]) && sp[i] != '[' && sp[i] != ':' && sp[i]
                != '(' && sp[i] != ')',
        forall|i: int| 0 <= i < s.len() ==> s[i] != '[',
    ensures
        ({
            let t = p + seq![':'] + sp + s;
            thread_name_of(t) == (if marker_accepted(p, sp + s) {
                thread_name_of(s)
            } else {
                t.subrange(trim_span(t).0, trim_span(t).1)
            })
        }),
{
    let y = sp + s;
    let t = p + seq![':'] + sp + s;
    assert(t =~= p + seq![':'] + y);
    assert forall|i: int| 0 <= i < y.len() implies y[i] != '[' by {
        if i >= sp.len() {
            assert(y[i] == s[i - sp.len()]);
        }
    }
    lemma_marker_then_text(p, y);
    lemma_leading_whitespace_ignored(sp, s);
    if marker_accepted(p, y) {
        lemma_thread_name_span_bounds(y);
        let (a, b) = thread_name_span(y);
        let off = p.len() + 1;
        assert(t.subrange(a + off, b + off) =~= y.subrange(a, b));
    }
}

/// Reading the blob `[x]` from the start of the text, where `x` holds no
/// bracket: the scan stays in the blob, accepts no marker and does not stop.
proof fn lemma_scan_tag(t: Seq<char>, x: Seq<char>, k: nat)
    requires
        1 <= k <= x.len() + 1 <= t.len(),
        t[0] == '[',
        t.subrange(1, x.len() + 1int) == x,
        forall|i: int| 0 <= i < x.len() ==> x[i] != '[' && x[i] != ']',
    ensures
        scan(t, k).in_blob,
        !scan(t, k).stopped,
        !scan(t, k).seen_header,
        scan(t, k).thread_name_start == 0,
        scan(t, k).fwd_start == 0,
        scan(t, k).fwd_end == 0,
        scan(t, k).last_blob_end == 0,
    decreases k,
{
    if k > 1 {
        lemma_scan_tag(t, x, (k - 1) as nat);
        assert(t[k - 1] == x[k - 2]);
    } else {
        assert(scan(t, 0) == scan_init());
    }
}

/// A leading tag `[x]` (such as a mailing-list name, `[PATCH]`,
/// `[SECURITY: CVE-2024-1234]`, even `[fwd: ...]`), where `x` holds no
/// bracket, followed by text `y` without `[`, leaves the thread name of `y`
/// as it is, where that name is not empty.
pub proof fn lemma_tag_then_text(x: Seq<char>, y: Seq<char>)
    requires
        x.len() + 2 + y.len() <= usize::MAX,
        forall|i: int| 0 <= i < x.len() ==> x[i] != '[' && x[i] != ']',
        forall|i: int| 0 <= i < y.len() ==> y[i] != '[',
        thread_name_span(y).0 < thread_name_span(y).1,
    ensures
        thread_name_span(seq!['['] + x + seq![']'] + y) == shift(
            x.len() + 2int,
            thread_name_span(y),
        ),
{
    let t = seq!['['] + x + seq![']'] + y;
    let off = (x.len() + 2) as nat;
    let n = t.len();
    assert(t.subrange(1, x.len() + 1int) =~= x);
    lemma_scan_tag(t, x, (x.len() + 1) as nat);
    assert(t[x.len() + 1int] == ']');
    assert(t.subrange(off as int, n as int) =~= y);
    lemma_span_after_rest(t, y, off);
    lemma_scan_sim(t, y, off, y.len());
    lemma_scan_inv(t, off);
    assert(y.subrange(0, y.len() as int) =~= y);
    let fs = scan(y, y.len());
    if fs.thread_name_start == 0 {
        assert(pick_span(y, fs) == shift(0, trim_span(y.subrange(0, y.len() as int))));
    }
}

/// A leading tag `[x]`, whitespace (other than brackets) and text `s`
/// without `[`, as in `"[list] hello"`: the thread name is that of `s`, where
/// that name is not empty.
pub proof fn lemma_tag_then_spaced_text(x: Seq<char>, sp: Seq<char>, s: Seq<char>)
    requires
        x.len() + 2 + sp.len() + s.len() <= usize::MAX,
        forall|i: int| 0 <= i < x.len() ==> x[i] != '[' && x[i] != ']',
        forall|i: int|
            0 <= i < sp.len() ==> is_white_space(sp[i]) && sp[i] != '[' && sp[i] != ':' && sp[i]
                != '(' && sp[i] != ')',
        forall|i: int| 0 <= i < s.len() ==> s[i] != '[',
        thread_name_of(s).len() > 0,
    ensures
        thread_name_of(seq!['['] + x + seq![']'] + sp + s) == thread_name_of(s),
{
    let y = sp + s;
    let t = seq!['['] + x + seq![']'] + sp + s;
    assert(t =~= seq!['['] + x + seq![']'] + y);
    assert forall|i: int| 0 <= i < y.len() implies y[i] != '[' by {
        if i >= sp.len() {
            assert(y[i] == s[i - sp.len()]);
        }
    }
    lemma_leading_whitespace_ignored(sp, s);
    lemma_thread_name_span_bounds(y);
    lemma_tag_then_text(x, y);
    let (a, b) = thread_name_span(y);
    let off = x.len() + 2;
    assert(t.subrange(a + off, b + off) =~= y.subrange(a, b));
}

/// Reading `[w` from position `q`, where the scan is between tokens and `w`
/// is a word without whitespace, `[`, `]` or `:`: one token, inside a blob.
proof fn lemma_scan_blob_word(t: Seq<char>, w: Seq<char>, q: nat, k: nat)
    requires
        2 <= k <= w.len() + 1,
        q + w.len() + 1 <= t.len() <= usize::MAX,
        t[q as int] == '[',
        t.subrange(q + 1int, q + w.len() + 1int) == w,
        forall|i: int|
            0 <= i < w.len() ==> w[i] != '[' && w[i] != ']' && w[i] != ':' && !is_white_space(
                w[i],
            ),
        scan_between(scan(t, q)),
    ensures
        scan(t, q + k) == (ScanState {
            in_blob: true,
            token_found: true,
            token_start: (q + 1) as usize,
            token_end: 0,
            ..scan(t, q)
        }),
    decreases k,
{
    assert(t[q + k - 1] == w[k - 2]);
    if k > 2 {
        lemma_scan_blob_word(t, w, q, (k - 1) as nat);
    } else {
        assert(scan(t, q + 1) == (ScanState { in_blob: true, ..scan(t, q) }));
    }
}

/// Reading the text `s` (without `[`, `]` or `:`) of a forward blob that
/// starts at `o`: the first character that is not whitespace opens the one
/// token of the text; nothing else changes.
proof fn lemma_scan_fwd_text(t: Seq<char>, s: Seq<char>, o: nat, k: nat)
    requires
        o >= 1,
        k <= s.len(),
        o + s.len() <= t.len() <= usize::MAX,
        t.subrange(o as int, (o + s.len()) as int) == s,
        forall|i: int| 0 <= i < s.len() ==> s[i] != '[' && s[i] != ']' && s[i] != ':',
        scan(t, o).in_blob,
        scan(t, o).seen_blob_header,
        !scan(t, o).token_found,
        !scan(t, o).in_blob_ignore,
        !scan(t, o).stopped,
        !scan(t, o).seen_header,
    ensures
        ({
            let st = scan(t, o + k);
            let st0 = scan(t, o);
            &&& st.in_blob && st.seen_blob_header && !st.in_blob_ignore && !st.stopped
            &&& !st.seen_header
            &&& st.thread_name_start == st0.thread_name_start
            &&& st.fwd_start == st0.fwd_start && st.fwd_end == st0.fwd_end
            &&& st.last_blob_end == st0.last_blob_end
            &&& !st.token_found ==> forall|i: int| 0 <= i < k ==> is_white_space(s[i])
            &&& st.token_found ==> {
                &&& o <= st.token_start < o + k
                &&& !is_white_space(s[st.token_start - o])
                &&& forall|i: int| 0 <= i < st.token_start - o ==> is_white_space(s[i])
            }
        }),
    decreases k,
{
    if k > 0 {
        lemma_scan_fwd_text(t, s, o, (k - 1) as nat);
        let c = s[k - 1];
        assert(t[o + k - 1] == c);
        assert(c != '[' && c != ']' && c != ':');
        let prev = scan(t, (o + k - 1) as nat);
        let st = scan(t, o + k);
        assert(st == scan_step(t, prev, o + k - 1));
        if is_white_space(c) {
            assert(st.token_found == prev.token_found && st.token_start == prev.token_start);
            if !st.token_found {
                assert forall|i: int| 0 <= i < k implies is_white_space(s[i]) by {
                    if i < k - 1 {
                    }
                }
            }
        } else if !prev.token_found {
            assert(st.token_start == o + k - 1);
        } else {
            assert(st == prev);
        }
    }
}

/// A forward blob `[w: s]` ending the text at position `q`, where the scan
/// is between tokens: the thread name is what `trim_trailing_fwd` keeps of
/// `s`, where that is not empty.
proof fn lemma_fwd_blob_at(t: Seq<char>, q: nat, w: Seq<char>, s: Seq<char>)
    requires
        w.len() > 0,
        q + w.len() + s.len() + 3 == t.len() <= usize::MAX,
        t.subrange(q as int, t.len() as int) == seq!['['] + w + seq![':'] + s + seq![']'],
        scan_between(scan(t, q)),
        forall|i: int|
            0 <= i < w.len() ==> w[i] != '[' && w[i] != ']' && w[i] != ':' && !is_white_space(
                w[i],
            ),
        is_forward_word(lowercase(w)),
        forall|i: int| 0 <= i < s.len() ==> s[i] != '[' && s[i] != ']' && s[i] != ':',
        forall|i: int| 0 <= i < s.len() && is_white_space(s[i]) ==> s[i] != '(' && s[i] != ')',
        trim_span(s).0 < trim_span(s).1,
    ensures
        thread_name_of(t) == s.subrange(trim_span(s).0, trim_span(s).1),
{
    let b = seq!['['] + w + seq![':'] + s + seq![']'];
    let n = t.len();
    let o = (q + w.len() + 2) as nat;
    assert forall|i: int| 0 <= i < b.len() implies t[q + i] == b[i] by {
        assert(t.subrange(q as int, n as int)[i] == b[i]);
    }
    assert(t[q as int] == b[0]);
    assert(t.subrange(q + 1int, q + w.len() + 1int) =~= w) by {
        assert forall|i: int| 0 <= i < w.len() implies t[q + 1 + i] == w[i] by {
            assert(t[q + (1 + i)] == b[1 + i]);
        }
    }
    lemma_scan_blob_word(t, w, q, (w.len() + 1) as nat);
    assert(t[q + w.len() + 1int] == b[w.len() + 1int]);
    assert(t.subrange(q + 1int, q + w.len() + 1int) =~= w);
    lemma_scan_inv(t, q);
    let p = scan(t, q);
    let st1 = scan(t, o);
    assert(st1 == (ScanState {
        in_blob: true,
        token_start: (q + 1) as usize,
        token_end: (q + w.len() + 1) as usize,
        seen_blob_header: true,
        token_found: false,
        ..p
    }));
    assert(t.subrange(o as int, (o + s.len()) as int) =~= s) by {
        assert forall|i: int| 0 <= i < s.len() implies t[o + i] == s[i] by {
            assert(t[q + (w.len() + 2 + i)] == b[w.len() + 2 + i]);
        }
    }
    lemma_scan_fwd_text(t, s, o, s.len());
    let st = scan(t, o + s.len());
    lemma_trim_span_bounds(s);
    if !st.token_found {
        assert forall|i: int| 0 <= i < s.len() implies s[i] != '(' && s[i] != ')' by {}
        lemma_trim_without_parentheses(s);
        assert(false);
    }
    let j = st.token_start - o;
    assert(t[n - 1] == b[b.len() - 1]);
    let fin = scan(t, n as nat);
    assert(fin.fwd_start == st.token_start && fin.fwd_end == n - 1);
    assert(fin.last_blob_end == n && fin.thread_name_start == p.thread_name_start);
    assert(p.thread_name_start <= q);
    let r = s.subrange(j, s.len() as int);
    assert(t.subrange(n as int, n as int) =~= Seq::<char>::empty());
    assert(trim_span(Seq::<char>::empty()) == (0int, 0int));
    assert(t.subrange(st.token_start as int, n - 1) =~= r) by {
        assert forall|i: int| 0 <= i < r.len() implies t[st.token_start + i] == r[i] by {
            assert(t[o + (j + i)] == s[j + i]);
        }
    }
    lemma_trim_skips_leading_whitespace(s, j);
    lemma_trim_span_bounds(r);
    let (a, c) = trim_span(r);
    assert(t.subrange(st.token_start + a, st.token_start + c) =~= r.subrange(a, c));
}

/// A forward blob `[w: s]` that makes up the whole subject, with `w` a
/// forward marker once lowercased (without whitespace, `[`, `]` or `:`) and
/// `s` without `[`, `]` or `:`: the thread name is what `trim_trailing_fwd`
/// keeps of `s`, where that is not empty. (The whitespace in `s` is taken to
/// hold no brackets, as no whitespace does.)
pub proof fn lemma_fwd_blob(w: Seq<char>, s: Seq<char>)
    requires
        w.len() > 0,
        w.len() + s.len() + 3 <= usize::MAX,
        forall|i: int|
            0 <= i < w.len() ==> w[i] != '[' && w[i] != ']' && w[i] != ':' && !is_white_space(
                w[i],
            ),
        is_forward_word(lowercase(w)),
        forall|i: int| 0 <= i < s.len() ==> s[i] != '[' && s[i] != ']' && s[i] != ':',
        forall|i: int| 0 <= i < s.len() && is_white_space(s[i]) ==> s[i] != '(' && s[i] != ')',
        trim_span(s).0 < trim_span(s).1,
    ensures
        thread_name_of(seq!['['] + w + seq![':'] + s + seq![']']) == s.subrange(
            trim_span(s).0,
            trim_span(s).1,
        ),
{
    let t = seq!['['] + w + seq![':'] + s + seq![']'];
    assert(t.subrange(0, t.len() as int) =~= t);
    assert(scan(t, 0) == scan_init());
    lemma_fwd_blob_at(t, 0, w, s);
}

/// Whitespace other than `[` and `:`, read between tokens, changes nothing
/// that matters.
proof fn lemma_scan_between_spaces(t: Seq<char>, p: nat, k: nat)
    requires
        p <= k <= t.len(),
        scan_between(scan(t, p)),
        forall|i: int| p <= i < k ==> is_white_space(t[i]) && t[i] != '[' && t[i] != ':',
    ensures
        scan_between(scan(t, k)),
        scan(t, k).thread_name_start == scan(t, p).thread_name_start,
        scan(t, k).fwd_start == scan(t, p).fwd_start,
        scan(t, k).fwd_end == scan(t, p).fwd_end,
        scan(t, k).last_blob_end == scan(t, p).last_blob_end,
    decreases k - p,
{
    if p < k {
        lemma_scan_between_spaces(t, p, (k - 1) as nat);
        assert(is_white_space(t[k - 1]) && t[k - 1] != '[' && t[k - 1] != ':');
    }
}

/// A forward blob `[w: s]` ending the subject is taken whatever tag `[x]`
/// (`x` without brackets) and whitespace stand before it, as in
/// `"[users] [Fwd: Meeting moved to Friday]"`: the thread name is what
/// `trim_trailing_fwd` keeps of `s`, where that is not empty.
pub proof fn lemma_tag_then_fwd_blob(x: Seq<char>, sp: Seq<char>, w: Seq<char>, s: Seq<char>)
    requires
        x.len() + 2 + sp.len() + w.len() + s.len() + 3 <= usize::MAX,
        forall|i: int| 0 <= i < x.len() ==> x[i] != '[' && x[i] != ']',
        forall|i: int| 0 <= i < sp.len() ==> is_white_space(sp[i]) && sp[i] != '[' && sp[i] != ':',
        w.len() > 0,
        forall|i: int|
            0 <= i < w.len() ==> w[i] != '[' && w[i] != ']' && w[i] != ':' && !is_white_space(
                w[i],
            ),
        is_forward_word(lowercase(w)),
        forall|i: int| 0 <= i < s.len() ==> s[i] != '[' && s[i] != ']' && s[i] != ':',
        forall|i: int| 0 <= i < s.len() && is_white_space(s[i]) ==> s[i] != '(' && s[i] != ')',
        trim_span(s).0 < trim_span(s).1,
    ensures
        thread_name_of(
            seq!['['] + x + seq![']'] + sp + seq!['['] + w + seq![':'] + s + seq![']'],
        ) == s.subrange(trim_span(s).0, trim_span(s).1),
{
    let b = seq!['['] + w + seq![':'] + s + seq![']'];
    let t = seq!['['] + x + seq![']'] + sp + b;
    assert(t =~= seq!['['] + x + seq![']'] + sp + seq!['['] + w + seq![':'] + s + seq![']']);
    let off = (x.len() + 2) as nat;
    let q = (off + sp.len()) as nat;
    assert(t.subrange(1, x.len() + 1int) =~= x);
    lemma_scan_tag(t, x, (x.len() + 1) as nat);
    assert(t[x.len() + 1int] == ']');
    assert forall|i: int| off <= i < q implies is_white_space(t[i]) && t[i] != '[' && t[i]
        != ':' by {
        assert(t[i] == sp[i - off]);
    }
    lemma_scan_between_spaces(t, off, q);
    assert(t.subrange(q as int, t.len() as int) =~= b);
    lemma_fwd_blob_at(t, q, w, s);
}

/// A forward blob `[w: s]` ending the subject is taken after a marker and a
/// colon, as in `"Re: [Fwd: hello]"`: the thread name is what
/// `trim_trailing_fwd` keeps of `s`, where that is not empty.
pub proof fn lemma_marker_then_fwd_blob(p: Seq<char>, sp: Seq<char>, w: Seq<char>, s: Seq<char>)
    requires
        p.len() > 0,
        p.len() + 1 + sp.len() + w.len() + s.len() + 3 <= usize::MAX,
        forall|i: int| 0 <= i < p.len() ==> p[i] != '[' && p[i] != ':' && !is_white_space(p[i]),
        marker_accepted(p, sp + seq!['['] + w + seq![':'] + s + seq![']']),
        forall|i: int| 0 <= i < sp.len() ==> is_white_space(sp[i]) && sp[i] != '[' && sp[i] != ':',
        w.len() > 0,
        forall|i: int|
            0 <= i < w.len() ==> w[i] != '[' && w[i] != ']' && w[i] != ':' && !is_white_space(
                w[i],
            ),
        is_forward_word(lowercase(w)),
        forall|i: int| 0 <= i < s.len() ==> s[i] != '[' && s[i] != ']' && s[i] != ':',
        forall|i: int| 0 <= i < s.len() && is_white_space(s[i]) ==> s[i] != '(' && s[i] != ')',
        trim_span(s).0 < trim_span(s).1,
    ensures
        thread_name_of(p + seq![':'] + sp + seq!['['] + w + seq![':'] + s + seq![']'])
            == s.subrange(trim_span(s).0, trim_span(s).1),
{
    let b = seq!['['] + w + seq![':'] + s + seq![']'];
    let y = sp + b;
    let t = p + seq![':'] + y;
    assert(t =~= p + seq![':'] + sp + seq!['['] + w + seq![':'] + s + seq![']']);
    let k = p.len();
    let n = t.len();
    assert(p =~= t.subrange(0, k as int));
    lemma_scan_marker(t, p, k);
    assert(t.subrange(0, k - 1) =~= p.drop_last());
    if k == 1 {
        assert(p.drop_last() =~= Seq::<char>::empty());
        assert(encode_utf8(Seq::<char>::empty()) =~= Seq::<u8>::empty());
    }
    assert(t[k as int] == ':');
    if k + 3 <= n {
        assert(t[k + 1int] == y[0] && t[k + 2int] == y[1]);
    }
    assert(t.subrange(0, k as int) =~= p);
    let off = (k + 1) as nat;
    let q = (off + sp.len()) as nat;
    assert(scan_between(scan(t, off)));
    assert forall|i: int| off <= i < q implies is_white_space(t[i]) && t[i] != '[' && t[i]
        != ':' by {
        assert(t[i] == sp[i - off]);
    }
    lemma_scan_between_spaces(t, off, q);
    assert(t.subrange(q as int, n as int) =~= b);
    lemma_fwd_blob_at(t, q, w, s);
}

/// From the scan at rest at `a`, the characters of a word without
/// whitespace, `[` or `:` form one token, until more than `MAX_PREFIX_LEN`
/// bytes stand before the character read.
proof fn lemma_scan_word_at(t: Seq<char>, a: nat, m: Seq<char>, k: nat)
    requires
        1 <= k <= m.len(),
        a + m.len() <= t.len() <= usize::MAX,
        t.subrange(a as int, (a + m.len()) as int) == m,
        forall|i: int| 0 <= i < m.len() ==> m[i] != '[' && m[i] != ':' && !is_white_space(m[i]),
        scan_between(scan(t, a)),
    ensures
        scan(t, a + k) == (ScanState {
            token_found: true,
            token_start: a as usize,
            token_end: 0,
            stopped: k >= 2 && utf8_len(t.subrange(a as int, a + k - 1)) > MAX_PREFIX_LEN,
            ..scan(t, a)
        }),
    decreases k,
{
    let c = t[a + k - 1];
    assert(c == m[k - 1]);
    assert(c != '[' && c != ':' && !is_white_space(c));
    if k > 1 {
        lemma_scan_word_at(t, a, m, (k - 1) as nat);
        if k > 2 {
            lemma_utf8_len_monotone(t, a as int, a + k - 2, a + k - 1);
        }
    }
}

/// `trim_end_index` passes over a run of whitespace to the character before it.
proof fn lemma_trim_end_index_spaces(t: Seq<char>, ts: int, b: int, e: int)
    requires
        ts < b <= e <= t.len(),
        !is_white_space(t[b - 1]),
        forall|i: int| b <= i < e ==> is_white_space(t[i]),
    ensures
        trim_end_index(t, ts, e) == b,
    decreases e - b,
{
    if e > b {
        lemma_trim_end_index_spaces(t, ts, b, e - 1);
    }
}

/// A word before `[` is taken for a marker: at most `MAX_PREFIX_LEN` bytes
/// stand before its last character, and it is a known marker once
/// lowercased, or, written right before the `[`, one to four alphabetic
/// characters.
pub open spec fn bracket_marker_accepted(p: Seq<char>, sp2: Seq<char>) -> bool {
    &&& utf8_len(p.drop_last()) <= MAX_PREFIX_LEN
    &&& is_known_word(lowercase(p)) || (sp2.len() == 0 && is_generic_word(lowercase(p)))
}

/// A word that is not taken for a marker, followed by optional whitespace
/// and a `[`, as in `"Project [Alpha]: status report"`, ends the search for
/// markers before anything is removed: only trailing `(fwd)` markers and
/// surrounding whitespace go.
pub proof fn lemma_word_before_bracket(
    sp: Seq<char>,
    p: Seq<char>,
    sp2: Seq<char>,
    rest: Seq<char>,
)
    requires
        sp.len() + p.len() + sp2.len() + 1 + rest.len() <= usize::MAX,
        forall|i: int| 0 <= i < sp.len() ==> is_white_space(sp[i]) && sp[i] != '[' && sp[i] != ':',
        p.len() > 0,
        forall|i: int| 0 <= i < p.len() ==> p[i] != '[' && p[i] != ':' && !is_white_space(p[i]),
        forall|i: int|
            0 <= i < sp2.len() ==> is_white_space(sp2[i]) && sp2[i] != '[' && sp2[i] != ':',
        !bracket_marker_accepted(p, sp2),
    ensures
        thread_name_span(sp + p + sp2 + seq!['['] + rest) == trim_span(
            sp + p + sp2 + seq!['['] + rest,
        ),
{
    let t = sp + p + sp2 + seq!['['] + rest;
    let n = t.len();
    let a = sp.len();
    let e = a + p.len();
    let sep = e + sp2.len();
    assert forall|i: int| 0 <= i < a implies is_white_space(t[i]) && t[i] != '[' && t[i] != ':' by {
        assert(t[i] == sp[i]);
    }
    lemma_scan_leading_spaces(t, a);
    assert(t.subrange(a as int, e as int) =~= p);
    lemma_scan_word_at(t, a, p, p.len());
    assert(t.subrange(a as int, e - 1) =~= p.drop_last());
    if p.len() == 1 {
        assert(p.drop_last() =~= Seq::<char>::empty());
        assert(encode_utf8(Seq::<char>::empty()) =~= Seq::<u8>::empty());
    }
    let st = scan(t, e as nat);
    if st.stopped {
        lemma_scan_stopped(t, e as nat, n);
    } else {
        assert forall|i: int| e <= i < sep implies is_white_space(t[i]) && t[i] != '[' && t[i]
            != ':' by {
            assert(t[i] == sp2[i - e]);
        }
        lemma_scan_token_spaces(t, e as nat, sep as nat);
        assert(t[sep as int] == '[');
        assert(t[e - 1] == p[p.len() - 1]);
        if sp2.len() > 0 {
            lemma_trim_end_index_spaces(t, a as int, e as int, sep as int);
        }
        lemma_scan_stopped(t, (sep + 1) as nat, n);
    }
    assert(t.subrange(0, n as int) =~= t);
}

/// Inside a token outside any blob, whitespace other than `[` and `:` only
/// ends the token at its first character.
proof fn lemma_scan_token_spaces(t: Seq<char>, e: nat, k: nat)
    requires
        e <= k <= t.len() <= usize::MAX,
        scan(t, e).token_found,
        !scan(t, e).in_blob,
        !scan(t, e).stopped,
        scan(t, e).token_end == 0,
        forall|i: int| e <= i < k ==> is_white_space(t[i]) && t[i] != '[' && t[i] != ':',
    ensures
        scan(t, k) == (ScanState {
            token_end: if k == e {
                0
            } else {
                e as usize
            },
            ..scan(t, e)
        }),
    decreases k - e,
{
    if e < k {
        lemma_scan_token_spaces(t, e, (k - 1) as nat);
        assert(is_white_space(t[k - 1]) && t[k - 1] != '[' && t[k - 1] != ':');
    }
}

/// Reading a run without `[` or `:` that starts at `a`, where the scan is
/// at rest with nothing accepted: one token from `a`, or a stop.
proof fn lemma_scan_run(t: Seq<char>, a: nat, k: nat)
    requires
        a < k <= t.len() <= usize::MAX,
        scan_at_rest(scan(t, a)),
        scan(t, a).thread_name_start == 0,
        scan(t, a).last_blob_end == 0,
        !is_white_space(t[a as int]),
        forall|i: int| a <= i < k ==> t[i] != '[' && t[i] != ':',
    ensures
        ({
            let st = scan(t, k);
            &&& st.thread_name_start == 0 && st.last_blob_end == 0 && st.fwd_start == 0
            &&& !st.in_blob && !st.seen_header
            &&& st.stopped || (st.token_found && st.token_start == a)
        }),
    decreases k - a,
{
    assert(t[k - 1] != '[' && t[k - 1] != ':');
    if k > a + 1 {
        lemma_scan_run(t, a, (k - 1) as nat);
    }
}

/// Nothing that runs, from the first character that is not whitespace, over
/// more than `MAX_PREFIX_LEN` bytes before a character that is not
/// whitespace, without `[` or `:`, is taken for a marker, whitespace in it or
/// not (as in `"I have a question about the quarterly report: section 3"`):
/// only trailing `(fwd)` markers and surrounding whitespace go.
pub proof fn lemma_long_run_not_marker(t: Seq<char>, a: int, l: int)
    requires
        t.len() <= usize::MAX,
        0 <= a < l < t.len(),
        forall|i: int| 0 <= i < a ==> is_white_space(t[i]) && t[i] != '[' && t[i] != ':',
        forall|i: int| a <= i <= l ==> t[i] != '[' && t[i] != ':',
        !is_white_space(t[a]),
        !is_white_space(t[l]),
        utf8_len(t.subrange(a, l)) > MAX_PREFIX_LEN,
    ensures
        thread_name_span(t) == trim_span(t),
{
    lemma_scan_leading_spaces(t, a as nat);
    lemma_scan_run(t, a as nat, l as nat);
    assert(t[l] != '[' && t[l] != ':');
    lemma_scan_stopped(t, (l + 1) as nat, t.len());
    assert(t.subrange(0, t.len() as int) =~= t);
}

} // verus!
