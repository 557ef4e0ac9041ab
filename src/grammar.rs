//! Character classes and the lexical productions of an image reference,
//! each as a spec predicate over characters and a scanner proved against it.
use vstd::prelude::*;

verus! {

broadcast use vstd::string::group_string_axioms;

pub open spec fn is_lower_alpha(c: char) -> bool {
    'a' <= c && c <= 'z'
}

pub open spec fn is_digit(c: char) -> bool {
    '0' <= c && c <= '9'
}

/// `[a-z0-9]`
pub open spec fn is_lower_alnum(c: char) -> bool {
    is_lower_alpha(c) || is_digit(c)
}

/// `[._-]`, the separators allowed between alphanumeric runs.
pub open spec fn is_separator(c: char) -> bool {
    c == '.' || c == '_' || c == '-'
}

/// `[A-Za-z0-9._-]`
pub open spec fn is_tag_char(c: char) -> bool {
    is_lower_alnum(c) || ('A' <= c && c <= 'Z') || is_separator(c)
}

/// `[a-fA-F0-9]`
pub open spec fn is_hex_char(c: char) -> bool {
    is_digit(c) || ('a' <= c && c <= 'f') || ('A' <= c && c <= 'F')
}

/// A character that may appear in a segment, or in a name when `slash` holds.
pub open spec fn is_path_char(c: char, slash: bool) -> bool {
    is_lower_alnum(c) || is_separator(c) || (slash && c == '/')
}

/// Alphanumeric runs joined by single separators (`/` among them when
/// `slash` holds): non-empty, alphanumeric at both ends, and no two
/// separators side by side.
pub open spec fn is_joined_runs(s: Seq<char>, slash: bool) -> bool {
    &&& s.len() > 0
    &&& is_lower_alnum(s[0])
    &&& is_lower_alnum(s[s.len() - 1])
    &&& forall|i: int| 0 <= i < s.len() ==> is_path_char(#[trigger] s[i], slash)
    &&& forall|i: int|
        0 <= i < s.len() - 1 ==> is_lower_alnum(#[trigger] s[i]) || is_lower_alnum(s[i + 1])
}

/// SEGMENT: `[a-z0-9]+(?:[._-][a-z0-9]+)*`
pub open spec fn is_segment(s: Seq<char>) -> bool {
    is_joined_runs(s, false)
}

/// NAME: segments joined by `/`.
pub open spec fn is_name(s: Seq<char>) -> bool {
    is_joined_runs(s, true)
}

/// The last label of a host: `[a-z]{2,}`.
pub open spec fn is_top_label(s: Seq<char>) -> bool {
    s.len() >= 2 && forall|i: int| 0 <= i < s.len() ==> is_lower_alpha(#[trigger] s[i])
}

/// PORT: `[0-9]+`
pub open spec fn is_port(s: Seq<char>) -> bool {
    s.len() > 0 && forall|i: int| 0 <= i < s.len() ==> is_digit(#[trigger] s[i])
}

/// A host: a segment, a dot, and a top label.
pub open spec fn is_host(s: Seq<char>) -> bool {
    exists|k: int|
        0 <= k < s.len() && #[trigger] is_segment(s.subrange(0, k)) && s[k] == '.'
            && is_top_label(s.subrange(k + 1, s.len() as int))
}

/// REGISTRY: a host, optionally followed by `:` and a port.
pub open spec fn is_registry(s: Seq<char>) -> bool {
    is_host(s) || exists|k: int|
        0 <= k < s.len() && #[trigger] is_host(s.subrange(0, k)) && s[k] == ':'
            && is_port(s.subrange(k + 1, s.len() as int))
}

/// TAG: `[A-Za-z0-9._-]+`
pub open spec fn is_tag(s: Seq<char>) -> bool {
    s.len() > 0 && forall|i: int| 0 <= i < s.len() ==> is_tag_char(#[trigger] s[i])
}

/// DIGEST: `[a-z0-9]+:[a-fA-F0-9]{64}`. The algorithm holds no `:`, so the
/// colon is the 65th character from the end.
pub open spec fn is_digest(s: Seq<char>) -> bool {
    &&& s.len() > 65
    &&& s[s.len() - 65] == ':'
    &&& forall|i: int| 0 <= i < s.len() - 65 ==> is_lower_alnum(#[trigger] s[i])
    &&& forall|i: int| s.len() - 65 < i < s.len() ==> is_hex_char(#[trigger] s[i])
}

/// Every character of a host is alphanumeric or a separator.
pub proof fn lemma_host_chars(s: Seq<char>)
    requires
        is_host(s),
    ensures
        forall|i: int| 0 <= i < s.len() ==> is_path_char(#[trigger] s[i], false),
{
    let k = choose|k: int|
        0 <= k < s.len() && #[trigger] is_segment(s.subrange(0, k)) && s[k] == '.'
            && is_top_label(s.subrange(k + 1, s.len() as int));
    assert forall|i: int| 0 <= i < s.len() implies is_path_char(#[trigger] s[i], false) by {
        if i < k {
            assert(s.subrange(0, k)[i] == s[i]);
        } else if i > k {
            assert(s.subrange(k + 1, s.len() as int)[i - k - 1] == s[i]);
        }
    }
}

/// A registry holds no `/`, `@` or non-ASCII character.
pub proof fn lemma_registry_chars(s: Seq<char>)
    requires
        is_registry(s),
    ensures
        forall|i: int|
            0 <= i < s.len() ==> #[trigger] s[i] != '/' && s[i] != '@' && '\0' <= s[i] <= '\u{7f}',
{
    if is_host(s) {
        lemma_host_chars(s);
        assert forall|i: int| 0 <= i < s.len() implies #[trigger] s[i] != '/' && s[i] != '@'
            && '\0' <= s[i] <= '\u{7f}' by {
            assert(is_path_char(s[i], false));
        }
    } else {
        let k = choose|k: int|
            0 <= k < s.len() && #[trigger] is_host(s.subrange(0, k)) && s[k] == ':'
                && is_port(s.subrange(k + 1, s.len() as int));
        lemma_host_chars(s.subrange(0, k));
        assert forall|i: int| 0 <= i < s.len() implies #[trigger] s[i] != '/' && s[i] != '@'
            && '\0' <= s[i] <= '\u{7f}' by {
            if i < k {
                assert(s.subrange(0, k)[i] == s[i]);
                assert(is_path_char(s.subrange(0, k)[i], false));
            } else if i > k {
                assert(s.subrange(k + 1, s.len() as int)[i - k - 1] == s[i]);
            }
        }
    }
}

/// ASCII code of `.`, which ends the host before its top label.
pub const DOT: u8 = 46;

/// ASCII code of `/`, which ends the registry and joins name segments.
pub const SLASH: u8 = 47;

/// ASCII code of `:`, which opens a port or a tag.
pub const COLON: u8 = 58;

/// ASCII code of `@`, which opens the digest.
pub const AT: u8 = 64;

/// `is_lower_alpha` of the character at `i`.
fn lower_alpha_at(t: &str, i: usize) -> (r: bool)
    requires
        t.is_ascii(),
        i < t@.len(),
    ensures
        r == is_lower_alpha(t@[i as int]),
{
    let b = t.get_ascii(i);
    97 <= b && b <= 122
}

/// `is_digit` of the character at `i`.
fn digit_at(t: &str, i: usize) -> (r: bool)
    requires
        t.is_ascii(),
        i < t@.len(),
    ensures
        r == is_digit(t@[i as int]),
{
    let b = t.get_ascii(i);
    48 <= b && b <= 57
}

/// `is_lower_alnum` of the character at `i`.
fn lower_alnum_at(t: &str, i: usize) -> (r: bool)
    requires
        t.is_ascii(),
        i < t@.len(),
    ensures
        r == is_lower_alnum(t@[i as int]),
{
    let b = t.get_ascii(i);
    (97 <= b && b <= 122) || (48 <= b && b <= 57)
}

/// `is_separator` of the character at `i`.
fn separator_at(t: &str, i: usize) -> (r: bool)
    requires
        t.is_ascii(),
        i < t@.len(),
    ensures
        r == is_separator(t@[i as int]),
{
    let b = t.get_ascii(i);
    b == DOT || b == 95 || b == 45
}

/// `is_tag_char` of the character at `i`.
fn tag_char_at(t: &str, i: usize) -> (r: bool)
    requires
        t.is_ascii(),
        i < t@.len(),
    ensures
        r == is_tag_char(t@[i as int]),
{
    let b = t.get_ascii(i);
    (97 <= b && b <= 122) || (48 <= b && b <= 57) || (65 <= b && b <= 90) || b == DOT || b == 95 || b == 45
}

/// `is_hex_char` of the character at `i`.
fn hex_at(t: &str, i: usize) -> (r: bool)
    requires
        t.is_ascii(),
        i < t@.len(),
    ensures
        r == is_hex_char(t@[i as int]),
{
    let b = t.get_ascii(i);
    (48 <= b && b <= 57) || (97 <= b && b <= 102) || (65 <= b && b <= 70)
}

/// The length of an ASCII string, which counts its bytes and its characters alike.
pub(crate) fn ascii_len(t: &str) -> (n: usize)
    requires
        t.is_ascii(),
    ensures
        n == t@.len(),
{
    proof {
        vstd::string::is_ascii_spec_bytes(t);
    }
    t.as_bytes().len()
}

/// The first index at or after `lo` that holds `x` or `y`, or the length of
/// `t` when there is none.
pub(crate) fn find_either(t: &str, lo: usize, x: u8, y: u8) -> (r: usize)
    requires
        t.is_ascii(),
        lo <= t@.len(),
    ensures
        lo <= r <= t@.len(),
        forall|j: int| lo <= j < r ==> #[trigger] t@[j] as u8 != x && t@[j] as u8 != y,
        r < t@.len() ==> t@[r as int] as u8 == x || t@[r as int] as u8 == y,
{
    let n = ascii_len(t);
    let mut i: usize = lo;
    while i < n
        invariant
            t.is_ascii(),
            n == t@.len(),
            lo <= i <= n,
            forall|j: int| lo <= j < i ==> #[trigger] t@[j] as u8 != x && t@[j] as u8 != y,
        decreases n - i,
    {
        let b = t.get_ascii(i);
        if b == x || b == y {
            return i;
        }
        i = i + 1;
    }
    i
}

/// Decides `is_joined_runs(t@, slash)`.
pub(crate) fn check_joined_runs(t: &str, slash: bool) -> (r: bool)
    requires
        t.is_ascii(),
    ensures
        r == is_joined_runs(t@, slash),
{
    let n = ascii_len(t);
    if n == 0 {
        return false;
    }
    let mut prev_alnum = false;
    let mut i: usize = 0;
    while i < n
        invariant
            t.is_ascii(),
            n == t@.len(),
            0 <= i <= n,
            forall|j: int| 0 <= j < i ==> is_path_char(#[trigger] t@[j], slash),
            forall|j: int|
                0 <= j < i - 1 ==> is_lower_alnum(#[trigger] t@[j]) || is_lower_alnum(t@[j + 1]),
            i > 0 ==> prev_alnum == is_lower_alnum(t@[i - 1]),
            i > 0 ==> is_lower_alnum(t@[0]),
        decreases n - i,
    {
        let alnum = lower_alnum_at(t, i);
        let sep = separator_at(t, i) || (slash && t.get_ascii(i) == SLASH);
        if !alnum && !sep {
            return false;
        }
        if !alnum && (i == 0 || !prev_alnum) {
            return false;
        }
        prev_alnum = alnum;
        i = i + 1;
    }
    prev_alnum
}

/// Decides `is_tag(t@)`.
pub(crate) fn check_tag(t: &str) -> (r: bool)
    requires
        t.is_ascii(),
    ensures
        r == is_tag(t@),
{
    let n = ascii_len(t);
    if n == 0 {
        return false;
    }
    let mut i: usize = 0;
    while i < n
        invariant
            t.is_ascii(),
            n == t@.len(),
            0 <= i <= n,
            forall|j: int| 0 <= j < i ==> is_tag_char(#[trigger] t@[j]),
        decreases n - i,
    {
        if !tag_char_at(t, i) {
            return false;
        }
        i = i + 1;
    }
    true
}

/// Decides `is_digest(t@)`.
pub(crate) fn check_digest(t: &str) -> (r: bool)
    requires
        t.is_ascii(),
    ensures
        r == is_digest(t@),
{
    let n = ascii_len(t);
    if n <= 65 {
        return false;
    }
    let colon = n - 65;
    if t.get_ascii(colon) != COLON {
        return false;
    }
    let mut i: usize = 0;
    while i < n
        invariant
            t.is_ascii(),
            n == t@.len(),
            n > 65,
            colon == n - 65,
            0 <= i <= n,
            forall|j: int| 0 <= j < i && j < colon ==> is_lower_alnum(#[trigger] t@[j]),
            forall|j: int| colon < j < i ==> is_hex_char(#[trigger] t@[j]),
        decreases n - i,
    {
        if i < colon && !lower_alnum_at(t, i) {
            return false;
        }
        if i > colon && !hex_at(t, i) {
            return false;
        }
        i = i + 1;
    }
    true
}

/// Decides `is_port(t@)`.
pub(crate) fn check_port(t: &str) -> (r: bool)
    requires
        t.is_ascii(),
    ensures
        r == is_port(t@),
{
    let n = ascii_len(t);
    if n == 0 {
        return false;
    }
    let mut i: usize = 0;
    while i < n
        invariant
            t.is_ascii(),
            n == t@.len(),
            0 <= i <= n,
            forall|j: int| 0 <= j < i ==> is_digit(#[trigger] t@[j]),
        decreases n - i,
    {
        if !digit_at(t, i) {
            return false;
        }
        i = i + 1;
    }
    true
}

/// Decides `is_host(t@)`.
pub(crate) fn check_host(t: &str) -> (r: bool)
    requires
        t.is_ascii(),
    ensures
        r == is_host(t@),
{
    let n = ascii_len(t);
    let mut k: usize = n;
    while k > 0
        invariant
            t.is_ascii(),
            n == t@.len(),
            0 <= k <= n,
            forall|j: int| k <= j < n ==> is_lower_alpha(#[trigger] t@[j]),
        ensures
            0 <= k <= n,
            forall|j: int| k <= j < n ==> is_lower_alpha(#[trigger] t@[j]),
            k == 0 || !is_lower_alpha(t@[k - 1]),
        decreases k,
    {
        if !lower_alpha_at(t, k - 1) {
            break;
        }
        k = k - 1;
    }
    // Every character from `k` on is a letter; the one before it, if any, is not.
    proof {
        if is_host(t@) {
            let w = choose|w: int|
                0 <= w < t@.len() && #[trigger] is_segment(t@.subrange(0, w)) && t@[w] == '.'
                    && is_top_label(t@.subrange(w + 1, t@.len() as int));
            if w >= k {
                assert(is_lower_alpha(t@[w]));
            }
            if w < k - 1 {
                assert(t@.subrange(w + 1, t@.len() as int)[k - 1 - w - 1] == t@[k - 1]);
            }
            assert(w == k - 1);
        }
    }
    if k == 0 || n - k < 2 {
        return false;
    }
    let dot = k - 1;
    if t.get_ascii(dot) != DOT {
        return false;
    }
    let head = t.substring_ascii(0, dot);
    let ok = check_joined_runs(head, false);
    proof {
        let top = t@.subrange(k as int, n as int);
        assert forall|i: int| 0 <= i < top.len() implies is_lower_alpha(#[trigger] top[i]) by {
            assert(top[i] == t@[k + i]);
        }
        assert(is_top_label(top));
        if ok {
            assert(is_segment(t@.subrange(0, dot as int)));
        }
    }
    ok
}

/// Decides `is_registry(t@)`.
pub(crate) fn check_registry(t: &str) -> (r: bool)
    requires
        t.is_ascii(),
    ensures
        r == is_registry(t@),
{
    let n = ascii_len(t);
    let c = find_either(t, 0, COLON, COLON);
    if c == n {
        let ok = check_host(t);
        proof {
            if !ok {
                assert(!exists|k: int|
                    0 <= k < t@.len() && #[trigger] is_host(t@.subrange(0, k)) && t@[k] == ':'
                        && is_port(t@.subrange(k + 1, t@.len() as int)));
            }
        }
        return ok;
    }
    let host = t.substring_ascii(0, c);
    let port = t.substring_ascii(c + 1, n);
    let ok = check_host(host) && check_port(port);
    proof {
        if is_host(t@) {
            lemma_host_chars(t@);
            assert(is_path_char(t@[c as int], false));
        }
        if exists|k: int|
            0 <= k < t@.len() && #[trigger] is_host(t@.subrange(0, k)) && t@[k] == ':'
                && is_port(t@.subrange(k + 1, t@.len() as int)) {
            let k = choose|k: int|
                0 <= k < t@.len() && #[trigger] is_host(t@.subrange(0, k)) && t@[k] == ':'
                    && is_port(t@.subrange(k + 1, t@.len() as int));
            if k > c {
                lemma_host_chars(t@.subrange(0, k));
                assert(t@.subrange(0, k)[c as int] == t@[c as int]);
                assert(is_path_char(t@.subrange(0, k)[c as int], false));
            }
            assert(k == c);
        }
        if ok {
            assert(is_host(t@.subrange(0, c as int)));
        }
    }
    ok
}

} // verus!
