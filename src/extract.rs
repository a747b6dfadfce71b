//! Finding references in page or decoded text: the manifest URL of a stream,
//! the assignment that names the embed page, and a literal embed-page link.
//! Each search is leftmost-first: the earliest start position that admits a
//! match wins.

use vstd::prelude::*;

verus! {

/// `lit` occurs in `t` at position `i`.
pub open spec fn lit_at(t: Seq<char>, i: int, lit: Seq<char>) -> bool {
    0 <= i && i + lit.len() <= t.len() && t.subrange(i, i + lit.len()) == lit
}

/// A quote character, single or double.
pub open spec fn is_quote(c: char) -> bool {
    c == '\'' || c == '"'
}

/// A character of Unicode's `White_Space` property.
pub open spec fn is_space(c: char) -> bool {
    ('\t' <= c && c <= '\r') || c == ' ' || c == '\u{85}' || c == '\u{a0}' || c == '\u{1680}' || (
    '\u{2000}' <= c && c <= '\u{200a}') || c == '\u{2028}' || c == '\u{2029}' || c == '\u{202f}'
        || c == '\u{205f}' || c == '\u{3000}'
}

/// An ASCII letter or digit.
pub open spec fn is_ascii_alnum(c: char) -> bool {
    ('0' <= c && c <= '9') || ('a' <= c && c <= 'z') || ('A' <= c && c <= 'Z')
}

/// The first position from `i` on that ends the text or holds a quote.
pub open spec fn quote_free_end(t: Seq<char>, i: int) -> int
    decreases t.len() - i,
{
    if i < 0 || i >= t.len() || is_quote(t[i]) {
        i
    } else {
        quote_free_end(t, i + 1)
    }
}

/// The first position from `i` on that ends the text or holds a `'`.
pub open spec fn single_quote_end(t: Seq<char>, i: int) -> int
    decreases t.len() - i,
{
    if i < 0 || i >= t.len() || t[i] == '\'' {
        i
    } else {
        single_quote_end(t, i + 1)
    }
}

/// The first position from `i` on that ends the text or holds no whitespace.
pub open spec fn space_end(t: Seq<char>, i: int) -> int
    decreases t.len() - i,
{
    if i < 0 || i >= t.len() || !is_space(t[i]) {
        i
    } else {
        space_end(t, i + 1)
    }
}

/// The first position from `i` on that ends the text or holds no ASCII letter or digit.
pub open spec fn alnum_end(t: Seq<char>, i: int) -> int
    decreases t.len() - i,
{
    if i < 0 || i >= t.len() || !is_ascii_alnum(t[i]) {
        i
    } else {
        alnum_end(t, i + 1)
    }
}

/// The scheme prefix `https://`.
pub open spec fn https_prefix() -> Seq<char> {
    seq!['h', 't', 't', 'p', 's', ':', '/', '/']
}

/// The scheme prefix `http://`.
pub open spec fn http_prefix() -> Seq<char> {
    seq!['h', 't', 't', 'p', ':', '/', '/']
}

/// The manifest suffix `.m3u8`.
pub open spec fn manifest_suffix() -> Seq<char> {
    seq!['.', 'm', '3', 'u', '8']
}

/// The length of the URL scheme (`https://` or `http://`) at `s`, or 0.
pub open spec fn scheme_len(t: Seq<char>, s: int) -> int {
    if lit_at(t, s, https_prefix()) {
        8
    } else if lit_at(t, s, http_prefix()) {
        7
    } else {
        0
    }
}

/// The largest `e <= hi` such that `.m3u8` ends at `e` with at least one
/// character between `p` and it, or -1.
pub open spec fn manifest_end(t: Seq<char>, p: int, hi: int) -> int
    decreases hi - p,
{
    if hi < p + 6 {
        -1
    } else if lit_at(t, hi - 5, manifest_suffix()) {
        hi
    } else {
        manifest_end(t, p, hi - 1)
    }
}

/// Where the manifest URL that starts at `s` ends, or -1 when none starts there:
/// a scheme, then quote-free text as long as possible that ends in `.m3u8`.
pub open spec fn manifest_match_end(t: Seq<char>, s: int) -> int {
    let k = scheme_len(t, s);
    if k == 0 {
        -1
    } else {
        manifest_end(t, s + k, quote_free_end(t, s + k))
    }
}

/// The leftmost manifest URL of `t` that starts at `s` or later.
pub open spec fn manifest_from(t: Seq<char>, s: int) -> Option<Seq<char>>
    decreases t.len() - s,
{
    if s < 0 || s >= t.len() {
        None
    } else if manifest_match_end(t, s) >= 0 {
        Some(t.subrange(s, manifest_match_end(t, s)))
    } else {
        manifest_from(t, s + 1)
    }
}

/// The leftmost manifest URL of `t`: the first match of `https?://[^'"]+\.m3u8`.
pub open spec fn manifest_of(t: Seq<char>) -> Option<Seq<char>> {
    manifest_from(t, 0)
}

/// The path of the assignment `var <ws> url <ws> = <ws> '/e/...'` that starts
/// at `s`, or `None` when none starts there.
pub open spec fn assignment_at(t: Seq<char>, s: int) -> Option<Seq<char>> {
    let i1 = space_end(t, s + 3);
    let i2 = space_end(t, i1 + 3);
    let i3 = space_end(t, i2 + 1);
    let q = single_quote_end(t, i3 + 4);
    if lit_at(t, s, seq!['v', 'a', 'r']) && i1 > s + 3 && lit_at(t, i1, seq!['u', 'r', 'l'])
        && lit_at(t, i2, seq!['=']) && lit_at(t, i3, seq!['\'', '/', 'e', '/']) && q > i3 + 4 && q
        < t.len() {
        Some(t.subrange(i3 + 1, q))
    } else {
        None
    }
}

/// The path of the leftmost assignment of `t` that starts at `s` or later.
pub open spec fn assignment_from(t: Seq<char>, s: int) -> Option<Seq<char>>
    decreases t.len() - s,
{
    if s < 0 || s >= t.len() {
        None
    } else if assignment_at(t, s) is Some {
        assignment_at(t, s)
    } else {
        assignment_from(t, s + 1)
    }
}

/// The embed-page path of the leftmost match of `var\s+url\s*=\s*'(/e/[^']+)'`.
pub open spec fn assignment_of(t: Seq<char>) -> Option<Seq<char>> {
    assignment_from(t, 0)
}

/// The host's origin, `https://kwik.cx`.
pub open spec fn origin_spec() -> Seq<char> {
    seq!['h', 't', 't', 'p', 's', ':', '/', '/', 'k', 'w', 'i', 'k', '.', 'c', 'x']
}

/// Where the literal embed-page link that starts at `s` ends, or -1.
pub open spec fn link_match_end(t: Seq<char>, s: int) -> int {
    let e = alnum_end(t, s + 18);
    if lit_at(t, s, origin_spec() + seq!['/', 'e', '/']) && e > s + 18 {
        e
    } else {
        -1
    }
}

/// The leftmost literal embed-page link of `t` that starts at `s` or later.
pub open spec fn link_from(t: Seq<char>, s: int) -> Option<Seq<char>>
    decreases t.len() - s,
{
    if s < 0 || s >= t.len() {
        None
    } else if link_match_end(t, s) >= 0 {
        Some(t.subrange(s, link_match_end(t, s)))
    } else {
        link_from(t, s + 1)
    }
}

/// The leftmost match of `https://kwik\.cx/e/[a-zA-Z0-9]+` in `t`.
pub open spec fn link_of(t: Seq<char>) -> Option<Seq<char>> {
    link_from(t, 0)
}

/// The view of an optional string.
pub open spec fn opt_view(r: Option<String>) -> Option<Seq<char>> {
    match r {
        Some(s) => Some(s@),
        None => None,
    }
}

/// Relies on `regex::Regex::find` with `https?://[^'"]+\.m3u8`: the leftmost-first
/// match, where the greedy class takes the longest quote-free run that still
/// ends in `.m3u8`.
#[verifier::external_body]
fn find_manifest(text: &str) -> (r: Option<String>)
    ensures
        opt_view(r) == manifest_of(text@),
{
    let re = regex::Regex::new(r#"https?://[^'"]+\.m3u8"#).unwrap();
    re.find(text).map(|m| m.as_str().to_string())
}

/// Relies on `regex::Regex::captures` with `var\s+url\s*=\s*'(/e/[^']+)'`
/// (`\s` being Unicode white space): group 1 of the leftmost match.
#[verifier::external_body]
fn find_assignment(text: &str) -> (r: Option<String>)
    ensures
        opt_view(r) == assignment_of(text@),
{
    let re = regex::Regex::new(r#"var\s+url\s*=\s*'(/e/[^']+)'"#).unwrap();
    re.captures(text).map(|c| c[1].to_string())
}

/// Relies on `regex::Regex::find` with `https://kwik\.cx/e/[a-zA-Z0-9]+`: the
/// leftmost match, its alphanumeric run taken whole.
#[verifier::external_body]
fn find_link(text: &str) -> (r: Option<String>)
    ensures
        opt_view(r) == link_of(text@),
{
    let re = regex::Regex::new(r"https://kwik\.cx/e/[a-zA-Z0-9]+").unwrap();
    re.find(text).map(|m| m.as_str().to_string())
}

/// The stream manifest URL of `text`, if it holds one.
pub fn extract_m3u8(text: &str) -> (r: Option<String>)
    ensures
        opt_view(r) == manifest_of(text@),
{
    find_manifest(text)
}

/// The embed-page path assigned in `text`, if it holds such an assignment.
pub fn extract_embed_path(text: &str) -> (r: Option<String>)
    ensures
        opt_view(r) == assignment_of(text@),
{
    find_assignment(text)
}

/// The path of the first literal embed-page link of `text`, the origin taken off.
pub fn extract_embed_link(text: &str) -> (r: Option<String>)
    ensures
        match link_of(text@) {
            Some(m) => r matches Some(p) && p@ == m.skip(15),
            None => r is None,
        },
{
    match find_link(text) {
        Some(m) => {
            proof {
                lemma_link_shape(text@, 0);
            }
            let n = m.as_str().unicode_len();
            Some(String::from_str(m.as_str().substring_char(15, n)))
        },
        None => None,
    }
}

proof fn lemma_alnum_end_bounds(t: Seq<char>, i: int)
    requires
        0 <= i <= t.len(),
    ensures
        i <= alnum_end(t, i) <= t.len(),
    decreases t.len() - i,
{
    if i < t.len() && is_ascii_alnum(t[i]) {
        lemma_alnum_end_bounds(t, i + 1);
    }
}

proof fn lemma_link_shape(t: Seq<char>, s: int)
    ensures
        link_from(t, s) matches Some(m) ==> m.len() >= 18,
    decreases t.len() - s,
{
    if 0 <= s < t.len() {
        if link_match_end(t, s) < 0 {
            lemma_link_shape(t, s + 1);
        } else {
            lemma_alnum_end_bounds(t, s + 18);
        }
    }
}

/// `u` is a manifest URL: a scheme, at least one more character, and the
/// suffix `.m3u8`, with no quote anywhere.
pub open spec fn is_manifest_url(u: Seq<char>) -> bool {
    &&& scheme_len(u, 0) > 0
    &&& u.len() >= scheme_len(u, 0) + 6
    &&& lit_at(u, u.len() - 5, manifest_suffix())
    &&& forall|k: int| 0 <= k < u.len() ==> !is_quote(#[trigger] u[k])
}

/// Text made of whitespace and quotes alone.
pub open spec fn is_padding(w: Seq<char>) -> bool {
    forall|k: int| 0 <= k < w.len() ==> is_space(#[trigger] w[k]) || is_quote(w[k])
}

proof fn lemma_quote_free_end(t: Seq<char>, i: int, j: int)
    requires
        0 <= i <= j <= t.len(),
        forall|k: int| i <= k < j ==> !is_quote(#[trigger] t[k]),
    ensures
        j <= quote_free_end(t, i) <= t.len(),
    decreases t.len() - i,
{
    if i < t.len() && !is_quote(t[i]) {
        if i < j {
            lemma_quote_free_end(t, i + 1, j);
        } else {
            lemma_quote_free_end(t, i + 1, j + 1);
        }
    }
}

proof fn lemma_manifest_end(t: Seq<char>, p: int, hi: int, e: int)
    requires
        p + 6 <= e <= hi,
        lit_at(t, e - 5, manifest_suffix()),
        forall|g: int| e - 5 < g <= hi - 5 ==> !#[trigger] lit_at(t, g, manifest_suffix()),
    ensures
        manifest_end(t, p, hi) == e,
    decreases hi - e,
{
    if hi > e {
        lemma_manifest_end(t, p, hi - 1, e);
    }
}

proof fn lemma_no_scheme_in_padding(t: Seq<char>, n: int, s: int)
    requires
        0 <= s <= n <= t.len(),
        forall|k: int| 0 <= k < n ==> is_space(#[trigger] t[k]) || is_quote(t[k]),
    ensures
        manifest_from(t, s) == manifest_from(t, n),
    decreases n - s,
{
    if s < n {
        assert(t[s] != 'h');
        assert(!lit_at(t, s, https_prefix())) by {
            if lit_at(t, s, https_prefix()) {
                assert(t.subrange(s, s + 8)[0] == t[s]);
            }
        }
        assert(!lit_at(t, s, http_prefix())) by {
            if lit_at(t, s, http_prefix()) {
                assert(t.subrange(s, s + 7)[0] == t[s]);
            }
        }
        lemma_no_scheme_in_padding(t, n, s + 1);
    }
}

/// A manifest URL surrounded by any mix of whitespace and single or double
/// quotes is found, whole.
pub proof fn lemma_manifest_found_in_padding(w1: Seq<char>, u: Seq<char>, w2: Seq<char>)
    requires
        is_padding(w1),
        is_padding(w2),
        is_manifest_url(u),
    ensures
        manifest_of(w1 + u + w2) == Some(u),
{
    let t = w1 + u + w2;
    let n1 = w1.len() as int;
    let n2 = n1 + u.len();
    let k = scheme_len(u, 0);
    assert forall|j: int| 0 <= j < n1 implies is_space(#[trigger] t[j]) || is_quote(t[j]) by {
        assert(t[j] == w1[j]);
    }
    lemma_no_scheme_in_padding(t, n1, 0);
    assert(t.subrange(n1, n2) =~= u);
    assert forall|len: int| 0 <= len <= u.len() implies #[trigger] t.subrange(n1, n1 + len) == u.subrange(0, len) by {
        assert(t.subrange(n1, n1 + len) =~= u.subrange(0, len));
    }
    if lit_at(u, 0, https_prefix()) {
        assert(lit_at(t, n1, https_prefix()));
    } else {
        assert(lit_at(t, n1, http_prefix()));
        assert(!lit_at(t, n1, https_prefix())) by {
            if lit_at(t, n1, https_prefix()) {
                assert(u.len() >= 8);
                assert(u.subrange(0, 8) == t.subrange(n1, n1 + 8));
                assert(u.subrange(0, 8)[4] == 's');
                assert(u.subrange(0, 7)[4] == ':');
                assert(u.subrange(0, 8)[4] == u[4]);
                assert(u.subrange(0, 7)[4] == u[4]);
            }
        }
    }
    assert(scheme_len(t, n1) == k);
    assert forall|j: int| n1 + k <= j < n2 implies !is_quote(#[trigger] t[j]) by {
        assert(t[j] == u[j - n1]);
    }
    lemma_quote_free_end(t, n1 + k, n2);
    let q = quote_free_end(t, n1 + k);
    assert(t.subrange(n2 - 5, n2) =~= u.subrange(u.len() - 5, u.len() as int));
    assert forall|g: int| n2 - 5 < g <= q - 5 implies !#[trigger] lit_at(t, g, manifest_suffix()) by {
        if lit_at(t, g, manifest_suffix()) {
            assert(t.subrange(g, g + 5)[4] == t[g + 4]);
            assert(t[g + 4] == w2[g + 4 - n2]);
        }
    }
    lemma_manifest_end(t, n1 + k, q, n2);
    assert(manifest_match_end(t, n1) == n2);
}

proof fn lemma_skip_schemeless(t: Seq<char>, n: int, s: int)
    requires
        0 <= s <= n <= t.len(),
        forall|i: int| 0 <= i < n ==> #[trigger] scheme_len(t, i) == 0,
    ensures
        manifest_from(t, s) == manifest_from(t, n),
    decreases n - s,
{
    if s < n {
        assert(scheme_len(t, s) == 0);
        lemma_skip_schemeless(t, n, s + 1);
    }
}

proof fn lemma_quote_free_end_stops(t: Seq<char>, i: int, j: int)
    requires
        0 <= i <= j < t.len(),
        is_quote(t[j]),
    ensures
        quote_free_end(t, i) <= j,
    decreases j - i,
{
    if i < j && !is_quote(t[i]) {
        lemma_quote_free_end_stops(t, i + 1, j);
    }
}

proof fn lemma_schemes_hold_no_quote()
    ensures
        forall|k: int| 0 <= k < 8 ==> !is_quote(#[trigger] https_prefix()[k]),
        forall|k: int| 0 <= k < 7 ==> !is_quote(#[trigger] http_prefix()[k]),
{
    assert forall|k: int| 0 <= k < 8 implies !is_quote(#[trigger] https_prefix()[k]) by {
        assert(https_prefix()[0] == 'h' && https_prefix()[1] == 't' && https_prefix()[2] == 't'
            && https_prefix()[3] == 'p' && https_prefix()[4] == 's' && https_prefix()[5] == ':'
            && https_prefix()[6] == '/' && https_prefix()[7] == '/');
    }
    assert forall|k: int| 0 <= k < 7 implies !is_quote(#[trigger] http_prefix()[k]) by {
        assert(http_prefix()[0] == 'h' && http_prefix()[1] == 't' && http_prefix()[2] == 't'
            && http_prefix()[3] == 'p' && http_prefix()[4] == ':' && http_prefix()[5] == '/'
            && http_prefix()[6] == '/');
    }
}

/// No occurrence of `lit` starts before `n`: one starting inside `a` would lie
/// in `a`, which holds none, or reach the quote at `m`, which `lit` does not
/// hold; one starting from `m` on would need `lit`'s first character there.
proof fn lemma_no_lit_before(t: Seq<char>, a: Seq<char>, m: int, n: int, lit: Seq<char>, s: int)
    requires
        a.len() == m,
        0 <= m < n <= t.len(),
        t.subrange(0, m) == a,
        is_quote(t[m]),
        lit.len() > 0,
        forall|k: int| 0 <= k < lit.len() ==> !is_quote(#[trigger] lit[k]),
        forall|i: int| m <= i < n ==> #[trigger] t[i] != lit[0],
        forall|i: int| !#[trigger] lit_at(a, i, lit),
        0 <= s < n,
    ensures
        !lit_at(t, s, lit),
{
    if lit_at(t, s, lit) {
        let l = lit.len() as int;
        assert(t.subrange(s, s + l)[0] == t[s]);
        if s >= m {
            assert(t[s] != lit[0]);
        } else if s + l <= m {
            assert(a.subrange(s, s + l) =~= t.subrange(s, s + l));
            assert(lit_at(a, s, lit));
        } else {
            assert(t.subrange(s, s + l)[m - s] == t[m]);
            assert(!is_quote(lit[m - s]));
        }
    }
}

/// A manifest URL in quotes of either style, with any whitespace inside the
/// quotes, is found whole, whatever follows the closing quote and whatever
/// precedes the opening one, as long as that holds no `http://` or `https://`.
pub proof fn lemma_manifest_found_in_quotes(
    a: Seq<char>,
    q1: char,
    w1: Seq<char>,
    u: Seq<char>,
    w2: Seq<char>,
    q2: char,
    b: Seq<char>,
)
    requires
        forall|i: int| !#[trigger] lit_at(a, i, https_prefix()),
        forall|i: int| !#[trigger] lit_at(a, i, http_prefix()),
        is_quote(q1),
        is_quote(q2),
        forall|k: int| 0 <= k < w1.len() ==> is_space(#[trigger] w1[k]),
        forall|k: int| 0 <= k < w2.len() ==> is_space(#[trigger] w2[k]),
        is_manifest_url(u),
    ensures
        manifest_of(a + seq![q1] + w1 + u + w2 + seq![q2] + b) == Some(u),
{
    let t = a + seq![q1] + w1 + u + w2 + seq![q2] + b;
    let m = a.len() as int;
    let n = m + 1 + w1.len();
    let n2 = n + u.len();
    let qpos = n2 + w2.len();
    let k = scheme_len(u, 0);
    lemma_schemes_hold_no_quote();
    assert(t.subrange(0, m) =~= a);
    assert(t[m] == q1);
    assert forall|i: int| m < i < n implies #[trigger] t[i] == w1[i - m - 1] by {}
    assert(https_prefix()[0] == 'h' && http_prefix()[0] == 'h');
    assert forall|i: int| m <= i < n implies #[trigger] t[i] != https_prefix()[0] by {
        if i > m {
            assert(t[i] == w1[i - m - 1]);
        }
    }
    assert forall|i: int| m <= i < n implies #[trigger] t[i] != http_prefix()[0] by {
        if i > m {
            assert(t[i] == w1[i - m - 1]);
        }
    }
    assert forall|i: int| 0 <= i < n implies #[trigger] scheme_len(t, i) == 0 by {
        lemma_no_lit_before(t, a, m, n, https_prefix(), i);
        lemma_no_lit_before(t, a, m, n, http_prefix(), i);
    }
    lemma_skip_schemeless(t, n, 0);
    assert(t.subrange(n, n2) =~= u);
    assert forall|len: int| 0 <= len <= u.len() implies #[trigger] t.subrange(n, n + len) == u.subrange(0, len) by {
        assert(t.subrange(n, n + len) =~= u.subrange(0, len));
    }
    if lit_at(u, 0, https_prefix()) {
        assert(lit_at(t, n, https_prefix()));
    } else {
        assert(lit_at(t, n, http_prefix()));
        assert(!lit_at(t, n, https_prefix())) by {
            if lit_at(t, n, https_prefix()) {
                assert(u.subrange(0, 8) == t.subrange(n, n + 8));
                assert(u.subrange(0, 8)[4] == 's');
                assert(u.subrange(0, 7)[4] == ':');
                assert(u.subrange(0, 8)[4] == u[4]);
                assert(u.subrange(0, 7)[4] == u[4]);
            }
        }
    }
    assert(scheme_len(t, n) == k);
    assert forall|j: int| n + k <= j < n2 implies !is_quote(#[trigger] t[j]) by {
        assert(t[j] == u[j - n]);
    }
    lemma_quote_free_end(t, n + k, n2);
    assert(t[qpos] == q2);
    lemma_quote_free_end_stops(t, n + k, qpos);
    let q = quote_free_end(t, n + k);
    assert(t.subrange(n2 - 5, n2) =~= u.subrange(u.len() - 5, u.len() as int));
    assert forall|g: int| n2 - 5 < g <= q - 5 implies !#[trigger] lit_at(t, g, manifest_suffix()) by {
        if lit_at(t, g, manifest_suffix()) {
            assert(t.subrange(g, g + 5)[4] == t[g + 4]);
            assert(manifest_suffix()[4] == '8');
            assert(t[g + 4] == w2[g + 4 - n2]);
        }
    }
    lemma_manifest_end(t, n + k, q, n2);
    assert(manifest_match_end(t, n) == n2);
}

} // verus!
