//! Fuzzy matching, as nucleo does it.

use crate::text::{lead, lemma_lead, lemma_trail, not, trail};
use nucleo_matcher::{Config, Matcher, Utf32Str};
use vstd::prelude::*;
use vstd::utf8::{encode_utf8, is_ascii_chars};

verus! {

/// The matcher of nucleo: the memory that matches are computed in.
#[verifier::external_type_specification]
#[verifier::external_body]
pub struct ExMatcher(nucleo_matcher::Matcher);

/// The score that nucleo's `Matcher::fuzzy_match` gives `needle` in `haystack`
/// under its default configuration; `None` where it does not match.
pub uninterp spec fn nucleo_score(haystack: Seq<char>, needle: Seq<char>) -> Option<u16>;

/// Whether nucleo's `Utf32Str::new` takes a text as ASCII.
pub uninterp spec fn nucleo_ascii(s: Seq<char>) -> bool;

/// How many characters nucleo's `Utf32Str::new` takes a text for.
pub uninterp spec fn nucleo_len(s: Seq<char>) -> nat;

// ---------------------------------------------------------------------------
// Where the matcher can be called

/// The longest needle, in the matcher's characters, whose score is sure to fit
/// its type: the first character scores at most 36 and each further one at
/// most 26. Whether the score of a longer needle fits depends on the bonuses
/// that the matcher gives in the haystack, which only the matcher knows, and it
/// does not look for overflow. So a longer needle is not handed to it.
pub const MAX_NEEDLE: usize = 2520;

pub open spec fn capital(b: u8) -> bool {
    0x41 <= b <= 0x5a
}

pub open spec fn has_capital(s: Seq<u8>) -> bool {
    exists|i: int| 0 <= i < s.len() && capital(#[trigger] s[i])
}

/// Whether a byte of the needle is found at a byte of the haystack: a lower
/// case letter is found in either case, and any other byte as it is.
pub open spec fn alike(n: u8, h: u8) -> bool {
    n == h || (0x61 <= n <= 0x7a && h == n - 0x20)
}

pub open spec fn like(n: u8) -> spec_fn(u8) -> bool {
    |h: u8| alike(n, h)
}

/// Whether the bytes of the needle are found in the haystack in order.
pub open spec fn occurs_in_order(h: Seq<u8>, n: Seq<u8>) -> bool
    decreases h.len(),
{
    if n.len() == 0 {
        true
    } else if h.len() == 0 {
        false
    } else if alike(n[0], h[0]) {
        occurs_in_order(h.skip(1), n.skip(1))
    } else {
        occurs_in_order(h.skip(1), n)
    }
}

/// How far into the haystack the search for the needle in order goes.
pub open spec fn reach(h: Seq<u8>, n: Seq<u8>) -> nat
    decreases h.len(),
{
    if n.len() == 0 || h.len() == 0 {
        0
    } else if alike(n[0], h[0]) {
        1 + reach(h.skip(1), n.skip(1))
    } else {
        1 + reach(h.skip(1), n)
    }
}

/// How many bytes of the haystack are searched: from where the first byte of
/// the needle is first found to where its last byte is last found.
pub open spec fn span(h: Seq<u8>, n: Seq<u8>) -> int {
    let rest = h.skip(reach(h, n) as int);
    reach(h, n) + rest.len() - trail(rest, not(like(n.last()))) - lead(h, not(like(n[0])))
}

/// Whether the matcher has the memory to search `len` bytes for a needle of
/// `n` bytes for the best match. Where it has not, it takes the first match.
pub open spec fn fits_matrix(len: int, n: int) -> bool {
    &&& len <= 0xffff
    &&& n <= 2048
    &&& len * n <= 102_400
    &&& (2 * len + 2 * n + 7) / 8 * 8 + (len + 1 - n) * (n + 8) <= 133_120
}

/// Whether no assertion of the matcher can fail where both texts are taken as
/// ASCII. It folds the case of the haystack but not of the needle, and while it
/// searches for the best match it asserts that a needle that occurs in order
/// matches. With a capital in the needle this fails. It does not get there
/// where the needle does not occur, where it occurs in one piece, and where the
/// first match is taken.
pub open spec fn case_is_fine(h: Seq<u8>, n: Seq<u8>) -> bool {
    ||| !has_capital(n)
    ||| n.len() == 1
    ||| !occurs_in_order(h, n)
    ||| span(h, n) == n.len()
    ||| !fits_matrix(span(h, n), n.len() as int)
}

/// Whether the matcher can be called: it does not panic, and no sum or product
/// in it overflows.
pub open spec fn matchable(haystack: Seq<char>, needle: Seq<char>) -> bool {
    &&& nucleo_len(needle) <= MAX_NEEDLE
    &&& nucleo_len(haystack) <= u32::MAX
    &&& nucleo_len(haystack) * nucleo_len(needle) <= usize::MAX
    &&& nucleo_ascii(haystack) && nucleo_ascii(needle) ==> case_is_fine(
        encode_utf8(haystack),
        encode_utf8(needle),
    )
}

/// The score of `needle` in `haystack`; `None` where it does not match, where
/// the matcher would panic, and where the needle is longer than `MAX_NEEDLE`.
pub open spec fn score(haystack: Seq<char>, needle: Seq<char>) -> Option<u16> {
    if matchable(haystack, needle) {
        nucleo_score(haystack, needle)
    } else {
        None
    }
}

/// Calls `Matcher::new` of nucleo with its default configuration. Nothing is
/// claimed of the matcher.
#[verifier::external_body]
fn make_matcher() -> (matcher: Matcher) {
    Matcher::new(Config::DEFAULT)
}

/// Calls `Utf32Str::new` of nucleo, and `is_ascii` on what it gives. The result
/// is a function of the text; ASCII text is taken as ASCII.
#[verifier::external_body]
fn taken_as_ascii(s: &str) -> (r: bool)
    ensures
        r == nucleo_ascii(s@),
        is_ascii_chars(s@) ==> r,
{
    let mut buf: Vec<char> = Vec::new();
    Utf32Str::new(s, &mut buf).is_ascii()
}

/// Calls `Utf32Str::new` of nucleo, and `len` on what it gives. The result is a
/// function of the text; ASCII text is as long as it has characters.
#[verifier::external_body]
fn taken_len(s: &str) -> (r: usize)
    ensures
        r == nucleo_len(s@),
        is_ascii_chars(s@) ==> r == s@.len(),
{
    let mut buf: Vec<char> = Vec::new();
    Utf32Str::new(s, &mut buf).len()
}

/// Calls `Matcher::fuzzy_match` of nucleo under its default configuration, on
/// the two texts as `Utf32Str::new` takes them. The result is a function of
/// the texts: the matcher is only scratch memory. It is not called where it
/// would panic.
#[verifier::external_body]
fn call_fuzzy_match(matcher: &mut Matcher, haystack: &str, needle: &str) -> (r: Option<u16>)
    requires
        matchable(haystack@, needle@),
    ensures
        r == nucleo_score(haystack@, needle@),
{
    let mut hbuf: Vec<char> = Vec::new();
    let mut nbuf: Vec<char> = Vec::new();
    matcher.config = Config::DEFAULT;
    matcher.fuzzy_match(Utf32Str::new(haystack, &mut hbuf), Utf32Str::new(needle, &mut nbuf))
}

fn is_alike(n: u8, h: u8) -> (r: bool)
    ensures
        r == alike(n, h),
{
    n == h || (0x61 <= n && n <= 0x7a && h == n - 0x20)
}

fn contains_capital(s: &[u8]) -> (r: bool)
    ensures
        r == has_capital(s@),
{
    for i in 0..s.len()
        invariant
            forall|k: int| 0 <= k < i ==> !capital(#[trigger] s@[k]),
    {
        if 0x41 <= s[i] && s[i] <= 0x5a {
            assert(capital(s@[i as int]));
            return true;
        }
    }
    false
}

/// How many bytes of the haystack are searched; `None` where the needle does
/// not occur in order.
fn search_span(h: &[u8], n: &[u8]) -> (r: Option<usize>)
    requires
        n@.len() > 0,
    ensures
        r is Some == occurs_in_order(h@, n@),
        r matches Some(len) ==> len == span(h@, n@),
{
    let ghost first = not(like(n@[0]));
    let mut p: usize = 0;
    let mut i: usize = 0;
    let mut j: usize = 0;
    assert(h@.skip(0) == h@);
    assert(n@.skip(0) == n@);
    while j < h.len() && i < n.len()
        invariant
            n@.len() > 0,
            first == not(like(n@[0])),
            i <= n@.len(),
            j <= h@.len(),
            i == 0 ==> forall|k: int| 0 <= k < j ==> first(#[trigger] h@[k]),
            i > 0 ==> p < j && !first(h@[p as int]) && forall|k: int|
                0 <= k < p ==> first(#[trigger] h@[k]),
            occurs_in_order(h@.skip(j as int), n@.skip(i as int)) == occurs_in_order(h@, n@),
            reach(h@, n@) == j + reach(h@.skip(j as int), n@.skip(i as int)),
        decreases h.len() - j,
    {
        assert(h@.skip(j as int).skip(1) == h@.skip(j + 1));
        assert(n@.skip(i as int).skip(1) == n@.skip(i + 1));
        if is_alike(n[i], h[j]) {
            if i == 0 {
                p = j;
            }
            i += 1;
        }
        j += 1;
    }
    if i < n.len() {
        return None;
    }
    let ghost rest = h@.skip(j as int);
    let ghost last = not(like(n@.last()));
    let mut end: usize = h.len();
    while end > j && !is_alike(n[n.len() - 1], h[end - 1])
        invariant
            n@.len() > 0,
            j <= end <= h@.len(),
            rest == h@.skip(j as int),
            last == not(like(n@.last())),
            forall|k: int| end - j <= k < rest.len() ==> last(#[trigger] rest[k]),
        decreases end,
    {
        assert(rest[end - 1 - j] == h@[end - 1]);
        end -= 1;
    }
    proof {
        lemma_lead(h@, first, p as int);
        if end > j {
            assert(rest[end - 1 - j] == h@[end - 1]);
        }
        lemma_trail(rest, last, h@.len() - end);
    }
    Some(end - p)
}

fn has_matrix(len: usize, n: usize) -> (r: bool)
    ensures
        r == fits_matrix(len as int, n as int),
{
    if len > 0xffff || n > 2048 {
        return false;
    }
    let l = len as i64;
    let m = n as i64;
    assert(0 <= l * m <= 0xffff * 2048) by (nonlinear_arith)
        requires
            0 <= l <= 0xffff,
            0 <= m <= 2048,
    ;
    assert(-0x20_0000_0000 <= (l + 1 - m) * (m + 8) <= 0x20_0000_0000) by (nonlinear_arith)
        requires
            0 <= l <= 0xffff,
            0 <= m <= 2048,
    ;
    l * m <= 102_400 && (2 * l + 2 * m + 7) / 8 * 8 + (l + 1 - m) * (m + 8) <= 133_120
}

fn can_match(haystack: &str, needle: &str) -> (r: bool)
    ensures
        r == matchable(haystack@, needle@),
{
    let hl = taken_len(haystack);
    let nl = taken_len(needle);
    if nl > MAX_NEEDLE || hl as u64 > 0xffff_ffff || hl.checked_mul(nl).is_none() {
        return false;
    }
    if !taken_as_ascii(haystack) || !taken_as_ascii(needle) {
        return true;
    }
    let h = haystack.as_bytes();
    let n = needle.as_bytes();
    if !contains_capital(n) || n.len() == 1 {
        return true;
    }
    match search_span(h, n) {
        Some(len) => len == n.len() || !has_matrix(len, n.len()),
        None => true,
    }
}

/// A matcher, to be used for one match after another.
pub fn new_matcher() -> (matcher: Matcher) {
    make_matcher()
}

/// The score of `needle` in `haystack`; `None` where it does not match, where
/// the matcher would panic, and where the needle is longer than `MAX_NEEDLE`.
pub fn fuzzy_score(matcher: &mut Matcher, haystack: &str, needle: &str) -> (r: Option<u16>)
    ensures
        r == score(haystack@, needle@),
{
    if can_match(haystack, needle) {
        call_fuzzy_match(matcher, haystack, needle)
    } else {
        None
    }
}

// ---------------------------------------------------------------------------
// Laws

/// The matcher is asked, and its answer taken as it is, wherever its numbers are
/// large enough and it has no capital of an ASCII needle to stumble over.
pub proof fn law_matcher_is_asked(haystack: Seq<char>, needle: Seq<char>)
    requires
        nucleo_len(needle) <= 2520,
        nucleo_len(haystack) <= 0xffff_ffff,
        nucleo_len(haystack) * nucleo_len(needle) <= usize::MAX,
        !nucleo_ascii(haystack) || !nucleo_ascii(needle) || encode_utf8(needle).len() == 1
            || forall|i: int|
            #![trigger encode_utf8(needle)[i]]
            0 <= i < encode_utf8(needle).len() ==> encode_utf8(needle)[i] < 0x41 || encode_utf8(
                needle,
            )[i] > 0x5a,
    ensures
        score(haystack, needle) == nucleo_score(haystack, needle),
{
}

proof fn lemma_found_in_order(a: Seq<u8>, m: Seq<u8>, b: Seq<u8>, n: Seq<u8>)
    requires
        m.len() == n.len(),
        forall|i: int| 0 <= i < n.len() ==> alike(#[trigger] n[i], m[i]),
        n.len() > 0 ==> forall|i: int| 0 <= i < a.len() ==> !alike(n[0], #[trigger] a[i]),
        n.len() == 0 ==> a.len() == 0,
    ensures
        occurs_in_order(a + m + b, n),
        reach(a + m + b, n) == a.len() + n.len(),
    decreases a.len() + m.len(),
{
    let h = a + m + b;
    if n.len() > 0 {
        if a.len() > 0 {
            assert(h[0] == a[0]);
            assert(h.skip(1) =~= a.skip(1) + m + b);
            lemma_found_in_order(a.skip(1), m, b, n);
        } else {
            assert(h[0] == m[0]);
            assert(alike(n[0], m[0]));
            assert(h.skip(1) =~= a + m.skip(1) + b);
            assert forall|i: int| 0 <= i < n.skip(1).len() implies alike(
                #[trigger] n.skip(1)[i],
                m.skip(1)[i],
            ) by {
                assert(alike(n[i + 1], m[i + 1]));
            }
            lemma_found_in_order(a, m.skip(1), b, n.skip(1));
        }
    }
}

/// A needle with capitals is matched too where it stands in the haystack in one
/// piece, with its first byte not found before it and its last byte not found
/// after it. A lower case letter of the needle is found in either case.
pub proof fn law_capitals_match_in_one_piece(
    haystack: Seq<char>,
    needle: Seq<char>,
    a: Seq<u8>,
    m: Seq<u8>,
    b: Seq<u8>,
)
    requires
        nucleo_len(needle) <= 2520,
        nucleo_len(haystack) <= 0xffff_ffff,
        nucleo_len(haystack) * nucleo_len(needle) <= usize::MAX,
        encode_utf8(haystack) == a + m + b,
        encode_utf8(needle).len() > 0,
        m.len() == encode_utf8(needle).len(),
        ({
            let n = encode_utf8(needle);
            &&& forall|i: int|
                #![trigger n[i]]
                0 <= i < n.len() ==> n[i] == m[i] || (0x61 <= n[i] && n[i] <= 0x7a && m[i] == n[i]
                    - 0x20)
            &&& forall|i: int|
                #![trigger a[i]]
                0 <= i < a.len() ==> a[i] != n[0] && !(0x61 <= n[0] && n[0] <= 0x7a && a[i] == n[0]
                    - 0x20)
            &&& forall|i: int|
                #![trigger b[i]]
                0 <= i < b.len() ==> b[i] != n.last() && !(0x61 <= n.last() && n.last() <= 0x7a
                    && b[i] == n.last() - 0x20)
        }),
    ensures
        score(haystack, needle) == nucleo_score(haystack, needle),
{
    let h = encode_utf8(haystack);
    let n = encode_utf8(needle);
    lemma_found_in_order(a, m, b, n);
    let first = not(like(n[0]));
    assert forall|i: int| 0 <= i < a.len() implies first(#[trigger] h[i]) by {
        assert(h[i] == a[i]);
    }
    assert(h[a.len() as int] == m[0]);
    assert(alike(n[0], m[0]));
    lemma_lead(h, first, a.len() as int);
    let rest = h.skip(reach(h, n) as int);
    assert(rest =~= b);
    let last = not(like(n.last()));
    assert forall|i: int| 0 <= i < b.len() implies last(#[trigger] b[i]) by {}
    lemma_trail(b, last, b.len() as int);
}

} // verus!
