//! Scores of the rows for a filter, and the order that they give.

use crate::fuzzy::{fuzzy_score, matchable, nucleo_score, score};
use crate::row::{Row, RowData};
use crate::text::{starts_with, to_chars};
use nucleo_matcher::Matcher;
use vstd::prelude::*;
use vstd::utf8::is_ascii_chars;

verus! {

// ---------------------------------------------------------------------------
// Lower case

/// The text that `str::to_lowercase` makes of a text.
pub uninterp spec fn lowercase(s: Seq<char>) -> Seq<char>;

/// An ASCII character in lower case.
pub open spec fn ascii_lower(c: char) -> char {
    if 'A' <= c <= 'Z' {
        (c as u32 + 32) as char
    } else {
        c
    }
}

/// A text in lower case. For ASCII each capital is replaced by its small
/// letter; for other text it is Unicode's lower case.
pub open spec fn lower(s: Seq<char>) -> Seq<char> {
    if is_ascii_chars(s) {
        s.map_values(|c: char| ascii_lower(c))
    } else {
        lowercase(s)
    }
}

/// Calls `str::to_lowercase`. The result is a function of the text; for ASCII
/// text, every capital letter is replaced by its small letter and nothing else
/// changes. What happens to other text is left to the name `lowercase`.
#[verifier::external_body]
fn call_to_lowercase(s: &str) -> (r: String)
    ensures
        r@ == lowercase(s@),
        is_ascii_chars(s@) ==> r@ == s@.map_values(|c: char| ascii_lower(c)),
{
    s.to_lowercase()
}

/// A text in lower case.
pub fn to_lower(s: &str) -> (r: String)
    ensures
        r@ == lower(s@),
{
    call_to_lowercase(s)
}

// ---------------------------------------------------------------------------
// Scores

/// The score where `hit` holds.
pub open spec fn tier(hit: bool, value: u32) -> Option<u32> {
    if hit {
        Some(value)
    } else {
        None
    }
}

/// The better of two scores.
pub open spec fn best(a: Option<u32>, b: Option<u32>) -> Option<u32> {
    match (a, b) {
        (Some(x), Some(y)) => Some(if x >= y {
            x
        } else {
            y
        }),
        (Some(x), None) => Some(x),
        (None, _) => b,
    }
}

/// The score of a row whose ids, in lower case, are given, for a filter `q` in
/// lower case: a prefix of the shortest change id, of the short change id, of
/// the shortest commit id, of the short commit id, or a fuzzy match.
pub open spec fn combined(
    change_prefix: Seq<char>,
    change: Seq<char>,
    commit_prefix: Seq<char>,
    commit: Seq<char>,
    q: Seq<char>,
    fuzzy: Option<u16>,
) -> Option<u32> {
    let by_text = match fuzzy {
        Some(s) => Some(s as u32),
        None => None,
    };
    best(
        best(
            best(
                best(
                    tier(change_prefix.len() > 0 && q.is_prefix_of(change_prefix), 1_000_000),
                    tier(q.is_prefix_of(change), 100_000),
                ),
                tier(commit_prefix.len() > 0 && q.is_prefix_of(commit_prefix), 10_000),
            ),
            tier(q.is_prefix_of(commit), 1_000),
        ),
        by_text,
    )
}

/// The score of a row, by its ids for `q` and by its text for `query`.
pub open spec fn scored(row: RowData, query: Seq<char>, q: Seq<char>) -> Option<u32> {
    combined(
        lower(row.change_id_prefix),
        lower(row.change_id_short),
        lower(row.commit_id_prefix),
        lower(row.commit_id_short),
        q,
        score(row.plain, query),
    )
}

/// The score of a row for a filter; `None` where nothing of it matches.
pub open spec fn row_score(row: RowData, query: Seq<char>) -> Option<u32> {
    scored(row, query, lower(query))
}

fn better(a: Option<u32>, hit: bool, value: u32) -> (r: Option<u32>)
    ensures
        r == best(a, tier(hit, value)),
{
    if hit {
        match a {
            Some(x) => if x >= value {
                Some(x)
            } else {
                Some(value)
            },
            None => Some(value),
        }
    } else {
        a
    }
}

/// The score of a row, out of its ids in lower case and the score of its text.
pub fn combine_scores(
    change_prefix: &str,
    change: &str,
    commit_prefix: &str,
    commit: &str,
    q_lower: &str,
    fuzzy: Option<u16>,
) -> (r: Option<u32>)
    ensures
        r == combined(change_prefix@, change@, commit_prefix@, commit@, q_lower@, fuzzy),
{
    let cp = to_chars(change_prefix);
    let cs = to_chars(change);
    let kp = to_chars(commit_prefix);
    let ks = to_chars(commit);
    let mut r: Option<u32> = None;
    r = better(r, cp.len() > 0 && starts_with(cp.as_slice(), q_lower), 1_000_000);
    r = better(r, starts_with(cs.as_slice(), q_lower), 100_000);
    r = better(r, kp.len() > 0 && starts_with(kp.as_slice(), q_lower), 10_000);
    r = better(r, starts_with(ks.as_slice(), q_lower), 1_000);
    match fuzzy {
        Some(s) => better(r, true, s as u32),
        None => r,
    }
}

/// The score of a row for a filter, which is also given in lower case, as its
/// ids are looked up by it; `None` where nothing of the row matches.
pub fn score_row(row: &Row, query: &str, q_lower: &str, matcher: &mut Matcher) -> (r: Option<u32>)
    ensures
        r == scored(row@, query@, q_lower@),
{
    let cp = to_lower(row.change_id_prefix.as_str());
    let cs = to_lower(row.change_id_short.as_str());
    let kp = to_lower(row.commit_id_prefix.as_str());
    let ks = to_lower(row.commit_id_short.as_str());
    let fuzzy = fuzzy_score(matcher, row.plain.as_str(), query);
    combine_scores(cp.as_str(), cs.as_str(), kp.as_str(), ks.as_str(), q_lower, fuzzy)
}

// ---------------------------------------------------------------------------
// Order

/// Whether row `a` comes before row `b`: by the higher score, and among equal
/// scores by the order of the log.
pub open spec fn outranks(scores: Seq<Option<u32>>, a: usize, b: usize) -> bool {
    let x = scores[a as int]->0;
    let y = scores[b as int]->0;
    x > y || (x == y && a < b)
}

/// Whether `order` holds the rows that have a score, each once, in order.
pub open spec fn ranking(scores: Seq<Option<u32>>, order: Seq<usize>) -> bool {
    &&& forall|i: int|
        0 <= i < order.len() ==> (#[trigger] order[i]) < scores.len() && scores[order[i] as int]
            is Some
    &&& forall|k: usize|
        k < scores.len() && #[trigger] scores[k as int] is Some ==> order.contains(k)
    &&& forall|i: int, j: int|
        0 <= i < j < order.len() ==> outranks(scores, #[trigger] order[i], #[trigger] order[j])
}

fn at_least(score: Option<u32>, s: u32) -> (r: bool)
    ensures
        r == (score matches Some(t) && t >= s),
{
    match score {
        Some(t) => t >= s,
        None => false,
    }
}

/// The rows that have a score, best first; among equal scores, in the order of
/// the log.
pub fn rank(scores: &[Option<u32>]) -> (order: Vec<usize>)
    ensures
        ranking(scores@, order@),
{
    let mut order: Vec<usize> = Vec::new();
    for n in 0..scores.len()
        invariant
            forall|i: int|
                0 <= i < order@.len() ==> (#[trigger] order@[i]) < n && scores@[order@[i] as int]
                    is Some,
            forall|k: usize|
                k < n && #[trigger] scores@[k as int] is Some ==> order@.contains(k),
            forall|i: int, j: int|
                0 <= i < j < order@.len() ==> outranks(
                    scores@,
                    #[trigger] order@[i],
                    #[trigger] order@[j],
                ),
            n <= scores@.len(),
    {
        if let Some(s) = scores[n] {
            let mut p: usize = 0;
            while p < order.len() && at_least(scores[order[p]], s)
                invariant
                    p <= order@.len(),
                    n < scores@.len(),
                    forall|i: int|
                        0 <= i < order@.len() ==> (#[trigger] order@[i]) < n
                            && scores@[order@[i] as int] is Some,
                    forall|i: int|
                        0 <= i < p ==> scores@[(#[trigger] order@[i]) as int]->0 >= s,
                decreases order.len() - p,
            {
                p += 1;
            }
            let ghost was = order@;
            order.insert(p, n);
            proof {
                assert forall|k: usize| k < n + 1 && #[trigger] scores@[k as int] is Some implies
                    order@.contains(k) by {
                    if k == n {
                        assert(order@[p as int] == k);
                    } else {
                        assert(was.contains(k));
                        let i = choose|i: int| 0 <= i < was.len() && was[i] == k;
                        if i < p {
                            assert(order@[i] == k);
                        } else {
                            assert(order@[i + 1] == k);
                        }
                    }
                }
                assert forall|i: int, j: int| 0 <= i < j < order@.len() implies outranks(
                    scores@,
                    #[trigger] order@[i],
                    #[trigger] order@[j],
                ) by {
                    let a = if i < p { i } else { i - 1 };
                    let b = if j < p { j } else { j - 1 };
                    if i != p && j != p {
                        assert(order@[i] == was[a] && order@[j] == was[b]);
                        assert(outranks(scores@, was[a], was[b]));
                    } else if j == p {
                        assert(order@[i] == was[i]);
                    } else {
                        assert(order@[j] == was[b]);
                        if p < b {
                            assert(outranks(scores@, was[p as int], was[b]));
                        }
                    }
                }
            }
        }
    }
    order
}

// ---------------------------------------------------------------------------
// Laws

proof fn lemma_ranking_agrees(
    scores: Seq<Option<u32>>,
    a: Seq<usize>,
    b: Seq<usize>,
    n: int,
)
    requires
        ranking(scores, a),
        ranking(scores, b),
        0 <= n <= a.len(),
        n <= b.len(),
    ensures
        a.take(n) == b.take(n),
    decreases n,
{
    if n > 0 {
        let i = n - 1;
        lemma_ranking_agrees(scores, a, b, i);
        assert forall|j: int| 0 <= j < i implies a[j] == b[j] by {
            assert(a.take(i)[j] == b.take(i)[j]);
        }
        if a[i] != b[i] {
            assert(scores[a[i] as int] is Some && scores[b[i] as int] is Some);
            assert(b.contains(a[i]) && a.contains(b[i]));
            let m = choose|m: int| 0 <= m < b.len() && b[m] == a[i];
            let k = choose|k: int| 0 <= k < a.len() && a[k] == b[i];
            if m < i {
                assert(outranks(scores, a[m], a[i]));
            } else if k < i {
                assert(outranks(scores, b[k], b[i]));
            } else {
                assert(outranks(scores, b[i], b[m]));
                assert(outranks(scores, a[i], a[k]));
            }
        }
        assert(a.take(n) =~= b.take(n));
    } else {
        assert(a.take(n) =~= b.take(n));
    }
}

/// The order is determined by the scores.
pub proof fn law_ranking_is_unique(scores: Seq<Option<u32>>, a: Seq<usize>, b: Seq<usize>)
    requires
        ranking(scores, a),
        ranking(scores, b),
    ensures
        a == b,
{
    let n = if a.len() <= b.len() { a.len() as int } else { b.len() as int };
    lemma_ranking_agrees(scores, a, b, n);
    if n < a.len() {
        assert(scores[a[n] as int] is Some);
        assert(b.contains(a[n]));
        let m = choose|m: int| 0 <= m < b.len() && b[m] == a[n];
        assert(a.take(n)[m] == b.take(n)[m]);
        assert(outranks(scores, a[m], a[n]));
    }
    if n < b.len() {
        assert(scores[b[n] as int] is Some);
        assert(a.contains(b[n]));
        let m = choose|m: int| 0 <= m < a.len() && a[m] == b[n];
        assert(a.take(n)[m] == b.take(n)[m]);
        assert(outranks(scores, b[m], b[n]));
    }
    assert(a.take(a.len() as int) =~= a);
    assert(b.take(b.len() as int) =~= b);
}

/// Whether the filter is a prefix of the shortest change id of a row.
pub open spec fn hits_change_prefix(row: RowData, query: Seq<char>) -> bool {
    lower(row.change_id_prefix).len() > 0 && lower(query).is_prefix_of(
        lower(row.change_id_prefix),
    )
}

/// Whether the filter is a prefix of the short change id of a row.
pub open spec fn hits_change(row: RowData, query: Seq<char>) -> bool {
    lower(query).is_prefix_of(lower(row.change_id_short))
}

/// A prefix of the shortest change id beats every row that has none: what is
/// highlighted of a change id in the log finds its revision first.
pub proof fn law_change_prefix_wins(a: RowData, b: RowData, query: Seq<char>)
    requires
        hits_change_prefix(a, query),
        !hits_change_prefix(b, query),
    ensures
        row_score(a, query) == Some(1_000_000u32),
        row_score(b, query) matches Some(s) ==> s < 1_000_000,
{
}

/// A prefix of the short change id beats every row that neither its change ids
/// match, however good a fuzzy match it is.
pub proof fn law_change_id_beats_text(a: RowData, b: RowData, query: Seq<char>)
    requires
        hits_change(a, query),
        !hits_change(b, query),
        !hits_change_prefix(b, query),
    ensures
        row_score(a, query) matches Some(s) && s >= 100_000,
        row_score(b, query) matches Some(s) ==> s < 100_000,
{
}

/// A text in lower case, where it is ASCII: as long as before, with every
/// capital letter replaced by its small letter and nothing else changed. Other
/// text is left to `str::to_lowercase`.
pub proof fn law_lower_folds_capitals(s: Seq<char>, i: int)
    requires
        0 <= i < s.len(),
    ensures
        is_ascii_chars(s) ==> {
            &&& lower(s).len() == s.len()
            &&& 'A' <= s[i] && s[i] <= 'Z' ==> lower(s)[i] as u32 == s[i] as u32 + 32
            &&& s[i] < 'A' || s[i] > 'Z' ==> lower(s)[i] == s[i]
        },
        !is_ascii_chars(s) ==> lower(s) == lowercase(s),
{
}

/// The text of a row is searched for the whole filter: where the filter, in
/// lower case, is a prefix of none of the ids of a row, the score of the row is
/// the one that the matcher gives all that was typed, as it was typed, in all of
/// the row's text, and there is none where the matcher gives none.
pub proof fn law_text_is_matched_by_the_whole_filter(row: RowData, query: Seq<char>)
    requires
        !lower(query).is_prefix_of(lower(row.change_id_prefix)),
        !lower(query).is_prefix_of(lower(row.change_id_short)),
        !lower(query).is_prefix_of(lower(row.commit_id_prefix)),
        !lower(query).is_prefix_of(lower(row.commit_id_short)),
    ensures
        matchable(row.plain, query) ==> match nucleo_score(row.plain, query) {
            Some(s) => row_score(row, query) matches Some(t) && t == s,
            None => row_score(row, query) is None,
        },
        !matchable(row.plain, query) ==> row_score(row, query) is None,
{
}

/// The score of a row is that of the best way in which the filter finds it: by
/// the shortest change id, by the short change id, by the shortest commit id, by
/// the short commit id, or by the text; it has none where none of them does.
pub proof fn law_score_is_that_of_the_best_way(row: RowData, query: Seq<char>)
    ensures
        ({
            let q = lower(query);
            let a = lower(row.change_id_prefix).len() > 0 && q.is_prefix_of(
                lower(row.change_id_prefix),
            );
            let b = q.is_prefix_of(lower(row.change_id_short));
            let c = lower(row.commit_id_prefix).len() > 0 && q.is_prefix_of(
                lower(row.commit_id_prefix),
            );
            let d = q.is_prefix_of(lower(row.commit_id_short));
            let text = matchable(row.plain, query) && nucleo_score(row.plain, query) is Some;
            let t = nucleo_score(row.plain, query)->0;
            let s = row_score(row, query)->0;
            &&& row_score(row, query) is Some <==> a || b || c || d || text
            &&& a ==> s == 1_000_000
            &&& !a && b ==> s == 100_000
            &&& !a && !b && c ==> s >= 10_000 && (s == 10_000 || (text && s == t))
            &&& !a && !b && !c && d ==> s >= 1_000 && (s == 1_000 || (text && s == t))
            &&& text ==> s >= t
            &&& text && !a && !b && !c && !d ==> s == t
        }),
{
}

} // verus!
