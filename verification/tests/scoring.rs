use jjf::fuzzy::{fuzzy_score, new_matcher};
use jjf::rank::{combine_scores, rank, score_row, to_lower};
use jjf::row::Row;
use nucleo_matcher::{Config, Matcher, Utf32Str};

fn direct(haystack: &str, needle: &str) -> Option<u16> {
    let mut a = Vec::new();
    let mut b = Vec::new();
    Matcher::new(Config::DEFAULT).fuzzy_match(
        Utf32Str::new(haystack, &mut a),
        Utf32Str::new(needle, &mut b),
    )
}

fn row(change: &str, change_prefix: &str, commit: &str, commit_prefix: &str, plain: &str) -> Row {
    Row {
        change_id_short: change.into(),
        change_id_prefix: change_prefix.into(),
        commit_id_short: commit.into(),
        commit_id_prefix: commit_prefix.into(),
        plain: plain.into(),
        styled: plain.as_bytes().to_vec(),
    }
}

#[test]
fn fuzzy_scores_are_those_of_the_matcher() {
    let mut m = new_matcher();
    for (h, n) in [
        ("@  xnkx feat(ux): more refinements", "more"),
        ("○  ssnu fix typo", "fxty"),
        ("○  ssnu fix typo", "zzz"),
        ("abc", "abc"),
        ("abc", "abcd"),
        ("○ größe", "grö"),
        ("anything", ""),
        ("Feature in", "F"),
        ("x Fix", "Fix"),
        ("○ Fix it", "Fix"),
        ("lower", "LOWER"),
        ("nothing here", "Q"),
    ] {
        assert_eq!(fuzzy_score(&mut m, h, n), direct(h, n), "{h} {n}");
    }
}

#[test]
fn matches_are_scored_by_place() {
    let mut m = new_matcher();
    let start = fuzzy_score(&mut m, "x foo bar", "foo").unwrap();
    let inside = fuzzy_score(&mut m, "x afoo bar", "foo").unwrap();
    assert!(start > inside);
    assert_eq!(fuzzy_score(&mut m, "x foo bar", "oofoo"), None);
}

#[test]
fn text_beyond_ascii_is_matched_with_capitals() {
    let mut m = new_matcher();
    for (h, n) in [
        ("@jQ新数", "jQ新"),
        ("@  qpvu jQuery更新数を表示", "jQuery更新"),
        ("@ │ kx Feature in", "Fi"),
        ("@ a\u{301}B 数", "aB"),
        ("@ a\u{301}b 数", "aB"),
        ("x fix 数", "fIx"),
    ] {
        assert_eq!(fuzzy_score(&mut m, h, n), direct(h, n), "{h} {n}");
    }
    assert!(fuzzy_score(&mut m, "@jQ新数", "jQ新").is_some());
    assert!(fuzzy_score(&mut m, "@  qpvu jQuery更新数を表示", "jQuery更新").is_some());
}

#[test]
fn capitals_that_cannot_be_matched_score_nothing() {
    // Both occur in order, but not in one piece: the matcher could not go on.
    let mut m = new_matcher();
    assert_eq!(fuzzy_score(&mut m, "Feature in", "Fi"), None);
    assert_eq!(fuzzy_score(&mut m, "ab AB ab", "aB"), None);
    // The marks leave the characters ASCII, but part their bytes.
    assert_eq!(fuzzy_score(&mut m, "xa\u{301}B", "aB"), None);
}

#[test]
fn capitals_are_matched_where_the_first_match_is_taken() {
    let mut m = new_matcher();
    let text = |len: usize| format!("F{}i", "x".repeat(len - 2));
    // With two characters the matcher's memory is for 11093 bytes.
    assert_eq!(fuzzy_score(&mut m, &text(11_093), "Fi"), None);
    for len in [11_094, 20_000, 60_000, 70_000] {
        let h = text(len);
        assert!(fuzzy_score(&mut m, &h, "Fi").is_some());
        assert_eq!(fuzzy_score(&mut m, &h, "Fi"), direct(&h, "Fi"));
    }
    let long = format!("F{}", "i".repeat(2048));
    let h = format!("F {} i", "i".repeat(2048));
    assert_eq!(fuzzy_score(&mut m, &h, &long), direct(&h, &long));
}

#[test]
fn long_filters_score_nothing() {
    let mut m = new_matcher();
    let long = "a".repeat(2521);
    assert_eq!(fuzzy_score(&mut m, &"a".repeat(4000), &long), None);
    assert!(fuzzy_score(&mut m, &"a".repeat(4000), &long[..2520]).is_some());
}

#[test]
fn long_filters_are_counted_in_characters() {
    let mut m = new_matcher();
    let query = "新".repeat(841);
    let text = format!("○ {query}数");
    assert!(fuzzy_score(&mut m, &text, &query).is_some());
    assert_eq!(fuzzy_score(&mut m, &text, &query), direct(&text, &query));
}

#[test]
fn tiers_are_scored_as_documented() {
    let s = |q: &str, fuzzy| combine_scores("qp", "qpvuntsm", "23", "230dd059", q, fuzzy);
    assert_eq!(s("q", None), Some(1_000_000));
    assert_eq!(s("qp", Some(40)), Some(1_000_000));
    assert_eq!(s("qpv", None), Some(100_000));
    assert_eq!(s("2", None), Some(10_000));
    assert_eq!(s("230", None), Some(1_000));
    assert_eq!(s("zz", Some(77)), Some(77));
    assert_eq!(s("zz", None), None);
    assert_eq!(s("230", Some(2000)), Some(2000));
    // An unknown shortest id is no match.
    assert_eq!(combine_scores("", "", "", "", "a", None), None);
}

#[test]
fn rows_are_scored_in_any_case() {
    let mut m = new_matcher();
    let r = row("QPvuntsm", "QP", "23ABcdef", "23A", "○ QPvuntsm hello");
    assert_eq!(score_row(&r, "qp", "qp", &mut m), Some(1_000_000));
    assert_eq!(score_row(&r, "QP", "qp", &mut m), Some(1_000_000));
    assert_eq!(score_row(&r, "23ab", "23ab", &mut m), Some(1_000));
    assert_eq!(
        score_row(&r, "hel", "hel", &mut m),
        direct("○ QPvuntsm hello", "hel").map(|s| s as u32)
    );
    assert_eq!(score_row(&r, "xyzzy", "xyzzy", &mut m), None);
}

#[test]
fn change_ids_beat_any_text() {
    let mut m = new_matcher();
    let by_id = row("abcdefgh", "abc", "1", "1", "○ x");
    let by_text = row("zzz", "z", "2", "2", "○ abcd abcd abcd");
    let a = score_row(&by_id, "abcd", "abcd", &mut m).unwrap();
    let b = score_row(&by_text, "abcd", "abcd", &mut m).unwrap();
    assert_eq!(a, 100_000);
    assert!(b < a);
}

#[test]
fn text_is_lowered() {
    assert_eq!(to_lower("AbC-Z9"), "abc-z9");
    assert_eq!(to_lower("ÉCOLE"), "école");
    assert_eq!(to_lower(""), "");
}

#[test]
fn ranking_is_by_score_then_log_order() {
    assert_eq!(
        rank(&[Some(5), None, Some(9), Some(5), Some(1), Some(9)]),
        vec![2, 5, 0, 3, 4]
    );
    assert_eq!(rank(&[None, None]), Vec::<usize>::new());
    assert_eq!(rank(&[]), Vec::<usize>::new());
}
