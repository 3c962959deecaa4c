use jjf::names::NameSet;
use jjf::text::{
    cut_bytes, find_text, indent_of, is_whitespace, join_bytes, join_strings, split_bytes,
    split_list, split_text_lines, trim_both,
};

fn chars(s: &str) -> Vec<char> {
    s.chars().collect()
}

fn strings(parts: Vec<Vec<char>>) -> Vec<String> {
    parts.into_iter().map(|p| p.into_iter().collect()).collect()
}

#[test]
fn whitespace_is_that_of_unicode() {
    for n in 0..=0x10ffffu32 {
        if let Some(c) = char::from_u32(n) {
            assert_eq!(is_whitespace(c), c.is_whitespace(), "{n:x}");
        }
    }
}

#[test]
fn lines_end_as_in_text_files() {
    for text in ["", "a", "a\n", "a\nb", "a\r\nb\r\n", "\n\n", "a\r", "\r\n", "x\n\ny"] {
        let want: Vec<String> = text.lines().map(|l| l.to_string()).collect();
        // A carriage return at the very end is kept by both.
        assert_eq!(strings(split_text_lines(&chars(text))), want, "{text:?}");
    }
}

#[test]
fn lists_split_at_commas_and_blanks() {
    assert_eq!(strings(split_list(&chars("a, b"), false)), vec!["a", " b"]);
    assert_eq!(strings(split_list(&chars("a, b"), true)), vec!["a", "", "b"]);
    assert_eq!(strings(split_list(&chars(""), true)), vec![""]);
}

#[test]
fn text_is_found_where_it_first_occurs() {
    assert_eq!(find_text(&chars("xabab"), "ab"), Some(1));
    assert_eq!(find_text(&chars("xab"), "abc"), None);
    assert_eq!(find_text(&chars(""), ""), Some(0));
    assert_eq!(find_text(&chars("○○a"), "a"), Some(2));
}

#[test]
fn indentation_is_counted_in_bytes() {
    assert_eq!(indent_of(&chars("  x")), 2);
    assert_eq!(indent_of(&chars(" \u{a0}x")), 3);
    assert_eq!(indent_of(&chars("x")), 0);
}

#[test]
fn blanks_are_trimmed_at_both_ends() {
    assert_eq!(trim_both(&chars(" \ta b\u{2003}")), chars("a b").as_slice());
    assert_eq!(trim_both(&chars("  ")), chars("").as_slice());
}

#[test]
fn pieces_are_joined() {
    assert_eq!(join_bytes(&[b"a".to_vec(), Vec::new(), b"c".to_vec()], b'|'), b"a||c".to_vec());
    assert_eq!(join_strings(&["a".to_string(), "b".to_string()], ' '), "a b");
    assert_eq!(join_strings(&[], ' '), "");
}

#[test]
fn pieces_are_cut_off_the_front() {
    assert_eq!(
        cut_bytes(b"a,b,c,d", b',', 2),
        Some(vec![b"a".to_vec(), b"b".to_vec(), b"c,d".to_vec()])
    );
    assert_eq!(cut_bytes(b"a,b", b',', 2), None);
    assert_eq!(cut_bytes(b"", b',', 0), Some(vec![Vec::new()]));
}

#[test]
fn names_are_kept_once() {
    let mut names = NameSet::new();
    assert!(names.is_empty());
    names.insert("b".to_string());
    names.insert("a".to_string());
    names.insert("b".to_string());
    assert_eq!(names.len(), 2);
    assert_eq!(names.get(0), "b");
    assert_eq!(names.get(1), "a");
    assert!(!names.contains("c"));
}

#[test]
fn names_come_in_only_by_being_added() {
    let mut names = NameSet::new();
    for n in ["x", "y", "x"] {
        names.insert(n.to_string());
    }
    for n in ["x", "y"] {
        assert!(names.contains(n));
    }
    for n in ["z", "", "xy"] {
        assert!(!names.contains(n));
    }
}

#[test]
fn splitting_undoes_joining() {
    let parts = vec![b"a".to_vec(), Vec::new(), b"bc".to_vec()];
    assert_eq!(split_bytes(&join_bytes(&parts, b'\n'), b'\n'), parts);
}
