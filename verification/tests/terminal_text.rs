use jjf::ansi::{inject_bg_into, strip_escapes, truncate_ansi, utf8_char_len, visible_width};
use jjf::wrap::wrap_ansi;

fn strings(lines: Vec<Vec<u8>>) -> Vec<String> {
    lines
        .into_iter()
        .map(|l| String::from_utf8(l).unwrap())
        .collect()
}

#[test]
fn char_length_by_first_byte() {
    assert_eq!(utf8_char_len(b'a'), 1);
    assert_eq!(utf8_char_len(0x80), 1);
    assert_eq!(utf8_char_len(0xbf), 1);
    assert_eq!(utf8_char_len(0xc3), 2);
    assert_eq!(utf8_char_len(0xe2), 3);
    assert_eq!(utf8_char_len(0xf0), 4);
}

#[test]
fn escapes_take_no_column() {
    assert_eq!(visible_width(b""), 0);
    assert_eq!(visible_width(b"abc"), 3);
    assert_eq!(visible_width(b"\x1b[1;32mabc\x1b[0m"), 3);
    assert_eq!(visible_width("○ é".as_bytes()), 3);
    // An unfinished sequence reaches to the end.
    assert_eq!(visible_width(b"ab\x1b[31"), 2);
    // A lone escape is a character.
    assert_eq!(visible_width(b"\x1bab"), 3);
    // A character cut off by the end counts once.
    assert_eq!(visible_width(b"\xe2\x97"), 1);
}

#[test]
fn stripping_removes_whole_sequences() {
    assert_eq!(strip_escapes(b"\x1b[1mab\x1b[0mc"), b"abc".to_vec());
    assert_eq!(strip_escapes(b"plain"), b"plain".to_vec());
    assert_eq!(strip_escapes(b"a\x1b[38;5;5"), b"a".to_vec());
    assert_eq!(strip_escapes(b"\x1bOA"), b"\x1bOA".to_vec());
}

#[test]
fn truncation_keeps_every_escape() {
    assert_eq!(
        truncate_ansi(b"\x1b[31mabcdef\x1b[0m", 3),
        b"\x1b[31mabc\x1b[0m".to_vec()
    );
    assert_eq!(truncate_ansi(b"abc", 5), b"abc".to_vec());
    assert_eq!(truncate_ansi(b"abc\x1b[0m", 0), b"\x1b[0m".to_vec());
    assert_eq!(truncate_ansi("○○○".as_bytes(), 2), "○○".as_bytes().to_vec());
}

#[test]
fn truncated_text_keeps_to_its_width() {
    let text = "\x1b[1m◆ qpvu\x1b[0m \x1b[2mhello wörld\x1b[0m".as_bytes();
    for max in 0..30 {
        let cut = truncate_ansi(text, max);
        assert_eq!(visible_width(&cut), visible_width(text).min(max));
    }
}

#[test]
fn background_survives_resets() {
    let mut out = b">".to_vec();
    inject_bg_into(&mut out, b"a\x1b[0mb\x1b[mc\x1b[1md", b"\x1b[7m");
    assert_eq!(out, b">a\x1b[0m\x1b[7mb\x1b[m\x1b[7mc\x1b[1md".to_vec());
}

#[test]
fn injection_changes_no_text() {
    let src = b"x\x1b[0my\x1b[mz";
    let mut out = Vec::new();
    inject_bg_into(&mut out, src, b"\x1b[48;5;237m");
    assert_eq!(strip_escapes(&out), strip_escapes(src));
    assert_eq!(visible_width(&out), 3);
}

#[test]
fn short_lines_are_not_wrapped() {
    assert_eq!(strings(wrap_ansi(b"a b c", 5)), vec!["a b c"]);
    assert_eq!(strings(wrap_ansi(b"a b c", 0)), vec!["a b c"]);
    assert_eq!(strings(wrap_ansi(b"", 10)), vec![""]);
}

#[test]
fn lines_wrap_at_spaces() {
    assert_eq!(
        strings(wrap_ansi(b"the quick brown fox", 10)),
        vec!["the quick", "brown fox"]
    );
    assert_eq!(
        strings(wrap_ansi(b"ab cd ef", 5)),
        vec!["ab cd", "ef"]
    );
}

#[test]
fn long_words_overflow_on_a_line_of_their_own() {
    assert_eq!(
        strings(wrap_ansi(b"a incomprehensible b", 6)),
        vec!["a", "incomprehensible", "b"]
    );
}

#[test]
fn escapes_carry_through_wrapping() {
    assert_eq!(
        strings(wrap_ansi(b"\x1b[31mone two\x1b[0m three", 7)),
        vec!["\x1b[31mone two\x1b[0m", "three"]
    );
    // A last word of escapes alone stays on the line that it ends.
    assert_eq!(
        strings(wrap_ansi(b"one two three \x1b[0m", 7)),
        vec!["one two", "three\x1b[0m"]
    );
}

#[test]
fn wrapping_loses_nothing_but_spaces() {
    let line = "\x1b[1mLorem\x1b[0m ipsum  dolor ○ sit amet, consectetur".as_bytes();
    let ink = |bytes: &[u8]| -> Vec<u8> { bytes.iter().copied().filter(|&b| b != b' ').collect() };
    for width in 1..40 {
        let lines = wrap_ansi(line, width);
        let all: Vec<u8> = lines.iter().flat_map(|l| ink(l)).collect();
        assert_eq!(all, ink(line));
        for l in &lines {
            assert!(visible_width(l) <= width || !l.contains(&b' '));
        }
    }
}

#[test]
fn wrapped_words_join_back_into_the_line() {
    let line = b"a extraordinary bc de";
    assert_eq!(strings(wrap_ansi(line, 5)), vec!["a", "extraordinary", "bc de"]);
    let line = "Lorem ipsum dolor ○ sit amet, consectetur adipiscing elit";
    for width in 1..70 {
        assert_eq!(strings(wrap_ansi(line.as_bytes(), width)).join(" "), line);
    }
}

/// The least number of lines that words of these widths can be set in.
fn fewest(widths: &[usize], width: usize) -> usize {
    let mut best = vec![0usize; widths.len() + 1];
    for i in (0..widths.len()).rev() {
        best[i] = 1 + best[i + 1];
        let mut used = widths[i];
        for j in i + 1..widths.len() {
            used += 1 + widths[j];
            if used > width {
                break;
            }
            best[i] = best[i].min(1 + best[j + 1]);
        }
    }
    best[0]
}

#[test]
fn no_wrap_is_shorter() {
    let line = "a bb ccc dddd eeeee f gg hhh iiii jjjjj kkkkkkkkkkkk l mm";
    let words: Vec<&str> = line.split(' ').collect();
    let widths: Vec<usize> = words.iter().map(|w| w.len()).collect();
    for width in 1..60 {
        let lines = strings(wrap_ansi(line.as_bytes(), width));
        assert_eq!(lines.len(), fewest(&widths, width));
        for pair in lines.windows(2) {
            let next = pair[1].split(' ').next().unwrap();
            assert!(pair[0].len() + 1 + next.len() > width);
        }
    }
}
