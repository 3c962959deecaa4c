use jjf::preview::{
    build_preview_lines, parse_show_summary, show_summary, split_lines, summary_args, PreviewParts,
};

const SHOW: &[u8] = b"Commit ID: 1234\nChange ID: abcd\nAuthor: A\nCommitter: B\n\n    Title\n\n    First line\n      indented\n\n    Last line\n\nM src/main.rs\nA README.md\n";

fn text(lines: Vec<Vec<u8>>) -> Vec<String> {
    lines
        .into_iter()
        .map(|l| String::from_utf8(l).unwrap())
        .collect()
}

#[test]
fn summary_is_split_into_description_and_files() {
    let p = parse_show_summary(SHOW);
    assert_eq!(
        String::from_utf8(p.description).unwrap(),
        "First line\n  indented\n\nLast line"
    );
    assert_eq!(
        String::from_utf8(p.files).unwrap(),
        "M src/main.rs\nA README.md"
    );
}

#[test]
fn title_alone_leaves_no_description() {
    let p = parse_show_summary(b"Commit ID: 1\n\n    Title\n\nM a\n");
    assert_eq!(p.description, b"".to_vec());
    assert_eq!(p.files, b"M a".to_vec());
}

#[test]
fn summary_without_files() {
    let p = parse_show_summary(b"h\n\n    Title\n    body\n\n");
    assert_eq!(p.description, b"body".to_vec());
    assert_eq!(p.files, b"".to_vec());
}

#[test]
fn summary_without_header() {
    let p = parse_show_summary(b"    Title\n    body\nM x");
    assert_eq!(p.description, b"body".to_vec());
    assert_eq!(p.files, b"M x".to_vec());
    let p = parse_show_summary(b"");
    assert_eq!(p.description, b"".to_vec());
    assert_eq!(p.files, b"".to_vec());
}

#[test]
fn summary_without_description() {
    let p = parse_show_summary(b"h\n\nM one\n\nA two\n");
    assert_eq!(p.description, b"".to_vec());
    assert_eq!(p.files, b"M one\nA two".to_vec());
}

#[test]
fn preview_says_when_it_is_unavailable() {
    let p = show_summary(None);
    assert_eq!(p.description, b"(preview unavailable)".to_vec());
    assert_eq!(p.files, b"".to_vec());
    assert_eq!(show_summary(Some(SHOW)).files, b"M src/main.rs\nA README.md".to_vec());
}

#[test]
fn summary_is_asked_for_by_change() {
    assert_eq!(
        summary_args("qpvu"),
        vec!["--ignore-working-copy", "show", "--color=always", "--summary", "-r", "qpvu"]
    );
}

fn parts(description: &str, files: &str) -> PreviewParts {
    PreviewParts {
        description: description.as_bytes().to_vec(),
        files: files.as_bytes().to_vec(),
    }
}

#[test]
fn roomy_preview_shows_everything() {
    assert_eq!(
        text(build_preview_lines(&parts("a\nb", "M x\nA y"), 10, 20)),
        vec!["a", "b", "", "M x", "A y"]
    );
    assert_eq!(text(build_preview_lines(&parts("a\nb", ""), 10, 20)), vec!["a", "b"]);
    assert_eq!(text(build_preview_lines(&parts("", "M x"), 10, 20)), vec!["M x"]);
    assert_eq!(build_preview_lines(&parts("", ""), 10, 20).len(), 0);
}

#[test]
fn tight_preview_clips_the_description() {
    assert_eq!(
        text(build_preview_lines(&parts("a\nb\nc", "M x"), 4, 20)),
        vec!["a", "b \x1b[2m…\x1b[0m", "", "M x"]
    );
    // The file list always wins.
    assert_eq!(
        text(build_preview_lines(&parts("a\nb", "M x\nM y\nM z"), 3, 20)),
        vec!["M x", "M y", "M z"]
    );
    assert_eq!(
        text(build_preview_lines(&parts("a", "M x\nM y\nM z"), 2, 20)),
        vec!["M x", "M y", "M z"]
    );
    assert_eq!(build_preview_lines(&parts("a\nb", ""), 0, 20).len(), 0);
}

#[test]
fn preview_lines_are_wrapped() {
    assert_eq!(
        text(build_preview_lines(&parts("one two three", "M a/b"), 9, 8)),
        vec!["one two", "three", "", "M a/b"]
    );
}

#[test]
fn text_splits_at_newlines() {
    assert_eq!(text(split_lines(b"a\n\nb\n")), vec!["a", "", "b", ""]);
    assert_eq!(text(split_lines(b"")), vec![""]);
}
