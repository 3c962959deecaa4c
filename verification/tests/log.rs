use jjf::decode::decode;
use jjf::row::{capture_log, log_args, parse_row, strip_ansi};

#[test]
fn commit_line_is_read_back() {
    let line = "○  \u{1f}\x1b[1mqpvuntsm\x1b[0m\u{1f}qp\u{1f}230dd059\u{1f}23\u{1f}\x1b[1mqp\x1b[0mvuntsm hello"
        .as_bytes();
    let row = parse_row(line);
    assert_eq!(row.change_id_short, "qpvuntsm");
    assert_eq!(row.change_id_prefix, "qp");
    assert_eq!(row.commit_id_short, "230dd059");
    assert_eq!(row.commit_id_prefix, "23");
    assert_eq!(row.plain, "○  qpvuntsm hello");
    assert_eq!(
        row.styled,
        "○  \x1b[1mqp\x1b[0mvuntsm hello".as_bytes().to_vec()
    );
    assert!(!row.is_connector());
}

#[test]
fn payload_may_hold_separators() {
    let row = parse_row(b"@ \x1fc\x1fd\x1fe\x1ff\x1fx\x1fy");
    assert_eq!(row.styled, b"@ x\x1fy".to_vec());
    assert_eq!(row.commit_id_prefix, "f");
}

#[test]
fn line_of_graph_is_a_connector() {
    let row = parse_row("├─\x1b[1m╮\x1b[0m".as_bytes());
    assert!(row.is_connector());
    assert_eq!(row.plain, "├─╮");
    assert_eq!(row.styled, "├─\x1b[1m╮\x1b[0m".as_bytes().to_vec());
    // Four separators are one too few.
    assert!(parse_row(b"@ \x1fa\x1fb\x1fc\x1fd").is_connector());
}

#[test]
fn log_has_a_row_for_each_filled_line() {
    let rows = capture_log(
        true,
        Some(0),
        "@  \u{1f}a\u{1f}b\u{1f}c\u{1f}d\u{1f}one\n│\n\n◆  \u{1f}e\u{1f}f\u{1f}g\u{1f}h\u{1f}two\n".as_bytes(),
    )
    .ok()
    .unwrap();
    assert_eq!(rows.len(), 3);
    assert_eq!(rows[0].plain, "@  one");
    assert!(rows[1].is_connector());
    assert_eq!(rows[2].change_id_short, "e");
}

#[test]
fn failed_log_gives_its_exit_code() {
    assert_eq!(capture_log(false, Some(7), b"x").err(), Some(7));
    assert_eq!(capture_log(false, None, b"").err(), Some(1));
    assert_eq!(capture_log(true, None, b"").ok().unwrap().len(), 0);
}

#[test]
fn stripped_text_is_decoded() {
    assert_eq!(strip_ansi("\x1b[2m◆\x1b[0m ok".as_bytes()), "◆ ok");
    assert_eq!(strip_ansi(b"\xff\x1b[0mz"), "\u{fffd}z");
}

#[test]
fn bytes_decode_as_utf8() {
    assert_eq!(decode("größe ○".as_bytes()), "größe ○");
    assert_eq!(decode(b"a\xffb"), "a\u{fffd}b");
    assert_eq!(decode(b""), "");
}

#[test]
fn log_is_captured_on_single_lines() {
    let args = log_args();
    assert_eq!(args.len(), 11);
    assert_eq!(
        args[..10].join(" "),
        "--ignore-working-copy --config ui.log-word-wrap=false log --color=always -r all() --limit 1000 -T"
    );
    assert!(args[10].starts_with("\"\\x1f\" ++ change_id.short() ++ \"\\x1f\" ++ change_id.shortest().prefix()"));
    assert!(args[10].ends_with("description.first_line() ))"));
    assert!(!args[10].contains('\n'));
    assert_eq!(args[10].matches("\\x1f").count(), 5);
}
