use jjf::help::{parse_option_header, parse_options, scan_aliases, RevsetFlag};
use jjf::names::NameSet;
use jjf::target::{
    has_revset_flag, help_args, passthrough_has_bare_positional, resolve_leaf, resolve_target,
    run_help, Leaf, Resolution, RevsetTarget,
};

const BOOKMARK: &str = "Manage bookmarks\n\nCommands:\n  create  Create [aliases: c]\n  move    Move\n          [aliases: nothing]\n  set\n\nOptions:\n  -h, --help\n";
const MOVE: &str = "Move\n\nOptions:\n  -f, --from <REVSETS>\n          From\n  -t, --to <REVSET>\n          To\n";
const EDIT: &str = "Edit\n\nArguments:\n  <REVSET>\n          The commit [aliases: -r]\n\nOptions:\n  -h, --help\n";

fn args(words: &[&str]) -> Vec<String> {
    words.iter().map(|w| w.to_string()).collect()
}

fn chars(s: &str) -> Vec<char> {
    s.chars().collect()
}

fn known(helps: &[Option<&str>]) -> Vec<Option<String>> {
    helps.iter().map(|h| h.map(|s| s.to_string())).collect()
}

fn resolved(r: Resolution) -> RevsetTarget {
    match r {
        Resolution::Resolved(t) => t,
        Resolution::NeedsHelp(n) => panic!("still needs help for {n}"),
    }
}

#[test]
fn help_is_asked_for_in_turn() {
    let a = args(&["bookmark", "move", "main"]);
    assert!(matches!(resolve_target(&a, &[]), Resolution::NeedsHelp(1)));
    assert!(matches!(
        resolve_target(&a, &known(&[Some(BOOKMARK)])),
        Resolution::NeedsHelp(2)
    ));
    let t = resolved(resolve_target(&a, &known(&[Some(BOOKMARK), Some(MOVE)])));
    assert_eq!(t.leaf, args(&["bookmark", "move"]));
    assert_eq!(t.passthrough, args(&["main"]));
    assert_eq!(t.flag, Some(RevsetFlag::To));
    assert!(!t.user_supplied_revset);
    // Further replies change nothing.
    let again = resolved(resolve_target(
        &a,
        &known(&[Some(BOOKMARK), Some(MOVE), Some(EDIT)]),
    ));
    assert_eq!(again.leaf, t.leaf);
    assert_eq!(again.flag, t.flag);
}

#[test]
fn leaf_stops_at_flags_and_unknown_words() {
    let helps = known(&[Some(BOOKMARK)]);
    assert_eq!(resolve_leaf(&args(&["bookmark", "-r"]), &helps), Leaf::Found(1));
    assert_eq!(resolve_leaf(&args(&["bookmark", "zap"]), &helps), Leaf::Found(1));
    assert_eq!(resolve_leaf(&args(&["bookmark", "nothing"]), &helps), Leaf::Found(1));
    assert_eq!(resolve_leaf(&args(&["bookmark"]), &helps), Leaf::Found(1));
    assert_eq!(resolve_leaf(&args(&["bookmark", "c"]), &helps), Leaf::NeedsHelp(2));
    assert_eq!(
        resolve_leaf(&args(&["bookmark", "c"]), &known(&[Some(BOOKMARK), None])),
        Leaf::Found(1)
    );
}

#[test]
fn unknown_subcommand_is_left_to_jj() {
    let t = resolved(resolve_target(&args(&["zap", "-x"]), &known(&[None])));
    assert_eq!(t.leaf, args(&["zap"]));
    assert_eq!(t.passthrough, args(&["-x"]));
    assert_eq!(t.flag, Some(RevsetFlag::Revision));
    assert!(!t.user_supplied_revset);
    let t = resolved(resolve_target(&args(&["zap", "--to=x"]), &known(&[None])));
    assert!(t.user_supplied_revset);
}

#[test]
fn positional_revset_is_pinned_by_a_bare_word() {
    let t = resolved(resolve_target(&args(&["edit"]), &known(&[Some(EDIT)])));
    assert_eq!(t.flag, Some(RevsetFlag::Revision));
    assert!(!t.user_supplied_revset);
    let t = resolved(resolve_target(&args(&["edit", "@-"]), &known(&[Some(EDIT)])));
    assert!(t.user_supplied_revset);
}

#[test]
fn leaf_without_revset_has_no_flag() {
    let t = resolved(resolve_target(
        &args(&["status"]),
        &known(&[Some("Show\n\nOptions:\n  -h, --help\n")]),
    ));
    assert_eq!(t.flag, None);
}

#[test]
fn revset_flags_are_found_alone_and_inline() {
    for word in ["-r", "--revision", "--revisions", "-t", "--to", "--to=x", "-r=y", "--revisions=z"] {
        assert!(has_revset_flag(&args(&["a", word])), "{word}");
    }
    for word in ["-R", "--too", "r", "--from", "-rx", ""] {
        assert!(!has_revset_flag(&args(&["a", word])), "{word}");
    }
    assert!(!has_revset_flag(&[]));
}

#[test]
fn values_of_flags_are_no_positionals() {
    let mut flags = NameSet::new();
    flags.insert("-T".to_string());
    flags.insert("--tool".to_string());
    let bare = |words: &[&str]| passthrough_has_bare_positional(&args(words), &flags);
    assert!(!bare(&["-T", "x"]));
    assert!(bare(&["-T", "x", "y"]));
    assert!(!bare(&["--tool", "x"]));
    assert!(bare(&["--tool=x", "y"]));
    assert!(!bare(&["--tool=x"]));
    assert!(!bare(&["-T"]));
    assert!(bare(&["-"]));
    assert!(!bare(&["-sw", "--summary"]));
    assert!(bare(&["--", "x"]));
    assert!(!bare(&["--"]));
}

#[test]
fn option_headers_are_taken_apart() {
    let o = parse_option_header(&chars("-r, --revision <REVSET>"));
    assert_eq!(o.shorts, args(&["-r"]));
    assert_eq!(o.longs, args(&["--revision"]));
    assert!(o.takes_value);
    assert!(o.is_revset);
    let o = parse_option_header(&chars("--when=<TIME> <NAMES>..."));
    assert_eq!(o.longs, args(&["--when"]));
    assert!(o.takes_value);
    assert!(!o.is_revset);
    let o = parse_option_header(&chars("-s, --summary"));
    assert!(!o.takes_value);
}

#[test]
fn continuation_lines_add_aliases() {
    let os = parse_options("Options:\n  -r, --revision <REVSETS>\n          Text [aliases: --to, -x]\n\n          [aliases: plain]\n      --tool <TOOL>\n");
    assert_eq!(os.len(), 2);
    assert_eq!(os[0].longs, args(&["--revision", "--to"]));
    assert_eq!(os[0].shorts, args(&["-r", "-x"]));
    assert!(os[0].is_revset);
    assert_eq!(os[1].longs, args(&["--tool"]));
    assert!(!os[1].is_revset);
}

#[test]
fn aliases_are_collected_once() {
    let mut names = NameSet::new();
    scan_aliases(&chars("x [aliases: a, b , ,a]"), &mut names);
    assert_eq!(names.len(), 2);
    assert!(names.contains("a") && names.contains("b"));
    scan_aliases(&chars("no closing [aliases: c"), &mut names);
    assert!(!names.contains("c"));
}

#[test]
fn help_runs_with_the_path() {
    let a = args(&["tag", "set", "x"]);
    assert_eq!(help_args(&a, 2), args(&["tag", "set", "--help"]));
    assert_eq!(run_help(true, b"text\xff"), Some("text\u{fffd}".to_string()));
    assert_eq!(run_help(false, b"text"), None);
}
