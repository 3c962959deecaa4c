use jjf::cli::{
    check_rows, echo_command, exit_code, finish, parse_args, plan, run_init, Action, Invocation,
};
use jjf::help::RevsetFlag;
use jjf::init::{snippet, BASH, FISH, NU, ZSH};
use jjf::row::parse_row;
use jjf::target::RevsetTarget;

fn words(ws: &[&str]) -> Vec<String> {
    ws.iter().map(|w| w.to_string()).collect()
}

fn target(flag: Option<RevsetFlag>, pinned: bool) -> RevsetTarget {
    RevsetTarget {
        leaf: words(&["tag", "set"]),
        passthrough: words(&["a b"]),
        flag,
        user_supplied_revset: pinned,
    }
}

#[test]
fn arguments_are_told_apart() {
    assert!(matches!(parse_args(&[]), Invocation::Usage));
    assert!(matches!(parse_args(&words(&["init"])), Invocation::Init(None)));
    assert!(matches!(
        parse_args(&words(&["init", "zsh", "x"])),
        Invocation::Init(Some(s)) if s == "zsh"
    ));
    assert!(matches!(parse_args(&words(&["--emit"])), Invocation::EmitUsage));
    assert!(matches!(
        parse_args(&words(&["--emit", "init", "x"])),
        Invocation::Pick { args, emit: true } if args == words(&["init", "x"])
    ));
    assert!(matches!(
        parse_args(&words(&["show", "--emit"])),
        Invocation::Pick { args, emit: false } if args == words(&["show", "--emit"])
    ));
}

#[test]
fn wrappers_are_found_by_shell() {
    assert_eq!(snippet("bash"), Some(BASH));
    assert_eq!(snippet("zsh"), Some(ZSH));
    assert_eq!(snippet("fish"), Some(FISH));
    assert_eq!(snippet("nu"), Some(NU));
    assert_eq!(snippet("nushell"), Some(NU));
    assert_eq!(snippet("tcsh"), None);
    assert_eq!(snippet(""), None);
}

#[test]
fn wrappers_add_the_command_to_the_history() {
    assert!(BASH.contains("history -s") && BASH.contains("history -d"));
    assert!(ZSH.contains("print -s") && ZSH.contains("zshaddhistory"));
    assert!(FISH.contains("builtin history append") && FISH.contains("fish_postexec"));
    assert!(NU.contains("history import"));
    for s in [BASH, ZSH, FISH, NU] {
        assert!(s.contains("--emit") && s.contains("show"));
    }
}

#[test]
fn init_prints_or_refuses() {
    assert!(matches!(run_init(Some("fish")), Action::Write(s) if s == FISH));
    assert!(matches!(
        run_init(None),
        Action::Refuse(s) if s == "usage: jjf init <bash|zsh|fish|nu>"
    ));
    assert!(matches!(
        run_init(Some("csh")),
        Action::Refuse(s) if s == "jjf: unknown shell 'csh' — supported: bash, zsh, fish, nu"
    ));
}

#[test]
fn pinned_commands_run_as_they_are() {
    let t = target(Some(RevsetFlag::Revision), true);
    assert!(matches!(
        plan(&t, false),
        Action::Run { line, args } if line == "jj tag set 'a b'" && args == words(&["tag", "set", "a b"])
    ));
    assert!(matches!(plan(&t, true), Action::Print(line) if line == "jj tag set 'a b'"));
    // Even where the leaf takes no revset.
    assert!(matches!(plan(&target(None, true), true), Action::Print(_)));
}

#[test]
fn leaf_without_revset_is_refused() {
    assert!(matches!(
        plan(&target(None, false), false),
        Action::Refuse(s)
            if s == "jjf: 'jj tag set' takes no revset flag (-r/--to) — run 'jj tag set' directly."
    ));
}

#[test]
fn picks_are_run_or_printed() {
    let t = target(Some(RevsetFlag::To), false);
    assert!(matches!(plan(&t, false), Action::Pick));
    let ids = words(&["x", "y"]);
    assert!(matches!(
        finish(&t, Some(&ids), false),
        Action::Run { line, args }
            if line == "jj tag set 'a b' --to 'x|y'" && args == words(&["tag", "set", "a b", "--to", "x|y"])
    ));
    assert!(matches!(
        finish(&t, Some(&ids), true),
        Action::Print(line) if line == "jj tag set 'a b' --to 'x|y'"
    ));
}

#[test]
fn cancelled_picks_do_nothing() {
    let t = target(Some(RevsetFlag::To), false);
    assert!(matches!(finish(&t, None, false), Action::Quit(130)));
    assert!(matches!(finish(&t, Some(&[]), true), Action::Quit(130)));
}

#[test]
fn empty_log_is_noticed() {
    assert!(matches!(
        check_rows(&[]),
        Action::Notice(s) if s == "jjf: no revisions in default revset"
    ));
    assert!(matches!(check_rows(&[parse_row(b"~")]), Action::Pick));
}

#[test]
fn exit_codes_keep_their_lowest_bits() {
    assert_eq!(exit_code(Some(0)), 0);
    assert_eq!(exit_code(Some(3)), 3);
    assert_eq!(exit_code(Some(256)), 0);
    assert_eq!(exit_code(Some(-1)), 255);
    assert_eq!(exit_code(Some(i32::MIN)), 0);
    assert_eq!(exit_code(None), 1);
}

#[test]
fn commands_are_echoed_behind_a_prompt() {
    assert_eq!(echo_command("jj show", true), "\x1b[2m$\x1b[0m jj show");
    assert_eq!(echo_command("jj show", false), "jj show");
}
