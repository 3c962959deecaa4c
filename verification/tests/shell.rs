use jjf::command::{command_line, exec_args, shell_quote};
use jjf::help::RevsetFlag;
use jjf::target::RevsetTarget;

fn target(leaf: &[&str], passthrough: &[&str], flag: Option<RevsetFlag>) -> RevsetTarget {
    RevsetTarget {
        leaf: leaf.iter().map(|s| s.to_string()).collect(),
        passthrough: passthrough.iter().map(|s| s.to_string()).collect(),
        flag,
        user_supplied_revset: false,
    }
}

/// Splits a line into words as a shell does, for single quotes and backslashes.
fn words(line: &str) -> Vec<String> {
    let mut out: Vec<String> = Vec::new();
    let mut word: Option<String> = None;
    let mut chars = line.chars();
    let mut quoted = false;
    while let Some(c) = chars.next() {
        if quoted {
            if c == '\'' {
                quoted = false;
            } else {
                word.get_or_insert_with(String::new).push(c);
            }
        } else if c == ' ' {
            if let Some(w) = word.take() {
                out.push(w);
            }
        } else if c == '\'' {
            quoted = true;
            word.get_or_insert_with(String::new);
        } else if c == '\\' {
            word.get_or_insert_with(String::new).push(chars.next().unwrap());
        } else {
            word.get_or_insert_with(String::new).push(c);
        }
    }
    if let Some(w) = word {
        out.push(w);
    }
    out
}

#[test]
fn plain_words_are_not_quoted() {
    assert_eq!(shell_quote("abcd1234"), "abcd1234");
    assert_eq!(shell_quote("a_b-c./=:@,Z9"), "a_b-c./=:@,Z9");
}

#[test]
fn other_words_are_quoted() {
    assert_eq!(shell_quote(""), "''");
    assert_eq!(shell_quote("fix typo"), "'fix typo'");
    assert_eq!(shell_quote("a|b"), "'a|b'");
    assert_eq!(shell_quote("it's"), "'it'\\''s'");
    assert_eq!(shell_quote("größe"), "'größe'");
    assert_eq!(shell_quote("$HOME"), "'$HOME'");
}

#[test]
fn shell_reads_quoted_words_back() {
    for w in ["", "a", "a b", "'", "''", "a'b'c", "\\", "x\ny", "*", "--flag=va lue"] {
        assert_eq!(words(&shell_quote(w)), vec![w.to_string()]);
    }
}

#[test]
fn command_line_reads_back_as_what_runs() {
    let t = target(
        &["bookmark", "set"],
        &["-m", "it's a \"test\"", "", "$x"],
        Some(RevsetFlag::Revision),
    );
    let ids: Vec<String> = vec!["ab".into(), "cd".into()];
    let mut all = vec!["jj".to_string()];
    all.extend(exec_args(&t, &ids));
    assert_eq!(words(&command_line(&t, &ids)), all);
}

#[test]
fn picks_are_joined_into_a_union() {
    let t = target(&["abandon"], &[], Some(RevsetFlag::Revision));
    let ids: Vec<String> = vec!["ab".into(), "cd".into(), "ef".into()];
    assert_eq!(command_line(&t, &ids), "jj abandon -r 'ab|cd|ef'");
    assert_eq!(exec_args(&t, &ids), vec!["abandon", "-r", "ab|cd|ef"]);
}

#[test]
fn quoted_message_precedes_the_revision() {
    let t = target(&["describe"], &["-m", "fix typo"], Some(RevsetFlag::Revision));
    assert_eq!(
        command_line(&t, &["ss".into()]),
        "jj describe -m 'fix typo' -r ss"
    );
}

#[test]
fn leaf_without_flag_gets_no_revision() {
    let t = target(&["status"], &["x"], None);
    assert_eq!(command_line(&t, &["ab".into()]), "jj status x");
    assert_eq!(exec_args(&t, &["ab".into()]), vec!["status", "x"]);
}

#[test]
fn nothing_picked_adds_nothing() {
    let t = target(&["show"], &["@"], Some(RevsetFlag::To));
    assert_eq!(exec_args(&t, &[]), vec!["show", "@"]);
    assert_eq!(exec_args(&t, &["q".into()]), vec!["show", "@", "--to", "q"]);
}
