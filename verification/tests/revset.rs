use jjf::command::command_line;
use jjf::help::{
    parse_commands_section, parse_revset_flag, positional_revset_accepts_r, value_flags, RevsetFlag,
};
use jjf::target::{passthrough_pins_revset, RevsetTarget};

const TAG_SET_HELP: &str = "Create or update tags

Usage: jj tag set [OPTIONS] <NAMES>...

Arguments:
  <NAMES>...
          Tag names to create or update

Options:
  -r, --revision <REVSET>
          Target revision to point to

          [default: @]
          [aliases: --to]

      --allow-move
          Allow moving existing tags

  -h, --help
          Print help (see a summary with '-h')

Global Options:
  -R, --repository <REPOSITORY>
          Path to repository
";

const BOOKMARK_MOVE_HELP: &str = "Move existing bookmarks to target revision

Usage: jj bookmark move [OPTIONS] <NAMES|--from <REVSETS>>

Arguments:
  [NAMES]...
          Move bookmarks matching the given name patterns

Options:
  -f, --from <REVSETS>
          Move bookmarks from the given revisions

  -t, --to <REVSET>
          Move bookmarks to this revision

          [default: @]

  -B, --allow-backwards
          Allow moving bookmarks backwards or sideways

  -h, --help
          Print help (see a summary with '-h')

Global Options:
  -R, --repository <REPOSITORY>
          Path to repository
";

const TAG_PARENT_HELP: &str = "Manage tags

Usage: jj tag [OPTIONS] <COMMAND>

Commands:
  delete  Delete existing tags [aliases: d]
  list    List tags and their targets [aliases: l]
  set     Create or update tags [aliases: s]

Options:
  -h, --help
          Print help (see a summary with '-h')

Global Options:
  -R, --repository <REPOSITORY>
          Path to repository
";

const SHOW_HELP: &str = "Show commit description and changes in a revision

Usage: jj show [OPTIONS] [REVSET]

Arguments:
  [REVSET]
          Show changes in this revision, compared to its parent(s) [default: @] [aliases: -r]

Options:
  -T, --template <TEMPLATE>
          Render a revision using the given template

  -h, --help
          Print help (see a summary with '-h')

Diff Formatting Options:
  -s, --summary
          For each path, show only whether it was modified, added, or deleted

      --tool <TOOL>
          Generate diff by external command

Global Options:
  -R, --repository <REPOSITORY>
          Path to repository
";

// A leaf with a positional revset but no `-r` alias jjf could inject.
const LOG_HELP: &str = "Show revision history

Usage: jj log [OPTIONS] [FILESETS]...

Arguments:
  [FILESETS]...
          Show revisions modifying the given paths

Options:
  -r, --revision <REVSETS>
          Which revisions to show

  -h, --help
          Print help (see a summary with '-h')

Global Options:
  -R, --repository <REPOSITORY>
          Path to repository
";

#[test]
fn revset_flag_detects_show_positional() {
    // `jj show` takes its revset as the positional `[REVSET]` argument,
    // annotated `[aliases: -r]`. jjf must inject `-r <picked>`.
    assert_eq!(parse_revset_flag(SHOW_HELP), Some(RevsetFlag::Revision));
}

#[test]
fn revset_flag_log_uses_option_not_positional() {
    // `jj log` has a `[FILESETS]...` positional (not a revset) and a real
    // `-r, --revision` option — the option must drive the result.
    assert_eq!(parse_revset_flag(LOG_HELP), Some(RevsetFlag::Revision));
    assert!(!positional_revset_accepts_r(LOG_HELP));
}

#[test]
fn revset_flag_prefers_revision_over_to_alias() {
    // tag set has `-r, --revision <REVSET>` with `[aliases: --to]`.
    // The Revision-class match must win over the To-class match.
    assert_eq!(parse_revset_flag(TAG_SET_HELP), Some(RevsetFlag::Revision));
}

#[test]
fn revset_flag_falls_back_to_to_when_no_revision() {
    // bookmark move has only `-f, --from <REVSETS>` and `-t, --to <REVSET>`.
    assert_eq!(parse_revset_flag(BOOKMARK_MOVE_HELP), Some(RevsetFlag::To));
}

#[test]
fn revset_flag_none_for_parent_without_options() {
    assert_eq!(parse_revset_flag(TAG_PARENT_HELP), None);
}

#[test]
fn commands_section_includes_names_and_aliases() {
    let cmds = parse_commands_section(TAG_PARENT_HELP);
    for name in ["delete", "list", "set", "d", "l", "s"] {
        assert!(cmds.contains(name), "missing {name} in {cmds:?}");
    }
}

#[test]
fn commands_section_empty_for_leaf() {
    let cmds = parse_commands_section(BOOKMARK_MOVE_HELP);
    assert!(cmds.is_empty(), "expected no commands, got {cmds:?}");
}

#[test]
fn command_line_emits_revision_flag() {
    let target = RevsetTarget {
        leaf: vec!["tag".into(), "set".into()],
        passthrough: vec!["v0.2.0".into()],
        flag: Some(RevsetFlag::Revision),
        user_supplied_revset: false,
    };
    let s = command_line(&target, &["abcd1234".into()]);
    assert_eq!(s, "jj tag set v0.2.0 -r abcd1234");
}

#[test]
fn command_line_emits_to_flag() {
    let target = RevsetTarget {
        leaf: vec!["bm".into()],
        passthrough: vec!["main".into()],
        flag: Some(RevsetFlag::To),
        user_supplied_revset: false,
    };
    let s = command_line(&target, &["abcd1234".into()]);
    assert_eq!(s, "jj bm main --to abcd1234");
}

#[test]
fn command_line_omits_flag_when_no_ids() {
    let target = RevsetTarget {
        leaf: vec!["describe".into()],
        passthrough: vec!["-r".into(), "@".into()],
        flag: Some(RevsetFlag::Revision),
        user_supplied_revset: true,
    };
    // When the user already supplied -r, jjf calls command_line with empty
    // ids — no extra flag should be appended.
    let s = command_line(&target, &[]);
    assert_eq!(s, "jj describe -r @");
}

fn pins(passthrough: &[&str], help: &str) -> bool {
    let owned: Vec<String> = passthrough.iter().map(|s| s.to_string()).collect();
    passthrough_pins_revset(&owned, help)
}

#[test]
fn show_bare_positional_pins_revset() {
    // `jjf show @` / `jjf show abc123` — the revision is already named as
    // the positional `[REVSET]`, so jjf must bypass the picker.
    assert!(pins(&["@"], SHOW_HELP));
    assert!(pins(&["abc123"], SHOW_HELP));
    assert!(pins(&["@", "--summary"], SHOW_HELP));
    assert!(pins(&["--summary", "@"], SHOW_HELP));
}

#[test]
fn show_without_revision_runs_picker() {
    // No revision named — jjf should fall through to the picker. Bare
    // `jjf show`, and `jjf show` with only flags, must NOT count as pinned.
    assert!(!pins(&[], SHOW_HELP));
    assert!(!pins(&["--summary"], SHOW_HELP));
    assert!(!pins(&["-s"], SHOW_HELP));
}

#[test]
fn show_option_value_is_not_a_positional() {
    // The value of a value-taking option must not be mistaken for the
    // positional revset: `-T tmpl` / `--tool meld` still want the picker.
    assert!(!pins(&["-T", "mytemplate"], SHOW_HELP));
    assert!(!pins(&["--tool", "meld"], SHOW_HELP));
    // ...but a real positional alongside such an option still pins it.
    assert!(pins(&["-T", "mytemplate", "@"], SHOW_HELP));
}

#[test]
fn show_explicit_revset_flag_pins_revset() {
    // The `-r` alias and the `--revision=@` inline form both count.
    assert!(pins(&["-r", "@"], SHOW_HELP));
    assert!(pins(&["--revision=@"], SHOW_HELP));
}

#[test]
fn dashdash_separates_positionals() {
    assert!(pins(&["--", "@"], SHOW_HELP));
    assert!(!pins(&["--"], SHOW_HELP));
}

#[test]
fn option_leaf_bare_positional_does_not_pin_revset() {
    // `jj tag set v0.2.0` — `v0.2.0` is the `<NAMES>` positional, NOT a
    // revset. Only an explicit `-r`/`--to` flag pins the revision here, so
    // jjf still runs the picker for the target revision.
    assert!(!pins(&["v0.2.0"], TAG_SET_HELP));
    assert!(pins(&["v0.2.0", "-r", "@"], TAG_SET_HELP));
}

#[test]
fn value_flags_span_all_option_sections() {
    // Value-taking flags are gathered from `Options:`, the categorized
    // `Diff Formatting Options:`, and `Global Options:` alike; bool flags
    // and `--help` are excluded.
    let vf = value_flags(SHOW_HELP);
    for f in ["-T", "--template", "--tool", "-R", "--repository"] {
        assert!(vf.contains(f), "missing value flag {f} in {vf:?}");
    }
    for f in ["-s", "--summary", "-h", "--help"] {
        assert!(!vf.contains(f), "{f} should not be a value flag");
    }
}
