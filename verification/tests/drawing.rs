use jjf::cli::{finish, Action};
use jjf::help::RevsetFlag;
use jjf::keys::{handle_key, Key};
use jjf::picker::App;
use jjf::preview::PreviewParts;
use jjf::row::Row;
use jjf::screen::{cursor_bg, is_light_terminal, render, render_log_row, write_hint_pair};
use jjf::target::RevsetTarget;

fn commit(id: &str, text: &str) -> Row {
    Row {
        change_id_short: format!("{id}{id}"),
        change_id_prefix: id.into(),
        commit_id_short: format!("0{id}"),
        commit_id_prefix: format!("0{id}"),
        plain: format!("○  {id} {text}"),
        styled: format!("○  {id} {text}").into_bytes(),
    }
}

fn target() -> RevsetTarget {
    RevsetTarget {
        leaf: vec!["describe".into()],
        passthrough: vec!["-m".into(), "fix typo".into()],
        flag: Some(RevsetFlag::Revision),
        user_supplied_revset: false,
    }
}

fn draw(app: &App, cols: u16) -> String {
    String::from_utf8(render(app, cols, &target(), false)).unwrap()
}

#[test]
fn narrow_screen_is_drawn_exactly() {
    let mut app = App::new(vec![commit("kx", "one"), commit("ly", "two")]);
    app.resize(6);
    let want = concat_all(&[
        "\x1b[?2026h",
        "\x1b[1;1H\x1b[1m\x1b[36m❯ \x1b[0m\x1b[7m \x1b[27m\x1b[K",
        "\x1b[2;1H\x1b[K  \x1b[48;5;237m○  kx one\x1b[0m",
        "\x1b[3;1H\x1b[K  ○  ly two\x1b[0m         ",
        "\x1b[4;1H\x1b[K",
        "\x1b[5;1H\x1b[K\x1b[1;32m▶ jj describe -m 'f…\x1b[0m",
        "\x1b[6;1H\x1b[2m[2/2]  type filter\x1b[0m\x1b[K",
        "\x1b[1;4H",
        "\x1b[?2026l",
    ]);
    assert_eq!(draw(&app, 20), want);
}

fn concat_all(parts: &[&str]) -> String {
    parts.iter().copied().collect()
}

#[test]
fn wide_screen_shows_the_preview() {
    let mut app = App::new(vec![commit("kx", "one"), commit("ly", "two")]);
    app.resize(6);
    app.store_preview(
        0,
        PreviewParts {
            description: b"body".to_vec(),
            files: b"M a".to_vec(),
        },
    );
    let out = draw(&app, 80);
    // The border runs from column 40 to the last.
    assert!(out.contains(&format!(
        "\x1b[1;40H\x1b[K\x1b[2m┌{}\x1b[0m",
        "─".repeat(40)
    )));
    // The text under the cursor takes 11 columns; the arrow ends in column 41.
    assert!(out.contains(&format!(
        "○  kx one\x1b[0m \x1b[2m●{}\x1b[0m\x1b[36m▶\x1b[0m body\x1b[0m",
        "─".repeat(27)
    )));
    assert!(out.contains("\x1b[3;38H  \x1b[2m│  \x1b[0m\x1b[0m"));
    assert!(out.contains("\x1b[4;38H  \x1b[2m│  \x1b[0mM a\x1b[0m"));
    assert!(out.contains("▶ jj describe -m 'fix typo' -r kx\x1b[0m"));
}

#[test]
fn wide_screen_without_a_known_preview() {
    let mut app = App::new(vec![commit("kx", "one")]);
    app.resize(4);
    let out = draw(&app, 80);
    assert!(out.contains("▶\x1b[0m \x1b[3;1H"));
}

#[test]
fn hints_are_dropped_from_the_end() {
    let mut app = App::new(vec![commit("kx", "one")]);
    app.resize(10);
    let hint = |cols: u16| -> usize {
        let out = draw(&app, cols);
        let at = out.find("type filter").unwrap();
        out[at..].matches("\x1b[22m").count()
    };
    // The whole row takes 79 columns.
    assert_eq!(hint(79), 5);
    assert_eq!(hint(78), 4);
    assert_eq!(hint(68), 4);
    assert_eq!(hint(67), 3);
    assert_eq!(hint(30), 0);
    assert_eq!(hint(5), 0);
    let out = draw(&app, 200);
    assert!(out.contains("[1/1]  type filter · \x1b[22m↑↓/^N^P\x1b[2m nav · \x1b[22mtab\x1b[2m select · \x1b[22menter\x1b[2m run · \x1b[22m^U\x1b[2m clear · \x1b[22mesc\x1b[2m quit\x1b[0m\x1b[K"));
}

#[test]
fn selected_rows_are_counted_and_marked() {
    let mut app = App::new(vec![commit("kx", "one"), commit("ly", "two")]);
    app.resize(10);
    handle_key(&mut app, Key::Tab, false);
    handle_key(&mut app, Key::Down, false);
    let out = draw(&app, 60);
    assert!(out.contains("[2/2 · 1 selected]  type filter"));
    assert!(out.contains("\x1b[1m\x1b[33m▎ \x1b[0m○  kx one"));
}

#[test]
fn filter_is_shown_with_the_caret_behind_it() {
    let mut app = App::new(vec![commit("kx", "one")]);
    app.resize(10);
    for c in "oné".chars() {
        handle_key(&mut app, Key::Char(c), false);
    }
    let out = draw(&app, 60);
    assert!(out.contains("❯ \x1b[0moné\x1b[7m \x1b[27m"));
    assert!(out.ends_with("\x1b[1;7H\x1b[?2026l"));
}

#[test]
fn scrolled_view_starts_at_its_offset() {
    let rows = (0..9).map(|i| commit("kx", &format!("number {i}"))).collect();
    let mut app = App::new(rows);
    app.resize(6);
    handle_key(&mut app, Key::End, false);
    let out = draw(&app, 60);
    assert!(out.contains("\x1b[2;1H\x1b[K  ○  kx number 6"));
    assert!(out.contains("number 8"));
    assert!(!out.contains("number 5"));
}

#[test]
fn log_rows_are_padded_or_highlighted() {
    let row = commit("kx", "a\x1b[0mb");
    let mut buf = Vec::new();
    let column = render_log_row(&mut buf, &row, false, false, 14, "\x1b[7m");
    assert_eq!(column, 15);
    assert_eq!(
        String::from_utf8(buf).unwrap(),
        "  ○  kx a\x1b[0mb\x1b[0m    "
    );
    let mut buf = Vec::new();
    let column = render_log_row(&mut buf, &row, true, true, 14, "\x1b[7m");
    assert_eq!(column, 11);
    assert_eq!(
        String::from_utf8(buf).unwrap(),
        "\x1b[1m\x1b[33m▎ \x1b[0m\x1b[7m○  kx a\x1b[0m\x1b[7mb\x1b[0m"
    );
    let mut buf = Vec::new();
    assert_eq!(render_log_row(&mut buf, &row, true, false, 1, "\x1b[7m"), 3);
    let mut buf = Vec::new();
    assert_eq!(render_log_row(&mut buf, &row, true, false, 6, "\x1b[7m"), 7);
}

#[test]
fn column_after_the_text_is_returned() {
    let mut row = commit("kx", "");
    row.styled = b"abc".to_vec();
    let mut buf = Vec::new();
    assert_eq!(render_log_row(&mut buf, &row, true, false, 20, "\x1b[7m"), 6);
    let mut buf = Vec::new();
    assert_eq!(render_log_row(&mut buf, &row, false, false, 20, "\x1b[7m"), 21);
}

#[test]
fn light_terminals_are_told_by_their_background() {
    for v in ["0;15", "0;7", "7", "0;default;15", "0;+7", "0;007"] {
        assert!(is_light_terminal(Some(v)), "{v}");
    }
    for v in ["15;0", "0;8", "", "0;", "0;263", "0;x7", "0;-7", "0;7 ", "7;", "0;+", "0;1015"] {
        assert!(!is_light_terminal(Some(v)), "{v}");
    }
    assert!(!is_light_terminal(None));
    assert_eq!(cursor_bg(true), "\x1b[7m");
    assert_eq!(cursor_bg(false), "\x1b[48;5;237m");
}

#[test]
fn light_terminals_get_reverse_video() {
    let mut app = App::new(vec![commit("kx", "one")]);
    app.resize(5);
    let out = String::from_utf8(render(&app, 40, &target(), true)).unwrap();
    assert!(out.contains("\x1b[7m○  kx one\x1b[0m"));
    assert!(!out.contains("\x1b[48;5;237m"));
}

#[test]
fn hints_are_written_in_two_weights() {
    let mut buf = b"x".to_vec();
    write_hint_pair(&mut buf, "esc", "quit");
    assert_eq!(
        String::from_utf8(buf).unwrap(),
        "x · \x1b[22mesc\x1b[2m quit"
    );
}

#[test]
fn tiny_screen_has_no_room_for_the_command() {
    let mut app = App::new(vec![commit("kx", "one")]);
    app.resize(2);
    let out = draw(&app, 2);
    assert!(out.contains("\x1b[2;1H\x1b[K\x1b[1;32m▶ \x1b[0m"));
    assert!(out.contains("\x1b[3;1H\x1b[2m[1/1]"));
}

#[test]
fn shown_command_is_the_one_that_enter_runs() {
    let mut app = App::new(vec![commit("kx", "one"), commit("ly", "two")]);
    app.resize(10);
    handle_key(&mut app, Key::Down, false);
    let ids = handle_key(&mut app, Key::Enter, false).unwrap().unwrap();
    let line = match finish(&target(), Some(&ids), true) {
        Action::Print(line) => line,
        _ => panic!("nothing is printed"),
    };
    assert_eq!(line, "jj describe -m 'fix typo' -r ly");
    assert!(draw(&app, 79).contains(&format!("▶ {line}\x1b[0m")));
}
