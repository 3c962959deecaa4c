use jjf::keys::{delete_word, handle_event, handle_key, Event, Key, Reaction};
use jjf::picker::{short_id, App};
use jjf::preview::PreviewParts;
use jjf::row::Row;

fn commit(id: &str, text: &str) -> Row {
    Row {
        change_id_short: format!("{id}{id}{id}{id}"),
        change_id_prefix: id.into(),
        commit_id_short: format!("0{id}"),
        commit_id_prefix: format!("0{id}"),
        plain: format!("○  {id} {text}"),
        styled: format!("○  {id} {text}").into_bytes(),
    }
}

fn connector(text: &str) -> Row {
    Row {
        change_id_short: String::new(),
        change_id_prefix: String::new(),
        commit_id_short: String::new(),
        commit_id_prefix: String::new(),
        plain: text.into(),
        styled: text.as_bytes().to_vec(),
    }
}

/// Rows: 0 commit, 1 connector, 2 commit, 3 commit, 4 connector, 5 connector,
/// 6 commit, 7 connector.
fn app() -> App {
    let mut app = App::new(vec![
        commit("kx", "alpha feature"),
        connector("├─╮"),
        commit("ly", "beta fix"),
        commit("mz", "gamma docs"),
        connector("├─╯"),
        connector("│"),
        commit("nw", "delta feature"),
        connector("~"),
    ]);
    app.resize(24);
    app
}

fn press(app: &mut App, key: Key) {
    assert!(handle_key(app, key, false).is_none());
}

fn ctrl(app: &mut App, c: char) {
    assert!(handle_key(app, Key::Char(c), true).is_none());
}

fn type_text(app: &mut App, text: &str) {
    for c in text.chars() {
        press(app, Key::Char(c));
    }
}

#[test]
fn all_rows_are_listed_at_first() {
    let app = app();
    assert_eq!(app.filtered, vec![0, 1, 2, 3, 4, 5, 6, 7]);
    assert_eq!(app.cursor, 0);
    assert_eq!(app.view_offset, 0);
    assert_eq!(app.last_height, 21);
}

#[test]
fn cursor_starts_on_a_commit() {
    let app = App::new(vec![connector("~"), commit("kx", "a")]);
    assert_eq!(app.cursor, 1);
    let app = App::new(vec![connector("~"), connector("│")]);
    assert_eq!(app.cursor, 0);
    let app = App::new(vec![]);
    assert_eq!(app.cursor, 0);
}

#[test]
fn navigation_passes_over_connectors() {
    let mut app = app();
    let mut seen = vec![app.cursor];
    for _ in 0..4 {
        press(&mut app, Key::Down);
        seen.push(app.cursor);
    }
    assert_eq!(seen, vec![0, 2, 3, 6, 6]);
    seen.clear();
    for _ in 0..4 {
        press(&mut app, Key::Up);
        seen.push(app.cursor);
    }
    assert_eq!(seen, vec![3, 2, 0, 0]);
}

#[test]
fn step_up_comes_back() {
    let mut app = app();
    press(&mut app, Key::Down);
    press(&mut app, Key::Down);
    assert_eq!(app.cursor, 3);
    ctrl(&mut app, 'n');
    assert_eq!(app.cursor, 6);
    ctrl(&mut app, 'p');
    assert_eq!(app.cursor, 3);
    ctrl(&mut app, 'j');
    ctrl(&mut app, 'k');
    assert_eq!(app.cursor, 3);
}

#[test]
fn jumps_go_to_the_outermost_commits() {
    let mut app = app();
    press(&mut app, Key::End);
    assert_eq!(app.cursor, 6);
    press(&mut app, Key::Home);
    assert_eq!(app.cursor, 0);
    ctrl(&mut app, 'e');
    assert_eq!(app.cursor, 6);
    ctrl(&mut app, 'a');
    assert_eq!(app.cursor, 0);
}

#[test]
fn pages_are_as_high_as_the_log() {
    let mut app = app();
    app.resize(5);
    assert_eq!(app.last_height, 2);
    press(&mut app, Key::PageDown);
    assert_eq!(app.cursor, 2);
    press(&mut app, Key::PageDown);
    assert_eq!(app.cursor, 6);
    press(&mut app, Key::PageUp);
    assert_eq!(app.cursor, 3);
    // Without room for the log a page is one row.
    app.resize(2);
    assert_eq!(app.last_height, 0);
    press(&mut app, Key::PageUp);
    assert_eq!(app.cursor, 2);
}

#[test]
fn view_follows_the_cursor() {
    let mut app = app();
    app.resize(5);
    press(&mut app, Key::End);
    assert_eq!(app.view_offset, 5);
    press(&mut app, Key::Up);
    assert_eq!((app.cursor, app.view_offset), (3, 3));
    press(&mut app, Key::Home);
    assert_eq!(app.view_offset, 0);
}

#[test]
fn enter_picks_the_cursor_row() {
    let mut app = app();
    press(&mut app, Key::Down);
    assert_eq!(
        handle_key(&mut app, Key::Enter, false),
        Some(Some(vec!["ly".to_string()]))
    );
}

#[test]
fn selected_rows_are_picked_in_log_order() {
    let mut app = app();
    press(&mut app, Key::End);
    press(&mut app, Key::Tab);
    press(&mut app, Key::Home);
    press(&mut app, Key::Tab);
    press(&mut app, Key::Down);
    assert_eq!(app.pending_ids(), vec!["kx", "nw"]);
}

#[test]
fn selecting_twice_restores() {
    let mut app = app();
    press(&mut app, Key::Tab);
    assert!(app.selected.contains(&0));
    press(&mut app, Key::Tab);
    assert!(app.selected.is_empty());
    assert_eq!(app.pending_ids(), vec!["kx"]);
}

#[test]
fn connectors_are_neither_selected_nor_picked() {
    let mut app = App::new(vec![connector("│"), connector("~")]);
    app.resize(24);
    press(&mut app, Key::Tab);
    assert!(app.selected.is_empty());
    assert_eq!(handle_key(&mut app, Key::Enter, false), Some(Some(vec![])));
    press(&mut app, Key::Down);
    assert_eq!(app.cursor, 1);
}

#[test]
fn escape_and_interrupt_cancel() {
    let mut app = app();
    assert_eq!(handle_key(&mut app, Key::Esc, false), Some(None));
    assert_eq!(handle_key(&mut app, Key::Char('c'), true), Some(None));
}

#[test]
fn filter_lists_matching_commits() {
    let mut app = app();
    type_text(&mut app, "feature");
    assert_eq!(app.filter, "feature");
    let mut listed = app.filtered.clone();
    listed.sort();
    assert_eq!(listed, vec![0, 6]);
    assert_eq!(app.cursor, 0);
    ctrl(&mut app, 'u');
    assert_eq!(app.filter, "");
    assert_eq!(app.filtered.len(), 8);
}

#[test]
fn filter_leaves_connectors_out() {
    let mut app = app();
    type_text(&mut app, "~");
    assert!(app.filtered.is_empty());
    assert_eq!(app.cursor, 0);
    assert_eq!(app.pending_ids(), Vec::<String>::new());
    press(&mut app, Key::Down);
    press(&mut app, Key::End);
    press(&mut app, Key::Tab);
    assert_eq!(app.cursor, 0);
}

#[test]
fn highlighted_change_id_comes_first() {
    let mut app = App::new(vec![
        commit("kx", "nw nw nw"),
        commit("ab", "other"),
        commit("nw", "late"),
    ]);
    app.resize(24);
    type_text(&mut app, "nw");
    assert_eq!(app.filtered[0], 2);
    assert_eq!(app.cursor, 0);
    assert_eq!(app.pending_ids(), vec!["nw"]);
}

#[test]
fn deleting_undoes_typing() {
    let mut app = app();
    type_text(&mut app, "fe");
    let before = app.filtered.clone();
    press(&mut app, Key::Char('z'));
    press(&mut app, Key::Backspace);
    assert_eq!(app.filter, "fe");
    assert_eq!(app.filtered, before);
    ctrl(&mut app, 'h');
    assert_eq!(app.filter, "f");
    ctrl(&mut app, 'h');
    ctrl(&mut app, 'h');
    assert_eq!(app.filter, "");
}

#[test]
fn words_are_deleted_from_the_end() {
    let after = |s: &str| {
        let mut s = s.to_string();
        delete_word(&mut s);
        s
    };
    assert_eq!(after("one two"), "one ");
    assert_eq!(after("one two  "), "one ");
    assert_eq!(after("one"), "");
    assert_eq!(after("one\ttwo"), "one\t");
    assert_eq!(after("one \t "), "one \t");
    assert_eq!(after(""), "");
    let mut app = app();
    type_text(&mut app, "beta fix");
    ctrl(&mut app, 'w');
    assert_eq!(app.filter, "beta ");
}

#[test]
fn selection_survives_filtering() {
    let mut app = app();
    press(&mut app, Key::Tab);
    type_text(&mut app, "gamma");
    press(&mut app, Key::Tab);
    assert_eq!(app.pending_ids(), vec!["kx", "mz"]);
}

#[test]
fn other_keys_do_nothing() {
    let mut app = app();
    press(&mut app, Key::Down);
    press(&mut app, Key::Other);
    ctrl(&mut app, 'z');
    assert!(handle_key(&mut app, Key::Enter, true).is_none());
    assert_eq!(app.cursor, 2);
    assert_eq!(app.filter, "");
}

#[test]
fn events_are_taken_in() {
    let mut app = app();
    let r = handle_event(&mut app, Event::Resize { cols: 100, rows: 30 });
    assert!(matches!(r, Reaction::Reflow { cols: 100 }));
    assert_eq!(app.last_height, 27);
    let r = handle_event(&mut app, Event::Press { key: Key::Down, ctrl: false });
    assert!(matches!(r, Reaction::Redraw));
    assert_eq!(app.cursor, 2);
    let r = handle_event(&mut app, Event::Press { key: Key::Enter, ctrl: false });
    assert!(matches!(r, Reaction::Done(Some(ids)) if ids == vec!["ly"]));
    assert!(matches!(handle_event(&mut app, Event::Other), Reaction::Redraw));
    let r = handle_event(&mut app, Event::Press { key: Key::Esc, ctrl: false });
    assert!(matches!(r, Reaction::Done(None)));
}

#[test]
fn previews_are_fetched_once() {
    let mut app = app();
    assert_eq!(app.wanted_preview(79), None);
    assert_eq!(app.wanted_preview(80), Some(0));
    app.store_preview(
        0,
        PreviewParts {
            description: b"d".to_vec(),
            files: Vec::new(),
        },
    );
    assert_eq!(app.wanted_preview(80), None);
    press(&mut app, Key::Down);
    assert_eq!(app.wanted_preview(80), Some(2));
    type_text(&mut app, "~~~");
    assert_eq!(app.wanted_preview(80), None);
}

#[test]
fn shortest_id_is_preferred() {
    assert_eq!(short_id(&commit("kx", "a")), "kx");
    let mut row = commit("kx", "a");
    row.change_id_prefix = String::new();
    assert_eq!(short_id(&row), "kxkxkxkx");
}
