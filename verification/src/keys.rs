//! What the keys of the picker do.

use crate::picker::{in_log_order, scores, App, Picker};
use crate::rank::law_ranking_is_unique;
use crate::text::{
    blanks, equal_to, from_chars, is_whitespace, lemma_trail, lemma_trail_bounds, not, strs,
    to_chars, trail, whitespace,
};
use vstd::prelude::*;
use vstd::slice::slice_subrange;

verus! {

/// A key of the keyboard, as far as the picker tells keys apart.
#[derive(Debug, Clone, Copy, PartialEq, Eq, Structural)]
pub enum Key {
    Char(char),
    Esc,
    Enter,
    Tab,
    Up,
    Down,
    PageUp,
    PageDown,
    Home,
    End,
    Backspace,
    Other,
}

/// What a key asks for.
pub enum Command {
    /// Leave without a pick.
    Cancel,
    /// Leave with the pick.
    Confirm,
    /// Move the cursor by so many rows.
    Move(int),
    Top,
    Bottom,
    Toggle,
    /// Change the filter to this.
    Filter(Seq<char>),
    Ignore,
}

/// The text without its last character.
pub open spec fn chopped(s: Seq<char>) -> Seq<char> {
    if s.len() == 0 {
        s
    } else {
        s.drop_last()
    }
}

/// The text without its last word and the spaces after that.
pub open spec fn without_word(s: Seq<char>) -> Seq<char> {
    let a = s.take(s.len() - trail(s, equal_to(' ')));
    a.take(a.len() - trail(a, not(blanks())))
}

/// A screen of rows; at least one.
pub open spec fn page(p: Picker) -> int {
    if p.last_height > 1 {
        p.last_height
    } else {
        1
    }
}

/// What a key asks for, with or without Ctrl, in the state `p`.
pub open spec fn command(key: Key, ctrl: bool, p: Picker) -> Command {
    if ctrl {
        match key {
            Key::Char(c) => if c == 'c' {
                Command::Cancel
            } else if c == 'n' || c == 'j' {
                Command::Move(1)
            } else if c == 'p' || c == 'k' {
                Command::Move(-1)
            } else if c == 'a' {
                Command::Top
            } else if c == 'e' {
                Command::Bottom
            } else if c == 'h' {
                Command::Filter(chopped(p.filter))
            } else if c == 'u' {
                Command::Filter(seq![])
            } else if c == 'w' {
                Command::Filter(without_word(p.filter))
            } else {
                Command::Ignore
            },
            _ => Command::Ignore,
        }
    } else {
        match key {
            Key::Esc => Command::Cancel,
            Key::Enter => Command::Confirm,
            Key::Tab => Command::Toggle,
            Key::Up => Command::Move(-1),
            Key::Down => Command::Move(1),
            Key::PageUp => Command::Move(-page(p)),
            Key::PageDown => Command::Move(page(p)),
            Key::Home => Command::Top,
            Key::End => Command::Bottom,
            Key::Backspace => Command::Filter(chopped(p.filter)),
            Key::Char(c) => Command::Filter(p.filter.push(c)),
            Key::Other => Command::Ignore,
        }
    }
}

/// Whether a command takes the state `before` to `after`.
pub open spec fn carried_out(cmd: Command, before: Picker, after: Picker) -> bool {
    match cmd {
        Command::Move(n) => after == before.moved(n),
        Command::Top => after == before.at_top(),
        Command::Bottom => after == before.at_bottom(),
        Command::Toggle => after == before.toggled(),
        Command::Filter(f) => before.refiltered(f, after),
        _ => after == before,
    }
}

/// What the picker ends with, if a command ends it: `Some(None)` without a
/// pick, `Some(Some(ids))` with one.
pub open spec fn outcome(cmd: Command, p: Picker) -> Option<Option<Seq<Seq<char>>>> {
    match cmd {
        Command::Cancel => Some(None),
        Command::Confirm => Some(Some(p.pending())),
        _ => None,
    }
}

/// Takes the last word off, and the spaces after it.
pub fn delete_word(s: &mut String)
    ensures
        final(s)@ == without_word(old(s)@),
{
    let ghost start = s@;
    let chars = to_chars(s.as_str());
    let mut n: usize = chars.len();
    while n > 0 && chars[n - 1] == ' '
        invariant
            chars@ == start,
            n <= chars@.len(),
            forall|k: int| n <= k < start.len() ==> equal_to(' ')(#[trigger] start[k]),
        decreases n,
    {
        n -= 1;
    }
    let ghost a = start.take(n as int);
    proof {
        lemma_trail(start, equal_to(' '), start.len() - n);
    }
    while n > 0 && !is_whitespace(chars[n - 1])
        invariant
            chars@ == start,
            n <= a.len() <= start.len(),
            a == start.take(a.len() as int),
            forall|k: int| n <= k < a.len() ==> not(blanks())(#[trigger] a[k]),
        decreases n,
    {
        assert(a[n - 1] == start[n - 1]);
        n -= 1;
    }
    proof {
        if n > 0 {
            assert(a[n - 1] == start[n - 1]);
        }
        lemma_trail(a, not(blanks()), a.len() - n);
        assert(chars@.subrange(0, n as int) =~= a.take(n as int));
    }
    *s = from_chars(slice_subrange(chars.as_slice(), 0, n));
}

/// The picks that a result carries.
pub open spec fn result_of(r: Option<Option<Vec<String>>>) -> Option<Option<Seq<Seq<char>>>> {
    match r {
        Some(Some(ids)) => Some(Some(strs(ids@))),
        Some(None) => Some(None),
        None => None,
    }
}

impl App {
    /// Lists the rows for a filter that has one character less.
    fn chop_filter(&mut self)
        requires
            old(self).wf(),
        ensures
            final(self).wf(),
            old(self)@.refiltered(chopped(old(self)@.filter), final(self)@),
    {
        self.filter.pop();
        self.refilter();
    }
}

/// Carries out what a key asks for. `Some` when that ends the picker: with
/// nothing, or with the ids of the picked revisions.
pub fn handle_key(app: &mut App, key: Key, ctrl: bool) -> (r: Option<Option<Vec<String>>>)
    requires
        old(app).wf(),
    ensures
        final(app).wf(),
        carried_out(command(key, ctrl, old(app)@), old(app)@, final(app)@),
        result_of(r) == outcome(command(key, ctrl, old(app)@), old(app)@),
{
    if ctrl {
        match key {
            Key::Char(c) => {
                if c == 'c' {
                    return Some(None);
                } else if c == 'n' || c == 'j' {
                    app.move_cursor(1);
                } else if c == 'p' || c == 'k' {
                    app.move_cursor(-1);
                } else if c == 'a' {
                    app.jump_top();
                } else if c == 'e' {
                    app.jump_bottom();
                } else if c == 'h' {
                    app.chop_filter();
                } else if c == 'u' {
                    app.filter = String::new();
                    assert(app.filter@ =~= seq![]);
                    app.refilter();
                } else if c == 'w' {
                    delete_word(&mut app.filter);
                    app.refilter();
                }
            },
            _ => {},
        }
        return None;
    }
    match key {
        Key::Esc => Some(None),
        Key::Enter => Some(Some(app.pending_ids())),
        Key::Tab => {
            app.toggle_select();
            None
        },
        Key::Up => {
            app.move_cursor(-1);
            None
        },
        Key::Down => {
            app.move_cursor(1);
            None
        },
        Key::PageUp => {
            let n: isize = if app.last_height > 1 {
                app.last_height as isize
            } else {
                1
            };
            app.move_cursor(-n);
            None
        },
        Key::PageDown => {
            let n: isize = if app.last_height > 1 {
                app.last_height as isize
            } else {
                1
            };
            app.move_cursor(n);
            None
        },
        Key::Home => {
            app.jump_top();
            None
        },
        Key::End => {
            app.jump_bottom();
            None
        },
        Key::Backspace => {
            app.chop_filter();
            None
        },
        Key::Char(c) => {
            app.filter.push(c);
            app.refilter();
            None
        },
        Key::Other => None,
    }
}

/// What happens at the terminal.
pub enum Event {
    /// A key is pressed, with or without Ctrl.
    Press { key: Key, ctrl: bool },
    /// The terminal takes another size.
    Resize { cols: u16, rows: u16 },
    Other,
}

/// What the picker does about an event.
pub enum Reaction {
    /// Draw again.
    Redraw,
    /// Clear the screen, and draw again for this width.
    Reflow { cols: u16 },
    /// Leave, with nothing or with the ids of the picked revisions.
    Done(Option<Vec<String>>),
}

/// The result that a reaction carries, if it ends the picker.
pub open spec fn ended(r: Reaction) -> Option<Option<Seq<Seq<char>>>> {
    match r {
        Reaction::Done(Some(ids)) => Some(Some(strs(ids@))),
        Reaction::Done(None) => Some(None),
        _ => None,
    }
}

/// Takes an event in.
pub fn handle_event(app: &mut App, event: Event) -> (r: Reaction)
    requires
        old(app).wf(),
    ensures
        final(app).wf(),
        match event {
            Event::Press { key, ctrl } => {
                let cmd = command(key, ctrl, old(app)@);
                &&& carried_out(cmd, old(app)@, final(app)@)
                &&& ended(r) == outcome(cmd, old(app)@)
                &&& r !is Reflow
            },
            Event::Resize { cols, rows } => {
                &&& final(app)@ == old(app)@.resized(rows as int)
                &&& r == Reaction::Reflow { cols }
            },
            Event::Other => final(app)@ == old(app)@ && r == Reaction::Redraw,
        },
{
    match event {
        Event::Press { key, ctrl } => match handle_key(app, key, ctrl) {
            Some(result) => Reaction::Done(result),
            None => Reaction::Redraw,
        },
        Event::Resize { cols, rows } => {
            app.resize(rows);
            Reaction::Reflow { cols }
        },
        Event::Other => Reaction::Redraw,
    }
}

// ---------------------------------------------------------------------------
// Laws

/// Backspace undoes typing: a character typed and deleted again leaves the
/// filter as it was, and the same rows are listed in the same order.
pub proof fn law_backspace_undoes_typing(p: Picker, c: char, mid: Picker, after: Picker)
    requires
        p.wf(),
        carried_out(command(Key::Char(c), false, p), p, mid),
        carried_out(command(Key::Backspace, false, mid), mid, after),
    ensures
        after.filter == p.filter,
        after.filtered == p.filtered,
        after.selected == p.selected,
{
    assert(p.filter.push(c).drop_last() =~= p.filter);
    if p.filter.len() > 0 {
        law_ranking_is_unique(scores(p.rows, p.filter), after.filtered, p.filtered);
    }
}

/// Ctrl-U lists all rows again.
pub proof fn law_clearing_lists_all(p: Picker, after: Picker)
    requires
        p.wf(),
        carried_out(command(Key::Char('u'), true, p), p, after),
    ensures
        after.filter.len() == 0,
        after.filtered == in_log_order(p.rows.len()),
{
}

/// Only Tab changes what is selected, whatever the other keys do.
pub proof fn law_only_tab_selects(key: Key, ctrl: bool, p: Picker, after: Picker)
    requires
        key != Key::Tab,
        carried_out(command(key, ctrl, p), p, after),
    ensures
        after.selected == p.selected,
        after.rows == p.rows,
{
}

/// Only Enter picks, and only Esc and Ctrl-C cancel; every other key leaves the
/// picker running.
pub proof fn law_few_keys_end_the_picker(key: Key, ctrl: bool, p: Picker)
    ensures
        outcome(command(key, ctrl, p), p) is Some <==> (!ctrl && (key == Key::Enter || key
            == Key::Esc)) || (ctrl && key == Key::Char('c')),
{
}

/// What the keys that move the cursor do. A page is as many rows as the log has
/// on the screen, and at least one.
pub proof fn law_keys_that_move(p: Picker, after: Picker)
    ensures
        carried_out(command(Key::Up, false, p), p, after) <==> after == p.moved(-1),
        carried_out(command(Key::Down, false, p), p, after) <==> after == p.moved(1),
        carried_out(command(Key::Char('p'), true, p), p, after) <==> after == p.moved(-1),
        carried_out(command(Key::Char('k'), true, p), p, after) <==> after == p.moved(-1),
        carried_out(command(Key::Char('n'), true, p), p, after) <==> after == p.moved(1),
        carried_out(command(Key::Char('j'), true, p), p, after) <==> after == p.moved(1),
        p.last_height > 0 ==> {
            &&& carried_out(command(Key::PageUp, false, p), p, after) <==> after == p.moved(
                -p.last_height,
            )
            &&& carried_out(command(Key::PageDown, false, p), p, after) <==> after == p.moved(
                p.last_height,
            )
        },
        p.last_height == 0 ==> {
            &&& carried_out(command(Key::PageUp, false, p), p, after) <==> after == p.moved(-1)
            &&& carried_out(command(Key::PageDown, false, p), p, after) <==> after == p.moved(1)
        },
        carried_out(command(Key::Home, false, p), p, after) <==> after == p.at_top(),
        carried_out(command(Key::Char('a'), true, p), p, after) <==> after == p.at_top(),
        carried_out(command(Key::End, false, p), p, after) <==> after == p.at_bottom(),
        carried_out(command(Key::Char('e'), true, p), p, after) <==> after == p.at_bottom(),
{
}

/// What the other keys do: a character is added to the filter, Backspace and
/// Ctrl-H take the last one off, Ctrl-U takes all of them off, Tab selects, and
/// Enter picks. Whatever else is pressed with Ctrl does nothing.
pub proof fn law_keys_that_edit_and_end(p: Picker, c: char, after: Picker)
    ensures
        carried_out(command(Key::Char(c), false, p), p, after) <==> p.refiltered(
            p.filter + seq![c],
            after,
        ),
        p.filter.len() > 0 ==> {
            &&& carried_out(command(Key::Backspace, false, p), p, after) <==> p.refiltered(
                p.filter.take(p.filter.len() - 1),
                after,
            )
            &&& carried_out(command(Key::Char('h'), true, p), p, after) <==> p.refiltered(
                p.filter.take(p.filter.len() - 1),
                after,
            )
        },
        p.filter.len() == 0 ==> {
            &&& carried_out(command(Key::Backspace, false, p), p, after) <==> p.refiltered(
                p.filter,
                after,
            )
            &&& carried_out(command(Key::Char('h'), true, p), p, after) <==> p.refiltered(
                p.filter,
                after,
            )
        },
        carried_out(command(Key::Char('u'), true, p), p, after) <==> p.refiltered(seq![], after),
        carried_out(command(Key::Tab, false, p), p, after) <==> after == p.toggled(),
        outcome(command(Key::Enter, false, p), p) == Some(Some(p.pending())),
        outcome(command(Key::Esc, false, p), p) == Some(None::<Seq<Seq<char>>>),
        outcome(command(Key::Char('c'), true, p), p) == Some(None::<Seq<Seq<char>>>),
        c != 'n' && c != 'j' && c != 'p' && c != 'k' && c != 'a' && c != 'e' && c != 'h' && c != 'u'
            && c != 'w' && carried_out(command(Key::Char(c), true, p), p, after) ==> after == p,
        carried_out(command(Key::Enter, false, p), p, after) <==> after == p,
        carried_out(command(Key::Esc, false, p), p, after) <==> after == p,
{
    assert(p.filter + seq![c] =~= p.filter.push(c));
    if p.filter.len() > 0 {
        assert(p.filter.take(p.filter.len() - 1) =~= p.filter.drop_last());
    }
}

/// What Ctrl-W takes off the filter: the spaces at its end, and before them one
/// word, back to whitespace or to the start. What is left is the start of the
/// filter as it was.
pub proof fn law_word_is_deleted(p: Picker, after: Picker)
    requires
        carried_out(command(Key::Char('w'), true, p), p, after),
    ensures
        ({
            let s = p.filter;
            let n = after.filter.len() as int;
            &&& n <= s.len() && after.filter == s.take(n)
            &&& n == 0 || whitespace(s[n - 1])
            &&& exists|m: int|
                #![trigger s.take(m)]
                n <= m <= s.len() && (forall|k: int|
                    #![trigger s[k]]
                    n <= k < m ==> !whitespace(s[k])) && (forall|k: int|
                    #![trigger s[k]]
                    m <= k < s.len() ==> s[k] == ' ') && (m == 0 || s[m - 1] != ' ')
        }),
{
    let s = p.filter;
    lemma_trail_bounds(s, equal_to(' '));
    let m = s.len() - trail(s, equal_to(' '));
    let a = s.take(m);
    lemma_trail_bounds(a, not(blanks()));
    let n = after.filter.len() as int;
    assert(after.filter =~= s.take(n));
    assert forall|k: int| n <= k < m implies !whitespace(#[trigger] s[k]) by {
        assert(not(blanks())(a[k]));
    }
    assert forall|k: int| m <= k < s.len() implies #[trigger] s[k] == ' ' by {
        assert(equal_to(' ')(s[k]));
    }
    if n > 0 {
        assert(!not(blanks())(a[n - 1]));
    }
}

} // verus!
