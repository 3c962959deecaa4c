//! What the picker draws.
//!
//! The screen has the input on its first row, the log below it, then the
//! command that Enter would run, and hints on the last row. Where it is wide
//! enough the right half is a preview of the revision under the cursor.
//!
//! With `left_w` columns for the log, a row of the screen is laid out so:
//!
//! * columns 1 to `left_w`: the log row, padded;
//! * 2 columns of space;
//! * column `left_w + 3`: the edge of the preview, `│`, and 2 columns of space;
//! * from column `left_w + 6`: the preview.
//!
//! The log row under the cursor is not padded. An arrow leads from the end of
//! its text, after one space, one column into the preview: `●`, then `─` up to
//! column `left_w + 3`, then `▶`.

use crate::ansi::{
    inject, inject_bg_into, keep, law_truncated_width, truncate_ansi, units, visible, visible_width,
};
use crate::command::{command_line, line_words};
use crate::picker::{lemma_listed_rows, App, Picker, PREVIEW_MIN_COLS};
use crate::preview::{build_preview_lines, preview_lines};
use crate::row::{Row, RowData};
use crate::target::{RevsetTarget, Target};
use crate::text::{equal_to, from_chars, join, lemma_trail, not, seqs, to_chars, trail};
use vstd::prelude::*;
use vstd::slice::slice_subrange;
use vstd::utf8::encode_utf8;

verus! {

broadcast use vstd::std_specs::hash::group_hash_axioms;

pub const SGR_RESET: &'static str = "\x1b[0m";

pub const SGR_DIM: &'static str = "\x1b[2m";

pub const SGR_NORMAL_WEIGHT: &'static str = "\x1b[22m";

pub const SGR_BOLD: &'static str = "\x1b[1m";

pub const SGR_BOLD_GREEN: &'static str = "\x1b[1;32m";

pub const SGR_FG_CYAN: &'static str = "\x1b[36m";

pub const SGR_FG_YELLOW: &'static str = "\x1b[33m";

pub const ERASE_TO_EOL: &'static str = "\x1b[K";

pub const SHOW_CURSOR: &'static str = "\x1b[?25h";

pub const HIDE_CURSOR: &'static str = "\x1b[?25l";

pub const ENTER_ALT_SCREEN: &'static str = "\x1b[?1049h";

pub const LEAVE_ALT_SCREEN: &'static str = "\x1b[?1049l";

pub const CLEAR_SCREEN: &'static str = "\x1b[2J";

/// Synchronized output: a terminal that knows it shows what is written between
/// these at once, and others ignore them.
pub const SYNC_BEGIN: &'static str = "\x1b[?2026h";

pub const SYNC_END: &'static str = "\x1b[?2026l";

// ---------------------------------------------------------------------------
// Pieces of output

/// The bytes of a text.
#[verifier::opaque]
pub open spec fn txt(s: Seq<char>) -> Seq<u8> {
    encode_utf8(s)
}

/// A number in decimal.
pub open spec fn decimal(n: nat) -> Seq<u8>
    decreases n,
{
    if n < 10 {
        seq![(0x30 + n) as u8]
    } else {
        decimal(n / 10).push((0x30 + n % 10) as u8)
    }
}

/// Some bytes, `n` times.
pub open spec fn repeated(s: Seq<u8>, n: nat) -> Seq<u8>
    decreases n,
{
    if n == 0 {
        seq![]
    } else {
        repeated(s, (n - 1) as nat) + s
    }
}

/// The sequence that puts the cursor of the terminal at a row and a column.
pub open spec fn goto(row: nat, col: nat) -> Seq<u8> {
    txt("\x1b["@) + decimal(row) + txt(";"@) + decimal(col) + txt("H"@)
}

fn put(buf: &mut Vec<u8>, s: &str)
    ensures
        final(buf)@ == old(buf)@ + txt(s@),
{
    reveal(txt);
    buf.extend_from_slice(s.as_bytes());
}

fn put_decimal(buf: &mut Vec<u8>, n: usize)
    ensures
        final(buf)@ == old(buf)@ + decimal(n as nat),
    decreases n,
{
    let ghost start = buf@;
    if n >= 10 {
        put_decimal(buf, n / 10);
    }
    let digit = (n % 10) as u8;
    buf.push(0x30 + digit);
    assert(buf@ =~= start + decimal(n as nat));
}

fn put_repeated(buf: &mut Vec<u8>, s: &str, n: usize)
    ensures
        final(buf)@ == old(buf)@ + repeated(txt(s@), n as nat),
{
    let ghost start = buf@;
    assert(start + repeated(txt(s@), 0) =~= start);
    for i in 0..n
        invariant
            buf@ == start + repeated(txt(s@), i as nat),
    {
        put(buf, s);
        assert(start + repeated(txt(s@), i as nat) + txt(s@) =~= start + repeated(
            txt(s@),
            (i + 1) as nat,
        ));
    }
}

fn put_goto(buf: &mut Vec<u8>, row: usize, col: usize)
    ensures
        final(buf)@ == old(buf)@ + goto(row as nat, col as nat),
{
    let ghost start = buf@;
    put(buf, "\x1b[");
    put_decimal(buf, row);
    put(buf, ";");
    put_decimal(buf, col);
    put(buf, "H");
    assert(buf@ =~= start + goto(row as nat, col as nat));
}

// ---------------------------------------------------------------------------
// Colours

pub open spec fn digit(c: char) -> bool {
    '0' <= c <= '9'
}

pub open spec fn all_digits(s: Seq<char>) -> bool {
    forall|i: int| 0 <= i < s.len() ==> digit(#[trigger] s[i])
}

/// The number that a text of digits denotes, a leading `+` allowed.
pub open spec fn number(s: Seq<char>) -> Option<nat> {
    let digits = if s.len() > 0 && s[0] == '+' {
        s.skip(1)
    } else {
        s
    };
    if digits.len() > 0 && all_digits(digits) {
        Some(value(digits))
    } else {
        None
    }
}

/// The value of some digits.
pub open spec fn value(digits: Seq<char>) -> nat
    decreases digits.len(),
{
    if digits.len() == 0 {
        0
    } else {
        (value(digits.drop_last()) * 10 + (digits.last() as nat - '0' as nat)) as nat
    }
}

/// What follows the last `;`.
pub open spec fn last_field(s: Seq<char>) -> Seq<char> {
    s.skip(s.len() - trail(s, not(equal_to(';'))))
}

/// Whether `COLORFGBG` tells of a light background: its last field is colour 7
/// or 15.
pub open spec fn light(colorfgbg: Option<Seq<char>>) -> bool {
    match colorfgbg {
        Some(v) => number(last_field(v)) == Some(7nat) || number(last_field(v)) == Some(15nat),
        None => false,
    }
}

/// The highlight of the row under the cursor: a dark background, and reverse
/// video where that would not be seen.
pub open spec fn highlight(light: bool) -> Seq<char> {
    if light {
        "\x1b[7m"@
    } else {
        "\x1b[48;5;237m"@
    }
}

/// The highlight of the row under the cursor.
pub fn cursor_bg(light: bool) -> (s: &'static str)
    ensures
        s@ == highlight(light),
{
    if light {
        "\x1b[7m"
    } else {
        "\x1b[48;5;237m"
    }
}

fn small_number(digits: &[char]) -> (r: Option<usize>)
    ensures
        r is Some == all_digits(digits@),
        r matches Some(n) ==> n == value(digits@) || (n == 1000 && value(digits@) >= 1000),
{
    let mut n: usize = 0;
    for i in 0..digits.len()
        invariant
            n <= 1000,
            n == value(digits@.take(i as int)) || (n == 1000 && value(digits@.take(i as int))
                >= 1000),
            forall|k: int| 0 <= k < i ==> digit(#[trigger] digits@[k]),
    {
        let c = digits[i];
        if c < '0' || c > '9' {
            assert(!digit(digits@[i as int]));
            return None;
        }
        proof {
            assert(digits@.take(i + 1).drop_last() =~= digits@.take(i as int));
            assert(digits@.take(i + 1).last() == c);
        }
        let d = (c as u32 - '0' as u32) as usize;
        n = n * 10 + d;
        if n > 1000 {
            n = 1000;
        }
    }
    assert(digits@.take(digits@.len() as int) =~= digits@);
    Some(n)
}

/// Whether the terminal has a light background, by the value of the variable
/// `COLORFGBG`.
pub fn is_light_terminal(colorfgbg: Option<&str>) -> (r: bool)
    ensures
        r == light(
            match colorfgbg {
                Some(v) => Some(v@),
                None => None,
            },
        ),
{
    let v = match colorfgbg {
        Some(v) => to_chars(v),
        None => {
            return false;
        },
    };
    let ghost p = not(equal_to(';'));
    let mut start: usize = v.len();
    while start > 0 && v[start - 1] != ';'
        invariant
            start <= v@.len(),
            p == not(equal_to(';')),
            forall|k: int| start <= k < v@.len() ==> p(#[trigger] v@[k]),
        decreases start,
    {
        start -= 1;
    }
    proof {
        lemma_trail(v@, p, v@.len() - start);
    }
    let field = slice_subrange(v.as_slice(), start, v.len());
    assert(field@ =~= last_field(v@));
    let digits: &[char] = if field.len() > 0 && field[0] == '+' {
        slice_subrange(field, 1, field.len())
    } else {
        field
    };
    assert(field@.len() > 0 && field@[0] == '+' ==> digits@ =~= field@.skip(1));
    if digits.len() == 0 {
        return false;
    }
    match small_number(digits) {
        Some(n) => n == 7 || n == 15,
        None => false,
    }
}

// ---------------------------------------------------------------------------
// Log rows

/// The columns for the text of a log row: all but the gutter.
pub open spec fn content_width(width: nat) -> nat {
    if width > 2 {
        (width - 2) as nat
    } else {
        0
    }
}

/// The text of a log row, cut to the columns there are.
pub open spec fn row_text(row: RowData, width: nat) -> Seq<u8> {
    keep(units(row.styled), content_width(width)).flatten()
}

/// The columns that the text of a log row takes.
pub open spec fn row_used(row: RowData, width: nat) -> nat {
    visible(units(row_text(row, width)))
}

/// The gutter: a mark where the row is selected.
pub open spec fn gutter(is_selected: bool) -> Seq<u8> {
    if is_selected {
        txt(SGR_BOLD@) + txt(SGR_FG_YELLOW@) + txt("\u{258e} "@) + txt(SGR_RESET@)
    } else {
        txt("  "@)
    }
}

/// A log row. Under the cursor the text is highlighted and not padded; else it
/// is padded to `width`.
pub open spec fn log_row(
    row: RowData,
    is_cursor: bool,
    is_selected: bool,
    width: nat,
    bg: Seq<u8>,
) -> Seq<u8> {
    let text = row_text(row, width);
    let used = row_used(row, width);
    if is_cursor {
        gutter(is_selected) + bg + inject(text, bg) + txt(SGR_RESET@)
    } else {
        gutter(is_selected) + text + txt(SGR_RESET@) + repeated(
            txt(" "@),
            if content_width(width) > used {
                (content_width(width) - used) as nat
            } else {
                0
            },
        )
    }
}

/// The columns that a log row takes.
pub open spec fn log_row_used(row: RowData, is_cursor: bool, width: nat) -> nat {
    if is_cursor {
        2 + row_used(row, width)
    } else {
        width
    }
}

/// The column after a log row, counted from 1: where the space before the arrow
/// stands.
pub open spec fn log_row_end(row: RowData, is_cursor: bool, width: nat) -> nat {
    log_row_used(row, is_cursor, width) + 1
}

/// Draws the log half of one row, and returns the column after it, counted from
/// 1. Rows are padded to `width`; the row under the cursor has its background
/// on the text only and is not padded, since the arrow fills the rest.
#[verifier::rlimit(30)]
pub fn render_log_row(
    buf: &mut Vec<u8>,
    row: &Row,
    is_cursor: bool,
    is_selected: bool,
    width: usize,
    bg: &str,
) -> (column: usize)
    requires
        width < usize::MAX,
    ensures
        final(buf)@ == old(buf)@ + log_row(
            row@,
            is_cursor,
            is_selected,
            width as nat,
            txt(bg@),
        ),
        column == log_row_end(row@, is_cursor, width as nat),
{
    let ghost start = buf@;
    let content_w: usize = if width > 2 {
        width - 2
    } else {
        0
    };
    if is_selected {
        put(buf, SGR_BOLD);
        put(buf, SGR_FG_YELLOW);
        put(buf, "\u{258e} ");
        put(buf, SGR_RESET);
    } else {
        put(buf, "  ");
    }
    assert(buf@ =~= start + gutter(is_selected));
    let truncated = truncate_ansi(row.styled.as_slice(), content_w);
    let used = visible_width(truncated.as_slice());
    proof {
        law_truncated_width(row.styled@, content_w as nat);
    }
    if is_cursor {
        put(buf, bg);
        assert(encode_utf8(bg@) == txt(bg@)) by {
            reveal(txt);
        }
        inject_bg_into(buf, truncated.as_slice(), bg.as_bytes());
        put(buf, SGR_RESET);
        assert(buf@ =~= start + log_row(row@, is_cursor, is_selected, width as nat, txt(bg@)));
        2 + used + 1
    } else {
        buf.extend_from_slice(truncated.as_slice());
        put(buf, SGR_RESET);
        let pad: usize = if content_w > used {
            content_w - used
        } else {
            0
        };
        put_repeated(buf, " ", pad);
        assert(buf@ =~= start + log_row(row@, is_cursor, is_selected, width as nat, txt(bg@)));
        width + 1
    }
}

// ---------------------------------------------------------------------------
// Layout

/// Whether the terminal is wide enough for the preview.
pub open spec fn preview_on(cols: nat) -> bool {
    cols >= PREVIEW_MIN_COLS
}

/// The columns for the log.
pub open spec fn left_width(cols: nat) -> nat {
    if preview_on(cols) {
        (cols / 2 - 3) as nat
    } else {
        cols
    }
}

/// The columns from the edge of the preview on.
pub open spec fn right_width(cols: nat) -> nat {
    if preview_on(cols) {
        (cols - left_width(cols) - 2) as nat
    } else {
        0
    }
}

/// The lines of the preview. Its top border is beside the input, so that it
/// has a line for each row of the log.
pub open spec fn pane(p: Picker, cols: nat) -> Seq<Seq<u8>> {
    match p.current() {
        Some(r) => if preview_on(cols) && p.previews.contains_key(r) {
            preview_lines(p.previews[r], p.last_height as nat, (right_width(cols) - 3) as nat)
        } else {
            seq![]
        },
        None => seq![],
    }
}

/// The input: a prompt, the filter, and a caret in reverse video.
pub open spec fn input_row(filter: Seq<char>) -> Seq<u8> {
    goto(1, 1) + txt(SGR_BOLD@) + txt(SGR_FG_CYAN@) + txt("\u{276f} "@) + txt(SGR_RESET@) + txt(
        filter,
    ) + txt("\x1b[7m \x1b[27m"@) + txt(ERASE_TO_EOL@)
}

/// The top border of the preview.
pub open spec fn top_border(cols: nat) -> Seq<u8> {
    if preview_on(cols) {
        goto(1, left_width(cols) + 3) + txt(ERASE_TO_EOL@) + txt(SGR_DIM@) + txt("\u{250c}"@)
            + repeated(txt("\u{2500}"@), (right_width(cols) - 1) as nat) + txt(SGR_RESET@)
    } else {
        seq![]
    }
}

/// How many dashes lead to the preview from text that ends before `column`.
pub open spec fn dashes(left_w: nat, column: nat) -> nat {
    if left_w + 2 > column {
        (left_w + 2 - column) as nat
    } else {
        0
    }
}

/// The arrow from the row under the cursor into the preview.
pub open spec fn arrow(left_w: nat, column: nat) -> Seq<u8> {
    txt(" "@) + txt(SGR_DIM@) + txt("\u{25cf}"@) + repeated(
        txt("\u{2500}"@),
        dashes(left_w, column),
    ) + txt(SGR_RESET@) + txt(SGR_FG_CYAN@) + txt("\u{25b6}"@) + txt(SGR_RESET@) + txt(" "@)
}

/// The edge of the preview on another row.
pub open spec fn edge(y: nat, left_w: nat) -> Seq<u8> {
    goto(y, left_w + 1) + txt("  "@) + txt(SGR_DIM@) + txt("\u{2502}  "@) + txt(SGR_RESET@)
}

/// The preview half of the `i`-th row, whose log half ends before `column`.
pub open spec fn pane_part(
    on_cursor: bool,
    column: nat,
    i: nat,
    cols: nat,
    lines: Seq<Seq<u8>>,
) -> Seq<u8> {
    if preview_on(cols) {
        (if on_cursor {
            arrow(left_width(cols), column)
        } else {
            edge(i + 2, left_width(cols))
        }) + (if i < lines.len() {
            lines[i as int] + txt(SGR_RESET@)
        } else {
            seq![]
        })
    } else {
        seq![]
    }
}

/// The `i`-th row below the input.
pub open spec fn screen_line(
    p: Picker,
    i: nat,
    cols: nat,
    bg: Seq<u8>,
    lines: Seq<Seq<u8>>,
) -> Seq<u8> {
    let at = p.view_offset + i;
    let head = goto(i + 2, 1) + txt(ERASE_TO_EOL@);
    if at < p.filtered.len() {
        let r = p.filtered[at];
        let row = p.rows[r as int];
        head + log_row(row, at == p.cursor, p.selected.contains(r), left_width(cols), bg)
            + pane_part(
            at == p.cursor,
            log_row_end(row, at == p.cursor, left_width(cols)),
            i,
            cols,
            lines,
        )
    } else {
        head + pane_part(false, 1, i, cols, lines)
    }
}

/// The first `n` rows below the input.
pub open spec fn screen_lines(
    p: Picker,
    n: nat,
    cols: nat,
    bg: Seq<u8>,
    lines: Seq<Seq<u8>>,
) -> Seq<u8>
    decreases n,
{
    if n == 0 {
        seq![]
    } else {
        screen_lines(p, (n - 1) as nat, cols, bg, lines) + screen_line(
            p,
            (n - 1) as nat,
            cols,
            bg,
            lines,
        )
    }
}

/// A text in at most `max` columns, with an ellipsis where it is cut.
pub open spec fn clipped(s: Seq<char>, max: nat) -> Seq<char> {
    if s.len() <= max {
        s
    } else if max == 0 {
        seq![]
    } else {
        s.take(max - 1).push('\u{2026}')
    }
}

/// The columns for the command.
pub open spec fn command_width(cols: nat) -> nat {
    if cols > 2 {
        (cols - 2) as nat
    } else {
        0
    }
}

/// The command that Enter would run.
pub open spec fn shown_command(p: Picker, target: Target) -> Seq<char> {
    join(line_words(target, p.pending()), seq![' '])
}

/// The row that shows the command.
pub open spec fn command_row(p: Picker, cols: nat, target: Target) -> Seq<u8> {
    goto((p.last_height + 2) as nat, 1) + txt(ERASE_TO_EOL@) + txt(SGR_BOLD_GREEN@) + txt(
        "\u{25b6} "@,
    ) + txt(clipped(shown_command(p, target), command_width(cols))) + txt(SGR_RESET@)
}

/// How many rows are listed, of how many, and how many are selected.
pub open spec fn counts(p: Picker) -> Seq<u8> {
    txt("["@) + decimal(p.filtered.len()) + txt("/"@) + decimal(p.rows.len()) + (
    if p.selected.is_empty() {
        txt("]  "@)
    } else {
        txt(" \u{b7} "@) + decimal(p.selected.len()) + txt(" selected]  "@)
    })
}

/// The hints: keys and what they do.
pub open spec fn hint_text(i: int) -> (Seq<char>, Seq<char>) {
    if i == 0 {
        ("\u{2191}\u{2193}/^N^P"@, "nav"@)
    } else if i == 1 {
        ("tab"@, "select"@)
    } else if i == 2 {
        ("enter"@, "run"@)
    } else if i == 3 {
        ("^U"@, "clear"@)
    } else {
        ("esc"@, "quit"@)
    }
}

/// One hint.
pub open spec fn hint_pair(key: Seq<char>, label: Seq<char>) -> Seq<u8> {
    txt(" \u{b7} "@) + txt(SGR_NORMAL_WEIGHT@) + txt(key) + txt(SGR_DIM@) + txt(" "@) + txt(label)
}

/// The first `n` hints.
pub open spec fn hint_pairs(n: nat) -> Seq<u8>
    decreases n,
{
    if n == 0 {
        seq![]
    } else {
        hint_pairs((n - 1) as nat) + hint_pair(hint_text(n - 1).0, hint_text(n - 1).1)
    }
}

/// The hint row with `n` hints.
pub open spec fn hints(p: Picker, n: nat) -> Seq<u8> {
    txt(SGR_DIM@) + counts(p) + txt("type filter"@) + hint_pairs(n)
}

/// The columns that the hint row takes with `n` hints.
pub open spec fn hint_width(p: Picker, n: nat) -> nat {
    visible(units(hints(p, n)))
}

/// How many of the first `n` hints are shown: the last are dropped until the
/// row fits.
pub open spec fn shown_hints(p: Picker, n: nat, cols: nat) -> nat
    decreases n,
{
    if n == 0 || hint_width(p, n) <= cols {
        n
    } else {
        shown_hints(p, (n - 1) as nat, cols)
    }
}

/// The row of hints.
pub open spec fn hint_row(p: Picker, cols: nat) -> Seq<u8> {
    goto((p.last_height + 3) as nat, 1) + hints(p, shown_hints(p, 5, cols)) + txt(SGR_RESET@) + txt(
        ERASE_TO_EOL@,
    )
}

/// The terminal's cursor behind the caret of the input.
pub open spec fn parked(filter: Seq<char>) -> Seq<u8> {
    goto(1, filter.len() % 0x1_0000 + 4)
}

/// Everything that is written to draw the picker.
pub open spec fn frame(p: Picker, cols: nat, target: Target, light: bool) -> Seq<u8> {
    txt(SYNC_BEGIN@) + input_row(p.filter) + top_border(cols) + screen_lines(
        p,
        p.last_height as nat,
        cols,
        txt(highlight(light)),
        pane(p, cols),
    ) + command_row(p, cols, target) + hint_row(p, cols) + parked(p.filter) + txt(SYNC_END@)
}

// ---------------------------------------------------------------------------
// Drawing

fn draw_input(buf: &mut Vec<u8>, filter: &str)
    ensures
        final(buf)@ == old(buf)@ + input_row(filter@),
{
    let ghost start = buf@;
    put_goto(buf, 1, 1);
    put(buf, SGR_BOLD);
    put(buf, SGR_FG_CYAN);
    put(buf, "\u{276f} ");
    put(buf, SGR_RESET);
    put(buf, filter);
    put(buf, "\x1b[7m \x1b[27m");
    put(buf, ERASE_TO_EOL);
    assert(buf@ =~= start + input_row(filter@));
}

fn draw_border(buf: &mut Vec<u8>, cols: usize, left_w: usize, right_w: usize)
    requires
        cols <= 0xffff,
        left_w == left_width(cols as nat),
        right_w == right_width(cols as nat),
    ensures
        final(buf)@ == old(buf)@ + top_border(cols as nat),
{
    let ghost start = buf@;
    if cols >= PREVIEW_MIN_COLS as usize {
        put_goto(buf, 1, left_w + 3);
        put(buf, ERASE_TO_EOL);
        put(buf, SGR_DIM);
        put(buf, "\u{250c}");
        put_repeated(buf, "\u{2500}", right_w - 1);
        put(buf, SGR_RESET);
    }
    assert(buf@ =~= start + top_border(cols as nat));
}

fn draw_arrow(buf: &mut Vec<u8>, left_w: usize, column: usize)
    requires
        left_w <= 0xffff,
    ensures
        final(buf)@ == old(buf)@ + arrow(left_w as nat, column as nat),
{
    let ghost start = buf@;
    put(buf, " ");
    put(buf, SGR_DIM);
    put(buf, "\u{25cf}");
    let n: usize = if left_w + 2 > column {
        left_w + 2 - column
    } else {
        0
    };
    put_repeated(buf, "\u{2500}", n);
    put(buf, SGR_RESET);
    put(buf, SGR_FG_CYAN);
    put(buf, "\u{25b6}");
    put(buf, SGR_RESET);
    put(buf, " ");
    assert(buf@ =~= start + arrow(left_w as nat, column as nat));
}

fn draw_edge(buf: &mut Vec<u8>, y: usize, left_w: usize)
    requires
        left_w <= 0xffff,
    ensures
        final(buf)@ == old(buf)@ + edge(y as nat, left_w as nat),
{
    let ghost start = buf@;
    put_goto(buf, y, left_w + 1);
    put(buf, "  ");
    put(buf, SGR_DIM);
    put(buf, "\u{2502}  ");
    put(buf, SGR_RESET);
    assert(buf@ =~= start + edge(y as nat, left_w as nat));
}

fn draw_pane_part(
    buf: &mut Vec<u8>,
    on_cursor: bool,
    column: usize,
    i: usize,
    cols: usize,
    left_w: usize,
    lines: &[Vec<u8>],
)
    requires
        cols <= 0xffff,
        i < 0xffff,
        left_w == left_width(cols as nat),
    ensures
        final(buf)@ == old(buf)@ + pane_part(
            on_cursor,
            column as nat,
            i as nat,
            cols as nat,
            seqs(lines@),
        ),
{
    let ghost start = buf@;
    if cols >= PREVIEW_MIN_COLS as usize {
        if on_cursor {
            draw_arrow(buf, left_w, column);
        } else {
            draw_edge(buf, i + 2, left_w);
        }
        if i < lines.len() {
            buf.extend_from_slice(lines[i].as_slice());
            put(buf, SGR_RESET);
        }
    }
    assert(buf@ =~= start + pane_part(
        on_cursor,
        column as nat,
        i as nat,
        cols as nat,
        seqs(lines@),
    ));
}

#[verifier::rlimit(30)]
fn draw_line(
    buf: &mut Vec<u8>,
    app: &App,
    i: usize,
    cols: usize,
    left_w: usize,
    bg: &str,
    lines: &[Vec<u8>],
)
    requires
        app.wf(),
        cols <= 0xffff,
        i < 0xffff,
        left_w == left_width(cols as nat),
    ensures
        final(buf)@ == old(buf)@ + screen_line(
            app@,
            i as nat,
            cols as nat,
            txt(bg@),
            seqs(lines@),
        ),
{
    let ghost start = buf@;
    put_goto(buf, i + 2, 1);
    put(buf, ERASE_TO_EOL);
    let ghost head = goto((i + 2) as nat, 1) + txt(ERASE_TO_EOL@);
    assert(buf@ =~= start + head);
    proof {
        lemma_listed_rows(app@);
    }
    let shown = app.view_offset <= app.filtered.len() && i < app.filtered.len() - app.view_offset;
    if shown {
        let at = app.view_offset + i;
        let r = app.filtered[at];
        let on_cursor = at == app.cursor;
        let is_selected = app.selected.contains(&r);
        let column = render_log_row(buf, &app.rows[r], on_cursor, is_selected, left_w, bg);
        draw_pane_part(buf, on_cursor, column, i, cols, left_w, lines);
    } else {
        draw_pane_part(buf, false, 1, i, cols, left_w, lines);
    }
    assert(buf@ =~= start + screen_line(
        app@,
        i as nat,
        cols as nat,
        txt(bg@),
        seqs(lines@),
    ));
}

fn clip_text(s: &str, max: usize) -> (out: String)
    ensures
        out@ == clipped(s@, max as nat),
{
    let chars = to_chars(s);
    if chars.len() <= max {
        return s.to_owned();
    }
    if max == 0 {
        let out = String::new();
        assert(out@ =~= seq![]);
        return out;
    }
    let mut out = from_chars(slice_subrange(chars.as_slice(), 0, max - 1));
    out.push('\u{2026}');
    assert(out@ =~= s@.take(max - 1).push('\u{2026}'));
    out
}

fn draw_command(buf: &mut Vec<u8>, app: &App, cols: usize, target: &RevsetTarget)
    requires
        app.wf(),
    ensures
        final(buf)@ == old(buf)@ + command_row(app@, cols as nat, target@),
{
    let ghost start = buf@;
    let cmd = command_line(target, app.pending_ids().as_slice());
    let max: usize = if cols > 2 {
        cols - 2
    } else {
        0
    };
    put_goto(buf, app.last_height + 2, 1);
    put(buf, ERASE_TO_EOL);
    put(buf, SGR_BOLD_GREEN);
    put(buf, "\u{25b6} ");
    put(buf, clip_text(cmd.as_str(), max).as_str());
    put(buf, SGR_RESET);
    assert(buf@ =~= start + command_row(app@, cols as nat, target@));
}

fn hint_at(i: usize) -> (r: (&'static str, &'static str))
    ensures
        (r.0@, r.1@) == hint_text(i as int),
{
    if i == 0 {
        ("\u{2191}\u{2193}/^N^P", "nav")
    } else if i == 1 {
        ("tab", "select")
    } else if i == 2 {
        ("enter", "run")
    } else if i == 3 {
        ("^U", "clear")
    } else {
        ("esc", "quit")
    }
}

/// Draws one hint: a key in normal weight, and dim what it does.
pub fn write_hint_pair(buf: &mut Vec<u8>, key: &str, label: &str)
    ensures
        final(buf)@ == old(buf)@ + hint_pair(key@, label@),
{
    let ghost start = buf@;
    put(buf, " \u{b7} ");
    put(buf, SGR_NORMAL_WEIGHT);
    put(buf, key);
    put(buf, SGR_DIM);
    put(buf, " ");
    put(buf, label);
    assert(buf@ =~= start + hint_pair(key@, label@));
}

/// The hint row with `n` hints.
fn build_hints(app: &App, n: usize) -> (buf: Vec<u8>)
    ensures
        buf@ == hints(app@, n as nat),
{
    let mut buf: Vec<u8> = Vec::new();
    put(&mut buf, SGR_DIM);
    put(&mut buf, "[");
    put_decimal(&mut buf, app.filtered.len());
    put(&mut buf, "/");
    put_decimal(&mut buf, app.rows.len());
    if app.selected.is_empty() {
        put(&mut buf, "]  ");
    } else {
        put(&mut buf, " \u{b7} ");
        put_decimal(&mut buf, app.selected.len());
        put(&mut buf, " selected]  ");
    }
    assert(buf@ =~= txt(SGR_DIM@) + counts(app@));
    put(&mut buf, "type filter");
    let ghost base = txt(SGR_DIM@) + counts(app@) + txt("type filter"@);
    assert(buf@ =~= base + hint_pairs(0));
    for i in 0..n
        invariant
            buf@ == base + hint_pairs(i as nat),
    {
        let (key, label) = hint_at(i);
        write_hint_pair(&mut buf, key, label);
        assert(buf@ =~= base + hint_pairs((i + 1) as nat));
    }
    buf
}

fn draw_hints(buf: &mut Vec<u8>, app: &App, cols: usize)
    requires
        app.wf(),
    ensures
        final(buf)@ == old(buf)@ + hint_row(app@, cols as nat),
{
    let ghost start = buf@;
    let mut n: usize = 5;
    let mut row = build_hints(app, n);
    while n > 0 && visible_width(row.as_slice()) > cols
        invariant
            row@ == hints(app@, n as nat),
            shown_hints(app@, n as nat, cols as nat) == shown_hints(app@, 5, cols as nat),
        decreases n,
    {
        n -= 1;
        row = build_hints(app, n);
    }
    put_goto(buf, app.last_height + 3, 1);
    buf.extend_from_slice(row.as_slice());
    put(buf, SGR_RESET);
    put(buf, ERASE_TO_EOL);
    assert(buf@ =~= start + hint_row(app@, cols as nat));
}

/// What is to be written to draw the picker on a terminal of `term_cols`
/// columns.
pub fn render(app: &App, term_cols: u16, target: &RevsetTarget, light: bool) -> (buf: Vec<u8>)
    requires
        app.wf(),
    ensures
        buf@ == frame(app@, term_cols as nat, target@, light),
{
    let cols = term_cols as usize;
    let wide = term_cols >= PREVIEW_MIN_COLS;
    let left_w: usize = if wide {
        cols / 2 - 3
    } else {
        cols
    };
    let right_w: usize = if wide {
        cols - left_w - 2
    } else {
        0
    };
    let bg = cursor_bg(light);
    let mut lines: Vec<Vec<u8>> = Vec::new();
    assert(seqs(lines@) =~= seq![]);
    if wide && app.cursor < app.filtered.len() {
        if let Some(parts) = app.preview_cache.get(&app.filtered[app.cursor]) {
            lines = build_preview_lines(parts, app.last_height, right_w - 3);
        }
    }
    assert(seqs(lines@) == pane(app@, cols as nat));
    let mut buf: Vec<u8> = Vec::new();
    put(&mut buf, SYNC_BEGIN);
    assert(buf@ =~= txt(SYNC_BEGIN@));
    draw_input(&mut buf, app.filter.as_str());
    draw_border(&mut buf, cols, left_w, right_w);
    let ghost head = buf@;
    let height = app.last_height;
    assert(head + screen_lines(app@, 0, cols as nat, txt(bg@), seqs(lines@)) =~= head);
    for i in 0..height
        invariant
            app.wf(),
            cols <= 0xffff,
            height <= 0xffff,
            left_w == left_width(cols as nat),
            buf@ == head + screen_lines(app@, i as nat, cols as nat, txt(bg@), seqs(lines@)),
    {
        draw_line(&mut buf, app, i, cols, left_w, bg, lines.as_slice());
        assert(buf@ =~= head + screen_lines(
            app@,
            (i + 1) as nat,
            cols as nat,
            txt(bg@),
            seqs(lines@),
        ));
    }
    draw_command(&mut buf, app, cols, target);
    draw_hints(&mut buf, app, cols);
    let count = app.filter.as_str().unicode_len();
    put_goto(&mut buf, 1, count % 0x1_0000 + 4);
    put(&mut buf, SYNC_END);
    buf
}

// ---------------------------------------------------------------------------
// Laws

/// A redraw is bracketed for synchronized output.
#[verifier::rlimit(30)]
pub proof fn law_frame_is_bracketed(p: Picker, cols: nat, target: Target, light: bool)
    ensures
        txt(SYNC_BEGIN@).is_prefix_of(frame(p, cols, target, light)),
        txt(SYNC_END@).is_suffix_of(frame(p, cols, target, light)),
{
    let f = frame(p, cols, target, light);
    let a = txt(SYNC_BEGIN@);
    let z = txt(SYNC_END@);
    assert(f.subrange(0, a.len() as int) =~= a);
    assert(f.subrange(f.len() - z.len(), f.len() as int) =~= z);
}

/// The log, the gap and the preview together are as wide as the terminal.
pub proof fn law_columns_add_up(cols: nat)
    requires
        preview_on(cols),
    ensures
        left_width(cols) + 2 + right_width(cols) == cols,
        left_width(cols) >= 2,
        right_width(cols) > 3,
{
}

/// The text of a log row keeps to its columns, and padding fills the rest.
pub proof fn law_log_row_keeps_to_its_columns(row: RowData, width: nat)
    requires
        width >= 2,
    ensures
        2 + row_used(row, width) <= width,
        log_row_used(row, true, width) <= log_row_used(row, false, width),
{
    law_truncated_width(row.styled, content_width(width));
}

/// Wherever the text of the row under the cursor ends, its arrow ends in the
/// same column, one column inside the preview.
pub proof fn law_arrow_reaches_the_preview(row: RowData, cols: nat)
    requires
        preview_on(cols),
    ensures
        ({
            let column = log_row_end(row, true, left_width(cols));
            column + 1 + dashes(left_width(cols), column) == left_width(cols) + 3
        }),
{
    law_columns_add_up(cols);
    law_log_row_keeps_to_its_columns(row, left_width(cols));
}

/// The command is cut to its columns, and left alone where it fits.
pub proof fn law_command_keeps_to_its_columns(s: Seq<char>, max: nat)
    ensures
        clipped(s, max).len() <= max,
        s.len() <= max ==> clipped(s, max) == s,
{
}

/// Hints are dropped until the row fits, and no more of them than it takes.
pub proof fn law_hints_fit(p: Picker, n: nat, cols: nat)
    ensures
        shown_hints(p, n, cols) <= n,
        shown_hints(p, n, cols) == 0 || hint_width(p, shown_hints(p, n, cols)) <= cols,
        forall|k: nat| shown_hints(p, n, cols) < k <= n ==> #[trigger] hint_width(p, k) > cols,
    decreases n,
{
    if n > 0 && hint_width(p, n) > cols {
        law_hints_fit(p, (n - 1) as nat, cols);
    }
}

/// A number is written in decimal: digits that read back as the number, without
/// a zero in front.
pub proof fn law_numbers_are_written_in_decimal(n: nat)
    ensures
        decimal(n).len() > 0,
        forall|i: int|
            #![trigger decimal(n)[i]]
            0 <= i < decimal(n).len() ==> 0x30 <= decimal(n)[i] && decimal(n)[i] <= 0x39,
        n > 0 ==> decimal(n)[0] != 0x30,
        value(decimal(n).map_values(|b: u8| b as char)) == n,
    decreases n,
{
    let f = |b: u8| b as char;
    let s = decimal(n).map_values(f);
    if n < 10 {
        reveal_with_fuel(value, 2);
        assert(s.drop_last() =~= seq![]);
    } else {
        law_numbers_are_written_in_decimal(n / 10);
        assert(s.drop_last() =~= decimal(n / 10).map_values(f));
        assert(s.last() == (0x30 + n % 10) as u8 as char);
    }
}

/// A number is read from digits, each of which counts ten times what follows it,
/// with or without a `+` in front, and from nothing else.
pub proof fn law_numbers_are_read_from_digits(s: Seq<char>, c: char)
    ensures
        value(seq![]) == 0,
        '0' <= c && c <= '9' ==> value(s.push(c)) == 10 * value(s) + (c as int - 48),
        s.len() > 0 && (forall|i: int|
            #![trigger s[i]]
            0 <= i < s.len() ==> '0' <= s[i] && s[i] <= '9') ==> number(s) == Some(value(s))
            && number(seq!['+'] + s) == Some(value(s)),
        (exists|i: int|
            #![trigger s[i]]
            0 <= i < s.len() && !('0' <= s[i] && s[i] <= '9') && !(i == 0 && s[i] == '+'))
            ==> number(s) is None,
        number(seq![]) is None,
        number(seq!['+']) is None,
{
    assert(s.push(c).drop_last() =~= s);
    let plus = seq!['+'] + s;
    assert(plus.skip(1) =~= s);
    assert(plus[0] == '+');
    assert(seq!['+'].skip(1) =~= seq![]);
    if s.len() > 0 && (forall|i: int|
        #![trigger s[i]]
        0 <= i < s.len() ==> '0' <= s[i] && s[i] <= '9') {
        assert(s[0] != '+');
        assert(all_digits(s));
    }
    if exists|i: int|
        #![trigger s[i]]
        0 <= i < s.len() && !('0' <= s[i] && s[i] <= '9') && !(i == 0 && s[i] == '+') {
        let i = choose|i: int|
            #![trigger s[i]]
            0 <= i < s.len() && !('0' <= s[i] && s[i] <= '9') && !(i == 0 && s[i] == '+');
        assert(!digit(s[i]));
        if s[0] == '+' {
            assert(s.skip(1)[i - 1] == s[i]);
        }
    }
}

/// Only the last field of `COLORFGBG` tells the background: it is light where
/// that is 7 or 15, whatever stands before it, and dark where nothing is told.
pub proof fn law_last_field_tells_the_background(front: Seq<char>, last: Seq<char>)
    requires
        !last.contains(';'),
    ensures
        light(Some(last)) <==> number(last) == Some(7nat) || number(last) == Some(15nat),
        light(Some(front + seq![';'] + last)) == light(Some(last)),
        !light(None),
        highlight(true) == "\x1b[7m"@,
        highlight(false) == "\x1b[48;5;237m"@,
{
    let p = not(equal_to(';'));
    let s = front + seq![';'] + last;
    let n = last.len() as int;
    assert forall|i: int| 0 <= i < n implies p(#[trigger] last[i]) by {
        assert(last.contains(last[i]));
    }
    assert forall|i: int| s.len() - n <= i < s.len() implies p(#[trigger] s[i]) by {
        assert(s[i] == last[i - front.len() - 1]);
    }
    assert(s[s.len() - n - 1] == ';');
    lemma_trail(last, p, n);
    lemma_trail(s, p, n);
    assert(last.skip(0) =~= last);
    assert(s.skip(s.len() - n) =~= last);
}

/// How the terminal is divided: the preview is shown from 80 columns on, and has
/// the right half.
pub proof fn law_preview_has_the_right_half(cols: nat)
    ensures
        preview_on(cols) <==> cols >= 80,
        cols < 80 ==> left_width(cols) == cols && right_width(cols) == 0,
        cols >= 80 ==> left_width(cols) == cols / 2 - 3 && right_width(cols) == cols - cols / 2 + 1,
{
}

/// The pane shows the preview of the row under the cursor, where that is known
/// and there is room for it, with a line for each row of the log; else nothing.
pub proof fn law_pane_shows_the_row_under_the_cursor(p: Picker, cols: nat)
    ensures
        cols >= 80 && 0 <= p.cursor < p.filtered.len() && p.previews.contains_key(
            p.filtered[p.cursor],
        ) ==> pane(p, cols) == preview_lines(
            p.previews[p.filtered[p.cursor]],
            p.last_height as nat,
            (cols - cols / 2 - 2) as nat,
        ),
        !(cols >= 80 && 0 <= p.cursor < p.filtered.len() && p.previews.contains_key(
            p.filtered[p.cursor],
        )) ==> pane(p, cols).len() == 0,
{
}

/// What a log row is made of: a gutter of two columns, marked where the row is
/// selected, and the text of the row. Under the cursor the text has its
/// background, which every reset in it is followed by; elsewhere it is padded
/// with as many spaces as it is short of its columns.
pub proof fn law_log_row_shows_the_row(
    row: RowData,
    cursor: bool,
    selected: bool,
    width: nat,
    bg: Seq<u8>,
)
    requires
        width >= 2,
    ensures
        ({
            let text = keep(units(row.styled), (width - 2) as nat).flatten();
            let mark = if selected {
                txt("\x1b[1m"@) + txt("\x1b[33m"@) + txt("\u{258e} "@) + txt("\x1b[0m"@)
            } else {
                txt("  "@)
            };
            &&& cursor ==> log_row(row, cursor, selected, width, bg) == mark + bg + inject(text, bg)
                + txt("\x1b[0m"@)
            &&& !cursor ==> log_row(row, cursor, selected, width, bg) == mark + text + txt(
                "\x1b[0m"@,
            ) + repeated(txt(" "@), (width - 2 - visible(units(text))) as nat)
            &&& log_row_end(row, cursor, width) == (if cursor {
                3 + visible(units(text))
            } else {
                width + 1
            })
        }),
{
    law_log_row_keeps_to_its_columns(row, width);
}

/// Bytes that are repeated add up.
pub proof fn law_repeats_add_up(s: Seq<u8>, n: nat)
    ensures
        repeated(s, 0) == Seq::<u8>::empty(),
        repeated(s, n + 1) == repeated(s, n) + s,
        repeated(s, n).len() == n * s.len(),
    decreases n,
{
    if n > 0 {
        law_repeats_add_up(s, (n - 1) as nat);
        let m = (n - 1) as int;
        let k = s.len() as int;
        assert((m + 1) * k == m * k + k) by (nonlinear_arith);
    } else {
        assert(0 * s.len() == 0) by (nonlinear_arith);
    }
}

/// Which row is drawn on which line: the `i`-th line below the input shows the
/// listed row that is `i` below the first on the screen, marked where it is
/// selected and highlighted where it is under the cursor, and where the list has
/// ended nothing; beside it stands the `i`-th line of the preview.
pub proof fn law_lines_show_their_rows(
    p: Picker,
    i: nat,
    cols: nat,
    bg: Seq<u8>,
    lines: Seq<Seq<u8>>,
)
    ensures
        ({
            let at = p.view_offset + i;
            let head = goto(i + 2, 1) + txt("\x1b[K"@);
            let beside = if i < lines.len() {
                lines[i as int] + txt("\x1b[0m"@)
            } else {
                seq![]
            };
            let w = left_width(cols);
            &&& cols < 80 && at < p.filtered.len() ==> screen_line(p, i, cols, bg, lines) == head
                + log_row(
                p.rows[p.filtered[at] as int],
                at == p.cursor,
                p.selected.contains(p.filtered[at]),
                w,
                bg,
            )
            &&& cols < 80 && at >= p.filtered.len() ==> screen_line(p, i, cols, bg, lines) == head
            &&& cols >= 80 && at < p.filtered.len() && at != p.cursor ==> screen_line(
                p,
                i,
                cols,
                bg,
                lines,
            ) == head + log_row(
                p.rows[p.filtered[at] as int],
                false,
                p.selected.contains(p.filtered[at]),
                w,
                bg,
            ) + (edge(i + 2, w) + beside)
            &&& cols >= 80 && at < p.filtered.len() && at == p.cursor ==> screen_line(
                p,
                i,
                cols,
                bg,
                lines,
            ) == head + log_row(
                p.rows[p.filtered[at] as int],
                true,
                p.selected.contains(p.filtered[at]),
                w,
                bg,
            ) + (arrow(w, log_row_end(p.rows[p.filtered[at] as int], true, w)) + beside)
            &&& cols >= 80 && at >= p.filtered.len() ==> screen_line(p, i, cols, bg, lines) == head
                + (edge(i + 2, w) + beside)
        }),
{
    let at = p.view_offset + i;
    let head = goto(i + 2, 1) + txt("\x1b[K"@);
    if cols < 80 {
        if at < p.filtered.len() {
            let r = p.filtered[at];
            let row = log_row(
                p.rows[r as int],
                at == p.cursor,
                p.selected.contains(r),
                left_width(cols),
                bg,
            );
            assert(head + row + Seq::<u8>::empty() =~= head + row);
        } else {
            assert(head + Seq::<u8>::empty() =~= head);
        }
    }
}

proof fn lemma_line_within(
    p: Picker,
    n: nat,
    i: nat,
    cols: nat,
    bg: Seq<u8>,
    lines: Seq<Seq<u8>>,
) -> (r: (Seq<u8>, Seq<u8>))
    requires
        i < n,
    ensures
        screen_lines(p, n, cols, bg, lines) == r.0 + screen_line(p, i, cols, bg, lines) + r.1,
    decreases n,
{
    let before = screen_lines(p, (n - 1) as nat, cols, bg, lines);
    let last = screen_line(p, (n - 1) as nat, cols, bg, lines);
    if i == n - 1 {
        assert(before + last + Seq::<u8>::empty() =~= before + last);
        (before, seq![])
    } else {
        let (a, b) = lemma_line_within(p, (n - 1) as nat, i, cols, bg, lines);
        let line = screen_line(p, i, cols, bg, lines);
        assert(a + line + b + last =~= a + line + (b + last));
        (a, b + last)
    }
}

/// Every line of the log is drawn: returns what is written before and after the
/// `i`-th.
pub proof fn law_every_line_is_drawn(p: Picker, i: nat, cols: nat, target: Target, light: bool) -> (
    r: (Seq<u8>, Seq<u8>))
    requires
        i < p.last_height,
    ensures
        frame(p, cols, target, light) == r.0 + screen_line(
            p,
            i,
            cols,
            txt(highlight(light)),
            pane(p, cols),
        ) + r.1,
{
    let bg = txt(highlight(light));
    let lines = pane(p, cols);
    let n = p.last_height as nat;
    let (a, b) = lemma_line_within(p, n, i, cols, bg, lines);
    let line = screen_line(p, i, cols, bg, lines);
    let head = txt(SYNC_BEGIN@) + input_row(p.filter) + top_border(cols);
    let c = command_row(p, cols, target);
    let h = hint_row(p, cols);
    let k = parked(p.filter);
    let e = txt(SYNC_END@);
    lemma_regroup(head, a, line, b, c, h, k, e);
    (head + a, b + c + h + k + e)
}

proof fn lemma_regroup(
    head: Seq<u8>,
    a: Seq<u8>,
    line: Seq<u8>,
    b: Seq<u8>,
    c: Seq<u8>,
    h: Seq<u8>,
    k: Seq<u8>,
    e: Seq<u8>,
)
    ensures
        head + (a + line + b) + c + h + k + e == (head + a) + line + (b + c + h + k + e),
{
    assert(head + (a + line + b) =~= (head + a) + line + b);
    let x = (head + a) + line;
    assert(x + b + c =~= x + (b + c));
    assert(x + (b + c) + h =~= x + (b + c + h));
    assert(x + (b + c + h) + k =~= x + (b + c + h + k));
    assert(x + (b + c + h + k) + e =~= x + (b + c + h + k + e));
}

/// What the command row shows: all of the command that Enter would run where
/// there is room for it behind the prompt, and else its start and an ellipsis.
pub proof fn law_command_row_shows_the_command(p: Picker, cols: nat, target: Target)
    requires
        p.last_height >= 0,
    ensures
        ({
            let line = join(line_words(target, p.pending()), seq![' ']);
            let head = goto((p.last_height + 2) as nat, 1) + txt("\x1b[K"@) + txt("\x1b[1;32m"@)
                + txt("\u{25b6} "@);
            &&& line.len() + 2 <= cols ==> command_row(p, cols, target) == head + txt(line) + txt(
                "\x1b[0m"@,
            )
            &&& 2 < cols < line.len() + 2 ==> command_row(p, cols, target) == head + txt(
                line.take(cols - 3).push('\u{2026}'),
            ) + txt("\x1b[0m"@)
        }),
{
}

/// The counts tell how many rows are listed, how many there are, and, where any
/// are, how many are selected.
pub proof fn law_counts_are_shown(p: Picker)
    ensures
        p.selected =~= Set::<usize>::empty() ==> counts(p) == txt("["@) + decimal(p.filtered.len())
            + txt("/"@) + decimal(p.rows.len()) + txt("]  "@),
        (exists|r: usize| p.selected.contains(r)) ==> counts(p) == txt("["@) + decimal(
            p.filtered.len(),
        ) + txt("/"@) + decimal(p.rows.len()) + (txt(" \u{b7} "@) + decimal(p.selected.len())
            + txt(" selected]  "@)),
{
}

/// The hints and their order, and that all five are offered where they fit.
pub proof fn law_hints_are_offered_in_order(p: Picker, cols: nat)
    requires
        p.last_height >= 0,
    ensures
        hint_text(0) == ("\u{2191}\u{2193}/^N^P"@, "nav"@),
        hint_text(1) == ("tab"@, "select"@),
        hint_text(2) == ("enter"@, "run"@),
        hint_text(3) == ("^U"@, "clear"@),
        hint_text(4) == ("esc"@, "quit"@),
        hint_width(p, 5) <= cols ==> hint_row(p, cols) == goto((p.last_height + 3) as nat, 1) + (txt(
            "\x1b[2m"@,
        ) + counts(p) + txt("type filter"@) + hint_pairs(5)) + txt("\x1b[0m"@) + txt("\x1b[K"@),
{
}

/// The first row shows all of the filter behind a prompt, and the cursor of the
/// terminal is put behind the caret that follows it.
pub proof fn law_filter_is_shown(filter: Seq<char>)
    ensures
        input_row(filter) == goto(1, 1) + txt("\x1b[1m"@) + txt("\x1b[36m"@) + txt("\u{276f} "@)
            + txt("\x1b[0m"@) + txt(filter) + txt("\x1b[7m \x1b[27m"@) + txt("\x1b[K"@),
        filter.len() < 0x1_0000 ==> parked(filter) == goto(1, filter.len() + 4),
{
}

/// The border of the preview, its edge, and the arrow to it stand in the columns
/// that are theirs.
pub proof fn law_preview_is_framed(cols: nat, y: nat, column: nat)
    requires
        cols >= 80,
    ensures
        top_border(cols) == goto(1, (cols / 2) as nat) + txt("\x1b[K"@) + txt("\x1b[2m"@) + txt(
            "\u{250c}"@,
        ) + repeated(txt("\u{2500}"@), (cols - cols / 2) as nat) + txt("\x1b[0m"@),
        edge(y, left_width(cols)) == goto(y, (cols / 2 - 2) as nat) + txt("  "@) + txt("\x1b[2m"@)
            + txt("\u{2502}  "@) + txt("\x1b[0m"@),
        column < cols / 2 ==> arrow(left_width(cols), column) == txt(" "@) + txt("\x1b[2m"@) + txt(
            "\u{25cf}"@,
        ) + repeated(txt("\u{2500}"@), (cols / 2 - 1 - column) as nat) + txt("\x1b[0m"@) + txt(
            "\x1b[36m"@,
        ) + txt("\u{25b6}"@) + txt("\x1b[0m"@) + txt(" "@),
{
}

/// Text is written in UTF-8, and the cursor is moved by `ESC [ row ; column H`.
pub proof fn law_text_is_written_in_utf8(s: Seq<char>, row: nat, col: nat)
    ensures
        txt(s) == encode_utf8(s),
        goto(row, col) == txt("\x1b["@) + decimal(row) + txt(";"@) + decimal(col) + txt("H"@),
{
    reveal(txt);
}

} // verus!
