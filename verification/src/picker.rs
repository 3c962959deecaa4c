//! The state of the picker: which rows are listed, where the cursor stands,
//! what is selected.

use crate::fuzzy::{matchable, new_matcher, nucleo_score};
use crate::preview::{Preview, PreviewParts};
use crate::rank::{
    hits_change_prefix, law_change_prefix_wins, law_text_is_matched_by_the_whole_filter, lower,
    outranks, rank, ranking, row_score, score_row, to_lower,
};
use crate::row::{row_data, Row, RowData};
use crate::text::strs;
use nucleo_matcher::Matcher;
use std::collections::{HashMap, HashSet};
use vstd::prelude::*;

verus! {

broadcast use vstd::std_specs::hash::group_hash_axioms;

/// The least width of a terminal in which the preview is shown.
pub const PREVIEW_MIN_COLS: u16 = 80;

/// The picker.
pub struct App {
    pub rows: Vec<Row>,
    pub filter: String,
    /// Index into `filtered`.
    pub cursor: usize,
    /// Index into `filtered` of the first row on the screen.
    pub view_offset: usize,
    /// Indices of the selected rows.
    pub selected: HashSet<usize>,
    /// Indices of the listed rows, in the order in which they are listed.
    pub filtered: Vec<usize>,
    pub matcher: Matcher,
    /// How many rows the screen has room for.
    pub last_height: usize,
    /// The previews that are known, by row.
    pub preview_cache: HashMap<usize, PreviewParts>,
}

/// The state of the picker, as a value.
#[verifier::ext_equal]
pub struct Picker {
    pub rows: Seq<RowData>,
    pub filter: Seq<char>,
    pub cursor: int,
    pub view_offset: int,
    pub selected: Set<usize>,
    pub filtered: Seq<usize>,
    pub last_height: int,
    pub previews: Map<usize, Preview>,
}

impl View for App {
    type V = Picker;

    open spec fn view(&self) -> Picker {
        Picker {
            rows: row_data(self.rows@),
            filter: self.filter@,
            cursor: self.cursor as int,
            view_offset: self.view_offset as int,
            selected: self.selected@,
            filtered: self.filtered@,
            last_height: self.last_height as int,
            previews: self.preview_cache@.map_values(|p: PreviewParts| p@),
        }
    }
}

// ---------------------------------------------------------------------------
// What is listed

/// All rows, in the order of the log.
pub open spec fn in_log_order(n: nat) -> Seq<usize> {
    Seq::new(n, |i: int| i as usize)
}

/// The scores of the rows for a filter. A connector has none.
pub open spec fn scores(rows: Seq<RowData>, filter: Seq<char>) -> Seq<Option<u32>> {
    Seq::new(
        rows.len(),
        |i: int|
            if rows[i].connector() {
                None
            } else {
                row_score(rows[i], filter)
            },
    )
}

/// Whether `filtered` is what a filter lists: all rows in the order of the log
/// where it is empty, and else the matching commits, best first.
pub open spec fn listed(rows: Seq<RowData>, filter: Seq<char>, filtered: Seq<usize>) -> bool {
    if filter.len() == 0 {
        filtered == in_log_order(rows.len())
    } else {
        ranking(scores(rows, filter), filtered)
    }
}

/// Whether the `i`-th listed row is a commit.
pub open spec fn commit_at(rows: Seq<RowData>, filtered: Seq<usize>, i: int) -> bool {
    0 <= i < filtered.len() && !rows[filtered[i] as int].connector()
}

/// Whether the selected rows are commits.
pub open spec fn only_commits(rows: Seq<RowData>, selected: Set<usize>) -> bool {
    forall|r: usize| #[trigger]
        selected.contains(r) ==> r < rows.len() && !rows[r as int].connector()
}

/// The first listed commit at or after position `i`.
pub open spec fn commit_from(rows: Seq<RowData>, filtered: Seq<usize>, i: int) -> Option<int>
    decreases filtered.len() - i,
{
    if i >= filtered.len() {
        None
    } else if commit_at(rows, filtered, i) {
        Some(i)
    } else {
        commit_from(rows, filtered, i + 1)
    }
}

/// The last listed commit at or before position `i`.
pub open spec fn commit_upto(rows: Seq<RowData>, filtered: Seq<usize>, i: int) -> Option<int>
    decreases i + 1,
{
    if i < 0 {
        None
    } else if commit_at(rows, filtered, i) {
        Some(i)
    } else {
        commit_upto(rows, filtered, i - 1)
    }
}

/// Where the cursor comes to rest when it is sent to position `i`: at the
/// nearest commit in the direction of the motion, else at the nearest one in
/// the other; at `i` itself where no commit is listed.
pub open spec fn landing(rows: Seq<RowData>, filtered: Seq<usize>, i: int, down: bool) -> int {
    let after = commit_from(rows, filtered, i);
    let before = commit_upto(rows, filtered, i);
    match (if down { after } else { before }) {
        Some(j) => j,
        None => match (if down { before } else { after }) {
            Some(j) => j,
            None => i,
        },
    }
}

impl Picker {
    /// What holds whatever is listed: only commits are selected.
    pub open spec fn sound(self) -> bool {
        &&& self.rows.len() <= usize::MAX
        &&& 0 <= self.last_height <= 0xffff
        &&& only_commits(self.rows, self.selected)
    }

    /// What holds of every state: the list is what the filter says, the cursor
    /// is on the list, and on a commit where any is listed, and only commits
    /// are selected.
    pub open spec fn wf(self) -> bool {
        &&& self.sound()
        &&& listed(self.rows, self.filter, self.filtered)
        &&& self.filtered.len() == 0 ==> self.cursor == 0
        &&& self.filtered.len() > 0 ==> 0 <= self.cursor < self.filtered.len()
        &&& 0 <= self.view_offset <= self.filtered.len()
        &&& (exists|i: int| #[trigger] commit_at(self.rows, self.filtered, i)) ==> commit_at(
            self.rows,
            self.filtered,
            self.cursor,
        )
    }

    /// The row under the cursor.
    pub open spec fn current(self) -> Option<usize> {
        if 0 <= self.cursor < self.filtered.len() {
            Some(self.filtered[self.cursor])
        } else {
            None
        }
    }

    /// Whether the cursor is on a commit.
    pub open spec fn on_commit(self) -> bool {
        commit_at(self.rows, self.filtered, self.cursor)
    }

    /// Whether the cursor is on the screen.
    pub open spec fn on_screen(self) -> bool {
        self.view_offset <= self.cursor < self.view_offset + self.last_height
    }

    /// The view scrolled, as little as possible, to show the cursor.
    pub open spec fn scrolled(self) -> Picker {
        if self.last_height == 0 {
            self
        } else if self.cursor < self.view_offset {
            Picker { view_offset: self.cursor, ..self }
        } else if self.cursor >= self.view_offset + self.last_height {
            Picker { view_offset: self.cursor + 1 - self.last_height, ..self }
        } else {
            self
        }
    }

    /// The cursor sent to position `i`.
    pub open spec fn sent(self, i: int, down: bool) -> Picker {
        (Picker { cursor: landing(self.rows, self.filtered, i, down), ..self }).scrolled()
    }

    /// The cursor moved by `delta` positions, within the list.
    pub open spec fn moved(self, delta: int) -> Picker {
        let to = self.cursor + delta;
        let last = self.filtered.len() - 1;
        if self.filtered.len() == 0 {
            self
        } else if to < 0 {
            self.sent(0, delta >= 0)
        } else if to > last {
            self.sent(last, delta >= 0)
        } else {
            self.sent(to, delta >= 0)
        }
    }

    /// The cursor on the first commit.
    pub open spec fn at_top(self) -> Picker {
        self.sent(0, true)
    }

    /// The cursor on the last commit.
    pub open spec fn at_bottom(self) -> Picker {
        if self.filtered.len() == 0 {
            self
        } else {
            self.sent(self.filtered.len() - 1, false)
        }
    }

    /// The selection of the row under the cursor flipped. A connector cannot
    /// be selected.
    pub open spec fn toggled(self) -> Picker {
        if self.on_commit() {
            let r = self.filtered[self.cursor];
            Picker {
                selected: if self.selected.contains(r) {
                    self.selected.remove(r)
                } else {
                    self.selected.insert(r)
                },
                ..self
            }
        } else {
            self
        }
    }

    /// The rows `filtered` listed for a filter, with the cursor on the first
    /// commit.
    pub open spec fn relisted(self, filter: Seq<char>, filtered: Seq<usize>) -> Picker {
        (Picker { filter, filtered, view_offset: 0, ..self }).sent(0, true)
    }

    /// Whether `after` is this state with another filter.
    pub open spec fn refiltered(self, filter: Seq<char>, after: Picker) -> bool {
        &&& listed(self.rows, filter, after.filtered)
        &&& after == self.relisted(filter, after.filtered)
    }

    /// A terminal of so many rows.
    pub open spec fn resized(self, term_rows: int) -> Picker {
        Picker {
            last_height: if term_rows > 3 {
                term_rows - 3
            } else {
                0
            },
            ..self
        }
    }

    /// The row whose preview is shown but not known.
    pub open spec fn wanted(self, term_cols: int) -> Option<usize> {
        match self.current() {
            Some(r) => if term_cols >= PREVIEW_MIN_COLS && !self.previews.contains_key(r) {
                Some(r)
            } else {
                None
            },
            None => None,
        }
    }

    /// The ids that Enter picks: those of the selected rows, in the order of
    /// the log, and where nothing is selected the one under the cursor.
    pub open spec fn pending(self) -> Seq<Seq<char>> {
        if self.selected.is_empty() {
            if self.on_commit() {
                seq![id_of(self.rows[self.filtered[self.cursor] as int])]
            } else {
                seq![]
            }
        } else {
            picked(self.rows, self.selected, self.rows.len() as int)
        }
    }
}

/// The id by which a row is picked: the shortest that is unique, where known.
pub open spec fn id_of(row: RowData) -> Seq<char> {
    if row.change_id_prefix.len() == 0 {
        row.change_id_short
    } else {
        row.change_id_prefix
    }
}

/// The ids of the selected rows among the first `n`.
pub open spec fn picked(rows: Seq<RowData>, selected: Set<usize>, n: int) -> Seq<Seq<char>>
    decreases n,
{
    if n <= 0 {
        seq![]
    } else {
        let before = picked(rows, selected, n - 1);
        if selected.contains((n - 1) as usize) {
            before.push(id_of(rows[n - 1]))
        } else {
            before
        }
    }
}

/// The id by which a row is picked.
pub fn short_id(row: &Row) -> (id: String)
    ensures
        id@ == id_of(row@),
{
    if row.change_id_prefix.as_str().is_empty() {
        row.change_id_short.clone()
    } else {
        row.change_id_prefix.clone()
    }
}

// ---------------------------------------------------------------------------
// Facts about landing

proof fn lemma_commit_from(rows: Seq<RowData>, filtered: Seq<usize>, i: int)
    requires
        0 <= i,
    ensures
        match commit_from(rows, filtered, i) {
            Some(j) => i <= j < filtered.len() && commit_at(rows, filtered, j) && forall|k: int|
                i <= k < j ==> !#[trigger] commit_at(rows, filtered, k),
            None => forall|k: int| i <= k ==> !#[trigger] commit_at(rows, filtered, k),
        },
    decreases filtered.len() - i,
{
    if i < filtered.len() && !commit_at(rows, filtered, i) {
        lemma_commit_from(rows, filtered, i + 1);
    }
}

proof fn lemma_commit_upto(rows: Seq<RowData>, filtered: Seq<usize>, i: int)
    ensures
        match commit_upto(rows, filtered, i) {
            Some(j) => 0 <= j <= i && commit_at(rows, filtered, j) && forall|k: int|
                j < k <= i ==> !#[trigger] commit_at(rows, filtered, k),
            None => forall|k: int| k <= i ==> !#[trigger] commit_at(rows, filtered, k),
        },
    decreases i + 1,
{
    if i >= 0 && !commit_at(rows, filtered, i) {
        lemma_commit_upto(rows, filtered, i - 1);
    }
}

/// The landing is on the list, and on a commit where any is listed.
pub proof fn lemma_landing(rows: Seq<RowData>, filtered: Seq<usize>, i: int, down: bool)
    requires
        0 <= i,
        i < filtered.len() || (i == 0 && filtered.len() == 0),
    ensures
        0 <= landing(rows, filtered, i, down),
        landing(rows, filtered, i, down) < filtered.len() || (filtered.len() == 0 && landing(
            rows,
            filtered,
            i,
            down,
        ) == 0),
        (exists|k: int| #[trigger] commit_at(rows, filtered, k)) ==> commit_at(
            rows,
            filtered,
            landing(rows, filtered, i, down),
        ),
{
    lemma_commit_from(rows, filtered, i);
    lemma_commit_upto(rows, filtered, i);
}

/// What is listed are rows.
pub proof fn lemma_listed_rows(p: Picker)
    requires
        p.wf(),
    ensures
        forall|i: int| 0 <= i < p.filtered.len() ==> (#[trigger] p.filtered[i]) < p.rows.len(),
{
}

impl App {
    /// Whether the state is in order.
    pub open spec fn wf(&self) -> bool {
        self@.wf()
    }

    /// The picker over some rows, with an empty filter.
    pub fn new(rows: Vec<Row>) -> (app: Self)
        ensures
            app.wf(),
            ({
                let start = Picker {
                    rows: row_data(rows@),
                    filter: seq![],
                    cursor: 0,
                    view_offset: 0,
                    selected: Set::empty(),
                    filtered: in_log_order(rows@.len()),
                    last_height: 0,
                    previews: Map::empty(),
                };
                app@ == start.relisted(seq![], start.filtered)
            }),
    {
        let mut filtered: Vec<usize> = Vec::new();
        for i in 0..rows.len()
            invariant
                filtered@ == in_log_order(i as nat),
        {
            filtered.push(i);
            assert(filtered@ =~= in_log_order((i + 1) as nat));
        }
        let mut app = App {
            rows,
            filter: String::new(),
            cursor: 0,
            view_offset: 0,
            selected: HashSet::new(),
            filtered,
            matcher: new_matcher(),
            last_height: 0,
            preview_cache: HashMap::new(),
        };
        proof {
            assert(app.preview_cache@.map_values(|p: PreviewParts| p@) =~= Map::empty());
            assert(app.filter@ =~= seq![]);
            lemma_landing(app@.rows, app@.filtered, 0, true);
        }
        app.cursor = app.land(0, true);
        app
    }

    /// Whether the `i`-th listed row is a commit.
    fn is_commit_at(&self, i: usize) -> (r: bool)
        requires
            forall|k: int|
                0 <= k < self.filtered@.len() ==> (#[trigger] self.filtered@[k]) < self.rows@.len(),
            i < self.filtered@.len(),
        ensures
            r == commit_at(self@.rows, self@.filtered, i as int),
    {
        let r = self.filtered[i];
        !self.rows[r].is_connector()
    }

    /// Where the cursor comes to rest when it is sent to position `i`.
    fn land(&self, i: usize, down: bool) -> (r: usize)
        requires
            forall|k: int|
                0 <= k < self.filtered@.len() ==> (#[trigger] self.filtered@[k]) < self.rows@.len(),
            i < self.filtered@.len() || (i == 0 && self.filtered@.len() == 0),
        ensures
            r == landing(self@.rows, self@.filtered, i as int, down),
    {
        let len = self.filtered.len();
        let ghost rows = self@.rows;
        let ghost listed_rows = self@.filtered;
        let mut after: usize = i;
        while after < len && !self.is_commit_at(after)
            invariant
                i <= after <= len || len == 0,
                len == self.filtered@.len(),
                rows == self@.rows,
                listed_rows == self@.filtered,
                forall|k: int|
                    0 <= k < self.filtered@.len() ==> (#[trigger] self.filtered@[k])
                        < self.rows@.len(),
                commit_from(rows, listed_rows, i as int) == commit_from(
                    rows,
                    listed_rows,
                    after as int,
                ),
            decreases len - after,
        {
            after += 1;
        }
        let mut before: usize = i;
        let mut found = len > 0 && self.is_commit_at(i);
        while before > 0 && !found
            invariant
                before <= i,
                i < len || (i == 0 && len == 0),
                len == self.filtered@.len(),
                rows == self@.rows,
                listed_rows == self@.filtered,
                forall|k: int|
                    0 <= k < self.filtered@.len() ==> (#[trigger] self.filtered@[k])
                        < self.rows@.len(),
                found == commit_at(rows, listed_rows, before as int),
                commit_upto(rows, listed_rows, i as int) == commit_upto(
                    rows,
                    listed_rows,
                    before as int,
                ),
            decreases before,
        {
            before -= 1;
            found = self.is_commit_at(before);
        }
        proof {
            reveal_with_fuel(commit_upto, 2);
            lemma_commit_from(rows, listed_rows, i as int);
            lemma_commit_upto(rows, listed_rows, i as int);
        }
        if down {
            if after < len {
                after
            } else if found {
                before
            } else {
                i
            }
        } else {
            if found {
                before
            } else if after < len {
                after
            } else {
                i
            }
        }
    }

    /// Scrolls the view, as little as possible, to show the cursor.
    pub fn adjust_view(&mut self)
        ensures
            final(self)@ == old(self)@.scrolled(),
            old(self).wf() ==> final(self).wf(),
    {
        if self.last_height == 0 {
            return ;
        }
        if self.cursor < self.view_offset {
            self.view_offset = self.cursor;
        } else if self.cursor - self.view_offset >= self.last_height {
            self.view_offset = self.cursor - (self.last_height - 1);
        }
    }

    /// Sends the cursor to position `i`.
    fn send(&mut self, i: usize, down: bool)
        requires
            old(self).wf(),
            i < old(self).filtered@.len() || (i == 0 && old(self).filtered@.len() == 0),
        ensures
            final(self).wf(),
            final(self)@ == old(self)@.sent(i as int, down),
    {
        proof {
            lemma_listed_rows(self@);
            lemma_landing(self@.rows, self@.filtered, i as int, down);
        }
        self.cursor = self.land(i, down);
        self.adjust_view();
    }

    /// Moves the cursor by `delta` positions, within the list. Connectors are
    /// passed over.
    pub fn move_cursor(&mut self, delta: isize)
        requires
            old(self).wf(),
        ensures
            final(self).wf(),
            final(self)@ == old(self)@.moved(delta as int),
    {
        let len = self.filtered.len();
        if len == 0 {
            return ;
        }
        let to: usize = if delta < 0 {
            let back: usize = (-(delta + 1)) as usize;
            if self.cursor > back {
                self.cursor - back - 1
            } else {
                0
            }
        } else {
            let ahead = delta as usize;
            if ahead <= len - 1 - self.cursor {
                self.cursor + ahead
            } else {
                len - 1
            }
        };
        self.send(to, delta >= 0);
    }

    /// Moves the cursor to the first commit.
    pub fn jump_top(&mut self)
        requires
            old(self).wf(),
        ensures
            final(self).wf(),
            final(self)@ == old(self)@.at_top(),
    {
        self.send(0, true);
    }

    /// Moves the cursor to the last commit.
    pub fn jump_bottom(&mut self)
        requires
            old(self).wf(),
        ensures
            final(self).wf(),
            final(self)@ == old(self)@.at_bottom(),
    {
        let len = self.filtered.len();
        if len > 0 {
            self.send(len - 1, false);
        }
    }

    /// Selects the row under the cursor, or takes it out of the selection. A
    /// connector is left alone.
    pub fn toggle_select(&mut self)
        requires
            old(self).wf(),
        ensures
            final(self).wf(),
            final(self)@ == old(self)@.toggled(),
    {
        proof {
            lemma_listed_rows(self@);
        }
        if self.cursor < self.filtered.len() && self.is_commit_at(self.cursor) {
            let r = self.filtered[self.cursor];
            if !self.selected.insert(r) {
                self.selected.remove(&r);
                assert(self.selected@ =~= old(self).selected@.remove(r));
            }
        }
    }

    /// The ids that Enter picks.
    pub fn pending_ids(&self) -> (ids: Vec<String>)
        requires
            self.wf(),
        ensures
            strs(ids@) == self@.pending(),
    {
        proof {
            lemma_listed_rows(self@);
        }
        let mut ids: Vec<String> = Vec::new();
        assert(strs(ids@) =~= seq![]);
        if self.selected.is_empty() {
            if self.cursor < self.filtered.len() && self.is_commit_at(self.cursor) {
                let r = self.filtered[self.cursor];
                ids.push(short_id(&self.rows[r]));
                assert(strs(ids@) =~= self@.pending());
            }
            return ids;
        }
        for i in 0..self.rows.len()
            invariant
                strs(ids@) == picked(self@.rows, self@.selected, i as int),
        {
            if self.selected.contains(&i) {
                let ghost before = ids@;
                let id = short_id(&self.rows[i]);
                ids.push(id);
                assert(strs(ids@) =~= strs(before).push(id@));
            }
        }
        ids
    }

    /// Lists the rows anew for the filter.
    pub fn refilter(&mut self)
        requires
            old(self)@.sound(),
        ensures
            final(self).wf(),
            old(self)@.refiltered(old(self)@.filter, final(self)@),
    {
        let ghost start = self@;
        let n = self.rows.len();
        let mut filtered: Vec<usize> = Vec::new();
        if self.filter.as_str().is_empty() {
            for i in 0..n
                invariant
                    filtered@ == in_log_order(i as nat),
            {
                filtered.push(i);
                assert(filtered@ =~= in_log_order((i + 1) as nat));
            }
        } else {
            let q_lower = to_lower(self.filter.as_str());
            let mut found: Vec<Option<u32>> = Vec::new();
            let ghost want = scores(start.rows, start.filter);
            for i in 0..n
                invariant
                    n == self.rows@.len(),
                    self@ == start,
                    q_lower@ == lower(self.filter@),
                    want == scores(start.rows, start.filter),
                    found@ == want.take(i as int),
            {
                assert(start.rows[i as int] == self.rows@[i as int]@);
                let s: Option<u32> = if self.rows[i].is_connector() {
                    None
                } else {
                    score_row(
                        &self.rows[i],
                        self.filter.as_str(),
                        q_lower.as_str(),
                        &mut self.matcher,
                    )
                };
                found.push(s);
                assert(found@ =~= want.take(i + 1));
            }
            assert(want.take(n as int) =~= want);
            filtered = rank(found.as_slice());
        }
        self.filtered = filtered;
        self.view_offset = 0;
        self.cursor = 0;
        proof {
            lemma_landing(self@.rows, self@.filtered, 0, true);
        }
        self.cursor = self.land(0, true);
        self.adjust_view();
    }

    /// Takes the height of the terminal. Three of its rows are not for the
    /// log: the input, the command and the hints.
    pub fn resize(&mut self, term_rows: u16)
        requires
            old(self).wf(),
        ensures
            final(self).wf(),
            final(self)@ == old(self)@.resized(term_rows as int),
    {
        self.last_height = if term_rows > 3 {
            (term_rows - 3) as usize
        } else {
            0
        };
    }

    /// The row whose preview is to be fetched before the screen is drawn;
    /// `None` where none is shown or it is known already.
    pub fn wanted_preview(&self, term_cols: u16) -> (r: Option<usize>)
        ensures
            r == self@.wanted(term_cols as int),
    {
        if term_cols >= PREVIEW_MIN_COLS && self.cursor < self.filtered.len() {
            let row = self.filtered[self.cursor];
            if !self.preview_cache.contains_key(&row) {
                return Some(row);
            }
        }
        None
    }

    /// Keeps the preview of a row.
    pub fn store_preview(&mut self, row: usize, parts: PreviewParts)
        requires
            old(self).wf(),
        ensures
            final(self).wf(),
            final(self)@ == (Picker { previews: old(self)@.previews.insert(row, parts@), ..old(
                self,
            )@ }),
    {
        self.preview_cache.insert(row, parts);
        proof {
            let f = |p: PreviewParts| p@;
            assert(old(self).preview_cache@.insert(row, parts).map_values(f) =~= old(
                self,
            ).preview_cache@.map_values(f).insert(row, parts@));
        }
    }
}

// ---------------------------------------------------------------------------
// Laws

/// Navigation shows the cursor: wherever there is room for a row, the cursor
/// is on the screen after it was moved, and after the list was made anew.
pub proof fn law_cursor_is_on_screen(p: Picker, delta: int, filter: Seq<char>, after: Picker)
    requires
        p.wf(),
        p.last_height > 0,
        p.filtered.len() > 0,
        p.refiltered(filter, after),
    ensures
        p.moved(delta).on_screen(),
        p.at_top().on_screen(),
        p.at_bottom().on_screen(),
        after.on_screen(),
{
}

/// The cursor rests on a commit wherever one is listed, however it is moved.
pub proof fn law_cursor_rests_on_commits(p: Picker, delta: int, i: int)
    requires
        p.wf(),
        commit_at(p.rows, p.filtered, i),
    ensures
        p.on_commit(),
        p.moved(delta).on_commit(),
        p.at_top().on_commit(),
        p.at_bottom().on_commit(),
{
    let last = p.filtered.len() - 1;
    let to = p.cursor + delta;
    let aim = if to < 0 { 0 } else if to > last { last } else { to };
    lemma_landing(p.rows, p.filtered, aim, delta >= 0);
    lemma_landing(p.rows, p.filtered, 0, true);
    lemma_landing(p.rows, p.filtered, last, false);
}

/// A step down goes to the next commit of the list, and a step up from there
/// comes back.
pub proof fn law_step_up_undoes_step_down(p: Picker)
    requires
        p.wf(),
        p.on_commit(),
        p.moved(1).cursor != p.cursor,
    ensures
        p.moved(1).cursor > p.cursor,
        forall|k: int| p.cursor < k < p.moved(1).cursor ==> !commit_at(p.rows, p.filtered, k),
        p.moved(1).moved(-1).cursor == p.cursor,
{
    let rows = p.rows;
    let list = p.filtered;
    let last = list.len() - 1;
    let c = p.cursor;
    let aim = if c + 1 > last { last } else { c + 1 };
    lemma_commit_from(rows, list, aim);
    lemma_commit_upto(rows, list, aim);
    let d = p.moved(1).cursor;
    lemma_commit_upto(rows, list, d - 1);
}

/// The top and the bottom of the list are its first and its last commit.
pub proof fn law_jumps_reach_the_ends(p: Picker, i: int)
    requires
        p.wf(),
        commit_at(p.rows, p.filtered, i),
    ensures
        p.at_top().cursor <= i <= p.at_bottom().cursor,
{
    let last = p.filtered.len() - 1;
    lemma_commit_from(p.rows, p.filtered, 0);
    lemma_commit_upto(p.rows, p.filtered, last);
}

/// Selecting a row twice leaves the selection as it was.
pub proof fn law_toggling_twice_restores(p: Picker)
    ensures
        p.toggled().toggled() == p,
{
    assert(p.toggled().toggled() =~= p);
}

/// Moving about does not change what is selected, nor what is listed.
pub proof fn law_moving_keeps_selection(p: Picker, delta: int)
    ensures
        p.moved(delta).selected == p.selected,
        p.moved(delta).filtered == p.filtered,
        p.at_top().selected == p.selected,
        p.at_bottom().selected == p.selected,
{
}

/// With an empty filter, all rows are listed in the order of the log.
pub proof fn law_empty_filter_lists_all(p: Picker, i: int)
    requires
        p.wf(),
        p.filter.len() == 0,
        0 <= i < p.rows.len(),
    ensures
        p.filtered.len() == p.rows.len(),
        p.filtered[i] == i,
{
}

/// A filter lists no connector, and every commit that it matches.
pub proof fn law_filter_lists_matching_commits(p: Picker, r: usize)
    requires
        p.wf(),
        p.filter.len() > 0,
        r < p.rows.len(),
    ensures
        p.filtered.contains(r) <==> !p.rows[r as int].connector() && row_score(
            p.rows[r as int],
            p.filter,
        ) is Some,
{
    let all = scores(p.rows, p.filter);
    assert(all[r as int] is Some <==> !p.rows[r as int].connector() && row_score(
        p.rows[r as int],
        p.filter,
    ) is Some);
    if p.filtered.contains(r) {
        let i = choose|i: int| 0 <= i < p.filtered.len() && p.filtered[i] == r;
        assert(all[p.filtered[i] as int] is Some);
    }
}

/// Typing what is highlighted of a change id puts the cursor on its revision:
/// the first listed row is the first in the log whose shortest change id
/// starts with the filter.
pub proof fn law_highlighted_id_is_found(p: Picker, r: usize)
    requires
        p.wf(),
        p.filter.len() > 0,
        r < p.rows.len(),
        !p.rows[r as int].connector(),
        hits_change_prefix(p.rows[r as int], p.filter),
        forall|k: int|
            0 <= k < r && hits_change_prefix(#[trigger] p.rows[k], p.filter)
                ==> p.rows[k].connector(),
    ensures
        p.filtered.len() > 0,
        p.filtered[0] == r,
        p.at_top().current() == Some(r),
{
    let all = scores(p.rows, p.filter);
    assert(all[r as int] == row_score(p.rows[r as int], p.filter));
    assert(all[r as int] == Some(1_000_000u32));
    assert(p.filtered.contains(r));
    let i = choose|i: int| 0 <= i < p.filtered.len() && p.filtered[i] == r;
    let f = p.filtered[0];
    assert(all[f as int] is Some);
    assert(all[f as int] == row_score(p.rows[f as int], p.filter));
    if i > 0 {
        assert(outranks(all, p.filtered[0], p.filtered[i]));
        if !hits_change_prefix(p.rows[f as int], p.filter) {
            law_change_prefix_wins(p.rows[r as int], p.rows[f as int], p.filter);
        }
    }
    assert(commit_at(p.rows, p.filtered, 0));
}

proof fn lemma_picked_len(rows: Seq<RowData>, selected: Set<usize>, n: int)
    requires
        0 <= n <= rows.len() <= usize::MAX,
        exists|r: usize| r < n && selected.contains(r),
    ensures
        picked(rows, selected, n).len() > 0,
    decreases n,
{
    if n > 0 && !selected.contains((n - 1) as usize) {
        lemma_picked_len(rows, selected, n - 1);
    }
}

/// Enter picks something wherever the cursor is on a commit.
pub proof fn law_enter_picks_something(p: Picker)
    requires
        p.wf(),
        p.on_commit(),
    ensures
        p.pending().len() > 0,
{
    if !p.selected.is_empty() {
        let r = choose|r: usize| p.selected.contains(r);
        assert(p.selected.contains(r)) by {
            if forall|r: usize| !p.selected.contains(r) {
                assert(p.selected =~= Set::empty());
            }
        }
        lemma_picked_len(p.rows, p.selected, p.rows.len() as int);
    }
}

/// A preview is fetched once: as soon as it is known it is not asked for again.
pub proof fn law_preview_is_fetched_once(p: Picker, cols: int, preview: Preview)
    requires
        p.wanted(cols) is Some,
    ensures
        (Picker { previews: p.previews.insert(p.wanted(cols)->0, preview), ..p }).wanted(cols)
            is None,
{
}

/// A commit that the filter does not find by an id is listed exactly where the
/// matcher finds all that was typed in all of its text.
pub proof fn law_text_is_searched_for_the_whole_filter(p: Picker, r: usize)
    requires
        p.wf(),
        p.filter.len() > 0,
        r < p.rows.len(),
        p.rows[r as int].change_id_short.len() > 0,
        !lower(p.filter).is_prefix_of(lower(p.rows[r as int].change_id_prefix)),
        !lower(p.filter).is_prefix_of(lower(p.rows[r as int].change_id_short)),
        !lower(p.filter).is_prefix_of(lower(p.rows[r as int].commit_id_prefix)),
        !lower(p.filter).is_prefix_of(lower(p.rows[r as int].commit_id_short)),
    ensures
        p.filtered.contains(r) <==> matchable(p.rows[r as int].plain, p.filter) && nucleo_score(
            p.rows[r as int].plain,
            p.filter,
        ) is Some,
{
    law_filter_lists_matching_commits(p, r);
    law_text_is_matched_by_the_whole_filter(p.rows[r as int], p.filter);
}

/// What a filter lists is listed best first; rows of equal score are listed in
/// the order of the log, and no row is listed twice.
pub proof fn law_list_is_best_first(p: Picker, i: int, j: int)
    requires
        p.wf(),
        p.filter.len() > 0,
        0 <= i < j < p.filtered.len(),
    ensures
        ({
            let a = row_score(p.rows[p.filtered[i] as int], p.filter);
            let b = row_score(p.rows[p.filtered[j] as int], p.filter);
            &&& a is Some && b is Some && a->0 >= b->0
            &&& a == b ==> p.filtered[i] < p.filtered[j]
            &&& p.filtered[i] != p.filtered[j]
        }),
{
    let all = scores(p.rows, p.filter);
    assert(outranks(all, p.filtered[i], p.filtered[j]));
    assert(all[p.filtered[i] as int] is Some && all[p.filtered[j] as int] is Some);
    assert(all[p.filtered[i] as int] == row_score(p.rows[p.filtered[i] as int], p.filter));
    assert(all[p.filtered[j] as int] == row_score(p.rows[p.filtered[j] as int], p.filter));
}

proof fn lemma_picked(rows: Seq<RowData>, selected: Set<usize>, n: int)
    requires
        0 <= n <= rows.len() <= usize::MAX,
    ensures
        selected.filter(|x: usize| x < n).finite(),
        picked(rows, selected, n).len() == selected.filter(|x: usize| x < n).len(),
        forall|r: usize|
            r < n && #[trigger] selected.contains(r) ==> {
                let at = selected.filter(|x: usize| x < r).len() as int;
                &&& 0 <= at < picked(rows, selected, n).len()
                &&& picked(rows, selected, n)[at] == (if rows[r as int].change_id_prefix.len() > 0 {
                    rows[r as int].change_id_prefix
                } else {
                    rows[r as int].change_id_short
                })
            },
    decreases n,
{
    let below = selected.filter(|x: usize| x < n);
    if n == 0 {
        assert(below =~= Set::empty());
    } else {
        let m = (n - 1) as usize;
        let less = selected.filter(|x: usize| x < n - 1);
        lemma_picked(rows, selected, n - 1);
        assert(less =~= selected.filter(|x: usize| x < m));
        if selected.contains(m) {
            assert(below =~= less.insert(m));
        } else {
            assert(below =~= less);
        }
    }
}

/// What Enter picks where something is selected: the selected rows, all of them
/// and no others, in the order of the log. There are as many ids as selected
/// rows, and each selected row has its id, the shortest that is known, at the
/// place that counts the selected rows before it.
pub proof fn law_picks_are_the_selected_rows(p: Picker, r: usize)
    requires
        p.wf(),
        p.selected.contains(r),
    ensures
        p.selected.finite(),
        p.pending().len() == p.selected.len(),
        ({
            let at = p.selected.filter(|x: usize| x < r).len() as int;
            &&& 0 <= at < p.pending().len()
            &&& p.pending()[at] == (if p.rows[r as int].change_id_prefix.len() > 0 {
                p.rows[r as int].change_id_prefix
            } else {
                p.rows[r as int].change_id_short
            })
        }),
{
    let n = p.rows.len() as int;
    lemma_picked(p.rows, p.selected, n);
    assert(p.selected.filter(|x: usize| x < n) =~= p.selected);
    assert(!p.selected.is_empty());
}

/// What Enter picks where nothing is selected: the row under the cursor, by the
/// shortest change id that is known, and nothing where that is a connector or
/// nothing is listed.
pub proof fn law_pick_is_under_the_cursor(p: Picker)
    requires
        p.wf(),
        forall|r: usize| !p.selected.contains(r),
    ensures
        0 <= p.cursor < p.filtered.len() && p.rows[p.filtered[p.cursor] as int].change_id_short.len()
            > 0 ==> p.pending() == seq![
            if p.rows[p.filtered[p.cursor] as int].change_id_prefix.len() > 0 {
                p.rows[p.filtered[p.cursor] as int].change_id_prefix
            } else {
                p.rows[p.filtered[p.cursor] as int].change_id_short
            },
        ],
        !(0 <= p.cursor < p.filtered.len() && p.rows[p.filtered[p.cursor] as int].change_id_short.len()
            > 0) ==> p.pending().len() == 0,
{
    assert(p.selected =~= Set::empty());
}

/// Where a move ends: at the place it aims at, which stays on the list, where
/// that is a commit; else at the next commit in its direction; else at the last
/// commit before there.
pub proof fn law_move_ends_at_the_nearest_commit(p: Picker, delta: int)
    requires
        p.wf(),
        p.on_commit(),
    ensures
        ({
            let len = p.filtered.len() as int;
            let to = p.cursor + delta;
            let aim = if to < 0 { 0 } else if to >= len { len - 1 } else { to };
            let c = p.moved(delta).cursor;
            &&& 0 <= c < len && p.rows[p.filtered[c] as int].change_id_short.len() > 0
            &&& delta >= 0 && c >= aim ==> forall|k: int|
                #![trigger p.filtered[k]]
                aim <= k < c ==> p.rows[p.filtered[k] as int].change_id_short.len() == 0
            &&& delta >= 0 && c < aim ==> forall|k: int|
                #![trigger p.filtered[k]]
                c < k < len ==> p.rows[p.filtered[k] as int].change_id_short.len() == 0
            &&& delta < 0 && c <= aim ==> forall|k: int|
                #![trigger p.filtered[k]]
                c < k <= aim ==> p.rows[p.filtered[k] as int].change_id_short.len() == 0
            &&& delta < 0 && c > aim ==> forall|k: int|
                #![trigger p.filtered[k]]
                0 <= k < c ==> p.rows[p.filtered[k] as int].change_id_short.len() == 0
        }),
{
    let len = p.filtered.len() as int;
    let to = p.cursor + delta;
    let aim = if to < 0 { 0 } else if to >= len { len - 1 } else { to };
    lemma_commit_from(p.rows, p.filtered, aim);
    lemma_commit_upto(p.rows, p.filtered, aim);
    let c = p.moved(delta).cursor;
    assert(commit_at(p.rows, p.filtered, p.cursor));
    assert(commit_at(p.rows, p.filtered, c));
    assert forall|k: int|
        #![trigger p.filtered[k]]
        0 <= k < len && !commit_at(p.rows, p.filtered, k) implies p.rows[p.filtered[k] as int].change_id_short.len()
        == 0 by {}
}

/// The top of the list is its first commit and the bottom its last, and a new
/// filter starts at the top.
pub proof fn law_top_and_bottom_are_commits(p: Picker, filter: Seq<char>, after: Picker)
    requires
        p.wf(),
        p.refiltered(filter, after),
    ensures
        p.on_commit() ==> {
            let a = p.at_top().cursor;
            let b = p.at_bottom().cursor;
            &&& 0 <= a < p.filtered.len() && p.rows[p.filtered[a] as int].change_id_short.len() > 0
            &&& forall|k: int|
                #![trigger p.filtered[k]]
                0 <= k < a ==> p.rows[p.filtered[k] as int].change_id_short.len() == 0
            &&& 0 <= b < p.filtered.len() && p.rows[p.filtered[b] as int].change_id_short.len() > 0
            &&& forall|k: int|
                #![trigger p.filtered[k]]
                b < k < p.filtered.len() ==> p.rows[p.filtered[k] as int].change_id_short.len() == 0
        },
        after.filter == filter,
        after.rows == p.rows,
        after.selected == p.selected,
        after.last_height == p.last_height,
        after.previews == p.previews,
        forall|k: int|
            #![trigger after.filtered[k]]
            0 <= k < after.cursor ==> after.rows[after.filtered[k] as int].change_id_short.len() == 0,
        forall|k: int|
            #![trigger after.filtered[k]]
            0 <= k < after.filtered.len() && after.rows[after.filtered[k] as int].change_id_short.len()
                > 0 ==> 0 <= after.cursor <= k && after.rows[after.filtered[after.cursor] as int].change_id_short.len()
                > 0,
{
    let last = p.filtered.len() - 1;
    lemma_commit_from(p.rows, p.filtered, 0);
    lemma_commit_upto(p.rows, p.filtered, last);
    lemma_commit_from(p.rows, after.filtered, 0);
    lemma_commit_upto(p.rows, after.filtered, 0);
    if p.on_commit() {
        assert(commit_at(p.rows, p.filtered, p.cursor));
        assert(commit_at(p.rows, p.filtered, p.at_top().cursor));
        assert(commit_at(p.rows, p.filtered, p.at_bottom().cursor));
    }
    assert forall|k: int|
        #![trigger p.filtered[k]]
        0 <= k < p.filtered.len() && !commit_at(p.rows, p.filtered, k) implies p.rows[p.filtered[k] as int].change_id_short.len()
        == 0 by {}
    assert forall|k: int|
        #![trigger after.filtered[k]]
        0 <= k < after.filtered.len() && after.rows[after.filtered[k] as int].change_id_short.len()
            > 0 implies commit_at(p.rows, after.filtered, k) by {}
    assert forall|k: int|
        #![trigger after.filtered[k]]
        0 <= k < after.cursor implies after.rows[after.filtered[k] as int].change_id_short.len()
        == 0 by {
        assert(!commit_at(p.rows, after.filtered, k));
    }
}

/// The view moves no further than it takes to show the cursor: not at all where
/// the cursor is on the screen already, else to where the cursor is on the first
/// row or on the last, whichever is nearer. Nothing else changes.
pub proof fn law_view_follows_the_cursor(p: Picker, delta: int)
    requires
        p.wf(),
    ensures
        ({
            let q = p.moved(delta);
            let h = p.last_height;
            &&& p.view_offset <= q.cursor < p.view_offset + h ==> q.view_offset == p.view_offset
            &&& h > 0 && q.cursor < p.view_offset ==> q.view_offset == q.cursor || p.filtered.len()
                == 0
            &&& h > 0 && q.cursor >= p.view_offset + h ==> q.view_offset + h == q.cursor + 1
                || p.filtered.len() == 0
            &&& h == 0 ==> q.view_offset == p.view_offset
            &&& q == (Picker { cursor: q.cursor, view_offset: q.view_offset, ..p })
        }),
{
}

/// Selecting changes the mark of one row: the one under the cursor, and only
/// where it is a commit. Nothing else changes.
pub proof fn law_toggle_marks_the_row_under_the_cursor(p: Picker, r: usize)
    requires
        p.wf(),
    ensures
        0 <= p.cursor < p.filtered.len() && r == p.filtered[p.cursor]
            && p.rows[r as int].change_id_short.len() > 0 ==> p.toggled().selected.contains(r)
            == !p.selected.contains(r),
        !(0 <= p.cursor < p.filtered.len() && r == p.filtered[p.cursor]
            && p.rows[r as int].change_id_short.len() > 0) ==> p.toggled().selected.contains(r)
            == p.selected.contains(r),
        p.toggled() == (Picker { selected: p.toggled().selected, ..p }),
{
}

/// Three rows of the terminal are not for the log. A resize changes nothing
/// else.
pub proof fn law_log_has_all_rows_but_three(p: Picker, rows: int)
    ensures
        rows >= 3 ==> p.resized(rows).last_height == rows - 3,
        rows < 3 ==> p.resized(rows).last_height == 0,
        p.resized(rows) == (Picker { last_height: p.resized(rows).last_height, ..p }),
{
}

/// A preview is asked for exactly where it is shown and not known: in a terminal
/// of at least 80 columns, for the row under the cursor.
pub proof fn law_preview_of_the_cursor_is_wanted(p: Picker, cols: int, r: usize)
    ensures
        p.wanted(cols) == Some(r) <==> cols >= 80 && 0 <= p.cursor < p.filtered.len() && r
            == p.filtered[p.cursor] && !p.previews.contains_key(r),
{
}

} // verus!
