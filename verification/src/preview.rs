//! The preview of a revision: what `jj show --summary` says of it.

use crate::ansi::SPACE;
use crate::row::NEWLINE;
use crate::text::{
    equal_to, join, join_bytes, law_split_undoes_join, lead, lemma_filter_step, lemma_lead,
    lemma_split_none, lemma_split_step, lemma_trail, seqs, split, split_bytes, strs, trail,
};
use crate::wrap::{wrap, wrap_ansi};
use vstd::prelude::*;
use vstd::slice::{slice_subrange, slice_to_vec};
use vstd::utf8::encode_utf8;

verus! {

/// The description and the file list of a revision, kept apart so that they
/// can be fitted into the room there is.
pub struct PreviewParts {
    /// The body of the description: its lines below the title, without the
    /// indentation of `jj show`, joined by newlines. No blank line at either
    /// end.
    pub description: Vec<u8>,
    /// The file list (`M path`, `A path`, …), joined by newlines.
    pub files: Vec<u8>,
}

/// A preview, as a value.
#[verifier::ext_equal]
pub struct Preview {
    pub description: Seq<u8>,
    pub files: Seq<u8>,
}

impl View for PreviewParts {
    type V = Preview;

    open spec fn view(&self) -> Preview {
        Preview { description: self.description@, files: self.files@ }
    }
}

// ---------------------------------------------------------------------------
// Reading the output of `jj show --summary`

/// What follows the first blank line.
pub open spec fn past_blank(bytes: Seq<u8>) -> Option<Seq<u8>>
    decreases bytes.len(),
{
    if bytes.len() < 2 {
        None
    } else if bytes[0] == NEWLINE && bytes[1] == NEWLINE {
        Some(bytes.skip(2))
    } else {
        past_blank(bytes.skip(1))
    }
}

/// The output without its header of ids and people, which ends at the first
/// blank line.
pub open spec fn body(bytes: Seq<u8>) -> Seq<u8> {
    match past_blank(bytes) {
        Some(rest) => rest,
        None => bytes,
    }
}

/// The indentation of a description line.
pub open spec fn margin() -> Seq<u8> {
    seq![SPACE, SPACE, SPACE, SPACE]
}

pub open spec fn blank_lines() -> spec_fn(Seq<u8>) -> bool {
    |line: Seq<u8>| line.len() == 0
}

pub open spec fn filled_lines() -> spec_fn(Seq<u8>) -> bool {
    |line: Seq<u8>| line.len() > 0
}

pub open spec fn described() -> spec_fn(Seq<u8>) -> bool {
    |line: Seq<u8>| line.len() == 0 || margin().is_prefix_of(line)
}

/// The lines without the blank ones at the end.
pub open spec fn without_trailing(ls: Seq<Seq<u8>>) -> Seq<Seq<u8>> {
    ls.take(ls.len() - trail(ls, blank_lines()))
}

/// The lines without the blank ones at the start.
pub open spec fn without_leading(ls: Seq<Seq<u8>>) -> Seq<Seq<u8>> {
    ls.skip(lead(ls, blank_lines()) as int)
}

/// The description: the leading lines that are indented or blank, without
/// blank lines at the end.
pub open spec fn description_block(ls: Seq<Seq<u8>>) -> Seq<Seq<u8>> {
    without_trailing(ls.take(lead(ls, described()) as int))
}

/// The description below its title, which is its first line.
pub open spec fn below_title(block: Seq<Seq<u8>>) -> Seq<Seq<u8>> {
    if block.len() == 0 {
        seq![]
    } else {
        without_leading(block.skip(1))
    }
}

pub open spec fn unindent(line: Seq<u8>) -> Seq<u8> {
    if margin().is_prefix_of(line) {
        line.skip(4)
    } else {
        line
    }
}

pub open spec fn unindented(ls: Seq<Seq<u8>>) -> Seq<Seq<u8>> {
    ls.map_values(|l: Seq<u8>| unindent(l))
}

/// The preview in the output of `jj show --summary`: the description below its
/// title, and after the description the lines that are not blank.
pub open spec fn summary(stdout: Seq<u8>) -> Preview {
    let ls = split(body(stdout), equal_to(NEWLINE));
    let block = description_block(ls);
    Preview {
        description: join(unindented(below_title(block)), seq![NEWLINE]),
        files: join(ls.skip(block.len() as int).filter(filled_lines()), seq![NEWLINE]),
    }
}

fn is_indented(line: &[u8]) -> (r: bool)
    ensures
        r == margin().is_prefix_of(line@),
{
    let r = line.len() >= 4 && line[0] == SPACE && line[1] == SPACE && line[2] == SPACE && line[3]
        == SPACE;
    proof {
        if r {
            assert(line@.subrange(0, 4) =~= margin());
        } else if line@.len() >= 4 {
            let s = line@.subrange(0, 4);
            assert(s[0] == line@[0] && s[1] == line@[1] && s[2] == line@[2] && s[3] == line@[3]);
        }
    }
    r
}

fn skip_header(bytes: &[u8]) -> (out: &[u8])
    ensures
        out@ == body(bytes@),
{
    let mut i: usize = 0;
    assert(bytes@.skip(0) == bytes@);
    while bytes.len() - i >= 2
        invariant
            i <= bytes@.len(),
            past_blank(bytes@.skip(i as int)) == past_blank(bytes@),
        decreases bytes.len() - i,
    {
        let ghost rest = bytes@.skip(i as int);
        if bytes[i] == NEWLINE && bytes[i + 1] == NEWLINE {
            assert(rest.skip(2) == bytes@.skip(i + 2));
            return slice_subrange(bytes, i + 2, bytes.len());
        }
        assert(rest.skip(1) == bytes@.skip(i + 1));
        i += 1;
    }
    bytes
}

/// Splits the output of `jj show --summary` into the description and the file
/// list.
#[verifier::rlimit(30)]
pub fn parse_show_summary(bytes: &[u8]) -> (parts: PreviewParts)
    ensures
        parts@ == summary(bytes@),
{
    let ls = split_bytes(skip_header(bytes), NEWLINE);
    let ghost all = seqs(ls@);
    // The description block: leading lines that are indented or blank.
    let mut run: usize = 0;
    while run < ls.len() && (ls[run].len() == 0 || is_indented(ls[run].as_slice()))
        invariant
            run <= ls@.len(),
            all == seqs(ls@),
            forall|k: int| 0 <= k < run ==> described()(#[trigger] all[k]),
        decreases ls.len() - run,
    {
        assert(all[run as int] == ls@[run as int]@);
        run += 1;
    }
    let ghost raw = all.take(run as int);
    proof {
        if run < ls@.len() {
            assert(all[run as int] == ls@[run as int]@);
        }
        lemma_lead(all, described(), run as int);
    }
    let mut desc_end: usize = run;
    while desc_end > 0 && ls[desc_end - 1].len() == 0
        invariant
            desc_end <= run <= ls@.len(),
            all == seqs(ls@),
            raw == all.take(run as int),
            forall|k: int| desc_end <= k < raw.len() ==> blank_lines()(#[trigger] raw[k]),
        decreases desc_end,
    {
        assert(raw[desc_end - 1] == ls@[desc_end - 1]@);
        desc_end -= 1;
    }
    let ghost block = all.take(desc_end as int);
    proof {
        if desc_end > 0 {
            assert(raw[desc_end - 1] == ls@[desc_end - 1]@);
        }
        lemma_trail(raw, blank_lines(), raw.len() - desc_end);
        assert(block =~= description_block(all));
    }
    // The title is shown in the log row already.
    let mut desc_start: usize = if desc_end > 0 {
        1
    } else {
        0
    };
    let ghost first = desc_start;
    let ghost below = block.skip(first as int);
    while desc_start < desc_end && ls[desc_start].len() == 0
        invariant
            first <= desc_start <= desc_end <= ls@.len(),
            all == seqs(ls@),
            block == all.take(desc_end as int),
            below == block.skip(first as int),
            forall|k: int| 0 <= k < desc_start - first ==> blank_lines()(#[trigger] below[k]),
        decreases desc_end - desc_start,
    {
        assert(below[desc_start - first] == ls@[desc_start as int]@);
        desc_start += 1;
    }
    proof {
        if desc_start < desc_end {
            assert(below[desc_start - first] == ls@[desc_start as int]@);
        }
        lemma_lead(below, blank_lines(), desc_start - first);
        assert(below_title(block) =~= all.subrange(desc_start as int, desc_end as int));
    }
    let ghost kept = all.subrange(desc_start as int, desc_end as int);
    let mut desc_lines: Vec<Vec<u8>> = Vec::new();
    assert(seqs(desc_lines@) =~= unindented(kept.take(0)));
    for i in desc_start..desc_end
        invariant
            desc_start <= desc_end <= ls@.len(),
            all == seqs(ls@),
            kept == all.subrange(desc_start as int, desc_end as int),
            seqs(desc_lines@) == unindented(kept.take(i - desc_start)),
    {
        let line = ls[i].as_slice();
        let ghost before = desc_lines@;
        let stripped: &[u8] = if is_indented(line) {
            slice_subrange(line, 4, line.len())
        } else {
            line
        };
        proof {
            if margin().is_prefix_of(line@) {
                assert(line@.skip(4) =~= line@.subrange(4, line@.len() as int));
            }
            assert(kept.take(i - desc_start + 1) =~= kept.take(i - desc_start).push(line@));
        }
        desc_lines.push(slice_to_vec(stripped));
        assert(seqs(desc_lines@) =~= seqs(before).push(unindent(line@)));
        assert(seqs(desc_lines@) =~= unindented(kept.take(i - desc_start + 1)));
    }
    assert(kept.take(desc_end - desc_start) =~= kept);
    let ghost tail = all.skip(desc_end as int);
    let mut file_lines: Vec<Vec<u8>> = Vec::new();
    proof {
        assert(tail.take(0).filter(filled_lines()) =~= seq![]) by {
            reveal(Seq::filter);
            assert(tail.take(0) =~= seq![]);
        }
        assert(seqs(file_lines@) =~= seq![]);
    }
    for i in desc_end..ls.len()
        invariant
            desc_end <= ls@.len(),
            all == seqs(ls@),
            tail == all.skip(desc_end as int),
            seqs(file_lines@) == tail.take(i - desc_end).filter(filled_lines()),
    {
        proof {
            assert(tail[i - desc_end] == ls@[i as int]@);
            lemma_filter_step(tail, filled_lines(), i - desc_end);
        }
        if ls[i].len() > 0 {
            let ghost before = file_lines@;
            file_lines.push(slice_to_vec(ls[i].as_slice()));
            assert(seqs(file_lines@) =~= seqs(before).push(ls@[i as int]@));
        }
    }
    assert(tail.take(tail.len() as int) =~= tail);
    PreviewParts {
        description: join_bytes(desc_lines.as_slice(), NEWLINE),
        files: join_bytes(file_lines.as_slice(), NEWLINE),
    }
}

/// What is shown where there is no preview to be had.
pub open spec fn no_preview() -> Preview {
    Preview { description: encode_utf8("(preview unavailable)"@), files: seq![] }
}

/// The preview out of a run of `jj show --summary`. `stdout` is what it wrote,
/// or `None` where it could not be run or failed.
pub fn show_summary(stdout: Option<&[u8]>) -> (parts: PreviewParts)
    ensures
        parts@ == (match stdout {
            Some(bytes) => summary(bytes@),
            None => no_preview(),
        }),
{
    match stdout {
        Some(bytes) => parse_show_summary(bytes),
        None => {
            let parts = PreviewParts {
                description: slice_to_vec("(preview unavailable)".as_bytes()),
                files: Vec::new(),
            };
            assert(parts@ =~= no_preview());
            parts
        },
    }
}

/// The words of the command that describes a revision.
pub open spec fn summary_words(change_id: Seq<char>) -> Seq<Seq<char>> {
    seq!["--ignore-working-copy"@, "show"@, "--color=always"@, "--summary"@, "-r"@, change_id]
}

/// The arguments with which jj is run to describe a revision.
pub fn summary_args(change_id: &str) -> (args: Vec<String>)
    ensures
        strs(args@) == summary_words(change_id@),
{
    let mut args: Vec<String> = Vec::new();
    args.push("--ignore-working-copy".to_owned());
    args.push("show".to_owned());
    args.push("--color=always".to_owned());
    args.push("--summary".to_owned());
    args.push("-r".to_owned());
    args.push(change_id.to_owned());
    assert(strs(args@) =~= summary_words(change_id@));
    args
}

// ---------------------------------------------------------------------------
// Fitting the preview into the pane

/// The lines of a text, each wrapped to `width` columns; none for no text.
pub open spec fn wrapped(text: Seq<u8>, width: nat) -> Seq<Seq<u8>> {
    if text.len() == 0 {
        seq![]
    } else {
        wrapped_lines(split(text, equal_to(NEWLINE)), width)
    }
}

pub open spec fn wrapped_lines(ls: Seq<Seq<u8>>, width: nat) -> Seq<Seq<u8>>
    decreases ls.len(),
{
    if ls.len() == 0 {
        seq![]
    } else {
        wrapped_lines(ls.drop_last(), width) + wrap(ls.last(), width)
    }
}

/// The mark after the last line of a clipped description: a dim ellipsis.
pub open spec fn ellipsis() -> Seq<u8> {
    encode_utf8(" \x1b[2m\u{2026}\x1b[0m"@)
}

/// How many lines of the description there is room for, with `files` lines of
/// the file list and a blank line between the two.
pub open spec fn description_room(desc: nat, files: nat, rows: nat) -> nat {
    let taken = files + (if desc > 0 && files > 0 { 1nat } else { 0nat });
    let room = if rows > taken { (rows - taken) as nat } else { 0 };
    if desc < room {
        desc
    } else {
        room
    }
}

/// The first `kept` lines of the description, with an ellipsis on the last
/// where lines are left out.
pub open spec fn clip(desc: Seq<Seq<u8>>, kept: nat) -> Seq<Seq<u8>> {
    if 0 < kept < desc.len() {
        desc.take(kept - 1).push(desc[kept - 1] + ellipsis())
    } else {
        desc.take(kept as int)
    }
}

/// The description that there is room for, a blank line, and the file list.
pub open spec fn fitted(desc: Seq<Seq<u8>>, files: Seq<Seq<u8>>, rows: nat) -> Seq<Seq<u8>> {
    let kept = description_room(desc.len(), files.len(), rows);
    let gap: Seq<Seq<u8>> = if files.len() > 0 && kept > 0 {
        seq![seq![]]
    } else {
        seq![]
    };
    clip(desc, kept) + gap + files
}

/// The lines of the preview pane.
pub open spec fn preview_lines(p: Preview, rows: nat, width: nat) -> Seq<Seq<u8>> {
    fitted(wrapped(p.description, width), wrapped(p.files, width), rows)
}

/// The lines of a text.
pub fn split_lines(bytes: &[u8]) -> (out: Vec<Vec<u8>>)
    ensures
        seqs(out@) == split(bytes@, equal_to(NEWLINE)),
{
    split_bytes(bytes, NEWLINE)
}

fn append_all(out: &mut Vec<Vec<u8>>, more: &[Vec<u8>])
    ensures
        seqs(final(out)@) == seqs(old(out)@) + seqs(more@),
{
    let ghost start = out@;
    assert(seqs(start) + seqs(more@).take(0) =~= seqs(start));
    for i in 0..more.len()
        invariant
            seqs(out@) == seqs(start) + seqs(more@).take(i as int),
    {
        let ghost before = out@;
        out.push(slice_to_vec(more[i].as_slice()));
        assert(seqs(out@) =~= seqs(before).push(more@[i as int]@));
        assert(seqs(more@).take(i + 1) =~= seqs(more@).take(i as int).push(more@[i as int]@));
    }
    assert(seqs(more@).take(more@.len() as int) =~= seqs(more@));
}

fn wrap_lines(text: &[u8], width: usize) -> (out: Vec<Vec<u8>>)
    ensures
        seqs(out@) == wrapped(text@, width as nat),
{
    let mut out: Vec<Vec<u8>> = Vec::new();
    assert(seqs(out@) =~= seq![]);
    if text.len() > 0 {
        let ls = split_lines(text);
        let ghost all = seqs(ls@);
        for i in 0..ls.len()
            invariant
                all == seqs(ls@),
                seqs(out@) == wrapped_lines(all.take(i as int), width as nat),
        {
            assert(all.take(i + 1).drop_last() =~= all.take(i as int));
            assert(all.take(i + 1).last() == ls@[i as int]@);
            append_all(&mut out, wrap_ansi(ls[i].as_slice(), width).as_slice());
        }
        assert(all.take(all.len() as int) =~= all);
    }
    out
}

/// Packs the description and the file list into `available_rows` lines. The
/// file list always wins: the description is clipped, with a dim ellipsis on
/// its last line, to the room that is left after the files and a blank line.
/// Long lines are wrapped to `width` columns.
pub fn build_preview_lines(parts: &PreviewParts, available_rows: usize, width: usize) -> (out: Vec<
    Vec<u8>,
>)
    ensures
        seqs(out@) == preview_lines(parts@, available_rows as nat, width as nat),
{
    let desc_lines = wrap_lines(parts.description.as_slice(), width);
    let file_lines = wrap_lines(parts.files.as_slice(), width);
    let ghost desc = seqs(desc_lines@);
    let ghost files = seqs(file_lines@);
    let separated = desc_lines.len() > 0 && file_lines.len() > 0;
    let mut room: usize = if available_rows > file_lines.len() {
        available_rows - file_lines.len()
    } else {
        0
    };
    if separated && room > 0 {
        room -= 1;
    }
    let kept: usize = if desc_lines.len() < room {
        desc_lines.len()
    } else {
        room
    };
    assert(kept == description_room(desc.len(), files.len(), available_rows as nat));
    let clipped = desc_lines.len() > kept;
    let mut out: Vec<Vec<u8>> = Vec::new();
    assert(seqs(out@) =~= desc.take(0));
    for i in 0..kept
        invariant
            desc == seqs(desc_lines@),
            kept <= desc.len(),
            clipped == (desc.len() > kept),
            i < kept || !clipped ==> seqs(out@) == desc.take(i as int),
            i == kept ==> seqs(out@) == clip(desc, kept as nat),
    {
        let ghost before = out@;
        let mut line = slice_to_vec(desc_lines[i].as_slice());
        assert(desc.take(i + 1) =~= desc.take(i as int).push(desc[i as int]));
        if clipped && i + 1 == kept {
            line.extend_from_slice(" \x1b[2m\u{2026}\x1b[0m".as_bytes());
            assert(line@ =~= desc[i as int] + ellipsis());
        }
        out.push(line);
        assert(seqs(out@) =~= seqs(before).push(line@));
    }
    assert(seqs(out@) == clip(desc, kept as nat));
    if separated && kept > 0 {
        let ghost before = out@;
        out.push(Vec::new());
        assert(seqs(out@) =~= seqs(before) + seq![seq![]]);
    } else {
        assert(seqs(out@) =~= clip(desc, kept as nat) + seq![]);
    }
    append_all(&mut out, file_lines.as_slice());
    out
}

// ---------------------------------------------------------------------------
// Laws

/// The file list always wins: the pane ends with all of it, whatever the
/// description is.
pub proof fn law_files_are_kept(p: Preview, rows: nat, width: nat)
    ensures
        wrapped(p.files, width).is_suffix_of(preview_lines(p, rows, width)),
{
    let files = wrapped(p.files, width);
    let out = preview_lines(p, rows, width);
    assert(out.subrange(out.len() - files.len(), out.len() as int) =~= files);
}

/// The pane keeps to the rows that there are, except that a file list that is
/// longer by itself is shown in full.
pub proof fn law_preview_fits(p: Preview, rows: nat, width: nat)
    ensures
        preview_lines(p, rows, width).len() <= rows || preview_lines(p, rows, width) == wrapped(
            p.files,
            width,
        ),
{
    let desc = wrapped(p.description, width);
    let files = wrapped(p.files, width);
    let kept = description_room(desc.len(), files.len(), rows);
    if kept == 0 {
        assert(preview_lines(p, rows, width) =~= files);
    }
}

/// Where there is room for all of it, nothing of the description is left out.
pub proof fn law_roomy_preview_is_whole(p: Preview, rows: nat, width: nat)
    requires
        rows > wrapped(p.description, width).len() + wrapped(p.files, width).len(),
    ensures
        wrapped(p.description, width).is_prefix_of(preview_lines(p, rows, width)),
{
    let desc = wrapped(p.description, width);
    let out = preview_lines(p, rows, width);
    assert(clip(desc, desc.len()) =~= desc);
    assert(out.subrange(0, desc.len() as int) =~= desc);
}

/// So many blank lines.
pub open spec fn blank_run(n: nat) -> Seq<Seq<u8>> {
    Seq::new(n, |i: int| Seq::<u8>::empty())
}

/// A line of a description as `jj show` writes it: indented, unless blank.
pub open spec fn indented(ls: Seq<Seq<u8>>) -> Seq<Seq<u8>> {
    ls.map_values(
        |l: Seq<u8>|
            if l.len() == 0 {
                l
            } else {
                margin() + l
            },
    )
}

/// The lines that `jj show` writes below its header: the title, `gap` blank
/// lines, the body of the description, blank lines, and the rest.
pub open spec fn shown_lines(
    title: Seq<u8>,
    gap: nat,
    desc: Seq<Seq<u8>>,
    end: nat,
    rest: Seq<Seq<u8>>,
) -> Seq<Seq<u8>> {
    seq![margin() + title] + blank_run(gap) + indented(desc) + blank_run(end) + rest
}

proof fn lemma_past_blank(header: Seq<u8>, rest: Seq<u8>)
    requires
        forall|i: int|
            0 <= i < header.len() ==> !(#[trigger] header[i] == NEWLINE && (i + 1 == header.len()
                || header[i + 1] == NEWLINE)),
    ensures
        past_blank(header + (seq![NEWLINE, NEWLINE] + rest)) == Some(rest),
    decreases header.len(),
{
    let s = header + (seq![NEWLINE, NEWLINE] + rest);
    if header.len() == 0 {
        assert(s.skip(2) =~= rest);
    } else {
        let h = header.skip(1);
        assert forall|i: int| 0 <= i < h.len() implies !(#[trigger] h[i] == NEWLINE && (i + 1
            == h.len() || h[i + 1] == NEWLINE)) by {
            assert(h[i] == header[i + 1]);
        }
        lemma_past_blank(h, rest);
        assert(s.skip(1) =~= h + (seq![NEWLINE, NEWLINE] + rest));
        assert(s[0] == header[0]);
        if header.len() > 1 {
            assert(s[1] == header[1]);
        }
    }
}

proof fn lemma_blank_run_filtered(n: nat)
    ensures
        blank_run(n).filter(filled_lines()) == Seq::<Seq<u8>>::empty(),
    decreases n,
{
    reveal(Seq::filter);
    if n > 0 {
        lemma_blank_run_filtered((n - 1) as nat);
        assert(blank_run(n).drop_last() =~= blank_run((n - 1) as nat));
    }
}

proof fn lemma_indented(l: Seq<u8>)
    ensures
        margin().is_prefix_of(margin() + l),
        unindent(margin() + l) == l,
        unindent(Seq::<u8>::empty()) == Seq::<u8>::empty(),
{
    let m = margin() + l;
    assert(m.subrange(0, 4) =~= margin());
    assert(m.skip(4) =~= l);
}

/// What `jj show --summary` writes is read back: below any header that ends at
/// the first blank line, the body of the description and the lines after it
/// that are not blank, without the title, the indentation and the blank lines
/// around the body. The body neither starts nor ends with a blank line, and
/// what follows it starts at the left margin.
pub proof fn law_summary_reads_back(
    header: Seq<u8>,
    title: Seq<u8>,
    gap: nat,
    desc: Seq<Seq<u8>>,
    end: nat,
    rest: Seq<Seq<u8>>,
)
    requires
        forall|i: int|
            0 <= i < header.len() ==> !(#[trigger] header[i] == NEWLINE && (i + 1 == header.len()
                || header[i + 1] == NEWLINE)),
        forall|i: int|
            0 <= i < shown_lines(title, gap, desc, end, rest).len() ==> !(
            #[trigger] shown_lines(title, gap, desc, end, rest)[i]).contains(NEWLINE),
        desc.len() == 0 ==> gap == 0,
        desc.len() > 0 ==> desc[0].len() > 0 && desc.last().len() > 0,
        rest.len() > 0 ==> !described()(rest[0]),
    ensures
        summary(
            header + (seq![NEWLINE, NEWLINE] + join(
                shown_lines(title, gap, desc, end, rest),
                seq![NEWLINE],
            )),
        ) == (Preview {
            description: join(desc, seq![NEWLINE]),
            files: join(rest.filter(filled_lines()), seq![NEWLINE]),
        }),
{
    let ls = shown_lines(title, gap, desc, end, rest);
    lemma_past_blank(header, join(ls, seq![NEWLINE]));
    law_split_undoes_join(ls, NEWLINE);
    let x = seq![margin() + title] + blank_run(gap) + indented(desc);
    let n = x.len() as int;
    // The description block ends where the rest begins.
    assert forall|i: int| 0 <= i < n + end implies described()(#[trigger] ls[i]) by {
        if i == 0 {
            lemma_indented(title);
        } else if 1 + gap <= i < n {
            let l = desc[i - 1 - gap];
            lemma_indented(l);
            assert(ls[i] == indented(desc)[i - 1 - gap]);
        }
    }
    if rest.len() > 0 {
        assert(ls[n + end] == rest[0]);
    }
    lemma_lead(ls, described(), n + end);
    let raw = ls.take(n + end);
    assert forall|i: int| raw.len() - end <= i < raw.len() implies blank_lines()(
        #[trigger] raw[i],
    ) by {
        assert(raw[i] == blank_run(end)[i - n]);
    }
    assert(!blank_lines()(raw[n - 1])) by {
        if desc.len() > 0 {
            assert(raw[n - 1] == indented(desc)[desc.len() - 1]);
        }
    }
    lemma_trail(raw, blank_lines(), end as int);
    let block = description_block(ls);
    assert(block =~= x);
    // Below the title, blank lines are passed over.
    let below = block.skip(1);
    assert(below =~= blank_run(gap) + indented(desc));
    assert forall|i: int| 0 <= i < gap implies blank_lines()(#[trigger] below[i]) by {
        assert(below[i] == blank_run(gap)[i]);
    }
    if desc.len() > 0 {
        assert(below[gap as int] == indented(desc)[0]);
    }
    lemma_lead(below, blank_lines(), gap as int);
    assert(below_title(block) =~= indented(desc));
    assert(unindented(indented(desc)) =~= desc) by {
        assert forall|i: int| 0 <= i < desc.len() implies #[trigger] unindented(indented(desc))[i]
            == desc[i] by {
            lemma_indented(desc[i]);
            if desc[i].len() == 0 {
                assert(desc[i] =~= Seq::<u8>::empty());
            }
        }
    }
    // After the block come blank lines, which are no files.
    let tail = ls.skip(block.len() as int);
    assert(tail =~= blank_run(end) + rest);
    Seq::filter_distributes_over_add(blank_run(end), rest, filled_lines());
    lemma_blank_run_filtered(end);
    assert(Seq::<Seq<u8>>::empty() + rest.filter(filled_lines()) =~= rest.filter(filled_lines()));
}

/// A text is wrapped line by line.
pub proof fn law_text_is_wrapped_line_by_line(line: Seq<u8>, rest: Seq<u8>, width: nat)
    requires
        !line.contains(0x0a),
    ensures
        wrapped(seq![], width).len() == 0,
        line.len() > 0 ==> wrapped(line, width) == wrap(line, width),
        rest.len() > 0 ==> wrapped(line + (seq![0x0au8] + rest), width) == wrap(line, width)
            + wrapped(rest, width),
        wrapped(line + seq![0x0au8], width) == wrap(line, width) + wrap(seq![], width),
{
    let p = equal_to(NEWLINE);
    assert forall|i: int| 0 <= i < line.len() implies !p(#[trigger] line[i]) by {
        assert(line.contains(line[i]));
    }
    lemma_split_none(line, p);
    lemma_split_none(Seq::<u8>::empty(), p);
    lemma_split_step(line, NEWLINE, rest, p);
    lemma_split_step(line, NEWLINE, seq![], p);
    assert(line + (seq![NEWLINE] + Seq::<u8>::empty()) =~= line + seq![NEWLINE]);
    lemma_wrapped_front(line, split(rest, p), width);
    lemma_wrapped_front(line, seq![Seq::<u8>::empty()], width);
    lemma_wrapped_front(line, seq![], width);
    lemma_wrapped_front(seq![], seq![], width);
    assert(seq![line] + Seq::<Seq<u8>>::empty() =~= seq![line]);
    assert(seq![Seq::<u8>::empty()] + Seq::<Seq<u8>>::empty() =~= seq![Seq::<u8>::empty()]);
    assert(wrap(line, width) + Seq::<Seq<u8>>::empty() =~= wrap(line, width));
    assert(wrap(Seq::<u8>::empty(), width) + Seq::<Seq<u8>>::empty() =~= wrap(
        Seq::<u8>::empty(),
        width,
    ));
}

proof fn lemma_wrapped_front(line: Seq<u8>, ls: Seq<Seq<u8>>, width: nat)
    ensures
        wrapped_lines(seq![line] + ls, width) == wrap(line, width) + wrapped_lines(ls, width),
    decreases ls.len(),
{
    let all = seq![line] + ls;
    if ls.len() == 0 {
        assert(all =~= seq![line]);
        assert(seq![line].drop_last() =~= seq![]);
        assert(wrapped_lines(seq![line].drop_last(), width) =~= seq![]);
        assert(wrapped_lines(ls, width) =~= seq![]);
        assert(Seq::<Seq<u8>>::empty() + wrap(line, width) =~= wrap(line, width) + Seq::<
            Seq<u8>,
        >::empty());
    } else {
        lemma_wrapped_front(line, ls.drop_last(), width);
        assert(all.drop_last() =~= seq![line] + ls.drop_last());
        assert(all.last() == ls.last());
        let a = wrap(line, width);
        let b = wrapped_lines(ls.drop_last(), width);
        let c = wrap(ls.last(), width);
        assert(a + b + c =~= a + (b + c));
    }
}

/// What the pane shows of a description and a file list, by the rows there are.
/// Where both have room with a blank line between them, all of both; where only
/// the description is too long, it is cut so that all rows are used, and its last
/// line ends in an ellipsis; and where the files leave no row for it, only the
/// files.
pub proof fn law_pane_is_used_in_full(p: Preview, rows: nat, width: nat)
    ensures
        ({
            let d = wrapped(p.description, width);
            let f = wrapped(p.files, width);
            let out = preview_lines(p, rows, width);
            let mark = encode_utf8(" \x1b[2m\u{2026}\x1b[0m"@);
            &&& d.len() == 0 ==> out == f
            &&& f.len() == 0 && d.len() <= rows ==> out == d
            &&& f.len() == 0 && 0 < rows < d.len() ==> out == d.take(rows - 1).push(
                d[rows - 1] + mark,
            )
            &&& d.len() > 0 && f.len() > 0 && d.len() + 1 + f.len() <= rows ==> out == d.push(
                seq![],
            ) + f
            &&& d.len() > 0 && f.len() > 0 && f.len() + 1 < rows < d.len() + 1 + f.len() ==> {
                let n = rows - f.len() - 1;
                out == d.take(n - 1).push(d[n - 1] + mark).push(seq![]) + f
            }
            &&& f.len() > 0 && rows <= f.len() + 1 ==> out == f
            &&& rows == 0 ==> out == f
        }),
{
    let d = wrapped(p.description, width);
    let f = wrapped(p.files, width);
    let out = preview_lines(p, rows, width);
    let kept = description_room(d.len(), f.len(), rows);
    if kept == 0 {
        assert(out =~= f);
    } else if kept == d.len() {
        assert(clip(d, kept) =~= d);
        if f.len() == 0 {
            assert(out =~= d);
        } else {
            assert(out =~= d.push(seq![]) + f);
        }
    } else {
        let c = d.take(kept - 1).push(d[kept - 1] + ellipsis());
        if f.len() == 0 {
            assert(out =~= c);
        } else {
            assert(out =~= c.push(seq![]) + f);
        }
    }
}

/// A revision without a description: where the first line below the header is
/// neither blank nor indented, there is nothing above the files, and every line
/// that is not blank is one of them.
pub proof fn law_summary_without_description(header: Seq<u8>, rest: Seq<Seq<u8>>)
    requires
        forall|i: int|
            0 <= i < header.len() ==> !(#[trigger] header[i] == NEWLINE && (i + 1 == header.len()
                || header[i + 1] == NEWLINE)),
        rest.len() > 0,
        rest[0].len() > 0,
        !seq![0x20u8, 0x20, 0x20, 0x20].is_prefix_of(rest[0]),
        forall|i: int| 0 <= i < rest.len() ==> !(#[trigger] rest[i]).contains(NEWLINE),
    ensures
        summary(header + (seq![NEWLINE, NEWLINE] + join(rest, seq![NEWLINE]))) == (Preview {
            description: seq![],
            files: join(rest.filter(|l: Seq<u8>| l.len() > 0), seq![NEWLINE]),
        }),
{
    lemma_past_blank(header, join(rest, seq![NEWLINE]));
    law_split_undoes_join(rest, NEWLINE);
    assert(margin() =~= seq![0x20u8, 0x20, 0x20, 0x20]);
    assert(!described()(rest[0]));
    lemma_lead(rest, described(), 0);
    let none = rest.take(0);
    lemma_trail(none, blank_lines(), 0);
    assert(description_block(rest) =~= seq![]);
    assert(rest.skip(0) =~= rest);
    assert(unindented(seq![]) =~= seq![]);
    assert(filled_lines() =~= |l: Seq<u8>| l.len() > 0);
    assert(join(Seq::<Seq<u8>>::empty(), seq![NEWLINE]) =~= seq![]);
}

proof fn lemma_no_blank(bytes: Seq<u8>)
    requires
        forall|i: int|
            0 <= i < bytes.len() - 1 ==> !(#[trigger] bytes[i] == NEWLINE && bytes[i + 1]
                == NEWLINE),
    ensures
        past_blank(bytes) is None,
    decreases bytes.len(),
{
    if bytes.len() >= 2 {
        let t = bytes.skip(1);
        assert forall|i: int| 0 <= i < t.len() - 1 implies !(#[trigger] t[i] == NEWLINE && t[i + 1]
            == NEWLINE) by {
            assert(t[i] == bytes[i + 1]);
        }
        lemma_no_blank(t);
    }
}

/// Output without a blank line has no header: it is read as what follows one.
pub proof fn law_header_ends_at_a_blank_line(header: Seq<u8>, bytes: Seq<u8>)
    requires
        forall|i: int|
            0 <= i < header.len() ==> !(#[trigger] header[i] == NEWLINE && (i + 1 == header.len()
                || header[i + 1] == NEWLINE)),
        forall|i: int|
            0 <= i < bytes.len() - 1 ==> !(#[trigger] bytes[i] == NEWLINE && bytes[i + 1]
                == NEWLINE),
    ensures
        summary(bytes) == summary(header + (seq![NEWLINE, NEWLINE] + bytes)),
{
    lemma_past_blank(header, bytes);
    lemma_no_blank(bytes);
}

} // verus!
