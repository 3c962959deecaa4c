//! Rows of the log.
//!
//! The log is captured with a template that writes, for each commit, five
//! fields and a payload behind the graph that jj draws, each after a unit
//! separator. A line of pure graph has no separators.

use crate::ansi::{law_strip_plain, strip_csi, strip_escapes};
use crate::decode::{decode, text};
use crate::text::{
    cut, cut_bytes, equal_to, lead, lemma_filter_step, lemma_lead, lemma_split_none,
    lemma_split_some, lemma_split_step, not, seqs, split, split_bytes, strs,
};
use vstd::prelude::*;
use vstd::slice::slice_to_vec;
use vstd::utf8::{decode_utf8, decode_utf8_encode_utf8, encode_utf8, valid_utf8};

verus! {

/// The byte before each field.
pub const SEP: u8 = 0x1f;

/// The line feed.
pub const NEWLINE: u8 = 0x0a;

/// What jj writes per commit: the short change id, its shortest unique prefix,
/// the short commit id, its shortest unique prefix, and a payload with the
/// highlighted change id, bookmarks, markers and the first line of the
/// description. It has to stay on one line, or the graph would grow
/// continuation rows.
pub const TEMPLATE: &'static str =
    "\"\\x1f\" ++ change_id.short() ++ \"\\x1f\" ++ change_id.shortest().prefix() ++ \"\\x1f\" ++ commit_id.short() ++ \"\\x1f\" ++ commit_id.shortest().prefix() ++ \"\\x1f\" ++ (separate(\" \", format_short_change_id(self.change_id()), bookmarks, if(conflict, label(\"conflict\", \"conflict\")), if(empty, label(\"empty\", \"(empty)\")), description.first_line() ))";

/// A commit, which can be picked, or a connector: graph without a commit
/// (`├─╮`, `│ │`, `~`), which is only drawn. A connector has an empty
/// `change_id_short`.
pub struct Row {
    pub change_id_short: String,
    pub change_id_prefix: String,
    pub commit_id_short: String,
    pub commit_id_prefix: String,
    pub plain: String,
    pub styled: Vec<u8>,
}

/// A row, as a value.
#[verifier::ext_equal]
pub struct RowData {
    pub change_id_short: Seq<char>,
    pub change_id_prefix: Seq<char>,
    pub commit_id_short: Seq<char>,
    pub commit_id_prefix: Seq<char>,
    pub plain: Seq<char>,
    pub styled: Seq<u8>,
}

impl RowData {
    pub open spec fn connector(self) -> bool {
        self.change_id_short.len() == 0
    }
}

impl View for Row {
    type V = RowData;

    open spec fn view(&self) -> RowData {
        RowData {
            change_id_short: self.change_id_short@,
            change_id_prefix: self.change_id_prefix@,
            commit_id_short: self.commit_id_short@,
            commit_id_prefix: self.commit_id_prefix@,
            plain: self.plain@,
            styled: self.styled@,
        }
    }
}

/// Rows as values.
pub open spec fn row_data(rows: Seq<Row>) -> Seq<RowData> {
    rows.map_values(|r: Row| r@)
}

impl Row {
    /// Whether the row is a connector.
    pub fn is_connector(&self) -> (r: bool)
        ensures
            r == self@.connector(),
    {
        self.change_id_short.as_str().is_empty()
    }
}

/// The text that is left of some bytes without their escape sequences.
pub open spec fn plain_text(bytes: Seq<u8>) -> Seq<char> {
    text(strip_csi(bytes))
}

/// Strips escape sequences (`ESC [` … letter). All other bytes pass, and the
/// result is decoded as UTF-8, so that the graph (`@`, `○`, `◆`) survives.
pub fn strip_ansi(bytes: &[u8]) -> (s: String)
    ensures
        s@ == plain_text(bytes@),
{
    let kept = strip_escapes(bytes);
    decode(kept.as_slice())
}

/// The row that a line of the log is.
pub open spec fn row_of(line: Seq<u8>) -> RowData {
    match cut(line, SEP, 5) {
        Some(parts) => RowData {
            change_id_short: plain_text(parts[1]),
            change_id_prefix: plain_text(parts[2]),
            commit_id_short: plain_text(parts[3]),
            commit_id_prefix: plain_text(parts[4]),
            plain: plain_text(parts[0] + parts[5]),
            styled: parts[0] + parts[5],
        },
        None => RowData {
            change_id_short: seq![],
            change_id_prefix: seq![],
            commit_id_short: seq![],
            commit_id_prefix: seq![],
            plain: plain_text(line),
            styled: line,
        },
    }
}

/// Parses one line of the log. A line with the five separators is a commit;
/// any other is kept as a connector.
pub fn parse_row(bytes: &[u8]) -> (row: Row)
    ensures
        row@ == row_of(bytes@),
{
    let parts = match cut_bytes(bytes, SEP, 5) {
        Some(parts) => parts,
        None => {
            let row = Row {
                change_id_short: String::new(),
                change_id_prefix: String::new(),
                commit_id_short: String::new(),
                commit_id_prefix: String::new(),
                plain: strip_ansi(bytes),
                styled: slice_to_vec(bytes),
            };
            assert(row@ =~= row_of(bytes@));
            return row;
        },
    };
    let mut styled: Vec<u8> = Vec::new();
    styled.extend_from_slice(parts[0].as_slice());
    styled.extend_from_slice(parts[5].as_slice());
    assert(styled@ =~= seqs(parts@)[0] + seqs(parts@)[5]);
    let row = Row {
        change_id_short: strip_ansi(parts[1].as_slice()),
        change_id_prefix: strip_ansi(parts[2].as_slice()),
        commit_id_short: strip_ansi(parts[3].as_slice()),
        commit_id_prefix: strip_ansi(parts[4].as_slice()),
        plain: strip_ansi(styled.as_slice()),
        styled,
    };
    assert(row@ =~= row_of(bytes@));
    row
}

pub open spec fn filled() -> spec_fn(Seq<u8>) -> bool {
    |line: Seq<u8>| line.len() > 0
}

/// The rows of a captured log: one for each line that is not empty.
pub open spec fn log_rows(stdout: Seq<u8>) -> Seq<RowData> {
    split(stdout, equal_to(NEWLINE)).filter(filled()).map_values(|l: Seq<u8>| row_of(l))
}

fn parse_log(stdout: &[u8]) -> (rows: Vec<Row>)
    ensures
        row_data(rows@) == log_rows(stdout@),
{
    let ls = split_bytes(stdout, NEWLINE);
    let ghost all = seqs(ls@);
    let ghost f = |l: Seq<u8>| row_of(l);
    let mut rows: Vec<Row> = Vec::new();
    proof {
        assert(all.take(0).filter(filled()) =~= seq![]) by {
            reveal(Seq::filter);
            assert(all.take(0) =~= seq![]);
        }
        assert(row_data(rows@) =~= all.take(0).filter(filled()).map_values(f));
    }
    for i in 0..ls.len()
        invariant
            all == seqs(ls@),
            f == |l: Seq<u8>| row_of(l),
            row_data(rows@) == all.take(i as int).filter(filled()).map_values(f),
    {
        proof {
            lemma_filter_step(all, filled(), i as int);
        }
        if ls[i].len() > 0 {
            let ghost before = rows@;
            let row = parse_row(ls[i].as_slice());
            rows.push(row);
            assert(row_data(rows@) =~= row_data(before).push(row@));
            let ghost kept = all.take(i as int).filter(filled());
            assert(kept.push(all[i as int]).map_values(f) =~= kept.map_values(f).push(row@));
        }
    }
    assert(all.take(all.len() as int) == all);
    rows
}

/// What a run of `jj log` gives: its rows, or where it failed, the exit code
/// to leave with.
pub fn capture_log(success: bool, code: Option<i32>, stdout: &[u8]) -> (r: Result<Vec<Row>, i32>)
    ensures
        r is Ok == success,
        r matches Ok(rows) ==> row_data(rows@) == log_rows(stdout@),
        r matches Err(e) ==> e == (match code {
            Some(c) => c,
            None => 1i32,
        }),
{
    if success {
        Ok(parse_log(stdout))
    } else {
        Err(
            match code {
                Some(c) => c,
                None => 1,
            },
        )
    }
}

/// The words of the command that captures the log.
pub open spec fn log_words() -> Seq<Seq<char>> {
    seq![
        "--ignore-working-copy"@,
        "--config"@,
        "ui.log-word-wrap=false"@,
        "log"@,
        "--color=always"@,
        "-r"@,
        "all()"@,
        "--limit"@,
        "1000"@,
        "-T"@,
        TEMPLATE@,
    ]
}

/// The arguments with which jj is run to capture the log. Word wrap is forced
/// off: a wrapped description would look like a connector.
pub fn log_args() -> (args: Vec<String>)
    ensures
        strs(args@) == log_words(),
{
    let mut args: Vec<String> = Vec::new();
    args.push("--ignore-working-copy".to_owned());
    args.push("--config".to_owned());
    args.push("ui.log-word-wrap=false".to_owned());
    args.push("log".to_owned());
    args.push("--color=always".to_owned());
    args.push("-r".to_owned());
    args.push("all()".to_owned());
    args.push("--limit".to_owned());
    args.push("1000".to_owned());
    args.push("-T".to_owned());
    args.push(TEMPLATE.to_owned());
    assert(strs(args@) =~= log_words());
    args
}

// ---------------------------------------------------------------------------
// Laws

proof fn lemma_cut_step(a: Seq<u8>, rest: Seq<u8>, n: nat)
    requires
        !a.contains(SEP),
    ensures
        cut(a + (seq![SEP] + rest), SEP, n + 1) == (match cut(rest, SEP, n) {
            Some(parts) => Some(seq![a] + parts),
            None => None,
        }),
{
    let s = a + (seq![SEP] + rest);
    assert forall|i: int| 0 <= i < a.len() implies not(equal_to(SEP))(#[trigger] s[i]) by {
        assert(s[i] == a[i]);
        assert(a.contains(a[i]));
    }
    lemma_lead(s, not(equal_to(SEP)), a.len() as int);
    assert(s.take(a.len() as int) =~= a);
    assert(s.skip(a.len() as int + 1) =~= rest);
}

/// A field behind its separator.
pub open spec fn field(bytes: Seq<u8>) -> Seq<u8> {
    seq![SEP] + bytes
}

/// What the template writes is read back: a line made of the graph, the four
/// ids and the payload gives a row with these ids that shows the graph and the
/// payload. Only the payload may hold further separators.
pub proof fn law_row_reads_back(
    graph: Seq<u8>,
    change: Seq<u8>,
    change_prefix: Seq<u8>,
    commit: Seq<u8>,
    commit_prefix: Seq<u8>,
    payload: Seq<u8>,
)
    requires
        !graph.contains(SEP),
        !change.contains(SEP),
        !change_prefix.contains(SEP),
        !commit.contains(SEP),
        !commit_prefix.contains(SEP),
    ensures
        row_of(
            graph + field(change + field(change_prefix + field(commit + field(commit_prefix + field(
                payload,
            ))))),
        ) == (RowData {
            change_id_short: plain_text(change),
            change_id_prefix: plain_text(change_prefix),
            commit_id_short: plain_text(commit),
            commit_id_prefix: plain_text(commit_prefix),
            plain: plain_text(graph + payload),
            styled: graph + payload,
        }),
{
    let e = commit_prefix + field(payload);
    let d = commit + field(e);
    let c = change_prefix + field(d);
    let b = change + field(c);
    let a = graph + field(b);
    assert(cut(payload, SEP, 0) == Some(seq![payload]));
    lemma_cut_step(commit_prefix, payload, 0);
    lemma_cut_step(commit, e, 1);
    lemma_cut_step(change_prefix, d, 2);
    lemma_cut_step(change, c, 3);
    lemma_cut_step(graph, b, 4);
    let parts = cut(a, SEP, 5)->0;
    assert(parts =~= seq![graph, change, change_prefix, commit, commit_prefix, payload]);
}

proof fn lemma_cut_some(s: Seq<u8>, n: nat)
    ensures
        cut(s, SEP, n) is Some == (split(s, equal_to(SEP)).len() > n),
    decreases n,
{
    let k = lead(s, not(equal_to(SEP))) as int;
    if n == 0 {
        lemma_split_some(s, equal_to(SEP));
    } else if k < s.len() {
        lemma_cut_some(s.skip(k + 1), (n - 1) as nat);
    }
}

/// A line with fewer than five separators is a connector, shown as it is.
pub proof fn law_pure_graph_is_connector(line: Seq<u8>)
    requires
        split(line, equal_to(SEP)).len() <= 5,
    ensures
        row_of(line).connector(),
        row_of(line).styled == line,
{
    lemma_cut_some(line, 5);
}

/// The log is read line by line: each line that is not empty is one row, in the
/// order of the lines.
pub proof fn law_log_is_read_line_by_line(line: Seq<u8>, rest: Seq<u8>)
    requires
        !line.contains(0x0a),
    ensures
        line.len() > 0 ==> log_rows(line + (seq![0x0au8] + rest)) == seq![row_of(line)] + log_rows(
            rest,
        ),
        line.len() == 0 ==> log_rows(line + (seq![0x0au8] + rest)) == log_rows(rest),
        line.len() > 0 ==> log_rows(line) == seq![row_of(line)],
        log_rows(seq![]).len() == 0,
{
    let p = equal_to(NEWLINE);
    let f = |l: Seq<u8>| row_of(l);
    assert forall|i: int| 0 <= i < line.len() implies !p(#[trigger] line[i]) by {
        assert(line.contains(line[i]));
    }
    lemma_split_step(line, NEWLINE, rest, p);
    lemma_split_none(line, p);
    lemma_split_none(Seq::<u8>::empty(), p);
    let more = split(rest, p);
    Seq::filter_distributes_over_add(seq![line], more, filled());
    let one = seq![line].filter(filled());
    assert(one == (if line.len() > 0 { seq![line] } else { seq![] })) by {
        reveal(Seq::filter);
        assert(seq![line].drop_last() =~= seq![]);
        assert(seq![line].drop_last().filter(filled()) =~= seq![]);
    }
    assert(seq![Seq::<u8>::empty()].filter(filled()) =~= seq![]) by {
        reveal(Seq::filter);
        assert(seq![Seq::<u8>::empty()].drop_last() =~= seq![]);
        assert(seq![Seq::<u8>::empty()].drop_last().filter(filled()) =~= seq![]);
    }
    let tail = more.filter(filled());
    if line.len() > 0 {
        assert((one + tail).map_values(f) =~= seq![row_of(line)] + tail.map_values(f));
        assert(log_rows(line) =~= seq![row_of(line)]);
    } else {
        assert(one + tail =~= tail);
    }
}

/// Text without escape sequences is decoded as it is.
pub proof fn law_plain_text_is_decoded(bytes: Seq<u8>)
    requires
        valid_utf8(bytes),
        forall|k: int|
            0 <= k < bytes.len() - 1 ==> !(#[trigger] bytes[k] == 0x1b && bytes[k + 1] == 0x5b),
    ensures
        plain_text(bytes) == decode_utf8(bytes),
        encode_utf8(plain_text(bytes)) == bytes,
{
    law_strip_plain(bytes);
    decode_utf8_encode_utf8(bytes);
}

/// A row is a connector exactly where it has no change id.
pub proof fn law_connectors_have_no_id(row: RowData)
    ensures
        row.connector() <==> row.change_id_short =~= Seq::<char>::empty(),
{
}

} // verus!
