//! The command that a pick amounts to: as arguments for jj, and as a line for
//! a shell.

use crate::target::{RevsetTarget, Target};
use crate::text::{equal_to, join, join_strings, law_split_undoes_join, split, strs, to_chars};
use vstd::prelude::*;

verus! {

// ---------------------------------------------------------------------------
// Quoting

/// The characters that no shell gives a meaning to inside a word.
pub open spec fn safe(c: char) -> bool {
    ||| 'a' <= c <= 'z'
    ||| 'A' <= c <= 'Z'
    ||| '0' <= c <= '9'
    ||| c == '_' || c == '-' || c == '.' || c == '/'
    ||| c == '=' || c == ':' || c == '@' || c == ','
}

/// Whether a word can stand on a command line as it is.
pub open spec fn plain(word: Seq<char>) -> bool {
    word.len() > 0 && forall|i: int| 0 <= i < word.len() ==> safe(#[trigger] word[i])
}

/// A character inside single quotes. A quote ends the quoted part, stands
/// escaped, and starts the next.
pub open spec fn quoted_char(c: char) -> Seq<char> {
    if c == '\'' {
        seq!['\'', '\\', '\'', '\'']
    } else {
        seq![c]
    }
}

/// Characters inside single quotes.
pub open spec fn quoted_chars(s: Seq<char>) -> Seq<char>
    decreases s.len(),
{
    if s.len() == 0 {
        seq![]
    } else {
        quoted_char(s[0]) + quoted_chars(s.skip(1))
    }
}

/// A word as it is written for a shell: as it is where that is plain, and in
/// single quotes otherwise.
pub open spec fn quote(s: Seq<char>) -> Seq<char> {
    if plain(s) {
        s
    } else {
        seq!['\''] + quoted_chars(s) + seq!['\'']
    }
}

fn is_safe(c: char) -> (r: bool)
    ensures
        r == safe(c),
{
    ('a' <= c && c <= 'z') || ('A' <= c && c <= 'Z') || ('0' <= c && c <= '9') || c == '_' || c
        == '-' || c == '.' || c == '/' || c == '=' || c == ':' || c == '@' || c == ','
}

/// Quotes a word for a shell.
pub fn shell_quote(s: &str) -> (out: String)
    ensures
        out@ == quote(s@),
{
    let chars = to_chars(s);
    let mut is_plain = chars.len() > 0;
    for i in 0..chars.len()
        invariant
            chars@ == s@,
            is_plain == (chars@.len() > 0 && forall|k: int|
                0 <= k < i ==> safe(#[trigger] s@[k])),
    {
        if !is_safe(chars[i]) {
            is_plain = false;
        }
    }
    if is_plain {
        return s.to_owned();
    }
    let mut out = String::new();
    out.push('\'');
    let mut i: usize = 0;
    assert(s@.skip(0) == s@);
    assert(out@ + quoted_chars(s@) =~= seq!['\''] + quoted_chars(s@));
    while i < chars.len()
        invariant
            i <= chars@.len(),
            chars@ == s@,
            out@ + quoted_chars(s@.skip(i as int)) == seq!['\''] + quoted_chars(s@),
        decreases chars.len() - i,
    {
        let c = chars[i];
        let ghost before = out@;
        let ghost rest = quoted_chars(s@.skip(i + 1));
        assert(s@.skip(i as int).skip(1) == s@.skip(i + 1));
        if c == '\'' {
            out.push('\'');
            out.push('\\');
            out.push('\'');
            out.push('\'');
        } else {
            out.push(c);
        }
        assert(out@ =~= before + quoted_char(c));
        assert(before + (quoted_char(c) + rest) =~= out@ + rest);
        i += 1;
    }
    assert(s@.skip(i as int) =~= seq![]);
    assert(out@ =~= seq!['\''] + quoted_chars(s@));
    out.push('\'');
    assert(out@ =~= seq!['\''] + quoted_chars(s@) + seq!['\'']);
    out
}

// ---------------------------------------------------------------------------
// Commands

/// The words by which picked revisions are passed: the leaf's flag and the
/// union of the ids; none where nothing is picked or the leaf has no flag.
pub open spec fn revset_words(target: Target, ids: Seq<Seq<char>>) -> Seq<Seq<char>> {
    if ids.len() > 0 && target.flag is Some {
        seq![target.flag->0.spelling(), join(ids, seq!['|'])]
    } else {
        seq![]
    }
}

/// The arguments of jj.
pub open spec fn exec_words(target: Target, ids: Seq<Seq<char>>) -> Seq<Seq<char>> {
    target.leaf + target.passthrough + revset_words(target, ids)
}

/// Words as they are written for a shell.
pub open spec fn quoted(words: Seq<Seq<char>>) -> Seq<Seq<char>> {
    words.map_values(|w: Seq<char>| quote(w))
}

/// The words of the command line. The path of the leaf is written as the user
/// typed it; the arguments and the revset are quoted.
pub open spec fn line_words(target: Target, ids: Seq<Seq<char>>) -> Seq<Seq<char>> {
    let revset = revset_words(target, ids);
    seq!["jj"@] + target.leaf + quoted(target.passthrough) + (if revset.len() > 0 {
        seq![revset[0], quote(revset[1])]
    } else {
        seq![]
    })
}

fn copy_into(out: &mut Vec<String>, words: &[String])
    ensures
        strs(final(out)@) == strs(old(out)@) + strs(words@),
{
    let ghost start = out@;
    assert(strs(start) + strs(words@).take(0) =~= strs(start));
    for i in 0..words.len()
        invariant
            strs(out@) == strs(start) + strs(words@).take(i as int),
    {
        let ghost before = out@;
        out.push(words[i].clone());
        assert(strs(out@) =~= strs(before).push(words@[i as int]@));
        assert(strs(words@).take(i + 1) =~= strs(words@).take(i as int).push(words@[i as int]@));
    }
    assert(strs(words@).take(words@.len() as int) =~= strs(words@));
}

/// The arguments with which jj is run: the leaf, the user's arguments, and the
/// picked revisions.
pub fn exec_args(target: &RevsetTarget, ids: &[String]) -> (args: Vec<String>)
    ensures
        strs(args@) == exec_words(target@, strs(ids@)),
{
    let mut args: Vec<String> = Vec::new();
    assert(strs(args@) =~= seq![]);
    copy_into(&mut args, target.leaf.as_slice());
    copy_into(&mut args, target.passthrough.as_slice());
    assert(strs(args@) =~= target@.leaf + target@.passthrough);
    if ids.len() > 0 {
        if let Some(flag) = target.flag {
            args.push(flag.as_str().to_owned());
            args.push(join_strings(ids, '|'));
        }
    }
    assert(strs(args@) =~= exec_words(target@, strs(ids@)));
    args
}

/// The command line that runs the same: for the preview, the shell history
/// and `--emit`.
pub fn command_line(target: &RevsetTarget, ids: &[String]) -> (line: String)
    ensures
        line@ == join(line_words(target@, strs(ids@)), seq![' ']),
{
    let mut parts: Vec<String> = Vec::new();
    parts.push("jj".to_owned());
    assert(strs(parts@) =~= seq!["jj"@]);
    copy_into(&mut parts, target.leaf.as_slice());
    let ghost start = strs(parts@);
    let ghost args = strs(target.passthrough@);
    assert(start + quoted(args.take(0)) =~= start);
    for i in 0..target.passthrough.len()
        invariant
            args == strs(target.passthrough@),
            strs(parts@) == start + quoted(args.take(i as int)),
    {
        let ghost before = parts@;
        let word = shell_quote(target.passthrough[i].as_str());
        parts.push(word);
        assert(strs(parts@) =~= strs(before).push(word@));
        assert(quoted(args.take(i + 1)) =~= quoted(args.take(i as int)).push(word@));
    }
    assert(args.take(args.len() as int) =~= args);
    if ids.len() > 0 {
        if let Some(flag) = target.flag {
            parts.push(flag.as_str().to_owned());
            parts.push(shell_quote(join_strings(ids, '|').as_str()));
        }
    }
    assert(strs(parts@) =~= line_words(target@, strs(ids@)));
    join_strings(parts.as_slice(), ' ')
}

// ---------------------------------------------------------------------------
// Laws

/// Where a shell stands while it reads a line.
pub enum Reading {
    Between,
    Word,
    Quote,
}

/// The words that a shell reads from a line, for the part of its language that
/// quoting needs: blanks between words, single quotes, and the backslash.
/// Unquoted, a letter or a digit of ASCII and a few signs stand for themselves.
/// `None` where any other character stands unquoted, or a quote is not closed.
/// `word` is what has been read of the current word.
pub open spec fn read_words(
    line: Seq<char>,
    at: Reading,
    word: Seq<char>,
    words: Seq<Seq<char>>,
) -> Option<Seq<Seq<char>>>
    decreases line.len(),
{
    if line.len() == 0 {
        match at {
            Reading::Between => Some(words),
            Reading::Word => Some(words.push(word)),
            Reading::Quote => None,
        }
    } else {
        let c = line[0];
        let rest = line.skip(1);
        if at is Quote {
            if c == '\'' {
                read_words(rest, Reading::Word, word, words)
            } else {
                read_words(rest, Reading::Quote, word.push(c), words)
            }
        } else if c == ' ' {
            match at {
                Reading::Between => read_words(rest, Reading::Between, seq![], words),
                _ => read_words(rest, Reading::Between, seq![], words.push(word)),
            }
        } else if c == '\'' {
            read_words(rest, Reading::Quote, word, words)
        } else if c == '\\' {
            if rest.len() == 0 {
                None
            } else {
                read_words(line.skip(2), Reading::Word, word.push(line[1]), words)
            }
        } else if ('a' <= c <= 'z') || ('A' <= c <= 'Z') || ('0' <= c <= '9') || seq![
            '_', '-', '.', '/', '=', ':', '@', ',',
        ].contains(c) {
            read_words(rest, Reading::Word, word.push(c), words)
        } else {
            None
        }
    }
}

/// The words that a shell reads from a line.
pub open spec fn shell_words(line: Seq<char>) -> Option<Seq<Seq<char>>> {
    read_words(line, Reading::Between, seq![], seq![])
}

/// A safe character stands for itself.
proof fn lemma_safe(c: char)
    requires
        safe(c),
    ensures
        ('a' <= c <= 'z') || ('A' <= c <= 'Z') || ('0' <= c <= '9') || seq![
            '_', '-', '.', '/', '=', ':', '@', ',',
        ].contains(c),
        c != ' ',
        c != '\'',
        c != '\\',
{
    let signs = seq!['_', '-', '.', '/', '=', ':', '@', ','];
    assert(signs[0] == '_' && signs[1] == '-' && signs[2] == '.' && signs[3] == '/');
    assert(signs[4] == '=' && signs[5] == ':' && signs[6] == '@' && signs[7] == ',');
}

proof fn lemma_read_plain(
    w: Seq<char>,
    rest: Seq<char>,
    word: Seq<char>,
    words: Seq<Seq<char>>,
)
    requires
        forall|i: int| 0 <= i < w.len() ==> safe(#[trigger] w[i]),
    ensures
        read_words(w + rest, Reading::Word, word, words) == read_words(
            rest,
            Reading::Word,
            word + w,
            words,
        ),
    decreases w.len(),
{
    if w.len() == 0 {
        assert(w + rest =~= rest);
        assert(word + w =~= word);
    } else {
        assert((w + rest).skip(1) =~= w.skip(1) + rest);
        assert forall|i: int| 0 <= i < w.skip(1).len() implies safe(#[trigger] w.skip(1)[i]) by {
            assert(w.skip(1)[i] == w[i + 1]);
        }
        lemma_safe(w[0]);
        lemma_read_plain(w.skip(1), rest, word.push(w[0]), words);
        assert(word.push(w[0]) + w.skip(1) =~= word + w);
    }
}

proof fn lemma_read_quoted(
    w: Seq<char>,
    rest: Seq<char>,
    word: Seq<char>,
    words: Seq<Seq<char>>,
)
    ensures
        read_words(quoted_chars(w) + (seq!['\''] + rest), Reading::Quote, word, words)
            == read_words(rest, Reading::Word, word + w, words),
    decreases w.len(),
{
    let tail = seq!['\''] + rest;
    if w.len() == 0 {
        assert(quoted_chars(w) + tail =~= tail);
        assert(tail.skip(1) =~= rest);
        assert(word + w =~= word);
    } else {
        let more = quoted_chars(w.skip(1)) + tail;
        let line = quoted_chars(w) + tail;
        lemma_read_quoted(w.skip(1), rest, word.push(w[0]), words);
        assert(word.push(w[0]) + w.skip(1) =~= word + w);
        if w[0] == '\'' {
            assert(line =~= seq!['\'', '\\', '\'', '\''] + more);
            let l1 = line.skip(1);
            assert(l1 =~= seq!['\\', '\'', '\''] + more);
            let l2 = l1.skip(2);
            assert(l2 =~= seq!['\''] + more);
            assert(l2.skip(1) =~= more);
            assert(read_words(line, Reading::Quote, word, words) == read_words(
                l1,
                Reading::Word,
                word,
                words,
            ));
            assert(read_words(l1, Reading::Word, word, words) == read_words(
                l2,
                Reading::Word,
                word.push('\''),
                words,
            ));
        } else {
            assert(line.skip(1) =~= more);
        }
    }
}

/// A quoted word is read back, up to where it ends.
proof fn lemma_read_word(w: Seq<char>, rest: Seq<char>, words: Seq<Seq<char>>)
    ensures
        read_words(quote(w) + rest, Reading::Between, seq![], words) == read_words(
            rest,
            Reading::Word,
            w,
            words,
        ),
{
    let line = quote(w) + rest;
    if plain(w) {
        lemma_safe(w[0]);
        assert(line.skip(1) =~= w.skip(1) + rest);
        assert forall|i: int| 0 <= i < w.skip(1).len() implies safe(#[trigger] w.skip(1)[i]) by {
            assert(w.skip(1)[i] == w[i + 1]);
        }
        lemma_read_plain(w.skip(1), rest, seq![w[0]], words);
        assert(seq![w[0]] + w.skip(1) =~= w);
        assert(Seq::<char>::empty().push(w[0]) =~= seq![w[0]]);
    } else {
        assert(line.skip(1) =~= quoted_chars(w) + (seq!['\''] + rest));
        lemma_read_quoted(w, rest, seq![], words);
        assert(Seq::<char>::empty() + w =~= w);
    }
}

/// Quoting undone by a shell: every word is read back as one word, unchanged.
pub proof fn law_quoting_is_undone(word: Seq<char>)
    ensures
        shell_words(quote(word)) == Some(seq![word]),
{
    lemma_read_word(word, seq![], seq![]);
    assert(quote(word) + Seq::<char>::empty() =~= quote(word));
    assert(Seq::<Seq<char>>::empty().push(word) =~= seq![word]);
}

/// A shell that reads a line does not get past an unquoted character that has
/// a meaning to shells.
pub proof fn law_special_characters_are_not_words(
    c: char,
    rest: Seq<char>,
    at: Reading,
    word: Seq<char>,
    words: Seq<Seq<char>>,
)
    requires
        at is Between || at is Word,
        c == '(' || c == ')' || c == '|' || c == '&' || c == ';' || c == '<' || c == '>' || c == '$'
            || c == '`' || c == '*' || c == '?' || c == '[' || c == ']' || c == '#' || c == '~' || c
            == '!' || c == '{' || c == '}' || c == '"' || c == '^' || c == '%' || c == '+' || c
            == '\n' || c == '\r' || c == '\t' || c as u32 >= 128,
    ensures
        read_words(seq![c] + rest, at, word, words) is None,
{
    let signs = seq!['_', '-', '.', '/', '=', ':', '@', ','];
    assert(forall|i: int| 0 <= i < signs.len() ==> #[trigger] signs[i] != c);
    assert((seq![c] + rest)[0] == c);
}

/// A word is written without quotes exactly where it is not empty and holds
/// only letters and digits of ASCII and the signs `_ - . / = : @ ,`.
pub proof fn law_only_plain_words_are_unquoted(word: Seq<char>)
    ensures
        quote(word) == word <==> word.len() > 0 && forall|i: int|
            #![trigger word[i]]
            0 <= i < word.len() ==> (('a' <= word[i] && word[i] <= 'z') || ('A' <= word[i]
                && word[i] <= 'Z') || ('0' <= word[i] && word[i] <= '9') || word[i] == '_'
                || word[i] == '-' || word[i] == '.' || word[i] == '/' || word[i] == '='
                || word[i] == ':' || word[i] == '@' || word[i] == ','),
        quote(word) != word ==> quote(word).len() >= word.len() + 2 && quote(word)[0] == '\''
            && quote(word).last() == '\'',
{
    if !plain(word) {
        lemma_quoted_len(word);
    }
}

/// Quoting drops no character.
proof fn lemma_quoted_len(s: Seq<char>)
    ensures
        quoted_chars(s).len() >= s.len(),
    decreases s.len(),
{
    if s.len() > 0 {
        lemma_quoted_len(s.skip(1));
    }
}

proof fn lemma_read_line(ws: Seq<Seq<char>>, rest: Seq<char>, words: Seq<Seq<char>>)
    requires
        ws.len() > 0,
    ensures
        read_words(join(quoted(ws), seq![' ']) + rest, Reading::Between, seq![], words)
            == read_words(rest, Reading::Word, ws.last(), words + ws.drop_last()),
    decreases ws.len(),
{
    let line = join(quoted(ws), seq![' ']);
    if ws.len() == 1 {
        assert(quoted(ws)[0] == quote(ws[0]));
        lemma_read_word(ws[0], rest, words);
        assert(words + ws.drop_last() =~= words);
    } else {
        let init = ws.drop_last();
        let last = quote(ws.last());
        assert(quoted(ws).drop_last() =~= quoted(init));
        assert(quoted(ws).last() == last);
        let tail = seq![' '] + (last + rest);
        assert(line + rest =~= join(quoted(init), seq![' ']) + tail);
        lemma_read_line(init, tail, words);
        assert(tail.skip(1) =~= last + rest);
        assert((words + init.drop_last()).push(init.last()) =~= words + init);
        lemma_read_word(ws.last(), rest, words + init);
    }
}

/// A line of quoted words is read back as these words.
pub proof fn law_line_is_read_back(ws: Seq<Seq<char>>)
    ensures
        shell_words(join(quoted(ws), seq![' '])) == Some(ws),
{
    let line = join(quoted(ws), seq![' ']);
    if ws.len() == 0 {
        assert(line =~= seq![]);
        assert(ws =~= seq![]);
    } else {
        lemma_read_line(ws, seq![], seq![]);
        assert(line + Seq::<char>::empty() =~= line);
        assert((Seq::<Seq<char>>::empty() + ws.drop_last()).push(ws.last()) =~= ws);
    }
}

/// The command line runs what is executed: a shell reads from it `jj` and the
/// arguments of `exec_args`, for a leaf whose path is made of plain words.
pub proof fn law_command_line_is_what_runs(target: Target, ids: Seq<Seq<char>>)
    requires
        forall|i: int| 0 <= i < target.leaf.len() ==> plain(#[trigger] target.leaf[i]),
    ensures
        shell_words(join(line_words(target, ids), seq![' '])) == Some(
            seq!["jj"@] + exec_words(target, ids),
        ),
{
    let words = seq!["jj"@] + exec_words(target, ids);
    let revset = revset_words(target, ids);
    reveal_strlit("jj");
    reveal_strlit("-r");
    reveal_strlit("--to");
    assert(plain("jj"@));
    assert(plain("-r"@));
    assert(plain("--to"@));
    assert(quoted(words) =~= line_words(target, ids)) by {
        let n = target.leaf.len() as int;
        let m = target.passthrough.len() as int;
        assert forall|i: int| 0 <= i < words.len() implies #[trigger] quoted(words)[i]
            == line_words(target, ids)[i] by {
            if 1 <= i < 1 + n {
                assert(words[i] == target.leaf[i - 1]);
            } else if 1 + n <= i < 1 + n + m {
                assert(words[i] == target.passthrough[i - 1 - n]);
            } else if i >= 1 + n + m {
                assert(words[i] == revset[i - 1 - n - m]);
            }
        }
    }
    law_line_is_read_back(words);
}

/// Nothing is added to the command where nothing was picked.
pub proof fn law_no_pick_adds_nothing(target: Target)
    ensures
        exec_words(target, seq![]) == target.leaf + target.passthrough,
{
    assert(exec_words(target, seq![]) =~= target.leaf + target.passthrough);
}

/// What is passed on of a pick: the words of the user, unchanged and in front,
/// and behind them `-r` or `--to` and one word, which is split at `|` into the
/// ids that were picked, each of them and in their order. A leaf that takes no
/// revset gets nothing.
pub proof fn law_picked_ids_are_passed(target: Target, ids: Seq<Seq<char>>)
    requires
        ids.len() > 0,
        forall|i: int| 0 <= i < ids.len() ==> !(#[trigger] ids[i]).contains('|'),
    ensures
        target.flag is None ==> exec_words(target, ids) == target.leaf + target.passthrough,
        target.flag is Some ==> {
            let words = exec_words(target, ids);
            let n = target.leaf.len() + target.passthrough.len();
            &&& words.len() == n + 2
            &&& words.take(n as int) == target.leaf + target.passthrough
            &&& words[n as int] == (if target.flag->0 is Revision {
                "-r"@
            } else {
                "--to"@
            })
            &&& split(words[(n + 1) as int], equal_to('|')) == ids
        },
{
    let words = exec_words(target, ids);
    let n = (target.leaf.len() + target.passthrough.len()) as int;
    if target.flag is Some {
        law_split_undoes_join(ids, '|');
        assert(words.take(n) =~= target.leaf + target.passthrough);
    } else {
        assert(words =~= target.leaf + target.passthrough);
    }
}

/// How the command line is laid out: `jj` and the path of the leaf, as they were
/// typed, and then what a shell reads as the further arguments.
pub proof fn law_leaf_is_written_as_typed(target: Target, ids: Seq<Seq<char>>)
    ensures
        ({
            let n = target.leaf.len() as int;
            &&& line_words(target, ids).len() == exec_words(target, ids).len() + 1
            &&& line_words(target, ids)[0] == seq!['j', 'j']
            &&& line_words(target, ids).subrange(1, 1 + n) == target.leaf
            &&& shell_words(join(line_words(target, ids).skip(1 + n), seq![' '])) == Some(
                exec_words(target, ids).skip(n),
            )
        }),
{
    let n = target.leaf.len() as int;
    let rest = exec_words(target, ids).skip(n);
    let revset = revset_words(target, ids);
    reveal_strlit("jj");
    reveal_strlit("-r");
    reveal_strlit("--to");
    assert("jj"@ =~= seq!['j', 'j']);
    assert(plain("-r"@));
    assert(plain("--to"@));
    assert(line_words(target, ids).subrange(1, 1 + n) =~= target.leaf);
    assert(rest =~= target.passthrough + revset);
    assert(quoted(rest) =~= line_words(target, ids).skip(1 + n)) by {
        let m = target.passthrough.len() as int;
        assert forall|i: int| 0 <= i < rest.len() implies #[trigger] quoted(rest)[i]
            == line_words(target, ids).skip(1 + n)[i] by {
            if i >= m {
                assert(rest[i] == revset[i - m]);
            }
        }
    }
    law_line_is_read_back(rest);
}

} // verus!
