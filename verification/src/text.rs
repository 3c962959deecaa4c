//! Sequence and text primitives: runs, splitting, joining, trimming and
//! searching, each a spec function beside the executable function that
//! computes it.
//!
//! Text is handled as `&[char]`; bytes of terminal output as `&[u8]`.

use vstd::prelude::*;
use vstd::slice::{slice_subrange, slice_to_vec};
use vstd::utf8::{encode_utf8, is_ascii_chars, is_ascii_chars_encode_utf8};

verus! {

/// The contents of a vector of vectors.
pub open spec fn seqs<T>(v: Seq<Vec<T>>) -> Seq<Seq<T>> {
    v.map_values(|x: Vec<T>| x@)
}

/// The contents of a vector of strings.
pub open spec fn strs(v: Seq<String>) -> Seq<Seq<char>> {
    v.map_values(|x: String| x@)
}

// ---------------------------------------------------------------------------
// Runs

/// Length of the longest prefix of `s` whose elements all satisfy `p`.
pub open spec fn lead<T>(s: Seq<T>, p: spec_fn(T) -> bool) -> nat
    decreases s.len(),
{
    if s.len() > 0 && p(s[0]) {
        1 + lead(s.skip(1), p)
    } else {
        0
    }
}

/// Length of the longest suffix of `s` whose elements all satisfy `p`.
pub open spec fn trail<T>(s: Seq<T>, p: spec_fn(T) -> bool) -> nat
    decreases s.len(),
{
    if s.len() > 0 && p(s.last()) {
        1 + trail(s.drop_last(), p)
    } else {
        0
    }
}

/// The run is the only length with its two defining properties.
pub proof fn lemma_lead<T>(s: Seq<T>, p: spec_fn(T) -> bool, n: int)
    requires
        0 <= n <= s.len(),
        forall|i: int| 0 <= i < n ==> p(#[trigger] s[i]),
        n == s.len() || !p(s[n]),
    ensures
        lead(s, p) == n,
    decreases s.len(),
{
    if n > 0 {
        let t = s.skip(1);
        assert forall|i: int| 0 <= i < n - 1 implies p(#[trigger] t[i]) by {
            assert(t[i] == s[i + 1]);
        }
        lemma_lead(t, p, n - 1);
    }
}

/// The run has its two defining properties.
pub proof fn lemma_lead_bounds<T>(s: Seq<T>, p: spec_fn(T) -> bool)
    ensures
        lead(s, p) <= s.len(),
        forall|i: int| 0 <= i < lead(s, p) ==> p(#[trigger] s[i]),
        lead(s, p) < s.len() ==> !p(s[lead(s, p) as int]),
    decreases s.len(),
{
    if s.len() > 0 && p(s[0]) {
        let t = s.skip(1);
        lemma_lead_bounds(t, p);
        assert forall|i: int| 0 <= i < lead(s, p) implies p(#[trigger] s[i]) by {
            if i > 0 {
                assert(s[i] == t[i - 1]);
            }
        }
    }
}

/// The trailing run is the only length with its two defining properties.
pub proof fn lemma_trail<T>(s: Seq<T>, p: spec_fn(T) -> bool, n: int)
    requires
        0 <= n <= s.len(),
        forall|i: int| s.len() - n <= i < s.len() ==> p(#[trigger] s[i]),
        n == s.len() || !p(s[s.len() - n - 1]),
    ensures
        trail(s, p) == n,
    decreases s.len(),
{
    if n > 0 {
        let t = s.drop_last();
        assert forall|i: int| t.len() - (n - 1) <= i < t.len() implies p(#[trigger] t[i]) by {
            assert(t[i] == s[i]);
        }
        lemma_trail(t, p, n - 1);
    }
}

/// The trailing run has its two defining properties.
pub proof fn lemma_trail_bounds<T>(s: Seq<T>, p: spec_fn(T) -> bool)
    ensures
        trail(s, p) <= s.len(),
        forall|i: int| s.len() - trail(s, p) <= i < s.len() ==> p(#[trigger] s[i]),
        trail(s, p) < s.len() ==> !p(s[s.len() - trail(s, p) - 1]),
    decreases s.len(),
{
    if s.len() > 0 && p(s.last()) {
        let t = s.drop_last();
        lemma_trail_bounds(t, p);
        assert forall|i: int| s.len() - trail(s, p) <= i < s.len() implies p(#[trigger] s[i]) by {
            if i < s.len() - 1 {
                assert(s[i] == t[i]);
            }
        }
    }
}

/// The elements that do not satisfy `p`.
pub open spec fn not<T>(p: spec_fn(T) -> bool) -> spec_fn(T) -> bool {
    |x: T| !p(x)
}

/// The elements equal to `k`.
pub open spec fn equal_to<T>(k: T) -> spec_fn(T) -> bool {
    |x: T| x == k
}

/// Filtering a prefix that is longer by one element.
pub proof fn lemma_filter_step<T>(s: Seq<T>, p: spec_fn(T) -> bool, i: int)
    requires
        0 <= i < s.len(),
    ensures
        s.take(i + 1).filter(p) == (if p(s[i]) {
            s.take(i).filter(p).push(s[i])
        } else {
            s.take(i).filter(p)
        }),
{
    reveal(Seq::filter);
    assert(s.take(i + 1).drop_last() =~= s.take(i));
    assert(s.take(i + 1).last() == s[i]);
}

// ---------------------------------------------------------------------------
// Splitting and joining

/// The pieces of `s` between the elements that satisfy `p`; always at least
/// one piece, possibly empty.
pub open spec fn split<T>(s: Seq<T>, p: spec_fn(T) -> bool) -> Seq<Seq<T>>
    decreases s.len(),
{
    let n = lead(s, not(p)) as int;
    if 0 <= n < s.len() {
        seq![s.take(n)] + split(s.skip(n + 1), p)
    } else {
        seq![s]
    }
}

/// The pieces with `sep` between every two of them.
pub open spec fn join<T>(parts: Seq<Seq<T>>, sep: Seq<T>) -> Seq<T>
    decreases parts.len(),
{
    if parts.len() == 0 {
        seq![]
    } else if parts.len() == 1 {
        parts[0]
    } else {
        join(parts.drop_last(), sep) + sep + parts.last()
    }
}

/// Splitting past the first separator.
pub proof fn lemma_split_step<T>(a: Seq<T>, x: T, b: Seq<T>, p: spec_fn(T) -> bool)
    requires
        forall|i: int| 0 <= i < a.len() ==> !p(#[trigger] a[i]),
        p(x),
    ensures
        split(a + (seq![x] + b), p) == seq![a] + split(b, p),
{
    let s = a + (seq![x] + b);
    assert forall|i: int| 0 <= i < a.len() implies not(p)(#[trigger] s[i]) by {
        assert(s[i] == a[i]);
    }
    lemma_lead(s, not(p), a.len() as int);
    assert(s.take(a.len() as int) == a);
    assert(s.skip(a.len() as int + 1) == b);
}

/// Splitting where there is no separator.
pub proof fn lemma_split_none<T>(a: Seq<T>, p: spec_fn(T) -> bool)
    requires
        forall|i: int| 0 <= i < a.len() ==> !p(#[trigger] a[i]),
    ensures
        split(a, p) == seq![a],
{
    lemma_lead(a, not(p), a.len() as int);
}

/// There is always a piece.
pub proof fn lemma_split_some<T>(a: Seq<T>, p: spec_fn(T) -> bool)
    ensures
        split(a, p).len() > 0,
    decreases a.len(),
{
}

/// Joining, from the front.
pub proof fn lemma_join_front<T>(parts: Seq<Seq<T>>, sep: Seq<T>)
    requires
        parts.len() > 1,
    ensures
        join(parts, sep) == parts[0] + (sep + join(parts.skip(1), sep)),
    decreases parts.len(),
{
    let init = parts.drop_last();
    let rest = parts.skip(1);
    if parts.len() == 2 {
        assert(join(init, sep) == parts[0]);
        assert(join(rest, sep) == parts[1]);
        assert(parts[0] + sep + parts[1] =~= parts[0] + (sep + parts[1]));
    } else {
        lemma_join_front(init, sep);
        assert(init.skip(1) =~= rest.drop_last());
        assert(rest.last() == parts.last());
        let mid = join(init.skip(1), sep);
        assert(parts[0] + (sep + mid) + sep + parts.last() =~= parts[0] + (sep + (mid + sep
            + parts.last())));
    }
}

/// Joining undoes splitting.
pub proof fn law_join_undoes_split<T>(s: Seq<T>, sep: T)
    ensures
        join(split(s, equal_to(sep)), seq![sep]) == s,
    decreases s.len(),
{
    let p = equal_to(sep);
    let n = lead(s, not(p)) as int;
    lemma_lead_bounds(s, not(p));
    if n < s.len() {
        let rest = s.skip(n + 1);
        let parts = split(s, p);
        law_join_undoes_split(rest, sep);
        lemma_split_some(rest, p);
        lemma_join_front(parts, seq![sep]);
        assert(parts.skip(1) =~= split(rest, p));
        assert(s[n] == sep);
        assert(s.take(n) + (seq![sep] + rest) =~= s);
    }
}

/// Splitting undoes joining, for pieces without the separator.
pub proof fn law_split_undoes_join<T>(parts: Seq<Seq<T>>, sep: T)
    requires
        parts.len() > 0,
        forall|i: int| 0 <= i < parts.len() ==> !(#[trigger] parts[i]).contains(sep),
    ensures
        split(join(parts, seq![sep]), equal_to(sep)) == parts,
    decreases parts.len(),
{
    let a = parts[0];
    assert(!parts[0].contains(sep));
    assert forall|k: int| 0 <= k < a.len() implies !equal_to(sep)(#[trigger] a[k]) by {
        assert(a.contains(a[k]));
    }
    if parts.len() == 1 {
        lemma_split_none(a, equal_to(sep));
        assert(parts =~= seq![a]);
    } else {
        let rest = parts.skip(1);
        lemma_join_front(parts, seq![sep]);
        lemma_split_step(a, sep, join(rest, seq![sep]), equal_to(sep));
        assert forall|i: int| 0 <= i < rest.len() implies !(#[trigger] rest[i]).contains(sep) by {
            assert(rest[i] == parts[i + 1]);
        }
        law_split_undoes_join(rest, sep);
        assert(seq![a] + rest =~= parts);
    }
}

/// Bytes split at every occurrence of `sep`.
pub fn split_bytes(bytes: &[u8], sep: u8) -> (out: Vec<Vec<u8>>)
    ensures
        seqs(out@) == split(bytes@, equal_to(sep)),
{
    let mut out: Vec<Vec<u8>> = Vec::new();
    let mut start: usize = 0;
    let mut i: usize = 0;
    assert(bytes@.skip(0) == bytes@);
    while i < bytes.len()
        invariant
            start <= i <= bytes.len(),
            forall|k: int| start <= k < i ==> bytes@[k] != sep,
            seqs(out@) + split(bytes@.skip(start as int), equal_to(sep)) == split(bytes@, equal_to(sep)),
        decreases bytes.len() - i,
    {
        if bytes[i] == sep {
            let ghost rest = bytes@.skip(start as int);
            proof {
                lemma_lead(rest, not(equal_to(sep)), i - start);
                assert(rest.take(i - start) == bytes@.subrange(start as int, i as int));
                assert(rest.skip(i - start + 1) == bytes@.skip(i + 1));
            }
            let ghost before = out@;
            out.push(slice_to_vec(slice_subrange(bytes, start, i)));
            assert(seqs(out@) == seqs(before).push(bytes@.subrange(start as int, i as int)));
            start = i + 1;
        }
        i += 1;
    }
    let ghost rest = bytes@.skip(start as int);
    proof {
        lemma_lead(rest, not(equal_to(sep)), rest.len() as int);
        assert(rest == bytes@.subrange(start as int, bytes@.len() as int));
    }
    let ghost before = out@;
    out.push(slice_to_vec(slice_subrange(bytes, start, bytes.len())));
    assert(seqs(out@) == seqs(before).push(rest));
    out
}

/// The pieces before the first `n` occurrences of `sep`, and then all that is
/// left; `None` where it does not occur so often.
pub open spec fn cut<T>(s: Seq<T>, sep: T, n: nat) -> Option<Seq<Seq<T>>>
    decreases n,
{
    let k = lead(s, not(equal_to(sep))) as int;
    if n == 0 {
        Some(seq![s])
    } else if k < s.len() {
        match cut(s.skip(k + 1), sep, (n - 1) as nat) {
            Some(rest) => Some(seq![s.take(k)] + rest),
            None => None,
        }
    } else {
        None
    }
}

/// The pieces of `bytes` before the first `n` occurrences of `sep`, and then
/// all that is left.
pub fn cut_bytes(bytes: &[u8], sep: u8, n: usize) -> (r: Option<Vec<Vec<u8>>>)
    ensures
        cut(bytes@, sep, n as nat) == (match r {
            Some(parts) => Some(seqs(parts@)),
            None => None,
        }),
        r matches Some(parts) ==> parts@.len() == n + 1,
{
    let mut parts: Vec<Vec<u8>> = Vec::new();
    let mut start: usize = 0;
    let mut left: usize = n;
    proof {
        assert(bytes@.skip(0) == bytes@);
        if let Some(rest) = cut(bytes@, sep, n as nat) {
            assert(seqs(parts@) + rest =~= rest);
        }
    }
    while left > 0
        invariant
            start <= bytes@.len(),
            left <= n,
            parts@.len() == n - left,
            cut(bytes@, sep, n as nat) == (match cut(bytes@.skip(start as int), sep, left as nat) {
                Some(rest) => Some(seqs(parts@) + rest),
                None => None,
            }),
        decreases left,
    {
        let ghost rest = bytes@.skip(start as int);
        let mut i: usize = start;
        while i < bytes.len() && bytes[i] != sep
            invariant
                start <= i <= bytes@.len(),
                rest == bytes@.skip(start as int),
                forall|k: int| 0 <= k < i - start ==> not(equal_to(sep))(#[trigger] rest[k]),
            decreases bytes.len() - i,
        {
            assert(rest[i - start] == bytes@[i as int]);
            i += 1;
        }
        proof {
            if i < bytes@.len() {
                assert(rest[i - start] == bytes@[i as int]);
            }
            lemma_lead(rest, not(equal_to(sep)), i - start);
        }
        if i == bytes.len() {
            return None;
        }
        let ghost before = parts@;
        parts.push(slice_to_vec(slice_subrange(bytes, start, i)));
        proof {
            assert(rest.take(i - start) == bytes@.subrange(start as int, i as int));
            assert(rest.skip(i - start + 1) == bytes@.skip(i + 1));
            assert(seqs(parts@) =~= seqs(before).push(bytes@.subrange(start as int, i as int)));
            if let Some(more) = cut(bytes@.skip(i + 1), sep, (left - 1) as nat) {
                assert(seqs(before) + (seq![rest.take(i - start)] + more) =~= seqs(parts@) + more);
            }
        }
        start = i + 1;
        left -= 1;
    }
    let ghost before = parts@;
    parts.push(slice_to_vec(slice_subrange(bytes, start, bytes.len())));
    proof {
        assert(bytes@.subrange(start as int, bytes@.len() as int) =~= bytes@.skip(start as int));
        assert(seqs(parts@) =~= seqs(before) + seq![bytes@.skip(start as int)]);
    }
    Some(parts)
}

/// What separates the items of a list: commas, and whitespace too when
/// `spaces` is set.
pub open spec fn list_separator(spaces: bool) -> spec_fn(char) -> bool {
    |c: char| c == ',' || (spaces && whitespace(c))
}

/// Text split at every separator of a list.
pub fn split_list(text: &[char], spaces: bool) -> (out: Vec<Vec<char>>)
    ensures
        seqs(out@) == split(text@, list_separator(spaces)),
{
    let ghost p = list_separator(spaces);
    let mut out: Vec<Vec<char>> = Vec::new();
    let mut start: usize = 0;
    let mut i: usize = 0;
    assert(text@.skip(0) == text@);
    while i < text.len()
        invariant
            p == list_separator(spaces),
            start <= i <= text.len(),
            forall|k: int| start <= k < i ==> !p(#[trigger] text@[k]),
            seqs(out@) + split(text@.skip(start as int), p) == split(text@, p),
        decreases text.len() - i,
    {
        let c = text[i];
        if c == ',' || (spaces && is_whitespace(c)) {
            let ghost rest = text@.skip(start as int);
            proof {
                lemma_lead(rest, not(p), i - start);
                assert(rest.take(i - start) == text@.subrange(start as int, i as int));
                assert(rest.skip(i - start + 1) == text@.skip(i + 1));
            }
            let ghost before = out@;
            out.push(slice_to_vec(slice_subrange(text, start, i)));
            assert(seqs(out@) == seqs(before).push(text@.subrange(start as int, i as int)));
            start = i + 1;
        }
        i += 1;
    }
    let ghost rest = text@.skip(start as int);
    proof {
        lemma_lead(rest, not(p), rest.len() as int);
        assert(rest == text@.subrange(start as int, text@.len() as int));
    }
    let ghost before = out@;
    out.push(slice_to_vec(slice_subrange(text, start, text.len())));
    assert(seqs(out@) == seqs(before).push(rest));
    out
}

/// A line without the carriage return of a `\r\n` ending.
pub open spec fn chomp(line: Seq<char>) -> Seq<char> {
    if line.len() > 0 && line.last() == '\r' {
        line.drop_last()
    } else {
        line
    }
}

/// The lines of a text. Both `\n` and `\r\n` end a line; the last line need
/// not be ended, and an ending at the very end starts no further line.
pub open spec fn lines(text: Seq<char>) -> Seq<Seq<char>>
    decreases text.len(),
{
    let n = lead(text, not(equal_to('\n'))) as int;
    if text.len() == 0 {
        seq![]
    } else if 0 <= n < text.len() {
        seq![chomp(text.take(n))] + lines(text.skip(n + 1))
    } else {
        seq![text]
    }
}

/// The lines of a text.
pub fn split_text_lines(text: &[char]) -> (out: Vec<Vec<char>>)
    ensures
        seqs(out@) == lines(text@),
{
    let mut out: Vec<Vec<char>> = Vec::new();
    let mut start: usize = 0;
    let mut i: usize = 0;
    assert(text@.skip(0) == text@);
    while i < text.len()
        invariant
            start <= i <= text.len(),
            forall|k: int| start <= k < i ==> text@[k] != '\n',
            seqs(out@) + lines(text@.skip(start as int)) == lines(text@),
        decreases text.len() - i,
    {
        if text[i] == '\n' {
            let ghost rest = text@.skip(start as int);
            let ghost raw = text@.subrange(start as int, i as int);
            proof {
                lemma_lead(rest, not(equal_to('\n')), i - start);
                assert(rest.take(i - start) == raw);
                assert(rest.skip(i - start + 1) == text@.skip(i + 1));
            }
            let end = if i > start && text[i - 1] == '\r' {
                i - 1
            } else {
                i
            };
            let ghost before = out@;
            assert(text@.subrange(start as int, end as int) == chomp(raw));
            out.push(slice_to_vec(slice_subrange(text, start, end)));
            assert(seqs(out@) == seqs(before).push(chomp(raw)));
            start = i + 1;
        }
        i += 1;
    }
    let ghost rest = text@.skip(start as int);
    if start < text.len() {
        proof {
            lemma_lead(rest, not(equal_to('\n')), rest.len() as int);
            assert(rest == text@.subrange(start as int, text@.len() as int));
        }
        let ghost before = out@;
        out.push(slice_to_vec(slice_subrange(text, start, text.len())));
        assert(seqs(out@) == seqs(before).push(rest));
    }
    out
}

/// Byte strings joined with one byte between every two of them.
pub fn join_bytes(parts: &[Vec<u8>], sep: u8) -> (out: Vec<u8>)
    ensures
        out@ == join(seqs(parts@), seq![sep]),
{
    let mut out: Vec<u8> = Vec::new();
    for i in 0..parts.len()
        invariant
            out@ == join(seqs(parts@).take(i as int), seq![sep]),
    {
        if i > 0 {
            out.push(sep);
        }
        out.extend_from_slice(parts[i].as_slice());
        assert(seqs(parts@).take(i + 1).drop_last() == seqs(parts@).take(i as int));
        assert(out@ == join(seqs(parts@).take(i + 1), seq![sep]));
    }
    assert(seqs(parts@).take(parts@.len() as int) == seqs(parts@));
    out
}

/// Strings joined with one character between every two of them.
pub fn join_strings(parts: &[String], sep: char) -> (out: String)
    ensures
        out@ == join(strs(parts@), seq![sep]),
{
    let mut out = String::new();
    for i in 0..parts.len()
        invariant
            out@ == join(strs(parts@).take(i as int), seq![sep]),
    {
        if i > 0 {
            out.push(sep);
        }
        out.append(parts[i].as_str());
        assert(strs(parts@).take(i + 1).drop_last() == strs(parts@).take(i as int));
        assert(out@ == join(strs(parts@).take(i + 1), seq![sep]));
    }
    assert(strs(parts@).take(parts@.len() as int) == strs(parts@));
    out
}

// ---------------------------------------------------------------------------
// Characters and strings

/// The characters with the Unicode property White_Space.
pub open spec fn whitespace(c: char) -> bool {
    ||| '\u{9}' <= c <= '\u{d}'
    ||| c == ' '
    ||| c == '\u{85}'
    ||| c == '\u{a0}'
    ||| c == '\u{1680}'
    ||| '\u{2000}' <= c <= '\u{200a}'
    ||| c == '\u{2028}'
    ||| c == '\u{2029}'
    ||| c == '\u{202f}'
    ||| c == '\u{205f}'
    ||| c == '\u{3000}'
}

/// Whether `c` is whitespace.
pub fn is_whitespace(c: char) -> (r: bool)
    ensures
        r == whitespace(c),
{
    ('\u{9}' <= c && c <= '\u{d}') || c == ' ' || c == '\u{85}' || c == '\u{a0}' || c
        == '\u{1680}' || ('\u{2000}' <= c && c <= '\u{200a}') || c == '\u{2028}' || c == '\u{2029}'
        || c == '\u{202f}' || c == '\u{205f}' || c == '\u{3000}'
}

/// `String::push` appends one character.
pub assume_specification[ String::push ](s: &mut String, c: char)
    ensures
        final(s)@ == old(s)@.push(c),
;

/// `String::pop` takes off the last character and returns it; an empty string
/// stays empty, and nothing is returned.
pub assume_specification[ String::pop ](s: &mut String) -> (r: Option<char>)
    ensures
        final(s)@ == (if old(s)@.len() == 0 {
            old(s)@
        } else {
            old(s)@.drop_last()
        }),
        r == (if old(s)@.len() == 0 {
            None
        } else {
            Some(old(s)@.last())
        }),
;

/// The characters of a string.
pub fn to_chars(s: &str) -> (out: Vec<char>)
    ensures
        out@ == s@,
{
    let mut out: Vec<char> = Vec::new();
    for c in it: s.chars()
        invariant
            out@ == s@.take(it.index() as int),
            it.seq() == s@,
    {
        out.push(c);
    }
    assert(s@.take(s@.len() as int) == s@);
    out
}

/// The string of some characters.
pub fn from_chars(chars: &[char]) -> (out: String)
    ensures
        out@ == chars@,
{
    let mut out = String::new();
    for i in 0..chars.len()
        invariant
            out@ == chars@.take(i as int),
    {
        out.push(chars[i]);
        assert(chars@.take(i + 1) == chars@.take(i as int).push(chars@[i as int]));
    }
    assert(chars@.take(chars@.len() as int) == chars@);
    out
}

/// Whether `text` begins with `pat`.
pub fn starts_with(text: &[char], pat: &str) -> (r: bool)
    ensures
        r == pat@.is_prefix_of(text@),
{
    let want = to_chars(pat);
    if want.len() > text.len() {
        return false;
    }
    for i in 0..want.len()
        invariant
            want@ == pat@,
            want.len() <= text.len(),
            forall|k: int| 0 <= k < i ==> want@[k] == text@[k],
    {
        if want[i] != text[i] {
            assert(text@.subrange(0, pat@.len() as int)[i as int] == text@[i as int]);
            return false;
        }
    }
    assert(pat@ =~= text@.subrange(0, pat@.len() as int));
    true
}

/// Whether `text` ends with `pat`.
pub fn ends_with(text: &[char], pat: &str) -> (r: bool)
    ensures
        r == pat@.is_suffix_of(text@),
{
    let want = to_chars(pat);
    if want.len() > text.len() {
        return false;
    }
    let off = text.len() - want.len();
    for i in 0..want.len()
        invariant
            want@ == pat@,
            off == text.len() - want.len(),
            want.len() <= text.len(),
            forall|k: int| 0 <= k < i ==> want@[k] == text@[off + k],
    {
        if want[i] != text[off + i] {
            assert(text@.subrange(text@.len() - pat@.len(), text@.len() as int)[i as int] == text@[off + i]);
            return false;
        }
    }
    assert(pat@ =~= text@.subrange(text@.len() - pat@.len(), text@.len() as int));
    true
}

/// Whether `text` is `pat`.
pub fn equals(text: &[char], pat: &str) -> (r: bool)
    ensures
        r == (text@ == pat@),
{
    let same_len = text.len() == pat.unicode_len();
    assert(same_len ==> text@.subrange(0, pat@.len() as int) == text@);
    same_len && starts_with(text, pat)
}

// ---------------------------------------------------------------------------
// Trimming

pub open spec fn blanks() -> spec_fn(char) -> bool {
    |c: char| whitespace(c)
}

/// The text without its leading whitespace.
pub open spec fn trim_front(s: Seq<char>) -> Seq<char> {
    s.skip(lead(s, blanks()) as int)
}

/// The text without its trailing whitespace.
pub open spec fn trim_back(s: Seq<char>) -> Seq<char> {
    s.take(s.len() - trail(s, blanks()))
}

/// The text without whitespace at either end.
pub open spec fn trim(s: Seq<char>) -> Seq<char> {
    trim_back(trim_front(s))
}

/// How many characters of whitespace lead `text`.
pub fn leading_blanks(text: &[char]) -> (n: usize)
    ensures
        n == lead(text@, blanks()),
        n <= text@.len(),
{
    let mut n: usize = 0;
    while n < text.len() && is_whitespace(text[n])
        invariant
            n <= text@.len(),
            forall|k: int| 0 <= k < n ==> blanks()(#[trigger] text@[k]),
        decreases text.len() - n,
    {
        n += 1;
    }
    proof {
        lemma_lead(text@, blanks(), n as int);
    }
    n
}

/// The text without its leading whitespace.
pub fn trim_start(text: &[char]) -> (out: &[char])
    ensures
        out@ == trim_front(text@),
{
    let n = leading_blanks(text);
    slice_subrange(text, n, text.len())
}

/// The text without whitespace at either end.
pub fn trim_both(text: &[char]) -> (out: &[char])
    ensures
        out@ == trim(text@),
{
    let front = trim_start(text);
    let mut n: usize = front.len();
    while n > 0 && is_whitespace(front[n - 1])
        invariant
            n <= front@.len(),
            forall|k: int| n <= k < front@.len() ==> blanks()(#[trigger] front@[k]),
        decreases n,
    {
        n -= 1;
    }
    proof {
        lemma_trail(front@, blanks(), front@.len() - n);
    }
    slice_subrange(front, 0, n)
}

/// How many bytes of whitespace lead a line.
pub open spec fn indent(line: Seq<char>) -> nat {
    encode_utf8(line.take(lead(line, blanks()) as int)).len()
}

/// How many bytes of whitespace lead a line.
pub fn indent_of(line: &[char]) -> (n: usize)
    ensures
        n == indent(line@),
{
    let n = leading_blanks(line);
    let margin = from_chars(slice_subrange(line, 0, n));
    margin.as_str().as_bytes().len()
}

/// The first word of a text that starts with one: everything up to the first
/// whitespace.
pub open spec fn first_word(s: Seq<char>) -> Seq<char> {
    s.take(lead(s, not(blanks())) as int)
}

/// Everything up to the first whitespace.
pub fn head_word(text: &[char]) -> (out: &[char])
    ensures
        out@ == first_word(text@),
{
    let mut n: usize = 0;
    while n < text.len() && !is_whitespace(text[n])
        invariant
            n <= text@.len(),
            forall|k: int| 0 <= k < n ==> not(blanks())(#[trigger] text@[k]),
        decreases text.len() - n,
    {
        n += 1;
    }
    proof {
        lemma_lead(text@, not(blanks()), n as int);
    }
    slice_subrange(text, 0, n)
}

// ---------------------------------------------------------------------------
// Searching

/// Where `pat` first occurs in `text`.
pub open spec fn find(text: Seq<char>, pat: Seq<char>) -> Option<nat>
    decreases text.len(),
{
    if pat.is_prefix_of(text) {
        Some(0)
    } else if text.len() == 0 {
        None
    } else {
        match find(text.skip(1), pat) {
            Some(n) => Some(n + 1),
            None => None,
        }
    }
}

/// Everything before the first `c`, or all of the text where there is none.
pub open spec fn before(s: Seq<char>, c: char) -> Seq<char> {
    s.take(lead(s, not(equal_to(c))) as int)
}

/// Where `pat` first occurs in `text`.
pub fn find_text(text: &[char], pat: &str) -> (r: Option<usize>)
    ensures
        find(text@, pat@) == (match r {
            Some(n) => Some(n as nat),
            None => None,
        }),
        r matches Some(n) ==> n + pat@.len() <= text@.len(),
{
    let mut i: usize = 0;
    assert(text@.skip(0) == text@);
    while i < text.len()
        invariant
            i <= text@.len(),
            find(text@, pat@) == (match find(text@.skip(i as int), pat@) {
                Some(n) => Some((n + i) as nat),
                None => None,
            }),
        decreases text.len() - i,
    {
        if starts_with(slice_subrange(text, i, text.len()), pat) {
            assert(text@.subrange(i as int, text@.len() as int) == text@.skip(i as int));
            return Some(i);
        }
        assert(text@.subrange(i as int, text@.len() as int) == text@.skip(i as int));
        assert(text@.skip(i as int).skip(1) == text@.skip(i + 1));
        i += 1;
    }
    let ghost none = text@.skip(text@.len() as int);
    if pat.unicode_len() == 0 {
        assert(pat@.is_prefix_of(none)) by {
            assert(pat@ =~= none.subrange(0, 0));
        }
        Some(i)
    } else {
        None
    }
}

/// How many characters come before the first `c`; all of them where there is
/// none.
pub fn index_of(text: &[char], c: char) -> (n: usize)
    ensures
        n == lead(text@, not(equal_to(c))),
        n <= text@.len(),
        n < text@.len() ==> text@[n as int] == c,
{
    let mut n: usize = 0;
    while n < text.len() && text[n] != c
        invariant
            n <= text@.len(),
            forall|k: int| 0 <= k < n ==> not(equal_to(c))(#[trigger] text@[k]),
        decreases text.len() - n,
    {
        n += 1;
    }
    proof {
        lemma_lead(text@, not(equal_to(c)), n as int);
    }
    n
}

/// Everything before the first `c`, or all of the text where there is none.
pub fn cut_before(text: &[char], c: char) -> (out: &[char])
    ensures
        out@ == before(text@, c),
{
    let n = index_of(text, c);
    slice_subrange(text, 0, n)
}

// ---------------------------------------------------------------------------
// Laws

/// Whitespace is what Unicode lists as White_Space, by code point.
pub proof fn law_whitespace_is_unicodes(c: char)
    ensures
        whitespace(c) <==> {
            let n = c as u32;
            (9 <= n && n <= 13) || n == 32 || n == 133 || n == 160 || n == 5760 || (8192 <= n && n
                <= 8202) || n == 8232 || n == 8233 || n == 8239 || n == 8287 || n == 12288
        },
{
}

/// Lists are split at commas, and where spaces count too at any whitespace.
pub proof fn law_lists_are_split_at_separators(c: char)
    ensures
        list_separator(false)(c) <==> c == ',',
        list_separator(true)(c) <==> c == ',' || whitespace(c),
{
}

/// Lines are read one by one: a line ends at the first `\n`, without a `\r`
/// before that, and what follows is read in the same way. The last line need
/// not be ended.
pub proof fn law_lines_are_read_in_turn(line: Seq<char>, rest: Seq<char>)
    requires
        !line.contains('\n'),
        line.len() > 0 ==> line.last() != '\r',
    ensures
        lines(line + seq!['\n'] + rest) == seq![line] + lines(rest),
        lines(line + seq!['\r', '\n'] + rest) == seq![line] + lines(rest),
        line.len() > 0 ==> lines(line) == seq![line],
        lines(seq![]) == Seq::<Seq<char>>::empty(),
{
    let n = line.len() as int;
    let p = not(equal_to('\n'));
    let s = line + seq!['\n'] + rest;
    let t = line + seq!['\r', '\n'] + rest;
    assert forall|i: int| 0 <= i < n implies p(#[trigger] line[i]) by {
        assert(line.contains(line[i]));
    }
    assert forall|i: int| 0 <= i < n implies p(#[trigger] s[i]) by {
        assert(s[i] == line[i]);
    }
    assert forall|i: int| 0 <= i < n + 1 implies p(#[trigger] t[i]) by {
        if i < n {
            assert(t[i] == line[i]);
        }
    }
    lemma_lead(line, p, n);
    lemma_lead(s, p, n);
    lemma_lead(t, p, n + 1);
    assert(s.take(n) =~= line);
    assert(s.skip(n + 1) =~= rest);
    assert(t.take(n + 1) =~= line.push('\r'));
    assert(line.push('\r').drop_last() =~= line);
    assert(t.skip(n + 2) =~= rest);
}

/// Trimming takes off whitespace and nothing else, and as much of it as there
/// is at the end that it is for.
pub proof fn law_trimming_takes_off_whitespace(s: Seq<char>)
    ensures
        trim_front(s).len() > 0 ==> !whitespace(trim_front(s)[0]),
        exists|n: int|
            #![trigger s.skip(n)]
            0 <= n <= s.len() && trim_front(s) == s.skip(n) && forall|i: int|
                #![trigger s[i]]
                0 <= i < n ==> whitespace(s[i]),
        trim(s).len() > 0 ==> !whitespace(trim(s)[0]) && !whitespace(trim(s).last()),
        exists|a: int, b: int|
            #![trigger s.subrange(a, b)]
            0 <= a <= b <= s.len() && trim(s) == s.subrange(a, b) && (forall|i: int|
                #![trigger s[i]]
                0 <= i < a || b <= i < s.len() ==> whitespace(s[i])),
{
    let n = lead(s, blanks()) as int;
    lemma_lead_bounds(s, blanks());
    let f = trim_front(s);
    assert(f == s.skip(n));
    assert forall|i: int| 0 <= i < n implies whitespace(#[trigger] s[i]) by {
        assert(blanks()(s[i]));
    }
    if n < s.len() {
        assert(!blanks()(s[n]));
    }
    lemma_trail_bounds(f, blanks());
    let b = n + f.len() - trail(f, blanks());
    assert(trim(s) =~= s.subrange(n, b));
    assert forall|i: int| 0 <= i < n || b <= i < s.len() implies whitespace(#[trigger] s[i]) by {
        if b <= i {
            assert(f[i - n] == s[i]);
            assert(blanks()(f[i - n]));
        }
    }
    if trim(s).len() > 0 {
        assert(!blanks()(f[b - n - 1]));
        assert(trim(s)[0] == f[0]);
        assert(trim(s).last() == f[b - n - 1]);
    }
}

/// The indentation of a line that is indented by spaces is how many there are.
pub proof fn law_indent_counts_spaces(n: nat, rest: Seq<char>)
    requires
        rest.len() > 0 ==> !whitespace(rest[0]),
    ensures
        indent(Seq::new(n, |i: int| ' ') + rest) == n,
        trim_front(Seq::new(n, |i: int| ' ') + rest) == rest,
{
    let pad = Seq::new(n, |i: int| ' ');
    let line = pad + rest;
    if rest.len() > 0 {
        assert(line[n as int] == rest[0]);
    }
    assert forall|i: int| 0 <= i < n implies blanks()(#[trigger] line[i]) by {
        assert(line[i] == pad[i]);
    }
    lemma_lead(line, blanks(), n as int);
    assert(line.take(n as int) =~= pad);
    assert(is_ascii_chars(pad));
    is_ascii_chars_encode_utf8(pad);
    assert(line.skip(n as int) =~= rest);
}

/// The first word goes up to whitespace or to the end.
pub proof fn law_first_word_ends_at_whitespace(word: Seq<char>, c: char, rest: Seq<char>)
    requires
        forall|i: int| 0 <= i < word.len() ==> !whitespace(#[trigger] word[i]),
        whitespace(c),
    ensures
        first_word(word) == word,
        first_word(word + seq![c] + rest) == word,
{
    let n = word.len() as int;
    let s = word + seq![c] + rest;
    assert forall|i: int| 0 <= i < n implies not(blanks())(#[trigger] s[i]) by {
        assert(s[i] == word[i]);
    }
    lemma_lead(word, not(blanks()), n);
    lemma_lead(s, not(blanks()), n);
    assert(s.take(n) =~= word);
    assert(word.take(n) =~= word);
}

/// A search finds the first place where the pattern stands, and gives up only
/// where there is none.
pub proof fn law_first_occurrence_is_found(text: Seq<char>, pat: Seq<char>)
    ensures
        find(text, pat) matches Some(n) ==> n + pat.len() <= text.len() && text.subrange(
            n as int,
            (n + pat.len()) as int,
        ) == pat,
        forall|k: int|
            #![trigger text.skip(k)]
            0 <= k <= text.len() && (find(text, pat) matches Some(n) ==> k < n)
                ==> !pat.is_prefix_of(text.skip(k)),
    decreases text.len(),
{
    assert(text.skip(0) =~= text);
    if pat.is_prefix_of(text) {
    } else if text.len() > 0 {
        let t = text.skip(1);
        law_first_occurrence_is_found(t, pat);
        if let Some(n) = find(t, pat) {
            let m = n as int;
            assert(t.subrange(m, m + pat.len()) =~= text.subrange(m + 1, m + 1 + pat.len()));
        }
        assert forall|k: int|
            #![trigger text.skip(k)]
            0 <= k <= text.len() && (find(text, pat) matches Some(n) ==> k < n) implies !pat.is_prefix_of(
            text.skip(k),
        ) by {
            if k > 0 {
                assert(t.skip(k - 1) =~= text.skip(k));
            }
        }
    }
}

/// What comes before the first `c` holds none, and is all of a text without one.
pub proof fn law_before_ends_at_the_first(a: Seq<char>, c: char, rest: Seq<char>)
    requires
        !a.contains(c),
    ensures
        before(a, c) == a,
        before(a + seq![c] + rest, c) == a,
{
    let n = a.len() as int;
    let s = a + seq![c] + rest;
    assert forall|i: int| 0 <= i < n implies not(equal_to(c))(#[trigger] a[i]) by {
        assert(a.contains(a[i]));
    }
    assert forall|i: int| 0 <= i < n implies not(equal_to(c))(#[trigger] s[i]) by {
        assert(s[i] == a[i]);
    }
    lemma_lead(a, not(equal_to(c)), n);
    lemma_lead(s, not(equal_to(c)), n);
    assert(a.take(n) =~= a);
    assert(s.take(n) =~= a);
}

} // verus!
