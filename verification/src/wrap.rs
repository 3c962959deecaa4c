//! Word wrap of terminal text.

use crate::ansi::{
    chained, csi, csi_at, lemma_units_chained, lemma_units_of_chained, lemma_units_step, parts_from,
    unit, unit_end, unit_len, units, visible, visible_width, whole, ESC, SPACE,
};
use crate::text::{
    equal_to, join, law_join_undoes_split, lead, lemma_join_front, lemma_lead, lemma_lead_bounds,
    lemma_split_none, lemma_split_some, lemma_split_step, not, seqs, split,
};
use vstd::prelude::*;
use vstd::seq_lib::lemma_flatten_concat;
use vstd::slice::{slice_subrange, slice_to_vec};
use vstd::utf8::{length_of_first_scalar, pop_first_scalar, valid_utf8};

verus! {

/// The unit that separates words.
pub open spec fn space() -> Seq<u8> {
    seq![SPACE]
}

/// Whether `word` can follow `line` within `width` columns, with a space
/// between them where `line` shows anything yet.
pub open spec fn fits(line: Seq<Seq<u8>>, word: Seq<Seq<u8>>, width: nat) -> bool {
    visible(line) + (if visible(line) > 0 { 1nat } else { 0nat }) + visible(word) <= width
}

/// `line` followed by `word`.
pub open spec fn glue(line: Seq<Seq<u8>>, word: Seq<Seq<u8>>) -> Seq<Seq<u8>> {
    if visible(line) > 0 {
        line + seq![space()] + word
    } else {
        line + word
    }
}

/// The line as a list of lines: none where it is empty.
pub open spec fn emit(line: Seq<Seq<u8>>) -> Seq<Seq<Seq<u8>>> {
    if line.len() == 0 {
        seq![]
    } else {
        seq![line]
    }
}

/// Greedy fill: `words` are put after `line` as long as they fit, and a word
/// that does not fit starts the next line. A last word of nothing but escape
/// sequences stays on the line it ends.
pub open spec fn fill(words: Seq<Seq<Seq<u8>>>, width: nat, line: Seq<Seq<u8>>) -> Seq<
    Seq<Seq<u8>>,
>
    decreases words.len(),
{
    if words.len() == 0 {
        emit(line)
    } else if words.len() == 1 && visible(words[0]) == 0 {
        emit(line + words[0])
    } else if fits(line, words[0], width) {
        fill(words.skip(1), width, glue(line, words[0]))
    } else {
        emit(line) + fill(words.skip(1), width, words[0])
    }
}

/// Word wrap of one line to `width` columns. A line that fits is left alone,
/// and so is every line when there is no width to wrap to.
pub open spec fn wrap(line: Seq<u8>, width: nat) -> Seq<Seq<u8>> {
    let us = units(line);
    if width == 0 || visible(us) <= width {
        seq![line]
    } else {
        flat(fill(split(us, equal_to(space())), width, seq![]))
    }
}

/// The bytes of each line of units.
pub open spec fn flat(ls: Seq<Seq<Seq<u8>>>) -> Seq<Seq<u8>> {
    ls.map_values(|l: Seq<Seq<u8>>| l.flatten())
}

proof fn lemma_visible_concat(a: Seq<Seq<u8>>, b: Seq<Seq<u8>>)
    ensures
        visible(a + b) == visible(a) + visible(b),
    decreases a.len(),
{
    if a.len() == 0 {
        assert(a + b == b);
    } else {
        assert((a + b).skip(1) == a.skip(1) + b);
        lemma_visible_concat(a.skip(1), b);
    }
}

proof fn lemma_visible_one(u: Seq<u8>)
    ensures
        visible(seq![u]) == (if csi(u) { 0nat } else { 1nat }),
{
    assert(visible(seq![u].skip(1)) == 0);
}

proof fn lemma_visible_glue(line: Seq<Seq<u8>>, word: Seq<Seq<u8>>)
    ensures
        visible(glue(line, word)) == visible(line) + (if visible(line) > 0 { 1nat } else { 0nat })
            + visible(word),
        glue(line, word).flatten() == line.flatten() + (if visible(line) > 0 {
            space()
        } else {
            seq![]
        }) + word.flatten(),
{
    if visible(line) > 0 {
        lemma_visible_one(space());
        lemma_visible_concat(line, seq![space()]);
        lemma_visible_concat(line + seq![space()], word);
        lemma_flatten_concat(line + seq![space()], word);
        line.lemma_flatten_push(space());
        assert(line + seq![space()] == line.push(space()));
    } else {
        lemma_visible_concat(line, word);
        lemma_flatten_concat(line, word);
    }
}

proof fn lemma_emit_flat(line: Seq<Seq<u8>>, ls: Seq<Seq<Seq<u8>>>)
    ensures
        flat(emit(line) + ls) == flat(emit(line)) + flat(ls),
        line.len() > 0 ==> flat(emit(line)) == seq![line.flatten()],
        line.len() == 0 ==> flat(emit(line)) == Seq::<Seq<u8>>::empty(),
{
    assert(flat(emit(line) + ls) =~= flat(emit(line)) + flat(ls));
    if line.len() > 0 {
        assert(flat(emit(line)) =~= seq![line.flatten()]);
    } else {
        assert(flat(emit(line)) =~= Seq::<Seq<u8>>::empty());
    }
}

/// Word-wraps a line to `width` columns. Splits on spaces; a word wider than
/// `width` overflows on a line of its own rather than being broken. Escape
/// sequences carry through and take no column.
#[verifier::rlimit(30)]
pub fn wrap_ansi(line: &[u8], width: usize) -> (out: Vec<Vec<u8>>)
    ensures
        seqs(out@) == wrap(line@, width as nat),
{
    if width == 0 || visible_width(line) <= width {
        let mut out: Vec<Vec<u8>> = Vec::new();
        out.push(slice_to_vec(line));
        assert(seqs(out@) =~= seq![line@]);
        return out;
    }
    let ghost sp = equal_to(space());
    let ghost all = units(line@);
    let ghost goal = flat(fill(split(all, sp), width as nat, seq![]));
    // The line being filled and the word being read, as units.
    let ghost mut cur: Seq<Seq<u8>> = seq![];
    let ghost mut wrd: Seq<Seq<u8>> = seq![];
    let mut out: Vec<Vec<u8>> = Vec::new();
    let mut current: Vec<u8> = Vec::new();
    let mut current_visible: usize = 0;
    let mut word: Vec<u8> = Vec::new();
    let mut word_visible: usize = 0;
    let mut i: usize = 0;
    proof {
        assert(line@.skip(0) == line@);
        assert(wrd + all == all);
        assert(seqs(out@) + goal =~= goal);
    }
    while i < line.len()
        invariant
            i <= line@.len(),
            width > 0,
            sp == equal_to(space()),
            current@ == cur.flatten(),
            word@ == wrd.flatten(),
            current_visible == visible(cur),
            word_visible == visible(wrd),
            current_visible + word_visible <= i,
            current_visible > 0 ==> current_visible + word_visible < i,
            forall|k: int| 0 <= k < wrd.len() ==> #[trigger] wrd[k] != space(),
            forall|k: int| 0 <= k < wrd.len() ==> (#[trigger] wrd[k]).len() > 0,
            (current@.len() == 0) == (cur.len() == 0),
            (word@.len() == 0) == (wrd.len() == 0),
            goal == seqs(out@) + flat(
                fill(split(wrd + units(line@.skip(i as int)), sp), width as nat, cur),
            ),
        decreases line.len() - i,
    {
        let ghost rest = units(line@.skip(i as int));
        let end = unit_end(line, i);
        let ghost u = line@.subrange(i as int, end as int);
        let ghost next = units(line@.skip(end as int));
        proof {
            lemma_units_step(line@, i as int);
            lemma_visible_one(u);
        }
        if line[i] == SPACE {
            proof {
                assert(u =~= space());
                lemma_split_step(wrd, space(), next, sp);
                assert(wrd + rest == wrd + (seq![space()] + next));
                lemma_split_some(next, sp);
                assert(split(wrd + rest, sp).skip(1) == split(next, sp));
                assert(Seq::<Seq<u8>>::empty() + next == next);
                lemma_visible_glue(cur, wrd);
            }
            let sep: usize = if current_visible > 0 {
                1
            } else {
                0
            };
            if current_visible + sep + word_visible <= width {
                if sep == 1 {
                    current.push(SPACE);
                    current_visible += 1;
                }
                current.extend_from_slice(word.as_slice());
                current_visible += word_visible;
                proof {
                    cur = glue(cur, wrd);
                    assert(current@ =~= cur.flatten());
                }
            } else {
                proof {
                    lemma_emit_flat(cur, fill(split(next, sp), width as nat, wrd));
                }
                if current.len() > 0 {
                    let ghost before = out@;
                    out.push(current);
                    assert(seqs(out@) =~= seqs(before).push(cur.flatten()));
                }
                current = Vec::new();
                current.extend_from_slice(word.as_slice());
                current_visible = word_visible;
                proof {
                    cur = wrd;
                    assert(current@ =~= cur.flatten());
                }
            }
            word = Vec::new();
            word_visible = 0;
            proof {
                wrd = seq![];
                assert(goal =~= seqs(out@) + flat(
                    fill(split(wrd + next, sp), width as nat, cur),
                ));
            }
        } else {
            if !csi_at(line, i) {
                word_visible += 1;
            }
            word.extend_from_slice(slice_subrange(line, i, end));
            proof {
                assert(u[0] == line@[i as int]);
                lemma_visible_concat(wrd, seq![u]);
                wrd.lemma_flatten_push(u);
                assert(wrd + seq![u] == wrd.push(u));
                assert(wrd + rest =~= wrd.push(u) + next);
                wrd = wrd.push(u);
                assert(word@ =~= wrd.flatten());
            }
        }
        i = end;
    }
    proof {
        assert(units(line@.skip(i as int)).len() == 0);
        assert(wrd + units(line@.skip(i as int)) =~= wrd);
        lemma_split_none(wrd, sp);
        lemma_visible_glue(cur, wrd);
        assert(seq![wrd].skip(1).len() == 0);
        reveal_with_fuel(fill, 2);
    }
    if word_visible > 0 {
        let sep: usize = if current_visible > 0 {
            1
        } else {
            0
        };
        if current_visible + sep + word_visible <= width {
            if sep == 1 {
                current.push(SPACE);
            }
            proof {
                cur = glue(cur, wrd);
            }
        } else {
            proof {
                lemma_emit_flat(cur, emit(wrd));
            }
            if current.len() > 0 {
                let ghost before = out@;
                out.push(current);
                assert(seqs(out@) =~= seqs(before).push(cur.flatten()));
            }
            current = Vec::new();
            proof {
                cur = wrd;
            }
        }
    } else {
        proof {
            lemma_flatten_concat(cur, wrd);
            cur = cur + wrd;
        }
    }
    current.extend_from_slice(word.as_slice());
    proof {
        assert(current@ =~= cur.flatten());
        assert(goal =~= seqs(out@) + flat(emit(cur)));
        lemma_emit_flat(cur, seq![]);
    }
    if current.len() > 0 {
        let ghost before = out@;
        out.push(current);
        assert(seqs(out@) =~= seqs(before).push(cur.flatten()));
    }
    out
}

// ---------------------------------------------------------------------------
// Laws

/// The units that are not spaces.
pub open spec fn ink(us: Seq<Seq<u8>>) -> Seq<Seq<u8>> {
    us.filter(not(equal_to(space())))
}

spec fn spaceless(us: Seq<Seq<u8>>) -> bool {
    forall|i: int| 0 <= i < us.len() ==> #[trigger] us[i] != space()
}

/// Whether a space can follow `us`.
spec fn closed_end(us: Seq<Seq<u8>>) -> bool {
    us.len() > 0 ==> whole(us.last()) || us.last() == seq![ESC]
}

proof fn lemma_chain_concat(a: Seq<Seq<u8>>, b: Seq<Seq<u8>>)
    requires
        chained(a),
        chained(b),
        a.len() > 0 && b.len() > 0 ==> parts_from(a.last(), b[0]),
    ensures
        chained(a + b),
{
    let c = a + b;
    assert forall|i: int| 0 <= i < c.len() implies unit(#[trigger] c[i]) by {
        if i >= a.len() {
            assert(c[i] == b[i - a.len()]);
        } else {
            assert(c[i] == a[i]);
        }
    }
    assert forall|i: int| 0 <= i < c.len() - 1 implies parts_from(#[trigger] c[i], c[i + 1]) by {
        if i >= a.len() {
            assert(c[i] == b[i - a.len()]);
            assert(c[i + 1] == b[i - a.len() + 1]);
        } else if i + 1 < a.len() {
            assert(c[i] == a[i]);
            assert(c[i + 1] == a[i + 1]);
        }
    }
}

proof fn lemma_chain_sub(us: Seq<Seq<u8>>, i: int, j: int)
    requires
        chained(us),
        0 <= i <= j <= us.len(),
    ensures
        chained(us.subrange(i, j)),
{
    let t = us.subrange(i, j);
    assert forall|k: int| 0 <= k < t.len() implies unit(#[trigger] t[k]) by {
        assert(t[k] == us[i + k]);
    }
    assert forall|k: int| 0 <= k < t.len() - 1 implies parts_from(#[trigger] t[k], t[k + 1]) by {
        assert(t[k] == us[i + k]);
        assert(t[k + 1] == us[i + k + 1]);
    }
}

proof fn lemma_chain_space()
    ensures
        chained(seq![space()]),
        whole(space()),
{
    assert(whole(space()));
}

proof fn lemma_invisible(us: Seq<Seq<u8>>)
    requires
        visible(us) == 0,
    ensures
        forall|i: int| 0 <= i < us.len() ==> csi(#[trigger] us[i]),
        spaceless(us),
    decreases us.len(),
{
    if us.len() > 0 {
        let t = us.skip(1);
        lemma_invisible(t);
        assert forall|i: int| 0 <= i < us.len() implies csi(#[trigger] us[i]) && us[i] != space() by {
            if i > 0 {
                assert(us[i] == t[i - 1]);
            }
        }
    }
}

proof fn lemma_ink_spaceless(us: Seq<Seq<u8>>)
    requires
        spaceless(us),
    ensures
        ink(us) == us,
    decreases us.len(),
{
    reveal(Seq::filter);
    if us.len() > 0 {
        assert forall|i: int| 0 <= i < us.drop_last().len() implies #[trigger] us.drop_last()[i]
            != space() by {
            assert(us.drop_last()[i] == us[i]);
        }
        lemma_ink_spaceless(us.drop_last());
        assert(us.last() != space());
        assert(us.drop_last().push(us.last()) =~= us);
    } else {
        assert(us =~= seq![]);
    }
}

proof fn lemma_ink_space()
    ensures
        ink(seq![space()]) == Seq::<Seq<u8>>::empty(),
{
    reveal(Seq::filter);
    assert(seq![space()].drop_last() =~= seq![]);
    assert(seq![space()].drop_last().filter(not(equal_to(space()))) =~= seq![]);
}

/// What `fill` is given: words out of one chained text.
spec fn words_ok(words: Seq<Seq<Seq<u8>>>) -> bool {
    &&& forall|i: int| 0 <= i < words.len() ==> chained(#[trigger] words[i]) && spaceless(words[i])
    &&& forall|i: int| 0 <= i < words.len() - 1 ==> closed_end(#[trigger] words[i])
}

proof fn lemma_split_words(us: Seq<Seq<u8>>)
    requires
        chained(us),
    ensures
        words_ok(split(us, equal_to(space()))),
        split(us, equal_to(space())).flatten() == ink(us),
    decreases us.len(),
{
    let sp = equal_to(space());
    let ws = split(us, sp);
    let n = lead(us, not(sp)) as int;
    lemma_lead_bounds(us, not(sp));
    if n < us.len() {
        let w = us.take(n);
        let rest = us.skip(n + 1);
        lemma_chain_sub(us, 0, n);
        lemma_chain_sub(us, n + 1, us.len() as int);
        assert(w =~= us.subrange(0, n));
        assert(rest =~= us.subrange(n + 1, us.len() as int));
        lemma_split_words(rest);
        let rs = split(rest, sp);
        assert(ws == seq![w] + rs);
        assert(spaceless(w)) by {
            assert forall|i: int| 0 <= i < w.len() implies #[trigger] w[i] != space() by {
                assert(not(sp)(us[i]));
            }
        }
        assert(us[n] == space());
        assert(closed_end(w)) by {
            if w.len() > 0 {
                assert(parts_from(us[n - 1], us[n]));
            }
        }
        assert forall|i: int| 0 <= i < ws.len() implies chained(#[trigger] ws[i]) && spaceless(
            ws[i],
        ) by {
            if i > 0 {
                assert(ws[i] == rs[i - 1]);
            }
        }
        assert forall|i: int| 0 <= i < ws.len() - 1 implies closed_end(#[trigger] ws[i]) by {
            if i > 0 {
                assert(ws[i] == rs[i - 1]);
            }
        }
        assert(ws.drop_first() =~= rs);
        assert(us =~= w + (seq![space()] + rest));
        Seq::filter_distributes_over_add(w, seq![space()] + rest, not(sp));
        Seq::filter_distributes_over_add(seq![space()], rest, not(sp));
        lemma_ink_space();
        lemma_ink_spaceless(w);
        assert(Seq::<Seq<u8>>::empty() + ink(rest) =~= ink(rest));
    } else {
        assert(spaceless(us)) by {
            assert forall|i: int| 0 <= i < us.len() implies #[trigger] us[i] != space() by {
                assert(not(sp)(us[i]));
            }
        }
        lemma_ink_spaceless(us);
        ws.lemma_flatten_one_element();
    }
}

/// Whether a line keeps to the width, or is one word.
spec fn line_ok(l: Seq<Seq<u8>>, width: nat) -> bool {
    chained(l) && (visible(l) <= width || spaceless(l))
}

/// A word that fits can follow the line.
proof fn lemma_glue_ok(line: Seq<Seq<u8>>, w: Seq<Seq<u8>>, width: nat)
    requires
        chained(line),
        closed_end(line),
        chained(w),
        spaceless(w),
        fits(line, w, width),
    ensures
        line_ok(glue(line, w), width),
        ink(glue(line, w)) == ink(line) + w,
        closed_end(w) ==> closed_end(glue(line, w)),
{
    let p = not(equal_to(space()));
    let g = glue(line, w);
    lemma_visible_glue(line, w);
    lemma_chain_space();
    lemma_ink_spaceless(w);
    if visible(line) > 0 {
        lemma_chain_concat(line, seq![space()]);
        lemma_chain_concat(line + seq![space()], w);
        Seq::filter_distributes_over_add(line, seq![space()], p);
        Seq::filter_distributes_over_add(line + seq![space()], w, p);
        lemma_ink_space();
        assert(ink(line) + Seq::<Seq<u8>>::empty() =~= ink(line));
    } else {
        lemma_invisible(line);
        if line.len() > 0 {
            assert(csi(line.last()));
        }
        lemma_chain_concat(line, w);
        Seq::filter_distributes_over_add(line, w, p);
    }
    if w.len() > 0 {
        assert(g.last() == w.last());
    } else if visible(line) > 0 {
        assert(g.last() == space());
    } else {
        assert(g =~= line);
    }
}

/// A last word of nothing but escape sequences stays on the line.
proof fn lemma_trailing_ok(line: Seq<Seq<u8>>, w: Seq<Seq<u8>>, width: nat)
    requires
        line_ok(line, width),
        closed_end(line),
        chained(w),
        visible(w) == 0,
    ensures
        line_ok(line + w, width),
        ink(line + w) == ink(line) + w,
{
    lemma_invisible(w);
    if line.len() > 0 && w.len() > 0 {
        assert(csi(w[0]));
    }
    lemma_chain_concat(line, w);
    lemma_visible_concat(line, w);
    lemma_ink_spaceless(w);
    Seq::filter_distributes_over_add(line, w, not(equal_to(space())));
    assert(spaceless(line) ==> spaceless(line + w)) by {
        assert forall|i: int| 0 <= i < (line + w).len() && spaceless(line) implies #[trigger] (line
            + w)[i] != space() by {
            if i >= line.len() {
                assert((line + w)[i] == w[i - line.len()]);
            } else {
                assert((line + w)[i] == line[i]);
            }
        }
    }
}

proof fn lemma_words_rest(words: Seq<Seq<Seq<u8>>>)
    requires
        words_ok(words),
        words.len() > 0,
    ensures
        words_ok(words.skip(1)),
        chained(words[0]),
        spaceless(words[0]),
        words.len() > 1 ==> closed_end(words[0]),
        words.flatten() == words[0] + words.skip(1).flatten(),
{
    let rest = words.skip(1);
    assert(chained(words[0]) && spaceless(words[0]));
    assert(rest =~= words.drop_first());
    assert forall|i: int| 0 <= i < rest.len() implies chained(#[trigger] rest[i]) && spaceless(
        rest[i],
    ) by {
        assert(rest[i] == words[i + 1]);
    }
    assert forall|i: int| 0 <= i < rest.len() - 1 implies closed_end(#[trigger] rest[i]) by {
        assert(rest[i] == words[i + 1]);
    }
    if rest.len() > 0 {
        assert(closed_end(words[0]));
    }
}

spec fn lines_ok(ls: Seq<Seq<Seq<u8>>>, width: nat) -> bool {
    forall|i: int| 0 <= i < ls.len() ==> line_ok(#[trigger] ls[i], width)
}

proof fn lemma_lines_concat(a: Seq<Seq<Seq<u8>>>, b: Seq<Seq<Seq<u8>>>, width: nat)
    requires
        lines_ok(a, width),
        lines_ok(b, width),
    ensures
        lines_ok(a + b, width),
        ink((a + b).flatten()) == ink(a.flatten()) + ink(b.flatten()),
{
    lemma_flatten_concat(a, b);
    Seq::filter_distributes_over_add(a.flatten(), b.flatten(), not(equal_to(space())));
    assert forall|i: int| 0 <= i < (a + b).len() implies line_ok(#[trigger] (a + b)[i], width) by {
        if i >= a.len() {
            assert((a + b)[i] == b[i - a.len()]);
        } else {
            assert((a + b)[i] == a[i]);
        }
    }
}

proof fn lemma_fill(words: Seq<Seq<Seq<u8>>>, width: nat, line: Seq<Seq<u8>>)
    requires
        words_ok(words),
        line_ok(line, width),
        words.len() > 0 ==> closed_end(line),
    ensures
        lines_ok(fill(words, width, line), width),
        ink(fill(words, width, line).flatten()) == ink(line) + words.flatten(),
    decreases words.len(),
{
    lemma_emit(line);
    if words.len() == 0 {
        assert(ink(line) + words.flatten() =~= ink(line));
    } else {
        let w = words[0];
        let rest = words.skip(1);
        lemma_words_rest(words);
        if words.len() == 1 && visible(w) == 0 {
            lemma_trailing_ok(line, w, width);
            lemma_emit(line + w);
            assert(rest.flatten() =~= seq![]);
            assert(w + rest.flatten() =~= w);
        } else if fits(line, w, width) {
            lemma_glue_ok(line, w, width);
            lemma_fill(rest, width, glue(line, w));
            assert(ink(line) + w + rest.flatten() =~= ink(line) + (w + rest.flatten()));
        } else {
            lemma_fill(rest, width, w);
            lemma_ink_spaceless(w);
            lemma_lines_concat(emit(line), fill(rest, width, w), width);
        }
    }
}

proof fn lemma_emit(line: Seq<Seq<u8>>)
    ensures
        emit(line).flatten() == line,
{
    if line.len() == 0 {
        assert(emit(line).flatten() =~= line);
    } else {
        emit(line).lemma_flatten_one_element();
    }
}

/// The lines as units again.
pub open spec fn read_back(ls: Seq<Seq<u8>>) -> Seq<Seq<Seq<u8>>> {
    ls.map_values(|l: Seq<u8>| units(l))
}

/// Every wrapped line keeps to the width, except that a line of one word may
/// be wider: no line breaks inside a word.
pub proof fn law_wrapped_lines_fit(line: Seq<u8>, width: nat, i: int)
    requires
        width > 0,
        0 <= i < wrap(line, width).len(),
    ensures
        visible(units(wrap(line, width)[i])) <= width || !units(wrap(line, width)[i]).contains(
            space(),
        ),
{
    let us = units(line);
    if visible(us) > width {
        lemma_units_chained(line);
        lemma_split_words(us);
        lemma_fill(split(us, equal_to(space())), width, seq![]);
        let ls = fill(split(us, equal_to(space())), width, seq![]);
        assert(line_ok(ls[i], width));
        lemma_units_of_chained(ls[i]);
        assert(wrap(line, width)[i] == ls[i].flatten());
    }
}

/// Wrapping loses and reorders nothing but spaces: read one after another, the
/// lines hold the characters and the escape sequences of the original line.
pub proof fn law_wrap_keeps_text(line: Seq<u8>, width: nat)
    ensures
        ink(read_back(wrap(line, width)).flatten()) == ink(units(line)),
{
    let us = units(line);
    let ws = wrap(line, width);
    if width == 0 || visible(us) <= width {
        assert(read_back(ws) =~= seq![us]);
        read_back(ws).lemma_flatten_one_element();
    } else {
        lemma_units_chained(line);
        lemma_split_words(us);
        let words = split(us, equal_to(space()));
        lemma_fill(words, width, seq![]);
        let ls = fill(words, width, seq![]);
        assert(read_back(ws) =~= ls) by {
            assert forall|i: int| 0 <= i < ls.len() implies #[trigger] read_back(ws)[i] == ls[i] by {
                assert(line_ok(ls[i], width));
                lemma_units_of_chained(ls[i]);
            }
        }
        lemma_ink_spaceless(seq![]);
        assert(ink(seq![]) + words.flatten() =~= words.flatten());
    }
}

// ---------------------------------------------------------------------------
// Lines of words

/// The words of a line: what stands between its spaces.
pub open spec fn words(line: Seq<u8>) -> Seq<Seq<Seq<u8>>> {
    split(units(line), equal_to(space()))
}

/// Whether the words of a line are parted by single spaces, with none at either
/// end: every word shows something.
pub open spec fn single_spaced(line: Seq<u8>) -> bool {
    all_show(words(line))
}

pub open spec fn all_show(ws: Seq<Seq<Seq<u8>>>) -> bool {
    forall|i: int| 0 <= i < ws.len() ==> visible(#[trigger] ws[i]) > 0
}

proof fn lemma_split_cons(u: Seq<u8>, us: Seq<Seq<u8>>)
    requires
        u != space(),
    ensures
        split(seq![u] + us, equal_to(space())).len() == split(us, equal_to(space())).len(),
        split(seq![u] + us, equal_to(space()))[0] == seq![u] + split(us, equal_to(space()))[0],
        forall|i: int|
            0 < i < split(us, equal_to(space())).len() ==> #[trigger] split(
                seq![u] + us,
                equal_to(space()),
            )[i] == split(us, equal_to(space()))[i],
{
    let sp = equal_to(space());
    let s = seq![u] + us;
    let n = lead(us, not(sp)) as int;
    lemma_lead_bounds(us, not(sp));
    assert(s.skip(1) =~= us);
    assert(lead(s, not(sp)) == n + 1);
    let more = split(us.skip(n + 1), sp);
    if n < us.len() {
        assert(s.take(n + 1) =~= seq![u] + us.take(n));
        assert(s.skip(n + 2) =~= us.skip(n + 1));
        assert(split(us, sp) == seq![us.take(n)] + more);
        assert(split(s, sp) == seq![seq![u] + us.take(n)] + more);
    } else {
        assert(split(us, sp) == seq![us]);
        assert(split(s, sp) == seq![s]);
    }
}

proof fn lemma_words_show(s: Seq<u8>)
    requires
        valid_utf8(s),
        s.len() > 0,
        s.last() != SPACE,
        forall|i: int| 0 <= i < s.len() ==> #[trigger] s[i] != ESC,
        forall|i: int| 0 <= i < s.len() - 1 ==> !(#[trigger] s[i] == SPACE && s[i + 1] == SPACE),
    ensures
        words(s).len() > 0,
        s[0] != SPACE ==> visible(words(s)[0]) > 0,
        forall|i: int| 0 < i < words(s).len() ==> visible(#[trigger] words(s)[i]) > 0,
    decreases s.len(),
{
    let sp = equal_to(space());
    let n = unit_len(s) as int;
    let u = s.take(n);
    let rest = s.skip(n);
    assert(s[0] != ESC);
    assert(n == length_of_first_scalar(s));
    assert(rest =~= pop_first_scalar(s));
    assert(units(s) == seq![u] + units(rest));
    lemma_split_some(units(s), sp);
    lemma_split_some(units(rest), sp);
    if rest.len() > 0 {
        assert(rest.last() == s.last());
        assert forall|i: int| 0 <= i < rest.len() implies #[trigger] rest[i] != ESC by {
            assert(rest[i] == s[i + n]);
        }
        assert forall|i: int| 0 <= i < rest.len() - 1 implies !(#[trigger] rest[i] == SPACE
            && rest[i + 1] == SPACE) by {
            assert(rest[i] == s[i + n]);
            assert(rest[i + 1] == s[i + n + 1]);
        }
        lemma_words_show(rest);
    }
    if s[0] == SPACE {
        assert(u =~= space());
        assert(rest.len() > 0);
        assert(s[0] == SPACE && s[1] == rest[0]);
        assert(units(s) =~= Seq::<Seq<u8>>::empty() + (seq![space()] + units(rest)));
        lemma_split_step(Seq::<Seq<u8>>::empty(), space(), units(rest), sp);
    } else {
        assert(u[0] == s[0]);
        lemma_split_cons(u, units(rest));
        lemma_visible_one(u);
        lemma_visible_concat(seq![u], words(rest)[0]);
    }
}

/// Plain text is single-spaced where no space stands at either end or beside
/// another.
pub proof fn law_plain_text_is_single_spaced(line: Seq<u8>)
    requires
        valid_utf8(line),
        line.len() > 0,
        line[0] != SPACE,
        line.last() != SPACE,
        forall|i: int| 0 <= i < line.len() ==> #[trigger] line[i] != ESC,
        forall|i: int|
            0 <= i < line.len() - 1 ==> !(#[trigger] line[i] == SPACE && line[i + 1] == SPACE),
    ensures
        single_spaced(line),
{
    lemma_words_show(line);
}

proof fn lemma_all_show_rest(ws: Seq<Seq<Seq<u8>>>)
    requires
        all_show(ws),
        ws.len() > 0,
    ensures
        all_show(ws.skip(1)),
        visible(ws[0]) > 0,
        ws[0].len() > 0,
{
    assert forall|i: int| 0 <= i < ws.skip(1).len() implies visible(#[trigger] ws.skip(1)[i])
        > 0 by {
        assert(ws.skip(1)[i] == ws[i + 1]);
    }
    assert(visible(ws[0]) > 0);
}

/// The first word that is put on an empty line starts it, whether it fits or
/// not.
proof fn lemma_fill_start(ws: Seq<Seq<Seq<u8>>>, width: nat)
    requires
        all_show(ws),
        ws.len() > 0,
    ensures
        fill(ws, width, seq![]) == fill(ws.skip(1), width, ws[0]),
{
    let none = Seq::<Seq<u8>>::empty();
    lemma_all_show_rest(ws);
    assert(none + ws[0] =~= ws[0]);
    assert(emit(none) + fill(ws.skip(1), width, ws[0]) =~= fill(ws.skip(1), width, ws[0]));
}

/// The lines, joined by spaces, are the line in progress and the words.
proof fn lemma_fill_joins(ws: Seq<Seq<Seq<u8>>>, width: nat, line: Seq<Seq<u8>>)
    requires
        all_show(ws),
        visible(line) > 0,
    ensures
        fill(ws, width, line).len() > 0,
        join(fill(ws, width, line), seq![space()]) == join(seq![line] + ws, seq![space()]),
    decreases ws.len(),
{
    let sep = seq![space()];
    let all = seq![line] + ws;
    if ws.len() == 0 {
        assert(all =~= seq![line]);
    } else {
        let w = ws[0];
        let rest = ws.skip(1);
        lemma_all_show_rest(ws);
        lemma_join_front(all, sep);
        assert(all.skip(1) =~= ws);
        assert(seq![w] + rest =~= ws);
        if fits(line, w, width) {
            let g = glue(line, w);
            let one = seq![g] + rest;
            lemma_visible_glue(line, w);
            lemma_fill_joins(rest, width, g);
            if rest.len() == 0 {
                assert(one =~= seq![g]);
                assert(ws =~= seq![w]);
                assert(line + (sep + w) =~= g);
            } else {
                lemma_join_front(one, sep);
                lemma_join_front(ws, sep);
                assert(one.skip(1) =~= rest);
                let tail = sep + join(rest, sep);
                assert(g + tail =~= line + (sep + (w + tail)));
            }
        } else {
            let more = fill(rest, width, w);
            lemma_fill_joins(rest, width, w);
            let out = seq![line] + more;
            assert(fill(ws, width, line) == out);
            lemma_join_front(out, sep);
            assert(out.skip(1) =~= more);
        }
    }
}

/// The bytes of joined lines of units.
proof fn lemma_join_flat(ls: Seq<Seq<Seq<u8>>>)
    ensures
        join(ls, seq![space()]).flatten() == join(flat(ls), space()),
    decreases ls.len(),
{
    if ls.len() == 0 {
        assert(flat(ls) =~= seq![]);
    } else if ls.len() == 1 {
        assert(flat(ls)[0] == ls[0].flatten());
    } else {
        let init = ls.drop_last();
        let head = join(init, seq![space()]);
        lemma_join_flat(init);
        assert(flat(ls).drop_last() =~= flat(init));
        assert(flat(ls).last() == ls.last().flatten());
        lemma_flatten_concat(head + seq![space()], ls.last());
        head.lemma_flatten_push(space());
        assert(head + seq![space()] =~= head.push(space()));
    }
}

/// Joining the wrapped lines by spaces gives the line back, where its words are
/// parted by single spaces.
pub proof fn law_wrapped_lines_join_back(line: Seq<u8>, width: nat)
    requires
        single_spaced(line),
    ensures
        join(wrap(line, width), seq![SPACE]) == line,
{
    let us = units(line);
    if width > 0 && visible(us) > width {
        let ws = words(line);
        let ls = fill(ws, width, seq![]);
        lemma_split_some(us, equal_to(space()));
        lemma_fill_start(ws, width);
        lemma_all_show_rest(ws);
        lemma_fill_joins(ws.skip(1), width, ws[0]);
        assert(seq![ws[0]] + ws.skip(1) =~= ws);
        law_join_undoes_split(us, space());
        lemma_join_flat(ls);
        lemma_units_chained(line);
    }
}

/// The first word of a line of units.
spec fn head_of(l: Seq<Seq<u8>>) -> Seq<Seq<u8>> {
    split(l, equal_to(space()))[0]
}

/// More words on a line do not change its first.
proof fn lemma_head_of(a: Seq<Seq<u8>>, b: Seq<Seq<u8>>)
    ensures
        head_of(a + seq![space()] + b) == head_of(a),
{
    let sp = equal_to(space());
    let s = a + seq![space()] + b;
    let n = lead(a, not(sp)) as int;
    lemma_lead_bounds(a, not(sp));
    assert forall|i: int| 0 <= i < n implies not(sp)(#[trigger] s[i]) by {
        assert(s[i] == a[i]);
    }
    if n < a.len() {
        assert(s[n] == a[n]);
    } else {
        assert(s[n] == space());
    }
    lemma_lead(s, not(sp), n);
    assert(s.take(n) =~= a.take(n));
    assert(n == a.len() ==> a.take(n) =~= a);
}

/// Whether the first word of each line would not have fitted on the line
/// before.
spec fn greedy(ls: Seq<Seq<Seq<u8>>>, width: nat) -> bool {
    forall|i: int|
        0 <= i < ls.len() - 1 ==> visible(#[trigger] ls[i]) + 1 + visible(head_of(ls[i + 1]))
            > width
}

proof fn lemma_fill_greedy(ws: Seq<Seq<Seq<u8>>>, width: nat, line: Seq<Seq<u8>>)
    requires
        all_show(ws),
        words_ok(ws),
        visible(line) > 0,
    ensures
        fill(ws, width, line).len() > 0,
        head_of(fill(ws, width, line)[0]) == head_of(line),
        greedy(fill(ws, width, line), width),
    decreases ws.len(),
{
    if ws.len() > 0 {
        let w = ws[0];
        let rest = ws.skip(1);
        lemma_all_show_rest(ws);
        lemma_words_rest(ws);
        if fits(line, w, width) {
            lemma_visible_glue(line, w);
            lemma_fill_greedy(rest, width, glue(line, w));
            lemma_head_of(line, w);
        } else {
            let more = fill(rest, width, w);
            let out = fill(ws, width, line);
            lemma_fill_greedy(rest, width, w);
            assert(out =~= seq![line] + more);
            assert(head_of(w) == w) by {
                assert forall|i: int| 0 <= i < w.len() implies !equal_to(space())(
                    #[trigger] w[i],
                ) by {
                    assert(w[i] != space());
                }
                lemma_split_none(w, equal_to(space()));
            }
            assert forall|i: int| 0 <= i < out.len() - 1 implies visible(#[trigger] out[i]) + 1
                + visible(head_of(out[i + 1])) > width by {
                if i == 0 {
                    assert(out[1] == more[0]);
                } else {
                    assert(out[i] == more[i - 1]);
                    assert(out[i + 1] == more[i]);
                }
            }
        }
    }
}

/// Wrapping is greedy: the first word of a line would not have fitted on the
/// line before.
pub proof fn law_wrap_is_greedy(line: Seq<u8>, width: nat, i: int)
    requires
        single_spaced(line),
        0 <= i < wrap(line, width).len() - 1,
    ensures
        visible(units(wrap(line, width)[i])) + 1 + visible(words(wrap(line, width)[i + 1])[0])
            > width,
{
    let us = units(line);
    let ws = words(line);
    let ls = fill(ws, width, seq![]);
    lemma_units_chained(line);
    lemma_split_words(us);
    lemma_split_some(us, equal_to(space()));
    lemma_fill(ws, width, seq![]);
    lemma_fill_start(ws, width);
    lemma_all_show_rest(ws);
    lemma_words_rest(ws);
    lemma_fill_greedy(ws.skip(1), width, ws[0]);
    assert(line_ok(ls[i], width) && line_ok(ls[i + 1], width));
    lemma_units_of_chained(ls[i]);
    lemma_units_of_chained(ls[i + 1]);
    assert(visible(ls[i]) + 1 + visible(head_of(ls[i + 1])) > width);
}

/// How many lines a greedy fill takes for words of these widths, after a line
/// in progress that is `v` wide.
spec fn count(ws: Seq<nat>, width: nat, v: nat) -> nat
    decreases ws.len(),
{
    if ws.len() == 0 {
        1
    } else if v + 1 + ws[0] <= width {
        count(ws.skip(1), width, v + 1 + ws[0])
    } else {
        1 + count(ws.skip(1), width, ws[0])
    }
}

spec fn widths(ws: Seq<Seq<Seq<u8>>>) -> Seq<nat> {
    ws.map_values(|w: Seq<Seq<u8>>| visible(w))
}

proof fn lemma_fill_count(ws: Seq<Seq<Seq<u8>>>, width: nat, line: Seq<Seq<u8>>)
    requires
        all_show(ws),
        visible(line) > 0,
    ensures
        fill(ws, width, line).len() == count(widths(ws), width, visible(line)),
    decreases ws.len(),
{
    if ws.len() > 0 {
        lemma_all_show_rest(ws);
        lemma_visible_glue(line, ws[0]);
        assert(widths(ws).skip(1) =~= widths(ws.skip(1)));
        if fits(line, ws[0], width) {
            lemma_fill_count(ws.skip(1), width, glue(line, ws[0]));
        } else {
            lemma_fill_count(ws.skip(1), width, ws[0]);
        }
    }
}

/// A narrower line in progress does not take more lines, and whatever it holds
/// costs at most one.
proof fn lemma_count(ws: Seq<nat>, width: nat, a: nat, b: nat)
    ensures
        a <= b ==> count(ws, width, a) <= count(ws, width, b),
        count(ws, width, a) <= 1 + count(ws, width, b),
    decreases ws.len(),
{
    if ws.len() > 0 {
        let w = ws[0];
        let rest = ws.skip(1);
        lemma_count(rest, width, a + 1 + w, b + 1 + w);
        lemma_count(rest, width, a + 1 + w, w);
        lemma_count(rest, width, w, b + 1 + w);
    }
}

/// The width of words on one line.
spec fn spread(ws: Seq<nat>) -> nat
    decreases ws.len(),
{
    if ws.len() == 0 {
        0
    } else {
        1 + ws[0] + spread(ws.skip(1))
    }
}

/// Words that fit go on the line in progress.
proof fn lemma_count_prefix(a: Seq<nat>, b: Seq<nat>, width: nat, v: nat)
    requires
        v + spread(a) <= width,
    ensures
        count(a + b, width, v) == count(b, width, v + spread(a)),
    decreases a.len(),
{
    if a.len() == 0 {
        assert(a + b =~= b);
    } else {
        assert((a + b).skip(1) =~= a.skip(1) + b);
        lemma_count_prefix(a.skip(1), b, width, v + 1 + a[0]);
    }
}

proof fn lemma_visible_join(ws: Seq<Seq<Seq<u8>>>)
    requires
        ws.len() > 0,
    ensures
        visible(join(ws, seq![space()])) == visible(ws[0]) + spread(widths(ws).skip(1)),
    decreases ws.len(),
{
    if ws.len() == 1 {
        assert(widths(ws).skip(1) =~= seq![]);
    } else {
        let rest = ws.skip(1);
        let sep = seq![space()];
        lemma_join_front(ws, sep);
        lemma_visible_join(rest);
        lemma_visible_one(space());
        lemma_visible_concat(sep, join(rest, sep));
        lemma_visible_concat(ws[0], sep + join(rest, sep));
        assert(widths(ws).skip(1) =~= widths(rest));
    }
}

/// Whether words are set in lines: in order, some on each line, and within the
/// width but for a line of one word.
pub open spec fn sets(
    lines: Seq<Seq<Seq<Seq<u8>>>>,
    ws: Seq<Seq<Seq<u8>>>,
    width: nat,
) -> bool {
    &&& lines.flatten() == ws
    &&& forall|i: int|
        0 <= i < lines.len() ==> (#[trigger] lines[i]).len() > 0 && (lines[i].len() == 1 || visible(
            join(lines[i], seq![space()]),
        ) <= width)
}

proof fn lemma_greedy_is_shortest(
    lines: Seq<Seq<Seq<Seq<u8>>>>,
    ws: Seq<Seq<Seq<u8>>>,
    width: nat,
)
    requires
        sets(lines, ws, width),
        ws.len() > 0,
    ensures
        count(widths(ws).skip(1), width, visible(ws[0])) <= lines.len(),
    decreases lines.len(),
{
    assert(lines.len() > 0) by {
        if lines.len() == 0 {
            assert(lines.flatten() =~= seq![]);
        }
    }
    let g = lines[0];
    let more = lines.skip(1);
    let rest = more.flatten();
    assert(more =~= lines.drop_first());
    assert(ws =~= g + rest);
    assert(g.len() > 0);
    assert(ws[0] == g[0]);
    let a = widths(g).skip(1);
    let b = widths(rest);
    let v = visible(ws[0]);
    assert(widths(ws).skip(1) =~= a + b);
    lemma_visible_join(g);
    // The first line takes as much as `g` at least.
    if g.len() == 1 {
        assert(a =~= seq![]);
        assert(a + b =~= b);
        assert(spread(a) == 0);
    } else {
        lemma_count_prefix(a, b, width, v);
    }
    assert(count(a + b, width, v) == count(b, width, v + spread(a)));
    if rest.len() > 0 {
        assert forall|i: int| 0 <= i < more.len() implies (#[trigger] more[i]).len() > 0 && (
        more[i].len() == 1 || visible(join(more[i], seq![space()])) <= width) by {
            assert(more[i] == lines[i + 1]);
        }
        lemma_greedy_is_shortest(more, rest, width);
        assert(b[0] == visible(rest[0]));
        lemma_count(b.skip(1), width, v + spread(a) + 1 + b[0], b[0]);
    }
}

proof fn lemma_count_some(ws: Seq<nat>, width: nat, v: nat)
    ensures
        count(ws, width, v) > 0,
    decreases ws.len(),
{
    if ws.len() > 0 {
        lemma_count_some(ws.skip(1), width, v + 1 + ws[0]);
    }
}

/// No wrap is shorter: however the words of a line are set within the width, it
/// takes at least as many lines.
pub proof fn law_no_wrap_is_shorter(
    line: Seq<u8>,
    width: nat,
    lines: Seq<Seq<Seq<Seq<u8>>>>,
)
    requires
        single_spaced(line),
        sets(lines, words(line), width),
    ensures
        wrap(line, width).len() <= lines.len(),
{
    let ws = words(line);
    lemma_split_some(units(line), equal_to(space()));
    lemma_greedy_is_shortest(lines, ws, width);
    lemma_all_show_rest(ws);
    lemma_fill_start(ws, width);
    lemma_fill_count(ws.skip(1), width, ws[0]);
    assert(widths(ws).skip(1) =~= widths(ws.skip(1)));
    lemma_count_some(widths(ws).skip(1), width, visible(ws[0]));
}

/// A line that fits is left alone, and so is every line where there is no width.
pub proof fn law_fitting_line_is_left_alone(line: Seq<u8>, width: nat)
    requires
        width == 0 || visible(units(line)) <= width,
    ensures
        wrap(line, width) == seq![line],
{
}

pub open spec fn only_spaces(us: Seq<Seq<u8>>) -> bool {
    forall|i: int| 0 <= i < us.len() ==> #[trigger] us[i] == space()
}

/// The lines, each after its gap, and the last gap.
pub open spec fn interleaved(gaps: Seq<Seq<Seq<u8>>>, ls: Seq<Seq<Seq<u8>>>) -> Seq<Seq<u8>>
    decreases ls.len(),
{
    if ls.len() == 0 {
        gaps[0]
    } else {
        gaps[0] + ls[0] + interleaved(gaps.skip(1), ls.skip(1))
    }
}

/// Whether the lines are stretches of the units, one after another, with nothing
/// but spaces between them and around them.
pub open spec fn stretches(us: Seq<Seq<u8>>, ls: Seq<Seq<Seq<u8>>>) -> bool {
    exists|gaps: Seq<Seq<Seq<u8>>>|
        gaps.len() == ls.len() + 1 && (forall|i: int|
            0 <= i < gaps.len() ==> only_spaces(#[trigger] gaps[i])) && us == #[trigger] interleaved(
            gaps,
            ls,
        )
}

proof fn lemma_no_lines(us: Seq<Seq<u8>>)
    requires
        only_spaces(us),
    ensures
        stretches(us, seq![]),
{
    let gaps = seq![us];
    assert(gaps[0] == us);
    assert(us == interleaved(gaps, seq![]));
}

proof fn lemma_stretch(
    gap: Seq<Seq<u8>>,
    line: Seq<Seq<u8>>,
    rest: Seq<Seq<u8>>,
    ls: Seq<Seq<Seq<u8>>>,
)
    requires
        only_spaces(gap),
        stretches(rest, ls),
    ensures
        stretches(gap + line + rest, seq![line] + ls),
{
    let gaps = choose|gaps: Seq<Seq<Seq<u8>>>|
        gaps.len() == ls.len() + 1 && (forall|i: int|
            0 <= i < gaps.len() ==> only_spaces(#[trigger] gaps[i])) && rest
            == #[trigger] interleaved(gaps, ls);
    let all = seq![line] + ls;
    let more = seq![gap] + gaps;
    assert(all[0] == line);
    assert(all.skip(1) =~= ls);
    assert(more[0] == gap);
    assert(more.skip(1) =~= gaps);
    assert forall|i: int| 0 <= i < more.len() implies only_spaces(#[trigger] more[i]) by {
        if i > 0 {
            assert(more[i] == gaps[i - 1]);
        }
    }
    assert(gap + line + rest == interleaved(more, all));
}

proof fn lemma_stretches_after_space(us: Seq<Seq<u8>>, ls: Seq<Seq<Seq<u8>>>)
    requires
        stretches(us, ls),
    ensures
        stretches(seq![space()] + us, ls),
{
    let gaps = choose|gaps: Seq<Seq<Seq<u8>>>|
        gaps.len() == ls.len() + 1 && (forall|i: int|
            0 <= i < gaps.len() ==> only_spaces(#[trigger] gaps[i])) && us
            == #[trigger] interleaved(gaps, ls);
    let wider = seq![space()] + gaps[0];
    let more = gaps.update(0, wider);
    assert(only_spaces(gaps[0]));
    assert(only_spaces(wider)) by {
        assert forall|i: int| 0 <= i < wider.len() implies #[trigger] wider[i] == space() by {
            if i > 0 {
                assert(wider[i] == gaps[0][i - 1]);
            }
        }
    }
    assert forall|i: int| 0 <= i < more.len() implies only_spaces(#[trigger] more[i]) by {
        if i > 0 {
            assert(more[i] == gaps[i]);
        }
    }
    assert(more.skip(1) =~= gaps.skip(1));
    assert(seq![space()] + us =~= interleaved(more, ls));
}

proof fn lemma_stretches_front(line: Seq<Seq<u8>>, us: Seq<Seq<u8>>, ls: Seq<Seq<Seq<u8>>>)
    requires
        stretches(us, ls),
    ensures
        stretches(line + us, emit(line) + ls),
{
    if line.len() == 0 {
        assert(line + us =~= us);
        assert(emit(line) + ls =~= ls);
    } else {
        let none = Seq::<Seq<u8>>::empty();
        assert(only_spaces(none));
        lemma_stretch(none, line, us, ls);
        assert(none + line + us =~= line + us);
    }
}

spec fn no_escapes(us: Seq<Seq<u8>>) -> bool {
    forall|i: int| 0 <= i < us.len() ==> !csi(#[trigger] us[i])
}

proof fn lemma_all_visible(us: Seq<Seq<u8>>)
    requires
        no_escapes(us),
    ensures
        visible(us) == us.len(),
    decreases us.len(),
{
    if us.len() > 0 {
        assert(!csi(us[0]));
        assert forall|i: int| 0 <= i < us.skip(1).len() implies !csi(#[trigger] us.skip(1)[i]) by {
            assert(us.skip(1)[i] == us[i + 1]);
        }
        lemma_all_visible(us.skip(1));
    }
}

proof fn lemma_fill_stretches(ws: Seq<Seq<Seq<u8>>>, width: nat, line: Seq<Seq<u8>>)
    requires
        forall|i: int| 0 <= i < ws.len() ==> no_escapes(#[trigger] ws[i]),
        no_escapes(line),
    ensures
        ws.len() == 0 ==> stretches(line, fill(ws, width, line)),
        ws.len() > 0 ==> stretches(
            line + (seq![space()] + join(ws, seq![space()])),
            fill(ws, width, line),
        ),
    decreases ws.len(),
{
    let none = Seq::<Seq<u8>>::empty();
    let end = Seq::<Seq<Seq<u8>>>::empty();
    lemma_no_lines(none);
    lemma_all_visible(line);
    if ws.len() == 0 {
        lemma_stretches_front(line, none, end);
        assert(line + none =~= line);
        assert(emit(line) + end =~= emit(line));
    } else {
        let w = ws[0];
        let rest = ws.skip(1);
        let sp = seq![space()];
        let all = line + (sp + join(ws, sp));
        assert(no_escapes(w));
        lemma_all_visible(w);
        assert forall|i: int| 0 <= i < rest.len() implies no_escapes(#[trigger] rest[i]) by {
            assert(rest[i] == ws[i + 1]);
        }
        // What follows the word, with the word in front of it.
        let tail = if rest.len() == 0 { none } else { sp + join(rest, sp) };
        assert(join(ws, sp) == w + tail) by {
            if rest.len() == 0 {
                assert(w + none =~= w);
            } else {
                lemma_join_front(ws, sp);
            }
        }
        if ws.len() == 1 && visible(w) == 0 {
            assert(w =~= none);
            lemma_stretches_after_space(none, end);
            assert(sp + none =~= sp);
            lemma_stretches_front(line, sp, end);
            assert(all =~= line + sp);
            assert(line + w =~= line);
            assert(emit(line) + end =~= emit(line));
        } else if fits(line, w, width) {
            let next = glue(line, w);
            assert(no_escapes(next)) by {
                assert(space()[0] == SPACE);
                assert forall|i: int| 0 <= i < next.len() implies !csi(#[trigger] next[i]) by {
                    if i < line.len() {
                        assert(next[i] == line[i]);
                    } else if line.len() > 0 && i == line.len() {
                        assert(next[i] == space());
                    } else {
                        assert(next[i] == w[i - (next.len() - w.len())]);
                    }
                }
            }
            lemma_fill_stretches(rest, width, next);
            assert(stretches(next + tail, fill(rest, width, next))) by {
                if rest.len() == 0 {
                    assert(next + none =~= next);
                }
            }
            if line.len() > 0 {
                assert(all =~= next + tail);
            } else {
                lemma_stretches_after_space(next + tail, fill(rest, width, next));
                assert(next =~= w);
                assert(all =~= sp + (next + tail));
            }
        } else {
            lemma_fill_stretches(rest, width, w);
            let more = fill(rest, width, w);
            assert(stretches(w + tail, more)) by {
                if rest.len() == 0 {
                    assert(w + none =~= w);
                }
            }
            lemma_stretches_after_space(w + tail, more);
            lemma_stretches_front(line, sp + (w + tail), more);
        }
    }
}

/// Within a wrapped line nothing changes, not even the spaces: the lines of text
/// without escape sequences are stretches of it, in order, and only spaces are
/// left out, where it breaks.
pub proof fn law_wrapped_lines_are_stretches(line: Seq<u8>, width: nat)
    requires
        forall|i: int| 0 <= i < units(line).len() ==> !csi(#[trigger] units(line)[i]),
    ensures
        stretches(units(line), read_back(wrap(line, width))),
{
    let us = units(line);
    let ws = wrap(line, width);
    let none = Seq::<Seq<u8>>::empty();
    let end = Seq::<Seq<Seq<u8>>>::empty();
    lemma_no_lines(none);
    if width == 0 || visible(us) <= width {
        assert(read_back(ws) =~= seq![us]);
        assert(only_spaces(none));
        lemma_stretch(none, us, none, end);
        assert(none + us + none =~= us);
        assert(seq![us] + end =~= seq![us]);
    } else {
        let words = split(us, equal_to(space()));
        lemma_units_chained(line);
        lemma_split_words(us);
        lemma_fill(words, width, seq![]);
        let ls = fill(words, width, seq![]);
        assert(read_back(ws) =~= ls) by {
            assert forall|i: int| 0 <= i < ls.len() implies #[trigger] read_back(ws)[i] == ls[i] by {
                assert(line_ok(ls[i], width));
                lemma_units_of_chained(ls[i]);
            }
        }
        lemma_words_plain(us);
        law_join_undoes_split(us, space());
        lemma_split_some(us, equal_to(space()));
        lemma_first_word(words, width);
    }
}

proof fn lemma_words_plain(us: Seq<Seq<u8>>)
    requires
        no_escapes(us),
    ensures
        forall|i: int|
            0 <= i < split(us, equal_to(space())).len() ==> no_escapes(
                #[trigger] split(us, equal_to(space()))[i],
            ),
    decreases us.len(),
{
    let p = equal_to(space());
    let n = lead(us, not(p)) as int;
    lemma_lead_bounds(us, not(p));
    if n < us.len() {
        let rest = us.skip(n + 1);
        assert forall|i: int| 0 <= i < rest.len() implies !csi(#[trigger] rest[i]) by {
            assert(rest[i] == us[i + n + 1]);
        }
        lemma_words_plain(rest);
        let all = split(us, p);
        assert(all == seq![us.take(n)] + split(rest, p));
        assert forall|i: int| 0 <= i < all.len() implies no_escapes(#[trigger] all[i]) by {
            if i > 0 {
                assert(all[i] == split(rest, p)[i - 1]);
            } else {
                assert(all[0] == us.take(n));
                assert(no_escapes(us.take(n)));
            }
        }
    } else {
        assert(split(us, p) == seq![us]);
    }
}

/// The first line starts with the first word.
proof fn lemma_first_word(ws: Seq<Seq<Seq<u8>>>, width: nat)
    requires
        ws.len() > 0,
        forall|i: int| 0 <= i < ws.len() ==> no_escapes(#[trigger] ws[i]),
    ensures
        stretches(join(ws, seq![space()]), fill(ws, width, seq![])),
{
    let none = Seq::<Seq<u8>>::empty();
    let end = Seq::<Seq<Seq<u8>>>::empty();
    let sp = seq![space()];
    let w = ws[0];
    let rest = ws.skip(1);
    assert(no_escapes(w));
    lemma_all_visible(w);
    lemma_all_visible(none);
    assert forall|i: int| 0 <= i < rest.len() implies no_escapes(#[trigger] rest[i]) by {
        assert(rest[i] == ws[i + 1]);
    }
    lemma_fill_stretches(rest, width, w);
    assert(none + w =~= w);
    lemma_no_lines(none);
    if rest.len() > 0 {
        lemma_join_front(ws, sp);
    }
    if ws.len() == 1 && visible(w) == 0 {
        assert(w =~= none);
        assert(emit(none + w) =~= end);
    } else if !fits(none, w, width) {
        assert(emit(none) + fill(rest, width, w) =~= fill(rest, width, w));
    }
}

} // verus!
