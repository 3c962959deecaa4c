//! Terminal text: UTF-8 bytes with CSI escape sequences (`ESC [` … letter).
//!
//! A line of such text is read as a sequence of *units*. A unit is either one
//! whole escape sequence, which takes no column, or the bytes of one
//! character, which takes one column.

use crate::text::{lead, lemma_lead, lemma_lead_bounds, not};
use vstd::prelude::*;
use vstd::slice::slice_subrange;

verus! {

pub const ESC: u8 = 0x1b;

pub const BRACKET: u8 = 0x5b;

pub const SPACE: u8 = 0x20;

// ---------------------------------------------------------------------------
// Units

pub open spec fn letter(b: u8) -> bool {
    0x41 <= b <= 0x5a || 0x61 <= b <= 0x7a
}

pub open spec fn letters() -> spec_fn(u8) -> bool {
    |b: u8| letter(b)
}

/// Whether an escape sequence starts at the head of `s`.
pub open spec fn csi(s: Seq<u8>) -> bool {
    s.len() >= 2 && s[0] == ESC && s[1] == BRACKET
}

/// Length of the escape sequence at the head of `s`: up to and including the
/// first letter after `ESC [`, or all of `s` when there is none.
pub open spec fn csi_len(s: Seq<u8>) -> nat {
    let n = 2 + lead(s.skip(2), not(letters()));
    if n < s.len() {
        n + 1
    } else {
        n
    }
}

/// Bytes that the character with this first byte takes; a stray continuation
/// byte counts as a character of its own.
pub open spec fn char_len(first: u8) -> nat {
    if first < 0xc0 {
        1
    } else if first < 0xe0 {
        2
    } else if first < 0xf0 {
        3
    } else {
        4
    }
}

/// Length of the unit at the head of `s`; a character cut off by the end of
/// the text takes what is left.
pub open spec fn unit_len(s: Seq<u8>) -> nat {
    if csi(s) {
        csi_len(s)
    } else if char_len(s[0]) <= s.len() {
        char_len(s[0])
    } else {
        s.len()
    }
}

/// The units of `s`, in order.
pub open spec fn units(s: Seq<u8>) -> Seq<Seq<u8>>
    decreases s.len(),
{
    if s.len() == 0 {
        seq![]
    } else {
        proof {
            lemma_unit_len(s);
        }
        let n = unit_len(s) as int;
        seq![s.take(n)] + units(s.skip(n))
    }
}

/// How many of the units are characters.
pub open spec fn visible(us: Seq<Seq<u8>>) -> nat
    decreases us.len(),
{
    if us.len() == 0 {
        0
    } else if csi(us[0]) {
        visible(us.skip(1))
    } else {
        1 + visible(us.skip(1))
    }
}

pub proof fn lemma_unit_len(s: Seq<u8>)
    requires
        s.len() > 0,
    ensures
        1 <= unit_len(s) <= s.len(),
        csi(s) ==> 2 <= csi_len(s) <= s.len(),
{
    if csi(s) {
        lemma_lead_bounds(s.skip(2), not(letters()));
    }
}

/// Bytes of the character that starts with `lead`.
pub fn utf8_char_len(lead: u8) -> (n: usize)
    ensures
        n == char_len(lead),
{
    if lead < 0xc0 {
        1
    } else if lead < 0xe0 {
        2
    } else if lead < 0xf0 {
        3
    } else {
        4
    }
}

/// End of the escape sequence that starts at `i`.
pub(crate) fn csi_end(bytes: &[u8], i: usize) -> (end: usize)
    requires
        i < bytes@.len(),
        csi(bytes@.skip(i as int)),
    ensures
        end == i + csi_len(bytes@.skip(i as int)),
        i + 2 <= end <= bytes@.len(),
{
    let ghost rest = bytes@.skip(i as int);
    assert(i + 2 <= bytes.len());
    let mut j: usize = i + 2;
    while j < bytes.len() && !(0x41 <= bytes[j] && bytes[j] <= 0x5a) && !(0x61 <= bytes[j]
        && bytes[j] <= 0x7a)
        invariant
            i + 2 <= j <= bytes@.len(),
            forall|k: int| i + 2 <= k < j ==> !letter(#[trigger] bytes@[k]),
        decreases bytes.len() - j,
    {
        j += 1;
    }
    proof {
        let tail = rest.skip(2);
        assert forall|k: int| 0 <= k < j - i - 2 implies not(letters())(#[trigger] tail[k]) by {
            assert(tail[k] == bytes@[i + 2 + k]);
        }
        lemma_lead(tail, not(letters()), j - i - 2);
    }
    if j < bytes.len() {
        j + 1
    } else {
        j
    }
}

/// Whether an escape sequence starts at `i`.
pub(crate) fn csi_at(bytes: &[u8], i: usize) -> (r: bool)
    requires
        i < bytes@.len(),
    ensures
        r == csi(bytes@.skip(i as int)),
{
    bytes[i] == ESC && i + 1 < bytes.len() && bytes[i + 1] == BRACKET
}

/// End of the unit that starts at `i`.
pub(crate) fn unit_end(bytes: &[u8], i: usize) -> (end: usize)
    requires
        i < bytes@.len(),
    ensures
        end == i + unit_len(bytes@.skip(i as int)),
        i < end <= bytes@.len(),
{
    if csi_at(bytes, i) {
        csi_end(bytes, i)
    } else {
        let n = utf8_char_len(bytes[i]);
        if n <= bytes.len() - i {
            i + n
        } else {
            bytes.len()
        }
    }
}

/// Stepping over one unit.
pub proof fn lemma_units_step(s: Seq<u8>, i: int)
    requires
        0 <= i < s.len(),
    ensures
        ({
            let n = unit_len(s.skip(i)) as int;
            &&& 1 <= n <= s.len() - i
            &&& units(s.skip(i)) == seq![s.subrange(i, i + n)] + units(s.skip(i + n))
            &&& csi(s.skip(i)) == csi(s.subrange(i, i + n))
        }),
{
    let t = s.skip(i);
    lemma_unit_len(t);
    let n = unit_len(t) as int;
    assert(t.take(n) == s.subrange(i, i + n));
    assert(t.skip(n) == s.skip(i + n));
    if csi(t) {
    } else if csi(s.subrange(i, i + n)) {
        assert(t[0] == s.subrange(i, i + n)[0]);
        assert(t[1] == s.subrange(i, i + n)[1]);
    }
}

/// Columns that the text takes: its characters, without escape sequences.
pub fn visible_width(bytes: &[u8]) -> (w: usize)
    ensures
        w == visible(units(bytes@)),
        w <= bytes@.len(),
{
    let mut w: usize = 0;
    let mut i: usize = 0;
    assert(bytes@.skip(0) == bytes@);
    while i < bytes.len()
        invariant
            w <= i <= bytes@.len(),
            visible(units(bytes@)) == w + visible(units(bytes@.skip(i as int))),
        decreases bytes.len() - i,
    {
        proof {
            lemma_units_step(bytes@, i as int);
            let us = units(bytes@.skip(i as int));
            let n = unit_len(bytes@.skip(i as int)) as int;
            assert(us.skip(1) == units(bytes@.skip(i + n)));
        }
        if !csi_at(bytes, i) {
            w += 1;
        }
        i = unit_end(bytes, i);
    }
    w
}

// ---------------------------------------------------------------------------
// Stripping

/// The bytes outside escape sequences.
pub open spec fn strip_csi(s: Seq<u8>) -> Seq<u8>
    decreases s.len(),
{
    if s.len() == 0 {
        seq![]
    } else if csi(s) {
        proof {
            lemma_unit_len(s);
        }
        strip_csi(s.skip(csi_len(s) as int))
    } else {
        seq![s[0]] + strip_csi(s.skip(1))
    }
}

pub fn strip_escapes(bytes: &[u8]) -> (out: Vec<u8>)
    ensures
        out@ == strip_csi(bytes@),
{
    let mut out: Vec<u8> = Vec::with_capacity(bytes.len());
    let mut i: usize = 0;
    assert(bytes@.skip(0) == bytes@);
    while i < bytes.len()
        invariant
            i <= bytes@.len(),
            strip_csi(bytes@) == out@ + strip_csi(bytes@.skip(i as int)),
        decreases bytes.len() - i,
    {
        let ghost rest = bytes@.skip(i as int);
        if csi_at(bytes, i) {
            let end = csi_end(bytes, i);
            assert(rest.skip(csi_len(rest) as int) == bytes@.skip(end as int));
            i = end;
        } else {
            assert(rest.skip(1) == bytes@.skip(i + 1));
            out.push(bytes[i]);
            i += 1;
        }
    }
    out
}

// ---------------------------------------------------------------------------
// Truncation

/// All escape sequences, and the first `max` characters.
pub open spec fn keep(us: Seq<Seq<u8>>, max: nat) -> Seq<Seq<u8>>
    decreases us.len(),
{
    if us.len() == 0 {
        seq![]
    } else if csi(us[0]) {
        seq![us[0]] + keep(us.skip(1), max)
    } else if max > 0 {
        seq![us[0]] + keep(us.skip(1), (max - 1) as nat)
    } else {
        keep(us.skip(1), max)
    }
}

/// Truncates the text to `max` columns. All escape sequences are preserved,
/// so that what was switched on before the cut is still switched off after it.
pub fn truncate_ansi(bytes: &[u8], max: usize) -> (out: Vec<u8>)
    ensures
        out@ == keep(units(bytes@), max as nat).flatten(),
{
    let mut out: Vec<u8> = Vec::with_capacity(bytes.len());
    let mut room: usize = max;
    let mut i: usize = 0;
    assert(bytes@.skip(0) == bytes@);
    while i < bytes.len()
        invariant
            i <= bytes@.len(),
            keep(units(bytes@), max as nat).flatten() == out@ + keep(
                units(bytes@.skip(i as int)),
                room as nat,
            ).flatten(),
        decreases bytes.len() - i,
    {
        let ghost us = units(bytes@.skip(i as int));
        let end = unit_end(bytes, i);
        let unit = slice_subrange(bytes, i, end);
        proof {
            lemma_units_step(bytes@, i as int);
            assert(us.skip(1) == units(bytes@.skip(end as int)));
            let k = keep(us, room as nat);
            if csi(us[0]) || room > 0 {
                assert(k.drop_first() == keep(
                    us.skip(1),
                    if csi(us[0]) { room as nat } else { (room - 1) as nat },
                ));
            }
        }
        if csi_at(bytes, i) {
            out.extend_from_slice(unit);
        } else if room > 0 {
            out.extend_from_slice(unit);
            room -= 1;
        }
        i = end;
        assert(keep(units(bytes@), max as nat).flatten() =~= out@ + keep(
            units(bytes@.skip(i as int)),
            room as nat,
        ).flatten());
    }
    assert(out@ + Seq::<u8>::empty() == out@);
    out
}


// ---------------------------------------------------------------------------
// Background injection

/// `ESC [ 0 m`
pub open spec fn sgr_reset() -> Seq<u8> {
    seq![ESC, BRACKET, 0x30, 0x6d]
}

/// `ESC [ m`
pub open spec fn sgr_reset_short() -> Seq<u8> {
    seq![ESC, BRACKET, 0x6d]
}

/// `src` with `bg` after each of its resets.
pub open spec fn inject(src: Seq<u8>, bg: Seq<u8>) -> Seq<u8>
    decreases src.len(),
{
    if src.len() == 0 {
        seq![]
    } else if sgr_reset().is_prefix_of(src) {
        sgr_reset() + bg + inject(src.skip(4), bg)
    } else if sgr_reset_short().is_prefix_of(src) {
        sgr_reset_short() + bg + inject(src.skip(3), bg)
    } else {
        seq![src[0]] + inject(src.skip(1), bg)
    }
}

/// Copies `src` into `dst`, with `bg` after every reset embedded in `src`, so
/// that a background set before it survives the resets.
pub fn inject_bg_into(dst: &mut Vec<u8>, src: &[u8], bg: &[u8])
    ensures
        final(dst)@ == old(dst)@ + inject(src@, bg@),
{
    let mut i: usize = 0;
    assert(src@.skip(0) == src@);
    assert(dst@ + inject(src@, bg@) == old(dst)@ + inject(src@, bg@));
    while i < src.len()
        invariant
            i <= src@.len(),
            dst@ + inject(src@.skip(i as int), bg@) == old(dst)@ + inject(src@, bg@),
        decreases src.len() - i,
    {
        let ghost rest = src@.skip(i as int);
        let ghost before = dst@;
        let left = src.len() - i;
        let opens = left >= 3 && src[i] == ESC && src[i + 1] == BRACKET;
        proof {
            if opens {
                assert(rest.subrange(0, 3) =~= seq![ESC, BRACKET, rest[2]]);
                if left >= 4 {
                    assert(rest.subrange(0, 4) =~= seq![ESC, BRACKET, rest[2], rest[3]]);
                    assert(sgr_reset().is_prefix_of(rest) == (rest[2] == 0x30 && rest[3] == 0x6d)) by {
                        if sgr_reset().is_prefix_of(rest) {
                            assert(sgr_reset()[2] == rest.subrange(0, 4)[2]);
                            assert(sgr_reset()[3] == rest.subrange(0, 4)[3]);
                        }
                    }
                }
                assert(sgr_reset_short().is_prefix_of(rest) == (rest[2] == 0x6d)) by {
                    if sgr_reset_short().is_prefix_of(rest) {
                        assert(sgr_reset_short()[2] == rest.subrange(0, 3)[2]);
                    }
                }
            } else {
                if sgr_reset().is_prefix_of(rest) {
                    assert(sgr_reset()[0] == rest.subrange(0, 4)[0]);
                    assert(sgr_reset()[1] == rest.subrange(0, 4)[1]);
                }
                if sgr_reset_short().is_prefix_of(rest) {
                    assert(sgr_reset_short()[0] == rest.subrange(0, 3)[0]);
                    assert(sgr_reset_short()[1] == rest.subrange(0, 3)[1]);
                }
            }
        }
        if opens && left >= 4 && src[i + 2] == 0x30 && src[i + 3] == 0x6d {
            dst.extend_from_slice(slice_subrange(src, i, i + 4));
            dst.extend_from_slice(bg);
            proof {
                assert(src@.subrange(i as int, i + 4) =~= sgr_reset());
                assert(rest.skip(4) == src@.skip(i + 4));
                assert(dst@ =~= before + (sgr_reset() + bg@));
                assert(dst@ + inject(src@.skip(i + 4), bg@) =~= before + inject(rest, bg@));
            }
            i += 4;
        } else if opens && src[i + 2] == 0x6d {
            dst.extend_from_slice(slice_subrange(src, i, i + 3));
            dst.extend_from_slice(bg);
            proof {
                assert(src@.subrange(i as int, i + 3) =~= sgr_reset_short());
                assert(rest.skip(3) == src@.skip(i + 3));
                assert(dst@ =~= before + (sgr_reset_short() + bg@));
                assert(dst@ + inject(src@.skip(i + 3), bg@) =~= before + inject(rest, bg@));
            }
            i += 3;
        } else {
            dst.push(src[i]);
            proof {
                assert(rest.skip(1) == src@.skip(i + 1));
                assert(dst@ + inject(src@.skip(i + 1), bg@) =~= before + inject(rest, bg@));
            }
            i += 1;
        }
    }
    assert(dst@ + inject(src@.skip(i as int), bg@) =~= dst@);
}

// ---------------------------------------------------------------------------
// Laws

/// One complete escape sequence: it ends with its only letter.
pub open spec fn escape(u: Seq<u8>) -> bool {
    &&& csi(u)
    &&& u.len() >= 3
    &&& letter(u.last())
    &&& forall|k: int| 2 <= k < u.len() - 1 ==> !letter(#[trigger] u[k])
}

/// What follows the escape sequence that `t` is the inside of.
spec fn after(t: Seq<u8>) -> Seq<u8>
    decreases t.len(),
{
    if t.len() == 0 {
        t
    } else if letter(t[0]) {
        t.skip(1)
    } else {
        after(t.skip(1))
    }
}

proof fn lemma_after(t: Seq<u8>)
    ensures
        ({
            let n = lead(t, not(letters())) as int;
            after(t) == (if n < t.len() { t.skip(n + 1) } else { t.skip(n) })
        }),
    decreases t.len(),
{
    if t.len() == 0 {
        assert(t.skip(0) == t);
    } else if !letter(t[0]) {
        let r = t.skip(1);
        lemma_after(r);
        lemma_lead_bounds(r, not(letters()));
        let n = lead(r, not(letters())) as int;
        if n < r.len() {
            assert(r.skip(n + 1) == t.skip(n + 2));
        } else {
            assert(r.skip(n) == t.skip(n + 1));
        }
    }
}

proof fn lemma_strip_csi(s: Seq<u8>)
    requires
        csi(s),
    ensures
        strip_csi(s) == strip_csi(after(s.skip(2))),
{
    let t = s.skip(2);
    lemma_after(t);
    lemma_lead_bounds(t, not(letters()));
    let n = lead(t, not(letters())) as int;
    if n < t.len() {
        assert(t.skip(n + 1) == s.skip(n + 3));
    } else {
        assert(t.skip(n) == s.skip(n + 2));
    }
}

/// An escape sequence strips away, whatever follows it.
pub proof fn law_strip_escape(u: Seq<u8>, s: Seq<u8>)
    requires
        escape(u),
    ensures
        strip_csi(u + s) == strip_csi(s),
{
    let t = u + s;
    let n = u.len() - 3;
    assert forall|k: int| 0 <= k < n implies not(letters())(#[trigger] t.skip(2)[k]) by {
        assert(t.skip(2)[k] == u[k + 2]);
    }
    lemma_lead(t.skip(2), not(letters()), n);
    assert(t.skip(u.len() as int) == s);
}

proof fn lemma_inject_first(s: Seq<u8>, bg: Seq<u8>)
    requires
        s.len() > 0,
    ensures
        inject(s, bg).len() > 0,
        inject(s, bg)[0] == s[0],
{
    if sgr_reset().is_prefix_of(s) {
        assert(sgr_reset()[0] == s.subrange(0, 4)[0]);
    } else if sgr_reset_short().is_prefix_of(s) {
        assert(sgr_reset_short()[0] == s.subrange(0, 3)[0]);
    }
}

proof fn lemma_after_inject(t: Seq<u8>, bg: Seq<u8>)
    requires
        escape(bg),
    ensures
        strip_csi(after(inject(t, bg))) == strip_csi(after(t)),
    decreases t.len(), 0int,
{
    if t.len() == 0 {
    } else if sgr_reset().is_prefix_of(t) || sgr_reset_short().is_prefix_of(t) {
        let n: int = if sgr_reset().is_prefix_of(t) { 4 } else { 3 };
        let head = t.take(n);
        let x = inject(t.skip(n), bg);
        assert(inject(t, bg) =~= head + (bg + x));
        assert(t =~= head + t.skip(n));
        if n == 4 {
            assert(head =~= sgr_reset());
        } else {
            assert(head =~= sgr_reset_short());
        }
        lemma_after_head(head, bg + x);
        lemma_after_head(head, t.skip(n));
        law_strip_escape(bg, x);
        law_injection_keeps_text(t.skip(n), bg);
    } else {
        let r = t.skip(1);
        assert(inject(t, bg).skip(1) =~= inject(r, bg));
        if letter(t[0]) {
            law_injection_keeps_text(r, bg);
        } else {
            lemma_after_inject(r, bg);
        }
    }
}

proof fn lemma_after_head(head: Seq<u8>, s: Seq<u8>)
    requires
        head == sgr_reset() || head == sgr_reset_short(),
    ensures
        after(head + s) == s,
{
    let t = head + s;
    let n = head.len() - 1;
    assert forall|k: int| 0 <= k < n implies not(letters())(#[trigger] t[k]) by {
        assert(t[k] == head[k]);
    }
    assert(t[n] == 0x6d);
    lemma_lead(t, not(letters()), n);
    lemma_after(t);
    assert(t.skip(n + 1) == s);
}

/// Injecting a background that is one escape sequence changes no text: with
/// the escape sequences stripped, the two are the same.
pub proof fn law_injection_keeps_text(src: Seq<u8>, bg: Seq<u8>)
    requires
        escape(bg),
    ensures
        strip_csi(inject(src, bg)) == strip_csi(src),
    decreases src.len(), 1int,
{
    let out = inject(src, bg);
    if src.len() == 0 {
    } else if sgr_reset().is_prefix_of(src) || sgr_reset_short().is_prefix_of(src) {
        let n: int = if sgr_reset().is_prefix_of(src) { 4 } else { 3 };
        let head = src.take(n);
        let x = inject(src.skip(n), bg);
        assert(out =~= head + (bg + x));
        assert(src =~= head + src.skip(n));
        if n == 4 {
            assert(head =~= sgr_reset());
        } else {
            assert(head =~= sgr_reset_short());
        }
        assert(escape(head));
        law_strip_escape(head, bg + x);
        law_strip_escape(bg, x);
        law_strip_escape(head, src.skip(n));
        law_injection_keeps_text(src.skip(n), bg);
    } else if csi(src) {
        let r1 = src.skip(1);
        let r2 = src.skip(2);
        assert(r1.skip(1) == r2);
        assert(r1[0] == BRACKET);
        if sgr_reset().is_prefix_of(r1) {
            assert(sgr_reset()[0] == r1.subrange(0, 4)[0]);
        }
        if sgr_reset_short().is_prefix_of(r1) {
            assert(sgr_reset_short()[0] == r1.subrange(0, 3)[0]);
        }
        assert(inject(r1, bg) == seq![BRACKET] + inject(r2, bg));
        assert(out =~= seq![ESC] + (seq![BRACKET] + inject(r2, bg)));
        assert(csi(out));
        assert(out.skip(2) =~= inject(r2, bg));
        lemma_strip_csi(out);
        lemma_strip_csi(src);
        lemma_after_inject(r2, bg);
    } else {
        let r = src.skip(1);
        assert(out.skip(1) =~= inject(r, bg));
        if r.len() > 0 {
            lemma_inject_first(r, bg);
            assert(out[1] == r[0]);
        }
        law_injection_keeps_text(r, bg);
    }
}

/// Text without `ESC [` is not changed by stripping.
pub proof fn law_strip_plain(s: Seq<u8>)
    requires
        forall|k: int| 0 <= k < s.len() - 1 ==> !(#[trigger] s[k] == ESC && s[k + 1] == BRACKET),
    ensures
        strip_csi(s) == s,
    decreases s.len(),
{
    if s.len() > 0 {
        let t = s.skip(1);
        assert forall|k: int| 0 <= k < t.len() - 1 implies !(#[trigger] t[k] == ESC && t[k + 1]
            == BRACKET) by {
            assert(t[k] == s[k + 1]);
        }
        law_strip_plain(t);
        assert(seq![s[0]] + t =~= s);
    }
}

// ---------------------------------------------------------------------------
// Reading units back

/// Whether `u` is exactly one unit.
pub open spec fn unit(u: Seq<u8>) -> bool {
    u.len() > 0 && unit_len(u) == u.len()
}

/// Whether `u` is one unit whatever follows it.
pub open spec fn whole(u: Seq<u8>) -> bool {
    ||| escape(u)
    ||| u.len() > 0 && u[0] != ESC && u.len() == char_len(u[0])
}

/// Whether `v` directly after `u` leaves `u` a unit of its own. A lone `ESC`
/// is one as long as no `[` follows.
pub open spec fn parts_from(u: Seq<u8>, v: Seq<u8>) -> bool {
    whole(u) || (u == seq![ESC] && v.len() > 0 && v[0] != BRACKET)
}

/// Whether the units stay apart when they are written one after another.
pub open spec fn chained(us: Seq<Seq<u8>>) -> bool {
    &&& forall|i: int| 0 <= i < us.len() ==> unit(#[trigger] us[i])
    &&& forall|i: int| 0 <= i < us.len() - 1 ==> parts_from(#[trigger] us[i], us[i + 1])
}

proof fn lemma_whole_len(u: Seq<u8>, s: Seq<u8>)
    requires
        whole(u),
    ensures
        unit_len(u + s) == u.len(),
        unit(u),
{
    let t = u + s;
    if escape(u) {
        let n = u.len() - 3;
        assert forall|k: int| 0 <= k < n implies not(letters())(#[trigger] t.skip(2)[k]) by {
            assert(t.skip(2)[k] == u[k + 2]);
        }
        lemma_lead(t.skip(2), not(letters()), n);
        assert forall|k: int| 0 <= k < n implies not(letters())(#[trigger] u.skip(2)[k]) by {
            assert(u.skip(2)[k] == u[k + 2]);
        }
        lemma_lead(u.skip(2), not(letters()), n);
    } else {
        assert(t[0] == u[0]);
    }
}

/// Chained units read back as themselves.
pub proof fn lemma_units_of_chained(us: Seq<Seq<u8>>)
    requires
        chained(us),
    ensures
        units(us.flatten()) == us,
    decreases us.len(),
{
    let s = us.flatten();
    if us.len() == 0 {
    } else {
        let u = us[0];
        let rest = us.drop_first();
        let t = rest.flatten();
        assert(s == u + t);
        assert forall|i: int| 0 <= i < rest.len() implies unit(#[trigger] rest[i]) by {
            assert(rest[i] == us[i + 1]);
        }
        assert forall|i: int| 0 <= i < rest.len() - 1 implies parts_from(
            #[trigger] rest[i],
            rest[i + 1],
        ) by {
            assert(rest[i] == us[i + 1]);
        }
        lemma_units_of_chained(rest);
        assert(unit(us[0]));
        if rest.len() == 0 {
            assert(s =~= u);
        } else {
            assert(parts_from(us[0], us[1]));
            if whole(u) {
                lemma_whole_len(u, t);
            } else {
                assert(rest[0] == us[1]);
                assert(unit(us[1]));
                assert(t[0] == us[1][0]);
                assert(s[1] == us[1][0]);
            }
        }
        assert(unit_len(s) == u.len());
        assert(s.take(u.len() as int) =~= u);
        assert(s.skip(u.len() as int) =~= t);
        assert(seq![u] + rest =~= us);
    }
}

/// The units of a text are chained, and written one after another they are
/// the text.
pub proof fn lemma_units_chained(s: Seq<u8>)
    ensures
        chained(units(s)),
        units(s).flatten() == s,
    decreases s.len(),
{
    if s.len() > 0 {
        lemma_unit_len(s);
        let n = unit_len(s) as int;
        let u = s.take(n);
        let t = s.skip(n);
        let us = units(s);
        let rest = units(t);
        lemma_units_chained(t);
        assert(us.drop_first() =~= rest);
        assert(u + t =~= s);
        assert(unit(u)) by {
            if csi(s) {
                lemma_lead_bounds(s.skip(2), not(letters()));
                let m = lead(s.skip(2), not(letters())) as int;
                assert forall|k: int| 0 <= k < m implies not(letters())(#[trigger] u.skip(2)[k]) by {
                    assert(u.skip(2)[k] == s.skip(2)[k]);
                }
                if m + 2 < s.len() {
                    assert(u.skip(2)[m] == s.skip(2)[m]);
                }
                lemma_lead(u.skip(2), not(letters()), m);
            } else {
                if csi(u) {
                    assert(s[0] == u[0] && s[1] == u[1]);
                }
            }
        }
        if t.len() > 0 {
            lemma_unit_len(t);
            assert(rest[0] == t.take(unit_len(t) as int));
            assert(rest[0][0] == t[0]);
            assert(parts_from(u, rest[0])) by {
                if csi(s) {
                    lemma_lead_bounds(s.skip(2), not(letters()));
                    let m = lead(s.skip(2), not(letters())) as int;
                    assert(n == m + 3);
                    assert(u.last() == s.skip(2)[m]);
                    assert forall|k: int| 2 <= k < u.len() - 1 implies !letter(#[trigger] u[k]) by {
                        assert(u[k] == s.skip(2)[k - 2]);
                    }
                } else if s[0] == ESC {
                    assert(u =~= seq![ESC]);
                    assert(t[0] == s[1]);
                } else {
                    assert(u[0] == s[0]);
                }
            }
        }
        assert forall|i: int| 0 <= i < us.len() implies unit(#[trigger] us[i]) by {
            if i > 0 {
                assert(us[i] == rest[i - 1]);
            }
        }
        assert forall|i: int| 0 <= i < us.len() - 1 implies parts_from(#[trigger] us[i], us[i + 1]) by {
            if i > 0 {
                assert(us[i] == rest[i - 1]);
                assert(us[i + 1] == rest[i]);
            }
        }
    }
}

proof fn lemma_keep_chained(us: Seq<Seq<u8>>, max: nat)
    requires
        chained(us),
    ensures
        chained(keep(us, max)),
        keep(us, max).len() > 0 ==> keep(us, max)[0] == us[0] || csi(keep(us, max)[0]),
        visible(keep(us, max)) == (if visible(us) <= max { visible(us) } else { max }),
    decreases us.len(),
{
    if us.len() > 0 {
        let rest = us.skip(1);
        assert forall|i: int| 0 <= i < rest.len() implies unit(#[trigger] rest[i]) by {
            assert(rest[i] == us[i + 1]);
        }
        assert forall|i: int| 0 <= i < rest.len() - 1 implies parts_from(
            #[trigger] rest[i],
            rest[i + 1],
        ) by {
            assert(rest[i] == us[i + 1]);
        }
        let m = if csi(us[0]) || max == 0 { max } else { (max - 1) as nat };
        let tail = keep(rest, m);
        lemma_keep_chained(rest, m);
        if csi(us[0]) || max > 0 {
            let k = keep(us, max);
            assert(k == seq![us[0]] + tail);
            assert(k.skip(1) =~= tail);
            assert forall|i: int| 0 <= i < k.len() implies unit(#[trigger] k[i]) by {
                if i > 0 {
                    assert(k[i] == tail[i - 1]);
                }
            }
            assert forall|i: int| 0 <= i < k.len() - 1 implies parts_from(#[trigger] k[i], k[i + 1]) by {
                if i > 0 {
                    assert(k[i] == tail[i - 1]);
                    assert(k[i + 1] == tail[i]);
                } else {
                    assert(parts_from(us[0], us[1]));
                    assert(unit(tail[0]));
                }
            }
        }
    }
}

/// Truncated text takes as many columns as the text does, but never more than
/// it was truncated to.
pub proof fn law_truncated_width(bytes: Seq<u8>, max: nat)
    ensures
        ({
            let full = visible(units(bytes));
            visible(units(keep(units(bytes), max).flatten())) == (if full <= max {
                full
            } else {
                max
            })
        }),
{
    lemma_units_chained(bytes);
    lemma_keep_chained(units(bytes), max);
    lemma_units_of_chained(keep(units(bytes), max));
}

proof fn lemma_keep_all(us: Seq<Seq<u8>>, max: nat)
    requires
        visible(us) <= max,
    ensures
        keep(us, max) == us,
    decreases us.len(),
{
    if us.len() > 0 {
        lemma_keep_all(us.skip(1), if csi(us[0]) { max } else { (max - 1) as nat });
        assert(seq![us[0]] + us.skip(1) =~= us);
    } else {
        assert(us =~= seq![]);
    }
}

/// The escape sequences among the units.
pub open spec fn escapes(us: Seq<Seq<u8>>) -> Seq<Seq<u8>> {
    us.filter(|u: Seq<u8>| csi(u))
}

proof fn lemma_keep_escapes(us: Seq<Seq<u8>>, max: nat)
    ensures
        escapes(keep(us, max)) == escapes(us),
    decreases us.len(),
{
    if us.len() > 0 {
        let p = |u: Seq<u8>| csi(u);
        let m = if csi(us[0]) || max == 0 { max } else { (max - 1) as nat };
        lemma_keep_escapes(us.skip(1), m);
        assert(us =~= seq![us[0]] + us.skip(1));
        Seq::filter_distributes_over_add(seq![us[0]], us.skip(1), p);
        Seq::filter_distributes_over_add(seq![us[0]], keep(us.skip(1), m), p);
        assert(seq![us[0]].filter(p) == (if csi(us[0]) { seq![us[0]] } else { seq![] })) by {
            reveal(Seq::filter);
            assert(seq![us[0]].drop_last() =~= seq![]);
            assert(seq![us[0]].drop_last().filter(p) =~= seq![]);
        }
        assert(Seq::<Seq<u8>>::empty() + escapes(us.skip(1)) =~= escapes(us.skip(1)));
    }
}

/// Truncation preserves every escape sequence, in order.
pub proof fn law_truncation_keeps_escapes(bytes: Seq<u8>, max: nat)
    ensures
        escapes(units(keep(units(bytes), max).flatten())) == escapes(units(bytes)),
{
    lemma_units_chained(bytes);
    lemma_keep_chained(units(bytes), max);
    lemma_units_of_chained(keep(units(bytes), max));
    lemma_keep_escapes(units(bytes), max);
}

/// Text that fits is not changed by truncation.
pub proof fn law_truncation_of_short_text(bytes: Seq<u8>, max: nat)
    requires
        visible(units(bytes)) <= max,
    ensures
        keep(units(bytes), max).flatten() == bytes,
{
    lemma_units_chained(bytes);
    lemma_keep_all(units(bytes), max);
}

/// How text is measured, from the front: a complete escape sequence takes no
/// column, and a character takes one, of as many bytes as its first byte tells.
pub proof fn law_width_counts_characters(u: Seq<u8>, s: Seq<u8>)
    ensures
        visible(units(seq![])) == 0,
        u.len() >= 3 && u[0] == 0x1b && u[1] == 0x5b && ((0x41 <= u.last() && u.last() <= 0x5a) || (
        0x61 <= u.last() && u.last() <= 0x7a)) && (forall|k: int|
            #![trigger u[k]]
            2 <= k < u.len() - 1 ==> !(0x41 <= u[k] && u[k] <= 0x5a) && !(0x61 <= u[k] && u[k]
                <= 0x7a)) ==> units(u + s) == seq![u] + units(s) && visible(units(u + s))
            == visible(units(s)),
        u.len() > 0 && u[0] != 0x1b && u.len() == (if u[0] < 0xc0 {
            1int
        } else if u[0] < 0xe0 {
            2
        } else if u[0] < 0xf0 {
            3
        } else {
            4
        }) ==> units(u + s) == seq![u] + units(s) && visible(units(u + s)) == 1 + visible(
            units(s),
        ),
{
    if whole(u) {
        lemma_whole_len(u, s);
        let t = u + s;
        assert(t.take(u.len() as int) =~= u);
        assert(t.skip(u.len() as int) =~= s);
        let us = seq![u] + units(s);
        assert(us.skip(1) =~= units(s));
        assert(us[0] == u);
        if csi(u) {
            assert(escape(u));
        } else if csi(t) {
            assert(t[0] == u[0]);
        }
    }
}

/// The characters among the units.
pub open spec fn characters(us: Seq<Seq<u8>>) -> Seq<Seq<u8>> {
    us.filter(|u: Seq<u8>| !csi(u))
}

proof fn lemma_characters_step(us: Seq<Seq<u8>>)
    requires
        us.len() > 0,
    ensures
        characters(us) == (if csi(us[0]) {
            characters(us.skip(1))
        } else {
            seq![us[0]] + characters(us.skip(1))
        }),
{
    let p = |u: Seq<u8>| !csi(u);
    assert(us =~= seq![us[0]] + us.skip(1));
    Seq::filter_distributes_over_add(seq![us[0]], us.skip(1), p);
    assert(seq![us[0]].filter(p) == (if csi(us[0]) { seq![] } else { seq![us[0]] })) by {
        reveal(Seq::filter);
        assert(seq![us[0]].drop_last() =~= seq![]);
        assert(seq![us[0]].drop_last().filter(p) =~= seq![]);
    }
    assert(Seq::<Seq<u8>>::empty() + characters(us.skip(1)) =~= characters(us.skip(1)));
}

proof fn lemma_keep_characters(us: Seq<Seq<u8>>, max: nat)
    ensures
        characters(keep(us, max)) == characters(us).take(
            if characters(us).len() <= max { characters(us).len() as int } else { max as int },
        ),
    decreases us.len(),
{
    let all = characters(us);
    let n = if all.len() <= max { all.len() as int } else { max as int };
    if us.len() == 0 {
        reveal(Seq::filter);
        assert(characters(keep(us, max)) =~= all.take(n));
    } else {
        let rest = us.skip(1);
        lemma_characters_step(us);
        if csi(us[0]) || max > 0 {
            let m = if csi(us[0]) { max } else { (max - 1) as nat };
            let out = seq![us[0]] + keep(rest, m);
            lemma_keep_characters(rest, m);
            assert(out.skip(1) =~= keep(rest, m));
            lemma_characters_step(out);
            assert(characters(out) =~= all.take(n));
        } else {
            lemma_keep_characters(rest, max);
            assert(characters(keep(us, max)) =~= all.take(n));
        }
    }
}

/// Truncation keeps the first characters, as many as there is room for, and
/// changes none of them.
pub proof fn law_truncation_keeps_the_first_characters(bytes: Seq<u8>, max: nat)
    ensures
        ({
            let all = characters(units(bytes));
            characters(units(keep(units(bytes), max).flatten())) == all.take(
                if all.len() <= max { all.len() as int } else { max as int },
            )
        }),
{
    lemma_units_chained(bytes);
    lemma_keep_chained(units(bytes), max);
    lemma_units_of_chained(keep(units(bytes), max));
    lemma_keep_characters(units(bytes), max);
}

/// Where a background is injected: behind each reset, `ESC [ 0 m` or `ESC [ m`,
/// and nowhere else.
pub proof fn law_background_follows_each_reset(b: u8, src: Seq<u8>, bg: Seq<u8>)
    ensures
        inject(seq![], bg) == Seq::<u8>::empty(),
        inject(seq![0x1bu8, 0x5b, 0x30, 0x6d] + src, bg) == seq![0x1bu8, 0x5b, 0x30, 0x6d] + bg
            + inject(src, bg),
        inject(seq![0x1bu8, 0x5b, 0x6d] + src, bg) == seq![0x1bu8, 0x5b, 0x6d] + bg + inject(
            src,
            bg,
        ),
        b != 0x1b || !(src.len() > 1 && src[0] == 0x5b && src[1] == 0x6d) && !(src.len() > 2
            && src[0] == 0x5b && src[1] == 0x30 && src[2] == 0x6d) ==> inject(seq![b] + src, bg)
            == seq![b] + inject(src, bg),
{
    let long = sgr_reset() + src;
    let short = sgr_reset_short() + src;
    let one = seq![b] + src;
    assert(long.subrange(0, 4) =~= sgr_reset());
    assert(long.skip(4) =~= src);
    assert(short.subrange(0, 3) =~= sgr_reset_short());
    assert(short.skip(3) =~= src);
    if sgr_reset().is_prefix_of(short) {
        assert(short.subrange(0, 4)[2] == 0x6d);
        assert(sgr_reset()[2] == 0x30);
    }
    assert(one.skip(1) =~= src);
    assert(one[0] == b);
    if sgr_reset().is_prefix_of(one) {
        let r = one.subrange(0, 4);
        assert(r[0] == 0x1b && r[1] == 0x5b && r[2] == 0x30 && r[3] == 0x6d);
        assert(one[1] == src[0] && one[2] == src[1] && one[3] == src[2]);
    }
    if sgr_reset_short().is_prefix_of(one) {
        let r = one.subrange(0, 3);
        assert(r[0] == 0x1b && r[1] == 0x5b && r[2] == 0x6d);
        assert(one[1] == src[0] && one[2] == src[1]);
    }
}

/// What stripping leaves, from the front: a byte that starts no escape sequence
/// is kept, and the rest is stripped in the same way. An escape sequence that is
/// not ended strips all that is left.
pub proof fn law_strip_keeps_other_bytes(b: u8, s: Seq<u8>)
    ensures
        b != 0x1b || s.len() == 0 || s[0] != 0x5b ==> strip_csi(seq![b] + s) == seq![b] + strip_csi(
            s,
        ),
        (forall|k: int|
            #![trigger s[k]]
            0 <= k < s.len() ==> !(0x41 <= s[k] && s[k] <= 0x5a) && !(0x61 <= s[k] && s[k]
                <= 0x7a)) ==> strip_csi(seq![0x1bu8, 0x5b] + s).len() == 0,
{
    let t = seq![b] + s;
    assert(t.skip(1) =~= s);
    assert(t[0] == b);
    if s.len() > 0 {
        assert(t[1] == s[0]);
    }
    if forall|k: int|
        #![trigger s[k]]
        0 <= k < s.len() ==> !(0x41 <= s[k] && s[k] <= 0x5a) && !(0x61 <= s[k] && s[k] <= 0x7a) {
        let u = seq![0x1bu8, 0x5b] + s;
        assert(u.skip(2) =~= s);
        lemma_lead(s, not(letters()), s.len() as int);
        assert(csi(u));
        assert(csi_len(u) == u.len());
        assert(u.skip(csi_len(u) as int) =~= seq![]);
        assert(strip_csi(u) == strip_csi(Seq::<u8>::empty()));
    }
}

} // verus!
