//! What the help of a jj subcommand says: its subcommands, its options, and
//! whether it takes a revset.
//!
//! The help is the plain text that `jj <path> --help` prints. Section titles
//! stand at the left margin (`Commands:`, `Options:`, `Global Options:`); the
//! entries of a section are indented below it.

use crate::names::{add_name, add_names, law_added_names_are_in, NameSet};
use crate::text::{
    before, cut_before, ends_with, equal_to, equals, find, find_text, first_word, from_chars,
    head_word, indent, indent_of, index_of, law_first_word_ends_at_whitespace,
    law_indent_counts_spaces, lead, lemma_filter_step, lemma_lead, lemma_lead_bounds, lemma_trail,
    lines, list_separator, not, seqs, split, split_list, split_text_lines, starts_with, strs,
    to_chars, trail, trim, trim_both, trim_front, trim_start, whitespace,
};
use vstd::prelude::*;
use vstd::slice::slice_subrange;

verus! {

// ---------------------------------------------------------------------------
// Aliases

/// The items of an `[aliases: a, b]` annotation on a line, repeats included.
pub open spec fn alias_items(line: Seq<char>) -> Seq<Seq<char>> {
    match find(line, "[aliases:"@) {
        Some(n) => {
            let after = line.skip((n + "[aliases:"@.len()) as int);
            let end = lead(after, not(equal_to(']'))) as int;
            if end < after.len() {
                named(split(after.take(end), list_separator(false)))
            } else {
                seq![]
            }
        },
        None => seq![],
    }
}

/// The pieces, trimmed, without those that are then empty.
pub open spec fn named(pieces: Seq<Seq<char>>) -> Seq<Seq<char>>
    decreases pieces.len(),
{
    if pieces.len() == 0 {
        seq![]
    } else {
        let rest = named(pieces.drop_last());
        if trim(pieces.last()).len() == 0 {
            rest
        } else {
            rest.push(trim(pieces.last()))
        }
    }
}

/// Adds the aliases that a line lists to `names`.
pub fn scan_aliases(line: &[char], names: &mut NameSet)
    requires
        old(names).wf(),
    ensures
        final(names)@ == add_names(old(names)@, alias_items(line@)),
        final(names).wf(),
{
    proof {
        reveal_strlit("[aliases:");
        reveal_with_fuel(add_names, 1);
    }
    let start = match find_text(line, "[aliases:") {
        Some(n) => {
            assert(n + 9 <= line.len());
            n + 9
        },
        None => {
            return ;
        },
    };
    let after = slice_subrange(line, start, line.len());
    assert(after@ == line@.skip(start as int));
    let end = index_of(after, ']');
    if end == after.len() {
        return ;
    }
    let inside = slice_subrange(after, 0, end);
    assert(inside@ == after@.take(end as int));
    let items = split_list(inside, false);
    let ghost before_names = names@;
    for i in 0..items.len()
        invariant
            names.wf(),
            names@ == add_names(before_names, named(seqs(items@).take(i as int))),
    {
        let n = trim_both(items[i].as_slice());
        assert(seqs(items@).take(i + 1).drop_last() == seqs(items@).take(i as int));
        assert(seqs(items@).take(i + 1).last() == items@[i as int]@);
        if n.len() > 0 {
            let ghost rest = named(seqs(items@).take(i as int));
            assert(rest.push(n@).drop_last() == rest);
            names.insert(from_chars(n));
        }
    }
    assert(seqs(items@).take(items@.len() as int) == seqs(items@));
}

// ---------------------------------------------------------------------------
// Subcommands

/// Whether a line continues the `Commands:` section.
pub open spec fn command_lines() -> spec_fn(Seq<char>) -> bool {
    |line: Seq<char>| line == "Commands:"@ || (line.len() > 0 && line[0] == ' ')
}

/// The lines of the `Commands:` section: those below its title, up to the
/// first that is blank or stands at the left margin.
pub open spec fn command_section(ls: Seq<Seq<char>>) -> Seq<Seq<char>> {
    let n = lead(ls, not(equal_to("Commands:"@))) as int;
    if n < ls.len() {
        let below = ls.skip(n + 1);
        below.take(lead(below, command_lines()) as int)
    } else {
        seq![]
    }
}

/// The names that one line of the section gives: an entry is indented by two,
/// and gives its first word and its aliases. A deeper line only describes.
pub open spec fn entry_names(line: Seq<char>) -> Seq<Seq<char>> {
    if indent(line) != 2 {
        seq![]
    } else if trim_front(line).len() == 0 {
        alias_items(line)
    } else {
        seq![first_word(trim_front(line))] + alias_items(line)
    }
}

/// The names that the lines of a section give, each once.
pub open spec fn section_names(section: Seq<Seq<char>>) -> Seq<Seq<char>>
    decreases section.len(),
{
    if section.len() == 0 {
        seq![]
    } else {
        add_names(section_names(section.drop_last()), entry_names(section.last()))
    }
}

/// The subcommands that a help lists, by name and by alias.
pub open spec fn commands(help: Seq<char>) -> Seq<Seq<char>> {
    section_names(command_section(lines(help)))
}

proof fn lemma_add_names_one(names: Seq<Seq<char>>, name: Seq<char>)
    ensures
        add_names(names, seq![name]) == add_name(names, name),
{
    assert(seq![name].drop_last() =~= seq![]);
    assert(add_names(names, seq![name].drop_last()) == names);
}

proof fn lemma_add_names_concat(names: Seq<Seq<char>>, a: Seq<Seq<char>>, b: Seq<Seq<char>>)
    ensures
        add_names(names, a + b) == add_names(add_names(names, a), b),
    decreases b.len(),
{
    if b.len() == 0 {
        assert(a + b == a);
    } else {
        assert((a + b).drop_last() == a + b.drop_last());
        lemma_add_names_concat(names, a, b.drop_last());
    }
}

/// Parses the `Commands:` section of a help text. Gives the names of the
/// subcommands and their `[aliases: …]`, so that an alias is known too.
pub fn parse_commands_section(help: &str) -> (set: NameSet)
    ensures
        set@ == commands(help@),
        set.wf(),
{
    let text = to_chars(help);
    let ls = split_text_lines(text.as_slice());
    let ghost all = seqs(ls@);
    let mut set = NameSet::new();
    let mut n: usize = 0;
    while n < ls.len() && !equals(ls[n].as_slice(), "Commands:")
        invariant
            n <= ls@.len(),
            all == seqs(ls@),
            forall|k: int| 0 <= k < n ==> not(equal_to("Commands:"@))(#[trigger] all[k]),
        decreases ls.len() - n,
    {
        assert(all[n as int] == ls@[n as int]@);
        n += 1;
    }
    proof {
        if n < ls@.len() {
            assert(all[n as int] == ls@[n as int]@);
        }
        lemma_lead(all, not(equal_to("Commands:"@)), n as int);
    }
    if n == ls.len() {
        return set;
    }
    let ghost below = all.skip(n + 1);
    let mut i: usize = n + 1;
    let ghost p = command_lines();
    while i < ls.len()
        invariant
            n + 1 <= i <= ls@.len(),
            all == seqs(ls@),
            below == all.skip(n + 1),
            p == command_lines(),
            forall|k: int| 0 <= k < i - n - 1 ==> p(#[trigger] below[k]),
            set.wf(),
            set@ == section_names(below.take(i - n - 1)),
        ensures
            i < ls@.len() ==> !p(below[i - n - 1]),
        decreases ls.len() - i,
    {
        let line = ls[i].as_slice();
        assert(below[i - n - 1] == line@);
        if !equals(line, "Commands:") && (line.len() == 0 || line[0] != ' ') {
            break;
        }
        proof {
            assert(below.take(i - n).drop_last() == below.take(i - n - 1));
            assert(below.take(i - n).last() == line@);
        }
        if indent_of(line) == 2 {
            let trimmed = trim_start(line);
            if trimmed.len() > 0 {
                proof {
                    lemma_add_names_one(set@, first_word(trim_front(line@)));
                    lemma_add_names_concat(
                        set@,
                        seq![first_word(trim_front(line@))],
                        alias_items(line@),
                    );
                }
                set.insert(from_chars(head_word(trimmed)));
            }
            scan_aliases(line, &mut set);
        } else {
            assert(add_names(set@, seq![]) == set@);
        }
        i += 1;
    }
    proof {
        lemma_lead(below, p, i - n - 1);
    }
    set
}

// ---------------------------------------------------------------------------
// Options

/// One option: its spellings, and what value it takes.
#[derive(Debug)]
pub struct OptionEntry {
    pub shorts: Vec<String>,
    pub longs: Vec<String>,
    /// Whether the option has a `<PLACEHOLDER>`, that is, consumes a value.
    pub takes_value: bool,
    /// Whether the placeholder is `<REVSET>` or `<REVSETS>`.
    pub is_revset: bool,
}

/// An option, as a value.
#[verifier::ext_equal]
pub struct Opt {
    pub shorts: Seq<Seq<char>>,
    pub longs: Seq<Seq<char>>,
    pub takes_value: bool,
    pub is_revset: bool,
}

impl View for OptionEntry {
    type V = Opt;

    open spec fn view(&self) -> Opt {
        Opt {
            shorts: strs(self.shorts@),
            longs: strs(self.longs@),
            takes_value: self.takes_value,
            is_revset: self.is_revset,
        }
    }
}

/// Options as values.
pub open spec fn opts(v: Seq<OptionEntry>) -> Seq<Opt> {
    v.map_values(|o: OptionEntry| o@)
}

pub open spec fn is_long(t: Seq<char>) -> bool {
    "--"@.is_prefix_of(t)
}

pub open spec fn is_short(t: Seq<char>) -> bool {
    !is_long(t) && t.len() > 0 && t[0] == '-'
}

pub open spec fn long_flags() -> spec_fn(Seq<char>) -> bool {
    |t: Seq<char>| is_long(t)
}

pub open spec fn short_flags() -> spec_fn(Seq<char>) -> bool {
    |t: Seq<char>| is_short(t)
}

/// The spellings of long flags without an attached `=value`.
pub open spec fn bare_names(ts: Seq<Seq<char>>) -> Seq<Seq<char>> {
    ts.map_values(|t: Seq<char>| before(t, '='))
}

/// The name in a token of the form `<NAME>…`.
pub open spec fn placeholder(t: Seq<char>) -> Option<Seq<char>> {
    if t.len() > 0 && t[0] == '<' {
        let inner = t.skip(1);
        let n = lead(inner, not(equal_to('>'))) as int;
        if n < inner.len() {
            Some(inner.take(n))
        } else {
            None
        }
    } else {
        None
    }
}

/// The last placeholder among the tokens.
pub open spec fn value_name(ts: Seq<Seq<char>>) -> Option<Seq<char>>
    decreases ts.len(),
{
    if ts.len() == 0 {
        None
    } else if placeholder(ts.last()) is Some {
        placeholder(ts.last())
    } else {
        value_name(ts.drop_last())
    }
}

pub open spec fn revset_name(name: Seq<char>) -> bool {
    name == "REVSET"@ || name == "REVSETS"@
}

/// The option that a head line such as `-r, --revision <REVSET>` declares.
pub open spec fn header(line: Seq<char>) -> Opt {
    let ts = split(line, list_separator(true));
    Opt {
        shorts: ts.filter(short_flags()),
        longs: bare_names(ts.filter(long_flags())),
        takes_value: value_name(ts) is Some,
        is_revset: value_name(ts) matches Some(name) && revset_name(name),
    }
}

fn is_revset_name(name: &[char]) -> (r: bool)
    ensures
        r == revset_name(name@),
{
    equals(name, "REVSET") || equals(name, "REVSETS")
}

/// Parses the head line of an option.
pub fn parse_option_header(s: &[char]) -> (o: OptionEntry)
    ensures
        o@ == header(s@),
{
    let tokens = split_list(s, true);
    let ghost ts = seqs(tokens@);
    let mut shorts: Vec<String> = Vec::new();
    let mut longs: Vec<String> = Vec::new();
    let mut takes_value = false;
    let mut is_revset = false;
    proof {
        assert(ts.take(0) =~= seq![]);
        assert(ts.take(0).filter(short_flags()) =~= seq![]) by {
            reveal(Seq::filter);
        }
        assert(ts.take(0).filter(long_flags()) =~= seq![]) by {
            reveal(Seq::filter);
        }
        assert(strs(shorts@) =~= seq![]);
        assert(strs(longs@) =~= bare_names(seq![]));
    }
    for i in 0..tokens.len()
        invariant
            ts == seqs(tokens@),
            strs(shorts@) == ts.take(i as int).filter(short_flags()),
            strs(longs@) == bare_names(ts.take(i as int).filter(long_flags())),
            takes_value == (value_name(ts.take(i as int)) is Some),
            is_revset == (value_name(ts.take(i as int)) matches Some(name) && revset_name(name)),
    {
        let t = tokens[i].as_slice();
        let ghost old_shorts = shorts@;
        let ghost old_longs = longs@;
        let ghost had = ts.take(i as int).filter(long_flags());
        proof {
            assert(ts[i as int] == t@);
            lemma_filter_step(ts, short_flags(), i as int);
            lemma_filter_step(ts, long_flags(), i as int);
            assert(ts.take(i + 1).drop_last() =~= ts.take(i as int));
            assert(ts.take(i + 1).last() == t@);
            assert(bare_names(had.push(t@)) =~= bare_names(had).push(before(t@, '=')));
            reveal_strlit("--");
        }
        if starts_with(t, "--") {
            assert(t@.subrange(0, 2)[0] == t@[0]);
            longs.push(from_chars(cut_before(t, '=')));
            assert(strs(longs@) =~= strs(old_longs).push(before(t@, '=')));
        } else if t.len() > 0 && t[0] == '-' {
            shorts.push(from_chars(t));
            assert(strs(shorts@) =~= strs(old_shorts).push(t@));
        } else if t.len() > 0 && t[0] == '<' {
            let inner = slice_subrange(t, 1, t.len());
            assert(inner@ == t@.skip(1));
            let n = index_of(inner, '>');
            if n < inner.len() {
                let name = slice_subrange(inner, 0, n);
                assert(name@ == inner@.take(n as int));
                takes_value = true;
                is_revset = is_revset_name(name);
            }
        }
    }
    assert(ts.take(ts.len() as int) == ts);
    OptionEntry { shorts, longs, takes_value, is_revset }
}

/// Whether a line is the title of a section, or other text at the left margin.
pub open spec fn is_title(line: Seq<char>) -> bool {
    line.len() > 0 && line[0] != ' '
}

/// Whether a line below an `Options:` title starts an option: indented by two
/// with a flag, or by six with a long flag.
pub open spec fn opens_option(line: Seq<char>) -> bool {
    let text = trim_front(line);
    ||| indent(line) == 2 && text.len() > 0 && text[0] == '-'
    ||| indent(line) == 6 && is_long(text)
}

/// The lines that belong to the option above them.
pub open spec fn continuation() -> spec_fn(Seq<char>) -> bool {
    |line: Seq<char>| !is_title(line) && !opens_option(line)
}

/// An option with more spellings.
pub open spec fn with_aliases(o: Opt, names: Seq<Seq<char>>) -> Opt {
    Opt {
        shorts: o.shorts + names.filter(short_flags()),
        longs: o.longs + names.filter(long_flags()),
        takes_value: o.takes_value,
        is_revset: o.is_revset,
    }
}

/// An option with the aliases that its further lines list.
pub open spec fn extended(o: Opt, more: Seq<Seq<char>>) -> Opt
    decreases more.len(),
{
    if more.len() == 0 {
        o
    } else {
        with_aliases(
            extended(o, more.drop_last()),
            add_names(seq![], alias_items(more.last())),
        )
    }
}

/// The options that the lines declare. `on` tells whether the lines stand
/// below a title that ends in `Options:`.
pub open spec fn options_of(ls: Seq<Seq<char>>, on: bool) -> Seq<Opt>
    decreases ls.len(),
{
    if ls.len() == 0 {
        seq![]
    } else if is_title(ls[0]) {
        options_of(ls.skip(1), "Options:"@.is_suffix_of(ls[0]))
    } else if on && opens_option(ls[0]) {
        let rest = ls.skip(1);
        let more = rest.take(lead(rest, continuation()) as int);
        seq![extended(header(trim_front(ls[0])), more)] + options_of(rest, on)
    } else {
        options_of(ls.skip(1), on)
    }
}

/// The options that a help lists, over all of its option sections.
pub open spec fn options(help: Seq<char>) -> Seq<Opt> {
    options_of(lines(help), false)
}

fn starts_option(line: &[char]) -> (r: bool)
    ensures
        r == opens_option(line@),
{
    let text = trim_start(line);
    let margin = indent_of(line);
    (margin == 2 && text.len() > 0 && text[0] == '-') || (margin == 6 && starts_with(text, "--"))
}

fn at_margin(line: &[char]) -> (r: bool)
    ensures
        r == is_title(line@),
{
    line.len() > 0 && line[0] != ' '
}

/// Folds the aliases that a line lists into the spellings of an option.
fn fold_aliases(o: OptionEntry, line: &[char]) -> (r: OptionEntry)
    ensures
        r@ == with_aliases(o@, add_names(seq![], alias_items(line@))),
{
    let mut o = o;
    let mut names = NameSet::new();
    scan_aliases(line, &mut names);
    let ghost ns = names@;
    let ghost start = o@;
    proof {
        assert(ns.take(0) =~= seq![]);
        assert(ns.take(0).filter(short_flags()) =~= seq![]) by {
            reveal(Seq::filter);
        }
        assert(ns.take(0).filter(long_flags()) =~= seq![]) by {
            reveal(Seq::filter);
        }
        assert(o@ =~= with_aliases(start, ns.take(0)));
    }
    let count = names.len();
    for i in 0..count
        invariant
            count == ns.len(),
            ns == names@,
            o@ == with_aliases(start, ns.take(i as int)),
    {
        let n = names.get(i);
        let t = to_chars(n.as_str());
        let ghost was = o@;
        let ghost old_shorts = o.shorts@;
        let ghost old_longs = o.longs@;
        proof {
            lemma_filter_step(ns, short_flags(), i as int);
            lemma_filter_step(ns, long_flags(), i as int);
            reveal_strlit("--");
        }
        if starts_with(t.as_slice(), "--") {
            assert(t@.subrange(0, 2)[0] == t@[0]);
            o.longs.push(n.clone());
            assert(strs(o.longs@) =~= strs(old_longs).push(t@));
        } else if t.len() > 0 && t[0] == '-' {
            o.shorts.push(n.clone());
            assert(strs(o.shorts@) =~= strs(old_shorts).push(t@));
        }
        assert(o@ =~= with_aliases(start, ns.take(i + 1)));
    }
    assert(ns.take(ns.len() as int) == ns);
    o
}

/// Parses every option section of a help text: `Options:`, any
/// `<Category> Options:` and `Global Options:`. `[aliases: …]` on a further
/// line of an option belong to its spellings.
pub fn parse_options(help: &str) -> (out: Vec<OptionEntry>)
    ensures
        opts(out@) == options(help@),
{
    let text = to_chars(help);
    let ls = split_text_lines(text.as_slice());
    let ghost all = seqs(ls@);
    let mut out: Vec<OptionEntry> = Vec::new();
    let mut on = false;
    let mut i: usize = 0;
    assert(all.skip(0) == all);
    assert(opts(out@) + options_of(all, false) =~= options_of(all, false));
    while i < ls.len()
        invariant
            i <= ls@.len(),
            all == seqs(ls@),
            opts(out@) + options_of(all.skip(i as int), on) == options_of(all, false),
        decreases ls.len() - i,
    {
        let line = ls[i].as_slice();
        let ghost here = all.skip(i as int);
        assert(here[0] == line@);
        assert(here.skip(1) == all.skip(i + 1));
        if at_margin(line) {
            on = ends_with(line, "Options:");
            i += 1;
        } else if on && starts_option(line) {
            let ghost rest = all.skip(i + 1);
            let ghost head = header(trim_front(line@));
            let mut entry = parse_option_header(trim_start(line));
            let mut j: usize = i + 1;
            assert(rest.take(0) =~= seq![]);
            while j < ls.len() && !at_margin(ls[j].as_slice()) && !starts_option(ls[j].as_slice())
                invariant
                    i + 1 <= j <= ls@.len(),
                    all == seqs(ls@),
                    rest == all.skip(i + 1),
                    forall|k: int| 0 <= k < j - i - 1 ==> continuation()(#[trigger] rest[k]),
                    entry@ == extended(head, rest.take(j - i - 1)),
                    options_of(rest, on) == options_of(all.skip(j as int), on),
                decreases ls.len() - j,
            {
                proof {
                    let l = ls@[j as int]@;
                    assert(rest[j - i - 1] == l);
                    assert(all.skip(j as int)[0] == l);
                    assert(all.skip(j as int).skip(1) == all.skip(j + 1));
                    assert(rest.take(j - i).drop_last() =~= rest.take(j - i - 1));
                    assert(rest.take(j - i).last() == l);
                }
                entry = fold_aliases(entry, ls[j].as_slice());
                j += 1;
            }
            proof {
                if j < ls@.len() {
                    assert(rest[j - i - 1] == ls@[j as int]@);
                }
                lemma_lead(rest, continuation(), j - i - 1);
            }
            let ghost before_out = out@;
            out.push(entry);
            assert(opts(out@) =~= opts(before_out).push(entry@));
            i = j;
        } else {
            i += 1;
        }
    }
    assert(options_of(all.skip(i as int), on) =~= seq![]);
    out
}

/// The spellings of the options that take a value.
pub open spec fn value_spellings(os: Seq<Opt>) -> Seq<Seq<char>>
    decreases os.len(),
{
    if os.len() == 0 {
        seq![]
    } else {
        let rest = value_spellings(os.drop_last());
        let o = os.last();
        if o.takes_value {
            add_names(rest, o.shorts + o.longs)
        } else {
            rest
        }
    }
}

fn insert_all(set: &mut NameSet, names: &[String])
    requires
        old(set).wf(),
    ensures
        final(set)@ == add_names(old(set)@, strs(names@)),
        final(set).wf(),
{
    let ghost start = set@;
    for i in 0..names.len()
        invariant
            set.wf(),
            set@ == add_names(start, strs(names@).take(i as int)),
    {
        assert(strs(names@).take(i + 1).drop_last() =~= strs(names@).take(i as int));
        set.insert(names[i].clone());
    }
    assert(strs(names@).take(names@.len() as int) == strs(names@));
}

/// Every option spelling, short or long, that consumes the token after it,
/// over all the option sections of a help text.
pub fn value_flags(help: &str) -> (flags: NameSet)
    ensures
        flags@ == value_spellings(options(help@)),
        flags.wf(),
{
    let os = parse_options(help);
    let ghost all = opts(os@);
    let mut flags = NameSet::new();
    for i in 0..os.len()
        invariant
            all == opts(os@),
            flags.wf(),
            flags@ == value_spellings(all.take(i as int)),
    {
        assert(all.take(i + 1).drop_last() =~= all.take(i as int));
        assert(all.take(i + 1).last() == os@[i as int]@);
        if os[i].takes_value {
            proof {
                lemma_add_names_concat(flags@, os@[i as int]@.shorts, os@[i as int]@.longs);
            }
            insert_all(&mut flags, os[i].shorts.as_slice());
            insert_all(&mut flags, os[i].longs.as_slice());
        }
    }
    assert(all.take(all.len() as int) == all);
    flags
}

// ---------------------------------------------------------------------------
// Revsets

/// Whether a line continues the `Arguments:` section.
pub open spec fn argument_line() -> spec_fn(Seq<char>) -> bool {
    |line: Seq<char>| line == "Arguments:"@ || !is_title(line)
}

/// The lines of the `Arguments:` section: those below its title, up to the
/// next text at the left margin.
pub open spec fn argument_section(ls: Seq<Seq<char>>) -> Seq<Seq<char>> {
    let n = lead(ls, not(equal_to("Arguments:"@))) as int;
    if n < ls.len() {
        let below = ls.skip(n + 1);
        below.take(lead(below, argument_line()) as int)
    } else {
        seq![]
    }
}

/// Whether a line names a positional argument, as in `[REVSET]` or
/// `<NAMES>...`, indented by two.
pub open spec fn opens_argument(line: Seq<char>) -> bool {
    let text = trim_front(line);
    indent(line) == 2 && text.len() > 0 && (text[0] == '[' || text[0] == '<')
}

pub open spec fn bracket(c: char) -> bool {
    c == '[' || c == ']' || c == '<' || c == '>'
}

pub open spec fn brackets() -> spec_fn(char) -> bool {
    |c: char| bracket(c)
}

/// The text without brackets at either end.
pub open spec fn unbracket(s: Seq<char>) -> Seq<char> {
    let front = s.skip(lead(s, brackets()) as int);
    front.take(front.len() - trail(front, brackets()))
}

/// The text without the `...` at its end, however often repeated.
pub open spec fn undot(s: Seq<char>) -> Seq<char>
    decreases s.len(),
{
    if s.len() >= 3 && "..."@.is_suffix_of(s) {
        undot(s.take(s.len() - 3))
    } else {
        s
    }
}

/// The name of the positional argument that a line opens.
pub open spec fn argument_name(line: Seq<char>) -> Seq<char> {
    unbracket(undot(unbracket(first_word(trim_front(line)))))
}

/// Whether the argument that the last of the lines belongs to is a revset.
pub open spec fn in_revset_argument(ls: Seq<Seq<char>>) -> bool
    decreases ls.len(),
{
    if ls.len() == 0 {
        false
    } else if opens_argument(ls.last()) {
        revset_name(argument_name(ls.last()))
    } else {
        in_revset_argument(ls.drop_last())
    }
}

/// Whether a line lists `-r` or `--revision` among its aliases.
pub open spec fn aliases_revision(line: Seq<char>) -> bool {
    let names = add_names(seq![], alias_items(line));
    names.contains("-r"@) || names.contains("--revision"@)
}

/// Whether a help has a positional revset that can be given as `-r` too.
pub open spec fn positional_revset(help: Seq<char>) -> bool {
    let section = argument_section(lines(help));
    exists|i: int|
        0 <= i < section.len() && #[trigger] in_revset_argument(section.take(i + 1))
            && aliases_revision(section[i])
}

fn is_bracket(c: char) -> (r: bool)
    ensures
        r == bracket(c),
{
    c == '[' || c == ']' || c == '<' || c == '>'
}

fn trim_brackets(text: &[char]) -> (out: &[char])
    ensures
        out@ == unbracket(text@),
{
    let mut a: usize = 0;
    while a < text.len() && is_bracket(text[a])
        invariant
            a <= text@.len(),
            forall|k: int| 0 <= k < a ==> brackets()(#[trigger] text@[k]),
        decreases text.len() - a,
    {
        a += 1;
    }
    proof {
        lemma_lead(text@, brackets(), a as int);
    }
    let front = slice_subrange(text, a, text.len());
    assert(front@ == text@.skip(a as int));
    let mut n: usize = front.len();
    while n > 0 && is_bracket(front[n - 1])
        invariant
            n <= front@.len(),
            forall|k: int| n <= k < front@.len() ==> brackets()(#[trigger] front@[k]),
        decreases n,
    {
        n -= 1;
    }
    proof {
        lemma_trail(front@, brackets(), front@.len() - n);
    }
    slice_subrange(front, 0, n)
}

fn trim_dots(text: &[char]) -> (out: &[char])
    ensures
        out@ == undot(text@),
{
    let mut n: usize = text.len();
    proof {
        reveal_strlit("...");
        assert(text@.take(n as int) == text@);
    }
    while n >= 3 && ends_with(slice_subrange(text, 0, n), "...")
        invariant
            n <= text@.len(),
            undot(text@.take(n as int)) == undot(text@),
        decreases n,
    {
        assert(text@.subrange(0, n as int) == text@.take(n as int));
        assert(text@.take(n as int).take(n - 3) == text@.take(n - 3));
        n -= 3;
    }
    assert(text@.subrange(0, n as int) == text@.take(n as int));
    slice_subrange(text, 0, n)
}

/// Whether the leaf takes its revset as a positional `[REVSET]` argument that
/// can be given as `-r` or `--revision` too, as `jj show` does. Without such
/// an alias a picked revision could not be passed by a flag.
pub fn positional_revset_accepts_r(help: &str) -> (r: bool)
    ensures
        r == positional_revset(help@),
{
    let text = to_chars(help);
    let ls = split_text_lines(text.as_slice());
    let ghost all = seqs(ls@);
    let mut n: usize = 0;
    while n < ls.len() && !equals(ls[n].as_slice(), "Arguments:")
        invariant
            n <= ls@.len(),
            all == seqs(ls@),
            forall|k: int| 0 <= k < n ==> not(equal_to("Arguments:"@))(#[trigger] all[k]),
        decreases ls.len() - n,
    {
        assert(all[n as int] == ls@[n as int]@);
        n += 1;
    }
    proof {
        if n < ls@.len() {
            assert(all[n as int] == ls@[n as int]@);
        }
        lemma_lead(all, not(equal_to("Arguments:"@)), n as int);
    }
    if n == ls.len() {
        return false;
    }
    let ghost p = argument_line();
    let ghost below = all.skip(n + 1);
    let ghost section = argument_section(all);
    proof {
        lemma_lead_bounds(below, p);
    }
    let mut current_is_revset = false;
    let mut i: usize = n + 1;
    while i < ls.len()
        invariant
            n + 1 <= i <= ls@.len(),
            all == seqs(ls@),
            all == lines(help@),
            p == argument_line(),
            below == all.skip(n + 1),
            section == argument_section(all),
            section == below.take(lead(below, p) as int),
            lead(below, p) <= below.len(),
            lead(below, p) < below.len() ==> !p(below[lead(below, p) as int]),
            i - n - 1 <= section.len(),
            current_is_revset == in_revset_argument(section.take(i - n - 1)),
            forall|k: int|
                0 <= k < i - n - 1 ==> !(#[trigger] in_revset_argument(section.take(k + 1))
                    && aliases_revision(section[k])),
        ensures
            i - n - 1 == section.len(),
        decreases ls.len() - i,
    {
        let line = ls[i].as_slice();
        let ghost at = i - n - 1;
        assert(below[at] == line@);
        if !equals(line, "Arguments:") && at_margin(line) {
            proof {
                if at < section.len() {
                    lemma_lead_bounds(below, p);
                    assert(p(below[at]));
                }
            }
            break;
        }
        proof {
            if at == section.len() {
                assert(!p(below[at]));
            }
            assert(section[at] == line@);
            assert(section.take(at + 1).drop_last() =~= section.take(at));
            assert(section.take(at + 1).last() == line@);
        }
        let trimmed = trim_start(line);
        if indent_of(line) == 2 && trimmed.len() > 0 && (trimmed[0] == '[' || trimmed[0] == '<') {
            let name = trim_brackets(trim_dots(trim_brackets(head_word(trimmed))));
            current_is_revset = is_revset_name(name);
        }
        if current_is_revset {
            let mut aliases = NameSet::new();
            scan_aliases(line, &mut aliases);
            if aliases.contains("-r") || aliases.contains("--revision") {
                assert(in_revset_argument(section.take(at + 1)) && aliases_revision(section[at]));
                return true;
            }
        }
        i += 1;
    }
    false
}

/// Which flag a leaf subcommand takes a revset by. `--from` is not among
/// them: what it means is not the revision to act on.
#[derive(Debug, Clone, Copy, PartialEq, Eq, Structural)]
pub enum RevsetFlag {
    Revision,
    To,
}

impl RevsetFlag {
    /// The flag as it is spelled on a command line.
    pub open spec fn spelling(self) -> Seq<char> {
        match self {
            RevsetFlag::Revision => "-r"@,
            RevsetFlag::To => "--to"@,
        }
    }

    /// The flag as it is spelled on a command line.
    pub fn as_str(self) -> (s: &'static str)
        ensures
            s@ == self.spelling(),
    {
        match self {
            RevsetFlag::Revision => "-r",
            RevsetFlag::To => "--to",
        }
    }
}

/// Whether some revset option among `os` is spelled `name`.
pub open spec fn revset_option(os: Seq<Opt>, name: Seq<char>) -> bool {
    exists|i: int|
        0 <= i < os.len() && #[trigger] os[i].is_revset && os[i].longs.contains(name)
}

/// The flag that a help offers for a revset: an option `--revision` or
/// `--revisions` first, then an option `--to`, then a positional revset that
/// can be given as `-r`.
pub open spec fn revset_flag(help: Seq<char>) -> Option<RevsetFlag> {
    let os = options(help);
    if revset_option(os, "--revision"@) || revset_option(os, "--revisions"@) {
        Some(RevsetFlag::Revision)
    } else if revset_option(os, "--to"@) {
        Some(RevsetFlag::To)
    } else if positional_revset(help) {
        Some(RevsetFlag::Revision)
    } else {
        None
    }
}

fn has_name(names: &[String], name: &str) -> (r: bool)
    ensures
        r == strs(names@).contains(name@),
{
    let want = name.to_owned();
    for i in 0..names.len()
        invariant
            want@ == name@,
            forall|k: int| 0 <= k < i ==> #[trigger] strs(names@)[k] != name@,
    {
        assert(strs(names@)[i as int] == names@[i as int]@);
        if names[i] == want {
            return true;
        }
    }
    false
}

fn has_revset_option(os: &[OptionEntry], name: &str) -> (r: bool)
    ensures
        r == revset_option(opts(os@), name@),
{
    for i in 0..os.len()
        invariant
            forall|k: int|
                0 <= k < i ==> !(#[trigger] opts(os@)[k].is_revset && opts(os@)[k].longs.contains(
                    name@,
                )),
    {
        assert(opts(os@)[i as int] == os@[i as int]@);
        if os[i].is_revset && has_name(os[i].longs.as_slice(), name) {
            assert(opts(os@)[i as int].is_revset);
            return true;
        }
    }
    false
}

/// Picks the flag to pass a revision by from the help of a leaf subcommand;
/// `None` where it takes no revset.
pub fn parse_revset_flag(help: &str) -> (flag: Option<RevsetFlag>)
    ensures
        flag == revset_flag(help@),
{
    let os = parse_options(help);
    if has_revset_option(os.as_slice(), "--revision") || has_revset_option(
        os.as_slice(),
        "--revisions",
    ) {
        return Some(RevsetFlag::Revision);
    }
    if has_revset_option(os.as_slice(), "--to") {
        return Some(RevsetFlag::To);
    }
    if positional_revset_accepts_r(help) {
        return Some(RevsetFlag::Revision);
    }
    None
}

// ---------------------------------------------------------------------------
// Laws

/// No other option is injected in place of a missing one: a leaf whose revset
/// options are spelled otherwise, as `--from` is, and which has no positional
/// revset takes no picked revision.
pub proof fn law_no_other_flag_is_injected(help: Seq<char>)
    requires
        !positional_revset(help),
        forall|i: int, name: Seq<char>|
            0 <= i < options(help).len() && (#[trigger] options(help)[i]).is_revset
                && #[trigger] options(help)[i].longs.contains(name) ==> name != "--revision"@
                && name != "--revisions"@ && name != "--to"@,
    ensures
        revset_flag(help) is None,
{
}

proof fn lemma_section_names(section: Seq<Seq<char>>, name: Seq<char>)
    ensures
        section_names(section).contains(name) <==> exists|i: int|
            0 <= i < section.len() && #[trigger] entry_names(section[i]).contains(name),
    decreases section.len(),
{
    if section.len() > 0 {
        let init = section.drop_last();
        lemma_section_names(init, name);
        law_added_names_are_in(section_names(init), entry_names(section.last()), name);
        if section_names(init).contains(name) {
            let i = choose|i: int|
                0 <= i < init.len() && #[trigger] entry_names(init[i]).contains(name);
            assert(entry_names(section[i]).contains(name));
        }
        if exists|i: int|
            0 <= i < section.len() && #[trigger] entry_names(section[i]).contains(name) {
            let i = choose|i: int|
                0 <= i < section.len() && #[trigger] entry_names(section[i]).contains(name);
            if i < init.len() {
                assert(entry_names(init[i]).contains(name));
            }
        }
    }
}

/// A subcommand is known by its name and by each of its aliases, and by nothing
/// else.
pub proof fn law_commands_are_known_by_alias(help: Seq<char>, name: Seq<char>)
    ensures
        commands(help).contains(name) <==> exists|i: int|
            0 <= i < command_section(lines(help)).len() && #[trigger] entry_names(
                command_section(lines(help))[i],
            ).contains(name),
{
    lemma_section_names(command_section(lines(help)), name);
}

/// Whether an option takes a value and is spelled `name`.
pub open spec fn spells_value(o: Opt, name: Seq<char>) -> bool {
    o.takes_value && (o.shorts.contains(name) || o.longs.contains(name))
}

proof fn lemma_value_spellings(os: Seq<Opt>, name: Seq<char>)
    ensures
        value_spellings(os).contains(name) <==> exists|i: int|
            0 <= i < os.len() && #[trigger] spells_value(os[i], name),
    decreases os.len(),
{
    if os.len() > 0 {
        let init = os.drop_last();
        let o = os.last();
        lemma_value_spellings(init, name);
        law_added_names_are_in(value_spellings(init), o.shorts + o.longs, name);
        assert((o.shorts + o.longs).contains(name) <==> o.shorts.contains(name)
            || o.longs.contains(name)) by {
            let both = o.shorts + o.longs;
            if both.contains(name) {
                let k = choose|k: int| 0 <= k < both.len() && both[k] == name;
                if k < o.shorts.len() {
                    assert(o.shorts[k] == name);
                } else {
                    assert(o.longs[k - o.shorts.len()] == name);
                }
            }
            if o.shorts.contains(name) {
                let k = choose|k: int| 0 <= k < o.shorts.len() && o.shorts[k] == name;
                assert(both[k] == name);
            }
            if o.longs.contains(name) {
                let k = choose|k: int| 0 <= k < o.longs.len() && o.longs[k] == name;
                assert(both[k + o.shorts.len()] == name);
            }
        }
        if value_spellings(init).contains(name) {
            let i = choose|i: int| 0 <= i < init.len() && #[trigger] spells_value(init[i], name);
            assert(spells_value(os[i], name));
        }
        if spells_value(o, name) {
            assert(spells_value(os[os.len() - 1], name));
        }
        if exists|i: int| 0 <= i < os.len() && #[trigger] spells_value(os[i], name) {
            let i = choose|i: int| 0 <= i < os.len() && #[trigger] spells_value(os[i], name);
            if i < init.len() {
                assert(spells_value(init[i], name));
            }
        }
    }
}

/// The value flags are the spellings, short and long, of the options that take
/// a value, in whatever section they stand.
pub proof fn law_value_flags_span_all_options(help: Seq<char>, name: Seq<char>)
    ensures
        value_spellings(options(help)).contains(name) <==> exists|i: int|
            0 <= i < options(help).len() && #[trigger] spells_value(options(help)[i], name),
{
    lemma_value_spellings(options(help), name);
}

/// The flag is found wherever there is one. An option with a revset as its
/// value that is spelled `--revision` or `--revisions` is passed as `-r`,
/// whatever else the help lists; without one, an option `--to` is; without that
/// too, a positional revset that can be given as `-r`; and the flag is missing
/// only where there is none of these.
pub proof fn law_revset_flag_is_complete(help: Seq<char>)
    ensures
        (exists|i: int|
            0 <= i < options(help).len() && (#[trigger] options(help)[i]).is_revset && (options(
                help,
            )[i].longs.contains("--revision"@) || options(help)[i].longs.contains(
                "--revisions"@,
            ))) ==> revset_flag(help) == Some(RevsetFlag::Revision),
        revset_flag(help) == Some(RevsetFlag::To) <==> (exists|i: int|
            0 <= i < options(help).len() && (#[trigger] options(help)[i]).is_revset && options(
                help,
            )[i].longs.contains("--to"@)) && !(exists|i: int|
            0 <= i < options(help).len() && (#[trigger] options(help)[i]).is_revset && (options(
                help,
            )[i].longs.contains("--revision"@) || options(help)[i].longs.contains(
                "--revisions"@,
            ))),
        revset_flag(help) is None <==> !positional_revset(help) && forall|i: int|
            0 <= i < options(help).len() && (#[trigger] options(help)[i]).is_revset ==> !options(
                help,
            )[i].longs.contains("--revision"@) && !options(help)[i].longs.contains("--revisions"@)
                && !options(help)[i].longs.contains("--to"@),
{
    let os = options(help);
    assert forall|i: int| 0 <= i < os.len() && (#[trigger] os[i]).is_revset && os[i].longs.contains(
        "--revision"@,
    ) implies revset_option(os, "--revision"@) by {
        assert(os[i].is_revset);
    }
    assert forall|i: int| 0 <= i < os.len() && (#[trigger] os[i]).is_revset && os[i].longs.contains(
        "--revisions"@,
    ) implies revset_option(os, "--revisions"@) by {
        assert(os[i].is_revset);
    }
    assert forall|i: int| 0 <= i < os.len() && (#[trigger] os[i]).is_revset && os[i].longs.contains(
        "--to"@,
    ) implies revset_option(os, "--to"@) by {
        assert(os[i].is_revset);
    }
}

proof fn lemma_named(pieces: Seq<Seq<char>>, name: Seq<char>)
    ensures
        named(pieces).contains(name) <==> name.len() > 0 && exists|i: int|
            0 <= i < pieces.len() && trim(#[trigger] pieces[i]) == name,
    decreases pieces.len(),
{
    if pieces.len() > 0 {
        let init = pieces.drop_last();
        let rest = named(init);
        let t = trim(pieces.last());
        lemma_named(init, name);
        assert(rest.push(t).contains(name) <==> rest.contains(name) || t == name) by {
            let both = rest.push(t);
            if both.contains(name) {
                let k = choose|k: int| 0 <= k < both.len() && both[k] == name;
                if k < rest.len() {
                    assert(rest[k] == name);
                }
            }
            if rest.contains(name) {
                let k = choose|k: int| 0 <= k < rest.len() && rest[k] == name;
                assert(both[k] == name);
            }
            assert(both[rest.len() as int] == t);
        }
        assert((exists|i: int| 0 <= i < pieces.len() && trim(#[trigger] pieces[i]) == name) <==> t
            == name || exists|i: int| 0 <= i < init.len() && trim(#[trigger] init[i]) == name) by {
            if exists|i: int| 0 <= i < pieces.len() && trim(#[trigger] pieces[i]) == name {
                let i = choose|i: int| 0 <= i < pieces.len() && trim(#[trigger] pieces[i]) == name;
                if i < init.len() {
                    assert(trim(init[i]) == name);
                }
            }
            if exists|i: int| 0 <= i < init.len() && trim(#[trigger] init[i]) == name {
                let i = choose|i: int| 0 <= i < init.len() && trim(#[trigger] init[i]) == name;
                assert(trim(pieces[i]) == name);
            }
            assert(pieces[pieces.len() - 1] == pieces.last());
        }
    }
}

/// A pattern whose first character does not occur before it is found there.
proof fn lemma_found(front: Seq<char>, text: Seq<char>, pat: Seq<char>)
    requires
        pat.len() > 0,
        !front.contains(pat[0]),
    ensures
        pat.is_prefix_of(text) ==> find(front + text, pat) == Some(front.len()),
        find(front, pat) is None,
    decreases front.len(),
{
    let line = front + text;
    if front.len() == 0 {
        assert(line =~= text);
    } else {
        assert(front.contains(front[0]));
        if pat.is_prefix_of(line) {
            assert(line.subrange(0, pat.len() as int)[0] == line[0]);
        }
        if pat.is_prefix_of(front) {
            assert(front.subrange(0, pat.len() as int)[0] == front[0]);
        }
        assert(line.skip(1) =~= front.skip(1) + text);
        assert(!front.skip(1).contains(pat[0])) by {
            if front.skip(1).contains(pat[0]) {
                let k = choose|k: int| 0 <= k < front.skip(1).len() && front.skip(1)[k] == pat[0];
                assert(front[k + 1] == pat[0]);
            }
        }
        lemma_found(front.skip(1), text, pat);
    }
}

/// The aliases of a line are what stands between `[aliases:` and the next `]`:
/// all that is there between commas, without the whitespace around it.
pub proof fn law_aliases_are_read(
    front: Seq<char>,
    inside: Seq<char>,
    back: Seq<char>,
    name: Seq<char>,
)
    requires
        !front.contains('['),
        !inside.contains(']'),
    ensures
        alias_items(front + "[aliases:"@ + inside + seq![']'] + back).contains(name) <==> name.len()
            > 0 && exists|i: int|
            0 <= i < split(inside, equal_to(',')).len() && trim(
                #[trigger] split(inside, equal_to(','))[i],
            ) == name,
        alias_items(front).len() == 0,
{
    let pat = "[aliases:"@;
    let line = front + pat + inside + seq![']'] + back;
    let n = front.len() as int;
    let tail = pat + inside + seq![']'] + back;
    assert(pat.len() == 9 && pat[0] == '[') by {
        reveal_strlit("[aliases:");
    }
    assert(pat.is_prefix_of(tail)) by {
        assert(pat =~= tail.subrange(0, 9));
    }
    lemma_found(front, tail, pat);
    assert(line =~= front + tail);
    let after = line.skip(n + 9);
    let end = inside.len() as int;
    assert forall|i: int| 0 <= i < end implies not(equal_to(']'))(#[trigger] after[i]) by {
        assert(after[i] == inside[i]);
        assert(inside.contains(inside[i]));
    }
    assert(after[end] == ']');
    lemma_lead(after, not(equal_to(']')), end);
    assert(after.take(end) =~= inside);
    assert(list_separator(false) =~= equal_to(','));
    lemma_named(split(inside, equal_to(',')), name);
}

/// Whether line `i` is in the section below line `t`, the first `Commands:`.
spec fn in_commands(ls: Seq<Seq<char>>, t: int, i: int) -> bool {
    &&& 0 <= t < i < ls.len()
    &&& ls[t] == "Commands:"@
    &&& forall|m: int| 0 <= m < t ==> #[trigger] ls[m] != "Commands:"@
    &&& forall|m: int|
        #![trigger ls[m]]
        t < m <= i ==> ls[m] == "Commands:"@ || (ls[m].len() > 0 && ls[m][0] == ' ')
}

proof fn lemma_from_commands(ls: Seq<Seq<char>>, j: int) -> (t: int)
    requires
        0 <= j < command_section(ls).len(),
    ensures
        in_commands(ls, t, t + 1 + j),
        command_section(ls)[j] == ls[t + 1 + j],
{
    let p = not(equal_to("Commands:"@));
    let t = lead(ls, p) as int;
    lemma_lead_bounds(ls, p);
    let below = ls.skip(t + 1);
    lemma_lead_bounds(below, command_lines());
    assert forall|m: int| 0 <= m < t implies #[trigger] ls[m] != "Commands:"@ by {
        assert(p(ls[m]));
    }
    assert forall|m: int|
        #![trigger ls[m]]
        t < m <= t + 1 + j implies ls[m] == "Commands:"@ || (ls[m].len() > 0 && ls[m][0]
        == ' ') by {
        assert(command_lines()(below[m - t - 1]));
    }
    t
}

proof fn lemma_to_commands(ls: Seq<Seq<char>>, t: int, i: int)
    requires
        in_commands(ls, t, i),
    ensures
        i - t - 1 < command_section(ls).len(),
        command_section(ls)[i - t - 1] == ls[i],
{
    let p = not(equal_to("Commands:"@));
    assert forall|m: int| 0 <= m < t implies p(#[trigger] ls[m]) by {}
    lemma_lead(ls, p, t);
    let below = ls.skip(t + 1);
    lemma_lead_bounds(below, command_lines());
    let k = lead(below, command_lines()) as int;
    if k <= i - t - 1 {
        assert(below[k] == ls[k + t + 1]);
        assert(!command_lines()(below[k]));
    }
}

/// A subcommand is known where a line indented by two stands below the first
/// `Commands:` of a help with only indented lines between, by the first word of
/// the line and by its aliases.
pub proof fn law_entries_are_commands(help: Seq<char>, t: int, i: int, name: Seq<char>)
    requires
        0 <= t < i < lines(help).len(),
        lines(help)[t] == "Commands:"@,
        forall|m: int| 0 <= m < t ==> #[trigger] lines(help)[m] != "Commands:"@,
        forall|m: int|
            #![trigger lines(help)[m]]
            t < m <= i ==> lines(help)[m].len() > 0 && lines(help)[m][0] == ' ',
        indent(lines(help)[i]) == 2,
        (trim_front(lines(help)[i]).len() > 0 && first_word(trim_front(lines(help)[i])) == name)
            || alias_items(lines(help)[i]).contains(name),
    ensures
        commands(help).contains(name),
{
    let ls = lines(help);
    law_commands_are_known_by_alias(help, name);
    assert(in_commands(ls, t, i));
    lemma_to_commands(ls, t, i);
    lemma_first_and_rest(first_word(trim_front(ls[i])), alias_items(ls[i]), name);
    assert(entry_names(command_section(ls)[i - t - 1]).contains(name));
}

/// Every known subcommand stands there: returns the line `Commands:` and the
/// line that gives the name.
pub proof fn law_commands_are_entries(help: Seq<char>, name: Seq<char>) -> (r: (int, int))
    requires
        commands(help).contains(name),
    ensures
        0 <= r.0 < r.1 < lines(help).len(),
        lines(help)[r.0] == "Commands:"@,
        forall|m: int| 0 <= m < r.0 ==> #[trigger] lines(help)[m] != "Commands:"@,
        forall|m: int|
            #![trigger lines(help)[m]]
            r.0 < m <= r.1 ==> lines(help)[m] == "Commands:"@ || (lines(help)[m].len() > 0 && lines(
                help,
            )[m][0] == ' '),
        indent(lines(help)[r.1]) == 2,
        (trim_front(lines(help)[r.1]).len() > 0 && first_word(trim_front(lines(help)[r.1])) == name)
            || alias_items(lines(help)[r.1]).contains(name),
{
    let ls = lines(help);
    let section = command_section(ls);
    law_commands_are_known_by_alias(help, name);
    let j = choose|j: int|
        0 <= j < section.len() && #[trigger] entry_names(section[j]).contains(name);
    let t = lemma_from_commands(ls, j);
    let i = t + 1 + j;
    lemma_first_and_rest(first_word(trim_front(ls[i])), alias_items(ls[i]), name);
    (t, i)
}

proof fn lemma_first_and_rest(first: Seq<char>, rest: Seq<Seq<char>>, name: Seq<char>)
    ensures
        (seq![first] + rest).contains(name) <==> first == name || rest.contains(name),
{
    let both = seq![first] + rest;
    assert(both[0] == first);
    if both.contains(name) {
        let k = choose|k: int| 0 <= k < both.len() && both[k] == name;
        if k > 0 {
            assert(rest[k - 1] == name);
        }
    }
    if rest.contains(name) {
        let k = choose|k: int| 0 <= k < rest.len() && rest[k] == name;
        assert(both[k + 1] == name);
    }
}

proof fn lemma_value_name(ts: Seq<Seq<char>>)
    ensures
        value_name(ts) is Some <==> exists|i: int|
            0 <= i < ts.len() && placeholder(#[trigger] ts[i]) is Some,
        value_name(ts) matches Some(name) ==> exists|i: int|
            0 <= i < ts.len() && placeholder(#[trigger] ts[i]) == Some(name) && forall|k: int|
                i < k < ts.len() ==> placeholder(#[trigger] ts[k]) is None,
    decreases ts.len(),
{
    if ts.len() > 0 {
        let init = ts.drop_last();
        lemma_value_name(init);
        assert(ts[ts.len() - 1] == ts.last());
        if placeholder(ts.last()) is None {
            if value_name(init) is Some {
                let i = choose|i: int|
                    0 <= i < init.len() && placeholder(#[trigger] init[i]) == value_name(init)
                        && forall|k: int|
                        i < k < init.len() ==> placeholder(#[trigger] init[k]) is None;
                assert(placeholder(ts[i]) == value_name(ts));
                assert forall|k: int| i < k < ts.len() implies placeholder(#[trigger] ts[k])
                    is None by {
                    if k < init.len() {
                        assert(init[k] == ts[k]);
                    }
                }
            } else {
                assert forall|i: int| 0 <= i < ts.len() implies placeholder(#[trigger] ts[i])
                    is None by {
                    if i < init.len() {
                        assert(init[i] == ts[i]);
                    }
                }
            }
        }
    }
}

/// What a token `<NAME>` declares, and that no other token declares a value.
pub proof fn law_placeholders_are_bracketed(name: Seq<char>, rest: Seq<char>, t: Seq<char>)
    requires
        !name.contains('>'),
    ensures
        placeholder(seq!['<'] + name + seq!['>'] + rest) == Some(name),
        t.len() == 0 || t[0] != '<' || !t.contains('>') ==> placeholder(t) is None,
{
    let s = seq!['<'] + name + seq!['>'] + rest;
    let inner = s.skip(1);
    let n = name.len() as int;
    assert forall|i: int| 0 <= i < n implies not(equal_to('>'))(#[trigger] inner[i]) by {
        assert(inner[i] == name[i]);
        assert(name.contains(name[i]));
    }
    assert(inner[n] == '>');
    lemma_lead(inner, not(equal_to('>')), n);
    assert(inner.take(n) =~= name);
    if t.len() > 0 && t[0] == '<' && !t.contains('>') {
        let tail = t.skip(1);
        assert forall|i: int| 0 <= i < tail.len() implies not(equal_to('>'))(
            #[trigger] tail[i],
        ) by {
            assert(tail[i] == t[i + 1]);
            assert(t.contains(t[i + 1]));
        }
        lemma_lead(tail, not(equal_to('>')), tail.len() as int);
    }
}

/// The head of an option, by its tokens: those that begin with `--` are its long
/// spellings, up to a `=`; the others that begin with `-` are its short ones; it
/// takes a value where there is a placeholder, and the last one tells whether
/// the value is a revset.
pub proof fn law_option_head_is_read(line: Seq<char>, name: Seq<char>)
    ensures
        ({
            let ts = split(line, list_separator(true));
            &&& header(line).longs.contains(name) <==> exists|i: int|
                0 <= i < ts.len() && "--"@.is_prefix_of(#[trigger] ts[i]) && before(ts[i], '=')
                    == name
            &&& header(line).shorts.contains(name) <==> name.len() > 0 && name[0] == '-'
                && !"--"@.is_prefix_of(name) && ts.contains(name)
            &&& header(line).takes_value <==> exists|i: int|
                0 <= i < ts.len() && placeholder(#[trigger] ts[i]) is Some
            &&& header(line).is_revset <==> exists|i: int|
                0 <= i < ts.len() && (placeholder(#[trigger] ts[i]) == Some("REVSET"@)
                    || placeholder(ts[i]) == Some("REVSETS"@)) && forall|k: int|
                    i < k < ts.len() ==> placeholder(#[trigger] ts[k]) is None
        }),
{
    let ts = split(line, list_separator(true));
    let kept = ts.filter(long_flags());
    let short = ts.filter(short_flags());
    lemma_filtered(ts, long_flags());
    lemma_filtered(ts, short_flags());
    if header(line).longs.contains(name) {
        let k = choose|k: int| 0 <= k < bare_names(kept).len() && bare_names(kept)[k] == name;
        assert(kept.contains(kept[k]));
        assert(ts.contains(kept[k]) && long_flags()(kept[k]));
        let i = choose|i: int| 0 <= i < ts.len() && ts[i] == kept[k];
        assert("--"@.is_prefix_of(ts[i]) && before(ts[i], '=') == name);
    }
    if exists|i: int|
        0 <= i < ts.len() && "--"@.is_prefix_of(#[trigger] ts[i]) && before(ts[i], '=') == name {
        let i = choose|i: int|
            0 <= i < ts.len() && "--"@.is_prefix_of(#[trigger] ts[i]) && before(ts[i], '=') == name;
        assert(ts.contains(ts[i]) && long_flags()(ts[i]));
        assert(kept.contains(ts[i]));
        let k = choose|k: int| 0 <= k < kept.len() && kept[k] == ts[i];
        assert(bare_names(kept)[k] == name);
    }
    assert(short.contains(name) <==> ts.contains(name) && short_flags()(name));
    lemma_value_name(ts);
    if exists|i: int|
        0 <= i < ts.len() && (placeholder(#[trigger] ts[i]) == Some("REVSET"@) || placeholder(ts[i])
            == Some("REVSETS"@)) && forall|k: int|
            i < k < ts.len() ==> placeholder(#[trigger] ts[k]) is None {
        let i = choose|i: int|
            0 <= i < ts.len() && (placeholder(#[trigger] ts[i]) == Some("REVSET"@) || placeholder(
                ts[i],
            ) == Some("REVSETS"@)) && forall|k: int|
                i < k < ts.len() ==> placeholder(#[trigger] ts[k]) is None;
        let v = value_name(ts)->0;
        let j = choose|j: int|
            0 <= j < ts.len() && placeholder(#[trigger] ts[j]) == Some(v) && forall|k: int|
                j < k < ts.len() ==> placeholder(#[trigger] ts[k]) is None;
        assert(placeholder(ts[i]) is Some && placeholder(ts[j]) is Some);
        assert(i == j);
    }
}

/// Filtering keeps the elements that satisfy the predicate, and no others.
proof fn lemma_filtered(s: Seq<Seq<char>>, p: spec_fn(Seq<char>) -> bool)
    ensures
        forall|x: Seq<char>| #[trigger] s.filter(p).contains(x) <==> s.contains(x) && p(x),
{
    assert forall|x: Seq<char>| #[trigger] s.filter(p).contains(x) implies s.contains(x) && p(x) by {
        let k = choose|k: int| 0 <= k < s.filter(p).len() && s.filter(p)[k] == x;
        s.lemma_filter_pred(p, k);
        s.lemma_filter_contains_rev(p, x);
    }
    assert forall|x: Seq<char>| s.contains(x) && p(x) implies #[trigger] s.filter(p).contains(x) by {
        let k = choose|k: int| 0 <= k < s.len() && s[k] == x;
        s.lemma_filter_contains(p, k);
    }
}

/// What a title is, and what starts an option: an indentation of two and a flag,
/// or an indentation of six and a long flag.
pub proof fn law_options_start_at_their_indentation(line: Seq<char>)
    ensures
        is_title(line) <==> line.len() > 0 && line[0] != ' ',
        opens_option(line) <==> (indent(line) == 2 && trim_front(line).len() > 0 && trim_front(
            line,
        )[0] == '-') || (indent(line) == 6 && trim_front(line).len() > 1 && trim_front(line)[0]
            == '-' && trim_front(line)[1] == '-'),
{
    reveal_strlit("--");
    let text = trim_front(line);
    if "--"@.is_prefix_of(text) {
        assert(text.subrange(0, 2)[0] == '-' && text.subrange(0, 2)[1] == '-');
    } else if text.len() > 1 && text[0] == '-' && text[1] == '-' {
        assert("--"@ =~= text.subrange(0, 2));
    }
}

proof fn lemma_extended(o: Opt, more: Seq<Seq<char>>, name: Seq<char>)
    ensures
        extended(o, more).takes_value == o.takes_value,
        extended(o, more).is_revset == o.is_revset,
        extended(o, more).longs.contains(name) <==> o.longs.contains(name) || (is_long(name)
            && exists|j: int| 0 <= j < more.len() && alias_items(#[trigger] more[j]).contains(name)),
        extended(o, more).shorts.contains(name) <==> o.shorts.contains(name) || (is_short(name)
            && exists|j: int| 0 <= j < more.len() && alias_items(#[trigger] more[j]).contains(name)),
    decreases more.len(),
{
    if more.len() > 0 {
        let init = more.drop_last();
        let base = extended(o, init);
        let names = add_names(seq![], alias_items(more.last()));
        lemma_extended(o, init, name);
        law_added_names_are_in(seq![], alias_items(more.last()), name);
        lemma_filtered(names, long_flags());
        lemma_filtered(names, short_flags());
        lemma_either(base.longs, names.filter(long_flags()), name);
        lemma_either(base.shorts, names.filter(short_flags()), name);
        assert(more[more.len() - 1] == more.last());
        assert((exists|j: int|
            0 <= j < more.len() && alias_items(#[trigger] more[j]).contains(name)) <==> alias_items(
            more.last(),
        ).contains(name) || exists|j: int|
            0 <= j < init.len() && alias_items(#[trigger] init[j]).contains(name)) by {
            if exists|j: int| 0 <= j < more.len() && alias_items(#[trigger] more[j]).contains(name) {
                let j = choose|j: int|
                    0 <= j < more.len() && alias_items(#[trigger] more[j]).contains(name);
                if j < init.len() {
                    assert(alias_items(init[j]).contains(name));
                }
            }
            if exists|j: int| 0 <= j < init.len() && alias_items(#[trigger] init[j]).contains(name) {
                let j = choose|j: int|
                    0 <= j < init.len() && alias_items(#[trigger] init[j]).contains(name);
                assert(alias_items(more[j]).contains(name));
            }
        }
    }
}

proof fn lemma_either(a: Seq<Seq<char>>, b: Seq<Seq<char>>, name: Seq<char>)
    ensures
        (a + b).contains(name) <==> a.contains(name) || b.contains(name),
{
    let both = a + b;
    if both.contains(name) {
        let k = choose|k: int| 0 <= k < both.len() && both[k] == name;
        if k < a.len() {
            assert(a[k] == name);
        } else {
            assert(b[k - a.len()] == name);
        }
    }
    if a.contains(name) {
        let k = choose|k: int| 0 <= k < a.len() && a[k] == name;
        assert(both[k] == name);
    }
    if b.contains(name) {
        let k = choose|k: int| 0 <= k < b.len() && b[k] == name;
        assert(both[k + a.len()] == name);
    }
}

/// Whether line `i` stands below a title that ends in `Options:`, where `on`
/// tells whether the first line does.
spec fn below_options(ls: Seq<Seq<char>>, on: bool, i: int) -> bool {
    ||| on && forall|m: int| 0 <= m <= i ==> !is_title(#[trigger] ls[m])
    ||| exists|t: int|
        0 <= t < i && is_title(#[trigger] ls[t]) && "Options:"@.is_suffix_of(ls[t]) && forall|m: int|
            t < m <= i ==> !is_title(#[trigger] ls[m])
}

/// The lines after line `i` that belong to the option it starts.
spec fn further(ls: Seq<Seq<char>>, i: int) -> Seq<Seq<char>> {
    ls.skip(i + 1).take(lead(ls.skip(i + 1), continuation()) as int)
}

proof fn lemma_below_step(ls: Seq<Seq<char>>, on: bool, i: int)
    requires
        0 < i < ls.len(),
    ensures
        below_options(ls, on, i) ==> below_options(
            ls.skip(1),
            if is_title(ls[0]) { "Options:"@.is_suffix_of(ls[0]) } else { on },
            i - 1,
        ),
        below_options(
            ls.skip(1),
            if is_title(ls[0]) { "Options:"@.is_suffix_of(ls[0]) } else { on },
            i - 1,
        ) ==> below_options(ls, on, i),
        further(ls.skip(1), i - 1) == further(ls, i),
{
    let r = ls.skip(1);
    let next = if is_title(ls[0]) { "Options:"@.is_suffix_of(ls[0]) } else { on };
    assert(r.skip(i) =~= ls.skip(i + 1));
    assert(forall|m: int| 0 <= m < r.len() ==> #[trigger] r[m] == ls[m + 1]);
    assert(forall|m: int| 1 <= m < ls.len() ==> #[trigger] ls[m] == r[m - 1]);
    if below_options(ls, on, i) {
        if on && forall|m: int| 0 <= m <= i ==> !is_title(#[trigger] ls[m]) {
            assert(!is_title(ls[0]));
            assert(forall|m: int| 0 <= m <= i - 1 ==> !is_title(#[trigger] r[m]));
        } else {
            let t = choose|t: int|
                0 <= t < i && is_title(#[trigger] ls[t]) && "Options:"@.is_suffix_of(ls[t])
                    && forall|m: int| t < m <= i ==> !is_title(#[trigger] ls[m]);
            if t == 0 {
                assert(forall|m: int| 0 <= m <= i - 1 ==> !is_title(#[trigger] r[m]));
            } else {
                assert(is_title(r[t - 1]) && "Options:"@.is_suffix_of(r[t - 1]));
                assert(forall|m: int| t - 1 < m <= i - 1 ==> !is_title(#[trigger] r[m]));
            }
        }
    }
    if below_options(r, next, i - 1) {
        if next && forall|m: int| 0 <= m <= i - 1 ==> !is_title(#[trigger] r[m]) {
            assert(forall|m: int| 1 <= m <= i ==> !is_title(#[trigger] ls[m]));
            if is_title(ls[0]) {
                assert(is_title(ls[0]) && "Options:"@.is_suffix_of(ls[0]));
            }
        } else {
            let t = choose|t: int|
                0 <= t < i - 1 && is_title(#[trigger] r[t]) && "Options:"@.is_suffix_of(r[t])
                    && forall|m: int| t < m <= i - 1 ==> !is_title(#[trigger] r[m]);
            assert(is_title(ls[t + 1]) && "Options:"@.is_suffix_of(ls[t + 1]));
            assert(forall|m: int| t + 1 < m <= i ==> !is_title(#[trigger] ls[m]));
        }
    }
}

proof fn lemma_option_found(ls: Seq<Seq<char>>, on: bool, i: int) -> (k: int)
    requires
        0 <= i < ls.len(),
        below_options(ls, on, i),
        !is_title(ls[i]),
        opens_option(ls[i]),
    ensures
        0 <= k < options_of(ls, on).len(),
        options_of(ls, on)[k] == extended(header(trim_front(ls[i])), further(ls, i)),
    decreases i,
{
    if i == 0 {
        0
    } else {
        lemma_below_step(ls, on, i);
        let next = if is_title(ls[0]) { "Options:"@.is_suffix_of(ls[0]) } else { on };
        assert(ls.skip(1)[i - 1] == ls[i]);
        let k = lemma_option_found(ls.skip(1), next, i - 1);
        if !is_title(ls[0]) && on && opens_option(ls[0]) {
            k + 1
        } else {
            k
        }
    }
}

proof fn lemma_option_source(ls: Seq<Seq<char>>, on: bool, k: int) -> (i: int)
    requires
        0 <= k < options_of(ls, on).len(),
    ensures
        0 <= i < ls.len(),
        below_options(ls, on, i),
        !is_title(ls[i]),
        opens_option(ls[i]),
        options_of(ls, on)[k] == extended(header(trim_front(ls[i])), further(ls, i)),
    decreases ls.len(),
{
    let next = if is_title(ls[0]) { "Options:"@.is_suffix_of(ls[0]) } else { on };
    let own = !is_title(ls[0]) && on && opens_option(ls[0]);
    if own && k == 0 {
        0
    } else {
        let i = lemma_option_source(ls.skip(1), next, if own { k - 1 } else { k });
        lemma_below_step(ls, on, i + 1);
        assert(ls.skip(1)[i] == ls[i + 1]);
        i + 1
    }
}

/// Every option is found, in whatever section it stands: for a line that starts
/// one below a title that ends in `Options:`, returns which option it is. It has
/// the spellings of that line and those that the lines up to the next option or
/// title list as aliases.
pub proof fn law_every_option_is_found(help: Seq<char>, t: int, i: int) -> (k: int)
    requires
        0 <= t < i < lines(help).len(),
        is_title(lines(help)[t]),
        "Options:"@.is_suffix_of(lines(help)[t]),
        forall|m: int| t < m <= i ==> !is_title(#[trigger] lines(help)[m]),
        opens_option(lines(help)[i]),
    ensures
        0 <= k < options(help).len(),
        options(help)[k].takes_value == header(trim_front(lines(help)[i])).takes_value,
        options(help)[k].is_revset == header(trim_front(lines(help)[i])).is_revset,
        forall|name: Seq<char>| #[trigger]
            header(trim_front(lines(help)[i])).longs.contains(name) ==> options(
                help,
            )[k].longs.contains(name),
        forall|name: Seq<char>| #[trigger]
            header(trim_front(lines(help)[i])).shorts.contains(name) ==> options(
                help,
            )[k].shorts.contains(name),
        forall|j: int, name: Seq<char>|
            #![trigger alias_items(lines(help)[j]).contains(name)]
            i < j < lines(help).len() && (forall|m: int|
                #![trigger lines(help)[m]]
                i < m <= j ==> !is_title(lines(help)[m]) && !opens_option(lines(help)[m]))
                && alias_items(lines(help)[j]).contains(name) ==> (is_long(name) ==> options(
                help,
            )[k].longs.contains(name)) && (is_short(name) ==> options(help)[k].shorts.contains(
                name,
            )),
{
    let ls = lines(help);
    assert(below_options(ls, false, i));
    let k = lemma_option_found(ls, false, i);
    let o = header(trim_front(ls[i]));
    let more = further(ls, i);
    let after = ls.skip(i + 1);
    lemma_lead_bounds(after, continuation());
    lemma_extended(o, more, seq![]);
    assert forall|name: Seq<char>| #[trigger] o.longs.contains(name) implies options(
        help,
    )[k].longs.contains(name) by {
        lemma_extended(o, more, name);
    }
    assert forall|name: Seq<char>| #[trigger] o.shorts.contains(name) implies options(
        help,
    )[k].shorts.contains(name) by {
        lemma_extended(o, more, name);
    }
    assert forall|j: int, name: Seq<char>|
        #![trigger alias_items(ls[j]).contains(name)]
        i < j < ls.len() && (forall|m: int|
            #![trigger ls[m]]
            i < m <= j ==> !is_title(ls[m]) && !opens_option(ls[m])) && alias_items(ls[j]).contains(
            name,
        ) implies (is_long(name) ==> options(help)[k].longs.contains(name)) && (is_short(name)
        ==> options(help)[k].shorts.contains(name)) by {
        lemma_extended(o, more, name);
        let n = lead(after, continuation()) as int;
        if n <= j - i - 1 {
            assert(after[n] == ls[n + i + 1]);
            assert(!continuation()(after[n]));
        }
        assert(more[j - i - 1] == ls[j]);
        assert(alias_items(more[j - i - 1]).contains(name));
    }
    k
}

/// There are no other options: returns for each the line that starts it, and for
/// a spelling the line that gives it, which is that line or one that belongs to
/// it.
pub proof fn law_options_are_listed(help: Seq<char>, k: int, name: Seq<char>) -> (r: (
    int,
    int,
    int,
))
    requires
        0 <= k < options(help).len(),
        options(help)[k].longs.contains(name) || options(help)[k].shorts.contains(name),
    ensures
        0 <= r.0 < r.1 <= r.2 < lines(help).len(),
        is_title(lines(help)[r.0]),
        "Options:"@.is_suffix_of(lines(help)[r.0]),
        forall|m: int| r.0 < m <= r.1 ==> !is_title(#[trigger] lines(help)[m]),
        opens_option(lines(help)[r.1]),
        forall|m: int|
            #![trigger lines(help)[m]]
            r.1 < m <= r.2 ==> !is_title(lines(help)[m]) && !opens_option(lines(help)[m]),
        options(help)[k].takes_value == header(trim_front(lines(help)[r.1])).takes_value,
        options(help)[k].is_revset == header(trim_front(lines(help)[r.1])).is_revset,
        r.2 > r.1 ==> alias_items(lines(help)[r.2]).contains(name),
        r.2 == r.1 ==> header(trim_front(lines(help)[r.1])).longs.contains(name) || header(
            trim_front(lines(help)[r.1]),
        ).shorts.contains(name),
{
    let ls = lines(help);
    let i = lemma_option_source(ls, false, k);
    let t = choose|t: int|
        0 <= t < i && is_title(#[trigger] ls[t]) && "Options:"@.is_suffix_of(ls[t]) && forall|
            m: int,
        |
            t < m <= i ==> !is_title(#[trigger] ls[m]);
    let o = header(trim_front(ls[i]));
    let more = further(ls, i);
    lemma_extended(o, more, name);
    let after = ls.skip(i + 1);
    lemma_lead_bounds(after, continuation());
    if o.longs.contains(name) || o.shorts.contains(name) {
        (t, i, i)
    } else {
        let j = choose|j: int| 0 <= j < more.len() && alias_items(#[trigger] more[j]).contains(name);
        assert(more[j] == ls[i + 1 + j]);
        assert forall|m: int|
            #![trigger ls[m]]
            i < m <= i + 1 + j implies !is_title(ls[m]) && !opens_option(ls[m]) by {
            assert(continuation()(after[m - i - 1]));
        }
        (t, i, i + 1 + j)
    }
}

/// Whether line `i` is in the section below line `t`, the first `Arguments:`.
spec fn in_arguments(ls: Seq<Seq<char>>, t: int, i: int) -> bool {
    &&& 0 <= t < i < ls.len()
    &&& ls[t] == "Arguments:"@
    &&& forall|m: int| 0 <= m < t ==> #[trigger] ls[m] != "Arguments:"@
    &&& forall|m: int|
        #![trigger ls[m]]
        t < m <= i ==> ls[m] == "Arguments:"@ || ls[m].len() == 0 || ls[m][0] == ' '
}

proof fn lemma_to_arguments(ls: Seq<Seq<char>>, t: int, i: int)
    requires
        in_arguments(ls, t, i),
    ensures
        i - t - 1 < argument_section(ls).len(),
        forall|m: int| 0 <= m <= i - t - 1 ==> #[trigger] argument_section(ls)[m] == ls[t + 1 + m],
{
    let p = not(equal_to("Arguments:"@));
    assert forall|m: int| 0 <= m < t implies p(#[trigger] ls[m]) by {}
    lemma_lead(ls, p, t);
    let below = ls.skip(t + 1);
    lemma_lead_bounds(below, argument_line());
    let k = lead(below, argument_line()) as int;
    if k <= i - t - 1 {
        assert(below[k] == ls[k + t + 1]);
        assert(!argument_line()(below[k]));
    }
}

proof fn lemma_from_arguments(ls: Seq<Seq<char>>, j: int) -> (t: int)
    requires
        0 <= j < argument_section(ls).len(),
    ensures
        in_arguments(ls, t, t + 1 + j),
        forall|m: int| 0 <= m <= j ==> #[trigger] argument_section(ls)[m] == ls[t + 1 + m],
{
    let p = not(equal_to("Arguments:"@));
    let t = lead(ls, p) as int;
    lemma_lead_bounds(ls, p);
    let below = ls.skip(t + 1);
    lemma_lead_bounds(below, argument_line());
    assert forall|m: int| 0 <= m < t implies #[trigger] ls[m] != "Arguments:"@ by {
        assert(p(ls[m]));
    }
    assert forall|m: int|
        #![trigger ls[m]]
        t < m <= t + 1 + j implies ls[m] == "Arguments:"@ || ls[m].len() == 0 || ls[m][0]
        == ' ' by {
        assert(argument_line()(below[m - t - 1]));
    }
    t
}

proof fn lemma_in_argument(ls: Seq<Seq<char>>, h: int)
    requires
        0 <= h < ls.len(),
        opens_argument(ls[h]),
        revset_name(argument_name(ls[h])),
        forall|m: int| h < m < ls.len() ==> !opens_argument(#[trigger] ls[m]),
    ensures
        in_revset_argument(ls),
    decreases ls.len(),
{
    if h < ls.len() - 1 {
        assert(!opens_argument(ls[ls.len() - 1]));
        assert forall|m: int| h < m < ls.len() - 1 implies !opens_argument(
            #[trigger] ls.drop_last()[m],
        ) by {
            assert(ls.drop_last()[m] == ls[m]);
        }
        lemma_in_argument(ls.drop_last(), h);
    }
}

proof fn lemma_argument_source(ls: Seq<Seq<char>>) -> (h: int)
    requires
        in_revset_argument(ls),
    ensures
        0 <= h < ls.len(),
        opens_argument(ls[h]),
        revset_name(argument_name(ls[h])),
        forall|m: int| h < m < ls.len() ==> !opens_argument(#[trigger] ls[m]),
    decreases ls.len(),
{
    if opens_argument(ls.last()) {
        ls.len() - 1
    } else {
        let h = lemma_argument_source(ls.drop_last());
        assert forall|m: int| h < m < ls.len() implies !opens_argument(#[trigger] ls[m]) by {
            if m < ls.len() - 1 {
                assert(ls.drop_last()[m] == ls[m]);
            }
        }
        h
    }
}

/// A positional revset is found: below the first `Arguments:` of a help, with no
/// title between, a line names a revset, and a line that belongs to it lists
/// `-r` or `--revision` among its aliases.
pub proof fn law_positional_revset_is_found(help: Seq<char>, t: int, h: int, i: int)
    requires
        0 <= t < h <= i < lines(help).len(),
        lines(help)[t] == "Arguments:"@,
        forall|m: int| 0 <= m < t ==> #[trigger] lines(help)[m] != "Arguments:"@,
        forall|m: int|
            #![trigger lines(help)[m]]
            t < m <= i ==> lines(help)[m].len() == 0 || lines(help)[m][0] == ' ',
        opens_argument(lines(help)[h]),
        argument_name(lines(help)[h]) == "REVSET"@ || argument_name(lines(help)[h]) == "REVSETS"@,
        forall|m: int| h < m <= i ==> !opens_argument(#[trigger] lines(help)[m]),
        alias_items(lines(help)[i]).contains("-r"@) || alias_items(lines(help)[i]).contains(
            "--revision"@,
        ),
    ensures
        positional_revset(help),
{
    let ls = lines(help);
    let section = argument_section(ls);
    assert(in_arguments(ls, t, i));
    lemma_to_arguments(ls, t, i);
    let j = i - t - 1;
    let upto = section.take(j + 1);
    assert(upto[h - t - 1] == ls[h]);
    assert forall|m: int| h - t - 1 < m < upto.len() implies !opens_argument(#[trigger] upto[m]) by {
        assert(upto[m] == ls[m + t + 1]);
    }
    lemma_in_argument(upto, h - t - 1);
    law_added_names_are_in(seq![], alias_items(ls[i]), "-r"@);
    law_added_names_are_in(seq![], alias_items(ls[i]), "--revision"@);
    assert(aliases_revision(section[j]));
}

/// There is no other positional revset: returns the lines that make it one, the
/// `Arguments:`, the one that names it, and the one that gives its alias.
pub proof fn law_positional_revset_is_listed(help: Seq<char>) -> (r: (int, int, int))
    requires
        positional_revset(help),
    ensures
        0 <= r.0 < r.1 <= r.2 < lines(help).len(),
        lines(help)[r.0] == "Arguments:"@,
        forall|m: int| 0 <= m < r.0 ==> #[trigger] lines(help)[m] != "Arguments:"@,
        forall|m: int|
            #![trigger lines(help)[m]]
            r.0 < m <= r.2 ==> lines(help)[m] == "Arguments:"@ || lines(help)[m].len() == 0 || lines(
                help,
            )[m][0] == ' ',
        opens_argument(lines(help)[r.1]),
        argument_name(lines(help)[r.1]) == "REVSET"@ || argument_name(lines(help)[r.1])
            == "REVSETS"@,
        forall|m: int| r.1 < m <= r.2 ==> !opens_argument(#[trigger] lines(help)[m]),
        alias_items(lines(help)[r.2]).contains("-r"@) || alias_items(lines(help)[r.2]).contains(
            "--revision"@,
        ),
{
    let ls = lines(help);
    let section = argument_section(ls);
    let j = choose|j: int|
        0 <= j < section.len() && #[trigger] in_revset_argument(section.take(j + 1))
            && aliases_revision(section[j]);
    let t = lemma_from_arguments(ls, j);
    let upto = section.take(j + 1);
    let h = lemma_argument_source(upto);
    assert(section[h] == ls[t + 1 + h]);
    assert(section[j] == ls[t + 1 + j]);
    assert forall|m: int| t + 1 + h < m <= t + 1 + j implies !opens_argument(#[trigger] ls[m]) by {
        assert(upto[m - t - 1] == section[m - t - 1]);
        assert(section[m - t - 1] == ls[m]);
    }
    law_added_names_are_in(seq![], alias_items(section[j]), "-r"@);
    law_added_names_are_in(seq![], alias_items(section[j]), "--revision"@);
    (t, t + 1 + h, t + 1 + j)
}

/// A bracketed word loses its brackets.
proof fn lemma_unbracket(a: Seq<char>, name: Seq<char>, b: Seq<char>)
    requires
        forall|i: int| 0 <= i < a.len() ==> bracket(#[trigger] a[i]),
        forall|i: int| 0 <= i < b.len() ==> bracket(#[trigger] b[i]),
        name.len() > 0,
        !bracket(name[0]),
        !bracket(name.last()),
    ensures
        unbracket(a + name + b) == name,
{
    let s = a + name + b;
    let n = a.len() as int;
    assert forall|i: int| 0 <= i < n implies brackets()(#[trigger] s[i]) by {
        assert(s[i] == a[i]);
    }
    assert(s[n] == name[0]);
    lemma_lead(s, brackets(), n);
    let front = s.skip(n);
    assert(front =~= name + b);
    let k = b.len() as int;
    assert forall|i: int| front.len() - k <= i < front.len() implies brackets()(
        #[trigger] front[i],
    ) by {
        assert(front[i] == b[i - name.len()]);
    }
    assert(front[front.len() - k - 1] == name.last());
    lemma_trail(front, brackets(), k);
    assert(front.take(front.len() - k) =~= name);
}

/// The name of an argument is read from `[NAME]` and `<NAME>`, each also with
/// `...` behind it, two columns from the margin.
pub proof fn law_argument_names_are_read(name: Seq<char>, open: char, close: char)
    requires
        (open == '[' && close == ']') || (open == '<' && close == '>'),
        name.len() > 0,
        forall|i: int|
            #![trigger name[i]]
            0 <= i < name.len() ==> !bracket(name[i]) && name[i] != '.' && !whitespace(name[i]),
    ensures
        ({
            let line = seq![' ', ' ', open] + name + seq![close];
            let dotted = seq![' ', ' ', open] + name + seq![close, '.', '.', '.'];
            &&& opens_argument(line) && argument_name(line) == name
            &&& opens_argument(dotted) && argument_name(dotted) == name
        }),
{
    reveal_strlit("...");
    let word = seq![open] + name + seq![close];
    let more = seq![open] + name + seq![close, '.', '.', '.'];
    let pad = Seq::new(2, |i: int| ' ');
    assert(seq![' ', ' ', open] + name + seq![close] =~= pad + word);
    assert(seq![' ', ' ', open] + name + seq![close, '.', '.', '.'] =~= pad + more);
    law_indent_counts_spaces(2, word);
    law_indent_counts_spaces(2, more);
    assert forall|i: int| 0 <= i < word.len() implies !whitespace(#[trigger] word[i]) by {
        if 1 <= i <= name.len() {
            assert(word[i] == name[i - 1]);
        }
    }
    assert forall|i: int| 0 <= i < more.len() implies !whitespace(#[trigger] more[i]) by {
        if 1 <= i <= name.len() {
            assert(more[i] == name[i - 1]);
        }
    }
    law_first_word_ends_at_whitespace(word, ' ', seq![]);
    law_first_word_ends_at_whitespace(more, ' ', seq![]);
    assert(!bracket(name[name.len() - 1]));
    assert(name.last() != '.');
    // Without dots, the brackets come off and nothing else is left to do.
    lemma_unbracket(seq![open], name, seq![close]);
    assert(undot(name) == name) by {
        if name.len() >= 3 && "..."@.is_suffix_of(name) {
            assert(name.subrange(name.len() - 3, name.len() as int)[2] == '.');
        }
    }
    assert(Seq::<char>::empty() + name + Seq::<char>::empty() =~= name);
    lemma_unbracket(seq![], name, seq![]);
    // With dots, the closing bracket comes off after them.
    let inner = name + seq![close, '.', '.', '.'];
    assert(more =~= seq![open] + inner + Seq::<char>::empty());
    assert(inner[0] == name[0]);
    lemma_unbracket(seq![open], inner, seq![]);
    let undotted = name.push(close);
    assert("..."@ =~= inner.subrange(inner.len() - 3, inner.len() as int));
    assert(inner.take(inner.len() - 3) =~= undotted);
    assert(undot(undotted) == undotted) by {
        if undotted.len() >= 3 && "..."@.is_suffix_of(undotted) {
            assert(undotted.subrange(undotted.len() - 3, undotted.len() as int)[2] == '.');
        }
    }
    assert(undot(inner) == undotted);
    assert(undotted =~= Seq::<char>::empty() + name + seq![close]);
    lemma_unbracket(seq![], name, seq![close]);
}

/// What opens an argument is indented by two and starts with a bracket.
pub proof fn law_arguments_start_with_a_bracket(line: Seq<char>)
    ensures
        opens_argument(line) <==> indent(line) == 2 && trim_front(line).len() > 0 && (trim_front(
            line,
        )[0] == '[' || trim_front(line)[0] == '<'),
{
}

/// The flags that take a value are all spellings, short and long, of the options
/// with a placeholder, and no others.
pub proof fn law_value_flags_are_all_spellings(help: Seq<char>, name: Seq<char>)
    ensures
        value_spellings(options(help)).contains(name) <==> exists|i: int|
            0 <= i < options(help).len() && (#[trigger] options(help)[i]).takes_value && (options(
                help,
            )[i].shorts.contains(name) || options(help)[i].longs.contains(name)),
{
    let os = options(help);
    law_value_flags_span_all_options(help, name);
    if value_spellings(os).contains(name) {
        let i = choose|i: int| 0 <= i < os.len() && #[trigger] spells_value(os[i], name);
        assert(os[i].takes_value);
    }
    if exists|i: int|
        0 <= i < os.len() && (#[trigger] os[i]).takes_value && (os[i].shorts.contains(name)
            || os[i].longs.contains(name)) {
        let i = choose|i: int|
            0 <= i < os.len() && (#[trigger] os[i]).takes_value && (os[i].shorts.contains(name)
                || os[i].longs.contains(name));
        assert(spells_value(os[i], name));
    }
}

} // verus!
