//! The subcommand that an invocation names, and whether it is told which
//! revision to act on.

use crate::decode::{decode, text};
use crate::help::{
    commands, options, parse_commands_section, parse_revset_flag, positional_revset,
    positional_revset_accepts_r, revset_flag, value_flags, value_spellings, RevsetFlag,
};
use crate::names::NameSet;
use crate::text::{
    before, cut_before, equal_to, equals, index_of, lead, lemma_lead, lemma_lead_bounds, not,
    starts_with, strs, to_chars,
};
use vstd::prelude::*;

verus! {

// ---------------------------------------------------------------------------
// Pinned revisions

/// The names by which a revset is passed.
pub open spec fn revset_spelling(name: Seq<char>) -> bool {
    ||| name == "-r"@
    ||| name == "--revision"@
    ||| name == "--revisions"@
    ||| name == "-t"@
    ||| name == "--to"@
}

/// Whether an argument is a revset flag, alone or as `--flag=value`.
pub open spec fn is_revset_flag(arg: Seq<char>) -> bool {
    revset_spelling(before(arg, '='))
}

/// Whether some argument is a revset flag.
pub open spec fn names_revset(args: Seq<Seq<char>>) -> bool {
    exists|i: int| 0 <= i < args.len() && #[trigger] is_revset_flag(args[i])
}

/// Whether the arguments carry a revset flag (`-r`, `--revision`,
/// `--revisions`, `-t`, `--to`), as a token of its own or as `--flag=value`.
pub fn has_revset_flag(passthrough: &[String]) -> (r: bool)
    ensures
        r == names_revset(strs(passthrough@)),
{
    for i in 0..passthrough.len()
        invariant
            forall|k: int| 0 <= k < i ==> !#[trigger] is_revset_flag(strs(passthrough@)[k]),
    {
        assert(strs(passthrough@)[i as int] == passthrough@[i as int]@);
        let text = to_chars(passthrough[i].as_str());
        let name = cut_before(text.as_slice(), '=');
        if equals(name, "-r") || equals(name, "--revision") || equals(name, "--revisions")
            || equals(name, "-t") || equals(name, "--to") {
            assert(is_revset_flag(strs(passthrough@)[i as int]));
            return true;
        }
    }
    false
}

pub open spec fn is_dashed(arg: Seq<char>) -> bool {
    arg.len() > 1 && arg[0] == '-'
}

/// Whether a flag takes the next argument as its value: a short flag by its
/// spelling, a long flag only where it has no `=value` of its own.
pub open spec fn takes_next(arg: Seq<char>, value_flags: Seq<Seq<char>>) -> bool {
    &&& value_flags.contains(arg)
    &&& "--"@.is_prefix_of(arg) ==> !arg.contains('=')
}

/// Whether some argument is neither a flag nor the value of one. Everything
/// after a bare `--` is positional.
pub open spec fn bare_positional(args: Seq<Seq<char>>, value_flags: Seq<Seq<char>>) -> bool
    decreases args.len(),
{
    if args.len() == 0 {
        false
    } else if args[0] == "--"@ {
        args.len() > 1
    } else if !is_dashed(args[0]) {
        true
    } else if takes_next(args[0], value_flags) && args.len() > 1 {
        bare_positional(args.skip(2), value_flags)
    } else {
        bare_positional(args.skip(1), value_flags)
    }
}

/// Scans the arguments for a bare positional: one that is neither an option
/// nor consumed as the value of one. `value_flags` holds the spellings that
/// consume the token after them, so that `-T tmpl` is not mistaken for one.
pub fn passthrough_has_bare_positional(passthrough: &[String], value_flags: &NameSet) -> (r: bool)
    ensures
        r == bare_positional(strs(passthrough@), value_flags@),
{
    let ghost all = strs(passthrough@);
    let mut i: usize = 0;
    assert(all.skip(0) == all);
    proof {
        reveal_strlit("--");
    }
    while i < passthrough.len()
        invariant
            i <= passthrough@.len(),
            all == strs(passthrough@),
            bare_positional(all.skip(i as int), value_flags@) == bare_positional(
                all,
                value_flags@,
            ),
            "--"@ == seq!['-', '-'],
        decreases passthrough.len() - i,
    {
        let ghost rest = all.skip(i as int);
        let tok = passthrough[i].as_str();
        let text = to_chars(tok);
        assert(rest[0] == tok@);
        assert(rest.skip(1) == all.skip(i + 1));
        if equals(text.as_slice(), "--") {
            return i + 1 < passthrough.len();
        }
        if starts_with(text.as_slice(), "--") {
            assert(tok@.subrange(0, 2)[0] == tok@[0]);
            let eq = index_of(text.as_slice(), '=');
            proof {
                lemma_lead_bounds(tok@, not(equal_to('=')));
                assert(tok@.contains('=') == (eq < tok@.len()));
            }
            if eq == text.len() && value_flags.contains(tok) && i + 1 < passthrough.len() {
                assert(rest.skip(2) == all.skip(i + 2));
                i += 2;
            } else {
                i += 1;
            }
            continue;
        }
        if text.len() > 1 && text[0] == '-' {
            if value_flags.contains(tok) && i + 1 < passthrough.len() {
                assert(rest.skip(2) == all.skip(i + 2));
                i += 2;
            } else {
                i += 1;
            }
            continue;
        }
        return true;
    }
    false
}

/// Whether the arguments after the leaf already tell the revision: by a revset
/// flag, or by a bare positional where the leaf's revset is one.
pub open spec fn pins_revset(passthrough: Seq<Seq<char>>, help: Seq<char>) -> bool {
    ||| names_revset(passthrough)
    ||| positional_revset(help) && bare_positional(passthrough, value_spellings(options(help)))
}

/// Whether the user's own arguments already pin down the revision, so that
/// the command is to run as it is. True when they carry a revset flag, or, for
/// a leaf whose revset is a positional argument, a bare positional.
pub fn passthrough_pins_revset(passthrough: &[String], leaf_help: &str) -> (r: bool)
    ensures
        r == pins_revset(strs(passthrough@), leaf_help@),
{
    if has_revset_flag(passthrough) {
        return true;
    }
    if positional_revset_accepts_r(leaf_help) {
        return passthrough_has_bare_positional(passthrough, &value_flags(leaf_help));
    }
    false
}

// ---------------------------------------------------------------------------
// Finding the leaf

/// A jj invocation that is ready to be acted on. `leaf` is the path of the
/// subcommand in the user's own tokens, aliases included; `passthrough` is
/// everything after it. `flag` is `None` when the leaf takes no revset. With
/// `user_supplied_revset` the arguments already tell the revision, and the
/// command is to run as it is.
#[derive(Debug, Clone)]
pub struct RevsetTarget {
    pub leaf: Vec<String>,
    pub passthrough: Vec<String>,
    pub flag: Option<RevsetFlag>,
    pub user_supplied_revset: bool,
}

/// An invocation, as a value.
#[verifier::ext_equal]
pub struct Target {
    pub leaf: Seq<Seq<char>>,
    pub passthrough: Seq<Seq<char>>,
    pub flag: Option<RevsetFlag>,
    pub user_supplied_revset: bool,
}

impl View for RevsetTarget {
    type V = Target;

    open spec fn view(&self) -> Target {
        Target {
            leaf: strs(self.leaf@),
            passthrough: strs(self.passthrough@),
            flag: self.flag,
            user_supplied_revset: self.user_supplied_revset,
        }
    }
}

/// How far the leaf is known.
#[derive(Debug, Clone, Copy, PartialEq, Eq, Structural)]
pub enum Leaf {
    /// The help of the first so many arguments is needed.
    NeedsHelp(usize),
    /// The leaf is made of the first so many arguments.
    Found(usize),
}

/// What is known of the invocation.
#[derive(Debug)]
pub enum Resolution {
    /// The help of the first so many arguments is needed.
    NeedsHelp(usize),
    Resolved(RevsetTarget),
}

/// A resolution, as a value.
#[verifier::ext_equal]
pub enum Answer {
    NeedsHelp(nat),
    Resolved(Target),
}

impl View for Resolution {
    type V = Answer;

    open spec fn view(&self) -> Answer {
        match self {
            Resolution::NeedsHelp(n) => Answer::NeedsHelp(*n as nat),
            Resolution::Resolved(t) => Answer::Resolved(t@),
        }
    }
}

/// The texts of some replies; `None` where there was no help to be had.
pub open spec fn texts(replies: Seq<Option<String>>) -> Seq<Option<Seq<char>>> {
    replies.map_values(
        |r: Option<String>|
            match r {
                Some(s) => Some(s@),
                None => None,
            },
    )
}

/// Whether `arg` is a subcommand that `help` lists.
pub open spec fn descends(help: Seq<char>, arg: Seq<char>) -> bool {
    !(arg.len() > 0 && arg[0] == '-') && commands(help).contains(arg)
}

/// The leaf, once the first `k` arguments are known to be part of it and
/// `replies` holds the help of the first argument, of the first two, and so on.
/// The path goes on as long as the next argument is a subcommand of the one
/// before and has help of its own.
pub open spec fn leaf_from(
    args: Seq<Seq<char>>,
    replies: Seq<Option<Seq<char>>>,
    k: int,
) -> Leaf
    decreases args.len() - k,
{
    if 0 < k < args.len() && replies[k - 1] is Some && descends(replies[k - 1]->0, args[k]) {
        if k >= replies.len() {
            Leaf::NeedsHelp((k + 1) as usize)
        } else if replies[k] is Some {
            leaf_from(args, replies, k + 1)
        } else {
            Leaf::Found(k as usize)
        }
    } else {
        Leaf::Found(k as usize)
    }
}

/// The invocation whose leaf is the first `k` arguments and has this help.
pub open spec fn target_at(args: Seq<Seq<char>>, k: int, help: Seq<char>) -> Target {
    Target {
        leaf: args.take(k),
        passthrough: args.skip(k),
        flag: revset_flag(help),
        user_supplied_revset: pins_revset(args.skip(k), help),
    }
}

/// The invocation of a subcommand without help: it is run for jj to report
/// what is wrong with it, so a revision can be given by `-r`.
pub open spec fn unknown_target(args: Seq<Seq<char>>) -> Target {
    Target {
        leaf: args.take(1),
        passthrough: args.skip(1),
        flag: Some(RevsetFlag::Revision),
        user_supplied_revset: names_revset(args.skip(1)),
    }
}

/// What `replies` tell about the invocation `args`.
pub open spec fn resolution(
    args: Seq<Seq<char>>,
    replies: Seq<Option<Seq<char>>>,
) -> Answer {
    if replies.len() == 0 {
        Answer::NeedsHelp(1)
    } else if replies[0] is None {
        Answer::Resolved(unknown_target(args))
    } else {
        match leaf_from(args, replies, 1) {
            Leaf::NeedsHelp(n) => Answer::NeedsHelp(n as nat),
            Leaf::Found(k) => Answer::Resolved(target_at(args, k as int, replies[k - 1]->0)),
        }
    }
}

proof fn lemma_leaf_bounds(args: Seq<Seq<char>>, replies: Seq<Option<Seq<char>>>, k: int)
    requires
        0 < k <= args.len(),
        k <= replies.len(),
        replies[k - 1] is Some,
        args.len() <= usize::MAX,
    ensures
        match leaf_from(args, replies, k) {
            Leaf::NeedsHelp(n) => n == replies.len() + 1 && n <= args.len(),
            Leaf::Found(n) => k <= n <= args.len() && n <= replies.len() && replies[n - 1] is Some,
        },
    decreases args.len() - k,
{
    if k < args.len() && descends(replies[k - 1]->0, args[k]) && k < replies.len()
        && replies[k] is Some {
        lemma_leaf_bounds(args, replies, k + 1);
    }
}

/// Finds the leaf among the arguments. `replies` holds the help of the first
/// argument, of the first two, and so on.
pub fn resolve_leaf(args: &[String], replies: &[Option<String>]) -> (leaf: Leaf)
    requires
        args@.len() > 0,
        replies@.len() > 0,
        replies@[0] is Some,
    ensures
        leaf == leaf_from(strs(args@), texts(replies@), 1),
{
    let ghost all = strs(args@);
    let ghost known = texts(replies@);
    let mut k: usize = 1;
    while k < args.len()
        invariant
            0 < k <= args@.len(),
            k <= replies@.len(),
            all == strs(args@),
            known == texts(replies@),
            replies@[k - 1] is Some,
            leaf_from(all, known, k as int) == leaf_from(all, known, 1),
        decreases args.len() - k,
    {
        let arg = args[k].as_str();
        let text = to_chars(arg);
        assert(all[k as int] == arg@);
        if text.len() > 0 && text[0] == '-' {
            return Leaf::Found(k);
        }
        let help = match &replies[k - 1] {
            Some(h) => h.as_str(),
            None => "",
        };
        assert(known[k - 1] == Some(help@));
        if !parse_commands_section(help).contains(arg) {
            return Leaf::Found(k);
        }
        if k >= replies.len() {
            return Leaf::NeedsHelp(k + 1);
        }
        if replies[k].is_none() {
            return Leaf::Found(k);
        }
        k += 1;
    }
    Leaf::Found(k)
}

/// Copies some of the arguments.
fn copy_args(args: &[String], from: usize, to: usize) -> (out: Vec<String>)
    requires
        from <= to <= args@.len(),
    ensures
        strs(out@) == strs(args@).subrange(from as int, to as int),
{
    let mut out: Vec<String> = Vec::new();
    assert(strs(out@) =~= strs(args@).subrange(from as int, from as int));
    for i in from..to
        invariant
            from <= to <= args@.len(),
            strs(out@) == strs(args@).subrange(from as int, i as int),
    {
        let ghost before_out = out@;
        out.push(args[i].clone());
        assert(strs(out@) =~= strs(before_out).push(strs(args@)[i as int]));
        assert(strs(args@).subrange(from as int, i + 1) =~= strs(args@).subrange(
            from as int,
            i as int,
        ).push(strs(args@)[i as int]));
    }
    out
}

/// Analyses an invocation. `replies` holds what is known of the help of the
/// first argument, of the first two, and so on, in this order; where that does
/// not suffice, the result says which help is needed next.
pub fn resolve_target(args: &[String], replies: &[Option<String>]) -> (r: Resolution)
    requires
        args@.len() > 0,
    ensures
        r@ == resolution(strs(args@), texts(replies@)),
{
    let ghost all = strs(args@);
    let ghost known = texts(replies@);
    if replies.len() == 0 {
        return Resolution::NeedsHelp(1);
    }
    if replies[0].is_none() {
        let leaf = copy_args(args, 0, 1);
        let passthrough = copy_args(args, 1, args.len());
        let user_supplied_revset = has_revset_flag(passthrough.as_slice());
        let t = RevsetTarget {
            leaf,
            passthrough,
            flag: Some(RevsetFlag::Revision),
            user_supplied_revset,
        };
        assert(known[0] is None);
        assert(all.subrange(0, 1) =~= all.take(1));
        assert(all.subrange(1, all.len() as int) =~= all.skip(1));
        assert(t@ =~= unknown_target(all));
        return Resolution::Resolved(t);
    }
    let count = args.len();
    proof {
        assert(known[0] is Some);
        assert(all.len() == count);
        lemma_leaf_bounds(all, known, 1);
    }
    match resolve_leaf(args, replies) {
        Leaf::NeedsHelp(n) => Resolution::NeedsHelp(n),
        Leaf::Found(k) => {
            let leaf = copy_args(args, 0, k);
            let passthrough = copy_args(args, k, count);
            let help = match &replies[k - 1] {
                Some(h) => h.as_str(),
                None => "",
            };
            assert(known[k - 1] == Some(help@));
            let flag = parse_revset_flag(help);
            let user_supplied_revset = passthrough_pins_revset(passthrough.as_slice(), help);
            let t = RevsetTarget { leaf, passthrough, flag, user_supplied_revset };
            assert(all.subrange(0, k as int) =~= all.take(k as int));
            assert(all.subrange(k as int, all.len() as int) =~= all.skip(k as int));
            assert(t@ =~= target_at(all, k as int, help@));
            Resolution::Resolved(t)
        },
    }
}

/// The arguments with which jj is run for the help of the first `n` arguments.
pub fn help_args(args: &[String], n: usize) -> (out: Vec<String>)
    requires
        n <= args@.len(),
    ensures
        strs(out@) == strs(args@).take(n as int).push("--help"@),
{
    let mut out = copy_args(args, 0, n);
    let ghost before_out = out@;
    out.push("--help".to_owned());
    assert(strs(out@) =~= strs(before_out).push("--help"@));
    assert(strs(args@).subrange(0, n as int) =~= strs(args@).take(n as int));
    out
}

/// What a run of `jj … --help` gives: its text, where it succeeded.
pub fn run_help(success: bool, stdout: &[u8]) -> (help: Option<String>)
    ensures
        help is Some == success,
        help matches Some(h) ==> h@ == text(stdout@),
{
    if success {
        Some(decode(stdout))
    } else {
        None
    }
}

// ---------------------------------------------------------------------------
// Laws

/// Resolving an invocation loses none of its arguments and reorders none: the
/// leaf, which is never empty, and what comes after it are the arguments.
pub proof fn law_resolution_keeps_arguments(
    args: Seq<Seq<char>>,
    replies: Seq<Option<Seq<char>>>,
)
    requires
        0 < args.len() <= usize::MAX,
    ensures
        resolution(args, replies) matches Answer::Resolved(t) ==> t.leaf.len() > 0 && t.leaf
            + t.passthrough == args,
{
    if replies.len() > 0 {
        if replies[0] is Some {
            lemma_leaf_bounds(args, replies, 1);
            if let Leaf::Found(k) = leaf_from(args, replies, 1) {
                assert(args.take(k as int) + args.skip(k as int) =~= args);
            }
        } else {
            assert(args.take(1) + args.skip(1) =~= args);
        }
    }
}

/// Help is asked for in turn, one more argument each time, and never for more
/// arguments than there are: an invocation is resolved after at most as many
/// replies as it has arguments.
pub proof fn law_help_is_asked_in_turn(args: Seq<Seq<char>>, replies: Seq<Option<Seq<char>>>)
    requires
        0 < args.len() <= usize::MAX,
    ensures
        resolution(args, replies) matches Answer::NeedsHelp(n) ==> n == replies.len() + 1 && n
            <= args.len(),
        replies.len() >= args.len() ==> resolution(args, replies) is Resolved,
{
    if replies.len() > 0 && replies[0] is Some {
        lemma_leaf_bounds(args, replies, 1);
    }
}

proof fn lemma_leaf_stable(
    args: Seq<Seq<char>>,
    replies: Seq<Option<Seq<char>>>,
    more: Seq<Option<Seq<char>>>,
    k: int,
)
    requires
        0 < k <= args.len(),
        k <= replies.len(),
        leaf_from(args, replies, k) is Found,
    ensures
        leaf_from(args, replies + more, k) == leaf_from(args, replies, k),
    decreases args.len() - k,
{
    let all = replies + more;
    assert(all[k - 1] == replies[k - 1]);
    if k < args.len() && replies[k - 1] is Some && descends(replies[k - 1]->0, args[k]) {
        assert(k < replies.len());
        assert(all[k] == replies[k]);
        if replies[k] is Some {
            lemma_leaf_stable(args, replies, more, k + 1);
        }
    }
}

/// Once an invocation is resolved, further replies do not change the result.
pub proof fn law_resolution_is_stable(
    args: Seq<Seq<char>>,
    replies: Seq<Option<Seq<char>>>,
    more: Seq<Option<Seq<char>>>,
)
    requires
        0 < args.len() <= usize::MAX,
        resolution(args, replies) is Resolved,
    ensures
        resolution(args, replies + more) == resolution(args, replies),
{
    let all = replies + more;
    assert(all[0] == replies[0]);
    if replies[0] is Some {
        lemma_leaf_stable(args, replies, more, 1);
        lemma_leaf_bounds(args, replies, 1);
        if let Leaf::Found(k) = leaf_from(args, replies, 1) {
            assert(all[k - 1] == replies[k - 1]);
        }
    }
}

/// An explicit revset flag pins the revision whatever the leaf is, and for a
/// leaf without a positional revset nothing else does.
pub proof fn law_revset_flag_pins(passthrough: Seq<Seq<char>>, help: Seq<char>)
    ensures
        names_revset(passthrough) ==> pins_revset(passthrough, help),
        !positional_revset(help) ==> pins_revset(passthrough, help) == names_revset(passthrough),
{
}

/// Everything before the first `=` of an argument that is `name` or begins with
/// `name` and `=`.
proof fn lemma_flag_name(arg: Seq<char>, name: Seq<char>)
    requires
        !name.contains('='),
    ensures
        arg == name || name.push('=').is_prefix_of(arg) <==> before(arg, '=') == name,
{
    let n = name.len() as int;
    lemma_lead_bounds(arg, not(equal_to('=')));
    let k = lead(arg, not(equal_to('='))) as int;
    if arg == name || name.push('=').is_prefix_of(arg) {
        if arg != name {
            assert(arg.subrange(0, n + 1)[n] == '=');
        }
        assert forall|i: int| 0 <= i < n implies not(equal_to('='))(#[trigger] arg[i]) by {
            if arg != name {
                assert(arg.subrange(0, n + 1)[i] == name.push('=')[i]);
            }
            assert(name.contains(name[i]));
        }
        lemma_lead(arg, not(equal_to('=')), n);
        assert(arg.take(n) =~= name);
    }
    if before(arg, '=') == name {
        assert(k == n);
        if k < arg.len() {
            assert(name.push('=') =~= arg.subrange(0, n + 1));
        } else {
            assert(arg.take(k) =~= arg);
        }
    }
}

/// What an argument is that names a revset by a flag.
proof fn lemma_revset_flag(arg: Seq<char>)
    ensures
        is_revset_flag(arg) <==> (arg == "-r"@ || arg == "--revision"@ || arg == "--revisions"@ || arg
            == "-t"@ || arg == "--to"@ || "-r="@.is_prefix_of(arg) || "--revision="@.is_prefix_of(
            arg,
        ) || "--revisions="@.is_prefix_of(arg) || "-t="@.is_prefix_of(arg) || "--to="@.is_prefix_of(
            arg,
        )),
{
    reveal_strlit("-r");
    reveal_strlit("--revision");
    reveal_strlit("--revisions");
    reveal_strlit("-t");
    reveal_strlit("--to");
    reveal_strlit("-r=");
    reveal_strlit("--revision=");
    reveal_strlit("--revisions=");
    reveal_strlit("-t=");
    reveal_strlit("--to=");
    assert("-r"@.push('=') =~= "-r="@);
    assert("--revision"@.push('=') =~= "--revision="@);
    assert("--revisions"@.push('=') =~= "--revisions="@);
    assert("-t"@.push('=') =~= "-t="@);
    assert("--to"@.push('=') =~= "--to="@);
    lemma_flag_name(arg, "-r"@);
    lemma_flag_name(arg, "--revision"@);
    lemma_flag_name(arg, "--revisions"@);
    lemma_flag_name(arg, "-t"@);
    lemma_flag_name(arg, "--to"@);
}

/// Whoever names the revision gets that revision, whatever the help of the
/// leaf says: where an argument after the leaf is `-r`, `--revision`,
/// `--revisions`, `-t` or `--to`, alone or with `=` and a value, the
/// invocation is pinned.
pub proof fn law_named_revision_is_pinned(
    args: Seq<Seq<char>>,
    replies: Seq<Option<Seq<char>>>,
    i: int,
)
    requires
        0 < args.len() <= usize::MAX,
        resolution(args, replies) is Resolved,
        0 <= i < resolution(args, replies)->Resolved_0.passthrough.len(),
        ({
            let arg = resolution(args, replies)->Resolved_0.passthrough[i];
            arg == "-r"@ || arg == "--revision"@ || arg == "--revisions"@ || arg == "-t"@ || arg
                == "--to"@ || "-r="@.is_prefix_of(arg) || "--revision="@.is_prefix_of(arg)
                || "--revisions="@.is_prefix_of(arg) || "-t="@.is_prefix_of(arg)
                || "--to="@.is_prefix_of(arg)
        }),
    ensures
        resolution(args, replies)->Resolved_0.user_supplied_revset,
{
    let t = resolution(args, replies)->Resolved_0;
    lemma_revset_flag(t.passthrough[i]);
    assert(is_revset_flag(t.passthrough[i]));
}

/// Nothing but a flag for it pins the revision of a leaf that has no positional
/// revset. Where the first reply is missing, no leaf has one.
pub proof fn law_only_flags_pin_without_positional(
    args: Seq<Seq<char>>,
    replies: Seq<Option<Seq<char>>>,
)
    requires
        0 < args.len() <= usize::MAX,
        resolution(args, replies) is Resolved,
        ({
            let t = resolution(args, replies)->Resolved_0;
            replies[0] is Some ==> !positional_revset(replies[t.leaf.len() - 1]->0)
        }),
        ({
            let t = resolution(args, replies)->Resolved_0;
            forall|i: int|
                #![trigger t.passthrough[i]]
                0 <= i < t.passthrough.len() ==> {
                    let arg = t.passthrough[i];
                    arg != "-r"@ && arg != "--revision"@ && arg != "--revisions"@ && arg != "-t"@
                        && arg != "--to"@ && !"-r="@.is_prefix_of(arg)
                        && !"--revision="@.is_prefix_of(arg) && !"--revisions="@.is_prefix_of(arg)
                        && !"-t="@.is_prefix_of(arg) && !"--to="@.is_prefix_of(arg)
                }
        }),
    ensures
        !resolution(args, replies)->Resolved_0.user_supplied_revset,
{
    let t = resolution(args, replies)->Resolved_0;
    assert forall|i: int| 0 <= i < t.passthrough.len() implies !#[trigger] is_revset_flag(
        t.passthrough[i],
    ) by {
        lemma_revset_flag(t.passthrough[i]);
    }
    if replies[0] is Some {
        lemma_leaf_bounds(args, replies, 1);
    }
}

proof fn lemma_leaf_path(args: Seq<Seq<char>>, replies: Seq<Option<Seq<char>>>, k: int)
    requires
        0 < k <= args.len(),
        k <= replies.len(),
        replies[k - 1] is Some,
        args.len() <= usize::MAX,
        leaf_from(args, replies, k) is Found,
    ensures
        ({
            let n = leaf_from(args, replies, k)->Found_0 as int;
            &&& k <= n <= args.len() && n <= replies.len()
            &&& forall|j: int|
                #![trigger args[j]]
                k <= j < n ==> !(args[j].len() > 0 && args[j][0] == '-') && commands(
                    replies[j - 1]->0,
                ).contains(args[j]) && replies[j] is Some
            &&& n == args.len() || (args[n].len() > 0 && args[n][0] == '-') || !commands(
                replies[n - 1]->0,
            ).contains(args[n]) || (n < replies.len() && replies[n] is None)
        }),
    decreases args.len() - k,
{
    lemma_leaf_bounds(args, replies, k);
    if k < args.len() && descends(replies[k - 1]->0, args[k]) && k < replies.len()
        && replies[k] is Some {
        lemma_leaf_path(args, replies, k + 1);
    }
}

/// The leaf is as long as the help allows: every argument in it after the first
/// is a subcommand, by name or by alias, that the help of those before it lists
/// and that has help of its own, and the argument after it is not. Its flag is
/// the one that its own help tells.
pub proof fn law_leaf_is_the_longest_known_path(
    args: Seq<Seq<char>>,
    replies: Seq<Option<Seq<char>>>,
)
    requires
        0 < args.len() <= usize::MAX,
        resolution(args, replies) is Resolved,
    ensures
        ({
            let t = resolution(args, replies)->Resolved_0;
            let n = t.leaf.len() as int;
            &&& 0 < n <= args.len() && n <= replies.len()
            &&& replies[0] is None ==> n == 1 && t.flag == Some(RevsetFlag::Revision)
            &&& replies[0] is Some ==> {
                &&& replies[n - 1] is Some && t.flag == revset_flag(replies[n - 1]->0)
                &&& forall|j: int|
                    #![trigger args[j]]
                    1 <= j < n ==> !(args[j].len() > 0 && args[j][0] == '-') && commands(
                        replies[j - 1]->0,
                    ).contains(args[j]) && replies[j] is Some
                &&& n == args.len() || (args[n].len() > 0 && args[n][0] == '-') || !commands(
                    replies[n - 1]->0,
                ).contains(args[n]) || (n < replies.len() && replies[n] is None)
            }
        }),
{
    if replies[0] is Some {
        lemma_leaf_path(args, replies, 1);
        lemma_leaf_bounds(args, replies, 1);
    }
}

/// A positional revset pins the revision too: where the help of the leaf offers
/// one, the invocation is pinned exactly where an argument after the leaf is a
/// flag for the revision or is neither a flag nor the value of one.
pub proof fn law_positional_revision_is_pinned(
    args: Seq<Seq<char>>,
    replies: Seq<Option<Seq<char>>>,
)
    requires
        0 < args.len() <= usize::MAX,
        resolution(args, replies) is Resolved,
        replies[0] is Some,
        positional_revset(replies[resolution(args, replies)->Resolved_0.leaf.len() - 1]->0),
        forall|i: int|
            0 <= i < resolution(args, replies)->Resolved_0.passthrough.len() ==> !is_revset_flag(
                #[trigger] resolution(args, replies)->Resolved_0.passthrough[i],
            ),
    ensures
        resolution(args, replies)->Resolved_0.user_supplied_revset == bare_positional(
            resolution(args, replies)->Resolved_0.passthrough,
            value_spellings(options(replies[resolution(args, replies)->Resolved_0.leaf.len()
                - 1]->0)),
        ),
{
    lemma_leaf_bounds(args, replies, 1);
    let t = resolution(args, replies)->Resolved_0;
    assert(!names_revset(t.passthrough));
}

/// How arguments are told apart, from the front: a word or a lone `-` is a
/// positional, and so is anything after `--`; a flag is skipped, and with it the
/// value that it takes, unless the value is attached to it by `=`.
pub proof fn law_flags_and_their_values_are_skipped(
    arg: Seq<char>,
    value: Seq<char>,
    rest: Seq<Seq<char>>,
    flags: Seq<Seq<char>>,
)
    ensures
        !bare_positional(seq![], flags),
        arg.len() == 0 || arg[0] != '-' || arg == seq!['-'] ==> bare_positional(
            seq![arg] + rest,
            flags,
        ),
        arg == seq!['-', '-'] ==> bare_positional(seq![arg] + rest, flags) == (rest.len() > 0),
        arg.len() > 1 && arg[0] == '-' && arg != seq!['-', '-'] && !flags.contains(arg)
            ==> bare_positional(seq![arg] + rest, flags) == bare_positional(rest, flags),
        arg.len() > 2 && arg[0] == '-' && arg[1] == '-' && arg.contains('=') ==> bare_positional(
            seq![arg] + rest,
            flags,
        ) == bare_positional(rest, flags),
        arg.len() > 1 && arg[0] == '-' && arg != seq!['-', '-'] && flags.contains(arg) && (arg[1]
            != '-' || !arg.contains('=')) ==> bare_positional(seq![arg, value] + rest, flags)
            == bare_positional(rest, flags) && !bare_positional(seq![arg], flags),
{
    reveal_strlit("--");
    reveal_with_fuel(bare_positional, 2);
    assert("--"@ =~= seq!['-', '-']);
    let one = seq![arg] + rest;
    let two = seq![arg, value] + rest;
    assert(one[0] == arg && two[0] == arg && seq![arg][0] == arg);
    assert(one.skip(1) =~= rest);
    assert(two.skip(2) =~= rest);
    assert(seq![arg].skip(1) =~= seq![]);
    if "--"@.is_prefix_of(arg) {
        assert(arg.subrange(0, 2)[0] == '-' && arg.subrange(0, 2)[1] == '-');
    } else if arg.len() > 1 && arg[0] == '-' && arg[1] == '-' {
        assert("--"@ =~= arg.subrange(0, 2));
    }
    if arg == seq!['-'] {
        assert(arg.len() == 1);
    }
}

proof fn lemma_help_needed(args: Seq<Seq<char>>, replies: Seq<Option<Seq<char>>>, k: int)
    requires
        0 < k <= args.len(),
        k <= replies.len(),
        replies[k - 1] is Some,
        args.len() <= usize::MAX,
        leaf_from(args, replies, k) is NeedsHelp,
    ensures
        replies.len() < args.len(),
        forall|j: int|
            #![trigger args[j]]
            k <= j <= replies.len() ==> !(args[j].len() > 0 && args[j][0] == '-') && commands(
                replies[j - 1]->0,
            ).contains(args[j]),
        forall|j: int| k <= j < replies.len() ==> #[trigger] replies[j] is Some,
    decreases args.len() - k,
{
    if k < replies.len() {
        lemma_help_needed(args, replies, k + 1);
    }
}

/// Help is asked for only where it can tell something: after the first, for an
/// argument that is a subcommand of those before it, all of which have help of
/// their own.
pub proof fn law_help_is_asked_for_subcommands(
    args: Seq<Seq<char>>,
    replies: Seq<Option<Seq<char>>>,
)
    requires
        0 < args.len() <= usize::MAX,
        replies.len() > 0,
        resolution(args, replies) is NeedsHelp,
    ensures
        replies.len() < args.len(),
        forall|j: int| 0 <= j < replies.len() ==> #[trigger] replies[j] is Some,
        forall|j: int|
            #![trigger args[j]]
            1 <= j <= replies.len() ==> !(args[j].len() > 0 && args[j][0] == '-') && commands(
                replies[j - 1]->0,
            ).contains(args[j]),
{
    lemma_help_needed(args, replies, 1);
}

} // verus!
