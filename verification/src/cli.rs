//! What an invocation of `jjf` comes to.

use crate::command::{command_line, exec_args, exec_words, line_words};
use crate::init::{snippet, wrapper, BASH, FISH, NU, ZSH};
use crate::keys::{command, outcome, Key};
use crate::picker::Picker;
use crate::row::Row;
use crate::screen::shown_command;
use crate::target::{
    law_named_revision_is_pinned, law_resolution_keeps_arguments, resolution, RevsetTarget, Target,
};
use crate::text::{equals, join, join_strings, strs, to_chars};
use vstd::prelude::*;

verus! {

/// What `jjf` was called for.
pub enum Invocation {
    /// Nothing was asked for.
    Usage,
    /// The wrapper for a shell, if one is named.
    Init(Option<String>),
    /// `--emit` without a subcommand.
    EmitUsage,
    /// A pick for a subcommand. With `emit` the command is printed and not run.
    Pick { args: Vec<String>, emit: bool },
}

/// An invocation, as a value.
#[verifier::ext_equal]
pub enum Request {
    Usage,
    Init(Option<Seq<char>>),
    EmitUsage,
    Pick { args: Seq<Seq<char>>, emit: bool },
}

impl View for Invocation {
    type V = Request;

    open spec fn view(&self) -> Request {
        match self {
            Invocation::Usage => Request::Usage,
            Invocation::Init(Some(s)) => Request::Init(Some(s@)),
            Invocation::Init(None) => Request::Init(None),
            Invocation::EmitUsage => Request::EmitUsage,
            Invocation::Pick { args, emit } => Request::Pick { args: strs(args@), emit: *emit },
        }
    }
}

/// What the arguments ask for.
pub open spec fn request(args: Seq<Seq<char>>) -> Request {
    if args.len() == 0 {
        Request::Usage
    } else if args[0] == "init"@ {
        Request::Init(
            if args.len() > 1 {
                Some(args[1])
            } else {
                None
            },
        )
    } else if args[0] == "--emit"@ {
        if args.len() > 1 {
            Request::Pick { args: args.skip(1), emit: true }
        } else {
            Request::EmitUsage
        }
    } else {
        Request::Pick { args, emit: false }
    }
}

/// Reads the arguments of `jjf`, without the name of the program.
pub fn parse_args(args: &[String]) -> (r: Invocation)
    ensures
        r@ == request(strs(args@)),
{
    let ghost all = strs(args@);
    if args.len() == 0 {
        return Invocation::Usage;
    }
    assert(all[0] == args@[0]@);
    let first = to_chars(args[0].as_str());
    if equals(first.as_slice(), "init") {
        if args.len() > 1 {
            assert(all[1] == args@[1]@);
            return Invocation::Init(Some(args[1].clone()));
        }
        return Invocation::Init(None);
    }
    let emit = equals(first.as_slice(), "--emit");
    if emit && args.len() == 1 {
        return Invocation::EmitUsage;
    }
    let start: usize = if emit {
        1
    } else {
        0
    };
    let mut out: Vec<String> = Vec::new();
    assert(strs(out@) =~= all.subrange(start as int, start as int));
    for i in start..args.len()
        invariant
            start <= args@.len(),
            all == strs(args@),
            strs(out@) == all.subrange(start as int, i as int),
    {
        let ghost before = out@;
        out.push(args[i].clone());
        assert(strs(out@) =~= strs(before).push(all[i as int]));
        assert(all.subrange(start as int, i + 1) =~= all.subrange(start as int, i as int).push(
            all[i as int],
        ));
    }
    assert(all.subrange(start as int, all.len() as int) =~= all.skip(start as int));
    assert(all.skip(0) =~= all);
    Invocation::Pick { args: out, emit }
}

pub const USAGE: &'static str =
    "usage: jjf <jj-subcommand> [args...]\n       jjf --emit <jj-subcommand> [args...]   (print resolved command, don't run)\n       jjf init <bash|zsh|fish|nu>            (print shell wrapper)";

pub const EMIT_USAGE: &'static str = "usage: jjf --emit <jj-subcommand> [args...]";

pub const INIT_USAGE: &'static str = "usage: jjf init <bash|zsh|fish|nu>";

pub const NO_REVISIONS: &'static str = "jjf: no revisions in default revset";

/// What is left to do, and what to exit with.
pub enum Action {
    /// Write this to the standard output, and exit with 0.
    Write(String),
    /// Write this line to the standard output, and exit with 0.
    Print(String),
    /// Write this line to the standard error, and exit with 2.
    Refuse(String),
    /// Show this command, run jj with these arguments, and exit with its code.
    Run { line: String, args: Vec<String> },
    /// Let the user pick.
    Pick,
    /// Write this line to the standard error, and exit with 0.
    Notice(String),
    /// Exit with this code.
    Quit(u8),
}

/// An action, as a value.
#[verifier::ext_equal]
pub enum Step {
    Write(Seq<char>),
    Print(Seq<char>),
    Refuse(Seq<char>),
    Run { line: Seq<char>, args: Seq<Seq<char>> },
    Pick,
    Notice(Seq<char>),
    Quit(u8),
}

impl View for Action {
    type V = Step;

    open spec fn view(&self) -> Step {
        match self {
            Action::Write(s) => Step::Write(s@),
            Action::Print(s) => Step::Print(s@),
            Action::Refuse(s) => Step::Refuse(s@),
            Action::Run { line, args } => Step::Run { line: line@, args: strs(args@) },
            Action::Pick => Step::Pick,
            Action::Notice(s) => Step::Notice(s@),
            Action::Quit(code) => Step::Quit(*code),
        }
    }
}

/// What a call for the wrapper of a shell comes to.
pub open spec fn init_step(shell: Option<Seq<char>>) -> Step {
    match shell {
        None => Step::Refuse(INIT_USAGE@),
        Some(name) => match wrapper(name) {
            Some(s) => Step::Write(s),
            None => Step::Refuse(
                "jjf: unknown shell '"@ + name
                    + "' \u{2014} supported: bash, zsh, fish, nu"@,
            ),
        },
    }
}

/// What a call for the wrapper of a shell comes to.
pub fn run_init(shell: Option<&str>) -> (a: Action)
    ensures
        a@ == init_step(
            match shell {
                Some(s) => Some(s@),
                None => None,
            },
        ),
{
    match shell {
        None => Action::Refuse(INIT_USAGE.to_owned()),
        Some(name) => match snippet(name) {
            Some(s) => Action::Write(s.to_owned()),
            None => {
                let mut line = "jjf: unknown shell '".to_owned();
                line.append(name);
                line.append("' \u{2014} supported: bash, zsh, fish, nu");
                Action::Refuse(line)
            },
        },
    }
}

/// The command of a target and some picks: printed with `emit`, else run.
pub open spec fn dispatched(target: Target, ids: Seq<Seq<char>>, emit: bool) -> Step {
    let line = join(line_words(target, ids), seq![' ']);
    if emit {
        Step::Print(line)
    } else {
        Step::Run { line, args: exec_words(target, ids) }
    }
}

/// Why a subcommand without a revset is refused.
pub open spec fn refusal(leaf: Seq<Seq<char>>) -> Seq<char> {
    let path = join(leaf, seq![' ']);
    "jjf: 'jj "@ + path + "' takes no revset flag (-r/--to) \u{2014} run 'jj "@ + path
        + "' directly."@
}

/// What comes before a pick: a command that tells its revision is run as it
/// is, one that takes no revset is refused, and for any other there is a pick.
pub open spec fn planned(target: Target, emit: bool) -> Step {
    if target.user_supplied_revset {
        dispatched(target, seq![], emit)
    } else if target.flag is None {
        Step::Refuse(refusal(target.leaf))
    } else {
        Step::Pick
    }
}

/// What comes after a pick. Without one, the exit code is that of an
/// interrupted program.
pub open spec fn finished(target: Target, picked: Option<Seq<Seq<char>>>, emit: bool) -> Step {
    match picked {
        Some(ids) => if ids.len() == 0 {
            Step::Quit(130)
        } else {
            dispatched(target, ids, emit)
        },
        None => Step::Quit(130),
    }
}

fn dispatch(target: &RevsetTarget, ids: &[String], emit: bool) -> (a: Action)
    ensures
        a@ == dispatched(target@, strs(ids@), emit),
{
    let line = command_line(target, ids);
    if emit {
        Action::Print(line)
    } else {
        Action::Run { line, args: exec_args(target, ids) }
    }
}

/// Decides what to do with a resolved invocation.
pub fn plan(target: &RevsetTarget, emit: bool) -> (a: Action)
    ensures
        a@ == planned(target@, emit),
{
    if target.user_supplied_revset {
        let none: Vec<String> = Vec::new();
        assert(strs(none@) =~= seq![]);
        return dispatch(target, none.as_slice(), emit);
    }
    if target.flag.is_none() {
        let leaf = join_strings(target.leaf.as_slice(), ' ');
        let mut line = "jjf: 'jj ".to_owned();
        line.append(leaf.as_str());
        line.append("' takes no revset flag (-r/--to) \u{2014} run 'jj ");
        line.append(leaf.as_str());
        line.append("' directly.");
        return Action::Refuse(line);
    }
    Action::Pick
}

/// Decides whether there is anything to pick from.
pub fn check_rows(rows: &[Row]) -> (a: Action)
    ensures
        a@ == (if rows@.len() == 0 {
            Step::Notice(NO_REVISIONS@)
        } else {
            Step::Pick
        }),
{
    if rows.len() == 0 {
        Action::Notice(NO_REVISIONS.to_owned())
    } else {
        Action::Pick
    }
}

/// Decides what to do with what was picked.
pub fn finish(target: &RevsetTarget, picked: Option<&[String]>, emit: bool) -> (a: Action)
    ensures
        a@ == finished(
            target@,
            match picked {
                Some(ids) => Some(strs(ids@)),
                None => None,
            },
            emit,
        ),
{
    match picked {
        Some(ids) => if ids.len() == 0 {
            Action::Quit(130)
        } else {
            dispatch(target, ids, emit)
        },
        None => Action::Quit(130),
    }
}

/// The exit code for that of jj, which is unknown where a signal ended it: its
/// lowest eight bits.
pub fn exit_code(code: Option<i32>) -> (r: u8)
    ensures
        r == (match code {
            Some(c) => c as int % 256,
            None => 1int,
        }),
{
    match code {
        Some(c) => {
            let shifted: i64 = c as i64 + 0x1_0000_0000;
            (shifted % 256) as u8
        },
        None => 1,
    }
}

/// A command as it is shown before it runs: behind a dim prompt on a terminal.
pub fn echo_command(line: &str, is_terminal: bool) -> (out: String)
    ensures
        out@ == (if is_terminal {
            "\x1b[2m$\x1b[0m "@ + line@
        } else {
            line@
        }),
{
    if is_terminal {
        let mut out = "\x1b[2m$\x1b[0m ".to_owned();
        out.append(line);
        out
    } else {
        line.to_owned()
    }
}

// ---------------------------------------------------------------------------
// Laws

/// A pinned revision bypasses the picker: whatever is run or printed then is
/// the user's own command, with nothing added.
pub proof fn law_pinned_command_runs_verbatim(target: Target)
    requires
        target.user_supplied_revset,
    ensures
        planned(target, false) matches Step::Run { args, .. } && args == target.leaf
            + target.passthrough,
{
    assert(exec_words(target, seq![]) =~= target.leaf + target.passthrough);
}

/// Where there is a pick, it is passed on: the command ends in the leaf's flag
/// and the union of the picked ids.
pub proof fn law_pick_is_passed_on(target: Target, ids: Seq<Seq<char>>)
    requires
        planned(target, false) == Step::Pick,
        ids.len() > 0,
    ensures
        finished(target, Some(ids), false) matches Step::Run { args, .. } && args == target.leaf
            + target.passthrough + seq![target.flag->0.spelling(), join(ids, seq!['|'])],
{
}

/// A cancelled pick runs and prints nothing.
pub proof fn law_cancelled_pick_does_nothing(target: Target, emit: bool)
    ensures
        finished(target, None, emit) == Step::Quit(130),
        finished(target, Some(seq![]), emit) == Step::Quit(130),
{
}

/// The command on the screen is the one that Enter runs: whenever Enter picks
/// something, what is then run or printed is the line that was shown.
pub proof fn law_shown_command_is_run(p: Picker, target: Target)
    requires
        p.pending().len() > 0,
    ensures
        outcome(command(Key::Enter, false, p), p) == Some(Some(p.pending())),
        finished(target, Some(p.pending()), true) == Step::Print(shown_command(p, target)),
        finished(target, Some(p.pending()), false) == (Step::Run {
            line: shown_command(p, target),
            args: exec_words(target, p.pending()),
        }),
{
}

/// An invocation that names its revision is not asked about it: where an
/// argument after the leaf is `-r`, `--revision`, `--revisions`, `-t` or `--to`,
/// alone or with `=` and a value, jj is run with the arguments of the user, all
/// of them and no others, whatever the help of the leaf says.
pub proof fn law_named_revision_runs_verbatim(
    args: Seq<Seq<char>>,
    replies: Seq<Option<Seq<char>>>,
    i: int,
)
    requires
        0 < args.len() <= usize::MAX,
        resolution(args, replies) is Resolved,
        resolution(args, replies)->Resolved_0.leaf.len() <= i < args.len(),
        args[i] == "-r"@ || args[i] == "--revision"@ || args[i] == "--revisions"@ || args[i]
            == "-t"@ || args[i] == "--to"@ || "-r="@.is_prefix_of(args[i])
            || "--revision="@.is_prefix_of(args[i]) || "--revisions="@.is_prefix_of(args[i])
            || "-t="@.is_prefix_of(args[i]) || "--to="@.is_prefix_of(args[i]),
    ensures
        planned(resolution(args, replies)->Resolved_0, false) matches Step::Run { args: run, .. }
            && run == args,
        planned(resolution(args, replies)->Resolved_0, true) is Print,
{
    let t = resolution(args, replies)->Resolved_0;
    law_resolution_keeps_arguments(args, replies);
    assert(t.passthrough[i - t.leaf.len()] == args[i]);
    law_named_revision_is_pinned(args, replies, i - t.leaf.len());
    law_pinned_command_runs_verbatim(t);
}

/// There is a pick exactly where the revision is not told and can be passed; a
/// subcommand to which it is not told and cannot be passed is refused, by the
/// name under which it was called.
pub proof fn law_pick_is_for_open_revsets(target: Target, emit: bool)
    ensures
        planned(target, emit) == Step::Pick <==> !target.user_supplied_revset && target.flag
            is Some,
        planned(target, emit) is Refuse <==> !target.user_supplied_revset && target.flag is None,
        planned(target, emit) matches Step::Refuse(why) ==> ("jjf: 'jj "@ + join(
            target.leaf,
            seq![' '],
        ) + "' takes no revset flag"@).is_prefix_of(why) && ("run 'jj "@ + join(
            target.leaf,
            seq![' '],
        ) + "' directly."@).is_suffix_of(why),
{
    if planned(target, emit) is Refuse {
        let path = join(target.leaf, seq![' ']);
        let why = refusal(target.leaf);
        let a = "jjf: 'jj "@ + path + "' takes no revset flag"@;
        let b = "run 'jj "@ + path + "' directly."@;
        reveal_strlit("' takes no revset flag");
        reveal_strlit("' takes no revset flag (-r/--to) \u{2014} run 'jj ");
        reveal_strlit("run 'jj ");
        assert(a =~= why.subrange(0, a.len() as int));
        assert(b =~= why.subrange(why.len() - b.len(), why.len() as int));
    }
}

/// With `emit` nothing is ever run: what would be run is printed instead, as the
/// line that would be shown.
pub proof fn law_emit_prints_what_would_run(
    target: Target,
    picked: Option<Seq<Seq<char>>>,
)
    ensures
        !(planned(target, true) is Run),
        !(finished(target, picked, true) is Run),
        planned(target, true) is Print <==> planned(target, false) is Run,
        planned(target, false) is Run ==> planned(target, true) == Step::Print(
            planned(target, false)->line,
        ),
        finished(target, picked, true) is Print <==> finished(target, picked, false) is Run,
        finished(target, picked, false) is Run ==> finished(target, picked, true) == Step::Print(
            finished(target, picked, false)->line,
        ),
{
}

/// How the arguments of `jjf` are read: all of them go to jj, but for a leading
/// `--emit`, and but for `init`, which asks for the wrapper of a shell.
pub proof fn law_arguments_go_to_jj(first: Seq<char>, rest: Seq<Seq<char>>)
    ensures
        request(seq![]) == Request::Usage,
        first != "init"@ && first != "--emit"@ ==> request(seq![first] + rest) == (Request::Pick {
            args: seq![first] + rest,
            emit: false,
        }),
        rest.len() > 0 ==> request(seq!["--emit"@] + rest) == (Request::Pick {
            args: rest,
            emit: true,
        }),
        request(seq!["--emit"@]) == Request::EmitUsage,
        request(seq!["init"@]) == Request::Init(None),
        request(seq!["init"@, first] + rest) == Request::Init(Some(first)),
{
    reveal_strlit("init");
    reveal_strlit("--emit");
    assert("init"@.len() != "--emit"@.len());
    let one = seq!["--emit"@] + rest;
    assert(one[0] == "--emit"@);
    assert(one.skip(1) =~= rest);
    assert((seq![first] + rest)[0] == first);
    assert((seq!["init"@, first] + rest)[0] == "init"@);
    assert((seq!["init"@, first] + rest)[1] == first);
}

/// The wrapper that is written is that of the shell that was named; for any
/// other name, which the message repeats, there is none.
pub proof fn law_each_shell_has_its_wrapper(name: Seq<char>)
    ensures
        init_step(Some("bash"@)) == Step::Write(BASH@),
        init_step(Some("zsh"@)) == Step::Write(ZSH@),
        init_step(Some("fish"@)) == Step::Write(FISH@),
        init_step(Some("nu"@)) == Step::Write(NU@),
        init_step(Some("nushell"@)) == Step::Write(NU@),
        name != "bash"@ && name != "zsh"@ && name != "fish"@ && name != "nu"@ && name
            != "nushell"@ ==> (init_step(Some(name)) matches Step::Refuse(why) && (
        "jjf: unknown shell '"@ + name).is_prefix_of(why)),
        init_step(None) is Refuse,
{
    assert("bash"@ != "zsh"@ && "bash"@ != "fish"@ && "bash"@ != "nu"@ && "bash"@ != "nushell"@
        && "zsh"@ != "fish"@ && "zsh"@ != "nu"@ && "zsh"@ != "nushell"@ && "fish"@ != "nu"@
        && "fish"@ != "nushell"@) by {
        reveal_strlit("bash");
        reveal_strlit("zsh");
        reveal_strlit("fish");
        reveal_strlit("nu");
        reveal_strlit("nushell");
        assert("bash"@[0] == 'b' && "fish"@[0] == 'f');
        assert("bash"@.len() == 4 && "zsh"@.len() == 3 && "fish"@.len() == 4 && "nu"@.len() == 2
            && "nushell"@.len() == 7);
    }
    let a = "jjf: unknown shell '"@ + name;
    let why = a + "' \u{2014} supported: bash, zsh, fish, nu"@;
    assert(a.is_prefix_of(why)) by {
        assert(a =~= why.subrange(0, a.len() as int));
    }
}

} // verus!
