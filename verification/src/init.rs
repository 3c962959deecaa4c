//! Wrappers that shells source: they put the command that was run, rather than
//! the `jjf` that led to it, into the history of the shell.

use crate::text::{equals, to_chars};
use vstd::prelude::*;

verus! {

/// For bash: the history entry of the call is deleted, and the command that
/// was picked is added in its place.
pub const BASH: &'static str = r#"# jjf shell integration for bash
jjf() {
    case "${1-}" in
        '') set -- show ;;
        init|-*) command jjf "$@"; return ;;
    esac
    local cmd status
    cmd=$(command jjf --emit "$@")
    status=$?
    history -d -1 2>/dev/null
    if [ "$status" -ne 0 ] || [ -z "$cmd" ]; then
        return "$status"
    fi
    history -s "$cmd"
    printf '\033[2m$\033[0m %s\n' "$cmd"
    eval "$cmd"
}
"#;

/// For zsh: a hook keeps the call out of the history, and the command that was
/// picked is added.
pub const ZSH: &'static str = r#"# jjf shell integration for zsh
autoload -Uz add-zsh-hook
_jjf_addhistory() {
    emulate -L zsh
    [[ "${1%%$'\n'}" == (jjf|jjf\ *) ]] && return 1
    return 0
}
add-zsh-hook zshaddhistory _jjf_addhistory
jjf() {
    case "${1-}" in
        '') set -- show ;;
        init|-*) command jjf "$@"; return ;;
    esac
    local cmd code
    cmd=$(command jjf --emit "$@")
    code=$?
    if [[ $code -ne 0 || -z "$cmd" ]]; then
        return $code
    fi
    print -s -- "$cmd"
    printf '\033[2m$\033[0m %s\n' "$cmd"
    eval "$cmd"
}
"#;

/// For fish: the call is deleted from the history after it ran, and the
/// command that was picked is added.
pub const FISH: &'static str = r#"# jjf shell integration for fish
function _jjf_postexec --on-event fish_postexec
    if string match -qr '^jjf(\s|$)' -- $argv[1]
        builtin history delete --exact --case-sensitive -- $argv[1]
    end
end
function jjf
    if test (count $argv) -eq 0
        set argv show
    end
    switch $argv[1]
        case init '-*'
            command jjf $argv
            return
    end
    set -l cmd (command jjf --emit $argv)
    set -l code $status
    if test $code -ne 0; or test -z "$cmd"
        return $code
    end
    builtin history append -- "$cmd"
    printf '\033[2m$\033[0m %s\n' "$cmd"
    eval $cmd
end
"#;

/// For nushell: the command that was picked is added to the history; the call
/// stays in it.
pub const NU: &'static str = r#"# jjf shell integration for nushell
def --wrapped jjf [...args] {
    let args = if ($args | is-empty) { [show] } else { $args }
    let first = ($args | first)
    if $first == 'init' or ($first | str starts-with '-') {
        ^jjf ...$args
        return
    }
    let out = (^jjf --emit ...$args | complete)
    if ($out.stderr | is-not-empty) { print -e $out.stderr }
    if $out.exit_code != 0 {
        return
    }
    let cmd = ($out.stdout | str trim)
    if ($cmd | is-empty) {
        return
    }
    [{ command: $cmd }] | history import
    print $cmd
    nu -c $cmd
}
"#;

/// The wrapper for a shell, by its name.
pub open spec fn wrapper(shell: Seq<char>) -> Option<Seq<char>> {
    if shell == "bash"@ {
        Some(BASH@)
    } else if shell == "zsh"@ {
        Some(ZSH@)
    } else if shell == "fish"@ {
        Some(FISH@)
    } else if shell == "nu"@ || shell == "nushell"@ {
        Some(NU@)
    } else {
        None
    }
}

/// The wrapper for a shell; `None` where the shell is not known.
pub fn snippet(shell: &str) -> (r: Option<&'static str>)
    ensures
        wrapper(shell@) == (match r {
            Some(s) => Some(s@),
            None => None,
        }),
{
    let name = to_chars(shell);
    if equals(name.as_slice(), "bash") {
        Some(BASH)
    } else if equals(name.as_slice(), "zsh") {
        Some(ZSH)
    } else if equals(name.as_slice(), "fish") {
        Some(FISH)
    } else if equals(name.as_slice(), "nu") || equals(name.as_slice(), "nushell") {
        Some(NU)
    } else {
        None
    }
}

} // verus!
