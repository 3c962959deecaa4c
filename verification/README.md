# jjf

A fuzzy revision picker for [jujutsu (jj)](https://github.com/jj-vcs/jj), with
its logic verified by [Verus](https://github.com/verus-lang/verus).

`jjf <jj-subcommand> [args...]` lists the log, lets you pick one revision or
several, and runs the subcommand with `-r <ids>` (or `--to <ids>`) added. A
command that already names its revision runs as it is; one that takes no revset
is refused.

## Layout

- `src/` is the library: everything that is decided or computed, each function
  with its contract. Properties of the library as a whole are the public proof
  functions named `law_…`.
- `app/` is the program: arguments, runs of jj, the terminal.
- `tests/` runs the library.

## What is not proved

The contracts of a few outside functions are taken on trust: fuzzy matching by
`nucleo-matcher` (`src/fuzzy.rs`), `String::from_utf8_lossy` (`src/decode.rs`),
`str::to_lowercase` (`src/rank.rs`), `String::push` and `String::pop`
(`src/text.rs`). Each says in its doc comment what is claimed of it.

## Filter

| The filter is                       | Score            |
| ----------------------------------- | ---------------- |
| a prefix of the shortest change ID  | 1,000,000        |
| a prefix of the short change ID     | 100,000          |
| a prefix of the shortest commit ID  | 10,000           |
| a prefix of the short commit ID     | 1,000            |
| a fuzzy match of the text           | the match's own  |

With an empty filter all revisions are listed in the order of the log. Rows of
pure graph are drawn but cannot be picked, and a filter leaves them out.

## Keys

| Key                                                 | Action                              |
| --------------------------------------------------- | ----------------------------------- |
| any character                                       | append to the filter                |
| `↑` / `↓`, `Ctrl-P` / `Ctrl-N`, `Ctrl-K` / `Ctrl-J` | move the cursor                     |
| `PageUp` / `PageDown`                               | move by a screen                    |
| `Home` / `End`, `Ctrl-A` / `Ctrl-E`                 | first / last revision               |
| `Tab`                                               | select the row, or take it out      |
| `Enter`                                             | pick the selection, else the cursor |
| `Backspace`, `Ctrl-H`                               | delete a character of the filter    |
| `Ctrl-U`, `Ctrl-W`                                  | clear the filter, delete a word     |
| `Esc`, `Ctrl-C`                                     | cancel                              |

`jjf init <bash|zsh|fish|nu>` prints a wrapper that puts the command that was
run into the history of the shell.
