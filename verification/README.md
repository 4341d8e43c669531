# shell

A small interactive shell. The library (`src/`) holds its logic, verified
with Verus; `app/` is the program around it (line editing with rustyline,
files, processes).

- `parser`: the command-line tokenizer (quotes, escapes, `~`, redirection
  and pipe operators), command resolution and pipeline stages.
- `env_custom`: the shell's variables and which of them are exported.
- `redirect`: taking `>`/`>>`/`2>`... redirections out of the tokens.
- `jobs`: the background job table and its reports.
- `builtins`: what `echo`, `type`, `cd`, `pwd`, `exit`, `complete` and
  `jobs` print and change, and the table of completion programs.
- `readline`, `offsets`: completion of command names, file names and
  arguments, with cursor positions in bytes.
- `text`: character-level helpers and the specifications they meet.

The variable table (`Env`) and the table of completion programs
(`Completions`) are vectors of entries whose names are kept distinct by a
type invariant, viewed as maps. vstd's contracts for `HashMap` hold only
for key types that vstd declares to follow its key model (`obeys_key_model`:
the integer types and `bool`); for `String` keys that would have to be
assumed, which this crate does not do. Neither table's order is visible: the
views are maps.
