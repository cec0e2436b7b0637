# ajkshell

A small interactive shell.  The library (`src/`) holds its logic, each
function with a contract proved by Verus:

- `slice_tree`: shared byte buffers viewed in ranges (`SliceTree`).
- `parser`: the lexer, which splits a command line into command words,
  argument words and pipes.
- `command`: splitting tokens into pipeline stages (`parse`), each stage's
  command and arguments (`ParsedCommand`), and what a stage runs (`build`).
- `builtins`: the `cd` and `exit` builtins' argument checks.
- `editor`: the line editor (keys, cursor, history) as a state machine.
- `output`: what the raw-mode terminal is sent, and the prompt's checks.
- `prompt`: the prompt text for the working directory.
- `listing`: the `ls` helper's options and how it writes each entry.

`app/` is the program around it: terminal input and output, processes, the
file system and the environment.  Started under the name `prompt` or `ls`,
it runs those helpers instead of the shell.
