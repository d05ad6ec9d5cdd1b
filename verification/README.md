# rtk

Runs `echo`, `ls` and `wc` and prints their output in a compact form. Tells
whether the hook that routes these commands through `rtk` is installed.

- `src/` is the library. It is verified with Verus: each function states what it
  returns, and the laws that hold across functions stand beside them as proof
  functions.
- `tests/` runs the library on concrete values.
- `app/` is the program: arguments, files, and the commands that are run.

What the library takes from outside without proof stands in three files:
`src/std_text.rs` (characters and UTF-8 of the standard library), `src/json.rs`
(`serde_json`) and `src/pattern.rs` (`regex`).
