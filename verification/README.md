# datatest_mini

Generates one test function per fixture file: a harness lists entries such as
`{ test = run_test, root = "tests/fixtures", pattern = r"^[^/]+\.txt$" }`, and
every file under `root` whose relative path matches `pattern` becomes a
`#[test]` (or `async`, or custom-attribute) function in a module named after
`test`, calling `test` with the file's path and content.

## Layout

- `src/` is the verified library (Verus). It works on a model of the macro's
  tokens and of the fixture directory:
  - `tokens.rs`: the token trees read and emitted, and their views;
  - `literal.rs`: reading a string literal's value from its text (plain and raw strings);
  - `escape.rs`: the escape sequences of string literals;
  - `entry.rs`: reading the harness entries from the input tokens;
  - `ignore.rs`: deciding, from which environment variables are set, whether an entry's tests are ignored;
  - `pattern.rs`: fixture-path patterns, compiled and matched by the `regex` crate;
  - `files.rs`: choosing the matching fixture files in path order and naming their tests;
  - `generate.rs`: emitting the test functions, grouped in modules;
  - `harness.rs`: one entry's tests, from its pattern, environment and files;
  - `text.rs`: string helpers and the string order.
- `app/` is the procedural-macro side: it converts `proc_macro` token streams to
  and from the model, reads environment variables and fixture directories, and
  panics where the harness cannot be generated.
- `tests/` runs the library on concrete inputs.
