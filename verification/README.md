# Kari

Kari is an embeddable, interpreted, dynamically typed, stack-based language
with postfix syntax. This crate holds its interpreter as a library whose
behaviour is stated in contracts and proved with Verus, and a small
command-line program around it.

```
"The answer is: " print
6 7 * print
```

## Layout

- `src/` — the verified library:
  - `reader`, `tokenizer`, `parser`, `pipeline`: bytes to UTF-8 characters
    with positions, characters to tokens, tokens to expressions. Each stage's
    result is stated as a function of the input (`reader_step`,
    `next_token_spec`, `parse_expression_spec`). `token_stream` states whole
    streams of tokens and shows that runs of whitespace between words may be
    replaced by other runs without changing the tokens.
  - `value`, `types`, `convert`, `stack`: values, their types, the stack with
    its substacks.
  - `node`, `functions`, `scope`, `signature`: functions defined per scope and
    dispatched on the types on the stack.
  - `interpreter`, `context`, `call_stack`: evaluation, the builtins and the
    errors evaluation ends in.
  - `semantics`: what evaluation does. `value_outcome` states what
    evaluating one value does, through the `*_outcome` predicates of the
    builtins (all but the host's) and `list_evaluation` for the lists that
    functions, `dig`, `if`, `eval` and `map` evaluate; `step` and
    `simple_run` compute it where the words call builtins that work only
    on the stack and the output, `dig`, `if`, or functions the program
    defined. `evaluate_value` and `evaluate_list` are held to them, and
    `run` and `evaluate_stream` to an `evaluation_trace` of the program's
    values as well as to `simple_run`.
  - `report`: error reports for the terminal, with the source lines under
    the spans marked.
  - `source`, `text`, `iter`, `recorder`: spans, text helpers, and small
    utilities.
- `tests/` — tests of the library.
- `app/` — the command-line interpreter: reads programs from files or
  standard input, runs the tests under `kr/tests`, and computes floats.

## Floats and the host

The library carries floating-point numbers but does not compute with them.
An embedding application implements `Host`: it recognizes float literals
(`FloatSyntax`) and runs its own builtins, such as the arithmetic on floats
that the command-line program defines with decorum's `R32`.

## Running

`app` reads the prelude from `kr/src/prelude.kr` and the standard module from
`kr/src/std.kr`, relative to the working directory.
