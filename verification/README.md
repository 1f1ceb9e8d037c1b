# ramb

A small interpreter for the untyped lambda calculus, written in Verus.

```sh
𝞴> succ :: \n f x. f (n f x)
𝞴n f x. f (n f x)
𝞴> 0 :: \f x. x
𝞴f x. x
𝞴> succ (succ 0)
(𝞴n f x. f (n f x)) ((𝞴n f x. f (n f x)) (𝞴f x. x))
    =ᵦ 𝞴f x. f ((𝞴n f x. f (n f x)) (𝞴f x. x) f x)
    ...
    =ᵦ 𝞴f x. f (f x)
```

Layout:

- `src/expr.rs`: terms, binding by identity, substitution, one step of
  beta reduction, and their mathematical model `Term`.
- `src/display.rs`: printing.
- `src/token.rs`, `src/parse.rs`: the tokenizer and the recursive-descent
  parser.
- `src/repl.rs`: one line of input against a session of definitions,
  with the text of every error.
- `src/roundtrip.rs`: the proof that printed terms parse back.
- `src/text.rs`: characters, number formatting, strings.
- `app/main.rs`: the prompt, file input, and the printing of reduction
  steps.

Every binder and variable carries an identity: a variable refers to the
binder whose identity it carries. The parser numbers identities from the
session's counter, so that names made on different lines never share one.
