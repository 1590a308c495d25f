# lib: a small verified Lisp reader and evaluator

The library splits text into tokens, reads the tokens into lists of cons
cells, expands special forms, evaluates values and writes values back as
text. Every function of `src/` is verified with Verus against a contract,
but for one small trusted wrapper around std whose contract is taken on
trust: `push_char` (`String::push`, in `src/text.rs`). A builtin is any type that
implements `Primitive`: its `call_spec` says what a call may do, and the
contracts of evaluation and of special-form expansion are stated over it.

- `src/value.rs`: values, the heap of pairs and lambdas (handles are indices
  into it), list and tree iterators, association-list lookup.
- `src/tokenizer.rs`: the tokenizer and its model; on ASCII text the tokens
  are the text without whitespace, cut at parentheses.
- `src/syntax.rs`: program trees, what reading a token sequence gives, and
  what it means for the heap to hold a tree.
- `src/context.rs`: the interpreter state, the symbol table, builtins,
  reading, special forms and evaluation.
- `src/display.rs`: writing values as text; a value that holds a program
  tree is written as the tree is rendered.
- `src/prims.rs`: the builtins `lambda` and `+`.
- `src/text.rs`: reading and writing decimal integers.
- `app/main.rs`: a program that reads, expands, prints and evaluates a
  sample input.
