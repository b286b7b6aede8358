# minclang

A compiler for integer arithmetic expressions (`+ - * /`, unary minus,
parentheses) to x86-64 assembly, verified with Verus.

- `src/compiler.rs`: tokens, syntax trees and stack-machine code; the lexer
  (`tokenize`), the recursive-descent parser (`parse`), the compiler to
  postfix code (`compile`) and a stack machine that runs it (`run`). Each is
  specified by spec functions over sequences and proved against them.
- `src/evaluation.rs`: the value of an expression (`eval`) and the proof that
  running compiled code gives that value (`lemma_compile_then_run`).
- `src/properties.rs`: round trips and uniqueness: lexing space-separated
  token text gives the tokens back, lexing `a + " " + b` joins the results for
  `a` and `b`, parsing fully parenthesised tokens gives the expression back, and
  `compile` is injective.
- `src/codegen.rs`: the assembly text for stack-machine code, specified line
  by line.
- `src/text.rs`: decimal rendering of integers into strings.
- `app/main.rs`: the command-line driver (argument parsing, file I/O, gcc).
