# cicada

Tools for building small languages, verified with Verus.

`src/` is the library; every function in it carries a contract that Verus
checks:

- `text`: characters, byte lengths and decimal numerals of strings.
- `dict`: a persistent dictionary; laws on what `find` gives after
  `insert` and `extend`.
- `error_report`: errors in the context of their source text, and the
  reports written for them.
- `lexing`, `lex_join`: a lexer whose tokens point into the text, and how
  it treats texts put together.
- `mexp`, `mexp_syntax`, `mexp_reading`: M-expressions, their parser and
  printers, and the law that printing what the parser read gives back the
  tokens it read.
- `jojo_token`, `jojo_repl`: words of jojo's S-expressions, and the bracket
  check of its read-eval-print loop.
- `serde_text`: the text format of a small serializer and deserializer,
  with laws on reading back what was written.
- `eopl`: a tiny expression language and its interpreter.
- `grammar`: grammars as rewriting rules and the breadth-first generation
  of their sentences, each of which derives from the start variable, up
  to the next sentence within a budget of steps.
- `ukanren`, `kanren`, `yoneda`: terms, substitutions and unification of
  a micro logic language, with the law that unification makes the terms
  agree, and its form with named variables, relations and goals as data.
- `cicada`: the syntax of the cicada language (terms, bindings, objects
  and definitions read from M-expressions) and its printing.
- `cicada_value`: cicada's values, ordered dictionaries of named values,
  and substitutions with walking, occurs checks, unification of values
  with each other and with types, and reading values back; each also
  within a budget of steps, for the runtime.
- `cicada_module`: cicada's runtime: a module of named objects, the values
  terms make, the breadth-first search for proofs one deduction step at a
  time, the running of a program's definitions (searches, queries,
  assertions, runs of steps) and the printing of what they found; the
  search is stated as a relation over fresh names (`ded_step_rel`,
  `next_rel`, `take_rel`), with the law that every proof it finds proves
  the typed variable it started from.
- `wissen`: the untyped logic language wissen: terms, substitutions and
  unification, denotations and their application, deduction trees, its
  statements read from M-expressions, and the search for proofs that runs
  its programs, stated as a relation over fresh renamings (`step_rel`,
  `next_rel`, `take_rel`).

The searches of both runtimes, and the generation of sentences, run
within a budget of `usize::MAX` steps;
the unifications they make, within as many steps of walking and
levels of nesting.  Where a budget runs out, or a cicada data name is too
short to cut, the runtime gives an error.

`app/` holds what the verifier does not take: the serde plumbing, printing
of reports, the floating-point scanner of jojo, the goals of the logic language, which are closures, and the
reading of cicada modules from files, with the layout of what a search
found.

`tests/` exercises the library on concrete values.
