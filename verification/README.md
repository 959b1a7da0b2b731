# ccompiler

A small compiler for a subset of C, written in Verus. Each pass is an
executable function whose contract states what it produces:

- `src/compiler/lexer.rs`: the lexer, specified token by token;
- `src/compiler/grammar.rs`: the grammar the parser accepts, stated over
  the lexer's tokens (precedence, grouping, statements, type names);
- `src/compiler/parser.rs`: a recursive-descent parser with error recovery;
  a parse without errors is a derivation of the source in that grammar,
  and a source that has such a derivation parses without errors;
- `src/compiler/tychk.rs`: the semantic checker (scopes, linkage, loops,
  `switch`, calls, `goto` targets); a check without errors yields one
  checked function per definition, in order, keeping the shape of its
  body. For units of function definitions and file-scope variables, each
  name declared once, whose bodies hold no `switch` and no
  `static`/`extern` local, `check` states exactly which errors it reports
  (`unit_walk`: undeclared names, duplicate declarations and labels,
  misplaced `break`/`continue`, `goto` targets that no statement labels,
  type mismatches, calls, lvalues, global initializers), succeeds exactly
  when there are none, and resolves each
  name to its latest binding in scope (`unit_res`). The errors for `goto`
  targets that no statement labels are stated for every body;
- `src/compiler/ast/convert.rs`: lowering to three-address code, stated
  exactly by the translation scheme `lower_stmt` / `lower_expr`;
- `src/compiler/ast/meaning.rs`: what straight-line three-address code and
  side-effect-free expressions compute, and the laws that lowering keeps
  values and that assignments store what C says;
- `src/compiler/tacky.rs`: instruction selection, stack slots and
  legalisation for x86-64, each stated exactly;
- `src/compiler/x86.rs`: the assembly text;
- `src/compiler.rs`: the pipeline; a syntax error is reported exactly
  when the source has no derivation in the grammar, and a successful
  result is the lowering of a checked program that keeps the shape of the
  parsed one. For the units above, the semantic errors are the checker's,
  success comes exactly when it finds none (or with the one
  unsupported-construct error), and the code is the lowering of a checked
  program that resolves names as `unit_res` says; for units of constant
  expressions and control flow it follows from the parse alone;
- `src/compiler/error.rs`: diagnostics with the source lines they concern;
- `src/arena.rs`, `src/intern.rs`, `src/compiler/ty.rs`: the arena, interner
  and scope stack the passes are built on.

`app/main.rs` is the command-line driver: it preprocesses each file with
`gcc -E`, compiles the units in parallel, writes the assembly and links it
with `gcc`.
