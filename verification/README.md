# insert

The core of the Insert compiler, verified with Verus: the mid-level
representation (MIR) of programs, the passes over it, and its lowering to C
tokens, each with a contract over a mathematical model of the MIR.

Layout of `src/`:

- `mir/mod.rs`, `mir/view.rs`: the MIR types and their models (`@`).
- `mir/types.rs`, `mir/overloads.rs`, `mir/eq.rs`: type compatibility,
  function overloads, structural equality.
- `mir/type_check.rs`: the type checker (expressions, statements, functions,
  constants, statics, whole programs).
- `mir/expr.rs`: expression folding and the expression visitors.
- `mir/opt.rs`, `mir/inline.rs`: removal of trivial ifs and dead code;
  inlining of constants.
- `mir/function.rs`, `mir/var.rs`, `mir/reach.rs`: argument variables,
  calls through variables, pruning; numbering variables and giving each a
  name of its own; reachability of functions from the exported ones.
- `mir/flatten.rs`, `mir/label.rs`: lowering of ifs and loops to labels and
  jumps, and resolving jumps to positions.
- `mir/register.rs`: adding, renaming and removing declarations.
- `mir/interpreter.rs`: compile-time evaluation of constants, statics and
  calls of flattened functions on a store of plain values, bounded by fuel
  (a result does not change with more fuel), and writing the values of
  constants and statics back into the program.
- `mir/prim.rs`: inlining of variables that hold known primitive values.
- `mir/mangle.rs`: giving exported statics, functions and their local
  variables the shortest free names, with every use renamed along.
- `mir/copy.rs`: copies of statements, functions and programs.
- `mir/quine.rs`: where markers may stand.
- `mir/display.rs`: the textual form of the MIR.
- `codegen/`: tokens, the lowering of MIR to C tokens, and `#define`
  compression of the output; `codegen/c/markers.rs` shows that markers keep
  their order from the program through lowering, merging and compression.
- `parser/number.rs`: reading number literals with their type suffixes.
- `util/`, `targets.rs`, `parser/span.rs`: names, number formatting, the C
  target, source spans.

`tests/` exercises the public functions on concrete programs.

What this crate does not contain: the rest of the parser from source text
to MIR, the passes that inline functions, add drops of live values and
reuse variables, the partial evaluation of constants that cannot be
evaluated whole, the driver that runs the passes in order, and the
command-line program around them. Those parts are not here, verified or otherwise.
