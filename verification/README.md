# must

The core of a compiler for `must`, a small statically typed language in the
spirit of C: type inference and checking, lowering to a register IR, and a
virtual machine that runs that IR. The library is written in Verus; every
function in `src/` carries a contract that Verus proves.

## Layout

- `src/parser/` — the syntax tree of a source file. Nodes live in arenas of
  a `File` and refer to each other by index; `file_is_closed` checks that a
  tree only refers to nodes interned before each node.
- `src/resolve.rs`, `src/def_map.rs`, `src/mod_tree.rs` — function
  signatures read from type annotations, and the functions of a module.
- `src/typecheck/` — inference with unification variables kept in an `ena`
  union-find table (`inference/tp.rs`), the substitution the table stands for
  (`inference/subst.rs`), coercibility (`inference/compat.rs`), unification
  (`unify.rs`) and the checking of patterns and expressions (`check.rs`).
- `src/bytecode/` — the register IR, its builder, its listing, and the
  lowering of typed functions.
- `src/vm.rs` — a small-step machine for the IR, with its semantics as spec
  functions.
- `src/diagnostic.rs`, `src/state.rs` — error messages and the files of an
  editing session.
- `app/` — the command line (`must run FILE`, `must lsp`), rendering of
  diagnostics with `ariadne`, and the language server built on `tower-lsp`.

## What is proved

- Unification is sound: when `coerce` succeeds, the two types, resolved
  through the final table, are coercible; every later step of inference
  keeps them so. `coerce` fails only where the types, resolved through the
  table it leaves, are not coercible; it binds a variable to a type that
  does not contain it and unions two variables; on types whose variables
  are all resolved it decides coercibility exactly and leaves the table as
  it was.
- Checking a pattern gives the bindings that the pattern makes against the
  type, and a call gives the callee's result type and one report per
  missing or extra argument.
- When checking a function reports nothing, the sealed type of its body
  coerces to its declared result type.
- Lowering states what it emits for literals, variables, operators,
  calls, tuples and arrays, coerced array pointers, literal patterns and a
  function's registers, and succeeds on simple arithmetic expressions
  where registers are left. The elements of a tuple or array of simple
  values are written in order at their offsets, and simple arguments of a
  call are passed in order in the registers they were loaded into.
- A function whose body is an arithmetic expression over its parameters
  type-checks and lowers without error, and so does a crate of such
  functions.
- Lowering only emits functions that refer to their own registers, blocks
  and stack slots, and the machine never meets a missing register, block or
  stack slot when it runs such a program.
- A call that finishes leaves the stack pointer where it found it.
- Each machine step, a whole run, and each diagnostic's text are given
  exactly by spec functions.
