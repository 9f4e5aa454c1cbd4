# sysy_compiler

A compiler from SysY (a small C subset) to RISC-V assembly, by way of an
SSA-style intermediate representation in the style of Koopa IR. The library
is written in Verus: its functions carry contracts that the verifier proves.

## Layout

- `src/ast.rs` — the syntax tree, and the evaluation of constant expressions
  (checked 32-bit arithmetic).
- `src/gen_ir_variables.rs` — the symbol table: nested scopes, unique ids and
  the stack of enclosing loops, with laws on lookups, shadowing and scope exit.
- `src/ir.rs` — the IR: types, values, blocks, functions and programs, the
  builders that keep it well formed, and its typing rules.
- `src/gen_ir_exp.rs`, `src/gen_ir.rs` — translation of expressions,
  statements, declarations and functions into IR. The programs produced have
  every block terminated and every instruction well typed; straight-line
  constant expressions compute their value.
- `src/reg_alloc.rs` — live intervals and linear-scan register allocation over
  `a0`..`a7`, spilling to the stack; no two overlapping intervals share a
  register and every stack value has a slot of its own inside the frame.
- `src/gen_asm_exp.rs`, `src/gen_asm.rs` — the RISC-V text of instructions,
  functions and whole programs, stated exactly for a given placement of the
  values (which free register a value gets is left open), including the use
  of the two scratch registers `t5` and `t6`.
- `src/debug.rs` — readable renderings of the syntax tree.
- `src/util.rs` — decimal formatting and small string helpers.
- `app/` — the command line (`MODE INPUT -o OUTPUT`), file I/O, and the text
  form of the IR through the `koopa` crate.
- `tests/` — tests on concrete programs and values.
