# drone_riscv

RISC-V platform support for the Drone embedded operating system, with its
decision logic written in Verus and proved against its contracts.

- `src/` — the verified library:
  - `trap`: decoding `mcause` and choosing the thread a machine trap wakes
    (timer disarm, PLIC claim, handler tables).
  - `token`, `syntax`, `literal`: a flat token model and readers for the Rust
    syntax the thread macros accept (attributes, visibilities, paths, integer
    literals), each with a spec function that says what it returns.
  - `thr`: the `thr!` macro — grammar, thread numbering, thread array, index
    fields and interrupt table, with laws on the numbering and the table.
  - `thr_clint`: the `thr::clint!` macro — grammar (sections in any order,
    each once), interrupt table and PLIC sources.
  - `clint_order`: the law that the sections of a `thr::clint!` input read
    alike in any order, with the lemmas on moving tokens it rests on.
  - `names`: the calls into `Inflector` and `unicode-ident`, whose results are
    named rather than restated.
- `app/` — the hardware and compiler edges: the macro front end (token
  conversion, error reporting, code printing with `quote`), register
  declarations, the naked trap handler and processor instructions.
- `tests/` — tests on concrete inputs.
