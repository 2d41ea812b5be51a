# ramort

Resource-bound analysis of a compact Rust IR, written in Verus.

`src/` is the verified library. It takes a `ProgramIr` (functions as events,
loop regions and a control-flow graph) and reports, per function, a big-O
bound with a status (`Proven`, `Partial`, `Undefined`), the obligations it
checked and the assumptions it rests on. Its parts:

- `expr`, `keymap`: linear expressions over named variables, kept as sorted
  maps, with exact arithmetic and an exact check of `lhs <= rhs` for all
  non-negative values of the variables; `reading` proves that the written
  form of an expression parses back to the same expression.
- `summary`, `summary_mode`, `transition`, `loop_summary`: trusted cost
  summaries of collection methods and the abstract lengths they induce.
- `obligation`, `constraints`, `lp`, `certificate`, `semantics`: amortized
  obligations, the integer linear problem that searches their coefficients,
  the exact re-check of a solution, and the soundness of that check;
  `encoding` proves that the generated constraints hold under an assignment
  exactly when the substituted exact check passes.
- `analysis`, `ranking`, `recurrence`, `policy`: the two-pass analysis,
  ranking functions of loops, and the master theorem and linear recurrence rule;
  `uniqueness` proves that the first pass over a program matches separate
  calls on the mode-filtered summaries when the solver answers by value.
- `cargo_cli`, `frontend_cli`, `terminal`, `potential_text`: the text the
  command-line tools print.

`app/` holds the command-line tools (`cargo-ramort` and `ramort-rustc`), the
JSON and TOML forms of the library's types, and the `good_lp` solver backend,
which works in floating point.
