# symbolic_compute

A symbolic calculator for a pocket calculator's screen and keyboard, with its
logic verified by Verus.

- `src/eadk.rs`: keys, keyboard snapshots, points, rectangles, colours.
- `src/input.rs`: the input state machine (one function per key group), its
  mathematical model and the laws it obeys (a held key acts once, backspace
  undoes an insertion, the x/n/t key replaces its own letter).
- `src/parsebeta.rs`, `src/polynomial.rs`, `src/fixed.rs`: the polynomial
  simplifier over fixed-capacity collections (16 terms, 8 variables per
  term, 128 bytes of output).
- `src/evaluation.rs`: the value of a polynomial at an assignment of its
  variables, and the laws that a sum and a product of polynomials evaluate
  to the sum and the product of the values.
- `src/parser.rs`: a parser of arithmetic expressions that keeps numerals as
  written.
- `src/tidy.rs`: the last touch on a printed result (`+ -` to `- `, double
  spaces to one, the ends trimmed).
- `src/ui.rs`: text widths, the cursor's place and the drawing commands of
  the screen.
- `src/text.rs`: character classes and the std string operations used.
- `app/`: the program around the library: system calls, the main loop, and
  the simplification of expressions with floating-point constants.
