# axiom_native

A compiler and virtual machine for the AXIOM language, written in Verus.

The pipeline is `lexer` → `parser` → `semantic` → `ir` → `vm`, with
`runtime` as a reference interpreter that runs the syntax tree directly and
`artifact` as the `.axm` text format of compiled programs. Every stage is an
executable function whose contract equals a mathematical specification of
the stage; `round_trip` proves that reading the text of an artifact gives the
artifact back. That round trip holds for artifacts whose names and string
texts hold no line feed (the format is line-based), and where no line of the
text but the last ends in a carriage return.

Layout:

- `src/` — the verified library (`text`, `lexer`, `ast`, `parser`,
  `semantic`, `ir`, `vm`, `artifact`, `runtime`, `round_trip`, and
  `agreement`, which proves that the interpreter and the virtual machine
  give the same results on every program without floating-point literals
  and without assignments into array elements, unless the interpreter
  stops because a function called for its value returned none).
- `tests/` — tests of the library.
- `app/main.rs` — the `axiom` command (`check`, `build`, `run`), with the file
  input and output.

The interpreter and the virtual machine share one model of values
(integers, booleans, strings and arrays) and of what each operator does to
them: `+` on two strings concatenates them, arrays hold their elements as
values. A call statement named `print` is always the builtin; without an
argument it fails, in both, with `index out of bounds`. On the machine a
called function works on an operand stack of its own. Integers are exact 64-bit values: overflow is an error, never a wrap.
The virtual machine has no floating-point values; the interpreter keeps a
`Float` literal as its text, which it can print and compare for equality, and
reports arithmetic on it as unsupported.
