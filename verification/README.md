# rua

A small, Rust-shaped scripting language: a compiler to register bytecode, a
virtual machine, a second tier that turns hot functions and loops into Rust,
a standard library and a language server. What the parts compute is proved with
Verus; what touches the world around them is ordinary Rust.

## Layout

`src/` is the verified library.

| module | what it is |
| --- | --- |
| `ast` | the tree that the compiler, the second tier and the editor read |
| `codegen`, `compile` | what a program compiles to, and the compiler that does it |
| `bytecode` | instructions, and when a compiled function is sound |
| `machine`, `vm` | one step of the machine as a function of its state, and the machine |
| `value`, `table`, `num`, `hash`, `text` | values, tables, IEEE doubles as bits, hashes, text |
| `builtin` | the parts of the standard library that compute |
| `modules`, `cli` | finding and loading files, what the command prints |
| `jit` | which code compiles, what it is lowered to, and the Rust it is written as |
| `tier` | the border between interpreted and compiled code |
| `cdecl` | C declarations, and how values are passed to C |
| `lsp` | positions, colours, names, types, completion and hovers for an editor |

`tests/` runs the library. `app/` is the program around it: the command, the
host that does arithmetic, input and output for the machine, the runtime that
builds and loads compiled code, the C interface and the language server. It
reads source text with the front end `rua_syntax`.

## Numbers

A number is an IEEE double. The library holds one as its 64 bits and decides
everything that follows from the bits alone: equality, order, whether it is an
index, how a whole one is written. Arithmetic is the host's: the machine stops,
says which sum it needs, and goes on when it is told.

## Two ways to run

Code on numbers means the same however it runs. `jit/meaning.rs` says what such
code means; `jit/faithful.rs` proves that the code it is lowered to means the
same, and `jit/either.rs` that the machine, running its bytecode, comes to the
same return. The code this is proved of has

- sums of locals, literals and what functions give: functions of numbers, called
  as `math::f(x)` or as methods, and functions called by a global name
- conditions of comparisons, flags, `&&`, `||` and `!`, also for their value
- `let` and assignment of one value or of several, `x op= e`, blocks, `if`,
  `while`, `loop`, counted `for`, `break`, `continue` and `return`

What a function that is called gives is handed in, and both sides use the same.
`jit/recursive.rs` closes this for the compiled side of functions that call
themselves and each other: whatever one comes to within some depth of calls, its
compiled code comes to within the same. On the machine's side `jit/entering.rs`
shows that a call is what the function means: the machine enters it, comes to what
it means where the calls it makes in turn give what they mean, and is back where
the call was made with all else as it was.

It is not proved of

- tables and their views, arrays that are made or returned, and `match`
- an `if` or a block as the value of a `let`, an assignment or an argument
- calls by a captured name on the machine, in the start or the limit of a counted
  loop, as the last argument of another call, or at the end of a block whose value
  nobody wants
- the machine running calls within calls step by step: each is one step there,
  which gives what the function means

Of tables it is proved that what compiled code did is kept or undone as a whole
(`tier/dirty.rs`).

## What is trusted

Everything in `src/` is proved but for a few calls into the standard library,
`syn` and `prettyplease`. Each stands in a function of its own whose comment
says what is taken on trust:

- `text.rs`: `String::push`, comparing two texts, two questions about a
  character, and the debug form of a text
- `value.rs`: whether two strings share an allocation, and how many hold one
- `builtin/strings.rs`: reading bytes as text, and the two changes of case
- `jit/source.rs`: laying out a generated Rust file
