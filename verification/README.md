# petri

A small language to model, simulate and visualize P/T nets, written in Verus: the
library's behaviour is stated in `requires` / `ensures` contracts and proved.

```
petri export -i net.ptr -o net.png        # render with Graphviz
petri interactive -i net.ptr              # simulate in a REPL
```

REPL commands: `.quit`, `.help`, `fire <T>`, `show`, `trace`.

## Layout

- `src/grammar`: the lexer (text to tokens with byte ranges), the parser (tokens to
  statements), and a self-contained analysis over the syntax tree.
- `src/analysis`: the symbol table, the semantic model, the rule checks, and the rendering
  of diagnostics against the source text.
- `src/repl`: the runtime net with its firing rule, the decisions of the interactive loop,
  and the proof that a program the analysis accepts gives a net that can be simulated.
- `src/export`: the Graphviz text of a net.
- `src/text.rs`, `src/traits.rs`: UTF-8 offsets, decimal numerals, and source outlines.
- `app/`: the command line, file and process I/O, and the loop that reads commands.
- `tests/`: tests of the library on concrete inputs.
