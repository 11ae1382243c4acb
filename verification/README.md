# sed-rs

A stream editor in the tradition of GNU `sed`, as an embeddable library whose
behaviour is stated in contracts and proved with Verus, and a command-line
program around it.

```rust
let out = sed_rs::eval("s/hello/world/", "hello there\n")?;
assert_eq!(out, "world there\n");
```

Patterns are those of the `regex` crate, always in multi-line mode.

## Layout

- `src/grammar.rs`, `src/script.rs`: the language of scripts and the model of a
  parsed script. `src/command.rs` is the parser.
- `src/program.rs`, `src/pattern.rs`: scripts become instructions with compiled
  patterns.
- `src/machine.rs`: what running a script means, step by step.
  `src/engine.rs` runs it.
- `src/substitute.rs`, `src/listing.rs`: the `s` and the `l` command.
- `src/input.rs`: how bytes are read as lines.
- `src/sed.rs`: `Sed` and `eval`.
- `src/cli.rs`: what a command line asks for.
- `src/bre.rs`, `src/unescape.rs`: dialects of patterns and of escapes.
- `src/session.rs`: runs on input that comes record by record.
- `src/laws.rs`, `src/blocks.rs`, `src/selection.rs`, `src/joining.rs`: what holds
  of every script, of blocks that are passed by, of addresses over a whole input,
  and of scripts one after the other. `src/oneliners.rs`: what common one-line
  scripts do to a whole input.
- `app/`: the program. It opens files, runs the shell and drives the engine.

The library itself reads and writes nothing. A run that needs a file or the
shell says so in its `Status` and goes on when it is given what it asked for;
`Sed::eval` and `Engine::process_stream`, which have only their input, stop
there with `Error::External`. A script that never ends is run for ever.
