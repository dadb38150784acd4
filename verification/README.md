# wlr

`wlr` is a small streaming filter for ANSI-colored command output. It keeps
lines whose visible text is written in one or more target colors and can
include context lines before and after each matching block.

The library is written in Verus:

- `src/colors.rs`: the color buckets, the user's selection and the rules that
  decide whether a foreground color belongs to a bucket.
- `src/ansi.rs`: the streaming ANSI parser (a byte-at-a-time state machine),
  the SGR foreground decoder and `ColorLineFilter`, which tracks the current
  line and hands completed lines to the emitter. Its laws state that chunking
  the input changes nothing, that lines are passed on byte for byte, and what
  a whole input produces.
- `src/emitter.rs`: `LineEmitter`, which decides which lines are written
  around matches and where separators go. `lemma_emitter_output` states the
  output of any stream of lines directly.
- `src/util.rs`: unescaping of the `--separator` argument.

`app/main.rs` is the command-line program: argument parsing with clap and the
stdin/stdout loop around the library.

Usage:

```bash
some-command 2>&1 | wlr                      # red lines (the default)
some-command 2>&1 | wlr --color all          # every colored line
some-command 2>&1 | wlr --color red --color violet
some-command 2>&1 | wlr -B 3 -A 2            # with context
some-command 2>&1 | wlr --separator ""       # no blank line between sections
```
