# tst

The core of a terminal live streamer, verified with Verus, and the program around it.

- `src/` is the library. Its contracts are proved by Verus; those of the few items that call
  outside crates are relied on, as their comments say.
  - `input`, `asciicast` and `raw` read a terminal session, a recording or raw bytes, step by step.
  - `hub` keeps the state of the running stream, `client` what a client of it is sent.
  - `alis` encodes stream events as ALiS messages, `sse` as JSON values.
  - `lzw_compressor` compresses with twelve bit codes. `lzw_model` states what it does,
    `lzw_laws` proves that it is lossless, `single` computes its ratio in single precision.
  - `terminal` holds what is relied on of the terminal emulator.
  - `cli` holds the decisions on the command line.
- `tests/` runs the library.
- `app/` is the program: files, clocks, channels, the HTTP server, the forwarding connection.
