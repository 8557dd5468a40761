# isg

Embeds a file into the frames of a video and gets it back out: every block
of `size` by `size` pixels carries one bit (black or white, binary mode) or
three bytes (its red, green and blue, colour mode). A first frame, always in
binary mode with blocks of five pixels, records the output mode, where the
data ends and the block size.

The library in `src/` is verified with Verus:

- `bits` – bytes and 32-bit words to bits and back, most significant bit
  first, with the round-trip laws.
- `embedsource` – frames as plain pixel data (`Image`), and a frame with its
  block size (`EmbedSource`).
- `blocks` – where block `k` lies and which block a pixel lies in.
- `etcher` – painting and averaging blocks, etching bits or bytes into a
  frame, reading them back, and the instruction frame.
- `video` – etching data frame after frame, reading it back frame after
  frame, chunking for workers, and the laws on them: colour data reads back
  exactly; binary data reads back exactly when it is whole bytes and a
  frame holds whole bytes (or the data fits in one frame); any number of
  workers etches the same frames.
- `settings`, `args` – what is embedded and how; the user's parameters,
  resolution names, and the embedding configuration that options and
  presets give.
- `ui` – which question to ask next for missing parameters.
- `timer` – a named stopwatch.

`app/` is the program around it: command-line parsing, prompts, files,
video encoding and decoding, threads and downloading.
