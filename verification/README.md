# termleaf

A terminal book reader whose core is verified with Verus: plain-text and
EPUB ingestion guarded by bounded parsers, a logical document model,
cell-width-aware line breaking, reading navigation, and terminal image
rendering (half-block cells, Kitty, Sixel and iTerm2).

## Layout

- `src/` is the verified library. Each module states its behaviour in
  `requires` / `ensures` contracts over mathematical models (`Seq`, `Map`,
  spec functions and views) and Verus proves them. Calls into outside
  crates (`zip`, `image`, `resvg`, `unicode-linebreak`,
  `unicode-segmentation`, `unicode-width`, `quick-xml`, `scraper`, ...) sit
  behind small trusted wrappers whose doc comments say what is assumed.
- `tests/` holds the executable tests of the library.
- `app/` is the program around the library: argument handling, file and
  terminal I/O, the worker threads, and the event loop that performs what
  the library's state machines decide.
