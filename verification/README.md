# deslop

A terminal tool for rewriting a markdown file in your own words, one paragraph at a time.

- `src/` is the verified library (Verus):
  - `text.rs`: whitespace, `str::lines`-style line splitting, joining, words;
  - `chunks.rs`: splitting markdown into paragraph chunks (fenced code blocks stay whole),
    with the laws of the splitter;
  - `app.rs`: the rewrite session as a state machine from key to next state and action;
  - `diff.rs`: the word-level diff shown beside the editor (through `similar`);
  - `layout.rs`: sizing the panes and centring the quit popup;
  - `paths.rs`: the default output path.
- `app/` is the terminal program: argument parsing, file I/O, the event loop, the editor
  widget and the drawing.
- `tests/` runs the library on concrete inputs.
