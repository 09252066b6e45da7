# ferroterm

A terminal emulator core: an escape-sequence parser following the DEC state
machine, a cell grid with scrollback, reflow on resize, hyperlinks, images
(Sixel, Kitty graphics, iTerm2 inline files), host replies, input encoding
and a packed render snapshot, with a few front-end helpers (snapshot
decoding, selection, software rasterizing of cells).

The library in `src/` is written in Verus. Every function carries a contract
over a mathematical model and is proved against it:

- `parser`: the tokenizer as a transition function on a parser model; the
  tokens any chunk of bytes yields (`m_run`), and laws on splitting input.
- `grid`, `reflow`: the screen as a sequence of rows; each edit
  (`edit_screen`) and rewrapping (`reflow_rows`) stated exactly.
- `terminal`: the emulator. `feed` applies the parsed tokens in order, each
  with its stated effect (`event_effect`: printing, C0 controls, CSI, ESC,
  OSC, Sixel, Kitty).
- `view`, `web`, `input`, `raster`, `layout`: snapshot decoding, selection,
  the browser-facing handle, key and mouse encoding, cell painting (for the
  software rasterizer and for a GPU front end, with selection highlighting
  and link hover), and the frame loop's size, blink and repaint decisions.
- `faces`: which face of a font file fills each of the four style slots,
  and how a missing style is synthesized from the regular face.
- `png_image`, `strings`, `chars`, part of `faces` and `view`: the calls
  into `png`, `ttf-parser` and std that Verus does not see, each behind a
  small trusted item whose contract says what the outside code does.

`app/` is ordinary Rust around the library: spawning a shell on a pty,
reading keys, rasterizing glyphs with a font, and driving the frame loop.

`tests/` holds the behavioral tests.
