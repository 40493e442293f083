# wincrust

Desktop automation for Windows and macOS, with its rules verified by Verus.

The library in `src/` decides; the program in `app/` reads the desktop and
carries out what was decided.

- `keys`: key specifications, read into chords without guessing.
- `input`: what is sent for a click, a chord or a text.
- `capture`: frames, what changed between two of them, what is worth sending,
  and PNG files through the `image` crate.
- `macos`: displays put together into one desktop, native key codes, scrolling.
- `text`, `ocr`: matching labels and lines across locales.
- `uia`: what an element is, the window handles, the walk over a window, the
  snapshots, and the rules by which an element may be acted on.
- `lease`: authorisations as text, signed through the `hmac` crate, and when
  one that comes back is taken.
- `dpi`, `cli`, `strings`: displays, the command line, and text helpers.

Each module states its laws as public proof functions whose names begin with
`law_`. What the library takes on trust is marked `external_body` or
`assume_specification`, with a comment that says what is claimed.

Floating point stays in `app/`: the library keeps shares as two counts and
takes sizes and thresholds as whole numbers.
