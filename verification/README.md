# colorthief

Dominant colours of a frame, each with the name of the nearest entry in a
palette, verified with Verus.

A frame's pixels are counted in a histogram of 32 x 32 x 32 cells. Boxes of
cells are cut in two at their population median until there are as many as
colours were asked for; the mean of each box is a dominant colour, and the
palette entry nearest to it by the chosen colour-difference formula names it.
Palette entries carry permanent ids, handed out by a ledger that never
renumbers an entry and never hands a retired id out again.

## Layout

- `src/` — the library. Every function is verified against its contract.
  - `frame`, `buffer`: frames as input, buffers as output.
  - `mmcq`: histogram, boxes, cuts, the quantizer, and its laws.
  - `nearest`: full search, prefiltered search, candidate table.
  - `palette`, `color`, `algorithm`, `distance`: named colours and lookups.
  - `extract`, `dominant`: whole frames to named dominant colours, and what
    holds of several extractions together.
  - `codegen`: the permanent-id ledger and the plan of the generated tables.
- `tests/` — the library on concrete values.
- `app/` — the generator program around the library: files, locks, source
  tokens, and the colour-difference formulas in single precision, which the
  library takes as bit patterns.

Distances are handed to the library as a function from a metric, a colour and
a palette index. The laws (`law_*`) state what holds of the library as a whole.
