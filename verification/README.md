# liquid2

Verified logic of the LM2 Review Mode pipeline for law-review PDFs: the
cues, repairs and decisions it applies to decoded source lines and assembled
blocks (note callouts and heads, note zones, outline headings, provenance),
the document it prepares from the assembled blocks, and the runtime and
status decisions around it. Building the blocks from the decoded lines is
not part of this library.

- `src/` is the library, verified with Verus:
  - `text` — character classes, trimming, tokens, searching, decimal numbers;
  - `markers` — encoded note callouts and note heads in line text;
  - `sequence` — locating the callout of a page's next note number;
  - `outline`, `reflow` — heading, outline and paragraph-boundary cues;
  - `captions` — numbered table and figure captions and anchors, and the
    citation cues of a note carried over a page break, read from
    normalized text;
  - `physical_heads` — note heads recovered from the physical sequence of
    note rows, round after round;
  - `abstracts` — the unlabeled abstract on the first pages given back to
    the body;
  - `subheadings` — numbered outline subheadings recovered from note blocks
    set between body blocks;
  - `blocks` — provenance bookkeeping of assembled blocks and the
    web-address note bridge;
  - `callouts` — recovery of note callouts split off as standalone numeric
    lines;
  - `rows` — row predicates over layout facts and font-size cues, and the
    note-zone evidence of note heads;
  - `zones` — footnote zones recovered from consecutive note heads;
  - `heads` — note heads recovered inside a note block from leading numbers;
  - `tables` — routing of blocks around tables and figures (captions,
    table rows, notes set among them);
  - `continuations` — footnote segments that carry the previous page's
    last note over a page break;
  - `lines`, `context`, `priors` — line-level layout cues and decoder
    guards (the anchored marginal-note guard and its note evidence);
  - `pipeline` — the document pipeline's decisions, notices and timing;
  - `models` — structural checks of the learned models and the choice of
    the context model for a document;
  - `runtime` — the decisions of loading the decoder runtime: follow-up
    loads, load warnings, model label and gated experimental switches;
  - `status` — the runtime status report and its command-line options.
- `tests/` exercises the library on concrete inputs.
- `app/` holds the host side: the status command's I/O and JSON, and the
  floating-point measurements of a line (font ratios, bounding boxes) turned
  into the threshold cues and callout geometry the library reads.

Text positions in the library are character indices.
