# mmlfold

Reads MIDI and MMI scores, thins them out, gives their notes to a few tracks of MML parts, and
cuts them into scrolls that fit into a number of characters. What the library does is stated in
the contracts of its functions and proved with Verus.

- `src/` is the library.
  - Texts and scores: `mml`, `writer`, `lengths`, `mmi`, `storage`, `meta`, `score`, `roundtrip`,
    `reading`.
  - MIDI: `smf`, `song`, `midi`, `placing`, `voices`, `assemble`, `import`, `input`.
  - Scrolls: `cuts`, `chunk`, `frame`, `scroll`, `split`, `lossless`, `game_mml`, `struck`.
  - Folding: `fold`, `folding`, `checked`, `reduce`, `spared`, `salience`, `lookback`, `attacks`,
    `chords`, `harmony`, `attack_selection`, `core_selection`, `onsets`, `musical`, `voicing`,
    `seating`, `homes`, `packing`, `ratio`, `encode`, `written`, `arranging`, `report`.
  - Times that mobile players can read: `mobile`, `boundaries`, `resolve`, `adapt`, `prepare`,
    `prepared`.
  - Work and files: `workflow`, `files`, `verify`, `downloads`, `archive`, `options`, `jobs`,
    `workspace`.
  - Sound and sight: `instruments`, `piano`, `audibility`, `playback`, `timeline`, `roll`.
- `app/` is the command line program. What is computed in floating point stands there: the
  library takes whole numbers that have the same order.
- `tests/` holds the tests.
