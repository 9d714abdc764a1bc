# midi2strudel

Reads a Standard MIDI File, collects the notes of each track, spreads them
over lanes so that no two notes of a lane overlap, and lays each lane out on
a grid of equal steps, then writes the tracks out as Strudel code: one word
per step at opt-level 0, runs of rests and holds collapsed (`-@8`, `60@4`) at
opt-level 1 and above.

The library in `src/` is verified with Verus:

- `stream`: buffers kept back to front, read byte by byte.
- `chunks`: the chunk layer of the file and the header chunk.
- `vlq`: variable-length quantities (delta times).
- `track`: the events and text of a track chunk.
- `notes`: from events to notes.
- `lanes`: sorting notes by start and spreading them over lanes.
- `quantize`: lanes on the grid.
- `codegen`: Strudel code for tracks and files.
- `midi`: the whole file, with the reasons a file cannot be read.
- `warnings`: what reading passes over (events, chunks, note-offs with
  nothing to close, notes never closed), as values, in the order met.

`app/main.rs` is the command-line program: `midi2strudel <file.mid> [opt-level]`;
it prints the warnings on standard error and writes the code to
`midi2strudel.js` next to the input file.
