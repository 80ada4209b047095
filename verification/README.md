# spiral_rsvp

A speed reader that flashes one word at a time over a rotating spiral and
renders the result to video or GIF through ffmpeg.

- `src/` is the library, verified with Verus: the `.rsvp` script format
  (`content_parser`, with the `f32` literal syntax in `number` and the text
  primitives in `text`), the word rules (`rsvp`: fixation point, cleaning,
  punctuation pauses, masks), the frame layout and its padding to whole spiral
  periods (`scheduler`), hex color decoding (`color`) and the WAV header
  (`wav`).
- `app/` is the program around it: configuration loading, floating-point
  timing, audio synthesis, spiral and glyph rendering, and the ffmpeg pipes.
- `tests/` exercises the library on concrete inputs.
