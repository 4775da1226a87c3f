# lifegame

Conway's Game of Life on an unbounded plane of packed `i32` coordinates, with a
window front end. The library under `src/` is verified with Verus; `app/` is the
program around it (command line, file reading, the `winit`/`pixels` window and
the terminal printing).

Modules of the library:

- `ppair`: coordinate pairs packed into one `i64`, and their neighbourhoods.
- `life`: the rules of the game as specifications (`life_step`) and the
  counting facts the incremental bookkeeping rests on.
- `collections`: the `ahash` sets and maps the game state lives in, with what
  each operation does to their contents.
- `game`: the game state (live cells, cells to look at, neighbour counts) and
  its operations; `processactives` advances exactly one generation.
- `screen`: mapping between the view and screen pixels, and drawing.
- `overlay`: the frame-rate and cell-count figures drawn over the frame.
- `letters`: typing text onto the board in a bitmap font.
- `input`: reading starting patterns from text.
- `events`: what each window event does to the game and the front end's state.
- `timing`, `chance`: the clock and random numbers.
