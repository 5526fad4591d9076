# wpm

A terminal typing speed test. A text of random words is shown; each typed
character turns green or red, Backspace takes it back, Tab starts over with new
words, Esc or Ctrl+C quits. At the end the speed, accuracy and counts are printed.

## Layout

- `src/` — the library, verified with Verus:
  - `types.rs`: characters with their states, styles, the layout and its view.
  - `banner.rs`: the title drawn above the text.
  - `engine.rs`: word wrapping and the placement of banner, controls, text,
    border and cursor on screen (`layout`), with the proof that the layout shows
    exactly the given text and puts the cursor on the first pending character;
    the character counts behind the statistics.
  - `screen.rs`: a screen buffer, drawing a layout on it, and the changes
    between two screens, with the proof that drawing those changes on the old
    screen gives the new one.
  - `generator.rs`: the word list and the random text.
  - `app.rs`: the session as a state machine from key presses to the next state
    and what to draw, keeping the text, layout and screen consistent.
- `app/` — the program: argument handling, the terminal (raw mode, reading keys,
  its size, escape codes), the clock and the floating-point statistics.
- `tests/` — tests of the library on concrete values.
