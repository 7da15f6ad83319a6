# kracko

A terminal multiplexer window whose terminals sit side by side on a
horizontally scrolling strip of full-height columns.

- `src/` is the verified library (Verus):
  - `horizontal_scroll/state.rs`: the strip's layout — ordered panes with
    unique, never reused identifiers, focus, insertion next to a pane,
    closing with focus handed to a neighbor — with its model (`StateView`)
    and the laws it obeys.
  - `app.rs`: the application's bookkeeping — one terminal number per pane,
    numbers never reused, opening and closing terminals.
- `app/` is the program around it: iced views and widgets, terminal
  processes, and the floating-point geometry (column widths, resizing,
  scrolling a pane into view).
- `tests/` exercises the library on concrete values.
