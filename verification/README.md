# bt_visualizer

A window that shows the behavior tree of a running program. The tree arrives in
messages; groups of nodes in it are shown closed, with the names of their
outputs, and open on a click.

- `src/` is the model, verified with Verus: the tree (`tree`), the watched group
  (`group`), what is drawn of its nodes (`shape`), the colors (`color`), the
  times of the messages (`time`), the texts (`text`) and the state of the window
  (`state`). `laws` states what holds of them together.
- `app/` is the window: the socket, the decoding of messages, and the drawing,
  whose coordinates are floating-point numbers. It reads its font from
  `assets/NotoSans-Bold.ttf` where that file is there.
- `tests/` runs the model on concrete trees.
