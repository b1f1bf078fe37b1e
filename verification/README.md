# mudhuts

The decision-making core of a Wayland compositor in which every window lives in
a Hut, a console with its terminal and the windows opened from it. Huts are
stacked per output, and can be grouped into tabs and tiles.

- `src/` is the library, verified with Verus. The stack of Huts is a graph:
  `graph` and `tree` hold its structure, `graph_stack` the operations on it, and
  `stack_model`, `stack_exit`, `stack_geometry`, `stack_content` and
  `stack_laws` what those operations mean and keep. `console_hut` and
  `main_window` are a Hut and its windows, and `held` says that a window is held
  once. `handlers` answers clients, `portal` answers the desktop portals, `term`
  and `gpu_term` are the terminal and its drawing.
- `tests/` runs the library on concrete values.
- `app/` is the program around it: sockets, the bus, files, fonts, the GPU, and
  everything computed in floating point.

Proof functions whose names begin with `law_` state what holds of the library
as a whole.
