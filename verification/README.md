# logicrs

A logic-circuit editor and simulator. Circuits are drawn on plots: blocks
(instances of modules) whose pins are joined by wires. Predefined modules
are the usual gates, latches and flip-flops, switches, buttons and lamps;
custom modules have a plot of their own with an input and an output block,
and can be placed inside other plots.

## Layout

- `src/` is the library, written in Verus and verified: blocks, wires and
  plots, the predefined modules and their truth tables, custom modules and
  the simulation of a project step by step, the undo history of edits, the
  clipboard, the decisions taken while dragging with the pointer (blocks, wires and
  waypoints), merging
  an imported module file into a project, and the user settings. Each public function states its effect in its contract;
  the `lemma_*` proof functions state properties that relate several
  functions (undoing an edit, the behaviour of the gates, saving and
  restoring plot states, reading back a setting).
- `tests/` runs the library on concrete circuits and edits.
- `app/` is the GTK front end: the window, drawing with cairo, dialogs,
  keyboard and pointer handling, reading and writing project, module and
  settings files, and the thread that runs the simulation at a fixed rate.
