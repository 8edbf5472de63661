# rustx11shortcuts

Per-application key remapping for X11. Bindings map a key press (keysym and modifier mask)
either to another key press, sent in its place, or to a command, started on the press. Each
window class has its own bindings; a set of modifiers (such as Caps Lock and Num Lock) can be
ignored when key presses are matched.

- `src/` is the verified library: the bit positions of a mask and the combinations of them
  (`combinations`), key presses (`types`), callbacks and application bindings (`bindings`),
  and the remapper's state with its decision on each X event (`remap`).
- `app/` holds what talks to the X server: the display connection, the key grabs, the event
  loop that carries out the library's decisions, and the serde form of the bindings.
- `tests/` exercises the library on concrete values.
