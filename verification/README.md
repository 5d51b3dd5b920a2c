# qmenu

A minimal dmenu/rofi-style launcher for Wayland compositors that support
`wlr-layer-shell`. It shows a centred bar near the top of the screen, lets you type
to filter, and prints your choice. By default the choices are the lines of stdin;
with `--drun` they are the installed applications.

- `src/` is the launcher's logic, verified with Verus: the state of the menu and its
  keys, the parsing of desktop entries, the configuration, the search for icons, and
  the software drawing.
- `app/` is the program around it: the Wayland connection, text shaping, SVG
  rendering, and what reads the environment and the disk.
- `tests/` runs the library on concrete values.

Building the program takes the native libraries `wayland`, `libxkbcommon`,
`fontconfig` and `freetype`, and `pkg-config` to find them.

What a picture looks like once it is resampled is specified in part only, since the
`image` crate computes it in single precision: its size, that a picture of the right
size is kept, that plain areas keep their values and places, and that other values
stay near those around them.
