# slaunch

A launcher daemon for Wayland compositors with wlr-layer-shell: a popup
window that fuzzy-searches installed applications, commands on `$PATH` and
power actions, evaluates `=` expressions and looks up `:` emojis.

- `src/` is the verified library. It holds the configuration defaults, the
  one-byte control protocol and its socket paths, the `.desktop` parser and
  the scans of the applications directories and `$PATH` (over what the file
  system reported), the plugins' result lists and the invocations a launch
  starts, the priority-bucketed ranking of the fuzzy matcher's matches, the
  daemon's answers to requests, and the window's selection state.
- `app/` is the program around it: the command line, reading the
  environment, the file system and the configuration file, the socket
  server and file watcher, starting processes, evaluating calculator
  expressions, and the GTK window.
- `tests/` exercises the library from outside.
