# ghostty_mcp

A configuration assistant for the Ghostty terminal, served over the Model
Context Protocol: search, read, write, remove and validate Ghostty options.

- `src/` is the verified library. It parses config files line by line and
  writes them back, makes targeted edits (set, append, comment out),
  validates values against the documented option types, searches the
  options with a fuzzy matcher, loads a config file's include tree, and
  composes the answer of every tool. Each public function states in its
  contract what it returns; the `law_*` proof functions state how the
  functions relate (a value written is the value read back, a removal
  leaves no value, later files of the include tree win, and so on).
- `app/` is the server around it: the protocol, reading and writing files,
  the environment, and loading the documented options from a JSON file
  (`GHOSTTY_OPTIONS_PATH`, by default `data/ghostty-options.json`).
- `tests/` exercises the library on concrete values.
