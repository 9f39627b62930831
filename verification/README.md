# projecthub

The verified core of ProjectHub, an always-on-top dock that groups external
windows into projects and switches between them with one keystroke.

- `src/` is the library, checked by Verus: the project model and store,
  window matching, the background pruner, hotkey parsing and routing, the
  event log's framing and rotation, and what each dock command does.
- `app/` is the Tauri application around it: plugins, tray, Win32 calls,
  files, locks, JSON (serde mirrors of the library's types).
- `tests/` exercises the library on concrete values.
