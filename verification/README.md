# oob_tui

A terminal browser for interactsh out-of-band interaction logs (JSONL), with
its logic verified by Verus.

- `src/` is the verified library: parsing records into a time-ordered
  timeline, the free-text and protocol filters, grouping of identical
  requests, selection and scrolling, the plain-text export, the key bindings,
  the configuration file and its lookup order, the command line, and the
  text helpers of the screens. Calls into chrono, serde_json, toml and flate2
  stand behind small trusted wrappers whose contracts are documented where
  they are declared.
- `tests/` runs the library on concrete inputs.
- `app/` is the program around it: argument and file handling, the ssh fetch,
  the terminal loop and the ratatui screens.
