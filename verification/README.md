# kindle_glean

Syncs highlights, notes, vocabulary lookups and handwritten notebooks from a
Kindle (including the Scribe) into a Markdown vault.

- `src/` is the library, written and proved with Verus: the `My Clippings.txt`
  parser, the notebook (`.nbk`) page logic, the Markdown rendering of books,
  vocabulary and notebooks, device detection rules, the MTP packet and download
  planning logic, the sync rules and the stored-record conversions. Calls into
  outside crates (regex, chrono, sha2, zip, directories, base64) sit behind small
  trusted wrappers whose contracts are documented where they are declared.
- `tests/` runs the library on concrete inputs.
- `app/` is the command-line program around it: file and USB I/O, the SQLite
  store, the converter processes and the device watcher.
