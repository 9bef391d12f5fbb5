# file_flier

A disk-space analyser. It scans a directory, adds up the sizes of what it holds,
and lists the entries by size, by name, by the time last modified, or as found; a terminal browser lets one
walk down into directories and back.

Layout:

- `src/` is the verified library (Verus):
  - `config.rs` reads the command-line arguments into settings;
  - `text.rs` holds the character-level string operations the rest uses;
  - `tools.rs` holds sizes with their display unit, tree nodes, and list selections;
  - `sorting.rs` sorts a directory's entries stably and proves that the outcome is unique;
  - `lib.rs` builds directory nodes from what a scan reports and plans a listing;
  - `tui/app.rs` is the browser's state: the tree, the way down to the directory on
    screen, and what each key does.
- `app/` is the program around it: it reads the disk and the terminal, draws with
  ratatui, and prints sizes (the only floating-point arithmetic).
- `tests/` exercises the library.
