# richls

`richls` lists files like `ls`, adding readable details and context: human-readable
sizes, local modification times, a `new` mark for recently created entries, the first
line of a directory's `README.md`, the metadata title of PDF files, optional
`.gitignore`/`.dockerignore` filtering, sorting by name, size or time, and a list of
files that may be worth cleaning up.

## Layout

- `src/` — the library, verified with Verus. Every public function states what it
  returns in its `ensures` clause, over specification functions on sequences and
  integers; laws that relate several functions are public proof functions named
  `law_*`.
  - `text` — character-sequence specifications and helpers (white space, trimming,
    splitting, joining, padding, decimal digits).
  - `cli`, `entry`, `listing`, `display` — options, entries, what is listed and the
    output lines.
  - `sort` — a verified stable merge sort of the entries.
  - `ignore` — ignore rules and wildcard matching.
  - `metadata` — mode strings, human-readable sizes (equal to the `f64` formatting
    with one decimal), local times, owner names.
  - `readme` — README taglines.
  - `pdf_lex`, `pdf` — the PDF syntax needed to find the document title.
  - `clean_suggest` — cleanup suggestions.
- `app/` — the command line program: argument parsing with `clap`, shell completions
  with `clap_complete`, and all file system access.
- `tests/` — tests of the library.
