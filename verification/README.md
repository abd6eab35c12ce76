# md_viewer_rs

The verified core of a lightweight, read-only Markdown viewer for Linux.

- `src/` is the library, verified with Verus:
  - `text`: the character-level model (`lines`, `trim`, `split`, `join`, prefixes)
    and its executable counterparts;
  - `normalize`: the rewriting of code fences before display;
  - `sections`: splitting a document at its headings for the table of contents;
  - `tables`: recognising pipe tables and cutting a section into markdown and
    table blocks;
  - `render`: what is drawn for a section, and each table with all of its cells;
  - `fonts`: the default family, the catalog of installed families, and the
    face file chosen for body text and for code;
  - `viewer`: the viewer's state and the decisions it takes on each event.
- `app/` is the window (eframe/egui): it reads files and fonts, shows the file
  dialog and draws, and asks the library for every decision.
- `tests/` runs the library on concrete documents.

## Notes on data structures

- The family names of the font catalog are kept in a strictly increasing
  `Vec`, not a `BTreeSet<String>`: vstd's specification of the B-tree
  collections rests on an ordering specification of the key type, which
  `String` does not have, so nothing about a `BTreeSet<String>` could be
  proved. The invariant the set gave (sorted, no name twice) is stated and
  proved of the vector instead (`strictly_sorted`, `is_catalog_of`).
- The faces of each family are kept in a `Vec<FontFamily>` in the order of the
  names, not a `HashMap<String, Vec<_>>`: with `String` keys vstd's hash map
  specification yields no usable facts, and a hash map has no order to
  keep. Each family's faces are stated exactly (`faces_named`).
- Tables are shown with all their cells: each row is padded with empty cells to
  the number of header cells (`shown_table`).
