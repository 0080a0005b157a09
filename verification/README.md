# structurer

A note-taking library organised in titles and points, with its storage formats verified by
Verus.

A project is a directory of plain-text files: `Library.txt` (one line per title:
`id@name@point…`), `Sources.txt`, `Images.txt`, `Links.txt` (`id|--|linked…`), `Tags.txt`,
one file per title (its name, then the format version), and one file per point (its image,
date and time lines, then its text, which may carry the inline markers `[!i]`, `[!u]`, `[!l]`,
`[!H]` and `[!h]`).

- `src/` is the library. Each function reads or rewrites the text of these files and states in
  its contract exactly what comes out; the laws (`law_*`) state what holds across functions,
  such as reading back what was written.
- `tests/` runs the library on concrete texts.
- `app/` is the window around the library (egui): it reads and writes the files, draws the
  titles, points and the node view, and runs the node physics.
