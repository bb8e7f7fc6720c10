# dush

What takes up space in a directory? `dush` sizes each of its immediate
children recursively, sorts them largest first, and shows them as a tree
report with bars, as a plain listing, as CSV, TSV or JSON, or in a window.

- `src/` is the library. It does no I/O: it decides what to look at next,
  takes what was found, and says what to print or show. It is verified with
  [Verus](https://github.com/verus-lang/verus), but for the calls into `std`,
  `csv` and `humansize`: their contracts, all in `src/outside.rs`, are believed
  without proof.
- `app/` walks the file system (with `diskus`), parses the command line and
  prints. `app/main.rs` is the command-line program. `app/bin/dush_gui.rs` and
  `app/bin/diskalyzer_gui.rs` are the roots of the two GTK4 front-ends, which
  need the GTK4 system libraries.
- `tests/` runs the library on concrete values.

Percentages are floating point and come from `app/` as texts.

```text
dush [PATH] [-a] [-n N | -A] [-L LEVELS] [-f pretty|text|csv|tsv|json]
```
