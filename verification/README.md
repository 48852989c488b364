# keb

Rename files to kebab case, safely and idempotently. The library is written in Verus:
every function carries a contract, and the properties the tool promises are stated
and proved as proof functions.

## Layout

- `src/` — the verified library
  - `word.rs`, `fold.rs`, `translit.rs`, `unicode.rs`: the word transform, from deleting
    invisible characters to the final whitelist
  - `name.rs`, `text.rs`: leading dots, extensions, the length budget, ordinals
  - `fixed_point.rs`: running the transform twice changes nothing the second time;
    `--ascii` narrows the alphabet
  - `separator.rs`: another separator changes the separators and nothing else
  - `alphabet.rs`: the characters the transform writes, for every name
  - `protect.rs`: names whose kebab form would break something
  - `plan.rs`: what a run does with each path, the input and work lists, options, undo
  - `rename.rs`: collision resolution, claims, temporary names, and the run over
    candidates that settles on the first free one
  - `tree.rs`: a model of the renamed tree, in which undoing a run gives back the tree
    it started from
  - `walk.rs`: what a recursive sweep visits, deepest first
  - `journal.rs`: the undo journal's format, and reading a run back
- `tests/` — the library on examples
- `app/` — the command-line tool: argument parsing, the disk, `git mv`, stdin

## What is proved, and on what

Character classes, case mappings, normalization and grapheme segmentation beyond ASCII
come from the standard library, `unicode-normalization` and `unicode-segmentation`;
their results are named in `unicode.rs` and the contracts speak of those names. The
idempotence and separator laws are proved for ASCII names, where the transform decides
every character itself, and under `--ascii` for every name, since the first pass then
writes ASCII.
