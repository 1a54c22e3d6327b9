# bmo

`bmo` copies code context to the clipboard: run it in a project, pick files and
folders in a terminal tree, choose a format (a nested-brace outline of the
structure, the files' contents in code fences, or both) and the text lands on
the clipboard (or on stdout when no clipboard tool is found).

Layout:

- `src/` — the verified library (Verus):
  - `tree.rs` — the flat pre-order rows, subtree ranges, toggling, parent links,
    visibility, cursor and scroll arithmetic;
  - `picker.rs` — the picker as a state machine driven by key presses;
  - `screen.rs` — the picker's frame as text (rows, footer, cutting and styling
    through `console`);
  - `walk.rs` — a directory listing turned into rows (ignored names dropped,
    folders first, names in order);
  - `structure.rs` — the nested-brace outline of a selection;
  - `outline_laws.rs` — laws of that outline: insertion order and repetition
    do not matter, and every node with children is a folder;
  - `selection.rs` — what a selection covers: sorted, de-duplicated files;
  - `contents.rs`, `lang.rs` — the contents listing and code-fence languages;
  - `memory.rs` — the file that remembers the last selection;
  - `cli.rs` — command-line flags and output modes;
  - `clipboard.rs` — which clipboard programs to try, in order;
  - `path.rs`, `text.rs`, `order.rs` — paths, strings and sorted sequences.
- `app/` — the program: terminal, file system, environment, clipboard.
- `tests/` — tests of the library.

## The structure tree's children

The structure view keeps each folder's children in a `Vec<(String, TreeNode)>`
sorted by name, each name once (`outline_wf` in `structure.rs`), rather than in
a `BTreeMap<String, TreeNode>`. Both forms of the map were tried:

- `children.entry(name).or_default()`, as the tree inserts a child: Verus
  refuses the call (`BTreeMap::entry`, the `Entry` type and `or_default` are
  "not supported"; vstd gives them no specification).
- `insert` on a `BTreeMap<String, _>`: accepted, but after one insertion into
  an empty map Verus could not prove that the map holds one key. vstd's
  `BTreeMap` specification holds only for key types that obey its model of
  `Ord`, and it gives `String` no such model, so neither the contents nor the
  order of iteration could be proved.

The sorted vector, whose order and uniqueness are proved, takes its place.
