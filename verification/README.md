# sideromelane

The core of a local Markdown notes app, verified with Verus: note and
frontmatter parsing, wiki-link analysis and resolution, the backlink and
tag graph, keyword search, the files-panel tree, the live-preview rewrite
of wiki links and image embeds, the editor's completion and block logic,
and the decisions behind auto-save, file-watch conflicts, background
indexing, recent folders and preferences.

## Layout

- `src/` — the verified library. Every function states its result in its
  contract; laws that span several functions are public proof functions
  (`lemma_*`) next to the functions they speak of.
- `tests/` — ordinary Rust tests of the library on concrete values.
- `app/` — the desktop program around the library: the `eframe` window,
  file I/O, the folder walker, the file watcher, the indexer thread, the
  native menu, JSON settings and the floating-point parts (semantic search
  scores, graph layout, font sizes).

The few calls into code that is not verified here (`str::to_lowercase`,
the default hasher, `dirs::home_dir`) go through small wrappers marked
`#[verifier::external_body]`, each documenting what its contract assumes.

The window and menu crates (`eframe`, `egui`, `muda`, `rfd`) are not listed
in `Cargo.toml`, so `app/` does not build from this manifest alone. In
`app/state.rs`, recording a folder open lets the library decide which
recent folders stay (comparing them as paths), then maps each kept entry
back to the `PathBuf` it came from, so folders whose names are not UTF-8
survive; that mapping is ordinary, unverified code.
