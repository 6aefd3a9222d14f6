# Rime Dict Studio: the verified core

The logic of a Rime `.dict.yaml` dictionary editor, written in Verus and proved against its
contracts.

- `src/` is the library, every function of it verified:
  - `text`, `order`, `paths`: strings as character sequences, lexicographic orders, and paths
    with the meaning that `std::path` gives them (components, join, parent, file name,
    equality and order) on each platform;
  - `yaml`: the one call into `serde_yaml`, behind a trusted wrapper;
  - `dictionary`: dictionary headers and their `import_tables`, the discovery of a group's
    roots, and the step-by-step loading of a group (each file read once);
  - `save`: the single-file save plan with its rolling `<file>.backup`, and the group save
    that writes every backup before any text and rolls back on a failed write;
  - `deployer`: finding the Rime deployer of each platform from file-system facts, and the
    step-by-step run of the deployer with its timeout;
  - `preferences`: what the application remembers.
- `app/` is the Tauri application: its commands do the file-system and process work and
  drive the library's step functions.
- `tests/` runs the library on concrete values, with in-memory file systems where the
  application would touch the disk.
