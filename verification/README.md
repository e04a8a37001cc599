# warp-to

`warp-to` finds a directory near the working directory from a few search
terms (`w foo bar`, `w /usr local`, `w +shortcut/sub`, `w .2`) and prints it.

The library under `src/` holds the tool's logic, verified with Verus:

- `text`: splitting terms on `/`, with the meaning of `str::split`.
- `search`: how an argument is read into a search group, and how the list of
  arguments becomes a search.
- `args`: what the command line asks for (options are split by `lexopt`).
- `config`: shortcuts and ignored directory names.
- `paths`: the parts of `std::path` the search uses, jumps up the tree, and
  ASCII-case-insensitive name comparison.
- `walker`: a breadth-first directory walk as a state machine; the caller
  lists directories for it.
- `runner`: a whole search as a state machine; the caller answers its
  requests (working and home directory, configuration, existence checks,
  directory listings).

`app/main.rs` is the program: it reads the environment and the file system,
loads and saves the JSON configuration with `serde_json`, and answers the
runner's requests. The runner asks for the root directory, for `/` alone
and for terms that start with `/`; on Windows the program answers with the
drive root of the working directory (`paths::fetch_drive_root`), elsewhere
with `/`. On Windows it also takes the configuration path under `APPDATA`
and the Windows default ignored names.
