# npump

An interactive terminal tool for npm projects: it reads `package.json` (and
the manifests of the workspaces it lists), asks the npm registry for the
latest release of every dependency whose specifier names a version, shows
the ones with newer releases, and rewrites the chosen specifiers in place,
keeping range operators such as `^` and `~`.

- `src/` is the library, verified with Verus: the version pattern searched
  in specifiers, the manifest edits, which dependencies are looked up and in
  what order they are shown, which matched manifest paths are the same and
  in what order they are loaded, what registry answers mean, and the
  selection screen's state.
- `app/` is the program around it: reading and writing files, HTTP requests,
  globbing workspace patterns, and drawing the terminal screen.
- `tests/` runs the library on concrete inputs, and compares the version
  search with the `regex` crate.
