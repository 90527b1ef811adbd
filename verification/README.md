# dfm

A dotfile manager: files of a target directory (usually `$HOME`) are kept in
a source directory, where names starting with `.` carry a `dot_` prefix,
symlinks are recorded as `.symlink` pointer files and sensitive files are
stored as `.encrypted` containers. A state file records when each pair was
last synchronized, so that `add`, `pull` and `sync` can tell which side
changed.

## Layout

- `src/` is the library, verified with Verus. Every decision the commands
  take stands there with its contract:
  - `paths`, `path_laws`: the path model (components, normalization,
    relative paths, the source-side names) and its laws.
  - `ignore`, `ignore_file`: ignore patterns, how they match paths, and the
    edits of the ignore files.
  - `state`, `settings`, `config_file`: sync records and conflict detection,
    the merged settings, and the properties of the configuration file.
  - `crypt`, `bytes`: the encrypted container format, written and read one
    record at a time (`EncryptSession`, `DecryptSession`) so that a file
    never has to be held whole; opening what was sealed with the same
    password gives back the content.
  - `tasks`, `commands`: what each command does with what it finds.
  - `status`, `report`, `order`: the status report, its folding of shared
    directories, and its order.
- `app/` is the program around it: the command line, the file system walks,
  the copies, the password prompt and the external tools.
- `tests/` runs the library on concrete values.
