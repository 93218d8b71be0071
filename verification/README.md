# dir_tools

`dirt` is a command-line tool for directories: it makes hidden files visible, flattens a
tree into one directory, merges snapshot directories (newer files win), renames entries,
prefixes file names with their directory's name, searches by name, contents or regular
expression, locks a file for a while, and draws a directory tree.

The decisions behind these operations live in a library verified with Verus:

- `src/` — the library. Paths are modelled as text read the way `std::path::Path` reads
  them, under Unix rules or under Windows rules (`\` separators, drive and UNC prefixes),
  chosen by a flag that the program takes from the platform (`paths`). Each operation has
  its own module (`flatten`, `merge`, `glob`, `rename`, `find`, `live`, `lock`, `tree`,
  `transfer`, `operations`). The public functions state what they return over spec
  functions, except the two that read the platform's path separator; the laws that span
  several functions are public proof functions next to them. Calls into `regex`, `unicode-width`,
  `terminal_size` and std's default hasher go through small trusted wrappers whose doc
  comments say what is believed of them.
- `app/` — the program: argument parsing with `clap`, the walks over the file system,
  progress bars, threads, and the copying, moving and renaming of files.
- `tests/` — tests of the library on concrete values.
