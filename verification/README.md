# dux

A disk usage explorer: it scans a directory, shows what takes the space, and
lets you browse, search, mark and delete entries.

```sh
dux ~/Downloads
dux ~/Downloads --list
dux ~/Downloads --list --all --filter iso --limit 20
dux ~/Downloads --json
dux ~/Downloads --json | jq '.root.children[] | {size, path}'
```

## Layout

`src/` is the library, written in [Verus](https://github.com/verus-lang/verus):
every function states in its contract what it returns or changes, and the
contracts are proved.

- `paths`, `text`, `size`, `order`, `path_map`: paths by their parts, texts,
  byte counts, stable sorting, and a map from paths.
- `tree`, `scan`, `totals`: scanned trees, how a scan makes them of what was
  seen on the disk, and the sums that hold in them.
- `children`, `listing`, `search`, `ops`: the order of entries, the printed
  list, searching, and what is to be deleted or opened.
- `removal`: taking deleted entries out of a tree without a new scan.
- `state`, `browser`, `browser_laws`: the interactive browser, how it answers
  events, and what holds whatever happens.
- `startup`, `screen`: the first scan with its progress, and what the screens
  show.

Paths follow the rules of Unix systems, and the program builds only there. A few
functions of the standard library and one of `ratatui` are called through
declarations whose contracts are believed rather than proved; each says so in
its documentation.

`app/` is the program around the library: the command line, the file system,
threads, the search index, the trash and the terminal. `tests/` runs the
library.
