# macDirStat

A disk usage browser for the terminal. It shows a directory tree with the sizes
of all entries, an index of all files below the root with their types and ages,
files with the same contents, and what has changed since the last complete run.
Entries can be moved to the Trash.

The rules of the browser are a library, `macdirstat`, written in Verus: every
function states what it returns or changes, and that is proved. The program
around it reads the disk, draws on the terminal and runs the threads.

## The library, `src/`

| Modules | What they hold |
| --- | --- |
| `text`, `lists`, `order`, `sums`, `table`, `quantity`, `format` | texts, stable sorting, sums, tables looked up by path, decimal numbers |
| `path`, `portable_path` | paths as bytes, and how they are stored |
| `tree` and its submodules | the nodes that are loaded, their order, what is shown |
| `scanner`, `indexing`, `analytics` | what a walk through a directory tree adds up to |
| `digest`, `duplicates` | files with the same contents |
| `cache`, `snapshot` | what is kept from one run to the next |
| `watcher` | changes on disk, collected for a while |
| `filter` | the language of filters |
| `delete` | which entries may be moved to the Trash |
| `worker` | what the threads are asked to do and what they report |
| `app` and its submodules | the state of the browser, and what keys, the mouse and reports do to it |
| `rows`, `ui`, `theme` | what is shown |
| `cli`, `config`, `headless`, `release` | the command line, the settings, runs without a terminal |

The state of the browser is a value, `App`. A key, a click or a report of a
worker changes it; what is to be done outside is collected in it as a list of
effects. It is told the time and which workers have stopped, so that a change
knows what it can ask for. Each change has a counterpart on the model of the state, and the
executable function is proved to do just that.

Functions named as sentences, such as `only_a_yes_deletes` or
`directories_count_all_below_them`, are laws: they state what holds of several
functions together.

Calls into other crates (BLAKE3, Base64, slot maps, the parser of the command
line) stand in small functions whose contracts say what those crates promise.
These contracts are not proved.

## The program, `app/`

`main` with everything that touches the system: files, threads, channels, the
terminal, JSON and TOML, the Trash, the watcher.

## Tests, `tests/`

Ordinary tests of the library, on plain values.
