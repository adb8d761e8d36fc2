# dep-analysis

Finds out which modules of a Rust crate depend on which, and shows the modules
directly below the crate's root as a graph on an HTML page.

    dep-analysis analyse src/lib.rs --output dependencies.json
    dep-analysis visualise dependencies.json --output graph.html

The library in `src/` is verified with Verus. It holds no input or output: the
walk over a crate's files is a state machine that asks for one thing at a time,
and the program in `app/` does what it asks for.

| Module | What it holds |
| --- | --- |
| `order`, `table`, `text` | total orders, ordered sets and maps, `::` paths and numerals |
| `prefix`, `path` | file paths, byte by byte, as Unix and as Windows read them |
| `syntax` | what is read off the syntax tree that `syn` builds |
| `usage`, `visitor` | which names a file uses from elsewhere |
| `modules`, `analyzer` | where declared modules have their files, and the walk over all files |
| `resolve`, `dependencies` | which module a usage points to, and the dependencies that follow |
| `graph`, `render`, `page`, `script` | the graph of the top-level modules and its page |
| `output`, `failure` | where results go, and what is said of failures |

The modules whose names end in `_laws` state what holds of these as a whole.
What is believed without proof is marked `external_body` or
`assume_specification`; it stands in `syntax` and `text`.
