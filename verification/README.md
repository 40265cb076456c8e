# fsview

`fsview` keeps the metadata of folder hierarchies (folders, files and the problems met
reading them) in a SQLite database, lists what it holds, and finds folders whose files
are duplicates of each other.

The library in `src/` is written in Verus: each public function carries a `requires` /
`ensures` contract, and the properties that span several functions are stated and proved
as public proof functions (their names start with `lemma_`).

- `objects`, `filesys`: the metadata model, as read back from the database and as
  collected from a filesystem.
- `load`, `rows`: the rows a load inserts, parents before children, and the rows of the
  database queries gathered back into folders, problems and duplicate file identifiers.
- `hierarchy`, `forest`: folder hierarchies rebuilt from folders listed parent first, and
  the trees they are stated over.
- `groupid`, `filematch`, `analysis`, `foldersmd`, `duplicates`, `matching`, `nomatch`:
  the duplicate folder analysis.
- `listing`, `folder_reports`, `report`, `decimal`: report content and the column text
  layout.
- `args`, `commands`: command line checks and the decisions taken from the arguments.
- `order`, `sorting`: string, path and identifier orders, and stable sorting.
- `entities`: the value types handed to Python by the weather data bindings.

`app/` holds the command line program around the library: argument parsing, logging,
the SQLite session, the filesystem walk and the printing of reports. `tests/` exercises
the library on concrete values.
