# SakuraDB

A lightweight embedded SQL database. The library under `src/` is verified with Verus: every function
states what it does, and the proofs are checked along with the code.

- `sql`: lexer, grammar, parser and syntax tree.
- `engine`: rows, schemas, conditions, indexes, joins, the tables of a database, and the databases.
  `engine/semantics.rs` says what each statement does to a database; `engine/laws.rs` says what follows
  from it.
- `storage`: pages of 4096 bytes, the pager with its LRU cache and free list, and B+ trees.
- `render` and `script`: results as text, and scripts of statements.

The library does no input or output. `app/` reads and writes the files of a data directory, and runs a
script:

    sakuradb <sql_file>

Numbers with a decimal point are known to the library by the bits of their IEEE 754 representation; the
program around it reads and shows them.

A database file is found again as it was left as long as its catalog, which holds one entry for each
table and index, fits into one page of 100 entries: the catalog is looked for in the first page.
